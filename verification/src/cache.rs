use vstd::prelude::*;
use crate::model::{Poi, PoiView, RoadNode, Way, WayView};
use crate::classify::upsert_all;

verus! {

/// The points of interest lying strictly within the limit, paired with
/// their distances: entry `k` of the distances row is the straight-line
/// distance in meters from poi `k` to the query coordinate.
pub open spec fn filter_pois_spec(ps: Seq<PoiView>, ds: Seq<u64>, limit: u64) -> (
    Seq<PoiView>,
    Seq<u64>,
)
    decreases ps.len(),
{
    if ps.len() == 0 {
        (Seq::empty(), Seq::empty())
    } else {
        let r = filter_pois_spec(ps.drop_last(), ds.drop_last(), limit);
        if ds.last() < limit {
            (r.0.push(ps.last()), r.1.push(ds.last()))
        } else {
            r
        }
    }
}

/// Whether a way survives the geo filter: at least one of its nodes lies
/// strictly within the limit.
pub open spec fn way_within(wds: Seq<u64>, limit: u64) -> bool {
    exists|j: int| 0 <= j < wds.len() && #[trigger] wds[j] < limit
}

/// The ways that keep at least one node within the limit, paired with
/// their node-distance rows.
pub open spec fn filter_ways_spec(ws: Seq<WayView>, wds: Seq<Seq<u64>>, limit: u64) -> (
    Seq<WayView>,
    Seq<Seq<u64>>,
)
    decreases ws.len(),
{
    if ws.len() == 0 {
        (Seq::empty(), Seq::empty())
    } else {
        let r = filter_ways_spec(ws.drop_last(), wds.drop_last(), limit);
        if way_within(wds.last(), limit) {
            (r.0.push(ws.last()), r.1.push(wds.last()))
        } else {
            r
        }
    }
}

/// The road-node set of a way sequence, rebuilt by writing every node of
/// every way in order, last write winning.
pub open spec fn nodes_of_ways(ws: Seq<WayView>) -> Seq<RoadNode>
    decreases ws.len(),
{
    if ws.len() == 0 {
        Seq::empty()
    } else {
        upsert_all(nodes_of_ways(ws.drop_last()), ws.last().nodes)
    }
}

/// Keeps the points of interest whose straight-line distance from the
/// query coordinate is strictly below the limit, together with their
/// distances. Entry `k` of `dists` must hold the distance of poi `k`.
pub fn filter_pois_by_distance(pois: &Vec<Poi>, dists: &Vec<u64>, limit: u64) -> (r: (
    Vec<Poi>,
    Vec<u64>,
))
    requires
        dists@.len() == pois@.len(),
    ensures
        r.0.deep_view() =~= filter_pois_spec(pois.deep_view(), dists@, limit).0,
        r.1@ =~= filter_pois_spec(pois.deep_view(), dists@, limit).1,
        r.1@.len() == r.0@.len(),
{
    let mut kept: Vec<Poi> = Vec::new();
    let mut kept_d: Vec<u64> = Vec::new();
    let mut i: usize = 0;
    while i < pois.len()
        invariant
            dists@.len() == pois@.len(),
            i <= pois@.len(),
            kept.deep_view() =~= filter_pois_spec(
                pois.deep_view().take(i as int),
                dists@.take(i as int),
                limit,
            ).0,
            kept_d@ =~= filter_pois_spec(
                pois.deep_view().take(i as int),
                dists@.take(i as int),
                limit,
            ).1,
            kept_d@.len() == kept@.len(),
        decreases pois.len() - i,
    {
        proof {
            assert(pois.deep_view().take(i + 1).drop_last() =~= pois.deep_view().take(i as int));
            assert(dists@.take(i + 1).drop_last() =~= dists@.take(i as int));
            assert(pois.deep_view().take(i + 1).last() == pois.deep_view()[i as int]);
            assert(dists@.take(i + 1).last() == dists@[i as int]);
        }
        if dists[i] < limit {
            kept.push(pois[i].duplicate());
            kept_d.push(dists[i]);
        }
        i = i + 1;
    }
    proof {
        assert(pois.deep_view().take(pois@.len() as int) =~= pois.deep_view());
        assert(dists@.take(dists@.len() as int) =~= dists@);
    }
    (kept, kept_d)
}

/// A fresh copy of a row of distances.
fn copy_row(row: &Vec<u64>) -> (r: Vec<u64>)
    ensures
        r@ =~= row@,
{
    let mut r: Vec<u64> = Vec::new();
    let mut i: usize = 0;
    while i < row.len()
        invariant
            i <= row@.len(),
            r@ =~= row@.take(i as int),
        decreases row.len() - i,
    {
        r.push(row[i]);
        i = i + 1;
    }
    proof {
        assert(row@.take(row@.len() as int) =~= row@);
    }
    r
}

/// Whether any entry of the row lies strictly below the limit.
fn row_has_near(row: &Vec<u64>, limit: u64) -> (r: bool)
    ensures
        r == way_within(row@, limit),
{
    let mut j: usize = 0;
    while j < row.len()
        invariant
            j <= row@.len(),
            forall|k: int| 0 <= k < j ==> !(#[trigger] row@[k] < limit),
        decreases row.len() - j,
    {
        if row[j] < limit {
            return true;
        }
        j = j + 1;
    }
    false
}

/// Keeps the ways that retain at least one node strictly within the
/// limit, together with their node-distance rows. Row `w` of
/// `node_dists` must hold the distance of each node of way `w` from the
/// query coordinate, in node order.
pub fn filter_ways_by_distance(ways: &Vec<Way>, node_dists: &Vec<Vec<u64>>, limit: u64) -> (r: (
    Vec<Way>,
    Vec<Vec<u64>>,
))
    requires
        node_dists@.len() == ways@.len(),
    ensures
        r.0.deep_view() =~= filter_ways_spec(ways.deep_view(), node_dists.deep_view(), limit).0,
        r.1.deep_view() =~= filter_ways_spec(ways.deep_view(), node_dists.deep_view(), limit).1,
        r.1@.len() == r.0@.len(),
{
    let mut kept: Vec<Way> = Vec::new();
    let mut kept_d: Vec<Vec<u64>> = Vec::new();
    let mut w: usize = 0;
    while w < ways.len()
        invariant
            node_dists@.len() == ways@.len(),
            w <= ways@.len(),
            kept.deep_view() =~= filter_ways_spec(
                ways.deep_view().take(w as int),
                node_dists.deep_view().take(w as int),
                limit,
            ).0,
            kept_d.deep_view() =~= filter_ways_spec(
                ways.deep_view().take(w as int),
                node_dists.deep_view().take(w as int),
                limit,
            ).1,
            kept_d@.len() == kept@.len(),
        decreases ways.len() - w,
    {
        proof {
            assert(ways.deep_view().take(w + 1).drop_last() =~= ways.deep_view().take(w as int));
            assert(node_dists.deep_view().take(w + 1).drop_last() =~= node_dists.deep_view().take(
                w as int,
            ));
            assert(ways.deep_view().take(w + 1).last() == ways.deep_view()[w as int]);
            assert(node_dists.deep_view().take(w + 1).last() == node_dists.deep_view()[w as int]);
            assert(node_dists.deep_view()[w as int] =~= node_dists@[w as int]@);
        }
        if row_has_near(&node_dists[w], limit) {
            kept.push(ways[w].duplicate());
            kept_d.push(copy_row(&node_dists[w]));
        }
        w = w + 1;
    }
    proof {
        assert(ways.deep_view().take(ways@.len() as int) =~= ways.deep_view());
        assert(node_dists.deep_view().take(node_dists@.len() as int) =~= node_dists.deep_view());
    }
    (kept, kept_d)
}

/// Rebuilds the road-node set from the surviving ways' node lists, so
/// that a way's far nodes are retained as long as the way itself
/// qualifies.
pub fn rebuild_road_nodes(ways: &Vec<Way>) -> (r: Vec<RoadNode>)
    ensures
        r@ =~= nodes_of_ways(ways.deep_view()),
{
    let mut nodes: Vec<RoadNode> = Vec::new();
    let mut w: usize = 0;
    while w < ways.len()
        invariant
            w <= ways@.len(),
            nodes@ =~= nodes_of_ways(ways.deep_view().take(w as int)),
        decreases ways.len() - w,
    {
        proof {
            assert(ways.deep_view().take(w + 1).drop_last() =~= ways.deep_view().take(w as int));
            assert(ways.deep_view().take(w + 1).last() == ways.deep_view()[w as int]);
        }
        let ghost before = nodes@;
        let way = &ways[w];
        let mut k: usize = 0;
        while k < way.nodes.len()
            invariant
                k <= way.nodes@.len(),
                nodes@ =~= upsert_all(before, way.nodes@.take(k as int)),
            decreases way.nodes.len() - k,
        {
            crate::classify::upsert_node(&mut nodes, way.nodes[k]);
            proof {
                assert(way.nodes@.take(k + 1).drop_last() =~= way.nodes@.take(k as int));
                assert(way.nodes@.take(k + 1).last() == way.nodes@[k as int]);
            }
            k = k + 1;
        }
        proof {
            assert(way.nodes@.take(way.nodes@.len() as int) =~= way.nodes@);
            assert(ways.deep_view()[w as int].nodes =~= way.nodes@);
        }
        w = w + 1;
    }
    proof {
        assert(ways.deep_view().take(ways@.len() as int) =~= ways.deep_view());
    }
    nodes
}

/// Law: every node of every way is present in the road-node set rebuilt
/// from those ways, so the network stages can look every way node up.
pub proof fn lemma_rebuilt_nodes_cover_ways(ws: Seq<WayView>)
    ensures
        forall|w: int, k: int|
            0 <= w < ws.len() && 0 <= k < ws[w].nodes.len() ==> crate::classify::has_node(
                nodes_of_ways(ws),
                (#[trigger] ws[w].nodes[k]).id,
            ),
    decreases ws.len(),
{
    if ws.len() > 0 {
        lemma_rebuilt_nodes_cover_ways(ws.drop_last());
        let prev = nodes_of_ways(ws.drop_last());
        crate::classify::lemma_upsert_all_keeps_ids(prev, ws.last().nodes);
        assert forall|w: int, k: int|
            0 <= w < ws.len() && 0 <= k < ws[w].nodes.len() implies crate::classify::has_node(
            nodes_of_ways(ws),
            (#[trigger] ws[w].nodes[k]).id,
        ) by {
            if w < ws.len() - 1 {
                assert(ws.drop_last()[w] == ws[w]);
                assert(crate::classify::has_node(prev, ws[w].nodes[k].id));
            } else {
                assert(ws[w] == ws.last());
            }
        }
    }
}

/// Law: the rebuilt road-node set holds one node per unique external id.
pub proof fn lemma_rebuilt_node_ids_unique(ws: Seq<WayView>)
    ensures
        crate::classify::unique_node_ids(nodes_of_ways(ws)),
    decreases ws.len(),
{
    if ws.len() > 0 {
        lemma_rebuilt_node_ids_unique(ws.drop_last());
        crate::classify::lemma_upsert_all_unique(
            nodes_of_ways(ws.drop_last()),
            ws.last().nodes,
        );
    }
}

/// Every distance paired with a kept poi lies strictly below the limit.
proof fn lemma_filter_pois_below(ps: Seq<PoiView>, ds: Seq<u64>, limit: u64)
    requires
        ds.len() == ps.len(),
    ensures
        filter_pois_spec(ps, ds, limit).1.len() == filter_pois_spec(ps, ds, limit).0.len(),
        forall|k: int|
            0 <= k < filter_pois_spec(ps, ds, limit).1.len() ==> #[trigger] filter_pois_spec(
                ps,
                ds,
                limit,
            ).1[k] < limit,
    decreases ps.len(),
{
    if ps.len() > 0 {
        lemma_filter_pois_below(ps.drop_last(), ds.drop_last(), limit);
    }
}

/// Law: geo-filtering is idempotent up to widening. Filtering an
/// already-filtered result again, against the same coordinate's
/// distances and a limit at least as large, keeps every point of
/// interest of the prior result.
pub proof fn lemma_geo_filter_pois_stable(ps: Seq<PoiView>, ds: Seq<u64>, l1: u64, l2: u64)
    requires
        ds.len() == ps.len(),
        l1 <= l2,
    ensures
        filter_pois_spec(
            filter_pois_spec(ps, ds, l1).0,
            filter_pois_spec(ps, ds, l1).1,
            l2,
        ).0 =~= filter_pois_spec(ps, ds, l1).0,
{
    lemma_filter_pois_below(ps, ds, l1);
    lemma_filter_pois_all_kept(filter_pois_spec(ps, ds, l1).0, filter_pois_spec(ps, ds, l1).1, l2);
}

/// Filtering keeps everything when every distance is already below the
/// limit.
proof fn lemma_filter_pois_all_kept(ps: Seq<PoiView>, ds: Seq<u64>, limit: u64)
    requires
        ds.len() == ps.len(),
        forall|k: int| 0 <= k < ds.len() ==> #[trigger] ds[k] < limit,
    ensures
        filter_pois_spec(ps, ds, limit).0 =~= ps,
        filter_pois_spec(ps, ds, limit).1 =~= ds,
    decreases ps.len(),
{
    if ps.len() > 0 {
        assert forall|k: int| 0 <= k < ds.len() - 1 implies #[trigger] ds.drop_last()[k]
            < limit by {
            assert(ds.drop_last()[k] == ds[k]);
        }
        lemma_filter_pois_all_kept(ps.drop_last(), ds.drop_last(), limit);
        assert(ds.last() == ds[ds.len() - 1]);
        assert(filter_pois_spec(ps, ds, limit).0 =~= ps.drop_last().push(ps.last()));
        assert(ps.drop_last().push(ps.last()) =~= ps);
        assert(filter_pois_spec(ps, ds, limit).1 =~= ds.drop_last().push(ds.last()));
        assert(ds.drop_last().push(ds.last()) =~= ds);
    }
}

/// Every kept way still has a node within the limit.
proof fn lemma_filter_ways_within(ws: Seq<WayView>, wds: Seq<Seq<u64>>, limit: u64)
    requires
        wds.len() == ws.len(),
    ensures
        filter_ways_spec(ws, wds, limit).1.len() == filter_ways_spec(ws, wds, limit).0.len(),
        forall|k: int|
            0 <= k < filter_ways_spec(ws, wds, limit).1.len() ==> way_within(
                #[trigger] filter_ways_spec(ws, wds, limit).1[k],
                limit,
            ),
    decreases ws.len(),
{
    if ws.len() > 0 {
        lemma_filter_ways_within(ws.drop_last(), wds.drop_last(), limit);
    }
}

/// Filtering keeps every way that already qualifies.
proof fn lemma_filter_ways_all_kept(ws: Seq<WayView>, wds: Seq<Seq<u64>>, limit: u64)
    requires
        wds.len() == ws.len(),
        forall|k: int| 0 <= k < wds.len() ==> way_within(#[trigger] wds[k], limit),
    ensures
        filter_ways_spec(ws, wds, limit).0 =~= ws,
        filter_ways_spec(ws, wds, limit).1 =~= wds,
    decreases ws.len(),
{
    if ws.len() > 0 {
        assert forall|k: int| 0 <= k < wds.len() - 1 implies way_within(
            #[trigger] wds.drop_last()[k],
            limit,
        ) by {
            assert(wds.drop_last()[k] == wds[k]);
        }
        lemma_filter_ways_all_kept(ws.drop_last(), wds.drop_last(), limit);
        assert(wds.last() == wds[wds.len() - 1]);
        assert(filter_ways_spec(ws, wds, limit).0 =~= ws.drop_last().push(ws.last()));
        assert(ws.drop_last().push(ws.last()) =~= ws);
        assert(filter_ways_spec(ws, wds, limit).1 =~= wds.drop_last().push(wds.last()));
        assert(wds.drop_last().push(wds.last()) =~= wds);
    }
}

/// Law: refiltering the surviving ways against the same coordinate's
/// distances and a limit at least as large keeps every one of them —
/// a way that had a node within reach still has it within wider reach.
pub proof fn lemma_geo_filter_ways_stable(ws: Seq<WayView>, wds: Seq<Seq<u64>>, l1: u64, l2: u64)
    requires
        wds.len() == ws.len(),
        l1 <= l2,
    ensures
        filter_ways_spec(
            filter_ways_spec(ws, wds, l1).0,
            filter_ways_spec(ws, wds, l1).1,
            l2,
        ).0 =~= filter_ways_spec(ws, wds, l1).0,
{
    lemma_filter_ways_within(ws, wds, l1);
    let kept = filter_ways_spec(ws, wds, l1);
    assert forall|k: int| 0 <= k < kept.1.len() implies way_within(#[trigger] kept.1[k], l2) by {
        assert(way_within(kept.1[k], l1));
        let j = choose|j: int| 0 <= j < kept.1[k].len() && #[trigger] kept.1[k][j] < l1;
        assert(kept.1[k][j] < l2);
    }
    lemma_filter_ways_all_kept(kept.0, kept.1, l2);
}

} // verus!

use vstd::prelude::*;
use crate::classify::has_node;
use crate::graph::{all_way_edges, all_way_edges_spec, way_edge_count, weight_in_rows};
use crate::model::{Poi, PoiView, RoadNode, Way};
use crate::route::{cull_amenities, cull_spec, edges_node_bound, lemma_edges_node_bound_le};
use crate::snap::{min_pos, nearest_index, snap_pois, snap_spec, Snap};
use crate::vindex::{first_pos, lemma_first_pos, VertexIndex};

verus! {

/// Each id of `ids` assigned in order: an id already present keeps its
/// place, a fresh one is appended.
pub open spec fn assign_all(base: Seq<u64>, ids: Seq<u64>) -> Seq<u64>
    decreases ids.len(),
{
    if ids.len() == 0 {
        base
    } else {
        let b = assign_all(base, ids.drop_last());
        if b.contains(ids.last()) {
            b
        } else {
            b.push(ids.last())
        }
    }
}

pub open spec fn node_ids_of(nodes: Seq<RoadNode>) -> Seq<u64> {
    Seq::new(nodes.len(), |i: int| nodes[i].id)
}

pub open spec fn poi_ids_of(pois: Seq<Poi>) -> Seq<u64> {
    Seq::new(pois.len(), |i: int| pois[i].id)
}

/// The id sequence of the vertex index the pipeline builds: every road
/// node first, then every point of interest, each in first-seen order.
pub open spec fn index_ids(nodes: Seq<RoadNode>, pois: Seq<Poi>) -> Seq<u64> {
    assign_all(assign_all(Seq::empty(), node_ids_of(nodes)), poi_ids_of(pois))
}

pub proof fn lemma_assign_all_len(base: Seq<u64>, ids: Seq<u64>)
    ensures
        assign_all(base, ids).len() <= base.len() + ids.len(),
    decreases ids.len(),
{
    if ids.len() > 0 {
        lemma_assign_all_len(base, ids.drop_last());
    }
}

pub proof fn lemma_assign_all_contains(base: Seq<u64>, ids: Seq<u64>)
    ensures
        forall|id: u64|
            assign_all(base, ids).contains(id) <==> base.contains(id) || ids.contains(id),
    decreases ids.len(),
{
    if ids.len() > 0 {
        lemma_assign_all_contains(base, ids.drop_last());
        let b = assign_all(base, ids.drop_last());
        let a = assign_all(base, ids);
        assert forall|id: u64| a.contains(id) implies base.contains(id) || ids.contains(id) by {
            if b.contains(ids.last()) {
                assert(a =~= b);
            }
            if a.contains(id) {
                let k = choose|k: int| 0 <= k < a.len() && a[k] == id;
                if k < b.len() {
                    assert(b.contains(id));
                    if ids.drop_last().contains(id) {
                        let j = choose|j: int|
                            0 <= j < ids.len() - 1 && ids.drop_last()[j] == id;
                        assert(ids[j] == id);
                    }
                } else {
                    assert(a[k] == ids.last());
                    assert(ids[ids.len() - 1] == id);
                }
            }
        }
        assert forall|id: u64| base.contains(id) || ids.contains(id) implies a.contains(id) by {
            if base.contains(id) || ids.drop_last().contains(id) {
                assert(b.contains(id)) by {
                    if ids.drop_last().contains(id) {
                    }
                }
                let k = choose|k: int| 0 <= k < b.len() && b[k] == id;
                if !b.contains(ids.last()) {
                    assert(a[k] == b[k]);
                } else {
                    assert(a =~= b);
                }
                assert(a.contains(id));
            } else {
                let j = choose|j: int| 0 <= j < ids.len() && ids[j] == id;
                if j < ids.len() - 1 {
                    assert(ids.drop_last()[j] == id);
                } else {
                    assert(id == ids.last());
                    if b.contains(ids.last()) {
                        assert(a =~= b);
                    } else {
                        assert(a.last() == id);
                    }
                }
                assert(a.contains(id));
            }
        }
    }
}

/// Builds the vertex index of one pipeline run: every road node is
/// assigned a dense index first, then every point of interest, in
/// first-seen order.
pub fn build_vertex_index(nodes: &Vec<RoadNode>, pois: &Vec<Poi>) -> (vi: VertexIndex)
    ensures
        vi.wf(),
        vi@ =~= index_ids(nodes@, pois@),
{
    let mut vi = VertexIndex::new();
    let ghost nids = node_ids_of(nodes@);
    let mut i: usize = 0;
    while i < nodes.len()
        invariant
            nids == node_ids_of(nodes@),
            i <= nodes@.len(),
            vi.wf(),
            vi@ =~= assign_all(Seq::empty(), nids.take(i as int)),
        decreases nodes.len() - i,
    {
        proof {
            assert(nids.take(i + 1).drop_last() =~= nids.take(i as int));
            assert(nids.take(i + 1).last() == nodes@[i as int].id);
        }
        vi.assign_if_absent(nodes[i].id);
        i = i + 1;
    }
    proof {
        assert(nids.take(nids.len() as int) =~= nids);
    }
    let ghost base = assign_all(Seq::empty(), node_ids_of(nodes@));
    let ghost pids = poi_ids_of(pois@);
    let mut j: usize = 0;
    while j < pois.len()
        invariant
            base == assign_all(Seq::empty(), node_ids_of(nodes@)),
            pids == poi_ids_of(pois@),
            j <= pois@.len(),
            vi.wf(),
            vi@ =~= assign_all(base, pids.take(j as int)),
        decreases pois.len() - j,
    {
        proof {
            assert(pids.take(j + 1).drop_last() =~= pids.take(j as int));
            assert(pids.take(j + 1).last() == pois@[j as int].id);
        }
        vi.assign_if_absent(pois[j].id);
        j = j + 1;
    }
    proof {
        assert(pids.take(pids.len() as int) =~= pids);
    }
    vi
}

/// The snaps of all points of interest, row by row.
pub open spec fn snaps_spec(
    pois: Seq<Poi>,
    nodes: Seq<RoadNode>,
    vis: Seq<u64>,
    poi_sq: Seq<Seq<u64>>,
    poi_m: Seq<Seq<usize>>,
) -> Seq<Snap> {
    Seq::new(pois.len(), |i: int| snap_spec(pois[i], nodes, vis, poi_sq[i], poi_m[i]))
}

pub open spec fn poi_views_of(pois: Seq<Poi>) -> Seq<PoiView> {
    Seq::new(pois.len(), |i: int| pois[i]@)
}

/// What one full run of the network stages returns: the points of
/// interest within network reach of the origin's nearest road node.
/// With no road node at all there is nothing to snap to, and nothing is
/// within reach.
pub open spec fn reachable_spec(
    pois: Seq<Poi>,
    ways: Seq<Way>,
    nodes: Seq<RoadNode>,
    way_w: Seq<Seq<usize>>,
    poi_sq: Seq<Seq<u64>>,
    poi_m: Seq<Seq<usize>>,
    origin_sq: Seq<u64>,
    threshold: usize,
) -> Seq<PoiView> {
    if nodes.len() == 0 {
        Seq::empty()
    } else {
        let vis = index_ids(nodes, pois);
        let edges = all_way_edges_spec(ways, vis, way_w);
        let snaps = snaps_spec(pois, nodes, vis, poi_sq, poi_m);
        let origin_vertex = first_pos(vis, nodes[min_pos(origin_sq)].id) as usize;
        cull_spec(poi_views_of(pois), snaps, edges, origin_vertex, threshold)
    }
}

/// Runs the network stages over one classified, deduplicated entity set:
/// assigns vertex indices, assembles the way edges, snaps every point of
/// interest and the origin to their nearest road nodes, and keeps the
/// points of interest whose network distance from the origin is strictly
/// below the threshold.
///
/// The distance tables are supplied by the caller: `way_weights[w][k]`
/// is the great-circle distance in meters between nodes `k` and `k + 1`
/// of way `w`; `poi_sq[i][j]` and `poi_m[i][j]` are the squared
/// straight-line distance (as ordered bit patterns) and the great-circle
/// distance in meters from poi `i` to road node `j`; `origin_sq[j]` is
/// the squared straight-line distance from the query coordinate to road
/// node `j`.
pub fn reachable_pois(
    pois: &Vec<Poi>,
    ways: &Vec<Way>,
    nodes: &Vec<RoadNode>,
    way_weights: &Vec<Vec<usize>>,
    poi_sq: &Vec<Vec<u64>>,
    poi_m: &Vec<Vec<usize>>,
    origin_sq: &Vec<u64>,
    threshold: usize,
) -> (r: Vec<Poi>)
    requires
        way_weights@.len() == ways@.len(),
        forall|w: int|
            0 <= w < ways@.len() ==> (#[trigger] way_weights@[w])@.len() == way_edge_count(
                ways@[w].nodes@.len() as int,
            ),
        poi_sq@.len() == pois@.len(),
        poi_m@.len() == pois@.len(),
        forall|i: int| 0 <= i < pois@.len() ==> (#[trigger] poi_sq@[i])@.len() == nodes@.len(),
        forall|i: int| 0 <= i < pois@.len() ==> (#[trigger] poi_m@[i])@.len() == nodes@.len(),
        origin_sq@.len() == nodes@.len(),
        forall|w: int, k: int|
            0 <= w < ways@.len() && 0 <= k < ways@[w].nodes@.len() ==> has_node(
                nodes@,
                #[trigger] ways@[w].nodes@[k].id,
            ),
        forall|w: int, k: int|
            0 <= w < way_weights@.len() && 0 <= k < way_weights@[w]@.len() ==> 2 * ((
            #[trigger] way_weights@[w]@[k]) as int) * (nodes@.len() + pois@.len()) < usize::MAX,
    ensures
        r.deep_view() =~= reachable_spec(
            pois@,
            ways@,
            nodes@,
            way_weights.deep_view(),
            poi_sq.deep_view(),
            poi_m.deep_view(),
            origin_sq@,
            threshold,
        ),
{
    if nodes.len() == 0 {
        let r: Vec<Poi> = Vec::new();
        return r;
    }
    let vi = build_vertex_index(nodes, pois);
    proof {
        lemma_assign_all_contains(Seq::empty(), node_ids_of(nodes@));
        lemma_assign_all_contains(
            assign_all(Seq::empty(), node_ids_of(nodes@)),
            poi_ids_of(pois@),
        );
        assert forall|j: int| 0 <= j < nodes@.len() implies vi@.contains(
            #[trigger] nodes@[j].id,
        ) by {
            assert(node_ids_of(nodes@)[j] == nodes@[j].id);
            assert(node_ids_of(nodes@).contains(nodes@[j].id));
        }
        assert forall|i: int| 0 <= i < pois@.len() implies vi@.contains(
            #[trigger] pois@[i].id,
        ) by {
            assert(poi_ids_of(pois@)[i] == pois@[i].id);
            assert(poi_ids_of(pois@).contains(pois@[i].id));
        }
        assert forall|w: int, k: int|
            0 <= w < ways@.len() && 0 <= k < ways@[w].nodes@.len() implies vi@.contains(
            #[trigger] ways@[w].nodes@[k].id,
        ) by {
            let id = ways@[w].nodes@[k].id;
            assert(has_node(nodes@, id));
            let j = choose|j: int| 0 <= j < nodes@.len() && #[trigger] nodes@[j].id == id;
            assert(node_ids_of(nodes@)[j] == id);
            assert(node_ids_of(nodes@).contains(id));
        }
    }
    let edges = all_way_edges(ways, &vi, way_weights);
    let snaps = snap_pois(pois, nodes, &vi, poi_sq, poi_m);
    let oj = nearest_index(origin_sq).unwrap();
    proof {
        crate::snap::lemma_min_pos(origin_sq@);
    }
    let origin_vertex = vi.graph_index_of(nodes[oj].id).unwrap();
    let nv = vi.len();
    proof {
        assert forall|k: int| 0 <= k < edges@.len() implies (#[trigger] edges@[k]).from
            < usize::MAX && edges@[k].to < usize::MAX by {
            assert(edges@[k].from < vi@.len());
            assert(edges@[k].to < vi@.len());
            assert(vi@.len() == nv);
        }
        lemma_edges_node_bound_le(edges@, nv as int);
        lemma_assign_all_len(Seq::empty(), node_ids_of(nodes@));
        lemma_assign_all_len(assign_all(Seq::empty(), node_ids_of(nodes@)), poi_ids_of(pois@));
        assert(vi@.len() <= nodes@.len() + pois@.len());
        assert forall|i: int|
            0 <= i < edges@.len() implies 2 * ((#[trigger] edges@[i]).weight as int)
            * edges_node_bound(edges@) < usize::MAX by {
            let wt = edges@[i].weight as int;
            assert(weight_in_rows(edges@[i], way_weights.deep_view()));
            let (x, j) = choose|x: int, j: int|
                0 <= x < way_weights.deep_view().len() && 0 <= j < way_weights.deep_view()[x].len()
                    && edges@[i].weight == #[trigger] way_weights.deep_view()[x][j];
            assert(way_weights.deep_view()[x] =~= way_weights@[x]@);
            assert(2 * (way_weights@[x]@[j] as int) * (nodes@.len() + pois@.len()) < usize::MAX);
            assert(2 * wt * (nodes@.len() + pois@.len()) < usize::MAX);
            let nb = edges_node_bound(edges@);
            let np = (nodes@.len() + pois@.len()) as int;
            assert(0 <= nb <= np);
            assert(2 * wt * nb <= 2 * wt * np) by (nonlinear_arith)
                requires
                    wt >= 0,
                    0 <= nb <= np,
            ;
        }
    }
    let culled = cull_amenities(pois, &snaps, &edges, origin_vertex, threshold);
    proof {
        assert(vi@ == index_ids(nodes@, pois@));
        assert(snaps@ =~= snaps_spec(
            pois@,
            nodes@,
            vi@,
            poi_sq.deep_view(),
            poi_m.deep_view(),
        )) by {
            assert forall|i: int| 0 <= i < pois@.len() implies snaps@[i] == snap_spec(
                pois@[i],
                nodes@,
                vi@,
                poi_sq.deep_view()[i],
                poi_m.deep_view()[i],
            ) by {
                assert(poi_sq.deep_view()[i] =~= poi_sq@[i]@);
                assert(poi_m.deep_view()[i] =~= poi_m@[i]@);
                assert(snaps@[i] == snap_spec(pois@[i], nodes@, vi@, poi_sq@[i]@, poi_m@[i]@));
            }
        }
        assert(pois.deep_view() =~= poi_views_of(pois@));
        assert(edges@ == all_way_edges_spec(ways@, vi@, way_weights.deep_view()));
    }
    culled
}

} // verus!

use vstd::prelude::*;
use crate::model::{RoadNode, Way};
use crate::vindex::{first_pos, VertexIndex};

verus! {

/// One undirected weighted edge between two graph-vertex indices. The
/// weight is a great-circle distance in whole meters, truncated.
#[derive(Clone, Copy, PartialEq, Eq, Structural, Debug)]
pub struct GraphEdge {
    pub from: usize,
    pub to: usize,
    pub weight: usize,
}

/// How many edges a node sequence of length `n` contributes: one per
/// consecutive pair, so a sequence shorter than 2 contributes none.
pub open spec fn way_edge_count(n: int) -> int {
    if n >= 1 {
        n - 1
    } else {
        0
    }
}

/// The edges contributed by one way: entry `k` joins the vertices of the
/// way's nodes `k` and `k + 1` and carries the `k`-th supplied weight.
pub open spec fn way_edges_spec(nodes: Seq<RoadNode>, vis: Seq<u64>, ws: Seq<usize>) -> Seq<
    GraphEdge,
> {
    Seq::new(
        way_edge_count(nodes.len() as int) as nat,
        |k: int|
            GraphEdge {
                from: first_pos(vis, nodes[k].id) as usize,
                to: first_pos(vis, nodes[k + 1].id) as usize,
                weight: ws[k],
            },
    )
}

/// The edges of all ways, in way order.
pub open spec fn all_way_edges_spec(
    ways: Seq<Way>,
    vis: Seq<u64>,
    ws: Seq<Seq<usize>>,
) -> Seq<GraphEdge>
    decreases ways.len(),
{
    if ways.len() == 0 {
        Seq::empty()
    } else {
        all_way_edges_spec(ways.drop_last(), vis, ws.drop_last()) + way_edges_spec(
            ways.last().nodes@,
            vis,
            ws.last(),
        )
    }
}

/// Whether the edge carries one of the listed weights.
pub open spec fn weight_listed(e: GraphEdge, ws: Seq<usize>) -> bool {
    exists|j: int| 0 <= j < ws.len() && e.weight == #[trigger] ws[j]
}

/// Whether the edge carries a weight listed in one of the rows.
pub open spec fn weight_in_rows(e: GraphEdge, rows: Seq<Seq<usize>>) -> bool {
    exists|x: int, j: int|
        0 <= x < rows.len() && 0 <= j < rows[x].len() && e.weight == #[trigger] rows[x][j]
}

/// Law: a way with at least two nodes contributes exactly one edge fewer
/// than it has nodes; a way with one node or none contributes no edge.
pub proof fn lemma_way_edge_count(nodes: Seq<RoadNode>, vis: Seq<u64>, ws: Seq<usize>)
    ensures
        nodes.len() >= 2 ==> way_edges_spec(nodes, vis, ws).len() == nodes.len() - 1,
        nodes.len() < 2 ==> way_edges_spec(nodes, vis, ws).len() == 0,
{
}

/// The edges contributed by one way: its node sequence is walked
/// pairwise, and consecutive nodes are joined through their assigned
/// vertex indices. `weights[k]` must hold the distance in meters between
/// nodes `k` and `k + 1`.
pub fn way_edges(way: &Way, vi: &VertexIndex, weights: &Vec<usize>) -> (r: Vec<GraphEdge>)
    requires
        vi.wf(),
        forall|i: int| 0 <= i < way.nodes@.len() ==> vi@.contains(#[trigger] way.nodes@[i].id),
        weights@.len() == way_edge_count(way.nodes@.len() as int),
    ensures
        r@ =~= way_edges_spec(way.nodes@, vi@, weights@),
        forall|k: int|
            0 <= k < r@.len() ==> (#[trigger] r@[k]).from < vi@.len() && r@[k].to < vi@.len(),
        forall|k: int| 0 <= k < r@.len() ==> weight_listed(#[trigger] r@[k], weights@),
{
    let mut r: Vec<GraphEdge> = Vec::new();
    if way.nodes.len() < 2 {
        return r;
    }
    let mut k: usize = 0;
    while k < way.nodes.len() - 1
        invariant
            vi.wf(),
            way.nodes@.len() >= 2,
            forall|i: int| 0 <= i < way.nodes@.len() ==> vi@.contains(#[trigger] way.nodes@[i].id),
            weights@.len() == way.nodes@.len() - 1,
            k <= way.nodes@.len() - 1,
            r@.len() == k,
            forall|j: int| 0 <= j < k ==> r@[j] == way_edges_spec(way.nodes@, vi@, weights@)[j],
            forall|j: int|
                0 <= j < k ==> (#[trigger] r@[j]).from < vi@.len() && r@[j].to < vi@.len(),
        decreases way.nodes.len() - 1 - k,
    {
        let a = vi.graph_index_of(way.nodes[k].id).unwrap();
        let b = vi.graph_index_of(way.nodes[k + 1].id).unwrap();
        proof {
            crate::vindex::lemma_first_pos(vi@, way.nodes@[k as int].id);
            crate::vindex::lemma_first_pos(vi@, way.nodes@[k + 1].id);
        }
        r.push(GraphEdge { from: a, to: b, weight: weights[k] });
        k = k + 1;
    }
    proof {
        assert forall|q: int| 0 <= q < r@.len() implies weight_listed(
            #[trigger] r@[q],
            weights@,
        ) by {
            assert(r@[q].weight == weights@[q]);
        }
    }
    r
}

/// The edges of all ways, gathered way by way into one list. Entry `i`
/// of `weights` must hold the consecutive-pair distances of way `i`.
pub fn all_way_edges(ways: &Vec<Way>, vi: &VertexIndex, weights: &Vec<Vec<usize>>) -> (r: Vec<
    GraphEdge,
>)
    requires
        vi.wf(),
        weights@.len() == ways@.len(),
        forall|w: int, i: int|
            0 <= w < ways@.len() && 0 <= i < ways@[w].nodes@.len() ==> vi@.contains(
                #[trigger] ways@[w].nodes@[i].id,
            ),
        forall|w: int|
            0 <= w < ways@.len() ==> (#[trigger] weights@[w])@.len() == way_edge_count(
                ways@[w].nodes@.len() as int,
            ),
    ensures
        r@ =~= all_way_edges_spec(ways@, vi@, weights.deep_view()),
        forall|k: int|
            0 <= k < r@.len() ==> (#[trigger] r@[k]).from < vi@.len() && r@[k].to < vi@.len(),
        forall|k: int| 0 <= k < r@.len() ==> weight_in_rows(#[trigger] r@[k], weights.deep_view()),
{
    let mut r: Vec<GraphEdge> = Vec::new();
    let mut w: usize = 0;
    while w < ways.len()
        invariant
            vi.wf(),
            weights@.len() == ways@.len(),
            forall|x: int, i: int|
                0 <= x < ways@.len() && 0 <= i < ways@[x].nodes@.len() ==> vi@.contains(
                    #[trigger] ways@[x].nodes@[i].id,
                ),
            forall|x: int|
                0 <= x < ways@.len() ==> (#[trigger] weights@[x])@.len() == way_edge_count(
                    ways@[x].nodes@.len() as int,
                ),
            w <= ways@.len(),
            r@ =~= all_way_edges_spec(ways@.take(w as int), vi@, weights.deep_view().take(w as int)),
            forall|k: int|
                0 <= k < r@.len() ==> (#[trigger] r@[k]).from < vi@.len() && r@[k].to < vi@.len(),
            forall|k: int|
                0 <= k < r@.len() ==> weight_in_rows(#[trigger] r@[k], weights.deep_view()),
        decreases ways.len() - w,
    {
        let mut es = way_edges(&ways[w], vi, &weights[w]);
        let ghost r0 = r@;
        let ghost es0 = es@;
        r.append(&mut es);
        proof {
            let ghost wv = ways@.take(w + 1);
            let ghost dv = weights.deep_view().take(w + 1);
            assert(wv.drop_last() =~= ways@.take(w as int));
            assert(dv.drop_last() =~= weights.deep_view().take(w as int));
            assert(wv.last() == ways@[w as int]);
            assert(dv.last() =~= weights@[w as int]@);
            assert forall|k: int| 0 <= k < r@.len() implies weight_in_rows(
                #[trigger] r@[k],
                weights.deep_view(),
            ) by {
                if k < r0.len() {
                    assert(r@[k] == r0[k]);
                    assert(weight_in_rows(r0[k], weights.deep_view()));
                } else {
                    assert(r@[k] == es0[k - r0.len()]);
                    assert(weight_listed(es0[k - r0.len()], weights@[w as int]@));
                    let j = choose|j: int|
                        0 <= j < weights@[w as int]@.len() && es0[k - r0.len()].weight == (
                        #[trigger] weights@[w as int]@[j]);
                    assert(weights.deep_view()[w as int] =~= weights@[w as int]@);
                    assert(r@[k].weight == weights.deep_view()[w as int][j]);
                }
            }
        }
        w = w + 1;
    }
    proof {
        assert(ways@.take(ways@.len() as int) =~= ways@);
        assert(weights.deep_view().take(ways@.len() as int) =~= weights.deep_view());
    }
    r
}

} // verus!

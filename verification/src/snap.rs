use vstd::prelude::*;
use crate::model::{Poi, RoadNode};
use crate::vindex::{first_pos, VertexIndex};

verus! {

/// The position of the first minimum of `s`. Meaningful only when `s` is
/// not empty.
pub open spec fn min_pos(s: Seq<u64>) -> int
    decreases s.len(),
{
    if s.len() <= 1 {
        0
    } else {
        let m = min_pos(s.drop_last());
        if s.last() < s[m] {
            s.len() - 1
        } else {
            m
        }
    }
}

pub proof fn lemma_min_pos(s: Seq<u64>)
    requires
        s.len() > 0,
    ensures
        0 <= min_pos(s) < s.len(),
        forall|j: int| 0 <= j < s.len() ==> s[min_pos(s)] <= #[trigger] s[j],
        forall|j: int| 0 <= j < min_pos(s) ==> s[min_pos(s)] < #[trigger] s[j],
    decreases s.len(),
{
    if s.len() > 1 {
        lemma_min_pos(s.drop_last());
        assert forall|j: int| 0 <= j < s.len() implies s[min_pos(s)] <= #[trigger] s[j] by {
            if j < s.len() - 1 {
                assert(s.drop_last()[j] == s[j]);
            }
        }
        assert forall|j: int| 0 <= j < min_pos(s) implies s[min_pos(s)] < #[trigger] s[j] by {
            let m = min_pos(s.drop_last());
            assert(s.drop_last()[j] == s[j]);
            assert(s.drop_last()[m] == s[m]);
            if s.last() < s[m] {
                assert(s.drop_last()[m] <= s.drop_last()[j]);
            }
        }
    }
}

/// The position in `dists` of the nearest entry: the first index holding
/// the least value, or `None` when there is no entry at all. The values
/// are squared straight-line distances encoded as the bit patterns of
/// their (non-negative) floating-point values, whose unsigned order
/// agrees with the numeric order.
pub fn nearest_index(dists: &Vec<u64>) -> (r: Option<usize>)
    ensures
        match r {
            Some(i) => dists@.len() > 0 && i == min_pos(dists@),
            None => dists@.len() == 0,
        },
{
    if dists.len() == 0 {
        return None;
    }
    let mut best: usize = 0;
    let mut i: usize = 1;
    while i < dists.len()
        invariant
            1 <= i <= dists@.len(),
            best == min_pos(dists@.take(i as int)),
            best < i,
        decreases dists.len() - i,
    {
        proof {
            assert(dists@.take(i + 1).drop_last() =~= dists@.take(i as int));
        }
        if dists[i] < dists[best] {
            best = i;
        }
        i = i + 1;
    }
    proof {
        assert(dists@.take(dists@.len() as int) =~= dists@);
    }
    Some(best)
}

/// How one point of interest is attached to the road network: its own
/// vertex, the vertex of its nearest road node, and the great-circle
/// distance in meters between the two.
#[derive(Clone, Copy, PartialEq, Eq, Structural, Debug)]
pub struct Snap {
    pub poi_vertex: usize,
    pub node_vertex: usize,
    pub weight: usize,
}

/// The snap of poi `i`, as a spec value: its nearest road node is the
/// first minimum of its squared-distance row, and the snap weight is the
/// matching entry of its meter-distance row.
pub open spec fn snap_spec(
    poi: Poi,
    nodes: Seq<RoadNode>,
    vis: Seq<u64>,
    sq_row: Seq<u64>,
    m_row: Seq<usize>,
) -> Snap {
    let j = min_pos(sq_row);
    Snap {
        poi_vertex: first_pos(vis, poi.id) as usize,
        node_vertex: first_pos(vis, nodes[j].id) as usize,
        weight: m_row[j],
    }
}

/// Attaches every point of interest to its nearest road node. Row `i` of
/// `sq_dists` must hold the squared straight-line distances (as ordered
/// bit patterns) from poi `i` to every road node, and row `i` of
/// `m_dists` the same distances in whole meters along the great circle.
pub fn snap_pois(
    pois: &Vec<Poi>,
    nodes: &Vec<RoadNode>,
    vi: &VertexIndex,
    sq_dists: &Vec<Vec<u64>>,
    m_dists: &Vec<Vec<usize>>,
) -> (r: Vec<Snap>)
    requires
        vi.wf(),
        nodes@.len() > 0,
        sq_dists@.len() == pois@.len(),
        m_dists@.len() == pois@.len(),
        forall|i: int| 0 <= i < pois@.len() ==> (#[trigger] sq_dists@[i])@.len() == nodes@.len(),
        forall|i: int| 0 <= i < pois@.len() ==> (#[trigger] m_dists@[i])@.len() == nodes@.len(),
        forall|i: int| 0 <= i < pois@.len() ==> vi@.contains(#[trigger] pois@[i].id),
        forall|j: int| 0 <= j < nodes@.len() ==> vi@.contains(#[trigger] nodes@[j].id),
    ensures
        r@.len() == pois@.len(),
        forall|i: int|
            0 <= i < pois@.len() ==> r@[i] == snap_spec(
                #[trigger] pois@[i],
                nodes@,
                vi@,
                sq_dists@[i]@,
                m_dists@[i]@,
            ),
{
    let mut r: Vec<Snap> = Vec::new();
    let mut i: usize = 0;
    while i < pois.len()
        invariant
            vi.wf(),
            nodes@.len() > 0,
            sq_dists@.len() == pois@.len(),
            m_dists@.len() == pois@.len(),
            forall|x: int|
                0 <= x < pois@.len() ==> (#[trigger] sq_dists@[x])@.len() == nodes@.len(),
            forall|x: int|
                0 <= x < pois@.len() ==> (#[trigger] m_dists@[x])@.len() == nodes@.len(),
            forall|x: int| 0 <= x < pois@.len() ==> vi@.contains(#[trigger] pois@[x].id),
            forall|j: int| 0 <= j < nodes@.len() ==> vi@.contains(#[trigger] nodes@[j].id),
            i <= pois@.len(),
            r@.len() == i,
            forall|x: int|
                0 <= x < i ==> r@[x] == snap_spec(
                    #[trigger] pois@[x],
                    nodes@,
                    vi@,
                    sq_dists@[x]@,
                    m_dists@[x]@,
                ),
        decreases pois.len() - i,
    {
        let j = nearest_index(&sq_dists[i]).unwrap();
        proof {
            lemma_min_pos(sq_dists@[i as int]@);
        }
        let poi_vertex = vi.graph_index_of(pois[i].id).unwrap();
        let node_vertex = vi.graph_index_of(nodes[j].id).unwrap();
        r.push(Snap { poi_vertex, node_vertex, weight: m_dists[i][j] });
        i = i + 1;
    }
    r
}

} // verus!

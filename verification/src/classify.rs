use vstd::prelude::*;
use crate::model::{Coordinate, Poi, PoiView, RawElement, RawElementView, RoadNode, WalkError, Way,
    WayView};

verus! {

/// Whether an element is a point-of-interest candidate: its tag set
/// carries an amenity or a shop key.
pub open spec fn is_poi_candidate(e: RawElementView) -> bool {
    e.has_amenity || e.shop is Some
}

/// The display label a candidate would get: its name tag, else its shop
/// value, else nothing — and a candidate with nothing is dropped.
pub open spec fn poi_label(e: RawElementView) -> Option<Seq<char>> {
    if e.name is Some {
        e.name
    } else {
        e.shop
    }
}

/// Whether one element is well-formed for classification. A labelled
/// candidate must carry an id and a position; a routable way must carry
/// an id and node-id and geometry arrays of equal length. Everything
/// else passes: elements that are ignored cannot be malformed.
pub open spec fn elem_ok(e: RawElementView) -> bool {
    if is_poi_candidate(e) {
        poi_label(e) is Some ==> e.id is Some && e.position is Some
    } else if e.has_highway {
        e.id is Some && e.node_ids is Some && e.geometry is Some && e.node_ids->0.len()
            == e.geometry->0.len()
    } else {
        true
    }
}

pub open spec fn all_ok(s: Seq<RawElementView>) -> bool {
    forall|i: int| 0 <= i < s.len() ==> elem_ok(#[trigger] s[i])
}

/// The road nodes of one way element: the node-id and geometry arrays
/// walked in lock-step, one node per position.
pub open spec fn way_nodes_of(e: RawElementView) -> Seq<RoadNode> {
    Seq::new(
        e.node_ids->0.len(),
        |k: int| RoadNode { id: e.node_ids->0[k], coordinate: e.geometry->0[k] },
    )
}

/// Whether some road node in `s` carries `id`.
pub open spec fn has_node(s: Seq<RoadNode>, id: u64) -> bool {
    exists|i: int| 0 <= i < s.len() && #[trigger] s[i].id == id
}

/// The position of the first road node carrying `id`. Meaningful only
/// when `has_node(s, id)`.
pub open spec fn node_pos(s: Seq<RoadNode>, id: u64) -> int
    decreases s.len(),
{
    if s.len() == 0 {
        0
    } else if s[0].id == id {
        0
    } else {
        1 + node_pos(s.drop_first(), id)
    }
}

pub proof fn lemma_node_pos(s: Seq<RoadNode>, id: u64)
    requires
        has_node(s, id),
    ensures
        0 <= node_pos(s, id) < s.len(),
        s[node_pos(s, id)].id == id,
        forall|j: int| 0 <= j < node_pos(s, id) ==> s[j].id != id,
    decreases s.len(),
{
    if s.len() > 0 && s[0].id != id {
        let t = s.drop_first();
        assert(has_node(t, id)) by {
            let w = choose|w: int| 0 <= w < s.len() && #[trigger] s[w].id == id;
            assert(t[w - 1].id == id);
        }
        lemma_node_pos(t, id);
        assert forall|j: int| 0 <= j < node_pos(s, id) implies s[j].id != id by {
            if j > 0 {
                assert(t[j - 1].id != id);
            }
        }
    }
}

/// One node written into the collection: a node with a fresh id is
/// appended, while a repeated id overwrites in place, so the same
/// external id always resolves to one road node and the last write wins.
pub open spec fn upsert(s: Seq<RoadNode>, n: RoadNode) -> Seq<RoadNode> {
    if has_node(s, n.id) {
        s.update(node_pos(s, n.id), n)
    } else {
        s.push(n)
    }
}

/// Every node of `ns` written into `s`, in order.
pub open spec fn upsert_all(s: Seq<RoadNode>, ns: Seq<RoadNode>) -> Seq<RoadNode>
    decreases ns.len(),
{
    if ns.len() == 0 {
        s
    } else {
        upsert(upsert_all(s, ns.drop_last()), ns.last())
    }
}

/// What classification leaves behind: the labelled points of interest,
/// the routable ways, and the set of road nodes that belong to them.
#[derive(Clone, PartialEq, Eq, Debug)]
pub struct Classified {
    pub pois: Vec<Poi>,
    pub ways: Vec<Way>,
    pub road_nodes: Vec<RoadNode>,
}

/// The ghost image of a classification result.
pub struct ClassifiedView {
    pub pois: Seq<PoiView>,
    pub ways: Seq<WayView>,
    pub road_nodes: Seq<RoadNode>,
}

impl View for Classified {
    type V = ClassifiedView;

    open spec fn view(&self) -> ClassifiedView {
        ClassifiedView {
            pois: self.pois.deep_view(),
            ways: self.ways.deep_view(),
            road_nodes: self.road_nodes@,
        }
    }
}

/// What one well-formed element adds to the accumulated result.
pub open spec fn classify_step(acc: ClassifiedView, e: RawElementView) -> ClassifiedView {
    if is_poi_candidate(e) {
        if poi_label(e) is Some {
            ClassifiedView {
                pois: acc.pois.push(
                    PoiView { id: e.id->0, name: poi_label(e), coordinate: e.position->0 },
                ),
                ways: acc.ways,
                road_nodes: acc.road_nodes,
            }
        } else {
            acc
        }
    } else if e.has_highway {
        ClassifiedView {
            pois: acc.pois,
            ways: acc.ways.push(WayView { id: e.id->0, nodes: way_nodes_of(e) }),
            road_nodes: upsert_all(acc.road_nodes, way_nodes_of(e)),
        }
    } else {
        acc
    }
}

/// The classification of a whole element sequence, assuming every
/// element is well-formed.
pub open spec fn classify_spec(s: Seq<RawElementView>) -> ClassifiedView
    decreases s.len(),
{
    if s.len() == 0 {
        ClassifiedView { pois: Seq::empty(), ways: Seq::empty(), road_nodes: Seq::empty() }
    } else {
        classify_step(classify_spec(s.drop_last()), s.last())
    }
}

/// The road nodes of one way, built by walking the node-id and geometry
/// arrays in lock-step.
fn build_way_nodes(node_ids: &Vec<u64>, geometry: &Vec<Coordinate>) -> (r: Vec<RoadNode>)
    requires
        node_ids@.len() == geometry@.len(),
    ensures
        r@ =~= Seq::new(
            node_ids@.len(),
            |k: int| RoadNode { id: node_ids@[k], coordinate: geometry@[k] },
        ),
{
    let mut r: Vec<RoadNode> = Vec::new();
    let mut k: usize = 0;
    while k < node_ids.len()
        invariant
            node_ids@.len() == geometry@.len(),
            k <= node_ids@.len(),
            r@.len() == k,
            forall|j: int|
                0 <= j < k ==> r@[j] == (RoadNode {
                    id: node_ids@[j],
                    coordinate: geometry@[j],
                }),
        decreases node_ids.len() - k,
    {
        r.push(RoadNode { id: node_ids[k], coordinate: geometry[k] });
        k = k + 1;
    }
    r
}

/// Writes one road node, appending it or overwriting the node that
/// already carries its id.
pub fn upsert_node(nodes: &mut Vec<RoadNode>, n: RoadNode)
    ensures
        final(nodes)@ =~= upsert(old(nodes)@, n),
{
    let mut i: usize = 0;
    while i < nodes.len()
        invariant
            nodes@ == old(nodes)@,
            i <= nodes@.len(),
            forall|j: int| 0 <= j < i ==> nodes@[j].id != n.id,
        decreases nodes.len() - i,
    {
        if nodes[i].id == n.id {
            proof {
                assert(has_node(nodes@, n.id));
                lemma_node_pos(nodes@, n.id);
                assert(node_pos(nodes@, n.id) == i);
            }
            nodes.set(i, n);
            return ;
        }
        i = i + 1;
    }
    proof {
        assert(!has_node(nodes@, n.id));
    }
    nodes.push(n);
}

/// Sorts raw elements into labelled points of interest, routable ways,
/// and the road nodes those ways pass through. An element with an
/// amenity or shop key becomes a point of interest when it carries a
/// display label (name tag, else shop value) and is dropped otherwise;
/// an element with a highway key becomes a way; everything else is
/// ignored. The elements are consumed to the end of the sequence, and
/// the first malformed element aborts the run with a malformed-response
/// error instead of defaulting.
pub fn classify_elements(elements: &Vec<RawElement>) -> (r: Result<Classified, WalkError>)
    ensures
        match r {
            Ok(c) => all_ok(elements.deep_view()) && c@ == classify_spec(elements.deep_view()),
            Err(e) => e == WalkError::MalformedResponse && !all_ok(elements.deep_view()),
        },
{
    let ghost dv = elements.deep_view();
    let mut pois: Vec<Poi> = Vec::new();
    let mut ways: Vec<Way> = Vec::new();
    let mut road_nodes: Vec<RoadNode> = Vec::new();
    let mut i: usize = 0;
    while i < elements.len()
        invariant
            dv == elements.deep_view(),
            dv.len() == elements@.len(),
            i <= elements@.len(),
            forall|j: int| 0 <= j < i ==> elem_ok(#[trigger] dv[j]),
            pois.deep_view() =~= classify_spec(dv.take(i as int)).pois,
            ways.deep_view() =~= classify_spec(dv.take(i as int)).ways,
            road_nodes@ =~= classify_spec(dv.take(i as int)).road_nodes,
        decreases elements.len() - i,
    {
        let e = &elements[i];
        proof {
            assert(dv[i as int] == elements@[i as int]@);
            assert(dv.take(i + 1).drop_last() =~= dv.take(i as int));
            assert(dv.take(i + 1).last() == dv[i as int]);
        }
        if e.has_amenity || e.shop.is_some() {
            let label: Option<String> = match &e.name {
                Some(n) => Some(n.clone()),
                None => match &e.shop {
                    Some(s) => Some(s.clone()),
                    None => None,
                },
            };
            match label {
                Some(lab) => {
                    proof {
                        assert(poi_label(dv[i as int]) is Some);
                        assert(lab@ == poi_label(dv[i as int])->0);
                    }
                    match (e.id, e.position) {
                        (Some(id), Some(position)) => {
                            pois.push(Poi { id, name: Some(lab), coordinate: position });
                        },
                        _ => {
                            proof {
                                assert(!elem_ok(dv[i as int]));
                            }
                            return Err(WalkError::MalformedResponse);
                        },
                    }
                },
                None => {
                    proof {
                        assert(poi_label(dv[i as int]) is None);
                    }
                },
            }
        } else if e.has_highway {
            match (&e.node_ids, &e.geometry, e.id) {
                (Some(nids), Some(geo), Some(id)) => {
                    if nids.len() != geo.len() {
                        proof {
                            assert(!elem_ok(dv[i as int]));
                        }
                        return Err(WalkError::MalformedResponse);
                    }
                    let wnodes = build_way_nodes(nids, geo);
                    proof {
                        assert(wnodes@ =~= way_nodes_of(dv[i as int]));
                    }
                    let ghost nodes_before = road_nodes@;
                    let mut k: usize = 0;
                    while k < wnodes.len()
                        invariant
                            k <= wnodes@.len(),
                            road_nodes@ =~= upsert_all(nodes_before, wnodes@.take(k as int)),
                        decreases wnodes.len() - k,
                    {
                        upsert_node(&mut road_nodes, wnodes[k]);
                        proof {
                            assert(wnodes@.take(k + 1).drop_last() =~= wnodes@.take(k as int));
                            assert(wnodes@.take(k + 1).last() == wnodes@[k as int]);
                        }
                        k = k + 1;
                    }
                    proof {
                        assert(wnodes@.take(wnodes@.len() as int) =~= wnodes@);
                    }
                    ways.push(Way { id, nodes: wnodes });
                },
                _ => {
                    proof {
                        assert(!elem_ok(dv[i as int]));
                    }
                    return Err(WalkError::MalformedResponse);
                },
            }
        }
        i = i + 1;
    }
    proof {
        assert(dv.take(dv.len() as int) =~= dv);
    }
    Ok(Classified { pois, ways, road_nodes })
}

/// Writing a node never removes an id, and afterwards the written
/// node's id is present.
pub proof fn lemma_upsert_keeps_ids(s: Seq<RoadNode>, n: RoadNode)
    ensures
        forall|id: u64| has_node(s, id) ==> has_node(upsert(s, n), id),
        has_node(upsert(s, n), n.id),
{
    let r = upsert(s, n);
    if has_node(s, n.id) {
        lemma_node_pos(s, n.id);
        let p = node_pos(s, n.id);
        assert(r[p].id == n.id);
        assert(has_node(r, n.id));
        assert forall|id: u64| has_node(s, id) implies has_node(r, id) by {
            let k = choose|k: int| 0 <= k < s.len() && #[trigger] s[k].id == id;
            if k == p {
                assert(r[p].id == id);
            } else {
                assert(r[k].id == id);
            }
        }
    } else {
        assert(r[r.len() - 1].id == n.id);
        assert(has_node(r, n.id));
        assert forall|id: u64| has_node(s, id) implies has_node(r, id) by {
            let k = choose|k: int| 0 <= k < s.len() && #[trigger] s[k].id == id;
            assert(r[k].id == id);
        }
    }
}

/// Writing a node list keeps every id already present and makes every
/// written id present.
pub proof fn lemma_upsert_all_keeps_ids(s: Seq<RoadNode>, ns: Seq<RoadNode>)
    ensures
        forall|id: u64| has_node(s, id) ==> has_node(upsert_all(s, ns), id),
        forall|k: int| 0 <= k < ns.len() ==> has_node(upsert_all(s, ns), (#[trigger] ns[k]).id),
    decreases ns.len(),
{
    if ns.len() > 0 {
        lemma_upsert_all_keeps_ids(s, ns.drop_last());
        lemma_upsert_keeps_ids(upsert_all(s, ns.drop_last()), ns.last());
        assert forall|k: int| 0 <= k < ns.len() implies has_node(
            upsert_all(s, ns),
            (#[trigger] ns[k]).id,
        ) by {
            if k < ns.len() - 1 {
                assert(ns.drop_last()[k] == ns[k]);
                assert(has_node(upsert_all(s, ns.drop_last()), ns[k].id));
            } else {
                assert(ns[k] == ns.last());
            }
        }
    }
}

/// Law: every node of every classified way is present in the classified
/// road-node set, so the network stages can look every way node up.
pub proof fn lemma_classified_ways_covered(s: Seq<RawElementView>)
    ensures
        forall|w: int, k: int|
            0 <= w < classify_spec(s).ways.len() && 0 <= k
                < classify_spec(s).ways[w].nodes.len() ==> has_node(
                classify_spec(s).road_nodes,
                (#[trigger] classify_spec(s).ways[w].nodes[k]).id,
            ),
    decreases s.len(),
{
    if s.len() > 0 {
        lemma_classified_ways_covered(s.drop_last());
        let c = classify_spec(s);
        let cp = classify_spec(s.drop_last());
        let e = s.last();
        assert forall|w: int, k: int|
            0 <= w < c.ways.len() && 0 <= k < c.ways[w].nodes.len() implies has_node(
            c.road_nodes,
            (#[trigger] c.ways[w].nodes[k]).id,
        ) by {
            if !is_poi_candidate(e) && e.has_highway {
                lemma_upsert_all_keeps_ids(cp.road_nodes, way_nodes_of(e));
                if w < cp.ways.len() {
                    assert(c.ways[w] == cp.ways[w]);
                    assert(has_node(cp.road_nodes, cp.ways[w].nodes[k].id));
                } else {
                    assert(c.ways[w].nodes == way_nodes_of(e));
                }
            } else {
                assert(c.ways[w] == cp.ways[w]);
                assert(has_node(cp.road_nodes, cp.ways[w].nodes[k].id));
            }
        }
    }
}

/// No external id appears twice in the collection.
pub open spec fn unique_node_ids(s: Seq<RoadNode>) -> bool {
    forall|i: int, j: int| 0 <= i < j < s.len() ==> s[i].id != s[j].id
}

pub proof fn lemma_upsert_unique(s: Seq<RoadNode>, n: RoadNode)
    requires
        unique_node_ids(s),
    ensures
        unique_node_ids(upsert(s, n)),
{
    let r = upsert(s, n);
    if has_node(s, n.id) {
        lemma_node_pos(s, n.id);
        let p = node_pos(s, n.id);
        assert forall|i: int, j: int| 0 <= i < j < r.len() implies r[i].id != r[j].id by {
            if i == p {
                assert(r[i].id == s[p].id);
                assert(r[j].id == s[j].id);
            } else if j == p {
                assert(r[j].id == s[p].id);
                assert(r[i].id == s[i].id);
            } else {
                assert(r[i].id == s[i].id && r[j].id == s[j].id);
            }
        }
    } else {
        assert forall|i: int, j: int| 0 <= i < j < r.len() implies r[i].id != r[j].id by {
            if j == r.len() - 1 {
                assert(r[j] == n);
                if r[i].id == n.id {
                    assert(s[i].id == n.id);
                    assert(has_node(s, n.id));
                }
            }
        }
    }
}

pub proof fn lemma_upsert_all_unique(s: Seq<RoadNode>, ns: Seq<RoadNode>)
    requires
        unique_node_ids(s),
    ensures
        unique_node_ids(upsert_all(s, ns)),
    decreases ns.len(),
{
    if ns.len() > 0 {
        lemma_upsert_all_unique(s, ns.drop_last());
        lemma_upsert_unique(upsert_all(s, ns.drop_last()), ns.last());
    }
}

/// Law: classification creates one road node per unique external id —
/// however many ways an id appears in, it resolves to a single node.
pub proof fn lemma_classified_node_ids_unique(s: Seq<RawElementView>)
    ensures
        unique_node_ids(classify_spec(s).road_nodes),
    decreases s.len(),
{
    if s.len() > 0 {
        lemma_classified_node_ids_unique(s.drop_last());
        let e = s.last();
        if !is_poi_candidate(e) && e.has_highway {
            lemma_upsert_all_unique(classify_spec(s.drop_last()).road_nodes, way_nodes_of(e));
        }
    }
}

/// Law: every point of interest that classification retains carries a
/// usable label — its name is never absent, and it is the element's name
/// tag when that was present, else the element's shop value.
pub proof fn lemma_classified_pois_labelled(s: Seq<RawElementView>)
    ensures
        forall|k: int|
            0 <= k < classify_spec(s).pois.len() ==> (#[trigger] classify_spec(s).pois[k]).name
                is Some,
    decreases s.len(),
{
    if s.len() > 0 {
        lemma_classified_pois_labelled(s.drop_last());
        let c = classify_spec(s);
        let cp = classify_spec(s.drop_last());
        assert forall|k: int| 0 <= k < c.pois.len() implies (#[trigger] c.pois[k]).name
            is Some by {
            let e = s.last();
            if is_poi_candidate(e) && poi_label(e) is Some {
                if k < cp.pois.len() {
                    assert(c.pois[k] == cp.pois[k]);
                } else {
                    assert(c.pois[k].name == poi_label(e));
                }
            } else {
                assert(c.pois =~= cp.pois);
            }
        }
    }
}

} // verus!

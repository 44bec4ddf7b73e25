use vstd::prelude::*;
use vstd::multiset::Multiset;
use crate::graph::GraphEdge;
use crate::model::{poi_eq, Poi, PoiView};
use crate::snap::Snap;

verus! {

#[verifier::external_type_specification]
#[verifier::external_body]
pub struct ExInputGraph(fast_paths::InputGraph);

#[verifier::external_type_specification]
#[verifier::external_body]
pub struct ExFastGraph(fast_paths::FastGraph);

/// The multiset of undirected weighted edges an input graph holds; each
/// record stands for the pair of directed arcs that one bidirectional
/// insertion adds.
pub uninterp spec fn graph_edges(g: fast_paths::InputGraph) -> Multiset<(usize, usize, usize)>;

/// Whether the input graph has been frozen for reading.
pub uninterp spec fn graph_frozen(g: fast_paths::InputGraph) -> bool;

/// One past the highest vertex an inserted edge has touched.
pub uninterp spec fn graph_node_bound(g: fast_paths::InputGraph) -> usize;

/// The edges the prepared query structure answers for.
pub uninterp spec fn fast_graph_edges(g: fast_paths::FastGraph) -> Multiset<(usize, usize, usize)>;

/// One past the highest vertex of the prepared query structure.
pub uninterp spec fn fast_graph_node_bound(g: fast_paths::FastGraph) -> usize;

/// Whether the query structure was compiled with exact witness searches,
/// so that each of its internal edge weights is the weight of a shortest
/// path over its edges — never the weight of a longer, repeating walk
/// that a truncated search would have failed to rule out.
pub uninterp spec fn fast_graph_exact(g: fast_paths::FastGraph) -> bool;

/// The minimum total weight of a path between two vertices over the
/// given undirected edges, or `None` when no path joins them. The
/// result depends on the edges and the endpoints alone.
pub uninterp spec fn spath_weight(
    edges: Multiset<(usize, usize, usize)>,
    from: usize,
    to: usize,
) -> Option<usize>;

/// Relies on fast_paths::InputGraph::new: a fresh, unfrozen graph with
/// no edges and no nodes.
#[verifier::external_body]
fn input_graph_new() -> (g: fast_paths::InputGraph)
    ensures
        graph_edges(g) =~= Multiset::<(usize, usize, usize)>::empty(),
        !graph_frozen(g),
        graph_node_bound(g) == 0,
{
    fast_paths::InputGraph::new()
}

/// How far one surviving bidirectional insertion stretches the node
/// range: to one past its larger endpoint, when that lies beyond the
/// range so far.
pub open spec fn stretch_bound(b: int, from: usize, to: usize) -> int {
    let reach: int = if from >= to {
        from + 1
    } else {
        to + 1
    };
    if reach > b {
        reach
    } else {
        b
    }
}

/// Relies on fast_paths::InputGraph::add_edge_bidir: adds the edge in
/// both directions and stretches the node range over its endpoints,
/// except that it skips an edge whose endpoints are equal or whose
/// weight is zero; panics on a frozen graph.
#[verifier::external_body]
fn input_graph_add_edge_bidir(
    g: &mut fast_paths::InputGraph,
    from: usize,
    to: usize,
    weight: usize,
)
    requires
        !graph_frozen(*old(g)),
        from < usize::MAX,
        to < usize::MAX,
    ensures
        !graph_frozen(*final(g)),
        from != to && weight >= 1 ==> graph_edges(*final(g)) =~= graph_edges(*old(g)).insert(
            (from, to, weight),
        ) && graph_node_bound(*final(g)) == stretch_bound(
            graph_node_bound(*old(g)) as int,
            from,
            to,
        ),
        !(from != to && weight >= 1) ==> graph_edges(*final(g)) =~= graph_edges(*old(g))
            && graph_node_bound(*final(g)) == graph_node_bound(*old(g)),
{
    g.add_edge_bidir(from, to, weight);
}

/// Relies on fast_paths::InputGraph::freeze: marks the graph read-only
/// and keeps its node range, but canonicalizes the edge list — it sorts
/// the arcs and keeps only the lowest weight for each ordered endpoint
/// pair, dropping repeated insertions. So the contract does not promise
/// the edge records back: it promises that every surviving record's
/// weight was inserted, and that the minimum path weight between any two
/// vertices is unchanged — a parallel arc that is dropped was never
/// lighter than the one kept, so no path gets shorter or longer.
/// Panics when already frozen.
#[verifier::external_body]
fn input_graph_freeze(g: &mut fast_paths::InputGraph)
    requires
        !graph_frozen(*old(g)),
    ensures
        graph_frozen(*final(g)),
        graph_node_bound(*final(g)) == graph_node_bound(*old(g)),
        forall|a: usize, b: usize|
            spath_weight(graph_edges(*final(g)), a, b) == spath_weight(
                graph_edges(*old(g)),
                a,
                b,
            ),
        forall|e: (usize, usize, usize)|
            #[trigger] graph_edges(*final(g)).contains(e) ==> exists|d: (usize, usize, usize)|
                #[trigger] graph_edges(*old(g)).contains(d) && d.2 == e.2,
{
    g.freeze();
}

/// Relies on fast_paths::prepare_with_params: compiles a frozen input
/// graph into a query structure that answers shortest-path queries over
/// the same edges and node range; panics on an unfrozen graph. The
/// contraction witness search is left unlimited, so every shortcut the
/// preparation keeps carries the weight of a shortest path — the default
/// truncation could keep a shortcut weighing a longer, repeating walk.
/// Preparation itself sums pairs of those weights while scoring and
/// contracting nodes, before any witness check, so the weight-range
/// precondition is needed here already to keep those sums below the
/// machine word.
#[verifier::external_body]
fn prepare_graph(g: &fast_paths::InputGraph) -> (r: fast_paths::FastGraph)
    requires
        graph_frozen(*g),
        solver_weights_in_range(graph_edges(*g), graph_node_bound(*g)),
    ensures
        fast_graph_edges(r) =~= graph_edges(*g),
        fast_graph_node_bound(r) == graph_node_bound(*g),
        fast_graph_exact(r),
{
    let mut params = fast_paths::Params::default();
    params.max_settled_nodes_contraction = usize::MAX;
    fast_paths::prepare_with_params(g, &params)
}

/// Relies on fast_paths::FastGraph::get_num_nodes: how many vertices the
/// prepared structure spans.
#[verifier::external_body]
fn fast_graph_num_nodes(g: &fast_paths::FastGraph) -> (n: usize)
    ensures
        n == fast_graph_node_bound(*g),
{
    g.get_num_nodes()
}

/// Whether every edge weight is small enough for the solver's
/// arithmetic: any path visits fewer than `nb` edges, and any sum the
/// search forms adds at most two path weights, so with every weight `w`
/// holding `2 * w * nb` below the machine word, no intermediate sum
/// wraps and no path weight reaches the sentinel value the solver
/// treats as infinity.
pub open spec fn solver_weights_in_range(m: Multiset<(usize, usize, usize)>, nb: usize) -> bool {
    forall|e: (usize, usize, usize)|
        #[trigger] m.contains(e) ==> 2 * (e.2 as int) * (nb as int) < usize::MAX
}

/// Relies on fast_paths::calc_path and ShortestPath::get_weight: the
/// minimum path weight between the two vertices, or `None` when no path
/// joins them. It panics when a vertex is outside the node range. Its
/// arithmetic is exact only while every sum of weights it forms stays
/// below the machine word and below its internal infinity: on an exactly
/// prepared structure every internal weight is a shortest-path weight,
/// and the query adds at most two of them, so the weight-range
/// precondition keeps every sum in range.
#[verifier::external_body]
fn calc_path_weight(g: &fast_paths::FastGraph, from: usize, to: usize) -> (r: Option<usize>)
    requires
        from < fast_graph_node_bound(*g),
        to < fast_graph_node_bound(*g),
        fast_graph_exact(*g),
        solver_weights_in_range(fast_graph_edges(*g), fast_graph_node_bound(*g)),
    ensures
        r == spath_weight(fast_graph_edges(*g), from, to),
{
    fast_paths::calc_path(g, from, to).map(|p| p.get_weight())
}

/// The edge records that survive insertion: the solver drops an edge
/// whose endpoints are equal or whose weight is zero.
pub open spec fn kept_edges(es: Seq<GraphEdge>) -> Multiset<(usize, usize, usize)>
    decreases es.len(),
{
    if es.len() == 0 {
        Multiset::empty()
    } else {
        let m = kept_edges(es.drop_last());
        let e = es.last();
        if e.from != e.to && e.weight >= 1 {
            m.insert((e.from, e.to, e.weight))
        } else {
            m
        }
    }
}

/// One past the highest vertex a surviving edge touches.
pub open spec fn edges_node_bound(es: Seq<GraphEdge>) -> int
    decreases es.len(),
{
    if es.len() == 0 {
        0
    } else {
        let b = edges_node_bound(es.drop_last());
        let e = es.last();
        if e.from != e.to && e.weight >= 1 {
            stretch_bound(b, e.from, e.to)
        } else {
            b
        }
    }
}

/// Every record of the surviving-edge multiset carries the weight of
/// one of the listed edges.
proof fn lemma_kept_edges_weights(es: Seq<GraphEdge>)
    ensures
        forall|e: (usize, usize, usize)|
            #[trigger] kept_edges(es).contains(e) ==> exists|i: int|
                0 <= i < es.len() && (#[trigger] es[i]).weight == e.2,
    decreases es.len(),
{
    if es.len() > 0 {
        lemma_kept_edges_weights(es.drop_last());
        let m = kept_edges(es.drop_last());
        let last = es.last();
        assert forall|e: (usize, usize, usize)| #[trigger] kept_edges(es).contains(e) implies exists|
            i: int,
        | 0 <= i < es.len() && (#[trigger] es[i]).weight == e.2 by {
            if kept_edges(es) == m.insert((last.from, last.to, last.weight)) && e != (
            last.from,
            last.to,
            last.weight,
            ) {
                assert(m.contains(e));
            }
            if m.contains(e) {
                let i = choose|i: int| 0 <= i < es.len() - 1 && (#[trigger] es.drop_last()[i]).weight
                    == e.2;
                assert(es[i].weight == e.2);
            } else {
                assert(e == (last.from, last.to, last.weight));
                assert(es[es.len() - 1].weight == e.2);
            }
        }
    }
}

/// The node range of an edge list stays within any bound that its
/// endpoints stay within.
pub proof fn lemma_edges_node_bound_le(es: Seq<GraphEdge>, nv: int)
    requires
        nv >= 0,
        forall|i: int|
            0 <= i < es.len() ==> (#[trigger] es[i]).from < nv && es[i].to < nv,
    ensures
        0 <= edges_node_bound(es) <= nv,
    decreases es.len(),
{
    if es.len() > 0 {
        assert forall|i: int|
            0 <= i < es.len() - 1 implies (#[trigger] es.drop_last()[i]).from < nv
            && es.drop_last()[i].to < nv by {
            assert(es.drop_last()[i] == es[i]);
        }
        lemma_edges_node_bound_le(es.drop_last(), nv);
        assert(es[es.len() - 1] == es.last());
    }
}

/// Builds the frozen solver graph from the surviving edges. Freezing
/// canonicalizes the solver's edge store, so what is promised of the
/// result is what survives that step: the node range, that each held
/// weight was one of the listed ones, and that path weights are those
/// of the listed edges.
fn build_graph(edges: &Vec<GraphEdge>) -> (g: fast_paths::InputGraph)
    requires
        forall|i: int|
            0 <= i < edges@.len() ==> (#[trigger] edges@[i]).from < usize::MAX
                && edges@[i].to < usize::MAX,
    ensures
        graph_frozen(g),
        graph_node_bound(g) == edges_node_bound(edges@),
        forall|a: usize, b: usize|
            spath_weight(graph_edges(g), a, b) == spath_weight(kept_edges(edges@), a, b),
        forall|e: (usize, usize, usize)|
            #[trigger] graph_edges(g).contains(e) ==> exists|i: int|
                0 <= i < edges@.len() && (#[trigger] edges@[i]).weight == e.2,
{
    let mut g = input_graph_new();
    let mut i: usize = 0;
    while i < edges.len()
        invariant
            forall|j: int|
                0 <= j < edges@.len() ==> (#[trigger] edges@[j]).from < usize::MAX
                    && edges@[j].to < usize::MAX,
            i <= edges@.len(),
            !graph_frozen(g),
            graph_edges(g) =~= kept_edges(edges@.take(i as int)),
            graph_node_bound(g) == edges_node_bound(edges@.take(i as int)),
        decreases edges.len() - i,
    {
        let e = edges[i];
        input_graph_add_edge_bidir(&mut g, e.from, e.to, e.weight);
        proof {
            assert(edges@.take(i + 1).drop_last() =~= edges@.take(i as int));
            assert(edges@.take(i + 1).last() == edges@[i as int]);
        }
        i = i + 1;
    }
    proof {
        assert(edges@.take(edges@.len() as int) =~= edges@);
    }
    let ghost pre = g;
    input_graph_freeze(&mut g);
    proof {
        assert(graph_edges(pre) == kept_edges(edges@));
        lemma_kept_edges_weights(edges@);
        assert forall|a: usize, b: usize|
            spath_weight(graph_edges(g), a, b) == spath_weight(kept_edges(edges@), a, b) by {
            assert(spath_weight(graph_edges(g), a, b) == spath_weight(graph_edges(pre), a, b));
        }
        assert forall|e: (usize, usize, usize)| #[trigger] graph_edges(g).contains(e) implies exists|
            i: int,
        | 0 <= i < edges@.len() && (#[trigger] edges@[i]).weight == e.2 by {
            let d = choose|d: (usize, usize, usize)|
                #[trigger] graph_edges(pre).contains(d) && d.2 == e.2;
            assert(kept_edges(edges@).contains(d));
            let i = choose|i: int|
                0 <= i < edges@.len() && (#[trigger] edges@[i]).weight == d.2;
            assert(edges@[i].weight == e.2);
        }
    }
    g
}

/// The network weight of one snapped point of interest, measured from
/// the origin's road-node vertex: the solver's path weight to the poi's
/// nearest road node, plus the snap distance. A poi snapped to the
/// origin's own node needs no path. A poi whose snap node lies outside
/// the solver's node range is joined to nothing and has no weight.
pub open spec fn poi_network_weight(es: Seq<GraphEdge>, origin_vertex: usize, s: Snap) -> Option<
    int,
> {
    if s.node_vertex == origin_vertex {
        Some(s.weight as int)
    } else if origin_vertex < edges_node_bound(es) && s.node_vertex < edges_node_bound(es) {
        match spath_weight(kept_edges(es), origin_vertex, s.node_vertex) {
            Some(w) => Some(w + s.weight),
            None => None,
        }
    } else {
        None
    }
}

/// Whether a snapped point of interest is retained: it has a network
/// weight and that weight is strictly below the threshold.
pub open spec fn poi_included(
    es: Seq<GraphEdge>,
    origin_vertex: usize,
    s: Snap,
    threshold: usize,
) -> bool {
    match poi_network_weight(es, origin_vertex, s) {
        Some(t) => t < threshold,
        None => false,
    }
}

/// The first occurrences of the structurally distinct points of
/// interest, in input order: a set, not a list.
pub open spec fn dedup_spec(s: Seq<PoiView>) -> Seq<PoiView>
    decreases s.len(),
{
    if s.len() == 0 {
        Seq::empty()
    } else {
        let d = dedup_spec(s.drop_last());
        if s.drop_last().contains(s.last()) {
            d
        } else {
            d.push(s.last())
        }
    }
}

/// Drops every point of interest that repeats an earlier one, comparing
/// by full structural equality.
pub fn dedup_pois(pois: &Vec<Poi>) -> (r: Vec<Poi>)
    ensures
        r.deep_view() =~= dedup_spec(pois.deep_view()),
{
    let mut r: Vec<Poi> = Vec::new();
    let mut i: usize = 0;
    while i < pois.len()
        invariant
            i <= pois@.len(),
            r.deep_view() =~= dedup_spec(pois.deep_view().take(i as int)),
        decreases pois.len() - i,
    {
        let mut seen = false;
        let mut j: usize = 0;
        while j < i
            invariant
                i < pois@.len(),
                j <= i,
                seen == exists|k: int|
                    0 <= k < j && #[trigger] pois.deep_view()[k] == pois.deep_view()[i as int],
            decreases i - j,
        {
            let e = poi_eq(&pois[j], &pois[i]);
            proof {
                assert(pois.deep_view()[j as int] == pois@[j as int]@);
                assert(pois.deep_view()[i as int] == pois@[i as int]@);
            }
            if e {
                seen = true;
            }
            j = j + 1;
        }
        proof {
            assert(pois.deep_view().take(i + 1).drop_last() =~= pois.deep_view().take(i as int));
            assert(pois.deep_view().take(i + 1).last() == pois.deep_view()[i as int]);
            if seen {
                let k = choose|k: int|
                    0 <= k < i && pois.deep_view()[k] == pois.deep_view()[i as int];
                assert(pois.deep_view().take(i as int)[k] == pois.deep_view()[k]);
                assert(pois.deep_view().take(i as int).contains(pois.deep_view()[i as int]));
            } else {
                if pois.deep_view().take(i as int).contains(pois.deep_view()[i as int]) {
                    let k = choose|k: int|
                        0 <= k < i && pois.deep_view().take(i as int)[k] == pois.deep_view()[
                            i as int
                        ];
                    assert(pois.deep_view()[k] == pois.deep_view()[i as int]);
                }
            }
        }
        if !seen {
            r.push(pois[i].duplicate());
        }
        i = i + 1;
    }
    proof {
        assert(pois.deep_view().take(pois@.len() as int) =~= pois.deep_view());
    }
    r
}

/// Law: deduplication keeps exactly the structurally distinct values: no
/// value appears twice afterwards, and a value appears afterwards if and
/// only if it appeared before.
pub proof fn lemma_dedup_set_semantics(s: Seq<PoiView>)
    ensures
        forall|a: int, b: int|
            0 <= a < b < dedup_spec(s).len() ==> dedup_spec(s)[a] != dedup_spec(s)[b],
        forall|p: PoiView| dedup_spec(s).contains(p) <==> s.contains(p),
    decreases s.len(),
{
    if s.len() > 0 {
        lemma_dedup_set_semantics(s.drop_last());
        let t = s.drop_last();
        let d = dedup_spec(s);
        let dp = dedup_spec(t);
        assert forall|p: PoiView| d.contains(p) implies s.contains(p) by {
            if t.contains(p) {
                let k = choose|k: int| 0 <= k < t.len() && t[k] == p;
                assert(s[k] == p);
            } else {
                let k = choose|k: int| 0 <= k < d.len() && d[k] == p;
                if k < dp.len() {
                    assert(dp.contains(p));
                } else {
                    assert(p == s.last());
                    assert(s[s.len() - 1] == p);
                }
            }
        }
        assert forall|p: PoiView| s.contains(p) implies d.contains(p) by {
            let k = choose|k: int| 0 <= k < s.len() && s[k] == p;
            if k < s.len() - 1 {
                assert(t[k] == p);
                assert(t.contains(p));
                assert(dp.contains(p));
                let m = choose|m: int| 0 <= m < dp.len() && dp[m] == p;
                if !t.contains(s.last()) {
                    assert(d[m] == dp[m]);
                    assert(d.contains(p));
                } else {
                    assert(d =~= dp);
                }
            } else {
                assert(p == s.last());
                if t.contains(s.last()) {
                    assert(t.contains(p));
                    assert(dp.contains(p));
                    assert(d =~= dp);
                } else {
                    assert(d.last() == p);
                }
            }
        }
        assert forall|a: int, b: int| 0 <= a < b < d.len() implies d[a] != d[b] by {
            if !t.contains(s.last()) {
                if b < dp.len() {
                    assert(d[a] == dp[a] && d[b] == dp[b]);
                } else {
                    assert(d[b] == s.last());
                    assert(d[a] == dp[a]);
                    if dp[a] == s.last() {
                        assert(dp.contains(s.last()));
                    }
                }
            } else {
                assert(d[a] == dp[a] && d[b] == dp[b]);
            }
        }
    }
}

/// The retained points of interest, in input order.
pub open spec fn cull_spec(
    pois: Seq<PoiView>,
    snaps: Seq<Snap>,
    es: Seq<GraphEdge>,
    origin_vertex: usize,
    threshold: usize,
) -> Seq<PoiView>
    decreases pois.len(),
{
    if pois.len() == 0 {
        Seq::empty()
    } else {
        let prefix = cull_spec(pois.drop_last(), snaps.drop_last(), es, origin_vertex, threshold);
        if poi_included(es, origin_vertex, snaps.last(), threshold) {
            prefix.push(pois.last())
        } else {
            prefix
        }
    }
}

/// Keeps the points of interest whose network distance from the origin
/// vertex is strictly below the threshold; a poi with no path to the
/// origin is dropped. The graph is compiled into the solver's query
/// structure once, and every poi is then decided against that one
/// structure. The vertex and weight bounds are the solver's machine
/// limits: its node count adds one to the largest endpoint, and its
/// search arithmetic must stay within the machine word.
pub fn cull_amenities(
    pois: &Vec<Poi>,
    snaps: &Vec<Snap>,
    edges: &Vec<GraphEdge>,
    origin_vertex: usize,
    threshold: usize,
) -> (r: Vec<Poi>)
    requires
        snaps@.len() == pois@.len(),
        forall|i: int|
            0 <= i < edges@.len() ==> (#[trigger] edges@[i]).from < usize::MAX
                && edges@[i].to < usize::MAX,
        forall|i: int|
            0 <= i < edges@.len() ==> 2 * ((#[trigger] edges@[i]).weight as int)
                * edges_node_bound(edges@) < usize::MAX,
    ensures
        r.deep_view() =~= cull_spec(
            pois.deep_view(),
            snaps@,
            edges@,
            origin_vertex,
            threshold,
        ),
{
    let g = build_graph(edges);
    proof {
        assert(solver_weights_in_range(graph_edges(g), graph_node_bound(g))) by {
            assert forall|e: (usize, usize, usize)|
                #[trigger] graph_edges(g).contains(e) implies 2 * (e.2 as int) * (
            graph_node_bound(g) as int) < usize::MAX by {
                let i = choose|i: int|
                    0 <= i < edges@.len() && (#[trigger] edges@[i]).weight == e.2;
                assert(2 * (edges@[i].weight as int) * edges_node_bound(edges@) < usize::MAX);
            }
        }
    }
    let fg = prepare_graph(&g);
    let n = fast_graph_num_nodes(&fg);
    proof {
        assert(fast_graph_edges(fg) == graph_edges(g));
        assert(solver_weights_in_range(fast_graph_edges(fg), n));
    }
    let mut r: Vec<Poi> = Vec::new();
    let mut i: usize = 0;
    while i < pois.len()
        invariant
            snaps@.len() == pois@.len(),
            i <= pois@.len(),
            forall|a: usize, b: usize|
                spath_weight(fast_graph_edges(fg), a, b) == spath_weight(
                    kept_edges(edges@),
                    a,
                    b,
                ),
            solver_weights_in_range(fast_graph_edges(fg), n),
            fast_graph_exact(fg),
            fast_graph_node_bound(fg) == n,
            n == edges_node_bound(edges@),
            r.deep_view() =~= cull_spec(
                pois.deep_view().take(i as int),
                snaps@.take(i as int),
                edges@,
                origin_vertex,
                threshold,
            ),
        decreases pois.len() - i,
    {
        let s = snaps[i];
        let keep: bool = if s.node_vertex == origin_vertex {
            s.weight < threshold
        } else if origin_vertex < n && s.node_vertex < n {
            let w_net = calc_path_weight(&fg, origin_vertex, s.node_vertex);
            proof {
                assert(spath_weight(fast_graph_edges(fg), origin_vertex, s.node_vertex)
                    == spath_weight(kept_edges(edges@), origin_vertex, s.node_vertex));
            }
            match w_net {
                Some(w) => w < threshold && s.weight < threshold - w,
                None => false,
            }
        } else {
            false
        };
        if keep {
            r.push(pois[i].duplicate());
        }
        proof {
            assert(pois.deep_view().take(i + 1).drop_last() =~= pois.deep_view().take(i as int));
            assert(snaps@.take(i + 1).drop_last() =~= snaps@.take(i as int));
            assert(pois.deep_view().take(i + 1).last() == pois@[i as int]@);
            assert(snaps@.take(i + 1).last() == snaps@[i as int]);
        }
        i = i + 1;
    }
    proof {
        assert(pois.deep_view().take(pois@.len() as int) =~= pois.deep_view());
        assert(snaps@.take(snaps@.len() as int) =~= snaps@);
    }
    r
}

/// Law: culling retains no point of interest whose network weight
/// reaches the threshold or whose vertex has no path from the origin,
/// and drops none whose network weight is strictly below it. Among
/// pairwise-distinct points of interest, membership in the culled
/// sequence decides exactly by the threshold test.
pub proof fn lemma_cull_threshold(
    pois: Seq<PoiView>,
    snaps: Seq<Snap>,
    es: Seq<GraphEdge>,
    origin_vertex: usize,
    threshold: usize,
    i: int,
)
    requires
        snaps.len() == pois.len(),
        0 <= i < pois.len(),
        forall|a: int, b: int| 0 <= a < b < pois.len() ==> pois[a] != pois[b],
    ensures
        cull_spec(pois, snaps, es, origin_vertex, threshold).contains(pois[i]) <==> poi_included(
            es,
            origin_vertex,
            snaps[i],
            threshold,
        ),
    decreases pois.len(),
{
    let c = cull_spec(pois, snaps, es, origin_vertex, threshold);
    if pois.len() > 0 {
        let prefix = cull_spec(
            pois.drop_last(),
            snaps.drop_last(),
            es,
            origin_vertex,
            threshold,
        );
        lemma_cull_subset(pois.drop_last(), snaps.drop_last(), es, origin_vertex, threshold);
        if i == pois.len() - 1 {
            if poi_included(es, origin_vertex, snaps[i], threshold) {
                assert(c.last() == pois[i]);
                assert(c.contains(pois[i]));
            } else {
                assert(c =~= prefix);
                if c.contains(pois[i]) {
                    let k = choose|k: int| 0 <= k < prefix.len() && prefix[k] == pois[i];
                    assert(pois.drop_last().contains(prefix[k]));
                    let j = choose|j: int|
                        0 <= j < pois.drop_last().len() && pois.drop_last()[j] == prefix[k];
                    assert(pois[j] == pois[i]);
                    assert(j < i);
                    assert(false);
                }
            }
        } else {
            lemma_cull_threshold(
                pois.drop_last(),
                snaps.drop_last(),
                es,
                origin_vertex,
                threshold,
                i,
            );
            assert(pois.drop_last()[i] == pois[i]);
            if poi_included(es, origin_vertex, snaps[i], threshold) {
                assert(prefix.contains(pois[i]));
                let k = choose|k: int| 0 <= k < prefix.len() && prefix[k] == pois[i];
                if poi_included(es, origin_vertex, snaps.last(), threshold) {
                    assert(c =~= prefix.push(pois.last()));
                } else {
                    assert(c =~= prefix);
                }
                assert(c[k] == prefix[k]);
                assert(c.contains(pois[i]));
            } else {
                if c.contains(pois[i]) {
                    let k = choose|k: int| 0 <= k < c.len() && c[k] == pois[i];
                    if poi_included(es, origin_vertex, snaps.last(), threshold) {
                        assert(c =~= prefix.push(pois.last()));
                    } else {
                        assert(c =~= prefix);
                    }
                    if k < prefix.len() {
                        assert(prefix[k] == pois[i]);
                        assert(prefix.contains(pois[i]));
                        assert(false);
                    } else {
                        assert(c[k] == pois.last());
                        assert(pois[pois.len() - 1] == pois[i]);
                        assert(false);
                    }
                }
            }
        }
    }
}

/// Every retained point of interest is one of the inputs.
proof fn lemma_cull_subset(
    pois: Seq<PoiView>,
    snaps: Seq<Snap>,
    es: Seq<GraphEdge>,
    origin_vertex: usize,
    threshold: usize,
)
    requires
        snaps.len() == pois.len(),
    ensures
        forall|k: int|
            0 <= k < cull_spec(pois, snaps, es, origin_vertex, threshold).len() ==> pois.contains(
                #[trigger] cull_spec(pois, snaps, es, origin_vertex, threshold)[k],
            ),
    decreases pois.len(),
{
    if pois.len() > 0 {
        lemma_cull_subset(pois.drop_last(), snaps.drop_last(), es, origin_vertex, threshold);
        let c = cull_spec(pois, snaps, es, origin_vertex, threshold);
        let prefix = cull_spec(
            pois.drop_last(),
            snaps.drop_last(),
            es,
            origin_vertex,
            threshold,
        );
        assert forall|k: int| 0 <= k < c.len() implies pois.contains(#[trigger] c[k]) by {
            if poi_included(es, origin_vertex, snaps.last(), threshold) {
                assert(c =~= prefix.push(pois.last()));
            } else {
                assert(c =~= prefix);
            }
            if k < prefix.len() {
                assert(c[k] == prefix[k]);
                assert(pois.drop_last().contains(prefix[k]));
                let j = choose|j: int|
                    0 <= j < pois.drop_last().len() && pois.drop_last()[j] == prefix[k];
                assert(pois[j] == c[k]);
                assert(pois.contains(c[k]));
            } else {
                assert(c[k] == pois.last());
                assert(pois[pois.len() - 1] == c[k]);
                assert(pois.contains(c[k]));
            }
        }
    }
}

} // verus!

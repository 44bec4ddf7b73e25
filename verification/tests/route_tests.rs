use haversine_redux::Location;
use walkshed::graph::GraphEdge;
use walkshed::model::{Coordinate, Poi, RoadNode, Way};
use walkshed::pipeline::reachable_pois;
use walkshed::route::{cull_amenities, dedup_pois};
use walkshed::snap::Snap;

fn coord(lat: f64, lon: f64) -> Coordinate {
    Coordinate { lat_bits: lat.to_bits(), lon_bits: lon.to_bits() }
}

fn meters(a: Coordinate, b: Coordinate) -> usize {
    let start = Location::new(f64::from_bits(a.lat_bits), f64::from_bits(a.lon_bits));
    let end = Location::new(f64::from_bits(b.lat_bits), f64::from_bits(b.lon_bits));
    (start.kilometers_to(&end) * 1000.0) as usize
}

fn sq_dist_bits(a: Coordinate, b: Coordinate) -> u64 {
    let dlat = f64::from_bits(a.lat_bits) - f64::from_bits(b.lat_bits);
    let dlon = f64::from_bits(a.lon_bits) - f64::from_bits(b.lon_bits);
    (dlat * dlat + dlon * dlon).to_bits()
}

fn way_weight_rows(ways: &[Way]) -> Vec<Vec<usize>> {
    ways.iter()
        .map(|w| {
            (1..w.nodes.len())
                .map(|k| meters(w.nodes[k - 1].coordinate, w.nodes[k].coordinate))
                .collect()
        })
        .collect()
}

fn sq_rows(pois: &[Poi], nodes: &[RoadNode]) -> Vec<Vec<u64>> {
    pois.iter()
        .map(|p| nodes.iter().map(|n| sq_dist_bits(p.coordinate, n.coordinate)).collect())
        .collect()
}

fn meter_rows(pois: &[Poi], nodes: &[RoadNode]) -> Vec<Vec<usize>> {
    pois.iter()
        .map(|p| nodes.iter().map(|n| meters(p.coordinate, n.coordinate)).collect())
        .collect()
}

fn origin_row(origin: Coordinate, nodes: &[RoadNode]) -> Vec<u64> {
    nodes.iter().map(|n| sq_dist_bits(origin, n.coordinate)).collect()
}

fn run(
    pois: &Vec<Poi>,
    ways: &Vec<Way>,
    nodes: &Vec<RoadNode>,
    origin: Coordinate,
    threshold: usize,
) -> Vec<Poi> {
    reachable_pois(
        pois,
        ways,
        nodes,
        &way_weight_rows(ways),
        &sq_rows(pois, nodes),
        &meter_rows(pois, nodes),
        &origin_row(origin, nodes),
        threshold,
    )
}

/// A straight three-node way of about 200 meters, one hundred per leg.
fn straight_line_setup() -> (Vec<Poi>, Vec<Way>, Vec<RoadNode>, Coordinate) {
    let a = coord(0.0, 0.0);
    let b = coord(0.0009, 0.0);
    let c = coord(0.0018, 0.0);
    let nodes = vec![
        RoadNode { id: 1, coordinate: a },
        RoadNode { id: 2, coordinate: b },
        RoadNode { id: 3, coordinate: c },
    ];
    let way = Way { id: 10, nodes: nodes.clone() };
    let poi = Poi { id: 500, name: Some("midpoint stop".to_string()), coordinate: b };
    (vec![poi], vec![way], nodes, a)
}

#[test]
fn poi_at_line_midpoint_is_included_at_150_meters() {
    let (pois, ways, nodes, origin) = straight_line_setup();
    let leg = meters(nodes[0].coordinate, nodes[1].coordinate);
    assert!(leg >= 90 && leg <= 110, "one leg should be about 100 m, got {leg}");
    let kept = run(&pois, &ways, &nodes, origin, 150);
    assert_eq!(kept.len(), 1);
    assert_eq!(kept[0].id, 500);
}

#[test]
fn poi_at_line_midpoint_is_excluded_at_50_meters() {
    let (pois, ways, nodes, origin) = straight_line_setup();
    let kept = run(&pois, &ways, &nodes, origin, 50);
    assert!(kept.is_empty());
}

#[test]
fn threshold_is_an_exclusive_upper_bound() {
    let a = coord(0.0, 0.0);
    let b = coord(0.0009, 0.0);
    let nodes = vec![RoadNode { id: 1, coordinate: a }, RoadNode { id: 2, coordinate: b }];
    let way = Way { id: 11, nodes: nodes.clone() };
    let pois = vec![Poi { id: 600, name: Some("corner shop".to_string()), coordinate: b }];
    let w = meters(a, b);
    let at_weight = run(&pois, &vec![way.clone()], &nodes, a, w);
    assert!(at_weight.is_empty(), "weight {w} must not pass a threshold of {w}");
    let above_weight = run(&pois, &vec![way], &nodes, a, w + 1);
    assert_eq!(above_weight.len(), 1);
}

#[test]
fn poi_on_a_disconnected_way_is_excluded() {
    let a = coord(0.0, 0.0);
    let b = coord(0.0009, 0.0);
    let c = coord(0.5, 0.5);
    let d = coord(0.5009, 0.5);
    let nodes = vec![
        RoadNode { id: 1, coordinate: a },
        RoadNode { id: 2, coordinate: b },
        RoadNode { id: 3, coordinate: c },
        RoadNode { id: 4, coordinate: d },
    ];
    let ways = vec![
        Way { id: 20, nodes: vec![nodes[0], nodes[1]] },
        Way { id: 21, nodes: vec![nodes[2], nodes[3]] },
    ];
    let pois = vec![Poi { id: 700, name: Some("far side inn".to_string()), coordinate: d }];
    let kept = run(&pois, &ways, &nodes, a, 1_000_000_000);
    assert!(kept.is_empty());
}

#[test]
fn no_road_nodes_means_nothing_is_reachable() {
    let pois = vec![Poi { id: 1, name: Some("anything".to_string()), coordinate: coord(0.0, 0.0) }];
    let kept = run(&pois, &Vec::new(), &Vec::new(), coord(0.0, 0.0), 5000);
    assert!(kept.is_empty());
}

#[test]
fn duplicated_pois_collapse_to_one() {
    let p = Poi { id: 42, name: Some("twin cafe".to_string()), coordinate: coord(1.0, 2.0) };
    let q = Poi { id: 42, name: Some("twin cafe".to_string()), coordinate: coord(1.0, 2.0) };
    let distinct = Poi { id: 42, name: Some("other".to_string()), coordinate: coord(1.0, 2.0) };
    let deduped = dedup_pois(&vec![p, q, distinct]);
    assert_eq!(deduped.len(), 2);
    assert_eq!(deduped[0].name.as_deref(), Some("twin cafe"));
    assert_eq!(deduped[1].name.as_deref(), Some("other"));
}

#[test]
fn dedup_keeps_first_occurrence_order() {
    let mk = |id: u64, name: &str| Poi {
        id,
        name: Some(name.to_string()),
        coordinate: coord(0.0, 0.0),
    };
    let deduped = dedup_pois(&vec![mk(3, "c"), mk(1, "a"), mk(3, "c"), mk(2, "b"), mk(1, "a")]);
    let names: Vec<_> = deduped.iter().map(|p| p.name.clone().unwrap()).collect();
    assert_eq!(names, vec!["c", "a", "b"]);
}

#[test]
fn poi_snapped_to_the_origin_node_needs_no_path() {
    let (pois, ways, nodes, _) = straight_line_setup();
    // the origin stands at the middle node, exactly where the poi sits
    let origin = nodes[1].coordinate;
    let kept = run(&pois, &ways, &nodes, origin, 1);
    assert_eq!(kept.len(), 1, "a poi at the origin's own node is zero meters away");
}

#[test]
fn origin_on_an_edgeless_network_reaches_only_its_own_node() {
    // a single one-node way: the solver graph has no edge and no vertex
    let a = coord(0.0, 0.0);
    let b = coord(0.0009, 0.0);
    let nodes = vec![RoadNode { id: 1, coordinate: a }, RoadNode { id: 2, coordinate: b }];
    let ways = vec![
        Way { id: 30, nodes: vec![nodes[0]] },
        Way { id: 31, nodes: vec![nodes[1]] },
    ];
    let near = Poi { id: 800, name: Some("at the origin".to_string()), coordinate: a };
    let far = Poi { id: 801, name: Some("one node over".to_string()), coordinate: b };
    let kept = run(&vec![near, far], &ways, &nodes, a, 1_000_000);
    assert_eq!(kept.len(), 1);
    assert_eq!(kept[0].id, 800);
}

#[test]
fn network_weight_is_path_weight_plus_snap_distance() {
    let pois = vec![Poi { id: 1, name: Some("two legs out".to_string()), coordinate: coord(0.0, 0.0) }];
    let snaps = vec![Snap { poi_vertex: 3, node_vertex: 2, weight: 5 }];
    let edges = vec![
        GraphEdge { from: 0, to: 1, weight: 10 },
        GraphEdge { from: 1, to: 2, weight: 20 },
    ];
    // the weight from vertex 0 is exactly 10 + 20 + 5 = 35
    assert!(cull_amenities(&pois, &snaps, &edges, 0, 35).is_empty());
    assert_eq!(cull_amenities(&pois, &snaps, &edges, 0, 36).len(), 1);
}

#[test]
fn solver_skips_zero_weight_and_loop_edges() {
    let pois = vec![Poi { id: 2, name: Some("over a dead edge".to_string()), coordinate: coord(0.0, 0.0) }];
    let snaps = vec![Snap { poi_vertex: 3, node_vertex: 1, weight: 1 }];
    let zero_weight = vec![GraphEdge { from: 0, to: 1, weight: 0 }];
    assert!(cull_amenities(&pois, &snaps, &zero_weight, 0, 1_000_000).is_empty());
    let loop_edge = vec![GraphEdge { from: 1, to: 1, weight: 5 }];
    assert!(cull_amenities(&pois, &snaps, &loop_edge, 0, 1_000_000).is_empty());
    let sound = vec![GraphEdge { from: 0, to: 1, weight: 7 }];
    assert_eq!(cull_amenities(&pois, &snaps, &sound, 0, 1_000_000).len(), 1);
}

#[test]
fn culling_is_deterministic_for_a_fixed_graph_and_threshold() {
    let (pois, ways, nodes, origin) = straight_line_setup();
    let first = run(&pois, &ways, &nodes, origin, 150);
    let second = run(&pois, &ways, &nodes, origin, 150);
    assert_eq!(first, second);
}

use walkshed::cli::{first_success, is_accepted_choice, parse_distance, select_endpoint,
    trim_newline};
use walkshed::model::WalkError;
use walkshed::graph::{way_edges, GraphEdge};
use walkshed::model::{Coordinate, RoadNode, Way};
use walkshed::snap::nearest_index;
use walkshed::vindex::VertexIndex;

fn coord(lat: f64, lon: f64) -> Coordinate {
    Coordinate { lat_bits: lat.to_bits(), lon_bits: lon.to_bits() }
}

#[test]
fn vertex_index_round_trips_every_assigned_id() {
    let mut vi = VertexIndex::new();
    let ids = [900u64, 17, 4242, 3];
    for &id in &ids {
        vi.assign_if_absent(id);
    }
    for &id in &ids {
        let idx = vi.graph_index_of(id).unwrap();
        assert!(idx < ids.len());
        assert_eq!(vi.external_id_of(idx), Some(id));
    }
}

#[test]
fn vertex_index_assignment_is_idempotent_and_dense() {
    let mut vi = VertexIndex::new();
    assert_eq!(vi.assign_if_absent(50), 0);
    assert_eq!(vi.assign_if_absent(60), 1);
    assert_eq!(vi.assign_if_absent(50), 0);
    assert_eq!(vi.len(), 2);
}

#[test]
fn vertex_index_miss_returns_none_not_a_sentinel() {
    let mut vi = VertexIndex::new();
    vi.assign_if_absent(50);
    assert_eq!(vi.graph_index_of(99), None);
    assert_eq!(vi.external_id_of(7), None);
}

#[test]
fn nearest_index_handles_no_candidates() {
    assert_eq!(nearest_index(&Vec::new()), None);
}

#[test]
fn nearest_index_picks_first_of_equal_minima() {
    let d = 0.25f64.to_bits();
    let far = 9.0f64.to_bits();
    assert_eq!(nearest_index(&vec![far, d, d]), Some(1));
}

#[test]
fn nearest_index_picks_the_least_distance() {
    let dists = vec![4.0f64.to_bits(), 0.09f64.to_bits(), 1.0f64.to_bits()];
    assert_eq!(nearest_index(&dists), Some(1));
}

#[test]
fn way_of_three_nodes_yields_two_edges() {
    let nodes = vec![
        RoadNode { id: 1, coordinate: coord(55.0, -3.0) },
        RoadNode { id: 2, coordinate: coord(55.001, -3.0) },
        RoadNode { id: 3, coordinate: coord(55.002, -3.0) },
    ];
    let way = Way { id: 77, nodes };
    let mut vi = VertexIndex::new();
    for n in &way.nodes {
        vi.assign_if_absent(n.id);
    }
    let edges = way_edges(&way, &vi, &vec![111, 112]);
    assert_eq!(edges.len(), 2);
    assert_eq!(edges[0], GraphEdge { from: 0, to: 1, weight: 111 });
    assert_eq!(edges[1], GraphEdge { from: 1, to: 2, weight: 112 });
}

#[test]
fn way_of_one_node_yields_no_edge() {
    let way = Way { id: 78, nodes: vec![RoadNode { id: 1, coordinate: coord(55.0, -3.0) }] };
    let mut vi = VertexIndex::new();
    vi.assign_if_absent(1);
    let edges = way_edges(&way, &vi, &Vec::new());
    assert!(edges.is_empty());
}

#[test]
fn empty_way_yields_no_edge() {
    let way = Way { id: 79, nodes: Vec::new() };
    let vi = VertexIndex::new();
    let edges = way_edges(&way, &vi, &Vec::new());
    assert!(edges.is_empty());
}

#[test]
fn parse_distance_reads_a_decimal_number() {
    assert_eq!(parse_distance(&b"250".to_vec()), 250);
    assert_eq!(parse_distance(&b"1500".to_vec()), 1500);
}

#[test]
fn parse_distance_accepts_one_leading_plus_sign() {
    assert_eq!(parse_distance(&b"+25".to_vec()), 25);
    assert_eq!(parse_distance(&b"+".to_vec()), 1500);
    assert_eq!(parse_distance(&b"++3".to_vec()), 1500);
}

#[test]
fn parse_distance_falls_back_to_default_on_bad_input() {
    assert_eq!(parse_distance(&b"".to_vec()), 1500);
    assert_eq!(parse_distance(&b"12a".to_vec()), 1500);
    assert_eq!(parse_distance(&b"-5".to_vec()), 1500);
    assert_eq!(parse_distance(&b"99999999999999999999999".to_vec()), 1500);
}

#[test]
fn trim_newline_strips_one_trailing_newline() {
    let mut s = b"edinburgh\n".to_vec();
    trim_newline(&mut s);
    assert_eq!(s, b"edinburgh".to_vec());

    let mut s = b"edinburgh\r\n".to_vec();
    trim_newline(&mut s);
    assert_eq!(s, b"edinburgh".to_vec());

    let mut s = b"edinburgh".to_vec();
    trim_newline(&mut s);
    assert_eq!(s, b"edinburgh".to_vec());
}

#[test]
fn first_success_returns_the_first_reachable_endpoint() {
    assert_eq!(first_success(&vec![false, true, true]), Some(1));
    assert_eq!(first_success(&vec![true]), Some(0));
    assert_eq!(first_success(&vec![false, false]), None);
    assert_eq!(first_success(&Vec::new()), None);
}

#[test]
fn no_responding_endpoint_means_service_unavailable() {
    assert_eq!(select_endpoint(&vec![false, false, false]), Err(WalkError::ServiceUnavailable));
    assert_eq!(select_endpoint(&vec![false, true]), Ok(1));
}

#[test]
fn accepted_choice_matches_only_the_offered_options() {
    let options = vec![b"1".to_vec(), b"2".to_vec()];
    assert!(is_accepted_choice(&b"1".to_vec(), &options));
    assert!(is_accepted_choice(&b"2".to_vec(), &options));
    assert!(!is_accepted_choice(&b"3".to_vec(), &options));
    assert!(!is_accepted_choice(&b"".to_vec(), &options));
}

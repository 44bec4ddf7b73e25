use haversine_redux::Location;
use walkshed::cache::{filter_pois_by_distance, filter_ways_by_distance, rebuild_road_nodes};
use walkshed::model::{Coordinate, Poi, RoadNode, Way};
use walkshed::pipeline::reachable_pois;

fn coord(lat: f64, lon: f64) -> Coordinate {
    Coordinate { lat_bits: lat.to_bits(), lon_bits: lon.to_bits() }
}

fn meters_u64(a: Coordinate, b: Coordinate) -> u64 {
    let start = Location::new(f64::from_bits(a.lat_bits), f64::from_bits(a.lon_bits));
    let end = Location::new(f64::from_bits(b.lat_bits), f64::from_bits(b.lon_bits));
    (start.kilometers_to(&end) * 1000.0) as u64
}

fn poi_dists(pois: &[Poi], origin: Coordinate) -> Vec<u64> {
    pois.iter().map(|p| meters_u64(p.coordinate, origin)).collect()
}

fn way_dist_rows(ways: &[Way], origin: Coordinate) -> Vec<Vec<u64>> {
    ways.iter()
        .map(|w| w.nodes.iter().map(|n| meters_u64(n.coordinate, origin)).collect())
        .collect()
}

/// A cache rebuilt for one area: a poi about 50 m out, a poi about
/// 2000 m out, and no ways at all.
fn cached_area() -> (Vec<Poi>, Vec<Way>, Coordinate) {
    let origin = coord(0.0, 0.0);
    let near = Poi { id: 1, name: Some("close call".to_string()), coordinate: coord(0.00045, 0.0) };
    let far = Poi { id: 2, name: Some("distant den".to_string()), coordinate: coord(0.018, 0.0) };
    (vec![near, far], Vec::new(), origin)
}

#[test]
fn cache_query_at_100_meters_returns_only_the_near_poi() {
    let (pois, ways, origin) = cached_area();
    let near_d = meters_u64(pois[0].coordinate, origin);
    let far_d = meters_u64(pois[1].coordinate, origin);
    assert!(near_d >= 40 && near_d <= 60, "near poi should sit about 50 m out, got {near_d}");
    assert!(far_d >= 1900 && far_d <= 2100, "far poi should sit about 2000 m out, got {far_d}");

    let (kept, _) = filter_pois_by_distance(&pois, &poi_dists(&pois, origin), 100);
    assert_eq!(kept.len(), 1);
    assert_eq!(kept[0].id, 1);

    let (kept_ways, _) = filter_ways_by_distance(&ways, &way_dist_rows(&ways, origin), 100);
    assert!(kept_ways.is_empty());
    let nodes = rebuild_road_nodes(&kept_ways);
    assert!(nodes.is_empty());

    let reached = reachable_pois(
        &kept,
        &kept_ways,
        &nodes,
        &Vec::new(),
        &vec![Vec::new(); kept.len()],
        &vec![Vec::new(); kept.len()],
        &Vec::new(),
        100,
    );
    assert!(reached.is_empty(), "with no ways cached, nothing is network-reachable");
}

#[test]
fn refiltering_with_a_wider_limit_keeps_every_prior_poi() {
    let origin = coord(0.0, 0.0);
    let pois: Vec<Poi> = [200u64, 450, 700, 1200]
        .iter()
        .enumerate()
        .map(|(i, d)| Poi {
            id: i as u64,
            name: Some(format!("stop {i}")),
            coordinate: coord(*d as f64 * 0.000009, 0.0),
        })
        .collect();
    let (kept1, d1) = filter_pois_by_distance(&pois, &poi_dists(&pois, origin), 500);
    assert_eq!(kept1.len(), 2);
    let (kept2, d2) = filter_pois_by_distance(&kept1, &d1, 800);
    assert_eq!(kept1, kept2);
    assert_eq!(d1, d2);
}

#[test]
fn refiltering_ways_with_a_wider_limit_keeps_every_prior_way() {
    let origin = coord(0.0, 0.0);
    let near_way = Way {
        id: 1,
        nodes: vec![
            RoadNode { id: 10, coordinate: coord(0.0004, 0.0) },
            RoadNode { id: 11, coordinate: coord(0.02, 0.0) },
        ],
    };
    let far_way = Way {
        id: 2,
        nodes: vec![
            RoadNode { id: 12, coordinate: coord(0.02, 0.0) },
            RoadNode { id: 13, coordinate: coord(0.03, 0.0) },
        ],
    };
    let ways = vec![near_way, far_way];
    let (kept1, rows1) = filter_ways_by_distance(&ways, &way_dist_rows(&ways, origin), 100);
    assert_eq!(kept1.len(), 1);
    assert_eq!(kept1[0].id, 1);
    let (kept2, _) = filter_ways_by_distance(&kept1, &rows1, 400);
    assert_eq!(kept1, kept2);
}

#[test]
fn a_qualifying_way_keeps_its_far_nodes() {
    let origin = coord(0.0, 0.0);
    let way = Way {
        id: 5,
        nodes: vec![
            RoadNode { id: 20, coordinate: coord(0.0004, 0.0) },
            RoadNode { id: 21, coordinate: coord(0.05, 0.0) },
        ],
    };
    let ways = vec![way];
    let (kept, _) = filter_ways_by_distance(&ways, &way_dist_rows(&ways, origin), 100);
    assert_eq!(kept.len(), 1);
    let nodes = rebuild_road_nodes(&kept);
    assert_eq!(nodes.len(), 2);
    assert!(nodes.iter().any(|n| n.id == 21), "the far node of a kept way is retained");
}

#[test]
fn rebuilding_road_nodes_deduplicates_by_id_last_write_wins() {
    let w1 = Way {
        id: 6,
        nodes: vec![
            RoadNode { id: 30, coordinate: coord(0.001, 0.0) },
            RoadNode { id: 31, coordinate: coord(0.002, 0.0) },
        ],
    };
    let w2 = Way {
        id: 7,
        nodes: vec![
            RoadNode { id: 31, coordinate: coord(0.0025, 0.0) },
            RoadNode { id: 32, coordinate: coord(0.003, 0.0) },
        ],
    };
    let nodes = rebuild_road_nodes(&vec![w1, w2]);
    assert_eq!(nodes.len(), 3);
    let n31 = nodes.iter().find(|n| n.id == 31).unwrap();
    assert_eq!(n31.coordinate, coord(0.0025, 0.0));
}

#[test]
fn poi_exactly_at_the_limit_is_dropped_by_the_geo_filter() {
    let pois = vec![Poi { id: 9, name: Some("edge case".to_string()), coordinate: coord(0.0, 0.0) }];
    let (kept, _) = filter_pois_by_distance(&pois, &vec![100], 100);
    assert!(kept.is_empty());
    let (kept, _) = filter_pois_by_distance(&pois, &vec![99], 100);
    assert_eq!(kept.len(), 1);
}

use walkshed::model::{Coordinate, RawElement, WalkError};
use walkshed::classify::classify_elements;

fn coord(lat: f64, lon: f64) -> Coordinate {
    Coordinate { lat_bits: lat.to_bits(), lon_bits: lon.to_bits() }
}

fn blank_element() -> RawElement {
    RawElement {
        id: None,
        position: None,
        has_amenity: false,
        name: None,
        shop: None,
        has_highway: false,
        node_ids: None,
        geometry: None,
    }
}

fn amenity(id: u64, name: Option<&str>, shop: Option<&str>, lat: f64, lon: f64) -> RawElement {
    RawElement {
        id: Some(id),
        position: Some(coord(lat, lon)),
        has_amenity: true,
        name: name.map(|s| s.to_string()),
        shop: shop.map(|s| s.to_string()),
        has_highway: false,
        node_ids: None,
        geometry: None,
    }
}

fn highway(id: u64, node_ids: Vec<u64>, coords: Vec<(f64, f64)>) -> RawElement {
    RawElement {
        id: Some(id),
        position: None,
        has_amenity: false,
        name: None,
        shop: None,
        has_highway: true,
        node_ids: Some(node_ids),
        geometry: Some(coords.into_iter().map(|(a, b)| coord(a, b)).collect()),
    }
}

#[test]
fn named_amenity_is_retained_with_its_name() {
    let elements = vec![amenity(7, Some("cafe corner"), None, 55.0, -3.0)];
    let c = classify_elements(&elements).unwrap();
    assert_eq!(c.pois.len(), 1);
    assert_eq!(c.pois[0].id, 7);
    assert_eq!(c.pois[0].name.as_deref(), Some("cafe corner"));
    assert_eq!(c.pois[0].coordinate, coord(55.0, -3.0));
    assert!(c.ways.is_empty());
    assert!(c.road_nodes.is_empty());
}

#[test]
fn unnamed_shop_takes_shop_value_as_label() {
    let elements = vec![amenity(8, None, Some("bakery"), 55.0, -3.0)];
    let c = classify_elements(&elements).unwrap();
    assert_eq!(c.pois.len(), 1);
    assert_eq!(c.pois[0].name.as_deref(), Some("bakery"));
}

#[test]
fn candidate_without_name_or_shop_is_dropped() {
    let elements = vec![amenity(9, None, None, 55.0, -3.0)];
    let c = classify_elements(&elements).unwrap();
    assert!(c.pois.is_empty());
}

#[test]
fn every_retained_poi_has_a_label() {
    let elements = vec![
        amenity(1, Some("pub"), None, 55.0, -3.0),
        amenity(2, None, None, 55.1, -3.1),
        amenity(3, None, Some("grocer"), 55.2, -3.2),
    ];
    let c = classify_elements(&elements).unwrap();
    assert_eq!(c.pois.len(), 2);
    for poi in &c.pois {
        assert!(poi.name.is_some());
    }
}

#[test]
fn labelled_candidate_without_position_is_malformed() {
    let mut e = amenity(10, Some("kiosk"), None, 55.0, -3.0);
    e.position = None;
    let r = classify_elements(&vec![e]);
    assert_eq!(r.unwrap_err(), WalkError::MalformedResponse);
}

#[test]
fn way_array_length_mismatch_is_malformed() {
    let e = highway(20, vec![1, 2, 3], vec![(55.0, -3.0), (55.1, -3.1)]);
    let r = classify_elements(&vec![e]);
    assert_eq!(r.unwrap_err(), WalkError::MalformedResponse);
}

#[test]
fn way_without_node_ids_is_malformed() {
    let mut e = highway(21, vec![1], vec![(55.0, -3.0)]);
    e.node_ids = None;
    let r = classify_elements(&vec![e]);
    assert_eq!(r.unwrap_err(), WalkError::MalformedResponse);
}

#[test]
fn way_nodes_are_walked_in_lock_step() {
    let e = highway(22, vec![101, 102], vec![(55.0, -3.0), (55.001, -3.0)]);
    let c = classify_elements(&vec![e]).unwrap();
    assert_eq!(c.ways.len(), 1);
    assert_eq!(c.ways[0].id, 22);
    assert_eq!(c.ways[0].nodes.len(), 2);
    assert_eq!(c.ways[0].nodes[0].id, 101);
    assert_eq!(c.ways[0].nodes[0].coordinate, coord(55.0, -3.0));
    assert_eq!(c.ways[0].nodes[1].id, 102);
    assert_eq!(c.road_nodes.len(), 2);
}

#[test]
fn repeated_node_id_resolves_to_one_road_node_last_write_wins() {
    let e1 = highway(30, vec![101, 102], vec![(55.0, -3.0), (55.001, -3.0)]);
    let e2 = highway(31, vec![102, 103], vec![(55.0015, -3.0), (55.002, -3.0)]);
    let c = classify_elements(&vec![e1, e2]).unwrap();
    assert_eq!(c.road_nodes.len(), 3);
    let n102 = c.road_nodes.iter().find(|n| n.id == 102).unwrap();
    assert_eq!(n102.coordinate, coord(55.0015, -3.0));
}

#[test]
fn untagged_elements_are_ignored_to_the_end_of_the_sequence() {
    let mut elements = vec![blank_element(); 40];
    elements.push(amenity(5, Some("library"), None, 55.0, -3.0));
    let c = classify_elements(&elements).unwrap();
    assert_eq!(c.pois.len(), 1);
    assert_eq!(c.pois[0].id, 5);
}

#[test]
fn element_with_amenity_and_highway_is_classified_as_poi() {
    let mut e = amenity(40, Some("fuel"), None, 55.0, -3.0);
    e.has_highway = true;
    let c = classify_elements(&vec![e]).unwrap();
    assert_eq!(c.pois.len(), 1);
    assert!(c.ways.is_empty());
}

use vstd::prelude::*;

verus! {

/// A latitude/longitude pair. Each component holds the exact bit pattern
/// of the floating-point coordinate value, so that equality is stable:
/// two coordinates decoded from the same text always compare equal.
#[derive(Clone, Copy, PartialEq, Eq, Structural, Debug)]
pub struct Coordinate {
    pub lat_bits: u64,
    pub lon_bits: u64,
}

/// A point of interest: a mapped amenity or shop location. `name` is the
/// display label, taken from the name tag when present, else from the
/// shop tag; classification drops candidates that would have neither.
#[derive(Clone, PartialEq, Eq, Debug)]
pub struct Poi {
    pub id: u64,
    pub name: Option<String>,
    pub coordinate: Coordinate,
}

/// One node of the routable road/footway network.
#[derive(Clone, Copy, PartialEq, Eq, Structural, Debug)]
pub struct RoadNode {
    pub id: u64,
    pub coordinate: Coordinate,
}

/// An ordered path of connected road nodes; consecutive entries are
/// joined by one edge of the network graph.
#[derive(Clone, PartialEq, Eq, Debug)]
pub struct Way {
    pub id: u64,
    pub nodes: Vec<RoadNode>,
}

/// The failures the pipeline surfaces as typed values; none of them is
/// allowed to end the hosting process.
#[derive(Clone, Copy, PartialEq, Eq, Structural, Debug)]
pub enum WalkError {
    GeocodeNotFound,
    ServiceUnavailable,
    MalformedResponse,
    CacheMissing,
    CacheCorrupt,
}

/// The ghost image of a `Poi`: the label as a character sequence.
pub struct PoiView {
    pub id: u64,
    pub name: Option<Seq<char>>,
    pub coordinate: Coordinate,
}

/// The ghost image of an optional label.
pub open spec fn name_view(n: Option<String>) -> Option<Seq<char>> {
    match n {
        Some(s) => Some(s@),
        None => None,
    }
}

impl View for Poi {
    type V = PoiView;

    open spec fn view(&self) -> PoiView {
        PoiView { id: self.id, name: name_view(self.name), coordinate: self.coordinate }
    }
}

impl DeepView for Poi {
    type V = PoiView;

    open spec fn deep_view(&self) -> PoiView {
        self.view()
    }
}

/// The ghost image of a `Way`: the node list as a sequence.
pub struct WayView {
    pub id: u64,
    pub nodes: Seq<RoadNode>,
}

impl View for Way {
    type V = WayView;

    open spec fn view(&self) -> WayView {
        WayView { id: self.id, nodes: self.nodes@ }
    }
}

impl DeepView for Way {
    type V = WayView;

    open spec fn deep_view(&self) -> WayView {
        self.view()
    }
}

/// One raw map element, as the query service reports it: a tag summary
/// and the numeric payload already decoded to plain values. A numeric
/// field that was absent or failed to parse is `None`; the position is
/// the element's own point, or the midpoint of its bounding box when the
/// element is an area.
#[derive(Clone, PartialEq, Eq, Debug)]
pub struct RawElement {
    pub id: Option<u64>,
    pub position: Option<Coordinate>,
    pub has_amenity: bool,
    pub name: Option<String>,
    pub shop: Option<String>,
    pub has_highway: bool,
    pub node_ids: Option<Vec<u64>>,
    pub geometry: Option<Vec<Coordinate>>,
}

/// The ghost image of a raw element.
pub struct RawElementView {
    pub id: Option<u64>,
    pub position: Option<Coordinate>,
    pub has_amenity: bool,
    pub name: Option<Seq<char>>,
    pub shop: Option<Seq<char>>,
    pub has_highway: bool,
    pub node_ids: Option<Seq<u64>>,
    pub geometry: Option<Seq<Coordinate>>,
}

impl View for RawElement {
    type V = RawElementView;

    open spec fn view(&self) -> RawElementView {
        RawElementView {
            id: self.id,
            position: self.position,
            has_amenity: self.has_amenity,
            name: name_view(self.name),
            shop: name_view(self.shop),
            has_highway: self.has_highway,
            node_ids: match self.node_ids {
                Some(v) => Some(v@),
                None => None,
            },
            geometry: match self.geometry {
                Some(v) => Some(v@),
                None => None,
            },
        }
    }
}

impl DeepView for RawElement {
    type V = RawElementView;

    open spec fn deep_view(&self) -> RawElementView {
        self.view()
    }
}

impl Poi {
    /// A fresh value equal to this one, copied field by field.
    pub fn duplicate(&self) -> (r: Poi)
        ensures
            r@ == self@,
    {
        Poi {
            id: self.id,
            name: match &self.name {
                Some(s) => Some(s.clone()),
                None => None,
            },
            coordinate: self.coordinate,
        }
    }
}

impl Way {
    /// A fresh value equal to this one, copied node by node.
    pub fn duplicate(&self) -> (r: Way)
        ensures
            r@ == self@,
    {
        let mut nodes: Vec<RoadNode> = Vec::new();
        let mut i: usize = 0;
        while i < self.nodes.len()
            invariant
                i <= self.nodes.len(),
                nodes@ =~= self.nodes@.take(i as int),
            decreases self.nodes.len() - i,
        {
            nodes.push(self.nodes[i]);
            i = i + 1;
        }
        proof {
            assert(nodes@ =~= self.nodes@);
        }
        Way { id: self.id, nodes }
    }
}

/// Whether two optional labels hold the same text, or are both absent.
pub fn opt_name_eq(a: &Option<String>, b: &Option<String>) -> (r: bool)
    ensures
        r == (name_view(*a) == name_view(*b)),
{
    match (a, b) {
        (Some(x), Some(y)) => <String as PartialEq>::eq(x, y),
        (None, None) => true,
        _ => false,
    }
}

/// Whether two points of interest are structurally equal.
pub fn poi_eq(a: &Poi, b: &Poi) -> (r: bool)
    ensures
        r == (a@ == b@),
{
    a.id == b.id && a.coordinate == b.coordinate && opt_name_eq(&a.name, &b.name)
}

} // verus!

//! Route records: what the scan finds and the writers emit.

use vstd::prelude::*;

verus! {

/// A point in time: whole seconds since the Unix epoch, and the nanoseconds
/// past that second.
#[derive(Clone, Copy, Debug, PartialEq, Eq, Structural)]
pub struct Timestamp {
    pub seconds: i64,
    pub nanos: u32,
}

/// One discovered route.
#[derive(Clone, Debug, PartialEq, Eq)]
pub struct RouteInfo {
    /// The canonical route; the key of the record within one scan.
    pub route: String,
    /// The page file, relative to the project root.
    pub path: String,
    /// The display name.
    pub label: String,
    /// Free text, empty unless an editor has set it.
    pub description: String,
    /// When the page file was last modified, if that could be read.
    pub last_modified: Option<Timestamp>,
}

/// The mathematical content of a `RouteInfo`.
pub ghost struct RouteView {
    pub route: Seq<char>,
    pub path: Seq<char>,
    pub label: Seq<char>,
    pub description: Seq<char>,
    pub last_modified: Option<Timestamp>,
}

impl View for RouteInfo {
    type V = RouteView;

    open spec fn view(&self) -> RouteView {
        RouteView {
            route: self.route@,
            path: self.path@,
            label: self.label@,
            description: self.description@,
            last_modified: self.last_modified,
        }
    }
}

/// The views of a sequence of records.
pub open spec fn views(records: Seq<RouteInfo>) -> Seq<RouteView> {
    records.map_values(|r: RouteInfo| r@)
}

/// No two records share a route.
pub open spec fn distinct_routes(records: Seq<RouteView>) -> bool {
    forall|i: int, j: int|
        0 <= i < j < records.len() ==> (#[trigger] records[i]).route != (
        #[trigger] records[j]).route
}

impl RouteInfo {
    /// A record with the same content.
    pub fn duplicate(&self) -> (r: RouteInfo)
        ensures
            r@ == self@,
    {
        RouteInfo {
            route: self.route.clone(),
            path: self.path.clone(),
            label: self.label.clone(),
            description: self.description.clone(),
            last_modified: self.last_modified,
        }
    }
}

} // verus!

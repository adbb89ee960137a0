//! The things that are extracted: way segments, streets and boundaries.

use crate::geo::{all_points, bounds_of, BoundaryGeometry, BoundingBox, SegmentGeometry};
use vstd::prelude::*;
use vstd::std_specs::cmp::PartialEqSpecImpl;

verus! {

/// One way of a street with its geometry.
#[derive(Debug)]
pub struct Segment {
    pub way_id: i64,
    pub geometry: SegmentGeometry,
}

impl View for Segment {
    type V = (i64, Seq<(i32, i32)>);

    /// The way's id and the points of its polyline.
    open spec fn view(&self) -> (i64, Seq<(i32, i32)>) {
        (self.way_id, self.geometry@)
    }
}

impl Clone for Segment {
    fn clone(&self) -> (copy: Self)
        ensures
            copy@ == self@,
    {
        Segment { way_id: self.way_id, geometry: self.geometry.clone() }
    }
}

impl PartialEq for Segment {
    /// Two segments are the same when they come from the same way.
    fn eq(&self, other: &Self) -> (same: bool) {
        self.way_id == other.way_id
    }
}

impl PartialEqSpecImpl for Segment {
    open spec fn obeys_eq_spec() -> bool {
        true
    }

    open spec fn eq_spec(&self, other: &Self) -> bool {
        self.way_id == other.way_id
    }
}

impl Eq for Segment {

}

/// The views of the segments of a vector.
pub open spec fn segment_views(segments: Seq<Segment>) -> Seq<(i64, Seq<(i32, i32)>)> {
    segments.map_values(|s: Segment| s@)
}

/// Copies a list of segments.
pub fn clone_segments(segments: &Vec<Segment>) -> (copy: Vec<Segment>)
    ensures
        segment_views(copy@) == segment_views(segments@),
{
    let mut copy: Vec<Segment> = Vec::new();
    let mut k: usize = 0;
    while k < segments.len()
        invariant
            k <= segments@.len(),
            segment_views(copy@) == segment_views(segments@.take(k as int)),
        decreases segments@.len() - k,
    {
        let ghost before = copy@;
        let segment = segments[k].clone();
        copy.push(segment);
        k = k + 1;
        assert(segment_views(copy@) =~= segment_views(before).push(segment@));
        assert(segment_views(segments@.take(k as int)) =~= segment_views(
            segments@.take(k as int - 1),
        ).push(segments@[k as int - 1]@));
    }
    assert(segments@.take(k as int) =~= segments@);
    copy
}

/// A street: the segments of one name that hang together, and the boundary
/// it was assigned to, if any.
#[derive(Debug)]
pub struct Street {
    pub name: String,
    pub segments: Vec<Segment>,
    pub boundary: Option<String>,
}

/// What a street holds, as plain values.
pub struct StreetView {
    pub name: Seq<char>,
    pub segments: Seq<(i64, Seq<(i32, i32)>)>,
    pub boundary: Option<Seq<char>>,
}

impl View for Street {
    type V = StreetView;

    open spec fn view(&self) -> StreetView {
        StreetView {
            name: self.name@,
            segments: segment_views(self.segments@),
            boundary: match self.boundary {
                Some(b) => Some(b@),
                None => None,
            },
        }
    }
}

impl Clone for Street {
    fn clone(&self) -> (copy: Self)
        ensures
            copy@ == self@,
    {
        let boundary = match &self.boundary {
            Some(b) => Some(b.clone()),
            None => None,
        };
        Street { name: self.name.clone(), segments: clone_segments(&self.segments), boundary }
    }
}

/// An administrative boundary: its name, its level and its polygons.
#[derive(Debug)]
pub struct AdminBoundary {
    pub name: String,
    pub admin_level: u8,
    pub geometry: BoundaryGeometry,
}

/// What a boundary holds, as plain values.
pub struct AdminBoundaryView {
    pub name: Seq<char>,
    pub admin_level: u8,
    pub polygons: Seq<Seq<Seq<(i32, i32)>>>,
}

impl AdminBoundaryView {
    /// The corners `(west, south, east, north)` of the bounding box of all
    /// points of the boundary.
    pub open spec fn bounds(&self) -> (int, int, int, int) {
        bounds_of(all_points(self.polygons))
    }
}

impl View for AdminBoundary {
    type V = AdminBoundaryView;

    open spec fn view(&self) -> AdminBoundaryView {
        AdminBoundaryView {
            name: self.name@,
            admin_level: self.admin_level,
            polygons: self.geometry@,
        }
    }
}

impl AdminBoundary {
    /// The bounding box under which the boundary is found in a spatial index.
    pub fn envelope(&self) -> (envelope: BoundingBox)
        ensures
            envelope.corners() == self@.bounds(),
    {
        let corners = self.geometry.sw_ne();
        BoundingBox { sw: corners.0, ne: corners.1 }
    }
}

/// The views of the boundaries of a vector.
pub open spec fn boundary_views(boundaries: Seq<AdminBoundary>) -> Seq<AdminBoundaryView> {
    boundaries.map_values(|b: AdminBoundary| b@)
}

} // verus!

//! Geometry of way fragments and boundary polygons on an integer grid.
//!
//! A coordinate is a pair `(lon, lat)` of `i32` in units of 1e-7 degree, the
//! fixed-point form in which map data stores positions. Bounding boxes hold
//! `i64` corners so that a padded box always fits.

use crate::chainable::rows;
use vstd::prelude::*;

verus! {

/// Why a geometry could not be built.
#[derive(Clone, Copy, Debug, PartialEq, Eq, Structural)]
pub enum GeometryError {
    /// The coordinates hold no point, so they have no bounding rectangle.
    NoBoundingBox,
}

impl GeometryError {
    /// The text that describes the error.
    pub fn message(&self) -> (text: &'static str)
        ensures
            text@ == "cannot get bounding box for the given set of coordinates"@,
    {
        "cannot get bounding box for the given set of coordinates"
    }
}

/// An axis-aligned rectangle given by its southwest and northeast corners,
/// each as `(lon, lat)`.
#[derive(Clone, Copy, Debug)]
pub struct BoundingBox {
    pub sw: (i64, i64),
    pub ne: (i64, i64),
}

pub open spec fn min_int(a: int, b: int) -> int {
    if a <= b { a } else { b }
}

pub open spec fn max_int(a: int, b: int) -> int {
    if a >= b { a } else { b }
}

/// The corners `(west, south, east, north)` of the smallest rectangle that
/// holds every point; for no point, the corners of the empty rectangle.
pub open spec fn bounds_of(points: Seq<(i32, i32)>) -> (int, int, int, int)
    decreases points.len(),
{
    if points.len() == 0 {
        (i32::MAX as int, i32::MAX as int, i32::MIN as int, i32::MIN as int)
    } else {
        let rest = bounds_of(points.drop_last());
        let p = points.last();
        (
            min_int(rest.0, p.0 as int),
            min_int(rest.1, p.1 as int),
            max_int(rest.2, p.0 as int),
            max_int(rest.3, p.1 as int),
        )
    }
}

/// Whether `b` has exactly the corners `(west, south, east, north)`.
pub open spec fn box_is(b: BoundingBox, corners: (int, int, int, int)) -> bool {
    &&& b.sw.0 == corners.0
    &&& b.sw.1 == corners.1
    &&& b.ne.0 == corners.2
    &&& b.ne.1 == corners.3
}

/// The corners of a rectangle grown by `distance` on every side.
pub open spec fn padded(corners: (int, int, int, int), distance: int) -> (int, int, int, int) {
    (corners.0 - distance, corners.1 - distance, corners.2 + distance, corners.3 + distance)
}

/// Whether two rectangles, each given by two opposite corners in any order,
/// share at least one point. Touching edges count.
pub open spec fn boxes_meet(a: (int, int, int, int), b: (int, int, int, int)) -> bool {
    &&& min_int(a.0, a.2) <= max_int(b.0, b.2)
    &&& min_int(a.1, a.3) <= max_int(b.1, b.3)
    &&& max_int(a.0, a.2) >= min_int(b.0, b.2)
    &&& max_int(a.1, a.3) >= min_int(b.1, b.3)
}

/// The bounding rectangle of at least one point holds each of them, and
/// each of its sides passes through one of them.
pub proof fn lemma_bounds_tight(points: Seq<(i32, i32)>)
    requires
        points.len() > 0,
    ensures
        forall|i: int|
            0 <= i < points.len() ==> {
                &&& bounds_of(points).0 <= (#[trigger] points[i]).0 <= bounds_of(points).2
                &&& bounds_of(points).1 <= points[i].1 <= bounds_of(points).3
            },
        exists|i: int| 0 <= i < points.len() && (#[trigger] points[i]).0 == bounds_of(points).0,
        exists|i: int| 0 <= i < points.len() && (#[trigger] points[i]).1 == bounds_of(points).1,
        exists|i: int| 0 <= i < points.len() && (#[trigger] points[i]).0 == bounds_of(points).2,
        exists|i: int| 0 <= i < points.len() && (#[trigger] points[i]).1 == bounds_of(points).3,
    decreases points.len(),
{
    let n = points.len() - 1;
    let rest = points.drop_last();
    let all = bounds_of(points);
    assert(points[n] == points.last());
    if rest.len() > 0 {
        lemma_bounds_tight(rest);
        assert(forall|i: int| 0 <= i < n ==> rest[i] == points[i]);
        let w = choose|i: int| 0 <= i < n && (#[trigger] rest[i]).0 == bounds_of(rest).0;
        let s = choose|i: int| 0 <= i < n && (#[trigger] rest[i]).1 == bounds_of(rest).1;
        let e = choose|i: int| 0 <= i < n && (#[trigger] rest[i]).0 == bounds_of(rest).2;
        let t = choose|i: int| 0 <= i < n && (#[trigger] rest[i]).1 == bounds_of(rest).3;
        let w2 = if points[n].0 <= bounds_of(rest).0 { n } else { w };
        let s2 = if points[n].1 <= bounds_of(rest).1 { n } else { s };
        let e2 = if points[n].0 >= bounds_of(rest).2 { n } else { e };
        let t2 = if points[n].1 >= bounds_of(rest).3 { n } else { t };
        assert(0 <= w2 < points.len() && points[w2].0 == all.0);
        assert(0 <= s2 < points.len() && points[s2].1 == all.1);
        assert(0 <= e2 < points.len() && points[e2].0 == all.2);
        assert(0 <= t2 < points.len() && points[t2].1 == all.3);
    } else {
        assert(points[n].0 == all.0 && points[n].1 == all.1);
        assert(points[n].0 == all.2 && points[n].1 == all.3);
    }
}

/// Whether the corners are those of a rectangle with its southwest corner
/// first.
pub open spec fn is_box(corners: (int, int, int, int)) -> bool {
    corners.0 <= corners.2 && corners.1 <= corners.3
}

/// A rectangle meets every rectangle that holds it, and none that lies
/// wholly to one side of it.
pub proof fn lemma_meeting_boxes(inner: (int, int, int, int), other: (int, int, int, int))
    requires
        is_box(inner),
        is_box(other),
    ensures
        other.0 <= inner.0 && other.1 <= inner.1 && inner.2 <= other.2 && inner.3 <= other.3
            ==> boxes_meet(inner, other),
        other.2 < inner.0 || inner.2 < other.0 || other.3 < inner.1 || inner.3 < other.1
            ==> !boxes_meet(inner, other),
        boxes_meet(inner, other) == boxes_meet(other, inner),
{
}

/// The bounding rectangles of two polylines with a point in common meet,
/// and so do the rectangles grown by a distance that is not negative.
pub proof fn lemma_common_vertex_boxes(a: Seq<(i32, i32)>, b: Seq<(i32, i32)>, distance: int)
    requires
        common_vertex(a, b),
        distance >= 0,
    ensures
        boxes_meet(padded(bounds_of(a), distance), padded(bounds_of(b), distance)),
{
    let (i, j) = choose|i: int, j: int|
        0 <= i < a.len() && 0 <= j < b.len() && #[trigger] a[i] == #[trigger] b[j];
    lemma_bounds_tight(a);
    lemma_bounds_tight(b);
    assert(bounds_of(a).0 <= a[i].0 <= bounds_of(a).2);
    assert(bounds_of(b).0 <= b[j].0 <= bounds_of(b).2);
}

/// The bounding rectangle of at least one point is a rectangle with its
/// southwest corner first.
pub proof fn lemma_bounds_are_box(points: Seq<(i32, i32)>)
    requires
        points.len() > 0,
    ensures
        is_box(bounds_of(points)),
{
    lemma_bounds_tight(points);
    assert(bounds_of(points).0 <= points[0].0 <= bounds_of(points).2);
}

impl BoundingBox {
    /// The corners `(west, south, east, north)`.
    pub open spec fn corners(&self) -> (int, int, int, int) {
        (self.sw.0 as int, self.sw.1 as int, self.ne.0 as int, self.ne.1 as int)
    }

    /// The box grown by `distance` on every side: the southwest corner moves
    /// by `-distance`, the northeast corner by `+distance`, on both axes.
    pub fn pad(&self, distance: i64) -> (grown: BoundingBox)
        requires
            i64::MIN <= self.sw.0 - distance <= i64::MAX,
            i64::MIN <= self.sw.1 - distance <= i64::MAX,
            i64::MIN <= self.ne.0 + distance <= i64::MAX,
            i64::MIN <= self.ne.1 + distance <= i64::MAX,
        ensures
            grown.corners() == padded(self.corners(), distance as int),
    {
        BoundingBox {
            sw: (self.sw.0 - distance, self.sw.1 - distance),
            ne: (self.ne.0 + distance, self.ne.1 + distance),
        }
    }
}

/// Whether two polylines share at least one point, as the geometry kernel
/// decides it. A polyline of one point is that point.
pub uninterp spec fn polylines_cross(a: Seq<(i32, i32)>, b: Seq<(i32, i32)>) -> bool;

/// Whether a point of one polyline is a point of the other.
pub open spec fn common_vertex(a: Seq<(i32, i32)>, b: Seq<(i32, i32)>) -> bool {
    exists|i: int, j: int| 0 <= i < a.len() && 0 <= j < b.len() && #[trigger] a[i] == #[trigger] b[j]
}

/// `geo::Intersects::intersects` between two `geo::LineString`s with the
/// given points as `i128` coordinates, so that the kernel's products of
/// coordinate differences cannot overflow. The answer depends on the points
/// alone, and polylines with a point in common intersect.
#[verifier::external_body]
fn lines_cross(a: &Vec<(i32, i32)>, b: &Vec<(i32, i32)>) -> (cross: bool)
    ensures
        cross == polylines_cross(a@, b@),
        common_vertex(a@, b@) ==> cross,
{
    let first: geo::LineString<i128> = a.iter().map(|p| (p.0 as i128, p.1 as i128)).collect();
    let second: geo::LineString<i128> = b.iter().map(|p| (p.0 as i128, p.1 as i128)).collect();
    geo::Intersects::intersects(&first, &second)
}

/// The polyline of one way with its bounding box.
#[derive(Debug)]
pub struct SegmentGeometry {
    bounding_box: BoundingBox,
    points: Vec<(i32, i32)>,
}

impl View for SegmentGeometry {
    type V = Seq<(i32, i32)>;

    /// The points of the polyline, in order.
    closed spec fn view(&self) -> Seq<(i32, i32)> {
        self.points@
    }
}

impl Clone for SegmentGeometry {
    fn clone(&self) -> (copy: Self)
        ensures
            copy@ == self@,
    {
        proof {
            use_type_invariant(self);
        }
        SegmentGeometry {
            bounding_box: self.bounding_box,
            points: vstd::slice::slice_to_vec(self.points.as_slice()),
        }
    }
}

/// The bounding box of the points of a vector.
fn bounding_box_of(points: &Vec<(i32, i32)>) -> (b: BoundingBox)
    ensures
        box_is(b, bounds_of(points@)),
{
    let mut west: i64 = i32::MAX as i64;
    let mut south: i64 = i32::MAX as i64;
    let mut east: i64 = i32::MIN as i64;
    let mut north: i64 = i32::MIN as i64;
    let mut k: usize = 0;
    while k < points.len()
        invariant
            k <= points@.len(),
            (west as int, south as int, east as int, north as int) == bounds_of(
                points@.take(k as int),
            ),
        decreases points@.len() - k,
    {
        let p = points[k];
        proof {
            assert(points@.take(k as int + 1).drop_last() =~= points@.take(k as int));
        }
        if (p.0 as i64) < west {
            west = p.0 as i64;
        }
        if (p.1 as i64) < south {
            south = p.1 as i64;
        }
        if (p.0 as i64) > east {
            east = p.0 as i64;
        }
        if (p.1 as i64) > north {
            north = p.1 as i64;
        }
        k = k + 1;
    }
    assert(points@.take(k as int) =~= points@);
    BoundingBox { sw: (west, south), ne: (east, north) }
}

impl SegmentGeometry {
    #[verifier::type_invariant]
    spec fn well_formed(&self) -> bool {
        &&& self.points@.len() > 0
        &&& box_is(self.bounding_box, bounds_of(self.points@))
    }

    /// Builds the geometry of a polyline. Fails exactly when there is no
    /// point, since then no bounding rectangle exists.
    pub fn new(coordinates: Vec<(i32, i32)>) -> (built: Result<SegmentGeometry, GeometryError>)
        ensures
            coordinates@.len() == 0 <==> built == Err::<SegmentGeometry, GeometryError>(
                GeometryError::NoBoundingBox,
            ),
            coordinates@.len() > 0 <==> built.is_ok(),
            built.is_ok() ==> built.unwrap()@ == coordinates@,
    {
        if coordinates.len() == 0 {
            return Err(GeometryError::NoBoundingBox);
        }
        let bounding_box = bounding_box_of(&coordinates);
        Ok(SegmentGeometry { bounding_box, points: coordinates })
    }

    /// The number of points, which is at least one.
    pub fn len(&self) -> (n: usize)
        ensures
            n == self@.len(),
            n > 0,
    {
        proof {
            use_type_invariant(self);
        }
        self.points.len()
    }

    /// The points, in order.
    pub fn coordinates(&self) -> (points: Vec<(i32, i32)>)
        ensures
            points@ == self@,
    {
        vstd::slice::slice_to_vec(self.points.as_slice())
    }

    /// The southwest and the northeast corner of the bounding box.
    pub fn sw_ne(&self) -> (corners: ((i64, i64), (i64, i64)))
        ensures
            (corners.0.0 as int, corners.0.1 as int, corners.1.0 as int, corners.1.1 as int)
                == bounds_of(self@),
    {
        proof {
            use_type_invariant(self);
        }
        (self.bounding_box.sw, self.bounding_box.ne)
    }

    /// The corners of the bounding box grown by `distance` on every side.
    /// The stored box is left as it is.
    pub fn padded_sw_ne(&self, distance: i32) -> (corners: ((i64, i64), (i64, i64)))
        ensures
            (corners.0.0 as int, corners.0.1 as int, corners.1.0 as int, corners.1.1 as int)
                == padded(bounds_of(self@), distance as int),
    {
        proof {
            use_type_invariant(self);
            lemma_bounds_tight(self@);
        }
        let grown = self.bounding_box.pad(distance as i64);
        (grown.sw, grown.ne)
    }

    /// Whether this polyline and `other` share a point. Touching at an end
    /// point counts.
    pub fn intersects(&self, other: &SegmentGeometry) -> (cross: bool)
        ensures
            cross == polylines_cross(self@, other@),
            common_vertex(self@, other@) ==> cross,
    {
        lines_cross(&self.points, &other.points)
    }

    /// The square of the length of the bounding box's diagonal. The length
    /// of a segment is the root of this number.
    pub fn length_squared(&self) -> (square: u128)
        ensures
            square == diagonal_squared(bounds_of(self@)),
    {
        proof {
            use_type_invariant(self);
            lemma_bounds_tight(self@);
        }
        let dx: u128 = (self.bounding_box.ne.0 - self.bounding_box.sw.0) as u128;
        let dy: u128 = (self.bounding_box.ne.1 - self.bounding_box.sw.1) as u128;
        assert(dx * dx <= 0x1_0000_0000 * 0x1_0000_0000 && dy * dy <= 0x1_0000_0000
            * 0x1_0000_0000) by (nonlinear_arith)
            requires
                dx <= 0x1_0000_0000,
                dy <= 0x1_0000_0000,
        ;
        dx * dx + dy * dy
    }
}

/// The square of the distance between the southwest and the northeast corner.
pub open spec fn diagonal_squared(corners: (int, int, int, int)) -> int {
    (corners.2 - corners.0) * (corners.2 - corners.0) + (corners.3 - corners.1) * (corners.3
        - corners.1)
}

/// The smallest rectangle that holds two rectangles.
pub open spec fn merged(a: (int, int, int, int), b: (int, int, int, int)) -> (int, int, int, int) {
    (min_int(a.0, b.0), min_int(a.1, b.1), max_int(a.2, b.2), max_int(a.3, b.3))
}

/// The bounding rectangle of two runs of points is the smallest rectangle
/// that holds the bounding rectangle of each.
pub proof fn lemma_bounds_concat(a: Seq<(i32, i32)>, b: Seq<(i32, i32)>)
    ensures
        bounds_of(a + b) == merged(bounds_of(a), bounds_of(b)),
    decreases b.len(),
{
    if b.len() == 0 {
        assert(a + b =~= a);
        if a.len() > 0 {
            lemma_bounds_tight(a);
        } else {
        }
    } else {
        lemma_bounds_concat(a, b.drop_last());
        assert((a + b).drop_last() =~= a + b.drop_last());
        assert((a + b).last() == b.last());
    }
}

/// The points of the rings of one polygon, ring after ring.
pub open spec fn ring_points(rings: Seq<Seq<(i32, i32)>>) -> Seq<(i32, i32)>
    decreases rings.len(),
{
    if rings.len() == 0 {
        Seq::empty()
    } else {
        ring_points(rings.drop_last()) + rings.last()
    }
}

/// The points of all polygons, polygon after polygon.
pub open spec fn all_points(polygons: Seq<Seq<Seq<(i32, i32)>>>) -> Seq<(i32, i32)>
    decreases polygons.len(),
{
    if polygons.len() == 0 {
        Seq::empty()
    } else {
        all_points(polygons.drop_last()) + ring_points(polygons.last())
    }
}

/// The points of a polygon are at least those of its first ring.
pub proof fn lemma_first_ring(rings: Seq<Seq<(i32, i32)>>)
    requires
        rings.len() > 0,
    ensures
        ring_points(rings).len() >= rings[0].len(),
    decreases rings.len(),
{
    if rings.len() > 1 {
        lemma_first_ring(rings.drop_last());
        assert(rings.drop_last()[0] == rings[0]);
    } else {
        assert(rings.last() == rings[0]);
    }
}

/// The points of polygons are at least those of the first ring of the first
/// polygon.
pub proof fn lemma_first_polygon(polygons: Seq<Seq<Seq<(i32, i32)>>>)
    requires
        polygons.len() > 0,
        polygons[0].len() > 0,
    ensures
        all_points(polygons).len() >= polygons[0][0].len(),
    decreases polygons.len(),
{
    if polygons.len() > 1 {
        lemma_first_polygon(polygons.drop_last());
        assert(polygons.drop_last()[0] == polygons[0]);
    } else {
        assert(polygons.last() == polygons[0]);
        lemma_first_ring(polygons[0]);
    }
}

/// The polygons of a nested vector as sequences of rings.
pub open spec fn polygon_views(polygons: Seq<Vec<Vec<(i32, i32)>>>) -> Seq<Seq<Seq<(i32, i32)>>> {
    polygons.map_values(|rings: Vec<Vec<(i32, i32)>>| rows(rings@))
}

/// Whether a polygon, given by its outer ring and then its inner rings, and
/// a polyline share at least one point, as the geometry kernel decides it.
pub uninterp spec fn polygon_crosses(rings: Seq<Seq<(i32, i32)>>, line: Seq<(i32, i32)>) -> bool;

/// `geo::Intersects::intersects` between a `geo::Polygon`, built by
/// `geo::Polygon::new` from the first ring as exterior and the others as
/// interiors, and a `geo::LineString`, all with `i128` coordinates. The
/// answer depends on the points alone.
#[verifier::external_body]
pub(crate) fn polygon_meets_line(rings: &Vec<Vec<(i32, i32)>>, line: &Vec<(i32, i32)>) -> (cross: bool)
    requires
        rings@.len() > 0,
    ensures
        cross == polygon_crosses(rows(rings@), line@),
{
    let mut strings = rings.iter().map(
        |ring| ring.iter().map(|p| (p.0 as i128, p.1 as i128)).collect::<geo::LineString<i128>>(),
    );
    let exterior = strings.next().unwrap();
    let polygon = geo::Polygon::new(exterior, strings.collect());
    let path: geo::LineString<i128> = line.iter().map(|p| (p.0 as i128, p.1 as i128)).collect();
    geo::Intersects::intersects(&polygon, &path)
}

/// Copies the rings of one polygon.
fn copy_rings(rings: &Vec<Vec<(i32, i32)>>) -> (copy: Vec<Vec<(i32, i32)>>)
    ensures
        rows(copy@) == rows(rings@),
{
    let mut copy: Vec<Vec<(i32, i32)>> = Vec::new();
    let mut k: usize = 0;
    while k < rings.len()
        invariant
            k <= rings@.len(),
            copy@.len() == k,
            forall|i: int| 0 <= i < k ==> (#[trigger] copy@[i])@ == rings@[i]@,
        decreases rings@.len() - k,
    {
        copy.push(vstd::slice::slice_to_vec(rings[k].as_slice()));
        k = k + 1;
    }
    assert(rows(copy@) =~= rows(rings@));
    copy
}

/// Copies a list of polygons.
fn copy_polygons(polygons: &Vec<Vec<Vec<(i32, i32)>>>) -> (copy: Vec<Vec<Vec<(i32, i32)>>>)
    ensures
        polygon_views(copy@) == polygon_views(polygons@),
{
    let mut copy: Vec<Vec<Vec<(i32, i32)>>> = Vec::new();
    let mut k: usize = 0;
    while k < polygons.len()
        invariant
            k <= polygons@.len(),
            copy@.len() == k,
            forall|i: int| 0 <= i < k ==> rows((#[trigger] copy@[i])@) == rows(polygons@[i]@),
        decreases polygons@.len() - k,
    {
        copy.push(copy_rings(&polygons[k]));
        k = k + 1;
    }
    assert(polygon_views(copy@) =~= polygon_views(polygons@));
    copy
}

/// Puts the points of all rings of one polygon behind `flat`.
fn append_rings(flat: &mut Vec<(i32, i32)>, rings: &Vec<Vec<(i32, i32)>>)
    ensures
        final(flat)@ == old(flat)@ + ring_points(rows(rings@)),
{
    let mut r: usize = 0;
    while r < rings.len()
        invariant
            r <= rings@.len(),
            flat@ == old(flat)@ + ring_points(rows(rings@).take(r as int)),
        decreases rings@.len() - r,
    {
        let ring = &rings[r];
        let ghost start = flat@;
        let mut k: usize = 0;
        while k < ring.len()
            invariant
                k <= ring@.len(),
                flat@ == start + ring@.take(k as int),
            decreases ring@.len() - k,
        {
            flat.push(ring[k]);
            k = k + 1;
            assert(flat@ =~= start + ring@.take(k as int));
        }
        proof {
            assert(ring@.take(k as int) =~= ring@);
            assert(rows(rings@).take(r as int + 1).drop_last() =~= rows(rings@).take(r as int));
            assert(rows(rings@).take(r as int + 1).last() == ring@);
            assert(flat@ =~= old(flat)@ + ring_points(rows(rings@).take(r as int + 1)));
        }
        r = r + 1;
    }
    assert(rows(rings@).take(r as int) =~= rows(rings@));
}

/// The polygons of one boundary with their bounding box. A polygon is its
/// outer ring followed by its inner rings.
#[derive(Debug)]
pub struct BoundaryGeometry {
    bounding_box: BoundingBox,
    multi_polygon: Vec<Vec<Vec<(i32, i32)>>>,
}

impl View for BoundaryGeometry {
    type V = Seq<Seq<Seq<(i32, i32)>>>;

    /// The polygons, each as its rings, each ring as its points.
    closed spec fn view(&self) -> Seq<Seq<Seq<(i32, i32)>>> {
        polygon_views(self.multi_polygon@)
    }
}

impl Clone for BoundaryGeometry {
    fn clone(&self) -> (copy: Self)
        ensures
            copy@ == self@,
    {
        proof {
            use_type_invariant(self);
        }
        BoundaryGeometry {
            bounding_box: self.bounding_box,
            multi_polygon: copy_polygons(&self.multi_polygon),
        }
    }
}

impl BoundaryGeometry {
    #[verifier::type_invariant]
    spec fn well_formed(&self) -> bool {
        &&& all_points(polygon_views(self.multi_polygon@)).len() > 0
        &&& box_is(self.bounding_box, bounds_of(all_points(polygon_views(self.multi_polygon@))))
    }

    /// Builds the geometry of a boundary from its polygons. Fails exactly
    /// when the polygons hold no point at all.
    pub fn new(multi_polygon: Vec<Vec<Vec<(i32, i32)>>>) -> (built: Result<
        BoundaryGeometry,
        GeometryError,
    >)
        ensures
            all_points(polygon_views(multi_polygon@)).len() == 0 <==> built == Err::<
                BoundaryGeometry,
                GeometryError,
            >(GeometryError::NoBoundingBox),
            all_points(polygon_views(multi_polygon@)).len() > 0 <==> built.is_ok(),
            built.is_ok() ==> built.unwrap()@ == polygon_views(multi_polygon@),
    {
        let mut flat: Vec<(i32, i32)> = Vec::new();
        let mut p: usize = 0;
        while p < multi_polygon.len()
            invariant
                p <= multi_polygon@.len(),
                flat@ == all_points(polygon_views(multi_polygon@).take(p as int)),
            decreases multi_polygon@.len() - p,
        {
            append_rings(&mut flat, &multi_polygon[p]);
            proof {
                let views = polygon_views(multi_polygon@);
                assert(views.take(p as int + 1).drop_last() =~= views.take(p as int));
                assert(views.take(p as int + 1).last() == rows(multi_polygon@[p as int]@));
            }
            p = p + 1;
        }
        assert(polygon_views(multi_polygon@).take(p as int) =~= polygon_views(multi_polygon@));
        if flat.len() == 0 {
            return Err(GeometryError::NoBoundingBox);
        }
        let bounding_box = bounding_box_of(&flat);
        Ok(BoundaryGeometry { bounding_box, multi_polygon })
    }

    /// The polygons, each as its rings, each ring as its points.
    pub fn coordinates(&self) -> (polygons: Vec<Vec<Vec<(i32, i32)>>>)
        ensures
            polygon_views(polygons@) == self@,
    {
        copy_polygons(&self.multi_polygon)
    }

    /// The southwest and the northeast corner of the bounding box of all
    /// points.
    pub fn sw_ne(&self) -> (corners: ((i64, i64), (i64, i64)))
        ensures
            (corners.0.0 as int, corners.0.1 as int, corners.1.0 as int, corners.1.1 as int)
                == bounds_of(all_points(self@)),
    {
        proof {
            use_type_invariant(self);
        }
        (self.bounding_box.sw, self.bounding_box.ne)
    }

    /// Whether one of the polygons and the polyline share a point. A polygon
    /// without rings shares none.
    pub fn intersects(&self, geometry: &SegmentGeometry) -> (cross: bool)
        ensures
            cross <==> exists|p: int|
                0 <= p < self@.len() && (#[trigger] self@[p]).len() > 0 && polygon_crosses(
                    self@[p],
                    geometry@,
                ),
    {
        let mut p: usize = 0;
        while p < self.multi_polygon.len()
            invariant
                p <= self.multi_polygon@.len(),
                forall|q: int|
                    0 <= q < p ==> !((#[trigger] self@[q]).len() > 0 && polygon_crosses(
                        self@[q],
                        geometry@,
                    )),
            decreases self.multi_polygon@.len() - p,
        {
            assert(self@[p as int] == rows(self.multi_polygon@[p as int]@));
            if self.multi_polygon[p].len() > 0 {
                if polygon_meets_line(&self.multi_polygon[p], &geometry.points) {
                    return true;
                }
            }
            p = p + 1;
        }
        false
    }
}

} // verus!

//! The spatial index of administrative boundaries.

use crate::chainable::{merge_spec, rows, Chainable};
use crate::geo::{
    all_points, boxes_meet, is_box, lemma_bounds_are_box, lemma_first_polygon,
    lemma_meeting_boxes, polygon_crosses, polygon_meets_line, polygon_views, BoundaryGeometry,
    BoundingBox,
};
use crate::items::{boundary_views, AdminBoundary, AdminBoundaryView};
use crate::osm::{find, tag_value, GeoObject, ObjectMap, OsmId, Ref, Relation};
use crate::resolve::{get_coordinates, way_points};
use crate::spatial::{load_boxes, locate_meeting, tree_boxes, BoxTree};
use vstd::prelude::*;

verus! {

/// Boundaries in a spatial index, each under its bounding box. Built once,
/// then only queried.
pub struct BoundaryTree {
    boundaries: Vec<AdminBoundary>,
    tree: BoxTree,
}

impl View for BoundaryTree {
    type V = Seq<AdminBoundaryView>;

    /// The boundaries held, in the order in which they were given.
    closed spec fn view(&self) -> Seq<AdminBoundaryView> {
        boundary_views(self.boundaries@)
    }
}

/// The bounding boxes of the boundaries, in their order.
pub open spec fn boundary_boxes(boundaries: Seq<AdminBoundaryView>) -> Seq<(int, int, int, int)> {
    boundaries.map_values(|b: AdminBoundaryView| b.bounds())
}

impl BoundaryTree {
    #[verifier::type_invariant]
    spec fn well_formed(&self) -> bool {
        tree_boxes(self.tree) == boundary_boxes(boundary_views(self.boundaries@))
    }

    /// Builds the index of the given boundaries.
    pub fn bulk_load(boundaries: Vec<AdminBoundary>) -> (built: BoundaryTree)
        ensures
            built@ == boundary_views(boundaries@),
    {
        let mut boxes: Vec<BoundingBox> = Vec::new();
        let mut k: usize = 0;
        while k < boundaries.len()
            invariant
                k <= boundaries@.len(),
                boxes@.len() == k,
                forall|i: int| 0 <= i < k ==> (#[trigger] boxes@[i]).corners() == boundaries@[i]@.bounds(),
            decreases boundaries@.len() - k,
        {
            boxes.push(boundaries[k].envelope());
            k = k + 1;
        }
        let tree = load_boxes(&boxes);
        assert(tree_boxes(tree) =~= boundary_boxes(boundary_views(boundaries@)));
        BoundaryTree { boundaries, tree }
    }

    /// The number of boundaries held.
    pub fn size(&self) -> (n: usize)
        ensures
            n == self@.len(),
    {
        self.boundaries.len()
    }

    /// The boundary at place `at`.
    pub fn get(&self, at: usize) -> (boundary: &AdminBoundary)
        requires
            at < self@.len(),
        ensures
            boundary@ == self@[at as int],
    {
        &self.boundaries[at]
    }

    /// The places of the boundaries whose bounding box shares a point with
    /// the query box: each such place once, and no other. A box that lies
    /// within the query box is found; one apart from it is not.
    pub fn locate_in_envelope_intersecting(&self, query: &BoundingBox) -> (found: Vec<usize>)
        ensures
            found@.no_duplicates(),
            forall|at: usize|
                found@.contains(at) <==> (at < self@.len() && boxes_meet(
                    self@[at as int].bounds(),
                    query.corners(),
                )),
    {
        proof {
            use_type_invariant(self);
        }
        locate_meeting(&self.tree, query)
    }
}

/// A boundary with at least one point is matched by every query box that
/// holds its bounding box, and by none that lies wholly to one side of it.
/// So the index hands out a boundary for a box around it, and not for a box
/// apart from it.
pub proof fn lemma_boundary_found(boundary: AdminBoundaryView, query: (int, int, int, int))
    requires
        all_points(boundary.polygons).len() > 0,
        is_box(query),
    ensures
        query.0 <= boundary.bounds().0 && query.1 <= boundary.bounds().1 && boundary.bounds().2
            <= query.2 && boundary.bounds().3 <= query.3 ==> boxes_meet(boundary.bounds(), query),
        query.2 < boundary.bounds().0 || boundary.bounds().2 < query.0 || query.3
            < boundary.bounds().1 || boundary.bounds().3 < query.1 ==> !boxes_meet(
            boundary.bounds(),
            query,
        ),
{
    lemma_bounds_are_box(all_points(boundary.polygons));
    lemma_meeting_boxes(boundary.bounds(), query);
}

/// The value of a run of decimal digits; none where a character is no
/// digit from `0` to `9`.
pub open spec fn digits_value(digits: Seq<char>) -> Option<int>
    decreases digits.len(),
{
    if digits.len() == 0 {
        Some(0)
    } else {
        match digits_value(digits.drop_last()) {
            Some(value) => if '0' <= digits.last() <= '9' {
                Some(10 * value + (digits.last() as int - '0' as int))
            } else {
                None
            },
            None => None,
        }
    }
}

/// The administrative level that a text stands for: the text must be
/// decimal digits, at least one, with or without a `+` in front, and the
/// number must be 255 at most.
pub open spec fn parsed_level(text: Seq<char>) -> Option<u8> {
    let digits = if text.len() > 0 && text[0] == '+' {
        text.subrange(1, text.len() as int)
    } else {
        text
    };
    if digits.len() == 0 {
        None
    } else {
        match digits_value(digits) {
            Some(value) => if value <= 255 {
                Some(value as u8)
            } else {
                None
            },
            None => None,
        }
    }
}

/// `str::parse` to a `u8`, with the error dropped. The standard library
/// reads an optional `+` and then decimal digits, and fails on the empty
/// text, on any other character and on a number above 255.
#[verifier::external_body]
fn parse_level(text: &str) -> (level: Option<u8>)
    ensures
        level == parsed_level(text@),
{
    text.parse::<u8>().ok()
}

/// Whether two texts are the same.
fn same_text(a: &str, b: &str) -> (same: bool)
    ensures
        same == (a@ == b@),
{
    let first = a.to_owned();
    let second = b.to_owned();
    first == second
}

/// Whether a member with this role belongs to the outline of a boundary.
pub open spec fn is_outer_role(role: Seq<char>) -> bool {
    role == "outer"@ || role == "enclave"@ || role == ""@
}

/// Whether a member with this role belongs to a hole of a boundary.
pub open spec fn is_inner_role(role: Seq<char>) -> bool {
    role == "inner"@
}

/// The polyline that a member of a boundary relation adds to its outline,
/// or to its holes where `inner` is set: the points of a way of that role
/// which the map holds, unless the map holds none of its nodes.
pub open spec fn member_line(objects: Seq<GeoObject>, member: Ref, inner: bool) -> Option<
    Seq<(i32, i32)>,
> {
    match member.member {
        OsmId::Way(id) => if (inner && is_inner_role(member.role@)) || (!inner && is_outer_role(
            member.role@,
        )) {
            match find(objects, OsmId::Way(id)) {
                Some(at) => match objects[at] {
                    GeoObject::Way(way) => if way_points(objects, way.nodes@).len() > 0 {
                        Some(way_points(objects, way.nodes@))
                    } else {
                        None
                    },
                    _ => None,
                },
                None => None,
            }
        } else {
            None
        },
        _ => None,
    }
}

/// The polylines of the outline of a relation, or of its holes, in the
/// order of its members.
pub open spec fn role_lines(objects: Seq<GeoObject>, refs: Seq<Ref>, inner: bool) -> Seq<
    Seq<(i32, i32)>,
>
    decreases refs.len(),
{
    if refs.len() == 0 {
        Seq::empty()
    } else {
        let rest = role_lines(objects, refs.drop_last(), inner);
        match member_line(objects, refs.last(), inner) {
            Some(line) => rest.push(line),
            None => rest,
        }
    }
}

/// Whether a polyline is a ring: it ends where it starts and has at least
/// four points.
pub open spec fn is_ring(line: Seq<(i32, i32)>) -> bool {
    line.len() >= 4 && line.first() == line.last()
}

/// The rings that polylines close to: the polylines are merged into chains,
/// and each chain must be a ring. There are none where there is no chain or
/// where a chain is no ring.
pub open spec fn closed_rings(lines: Seq<Seq<(i32, i32)>>) -> Option<Seq<Seq<(i32, i32)>>> {
    let rings = merge_spec(lines);
    if rings.len() > 0 && (forall|r: int| 0 <= r < rings.len() ==> is_ring(#[trigger] rings[r])) {
        Some(rings)
    } else {
        None
    }
}

/// Whether a ring fits into a polygon as a hole: each of its sides shares a
/// point with the polygon.
pub open spec fn fits(polygon: Seq<Seq<(i32, i32)>>, ring: Seq<(i32, i32)>) -> bool {
    forall|k: int|
        0 <= k < ring.len() - 1 ==> polygon_crosses(polygon, seq![#[trigger] ring[k], ring[k + 1]])
}

/// The place of the first polygon that the ring fits into.
pub open spec fn first_fit(polygons: Seq<Seq<Seq<(i32, i32)>>>, ring: Seq<(i32, i32)>) -> Option<int>
    decreases polygons.len(),
{
    if polygons.len() == 0 {
        None
    } else {
        match first_fit(polygons.drop_last(), ring) {
            Some(at) => Some(at),
            None => if fits(polygons.last(), ring) {
                Some(polygons.len() - 1)
            } else {
                None
            },
        }
    }
}

/// The polygons after a hole was added: it goes to the first polygon it
/// fits into, behind the rings that polygon has; a hole that fits nowhere is
/// left out.
pub open spec fn with_hole(polygons: Seq<Seq<Seq<(i32, i32)>>>, ring: Seq<(i32, i32)>) -> Seq<
    Seq<Seq<(i32, i32)>>,
> {
    match first_fit(polygons, ring) {
        Some(at) => polygons.update(at, polygons[at].push(ring)),
        None => polygons,
    }
}

/// The polygons after the holes were added, one after the other.
pub open spec fn with_holes(polygons: Seq<Seq<Seq<(i32, i32)>>>, holes: Seq<Seq<(i32, i32)>>) -> Seq<
    Seq<Seq<(i32, i32)>>,
>
    decreases holes.len(),
{
    if holes.len() == 0 {
        polygons
    } else {
        with_hole(with_holes(polygons, holes.drop_last()), holes.last())
    }
}

/// The polygons of a relation. The polylines of its outline must close to
/// rings; each ring is the outer ring of one polygon. Where the polylines
/// of its holes close to rings as well, each of them is added to the first
/// polygon it fits into.
pub open spec fn assembled(objects: Seq<GeoObject>, refs: Seq<Ref>) -> Option<Seq<Seq<Seq<(i32, i32)>>>> {
    match closed_rings(role_lines(objects, refs, false)) {
        Some(rings) => {
            let polygons = rings.map_values(|ring: Seq<(i32, i32)>| seq![ring]);
            match closed_rings(role_lines(objects, refs, true)) {
                Some(holes) => Some(with_holes(polygons, holes)),
                None => Some(polygons),
            }
        },
        None => None,
    }
}

/// The boundary that a relation gives: it must be tagged
/// `boundary=administrative`, have a `name` and an `admin_level` that is a
/// number, and its outline must close.
pub open spec fn boundary_of(objects: Seq<GeoObject>, relation: Relation) -> Option<AdminBoundaryView> {
    if tag_value(relation.tags@, "boundary"@) == Some("administrative"@) {
        match (
            tag_value(relation.tags@, "name"@),
            tag_value(relation.tags@, "admin_level"@),
            assembled(objects, relation.refs@),
        ) {
            (Some(name), Some(level), Some(polygons)) => match parsed_level(level) {
                Some(admin_level) => Some(AdminBoundaryView { name, admin_level, polygons }),
                None => None,
            },
            _ => None,
        }
    } else {
        None
    }
}

/// The boundaries that the relations among the objects give, in the order
/// of the objects.
pub open spec fn boundaries_of(objects: Seq<GeoObject>, upto: int) -> Seq<AdminBoundaryView>
    decreases upto,
{
    if upto <= 0 || upto > objects.len() {
        Seq::empty()
    } else {
        let rest = boundaries_of(objects, upto - 1);
        match objects[upto - 1] {
            GeoObject::Relation(relation) => match boundary_of(objects, relation) {
                Some(boundary) => rest.push(boundary),
                None => rest,
            },
            _ => rest,
        }
    }
}

/// The polylines of the outline of a relation, or of its holes.
fn get_role_lines(relation: &Relation, objs: &ObjectMap, inner: bool) -> (lines: Vec<Vec<(i32, i32)>>)
    ensures
        rows(lines@) == role_lines(objs@, relation.refs@, inner),
{
    let mut lines: Vec<Vec<(i32, i32)>> = Vec::new();
    let mut k: usize = 0;
    while k < relation.refs.len()
        invariant
            k <= relation.refs@.len(),
            rows(lines@) == role_lines(objs@, relation.refs@.take(k as int), inner),
        decreases relation.refs@.len() - k,
    {
        proof {
            assert(relation.refs@.take(k as int + 1).drop_last() =~= relation.refs@.take(k as int));
            assert(relation.refs@.take(k as int + 1).last() == relation.refs@[k as int]);
        }
        let member = &relation.refs[k];
        let ghost before = rows(lines@);
        match member.member {
            OsmId::Way(id) => {
                let role = member.role.as_str();
                let wanted = if inner {
                    same_text(role, "inner")
                } else {
                    same_text(role, "outer") || same_text(role, "enclave") || same_text(role, "")
                };
                if wanted {
                    match objs.get(OsmId::Way(id)) {
                        Some(object) => match object {
                            GeoObject::Way(way) => match get_coordinates(way, objs) {
                                Some(points) => {
                                    if points.len() > 0 {
                                        lines.push(points);
                                        assert(rows(lines@) =~= before.push(points@));
                                    }
                                },
                                None => {},
                            },
                            _ => {},
                        },
                        None => {},
                    }
                }
            },
            _ => {},
        }
        k = k + 1;
    }
    assert(relation.refs@.take(k as int) =~= relation.refs@);
    lines
}

/// Merges polylines into chains and tests that each chain is a ring.
fn close_rings(lines: Vec<Vec<(i32, i32)>>) -> (closed: Option<Vec<Vec<(i32, i32)>>>)
    ensures
        match closed {
            Some(rings) => closed_rings(rows(lines@)) == Some(rows(rings@)),
            None => closed_rings(rows(lines@)).is_none(),
        },
{
    let mut rings = lines;
    rings.merge();
    let ghost merged = rows(rings@);
    assert(merged == merge_spec(rows(lines@)));
    if rings.len() == 0 {
        return None;
    }
    let mut r: usize = 0;
    while r < rings.len()
        invariant
            r <= rings@.len(),
            merged == rows(rings@),
            merged == merge_spec(rows(lines@)),
            forall|q: int| 0 <= q < r ==> is_ring(#[trigger] merged[q]),
        decreases rings@.len() - r,
    {
        let ring = &rings[r];
        assert(merged[r as int] == ring@);
        if ring.len() < 4 {
            assert(!is_ring(merged[r as int]));
            return None;
        }
        let first = ring[0];
        let last = ring[ring.len() - 1];
        if first.0 != last.0 || first.1 != last.1 {
            assert(!is_ring(merged[r as int]));
            return None;
        }
        r = r + 1;
    }
    Some(rings)
}

/// Whether each side of the ring shares a point with the polygon.
fn ring_fits(polygon: &Vec<Vec<(i32, i32)>>, ring: &Vec<(i32, i32)>) -> (fit: bool)
    requires
        polygon@.len() > 0,
    ensures
        fit == fits(rows(polygon@), ring@),
{
    let n: usize = ring.len();
    if n < 2 {
        return true;
    }
    let mut k: usize = 0;
    while k < n - 1
        invariant
            polygon@.len() > 0,
            n == ring@.len(),
            n >= 2,
            k <= n - 1,
            forall|j: int|
                0 <= j < k ==> polygon_crosses(
                    rows(polygon@),
                    seq![#[trigger] ring@[j], ring@[j + 1]],
                ),
        decreases n - k,
    {
        let mut side: Vec<(i32, i32)> = Vec::new();
        side.push(ring[k]);
        side.push(ring[k + 1]);
        assert(side@ =~= seq![ring@[k as int], ring@[k + 1]]);
        if !polygon_meets_line(polygon, &side) {
            return false;
        }
        k = k + 1;
    }
    true
}

proof fn lemma_first_fit(polygons: Seq<Seq<Seq<(i32, i32)>>>, ring: Seq<(i32, i32)>)
    ensures
        match first_fit(polygons, ring) {
            Some(at) => 0 <= at < polygons.len() && fits(polygons[at], ring) && forall|j: int|
                0 <= j < at ==> !fits(#[trigger] polygons[j], ring),
            None => forall|j: int| 0 <= j < polygons.len() ==> !fits(#[trigger] polygons[j], ring),
        },
    decreases polygons.len(),
{
    if polygons.len() > 0 {
        lemma_first_fit(polygons.drop_last(), ring);
        assert(forall|j: int| 0 <= j < polygons.len() - 1 ==> polygons.drop_last()[j] == polygons[j]);
    }
}

/// Adds each hole to the first polygon it fits into.
fn add_holes(polygons: &mut Vec<Vec<Vec<(i32, i32)>>>, holes: &Vec<Vec<(i32, i32)>>)
    requires
        forall|p: int| 0 <= p < old(polygons)@.len() ==> (#[trigger] old(polygons)@[p])@.len() > 0,
    ensures
        polygon_views(final(polygons)@) == with_holes(polygon_views(old(polygons)@), rows(holes@)),
        final(polygons)@.len() == old(polygons)@.len(),
        forall|p: int|
            0 <= p < old(polygons)@.len() ==> (#[trigger] final(polygons)@[p])@.len() > 0
                && final(polygons)@[p]@[0]@ == old(polygons)@[p]@[0]@,
{
    let ghost start = polygon_views(polygons@);
    let mut h: usize = 0;
    while h < holes.len()
        invariant
            h <= holes@.len(),
            polygons@.len() == old(polygons)@.len(),
            forall|p: int|
                0 <= p < polygons@.len() ==> (#[trigger] polygons@[p])@.len() > 0
                    && polygons@[p]@[0]@ == old(polygons)@[p]@[0]@,
            polygon_views(polygons@) == with_holes(start, rows(holes@).take(h as int)),
        decreases holes@.len() - h,
    {
        let hole = &holes[h];
        let ghost before = polygon_views(polygons@);
        proof {
            assert(rows(holes@).take(h as int + 1).drop_last() =~= rows(holes@).take(h as int));
            assert(rows(holes@).take(h as int + 1).last() == hole@);
        }
        let mut found: Option<usize> = None;
        let mut i: usize = 0;
        while i < polygons.len() && found.is_none()
            invariant
                i <= polygons@.len(),
                before == polygon_views(polygons@),
                forall|p: int| 0 <= p < polygons@.len() ==> (#[trigger] polygons@[p])@.len() > 0,
                match found {
                    Some(at) => at < polygons@.len() && fits(before[at as int], hole@) && forall|
                        j: int,
                    |
                        0 <= j < at ==> !fits(#[trigger] before[j], hole@),
                    None => forall|j: int| 0 <= j < i ==> !fits(#[trigger] before[j], hole@),
                },
            decreases polygons@.len() - i + if found.is_none() { 1int } else { 0int },
        {
            assert(before[i as int] == rows(polygons@[i as int]@));
            if ring_fits(&polygons[i], hole) {
                found = Some(i);
            } else {
                i = i + 1;
            }
        }
        proof {
            lemma_first_fit(before, hole@);
        }
        match found {
            Some(at) => {
                let ghost held = polygons@;
                let copy = vstd::slice::slice_to_vec(hole.as_slice());
                polygons[at].push(copy);
                proof {
                    assert(before[at as int] == rows(held[at as int]@));
                    assert(polygons@[at as int]@ == held[at as int]@.push(copy));
                    assert(rows(polygons@[at as int]@) =~= before[at as int].push(hole@));
                    assert forall|p: int| 0 <= p < polygons@.len() implies polygon_views(
                        polygons@,
                    )[p] == before.update(at as int, before[at as int].push(hole@))[p] by {
                        if p != at {
                            assert(polygons@[p] == held[p]);
                        }
                    }
                    assert(polygon_views(polygons@) =~= before.update(
                        at as int,
                        before[at as int].push(hole@),
                    ));
                }
            },
            None => {},
        }
        h = h + 1;
    }
    assert(rows(holes@).take(h as int) =~= rows(holes@));
}

/// Builds the polygons of a boundary relation from its member ways.
pub fn build_boundary(relation: &Relation, objs: &ObjectMap) -> (built: Option<Vec<Vec<Vec<(i32, i32)>>>>)
    ensures
        match built {
            Some(polygons) => assembled(objs@, relation.refs@) == Some(polygon_views(polygons@))
                && all_points(polygon_views(polygons@)).len() > 0,
            None => assembled(objs@, relation.refs@).is_none(),
        },
{
    let rings = match close_rings(get_role_lines(relation, objs, false)) {
        Some(rings) => rings,
        None => {
            return None;
        },
    };
    let ghost outer = rows(rings@);
    let mut polygons: Vec<Vec<Vec<(i32, i32)>>> = Vec::new();
    let mut r: usize = 0;
    while r < rings.len()
        invariant
            r <= rings@.len(),
            outer == rows(rings@),
            polygons@.len() == r,
            forall|q: int| 0 <= q < r ==> rows((#[trigger] polygons@[q])@) == seq![outer[q]],
        decreases rings@.len() - r,
    {
        let mut polygon: Vec<Vec<(i32, i32)>> = Vec::new();
        polygon.push(vstd::slice::slice_to_vec(rings[r].as_slice()));
        assert(rows(polygon@) =~= seq![outer[r as int]]);
        polygons.push(polygon);
        r = r + 1;
    }
    assert(polygon_views(polygons@) =~= outer.map_values(|ring: Seq<(i32, i32)>| seq![ring]));
    proof {
        assert forall|p: int| 0 <= p < polygons@.len() implies (#[trigger] polygons@[p])@.len()
            > 0 && polygons@[p]@[0]@ == outer[p] by {
            assert(rows(polygons@[p]@) == seq![outer[p]]);
            assert(rows(polygons@[p]@)[0] == polygons@[p]@[0]@);
        }
        assert(is_ring(outer[0]));
    }
    match close_rings(get_role_lines(relation, objs, true)) {
        Some(holes) => {
            add_holes(&mut polygons, &holes);
        },
        None => {},
    }
    proof {
        let views = polygon_views(polygons@);
        assert(views[0] == rows(polygons@[0]@));
        assert(views[0][0] == polygons@[0]@[0]@);
        lemma_first_polygon(views);
    }
    Some(polygons)
}

/// The boundary that a relation gives, if it gives one.
fn get_boundary(relation: &Relation, objs: &ObjectMap) -> (boundary: Option<AdminBoundary>)
    ensures
        match boundary {
            Some(b) => boundary_of(objs@, *relation) == Some(b@),
            None => boundary_of(objs@, *relation).is_none(),
        },
{
    if !relation.tags.contains("boundary", "administrative") {
        return None;
    }
    let name = match relation.tags.get("name") {
        Some(name) => name.clone(),
        None => {
            return None;
        },
    };
    let admin_level = match relation.tags.get("admin_level") {
        Some(level) => match parse_level(level.as_str()) {
            Some(admin_level) => admin_level,
            None => {
                return None;
            },
        },
        None => {
            return None;
        },
    };
    let polygons = match build_boundary(relation, objs) {
        Some(polygons) => polygons,
        None => {
            return None;
        },
    };
    match BoundaryGeometry::new(polygons) {
        Ok(geometry) => Some(AdminBoundary { name, admin_level, geometry }),
        Err(e) => None,
    }
}

/// The administrative boundaries of the map: one for each relation that is
/// tagged `boundary=administrative`, has a `name` and a numeric
/// `admin_level`, and whose member ways close to rings. The other relations
/// are passed over.
pub fn get_boundaries(objs: &ObjectMap) -> (boundaries: Vec<AdminBoundary>)
    ensures
        boundary_views(boundaries@) == boundaries_of(objs@, objs@.len() as int),
{
    let mut boundaries: Vec<AdminBoundary> = Vec::new();
    let mut k: usize = 0;
    while k < objs.len()
        invariant
            k <= objs@.len(),
            boundary_views(boundaries@) == boundaries_of(objs@, k as int),
        decreases objs@.len() - k,
    {
        let ghost before = boundary_views(boundaries@);
        match objs.at(k) {
            GeoObject::Relation(relation) => match get_boundary(relation, objs) {
                Some(boundary) => {
                    boundaries.push(boundary);
                    assert(boundary_views(boundaries@) =~= before.push(boundary@));
                },
                None => {},
            },
            _ => {},
        }
        k = k + 1;
    }
    boundaries
}

} // verus!

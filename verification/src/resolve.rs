//! The coordinates of ways and relations, resolved through the object map.

use crate::osm::{find, GeoObject, ObjectMap, OsmId, Ref, Relation, Way};
use vstd::prelude::*;

verus! {

/// The positions of the nodes of a way, as `(lon, lat)`, in the way's
/// order. A node that the objects do not hold is left out.
pub open spec fn way_points(objects: Seq<GeoObject>, nodes: Seq<i64>) -> Seq<(i32, i32)>
    decreases nodes.len(),
{
    if nodes.len() == 0 {
        Seq::empty()
    } else {
        let rest = way_points(objects, nodes.drop_last());
        match find(objects, OsmId::Node(nodes.last())) {
            Some(at) => match objects[at] {
                GeoObject::Node(node) => rest.push((node.decimicro_lon, node.decimicro_lat)),
                _ => rest,
            },
            None => rest,
        }
    }
}

/// The coordinates of a way: the positions of those of its nodes that the
/// map holds.
pub fn get_coordinates(way: &Way, objs: &ObjectMap) -> (coordinates: Option<Vec<(i32, i32)>>)
    ensures
        coordinates.is_some(),
        coordinates.unwrap()@ == way_points(objs@, way.nodes@),
{
    let mut coordinates: Vec<(i32, i32)> = Vec::new();
    let mut k: usize = 0;
    while k < way.nodes.len()
        invariant
            k <= way.nodes@.len(),
            coordinates@ == way_points(objs@, way.nodes@.take(k as int)),
        decreases way.nodes@.len() - k,
    {
        proof {
            assert(way.nodes@.take(k as int + 1).drop_last() =~= way.nodes@.take(k as int));
        }
        match objs.get(OsmId::Node(way.nodes[k])) {
            Some(object) => match object {
                GeoObject::Node(node) => {
                    coordinates.push((node.decimicro_lon, node.decimicro_lat));
                },
                _ => {},
            },
            None => {},
        }
        k = k + 1;
    }
    assert(way.nodes@.take(k as int) =~= way.nodes@);
    Some(coordinates)
}

/// The convex hull of the points as a ring, as the geometry kernel gives
/// it.
pub uninterp spec fn hull_of(points: Seq<(i32, i32)>) -> Seq<(i32, i32)>;

/// `geo::ConvexHull::convex_hull` of a `geo::MultiPoint` of the points with
/// `i128` coordinates, handed out as the points of the hull's exterior
/// ring. The points of the ring are among the given ones, so they fit; the
/// ring depends on the points alone.
#[verifier::external_body]
fn convex_hull(coordinates: &Vec<(i32, i32)>) -> (ring: Vec<(i32, i32)>)
    ensures
        ring@ == hull_of(coordinates@),
{
    let multi_points: geo::MultiPoint<i128> = coordinates.iter().map(
        |p| (p.0 as i128, p.1 as i128),
    ).collect();
    let hull = geo::ConvexHull::convex_hull(&multi_points);
    hull.exterior().points().map(|p| (p.x() as i32, p.y() as i32)).collect()
}

/// Whether `a` comes before `b`: by longitude, then by latitude.
pub open spec fn precedes(a: (i32, i32), b: (i32, i32)) -> bool {
    a.0 < b.0 || (a.0 == b.0 && a.1 < b.1)
}

/// The place of the first least point.
pub open spec fn least_index(ring: Seq<(i32, i32)>) -> int
    decreases ring.len(),
{
    if ring.len() <= 1 {
        0
    } else {
        let k = least_index(ring.drop_last());
        if precedes(ring.last(), ring[k]) {
            ring.len() - 1
        } else {
            k
        }
    }
}

/// The points with the first one repeated at the end, unless they end with
/// it already.
pub open spec fn closed(points: Seq<(i32, i32)>) -> Seq<(i32, i32)> {
    if points.len() > 0 && points.first() != points.last() {
        points.push(points.first())
    } else {
        points
    }
}

/// The ring without its closing point.
pub open spec fn opened(ring: Seq<(i32, i32)>) -> Seq<(i32, i32)> {
    if ring.len() >= 2 && ring.first() == ring.last() {
        ring.drop_last()
    } else {
        ring
    }
}

/// The ring turned so that it starts and ends at its least point, in the
/// same sense.
pub open spec fn from_least(ring: Seq<(i32, i32)>) -> Seq<(i32, i32)> {
    let open = opened(ring);
    if open.len() == 0 {
        open
    } else {
        let k = least_index(open);
        (open.subrange(k, open.len() as int) + open.subrange(0, k)).push(open[k])
    }
}

/// The ring that stands for a set of points: fewer than four points are
/// closed as they stand; of four and more it is the convex hull, starting
/// and ending at its least point.
pub open spec fn compound(points: Seq<(i32, i32)>) -> Seq<(i32, i32)> {
    if points.len() < 4 {
        closed(points)
    } else {
        from_least(hull_of(points))
    }
}

/// Turns a ring so that it starts and ends at its least point.
fn turn_from_least(ring: &Vec<(i32, i32)>) -> (turned: Vec<(i32, i32)>)
    ensures
        turned@ == from_least(ring@),
{
    let mut n: usize = ring.len();
    if n >= 2 {
        let first = ring[0];
        let last = ring[n - 1];
        if first.0 == last.0 && first.1 == last.1 {
            n = n - 1;
        }
    }
    let ghost open = opened(ring@);
    assert(open =~= ring@.take(n as int));
    let mut turned: Vec<(i32, i32)> = Vec::new();
    if n == 0 {
        assert(turned@ =~= open);
        return turned;
    }
    let mut best: usize = 0;
    let mut k: usize = 1;
    while k < n
        invariant
            1 <= k <= n,
            n <= ring@.len(),
            open == ring@.take(n as int),
            best < k,
            best == least_index(open.take(k as int)),
        decreases n - k,
    {
        proof {
            assert(open.take(k as int + 1).drop_last() =~= open.take(k as int));
        }
        let here = ring[k];
        let least = ring[best];
        if here.0 < least.0 || (here.0 == least.0 && here.1 < least.1) {
            best = k;
        }
        k = k + 1;
    }
    assert(open.take(n as int) =~= open);
    let mut i: usize = best;
    while i < n
        invariant
            best <= i <= n,
            n <= ring@.len(),
            open == ring@.take(n as int),
            turned@ == open.subrange(best as int, i as int),
        decreases n - i,
    {
        turned.push(ring[i]);
        i = i + 1;
        assert(turned@ =~= open.subrange(best as int, i as int));
    }
    let mut j: usize = 0;
    while j < best
        invariant
            j <= best < n,
            n <= ring@.len(),
            open == ring@.take(n as int),
            turned@ == open.subrange(best as int, n as int) + open.subrange(0, j as int),
        decreases best - j,
    {
        turned.push(ring[j]);
        j = j + 1;
        assert(turned@ =~= open.subrange(best as int, n as int) + open.subrange(0, j as int));
    }
    turned.push(ring[best]);
    turned
}

/// The shape that stands for a set of points: their convex hull as a ring.
/// Fewer than four points are their own hull and are closed as they stand;
/// the hull of four and more starts and ends at its least point.
pub fn get_compound_coordinates(coordinates: Vec<(i32, i32)>) -> (ring: Vec<(i32, i32)>)
    ensures
        ring@ == compound(coordinates@),
{
    let n: usize = coordinates.len();
    if n < 4 {
        let mut ring = coordinates;
        if n > 0 {
            let first = ring[0];
            let last = ring[n - 1];
            if first.0 != last.0 || first.1 != last.1 {
                ring.push(first);
            }
        }
        ring
    } else {
        let hull = convex_hull(&coordinates);
        turn_from_least(&hull)
    }
}

/// The coordinates of a relation and the relations visited after it was
/// resolved. A relation that was visited before gives no points: this cuts
/// cycles. Else the points of its members, in their order, are gathered: a
/// node gives its position, a way the positions of its nodes, a relation its
/// own coordinates; a member that the objects do not hold gives nothing.
/// The relation's coordinates are the hull of the points gathered. `depth`
/// bounds the nesting: at depth zero there are no points.
pub open spec fn resolve_relation(
    objects: Seq<GeoObject>,
    relation: Relation,
    visited: Seq<i64>,
    depth: nat,
) -> (Seq<(i32, i32)>, Seq<i64>)
    decreases depth, 0nat, 0nat,
{
    if depth == 0 || visited.contains(relation.id) {
        (Seq::empty(), visited)
    } else {
        let (points, seen) = resolve_members(
            objects,
            relation.refs@,
            relation.refs@.len(),
            visited.push(relation.id),
            (depth - 1) as nat,
        );
        (compound(points), seen)
    }
}

/// The points of the first `upto` members, and the relations visited after
/// they were resolved.
pub open spec fn resolve_members(
    objects: Seq<GeoObject>,
    refs: Seq<Ref>,
    upto: nat,
    visited: Seq<i64>,
    depth: nat,
) -> (Seq<(i32, i32)>, Seq<i64>)
    decreases depth, 1nat, upto,
{
    if upto == 0 || upto > refs.len() {
        (Seq::empty(), visited)
    } else {
        let (points, seen) = resolve_members(objects, refs, (upto - 1) as nat, visited, depth);
        match find(objects, refs[upto - 1].member) {
            None => (points, seen),
            Some(at) => match objects[at] {
                GeoObject::Node(node) => (
                    points.push((node.decimicro_lon, node.decimicro_lat)),
                    seen,
                ),
                GeoObject::Way(way) => (points + way_points(objects, way.nodes@), seen),
                GeoObject::Relation(inner) => {
                    let (more, after) = resolve_relation(objects, inner, seen, depth);
                    (points + more, after)
                },
            },
        }
    }
}

/// The number of places that hold a relation whose id is not among
/// `visited`.
pub open spec fn unvisited(objects: Seq<GeoObject>, visited: Seq<i64>) -> nat
    decreases objects.len(),
{
    if objects.len() == 0 {
        0
    } else {
        unvisited(objects.drop_last(), visited) + match objects.last() {
            GeoObject::Relation(relation) => if visited.contains(relation.id) {
                0nat
            } else {
                1nat
            },
            _ => 0nat,
        }
    }
}

/// Whether every id of `some` is among `all`.
pub open spec fn within(some: Seq<i64>, all: Seq<i64>) -> bool {
    forall|k: int| 0 <= k < some.len() ==> all.contains(#[trigger] some[k])
}

proof fn lemma_unvisited_bound(objects: Seq<GeoObject>, visited: Seq<i64>)
    ensures
        unvisited(objects, visited) <= objects.len(),
    decreases objects.len(),
{
    if objects.len() > 0 {
        lemma_unvisited_bound(objects.drop_last(), visited);
    }
}

proof fn lemma_unvisited_shrinks(objects: Seq<GeoObject>, fewer: Seq<i64>, more: Seq<i64>)
    requires
        within(fewer, more),
    ensures
        unvisited(objects, more) <= unvisited(objects, fewer),
    decreases objects.len(),
{
    if objects.len() > 0 {
        lemma_unvisited_shrinks(objects.drop_last(), fewer, more);
        match objects.last() {
            GeoObject::Relation(relation) => {
                if fewer.contains(relation.id) {
                    let k = choose|k: int| 0 <= k < fewer.len() && fewer[k] == relation.id;
                    assert(more.contains(fewer[k]));
                }
            },
            _ => {},
        }
    }
}

proof fn lemma_unvisited_visit(objects: Seq<GeoObject>, visited: Seq<i64>, at: int, relation: Relation)
    requires
        0 <= at < objects.len(),
        objects[at] == GeoObject::Relation(relation),
        !visited.contains(relation.id),
    ensures
        unvisited(objects, visited.push(relation.id)) < unvisited(objects, visited),
    decreases objects.len(),
{
    let grown = visited.push(relation.id);
    assert(within(visited, grown)) by {
        assert forall|k: int| 0 <= k < visited.len() implies grown.contains(
            #[trigger] visited[k],
        ) by {
            assert(grown[k] == visited[k]);
        }
    }
    assert(grown[visited.len() as int] == relation.id);
    assert(grown.contains(relation.id));
    if at == objects.len() - 1 {
        lemma_unvisited_shrinks(objects.drop_last(), visited, grown);
    } else {
        lemma_unvisited_visit(objects.drop_last(), visited, at, relation);
        match objects.last() {
            GeoObject::Relation(other) => {
                if visited.contains(other.id) {
                    let k = choose|k: int| 0 <= k < visited.len() && visited[k] == other.id;
                    assert(grown[k] == other.id);
                }
            },
            _ => {},
        }
    }
}

/// Resolving a relation only adds to the relations visited.
proof fn lemma_relation_grows(
    objects: Seq<GeoObject>,
    relation: Relation,
    visited: Seq<i64>,
    depth: nat,
)
    ensures
        within(visited, resolve_relation(objects, relation, visited, depth).1),
    decreases depth, 0nat, 0nat,
{
    if depth == 0 || visited.contains(relation.id) {
        assert forall|k: int| 0 <= k < visited.len() implies visited.contains(
            #[trigger] visited[k],
        ) by {}
    } else {
        let grown = visited.push(relation.id);
        lemma_members_grow(
            objects,
            relation.refs@,
            relation.refs@.len(),
            grown,
            (depth - 1) as nat,
        );
        let seen = resolve_members(
            objects,
            relation.refs@,
            relation.refs@.len(),
            grown,
            (depth - 1) as nat,
        ).1;
        assert forall|k: int| 0 <= k < visited.len() implies seen.contains(
            #[trigger] visited[k],
        ) by {
            assert(grown[k] == visited[k]);
            assert(seen.contains(grown[k]));
        }
    }
}

/// Resolving members only adds to the relations visited.
proof fn lemma_members_grow(
    objects: Seq<GeoObject>,
    refs: Seq<Ref>,
    upto: nat,
    visited: Seq<i64>,
    depth: nat,
)
    ensures
        within(visited, resolve_members(objects, refs, upto, visited, depth).1),
    decreases depth, 1nat, upto,
{
    if upto == 0 || upto > refs.len() {
        assert forall|k: int| 0 <= k < visited.len() implies visited.contains(
            #[trigger] visited[k],
        ) by {}
    } else {
        lemma_members_grow(objects, refs, (upto - 1) as nat, visited, depth);
        let seen = resolve_members(objects, refs, (upto - 1) as nat, visited, depth).1;
        match find(objects, refs[upto - 1].member) {
            None => {},
            Some(at) => match objects[at] {
                GeoObject::Relation(inner) => {
                    lemma_relation_grows(objects, inner, seen, depth);
                    let after = resolve_relation(objects, inner, seen, depth).1;
                    assert forall|k: int| 0 <= k < visited.len() implies after.contains(
                        #[trigger] visited[k],
                    ) by {
                        let j = choose|j: int| 0 <= j < seen.len() && seen[j] == visited[k];
                        assert(after.contains(seen[j]));
                    }
                },
                _ => {},
            },
        }
    }
}

/// A relation of the map resolves alike at every depth that is at least the
/// number of relations not yet visited.
proof fn lemma_relation_depth(
    objects: Seq<GeoObject>,
    relation: Relation,
    at: int,
    visited: Seq<i64>,
    depth: nat,
    other: nat,
)
    requires
        0 <= at < objects.len(),
        objects[at] == GeoObject::Relation(relation),
        depth >= unvisited(objects, visited),
        other >= unvisited(objects, visited),
    ensures
        resolve_relation(objects, relation, visited, depth) == resolve_relation(
            objects,
            relation,
            visited,
            other,
        ),
    decreases depth, 0nat, 0nat,
{
    if !visited.contains(relation.id) {
        lemma_unvisited_visit(objects, visited, at, relation);
        lemma_members_depth(
            objects,
            relation.refs@,
            relation.refs@.len(),
            visited.push(relation.id),
            (depth - 1) as nat,
            (other - 1) as nat,
        );
    }
}

/// Members resolve alike at every depth that is at least the number of
/// relations not yet visited.
proof fn lemma_members_depth(
    objects: Seq<GeoObject>,
    refs: Seq<Ref>,
    upto: nat,
    visited: Seq<i64>,
    depth: nat,
    other: nat,
)
    requires
        depth >= unvisited(objects, visited),
        other >= unvisited(objects, visited),
    ensures
        resolve_members(objects, refs, upto, visited, depth) == resolve_members(
            objects,
            refs,
            upto,
            visited,
            other,
        ),
    decreases depth, 1nat, upto,
{
    if !(upto == 0 || upto > refs.len()) {
        lemma_members_depth(objects, refs, (upto - 1) as nat, visited, depth, other);
        lemma_members_grow(objects, refs, (upto - 1) as nat, visited, depth);
        let seen = resolve_members(objects, refs, (upto - 1) as nat, visited, depth).1;
        lemma_unvisited_shrinks(objects, visited, seen);
        match find(objects, refs[upto - 1].member) {
            None => {},
            Some(found) => {
                crate::osm::lemma_find(objects, refs[upto - 1].member);
                match objects[found] {
                    GeoObject::Relation(inner) => {
                        lemma_relation_depth(objects, inner, found, seen, depth, other);
                    },
                    _ => {},
                }
            },
        }
    }
}

/// The bound on the nesting never cuts a relation short: at every depth
/// above the number of objects a relation resolves as it does one level
/// above that number. Nesting deeper than that would pass a relation twice,
/// and a relation that was visited gives no points.
pub proof fn lemma_nesting_bound(
    objects: Seq<GeoObject>,
    relation: Relation,
    visited: Seq<i64>,
    depth: nat,
)
    requires
        depth > objects.len(),
    ensures
        resolve_relation(objects, relation, visited, depth) == resolve_relation(
            objects,
            relation,
            visited,
            objects.len() + 1,
        ),
{
    if !visited.contains(relation.id) {
        let grown = visited.push(relation.id);
        lemma_unvisited_bound(objects, grown);
        lemma_members_depth(
            objects,
            relation.refs@,
            relation.refs@.len(),
            grown,
            (depth - 1) as nat,
            objects.len(),
        );
    }
}

/// How deep nesting is followed in a map of `n` objects: one level more than
/// it has objects, as far as the machine can count.
pub open spec fn nesting_bound(n: nat) -> nat {
    if n < usize::MAX {
        n + 1
    } else {
        usize::MAX as nat
    }
}

/// Whether `id` is among the ids.
fn contains_id(ids: &Vec<i64>, id: i64) -> (held: bool)
    ensures
        held == ids@.contains(id),
{
    let mut k: usize = 0;
    while k < ids.len()
        invariant
            k <= ids@.len(),
            forall|j: int| 0 <= j < k ==> ids@[j] != id,
        decreases ids@.len() - k,
    {
        if ids[k] == id {
            return true;
        }
        k = k + 1;
    }
    false
}

/// Resolves a relation with a bound on the nesting.
fn resolve_bounded(relation: &Relation, objs: &ObjectMap, visited: &mut Vec<i64>, depth: usize) -> (coordinates:
    Vec<(i32, i32)>)
    ensures
        (coordinates@, final(visited)@) == resolve_relation(
            objs@,
            *relation,
            old(visited)@,
            depth as nat,
        ),
    decreases depth,
{
    if depth == 0 || contains_id(visited, relation.id) {
        return Vec::new();
    }
    visited.push(relation.id);
    let ghost start = visited@;
    let mut coordinates: Vec<(i32, i32)> = Vec::new();
    let mut k: usize = 0;
    while k < relation.refs.len()
        invariant
            k <= relation.refs@.len(),
            depth > 0,
            (coordinates@, visited@) == resolve_members(
                objs@,
                relation.refs@,
                k as nat,
                start,
                (depth - 1) as nat,
            ),
        decreases relation.refs@.len() - k,
    {
        match objs.get(relation.refs[k].member) {
            Some(object) => match object {
                GeoObject::Node(node) => {
                    coordinates.push((node.decimicro_lon, node.decimicro_lat));
                },
                GeoObject::Way(way) => {
                    let mut points = way.get_coordinates(objs);
                    coordinates.append(&mut points);
                },
                GeoObject::Relation(inner) => {
                    let mut points = resolve_bounded(inner, objs, visited, depth - 1);
                    coordinates.append(&mut points);
                },
            },
            None => {},
        }
        k = k + 1;
    }
    get_compound_coordinates(coordinates)
}

impl Way {
    /// The coordinates of the way: the positions of those of its nodes that
    /// the map holds, in the way's order.
    pub fn get_coordinates(&self, objs: &ObjectMap) -> (coordinates: Vec<(i32, i32)>)
        ensures
            coordinates@ == way_points(objs@, self.nodes@),
    {
        match get_coordinates(self, objs) {
            Some(coordinates) => coordinates,
            None => Vec::new(),
        }
    }
}

impl Relation {
    /// The coordinates of the relation: the hull of the points of its
    /// members, nested relations resolved in turn. `visited` holds the
    /// relations that are being or were resolved; one of them gives no
    /// points, so a cycle ends. Nesting is followed as deep as the map has
    /// objects, and one level more, which is as deep as it can go.
    pub fn get_coordinates(&self, objs: &ObjectMap, visited: &mut Vec<i64>) -> (coordinates: Vec<
        (i32, i32),
    >)
        ensures
            (coordinates@, final(visited)@) == resolve_relation(
                objs@,
                *self,
                old(visited)@,
                nesting_bound(objs@.len()),
            ),
    {
        let depth: usize = if objs.len() < usize::MAX {
            objs.len() + 1
        } else {
            usize::MAX
        };
        resolve_bounded(self, objs, visited, depth)
    }
}

} // verus!

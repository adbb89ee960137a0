//! Streets: the segments of one name that hang together.

use crate::chainable::rows;
use crate::cluster::{cluster_indices, distinct, distinct_segments, is_clustering, pick_segments};
use crate::geo::{bounds_of, diagonal_squared, GeometryError, SegmentGeometry};
use crate::items::{segment_views, Segment, Street, StreetView};
use crate::osm::{tag_value, GeoObject, ObjectMap, Way};
use crate::resolve::{get_coordinates, way_points};
use vstd::prelude::*;

verus! {

/// The exclusive or of the way ids of the segments, taken in their order
/// from zero.
pub open spec fn xor_ids(segments: Seq<(i64, Seq<(i32, i32)>)>) -> i64
    decreases segments.len(),
{
    if segments.len() == 0 {
        0
    } else {
        xor_ids(segments.drop_last()) ^ segments.last().0
    }
}

/// The views of the streets of a vector.
pub open spec fn street_views(streets: Seq<Street>) -> Seq<StreetView> {
    streets.map_values(|s: Street| s@)
}

/// The polylines among the given ones that have at least two points, in
/// their order.
pub open spec fn drawable(lines: Seq<Seq<(i32, i32)>>) -> Seq<Seq<(i32, i32)>>
    decreases lines.len(),
{
    if lines.len() == 0 {
        Seq::empty()
    } else if lines.last().len() >= 2 {
        drawable(lines.drop_last()).push(lines.last())
    } else {
        drawable(lines.drop_last())
    }
}

/// The points of each segment, segment by segment.
pub open spec fn nested_points(segments: Seq<(i64, Seq<(i32, i32)>)>) -> Seq<Seq<(i32, i32)>> {
    segments.map_values(|s: (i64, Seq<(i32, i32)>)| s.1)
}

impl Street {
    /// The coordinates of the street: the points of each segment, in the
    /// order of the segments.
    pub fn coordinates(&self) -> (nested: Vec<Vec<(i32, i32)>>)
        ensures
            rows(nested@) == nested_points(self@.segments),
    {
        let mut nested: Vec<Vec<(i32, i32)>> = Vec::new();
        let mut k: usize = 0;
        while k < self.segments.len()
            invariant
                k <= self.segments@.len(),
                nested@.len() == k,
                forall|j: int| 0 <= j < k ==> (#[trigger] nested@[j])@ == self.segments@[j].geometry@,
            decreases self.segments@.len() - k,
        {
            nested.push(self.segments[k].geometry.coordinates());
            k = k + 1;
        }
        assert(rows(nested@) =~= nested_points(self@.segments));
        nested
    }

    /// The polylines of the street that can be drawn as lines: the points
    /// of each segment that has at least two points.
    pub fn line_strings(&self) -> (lines: Vec<Vec<(i32, i32)>>)
        ensures
            rows(lines@) == drawable(nested_points(self@.segments)),
    {
        let ghost nested = nested_points(self@.segments);
        let mut lines: Vec<Vec<(i32, i32)>> = Vec::new();
        let mut k: usize = 0;
        while k < self.segments.len()
            invariant
                k <= self.segments@.len(),
                nested == nested_points(self@.segments),
                rows(lines@) == drawable(nested.take(k as int)),
            decreases self.segments@.len() - k,
        {
            proof {
                assert(nested.take(k as int + 1).drop_last() =~= nested.take(k as int));
                assert(nested.take(k as int + 1).last() == self.segments@[k as int].geometry@);
            }
            if self.segments[k].geometry.len() >= 2 {
                let ghost before = rows(lines@);
                let line = self.segments[k].geometry.coordinates();
                lines.push(line);
                assert(rows(lines@) =~= before.push(line@));
            }
            k = k + 1;
        }
        assert(nested.take(k as int) =~= nested);
        lines
    }

    /// The squares of the lengths of the segments, in their order. The
    /// length of a segment is that of the diagonal of its bounding box; the
    /// length of the street is the sum of the roots of these squares.
    pub fn lengths_squared(&self) -> (squares: Vec<u128>)
        ensures
            squares@.len() == self@.segments.len(),
            forall|k: int|
                0 <= k < squares@.len() ==> (#[trigger] squares@[k]) == diagonal_squared(
                    bounds_of(self@.segments[k].1),
                ),
    {
        let mut squares: Vec<u128> = Vec::new();
        let mut k: usize = 0;
        while k < self.segments.len()
            invariant
                k <= self.segments@.len(),
                squares@.len() == k,
                forall|j: int|
                    0 <= j < k ==> (#[trigger] squares@[j]) == diagonal_squared(
                        bounds_of(self.segments@[j].geometry@),
                    ),
            decreases self.segments@.len() - k,
        {
            squares.push(self.segments[k].geometry.length_squared());
            k = k + 1;
        }
        squares
    }

    /// The id of the street: the exclusive or of the ids of its ways.
    pub fn id(&self) -> (id: i64)
        ensures
            id == xor_ids(self@.segments),
    {
        let mut hash: i64 = 0;
        let mut k: usize = 0;
        while k < self.segments.len()
            invariant
                k <= self.segments@.len(),
                hash == xor_ids(self@.segments.take(k as int)),
            decreases self.segments@.len() - k,
        {
            proof {
                assert(self@.segments.take(k as int + 1).drop_last() =~= self@.segments.take(
                    k as int,
                ));
                assert(self@.segments.take(k as int + 1).last().0 == self.segments@[k as int].way_id);
            }
            hash = hash ^ self.segments[k].way_id;
            k = k + 1;
        }
        assert(self@.segments.take(k as int) =~= self@.segments);
        hash
    }

}

proof fn lemma_xor_swap(a: i64, x: i64, y: i64)
    ensures
        (a ^ x) ^ y == (a ^ y) ^ x,
{
    assert((a ^ x) ^ y == (a ^ y) ^ x) by (bit_vector);
}

/// Taking one segment out changes the id by the exclusive or with its way id.
proof fn lemma_xor_remove(segments: Seq<(i64, Seq<(i32, i32)>)>, i: int)
    requires
        0 <= i < segments.len(),
    ensures
        xor_ids(segments) == xor_ids(segments.remove(i)) ^ segments[i].0,
    decreases segments.len(),
{
    if i == segments.len() - 1 {
        assert(segments.remove(i) =~= segments.drop_last());
    } else {
        let rest = segments.drop_last();
        lemma_xor_remove(rest, i);
        assert(segments.remove(i).drop_last() =~= rest.remove(i));
        assert(segments.remove(i).last() == segments.last());
        assert(rest[i] == segments[i]);
        lemma_xor_swap(xor_ids(rest.remove(i)), segments[i].0, segments.last().0);
    }
}

/// The id of a street does not depend on the order of its segments: two
/// lists that hold the same segments, each as often as the other, have the
/// same id.
pub proof fn lemma_id_of_reordered(
    segments: Seq<(i64, Seq<(i32, i32)>)>,
    reordered: Seq<(i64, Seq<(i32, i32)>)>,
)
    requires
        segments.to_multiset() == reordered.to_multiset(),
    ensures
        xor_ids(segments) == xor_ids(reordered),
    decreases segments.len(),
{
    segments.to_multiset_ensures();
    reordered.to_multiset_ensures();
    if segments.len() == 0 {
        assert(reordered.len() == 0);
    } else {
        let last = segments.last();
        assert(segments[segments.len() - 1] == last);
        assert(segments.contains(last));
        assert(segments.to_multiset().count(last) > 0);
        assert(reordered.to_multiset().count(last) > 0);
        assert(reordered.contains(last));
        let i = choose|i: int| 0 <= i < reordered.len() && reordered[i] == last;
        assert(segments.remove(segments.len() - 1) =~= segments.drop_last());
        assert(segments.drop_last().to_multiset() == reordered.remove(i).to_multiset());
        lemma_id_of_reordered(segments.drop_last(), reordered.remove(i));
        lemma_xor_remove(reordered, i);
    }
}

impl Segment {
    /// The segment of a way. Fails exactly when the map holds none of the
    /// way's nodes.
    pub fn new(way: &Way, objs: &ObjectMap) -> (built: Result<Segment, GeometryError>)
        ensures
            way_points(objs@, way.nodes@).len() == 0 <==> built == Err::<Segment, GeometryError>(
                GeometryError::NoBoundingBox,
            ),
            way_points(objs@, way.nodes@).len() > 0 <==> built.is_ok(),
            built.is_ok() ==> built.unwrap()@ == (way.id, way_points(objs@, way.nodes@)),
    {
        let way_id = way.id;
        match get_coordinates(way, objs) {
            Some(coordinates) => match SegmentGeometry::new(coordinates) {
                Ok(geometry) => Ok(Segment { way_id, geometry }),
                Err(e) => Err(GeometryError::NoBoundingBox),
            },
            None => Err(GeometryError::NoBoundingBox),
        }
    }
}

/// The segment that the object at one place gives: that of a way of which
/// the map holds a node.
pub open spec fn segment_at(objects: Seq<GeoObject>, place: int) -> Option<(i64, Seq<(i32, i32)>)> {
    if 0 <= place < objects.len() {
        match objects[place] {
            GeoObject::Way(way) => if way_points(objects, way.nodes@).len() > 0 {
                Some((way.id, way_points(objects, way.nodes@)))
            } else {
                None
            },
            _ => None,
        }
    } else {
        None
    }
}

/// The segments of the ways at the given places, in their order. A place
/// that gives no segment is left out.
pub open spec fn segments_of(objects: Seq<GeoObject>, places: Seq<usize>) -> Seq<(i64, Seq<(i32, i32)>)>
    decreases places.len(),
{
    if places.len() == 0 {
        Seq::empty()
    } else {
        let rest = segments_of(objects, places.drop_last());
        match segment_at(objects, places.last() as int) {
            Some(segment) => rest.push(segment),
            None => rest,
        }
    }
}

/// The segments of the ways at the given places of the map. A way of which
/// the map holds no node gives none.
pub fn get_segments(ways: &Vec<usize>, objs: &ObjectMap) -> (segments: Vec<Segment>)
    ensures
        segment_views(segments@) == segments_of(objs@, ways@),
{
    let mut segments: Vec<Segment> = Vec::new();
    let mut k: usize = 0;
    while k < ways.len()
        invariant
            k <= ways@.len(),
            segment_views(segments@) == segments_of(objs@, ways@.take(k as int)),
        decreases ways@.len() - k,
    {
        proof {
            assert(ways@.take(k as int + 1).drop_last() =~= ways@.take(k as int));
        }
        let place = ways[k];
        let ghost before = segments@;
        if place < objs.len() {
            match objs.at(place) {
                GeoObject::Way(way) => match Segment::new(way, objs) {
                    Ok(segment) => {
                        segments.push(segment);
                        assert(segment_views(segments@) =~= segment_views(before).push(segment@));
                    },
                    Err(e) => {},
                },
                _ => {},
            }
        }
        k = k + 1;
    }
    assert(ways@.take(k as int) =~= ways@);
    segments
}

/// The ways of one name, by their places in the map.
#[derive(Debug)]
pub struct NameGroup {
    pub name: String,
    pub ways: Vec<usize>,
}

impl View for NameGroup {
    type V = (Seq<char>, Seq<usize>);

    open spec fn view(&self) -> (Seq<char>, Seq<usize>) {
        (self.name@, self.ways@)
    }
}

/// The views of the groups of a vector.
pub open spec fn group_views(groups: Seq<NameGroup>) -> Seq<(Seq<char>, Seq<usize>)> {
    groups.map_values(|g: NameGroup| g@)
}

/// The name of the object if it is a way with a `name` tag.
pub open spec fn way_name(object: GeoObject) -> Option<Seq<char>> {
    match object {
        GeoObject::Way(way) => tag_value(way.tags@, "name"@),
        _ => None,
    }
}

/// The place of the first group with the given name.
pub open spec fn group_position(groups: Seq<(Seq<char>, Seq<usize>)>, name: Seq<char>) -> Option<int>
    decreases groups.len(),
{
    if groups.len() == 0 {
        None
    } else {
        match group_position(groups.drop_last(), name) {
            Some(at) => Some(at),
            None => if groups.last().0 == name {
                Some(groups.len() - 1)
            } else {
                None
            },
        }
    }
}

/// The groups after the way at `place` with the name `name` was added: to
/// the group of its name, or as a new group behind the others.
pub open spec fn add_to_group(
    groups: Seq<(Seq<char>, Seq<usize>)>,
    name: Seq<char>,
    place: usize,
) -> Seq<(Seq<char>, Seq<usize>)> {
    match group_position(groups, name) {
        Some(at) => groups.update(at, (name, groups[at].1.push(place))),
        None => groups.push((name, seq![place])),
    }
}

/// The named ways among the objects, grouped by name. The groups stand in
/// the order in which their names first occur, the ways of each in the
/// order of the objects.
pub open spec fn name_groups(objects: Seq<GeoObject>) -> Seq<(Seq<char>, Seq<usize>)>
    decreases objects.len(),
{
    if objects.len() == 0 {
        Seq::empty()
    } else {
        let rest = name_groups(objects.drop_last());
        match way_name(objects.last()) {
            Some(name) => add_to_group(rest, name, (objects.len() - 1) as usize),
            None => rest,
        }
    }
}

proof fn lemma_group_position(groups: Seq<(Seq<char>, Seq<usize>)>, name: Seq<char>)
    ensures
        match group_position(groups, name) {
            Some(at) => 0 <= at < groups.len() && groups[at].0 == name && forall|j: int|
                0 <= j < at ==> (#[trigger] groups[j]).0 != name,
            None => forall|j: int| 0 <= j < groups.len() ==> (#[trigger] groups[j]).0 != name,
        },
    decreases groups.len(),
{
    if groups.len() > 0 {
        lemma_group_position(groups.drop_last(), name);
        assert(forall|j: int| 0 <= j < groups.len() - 1 ==> groups.drop_last()[j] == groups[j]);
    }
}

/// Groups the named ways of the map by name.
pub fn get_name_groups(objs: &ObjectMap) -> (groups: Vec<NameGroup>)
    ensures
        group_views(groups@) == name_groups(objs@),
{
    let mut groups: Vec<NameGroup> = Vec::new();
    let mut k: usize = 0;
    while k < objs.len()
        invariant
            k <= objs@.len(),
            group_views(groups@) == name_groups(objs@.take(k as int)),
        decreases objs@.len() - k,
    {
        proof {
            assert(objs@.take(k as int + 1).drop_last() =~= objs@.take(k as int));
            assert(objs@.take(k as int + 1).last() == objs@[k as int]);
        }
        match objs.at(k) {
            GeoObject::Way(way) => match way.tags.get("name") {
                Some(name) => {
                    let ghost before = group_views(groups@);
                    let mut g: usize = 0;
                    let mut found: Option<usize> = None;
                    while g < groups.len() && found.is_none()
                        invariant
                            g <= groups@.len(),
                            before == group_views(groups@),
                            match found {
                                Some(at) => at < groups@.len() && before[at as int].0 == name@
                                    && forall|j: int|
                                    0 <= j < at ==> (#[trigger] before[j]).0 != name@,
                                None => forall|j: int|
                                    0 <= j < g ==> (#[trigger] before[j]).0 != name@,
                            },
                        decreases groups@.len() - g + if found.is_none() { 1int } else { 0int },
                    {
                        assert(before[g as int] == groups@[g as int]@);
                        if groups[g].name == *name {
                            found = Some(g);
                        } else {
                            g = g + 1;
                        }
                    }
                    proof {
                        lemma_group_position(before, name@);
                    }
                    match found {
                        Some(at) => {
                            assert(before[at as int] == groups@[at as int]@);
                            groups[at].ways.push(k);
                            assert(group_views(groups@) =~= before.update(
                                at as int,
                                (name@, before[at as int].1.push(k)),
                            ));
                        },
                        None => {
                            let mut ways: Vec<usize> = Vec::new();
                            ways.push(k);
                            assert(ways@ =~= seq![k]);
                            groups.push(NameGroup { name: name.clone(), ways });
                            assert(group_views(groups@) =~= before.push((name@, seq![k])));
                        },
                    }
                },
                None => {},
            },
            _ => {},
        }
        k = k + 1;
    }
    assert(objs@.take(k as int) =~= objs@);
    groups
}

/// The streets of one name: one for each group of `parts`, holding the
/// segments that the group names, with no boundary.
pub open spec fn group_streets(
    name: Seq<char>,
    segments: Seq<(i64, Seq<(i32, i32)>)>,
    parts: Seq<Seq<usize>>,
) -> Seq<StreetView> {
    Seq::new(
        parts.len(),
        |c: int|
            StreetView {
                name,
                segments: parts[c].map_values(|place: usize| segments[place as int]),
                boundary: None,
            },
    )
}

/// The streets of all names, name after name.
pub open spec fn all_streets(
    objects: Seq<GeoObject>,
    groups: Seq<(Seq<char>, Seq<usize>)>,
    parts: Seq<Seq<Seq<usize>>>,
) -> Seq<StreetView>
    decreases groups.len(),
{
    if groups.len() == 0 || parts.len() == 0 {
        Seq::empty()
    } else {
        all_streets(objects, groups.drop_last(), parts.drop_last()) + group_streets(
            groups.last().0,
            distinct(segments_of(objects, groups.last().1)),
            parts.last(),
        )
    }
}

/// Whether `parts` holds, for each name group, a clustering of its segments.
pub open spec fn clusterings(
    objects: Seq<GeoObject>,
    groups: Seq<(Seq<char>, Seq<usize>)>,
    parts: Seq<Seq<Seq<usize>>>,
) -> bool {
    &&& parts.len() == groups.len()
    &&& forall|g: int|
        0 <= g < groups.len() ==> is_clustering(
            distinct(segments_of(objects, (#[trigger] groups[g]).1)),
            parts[g],
        )
}

/// The streets of the map. The named ways are grouped by name; the ways of
/// one name give one segment each, unless the map holds none of their
/// nodes; the segments of one name, each way once, are clustered, and each
/// cluster is one street of that name, with no boundary. The streets of the names stand in
/// the order of the names.
pub fn extract_streets(objs: &ObjectMap) -> (streets: Vec<Street>)
    ensures
        exists|parts: Seq<Seq<Seq<usize>>>|
            #![trigger clusterings(objs@, name_groups(objs@), parts)]
            clusterings(objs@, name_groups(objs@), parts) && street_views(streets@) == all_streets(
                objs@,
                name_groups(objs@),
                parts,
            ),
{
    let groups = get_name_groups(objs);
    let ghost names = name_groups(objs@);
    let ghost mut parts: Seq<Seq<Seq<usize>>> = Seq::empty();
    let mut streets: Vec<Street> = Vec::new();
    let mut g: usize = 0;
    while g < groups.len()
        invariant
            g <= groups@.len(),
            names == group_views(groups@),
            clusterings(objs@, names.take(g as int), parts),
            street_views(streets@) == all_streets(objs@, names.take(g as int), parts),
        decreases groups@.len() - g,
    {
        let group = &groups[g];
        assert(names[g as int] == group@);
        let segments = distinct_segments(get_segments(&group.ways, objs));
        let clusters = cluster_indices(&segments);
        let ghost found = rows(clusters@);
        let ghost views = segment_views(segments@);
        let ghost start = street_views(streets@);
        let mut c: usize = 0;
        while c < clusters.len()
            invariant
                c <= clusters@.len(),
                found == rows(clusters@),
                views == segment_views(segments@),
                is_clustering(views, found),
                street_views(streets@) == start + group_streets(group.name@, views, found).take(
                    c as int,
                ),
            decreases clusters@.len() - c,
        {
            proof {
                assert(found[c as int] == clusters@[c as int]@);
                assert forall|k: int| 0 <= k < clusters@[c as int]@.len() implies (
                #[trigger] clusters@[c as int]@[k]) < segments@.len() by {
                    assert(found[c as int][k] < views.len());
                }
            }
            let members = pick_segments(&segments, &clusters[c]);
            let street = Street { name: group.name.clone(), segments: members, boundary: None };
            proof {
                assert(street@.segments =~= found[c as int].map_values(
                    |place: usize| views[place as int],
                ));
                assert(street@ == group_streets(group.name@, views, found)[c as int]);
            }
            let ghost before = street_views(streets@);
            streets.push(street);
            c = c + 1;
            assert(street_views(streets@) =~= before.push(street@));
            assert(street_views(streets@) =~= start + group_streets(group.name@, views, found).take(
                c as int,
            ));
        }
        proof {
            let all = group_streets(group.name@, views, found);
            assert(all.take(c as int) =~= all);
            let grown = parts.push(found);
            assert(names.take(g as int + 1).drop_last() =~= names.take(g as int));
            assert(names.take(g as int + 1).last() == group@);
            assert(grown.drop_last() =~= parts);
            assert(grown.last() == found);
            assert forall|h: int| 0 <= h < g + 1 implies is_clustering(
                distinct(segments_of(objs@, (#[trigger] names.take(g as int + 1)[h]).1)),
                grown[h],
            ) by {
                if h < g {
                    assert(names.take(g as int + 1)[h] == names.take(g as int)[h]);
                    assert(grown[h] == parts[h]);
                }
            }
            parts = grown;
        }
        g = g + 1;
    }
    assert(names.take(g as int) =~= names);
    streets
}

} // verus!

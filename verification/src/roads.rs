//! Roads: the ways of one name chained end to end.

use crate::chainable::{merge_spec, rows, Chainable};
use crate::osm::{GeoObject, ObjectMap, Way};
use crate::resolve::{get_coordinates, way_points};
use crate::streets::{get_name_groups, name_groups};
use vstd::prelude::*;

verus! {

/// A chain of ways of one name.
#[derive(Debug)]
pub struct Road {
    pub name: String,
    pub coordinates: Vec<(i32, i32)>,
}

impl View for Road {
    type V = (Seq<char>, Seq<(i32, i32)>);

    /// The name and the points of the road.
    open spec fn view(&self) -> (Seq<char>, Seq<(i32, i32)>) {
        (self.name@, self.coordinates@)
    }
}

/// The views of the roads of a vector.
pub open spec fn road_views(roads: Seq<Road>) -> Seq<(Seq<char>, Seq<(i32, i32)>)> {
    roads.map_values(|r: Road| r@)
}

/// The points of the way at one place; none where the place holds no way.
pub open spec fn line_at(objects: Seq<GeoObject>, place: usize) -> Seq<(i32, i32)> {
    if place < objects.len() {
        match objects[place as int] {
            GeoObject::Way(way) => way_points(objects, way.nodes@),
            _ => Seq::empty(),
        }
    } else {
        Seq::empty()
    }
}

/// The points of the ways at the given places, way by way.
pub open spec fn group_lines(objects: Seq<GeoObject>, places: Seq<usize>) -> Seq<Seq<(i32, i32)>> {
    places.map_values(|place: usize| line_at(objects, place))
}

/// The roads of one name: one for each chain.
pub open spec fn group_roads(name: Seq<char>, chains: Seq<Seq<(i32, i32)>>) -> Seq<
    (Seq<char>, Seq<(i32, i32)>),
> {
    chains.map_values(|chain: Seq<(i32, i32)>| (name, chain))
}

/// The roads of all names, name after name: the ways of each name are
/// merged into chains, and each chain is one road.
pub open spec fn all_roads(objects: Seq<GeoObject>, groups: Seq<(Seq<char>, Seq<usize>)>) -> Seq<
    (Seq<char>, Seq<(i32, i32)>),
>
    decreases groups.len(),
{
    if groups.len() == 0 {
        Seq::empty()
    } else {
        all_roads(objects, groups.drop_last()) + group_roads(
            groups.last().0,
            merge_spec(group_lines(objects, groups.last().1)),
        )
    }
}

/// The id under which the road at place `idx` of a list is written.
pub fn road_id(idx: usize) -> (id: i64)
    requires
        idx <= i64::MAX - 420_000_000,
    ensures
        id == 420_000_000 + idx,
{
    420_000_000 + idx as i64
}

/// The piece of road that one way gives: its name and the positions of
/// those of its nodes that the map holds.
pub fn get_road_segment(name: &String, way: &Way, objs: &ObjectMap) -> (road: Option<Road>)
    ensures
        road.is_some(),
        road.unwrap()@ == (name@, way_points(objs@, way.nodes@)),
{
    let coordinates = match get_coordinates(way, objs) {
        Some(coordinates) => coordinates,
        None => Vec::new(),
    };
    Some(Road { name: name.clone(), coordinates })
}

/// The roads of the map: the named ways are grouped by name, the ways of
/// each name are merged end to end, and each chain is one road of that name.
pub fn get_roads(objs: &ObjectMap) -> (roads: Vec<Road>)
    ensures
        road_views(roads@) == all_roads(objs@, name_groups(objs@)),
{
    let groups = get_name_groups(objs);
    let ghost names = name_groups(objs@);
    let mut roads: Vec<Road> = Vec::new();
    let mut g: usize = 0;
    while g < groups.len()
        invariant
            g <= groups@.len(),
            names == crate::streets::group_views(groups@),
            road_views(roads@) == all_roads(objs@, names.take(g as int)),
        decreases groups@.len() - g,
    {
        let group = &groups[g];
        assert(names[g as int] == group@);
        let mut nested_coordinates: Vec<Vec<(i32, i32)>> = Vec::new();
        let mut k: usize = 0;
        while k < group.ways.len()
            invariant
                k <= group.ways@.len(),
                nested_coordinates@.len() == k,
                forall|j: int|
                    0 <= j < k ==> (#[trigger] nested_coordinates@[j])@ == line_at(
                        objs@,
                        group.ways@[j],
                    ),
            decreases group.ways@.len() - k,
        {
            let place = group.ways[k];
            let mut line: Vec<(i32, i32)> = Vec::new();
            if place < objs.len() {
                match objs.at(place) {
                    GeoObject::Way(way) => match get_road_segment(&group.name, way, objs) {
                        Some(road) => {
                            line = road.coordinates;
                        },
                        None => {},
                    },
                    _ => {},
                }
            }
            nested_coordinates.push(line);
            k = k + 1;
        }
        assert(rows(nested_coordinates@) =~= group_lines(objs@, group.ways@));
        nested_coordinates.merge();
        let ghost chains = rows(nested_coordinates@);
        let ghost start = road_views(roads@);
        let mut c: usize = 0;
        while c < nested_coordinates.len()
            invariant
                c <= nested_coordinates@.len(),
                chains == rows(nested_coordinates@),
                road_views(roads@) == start + group_roads(group.name@, chains).take(c as int),
            decreases nested_coordinates@.len() - c,
        {
            let chained_road = Road {
                name: group.name.clone(),
                coordinates: vstd::slice::slice_to_vec(nested_coordinates[c].as_slice()),
            };
            let ghost before = road_views(roads@);
            assert(chained_road@ == group_roads(group.name@, chains)[c as int]);
            roads.push(chained_road);
            c = c + 1;
            assert(road_views(roads@) =~= before.push(chained_road@));
            assert(road_views(roads@) =~= start + group_roads(group.name@, chains).take(c as int));
        }
        proof {
            assert(group_roads(group.name@, chains).take(c as int) =~= group_roads(
                group.name@,
                chains,
            ));
            assert(names.take(g as int + 1).drop_last() =~= names.take(g as int));
            assert(names.take(g as int + 1).last() == group@);
        }
        g = g + 1;
    }
    assert(names.take(g as int) =~= names);
    roads
}

} // verus!

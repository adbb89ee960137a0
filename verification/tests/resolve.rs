use osm_pbf2json::osm::{GeoObject, Node, ObjectMap, OsmId, Ref, Relation, Tags, Way};
use osm_pbf2json::resolve::get_compound_coordinates;

fn create_node(id: i64, lng: i32, lat: i32) -> Node {
    let tags = Tags::new();
    let decimicro_lat = lat * 10_000_000;
    let decimicro_lon = lng * 10_000_000;
    Node {
        id,
        tags,
        decimicro_lat,
        decimicro_lon,
    }
}

fn create_relation(id: i64, refs: Vec<Ref>) -> Relation {
    let tags = Tags::new();
    Relation { id, tags, refs }
}

fn create_way(id: i64, nodes: Vec<i64>) -> Way {
    let tags = Tags::new();
    Way { id, tags, nodes }
}

fn add_nodes(coordinates: Vec<(i32, i32)>, obj_map: &mut ObjectMap, node_ids: &mut Vec<i64>) {
    for (i, (lng, lat)) in coordinates.iter().enumerate() {
        let node_id = (i as i64) + 1;
        let node = create_node(node_id, *lng, *lat);
        obj_map.insert(GeoObject::Node(node));
        node_ids.push(node_id);
    }
}

fn create_refs(ids: Vec<OsmId>) -> Vec<Ref> {
    ids.into_iter()
        .map(|id| Ref {
            member: id,
            role: "something".into(),
        })
        .collect()
}

fn degrees(points: Vec<(i32, i32)>) -> Vec<(f64, f64)> {
    points
        .iter()
        .map(|p| ((p.0 / 10_000_000) as f64, (p.1 / 10_000_000) as f64))
        .collect()
}

#[test]
fn mod_relation_without_refs() {
    let obj_map = ObjectMap::new();
    let id = 42;
    let rel = create_relation(id, vec![]);
    let coordinates = rel.get_coordinates(&obj_map, &mut vec![]);
    assert_eq!(coordinates.len(), 0);
}

#[test]
fn relation_with_one_way() {
    let coordinates = vec![(9, 50), (9, 51), (10, 51)];
    let mut obj_map = ObjectMap::new();
    let mut node_ids = vec![];
    add_nodes(coordinates, &mut obj_map, &mut node_ids);

    let way_id = 42;
    let way = create_way(way_id, node_ids);
    obj_map.insert(GeoObject::Way(way));

    let refs = create_refs(vec![OsmId::Way(way_id)]);
    let id = 43;
    let rel = create_relation(id, refs);

    let coordinates = degrees(rel.get_coordinates(&obj_map, &mut vec![]));
    assert_eq!(
        coordinates,
        vec![(9., 50.), (9., 51.), (10., 51.), (9., 50.)]
    );
}

#[test]
fn mod_relation_with_one_node() {
    let node_id = 41;
    let node = create_node(node_id, 5, 49);
    let mut obj_map = ObjectMap::new();
    obj_map.insert(GeoObject::Node(node));
    let id = 42;
    let refs = create_refs(vec![OsmId::Node(node_id)]);
    let rel = create_relation(id, refs);
    let coordinates = degrees(rel.get_coordinates(&obj_map, &mut vec![]));
    assert_eq!(coordinates, vec![(5., 49.)]);
}

#[test]
fn mod_relation_with_multiple_nodes() {
    let coordinates = vec![(6, 52), (6, 50), (8, 50), (8, 52), (7, 51)];
    let mut obj_map = ObjectMap::new();
    let mut node_ids = vec![];
    add_nodes(coordinates, &mut obj_map, &mut node_ids);

    let id = 42;
    let refs = create_refs(node_ids.into_iter().map(OsmId::Node).collect());
    let rel = create_relation(id, refs);
    let coordinates = degrees(rel.get_coordinates(&obj_map, &mut vec![]));
    assert_eq!(
        coordinates,
        vec![(6., 50.), (8., 50.), (8., 52.), (6., 52.), (6., 50.)]
    );
}

#[test]
fn nested_relations() {
    let coordinates = vec![(6, 52), (6, 50)];
    let mut obj_map = ObjectMap::new();
    let mut node_ids = vec![];
    add_nodes(coordinates, &mut obj_map, &mut node_ids);

    let child_id = 42;
    let refs = create_refs(node_ids.into_iter().map(OsmId::Node).collect());
    let child_rel = create_relation(child_id, refs);
    obj_map.insert(GeoObject::Relation(child_rel));

    let node_id = 43;
    let node = create_node(node_id, 8, 52);
    obj_map.insert(GeoObject::Node(node));

    let parent_id = 44;
    let refs = create_refs(vec![OsmId::Relation(child_id), OsmId::Node(node_id)]);
    let parent_rel = create_relation(parent_id, refs);

    let coordinates = degrees(parent_rel.get_coordinates(&obj_map, &mut vec![]));
    assert_eq!(
        coordinates,
        vec![(6., 50.), (8., 52.), (6., 52.), (6., 50.)]
    );
}

#[test]
fn nested_relations_with_cycle() {
    let mut obj_map = ObjectMap::new();
    let rel_id_1 = 42;
    let rel_id_2 = 44;
    let refs = create_refs(vec![OsmId::Relation(rel_id_2)]);
    let rel_1 = create_relation(rel_id_1, refs);
    obj_map.insert(GeoObject::Relation(rel_1));

    let node_id = 43;
    let node = create_node(node_id, 8, 52);
    obj_map.insert(GeoObject::Node(node));

    let refs = create_refs(vec![OsmId::Relation(rel_id_1), OsmId::Node(node_id)]);
    let rel_2 = create_relation(rel_id_2, refs);

    let mut visited = vec![];
    let coordinates = degrees(rel_2.get_coordinates(&obj_map, &mut visited));
    assert_eq!(coordinates, vec![(8., 52.)]);
    assert_eq!(visited, vec![44, 42]);
}

#[test]
fn hull_leaves_inner_points_out() {
    let ring = get_compound_coordinates(vec![(0, 0), (4, 0), (4, 4), (0, 4), (2, 2), (1, 3)]);
    assert_eq!(ring, vec![(0, 0), (4, 0), (4, 4), (0, 4), (0, 0)]);
    assert_eq!(get_compound_coordinates(vec![]), vec![]);
    assert_eq!(get_compound_coordinates(vec![(1, 2)]), vec![(1, 2)]);
    assert_eq!(get_compound_coordinates(vec![(1, 2), (0, 0)]), vec![(1, 2), (0, 0), (1, 2)]);
    assert_eq!(
        get_compound_coordinates(vec![(1, 2), (0, 0), (1, 2)]),
        vec![(1, 2), (0, 0), (1, 2)]
    );
    let ring = get_compound_coordinates(vec![(3, 3), (0, 5), (0, -5), (-3, 0), (0, 0)]);
    assert_eq!(ring, vec![(-3, 0), (0, -5), (3, 3), (0, 5), (-3, 0)]);
}

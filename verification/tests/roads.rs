use osm_pbf2json::osm::{GeoObject, Node, ObjectMap, OsmId, Tags, Way};
use osm_pbf2json::roads::{get_road_segment, get_roads, road_id};

fn add_way(id: i64, name: &str, nodes: Vec<i64>, objs: &mut ObjectMap) {
    let mut tags = Tags::new();
    tags.insert("name".to_string(), name.to_string());
    let way = Way { id, tags, nodes };
    objs.insert(GeoObject::Way(way));
}

fn add_node(id: i64, lng: f64, lat: f64, objs: &mut ObjectMap) {
    let tags = Tags::new();
    let decimicro_lat = lat as i32 * 10_000_000;
    let decimicro_lon = lng as i32 * 10_000_000;
    let node = Node {
        id,
        tags,
        decimicro_lat,
        decimicro_lon,
    };
    objs.insert(GeoObject::Node(node));
}

fn degrees(points: &[(i32, i32)]) -> Vec<(f64, f64)> {
    points
        .iter()
        .map(|p| ((p.0 / 10_000_000) as f64, (p.1 / 10_000_000) as f64))
        .collect()
}

#[test]
fn one_road_with_three_segments() {
    let mut objs = ObjectMap::new();
    add_node(1, 13., 52., &mut objs);
    add_node(2, 14., 52., &mut objs);
    add_node(3, 14., 53., &mut objs);
    add_node(4, 15., 53., &mut objs);

    let node_ids = vec![1, 2];
    add_way(42, "street a", node_ids, &mut objs);

    let node_ids = vec![2, 3];
    add_way(41, "street a", node_ids, &mut objs);

    let node_ids = vec![3, 4];
    add_way(43, "street a", node_ids, &mut objs);

    let roads = get_roads(&objs);
    assert_eq!(roads.len(), 1);

    let road = &roads[0];
    assert_eq!(
        degrees(&road.coordinates),
        vec![(13.0, 52.0), (14.0, 52.0), (14.0, 53.0), (15.0, 53.0)]
    );
}

#[test]
fn roads_connected_ways_with_distinct_names() {
    let mut objs = ObjectMap::new();
    add_node(1, 13., 52., &mut objs);
    add_node(2, 14., 52., &mut objs);
    add_node(3, 14., 53., &mut objs);

    let node_ids = vec![1, 2];
    add_way(42, "street a", node_ids, &mut objs);

    let node_ids = vec![2, 3];
    add_way(41, "street b", node_ids, &mut objs);

    let roads = get_roads(&objs);
    assert_eq!(roads.len(), 2);
}

#[test]
fn two_road_with_one_segment_each() {
    let mut objs = ObjectMap::new();
    add_node(1, 13., 52., &mut objs);
    add_node(2, 14., 52., &mut objs);
    add_node(3, 14., 53., &mut objs);
    add_node(4, 15., 53., &mut objs);

    let node_ids = vec![1, 2];
    add_way(42, "street a", node_ids, &mut objs);

    let node_ids = vec![2, 3];
    add_way(41, "street b", node_ids, &mut objs);

    let roads = get_roads(&objs);
    assert_eq!(roads.len(), 2);
}

#[test]
fn roads_keep_the_order_of_the_names() {
    let mut objs = ObjectMap::new();
    add_node(1, 1., 1., &mut objs);
    add_node(2, 2., 2., &mut objs);
    add_node(3, 3., 3., &mut objs);
    add_node(4, 4., 4., &mut objs);
    add_way(10, "b", vec![3, 4], &mut objs);
    add_way(11, "a", vec![1, 2], &mut objs);
    add_way(12, "b", vec![1, 2], &mut objs);
    add_way(13, "b", vec![2, 3], &mut objs);
    add_way(14, "a", vec![99], &mut objs);
    let roads = get_roads(&objs);
    let found: Vec<(String, Vec<(f64, f64)>)> = roads
        .iter()
        .map(|r| (r.name.clone(), degrees(&r.coordinates)))
        .collect();
    assert_eq!(
        found,
        vec![
            ("b".to_string(), vec![(1., 1.), (2., 2.), (3., 3.), (4., 4.)]),
            ("a".to_string(), vec![(1., 1.), (2., 2.)]),
            ("a".to_string(), vec![]),
        ]
    );
    let way = match objs.get(OsmId::Way(10)) {
        Some(GeoObject::Way(way)) => way,
        _ => panic!("way 10 is in the map"),
    };
    let piece = get_road_segment(&"x".to_string(), way, &objs).unwrap();
    assert_eq!(piece.name, "x");
    assert_eq!(degrees(&piece.coordinates), vec![(3., 3.), (4., 4.)]);
}

#[test]
fn roads_are_numbered_from_a_base() {
    assert_eq!(road_id(0), 420_000_000);
    assert_eq!(road_id(7), 420_000_007);
}

use osm_pbf2json::admin::{build_boundary, get_boundaries, BoundaryTree};
use osm_pbf2json::geo::BoundingBox;
use osm_pbf2json::osm::{GeoObject, Node, ObjectMap, OsmId, Ref, Relation, Tags, Way};

fn decimicro(degrees: f64) -> i32 {
    (degrees * 1e7).round() as i32
}

fn add_objects(tags: &[(&str, &str)], coordinates: &[[f64; 2]], first_id: i64, objs: &mut ObjectMap) {
    let mut node_ids = vec![];
    for (idx, co) in coordinates.iter().enumerate() {
        let id = first_id + idx as i64;
        let node = Node {
            id,
            tags: Tags::new(),
            decimicro_lon: decimicro(co[0]),
            decimicro_lat: decimicro(co[1]),
        };
        objs.insert(GeoObject::Node(node));
        node_ids.push(id);
    }
    node_ids.push(first_id);
    let way_id = first_id + 100;
    objs.insert(GeoObject::Way(Way { id: way_id, tags: Tags::new(), nodes: node_ids }));
    let mut rel_tags = Tags::new();
    for (key, value) in tags {
        rel_tags.insert((*key).into(), (*value).into());
    }
    let refs = vec![Ref { member: OsmId::Way(way_id), role: "outer".into() }];
    objs.insert(GeoObject::Relation(Relation { id: first_id + 200, tags: rel_tags, refs }));
}

fn create_objects(tags: &[(&str, &str)], coordinates: &[[f64; 2]]) -> ObjectMap {
    let mut objs = ObjectMap::new();
    add_objects(tags, coordinates, 1, &mut objs);
    objs
}

fn build_coordinates(offset: f64) -> Vec<[f64; 2]> {
    vec![
        [offset, 52.],
        [offset + 1., 52.],
        [offset + 1., 53.],
        [offset, 53.],
    ]
}

fn from_points(points: &[[f64; 2]]) -> BoundingBox {
    let lons: Vec<i64> = points.iter().map(|p| decimicro(p[0]) as i64).collect();
    let lats: Vec<i64> = points.iter().map(|p| decimicro(p[1]) as i64).collect();
    BoundingBox {
        sw: (*lons.iter().min().unwrap(), *lats.iter().min().unwrap()),
        ne: (*lons.iter().max().unwrap(), *lats.iter().max().unwrap()),
    }
}

#[test]
fn geometry() {
    let tags = vec![
        ("boundary", "administrative"),
        ("name", "some_name"),
        ("admin_level", "11"),
    ];
    let coordinates = build_coordinates(13.);
    let objects = create_objects(&tags, &coordinates);

    let boundary = get_boundaries(&objects).pop().unwrap();
    let coordinates = boundary.geometry.coordinates();
    assert_eq!(coordinates.len(), 1);
    assert_eq!(coordinates[0].len(), 1);
    assert_eq!(coordinates[0][0].len(), 5);
    assert_eq!(boundary.name, "some_name");
    assert_eq!(boundary.admin_level, 11);
    assert_eq!(
        boundary.geometry.sw_ne(),
        ((130_000_000, 520_000_000), (140_000_000, 530_000_000))
    );
    let envelope = boundary.envelope();
    assert_eq!((envelope.sw, envelope.ne), boundary.geometry.sw_ne());
}

#[test]
fn boundary_with_multiple_nodes() {
    let tags = vec![
        ("boundary", "administrative"),
        ("name", "some_name"),
        ("admin_level", "11"),
    ];
    let coordinates = build_coordinates(13.);
    let objects = create_objects(&tags, &coordinates);

    let boundaries = get_boundaries(&objects);
    assert_eq!(boundaries.len(), 1);
}

#[test]
fn relation_with_wrong_tags() {
    let tags = vec![
        ("boundary", "wrong"),
        ("name", "some_name"),
        ("admin_level", "11"),
    ];
    let coordinates = build_coordinates(13.);
    let objects = create_objects(&tags, &coordinates);

    let boundaries = get_boundaries(&objects);
    assert_eq!(boundaries.len(), 0);
}

#[test]
fn relation_with_missing_or_odd_tags() {
    let coordinates = build_coordinates(13.);
    let cases: Vec<Vec<(&str, &str)>> = vec![
        vec![("boundary", "administrative"), ("admin_level", "11")],
        vec![("boundary", "administrative"), ("name", "n")],
        vec![("name", "n"), ("admin_level", "11")],
        vec![("boundary", "administrative"), ("name", "n"), ("admin_level", "eleven")],
        vec![("boundary", "administrative"), ("name", "n"), ("admin_level", "256")],
        vec![("boundary", "administrative"), ("name", "n"), ("admin_level", "-1")],
        vec![("boundary", "administrative"), ("name", "n"), ("admin_level", "")],
    ];
    for tags in cases {
        let objects = create_objects(&tags, &coordinates);
        assert_eq!(get_boundaries(&objects).len(), 0);
    }
    let levels = vec![("0", 0u8), ("255", 255u8), ("+4", 4u8), ("010", 10u8)];
    for (text, level) in levels {
        let tags = vec![("boundary", "administrative"), ("name", "n"), ("admin_level", text)];
        let objects = create_objects(&tags, &coordinates);
        let boundaries = get_boundaries(&objects);
        assert_eq!(boundaries.len(), 1);
        assert_eq!(boundaries[0].admin_level, level);
    }
}

fn relation(objs: &ObjectMap, id: i64) -> &Relation {
    match objs.get(OsmId::Relation(id)) {
        Some(GeoObject::Relation(relation)) => relation,
        _ => panic!("the relation is in the map"),
    }
}

#[test]
fn outline_of_several_ways_closes() {
    let mut objs = ObjectMap::new();
    let positions = [(0, 0), (10, 0), (10, 10), (0, 10)];
    for (idx, p) in positions.iter().enumerate() {
        objs.insert(GeoObject::Node(Node {
            id: idx as i64 + 1,
            tags: Tags::new(),
            decimicro_lon: p.0,
            decimicro_lat: p.1,
        }));
    }
    objs.insert(GeoObject::Way(Way { id: 11, tags: Tags::new(), nodes: vec![3, 4, 1] }));
    objs.insert(GeoObject::Way(Way { id: 12, tags: Tags::new(), nodes: vec![1, 2] }));
    objs.insert(GeoObject::Way(Way { id: 13, tags: Tags::new(), nodes: vec![3, 2] }));
    objs.insert(GeoObject::Way(Way { id: 14, tags: Tags::new(), nodes: vec![1, 3] }));
    objs.insert(GeoObject::Way(Way { id: 15, tags: Tags::new(), nodes: vec![77] }));
    let member = |id: i64, role: &str| Ref { member: OsmId::Way(id), role: role.into() };
    let refs = vec![
        member(11, "outer"),
        member(14, "inner"),
        member(12, ""),
        member(99, "outer"),
        member(15, "outer"),
        Ref { member: OsmId::Node(1), role: "admin_centre".into() },
        member(13, "outer"),
    ];
    objs.insert(GeoObject::Relation(Relation { id: 1, tags: Tags::new(), refs }));
    let polygons = build_boundary(relation(&objs, 1), &objs).unwrap();
    assert_eq!(
        polygons,
        vec![vec![vec![(10, 10), (0, 10), (0, 0), (10, 0), (10, 10)]]]
    );
    let open = vec![member(11, "outer"), member(12, "outer")];
    objs.insert(GeoObject::Relation(Relation { id: 2, tags: Tags::new(), refs: open }));
    assert!(build_boundary(relation(&objs, 2), &objs).is_none());
    objs.insert(GeoObject::Relation(Relation { id: 3, tags: Tags::new(), refs: vec![] }));
    assert!(build_boundary(relation(&objs, 3), &objs).is_none());
    objs.insert(GeoObject::Way(Way { id: 16, tags: Tags::new(), nodes: vec![1, 2, 1] }));
    let short = vec![member(16, "outer")];
    objs.insert(GeoObject::Relation(Relation { id: 4, tags: Tags::new(), refs: short }));
    assert!(build_boundary(relation(&objs, 4), &objs).is_none());
}

#[test]
fn locate_line_string_contained_in_boundary() {
    let tags = vec![
        ("boundary", "administrative"),
        ("name", "some_name"),
        ("admin_level", "11"),
    ];
    let coordinates = build_coordinates(13.);
    let objects = create_objects(&tags, &coordinates);

    let boundaries = get_boundaries(&objects);
    let tree = BoundaryTree::bulk_load(boundaries);
    let aabb = from_points(&vec![[13.25, 52.5], [13.74, 52.5]]);
    let matches = tree.locate_in_envelope_intersecting(&aabb);
    assert_eq!(matches.len(), 1);
}

#[test]
fn locate_line_string_intersecting_boundary() {
    let tags = vec![
        ("boundary", "administrative"),
        ("name", "some_name"),
        ("admin_level", "11"),
    ];
    let coordinates = build_coordinates(13.);
    let objects = create_objects(&tags, &coordinates);

    let boundaries = get_boundaries(&objects);
    let tree = BoundaryTree::bulk_load(boundaries);
    let aabb = from_points(&vec![[12.75, 52.5], [13.25, 52.5]]);
    let matches = tree.locate_in_envelope_intersecting(&aabb);
    assert_eq!(matches.len(), 1);
}

#[test]
fn locate_line_string_out_of_boundary() {
    let tags = vec![
        ("boundary", "administrative"),
        ("name", "some_name"),
        ("admin_level", "11"),
    ];
    let coordinates = build_coordinates(13.);
    let objects = create_objects(&tags, &coordinates);

    let boundaries = get_boundaries(&objects);
    let tree = BoundaryTree::bulk_load(boundaries);
    let aabb = from_points(&vec![[12.25, 52.5], [12.75, 52.5]]);
    let matches = tree.locate_in_envelope_intersecting(&aabb);
    assert_eq!(matches.len(), 0);
}

#[test]
fn locate_line_string_intersecting_two_boundaries() {
    let tags = vec![
        ("boundary", "administrative"),
        ("name", "some_name"),
        ("admin_level", "11"),
    ];
    let coordinates = build_coordinates(13.);
    let mut objects_1 = create_objects(&tags, &coordinates);

    let coordinates = build_coordinates(12.);
    add_objects(&tags, &coordinates, 1001, &mut objects_1);
    let boundaries = get_boundaries(&objects_1);
    assert_eq!(boundaries.len(), 2);
    let tree = BoundaryTree::bulk_load(boundaries);
    let aabb = from_points(&vec![[13.25, 52.5], [13.75, 52.5]]);
    let matches = tree.locate_in_envelope_intersecting(&aabb);
    assert_eq!(matches.len(), 1);

    let aabb = from_points(&vec![[12.5, 52.5], [13.5, 52.5]]);
    let matches = tree.locate_in_envelope_intersecting(&aabb);
    assert_eq!(matches.len(), 2);
}

#[test]
fn boundary_is_found_by_a_box_around_it() {
    let tags = vec![
        ("boundary", "administrative"),
        ("name", "some_name"),
        ("admin_level", "11"),
    ];
    let objects = create_objects(&tags, &build_coordinates(13.));
    let tree = BoundaryTree::bulk_load(get_boundaries(&objects));
    let around = from_points(&vec![[12., 51.], [15., 54.]]);
    assert_eq!(tree.locate_in_envelope_intersecting(&around), vec![0]);
    let apart = from_points(&vec![[15., 54.], [16., 55.]]);
    assert_eq!(tree.locate_in_envelope_intersecting(&apart), Vec::<usize>::new());
}

#[test]
fn holes_go_to_the_polygon_around_them() {
    let mut objs = ObjectMap::new();
    let mut next_node = 1;
    let mut add_ring = |objs: &mut ObjectMap, way_id: i64, corners: &[(i32, i32)]| {
        let mut nodes = vec![];
        for p in corners {
            objs.insert(GeoObject::Node(Node {
                id: next_node,
                tags: Tags::new(),
                decimicro_lon: p.0,
                decimicro_lat: p.1,
            }));
            nodes.push(next_node);
            next_node += 1;
        }
        nodes.push(nodes[0]);
        objs.insert(GeoObject::Way(Way { id: way_id, tags: Tags::new(), nodes }));
    };
    add_ring(&mut objs, 101, &[(0, 0), (10, 0), (10, 10), (0, 10)]);
    add_ring(&mut objs, 102, &[(20, 0), (30, 0), (30, 10), (20, 10)]);
    add_ring(&mut objs, 103, &[(22, 2), (24, 2), (24, 4), (22, 4)]);
    add_ring(&mut objs, 104, &[(50, 50), (51, 50), (51, 51), (50, 51)]);
    add_ring(&mut objs, 105, &[(2, 2), (4, 2), (4, 4), (2, 4)]);
    let member = |id: i64, role: &str| Ref { member: OsmId::Way(id), role: role.into() };
    let refs = vec![
        member(101, "outer"),
        member(103, "inner"),
        member(102, "enclave"),
        member(104, "inner"),
        member(105, "inner"),
        member(105, "subarea"),
    ];
    objs.insert(GeoObject::Relation(Relation { id: 1, tags: Tags::new(), refs }));
    let polygons = build_boundary(relation(&objs, 1), &objs).unwrap();
    assert_eq!(
        polygons,
        vec![
            vec![
                vec![(0, 0), (10, 0), (10, 10), (0, 10), (0, 0)],
                vec![(2, 2), (4, 2), (4, 4), (2, 4), (2, 2)],
            ],
            vec![
                vec![(20, 0), (30, 0), (30, 10), (20, 10), (20, 0)],
                vec![(22, 2), (24, 2), (24, 4), (22, 4), (22, 2)],
            ],
        ]
    );
    let only_inner = vec![member(103, "inner")];
    objs.insert(GeoObject::Relation(Relation { id: 2, tags: Tags::new(), refs: only_inner }));
    assert!(build_boundary(relation(&objs, 2), &objs).is_none());
    let odd_role = vec![member(101, "something")];
    objs.insert(GeoObject::Relation(Relation { id: 3, tags: Tags::new(), refs: odd_role }));
    assert!(build_boundary(relation(&objs, 3), &objs).is_none());
}

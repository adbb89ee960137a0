use osm_pbf2json::osm::{GeoObject, Node, ObjectMap, OsmId, Ref, Relation, Tags, Way};

#[test]
fn tags_keep_the_last_value() {
    let mut tags = Tags::new();
    assert_eq!(tags.get("name"), None);
    assert!(!tags.contains_key("name"));
    tags.insert("name".into(), "a".into());
    tags.insert("highway".into(), "primary".into());
    tags.insert("name".into(), "b".into());
    assert_eq!(tags.get("name"), Some(&String::from("b")));
    assert_eq!(tags.get("highway"), Some(&String::from("primary")));
    assert!(tags.contains_key("highway"));
    assert!(tags.contains("name", "b"));
    assert!(!tags.contains("name", "a"));
    assert!(!tags.contains("nam", "b"));
    assert!(!tags.contains("missing", ""));
}

#[test]
fn map_holds_each_id_once() {
    let mut objs = ObjectMap::new();
    assert_eq!(objs.len(), 0);
    assert!(objs.get(OsmId::Node(1)).is_none());
    objs.insert(GeoObject::Node(Node { id: 1, tags: Tags::new(), decimicro_lat: 5, decimicro_lon: 6 }));
    objs.insert(GeoObject::Way(Way { id: 1, tags: Tags::new(), nodes: vec![1] }));
    objs.insert(GeoObject::Relation(Relation {
        id: 1,
        tags: Tags::new(),
        refs: vec![Ref { member: OsmId::Way(1), role: "outer".into() }],
    }));
    assert_eq!(objs.len(), 3);
    objs.insert(GeoObject::Node(Node { id: 1, tags: Tags::new(), decimicro_lat: 7, decimicro_lon: 8 }));
    assert_eq!(objs.len(), 3);
    assert_eq!(objs.position(OsmId::Node(1)), Some(0));
    assert_eq!(objs.position(OsmId::Way(1)), Some(1));
    assert_eq!(objs.position(OsmId::Relation(1)), Some(2));
    assert_eq!(objs.position(OsmId::Relation(2)), None);
    match objs.get(OsmId::Node(1)) {
        Some(GeoObject::Node(node)) => assert_eq!((node.decimicro_lat, node.decimicro_lon), (7, 8)),
        _ => panic!("node 1 is in the map"),
    }
    assert_eq!(objs.at(1).id(), OsmId::Way(1));
    assert_eq!(objs.at(2).tags().get("x"), None);
}

use osm_pbf2json::filter::{
    build_admin_group, build_street_group, check_condition, check_group, default_levels, filter,
    parse, parse_condition, parse_group, Condition, Filter, Group,
};
use osm_pbf2json::osm::{GeoObject, Node, Tags};

fn new_node() -> Node {
    let tags = Tags::new();
    let id = 1;
    Node {
        id,
        tags,
        decimicro_lat: 0,
        decimicro_lon: 0,
    }
}

#[test]
fn filter_filter_single_group() {
    let condition = Condition::TagPresence("amenity".into());
    let conditions = vec![condition];
    let group = Group { conditions };

    let node = new_node();
    let obj = GeoObject::Node(node);

    assert_eq!(obj.filter(&[group.clone()]), false);
    assert_eq!(filter(&obj, &vec![group.clone()]), false);

    let mut node = new_node();
    node.tags.insert("amenity".into(), "theatre".into());
    let obj = GeoObject::Node(node);

    assert_eq!(obj.filter(&[group.clone()]), true);
    assert_eq!(filter(&obj, &vec![group.clone()]), true);
}

#[test]
fn filter_filter_value_match() {
    let condition = Condition::ValueMatch("amenity".into(), "theatre".into());
    let conditions = vec![condition];
    let group = Group { conditions };

    let mut node = new_node();
    node.tags.insert("amenity".into(), "theatre".into());
    let obj = GeoObject::Node(node);
    assert_eq!(obj.filter(&[group.clone()]), true);
    assert_eq!(filter(&obj, &vec![group.clone()]), true);

    let mut node = new_node();
    node.tags.insert("amenity".into(), "cinema".into());
    let obj = GeoObject::Node(node);
    assert_eq!(obj.filter(&[group.clone()]), false);
    assert_eq!(filter(&obj, &vec![group.clone()]), false);
}

#[test]
fn filter_filter_multiple_groups() {
    let condition = Condition::TagPresence("amenity".into());
    let conditions = vec![condition];
    let group_1 = Group { conditions };
    let condition = Condition::TagPresence("architect".into());
    let conditions = vec![condition];
    let group_2 = Group { conditions };

    let mut node = new_node();
    node.tags.insert("amenity".into(), "theatre".into());
    node.tags.insert("name".into(), "Waldbühne".into());
    let obj = GeoObject::Node(node);

    assert_eq!(obj.filter(&[group_1.clone(), group_2.clone()]), true);
    assert_eq!(filter(&obj, &vec![group_1, group_2]), true);
}

#[test]
fn filter_filter_multiple_conditions() {
    let condition_1 = Condition::TagPresence("amenity".into());
    let condition_2 = Condition::TagPresence("name".into());
    let condition_3 = Condition::TagPresence("architect".into());
    let conditions = vec![condition_1, condition_2.clone()];
    let group = Group { conditions };

    let mut node = new_node();
    node.tags.insert("amenity".into(), "theatre".into());
    node.tags.insert("name".into(), "Waldbühne".into());
    let obj = GeoObject::Node(node);

    assert_eq!(obj.filter(&[group.clone()]), true);
    assert_eq!(filter(&obj, &vec![group]), true);

    let conditions = vec![condition_2, condition_3];
    let group = Group { conditions };

    assert_eq!(obj.filter(&[group.clone()]), false);
    assert_eq!(filter(&obj, &vec![group]), false);
}

#[test]
fn filter_parse_single_group() {
    let condition = Condition::TagPresence("amenity".into());
    let conditions = vec![condition];
    let group = Group { conditions };

    assert_eq!(parse("amenity"), [group]);
}

#[test]
fn filter_parse_multiple_groups() {
    let condition_1 = Condition::TagPresence("amenity".into());
    let condition_2 = Condition::TagPresence("highway".into());
    let group_1 = Group {
        conditions: vec![condition_1],
    };
    let group_2 = Group {
        conditions: vec![condition_2],
    };

    assert_eq!(parse("amenity,highway"), [group_1, group_2]);
}

#[test]
fn filter_parse_multiple_conditions() {
    let condition_1 = Condition::TagPresence("amenity".into());
    let condition_2 = Condition::TagPresence("highway".into());
    let conditions = vec![condition_1, condition_2];
    let group = Group { conditions };

    assert_eq!(parse("amenity+highway"), vec![group]);
}

#[test]
fn filter_parse_value_match() {
    let condition = Condition::ValueMatch("amenity".into(), "theatre".into());
    let conditions = vec![condition];
    let group = Group { conditions };

    assert_eq!(parse("amenity~theatre"), vec![group]);
}

#[test]
fn parse_a_whole_selector() {
    let groups = parse("amenity~fountain+tourism,amenity~townhall");
    assert_eq!(groups.len(), 2);
    assert_eq!(
        groups[0].conditions,
        vec![
            Condition::ValueMatch("amenity".into(), "fountain".into()),
            Condition::TagPresence("tourism".into()),
        ]
    );
    assert_eq!(
        groups[1].conditions,
        vec![Condition::ValueMatch("amenity".into(), "townhall".into())]
    );
}

#[test]
fn parse_edges() {
    assert_eq!(parse(""), vec![Group { conditions: vec![Condition::TagPresence("".into())] }]);
    assert_eq!(
        parse("a,"),
        vec![
            Group { conditions: vec![Condition::TagPresence("a".into())] },
            Group { conditions: vec![Condition::TagPresence("".into())] },
        ]
    );
    assert_eq!(
        parse_group("+b"),
        Group { conditions: vec![Condition::TagPresence("".into()), Condition::TagPresence("b".into())] }
    );
    assert_eq!(parse_condition("k~v~w"), Condition::ValueMatch("k".into(), "v~w".into()));
    assert_eq!(parse_condition("k~"), Condition::ValueMatch("k".into(), "".into()));
    assert_eq!(parse_condition("~v"), Condition::ValueMatch("".into(), "v".into()));
    assert_eq!(parse_condition("Straße~Größe"), Condition::ValueMatch("Straße".into(), "Größe".into()));
    assert_eq!(parse("é+ü,ö~ä").len(), 2);
}

#[test]
fn conditions_and_groups_on_tags() {
    let mut tags = Tags::new();
    tags.insert("amenity".into(), "theatre".into());
    assert!(check_condition(&tags, &Condition::new("amenity", None)));
    assert!(check_condition(&tags, &Condition::new("amenity", Some("theatre"))));
    assert!(!check_condition(&tags, &Condition::new("amenity", Some("cinema"))));
    assert!(!check_condition(&tags, &Condition::new("name", None)));
    assert_eq!(Condition::new("a", None), Condition::TagPresence("a".into()));
    assert_eq!(Condition::new("a", Some("b")), Condition::ValueMatch("a".into(), "b".into()));
    assert!(check_group(&tags, &Group { conditions: vec![] }));
    let obj = GeoObject::Node(Node { id: 1, tags, decimicro_lat: 0, decimicro_lon: 0 });
    assert!(!obj.filter(&[]));
    assert!(obj.filter(&[Group { conditions: vec![] }]));
}

#[test]
fn groups_for_boundaries_and_streets() {
    assert_eq!(default_levels(), vec![4, 6, 8, 9, 10]);
    let groups = build_admin_group(vec![10, 4]);
    assert_eq!(
        groups,
        vec![
            Group {
                conditions: vec![
                    Condition::ValueMatch("boundary".into(), "administrative".into()),
                    Condition::ValueMatch("admin_level".into(), "10".into()),
                ]
            },
            Group {
                conditions: vec![
                    Condition::ValueMatch("boundary".into(), "administrative".into()),
                    Condition::ValueMatch("admin_level".into(), "4".into()),
                ]
            },
        ]
    );
    let streets = build_street_group(Some("Wilhelmstraße"));
    let kinds: Vec<Condition> = streets.iter().map(|g| g.conditions[0].clone()).collect();
    let expected: Vec<Condition> = [
        "primary",
        "secondary",
        "tertiary",
        "residential",
        "service",
        "living_street",
        "pedestrian",
    ]
    .iter()
    .map(|k| Condition::ValueMatch("highway".into(), (*k).into()))
    .collect();
    assert_eq!(kinds, expected);
    for g in streets.iter() {
        assert_eq!(g.conditions.len(), 2);
        assert_eq!(g.conditions[1], Condition::ValueMatch("name".into(), "Wilhelmstraße".into()));
    }
    let any = build_street_group(None);
    assert_eq!(any.len(), 7);
    assert_eq!(any[6].conditions[1], Condition::TagPresence("name".into()));
}

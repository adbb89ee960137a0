use osm_pbf2json::chainable::{chain, connect, extend_chain, Chainable, Connection, Prependable};

#[test]
fn tail() {
    let a = vec![1, 2, 3];
    let b = vec![3, 4, 5];
    let mut c = vec![a, b];
    c.merge();
    assert_eq!(c, vec![vec![1, 2, 3, 4, 5]]);
}

#[test]
fn head() {
    let a = vec![3, 4, 5];
    let b = vec![1, 2, 3];
    let mut c = vec![a, b];
    c.merge();
    assert_eq!(c, vec![vec![1, 2, 3, 4, 5]]);
}

#[test]
fn reverse_tail() {
    let a = vec![1, 2, 3];
    let b = vec![5, 4, 3];
    let mut c = vec![a, b];
    c.merge();
    assert_eq!(c, vec![vec![1, 2, 3, 4, 5]]);
}

#[test]
fn reverse_head() {
    let a = vec![3, 4, 5];
    let b = vec![3, 2, 1];
    let mut c = vec![a, b];
    c.merge();
    assert_eq!(c, vec![vec![1, 2, 3, 4, 5]]);
}

#[test]
fn disjointed() {
    let a = vec![5, 6, 7];
    let b = vec![1, 2, 3];
    let c = vec![3, 4, 5];
    let mut d = vec![a, b, c];
    d.merge();
    assert_eq!(d, vec![vec![1, 2, 3, 4, 5, 6, 7]]);
}

#[test]
fn unrelated() {
    let a = vec![1, 2, 3];
    let b = vec![4, 5, 6];
    let mut c = vec![a, b];
    c.merge();
    assert_eq!(c, vec![vec![1, 2, 3], vec![4, 5, 6]]);
}

#[test]
fn merge_tail() {
    let road_1 = vec![(1., 1.), (2., 2.)];
    let road_2 = vec![(2., 2.), (3., 3.)];

    let mut coordinates = vec![road_1, road_2];
    coordinates.merge();
    assert_eq!(coordinates, vec![vec![(1., 1.), (2., 2.), (3., 3.)]]);
}

#[test]
fn merge_disjointed() {
    let road_1 = vec![(3., 3.), (4., 4.)];
    let road_2 = vec![(1., 1.), (2., 2.)];
    let road_3 = vec![(2., 2.), (3., 3.)];

    let mut coordinates = vec![road_1, road_2, road_3];
    coordinates.merge();
    assert_eq!(
        coordinates,
        vec![vec![(1., 1.), (2., 2.), (3., 3.), (4., 4.)]]
    );
}

#[test]
fn merge_head() {
    let road_1 = vec![(2., 2.), (3., 3.)];
    let road_2 = vec![(1., 1.), (2., 2.)];

    let mut coordinates = vec![road_1, road_2];
    coordinates.merge();
    assert_eq!(coordinates, vec![vec![(1., 1.), (2., 2.), (3., 3.)]]);
}

#[test]
fn merge_reverse_tail() {
    let road_1 = vec![(1., 1.), (2., 2.)];
    let road_2 = vec![(3., 3.), (2., 2.)];

    let mut coordinates = vec![road_1, road_2];
    coordinates.merge();
    assert_eq!(coordinates, vec![vec![(1., 1.), (2., 2.), (3., 3.)]]);
}

#[test]
fn merge_reverse_head() {
    let road_1 = vec![(2., 2.), (3., 3.)];
    let road_2 = vec![(2., 2.), (1., 1.)];

    let mut coordinates = vec![road_1, road_2];
    coordinates.merge();
    assert_eq!(coordinates, vec![vec![(1., 1.), (2., 2.), (3., 3.)]]);
}

#[test]
fn single_pass_leaves_a_bridge_open() {
    let mut fragments = vec![vec![5, 6, 7], vec![1, 2, 3], vec![3, 4, 5]];
    let once = chain(&mut fragments);
    assert_eq!(once, vec![vec![3, 4, 5, 6, 7], vec![1, 2, 3]]);
    assert_eq!(fragments, vec![vec![5, 6, 7], vec![1, 2, 3], vec![3, 4, 5]]);
    let mut again = once;
    let twice = chain(&mut again);
    assert_eq!(twice, vec![vec![1, 2, 3, 4, 5, 6, 7]]);
}

#[test]
fn first_matching_chain_wins() {
    let mut fragments = vec![vec![1, 2], vec![5, 6], vec![2, 5]];
    let chains = chain(&mut fragments);
    assert_eq!(chains, vec![vec![1, 2, 5], vec![5, 6]]);
    let mut fragments = vec![vec![1, 2], vec![8, 2], vec![2, 9]];
    assert_eq!(chain(&mut fragments), vec![vec![1, 2, 8], vec![2, 9]]);
    let mut apart = vec![vec![1, 2], vec![7, 8], vec![2, 7]];
    assert_eq!(chain(&mut apart), vec![vec![1, 2, 7], vec![7, 8]]);
}

#[test]
fn empty_fragments_stay_apart() {
    let mut fragments: Vec<Vec<i32>> = vec![vec![], vec![1, 2], vec![], vec![2, 3]];
    fragments.merge();
    assert_eq!(fragments, vec![vec![], vec![1, 2, 3], vec![]]);
    let mut nothing: Vec<Vec<i32>> = vec![];
    nothing.merge();
    assert_eq!(nothing.len(), 0);
}

#[test]
fn connections_in_their_order() {
    assert_eq!(connect(&vec![1, 2], &vec![2, 3]), Some(Connection::Tail));
    assert_eq!(connect(&vec![2, 3], &vec![1, 2]), Some(Connection::Head));
    assert_eq!(connect(&vec![1, 2], &vec![3, 2]), Some(Connection::ReverseTail));
    assert_eq!(connect(&vec![2, 3], &vec![2, 1]), Some(Connection::ReverseHead));
    assert_eq!(connect(&vec![1, 2], &vec![3, 4]), None);
    assert_eq!(connect(&vec![1, 2], &vec![2, 1]), Some(Connection::Tail));
    assert_eq!(connect(&Vec::<i32>::new(), &vec![2, 1]), None);
    assert_eq!(connect(&vec![2, 1], &Vec::<i32>::new()), None);
}

#[test]
fn attaching_keeps_the_shared_point_once() {
    let mut chain = vec![1, 2, 3];
    extend_chain(&mut chain, &vec![3, 4, 5], Connection::Tail);
    assert_eq!(chain, vec![1, 2, 3, 4, 5]);
    let mut chain = vec![3, 4, 5];
    extend_chain(&mut chain, &vec![1, 2, 3], Connection::Head);
    assert_eq!(chain, vec![1, 2, 3, 4, 5]);
    let mut chain = vec![1, 2, 3];
    extend_chain(&mut chain, &vec![5, 4, 3], Connection::ReverseTail);
    assert_eq!(chain, vec![1, 2, 3, 4, 5]);
    let mut chain = vec![3, 4, 5];
    extend_chain(&mut chain, &vec![3, 2, 1], Connection::ReverseHead);
    assert_eq!(chain, vec![1, 2, 3, 4, 5]);
}

#[test]
fn prepending_and_reversing() {
    let mut v = vec![4, 5];
    v.prepend(&[1, 2, 3]);
    assert_eq!(v, vec![1, 2, 3, 4, 5]);
    let mut v = vec![4, 5];
    v.reverse_prepend(&[3, 2, 1]);
    assert_eq!(v, vec![1, 2, 3, 4, 5]);
    let mut v = vec![1, 2];
    v.reverse_extend(&[5, 4, 3]);
    assert_eq!(v, vec![1, 2, 3, 4, 5]);
}

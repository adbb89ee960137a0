use osm_pbf2json::geo::{BoundaryGeometry, BoundingBox, GeometryError, SegmentGeometry};

const DEGREE: i32 = 10_000_000;

fn point(lon: i32, lat: i32) -> (i32, i32) {
    (lon * DEGREE, lat * DEGREE)
}

#[test]
fn segment_needs_a_point() {
    let built = SegmentGeometry::new(vec![]);
    assert!(matches!(built, Err(GeometryError::NoBoundingBox)));
    assert_eq!(
        GeometryError::NoBoundingBox.message(),
        "cannot get bounding box for the given set of coordinates"
    );
    let single = SegmentGeometry::new(vec![(3, -4)]).unwrap();
    assert_eq!(single.len(), 1);
    assert_eq!(single.sw_ne(), ((3, -4), (3, -4)));
    assert_eq!(single.length_squared(), 0);
}

#[test]
fn segment_bounding_box() {
    let geometry = SegmentGeometry::new(vec![(9, 50), (9, 51), (10, 51), (7, 53)]).unwrap();
    assert_eq!(geometry.len(), 4);
    assert_eq!(geometry.sw_ne(), ((7, 50), (10, 53)));
    assert_eq!(geometry.coordinates(), vec![(9, 50), (9, 51), (10, 51), (7, 53)]);
    assert_eq!(geometry.clone().coordinates(), geometry.coordinates());
}

#[test]
fn padding_grows_every_side() {
    let geometry = SegmentGeometry::new(vec![(9, 50), (10, 51)]).unwrap();
    assert_eq!(geometry.padded_sw_ne(2), ((7, 48), (12, 53)));
    assert_eq!(geometry.padded_sw_ne(0), geometry.sw_ne());
    assert_eq!(geometry.sw_ne(), ((9, 50), (10, 51)));
    let b = BoundingBox { sw: (1, 2), ne: (3, 4) };
    let grown = b.pad(10);
    assert_eq!((grown.sw, grown.ne), ((-9, -8), (13, 14)));
    assert_eq!((b.sw, b.ne), ((1, 2), (3, 4)));
}

#[test]
fn padding_at_the_edge_of_the_grid() {
    let geometry = SegmentGeometry::new(vec![(i32::MIN, i32::MIN), (i32::MAX, i32::MAX)]).unwrap();
    let (sw, ne) = geometry.padded_sw_ne(i32::MAX);
    assert_eq!(sw, (i32::MIN as i64 - i32::MAX as i64, i32::MIN as i64 - i32::MAX as i64));
    assert_eq!(ne, (2 * (i32::MAX as i64), 2 * (i32::MAX as i64)));
    let d = (i32::MAX as i64 - i32::MIN as i64) as u128;
    assert_eq!(geometry.length_squared(), 2 * d * d);
}

#[test]
fn length_is_the_diagonal_of_the_box() {
    let geometry = SegmentGeometry::new(vec![(0, 0), (3, 1), (1, 4)]).unwrap();
    assert_eq!(geometry.length_squared(), 25);
    let flat = SegmentGeometry::new(vec![point(0, 1), point(0, 3)]).unwrap();
    assert_eq!(flat.length_squared(), 4 * (DEGREE as u128) * (DEGREE as u128));
}

#[test]
fn segments_that_touch_intersect() {
    let a = SegmentGeometry::new(vec![point(0, 1), point(3, 1)]).unwrap();
    let b = SegmentGeometry::new(vec![point(3, 1), point(2, 3)]).unwrap();
    let c = SegmentGeometry::new(vec![point(2, 0), point(2, 3)]).unwrap();
    let d = SegmentGeometry::new(vec![point(5, 5), point(6, 6)]).unwrap();
    assert!(a.intersects(&b));
    assert!(b.intersects(&a));
    assert!(a.intersects(&c));
    assert!(!a.intersects(&d));
    let e = SegmentGeometry::new(vec![point(1, 1), point(3, 3)]).unwrap();
    let f = SegmentGeometry::new(vec![point(2, 0), point(3, 2)]).unwrap();
    assert!(!e.intersects(&f));
    let dot = SegmentGeometry::new(vec![point(3, 1)]).unwrap();
    let same_dot = SegmentGeometry::new(vec![point(3, 1)]).unwrap();
    let other_dot = SegmentGeometry::new(vec![point(3, 2)]).unwrap();
    let stuttering = SegmentGeometry::new(vec![point(7, 7), point(7, 7), point(3, 1), point(3, 1)]).unwrap();
    assert!(dot.intersects(&a));
    assert!(a.intersects(&dot));
    assert!(dot.intersects(&same_dot));
    assert!(!dot.intersects(&other_dot));
    assert!(stuttering.intersects(&dot));
    assert!(stuttering.intersects(&b));
    assert!(b.intersects(&stuttering));
    assert!(!stuttering.intersects(&c));
    let far = SegmentGeometry::new(vec![(i32::MIN, i32::MIN), (i32::MAX, i32::MAX)]).unwrap();
    let wide = SegmentGeometry::new(vec![(i32::MIN, i32::MAX), (i32::MAX, i32::MIN)]).unwrap();
    assert!(far.intersects(&wide));
}

fn square(offset: i32) -> Vec<(i32, i32)> {
    vec![
        point(offset, 52),
        point(offset + 1, 52),
        point(offset + 1, 53),
        point(offset, 53),
        point(offset, 52),
    ]
}

#[test]
fn boundary_needs_a_point() {
    assert!(matches!(BoundaryGeometry::new(vec![]), Err(GeometryError::NoBoundingBox)));
    assert!(matches!(BoundaryGeometry::new(vec![vec![]]), Err(GeometryError::NoBoundingBox)));
    assert!(matches!(
        BoundaryGeometry::new(vec![vec![vec![]], vec![]]),
        Err(GeometryError::NoBoundingBox)
    ));
    assert!(BoundaryGeometry::new(vec![vec![vec![]], vec![vec![(1, 2)]]]).is_ok());
}

#[test]
fn boundary_bounding_box_and_coordinates() {
    let polygons = vec![vec![square(13)], vec![square(10), vec![point(10, 52)]]];
    let geometry = BoundaryGeometry::new(polygons.clone()).unwrap();
    assert_eq!(geometry.sw_ne(), ((10 * DEGREE as i64, 52 * DEGREE as i64), (14 * DEGREE as i64, 53 * DEGREE as i64)));
    assert_eq!(geometry.coordinates(), polygons);
    assert_eq!(geometry.clone().coordinates(), polygons);
}

#[test]
fn boundary_intersects_lines_that_reach_it() {
    let geometry = BoundaryGeometry::new(vec![vec![], vec![square(13)]]).unwrap();
    let inside = SegmentGeometry::new(vec![(132_500_000, 525_000_000), (137_400_000, 525_000_000)]).unwrap();
    let crossing = SegmentGeometry::new(vec![(127_500_000, 525_000_000), (132_500_000, 525_000_000)]).unwrap();
    let outside = SegmentGeometry::new(vec![(122_500_000, 525_000_000), (127_500_000, 525_000_000)]).unwrap();
    assert!(geometry.intersects(&inside));
    assert!(geometry.intersects(&crossing));
    assert!(!geometry.intersects(&outside));
}

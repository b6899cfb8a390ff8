use evolution_sim::region::{Point, Region};

#[test]
fn new_orders_the_corners() {
    let r = Region::new(10, -5, -10, 5);
    assert_eq!(r.min, Point::new(-10, -5));
    assert_eq!(r.max, Point::new(10, 5));
    assert_eq!(r, Region::new(-10, -5, 10, 5));
}

#[test]
fn contains_point_includes_the_edges() {
    let r = Region::new(0, 0, 10, 10);
    assert!(r.contains_point(Point::new(0, 0)));
    assert!(r.contains_point(Point::new(10, 10)));
    assert!(r.contains_point(Point::new(5, 10)));
    assert!(!r.contains_point(Point::new(11, 5)));
    assert!(!r.contains_point(Point::new(5, -1)));
}

#[test]
fn contains_region_includes_the_edges() {
    let r = Region::new(0, 0, 10, 10);
    assert!(r.contains_region(&r));
    assert!(r.contains_region(&Region::new(0, 0, 5, 5)));
    assert!(r.contains_region(&Region::new(5, 5, 10, 10)));
    assert!(!r.contains_region(&Region::new(5, 5, 11, 10)));
    assert!(!r.contains_region(&Region::new(-1, 0, 5, 5)));
}

#[test]
fn intersects_counts_a_shared_edge() {
    let r = Region::new(0, 0, 10, 10);
    assert!(r.intersects(&Region::new(10, 0, 20, 10)));
    assert!(r.intersects(&Region::new(10, 10, 20, 20)));
    assert!(r.intersects(&Region::new(2, 2, 3, 3)));
    assert!(r.intersects(&Region::new(-5, -5, 50, 50)));
    assert!(!r.intersects(&Region::new(11, 0, 20, 10)));
    assert!(!r.intersects(&Region::new(0, -20, 10, -1)));
}

#[test]
fn center_rounds_towards_the_minimum_corner() {
    assert_eq!(Region::new(-100, -100, 100, 100).center(), Point::new(0, 0));
    assert_eq!(Region::new(0, 0, 5, 7).center(), Point::new(2, 3));
    assert_eq!(Region::new(-5, -7, 0, 0).center(), Point::new(-3, -4));
    assert_eq!(Region::new(3, 3, 3, 3).center(), Point::new(3, 3));
}

#[test]
fn center_of_the_whole_grid_does_not_overflow() {
    let r = Region::new(i64::MIN, i64::MIN, i64::MAX, i64::MAX);
    assert_eq!(r.center(), Point::new(-1, -1));
    let q = r.quadrants();
    assert_eq!(q[0], Region::new(-1, -1, i64::MAX, i64::MAX));
    assert_eq!(q[3], Region::new(i64::MIN, i64::MIN, -1, -1));
}

#[test]
fn quadrants_come_north_east_north_west_south_east_south_west() {
    let q = Region::new(-100, -100, 100, 100).quadrants();
    assert_eq!(q[0], Region::new(0, 0, 100, 100));
    assert_eq!(q[1], Region::new(-100, 0, 0, 100));
    assert_eq!(q[2], Region::new(0, -100, 100, 0));
    assert_eq!(q[3], Region::new(-100, -100, 0, 0));
}

#[test]
fn quadrants_cover_the_region_and_share_only_edges() {
    let r = Region::new(-3, 2, 8, 9);
    let q = r.quadrants();
    let c = r.center();
    for x in -4..10 {
        for y in 0..11 {
            let p = Point::new(x, y);
            let holders = q.iter().filter(|k| k.contains_point(p)).count();
            assert_eq!(holders > 0, r.contains_point(p));
            if holders > 1 {
                assert!(x == c.x || y == c.y);
            }
        }
    }
    for k in q.iter() {
        assert!(r.contains_region(k));
    }
}

#[test]
fn regions_with_corners_in_order_are_well_formed() {
    assert!(Region::new(5, 5, -5, -5).is_well_formed());
    assert!(Region { min: Point::new(0, 0), max: Point::new(0, 0) }.is_well_formed());
    assert!(!Region { min: Point::new(1, 0), max: Point::new(0, 5) }.is_well_formed());
    assert!(!Region { min: Point::new(0, 6), max: Point::new(5, 5) }.is_well_formed());
}

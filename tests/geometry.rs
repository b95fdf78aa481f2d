use boids::coord::Coord;
use boids::region::Region;

fn region(x: i32, y: i32, w: i32, h: i32) -> Region {
    Region::new(Coord::new(x, y), Coord::new(w, h))
}

#[test]
fn coord_arithmetic() {
    let a = Coord::new(3, -4);
    let b = Coord::new(10, 20);
    assert_eq!(a.add(b), Coord::new(13, 16));
    assert_eq!(a.sub(b), Coord::new(-7, -24));
    assert_eq!(b.project_x(), Coord::new(10, 0));
    assert_eq!(b.project_y(), Coord::new(0, 20));
}

#[test]
fn coord_division_truncates() {
    assert_eq!(Coord::new(7, -7).div(2), Coord::new(3, -3));
    assert_eq!(Coord::new(7, -7).div(-2), Coord::new(-3, 3));
    assert_eq!(Coord::new(i32::MIN, 5).div(i32::MIN), Coord::new(1, 0));
}

#[test]
fn intersects_is_symmetric_and_reflexive() {
    let a = region(0, 0, 5, 5);
    let b = region(5, 5, 10, 10);
    let c = region(6, 0, 9, 4);
    assert!(a.intersects(&b) && b.intersects(&a));
    assert!(!a.intersects(&c) && !c.intersects(&a));
    assert!(a.intersects(&a));
    assert!(c.intersects(&c));
}

#[test]
fn with_margin_grows_every_side() {
    assert_eq!(region(0, 0, 5, 5).with_margin(3), region(-3, -3, 8, 8));
    assert_eq!(region(0, 0, 5, 5).with_margin(0), region(0, 0, 5, 5));
}

#[test]
fn quad_divide_even() {
    let q = region(0, 0, 10, 10).quad_divide();
    assert_eq!(q[0], region(0, 5, 5, 10));
    assert_eq!(q[1], region(5, 5, 10, 10));
    assert_eq!(q[2], region(0, 0, 5, 5));
    assert_eq!(q[3], region(5, 0, 10, 5));
}

#[test]
fn quad_divide_odd_splits_at_floor_midpoint() {
    let q = region(0, 0, 5, 7).quad_divide();
    assert_eq!(q[0], region(0, 3, 2, 7));
    assert_eq!(q[1], region(2, 3, 5, 7));
    assert_eq!(q[2], region(0, 0, 2, 3));
    assert_eq!(q[3], region(2, 0, 5, 3));
    let q = region(0, 0, 3, 3).quad_divide();
    assert_eq!(q[0], region(0, 1, 1, 3));
    assert_eq!(q[1], region(1, 1, 3, 3));
}

#[test]
fn quad_divide_negative_corner() {
    let q = region(-8, -6, 8, 6).quad_divide();
    assert_eq!(q[0], region(-8, 0, 0, 6));
    assert_eq!(q[1], region(0, 0, 8, 6));
    assert_eq!(q[2], region(-8, -6, 0, 0));
    assert_eq!(q[3], region(0, -6, 8, 0));
}

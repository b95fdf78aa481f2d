use boids::coord::Coord;
use boids::flock::{bounce, neighbours, rebuild, turns_back, Collider, BORDER_MARGIN};
use boids::region::Region;
use boids::slot_map::SlotId;
use boids::tree::QuadTree;

fn region(x: i32, y: i32, w: i32, h: i32) -> Region {
    Region::new(Coord::new(x, y), Coord::new(w, h))
}

#[test]
fn collider_square_around_position() {
    let c = Collider::new(5);
    assert!(c.id.is_none());
    assert_eq!(c.nearby, 0);
    assert_eq!(c.into_region(10, -4), region(8, -6, 12, -2));
    assert_eq!(Collider::new(10).into_region(0, 0), region(-5, -5, 5, 5));
}

#[test]
fn rebuild_issues_handles_in_agent_order() {
    let mut tree = QuadTree::<&str>::new(region(-100, -100, 100, 100));
    tree.insert(region(0, 0, 1, 1), "stale");
    let items = vec![(region(0, 0, 2, 2), "a"), (region(50, 50, 52, 52), "b"), (region(-9, -9, -7, -7), "c")];
    let ids = rebuild(&mut tree, items);
    assert_eq!(ids, vec![SlotId::new(0), SlotId::new(1), SlotId::new(2)]);
    assert_eq!(tree.value_count(), 3);
    let none: Vec<SlotId> = vec![];
    let found = tree.query(&region(49, 49, 53, 53), &none);
    assert_eq!(found.len(), 1);
    assert_eq!(*found[0], "b");
}

#[test]
fn neighbours_skip_self_and_use_margin() {
    let mut tree = QuadTree::<u32>::new(region(-100, -100, 100, 100));
    let c = Collider::new(4);
    let items = vec![(c.into_region(0, 0), 0), (c.into_region(9, 0), 1), (c.into_region(30, 30), 2)];
    let ids = rebuild(&mut tree, items);
    let own = Some(ids[0].clone());
    let near = neighbours(&tree, &c.into_region(0, 0), 0, &own);
    assert_eq!(near.len(), 0);
    let near = neighbours(&tree, &c.into_region(0, 0), 5, &own);
    assert_eq!(near.len(), 1);
    assert_eq!(*near[0], 1);
    let near = neighbours(&tree, &c.into_region(0, 0), 5, &None);
    assert_eq!(near.len(), 2);
}

#[test]
fn isolated_agent_sees_nobody_and_keeps_course_away_from_edges() {
    let world = region(-640, -360, 640, 360);
    let mut tree = QuadTree::<u32>::new(world);
    let c = Collider::new(5);
    let ids = rebuild(&mut tree, vec![(c.into_region(0, 0), 7)]);
    let near = neighbours(&tree, &c.into_region(0, 0), 10, &Some(ids[0].clone()));
    assert!(near.is_empty());
    assert_eq!(bounce(&world, 0, 0, 1, -1), (false, false));
    assert_eq!(bounce(&world, 630, 0, 1, 1), (true, false));
    assert_eq!(bounce(&world, 630, 0, -1, 1), (false, false));
    assert_eq!(bounce(&world, 0, -350, 1, -1), (false, true));
}

#[test]
fn border_margin_edges() {
    let low = -100;
    let high = 100;
    assert!(turns_back(low + BORDER_MARGIN - 1, -1, low, high));
    assert!(!turns_back(low + BORDER_MARGIN, -1, low, high));
    assert!(turns_back(high - BORDER_MARGIN + 1, 3, low, high));
    assert!(!turns_back(high - BORDER_MARGIN, 3, low, high));
    assert!(!turns_back(high, 0, low, high));
    assert!(turns_back(i32::MIN, -1, i32::MIN, i32::MAX));
}

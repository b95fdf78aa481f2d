use boids::coord::Coord;
use boids::region::Region;
use boids::slot_map::SlotId;
use boids::tree::QuadTree;

fn region(x: i32, y: i32, w: i32, h: i32) -> Region {
    Region::new(Coord::new(x, y), Coord::new(w, h))
}

#[test]
fn insert() {
    let mut graph = QuadTree::<usize>::new(region(0, 0, 10, 10));

    let reg1 = region(0, 0, 5, 5);
    let reg2 = region(5, 5, 10, 10);

    graph.insert(reg1, 1);
    graph.insert(reg2, 2);

    assert_eq!(graph.value_count(), 2);

    let exclude: Vec<SlotId> = vec![];
    let query_region = region(0, 0, 10, 10);
    let result = graph.query(&query_region, &exclude);

    assert_eq!(result.len(), 2);

    let query_region = region(0, 0, 4, 5);
    let result = graph.query(&query_region, &exclude);

    assert_eq!(result.len(), 1);
}

#[test]
fn query() {
    let mut graph = QuadTree::<usize>::new(region(0, 0, 10, 10));

    let reg1 = region(0, 0, 5, 5);
    let reg2 = region(5, 5, 10, 10);
    let reg3 = region(4, 4, 6, 6);

    let _reg1_id = graph.insert(reg1, 1);
    let reg2_id = graph.insert(reg2, 2);
    let _reg3_id = graph.insert(reg3, 3);

    // exclude one of the three matches
    let exclude: Vec<SlotId> = vec![reg2_id];
    let query_region = region(0, 0, 10, 10);
    let result = graph.query(&query_region, &exclude);
    assert_eq!(result.len(), 2);

    // a window touched by two items
    let query_region = region(6, 6, 7, 7);
    let exclude: Vec<SlotId> = vec![];
    let result = graph.query(&query_region, &exclude);
    assert_eq!(result.len(), 2);

    // the value comes back
    let query_region = region(7, 7, 8, 8);
    let exclude: Vec<SlotId> = vec![];
    let result = graph.query(&query_region, &exclude);
    assert_eq!(result.len(), 1);

    let val = result[0].clone();
    assert_eq!(val, 2)
}

#[test]
fn scenario_two_items_in_two_windows() {
    let mut graph = QuadTree::<usize>::new(region(0, 0, 10, 10));
    graph.insert(region(0, 0, 5, 5), 1);
    graph.insert(region(5, 5, 10, 10), 2);
    let none: Vec<SlotId> = vec![];
    let part = graph.query(&region(0, 0, 4, 5), &none);
    assert_eq!(part.len(), 1);
    assert_eq!(*part[0], 1);
    let all = graph.query(&region(0, 0, 10, 10), &none);
    assert_eq!(all.len(), 2);
}

#[test]
fn scenario_three_items_one_window() {
    let mut graph = QuadTree::<usize>::new(region(0, 0, 10, 10));
    graph.insert(region(0, 0, 5, 5), 1);
    graph.insert(region(5, 5, 10, 10), 2);
    graph.insert(region(4, 4, 6, 6), 3);
    let none: Vec<SlotId> = vec![];
    let result = graph.query(&region(7, 7, 8, 8), &none);
    assert_eq!(result.len(), 1);
    assert_eq!(*result[0], 2);
}

/// Fills a 100 by 100 world with `n` unit squares on a grid, enough to split
/// the root several times.
fn filled(n: i32) -> QuadTree<i32> {
    let mut graph = QuadTree::<i32>::new(region(0, 0, 100, 100));
    for i in 0..n {
        let x = (i % 10) * 10 + 2;
        let y = (i / 10) * 10 + 2;
        graph.insert(region(x, y, x + 1, y + 1), i);
    }
    graph
}

#[test]
fn round_trip_returns_every_item_once() {
    let graph = filled(60);
    assert!(graph.get_regions().len() > 1);
    let none: Vec<SlotId> = vec![];
    let result = graph.query(&region(0, 0, 100, 100), &none);
    assert_eq!(result.len(), 60);
    let mut seen: Vec<i32> = result.iter().map(|v| **v).collect();
    seen.sort();
    assert_eq!(seen, (0..60).collect::<Vec<i32>>());
}

#[test]
fn excluded_item_is_left_out() {
    let mut graph = filled(30);
    let own = graph.insert(region(40, 40, 60, 60), 99);
    let with_own: Vec<SlotId> = vec![own];
    let result = graph.query(&region(45, 45, 55, 55), &with_own);
    assert!(result.iter().all(|v| **v != 99));
    let none: Vec<SlotId> = vec![];
    let result = graph.query(&region(45, 45, 55, 55), &none);
    assert!(result.iter().any(|v| **v == 99));
}

#[test]
fn straddling_item_comes_back_once() {
    let mut graph = filled(40);
    // crosses both split lines of the world
    graph.insert(region(45, 45, 55, 55), 1000);
    assert!(graph.get_regions().len() >= 4);
    let none: Vec<SlotId> = vec![];
    let result = graph.query(&region(0, 0, 100, 100), &none);
    assert_eq!(result.iter().filter(|v| ***v == 1000).count(), 1);
    assert_eq!(result.len(), 41);
}

#[test]
fn clear_resets_items_and_handles() {
    let mut graph = filled(30);
    graph.clear();
    assert_eq!(graph.value_count(), 0);
    assert_eq!(graph.get_regions().len(), 1);
    let none: Vec<SlotId> = vec![];
    assert_eq!(graph.query(&region(0, 0, 100, 100), &none).len(), 0);
    let stale: Vec<SlotId> = vec![SlotId::new(3)];
    assert_eq!(graph.query(&region(0, 0, 100, 100), &stale).len(), 0);
    let first = graph.insert(region(1, 1, 2, 2), 7);
    assert_eq!(first.index(), 0);
    let second = graph.insert(region(3, 3, 4, 4), 8);
    assert_eq!(second.index(), 1);
}

#[test]
fn handles_are_issued_in_order() {
    let mut graph = QuadTree::<u8>::new(region(0, 0, 10, 10));
    for i in 0..5u64 {
        let id = graph.insert(region(1, 1, 2, 2), i as u8);
        assert_eq!(id, SlotId::new(i));
    }
}

#[test]
fn size_is_the_world() {
    let graph = QuadTree::<u8>::new(region(-640, -360, 640, 360));
    assert_eq!(*graph.size(), region(-640, -360, 640, 360));
}

#[test]
fn item_outside_a_window_is_not_returned() {
    let mut graph = QuadTree::<u8>::new(region(0, 0, 10, 10));
    graph.insert(region(8, 8, 9, 9), 1);
    let none: Vec<SlotId> = vec![];
    assert_eq!(graph.query(&region(0, 0, 7, 7), &none).len(), 0);
    // touching edges count
    assert_eq!(graph.query(&region(0, 0, 8, 8), &none).len(), 1);
}

use boids::coord::Coord;
use boids::node::QuadNode;
use boids::region::Region;
use boids::slot_map::{SlotId, SlotMap};
use boids::{MAX_CELL_SIZE, MAX_DEPTH};

fn region(x: i32, y: i32, w: i32, h: i32) -> Region {
    Region::new(Coord::new(x, y), Coord::new(w, h))
}

/// A store and a cell over a 100 by 100 world holding `n` unit squares.
fn cell_with(n: i32) -> (SlotMap<Region>, QuadNode, Vec<SlotId>) {
    let mut store = SlotMap::<Region>::new();
    let mut node = QuadNode::new(region(0, 0, 100, 100), 0);
    let mut ids = Vec::new();
    for i in 0..n {
        let x = (i % 10) * 10 + 2;
        let y = (i / 10) * 10 + 2;
        let id = store.insert(region(x, y, x + 1, y + 1));
        node.insert(&id, &store);
        ids.push(id);
    }
    (store, node, ids)
}

#[test]
fn leaf_splits_past_cell_size() {
    let (_, node, _) = cell_with(MAX_CELL_SIZE as i32);
    assert_eq!(node.get_regions().len(), 1);
    let (_, node, _) = cell_with(MAX_CELL_SIZE as i32 + 1);
    let cells: Vec<Region> = node.get_regions().into_iter().cloned().collect();
    assert_eq!(cells, region(0, 0, 100, 100).quad_divide().to_vec());
    assert_eq!(node.value_count_rec(), MAX_CELL_SIZE + 1);
    assert_eq!(*node.size(), region(0, 0, 100, 100));
}

#[test]
fn cell_at_depth_limit_never_splits() {
    let mut store = SlotMap::<Region>::new();
    let mut node = QuadNode::new(region(0, 0, 100, 100), MAX_DEPTH);
    for i in 0..30 {
        let id = store.insert(region(i, i, i + 1, i + 1));
        node.insert(&id, &store);
    }
    assert_eq!(node.get_regions().len(), 1);
    assert_eq!(node.value_count_rec(), 30);
}

#[test]
fn straddling_handle_is_held_by_several_leaves() {
    let (mut store, mut node, _) = cell_with(20);
    let id = store.insert(region(45, 45, 55, 55));
    node.insert(&id, &store);
    let none: Vec<SlotId> = vec![];
    let raw = node.query(&region(0, 0, 100, 100), &store, &none);
    assert!(raw.iter().filter(|h| ***h == id).count() >= 2);
    let only: Vec<SlotId> = vec![id.clone()];
    let raw = node.query(&region(0, 0, 100, 100), &store, &only);
    assert!(raw.iter().all(|h| **h != id));
}

#[test]
fn remove_collapses_small_parent() {
    let (store, mut node, ids) = cell_with(MAX_CELL_SIZE as i32 + 1);
    assert_eq!(node.get_regions().len(), 4);
    node.remove(&ids[0], &store);
    node.remove(&ids[1], &store);
    assert_eq!(node.get_regions().len(), 1);
    assert_eq!(node.value_count_rec(), MAX_CELL_SIZE - 1);
    let none: Vec<SlotId> = vec![];
    let raw = node.query(&region(0, 0, 100, 100), &store, &none);
    assert!(raw.iter().all(|h| **h != ids[0] && **h != ids[1]));
    assert_eq!(raw.len(), MAX_CELL_SIZE - 1);
}

#[test]
fn drain_empties_leaves_and_keeps_shape() {
    let (_, mut node, ids) = cell_with(15);
    let shape = node.get_regions().len();
    let mut drained = node.drain_values_rec();
    drained.sort_by_key(|h| h.index());
    drained.dedup();
    assert_eq!(drained, ids);
    assert_eq!(node.value_count_rec(), 0);
    assert_eq!(node.get_regions().len(), shape);
}

#[test]
fn clear_leaves_one_empty_leaf() {
    let (store, mut node, _) = cell_with(25);
    node.clear();
    assert_eq!(node.get_regions().len(), 1);
    assert_eq!(node.value_count_rec(), 0);
    let none: Vec<SlotId> = vec![];
    assert_eq!(node.query(&region(0, 0, 100, 100), &store, &none).len(), 0);
}

#[test]
fn eleventh_handle_splits_into_the_four_quadrants() {
    let mut store = SlotMap::<Region>::new();
    let mut node = QuadNode::new(region(0, 0, 10, 10), 0);
    let mut ids = Vec::new();
    for i in 0..11 {
        let r = if i < 3 {
            region(1, 1, 1, 1)
        } else if i < 6 {
            region(8, 8, 8, 8)
        } else if i < 9 {
            region(1, 8, 1, 8)
        } else {
            region(8, 1, 8, 1)
        };
        ids.push(store.insert(r));
    }
    for i in 0..10 {
        node.insert(&ids[i], &store);
    }
    assert_eq!(node.get_regions().len(), 1);
    node.insert(&ids[10], &store);
    let cells: Vec<Region> = node.get_regions().into_iter().cloned().collect();
    assert_eq!(cells, vec![region(0, 5, 5, 10), region(5, 5, 10, 10), region(0, 0, 5, 5), region(5, 0, 10, 5)]);
    assert_eq!(node.value_count_rec(), 11);
}

#[test]
fn new_tree_and_cleared_tree_are_one_cell() {
    let mut tree = boids::tree::QuadTree::<u8>::new(region(0, 0, 100, 100));
    let cells: Vec<Region> = tree.get_regions().into_iter().cloned().collect();
    assert_eq!(cells, vec![region(0, 0, 100, 100)]);
    for i in 0..40 {
        tree.insert(region(i, i, i + 1, i + 1), 0);
    }
    assert!(tree.get_regions().len() > 1);
    assert_eq!(tree.get_regions().len() % 3, 1);
    tree.clear();
    let cells: Vec<Region> = tree.get_regions().into_iter().cloned().collect();
    assert_eq!(cells, vec![region(0, 0, 100, 100)]);
}

use boids::slot_map::{SlotId, SlotMap};

#[test]
fn arena_appends_then_reuses_last_freed() {
    let mut m = SlotMap::<&str>::new();
    let a = m.insert("a");
    let b = m.insert("b");
    let c = m.insert("c");
    assert_eq!((a.index(), b.index(), c.index()), (0, 1, 2));
    assert_eq!(m.remove(a), Some("a"));
    assert_eq!(m.remove(c), Some("c"));
    assert_eq!(m.get(&a), None);
    assert_eq!(m.len(), 3);
    let d = m.insert("d");
    assert_eq!(d, c);
    let e = m.insert("e");
    assert_eq!(e, a);
    let f = m.insert("f");
    assert_eq!(f.index(), 3);
    assert_eq!(m.get(&a), Some(&"e"));
}

#[test]
fn arena_remove_empty_slot() {
    let mut m = SlotMap::<u32>::new();
    let a = m.insert(1);
    assert_eq!(m.remove(a.clone()), Some(1));
    assert_eq!(m.remove(a), None);
}

#[test]
fn arena_get_mut_update_iter() {
    let mut m = SlotMap::<u32>::new();
    let a = m.insert(1);
    let b = m.insert(2);
    let c = m.insert(3);
    if let Some(v) = m.get_mut(&b) {
        *v = 20;
    }
    m.update(&c, 30);
    m.remove(a);
    let items: Vec<u32> = m.iter().into_iter().copied().collect();
    assert_eq!(items, vec![20, 30]);
    assert_eq!(m.get_mut(&a), None);
}

#[test]
fn arena_clear_starts_over() {
    let mut m = SlotMap::<u32>::new();
    m.insert(1);
    let b = m.insert(2);
    m.remove(b);
    m.clear();
    assert_eq!(m.len(), 0);
    assert_eq!(m.insert(5), SlotId::new(0));
}

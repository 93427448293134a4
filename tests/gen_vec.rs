use gen_vec::GenVec;
use gen_vec::Key;

#[test]
fn gen_vec() {
    let mut gv = GenVec::new();

    let a = gv.insert("a");
    let b = gv.insert("b");
    let c = gv.insert("c");
    assert_eq!(gv.get(&a), Some(&"a"));
    assert_eq!(gv.get(&b), Some(&"b"));
    assert_eq!(gv.get(&c), Some(&"c"));
    assert_eq!(gv.len(), 3);

    // Remove
    gv.remove(&a);
    assert_eq!(gv.get(&a), None);
    assert_eq!(gv.len(), 2);

    // Re-insert
    let d = gv.insert("d");

    assert_eq!(a.index, d.index);
    assert_ne!(a.generation, d.generation);

    // Re-remove and re-re-insert
    gv.remove(&d);
    let e = gv.insert("e");
    assert_eq!(a.index, e.index);
    assert_ne!(a.generation, e.generation);
}

#[test]
fn new_store_is_empty() {
    let gv: GenVec<u64> = GenVec::new();
    assert_eq!(gv.len(), 0);
}

#[test]
fn insert_then_get_round_trip() {
    let mut gv = GenVec::new();
    for v in [7u64, 0, u64::MAX, 7] {
        let k = gv.insert(v);
        assert_eq!(gv.get(&k), Some(&v));
    }
    assert_eq!(gv.len(), 4);
}

#[test]
fn first_handles_are_fresh_slots_at_generation_zero() {
    let mut gv = GenVec::new();
    let a = gv.insert(10);
    let b = gv.insert(20);
    let c = gv.insert(30);
    assert_eq!(a, Key { index: 0, generation: 0 });
    assert_eq!(b, Key { index: 1, generation: 0 });
    assert_eq!(c, Key { index: 2, generation: 0 });
}

#[test]
fn removed_handle_reaches_nothing() {
    let mut gv = GenVec::new();
    let a = gv.insert(String::from("x"));
    gv.remove(&a);
    assert_eq!(gv.get(&a), None);
    assert_eq!(gv.len(), 0);
}

#[test]
fn second_remove_is_a_no_op() {
    let mut gv = GenVec::new();
    let a = gv.insert(1);
    let b = gv.insert(2);
    gv.remove(&a);
    gv.remove(&a);
    assert_eq!(gv.len(), 1);
    assert_eq!(gv.get(&a), None);
    assert_eq!(gv.get(&b), Some(&2));
    // the slot went on the free list once: the next insert takes it, the one
    // after appends
    let c = gv.insert(3);
    let d = gv.insert(4);
    assert_eq!(c, Key { index: 0, generation: 1 });
    assert_eq!(d, Key { index: 2, generation: 0 });
}

#[test]
fn reuse_bumps_generation_by_one() {
    let mut gv = GenVec::new();
    let a = gv.insert('a');
    gv.remove(&a);
    let d = gv.insert('d');
    assert_eq!(d, Key { index: 0, generation: 1 });
    assert_eq!(gv.get(&a), None);
    assert_eq!(gv.get(&d), Some(&'d'));
    gv.remove(&d);
    let e = gv.insert('e');
    assert_eq!(e, Key { index: 0, generation: 2 });
    assert_eq!(gv.get(&d), None);
    assert_eq!(gv.get(&e), Some(&'e'));
}

#[test]
fn stale_remove_leaves_new_occupant() {
    let mut gv = GenVec::new();
    let a = gv.insert(1);
    gv.remove(&a);
    let d = gv.insert(2);
    gv.remove(&a);
    assert_eq!(gv.get(&d), Some(&2));
    assert_eq!(gv.len(), 1);
}

#[test]
fn free_slots_are_reused_last_freed_first() {
    let mut gv = GenVec::new();
    let a = gv.insert(1);
    let _b = gv.insert(2);
    let c = gv.insert(3);
    gv.remove(&a);
    gv.remove(&c);
    let x = gv.insert(4);
    let y = gv.insert(5);
    let z = gv.insert(6);
    assert_eq!(x, Key { index: 2, generation: 1 });
    assert_eq!(y, Key { index: 0, generation: 1 });
    assert_eq!(z, Key { index: 3, generation: 0 });
    assert_eq!(gv.len(), 4);
}

#[test]
fn len_counts_live_handles() {
    let mut gv = GenVec::new();
    let mut keys = Vec::new();
    for i in 0..10u32 {
        keys.push(gv.insert(i));
    }
    assert_eq!(gv.len(), 10);
    for k in keys.iter().step_by(2) {
        gv.remove(k);
    }
    assert_eq!(gv.len(), 5);
    let live = keys.iter().filter(|k| gv.get(k).is_some()).count();
    assert_eq!(live, 5);
    gv.insert(99);
    assert_eq!(gv.len(), 6);
}

#[test]
fn removal_leaves_other_handles_alone() {
    let mut gv = GenVec::new();
    let a = gv.insert("a");
    let b = gv.insert("b");
    let c = gv.insert("c");
    gv.remove(&b);
    assert_eq!(gv.get(&a), Some(&"a"));
    assert_eq!(gv.get(&c), Some(&"c"));
    assert_eq!(gv.get(&b), None);
}

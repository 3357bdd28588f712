use nexusfs::conflicts::conflict_name;
use nexusfs::lww::LwwReg;
use nexusfs::or_map::{Dot, OrMap};

fn dot(device_id: u128, counter: u64) -> Dot {
    Dot { device_id, counter }
}

#[test]
fn conflict_name_is_deterministic() {
    let a = conflict_name("file", 42, 1000);
    let b = conflict_name("file", 42, 1000);
    assert_eq!(a, b);
    assert!(a.contains("conflict"));
}

#[test]
fn conflict_names_carry_the_device_and_time() {
    assert_eq!(conflict_name("a.txt", 0xabc, 7), "a.txt~conflict-0000000000000abc-7");
    // Only the low 64 bits of the device appear.
    let wide = (1u128 << 64) | 0x10;
    assert_eq!(conflict_name("x", wide, 0), "x~conflict-0000000000000010-0");
}

#[test]
fn the_later_write_wins_a_register() {
    let mut a = LwwReg::new(1u32, 10, 1, 1);
    let b = LwwReg::new(2u32, 11, 1, 2);
    assert!(a.merge(&b));
    assert_eq!(a.value, 2);
    assert_eq!((a.ts, a.writer_id, a.seq), (11, 1, 2));
}

#[test]
fn an_older_write_loses_and_changes_nothing() {
    let mut a = LwwReg::new(1u32, 10, 5, 1);
    let b = LwwReg::new(2u32, 9, 9, 9);
    assert!(!a.merge(&b));
    assert_eq!(a.value, 1);
    assert_eq!((a.ts, a.writer_id, a.seq), (10, 5, 1));
}

#[test]
fn register_merges_commute() {
    // Ties on time are broken by device, then sequence.
    let x = LwwReg::new(1u32, 10, 1, 5);
    let y = LwwReg::new(2u32, 10, 2, 1);
    let mut xy = LwwReg::new(1u32, 10, 1, 5);
    xy.merge(&y);
    let mut yx = LwwReg::new(2u32, 10, 2, 1);
    yx.merge(&x);
    assert_eq!(xy.value, yx.value);
    assert_eq!(xy.value, 2);
}

#[test]
fn merging_a_register_twice_is_harmless() {
    let mut a = LwwReg::new(1u32, 10, 1, 1);
    let b = LwwReg::new(2u32, 12, 1, 1);
    a.merge(&b);
    assert!(!a.merge(&b));
    assert_eq!(a.value, 2);
}

#[test]
fn an_added_key_is_read_back() {
    let mut m: OrMap<String, u32> = OrMap::new();
    m.add("a".to_string(), dot(1, 1), 10);
    assert_eq!(m.get(&"a".to_string()), Some(10));
    assert_eq!(m.live_keys(), vec!["a".to_string()]);
}

#[test]
fn a_removed_key_is_gone() {
    let mut m: OrMap<String, u32> = OrMap::new();
    m.add("a".to_string(), dot(1, 1), 10);
    m.remove(&"a".to_string());
    assert_eq!(m.get(&"a".to_string()), None);
    assert!(m.live_keys().is_empty());
    assert_eq!(m.keys(), vec!["a".to_string()]);
}

#[test]
fn concurrent_adds_both_survive_and_the_highest_dot_is_read() {
    let mut m: OrMap<String, u32> = OrMap::new();
    m.add("a".to_string(), dot(2, 1), 20);
    m.add("a".to_string(), dot(1, 1), 10);
    let all = m.get_all(&"a".to_string());
    assert_eq!(all, vec![(dot(1, 1), 10), (dot(2, 1), 20)]);
    assert_eq!(m.get(&"a".to_string()), Some(20));
}

#[test]
fn an_add_concurrent_with_a_remove_survives() {
    let mut a: OrMap<String, u32> = OrMap::new();
    a.add("k".to_string(), dot(1, 1), 1);
    let mut b: OrMap<String, u32> = OrMap::new();
    b.merge(&a);
    // a removes what it has seen; b concurrently adds a new value.
    a.remove(&"k".to_string());
    b.add("k".to_string(), dot(2, 1), 2);
    a.merge(&b);
    b.merge(&a);
    assert_eq!(a.get(&"k".to_string()), Some(2));
    assert_eq!(b.get(&"k".to_string()), Some(2));
    assert_eq!(a.get_all(&"k".to_string()), b.get_all(&"k".to_string()));
}

#[test]
fn map_merges_commute() {
    let mut a: OrMap<String, u32> = OrMap::new();
    a.add("x".to_string(), dot(1, 1), 1);
    a.add("y".to_string(), dot(1, 2), 2);
    let mut b: OrMap<String, u32> = OrMap::new();
    b.add("y".to_string(), dot(2, 1), 3);
    b.add("z".to_string(), dot(2, 2), 4);
    b.remove_dots(&"x".to_string(), vec![dot(1, 1)]);

    let mut ab: OrMap<String, u32> = OrMap::new();
    ab.merge(&a);
    ab.merge(&b);
    let mut ba: OrMap<String, u32> = OrMap::new();
    ba.merge(&b);
    ba.merge(&a);
    assert_eq!(ab.live_keys(), ba.live_keys());
    for k in ["x", "y", "z"] {
        assert_eq!(ab.get_all(&k.to_string()), ba.get_all(&k.to_string()));
    }
    assert_eq!(ab.live_keys(), vec!["y".to_string(), "z".to_string()]);
}

#[test]
fn observed_dots_cover_every_add_even_removed_ones() {
    let mut m: OrMap<String, u32> = OrMap::new();
    m.add("k".to_string(), dot(1, 1), 1);
    m.add("k".to_string(), dot(1, 2), 2);
    m.remove_dots(&"k".to_string(), vec![dot(1, 1)]);
    assert_eq!(m.observed_dots(&"k".to_string()), vec![dot(1, 1), dot(1, 2)]);
    assert_eq!(m.get_all(&"k".to_string()), vec![(dot(1, 2), 2)]);
}

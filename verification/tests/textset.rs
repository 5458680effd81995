use kwmatcher::textset::{copy_bytes, hash_bytes, TextSet};

#[test]
fn hash_of_known_texts() {
    assert_eq!(hash_bytes(b""), 0xcbf2_9ce4_8422_2325);
    assert_eq!(hash_bytes(b"a"), 0xaf63_dc4c_8601_ec8c);
    assert_eq!(hash_bytes(b"foobar"), 0x8594_4171_f739_67e8);
}

#[test]
fn hash_tells_orders_apart() {
    assert_ne!(hash_bytes(b"ab"), hash_bytes(b"ba"));
    assert_ne!(hash_bytes(b"a"), hash_bytes(b"a\0"));
}

#[test]
fn copy_is_byte_for_byte() {
    assert_eq!(copy_bytes(b""), Vec::<u8>::new());
    assert_eq!(copy_bytes(b"abc"), vec![b'a', b'b', b'c']);
    assert_eq!(copy_bytes(&[0, 255, 7]), vec![0, 255, 7]);
}

#[test]
fn insert_tells_whether_the_text_was_new() {
    let mut set = TextSet::with_capacity(4);
    assert!(set.insert(b"a"));
    assert!(!set.insert(b"a"));
    assert!(set.insert(b"b"));
    assert!(set.insert(b""));
    assert!(!set.insert(b""));
    assert!(set.holds(b"a"));
    assert!(set.holds(b"b"));
    assert!(set.holds(b""));
    assert!(!set.holds(b"c"));
    assert!(!set.holds(b"ab"));
}

#[test]
fn a_set_with_one_slot_holds_everything() {
    let mut set = TextSet::with_capacity(0);
    for i in 0..200u32 {
        assert!(set.insert(format!("t{}", i).as_bytes()));
    }
    for i in 0..200u32 {
        assert!(set.holds(format!("t{}", i).as_bytes()));
        assert!(!set.insert(format!("t{}", i).as_bytes()));
    }
    assert!(!set.holds(b"t200"));
}

#[test]
fn a_set_holds_more_texts_than_it_has_slots() {
    let mut set = TextSet::with_capacity(16);
    for i in 0..5000u32 {
        assert!(set.insert(&i.to_le_bytes()));
    }
    for i in 0..5000u32 {
        assert!(set.holds(&i.to_le_bytes()));
    }
    for i in 5000..6000u32 {
        assert!(!set.holds(&i.to_le_bytes()));
    }
}

#[test]
fn a_set_asked_for_very_many_texts_is_still_made() {
    let mut set = TextSet::with_capacity(usize::MAX);
    assert!(!set.holds(b"x"));
    assert!(set.insert(b"x"));
    assert!(set.holds(b"x"));
}

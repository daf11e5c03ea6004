use ayurox::memory::Heap;
use ayurox::table::{BuildHasherFNV, Table};

fn fnv(bytes: &[u8]) -> u64 {
    let mut h = BuildHasherFNV::new().build_hasher();
    h.write(bytes);
    h.finish()
}

#[test]
fn fnv_known_values() {
    assert_eq!(fnv(b""), 0x811c9dc5);
    assert_eq!(fnv(b"a"), 0xe40c292c);
    assert_eq!(fnv(b"foobar"), 0xbf9cf968);
}

#[test]
fn fnv_hashes_a_concatenation_in_pieces() {
    let mut h = BuildHasherFNV::new().build_hasher();
    h.write(b"foo");
    h.write(b"bar");
    assert_eq!(h.finish(), fnv(b"foobar"));
}

#[test]
fn insert_get_and_overwrite() {
    let mut t: Table<u32> = Table::new();
    assert_eq!(t.len(), 0);
    assert_eq!(t.insert("a".to_string(), 1), None);
    assert_eq!(t.insert("b".to_string(), 2), None);
    assert_eq!(t.insert("a".to_string(), 3), Some(1));
    assert_eq!(t.get("a"), Some(&3));
    assert_eq!(t.get("b"), Some(&2));
    assert_eq!(t.get("c"), None);
    assert_eq!(t.len(), 2);
}

#[test]
fn set_only_rebinds_bound_names() {
    let mut t: Table<u32> = Table::new();
    assert!(!t.set("x", 5));
    assert_eq!(t.get("x"), None);
    t.define("x", 1);
    assert!(t.set("x", 5));
    assert_eq!(t.get("x"), Some(&5));
}

#[test]
fn interning_gives_one_object_per_text() {
    let mut heap = Heap::new();
    let mut strings = Table::new();
    let a = strings.intern(&mut heap, "hello".to_string());
    let b = strings.intern(&mut heap, "world".to_string());
    let c = strings.intern(&mut heap, "hello".to_string());
    assert!(a.ptr_eq(&c));
    assert!(!a.ptr_eq(&b));
    assert_eq!(heap.capacity(), 2);
    assert_eq!(heap.get(b).as_string(), "world");
}

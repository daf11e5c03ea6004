use ayurox::memory::{Gc, Heap};
use ayurox::value::Obj;

#[test]
fn allocation_reuses_freed_slots() {
    let mut heap = Heap::new();
    let a = Gc::new(&mut heap, Obj::new_string("a".to_string()));
    let b = Gc::new(&mut heap, Obj::new_string("b".to_string()));
    assert_eq!((a.index, b.index), (0, 1));
    heap.free_obj(a);
    assert!(!heap.is_live_exec(a));
    assert!(heap.is_live_exec(b));
    let c = Gc::new(&mut heap, Obj::new_string("c".to_string()));
    assert_eq!(c.index, 0);
    assert_eq!(heap.get(c).as_string(), "c");
    assert_eq!(heap.capacity(), 2);
}

#[test]
fn sweep_frees_unmarked_objects() {
    let mut heap = Heap::new();
    let a = Gc::new(&mut heap, Obj::new_string("a".to_string()));
    let b = Gc::new(&mut heap, Obj::new_string("b".to_string()));
    let mut gray = Vec::new();
    ayurox::memory::mark_object(&mut heap, b, &mut gray);
    assert!(heap.marked_exec(b));
    assert_eq!(gray.len(), 1);
    ayurox::memory::sweep(&mut heap);
    assert!(!heap.is_live_exec(a));
    assert!(heap.is_live_exec(b));
    assert!(!heap.marked_exec(b));
}

#[test]
fn handles_compare_by_slot() {
    let a = Gc { index: 2 };
    assert!(a.ptr_eq(&Gc { index: 2 }));
    assert!(!a.ptr_eq(&Gc { index: 5 }));
    assert_eq!(a.as_ptr(), 2);
}

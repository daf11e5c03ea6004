use vstd::prelude::*;

use crate::table::{marked_live, GlobalVariableTable, StringTable};
use crate::value::{Obj, ObjFunction, ObjType, Value, ValueArray};

verus! {

/// A handle to an object on the [`Heap`]: the index of its slot.
#[derive(Clone, Copy, PartialEq, Eq, Structural)]
pub struct Gc {
    pub index: usize,
}

/// The interpreter's object heap: an arena of slots, each empty or holding an
/// object, with a mark bit per slot for the collector and a list of the empty
/// slots that allocation reuses.
pub struct Heap {
    objects: Vec<Option<Obj>>,
    marks: Vec<bool>,
    free: Vec<usize>,
}

impl Heap {
    /// The slots of the heap.
    pub closed spec fn slots(&self) -> Seq<Option<Obj>> {
        self.objects@
    }

    /// The mark bits of the heap.
    pub closed spec fn mark_bits(&self) -> Seq<bool> {
        self.marks@
    }

    /// The empty slots that allocation reuses, last first.
    pub closed spec fn free_slots(&self) -> Seq<usize> {
        self.free@
    }

    /// `g` names an object on this heap.
    pub open spec fn is_live(&self, g: Gc) -> bool {
        g.index < self.slots().len() && self.slots()[g.index as int] is Some
    }

    /// The object that `g` names.
    pub open spec fn obj(&self, g: Gc) -> Obj {
        self.slots()[g.index as int]->Some_0
    }

    /// `g` is marked.
    pub open spec fn is_marked(&self, g: Gc) -> bool {
        g.index < self.mark_bits().len() && self.mark_bits()[g.index as int]
    }

    /// The bookkeeping is consistent: one mark bit per slot, and the free list
    /// names distinct empty slots.
    pub open spec fn wf(&self) -> bool {
        &&& self.slots().len() == self.mark_bits().len()
        &&& forall|k: int| #![trigger self.free_slots()[k]] 0 <= k < self.free_slots().len() ==> {
            &&& self.free_slots()[k] < self.slots().len()
            &&& self.slots()[self.free_slots()[k] as int] is None
        }
        &&& self.free_slots().no_duplicates()
    }

    /// The slot that the next allocation takes.
    pub open spec fn next_slot(&self) -> Gc {
        if self.free_slots().len() > 0 {
            Gc { index: self.free_slots().last() }
        } else {
            Gc { index: self.slots().len() as usize }
        }
    }

    /// An empty heap.
    pub fn new() -> (res: Self)
        ensures
            res.wf(),
            res.slots() == Seq::<Option<Obj>>::empty(),
            res.free_slots() == Seq::<usize>::empty(),
    {
        Heap { objects: Vec::new(), marks: Vec::new(), free: Vec::new() }
    }

    /// Whether `g` names an object on this heap.
    pub fn is_live_exec(&self, g: Gc) -> (res: bool)
        ensures
            res == self.is_live(g),
    {
        g.index < self.objects.len() && self.objects[g.index].is_some()
    }

    /// The object that `g` names.
    pub fn get(&self, g: Gc) -> (res: &Obj)
        requires
            self.is_live(g),
        ensures
            *res == self.obj(g),
    {
        match &self.objects[g.index] {
            Some(o) => o,
            None => vstd::pervasive::unreached(),
        }
    }

    /// The number of slots.
    pub fn capacity(&self) -> (res: usize)
        ensures
            res == self.slots().len(),
    {
        self.objects.len()
    }

    /// Whether slot `i` is marked.
    pub fn marked_exec(&self, g: Gc) -> (res: bool)
        requires
            self.wf(),
            g.index < self.slots().len(),
        ensures
            res == self.is_marked(g),
    {
        self.marks[g.index]
    }

    /// Places `obj` in the next slot (an emptied one if there is one) and
    /// gives back its handle. No other slot changes.
    pub fn allocate(&mut self, obj: Obj) -> (res: Gc)
        requires
            old(self).wf(),
        ensures
            final(self).wf(),
            res == old(self).next_slot(),
            !old(self).is_live(res),
            final(self).is_live(res),
            final(self).obj(res) == obj,
            final(self).slots() == (if res.index < old(self).slots().len() {
                old(self).slots().update(res.index as int, Some(obj))
            } else {
                old(self).slots().push(Some(obj))
            }),
            final(self).mark_bits() == (if res.index < old(self).slots().len() {
                old(self).mark_bits().update(res.index as int, false)
            } else {
                old(self).mark_bits().push(false)
            }),
            final(self).free_slots() == (if old(self).free_slots().len() > 0 {
                old(self).free_slots().drop_last()
            } else {
                old(self).free_slots()
            }),
    {
        match self.free.pop() {
            Some(i) => {
                proof {
                    let k = old(self).free_slots().len() - 1;
                    assert(old(self).free_slots()[k] == i);
                }
                self.objects.set(i, Some(obj));
                self.marks.set(i, false);
                proof {
                    assert(self.free@ =~= old(self).free@.drop_last());
                    assert forall|k: int| #![trigger self.free_slots()[k]] 0 <= k < self.free_slots().len()
                        implies self.free_slots()[k] < self.slots().len()
                        && self.slots()[self.free_slots()[k] as int] is None by {
                        assert(old(self).free_slots()[k] == self.free_slots()[k]);
                        assert(old(self).free_slots()[k] != old(self).free_slots()[old(self).free_slots().len() - 1]);
                    }
                }
                Gc { index: i }
            },
            None => {
                let i = self.objects.len();
                self.objects.push(Some(obj));
                self.marks.push(false);
                proof {
                    assert forall|k: int| #![trigger self.free_slots()[k]] 0 <= k < self.free_slots().len()
                        implies self.free_slots()[k] < self.slots().len()
                        && self.slots()[self.free_slots()[k] as int] is None by {
                        assert(old(self).free_slots()[k] == self.free_slots()[k]);
                    }
                }
                Gc { index: i }
            },
        }
    }

    /// Replaces the object that `g` names.
    pub fn replace(&mut self, g: Gc, obj: Obj) -> (res: Obj)
        requires
            old(self).wf(),
            old(self).is_live(g),
        ensures
            final(self).wf(),
            res == old(self).obj(g),
            final(self).slots() == old(self).slots().update(g.index as int, Some(obj)),
            final(self).mark_bits() == old(self).mark_bits(),
            final(self).free_slots() == old(self).free_slots(),
    {
        let prev = self.objects.remove(g.index);
        self.objects.insert(g.index, Some(obj));
        proof {
            assert(self.objects@ =~= old(self).objects@.update(g.index as int, Some(obj)));
            assert forall|k: int| #![trigger self.free_slots()[k]] 0 <= k < self.free_slots().len()
                implies self.free_slots()[k] < self.slots().len()
                && self.slots()[self.free_slots()[k] as int] is None by {
                assert(old(self).free_slots()[k] != g.index);
            }
        }
        match prev {
            Some(o) => o,
            None => vstd::pervasive::unreached(),
        }
    }
    /// The number of live objects among the first `n` slots that are not marked.
    pub open spec fn unmarked_below(&self, n: int) -> nat
        decreases n,
    {
        if n <= 0 {
            0
        } else {
            self.unmarked_below(n - 1) + (if self.is_live(Gc { index: (n - 1) as usize }) && !self.is_marked(
                Gc { index: (n - 1) as usize },
            ) {
                1nat
            } else {
                0nat
            })
        }
    }

    /// The number of live objects that are not marked.
    pub open spec fn unmarked(&self) -> nat {
        self.unmarked_below(self.slots().len() as int)
    }

    /// Marks `g`.
    pub fn set_mark(&mut self, g: Gc)
        requires
            old(self).wf(),
            g.index < old(self).slots().len(),
        ensures
            final(self).wf(),
            final(self).slots() == old(self).slots(),
            final(self).free_slots() == old(self).free_slots(),
            final(self).mark_bits() == old(self).mark_bits().update(g.index as int, true),
    {
        self.marks.set(g.index, true);
    }

    /// Clears the mark of `g`.
    pub fn clear_mark(&mut self, g: Gc)
        requires
            old(self).wf(),
            g.index < old(self).slots().len(),
        ensures
            final(self).wf(),
            final(self).slots() == old(self).slots(),
            final(self).free_slots() == old(self).free_slots(),
            final(self).mark_bits() == old(self).mark_bits().update(g.index as int, false),
    {
        self.marks.set(g.index, false);
    }

    /// Empties the slot of `g`, which allocation may then reuse.
    pub fn free_obj(&mut self, g: Gc)
        requires
            old(self).wf(),
            old(self).is_live(g),
        ensures
            final(self).wf(),
            final(self).slots() == old(self).slots().update(g.index as int, None),
            final(self).mark_bits() == old(self).mark_bits(),
            final(self).free_slots() == old(self).free_slots().push(g.index),
    {
        self.objects.set(g.index, None);
        self.free.push(g.index);
        proof {
            assert forall|k: int| #![trigger self.free_slots()[k]] 0 <= k < self.free_slots().len() implies {
                &&& self.free_slots()[k] < self.slots().len()
                &&& self.slots()[self.free_slots()[k] as int] is None
            } by {
                if k < old(self).free_slots().len() {
                    assert(old(self).free_slots()[k] == self.free_slots()[k]);
                }
            }
            assert forall|i: int, j: int| 0 <= i < self.free_slots().len() && 0 <= j < self.free_slots().len() && i != j
                implies self.free_slots()[i] != self.free_slots()[j] by {
                let n = old(self).free_slots().len() as int;
                if i < n && j < n {
                    assert(old(self).free_slots()[i] != old(self).free_slots()[j]);
                } else if i < n {
                    assert(old(self).slots()[old(self).free_slots()[i] as int] is None);
                } else if j < n {
                    assert(old(self).slots()[old(self).free_slots()[j] as int] is None);
                }
            }
        }
    }
}

/// Marking `g` counts one unmarked object less where `g` was live and unmarked.
pub proof fn lemma_mark_count(h1: Heap, h2: Heap, g: Gc, n: int)
    requires
        h2.slots() == h1.slots(),
        h2.mark_bits() == h1.mark_bits().update(g.index as int, true),
        h1.wf(),
        g.index < h1.slots().len(),
        h1.slots().len() <= usize::MAX,
        0 <= n <= h1.slots().len(),
    ensures
        h2.unmarked_below(n) == h1.unmarked_below(n) - (if g.index < n && h1.is_live(g) && !h1.is_marked(g) {
            1int
        } else {
            0int
        }),
        h2.unmarked_below(n) <= h1.unmarked_below(n),
    decreases n,
{
    if n > 0 {
        lemma_mark_count(h1, h2, g, n - 1);
        let x = Gc { index: (n - 1) as usize };
        assert(h2.is_live(x) == h1.is_live(x));
        if x.index != g.index {
            assert(h2.is_marked(x) == h1.is_marked(x));
        } else {
            assert(x == g);
            assert(h2.is_marked(x));
        }
    }
}

impl Heap {
}

impl Gc {
    /// Allocates `value` on `heap` and gives back its handle.
    pub fn new(heap: &mut Heap, value: Obj) -> (res: Self)
        requires
            old(heap).wf(),
        ensures
            final(heap).wf(),
            res == old(heap).next_slot(),
            !old(heap).is_live(res),
            final(heap).is_live(res),
            final(heap).obj(res) == value,
            forall|h: Gc| #![trigger final(heap).is_live(h)] h != res ==> (final(heap).is_live(h) == old(heap).is_live(h)
                && (old(heap).is_live(h) ==> final(heap).obj(h) == old(heap).obj(h))),
            heap_grows(*old(heap), *final(heap)),
    {
        let g = heap.allocate(value);
        proof {
            assert forall|h: Gc| #![trigger heap.is_live(h)] old(heap).is_live(h) implies heap.is_live(h) && heap.obj(h)
                == old(heap).obj(h) by {
                assert(h != g);
            }
        }
        g
    }

    /// The slot index that stands for the object's address.
    pub fn as_ptr(self) -> (res: usize)
        ensures
            res == self.index,
    {
        self.index
    }

    /// Whether the two handles name one object.
    pub fn ptr_eq(&self, other: &Gc) -> (res: bool)
        ensures
            res == (*self == *other),
    {
        self.index == other.index
    }
}


/// A value that refers to an object refers to a live one.
pub open spec fn value_live(heap: Heap, v: Value) -> bool {
    v matches Value::Obj(g) ==> heap.is_live(g)
}

/// The function's name and constants refer to live objects only.
pub open spec fn function_refs_live(heap: Heap, f: ObjFunction) -> bool {
    &&& (f.name matches Some(n) ==> heap.is_live(n))
    &&& forall|k: int| 0 <= k < f.chunk.constants.values@.len() ==> value_live(heap, #[trigger] f.chunk.constants.values@[k])
}

/// The object `o` holds a reference to `g`: a function its name or a
/// constant; a closure its function or an upvalue; an upvalue its closed
/// value.
pub open spec fn obj_refers_to(o: Obj, g: Gc) -> bool {
    match o.obj_type {
        ObjType::Function(f) => f.name == Some(g) || f.chunk.constants.values@.contains(Value::Obj(g)),
        ObjType::Closure(c) => c.function == g || c.upvalues@.contains(g),
        ObjType::Upvalue(u) => u.closed == Some(Value::Obj(g)),
        _ => false,
    }
}

/// Every reference held by a live object names a live object.
pub open spec fn heap_closed(heap: Heap) -> bool {
    forall|a: Gc, b: Gc| #![trigger heap.obj(a), heap.is_live(b)] heap.is_live(a) && obj_refers_to(heap.obj(a), b)
        ==> heap.is_live(b)
}

/// `after` holds every object of `before`, unchanged.
pub open spec fn heap_grows(before: Heap, after: Heap) -> bool {
    forall|g: Gc| #![trigger before.is_live(g)] before.is_live(g) ==> after.is_live(g) && after.obj(g) == before.obj(g)
}


/// Growth of the heap is transitive.
pub proof fn lemma_grows_trans(h1: Heap, h2: Heap, h3: Heap)
    requires
        heap_grows(h1, h2),
        heap_grows(h2, h3),
    ensures
        heap_grows(h1, h3),
{
    assert forall|g: Gc| #![trigger h3.is_live(g)] h1.is_live(g) implies h3.is_live(g) && h3.obj(g) == h1.obj(g) by {
        assert(h2.is_live(g) && h2.obj(g) == h1.obj(g));
        assert(h3.is_live(g) && h3.obj(g) == h2.obj(g));
    }
}

/// Growing the heap keeps a function's references live.
pub proof fn lemma_refs_live_grow(h1: Heap, h2: Heap, f: ObjFunction)
    requires
        heap_grows(h1, h2),
        function_refs_live(h1, f),
    ensures
        function_refs_live(h2, f),
{
    assert forall|k: int| 0 <= k < f.chunk.constants.values@.len() implies value_live(h2, #[trigger] f.chunk.constants.values@[k]) by {
        assert(value_live(h1, f.chunk.constants.values@[k]));
    }
}

/// Adding one object whose references are live keeps the heap closed.
pub proof fn lemma_closed_after_add(h1: Heap, h2: Heap, g: Gc)
    requires
        heap_closed(h1),
        heap_grows(h1, h2),
        forall|x: Gc| #[trigger] h2.is_live(x) ==> h1.is_live(x) || x == g,
        h2.is_live(g),
        forall|y: Gc| obj_refers_to(h2.obj(g), y) ==> h2.is_live(y),
    ensures
        heap_closed(h2),
{
    assert forall|a: Gc, b: Gc| #![trigger h2.obj(a), h2.is_live(b)] h2.is_live(a) && obj_refers_to(h2.obj(a), b) implies h2.is_live(b) by {
        if a != g {
            assert(h1.is_live(a));
            assert(h2.obj(a) == h1.obj(a));
            assert(h1.is_live(b));
        }
    }
}

/// `after` holds every object of `before`; objects other than upvalues are
/// unchanged, and upvalues stay upvalues.
pub open spec fn heap_keeps(before: Heap, after: Heap) -> bool {
    forall|g: Gc| #![trigger before.is_live(g)] before.is_live(g) ==> {
        &&& after.is_live(g)
        &&& (before.obj(g).obj_type is Upvalue ==> after.obj(g).obj_type is Upvalue)
        &&& (!(before.obj(g).obj_type is Upvalue) ==> after.obj(g) == before.obj(g))
    }
}

/// `after` is `before` with the object in `g`'s slot replaced by `obj`.
pub open spec fn replaced(before: Heap, after: Heap, g: Gc, obj: Obj) -> bool {
    &&& after.slots() == before.slots().update(g.index as int, Some(obj))
    &&& after.mark_bits() == before.mark_bits()
    &&& after.free_slots() == before.free_slots()
}

/// Growth keeps every object.
pub proof fn lemma_grows_keeps(h1: Heap, h2: Heap)
    requires
        heap_grows(h1, h2),
    ensures
        heap_keeps(h1, h2),
{
    assert forall|g: Gc| #![trigger h1.is_live(g)] h1.is_live(g) implies {
        &&& h2.is_live(g)
        &&& (h1.obj(g).obj_type is Upvalue ==> h2.obj(g).obj_type is Upvalue)
        &&& (!(h1.obj(g).obj_type is Upvalue) ==> h2.obj(g) == h1.obj(g))
    } by {
        assert(h2.is_live(g) && h2.obj(g) == h1.obj(g));
    }
}

/// Keeping objects is transitive.
pub proof fn lemma_keeps_trans(h1: Heap, h2: Heap, h3: Heap)
    requires
        heap_keeps(h1, h2),
        heap_keeps(h2, h3),
    ensures
        heap_keeps(h1, h3),
{
    assert forall|g: Gc| #![trigger h1.is_live(g)] h1.is_live(g) implies {
        &&& h3.is_live(g)
        &&& (h1.obj(g).obj_type is Upvalue ==> h3.obj(g).obj_type is Upvalue)
        &&& (!(h1.obj(g).obj_type is Upvalue) ==> h3.obj(g) == h1.obj(g))
    } by {
        assert(h2.is_live(g));
    }
}

/// Replacing an upvalue with an upvalue whose references are live keeps the
/// heap closed and keeps every object.
pub proof fn lemma_replace_upvalue(h1: Heap, h2: Heap, g: Gc, obj: Obj)
    requires
        heap_closed(h1),
        h1.is_live(g),
        h1.obj(g).obj_type is Upvalue,
        obj.obj_type is Upvalue,
        replaced(h1, h2, g, obj),
        forall|y: Gc| obj_refers_to(obj, y) ==> h1.is_live(y),
    ensures
        heap_closed(h2),
        heap_keeps(h1, h2),
        h2.is_live(g),
        h2.obj(g) == obj,
        forall|x: Gc| #[trigger] h2.is_live(x) == h1.is_live(x),
        forall|x: Gc| x != g && h1.is_live(x) ==> #[trigger] h2.obj(x) == h1.obj(x),
{
    assert forall|x: Gc| #[trigger] h2.is_live(x) == h1.is_live(x) by {
        if x.index == g.index {
            assert(x == g);
        }
    }
    assert forall|x: Gc| x != g && h1.is_live(x) implies #[trigger] h2.obj(x) == h1.obj(x) by {
        assert(x.index != g.index);
    }
    assert forall|a: Gc, b: Gc| #![trigger h2.obj(a), h2.is_live(b)] h2.is_live(a) && obj_refers_to(h2.obj(a), b) implies h2.is_live(b) by {
        assert(h2.is_live(b) == h1.is_live(b));
        assert(h1.is_live(a));
        if a != g {
            assert(h2.obj(a) == h1.obj(a));
        }
    }
    assert forall|x: Gc| #![trigger h1.is_live(x)] h1.is_live(x) implies {
        &&& h2.is_live(x)
        &&& (h1.obj(x).obj_type is Upvalue ==> h2.obj(x).obj_type is Upvalue)
        &&& (!(h1.obj(x).obj_type is Upvalue) ==> h2.obj(x) == h1.obj(x))
    } by {
        assert(h2.is_live(x) == h1.is_live(x));
        if x != g {
            assert(h2.obj(x) == h1.obj(x));
        }
    }
}

// The collector: marking from the roots, tracing the gray objects, and
// sweeping the unmarked ones.

/// Every object on the gray stack is live and marked, and none is there
/// twice.
pub open spec fn gray_ok(heap: Heap, gray: Seq<Gc>) -> bool {
    &&& gray.no_duplicates()
    &&& forall|k: int| 0 <= k < gray.len() ==> heap.is_live(#[trigger] gray[k]) && heap.is_marked(gray[k])
}

/// Marking went from `h1` with gray stack `gray1` to `h2` with `gray2`: the
/// objects are untouched, marks were only added, every new mark was pushed
/// on the gray stack, which kept what it held, and twice the unmarked count
/// plus the gray count did not grow.
pub open spec fn marks_grow(h1: Heap, gray1: Seq<Gc>, h2: Heap, gray2: Seq<Gc>) -> bool {
    &&& h2.slots() == h1.slots()
    &&& h2.free_slots() == h1.free_slots()
    &&& h2.mark_bits().len() == h1.mark_bits().len()
    &&& forall|x: Gc| #[trigger] h1.is_marked(x) ==> h2.is_marked(x)
    &&& forall|x: Gc| #[trigger] h2.is_marked(x) && !h1.is_marked(x) ==> gray2.contains(x)
    &&& gray1.len() <= gray2.len()
    &&& gray2.subrange(0, gray1.len() as int) == gray1
    &&& 2 * h2.unmarked() + gray2.len() <= 2 * h1.unmarked() + gray1.len()
}

/// Every marked live object that is not waiting on the gray stack (nor is
/// `skip`) refers to marked objects only.
pub open spec fn black_closed(heap: Heap, gray: Seq<Gc>, skip: Option<Gc>) -> bool {
    forall|a: Gc, b: Gc| #![trigger obj_refers_to(heap.obj(a), b)]
        heap.is_live(a) && heap.is_marked(a) && !gray.contains(a) && skip != Some(a) && obj_refers_to(heap.obj(a), b)
            ==> heap.is_marked(b)
}

/// Marking steps compose.
pub proof fn lemma_marks_grow_trans(h1: Heap, g1: Seq<Gc>, h2: Heap, g2: Seq<Gc>, h3: Heap, g3: Seq<Gc>)
    requires
        marks_grow(h1, g1, h2, g2),
        marks_grow(h2, g2, h3, g3),
    ensures
        marks_grow(h1, g1, h3, g3),
{
    assert forall|x: Gc| #[trigger] h3.is_marked(x) && !h1.is_marked(x) implies g3.contains(x) by {
        if h2.is_marked(x) {
            assert(g2.contains(x));
            let k = choose|k: int| 0 <= k < g2.len() && g2[k] == x;
            assert(g3.subrange(0, g2.len() as int)[k] == x);
            assert(g3[k] == x);
        }
    }
    assert(g3.subrange(0, g1.len() as int) =~= g1) by {
        assert forall|k: int| 0 <= k < g1.len() implies g3[k] == g1[k] by {
            assert(g3.subrange(0, g2.len() as int)[k] == g2[k]);
            assert(g2.subrange(0, g1.len() as int)[k] == g1[k]);
        }
    }
}

/// Marking keeps black objects' references marked.
pub proof fn lemma_black_closed_grow(h1: Heap, g1: Seq<Gc>, h2: Heap, g2: Seq<Gc>, skip: Option<Gc>)
    requires
        black_closed(h1, g1, skip),
        marks_grow(h1, g1, h2, g2),
    ensures
        black_closed(h2, g2, skip),
{
    assert forall|a: Gc, b: Gc| #![trigger obj_refers_to(h2.obj(a), b)]
        h2.is_live(a) && h2.is_marked(a) && !g2.contains(a) && skip != Some(a) && obj_refers_to(h2.obj(a), b)
        implies h2.is_marked(b) by {
        assert(h1.is_marked(a));
        if g1.contains(a) {
            let k = choose|k: int| 0 <= k < g1.len() && g1[k] == a;
            assert(g2.subrange(0, g1.len() as int)[k] == a);
            assert(g2[k] == a);
        }
        assert(h1.obj(a) == h2.obj(a));
        assert(h1.is_marked(b));
    }
}

/// Marks `obj`, pushing it on the gray stack, unless it is marked already.
pub fn mark_object(heap: &mut Heap, obj: Gc, gc_gray_stack: &mut Vec<Gc>)
    requires
        old(heap).wf(),
        old(heap).is_live(obj),
        gray_ok(*old(heap), old(gc_gray_stack)@),
    ensures
        final(heap).wf(),
        gray_ok(*final(heap), final(gc_gray_stack)@),
        marks_grow(*old(heap), old(gc_gray_stack)@, *final(heap), final(gc_gray_stack)@),
        final(heap).is_marked(obj),
        forall|x: Gc| #[trigger] final(heap).is_marked(x) ==> old(heap).is_marked(x) || x == obj,
{
    if heap.marked_exec(obj) {
        proof {
            assert(gc_gray_stack@.subrange(0, gc_gray_stack@.len() as int) =~= gc_gray_stack@);
        }
        return;
    }
    let _ = heap.capacity();
    let ghost h0 = *heap;
    heap.set_mark(obj);
    gc_gray_stack.push(obj);
    proof {
        lemma_mark_count(h0, *heap, obj, h0.slots().len() as int);
        let g0 = old(gc_gray_stack)@;
        assert(!g0.contains(obj));
        assert forall|x: Gc| #[trigger] h0.is_marked(x) implies heap.is_marked(x) by {
            if x.index != obj.index {
                assert(heap.mark_bits()[x.index as int] == h0.mark_bits()[x.index as int]);
            }
        }
        assert forall|x: Gc| #[trigger] heap.is_marked(x) implies h0.is_marked(x) || x == obj by {
            if x.index != obj.index {
                assert(heap.mark_bits()[x.index as int] == h0.mark_bits()[x.index as int]);
            } else {
                assert(x == obj);
            }
        }
        assert forall|x: Gc| #[trigger] heap.is_marked(x) && !h0.is_marked(x) implies gc_gray_stack@.contains(x) by {
            if x.index != obj.index {
                assert(heap.mark_bits()[x.index as int] == h0.mark_bits()[x.index as int]);
            } else {
                assert(x == obj);
                assert(gc_gray_stack@[g0.len() as int] == obj);
            }
        }
        assert(gc_gray_stack@.subrange(0, g0.len() as int) =~= g0);
        assert forall|k: int| 0 <= k < gc_gray_stack@.len() implies heap.is_live(#[trigger] gc_gray_stack@[k])
            && heap.is_marked(gc_gray_stack@[k]) by {
            if k < g0.len() {
                assert(h0.is_marked(g0[k]));
            }
        }
    }
}

/// Marks the object that `value` refers to, if any.
pub fn mark_value(heap: &mut Heap, value: &Value, gc_gray_stack: &mut Vec<Gc>)
    requires
        old(heap).wf(),
        value_live(*old(heap), *value),
        gray_ok(*old(heap), old(gc_gray_stack)@),
    ensures
        final(heap).wf(),
        gray_ok(*final(heap), final(gc_gray_stack)@),
        marks_grow(*old(heap), old(gc_gray_stack)@, *final(heap), final(gc_gray_stack)@),
        *value matches Value::Obj(g) ==> final(heap).is_marked(g),
        forall|x: Gc| #[trigger] final(heap).is_marked(x) ==> old(heap).is_marked(x) || *value == Value::Obj(x),
{
    if let Value::Obj(g) = value {
        mark_object(heap, *g, gc_gray_stack);
    } else {
        proof {
            assert(gc_gray_stack@.subrange(0, gc_gray_stack@.len() as int) =~= gc_gray_stack@);
        }
    }
}

/// Marks the objects that the values refer to.
pub fn mark_value_array(heap: &mut Heap, value_array: &ValueArray, gc_gray_stack: &mut Vec<Gc>)
    requires
        old(heap).wf(),
        forall|k: int| 0 <= k < value_array.values@.len() ==> value_live(*old(heap), #[trigger] value_array.values@[k]),
        gray_ok(*old(heap), old(gc_gray_stack)@),
    ensures
        final(heap).wf(),
        gray_ok(*final(heap), final(gc_gray_stack)@),
        marks_grow(*old(heap), old(gc_gray_stack)@, *final(heap), final(gc_gray_stack)@),
        forall|k: int| 0 <= k < value_array.values@.len() ==> (#[trigger] value_array.values@[k] matches Value::Obj(g)
            ==> final(heap).is_marked(g)),
        forall|x: Gc| #[trigger] final(heap).is_marked(x) ==> old(heap).is_marked(x) || value_array.values@.contains(Value::Obj(x)),
{
    let mut i: usize = 0;
    proof {
        assert(gc_gray_stack@.subrange(0, gc_gray_stack@.len() as int) =~= gc_gray_stack@);
    }
    while i < value_array.values.len()
        invariant
            heap.wf(),
            i <= value_array.values@.len(),
            heap.slots() == old(heap).slots(),
            forall|k: int| 0 <= k < value_array.values@.len() ==> value_live(*old(heap), #[trigger] value_array.values@[k]),
            gray_ok(*heap, gc_gray_stack@),
            marks_grow(*old(heap), old(gc_gray_stack)@, *heap, gc_gray_stack@),
            forall|k: int| 0 <= k < i ==> (#[trigger] value_array.values@[k] matches Value::Obj(g) ==> heap.is_marked(g)),
            forall|x: Gc| #[trigger] heap.is_marked(x) ==> old(heap).is_marked(x) || value_array.values@.contains(Value::Obj(x)),
        decreases value_array.values@.len() - i,
    {
        let ghost h0 = *heap;
        let ghost g0 = gc_gray_stack@;
        mark_value(heap, &value_array.values[i], gc_gray_stack);
        proof {
            lemma_marks_grow_trans(*old(heap), old(gc_gray_stack)@, h0, g0, *heap, gc_gray_stack@);
            assert forall|x: Gc| #[trigger] heap.is_marked(x) implies old(heap).is_marked(x) || value_array.values@.contains(Value::Obj(x)) by {
                if !h0.is_marked(x) {
                    assert(value_array.values@[i as int] == Value::Obj(x));
                }
            }
            assert forall|k: int| 0 <= k < i + 1 implies (#[trigger] value_array.values@[k] matches Value::Obj(g) ==> heap.is_marked(g)) by {
                if k < i && value_array.values@[k] is Obj {
                    assert(h0.is_marked(value_array.values@[k]->Obj_0));
                }
            }
        }
        i = i + 1;
    }
}

/// Marks the objects that the global variables hold.
pub fn mark_global_table(heap: &mut Heap, global_table: &GlobalVariableTable, gc_gray_stack: &mut Vec<Gc>)
    requires
        old(heap).wf(),
        global_table.wf(),
        forall|k: Seq<char>| #[trigger] global_table.view().contains_key(k) ==> value_live(*old(heap), global_table.view()[k]),
        gray_ok(*old(heap), old(gc_gray_stack)@),
    ensures
        final(heap).wf(),
        gray_ok(*final(heap), final(gc_gray_stack)@),
        marks_grow(*old(heap), old(gc_gray_stack)@, *final(heap), final(gc_gray_stack)@),
        forall|k: Seq<char>| #[trigger] global_table.view().contains_key(k) ==> (global_table.view()[k] matches Value::Obj(g)
            ==> final(heap).is_marked(g)),
        forall|x: Gc| #[trigger] final(heap).is_marked(x) ==> old(heap).is_marked(x) || exists|k: Seq<char>|
            #[trigger] global_table.view().contains_key(k) && global_table.view()[k] == Value::Obj(x),
{
    let n = global_table.len();
    let mut i: usize = 0;
    proof {
        assert(gc_gray_stack@.subrange(0, gc_gray_stack@.len() as int) =~= gc_gray_stack@);
    }
    while i < n
        invariant
            heap.wf(),
            global_table.wf(),
            n == global_table.spec_len(),
            i <= n,
            heap.slots() == old(heap).slots(),
            forall|k: Seq<char>| #[trigger] global_table.view().contains_key(k) ==> value_live(*old(heap), global_table.view()[k]),
            gray_ok(*heap, gc_gray_stack@),
            marks_grow(*old(heap), old(gc_gray_stack)@, *heap, gc_gray_stack@),
            forall|j: int| 0 <= j < i ==> (#[trigger] global_table.value_at_spec(j) matches Value::Obj(g) ==> heap.is_marked(g)),
            forall|x: Gc| #[trigger] heap.is_marked(x) ==> old(heap).is_marked(x) || exists|j: int|
                0 <= j < i && #[trigger] global_table.value_at_spec(j) == Value::Obj(x),
        decreases n - i,
    {
        let ghost h0 = *heap;
        let ghost g0 = gc_gray_stack@;
        proof {
            global_table.lemma_index_of(i as int);
        }
        mark_value(heap, global_table.value_at(i), gc_gray_stack);
        proof {
            lemma_marks_grow_trans(*old(heap), old(gc_gray_stack)@, h0, g0, *heap, gc_gray_stack@);
            assert forall|x: Gc| #[trigger] heap.is_marked(x) implies old(heap).is_marked(x) || exists|j: int|
                0 <= j < i + 1 && #[trigger] global_table.value_at_spec(j) == Value::Obj(x) by {
                if !h0.is_marked(x) {
                    assert(global_table.value_at_spec(i as int) == Value::Obj(x));
                } else if !old(heap).is_marked(x) {
                    let j = choose|j: int| 0 <= j < i && #[trigger] global_table.value_at_spec(j) == Value::Obj(x);
                    assert(global_table.value_at_spec(j) == Value::Obj(x));
                }
            }
            assert forall|j: int| 0 <= j < i + 1 implies (#[trigger] global_table.value_at_spec(j) matches Value::Obj(g) ==> heap.is_marked(g)) by {
                if j < i && global_table.value_at_spec(j) is Obj {
                    assert(h0.is_marked(global_table.value_at_spec(j)->Obj_0));
                }
            }
        }
        i = i + 1;
    }
    proof {
        assert forall|k: Seq<char>| #[trigger] global_table.view().contains_key(k) implies (global_table.view()[k] matches Value::Obj(g)
            ==> heap.is_marked(g)) by {
            global_table.lemma_view_entry(k);
            let j = global_table.index_of(k);
            assert(global_table.value_at_spec(j) == global_table.view()[k]);
        }
        assert forall|x: Gc| #[trigger] heap.is_marked(x) implies old(heap).is_marked(x) || exists|k: Seq<char>|
            #[trigger] global_table.view().contains_key(k) && global_table.view()[k] == Value::Obj(x) by {
            if !old(heap).is_marked(x) {
                let j = choose|j: int| 0 <= j < n && #[trigger] global_table.value_at_spec(j) == Value::Obj(x);
                global_table.lemma_index_of(j);
                let k = global_table.key_at_spec(j);
                assert(global_table.view().contains_key(k) && global_table.view()[k] == Value::Obj(x));
            }
        }
    }
}

/// Marks every object that `obj` refers to.
pub fn blacken_object(heap: &mut Heap, obj: Gc, gc_gray_stack: &mut Vec<Gc>)
    requires
        old(heap).wf(),
        heap_closed(*old(heap)),
        old(heap).is_live(obj),
        gray_ok(*old(heap), old(gc_gray_stack)@),
    ensures
        final(heap).wf(),
        gray_ok(*final(heap), final(gc_gray_stack)@),
        marks_grow(*old(heap), old(gc_gray_stack)@, *final(heap), final(gc_gray_stack)@),
        forall|b: Gc| obj_refers_to(old(heap).obj(obj), b) ==> final(heap).is_marked(b),
        forall|x: Gc| #[trigger] final(heap).is_marked(x) ==> old(heap).is_marked(x) || obj_refers_to(old(heap).obj(obj), x),
{
    let ghost o = heap.obj(obj);
    proof {
        assert(gc_gray_stack@.subrange(0, gc_gray_stack@.len() as int) =~= gc_gray_stack@);
        assert forall|b: Gc| obj_refers_to(o, b) implies heap.is_live(b) by {
            assert(obj_refers_to(heap.obj(obj), b));
        }
    }
    let mut is_function = false;
    let mut is_closure = false;
    let mut is_upvalue = false;
    match &heap.get(obj).obj_type {
        ObjType::Function(_) => {
            is_function = true;
        },
        ObjType::Closure(_) => {
            is_closure = true;
        },
        ObjType::Upvalue(_) => {
            is_upvalue = true;
        },
        _ => {},
    }
    if is_function {
        let name = heap.get(obj).as_function().name;
        if let Some(n) = name {
            mark_object(heap, n, gc_gray_stack);
            proof {
                assert(obj_refers_to(o, n));
            }
        }
        let n = heap.get(obj).as_function().chunk.constants.values.len();
        let mut i: usize = 0;
        while i < n
            invariant
                heap.wf(),
                heap.slots() == old(heap).slots(),
                heap.is_live(obj),
                heap.obj(obj) == o,
                o.obj_type is Function,
                n == o.obj_type->Function_0.chunk.constants.values@.len(),
                i <= n,
                forall|b: Gc| obj_refers_to(o, b) ==> old(heap).is_live(b),
                gray_ok(*heap, gc_gray_stack@),
                marks_grow(*old(heap), old(gc_gray_stack)@, *heap, gc_gray_stack@),
                name == o.obj_type->Function_0.name,
                name matches Some(nm) ==> heap.is_marked(nm),
                forall|x: Gc| #[trigger] heap.is_marked(x) ==> old(heap).is_marked(x) || obj_refers_to(o, x),
                forall|k: int| 0 <= k < i ==> (#[trigger] o.obj_type->Function_0.chunk.constants.values@[k] matches Value::Obj(g)
                    ==> heap.is_marked(g)),
            decreases n - i,
        {
            let v = heap.get(obj).as_function().chunk.constants.values[i];
            proof {
                if v is Obj {
                    assert(o.obj_type->Function_0.chunk.constants.values@.contains(v));
                    assert(obj_refers_to(o, v->Obj_0));
                }
            }
            let ghost h2 = *heap;
            let ghost g2 = gc_gray_stack@;
            mark_value(heap, &v, gc_gray_stack);
            proof {
                lemma_marks_grow_trans(*old(heap), old(gc_gray_stack)@, h2, g2, *heap, gc_gray_stack@);
                assert forall|x: Gc| #[trigger] heap.is_marked(x) implies old(heap).is_marked(x) || obj_refers_to(o, x) by {
                    if !h2.is_marked(x) {
                        assert(v == Value::Obj(x));
                    }
                }
                assert forall|k: int| 0 <= k < i + 1 implies (#[trigger] o.obj_type->Function_0.chunk.constants.values@[k] matches Value::Obj(g)
                    ==> heap.is_marked(g)) by {
                    if k < i && o.obj_type->Function_0.chunk.constants.values@[k] is Obj {
                        assert(h2.is_marked(o.obj_type->Function_0.chunk.constants.values@[k]->Obj_0));
                    }
                }
                if name is Some {
                    assert(h2.is_marked(name->Some_0));
                }
            }
            i = i + 1;
        }
        proof {
            assert forall|b: Gc| obj_refers_to(o, b) implies heap.is_marked(b) by {
                let cs = o.obj_type->Function_0.chunk.constants.values@;
                if cs.contains(Value::Obj(b)) {
                    let k = choose|k: int| 0 <= k < cs.len() && cs[k] == Value::Obj(b);
                    assert(cs[k] matches Value::Obj(g) ==> heap.is_marked(g));
                }
            }
        }
    } else if is_closure {
        let function = heap.get(obj).as_closure().function;
        mark_object(heap, function, gc_gray_stack);
        proof {
            assert(obj_refers_to(o, function));
        }
        let n = heap.get(obj).as_closure().upvalues.len();
        let mut i: usize = 0;
        while i < n
            invariant
                heap.wf(),
                heap.slots() == old(heap).slots(),
                heap.is_live(obj),
                heap.obj(obj) == o,
                o.obj_type is Closure,
                n == o.obj_type->Closure_0.upvalues@.len(),
                i <= n,
                forall|b: Gc| obj_refers_to(o, b) ==> old(heap).is_live(b),
                gray_ok(*heap, gc_gray_stack@),
                marks_grow(*old(heap), old(gc_gray_stack)@, *heap, gc_gray_stack@),
                function == o.obj_type->Closure_0.function,
                heap.is_marked(function),
                forall|k: int| 0 <= k < i ==> heap.is_marked(#[trigger] o.obj_type->Closure_0.upvalues@[k]),
                forall|x: Gc| #[trigger] heap.is_marked(x) ==> old(heap).is_marked(x) || obj_refers_to(o, x),
            decreases n - i,
        {
            let u = heap.get(obj).as_closure().upvalues[i];
            proof {
                assert(o.obj_type->Closure_0.upvalues@.contains(u));
                assert(obj_refers_to(o, u));
                assert(old(heap).is_live(u));
                assert(heap.is_live(u));
            }
            let ghost h2 = *heap;
            let ghost g2 = gc_gray_stack@;
            mark_object(heap, u, gc_gray_stack);
            proof {
                lemma_marks_grow_trans(*old(heap), old(gc_gray_stack)@, h2, g2, *heap, gc_gray_stack@);
                assert forall|x: Gc| #[trigger] heap.is_marked(x) implies old(heap).is_marked(x) || obj_refers_to(o, x) by {
                    if !h2.is_marked(x) {
                        assert(x == u);
                    }
                }
                assert forall|k: int| 0 <= k < i + 1 implies heap.is_marked(#[trigger] o.obj_type->Closure_0.upvalues@[k]) by {
                    if k < i {
                        assert(h2.is_marked(o.obj_type->Closure_0.upvalues@[k]));
                    }
                }
                assert(h2.is_marked(function));
            }
            i = i + 1;
        }
        proof {
            assert forall|b: Gc| obj_refers_to(o, b) implies heap.is_marked(b) by {
                let us = o.obj_type->Closure_0.upvalues@;
                if us.contains(b) {
                    let k = choose|k: int| 0 <= k < us.len() && us[k] == b;
                    assert(heap.is_marked(us[k]));
                }
            }
        }
    } else if is_upvalue {
        let closed = heap.get(obj).as_upvalue().closed;
        if let Some(v) = closed {
            proof {
                if v is Obj {
                    assert(obj_refers_to(o, v->Obj_0));
                }
            }
            mark_value(heap, &v, gc_gray_stack);
            proof {
                assert forall|x: Gc| #[trigger] heap.is_marked(x) implies old(heap).is_marked(x) || obj_refers_to(o, x) by {
                    if !old(heap).is_marked(x) {
                        assert(v == Value::Obj(x));
                    }
                }
            }
        }
    }
}

/// Two heaps with the same slots are closed alike.
pub proof fn lemma_closed_same_slots(h1: Heap, h2: Heap)
    requires
        h1.slots() == h2.slots(),
        heap_closed(h1),
    ensures
        heap_closed(h2),
{
    assert forall|a: Gc, b: Gc| #![trigger h2.obj(a), h2.is_live(b)] h2.is_live(a) && obj_refers_to(h2.obj(a), b) implies h2.is_live(b) by {
        assert(h1.is_live(a) && h1.obj(a) == h2.obj(a));
        assert(h1.is_live(b));
    }
}

/// Blackens the gray objects until none is left: then every marked object
/// refers to marked objects only.
pub fn trace_reference(heap: &mut Heap, gc_gray_stack: &mut Vec<Gc>)
    requires
        old(heap).wf(),
        heap_closed(*old(heap)),
        gray_ok(*old(heap), old(gc_gray_stack)@),
        black_closed(*old(heap), old(gc_gray_stack)@, None),
    ensures
        final(heap).wf(),
        final(heap).slots() == old(heap).slots(),
        final(heap).free_slots() == old(heap).free_slots(),
        final(gc_gray_stack)@.len() == 0,
        forall|x: Gc| #[trigger] old(heap).is_marked(x) ==> final(heap).is_marked(x),
        forall|x: Gc| #[trigger] final(heap).is_marked(x) ==> reached_from_marked(*old(heap), x),
        black_closed(*final(heap), final(gc_gray_stack)@, None),
{
    proof {
        assert forall|x: Gc| #[trigger] heap.is_marked(x) implies reached_from_marked(*old(heap), x) by {
            assert(reaches(*old(heap), x, x, 0));
        }
    }
    while gc_gray_stack.len() > 0
        invariant
            heap.wf(),
            heap.slots() == old(heap).slots(),
            heap.free_slots() == old(heap).free_slots(),
            heap_closed(*heap),
            gray_ok(*heap, gc_gray_stack@),
            black_closed(*heap, gc_gray_stack@, None),
            forall|x: Gc| #[trigger] old(heap).is_marked(x) ==> heap.is_marked(x),
            forall|x: Gc| #[trigger] heap.is_marked(x) ==> reached_from_marked(*old(heap), x),
        decreases 2 * heap.unmarked() + gc_gray_stack@.len(),
    {
        let ghost g0 = gc_gray_stack@;
        let obj = gc_gray_stack.pop().unwrap();
        let ghost h1 = *heap;
        let ghost g1 = gc_gray_stack@;
        proof {
            assert(g1 =~= g0.drop_last());
            assert(g0[g0.len() - 1] == obj);
            assert(!g1.contains(obj)) by {
                if g1.contains(obj) {
                    let k = choose|k: int| 0 <= k < g1.len() && g1[k] == obj;
                    assert(g0[k] == g0[g0.len() - 1]);
                }
            }
            assert(gray_ok(h1, g1)) by {
                assert forall|k: int| 0 <= k < g1.len() implies h1.is_live(#[trigger] g1[k]) && h1.is_marked(g1[k]) by {
                    assert(g1[k] == g0[k]);
                }
            }
            assert(black_closed(h1, g1, Some(obj))) by {
                assert forall|a: Gc, b: Gc| #![trigger obj_refers_to(h1.obj(a), b)]
                    h1.is_live(a) && h1.is_marked(a) && !g1.contains(a) && Some(obj) != Some(a) && obj_refers_to(h1.obj(a), b)
                    implies h1.is_marked(b) by {
                    if g0.contains(a) {
                        let k = choose|k: int| 0 <= k < g0.len() && g0[k] == a;
                        if k < g0.len() - 1 {
                            assert(g1[k] == a);
                        }
                    }
                }
            }
        }
        blacken_object(heap, obj, gc_gray_stack);
        proof {
            assert forall|x: Gc| #[trigger] heap.is_marked(x) implies reached_from_marked(*old(heap), x) by {
                if !h1.is_marked(x) {
                    assert(h1.is_marked(obj));
                    let (a, n) = choose|a: Gc, n: nat| old(heap).is_marked(a) && #[trigger] reaches(*old(heap), a, obj, n);
                    assert(old(heap).is_live(obj) && old(heap).obj(obj) == h1.obj(obj));
                    lemma_reaches_extend(*old(heap), a, obj, x, n);
                }
            }
            lemma_closed_same_slots(h1, *heap);
            lemma_black_closed_grow(h1, g1, *heap, gc_gray_stack@, Some(obj));
            assert(black_closed(*heap, gc_gray_stack@, None)) by {
                assert forall|a: Gc, b: Gc| #![trigger obj_refers_to(heap.obj(a), b)]
                    heap.is_live(a) && heap.is_marked(a) && !gc_gray_stack@.contains(a) && None::<Gc> != Some(a)
                        && obj_refers_to(heap.obj(a), b) implies heap.is_marked(b) by {
                    if a == obj {
                        assert(heap.obj(a) == h1.obj(a));
                    }
                }
            }
        }
    }
}

/// Frees every live object that is not marked and clears the marks of the
/// others.
pub fn sweep(heap: &mut Heap)
    requires
        old(heap).wf(),
    ensures
        final(heap).wf(),
        final(heap).slots().len() == old(heap).slots().len(),
        forall|g: Gc| #[trigger] final(heap).is_live(g) == (old(heap).is_live(g) && old(heap).is_marked(g)),
        forall|g: Gc| #[trigger] final(heap).is_live(g) ==> final(heap).obj(g) == old(heap).obj(g),
        forall|g: Gc| !(#[trigger] final(heap).is_marked(g)),
{
    let n = heap.capacity();
    let mut i: usize = 0;
    while i < n
        invariant
            heap.wf(),
            n == old(heap).slots().len(),
            heap.slots().len() == n,
            heap.mark_bits().len() == n,
            old(heap).mark_bits().len() == n,
            i <= n,
            forall|j: int| 0 <= j < i ==> {
                &&& #[trigger] heap.slots()[j] == (if old(heap).slots()[j] is Some && old(heap).mark_bits()[j] {
                    old(heap).slots()[j]
                } else {
                    None
                })
                &&& !heap.mark_bits()[j]
            },
            forall|j: int| i <= j < n ==> #[trigger] heap.slots()[j] == old(heap).slots()[j] && heap.mark_bits()[j] == old(heap).mark_bits()[j],
        decreases n - i,
    {
        let g = Gc { index: i };
        let ghost h0 = *heap;
        if heap.is_live_exec(g) && !heap.marked_exec(g) {
            heap.free_obj(g);
        }
        let ghost h1 = *heap;
        heap.clear_mark(g);
        proof {
            assert(h1.slots() == h0.slots() || h1.slots() == h0.slots().update(i as int, None));
            assert forall|j: int| 0 <= j < i + 1 implies {
                &&& #[trigger] heap.slots()[j] == (if old(heap).slots()[j] is Some && old(heap).mark_bits()[j] {
                    old(heap).slots()[j]
                } else {
                    None
                })
                &&& !heap.mark_bits()[j]
            } by {
                if j < i {
                    assert(heap.slots()[j] == h0.slots()[j]);
                    assert(heap.mark_bits()[j] == h0.mark_bits()[j]);
                }
            }
            assert forall|j: int| i + 1 <= j < n implies #[trigger] heap.slots()[j] == old(heap).slots()[j] && heap.mark_bits()[j]
                == old(heap).mark_bits()[j] by {
                assert(heap.slots()[j] == h0.slots()[j]);
                assert(heap.mark_bits()[j] == h0.mark_bits()[j]);
            }
        }
        i = i + 1;
    }
    proof {
        assert forall|g: Gc| #[trigger] heap.is_live(g) == (old(heap).is_live(g) && old(heap).is_marked(g)) by {
            if g.index < n {
                assert(heap.slots()[g.index as int] == (if old(heap).slots()[g.index as int] is Some && old(heap).mark_bits()[g.index as int] {
                    old(heap).slots()[g.index as int]
                } else {
                    None
                }));
            }
        }
        assert forall|g: Gc| #[trigger] heap.is_live(g) implies heap.obj(g) == old(heap).obj(g) by {
            assert(heap.slots()[g.index as int] == (if old(heap).slots()[g.index as int] is Some && old(heap).mark_bits()[g.index as int] {
                old(heap).slots()[g.index as int]
            } else {
                None
            }));
        }
        assert forall|g: Gc| !(#[trigger] heap.is_marked(g)) by {
            if g.index < n {
                let _ = heap.slots()[g.index as int];
                assert(!heap.mark_bits()[g.index as int]);
            }
        }
    }
}

impl Heap {
    /// Clears every mark.
    pub fn clear_marks(&mut self)
        requires
            old(self).wf(),
        ensures
            final(self).wf(),
            final(self).slots() == old(self).slots(),
            final(self).free_slots() == old(self).free_slots(),
            forall|g: Gc| !(#[trigger] final(self).is_marked(g)),
    {
        let n = self.capacity();
        let mut i: usize = 0;
        while i < n
            invariant
                self.wf(),
                self.slots() == old(self).slots(),
                self.free_slots() == old(self).free_slots(),
                n == self.slots().len(),
                i <= n,
                forall|j: int| 0 <= j < i ==> !(#[trigger] self.mark_bits()[j]),
            decreases n - i,
        {
            self.clear_mark(Gc { index: i });
            i = i + 1;
        }
        proof {
            assert forall|g: Gc| !(#[trigger] self.is_marked(g)) by {
                if g.index < n {
                    assert(!self.mark_bits()[g.index as int]);
                }
            }
        }
    }
}

/// Drops from the string table every string that the collector did not
/// mark.
pub fn remove_white_strings(strings: &mut StringTable, heap: &Heap)
    requires
        old(strings).wf(),
        heap.wf(),
    ensures
        final(strings).wf(),
        forall|k: Seq<char>| #[trigger] final(strings).view().contains_key(k) == (old(strings).view().contains_key(k)
            && marked_live(*heap, old(strings).view()[k])),
        forall|k: Seq<char>| #[trigger] final(strings).view().contains_key(k) ==> final(strings).view()[k] == old(strings).view()[k],
{
    strings.retain_marked(heap);
}

/// `b` is reached from `a` by following `n` references.
pub open spec fn reaches(heap: Heap, a: Gc, b: Gc, n: nat) -> bool
    decreases n,
{
    if n == 0 {
        a == b
    } else {
        exists|c: Gc| heap.is_live(a) && #[trigger] obj_refers_to(heap.obj(a), c) && reaches(heap, c, b, (n - 1) as nat)
    }
}

/// `x` is reached from an object marked in `heap`.
pub open spec fn reached_from_marked(heap: Heap, x: Gc) -> bool {
    exists|a: Gc, n: nat| heap.is_marked(a) && #[trigger] reaches(heap, a, x, n)
}

/// A path to `g` followed by one of `g`'s references is a path one longer.
pub proof fn lemma_reaches_extend(heap: Heap, a: Gc, g: Gc, c: Gc, n: nat)
    requires
        reaches(heap, a, g, n),
        heap.is_live(g),
        obj_refers_to(heap.obj(g), c),
    ensures
        reaches(heap, a, c, n + 1),
    decreases n,
{
    if n == 0 {
        assert(reaches(heap, c, c, 0));
        assert(obj_refers_to(heap.obj(a), c));
    } else {
        let c1 = choose|c1: Gc| heap.is_live(a) && #[trigger] obj_refers_to(heap.obj(a), c1) && reaches(heap, c1, g, (n - 1) as nat);
        lemma_reaches_extend(heap, c1, g, c, (n - 1) as nat);
        assert(((n + 1) - 1) as nat == n);
        assert(obj_refers_to(heap.obj(a), c1) && reaches(heap, c1, c, n));
    }
}

/// Paths depend on the objects alone, not on the marks.
pub proof fn lemma_reaches_same_slots(h1: Heap, h2: Heap, a: Gc, b: Gc, n: nat)
    requires
        h1.slots() == h2.slots(),
        reaches(h1, a, b, n),
    ensures
        reaches(h2, a, b, n),
    decreases n,
{
    if n > 0 {
        let c = choose|c: Gc| h1.is_live(a) && #[trigger] obj_refers_to(h1.obj(a), c) && reaches(h1, c, b, (n - 1) as nat);
        lemma_reaches_same_slots(h1, h2, c, b, (n - 1) as nat);
        assert(h2.is_live(a) && obj_refers_to(h2.obj(a), c));
    }
}

/// A heap that kept some objects of `before` unchanged and is closed under
/// references keeps every object that one of its objects reaches in
/// `before`.
pub proof fn lemma_closed_keeps_reachable(before: Heap, after: Heap, a: Gc, b: Gc, n: nat)
    requires
        heap_closed(after),
        forall|g: Gc| #[trigger] after.is_live(g) ==> before.is_live(g) && after.obj(g) == before.obj(g),
        after.is_live(a),
        reaches(before, a, b, n),
    ensures
        after.is_live(b),
        after.obj(b) == before.obj(b),
    decreases n,
{
    if n > 0 {
        let c = choose|c: Gc| before.is_live(a) && #[trigger] obj_refers_to(before.obj(a), c) && reaches(before, c, b, (n - 1) as nat);
        assert(obj_refers_to(after.obj(a), c));
        assert(after.is_live(c));
        lemma_closed_keeps_reachable(before, after, c, b, (n - 1) as nat);
    }
}

} // verus!

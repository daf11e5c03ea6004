use vstd::prelude::*;

use crate::memory::{heap_grows, Gc, Heap};
use crate::value::{Obj, ObjType};

verus! {

/// Offset basis of the 32-bit FNV-1a hash.
pub const FNV_OFFSET_BASIS: u32 = 2166136261;

/// Prime of the 32-bit FNV-1a hash.
pub const FNV_PRIME: u32 = 16777619;

/// One FNV-1a round: xor the byte in, then multiply by the prime modulo 2^32.
pub open spec fn fnv_step(hash: u32, byte: u8) -> u32 {
    ((hash ^ (byte as u32)) as int * FNV_PRIME as int % 0x1_0000_0000) as u32
}

/// FNV-1a over a byte sequence, starting from `hash`.
pub open spec fn fnv_fold(hash: u32, bytes: Seq<u8>) -> u32
    decreases bytes.len(),
{
    if bytes.len() == 0 {
        hash
    } else {
        fnv_step(fnv_fold(hash, bytes.drop_last()), bytes.last())
    }
}

/// Builds FNV-1a hashers.
#[derive(Clone)]
pub struct BuildHasherFNV {}

/// A 32-bit FNV-1a hasher state.
pub struct FNVHasher {
    pub hash: u32,
}

impl BuildHasherFNV {
    pub fn new() -> (res: Self) {
        BuildHasherFNV {}
    }

    /// A fresh hasher, holding the FNV offset basis.
    pub fn build_hasher(&self) -> (res: FNVHasher)
        ensures
            res.hash == FNV_OFFSET_BASIS,
    {
        FNVHasher { hash: FNV_OFFSET_BASIS }
    }
}

impl FNVHasher {
    /// The hash so far, widened to 64 bits.
    pub fn finish(&self) -> (res: u64)
        ensures
            res == self.hash as u64,
    {
        self.hash as u64
    }

    /// Feeds `bytes` through FNV-1a.
    pub fn write(&mut self, bytes: &[u8])
        ensures
            final(self).hash == fnv_fold(old(self).hash, bytes@),
    {
        let ghost start = self.hash;
        let mut i: usize = 0;
        while i < bytes.len()
            invariant
                i <= bytes@.len(),
                self.hash == fnv_fold(start, bytes@.subrange(0, i as int)),
            decreases bytes@.len() - i,
        {
            let b = bytes[i];
            let x: u32 = self.hash ^ (b as u32);
            let h: u32 = x.wrapping_mul(FNV_PRIME);
            assert(bytes@.subrange(0, i + 1).drop_last() =~= bytes@.subrange(0, i as int));
            self.hash = h;
            i = i + 1;
        }
        assert(bytes@.subrange(0, bytes@.len() as int) =~= bytes@);
    }
}


/// A table from names to values, as the interpreter uses it for its global
/// variables and its interned strings.
///
/// The entries are kept as two parallel vectors; no name occurs twice.
pub struct Table<T> {
    keys: Vec<String>,
    values: Vec<T>,
}

/// The names of a table as they are viewed: sequences of characters.
pub open spec fn key_views(keys: Seq<String>) -> Seq<Seq<char>> {
    keys.map_values(|k: String| k@)
}

/// No name occurs twice.
pub open spec fn keys_unique(keys: Seq<String>) -> bool {
    forall|i: int, j: int|
        0 <= i < keys.len() && 0 <= j < keys.len() && i != j ==> keys[i]@ != keys[j]@
}

impl<T> Table<T> {
    /// The entries are well formed: the vectors have one length and the names
    /// are distinct.
    pub closed spec fn wf(&self) -> bool {
        &&& self.keys@.len() == self.values@.len()
        &&& keys_unique(self.keys@)
    }

    /// The number of entries.
    pub closed spec fn spec_len(&self) -> nat {
        self.keys@.len()
    }

    /// The name of entry `i`.
    pub closed spec fn key_at_spec(&self, i: int) -> Seq<char> {
        self.keys@[i]@
    }

    /// The value of entry `i`.
    pub closed spec fn value_at_spec(&self, i: int) -> T {
        self.values@[i]
    }

    /// Whether `name` is bound.
    pub open spec fn contains(&self, name: Seq<char>) -> bool {
        exists|i: int| 0 <= i < self.spec_len() && self.key_at_spec(i) == name
    }

    /// The index of the entry for `name`, where it is bound.
    pub open spec fn index_of(&self, name: Seq<char>) -> int {
        choose|i: int| 0 <= i < self.spec_len() && self.key_at_spec(i) == name
    }

    /// The table as a map from names to values.
    pub open spec fn view(&self) -> Map<Seq<char>, T> {
        Map::new(|k: Seq<char>| self.contains(k), |k: Seq<char>| self.value_at_spec(self.index_of(k)))
    }

    /// Entry `i` is the one entry of its name.
    pub proof fn lemma_index_of(&self, i: int)
        requires
            self.wf(),
            0 <= i < self.spec_len(),
        ensures
            self.contains(self.key_at_spec(i)),
            self.index_of(self.key_at_spec(i)) == i,
            self.view().contains_key(self.key_at_spec(i)),
            self.view()[self.key_at_spec(i)] == self.value_at_spec(i),
    {
        let k = self.key_at_spec(i);
        assert(self.contains(k));
        let j = self.index_of(k);
        assert(0 <= j < self.spec_len() && self.key_at_spec(j) == k);
        if j != i {
            assert(self.keys@[i]@ != self.keys@[j]@);
        }
    }

    pub fn new() -> (res: Self)
        ensures
            res.wf(),
            res.view() == Map::<Seq<char>, T>::empty(),
            res.spec_len() == 0,
    {
        let res = Table { keys: Vec::new(), values: Vec::new() };
        assert(res.view() =~= Map::<Seq<char>, T>::empty());
        res
    }

    /// The number of entries.
    pub fn len(&self) -> (res: usize)
        requires
            self.wf(),
        ensures
            res == self.spec_len(),
            res == self.view().dom().len(),
    {
        proof {
            self.lemma_dom_len();
        }
        self.keys.len()
    }

    /// The domain of the view has one element per entry.
    pub proof fn lemma_dom_len(&self)
        requires
            self.wf(),
        ensures
            self.view().dom().finite(),
            self.view().dom().len() == self.spec_len(),
    {
        let ks = key_views(self.keys@);
        assert(ks.no_duplicates()) by {
            assert forall|i: int, j: int| 0 <= i < ks.len() && 0 <= j < ks.len() && i != j implies ks[i] != ks[j] by {
                assert(ks[i] == self.keys@[i]@);
                assert(ks[j] == self.keys@[j]@);
            }
        }
        assert(self.view().dom() =~= ks.to_set()) by {
            assert forall|k: Seq<char>| self.view().dom().contains(k) implies ks.to_set().contains(k) by {
                let i = self.index_of(k);
                assert(ks[i] == k);
            }
            assert forall|k: Seq<char>| ks.to_set().contains(k) implies self.view().dom().contains(k) by {
                let i = choose|i: int| 0 <= i < ks.len() && ks[i] == k;
                assert(self.key_at_spec(i) == k);
            }
        }
        ks.unique_seq_to_set();
    }

    /// The value of entry `i`.
    pub fn value_at(&self, i: usize) -> (res: &T)
        requires
            self.wf(),
            i < self.spec_len(),
        ensures
            *res == self.value_at_spec(i as int),
    {
        &self.values[i]
    }

    /// Every bound name's value is the value of some entry.
    pub proof fn lemma_view_entry(&self, k: Seq<char>)
        requires
            self.view().contains_key(k),
        ensures
            0 <= self.index_of(k) < self.spec_len(),
            self.view()[k] == self.value_at_spec(self.index_of(k)),
    {
    }

    /// The position of `name` among the entries, if it is bound.
    fn find(&self, name: &String) -> (res: Option<usize>)
        requires
            self.wf(),
        ensures
            match res {
                Some(i) => i < self.spec_len() && self.key_at_spec(i as int) == name@,
                None => !self.contains(name@),
            },
    {
        let mut i: usize = 0;
        while i < self.keys.len()
            invariant
                self.wf(),
                i <= self.spec_len(),
                forall|j: int| 0 <= j < i ==> self.key_at_spec(j) != name@,
            decreases self.spec_len() - i,
        {
            if self.keys[i] == *name {
                return Some(i);
            }
            i = i + 1;
        }
        None
    }

    /// The value bound to `name`, if any.
    pub fn get(&self, name: &str) -> (res: Option<&T>)
        requires
            self.wf(),
        ensures
            match res {
                Some(v) => self.view().contains_key(name@) && *v == self.view()[name@],
                None => !self.view().contains_key(name@),
            },
    {
        let key = name.to_string();
        match self.find(&key) {
            Some(i) => {
                proof {
                    self.lemma_index_of(i as int);
                }
                Some(&self.values[i])
            },
            None => None,
        }
    }

    /// Binds `name` to `value`, and gives back the value it was bound to before.
    pub fn insert(&mut self, name: String, value: T) -> (res: Option<T>)
        requires
            old(self).wf(),
        ensures
            final(self).wf(),
            final(self).view() == old(self).view().insert(name@, value),
            match res {
                Some(v) => old(self).view().contains_key(name@) && v == old(self).view()[name@],
                None => !old(self).view().contains_key(name@),
            },
    {
        match self.find(&name) {
            Some(i) => {
                proof {
                    self.lemma_index_of(i as int);
                }
                let old_value = self.values.remove(i);
                self.values.insert(i, value);
                proof {
                    assert(self.values@ =~= old(self).values@.update(i as int, value));
                    self.lemma_after_update(*old(self), i as int, value);
                }
                Some(old_value)
            },
            None => {
                let ghost k = name@;
                self.keys.push(name);
                self.values.push(value);
                proof {
                    assert(self.keys@.drop_last() =~= old(self).keys@);
                    self.lemma_after_push(*old(self), k, value);
                }
                None
            },
        }
    }

    proof fn lemma_after_update(&self, pre: Self, i: int, value: T)
        requires
            pre.wf(),
            0 <= i < pre.spec_len(),
            self.keys@ == pre.keys@,
            self.values@ == pre.values@.update(i, value),
        ensures
            self.wf(),
            self.view() == pre.view().insert(pre.key_at_spec(i), value),
    {
        let k = pre.key_at_spec(i);
        assert forall|x: Seq<char>| #![auto] self.contains(x) == pre.view().insert(k, value).contains_key(x) by {
            if self.contains(x) {
                let j = self.index_of(x);
                assert(pre.key_at_spec(j) == x);
            }
            if pre.contains(x) {
                let j = pre.index_of(x);
                assert(self.key_at_spec(j) == x);
            }
        }
        assert forall|x: Seq<char>| #![auto] self.contains(x) implies self.view()[x] == pre.view().insert(k, value)[x] by {
            let j = self.index_of(x);
            self.lemma_index_of(j);
            pre.lemma_index_of(j);
        }
        assert(self.view() =~= pre.view().insert(k, value));
    }

    proof fn lemma_after_push(&self, pre: Self, k: Seq<char>, value: T)
        requires
            pre.wf(),
            !pre.contains(k),
            self.keys@.len() == pre.keys@.len() + 1,
            self.keys@.drop_last() == pre.keys@,
            self.keys@.last()@ == k,
            self.values@ == pre.values@.push(value),
        ensures
            self.wf(),
            self.view() == pre.view().insert(k, value),
    {
        let n = pre.spec_len() as int;
        assert forall|i: int| 0 <= i < n implies self.keys@[i] == pre.keys@[i] by {
            assert(self.keys@.drop_last()[i] == self.keys@[i]);
        }
        assert forall|i: int, j: int| 0 <= i < self.keys@.len() && 0 <= j < self.keys@.len() && i != j
            implies self.keys@[i]@ != self.keys@[j]@ by {
            if i == n {
                assert(pre.key_at_spec(j) != k);
            } else if j == n {
                assert(pre.key_at_spec(i) != k);
            }
        }
        assert(self.wf());
        assert forall|x: Seq<char>| #![auto] self.contains(x) == pre.view().insert(k, value).contains_key(x) by {
            if self.contains(x) {
                let j = self.index_of(x);
                if j < n {
                    assert(pre.key_at_spec(j) == x);
                }
            }
            if pre.contains(x) {
                let j = pre.index_of(x);
                assert(self.key_at_spec(j) == x);
            }
            if x == k {
                assert(self.key_at_spec(n) == x);
            }
        }
        assert forall|x: Seq<char>| #![auto] self.contains(x) implies self.view()[x] == pre.view().insert(k, value)[x] by {
            let j = self.index_of(x);
            self.lemma_index_of(j);
            if j < n {
                pre.lemma_index_of(j);
            }
        }
        assert(self.view() =~= pre.view().insert(k, value));
    }

    /// Assigns `value` to `name` if it is bound already; answers whether it was.
    pub fn set(&mut self, name: &str, value: T) -> (res: bool)
        requires
            old(self).wf(),
        ensures
            final(self).wf(),
            res == old(self).view().contains_key(name@),
            res ==> final(self).view() == old(self).view().insert(name@, value),
            !res ==> final(self).view() == old(self).view(),
            !res ==> *final(self) == *old(self),
    {
        let key = name.to_string();
        match self.find(&key) {
            Some(i) => {
                proof {
                    self.lemma_index_of(i as int);
                }
                let _ = self.values.remove(i);
                self.values.insert(i, value);
                proof {
                    assert(self.values@ =~= old(self).values@.update(i as int, value));
                    self.lemma_after_update(*old(self), i as int, value);
                }
                true
            },
            None => false,
        }
    }

    /// Binds `name` to `value`, whether or not it was bound before.
    pub fn define(&mut self, name: &str, value: T)
        requires
            old(self).wf(),
        ensures
            final(self).wf(),
            final(self).view() == old(self).view().insert(name@, value),
    {
        let _ = self.insert(name.to_string(), value);
    }
}


/// Every name in the table maps to a live string object holding that name.
pub open spec fn interns(strings: Table<Gc>, heap: Heap) -> bool {
    forall|k: Seq<char>| #![trigger strings.view()[k]] strings.view().contains_key(k) ==> {
        &&& heap.is_live(strings.view()[k])
        &&& heap.obj(strings.view()[k]).obj_type matches ObjType::String(t) && t@ == k
    }
}

impl Default for BuildHasherFNV {
    fn default() -> (res: Self) {
        Self::new()
    }
}

impl<T> Default for Table<T> {
    fn default() -> (res: Self)
        ensures
            res.wf(),
            res.view() == Map::<Seq<char>, T>::empty(),
    {
        Self::new()
    }
}

/// The table of interned strings.
pub type StringTable = Table<Gc>;

/// The table of global variables.
pub type GlobalVariableTable = Table<crate::value::Value>;

impl Table<Gc> {
    /// The one string object holding `s`: the one interned already, or a new
    /// one, allocated on `heap` and interned.
    pub fn intern(&mut self, heap: &mut Heap, s: String) -> (res: Gc)
        requires
            old(self).wf(),
            old(heap).wf(),
            interns(*old(self), *old(heap)),
        ensures
            final(self).wf(),
            final(heap).wf(),
            interns(*final(self), *final(heap)),
            heap_grows(*old(heap), *final(heap)),
            forall|x: Gc| #[trigger] final(heap).is_live(x) ==> old(heap).is_live(x) || x == res,
            final(self).view() == old(self).view().insert(s@, res),
            final(heap).is_live(res),
            final(heap).obj(res).obj_type matches ObjType::String(t) && t@ == s@,
            old(self).view().contains_key(s@) ==> res == old(self).view()[s@] && *final(heap) == *old(heap),
            !old(self).view().contains_key(s@) ==> res == old(heap).next_slot(),
    {
        match self.get(s.as_str()) {
            Some(g) => {
                let g = *g;
                proof {
                    assert(self.view().insert(s@, g) =~= self.view());
                }
                g
            },
            None => {
                let ghost k = s@;
                let key = s.clone();
                let g = Gc::new(heap, Obj::new_string(s));
                self.insert(key, g);
                proof {
                    assert forall|k2: Seq<char>| #![trigger self.view()[k2]] self.view().contains_key(k2) implies {
                        &&& heap.is_live(self.view()[k2])
                        &&& heap.obj(self.view()[k2]).obj_type matches ObjType::String(t) && t@ == k2
                    } by {
                        if k2 != k {
                            assert(old(self).view().contains_key(k2));
                            let g2 = old(self).view()[k2];
                            assert(old(heap).is_live(g2));
                            assert(g2 != g);
                            assert(heap.is_live(g2));
                            assert(self.view()[k2] == g2);
                        } else {
                            assert(self.view()[k2] == g);
                        }
                    }
                    assert forall|h: Gc| #![trigger heap.is_live(h)] old(heap).is_live(h) implies heap.is_live(h)
                        && heap.obj(h) == old(heap).obj(h) by {
                        assert(h != g);
                    }
                }
                g
            },
        }
    }
}

/// `g` names a live object that the collector marked.
pub open spec fn marked_live(heap: Heap, g: Gc) -> bool {
    heap.is_live(g) && heap.is_marked(g)
}

impl Table<Gc> {
    /// Drops every entry whose object is not live and marked.
    pub fn retain_marked(&mut self, heap: &Heap)
        requires
            old(self).wf(),
            heap.wf(),
        ensures
            final(self).wf(),
            forall|k: Seq<char>| #[trigger] final(self).view().contains_key(k) == (old(self).view().contains_key(k)
                && marked_live(*heap, old(self).view()[k])),
            forall|k: Seq<char>| #[trigger] final(self).view().contains_key(k) ==> final(self).view()[k] == old(self).view()[k],
    {
        let n = self.keys.len();
        let mut keys: Vec<String> = Vec::new();
        let mut values: Vec<Gc> = Vec::new();
        let ghost mut idx: Seq<int> = Seq::empty();
        let mut i: usize = 0;
        while i < n
            invariant
                *self == *old(self),
                self.wf(),
                heap.wf(),
                n == self.keys@.len(),
                i <= n,
                keys@.len() == idx.len(),
                values@.len() == idx.len(),
                forall|j: int| 0 <= j < idx.len() ==> {
                    &&& 0 <= #[trigger] idx[j] < i
                    &&& keys@[j]@ == self.keys@[idx[j]]@
                    &&& values@[j] == self.values@[idx[j]]
                    &&& marked_live(*heap, self.values@[idx[j]])
                },
                forall|j1: int, j2: int| 0 <= j1 < j2 < idx.len() ==> idx[j1] < idx[j2],
                forall|m: int| 0 <= m < i && marked_live(*heap, #[trigger] self.values@[m]) ==> exists|j: int|
                    0 <= j < idx.len() && idx[j] == m,
            decreases n - i,
        {
            let g = self.values[i];
            if heap.is_live_exec(g) && heap.marked_exec(g) {
                keys.push(self.keys[i].clone());
                values.push(g);
                proof {
                    let ghost idx0 = idx;
                    idx = idx.push(i as int);
                    assert(idx[idx.len() - 1] == i);
                    assert forall|m: int| 0 <= m < i + 1 && marked_live(*heap, #[trigger] self.values@[m]) implies exists|j: int|
                        0 <= j < idx.len() && idx[j] == m by {
                        if m == i {
                            assert(idx[idx.len() - 1] == m);
                        } else {
                            let j = choose|j: int| 0 <= j < idx0.len() && idx0[j] == m;
                            assert(idx[j] == m);
                        }
                    }
                }
            }
            i = i + 1;
        }
        let ghost pre = *self;
        let res = Table { keys, values };
        proof {
            assert(keys_unique(res.keys@)) by {
                assert forall|a: int, b: int| 0 <= a < res.keys@.len() && 0 <= b < res.keys@.len() && a != b
                    implies res.keys@[a]@ != res.keys@[b]@ by {
                    let ia = idx[a];
                    let ib = idx[b];
                    if a < b {
                        assert(ia < ib);
                    } else {
                        assert(ib < ia);
                    }
                    assert(pre.keys@[ia]@ != pre.keys@[ib]@);
                }
            }
            assert forall|k: Seq<char>| #[trigger] res.view().contains_key(k) == (pre.view().contains_key(k) && marked_live(*heap, pre.view()[k]))
                && (res.view().contains_key(k) ==> res.view()[k] == pre.view()[k]) by {
                if res.view().contains_key(k) {
                    let j = res.index_of(k);
                    let m = idx[j];
                    assert(pre.key_at_spec(m) == k);
                    pre.lemma_index_of(m);
                    res.lemma_index_of(j);
                }
                if pre.view().contains_key(k) && marked_live(*heap, pre.view()[k]) {
                    let m = pre.index_of(k);
                    pre.lemma_index_of(m);
                    assert(marked_live(*heap, pre.values@[m]));
                    let j = choose|j: int| 0 <= j < idx.len() && idx[j] == m;
                    assert(res.key_at_spec(j) == k);
                    assert(res.contains(k));
                }
            }
        }
        *self = res;
    }
}

/// FNV-1a works byte by byte: hashing `a` and then `b` is hashing `a`
/// followed by `b`.
pub proof fn lemma_fnv_concat(hash: u32, a: Seq<u8>, b: Seq<u8>)
    ensures
        fnv_fold(fnv_fold(hash, a), b) == fnv_fold(hash, a + b),
    decreases b.len(),
{
    if b.len() == 0 {
        assert(a + b =~= a);
    } else {
        lemma_fnv_concat(hash, a, b.drop_last());
        assert((a + b).drop_last() =~= a + b.drop_last());
        assert((a + b).last() == b.last());
    }
}

/// A read gives back what the last write wrote: once a name is bound to a
/// value (by `insert`, `define`, or a `set` that succeeds), `get` finds that
/// value under the name and every other name as it was.
pub proof fn lemma_read_after_write<T>(before: Table<T>, after: Table<T>, name: Seq<char>, value: T, other: Seq<char>)
    requires
        after.view() == before.view().insert(name, value),
    ensures
        after.view().contains_key(name),
        after.view()[name] == value,
        other != name ==> after.view().contains_key(other) == before.view().contains_key(other),
        other != name && before.view().contains_key(other) ==> after.view()[other] == before.view()[other],
{
}

/// Interning gives each text one object: two interned strings are the same
/// object exactly when their texts are equal, so comparing strings by
/// object compares their texts.
pub proof fn lemma_interned_identity(strings: Table<Gc>, heap: Heap, k1: Seq<char>, k2: Seq<char>)
    requires
        interns(strings, heap),
        strings.view().contains_key(k1),
        strings.view().contains_key(k2),
    ensures
        (strings.view()[k1] == strings.view()[k2]) == (k1 == k2),
{
    let g1 = strings.view()[k1];
    let g2 = strings.view()[k2];
    assert(heap.obj(g1).obj_type matches ObjType::String(t) && t@ == k1);
    assert(heap.obj(g2).obj_type matches ObjType::String(t) && t@ == k2);
}

} // verus!

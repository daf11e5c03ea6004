use vstd::prelude::*;

use crate::chunk::Chunk;
use crate::memory::{Gc, Heap};

verus! {

/// A Lox value. A number is held as the bit pattern of its IEEE-754 double.
#[derive(Clone, Copy, PartialEq, Eq, Structural)]
pub enum Value {
    Bool(bool),
    Nil,
    Number(u64),
    Obj(Gc),
}

/// A heap object.
pub struct Obj {
    pub obj_type: ObjType,
}

/// The kinds of heap object.
pub enum ObjType {
    String(String),
    Function(ObjFunction),
    Native(NativeFunction),
    Closure(ObjClosure),
    Upvalue(ObjUpvalue),
}

/// A compiled function.
pub struct ObjFunction {
    pub arity: usize,
    pub upvalue_count: usize,
    pub chunk: Chunk,
    pub name: Option<Gc>,
}

/// A function together with the variables it captured.
pub struct ObjClosure {
    pub function: Gc,
    pub upvalues: Vec<Gc>,
}

/// A captured variable: open while it still lives in a stack slot
/// (`location`), closed once its value has moved into `closed`.
pub struct ObjUpvalue {
    pub location: Option<usize>,
    pub closed: Option<Value>,
}

/// The functions that the host provides to Lox programs.
#[derive(Clone, Copy, PartialEq, Eq, Structural)]
pub enum NativeFunction {
    /// Seconds since the Unix epoch.
    Clock,
}

/// Whether a function body is the top-level script or a declared function.
#[derive(Clone, Copy, PartialEq, Eq, Structural)]
pub enum FunctionType {
    Function,
    Script,
}

// ---------------------------------------------------------------------------
// Numbers, by the bits of their IEEE-754 doubles.

pub const SIGN_BIT: u64 = 0x8000_0000_0000_0000;
pub const EXPONENT_MASK: u64 = 0x7FF0_0000_0000_0000;
pub const FRACTION_MASK: u64 = 0x000F_FFFF_FFFF_FFFF;
pub const MAGNITUDE_MASK: u64 = 0x7FFF_FFFF_FFFF_FFFF;

/// The double with bits `b` is a NaN.
pub open spec fn spec_is_nan(b: u64) -> bool {
    (b & EXPONENT_MASK) == EXPONENT_MASK && (b & FRACTION_MASK) != 0
}

/// The double with bits `b` is +0.0 or -0.0.
pub open spec fn spec_is_zero(b: u64) -> bool {
    (b & MAGNITUDE_MASK) == 0
}

/// Where a non-NaN double stands on the number line: doubles order as the
/// sign-magnitude integers formed by their bits.
pub open spec fn ordering_key(b: u64) -> int {
    if (b & SIGN_BIT) != 0 {
        -((b & MAGNITUDE_MASK) as int)
    } else {
        (b & MAGNITUDE_MASK) as int
    }
}

/// IEEE-754 `==` on doubles.
pub open spec fn spec_num_eq(a: u64, b: u64) -> bool {
    !spec_is_nan(a) && !spec_is_nan(b) && ordering_key(a) == ordering_key(b)
}

/// IEEE-754 `<` on doubles.
pub open spec fn spec_num_lt(a: u64, b: u64) -> bool {
    !spec_is_nan(a) && !spec_is_nan(b) && ordering_key(a) < ordering_key(b)
}

/// Whether the double with bits `b` is a NaN.
pub fn num_is_nan(b: u64) -> (res: bool)
    ensures
        res == spec_is_nan(b),
{
    (b & EXPONENT_MASK) == EXPONENT_MASK && (b & FRACTION_MASK) != 0
}

/// Whether the double with bits `b` is zero (of either sign).
pub fn num_is_zero(b: u64) -> (res: bool)
    ensures
        res == spec_is_zero(b),
{
    (b & MAGNITUDE_MASK) == 0
}

/// The bits of `-x` for the double `x` with bits `b`: the sign bit flips.
pub fn num_negate(b: u64) -> (res: u64)
    ensures
        res == b ^ SIGN_BIT,
{
    b ^ SIGN_BIT
}

/// Compares two non-NaN doubles on the number line: -1, 0 or 1.
fn num_compare_keys(a: u64, b: u64) -> (res: i8)
    ensures
        res == -1 <==> ordering_key(a) < ordering_key(b),
        res == 0 <==> ordering_key(a) == ordering_key(b),
        res == 1 <==> ordering_key(a) > ordering_key(b),
{
    let ma = a & MAGNITUDE_MASK;
    let mb = b & MAGNITUDE_MASK;
    let na = (a & SIGN_BIT) != 0;
    let nb = (b & SIGN_BIT) != 0;
    if na && nb {
        if ma > mb {
            -1
        } else if ma == mb {
            0
        } else {
            1
        }
    } else if na && !nb {
        if ma == 0 && mb == 0 {
            0
        } else {
            -1
        }
    } else if !na && nb {
        if ma == 0 && mb == 0 {
            0
        } else {
            1
        }
    } else {
        if ma < mb {
            -1
        } else if ma == mb {
            0
        } else {
            1
        }
    }
}

/// IEEE-754 `==` of the doubles with bits `a` and `b`.
pub fn num_equal(a: u64, b: u64) -> (res: bool)
    ensures
        res == spec_num_eq(a, b),
{
    !num_is_nan(a) && !num_is_nan(b) && num_compare_keys(a, b) == 0
}

/// IEEE-754 `<` of the doubles with bits `a` and `b`.
pub fn num_less(a: u64, b: u64) -> (res: bool)
    ensures
        res == spec_num_lt(a, b),
{
    !num_is_nan(a) && !num_is_nan(b) && num_compare_keys(a, b) == -1
}

/// IEEE-754 `>` of the doubles with bits `a` and `b`.
pub fn num_greater(a: u64, b: u64) -> (res: bool)
    ensures
        res == spec_num_lt(b, a),
{
    !num_is_nan(a) && !num_is_nan(b) && num_compare_keys(a, b) == 1
}

// ---------------------------------------------------------------------------
// Values.

/// Lox truthiness: `nil` and `false` are false, everything else is true.
pub open spec fn spec_is_falsey(v: Value) -> bool {
    match v {
        Value::Nil => true,
        Value::Bool(b) => !b,
        _ => false,
    }
}

/// Lox `==`: same type and same value; numbers as doubles; objects by identity.
pub open spec fn spec_values_equal(a: Value, b: Value) -> bool {
    match (a, b) {
        (Value::Bool(x), Value::Bool(y)) => x == y,
        (Value::Nil, Value::Nil) => true,
        (Value::Number(x), Value::Number(y)) => spec_num_eq(x, y),
        (Value::Obj(x), Value::Obj(y)) => x == y,
        _ => false,
    }
}

/// The two object types are of one kind.
pub open spec fn same_kind(a: ObjType, b: ObjType) -> bool {
    match (a, b) {
        (ObjType::String(_), ObjType::String(_)) => true,
        (ObjType::Function(_), ObjType::Function(_)) => true,
        (ObjType::Native(_), ObjType::Native(_)) => true,
        (ObjType::Closure(_), ObjType::Closure(_)) => true,
        (ObjType::Upvalue(_), ObjType::Upvalue(_)) => true,
        _ => false,
    }
}

/// The object that `v` refers to, where it refers to a live one.
pub open spec fn spec_obj_of(v: Value, heap: Heap) -> Option<Obj> {
    match v {
        Value::Obj(g) => if heap.is_live(g) { Some(heap.obj(g)) } else { None },
        _ => None,
    }
}

impl Value {
    pub fn new_bool(b: bool) -> (res: Self)
        ensures
            res == Value::Bool(b),
    {
        Value::Bool(b)
    }

    pub fn new_nil() -> (res: Self)
        ensures
            res == Value::Nil,
    {
        Value::Nil
    }

    /// A number, from the bits of its double.
    pub fn new_number(n: u64) -> (res: Self)
        ensures
            res == Value::Number(n),
    {
        Value::Number(n)
    }

    pub fn new_obj(obj: Gc) -> (res: Self)
        ensures
            res == Value::Obj(obj),
    {
        Value::Obj(obj)
    }

    pub fn is_bool(&self) -> (res: bool)
        ensures
            res == (*self is Bool),
    {
        matches!(self, Value::Bool(_))
    }

    pub fn is_nil(&self) -> (res: bool)
        ensures
            res == (*self is Nil),
    {
        matches!(self, Value::Nil)
    }

    pub fn is_number(&self) -> (res: bool)
        ensures
            res == (*self is Number),
    {
        matches!(self, Value::Number(_))
    }

    pub fn is_obj(&self) -> (res: bool)
        ensures
            res == (*self is Obj),
    {
        matches!(self, Value::Obj(_))
    }

    /// The value refers to a live string object.
    pub fn is_obj_string(&self, heap: &Heap) -> (res: bool)
        ensures
            res == (spec_obj_of(*self, *heap) matches Some(o) && o.obj_type is String),
    {
        match self {
            Value::Obj(g) => heap.is_live_exec(*g) && matches!(heap.get(*g).obj_type, ObjType::String(_)),
            _ => false,
        }
    }

    /// The value refers to a live function object.
    pub fn is_obj_function(&self, heap: &Heap) -> (res: bool)
        ensures
            res == (spec_obj_of(*self, *heap) matches Some(o) && o.obj_type is Function),
    {
        match self {
            Value::Obj(g) => heap.is_live_exec(*g) && matches!(heap.get(*g).obj_type, ObjType::Function(_)),
            _ => false,
        }
    }

    /// The value refers to a live closure object.
    pub fn is_obj_closure(&self, heap: &Heap) -> (res: bool)
        ensures
            res == (spec_obj_of(*self, *heap) matches Some(o) && o.obj_type is Closure),
    {
        match self {
            Value::Obj(g) => heap.is_live_exec(*g) && matches!(heap.get(*g).obj_type, ObjType::Closure(_)),
            _ => false,
        }
    }

    /// The value refers to a live native function object.
    pub fn is_obj_native(&self, heap: &Heap) -> (res: bool)
        ensures
            res == (spec_obj_of(*self, *heap) matches Some(o) && o.obj_type is Native),
    {
        match self {
            Value::Obj(g) => heap.is_live_exec(*g) && matches!(heap.get(*g).obj_type, ObjType::Native(_)),
            _ => false,
        }
    }

    /// The value refers to a live object of the same kind as `obj_type`.
    pub fn is_obj_type(&self, heap: &Heap, obj_type: &ObjType) -> (res: bool)
        ensures
            res == (spec_obj_of(*self, *heap) matches Some(o) && same_kind(o.obj_type, *obj_type)),
    {
        match self {
            Value::Obj(g) => {
                if heap.is_live_exec(*g) {
                    let t = &heap.get(*g).obj_type;
                    match (t, obj_type) {
                        (ObjType::String(_), ObjType::String(_)) => true,
                        (ObjType::Function(_), ObjType::Function(_)) => true,
                        (ObjType::Native(_), ObjType::Native(_)) => true,
                        (ObjType::Closure(_), ObjType::Closure(_)) => true,
                        (ObjType::Upvalue(_), ObjType::Upvalue(_)) => true,
                        _ => false,
                    }
                } else {
                    false
                }
            },
            _ => false,
        }
    }

    /// The type of the object the value refers to, if it refers to a live one.
    pub fn obj_type<'a>(&self, heap: &'a Heap) -> (res: Option<&'a ObjType>)
        ensures
            match spec_obj_of(*self, *heap) {
                Some(o) => res == Some(&o.obj_type),
                None => res is None,
            },
    {
        match self {
            Value::Obj(g) => if heap.is_live_exec(*g) {
                Some(&heap.get(*g).obj_type)
            } else {
                None
            },
            _ => None,
        }
    }

    pub fn as_bool(&self) -> (res: bool)
        requires
            *self is Bool,
        ensures
            res == self->Bool_0,
    {
        match self {
            Value::Bool(b) => *b,
            _ => false,
        }
    }

    /// The bits of the double the value holds.
    pub fn as_number(&self) -> (res: u64)
        requires
            *self is Number,
        ensures
            res == self->Number_0,
    {
        match self {
            Value::Number(n) => *n,
            _ => 0,
        }
    }

    pub fn as_obj<'a>(&self, heap: &'a Heap) -> (res: &'a Obj)
        requires
            spec_obj_of(*self, *heap) is Some,
        ensures
            Some(*res) == spec_obj_of(*self, *heap),
    {
        match self {
            Value::Obj(g) => heap.get(*g),
            _ => heap.get(Gc { index: 0 }),
        }
    }

    pub fn as_string<'a>(&self, heap: &'a Heap) -> (res: &'a String)
        requires
            spec_obj_of(*self, *heap) matches Some(o) && o.obj_type is String,
        ensures
            spec_obj_of(*self, *heap) matches Some(o) && o.obj_type == ObjType::String(*res),
    {
        self.as_obj(heap).as_string()
    }

    pub fn as_function<'a>(&self, heap: &'a Heap) -> (res: &'a ObjFunction)
        requires
            spec_obj_of(*self, *heap) matches Some(o) && o.obj_type is Function,
        ensures
            spec_obj_of(*self, *heap) matches Some(o) && o.obj_type == ObjType::Function(*res),
    {
        self.as_obj(heap).as_function()
    }

    pub fn as_closure<'a>(&self, heap: &'a Heap) -> (res: &'a ObjClosure)
        requires
            spec_obj_of(*self, *heap) matches Some(o) && o.obj_type is Closure,
        ensures
            spec_obj_of(*self, *heap) matches Some(o) && o.obj_type == ObjType::Closure(*res),
    {
        self.as_obj(heap).as_closure()
    }

    /// Lox `==` on two values.
    pub fn is_equal(&self, other: &Value) -> (res: bool)
        ensures
            res == spec_values_equal(*self, *other),
    {
        match (self, other) {
            (Value::Bool(a), Value::Bool(b)) => *a == *b,
            (Value::Nil, Value::Nil) => true,
            (Value::Number(a), Value::Number(b)) => num_equal(*a, *b),
            (Value::Obj(a), Value::Obj(b)) => a.ptr_eq(b),
            _ => false,
        }
    }
}

/// Lox truthiness.
pub fn is_falsey(value: &Value) -> (res: bool)
    ensures
        res == spec_is_falsey(*value),
{
    match value {
        Value::Nil => true,
        Value::Bool(b) => !*b,
        _ => false,
    }
}

impl Obj {
    pub fn new_string(s: String) -> (res: Self)
        ensures
            res.obj_type == ObjType::String(s),
    {
        Obj { obj_type: ObjType::String(s) }
    }

    pub fn new_function(function: ObjFunction) -> (res: Self)
        ensures
            res.obj_type == ObjType::Function(function),
    {
        Obj { obj_type: ObjType::Function(function) }
    }

    pub fn new_native(native: NativeFunction) -> (res: Self)
        ensures
            res.obj_type == ObjType::Native(native),
    {
        Obj { obj_type: ObjType::Native(native) }
    }

    pub fn new_closure(closure: ObjClosure) -> (res: Self)
        ensures
            res.obj_type == ObjType::Closure(closure),
    {
        Obj { obj_type: ObjType::Closure(closure) }
    }

    pub fn new_upvalue(upvalue: ObjUpvalue) -> (res: Self)
        ensures
            res.obj_type == ObjType::Upvalue(upvalue),
    {
        Obj { obj_type: ObjType::Upvalue(upvalue) }
    }

    pub fn as_string(&self) -> (res: &String)
        requires
            self.obj_type is String,
        ensures
            self.obj_type == ObjType::String(*res),
    {
        match &self.obj_type {
            ObjType::String(s) => s,
            _ => vstd::pervasive::unreached(),
        }
    }

    pub fn as_function(&self) -> (res: &ObjFunction)
        requires
            self.obj_type is Function,
        ensures
            self.obj_type == ObjType::Function(*res),
    {
        match &self.obj_type {
            ObjType::Function(f) => f,
            _ => vstd::pervasive::unreached(),
        }
    }

    pub fn as_closure(&self) -> (res: &ObjClosure)
        requires
            self.obj_type is Closure,
        ensures
            self.obj_type == ObjType::Closure(*res),
    {
        match &self.obj_type {
            ObjType::Closure(c) => c,
            _ => vstd::pervasive::unreached(),
        }
    }

    pub fn as_upvalue(&self) -> (res: &ObjUpvalue)
        requires
            self.obj_type is Upvalue,
        ensures
            self.obj_type == ObjType::Upvalue(*res),
    {
        match &self.obj_type {
            ObjType::Upvalue(u) => u,
            _ => vstd::pervasive::unreached(),
        }
    }
}

/// A sequence of constants.
pub struct ValueArray {
    pub values: Vec<Value>,
}

impl ValueArray {
    pub fn new() -> (res: Self)
        ensures
            res.values@ == Seq::<Value>::empty(),
    {
        ValueArray { values: Vec::new() }
    }

    pub fn write(&mut self, value: Value)
        ensures
            final(self).values@ == old(self).values@.push(value),
    {
        self.values.push(value);
    }
}

impl Default for ValueArray {
    fn default() -> (res: Self)
        ensures
            res.values@ == Seq::<Value>::empty(),
    {
        Self::new()
    }
}

/// Negation is an involution: negating twice gives the number back, bit for
/// bit.
pub proof fn lemma_negate_involution(b: u64)
    ensures
        (b ^ SIGN_BIT) ^ SIGN_BIT == b,
{
    assert((b ^ 0x8000_0000_0000_0000u64) ^ 0x8000_0000_0000_0000u64 == b) by (bit_vector);
}

/// Negation keeps NaNs NaN and mirrors the number line: `a < b` exactly
/// when `-b < -a`.
pub proof fn lemma_negate_reverses_order(a: u64, b: u64)
    ensures
        spec_is_nan(a ^ SIGN_BIT) == spec_is_nan(a),
        spec_num_lt(a, b) == spec_num_lt(b ^ SIGN_BIT, a ^ SIGN_BIT),
{
    lemma_negate_key(a);
    lemma_negate_key(b);
}

proof fn lemma_negate_key(a: u64)
    ensures
        spec_is_nan(a ^ SIGN_BIT) == spec_is_nan(a),
        ordering_key(a ^ SIGN_BIT) == -ordering_key(a),
{
    let n = a ^ 0x8000_0000_0000_0000u64;
    assert(n & 0x7FF0_0000_0000_0000u64 == a & 0x7FF0_0000_0000_0000u64) by (bit_vector)
        requires n == a ^ 0x8000_0000_0000_0000u64;
    assert(n & 0x000F_FFFF_FFFF_FFFFu64 == a & 0x000F_FFFF_FFFF_FFFFu64) by (bit_vector)
        requires n == a ^ 0x8000_0000_0000_0000u64;
    assert(n & 0x7FFF_FFFF_FFFF_FFFFu64 == a & 0x7FFF_FFFF_FFFF_FFFFu64) by (bit_vector)
        requires n == a ^ 0x8000_0000_0000_0000u64;
    assert((n & 0x8000_0000_0000_0000u64 != 0) == !(a & 0x8000_0000_0000_0000u64 != 0)) by (bit_vector)
        requires n == a ^ 0x8000_0000_0000_0000u64;
    if a & MAGNITUDE_MASK == 0 {
        assert(ordering_key(a) == 0);
    }
}

/// Of two numbers that are not NaN, exactly one is less, or they are equal,
/// or it is greater; a NaN is neither less, equal nor greater than anything.
pub proof fn lemma_num_trichotomy(a: u64, b: u64)
    ensures
        !spec_is_nan(a) && !spec_is_nan(b) ==> (spec_num_lt(a, b) || spec_num_eq(a, b) || spec_num_lt(b, a)),
        !(spec_num_lt(a, b) && spec_num_eq(a, b)),
        !(spec_num_lt(a, b) && spec_num_lt(b, a)),
        spec_is_nan(a) ==> !spec_num_lt(a, b) && !spec_num_eq(a, b) && !spec_num_lt(b, a),
{
}

/// Lox `==` is symmetric, and every value but a NaN equals itself.
/// Lox `==` on anything but numbers is sameness: two booleans are equal
/// exactly when they are the same boolean, `nil` equals only `nil`, and two
/// objects are equal exactly when they are the same object.
pub proof fn lemma_equal_is_sameness(a: Value, b: Value)
    requires
        !(a is Number),
    ensures
        spec_values_equal(a, b) == (a == b),
{
}

pub proof fn lemma_values_equal_laws(a: Value, b: Value)
    ensures
        spec_values_equal(a, b) == spec_values_equal(b, a),
        spec_values_equal(a, a) == !(a matches Value::Number(n) && spec_is_nan(n)),
{
}

} // verus!

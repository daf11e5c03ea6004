use vstd::prelude::*;

use crate::chunk::{
    Chunk, OP_ADD, OP_CALL, OP_CLOSE_UPVALUE, OP_CLOSURE, OP_CONSTANT, OP_DEFINE_GLOBAL, OP_DIVIDE,
    OP_EQUAL, OP_FALSE, OP_GET_GLOBAL, OP_GET_LOCAL, OP_GET_UPVALUE, OP_GREATER, OP_JUMP,
    OP_JUMP_IF_FALSE, OP_LESS, OP_LOOP, OP_MULTIPLY, OP_NEGATE, OP_NIL, OP_NOT, OP_POP, OP_PRINT,
    OP_RETURN, OP_SET_GLOBAL, OP_SET_LOCAL, OP_SET_UPVALUE, OP_SUBTRACT, OP_TRUE,
};
use crate::memory::{Gc, Heap};
use crate::value::{ObjFunction, ObjType, Value};
use crate::scanner::{chars_of, string_from_chars};
use crate::vm::{concat3, PrintItem};

verus! {

/// How the operands of an instruction are laid out after its opcode.
#[derive(Clone, Copy, PartialEq, Eq, Structural)]
pub enum OperandLayout {
    /// No operand.
    Simple,
    /// One byte naming a constant.
    Constant,
    /// One byte: a stack slot, an upvalue index or an argument count.
    Byte,
    /// Two bytes: the distance of a forward jump.
    ForwardJump,
    /// Two bytes: the distance of a backward jump.
    BackwardJump,
    /// One byte naming a function constant, then two bytes per upvalue of
    /// that function.
    Closure,
    /// The byte is no opcode.
    Unknown,
}

/// The layout of the operands of opcode `op`.
pub open spec fn spec_layout(op: u8) -> OperandLayout {
    if op == OP_CONSTANT || op == OP_GET_GLOBAL || op == OP_DEFINE_GLOBAL || op == OP_SET_GLOBAL {
        OperandLayout::Constant
    } else if op == OP_GET_LOCAL || op == OP_SET_LOCAL || op == OP_GET_UPVALUE || op == OP_SET_UPVALUE || op
        == OP_CALL {
        OperandLayout::Byte
    } else if op == OP_JUMP || op == OP_JUMP_IF_FALSE {
        OperandLayout::ForwardJump
    } else if op == OP_LOOP {
        OperandLayout::BackwardJump
    } else if op == OP_CLOSURE {
        OperandLayout::Closure
    } else if op == OP_NIL || op == OP_TRUE || op == OP_FALSE || op == OP_POP || op == OP_EQUAL || op
        == OP_GREATER || op == OP_LESS || op == OP_ADD || op == OP_SUBTRACT || op == OP_MULTIPLY || op
        == OP_DIVIDE || op == OP_NOT || op == OP_NEGATE || op == OP_PRINT || op == OP_CLOSE_UPVALUE || op
        == OP_RETURN {
        OperandLayout::Simple
    } else {
        OperandLayout::Unknown
    }
}

/// The layout of the operands of opcode `op`.
pub fn layout(op: u8) -> (res: OperandLayout)
    ensures
        res == spec_layout(op),
{
    if op == OP_CONSTANT || op == OP_GET_GLOBAL || op == OP_DEFINE_GLOBAL || op == OP_SET_GLOBAL {
        OperandLayout::Constant
    } else if op == OP_GET_LOCAL || op == OP_SET_LOCAL || op == OP_GET_UPVALUE || op == OP_SET_UPVALUE || op
        == OP_CALL {
        OperandLayout::Byte
    } else if op == OP_JUMP || op == OP_JUMP_IF_FALSE {
        OperandLayout::ForwardJump
    } else if op == OP_LOOP {
        OperandLayout::BackwardJump
    } else if op == OP_CLOSURE {
        OperandLayout::Closure
    } else if op == OP_NIL || op == OP_TRUE || op == OP_FALSE || op == OP_POP || op == OP_EQUAL || op
        == OP_GREATER || op == OP_LESS || op == OP_ADD || op == OP_SUBTRACT || op == OP_MULTIPLY || op
        == OP_DIVIDE || op == OP_NOT || op == OP_NEGATE || op == OP_PRINT || op == OP_CLOSE_UPVALUE || op
        == OP_RETURN {
        OperandLayout::Simple
    } else {
        OperandLayout::Unknown
    }
}

/// The name of opcode `op`, `None` for a byte that is no opcode.
pub open spec fn spec_opcode_name(op: u8) -> Option<Seq<char>> {
    if op == OP_CONSTANT { Some("OP_CONSTANT"@) }
    else if op == OP_NIL { Some("OP_NIL"@) }
    else if op == OP_TRUE { Some("OP_TRUE"@) }
    else if op == OP_FALSE { Some("OP_FALSE"@) }
    else if op == OP_POP { Some("OP_POP"@) }
    else if op == OP_GET_LOCAL { Some("OP_GET_LOCAL"@) }
    else if op == OP_SET_LOCAL { Some("OP_SET_LOCAL"@) }
    else if op == OP_GET_GLOBAL { Some("OP_GET_GLOBAL"@) }
    else if op == OP_DEFINE_GLOBAL { Some("OP_DEFINE_GLOBAL"@) }
    else if op == OP_SET_GLOBAL { Some("OP_SET_GLOBAL"@) }
    else if op == OP_GET_UPVALUE { Some("OP_GET_UPVALUE"@) }
    else if op == OP_SET_UPVALUE { Some("OP_SET_UPVALUE"@) }
    else if op == OP_EQUAL { Some("OP_EQUAL"@) }
    else if op == OP_GREATER { Some("OP_GREATER"@) }
    else if op == OP_LESS { Some("OP_LESS"@) }
    else if op == OP_ADD { Some("OP_ADD"@) }
    else if op == OP_SUBTRACT { Some("OP_SUBTRACT"@) }
    else if op == OP_MULTIPLY { Some("OP_MULTIPLY"@) }
    else if op == OP_DIVIDE { Some("OP_DIVIDE"@) }
    else if op == OP_NOT { Some("OP_NOT"@) }
    else if op == OP_NEGATE { Some("OP_NEGATE"@) }
    else if op == OP_PRINT { Some("OP_PRINT"@) }
    else if op == OP_JUMP { Some("OP_JUMP"@) }
    else if op == OP_JUMP_IF_FALSE { Some("OP_JUMP_IF_FALSE"@) }
    else if op == OP_LOOP { Some("OP_LOOP"@) }
    else if op == OP_CALL { Some("OP_CALL"@) }
    else if op == OP_CLOSURE { Some("OP_CLOSURE"@) }
    else if op == OP_CLOSE_UPVALUE { Some("OP_CLOSE_UPVALUE"@) }
    else if op == OP_RETURN { Some("OP_RETURN"@) }
    else { None }
}

/// The name of opcode `op`, `None` for a byte that is no opcode.
pub fn opcode_name(op: u8) -> (res: Option<&'static str>)
    ensures
        match spec_opcode_name(op) {
            Some(n) => res matches Some(s) && s@ == n,
            None => res is None,
        },
{
    if op == OP_CONSTANT { Some("OP_CONSTANT") }
    else if op == OP_NIL { Some("OP_NIL") }
    else if op == OP_TRUE { Some("OP_TRUE") }
    else if op == OP_FALSE { Some("OP_FALSE") }
    else if op == OP_POP { Some("OP_POP") }
    else if op == OP_GET_LOCAL { Some("OP_GET_LOCAL") }
    else if op == OP_SET_LOCAL { Some("OP_SET_LOCAL") }
    else if op == OP_GET_GLOBAL { Some("OP_GET_GLOBAL") }
    else if op == OP_DEFINE_GLOBAL { Some("OP_DEFINE_GLOBAL") }
    else if op == OP_SET_GLOBAL { Some("OP_SET_GLOBAL") }
    else if op == OP_GET_UPVALUE { Some("OP_GET_UPVALUE") }
    else if op == OP_SET_UPVALUE { Some("OP_SET_UPVALUE") }
    else if op == OP_EQUAL { Some("OP_EQUAL") }
    else if op == OP_GREATER { Some("OP_GREATER") }
    else if op == OP_LESS { Some("OP_LESS") }
    else if op == OP_ADD { Some("OP_ADD") }
    else if op == OP_SUBTRACT { Some("OP_SUBTRACT") }
    else if op == OP_MULTIPLY { Some("OP_MULTIPLY") }
    else if op == OP_DIVIDE { Some("OP_DIVIDE") }
    else if op == OP_NOT { Some("OP_NOT") }
    else if op == OP_NEGATE { Some("OP_NEGATE") }
    else if op == OP_PRINT { Some("OP_PRINT") }
    else if op == OP_JUMP { Some("OP_JUMP") }
    else if op == OP_JUMP_IF_FALSE { Some("OP_JUMP_IF_FALSE") }
    else if op == OP_LOOP { Some("OP_LOOP") }
    else if op == OP_CALL { Some("OP_CALL") }
    else if op == OP_CLOSURE { Some("OP_CLOSURE") }
    else if op == OP_CLOSE_UPVALUE { Some("OP_CLOSE_UPVALUE") }
    else if op == OP_RETURN { Some("OP_RETURN") }
    else { None }
}

/// An upvalue descriptor of a closure instruction: where it sits, whether
/// it captures a local of the enclosing function, and the index.
#[derive(Clone, Copy, PartialEq, Eq, Structural)]
pub struct UpvalueDescriptor {
    pub offset: usize,
    pub is_local: bool,
    pub index: u8,
}

/// The operands of a decoded instruction.
pub enum Operand {
    /// No operand (also for a byte that is no opcode).
    Simple,
    /// A constant: its index and its value.
    Constant { index: usize, value: Value },
    /// A one-byte operand.
    Byte(u8),
    /// A jump, with the offset it goes to.
    Jump { target: i128 },
    /// A closure: the function constant's index and value, and the upvalue
    /// descriptors.
    Closure { index: usize, value: Value, upvalues: Vec<UpvalueDescriptor> },
}

/// A decoded instruction: where it starts, its source line (`None` where it
/// is the line of the byte before), its opcode, its operands, and where the
/// next instruction starts.
pub struct Instruction {
    pub offset: usize,
    pub line: Option<usize>,
    pub opcode: u8,
    pub operand: Operand,
    pub next: usize,
}

/// The line label of the byte at `offset`.
pub open spec fn line_label(lines: Seq<usize>, offset: int) -> Option<usize> {
    if offset > 0 && lines[offset] == lines[offset - 1] {
        None
    } else {
        Some(lines[offset])
    }
}

/// The number of upvalues of the function that `v` refers to, where `v`
/// refers to a live function.
pub open spec fn function_constant(heap: Heap, v: Value) -> Option<usize> {
    match v {
        Value::Obj(g) => if heap.is_live(g) && heap.obj(g).obj_type is Function {
            Some(heap.obj(g).obj_type->Function_0.upvalue_count)
        } else {
            None
        },
        _ => None,
    }
}

/// Jumps decode to where they go: `OP_JUMP` and `OP_JUMP_IF_FALSE` (which
/// jumps when the condition is falsey) forward, to the offset past the
/// instruction plus the two-byte distance; `OP_LOOP` backward, to that
/// offset less the distance.
pub proof fn lemma_jump_targets(chunk: Chunk, heap: Heap, offset: int, ins: Instruction)
    requires
        0 <= offset,
        offset + 2 < chunk.code@.len(),
        chunk.decodes(heap, offset, ins),
    ensures
        ({
            let code = chunk.code@;
            let distance = code[offset + 1] as int * 256 + code[offset + 2] as int;
            &&& (code[offset] == OP_JUMP || code[offset] == OP_JUMP_IF_FALSE) ==> ins.operand == (Operand::Jump {
                target: (offset + 3 + distance) as i128,
            }) && ins.next == offset + 3
            &&& code[offset] == OP_LOOP ==> ins.operand == (Operand::Jump { target: (offset + 3 - distance) as i128 })
                && ins.next == offset + 3
        }),
{
}

impl Chunk {
    /// The instruction at `offset` can be decoded: its operand bytes are in
    /// the code, a constant index names a constant, and a closure's constant
    /// is a function whose upvalue descriptors are in the code.
    pub open spec fn decodable(&self, heap: Heap, offset: int) -> bool {
        let code = self.code@;
        let n = code.len();
        match spec_layout(code[offset]) {
            OperandLayout::Simple | OperandLayout::Unknown => true,
            OperandLayout::Byte => offset + 1 < n,
            OperandLayout::Constant => offset + 1 < n && (code[offset + 1] as int) < self.constants.values@.len(),
            OperandLayout::ForwardJump | OperandLayout::BackwardJump => offset + 2 < n,
            OperandLayout::Closure => {
                &&& offset + 1 < n
                &&& (code[offset + 1] as int) < self.constants.values@.len()
                &&& function_constant(heap, self.constants.values@[code[offset + 1] as int]) matches Some(u)
                    && offset + 1 + 2 * u < n
            },
        }
    }

    /// `ins` is the instruction at `offset`, decoded.
    pub open spec fn decodes(&self, heap: Heap, offset: int, ins: Instruction) -> bool {
        let code = self.code@;
        let op = code[offset];
        &&& ins.offset == offset
        &&& ins.opcode == op
        &&& ins.line == line_label(self.lines@, offset)
        &&& match spec_layout(op) {
            OperandLayout::Simple | OperandLayout::Unknown => ins.operand is Simple && ins.next == offset + 1,
            OperandLayout::Byte => ins.operand == Operand::Byte(code[offset + 1]) && ins.next == offset + 2,
            OperandLayout::Constant => {
                let index = code[offset + 1] as usize;
                &&& ins.operand == Operand::Constant { index, value: self.constants.values@[index as int] }
                &&& ins.next == offset + 2
            },
            OperandLayout::ForwardJump | OperandLayout::BackwardJump => {
                let distance = code[offset + 1] as int * 256 + code[offset + 2] as int;
                let target = if spec_layout(op) == OperandLayout::ForwardJump {
                    offset + 3 + distance
                } else {
                    offset + 3 - distance
                };
                &&& ins.operand == Operand::Jump { target: target as i128 }
                &&& ins.next == offset + 3
            },
            OperandLayout::Closure => {
                let index = code[offset + 1] as usize;
                let value = self.constants.values@[index as int];
                let u = function_constant(heap, value)->Some_0 as int;
                &&& ins.operand matches Operand::Closure { index: i, value: v, upvalues } && {
                    &&& i == index
                    &&& v == value
                    &&& upvalues@.len() == u
                    &&& forall|j: int| 0 <= j < u ==> #[trigger] upvalues@[j] == (UpvalueDescriptor {
                        offset: (offset + 2 + 2 * j) as usize,
                        is_local: code[offset + 2 + 2 * j] == 1,
                        index: code[offset + 3 + 2 * j],
                    })
                }
                &&& ins.next == offset + 2 + 2 * u
            },
        }
    }

    /// Decodes the instruction at `offset`; `None` where it cannot be decoded.
    pub fn disassemble_instruction(&self, heap: &Heap, offset: usize) -> (res: Option<Instruction>)
        requires
            offset < self.code@.len(),
            self.code@.len() == self.lines@.len(),
        ensures
            res is Some <==> self.decodable(*heap, offset as int),
            res matches Some(ins) ==> self.decodes(*heap, offset as int, ins),
    {
        let n = self.code.len();
        let op = self.code[offset];
        let line = if offset > 0 && self.lines[offset] == self.lines[offset - 1] {
            None
        } else {
            Some(self.lines[offset])
        };
        match layout(op) {
            OperandLayout::Simple | OperandLayout::Unknown => {
                return Some(Instruction { offset, line, opcode: op, operand: Operand::Simple, next: offset + 1 });
            },
            OperandLayout::Byte => {
                if offset + 1 >= n {
                    return None;
                }
                return Some(Instruction { offset, line, opcode: op, operand: Operand::Byte(self.code[offset + 1]), next: offset + 2 });
            },
            OperandLayout::Constant => {
                if offset + 1 >= n {
                    return None;
                }
                let index = self.code[offset + 1] as usize;
                if index >= self.constants.values.len() {
                    return None;
                }
                return Some(
                    Instruction {
                        offset,
                        line,
                        opcode: op,
                        operand: Operand::Constant { index, value: self.constants.values[index] },
                        next: offset + 2,
                    },
                );
            },
            OperandLayout::ForwardJump | OperandLayout::BackwardJump => {
                if n - offset < 3 {
                    return None;
                }
                let distance = (self.code[offset + 1] as i128) * 256 + (self.code[offset + 2] as i128);
                let start = (offset as i128) + 3;
                let target = if layout(op) == OperandLayout::ForwardJump {
                    start + distance
                } else {
                    start - distance
                };
                return Some(Instruction { offset, line, opcode: op, operand: Operand::Jump { target }, next: offset + 3 });
            },
            OperandLayout::Closure => {
                if offset + 1 >= n {
                    return None;
                }
                let index = self.code[offset + 1] as usize;
                if index >= self.constants.values.len() {
                    return None;
                }
                let value = self.constants.values[index];
                let count = match value {
                    Value::Obj(g) => {
                        if !heap.is_live_exec(g) {
                            return None;
                        }
                        match &heap.get(g).obj_type {
                            ObjType::Function(f) => f.upvalue_count,
                            _ => return None,
                        }
                    },
                    _ => return None,
                };
                if count > (n - offset - 2) / 2 {
                    return None;
                }
                let mut upvalues: Vec<UpvalueDescriptor> = Vec::new();
                let mut j: usize = 0;
                while j < count
                    invariant
                        n == self.code@.len(),
                        offset + 2 + 2 * count <= n,
                        j <= count,
                        upvalues@.len() == j,
                        forall|k: int| 0 <= k < j ==> #[trigger] upvalues@[k] == (UpvalueDescriptor {
                            offset: (offset + 2 + 2 * k) as usize,
                            is_local: self.code@[offset + 2 + 2 * k] == 1,
                            index: self.code@[offset + 3 + 2 * k],
                        }),
                    decreases count - j,
                {
                    let at = offset + 2 + 2 * j;
                    upvalues.push(UpvalueDescriptor { offset: at, is_local: self.code[at] == 1, index: self.code[at + 1] });
                    j = j + 1;
                }
                Some(
                    Instruction {
                        offset,
                        line,
                        opcode: op,
                        operand: Operand::Closure { index, value, upvalues },
                        next: offset + 2 + 2 * count,
                    },
                )
            },
        }
    }

    /// Decodes the code from its start, one instruction after another, until
    /// the end or an instruction that cannot be decoded.
    pub fn disassemble(&self, heap: &Heap) -> (res: Vec<Instruction>)
        requires
            self.code@.len() == self.lines@.len(),
        ensures
            res@.len() == 0 ==> self.code@.len() == 0 || !self.decodable(*heap, 0),
            res@.len() > 0 ==> res@[0].offset == 0,
            forall|k: int| 0 <= k < res@.len() ==> res@[k].offset < self.code@.len() && self.decodes(*heap, res@[k].offset as int, #[trigger] res@[k]),
            forall|k: int| 0 <= k < res@.len() - 1 ==> #[trigger] res@[k + 1].offset == res@[k].next,
            res@.len() > 0 ==> (res@.last().next >= self.code@.len() || !self.decodable(*heap, res@.last().next as int)),
    {
        let mut res: Vec<Instruction> = Vec::new();
        let mut offset: usize = 0;
        while offset < self.code.len()
            invariant
                self.code@.len() == self.lines@.len(),
                res@.len() == 0 ==> offset == 0,
                res@.len() > 0 ==> res@[0].offset == 0 && res@.last().next == offset,
                forall|k: int| 0 <= k < res@.len() ==> res@[k].offset < self.code@.len() && self.decodes(*heap, res@[k].offset as int, #[trigger] res@[k]),
                forall|k: int| 0 <= k < res@.len() - 1 ==> #[trigger] res@[k + 1].offset == res@[k].next,
            decreases self.code@.len() - offset,
        {
            match self.disassemble_instruction(heap, offset) {
                Some(ins) => {
                    let next = ins.next;
                    res.push(ins);
                    offset = next;
                },
                None => {
                    return res;
                },
            }
        }
        res
    }
}

/// The text `print` shows for a function: its name in `<fn ...>`, or
/// `<script>`.
pub open spec fn function_text(heap: Heap, f: ObjFunction) -> Option<Seq<char>> {
    match f.name {
        Some(n) => if heap.is_live(n) && heap.obj(n).obj_type is String {
            Some("<fn "@ + heap.obj(n).obj_type->String_0@ + ">"@)
        } else {
            None
        },
        None => Some("<script>"@),
    }
}

/// The text `print` shows for an object value (`None` where the object's
/// parts are not what its kind needs).
pub open spec fn object_text(heap: Heap, g: Gc) -> Option<Seq<char>> {
    if !heap.is_live(g) {
        None
    } else {
        match heap.obj(g).obj_type {
            ObjType::String(s) => Some(s@),
            ObjType::Function(f) => function_text(heap, f),
            ObjType::Native(_) => Some("<native fn>"@),
            ObjType::Closure(c) => if heap.is_live(c.function) && heap.obj(c.function).obj_type is Function {
                function_text(heap, heap.obj(c.function).obj_type->Function_0)
            } else {
                None
            },
            ObjType::Upvalue(_) => Some("upvalue"@),
        }
    }
}

/// `item` is what `print` shows for `v`; `false` where nothing can be shown.
pub open spec fn shows(heap: Heap, v: Value, item: PrintItem) -> bool {
    match v {
        Value::Bool(b) => item matches PrintItem::Text(t) && t@ == (if b { "true"@ } else { "false"@ }),
        Value::Nil => item matches PrintItem::Text(t) && t@ == "nil"@,
        Value::Number(n) => item == PrintItem::Number(n),
        Value::Obj(g) => object_text(heap, g) matches Some(x) && item matches PrintItem::Text(t) && t@ == x,
    }
}

/// What `print` shows for the function `f`.
pub fn print_function(heap: &Heap, function: &ObjFunction) -> (res: Option<String>)
    ensures
        match function_text(*heap, *function) {
            Some(t) => res matches Some(r) && r@ == t,
            None => res is None,
        },
{
    match function.name {
        Some(n) => {
            if heap.is_live_exec(n) {
                match &heap.get(n).obj_type {
                    ObjType::String(s) => Some(concat3("<fn ", s.as_str(), ">")),
                    _ => None,
                }
            } else {
                None
            }
        },
        None => Some("<script>".to_string()),
    }
}

/// What `print` shows for `value`: its text, or for a number its bits for
/// the host to format.
pub fn print_value(heap: &Heap, value: &Value) -> (res: Option<PrintItem>)
    ensures
        match res {
            Some(item) => shows(*heap, *value, item),
            None => (*value matches Value::Obj(g) && object_text(*heap, g) is None),
        },
{
    match value {
        Value::Bool(b) => Some(PrintItem::Text(if *b { "true".to_string() } else { "false".to_string() })),
        Value::Nil => Some(PrintItem::Text("nil".to_string())),
        Value::Number(n) => Some(PrintItem::Number(*n)),
        Value::Obj(g) => {
            if !heap.is_live_exec(*g) {
                return None;
            }
            let text = match &heap.get(*g).obj_type {
                ObjType::String(s) => Some(s.clone()),
                ObjType::Function(f) => print_function(heap, f),
                ObjType::Native(_) => Some("<native fn>".to_string()),
                ObjType::Closure(c) => {
                    if heap.is_live_exec(c.function) {
                        match &heap.get(c.function).obj_type {
                            ObjType::Function(f) => print_function(heap, f),
                            _ => None,
                        }
                    } else {
                        None
                    }
                },
                ObjType::Upvalue(_) => Some("upvalue".to_string()),
            };
            match text {
                Some(t) => Some(PrintItem::Text(t)),
                None => None,
            }
        },
    }
}



/// The digit `d`, below ten.
pub open spec fn spec_digit(d: nat) -> char {
    if d == 0 { '0' }
    else if d == 1 { '1' }
    else if d == 2 { '2' }
    else if d == 3 { '3' }
    else if d == 4 { '4' }
    else if d == 5 { '5' }
    else if d == 6 { '6' }
    else if d == 7 { '7' }
    else if d == 8 { '8' }
    else { '9' }
}

/// `n` in decimal.
pub open spec fn decimal(n: nat) -> Seq<char>
    decreases n,
{
    if n < 10 {
        seq![spec_digit(n)]
    } else {
        decimal(n / 10).push(spec_digit(n % 10))
    }
}

/// `n` in decimal, with a `-` where it is negative.
pub open spec fn signed_decimal(n: int) -> Seq<char> {
    if n < 0 {
        "-"@ + decimal((-n) as nat)
    } else {
        decimal(n as nat)
    }
}

/// `s` right-aligned in `width` columns, filled with `fill`.
pub open spec fn pad_left(s: Seq<char>, width: nat, fill: char) -> Seq<char> {
    if s.len() >= width {
        s
    } else {
        Seq::new((width - s.len()) as nat, |i: int| fill) + s
    }
}

/// `s` left-aligned in `width` columns, filled with blanks.
pub open spec fn pad_right(s: Seq<char>, width: nat) -> Seq<char> {
    if s.len() >= width {
        s
    } else {
        s + Seq::new((width - s.len()) as nat, |i: int| ' ')
    }
}

/// The line column of a disassembly line: the line number in four columns,
/// or a bar where the line is the one of the byte before.
pub open spec fn line_column(line: Option<usize>) -> Seq<char> {
    match line {
        None => "   | "@,
        Some(n) => pad_left(decimal(n as nat), 4, ' ') + " "@,
    }
}

/// An instruction's name in sixteen columns and a number in four.
pub open spec fn operand_column(name: Seq<char>, n: nat) -> Seq<char> {
    pad_right(name, 16) + " "@ + pad_left(decimal(n), 4, ' ')
}

/// The text of a disassembly line up to the constant it shows, if any: the
/// offset in four digits, the line column, then the instruction. A constant
/// or closure instruction's text stops at the quote that opens its value.
pub open spec fn instruction_head(ins: Instruction) -> Seq<char> {
    let head = pad_left(decimal(ins.offset as nat), 4, '0') + " "@ + line_column(ins.line);
    match spec_opcode_name(ins.opcode) {
        None => head + "Unknown opcode "@ + decimal(ins.opcode as nat) + "\n"@,
        Some(name) => head + operand_text(name, ins),
    }
}

/// The instruction part of a disassembly line, for an instruction named
/// `name`.
pub open spec fn operand_text(name: Seq<char>, ins: Instruction) -> Seq<char> {
    match ins.operand {
        Operand::Simple => name + "\n"@,
        Operand::Byte(b) => operand_column(name, b as nat) + "\n"@,
        Operand::Jump { target } => operand_column(name, ins.offset as nat) + " -> "@ + signed_decimal(target as int) + "\n"@,
        Operand::Constant { index, .. } => operand_column(name, index as nat) + " '"@,
        Operand::Closure { index, .. } => operand_column(name, index as nat) + " '"@,
    }
}

/// The disassembly line of a closure's upvalue descriptor.
pub open spec fn upvalue_line(u: UpvalueDescriptor) -> Seq<char> {
    pad_left(decimal(u.offset as nat), 4, '0') + "      |                     "@ + (if u.is_local {
        "local"@
    } else {
        "upvalue"@
    }) + " "@ + pad_left(decimal(u.index as nat), 4, ' ') + "\n"@
}

/// The disassembly lines of upvalue descriptors, in order.
pub open spec fn upvalue_lines(us: Seq<UpvalueDescriptor>) -> Seq<char>
    decreases us.len(),
{
    if us.len() == 0 {
        Seq::empty()
    } else {
        upvalue_lines(us.drop_last()) + upvalue_line(us.last())
    }
}

/// The text of a disassembly line after the constant it shows: the closing
/// quote of a constant, or the end of a closure's line and its upvalue
/// descriptors' lines; nothing for other instructions.
pub open spec fn instruction_tail(ins: Instruction) -> Seq<char> {
    match ins.operand {
        Operand::Constant { .. } => "'\n"@,
        Operand::Closure { upvalues, .. } => "\n"@ + upvalue_lines(upvalues@),
        _ => Seq::empty(),
    }
}

/// The digit `d`.
fn digit_char(d: u128) -> (res: char)
    requires
        d < 10,
    ensures
        res == spec_digit(d as nat),
{
    if d == 0 { '0' }
    else if d == 1 { '1' }
    else if d == 2 { '2' }
    else if d == 3 { '3' }
    else if d == 4 { '4' }
    else if d == 5 { '5' }
    else if d == 6 { '6' }
    else if d == 7 { '7' }
    else if d == 8 { '8' }
    else { '9' }
}

/// Appends `n` in decimal to `out`.
fn push_decimal(out: &mut Vec<char>, n: u128)
    ensures
        final(out)@ == old(out)@ + decimal(n as nat),
    decreases n,
{
    if n >= 10 {
        push_decimal(out, n / 10);
    }
    out.push(digit_char(n % 10));
    proof {
        if n >= 10 {
            assert(decimal(n as nat) == decimal((n / 10) as nat).push(spec_digit((n % 10) as nat)));
        }
    }
}

/// Appends `s` to `out`.
fn push_all(out: &mut Vec<char>, s: &[char])
    ensures
        final(out)@ == old(out)@ + s@,
{
    let mut i: usize = 0;
    while i < s.len()
        invariant
            i <= s@.len(),
            out@ == old(out)@ + s@.subrange(0, i as int),
        decreases s@.len() - i,
    {
        out.push(s[i]);
        i = i + 1;
        proof {
            assert(s@.subrange(0, i as int) == s@.subrange(0, i - 1).push(s@[i - 1]));
        }
    }
    proof {
        assert(s@.subrange(0, s@.len() as int) == s@);
    }
}

/// Appends the text `s` to `out`.
fn push_str(out: &mut Vec<char>, s: &str)
    ensures
        final(out)@ == old(out)@ + s@,
{
    let cs = chars_of(s);
    push_all(out, cs.as_slice());
}

/// Appends `width - s.len()` copies of `fill` to `out`, if that is positive.
fn push_fill(out: &mut Vec<char>, len: usize, width: usize, fill: char)
    ensures
        len >= width ==> final(out)@ == old(out)@,
        len < width ==> final(out)@ == old(out)@ + Seq::new((width - len) as nat, |i: int| fill),
{
    if len >= width {
        return;
    }
    let mut k: usize = 0;
    while k < width - len
        invariant
            len < width,
            k <= width - len,
            out@ == old(out)@ + Seq::new(k as nat, |i: int| fill),
        decreases width - len - k,
    {
        out.push(fill);
        k = k + 1;
        proof {
            assert(Seq::new(k as nat, |i: int| fill) == Seq::new((k - 1) as nat, |i: int| fill).push(fill));
        }
    }
}

/// Appends `n` in decimal, right-aligned in `width` columns filled with
/// `fill`.
fn push_padded(out: &mut Vec<char>, n: u128, width: usize, fill: char)
    ensures
        final(out)@ == old(out)@ + pad_left(decimal(n as nat), width as nat, fill),
{
    let mut digits: Vec<char> = Vec::new();
    push_decimal(&mut digits, n);
    proof {
        assert(digits@ == decimal(n as nat));
    }
    let ghost o = out@;
    push_fill(out, digits.len(), width, fill);
    push_all(out, digits.as_slice());
    proof {
        if digits@.len() < width {
            assert(out@ == o + (Seq::new((width - digits@.len()) as nat, |i: int| fill) + digits@));
        }
    }
}

/// Appends `name` left-aligned in sixteen columns, a blank and `n` in four.
fn push_operand_column(out: &mut Vec<char>, name: &str, n: u128)
    ensures
        final(out)@ == old(out)@ + operand_column(name@, n as nat),
{
    let ghost o = out@;
    let cs = chars_of(name);
    push_all(out, cs.as_slice());
    push_fill(out, cs.len(), 16, ' ');
    proof {
        assert(out@ == o + pad_right(name@, 16));
    }
    push_str(out, " ");
    push_padded(out, n, 4, ' ');
    proof {
        assert(out@ == o + pad_right(name@, 16) + " "@ + pad_left(decimal(n as nat), 4, ' '));
    }
}

/// Appends the instruction part of `ins`'s disassembly line, for an
/// instruction named `name`.
fn push_operand_text(out: &mut Vec<char>, name: &str, ins: &Instruction)
    ensures
        final(out)@ == old(out)@ + operand_text(name@, *ins),
{
    let ghost o = out@;
    match &ins.operand {
        Operand::Simple => {
            push_str(out, name);
            push_str(out, "\n");
            proof {
                assert(out@ =~= o + (name@ + "\n"@));
            }
        },
        Operand::Byte(b) => {
            push_operand_column(out, name, *b as u128);
            push_str(out, "\n");
            proof {
                assert(out@ =~= o + (operand_column(name@, *b as nat) + "\n"@));
            }
        },
        Operand::Jump { target } => {
            push_operand_column(out, name, ins.offset as u128);
            push_str(out, " -> ");
            let ghost mid = out@;
            if *target < 0 {
                push_str(out, "-");
                let m = (-(*target + 1)) as u128 + 1;
                push_decimal(out, m);
                proof {
                    assert(m as nat == (-(*target as int)) as nat);
                    assert(out@ =~= mid + signed_decimal(*target as int));
                }
            } else {
                push_decimal(out, *target as u128);
                proof {
                    assert(out@ =~= mid + signed_decimal(*target as int));
                }
            }
            push_str(out, "\n");
            proof {
                assert(out@ =~= o + (operand_column(name@, ins.offset as nat) + " -> "@ + signed_decimal(*target as int)
                    + "\n"@));
            }
        },
        Operand::Constant { index, .. } => {
            push_operand_column(out, name, *index as u128);
            push_str(out, " '");
            proof {
                assert(out@ =~= o + (operand_column(name@, *index as nat) + " '"@));
            }
        },
        Operand::Closure { index, .. } => {
            push_operand_column(out, name, *index as u128);
            push_str(out, " '");
            proof {
                assert(out@ =~= o + (operand_column(name@, *index as nat) + " '"@));
            }
        },
    }
}

/// The text of the disassembly line of `ins` up to the constant it shows
/// (the constant itself is shown by `print_value`, and the rest of the
/// line by `instruction_tail_text`).
pub fn instruction_head_text(ins: &Instruction) -> (res: String)
    ensures
        res@ == instruction_head(*ins),
{
    let mut out: Vec<char> = Vec::new();
    push_padded(&mut out, ins.offset as u128, 4, '0');
    push_str(&mut out, " ");
    match ins.line {
        None => push_str(&mut out, "   | "),
        Some(n) => {
            push_padded(&mut out, n as u128, 4, ' ');
            push_str(&mut out, " ");
        },
    }
    let ghost head = out@;
    proof {
        assert(head == pad_left(decimal(ins.offset as nat), 4, '0') + " "@ + line_column(ins.line));
    }
    match opcode_name(ins.opcode) {
        None => {
            push_str(&mut out, "Unknown opcode ");
            push_decimal(&mut out, ins.opcode as u128);
            push_str(&mut out, "\n");
            proof {
                assert(out@ =~= head + "Unknown opcode "@ + decimal(ins.opcode as nat) + "\n"@);
            }
        },
        Some(name) => {
            push_operand_text(&mut out, name, ins);
            proof {
                assert(out@ =~= head + operand_text(name@, *ins));
            }
        },
    }
    proof {
        assert(out@ == instruction_head(*ins));
    }
    string_from_chars(out.as_slice())
}

/// The text of the disassembly line of `ins` after the constant it shows.
pub fn instruction_tail_text(ins: &Instruction) -> (res: String)
    ensures
        res@ == instruction_tail(*ins),
{
    let mut out: Vec<char> = Vec::new();
    match &ins.operand {
        Operand::Constant { .. } => push_str(&mut out, "'\n"),
        Operand::Closure { upvalues, .. } => {
            push_str(&mut out, "\n");
            let ghost o = out@;
            let mut i: usize = 0;
            while i < upvalues.len()
                invariant
                    i <= upvalues@.len(),
                    out@ == o + upvalue_lines(upvalues@.subrange(0, i as int)),
                decreases upvalues@.len() - i,
            {
                let u = upvalues[i];
                let ghost before = out@;
                push_padded(&mut out, u.offset as u128, 4, '0');
                push_str(&mut out, "      |                     ");
                if u.is_local {
                    push_str(&mut out, "local");
                } else {
                    push_str(&mut out, "upvalue");
                }
                push_str(&mut out, " ");
                push_padded(&mut out, u.index as u128, 4, ' ');
                push_str(&mut out, "\n");
                proof {
                    assert(out@ == before + upvalue_line(u));
                    let us = upvalues@.subrange(0, i + 1);
                    assert(us.drop_last() == upvalues@.subrange(0, i as int));
                    assert(us.last() == u);
                }
                i = i + 1;
            }
            proof {
                assert(upvalues@.subrange(0, upvalues@.len() as int) == upvalues@);
            }
        },
        _ => {},
    }
    string_from_chars(out.as_slice())
}

} // verus!

use vstd::prelude::*;

use crate::value::{Value, ValueArray};

verus! {

pub const OP_CONSTANT: u8 = 0;
pub const OP_NIL: u8 = 1;
pub const OP_TRUE: u8 = 2;
pub const OP_FALSE: u8 = 3;
pub const OP_POP: u8 = 4;
pub const OP_GET_LOCAL: u8 = 5;
pub const OP_SET_LOCAL: u8 = 6;
pub const OP_GET_GLOBAL: u8 = 7;
pub const OP_DEFINE_GLOBAL: u8 = 8;
pub const OP_SET_GLOBAL: u8 = 9;
pub const OP_GET_UPVALUE: u8 = 10;
pub const OP_SET_UPVALUE: u8 = 11;
pub const OP_EQUAL: u8 = 12;
pub const OP_GREATER: u8 = 13;
pub const OP_LESS: u8 = 14;
pub const OP_ADD: u8 = 15;
pub const OP_SUBTRACT: u8 = 16;
pub const OP_MULTIPLY: u8 = 17;
pub const OP_DIVIDE: u8 = 18;
pub const OP_NOT: u8 = 19;
pub const OP_NEGATE: u8 = 20;
pub const OP_PRINT: u8 = 21;
pub const OP_JUMP: u8 = 22;
pub const OP_JUMP_IF_FALSE: u8 = 23;
pub const OP_LOOP: u8 = 24;
pub const OP_CALL: u8 = 25;
pub const OP_CLOSURE: u8 = 26;
pub const OP_CLOSE_UPVALUE: u8 = 27;
pub const OP_RETURN: u8 = 28;

/// A sequence of bytecode, the source line of each byte, and the constants
/// that the code refers to by index.
pub struct Chunk {
    pub code: Vec<u8>,
    pub lines: Vec<usize>,
    pub constants: ValueArray,
}

impl Chunk {
    pub fn new() -> (res: Self)
        ensures
            res.code@ == Seq::<u8>::empty(),
            res.lines@ == Seq::<usize>::empty(),
            res.constants.values@ == Seq::<Value>::empty(),
    {
        Chunk { code: Vec::new(), lines: Vec::new(), constants: ValueArray::new() }
    }

    /// Appends one byte of code, from source line `line`.
    pub fn write(&mut self, byte: u8, line: usize)
        ensures
            final(self).code@ == old(self).code@.push(byte),
            final(self).lines@ == old(self).lines@.push(line),
            final(self).constants == old(self).constants,
    {
        self.code.push(byte);
        self.lines.push(line);
    }

    /// Appends a constant and gives back its index.
    pub fn add_constant(&mut self, value: Value) -> (res: usize)
        ensures
            final(self).constants.values@ == old(self).constants.values@.push(value),
            res == old(self).constants.values@.len(),
            final(self).code == old(self).code,
            final(self).lines == old(self).lines,
    {
        self.constants.write(value);
        self.constants.values.len() - 1
    }
}

impl Default for Chunk {
    fn default() -> (res: Self)
        ensures
            res.code@ == Seq::<u8>::empty(),
            res.lines@ == Seq::<usize>::empty(),
            res.constants.values@ == Seq::<Value>::empty(),
    {
        Self::new()
    }
}

} // verus!

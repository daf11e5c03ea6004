use ayurox::chunk::{Chunk, OP_CONSTANT, OP_JUMP, OP_LOOP, OP_RETURN};
use ayurox::debug::{instruction_head_text, instruction_tail_text, opcode_name, print_value, Operand};
use ayurox::memory::{Gc, Heap};
use ayurox::value::{Obj, Value};
use ayurox::vm::PrintItem;

#[test]
fn disassembles_a_chunk() {
    let heap = Heap::new();
    let mut chunk = Chunk::new();
    let k = chunk.add_constant(Value::Number(1.5f64.to_bits()));
    chunk.write(OP_CONSTANT, 1);
    chunk.write(k as u8, 1);
    chunk.write(OP_JUMP, 2);
    chunk.write(0, 2);
    chunk.write(5, 2);
    chunk.write(OP_LOOP, 2);
    chunk.write(0, 2);
    chunk.write(9, 2);
    chunk.write(OP_RETURN, 3);
    chunk.write(200, 3);
    let ins = chunk.disassemble(&heap);
    assert_eq!(ins.len(), 5);
    assert_eq!((ins[0].offset, ins[0].line, ins[0].next), (0, Some(1), 2));
    assert!(matches!(ins[0].operand, Operand::Constant { index: 0, value: Value::Number(b) } if b == 1.5f64.to_bits()));
    assert_eq!((ins[1].offset, ins[1].line), (2, Some(2)));
    assert!(matches!(ins[1].operand, Operand::Jump { target: 10 }));
    assert_eq!(ins[2].line, None);
    assert!(matches!(ins[2].operand, Operand::Jump { target: -1 }));
    assert_eq!(opcode_name(ins[3].opcode), Some("OP_RETURN"));
    assert_eq!(opcode_name(ins[4].opcode), None);
    assert_eq!(ins[4].next, 10);
}

#[test]
fn stops_at_an_incomplete_instruction() {
    let heap = Heap::new();
    let mut chunk = Chunk::new();
    chunk.write(OP_RETURN, 1);
    chunk.write(OP_JUMP, 1);
    chunk.write(0, 1);
    let ins = chunk.disassemble(&heap);
    assert_eq!(ins.len(), 1);
    assert!(chunk.disassemble_instruction(&heap, 1).is_none());
}

#[test]
fn prints_values() {
    let mut heap = Heap::new();
    let s = Gc::new(&mut heap, Obj::new_string("hey".to_string()));
    assert!(matches!(print_value(&heap, &Value::Obj(s)), Some(PrintItem::Text(t)) if t == "hey"));
    assert!(matches!(print_value(&heap, &Value::Nil), Some(PrintItem::Text(t)) if t == "nil"));
    assert!(matches!(print_value(&heap, &Value::Bool(false)), Some(PrintItem::Text(t)) if t == "false"));
    assert!(matches!(print_value(&heap, &Value::Number(7)), Some(PrintItem::Number(7))));
    assert!(print_value(&heap, &Value::Obj(Gc { index: 9 })).is_none());
}

#[test]
fn disassembly_text_of_a_return() {
    let heap = Heap::new();
    let mut chunk = Chunk::new();
    chunk.write(OP_RETURN, 1);
    let ins = chunk.disassemble(&heap);
    assert_eq!(ins.len(), 1);
    assert_eq!(ins[0].next, 1);
    let text = format!("{}{}", instruction_head_text(&ins[0]), instruction_tail_text(&ins[0]));
    assert_eq!(text, "0000    1 OP_RETURN\n");
}

#[test]
fn disassembly_text_of_operands() {
    let heap = Heap::new();
    let mut chunk = Chunk::new();
    let k = chunk.add_constant(Value::Number(1.5f64.to_bits()));
    chunk.write(OP_CONSTANT, 1);
    chunk.write(k as u8, 1);
    chunk.write(OP_JUMP, 2);
    chunk.write(0, 2);
    chunk.write(5, 2);
    chunk.write(OP_LOOP, 2);
    chunk.write(0, 2);
    chunk.write(9, 2);
    chunk.write(200, 3);
    let ins = chunk.disassemble(&heap);
    assert_eq!(instruction_head_text(&ins[0]), "0000    1 OP_CONSTANT         0 '");
    assert_eq!(instruction_tail_text(&ins[0]), "'\n");
    assert_eq!(instruction_head_text(&ins[1]), "0002    2 OP_JUMP             2 -> 10\n");
    assert_eq!(instruction_head_text(&ins[2]), "0005    | OP_LOOP             5 -> -1\n");
    assert_eq!(instruction_head_text(&ins[3]), "0008    3 Unknown opcode 200\n");
    assert_eq!(instruction_tail_text(&ins[3]), "");
}

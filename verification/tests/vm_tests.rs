use ayurox::compiler::{Compiler, Diagnostic, ErrorLocation};
use ayurox::value::{NativeFunction, Value};
use ayurox::vm::{ArithOp, InterpretResult, PrintItem, Step, VM};

fn number_bits(text: &str) -> u64 {
    text.parse::<f64>().unwrap().to_bits()
}

fn diagnostic_text(d: &Diagnostic) -> String {
    match d {
        Diagnostic::Error { line, location, message } => match location {
            ErrorLocation::AtEnd => format!("[line {}] Error at end: {}", line, message),
            ErrorLocation::At(t) => format!("[line {}] Error at '{}': {}", line, t, message),
            ErrorLocation::Unplaced => format!("[line {}] Error: {}", line, message),
        },
        Diagnostic::Notice(m) => m.clone(),
    }
}

/// Runs a program to its end, collecting what it prints and what it reports.
fn run_with(source: &str, collect_every_step: bool) -> (InterpretResult, Vec<String>) {
    let compiler = Compiler::new(source, number_bits);
    let (runtime, diagnostics) = compiler.compile();
    let runtime = match runtime {
        Some(r) => r,
        None => return (InterpretResult::CompileError, diagnostics.iter().map(diagnostic_text).collect()),
    };
    let mut vm = VM::new(runtime);
    vm.define_native("clock", NativeFunction::Clock);
    let mut out = Vec::new();
    loop {
        if collect_every_step {
            vm.collect_garbage();
        }
        match vm.step() {
            Step::Continue => {}
            Step::Print(PrintItem::Text(t)) => out.push(t),
            Step::Print(PrintItem::Number(n)) => out.push(format!("{}", f64::from_bits(n))),
            Step::Arithmetic { op, a, b } => {
                let (x, y) = (f64::from_bits(a), f64::from_bits(b));
                let r = match op {
                    ArithOp::Add => x + y,
                    ArithOp::Subtract => x - y,
                    ArithOp::Multiply => x * y,
                    ArithOp::Divide => x / y,
                };
                vm.resume(Value::Number(r.to_bits()));
            }
            Step::CallNative { .. } => vm.resume(Value::Number(1.5f64.to_bits())),
            Step::RuntimeError { message, trace } => {
                out.push(message);
                for t in trace {
                    out.push(format!("[line {}] in {}", t.line, t.function));
                }
                return (InterpretResult::RuntimeError, out);
            }
            Step::UnknownOpcode(op) => {
                out.push(format!("Unknown opcode {}", op));
                return (InterpretResult::RuntimeError, out);
            }
            Step::Finished => return (InterpretResult::Success, out),
            Step::Fault => panic!("fault"),
        }
    }
}

fn run(source: &str) -> (InterpretResult, Vec<String>) {
    run_with(source, false)
}

fn succeeds(source: &str, expected: &[&str]) {
    let (result, out) = run(source);
    assert!(matches!(result, InterpretResult::Success), "{:?}", out);
    assert_eq!(out, expected.iter().map(|s| s.to_string()).collect::<Vec<_>>());
}

#[test]
fn prints_arithmetic() {
    succeeds("print 1 + 2 * 3;", &["7"]);
    succeeds("print (1 + 2) * 3 - 4 / 8;", &["8.5"]);
    succeeds("print -(3);", &["-3"]);
}

#[test]
fn prints_literals_and_comparisons() {
    succeeds("print nil; print true; print !nil; print 1 < 2; print 2 <= 1; print 3 == 3; print \"a\" != \"a\";",
        &["nil", "true", "true", "true", "false", "true", "false"]);
}

#[test]
fn concatenates_and_interns_strings() {
    succeeds("var a = \"ab\"; var b = \"a\" + \"b\"; print a + b; print a == b;", &["abab", "true"]);
}

#[test]
fn globals_and_locals() {
    succeeds("var x = 1; { var y = x + 1; x = y * 10; print y; } print x;", &["2", "20"]);
}

#[test]
fn control_flow() {
    succeeds("var s = 0; for (var i = 0; i < 5; i = i + 1) { if (i == 2) s = s + 100; else s = s + i; } print s;", &["108"]);
    succeeds("var i = 0; while (i < 3) i = i + 1; print i; print false or \"x\"; print nil and 1;", &["3", "x", "nil"]);
}

#[test]
fn functions_and_recursion() {
    succeeds("fun fib(n) { if (n < 2) return n; return fib(n - 1) + fib(n - 2); } print fib(10);", &["55"]);
    succeeds("fun f() {} print f(); print f;", &["nil", "<fn f>"]);
    succeeds("print clock;", &["<native fn>"]);
}

#[test]
fn closures_capture_variables() {
    let source = "fun makeCounter() { var i = 0; fun count() { i = i + 1; print i; } return count; }
        var c = makeCounter(); c(); c(); var d = makeCounter(); d(); c();";
    succeeds(source, &["1", "2", "1", "3"]);
}

#[test]
fn closures_share_an_upvalue() {
    let source = "var get; var set;
        fun make() { var v = \"start\"; fun g() { print v; } fun s(x) { v = x; } get = g; set = s; }
        make(); get(); set(\"changed\"); get();";
    succeeds(source, &["start", "changed"]);
}

#[test]
fn closure_over_block_local_is_closed() {
    let source = "var f; { var a = \"inner\"; fun g() { print a; } f = g; } f();";
    succeeds(source, &["inner"]);
}

#[test]
fn native_call_returns_host_value() {
    succeeds("print clock() + 1;", &["2.5"]);
}

#[test]
fn undefined_variable_is_a_runtime_error() {
    let (result, out) = run("print 1;\nprint x;");
    assert!(matches!(result, InterpretResult::RuntimeError));
    assert_eq!(out, vec!["1", "Undefined variable 'x'.", "[line 2] in script", "[line 2] in <script>"]);
}

#[test]
fn assigning_undefined_global_fails() {
    let (result, out) = run("y = 3;");
    assert!(matches!(result, InterpretResult::RuntimeError));
    assert_eq!(out[0], "Undefined variable 'y'.");
}

#[test]
fn operand_type_errors() {
    assert_eq!(run("print -\"a\";").1[0], "Operand must be a number.");
    assert_eq!(run("print 1 < \"a\";").1[0], "Operands must be numbers.");
    assert_eq!(run("print 1 + \"a\";").1[0], "Operands must be two numbers or two strings.");
    assert_eq!(run("print 1 / 0;").1[0], "Division by zero.");
}

#[test]
fn call_errors() {
    let (result, out) = run("fun f(a) {}\nf(1, 2);");
    assert!(matches!(result, InterpretResult::RuntimeError));
    assert_eq!(out[0], "Expected 1 arguments but got 2.");
    assert_eq!(run("var x = 1; x();").1[0], "Can only call functions.");
}

#[test]
fn runtime_error_trace_names_functions() {
    let (_, out) = run("fun inner() { return nil + 1; }\nfun outer() { inner(); }\nouter();");
    assert_eq!(out, vec![
        "Operands must be two numbers or two strings.",
        "[line 1] in script",
        "[line 1] in inner",
        "[line 2] in outer",
        "[line 3] in <script>",
    ]);
}

#[test]
fn compile_errors_are_reported() {
    let (result, out) = run("print 1 +;");
    assert!(matches!(result, InterpretResult::CompileError));
    assert_eq!(out, vec!["[line 1] Error at ';': Expect expression."]);
    let (_, out) = run("print 1");
    assert_eq!(out, vec!["[line 1] Error at end: Expect ';' after value."]);
}

#[test]
fn collecting_every_step_keeps_the_program_running() {
    let source = "fun makeCounter() { var i = 0; fun count() { i = i + 1; return i; } return count; }
        var c = makeCounter(); var s = \"\"; for (var k = 0; k < 5; k = k + 1) { s = s + \"x\"; c(); } print s; print c();";
    let (result, out) = run_with(source, true);
    assert!(matches!(result, InterpretResult::Success), "{:?}", out);
    assert_eq!(out, vec!["xxxxx", "6"]);
}

fn live_objects(vm: &VM) -> Vec<usize> {
    (0..vm.heap.capacity()).filter(|&i| vm.heap.is_live_exec(ayurox::memory::Gc { index: i })).collect()
}

#[test]
fn collection_frees_exactly_the_unreachable_objects() {
    let compiler = Compiler::new("var s = \"a\" + \"b\"; var t = \"kept\"; s = nil;", number_bits);
    let (runtime, _) = compiler.compile();
    let mut vm = VM::new(runtime.unwrap());
    vm.define_native("clock", NativeFunction::Clock);
    loop {
        match vm.step() {
            Step::Continue => {}
            Step::Finished => break,
            _ => panic!("unexpected step"),
        }
    }
    assert!(live_objects(&vm).len() > 2);
    vm.collect_garbage();
    let live = live_objects(&vm);
    assert_eq!(live.len(), 2);
    let texts: Vec<String> = live
        .iter()
        .filter_map(|&i| match &vm.heap.get(ayurox::memory::Gc { index: i }).obj_type {
            ayurox::value::ObjType::String(s) => Some(s.clone()),
            _ => None,
        })
        .collect();
    assert_eq!(texts, vec!["kept".to_string()]);
    assert!(vm.strings.get("ab").is_none());
    assert!(vm.strings.get("kept").is_some());
    assert!(vm.globals.get("t").is_some());
}

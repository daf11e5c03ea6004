use vstd::prelude::*;
use vstd::string::StringExecFns;

use crate::chunk::{
    OP_ADD, OP_CALL, OP_CLOSE_UPVALUE, OP_CLOSURE, OP_CONSTANT, OP_DEFINE_GLOBAL, OP_DIVIDE,
    OP_EQUAL, OP_FALSE, OP_GET_GLOBAL, OP_GET_LOCAL, OP_GET_UPVALUE, OP_GREATER, OP_JUMP,
    OP_JUMP_IF_FALSE, OP_LESS, OP_LOOP, OP_MULTIPLY, OP_NEGATE, OP_NIL, OP_NOT, OP_POP, OP_PRINT,
    OP_RETURN, OP_SET_GLOBAL, OP_SET_LOCAL, OP_SET_UPVALUE, OP_SUBTRACT, OP_TRUE,
};
use crate::compiler::RuntimeExpression;
use crate::debug::{object_text, shows};
use crate::memory::{
    black_closed, function_refs_live, gray_ok, heap_closed, heap_grows, heap_keeps, mark_global_table, mark_object,
    mark_value, marks_grow, obj_refers_to, reaches, remove_white_strings, replaced, sweep, trace_reference, value_live,
    Gc, Heap,
};
use crate::table::{interns, GlobalVariableTable, StringTable};
use crate::value::{
    is_falsey, spec_is_falsey, spec_values_equal, NativeFunction, Obj, ObjClosure, ObjFunction,
    ObjType, ObjUpvalue, Value,
};

verus! {

/// The decimal digits of `n`.
pub open spec fn decimal(n: nat) -> Seq<char>
    decreases n,
{
    if n < 10 {
        seq![digit_char(n)]
    } else {
        decimal(n / 10).push(digit_char(n % 10))
    }
}

/// The character of a decimal digit.
pub open spec fn digit_char(d: nat) -> char {
    if d == 0 { '0' } else if d == 1 { '1' } else if d == 2 { '2' } else if d == 3 { '3' } else if d == 4 { '4' }
    else if d == 5 { '5' } else if d == 6 { '6' } else if d == 7 { '7' } else if d == 8 { '8' } else { '9' }
}

fn digit(d: usize) -> (res: char)
    requires
        d < 10,
    ensures
        res == digit_char(d as nat),
{
    match d {
        0 => '0',
        1 => '1',
        2 => '2',
        3 => '3',
        4 => '4',
        5 => '5',
        6 => '6',
        7 => '7',
        8 => '8',
        _ => '9',
    }
}

fn push_decimal(n: usize, out: &mut Vec<char>)
    ensures
        final(out)@ == old(out)@ + decimal(n as nat),
    decreases n,
{
    if n >= 10 {
        push_decimal(n / 10, out);
    }
    out.push(digit(n % 10));
    proof {
        if n >= 10 {
            assert(final(out)@ =~= old(out)@ + decimal(n as nat));
        } else {
            assert(final(out)@ =~= old(out)@ + decimal(n as nat));
        }
    }
}

/// `n` in decimal.
pub fn usize_to_string(n: usize) -> (res: String)
    ensures
        res@ == decimal(n as nat),
{
    let mut cs: Vec<char> = Vec::new();
    push_decimal(n, &mut cs);
    assert(cs@ =~= decimal(n as nat));
    crate::scanner::string_from_chars(cs.as_slice())
}


/// A function activation: the closure being run, the index of the next
/// instruction in its code, and the stack slot where its locals begin
/// (slot 0 holds the callee).
#[derive(Clone, Copy, PartialEq, Eq, Structural)]
pub struct CallFrame {
    pub closure: Gc,
    pub ip: usize,
    pub slot_start: usize,
}

/// How a run ends.
#[derive(Clone, Copy, PartialEq, Eq, Structural)]
pub enum InterpretResult {
    Success,
    CompileError,
    RuntimeError,
}

/// The arithmetic on doubles that the host performs for the VM.
#[derive(Clone, Copy, PartialEq, Eq, Structural)]
pub enum ArithOp {
    Add,
    Subtract,
    Multiply,
    Divide,
}

/// What `print` shows: text, or a number that the host formats.
pub enum PrintItem {
    Text(String),
    Number(u64),
}

/// A line of a runtime error's stack trace.
pub struct TraceLine {
    pub line: usize,
    pub function: String,
}

/// What a step of the VM asks of its host, or how the run ended.
pub enum Step {
    /// The instruction is done; step again.
    Continue,
    /// Print the item and a newline, then step again.
    Print(PrintItem),
    /// Compute `a op b` on the doubles with these bits and hand the result's
    /// bits back with `resume`, then step again.
    Arithmetic { op: ArithOp, a: u64, b: u64 },
    /// Call the native function with these arguments and hand its result
    /// back with `resume`, then step again.
    CallNative { function: NativeFunction, args: Vec<Value> },
    /// Report the error and its trace; the run failed.
    RuntimeError { message: String, trace: Vec<TraceLine> },
    /// The byte is no instruction; the run failed.
    UnknownOpcode(u8),
    /// The script returned; the run succeeded.
    Finished,
    /// The code broke an assumption that compiled code keeps (an operand
    /// past the end of the code, a pop from an empty stack, ...).
    Fault,
}

/// The Lox virtual machine.
pub struct VM {
    pub frames: Vec<CallFrame>,
    pub stack: Vec<Value>,
    pub strings: StringTable,
    pub globals: GlobalVariableTable,
    /// The open upvalues, in ascending slot order.
    pub open_upvalues: Vec<Gc>,
    pub heap: Heap,
}

/// `g` names a live closure whose function is live.
pub open spec fn closure_ok(heap: Heap, g: Gc) -> bool {
    &&& heap.is_live(g)
    &&& heap.obj(g).obj_type is Closure
    &&& heap.is_live(heap.obj(g).obj_type->Closure_0.function)
    &&& heap.obj(heap.obj(g).obj_type->Closure_0.function).obj_type is Function
}

/// The closure object that `g` names.
pub open spec fn closure_of(heap: Heap, g: Gc) -> ObjClosure {
    heap.obj(g).obj_type->Closure_0
}

/// The function of the closure that `g` names.
pub open spec fn function_of(heap: Heap, g: Gc) -> ObjFunction {
    heap.obj(closure_of(heap, g).function).obj_type->Function_0
}

impl VM {
    /// The VM's state is consistent: its tables are well formed, the heap is
    /// closed under references, every root (stack value, frame closure,
    /// global) is live, frames run live closures, the open upvalues are live
    /// open upvalues in ascending slot order, and the interned strings are
    /// live strings.
    pub open spec fn wf(&self) -> bool {
        &&& self.heap.wf()
        &&& self.strings.wf()
        &&& self.globals.wf()
        &&& heap_closed(self.heap)
        &&& interns(self.strings, self.heap)
        &&& forall|i: int| 0 <= i < self.stack@.len() ==> value_live(self.heap, #[trigger] self.stack@[i])
        &&& forall|i: int| 0 <= i < self.frames@.len() ==> closure_ok(self.heap, #[trigger] self.frames@[i].closure)
        &&& open_ok(self.heap, self.open_upvalues@)
        &&& forall|k: Seq<char>| #[trigger] self.globals.view().contains_key(k) ==> value_live(self.heap, self.globals.view()[k])
    }

    /// The frame being run.
    pub open spec fn top(&self) -> CallFrame {
        self.frames@.last()
    }

    /// The code being run.
    pub open spec fn code(&self) -> Seq<u8> {
        function_of(self.heap, self.top().closure).chunk.code@
    }

    /// The constants of the code being run.
    pub open spec fn constants(&self) -> Seq<Value> {
        function_of(self.heap, self.top().closure).chunk.constants.values@
    }

    /// The frames with the top one's instruction index set to `ip`.
    pub open spec fn frames_at(&self, ip: int) -> Seq<CallFrame> {
        self.frames@.update(
            self.frames@.len() - 1,
            CallFrame { closure: self.top().closure, ip: ip as usize, slot_start: self.top().slot_start },
        )
    }

    /// `after` is `self` with the stack replaced by `stack` and the top
    /// frame moved to instruction `ip`.
    pub open spec fn moved_to(&self, after: &VM, stack: Seq<Value>, ip: int) -> bool {
        &&& after.stack@ == stack
        &&& after.frames@ == self.frames_at(ip)
        &&& after.heap == self.heap
        &&& after.globals == self.globals
        &&& after.strings == self.strings
        &&& after.open_upvalues == self.open_upvalues
    }

    /// A VM that runs the compiled script: its closure is on the heap and in
    /// stack slot 0, and the first frame runs it from the start.
    pub fn new(runtime_expression: RuntimeExpression) -> (res: Self)
        requires
            runtime_expression.heap.wf(),
            heap_closed(runtime_expression.heap),
            runtime_expression.strings.wf(),
            interns(runtime_expression.strings, runtime_expression.heap),
            function_refs_live(runtime_expression.heap, runtime_expression.function),
        ensures
            res.wf(),
            res.frames@.len() == 1,
            res.top().ip == 0,
            res.top().slot_start == 0,
            res.stack@ == seq![Value::Obj(res.top().closure)],
            res.function_of_top() == runtime_expression.function,
            res.globals.view() == Map::<Seq<char>, Value>::empty(),
            res.strings == runtime_expression.strings,
            res.open_upvalues@.len() == 0,
            heap_grows(runtime_expression.heap, res.heap),
            ({
                let c = res.top().closure;
                let f = res.heap.obj(c).obj_type->Closure_0.function;
                &&& !runtime_expression.heap.is_live(c)
                &&& !runtime_expression.heap.is_live(f)
                &&& res.heap.obj(f).obj_type == ObjType::Function(runtime_expression.function)
                &&& forall|x: Gc| #![trigger res.heap.is_live(x)] res.heap.is_live(x) ==> runtime_expression.heap.is_live(x) || x == c
                    || x == f
            }),
    {
        let RuntimeExpression { function, strings, heap } = runtime_expression;
        let mut heap = heap;
        let ghost h0 = heap;
        let function_ptr = Gc::new(&mut heap, Obj::new_function(function));
        let ghost h1 = heap;
        proof {
            crate::memory::lemma_closed_after_add(h0, h1, function_ptr);
        }
        let closure_ptr = Gc::new(&mut heap, Obj::new_closure(ObjClosure { function: function_ptr, upvalues: Vec::new() }));
        proof {
            crate::memory::lemma_closed_after_add(h1, heap, closure_ptr);
            crate::memory::lemma_grows_trans(h0, h1, heap);
        }
        let mut frames = Vec::new();
        frames.push(CallFrame { closure: closure_ptr, ip: 0, slot_start: 0 });
        let mut stack = Vec::new();
        stack.push(Value::Obj(closure_ptr));
        let vm = VM {
            frames,
            stack,
            strings,
            globals: GlobalVariableTable::new(),
            open_upvalues: Vec::new(),
            heap,
        };
        proof {
            assert forall|k: Seq<char>| #![trigger vm.strings.view()[k]] vm.strings.view().contains_key(k) implies {
                &&& vm.heap.is_live(vm.strings.view()[k])
                &&& vm.heap.obj(vm.strings.view()[k]).obj_type matches ObjType::String(t) && t@ == k
            } by {
                let g = vm.strings.view()[k];
                assert(h0.is_live(g));
                assert(vm.heap.is_live(g) && vm.heap.obj(g) == h0.obj(g));
            }
            assert(vm.heap.obj(closure_ptr).obj_type->Closure_0.function == function_ptr);
            assert(h1.is_live(function_ptr));
            assert(vm.heap.is_live(function_ptr) && vm.heap.obj(function_ptr) == h1.obj(function_ptr));
            assert(closure_ok(vm.heap, closure_ptr));
            assert(!h0.is_live(closure_ptr));
            assert forall|x: Gc| #![trigger vm.heap.is_live(x)] vm.heap.is_live(x) implies h0.is_live(x) || x == closure_ptr
                || x == function_ptr by {
                if x != closure_ptr {
                    assert(h1.is_live(x));
                }
            }
        }
        vm
    }

    /// The function of the frame being run.
    pub open spec fn function_of_top(&self) -> ObjFunction {
        function_of(self.heap, self.top().closure)
    }

    /// Places `obj` on the heap and gives back its handle.
    pub fn new_managed_obj(&mut self, obj: Obj) -> (res: Gc)
        requires
            old(self).heap.wf(),
        ensures
            final(self).heap.wf(),
            res == old(self).heap.next_slot(),
            !old(self).heap.is_live(res),
            final(self).heap.is_live(res),
            final(self).heap.obj(res) == obj,
            heap_grows(old(self).heap, final(self).heap),
            forall|x: Gc| #[trigger] final(self).heap.is_live(x) ==> old(self).heap.is_live(x) || x == res,
            final(self).frames == old(self).frames,
            final(self).stack == old(self).stack,
            final(self).strings == old(self).strings,
            final(self).globals == old(self).globals,
            final(self).open_upvalues == old(self).open_upvalues,
    {
        Gc::new(&mut self.heap, obj)
    }

    /// Empties the value stack.
    pub fn reset_stack(&mut self)
        ensures
            final(self).stack@ == Seq::<Value>::empty(),
            final(self).frames == old(self).frames,
            final(self).heap == old(self).heap,
            final(self).strings == old(self).strings,
            final(self).globals == old(self).globals,
            final(self).open_upvalues == old(self).open_upvalues,
    {
        self.stack.clear();
    }

    /// Binds the global `name` to a new native function object.
    pub fn define_native(&mut self, name: &str, function: NativeFunction)
        requires
            old(self).wf(),
        ensures
            final(self).wf(),
            final(self).heap.is_live(final(self).globals.view()[name@]->Obj_0),
            final(self).globals.view().contains_key(name@),
            final(self).globals.view()[name@] is Obj,
            final(self).heap.obj(final(self).globals.view()[name@]->Obj_0).obj_type == ObjType::Native(function),
            final(self).globals.view() == old(self).globals.view().insert(name@, final(self).globals.view()[name@]),
            final(self).stack == old(self).stack,
            final(self).frames == old(self).frames,
            heap_grows(old(self).heap, final(self).heap),
    {
        let ghost h0 = self.heap;
        let native = self.new_managed_obj(Obj::new_native(function));
        proof {
            crate::memory::lemma_closed_after_add(h0, self.heap, native);
            crate::memory::lemma_grows_keeps(h0, self.heap);
            self.lemma_roots_kept(h0);
            lemma_open_grow(h0, self.heap, self.open_upvalues@);
        }
        self.globals.define(name, Value::Obj(native));
        proof {
            assert forall|k: Seq<char>| #[trigger] self.globals.view().contains_key(k) implies value_live(self.heap, self.globals.view()[k]) by {
                if k != name@ {
                    assert(old(self).globals.view().contains_key(k));
                }
            }
        }
    }

    /// After the heap keeps its objects, the roots that were live still are,
    /// and closures and functions are what they were.
    proof fn lemma_roots_kept(&self, h0: Heap)
        requires
            heap_keeps(h0, self.heap),
            forall|i: int| 0 <= i < self.stack@.len() ==> value_live(h0, #[trigger] self.stack@[i]),
            forall|i: int| 0 <= i < self.frames@.len() ==> closure_ok(h0, #[trigger] self.frames@[i].closure),
            forall|k: Seq<char>| #[trigger] self.globals.view().contains_key(k) ==> value_live(h0, self.globals.view()[k]),
        ensures
            forall|i: int| 0 <= i < self.stack@.len() ==> value_live(self.heap, #[trigger] self.stack@[i]),
            forall|i: int| 0 <= i < self.frames@.len() ==> closure_ok(self.heap, #[trigger] self.frames@[i].closure),
            forall|k: Seq<char>| #[trigger] self.globals.view().contains_key(k) ==> value_live(self.heap, self.globals.view()[k]),
            interns(self.strings, h0) ==> interns(self.strings, self.heap),
            forall|g: Gc| closure_ok(h0, g) ==> closure_ok(self.heap, g) && function_of(self.heap, g) == function_of(h0, g)
                && closure_of(self.heap, g) == closure_of(h0, g),
    {
        assert forall|i: int| 0 <= i < self.stack@.len() implies value_live(self.heap, #[trigger] self.stack@[i]) by {
            assert(value_live(h0, self.stack@[i]));
        }
        assert forall|g: Gc| closure_ok(h0, g) implies closure_ok(self.heap, g) && function_of(self.heap, g) == function_of(h0, g)
            && closure_of(self.heap, g) == closure_of(h0, g) by {
            assert(self.heap.is_live(g));
            assert(self.heap.is_live(closure_of(h0, g).function));
            assert(self.heap.obj(closure_of(h0, g).function) == h0.obj(closure_of(h0, g).function));
        }
        assert forall|i: int| 0 <= i < self.frames@.len() implies closure_ok(self.heap, #[trigger] self.frames@[i].closure) by {
            assert(closure_ok(h0, self.frames@[i].closure));
        }
        assert forall|k: Seq<char>| #[trigger] self.globals.view().contains_key(k) implies value_live(self.heap, self.globals.view()[k]) by {
            assert(value_live(h0, self.globals.view()[k]));
        }
        if interns(self.strings, h0) {
            assert forall|k: Seq<char>| #![trigger self.strings.view()[k]] self.strings.view().contains_key(k) implies {
                &&& self.heap.is_live(self.strings.view()[k])
                &&& self.heap.obj(self.strings.view()[k]).obj_type matches ObjType::String(t) && t@ == k
            } by {
                let g = self.strings.view()[k];
                assert(h0.is_live(g));
                assert(self.heap.is_live(g) && self.heap.obj(g) == h0.obj(g));
            }
        }
    }
}


/// The source lines of the code of the closure that `g` names.
pub open spec fn lines_of(heap: Heap, g: Gc) -> Seq<usize> {
    function_of(heap, g).chunk.lines@
}

/// The name a stack trace gives a frame's function: its name, or
/// `<script>` for the script. `None` where the name is no live string.
pub open spec fn frame_name(heap: Heap, f: CallFrame) -> Option<Seq<char>> {
    match function_of(heap, f.closure).name {
        Some(n) => if heap.is_live(n) && heap.obj(n).obj_type is String {
            Some(heap.obj(n).obj_type->String_0@)
        } else {
            None
        },
        None => Some("<script>"@),
    }
}

/// The frame's instruction index just went past an instruction, whose line
/// is known.
pub open spec fn frame_traceable(heap: Heap, f: CallFrame) -> bool {
    &&& f.ip >= 1
    &&& f.ip - 1 < lines_of(heap, f.closure).len()
    &&& frame_name(heap, f) is Some
}

/// The stack trace of a runtime error in a VM with these frames: the line of
/// the failing instruction "in script", then each frame, innermost first,
/// with its line and name.
pub open spec fn trace_matches(heap: Heap, frames: Seq<CallFrame>, trace: Seq<TraceLine>) -> bool {
    let n = frames.len();
    let top = frames.last();
    &&& trace.len() == n + 1
    &&& trace[0].line == lines_of(heap, top.closure)[top.ip - 1]
    &&& trace[0].function@ == "script"@
    &&& forall|k: int| 1 <= k <= n ==> {
        let f = #[trigger] frames[n - k];
        &&& trace[k].line == lines_of(heap, f.closure)[f.ip - 1]
        &&& Some(trace[k].function@) == frame_name(heap, f)
    }
}

/// Every frame can be traced.
pub open spec fn all_traceable(heap: Heap, frames: Seq<CallFrame>) -> bool {
    forall|i: int| 0 <= i < frames.len() ==> frame_traceable(heap, #[trigger] frames[i])
}

/// `out` reports `message` as a runtime error raised with the frames at
/// `frames` (the failing instruction read), and `after` is `pre` with those
/// frames and the stack emptied; or, where the trace cannot be made, `out`
/// is a fault.
pub open spec fn reports_error(pre: &VM, frames: Seq<CallFrame>, after: &VM, out: &Step, message: Seq<char>) -> bool {
    if all_traceable(pre.heap, frames) {
        &&& out matches Step::RuntimeError { message: m, trace } && m@ == message && trace_matches(pre.heap, frames, trace@)
        &&& after.stack@.len() == 0
        &&& after.frames@ == frames
        &&& after.heap == pre.heap
        &&& after.globals == pre.globals
        &&& after.strings == pre.strings
        &&& after.open_upvalues == pre.open_upvalues
    } else {
        out is Fault
    }
}

impl VM {
    /// The function of the frame being run.
    fn current_function(&self) -> (res: &ObjFunction)
        requires
            self.wf(),
            self.frames@.len() > 0,
        ensures
            *res == self.function_of_top(),
    {
        let f = self.frames[self.frames.len() - 1];
        proof {
            assert(closure_ok(self.heap, self.frames@[self.frames@.len() - 1].closure));
        }
        let c = self.heap.get(f.closure).as_closure();
        self.heap.get(c.function).as_function()
    }

    /// The byte `k` places after the current instruction index, if the code
    /// has one there.
    fn code_byte(&self, k: usize) -> (res: Option<u8>)
        requires
            self.wf(),
            self.frames@.len() > 0,
            k <= 2,
        ensures
            self.top().ip + k < self.code().len() ==> res == Some(self.code()[self.top().ip + k]),
            self.top().ip + k >= self.code().len() ==> res is None,
    {
        let ip = self.fetch_ip();
        let code = &self.current_function().chunk.code;
        if ip < code.len() && k < code.len() - ip {
            Some(code[ip + k])
        } else {
            None
        }
    }

    /// Moves the frame being run to instruction `ip`.
    fn set_ip(&mut self, ip: usize)
        requires
            old(self).wf(),
            old(self).frames@.len() > 0,
        ensures
            final(self).wf(),
            old(self).moved_to(&*final(self), old(self).stack@, ip as int),
    {
        let n = self.frames.len() - 1;
        let f = self.frames[n];
        self.frames.set(n, CallFrame { closure: f.closure, ip, slot_start: f.slot_start });
        proof {
            assert forall|i: int| 0 <= i < self.frames@.len() implies closure_ok(self.heap, #[trigger] self.frames@[i].closure) by {
                assert(closure_ok(old(self).heap, old(self).frames@[i].closure));
            }
        }
    }

    /// The stack trace line of frame `i` (counted from the bottom).
    fn trace_line(&self, f: CallFrame) -> (res: Option<TraceLine>)
        requires
            self.wf(),
            closure_ok(self.heap, f.closure),
        ensures
            frame_traceable(self.heap, f) <==> res is Some,
            res matches Some(t) ==> t.line == lines_of(self.heap, f.closure)[f.ip - 1] && Some(t.function@)
                == frame_name(self.heap, f),
    {
        let c = self.heap.get(f.closure).as_closure();
        let function = self.heap.get(c.function).as_function();
        if f.ip == 0 || f.ip - 1 >= function.chunk.lines.len() {
            return None;
        }
        let line = function.chunk.lines[f.ip - 1];
        let name = match function.name {
            Some(n) => {
                if !self.heap.is_live_exec(n) {
                    return None;
                }
                match &self.heap.get(n).obj_type {
                    ObjType::String(s) => s.clone(),
                    _ => {
                        return None;
                    },
                }
            },
            None => "<script>".to_string(),
        };
        Some(TraceLine { line, function: name })
    }

    /// Reports a runtime error: the message and the stack trace, after which
    /// the stack is emptied.
    pub fn runtime_error(&mut self, message: &str) -> (res: Step)
        requires
            old(self).wf(),
            old(self).frames@.len() > 0,
        ensures
            final(self).wf(),
            reports_error(&*old(self), old(self).frames@, &*final(self), &res, message@),
            res is Fault ==> *final(self) == *old(self),
    {
        let top = self.frames[self.frames.len() - 1];
        proof {
            assert(closure_ok(self.heap, self.frames@[self.frames@.len() - 1].closure));
        }
        let first = match self.trace_line(top) {
            Some(t) => t,
            None => {
                proof {
                    assert(!frame_traceable(self.heap, self.frames@[self.frames@.len() - 1]));
                }
                return Step::Fault;
            },
        };
        let mut trace: Vec<TraceLine> = Vec::new();
        trace.push(TraceLine { line: first.line, function: "script".to_string() });
        let n = self.frames.len();
        let mut i: usize = n;
        while i > 0
            invariant
                self.wf(),
                *self == *old(self),
                n == self.frames@.len(),
                i <= n,
                trace@.len() == n - i + 1,
                trace@[0].line == lines_of(self.heap, self.top().closure)[self.top().ip - 1],
                trace@[0].function@ == "script"@,
                forall|j: int| 1 <= j < n - i + 1 ==> {
                    let f = #[trigger] self.frames@[n - j];
                    &&& trace@[j].line == lines_of(self.heap, f.closure)[f.ip - 1]
                    &&& Some(trace@[j].function@) == frame_name(self.heap, f)
                },
                forall|j: int| 1 <= j < n - i + 1 ==> frame_traceable(self.heap, #[trigger] self.frames@[n - j]),
            decreases i,
        {
            i = i - 1;
            let f = self.frames[i];
            proof {
                assert(closure_ok(self.heap, self.frames@[i as int].closure));
            }
            match self.trace_line(f) {
                Some(t) => {
                    trace.push(t);
                    proof {
                        assert(self.frames@[n - (n - i)] == f);
                    }
                },
                None => {
                    proof {
                        assert(!frame_traceable(self.heap, self.frames@[i as int]));
                        assert(!all_traceable(self.heap, self.frames@));
                    }
                    return Step::Fault;
                },
            }
        }
        proof {
            assert forall|i: int| 0 <= i < self.frames@.len() implies frame_traceable(self.heap, #[trigger] self.frames@[i]) by {
                let j = n - i;
                assert(1 <= j <= n);
                assert(self.frames@[n - j] == self.frames@[i]);
            }
        }
        self.reset_stack();
        Step::RuntimeError { message: message.to_string(), trace }
    }
}


/// The three texts one after another.
pub(crate) fn concat3(a: &str, b: &str, c: &str) -> (res: String)
    ensures
        res@ == a@ + b@ + c@,
{
    let mut res = String::from_str(a);
    res.append(b);
    res.append(c);
    res
}


impl VM {
    /// The code has a byte `k` places after the current instruction.
    pub open spec fn has(&self, k: int) -> bool {
        self.top().ip + k < self.code().len()
    }

    /// The byte `k` places after the current instruction.
    pub open spec fn operand(&self, k: int) -> u8 {
        self.code()[self.top().ip + k]
    }

    /// The two-byte big-endian operand after the current instruction.
    pub open spec fn short_operand(&self) -> int {
        self.operand(1) as int * 256 + self.operand(2) as int
    }

    /// The stack with its top `n` values popped.
    pub open spec fn popped(&self, n: int) -> Seq<Value> {
        self.stack@.subrange(0, self.stack@.len() - n)
    }

    /// The value `d` places below the top of the stack.
    pub open spec fn peek_spec(&self, d: int) -> Value {
        self.stack@[self.stack@.len() - 1 - d]
    }

    /// The instruction completes: the stack becomes `stack`, the frame moves
    /// to `ip`, and nothing else changes.
    pub open spec fn continues(&self, after: &VM, out: &Step, stack: Seq<Value>, ip: int) -> bool {
        &&& *out is Continue
        &&& self.moved_to(after, stack, ip)
    }

    /// Changing the stack and instruction index alone, to live values, keeps
    /// the invariant.
    proof fn lemma_wf_stack(&self, pre: &VM)
        requires
            pre.wf(),
            self.heap == pre.heap,
            self.globals == pre.globals,
            self.strings == pre.strings,
            self.open_upvalues == pre.open_upvalues,
            self.frames@.len() == pre.frames@.len(),
            forall|i: int| 0 <= i < self.frames@.len() ==> #[trigger] self.frames@[i].closure == pre.frames@[i].closure,
            forall|i: int| 0 <= i < self.stack@.len() ==> value_live(self.heap, #[trigger] self.stack@[i]),
        ensures
            self.wf(),
    {
        assert forall|i: int| 0 <= i < self.frames@.len() implies closure_ok(self.heap, #[trigger] self.frames@[i].closure) by {
            assert(self.frames@[i].closure == pre.frames@[i].closure);
            assert(closure_ok(pre.heap, pre.frames@[i].closure));
        }
    }

    /// The current instruction index, below the length of the code.
    fn fetch_ip(&self) -> (res: usize)
        requires
            self.wf(),
            self.frames@.len() > 0,
        ensures
            res == self.top().ip,
            self.code().len() <= usize::MAX,
    {
        let _ = self.current_function().chunk.code.len();
        self.frames[self.frames.len() - 1].ip
    }

    /// Pushes `v` and moves to `ip`.
    fn push_and_move(&mut self, v: Value, ip: usize)
        requires
            old(self).wf(),
            old(self).frames@.len() > 0,
            value_live(old(self).heap, v),
        ensures
            final(self).wf(),
            old(self).moved_to(&*final(self), old(self).stack@.push(v), ip as int),
    {
        self.stack.push(v);
        self.set_ip(ip);
    }

    /// Pushes the constant that the operand byte names.
    pub open spec fn constant_effect(&self, after: &VM, out: &Step) -> bool {
        if self.has(1) && (self.operand(1) as int) < self.constants().len() {
            self.continues(after, out, self.stack@.push(self.constants()[self.operand(1) as int]), self.top().ip + 2)
        } else {
            *out is Fault && *after == *self
    }
    }

    fn op_constant(&mut self) -> (res: Step)
        requires
            old(self).wf(),
            old(self).frames@.len() > 0,
            old(self).has(0),
        ensures
            final(self).wf(),
            old(self).constant_effect(&*final(self), &res),
    {
        let ip = self.fetch_ip();
        let index = match self.code_byte(1) {
            Some(b) => b as usize,
            None => return Step::Fault,
        };
        let constants = &self.current_function().chunk.constants.values;
        if index >= constants.len() {
            return Step::Fault;
        }
        let v = constants[index];
        proof {
            let f = self.frames@[self.frames@.len() - 1];
            assert(closure_ok(self.heap, f.closure));
            let fg = closure_of(self.heap, f.closure).function;
            assert(obj_refers_to(self.heap.obj(fg), v->Obj_0) ==> self.heap.is_live(v->Obj_0));
            if v is Obj {
                assert(self.heap.obj(fg).obj_type->Function_0.chunk.constants.values@[index as int] == v);
                assert(obj_refers_to(self.heap.obj(fg), v->Obj_0));
            }
        }
        self.push_and_move(v, ip + 2);
        Step::Continue
    }

    fn op_literal(&mut self, v: Value) -> (res: Step)
        requires
            old(self).wf(),
            old(self).frames@.len() > 0,
            old(self).has(0),
            !(v is Obj),
        ensures
            final(self).wf(),
            old(self).continues(&*final(self), &res, old(self).stack@.push(v), old(self).top().ip + 1),
    {
        let ip = self.fetch_ip();
        self.push_and_move(v, ip + 1);
        Step::Continue
    }

    /// Pops the top value.
    pub open spec fn pop_effect(&self, after: &VM, out: &Step) -> bool {
        if self.stack@.len() > 0 {
            self.continues(after, out, self.popped(1), self.top().ip + 1)
        } else {
            *out is Fault && *after == *self
    }
    }

    fn op_pop(&mut self) -> (res: Step)
        requires
            old(self).wf(),
            old(self).frames@.len() > 0,
            old(self).has(0),
        ensures
            final(self).wf(),
            old(self).pop_effect(&*final(self), &res),
    {
        let ip = self.fetch_ip();
        if self.stack.len() == 0 {
            return Step::Fault;
        }
        let _ = self.stack.pop();
        self.set_ip(ip + 1);
        proof {
            assert(self.stack@ =~= old(self).popped(1));
        }
        Step::Continue
    }

    /// Pushes the local in the slot that the operand byte names.
    pub open spec fn get_local_effect(&self, after: &VM, out: &Step) -> bool {
        if self.has(1) && self.top().slot_start + self.operand(1) < self.stack@.len() {
            self.continues(after, out,
                self.stack@.push(self.stack@[self.top().slot_start + self.operand(1)]), self.top().ip + 2)
        } else {
            *out is Fault && *after == *self
    }
    }

    fn op_get_local(&mut self) -> (res: Step)
        requires
            old(self).wf(),
            old(self).frames@.len() > 0,
            old(self).has(0),
        ensures
            final(self).wf(),
            old(self).get_local_effect(&*final(self), &res),
    {
        let _ = self.fetch_ip();
        let f = self.frames[self.frames.len() - 1];
        let slot = match self.code_byte(1) {
            Some(b) => b as usize,
            None => return Step::Fault,
        };
        if slot >= self.stack.len() || f.slot_start >= self.stack.len() - slot {
            return Step::Fault;
        }
        let v = self.stack[f.slot_start + slot];
        self.push_and_move(v, f.ip + 2);
        Step::Continue
    }

    /// Stores the top value, which stays, in the local that the operand byte names.
    pub open spec fn set_local_effect(&self, after: &VM, out: &Step) -> bool {
        if self.has(1) && self.stack@.len() > 0 && self.top().slot_start + self.operand(1)
            < self.stack@.len() {
            self.continues(after, out,
                self.stack@.update(self.top().slot_start + self.operand(1), self.peek_spec(0)),
                self.top().ip + 2)
        } else {
            *out is Fault && *after == *self
    }
    }

    fn op_set_local(&mut self) -> (res: Step)
        requires
            old(self).wf(),
            old(self).frames@.len() > 0,
            old(self).has(0),
        ensures
            final(self).wf(),
            old(self).set_local_effect(&*final(self), &res),
    {
        let _ = self.fetch_ip();
        let f = self.frames[self.frames.len() - 1];
        let slot = match self.code_byte(1) {
            Some(b) => b as usize,
            None => return Step::Fault,
        };
        if self.stack.len() == 0 || slot >= self.stack.len() || f.slot_start >= self.stack.len() - slot {
            return Step::Fault;
        }
        let v = self.stack[self.stack.len() - 1];
        self.stack.set(f.slot_start + slot, v);
        self.set_ip(f.ip + 2);
        proof {
            assert forall|i: int| 0 <= i < self.stack@.len() implies value_live(self.heap, #[trigger] self.stack@[i]) by {
                assert(value_live(old(self).heap, old(self).stack@[i]));
            }
        }
        Step::Continue
    }

    /// Replaces the top two values by whether they are equal.
    pub open spec fn equal_effect(&self, after: &VM, out: &Step) -> bool {
        if self.stack@.len() >= 2 {
            self.continues(after, out,
                self.popped(2).push(Value::Bool(spec_values_equal(self.peek_spec(1), self.peek_spec(0)))),
                self.top().ip + 1)
        } else {
            *out is Fault && *after == *self
    }
    }

    fn op_equal(&mut self) -> (res: Step)
        requires
            old(self).wf(),
            old(self).frames@.len() > 0,
            old(self).has(0),
        ensures
            final(self).wf(),
            old(self).equal_effect(&*final(self), &res),
    {
        let ip = self.fetch_ip();
        if self.stack.len() < 2 {
            return Step::Fault;
        }
        let b = self.stack.pop().unwrap();
        let a = self.stack.pop().unwrap();
        self.push_and_move(Value::Bool(a.is_equal(&b)), ip + 1);
        proof {
            assert(self.stack@ =~= old(self).popped(2).push(Value::Bool(spec_values_equal(a, b))));
        }
        Step::Continue
    }

    /// Replaces the top value by whether it is falsey.
    pub open spec fn not_effect(&self, after: &VM, out: &Step) -> bool {
        if self.stack@.len() >= 1 {
            self.continues(after, out,
                self.popped(1).push(Value::Bool(spec_is_falsey(self.peek_spec(0)))),
                self.top().ip + 1)
        } else {
            *out is Fault && *after == *self
    }
    }

    fn op_not(&mut self) -> (res: Step)
        requires
            old(self).wf(),
            old(self).frames@.len() > 0,
            old(self).has(0),
        ensures
            final(self).wf(),
            old(self).not_effect(&*final(self), &res),
    {
        let ip = self.fetch_ip();
        if self.stack.len() < 1 {
            return Step::Fault;
        }
        let v = self.stack.pop().unwrap();
        self.push_and_move(Value::Bool(is_falsey(&v)), ip + 1);
        proof {
            assert(self.stack@ =~= old(self).popped(1).push(Value::Bool(spec_is_falsey(v))));
        }
        Step::Continue
    }

    /// Pops the top value and asks the host to print it.
    pub open spec fn print_effect(&self, after: &VM, out: &Step) -> bool {
        if self.stack@.len() >= 1 && !(self.peek_spec(0) matches Value::Obj(g) && object_text(self.heap, g) is None) {
            &&& *out matches Step::Print(item) && shows(self.heap, self.peek_spec(0), item)
            &&& self.moved_to(after, self.popped(1), self.top().ip + 1)
        } else {
            *out is Fault && *after == *self
    }
    }

    fn op_print(&mut self) -> (res: Step)
        requires
            old(self).wf(),
            old(self).frames@.len() > 0,
            old(self).has(0),
        ensures
            final(self).wf(),
            old(self).print_effect(&*final(self), &res),
    {
        let ip = self.fetch_ip();
        if self.stack.len() < 1 {
            return Step::Fault;
        }
        let v = self.stack[self.stack.len() - 1];
        let item = match crate::debug::print_value(&self.heap, &v) {
            Some(item) => item,
            None => return Step::Fault,
        };
        let _ = self.stack.pop();
        self.set_ip(ip + 1);
        proof {
            assert(self.stack@ =~= old(self).popped(1));
        }
        Step::Print(item)
    }

    /// The two-byte operand after the current instruction, if the code has it.
    fn read_short(&self) -> (res: Option<usize>)
        requires
            self.wf(),
            self.frames@.len() > 0,
        ensures
            self.has(2) ==> res == Some(self.short_operand() as usize),
            !self.has(2) ==> res is None,
    {
        let hi = match self.code_byte(1) {
            Some(b) => b,
            None => return None,
        };
        let lo = match self.code_byte(2) {
            Some(b) => b,
            None => return None,
        };
        Some((hi as usize) * 256 + (lo as usize))
    }

    /// Jumps forward by the two-byte operand; when `conditional`, only if the top value is falsey.
    pub open spec fn jump_effect(&self, after: &VM, out: &Step, conditional: bool) -> bool {
        let take = !conditional || (self.stack@.len() >= 1 && spec_is_falsey(self.peek_spec(0)));
        let target = self.top().ip + 3 + (if take { self.short_operand() } else { 0 });
        if self.has(2) && (!conditional || self.stack@.len() >= 1) && target <= usize::MAX {
            self.continues(after, out, self.stack@, target)
        } else {
            *out is Fault && *after == *self
        }
    }

    fn op_jump(&mut self, conditional: bool) -> (res: Step)
        requires
            old(self).wf(),
            old(self).frames@.len() > 0,
            old(self).has(0),
        ensures
            final(self).wf(),
            old(self).jump_effect(&*final(self), &res, conditional),
    {
        let ip = self.fetch_ip();
        let offset = match self.read_short() {
            Some(o) => o,
            None => return Step::Fault,
        };
        let mut take = true;
        if conditional {
            if self.stack.len() < 1 {
                return Step::Fault;
            }
            take = is_falsey(&self.stack[self.stack.len() - 1]);
        }
        let next = ip + 3;
        let target = if take {
            if offset > usize::MAX - next {
                return Step::Fault;
            }
            next + offset
        } else {
            next
        };
        self.set_ip(target);
        Step::Continue
    }

    /// Jumps back by the two-byte operand.
    pub open spec fn loop_effect(&self, after: &VM, out: &Step) -> bool {
        if self.has(2) && self.top().ip + 3 >= self.short_operand() {
            self.continues(after, out, self.stack@, self.top().ip + 3 - self.short_operand())
        } else {
            *out is Fault && *after == *self
    }
    }

    fn op_loop(&mut self) -> (res: Step)
        requires
            old(self).wf(),
            old(self).frames@.len() > 0,
            old(self).has(0),
        ensures
            final(self).wf(),
            old(self).loop_effect(&*final(self), &res),
    {
        let ip = self.fetch_ip();
        let offset = match self.read_short() {
            Some(o) => o,
            None => return Step::Fault,
        };
        if ip + 3 < offset {
            return Step::Fault;
        }
        self.set_ip(ip + 3 - offset);
        Step::Continue
    }
}


/// The text of the string object that `v` refers to, if it refers to a live
/// string.
pub open spec fn string_value(heap: Heap, v: Value) -> Option<Seq<char>> {
    match v {
        Value::Obj(g) => if heap.is_live(g) && heap.obj(g).obj_type is String {
            Some(heap.obj(g).obj_type->String_0@)
        } else {
            None
        },
        _ => None,
    }
}

/// The message for a read of or an assignment to an undefined global.
pub open spec fn undefined_variable(name: Seq<char>) -> Seq<char> {
    "Undefined variable '"@ + name + "'."@
}

impl VM {
    /// The constant that the operand byte names, if the code has the byte
    /// and the constant exists.
    pub open spec fn has_constant_operand(&self) -> bool {
        self.has(1) && (self.operand(1) as int) < self.constants().len()
    }

    /// The constant that the operand byte names.
    pub open spec fn constant_operand(&self) -> Value {
        self.constants()[self.operand(1) as int]
    }

    /// The name (a string constant) that the operand byte names: `None`
    /// where the code lacks the byte or the constant; `Some(None)` where the
    /// constant is not a string.
    fn name_operand(&self) -> (res: Option<Option<String>>)
        requires
            self.wf(),
            self.frames@.len() > 0,
        ensures
            !self.has_constant_operand() <==> res is None,
            self.has_constant_operand() ==> match string_value(self.heap, self.constant_operand()) {
                Some(t) => res matches Some(Some(n)) && n@ == t,
                None => res == Some(None::<String>),
            },
    {
        let index = match self.code_byte(1) {
            Some(b) => b as usize,
            None => return None,
        };
        let constants = &self.current_function().chunk.constants.values;
        if index >= constants.len() {
            return None;
        }
        match constants[index] {
            Value::Obj(g) => {
                if !self.heap.is_live_exec(g) {
                    return Some(None);
                }
                match &self.heap.get(g).obj_type {
                    ObjType::String(s) => Some(Some(s.clone())),
                    _ => Some(None),
                }
            },
            _ => Some(None),
        }
    }

    /// Pushes the value of the global that the operand names; an unbound name is an error.
    pub open spec fn get_global_effect(&self, after: &VM, out: &Step) -> bool {
        let frames = self.frames_at(self.top().ip + 2);
        if !self.has_constant_operand() {
            *out is Fault && *after == *self
        } else {
            match string_value(self.heap, self.constant_operand()) {
                None => reports_error(self, frames, after, out, "Invalid variable name."@),
                Some(name) => if self.globals.view().contains_key(name) {
                    self.continues(after, out, self.stack@.push(self.globals.view()[name]), self.top().ip + 2)
                } else {
                    reports_error(self, frames, after, out, undefined_variable(name))
                },
            }
        }
    }

    fn op_get_global(&mut self) -> (res: Step)
        requires
            old(self).wf(),
            old(self).frames@.len() > 0,
            old(self).has(0),
        ensures
            final(self).wf(),
            old(self).get_global_effect(&*final(self), &res),
    {
        let ip = self.fetch_ip();
        let name = match self.name_operand() {
            None => return Step::Fault,
            Some(n) => n,
        };
        self.set_ip(ip + 2);
        match name {
            None => {
                let ghost mid = *self;
                let r = self.runtime_error("Invalid variable name.");
                proof {
                    assert(mid.frames@ == old(self).frames_at(old(self).top().ip + 2));
                    assert(reports_error(&*old(self), old(self).frames_at(old(self).top().ip + 2), &*self, &r, "Invalid variable name."@));
                    assert(old(self).get_global_effect(&*self, &r));
                }
                r
            },
            Some(name) => {
                match self.globals.get(name.as_str()) {
                    Some(v) => {
                        let v = *v;
                        proof {
                            assert(self.globals.view().contains_key(name@));
                            assert(value_live(self.heap, v));
                        }
                        self.stack.push(v);
                        proof {
                            assert(self.wf());
                            assert(old(self).moved_to(&*self, old(self).stack@.push(v), old(self).top().ip + 2));
                            assert(old(self).get_global_effect(&*self, &Step::Continue));
                        }
                        Step::Continue
                    },
                    None => {
                        let message = concat3("Undefined variable '", name.as_str(), "'.");
                        let ghost mid = *self;
                        let r = self.runtime_error(message.as_str());
                        proof {
                            assert(message@ == undefined_variable(name@));
                            assert(mid.frames@ == old(self).frames_at(old(self).top().ip + 2));
                            assert(reports_error(&*old(self), old(self).frames_at(old(self).top().ip + 2), &*self, &r, undefined_variable(name@)));
                            assert(old(self).get_global_effect(&*self, &r));
                        }
                        r
                    },
                }
            },
        }
    }

    /// Binds the global that the operand names to the popped top value.
    pub open spec fn define_global_effect(&self, after: &VM, out: &Step) -> bool {
        let frames = self.frames_at(self.top().ip + 2);
        if !self.has_constant_operand() {
            *out is Fault && *after == *self
        } else {
            match string_value(self.heap, self.constant_operand()) {
                None => reports_error(self, frames, after, out, "Invalid variable name."@),
                Some(name) => if self.stack@.len() == 0 {
                    *out is Fault && *after == *self
                } else {
                    &&& *out is Continue
                    &&& after.stack@ == self.popped(1)
                    &&& after.frames@ == frames
                    &&& after.globals.view() == self.globals.view().insert(name, self.peek_spec(0))
                    &&& after.heap == self.heap
                    &&& after.strings == self.strings
                    &&& after.open_upvalues == self.open_upvalues
                },
            }
        }
    }

    fn op_define_global(&mut self) -> (res: Step)
        requires
            old(self).wf(),
            old(self).frames@.len() > 0,
            old(self).has(0),
        ensures
            final(self).wf(),
            old(self).define_global_effect(&*final(self), &res),
    {
        let ip = self.fetch_ip();
        let name = match self.name_operand() {
            None => return Step::Fault,
            Some(n) => n,
        };
        if name.is_some() && self.stack.len() == 0 {
            return Step::Fault;
        }
        self.set_ip(ip + 2);
        match name {
            None => {
                let ghost mid = *self;
                let r = self.runtime_error("Invalid variable name.");
                proof {
                    assert(mid.frames@ == old(self).frames_at(old(self).top().ip + 2));
                }
                r
            },
            Some(name) => {
                let value = match self.stack.pop() {
                    Some(v) => v,
                    None => return Step::Fault,
                };
                proof {
                    assert(value == old(self).peek_spec(0));
                    assert(value_live(self.heap, old(self).stack@[old(self).stack@.len() - 1]));
                }
                self.globals.define(name.as_str(), value);
                proof {
                    assert(self.stack@ =~= old(self).popped(1));
                    assert forall|k: Seq<char>| #[trigger] self.globals.view().contains_key(k) implies value_live(self.heap, self.globals.view()[k]) by {
                        if k != name@ {
                            assert(old(self).globals.view().contains_key(k));
                        }
                    }
                    assert forall|i: int| 0 <= i < self.stack@.len() implies value_live(self.heap, #[trigger] self.stack@[i]) by {
                        assert(value_live(self.heap, old(self).stack@[i]));
                    }
                    assert(self.frames@ == old(self).frames_at(old(self).top().ip + 2));
                    assert(self.globals.view() == old(self).globals.view().insert(name@, old(self).peek_spec(0)));
                    assert(self.heap == old(self).heap);
                    assert(self.strings == old(self).strings);
                    assert(string_value(old(self).heap, old(self).constant_operand()) == Some(name@));
                }
                Step::Continue
            },
        }
    }

    /// Stores the top value, which stays, in the global that the operand names; an unbound name is an error.
    pub open spec fn set_global_effect(&self, after: &VM, out: &Step) -> bool {
        let frames = self.frames_at(self.top().ip + 2);
        if !self.has_constant_operand() {
            *out is Fault && *after == *self
        } else {
            match string_value(self.heap, self.constant_operand()) {
                None => reports_error(self, frames, after, out, "Invalid variable name."@),
                Some(name) => if self.stack@.len() == 0 {
                    *out is Fault && *after == *self
                } else if self.globals.view().contains_key(name) {
                    &&& *out is Continue
                    &&& after.stack@ == self.stack@
                    &&& after.frames@ == frames
                    &&& after.globals.view() == self.globals.view().insert(name, self.peek_spec(0))
                    &&& after.heap == self.heap
                    &&& after.strings == self.strings
                    &&& after.open_upvalues == self.open_upvalues
                } else {
                    reports_error(self, frames, after, out, undefined_variable(name))
                },
            }
        }
    }

    fn op_set_global(&mut self) -> (res: Step)
        requires
            old(self).wf(),
            old(self).frames@.len() > 0,
            old(self).has(0),
        ensures
            final(self).wf(),
            old(self).set_global_effect(&*final(self), &res),
    {
        let ip = self.fetch_ip();
        let name = match self.name_operand() {
            None => return Step::Fault,
            Some(n) => n,
        };
        if name.is_some() && self.stack.len() == 0 {
            return Step::Fault;
        }
        self.set_ip(ip + 2);
        match name {
            None => {
                let ghost mid = *self;
                let r = self.runtime_error("Invalid variable name.");
                proof {
                    assert(mid.frames@ == old(self).frames_at(old(self).top().ip + 2));
                    assert(reports_error(&*old(self), old(self).frames_at(old(self).top().ip + 2), &*self, &r, "Invalid variable name."@));
                    assert(old(self).set_global_effect(&*self, &r));
                }
                r
            },
            Some(name) => {
                let value = self.stack[self.stack.len() - 1];
                proof {
                    assert(value_live(self.heap, old(self).stack@[old(self).stack@.len() - 1]));
                }
                if self.globals.set(name.as_str(), value) {
                    proof {
                        assert forall|k: Seq<char>| #[trigger] self.globals.view().contains_key(k) implies value_live(self.heap, self.globals.view()[k]) by {
                            if k != name@ {
                                assert(old(self).globals.view().contains_key(k));
                            }
                        }
                        assert(value == old(self).peek_spec(0));
                        assert(string_value(old(self).heap, old(self).constant_operand()) == Some(name@));
                        assert(old(self).set_global_effect(&*self, &Step::Continue));
                    }
                    Step::Continue
                } else {
                    let message = concat3("Undefined variable '", name.as_str(), "'.");
                    let ghost mid = *self;
                    let r = self.runtime_error(message.as_str());
                    proof {
                        assert(message@ == undefined_variable(name@));
                        assert(mid.frames@ == old(self).frames_at(old(self).top().ip + 2));
                        assert(!old(self).globals.view().contains_key(name@));
                        assert(reports_error(&*old(self), old(self).frames_at(old(self).top().ip + 2), &*self, &r, undefined_variable(name@)));
                        assert(old(self).set_global_effect(&*self, &r));
                    }
                    r
                }
            },
        }
    }
}


impl VM {
    /// The top two values are numbers.
    pub open spec fn two_numbers(&self) -> bool {
        self.stack@.len() >= 2 && self.peek_spec(0) is Number && self.peek_spec(1) is Number
    }

    /// `<` or `>` (when `greater`) on the top two values, which must be
    /// numbers.
    pub open spec fn comparison_effect(&self, after: &VM, out: &Step, greater: bool) -> bool {
        if self.stack@.len() < 2 {
            *out is Fault && *after == *self
        } else if self.two_numbers() {
            let a = self.peek_spec(1)->Number_0;
            let b = self.peek_spec(0)->Number_0;
            let r = if greater { crate::value::spec_num_lt(b, a) } else { crate::value::spec_num_lt(a, b) };
            self.continues(after, out, self.popped(2).push(Value::Bool(r)), self.top().ip + 1)
        } else {
            reports_error(self, self.frames_at(self.top().ip + 1), after, out, "Operands must be numbers."@)
        }
    }

    fn op_compare(&mut self, greater: bool) -> (res: Step)
        requires
            old(self).wf(),
            old(self).frames@.len() > 0,
            old(self).has(0),
        ensures
            final(self).wf(),
            old(self).comparison_effect(&*final(self), &res, greater),
    {
        let ip = self.fetch_ip();
        if self.stack.len() < 2 {
            return Step::Fault;
        }
        let n = self.stack.len();
        let (a, b) = match (self.stack[n - 2], self.stack[n - 1]) {
            (Value::Number(a), Value::Number(b)) => (a, b),
            _ => {
                self.set_ip(ip + 1);
                let ghost mid = *self;
                let r = self.runtime_error("Operands must be numbers.");
                proof {
                    assert(mid.frames@ == old(self).frames_at(old(self).top().ip + 1));
                    assert(reports_error(&*old(self), old(self).frames_at(old(self).top().ip + 1), &*self, &r, "Operands must be numbers."@));
                }
                return r;
            },
        };
        let _ = self.stack.pop();
        let _ = self.stack.pop();
        let r = if greater { crate::value::num_greater(a, b) } else { crate::value::num_less(a, b) };
        self.push_and_move(Value::Bool(r), ip + 1);
        proof {
            assert(self.stack@ =~= old(self).popped(2).push(Value::Bool(r)));
        }
        Step::Continue
    }

    /// `-`, `*` or `/` (`op`) on the top two values, which must be numbers:
    /// the host is asked to compute it; a division by zero is an error.
    pub open spec fn arithmetic_effect(&self, after: &VM, out: &Step, op: crate::vm::ArithOp) -> bool {
        if self.stack@.len() < 2 {
            *out is Fault && *after == *self
        } else if self.two_numbers() {
            let a = self.peek_spec(1)->Number_0;
            let b = self.peek_spec(0)->Number_0;
            if op == ArithOp::Divide && crate::value::spec_is_zero(b) {
                reports_error(self, self.frames_at(self.top().ip + 1), after, out, "Division by zero."@)
            } else {
                &&& *out == Step::Arithmetic { op, a, b }
                &&& self.moved_to(after, self.popped(2), self.top().ip + 1)
            }
        } else {
            reports_error(self, self.frames_at(self.top().ip + 1), after, out, "Operands must be numbers."@)
        }
    }

    fn op_arithmetic(&mut self, op: ArithOp) -> (res: Step)
        requires
            old(self).wf(),
            old(self).frames@.len() > 0,
            old(self).has(0),
            op != ArithOp::Add,
        ensures
            final(self).wf(),
            old(self).arithmetic_effect(&*final(self), &res, op),
    {
        let ip = self.fetch_ip();
        if self.stack.len() < 2 {
            return Step::Fault;
        }
        let n = self.stack.len();
        let (a, b) = match (self.stack[n - 2], self.stack[n - 1]) {
            (Value::Number(a), Value::Number(b)) => (a, b),
            _ => {
                self.set_ip(ip + 1);
                let ghost mid = *self;
                let r = self.runtime_error("Operands must be numbers.");
                proof {
                    assert(mid.frames@ == old(self).frames_at(old(self).top().ip + 1));
                    assert(reports_error(&*old(self), old(self).frames_at(old(self).top().ip + 1), &*self, &r, "Operands must be numbers."@));
                }
                return r;
            },
        };
        self.set_ip(ip + 1);
        if op == ArithOp::Divide && crate::value::num_is_zero(b) {
            let ghost mid = *self;
            let r = self.runtime_error("Division by zero.");
            proof {
                assert(mid.frames@ == old(self).frames_at(old(self).top().ip + 1));
                assert(reports_error(&*old(self), old(self).frames_at(old(self).top().ip + 1), &*self, &r, "Division by zero."@));
            }
            return r;
        }
        let _ = self.stack.pop();
        let _ = self.stack.pop();
        proof {
            assert(self.stack@ =~= old(self).popped(2));
            self.lemma_wf_stack(&*old(self));
        }
        Step::Arithmetic { op, a, b }
    }

    /// `-` on the top value, which must be a number: its sign bit flips.
    pub open spec fn negate_effect(&self, after: &VM, out: &Step) -> bool {
        if self.stack@.len() < 1 {
            *out is Fault && *after == *self
        } else if self.peek_spec(0) is Number {
            self.continues(after, out, self.popped(1).push(Value::Number(self.peek_spec(0)->Number_0 ^ crate::value::SIGN_BIT)), self.top().ip + 1)
        } else {
            reports_error(self, self.frames_at(self.top().ip + 1), after, out, "Operand must be a number."@)
        }
    }

    fn op_negate(&mut self) -> (res: Step)
        requires
            old(self).wf(),
            old(self).frames@.len() > 0,
            old(self).has(0),
        ensures
            final(self).wf(),
            old(self).negate_effect(&*final(self), &res),
    {
        let ip = self.fetch_ip();
        if self.stack.len() < 1 {
            return Step::Fault;
        }
        let v = match self.stack[self.stack.len() - 1] {
            Value::Number(v) => v,
            _ => {
                self.set_ip(ip + 1);
                let ghost mid = *self;
                let r = self.runtime_error("Operand must be a number.");
                proof {
                    assert(mid.frames@ == old(self).frames_at(old(self).top().ip + 1));
                    assert(reports_error(&*old(self), old(self).frames_at(old(self).top().ip + 1), &*self, &r, "Operand must be a number."@));
                }
                return r;
            },
        };
        let _ = self.stack.pop();
        self.push_and_move(Value::Number(crate::value::num_negate(v)), ip + 1);
        proof {
            assert(self.stack@ =~= old(self).popped(1).push(Value::Number(v ^ crate::value::SIGN_BIT)));
        }
        Step::Continue
    }

    /// `+` on the top two values: two strings concatenate into the interned
    /// string of their texts (made and interned if new); two numbers are
    /// added by the host.
    pub open spec fn add_effect(&self, after: &VM, out: &Step) -> bool {
        if self.stack@.len() < 2 {
            *out is Fault && *after == *self
        } else if string_value(self.heap, self.peek_spec(0)) is Some && string_value(self.heap, self.peek_spec(1)) is Some {
            let text = string_value(self.heap, self.peek_spec(1))->Some_0 + string_value(self.heap, self.peek_spec(0))->Some_0;
            &&& *out is Continue
            &&& after.frames@ == self.frames_at(self.top().ip + 1)
            &&& after.globals == self.globals
            &&& after.open_upvalues == self.open_upvalues
            &&& after.strings.view().contains_key(text)
            &&& after.stack@ == self.popped(2).push(Value::Obj(after.strings.view()[text]))
            &&& if self.strings.view().contains_key(text) {
                after.strings.view() == self.strings.view() && after.heap == self.heap
                    && after.strings.view()[text] == self.strings.view()[text]
            } else {
                &&& after.strings.view() == self.strings.view().insert(text, self.heap.next_slot())
                &&& heap_grows(self.heap, after.heap)
                &&& after.heap.obj(self.heap.next_slot()).obj_type matches ObjType::String(t) && t@ == text
            }
        } else if self.two_numbers() {
            &&& *out == Step::Arithmetic { op: ArithOp::Add, a: self.peek_spec(1)->Number_0, b: self.peek_spec(0)->Number_0 }
            &&& self.moved_to(after, self.popped(2), self.top().ip + 1)
        } else {
            reports_error(self, self.frames_at(self.top().ip + 1), after, out, "Operands must be two numbers or two strings."@)
        }
    }

    fn op_add(&mut self) -> (res: Step)
        requires
            old(self).wf(),
            old(self).frames@.len() > 0,
            old(self).has(0),
        ensures
            final(self).wf(),
            old(self).add_effect(&*final(self), &res),
    {
        let ip = self.fetch_ip();
        if self.stack.len() < 2 {
            return Step::Fault;
        }
        let n = self.stack.len();
        let a = self.stack[n - 2];
        let b = self.stack[n - 1];
        if a.is_obj_string(&self.heap) && b.is_obj_string(&self.heap) {
            let text = concat3(a.as_string(&self.heap).as_str(), b.as_string(&self.heap).as_str(), "");
            proof {
                reveal_strlit("");
                assert(text@ =~= string_value(self.heap, a)->Some_0 + string_value(self.heap, b)->Some_0);
            }
            let _ = self.stack.pop();
            let _ = self.stack.pop();
            let ghost h0 = self.heap;
            let g = self.strings.intern(&mut self.heap, text);
            proof {
                crate::memory::lemma_closed_after_add(h0, self.heap, g);
                crate::memory::lemma_grows_keeps(h0, self.heap);
            self.lemma_roots_kept(h0);
            lemma_open_grow(h0, self.heap, self.open_upvalues@);
            }
            let ghost text_view = text@;
            self.push_and_move(Value::Obj(g), ip + 1);
            proof {
                assert(self.stack@ =~= old(self).popped(2).push(Value::Obj(g)));
                assert(self.strings.view().contains_key(text_view));
                assert(self.strings.view()[text_view] == g);
                if old(self).strings.view().contains_key(text_view) {
                    assert(self.strings.view() =~= old(self).strings.view());
                } else {
                    assert(g == old(self).heap.next_slot());
                }
                assert(old(self).add_effect(&*self, &Step::Continue));
            }
            return Step::Continue;
        }
        match (a, b) {
            (Value::Number(x), Value::Number(y)) => {
                let _ = self.stack.pop();
                let _ = self.stack.pop();
                self.set_ip(ip + 1);
                proof {
                    assert(self.stack@ =~= old(self).popped(2));
                    self.lemma_wf_stack(&*old(self));
                }
                Step::Arithmetic { op: ArithOp::Add, a: x, b: y }
            },
            _ => {
                self.set_ip(ip + 1);
                let ghost mid = *self;
                let r = self.runtime_error("Operands must be two numbers or two strings.");
                proof {
                    assert(mid.frames@ == old(self).frames_at(old(self).top().ip + 1));
                    assert(reports_error(&*old(self), old(self).frames_at(old(self).top().ip + 1), &*self, &r, "Operands must be two numbers or two strings."@));
                }
                r
            },
        }
    }

    /// Pushes the value that the host computed for an `Arithmetic` or
    /// `CallNative` step.
    pub fn resume(&mut self, value: Value)
        requires
            old(self).wf(),
            value_live(old(self).heap, value),
        ensures
            final(self).wf(),
            final(self).stack@ == old(self).stack@.push(value),
            final(self).frames == old(self).frames,
            final(self).heap == old(self).heap,
            final(self).globals == old(self).globals,
            final(self).strings == old(self).strings,
            final(self).open_upvalues == old(self).open_upvalues,
    {
        self.stack.push(value);
    }
}

/// `g` names a live upvalue.
pub open spec fn is_upvalue(heap: Heap, g: Gc) -> bool {
    heap.is_live(g) && heap.obj(g).obj_type is Upvalue
}

/// The upvalue that `g` names.
pub open spec fn upvalue_of(heap: Heap, g: Gc) -> ObjUpvalue {
    heap.obj(g).obj_type->Upvalue_0
}

/// The message for a call with the wrong number of arguments.
pub open spec fn arity_message(arity: nat, argc: nat) -> Seq<char> {
    "Expected "@ + decimal(arity) + " arguments but got "@ + decimal(argc) + "."@
}

impl VM {
    /// The upvalues of the closure being run.
    pub open spec fn frame_upvalues(&self) -> Seq<Gc> {
        closure_of(self.heap, self.top().closure).upvalues@
    }

    /// The code has the operand byte and it names an upvalue of the closure
    /// being run.
    pub open spec fn has_upvalue_operand(&self) -> bool {
        &&& self.has(1)
        &&& (self.operand(1) as int) < self.frame_upvalues().len()
        &&& is_upvalue(self.heap, self.frame_upvalues()[self.operand(1) as int])
    }

    /// The upvalue that the operand byte names.
    pub open spec fn upvalue_operand(&self) -> Gc {
        self.frame_upvalues()[self.operand(1) as int]
    }

    /// The upvalue that the operand byte names, if there is one.
    fn upvalue_slot(&self) -> (res: Option<Gc>)
        requires
            self.wf(),
            self.frames@.len() > 0,
        ensures
            self.has_upvalue_operand() ==> res == Some(self.upvalue_operand()),
            !self.has_upvalue_operand() ==> res is None,
    {
        let slot = match self.code_byte(1) {
            Some(b) => b as usize,
            None => return None,
        };
        let f = self.frames[self.frames.len() - 1];
        proof {
            assert(closure_ok(self.heap, self.frames@[self.frames@.len() - 1].closure));
        }
        let c = self.heap.get(f.closure).as_closure();
        if slot >= c.upvalues.len() {
            return None;
        }
        let g = c.upvalues[slot];
        if !self.heap.is_live_exec(g) {
            return None;
        }
        match &self.heap.get(g).obj_type {
            ObjType::Upvalue(_) => Some(g),
            _ => None,
        }
    }

    /// Pushes the value of the upvalue that the operand byte names: the stack
    /// slot it refers to while open, its own value once closed.
    pub open spec fn get_upvalue_effect(&self, after: &VM, out: &Step) -> bool {
        if !self.has_upvalue_operand() {
            *out is Fault && *after == *self
        } else {
            let u = upvalue_of(self.heap, self.upvalue_operand());
            match u.location {
                Some(loc) => if (loc as int) < self.stack@.len() {
                    self.continues(after, out, self.stack@.push(self.stack@[loc as int]), self.top().ip + 2)
                } else {
                    *out is Fault && *after == *self
                },
                None => match u.closed {
                    Some(v) => self.continues(after, out, self.stack@.push(v), self.top().ip + 2),
                    None => *out is Fault && *after == *self,
                },
            }
        }
    }

    fn op_get_upvalue(&mut self) -> (res: Step)
        requires
            old(self).wf(),
            old(self).frames@.len() > 0,
            old(self).has(0),
        ensures
            final(self).wf(),
            old(self).get_upvalue_effect(&*final(self), &res),
    {
        let ip = self.fetch_ip();
        let g = match self.upvalue_slot() {
            Some(g) => g,
            None => return Step::Fault,
        };
        let u = self.heap.get(g).as_upvalue();
        let v = match u.location {
            Some(loc) => {
                if loc >= self.stack.len() {
                    return Step::Fault;
                }
                self.stack[loc]
            },
            None => match u.closed {
                Some(v) => v,
                None => return Step::Fault,
            },
        };
        proof {
            if v is Obj && u.location is None {
                assert(obj_refers_to(self.heap.obj(g), v->Obj_0));
            }
        }
        self.push_and_move(v, ip + 2);
        Step::Continue
    }

    /// Stores the top value, which stays, in the variable of the upvalue that
    /// the operand byte names: the stack slot it refers to while open, the
    /// upvalue itself once closed.
    pub open spec fn set_upvalue_effect(&self, after: &VM, out: &Step) -> bool {
        if !self.has_upvalue_operand() || self.stack@.len() == 0 {
            *out is Fault && *after == *self
        } else {
            let g = self.upvalue_operand();
            let u = upvalue_of(self.heap, g);
            let v = self.peek_spec(0);
            match u.location {
                Some(loc) => if (loc as int) < self.stack@.len() {
                    self.continues(after, out, self.stack@.update(loc as int, v), self.top().ip + 2)
                } else {
                    *out is Fault && *after == *self
                },
                None => {
                    &&& *out is Continue
                    &&& after.stack@ == self.stack@
                    &&& after.frames@ == self.frames_at(self.top().ip + 2)
                    &&& replaced(self.heap, after.heap, g,
                        closed_upvalue(v))
                    &&& after.globals == self.globals
                    &&& after.strings == self.strings
                    &&& after.open_upvalues == self.open_upvalues
                },
            }
        }
    }

    fn op_set_upvalue(&mut self) -> (res: Step)
        requires
            old(self).wf(),
            old(self).frames@.len() > 0,
            old(self).has(0),
        ensures
            final(self).wf(),
            old(self).set_upvalue_effect(&*final(self), &res),
    {
        let ip = self.fetch_ip();
        let g = match self.upvalue_slot() {
            Some(g) => g,
            None => return Step::Fault,
        };
        if self.stack.len() == 0 {
            return Step::Fault;
        }
        let v = self.stack[self.stack.len() - 1];
        let u = self.heap.get(g).as_upvalue();
        let location = u.location;
        match location {
            Some(loc) => {
                if loc >= self.stack.len() {
                    return Step::Fault;
                }
                self.stack.set(loc, v);
                self.set_ip(ip + 2);
                proof {
                    assert forall|i: int| 0 <= i < self.stack@.len() implies value_live(self.heap, #[trigger] self.stack@[i]) by {
                        assert(value_live(old(self).heap, old(self).stack@[i]));
                    }
                }
                Step::Continue
            },
            None => {
                let ghost h0 = self.heap;
                let obj = Obj::new_upvalue(ObjUpvalue { location: None, closed: Some(v) });
                proof {
                    assert(value_live(h0, old(self).stack@[old(self).stack@.len() - 1]));
                }
                let _ = self.heap.replace(g, obj);
                proof {
                    crate::memory::lemma_replace_upvalue(h0, self.heap, g, obj);
                    self.lemma_roots_kept(h0);
                    let o = self.open_upvalues@;
                    assert forall|a: int| 0 <= a < o.len() implies self.heap.is_live(#[trigger] o[a]) && self.heap.obj(o[a]) == h0.obj(o[a]) by {
                        assert(is_upvalue(h0, o[a]) && upvalue_of(h0, o[a]).location is Some);
                        assert(o[a] != g);
                    }
                    lemma_open_same(h0, self.heap, o);
                }
                self.set_ip(ip + 2);
                Step::Continue
            },
        }
    }

    /// Calls the value below the arguments (as many as the operand byte
    /// says): a native function is handed to the host with the arguments,
    /// which leave the stack with the callee; a closure of that arity gets a
    /// new frame whose slots start at the callee; anything else is an error.
    pub open spec fn call_effect(&self, after: &VM, out: &Step) -> bool {
        if !self.has(1) || self.stack@.len() <= self.operand(1) as int {
            *out is Fault && *after == *self
        } else {
            let argc = self.operand(1) as int;
            let n = self.stack@.len() as int;
            let frames = self.frames_at(self.top().ip + 2);
            let callee = self.peek_spec(argc);
            if callee matches Value::Obj(g) && self.heap.is_live(g) && self.heap.obj(g).obj_type is Native {
                &&& out matches Step::CallNative { function, args } && function == self.heap.obj(callee->Obj_0).obj_type->Native_0
                    && args@ == self.stack@.subrange(n - argc, n)
                &&& self.moved_to(after, self.popped(argc + 1), self.top().ip + 2)
            } else if callee matches Value::Obj(g) && self.heap.is_live(g) && self.heap.obj(g).obj_type is Closure {
                let g = callee->Obj_0;
                if !closure_ok(self.heap, g) {
                    *out is Fault && *after == *self
                } else if function_of(self.heap, g).arity != argc {
                    reports_error(self, frames, after, out, arity_message(function_of(self.heap, g).arity as nat, argc as nat))
                } else {
                    &&& *out is Continue
                    &&& after.frames@ == frames.push(CallFrame { closure: g, ip: 0, slot_start: (n - argc - 1) as usize })
                    &&& after.stack@ == self.stack@
                    &&& after.heap == self.heap
                    &&& after.globals == self.globals
                    &&& after.strings == self.strings
                    &&& after.open_upvalues == self.open_upvalues
                }
            } else {
                reports_error(self, frames, after, out, "Can only call functions."@)
            }
        }
    }

    fn op_call(&mut self) -> (res: Step)
        requires
            old(self).wf(),
            old(self).frames@.len() > 0,
            old(self).has(0),
        ensures
            final(self).wf(),
            old(self).call_effect(&*final(self), &res),
    {
        let ip = self.fetch_ip();
        let argc = match self.code_byte(1) {
            Some(b) => b as usize,
            None => return Step::Fault,
        };
        let n = self.stack.len();
        if n <= argc {
            return Step::Fault;
        }
        let callee = self.stack[n - 1 - argc];
        let mut native: Option<NativeFunction> = None;
        let mut arity: Option<usize> = None;
        let mut target = Gc { index: 0 };
        if let Value::Obj(g) = callee {
            if self.heap.is_live_exec(g) {
                match &self.heap.get(g).obj_type {
                    ObjType::Native(f) => {
                        native = Some(*f);
                    },
                    ObjType::Closure(c) => {
                        let fg = c.function;
                        if !self.heap.is_live_exec(fg) {
                            return Step::Fault;
                        }
                        match &self.heap.get(fg).obj_type {
                            ObjType::Function(f) => {
                                arity = Some(f.arity);
                                target = g;
                            },
                            _ => return Step::Fault,
                        }
                    },
                    _ => {},
                }
            }
        }
        self.set_ip(ip + 2);
        if let Some(f) = native {
            let args = self.stack.split_off(n - argc);
            let _ = self.stack.pop();
            proof {
                assert(self.stack@ =~= old(self).popped(argc as int + 1));
                self.lemma_wf_stack(&*old(self));
            }
            return Step::CallNative { function: f, args };
        }
        match arity {
            Some(a) => {
                if a != argc {
                    let left = concat3("Expected ", usize_to_string(a).as_str(), " arguments but got ");
                    let message = concat3(left.as_str(), usize_to_string(argc).as_str(), ".");
                    let ghost mid = *self;
                    let r = self.runtime_error(message.as_str());
                    proof {
                        assert(message@ == arity_message(a as nat, argc as nat));
                        assert(mid.frames@ == old(self).frames_at(old(self).top().ip + 2));
                    }
                    return r;
                }
                self.frames.push(CallFrame { closure: target, ip: 0, slot_start: n - argc - 1 });
                proof {
                    assert forall|i: int| 0 <= i < self.frames@.len() implies closure_ok(self.heap, #[trigger] self.frames@[i].closure) by {
                        if i < self.frames@.len() - 1 {
                            assert(closure_ok(old(self).heap, old(self).frames@[i].closure));
                        }
                    }
                }
                Step::Continue
            },
            None => {
                let ghost mid = *self;
                let r = self.runtime_error("Can only call functions.");
                proof {
                    assert(mid.frames@ == old(self).frames_at(old(self).top().ip + 2));
                }
                r
            },
        }
    }
}

/// The slot of the open upvalue that `g` names.
pub open spec fn slot_of(heap: Heap, g: Gc) -> int {
    upvalue_of(heap, g).location->Some_0 as int
}

/// The open upvalues are live open upvalues in strictly ascending slot
/// order.
pub open spec fn open_ok(heap: Heap, open: Seq<Gc>) -> bool {
    &&& forall|i: int| 0 <= i < open.len() ==> is_upvalue(heap, #[trigger] open[i]) && upvalue_of(heap, open[i]).location is Some
    &&& forall|i: int, j: int| 0 <= i < j < open.len() ==> slot_of(heap, #[trigger] open[i]) < slot_of(heap, #[trigger] open[j])
}

/// The upvalue object that is closed over `v`.
pub open spec fn closed_upvalue(v: Value) -> Obj {
    Obj { obj_type: ObjType::Upvalue(ObjUpvalue { location: None, closed: Some(v) }) }
}

/// Closing the upvalues at slot `last` and above fails: the highest open
/// upvalue is at `last` or above but past the end of a stack `stack_len`
/// values long.
pub open spec fn close_fails(heap: Heap, open: Seq<Gc>, stack_len: int, last: int) -> bool {
    &&& open.len() > 0
    &&& slot_of(heap, open.last()) >= last
    &&& slot_of(heap, open.last()) >= stack_len
}

/// The first `k` open upvalues are below slot `last`, the others at `last`
/// or above; those others were closed over their values in `stack` and
/// left the list; nothing else changed.
pub open spec fn closes_at(heap: Heap, open: Seq<Gc>, after_heap: Heap, after_open: Seq<Gc>, stack: Seq<Value>, last: int, k: int) -> bool {
    &&& 0 <= k <= open.len()
    &&& forall|j: int| 0 <= j < k ==> slot_of(heap, #[trigger] open[j]) < last
    &&& forall|j: int| k <= j < open.len() ==> slot_of(heap, #[trigger] open[j]) >= last
    &&& forall|j: int| k <= j < open.len() ==> after_heap.obj(#[trigger] open[j]) == closed_upvalue(stack[slot_of(heap, open[j])])
    &&& after_open == open.take(k)
    &&& forall|x: Gc| #[trigger] after_heap.is_live(x) == heap.is_live(x)
    &&& forall|x: Gc| heap.is_live(x) && !open.subrange(k, open.len() as int).contains(x) ==> #[trigger] after_heap.obj(x) == heap.obj(x)
    &&& heap_keeps(heap, after_heap)
}

/// Closing the open upvalues at slot `last` and above over the values of
/// `stack` turns (`heap`, `open`) into (`after_heap`, `after_open`).
pub open spec fn closes(heap: Heap, open: Seq<Gc>, after_heap: Heap, after_open: Seq<Gc>, stack: Seq<Value>, last: int) -> bool {
    exists|k: int| #[trigger] closes_at(heap, open, after_heap, after_open, stack, last, k)
}

/// Growing the heap keeps the open upvalues in order.
proof fn lemma_open_grow(h0: Heap, h1: Heap, open: Seq<Gc>)
    requires
        open_ok(h0, open),
        heap_grows(h0, h1),
    ensures
        open_ok(h1, open),
{
    assert forall|i: int| 0 <= i < open.len() implies h1.is_live(#[trigger] open[i]) && h1.obj(open[i]) == h0.obj(open[i]) by {
        assert(h0.is_live(open[i]));
    }
    assert forall|i: int, j: int| 0 <= i < j < open.len() implies slot_of(h1, #[trigger] open[i]) < slot_of(h1, #[trigger] open[j]) by {
        assert(h0.is_live(open[i]) && h0.is_live(open[j]));
    }
}

/// Open upvalues whose objects did not change stay in order.
proof fn lemma_open_same(h0: Heap, h1: Heap, open: Seq<Gc>)
    requires
        open_ok(h0, open),
        forall|i: int| 0 <= i < open.len() ==> h1.is_live(#[trigger] open[i]) && h1.obj(open[i]) == h0.obj(open[i]),
    ensures
        open_ok(h1, open),
{
    assert forall|i: int, j: int| 0 <= i < j < open.len() implies slot_of(h1, #[trigger] open[i]) < slot_of(h1, #[trigger] open[j]) by {
        assert(h1.obj(open[i]) == h0.obj(open[i]));
        assert(h1.obj(open[j]) == h0.obj(open[j]));
    }
}

impl VM {
    /// The slot of open upvalue `i`.
    fn open_slot(&self, i: usize) -> (res: usize)
        requires
            self.wf(),
            i < self.open_upvalues@.len(),
        ensures
            res == slot_of(self.heap, self.open_upvalues@[i as int]),
    {
        let g = self.open_upvalues[i];
        match self.heap.get(g).as_upvalue().location {
            Some(l) => l,
            None => vstd::pervasive::unreached(),
        }
    }

    /// The open upvalue for stack slot `slot`: the open one of that slot if
    /// there is one, else a new one, placed in the list by its slot.
    fn capture_upvalue(&mut self, slot: usize) -> (res: Gc)
        requires
            old(self).wf(),
        ensures
            final(self).wf(),
            final(self).stack == old(self).stack,
            final(self).frames == old(self).frames,
            final(self).globals == old(self).globals,
            final(self).strings == old(self).strings,
            heap_grows(old(self).heap, final(self).heap),
            forall|x: Gc| #[trigger] final(self).heap.is_live(x) ==> old(self).heap.is_live(x) || x == res,
            is_upvalue(final(self).heap, res),
            upvalue_of(final(self).heap, res).location == Some(slot),
            (exists|i: int| 0 <= i < old(self).open_upvalues@.len() && slot_of(old(self).heap, #[trigger] old(self).open_upvalues@[i])
                == slot) ==> old(self).open_upvalues@.contains(res),
            old(self).open_upvalues@.contains(res) ==> *final(self) == *old(self),
            !old(self).open_upvalues@.contains(res) ==> {
                &&& !old(self).heap.is_live(res)
                &&& exists|i: int| 0 <= i <= old(self).open_upvalues@.len() && final(self).open_upvalues@
                    == old(self).open_upvalues@.insert(i, res)
            },
    {
        let n = self.open_upvalues.len();
        let mut i: usize = n;
        loop
            invariant
                self.wf(),
                *self == *old(self),
                n == self.open_upvalues@.len(),
                i <= n,
                forall|j: int| i <= j < n ==> slot_of(self.heap, #[trigger] self.open_upvalues@[j]) > slot,
            ensures
                i <= n,
                forall|j: int| i <= j < n ==> slot_of(self.heap, #[trigger] self.open_upvalues@[j]) > slot,
                i == 0 || slot_of(self.heap, self.open_upvalues@[i - 1]) <= slot,
            decreases i,
        {
            if i == 0 {
                break;
            }
            if self.open_slot(i - 1) <= slot {
                break;
            }
            i = i - 1;
        }
        let ghost open = self.open_upvalues@;
        if i > 0 && self.open_slot(i - 1) == slot {
            let g = self.open_upvalues[i - 1];
            proof {
                assert(open[i - 1] == g);
            }
            return g;
        }
        proof {
            assert forall|j: int| 0 <= j < n implies slot_of(self.heap, #[trigger] open[j]) != slot by {
                if j < i - 1 {
                    assert(slot_of(self.heap, open[j]) < slot_of(self.heap, open[i - 1]));
                }
            }
        }
        let ghost h0 = self.heap;
        let created = self.new_managed_obj(Obj::new_upvalue(ObjUpvalue { location: Some(slot), closed: None }));
        proof {
            crate::memory::lemma_closed_after_add(h0, self.heap, created);
            crate::memory::lemma_grows_keeps(h0, self.heap);
            self.lemma_roots_kept(h0);
            lemma_open_grow(h0, self.heap, self.open_upvalues@);
            lemma_open_grow(h0, self.heap, open);
            assert(!open.contains(created)) by {
                if open.contains(created) {
                    let j = choose|j: int| 0 <= j < open.len() && open[j] == created;
                    assert(h0.is_live(open[j]));
                }
            }
        }
        self.open_upvalues.insert(i, created);
        proof {
            let h = self.heap;
            let o = self.open_upvalues@;
            assert(o == open.insert(i as int, created));
            assert forall|a: int| 0 <= a < o.len() implies is_upvalue(h, #[trigger] o[a]) && upvalue_of(h, o[a]).location is Some by {
                if a < i {
                    assert(o[a] == open[a]);
                } else if a > i {
                    assert(o[a] == open[a - 1]);
                }
            }
            assert forall|a: int, b: int| 0 <= a < b < o.len() implies slot_of(h, #[trigger] o[a]) < slot_of(h, #[trigger] o[b]) by {
                if a < i {
                    assert(o[a] == open[a]);
                    if a < i - 1 {
                        assert(slot_of(h, open[a]) < slot_of(h, open[i - 1]));
                    }
                }
                if b > i {
                    assert(o[b] == open[b - 1]);
                }
                if a > i {
                    assert(o[a] == open[a - 1]);
                }
            }
        }
        created
    }

    /// Closes every open upvalue at slot `last` or above, from the highest
    /// down: each takes the value in its slot and leaves the list. `false`,
    /// with nothing changed, where the highest such upvalue lies past the
    /// stack.
    fn close_upvalues(&mut self, last: usize) -> (ok: bool)
        requires
            old(self).wf(),
        ensures
            final(self).wf(),
            final(self).stack == old(self).stack,
            final(self).frames == old(self).frames,
            final(self).globals == old(self).globals,
            final(self).strings == old(self).strings,
            ok == !close_fails(old(self).heap, old(self).open_upvalues@, old(self).stack@.len() as int, last as int),
            !ok ==> *final(self) == *old(self),
            ok ==> closes(old(self).heap, old(self).open_upvalues@, final(self).heap, final(self).open_upvalues@,
                old(self).stack@, last as int),
    {
        let n = self.open_upvalues.len();
        if n > 0 {
            let top = self.open_slot(n - 1);
            if top >= last && top >= self.stack.len() {
                return false;
            }
        }
        let ghost h0 = self.heap;
        let ghost open0 = self.open_upvalues@;
        proof {
            assert forall|j: int| 0 <= j < n && slot_of(h0, #[trigger] open0[j]) >= last implies slot_of(h0, open0[j]) < self.stack@.len() by {
                if j < n - 1 {
                    assert(slot_of(h0, open0[j]) < slot_of(h0, open0[n - 1]));
                }
            }
            assert(open0.subrange(n as int, n as int) =~= Seq::<Gc>::empty());
        }
        loop
            invariant
                self.wf(),
                self.stack == old(self).stack,
                self.frames == old(self).frames,
                self.globals == old(self).globals,
                self.strings == old(self).strings,
                h0 == old(self).heap,
                open0 == old(self).open_upvalues@,
                open_ok(h0, open0),
                n == open0.len(),
                self.open_upvalues@.len() <= n,
                self.open_upvalues@ == open0.take(self.open_upvalues@.len() as int),
                forall|j: int| 0 <= j < n && slot_of(h0, #[trigger] open0[j]) >= last ==> slot_of(h0, open0[j]) < self.stack@.len(),
                forall|j: int| self.open_upvalues@.len() <= j < n ==> slot_of(h0, #[trigger] open0[j]) >= last,
                forall|j: int| self.open_upvalues@.len() <= j < n ==> self.heap.obj(#[trigger] open0[j]) == closed_upvalue(
                    self.stack@[slot_of(h0, open0[j])]),
                forall|x: Gc| #[trigger] self.heap.is_live(x) == h0.is_live(x),
                forall|x: Gc| h0.is_live(x) && !open0.subrange(self.open_upvalues@.len() as int, n as int).contains(x)
                    ==> #[trigger] self.heap.obj(x) == h0.obj(x),
                heap_keeps(h0, self.heap),
            ensures
                self.wf(),
                self.stack == old(self).stack,
                self.frames == old(self).frames,
                self.globals == old(self).globals,
                self.strings == old(self).strings,
                self.open_upvalues@.len() <= n,
                self.open_upvalues@ == open0.take(self.open_upvalues@.len() as int),
                forall|j: int| self.open_upvalues@.len() <= j < n ==> slot_of(h0, #[trigger] open0[j]) >= last,
                forall|j: int| self.open_upvalues@.len() <= j < n ==> self.heap.obj(#[trigger] open0[j]) == closed_upvalue(
                    self.stack@[slot_of(h0, open0[j])]),
                forall|x: Gc| #[trigger] self.heap.is_live(x) == h0.is_live(x),
                forall|x: Gc| h0.is_live(x) && !open0.subrange(self.open_upvalues@.len() as int, n as int).contains(x)
                    ==> #[trigger] self.heap.obj(x) == h0.obj(x),
                heap_keeps(h0, self.heap),
                self.open_upvalues@.len() == 0 || slot_of(h0, open0[self.open_upvalues@.len() - 1]) < last,
            decreases self.open_upvalues@.len(),
        {
            let m = self.open_upvalues.len();
            if m == 0 {
                break;
            }
            let s = self.open_slot(m - 1);
            proof {
                assert(self.open_upvalues@[m - 1] == open0[m - 1]);
                assert(!open0.subrange(m as int, n as int).contains(open0[m - 1])) by {
                    if open0.subrange(m as int, n as int).contains(open0[m - 1]) {
                        let t = choose|t: int| 0 <= t < n - m && open0.subrange(m as int, n as int)[t] == open0[m - 1];
                        assert(open0[m + t] == open0[m - 1]);
                        assert(slot_of(h0, open0[m - 1]) < slot_of(h0, open0[m + t]));
                    }
                }
                assert(self.heap.obj(open0[m - 1]) == h0.obj(open0[m - 1]));
            }
            if s < last {
                break;
            }
            let g = self.open_upvalues[m - 1];
            let v = self.stack[s];
            let ghost h1 = self.heap;
            let obj = Obj::new_upvalue(ObjUpvalue { location: None, closed: Some(v) });
            proof {
                assert(value_live(h1, self.stack@[s as int]));
            }
            let _ = self.heap.replace(g, obj);
            let _ = self.open_upvalues.pop();
            proof {
                crate::memory::lemma_replace_upvalue(h1, self.heap, g, obj);
                self.lemma_roots_kept(h1);
                crate::memory::lemma_keeps_trans(h0, h1, self.heap);
                let o = self.open_upvalues@;
                assert(o =~= open0.take(m - 1));
                assert forall|a: int| 0 <= a < o.len() implies self.heap.obj(#[trigger] o[a]) == h1.obj(o[a]) by {
                    assert(o[a] == open0[a]);
                    assert(slot_of(h1, o[a]) < slot_of(h1, open0[m - 1]));
                }
                assert forall|a: int, b: int| 0 <= a < b < o.len() implies slot_of(self.heap, #[trigger] o[a]) < slot_of(self.heap, #[trigger] o[b]) by {
                    assert(self.heap.obj(o[a]) == h1.obj(o[a]));
                    assert(self.heap.obj(o[b]) == h1.obj(o[b]));
                    assert(o[a] == open0[a] && o[b] == open0[b]);
                }
                assert forall|j: int| m - 1 <= j < n implies self.heap.obj(#[trigger] open0[j]) == closed_upvalue(
                    self.stack@[slot_of(h0, open0[j])]) by {
                    if j > m - 1 {
                        assert(open0[j] != g) by {
                            assert(slot_of(h0, open0[m - 1]) < slot_of(h0, open0[j]));
                        }
                    }
                }
                assert forall|x: Gc| h0.is_live(x) && !open0.subrange(m - 1, n as int).contains(x) implies #[trigger] self.heap.obj(x) == h0.obj(x) by {
                    assert(open0.subrange(m - 1, n as int)[0] == g);
                    if open0.subrange(m as int, n as int).contains(x) {
                        let t = choose|t: int| 0 <= t < n - m && open0.subrange(m as int, n as int)[t] == x;
                        assert(open0.subrange(m - 1, n as int)[t + 1] == x);
                    }
                }
            }
        }
        proof {
            let k = self.open_upvalues@.len() as int;
            assert forall|j: int| 0 <= j < k implies slot_of(h0, #[trigger] open0[j]) < last by {
                if j < k - 1 {
                    assert(slot_of(h0, open0[j]) < slot_of(h0, open0[k - 1]));
                }
            }
            assert(closes_at(h0, open0, self.heap, self.open_upvalues@, old(self).stack@, last as int, k));
        }
        true
    }

    /// The byte at `pos` in the code being run, if the code reaches there.
    fn byte_at(&self, pos: usize) -> (res: Option<u8>)
        requires
            self.wf(),
            self.frames@.len() > 0,
        ensures
            pos < self.code().len() ==> res == Some(self.code()[pos as int]),
            pos >= self.code().len() ==> res is None,
    {
        let _ = self.fetch_ip();
        let code = &self.current_function().chunk.code;
        if pos < code.len() {
            Some(code[pos])
        } else {
            None
        }
    }
}

impl VM {
    /// The closure's `j`th upvalue descriptor (an is-local byte and an index
    /// byte after the constant operand) can be met: a local's slot fits in
    /// a `usize`, and an enclosing upvalue exists.
    pub open spec fn descriptor_ok(&self, j: int) -> bool {
        if self.operand(2 + 2 * j) == 1 {
            self.top().slot_start + self.operand(3 + 2 * j) <= usize::MAX
        } else {
            (self.operand(3 + 2 * j) as int) < self.frame_upvalues().len()
        }
    }

    /// The code holds the `n` upvalue descriptors of a closure instruction,
    /// and each can be met.
    pub open spec fn descriptors_ok(&self, n: int) -> bool {
        &&& self.top().ip + 1 + 2 * n < self.code().len()
        &&& forall|j: int| 0 <= j < n ==> #[trigger] self.descriptor_ok(j)
    }

    /// Upvalue `u` is what the closure's `j`th descriptor asks for: the open
    /// upvalue of the frame's slot `index` for a local, else the enclosing
    /// closure's upvalue `index`.
    pub open spec fn captures(&self, heap: Heap, u: Gc, j: int) -> bool {
        let is_local = self.operand(2 + 2 * j);
        let index = self.operand(3 + 2 * j) as int;
        if is_local == 1 {
            &&& is_upvalue(heap, u)
            &&& upvalue_of(heap, u).location == Some((self.top().slot_start + index) as usize)
        } else {
            u == self.frame_upvalues()[index]
        }
    }

    /// `after` holds a new closure of the function `g` over the `n`
    /// upvalues that the descriptors ask for, pushed on the stack, with the
    /// frame past the descriptors; the heap only grew, by the closure and
    /// new open upvalues, and the open upvalues only grew.
    pub open spec fn closure_made(&self, after: &VM, g: Gc, n: int) -> bool {
        &&& after.stack@.len() == self.stack@.len() + 1
        &&& after.stack@.drop_last() == self.stack@
        &&& after.stack@.last() matches Value::Obj(c) && {
            &&& !self.heap.is_live(c)
            &&& after.heap.is_live(c)
            &&& after.heap.obj(c).obj_type matches ObjType::Closure(cl) && {
                &&& cl.function == g
                &&& cl.upvalues@.len() == n
                &&& forall|j: int| 0 <= j < n ==> self.captures(after.heap, #[trigger] cl.upvalues@[j], j)
            }
            &&& forall|x: Gc| #[trigger] after.heap.is_live(x) && !self.heap.is_live(x) ==> x == c || after.open_upvalues@.contains(x)
        }
        &&& after.frames@ == self.frames_at(self.top().ip + 2 + 2 * n)
        &&& heap_grows(self.heap, after.heap)
        &&& forall|x: Gc| #[trigger] self.open_upvalues@.contains(x) ==> after.open_upvalues@.contains(x)
        &&& after.globals == self.globals
        &&& after.strings == self.strings
    }

    /// Makes a closure of the function constant that the operand byte names,
    /// capturing the upvalues that the descriptors after it ask for.
    pub open spec fn closure_effect(&self, after: &VM, out: &Step) -> bool {
        if !self.has_constant_operand() {
            *out is Fault && *after == *self
        } else {
            let k = self.constant_operand();
            if !(k is Obj && self.heap.is_live(k->Obj_0) && self.heap.obj(k->Obj_0).obj_type is Function) {
                reports_error(self, self.frames_at(self.top().ip + 2), after, out, "Expected function for closure."@)
            } else {
                let n = self.heap.obj(k->Obj_0).obj_type->Function_0.upvalue_count as int;
                if !self.descriptors_ok(n) {
                    *out is Fault && *after == *self
                } else {
                    *out is Continue && self.closure_made(after, k->Obj_0, n)
                }
            }
        }
    }

    fn op_closure(&mut self) -> (res: Step)
        requires
            old(self).wf(),
            old(self).frames@.len() > 0,
            old(self).has(0),
        ensures
            final(self).wf(),
            old(self).closure_effect(&*final(self), &res),
    {
        let ip = self.fetch_ip();
        let index = match self.code_byte(1) {
            Some(b) => b as usize,
            None => return Step::Fault,
        };
        let constants = &self.current_function().chunk.constants.values;
        if index >= constants.len() {
            return Step::Fault;
        }
        let k = constants[index];
        let mut count: usize = 0;
        let mut function = Gc { index: 0 };
        let mut is_function = false;
        if let Value::Obj(g) = k {
            if self.heap.is_live_exec(g) {
                if let ObjType::Function(f) = &self.heap.get(g).obj_type {
                    count = f.upvalue_count;
                    function = g;
                    is_function = true;
                }
            }
        }
        if !is_function {
            self.set_ip(ip + 2);
            let ghost mid = *self;
            let r = self.runtime_error("Expected function for closure.");
            proof {
                assert(mid.frames@ == old(self).frames_at(old(self).top().ip + 2));
            }
            return r;
        }
        let f = self.frames[self.frames.len() - 1];
        proof {
            assert(closure_ok(self.heap, self.frames@[self.frames@.len() - 1].closure));
        }
        let enclosing = self.heap.get(f.closure).as_closure().upvalues.len();
        let code_len = self.current_function().chunk.code.len();
        if count > (code_len - ip - 2) / 2 {
            return Step::Fault;
        }
        let mut j: usize = 0;
        while j < count
            invariant
                *self == *old(self),
                old(self).wf(),
                old(self).frames@.len() > 0,
                f == old(self).top(),
                ip == old(self).top().ip,
                code_len == old(self).code().len(),
                enclosing == old(self).frame_upvalues().len(),
                ip + 2 + 2 * count <= code_len,
                j <= count,
                old(self).has_constant_operand(),
                old(self).constant_operand() == Value::Obj(function),
                old(self).heap.is_live(function),
                old(self).heap.obj(function).obj_type is Function,
                count == old(self).heap.obj(function).obj_type->Function_0.upvalue_count,
                forall|t: int| 0 <= t < j ==> #[trigger] old(self).descriptor_ok(t),
            decreases count - j,
        {
            let is_local = match self.byte_at(ip + 2 + 2 * j) {
                Some(b) => b,
                None => return Step::Fault,
            };
            let slot = match self.byte_at(ip + 3 + 2 * j) {
                Some(b) => b as usize,
                None => return Step::Fault,
            };
            proof {
                assert(is_local == old(self).operand(2 + 2 * j));
                assert(slot == old(self).operand(3 + 2 * j));
            }
            if is_local == 1 {
                if f.slot_start > usize::MAX - slot {
                    proof {
                        assert(!old(self).descriptor_ok(j as int));
                    }
                    return Step::Fault;
                }
            } else if slot >= enclosing {
                proof {
                    assert(!old(self).descriptor_ok(j as int));
                }
                return Step::Fault;
            }
            j = j + 1;
        }
        let mut upvalues: Vec<Gc> = Vec::new();
        let mut i: usize = 0;
        while i < count
            invariant
                self.wf(),
                old(self).wf(),
                old(self).frames@.len() > 0,
                f == old(self).top(),
                0 <= i <= count,
                upvalues@.len() == i,
                self.stack == old(self).stack,
                self.frames == old(self).frames,
                self.globals == old(self).globals,
                self.strings == old(self).strings,
                heap_grows(old(self).heap, self.heap),
                forall|x: Gc| #[trigger] old(self).open_upvalues@.contains(x) ==> self.open_upvalues@.contains(x),
                forall|x: Gc| #[trigger] self.heap.is_live(x) && !old(self).heap.is_live(x) ==> self.open_upvalues@.contains(x),
                ip == old(self).top().ip,
                old(self).code() == self.code(),
                old(self).frame_upvalues() == self.frame_upvalues(),
                closure_ok(self.heap, f.closure),
                forall|j: int| 0 <= j < i ==> self.heap.is_live(#[trigger] upvalues@[j]),
                forall|j: int| 0 <= j < i ==> old(self).captures(self.heap, #[trigger] upvalues@[j], j),
                ip + 2 + 2 * count <= self.code().len(),
                self.code().len() <= usize::MAX,
                old(self).has_constant_operand(),
                old(self).constant_operand() == Value::Obj(function),
                old(self).heap.is_live(function),
                old(self).heap.obj(function).obj_type is Function,
                count == old(self).heap.obj(function).obj_type->Function_0.upvalue_count,
                old(self).descriptors_ok(count as int),
            decreases count - i,
        {
            let is_local = match self.byte_at(ip + 2 + 2 * i) {
                Some(b) => b,
                None => return Step::Fault,
            };
            let slot = match self.byte_at(ip + 3 + 2 * i) {
                Some(b) => b as usize,
                None => return Step::Fault,
            };
            proof {
                assert(old(self).descriptor_ok(i as int));
            }
            let ghost h0 = self.heap;
            let ghost open0 = self.open_upvalues@;
            if is_local == 1 {
                let u = self.capture_upvalue(f.slot_start + slot);
                upvalues.push(u);
                proof {
                    assert forall|x: Gc| #[trigger] old(self).open_upvalues@.contains(x) implies self.open_upvalues@.contains(x) by {
                        assert(open0.contains(x));
                        if !open0.contains(u) {
                            let t = choose|t: int| 0 <= t < open0.len() && open0[t] == x;
                            let p = choose|p: int| 0 <= p <= open0.len() && self.open_upvalues@ == open0.insert(p, u);
                            if t < p {
                                assert(self.open_upvalues@[t] == x);
                            } else {
                                assert(self.open_upvalues@[t + 1] == x);
                            }
                        }
                    }
                    assert forall|x: Gc| #[trigger] self.heap.is_live(x) && !old(self).heap.is_live(x) implies self.open_upvalues@.contains(x) by {
                        if x == u && !open0.contains(u) {
                            let p = choose|p: int| 0 <= p <= open0.len() && self.open_upvalues@ == open0.insert(p, u);
                            assert(self.open_upvalues@[p] == u);
                        } else if x != u {
                            assert(h0.is_live(x));
                            assert(open0.contains(x));
                            if !open0.contains(u) {
                                let t = choose|t: int| 0 <= t < open0.len() && open0[t] == x;
                                let p = choose|p: int| 0 <= p <= open0.len() && self.open_upvalues@ == open0.insert(p, u);
                                if t < p {
                                    assert(self.open_upvalues@[t] == x);
                                } else {
                                    assert(self.open_upvalues@[t + 1] == x);
                                }
                            }
                        }
                    }
                    crate::memory::lemma_grows_trans(old(self).heap, h0, self.heap);
                    assert forall|j: int| 0 <= j < i + 1 implies old(self).captures(self.heap, #[trigger] upvalues@[j], j) by {
                        if j < i {
                            assert(old(self).captures(h0, upvalues@[j], j));
                            assert(h0.is_live(upvalues@[j]));
                        }
                    }
                }
            } else {
                let c = self.heap.get(f.closure).as_closure();
                let u = c.upvalues[slot];
                proof {
                    assert(obj_refers_to(self.heap.obj(f.closure), u));
                }
                upvalues.push(u);
            }
            i = i + 1;
        }
        proof {
            assert forall|y: Gc| obj_refers_to(Obj { obj_type: ObjType::Closure(ObjClosure { function, upvalues }) }, y) implies self.heap.is_live(y) by {
                if upvalues@.contains(y) {
                    let j = choose|j: int| 0 <= j < upvalues@.len() && upvalues@[j] == y;
                    assert(self.heap.is_live(upvalues@[j]));
                }
            }
        }
        let ghost h2 = self.heap;
        let c = self.new_managed_obj(Obj::new_closure(ObjClosure { function, upvalues }));
        proof {
            crate::memory::lemma_closed_after_add(h2, self.heap, c);
            crate::memory::lemma_grows_keeps(h2, self.heap);
            self.lemma_roots_kept(h2);
            lemma_open_grow(h2, self.heap, self.open_upvalues@);
        }
        self.push_and_move(Value::Obj(c), ip + 2 + 2 * count);
        proof {
            let h3 = self.heap;
            crate::memory::lemma_grows_trans(old(self).heap, h2, h3);
            assert(self.stack@.drop_last() =~= old(self).stack@);
            assert(!old(self).heap.is_live(c));
            let cl = h3.obj(c).obj_type->Closure_0;
            assert forall|j: int| 0 <= j < count implies old(self).captures(h3, #[trigger] cl.upvalues@[j], j) by {
                assert(old(self).captures(h2, upvalues@[j], j));
                assert(h2.is_live(upvalues@[j]));
            }
            assert forall|x: Gc| #[trigger] h3.is_live(x) && !old(self).heap.is_live(x) implies x == c || self.open_upvalues@.contains(x) by {
                if x != c {
                    assert(h2.is_live(x));
                }
            }
            assert(old(self).closure_made(&*self, function, count as int));
        }
        Step::Continue
    }
}

impl VM {
    /// Closes the open upvalues at the top slot and above, then pops the top
    /// value.
    pub open spec fn close_upvalue_effect(&self, after: &VM, out: &Step) -> bool {
        let n = self.stack@.len() as int;
        if n == 0 || close_fails(self.heap, self.open_upvalues@, n, n - 1) {
            *out is Fault && *after == *self
        } else {
            &&& *out is Continue
            &&& closes(self.heap, self.open_upvalues@, after.heap, after.open_upvalues@, self.stack@, n - 1)
            &&& after.stack@ == self.popped(1)
            &&& after.frames@ == self.frames_at(self.top().ip + 1)
            &&& after.globals == self.globals
            &&& after.strings == self.strings
        }
    }

    fn op_close_upvalue(&mut self) -> (res: Step)
        requires
            old(self).wf(),
            old(self).frames@.len() > 0,
            old(self).has(0),
        ensures
            final(self).wf(),
            old(self).close_upvalue_effect(&*final(self), &res),
    {
        let ip = self.fetch_ip();
        if self.stack.len() == 0 {
            return Step::Fault;
        }
        if !self.close_upvalues(self.stack.len() - 1) {
            return Step::Fault;
        }
        let ghost mid = *self;
        let _ = self.stack.pop();
        proof {
            self.lemma_wf_stack(&mid);
        }
        self.set_ip(ip + 1);
        proof {
            assert(self.stack@ =~= old(self).popped(1));
        }
        Step::Continue
    }

    /// Returns from the frame being run with the top value: the frame's open
    /// upvalues are closed and the frame is dropped; the script's return ends
    /// the run (its closure is popped), any other return replaces the
    /// frame's slots by the result.
    pub open spec fn return_effect(&self, after: &VM, out: &Step) -> bool {
        let f = self.top();
        let rest = self.popped(1);
        if self.stack@.len() == 0 || close_fails(self.heap, self.open_upvalues@, rest.len() as int, f.slot_start as int) {
            *out is Fault && *after == *self
        } else {
            let result = self.peek_spec(0);
            &&& closes(self.heap, self.open_upvalues@, after.heap, after.open_upvalues@, rest, f.slot_start as int)
            &&& after.globals == self.globals
            &&& after.strings == self.strings
            &&& if self.frames@.len() == 1 {
                &&& *out is Finished
                &&& after.frames@.len() == 0
                &&& after.stack@ == (if rest.len() > 0 { rest.drop_last() } else { rest })
            } else {
                &&& *out is Continue
                &&& after.frames@ == self.frames@.drop_last()
                &&& after.stack@ == (if f.slot_start < rest.len() { rest.subrange(0, f.slot_start as int) } else { rest }).push(result)
            }
        }
    }

    fn op_return(&mut self) -> (res: Step)
        requires
            old(self).wf(),
            old(self).frames@.len() > 0,
            old(self).has(0),
        ensures
            final(self).wf(),
            old(self).return_effect(&*final(self), &res),
    {
        if self.stack.len() == 0 {
            return Step::Fault;
        }
        let f = self.frames[self.frames.len() - 1];
        let n = self.open_upvalues.len();
        if n > 0 {
            let top = self.open_slot(n - 1);
            if top >= f.slot_start && top >= self.stack.len() - 1 {
                return Step::Fault;
            }
        }
        let result = self.stack.pop().unwrap();
        proof {
            assert(self.stack@ =~= old(self).popped(1));
            assert(value_live(self.heap, old(self).stack@[old(self).stack@.len() - 1]));
            self.lemma_wf_stack(&*old(self));
        }
        let ghost mid = *self;
        let closed = self.close_upvalues(f.slot_start);
        proof {
            assert(closed);
            crate::memory::lemma_keeps_trans(old(self).heap, mid.heap, self.heap);
            assert(value_live(self.heap, result));
        }
        let _ = self.frames.pop();
        proof {
            assert forall|i: int| 0 <= i < self.frames@.len() implies closure_ok(self.heap, #[trigger] self.frames@[i].closure) by {
                assert(mid.frames@[i] == self.frames@[i]);
                assert(closure_ok(mid.heap, mid.frames@[i].closure));
            }
        }
        if self.frames.len() == 0 {
            let _ = self.stack.pop();
            proof {
                if mid.stack@.len() > 0 {
                    assert(self.stack@ =~= mid.stack@.drop_last());
                }
                assert forall|i: int| 0 <= i < self.stack@.len() implies value_live(self.heap, #[trigger] self.stack@[i]) by {
                    assert(self.stack@[i] == mid.stack@[i]);
                }
            }
            return Step::Finished;
        }
        if f.slot_start < self.stack.len() {
            self.stack.truncate(f.slot_start);
        }
        self.stack.push(result);
        proof {
            assert forall|i: int| 0 <= i < self.stack@.len() implies value_live(self.heap, #[trigger] self.stack@[i]) by {
                if i < self.stack@.len() - 1 {
                    assert(self.stack@[i] == mid.stack@[i]);
                }
            }
        }
        Step::Continue
    }
}


impl VM {
    /// What one step does: nothing but a fault where no frame runs or the
    /// frame's code has ended; else what the instruction at the frame's
    /// instruction index does.
    pub open spec fn step_effect(&self, after: &VM, out: &Step) -> bool {
        if self.frames@.len() == 0 || !self.has(0) {
            *out is Fault && *after == *self
        } else {
            let op = self.operand(0);
            let next = self.top().ip + 1;
            if op == OP_CONSTANT {
                self.constant_effect(after, out)
            } else if op == OP_NIL {
                self.continues(after, out, self.stack@.push(Value::Nil), next)
            } else if op == OP_TRUE {
                self.continues(after, out, self.stack@.push(Value::Bool(true)), next)
            } else if op == OP_FALSE {
                self.continues(after, out, self.stack@.push(Value::Bool(false)), next)
            } else if op == OP_POP {
                self.pop_effect(after, out)
            } else if op == OP_GET_LOCAL {
                self.get_local_effect(after, out)
            } else if op == OP_SET_LOCAL {
                self.set_local_effect(after, out)
            } else if op == OP_GET_GLOBAL {
                self.get_global_effect(after, out)
            } else if op == OP_DEFINE_GLOBAL {
                self.define_global_effect(after, out)
            } else if op == OP_SET_GLOBAL {
                self.set_global_effect(after, out)
            } else if op == OP_GET_UPVALUE {
                self.get_upvalue_effect(after, out)
            } else if op == OP_SET_UPVALUE {
                self.set_upvalue_effect(after, out)
            } else if op == OP_EQUAL {
                self.equal_effect(after, out)
            } else if op == OP_GREATER {
                self.comparison_effect(after, out, true)
            } else if op == OP_LESS {
                self.comparison_effect(after, out, false)
            } else if op == OP_ADD {
                self.add_effect(after, out)
            } else if op == OP_SUBTRACT {
                self.arithmetic_effect(after, out, ArithOp::Subtract)
            } else if op == OP_MULTIPLY {
                self.arithmetic_effect(after, out, ArithOp::Multiply)
            } else if op == OP_DIVIDE {
                self.arithmetic_effect(after, out, ArithOp::Divide)
            } else if op == OP_NOT {
                self.not_effect(after, out)
            } else if op == OP_NEGATE {
                self.negate_effect(after, out)
            } else if op == OP_PRINT {
                self.print_effect(after, out)
            } else if op == OP_JUMP {
                self.jump_effect(after, out, false)
            } else if op == OP_JUMP_IF_FALSE {
                self.jump_effect(after, out, true)
            } else if op == OP_LOOP {
                self.loop_effect(after, out)
            } else if op == OP_CALL {
                self.call_effect(after, out)
            } else if op == OP_CLOSURE {
                self.closure_effect(after, out)
            } else if op == OP_CLOSE_UPVALUE {
                self.close_upvalue_effect(after, out)
            } else if op == OP_RETURN {
                self.return_effect(after, out)
            } else {
                &&& *out == Step::UnknownOpcode(op)
                &&& self.moved_to(after, self.stack@, next)
            }
        }
    }

    /// Runs the instruction at the current frame's instruction index and
    /// says what the host must do next.
    pub fn step(&mut self) -> (res: Step)
        requires
            old(self).wf(),
        ensures
            final(self).wf(),
            old(self).step_effect(&*final(self), &res),
    {
        if self.frames.len() == 0 {
            return Step::Fault;
        }
        let op = match self.code_byte(0) {
            Some(b) => b,
            None => return Step::Fault,
        };
        if op == OP_CONSTANT {
            self.op_constant()
        } else if op == OP_NIL {
            self.op_literal(Value::Nil)
        } else if op == OP_TRUE {
            self.op_literal(Value::Bool(true))
        } else if op == OP_FALSE {
            self.op_literal(Value::Bool(false))
        } else if op == OP_POP {
            self.op_pop()
        } else if op == OP_GET_LOCAL {
            self.op_get_local()
        } else if op == OP_SET_LOCAL {
            self.op_set_local()
        } else if op == OP_GET_GLOBAL {
            self.op_get_global()
        } else if op == OP_DEFINE_GLOBAL {
            self.op_define_global()
        } else if op == OP_SET_GLOBAL {
            self.op_set_global()
        } else if op == OP_GET_UPVALUE {
            self.op_get_upvalue()
        } else if op == OP_SET_UPVALUE {
            self.op_set_upvalue()
        } else if op == OP_EQUAL {
            self.op_equal()
        } else if op == OP_GREATER {
            self.op_compare(true)
        } else if op == OP_LESS {
            self.op_compare(false)
        } else if op == OP_ADD {
            self.op_add()
        } else if op == OP_SUBTRACT {
            self.op_arithmetic(ArithOp::Subtract)
        } else if op == OP_MULTIPLY {
            self.op_arithmetic(ArithOp::Multiply)
        } else if op == OP_DIVIDE {
            self.op_arithmetic(ArithOp::Divide)
        } else if op == OP_NOT {
            self.op_not()
        } else if op == OP_NEGATE {
            self.op_negate()
        } else if op == OP_PRINT {
            self.op_print()
        } else if op == OP_JUMP {
            self.op_jump(false)
        } else if op == OP_JUMP_IF_FALSE {
            self.op_jump(true)
        } else if op == OP_LOOP {
            self.op_loop()
        } else if op == OP_CALL {
            self.op_call()
        } else if op == OP_CLOSURE {
            self.op_closure()
        } else if op == OP_CLOSE_UPVALUE {
            self.op_close_upvalue()
        } else if op == OP_RETURN {
            self.op_return()
        } else {
            let ip = self.fetch_ip();
            self.set_ip(ip + 1);
            Step::UnknownOpcode(op)
        }
    }
}

/// `g` is a root of the VM: a value on the stack, a frame's closure, an
/// open upvalue, or a global's value.
pub open spec fn is_root(vm: &VM, g: Gc) -> bool {
    ||| exists|i: int| 0 <= i < vm.stack@.len() && #[trigger] vm.stack@[i] == Value::Obj(g)
    ||| exists|i: int| 0 <= i < vm.frames@.len() && #[trigger] vm.frames@[i].closure == g
    ||| vm.open_upvalues@.contains(g)
    ||| exists|k: Seq<char>| #[trigger] vm.globals.view().contains_key(k) && vm.globals.view()[k] == Value::Obj(g)
}

/// `g` is reached from a root of the VM by following references.
pub open spec fn reachable(vm: &VM, g: Gc) -> bool {
    exists|r: Gc, n: nat| is_root(vm, r) && #[trigger] reaches(vm.heap, r, g, n)
}

impl VM {
    /// `after` is `self` after a collection: the stack, frames, globals and
    /// open upvalues are as they were; every object left was there before,
    /// unchanged, and a root reached it; no mark is left; and the string
    /// table keeps exactly the strings that are left.
    pub open spec fn collected(&self, after: &VM) -> bool {
        &&& after.stack == self.stack
        &&& after.frames == self.frames
        &&& after.globals == self.globals
        &&& after.open_upvalues == self.open_upvalues
        &&& forall|g: Gc| #[trigger] after.heap.is_live(g) ==> self.heap.is_live(g) && after.heap.obj(g) == self.heap.obj(g)
        &&& forall|g: Gc| #[trigger] after.heap.is_live(g) ==> reachable(self, g)
        &&& forall|g: Gc| !(#[trigger] after.heap.is_marked(g))
        &&& forall|k: Seq<char>| #[trigger] after.strings.view().contains_key(k) == (self.strings.view().contains_key(k)
            && after.heap.is_live(self.strings.view()[k]))
        &&& forall|k: Seq<char>| #[trigger] after.strings.view().contains_key(k) ==> after.strings.view()[k] == self.strings.view()[k]
    }

    /// Marks every root, pushing the newly marked ones on the gray stack.
    fn mark_roots(&mut self, gc_gray_stack: &mut Vec<Gc>)
        requires
            old(self).wf(),
            gray_ok(old(self).heap, old(gc_gray_stack)@),
        ensures
            final(self).heap.wf(),
            final(self).stack == old(self).stack,
            final(self).frames == old(self).frames,
            final(self).globals == old(self).globals,
            final(self).strings == old(self).strings,
            final(self).open_upvalues == old(self).open_upvalues,
            gray_ok(final(self).heap, final(gc_gray_stack)@),
            marks_grow(old(self).heap, old(gc_gray_stack)@, final(self).heap, final(gc_gray_stack)@),
            forall|g: Gc| is_root(&*old(self), g) ==> #[trigger] final(self).heap.is_marked(g),
            forall|g: Gc| #[trigger] final(self).heap.is_marked(g) ==> old(self).heap.is_marked(g) || is_root(&*old(self), g),
    {
        proof {
            assert(gc_gray_stack@.subrange(0, gc_gray_stack@.len() as int) =~= gc_gray_stack@);
        }
        let mut i: usize = 0;
        while i < self.stack.len()
            invariant
                self.heap.wf(),
                self.heap.slots() == old(self).heap.slots(),
                self.stack == old(self).stack,
                self.frames == old(self).frames,
                self.globals == old(self).globals,
                self.strings == old(self).strings,
                self.open_upvalues == old(self).open_upvalues,
                old(self).wf(),
                i <= self.stack@.len(),
                gray_ok(self.heap, gc_gray_stack@),
                marks_grow(old(self).heap, old(gc_gray_stack)@, self.heap, gc_gray_stack@),
                forall|j: int| 0 <= j < i ==> (#[trigger] self.stack@[j] matches Value::Obj(g) ==> self.heap.is_marked(g)),
                forall|g: Gc| #[trigger] self.heap.is_marked(g) ==> old(self).heap.is_marked(g) || is_root(&*old(self), g),
            decreases self.stack@.len() - i,
        {
            let ghost h0 = self.heap;
            let ghost g0 = gc_gray_stack@;
            proof {
                assert(value_live(old(self).heap, old(self).stack@[i as int]));
            }
            mark_value(&mut self.heap, &self.stack[i], gc_gray_stack);
            proof {
                assert forall|g: Gc| #[trigger] self.heap.is_marked(g) implies old(self).heap.is_marked(g) || is_root(&*old(self), g) by {
                    if !h0.is_marked(g) {
                        assert(old(self).stack@[i as int] == Value::Obj(g));
                    }
                }
                crate::memory::lemma_marks_grow_trans(old(self).heap, old(gc_gray_stack)@, h0, g0, self.heap, gc_gray_stack@);
                assert forall|j: int| 0 <= j < i + 1 implies (#[trigger] self.stack@[j] matches Value::Obj(g) ==> self.heap.is_marked(g)) by {
                    if j < i && self.stack@[j] is Obj {
                        assert(h0.is_marked(self.stack@[j]->Obj_0));
                    }
                }
            }
            i = i + 1;
        }
        let ghost h1 = self.heap;
        let mut i: usize = 0;
        while i < self.frames.len()
            invariant
                self.heap.wf(),
                self.heap.slots() == old(self).heap.slots(),
                self.stack == old(self).stack,
                self.frames == old(self).frames,
                self.globals == old(self).globals,
                self.strings == old(self).strings,
                self.open_upvalues == old(self).open_upvalues,
                old(self).wf(),
                i <= self.frames@.len(),
                gray_ok(self.heap, gc_gray_stack@),
                marks_grow(old(self).heap, old(gc_gray_stack)@, self.heap, gc_gray_stack@),
                forall|x: Gc| #[trigger] h1.is_marked(x) ==> self.heap.is_marked(x),
                forall|j: int| 0 <= j < i ==> self.heap.is_marked(#[trigger] self.frames@[j].closure),
                forall|g: Gc| #[trigger] self.heap.is_marked(g) ==> old(self).heap.is_marked(g) || is_root(&*old(self), g),
            decreases self.frames@.len() - i,
        {
            let ghost h0 = self.heap;
            let ghost g0 = gc_gray_stack@;
            proof {
                assert(closure_ok(old(self).heap, old(self).frames@[i as int].closure));
            }
            mark_object(&mut self.heap, self.frames[i].closure, gc_gray_stack);
            proof {
                assert forall|g: Gc| #[trigger] self.heap.is_marked(g) implies old(self).heap.is_marked(g) || is_root(&*old(self), g) by {
                    if !h0.is_marked(g) {
                        assert(old(self).frames@[i as int].closure == g);
                    }
                }
                crate::memory::lemma_marks_grow_trans(old(self).heap, old(gc_gray_stack)@, h0, g0, self.heap, gc_gray_stack@);
                assert forall|j: int| 0 <= j < i + 1 implies self.heap.is_marked(#[trigger] self.frames@[j].closure) by {
                    if j < i {
                        assert(h0.is_marked(self.frames@[j].closure));
                    }
                }
            }
            i = i + 1;
        }
        let ghost h2 = self.heap;
        let mut i: usize = 0;
        while i < self.open_upvalues.len()
            invariant
                self.heap.wf(),
                self.heap.slots() == old(self).heap.slots(),
                self.stack == old(self).stack,
                self.frames == old(self).frames,
                self.globals == old(self).globals,
                self.strings == old(self).strings,
                self.open_upvalues == old(self).open_upvalues,
                old(self).wf(),
                i <= self.open_upvalues@.len(),
                gray_ok(self.heap, gc_gray_stack@),
                marks_grow(old(self).heap, old(gc_gray_stack)@, self.heap, gc_gray_stack@),
                forall|x: Gc| #[trigger] h2.is_marked(x) ==> self.heap.is_marked(x),
                forall|j: int| 0 <= j < i ==> self.heap.is_marked(#[trigger] self.open_upvalues@[j]),
                forall|g: Gc| #[trigger] self.heap.is_marked(g) ==> old(self).heap.is_marked(g) || is_root(&*old(self), g),
            decreases self.open_upvalues@.len() - i,
        {
            let ghost h0 = self.heap;
            let ghost g0 = gc_gray_stack@;
            proof {
                assert(is_upvalue(old(self).heap, old(self).open_upvalues@[i as int]));
            }
            mark_object(&mut self.heap, self.open_upvalues[i], gc_gray_stack);
            proof {
                assert forall|g: Gc| #[trigger] self.heap.is_marked(g) implies old(self).heap.is_marked(g) || is_root(&*old(self), g) by {
                    if !h0.is_marked(g) {
                        assert(old(self).open_upvalues@[i as int] == g);
                    }
                }
                crate::memory::lemma_marks_grow_trans(old(self).heap, old(gc_gray_stack)@, h0, g0, self.heap, gc_gray_stack@);
                assert forall|j: int| 0 <= j < i + 1 implies self.heap.is_marked(#[trigger] self.open_upvalues@[j]) by {
                    if j < i {
                        assert(h0.is_marked(self.open_upvalues@[j]));
                    }
                }
            }
            i = i + 1;
        }
        let ghost h3 = self.heap;
        let ghost g3 = gc_gray_stack@;
        mark_global_table(&mut self.heap, &self.globals, gc_gray_stack);
        proof {
            assert forall|g: Gc| #[trigger] self.heap.is_marked(g) implies old(self).heap.is_marked(g) || is_root(&*old(self), g) by {
                if !h3.is_marked(g) {
                    let k = choose|k: Seq<char>| #[trigger] self.globals.view().contains_key(k) && self.globals.view()[k] == Value::Obj(g);
                    assert(old(self).globals.view().contains_key(k));
                }
            }
            crate::memory::lemma_marks_grow_trans(old(self).heap, old(gc_gray_stack)@, h3, g3, self.heap, gc_gray_stack@);
            assert forall|g: Gc| is_root(&*old(self), g) implies #[trigger] self.heap.is_marked(g) by {
                if exists|i: int| 0 <= i < old(self).stack@.len() && #[trigger] old(self).stack@[i] == Value::Obj(g) {
                    let i = choose|i: int| 0 <= i < old(self).stack@.len() && #[trigger] old(self).stack@[i] == Value::Obj(g);
                    assert(h1.is_marked(g));
                    assert(h2.is_marked(g));
                    assert(h3.is_marked(g));
                } else if exists|i: int| 0 <= i < old(self).frames@.len() && #[trigger] old(self).frames@[i].closure == g {
                    let i = choose|i: int| 0 <= i < old(self).frames@.len() && #[trigger] old(self).frames@[i].closure == g;
                    assert(h2.is_marked(self.frames@[i].closure));
                    assert(h3.is_marked(g));
                } else if old(self).open_upvalues@.contains(g) {
                    let j = choose|j: int| 0 <= j < old(self).open_upvalues@.len() && old(self).open_upvalues@[j] == g;
                    assert(h3.is_marked(self.open_upvalues@[j]));
                } else {
                    let k = choose|k: Seq<char>| #[trigger] old(self).globals.view().contains_key(k) && old(self).globals.view()[k] == Value::Obj(g);
                    assert(self.globals.view().contains_key(k));
                }
            }
        }
    }

    /// Frees every object that no root reaches: the roots are marked, the
    /// marks are traced through the heap, unmarked strings leave the string
    /// table, and the unmarked objects are swept.
    pub fn collect_garbage(&mut self)
        requires
            old(self).wf(),
        ensures
            final(self).wf(),
            old(self).collected(&*final(self)),
    {
        self.heap.clear_marks();
        let ghost h0 = self.heap;
        proof {
            crate::memory::lemma_closed_same_slots(old(self).heap, h0);
        }
        let mut gc_gray_stack: Vec<Gc> = Vec::new();
        proof {
            self.lemma_roots_kept(old(self).heap);
        }
        self.mark_roots(&mut gc_gray_stack);
        let ghost h1 = self.heap;
        proof {
            crate::memory::lemma_closed_same_slots(h0, h1);
            assert(black_closed(h1, gc_gray_stack@, None)) by {
                assert forall|a: Gc, b: Gc| #![trigger obj_refers_to(h1.obj(a), b)]
                    h1.is_live(a) && h1.is_marked(a) && !gc_gray_stack@.contains(a) && None::<Gc> != Some(a) && obj_refers_to(h1.obj(a), b)
                    implies h1.is_marked(b) by {
                    assert(!h0.is_marked(a));
                }
            }
        }
        trace_reference(&mut self.heap, &mut gc_gray_stack);
        let ghost h2 = self.heap;
        remove_white_strings(&mut self.strings, &self.heap);
        sweep(&mut self.heap);
        proof {
            let h3 = self.heap;
            crate::memory::lemma_closed_same_slots(h1, h2);
            assert forall|g: Gc| #[trigger] h3.is_live(g) implies old(self).heap.is_live(g) && h3.obj(g) == old(self).heap.obj(g) by {
                assert(h2.is_live(g));
            }
            assert forall|g: Gc| #[trigger] h3.is_live(g) implies reachable(&*old(self), g) by {
                assert(h2.is_marked(g));
                assert(crate::memory::reached_from_marked(h1, g));
                let (a, n) = choose|a: Gc, n: nat| h1.is_marked(a) && #[trigger] reaches(h1, a, g, n);
                assert(!h0.is_marked(a));
                assert(is_root(&*old(self), a));
                crate::memory::lemma_reaches_same_slots(h1, old(self).heap, a, g, n);
            }
            assert forall|g: Gc| is_root(&*old(self), g) implies #[trigger] h3.is_live(g) by {
                assert(h1.is_marked(g));
                assert(h2.is_marked(g));
                assert(old(self).heap.is_live(g)) by {
                    if exists|i: int| 0 <= i < old(self).stack@.len() && #[trigger] old(self).stack@[i] == Value::Obj(g) {
                        let i = choose|i: int| 0 <= i < old(self).stack@.len() && #[trigger] old(self).stack@[i] == Value::Obj(g);
                        assert(value_live(old(self).heap, old(self).stack@[i]));
                    } else if exists|i: int| 0 <= i < old(self).frames@.len() && #[trigger] old(self).frames@[i].closure == g {
                        let i = choose|i: int| 0 <= i < old(self).frames@.len() && #[trigger] old(self).frames@[i].closure == g;
                        assert(closure_ok(old(self).heap, old(self).frames@[i].closure));
                    } else if old(self).open_upvalues@.contains(g) {
                        let j = choose|j: int| 0 <= j < old(self).open_upvalues@.len() && old(self).open_upvalues@[j] == g;
                        assert(is_upvalue(old(self).heap, old(self).open_upvalues@[j]));
                    } else {
                        let k = choose|k: Seq<char>| #[trigger] old(self).globals.view().contains_key(k) && old(self).globals.view()[k] == Value::Obj(g);
                        assert(value_live(old(self).heap, old(self).globals.view()[k]));
                    }
                }
                assert(h2.is_live(g));
            }
            assert(heap_closed(h3)) by {
                assert forall|a: Gc, b: Gc| #![trigger h3.obj(a), h3.is_live(b)] h3.is_live(a) && obj_refers_to(h3.obj(a), b) implies h3.is_live(b) by {
                    assert(h2.is_live(a) && h2.is_marked(a));
                    assert(h3.obj(a) == h2.obj(a));
                    assert(obj_refers_to(h2.obj(a), b));
                    assert(h2.is_marked(b));
                    assert(h2.is_live(b));
                }
            }
            assert forall|i: int| 0 <= i < self.stack@.len() implies value_live(h3, #[trigger] self.stack@[i]) by {
                if self.stack@[i] is Obj {
                    assert(is_root(&*old(self), self.stack@[i]->Obj_0));
                }
            }
            assert forall|i: int| 0 <= i < self.frames@.len() implies closure_ok(h3, #[trigger] self.frames@[i].closure) by {
                let c = self.frames@[i].closure;
                assert(is_root(&*old(self), c));
                assert(closure_ok(old(self).heap, c));
                assert(h3.is_live(c));
                assert(h3.obj(c) == old(self).heap.obj(c));
                assert(obj_refers_to(h3.obj(c), closure_of(old(self).heap, c).function));
            }
            assert forall|i: int| 0 <= i < self.open_upvalues@.len() implies h3.is_live(#[trigger] self.open_upvalues@[i])
                && h3.obj(self.open_upvalues@[i]) == old(self).heap.obj(self.open_upvalues@[i]) by {
                assert(is_root(&*old(self), self.open_upvalues@[i]));
            }
            lemma_open_same(old(self).heap, h3, self.open_upvalues@);
            assert forall|k: Seq<char>| #[trigger] self.globals.view().contains_key(k) implies value_live(h3, self.globals.view()[k]) by {
                if self.globals.view()[k] is Obj {
                    assert(is_root(&*old(self), self.globals.view()[k]->Obj_0));
                }
            }
            assert forall|k: Seq<char>| #![trigger self.strings.view()[k]] self.strings.view().contains_key(k) implies {
                &&& h3.is_live(self.strings.view()[k])
                &&& h3.obj(self.strings.view()[k]).obj_type matches ObjType::String(t) && t@ == k
            } by {
                let g = old(self).strings.view()[k];
                assert(old(self).strings.view().contains_key(k));
                assert(old(self).heap.is_live(g));
                assert(h3.is_live(g));
            }
            assert forall|k: Seq<char>| #[trigger] self.strings.view().contains_key(k) == (old(self).strings.view().contains_key(k)
                && h3.is_live(old(self).strings.view()[k])) by {
                if old(self).strings.view().contains_key(k) {
                    let g = old(self).strings.view()[k];
                    assert(h3.is_live(g) == (h2.is_live(g) && h2.is_marked(g)));
                }
            }
        }
    }

    /// Collects garbage when the host asks for it, as it does once the
    /// memory in use has passed its threshold.
    pub fn safe_point(&mut self, gc_requested: bool)
        requires
            old(self).wf(),
        ensures
            final(self).wf(),
            gc_requested ==> old(self).collected(&*final(self)),
            !gc_requested ==> *final(self) == *old(self),
    {
        if gc_requested {
            self.collect_garbage();
        }
    }

    /// The collector never frees what a root reaches: after a collection,
    /// every object that a root of the VM reached through references before
    /// is still there, unchanged.
    pub proof fn lemma_collect_keeps_reachable(before: &VM, after: &VM, root: Gc, g: Gc, n: nat)
        requires
            before.wf(),
            after.wf(),
            before.collected(after),
            is_root(before, root),
            reaches(before.heap, root, g, n),
        ensures
            after.heap.is_live(g),
            after.heap.obj(g) == before.heap.obj(g),
    {
        assert(after.heap.is_live(root)) by {
            if exists|i: int| 0 <= i < before.stack@.len() && #[trigger] before.stack@[i] == Value::Obj(root) {
                let i = choose|i: int| 0 <= i < before.stack@.len() && #[trigger] before.stack@[i] == Value::Obj(root);
                assert(value_live(after.heap, after.stack@[i]));
            } else if exists|i: int| 0 <= i < before.frames@.len() && #[trigger] before.frames@[i].closure == root {
                let i = choose|i: int| 0 <= i < before.frames@.len() && #[trigger] before.frames@[i].closure == root;
                assert(closure_ok(after.heap, after.frames@[i].closure));
            } else if before.open_upvalues@.contains(root) {
                let j = choose|j: int| 0 <= j < before.open_upvalues@.len() && before.open_upvalues@[j] == root;
                assert(is_upvalue(after.heap, after.open_upvalues@[j]));
            } else {
                let k = choose|k: Seq<char>| #[trigger] before.globals.view().contains_key(k) && before.globals.view()[k] == Value::Obj(root);
                assert(value_live(after.heap, after.globals.view()[k]));
            }
        }
        crate::memory::lemma_closed_keeps_reachable(before.heap, after.heap, root, g, n);
    }

    /// The collector frees exactly what no root reaches: after a collection
    /// an object is left if and only if a root of the VM reached it before.
    pub proof fn lemma_collect_exact(before: &VM, after: &VM, g: Gc)
        requires
            before.wf(),
            after.wf(),
            before.collected(after),
        ensures
            after.heap.is_live(g) <==> reachable(before, g),
    {
        if reachable(before, g) {
            let (r, n) = choose|r: Gc, n: nat| is_root(before, r) && #[trigger] reaches(before.heap, r, g, n);
            VM::lemma_collect_keeps_reachable(before, after, r, g, n);
        }
    }
}

} // verus!

use vstd::prelude::*;

use crate::chunk::{
    Chunk, OP_ADD, OP_CALL, OP_CLOSE_UPVALUE, OP_CLOSURE, OP_CONSTANT, OP_DEFINE_GLOBAL, OP_DIVIDE,
    OP_EQUAL, OP_FALSE, OP_GET_GLOBAL, OP_GET_LOCAL, OP_GET_UPVALUE, OP_GREATER, OP_JUMP,
    OP_JUMP_IF_FALSE, OP_LESS, OP_LOOP, OP_MULTIPLY, OP_NEGATE, OP_NIL, OP_NOT, OP_POP, OP_PRINT,
    OP_RETURN, OP_SET_GLOBAL, OP_SET_LOCAL, OP_SET_UPVALUE, OP_SUBTRACT, OP_TRUE,
};
use crate::memory::{function_refs_live, heap_closed, heap_grows, value_live, Gc, Heap};
use crate::scanner::{lexeme, Scanner, Token, TokenType};
use crate::table::{interns, StringTable};
use crate::value::{FunctionType, Obj, ObjFunction, ObjType, Value};

verus! {

/// Where a compile error points.
pub enum ErrorLocation {
    /// At the end of the input.
    AtEnd,
    /// At the text of a token.
    At(String),
    /// Nowhere in particular: the scanner's own errors.
    Unplaced,
}

/// A message that compilation reports, in the order it reports them.
pub enum Diagnostic {
    /// A syntax or scope error, which makes compilation fail.
    Error { line: usize, location: ErrorLocation, message: String },
    /// A notice that does not make compilation fail.
    Notice(String),
}

/// The parser's state: the scanner, the token just consumed (`previous`) and
/// the one about to be (`current`), and its error bookkeeping.
pub struct Parser {
    pub scanner: Scanner,
    pub current: Token,
    pub previous: Token,
    pub had_error: bool,
    pub panic_mode: bool,
    pub diagnostics: Vec<Diagnostic>,
    /// The tokens consumed so far, in order.
    pub consumed: Ghost<Seq<Token>>,
}

/// The token's text lies within the source.
pub open spec fn token_in(tok: Token, src_len: nat) -> bool {
    tok.start + tok.length <= src_len
}

impl Parser {
    /// The tokens lie in the source, the scanner is consistent, and the
    /// current token is not an error token.
    pub open spec fn wf(&self) -> bool {
        &&& self.scanner.wf()
        &&& token_in(self.current, self.scanner.source@.len())
        &&& token_in(self.previous, self.scanner.source@.len())
        &&& self.current.token_type != TokenType::Error
        &&& (self.current.token_type != TokenType::Eof ==> crate::scanner::lexes_as(
            self.scanner.source@,
            self.current.start as int,
            self.current.start + self.current.length,
            self.current.token_type,
        ))
        &&& (self.previous.token_type != TokenType::Eof ==> crate::scanner::lexes_as(
            self.scanner.source@,
            self.previous.start as int,
            self.previous.start + self.previous.length,
            self.previous.token_type,
        ))
    }

    /// The parser has read its first token: an end-of-input token is only
    /// current once the scanner is at the end.
    pub open spec fn ready(&self) -> bool {
        &&& self.wf()
        &&& (self.current.token_type == TokenType::Eof ==> self.scanner.current == self.scanner.source@.len())
        &&& (self.current.token_type != TokenType::Eof ==> self.current.start + self.current.length
            == self.scanner.current && self.current.length > 0)
    }

    /// How much input is left: the characters not scanned yet, plus one
    /// while the current token is not the end of input. Every consumption
    /// of a token other than the end lowers it.
    pub open spec fn progress(&self) -> nat {
        ((self.scanner.source@.len() - self.scanner.current) + (if self.current.token_type != TokenType::Eof {
            1int
        } else {
            0int
        })) as nat
    }

    /// Some error has been reported.
    pub open spec fn errors_reported(&self) -> bool {
        exists|i: int| 0 <= i < self.diagnostics@.len() && self.diagnostics@[i] is Error
    }

    /// The error flag is set exactly when an error has been reported, and
    /// error recovery only follows an error.
    pub open spec fn error_flag_ok(&self) -> bool {
        &&& self.had_error == self.errors_reported()
        &&& (self.panic_mode ==> self.had_error)
    }

    /// `after` has read the token after `self`'s current one: the current
    /// token became the previous one, and the new current token is the next
    /// token of the source that is not an error, past the error tokens and
    /// blanks in between.
    pub open spec fn reads_next(&self, after: &Parser) -> bool {
        &&& after.previous == self.current
        &&& after.consumed@ == self.consumed@.push(self.current)
        &&& after.scanner.current == after.current.start + after.current.length
        &&& (after.current.token_type != TokenType::Eof ==> crate::scanner::lexes_as(
            after.scanner.source@,
            after.current.start as int,
            after.current.start + after.current.length,
            after.current.token_type,
        ))
        &&& exists|p: int|
            #![trigger crate::scanner::error_run(self.scanner.source@, self.scanner.current as int, p)]
            crate::scanner::error_run(self.scanner.source@, self.scanner.current as int, p)
                && crate::scanner::skippable(self.scanner.source@, p, after.current.start as int)
    }

    pub fn new(scanner: Scanner) -> (res: Self)
        requires
            scanner.wf(),
        ensures
            res.wf(),
            res.error_flag_ok(),
            res.scanner == scanner,
            !res.had_error,
            !res.panic_mode,
            res.current.token_type == TokenType::Eof,
            res.previous.token_type == TokenType::Eof,
            res.diagnostics@.len() == 0,
    {
        Parser {
            scanner,
            current: Token::default(),
            previous: Token::default(),
            had_error: false,
            panic_mode: false,
            diagnostics: Vec::new(),
            consumed: Ghost(Seq::empty()),
        }
    }
}


/// `d` reports `message` at `tok` in the source `src`.
pub open spec fn reports_at(d: Diagnostic, src: Seq<char>, tok: Token, message: Seq<char>) -> bool {
    d matches Diagnostic::Error { line, location, message: m } && {
        &&& line == tok.line
        &&& m@ == message
        &&& match tok.token_type {
            TokenType::Eof => location is AtEnd,
            TokenType::Error => location is Unplaced,
            _ => location matches ErrorLocation::At(text) && text@ == crate::scanner::lexeme(
                src,
                tok.start as int,
                tok.length as int,
            ),
        }
    }
}

/// The tokens that begin a statement or declaration, at which the parser
/// resumes after an error.
pub open spec fn starts_statement(t: TokenType) -> bool {
    t == TokenType::Class || t == TokenType::Fun || t == TokenType::Var || t == TokenType::For
        || t == TokenType::If || t == TokenType::While || t == TokenType::Print
        || t == TokenType::Return
}

/// `a` is a prefix of `b`.
pub open spec fn prefix_of(a: Seq<Token>, b: Seq<Token>) -> bool {
    a.len() <= b.len() && forall|i: int| 0 <= i < a.len() ==> #[trigger] b[i] == a[i]
}

/// With `previous` just consumed, `current` marks a statement boundary:
/// the end of input, just after a `;`, or a token that begins a statement.
pub open spec fn at_boundary(previous: Token, current: Token) -> bool {
    current.token_type == TokenType::Eof || previous.token_type == TokenType::Semicolon || starts_statement(
        current.token_type,
    )
}

/// The tokens `d`, consumed one after another after `previous`, were none
/// of them at a statement boundary when consumed.
pub open spec fn skips_no_boundary(previous: Token, d: Seq<Token>) -> bool {
    forall|i: int| 0 <= i < d.len() ==> !at_boundary(if i == 0 { previous } else { d[i - 1] }, #[trigger] d[i])
}

impl Parser {
    /// `after` follows `self` by reports of errors only (or none), in order.
    pub open spec fn only_appends_errors(&self, after: &Parser) -> bool {
        &&& after.diagnostics@.len() >= self.diagnostics@.len()
        &&& after.diagnostics@.subrange(0, self.diagnostics@.len() as int) == self.diagnostics@
        &&& (after.diagnostics@.len() > self.diagnostics@.len() ==> after.had_error)
        &&& (self.had_error ==> after.had_error)
        &&& (self.panic_mode ==> after.panic_mode)
        &&& forall|i: int| self.diagnostics@.len() <= i < after.diagnostics@.len() ==> (#[trigger] after.diagnostics@[i]) is Error
    }

    pub proof fn lemma_appends_refl(&self)
        ensures
            self.only_appends_errors(self),
    {
        assert(self.diagnostics@.subrange(0, self.diagnostics@.len() as int) =~= self.diagnostics@);
    }

    pub proof fn lemma_appends_trans(&self, b: &Parser, c: &Parser)
        requires
            self.only_appends_errors(b),
            b.only_appends_errors(c),
        ensures
            self.only_appends_errors(c),
    {
        let n = self.diagnostics@.len() as int;
        let m = b.diagnostics@.len() as int;
        assert(c.diagnostics@.subrange(0, n) =~= c.diagnostics@.subrange(0, m).subrange(0, n));
        assert forall|i: int| n <= i < c.diagnostics@.len() implies (#[trigger] c.diagnostics@[i]) is Error by {
            if i < m {
                assert(c.diagnostics@.subrange(0, m)[i] == c.diagnostics@[i]);
                assert(b.diagnostics@[i] is Error);
            }
        }
    }

    /// Reports `message` at `token`, unless an error is being recovered from.
    pub fn error_at(&mut self, token: &Token, message: String)
        requires
            old(self).wf(),
            token_in(*token, old(self).scanner.source@.len()),
        ensures
            final(self).wf(),
            final(self).scanner == old(self).scanner,
            final(self).current == old(self).current,
            final(self).previous == old(self).previous,
            final(self).consumed == old(self).consumed,
            old(self).error_flag_ok() ==> final(self).error_flag_ok(),
            old(self).only_appends_errors(&*final(self)),
            final(self).panic_mode,
            old(self).panic_mode ==> final(self).diagnostics@ == old(self).diagnostics@ && final(self).had_error == old(self).had_error,
            !old(self).panic_mode ==> final(self).had_error && final(self).diagnostics@.len() == old(self).diagnostics@.len() + 1
                && reports_at(final(self).diagnostics@.last(), old(self).scanner.source@, *token, message@),
    {
        if self.panic_mode {
            proof {
                self.lemma_appends_refl();
            }
            return;
        }
        self.panic_mode = true;
        let location = match token.token_type {
            TokenType::Eof => ErrorLocation::AtEnd,
            TokenType::Error => ErrorLocation::Unplaced,
            _ => ErrorLocation::At(self.scanner.get_source(token.start, token.length)),
        };
        self.diagnostics.push(Diagnostic::Error { line: token.line, location, message });
        self.had_error = true;
        proof {
            assert(self.diagnostics@.subrange(0, old(self).diagnostics@.len() as int) =~= old(self).diagnostics@);
            let n = old(self).diagnostics@.len() as int;
            assert(self.diagnostics@[n] is Error);
            assert(self.errors_reported());
        }
    }

    /// Reports `message` at the current token.
    pub fn error_at_current(&mut self, message: String)
        requires
            old(self).wf(),
        ensures
            final(self).wf(),
            final(self).scanner == old(self).scanner,
            final(self).current == old(self).current,
            final(self).previous == old(self).previous,
            final(self).consumed == old(self).consumed,
            old(self).error_flag_ok() ==> final(self).error_flag_ok(),
            old(self).only_appends_errors(&*final(self)),
            final(self).panic_mode,
            old(self).panic_mode ==> final(self).diagnostics@ == old(self).diagnostics@,
            !old(self).panic_mode ==> final(self).diagnostics@.len() == old(self).diagnostics@.len() + 1
                && reports_at(final(self).diagnostics@.last(), old(self).scanner.source@, old(self).current, message@),
    {
        let tok = self.current.clone();
        self.error_at(&tok, message);
    }

    /// Reports `message` at the token just consumed.
    pub fn error(&mut self, message: String)
        requires
            old(self).wf(),
        ensures
            final(self).wf(),
            final(self).scanner == old(self).scanner,
            final(self).current == old(self).current,
            final(self).previous == old(self).previous,
            final(self).consumed == old(self).consumed,
            old(self).error_flag_ok() ==> final(self).error_flag_ok(),
            old(self).only_appends_errors(&*final(self)),
            final(self).panic_mode,
            old(self).panic_mode ==> final(self).diagnostics@ == old(self).diagnostics@,
            !old(self).panic_mode ==> final(self).diagnostics@.len() == old(self).diagnostics@.len() + 1
                && reports_at(final(self).diagnostics@.last(), old(self).scanner.source@, old(self).previous, message@),
    {
        let tok = self.previous.clone();
        self.error_at(&tok, message);
    }

    /// Moves on by one token: the current token becomes the previous one,
    /// and the next token that is not an error becomes current. Each error
    /// token on the way is reported, unless an error is being recovered from.
    pub fn advance(&mut self)
        requires
            old(self).wf(),
        ensures
            final(self).ready(),
            final(self).scanner.source == old(self).scanner.source,
            final(self).previous == old(self).current,
            old(self).error_flag_ok() ==> final(self).error_flag_ok(),
            old(self).only_appends_errors(&*final(self)),
            final(self).current.token_type != TokenType::Eof ==> crate::scanner::lexes_as(
                final(self).scanner.source@,
                final(self).current.start as int,
                final(self).current.start + final(self).current.length,
                final(self).current.token_type,
            ),
            old(self).ready() ==> final(self).progress() <= old(self).progress(),
            old(self).ready() && old(self).current.token_type != TokenType::Eof ==> final(self).progress() < old(self).progress(),
            exists|p: int|
                #![trigger crate::scanner::error_run(old(self).scanner.source@, old(self).scanner.current as int, p)]
                crate::scanner::error_run(old(self).scanner.source@, old(self).scanner.current as int, p)
                    && crate::scanner::skippable(old(self).scanner.source@, p, final(self).current.start as int),
            final(self).scanner.current == final(self).current.start + final(self).current.length,
            old(self).reads_next(&*final(self)),
            !old(self).panic_mode && final(self).diagnostics@.len() == old(self).diagnostics@.len() ==> !final(self).panic_mode,
    {
        self.previous = self.current.clone();
        proof {
            old(self).lemma_appends_refl();
            self.consumed@ = self.consumed@.push(self.previous);
        }
        loop
            invariant
                self.wf(),
                self.scanner.source == old(self).scanner.source,
                self.previous == old(self).current,
                self.consumed@ == old(self).consumed@.push(old(self).current),
                old(self).error_flag_ok() ==> self.error_flag_ok(),
                old(self).only_appends_errors(&*self),
                old(self).scanner.current <= self.scanner.current,
                old(self).ready() && old(self).current.token_type != TokenType::Eof ==> old(self).current.start
                    + old(self).current.length <= old(self).scanner.current,
                old(self).ready() && old(self).current.token_type != TokenType::Eof ==> old(self).current.length > 0,
                crate::scanner::error_run(self.scanner.source@, old(self).scanner.current as int, self.scanner.current as int),
                !old(self).panic_mode && self.diagnostics@.len() == old(self).diagnostics@.len() ==> !self.panic_mode,
                self.diagnostics@.len() >= old(self).diagnostics@.len(),
            decreases self.scanner.source@.len() - self.scanner.current,
        {
            let ghost cur0 = self.scanner.current as int;
            let tok = self.scanner.scan_token();
            if tok.token_type != TokenType::Error {
                self.current = tok;
                proof {
                    assert(crate::scanner::error_run(self.scanner.source@, old(self).scanner.current as int, cur0));
                }
                return;
            }
            proof {
                let src = self.scanner.source@;
                let e = self.scanner.current as int;
                assert(crate::scanner::error_token_at(src, tok.start as int, e));
                assert(crate::scanner::error_run(src, old(self).scanner.current as int, cur0));
                assert(crate::scanner::skippable(src, cur0, tok.start as int));
                let from = old(self).scanner.current as int;
                let s0 = tok.start as int;
                assert(from <= cur0 && cur0 <= s0 && s0 < e);
                crate::scanner::lemma_error_run_extend(src, from, cur0, s0, e);
            }
            let message = match &tok.error_message {
                Some(m) => m.clone(),
                None => String::new(),
            };
            let ghost before = *self;
            self.error_at(&tok, message);
            proof {
                old(self).lemma_appends_trans(&before, &*self);
            }
        }
    }

    /// Whether the current token is of kind `token_type`.
    pub fn check(&self, token_type: TokenType) -> (res: bool)
        ensures
            res == (self.current.token_type == token_type),
    {
        self.current.token_type == token_type
    }

    /// Consumes the current token if it is of kind `token_type`, and says
    /// whether it did.
    pub fn match_token(&mut self, token_type: TokenType) -> (res: bool)
        requires
            old(self).ready(),
        ensures
            final(self).ready(),
            final(self).scanner.source == old(self).scanner.source,
            res == (old(self).current.token_type == token_type),
            !res ==> *final(self) == *old(self),
            res ==> final(self).previous == old(self).current,
            res ==> old(self).reads_next(&*final(self)),
            old(self).error_flag_ok() ==> final(self).error_flag_ok(),
            old(self).only_appends_errors(&*final(self)),
            final(self).progress() <= old(self).progress(),
            res && token_type != TokenType::Eof ==> final(self).progress() < old(self).progress(),
    {
        if !self.check(token_type) {
            proof {
                self.lemma_appends_refl();
            }
            return false;
        }
        self.advance();
        true
    }

    /// Consumes the current token if it is of kind `token_type`; otherwise
    /// reports `message` at it.
    pub fn consume(&mut self, token_type: TokenType, message: &str)
        requires
            old(self).ready(),
        ensures
            final(self).ready(),
            final(self).scanner.source == old(self).scanner.source,
            old(self).current.token_type == token_type ==> final(self).previous == old(self).current,
            old(self).current.token_type == token_type ==> old(self).reads_next(&*final(self)),
            old(self).error_flag_ok() && old(self).current.token_type != token_type ==> final(self).had_error,
            old(self).current.token_type != token_type && old(self).panic_mode ==> final(self).diagnostics@ == old(self).diagnostics@,
            old(self).current.token_type != token_type ==> final(self).current == old(self).current
                && final(self).previous == old(self).previous && final(self).scanner == old(self).scanner
                && final(self).consumed == old(self).consumed,
            old(self).current.token_type != token_type ==> final(self).panic_mode,
            old(self).current.token_type != token_type && !old(self).panic_mode ==> final(self).diagnostics@.len()
                == old(self).diagnostics@.len() + 1 && reports_at(
                final(self).diagnostics@.last(),
                old(self).scanner.source@,
                old(self).current,
                message@,
            ),
            old(self).error_flag_ok() ==> final(self).error_flag_ok(),
            old(self).only_appends_errors(&*final(self)),
            final(self).progress() <= old(self).progress(),
            old(self).current.token_type == token_type && token_type != TokenType::Eof ==> final(self).progress()
                < old(self).progress(),
    {
        if self.current.token_type == token_type {
            self.advance();
            return;
        }
        self.error_at_current(message.to_string());
    }

    /// Leaves error recovery: skips tokens up to a statement boundary, that
    /// is, to just after a `;`, to a token that begins a statement, or to
    /// the end of the input.
    #[verifier::rlimit(40)]
    pub fn synchronize(&mut self)
        requires
            old(self).ready(),
        ensures
            final(self).ready(),
            final(self).scanner.source == old(self).scanner.source,
            final(self).current.token_type == TokenType::Eof
                || final(self).previous.token_type == TokenType::Semicolon
                || starts_statement(final(self).current.token_type),
            old(self).error_flag_ok() ==> final(self).error_flag_ok(),
            final(self).diagnostics@.len() >= old(self).diagnostics@.len(),
            final(self).diagnostics@.subrange(0, old(self).diagnostics@.len() as int) == old(self).diagnostics@,
            old(self).had_error ==> final(self).had_error,
            final(self).diagnostics@.len() == old(self).diagnostics@.len() ==> !final(self).panic_mode,
            final(self).progress() <= old(self).progress(),
            old(self).current.token_type == TokenType::Eof || old(self).previous.token_type == TokenType::Semicolon
                || starts_statement(old(self).current.token_type) ==> {
                &&& final(self).current == old(self).current
                &&& final(self).previous == old(self).previous
                &&& final(self).scanner == old(self).scanner
                &&& final(self).diagnostics@ == old(self).diagnostics@
            },
            prefix_of(old(self).consumed@, final(self).consumed@),
            ({
                let d = final(self).consumed@.subrange(old(self).consumed@.len() as int, final(self).consumed@.len() as int);
                &&& skips_no_boundary(old(self).previous, d)
                &&& final(self).previous == (if d.len() == 0 { old(self).previous } else { d.last() })
            }),
    {
        self.panic_mode = false;
        let ghost start = *self;
        let ghost mut first = true;
        proof {
            start.lemma_appends_refl();
        }
        while self.current.token_type != TokenType::Eof
            invariant
                self.ready(),
                self.scanner.source == old(self).scanner.source,
                old(self).error_flag_ok() ==> self.error_flag_ok(),
                start.only_appends_errors(&*self),
                start.diagnostics@ == old(self).diagnostics@,
                start.had_error == old(self).had_error,
                !start.panic_mode,
                self.diagnostics@.len() == start.diagnostics@.len() ==> !self.panic_mode,
                self.progress() <= old(self).progress(),
                start.current == old(self).current && start.previous == old(self).previous && start.scanner == old(self).scanner,
                first ==> *self == start,
                old(self).current.token_type == TokenType::Eof || old(self).previous.token_type == TokenType::Semicolon
                    || starts_statement(old(self).current.token_type) ==> first,
                prefix_of(old(self).consumed@, self.consumed@),
                skips_no_boundary(old(self).previous, self.consumed@.subrange(old(self).consumed@.len() as int, self.consumed@.len() as int)),
                self.previous == (if self.consumed@.len() == old(self).consumed@.len() { old(self).previous } else { self.consumed@.last() }),
            decreases self.progress(),
        {
            if self.previous.token_type == TokenType::Semicolon {
                return;
            }
            match self.current.token_type {
                TokenType::Class | TokenType::Fun | TokenType::Var | TokenType::For | TokenType::If
                | TokenType::While | TokenType::Print | TokenType::Return => {
                    return;
                },
                _ => {},
            }
            let ghost before = *self;
            proof {
                assert(!at_boundary(before.previous, before.current));
            }
            self.advance();
            proof {
                start.lemma_appends_trans(&before, &*self);
                first = false;
                let o = old(self).consumed@.len() as int;
                let d0 = before.consumed@.subrange(o, before.consumed@.len() as int);
                let d1 = self.consumed@.subrange(o, self.consumed@.len() as int);
                assert(d1 =~= d0.push(before.current));
                assert(before.previous == (if d0.len() == 0 { old(self).previous } else { d0.last() }));
            }
        }
    }
}


/// A local variable of the function being compiled: its name, the scope
/// depth it was declared at (-1 while its initializer is being compiled),
/// and whether a closure captures it.
pub struct Local {
    pub name: Token,
    pub depth: i32,
    pub is_captured: bool,
}

/// A variable that a function captures: a local slot of the enclosing
/// function, or an upvalue of it.
#[derive(Clone, Copy, PartialEq, Eq, Structural)]
pub struct Upvalue {
    pub index: u8,
    pub is_local: bool,
}

/// A function being compiled, with its locals and upvalues.
pub struct FunctionScope {
    pub function_type: FunctionType,
    pub function: ObjFunction,
    pub locals: Vec<Local>,
    pub upvalues: Vec<Upvalue>,
}

/// What compilation hands to the VM: the script function, the interned
/// strings and the heap that holds every object made so far.
pub struct RuntimeExpression {
    pub function: ObjFunction,
    pub strings: StringTable,
    pub heap: Heap,
}

impl RuntimeExpression {
    pub fn new(function: ObjFunction, strings: StringTable, heap: Heap) -> (res: Self)
        ensures
            res.function == function,
            res.strings == strings,
            res.heap == heap,
    {
        RuntimeExpression { function, strings, heap }
    }
}

/// A function scope is consistent: it has between 1 and 256 locals, whose
/// names lie in the source; its upvalue count is the number of its upvalues;
/// its code has one line per byte; its name and constants are live.
pub open spec fn scope_ok(s: FunctionScope, src_len: nat, heap: Heap) -> bool {
    &&& 1 <= s.locals@.len() <= 256
    &&& s.locals@[0].depth == 0
    &&& forall|i: int| 0 <= i < s.locals@.len() ==> token_in(#[trigger] s.locals@[i].name, src_len)
    &&& s.function.upvalue_count == s.upvalues@.len()
    &&& s.function.chunk.code@.len() == s.function.chunk.lines@.len()
    &&& function_refs_live(heap, s.function)
}

/// The result of compiling: the script function, or the errors.
pub enum CompileOutcome {
    Compiled(RuntimeExpression),
    Failed,
}

/// A single-pass compiler from Lox source to bytecode. Nested function
/// declarations are compiled on a stack of function scopes: the enclosing
/// ones in `function_arena`, the innermost in `current`.
pub struct Compiler<F: Fn(&str) -> u64> {
    parser: Parser,
    function_arena: Vec<FunctionScope>,
    current: FunctionScope,
    strings: StringTable,
    heap: Heap,
    scope_depth: i32,
    number_value: F,
}

/// The local slot each function reserves for itself: an identifier with
/// an empty name, at depth 0, not captured.
pub open spec fn spec_reserved_local() -> Local {
    Local {
        name: Token { token_type: TokenType::Identifier, start: 0, length: 0, line: 0, error_message: None },
        depth: 0,
        is_captured: false,
    }
}

/// A fresh local slot for the function itself, with an empty name.
fn reserved_local() -> (res: Local)
    ensures
        res == spec_reserved_local(),
{
    Local {
        name: Token {
            token_type: TokenType::Identifier,
            start: 0,
            length: 0,
            line: 0,
            error_message: None,
        },
        depth: 0,
        is_captured: false,
    }
}

impl<F: Fn(&str) -> u64> Compiler<F> {
    /// The stack of function scopes, innermost last.
    pub closed spec fn arena(&self) -> Seq<FunctionScope> {
        self.function_arena@.push(self.current)
    }

    pub closed spec fn src_len(&self) -> nat {
        self.parser.scanner.source@.len()
    }

    pub closed spec fn code(&self) -> Seq<u8> {
        self.current.function.chunk.code@
    }

    /// The compiler's state is consistent.
    pub closed spec fn inv(&self) -> bool {
        &&& self.parser.ready()
        &&& self.parser.error_flag_ok()
        &&& self.src_len() < i32::MAX
        &&& 0 <= self.scope_depth
        &&& self.scope_depth + self.parser.progress() <= self.src_len() + 1
        &&& self.function_arena@.len() <= self.scope_depth + 1
        &&& self.heap.wf()
        &&& heap_closed(self.heap)
        &&& self.strings.wf()
        &&& interns(self.strings, self.heap)
        &&& interns_all(self.strings, self.heap)
        &&& forall|i: int| 0 <= i < self.arena().len() ==> scope_ok(#[trigger] self.arena()[i], self.src_len(), self.heap)
        &&& forall|s: &str| call_requires(self.number_value, (s,))
        &&& self.arena()[0].function_type == FunctionType::Script
        &&& self.arena()[0].upvalues@.len() == 0
        &&& self.arena()[0].function.arity == 0
        &&& self.arena()[0].function.name is None
    }

    /// What `evolves_to` keeps of the enclosing function scopes: their code,
    /// kinds, numbers of locals and names.
    pub closed spec fn enclosing_sig(&self) -> Seq<(Chunk, FunctionType, nat, Option<Gc>, usize)> {
        self.function_arena@.map_values(
            |s: FunctionScope| (s.function.chunk, s.function_type, s.locals@.len(), s.function.name, s.function.arity),
        )
    }

    /// `after` continues `self` within the same function scope: the scope
    /// stack and the scope depth are as before, the source is the same, the
    /// enclosing functions' code is untouched, the current function's code
    /// has only grown with what was there kept, no input has been unread,
    /// and an error once reported stays reported.
    pub closed spec fn evolves_to(&self, after: &Self) -> bool {
        &&& self.same_frame(after)
        &&& forall|i: int| 0 <= i < self.code().len() ==> #[trigger] after.code()[i] == self.code()[i]
        &&& (self.parser.had_error ==> after.parser.had_error)
        &&& prefix_of(self.parser.consumed@, after.parser.consumed@)
        &&& after.current.function.arity == self.current.function.arity
    }

    /// `evolves_to`, but for the arity of the current function, which grows
    /// while its parameters are read.
    pub closed spec fn evolves_params(&self, after: &Self) -> bool {
        &&& self.same_frame(after)
        &&& forall|i: int| 0 <= i < self.code().len() ==> #[trigger] after.code()[i] == self.code()[i]
        &&& (self.parser.had_error ==> after.parser.had_error)
        &&& prefix_of(self.parser.consumed@, after.parser.consumed@)
    }

    /// The tokens consumed from `self` on to `after`.
    pub closed spec fn read_since(&self, after: &Self) -> Seq<Token> {
        after.parser.consumed@.subrange(self.parser.consumed@.len() as int, after.parser.consumed@.len() as int)
    }

    /// Unless an error was reported, the tokens read from `self` to `after`
    /// are one expression's.
    pub closed spec fn reads_expression(&self, after: &Self) -> bool {
        !after.parser.had_error ==> expression_tokens(self.read_since(after))
    }

    /// Unless an error was reported, the tokens read from `self` to `after`
    /// close a parenthesis opened just before.
    pub closed spec fn reads_group(&self, after: &Self) -> bool {
        !after.parser.had_error ==> group_tokens(self.read_since(after))
    }

    /// `evolves_to` but for the code already there, which may have been
    /// rewritten: moreover the current function keeps its name, and interned
    /// strings stay interned.
    pub closed spec fn same_frame(&self, after: &Self) -> bool {
        &&& after.enclosing_sig() == self.enclosing_sig()
        &&& after.function_arena@.len() == self.function_arena@.len()
        &&& after.scope_depth == self.scope_depth
        &&& after.parser.scanner.source == self.parser.scanner.source
        &&& after.current.function_type == self.current.function_type
        &&& after.current.function.name == self.current.function.name
        &&& keeps_interned(self.strings.view(), after.strings.view())
        &&& after.code().len() >= self.code().len()
        &&& after.parser.progress() <= self.parser.progress()
    }

    proof fn lemma_evolves_refl(&self)
        ensures
            self.evolves_to(self),
    {
    }

    proof fn lemma_evolves_trans(&self, b: &Self, c: &Self)
        requires
            self.evolves_to(b),
            b.evolves_to(c),
        ensures
            self.evolves_to(c),
    {
    }

    /// The source being compiled.
    pub closed spec fn source(&self) -> Seq<char> {
        self.parser.scanner.source@
    }

    /// The messages reported so far, in order.
    pub closed spec fn reported(&self) -> Seq<Diagnostic> {
        self.parser.diagnostics@
    }

    /// Whether an error has been reported.
    pub closed spec fn failed(&self) -> bool {
        self.parser.had_error
    }

    /// Whether the parser is recovering from an error.
    pub closed spec fn recovering(&self) -> bool {
        self.parser.panic_mode
    }

    /// The strings interned so far.
    pub closed spec fn interned(&self) -> Map<Seq<char>, Gc> {
        self.strings.view()
    }

    /// The heap's slots.
    pub closed spec fn heap_slots(&self) -> Seq<Option<Obj>> {
        self.heap.slots()
    }

    /// The function being compiled, innermost.
    pub closed spec fn innermost(&self) -> FunctionScope {
        self.current
    }

    /// The enclosing functions being compiled, outermost first.
    pub closed spec fn enclosing(&self) -> Seq<FunctionScope> {
        self.function_arena@
    }

    /// The block depth.
    pub closed spec fn depth(&self) -> int {
        self.scope_depth as int
    }

    /// A compiler for `source`, with `number_value` giving the bits of the
    /// double that a number literal denotes. It starts on the script, with
    /// no string interned, an empty heap, nothing reported and no token read.
    pub fn new(source: &str, number_value: F) -> (res: Self)
        requires
            source@.len() < i32::MAX,
            forall|s: &str| call_requires(number_value, (s,)),
        ensures
            res.fresh(),
            res.source() == source@,
            res.reported().len() == 0,
            !res.failed(),
            !res.recovering(),
            res.interned() == Map::<Seq<char>, Gc>::empty(),
            res.heap_slots().len() == 0,
            res.depth() == 0,
            res.enclosing().len() == 0,
            res.innermost().function_type == FunctionType::Script,
            res.innermost().function.arity == 0,
            res.innermost().function.upvalue_count == 0,
            res.innermost().function.name is None,
            res.innermost().function.chunk.code@.len() == 0,
            res.innermost().function.chunk.lines@.len() == 0,
            res.innermost().function.chunk.constants.values@.len() == 0,
            res.innermost().locals@ == seq![spec_reserved_local()],
            res.innermost().upvalues@.len() == 0,
    {
        let mut locals = Vec::new();
        locals.push(reserved_local());
        let current = FunctionScope {
            function_type: FunctionType::Script,
            function: ObjFunction { arity: 0, upvalue_count: 0, chunk: Chunk::new(), name: None },
            locals,
            upvalues: Vec::new(),
        };
        Compiler {
            parser: Parser::new(Scanner::new(source)),
            function_arena: Vec::new(),
            current,
            strings: StringTable::new(),
            heap: Heap::new(),
            scope_depth: 0,
            number_value,
        }
    }

    /// The state `new` leaves the compiler in, before the first token is read.
    pub closed spec fn fresh(&self) -> bool {
        &&& self.parser.wf()
        &&& self.parser.error_flag_ok()
        &&& self.parser.scanner.current == 0
        &&& self.src_len() < i32::MAX
        &&& self.scope_depth == 0
        &&& self.function_arena@.len() == 0
        &&& self.current.function_type == FunctionType::Script
        &&& self.heap.wf()
        &&& heap_closed(self.heap)
        &&& self.strings.wf()
        &&& interns(self.strings, self.heap)
        &&& interns_all(self.strings, self.heap)
        &&& scope_ok(self.current, self.src_len(), self.heap)
        &&& forall|s: &str| call_requires(self.number_value, (s,))
        &&& self.current.upvalues@.len() == 0
        &&& self.current.function.arity == 0
        &&& self.current.function.name is None
    }
}


/// `after` differs from `before` at most in the current function's chunk.
spec fn only_chunk_changes<F: Fn(&str) -> u64>(before: &Compiler<F>, after: &Compiler<F>) -> bool {
    &&& after.parser == before.parser
    &&& after.function_arena == before.function_arena
    &&& after.strings == before.strings
    &&& after.heap == before.heap
    &&& after.scope_depth == before.scope_depth
    &&& after.number_value == before.number_value
    &&& after.current.function_type == before.current.function_type
    &&& after.current.locals == before.current.locals
    &&& after.current.upvalues == before.current.upvalues
    &&& after.current.function.arity == before.current.function.arity
    &&& after.current.function.upvalue_count == before.current.function.upvalue_count
    &&& after.current.function.name == before.current.function.name
}

/// The opcode of a `true`, `false` or `nil` literal.
pub open spec fn literal_op(t: TokenType) -> u8 {
    if t == TokenType::False {
        OP_FALSE
    } else if t == TokenType::Nil {
        OP_NIL
    } else {
        OP_TRUE
    }
}

/// The operand byte that names constant `n`: `n` itself, or 0 past 255.
pub open spec fn constant_byte(n: nat) -> u8 {
    if n <= 255 {
        n as u8
    } else {
        0
    }
}

/// The code of a binary operator.
pub open spec fn binary_code(t: TokenType) -> Seq<u8> {
    if t == TokenType::BangEqual {
        seq![OP_EQUAL, OP_NOT]
    } else if t == TokenType::EqualEqual {
        seq![OP_EQUAL]
    } else if t == TokenType::Greater {
        seq![OP_GREATER]
    } else if t == TokenType::GreaterEqual {
        seq![OP_LESS, OP_NOT]
    } else if t == TokenType::Less {
        seq![OP_LESS]
    } else if t == TokenType::LessEqual {
        seq![OP_GREATER, OP_NOT]
    } else if t == TokenType::Plus {
        seq![OP_ADD]
    } else if t == TokenType::Minus {
        seq![OP_SUBTRACT]
    } else if t == TokenType::Star {
        seq![OP_MULTIPLY]
    } else {
        seq![OP_DIVIDE]
    }
}

/// `code` ends with `tail`.
pub open spec fn ends_with(code: Seq<u8>, tail: Seq<u8>) -> bool {
    code.len() >= tail.len() && code.subrange(code.len() - tail.len(), code.len() as int) == tail
}

/// The two bytes at `at` hold `d`, high byte first, as a jump operand.
pub open spec fn operand_at(code: Seq<u8>, at: int, d: int) -> bool {
    &&& code[at] == ((d / 256) % 256) as u8
    &&& code[at + 1] == (d % 256) as u8
}

impl<F: Fn(&str) -> u64> Compiler<F> {
    /// `after` is `self` with a load of constant `v` emitted: `v` joined the
    /// constants and `OP_CONSTANT` with its index was appended to the code.
    pub closed spec fn emitted_constant(&self, after: &Self, v: Value) -> bool {
        &&& after.current.function.chunk.constants.values@ == self.current.function.chunk.constants.values@.push(v)
        &&& after.code() == self.code().push(OP_CONSTANT).push(constant_byte(self.current.function.chunk.constants.values@.len()))
    }

    /// The parser has consumed a closing parenthesis, or is recovering from
    /// an error.
    pub closed spec fn closed_paren(&self) -> bool {
        self.closed_with(TokenType::RightParen)
    }

    /// The parser has consumed a token of kind `t`, or is recovering from an
    /// error.
    pub closed spec fn closed_with(&self, t: TokenType) -> bool {
        self.parser.previous.token_type == t || self.parser.panic_mode
    }
}

/// The current block, whose locals are the last of `locals` that are at
/// `depth` or deeper (or not yet initialized), already has a local named as
/// `name`.
pub open spec fn declared_in_block(locals: Seq<Local>, src: Seq<char>, name: Token, depth: int) -> bool {
    exists|j: int|
        0 <= j < locals.len() && token_text(src, #[trigger] locals[j].name) == token_text(src, name) && forall|k: int|
            j <= k < locals.len() ==> (#[trigger] locals[k]).depth == -1 || locals[k].depth >= depth
}

/// Some local of `locals` is named as `name`.
pub open spec fn names_local(locals: Seq<Local>, src: Seq<char>, name: Token) -> bool {
    exists|j: int| 0 <= j < locals.len() && token_text(src, #[trigger] locals[j].name) == token_text(src, name)
}

/// Slot `i` holds the innermost local of `locals` named as `name`.
pub open spec fn innermost_local(locals: Seq<Local>, src: Seq<char>, name: Token, i: int) -> bool {
    &&& 0 <= i < locals.len()
    &&& token_text(src, locals[i].name) == token_text(src, name)
    &&& forall|j: int| i < j < locals.len() ==> token_text(src, #[trigger] locals[j].name) != token_text(src, name)
}

impl<F: Fn(&str) -> u64> Compiler<F> {
    /// The (read, write) instructions for `name` seen from the current
    /// function: a local of it, else a local of an enclosing function (an
    /// upvalue), else a global.
    pub closed spec fn access_ops(&self, name: Token) -> (u8, u8) {
        let src = self.parser.scanner.source@;
        if names_local(self.current.locals@, src, name) {
            (OP_GET_LOCAL, OP_SET_LOCAL)
        } else if named_in_enclosing(self.arena(), src, name, self.function_arena@.len() as int) {
            (OP_GET_UPVALUE, OP_SET_UPVALUE)
        } else {
            (OP_GET_GLOBAL, OP_SET_GLOBAL)
        }
    }

    /// `after` is `self` with an access to `name` emitted: a read, appended
    /// right away, or, where assignment may stand and `=` follows, the value
    /// and then the write. The operand is the innermost local's slot for a
    /// local and the new constant that names it for a global.
    pub closed spec fn emitted_access(&self, after: &Self, name: Token, can_assign: bool) -> bool {
        let src = self.parser.scanner.source@;
        let assigns = can_assign && self.parser.current.token_type == TokenType::Equal;
        let c = after.code();
        let o = self.code().len() as int;
        let at = if assigns { c.len() - 2 } else { o };
        &&& c.len() >= o + 2
        &&& (!assigns ==> c.len() == o + 2)
        &&& c[at] == (if assigns { self.access_ops(name).1 } else { self.access_ops(name).0 })
        &&& (names_local(self.current.locals@, src, name) ==> innermost_local(self.current.locals@, src, name, c[at + 1] as int))
        &&& (!names_local(self.current.locals@, src, name) && !named_in_enclosing(self.arena(), src, name, self.function_arena@.len() as int)
            ==> c[at + 1] == constant_byte(self.current.function.chunk.constants.values@.len()))
    }

    /// What the parsing function `f` compiles, from `self` to `after`.
    pub closed spec fn parse_fn_effect(&self, after: &Self, f: ParseFn, can_assign: bool) -> bool {
        let o = self.code().len();
        let c = after.code();
        let t = self.parser.previous.token_type;
        match f {
            ParseFn::Grouping => after.closed_paren(),
            ParseFn::Call => c.len() >= o + 2 && c[c.len() - 2] == OP_CALL && after.closed_paren(),
            ParseFn::Unary => c.len() > o && c.last() == (if t == TokenType::Bang { OP_NOT } else { OP_NEGATE }),
            ParseFn::Binary => c.len() >= o + binary_code(t).len() && ends_with(c, binary_code(t)),
            ParseFn::Number => exists|text: &str, v: u64|
                #![trigger call_ensures(self.number_value, (text,), v)]
                text@ == token_text(self.parser.scanner.source@, self.parser.previous)
                && call_ensures(self.number_value, (text,), v) && self.emitted_constant(after, Value::Number(v)),
            ParseFn::String => {
                let tok = self.parser.previous;
                let text = lexeme(self.parser.scanner.source@, tok.start + 1, tok.length - 2);
                &&& after.strings.view().contains_key(text)
                &&& self.emitted_constant(after, Value::Obj(after.strings.view()[text]))
            },
            ParseFn::Variable => self.emitted_access(after, self.parser.previous, can_assign),
            ParseFn::Literal => c == self.code().push(literal_op(t)),
            ParseFn::And => {
                &&& c.len() >= o + 4
                &&& c[o as int] == OP_JUMP_IF_FALSE
                &&& operand_at(c, o + 1int, c.len() - o - 3)
                &&& c[o + 3int] == OP_POP
            },
            ParseFn::Or => {
                &&& c.len() >= o + 7
                &&& c[o as int] == OP_JUMP_IF_FALSE
                &&& operand_at(c, o + 1int, 3)
                &&& c[o + 3int] == OP_JUMP
                &&& operand_at(c, o + 4int, c.len() - o - 6)
                &&& c[o + 6int] == OP_POP
            },
        }
    }
}

impl<F: Fn(&str) -> u64> Compiler<F> {
    /// `after` is `self` with a closure emitted: a new function object, live
    /// on the heap, joined the constants, and `OP_CLOSURE` with its index was
    /// appended, then a pair of bytes for each variable the function
    /// captures, the first of each pair a flag (1 for a local slot of this
    /// function, 0 for one of its upvalues).
    pub closed spec fn emitted_closure(&self, after: &Self) -> bool {
        let k = self.current.function.chunk.constants.values@.len();
        let cs = after.current.function.chunk.constants.values@;
        let o = self.code().len() as int;
        let c = after.code();
        &&& cs == self.current.function.chunk.constants.values@.push(cs.last())
        &&& c.len() >= o + 2
        &&& c[o] == OP_CLOSURE
        &&& c[o + 1] == constant_byte(k)
        &&& match cs.last() {
            Value::Obj(g) => after.heap.is_live(g) && match after.heap.obj(g).obj_type {
                ObjType::Function(f) => c.len() == o + 2 + 2 * f.upvalue_count,
                _ => false,
            },
            _ => false,
        }
        &&& forall|j: int| o + 2 <= j < c.len() && (j - o) % 2 == 0 ==> #[trigger] c[j] <= 1
    }
}

impl<F: Fn(&str) -> u64> Compiler<F> {
    /// Appends `byte` to the current function's code, with the line of the
    /// token just consumed.
    fn emit_byte(&mut self, byte: u8)
        requires
            old(self).inv(),
        ensures
            final(self).inv(),
            old(self).evolves_to(&*final(self)),
            only_chunk_changes(&*old(self), &*final(self)),
            final(self).current.function.chunk.code@ == old(self).current.function.chunk.code@.push(byte),
            final(self).current.function.chunk.lines@ == old(self).current.function.chunk.lines@.push(
                old(self).parser.previous.line,
            ),
            final(self).current.function.chunk.constants == old(self).current.function.chunk.constants,
    {
        let line = self.parser.previous.line;
        self.current.function.chunk.write(byte, line);
        proof {
            assert(self.arena()[self.arena().len() - 1] == self.current);
            assert forall|i: int| 0 <= i < self.arena().len() implies scope_ok(#[trigger] self.arena()[i], self.src_len(), self.heap) by {
                if i < self.function_arena@.len() {
                    assert(self.arena()[i] == old(self).arena()[i]);
                } else {
                    assert(old(self).arena()[i] == old(self).current);
                }
            }
        }
    }

    fn emit_bytes(&mut self, byte1: u8, byte2: u8)
        requires
            old(self).inv(),
        ensures
            final(self).inv(),
            old(self).evolves_to(&*final(self)),
            only_chunk_changes(&*old(self), &*final(self)),
            final(self).current.function.chunk.code@ == old(self).current.function.chunk.code@.push(byte1).push(byte2),
            final(self).current.function.chunk.constants == old(self).current.function.chunk.constants,
    {
        self.emit_byte(byte1);
        self.emit_byte(byte2);
    }

    /// Emits a backward jump to `loop_start`.
    fn emit_loop(&mut self, loop_start: usize)
        requires
            old(self).inv(),
            loop_start <= old(self).code().len(),
        ensures
            final(self).inv(),
            old(self).evolves_to(&*final(self)),
            final(self).code().len() == old(self).code().len() + 3,
            final(self).code()[old(self).code().len() as int] == OP_LOOP,
            old(self).code().len() + 3 - loop_start > 65535 && old(self).code().len() + 3 <= usize::MAX ==> final(self).parser.had_error,
            old(self).code().len() + 3 - loop_start <= 65535 ==> operand_at(
                final(self).code(),
                old(self).code().len() + 1int,
                old(self).code().len() + 3 - loop_start,
            ),
    {
        self.emit_byte(OP_LOOP);
        let offset = (self.current.function.chunk.code.len() - loop_start).wrapping_add(2);
        if offset > 65535 {
            let ghost mid = *self;
            self.parser.error("Loop body too large.".to_string());
            proof {
                self.lemma_inv_diag(&mid);
            }
        }
        proof {
            assert((offset >> 8) & 0xff <= 0xff) by (bit_vector);
            assert(offset & 0xff <= 0xff) by (bit_vector);
            assert(((offset >> 8) & 0xff) == (offset / 256) % 256) by (bit_vector);
            assert((offset & 0xff) == offset % 256) by (bit_vector);
        }
        self.emit_byte(((offset >> 8) & 0xff) as u8);
        self.emit_byte((offset & 0xff) as u8);
    }

    /// Changing the diagnostics alone, consistently with the error flag,
    /// keeps the invariant.
    proof fn lemma_inv_diag(&self, before: &Self)
        requires
            before.inv(),
            self.parser.error_flag_ok(),
            self.parser.scanner == before.parser.scanner,
            self.parser.current == before.parser.current,
            self.parser.previous == before.parser.previous,
            self.function_arena == before.function_arena,
            self.current == before.current,
            self.strings == before.strings,
            self.heap == before.heap,
            self.scope_depth == before.scope_depth,
            self.number_value == before.number_value,
        ensures
            self.inv(),
    {
        assert(self.arena() == before.arena());
    }

    /// Emits a forward jump with a placeholder offset, and gives back where
    /// the offset is, for `patch_jump`.
    fn emit_jump(&mut self, instruction: u8) -> (res: usize)
        requires
            old(self).inv(),
        ensures
            final(self).inv(),
            old(self).evolves_to(&*final(self)),
            only_chunk_changes(&*old(self), &*final(self)),
            final(self).code() == old(self).code().push(instruction).push(0xff).push(0xff),
            res + 2 == final(self).code().len(),
            final(self).current.function.chunk.constants == old(self).current.function.chunk.constants,
    {
        self.emit_byte(instruction);
        self.emit_byte(0xff);
        self.emit_byte(0xff);
        self.current.function.chunk.code.len() - 2
    }

    /// Emits an implicit `return nil`.
    fn emit_return(&mut self)
        requires
            old(self).inv(),
        ensures
            final(self).inv(),
            old(self).evolves_to(&*final(self)),
            only_chunk_changes(&*old(self), &*final(self)),
            final(self).code() == old(self).code().push(OP_NIL).push(OP_RETURN),
            final(self).current.function.chunk.constants == old(self).current.function.chunk.constants,
    {
        self.emit_byte(OP_NIL);
        self.emit_byte(OP_RETURN);
    }

    /// Adds `value` to the current function's constants and gives back its
    /// index as an operand byte; past 255 constants it reports an error and gives 0.
    fn make_constant(&mut self, value: Value) -> (res: u8)
        requires
            old(self).inv(),
            value_live(old(self).heap, value),
        ensures
            final(self).inv(),
            old(self).evolves_to(&*final(self)),
            final(self).code() == old(self).code(),
            final(self).current.function.chunk.constants.values@ == old(self).current.function.chunk.constants.values@.push(value),
            old(self).current.function.chunk.constants.values@.len() <= 255 ==> res as int == old(self).current.function.chunk.constants.values@.len(),
            old(self).current.function.chunk.constants.values@.len() > 255 ==> res == 0,
            final(self).heap == old(self).heap,
            final(self).strings == old(self).strings,
            final(self).parser.scanner == old(self).parser.scanner,
            final(self).parser.current == old(self).parser.current,
            final(self).parser.previous == old(self).parser.previous,
            final(self).parser.consumed == old(self).parser.consumed,
            old(self).current.function.chunk.constants.values@.len() <= 255 ==> final(self).parser == old(self).parser,
            old(self).current.function.chunk.constants.values@.len() > 255 ==> final(self).parser.had_error,
            final(self).current.locals == old(self).current.locals,
            final(self).function_arena == old(self).function_arena,
            final(self).current.function.arity == old(self).current.function.arity,
    {
        let constant = self.current.function.chunk.add_constant(value);
        proof {
            assert(self.arena()[self.arena().len() - 1] == self.current);
            assert forall|i: int| 0 <= i < self.arena().len() implies scope_ok(#[trigger] self.arena()[i], self.src_len(), self.heap) by {
                if i < self.function_arena@.len() {
                    assert(self.arena()[i] == old(self).arena()[i]);
                } else {
                    assert(old(self).arena()[i] == old(self).current);
                    let cs = self.current.function.chunk.constants.values@;
                    assert forall|k: int| 0 <= k < cs.len() implies value_live(self.heap, #[trigger] cs[k]) by {
                        if k < cs.len() - 1 {
                            assert(cs[k] == old(self).current.function.chunk.constants.values@[k]);
                        }
                    }
                }
            }
        }
        if constant > 255 {
            let ghost mid = *self;
            self.parser.error("Too many constants in one chunk.".to_string());
            proof {
                self.lemma_inv_diag(&mid);
            }
            return 0;
        }
        constant as u8
    }

    /// Emits code that loads `value`.
    fn emit_constant(&mut self, value: Value)
        requires
            old(self).inv(),
            value_live(old(self).heap, value),
        ensures
            final(self).inv(),
            old(self).evolves_to(&*final(self)),
            final(self).code().len() == old(self).code().len() + 2,
            final(self).code()[old(self).code().len() as int] == OP_CONSTANT,
            final(self).current.locals == old(self).current.locals,
            final(self).parser.current == old(self).parser.current,
            final(self).parser.previous == old(self).parser.previous,
            final(self).parser.consumed == old(self).parser.consumed,
            final(self).strings == old(self).strings,
            old(self).emitted_constant(&*final(self), value),
    {
        let constant = self.make_constant(value);
        self.emit_bytes(OP_CONSTANT, constant);
    }

    /// Writes into the jump at `offset` the distance to the end of the code.
    fn patch_jump(&mut self, offset: usize)
        requires
            old(self).inv(),
            offset + 2 <= old(self).code().len(),
        ensures
            final(self).inv(),
            old(self).same_frame(&*final(self)),
            final(self).code().len() == old(self).code().len(),
            final(self).current.locals == old(self).current.locals,
            final(self).parser.current == old(self).parser.current,
            final(self).parser.consumed == old(self).parser.consumed,
            final(self).current.function.arity == old(self).current.function.arity,
            old(self).parser.had_error ==> final(self).parser.had_error,
            old(self).code().len() - offset - 2 > 65535 ==> final(self).parser.had_error,
            ({
                let jump = old(self).code().len() - offset - 2;
                final(self).code() == old(self).code().update(offset as int, ((jump / 256) % 256) as u8).update(
                    offset + 1,
                    (jump % 256) as u8,
                )
            }),
    {
        let jump = self.current.function.chunk.code.len() - offset - 2;
        if jump > 65535 {
            let ghost mid = *self;
            self.parser.error("Too much code to jump over.".to_string());
            proof {
                self.lemma_inv_diag(&mid);
            }
        }
        proof {
            assert(((jump >> 8) & 0xff) == (jump / 256) % 256) by (bit_vector);
            assert((jump & 0xff) == jump % 256) by (bit_vector);
        }
        let hi = ((jump >> 8) & 0xff) as u8;
        let lo = (jump & 0xff) as u8;
        self.current.function.chunk.code.set(offset, hi);
        self.current.function.chunk.code.set(offset + 1, lo);
        proof {
            assert(self.arena()[self.arena().len() - 1] == self.current);
            assert forall|i: int| 0 <= i < self.arena().len() implies scope_ok(#[trigger] self.arena()[i], self.src_len(), self.heap) by {
                if i < self.function_arena@.len() {
                    assert(self.arena()[i] == old(self).arena()[i]);
                } else {
                    assert(old(self).arena()[i] == old(self).current);
                }
            }
        }
    }
}


/// Every string object on `heap` is the one interned for its text.
pub open spec fn interns_all(strings: StringTable, heap: Heap) -> bool {
    interns_all_map(strings.view(), heap)
}

/// Every string object on `heap` is the one `m` holds for its text.
pub open spec fn interns_all_map(m: Map<Seq<char>, Gc>, heap: Heap) -> bool {
    forall|g: Gc|
        #![trigger heap.obj(g)]
        heap.is_live(g) && heap.obj(g).obj_type is String ==> m.contains_key(heap.obj(g).obj_type->String_0@)
            && m[heap.obj(g).obj_type->String_0@] == g
}

/// Interning a string keeps every string object interned.
proof fn lemma_interns_all_intern(m0: Map<Seq<char>, Gc>, h0: Heap, m1: Map<Seq<char>, Gc>, h1: Heap, k: Seq<char>, res: Gc)
    requires
        interns_all_map(m0, h0),
        m1 == m0.insert(k, res),
        m0.contains_key(k) ==> res == m0[k],
        forall|x: Gc| #[trigger] h1.is_live(x) ==> h0.is_live(x) || x == res,
        heap_grows(h0, h1),
        h1.is_live(res),
        h1.obj(res).obj_type matches ObjType::String(t) && t@ == k,
    ensures
        interns_all_map(m1, h1),
{
    assert forall|g: Gc| #![trigger h1.obj(g)] h1.is_live(g) && h1.obj(g).obj_type is String implies m1.contains_key(
        h1.obj(g).obj_type->String_0@,
    ) && m1[h1.obj(g).obj_type->String_0@] == g by {
        if g != res {
            assert(h0.is_live(g));
            assert(h1.obj(g) == h0.obj(g));
            assert(h0.obj(g).obj_type is String);
        }
    }
}

/// Allocating an object that is no string keeps every string object
/// interned.
proof fn lemma_interns_all_new(m: Map<Seq<char>, Gc>, h0: Heap, h1: Heap, g: Gc)
    requires
        interns_all_map(m, h0),
        forall|x: Gc| #![trigger h1.is_live(x)] x != g ==> (h1.is_live(x) == h0.is_live(x) && (h0.is_live(x) ==> h1.obj(x)
            == h0.obj(x))),
        !(h1.obj(g).obj_type is String),
    ensures
        interns_all_map(m, h1),
{
    assert forall|x: Gc| #![trigger h1.obj(x)] h1.is_live(x) && h1.obj(x).obj_type is String implies m.contains_key(
        h1.obj(x).obj_type->String_0@,
    ) && m[h1.obj(x).obj_type->String_0@] == x by {
        assert(x != g);
        assert(h0.is_live(x));
        assert(h0.obj(x).obj_type is String);
    }
}

/// Every string interned in `before` is interned in `after`, as the same
/// object.
pub open spec fn keeps_interned(before: Map<Seq<char>, Gc>, after: Map<Seq<char>, Gc>) -> bool {
    forall|k: Seq<char>| #[trigger] before.contains_key(k) ==> after.contains_key(k) && after[k] == before[k]
}

/// The code from `o` on is a `for` loop, then the pops of its scope. The
/// initializer's code comes first; the condition's starts at `z`. Where
/// there is a condition, its `OP_JUMP_IF_FALSE` at `t` (then `OP_POP`)
/// leaves the loop for the `OP_POP` right after the loop's last `OP_LOOP`.
/// Where there is an increment, an `OP_JUMP` at `b` skips it to the body,
/// and the increment ends with an `OP_LOOP` at `m` back to the condition.
/// The body ends with the `OP_LOOP` at `l` back to `s`: the increment where
/// there is one, else the condition. The loop ends at `e`; after it come
/// only the pops and upvalue closings of the loop's scope.
pub open spec fn for_shape(c: Seq<u8>, o: int) -> bool {
    exists|z: int, s: int, l: int, e: int| #[trigger] for_shape_at(c, o, z, s, l, e)
}

/// `for_shape`, with the condition's start `z`, the target `s` of the last
/// back jump, its `OP_LOOP` at `l` and the end `e` named.
pub open spec fn for_shape_at(c: Seq<u8>, o: int, z: int, s: int, l: int, e: int) -> bool {
    &&& o <= z <= s <= l && l + 3 <= e <= c.len()
    &&& c[l] == OP_LOOP
    &&& (l + 3 - s <= 65535 ==> operand_at(c, l + 1, l + 3 - s))
    &&& (s == z || exists|b: int, m: int|
        #![trigger c[b], c[m]]
        {
            &&& s == b + 3 && z <= b && b + 3 <= m && m + 3 <= l
            &&& c[b] == OP_JUMP && operand_at(c, b + 1, m - b)
            &&& c[m] == OP_LOOP && (m + 3 - z <= 65535 ==> operand_at(c, m + 1, m + 3 - z))
        })
    &&& (e == l + 3 || (e == l + 4 && c[l + 3] == OP_POP && exists|t: int|
        #![trigger c[t]]
        z <= t && t + 4 <= l && (s == z || t + 7 <= s) && c[t] == OP_JUMP_IF_FALSE && operand_at(c, t + 1, l - t)
            && c[t + 3] == OP_POP))
    &&& forall|j: int| e <= j < c.len() ==> #[trigger] c[j] == OP_POP || c[j] == OP_CLOSE_UPVALUE
}

/// The layout `for_shape` describes, from its parts.
proof fn lemma_for_shape(c: Seq<u8>, o: int, z: int, s: int, l: int, e: int, t: Option<int>, inc: Option<(int, int)>)
    requires
        o <= z <= s <= l,
        l + 3 <= e <= c.len(),
        c[l] == OP_LOOP,
        l + 3 - s <= 65535 ==> operand_at(c, l + 1, l + 3 - s),
        match inc {
            None => s == z,
            Some((b, m)) => {
                &&& s == b + 3 && z <= b && b + 3 <= m && m + 3 <= l
                &&& c[b] == OP_JUMP && operand_at(c, b + 1, m - b)
                &&& c[m] == OP_LOOP && (m + 3 - z <= 65535 ==> operand_at(c, m + 1, m + 3 - z))
            },
        },
        match t {
            None => e == l + 3,
            Some(t) => {
                &&& e == l + 4 && c[l + 3] == OP_POP
                &&& z <= t && t + 4 <= l && (s == z || t + 7 <= s)
                &&& c[t] == OP_JUMP_IF_FALSE && operand_at(c, t + 1, l - t) && c[t + 3] == OP_POP
            },
        },
        forall|j: int| e <= j < c.len() ==> #[trigger] c[j] == OP_POP || c[j] == OP_CLOSE_UPVALUE,
    ensures
        for_shape(c, o),
{
    if let Some(t) = t {
        assert(c[t] == OP_JUMP_IF_FALSE);
    }
    if let Some((b, m)) = inc {
        assert(c[b] == OP_JUMP && c[m] == OP_LOOP);
    }
    assert(for_shape_at(c, o, z, s, l, e));
}

/// The code that takes `ls` off the stack, innermost (last) first: for each
/// local, `OP_CLOSE_UPVALUE` where a closure captured it, else `OP_POP`.
pub open spec fn closing_code(ls: Seq<Local>) -> Seq<u8>
    decreases ls.len(),
{
    if ls.len() == 0 {
        Seq::empty()
    } else {
        closing_code(ls.drop_first()).push(if ls[0].is_captured { OP_CLOSE_UPVALUE } else { OP_POP })
    }
}

/// How a token changes the nesting of parentheses.
pub open spec fn paren_step(t: Token) -> int {
    if t.token_type == TokenType::LeftParen {
        1
    } else if t.token_type == TokenType::RightParen {
        -1
    } else {
        0
    }
}

/// The nesting of parentheses after `ts`: opened less closed.
pub open spec fn paren_depth(ts: Seq<Token>) -> int
    decreases ts.len(),
{
    if ts.len() == 0 {
        0
    } else {
        paren_depth(ts.drop_last()) + paren_step(ts.last())
    }
}

/// Starting at nesting `d`, no prefix of `ts` closes more parentheses than
/// are open.
pub open spec fn nested_from(ts: Seq<Token>, d: int) -> bool
    decreases ts.len(),
{
    ts.len() == 0 || (nested_from(ts.drop_last(), d) && d + paren_depth(ts) >= 0)
}

/// The commas of `ts` outside all parentheses, starting at nesting `d`.
pub open spec fn top_commas_from(ts: Seq<Token>, d: int) -> nat
    decreases ts.len(),
{
    if ts.len() == 0 {
        0
    } else {
        top_commas_from(ts.drop_last(), d) + (if ts.last().token_type == TokenType::Comma && d + paren_depth(ts.drop_last())
            == 0 {
            1nat
        } else {
            0nat
        })
    }
}

/// `ts` can be the tokens of one expression: its parentheses match, and
/// no comma stands outside them.
pub open spec fn expression_tokens(ts: Seq<Token>) -> bool {
    nested_from(ts, 0) && paren_depth(ts) == 0 && top_commas_from(ts, 0) == 0
}

/// `ts` close a parenthesis: balanced tokens, then `)`.
pub open spec fn group_tokens(ts: Seq<Token>) -> bool {
    &&& ts.len() >= 1
    &&& ts.last().token_type == TokenType::RightParen
    &&& nested_from(ts.drop_last(), 0)
    &&& paren_depth(ts.drop_last()) == 0
}

/// `ts` are the tokens of an argument list up to its `)`, which holds
/// `count` arguments: none before a `)` right away, else one more than the
/// commas between the arguments.
pub open spec fn argument_tokens(ts: Seq<Token>, count: nat) -> bool {
    &&& group_tokens(ts)
    &&& count == (if ts.len() == 1 { 0 } else { top_commas_from(ts.drop_last(), 0) + 1 })
}

/// The identifiers among `ts`.
pub open spec fn identifier_count(ts: Seq<Token>) -> nat
    decreases ts.len(),
{
    if ts.len() == 0 {
        0
    } else {
        (if ts[0].token_type == TokenType::Identifier { 1nat } else { 0nat }) + identifier_count(ts.drop_first())
    }
}

/// The parameters of a parameter list whose tokens start `ts`: the
/// identifiers before the first `)`.
pub open spec fn parameter_count(ts: Seq<Token>) -> nat
    decreases ts.len(),
{
    if ts.len() == 0 || ts[0].token_type == TokenType::RightParen {
        0
    } else {
        (if ts[0].token_type == TokenType::Identifier { 1nat } else { 0nat }) + parameter_count(ts.drop_first())
    }
}

/// How nesting, balance and outer commas of two runs of tokens combine.
proof fn lemma_tokens_concat(a: Seq<Token>, b: Seq<Token>, d: int)
    ensures
        paren_depth(a + b) == paren_depth(a) + paren_depth(b),
        nested_from(a + b, d) == (nested_from(a, d) && nested_from(b, d + paren_depth(a))),
        top_commas_from(a + b, d) == top_commas_from(a, d) + top_commas_from(b, d + paren_depth(a)),
    decreases b.len(),
{
    if b.len() == 0 {
        assert(a + b =~= a);
    } else {
        lemma_tokens_concat(a, b.drop_last(), d);
        assert((a + b).drop_last() =~= a + b.drop_last());
        assert((a + b).last() == b.last());
    }
}

/// Nesting from a deeper start stays nested.
proof fn lemma_nested_deeper(b: Seq<Token>, d1: int, d2: int)
    requires
        nested_from(b, d1),
        d1 <= d2,
    ensures
        nested_from(b, d2),
    decreases b.len(),
{
    if b.len() > 0 {
        lemma_nested_deeper(b.drop_last(), d1, d2);
    }
}

/// Inside a parenthesis, no comma is outside all parentheses.
proof fn lemma_no_outer_commas(b: Seq<Token>, d: int)
    requires
        nested_from(b, 0),
        d >= 1,
    ensures
        top_commas_from(b, d) == 0,
    decreases b.len(),
{
    if b.len() > 0 {
        lemma_no_outer_commas(b.drop_last(), d);
        if b.drop_last().len() > 0 {
            assert(paren_depth(b.drop_last()) >= 0);
        }
    }
}

/// One token that is no parenthesis and no comma is an expression's tokens.
proof fn lemma_single_token(t: Token)
    requires
        t.token_type != TokenType::LeftParen,
        t.token_type != TokenType::RightParen,
        t.token_type != TokenType::Comma,
    ensures
        expression_tokens(seq![t]),
{
    let e = Seq::<Token>::empty();
    assert(seq![t].drop_last() =~= e);
    assert(seq![t].last() == t);
    assert(paren_depth(e) == 0);
    assert(paren_depth(seq![t]) == 0);
    assert(nested_from(e, 0));
    assert(nested_from(seq![t], 0));
    assert(top_commas_from(e, 0) == 0);
    assert(top_commas_from(seq![t], 0) == 0);
}

/// A comma alone: balanced, and outside all parentheses.
proof fn lemma_comma_token(t: Token)
    requires
        t.token_type == TokenType::Comma,
    ensures
        paren_depth(seq![t]) == 0,
        nested_from(seq![t], 0),
        top_commas_from(seq![t], 0) == 1,
{
    let e = Seq::<Token>::empty();
    assert(seq![t].drop_last() =~= e);
    assert(seq![t].last() == t);
    assert(paren_depth(e) == 0 && nested_from(e, 0) && top_commas_from(e, 0) == 0);
}

/// Only a token with an infix rule binds at some precedence.
proof fn lemma_infix_present(t: TokenType)
    requires
        spec_level(rule_of(t).precedence) >= 1,
    ensures
        rule_of(t).infix is Some,
{
}

/// The empty run is an expression's tokens (of no expression).
proof fn lemma_no_tokens()
    ensures
        expression_tokens(Seq::<Token>::empty()),
{
}

/// Two expressions' tokens one after the other.
proof fn lemma_expression_concat(a: Seq<Token>, b: Seq<Token>)
    requires
        expression_tokens(a),
        expression_tokens(b),
    ensures
        expression_tokens(a + b),
{
    lemma_tokens_concat(a, b, 0);
}

/// Parentheses around balanced tokens make an expression's tokens.
proof fn lemma_wrapped(lp: Token, b: Seq<Token>, rp: Token)
    requires
        lp.token_type == TokenType::LeftParen,
        rp.token_type == TokenType::RightParen,
        nested_from(b, 0),
        paren_depth(b) == 0,
    ensures
        expression_tokens(seq![lp] + b + seq![rp]),
{
    let e = Seq::<Token>::empty();
    assert(seq![lp].drop_last() =~= e);
    assert(seq![rp].drop_last() =~= e);
    assert(seq![lp].last() == lp);
    assert(seq![rp].last() == rp);
    assert(paren_depth(e) == 0 && nested_from(e, 0) && nested_from(e, 1) && top_commas_from(e, 0) == 0 && top_commas_from(e, 1) == 0);
    assert(paren_depth(seq![lp]) == 1);
    assert(paren_depth(seq![rp]) == -1);
    assert(nested_from(seq![lp], 0));
    assert(nested_from(seq![rp], 1));
    assert(top_commas_from(seq![lp], 0) == 0);
    assert(top_commas_from(seq![rp], 1) == 0);
    lemma_tokens_concat(seq![lp], b, 0);
    lemma_nested_deeper(b, 0, 1);
    lemma_no_outer_commas(b, 1);
    lemma_tokens_concat(seq![lp] + b, seq![rp], 0);
}

/// The tokens read from `a` to `c` are those from `a` to `b`, then those
/// from `b` to `c`.
proof fn lemma_read_split(a: Seq<Token>, b: Seq<Token>, c: Seq<Token>)
    requires
        prefix_of(a, b),
        prefix_of(b, c),
    ensures
        prefix_of(a, c),
        c.subrange(a.len() as int, c.len() as int) == b.subrange(a.len() as int, b.len() as int) + c.subrange(
            b.len() as int,
            c.len() as int,
        ),
{
    assert(c.subrange(a.len() as int, c.len() as int) =~= b.subrange(a.len() as int, b.len() as int) + c.subrange(
        b.len() as int,
        c.len() as int,
    ));
}

/// Counting parameters past a run with no `)`.
proof fn lemma_parameters_after(a: Seq<Token>, b: Seq<Token>)
    requires
        forall|i: int| 0 <= i < a.len() ==> (#[trigger] a[i]).token_type != TokenType::RightParen,
    ensures
        parameter_count(a + b) == identifier_count(a) + parameter_count(b),
    decreases a.len(),
{
    if a.len() == 0 {
        assert(a + b =~= b);
    } else {
        assert((a + b).drop_first() =~= a.drop_first() + b);
        assert((a + b)[0] == a[0]);
        lemma_parameters_after(a.drop_first(), b);
    }
}

/// Counting identifiers of a run grown by one token.
proof fn lemma_identifiers_push(a: Seq<Token>, t: Token)
    ensures
        identifier_count(a.push(t)) == identifier_count(a) + (if t.token_type == TokenType::Identifier { 1nat } else { 0nat }),
    decreases a.len(),
{
    if a.len() == 0 {
        assert(a.push(t).drop_first() =~= Seq::<Token>::empty());
        assert(a.push(t)[0] == t);
        assert(identifier_count(Seq::<Token>::empty()) == 0);
    } else {
        assert(a.push(t).drop_first() =~= a.drop_first().push(t));
        assert(a.push(t)[0] == a[0]);
        lemma_identifiers_push(a.drop_first(), t);
    }
}

/// A token that can end an operand: a name, a literal, or `)`.
pub open spec fn ends_operand(t: TokenType) -> bool {
    t == TokenType::Identifier || t == TokenType::Number || t == TokenType::String || t == TokenType::True || t
        == TokenType::False || t == TokenType::Nil || t == TokenType::RightParen
}

/// In `ts`, every operator that stands outside all parentheses right after
/// an operand, where it joins two operands, binds at least at `level`: so
/// `ts` is one operand of an operator that binds less tightly than `level`,
/// and takes in no operator of that operator's own precedence or lower.
#[verifier::opaque]
pub open spec fn operators_bind_from(ts: Seq<Token>, level: int) -> bool {
    forall|i: int|
        0 < i < ts.len() && paren_depth(ts.take(i)) == 0 && ends_operand(ts[i - 1].token_type) && rule_of(
            #[trigger] ts[i].token_type,
        ).infix is Some ==> spec_level(rule_of(ts[i].token_type).precedence) >= level
}

/// How tightly the operators inside what a parsing function reads bind, at
/// least: above the operator's own precedence for a binary operator's
/// right operand; `and`, `or` and prefix operators at their own.
pub open spec fn binds_at_least(f: ParseFn, t: TokenType, can_assign: bool) -> int {
    match f {
        ParseFn::Binary => spec_level(rule_of(t).precedence) + 1,
        ParseFn::And => spec_level(Precedence::And) as int,
        ParseFn::Or => spec_level(Precedence::Or) as int,
        ParseFn::Unary => spec_level(Precedence::Unary) as int,
        ParseFn::Variable => if can_assign {
            spec_level(Precedence::Assignment) as int
        } else {
            spec_level(Precedence::Call) as int
        },
        _ => spec_level(Precedence::Call) as int,
    }
}

/// Binary operators of one precedence associate to the left: the right
/// operand of a binary operator, as `binary` reads it, takes in no operator
/// of that operator's precedence or lower, so in `a - b - c` the operand of
/// the first `-` ends before the second, which then applies to `a - b`.
pub proof fn lemma_right_operand_takes_no_equal_operator(ts: Seq<Token>, op: TokenType, i: int)
    requires
        operators_bind_from(ts, spec_level(rule_of(op).precedence) + 1),
        0 < i < ts.len(),
        paren_depth(ts.take(i)) == 0,
        ends_operand(ts[i - 1].token_type),
        rule_of(ts[i].token_type).infix is Some,
    ensures
        spec_level(rule_of(ts[i].token_type).precedence) > spec_level(rule_of(op).precedence),
        ts[i].token_type != op,
{
    reveal(operators_bind_from);
}

/// Binding at a level binds at every lower level.
proof fn lemma_bind_weaken(ts: Seq<Token>, l1: int, l2: int)
    requires
        operators_bind_from(ts, l1),
        l2 <= l1,
    ensures
        operators_bind_from(ts, l2),
{
    reveal(operators_bind_from);
}

/// A run of at most one token joins no operands.
proof fn lemma_bind_short(ts: Seq<Token>, l: int)
    requires
        ts.len() <= 1,
    ensures
        operators_bind_from(ts, l),
{
    reveal(operators_bind_from);
}

/// One operand after another: the operators of each, and the one that
/// joins them.
#[verifier::rlimit(60)]
proof fn lemma_bind_concat(a: Seq<Token>, b: Seq<Token>, l: int)
    requires
        operators_bind_from(a, l),
        operators_bind_from(b, l),
        paren_depth(a) == 0,
        a.len() >= 1,
        b.len() > 0 && ends_operand(a.last().token_type) && rule_of(b[0].token_type).infix is Some ==> spec_level(
            rule_of(b[0].token_type).precedence,
        ) >= l,
    ensures
        operators_bind_from(a + b, l),
{
    reveal(operators_bind_from);
    let s = a + b;
    assert forall|i: int|
        0 < i < s.len() && paren_depth(s.take(i)) == 0 && ends_operand(s[i - 1].token_type) && rule_of(
            #[trigger] s[i].token_type,
        ).infix is Some implies spec_level(rule_of(s[i].token_type).precedence) >= l by {
        if i < a.len() {
            assert(s.take(i) =~= a.take(i));
            assert(s[i] == a[i]);
            assert(s[i - 1] == a[i - 1]);
        } else if i == a.len() {
            assert(s[i] == b[0]);
            assert(s[i - 1] == a.last());
        } else {
            let j = i - a.len();
            assert(s.take(i) =~= a + b.take(j));
            lemma_tokens_concat(a, b.take(j), 0);
            assert(s[i] == b[j]);
            assert(s[i - 1] == b[j - 1]);
        }
    }
}

/// Every prefix of a nested run stays nested.
proof fn lemma_nested_prefix(b: Seq<Token>, d: int, k: int)
    requires
        nested_from(b, d),
        0 <= k <= b.len(),
        d >= 0,
    ensures
        d + paren_depth(b.take(k)) >= 0,
    decreases b.len(),
{
    if k == b.len() {
        assert(b.take(k) =~= b);
    } else {
        assert(b.take(k) =~= b.drop_last().take(k));
        lemma_nested_prefix(b.drop_last(), d, k);
    }
}

/// Inside parentheses nothing stands outside all parentheses.
proof fn lemma_bind_wrapped(lp: Token, b: Seq<Token>, rp: Token, l: int)
    requires
        lp.token_type == TokenType::LeftParen,
        nested_from(b, 0),
        paren_depth(b) == 0,
    ensures
        operators_bind_from(seq![lp] + b + seq![rp], l),
{
    reveal(operators_bind_from);
    let s = seq![lp] + b + seq![rp];
    assert(seq![lp].drop_last() =~= Seq::<Token>::empty());
    assert(seq![lp].last() == lp);
    assert(paren_depth(Seq::<Token>::empty()) == 0);
    assert(paren_depth(seq![lp]) == 1);
    assert forall|i: int|
        0 < i < s.len() && paren_depth(s.take(i)) == 0 && ends_operand(s[i - 1].token_type) && rule_of(
            #[trigger] s[i].token_type,
        ).infix is Some implies spec_level(rule_of(s[i].token_type).precedence) >= l by {
        assert(s.take(i) =~= seq![lp] + b.take(i - 1));
        lemma_tokens_concat(seq![lp], b.take(i - 1), 0);
        lemma_nested_prefix(b, 0, i - 1);
    }
}

/// `code` ends by returning: `OP_NIL`, `OP_RETURN`, then only the pops
/// and upvalue closings of the function's own locals.
pub open spec fn ends_in_return(code: Seq<u8>) -> bool {
    exists|r: int|
        #![trigger code[r]]
        0 <= r && r + 2 <= code.len() && code[r] == OP_NIL && code[r + 1] == OP_RETURN && forall|j: int|
            r + 2 <= j < code.len() ==> #[trigger] code[j] == OP_POP || code[j] == OP_CLOSE_UPVALUE
}

/// The text of a token.
pub open spec fn token_text(src: Seq<char>, t: Token) -> Seq<char> {
    lexeme(src, t.start as int, t.length as int)
}

impl<F: Fn(&str) -> u64> Compiler<F> {
    /// `after` differs from `self` at most in the parser's diagnostics,
    /// error flag and panic mode.
    pub closed spec fn only_reports(&self, after: &Self) -> bool {
        &&& after.parser.consumed == self.parser.consumed
        &&& after.parser.scanner == self.parser.scanner
        &&& after.parser.current == self.parser.current
        &&& after.parser.previous == self.parser.previous
        &&& self.parser.only_appends_errors(&after.parser)
        &&& after.function_arena == self.function_arena
        &&& after.current == self.current
        &&& after.strings == self.strings
        &&& after.heap == self.heap
        &&& after.scope_depth == self.scope_depth
        &&& after.number_value == self.number_value
    }

    /// Opens a block scope.
    fn begin_scope(&mut self)
        requires
            old(self).inv(),
            old(self).scope_depth + old(self).parser.progress() < old(self).src_len() + 1,
        ensures
            final(self).inv(),
            final(self).scope_depth == old(self).scope_depth + 1,
            final(self).parser == old(self).parser,
            final(self).current == old(self).current,
            final(self).function_arena == old(self).function_arena,
            final(self).heap == old(self).heap,
            final(self).strings == old(self).strings,
            final(self).number_value == old(self).number_value,
    {
        self.scope_depth = self.scope_depth + 1;
        proof {
            assert(self.arena() == old(self).arena());
        }
    }

    /// Closes a block scope: the locals declared in it leave the stack, by
    /// `OP_CLOSE_UPVALUE` where a closure captured them and `OP_POP`
    /// otherwise, innermost first.
    fn end_scope(&mut self)
        requires
            old(self).inv(),
            old(self).scope_depth >= 1,
            old(self).function_arena@.len() <= old(self).scope_depth,
        ensures
            final(self).inv(),
            final(self).scope_depth == old(self).scope_depth - 1,
            final(self).function_arena == old(self).function_arena,
            final(self).parser.scanner.source == old(self).parser.scanner.source,
            final(self).current.function_type == old(self).current.function_type,
            final(self).code().len() >= old(self).code().len(),
            forall|i: int| 0 <= i < old(self).code().len() ==> #[trigger] final(self).code()[i] == old(self).code()[i],
            final(self).parser.progress() == old(self).parser.progress(),
            final(self).parser.scanner.source == old(self).parser.scanner.source,
            old(self).parser.had_error ==> final(self).parser.had_error,
            final(self).strings == old(self).strings,
            final(self).current.function.name == old(self).current.function.name,
            final(self).current.function.arity == old(self).current.function.arity,
            forall|i: int| old(self).code().len() <= i < final(self).code().len() ==> #[trigger] final(self).code()[i] == OP_POP
                || final(self).code()[i] == OP_CLOSE_UPVALUE,
            final(self).current.locals@.len() <= old(self).current.locals@.len(),
            forall|i: int| 0 <= i < final(self).current.locals@.len() ==> #[trigger] final(self).current.locals@[i]
                == old(self).current.locals@[i],
            final(self).current.locals@.len() < old(self).current.locals@.len() ==> old(self).current.locals@[final(self).current.locals@.len() as int].depth > final(self).scope_depth,
            ({
                let n = final(self).current.locals@.len();
                let ls = old(self).current.locals@;
                &&& final(self).current.locals@ == ls.subrange(0, n as int)
                &&& (n == 0 || ls[n - 1].depth <= final(self).scope_depth)
                &&& forall|k: int| n <= k < ls.len() ==> #[trigger] ls[k].depth > final(self).scope_depth
                &&& final(self).code() == old(self).code() + closing_code(ls.subrange(n as int, ls.len() as int))
            }),
            final(self).parser == old(self).parser,
    {
        self.scope_depth = self.scope_depth - 1;
        proof {
            assert(self.arena() == old(self).arena());
            let ls = old(self).current.locals@;
            assert(ls.subrange(0, ls.len() as int) =~= ls);
            assert(ls.subrange(ls.len() as int, ls.len() as int) =~= Seq::<Local>::empty());
            assert(self.code() =~= old(self).code() + Seq::<u8>::empty());
        }
        while self.current.locals.len() > 0 && self.current.locals[self.current.locals.len() - 1].depth > self.scope_depth
            invariant
                self.inv(),
                self.scope_depth == old(self).scope_depth - 1,
                self.function_arena == old(self).function_arena,
                self.parser.scanner.source == old(self).parser.scanner.source,
                self.current.function_type == old(self).current.function_type,
                self.code().len() >= old(self).code().len(),
                forall|i: int| 0 <= i < old(self).code().len() ==> #[trigger] self.code()[i] == old(self).code()[i],
                self.parser.progress() == old(self).parser.progress(),
                self.parser == old(self).parser,
                self.strings == old(self).strings,
                self.current.function.name == old(self).current.function.name,
                self.current.function.arity == old(self).current.function.arity,
                self.current.locals@ == old(self).current.locals@.subrange(0, self.current.locals@.len() as int),
                self.code() == old(self).code() + closing_code(
                    old(self).current.locals@.subrange(self.current.locals@.len() as int, old(self).current.locals@.len() as int),
                ),
                forall|i: int| old(self).code().len() <= i < self.code().len() ==> #[trigger] self.code()[i] == OP_POP
                    || self.code()[i] == OP_CLOSE_UPVALUE,
                self.current.locals@.len() <= old(self).current.locals@.len(),
                forall|i: int| 0 <= i < self.current.locals@.len() ==> #[trigger] self.current.locals@[i]
                    == old(self).current.locals@[i],
                forall|i: int| self.current.locals@.len() <= i < old(self).current.locals@.len() ==> (#[trigger] old(self).current.locals@[i]).depth
                    > self.scope_depth,
            decreases self.current.locals@.len(),
        {
            let captured = self.current.locals[self.current.locals.len() - 1].is_captured;
            if captured {
                self.emit_byte(OP_CLOSE_UPVALUE);
            } else {
                self.emit_byte(OP_POP);
            }
            let ghost before = *self;
            proof {
                assert(before.arena()[before.arena().len() - 1] == before.current);
                assert(scope_ok(before.current, before.src_len(), before.heap));
                assert(before.current.locals@.len() >= 2);
            }
            let _ = self.current.locals.pop();
            proof {
                let ls = old(self).current.locals@;
                let m = self.current.locals@.len() as int;
                assert(ls.subrange(m, ls.len() as int).drop_first() =~= ls.subrange(m + 1, ls.len() as int));
                assert(ls.subrange(m, ls.len() as int)[0] == ls[m]);
                assert(before.current.locals@[m] == ls[m]);
                assert(self.current.locals@ =~= ls.subrange(0, m));
                assert(self.current.locals@[0] == before.current.locals@[0]);
                assert forall|i: int| 0 <= i < self.arena().len() implies scope_ok(#[trigger] self.arena()[i], self.src_len(), self.heap) by {
                    if i < self.function_arena@.len() {
                        assert(self.arena()[i] == before.arena()[i]);
                    } else {
                        assert(before.arena()[i] == before.current);
                        assert forall|j: int| 0 <= j < self.current.locals@.len() implies token_in(#[trigger] self.current.locals@[j].name, self.src_len()) by {
                            assert(self.current.locals@[j] == before.current.locals@[j]);
                        }
                    }
                }
            }
        }
        proof {
            if self.current.locals@.len() < old(self).current.locals@.len() {
                let n = self.current.locals@.len() as int;
                assert(old(self).current.locals@[n].depth > self.scope_depth);
            }
        }
    }
}


impl<F: Fn(&str) -> u64> Compiler<F> {
    /// The number of function scopes.
    fn arena_len(&self) -> (res: usize)
        requires
            self.inv(),
        ensures
            res == self.arena().len(),
    {
        self.function_arena.len() + 1
    }

    /// The function scope at `i`, innermost last.
    fn scope_at(&self, i: usize) -> (res: &FunctionScope)
        requires
            self.inv(),
            i < self.arena().len(),
        ensures
            *res == self.arena()[i as int],
    {
        if i == self.function_arena.len() {
            &self.current
        } else {
            &self.function_arena[i]
        }
    }

    /// Whether the two tokens spell the same name.
    fn identifiers_equal(&self, a: &Token, b: &Token) -> (res: bool)
        requires
            self.inv(),
            token_in(*a, self.src_len()),
            token_in(*b, self.src_len()),
        ensures
            res == (token_text(self.parser.scanner.source@, *a) == token_text(self.parser.scanner.source@, *b)),
    {
        if a.length != b.length {
            proof {
                assert(token_text(self.parser.scanner.source@, *a).len() != token_text(self.parser.scanner.source@, *b).len());
            }
            return false;
        }
        let x = self.parser.scanner.get_source(a.start, a.length);
        let y = self.parser.scanner.get_source(b.start, b.length);
        x == y
    }

    /// The slot of the innermost local of the function at `arena_index`
    /// named as `name`, if there is one. Reading a local inside its own
    /// initializer is reported.
    fn resolve_local(&mut self, name: &Token, arena_index: usize) -> (res: Option<usize>)
        requires
            old(self).inv(),
            token_in(*name, old(self).src_len()),
            arena_index < old(self).arena().len(),
        ensures
            final(self).inv(),
            old(self).only_reports(&*final(self)),
            ({
                let locals = old(self).arena()[arena_index as int].locals@;
                let src = old(self).parser.scanner.source@;
                match res {
                    Some(i) => i < locals.len() && (locals[i as int].depth == -1 ==> final(self).parser.had_error)
                        && token_text(src, locals[i as int].name) == token_text(src, *name)
                        && forall|j: int| i < j < locals.len() ==> token_text(src, #[trigger] locals[j].name) != token_text(src, *name),
                    None => forall|j: int| 0 <= j < locals.len() ==> token_text(src, #[trigger] locals[j].name) != token_text(src, *name),
                }
            }),
            !(res matches Some(i) && old(self).arena()[arena_index as int].locals@[i as int].depth == -1) ==> *final(self) == *old(self),
    {
        let n = self.scope_at(arena_index).locals.len();
        let mut i = n;
        proof {
            old(self).parser.lemma_appends_refl();
            assert(self.arena()[arena_index as int] == old(self).arena()[arena_index as int]);
        }
        while i > 0
            invariant
                self.inv(),
                old(self).only_reports(&*self),
                *self == *old(self),
                i <= n,
                n == old(self).arena()[arena_index as int].locals@.len(),
                arena_index < old(self).arena().len(),
                token_in(*name, old(self).src_len()),
                forall|j: int| i <= j < n ==> token_text(old(self).parser.scanner.source@, #[trigger] old(self).arena()[arena_index as int].locals@[j].name)
                    != token_text(old(self).parser.scanner.source@, *name),
            decreases i,
        {
            i = i - 1;
            proof {
                assert(self.arena() == old(self).arena());
                assert(scope_ok(self.arena()[arena_index as int], self.src_len(), self.heap));
            }
            let local_name = self.scope_at(arena_index).locals[i].name.clone();
            let depth = self.scope_at(arena_index).locals[i].depth;
            proof {
                assert(depth == old(self).arena()[arena_index as int].locals@[i as int].depth);
            }
            if self.identifiers_equal(name, &local_name) {
                if depth == -1 {
                    let ghost mid = *self;
                    self.parser.error("Cannot read local variable in its own initializer.".to_string());
                    proof {
                        self.lemma_inv_diag(&mid);
                        old(self).parser.lemma_appends_trans(&mid.parser, &self.parser);
                    }
                }
                return Some(i);
            }
        }
        None
    }

    /// Marks local `local_index` of the function at `arena_index` as
    /// captured by a closure.
    fn set_captured(&mut self, arena_index: usize, local_index: usize)
        requires
            old(self).inv(),
            arena_index < old(self).arena().len(),
            local_index < old(self).arena()[arena_index as int].locals@.len(),
        ensures
            final(self).inv(),
            final(self).parser == old(self).parser,
            final(self).heap == old(self).heap,
            final(self).strings == old(self).strings,
            final(self).scope_depth == old(self).scope_depth,
            final(self).number_value == old(self).number_value,
            final(self).function_arena@.len() == old(self).function_arena@.len(),
            final(self).arena().len() == old(self).arena().len(),
            forall|k: int| 0 <= k < old(self).arena().len() && k != arena_index ==> #[trigger] final(self).arena()[k] == old(self).arena()[k],
            ({
                let a = old(self).arena()[arena_index as int];
                let b = final(self).arena()[arena_index as int];
                &&& b.function == a.function
                &&& b.function_type == a.function_type
                &&& b.upvalues == a.upvalues
                &&& b.locals@.len() == a.locals@.len()
                &&& forall|j: int| 0 <= j < a.locals@.len() && j != local_index ==> #[trigger] b.locals@[j] == a.locals@[j]
                &&& b.locals@[local_index as int].name == a.locals@[local_index as int].name
                &&& b.locals@[local_index as int].depth == a.locals@[local_index as int].depth
                &&& b.locals@[local_index as int].is_captured
            }),
    {
        if arena_index == self.function_arena.len() {
            let mut l = self.current.locals.remove(local_index);
            l.is_captured = true;
            self.current.locals.insert(local_index, l);
        } else {
            let mut sc = self.function_arena.remove(arena_index);
            let mut l = sc.locals.remove(local_index);
            l.is_captured = true;
            sc.locals.insert(local_index, l);
            self.function_arena.insert(arena_index, sc);
        }
        proof {
            assert forall|k: int| 0 <= k < old(self).arena().len() && k != arena_index implies #[trigger] self.arena()[k] == old(self).arena()[k] by {
            }
            assert forall|k: int| 0 <= k < self.arena().len() implies scope_ok(#[trigger] self.arena()[k], self.src_len(), self.heap) by {
                assert(scope_ok(old(self).arena()[k], self.src_len(), self.heap));
                if k == arena_index {
                    let a = old(self).arena()[k];
                    let b = self.arena()[k];
                    assert forall|j: int| 0 <= j < b.locals@.len() implies token_in(#[trigger] b.locals@[j].name, self.src_len()) by {
                        assert(token_in(a.locals@[j].name, self.src_len()));
                    }
                    if local_index != 0 {
                        assert(b.locals@[0] == a.locals@[0]);
                    }
                }
            }
        }
    }
}


/// Some function below `below` in the scope stack has a local named as `name`.
pub open spec fn named_in_enclosing(arena: Seq<FunctionScope>, src: Seq<char>, name: Token, below: int) -> bool {
    exists|k: int, j: int|
        0 <= k < below && 0 <= j < arena[k].locals@.len() && token_text(src, #[trigger] arena[k].locals@[j].name)
            == token_text(src, name)
}

/// No function of `arena` has more upvalues than an operand byte can name.
pub open spec fn upvalues_fit(arena: Seq<FunctionScope>) -> bool {
    forall|k: int| 0 <= k < arena.len() ==> (#[trigger] arena[k]).upvalues@.len() <= 256
}

/// Upvalue `i` of the function at `k` in `arena` captures the variable
/// named as `name`: its descriptor leads, through the upvalues of the
/// functions in between, to the innermost local of that name of an
/// enclosing function.
pub open spec fn captures(arena: Seq<FunctionScope>, src: Seq<char>, k: int, i: int, name: Token) -> bool
    decreases k,
{
    if 1 <= k < arena.len() && 0 <= i < arena[k].upvalues@.len() {
        let u = arena[k].upvalues@[i];
        if u.is_local {
            innermost_local(arena[k - 1].locals@, src, name, u.index as int)
        } else {
            captures(arena, src, k - 1, u.index as int, name)
        }
    } else {
        false
    }
}

/// `b` keeps what `captures` reads of `a`: the same functions, each with
/// its upvalues kept (and maybe more) and its locals' names kept.
pub open spec fn keeps_captures(a: Seq<FunctionScope>, b: Seq<FunctionScope>) -> bool {
    &&& b.len() == a.len()
    &&& forall|k: int| 0 <= k < a.len() ==> {
        let x = #[trigger] a[k];
        let y = b[k];
        &&& x.upvalues@.len() <= y.upvalues@.len()
        &&& (forall|i: int| 0 <= i < x.upvalues@.len() ==> #[trigger] y.upvalues@[i] == x.upvalues@[i])
        &&& y.locals@.len() == x.locals@.len()
        &&& (forall|j: int| 0 <= j < x.locals@.len() ==> (#[trigger] y.locals@[j]).name == x.locals@[j].name)
    }
}

/// An upvalue stands for one variable: if upvalue `i` of a function
/// captures a variable named as `n1` and one named as `n2`, the two names
/// are the same. So two variables of different names are never read or
/// written through the same upvalue operand.
pub proof fn lemma_upvalue_names_one_variable(arena: Seq<FunctionScope>, src: Seq<char>, k: int, i: int, n1: Token, n2: Token)
    requires
        captures(arena, src, k, i, n1),
        captures(arena, src, k, i, n2),
    ensures
        token_text(src, n1) == token_text(src, n2),
    decreases k,
{
    let u = arena[k].upvalues@[i];
    if !u.is_local {
        lemma_upvalue_names_one_variable(arena, src, k - 1, u.index as int, n1, n2);
    }
}

/// Every arena keeps what `captures` reads of itself.
proof fn lemma_keeps_captures_refl(a: Seq<FunctionScope>)
    ensures
        keeps_captures(a, a),
{
}

/// Keeping what `captures` reads is transitive.
proof fn lemma_keeps_captures_trans(a: Seq<FunctionScope>, b: Seq<FunctionScope>, c: Seq<FunctionScope>)
    requires
        keeps_captures(a, b),
        keeps_captures(b, c),
    ensures
        keeps_captures(a, c),
{
    assert forall|k: int| 0 <= k < a.len() implies {
        let x = #[trigger] a[k];
        let z = c[k];
        &&& x.upvalues@.len() <= z.upvalues@.len()
        &&& (forall|i: int| 0 <= i < x.upvalues@.len() ==> #[trigger] z.upvalues@[i] == x.upvalues@[i])
        &&& z.locals@.len() == x.locals@.len()
        &&& (forall|j: int| 0 <= j < x.locals@.len() ==> (#[trigger] z.locals@[j]).name == x.locals@[j].name)
    } by {
        let x = a[k];
        let y = b[k];
        let z = c[k];
        assert forall|i: int| 0 <= i < x.upvalues@.len() implies #[trigger] z.upvalues@[i] == x.upvalues@[i] by {
            assert(y.upvalues@[i] == x.upvalues@[i]);
        }
        assert forall|j: int| 0 <= j < x.locals@.len() implies (#[trigger] z.locals@[j]).name == x.locals@[j].name by {
            assert(y.locals@[j].name == x.locals@[j].name);
        }
    }
}

/// What an upvalue captures stays so while upvalues are only added and
/// locals keep their names.
proof fn lemma_captures_kept(a: Seq<FunctionScope>, b: Seq<FunctionScope>, src: Seq<char>, k: int, i: int, name: Token)
    requires
        captures(a, src, k, i, name),
        keeps_captures(a, b),
    ensures
        captures(b, src, k, i, name),
    decreases k,
{
    let x = a[k];
    let y = b[k];
    assert(y.upvalues@[i] == x.upvalues@[i]);
    let u = x.upvalues@[i];
    if u.is_local {
        let la = a[k - 1].locals@;
        let lb = b[k - 1].locals@;
        assert(lb[u.index as int].name == la[u.index as int].name);
        assert forall|j: int| u.index < j < lb.len() implies token_text(src, #[trigger] lb[j].name) != token_text(src, name) by {
            assert(lb[j].name == la[j].name);
        }
    } else {
        lemma_captures_kept(a, b, src, k - 1, u.index as int, name);
    }
}

impl<F: Fn(&str) -> u64> Compiler<F> {
    /// `after` differs from `self` in resolution bookkeeping only: locals'
    /// capture flags, upvalue lists and counts, and reported errors.
    pub closed spec fn resolution_frame(&self, after: &Self) -> bool {
        &&& keeps_captures(self.arena(), after.arena())
        &&& after.parser.consumed == self.parser.consumed
        &&& after.parser.scanner == self.parser.scanner
        &&& after.parser.current == self.parser.current
        &&& after.parser.previous == self.parser.previous
        &&& self.parser.only_appends_errors(&after.parser)
        &&& after.strings == self.strings
        &&& after.heap == self.heap
        &&& after.scope_depth == self.scope_depth
        &&& after.number_value == self.number_value
        &&& after.function_arena@.len() == self.function_arena@.len()
        &&& forall|k: int| 0 <= k < self.arena().len() ==> {
            let a = #[trigger] self.arena()[k];
            let b = after.arena()[k];
            &&& b.function.chunk == a.function.chunk
            &&& b.function.name == a.function.name
            &&& b.function.arity == a.function.arity
            &&& b.function_type == a.function_type
            &&& b.locals@.len() == a.locals@.len()
            &&& forall|j: int| 0 <= j < a.locals@.len() ==> (#[trigger] b.locals@[j]).name == a.locals@[j].name
                && b.locals@[j].depth == a.locals@[j].depth
        }
    }

    proof fn lemma_frame_refl(&self)
        ensures
            self.resolution_frame(self),
    {
        self.parser.lemma_appends_refl();
        lemma_keeps_captures_refl(self.arena());
    }

    proof fn lemma_frame_trans(&self, b: &Self, c: &Self)
        requires
            self.resolution_frame(b),
            b.resolution_frame(c),
        ensures
            self.resolution_frame(c),
    {
        lemma_keeps_captures_trans(self.arena(), b.arena(), c.arena());
        self.parser.lemma_appends_trans(&b.parser, &c.parser);
        assert forall|k: int| 0 <= k < self.arena().len() implies {
            let a = #[trigger] self.arena()[k];
            let z = c.arena()[k];
            &&& z.function.chunk == a.function.chunk
            &&& z.function.name == a.function.name
            &&& z.function.arity == a.function.arity
            &&& z.function_type == a.function_type
            &&& z.locals@.len() == a.locals@.len()
            &&& forall|j: int| 0 <= j < a.locals@.len() ==> (#[trigger] z.locals@[j]).name == a.locals@[j].name
                && z.locals@[j].depth == a.locals@[j].depth
        } by {
            let y = b.arena()[k];
            assert(y == b.arena()[k]);
            let a = self.arena()[k];
            let z = c.arena()[k];
            assert forall|j: int| 0 <= j < a.locals@.len() implies (#[trigger] z.locals@[j]).name == a.locals@[j].name
                && z.locals@[j].depth == a.locals@[j].depth by {
                assert(y.locals@[j].name == a.locals@[j].name);
            }
        }
    }

    /// The index of the upvalue of the function at `arena_index` that
    /// captures slot `index` (a local slot of the enclosing function when
    /// `is_local`, else one of its upvalues); it is added if not there yet.
    fn add_upvalue(&mut self, index: usize, is_local: bool, arena_index: usize) -> (res: usize)
        requires
            old(self).inv(),
            1 <= arena_index < old(self).arena().len(),
        ensures
            final(self).inv(),
            old(self).resolution_frame(&*final(self)),
            final(self).parser == old(self).parser,
            forall|k: int| 0 <= k < old(self).arena().len() && k != arena_index ==> #[trigger] final(self).arena()[k] == old(self).arena()[k],
            final(self).arena()[arena_index as int].locals == old(self).arena()[arena_index as int].locals,
            ({
                let ups = old(self).arena()[arena_index as int].upvalues@;
                let new_ups = final(self).arena()[arena_index as int].upvalues@;
                let found = exists|i: int| 0 <= i < ups.len() && ups[i].index as int == index && ups[i].is_local == is_local;
                &&& found ==> new_ups == ups && res < ups.len() && ups[res as int].index as int == index
                    && ups[res as int].is_local == is_local
                    && forall|j: int| 0 <= j < res ==> !(ups[j].index as int == index && ups[j].is_local == is_local)
                &&& !found ==> new_ups == ups.push(Upvalue { index: index as u8, is_local }) && res == ups.len()
            }),
    {
        let n = self.scope_at(arena_index).upvalues.len();
        let mut i: usize = 0;
        while i < n
            invariant
                self.inv(),
                *self == *old(self),
                arena_index < old(self).arena().len(),
                n == old(self).arena()[arena_index as int].upvalues@.len(),
                i <= n,
                forall|j: int| 0 <= j < i ==> !(#[trigger] old(self).arena()[arena_index as int].upvalues@[j].index as int == index
                    && old(self).arena()[arena_index as int].upvalues@[j].is_local == is_local),
            decreases n - i,
        {
            let u = self.scope_at(arena_index).upvalues[i];
            if u.index as usize == index && u.is_local == is_local {
                proof {
                    self.lemma_frame_refl();
                }
                return i;
            }
            i = i + 1;
        }
        let up = Upvalue { index: index as u8, is_local };
        if arena_index == self.function_arena.len() {
            self.current.upvalues.push(up);
            self.current.function.upvalue_count = self.current.upvalues.len();
        } else {
            let mut sc = self.function_arena.remove(arena_index);
            sc.upvalues.push(up);
            sc.function.upvalue_count = sc.upvalues.len();
            self.function_arena.insert(arena_index, sc);
        }
        proof {
            old(self).parser.lemma_appends_refl();
            assert forall|k: int| 0 <= k < old(self).arena().len() && k != arena_index implies #[trigger] self.arena()[k] == old(self).arena()[k] by {
            }
            assert(self.arena()[arena_index as int].upvalues@ == old(self).arena()[arena_index as int].upvalues@.push(up));
            assert(keeps_captures(old(self).arena(), self.arena())) by {
                assert forall|k: int| 0 <= k < old(self).arena().len() implies {
                    let x = #[trigger] old(self).arena()[k];
                    let y = self.arena()[k];
                    &&& x.upvalues@.len() <= y.upvalues@.len()
                    &&& (forall|i: int| 0 <= i < x.upvalues@.len() ==> #[trigger] y.upvalues@[i] == x.upvalues@[i])
                    &&& y.locals@.len() == x.locals@.len()
                    &&& (forall|j: int| 0 <= j < x.locals@.len() ==> (#[trigger] y.locals@[j]).name == x.locals@[j].name)
                } by {
                    if k != arena_index {
                        assert(self.arena()[k] == old(self).arena()[k]);
                    }
                }
            }
            assert forall|k: int| 0 <= k < self.arena().len() implies scope_ok(#[trigger] self.arena()[k], self.src_len(), self.heap) by {
                assert(scope_ok(old(self).arena()[k], self.src_len(), self.heap));
            }
            assert forall|k: int| 0 <= k < old(self).arena().len() implies {
                let a = #[trigger] old(self).arena()[k];
                let b = self.arena()[k];
                &&& b.function.chunk == a.function.chunk
                &&& b.function.name == a.function.name
                &&& b.function.arity == a.function.arity
                &&& b.function_type == a.function_type
                &&& b.locals@.len() == a.locals@.len()
                &&& forall|j: int| 0 <= j < a.locals@.len() ==> (#[trigger] b.locals@[j]).name == a.locals@[j].name
                    && b.locals@[j].depth == a.locals@[j].depth
            } by {
            }
        }
        self.scope_at(arena_index).upvalues.len() - 1
    }

    /// Resolves `name` as a variable of a function enclosing the one at
    /// `arena_index`, adding the upvalues that carry it down; gives back the
    /// index of the upvalue of the function at `arena_index`, if the name is
    /// a local of some enclosing function.
    fn resolve_upvalue(&mut self, name: &Token, arena_index: usize) -> (res: Option<usize>)
        requires
            old(self).inv(),
            token_in(*name, old(self).src_len()),
            arena_index < old(self).arena().len(),
        ensures
            final(self).inv(),
            old(self).resolution_frame(&*final(self)),
            res is Some <==> named_in_enclosing(old(self).arena(), old(self).parser.scanner.source@, *name, arena_index as int),
            res matches Some(i) ==> i < final(self).arena()[arena_index as int].upvalues@.len(),
            res matches Some(i) ==> (upvalues_fit(final(self).arena()) ==> captures(
                final(self).arena(),
                old(self).parser.scanner.source@,
                arena_index as int,
                i as int,
                *name,
            )),
        decreases arena_index,
    {
        if arena_index == 0 {
            proof {
                self.lemma_frame_refl();
            }
            return None;
        }
        let enclosing = arena_index - 1;
        let ghost s0 = *self;
        let ghost src = self.parser.scanner.source@;
        if let Some(local_index) = self.resolve_local(name, enclosing) {
            let ghost s1 = *self;
            self.set_captured(enclosing, local_index);
            let ghost s2 = *self;
            let r = self.add_upvalue(local_index, true, arena_index);
            proof {
                s0.lemma_frame_refl();
                assert(s0.resolution_frame(&s1)) by {
                    assert(s1.arena() == s0.arena());
                }
                assert(s1.resolution_frame(&s2)) by {
                    s1.parser.lemma_appends_refl();
                    assert(keeps_captures(s1.arena(), s2.arena())) by {
                        assert forall|k: int| 0 <= k < s1.arena().len() implies {
                            let x = #[trigger] s1.arena()[k];
                            let y = s2.arena()[k];
                            &&& x.upvalues@.len() <= y.upvalues@.len()
                            &&& (forall|i: int| 0 <= i < x.upvalues@.len() ==> #[trigger] y.upvalues@[i] == x.upvalues@[i])
                            &&& y.locals@.len() == x.locals@.len()
                            &&& (forall|j: int| 0 <= j < x.locals@.len() ==> (#[trigger] y.locals@[j]).name == x.locals@[j].name)
                        } by {
                            if k == enclosing {
                                assert forall|j: int| 0 <= j < s1.arena()[k].locals@.len() implies (#[trigger] s2.arena()[k].locals@[j]).name
                                    == s1.arena()[k].locals@[j].name by {
                                    if j != local_index {
                                        assert(s2.arena()[k].locals@[j] == s1.arena()[k].locals@[j]);
                                    }
                                }
                            }
                        }
                    }
                }
                s0.lemma_frame_trans(&s1, &s2);
                s0.lemma_frame_trans(&s2, &*self);
                assert(token_text(src, s0.arena()[enclosing as int].locals@[local_index as int].name) == token_text(src, *name));
                if upvalues_fit(self.arena()) {
                    let a = self.arena();
                    assert(scope_ok(s0.arena()[enclosing as int], s0.src_len(), s0.heap));
                    assert(local_index < 256);
                    assert(a[arena_index as int].upvalues@[r as int].index as int == local_index);
                    assert(a[arena_index as int].upvalues@[r as int].is_local);
                    let la = s0.arena()[enclosing as int].locals@;
                    let lb = a[enclosing as int].locals@;
                    assert(lb[local_index as int].name == la[local_index as int].name);
                    assert forall|j: int| local_index < j < lb.len() implies token_text(src, #[trigger] lb[j].name) != token_text(src, *name) by {
                        assert(lb[j].name == la[j].name);
                    }
                    assert(innermost_local(lb, src, *name, local_index as int));
                }
            }
            return Some(r);
        }
        let ghost s1 = *self;
        proof {
            assert(s1.arena() == s0.arena());
        }
        if let Some(upvalue_index) = self.resolve_upvalue(name, enclosing) {
            let ghost s2 = *self;
            let r = self.add_upvalue(upvalue_index, false, arena_index);
            proof {
                assert(s0.resolution_frame(&s1)) by {
                    assert(s1.arena() == s0.arena());
                }
                s0.lemma_frame_trans(&s1, &s2);
                s0.lemma_frame_trans(&s2, &*self);
                let (k, j) = choose|k: int, j: int|
                    0 <= k < enclosing && 0 <= j < s1.arena()[k].locals@.len() && token_text(src, #[trigger] s1.arena()[k].locals@[j].name)
                        == token_text(src, *name);
                assert(token_text(src, s0.arena()[k].locals@[j].name) == token_text(src, *name));
                if upvalues_fit(self.arena()) {
                    let a = self.arena();
                    assert(upvalues_fit(s2.arena())) by {
                        assert forall|q: int| 0 <= q < s2.arena().len() implies (#[trigger] s2.arena()[q]).upvalues@.len() <= 256 by {
                            assert(a[q].upvalues@.len() <= 256);
                        }
                    }
                    assert(captures(s2.arena(), src, enclosing as int, upvalue_index as int, *name));
                    assert(s2.arena()[enclosing as int].upvalues@.len() <= 256);
                    assert(upvalue_index < 256);
                    assert(a[arena_index as int].upvalues@[r as int].index as int == upvalue_index);
                    assert(!a[arena_index as int].upvalues@[r as int].is_local);
                    lemma_captures_kept(s2.arena(), a, src, enclosing as int, upvalue_index as int, *name);
                }
            }
            return Some(r);
        }
        proof {
            assert(s0.resolution_frame(&s1)) by {
                assert(s1.arena() == s0.arena());
            }
            s0.lemma_frame_trans(&s1, &*self);
            assert forall|k: int, j: int|
                0 <= k < arena_index && 0 <= j < s0.arena()[k].locals@.len() implies token_text(src, #[trigger] s0.arena()[k].locals@[j].name)
                    != token_text(src, *name) by {
                if k < enclosing {
                    assert(s1.arena()[k] == s0.arena()[k]);
                    if token_text(src, s0.arena()[k].locals@[j].name) == token_text(src, *name) {
                        assert(named_in_enclosing(s1.arena(), src, *name, enclosing as int));
                    }
                }
            }
        }
        None
    }
}


impl<F: Fn(&str) -> u64> Compiler<F> {
    /// Adds a local named `name`, not yet initialized, to the current
    /// function; past 256 locals it reports an error instead.
    fn add_local(&mut self, name: Token)
        requires
            old(self).inv(),
            token_in(name, old(self).src_len()),
        ensures
            final(self).inv(),
            final(self).parser.scanner == old(self).parser.scanner,
            final(self).parser.current == old(self).parser.current,
            final(self).parser.previous == old(self).parser.previous,
            old(self).parser.only_appends_errors(&final(self).parser),
            final(self).function_arena == old(self).function_arena,
            final(self).current.function == old(self).current.function,
            final(self).current.function_type == old(self).current.function_type,
            final(self).heap == old(self).heap,
            final(self).strings == old(self).strings,
            final(self).scope_depth == old(self).scope_depth,
            final(self).number_value == old(self).number_value,
            old(self).current.locals@.len() < 256 ==> final(self).current.locals@ == old(self).current.locals@.push(
                Local { name, depth: -1i32, is_captured: false },
            ),
            old(self).current.locals@.len() < 256 ==> final(self).parser == old(self).parser,
            final(self).parser.consumed == old(self).parser.consumed,
            old(self).current.locals@.len() >= 256 ==> final(self).current.locals@ == old(self).current.locals@,
    {
        if self.current.locals.len() >= 256 {
            let ghost mid = *self;
            self.parser.error("Too many local variables in function.".to_string());
            proof {
                self.lemma_inv_diag(&mid);
            }
            return;
        }
        self.current.locals.push(Local { name, depth: -1, is_captured: false });
        proof {
            old(self).parser.lemma_appends_refl();
            assert(self.arena()[self.arena().len() - 1] == self.current);
            assert forall|k: int| 0 <= k < self.arena().len() implies scope_ok(#[trigger] self.arena()[k], self.src_len(), self.heap) by {
                assert(scope_ok(old(self).arena()[k], self.src_len(), self.heap));
                if k == self.function_arena@.len() {
                    assert(old(self).arena()[k] == old(self).current);
                    assert forall|j: int| 0 <= j < self.current.locals@.len() implies token_in(#[trigger] self.current.locals@[j].name, self.src_len()) by {
                        if j < old(self).current.locals@.len() {
                            assert(self.current.locals@[j] == old(self).current.locals@[j]);
                        }
                    }
                }
            }
        }
    }

    /// Declares the variable just named (the previous token) as a local of
    /// the current block, unless at top level. A second declaration of a
    /// name in one block is reported.
    fn declare_variable(&mut self)
        requires
            old(self).inv(),
        ensures
            final(self).inv(),
            final(self).parser.scanner == old(self).parser.scanner,
            final(self).parser.current == old(self).parser.current,
            final(self).parser.previous == old(self).parser.previous,
            old(self).parser.only_appends_errors(&final(self).parser),
            final(self).function_arena == old(self).function_arena,
            final(self).current.function == old(self).current.function,
            final(self).current.function_type == old(self).current.function_type,
            final(self).heap == old(self).heap,
            final(self).strings == old(self).strings,
            final(self).scope_depth == old(self).scope_depth,
            final(self).number_value == old(self).number_value,
            old(self).scope_depth == 0 ==> *final(self) == *old(self),
            final(self).parser.consumed == old(self).parser.consumed,
            old(self).scope_depth > 0 && old(self).current.locals@.len() < 256 ==> final(self).current.locals@
                == old(self).current.locals@.push(Local { name: old(self).parser.previous, depth: -1i32, is_captured: false }),
            old(self).scope_depth > 0 && old(self).current.locals@.len() >= 256 ==> final(self).current.locals@
                == old(self).current.locals@,
            old(self).scope_depth > 0 ==> final(self).current.locals@.len() >= 2,
            old(self).scope_depth > 0 && declared_in_block(
                old(self).current.locals@,
                old(self).parser.scanner.source@,
                old(self).parser.previous,
                old(self).scope_depth as int,
            ) ==> final(self).parser.had_error,
            old(self).scope_depth > 0 && old(self).current.locals@.len() < 256 && !declared_in_block(
                old(self).current.locals@,
                old(self).parser.scanner.source@,
                old(self).parser.previous,
                old(self).scope_depth as int,
            ) ==> final(self).parser == old(self).parser,
    {
        if self.scope_depth == 0 {
            proof {
                old(self).parser.lemma_appends_refl();
            }
            return;
        }
        let name = self.parser.previous.clone();
        let mut is_error = false;
        let n = self.current.locals.len();
        let mut i = n;
        proof {
            assert(old(self).arena()[old(self).arena().len() - 1] == old(self).current);
        }
        let ghost locals = old(self).current.locals@;
        let ghost src = old(self).parser.scanner.source@;
        let ghost depth0 = old(self).scope_depth as int;
        while i > 0
            invariant_except_break
                !is_error,
                forall|k: int|
                    i <= k < n ==> ((#[trigger] locals[k]).depth == -1 || locals[k].depth >= depth0) && token_text(src, locals[k].name)
                        != token_text(src, name),
            invariant
                *self == *old(self),
                self.inv(),
                i <= n,
                n == self.current.locals@.len(),
                token_in(name, self.src_len()),
                scope_ok(self.current, self.src_len(), self.heap),
                locals == self.current.locals@,
                src == self.parser.scanner.source@,
                depth0 == self.scope_depth,
                name == old(self).parser.previous,
            ensures
                is_error || !declared_in_block(locals, src, name, depth0),
                is_error ==> declared_in_block(locals, src, name, depth0),
            decreases i,
        {
            i = i - 1;
            let depth = self.current.locals[i].depth;
            if depth != -1 && depth < self.scope_depth {
                proof {
                    assert forall|j: int| 0 <= j < n implies !(token_text(src, #[trigger] locals[j].name) == token_text(src, name) && forall|k: int|
                        j <= k < locals.len() ==> (#[trigger] locals[k]).depth == -1 || locals[k].depth >= depth0) by {
                        if j <= i {
                            assert(!(locals[i as int].depth == -1 || locals[i as int].depth >= depth0));
                        } else {
                            assert(token_text(src, locals[j].name) != token_text(src, name));
                        }
                    }
                }
                break;
            }
            let local_name = self.current.locals[i].name.clone();
            if self.identifiers_equal(&name, &local_name) {
                is_error = true;
                proof {
                    assert(forall|k: int| i <= k < n ==> (#[trigger] locals[k]).depth == -1 || locals[k].depth >= depth0);
                    assert(token_text(src, locals[i as int].name) == token_text(src, name));
                }
                break;
            }
        }
        let ghost s1 = *self;
        proof {
            s1.parser.lemma_appends_refl();
        }
        if is_error {
            self.parser.error("Already a variable with this name in this scope.".to_string());
            proof {
                self.lemma_inv_diag(&s1);
            }
        }
        let ghost s2 = *self;
        self.add_local(name);
        proof {
            old(self).parser.lemma_appends_trans(&s2.parser, &self.parser);
        }
    }

    /// Marks the newest local as initialized at the current depth, unless at
    /// top level.
    fn mark_initialized(&mut self)
        requires
            old(self).inv(),
            old(self).scope_depth > 0 ==> old(self).current.locals@.len() >= 2,
        ensures
            final(self).inv(),
            final(self).parser == old(self).parser,
            final(self).function_arena == old(self).function_arena,
            final(self).current.function == old(self).current.function,
            final(self).current.function_type == old(self).current.function_type,
            final(self).current.upvalues == old(self).current.upvalues,
            final(self).heap == old(self).heap,
            final(self).strings == old(self).strings,
            final(self).scope_depth == old(self).scope_depth,
            final(self).number_value == old(self).number_value,
            old(self).scope_depth == 0 ==> *final(self) == *old(self),
            old(self).scope_depth > 0 ==> ({
                let n = old(self).current.locals@.len() - 1;
                &&& final(self).current.locals@.len() == old(self).current.locals@.len()
                &&& forall|j: int| 0 <= j < n ==> #[trigger] final(self).current.locals@[j] == old(self).current.locals@[j]
                &&& final(self).current.locals@[n].name == old(self).current.locals@[n].name
                &&& final(self).current.locals@[n].is_captured == old(self).current.locals@[n].is_captured
                &&& final(self).current.locals@[n].depth == old(self).scope_depth
            }),
    {
        if self.scope_depth == 0 {
            return;
        }
        let n = self.current.locals.len() - 1;
        let mut l = self.current.locals.remove(n);
        l.depth = self.scope_depth;
        self.current.locals.push(l);
        proof {
            assert(old(self).arena()[old(self).arena().len() - 1] == old(self).current);
            assert(self.arena()[self.arena().len() - 1] == self.current);
            assert forall|j: int| 0 <= j < n implies #[trigger] self.current.locals@[j] == old(self).current.locals@[j] by {
            }
            assert forall|k: int| 0 <= k < self.arena().len() implies scope_ok(#[trigger] self.arena()[k], self.src_len(), self.heap) by {
                assert(scope_ok(old(self).arena()[k], self.src_len(), self.heap));
                if k == self.function_arena@.len() {
                    assert forall|j: int| 0 <= j < self.current.locals@.len() implies token_in(#[trigger] self.current.locals@[j].name, self.src_len()) by {
                        assert(token_in(old(self).current.locals@[j].name, self.src_len()));
                    }
                    assert(self.current.locals@[0] == old(self).current.locals@[0]);
                }
            }
        }
    }

    /// The constant index of the name that `name` spells, interned.
    fn identifier_constant(&mut self, name: &Token) -> (res: u8)
        requires
            old(self).inv(),
            token_in(*name, old(self).src_len()),
        ensures
            final(self).inv(),
            old(self).evolves_to(&*final(self)),
            final(self).code() == old(self).code(),
            final(self).current.locals == old(self).current.locals,
            final(self).parser.scanner == old(self).parser.scanner,
            final(self).parser.current == old(self).parser.current,
            final(self).parser.previous == old(self).parser.previous,
            final(self).parser.consumed == old(self).parser.consumed,
            final(self).current.function.arity == old(self).current.function.arity,
            final(self).strings.view().contains_key(token_text(old(self).parser.scanner.source@, *name)),
            final(self).current.function.chunk.constants.values@ == old(self).current.function.chunk.constants.values@.push(
                Value::Obj(final(self).strings.view()[token_text(old(self).parser.scanner.source@, *name)]),
            ),
            res == constant_byte(old(self).current.function.chunk.constants.values@.len()),
    {
        let text = self.parser.scanner.get_source(name.start, name.length);
        let ghost h0 = self.heap;
        let ghost v0 = self.strings.view();
        let ghost t0 = text@;
        let g = self.strings.intern(&mut self.heap, text);
        proof {
            Self::lemma_intern_keeps(v0, t0, g);
            crate::memory::lemma_closed_after_add(h0, self.heap, g);
            lemma_interns_all_intern(v0, h0, self.strings.view(), self.heap, t0, g);
            assert forall|k: int| 0 <= k < self.arena().len() implies scope_ok(#[trigger] self.arena()[k], self.src_len(), self.heap) by {
                assert(self.arena()[k] == old(self).arena()[k]);
                assert(scope_ok(old(self).arena()[k], self.src_len(), h0));
                crate::memory::lemma_refs_live_grow(h0, self.heap, self.arena()[k].function);
            }
        }
        self.make_constant(Value::Obj(g))
    }

    /// Parses a variable name: declares it as a local inside a block, or gives
    /// back the constant index of its name at top level (0 inside a block).
    fn parse_variable(&mut self, message: &str) -> (res: u8)
        requires
            old(self).inv(),
        ensures
            final(self).inv(),
            old(self).evolves_to(&*final(self)),
            final(self).scope_depth > 0 ==> final(self).current.locals@.len() >= 2,
            final(self).current.locals@.len() >= old(self).current.locals@.len(),
            final(self).current.function.arity == old(self).current.function.arity,
            final(self).code() == old(self).code(),
            old(self).scope_depth == 0 ==> res == constant_byte(old(self).current.function.chunk.constants.values@.len())
                && final(self).current.locals@.len() == old(self).current.locals@.len(),
            old(self).scope_depth > 0 && old(self).current.locals@.len() < 256 ==> final(self).current.locals@.len()
                == old(self).current.locals@.len() + 1,
            old(self).scope_depth > 0 && old(self).current.locals@.len() >= 256 ==> final(self).current.locals@.len()
                == old(self).current.locals@.len(),
            old(self).parser.current.token_type == TokenType::Identifier ==> final(self).parser.consumed@
                == old(self).parser.consumed@.push(old(self).parser.current),
            old(self).parser.current.token_type != TokenType::Identifier ==> final(self).parser.had_error,
    {
        let ghost s0 = *self;
        self.parser.consume(TokenType::Identifier, message);
        proof {
            assert(self.arena() == s0.arena());
            assert(self.scope_depth + self.parser.progress() <= self.src_len() + 1);
        }
        self.declare_variable();
        if self.scope_depth > 0 {
            return 0;
        }
        let name = self.parser.previous.clone();
        self.identifier_constant(&name)
    }

    /// Defines the variable just parsed: marks a local initialized, or emits
    /// `OP_DEFINE_GLOBAL` with the name's constant index at top level.
    fn define_variable(&mut self, global: u8)
        requires
            old(self).inv(),
            old(self).scope_depth > 0 ==> old(self).current.locals@.len() >= 2,
        ensures
            final(self).inv(),
            old(self).evolves_to(&*final(self)),
            final(self).current.locals@.len() == old(self).current.locals@.len(),
            old(self).scope_depth == 0 ==> final(self).code() == old(self).code().push(OP_DEFINE_GLOBAL).push(global),
            old(self).scope_depth > 0 ==> final(self).code() == old(self).code(),
            final(self).current.function.arity == old(self).current.function.arity,
            final(self).parser == old(self).parser,
    {
        if self.scope_depth > 0 {
            self.mark_initialized();
            return;
        }
        self.emit_bytes(OP_DEFINE_GLOBAL, global);
    }
}


/// Binding strength of operators, weakest first.
#[derive(Clone, Copy, PartialEq, Eq, Structural)]
pub enum Precedence {
    Lowest,
    Assignment,
    Or,
    And,
    Equality,
    Comparison,
    Term,
    Factor,
    Unary,
    Call,
    Primary,
}

/// The rank of a precedence, from 0 (`None`) to 10 (`Primary`).
pub open spec fn spec_level(p: Precedence) -> u8 {
    match p {
        Precedence::Lowest => 0,
        Precedence::Assignment => 1,
        Precedence::Or => 2,
        Precedence::And => 3,
        Precedence::Equality => 4,
        Precedence::Comparison => 5,
        Precedence::Term => 6,
        Precedence::Factor => 7,
        Precedence::Unary => 8,
        Precedence::Call => 9,
        Precedence::Primary => 10,
    }
}

impl Precedence {
    /// The rank of this precedence.
    pub fn level(self) -> (res: u8)
        ensures
            res == spec_level(self),
    {
        match self {
            Precedence::Lowest => 0,
            Precedence::Assignment => 1,
            Precedence::Or => 2,
            Precedence::And => 3,
            Precedence::Equality => 4,
            Precedence::Comparison => 5,
            Precedence::Term => 6,
            Precedence::Factor => 7,
            Precedence::Unary => 8,
            Precedence::Call => 9,
            Precedence::Primary => 10,
        }
    }

    /// The precedence of rank `value`; ranks past 10 give `None`.
    pub fn from(value: u8) -> (res: Self)
        ensures
            value <= 10 ==> spec_level(res) == value,
            value > 10 ==> res == Precedence::Lowest,
    {
        match value {
            0 => Precedence::Lowest,
            1 => Precedence::Assignment,
            2 => Precedence::Or,
            3 => Precedence::And,
            4 => Precedence::Equality,
            5 => Precedence::Comparison,
            6 => Precedence::Term,
            7 => Precedence::Factor,
            8 => Precedence::Unary,
            9 => Precedence::Call,
            10 => Precedence::Primary,
            _ => Precedence::Lowest,
        }
    }
}

/// The parsing functions that the rule table names.
#[derive(Clone, Copy, PartialEq, Eq, Structural)]
pub enum ParseFn {
    Grouping,
    Call,
    Unary,
    Binary,
    Number,
    String,
    Variable,
    Literal,
    And,
    Or,
}

/// How a token parses: as the start of an expression (`prefix`), after an
/// operand (`infix`), and how strongly it binds as an infix operator.
#[derive(Clone, Copy, PartialEq, Eq, Structural)]
pub struct ParseRule {
    pub prefix: Option<ParseFn>,
    pub infix: Option<ParseFn>,
    pub precedence: Precedence,
}

/// The rule table.
pub open spec fn rule_of(t: TokenType) -> ParseRule {
    match t {
        TokenType::LeftParen => ParseRule { prefix: Some(ParseFn::Grouping), infix: Some(ParseFn::Call), precedence: Precedence::Call },
        TokenType::Minus => ParseRule { prefix: Some(ParseFn::Unary), infix: Some(ParseFn::Binary), precedence: Precedence::Term },
        TokenType::Plus => ParseRule { prefix: None, infix: Some(ParseFn::Binary), precedence: Precedence::Term },
        TokenType::Slash => ParseRule { prefix: None, infix: Some(ParseFn::Binary), precedence: Precedence::Factor },
        TokenType::Star => ParseRule { prefix: None, infix: Some(ParseFn::Binary), precedence: Precedence::Factor },
        TokenType::Bang => ParseRule { prefix: Some(ParseFn::Unary), infix: None, precedence: Precedence::Lowest },
        TokenType::BangEqual => ParseRule { prefix: None, infix: Some(ParseFn::Binary), precedence: Precedence::Equality },
        TokenType::EqualEqual => ParseRule { prefix: None, infix: Some(ParseFn::Binary), precedence: Precedence::Equality },
        TokenType::Greater => ParseRule { prefix: None, infix: Some(ParseFn::Binary), precedence: Precedence::Comparison },
        TokenType::GreaterEqual => ParseRule { prefix: None, infix: Some(ParseFn::Binary), precedence: Precedence::Comparison },
        TokenType::Less => ParseRule { prefix: None, infix: Some(ParseFn::Binary), precedence: Precedence::Comparison },
        TokenType::LessEqual => ParseRule { prefix: None, infix: Some(ParseFn::Binary), precedence: Precedence::Comparison },
        TokenType::Identifier => ParseRule { prefix: Some(ParseFn::Variable), infix: None, precedence: Precedence::Lowest },
        TokenType::String => ParseRule { prefix: Some(ParseFn::String), infix: None, precedence: Precedence::Lowest },
        TokenType::Number => ParseRule { prefix: Some(ParseFn::Number), infix: None, precedence: Precedence::Lowest },
        TokenType::And => ParseRule { prefix: None, infix: Some(ParseFn::And), precedence: Precedence::And },
        TokenType::False => ParseRule { prefix: Some(ParseFn::Literal), infix: None, precedence: Precedence::Lowest },
        TokenType::Nil => ParseRule { prefix: Some(ParseFn::Literal), infix: None, precedence: Precedence::Lowest },
        TokenType::Or => ParseRule { prefix: None, infix: Some(ParseFn::Or), precedence: Precedence::Or },
        TokenType::True => ParseRule { prefix: Some(ParseFn::Literal), infix: None, precedence: Precedence::Lowest },
        _ => ParseRule { prefix: None, infix: None, precedence: Precedence::Lowest },
    }
}

/// The rule for token kind `t`.
pub fn get_rule(t: TokenType) -> (res: ParseRule)
    ensures
        res == rule_of(t),
{
    match t {
        TokenType::LeftParen => ParseRule { prefix: Some(ParseFn::Grouping), infix: Some(ParseFn::Call), precedence: Precedence::Call },
        TokenType::Minus => ParseRule { prefix: Some(ParseFn::Unary), infix: Some(ParseFn::Binary), precedence: Precedence::Term },
        TokenType::Plus => ParseRule { prefix: None, infix: Some(ParseFn::Binary), precedence: Precedence::Term },
        TokenType::Slash => ParseRule { prefix: None, infix: Some(ParseFn::Binary), precedence: Precedence::Factor },
        TokenType::Star => ParseRule { prefix: None, infix: Some(ParseFn::Binary), precedence: Precedence::Factor },
        TokenType::Bang => ParseRule { prefix: Some(ParseFn::Unary), infix: None, precedence: Precedence::Lowest },
        TokenType::BangEqual => ParseRule { prefix: None, infix: Some(ParseFn::Binary), precedence: Precedence::Equality },
        TokenType::EqualEqual => ParseRule { prefix: None, infix: Some(ParseFn::Binary), precedence: Precedence::Equality },
        TokenType::Greater => ParseRule { prefix: None, infix: Some(ParseFn::Binary), precedence: Precedence::Comparison },
        TokenType::GreaterEqual => ParseRule { prefix: None, infix: Some(ParseFn::Binary), precedence: Precedence::Comparison },
        TokenType::Less => ParseRule { prefix: None, infix: Some(ParseFn::Binary), precedence: Precedence::Comparison },
        TokenType::LessEqual => ParseRule { prefix: None, infix: Some(ParseFn::Binary), precedence: Precedence::Comparison },
        TokenType::Identifier => ParseRule { prefix: Some(ParseFn::Variable), infix: None, precedence: Precedence::Lowest },
        TokenType::String => ParseRule { prefix: Some(ParseFn::String), infix: None, precedence: Precedence::Lowest },
        TokenType::Number => ParseRule { prefix: Some(ParseFn::Number), infix: None, precedence: Precedence::Lowest },
        TokenType::And => ParseRule { prefix: None, infix: Some(ParseFn::And), precedence: Precedence::And },
        TokenType::False => ParseRule { prefix: Some(ParseFn::Literal), infix: None, precedence: Precedence::Lowest },
        TokenType::Nil => ParseRule { prefix: Some(ParseFn::Literal), infix: None, precedence: Precedence::Lowest },
        TokenType::Or => ParseRule { prefix: None, infix: Some(ParseFn::Or), precedence: Precedence::Or },
        TokenType::True => ParseRule { prefix: Some(ParseFn::Literal), infix: None, precedence: Precedence::Lowest },
        _ => ParseRule { prefix: None, infix: None, precedence: Precedence::Lowest },
    }
}


impl<F: Fn(&str) -> u64> Compiler<F> {
    /// The compiler is in the body of a function (or the script): each
    /// function scope has its own block depth.
    pub closed spec fn in_body(&self) -> bool {
        &&& self.inv()
        &&& self.function_arena@.len() <= self.scope_depth
    }

    proof fn lemma_frame_evolves(&self, after: &Self)
        requires
            self.inv(),
            self.resolution_frame(after),
        ensures
            self.evolves_to(after),
            after.code() == self.code(),
            after.current.locals@.len() == self.current.locals@.len(),
    {
        let n = self.function_arena@.len() as int;
        assert(self.arena()[n] == self.current);
        assert(after.arena()[n] == after.current);
        assert forall|i: int| 0 <= i < n implies #[trigger] after.enclosing_sig()[i] == self.enclosing_sig()[i] by {
            assert(self.arena()[i] == self.function_arena@[i]);
            assert(after.arena()[i] == after.function_arena@[i]);
        }
        assert(after.enclosing_sig() =~= self.enclosing_sig());
    }

    /// `expression` with the given minimum precedence: a prefix expression,
    /// then infix operators as long as they bind at least as strongly.
    fn parse_precedence(&mut self, precedence: Precedence)
        requires
            old(self).in_body(),
            spec_level(precedence) >= 1,
            spec_level(precedence) <= spec_level(Precedence::Unary),
        ensures
            !final(self).parser.had_error ==> operators_bind_from(old(self).read_since(&*final(self)), spec_level(precedence) as int),
            spec_level(precedence) <= 1 && !final(self).parser.had_error ==> final(self).parser.current.token_type != TokenType::Equal,
            final(self).parser.consumed@.len() > old(self).parser.consumed@.len(),
            old(self).reads_expression(&*final(self)),
            final(self).in_body(),
            old(self).evolves_to(&*final(self)),
            final(self).current.locals@.len() == old(self).current.locals@.len(),
            old(self).parser.current.token_type != TokenType::Eof ==> final(self).parser.progress() < old(self).parser.progress(),
            rule_of(old(self).parser.current.token_type).prefix is None ==> final(self).parser.had_error && final(self).code()
                == old(self).code(),
        decreases old(self).parser.progress(), 0nat,
    {
        let ghost s0 = *self;
        self.parser.advance();
        let ghost sa = *self;
        proof {
            assert(self.arena() == s0.arena());
            s0.lemma_evolves_refl();
        }
        let can_assign = precedence.level() <= 1;
        let prefix_rule = get_rule(self.parser.previous.token_type).prefix;
        match prefix_rule {
            Some(prefix) => {
                proof {
                    assert(s0.parser.current.token_type != TokenType::Eof);
                }
                self.apply_parse_fn(prefix, can_assign);
                proof {
                    if !self.parser.had_error {
                        let c0 = s0.parser.consumed@;
                        let ca = sa.parser.consumed@;
                        let c1 = self.parser.consumed@;
                        lemma_read_split(c0, ca, c1);
                        assert(ca.subrange(c0.len() as int, ca.len() as int) =~= seq![s0.parser.current]);
                        assert(s0.read_since(&*self) == seq![s0.parser.current] + sa.read_since(&*self));
                        let lv = binds_at_least(prefix, s0.parser.current.token_type, can_assign);
                        assert(lv >= spec_level(precedence));
                        lemma_bind_weaken(s0.read_since(&*self), lv, spec_level(precedence) as int);
                    }
                }
            },
            None => {
                let ghost mid = *self;
                self.parser.error("Expect expression.".to_string());
                proof {
                    self.lemma_inv_diag(&mid);
                }
                return;
            },
        }
        while precedence.level() <= get_rule(self.parser.current.token_type).precedence.level()
            invariant
                self.in_body(),
                s0.evolves_to(&*self),
                self.current.locals@.len() == s0.current.locals@.len(),
                self.parser.progress() < s0.parser.progress(),
                s0 == *old(self),
                spec_level(precedence) >= 1,
                self.parser.consumed@.len() > s0.parser.consumed@.len(),
                !self.parser.had_error ==> expression_tokens(s0.read_since(&*self)),
                !self.parser.had_error ==> operators_bind_from(s0.read_since(&*self), spec_level(precedence) as int),
            decreases self.parser.progress(),
        {
            let ghost s1 = *self;
            self.parser.advance();
            let ghost sb = *self;
            proof {
                assert(self.arena() == s1.arena());
                lemma_infix_present(s1.parser.current.token_type);
            }
            let infix_rule = get_rule(self.parser.previous.token_type).infix;
            if let Some(infix) = infix_rule {
                self.apply_parse_fn(infix, can_assign);
                proof {
                    if !self.parser.had_error {
                        let lv = binds_at_least(infix, s1.parser.current.token_type, can_assign);
                        assert(lv >= spec_level(precedence));
                        lemma_bind_weaken(seq![s1.parser.current] + sb.read_since(&*self), lv, spec_level(precedence) as int);
                    }
                }
            }
            proof {
                if !self.parser.had_error {
                    let c0 = s0.parser.consumed@;
                    let c1 = s1.parser.consumed@;
                    let cb = sb.parser.consumed@;
                    let cf = self.parser.consumed@;
                    lemma_read_split(c0, c1, cf);
                    lemma_read_split(c1, cb, cf);
                    assert(cb.subrange(c1.len() as int, cb.len() as int) =~= seq![s1.parser.current]);
                    lemma_expression_concat(s0.read_since(&s1), seq![s1.parser.current] + sb.read_since(&*self));
                    assert((seq![s1.parser.current] + sb.read_since(&*self))[0] == s1.parser.current);
                    lemma_bind_concat(s0.read_since(&s1), seq![s1.parser.current] + sb.read_since(&*self), spec_level(precedence) as int);
                    assert(s0.read_since(&*self) == s0.read_since(&s1) + (seq![s1.parser.current] + sb.read_since(&*self)));
                }
            }
        }
        let ghost s2 = *self;
        if can_assign && self.parser.match_token(TokenType::Equal) {
            let ghost mid = *self;
            proof {
                assert(self.arena() == s2.arena());
            }
            self.parser.error("Invalid assignment target.".to_string());
            proof {
                self.lemma_inv_diag(&mid);
            }
        }
    }

    /// Runs the parsing function that the rule table names for the token
    /// just consumed.
    fn apply_parse_fn(&mut self, f: ParseFn, can_assign: bool)
        requires
            old(self).in_body(),
            old(self).parser.previous.token_type != TokenType::Eof,
            rule_of(old(self).parser.previous.token_type).prefix == Some(f) || rule_of(old(self).parser.previous.token_type).infix
                == Some(f),
        ensures
            !final(self).parser.had_error ==> operators_bind_from(
                seq![old(self).parser.previous] + old(self).read_since(&*final(self)),
                binds_at_least(f, old(self).parser.previous.token_type, can_assign),
            ),
            !final(self).parser.had_error ==> expression_tokens(seq![old(self).parser.previous] + old(self).read_since(&*final(self))),
            final(self).in_body(),
            old(self).evolves_to(&*final(self)),
            final(self).current.locals@.len() == old(self).current.locals@.len(),
            old(self).parse_fn_effect(&*final(self), f, can_assign),
        decreases old(self).parser.progress(), 4nat,
    {
        match f {
            ParseFn::Grouping => self.grouping(can_assign),
            ParseFn::Call => self.call(can_assign),
            ParseFn::Unary => self.unary(can_assign),
            ParseFn::Binary => self.binary(can_assign),
            ParseFn::Number => self.number(can_assign),
            ParseFn::String => self.string(can_assign),
            ParseFn::Variable => self.variable(can_assign),
            ParseFn::Literal => self.literal(can_assign),
            ParseFn::And => self.and_(can_assign),
            ParseFn::Or => self.or_(can_assign),
        }
        proof {
            let r = old(self).read_since(&*self);
            let prev = old(self).parser.previous;
            if !self.parser.had_error {
                let lv = binds_at_least(f, prev.token_type, can_assign);
                if f == ParseFn::Grouping || f == ParseFn::Call {
                    assert(prev.token_type == TokenType::LeftParen);
                    assert(seq![prev] + r =~= seq![prev] + r.drop_last() + seq![r.last()]);
                    lemma_wrapped(prev, r.drop_last(), r.last());
                    lemma_bind_wrapped(prev, r.drop_last(), r.last(), lv);
                } else {
                    assert(prev.token_type != TokenType::LeftParen);
                    assert(prev.token_type != TokenType::RightParen);
                    assert(prev.token_type != TokenType::Comma);
                    lemma_single_token(prev);
                    lemma_expression_concat(seq![prev], r);
                    if r.len() == 0 {
                        lemma_bind_short(r, lv);
                    }
                    assert(operators_bind_from(r, lv));
                    lemma_bind_short(seq![prev], lv);
                    lemma_bind_concat(seq![prev], r, lv);
                }
            }
        }
    }

    fn expression(&mut self)
        requires
            old(self).in_body(),
        ensures
            !final(self).parser.had_error ==> operators_bind_from(old(self).read_since(&*final(self)), spec_level(Precedence::Assignment) as int),
            final(self).parser.consumed@.len() > old(self).parser.consumed@.len(),
            old(self).reads_expression(&*final(self)),
            final(self).in_body(),
            old(self).evolves_to(&*final(self)),
            final(self).current.locals@.len() == old(self).current.locals@.len(),
            old(self).parser.current.token_type != TokenType::Eof ==> final(self).parser.progress() < old(self).parser.progress(),
            rule_of(old(self).parser.current.token_type).prefix is None ==> final(self).parser.had_error,
        decreases old(self).parser.progress(), 1nat,
    {
        self.parse_precedence(Precedence::Assignment);
    }

    /// A number literal.
    fn number(&mut self, _can_assign: bool)
        requires
            old(self).in_body(),
            old(self).parser.previous.token_type == TokenType::Number,
        ensures
            old(self).read_since(&*final(self)).len() == 0,
            old(self).reads_expression(&*final(self)),
            final(self).in_body(),
            old(self).evolves_to(&*final(self)),
            final(self).current.locals@.len() == old(self).current.locals@.len(),
            exists|text: &str, v: u64|
                #![trigger call_ensures(old(self).number_value, (text,), v)]
                text@ == token_text(old(self).parser.scanner.source@, old(self).parser.previous)
                && call_ensures(old(self).number_value, (text,), v) && old(self).emitted_constant(&*final(self), Value::Number(v)),
    {
        let text = self.parser.scanner.get_source(self.parser.previous.start, self.parser.previous.length);
        let text_str = text.as_str();
        let value = (self.number_value)(text_str);
        self.emit_constant(Value::Number(value));
        proof {
            assert(text_str@ == token_text(old(self).parser.scanner.source@, old(self).parser.previous));
        }
        proof {
            assert(old(self).read_since(&*self) =~= Seq::<Token>::empty());
            lemma_no_tokens();
        }
    }

    /// A string literal, without its quotes, interned.
    fn string(&mut self, _can_assign: bool)
        requires
            old(self).in_body(),
            old(self).parser.previous.token_type == TokenType::String,
        ensures
            old(self).read_since(&*final(self)).len() == 0,
            old(self).reads_expression(&*final(self)),
            final(self).in_body(),
            old(self).evolves_to(&*final(self)),
            final(self).current.locals@.len() == old(self).current.locals@.len(),
            ({
                let t = old(self).parser.previous;
                let text = lexeme(old(self).parser.scanner.source@, t.start + 1, t.length - 2);
                &&& final(self).strings.view().contains_key(text)
                &&& old(self).emitted_constant(&*final(self), Value::Obj(final(self).strings.view()[text]))
            }),
    {
        let text = self.parser.scanner.get_source(self.parser.previous.start + 1, self.parser.previous.length - 2);
        let ghost h0 = self.heap;
        let ghost v0 = self.strings.view();
        let ghost t0 = text@;
        let g = self.strings.intern(&mut self.heap, text);
        proof {
            Self::lemma_intern_keeps(v0, t0, g);
            crate::memory::lemma_closed_after_add(h0, self.heap, g);
            lemma_interns_all_intern(v0, h0, self.strings.view(), self.heap, t0, g);
            assert forall|k: int| 0 <= k < self.arena().len() implies scope_ok(#[trigger] self.arena()[k], self.src_len(), self.heap) by {
                assert(self.arena()[k] == old(self).arena()[k]);
                assert(scope_ok(old(self).arena()[k], self.src_len(), h0));
                crate::memory::lemma_refs_live_grow(h0, self.heap, self.arena()[k].function);
            }
        }
        self.emit_constant(Value::Obj(g));
        proof {
            assert(old(self).read_since(&*self) =~= Seq::<Token>::empty());
            lemma_no_tokens();
        }
    }

    /// `true`, `false` or `nil`.
    fn literal(&mut self, _can_assign: bool)
        requires
            old(self).in_body(),
            rule_of(old(self).parser.previous.token_type).prefix == Some(ParseFn::Literal),
        ensures
            old(self).read_since(&*final(self)).len() == 0,
            old(self).reads_expression(&*final(self)),
            final(self).in_body(),
            old(self).evolves_to(&*final(self)),
            final(self).current.locals@.len() == old(self).current.locals@.len(),
            final(self).code() == old(self).code().push(literal_op(old(self).parser.previous.token_type)),
    {
        match self.parser.previous.token_type {
            TokenType::False => self.emit_byte(OP_FALSE),
            TokenType::Nil => self.emit_byte(OP_NIL),
            _ => self.emit_byte(OP_TRUE),
        }
        proof {
            assert(old(self).read_since(&*self) =~= Seq::<Token>::empty());
            lemma_no_tokens();
        }
    }

    /// A parenthesized expression.
    fn grouping(&mut self, _can_assign: bool)
        requires
            old(self).in_body(),
        ensures
            old(self).reads_group(&*final(self)),
            final(self).in_body(),
            old(self).evolves_to(&*final(self)),
            final(self).current.locals@.len() == old(self).current.locals@.len(),
            final(self).closed_paren(),
        decreases old(self).parser.progress(), 2nat,
    {
        self.expression();
        let ghost s1 = *self;
        self.parser.consume(TokenType::RightParen, "Expect ')' after expression.");
        proof {
            assert(self.arena() == s1.arena());
            s1.lemma_evolves_refl();
            if !self.parser.had_error {
                let r = old(self).read_since(&s1);
                assert(old(self).read_since(&*self) =~= r.push(s1.parser.current));
                assert(r.push(s1.parser.current).drop_last() =~= r);
            }
        }
    }

    /// A prefix `!` or `-` and its operand.
    fn unary(&mut self, _can_assign: bool)
        requires
            old(self).in_body(),
            old(self).parser.previous.token_type == TokenType::Bang || old(self).parser.previous.token_type == TokenType::Minus,
        ensures
            !final(self).parser.had_error ==> operators_bind_from(old(self).read_since(&*final(self)), spec_level(Precedence::Unary) as int),
            old(self).reads_expression(&*final(self)),
            final(self).in_body(),
            old(self).evolves_to(&*final(self)),
            final(self).current.locals@.len() == old(self).current.locals@.len(),
            final(self).code().len() > old(self).code().len(),
            final(self).code().last() == (if old(self).parser.previous.token_type == TokenType::Bang { OP_NOT } else { OP_NEGATE }),
        decreases old(self).parser.progress(), 2nat,
    {
        let operator_type = self.parser.previous.token_type;
        self.parse_precedence(Precedence::Unary);
        match operator_type {
            TokenType::Bang => self.emit_byte(OP_NOT),
            _ => self.emit_byte(OP_NEGATE),
        }
    }

    /// The right operand of an infix arithmetic or comparison operator, and
    /// the operator.
    fn binary(&mut self, _can_assign: bool)
        requires
            old(self).in_body(),
            rule_of(old(self).parser.previous.token_type).infix == Some(ParseFn::Binary),
        ensures
            !final(self).parser.had_error ==> operators_bind_from(
                old(self).read_since(&*final(self)),
                spec_level(rule_of(old(self).parser.previous.token_type).precedence) + 1,
            ),
            old(self).reads_expression(&*final(self)),
            final(self).in_body(),
            old(self).evolves_to(&*final(self)),
            final(self).current.locals@.len() == old(self).current.locals@.len(),
            final(self).code().len() >= old(self).code().len() + binary_code(old(self).parser.previous.token_type).len(),
            ends_with(final(self).code(), binary_code(old(self).parser.previous.token_type)),
        decreases old(self).parser.progress(), 2nat,
    {
        let operator_type = self.parser.previous.token_type;
        let rule = get_rule(operator_type);
        self.parse_precedence(Precedence::from(rule.precedence.level() + 1));
        match operator_type {
            TokenType::BangEqual => self.emit_bytes(OP_EQUAL, OP_NOT),
            TokenType::EqualEqual => self.emit_byte(OP_EQUAL),
            TokenType::Greater => self.emit_byte(OP_GREATER),
            TokenType::GreaterEqual => self.emit_bytes(OP_LESS, OP_NOT),
            TokenType::Less => self.emit_byte(OP_LESS),
            TokenType::LessEqual => self.emit_bytes(OP_GREATER, OP_NOT),
            TokenType::Plus => self.emit_byte(OP_ADD),
            TokenType::Minus => self.emit_byte(OP_SUBTRACT),
            TokenType::Star => self.emit_byte(OP_MULTIPLY),
            _ => self.emit_byte(OP_DIVIDE),
        }
        proof {
            let tail = binary_code(operator_type);
            let n = self.code().len();
            assert(self.code().subrange(n - tail.len(), n as int) =~= tail);
        }
    }

    /// A call's argument list and `OP_CALL`.
    fn call(&mut self, _can_assign: bool)
        requires
            old(self).in_body(),
        ensures
            !final(self).parser.had_error ==> argument_tokens(old(self).read_since(&*final(self)), final(self).code().last() as nat),
            final(self).in_body(),
            old(self).evolves_to(&*final(self)),
            final(self).current.locals@.len() == old(self).current.locals@.len(),
            final(self).code().len() >= old(self).code().len() + 2,
            final(self).code()[final(self).code().len() - 2] == OP_CALL,
            final(self).closed_paren(),
        decreases old(self).parser.progress(), 3nat,
    {
        let arg_count = self.argument_list();
        self.emit_bytes(OP_CALL, arg_count);
    }

    /// The arguments of a call, up to the closing parenthesis; gives back
    /// their number (past 255 an error is reported and the count wraps).
    fn argument_list(&mut self) -> (res: u8)
        requires
            old(self).in_body(),
        ensures
            !final(self).parser.had_error ==> argument_tokens(old(self).read_since(&*final(self)), res as nat),
            final(self).in_body(),
            old(self).evolves_to(&*final(self)),
            final(self).current.locals@.len() == old(self).current.locals@.len(),
            final(self).closed_paren(),
            old(self).parser.current.token_type == TokenType::RightParen ==> res == 0 && final(self).code() == old(self).code(),
        decreases old(self).parser.progress(), 2nat,
    {
        let mut arg_count: u8 = 0;
        proof {
            old(self).lemma_evolves_refl();
        }
        proof {
            assert(old(self).read_since(&*self) =~= Seq::<Token>::empty());
            lemma_no_tokens();
        }
        if !self.parser.check(TokenType::RightParen) {
            loop
                invariant_except_break
                    !self.parser.had_error ==> {
                        let r = old(self).read_since(&*self);
                        nested_from(r, 0) && paren_depth(r) == 0 && top_commas_from(r, 0) == arg_count
                    },
                invariant
                    self.in_body(),
                    old(self).evolves_to(&*self),
                    self.current.locals@.len() == old(self).current.locals@.len(),
                ensures
                    !self.parser.had_error ==> {
                        let r = old(self).read_since(&*self);
                        r.len() >= 1 && nested_from(r, 0) && paren_depth(r) == 0 && top_commas_from(r, 0) + 1 == arg_count
                    },
                decreases self.parser.progress(),
            {
                let ghost s1 = *self;
                let ghost k0 = arg_count;
                self.expression();
                let ghost se = *self;
                if arg_count == 255 {
                    let ghost mid = *self;
                    self.parser.error("Cannot have more than 255 arguments.".to_string());
                    proof {
                        self.lemma_inv_diag(&mid);
                    }
                }
                arg_count = arg_count.wrapping_add(1);
                let ghost s2 = *self;
                let more = self.parser.match_token(TokenType::Comma);
                proof {
                    assert(self.arena() == s2.arena());
                    s2.lemma_evolves_refl();
                    old(self).lemma_evolves_trans(&s1, &*self);
                    if !self.parser.had_error {
                        let c0 = old(self).parser.consumed@;
                        let c1 = s1.parser.consumed@;
                        let ce = se.parser.consumed@;
                        let cf = self.parser.consumed@;
                        assert(k0 != 255);
                        assert(s2.parser.consumed@ == ce);
                        lemma_read_split(c0, c1, ce);
                        let r1 = old(self).read_since(&s1);
                        let e = s1.read_since(&se);
                        lemma_tokens_concat(r1, e, 0);
                        if more {
                            lemma_read_split(c0, ce, cf);
                            assert(cf.subrange(ce.len() as int, cf.len() as int) =~= seq![s2.parser.current]);
                            lemma_comma_token(s2.parser.current);
                            lemma_tokens_concat(r1 + e, seq![s2.parser.current], 0);
                        } else {
                            assert(cf == ce);
                        }
                    }
                }
                if !more {
                    break;
                }
            }
        }
        let ghost s3 = *self;
        self.parser.consume(TokenType::RightParen, "Expect ')' after arguments.");
        proof {
            assert(self.arena() == s3.arena());
            s3.lemma_evolves_refl();
            if !self.parser.had_error {
                let r = old(self).read_since(&s3);
                assert(old(self).read_since(&*self) =~= r.push(s3.parser.current));
                assert(r.push(s3.parser.current).drop_last() =~= r);
                assert(r.len() == 0 ==> arg_count == 0);
            }
        }
        arg_count
    }

    /// A variable reference: a read, or an assignment where one may stand.
    fn variable(&mut self, can_assign: bool)
        requires
            old(self).in_body(),
        ensures
            !final(self).parser.had_error ==> operators_bind_from(old(self).read_since(&*final(self)), spec_level(Precedence::Assignment) as int),
            old(self).read_since(&*final(self)).len() > 0 ==> can_assign && old(self).read_since(&*final(self))[0].token_type == TokenType::Equal,
            !(can_assign && old(self).parser.current.token_type == TokenType::Equal) && old(self).access_ops(
                old(self).parser.previous,
            ).0 == OP_GET_UPVALUE && upvalues_fit(final(self).arena()) ==> captures(
                final(self).arena(),
                old(self).parser.scanner.source@,
                old(self).function_arena@.len() as int,
                final(self).code()[old(self).code().len() + 1int] as int,
                old(self).parser.previous,
            ),
            old(self).reads_expression(&*final(self)),
            final(self).in_body(),
            old(self).evolves_to(&*final(self)),
            final(self).current.locals@.len() == old(self).current.locals@.len(),
            old(self).emitted_access(&*final(self), old(self).parser.previous, can_assign),
        decreases old(self).parser.progress(), 3nat,
    {
        let name = self.parser.previous.clone();
        self.named_variable(name, can_assign);
    }

    /// A read of, or an assignment to, the variable `name`: a local of the
    /// current function, else an upvalue, else a global.
    fn named_variable(&mut self, name: Token, can_assign: bool)
        requires
            old(self).in_body(),
            token_in(name, old(self).src_len()),
        ensures
            !final(self).parser.had_error ==> operators_bind_from(old(self).read_since(&*final(self)), spec_level(Precedence::Assignment) as int),
            old(self).read_since(&*final(self)).len() > 0 ==> can_assign && old(self).read_since(&*final(self))[0].token_type == TokenType::Equal,
            !(can_assign && old(self).parser.current.token_type == TokenType::Equal) && old(self).access_ops(name).0
                == OP_GET_UPVALUE && upvalues_fit(final(self).arena()) ==> captures(
                final(self).arena(),
                old(self).parser.scanner.source@,
                old(self).function_arena@.len() as int,
                final(self).code()[old(self).code().len() + 1int] as int,
                name,
            ),
            old(self).reads_expression(&*final(self)),
            final(self).in_body(),
            old(self).evolves_to(&*final(self)),
            final(self).current.locals@.len() == old(self).current.locals@.len(),
            old(self).emitted_access(&*final(self), name, can_assign),
        decreases old(self).parser.progress(), 2nat,
    {
        let ghost s0 = *self;
        let ghost src = s0.parser.scanner.source@;
        let ghost top_len = s0.function_arena@.len() as int;
        let top = self.arena_len() - 1;
        proof {
            assert(s0.arena()[top_len] == s0.current);
        }
        let mut arg: u8 = 0;
        let mut get_op: u8 = OP_GET_GLOBAL;
        let mut set_op: u8 = OP_SET_GLOBAL;
        match self.resolve_local(&name, top) {
            Some(local) => {
                proof {
                    assert(s0.arena()[top as int] == s0.current);
                    assert(scope_ok(s0.current, s0.src_len(), s0.heap));
                }
                arg = local as u8;
                get_op = OP_GET_LOCAL;
                set_op = OP_SET_LOCAL;
                proof {
                    s0.lemma_frame_refl();
                    s0.lemma_frame_evolves(&*self);
                    assert(names_local(s0.current.locals@, src, name));
                    assert(arg as int == local as int);
                }
            },
            None => {
                let ghost s1 = *self;
                proof {
                    assert(s1.arena() == s0.arena());
                    assert(!names_local(s0.current.locals@, src, name));
                }
                match self.resolve_upvalue(&name, top) {
                    Some(upvalue) => {
                        arg = upvalue as u8;
                        get_op = OP_GET_UPVALUE;
                        set_op = OP_SET_UPVALUE;
                        proof {
                            s1.lemma_frame_evolves(&*self);
                            if upvalues_fit(self.arena()) {
                                assert(self.arena()[top_len].upvalues@.len() <= 256);
                                assert(arg as int == upvalue as int);
                            }
                        }
                    },
                    None => {
                        let ghost s2 = *self;
                        proof {
                            s1.lemma_frame_evolves(&s2);
                            assert(s1.arena()[top_len] == s1.current);
                            assert(s2.arena()[top_len] == s2.current);
                            assert(s2.current.function.chunk == s1.current.function.chunk);
                        }
                        arg = self.identifier_constant(&name);
                        proof {
                            s1.lemma_evolves_trans(&s2, &*self);
                        }
                    },
                }
                proof {
                    s0.lemma_frame_refl();
                    s0.lemma_frame_evolves(&s1);
                    s0.lemma_evolves_trans(&s1, &*self);
                }
            },
        }
        proof {
            assert(get_op == s0.access_ops(name).0 && set_op == s0.access_ops(name).1);
            assert(get_op == OP_GET_UPVALUE && upvalues_fit(self.arena()) ==> captures(self.arena(), src, top_len, arg as int, name));
        }
        let ghost s3 = *self;
        proof {
            assert(s3.parser.consumed == s0.parser.consumed);
        }
        if can_assign && self.parser.match_token(TokenType::Equal) {
            let ghost sm = *self;
            proof {
                assert(self.arena() == s3.arena());
            }
            self.expression();
            self.emit_bytes(set_op, arg);
            proof {
                if !self.parser.had_error {
                    let c0 = s3.parser.consumed@;
                    let cm = sm.parser.consumed@;
                    let cf = self.parser.consumed@;
                    lemma_read_split(c0, cm, cf);
                    assert(cm.subrange(c0.len() as int, cm.len() as int) =~= seq![s3.parser.current]);
                    lemma_single_token(s3.parser.current);
                    lemma_expression_concat(seq![s3.parser.current], sm.read_since(&*self));
                    lemma_bind_short(seq![s3.parser.current], spec_level(Precedence::Assignment) as int);
                    lemma_bind_concat(seq![s3.parser.current], sm.read_since(&*self), spec_level(Precedence::Assignment) as int);
                    assert(s0.read_since(&*self) == seq![s3.parser.current] + sm.read_since(&*self));
                }
            }
        } else {
            proof {
                assert(self.arena() == s3.arena());
            }
            self.emit_bytes(get_op, arg);
            proof {
                assert(s0.read_since(&*self) =~= Seq::<Token>::empty());
                lemma_no_tokens();
                lemma_bind_short(s0.read_since(&*self), spec_level(Precedence::Assignment) as int);
                if get_op == OP_GET_UPVALUE && upvalues_fit(self.arena()) {
                    assert(self.arena() =~= s3.arena().update(top_len, self.current));
                    assert forall|k: int| 0 <= k < s3.arena().len() implies (#[trigger] self.arena()[k]).upvalues == s3.arena()[k].upvalues
                        && self.arena()[k].locals == s3.arena()[k].locals by {
                        if k == top_len {
                            assert(s3.arena()[k] == s3.current);
                        }
                    }
                    assert(upvalues_fit(s3.arena())) by {
                        assert forall|q: int| 0 <= q < s3.arena().len() implies (#[trigger] s3.arena()[q]).upvalues@.len() <= 256 by {
                            assert(self.arena()[q].upvalues == s3.arena()[q].upvalues);
                        }
                    }
                    assert(keeps_captures(s3.arena(), self.arena()));
                    lemma_captures_kept(s3.arena(), self.arena(), src, top_len, arg as int, name);
                }
            }
        }
    }

    /// The right operand of `and`, skipped when the left is false.
    fn and_(&mut self, _can_assign: bool)
        requires
            old(self).in_body(),
        ensures
            !final(self).parser.had_error ==> operators_bind_from(old(self).read_since(&*final(self)), spec_level(Precedence::And) as int),
            old(self).reads_expression(&*final(self)),
            final(self).in_body(),
            old(self).evolves_to(&*final(self)),
            final(self).current.locals@.len() == old(self).current.locals@.len(),
            final(self).code().len() >= old(self).code().len() + 4,
            final(self).code()[old(self).code().len() as int] == OP_JUMP_IF_FALSE,
            operand_at(final(self).code(), old(self).code().len() + 1int, final(self).code().len() - old(self).code().len() - 3),
            final(self).code()[old(self).code().len() + 3int] == OP_POP,
        decreases old(self).parser.progress(), 2nat,
    {
        let end_jump = self.emit_jump(OP_JUMP_IF_FALSE);
        self.emit_byte(OP_POP);
        let ghost s1 = *self;
        self.parse_precedence(Precedence::And);
        let ghost s2 = *self;
        self.patch_jump(end_jump);
        proof {
            let o = old(self).code().len() as int;
            assert(s2.code()[o] == s1.code()[o]);
            assert(s2.code()[o + 3] == s1.code()[o + 3]);
            assert(self.code()[o] == s2.code()[o]);
            assert(self.code()[o + 3] == s2.code()[o + 3]);
            assert forall|i: int| 0 <= i < old(self).code().len() implies #[trigger] self.code()[i] == old(self).code()[i] by {
                assert(s2.code()[i] == s1.code()[i]);
            }
        }
    }

    /// The right operand of `or`, skipped when the left is true.
    fn or_(&mut self, _can_assign: bool)
        requires
            old(self).in_body(),
        ensures
            !final(self).parser.had_error ==> operators_bind_from(old(self).read_since(&*final(self)), spec_level(Precedence::Or) as int),
            old(self).reads_expression(&*final(self)),
            final(self).in_body(),
            old(self).evolves_to(&*final(self)),
            final(self).current.locals@.len() == old(self).current.locals@.len(),
            final(self).code().len() >= old(self).code().len() + 7,
            final(self).code()[old(self).code().len() as int] == OP_JUMP_IF_FALSE,
            operand_at(final(self).code(), old(self).code().len() + 1int, 3),
            final(self).code()[old(self).code().len() + 3int] == OP_JUMP,
            operand_at(final(self).code(), old(self).code().len() + 4int, final(self).code().len() - old(self).code().len() - 6),
            final(self).code()[old(self).code().len() + 6int] == OP_POP,
        decreases old(self).parser.progress(), 2nat,
    {
        let else_jump = self.emit_jump(OP_JUMP_IF_FALSE);
        let end_jump = self.emit_jump(OP_JUMP);
        self.patch_jump(else_jump);
        self.emit_byte(OP_POP);
        let ghost s1 = *self;
        self.parse_precedence(Precedence::Or);
        let ghost s2 = *self;
        self.patch_jump(end_jump);
        proof {
            let o = old(self).code().len() as int;
            assert(s2.code()[o] == s1.code()[o]);
            assert(s2.code()[o + 1] == s1.code()[o + 1]);
            assert(s2.code()[o + 2] == s1.code()[o + 2]);
            assert(s2.code()[o + 3] == s1.code()[o + 3]);
            assert(s2.code()[o + 6] == s1.code()[o + 6]);
            assert(self.code()[o] == s2.code()[o]);
            assert(self.code()[o + 1] == s2.code()[o + 1]);
            assert(self.code()[o + 2] == s2.code()[o + 2]);
            assert(self.code()[o + 3] == s2.code()[o + 3]);
            assert(self.code()[o + 6] == s2.code()[o + 6]);
            assert forall|i: int| 0 <= i < old(self).code().len() implies #[trigger] self.code()[i] == old(self).code()[i] by {
                assert(s2.code()[i] == s1.code()[i]);
            }
        }
    }
}


impl<F: Fn(&str) -> u64> Compiler<F> {
    /// An expression used as a statement; its value is discarded.
    fn expression_statement(&mut self)
        requires
            old(self).in_body(),
        ensures
            final(self).in_body(),
            old(self).evolves_to(&*final(self)),
            final(self).current.locals@.len() == old(self).current.locals@.len(),
            old(self).parser.current.token_type != TokenType::Eof ==> final(self).parser.progress() < old(self).parser.progress(),
        decreases old(self).parser.progress(), 2nat,
    {
        self.expression();
        let ghost s1 = *self;
        self.parser.consume(TokenType::Semicolon, "Expect ';' after expression.");
        proof {
            assert(self.arena() == s1.arena());
            s1.lemma_evolves_refl();
        }
        self.emit_byte(OP_POP);
    }

    /// `print` and its operand.
    fn print_statement(&mut self)
        requires
            old(self).in_body(),
        ensures
            final(self).in_body(),
            old(self).evolves_to(&*final(self)),
            final(self).current.locals@.len() == old(self).current.locals@.len(),
            final(self).code().len() > old(self).code().len(),
            final(self).code().last() == OP_PRINT,
            final(self).closed_with(TokenType::Semicolon),
        decreases old(self).parser.progress(), 2nat,
    {
        self.expression();
        let ghost s1 = *self;
        self.parser.consume(TokenType::Semicolon, "Expect ';' after value.");
        proof {
            assert(self.arena() == s1.arena());
            s1.lemma_evolves_refl();
        }
        self.emit_byte(OP_PRINT);
    }

    /// `return`, with or without a value; not allowed in the script.
    fn return_statement(&mut self)
        requires
            old(self).in_body(),
        ensures
            final(self).in_body(),
            old(self).evolves_to(&*final(self)),
            final(self).current.locals@.len() == old(self).current.locals@.len(),
            old(self).parser.current.token_type == TokenType::Semicolon ==> final(self).code() == old(self).code().push(OP_NIL).push(
                OP_RETURN,
            ),
            final(self).code().len() > old(self).code().len(),
            final(self).code().last() == OP_RETURN,
            final(self).closed_with(TokenType::Semicolon),
            old(self).current.function_type == FunctionType::Script ==> final(self).parser.had_error,
        decreases old(self).parser.progress(), 2nat,
    {
        proof {
            old(self).lemma_evolves_refl();
        }
        if self.current.function_type == FunctionType::Script {
            let ghost mid = *self;
            self.parser.error("Cannot return from top-level code.".to_string());
            proof {
                self.lemma_inv_diag(&mid);
            }
        }
        let ghost s1 = *self;
        if self.parser.match_token(TokenType::Semicolon) {
            proof {
                assert(self.arena() == s1.arena());
            }
            self.emit_return();
        } else {
            self.expression();
            let ghost s2 = *self;
            self.parser.consume(TokenType::Semicolon, "Expect ';' after return value.");
            proof {
                assert(self.arena() == s2.arena());
                s2.lemma_evolves_refl();
            }
            self.emit_byte(OP_RETURN);
        }
    }

    /// `var`, its name and optional initializer.
    fn var_declaration(&mut self)
        requires
            old(self).in_body(),
        ensures
            final(self).in_body(),
            old(self).evolves_to(&*final(self)),
            final(self).current.locals@.len() >= old(self).current.locals@.len(),
            old(self).scope_depth == 0 ==> {
                let c = final(self).code();
                &&& c.len() >= old(self).code().len() + 2
                &&& c[c.len() - 2] == OP_DEFINE_GLOBAL
                &&& c.last() == constant_byte(old(self).current.function.chunk.constants.values@.len())
                &&& final(self).current.locals@.len() == old(self).current.locals@.len()
            },
            old(self).scope_depth > 0 && old(self).current.locals@.len() < 256 ==> final(self).current.locals@.len()
                == old(self).current.locals@.len() + 1,
            final(self).closed_with(TokenType::Semicolon),
        decreases old(self).parser.progress(), 2nat,
    {
        let global = self.parse_variable("Expect variable name.");
        let ghost s1 = *self;
        if self.parser.match_token(TokenType::Equal) {
            proof {
                assert(self.arena() == s1.arena());
            }
            self.expression();
        } else {
            self.emit_byte(OP_NIL);
        }
        let ghost s2 = *self;
        self.parser.consume(TokenType::Semicolon, "Expect ';' after variable declaration.");
        proof {
            assert(self.arena() == s2.arena());
            s2.lemma_evolves_refl();
        }
        self.define_variable(global);
    }

    /// A statement.
    fn statement(&mut self)
        requires
            old(self).in_body(),
        ensures
            final(self).in_body(),
            old(self).evolves_to(&*final(self)),
            old(self).parser.current.token_type != TokenType::Eof ==> final(self).parser.progress() < old(self).parser.progress(),
        decreases old(self).parser.progress(), 5nat,
    {
        let ghost s0 = *self;
        proof {
            s0.lemma_evolves_refl();
        }
        if self.parser.match_token(TokenType::Print) {
            proof { assert(self.arena() == s0.arena()); }
            self.print_statement();
        } else if self.parser.match_token(TokenType::For) {
            proof { assert(self.arena() == s0.arena()); }
            self.for_statement();
        } else if self.parser.match_token(TokenType::If) {
            proof { assert(self.arena() == s0.arena()); }
            self.if_statement();
        } else if self.parser.match_token(TokenType::Return) {
            proof { assert(self.arena() == s0.arena()); }
            self.return_statement();
        } else if self.parser.match_token(TokenType::While) {
            proof { assert(self.arena() == s0.arena()); }
            self.while_statement();
        } else if self.parser.match_token(TokenType::LeftBrace) {
            proof { assert(self.arena() == s0.arena()); }
            let ghost s1 = *self;
            self.begin_scope();
            let ghost s2 = *self;
            self.block();
            let ghost s3 = *self;
            self.end_scope();
            proof {
                Self::lemma_scoped(&s1, &s2, &s3, &*self);
                s0.lemma_evolves_trans(&s1, &*self);
            }
        } else {
            self.expression_statement();
        }
    }

    /// `if`, its condition, branch and optional `else` branch.
    #[verifier::rlimit(40)]
    fn if_statement(&mut self)
        requires
            old(self).in_body(),
        ensures
            final(self).in_body(),
            old(self).evolves_to(&*final(self)),
            ({
                let c = final(self).code();
                let o = old(self).code().len() as int;
                exists|t: int, e: int|
                    #![trigger c[t], c[e]]
                    {
                        &&& o <= t && t + 4 <= e && e + 4 <= c.len()
                        &&& c[t] == OP_JUMP_IF_FALSE && operand_at(c, t + 1, e - t) && c[t + 3] == OP_POP
                        &&& c[e] == OP_JUMP && operand_at(c, e + 1, c.len() - e - 3) && c[e + 3] == OP_POP
                    }
            }),
        decreases old(self).parser.progress(), 6nat,
    {
        let ghost s0 = *self;
        self.parser.consume(TokenType::LeftParen, "Expect '(' after 'if'.");
        proof {
            assert(self.arena() == s0.arena());
            s0.lemma_evolves_refl();
        }
        self.expression();
        let ghost s1 = *self;
        self.parser.consume(TokenType::RightParen, "Expect ')' after condition.");
        proof {
            assert(self.arena() == s1.arena());
        }
        let then_jump = self.emit_jump(OP_JUMP_IF_FALSE);
        self.emit_byte(OP_POP);
        let ghost sp = *self;
        self.statement();
        let ghost ss = *self;
        let else_jump = self.emit_jump(OP_JUMP);
        let ghost sj = *self;
        self.patch_jump(then_jump);
        let ghost sk = *self;
        self.emit_byte(OP_POP);
        let ghost s2 = *self;
        if self.parser.match_token(TokenType::Else) {
            proof {
                assert(self.arena() == s2.arena());
            }
            self.statement();
        }
        let ghost se = *self;
        self.patch_jump(else_jump);
        proof {
            let t = then_jump as int - 1;
            let e = else_jump as int - 1;
            assert(ss.code()[t] == sp.code()[t]);
            assert(ss.code()[t + 3] == sp.code()[t + 3]);
            assert(sj.code()[t] == ss.code()[t]);
            assert(sj.code()[t + 3] == ss.code()[t + 3]);
            assert(sk.code()[t] == sj.code()[t]);
            assert(sk.code()[t + 3] == sj.code()[t + 3]);
            assert(sk.code()[e] == sj.code()[e]);
            assert(s2.code()[t] == sk.code()[t]);
            assert(s2.code()[t + 1] == sk.code()[t + 1]);
            assert(s2.code()[t + 2] == sk.code()[t + 2]);
            assert(s2.code()[t + 3] == sk.code()[t + 3]);
            assert(s2.code()[e] == sk.code()[e]);
            assert(se.code()[t] == s2.code()[t]);
            assert(se.code()[t + 1] == s2.code()[t + 1]);
            assert(se.code()[t + 2] == s2.code()[t + 2]);
            assert(se.code()[t + 3] == s2.code()[t + 3]);
            assert(se.code()[e] == s2.code()[e]);
            assert(se.code()[e + 3] == s2.code()[e + 3]);
            assert(self.code()[t] == se.code()[t]);
            assert(self.code()[t + 1] == se.code()[t + 1]);
            assert(self.code()[t + 2] == se.code()[t + 2]);
            assert(self.code()[t + 3] == se.code()[t + 3]);
            assert(self.code()[e] == se.code()[e]);
            assert(self.code()[e + 3] == se.code()[e + 3]);
            assert(self.code()[t] == OP_JUMP_IF_FALSE && self.code()[e] == OP_JUMP);
        }
    }

    /// `while`, its condition and body.
    #[verifier::rlimit(40)]
    fn while_statement(&mut self)
        requires
            old(self).in_body(),
        ensures
            final(self).in_body(),
            old(self).evolves_to(&*final(self)),
            ({
                let c = final(self).code();
                let o = old(self).code().len() as int;
                &&& c.len() >= o + 8
                &&& c[c.len() - 4] == OP_LOOP
                &&& (c.len() - 1 - o <= 65535 ==> operand_at(c, c.len() - 3, c.len() - 1 - o))
                &&& c.last() == OP_POP
                &&& exists|t: int|
                    #![trigger c[t]]
                    o <= t && t + 8 <= c.len() && c[t] == OP_JUMP_IF_FALSE && operand_at(c, t + 1, c.len() - 4 - t) && c[t + 3]
                        == OP_POP
            }),
        decreases old(self).parser.progress(), 6nat,
    {
        let loop_start = self.current.function.chunk.code.len();
        let ghost s0 = *self;
        self.parser.consume(TokenType::LeftParen, "Expect '(' after 'while'.");
        proof {
            assert(self.arena() == s0.arena());
            s0.lemma_evolves_refl();
        }
        self.expression();
        let ghost s1 = *self;
        self.parser.consume(TokenType::RightParen, "Expect ')' after condition.");
        proof {
            assert(self.arena() == s1.arena());
        }
        let exit_jump = self.emit_jump(OP_JUMP_IF_FALSE);
        self.emit_byte(OP_POP);
        let ghost sp = *self;
        self.statement();
        let ghost sb = *self;
        self.emit_loop(loop_start);
        let ghost sl = *self;
        self.patch_jump(exit_jump);
        let ghost sq = *self;
        self.emit_byte(OP_POP);
        proof {
            let t = exit_jump as int - 1;
            let l = sb.code().len() as int;
            assert(sb.code()[t] == sp.code()[t]);
            assert(sb.code()[t + 3] == sp.code()[t + 3]);
            assert(sl.code()[t] == sb.code()[t]);
            assert(sl.code()[t + 3] == sb.code()[t + 3]);
            assert(sq.code()[t] == sl.code()[t]);
            assert(sq.code()[t + 3] == sl.code()[t + 3]);
            assert(sq.code()[l] == sl.code()[l]);
            assert(sq.code()[l + 1] == sl.code()[l + 1]);
            assert(sq.code()[l + 2] == sl.code()[l + 2]);
            assert(self.code()[t] == sq.code()[t]);
            assert(self.code()[t + 1] == sq.code()[t + 1]);
            assert(self.code()[t + 2] == sq.code()[t + 2]);
            assert(self.code()[t + 3] == sq.code()[t + 3]);
            assert(self.code()[l] == sq.code()[l]);
            assert(self.code()[l + 1] == sq.code()[l + 1]);
            assert(self.code()[l + 2] == sq.code()[l + 2]);
            assert(self.code()[t] == OP_JUMP_IF_FALSE);
        }
    }

    /// A `for` loop's increment and its `)`: a jump over it to the body,
    /// then the increment, then a jump back to the condition at
    /// `loop_start`. Gives back where the increment starts.
    fn for_increment(&mut self, loop_start: usize) -> (res: usize)
        requires
            old(self).in_body(),
            loop_start <= old(self).code().len(),
        ensures
            final(self).in_body(),
            old(self).evolves_to(&*final(self)),
            res == old(self).code().len() + 3,
            ({
                let c = final(self).code();
                let b = old(self).code().len() as int;
                let m = c.len() - 3;
                &&& b + 3 <= m
                &&& c[b] == OP_JUMP && operand_at(c, b + 1, m - b)
                &&& c[m] == OP_LOOP && (m + 3 - loop_start <= 65535 ==> operand_at(c, m + 1, m + 3 - loop_start))
            }),
    {
        let ghost sm = *self;
        let body_jump = self.emit_jump(OP_JUMP);
        let ghost sj = *self;
        let increment_start = self.current.function.chunk.code.len();
        self.expression();
        let ghost se = *self;
        self.emit_byte(OP_POP);
        let ghost s5 = *self;
        self.parser.consume(TokenType::RightParen, "Expect ')' after for clauses.");
        proof { assert(self.arena() == s5.arena()); }
        let ghost sc = *self;
        self.emit_loop(loop_start);
        let ghost sk = *self;
        self.patch_jump(body_jump);
        proof {
            let b = body_jump as int - 1;
            let m = sc.code().len() as int;
            assert(se.code()[b] == sj.code()[b]);
            assert(s5.code()[b] == se.code()[b]);
            assert(sk.code()[b] == sc.code()[b]);
            assert(self.code()[b] == sk.code()[b]);
            assert(self.code()[m] == sk.code()[m]);
            assert(self.code()[m + 1] == sk.code()[m + 1]);
            assert(self.code()[m + 2] == sk.code()[m + 2]);
            assert forall|j: int| 0 <= j < sm.code().len() implies #[trigger] self.code()[j] == sm.code()[j] by {
                assert(sj.code()[j] == sm.code()[j]);
                assert(se.code()[j] == sj.code()[j]);
                assert(s5.code()[j] == se.code()[j]);
                assert(sk.code()[j] == sc.code()[j]);
                assert(self.code()[j] == sk.code()[j]);
            }
        }
        increment_start
    }

    /// `for`, its clauses and body, in a scope of its own.
    #[verifier::rlimit(100)]
    #[verifier::spinoff_prover]
    fn for_statement(&mut self)
        requires
            old(self).in_body(),
            old(self).scope_depth + old(self).parser.progress() < old(self).src_len() + 1,
        ensures
            final(self).in_body(),
            old(self).evolves_to(&*final(self)),
            old(self).code().len() <= final(self).code().len() && for_shape(final(self).code(), old(self).code().len() as int),
        decreases old(self).parser.progress(), 6nat,
    {
        let ghost s0 = *self;
        self.begin_scope();
        let ghost sb = *self;
        proof {
            sb.lemma_evolves_refl();
        }
        self.parser.consume(TokenType::LeftParen, "Expect '(' after 'for'.");
        let ghost s1 = *self;
        proof {
            assert(self.arena() == s0.arena());
        }
        if self.parser.match_token(TokenType::Semicolon) {
            proof { assert(self.arena() == s1.arena()); }
        } else if self.parser.match_token(TokenType::Var) {
            proof { assert(self.arena() == s1.arena()); }
            self.var_declaration();
        } else {
            self.expression_statement();
        }
        let mut loop_start = self.current.function.chunk.code.len();
        let ghost z = loop_start as int;
        let ghost mut inc: Option<(int, int)> = None;
        let mut exit_jump: Option<usize> = None;
        let ghost s2 = *self;
        if !self.parser.match_token(TokenType::Semicolon) {
            self.expression();
            let ghost s3 = *self;
            self.parser.consume(TokenType::Semicolon, "Expect ';' after loop condition.");
            proof { assert(self.arena() == s3.arena()); }
            exit_jump = Some(self.emit_jump(OP_JUMP_IF_FALSE));
            self.emit_byte(OP_POP);
        } else {
            proof { assert(self.arena() == s2.arena()); }
        }
        let ghost s4 = *self;
        proof {
            if let Some(x) = exit_jump {
                assert(s4.code()[x - 1] == OP_JUMP_IF_FALSE && s4.code()[x + 2] == OP_POP && x + 3 == s4.code().len());
                assert(x - 1 >= z);
            }
            assert(s0.code().len() <= loop_start);
        }
        if !self.parser.match_token(TokenType::RightParen) {
            let ghost sm = *self;
            loop_start = self.for_increment(loop_start);
            proof {
                let b = sm.code().len() as int;
                let m = self.code().len() - 3;
                assert(b >= s4.code().len());
                assert forall|j: int| 0 <= j < s4.code().len() implies #[trigger] self.code()[j] == s4.code()[j] by {
                    assert(self.code()[j] == sm.code()[j]);
                }
                inc = Some((b, m));
            }
        } else {
            proof { assert(self.arena() == s4.arena()); }
        }
        let ghost s45 = *self;
        proof {
            assert(s4.code().len() <= s45.code().len());
            assert(s0.code().len() <= loop_start);
        }
        self.statement();
        let ghost sl0 = *self;
        self.emit_loop(loop_start);
        let ghost sl = *self;
        if let Some(exit) = exit_jump {
            proof {
                assert(exit + 2 <= sl0.code().len());
            }
            self.patch_jump(exit);
            self.emit_byte(OP_POP);
        }
        let ghost s6 = *self;
        self.end_scope();
        proof {
            Self::lemma_scoped(&s0, &sb, &s6, &*self);
            let l = sl0.code().len() as int;
            let st = loop_start as int;
            let e = s6.code().len() as int;
            let c = self.code();
            assert(c[l] == OP_LOOP && (l + 3 - st <= 65535 ==> operand_at(c, l + 1, l + 3 - st))) by {
                assert(s6.code()[l] == sl.code()[l]);
                assert(s6.code()[l + 1] == sl.code()[l + 1]);
                assert(s6.code()[l + 2] == sl.code()[l + 2]);
                assert(c[l] == s6.code()[l]);
                assert(c[l + 1] == s6.code()[l + 1]);
                assert(c[l + 2] == s6.code()[l + 2]);
            }
            if let Some((b, m)) = inc {
                assert(c[b] == OP_JUMP && operand_at(c, b + 1, m - b) && c[m] == OP_LOOP && (m + 3 - z <= 65535 ==> operand_at(
                    c,
                    m + 1,
                    m + 3 - z,
                ))) by {
                    assert forall|k: int| s4.code().len() <= k < s45.code().len() implies #[trigger] c[k] == s45.code()[k] by {
                        assert(sl0.code()[k] == s45.code()[k]);
                        assert(sl.code()[k] == sl0.code()[k]);
                        assert(s6.code()[k] == sl.code()[k]);
                        assert(c[k] == s6.code()[k]);
                    }
                    assert(c[b] == s45.code()[b]);
                    assert(c[b + 1] == s45.code()[b + 1]);
                    assert(c[b + 2] == s45.code()[b + 2]);
                    assert(c[m] == s45.code()[m]);
                    assert(c[m + 1] == s45.code()[m + 1]);
                    assert(c[m + 2] == s45.code()[m + 2]);
                }
            }
            if let Some(x) = exit_jump {
                let t = x - 1;
                assert(c[t] == OP_JUMP_IF_FALSE && operand_at(c, t + 1, l - t) && c[t + 3] == OP_POP && c[l + 3] == OP_POP) by {
                    assert(s45.code()[t] == s4.code()[t]);
                    assert(s45.code()[t + 3] == s4.code()[t + 3]);
                    assert(sl0.code()[t] == s45.code()[t]);
                    assert(sl0.code()[t + 3] == s45.code()[t + 3]);
                    assert(sl.code()[t] == sl0.code()[t]);
                    assert(sl.code()[t + 3] == sl0.code()[t + 3]);
                    assert(s6.code()[t] == sl.code()[t]);
                    assert(s6.code()[t + 3] == sl.code()[t + 3]);
                    assert(c[t] == s6.code()[t]);
                    assert(c[t + 1] == s6.code()[t + 1]);
                    assert(c[t + 2] == s6.code()[t + 2]);
                    assert(c[t + 3] == s6.code()[t + 3]);
                    assert(c[l + 3] == s6.code()[l + 3]);
                }
            }
            assert(sl.code().len() == l + 3);
            assert(forall|j: int| e <= j < c.len() ==> #[trigger] c[j] == OP_POP || c[j] == OP_CLOSE_UPVALUE);
            match exit_jump {
                Some(x) => {
                    lemma_for_shape(c, old(self).code().len() as int, z, st, l, e, Some(x - 1), inc);
                },
                None => {
                    lemma_for_shape(c, old(self).code().len() as int, z, st, l, e, None, inc);
                },
            }
        }
    }

    /// The declarations of a block, up to its closing brace.
    fn block(&mut self)
        requires
            old(self).in_body(),
        ensures
            final(self).in_body(),
            old(self).evolves_to(&*final(self)),
            final(self).closed_with(TokenType::RightBrace),
        decreases old(self).parser.progress(), 7nat,
    {
        proof {
            old(self).lemma_evolves_refl();
        }
        while !self.parser.check(TokenType::RightBrace) && !self.parser.check(TokenType::Eof)
            invariant
                self.in_body(),
                old(self).evolves_to(&*self),
            decreases self.parser.progress(),
        {
            self.declaration();
        }
        let ghost s1 = *self;
        self.parser.consume(TokenType::RightBrace, "Expect '}' after block.");
        proof {
            assert(self.arena() == s1.arena());
        }
    }

    /// A declaration or statement; after an error, recovery to the next
    /// statement boundary.
    fn declaration(&mut self)
        requires
            old(self).in_body(),
        ensures
            final(self).in_body(),
            old(self).evolves_to(&*final(self)),
            old(self).parser.current.token_type != TokenType::Eof ==> final(self).parser.progress() < old(self).parser.progress(),
        decreases old(self).parser.progress(), 6nat,
    {
        let ghost s0 = *self;
        proof {
            s0.lemma_evolves_refl();
        }
        if self.parser.match_token(TokenType::Fun) {
            proof { assert(self.arena() == s0.arena()); }
            self.fun_declaration();
        } else if self.parser.match_token(TokenType::Var) {
            proof { assert(self.arena() == s0.arena()); }
            self.var_declaration();
        } else {
            self.statement();
        }
        if self.parser.panic_mode {
            let ghost s1 = *self;
            self.parser.synchronize();
            proof {
                assert(self.arena() == s1.arena());
                self.lemma_inv_diag_sync(&s1);
            }
        }
    }


    /// Interning keeps what was interned.
    proof fn lemma_intern_keeps(m: Map<Seq<char>, Gc>, k: Seq<char>, v: Gc)
        requires
            m.contains_key(k) ==> m[k] == v,
        ensures
            keeps_interned(m, m.insert(k, v)),
    {
    }

    /// A block in a scope of its own (`begin_scope`, a body that continues
    /// the state, `end_scope`) continues the state it started from.
    proof fn lemma_scoped(pre: &Self, s1: &Self, s2: &Self, post: &Self)
        requires
            s1.function_arena == pre.function_arena,
            s1.current == pre.current,
            s1.parser == pre.parser,
            s1.scope_depth == pre.scope_depth + 1,
            s1.evolves_to(s2),
            post.scope_depth == s2.scope_depth - 1,
            post.function_arena == s2.function_arena,
            post.parser.scanner.source == s2.parser.scanner.source,
            post.current.function_type == s2.current.function_type,
            post.code().len() >= s2.code().len(),
            forall|i: int| 0 <= i < s2.code().len() ==> #[trigger] post.code()[i] == s2.code()[i],
            post.parser.progress() == s2.parser.progress(),
            s2.parser.had_error ==> post.parser.had_error,
            s1.strings == pre.strings,
            post.strings == s2.strings,
            post.parser.consumed == s2.parser.consumed,
            post.current.function.arity == s2.current.function.arity,
            post.current.function.name == s2.current.function.name,
        ensures
            pre.evolves_to(post),
    {
    }

    /// Compiling a nested function (its scope opened, its body continuing
    /// the state, its block scope closed, its scope closed) gives back the
    /// enclosing function as it was, apart from capture bookkeeping.
    proof fn lemma_nested(pre: &Self, s0: &Self, s1: &Self, s2: &Self, post: &Self)
        requires
            s0.function_arena@ == pre.function_arena@.push(pre.current),
            s0.scope_depth == pre.scope_depth + 1,
            s0.parser == pre.parser,
            s0.evolves_params(s1),
            s2.scope_depth == s1.scope_depth - 1,
            s2.function_arena == s1.function_arena,
            s2.parser.scanner.source == s1.parser.scanner.source,
            s2.parser.progress() == s1.parser.progress(),
            s1.parser.had_error ==> s2.parser.had_error,
            keeps_interned(pre.strings.view(), s0.strings.view()),
            s2.strings == s1.strings,
            s2.parser.consumed == s1.parser.consumed,
            post.strings == s2.strings,
            post.function_arena@ == s2.function_arena@.drop_last(),
            post.current == s2.function_arena@.last(),
            post.scope_depth == s2.scope_depth,
            post.parser == s2.parser,
        ensures
            pre.evolves_to(post),
            post.current.locals@.len() == pre.current.locals@.len(),
            post.current.function.chunk == pre.current.function.chunk,
    {
        let n = pre.function_arena@.len() as int;
        assert(s0.enclosing_sig() =~= pre.enclosing_sig().push(
            (
                pre.current.function.chunk,
                pre.current.function_type,
                pre.current.locals@.len(),
                pre.current.function.name,
                pre.current.function.arity,
            ),
        ));
        assert(post.enclosing_sig() =~= s2.enclosing_sig().drop_last());
        assert(s2.enclosing_sig()[n] == s0.enclosing_sig()[n]);
        assert(post.enclosing_sig() =~= pre.enclosing_sig());
        assert(s2.function_arena@[n] == post.current);
    }

    /// Changing the current function's arity keeps the invariant, away from
    /// the script.
    proof fn lemma_inv_arity(&self, before: &Self)
        requires
            before.inv(),
            before.function_arena@.len() >= 1,
            self.parser == before.parser,
            self.function_arena == before.function_arena,
            self.strings == before.strings,
            self.heap == before.heap,
            self.scope_depth == before.scope_depth,
            self.number_value == before.number_value,
            self.current.function_type == before.current.function_type,
            self.current.locals == before.current.locals,
            self.current.upvalues == before.current.upvalues,
            self.current.function.chunk == before.current.function.chunk,
            self.current.function.name == before.current.function.name,
            self.current.function.upvalue_count == before.current.function.upvalue_count,
        ensures
            self.inv(),
            before.evolves_params(self),
    {
        assert(self.arena()[0] == before.arena()[0]);
        assert(self.enclosing_sig() == before.enclosing_sig());
        let n = self.function_arena@.len() as int;
        assert(before.arena()[n] == before.current);
        assert forall|k: int| 0 <= k < self.arena().len() implies scope_ok(#[trigger] self.arena()[k], self.src_len(), self.heap) by {
            assert(scope_ok(before.arena()[k], self.src_len(), self.heap));
            if k < n {
                assert(self.arena()[k] == before.arena()[k]);
            }
        }
    }

    /// Synchronizing the parser keeps the invariant.
    proof fn lemma_inv_diag_sync(&self, before: &Self)
        requires
            before.inv(),
            self.parser.ready(),
            self.parser.error_flag_ok(),
            self.parser.scanner.source == before.parser.scanner.source,
            self.parser.progress() <= before.parser.progress(),
            self.function_arena == before.function_arena,
            self.current == before.current,
            self.strings == before.strings,
            self.heap == before.heap,
            self.scope_depth == before.scope_depth,
            self.number_value == before.number_value,
        ensures
            self.inv(),
    {
        assert(self.arena() == before.arena());
    }

    /// `fun`, the function's name and the function.
    fn fun_declaration(&mut self)
        requires
            old(self).in_body(),
            old(self).scope_depth + old(self).parser.progress() < old(self).src_len() + 1,
        ensures
            final(self).in_body(),
            old(self).evolves_to(&*final(self)),
            final(self).code().len() >= old(self).code().len() + 2,
            final(self).code()[old(self).code().len() as int] == OP_CLOSURE,
            old(self).scope_depth == 0 ==> {
                let c = final(self).code();
                &&& c.len() >= old(self).code().len() + 4
                &&& c[c.len() - 2] == OP_DEFINE_GLOBAL
                &&& c.last() == constant_byte(old(self).current.function.chunk.constants.values@.len())
            },
            old(self).scope_depth > 0 && old(self).current.locals@.len() < 256 ==> final(self).current.locals@.len()
                == old(self).current.locals@.len() + 1,
        decreases old(self).parser.progress(), 9nat,
    {
        let global = self.parse_variable("Expect function name.");
        let ghost s1 = *self;
        self.mark_initialized();
        let ghost s2 = *self;
        self.function(FunctionType::Function);
        let ghost s3 = *self;
        self.define_variable(global);
        proof {
            let o = old(self).code().len() as int;
            assert(s2.code() == old(self).code());
            assert(s3.code()[o] == OP_CLOSURE);
            assert(self.code()[o] == s3.code()[o]);
        }
    }

    /// Opens the scope of a function whose name is the token just consumed.
    fn begin_function_scope(&mut self, function_type: FunctionType)
        requires
            old(self).in_body(),
        ensures
            final(self).inv(),
            final(self).function_arena@ == old(self).function_arena@.push(old(self).current),
            final(self).current.function_type == function_type,
            final(self).current.function.arity == 0,
            final(self).current.function.chunk.code@.len() == 0,
            final(self).current.upvalues@.len() == 0,
            final(self).current.locals@ == seq![spec_reserved_local()],
            final(self).current.function.upvalue_count == 0,
            final(self).current.function.chunk.constants.values@.len() == 0,
            final(self).current.function.chunk.lines@.len() == 0,
            function_type == FunctionType::Function ==> {
                let text = token_text(old(self).parser.scanner.source@, old(self).parser.previous);
                &&& final(self).strings.view().contains_key(text)
                &&& final(self).current.function.name == Some(final(self).strings.view()[text])
            },
            function_type != FunctionType::Function ==> final(self).current.function.name is None,
            keeps_interned(old(self).strings.view(), final(self).strings.view()),
            final(self).scope_depth == old(self).scope_depth,
            final(self).parser == old(self).parser,
    {
        let ghost h0 = self.heap;
        let name = if function_type == FunctionType::Function {
            let text = self.parser.scanner.get_source(self.parser.previous.start, self.parser.previous.length);
            let ghost v0 = self.strings.view();
            let ghost t0 = text@;
            let g = self.strings.intern(&mut self.heap, text);
            proof {
                Self::lemma_intern_keeps(v0, t0, g);
                crate::memory::lemma_closed_after_add(h0, self.heap, g);
                lemma_interns_all_intern(v0, h0, self.strings.view(), self.heap, t0, g);
            }
            Some(g)
        } else {
            None
        };
        let mut locals = Vec::new();
        locals.push(reserved_local());
        let mut scope = FunctionScope {
            function_type,
            function: ObjFunction { arity: 0, upvalue_count: 0, chunk: Chunk::new(), name },
            locals,
            upvalues: Vec::new(),
        };
        std::mem::swap(&mut self.current, &mut scope);
        self.function_arena.push(scope);
        proof {
            assert forall|k: int| 0 <= k < self.arena().len() implies scope_ok(#[trigger] self.arena()[k], self.src_len(), self.heap) by {
                if k < old(self).arena().len() {
                    assert(self.arena()[k] == old(self).arena()[k]);
                    assert(scope_ok(old(self).arena()[k], self.src_len(), h0));
                    crate::memory::lemma_refs_live_grow(h0, self.heap, self.arena()[k].function);
                }
            }
        }
    }

    /// Closes the innermost function scope and gives it back.
    fn end_function_scope(&mut self) -> (res: FunctionScope)
        requires
            old(self).inv(),
            old(self).function_arena@.len() >= 1,
        ensures
            final(self).inv(),
            res == old(self).current,
            final(self).function_arena@ == old(self).function_arena@.drop_last(),
            final(self).current == old(self).function_arena@.last(),
            final(self).scope_depth == old(self).scope_depth,
            final(self).parser == old(self).parser,
            final(self).heap == old(self).heap,
            final(self).strings == old(self).strings,
            scope_ok(res, final(self).src_len(), final(self).heap),
    {
        let mut top = self.function_arena.pop().unwrap();
        std::mem::swap(&mut self.current, &mut top);
        proof {
            assert(old(self).arena()[old(self).arena().len() - 1] == old(self).current);
            assert forall|k: int| 0 <= k < self.arena().len() implies scope_ok(#[trigger] self.arena()[k], self.src_len(), self.heap) by {
                assert(self.arena()[k] == old(self).arena()[k]);
            }
        }
        top
    }

    /// A function's parameters and body, compiled in a scope of its own;
    /// then, in the enclosing function, `OP_CLOSURE` with the function's
    /// constant and a pair of operand bytes per captured variable.
    #[verifier::rlimit(80)]
    fn function(&mut self, function_type: FunctionType)
        requires
            old(self).in_body(),
            old(self).scope_depth + old(self).parser.progress() < old(self).src_len() + 1,
        ensures
            final(self).in_body(),
            old(self).evolves_to(&*final(self)),
            final(self).current.locals@.len() == old(self).current.locals@.len(),
            old(self).emitted_closure(&*final(self)),
            match final(self).current.function.chunk.constants.values@.last() {
                Value::Obj(g) => match final(self).heap.obj(g).obj_type {
                    ObjType::Function(f) => {
                        &&& (function_type == FunctionType::Function ==> {
                            let text = token_text(old(self).parser.scanner.source@, old(self).parser.previous);
                            &&& final(self).strings.view().contains_key(text)
                            &&& f.name == Some(final(self).strings.view()[text])
                        })
                        &&& (function_type != FunctionType::Function ==> f.name is None)
                        &&& ends_in_return(f.chunk.code@)
                        &&& (!final(self).parser.had_error ==> f.arity == parameter_count(old(self).read_since(&*final(self))))
                    },
                    _ => false,
                },
                _ => false,
            },
        decreases old(self).parser.progress(), 8nat,
    {
        let ghost pre = *self;
        self.begin_function_scope(function_type);
        let ghost sb = *self;
        self.begin_scope();
        let ghost s0 = *self;
        proof {
            s0.lemma_evolves_refl();
        }
        self.parser.consume(TokenType::LeftParen, "Expect '(' after function name.");
        proof {
            assert(self.arena() == s0.arena());
            if !self.parser.had_error {
                let r = s0.read_since(&*self);
                assert(r =~= seq![s0.parser.current]);
                assert(r.drop_first() =~= Seq::<Token>::empty());
                assert(identifier_count(r.drop_first()) == 0);
                assert(r[0].token_type == TokenType::LeftParen);
                assert(identifier_count(r) == 0);
                assert(s0.current.function.arity == 0);
            }
        }
        if !self.parser.check(TokenType::RightParen) {
            let ghost p0 = self.parser.progress();
            loop
                invariant_except_break
                    self.current.function.arity + self.parser.progress() <= p0 + 1,
                invariant
                    self.in_body(),
                    s0.evolves_params(&*self),
                    p0 <= self.src_len() + 1,
                    self.function_arena@.len() >= 1,
                    !self.parser.had_error ==> {
                        let r = s0.read_since(&*self);
                        &&& forall|i: int| 0 <= i < r.len() ==> (#[trigger] r[i]).token_type != TokenType::RightParen
                        &&& identifier_count(r) == self.current.function.arity
                    },
                decreases self.parser.progress(),
            {
                let ghost sa = *self;
                self.current.function.arity = self.current.function.arity + 1;
                proof {
                    self.lemma_inv_arity(&sa);
                }
                if self.current.function.arity > 255 {
                    let ghost mid = *self;
                    self.parser.error_at_current("Cannot have more than 255 parameters.".to_string());
                    proof {
                        self.lemma_inv_diag(&mid);
                    }
                }
                let ghost sv = *self;
                let param_constant = self.parse_variable("Expect parameter name.");
                self.define_variable(param_constant);
                let ghost s2 = *self;
                let more = self.parser.match_token(TokenType::Comma);
                proof {
                    assert(self.arena() == s2.arena());
                    if !self.parser.had_error {
                        let r0 = s0.read_since(&sv);
                        let r2 = s0.read_since(&s2);
                        let r3 = s0.read_since(&*self);
                        assert(r2 =~= r0.push(sv.parser.current));
                        lemma_identifiers_push(r0, sv.parser.current);
                        if more {
                            assert(r3 =~= r2.push(s2.parser.current));
                            lemma_identifiers_push(r2, s2.parser.current);
                        } else {
                            assert(r3 =~= r2);
                        }
                    }
                }
                if !more {
                    break;
                }
            }
        }
        let ghost s3 = *self;
        self.parser.consume(TokenType::RightParen, "Expect ')' after parameters.");
        let ghost s_rp = *self;
        self.parser.consume(TokenType::LeftBrace, "Expect '{' before function body.");
        proof {
            assert(self.arena() == s3.arena());
        }
        self.block();
        self.emit_return();
        let ghost s4 = *self;
        self.end_scope();
        let ghost s5 = *self;
        let function_scope = self.end_function_scope();
        proof {
            Self::lemma_nested(&pre, &s0, &s4, &s5, &*self);
        }
        let ghost s6 = *self;
        let ghost h0 = self.heap;
        let FunctionScope { function, upvalues, .. } = function_scope;
        let g = Gc::new(&mut self.heap, Obj::new_function(function));
        proof {
            crate::memory::lemma_closed_after_add(h0, self.heap, g);
            lemma_interns_all_new(self.strings.view(), h0, self.heap, g);
            assert forall|k: int| 0 <= k < self.arena().len() implies scope_ok(#[trigger] self.arena()[k], self.src_len(), self.heap) by {
                assert(self.arena()[k] == s6.arena()[k]);
                crate::memory::lemma_refs_live_grow(h0, self.heap, self.arena()[k].function);
            }
            assert(self.enclosing_sig() == s6.enclosing_sig());
        }
        let constant = self.make_constant(Value::Obj(g));
        self.emit_bytes(OP_CLOSURE, constant);
        let ghost s7 = *self;
        let ghost o = old(self).code().len() as int;
        proof {
            let r = s4.code().len() - 2;
            assert(function.chunk.code@ == s5.code());
            assert(s5.code()[r] == s4.code()[r]);
            assert(s5.code()[r + 1] == s4.code()[r + 1]);
            assert(ends_in_return(function.chunk.code@));
            assert(function.name == sb.current.function.name);
            assert(keeps_interned(sb.strings.view(), s7.strings.view()));
        }
        proof {
            assert(s6.current.function.chunk == old(self).current.function.chunk);
            assert(self.heap.obj(g).obj_type == ObjType::Function(function));
        }
        let mut i: usize = 0;
        while i < upvalues.len()
            invariant
                self.in_body(),
                old(self).evolves_to(&*self),
                self.current.locals@.len() == old(self).current.locals@.len(),
                i <= upvalues@.len(),
                o == old(self).code().len(),
                s7.code().len() == o + 2,
                self.code().len() == o + 2 + 2 * i,
                forall|j: int| 0 <= j < o + 2 ==> #[trigger] self.code()[j] == s7.code()[j],
                forall|j: int| o + 2 <= j < self.code().len() && (j - o) % 2 == 0 ==> #[trigger] self.code()[j] <= 1,
                self.current.function.chunk.constants == s7.current.function.chunk.constants,
                self.heap == s7.heap,
                self.strings == s7.strings,
                self.parser == s7.parser,
            decreases upvalues@.len() - i,
        {
            let upvalue = upvalues[i];
            self.emit_byte(if upvalue.is_local { 1 } else { 0 });
            self.emit_byte(upvalue.index);
            i = i + 1;
        }
        proof {
            assert(self.code()[o] == s7.code()[o]);
            assert(self.code()[o + 1] == s7.code()[o + 1]);
            assert(function.upvalue_count == upvalues@.len());
            assert(function.arity == s3.current.function.arity);
            if !self.parser.had_error {
                let c0 = s0.parser.consumed@;
                let c3 = s3.parser.consumed@;
                let crp = s_rp.parser.consumed@;
                let cf = self.parser.consumed@;
                assert(crp == c3.push(s3.parser.current));
                assert(prefix_of(c3, crp));
                assert(prefix_of(crp, cf));
                lemma_read_split(c3, crp, cf);
                assert(prefix_of(c0, c3));
                lemma_read_split(c0, c3, cf);
                let rest = cf.subrange(c3.len() as int, cf.len() as int);
                assert(rest[0].token_type == TokenType::RightParen);
                lemma_parameters_after(c3.subrange(c0.len() as int, c3.len() as int), rest);
                assert(old(self).parser.consumed@ == c0);
            }
        }
    }

    /// Compiles the whole source: the script function, or failure. Either
    /// way the messages reported, in order.
    pub fn compile(self) -> (res: (Option<RuntimeExpression>, Vec<Diagnostic>))
        requires
            self.fresh(),
        ensures
            res.0 is Some <==> !(exists|i: int| 0 <= i < res.1@.len() && res.1@[i] is Error),
            res.0 matches Some(rt) ==> {
                &&& rt.heap.wf()
                &&& heap_closed(rt.heap)
                &&& rt.strings.wf()
                &&& interns(rt.strings, rt.heap)
                &&& function_refs_live(rt.heap, rt.function)
                &&& rt.function.arity == 0
                &&& rt.function.name is None
                &&& rt.function.upvalue_count == 0
                &&& rt.function.chunk.code@.len() >= 2
                &&& rt.function.chunk.code@[rt.function.chunk.code@.len() - 2] == OP_NIL
                &&& rt.function.chunk.code@.last() == OP_RETURN
                &&& interns_all(rt.strings, rt.heap)
                &&& rt.function.chunk.code@.len() == rt.function.chunk.lines@.len()
            },
    {
        let mut c = self;
        c.parser.advance();
        proof {
            assert(c.arena().len() == 1);
            assert(c.arena()[0] == c.current);
            assert forall|k: int| 0 <= k < c.arena().len() implies scope_ok(#[trigger] c.arena()[k], c.src_len(), c.heap) by {
                assert(c.arena()[k] == c.current);
            }
            assert(c.parser.progress() <= c.src_len() + 1);
        }
        while !c.parser.match_token(TokenType::Eof)
            invariant
                c.in_body(),
                c.function_arena@.len() == 0,
                c.current.function_type == FunctionType::Script,
                c.scope_depth == 0,
            decreases c.parser.progress(),
        {
            c.declaration();
        }
        c.emit_return();
        proof {
            assert(c.arena()[0] == c.current);
        }
        let had_error = c.parser.had_error;
        let diagnostics = c.parser.diagnostics;
        if had_error {
            (None, diagnostics)
        } else {
            (Some(RuntimeExpression::new(c.current.function, c.strings, c.heap)), diagnostics)
        }
    }
}

} // verus!

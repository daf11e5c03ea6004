use vstd::prelude::*;

verus! {

/// The kinds of Lox token.
#[derive(Clone, Copy, PartialEq, Eq, Structural)]
pub enum TokenType {
    // Single-character tokens.
    LeftParen,
    RightParen,
    LeftBrace,
    RightBrace,
    Comma,
    Dot,
    Minus,
    Plus,
    Semicolon,
    Slash,
    Star,
    // One or two character tokens.
    Bang,
    BangEqual,
    Equal,
    EqualEqual,
    Greater,
    GreaterEqual,
    Less,
    LessEqual,
    // Literals.
    Identifier,
    String,
    Number,
    // Keywords.
    And,
    Class,
    Else,
    False,
    For,
    Fun,
    If,
    Nil,
    Or,
    Print,
    Return,
    Super,
    This,
    True,
    Var,
    While,
    Error,
    Eof,
}

/// A token: its kind, where its text lies in the source (in characters),
/// its line, and for an error token the message.
pub struct Token {
    pub token_type: TokenType,
    pub start: usize,
    pub length: usize,
    pub line: usize,
    pub error_message: Option<String>,
}

impl Clone for Token {
    fn clone(&self) -> (res: Self)
        ensures
            res == *self,
    {
        Token {
            token_type: self.token_type,
            start: self.start,
            length: self.length,
            line: self.line,
            error_message: match &self.error_message {
                Some(m) => Some(m.clone()),
                None => None,
            },
        }
    }
}

impl Token {
    /// The token a parser holds before it has read any: an end of input at
    /// the start of line 0.
    pub fn default() -> (res: Self)
        ensures
            res.token_type == TokenType::Eof,
            res.start == 0,
            res.length == 0,
            res.line == 0,
            res.error_message is None,
    {
        Token { token_type: TokenType::Eof, start: 0, length: 0, line: 0, error_message: None }
    }
}

pub open spec fn spec_is_digit(c: char) -> bool {
    '0' <= c && c <= '9'
}

pub open spec fn spec_is_alpha(c: char) -> bool {
    ('a' <= c && c <= 'z') || ('A' <= c && c <= 'Z') || c == '_'
}

/// The kind of a word: the keyword it spells, or an identifier.
pub open spec fn keyword_type(text: Seq<char>) -> TokenType {
    if text =~= seq!['a', 'n', 'd'] {
        TokenType::And
    } else if text =~= seq!['c', 'l', 'a', 's', 's'] {
        TokenType::Class
    } else if text =~= seq!['e', 'l', 's', 'e'] {
        TokenType::Else
    } else if text =~= seq!['f', 'a', 'l', 's', 'e'] {
        TokenType::False
    } else if text =~= seq!['f', 'o', 'r'] {
        TokenType::For
    } else if text =~= seq!['f', 'u', 'n'] {
        TokenType::Fun
    } else if text =~= seq!['i', 'f'] {
        TokenType::If
    } else if text =~= seq!['n', 'i', 'l'] {
        TokenType::Nil
    } else if text =~= seq!['o', 'r'] {
        TokenType::Or
    } else if text =~= seq!['p', 'r', 'i', 'n', 't'] {
        TokenType::Print
    } else if text =~= seq!['r', 'e', 't', 'u', 'r', 'n'] {
        TokenType::Return
    } else if text =~= seq!['s', 'u', 'p', 'e', 'r'] {
        TokenType::Super
    } else if text =~= seq!['t', 'h', 'i', 's'] {
        TokenType::This
    } else if text =~= seq!['t', 'r', 'u', 'e'] {
        TokenType::True
    } else if text =~= seq!['v', 'a', 'r'] {
        TokenType::Var
    } else if text =~= seq!['w', 'h', 'i', 'l', 'e'] {
        TokenType::While
    } else {
        TokenType::Identifier
    }
}

/// The spelling of a keyword kind; `None` for other kinds.
pub open spec fn keyword_spelling(t: TokenType) -> Option<Seq<char>> {
    match t {
        TokenType::And => Some(seq!['a', 'n', 'd']),
        TokenType::Class => Some(seq!['c', 'l', 'a', 's', 's']),
        TokenType::Else => Some(seq!['e', 'l', 's', 'e']),
        TokenType::False => Some(seq!['f', 'a', 'l', 's', 'e']),
        TokenType::For => Some(seq!['f', 'o', 'r']),
        TokenType::Fun => Some(seq!['f', 'u', 'n']),
        TokenType::If => Some(seq!['i', 'f']),
        TokenType::Nil => Some(seq!['n', 'i', 'l']),
        TokenType::Or => Some(seq!['o', 'r']),
        TokenType::Print => Some(seq!['p', 'r', 'i', 'n', 't']),
        TokenType::Return => Some(seq!['r', 'e', 't', 'u', 'r', 'n']),
        TokenType::Super => Some(seq!['s', 'u', 'p', 'e', 'r']),
        TokenType::This => Some(seq!['t', 'h', 'i', 's']),
        TokenType::True => Some(seq!['t', 'r', 'u', 'e']),
        TokenType::Var => Some(seq!['v', 'a', 'r']),
        TokenType::While => Some(seq!['w', 'h', 'i', 'l', 'e']),
        _ => None,
    }
}

/// A word is a keyword only as the whole word: a word of some keyword kind
/// is exactly that keyword's spelling, and each keyword's spelling is a word
/// of its kind.
pub proof fn lemma_keyword_whole_word(text: Seq<char>, t: TokenType)
    ensures
        keyword_type(text) != TokenType::Identifier ==> keyword_spelling(keyword_type(text)) == Some(text),
        keyword_spelling(t) == Some(text) ==> keyword_type(text) == t,
{
}

/// A word that continues past a keyword is not that keyword: adding a
/// character to a keyword never gives a word of the same kind.
pub proof fn lemma_keyword_not_prefix(text: Seq<char>, c: char)
    requires
        keyword_type(text) != TokenType::Identifier,
    ensures
        keyword_type(text.push(c)) != keyword_type(text),
{
    lemma_keyword_whole_word(text, keyword_type(text));
    lemma_keyword_whole_word(text.push(c), keyword_type(text));
}

/// The kind of a one-character token, for the characters that form one
/// alone.
pub open spec fn single_char_type(c: char) -> Option<TokenType> {
    if c == '(' {
        Some(TokenType::LeftParen)
    } else if c == ')' {
        Some(TokenType::RightParen)
    } else if c == '{' {
        Some(TokenType::LeftBrace)
    } else if c == '}' {
        Some(TokenType::RightBrace)
    } else if c == ';' {
        Some(TokenType::Semicolon)
    } else if c == ',' {
        Some(TokenType::Comma)
    } else if c == '.' {
        Some(TokenType::Dot)
    } else if c == '-' {
        Some(TokenType::Minus)
    } else if c == '+' {
        Some(TokenType::Plus)
    } else if c == '/' {
        Some(TokenType::Slash)
    } else if c == '*' {
        Some(TokenType::Star)
    } else {
        None
    }
}

/// The kinds of the operators that may be followed by `=`: without it, and
/// with it.
pub open spec fn operator_types(c: char) -> Option<(TokenType, TokenType)> {
    if c == '!' {
        Some((TokenType::Bang, TokenType::BangEqual))
    } else if c == '=' {
        Some((TokenType::Equal, TokenType::EqualEqual))
    } else if c == '<' {
        Some((TokenType::Less, TokenType::LessEqual))
    } else if c == '>' {
        Some((TokenType::Greater, TokenType::GreaterEqual))
    } else {
        None
    }
}

/// A character that the scanner skips between tokens.
pub open spec fn spec_is_blank(c: char) -> bool {
    c == ' ' || c == '\r' || c == '\t' || c == '\n'
}

/// Where a `//` comment whose text starts at `i` ends: at the next newline,
/// or at the end of the source.
pub open spec fn comment_end(src: Seq<char>, i: int) -> int
    decreases src.len() - i,
{
    if i >= src.len() || src[i] == '\n' {
        i
    } else {
        comment_end(src, i + 1)
    }
}

/// A comment ends where it starts or later.
pub proof fn lemma_comment_end(src: Seq<char>, i: int)
    ensures
        comment_end(src, i) >= i,
        i <= src.len() ==> comment_end(src, i) <= src.len(),
    decreases src.len() - i,
{
    if !(i >= src.len() || src[i] == '\n') {
        lemma_comment_end(src, i + 1);
    }
}

/// The text from `from` up to `to` is blanks and `//` comments only.
pub open spec fn skippable(src: Seq<char>, from: int, to: int) -> bool
    decreases to - from,
{
    if from >= to {
        from == to
    } else if spec_is_blank(src[from]) {
        skippable(src, from + 1, to)
    } else if src[from] == '/' && char_at(src, from + 1) == '/' {
        let e = comment_end(src, from + 2);
        proof {
            lemma_comment_end(src, from + 2);
        }
        e <= to && skippable(src, e, to)
    } else {
        false
    }
}

/// Skippable text followed by skippable text is skippable.
pub proof fn lemma_skippable_trans(src: Seq<char>, a: int, b: int, c: int)
    requires
        skippable(src, a, b),
        skippable(src, b, c),
    ensures
        skippable(src, a, c),
    decreases b - a,
{
    if a < b {
        if spec_is_blank(src[a]) {
            lemma_skippable_trans(src, a + 1, b, c);
        } else {
            lemma_comment_end(src, a + 2);
            lemma_skippable_trans(src, comment_end(src, a + 2), b, c);
        }
    }
}

/// The number of newlines from `from` up to `to`.
pub open spec fn newlines(src: Seq<char>, from: int, to: int) -> nat
    decreases to - from,
{
    if from >= to {
        0
    } else {
        (if src[from] == '\n' { 1nat } else { 0nat }) + newlines(src, from + 1, to)
    }
}

/// Counting newlines one more character to the right.
pub proof fn lemma_newlines_step(src: Seq<char>, from: int, to: int)
    requires
        from <= to,
    ensures
        newlines(src, from, to + 1) == newlines(src, from, to) + (if src[to] == '\n' { 1nat } else { 0nat }),
    decreases to - from,
{
    if from < to {
        lemma_newlines_step(src, from + 1, to);
    } else {
        assert(newlines(src, to + 1, to + 1) == 0);
    }
}

/// Newlines counted over two adjacent stretches add up.
pub proof fn lemma_newlines_split(src: Seq<char>, a: int, b: int, c: int)
    requires
        a <= b <= c,
    ensures
        newlines(src, a, c) == newlines(src, a, b) + newlines(src, b, c),
    decreases b - a,
{
    if a < b {
        lemma_newlines_split(src, a + 1, b, c);
    }
}

/// The character that no token starts with: an error token of one
/// character.
pub open spec fn unexpected_char(c: char) -> bool {
    &&& !spec_is_alpha(c)
    &&& !spec_is_digit(c)
    &&& single_char_type(c) is None
    &&& operator_types(c) is None
    &&& c != '"'
}

/// An error token from `start` up to `end` with `message`: a string that
/// runs to the end of the source without its closing quote, or a character
/// that no token starts with.
pub open spec fn lexes_error(src: Seq<char>, start: int, end: int, message: Seq<char>) -> bool {
    ||| {
        &&& src[start] == '"'
        &&& end == src.len()
        &&& forall|i: int| start < i < end ==> src[i] != '"'
        &&& message == "Unterminated string."@
    }
    ||| {
        &&& end == start + 1
        &&& unexpected_char(src[start])
        &&& message == "Unexpected character."@
    }
}

/// The scanner reports an error token from `start` up to `end`.
pub open spec fn error_token_at(src: Seq<char>, start: int, end: int) -> bool {
    lexes_error(src, start, end, "Unterminated string."@) || lexes_error(src, start, end, "Unexpected character."@)
}

/// The text from `from` up to `to` is a run of error tokens, each after
/// skippable text.
pub open spec fn error_run(src: Seq<char>, from: int, to: int) -> bool
    decreases to - from,
{
    if to <= from {
        to == from
    } else {
        exists|p: int, s: int|
            #![trigger skippable(src, p, s)]
            from <= p <= s < to && error_run(src, from, p) && skippable(src, p, s) && error_token_at(src, s, to)
    }
}

/// An error token after skippable text extends a run of error tokens.
pub proof fn lemma_error_run_extend(src: Seq<char>, from: int, p: int, s: int, to: int)
    requires
        from <= p <= s < to,
        error_run(src, from, p),
        skippable(src, p, s),
        error_token_at(src, s, to),
    ensures
        error_run(src, from, to),
{
    assert(skippable(src, p, s));
}

/// The character at `i`, or NUL past the end.
pub open spec fn char_at(src: Seq<char>, i: int) -> char {
    if 0 <= i < src.len() {
        src[i]
    } else {
        '\0'
    }
}

/// The text of a token.
pub open spec fn lexeme(src: Seq<char>, start: int, length: int) -> Seq<char> {
    src.subrange(start, start + length)
}

/// The characters from `start` up to `end` are all digits.
pub open spec fn all_digits(src: Seq<char>, start: int, end: int) -> bool {
    forall|i: int| start <= i < end ==> spec_is_digit(#[trigger] src[i])
}

/// The characters from `start` up to `end` are all letters, digits or `_`.
pub open spec fn all_word_chars(src: Seq<char>, start: int, end: int) -> bool {
    forall|i: int| start <= i < end ==> spec_is_alpha(#[trigger] src[i]) || spec_is_digit(src[i])
}

/// What a token of each kind looks like in the source: a token of kind `t`
/// from `start` up to `end` in `src`. Words and numbers run as far as they
/// can.
pub open spec fn lexes_as(src: Seq<char>, start: int, end: int, t: TokenType) -> bool {
    let c = src[start];
    &&& 0 <= start < end <= src.len()
    &&& match t {
        TokenType::Identifier | TokenType::And | TokenType::Class | TokenType::Else
        | TokenType::False | TokenType::For | TokenType::Fun | TokenType::If | TokenType::Nil
        | TokenType::Or | TokenType::Print | TokenType::Return | TokenType::Super
        | TokenType::This | TokenType::True | TokenType::Var | TokenType::While => {
            &&& spec_is_alpha(c)
            &&& all_word_chars(src, start, end)
            &&& !(spec_is_alpha(char_at(src, end)) || spec_is_digit(char_at(src, end)))
            &&& t == keyword_type(lexeme(src, start, end - start))
        },
        TokenType::Number => {
            &&& spec_is_digit(c)
            &&& !spec_is_digit(char_at(src, end))
            &&& (all_digits(src, start, end) && !(char_at(src, end) == '.' && spec_is_digit(char_at(src, end + 1)))
                || exists|p: int| start < p < end - 1 && src[p] == '.' && all_digits(src, start, p) && all_digits(src, p + 1, end))
        },
        TokenType::String => {
            &&& c == '"'
            &&& end - start >= 2
            &&& src[end - 1] == '"'
            &&& forall|i: int| start < i < end - 1 ==> src[i] != '"'
        },
        TokenType::Bang | TokenType::Equal | TokenType::Less | TokenType::Greater => {
            &&& end == start + 1
            &&& operator_types(c) matches Some(p) && p.0 == t
            &&& char_at(src, end) != '='
        },
        TokenType::BangEqual | TokenType::EqualEqual | TokenType::LessEqual
        | TokenType::GreaterEqual => {
            &&& end == start + 2
            &&& operator_types(c) matches Some(p) && p.1 == t
            &&& src[start + 1] == '='
        },
        TokenType::Error | TokenType::Eof => false,
        _ => end == start + 1 && single_char_type(c) == Some(t),
    }
}

/// Scans Lox source text into tokens, one at a time.
pub struct Scanner {
    pub source: Vec<char>,
    pub start: usize,
    pub current: usize,
    pub line: usize,
}

/// The characters of `s`, in order.
pub(crate) fn chars_of(s: &str) -> (res: Vec<char>)
    ensures
        res@ == s@,
{
    broadcast use vstd::string::axiom_spec_iter;
    let mut out: Vec<char> = Vec::new();
    for c in iter: s.chars()
        invariant
            out@ == iter.seq().take(iter.index() as int),
    {
        out.push(c);
    }
    out
}

/// Trusted: std's `FromIterator<&char>` for `String` (`iter().collect()`).
/// The contract claims what std documents, that the string holds the
/// characters in order.
#[verifier::external_body]
pub(crate) fn string_from_chars(cs: &[char]) -> (res: String)
    ensures
        res@ == cs@,
{
    cs.iter().collect()
}

/// A character that is a letter or `_`.
pub fn is_alpha(c: char) -> (res: bool)
    ensures
        res == spec_is_alpha(c),
{
    ('a' <= c && c <= 'z') || ('A' <= c && c <= 'Z') || c == '_'
}

/// A decimal digit.
pub fn is_digit(c: char) -> (res: bool)
    ensures
        res == spec_is_digit(c),
{
    '0' <= c && c <= '9'
}

impl Scanner {
    /// The scanner's positions are within the source.
    pub open spec fn wf(&self) -> bool {
        &&& self.start <= self.current <= self.source@.len()
        &&& self.source@.len() < usize::MAX
        &&& self.line <= self.current + 1
    }

    /// A scanner at the start of `source`, on line 1.
    pub fn new(source: &str) -> (res: Self)
        requires
            source@.len() < usize::MAX,
        ensures
            res.wf(),
            res.source@ == source@,
            res.start == 0,
            res.current == 0,
            res.line == 1,
    {
        Scanner { source: chars_of(source), start: 0, current: 0, line: 1 }
    }

    /// The text from `start`, `length` characters long.
    pub fn get_source(&self, start: usize, length: usize) -> (res: String)
        requires
            self.wf(),
            start + length <= self.source@.len(),
        ensures
            res@ == lexeme(self.source@, start as int, length as int),
    {
        let slice = vstd::slice::slice_subrange(self.source.as_slice(), start, start + length);
        string_from_chars(slice)
    }

    fn is_at_end(&self) -> (res: bool)
        requires
            self.wf(),
        ensures
            res == (self.current == self.source@.len()),
    {
        self.current >= self.source.len()
    }

    fn advance(&mut self) -> (res: char)
        requires
            old(self).wf(),
            old(self).current < old(self).source@.len(),
        ensures
            final(self).wf(),
            res == old(self).source@[old(self).current as int],
            final(self).current == old(self).current + 1,
            final(self).start == old(self).start,
            final(self).line == old(self).line,
            final(self).source == old(self).source,
    {
        let c = self.source[self.current];
        self.current = self.current + 1;
        c
    }

    fn peek(&self) -> (res: char)
        requires
            self.wf(),
        ensures
            res == char_at(self.source@, self.current as int),
    {
        if self.current < self.source.len() {
            self.source[self.current]
        } else {
            '\0'
        }
    }

    fn peek_next(&self) -> (res: char)
        requires
            self.wf(),
        ensures
            res == char_at(self.source@, self.current + 1),
    {
        if self.current + 1 < self.source.len() {
            self.source[self.current + 1]
        } else {
            '\0'
        }
    }

    fn match_char(&mut self, expected: char) -> (res: bool)
        requires
            old(self).wf(),
        ensures
            final(self).wf(),
            res == (char_at(old(self).source@, old(self).current as int) == expected && old(self).current < old(self).source@.len()),
            final(self).current == old(self).current + (if res { 1int } else { 0int }),
            final(self).start == old(self).start,
            final(self).line == old(self).line,
            final(self).source == old(self).source,
    {
        if self.is_at_end() {
            return false;
        }
        if self.source[self.current] != expected {
            return false;
        }
        self.current = self.current + 1;
        true
    }

    fn make_token(&self, token_type: TokenType) -> (res: Token)
        requires
            self.start <= self.current,
        ensures
            res.token_type == token_type,
            res.start == self.start,
            res.length == self.current - self.start,
            res.line == self.line,
            res.error_message is None,
    {
        Token {
            token_type,
            start: self.start,
            length: self.current - self.start,
            line: self.line,
            error_message: None,
        }
    }

    fn error_token(&self, message: &str) -> (res: Token)
        requires
            self.start <= self.current,
        ensures
            res.token_type == TokenType::Error,
            res.start == self.start,
            res.length == self.current - self.start,
            res.line == self.line,
            res.error_message matches Some(m) && m@ == message@,
    {
        Token {
            token_type: TokenType::Error,
            start: self.start,
            length: self.current - self.start,
            line: self.line,
            error_message: Some(message.to_string()),
        }
    }

    /// Skips spaces, tabs, carriage returns, newlines (counting lines) and
    /// `//` comments.
    fn skip_whitespace(&mut self)
        requires
            old(self).wf(),
        ensures
            final(self).wf(),
            final(self).source == old(self).source,
            final(self).start == old(self).start,
            old(self).current <= final(self).current,
            final(self).line >= old(self).line,
            final(self).current < final(self).source@.len() ==> {
                let c = final(self).source@[final(self).current as int];
                &&& c != ' ' && c != '\r' && c != '\t' && c != '\n'
                &&& !(c == '/' && char_at(final(self).source@, final(self).current + 1) == '/')
            },
            skippable(old(self).source@, old(self).current as int, final(self).current as int),
            final(self).line == old(self).line + newlines(old(self).source@, old(self).current as int, final(self).current as int),
    {
        loop
            invariant
                self.wf(),
                self.source == old(self).source,
                self.start == old(self).start,
                old(self).current <= self.current,
                self.line >= old(self).line,
                skippable(self.source@, old(self).current as int, self.current as int),
                self.line == old(self).line + newlines(self.source@, old(self).current as int, self.current as int),
            ensures
                self.line == old(self).line + newlines(self.source@, old(self).current as int, self.current as int),
                self.wf(),
                self.source == old(self).source,
                self.start == old(self).start,
                old(self).current <= self.current,
                self.line >= old(self).line,
                skippable(self.source@, old(self).current as int, self.current as int),
                self.current < self.source@.len() ==> {
                    let c = self.source@[self.current as int];
                    &&& c != ' ' && c != '\r' && c != '\t' && c != '\n'
                    &&& !(c == '/' && char_at(self.source@, self.current + 1) == '/')
                },
            decreases self.source@.len() - self.current,
        {
            let c = self.peek();
            if self.is_at_end() {
                return;
            }
            let ghost before = self.current as int;
            proof {
                lemma_newlines_step(self.source@, old(self).current as int, before);
            }
            if c == ' ' || c == '\r' || c == '\t' {
                self.advance();
                proof {
                    assert(skippable(self.source@, before + 1, before + 1));
                    assert(skippable(self.source@, before, before + 1));
                    lemma_skippable_trans(self.source@, old(self).current as int, before, before + 1);
                }
            } else if c == '\n' {
                self.advance();
                self.line = self.line + 1;
                proof {
                    assert(skippable(self.source@, before + 1, before + 1));
                    assert(skippable(self.source@, before, before + 1));
                    lemma_skippable_trans(self.source@, old(self).current as int, before, before + 1);
                }
            } else if c == '/' {
                if self.peek_next() == '/' {
                    self.advance();
                    while self.peek() != '\n' && !self.is_at_end()
                        invariant
                            before < self.current,
                            self.wf(),
                            self.source == old(self).source,
                            self.start == old(self).start,
                            old(self).current < self.current,
                            self.line >= old(self).line,
                            comment_end(self.source@, self.current as int) == comment_end(self.source@, before + 2),
                            self.line == old(self).line + newlines(self.source@, old(self).current as int, self.current as int),
                        decreases self.source@.len() - self.current,
                    {
                        proof {
                            lemma_newlines_step(self.source@, old(self).current as int, self.current as int);
                        }
                        self.advance();
                    }
                    proof {
                        let src = self.source@;
                        assert(comment_end(src, self.current as int) == self.current);
                        assert(skippable(src, self.current as int, self.current as int));
                        assert(skippable(src, before, self.current as int));
                        lemma_skippable_trans(src, old(self).current as int, before, self.current as int);
                    }
                } else {
                    return;
                }
            } else {
                return;
            }
        }
    }
}


impl Scanner {
    /// The kind of the word from `start` to `current`.
    fn identifier_type(&self) -> (res: TokenType)
        requires
            self.wf(),
        ensures
            res == keyword_type(lexeme(self.source@, self.start as int, self.current - self.start)),
    {
        let text = vstd::slice::slice_subrange(self.source.as_slice(), self.start, self.current);
        let ghost t = text@;
        assert(t =~= lexeme(self.source@, self.start as int, self.current - self.start));
        let n = text.len();
        if n == 3 && text[0] == 'a' && text[1] == 'n' && text[2] == 'd' {
            return TokenType::And;
        }
        if n == 5 && text[0] == 'c' && text[1] == 'l' && text[2] == 'a' && text[3] == 's' && text[4] == 's' {
            return TokenType::Class;
        }
        if n == 4 && text[0] == 'e' && text[1] == 'l' && text[2] == 's' && text[3] == 'e' {
            return TokenType::Else;
        }
        if n == 5 && text[0] == 'f' && text[1] == 'a' && text[2] == 'l' && text[3] == 's' && text[4] == 'e' {
            return TokenType::False;
        }
        if n == 3 && text[0] == 'f' && text[1] == 'o' && text[2] == 'r' {
            return TokenType::For;
        }
        if n == 3 && text[0] == 'f' && text[1] == 'u' && text[2] == 'n' {
            return TokenType::Fun;
        }
        if n == 2 && text[0] == 'i' && text[1] == 'f' {
            return TokenType::If;
        }
        if n == 3 && text[0] == 'n' && text[1] == 'i' && text[2] == 'l' {
            return TokenType::Nil;
        }
        if n == 2 && text[0] == 'o' && text[1] == 'r' {
            return TokenType::Or;
        }
        if n == 5 && text[0] == 'p' && text[1] == 'r' && text[2] == 'i' && text[3] == 'n' && text[4] == 't' {
            return TokenType::Print;
        }
        if n == 6 && text[0] == 'r' && text[1] == 'e' && text[2] == 't' && text[3] == 'u' && text[4] == 'r' && text[5] == 'n' {
            return TokenType::Return;
        }
        if n == 5 && text[0] == 's' && text[1] == 'u' && text[2] == 'p' && text[3] == 'e' && text[4] == 'r' {
            return TokenType::Super;
        }
        if n == 4 && text[0] == 't' && text[1] == 'h' && text[2] == 'i' && text[3] == 's' {
            return TokenType::This;
        }
        if n == 4 && text[0] == 't' && text[1] == 'r' && text[2] == 'u' && text[3] == 'e' {
            return TokenType::True;
        }
        if n == 3 && text[0] == 'v' && text[1] == 'a' && text[2] == 'r' {
            return TokenType::Var;
        }
        if n == 5 && text[0] == 'w' && text[1] == 'h' && text[2] == 'i' && text[3] == 'l' && text[4] == 'e' {
            return TokenType::While;
        }
        TokenType::Identifier
    }

    /// The rest of a word whose first character has been read.
    fn identifier(&mut self) -> (res: Token)
        requires
            old(self).wf(),
            old(self).start < old(self).current,
            spec_is_alpha(old(self).source@[old(self).start as int]),
            all_word_chars(old(self).source@, old(self).start as int, old(self).current as int),
            newlines(old(self).source@, old(self).start as int, old(self).current as int) == 0,
        ensures
            newlines(final(self).source@, final(self).start as int, final(self).current as int) == 0,
            final(self).wf(),
            final(self).source == old(self).source,
            final(self).start == old(self).start,
            final(self).line == old(self).line,
            res.start == final(self).start,
            res.start + res.length == final(self).current,
            res.line == final(self).line,
            res.error_message is None,
            lexes_as(final(self).source@, res.start as int, final(self).current as int, res.token_type),
    {
        loop
            invariant
                self.wf(),
                self.source == old(self).source,
                self.start == old(self).start,
                self.line == old(self).line,
                self.start < self.current,
                all_word_chars(self.source@, self.start as int, self.current as int),
                newlines(self.source@, self.start as int, self.current as int) == 0,
            ensures
                newlines(self.source@, self.start as int, self.current as int) == 0,
                self.wf(),
                self.source == old(self).source,
                self.start == old(self).start,
                self.line == old(self).line,
                self.start < self.current,
                all_word_chars(self.source@, self.start as int, self.current as int),
                !(spec_is_alpha(char_at(self.source@, self.current as int)) || spec_is_digit(char_at(self.source@, self.current as int))),
            decreases self.source@.len() - self.current,
        {
            let c = self.peek();
            if is_alpha(c) || is_digit(c) {
                proof {
                    lemma_newlines_step(self.source@, self.start as int, self.current as int);
                }
                self.advance();
            } else {
                break;
            }
        }
        let t = self.identifier_type();
        self.make_token(t)
    }

    /// The rest of a number whose first digit has been read.
    fn number(&mut self) -> (res: Token)
        requires
            old(self).wf(),
            old(self).start + 1 == old(self).current,
            spec_is_digit(old(self).source@[old(self).start as int]),
            newlines(old(self).source@, old(self).start as int, old(self).current as int) == 0,
        ensures
            newlines(final(self).source@, final(self).start as int, final(self).current as int) == 0,
            final(self).wf(),
            final(self).source == old(self).source,
            final(self).start == old(self).start,
            final(self).line == old(self).line,
            res.token_type == TokenType::Number,
            res.start == final(self).start,
            res.start + res.length == final(self).current,
            res.line == final(self).line,
            res.error_message is None,
            lexes_as(final(self).source@, res.start as int, final(self).current as int, res.token_type),
    {
        while is_digit(self.peek())
            invariant
                self.wf(),
                self.source == old(self).source,
                self.start == old(self).start,
                self.line == old(self).line,
                self.start < self.current,
                all_digits(self.source@, self.start as int, self.current as int),
                newlines(self.source@, self.start as int, self.current as int) == 0,
            decreases self.source@.len() - self.current,
        {
            proof {
                lemma_newlines_step(self.source@, self.start as int, self.current as int);
            }
            self.advance();
        }
        if self.peek() == '.' && is_digit(self.peek_next()) {
            let p = self.current;
            proof {
                lemma_newlines_step(self.source@, self.start as int, self.current as int);
            }
            self.advance();
            while is_digit(self.peek())
                invariant
                    self.wf(),
                    self.source == old(self).source,
                    self.start == old(self).start,
                    self.line == old(self).line,
                    self.start < p < self.current,
                    self.source@[p as int] == '.',
                    all_digits(self.source@, self.start as int, p as int),
                    all_digits(self.source@, p + 1, self.current as int),
                    spec_is_digit(char_at(self.source@, p + 1)),
                    newlines(self.source@, self.start as int, self.current as int) == 0,
                decreases self.source@.len() - self.current,
            {
                proof {
                    lemma_newlines_step(self.source@, self.start as int, self.current as int);
                }
                self.advance();
            }
            proof {
                assert(p + 1 < self.current);
            }
        }
        self.make_token(TokenType::Number)
    }

    /// The rest of a string literal whose opening quote has been read.
    fn string(&mut self) -> (res: Token)
        requires
            old(self).wf(),
            old(self).start + 1 == old(self).current,
            old(self).source@[old(self).start as int] == '"',
        ensures
            final(self).line == old(self).line + newlines(old(self).source@, old(self).current as int, final(self).current as int),
            final(self).wf(),
            final(self).source == old(self).source,
            final(self).start == old(self).start,
            final(self).line >= old(self).line,
            res.start == final(self).start,
            res.start + res.length == final(self).current,
            res.line == final(self).line,
            res.token_type == TokenType::Error ==> (res.error_message matches Some(m) && m@ == "Unterminated string."@),
            res.token_type == TokenType::Error ==> final(self).current == final(self).source@.len(),
            res.token_type == TokenType::Error ==> forall|i: int| final(self).start < i < final(self).current ==> final(self).source@[i] != '"',
            res.token_type != TokenType::Error ==> res.token_type == TokenType::String && res.error_message is None
                && lexes_as(final(self).source@, res.start as int, final(self).current as int, res.token_type),
    {
        while self.peek() != '"' && !self.is_at_end()
            invariant
                self.wf(),
                self.source == old(self).source,
                self.start == old(self).start,
                self.line >= old(self).line,
                self.start < self.current,
                forall|i: int| self.start < i < self.current ==> self.source@[i] != '"',
                old(self).current <= self.current,
                self.line == old(self).line + newlines(self.source@, old(self).current as int, self.current as int),
            decreases self.source@.len() - self.current,
        {
            proof {
                lemma_newlines_step(self.source@, old(self).current as int, self.current as int);
            }
            let c = self.advance();
            if c == '\n' {
                self.line = self.line + 1;
            }
        }
        if self.is_at_end() {
            return self.error_token("Unterminated string.");
        }
        proof {
            lemma_newlines_step(self.source@, old(self).current as int, self.current as int);
        }
        self.advance();
        self.make_token(TokenType::String)
    }

    /// A punctuation or operator token whose first character `c` was just
    /// consumed, or an error token for a character that starts no token.
    fn symbol(&mut self, c: char) -> (res: Token)
        requires
            old(self).wf(),
            old(self).start + 1 == old(self).current,
            old(self).source@[old(self).start as int] == c,
            !spec_is_blank(c),
            !spec_is_alpha(c),
            !spec_is_digit(c),
            c != '"',
        ensures
            final(self).wf(),
            final(self).source == old(self).source,
            final(self).start == old(self).start,
            final(self).line == old(self).line,
            res.start == final(self).start,
            res.start + res.length == final(self).current,
            res.line == final(self).line,
            res.token_type != TokenType::Eof,
            res.length > 0,
            res.token_type == TokenType::Error <==> res.error_message is Some,
            res.token_type != TokenType::Error ==> lexes_as(final(self).source@, res.start as int, final(self).current as int, res.token_type),
            res.token_type == TokenType::Error ==> lexes_error(final(self).source@, res.start as int, final(self).current as int,
                res.error_message->Some_0@),
            newlines(final(self).source@, final(self).start as int, final(self).current as int) == 0,
    {
        proof {
            let src = self.source@;
            let st = self.start as int;
            assert(newlines(src, st + 1, st + 1) == 0);
            assert(newlines(src, st, st + 1) == 0);
            if st + 1 < src.len() && src[st + 1] == '=' {
                lemma_newlines_step(src, st, st + 1);
            }
        }
        if c == '(' {
            return self.make_token(TokenType::LeftParen);
        } else if c == ')' {
            return self.make_token(TokenType::RightParen);
        } else if c == '{' {
            return self.make_token(TokenType::LeftBrace);
        } else if c == '}' {
            return self.make_token(TokenType::RightBrace);
        } else if c == ';' {
            return self.make_token(TokenType::Semicolon);
        } else if c == ',' {
            return self.make_token(TokenType::Comma);
        } else if c == '.' {
            return self.make_token(TokenType::Dot);
        } else if c == '-' {
            return self.make_token(TokenType::Minus);
        } else if c == '+' {
            return self.make_token(TokenType::Plus);
        } else if c == '/' {
            return self.make_token(TokenType::Slash);
        } else if c == '*' {
            return self.make_token(TokenType::Star);
        } else if c == '!' {
            let t = if self.match_char('=') { TokenType::BangEqual } else { TokenType::Bang };
            return self.make_token(t);
        } else if c == '=' {
            let t = if self.match_char('=') { TokenType::EqualEqual } else { TokenType::Equal };
            return self.make_token(t);
        } else if c == '<' {
            let t = if self.match_char('=') { TokenType::LessEqual } else { TokenType::Less };
            return self.make_token(t);
        } else if c == '>' {
            let t = if self.match_char('=') { TokenType::GreaterEqual } else { TokenType::Greater };
            return self.make_token(t);
        }
        self.error_token("Unexpected character.")
    }

    /// The next token. Whitespace and comments before it are skipped; at the
    /// end of the source every call gives an end-of-input token.
    pub fn scan_token(&mut self) -> (res: Token)
        requires
            old(self).wf(),
        ensures
            final(self).wf(),
            final(self).source == old(self).source,
            final(self).line >= old(self).line,
            res.start == final(self).start,
            res.start + res.length == final(self).current,
            res.line == final(self).line,
            old(self).current <= res.start,
            res.token_type == TokenType::Eof <==> res.start == final(self).source@.len(),
            res.token_type == TokenType::Eof ==> res.length == 0,
            res.token_type != TokenType::Eof ==> res.length > 0,
            res.token_type == TokenType::Error <==> res.error_message is Some,
            res.token_type != TokenType::Error && res.token_type != TokenType::Eof ==>
                lexes_as(final(self).source@, res.start as int, final(self).current as int, res.token_type),
            res.token_type == TokenType::Error ==> lexes_error(final(self).source@, res.start as int, final(self).current as int,
                res.error_message->Some_0@),
            skippable(old(self).source@, old(self).current as int, res.start as int),
            final(self).line == old(self).line + newlines(old(self).source@, old(self).current as int, final(self).current as int),
    {
        self.skip_whitespace();
        let ghost skipped = *self;
        self.start = self.current;
        if self.is_at_end() {
            proof {
                assert(newlines(self.source@, self.start as int, self.current as int) == 0);
                lemma_newlines_split(self.source@, old(self).current as int, self.start as int, self.current as int);
            }
            return self.make_token(TokenType::Eof);
        }
        let c = self.advance();
        let ghost after_first = *self;
        proof {
            let src = self.source@;
            let st = self.start as int;
            assert(newlines(src, st + 1, st + 1) == 0);
            assert(newlines(src, st, st + 1) == 0);
        }
        let tok = if is_alpha(c) {
            self.identifier()
        } else if is_digit(c) {
            self.number()
        } else if c == '"' {
            self.string()
        } else {
            self.symbol(c)
        };
        proof {
            let src = self.source@;
            let st = self.start as int;
            lemma_newlines_split(src, st, st + 1, self.current as int);
            lemma_newlines_split(src, old(self).current as int, st, self.current as int);
        }
        tok
    }
}

} // verus!

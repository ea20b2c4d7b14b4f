use vstd::prelude::*;
use vstd::std_specs::iter::IteratorSpec;
use vstd::string::{axiom_spec_iter, next_postcondition};

verus! {

/// Relies on String::push: the character is appended at the end.
pub assume_specification[ String::push ](s: &mut String, ch: char)
    ensures
        final(s)@ == old(s)@.push(ch),
;

/// Relies on char::from_u32: a char exactly when the value is a Unicode scalar value.
pub assume_specification[ char::from_u32 ](i: u32) -> (r: Option<char>)
    ensures
        r == (if i < 0xD800 || (0xE000 <= i && i <= 0x10FFFF) {
            Some(i as char)
        } else {
            None
        }),
;

/// The kind of a token, with the text a string or number token carries.
#[derive(Debug, Clone, PartialEq)]
pub enum TokenVal {
    Eof,
    LBrace,
    RBrace,
    LBrack,
    RBrack,
    Comma,
    Colon,
    True,
    False,
    Null,
    JString(String),
    /// A number, kept as its literal text.
    JNumber(String),
}

/// A token as the lexer describes it mathematically.
pub enum SpecTok {
    Eof,
    LBrace,
    RBrace,
    LBrack,
    RBrack,
    Comma,
    Colon,
    True,
    False,
    Null,
    Str(Seq<char>),
    Num(Seq<char>),
}

impl View for TokenVal {
    type V = SpecTok;

    open spec fn view(&self) -> SpecTok {
        match self {
            TokenVal::Eof => SpecTok::Eof,
            TokenVal::LBrace => SpecTok::LBrace,
            TokenVal::RBrace => SpecTok::RBrace,
            TokenVal::LBrack => SpecTok::LBrack,
            TokenVal::RBrack => SpecTok::RBrack,
            TokenVal::Comma => SpecTok::Comma,
            TokenVal::Colon => SpecTok::Colon,
            TokenVal::True => SpecTok::True,
            TokenVal::False => SpecTok::False,
            TokenVal::Null => SpecTok::Null,
            TokenVal::JString(s) => SpecTok::Str(s@),
            TokenVal::JNumber(s) => SpecTok::Num(s@),
        }
    }
}

#[derive(Debug, Clone, PartialEq)]
pub struct Token {
    pub value: TokenVal,
    pub line_no: u64,
}

/// An error met while grouping characters into tokens.
#[derive(Debug, Clone, PartialEq)]
pub struct LexError {
    pub err_msg: String,
    pub line_no: u64,
}

impl LexError {
    pub fn new(err_msg: String, line_no: u64) -> (r: LexError)
        ensures
            r.err_msg@ == err_msg@,
            r.line_no == line_no,
    {
        LexError { err_msg, line_no }
    }
}

pub open spec fn msg_invalid_char() -> Seq<char> {
    "Invalid character"@
}

pub open spec fn msg_keyword() -> Seq<char> {
    "Invalid keyword"@
}

pub open spec fn msg_invalid_number() -> Seq<char> {
    "Invalid number"@
}

pub open spec fn msg_need_digit() -> Seq<char> {
    "Need at least one digit"@
}

pub open spec fn msg_escape() -> Seq<char> {
    "Invalid escape character"@
}

pub open spec fn msg_string_eof() -> Seq<char> {
    "Unexpected EOF while parsing string"@
}

/// The decimal text of a digit.
pub open spec fn digit_char(d: int) -> char {
    ((48 + d) as u32) as char
}

/// The decimal text of a number below one hundred.
pub open spec fn small_decimal(n: int) -> Seq<char> {
    if n < 10 {
        seq![digit_char(n)]
    } else {
        seq![digit_char(n / 10), digit_char(n % 10)]
    }
}

/// The message for a raw control character inside a string: it names its code.
pub open spec fn msg_control(c: char) -> Seq<char> {
    "Invalid character in string: "@ + small_decimal(c as u32 as int)
}

/// Whitespace skipped between tokens.
pub open spec fn is_space(c: char) -> bool {
    c == ' ' || c == '\t' || c == '\n' || c == '\r'
}

pub open spec fn is_digit(c: char) -> bool {
    '0' <= c && c <= '9'
}

pub open spec fn is_hex(c: char) -> bool {
    ('0' <= c && c <= '9') || ('a' <= c && c <= 'f') || ('A' <= c && c <= 'F')
}

pub open spec fn hex_val(c: char) -> int {
    if '0' <= c && c <= '9' {
        c as u32 - 48
    } else if 'a' <= c && c <= 'f' {
        c as u32 - 87
    } else {
        c as u32 - 55
    }
}

/// Where the run of whitespace that starts at `i` ends.
pub open spec fn ws_end(s: Seq<char>, i: int) -> int
    decreases s.len() - i,
{
    if 0 <= i < s.len() && is_space(s[i]) {
        ws_end(s, i + 1)
    } else {
        i
    }
}

/// The line number after skipping the whitespace at `i`: one more for each newline.
pub open spec fn ws_line(s: Seq<char>, i: int, line: int) -> int
    decreases s.len() - i,
{
    if 0 <= i < s.len() && is_space(s[i]) {
        ws_line(s, i + 1, if s[i] == '\n' { line + 1 } else { line })
    } else {
        line
    }
}

/// The length of the run of decimal digits that starts at `i`.
pub open spec fn digit_run(s: Seq<char>, i: int) -> nat
    decreases s.len() - i,
{
    if 0 <= i < s.len() && is_digit(s[i]) {
        1 + digit_run(s, i + 1)
    } else {
        0
    }
}

/// The length of the run of hexadecimal digits that starts at `i`.
pub open spec fn hex_run(s: Seq<char>, i: int) -> nat
    decreases s.len() - i,
{
    if 0 <= i < s.len() && is_hex(s[i]) {
        1 + hex_run(s, i + 1)
    } else {
        0
    }
}

/// The value of the `k` hexadecimal digits at `p`.
pub open spec fn hex_value(s: Seq<char>, p: int, k: int) -> int
    decreases k,
{
    if k <= 0 {
        0
    } else {
        hex_value(s, p, k - 1) * 16 + hex_val(s[p + k - 1])
    }
}

/// What one lexing step gives: a token and the index after it, or an error message with
/// the number of newlines the token consumed before the error.
pub enum Step {
    Tok(SpecTok, int),
    Fail(Seq<char>, int),
}

/// A keyword `k` at `i`: it must stand there letter for letter.
pub open spec fn keyword_step(s: Seq<char>, i: int, k: Seq<char>, t: SpecTok) -> Step {
    if i + k.len() <= s.len() && s.subrange(i, i + k.len()) == k {
        Step::Tok(t, i + k.len())
    } else {
        Step::Fail(msg_keyword(), 0)
    }
}

/// A number at `i`: optional `-`, then `0` or a nonzero digit and digits, then an optional
/// fraction and an optional exponent, each of which needs at least one digit.
pub open spec fn number_step(s: Seq<char>, i: int) -> Step {
    let a = if i < s.len() && s[i] == '-' { i + 1 } else { i };
    if !(a < s.len() && is_digit(s[a])) {
        Step::Fail(msg_invalid_number(), 0)
    } else {
        let b = if s[a] == '0' { a + 1 } else { a + 1 + digit_run(s, a + 1) };
        let has_frac = b < s.len() && s[b] == '.';
        if has_frac && digit_run(s, b + 1) == 0 {
            Step::Fail(msg_need_digit(), 0)
        } else {
            let c = if has_frac { b + 1 + digit_run(s, b + 1) } else { b };
            let has_exp = c < s.len() && (s[c] == 'e' || s[c] == 'E');
            let d = if has_exp && c + 1 < s.len() && (s[c + 1] == '+' || s[c + 1] == '-') {
                c + 2
            } else {
                c + 1
            };
            if has_exp && digit_run(s, d) == 0 {
                Step::Fail(msg_need_digit(), 0)
            } else {
                let e = if has_exp { d + digit_run(s, d) } else { c };
                Step::Tok(SpecTok::Num(s.subrange(i, e)), e)
            }
        }
    }
}

/// What the escape after a backslash gives.
pub enum Escape {
    /// The character it denotes, and the index after it.
    Char(char, int),
    /// An invalid escape, with the number of newlines consumed in reading it.
    Invalid(int),
    /// The input ended inside it.
    End,
}

/// The escape whose letter stands at `k` (just after the backslash). A `\u` takes four
/// hexadecimal digits naming a Unicode scalar value.
pub open spec fn escape_step(s: Seq<char>, k: int) -> Escape {
    if !(0 <= k < s.len()) {
        Escape::End
    } else if s[k] == '\\' {
        Escape::Char('\\', k + 1)
    } else if s[k] == '"' {
        Escape::Char('"', k + 1)
    } else if s[k] == '/' {
        Escape::Char('/', k + 1)
    } else if s[k] == 'b' {
        Escape::Char('\x08', k + 1)
    } else if s[k] == 'f' {
        Escape::Char('\x0c', k + 1)
    } else if s[k] == 'n' {
        Escape::Char('\n', k + 1)
    } else if s[k] == 'r' {
        Escape::Char('\r', k + 1)
    } else if s[k] == 't' {
        Escape::Char('\t', k + 1)
    } else if s[k] == 'u' {
        if k + 5 <= s.len() && hex_run(s, k + 1) >= 4 {
            let v = hex_value(s, k + 1, 4);
            if v < 0xD800 || v >= 0xE000 {
                Escape::Char((v as u32) as char, k + 5)
            } else {
                Escape::Invalid(0)
            }
        } else if k + 1 + hex_run(s, k + 1) >= s.len() {
            Escape::End
        } else {
            Escape::Invalid(0)
        }
    } else {
        Escape::Invalid(if s[k] == '\n' { 1 } else { 0 })
    }
}

/// The body of a string from `i` on, with `acc` read so far.
pub open spec fn string_step(s: Seq<char>, i: int, acc: Seq<char>) -> Step
    decreases s.len() - i,
{
    if !(0 <= i < s.len()) {
        Step::Fail(msg_string_eof(), 0)
    } else if (s[i] as u32) < 0x20 {
        Step::Fail(msg_control(s[i]), 0)
    } else if s[i] == '\\' {
        match escape_step(s, i + 1) {
            Escape::Char(c, j) => string_step(s, j, acc.push(c)),
            Escape::Invalid(d) => Step::Fail(msg_escape(), d),
            Escape::End => Step::Fail(msg_string_eof(), 0),
        }
    } else if s[i] == '"' {
        Step::Tok(SpecTok::Str(acc), i + 1)
    } else {
        string_step(s, i + 1, acc.push(s[i]))
    }
}

/// The token that starts at `j`, where no whitespace stands.
pub open spec fn token_step(s: Seq<char>, j: int) -> Step {
    if !(0 <= j < s.len()) {
        Step::Tok(SpecTok::Eof, j)
    } else {
        let c = s[j];
        if c == '{' {
            Step::Tok(SpecTok::LBrace, j + 1)
        } else if c == '}' {
            Step::Tok(SpecTok::RBrace, j + 1)
        } else if c == '[' {
            Step::Tok(SpecTok::LBrack, j + 1)
        } else if c == ']' {
            Step::Tok(SpecTok::RBrack, j + 1)
        } else if c == ',' {
            Step::Tok(SpecTok::Comma, j + 1)
        } else if c == ':' {
            Step::Tok(SpecTok::Colon, j + 1)
        } else if c == 't' {
            keyword_step(s, j, "true"@, SpecTok::True)
        } else if c == 'f' {
            keyword_step(s, j, "false"@, SpecTok::False)
        } else if c == 'n' {
            keyword_step(s, j, "null"@, SpecTok::Null)
        } else if c == '-' || is_digit(c) {
            number_step(s, j)
        } else if c == '"' {
            string_step(s, j + 1, Seq::empty())
        } else {
            Step::Fail(msg_invalid_char(), 0)
        }
    }
}

/// What `next_token` gives at index `i` and line `line`: a token with the index after it
/// and its line, or an error message with its line.
pub enum Lexed {
    Tok { tok: SpecTok, end: int, line: int },
    Fail { msg: Seq<char>, line: int },
}

pub open spec fn spec_next_token(s: Seq<char>, i: int, line: int) -> Lexed {
    let j = ws_end(s, i);
    let l = ws_line(s, i, line);
    match token_step(s, j) {
        Step::Tok(tok, end) => Lexed::Tok { tok, end, line: l },
        Step::Fail(msg, d) => Lexed::Fail { msg, line: l + d },
    }
}

/// The number of newlines in `t`.
pub open spec fn newlines(t: Seq<char>) -> int
    decreases t.len(),
{
    if t.len() == 0 {
        0
    } else {
        (if t[0] == '\n' { 1int } else { 0int }) + newlines(t.drop_first())
    }
}

/// Skipping whitespace raises the line by the number of newlines skipped, and by nothing
/// else.
pub proof fn law_whitespace_lines(s: Seq<char>, i: int, line: int)
    requires
        0 <= i <= s.len(),
    ensures
        i <= ws_end(s, i) <= s.len(),
        ws_line(s, i, line) == line + newlines(s.subrange(i, ws_end(s, i))),
    decreases s.len() - i,
{
    if i < s.len() && is_space(s[i]) {
        law_whitespace_lines(s, i + 1, if s[i] == '\n' { line + 1 } else { line });
        assert(s.subrange(i, ws_end(s, i)).drop_first() =~= s.subrange(i + 1, ws_end(s, i)));
    } else {
        assert(s.subrange(i, i) =~= Seq::<char>::empty());
    }
}

/// Whitespace skipping runs through a stretch `[i, e)` of whitespace.
pub proof fn lemma_ws_through(s: Seq<char>, i: int, e: int)
    requires
        0 <= i <= e <= s.len(),
        forall|k: int| i <= k < e ==> is_space(#[trigger] s[k]),
    ensures
        ws_end(s, i) == ws_end(s, e),
    decreases e - i,
{
    if i < e {
        lemma_ws_through(s, i + 1, e);
    }
}

/// The digit run at `i` ends at the first non-digit `e`.
pub proof fn lemma_digit_run_to(s: Seq<char>, i: int, e: int)
    requires
        0 <= i <= e <= s.len(),
        forall|k: int| i <= k < e ==> is_digit(#[trigger] s[k]),
        e == s.len() || !is_digit(s[e]),
    ensures
        digit_run(s, i) == e - i,
    decreases e - i,
{
    if i < e {
        lemma_digit_run_to(s, i + 1, e);
    }
}

/// A fraction needs at least one digit: an integer part followed by `.` and no digit
/// fails with the need-a-digit error.
pub proof fn law_fraction_needs_digit(s: Seq<char>, i: int, b: int)
    requires
        0 <= i < b < s.len(),
        ({
            let a = if s[i] == '-' { i + 1 } else { i };
            &&& a < b
            &&& forall|k: int| a <= k < b ==> is_digit(#[trigger] s[k])
            &&& s[a] == '0' ==> b == a + 1
        }),
        s[b] == '.',
        !(b + 1 < s.len() && is_digit(s[b + 1])),
    ensures
        number_step(s, i) == Step::Fail(msg_need_digit(), 0),
{
    let a = if s[i] == '-' { i + 1 } else { i };
    assert(is_digit(s[a]));
    if s[a] != '0' {
        lemma_digit_run_to(s, a + 1, b);
    }
}

/// A token carries the line reached after the whitespace before it: the starting line
/// plus the newlines in that whitespace.
pub proof fn law_token_line(s: Seq<char>, i: int, line: int)
    requires
        0 <= i <= s.len(),
    ensures
        match spec_next_token(s, i, line) {
            Lexed::Tok { line: l2, .. } => l2 == line + newlines(s.subrange(i, ws_end(s, i))),
            Lexed::Fail { .. } => true,
        },
{
    law_whitespace_lines(s, i, line);
}

/// A keyword `true`, `false` or `null` at index `i` gives its token, at the same line, and
/// consumes exactly its letters.
pub proof fn law_literal_token(s: Seq<char>, i: int, line: int, k: Seq<char>, t: SpecTok)
    requires
        (k == "true"@ && t == SpecTok::True) || (k == "false"@ && t == SpecTok::False) || (k
            == "null"@ && t == SpecTok::Null),
        0 <= i,
        i + k.len() <= s.len(),
        s.subrange(i, i + k.len()) == k,
    ensures
        spec_next_token(s, i, line) == (Lexed::Tok { tok: t, end: i + k.len(), line }),
{
    reveal_strlit("true");
    reveal_strlit("false");
    reveal_strlit("null");
    assert(s[i] == s.subrange(i, i + k.len())[0]);
}

/// A token that starts with `-` or a digit is a number holding exactly the characters it
/// was read from, or fails for want of a digit.
pub proof fn law_number_text(s: Seq<char>, i: int, line: int)
    requires
        0 <= ws_end(s, i) < s.len(),
        s[ws_end(s, i)] == '-' || is_digit(s[ws_end(s, i)]),
    ensures
        match spec_next_token(s, i, line) {
            Lexed::Tok { tok, end, .. } => tok == SpecTok::Num(s.subrange(ws_end(s, i), end)),
            Lexed::Fail { msg, .. } => msg == msg_invalid_number() || msg == msg_need_digit(),
        },
{
}

/// `r` is the token or the error that `st` describes, at line `line`.
pub open spec fn step_result(r: Result<Token, LexError>, st: Step, line: int) -> bool {
    match (r, st) {
        (Ok(t), Step::Tok(tok, _)) => t.value@ == tok && t.line_no == line,
        (Err(e), Step::Fail(msg, d)) => e.err_msg@ == msg && e.line_no == line + d,
        _ => false,
    }
}

pub open spec fn step_end(st: Step) -> int {
    match st {
        Step::Tok(_, e) => e,
        Step::Fail(_, _) => 0,
    }
}

/// `r` is the token or the error that `x` describes.
pub open spec fn lexed_result(r: Result<Token, LexError>, x: Lexed) -> bool {
    match (r, x) {
        (Ok(t), Lexed::Tok { tok, line, .. }) => t.value@ == tok && t.line_no == line,
        (Err(e), Lexed::Fail { msg, line }) => e.err_msg@ == msg && e.line_no == line,
        _ => false,
    }
}

/// Reads characters with one character of lookahead and a 1-based line counter.
pub struct Lexer {
    input: Vec<char>,
    pos: usize,
    line_no: u64,
}

impl Lexer {
    pub closed spec fn wf(&self) -> bool {
        &&& self.pos <= self.input@.len()
        &&& 1 <= self.line_no <= self.pos + 1
        &&& self.input@.len() < u64::MAX
        &&& self.input@.len() <= usize::MAX
    }

    /// The whole input.
    pub closed spec fn text(&self) -> Seq<char> {
        self.input@
    }

    /// The index of the lookahead character.
    pub closed spec fn pos(&self) -> int {
        self.pos as int
    }

    pub closed spec fn line(&self) -> int {
        self.line_no as int
    }

    pub proof fn lemma_pos_nonneg(&self)
        ensures
            self.pos() >= 0,
    {
    }

    /// What is left to read.
    pub open spec fn rest(&self) -> Seq<char> {
        self.text().subrange(self.pos(), self.text().len() as int)
    }

    pub fn new(input: &str) -> (r: Lexer)
        requires
            input@.len() < u64::MAX,
        ensures
            r.wf(),
            r.text() == input@,
            r.pos() == 0,
            r.rest() == input@,
            r.line() == 1,
    {
        let mut v: Vec<char> = Vec::new();
        let mut it = input.chars();
        proof {
            axiom_spec_iter(input);
        }
        loop
            invariant
                v@ + it.remaining() == input@,
                it.decrease() is Some,
            ensures
                v@ == input@,
            decreases it.decrease()->0,
        {
            let ghost before = it;
            let next = it.next();
            proof {
                next_postcondition(&before, &it, next);
            }
            match next {
                Some(c) => {
                    v.push(c);
                    assert(v@ + it.remaining() =~= input@);
                },
                None => {
                    assert(v@ =~= input@);
                    break ;
                },
            }
        }
        let len = v.len();
        assert(v@.len() == len);
        let r = Lexer { input: v, pos: 0, line_no: 1 };
        assert(r.rest() =~= input@);
        r
    }

    /// Skips whitespace, counting each newline it passes.
    fn skip_spaces(&mut self)
        requires
            old(self).wf(),
        ensures
            final(self).wf(),
            final(self).text() == old(self).text(),
            final(self).pos() == ws_end(old(self).text(), old(self).pos()),
            final(self).line() == ws_line(old(self).text(), old(self).pos(), old(self).line()),
            final(self).pos() >= old(self).pos(),
    {
        while self.pos < self.input.len() && is_space_char(self.input[self.pos])
            invariant
                self.wf(),
                self.text() == old(self).text(),
                ws_end(self.text(), self.pos()) == ws_end(old(self).text(), old(self).pos()),
                self.pos() >= old(self).pos(),
                ws_line(self.text(), self.pos(), self.line()) == ws_line(
                    old(self).text(),
                    old(self).pos(),
                    old(self).line(),
                ),
            decreases self.input@.len() - self.pos,
        {
            if self.input[self.pos] == '\n' {
                self.line_no = self.line_no + 1;
            }
            self.pos = self.pos + 1;
        }
    }

    /// Appends the run of digits at the lookahead to `val`.
    fn eat_digits(&mut self, val: &mut String)
        requires
            old(self).wf(),
        ensures
            final(self).wf(),
            final(self).text() == old(self).text(),
            final(self).line() == old(self).line(),
            final(self).pos() == old(self).pos() + digit_run(old(self).text(), old(self).pos()),
            final(val)@ == old(val)@ + old(self).text().subrange(old(self).pos(), final(self).pos()),
    {
        while self.pos < self.input.len() && is_digit_char(self.input[self.pos])
            invariant
                self.wf(),
                self.text() == old(self).text(),
                self.line() == old(self).line(),
                old(self).pos() <= self.pos(),
                digit_run(self.text(), old(self).pos()) == self.pos() - old(self).pos()
                    + digit_run(self.text(), self.pos()),
                val@ == old(val)@ + self.text().subrange(old(self).pos(), self.pos()),
            decreases self.input@.len() - self.pos,
        {
            val.push(self.input[self.pos]);
            self.pos = self.pos + 1;
            assert(val@ =~= old(val)@ + self.text().subrange(old(self).pos(), self.pos()));
        }
    }

    /// Appends one or more digits to `val`; fails, consuming nothing, when none stands next.
    fn need_digit(&mut self, val: &mut String) -> (r: Result<(), LexError>)
        requires
            old(self).wf(),
        ensures
            final(self).wf(),
            final(self).text() == old(self).text(),
            final(self).line() == old(self).line(),
            digit_run(old(self).text(), old(self).pos()) == 0 ==> (match r {
                Err(e) => e.err_msg@ == msg_need_digit() && e.line_no == old(self).line(),
                Ok(_) => false,
            }) && final(self).pos() == old(self).pos() && final(val)@ == old(val)@,
            digit_run(old(self).text(), old(self).pos()) > 0 ==> r is Ok && final(self).pos()
                == old(self).pos() + digit_run(old(self).text(), old(self).pos()) && final(val)@
                == old(val)@ + old(self).text().subrange(old(self).pos(), final(self).pos()),
    {
        if !(self.pos < self.input.len() && is_digit_char(self.input[self.pos])) {
            return Err(LexError::new("Need at least one digit".to_owned(), self.line_no));
        }
        self.eat_digits(val);
        Ok(())
    }

    /// Consumes the lookahead character and appends it to `val`.
    fn eat(&mut self, val: &mut String)
        requires
            old(self).wf(),
            old(self).pos() < old(self).text().len(),
            old(self).text()[old(self).pos()] != '\n',
        ensures
            final(self).wf(),
            final(self).text() == old(self).text(),
            final(self).line() == old(self).line(),
            final(self).pos() == old(self).pos() + 1,
            final(val)@ == old(val)@.push(old(self).text()[old(self).pos()]),
    {
        val.push(self.input[self.pos]);
        self.pos = self.pos + 1;
    }

    #[verifier::rlimit(60)]
    fn get_number(&mut self) -> (r: Result<Token, LexError>)
        requires
            old(self).wf(),
            old(self).pos() < old(self).text().len(),
        ensures
            final(self).wf(),
            final(self).text() == old(self).text(),
            final(self).line() == old(self).line(),
            step_result(r, number_step(old(self).text(), old(self).pos()), old(self).line()),
            r is Ok ==> final(self).pos() == step_end(number_step(old(self).text(), old(self).pos())),
            r is Ok ==> final(self).pos() > old(self).pos(),
    {
        let ghost s = self.text();
        let ghost start = self.pos();
        let mut val = String::new();
        if self.input[self.pos] == '-' {
            self.eat(&mut val);
        }
        assert(val@ =~= s.subrange(start, self.pos()));
        if !(self.pos < self.input.len() && is_digit_char(self.input[self.pos])) {
            return Err(LexError::new("Invalid number".to_owned(), self.line_no));
        }
        if self.input[self.pos] == '0' {
            self.eat(&mut val);
        } else {
            self.eat(&mut val);
            assert(val@ =~= s.subrange(start, self.pos()));
            self.eat_digits(&mut val);
        }
        assert(val@ =~= s.subrange(start, self.pos()));
        if self.pos < self.input.len() && self.input[self.pos] == '.' {
            self.eat(&mut val);
            match self.need_digit(&mut val) {
                Ok(()) => {},
                Err(e) => {
                    return Err(e);
                },
            }
        }
        assert(val@ =~= s.subrange(start, self.pos()));
        if self.pos < self.input.len() && (self.input[self.pos] == 'e' || self.input[self.pos]
            == 'E') {
            self.eat(&mut val);
            if self.pos < self.input.len() && (self.input[self.pos] == '+' || self.input[self.pos]
                == '-') {
                self.eat(&mut val);
            }
            match self.need_digit(&mut val) {
                Ok(()) => {},
                Err(e) => {
                    return Err(e);
                },
            }
        }
        assert(val@ =~= s.subrange(start, self.pos()));
        Ok(Token { value: TokenVal::JNumber(val), line_no: self.line_no })
    }

    /// Matches the keyword `letters` at the lookahead, letter by letter.
    fn match_letters(&mut self, letters: &str, value: TokenVal) -> (r: Result<Token, LexError>)
        requires
            old(self).wf(),
        ensures
            final(self).wf(),
            final(self).text() == old(self).text(),
            final(self).line() == old(self).line(),
            step_result(
                r,
                keyword_step(old(self).text(), old(self).pos(), letters@, value@),
                old(self).line(),
            ),
            r is Ok ==> final(self).pos() == step_end(
                keyword_step(old(self).text(), old(self).pos(), letters@, value@),
            ),
            r is Ok ==> final(self).pos() == old(self).pos() + letters@.len(),
    {
        let ghost s = self.text();
        let ghost start = self.pos();
        let n = letters.unicode_len();
        let mut k: usize = 0;
        while k < n
            invariant
                self.wf(),
                self.text() == s,
                self.line() == old(self).line(),
                s == old(self).text(),
                start == old(self).pos(),
                n == letters@.len(),
                k <= n,
                self.pos() == start + k,
                s.subrange(start, self.pos()) == letters@.subrange(0, k as int),
            decreases n - k,
        {
            if self.pos < self.input.len() && self.input[self.pos] == letters.get_char(k) {
                self.pos = self.pos + 1;
                k = k + 1;
                assert(s.subrange(start, self.pos()) =~= letters@.subrange(0, k as int));
            } else {
                proof {
                    if start + n <= s.len() && s.subrange(start, start + n) == letters@ {
                        assert(s.subrange(start, start + n)[k as int] == s[start + k]);
                    }
                }
                return Err(LexError::new("Invalid keyword".to_owned(), self.line_no));
            }
        }
        assert(letters@.subrange(0, n as int) =~= letters@);
        Ok(Token { value, line_no: self.line_no })
    }

    /// Reads the escape after a backslash at the lookahead and appends what it denotes.
    /// Reads the escape after a backslash at the lookahead and appends what it denotes;
    /// on failure `val` is left as it was.
    fn get_escape_char(&mut self, val: &mut String) -> (r: Result<(), LexError>)
        requires
            old(self).wf(),
            old(self).pos() < old(self).text().len(),
        ensures
            final(self).wf(),
            final(self).text() == old(self).text(),
            match escape_step(old(self).text(), old(self).pos() + 1) {
                Escape::Char(c, j) => r is Ok && final(self).pos() == j && final(self).line()
                    == old(self).line() && final(val)@ == old(val)@.push(c),
                Escape::Invalid(d) => final(val)@ == old(val)@ && match r {
                    Err(e) => e.err_msg@ == msg_escape() && e.line_no == old(self).line() + d,
                    Ok(_) => false,
                },
                Escape::End => final(val)@ == old(val)@ && match r {
                    Err(e) => e.err_msg@ == msg_string_eof() && e.line_no == old(self).line(),
                    Ok(_) => false,
                },
            },
    {
        let ghost s = self.text();
        let ghost k0 = self.pos() + 1;
        self.pos = self.pos + 1;
        if self.pos >= self.input.len() {
            return Err(
                LexError::new("Unexpected EOF while parsing string".to_owned(), self.line_no),
            );
        }
        let c = self.input[self.pos];
        self.pos = self.pos + 1;
        if c == '\n' {
            self.line_no = self.line_no + 1;
        }
        if c == '\\' {
            val.push('\\');
        } else if c == '"' {
            val.push('"');
        } else if c == '/' {
            val.push('/');
        } else if c == 'b' {
            val.push('\x08');
        } else if c == 'f' {
            val.push('\x0c');
        } else if c == 'n' {
            val.push('\n');
        } else if c == 'r' {
            val.push('\r');
        } else if c == 't' {
            val.push('\t');
        } else if c == 'u' {
            let p = self.pos;
            let mut code: u32 = 0;
            let mut k: usize = 0;
            while k < 4
                invariant
                    self.wf(),
                    self.text() == s,
                    self.line() == old(self).line(),
                    s == old(self).text(),
                    val@ == old(val)@,
                    k0 == old(self).pos() + 1,
                    0 <= k0 < s.len(),
                    s[k0] == 'u',
                    p == k0 + 1,
                    k <= 4,
                    self.pos() == p + k,
                    hex_run(s, p as int) == k + hex_run(s, p + k),
                    code == hex_value(s, p as int, k as int),
                    code < (if k == 0 {
                        1int
                    } else if k == 1 {
                        16
                    } else if k == 2 {
                        256
                    } else if k == 3 {
                        4096
                    } else {
                        65536
                    }),
                decreases 4 - k,
            {
                if self.pos < self.input.len() && is_hex_char(self.input[self.pos]) {
                    code = code * 16 + hex_digit_value(self.input[self.pos]);
                    self.pos = self.pos + 1;
                    k = k + 1;
                } else if self.pos >= self.input.len() {
                    return Err(
                        LexError::new(
                            "Unexpected EOF while parsing string".to_owned(),
                            self.line_no,
                        ),
                    );
                } else {
                    return Err(LexError::new("Invalid escape character".to_owned(), self.line_no));
                }
            }
            match char::from_u32(code) {
                Some(ch) => val.push(ch),
                None => {
                    return Err(LexError::new("Invalid escape character".to_owned(), self.line_no));
                },
            }
        } else {
            return Err(LexError::new("Invalid escape character".to_owned(), self.line_no));
        }
        Ok(())
    }

    fn get_string(&mut self) -> (r: Result<Token, LexError>)
        requires
            old(self).wf(),
            old(self).pos() < old(self).text().len(),
        ensures
            final(self).wf(),
            final(self).text() == old(self).text(),
            r is Ok ==> final(self).line() == old(self).line(),
            step_result(
                r,
                string_step(old(self).text(), old(self).pos() + 1, Seq::empty()),
                old(self).line(),
            ),
            r is Ok ==> final(self).pos() == step_end(
                string_step(old(self).text(), old(self).pos() + 1, Seq::empty()),
            ),
            r is Ok ==> final(self).pos() > old(self).pos(),
    {
        let ghost s = self.text();
        self.pos = self.pos + 1;
        let mut val = String::new();
        while self.pos < self.input.len()
            invariant
                self.wf(),
                self.text() == s,
                s == old(self).text(),
                self.line() == old(self).line(),
                self.pos() > old(self).pos(),
                string_step(s, self.pos(), val@) == string_step(
                    s,
                    old(self).pos() + 1,
                    Seq::empty(),
                ),
            decreases self.input@.len() - self.pos,
        {
            let c = self.input[self.pos];
            if (c as u32) < 0x20 {
                return Err(LexError::new(control_message(c), self.line_no));
            } else if c == '\\' {
                match self.get_escape_char(&mut val) {
                    Ok(()) => {},
                    Err(e) => {
                        return Err(e);
                    },
                }
            } else if c == '"' {
                self.pos = self.pos + 1;
                return Ok(Token { value: TokenVal::JString(val), line_no: self.line_no });
            } else {
                self.eat(&mut val);
            }
        }
        Err(LexError::new("Unexpected EOF while parsing string".to_owned(), self.line_no))
    }

    /// Skips whitespace and reads the next token; at the end of the input it gives `Eof`,
    /// again on every further call.
    pub fn next_token(&mut self) -> (r: Result<Token, LexError>)
        requires
            old(self).wf(),
        ensures
            final(self).wf(),
            final(self).text() == old(self).text(),
            lexed_result(r, spec_next_token(old(self).text(), old(self).pos(), old(self).line())),
            match spec_next_token(old(self).text(), old(self).pos(), old(self).line()) {
                Lexed::Tok { end, line, .. } => final(self).pos() == end && final(self).line()
                    == line,
                Lexed::Fail { .. } => true,
            },
            r is Ok ==> final(self).pos() >= old(self).pos(),
            final(self).pos() <= final(self).text().len(),
            (match r {
                Ok(t) => !(t.value is Eof),
                Err(_) => false,
            }) ==> final(self).pos() > old(self).pos(),
    {
        proof {
            reveal_strlit("true");
            reveal_strlit("false");
            reveal_strlit("null");
        }
        self.skip_spaces();
        let line = self.line_no;
        if self.pos >= self.input.len() {
            return Ok(Token { value: TokenVal::Eof, line_no: line });
        }
        let c = self.input[self.pos];
        if c == '{' || c == '}' || c == '[' || c == ']' || c == ',' || c == ':' {
            self.pos = self.pos + 1;
            let value = if c == '{' {
                TokenVal::LBrace
            } else if c == '}' {
                TokenVal::RBrace
            } else if c == '[' {
                TokenVal::LBrack
            } else if c == ']' {
                TokenVal::RBrack
            } else if c == ',' {
                TokenVal::Comma
            } else {
                TokenVal::Colon
            };
            Ok(Token { value, line_no: line })
        } else if c == 't' {
            self.match_letters("true", TokenVal::True)
        } else if c == 'f' {
            self.match_letters("false", TokenVal::False)
        } else if c == 'n' {
            self.match_letters("null", TokenVal::Null)
        } else if c == '-' || is_digit_char(c) {
            self.get_number()
        } else if c == '"' {
            self.get_string()
        } else {
            Err(LexError::new("Invalid character".to_owned(), line))
        }
    }
}

/// The message for a raw control character `c` inside a string.
fn control_message(c: char) -> (r: String)
    requires
        (c as u32) < 0x20,
    ensures
        r@ == msg_control(c),
{
    let mut m = "Invalid character in string: ".to_owned();
    let n = c as u32;
    if n >= 10 {
        if let Some(d) = char::from_u32(48 + n / 10) {
            m.push(d);
        }
    }
    if let Some(d) = char::from_u32(48 + n % 10) {
        m.push(d);
    }
    assert(m@ =~= msg_control(c));
    m
}

fn is_space_char(c: char) -> (r: bool)
    ensures
        r == is_space(c),
{
    c == ' ' || c == '\t' || c == '\n' || c == '\r'
}

fn is_digit_char(c: char) -> (r: bool)
    ensures
        r == is_digit(c),
{
    '0' <= c && c <= '9'
}

fn is_hex_char(c: char) -> (r: bool)
    ensures
        r == is_hex(c),
{
    ('0' <= c && c <= '9') || ('a' <= c && c <= 'f') || ('A' <= c && c <= 'F')
}

fn hex_digit_value(c: char) -> (r: u32)
    requires
        is_hex(c),
    ensures
        r == hex_val(c),
        r < 16,
{
    if '0' <= c && c <= '9' {
        c as u32 - 48
    } else if 'a' <= c && c <= 'f' {
        c as u32 - 87
    } else {
        c as u32 - 55
    }
}

} // verus!

use vstd::prelude::*;
use crate::json::{
    JSON,
    SpecJson,
    json_view,
    json_wf,
    lemma_items_wf,
    members_view,
    items_view,
    obj_insert,
    insert_member,
    lemma_array_view,
    lemma_object_view,
};
use crate::lexer::{
    Lexer,
    Lexed,
    SpecTok,
    Step,
    Token,
    TokenVal,
    is_digit,
    is_space,
    law_literal_token,
    lemma_ws_through,
    number_step,
    spec_next_token,
    ws_end,
    ws_line,
};

verus! {

/// An error met while parsing: the first one, with the line of the offending token.
#[derive(Debug, PartialEq)]
pub struct ParseError {
    pub err_msg: String,
    pub line_no: u64,
}

impl ParseError {
    pub fn new(err_msg: String, line_no: u64) -> (r: ParseError)
        ensures
            r.err_msg@ == err_msg@,
            r.line_no == line_no,
    {
        ParseError { err_msg, line_no }
    }
}

pub open spec fn msg_unexpected() -> Seq<char> {
    "Unexpected token"@
}

pub open spec fn msg_colon() -> Seq<char> {
    "Expecting colon after key"@
}

pub open spec fn msg_rbrace() -> Seq<char> {
    "Expecting right brace at end of object"@
}

pub open spec fn msg_rbrack() -> Seq<char> {
    "Expecting right bracket at end of array"@
}

pub open spec fn msg_string() -> Seq<char> {
    "Expecting string"@
}

pub open spec fn msg_eof() -> Seq<char> {
    "Expecting EOF"@
}

/// What a parsing step gives: a value and the lexer state (index, line) from which the
/// next lookahead token was read, or an error message with its line.
pub enum Parsed {
    Value(SpecJson, int, int),
    Error(Seq<char>, int),
}

/// One value, whose first token is read at index `q` and line `l`. Tokens are always
/// consumed by reading the one after them, so an error in reading that one comes first.
/// Positions only move forward; the bounds on them keep the recursion well-founded.
pub open spec fn elem_spec(s: Seq<char>, q: int, l: int) -> Parsed
    decreases s.len() - q, 0int,
{
    match spec_next_token(s, q, l) {
        Lexed::Fail { msg, line } => Parsed::Error(msg, line),
        Lexed::Tok { tok, end, line } => match spec_next_token(s, end, line) {
            Lexed::Fail { msg, line } => Parsed::Error(msg, line),
            Lexed::Tok { .. } => match tok {
                SpecTok::LBrace => if q < end <= s.len() {
                    object_spec(s, end, line)
                } else {
                    // Never reached: tokens consume input, so the bound holds; it only serves the measure.
                    Parsed::Error(msg_unexpected(), line)
                },
                SpecTok::LBrack => if q < end <= s.len() {
                    array_spec(s, end, line)
                } else {
                    // Never reached: tokens consume input, so the bound holds; it only serves the measure.
                    Parsed::Error(msg_unexpected(), line)
                },
                SpecTok::True => Parsed::Value(SpecJson::Bool(true), end, line),
                SpecTok::False => Parsed::Value(SpecJson::Bool(false), end, line),
                SpecTok::Null => Parsed::Value(SpecJson::Null, end, line),
                SpecTok::Str(x) => Parsed::Value(SpecJson::Str(x), end, line),
                SpecTok::Num(x) => Parsed::Value(SpecJson::Num(x), end, line),
                _ => Parsed::Error(msg_unexpected(), line),
            },
        },
    }
}

/// An object after its `{`: empty at once on `}`, else its members.
pub open spec fn object_spec(s: Seq<char>, q: int, l: int) -> Parsed
    decreases s.len() - q, 2int,
{
    match spec_next_token(s, q, l) {
        Lexed::Fail { msg, line } => Parsed::Error(msg, line),
        Lexed::Tok { tok, end, line } => if tok is RBrace {
            match spec_next_token(s, end, line) {
                Lexed::Fail { msg, line } => Parsed::Error(msg, line),
                Lexed::Tok { .. } => Parsed::Value(SpecJson::Object(Seq::empty()), end, line),
            }
        } else {
            members_spec(s, q, l, Seq::empty())
        },
    }
}

/// The members of an object from its next key on, with `acc` read so far: a string key,
/// `:`, a value; then `,` and more members, or the closing `}`. A later duplicate key
/// overwrites an earlier one.
pub open spec fn members_spec(s: Seq<char>, q: int, l: int, acc: Seq<(Seq<char>, SpecJson)>) -> Parsed
    decreases s.len() - q, 1int,
{
    match spec_next_token(s, q, l) {
        Lexed::Fail { msg, line } => Parsed::Error(msg, line),
        Lexed::Tok { tok: kt, end: e1, line: l1 } => match spec_next_token(s, e1, l1) {
            Lexed::Fail { msg, line } => Parsed::Error(msg, line),
            Lexed::Tok { tok: ct, end: e2, line: l2 } => match kt {
                SpecTok::Str(key) => if ct is Colon {
                    match spec_next_token(s, e2, l2) {
                        Lexed::Fail { msg, line } => Parsed::Error(msg, line),
                        Lexed::Tok { .. } => if q < e2 <= s.len() {
                            match elem_spec(s, e2, l2) {
                                Parsed::Error(m, ln) => Parsed::Error(m, ln),
                                Parsed::Value(val, q3, l3) => {
                                    let acc2 = obj_insert(acc, key, val);
                                    match spec_next_token(s, q3, l3) {
                                        Lexed::Fail { msg, line } => Parsed::Error(msg, line),
                                        Lexed::Tok { tok: t4, end: e4, line: l4 } => if t4 is Comma {
                                            match spec_next_token(s, e4, l4) {
                                                Lexed::Fail { msg, line } => Parsed::Error(msg, line),
                                                Lexed::Tok { .. } => if q < e4 <= s.len() {
                                                    members_spec(s, e4, l4, acc2)
                                                } else {
                                                    // Never reached: tokens consume input, so the bound holds; it only serves the measure.
                                                    Parsed::Error(msg_rbrace(), l4)
                                                },
                                            }
                                        } else if t4 is RBrace {
                                            match spec_next_token(s, e4, l4) {
                                                Lexed::Fail { msg, line } => Parsed::Error(msg, line),
                                                Lexed::Tok { .. } => Parsed::Value(
                                                    SpecJson::Object(acc2),
                                                    e4,
                                                    l4,
                                                ),
                                            }
                                        } else {
                                            Parsed::Error(msg_rbrace(), l4)
                                        },
                                    }
                                },
                            }
                        } else {
                            // Never reached: tokens consume input, so the bound holds; it only serves the measure.
                            Parsed::Error(msg_colon(), l2)
                        },
                    }
                } else {
                    Parsed::Error(msg_colon(), l2)
                },
                _ => Parsed::Error(msg_string(), l1),
            },
        },
    }
}

/// An array after its `[`: empty at once on `]`, else its items.
pub open spec fn array_spec(s: Seq<char>, q: int, l: int) -> Parsed
    decreases s.len() - q, 2int,
{
    match spec_next_token(s, q, l) {
        Lexed::Fail { msg, line } => Parsed::Error(msg, line),
        Lexed::Tok { tok, end, line } => if tok is RBrack {
            match spec_next_token(s, end, line) {
                Lexed::Fail { msg, line } => Parsed::Error(msg, line),
                Lexed::Tok { .. } => Parsed::Value(SpecJson::Array(Seq::empty()), end, line),
            }
        } else {
            items_spec(s, q, l, Seq::empty())
        },
    }
}

/// The items of an array from its next value on, with `acc` read so far: a value; then `,`
/// and more items, or the closing `]`.
pub open spec fn items_spec(s: Seq<char>, q: int, l: int, acc: Seq<SpecJson>) -> Parsed
    decreases s.len() - q, 1int,
{
    match elem_spec(s, q, l) {
        Parsed::Error(m, ln) => Parsed::Error(m, ln),
        Parsed::Value(val, q3, l3) => {
            let acc2 = acc.push(val);
            match spec_next_token(s, q3, l3) {
                Lexed::Fail { msg, line } => Parsed::Error(msg, line),
                Lexed::Tok { tok: t4, end: e4, line: l4 } => if t4 is Comma {
                    match spec_next_token(s, e4, l4) {
                        Lexed::Fail { msg, line } => Parsed::Error(msg, line),
                        Lexed::Tok { .. } => if q < e4 <= s.len() {
                            items_spec(s, e4, l4, acc2)
                        } else {
                            // Never reached: tokens consume input, so the bound holds; it only serves the measure.
                            Parsed::Error(msg_rbrack(), l4)
                        },
                    }
                } else if t4 is RBrack {
                    match spec_next_token(s, e4, l4) {
                        Lexed::Fail { msg, line } => Parsed::Error(msg, line),
                        Lexed::Tok { .. } => Parsed::Value(SpecJson::Array(acc2), e4, l4),
                    }
                } else {
                    Parsed::Error(msg_rbrack(), l4)
                },
            }
        },
    }
}

/// The whole input: one value, then the end of the input.
pub open spec fn spec_parse(s: Seq<char>) -> Parsed {
    match spec_next_token(s, 0, 1) {
        Lexed::Fail { msg, line } => Parsed::Error(msg, line),
        Lexed::Tok { .. } => match elem_spec(s, 0, 1) {
            Parsed::Error(m, ln) => Parsed::Error(m, ln),
            Parsed::Value(val, q, l) => match spec_next_token(s, q, l) {
                Lexed::Fail { msg, line } => Parsed::Error(msg, line),
                Lexed::Tok { tok, end, line } => if tok is Eof {
                    match spec_next_token(s, end, line) {
                        Lexed::Fail { msg, line } => Parsed::Error(msg, line),
                        Lexed::Tok { .. } => Parsed::Value(val, end, line),
                    }
                } else {
                    Parsed::Error(msg_eof(), line)
                },
            },
        },
    }
}

/// `r` is the value or the error that `p` describes.
pub open spec fn parsed_result(r: Result<JSON, ParseError>, p: Parsed) -> bool {
    match (r, p) {
        (Ok(v), Parsed::Value(val, _, _)) => json_view(v) == val,
        (Err(e), Parsed::Error(msg, line)) => e.err_msg@ == msg && e.line_no == line,
        _ => false,
    }
}

/// A literal `true`, `false` or `null` with any whitespace around it parses to its value.
pub proof fn law_literal_parse(w1: Seq<char>, k: Seq<char>, w2: Seq<char>, t: SpecTok, v: SpecJson)
    requires
        (k == "true"@ && t == SpecTok::True && v == SpecJson::Bool(true)) || (k == "false"@ && t
            == SpecTok::False && v == SpecJson::Bool(false)) || (k == "null"@ && t == SpecTok::Null
            && v == SpecJson::Null),
        forall|i: int| 0 <= i < w1.len() ==> is_space(#[trigger] w1[i]),
        forall|i: int| 0 <= i < w2.len() ==> is_space(#[trigger] w2[i]),
    ensures
        spec_parse(w1 + k + w2) matches Parsed::Value(x, _, _) && x == v,
{
    reveal_strlit("true");
    reveal_strlit("false");
    reveal_strlit("null");
    let s = w1 + k + w2;
    let a = w1.len() as int;
    let e = a + k.len();
    assert(s.subrange(a, e) =~= k);
    assert forall|i: int| 0 <= i < a implies is_space(#[trigger] s[i]) by {
        assert(s[i] == w1[i]);
    }
    assert forall|i: int| e <= i < s.len() implies is_space(#[trigger] s[i]) by {
        assert(s[i] == w2[i - e]);
    }
    lemma_ws_through(s, 0, a);
    assert(s[a] == k[0]);
    assert(ws_end(s, a) == a);
    lemma_ws_through(s, e, s.len() as int);
    let l1 = ws_line(s, 0, 1);
    law_literal_token(s, a, l1, k, t);
    assert(spec_next_token(s, 0, 1) == (Lexed::Tok { tok: t, end: e, line: l1 }));
}

/// A text read whole as one number literal parses to a number holding exactly that text.
pub proof fn law_number_parse(n: Seq<char>)
    requires
        number_step(n, 0) == Step::Tok(SpecTok::Num(n), n.len() as int),
    ensures
        spec_parse(n) matches Parsed::Value(x, _, _) && x == SpecJson::Num(n),
{
    assert(n.subrange(0, n.len() as int) =~= n);
    assert(n[0] == '-' || is_digit(n[0]));
    assert(ws_end(n, 0) == 0);
    assert(ws_end(n, n.len() as int) == n.len());
}

/// Parsing the same input twice gives equal results: equal values, or the same error at
/// the same line.
pub proof fn law_parse_twice(
    s: Seq<char>,
    r1: Result<JSON, ParseError>,
    r2: Result<JSON, ParseError>,
)
    requires
        parsed_result(r1, spec_parse(s)),
        parsed_result(r2, spec_parse(s)),
    ensures
        match (r1, r2) {
            (Ok(a), Ok(b)) => json_view(a) == json_view(b),
            (Err(a), Err(b)) => a.err_msg@ == b.err_msg@ && a.line_no == b.line_no,
            _ => false,
        },
{
}

/// Reads a value from a lexer with one token of lookahead.
pub struct Parser {
    lexer: Lexer,
    curr_token: Option<Token>,
}

impl Parser {
    pub closed spec fn text(&self) -> Seq<char> {
        self.lexer.text()
    }

    /// Nothing read yet.
    pub closed spec fn fresh(&self) -> bool {
        &&& self.lexer.wf()
        &&& self.lexer.pos() == 0
        &&& self.lexer.line() == 1
    }

    /// The lookahead token is the one read at index `q`, line `l`.
    pub closed spec fn ahead(&self, q: int, l: int) -> bool {
        &&& self.lexer.wf()
        &&& 0 <= q
        &&& self.lexer.pos() <= self.lexer.text().len()
        &&& match spec_next_token(self.lexer.text(), q, l) {
            Lexed::Tok { tok, end, line } => match self.curr_token {
                Some(t) => {
                    &&& t.value@ == tok
                    &&& t.line_no == line
                    &&& self.lexer.pos() == end
                    &&& self.lexer.line() == line
                    &&& q <= end
                    &&& (tok is Eof || q < end)
                },
                None => false,
            },
            Lexed::Fail { .. } => false,
        }
    }

    pub fn new(input: &str) -> (r: Parser)
        requires
            input@.len() < u64::MAX,
        ensures
            r.fresh(),
            r.text() == input@,
    {
        Parser { lexer: Lexer::new(input), curr_token: None }
    }

    /// Reads the next lookahead token.
    fn cont(&mut self) -> (r: Result<(), ParseError>)
        requires
            old(self).lexer.wf(),
        ensures
            final(self).lexer.wf(),
            final(self).lexer.text() == old(self).lexer.text(),
            match spec_next_token(old(self).lexer.text(), old(self).lexer.pos(), old(self).lexer.line()) {
                Lexed::Tok { .. } => r is Ok && final(self).ahead(
                    old(self).lexer.pos(),
                    old(self).lexer.line(),
                ),
                Lexed::Fail { msg, line } => match r {
                    Err(e) => e.err_msg@ == msg && e.line_no == line,
                    Ok(_) => false,
                },
            },
    {
        proof {
            self.lexer.lemma_pos_nonneg();
        }
        match self.lexer.next_token() {
            Ok(token) => {
                self.curr_token = Some(token);
                Ok(())
            },
            Err(err) => Err(ParseError::new(err.err_msg, err.line_no)),
        }
    }

    /// Takes the lookahead token out.
    fn take_token(&mut self) -> (t: Token)
        requires
            old(self).curr_token is Some,
        ensures
            Some(t) == old(self).curr_token,
            final(self).lexer == old(self).lexer,
    {
        match self.curr_token.take() {
            Some(t) => t,
            None => Token { value: TokenVal::Eof, line_no: 0 },
        }
    }

    fn parse_elem(&mut self, Ghost(q): Ghost<int>, Ghost(l): Ghost<int>) -> (r: Result<
        JSON,
        ParseError,
    >)
        requires
            old(self).ahead(q, l),
        ensures
            final(self).lexer.text() == old(self).lexer.text(),
            parsed_result(r, elem_spec(old(self).lexer.text(), q, l)),
            match elem_spec(old(self).lexer.text(), q, l) {
                Parsed::Value(_, q2, l2) => final(self).ahead(q2, l2) && q < q2,
                Parsed::Error(..) => true,
            },
            match r {
                Ok(v) => json_wf(json_view(v)),
                Err(_) => true,
            },
        decreases old(self).lexer.text().len() - q, 0int,
    {
        let ghost e = self.lexer.pos();
        let ghost le = self.lexer.line();
        let token = self.take_token();
        match self.cont() {
            Ok(()) => {},
            Err(err) => {
                return Err(err);
            },
        }
        match token.value {
            TokenVal::LBrace => self.parse_object(Ghost(e), Ghost(le)),
            TokenVal::LBrack => self.parse_array(Ghost(e), Ghost(le)),
            TokenVal::True => Ok(JSON::JSONBool(true)),
            TokenVal::False => Ok(JSON::JSONBool(false)),
            TokenVal::Null => Ok(JSON::JSONNull),
            TokenVal::JString(x) => Ok(JSON::JSONString(x)),
            TokenVal::JNumber(x) => Ok(JSON::JSONNum(x)),
            _ => Err(ParseError::new("Unexpected token".to_owned(), token.line_no)),
        }
    }

    fn parse_object(&mut self, Ghost(q): Ghost<int>, Ghost(l): Ghost<int>) -> (r: Result<
        JSON,
        ParseError,
    >)
        requires
            old(self).ahead(q, l),
        ensures
            final(self).lexer.text() == old(self).lexer.text(),
            parsed_result(r, object_spec(old(self).lexer.text(), q, l)),
            match object_spec(old(self).lexer.text(), q, l) {
                Parsed::Value(_, q2, l2) => final(self).ahead(q2, l2) && q < q2,
                Parsed::Error(..) => true,
            },
            match r {
                Ok(v) => json_wf(json_view(v)),
                Err(_) => true,
            },
        decreases old(self).lexer.text().len() - q, 2int,
    {
        let is_close = match &self.curr_token {
            Some(t) => matches!(t.value, TokenVal::RBrace),
            None => false,
        };
        if is_close {
            let _ = self.take_token();
            match self.cont() {
                Ok(()) => {},
                Err(err) => {
                    return Err(err);
                },
            }
            let obj: Vec<(String, JSON)> = Vec::new();
            proof {
                lemma_object_view(obj);
                assert(members_view(obj@) =~= Seq::empty());
            }
            return Ok(JSON::JSONObject(obj));
        }
        self.parse_members(Ghost(q), Ghost(l))
    }

    fn parse_members(&mut self, Ghost(q): Ghost<int>, Ghost(l): Ghost<int>) -> (r: Result<
        JSON,
        ParseError,
    >)
        requires
            old(self).ahead(q, l),
        ensures
            final(self).lexer.text() == old(self).lexer.text(),
            parsed_result(r, members_spec(old(self).lexer.text(), q, l, Seq::empty())),
            match members_spec(old(self).lexer.text(), q, l, Seq::empty()) {
                Parsed::Value(_, q2, l2) => final(self).ahead(q2, l2) && q < q2,
                Parsed::Error(..) => true,
            },
            match r {
                Ok(v) => json_wf(json_view(v)),
                Err(_) => true,
            },
        decreases old(self).lexer.text().len() - q, 1int,
    {
        let ghost s = self.lexer.text();
        let mut obj: Vec<(String, JSON)> = Vec::new();
        let ghost mut qi = q;
        let ghost mut li = l;
        assert(members_view(obj@) =~= Seq::empty());
        loop
            invariant
                self.lexer.text() == s,
                s == old(self).lexer.text(),
                self.ahead(qi, li),
                q <= qi,
                members_spec(s, qi, li, members_view(obj@)) == members_spec(s, q, l, Seq::empty()),
                json_wf(SpecJson::Object(members_view(obj@))),
            decreases s.len() - qi,
        {
            let ghost e1 = self.lexer.pos();
            let ghost l1 = self.lexer.line();
            let kt = self.take_token();
            match self.cont() {
                Ok(()) => {},
                Err(err) => {
                    return Err(err);
                },
            }
            let key = match kt.value {
                TokenVal::JString(k) => k,
                _ => {
                    return Err(ParseError::new("Expecting string".to_owned(), kt.line_no));
                },
            };
            let ghost e2 = self.lexer.pos();
            let ghost l2 = self.lexer.line();
            let ct = self.take_token();
            if !(matches!(ct.value, TokenVal::Colon)) {
                return Err(ParseError::new("Expecting colon after key".to_owned(), ct.line_no));
            }
            match self.cont() {
                Ok(()) => {},
                Err(err) => {
                    return Err(err);
                },
            }
            let val = match self.parse_elem(Ghost(e2), Ghost(l2)) {
                Ok(v) => v,
                Err(err) => {
                    return Err(err);
                },
            };
            insert_member(&mut obj, key, val);
            let ghost e4 = self.lexer.pos();
            let ghost l4 = self.lexer.line();
            let t4 = self.take_token();
            if matches!(t4.value, TokenVal::Comma) {
                match self.cont() {
                    Ok(()) => {},
                    Err(err) => {
                        return Err(err);
                    },
                }
                proof {
                    qi = e4;
                    li = l4;
                }
            } else if matches!(t4.value, TokenVal::RBrace) {
                match self.cont() {
                    Ok(()) => {},
                    Err(err) => {
                        return Err(err);
                    },
                }
                proof {
                    lemma_object_view(obj);
                }
                return Ok(JSON::JSONObject(obj));
            } else {
                return Err(
                    ParseError::new("Expecting right brace at end of object".to_owned(), t4.line_no),
                );
            }
        }
    }

    fn parse_array(&mut self, Ghost(q): Ghost<int>, Ghost(l): Ghost<int>) -> (r: Result<
        JSON,
        ParseError,
    >)
        requires
            old(self).ahead(q, l),
        ensures
            final(self).lexer.text() == old(self).lexer.text(),
            parsed_result(r, array_spec(old(self).lexer.text(), q, l)),
            match array_spec(old(self).lexer.text(), q, l) {
                Parsed::Value(_, q2, l2) => final(self).ahead(q2, l2) && q < q2,
                Parsed::Error(..) => true,
            },
            match r {
                Ok(v) => json_wf(json_view(v)),
                Err(_) => true,
            },
        decreases old(self).lexer.text().len() - q, 2int,
    {
        let is_close = match &self.curr_token {
            Some(t) => matches!(t.value, TokenVal::RBrack),
            None => false,
        };
        if is_close {
            let _ = self.take_token();
            match self.cont() {
                Ok(()) => {},
                Err(err) => {
                    return Err(err);
                },
            }
            let arr: Vec<JSON> = Vec::new();
            proof {
                lemma_array_view(arr);
                assert(items_view(arr@) =~= Seq::empty());
            }
            return Ok(JSON::JSONArray(arr));
        }
        self.parse_items(Ghost(q), Ghost(l))
    }

    #[verifier::rlimit(60)]
    fn parse_items(&mut self, Ghost(q): Ghost<int>, Ghost(l): Ghost<int>) -> (r: Result<
        JSON,
        ParseError,
    >)
        requires
            old(self).ahead(q, l),
        ensures
            final(self).lexer.text() == old(self).lexer.text(),
            parsed_result(r, items_spec(old(self).lexer.text(), q, l, Seq::empty())),
            match items_spec(old(self).lexer.text(), q, l, Seq::empty()) {
                Parsed::Value(_, q2, l2) => final(self).ahead(q2, l2) && q < q2,
                Parsed::Error(..) => true,
            },
            match r {
                Ok(v) => json_wf(json_view(v)),
                Err(_) => true,
            },
        decreases old(self).lexer.text().len() - q, 1int,
    {
        let ghost s = self.lexer.text();
        let mut arr: Vec<JSON> = Vec::new();
        let ghost mut qi = q;
        let ghost mut li = l;
        assert(items_view(arr@) =~= Seq::empty());
        loop
            invariant
                self.lexer.text() == s,
                s == old(self).lexer.text(),
                self.ahead(qi, li),
                q <= qi,
                items_spec(s, qi, li, items_view(arr@)) == items_spec(s, q, l, Seq::empty()),
                json_wf(SpecJson::Array(items_view(arr@))),
            decreases s.len() - qi,
        {
            let ghost a0 = items_view(arr@);
            let val = match self.parse_elem(Ghost(qi), Ghost(li)) {
                Ok(v) => v,
                Err(err) => {
                    return Err(err);
                },
            };
            let ghost jv = json_view(val);
            assert(json_wf(jv));
            arr.push(val);
            assert(items_view(arr@) =~= a0.push(jv));
            proof {
                lemma_items_wf(a0, 0);
                lemma_items_wf(a0.push(jv), 0);
                assert forall|i: int| 0 <= i < a0.len() + 1 implies json_wf(
                    #[trigger] a0.push(jv)[i],
                ) by {
                    if i < a0.len() {
                        assert(a0.push(jv)[i] == a0[i]);
                    }
                }
            }
            let ghost e4 = self.lexer.pos();
            let ghost l4 = self.lexer.line();
            let t4 = self.take_token();
            if matches!(t4.value, TokenVal::Comma) {
                match self.cont() {
                    Ok(()) => {},
                    Err(err) => {
                        return Err(err);
                    },
                }
                proof {
                    qi = e4;
                    li = l4;
                }
            } else if matches!(t4.value, TokenVal::RBrack) {
                match self.cont() {
                    Ok(()) => {},
                    Err(err) => {
                        return Err(err);
                    },
                }
                proof {
                    lemma_array_view(arr);
                }
                return Ok(JSON::JSONArray(arr));
            } else {
                return Err(
                    ParseError::new(
                        "Expecting right bracket at end of array".to_owned(),
                        t4.line_no,
                    ),
                );
            }
        }
    }

    /// Parses the whole input: one value, then nothing but whitespace.
    pub fn parse(&mut self) -> (r: Result<JSON, ParseError>)
        requires
            old(self).fresh(),
        ensures
            parsed_result(r, spec_parse(old(self).text())),
            match r {
                Ok(v) => json_wf(json_view(v)),
                Err(_) => true,
            },
    {
        match self.cont() {
            Ok(()) => {},
            Err(err) => {
                return Err(err);
            },
        }
        let elem = match self.parse_elem(Ghost(0), Ghost(1)) {
            Ok(v) => v,
            Err(err) => {
                return Err(err);
            },
        };
        let t = self.take_token();
        if matches!(t.value, TokenVal::Eof) {
            match self.cont() {
                Ok(()) => {},
                Err(err) => {
                    return Err(err);
                },
            }
            Ok(elem)
        } else {
            Err(ParseError::new("Expecting EOF".to_owned(), t.line_no))
        }
    }
}

} // verus!

//! JSON values and their reader.
//!
//! The reader is stated as a function on character positions: each
//! `read_*` function gives the value that starts at a position together
//! with the position behind it, or the message of the first error.

use vstd::prelude::*;

use crate::advance::{adv_err, AdvanceError};
use crate::num::{number, parse_num, Num};
use crate::text::{cat, cat3, chars_of, digit, is_digit, is_white, str_eq, string_of, white};

verus! {

/// A JSON value in mathematical terms.
#[verifier::ext_equal]
pub enum Json {
    Null,
    Bool(bool),
    Number(Seq<char>),
    Text(Seq<char>),
    Array(Seq<Json>),
    Object(Seq<(Seq<char>, Json)>),
}

/// A JSON value. Objects keep their members in source order.
#[derive(Debug, PartialEq)]
pub enum JsonValue {
    Null,
    Bool(bool),
    Number(Num),
    Text(String),
    Array(Vec<JsonValue>),
    Object(Vec<(String, JsonValue)>),
}

/// The values of an array.
pub open spec fn array_view(a: Seq<JsonValue>) -> Seq<Json>
    decreases a,
{
    Seq::new(
        a.len(),
        |i: int|
            if 0 <= i < a.len() {
                json_view(a[i])
            } else {
                Json::Null
            },
    )
}

/// The members of an object.
pub open spec fn object_view(o: Seq<(String, JsonValue)>) -> Seq<(Seq<char>, Json)>
    decreases o,
{
    Seq::new(
        o.len(),
        |i: int|
            if 0 <= i < o.len() {
                (o[i].0@, json_view(o[i].1))
            } else {
                (Seq::empty(), Json::Null)
            },
    )
}

pub open spec fn json_view(v: JsonValue) -> Json
    decreases v,
{
    match v {
        JsonValue::Null => Json::Null,
        JsonValue::Bool(b) => Json::Bool(b),
        JsonValue::Number(n) => Json::Number(n@),
        JsonValue::Text(s) => Json::Text(s@),
        JsonValue::Array(a) => Json::Array(array_view(a@)),
        JsonValue::Object(o) => Json::Object(object_view(o@)),
    }
}

impl View for JsonValue {
    type V = Json;

    open spec fn view(&self) -> Json {
        json_view(*self)
    }
}

/// What a reader returns: a value and the position behind it, or a message.
pub type Read<T> = Result<(T, int), Seq<char>>;

/// The first position at or after `p` that holds no white space.
pub open spec fn skip_white(s: Seq<char>, p: int) -> int
    decreases s.len() - p,
{
    if 0 <= p < s.len() && is_white(s[p]) {
        skip_white(s, p + 1)
    } else {
        p
    }
}

pub proof fn lemma_skip_white(s: Seq<char>, p: int)
    requires
        0 <= p <= s.len(),
    ensures
        p <= skip_white(s, p) <= s.len(),
    decreases s.len() - p,
{
    if p < s.len() && is_white(s[p]) {
        lemma_skip_white(s, p + 1);
    }
}

/// The character at `p`, if there is one.
pub open spec fn at(s: Seq<char>, p: int) -> Option<char> {
    if 0 <= p < s.len() {
        Some(s[p])
    } else {
        None
    }
}

/// How a character is shown in a message: in single quotes, escaped where
/// it does not print.
pub uninterp spec fn char_shown(c: char) -> Seq<char>;

/// `<char as Debug>::fmt`, as `format!("{:?}", c)`: the character in single
/// quotes, with escapes. Which characters are escaped and how is left to
/// that function; only that it depends on the character alone is claimed.
#[verifier::external_body]
fn show_char(c: char) -> (r: String)
    ensures
        r@ == char_shown(c),
{
    format!("{:?}", c)
}

pub open spec fn next_shown(c: Option<char>) -> Seq<char> {
    match c {
        Some(c) => "Some("@ + char_shown(c) + ")"@,
        None => "None"@,
    }
}

fn show_next(c: Option<char>) -> (r: String)
    ensures
        r@ == next_shown(c),
{
    match c {
        Some(c) => cat3("Some(", show_char(c).as_str(), ")"),
        None => "None".to_owned(),
    }
}

pub open spec fn hex_value(c: char) -> Option<int> {
    if is_digit(c) {
        Some(c as u32 - 48)
    } else if 'a' <= c && c <= 'f' {
        Some(c as u32 - 87)
    } else if 'A' <= c && c <= 'F' {
        Some(c as u32 - 55)
    } else {
        None
    }
}

/// The number that hexadecimal digits denote.
pub open spec fn hex_number(s: Seq<char>) -> Option<int>
    decreases s.len(),
{
    if s.len() == 0 {
        None
    } else if s.len() == 1 {
        hex_value(s[0])
    } else {
        match (hex_number(s.drop_last()), hex_value(s.last())) {
            (Some(h), Some(d)) => Some(h * 16 + d),
            _ => None,
        }
    }
}

/// The code of a `\u` escape: hexadecimal digits, a plus sign in front of
/// them allowed.
pub open spec fn escape_code(s: Seq<char>) -> Option<int> {
    if s.len() > 0 && s[0] == '+' {
        hex_number(s.skip(1))
    } else {
        hex_number(s)
    }
}

pub open spec fn is_scalar(code: int) -> bool {
    0 <= code < 0xd800 || 0xe000 <= code <= 0x10ffff
}

/// What a one-letter escape stands for.
pub open spec fn simple_escape(c: char) -> Option<char> {
    if c == '"' || c == '\\' || c == '/' {
        Some(c)
    } else if c == 'b' {
        Some('\u{8}')
    } else if c == 'f' {
        Some('\u{c}')
    } else if c == 'n' {
        Some('\n')
    } else if c == 'r' {
        Some('\r')
    } else if c == 't' {
        Some('\t')
    } else {
        None
    }
}

/// Where the four characters of a `\u` escape end.
pub open spec fn escape_end(s: Seq<char>, p: int) -> int {
    if p + 4 <= s.len() {
        p + 4
    } else {
        s.len() as int
    }
}

/// The rest of a string literal from `p`, after the characters `acc`.
pub open spec fn read_chars(s: Seq<char>, p: int, acc: Seq<char>) -> Read<Seq<char>>
    decreases s.len() - p,
{
    if p < 0 || p >= s.len() {
        Err("unterminated string"@)
    } else if s[p] == '"' {
        Ok((acc, p + 1))
    } else if s[p] == '\\' {
        if p + 1 < s.len() && simple_escape(s[p + 1]) is Some {
            read_chars(s, p + 2, acc.push(simple_escape(s[p + 1])->Some_0))
        } else if p + 1 < s.len() && s[p + 1] == 'u' {
            let q = escape_end(s, p + 2);
            match escape_code(s.subrange(p + 2, q)) {
                None => Err("invalid unicode escape"@),
                Some(code) => if is_scalar(code) {
                    read_chars(s, q, acc.push(code as char))
                } else {
                    Err("invalid unicode codepoint"@)
                },
            }
        } else {
            Err("invalid escape sequence "@ + next_shown(at(s, p + 1)))
        }
    } else {
        read_chars(s, p + 1, acc.push(s[p]))
    }
}

/// The string literal at `p`.
pub open spec fn read_string(s: Seq<char>, p: int) -> Read<Seq<char>> {
    if at(s, p) == Some('"') {
        read_chars(s, p + 1, Seq::empty())
    } else {
        Err("expected string"@)
    }
}

pub open spec fn skip_digits(s: Seq<char>, p: int) -> int
    decreases s.len() - p,
{
    if 0 <= p < s.len() && is_digit(s[p]) {
        skip_digits(s, p + 1)
    } else {
        p
    }
}

pub open spec fn skip_exponent(s: Seq<char>, p: int) -> int {
    if at(s, p) == Some('e') || at(s, p) == Some('E') {
        if at(s, p + 1) == Some('+') || at(s, p + 1) == Some('-') {
            skip_digits(s, p + 2)
        } else {
            skip_digits(s, p + 1)
        }
    } else {
        p
    }
}

/// Where the number that starts at `p` ends: an optional minus sign,
/// digits, an optional fraction, an optional exponent.
pub open spec fn number_end(s: Seq<char>, p: int) -> int {
    let q = skip_digits(
        s,
        if at(s, p) == Some('-') {
            p + 1
        } else {
            p
        },
    );
    let q = if at(s, q) == Some('.') {
        skip_digits(s, q + 1)
    } else {
        q
    };
    skip_exponent(s, q)
}

pub proof fn lemma_skip_digits(s: Seq<char>, p: int)
    requires
        0 <= p <= s.len(),
    ensures
        p <= skip_digits(s, p) <= s.len(),
    decreases s.len() - p,
{
    if p < s.len() && is_digit(s[p]) {
        lemma_skip_digits(s, p + 1);
    }
}

pub proof fn lemma_number_end(s: Seq<char>, p: int)
    requires
        0 <= p < s.len(),
        s[p] == '-' || is_digit(s[p]),
    ensures
        p < number_end(s, p) <= s.len(),
{
    let a = if at(s, p) == Some('-') {
        p + 1
    } else {
        p
    };
    lemma_skip_digits(s, a);
    if a == p {
        lemma_skip_digits(s, p + 1);
    }
    let q = skip_digits(s, a);
    if at(s, q) == Some('.') {
        lemma_skip_digits(s, q + 1);
    }
    let q2 = if at(s, q) == Some('.') {
        skip_digits(s, q + 1)
    } else {
        q
    };
    if at(s, q2) == Some('e') || at(s, q2) == Some('E') {
        lemma_skip_digits(s, q2 + 1);
        if at(s, q2 + 1) == Some('+') || at(s, q2 + 1) == Some('-') {
            lemma_skip_digits(s, q2 + 2);
        }
    }
}

pub open spec fn read_number(s: Seq<char>, p: int) -> Read<Json> {
    let q = number_end(s, p);
    match number(s.subrange(p, q)) {
        Some(t) => Ok((Json::Number(t), q)),
        None => Err("invalid number "@ + s.subrange(p, q)),
    }
}

/// The fixed word `w` at `p`.
pub open spec fn read_word(s: Seq<char>, p: int, w: Seq<char>, v: Json) -> Read<Json> {
    if crate::text::occurs_at(s, w, p) {
        Ok((v, p + w.len()))
    } else {
        Err("expected '"@ + w + "'"@)
    }
}

/// The value that starts at `p`, white space before it allowed.
pub open spec fn read_value(s: Seq<char>, p: int) -> Read<Json>
    decreases s.len() - p, 1int,
{
    proof {
        if 0 <= p <= s.len() {
            lemma_skip_white(s, p);
            let q = skip_white(s, p);
            if q < s.len() {
                lemma_skip_white(s, q + 1);
            }
        }
    }
    let q = skip_white(s, p);
    if p < 0 || p > s.len() || q >= s.len() {
        Err("expected JSON value, got "@ + next_shown(at(s, q)))
    } else if s[q] == '{' {
        let r = skip_white(s, q + 1);
        if at(s, r) == Some('}') {
            Ok((Json::Object(Seq::empty()), r + 1))
        } else {
            read_members(s, r, Seq::empty())
        }
    } else if s[q] == '[' {
        let r = skip_white(s, q + 1);
        if at(s, r) == Some(']') {
            Ok((Json::Array(Seq::empty()), r + 1))
        } else {
            read_items(s, r, Seq::empty())
        }
    } else if s[q] == '"' {
        match read_string(s, q) {
            Ok((t, e)) => Ok((Json::Text(t), e)),
            Err(m) => Err(m),
        }
    } else if s[q] == 't' {
        read_word(s, q, "true"@, Json::Bool(true))
    } else if s[q] == 'f' {
        read_word(s, q, "false"@, Json::Bool(false))
    } else if s[q] == 'n' {
        read_word(s, q, "null"@, Json::Null)
    } else if s[q] == '-' || is_digit(s[q]) {
        read_number(s, q)
    } else {
        Err("expected JSON value, got "@ + next_shown(Some(s[q])))
    }
}

/// The items of an array from `p` on, after the items `acc`.
pub open spec fn read_items(s: Seq<char>, p: int, acc: Seq<Json>) -> Read<Json>
    decreases s.len() - p, 2int,
{
    match read_value(s, p) {
        Err(m) => Err(m),
        Ok((v, e)) => {
            let q = skip_white(s, e);
            match at(s, q) {
                Some(c) if c == ',' && q >= p => read_items(s, q + 1, acc.push(v)),
                Some(c) if c == ']' => Ok((Json::Array(acc.push(v)), q + 1)),
                other => Err("expected ',' or ']' in array, got "@ + next_shown(other)),
            }
        },
    }
}

/// The members of an object from `p` on, after the members `acc`.
pub open spec fn read_members(s: Seq<char>, p: int, acc: Seq<(Seq<char>, Json)>) -> Read<Json>
    decreases s.len() - p, 2int,
{
    match read_string(s, skip_white(s, p)) {
        Err(m) => Err(m),
        Ok((key, e)) => {
            let q = skip_white(s, e);
            if at(s, q) != Some(':') || q < p {
                Err("expected ':' after object key"@)
            } else {
                match read_value(s, q + 1) {
                    Err(m) => Err(m),
                    Ok((v, e2)) => {
                        let r = skip_white(s, e2);
                        match at(s, r) {
                            Some(c) if c == ',' && r >= p => read_members(s, r + 1, acc.push((key, v))),
                            Some(c) if c == '}' => Ok((Json::Object(acc.push((key, v))), r + 1)),
                            other => Err("expected ',' or '}' in object, got "@ + next_shown(other)),
                        }
                    },
                }
            }
        },
    }
}

pub proof fn lemma_read_chars(s: Seq<char>, p: int, acc: Seq<char>)
    requires
        0 <= p <= s.len(),
    ensures
        read_chars(s, p, acc) matches Ok((t, e)) ==> p < e <= s.len(),
    decreases s.len() - p,
{
    if p < s.len() {
        if s[p] == '"' {
        } else if s[p] == '\\' {
            if p + 1 < s.len() && simple_escape(s[p + 1]) is Some {
                lemma_read_chars(s, p + 2, acc.push(simple_escape(s[p + 1])->Some_0));
            } else if p + 1 < s.len() && s[p + 1] == 'u' {
                let q = escape_end(s, p + 2);
                if let Some(code) = escape_code(s.subrange(p + 2, q)) {
                    if is_scalar(code) {
                        lemma_read_chars(s, q, acc.push(code as char));
                    }
                }
            }
        } else {
            lemma_read_chars(s, p + 1, acc.push(s[p]));
        }
    }
}

/// A value that was read ends behind where it started.
pub proof fn lemma_read_value(s: Seq<char>, p: int)
    requires
        0 <= p <= s.len(),
    ensures
        read_value(s, p) matches Ok((v, e)) ==> p < e <= s.len(),
    decreases s.len() - p, 1int,
{
    lemma_skip_white(s, p);
    let q = skip_white(s, p);
    if q < s.len() {
        lemma_skip_white(s, q + 1);
        let r = skip_white(s, q + 1);
        if s[q] == '{' {
            lemma_read_members(s, r, Seq::empty());
        } else if s[q] == '[' {
            lemma_read_items(s, r, Seq::empty());
        } else if s[q] == '"' {
            lemma_read_chars(s, q + 1, Seq::empty());
        } else if s[q] == '-' || is_digit(s[q]) {
            lemma_number_end(s, q);
        } else {
            reveal_strlit("true");
            reveal_strlit("false");
            reveal_strlit("null");
        }
    }
}

pub proof fn lemma_read_items(s: Seq<char>, p: int, acc: Seq<Json>)
    requires
        0 <= p <= s.len(),
    ensures
        read_items(s, p, acc) matches Ok((v, e)) ==> p < e <= s.len(),
    decreases s.len() - p, 2int,
{
    lemma_read_value(s, p);
    if let Ok((v, e)) = read_value(s, p) {
        lemma_skip_white(s, e);
        let q = skip_white(s, e);
        if at(s, q) == Some(',') {
            lemma_read_items(s, q + 1, acc.push(v));
        }
    }
}

pub proof fn lemma_read_members(s: Seq<char>, p: int, acc: Seq<(Seq<char>, Json)>)
    requires
        0 <= p <= s.len(),
    ensures
        read_members(s, p, acc) matches Ok((v, e)) ==> p < e <= s.len(),
    decreases s.len() - p, 2int,
{
    lemma_skip_white(s, p);
    let p1 = skip_white(s, p);
    if p1 < s.len() {
        lemma_read_chars(s, p1 + 1, Seq::empty());
    }
    if let Ok((key, e)) = read_string(s, p1) {
        lemma_skip_white(s, e);
        let q = skip_white(s, e);
        if at(s, q) == Some(':') {
            lemma_read_value(s, q + 1);
            if let Ok((v, e2)) = read_value(s, q + 1) {
                lemma_skip_white(s, e2);
                let r = skip_white(s, e2);
                if at(s, r) == Some(',') {
                    lemma_read_members(s, r + 1, acc.push((key, v)));
                }
            }
        }
    }
}

/// The JSON value that the text `s` is, white space around it allowed.
pub open spec fn read_json(s: Seq<char>) -> Result<Json, Seq<char>> {
    match read_value(s, 0) {
        Err(m) => Err(m),
        Ok((v, e)) => if skip_white(s, e) == s.len() {
            Ok(v)
        } else {
            Err("trailing data after JSON value"@)
        },
    }
}

/// Whether a reader returned what the specification says.
pub open spec fn reads(
    r: Result<JsonValue, AdvanceError>,
    pos: int,
    want: Read<Json>,
) -> bool {
    match want {
        Ok((v, e)) => r is Ok && r->Ok_0@ == v && pos == e,
        Err(m) => r is Err && r->Err_0.message@ == m,
    }
}

/// A cursor over the characters of a JSON text.
pub struct JsonParser<'a> {
    pub s: &'a [char],
    pub pos: usize,
}

impl<'a> JsonParser<'a> {
    pub open spec fn wf(&self) -> bool {
        self.pos <= self.s@.len()
    }

    pub fn new(s: &'a [char]) -> (r: Self)
        ensures
            r.wf(),
            r.s@ == s@,
            r.pos == 0,
    {
        JsonParser { s, pos: 0 }
    }

    pub fn peek(&self) -> (r: Option<char>)
        ensures
            r == at(self.s@, self.pos as int),
    {
        if self.pos < self.s.len() {
            Some(self.s[self.pos])
        } else {
            None
        }
    }

    pub fn bump(&mut self) -> (r: Option<char>)
        requires
            old(self).wf(),
        ensures
            final(self).wf(),
            final(self).s@ == old(self).s@,
            r == at(old(self).s@, old(self).pos as int),
            final(self).pos == if r is Some {
                old(self).pos + 1
            } else {
                old(self).pos as int
            },
    {
        let c = self.peek();
        if c.is_some() {
            assert(self.pos < self.s@.len());
            let n: usize = self.s.len();
            self.pos = self.pos + 1;
        }
        c
    }

    pub fn skip_ws(&mut self)
        requires
            old(self).wf(),
        ensures
            final(self).wf(),
            final(self).s@ == old(self).s@,
            final(self).pos == skip_white(old(self).s@, old(self).pos as int),
            final(self).pos >= old(self).pos,
    {
        let n: usize = self.s.len();
        while self.pos < n && white(self.s[self.pos])
            invariant
                self.wf(),
                n == self.s@.len(),
                self.s@ == old(self).s@,
                self.pos >= old(self).pos,
                skip_white(old(self).s@, old(self).pos as int) == skip_white(
                    self.s@,
                    self.pos as int,
                ),
            decreases self.s@.len() - self.pos,
        {
            self.pos = self.pos + 1;
        }
    }

    fn skip_digits(&mut self)
        requires
            old(self).wf(),
        ensures
            final(self).wf(),
            final(self).s@ == old(self).s@,
            final(self).pos == skip_digits(old(self).s@, old(self).pos as int),
    {
        let n: usize = self.s.len();
        while self.pos < n && digit(self.s[self.pos])
            invariant
                self.wf(),
                n == self.s@.len(),
                self.s@ == old(self).s@,
                skip_digits(old(self).s@, old(self).pos as int) == skip_digits(
                    self.s@,
                    self.pos as int,
                ),
            decreases self.s@.len() - self.pos,
        {
            self.pos = self.pos + 1;
        }
    }

    /// The whole value, white space before it allowed.
    pub fn parse(&mut self) -> (r: Result<JsonValue, AdvanceError>)
        requires
            old(self).wf(),
        ensures
            final(self).wf(),
            final(self).s@ == old(self).s@,
            reads(r, final(self).pos as int, read_value(old(self).s@, old(self).pos as int)),
    {
        self.parse_value()
    }

    pub fn parse_value(&mut self) -> (r: Result<JsonValue, AdvanceError>)
        requires
            old(self).wf(),
        ensures
            final(self).wf(),
            final(self).s@ == old(self).s@,
            reads(r, final(self).pos as int, read_value(old(self).s@, old(self).pos as int)),
        decreases old(self).s@.len() - old(self).pos, 2int,
    {
        let ghost p = self.pos as int;
        self.skip_ws();
        match self.peek() {
            Some(c) => {
                if c == '{' {
                    self.parse_object(Ghost(p))
                } else if c == '[' {
                    self.parse_array(Ghost(p))
                } else if c == '"' {
                    match self.parse_string() {
                        Ok(t) => Ok(JsonValue::Text(t)),
                        Err(e) => Err(e),
                    }
                } else if c == 't' {
                    match self.expect_word("true") {
                        Ok(_) => Ok(JsonValue::Bool(true)),
                        Err(e) => Err(e),
                    }
                } else if c == 'f' {
                    match self.expect_word("false") {
                        Ok(_) => Ok(JsonValue::Bool(false)),
                        Err(e) => Err(e),
                    }
                } else if c == 'n' {
                    match self.expect_word("null") {
                        Ok(_) => Ok(JsonValue::Null),
                        Err(e) => Err(e),
                    }
                } else if c == '-' || digit(c) {
                    self.parse_number()
                } else {
                    Err(adv_err(cat("expected JSON value, got ", show_next(Some(c)).as_str())))
                }
            },
            None => Err(adv_err(cat("expected JSON value, got ", show_next(None).as_str()))),
        }
    }

    /// The object whose brace the cursor stands at.
    fn parse_object(&mut self, Ghost(p): Ghost<int>) -> (r: Result<JsonValue, AdvanceError>)
        requires
            old(self).wf(),
            0 <= p <= old(self).pos,
            old(self).pos == skip_white(old(self).s@, p),
            at(old(self).s@, old(self).pos as int) == Some('{'),
        ensures
            final(self).wf(),
            final(self).s@ == old(self).s@,
            reads(r, final(self).pos as int, read_value(old(self).s@, p)),
        decreases old(self).s@.len() - old(self).pos, 1int,
    {
        let ghost s = self.s@;
        let _ = self.bump();
        let mut pairs: Vec<(String, JsonValue)> = Vec::new();
        self.skip_ws();
        if self.peek() == Some('}') {
            let _ = self.bump();
            assert(object_view(pairs@) =~= Seq::empty());
            return Ok(JsonValue::Object(pairs));
        }
        assert(object_view(pairs@) =~= Seq::empty());
        loop
            invariant
                self.wf(),
                self.s@ == s,
                s == old(self).s@,
                self.pos > old(self).pos,
                read_value(s, p) == read_members(s, self.pos as int, object_view(pairs@)),
            decreases s.len() - self.pos,
        {
            let ghost start = self.pos as int;
            let ghost before = pairs@;
            proof {
                lemma_skip_white(s, start);
            }
            self.skip_ws();
            let key = match self.parse_string() {
                Ok(k) => k,
                Err(e) => {
                    return Err(e);
                },
            };
            proof {
                lemma_read_chars(s, skip_white(s, start) + 1, Seq::empty());
            }
            self.skip_ws();
            if self.bump() != Some(':') {
                return Err(adv_err("expected ':' after object key".to_owned()));
            }
            proof {
                lemma_read_value(s, self.pos as int);
            }
            let value = match self.parse_value() {
                Ok(v) => v,
                Err(e) => {
                    return Err(e);
                },
            };
            let ghost item = (key@, value@);
            pairs.push((key, value));
            assert(object_view(pairs@) =~= object_view(before).push(item));
            self.skip_ws();
            match self.bump() {
                Some(',') => {},
                Some('}') => {
                    return Ok(JsonValue::Object(pairs));
                },
                other => {
                    return Err(
                        adv_err(cat("expected ',' or '}' in object, got ", show_next(other).as_str())),
                    );
                },
            }
        }
    }

    /// The array whose bracket the cursor stands at.
    fn parse_array(&mut self, Ghost(p): Ghost<int>) -> (r: Result<JsonValue, AdvanceError>)
        requires
            old(self).wf(),
            0 <= p <= old(self).pos,
            old(self).pos == skip_white(old(self).s@, p),
            at(old(self).s@, old(self).pos as int) == Some('['),
        ensures
            final(self).wf(),
            final(self).s@ == old(self).s@,
            reads(r, final(self).pos as int, read_value(old(self).s@, p)),
        decreases old(self).s@.len() - old(self).pos, 1int,
    {
        let ghost s = self.s@;
        let _ = self.bump();
        let mut items: Vec<JsonValue> = Vec::new();
        self.skip_ws();
        if self.peek() == Some(']') {
            let _ = self.bump();
            assert(array_view(items@) =~= Seq::empty());
            return Ok(JsonValue::Array(items));
        }
        assert(array_view(items@) =~= Seq::empty());
        loop
            invariant
                self.wf(),
                self.s@ == s,
                s == old(self).s@,
                self.pos > old(self).pos,
                read_value(s, p) == read_items(s, self.pos as int, array_view(items@)),
            decreases s.len() - self.pos,
        {
            let ghost before = items@;
            proof {
                lemma_read_value(s, self.pos as int);
            }
            let value = match self.parse_value() {
                Ok(v) => v,
                Err(e) => {
                    return Err(e);
                },
            };
            let ghost item = value@;
            items.push(value);
            assert(array_view(items@) =~= array_view(before).push(item));
            self.skip_ws();
            match self.bump() {
                Some(',') => {},
                Some(']') => {
                    return Ok(JsonValue::Array(items));
                },
                other => {
                    return Err(
                        adv_err(cat("expected ',' or ']' in array, got ", show_next(other).as_str())),
                    );
                },
            }
        }
    }

    /// The string literal at the cursor.
    pub fn parse_string(&mut self) -> (r: Result<String, AdvanceError>)
        requires
            old(self).wf(),
        ensures
            final(self).wf(),
            final(self).s@ == old(self).s@,
            match read_string(old(self).s@, old(self).pos as int) {
                Ok((t, e)) => r is Ok && r->Ok_0@ == t && final(self).pos == e,
                Err(m) => r is Err && r->Err_0.message@ == m,
            },
    {
        let ghost s = self.s@;
        let ghost start = self.pos as int;
        if self.bump() != Some('"') {
            return Err(adv_err("expected string".to_owned()));
        }
        let mut out = String::new();
        loop
            invariant
                self.wf(),
                self.s@ == s,
                read_string(s, start) == read_chars(s, self.pos as int, out@),
                s == old(self).s@,
                start == old(self).pos,
            decreases s.len() - self.pos,
        {
            let ghost p = self.pos as int;
            match self.bump() {
                Some(c) => {
                    if c == '"' {
                        return Ok(out);
                    }
                    if c != '\\' {
                        out.push(c);
                        continue ;
                    }
                    match self.bump() {
                        Some(e) => match simple(e) {
                            Some(c) => {
                                out.push(c);
                            },
                            None => {
                                if e != 'u' {
                                    return Err(
                                        adv_err(
                                            cat(
                                                "invalid escape sequence ",
                                                show_next(Some(e)).as_str(),
                                            ),
                                        ),
                                    );
                                }
                                let n: usize = self.s.len();
                                let stop: usize = if n - self.pos >= 4 {
                                    self.pos + 4
                                } else {
                                    n
                                };
                                let hex = &self.s[self.pos..stop];
                                self.pos = stop;
                                match parse_escape_code(hex) {
                                    None => {
                                        return Err(adv_err("invalid unicode escape".to_owned()));
                                    },
                                    Some(code) => match std::char::from_u32(code) {
                                        Some(c) => {
                                            out.push(c);
                                        },
                                        None => {
                                            return Err(
                                                adv_err("invalid unicode codepoint".to_owned()),
                                            );
                                        },
                                    },
                                }
                            },
                        },
                        None => {
                            return Err(
                                adv_err(cat("invalid escape sequence ", show_next(None).as_str())),
                            );
                        },
                    }
                },
                None => {
                    return Err(adv_err("unterminated string".to_owned()));
                },
            }
        }
    }

    /// The number at the cursor.
    fn parse_number(&mut self) -> (r: Result<JsonValue, AdvanceError>)
        requires
            old(self).wf(),
            old(self).pos < old(self).s@.len(),
            old(self).s@[old(self).pos as int] == '-' || is_digit(
                old(self).s@[old(self).pos as int],
            ),
        ensures
            final(self).wf(),
            final(self).s@ == old(self).s@,
            reads(r, final(self).pos as int, read_number(old(self).s@, old(self).pos as int)),
    {
        let start = self.pos;
        proof {
            lemma_number_end(self.s@, start as int);
        }
        if self.peek() == Some('-') {
            let _ = self.bump();
        }
        self.skip_digits();
        if self.peek() == Some('.') {
            let _ = self.bump();
            self.skip_digits();
        }
        let c = self.peek();
        if c == Some('e') || c == Some('E') {
            let _ = self.bump();
            let c2 = self.peek();
            if c2 == Some('+') || c2 == Some('-') {
                let _ = self.bump();
            }
            self.skip_digits();
        }
        let lexeme = &self.s[start..self.pos];
        match parse_num(lexeme) {
            Some(n) => Ok(JsonValue::Number(n)),
            None => Err(adv_err(cat("invalid number ", string_of(lexeme).as_str()))),
        }
    }

    /// The fixed word `word` at the cursor.
    pub fn expect_word(&mut self, word: &str) -> (r: Result<(), AdvanceError>)
        requires
            old(self).wf(),
        ensures
            final(self).wf(),
            final(self).s@ == old(self).s@,
            r is Ok <==> crate::text::occurs_at(old(self).s@, word@, old(self).pos as int),
            r is Ok ==> final(self).pos == old(self).pos + word@.len(),
            r is Err ==> r->Err_0.message@ == "expected '"@ + word@ + "'"@,
    {
        let w = chars_of(word);
        let mut i: usize = 0;
        while i < w.len()
            invariant
                self.wf(),
                self.s@ == old(self).s@,
                w@ == word@,
                i <= w@.len(),
                self.pos == old(self).pos + i,
                forall|j: int| 0 <= j < i ==> old(self).s@[old(self).pos + j] == w@[j],
            decreases w@.len() - i,
        {
            let ghost k = self.pos as int;
            if self.bump() != Some(w[i]) {
                proof {
                    if crate::text::occurs_at(old(self).s@, word@, old(self).pos as int) {
                        let sub = old(self).s@.subrange(
                            old(self).pos as int,
                            old(self).pos + word@.len(),
                        );
                        assert(sub[i as int] == word@[i as int]);
                    }
                }
                return Err(adv_err(cat3("expected '", word, "'")));
            }
            i += 1;
        }
        assert(old(self).s@.subrange(old(self).pos as int, old(self).pos + word@.len()) =~= word@);
        Ok(())
    }
}

fn simple(c: char) -> (r: Option<char>)
    ensures
        r == simple_escape(c),
{
    if c == '"' || c == '\\' || c == '/' {
        Some(c)
    } else if c == 'b' {
        Some('\u{8}')
    } else if c == 'f' {
        Some('\u{c}')
    } else if c == 'n' {
        Some('\n')
    } else if c == 'r' {
        Some('\r')
    } else if c == 't' {
        Some('\t')
    } else {
        None
    }
}

fn hex_digit(c: char) -> (r: Option<u32>)
    ensures
        match hex_value(c) {
            Some(d) => r is Some && r->Some_0 == d && 0 <= d < 16,
            None => r is None,
        },
{
    let u: u32 = c as u32;
    if digit(c) {
        Some(u - 48)
    } else if 'a' <= c && c <= 'f' {
        Some(u - 87)
    } else if 'A' <= c && c <= 'F' {
        Some(u - 55)
    } else {
        None
    }
}

fn parse_hex(s: &[char]) -> (r: Option<u32>)
    requires
        s@.len() <= 4,
    ensures
        match hex_number(s@) {
            Some(d) => r is Some && r->Some_0 == d && 0 <= d < 0x10000,
            None => r is None,
        },
        s@.len() <= 3 && hex_number(s@) is Some ==> hex_number(s@)->Some_0 < 0x1000,
        s@.len() <= 2 && hex_number(s@) is Some ==> hex_number(s@)->Some_0 < 0x100,
        s@.len() <= 1 && hex_number(s@) is Some ==> hex_number(s@)->Some_0 < 0x10,
    decreases s@.len(),
{
    let n: usize = s.len();
    if n == 0 {
        return None;
    }
    if n == 1 {
        return hex_digit(s[0]);
    }
    let head = &s[0..n - 1];
    assert(head@ =~= s@.drop_last());
    match (parse_hex(head), hex_digit(s[n - 1])) {
        (Some(h), Some(d)) => Some(h * 16 + d),
        _ => None,
    }
}

fn parse_escape_code(s: &[char]) -> (r: Option<u32>)
    requires
        s@.len() <= 4,
    ensures
        match escape_code(s@) {
            Some(d) => r is Some && r->Some_0 == d && 0 <= d < 0x10000,
            None => r is None,
        },
{
    if s.len() > 0 && s[0] == '+' {
        let tail = &s[1..s.len()];
        assert(tail@ =~= s@.skip(1));
        parse_hex(tail)
    } else {
        parse_hex(s)
    }
}

/// `char::from_u32` gives the character of a code that is a Unicode scalar
/// value, and nothing for any other code.
pub assume_specification[ std::char::from_u32 ](i: u32) -> (r: Option<char>)
    ensures
        r == if i < 0xd800 || 0xe000 <= i <= 0x10ffff {
            Some(i as char)
        } else {
            None
        },
;

/// The JSON value that `source` is.
pub fn parse_json(source: &str) -> (r: Result<JsonValue, AdvanceError>)
    ensures
        match read_json(source@) {
            Ok(v) => r is Ok && r->Ok_0@ == v,
            Err(m) => r is Err && r->Err_0.message@ == m,
        },
{
    let chars = chars_of(source);
    let mut p = JsonParser::new(chars.as_slice());
    match p.parse() {
        Err(e) => Err(e),
        Ok(v) => {
            p.skip_ws();
            if p.pos != p.s.len() {
                return Err(adv_err("trailing data after JSON value".to_owned()));
            }
            Ok(v)
        },
    }
}

/// The first member of `o` with the given key.
pub open spec fn member(o: Seq<(Seq<char>, Json)>, key: Seq<char>) -> Option<Json>
    decreases o.len(),
{
    if o.len() == 0 {
        None
    } else if o[0].0 == key {
        Some(o[0].1)
    } else {
        member(o.skip(1), key)
    }
}

pub fn obj_get<'a>(obj: &'a [(String, JsonValue)], key: &str) -> (r: Option<&'a JsonValue>)
    ensures
        match member(object_view(obj@), key@) {
            Some(v) => r is Some && r->Some_0@ == v,
            None => r is None,
        },
{
    let ghost o = object_view(obj@);
    let mut i: usize = 0;
    assert(o.skip(0) =~= o);
    while i < obj.len()
        invariant
            i <= obj@.len(),
            o == object_view(obj@),
            member(o, key@) == member(o.skip(i as int), key@),
        decreases obj@.len() - i,
    {
        assert(o.skip(i as int)[0] == o[i as int]);
        if str_eq(obj[i].0.as_str(), key) {
            return Some(&obj[i].1);
        }
        assert(o.skip(i as int).skip(1) =~= o.skip(i as int + 1));
        i += 1;
    }
    None
}

/// The text of a string value.
pub open spec fn text_of(v: Json) -> Option<Seq<char>> {
    match v {
        Json::Text(s) => Some(s),
        _ => None,
    }
}

pub fn as_str<'a>(v: &'a JsonValue) -> (r: Option<&'a str>)
    ensures
        match text_of(v@) {
            Some(s) => r is Some && r->Some_0@ == s,
            None => r is None,
        },
{
    match v {
        JsonValue::Text(s) => Some(s.as_str()),
        _ => None,
    }
}

pub open spec fn items_of(v: Json) -> Option<Seq<Json>> {
    match v {
        Json::Array(a) => Some(a),
        _ => None,
    }
}

pub fn as_array<'a>(v: &'a JsonValue) -> (r: Option<&'a [JsonValue]>)
    ensures
        match items_of(v@) {
            Some(a) => r is Some && array_view(r->Some_0@) == a,
            None => r is None,
        },
        r is Some ==> *v is Array && r->Some_0@ == v->Array_0@,
{
    match v {
        JsonValue::Array(a) => Some(a.as_slice()),
        _ => None,
    }
}

pub open spec fn members_of(v: Json) -> Option<Seq<(Seq<char>, Json)>> {
    match v {
        Json::Object(o) => Some(o),
        _ => None,
    }
}

pub fn as_object<'a>(v: &'a JsonValue) -> (r: Option<&'a [(String, JsonValue)]>)
    ensures
        match members_of(v@) {
            Some(o) => r is Some && object_view(r->Some_0@) == o,
            None => r is None,
        },
        r is Some ==> *v is Object && r->Some_0@ == v->Object_0@,
{
    match v {
        JsonValue::Object(o) => Some(o.as_slice()),
        _ => None,
    }
}

pub open spec fn number_of(v: Json) -> Option<Seq<char>> {
    match v {
        Json::Number(n) => Some(n),
        _ => None,
    }
}

pub fn as_number(v: &JsonValue) -> (r: Option<Num>)
    ensures
        match number_of(v@) {
            Some(n) => r is Some && r->Some_0@ == n,
            None => r is None,
        },
{
    match v {
        JsonValue::Number(n) => Some(n.clone()),
        _ => None,
    }
}

pub open spec fn hex_char(d: int) -> char {
    if d < 10 {
        (48 + d) as char
    } else {
        (87 + d) as char
    }
}

/// How a character is written inside a string literal.
pub open spec fn escape_char(c: char) -> Seq<char> {
    if c == '"' {
        seq!['\\', '"']
    } else if c == '\\' {
        seq!['\\', '\\']
    } else if c == '\n' {
        seq!['\\', 'n']
    } else if c == '\r' {
        seq!['\\', 'r']
    } else if c == '\t' {
        seq!['\\', 't']
    } else if c == '\u{8}' {
        seq!['\\', 'b']
    } else if c == '\u{c}' {
        seq!['\\', 'f']
    } else if (c as u32) < 0x20 {
        seq!['\\', 'u', '0', '0', hex_char((c as u32 / 16) as int), hex_char((c as u32 % 16) as int)]
    } else {
        seq![c]
    }
}

pub open spec fn escape_all(s: Seq<char>) -> Seq<char>
    decreases s.len(),
{
    if s.len() == 0 {
        seq![]
    } else {
        escape_char(s[0]) + escape_all(s.skip(1))
    }
}

/// The string literal for `s`.
pub open spec fn escape_json(s: Seq<char>) -> Seq<char> {
    seq!['"'] + escape_all(s) + seq!['"']
}

fn push_hex(out: &mut String, d: u32)
    requires
        d < 16,
    ensures
        final(out)@ == old(out)@.push(hex_char(d as int)),
{
    let b: u8 = if d < 10 {
        48 + d as u8
    } else {
        87 + d as u8
    };
    out.push(b as char);
}

fn push_escaped(out: &mut String, c: char)
    ensures
        final(out)@ == old(out)@ + escape_char(c),
{
    let u: u32 = c as u32;
    if c == '"' || c == '\\' {
        out.push('\\');
        out.push(c);
    } else if c == '\n' {
        out.push('\\');
        out.push('n');
    } else if c == '\r' {
        out.push('\\');
        out.push('r');
    } else if c == '\t' {
        out.push('\\');
        out.push('t');
    } else if c == '\u{8}' {
        out.push('\\');
        out.push('b');
    } else if c == '\u{c}' {
        out.push('\\');
        out.push('f');
    } else if u < 0x20 {
        out.push('\\');
        out.push('u');
        out.push('0');
        out.push('0');
        push_hex(out, u / 16);
        push_hex(out, u % 16);
    } else {
        out.push(c);
    }
    assert(out@ =~= old(out)@ + escape_char(c));
}

/// The string literal for `s`.
pub fn escape_json_str(s: &str) -> (r: String)
    ensures
        r@ == escape_json(s@),
{
    let c = chars_of(s);
    let mut out = String::new();
    out.push('"');
    let mut i: usize = 0;
    assert(s@.skip(0) =~= s@);
    assert(out@ =~= seq!['"']);
    while i < c.len()
        invariant
            i <= c@.len(),
            c@ == s@,
            out@ + escape_all(s@.skip(i as int)) == seq!['"'] + escape_all(s@),
        decreases c@.len() - i,
    {
        let ghost before = out@;
        push_escaped(&mut out, c[i]);
        assert(s@.skip(i as int).skip(1) =~= s@.skip(i as int + 1));
        assert(before + (escape_char(s@[i as int]) + escape_all(s@.skip(i as int + 1))) =~= out@
            + escape_all(s@.skip(i as int + 1)));
        i += 1;
    }
    assert(out@ + escape_all(s@.skip(i as int)) =~= out@);
    out.push('"');
    assert(out@ =~= escape_json(s@));
    out
}

/// A JSON text for `v`, without white space.
pub open spec fn print_json(v: Json) -> Seq<char>
    decreases v, 0int,
{
    match v {
        Json::Null => "null"@,
        Json::Bool(b) => if b {
            "true"@
        } else {
            "false"@
        },
        Json::Number(n) => n,
        Json::Text(s) => escape_json(s),
        Json::Array(a) => seq!['['] + print_items(a) + seq![']'],
        Json::Object(o) => seq!['{'] + print_members(o) + seq!['}'],
    }
}

pub open spec fn print_items(a: Seq<Json>) -> Seq<char>
    decreases a, 1int,
{
    if a.len() == 0 {
        seq![]
    } else if a.len() == 1 {
        print_json(a[0])
    } else {
        print_json(a[0]) + seq![','] + print_items(a.skip(1))
    }
}

pub open spec fn print_member(m: (Seq<char>, Json)) -> Seq<char>
    decreases m, 0int,
{
    escape_json(m.0) + seq![':'] + print_json(m.1)
}

pub open spec fn print_members(o: Seq<(Seq<char>, Json)>) -> Seq<char>
    decreases o, 1int,
{
    if o.len() == 0 {
        seq![]
    } else if o.len() == 1 {
        print_member(o[0])
    } else {
        print_member(o[0]) + seq![','] + print_members(o.skip(1))
    }
}

} // verus!

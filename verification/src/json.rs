//! JSON, as far as the gateway writes and reads it by hand.

use vstd::prelude::*;

verus! {

/// A hexadecimal digit, in lower case.
pub open spec fn hex_digit(d: nat) -> char {
    if d < 10 {
        (48 + d) as char
    } else {
        (87 + d) as char
    }
}

/// One character inside a JSON string: quotes, backslashes and control
/// characters are escaped.
pub open spec fn escaped_char(c: char) -> Seq<char> {
    if c == '"' || c == '\\' {
        seq!['\\', c]
    } else if c == '\u{8}' {
        seq!['\\', 'b']
    } else if c == '\t' {
        seq!['\\', 't']
    } else if c == '\n' {
        seq!['\\', 'n']
    } else if c == '\u{c}' {
        seq!['\\', 'f']
    } else if c == '\r' {
        seq!['\\', 'r']
    } else if (c as nat) < 0x20 {
        seq!['\\', 'u', '0', '0', hex_digit(c as nat / 16), hex_digit(c as nat % 16)]
    } else {
        seq![c]
    }
}

/// The inside of a JSON string.
pub open spec fn escaped(s: Seq<char>) -> Seq<char>
    decreases s.len(),
{
    if s.len() == 0 {
        Seq::empty()
    } else {
        escaped_char(s[0]) + escaped(s.skip(1))
    }
}

/// A text as a JSON string.
pub open spec fn json_quoted(s: Seq<char>) -> Seq<char> {
    seq!['"'] + escaped(s) + seq!['"']
}

/// `serde_json::Value`'s display of a string value: the JSON string of the
/// text.
#[verifier::external_body]
pub(crate) fn quote(s: &str) -> (r: String)
    ensures
        r@ == json_quoted(s@),
{
    serde_json::Value::String(s.to_owned()).to_string()
}

proof fn lemma_first_escape(a: char, b: char, x: Seq<char>, y: Seq<char>)
    requires
        escaped_char(a) + x == escaped_char(b) + y,
    ensures
        a == b,
        x == y,
{
    let p = escaped_char(a) + x;
    let q = escaped_char(b) + y;
    assert(p[0] == escaped_char(a)[0] && q[0] == escaped_char(b)[0]);
    if escaped_char(a).len() > 1 && escaped_char(b).len() > 1 {
        assert(p[1] == escaped_char(a)[1] && q[1] == escaped_char(b)[1]);
        if escaped_char(a).len() == 6 && escaped_char(b).len() == 6 {
            assert(p[4] == escaped_char(a)[4] && q[4] == escaped_char(b)[4]);
            assert(p[5] == escaped_char(a)[5] && q[5] == escaped_char(b)[5]);
        }
    }
    assert(x =~= p.skip(escaped_char(a).len() as int));
    assert(y =~= q.skip(escaped_char(b).len() as int));
}

proof fn lemma_escaped_differ(a: Seq<char>, b: Seq<char>)
    requires
        escaped(a) == escaped(b),
    ensures
        a == b,
    decreases a.len(),
{
    if a.len() == 0 && b.len() == 0 {
        assert(a =~= b);
    } else if a.len() == 0 {
        assert(escaped(b).len() > 0);
    } else if b.len() == 0 {
        assert(escaped(a).len() > 0);
    } else {
        lemma_first_escape(a[0], b[0], escaped(a.skip(1)), escaped(b.skip(1)));
        lemma_escaped_differ(a.skip(1), b.skip(1));
        assert(a =~= seq![a[0]] + a.skip(1));
        assert(b =~= seq![b[0]] + b.skip(1));
    }
}

/// A text can be told from its JSON string: two texts with the same string are
/// the same text.
pub proof fn lemma_quoted_texts_differ(a: Seq<char>, b: Seq<char>)
    requires
        json_quoted(a) == json_quoted(b),
    ensures
        a == b,
{
    let p = json_quoted(a);
    let q = json_quoted(b);
    assert(escaped(a) =~= p.subrange(1, p.len() - 1));
    assert(escaped(b) =~= q.subrange(1, q.len() - 1));
    lemma_escaped_differ(a, b);
}

/// What looking up a number in a JSON text finds.
#[derive(Debug)]
pub enum Lookup {
    /// The text is not JSON.
    Malformed,
    /// The pointer leads nowhere.
    Missed,
    /// The pointer leads to a value that is no number; how it is shown.
    NotNumeric(String),
    /// The number, as the bit pattern of its double-precision value.
    Number(u64),
}

/// What a lookup finds, with its text as a sequence of characters.
pub enum Found {
    /// The text is not JSON.
    Malformed,
    /// The pointer leads nowhere.
    Missed,
    /// The pointer leads to a value that is no number; how it is shown.
    NotNumeric(Seq<char>),
    /// The number, as the bit pattern of its double-precision value.
    Number(u64),
}

impl View for Lookup {
    type V = Found;

    open spec fn view(&self) -> Found {
        match self {
            Lookup::Malformed => Found::Malformed,
            Lookup::Missed => Found::Missed,
            Lookup::NotNumeric(s) => Found::NotNumeric(s@),
            Lookup::Number(bits) => Found::Number(*bits),
        }
    }
}

/// A JSON value of the `serde_json` crate.
#[verifier::external_type_specification]
#[verifier::external_body]
pub struct ExValue(serde_json::Value);

/// What a JSON value holds, in compact JSON notation.
pub uninterp spec fn notation(value: serde_json::Value) -> Seq<char>;

/// The value that a text denotes, in compact JSON notation, if it denotes one.
pub uninterp spec fn json_read(text: Seq<char>) -> Option<Seq<char>>;

/// The value at a JSON Pointer in a value, both in compact JSON notation, if the
/// pointer leads to one.
pub uninterp spec fn json_pointed(value: Seq<char>, pointer: Seq<char>) -> Option<Seq<char>>;

/// The bit pattern of the double-precision number that a value is, if it is a
/// number.
pub uninterp spec fn json_numeric(value: Seq<char>) -> Option<u64>;

/// How a value is shown to a developer.
pub uninterp spec fn json_shown(value: Seq<char>) -> Seq<char>;

/// `serde_json::from_str`: the value that a text denotes, if it denotes one.
#[verifier::external_body]
fn parse_json(text: &str) -> (r: Option<serde_json::Value>)
    ensures
        match r {
            Some(value) => json_read(text@) == Some(notation(value)),
            None => json_read(text@) is None,
        },
{
    serde_json::from_str(text).ok()
}

/// `serde_json::Value::pointer`: the value at a JSON Pointer, if the pointer
/// leads to one.
#[verifier::external_body]
fn value_at<'v>(value: &'v serde_json::Value, pointer: &str) -> (r: Option<&'v serde_json::Value>)
    ensures
        match r {
            Some(found) => json_pointed(notation(*value), pointer@) == Some(notation(*found)),
            None => json_pointed(notation(*value), pointer@) is None,
        },
{
    value.pointer(pointer)
}

/// `serde_json::Value::as_f64`: the bit pattern of the number that a value is,
/// if it is one.
#[verifier::external_body]
fn number_of(value: &serde_json::Value) -> (r: Option<u64>)
    ensures
        r == json_numeric(notation(*value)),
{
    value.as_f64().map(|number| number.to_bits())
}

/// The `Debug` form of a `serde_json::Value`.
#[verifier::external_body]
fn show(value: &serde_json::Value) -> (r: String)
    ensures
        r@ == json_shown(notation(*value)),
{
    format!("{value:?}")
}

/// What looking up a number at a JSON Pointer in a JSON text finds. The empty
/// pointer is the whole text.
pub open spec fn json_number_at(body: Seq<char>, pointer: Seq<char>) -> Found {
    match json_read(body) {
        None => Found::Malformed,
        Some(document) => match json_pointed(document, pointer) {
            None => Found::Missed,
            Some(value) => match json_numeric(value) {
                Some(bits) => Found::Number(bits),
                None => Found::NotNumeric(json_shown(value)),
            },
        },
    }
}

/// Look up the number at a JSON Pointer in a JSON text.
pub fn number_at(body: &str, pointer: &str) -> (r: Lookup)
    ensures
        r@ == json_number_at(body@, pointer@),
{
    let document = match parse_json(body) {
        Some(document) => document,
        None => {
            return Lookup::Malformed;
        },
    };
    let value = match value_at(&document, pointer) {
        Some(value) => value,
        None => {
            return Lookup::Missed;
        },
    };
    match number_of(value) {
        Some(bits) => Lookup::Number(bits),
        None => Lookup::NotNumeric(show(value)),
    }
}

} // verus!

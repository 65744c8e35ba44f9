//! The JSON texts that take part in the logic: lists of numbers and quoted strings.

use vstd::prelude::*;
use vstd::utf8::*;

use crate::text;
use crate::text::{join, push_decimal};

verus! {

/// The list of numbers that a JSON text is read as by `serde_json`, if it is one.
pub uninterp spec fn json_numbers(bytes: Seq<u8>) -> Option<Seq<u32>>;

/// `serde_json::from_slice` for a list of `u32`: the list, or nothing where it fails. The result is
/// fixed by the bytes.
#[verifier::external_body]
pub(crate) fn numbers_from_json(bytes: &[u8]) -> (r: Option<Vec<u32>>)
    ensures
        r.deep_view() == json_numbers(bytes@),
{
    serde_json::from_slice(bytes).ok()
}

/// A list of texts in brackets, separated by commas.
pub open spec fn list_text(items: Seq<Seq<char>>) -> Seq<char> {
    "["@ + text::joined(items, ","@) + "]"@
}

/// A list of texts in braces, separated by commas.
pub open spec fn object_text(members: Seq<Seq<char>>) -> Seq<char> {
    "{"@ + text::joined(members, ","@) + "}"@
}

/// Decimal texts of numbers.
pub open spec fn decimals(numbers: Seq<u32>) -> Seq<Seq<char>> {
    Seq::new(numbers.len(), |i: int| text::decimal_text(numbers[i] as nat))
}

/// `serde_json::to_string` for a list of `u32`: the decimal numbers in brackets, separated by
/// commas, which `serde_json::from_slice` reads back.
#[verifier::external_body]
pub(crate) fn numbers_to_json(numbers: &Vec<u32>) -> (r: String)
    ensures
        r@ == list_text(decimals(numbers@)),
        json_numbers(encode_utf8(r@)) == Some(numbers@),
{
    serde_json::to_string(numbers).unwrap_or_default()
}

/// A character inside a JSON string.
pub open spec fn escaped(c: char) -> Seq<char> {
    if c == '"' {
        seq!['\\', '"']
    } else if c == '\\' {
        seq!['\\', '\\']
    } else if c == '\u{8}' {
        seq!['\\', 'b']
    } else if c == '\u{c}' {
        seq!['\\', 'f']
    } else if c == '\n' {
        seq!['\\', 'n']
    } else if c == '\r' {
        seq!['\\', 'r']
    } else if c == '\t' {
        seq!['\\', 't']
    } else if (c as u32) < 0x20 {
        seq!['\\', 'u'] + text::lower_hex_text(c as u32 as nat, 4)
    } else {
        seq![c]
    }
}

/// The characters of a JSON string.
pub open spec fn escaped_text(s: Seq<char>) -> Seq<char>
    decreases s.len(),
{
    if s.len() == 0 {
        seq![]
    } else {
        escaped_text(s.drop_last()) + escaped(s.last())
    }
}

/// A text as a JSON string.
pub open spec fn quoted(s: Seq<char>) -> Seq<char> {
    "\""@ + escaped_text(s) + "\""@
}

/// Texts as JSON strings.
pub open spec fn quoted_all(items: Seq<Seq<char>>) -> Seq<Seq<char>> {
    Seq::new(items.len(), |i: int| quoted(items[i]))
}

/// `serde_json::to_string` for a string: quotes, backslashes and control characters are escaped.
#[verifier::external_body]
pub(crate) fn quote(s: &str) -> (r: String)
    ensures
        r@ == quoted(s@),
{
    serde_json::to_string(s).unwrap_or_default()
}

/// A truth value in JSON.
pub open spec fn bool_text(b: bool) -> Seq<char> {
    if b {
        "true"@
    } else {
        "false"@
    }
}

/// A truth value in JSON.
pub fn bool_str(b: bool) -> (r: &'static str)
    ensures
        r@ == bool_text(b),
{
    if b {
        "true"
    } else {
        "false"
    }
}

/// A string or `null` in JSON.
pub open spec fn optional_text(s: Option<Seq<char>>) -> Seq<char> {
    match s {
        Some(s) => quoted(s),
        None => "null"@,
    }
}

/// A string or `null` in JSON.
pub fn optional_string(s: &Option<String>) -> (r: String)
    ensures
        r@ == optional_text(s.deep_view()),
{
    match s {
        Some(s) => quote(s.as_str()),
        None => "null".to_owned(),
    }
}

/// Texts in brackets, separated by commas.
pub fn bracketed(items: &Vec<String>) -> (r: String)
    ensures
        r@ == list_text(items.deep_view()),
{
    let mut out = "[".to_owned();
    out.push_str(join(items, ",").as_str());
    out.push_str("]");
    out
}

/// Texts in braces, separated by commas.
pub fn braced(members: &Vec<String>) -> (r: String)
    ensures
        r@ == object_text(members.deep_view()),
{
    let mut out = "{".to_owned();
    out.push_str(join(members, ",").as_str());
    out.push_str("}");
    out
}

/// Strings as a JSON list.
pub fn quoted_list(items: &Vec<String>) -> (r: String)
    ensures
        r@ == list_text(quoted_all(items.deep_view())),
{
    let mut parts: Vec<String> = Vec::new();
    for i in 0..items.len()
        invariant
            parts@.len() == i,
            forall|k: int| 0 <= k < i ==> (#[trigger] parts@[k])@ == quoted(items@[k]@),
    {
        parts.push(quote(items[i].as_str()));
    }
    proof {
        assert(parts.deep_view() =~= quoted_all(items.deep_view()));
    }
    bracketed(&parts)
}

/// A member of a JSON object.
pub open spec fn member(key: Seq<char>, value: Seq<char>) -> Seq<char> {
    quoted(key) + ":"@ + value
}

/// A member of a JSON object.
pub fn json_member(key: &str, value: &str) -> (r: String)
    ensures
        r@ == member(key@, value@),
{
    let mut out = quote(key);
    out.push_str(":");
    out.push_str(value);
    out
}

/// A number in JSON.
pub fn number(v: u64) -> (r: String)
    ensures
        r@ == text::decimal_text(v as nat),
{
    let mut out = String::new();
    push_decimal(&mut out, v);
    proof {
        assert(out@ =~= text::decimal_text(v as nat));
    }
    out
}

/// A JSON text as `serde_json` reads it and writes it on several lines, or why it is none.
pub uninterp spec fn pretty_json(text: Seq<char>) -> Result<Seq<char>, Seq<char>>;

/// `serde_json::from_str` for any value, and `serde_json::to_string_pretty` for what came of it: the
/// same value on several lines, or the message of the error. The result is fixed by the text. What
/// the layout is, is not stated.
#[verifier::external_body]
pub(crate) fn write_pretty(text: &str) -> (r: Result<String, String>)
    ensures
        match pretty_json(text@) {
            Ok(shown) => r is Ok && r->Ok_0@ == shown,
            Err(message) => r is Err && r->Err_0@ == message,
        },
{
    match serde_json::from_str::<serde_json::Value>(text) {
        Ok(value) => serde_json::to_string_pretty(&value).map_err(|e| e.to_string()),
        Err(e) => Err(e.to_string()),
    }
}

} // verus!

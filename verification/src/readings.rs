//! What a JSON text says: a reader of JSON texts, and that it reads back what is written.

use vstd::prelude::*;
use vstd::utf8::*;

use crate::json;
use crate::text;

verus! {

/// A JSON value.
pub enum Json {
    Null,
    Bool(bool),
    Number(nat),
    Text(Seq<char>),
    List(Seq<Json>),
    Object(Seq<(Seq<char>, Json)>),
}

/// The value of a decimal digit.
pub open spec fn digit(c: char) -> Option<nat> {
    if '0' <= c && c <= '9' {
        Some((c as u32 - 0x30) as nat)
    } else {
        None
    }
}

/// The value of a hexadecimal digit.
pub open spec fn hex_digit(c: char) -> Option<nat> {
    if '0' <= c && c <= '9' {
        Some((c as u32 - 0x30) as nat)
    } else if 'a' <= c && c <= 'f' {
        Some((c as u32 - 0x61 + 10) as nat)
    } else if 'A' <= c && c <= 'F' {
        Some((c as u32 - 0x41 + 10) as nat)
    } else {
        None
    }
}

/// The number that starts a text, after digits that came to `before`, and what is left.
pub open spec fn number(s: Seq<char>, before: nat) -> (nat, Seq<char>)
    decreases s.len(),
{
    if s.len() > 0 && digit(s[0]) is Some {
        number(s.skip(1), before * 10 + digit(s[0])->0)
    } else {
        (before, s)
    }
}

/// The character of a short escape.
pub open spec fn short_escape(c: char) -> Option<char> {
    if c == '"' || c == '\\' || c == '/' {
        Some(c)
    } else if c == 'b' {
        Some('\u{8}')
    } else if c == 'f' {
        Some('\u{c}')
    } else if c == 'n' {
        Some('\n')
    } else if c == 'r' {
        Some('\r')
    } else if c == 't' {
        Some('\t')
    } else {
        None
    }
}

/// The character whose number is given by four hexadecimal digits.
pub open spec fn long_escape(a: char, b: char, c: char, d: char) -> Option<char> {
    match (hex_digit(a), hex_digit(b), hex_digit(c), hex_digit(d)) {
        (Some(a), Some(b), Some(c), Some(d)) => {
            let v = ((a * 16 + b) * 16 + c) * 16 + d;
            if 0xd800 <= v <= 0xdfff {
                None
            } else {
                Some(v as char)
            }
        },
        _ => None,
    }
}

/// The characters up to the quote that ends a string, and what is left.
pub open spec fn string(s: Seq<char>) -> Option<(Seq<char>, Seq<char>)>
    decreases s.len(),
{
    if s.len() == 0 || (s[0] as u32) < 0x20 {
        None
    } else if s[0] == '"' {
        Some((seq![], s.skip(1)))
    } else if s[0] != '\\' {
        match string(s.skip(1)) {
            Some((t, rest)) => Some((seq![s[0]] + t, rest)),
            None => None,
        }
    } else if s.len() >= 6 && s[1] == 'u' {
        match (long_escape(s[2], s[3], s[4], s[5]), string(s.skip(6))) {
            (Some(c), Some((t, rest))) => Some((seq![c] + t, rest)),
            _ => None,
        }
    } else if s.len() >= 2 {
        match (short_escape(s[1]), string(s.skip(2))) {
            (Some(c), Some((t, rest))) => Some((seq![c] + t, rest)),
            _ => None,
        }
    } else {
        None
    }
}

/// The text starts with the word.
pub open spec fn starts(s: Seq<char>, word: Seq<char>) -> bool {
    word.len() <= s.len() && s.take(word.len() as int) == word
}

/// The value that starts a text, and what is left. At most `depth` steps are gone down.
pub open spec fn value(s: Seq<char>, depth: nat) -> Option<(Json, Seq<char>)>
    decreases depth,
{
    if s.len() == 0 || depth == 0 {
        None
    } else if s[0] == '"' {
        match string(s.skip(1)) {
            Some((t, rest)) => Some((Json::Text(t), rest)),
            None => None,
        }
    } else if digit(s[0]) is Some {
        Some((Json::Number(number(s, 0).0), number(s, 0).1))
    } else if s[0] == '[' {
        if s.len() > 1 && s[1] == ']' {
            Some((Json::List(seq![]), s.skip(2)))
        } else {
            match items(s.skip(1), (depth - 1) as nat) {
                Some((all, rest)) => Some((Json::List(all), rest)),
                None => None,
            }
        }
    } else if s[0] == '{' {
        if s.len() > 1 && s[1] == '}' {
            Some((Json::Object(seq![]), s.skip(2)))
        } else {
            match members(s.skip(1), (depth - 1) as nat) {
                Some((all, rest)) => Some((Json::Object(all), rest)),
                None => None,
            }
        }
    } else if starts(s, "true"@) {
        Some((Json::Bool(true), s.skip(4)))
    } else if starts(s, "false"@) {
        Some((Json::Bool(false), s.skip(5)))
    } else if starts(s, "null"@) {
        Some((Json::Null, s.skip(4)))
    } else {
        None
    }
}

/// The items up to the bracket that ends a list, and what is left.
pub open spec fn items(s: Seq<char>, depth: nat) -> Option<(Seq<Json>, Seq<char>)>
    decreases depth,
{
    if depth == 0 {
        None
    } else {
        match value(s, (depth - 1) as nat) {
            Some((first, rest)) => if rest.len() > 0 && rest[0] == ']' {
                Some((seq![first], rest.skip(1)))
            } else if rest.len() > 0 && rest[0] == ',' {
                match items(rest.skip(1), (depth - 1) as nat) {
                    Some((others, left)) => Some((seq![first] + others, left)),
                    None => None,
                }
            } else {
                None
            },
            None => None,
        }
    }
}

/// The members up to the brace that ends an object, and what is left.
pub open spec fn members(s: Seq<char>, depth: nat) -> Option<
    (Seq<(Seq<char>, Json)>, Seq<char>),
>
    decreases depth,
{
    if depth == 0 || s.len() == 0 || s[0] != '"' {
        None
    } else {
        match string(s.skip(1)) {
            Some((key, after)) => if after.len() > 0 && after[0] == ':' {
                match value(after.skip(1), (depth - 1) as nat) {
                    Some((first, rest)) => if rest.len() > 0 && rest[0] == '}' {
                        Some((seq![(key, first)], rest.skip(1)))
                    } else if rest.len() > 0 && rest[0] == ',' {
                        match members(rest.skip(1), (depth - 1) as nat) {
                            Some((others, left)) => Some((seq![(key, first)] + others, left)),
                            None => None,
                        }
                    } else {
                        None
                    },
                    None => None,
                }
            } else {
                None
            },
            None => None,
        }
    }
}

/// What a JSON text without space between its parts says.
pub open spec fn read(s: Seq<char>) -> Option<Json> {
    match value(s, s.len()) {
        Some((v, rest)) => if rest.len() == 0 {
            Some(v)
        } else {
            None
        },
        None => None,
    }
}

/// No number goes on in the text.
pub open spec fn ended(rest: Seq<char>) -> bool {
    rest.len() == 0 || digit(rest[0]) is None
}

/// Wherever the text stands, it is read as the value.
#[verifier::opaque]
pub open spec fn says(s: Seq<char>, v: Json) -> bool {
    &&& s.len() > 0
    &&& s[0] != ']'
    &&& forall|rest: Seq<char>, depth: nat|
        ended(rest) && depth >= s.len() ==> #[trigger] value(s + rest, depth) == Some((v, rest))
}

/// A text that says a value wherever it stands is read as this value.
pub proof fn lemma_read(s: Seq<char>, v: Json)
    requires
        says(s, v),
    ensures
        read(s) == Some(v),
{
    reveal(says);
    let none: Seq<char> = seq![];
    assert(s + none =~= s);
    assert(ended(none));
    assert(value(s + none, s.len()) == Some((v, none)));
}

proof fn lemma_digit(d: nat)
    requires
        d < 10,
    ensures
        digit(text::digit_char(d as int, false)) == Some(d),
{
}

/// The digits of a number are read as this number, with what stands before and behind them.
pub proof fn lemma_decimal(n: nat, rest: Seq<char>)
    ensures
        number(text::decimal_text(n) + rest, 0) == number(rest, n),
        text::decimal_text(n).len() > 0,
        digit(text::decimal_text(n)[0]) is Some,
    decreases n,
{
    let s = text::decimal_text(n);
    if n < 10 {
        lemma_digit(n);
        assert((s + rest).skip(1) =~= rest);
        assert((s + rest)[0] == s[0]);
    } else {
        let d = text::digit_char((n % 10) as int, false);
        let after = seq![d] + rest;
        lemma_digit(n % 10);
        lemma_decimal(n / 10, after);
        assert(s + rest =~= text::decimal_text(n / 10) + after);
        assert(after.skip(1) =~= rest);
        assert(after[0] == d);
        assert((n / 10) * 10 + n % 10 == n);
        assert(s[0] == text::decimal_text(n / 10)[0]);
    }
}

/// Decimal numbers are read back.
pub proof fn lemma_number_says(n: nat)
    ensures
        says(text::decimal_text(n), Json::Number(n)),
{
    reveal(says);
    let s = text::decimal_text(n);
    lemma_decimal(n, seq![]);
    assert forall|rest: Seq<char>, depth: nat| ended(rest) && depth >= s.len() implies
        #[trigger] value(s + rest, depth) == Some((Json::Number(n), rest)) by {
        lemma_decimal(n, rest);
        assert((s + rest)[0] == s[0]);
        assert(number(rest, n) == (n, rest));
    }
}

/// Truth values are read back.
pub proof fn lemma_bool_says(b: bool)
    ensures
        says(json::bool_text(b), Json::Bool(b)),
{
    reveal(says);
    reveal_strlit("true");
    reveal_strlit("false");
    let s = json::bool_text(b);
    assert forall|rest: Seq<char>, depth: nat| ended(rest) && depth >= s.len() implies
        #[trigger] value(s + rest, depth) == Some((Json::Bool(b), rest)) by {
        assert((s + rest)[0] == s[0]);
        assert((s + rest).take(s.len() as int) =~= s);
        assert((s + rest).skip(s.len() as int) =~= rest);
        if !b {
            assert("true"@[0] == 't');
            assert((s + rest).take(4)[0] == 'f');
        }
    }
}

/// `null` is read back.
pub proof fn lemma_null_says()
    ensures
        says("null"@, Json::Null),
{
    reveal(says);
    reveal_strlit("true");
    reveal_strlit("false");
    reveal_strlit("null");
    let s = "null"@;
    assert forall|rest: Seq<char>, depth: nat| ended(rest) && depth >= s.len() implies
        #[trigger] value(s + rest, depth) == Some((Json::Null, rest)) by {
        assert((s + rest)[0] == s[0]);
        assert((s + rest).take(s.len() as int) =~= s);
        assert((s + rest).skip(s.len() as int) =~= rest);
        assert("true"@[0] == 't' && "false"@[0] == 'f');
        assert((s + rest).take(4)[0] == 'n');
        if s.len() + rest.len() >= 5 {
            assert((s + rest).take(5)[0] == 'n');
        }
    }
}

proof fn lemma_escaped_front(s: Seq<char>)
    requires
        s.len() > 0,
    ensures
        json::escaped_text(s) == json::escaped(s[0]) + json::escaped_text(s.skip(1)),
    decreases s.len(),
{
    let front = s.drop_last();
    if s.len() == 1 {
        assert(s.skip(1) =~= seq![]);
        assert(front =~= seq![]);
        assert(json::escaped_text(s) =~= json::escaped(s[0]) + json::escaped_text(s.skip(1)));
    } else {
        lemma_escaped_front(front);
        assert(front.skip(1) =~= s.skip(1).drop_last());
        assert(s.skip(1).last() == s.last());
        assert(json::escaped_text(s) =~= json::escaped(s[0]) + json::escaped_text(s.skip(1)));
    }
}

proof fn lemma_long_escape(c: char)
    requires
        (c as u32) < 0x20,
    ensures
        ({
            let h = text::lower_hex_text(c as u32 as nat, 4);
            &&& h.len() == 4
            &&& long_escape(h[0], h[1], h[2], h[3]) == Some(c)
        }),
{
    let v = c as u32 as nat;
    let h = text::lower_hex_text(v, 4);
    let digits = text::digits_text(v, 16, false);
    reveal_with_fuel(text::digits_text, 2);
    if v < 16 {
        assert(digits =~= seq![text::digit_char(v as int, false)]);
        assert(h.len() == 4);
        assert(h[0] == '0' && h[1] == '0' && h[2] == '0');
        assert(h[3] == text::digit_char(v as int, false));
    } else {
        assert(v / 16 == 1 && v % 16 == v - 16);
        assert(digits =~= seq![text::digit_char(1, false), text::digit_char(v - 16, false)]);
        assert(h.len() == 4);
        assert(h[0] == '0' && h[1] == '0' && h[2] == text::digit_char(1, false));
        assert(h[3] == text::digit_char(v - 16, false));
    }
    assert(hex_digit(h[2]) == Some(v / 16));
    assert(hex_digit(h[3]) == Some(v % 16));
    char_u32_cast(c, c as u32);
    assert(v as char == c);
}

proof fn lemma_string(t: Seq<char>, rest: Seq<char>)
    ensures
        string(json::escaped_text(t) + "\""@ + rest) == Some((t, rest)),
    decreases t.len(),
{
    reveal_strlit("\"");
    let s = json::escaped_text(t) + "\""@ + rest;
    if t.len() == 0 {
        assert(s[0] == '"');
        assert(s.skip(1) =~= rest);
        assert(t =~= seq![]);
    } else {
        let c = t[0];
        let e = json::escaped(c);
        let others = json::escaped_text(t.skip(1)) + "\""@ + rest;
        lemma_escaped_front(t);
        lemma_string(t.skip(1), rest);
        assert(s =~= e + others);
        assert(t =~= seq![c] + t.skip(1));
        if e.len() == 2 {
            assert(s.skip(2) =~= others);
            assert(s[0] == '\\');
            assert(s[1] == e[1]);
        } else if e.len() == 1 {
            assert(s.skip(1) =~= others);
            assert(s[0] == c);
        } else {
            lemma_long_escape(c);
            let h = text::lower_hex_text(c as u32 as nat, 4);
            assert(e =~= seq!['\\', 'u'] + h);
            assert(s.skip(6) =~= others);
            assert(s[0] == '\\' && s[1] == 'u');
            assert(s[2] == h[0] && s[3] == h[1] && s[4] == h[2] && s[5] == h[3]);
        }
    }
}

/// Strings are read back, whatever characters they hold.
pub proof fn lemma_text_says(t: Seq<char>)
    ensures
        says(json::quoted(t), Json::Text(t)),
{
    reveal(says);
    reveal_strlit("\"");
    let s = json::quoted(t);
    assert(s[0] == '"');
    assert forall|rest: Seq<char>, depth: nat| ended(rest) && depth >= s.len() implies
        #[trigger] value(s + rest, depth) == Some((Json::Text(t), rest)) by {
        lemma_string(t, rest);
        assert((s + rest)[0] == '"');
        assert((s + rest).skip(1) =~= json::escaped_text(t) + "\""@ + rest);
    }
}

/// A string, or `null` where there is none.
pub open spec fn optional(t: Option<Seq<char>>) -> Json {
    match t {
        Some(t) => Json::Text(t),
        None => Json::Null,
    }
}

/// Strings that may be missing are read back.
pub proof fn lemma_optional_says(t: Option<Seq<char>>)
    ensures
        says(json::optional_text(t), optional(t)),
{
    match t {
        Some(t) => lemma_text_says(t),
        None => lemma_null_says(),
    }
}

proof fn lemma_joined_front(parts: Seq<Seq<char>>)
    requires
        parts.len() >= 2,
    ensures
        text::joined(parts, ","@) == parts[0] + ","@ + text::joined(parts.skip(1), ","@),
    decreases parts.len(),
{
    let front = parts.drop_last();
    if parts.len() == 2 {
        assert(front =~= seq![parts[0]]);
        assert(parts.skip(1) =~= seq![parts[1]]);
        assert(text::joined(front, ","@) == parts[0]);
        assert(text::joined(parts.skip(1), ","@) == parts[1]);
        assert(text::joined(parts, ","@) =~= parts[0] + ","@ + text::joined(
            parts.skip(1),
            ","@,
        ));
    } else {
        lemma_joined_front(front);
        let others = parts.skip(1);
        assert(front.skip(1) =~= others.drop_last());
        assert(others.last() == parts.last());
        assert(front[0] == parts[0]);
        assert(text::joined(others, ","@) == text::joined(others.drop_last(), ","@) + ","@
            + others.last());
        assert(text::joined(parts, ","@) =~= parts[0] + ","@ + text::joined(
            parts.skip(1),
            ","@,
        ));
    }
}

proof fn lemma_items(parts: Seq<Seq<char>>, values: Seq<Json>, rest: Seq<char>, depth: nat)
    requires
        parts.len() == values.len(),
        parts.len() > 0,
        forall|i: int| 0 <= i < parts.len() ==> says(#[trigger] parts[i], values[i]),
        depth >= text::joined(parts, ","@).len() + 1,
    ensures
        items(text::joined(parts, ","@) + "]"@ + rest, depth) == Some((values, rest)),
    decreases parts.len(),
{
    reveal(says);
    reveal_strlit(",");
    reveal_strlit("]");
    let s = text::joined(parts, ","@) + "]"@ + rest;
    let one = (depth - 1) as nat;
    assert(says(parts[0], values[0]));
    if parts.len() == 1 {
        let after = "]"@ + rest;
        assert(s =~= parts[0] + after);
        assert(ended(after));
        assert(value(parts[0] + after, one) == Some((values[0], after)));
        assert(after.skip(1) =~= rest);
        assert(values =~= seq![values[0]]);
    } else {
        lemma_joined_front(parts);
        let others = text::joined(parts.skip(1), ","@) + "]"@ + rest;
        let after = ","@ + others;
        assert(s =~= parts[0] + after);
        assert(ended(after));
        assert(value(parts[0] + after, one) == Some((values[0], after)));
        assert(after.skip(1) =~= others);
        assert forall|i: int| 0 <= i < parts.skip(1).len() implies says(
            #[trigger] parts.skip(1)[i],
            values.skip(1)[i],
        ) by {
            assert(says(parts[i + 1], values[i + 1]));
        }
        lemma_items(parts.skip(1), values.skip(1), rest, one);
        assert(values =~= seq![values[0]] + values.skip(1));
    }
}

/// Lists are read back, item by item.
pub proof fn lemma_list_says(parts: Seq<Seq<char>>, values: Seq<Json>)
    requires
        parts.len() == values.len(),
        forall|i: int| 0 <= i < parts.len() ==> says(#[trigger] parts[i], values[i]),
    ensures
        says(json::list_text(parts), Json::List(values)),
{
    reveal_strlit("[");
    reveal_strlit("]");
    let s = json::list_text(parts);
    assert(s[0] == '[');
    assert forall|rest: Seq<char>, depth: nat| ended(rest) && depth >= s.len() implies
        #[trigger] value(s + rest, depth) == Some((Json::List(values), rest)) by {
        assert((s + rest)[0] == '[');
        if parts.len() == 0 {
            assert((s + rest)[1] == ']');
            assert((s + rest).skip(2) =~= rest);
            assert(values =~= seq![]);
        } else {
            lemma_items(parts, values, rest, (depth - 1) as nat);
            assert((s + rest).skip(1) =~= text::joined(parts, ","@) + "]"@ + rest);
            assert(says(parts[0], values[0]));
            assert(parts[0].len() > 0 && parts[0][0] != ']') by {
                reveal(says);
            }
            lemma_joined_starts(parts);
            assert((s + rest)[1] == text::joined(parts, ","@)[0]);
        }
    }
    reveal(says);
}

proof fn lemma_joined_starts(parts: Seq<Seq<char>>)
    requires
        parts.len() > 0,
        parts[0].len() > 0,
    ensures
        text::joined(parts, ","@).len() > 0,
        text::joined(parts, ","@)[0] == parts[0][0],
{
    if parts.len() > 1 {
        lemma_joined_front(parts);
    }
}

/// Members of an object with texts for values.
pub open spec fn member_texts(keys: Seq<Seq<char>>, texts: Seq<Seq<char>>) -> Seq<Seq<char>> {
    Seq::new(keys.len(), |i: int| json::member(keys[i], texts[i]))
}

/// Members of an object.
pub open spec fn member_values(keys: Seq<Seq<char>>, values: Seq<Json>) -> Seq<
    (Seq<char>, Json),
> {
    Seq::new(keys.len(), |i: int| (keys[i], values[i]))
}

proof fn lemma_member(
    key: Seq<char>,
    t: Seq<char>,
    v: Json,
    after: Seq<char>,
    depth: nat,
)
    requires
        says(t, v),
        ended(after),
        depth >= t.len(),
    ensures
        ({
            let s = json::member(key, t) + after;
            &&& s.len() > 0
            &&& s[0] == '"'
            &&& string(s.skip(1)) == Some((key, ":"@ + t + after))
            &&& (":"@ + t + after)[0] == ':'
            &&& (":"@ + t + after).len() > 0
            &&& value((":"@ + t + after).skip(1), depth) == Some((v, after))
        }),
{
    reveal(says);
    reveal_strlit("\"");
    reveal_strlit(":");
    let s = json::member(key, t) + after;
    let left = ":"@ + t + after;
    lemma_string(key, left);
    assert(s.skip(1) =~= json::escaped_text(key) + "\""@ + left);
    assert(left.skip(1) =~= t + after);
}

proof fn lemma_members_step(
    key: Seq<char>,
    t: Seq<char>,
    v: Json,
    after: Seq<char>,
    depth: nat,
)
    requires
        says(t, v),
        ended(after),
        after.len() > 0,
        depth > t.len(),
    ensures
        after[0] == '}' ==> members(json::member(key, t) + after, depth) == Some(
            (seq![(key, v)], after.skip(1)),
        ),
        after[0] == ',' ==> members(json::member(key, t) + after, depth) == (match members(
            after.skip(1),
            (depth - 1) as nat,
        ) {
            Some((others, left)) => Some((seq![(key, v)] + others, left)),
            None => None,
        }),
{
    lemma_member(key, t, v, after, (depth - 1) as nat);
}

proof fn lemma_members(
    keys: Seq<Seq<char>>,
    texts: Seq<Seq<char>>,
    values: Seq<Json>,
    rest: Seq<char>,
    depth: nat,
)
    requires
        keys.len() == values.len(),
        keys.len() == texts.len(),
        keys.len() > 0,
        forall|i: int| 0 <= i < keys.len() ==> says(#[trigger] texts[i], values[i]),
        depth >= text::joined(member_texts(keys, texts), ","@).len() + 1,
    ensures
        members(text::joined(member_texts(keys, texts), ","@) + "}"@ + rest, depth) == Some(
            (member_values(keys, values), rest),
        ),
    decreases keys.len(),
{
    reveal_strlit(",");
    reveal_strlit("}");
    let parts = member_texts(keys, texts);
    let all = member_values(keys, values);
    let s = text::joined(parts, ","@) + "}"@ + rest;
    let one = (depth - 1) as nat;
    assert(says(texts[0], values[0]));
    assert(parts[0] == json::member(keys[0], texts[0]));
    if keys.len() == 1 {
        let after = "}"@ + rest;
        assert(s =~= parts[0] + after);
        assert(ended(after));
        lemma_members_step(keys[0], texts[0], values[0], after, depth);
        assert(after.skip(1) =~= rest);
        assert(all =~= seq![(keys[0], values[0])]);
    } else {
        lemma_joined_front(parts);
        let others = text::joined(parts.skip(1), ","@) + "}"@ + rest;
        let after = ","@ + others;
        assert(s =~= parts[0] + after);
        assert(ended(after));
        lemma_members_step(keys[0], texts[0], values[0], after, depth);
        assert(after.skip(1) =~= others);
        assert forall|i: int| 0 <= i < keys.skip(1).len() implies says(
            #[trigger] texts.skip(1)[i],
            values.skip(1)[i],
        ) by {
            assert(says(texts[i + 1], values[i + 1]));
        }
        assert(parts.skip(1) =~= member_texts(keys.skip(1), texts.skip(1)));
        lemma_members(keys.skip(1), texts.skip(1), values.skip(1), rest, one);
        assert(all =~= seq![(keys[0], values[0])] + member_values(keys.skip(1), values.skip(1)));
    }
}

/// Objects are read back, member by member.
pub proof fn lemma_object_says(keys: Seq<Seq<char>>, texts: Seq<Seq<char>>, values: Seq<Json>)
    requires
        keys.len() == values.len(),
        keys.len() == texts.len(),
        forall|i: int| 0 <= i < keys.len() ==> says(#[trigger] texts[i], values[i]),
    ensures
        says(
            json::object_text(member_texts(keys, texts)),
            Json::Object(member_values(keys, values)),
        ),
{
    reveal_strlit("{");
    reveal_strlit("}");
    reveal_strlit("\"");
    let parts = member_texts(keys, texts);
    let s = json::object_text(parts);
    assert(s[0] == '{');
    assert forall|rest: Seq<char>, depth: nat| ended(rest) && depth >= s.len() implies
        #[trigger] value(s + rest, depth) == Some(
        (Json::Object(member_values(keys, values)), rest),
    ) by {
        assert((s + rest)[0] == '{');
        if keys.len() == 0 {
            assert((s + rest)[1] == '}');
            assert((s + rest).skip(2) =~= rest);
            assert(member_values(keys, values) =~= seq![]);
        } else {
            lemma_members(keys, texts, values, rest, (depth - 1) as nat);
            assert((s + rest).skip(1) =~= text::joined(parts, ","@) + "}"@ + rest);
            assert(parts[0] == json::member(keys[0], texts[0]));
            assert(parts[0][0] == '"');
            lemma_joined_starts(parts);
            assert((s + rest)[1] == text::joined(parts, ","@)[0]);
        }
    }
    reveal(says);
}

} // verus!

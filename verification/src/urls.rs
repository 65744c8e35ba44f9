//! Percent-encoded texts and query strings.

use vstd::prelude::*;
use vstd::utf8::*;

use crate::hex_bytes;
use crate::scan;
use crate::scan::{split_text, split_text_once};
use crate::strmap::StringMap;
use crate::text;
use crate::text::{lossy_string, str_eq};

verus! {

/// Two hexadecimal digits follow the place.
pub open spec fn escape_at(bytes: Seq<u8>, i: int) -> bool {
    &&& i + 2 < bytes.len()
    &&& hex_bytes::digit_value(bytes[i + 1]) is Some
    &&& hex_bytes::digit_value(bytes[i + 2]) is Some
}

/// The bytes that percent-encoded bytes stand for, from a place on: a plus sign stands for a space,
/// a percent sign with two hexadecimal digits for a byte, and everything else for itself.
pub open spec fn unescaped(bytes: Seq<u8>, i: int) -> Seq<u8>
    decreases bytes.len() - i,
{
    if i < 0 || i >= bytes.len() {
        seq![]
    } else if bytes[i] == 0x2b {
        seq![0x20u8] + unescaped(bytes, i + 1)
    } else if bytes[i] == 0x25 && escape_at(bytes, i) {
        seq![
            (hex_bytes::digit_value(bytes[i + 1])->0 * 16 + hex_bytes::digit_value(
                bytes[i + 2],
            )->0) as u8,
        ] + unescaped(bytes, i + 3)
    } else {
        seq![bytes[i]] + unescaped(bytes, i + 1)
    }
}

/// The text that a percent-encoded text stands for.
pub open spec fn url_decoded(s: Seq<char>) -> Seq<char> {
    text::lossy_text(unescaped(encode_utf8(s), 0))
}

/// The value of a hexadecimal digit.
pub fn hexval(b: u8) -> (r: Option<u8>)
    ensures
        r == hex_bytes::digit_value(b),
        r matches Some(v) ==> v < 16,
{
    if 0x30 <= b && b <= 0x39 {
        Some(b - 0x30)
    } else if 0x61 <= b && b <= 0x66 {
        Some(b - 0x61 + 10)
    } else if 0x41 <= b && b <= 0x46 {
        Some(b - 0x41 + 10)
    } else {
        None
    }
}

/// The bytes that percent-encoded bytes stand for.
pub fn unescape(bytes: &[u8]) -> (r: Vec<u8>)
    ensures
        r@ == unescaped(bytes@, 0),
{
    let n = bytes.len();
    let mut out: Vec<u8> = Vec::new();
    let mut i: usize = 0;
    proof {
        assert(out@ + unescaped(bytes@, 0) =~= unescaped(bytes@, 0));
    }
    while i < n
        invariant
            n == bytes@.len(),
            i <= n,
            out@ + unescaped(bytes@, i as int) == unescaped(bytes@, 0),
        decreases n - i,
    {
        let b = bytes[i];
        let ghost before = out@;
        let ghost at = i as int;
        if b == 0x2b {
            out.push(0x20);
            i += 1;
        } else if b == 0x25 && 2 < n - i {
            match (hexval(bytes[i + 1]), hexval(bytes[i + 2])) {
                (Some(high), Some(low)) => {
                    out.push(high * 16 + low);
                    i += 3;
                },
                _ => {
                    out.push(b);
                    i += 1;
                },
            }
        } else {
            out.push(b);
            i += 1;
        }
        proof {
            assert(out@ + unescaped(bytes@, i as int) =~= before + unescaped(bytes@, at));
        }
    }
    proof {
        assert(out@ + unescaped(bytes@, i as int) =~= out@);
    }
    out
}

/// The text that a percent-encoded text stands for.
pub fn url_decode(input: &str) -> (r: String)
    ensures
        r@ == url_decoded(input@),
{
    lossy_string(unescape(input.as_bytes()).as_slice())
}

/// The text that a percent-encoded text stands for.
pub fn urldecode(s: &str) -> (r: String)
    ensures
        r@ == url_decoded(s@),
{
    url_decode(s)
}

/// The key and the value of a pair of a query; the value is empty where there is no equals sign.
pub open spec fn pair_parts(pair: Seq<char>) -> (Seq<char>, Seq<char>) {
    match scan::split_once(pair, "="@) {
        Some(parts) => parts,
        None => (pair, seq![]),
    }
}

/// The parameters that pairs of a query give, decoded; of several with one key the last counts.
pub open spec fn params_of(pairs: Seq<Seq<char>>) -> Map<Seq<char>, Seq<char>>
    decreases pairs.len(),
{
    if pairs.len() == 0 {
        Map::empty()
    } else {
        let before = params_of(pairs.drop_last());
        let pair = pairs.last();
        if pair.len() == 0 {
            before
        } else if scan::split_once(pair, "="@) is None {
            before.insert(url_decoded(pair), seq![])
        } else {
            let parts = pair_parts(pair);
            before.insert(url_decoded(parts.0), url_decoded(parts.1))
        }
    }
}

/// The parameters of a query, decoded.
pub open spec fn query_map(query: Seq<char>) -> Map<Seq<char>, Seq<char>> {
    params_of(scan::split(query, "&"@))
}

/// The parameters of a query, decoded; of several with one key the last counts.
pub fn query_params(query: &str) -> (r: StringMap<String>)
    ensures
        r.deep_view() == query_map(query@),
{
    broadcast use text::lemma_map_models_insert;

    proof {
        reveal_strlit("&");
    }
    let pairs = split_text(query, "&");
    let ghost model = pairs.deep_view();
    let mut out: StringMap<String> = StringMap::new();
    proof {
        assert(model.take(0) =~= Seq::<Seq<char>>::empty());
        assert(out.deep_view() =~= Map::<Seq<char>, Seq<char>>::empty());
    }
    for i in 0..pairs.len()
        invariant
            model == pairs.deep_view(),
            out.deep_view() == params_of(model.take(i as int)),
    {
        let pair = pairs[i].as_str();
        proof {
            assert(model.take(i + 1).drop_last() =~= model.take(i as int));
            assert(model.take(i + 1).last() == pair@);
        }
        if !pair.is_empty() {
            match split_text_once(pair, "=") {
                Some(parts) => {
                    out.insert(url_decode(parts.0.as_str()), url_decode(parts.1.as_str()));
                },
                None => {
                    out.insert(url_decode(pair), String::new());
                },
            }
        }
    }
    proof {
        assert(model.take(model.len() as int) =~= model);
    }
    out
}

/// The decoded values that pairs of a query give to a key, in order.
pub open spec fn values_in(pairs: Seq<Seq<char>>, key: Seq<char>) -> Seq<Seq<char>>
    decreases pairs.len(),
{
    if pairs.len() == 0 {
        seq![]
    } else {
        let before = values_in(pairs.drop_last(), key);
        let pair = pairs.last();
        if pair.len() > 0 && pair_parts(pair).0 == key {
            before.push(url_decoded(pair_parts(pair).1))
        } else {
            before
        }
    }
}

/// The decoded values that a query gives to a key, in order. The key is not decoded.
pub fn values_of(query: &str, key: &str) -> (r: Vec<String>)
    ensures
        r.deep_view() == values_in(scan::split(query@, "&"@), key@),
{
    broadcast use {text::lemma_models_push, text::lemma_vec_model};

    proof {
        reveal_strlit("&");
    }
    let pairs = split_text(query, "&");
    let ghost model = pairs.deep_view();
    let mut out: Vec<String> = Vec::new();
    proof {
        assert(model.take(0) =~= Seq::<Seq<char>>::empty());
        assert(text::models(out@) =~= Seq::<Seq<char>>::empty());
    }
    for i in 0..pairs.len()
        invariant
            model == pairs.deep_view(),
            text::models(out@) == values_in(model.take(i as int), key@),
    {
        let pair = pairs[i].as_str();
        proof {
            assert(model.take(i + 1).drop_last() =~= model.take(i as int));
            assert(model.take(i + 1).last() == pair@);
        }
        if !pair.is_empty() {
            let (name, value) = match split_text_once(pair, "=") {
                Some(parts) => parts,
                None => (pair.to_owned(), String::new()),
            };
            if str_eq(name.as_str(), key) {
                out.push(url_decode(value.as_str()));
            }
        }
    }
    proof {
        assert(model.take(model.len() as int) =~= model);
    }
    out
}

/// A text without percent and plus signs stands for itself, where it is decoded as UTF-8.
pub proof fn plain_bytes_stand_for_themselves(bytes: Seq<u8>, i: int)
    requires
        0 <= i <= bytes.len(),
        forall|k: int| 0 <= k < bytes.len() ==> #[trigger] bytes[k] != 0x25 && bytes[k] != 0x2b,
    ensures
        unescaped(bytes, i) == bytes.skip(i),
    decreases bytes.len() - i,
{
    if i < bytes.len() {
        plain_bytes_stand_for_themselves(bytes, i + 1);
        assert(bytes[i] != 0x25);
        assert(seq![bytes[i]] + bytes.skip(i + 1) =~= bytes.skip(i));
    } else {
        assert(bytes.skip(i) =~= Seq::<u8>::empty());
    }
}

} // verus!

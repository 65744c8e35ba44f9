//! Base64 with padding, in the standard alphabet.

use vstd::prelude::*;

use crate::text::{chars_of, str_eq};

verus! {

/// The character of a six-bit number.
pub open spec fn sextet_char(v: int) -> char {
    if v < 26 {
        (0x41 + v) as char
    } else if v < 52 {
        (0x61 + v - 26) as char
    } else if v < 62 {
        (0x30 + v - 52) as char
    } else if v == 62 {
        '+'
    } else {
        '/'
    }
}

/// The number of three bytes.
pub open spec fn triple(a: u8, b: u8, c: u8) -> int {
    a * 65536 + b * 256 + c
}

/// The base64 text of bytes.
pub open spec fn base64_text(bytes: Seq<u8>) -> Seq<char>
    decreases bytes.len(),
{
    if bytes.len() == 0 {
        seq![]
    } else if bytes.len() == 1 {
        let n = triple(bytes[0], 0, 0);
        seq![sextet_char(n / 262144), sextet_char(n / 4096 % 64), '=', '=']
    } else if bytes.len() == 2 {
        let n = triple(bytes[0], bytes[1], 0);
        seq![
            sextet_char(n / 262144),
            sextet_char(n / 4096 % 64),
            sextet_char(n / 64 % 64),
            '=',
        ]
    } else {
        let n = triple(bytes[0], bytes[1], bytes[2]);
        seq![
            sextet_char(n / 262144),
            sextet_char(n / 4096 % 64),
            sextet_char(n / 64 % 64),
            sextet_char(n % 64),
        ] + base64_text(bytes.skip(3))
    }
}

fn sextet(v: u32) -> (c: char)
    requires
        v < 64,
    ensures
        c == sextet_char(v as int),
{
    if v < 26 {
        (0x41u8 + v as u8) as char
    } else if v < 52 {
        (0x61u8 + (v as u8 - 26u8)) as char
    } else if v < 62 {
        (0x30u8 + (v as u8 - 52u8)) as char
    } else if v == 62 {
        '+'
    } else {
        '/'
    }
}

/// The base64 text of bytes.
pub fn base64_encode(input: &[u8]) -> (r: String)
    ensures
        r@ == base64_text(input@),
{
    let mut out = String::new();
    let mut i: usize = 0;
    proof {
        assert(input@.skip(0) =~= input@);
        assert(out@ + base64_text(input@) =~= base64_text(input@));
    }
    while input.len() - i >= 3
        invariant
            i <= input@.len(),
            out@ + base64_text(input@.skip(i as int)) == base64_text(input@),
        decreases input@.len() - i,
    {
        let n: u32 = input[i] as u32 * 65536 + input[i + 1] as u32 * 256 + input[i + 2] as u32;
        let ghost before = out@;
        out.push(sextet(n / 262144));
        out.push(sextet(n / 4096 % 64));
        out.push(sextet(n / 64 % 64));
        out.push(sextet(n % 64));
        proof {
            let rest = input@.skip(i as int);
            assert(rest.skip(3) =~= input@.skip(i + 3));
            assert(out@ + base64_text(input@.skip(i + 3)) =~= before + base64_text(rest));
        }
        i += 3;
    }
    let ghost before = out@;
    let left: usize = input.len() - i;
    if left == 1 {
        let n: u32 = input[i] as u32 * 65536;
        out.push(sextet(n / 262144));
        out.push(sextet(n / 4096 % 64));
        out.push('=');
        out.push('=');
    } else if left == 2 {
        let n: u32 = input[i] as u32 * 65536 + input[i + 1] as u32 * 256;
        out.push(sextet(n / 262144));
        out.push(sextet(n / 4096 % 64));
        out.push(sextet(n / 64 % 64));
        out.push('=');
    }
    proof {
        assert(out@ =~= before + base64_text(input@.skip(i as int)));
    }
    out
}

/// The six-bit number of a character, or zero for one that is not in the alphabet.
spec fn char_sextet(c: char) -> int {
    let v = c as u32;
    if 0x41 <= v <= 0x5a {
        v - 0x41
    } else if 0x61 <= v <= 0x7a {
        v - 0x61 + 26
    } else if 0x30 <= v <= 0x39 {
        v - 0x30 + 52
    } else if c == '+' {
        62
    } else if c == '/' {
        63
    } else {
        0
    }
}

fn sextet_of(c: char) -> (r: u32)
    ensures
        r == char_sextet(c),
        r < 64,
{
    let v = c as u32;
    if 0x41 <= v && v <= 0x5a {
        v - 0x41
    } else if 0x61 <= v && v <= 0x7a {
        v - 0x61 + 26
    } else if 0x30 <= v && v <= 0x39 {
        v - 0x30 + 52
    } else if c == '+' {
        62
    } else if c == '/' {
        63
    } else {
        0
    }
}

/// What four characters at a time stand for, whatever they are.
spec fn loose_bytes(text: Seq<char>) -> Seq<u8>
    decreases text.len(),
{
    if text.len() < 4 {
        seq![]
    } else {
        let n = char_sextet(text[0]) * 262144 + char_sextet(text[1]) * 4096 + char_sextet(text[2])
            * 64 + char_sextet(text[3]);
        let first = (n / 65536) as u8;
        let second = (n / 256 % 256) as u8;
        let third = (n % 256) as u8;
        let group = if text[2] == '=' {
            seq![first]
        } else if text[3] == '=' {
            seq![first, second]
        } else {
            seq![first, second, third]
        };
        group + loose_bytes(text.skip(4))
    }
}

proof fn lemma_sextet(v: int)
    requires
        0 <= v < 64,
    ensures
        char_sextet(sextet_char(v)) == v,
        sextet_char(v) != '=',
{
}

proof fn lemma_triple(a: u8, b: u8, c: u8)
    ensures
        ({
            let n = triple(a, b, c);
            &&& 0 <= n / 262144 < 64
            &&& n == n / 262144 * 262144 + n / 4096 % 64 * 4096 + n / 64 % 64 * 64 + n % 64
            &&& n / 65536 == a
            &&& n / 256 % 256 == b
            &&& n % 256 == c
            &&& c == 0 ==> n % 64 == 0
            &&& b == 0 && c == 0 ==> n / 64 % 64 == 0
        }),
{
    let n = triple(a, b, c);
    assert(n / 256 == a * 256 + b);
    assert(n / 65536 == n / 256 / 256);
    assert(n / 64 == n / 256 * 4 + n % 256 / 64);
    assert(n / 4096 == n / 64 / 64);
    assert(n / 262144 == n / 4096 / 64);
}

/// Four characters that stand for the number of three bytes are read as these bytes.
proof fn lemma_group(text: Seq<char>, a: u8, b: u8, c: u8)
    requires
        text.len() >= 4,
        char_sextet(text[0]) == triple(a, b, c) / 262144,
        char_sextet(text[1]) == triple(a, b, c) / 4096 % 64,
        char_sextet(text[2]) == triple(a, b, c) / 64 % 64,
        char_sextet(text[3]) == triple(a, b, c) % 64,
    ensures
        loose_bytes(text) == (if text[2] == '=' {
            seq![a]
        } else if text[3] == '=' {
            seq![a, b]
        } else {
            seq![a, b, c]
        }) + loose_bytes(text.skip(4)),
{
    lemma_triple(a, b, c);
}

/// Reading back what was written.
proof fn lemma_loose_bytes(bytes: Seq<u8>)
    ensures
        loose_bytes(base64_text(bytes)) == bytes,
    decreases bytes.len(),
{
    let text = base64_text(bytes);
    if bytes.len() == 0 {
        assert(loose_bytes(text) =~= bytes);
    } else {
        let b = if bytes.len() > 1 {
            bytes[1]
        } else {
            0
        };
        let c = if bytes.len() > 2 {
            bytes[2]
        } else {
            0
        };
        let n = triple(bytes[0], b, c);
        lemma_triple(bytes[0], b, c);
        lemma_sextet(n / 262144);
        lemma_sextet(n / 4096 % 64);
        lemma_sextet(n / 64 % 64);
        lemma_sextet(n % 64);
        assert(char_sextet('=') == 0);
        if bytes.len() <= 2 {
            lemma_group(text, bytes[0], b, c);
            assert(text.skip(4) =~= Seq::<char>::empty());
            assert(loose_bytes(text.skip(4)) =~= Seq::<u8>::empty());
            assert(loose_bytes(text) =~= bytes);
        } else {
            lemma_group(text, bytes[0], b, c);
            assert(text.skip(4) =~= base64_text(bytes.skip(3)));
            lemma_loose_bytes(bytes.skip(3));
            assert(loose_bytes(text) =~= bytes);
        }
    }
}

/// Reading a base64 text gives back the bytes that it was written for.
pub proof fn base64_reads_back(bytes: Seq<u8>)
    ensures
        base64_value(base64_text(bytes)) == Some(bytes),
{
    reveal(base64_value);
    base64_is_injective(bytes, base64_value(base64_text(bytes))->0);
}

/// Different bytes have different base64 texts.
pub proof fn base64_is_injective(a: Seq<u8>, b: Seq<u8>)
    requires
        base64_text(a) == base64_text(b),
    ensures
        a == b,
{
    lemma_loose_bytes(a);
    lemma_loose_bytes(b);
}

fn read_loosely(text: &[char]) -> (r: Vec<u8>)
    ensures
        r@ == loose_bytes(text@),
{
    let mut out: Vec<u8> = Vec::new();
    let mut i: usize = 0;
    proof {
        assert(text@.skip(0) =~= text@);
        assert(out@ + loose_bytes(text@) =~= loose_bytes(text@));
    }
    while text.len() - i >= 4
        invariant
            i <= text@.len(),
            out@ + loose_bytes(text@.skip(i as int)) == loose_bytes(text@),
        decreases text@.len() - i,
    {
        let n: u32 = sextet_of(text[i]) * 262144 + sextet_of(text[i + 1]) * 4096 + sextet_of(
            text[i + 2],
        ) * 64 + sextet_of(text[i + 3]);
        let ghost before = out@;
        out.push((n / 65536) as u8);
        if text[i + 2] != '=' {
            out.push((n / 256 % 256) as u8);
            if text[i + 3] != '=' {
                out.push((n % 256) as u8);
            }
        }
        proof {
            let rest = text@.skip(i as int);
            assert(rest.skip(4) =~= text@.skip(i + 4));
            assert(out@ + loose_bytes(text@.skip(i + 4)) =~= before + loose_bytes(rest));
        }
        i += 4;
    }
    proof {
        assert(loose_bytes(text@.skip(i as int)) =~= Seq::<u8>::empty());
        assert(out@ + loose_bytes(text@.skip(i as int)) =~= out@);
    }
    out
}

/// The bytes whose base64 text it is, if there are any.
#[verifier::opaque]
pub open spec fn base64_value(text: Seq<char>) -> Option<Seq<u8>> {
    if exists|bytes: Seq<u8>| base64_text(bytes) == text {
        Some(choose|bytes: Seq<u8>| base64_text(bytes) == text)
    } else {
        None
    }
}

/// The bytes that a base64 text stands for. A text that is no base64 text of any bytes is refused.
pub fn base64_decode(text: &str) -> (r: Result<Vec<u8>, String>)
    ensures
        match r {
            Ok(bytes) => base64_text(bytes@) == text@ && base64_value(text@) == Some(bytes@),
            Err(message) => message@ == "invalid base64"@ && base64_value(text@) is None,
        },
{
    proof {
        reveal(base64_value);
    }
    let chars = chars_of(text);
    let bytes = read_loosely(chars.as_slice());
    let again = base64_encode(bytes.as_slice());
    if str_eq(again.as_str(), text) {
        proof {
            base64_is_injective(bytes@, base64_value(text@)->0);
        }
        Ok(bytes)
    } else {
        proof {
            assert forall|other: Seq<u8>| base64_text(other) != text@ by {
                lemma_loose_bytes(other);
            }
        }
        Err("invalid base64".to_owned())
    }
}

} // verus!

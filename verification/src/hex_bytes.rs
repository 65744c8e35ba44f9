//! Bytes as hexadecimal text, two digits for each byte.

use vstd::prelude::*;
use vstd::utf8::*;

use crate::order;
use crate::text;
use crate::text::push_upper_hex;

verus! {

/// The lower-case hexadecimal text of bytes.
pub open spec fn hex_text(bytes: Seq<u8>) -> Seq<char> {
    Seq::new(
        2 * bytes.len(),
        |i: int|
            text::digit_char(
                if i % 2 == 0 {
                    bytes[i / 2] / 16
                } else {
                    bytes[i / 2] % 16
                } as int,
                false,
            ),
    )
}

/// The value of a hexadecimal digit in either case.
pub open spec fn digit_value(b: u8) -> Option<u8> {
    if 0x30 <= b <= 0x39 {
        Some((b - 0x30) as u8)
    } else if 0x61 <= b <= 0x66 {
        Some((b - 0x61 + 10) as u8)
    } else if 0x41 <= b <= 0x46 {
        Some((b - 0x41 + 10) as u8)
    } else {
        None
    }
}

/// All bytes are hexadecimal digits.
pub open spec fn all_digits(text: Seq<u8>) -> bool {
    forall|i: int| 0 <= i < text.len() ==> digit_value(#[trigger] text[i]) is Some
}

/// The bytes that an even number of hexadecimal digits stand for.
pub open spec fn hex_read(text: Seq<u8>) -> Option<Seq<u8>> {
    if text.len() % 2 == 0 && all_digits(text) {
        Some(
            Seq::new(
                text.len() / 2,
                |i: int|
                    (digit_value(text[2 * i])->0 * 16 + digit_value(text[2 * i + 1])->0) as u8,
            ),
        )
    } else {
        None
    }
}

/// What is said of a text that cannot be read: that its length is odd, or else its first byte that
/// is no digit.
pub open spec fn hex_error(text: Seq<u8>, message: Seq<char>) -> bool {
    if text.len() % 2 != 0 {
        message == "hex string has odd length"@
    } else {
        exists|i: int|
            {
                &&& 0 <= i < text.len()
                &&& digit_value(#[trigger] text[i]) is None
                &&& all_digits(text.take(i))
                &&& message == "invalid hex digit 0x"@ + text::upper_hex_text(text[i] as nat, 2)
            }
    }
}

/// The lower-case hexadecimal text of bytes.
pub fn to_hex(bytes: &[u8]) -> (r: String)
    ensures
        r@ == hex_text(bytes@),
{
    let mut out = String::new();
    proof {
        assert(out@ =~= hex_text(bytes@.take(0)));
    }
    for i in 0..bytes.len()
        invariant
            out@ == hex_text(bytes@.take(i as int)),
    {
        let b = bytes[i];
        let ghost before = out@;
        out.push(text::digit_of((b / 16) as u64, false));
        out.push(text::digit_of((b % 16) as u64, false));
        proof {
            let all = hex_text(bytes@.take(i + 1));
            assert forall|k: int| 0 <= k < all.len() implies out@[k] == all[k] by {
                if k < 2 * i {
                    assert(before[k] == hex_text(bytes@.take(i as int))[k]);
                }
            }
            assert(out@ =~= all);
        }
    }
    proof {
        assert(bytes@.take(bytes@.len() as int) =~= bytes@);
    }
    out
}

fn hex_digit(b: u8) -> (r: Result<u8, String>)
    ensures
        match r {
            Ok(v) => digit_value(b) == Some(v) && v < 16,
            Err(message) => digit_value(b) is None && message@ == "invalid hex digit 0x"@
                + text::upper_hex_text(b as nat, 2),
        },
{
    if 0x30 <= b && b <= 0x39 {
        Ok(b - 0x30)
    } else if 0x61 <= b && b <= 0x66 {
        Ok(b - 0x61 + 10)
    } else if 0x41 <= b && b <= 0x46 {
        Ok(b - 0x41 + 10)
    } else {
        let mut message = String::new();
        message.push_str("invalid hex digit 0x");
        push_upper_hex(&mut message, b as u64, 2);
        proof {
            assert(message@ =~= "invalid hex digit 0x"@ + text::upper_hex_text(b as nat, 2));
        }
        Err(message)
    }
}

/// The bytes of a hexadecimal text.
pub fn from_hex(s: &str) -> (r: Result<Vec<u8>, String>)
    ensures
        match r {
            Ok(bytes) => hex_read(encode_utf8(s@)) == Some(bytes@),
            Err(message) => {
                &&& hex_read(encode_utf8(s@)) is None
                &&& hex_error(encode_utf8(s@), message@)
            },
        },
{
    let digits = s.as_bytes();
    if digits.len() % 2 != 0 {
        return Err("hex string has odd length".to_owned());
    }
    let mut out: Vec<u8> = Vec::new();
    let mut i: usize = 0;
    while i < digits.len()
        invariant
            digits@ == encode_utf8(s@),
            digits@.len() % 2 == 0,
            i <= digits@.len(),
            i == 2 * out@.len(),
            all_digits(digits@.take(i as int)),
            forall|k: int|
                0 <= k < out@.len() ==> #[trigger] out@[k] == (digit_value(digits@[2 * k])->0 * 16
                    + digit_value(digits@[2 * k + 1])->0) as u8,
        decreases digits@.len() - i,
    {
        let high = match hex_digit(digits[i]) {
            Ok(v) => v,
            Err(message) => {
                return Err(message);
            },
        };
        proof {
            assert forall|k: int| 0 <= k < i + 1 implies digit_value(
                #[trigger] digits@.take(i + 1)[k],
            ) is Some by {
                if k < i {
                    assert(digits@.take(i as int)[k] == digits@[k]);
                }
            }
            assert(all_digits(digits@.take(i + 1)));
        }
        let low = match hex_digit(digits[i + 1]) {
            Ok(v) => v,
            Err(message) => {
                return Err(message);
            },
        };
        proof {
            assert forall|k: int| 0 <= k < i + 2 implies digit_value(
                #[trigger] digits@.take(i + 2)[k],
            ) is Some by {
                if k < i + 1 {
                    assert(digits@.take(i + 1)[k] == digits@[k]);
                }
            }
        }
        out.push(high * 16 + low);
        i += 2;
    }
    proof {
        assert(digits@.take(i as int) =~= digits@);
        assert(hex_read(digits@)->0 =~= out@);
    }
    Ok(out)
}

proof fn lemma_digit(v: int)
    requires
        0 <= v < 16,
    ensures
        digit_value(text::digit_char(v, false) as u8) == Some(v as u8),
        '\0' <= text::digit_char(v, false) <= '\u{7f}',
{
}

/// The UTF-8 bytes of a hexadecimal text are its characters.
proof fn lemma_hex_bytes(bytes: Seq<u8>)
    ensures
        ({
            let t = encode_utf8(hex_text(bytes));
            &&& t.len() == 2 * bytes.len()
            &&& forall|i: int|
                0 <= i < 2 * bytes.len() ==> #[trigger] t[i] == hex_text(bytes)[i] as u8
                    && digit_value(t[i]) == Some(
                    if i % 2 == 0 {
                        bytes[i / 2] / 16
                    } else {
                        bytes[i / 2] % 16
                    },
                )
        }),
{
    let h = hex_text(bytes);
    let t = encode_utf8(h);
    assert forall|i: int| 0 <= i < h.len() implies '\0' <= #[trigger] h[i] <= '\u{7f}' by {
        lemma_digit(
            if i % 2 == 0 {
                bytes[i / 2] / 16
            } else {
                bytes[i / 2] % 16
            } as int,
        );
    }
    assert(is_ascii_chars(h));
    is_ascii_chars_encode_utf8(h);
    assert forall|i: int| 0 <= i < 2 * bytes.len() implies #[trigger] t[i] == h[i] as u8
        && digit_value(t[i]) == Some(
        if i % 2 == 0 {
            bytes[i / 2] / 16
        } else {
            bytes[i / 2] % 16
        },
    ) by {
        lemma_digit(
            if i % 2 == 0 {
                bytes[i / 2] / 16
            } else {
                bytes[i / 2] % 16
            } as int,
        );
        assert(h[i] as u8 == t[i]);
    }
}

/// Reading a hexadecimal text gives back the bytes that it was written for.
pub proof fn hex_reads_back(bytes: Seq<u8>)
    ensures
        hex_read(encode_utf8(hex_text(bytes))) == Some(bytes),
{
    let t = encode_utf8(hex_text(bytes));
    lemma_hex_bytes(bytes);
    assert(all_digits(t));
    let r = hex_read(t)->0;
    assert forall|i: int| 0 <= i < bytes.len() implies r[i] == bytes[i] by {
        assert(t[2 * i] == hex_text(bytes)[2 * i] as u8);
        assert(t[2 * i + 1] == hex_text(bytes)[2 * i + 1] as u8);
        assert((2 * i) / 2 == i && (2 * i + 1) / 2 == i);
    }
    assert(r =~= bytes);
}

proof fn lemma_digit_order(v: int, w: int)
    requires
        0 <= v < 16,
        0 <= w < 16,
    ensures
        (text::digit_char(v, false) as u8) < (text::digit_char(w, false) as u8) <==> v < w,
        (text::digit_char(v, false) as u8) == (text::digit_char(w, false) as u8) <==> v == w,
{
}

/// Hexadecimal texts stand in the order of their bytes.
pub proof fn hex_keeps_order(a: Seq<u8>, b: Seq<u8>)
    ensures
        order::text_less(hex_text(a), hex_text(b)) == order::bytes_less(a, b),
    decreases a.len(),
{
    let s = encode_utf8(hex_text(a));
    let t = encode_utf8(hex_text(b));
    lemma_hex_bytes(a);
    lemma_hex_bytes(b);
    if a.len() > 0 && b.len() > 0 {
        assert(s[0] == hex_text(a)[0] as u8);
        assert(s[1] == hex_text(a)[1] as u8);
        assert(t[0] == hex_text(b)[0] as u8);
        assert(t[1] == hex_text(b)[1] as u8);
        lemma_digit_order((a[0] / 16) as int, (b[0] / 16) as int);
        lemma_digit_order((a[0] % 16) as int, (b[0] % 16) as int);
        lemma_rest(a);
        lemma_rest(b);
        assert(order::bytes_less(s, t) == if s[0] != t[0] {
            s[0] < t[0]
        } else {
            order::bytes_less(s.drop_first(), t.drop_first())
        });
        assert(s.drop_first()[0] == s[1]);
        assert(t.drop_first()[0] == t[1]);
        if a[0] == b[0] {
            hex_keeps_order(a.drop_first(), b.drop_first());
        }
    }
}

/// Without the first byte, two digits less.
proof fn lemma_rest(a: Seq<u8>)
    requires
        a.len() > 0,
    ensures
        encode_utf8(hex_text(a)).drop_first().drop_first() == encode_utf8(
            hex_text(a.drop_first()),
        ),
{
    let s = encode_utf8(hex_text(a));
    let r = encode_utf8(hex_text(a.drop_first()));
    lemma_hex_bytes(a);
    lemma_hex_bytes(a.drop_first());
    let u = s.drop_first().drop_first();
    assert forall|i: int| 0 <= i < r.len() implies u[i] == r[i] by {
        assert(u[i] == s[i + 2]);
        assert(s[i + 2] == hex_text(a)[i + 2] as u8);
        assert(r[i] == hex_text(a.drop_first())[i] as u8);
        assert((i + 2) / 2 == i / 2 + 1);
        assert(a.drop_first()[i / 2] == a[i / 2 + 1]);
    }
    assert(u =~= r);
}

} // verus!

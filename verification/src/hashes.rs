//! What ids and hashes are made of.

use vstd::prelude::*;
use vstd::utf8::*;

use crate::ledger;
use crate::readings;
use crate::text;

verus! {

/// The number that hexadecimal digits stand for.
pub open spec fn hex_number(s: Seq<char>) -> nat
    decreases s.len(),
{
    if s.len() == 0 {
        0
    } else {
        hex_number(s.drop_last()) * 16 + readings::hex_digit(s.last())->0
    }
}

proof fn lemma_digits(v: nat)
    ensures
        hex_number(text::digits_text(v, 16, false)) == v,
        text::digits_text(v, 16, false).len() > 0,
    decreases v,
{
    let s = text::digits_text(v, 16, false);
    if v < 16 {
        assert(s.drop_last().len() == 0);
        assert(hex_number(s.drop_last()) == 0);
    } else {
        lemma_digits(v / 16);
        assert(s.drop_last() =~= text::digits_text(v / 16, 16, false));
        assert((v / 16) * 16 + v % 16 == v);
    }
}

proof fn lemma_zeros(n: nat, s: Seq<char>)
    ensures
        hex_number(Seq::new(n, |i: int| '0') + s) == hex_number(s),
    decreases n + s.len(),
{
    let zeros = Seq::new(n, |i: int| '0');
    let all = zeros + s;
    if s.len() > 0 {
        lemma_zeros(n, s.drop_last());
        assert(all.drop_last() =~= zeros + s.drop_last());
    } else if n > 0 {
        lemma_zeros((n - 1) as nat, s);
        assert(all.drop_last() =~= Seq::new((n - 1) as nat, |i: int| '0') + s);
    } else {
        assert(all =~= s);
    }
}

/// The number of texts of so many hexadecimal digits.
pub open spec fn sixteens(width: nat) -> nat
    decreases width,
{
    if width == 0 {
        1
    } else {
        16 * sixteens((width - 1) as nat)
    }
}

proof fn lemma_width(v: nat, width: nat)
    requires
        v < sixteens(width),
        width > 0,
    ensures
        text::digits_text(v, 16, false).len() <= width,
    decreases width,
{
    if v >= 16 {
        if width == 1 {
            assert(sixteens(0) == 1);
        } else {
            lemma_width(v / 16, (width - 1) as nat);
        }
    }
}

/// An id is its prefix with sixteen hexadecimal digits behind a hyphen, which stand for the hash of its
/// parts.
pub proof fn ids_hold_the_hash_of_their_parts(prefix: Seq<char>, parts: Seq<Seq<char>>)
    ensures
        exists|digits: Seq<char>|
            {
                &&& ledger::stable_id_text(prefix, parts) == prefix + "-"@ + digits
                &&& digits.len() == 16
                &&& #[trigger] hex_number(digits) == ledger::fnv(
                    0xcbf2_9ce4_8422_2325,
                    ledger::parts_bytes(parts),
                )
            },
{
    let v = ledger::fnv(ledger::FNV_OFFSET, ledger::parts_bytes(parts)) as nat;
    let digits = text::lower_hex_text(v, 16);
    let short = text::digits_text(v, 16, false);
    lemma_digits(v);
    assert(sixteens(16) == 0x1_0000_0000_0000_0000) by {
        reveal_with_fuel(sixteens, 17);
    }
    lemma_width(v, 16);
    lemma_zeros((16 - short.len()) as nat, short);
    assert(Seq::new(0, |i: int| '0') + short =~= short);
    assert(hex_number(digits) == v);
}

/// A hash takes in every byte, one after the other, by the 64-bit FNV-1a step.
pub proof fn hashes_take_in_every_byte(hash: u64, bytes: Seq<u8>, byte: u8)
    ensures
        ledger::fnv(hash, seq![]) == hash,
        ledger::fnv(hash, bytes.push(byte)) as int == ((ledger::fnv(hash, bytes) ^ (byte as u64))
            * 0x100_0000_01b3) % 0x1_0000_0000_0000_0000,
{
    assert(bytes.push(byte).drop_last() =~= bytes);
}

/// The parts of an id are kept apart by zero bytes.
pub proof fn parts_are_kept_apart(parts: Seq<Seq<char>>, part: Seq<char>)
    ensures
        ledger::parts_bytes(seq![]) == Seq::<u8>::empty(),
        ledger::parts_bytes(seq![part]) == encode_utf8(part),
        parts.len() > 0 ==> ledger::parts_bytes(parts.push(part)) == ledger::parts_bytes(parts)
            + seq![0u8] + encode_utf8(part),
{
    if parts.len() > 0 {
        assert(parts.push(part).drop_last() =~= parts);
        assert(ledger::parts_bytes(parts).push(0) =~= ledger::parts_bytes(parts) + seq![0u8]);
    }
}

} // verus!

//! Scanning of texts: searching, splitting, trimming and reading numbers.

use vstd::prelude::*;

use crate::text;
use crate::text::{chars_of, string_of};

verus! {

/// The pattern stands at a place of the text.
pub open spec fn stands_at(s: Seq<char>, pattern: Seq<char>, i: int) -> bool {
    0 <= i && i + pattern.len() <= s.len() && s.subrange(i, i + pattern.len()) == pattern
}

/// The first place, from one on, where the pattern stands.
pub open spec fn find_from(s: Seq<char>, pattern: Seq<char>, from: int) -> Option<int>
    decreases s.len() - from + 1,
{
    if from + pattern.len() > s.len() {
        None
    } else if stands_at(s, pattern, from) {
        Some(from)
    } else {
        find_from(s, pattern, from + 1)
    }
}

/// The parts of a text between the places where the separator stands.
pub open spec fn split(s: Seq<char>, separator: Seq<char>) -> Seq<Seq<char>>
    decreases s.len(),
{
    match find_from(s, separator, 0) {
        Some(i) if separator.len() > 0 && 0 <= i && i + separator.len() <= s.len() => seq![
            s.take(i),
        ] + split(s.skip(i + separator.len()), separator),
        _ => seq![s],
    }
}

/// The text before and the text behind the first place where the separator stands.
pub open spec fn split_once(s: Seq<char>, separator: Seq<char>) -> Option<(Seq<char>, Seq<char>)> {
    match find_from(s, separator, 0) {
        Some(i) => Some((s.take(i), s.skip(i + separator.len()))),
        None => None,
    }
}

fn is_at(s: &[char], pattern: &[char], i: usize) -> (r: bool)
    requires
        i + pattern@.len() <= s@.len(),
    ensures
        r == stands_at(s@, pattern@, i as int),
{
    let n = s.len();
    let mut k: usize = 0;
    while k < pattern.len()
        invariant
            n == s@.len(),
            k <= pattern@.len(),
            i + pattern@.len() <= s@.len(),
            forall|j: int| 0 <= j < k ==> s@[i + j] == pattern@[j],
        decreases pattern@.len() - k,
    {
        if s[i + k] != pattern[k] {
            proof {
                assert(s@.subrange(i as int, i + pattern@.len())[k as int] != pattern@[k as int]);
            }
            return false;
        }
        k += 1;
    }
    proof {
        assert(s@.subrange(i as int, i + pattern@.len()) =~= pattern@);
    }
    true
}

fn find(s: &[char], pattern: &[char], from: usize) -> (r: Option<usize>)
    requires
        from <= s@.len(),
    ensures
        match r {
            Some(i) => {
                &&& find_from(s@, pattern@, from as int) == Some(i as int)
                &&& from <= i
                &&& i + pattern@.len() <= s@.len()
            },
            None => find_from(s@, pattern@, from as int) is None,
        },
{
    let n = s.len();
    let mut i: usize = from;
    while pattern.len() <= n - i
        invariant
            n == s@.len(),
            from <= i <= s@.len(),
            find_from(s@, pattern@, from as int) == find_from(s@, pattern@, i as int),
        decreases s@.len() - i,
    {
        if is_at(s, pattern, i) {
            return Some(i);
        }
        if i == n {
            proof {
                assert(find_from(s@, pattern@, i + 1) is None);
            }
            return None;
        }
        i += 1;
    }
    None
}

fn part(s: &[char], from: usize, to: usize) -> (r: String)
    requires
        from <= to <= s@.len(),
    ensures
        r@ == s@.subrange(from as int, to as int),
{
    string_of(vstd::slice::slice_subrange(s, from, to))
}

/// Where a text is split, the search of the rest is the search of the text from there on.
proof fn lemma_find_shift(s: Seq<char>, pattern: Seq<char>, start: int, from: int)
    requires
        0 <= start <= s.len(),
        0 <= from <= s.len() - start,
    ensures
        match find_from(s, pattern, start + from) {
            Some(i) => find_from(s.skip(start), pattern, from) == Some(i - start),
            None => find_from(s.skip(start), pattern, from) is None,
        },
    decreases s.len() - start - from,
{
    let rest = s.skip(start);
    if from + pattern.len() <= rest.len() {
        assert(rest.subrange(from, from + pattern.len()) =~= s.subrange(
            start + from,
            start + from + pattern.len(),
        ));
        if !stands_at(rest, pattern, from) && from < rest.len() {
            lemma_find_shift(s, pattern, start, from + 1);
        }
    }
}

/// The parts of a text between the places where the separator stands.
pub fn split_text(s: &str, separator: &str) -> (r: Vec<String>)
    requires
        separator@.len() > 0,
    ensures
        r.deep_view() == split(s@, separator@),
        r@.len() > 0,
{
    broadcast use {text::lemma_models_push, text::lemma_vec_model};

    let chars = chars_of(s);
    let pattern = chars_of(separator);
    let n = chars.len();
    let mut out: Vec<String> = Vec::new();
    let mut start: usize = 0;
    proof {
        assert(s@.skip(0) =~= s@);
        assert(text::models(out@) =~= Seq::<Seq<char>>::empty());
        assert(text::models(out@) + split(s@, separator@) =~= split(s@, separator@));
    }
    loop
        invariant
            n == s@.len(),
            chars@ == s@,
            pattern@ == separator@,
            separator@.len() > 0,
            start <= s@.len(),
            text::models(out@) + split(s@.skip(start as int), separator@) == split(s@, separator@),
        decreases s@.len() - start,
    {
        let ghost rest = s@.skip(start as int);
        let ghost done = text::models(out@);
        proof {
            lemma_find_shift(s@, separator@, start as int, 0);
        }
        match find(chars.as_slice(), pattern.as_slice(), start) {
            Some(i) => {
                out.push(part(chars.as_slice(), start, i));
                proof {
                    let head = s@.subrange(start as int, i as int);
                    let next = i + pattern@.len();
                    assert(rest.take(i - start) =~= head);
                    assert(rest.skip(next - start) =~= s@.skip(next));
                    assert(text::models(out@) =~= done.push(head));
                    assert(done + (seq![head] + split(s@.skip(next), separator@)) =~= done.push(
                        head,
                    ) + split(s@.skip(next), separator@));
                }
                start = i + pattern.len();
            },
            None => {
                out.push(part(chars.as_slice(), start, n));
                proof {
                    assert(s@.subrange(start as int, s@.len() as int) =~= rest);
                    assert(done + seq![rest] =~= done.push(rest));
                }
                return out;
            },
        }
    }
}

/// The text before and the text behind the first place where the separator stands.
pub fn split_text_once(s: &str, separator: &str) -> (r: Option<(String, String)>)
    ensures
        match r {
            Some(parts) => split_once(s@, separator@) == Some((parts.0@, parts.1@)),
            None => split_once(s@, separator@) is None,
        },
{
    let chars = chars_of(s);
    let pattern = chars_of(separator);
    match find(chars.as_slice(), pattern.as_slice(), 0) {
        Some(i) => {
            let n = chars.len();
            let head = part(chars.as_slice(), 0, i);
            let tail = part(chars.as_slice(), i + pattern.len(), n);
            proof {
                assert(head@ =~= s@.take(i as int));
                assert(tail@ =~= s@.skip(i + pattern@.len()));
            }
            Some((head, tail))
        },
        None => None,
    }
}

/// Whether a text begins with another.
pub open spec fn begins_with(s: Seq<char>, prefix: Seq<char>) -> bool {
    stands_at(s, prefix, 0)
}

/// Whether a text ends with another.
pub open spec fn ends_with(s: Seq<char>, suffix: Seq<char>) -> bool {
    stands_at(s, suffix, s.len() - suffix.len())
}

/// Whether a text begins with another.
pub fn has_prefix(s: &str, prefix: &str) -> (r: bool)
    ensures
        r == begins_with(s@, prefix@),
{
    let chars = chars_of(s);
    let pattern = chars_of(prefix);
    pattern.len() <= chars.len() && is_at(chars.as_slice(), pattern.as_slice(), 0)
}

/// Whether a text ends with another.
pub fn has_suffix(s: &str, suffix: &str) -> (r: bool)
    ensures
        r == ends_with(s@, suffix@),
{
    let chars = chars_of(s);
    let pattern = chars_of(suffix);
    pattern.len() <= chars.len() && is_at(
        chars.as_slice(),
        pattern.as_slice(),
        chars.len() - pattern.len(),
    )
}

/// The text between a prefix of some length and a suffix of some length.
pub fn middle(s: &str, before: usize, after: usize) -> (r: String)
    requires
        before + after <= s@.len(),
    ensures
        r@ == s@.subrange(before as int, s@.len() - after),
{
    let chars = chars_of(s);
    part(chars.as_slice(), before, chars.len() - after)
}

/// A text without the white space that it begins with.
pub open spec fn trim_start(s: Seq<char>) -> Seq<char>
    decreases s.len(),
{
    if s.len() > 0 && text::white_space(s[0]) {
        trim_start(s.drop_first())
    } else {
        s
    }
}

/// A text without the white space that it ends with.
pub open spec fn trim_end(s: Seq<char>) -> Seq<char>
    decreases s.len(),
{
    if s.len() > 0 && text::white_space(s.last()) {
        trim_end(s.drop_last())
    } else {
        s
    }
}

/// A text without the white space around it.
pub open spec fn trimmed(s: Seq<char>) -> Seq<char> {
    trim_end(trim_start(s))
}

/// A text without the white space around it.
pub fn trim(s: &str) -> (r: String)
    ensures
        r@ == trimmed(s@),
{
    let chars = chars_of(s);
    let mut from: usize = 0;
    proof {
        assert(s@.skip(0) =~= s@);
    }
    while from < chars.len() && chars[from].is_whitespace()
        invariant
            chars@ == s@,
            from <= s@.len(),
            trim_start(s@.skip(from as int)) == trim_start(s@),
        decreases s@.len() - from,
    {
        proof {
            assert(s@.skip(from as int).drop_first() =~= s@.skip(from + 1));
        }
        from += 1;
    }
    let ghost rest = trim_start(s@);
    proof {
        assert(rest == s@.skip(from as int));
        assert(s@.subrange(from as int, s@.len() as int) =~= rest);
    }
    let mut to: usize = chars.len();
    while to > from && chars[to - 1].is_whitespace()
        invariant
            chars@ == s@,
            from <= to <= s@.len(),
            trim_end(s@.subrange(from as int, to as int)) == trim_end(rest),
        decreases to,
    {
        proof {
            let here = s@.subrange(from as int, to as int);
            assert(here.last() == s@[to - 1]);
            assert(here.drop_last() =~= s@.subrange(from as int, to - 1));
        }
        to -= 1;
    }
    proof {
        if to > from {
            assert(s@.subrange(from as int, to as int).last() == s@[to - 1]);
        }
    }
    part(chars.as_slice(), from, to)
}

/// A text without the characters of one kind that it ends with.
pub open spec fn trim_end_of(s: Seq<char>, c: char) -> Seq<char>
    decreases s.len(),
{
    if s.len() > 0 && s.last() == c {
        trim_end_of(s.drop_last(), c)
    } else {
        s
    }
}

/// A text without the characters of one kind that it begins with.
pub open spec fn trim_start_of(s: Seq<char>, c: char) -> Seq<char>
    decreases s.len(),
{
    if s.len() > 0 && s[0] == c {
        trim_start_of(s.drop_first(), c)
    } else {
        s
    }
}

/// A text without the characters of one kind that it ends with.
pub fn trim_end_matches(s: &str, c: char) -> (r: String)
    ensures
        r@ == trim_end_of(s@, c),
{
    let chars = chars_of(s);
    let mut to: usize = chars.len();
    proof {
        assert(s@.subrange(0, s@.len() as int) =~= s@);
    }
    while to > 0 && chars[to - 1] == c
        invariant
            chars@ == s@,
            to <= s@.len(),
            trim_end_of(s@.subrange(0, to as int), c) == trim_end_of(s@, c),
        decreases to,
    {
        proof {
            let here = s@.subrange(0, to as int);
            assert(here.last() == s@[to - 1]);
            assert(here.drop_last() =~= s@.subrange(0, to - 1));
        }
        to -= 1;
    }
    proof {
        if to > 0 {
            assert(s@.subrange(0, to as int).last() == s@[to - 1]);
        }
    }
    part(chars.as_slice(), 0, to)
}

/// A text without the characters of one kind that it begins with.
pub fn trim_start_matches(s: &str, c: char) -> (r: String)
    ensures
        r@ == trim_start_of(s@, c),
{
    let chars = chars_of(s);
    let mut from: usize = 0;
    proof {
        assert(s@.skip(0) =~= s@);
    }
    while from < chars.len() && chars[from] == c
        invariant
            chars@ == s@,
            from <= s@.len(),
            trim_start_of(s@.skip(from as int), c) == trim_start_of(s@, c),
        decreases s@.len() - from,
    {
        proof {
            assert(s@.skip(from as int).drop_first() =~= s@.skip(from + 1));
        }
        from += 1;
    }
    proof {
        assert(s@.subrange(from as int, s@.len() as int) =~= s@.skip(from as int));
    }
    part(chars.as_slice(), from, chars.len())
}

/// The number of characters before the first white space.
pub open spec fn word_len(s: Seq<char>) -> int
    decreases s.len(),
{
    if s.len() > 0 && !text::white_space(s[0]) {
        1 + word_len(s.drop_first())
    } else {
        0
    }
}

/// The first word of a text, with what follows it.
pub open spec fn first_word(s: Seq<char>) -> Option<(Seq<char>, Seq<char>)> {
    let rest = trim_start(s);
    if rest.len() == 0 {
        None
    } else {
        Some((rest.take(word_len(rest)), rest.skip(word_len(rest))))
    }
}

proof fn lemma_word_len(s: Seq<char>)
    ensures
        0 <= word_len(s) <= s.len(),
    decreases s.len(),
{
    if s.len() > 0 && !text::white_space(s[0]) {
        lemma_word_len(s.drop_first());
    }
}

/// The first word of a text, with what follows it.
pub fn take_word(s: &str) -> (r: Option<(String, String)>)
    ensures
        match r {
            Some(parts) => first_word(s@) == Some((parts.0@, parts.1@)),
            None => first_word(s@) is None,
        },
{
    let chars = chars_of(s);
    let mut from: usize = 0;
    proof {
        assert(s@.skip(0) =~= s@);
    }
    while from < chars.len() && chars[from].is_whitespace()
        invariant
            chars@ == s@,
            from <= s@.len(),
            trim_start(s@.skip(from as int)) == trim_start(s@),
        decreases s@.len() - from,
    {
        proof {
            assert(s@.skip(from as int).drop_first() =~= s@.skip(from + 1));
        }
        from += 1;
    }
    let ghost rest = trim_start(s@);
    proof {
        assert(rest == s@.skip(from as int));
    }
    if from == chars.len() {
        return None;
    }
    let mut to: usize = from;
    while to < chars.len() && !chars[to].is_whitespace()
        invariant
            chars@ == s@,
            from <= to <= s@.len(),
            rest == s@.skip(from as int),
            word_len(rest) == to - from + word_len(s@.skip(to as int)),
        decreases s@.len() - to,
    {
        proof {
            assert(s@.skip(to as int)[0] == s@[to as int]);
            assert(s@.skip(to as int).drop_first() =~= s@.skip(to + 1));
        }
        to += 1;
    }
    proof {
        if to < s@.len() {
            assert(s@.skip(to as int)[0] == s@[to as int]);
        }
        assert(word_len(s@.skip(to as int)) == 0);
        assert(s@.subrange(from as int, to as int) =~= rest.take(to - from));
        assert(s@.subrange(to as int, s@.len() as int) =~= rest.skip(to - from));
    }
    Some((part(chars.as_slice(), from, to), part(chars.as_slice(), to, chars.len())))
}

/// An ASCII letter in lower case; every other character as it is.
pub open spec fn lower_ascii(c: char) -> char {
    if 'A' <= c <= 'Z' {
        (c as u32 + 32) as char
    } else {
        c
    }
}

/// Two texts are the same but for the case of ASCII letters.
pub open spec fn same_ignoring_case(a: Seq<char>, b: Seq<char>) -> bool {
    a.len() == b.len() && forall|i: int|
        0 <= i < a.len() ==> lower_ascii(#[trigger] a[i]) == lower_ascii(b[i])
}

fn lower(c: char) -> (r: char)
    ensures
        r == lower_ascii(c),
{
    if 'A' <= c && c <= 'Z' {
        (c as u8 + 32) as char
    } else {
        c
    }
}

/// Whether two texts are the same but for the case of ASCII letters.
pub fn eq_ignore_case(a: &str, b: &str) -> (r: bool)
    ensures
        r == same_ignoring_case(a@, b@),
{
    let x = chars_of(a);
    let y = chars_of(b);
    if x.len() != y.len() {
        return false;
    }
    for i in 0..x.len()
        invariant
            x@ == a@,
            y@ == b@,
            x@.len() == y@.len(),
            forall|k: int| 0 <= k < i ==> lower_ascii(#[trigger] a@[k]) == lower_ascii(b@[k]),
    {
        if lower(x[i]) != lower(y[i]) {
            proof {
                assert(lower_ascii(a@[i as int]) != lower_ascii(b@[i as int]));
            }
            return false;
        }
    }
    true
}

/// Why a text is no number.
#[derive(Clone, Copy, Debug, PartialEq, Eq, Structural)]
pub enum NumberError {
    Empty,
    InvalidDigit,
    TooLarge,
}

/// The digits of a number, without the plus sign that may stand before them.
pub open spec fn unsigned_digits(s: Seq<char>) -> Seq<char> {
    if s.len() > 1 && s[0] == '+' {
        s.drop_first()
    } else {
        s
    }
}

/// The number, up to a limit, that a text stands for: decimal digits, with a plus sign before them
/// or not.
pub open spec fn number_in(s: Seq<char>, limit: nat) -> Result<nat, NumberError> {
    let digits = unsigned_digits(s);
    if s.len() == 0 {
        Err(NumberError::Empty)
    } else {
        number_from(digits, limit)
    }
}

/// The number, up to a limit, that digits stand for; they are read from the left, and the first
/// thing that is wrong is reported.
pub open spec fn number_from(digits: Seq<char>, limit: nat) -> Result<nat, NumberError>
    decreases digits.len(),
{
    if digits.len() == 0 {
        Ok(0)
    } else {
        let c = digits.last();
        match number_from(digits.drop_last(), limit) {
            Err(error) => Err(error),
            Ok(value) => if !('0' <= c <= '9') {
                Err(NumberError::InvalidDigit)
            } else if value * 10 + (c as u32 - 0x30) > limit {
                Err(NumberError::TooLarge)
            } else {
                Ok((value * 10 + (c as u32 - 0x30)) as nat)
            },
        }
    }
}

proof fn lemma_number_refused(digits: Seq<char>, limit: nat, n: int)
    requires
        0 <= n <= digits.len(),
        number_from(digits.take(n), limit) is Err,
    ensures
        number_from(digits, limit) == number_from(digits.take(n), limit),
    decreases digits.len() - n,
{
    if n == digits.len() {
        assert(digits.take(n) =~= digits);
    } else {
        assert(digits.take(n + 1).drop_last() =~= digits.take(n));
        lemma_number_refused(digits, limit, n + 1);
    }
}

/// Reads a number up to a limit.
pub fn parse_number(s: &str, limit: u64) -> (r: Result<u64, NumberError>)
    ensures
        match number_in(s@, limit as nat) {
            Ok(value) => r is Ok && r->Ok_0 == value,
            Err(error) => r is Err && r->Err_0 == error,
        },
{
    let chars = chars_of(s);
    if chars.len() == 0 {
        return Err(NumberError::Empty);
    }
    let first: usize = if chars.len() > 1 && chars[0] == '+' {
        1
    } else {
        0
    };
    let ghost digits = unsigned_digits(s@);
    proof {
        assert(digits =~= s@.skip(first as int));
        assert(digits.take(0) =~= Seq::<char>::empty());
    }
    let mut value: u64 = 0;
    let mut i: usize = first;
    while i < chars.len()
        invariant
            chars@ == s@,
            s@.len() > 0,
            first <= i <= s@.len(),
            first <= 1,
            digits == unsigned_digits(s@),
            digits == s@.skip(first as int),
            number_from(digits.take(i - first), limit as nat) == Ok::<nat, NumberError>(
                value as nat,
            ),
            value <= limit,
        decreases s@.len() - i,
    {
        let c = chars[i];
        proof {
            let n = i - first;
            assert(digits.take(n + 1).drop_last() =~= digits.take(n));
            assert(digits.take(n + 1).last() == c);
        }
        if c < '0' || '9' < c {
            proof {
                lemma_number_refused(digits, limit as nat, i - first + 1);
            }
            return Err(NumberError::InvalidDigit);
        }
        let d: u64 = (c as u32 - 0x30) as u64;
        if value > limit / 10 || d > limit || value * 10 > limit - d {
            proof {
                assert(value * 10 + d > limit);
                lemma_number_refused(digits, limit as nat, i - first + 1);
            }
            return Err(NumberError::TooLarge);
        }
        value = value * 10 + d;
        i += 1;
    }
    proof {
        assert(digits.take(i - first) =~= digits);
    }
    Ok(value)
}

/// What is said of a text that is no number.
pub open spec fn number_error_text(error: NumberError) -> Seq<char> {
    match error {
        NumberError::Empty => "cannot parse integer from empty string"@,
        NumberError::InvalidDigit => "invalid digit found in string"@,
        NumberError::TooLarge => "number too large to fit in target type"@,
    }
}

impl NumberError {
    /// What is said of a text that is no number.
    pub fn message(self) -> (r: String)
        ensures
            r@ == number_error_text(self),
    {
        match self {
            NumberError::Empty => "cannot parse integer from empty string".to_owned(),
            NumberError::InvalidDigit => "invalid digit found in string".to_owned(),
            NumberError::TooLarge => "number too large to fit in target type".to_owned(),
        }
    }
}

} // verus!

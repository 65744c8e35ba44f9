//! What taking texts apart gives, told by the texts.

use vstd::prelude::*;

use crate::cli;
use crate::cli::ArgsModel;
use crate::hex_bytes;
use crate::http;
use crate::readings;
use crate::scan;
use crate::server;
use crate::text;
use crate::urls;

verus! {

/// The pattern stands somewhere in the text.
pub open spec fn occurs(s: Seq<char>, pattern: Seq<char>) -> bool {
    exists|k: int|
        0 <= k && k + pattern.len() <= s.len() && #[trigger] s.subrange(k, k + pattern.len())
            == pattern
}

proof fn lemma_find(s: Seq<char>, pattern: Seq<char>, from: int)
    requires
        0 <= from,
    ensures
        match scan::find_from(s, pattern, from) {
            Some(i) => {
                &&& from <= i
                &&& i + pattern.len() <= s.len()
                &&& s.subrange(i, i + pattern.len()) == pattern
                &&& forall|k: int|
                    from <= k < i ==> #[trigger] s.subrange(k, k + pattern.len()) != pattern
            },
            None => forall|k: int|
                from <= k && k + pattern.len() <= s.len() ==> #[trigger] s.subrange(
                    k,
                    k + pattern.len(),
                ) != pattern,
        },
    decreases s.len() - from + 1,
{
    if from + pattern.len() <= s.len() && !scan::stands_at(s, pattern, from) {
        lemma_find(s, pattern, from + 1);
    }
}

/// A text is parted at the first place where the separator stands, if there is one: what is before it,
/// the separator and what is behind it make up the text.
pub proof fn texts_are_parted_at_the_first_separator(s: Seq<char>, separator: Seq<char>)
    ensures
        scan::split_once(s, separator) is Some <==> occurs(s, separator),
        scan::split_once(s, separator) matches Some((before, behind)) ==> {
            &&& s == before + separator + behind
            &&& forall|k: int|
                0 <= k < before.len() ==> #[trigger] s.subrange(k, k + separator.len())
                    != separator
        },
{
    lemma_find(s, separator, 0);
    if let Some(i) = scan::find_from(s, separator, 0) {
        assert(s.subrange(i, i + separator.len()) == separator);
        assert(s =~= s.take(i) + separator + s.skip(i + separator.len()));
    }
}

proof fn lemma_joined_front(parts: Seq<Seq<char>>, separator: Seq<char>)
    requires
        parts.len() >= 2,
    ensures
        text::joined(parts, separator) == parts[0] + separator + text::joined(
            parts.skip(1),
            separator,
        ),
    decreases parts.len(),
{
    let front = parts.drop_last();
    let others = parts.skip(1);
    if parts.len() == 2 {
        assert(text::joined(front, separator) == parts[0]);
        assert(text::joined(others, separator) == parts[1]);
        assert(text::joined(parts, separator) =~= parts[0] + separator + text::joined(
            others,
            separator,
        ));
    } else {
        lemma_joined_front(front, separator);
        assert(front.skip(1) =~= others.drop_last());
        assert(others.last() == parts.last());
        assert(front[0] == parts[0]);
        assert(text::joined(others, separator) == text::joined(others.drop_last(), separator)
            + separator + others.last());
        assert(text::joined(parts, separator) =~= parts[0] + separator + text::joined(
            others,
            separator,
        ));
    }
}

/// The parts of a text, joined by the separator, are the text, and in none of them the separator
/// stands.
pub proof fn parts_make_up_the_text(s: Seq<char>, separator: Seq<char>)
    requires
        separator.len() > 0,
    ensures
        scan::split(s, separator).len() > 0,
        text::joined(scan::split(s, separator), separator) == s,
        forall|i: int|
            0 <= i < scan::split(s, separator).len() ==> !occurs(
                #[trigger] scan::split(s, separator)[i],
                separator,
            ),
    decreases s.len(),
{
    let n = separator.len() as int;
    let parts = scan::split(s, separator);
    lemma_find(s, separator, 0);
    match scan::find_from(s, separator, 0) {
        Some(i) => {
            let rest = s.skip(i + n);
            let others = scan::split(rest, separator);
            parts_make_up_the_text(rest, separator);
            assert(parts =~= seq![s.take(i)] + others);
            assert(parts.skip(1) =~= others);
            lemma_joined_front(parts, separator);
            assert(s.subrange(i, i + n) == separator);
            assert(s =~= s.take(i) + separator + rest);
            assert forall|k: int| 0 <= k < parts.len() implies !occurs(
                #[trigger] parts[k],
                separator,
            ) by {
                if k == 0 {
                    if occurs(parts[0], separator) {
                        let j = choose|j: int|
                            0 <= j && j + n <= parts[0].len() && #[trigger] parts[0].subrange(
                                j,
                                j + n,
                            ) == separator;
                        assert(parts[0].subrange(j, j + n) =~= s.subrange(j, j + n));
                    }
                } else {
                    assert(parts[k] == others[k - 1]);
                }
            }
        },
        None => {
            assert(parts =~= seq![s]);
        },
    }
}

/// All characters are white space.
pub open spec fn all_space(s: Seq<char>) -> bool {
    forall|i: int| 0 <= i < s.len() ==> text::white_space(#[trigger] s[i])
}

proof fn lemma_trim_start(s: Seq<char>)
    ensures
        exists|before: Seq<char>| #[trigger] all_space(before) && s == before + scan::trim_start(s),
        scan::trim_start(s).len() > 0 ==> !text::white_space(scan::trim_start(s)[0]),
    decreases s.len(),
{
    if s.len() > 0 && text::white_space(s[0]) {
        let rest = s.drop_first();
        lemma_trim_start(rest);
        let before = choose|before: Seq<char>| #[trigger]
            all_space(before) && rest == before + scan::trim_start(rest);
        let more = seq![s[0]] + before;
        assert forall|i: int| 0 <= i < more.len() implies text::white_space(#[trigger] more[i]) by {
            if i > 0 {
                assert(more[i] == before[i - 1]);
            }
        }
        assert(all_space(more));
        let t = scan::trim_start(rest);
        assert(s =~= seq![s[0]] + rest);
        assert(more + t =~= seq![s[0]] + (before + t));
    } else {
        let none: Seq<char> = seq![];
        assert(all_space(none));
        assert(s =~= none + s);
    }
}

proof fn lemma_trim_end(s: Seq<char>)
    ensures
        exists|behind: Seq<char>| #[trigger] all_space(behind) && s == scan::trim_end(s) + behind,
        scan::trim_end(s).len() > 0 ==> !text::white_space(scan::trim_end(s).last()),
    decreases s.len(),
{
    if s.len() > 0 && text::white_space(s.last()) {
        let front = s.drop_last();
        lemma_trim_end(front);
        let behind = choose|behind: Seq<char>| #[trigger]
            all_space(behind) && front == scan::trim_end(front) + behind;
        let more = behind.push(s.last());
        assert forall|i: int| 0 <= i < more.len() implies text::white_space(#[trigger] more[i]) by {
            if i < behind.len() {
                assert(more[i] == behind[i]);
            }
        }
        assert(all_space(more));
        let t = scan::trim_end(front);
        assert(s =~= front.push(s.last()));
        assert(t + more =~= (t + behind).push(s.last()));
    } else {
        let none: Seq<char> = seq![];
        assert(all_space(none));
        assert(s =~= s + none);
    }
}

/// A text is trimmed if it is all that is left of the text without white space at both ends.
pub open spec fn trims(s: Seq<char>, before: Seq<char>, t: Seq<char>, behind: Seq<char>) -> bool {
    &&& s == before + t + behind
    &&& all_space(before)
    &&& all_space(behind)
    &&& t.len() > 0 ==> !text::white_space(t[0]) && !text::white_space(t.last())
}

/// Trimming takes away the white space at both ends, and nothing else.
pub proof fn trimming_takes_space_away(s: Seq<char>)
    ensures
        exists|before: Seq<char>, behind: Seq<char>| #[trigger]
            trims(s, before, scan::trimmed(s), behind),
{
    let rest = scan::trim_start(s);
    let t = scan::trimmed(s);
    lemma_trim_start(s);
    lemma_trim_end(rest);
    let before = choose|before: Seq<char>| #[trigger] all_space(before) && s == before + rest;
    let behind = choose|behind: Seq<char>| #[trigger] all_space(behind) && rest == t + behind;
    assert(s =~= before + t + behind);
    if t.len() > 0 {
        assert(rest[0] == t[0]);
    }
    assert(trims(s, before, t, behind));
}

/// A word that stands in a text behind white space, with what follows it.
pub open spec fn word_of(
    s: Seq<char>,
    before: Seq<char>,
    word: Seq<char>,
    rest: Seq<char>,
) -> bool {
    &&& s == before + word + rest
    &&& all_space(before)
    &&& word.len() > 0
    &&& forall|i: int| 0 <= i < word.len() ==> !text::white_space(#[trigger] word[i])
    &&& rest.len() > 0 ==> text::white_space(rest[0])
}

proof fn lemma_word(s: Seq<char>)
    ensures
        0 <= scan::word_len(s) <= s.len(),
        forall|i: int| 0 <= i < scan::word_len(s) ==> !text::white_space(#[trigger] s[i]),
        scan::word_len(s) < s.len() ==> text::white_space(s[scan::word_len(s)]),
    decreases s.len(),
{
    if s.len() > 0 && !text::white_space(s[0]) {
        let rest = s.drop_first();
        lemma_word(rest);
        assert forall|i: int| 0 <= i < scan::word_len(s) implies !text::white_space(
            #[trigger] s[i],
        ) by {
            if i > 0 {
                assert(s[i] == rest[i - 1]);
            }
        }
    }
}

/// The first word of a text goes from the first character that is no white space up to the next white
/// space; a text of white space has none.
pub proof fn words_end_at_space(s: Seq<char>)
    ensures
        scan::first_word(s) is None <==> all_space(s),
        scan::first_word(s) is Some ==> exists|before: Seq<char>| #[trigger]
            word_of(s, before, (scan::first_word(s)->0).0, (scan::first_word(s)->0).1),
{
    let rest = scan::trim_start(s);
    lemma_trim_start(s);
    lemma_word(rest);
    let before = choose|before: Seq<char>| #[trigger] all_space(before) && s == before + rest;
    if rest.len() == 0 {
        assert(s =~= before);
    } else {
        let n = scan::word_len(rest);
        assert(s[before.len() as int] == rest[0]);
        assert(s =~= before + rest.take(n) + rest.skip(n));
        assert(word_of(s, before, rest.take(n), rest.skip(n)));
        let found = scan::first_word(s)->0;
        assert(found.0 == rest.take(n) && found.1 == rest.skip(n));
        assert(word_of(s, before, found.0, found.1));
    }
}

/// All characters are decimal digits.
pub open spec fn all_digits(s: Seq<char>) -> bool {
    forall|i: int| 0 <= i < s.len() ==> '0' <= #[trigger] s[i] <= '9'
}

proof fn lemma_number_last(s: Seq<char>, before: nat)
    requires
        s.len() > 0,
        all_digits(s),
    ensures
        readings::number(s, before).0 == readings::number(s.drop_last(), before).0 * 10 + (
        s.last() as u32 - 0x30),
    decreases s.len(),
{
    let rest = s.skip(1);
    assert('0' <= s[0] <= '9');
    if s.len() == 1 {
        let now = before * 10 + readings::digit(s[0])->0;
        assert(readings::number(rest, now) == (now, rest));
        assert(readings::number(s.drop_last(), before) == (before, s.drop_last()));
    } else {
        assert forall|i: int| 0 <= i < rest.len() implies '0' <= #[trigger] rest[i] <= '9' by {
            assert(rest[i] == s[i + 1]);
        }
        lemma_number_last(rest, before * 10 + readings::digit(s[0])->0);
        assert(s.drop_last().skip(1) =~= rest.drop_last());
        assert(s.drop_last()[0] == s[0]);
        assert(rest.last() == s.last());
        let now = before * 10 + readings::digit(s[0])->0;
        assert(readings::number(s.drop_last(), before) == readings::number(rest.drop_last(), now));
    }
}

proof fn lemma_number_from(digits: Seq<char>, limit: nat)
    ensures
        scan::number_from(digits, limit) is Ok <==> all_digits(digits) && readings::number(
            digits,
            0,
        ).0 <= limit,
        scan::number_from(digits, limit) matches Ok(n) ==> n == readings::number(digits, 0).0,
        all_digits(digits) && readings::number(digits, 0).0 > limit ==> scan::number_from(
            digits,
            limit,
        ) == Err::<nat, scan::NumberError>(scan::NumberError::TooLarge),
    decreases digits.len(),
{
    if digits.len() > 0 {
        let front = digits.drop_last();
        let last = digits.len() - 1;
        lemma_number_from(front, limit);
        assert(all_digits(digits) <==> all_digits(front) && '0' <= digits.last() <= '9') by {
            if all_digits(digits) {
                assert('0' <= digits[last] <= '9');
                assert forall|i: int| 0 <= i < front.len() implies '0' <= #[trigger] front[i]
                    <= '9' by {
                    assert(front[i] == digits[i]);
                }
            }
            if all_digits(front) && '0' <= digits.last() <= '9' {
                assert forall|i: int| 0 <= i < digits.len() implies '0' <= #[trigger] digits[i]
                    <= '9' by {
                    if i < last {
                        assert(front[i] == digits[i]);
                    }
                }
            }
        }
        if all_digits(digits) {
            lemma_number_last(digits, 0);
        }
    }
}

/// A text stands for a number if it is made of decimal digits, with a plus sign before them or not, and
/// the number is not above the limit.
pub proof fn numbers_are_read_digit_by_digit(s: Seq<char>, limit: nat)
    ensures
        ({
            let digits = if s.len() > 1 && s[0] == '+' {
                s.skip(1)
            } else {
                s
            };
            let n = readings::number(digits, 0).0;
            &&& scan::number_in(s, limit) is Ok <==> s.len() > 0 && all_digits(digits) && n <= limit
            &&& scan::number_in(s, limit) is Ok ==> scan::number_in(s, limit)->Ok_0 == n
            &&& s.len() == 0 <==> scan::number_in(s, limit) == Err::<nat, scan::NumberError>(
                scan::NumberError::Empty,
            )
            &&& s.len() > 0 && all_digits(digits) && n > limit ==> scan::number_in(s, limit)
                == Err::<nat, scan::NumberError>(scan::NumberError::TooLarge)
        }),
{
    if s.len() > 1 && s[0] == '+' {
        assert(s.drop_first() =~= s.skip(1));
    }
    lemma_number_from(scan::unsigned_digits(s), limit);
    lemma_never_empty(scan::unsigned_digits(s), limit);
}

proof fn lemma_never_empty(digits: Seq<char>, limit: nat)
    ensures
        scan::number_from(digits, limit) != Err::<nat, scan::NumberError>(scan::NumberError::Empty),
    decreases digits.len(),
{
    if digits.len() > 0 {
        lemma_never_empty(digits.drop_last(), limit);
    }
}

/// The number that was written in decimal digits is read back, also with a plus sign before it.
pub proof fn written_numbers_are_read_back(n: nat, limit: nat)
    requires
        n <= limit,
    ensures
        scan::number_in(text::decimal_text(n), limit) == Ok::<nat, scan::NumberError>(n),
        scan::number_in("+"@ + text::decimal_text(n), limit) == Ok::<nat, scan::NumberError>(n),
{
    let s = text::decimal_text(n);
    readings::lemma_decimal(n, seq![]);
    assert(s + seq![] =~= s);
    assert(readings::number(seq![], n).0 == n);
    lemma_decimal_digits(n);
    assert('0' <= s[0] <= '9');
    numbers_are_read_digit_by_digit(s, limit);
    reveal_strlit("+");
    let t = "+"@ + s;
    assert(t[0] == '+');
    assert(t.skip(1) =~= s);
    numbers_are_read_digit_by_digit(t, limit);
}

proof fn lemma_decimal_digits(n: nat)
    ensures
        all_digits(text::decimal_text(n)),
        text::decimal_text(n).len() > 0,
    decreases n,
{
    if n >= 10 {
        lemma_decimal_digits(n / 10);
    }
}

/// The case of ASCII letters does not matter, and nothing else is overlooked.
pub proof fn only_case_is_ignored(a: Seq<char>, b: Seq<char>)
    ensures
        scan::same_ignoring_case(a, b) <==> a.len() == b.len() && forall|i: int|
            0 <= i < a.len() ==> (#[trigger] a[i]) == b[i] || ('A' <= a[i] <= 'Z' && b[i] as u32
                == a[i] as u32 + 32) || ('A' <= b[i] <= 'Z' && a[i] as u32 == b[i] as u32 + 32),
{
    if a.len() == b.len() {
        assert forall|i: int| 0 <= i < a.len() implies (scan::lower_ascii(#[trigger] a[i])
            == scan::lower_ascii(b[i]) <==> a[i] == b[i] || ('A' <= a[i] <= 'Z' && b[i] as u32
            == a[i] as u32 + 32) || ('A' <= b[i] <= 'Z' && a[i] as u32 == b[i] as u32 + 32)) by {
            assert('A' <= a[i] <= 'Z' ==> scan::lower_ascii(a[i]) as u32 == a[i] as u32 + 32);
            assert('A' <= b[i] <= 'Z' ==> scan::lower_ascii(b[i]) as u32 == b[i] as u32 + 32);
        }
        if scan::same_ignoring_case(a, b) {
            assert forall|i: int| 0 <= i < a.len() implies (#[trigger] a[i]) == b[i] || ('A' <= a[i]
                <= 'Z' && b[i] as u32 == a[i] as u32 + 32) || ('A' <= b[i] <= 'Z' && a[i] as u32
                == b[i] as u32 + 32) by {
                assert(scan::lower_ascii(a[i]) == scan::lower_ascii(b[i]));
            }
        }
    }
}

/// The place of the last item of which something holds, if it is of any.
pub open spec fn last_of(n: nat, holds: spec_fn(int) -> bool, i: int) -> bool {
    0 <= i < n && holds(i) && forall|j: int| i < j < n ==> !(#[trigger] holds(j))
}

/// The pair gives a value to the decoded key.
pub open spec fn gives(pair: Seq<char>, key: Seq<char>) -> bool {
    pair.len() > 0 && urls::url_decoded(urls::pair_parts(pair).0) == key
}

/// Of the pairs of a query that give a value to a key the last counts: the decoded text behind its
/// equals sign, or nothing where it has none. A key that no pair gives a value to has none.
pub proof fn the_last_parameter_counts(pairs: Seq<Seq<char>>, key: Seq<char>)
    ensures
        ({
            let params = urls::params_of(pairs);
            let found = |i: int| gives(pairs[i], key);
            &&& params.contains_key(key) <==> exists|i: int| #[trigger]
                last_of(pairs.len(), found, i)
            &&& forall|i: int| #[trigger]
                last_of(pairs.len(), found, i) ==> params[key] == if occurs(pairs[i], "="@) {
                    urls::url_decoded(urls::pair_parts(pairs[i]).1)
                } else {
                    seq![]
                }
        }),
    decreases pairs.len(),
{
    let params = urls::params_of(pairs);
    let found = |i: int| gives(pairs[i], key);
    if pairs.len() > 0 {
        let front = pairs.drop_last();
        let last = pairs.len() - 1;
        let before = |i: int| gives(front[i], key);
        the_last_parameter_counts(front, key);
        texts_are_parted_at_the_first_separator(pairs.last(), "="@);
        assert forall|i: int| 0 <= i < last implies #[trigger] before(i) == found(i) by {
            assert(front[i] == pairs[i]);
        }
        if gives(pairs.last(), key) {
            assert(found(last));
            assert(last_of(pairs.len(), found, last));
            assert forall|i: int| #[trigger] last_of(pairs.len(), found, i) implies i == last by {
                if i < last {
                    assert(!found(last));
                }
            }
        } else {
            assert(!found(last));
            assert forall|i: int| #[trigger] last_of(pairs.len(), found, i) <==> last_of(
                front.len(),
                before,
                i,
            ) by {
                if last_of(pairs.len(), found, i) {
                    assert(i != last);
                    assert(before(i) == found(i));
                    assert forall|j: int| i < j < front.len() implies !(#[trigger] before(j)) by {
                        assert(!found(j));
                    }
                }
                if last_of(front.len(), before, i) {
                    assert(before(i) == found(i));
                    assert forall|j: int| i < j < pairs.len() implies !(#[trigger] found(j)) by {
                        if j < last {
                            assert(!before(j));
                        }
                    }
                }
            }
            if exists|i: int| #[trigger] last_of(pairs.len(), found, i) {
                let i = choose|i: int| #[trigger] last_of(pairs.len(), found, i);
                assert(last_of(front.len(), before, i));
            }
            if exists|i: int| #[trigger] last_of(front.len(), before, i) {
                let i = choose|i: int| #[trigger] last_of(front.len(), before, i);
                assert(last_of(pairs.len(), found, i));
            }
            assert forall|i: int| #[trigger] last_of(
                pairs.len(),
                found,
                i,
            ) implies params[key] == if occurs(pairs[i], "="@) {
                urls::url_decoded(urls::pair_parts(pairs[i]).1)
            } else {
                seq![]
            } by {
                assert(last_of(front.len(), before, i));
                assert(front[i] == pairs[i]);
            }
        }
    } else {
        assert forall|i: int| !(#[trigger] last_of(pairs.len(), found, i)) by {}
    }
}

/// The line gives a value to the header of a name.
pub open spec fn heads(line: Seq<char>, name: Seq<char>) -> bool {
    scan::split_once(line, ":"@) matches Some((before, behind)) && text::lowercase_text(
        scan::trimmed(before),
    ) == name
}

/// Of the lines that give a value to a header the last counts: what is behind its first colon, without
/// white space around it.
pub proof fn the_last_header_counts(lines: Seq<Seq<char>>, name: Seq<char>)
    ensures
        ({
            let headers = server::headers_in(lines);
            let found = |i: int| heads(lines[i], name);
            &&& headers.contains_key(name) <==> exists|i: int| #[trigger]
                last_of(lines.len(), found, i)
            &&& forall|i: int| #[trigger]
                last_of(lines.len(), found, i) ==> headers[name] == scan::trimmed(
                    (scan::split_once(lines[i], ":"@)->0).1,
                )
        }),
    decreases lines.len(),
{
    let headers = server::headers_in(lines);
    let found = |i: int| heads(lines[i], name);
    if lines.len() > 0 {
        let front = lines.drop_last();
        let last = lines.len() - 1;
        let before = |i: int| heads(front[i], name);
        the_last_header_counts(front, name);
        assert forall|i: int| 0 <= i < last implies #[trigger] before(i) == found(i) by {
            assert(front[i] == lines[i]);
        }
        if heads(lines.last(), name) {
            assert(found(last));
            assert(last_of(lines.len(), found, last));
            assert forall|i: int| #[trigger] last_of(lines.len(), found, i) implies i == last by {
                if i < last {
                    assert(!found(last));
                }
            }
        } else {
            assert(!found(last));
            assert forall|i: int| #[trigger] last_of(lines.len(), found, i) <==> last_of(
                front.len(),
                before,
                i,
            ) by {
                if last_of(lines.len(), found, i) {
                    assert(i != last);
                    assert(before(i) == found(i));
                    assert forall|j: int| i < j < front.len() implies !(#[trigger] before(j)) by {
                        assert(!found(j));
                    }
                }
                if last_of(front.len(), before, i) {
                    assert(before(i) == found(i));
                    assert forall|j: int| i < j < lines.len() implies !(#[trigger] found(j)) by {
                        if j < last {
                            assert(!before(j));
                        }
                    }
                }
            }
            if exists|i: int| #[trigger] last_of(lines.len(), found, i) {
                let i = choose|i: int| #[trigger] last_of(lines.len(), found, i);
                assert(last_of(front.len(), before, i));
            }
            if exists|i: int| #[trigger] last_of(front.len(), before, i) {
                let i = choose|i: int| #[trigger] last_of(front.len(), before, i);
                assert(last_of(lines.len(), found, i));
            }
            assert forall|i: int| #[trigger] last_of(lines.len(), found, i) implies headers[name]
                == scan::trimmed((scan::split_once(lines[i], ":"@)->0).1) by {
                assert(last_of(front.len(), before, i));
                assert(front[i] == lines[i]);
            }
        }
    } else {
        assert forall|i: int| !(#[trigger] last_of(lines.len(), found, i)) by {}
    }
}

proof fn lemma_unescaped_shift(bytes: Seq<u8>, i: int)
    requires
        0 <= i <= bytes.len(),
    ensures
        urls::unescaped(bytes, i) == urls::unescaped(bytes.skip(i), 0),
    decreases bytes.len() - i,
{
    let rest = bytes.skip(i);
    if i < bytes.len() {
        assert(rest[0] == bytes[i]);
        lemma_unescaped_shift(bytes, i + 1);
        lemma_unescaped_shift(rest, 1);
        assert(rest.skip(1) =~= bytes.skip(i + 1));
        if i + 2 < bytes.len() {
            assert(rest[1] == bytes[i + 1] && rest[2] == bytes[i + 2]);
            lemma_unescaped_shift(bytes, i + 3);
            lemma_unescaped_shift(rest, 3);
            assert(rest.skip(3) =~= bytes.skip(i + 3));
        }
    }
}

/// The value of a hexadecimal digit, in either case.
pub open spec fn hexadecimal(b: u8, v: u8) -> bool {
    ||| v < 10 && b == 0x30 + v
    ||| 10 <= v < 16 && (b == 0x41 + v - 10 || b == 0x61 + v - 10)
}

/// The byte is no hexadecimal digit.
pub open spec fn no_digit(b: u8) -> bool {
    forall|v: u8| !(#[trigger] hexadecimal(b, v))
}

/// Percent-encoded bytes stand for bytes from the front: a plus sign for a space, a percent sign with
/// two hexadecimal digits for the byte that these give, a percent sign without for itself, and any
/// other byte for itself.
pub proof fn escapes_stand_for_bytes(first: u8, rest: Seq<u8>, high: u8, low: u8)
    requires
        high < 16,
        low < 16,
    ensures
        ({
            let bytes = seq![first] + rest;
            let digits = rest.len() >= 2 && hexadecimal(rest[0], high) && hexadecimal(rest[1], low);
            &&& first == 0x2b ==> urls::unescaped(bytes, 0) == seq![0x20u8] + urls::unescaped(
                rest,
                0,
            )
            &&& first == 0x25 && digits ==> urls::unescaped(bytes, 0) == seq![
                (16 * high + low) as u8,
            ] + urls::unescaped(rest.skip(2), 0)
            &&& first == 0x25 && (rest.len() < 2 || no_digit(rest[0]) || no_digit(rest[1]))
                ==> urls::unescaped(bytes, 0) == seq![0x25u8] + urls::unescaped(rest, 0)
            &&& first != 0x25 && first != 0x2b ==> urls::unescaped(bytes, 0) == seq![first]
                + urls::unescaped(rest, 0)
        }),
{
    let bytes = seq![first] + rest;
    lemma_unescaped_shift(bytes, 1);
    assert(bytes.skip(1) =~= rest);
    assert(bytes[0] == first);
    if rest.len() >= 2 {
        lemma_unescaped_shift(bytes, 3);
        assert(bytes.skip(3) =~= rest.skip(2));
        assert(bytes[1] == rest[0] && bytes[2] == rest[1]);
        lemma_digit(rest[0]);
        lemma_digit(rest[1]);
    }
}

proof fn lemma_digit(b: u8)
    ensures
        match hex_bytes::digit_value(b) {
            Some(v) => hexadecimal(b, v),
            None => no_digit(b),
        },
{
}

/// A flag and its value, taken over on top of what was said before.
pub open spec fn with_flag(said: ArgsModel, flag: Seq<char>, value: Seq<char>) -> ArgsModel {
    ArgsModel {
        listen: if flag == "--listen"@ {
            value
        } else {
            said.listen
        },
        data_dir: if flag == "--data-dir"@ {
            value
        } else {
            said.data_dir
        },
    }
}

proof fn lemma_flags_differ()
    ensures
        "--listen"@ != "--data-dir"@,
{
    reveal_strlit("--listen");
    reveal_strlit("--data-dir");
    assert("--listen"@.len() == 8 && "--data-dir"@.len() == 10);
}

/// Arguments are read from the left: two more of a known flag and its value are taken over on top of
/// those before, a flag without a value or an unknown one is refused, and so is all that follows a
/// refusal.
pub proof fn later_arguments_count(
    argv: Seq<Seq<char>>,
    i: int,
    said: ArgsModel,
    flag: Seq<char>,
    value: Seq<char>,
)
    requires
        0 <= i <= argv.len(),
        (argv.len() - i) % 2 == 0,
    ensures
        ({
            let known = flag == "--listen"@ || flag == "--data-dir"@;
            &&& cli::args_from(argv, i, said) matches Ok(before) ==> {
                &&& known ==> cli::args_from(argv.push(flag).push(value), i, said) == Ok::<
                    ArgsModel,
                    Seq<char>,
                >(with_flag(before, flag, value))
                &&& cli::args_from(argv.push(flag), i, said) is Err
                &&& !known ==> cli::args_from(argv.push(flag).push(value), i, said) is Err
            }
            &&& cli::args_from(argv, i, said) is Err ==> cli::args_from(
                argv.push(flag).push(value),
                i,
                said,
            ) is Err
        }),
    decreases argv.len() - i,
{
    lemma_flags_differ();
    let two = argv.push(flag).push(value);
    let one = argv.push(flag);
    if i == argv.len() {
        assert(two[i] == flag && two[i + 1] == value);
        assert(one[i] == flag);
        let next = with_flag(said, flag, value);
        assert(cli::args_from(two, i + 2, next) == Ok::<ArgsModel, Seq<char>>(next));
    } else {
        assert(i + 2 <= argv.len());
        assert(two[i] == argv[i] && two[i + 1] == argv[i + 1]);
        assert(one[i] == argv[i] && one[i + 1] == argv[i + 1]);
        later_arguments_count(argv, i + 2, with_flag(said, argv[i], argv[i + 1]), flag, value);
    }
}

/// The lines up to a place have characters, and there the lines end or an empty one stands.
pub open spec fn header_lines(lines: Seq<Seq<char>>, from: int, end: int) -> bool {
    &&& from <= end <= lines.len()
    &&& forall|j: int| from <= j < end ==> (#[trigger] lines[j]).len() > 0
    &&& end < lines.len() ==> lines[end].len() == 0
}

/// The key of a request is that of the last line that holds one, before the first empty line.
pub open spec fn last_key(
    lines: Seq<Seq<char>>,
    from: int,
    end: int,
    found: Option<Seq<char>>,
    key: Option<Seq<char>>,
) -> bool {
    ||| {
        &&& key == found
        &&& forall|j: int| from <= j < end ==> http::key_in(#[trigger] lines[j]) is None
    }
    ||| key is Some && exists|j: int|
        {
            &&& from <= j < end
            &&& http::key_in(#[trigger] lines[j]) == key
            &&& forall|k: int| j < k < end ==> http::key_in(#[trigger] lines[k]) is None
        }
}

/// Of several lines with a key the last counts, and none behind the first empty line.
pub proof fn the_last_key_counts(lines: Seq<Seq<char>>, from: int, found: Option<Seq<char>>)
    requires
        0 <= from <= lines.len(),
    ensures
        exists|end: int| #[trigger]
            header_lines(lines, from, end) && last_key(
                lines,
                from,
                end,
                found,
                http::key_from(lines, from, found),
            ),
    decreases lines.len() - from,
{
    let key = http::key_from(lines, from, found);
    if from >= lines.len() || lines[from].len() == 0 {
        assert(header_lines(lines, from, from));
        assert(last_key(lines, from, from, found, key));
    } else {
        let here = http::key_in(lines[from]);
        let now = if here is Some {
            here
        } else {
            found
        };
        the_last_key_counts(lines, from + 1, now);
        let end = choose|end: int| #[trigger]
            header_lines(lines, from + 1, end) && last_key(lines, from + 1, end, now, key);
        assert(header_lines(lines, from, end));
        if key == now && forall|j: int|
            from + 1 <= j < end ==> http::key_in(#[trigger] lines[j]) is None {
            if here is Some {
                assert(http::key_in(lines[from]) == key);
            }
        } else {
            let j = choose|j: int|
                {
                    &&& from + 1 <= j < end
                    &&& http::key_in(#[trigger] lines[j]) == key
                    &&& forall|k: int| j < k < end ==> http::key_in(#[trigger] lines[k]) is None
                };
            assert(http::key_in(lines[j]) == key);
        }
        assert(last_key(lines, from, end, found, key));
    }
}

/// The separator stands behind a text and nowhere before.
pub open spec fn first_behind(before: Seq<char>, separator: Seq<char>, behind: Seq<char>) -> bool {
    let all = before + separator + behind;
    forall|k: int|
        0 <= k < before.len() ==> #[trigger] all.subrange(k, k + separator.len()) != separator
}

proof fn lemma_parted(before: Seq<char>, separator: Seq<char>, behind: Seq<char>)
    requires
        first_behind(before, separator, behind),
    ensures
        scan::find_from(before + separator + behind, separator, 0) == Some(before.len() as int),
        scan::split_once(before + separator + behind, separator) == Some((before, behind)),
{
    let all = before + separator + behind;
    let n = before.len() as int;
    lemma_find(all, separator, 0);
    assert(all.subrange(n, n + separator.len()) =~= separator);
    let found = scan::find_from(all, separator, 0);
    assert(found is Some);
    let i = found->0;
    assert(i >= n) by {
        if i < n {
            assert(all.subrange(i, i + separator.len()) == separator);
        }
    }
    assert(i == n);
    assert(all.take(n) =~= before);
    assert(all.skip(n + separator.len()) =~= behind);
}

/// The headers of a request are what stands before the first empty line, and its body begins behind it.
pub proof fn headers_end_at_the_first_empty_line(headers: Seq<char>, body: Seq<char>)
    requires
        first_behind(headers, "\r\n\r\n"@, body),
    ensures
        http::headers_of(headers + "\r\n\r\n"@ + body) == headers,
        http::body_of(headers + "\r\n\r\n"@ + body) == body,
{
    reveal_strlit("\r\n\r\n");
    let all = headers + "\r\n\r\n"@ + body;
    lemma_parted(headers, "\r\n\r\n"@, body);
    assert(all.take(headers.len() as int) =~= headers);
    assert(scan::split(all, "\r\n\r\n"@)[0] == headers);
}

/// The path of a target goes up to the first question mark, and the query begins behind it; without one
/// there is no query.
pub proof fn queries_begin_at_the_first_question_mark(path: Seq<char>, query: Seq<char>)
    ensures
        first_behind(path, "?"@, query) ==> http::target_parts(path + "?"@ + query) == (path, query),
        !occurs(path, "?"@) ==> http::target_parts(path) == (path, Seq::<char>::empty()),
{
    if first_behind(path, "?"@, query) {
        lemma_parted(path, "?"@, query);
    }
    texts_are_parted_at_the_first_separator(path, "?"@);
}

/// A line gives a value to a header by what stands behind its first colon, without white space around it;
/// the case of its name does not matter.
pub proof fn headers_have_the_value_behind_the_colon(
    name: Seq<char>,
    value: Seq<char>,
    wanted: Seq<char>,
)
    requires
        first_behind(name, ":"@, value),
    ensures
        http::header_value(name + ":"@ + value, wanted) == (if scan::same_ignoring_case(
            name,
            wanted,
        ) {
            Some(scan::trimmed(value))
        } else {
            None
        }),
        http::key_in(name + ":"@ + value) == (if scan::same_ignoring_case(
            scan::trimmed(name),
            "idempotency-key"@,
        ) {
            Some(scan::trimmed(value))
        } else {
            None
        }),
{
    lemma_parted(name, ":"@, value);
}

/// No character is white space.
pub open spec fn no_space(s: Seq<char>) -> bool {
    forall|i: int| 0 <= i < s.len() ==> !text::white_space(#[trigger] s[i])
}

proof fn lemma_word_before(word: Seq<char>, rest: Seq<char>)
    requires
        no_space(word),
        rest.len() > 0 ==> text::white_space(rest[0]),
    ensures
        scan::word_len(word + rest) == word.len(),
    decreases word.len(),
{
    let all = word + rest;
    if word.len() > 0 {
        let less = word.drop_first();
        assert forall|i: int| 0 <= i < less.len() implies !text::white_space(#[trigger] less[i]) by {
            assert(less[i] == word[i + 1]);
        }
        lemma_word_before(less, rest);
        assert(all[0] == word[0]);
        assert(all.drop_first() =~= less + rest);
    } else {
        assert(all =~= rest);
    }
}

proof fn lemma_first_word(word: Seq<char>, rest: Seq<char>)
    requires
        word.len() > 0,
        no_space(word),
        rest.len() > 0 ==> text::white_space(rest[0]),
    ensures
        scan::first_word(word + rest) == Some((word, rest)),
{
    let all = word + rest;
    assert(all[0] == word[0]);
    lemma_word_before(word, rest);
    assert(scan::trim_start(all) == all);
    assert(all.take(word.len() as int) =~= word);
    assert(all.skip(word.len() as int) =~= rest);
}

/// A request line gives the method and the target, its first two words.
pub proof fn request_lines_give_method_and_target(
    method: Seq<char>,
    target: Seq<char>,
    version: Seq<char>,
)
    requires
        method.len() > 0,
        target.len() > 0,
        no_space(method),
        no_space(target),
        text::white_space(' '),
    ensures
        http::request_line(method + " "@ + target + " "@ + version) == (method, target),
{
    reveal_strlit(" ");
    let last = " "@ + version;
    let rest = " "@ + target + last;
    assert(method + " "@ + target + " "@ + version =~= method + rest);
    lemma_first_word(method, rest);
    assert(rest.drop_first() =~= target + last);
    assert(rest[0] == ' ');
    lemma_first_word(target, last);
    assert((target + last)[0] == target[0]);
    assert(scan::trim_start(target + last) == target + last);
    assert(scan::trim_start(rest) == target + last);
}

/// The length of a body is that of the last header line that gives one, if all of them can be read, and
/// zero where none does.
pub proof fn the_last_length_counts(lines: Seq<Seq<char>>, line: Seq<char>)
    ensures
        http::announced_length(seq![]) == Ok::<nat, scan::NumberError>(0),
        http::announced_length(lines) is Err ==> http::announced_length(lines.push(line))
            == http::announced_length(lines),
        http::announced_length(lines) is Ok ==> http::announced_length(lines.push(line)) == (
        match http::header_value(line, "content-length"@) {
            Some(value) => scan::number_in(value, usize::MAX as nat),
            None => http::announced_length(lines),
        }),
{
    assert(lines.push(line).drop_last() =~= lines);
}

} // verus!

//! What the trace of an identifier says, told by its bytes and the rules.

use vstd::prelude::*;
use vstd::utf8::*;

use crate::align;
use crate::decode;
use crate::decode::Unit;
use crate::source;
use crate::stages;
use crate::tables;
use crate::text;
use crate::unicode;
use crate::unicode::{
    IssueModel, JsonUnit, Normalization, RuleConfigModel, StageModel, TraceModel,
};

verus! {

/// Ranges of numbers that are stripped whatever their category is, with both ends.
pub open spec fn stripped_ranges() -> Seq<(u32, u32)> {
    seq![
        (0x00adu32, 0x00adu32),
        (0x034fu32, 0x034fu32),
        (0x061cu32, 0x061cu32),
        (0x115fu32, 0x1160u32),
        (0x17b4u32, 0x17b5u32),
        (0x180bu32, 0x180du32),
        (0x200bu32, 0x200fu32),
        (0x202au32, 0x202eu32),
        (0x2060u32, 0x206fu32),
        (0x3164u32, 0x3164u32),
        (0xfe00u32, 0xfe0fu32),
        (0xfe20u32, 0xfe2fu32),
        (0xfeffu32, 0xfeffu32),
        (0xffa0u32, 0xffa0u32),
        (0xfff0u32, 0xfff8u32),
        (0xe0000u32, 0xe0fffu32),
    ]
}

/// Ranges of numbers that are kept though their category be Format, with both ends.
pub open spec fn kept_ranges() -> Seq<(u32, u32)> {
    seq![
        (0x00b7u32, 0x00b7u32),
        (0x0375u32, 0x0375u32),
        (0x055au32, 0x055cu32),
        (0x058au32, 0x058au32),
        (0x0591u32, 0x0591u32),
        (0x05a3u32, 0x05a4u32),
        (0x05b9u32, 0x05bdu32),
        (0x05bfu32, 0x05bfu32),
        (0x05c1u32, 0x05c2u32),
        (0x0600u32, 0x0605u32),
        (0x06ddu32, 0x06ddu32),
        (0x070fu32, 0x070fu32),
        (0x08e2u32, 0x08e2u32),
        (0x180eu32, 0x180eu32),
        (0x2015u32, 0x2015u32),
        (0x2022u32, 0x2022u32),
        (0x2032u32, 0x2033u32),
        (0x2035u32, 0x2035u32),
        (0x203bu32, 0x203du32),
        (0x2042u32, 0x2042u32),
        (0x2044u32, 0x2044u32),
        (0x2057u32, 0x2057u32),
        (0x205au32, 0x205eu32),
        (0x2060u32, 0x2060u32),
        (0x20a0u32, 0x20a4u32),
        (0x20a6u32, 0x20bau32),
    ]
}

/// One of the ranges holds the number.
pub open spec fn within(ranges: Seq<(u32, u32)>, n: u32) -> bool {
    exists|k: int| 0 <= k < ranges.len() && (#[trigger] ranges[k]).0 <= n <= ranges[k].1
}

/// The character is stripped: one of the ranges holds it, or its category is Format and none of the
/// exceptions holds it.
pub open spec fn is_stripped(c: char) -> bool {
    within(stripped_ranges(), c as u32) || (tables::format_category(c) && !within(
        kept_ranges(),
        c as u32,
    ))
}

proof fn lemma_stripped_ranges(n: u32)
    ensures
        unicode::in_ignorable_range(n) <==> within(stripped_ranges(), n),
{
    let all = stripped_ranges();
    assert(all[0] == (0x00adu32, 0x00adu32));
    assert(all[1] == (0x034fu32, 0x034fu32));
    assert(all[2] == (0x061cu32, 0x061cu32));
    assert(all[3] == (0x115fu32, 0x1160u32));
    assert(all[4] == (0x17b4u32, 0x17b5u32));
    assert(all[5] == (0x180bu32, 0x180du32));
    assert(all[6] == (0x200bu32, 0x200fu32));
    assert(all[7] == (0x202au32, 0x202eu32));
    assert(all[8] == (0x2060u32, 0x206fu32));
    assert(all[9] == (0x3164u32, 0x3164u32));
    assert(all[10] == (0xfe00u32, 0xfe0fu32));
    assert(all[11] == (0xfe20u32, 0xfe2fu32));
    assert(all[12] == (0xfeffu32, 0xfeffu32));
    assert(all[13] == (0xffa0u32, 0xffa0u32));
    assert(all[14] == (0xfff0u32, 0xfff8u32));
    assert(all[15] == (0xe0000u32, 0xe0fffu32));
    if within(all, n) {
        let k = choose|k: int| 0 <= k < all.len() && (#[trigger] all[k]).0 <= n <= all[k].1;
    }
}

proof fn lemma_kept_ranges(n: u32)
    ensures
        unicode::not_ignorable_by_category(n) <==> within(kept_ranges(), n),
{
    let all = kept_ranges();
    assert(all[0] == (0x00b7u32, 0x00b7u32));
    assert(all[1] == (0x0375u32, 0x0375u32));
    assert(all[2] == (0x055au32, 0x055cu32));
    assert(all[3] == (0x058au32, 0x058au32));
    assert(all[4] == (0x0591u32, 0x0591u32));
    assert(all[5] == (0x05a3u32, 0x05a4u32));
    assert(all[6] == (0x05b9u32, 0x05bdu32));
    assert(all[7] == (0x05bfu32, 0x05bfu32));
    assert(all[8] == (0x05c1u32, 0x05c2u32));
    assert(all[9] == (0x0600u32, 0x0605u32));
    assert(all[10] == (0x06ddu32, 0x06ddu32));
    assert(all[11] == (0x070fu32, 0x070fu32));
    assert(all[12] == (0x08e2u32, 0x08e2u32));
    assert(all[13] == (0x180eu32, 0x180eu32));
    assert(all[14] == (0x2015u32, 0x2015u32));
    assert(all[15] == (0x2022u32, 0x2022u32));
    assert(all[16] == (0x2032u32, 0x2033u32));
    assert(all[17] == (0x2035u32, 0x2035u32));
    assert(all[18] == (0x203bu32, 0x203du32));
    assert(all[19] == (0x2042u32, 0x2042u32));
    assert(all[20] == (0x2044u32, 0x2044u32));
    assert(all[21] == (0x2057u32, 0x2057u32));
    assert(all[22] == (0x205au32, 0x205eu32));
    assert(all[23] == (0x2060u32, 0x2060u32));
    assert(all[24] == (0x20a0u32, 0x20a4u32));
    assert(all[25] == (0x20a6u32, 0x20bau32));
    if within(all, n) {
        let k = choose|k: int| 0 <= k < all.len() && (#[trigger] all[k]).0 <= n <= all[k].1;
    }
}

/// Which characters are default ignorable.
pub proof fn ignorable_characters_are_listed(c: char)
    ensures
        unicode::ignorable(c, tables::format_category(c)) <==> is_stripped(c),
{
    lemma_stripped_ranges(c as u32);
    lemma_kept_ranges(c as u32);
}

/// A stage shows a text by the numbers of its characters.
pub open spec fn shows(stage: StageModel, t: Seq<char>) -> bool {
    &&& stage.units.len() == t.len()
    &&& forall|i: int|
        0 <= i < t.len() ==> #[trigger] stage.units[i] == JsonUnit::Scalar(t[i] as u32)
}

/// Each unit of a stage is the unit of the stage before that it comes from, in order.
pub open spec fn picks(stage: StageModel, before: StageModel) -> bool {
    &&& stage.provenance.len() == stage.units.len()
    &&& forall|k: int|
        0 <= k < stage.units.len() ==> {
            &&& (#[trigger] stage.provenance[k]) < before.units.len()
            &&& stage.units[k] == before.units[stage.provenance[k] as int]
        }
    &&& forall|a: int, b: int|
        0 <= a < b < stage.provenance.len() ==> #[trigger] stage.provenance[a]
            < #[trigger] stage.provenance[b]
}

/// The texts that an identifier passes through.
pub open spec fn passes(
    cfg: RuleConfigModel,
    trace: TraceModel,
    scalars: Seq<char>,
    folded: Seq<char>,
    stripped: Seq<char>,
) -> bool {
    &&& trace.stages.len() == 5
    &&& shows(trace.stages[1], scalars)
    &&& shows(trace.stages[2], folded)
    &&& shows(trace.stages[3], stripped)
    &&& shows(trace.stages[4], trace.canonical)
    &&& folded == if cfg.case_fold {
        tables::case_folding(scalars)
    } else {
        scalars
    }
    &&& stripped == if cfg.strip_default_ignorable {
        folded.filter(|c: char| !is_stripped(c))
    } else {
        folded
    }
    &&& trace.canonical == match cfg.normalization {
        Normalization::Nfc => tables::form_c(stripped),
        Normalization::Nfkc => tables::form_kc(stripped),
    }
    &&& picks(trace.stages[3], trace.stages[2])
}

proof fn lemma_stripped(t: Seq<char>)
    ensures
        stages::marked(t, unicode::kept_marks(t)) == t.filter(|c: char| !is_stripped(c)),
    decreases t.len(),
{
    reveal(Seq::filter);
    let keep = |c: char| !is_stripped(c);
    let marks = unicode::kept_marks(t);
    if t.len() == 0 {
        assert(t.filter(keep) =~= stages::marked(t, marks));
    } else {
        let front = t.drop_last();
        lemma_stripped(front);
        ignorable_characters_are_listed(t.last());
        assert(marks.drop_last() =~= unicode::kept_marks(front));
        lemma_marked_front(t, front, unicode::kept_marks(front));
        assert(marks.last() == !is_stripped(t.last()));
    }
}

proof fn lemma_marked_front(s: Seq<char>, t: Seq<char>, marks: Seq<bool>)
    requires
        marks.len() <= t.len() <= s.len(),
        t == s.take(t.len() as int),
    ensures
        stages::marked(s, marks) == stages::marked(t, marks),
    decreases marks.len(),
{
    if marks.len() > 0 {
        lemma_marked_front(s, t, marks.drop_last());
        assert(t[marks.len() - 1] == s[marks.len() - 1]);
    }
}

/// The unit is a scalar value.
pub open spec fn is_scalar_unit(u: Unit) -> bool {
    u is Scalar
}

proof fn lemma_scalars(units: Seq<Unit>)
    ensures
        stages::scalar_chars(units) == units.filter(|u: Unit| is_scalar_unit(u)).map_values(
            |u: Unit| u->Scalar_0,
        ),
    decreases units.len(),
{
    reveal(Seq::filter);
    let keep = |u: Unit| is_scalar_unit(u);
    let char_of = |u: Unit| u->Scalar_0;
    if units.len() == 0 {
        assert(units.filter(keep).map_values(char_of) =~= seq![]);
    } else {
        let front = units.drop_last();
        lemma_scalars(front);
        assert(front.filter(keep).push(units.last()).map_values(char_of) =~= front.filter(
            keep,
        ).map_values(char_of).push(units.last()->Scalar_0));
    }
}

/// How the canonical value of an identifier comes about: the scalar values among its units are folded,
/// freed of ignorable characters and normalized, each as the rules ask for, and each stage shows what
/// it made of the one before it.
pub proof fn identifiers_pass_through_stages(bytes: Seq<u8>, cfg: RuleConfigModel)
    requires
        decode::units_of(bytes).len() <= usize::MAX,
        unicode::folded(cfg, stages::scalar_chars(decode::units_of(bytes))).len() <= usize::MAX,
    ensures
        ({
            let trace = unicode::trace_of(bytes, cfg);
            let scalars = decode::units_of(bytes).filter(
                |u: Unit| is_scalar_unit(u),
            ).map_values(|u: Unit| u->Scalar_0);
            &&& trace.canonical_cps == Seq::new(
                trace.canonical.len(),
                |i: int| trace.canonical[i] as u32,
            )
            &&& trace.stages[0].name == "raw"@
            &&& trace.stages[1].name == "scalars"@
            &&& trace.stages[2].name == "case_fold"@
            &&& trace.stages[3].name == "strip_ignorable"@
            &&& trace.stages[4].name == "normalize"@
            &&& exists|folded: Seq<char>, stripped: Seq<char>| #[trigger]
                passes(cfg, trace, scalars, folded, stripped)
        }),
{
    let units = decode::units_of(bytes);
    let trace = unicode::trace_of(bytes, cfg);
    let scalars = stages::scalar_chars(units);
    let folded = unicode::folded(cfg, scalars);
    let stripped = unicode::stripped(cfg, folded);
    lemma_scalars(units);
    lemma_stripped(folded);
    stages::lemma_positions(folded, unicode::kept_marks(folded));
    assert(picks(trace.stages[3], trace.stages[2])) by {
        let stage = trace.stages[3];
        let before = trace.stages[2];
        assert forall|k: int| 0 <= k < stage.units.len() implies {
            &&& (#[trigger] stage.provenance[k]) < before.units.len()
            &&& stage.units[k] == before.units[stage.provenance[k] as int]
        } by {}
    }
    assert(passes(cfg, trace, scalars, folded, stripped));
}

/// The raw stage shows the units of the bytes: a scalar value by its number, a surrogate by its number
/// and any other byte by itself.
pub proof fn the_raw_stage_shows_every_unit(bytes: Seq<u8>, cfg: RuleConfigModel, i: int)
    requires
        0 <= i < decode::units_of(bytes).len(),
    ensures
        ({
            let raw = unicode::trace_of(bytes, cfg).stages[0].units;
            &&& raw.len() == decode::units_of(bytes).len()
            &&& raw[i] == match decode::units_of(bytes)[i] {
                Unit::Scalar(c) => JsonUnit::Scalar(c as u32),
                Unit::Surrogate(cp) => JsonUnit::Surrogate(cp),
                Unit::InvalidByte(b) => JsonUnit::InvalidByte(b),
            }
        }),
{
}

/// Bytes are read from the front: the bytes of a character are read as this character, whatever follows.
pub proof fn characters_are_read_from_the_front(c: char, rest: Seq<u8>)
    ensures
        decode::units_of(encode_utf8(seq![c]) + rest) == seq![Unit::Scalar(c)] + decode::units_of(
            rest,
        ),
{
    let one = seq![c];
    let head = encode_utf8(one);
    let bytes = head + rest;
    encode_utf8_first_scalar(one);
    assert(one.drop_first() =~= seq![]);
    assert(encode_utf8(one.drop_first()) =~= seq![]);
    assert(head =~= encode_scalar(c as u32));
    assert(forall|i: int| 0 <= i < head.len() ==> #[trigger] bytes[i] == head[i]);
    assert(valid_first_scalar(bytes));
    assert(decode_first_scalar(bytes) == c as u32);
    assert(length_of_first_scalar(bytes) == head.len());
    char_u32_cast(c, c as u32);
    assert(bytes.skip(head.len() as int) =~= rest);
}

/// The three bytes of a surrogate are read as this surrogate, whatever follows.
pub proof fn surrogates_are_read_from_the_front(cp: u32, rest: Seq<u8>)
    requires
        0xd800 <= cp <= 0xdfff,
    ensures
        ({
            let head = seq![0xedu8, (0x80 + (cp / 64) % 64) as u8, (0x80 + cp % 64) as u8];
            decode::units_of(head + rest) == seq![Unit::Surrogate(cp)] + decode::units_of(rest)
        }),
{
    let b1: u8 = 0xed;
    let b2: u8 = (0x80 + (cp / 64) % 64) as u8;
    let b3: u8 = (0x80 + cp % 64) as u8;
    let head = seq![b1, b2, b3];
    let bytes = head + rest;
    assert(bytes[0] == b1 && bytes[1] == b2 && bytes[2] == b3);
    assert(b2 == (0x80u32 + (cp / 64) % 64) as u8);
    assert(b3 == (0x80u32 + cp % 64) as u8);
    assert(is_leading_byte_width_3(0xedu8)) by (bit_vector);
    assert(is_continuation_byte(b2) && is_continuation_byte(b3) && codepoint_width_3(0xedu8, b2, b3)
        == cp) by (bit_vector)
        requires
            0xd800 <= cp <= 0xdfff,
            b2 == (0x80u32 + (cp / 64) % 64) as u8,
            b3 == (0x80u32 + cp % 64) as u8,
    ;
    assert(!is_leading_byte_width_1(0xedu8) && !is_leading_byte_width_2(0xedu8)) by (bit_vector);
    assert(!valid_first_scalar(bytes));
    assert(decode::begins_with_surrogate(bytes));
    assert(bytes.skip(3) =~= rest);
}

/// The scripts of an identifier are those of the characters of its canonical value that are no
/// noncharacters, but for Common, Inherited and Unknown; each is listed once.
pub proof fn scripts_are_those_of_the_canonical_value(
    bytes: Seq<u8>,
    cfg: RuleConfigModel,
    code: Seq<char>,
)
    ensures
        ({
            let trace = unicode::trace_of(bytes, cfg);
            &&& trace.scripts.no_duplicates()
            &&& trace.scripts.contains(code) <==> code != "Zyyy"@ && code != "Zinh"@ && code
                != "Zzzz"@ && exists|k: int|
                0 <= k < trace.canonical.len() && tables::script_code_of(
                    #[trigger] trace.canonical[k],
                ) == code && !decode::noncharacter(trace.canonical[k] as u32)
        }),
{
    let value = unicode::trace_of(bytes, cfg).canonical;
    lemma_scripts(value, unicode::script_codes(value), code);
    let codes = unicode::script_codes(value);
    assert forall|k: int| 0 <= k < value.len() implies #[trigger] codes[k]
        == tables::script_code_of(value[k]) by {}
    if exists|k: int|
        0 <= k < value.len() && tables::script_code_of(#[trigger] value[k]) == code
            && !decode::noncharacter(value[k] as u32) {
        let k = choose|k: int|
            0 <= k < value.len() && tables::script_code_of(#[trigger] value[k]) == code
                && !decode::noncharacter(value[k] as u32);
        assert(codes[k] == code);
    }
    if exists|k: int|
        0 <= k < value.len() && #[trigger] codes[k] == code && !decode::noncharacter(
            value[k] as u32,
        ) {
        let k = choose|k: int|
            0 <= k < value.len() && #[trigger] codes[k] == code && !decode::noncharacter(
                value[k] as u32,
            );
        assert(tables::script_code_of(value[k]) == code);
    }
}

proof fn lemma_scripts(chars: Seq<char>, codes: Seq<Seq<char>>, code: Seq<char>)
    requires
        chars.len() <= codes.len(),
    ensures
        stages::scripts_of(chars, codes).no_duplicates(),
        stages::scripts_of(chars, codes).contains(code) <==> stages::counts_as_script(code)
            && exists|k: int|
            0 <= k < chars.len() && #[trigger] codes[k] == code && !decode::noncharacter(
                chars[k] as u32,
            ),
    decreases chars.len(),
{
    if chars.len() > 0 {
        let front = chars.drop_last();
        let last = chars.len() - 1;
        let before = stages::scripts_of(front, codes);
        let all = stages::scripts_of(chars, codes);
        lemma_scripts(front, codes, code);
        lemma_scripts(front, codes, codes[last]);
        assert(all.contains(code) <==> before.contains(code) || (all != before && code
            == codes[last])) by {
            if before.contains(code) {
                let k = choose|k: int| 0 <= k < before.len() && before[k] == code;
                assert(all[k] == code);
            }
            if all != before {
                assert(all[all.len() - 1] == codes[last]);
            }
            if all.contains(code) {
                let k = choose|k: int| 0 <= k < all.len() && all[k] == code;
                if k < before.len() {
                    assert(before[k] == code);
                }
            }
        }
        if all.len() > before.len() {
            assert forall|a: int, b: int|
                0 <= a < all.len() && 0 <= b < all.len() && a != b implies all[a] != all[b] by {
                if a == all.len() - 1 {
                    assert(before[b] == all[b]);
                    assert(before.contains(all[b]));
                } else if b == all.len() - 1 {
                    assert(before[a] == all[a]);
                    assert(before.contains(all[a]));
                } else {
                    assert(before[a] == all[a] && before[b] == all[b]);
                }
            }
        }
        if exists|k: int|
            0 <= k < front.len() && #[trigger] codes[k] == code && !decode::noncharacter(
                front[k] as u32,
            ) {
            let k = choose|k: int|
                0 <= k < front.len() && #[trigger] codes[k] == code && !decode::noncharacter(
                    front[k] as u32,
                );
            assert(chars[k] == front[k]);
            assert(codes[k] == code && !decode::noncharacter(chars[k] as u32));
        }
        if exists|k: int|
            0 <= k < chars.len() && #[trigger] codes[k] == code && !decode::noncharacter(
                chars[k] as u32,
            ) {
            let k = choose|k: int|
                0 <= k < chars.len() && #[trigger] codes[k] == code && !decode::noncharacter(
                    chars[k] as u32,
                );
            if k < last {
                assert(front[k] == chars[k]);
            }
        }
        if all.len() > before.len() {
            assert(codes[last] == codes[last] && !decode::noncharacter(chars[last] as u32));
        }
    }
}

/// Scripts are mixed if there are two of them; a restriction to a known script is violated if there is
/// another.
pub proof fn script_verdicts_are_exact(bytes: Seq<u8>, cfg: RuleConfigModel)
    ensures
        ({
            let trace = unicode::trace_of(bytes, cfg);
            &&& trace.mixed_script <==> exists|a: Seq<char>, b: Seq<char>|
                a != b && #[trigger] trace.scripts.contains(a) && #[trigger] trace.scripts.contains(
                    b,
                )
            &&& trace.restriction_violated <==> exists|code: Seq<char>, found: Seq<char>|
                cfg.restrict_script == Some(code) && #[trigger] tables::is_script_code(code)
                    && #[trigger] trace.scripts.contains(found) && found != code
        }),
{
    let trace = unicode::trace_of(bytes, cfg);
    let all = trace.scripts;
    scripts_are_those_of_the_canonical_value(bytes, cfg, seq![]);
    if trace.mixed_script {
        assert(all[0] != all[1]);
        assert(all.contains(all[0]) && all.contains(all[1]));
    }
    if exists|a: Seq<char>, b: Seq<char>|
        a != b && #[trigger] all.contains(a) && #[trigger] all.contains(b) {
        let (a, b) = choose|a: Seq<char>, b: Seq<char>|
            a != b && #[trigger] all.contains(a) && #[trigger] all.contains(b);
        let i = choose|i: int| 0 <= i < all.len() && all[i] == a;
        let j = choose|j: int| 0 <= j < all.len() && all[j] == b;
        assert(i != j);
    }
    if trace.restriction_violated {
        let code = cfg.restrict_script->0;
        let i = choose|i: int| 0 <= i < all.len() && all[i] != code;
        assert(tables::is_script_code(code) && all.contains(all[i]));
    }
    if exists|code: Seq<char>, found: Seq<char>|
        cfg.restrict_script == Some(code) && #[trigger] tables::is_script_code(code)
            && #[trigger] all.contains(found) && found != code {
        let (code, found) = choose|code: Seq<char>, found: Seq<char>|
            cfg.restrict_script == Some(code) && #[trigger] tables::is_script_code(code)
                && #[trigger] all.contains(found) && found != code;
        let i = choose|i: int| 0 <= i < all.len() && all[i] == found;
        assert(stages::violates(all, code));
    }
}

/// The report of several scripts names them, and the report of a violated restriction names the script
/// that is allowed.
pub proof fn script_reports_are_exact(bytes: Seq<u8>, cfg: RuleConfigModel, k: int)
    requires
        0 <= k < unicode::trace_of(bytes, cfg).issues.len(),
    ensures
        ({
            let trace = unicode::trace_of(bytes, cfg);
            &&& trace.issues[k] matches IssueModel::MixedScript { scripts } ==> scripts
                == trace.scripts
            &&& trace.issues[k] matches IssueModel::ScriptRestriction { found, allowed } ==> {
                &&& found == text::joined(trace.scripts, "+"@)
                &&& cfg.restrict_script == Some(allowed)
            }
        }),
{
    let trace = unicode::trace_of(bytes, cfg);
    let units = decode::units_of(bytes);
    let raw = stages::raw_issues(units);
    let scalar = stages::scalar_issues(stages::scalar_chars(units));
    lemma_raw_kinds(units);
    lemma_scalar_kinds(stages::scalar_chars(units));
    if k < raw.len() {
        assert(trace.issues[k] == raw[k]);
    } else if k < raw.len() + scalar.len() {
        assert(trace.issues[k] == scalar[k - raw.len()]);
    }
}

proof fn lemma_raw_kinds(units: Seq<Unit>)
    ensures
        forall|k: int|
            0 <= k < stages::raw_issues(units).len() ==> (#[trigger] stages::raw_issues(
                units,
            )[k]) is LoneSurrogate || stages::raw_issues(units)[k] is InvalidUtf8,
    decreases units.len(),
{
    if units.len() > 0 {
        let before = stages::raw_issues(units.drop_last());
        let all = stages::raw_issues(units);
        lemma_raw_kinds(units.drop_last());
        assert forall|k: int| 0 <= k < all.len() implies (#[trigger] all[k]) is LoneSurrogate
            || all[k] is InvalidUtf8 by {
            if k < before.len() {
                assert(all[k] == before[k]);
            }
        }
    }
}

proof fn lemma_scalar_kinds(chars: Seq<char>)
    ensures
        forall|k: int|
            0 <= k < stages::scalar_issues(chars).len() ==> (#[trigger] stages::scalar_issues(
                chars,
            )[k]) is Noncharacter,
    decreases chars.len(),
{
    if chars.len() > 0 {
        let before = stages::scalar_issues(chars.drop_last());
        let all = stages::scalar_issues(chars);
        lemma_scalar_kinds(chars.drop_last());
        assert forall|k: int| 0 <= k < all.len() implies (#[trigger] all[k]) is Noncharacter by {
            if k < before.len() {
                assert(all[k] == before[k]);
            }
        }
    }
}

/// A stage that changed a text keeps to what the two have in common: its units come from where the texts
/// are aligned, and a unit that is not the one that it comes from has a note.
pub open spec fn aligned(
    stage: StageModel,
    before: Seq<char>,
    now: Seq<char>,
    note: spec_fn(char, char) -> Seq<char>,
) -> bool {
    &&& stage.provenance == align::alignment(before, now)
    &&& stage.notes.len() == now.len()
    &&& forall|j: int|
        0 <= j < now.len() ==> #[trigger] stage.notes[j] == {
            let from = stage.provenance[j] as int;
            if from < before.len() && before[from] != now[j] {
                note(before[from], now[j])
            } else {
                seq![]
            }
        }
}

/// What a stage says of each unit: the raw stage of bytes and surrogates, the scalar stage of
/// noncharacters, folding and normalization of characters that they changed, and stripping nothing.
pub proof fn stages_note_what_they_changed(bytes: Seq<u8>, cfg: RuleConfigModel)
    ensures
        ({
            let trace = unicode::trace_of(bytes, cfg);
            let units = decode::units_of(bytes);
            let scalars = units.filter(|u: Unit| is_scalar_unit(u)).map_values(
                |u: Unit| u->Scalar_0,
            );
            let fold = unicode::folded(cfg, scalars);
            let strip = unicode::stripped(cfg, fold);
            let form = match cfg.normalization {
                Normalization::Nfc => "NFC"@,
                Normalization::Nfkc => "NFKC"@,
            };
            &&& trace.stages[0].notes.len() == units.len()
            &&& forall|i: int|
                0 <= i < units.len() ==> #[trigger] trace.stages[0].notes[i] == match units[i] {
                    Unit::Scalar(_) => seq![],
                    Unit::Surrogate(cp) => "lone surrogate "@ + text::u_plus_text(cp as nat),
                    Unit::InvalidByte(b) => "invalid UTF-8 lead/trail byte 0x"@
                        + text::upper_hex_text(b as nat, 2),
                }
            &&& trace.stages[1].notes.len() == scalars.len()
            &&& forall|i: int|
                0 <= i < scalars.len() ==> #[trigger] trace.stages[1].notes[i] == (
                if decode::noncharacter(scalars[i] as u32) {
                    "noncharacter "@ + text::u_plus_text(scalars[i] as u32 as nat)
                } else {
                    seq![]
                })
            &&& cfg.case_fold ==> aligned(
                trace.stages[2],
                scalars,
                fold,
                |from: char, to: char|
                    "case fold: "@ + text::u_plus_text(from as u32 as nat) + " \u{2192} "@
                        + text::u_plus_text(to as u32 as nat),
            )
            &&& aligned(
                trace.stages[4],
                strip,
                trace.canonical,
                |from: char, to: char|
                    form + " \u{2192} "@ + text::u_plus_text(to as u32 as nat),
            )
            &&& forall|i: int|
                0 <= i < trace.stages[3].notes.len() ==> (#[trigger] trace.stages[3].notes[i])
                    == Seq::<char>::empty()
            &&& trace.stages[3].notes.len() == strip.len()
        }),
{
    lemma_scalars(decode::units_of(bytes));
}

/// A number of the codespace as a unit.
pub open spec fn unit_of(n: u32) -> Unit {
    if 0xd800 <= n <= 0xdfff {
        Unit::Surrogate(n)
    } else {
        Unit::Scalar(n as char)
    }
}

proof fn lemma_code_point_bytes(n: u32, rest: Seq<u8>)
    requires
        n <= 0x10ffff,
    ensures
        decode::units_of(source::code_point_bytes(n) + rest) == seq![unit_of(n)]
            + decode::units_of(rest),
{
    if 0xd800 <= n <= 0xdfff {
        let head = seq![0xedu8, (0x80 + (n / 64) % 64) as u8, (0x80 + n % 64) as u8];
        surrogates_are_read_from_the_front(n, rest);
        assert((n / 64) % 64 == 0x20 + (n - 0xd800) / 64);
        assert(n % 64 == (n - 0xd800) % 64);
        assert(source::code_point_bytes(n) =~= head);
    } else {
        let c = n as char;
        assert(is_scalar(n));
        assert(c as u32 == n);
        characters_are_read_from_the_front(c, rest);
        assert(seq![c].drop_first() =~= seq![]);
        assert(encode_utf8(seq![c].drop_first()) =~= seq![]);
        assert(encode_utf8(seq![c]) =~= encode_scalar(n));
    }
}

/// The bytes of a list of code points are read back as these code points, surrogates among them.
pub proof fn bytes_of_code_points_are_read_back(numbers: Seq<u32>, rest: Seq<u8>)
    requires
        forall|i: int| 0 <= i < numbers.len() ==> #[trigger] numbers[i] <= 0x10ffff,
    ensures
        decode::units_of(source::wtf8_bytes(numbers) + rest) == Seq::new(
            numbers.len(),
            |i: int| unit_of(numbers[i]),
        ) + decode::units_of(rest),
    decreases numbers.len(),
{
    let units = Seq::new(numbers.len(), |i: int| unit_of(numbers[i]));
    if numbers.len() == 0 {
        assert(source::wtf8_bytes(numbers) + rest =~= rest);
        assert(units + decode::units_of(rest) =~= decode::units_of(rest));
    } else {
        let front = numbers.drop_last();
        let last = numbers[numbers.len() - 1];
        let after = source::code_point_bytes(last) + rest;
        bytes_of_code_points_are_read_back(front, after);
        lemma_code_point_bytes(last, rest);
        assert(source::wtf8_bytes(numbers) + rest =~= source::wtf8_bytes(front) + after);
        assert(units + decode::units_of(rest) =~= Seq::new(
            front.len(),
            |i: int| unit_of(front[i]),
        ) + (seq![unit_of(last)] + decode::units_of(rest)));
    }
}

} // verus!

//! The single stages of the pipeline, and the script report over its result.

use vstd::prelude::*;

use crate::align;
use crate::align::lcs_align;
use crate::decode;
use crate::decode::{is_noncharacter, Unit};
use crate::text;
use crate::text::{join, push_upper_hex, str_eq, u_plus, Duplicate};
use crate::unicode;
use crate::unicode::{Issue, IssueModel, JsonUnit, Normalization, StageModel, StageView};

verus! {

/// The positions that are marked, in ascending order.
pub open spec fn positions(marks: Seq<bool>) -> Seq<usize>
    decreases marks.len(),
{
    if marks.len() == 0 {
        seq![]
    } else if marks.last() {
        positions(marks.drop_last()).push((marks.len() - 1) as usize)
    } else {
        positions(marks.drop_last())
    }
}

/// The elements at the marked positions, in order.
pub open spec fn marked<T>(s: Seq<T>, marks: Seq<bool>) -> Seq<T>
    decreases marks.len(),
{
    if marks.len() == 0 {
        seq![]
    } else if marks.last() {
        marked(s, marks.drop_last()).push(s[marks.len() - 1])
    } else {
        marked(s, marks.drop_last())
    }
}

/// The marked positions ascend, and hold the marked elements.
pub proof fn lemma_positions<T>(s: Seq<T>, marks: Seq<bool>)
    requires
        marks.len() <= s.len(),
        marks.len() <= usize::MAX,
    ensures
        positions(marks).len() == marked(s, marks).len(),
        positions(marks).len() <= marks.len(),
        forall|k: int|
            0 <= k < positions(marks).len() ==> {
                &&& (#[trigger] positions(marks)[k]) < marks.len()
                &&& marks[positions(marks)[k] as int]
                &&& marked(s, marks)[k] == s[positions(marks)[k] as int]
            },
        forall|a: int, b: int|
            0 <= a < b < positions(marks).len() ==> #[trigger] positions(marks)[a]
                < #[trigger] positions(marks)[b],
    decreases marks.len(),
{
    if marks.len() > 0 {
        lemma_positions(s, marks.drop_last());
    }
}

/// The numbers below `n`.
pub open spec fn identity_positions(n: nat) -> Seq<usize> {
    Seq::new(n, |i: int| i as usize)
}

/// Units by their numbers.
pub open spec fn json_units(units: Seq<Unit>) -> Seq<JsonUnit> {
    Seq::new(units.len(), |i: int| unicode::json_unit(units[i]))
}

/// Characters by their numbers, as units.
pub open spec fn json_scalars(chars: Seq<char>) -> Seq<JsonUnit> {
    Seq::new(chars.len(), |i: int| JsonUnit::Scalar(chars[i] as u32))
}

/// No note for any of `n` units.
pub open spec fn no_notes(n: nat) -> Seq<Seq<char>> {
    Seq::new(n, |i: int| Seq::<char>::empty())
}

/// The note on a unit of the raw stage.
pub open spec fn raw_note(u: Unit) -> Seq<char> {
    match u {
        Unit::Scalar(_) => Seq::empty(),
        Unit::Surrogate(cp) => "lone surrogate "@ + text::u_plus_text(cp as nat),
        Unit::InvalidByte(b) => "invalid UTF-8 lead/trail byte 0x"@ + text::upper_hex_text(
            b as nat,
            2,
        ),
    }
}

/// The raw stage.
pub open spec fn raw_view(units: Seq<Unit>) -> StageModel {
    StageModel {
        name: "raw"@,
        units: json_units(units),
        provenance: identity_positions(units.len()),
        notes: Seq::new(units.len(), |i: int| raw_note(units[i])),
    }
}

/// The issues of the raw stage: its invalid bytes and lone surrogates, in order.
pub open spec fn raw_issues(units: Seq<Unit>) -> Seq<IssueModel>
    decreases units.len(),
{
    if units.len() == 0 {
        seq![]
    } else {
        let before = raw_issues(units.drop_last());
        let index = (units.len() - 1) as usize;
        match units.last() {
            Unit::Scalar(_) => before,
            Unit::Surrogate(cp) => before.push(IssueModel::LoneSurrogate { index, cp }),
            Unit::InvalidByte(byte) => before.push(IssueModel::InvalidUtf8 { index, byte }),
        }
    }
}

/// A copy of the numbers of the units.
fn units_by_number(units: &[Unit]) -> (r: Vec<JsonUnit>)
    ensures
        r@ == json_units(units@),
{
    let mut out: Vec<JsonUnit> = Vec::new();
    for i in 0..units.len()
        invariant
            out@ == json_units(units@.take(i as int)),
    {
        out.push(JsonUnit::of(units[i]));
        proof {
            assert(out@ =~= json_units(units@.take(i + 1)));
        }
    }
    proof {
        assert(units@.take(units@.len() as int) =~= units@);
    }
    out
}

fn scalars_by_number(chars: &[char]) -> (r: Vec<JsonUnit>)
    ensures
        r@ == json_scalars(chars@),
{
    let mut out: Vec<JsonUnit> = Vec::new();
    for i in 0..chars.len()
        invariant
            out@ == json_scalars(chars@.take(i as int)),
    {
        out.push(JsonUnit::Scalar(chars[i] as u32));
        proof {
            assert(out@ =~= json_scalars(chars@.take(i + 1)));
        }
    }
    proof {
        assert(chars@.take(chars@.len() as int) =~= chars@);
    }
    out
}

fn numbers_below(n: usize) -> (r: Vec<usize>)
    ensures
        r@ == identity_positions(n as nat),
{
    let mut out: Vec<usize> = Vec::new();
    for i in 0..n
        invariant
            out@ == identity_positions(i as nat),
    {
        out.push(i);
        proof {
            assert(out@ =~= identity_positions((i + 1) as nat));
        }
    }
    out
}

fn empty_notes(n: usize) -> (r: Vec<String>)
    ensures
        r.deep_view() == no_notes(n as nat),
{
    let mut out: Vec<String> = Vec::new();
    for i in 0..n
        invariant
            out@.len() == i,
            forall|k: int| 0 <= k < i ==> (#[trigger] out@[k])@ == Seq::<char>::empty(),
    {
        out.push(String::new());
    }
    proof {
        assert(out.deep_view() =~= no_notes(n as nat));
    }
    out
}

/// The raw stage over the units that the bytes were decoded to, with the issues it finds.
pub fn raw_stage(units: &[Unit]) -> (r: (StageView, Vec<Issue>))
    ensures
        r.0.deep_view() == raw_view(units@),
        r.1.deep_view() == raw_issues(units@),
{
    broadcast use {text::lemma_models_push, text::lemma_vec_model};

    let mut notes: Vec<String> = Vec::new();
    let mut issues: Vec<Issue> = Vec::new();
    proof {
        assert(units@.take(0) =~= Seq::<Unit>::empty());
        assert(text::models(issues@) =~= Seq::<IssueModel>::empty());
    }
    for i in 0..units.len()
        invariant
            notes@.len() == i,
            forall|k: int| 0 <= k < i ==> (#[trigger] notes@[k])@ == raw_note(units@[k]),
            text::models(issues@) == raw_issues(units@.take(i as int)),
    {
        let ghost upto = units@.take(i + 1);
        proof {
            assert(upto.drop_last() =~= units@.take(i as int));
            assert(upto.last() == units@[i as int]);
        }
        let mut note = String::new();
        match units[i] {
            Unit::Scalar(_) => {
                proof {
                    assert(note@ =~= Seq::<char>::empty());
                }
            },
            Unit::Surrogate(cp) => {
                note.push_str("lone surrogate ");
                note.push_str(u_plus(cp).as_str());
                issues.push(Issue::LoneSurrogate { index: i, cp });
                proof {
                    assert(note@ =~= raw_note(units@[i as int]));
                }
            },
            Unit::InvalidByte(byte) => {
                note.push_str("invalid UTF-8 lead/trail byte 0x");
                push_upper_hex(&mut note, byte as u64, 2);
                issues.push(Issue::InvalidUtf8 { index: i, byte });
                proof {
                    assert(note@ =~= raw_note(units@[i as int]));
                }
            },
        }
        notes.push(note);
    }
    let stage = StageView {
        name: "raw".to_owned(),
        units: units_by_number(units),
        provenance: numbers_below(units.len()),
        notes,
    };
    proof {
        assert(units@.take(units@.len() as int) =~= units@);
        assert(stage.deep_view() =~~= raw_view(units@));
    }
    (stage, issues)
}

/// Which units are scalar values.
pub open spec fn scalar_marks(units: Seq<Unit>) -> Seq<bool> {
    Seq::new(units.len(), |i: int| units[i] is Scalar)
}

/// The characters of the scalar units, in order.
pub open spec fn scalar_chars(units: Seq<Unit>) -> Seq<char>
    decreases units.len(),
{
    if units.len() == 0 {
        seq![]
    } else {
        match units.last() {
            Unit::Scalar(c) => scalar_chars(units.drop_last()).push(c),
            _ => scalar_chars(units.drop_last()),
        }
    }
}

/// The note on a character of the scalar stage.
pub open spec fn scalar_note(c: char) -> Seq<char> {
    if decode::noncharacter(c as u32) {
        "noncharacter "@ + text::u_plus_text(c as u32 as nat)
    } else {
        Seq::empty()
    }
}

/// The scalar stage.
pub open spec fn scalar_view(units: Seq<Unit>) -> StageModel {
    let chars = scalar_chars(units);
    StageModel {
        name: "scalars"@,
        units: json_scalars(chars),
        provenance: positions(scalar_marks(units)),
        notes: Seq::new(chars.len(), |i: int| scalar_note(chars[i])),
    }
}

/// The issues of the scalar stage: its noncharacters, in order.
pub open spec fn scalar_issues(chars: Seq<char>) -> Seq<IssueModel>
    decreases chars.len(),
{
    if chars.len() == 0 {
        seq![]
    } else {
        let before = scalar_issues(chars.drop_last());
        if decode::noncharacter(chars.last() as u32) {
            before.push(
                IssueModel::Noncharacter {
                    index: (chars.len() - 1) as usize,
                    cp: chars.last() as u32,
                },
            )
        } else {
            before
        }
    }
}

/// The scalar stage over the units of the raw stage: what it shows, the characters that go on, and
/// the issues it finds.
pub fn scalar_stage(units: &[Unit]) -> (r: (StageView, Vec<char>, Vec<Issue>))
    ensures
        r.0.deep_view() == scalar_view(units@),
        r.1@ == scalar_chars(units@),
        r.2.deep_view() == scalar_issues(scalar_chars(units@)),
{
    broadcast use {text::lemma_models_push, text::lemma_vec_model};

    let mut chars: Vec<char> = Vec::new();
    let mut provenance: Vec<usize> = Vec::new();
    let mut notes: Vec<String> = Vec::new();
    let mut issues: Vec<Issue> = Vec::new();
    proof {
        assert(units@.take(0) =~= Seq::<Unit>::empty());
        assert(scalar_marks(units@.take(0)) =~= Seq::<bool>::empty());
        assert(text::models(issues@) =~= Seq::<IssueModel>::empty());
    }
    for i in 0..units.len()
        invariant
            chars@ == scalar_chars(units@.take(i as int)),
            provenance@ == positions(scalar_marks(units@.take(i as int))),
            chars@.len() <= i,
            notes@.len() == chars@.len(),
            forall|k: int| 0 <= k < notes@.len() ==> (#[trigger] notes@[k])@ == scalar_note(chars@[k]),
            text::models(issues@) == scalar_issues(chars@),
    {
        let ghost upto = units@.take(i + 1);
        proof {
            assert(upto.drop_last() =~= units@.take(i as int));
            assert(upto.last() == units@[i as int]);
            assert(scalar_marks(upto).drop_last() =~= scalar_marks(units@.take(i as int)));
            assert(scalar_marks(upto).last() == (units@[i as int] is Scalar));
        }
        if let Some(c) = units[i].as_char() {
            let cp = c as u32;
            let ghost before = chars@;
            let mut note = String::new();
            if is_noncharacter(cp) {
                note.push_str("noncharacter ");
                note.push_str(u_plus(cp).as_str());
                issues.push(Issue::Noncharacter { index: chars.len(), cp });
            }
            proof {
                assert(note@ =~= scalar_note(c));
            }
            chars.push(c);
            provenance.push(i);
            notes.push(note);
            proof {
                assert(chars@.drop_last() =~= before);
            }
        }
    }
    let stage = StageView {
        name: "scalars".to_owned(),
        units: scalars_by_number(chars.as_slice()),
        provenance,
        notes,
    };
    proof {
        assert(units@.take(units@.len() as int) =~= units@);
        assert(stage.deep_view() =~~= scalar_view(units@));
    }
    (stage, chars, issues)
}

/// A stage that passes every character on unchanged.
pub open spec fn kept_view(name: Seq<char>, chars: Seq<char>) -> StageModel {
    StageModel {
        name,
        units: json_scalars(chars),
        provenance: identity_positions(chars.len()),
        notes: no_notes(chars.len()),
    }
}

/// A stage that passes every character on unchanged.
pub fn kept_stage(name: &str, chars: &[char]) -> (r: StageView)
    ensures
        r.deep_view() == kept_view(name@, chars@),
{
    StageView {
        name: name.to_owned(),
        units: scalars_by_number(chars),
        provenance: numbers_below(chars.len()),
        notes: empty_notes(chars.len()),
    }
}

/// Character `j` of `next` is not the one that it is aligned with.
pub open spec fn changed(prev: Seq<char>, next: Seq<char>, j: int) -> bool {
    let p = align::alignment(prev, next)[j] as int;
    p < prev.len() && prev[p] != next[j]
}

/// The note on a character that folding put in the place of another.
pub open spec fn fold_note(from: char, to: char) -> Seq<char> {
    "case fold: "@ + text::u_plus_text(from as u32 as nat) + " \u{2192} "@ + text::u_plus_text(to as u32 as nat)
}

/// The note on a character that a normalization form put in the place of another.
pub open spec fn normalize_note(form: Normalization, to: char) -> Seq<char> {
    form.name() + " \u{2192} "@ + text::u_plus_text(to as u32 as nat)
}

/// The case folding stage, from `prev` to its folding `next`.
pub open spec fn fold_view(prev: Seq<char>, next: Seq<char>) -> StageModel {
    StageModel {
        name: "case_fold"@,
        units: json_scalars(next),
        provenance: align::alignment(prev, next),
        notes: Seq::new(
            next.len(),
            |j: int|
                if changed(prev, next, j) {
                    fold_note(prev[align::alignment(prev, next)[j] as int], next[j])
                } else {
                    Seq::empty()
                },
        ),
    }
}

/// The normalization stage, from `prev` to its form `next`.
pub open spec fn normalize_view(form: Normalization, prev: Seq<char>, next: Seq<char>) -> StageModel {
    StageModel {
        name: "normalize"@,
        units: json_scalars(next),
        provenance: align::alignment(prev, next),
        notes: Seq::new(
            next.len(),
            |j: int|
                if changed(prev, next, j) {
                    normalize_note(form, next[j])
                } else {
                    Seq::empty()
                },
        ),
    }
}

/// The case folding stage over the characters `prev`, whose folding is `next`.
pub fn fold_stage(prev: &[char], next: &[char]) -> (r: StageView)
    ensures
        r.deep_view() == fold_view(prev@, next@),
{
    let provenance = lcs_align(prev, next);
    let n = prev.len();
    proof {
        align::alignment_indexes_prev(prev@, next@);
    }
    let mut notes: Vec<String> = Vec::new();
    for j in 0..next.len()
        invariant
            n == prev@.len(),
            provenance@ == align::alignment(prev@, next@),
            provenance@.len() == next@.len(),
            notes@.len() == j,
            forall|k: int|
                0 <= k < j ==> (#[trigger] notes@[k])@ == fold_view(prev@, next@).notes[k],
    {
        let p: usize = provenance[j];
        let to: char = next[j];
        let mut note = String::new();
        if p < n && prev[p] != to {
            let from: char = prev[p];
            note.push_str("case fold: ");
            note.push_str(u_plus(from as u32).as_str());
            note.push_str(" \u{2192} ");
            note.push_str(u_plus(to as u32).as_str());
            proof {
                assert(note@ =~= fold_note(prev@[p as int], next@[j as int]));
            }
        }
        proof {
            assert(note@ =~= fold_view(prev@, next@).notes[j as int]);
        }
        notes.push(note);
    }
    let stage = StageView {
        name: "case_fold".to_owned(),
        units: scalars_by_number(next),
        provenance,
        notes,
    };
    proof {
        assert(stage.deep_view() =~~= fold_view(prev@, next@));
    }
    stage
}

/// The normalization stage over the characters `prev`, whose form is `next`.
pub fn normalize_stage(form: Normalization, prev: &[char], next: &[char]) -> (r: StageView)
    ensures
        r.deep_view() == normalize_view(form, prev@, next@),
{
    let provenance = lcs_align(prev, next);
    let n = prev.len();
    proof {
        align::alignment_indexes_prev(prev@, next@);
    }
    let mut notes: Vec<String> = Vec::new();
    for j in 0..next.len()
        invariant
            n == prev@.len(),
            provenance@ == align::alignment(prev@, next@),
            provenance@.len() == next@.len(),
            notes@.len() == j,
            forall|k: int|
                0 <= k < j ==> (#[trigger] notes@[k])@ == normalize_view(
                    form,
                    prev@,
                    next@,
                ).notes[k],
    {
        let p: usize = provenance[j];
        let to: char = next[j];
        let mut note = String::new();
        if p < n && prev[p] != to {
            note.push_str(form.as_str());
            note.push_str(" \u{2192} ");
            note.push_str(u_plus(to as u32).as_str());
            proof {
                assert(note@ =~= normalize_note(form, next@[j as int]));
            }
        }
        proof {
            assert(note@ =~= normalize_view(form, prev@, next@).notes[j as int]);
        }
        notes.push(note);
    }
    let stage = StageView {
        name: "normalize".to_owned(),
        units: scalars_by_number(next),
        provenance,
        notes,
    };
    proof {
        assert(stage.deep_view() =~~= normalize_view(form, prev@, next@));
    }
    stage
}

/// The stripping stage keeps what is not to be stripped.
pub open spec fn strip_view(chars: Seq<char>, keep: Seq<bool>) -> StageModel {
    StageModel {
        name: "strip_ignorable"@,
        units: json_scalars(marked(chars, keep)),
        provenance: positions(keep),
        notes: no_notes(marked(chars, keep).len()),
    }
}

/// The stripping stage over characters of which those marked in `keep` go on: what it shows, and
/// the characters that go on.
pub fn strip_stage(chars: &[char], keep: &[bool]) -> (r: (StageView, Vec<char>))
    requires
        keep@.len() == chars@.len(),
    ensures
        r.0.deep_view() == strip_view(chars@, keep@),
        r.1@ == marked(chars@, keep@),
{
    let mut kept: Vec<char> = Vec::new();
    let mut provenance: Vec<usize> = Vec::new();
    for i in 0..keep.len()
        invariant
            keep@.len() == chars@.len(),
            kept@ == marked(chars@, keep@.take(i as int)),
            provenance@ == positions(keep@.take(i as int)),
    {
        proof {
            let upto = keep@.take(i + 1);
            assert(upto.drop_last() =~= keep@.take(i as int));
            assert(upto.last() == keep@[i as int]);
        }
        if keep[i] {
            kept.push(chars[i]);
            provenance.push(i);
        }
    }
    proof {
        assert(keep@.take(keep@.len() as int) =~= keep@);
    }
    let stage = StageView {
        name: "strip_ignorable".to_owned(),
        units: scalars_by_number(kept.as_slice()),
        provenance,
        notes: empty_notes(kept.len()),
    };
    (stage, kept)
}

/// A script counts unless it is Common, Inherited or Unknown.
pub open spec fn counts_as_script(code: Seq<char>) -> bool {
    code != "Zyyy"@ && code != "Zinh"@ && code != "Zzzz"@
}

/// The scripts of a text, each once, in the order in which they first occur; `codes` holds the
/// script code of each character. Noncharacters have no script.
pub open spec fn scripts_of(chars: Seq<char>, codes: Seq<Seq<char>>) -> Seq<Seq<char>>
    decreases chars.len(),
{
    if chars.len() == 0 {
        seq![]
    } else {
        let before = scripts_of(chars.drop_last(), codes);
        let code = codes[chars.len() - 1];
        if !decode::noncharacter(chars.last() as u32) && counts_as_script(code) && !before.contains(
            code,
        ) {
            before.push(code)
        } else {
            before
        }
    }
}

/// Some script is not the one that the identifier is restricted to.
pub open spec fn violates(scripts: Seq<Seq<char>>, allowed: Seq<char>) -> bool {
    exists|i: int| 0 <= i < scripts.len() && scripts[i] != allowed
}

/// The script issues: that there is more than one script, and that one is not the allowed one.
pub open spec fn script_issues(
    scripts: Seq<Seq<char>>,
    allowed: Option<Seq<char>>,
) -> Seq<IssueModel> {
    let mixed = if scripts.len() > 1 {
        seq![IssueModel::MixedScript { scripts }]
    } else {
        seq![]
    };
    match allowed {
        Some(code) if violates(scripts, code) => mixed.push(
            IssueModel::ScriptRestriction { found: text::joined(scripts, "+"@), allowed: code },
        ),
        _ => mixed,
    }
}

fn holds_name(names: &Vec<String>, name: &str) -> (r: bool)
    ensures
        r == names.deep_view().contains(name@),
{
    for i in 0..names.len()
        invariant
            forall|k: int| 0 <= k < i ==> names.deep_view()[k] != name@,
    {
        if str_eq(names[i].as_str(), name) {
            proof {
                assert(names.deep_view()[i as int] == name@);
            }
            return true;
        }
    }
    false
}

/// What the script report says.
pub struct ScriptReport {
    pub scripts: Vec<String>,
    pub mixed_script: bool,
    pub restriction_violated: bool,
    pub issues: Vec<Issue>,
}

/// The script report over characters whose script codes are `codes`; `allowed` is the script that
/// the identifier is restricted to.
pub fn script_report(chars: &[char], codes: &Vec<String>, allowed: Option<&String>) -> (r:
    ScriptReport)
    requires
        codes@.len() == chars@.len(),
    ensures
        r.scripts.deep_view() == scripts_of(chars@, codes.deep_view()),
        r.mixed_script == (scripts_of(chars@, codes.deep_view()).len() > 1),
        r.restriction_violated == (allowed is Some && violates(
            scripts_of(chars@, codes.deep_view()),
            allowed->0@,
        )),
        r.issues.deep_view() == script_issues(
            scripts_of(chars@, codes.deep_view()),
            match allowed {
                Some(code) => Some(code@),
                None => None,
            },
        ),
{
    broadcast use {text::lemma_models_push, text::lemma_vec_model};

    let mut scripts: Vec<String> = Vec::new();
    proof {
        assert(chars@.take(0) =~= Seq::<char>::empty());
        assert(text::models(scripts@) =~= Seq::<Seq<char>>::empty());
    }
    for i in 0..chars.len()
        invariant
            codes@.len() == chars@.len(),
            text::models(scripts@) == scripts_of(chars@.take(i as int), codes.deep_view()),
    {
        proof {
            assert(chars@.take(i + 1).drop_last() =~= chars@.take(i as int));
            assert(chars@.take(i + 1).last() == chars@[i as int]);
            assert(codes.deep_view()[i as int] == codes@[i as int]@);
        }
        let code = &codes[i];
        let counts = !str_eq(code.as_str(), "Zyyy") && !str_eq(code.as_str(), "Zinh") && !str_eq(
            code.as_str(),
            "Zzzz",
        );
        if !is_noncharacter(chars[i] as u32) && counts && !holds_name(&scripts, code.as_str()) {
            scripts.push(code.clone());
        }
    }
    proof {
        assert(chars@.take(chars@.len() as int) =~= chars@);
    }
    let ghost found = scripts.deep_view();
    let mut issues: Vec<Issue> = Vec::new();
    let mixed_script = scripts.len() > 1;
    if mixed_script {
        issues.push(Issue::MixedScript { scripts: scripts.duplicate() });
    }
    let ghost mixed = if found.len() > 1 {
        seq![IssueModel::MixedScript { scripts: found }]
    } else {
        seq![]
    };
    proof {
        assert(text::models(issues@) =~= mixed);
    }
    let mut restriction_violated = false;
    if let Some(code) = allowed {
        let mut i: usize = 0;
        while i < scripts.len() && !restriction_violated
            invariant
                found == scripts.deep_view(),
                i <= scripts@.len(),
                restriction_violated ==> violates(found, code@),
                !restriction_violated ==> forall|k: int| 0 <= k < i ==> found[k] == code@,
            decreases scripts@.len() - i,
        {
            if !str_eq(scripts[i].as_str(), code.as_str()) {
                proof {
                    assert(found[i as int] != code@);
                }
                restriction_violated = true;
            }
            i += 1;
        }
        if restriction_violated {
            issues.push(
                Issue::ScriptRestriction { found: join(&scripts, "+"), allowed: code.clone() },
            );
        }
    }
    ScriptReport { scripts, mixed_script, restriction_violated, issues }
}

} // verus!

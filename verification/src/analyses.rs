//! What an analysis says of a record, told by its source and the rules.

use vstd::prelude::*;
use vstd::utf8::*;

use crate::base64;
use crate::decode;
use crate::engine;
use crate::engine::{
    InputModel, NormalizationForm, RecordModel, RuleConfigModel, ScriptPolicy,
    StageModel, UnicodeTable,
};
use crate::icu_tables;
use crate::json;
use crate::order;
use crate::source;
use crate::source::{IssueModel, SourceToken};
use crate::stages;
use crate::text;
use crate::traces;

verus! {

/// The rules go by the older tables; without a choice they go by the newer ones.
pub open spec fn by_older(cfg: RuleConfigModel) -> bool {
    cfg.unicode_table == Some(UnicodeTable::U15_1)
}

/// The normalization that the rules ask for: compatibility composition if they say so, else canonical
/// composition.
pub open spec fn normalizes(cfg: RuleConfigModel, from: Seq<char>, to: Seq<char>) -> bool {
    if cfg.normalization == Some(NormalizationForm::Nfkc) {
        to == if by_older(cfg) {
            icu_tables::older_form_kc(from)
        } else {
            icu_tables::newer_form_kc(from)
        }
    } else {
        to == if by_older(cfg) {
            icu_tables::older_form_c(from)
        } else {
            icu_tables::newer_form_c(from)
        }
    }
}

/// The folding that the rules ask for, if they ask for one.
pub open spec fn folds(cfg: RuleConfigModel, from: Seq<char>, to: Seq<char>) -> bool {
    if cfg.case_fold {
        to == if by_older(cfg) {
            icu_tables::older_folding(from)
        } else {
            icu_tables::newer_folding(from)
        }
    } else {
        to == from
    }
}

/// The character is default ignorable in the tables of the rules.
pub open spec fn ignorable(cfg: RuleConfigModel, c: char) -> bool {
    if by_older(cfg) {
        icu_tables::older_ignorable(c)
    } else {
        icu_tables::newer_ignorable(c)
    }
}

/// The ignorable characters are left out, if the rules ask for it, and no others.
pub open spec fn strips(cfg: RuleConfigModel, from: Seq<char>, to: Seq<char>) -> bool {
    if cfg.strip_default_ignorable {
        to == from.filter(|c: char| !ignorable(cfg, c))
    } else {
        to == from
    }
}

/// The name of the script of a character in the tables of the rules.
pub open spec fn script_name(cfg: RuleConfigModel, c: char) -> Option<Seq<char>> {
    if by_older(cfg) {
        icu_tables::older_script_name(icu_tables::older_script(c))
    } else {
        icu_tables::newer_script_name(icu_tables::newer_script(c))
    }
}

/// The rules list a name that allows the script.
pub open spec fn allows(cfg: RuleConfigModel, script: Seq<char>) -> bool {
    if by_older(cfg) {
        cfg.allowed_scripts.contains(script)
    } else {
        exists|name: Seq<char>| #[trigger]
            cfg.allowed_scripts.contains(name) && icu_tables::newer_script_named(name) is Some
                && icu_tables::newer_script_name(icu_tables::newer_script_named(name)->0) == Some(
                script,
            )
    }
}

/// A stage shows a text: its characters, their numbers, and the text itself.
pub open spec fn shows(stage: StageModel, t: Seq<char>) -> bool {
    &&& stage.text == Some(t)
    &&& stage.codepoints.len() == t.len()
    &&& forall|i: int|
        0 <= i < t.len() ==> {
            &&& (#[trigger] stage.codepoints[i]).value == t[i] as u32
            &&& stage.codepoints[i].character == Some(t[i])
            &&& !stage.codepoints[i].surrogate
            &&& stage.codepoints[i].hex == text::u_plus_text(t[i] as u32 as nat)
        }
}

proof fn lemma_points_of_text(t: Seq<char>)
    ensures
        source::chars_from(text::code_points(t)) == Some(t),
        source::text_from(text::code_points(t)) == t,
{
    let points = text::code_points(t);
    assert forall|i: int| 0 <= i < points.len() implies is_scalar(#[trigger] points[i]) by {
        assert(points[i] == t[i] as u32);
        char_is_scalar(t[i]);
    }
    assert(source::chars_from(points)->0 =~= t) by {
        assert forall|i: int| 0 <= i < t.len() implies points[i] as char == t[i] by {
            assert(points[i] == t[i] as u32);
            char_u32_cast(t[i], points[i]);
        }
    }
}

proof fn lemma_shows(name: Seq<char>, t: Seq<char>, version: Seq<char>)
    ensures
        shows(engine::stage_of(name, text::code_points(t), version), t),
{
    lemma_points_of_text(t);
    let stage = engine::stage_of(name, text::code_points(t), version);
    assert forall|i: int| 0 <= i < t.len() implies {
        &&& (#[trigger] stage.codepoints[i]).value == t[i] as u32
        &&& stage.codepoints[i].character == Some(t[i])
        &&& !stage.codepoints[i].surrogate
        &&& stage.codepoints[i].hex == text::u_plus_text(t[i] as u32 as nat)
    } by {
        assert(text::code_points(t)[i] == t[i] as u32);
        char_is_scalar(t[i]);
        char_u32_cast(t[i], t[i] as u32);
        assert((t[i] as u32) as char == t[i]);
    }
}

proof fn lemma_strip(cfg: RuleConfigModel, t: Seq<char>)
    ensures
        stages::marked(
            text::code_points(t),
            engine::kept_points(cfg.table(), text::code_points(t)),
        ) == text::code_points(t.filter(|c: char| !ignorable(cfg, c))),
    decreases t.len(),
{
    reveal(Seq::filter);
    let points = text::code_points(t);
    let marks = engine::kept_points(cfg.table(), points);
    let kept = t.filter(|c: char| !ignorable(cfg, c));
    if t.len() == 0 {
        assert(text::code_points(kept) =~= stages::marked(points, marks));
    } else {
        let front = t.drop_last();
        let last = t.last();
        let fewer = engine::kept_points(cfg.table(), text::code_points(front));
        lemma_strip(cfg, front);
        assert(marks.drop_last() =~= fewer);
        assert(points.drop_last() =~= text::code_points(front));
        lemma_marked_prefix(points, text::code_points(front), fewer);
        assert(points[t.len() - 1] == last as u32);
        char_is_scalar(last);
        char_u32_cast(last, last as u32);
        assert((last as u32) as char == last);
        assert(marks.last() == !ignorable(cfg, last));
        let before = front.filter(|c: char| !ignorable(cfg, c));
        assert(kept == if !ignorable(cfg, last) {
            before.push(last)
        } else {
            before
        });
        assert(text::code_points(before.push(last)) =~= text::code_points(before).push(
            last as u32,
        ));
    }
}

proof fn lemma_marked_prefix(s: Seq<u32>, t: Seq<u32>, marks: Seq<bool>)
    requires
        marks.len() <= t.len() <= s.len(),
        t == s.take(t.len() as int),
    ensures
        stages::marked(s, marks) == stages::marked(t, marks),
    decreases marks.len(),
{
    if marks.len() > 0 {
        lemma_marked_prefix(s, t, marks.drop_last());
        assert(t[marks.len() - 1] == s[marks.len() - 1]);
    }
}

/// The text that a record is analyzed as: where its source is a text, that text; where it is a list
/// of code points that are all scalar values, their text.
pub open spec fn plain_source(input: InputModel, t: Seq<char>) -> bool {
    if input.codepoint_source {
        json::json_numbers(input.original_bytes) == Some(
            Seq::new(t.len(), |i: int| t[i] as u32),
        )
    } else {
        input.original_bytes == encode_utf8(t)
    }
}

/// Texts that a record passes through, from one stage to the next.
pub open spec fn passes(
    cfg: RuleConfigModel,
    record: RecordModel,
    normalized: Seq<char>,
    folded: Seq<char>,
    stripped: Seq<char>,
) -> bool {
    &&& record.stages.len() == 5
    &&& shows(record.stages[1], normalized)
    &&& shows(record.stages[2], folded)
    &&& shows(record.stages[3], stripped)
    &&& shows(record.stages[4], record.canonical)
    &&& folds(cfg, normalized, folded)
    &&& strips(cfg, folded, stripped)
    &&& normalizes(cfg, stripped, record.canonical)
}

proof fn lemma_passes(cfg: RuleConfigModel, input: InputModel)
    ensures
        ({
            let record = engine::record_of(cfg, input);
            let points = engine::token_points(engine::source_of(input).tokens);
            let version = cfg.snapshot().unicode_version;
            exists|normalized: Seq<char>, folded: Seq<char>, stripped: Seq<char>| #[trigger]
                passes(cfg, record, normalized, folded, stripped) && normalizes(
                    cfg,
                    source::text_from(points),
                    normalized,
                )
        }),
        engine::record_of(cfg, input).stages.len() == 5,
        engine::record_of(cfg, input).stages[0] == engine::stage_of(
            "source"@,
            engine::token_points(engine::source_of(input).tokens),
            cfg.snapshot().unicode_version,
        ),
{
    let record = engine::record_of(cfg, input);
    let codepoints = engine::token_points(engine::source_of(input).tokens);
    let points = engine::points_of(cfg, codepoints);
    let version = cfg.snapshot().unicode_version;
    let normalized = engine::normal_form(cfg.table(), cfg.form(), source::text_from(codepoints));
    let folded = if cfg.case_fold {
        engine::case_folding(cfg.table(), normalized)
    } else {
        normalized
    };
    let stripped = if cfg.strip_default_ignorable {
        folded.filter(|c: char| !ignorable(cfg, c))
    } else {
        folded
    };
    let canonical = engine::normal_form(cfg.table(), cfg.form(), stripped);
    lemma_points_of_text(normalized);
    lemma_points_of_text(folded);
    lemma_points_of_text(stripped);
    lemma_points_of_text(canonical);
    lemma_strip(cfg, folded);
    assert(points.normalized == text::code_points(normalized));
    assert(points.folded == text::code_points(folded));
    assert(points.stripped == text::code_points(stripped));
    assert(points.canonical == text::code_points(canonical));
    assert(record.canonical == canonical);
    let all = engine::stages_of(cfg, codepoints, points);
    lemma_shows(all[1].name, normalized, version);
    lemma_shows(all[2].name, folded, version);
    lemma_shows(all[3].name, stripped, version);
    lemma_shows(all[4].name, canonical, version);
    assert(passes(cfg, record, normalized, folded, stripped));
}

/// How the value of a record comes about: the source is normalized, then folded, then freed of
/// ignorable characters, then normalized again, each as the rules ask for and in the tables that
/// they name. Each stage shows what it made of the one before it.
pub proof fn values_come_about_in_stages(cfg: RuleConfigModel, inputs: Seq<InputModel>, i: int, t: Seq<char>)
    requires
        0 <= i < inputs.len(),
        plain_source(inputs[i], t),
    ensures
        ({
            let record = engine::analysis_of(cfg, inputs).records[i];
            &&& shows(record.stages[0], t)
            &&& exists|normalized: Seq<char>, folded: Seq<char>, stripped: Seq<char>| #[trigger]
                passes(cfg, record, normalized, folded, stripped) && normalizes(cfg, t, normalized)
        }),
{
    let input = inputs[i];
    let record = engine::record_of(cfg, input);
    let tokens = engine::source_of(input).tokens;
    let points = engine::token_points(tokens);
    lemma_passes(cfg, input);
    assert(points =~= text::code_points(t)) by {
        if input.codepoint_source {
            let listed = Seq::new(t.len(), |i: int| t[i] as u32);
            assert(points =~= listed);
        } else {
            encode_utf8_valid_utf8(t);
            encode_utf8_decode_utf8(t);
            source::strict_decoding_accepts_utf8(input.original_bytes);
        }
    }
    lemma_points_of_text(t);
    lemma_shows("source"@, t, cfg.snapshot().unicode_version);
}

/// The value of a record always comes about by the last three stages, whatever its source is.
pub proof fn every_value_comes_about_in_stages(
    cfg: RuleConfigModel,
    inputs: Seq<InputModel>,
    i: int,
)
    requires
        0 <= i < inputs.len(),
    ensures
        exists|normalized: Seq<char>, folded: Seq<char>, stripped: Seq<char>| #[trigger]
            passes(
                cfg,
                engine::analysis_of(cfg, inputs).records[i],
                normalized,
                folded,
                stripped,
            ),
{
    lemma_passes(cfg, inputs[i]);
    assert(engine::analysis_of(cfg, inputs).records[i] == engine::record_of(cfg, inputs[i]));
}

/// No stage after the removal of ignorable characters adds one that the tables call ignorable: where
/// the rules ask for it, the fourth stage holds none.
pub proof fn stripped_stages_hold_nothing_ignorable(
    cfg: RuleConfigModel,
    inputs: Seq<InputModel>,
    i: int,
    k: int,
)
    requires
        0 <= i < inputs.len(),
        cfg.strip_default_ignorable,
        0 <= k < engine::analysis_of(cfg, inputs).records[i].stages[3].text->0.len(),
    ensures
        !ignorable(cfg, engine::analysis_of(cfg, inputs).records[i].stages[3].text->0[k]),
{
    every_value_comes_about_in_stages(cfg, inputs, i);
    let record = engine::analysis_of(cfg, inputs).records[i];
    let (normalized, folded, stripped) = choose|
        normalized: Seq<char>,
        folded: Seq<char>,
        stripped: Seq<char>,
    | #[trigger] passes(cfg, record, normalized, folded, stripped);
    let keep = |c: char| !ignorable(cfg, c);
    folded.lemma_filter_pred(keep, k);
}

/// The stages are named after what they did.
pub proof fn stages_are_named(cfg: RuleConfigModel, inputs: Seq<InputModel>, i: int)
    requires
        0 <= i < inputs.len(),
    ensures
        ({
            let all = engine::analysis_of(cfg, inputs).records[i].stages;
            let compatible = cfg.normalization == Some(NormalizationForm::Nfkc);
            &&& all.len() == 5
            &&& all[0].name == "source"@
            &&& all[1].name == (if compatible {
                "nfkc-initial"@
            } else {
                "nfc-initial"@
            })
            &&& all[2].name == (if cfg.case_fold {
                "case-fold"@
            } else {
                "case-fold-skipped"@
            })
            &&& all[3].name == (if cfg.strip_default_ignorable {
                "strip-default-ignorable"@
            } else {
                "default-ignorable-retained"@
            })
            &&& all[4].name == (if compatible {
                "nfkc-final"@
            } else {
                "nfc-final"@
            })
            &&& forall|k: int|
                0 <= k < 5 ==> (#[trigger] all[k]).rule_version == (if by_older(cfg) {
                    "15.1.0"@
                } else {
                    "16.0.0"@
                })
        }),
{
}

/// An analysis says something of every record, in order: its id, version and text as they were given,
/// and its bytes in base64, so that they can be had back.
pub proof fn records_are_kept_in_order(cfg: RuleConfigModel, inputs: Seq<InputModel>, i: int)
    requires
        0 <= i < inputs.len(),
    ensures
        ({
            let records = engine::analysis_of(cfg, inputs).records;
            &&& records.len() == inputs.len()
            &&& records[i].record_id == inputs[i].record_id
            &&& records[i].source_version == inputs[i].source_version
            &&& records[i].original_text == inputs[i].original_text
            &&& base64::base64_value(records[i].original_base64) == Some(inputs[i].original_bytes)
        }),
{
    base64::base64_reads_back(inputs[i].original_bytes);
}

/// What is said of a record does not depend on the others.
pub proof fn records_are_analyzed_alone(
    cfg: RuleConfigModel,
    inputs: Seq<InputModel>,
    others: Seq<InputModel>,
    i: int,
    j: int,
)
    requires
        0 <= i < inputs.len(),
        0 <= j < others.len(),
        inputs[i] == others[j],
    ensures
        engine::analysis_of(cfg, inputs).records[i] == engine::analysis_of(cfg, others).records[j],
{
}

/// The rules are shown with what they leave open filled in, and with the versions of their tables.
pub proof fn rules_are_shown(cfg: RuleConfigModel, inputs: Seq<InputModel>)
    ensures
        ({
            let shown = engine::analysis_of(cfg, inputs).rules;
            &&& shown.case_fold == cfg.case_fold
            &&& shown.strip_default_ignorable == cfg.strip_default_ignorable
            &&& shown.script_policy == cfg.script_policy
            &&& shown.allowed_scripts == cfg.allowed_scripts
            &&& shown.normalization == (match cfg.normalization {
                Some(form) => form,
                None => NormalizationForm::Nfc,
            })
            &&& shown.unicode_version == (if by_older(cfg) {
                "15.1.0"@
            } else {
                "16.0.0"@
            })
            &&& shown.icu_casemap == (if by_older(cfg) {
                "1.5.1"@
            } else {
                "2.3.0"@
            })
            &&& shown.icu_normalizer == (if by_older(cfg) {
                "1.5.0"@
            } else {
                "2.3.0"@
            })
            &&& shown.icu_properties == (if by_older(cfg) {
                "1.5.1"@
            } else {
                "2.3.0"@
            })
        }),
{
}

/// The scripts of a record are those of the characters of its value, but for Common and Inherited.
pub proof fn scripts_are_those_of_the_value(
    cfg: RuleConfigModel,
    inputs: Seq<InputModel>,
    i: int,
    script: Seq<char>,
)
    requires
        0 <= i < inputs.len(),
    ensures
        ({
            let record = engine::analysis_of(cfg, inputs).records[i];
            record.scripts.contains(script) <==> script != "Common"@ && script != "Inherited"@
                && exists|k: int|
                0 <= k < record.canonical.len() && script_name(
                    cfg,
                    #[trigger] record.canonical[k],
                ) == Some(script)
        }),
{
    let input = inputs[i];
    let record = engine::record_of(cfg, input);
    lemma_canonical_points(cfg, input);
    let value = record.canonical;
    let names = engine::script_names(cfg.table(), text::code_points(value));
    assert(names.len() == value.len());
    assert forall|k: int| 0 <= k < value.len() implies #[trigger] names[k] == script_name(
        cfg,
        value[k],
    ) by {
        assert(text::code_points(value)[k] == value[k] as u32);
        char_is_scalar(value[k]);
        char_u32_cast(value[k], value[k] as u32);
        assert((value[k] as u32) as char == value[k]);
    }
    if names.contains(Some(script)) {
        let k = choose|k: int| 0 <= k < names.len() && names[k] == Some(script);
        assert(script_name(cfg, value[k]) == Some(script));
    }
    if exists|k: int|
        0 <= k < value.len() && script_name(cfg, #[trigger] value[k]) == Some(script) {
        let k = choose|k: int|
            0 <= k < value.len() && script_name(cfg, #[trigger] value[k]) == Some(script);
        assert(names[k] == Some(script));
    }
}

proof fn lemma_canonical_points(cfg: RuleConfigModel, input: InputModel)
    ensures
        ({
            let points = engine::points_of(
                cfg,
                engine::token_points(engine::source_of(input).tokens),
            );
            let record = engine::record_of(cfg, input);
            &&& points.canonical == text::code_points(record.canonical)
            &&& record.scripts == engine::scripts_among(
                engine::script_names(cfg.table(), text::code_points(record.canonical)),
            )
        }),
{
    let codepoints = engine::token_points(engine::source_of(input).tokens);
    let points = engine::points_of(cfg, codepoints);
    let t = engine::normal_form(cfg.table(), cfg.form(), source::text_from(points.stripped));
    lemma_points_of_text(t);
}

proof fn lemma_scripts_finite(names: Seq<Option<Seq<char>>>)
    ensures
        engine::scripts_among(names).finite(),
    decreases names.len(),
{
    let all = engine::scripts_among(names);
    if names.len() == 0 {
        assert(all =~= Set::empty());
    } else {
        let front = names.drop_last();
        lemma_scripts_finite(front);
        let before = engine::scripts_among(front);
        let more = match names.last() {
            Some(name) => before.insert(name),
            None => before,
        };
        assert forall|n: Seq<char>| all.contains(n) implies more.contains(n) by {
            let k = choose|k: int| 0 <= k < names.len() && names[k] == Some(n);
            if k < front.len() {
                assert(front[k] == Some(n));
            }
        }
        vstd::set_lib::lemma_set_subset_finite(more, all);
    }
}

proof fn lemma_mixed(scripts: Set<Seq<char>>)
    requires
        scripts.finite(),
    ensures
        engine::mixed(scripts) <==> exists|a: Seq<char>, b: Seq<char>|
            a != b && #[trigger] scripts.contains(a) && #[trigger] scripts.contains(b),
{
    let all = order::in_order(scripts);
    order::lemma_finite_listed(scripts);
    if all.len() > 1 {
        assert(order::text_less(all[0], all[1]));
        order::lemma_text_less_irreflexive(all[0]);
        assert(all.contains(all[0]) && all.contains(all[1]));
        assert(scripts.contains(all[0]) && scripts.contains(all[1]));
    }
    if exists|a: Seq<char>, b: Seq<char>|
        a != b && #[trigger] scripts.contains(a) && #[trigger] scripts.contains(b) {
        let (a, b) = choose|a: Seq<char>, b: Seq<char>|
            a != b && #[trigger] scripts.contains(a) && #[trigger] scripts.contains(b);
        assert(all.contains(a) && all.contains(b));
        let i = choose|i: int| 0 <= i < all.len() && all[i] == a;
        let j = choose|j: int| 0 <= j < all.len() && all[j] == b;
        assert(i != j);
    }
}

/// Some issue is of the kind.
pub open spec fn reports(issues: Seq<IssueModel>, kind: Seq<char>) -> bool {
    exists|k: int| 0 <= k < issues.len() && (#[trigger] issues[k]).kind == kind
}

proof fn lemma_reports_concat(a: Seq<IssueModel>, b: Seq<IssueModel>, kind: Seq<char>)
    ensures
        reports(a + b, kind) <==> reports(a, kind) || reports(b, kind),
{
    if reports(a, kind) {
        let k = choose|k: int| 0 <= k < a.len() && (#[trigger] a[k]).kind == kind;
        assert((a + b)[k] == a[k]);
    }
    if reports(b, kind) {
        let k = choose|k: int| 0 <= k < b.len() && (#[trigger] b[k]).kind == kind;
        assert((a + b)[a.len() + k] == b[k]);
    }
    if reports(a + b, kind) {
        let k = choose|k: int| 0 <= k < (a + b).len() && (#[trigger] (a + b)[k]).kind == kind;
        if k < a.len() {
            assert(a[k].kind == kind);
        } else {
            assert(b[k - a.len()].kind == kind);
        }
    }
}

proof fn lemma_kinds_differ()
    ensures
        "invalid-utf8"@ != "lone-surrogate"@,
        "invalid-utf8"@ != "noncharacter"@,
        "invalid-utf8"@ != "script-restriction"@,
        "invalid-utf8"@ != "mixed-script-risk"@,
        "lone-surrogate"@ != "noncharacter"@,
        "lone-surrogate"@ != "script-restriction"@,
        "lone-surrogate"@ != "mixed-script-risk"@,
        "noncharacter"@ != "script-restriction"@,
        "noncharacter"@ != "mixed-script-risk"@,
        "script-restriction"@ != "mixed-script-risk"@,
{
    reveal_strlit("invalid-utf8");
    reveal_strlit("lone-surrogate");
    reveal_strlit("noncharacter");
    reveal_strlit("script-restriction");
    reveal_strlit("mixed-script-risk");
    assert("invalid-utf8"@[0] == 'i' && "lone-surrogate"@[0] == 'l' && "noncharacter"@[0] == 'n'
        && "script-restriction"@[0] == 's' && "mixed-script-risk"@[0] == 'm');
}

proof fn lemma_strict_kinds(bytes: Seq<u8>, at: int, kind: Seq<char>)
    requires
        0 <= at <= bytes.len(),
    ensures
        ({
            let issues = source::strict_from(bytes, at).issues;
            reports(issues, kind) <==> kind == "invalid-utf8"@ && issues.len() > 0
        }),
    decreases bytes.len() - at,
{
    let issues = source::strict_from(bytes, at).issues;
    assert forall|k: int| 0 <= k < issues.len() implies (#[trigger] issues[k]).kind
        == "invalid-utf8"@ by {
        engine::lemma_strict_issue_kinds(bytes, at);
    }
    if issues.len() > 0 {
        assert(issues[0].kind == "invalid-utf8"@);
    }
}

proof fn lemma_surrogate_kinds(codepoints: Seq<u32>, kind: Seq<char>)
    ensures
        reports(engine::surrogate_issues(codepoints), kind) <==> kind == "lone-surrogate"@
            && exists|k: int|
            0 <= k < codepoints.len() && 0xd800 <= #[trigger] codepoints[k] <= 0xdfff,
    decreases codepoints.len(),
{
    if codepoints.len() > 0 {
        let front = codepoints.drop_last();
        let last = codepoints.len() - 1;
        let before = engine::surrogate_issues(front);
        let all = engine::surrogate_issues(codepoints);
        lemma_surrogate_kinds(front, kind);
        if source::surrogate(codepoints[last]) {
            lemma_reports_concat(before, seq![all.last()], kind);
            assert(all =~= before + seq![all.last()]);
            assert(seq![all.last()][0].kind == "lone-surrogate"@);
            assert(0xd800 <= codepoints[last] <= 0xdfff);
        }
        if exists|k: int| 0 <= k < front.len() && 0xd800 <= #[trigger] front[k] <= 0xdfff {
            let k = choose|k: int| 0 <= k < front.len() && 0xd800 <= #[trigger] front[k] <= 0xdfff;
            assert(codepoints[k] == front[k]);
        }
        if exists|k: int| 0 <= k < codepoints.len() && 0xd800 <= #[trigger] codepoints[k] <= 0xdfff {
            let k = choose|k: int|
                0 <= k < codepoints.len() && 0xd800 <= #[trigger] codepoints[k] <= 0xdfff;
            if k < last {
                assert(front[k] == codepoints[k]);
            }
        }
    }
}

/// A noncharacter: one of the last two numbers of a plane, or of a range of 32.
pub open spec fn is_noncharacter(n: u32) -> bool {
    n % 0x10000 >= 0xfffe || 0xfdd0 <= n < 0xfdd0 + 32
}

proof fn lemma_noncharacter_kinds(tokens: Seq<SourceToken>, kind: Seq<char>)
    ensures
        reports(engine::noncharacter_issues(tokens), kind) <==> kind == "noncharacter"@
            && exists|k: int|
            0 <= k < tokens.len() && is_noncharacter((#[trigger] tokens[k]).codepoint),
    decreases tokens.len(),
{
    if tokens.len() > 0 {
        let front = tokens.drop_last();
        let last = tokens.len() - 1;
        let before = engine::noncharacter_issues(front);
        let all = engine::noncharacter_issues(tokens);
        lemma_noncharacter_kinds(front, kind);
        if decode::noncharacter(tokens[last].codepoint) {
            lemma_reports_concat(before, seq![all.last()], kind);
            assert(all =~= before + seq![all.last()]);
            assert(seq![all.last()][0].kind == "noncharacter"@);
        }
        if exists|k: int| 0 <= k < front.len() && is_noncharacter((#[trigger] front[k]).codepoint) {
            let k = choose|k: int|
                0 <= k < front.len() && is_noncharacter((#[trigger] front[k]).codepoint);
            assert(tokens[k] == front[k]);
        }
        if exists|k: int| 0 <= k < tokens.len() && is_noncharacter(
            (#[trigger] tokens[k]).codepoint,
        ) {
            let k = choose|k: int|
                0 <= k < tokens.len() && is_noncharacter((#[trigger] tokens[k]).codepoint);
            if k < last {
                assert(front[k] == tokens[k]);
            }
        }
    }
}

proof fn lemma_disallowed_kinds(scripts: Seq<Seq<char>>, allowed: Set<Seq<char>>, kind: Seq<char>)
    ensures
        reports(engine::disallowed_issues(scripts, allowed), kind) <==> kind
            == "script-restriction"@ && exists|k: int|
            0 <= k < scripts.len() && !allowed.contains(#[trigger] scripts[k]),
    decreases scripts.len(),
{
    if scripts.len() > 0 {
        let front = scripts.drop_last();
        let last = scripts.len() - 1;
        let before = engine::disallowed_issues(front, allowed);
        let all = engine::disallowed_issues(scripts, allowed);
        lemma_disallowed_kinds(front, allowed, kind);
        if !allowed.contains(scripts[last]) {
            lemma_reports_concat(before, seq![all.last()], kind);
            assert(all =~= before + seq![all.last()]);
            assert(seq![all.last()][0].kind == "script-restriction"@);
        }
        if exists|k: int| 0 <= k < front.len() && !allowed.contains(#[trigger] front[k]) {
            let k = choose|k: int| 0 <= k < front.len() && !allowed.contains(#[trigger] front[k]);
            assert(scripts[k] == front[k]);
        }
        if exists|k: int| 0 <= k < scripts.len() && !allowed.contains(#[trigger] scripts[k]) {
            let k = choose|k: int|
                0 <= k < scripts.len() && !allowed.contains(#[trigger] scripts[k]);
            if k < last {
                assert(front[k] == scripts[k]);
            }
        }
    }
}

/// Two different scripts.
pub open spec fn two_scripts(scripts: Set<Seq<char>>) -> bool {
    exists|a: Seq<char>, b: Seq<char>|
        a != b && #[trigger] scripts.contains(a) && #[trigger] scripts.contains(b)
}

/// The policy of the rules forbids the scripts.
pub open spec fn forbids(cfg: RuleConfigModel, scripts: Set<Seq<char>>) -> bool {
    match cfg.script_policy {
        ScriptPolicy::Off => false,
        ScriptPolicy::Single => two_scripts(scripts),
        ScriptPolicy::Allowed => exists|a: Seq<char>| #[trigger]
            scripts.contains(a) && !allows(cfg, a),
    }
}

proof fn lemma_allows(cfg: RuleConfigModel, script: Seq<char>)
    requires
        cfg.script_policy == ScriptPolicy::Allowed,
    ensures
        allows(cfg, script) <==> engine::allowed_names(cfg).contains(script),
{
    if allows(cfg, script) {
        if by_older(cfg) {
            assert(engine::allowed_name(cfg.table(), script) == Some(script));
        } else {
            let name = choose|name: Seq<char>| #[trigger]
                cfg.allowed_scripts.contains(name) && icu_tables::newer_script_named(name) is Some
                    && icu_tables::newer_script_name(icu_tables::newer_script_named(name)->0)
                    == Some(script);
            assert(engine::allowed_name(cfg.table(), name) == Some(script));
        }
    }
    if engine::allowed_names(cfg).contains(script) {
        let name = choose|a: Seq<char>|
            cfg.allowed_scripts.contains(a) && engine::allowed_name(cfg.table(), a) == Some(script);
        assert(cfg.allowed_scripts.contains(name));
    }
}

proof fn lemma_script_kinds(cfg: RuleConfigModel, scripts: Set<Seq<char>>, kind: Seq<char>)
    requires
        scripts.finite(),
    ensures
        reports(
            engine::script_issues(cfg.script_policy, scripts, engine::allowed_names(cfg)),
            kind,
        ) <==> (kind == "mixed-script-risk"@ && two_scripts(scripts)) || (kind
            == "script-restriction"@ && forbids(cfg, scripts)),
{
    lemma_kinds_differ();
    lemma_mixed(scripts);
    let allowed = engine::allowed_names(cfg);
    let all = engine::script_issues(cfg.script_policy, scripts, allowed);
    let listed = order::in_order(scripts);
    order::lemma_finite_listed(scripts);
    let risk = if engine::mixed(scripts) {
        seq![
            engine::plain_issue(
                "mixed-script-risk"@,
                0,
                None,
                "multiple non-common scripts in normalized value"@,
                Some(text::joined(listed, ","@)),
            ),
        ]
    } else {
        seq![]
    };
    assert(reports(risk, kind) <==> kind == "mixed-script-risk"@ && two_scripts(scripts)) by {
        if risk.len() > 0 {
            assert(risk[0].kind == "mixed-script-risk"@);
        }
    }
    match cfg.script_policy {
        ScriptPolicy::Off => {},
        ScriptPolicy::Single => {
            if engine::mixed(scripts) {
                assert(all =~= risk + seq![all.last()]);
                lemma_reports_concat(risk, seq![all.last()], kind);
                assert(seq![all.last()][0].kind == "script-restriction"@);
            }
        },
        ScriptPolicy::Allowed => {
            lemma_disallowed_kinds(listed, allowed, kind);
            lemma_reports_concat(risk, engine::disallowed_issues(listed, allowed), kind);
            if exists|k: int| 0 <= k < listed.len() && !allowed.contains(#[trigger] listed[k]) {
                let k = choose|k: int|
                    0 <= k < listed.len() && !allowed.contains(#[trigger] listed[k]);
                assert(listed.contains(listed[k]));
                lemma_allows(cfg, listed[k]);
                assert(scripts.contains(listed[k]));
            }
            if forbids(cfg, scripts) {
                let a = choose|a: Seq<char>| #[trigger] scripts.contains(a) && !allows(cfg, a);
                assert(listed.contains(a));
                lemma_allows(cfg, a);
                let k = choose|k: int| 0 <= k < listed.len() && listed[k] == a;
                assert(!allowed.contains(listed[k]));
            }
        },
    }
}

/// What is reported of a record, and what keeps it out of the buckets: bytes that are not well-formed
/// UTF-8, surrogates in a list of code points, noncharacters, and scripts that the policy forbids.
/// Several scripts are always reported, and alone keep no record out.
pub proof fn reports_and_eligibility_are_exact(cfg: RuleConfigModel, inputs: Seq<InputModel>, i: int)
    requires
        0 <= i < inputs.len(),
    ensures
        ({
            let input = inputs[i];
            let record = engine::analysis_of(cfg, inputs).records[i];
            let ill_formed = !input.codepoint_source && !valid_utf8(input.original_bytes);
            let surrogates = input.codepoint_source && json::json_numbers(
                input.original_bytes,
            ) is Some && exists|k: int|
                0 <= k < json::json_numbers(input.original_bytes)->0.len() && 0xd800
                    <= #[trigger] json::json_numbers(input.original_bytes)->0[k] <= 0xdfff;
            let noncharacters = exists|k: int|
                0 <= k < record.stages[0].codepoints.len() && is_noncharacter(
                    (#[trigger] record.stages[0].codepoints[k]).value,
                );
            &&& reports(record.issues, "invalid-utf8"@) <==> ill_formed
            &&& reports(record.issues, "lone-surrogate"@) <==> surrogates
            &&& reports(record.issues, "noncharacter"@) <==> noncharacters
            &&& reports(record.issues, "mixed-script-risk"@) <==> two_scripts(record.scripts)
            &&& reports(record.issues, "script-restriction"@) <==> forbids(cfg, record.scripts)
            &&& record.mixed_script <==> two_scripts(record.scripts)
            &&& record.eligible <==> !ill_formed && !surrogates && !noncharacters && !forbids(
                cfg,
                record.scripts,
            )
        }),
{
    lemma_kinds_differ();
    let input = inputs[i];
    let record = engine::record_of(cfg, input);
    let decoded = engine::source_of(input);
    let points = engine::points_of(cfg, engine::token_points(decoded.tokens));
    let names = engine::script_names(cfg.table(), points.canonical);
    let scripts = record.scripts;
    lemma_scripts_finite(names);
    lemma_mixed(scripts);
    let a = decoded.issues;
    let b = engine::noncharacter_issues(decoded.tokens);
    let c = engine::script_issues(cfg.script_policy, scripts, engine::allowed_names(cfg));
    let shown = record.stages[0].codepoints;
    assert(shown.len() == decoded.tokens.len());
    assert forall|k: int| 0 <= k < shown.len() implies (#[trigger] shown[k]).value
        == decoded.tokens[k].codepoint by {}
    assert((exists|k: int| 0 <= k < shown.len() && is_noncharacter((#[trigger] shown[k]).value))
        <==> (exists|k: int|
        0 <= k < decoded.tokens.len() && is_noncharacter(
            (#[trigger] decoded.tokens[k]).codepoint,
        ))) by {
        if exists|k: int| 0 <= k < shown.len() && is_noncharacter((#[trigger] shown[k]).value) {
            let k = choose|k: int|
                0 <= k < shown.len() && is_noncharacter((#[trigger] shown[k]).value);
            assert(is_noncharacter(decoded.tokens[k].codepoint));
        }
        if exists|k: int|
            0 <= k < decoded.tokens.len() && is_noncharacter(
                (#[trigger] decoded.tokens[k]).codepoint,
            ) {
            let k = choose|k: int|
                0 <= k < decoded.tokens.len() && is_noncharacter(
                    (#[trigger] decoded.tokens[k]).codepoint,
                );
            assert(is_noncharacter(shown[k].value));
        }
    }
    assert forall|kind: Seq<char>| #[trigger] reports(record.issues, kind) <==> reports(a, kind)
        || reports(b, kind) || reports(c, kind) by {
        lemma_reports_concat(a, b, kind);
        lemma_reports_concat(a + b, c, kind);
    }
    lemma_each_kind(cfg, input, "invalid-utf8"@);
    lemma_each_kind(cfg, input, "lone-surrogate"@);
    lemma_each_kind(cfg, input, "noncharacter"@);
    lemma_each_kind(cfg, input, "mixed-script-risk"@);
    lemma_each_kind(cfg, input, "script-restriction"@);
    lemma_script_kinds(cfg, scripts, "invalid-utf8"@);
    lemma_script_kinds(cfg, scripts, "lone-surrogate"@);
    lemma_script_kinds(cfg, scripts, "noncharacter"@);
    lemma_script_kinds(cfg, scripts, "mixed-script-risk"@);
    lemma_script_kinds(cfg, scripts, "script-restriction"@);
    assert(record.eligible <==> !reports(record.issues, "invalid-utf8"@) && !reports(
        record.issues,
        "lone-surrogate"@,
    ) && !reports(record.issues, "noncharacter"@) && !reports(
        record.issues,
        "script-restriction"@,
    )) by {
        let issues = record.issues;
        if !record.eligible {
            let k = choose|k: int| 0 <= k < issues.len() && engine::blocking((#[trigger] issues[k]).kind);
            assert(reports(issues, issues[k].kind));
        }
    }
}

proof fn lemma_each_kind(cfg: RuleConfigModel, input: InputModel, kind: Seq<char>)
    ensures
        ({
            let decoded = engine::source_of(input);
            &&& reports(decoded.issues, kind) <==> (kind == "invalid-utf8"@
                && !input.codepoint_source && !valid_utf8(input.original_bytes)) || (kind
                == "lone-surrogate"@ && input.codepoint_source && json::json_numbers(
                input.original_bytes,
            ) is Some && exists|k: int|
                0 <= k < json::json_numbers(input.original_bytes)->0.len() && 0xd800
                    <= #[trigger] json::json_numbers(input.original_bytes)->0[k] <= 0xdfff)
            &&& reports(engine::noncharacter_issues(decoded.tokens), kind) <==> kind
                == "noncharacter"@ && exists|k: int|
                0 <= k < decoded.tokens.len() && is_noncharacter(
                    (#[trigger] decoded.tokens[k]).codepoint,
                )
        }),
{
    lemma_kinds_differ();
    let decoded = engine::source_of(input);
    lemma_noncharacter_kinds(decoded.tokens, kind);
    if input.codepoint_source {
        let codepoints = match json::json_numbers(input.original_bytes) {
            Some(codepoints) => codepoints,
            None => seq![],
        };
        lemma_surrogate_kinds(codepoints, kind);
    } else {
        lemma_strict_kinds(input.original_bytes, 0, kind);
        source::strict_decoding_accepts_utf8(input.original_bytes);
    }
}

/// The source stage shows the numbers of a list of code points as they are.
pub proof fn lists_are_shown_as_they_are(cfg: RuleConfigModel, inputs: Seq<InputModel>, i: int)
    requires
        0 <= i < inputs.len(),
        inputs[i].codepoint_source,
        json::json_numbers(inputs[i].original_bytes) is Some,
    ensures
        ({
            let numbers = json::json_numbers(inputs[i].original_bytes)->0;
            let shown = engine::analysis_of(cfg, inputs).records[i].stages[0].codepoints;
            &&& shown.len() == numbers.len()
            &&& forall|k: int|
                0 <= k < numbers.len() ==> {
                    &&& (#[trigger] shown[k]).value == numbers[k]
                    &&& shown[k].hex == text::u_plus_text(numbers[k] as nat)
                    &&& shown[k].surrogate <==> 0xd800 <= numbers[k] <= 0xdfff
                    &&& shown[k].character is Some <==> numbers[k] <= 0x10ffff && !(0xd800
                        <= numbers[k] <= 0xdfff)
                }
        }),
{
}

/// A single text is analyzed as a record that holds the text.
pub proof fn queries_are_analyzed_as_they_are(t: Seq<char>)
    ensures
        engine::query_input(t).original_text == Some(t),
        engine::query_input(t).original_bytes == encode_utf8(t),
        !engine::query_input(t).codepoint_source,
{
}

/// The notation of a byte: two hexadecimal digits in upper case behind `0x`.
pub open spec fn byte_notation(b: u8) -> Seq<char> {
    "0x"@ + seq![
        text::digit_char((b / 16) as int, true),
        text::digit_char((b % 16) as int, true),
    ]
}

/// An issue tells the place of ill-formed bytes and these bytes.
pub open spec fn places_bytes(bytes: Seq<u8>, issue: IssueModel) -> bool {
    &&& issue.bytes.len() > 0
    &&& issue.offset + issue.bytes.len() <= bytes.len()
    &&& forall|k: int|
        0 <= k < issue.bytes.len() ==> #[trigger] issue.bytes[k] == byte_notation(
            bytes[issue.offset + k],
        )
}

proof fn lemma_byte(b: u8)
    ensures
        source::byte_text(b) == byte_notation(b),
{
    let v = b as nat;
    let digits = text::digits_text(v, 16, true);
    reveal_with_fuel(text::digits_text, 2);
    if v < 16 {
        assert(digits =~= seq![text::digit_char(v as int, true)]);
        assert(text::upper_hex_text(v, 2) =~= seq![
            text::digit_char((b / 16) as int, true),
            text::digit_char((b % 16) as int, true),
        ]);
    } else {
        assert(v / 16 < 16);
        assert(digits =~= seq![
            text::digit_char((v / 16) as int, true),
            text::digit_char((v % 16) as int, true),
        ]);
    }
}

proof fn lemma_places(bytes: Seq<u8>, at: int, part: Seq<u8>, message: Seq<char>)
    requires
        bytes.len() <= usize::MAX,
        0 <= at,
        part.len() > 0,
        at + part.len() <= bytes.len(),
        part == bytes.subrange(at, at + part.len()),
    ensures
        places_bytes(bytes, source::invalid_bytes(at as usize, part, message)),
{
    let issue = source::invalid_bytes(at as usize, part, message);
    assert forall|k: int| 0 <= k < issue.bytes.len() implies #[trigger] issue.bytes[k]
        == byte_notation(bytes[issue.offset + k]) by {
        lemma_byte(part[k]);
        assert(part[k] == bytes[at + k]);
    }
}

proof fn lemma_strict_places(bytes: Seq<u8>, at: int)
    requires
        bytes.len() <= usize::MAX,
        0 <= at <= bytes.len(),
    ensures
        forall|k: int|
            0 <= k < source::strict_from(bytes, at).issues.len() ==> places_bytes(
                bytes,
                #[trigger] source::strict_from(bytes, at).issues[k],
            ),
    decreases bytes.len() - at,
{
    let issues = source::strict_from(bytes, at).issues;
    if at < bytes.len() {
        match source::sequence_len(bytes[at]) {
            None => {
                lemma_strict_places(bytes, at + 1);
                assert(seq![bytes[at]] =~= bytes.subrange(at, at + 1));
                lemma_places(bytes, at, seq![bytes[at]], "invalid UTF-8 lead byte"@);
                let rest = source::strict_from(bytes, at + 1).issues;
                assert forall|k: int| 0 <= k < issues.len() implies places_bytes(
                    bytes,
                    #[trigger] issues[k],
                ) by {
                    if k > 0 {
                        assert(issues[k] == rest[k - 1]);
                    }
                }
            },
            Some(n) => if at + n > bytes.len() {
                assert(bytes.skip(at) =~= bytes.subrange(at, at + bytes.skip(at).len()));
                lemma_places(bytes, at, bytes.skip(at), "truncated UTF-8 sequence"@);
            } else {
                let sequence = bytes.subrange(at, at + n);
                let rest = source::strict_from(bytes, at + n).issues;
                lemma_strict_places(bytes, at + n);
                lemma_places(bytes, at, sequence, "malformed UTF-8 sequence"@);
                assert forall|k: int| 0 <= k < issues.len() implies places_bytes(
                    bytes,
                    #[trigger] issues[k],
                ) by {
                    if !valid_first_scalar(sequence) && k > 0 {
                        assert(issues[k] == rest[k - 1]);
                    } else if valid_first_scalar(sequence) {
                        assert(issues[k] == rest[k]);
                    }
                }
            },
        }
    }
}

/// Ill-formed bytes are reported with their place, counted in bytes, and with all of them.
pub proof fn ill_formed_bytes_are_reported_in_place(
    cfg: RuleConfigModel,
    inputs: Seq<InputModel>,
    i: int,
    k: int,
)
    requires
        0 <= i < inputs.len(),
        inputs[i].original_bytes.len() <= usize::MAX,
        0 <= k < engine::analysis_of(cfg, inputs).records[i].issues.len(),
        engine::analysis_of(cfg, inputs).records[i].issues[k].kind == "invalid-utf8"@,
    ensures
        places_bytes(
            inputs[i].original_bytes,
            engine::analysis_of(cfg, inputs).records[i].issues[k],
        ),
{
    lemma_kinds_differ();
    let input = inputs[i];
    let record = engine::record_of(cfg, input);
    let decoded = engine::source_of(input);
    let a = decoded.issues;
    let b = engine::noncharacter_issues(decoded.tokens);
    let points = engine::points_of(cfg, engine::token_points(decoded.tokens));
    let c = engine::script_issues(cfg.script_policy, record.scripts, engine::allowed_names(cfg));
    lemma_scripts_finite(engine::script_names(cfg.table(), points.canonical));
    assert(record.issues =~= a + b + c);
    if k < a.len() {
        assert(record.issues[k] == a[k]);
        assert(reports(a, "invalid-utf8"@));
        lemma_each_kind(cfg, input, "invalid-utf8"@);
        lemma_strict_places(input.original_bytes, 0);
    } else if k < a.len() + b.len() {
        assert(record.issues[k] == b[k - a.len()]);
        assert(reports(b, "invalid-utf8"@));
        lemma_noncharacter_kinds(decoded.tokens, "invalid-utf8"@);
    } else {
        assert(record.issues[k] == c[k - a.len() - b.len()]);
        assert(reports(c, "invalid-utf8"@));
        lemma_script_kinds(cfg, record.scripts, "invalid-utf8"@);
    }
}

/// Some issue of a kind tells the place and the notation of a number.
pub open spec fn reports_at(issues: Seq<IssueModel>, kind: Seq<char>, place: int, n: u32) -> bool {
    exists|k: int|
        0 <= k < issues.len() && (#[trigger] issues[k]).kind == kind && issues[k].offset == place
            && issues[k].codepoint == Some(text::u_plus_text(n as nat))
}

proof fn lemma_surrogate_place(numbers: Seq<u32>, k: int)
    requires
        numbers.len() <= usize::MAX,
        0 <= k < numbers.len(),
        0xd800 <= numbers[k] <= 0xdfff,
    ensures
        reports_at(engine::surrogate_issues(numbers), "lone-surrogate"@, k, numbers[k]),
    decreases numbers.len(),
{
    let issues = engine::surrogate_issues(numbers);
    if k == numbers.len() - 1 {
        let last = issues.len() - 1;
        assert(issues[last].kind == "lone-surrogate"@);
    } else {
        let front = numbers.drop_last();
        let before = engine::surrogate_issues(front);
        lemma_surrogate_place(front, k);
        let j = choose|j: int|
            0 <= j < before.len() && (#[trigger] before[j]).kind == "lone-surrogate"@
                && before[j].offset == k && before[j].codepoint == Some(
                text::u_plus_text(front[k] as nat),
            );
        assert(issues[j] == before[j]);
    }
}

proof fn lemma_noncharacter_place(tokens: Seq<SourceToken>, k: int)
    requires
        0 <= k < tokens.len(),
        is_noncharacter(tokens[k].codepoint),
    ensures
        reports_at(
            engine::noncharacter_issues(tokens),
            "noncharacter"@,
            tokens[k].offset as int,
            tokens[k].codepoint,
        ),
    decreases tokens.len(),
{
    let issues = engine::noncharacter_issues(tokens);
    if k == tokens.len() - 1 {
        let last = issues.len() - 1;
        assert(issues[last].kind == "noncharacter"@);
    } else {
        let front = tokens.drop_last();
        let before = engine::noncharacter_issues(front);
        lemma_noncharacter_place(front, k);
        let j = choose|j: int|
            0 <= j < before.len() && (#[trigger] before[j]).kind == "noncharacter"@
                && before[j].offset == front[k].offset && before[j].codepoint == Some(
                text::u_plus_text(front[k].codepoint as nat),
            );
        assert(issues[j] == before[j]);
    }
}

/// Surrogates and noncharacters in a list of code points are reported with their place in the list and
/// their notation.
pub proof fn numbers_are_reported_in_place(
    cfg: RuleConfigModel,
    inputs: Seq<InputModel>,
    i: int,
    k: int,
)
    requires
        0 <= i < inputs.len(),
        inputs[i].codepoint_source,
        json::json_numbers(inputs[i].original_bytes) is Some,
        json::json_numbers(inputs[i].original_bytes)->0.len() <= usize::MAX,
        0 <= k < json::json_numbers(inputs[i].original_bytes)->0.len(),
    ensures
        ({
            let numbers = json::json_numbers(inputs[i].original_bytes)->0;
            let issues = engine::analysis_of(cfg, inputs).records[i].issues;
            &&& 0xd800 <= numbers[k] <= 0xdfff ==> reports_at(
                issues,
                "lone-surrogate"@,
                k,
                numbers[k],
            )
            &&& is_noncharacter(numbers[k]) ==> reports_at(issues, "noncharacter"@, k, numbers[k])
        }),
{
    let input = inputs[i];
    let numbers = json::json_numbers(input.original_bytes)->0;
    let record = engine::record_of(cfg, input);
    let decoded = engine::source_of(input);
    let a = decoded.issues;
    let b = engine::noncharacter_issues(decoded.tokens);
    let c = engine::script_issues(cfg.script_policy, record.scripts, engine::allowed_names(cfg));
    assert(record.issues =~= a + b + c);
    if 0xd800 <= numbers[k] <= 0xdfff {
        lemma_surrogate_place(numbers, k);
        let j = choose|j: int|
            0 <= j < a.len() && (#[trigger] a[j]).kind == "lone-surrogate"@ && a[j].offset == k
                && a[j].codepoint == Some(text::u_plus_text(numbers[k] as nat));
        assert(record.issues[j] == a[j]);
    }
    if is_noncharacter(numbers[k]) {
        lemma_noncharacter_place(decoded.tokens, k);
        let j = choose|j: int|
            0 <= j < b.len() && (#[trigger] b[j]).kind == "noncharacter"@ && b[j].offset == k
                && b[j].codepoint == Some(text::u_plus_text(numbers[k] as nat));
        assert(record.issues[a.len() + j] == b[j]);
    }
}

/// What a record is analyzed as is what its first stage shows, if that is a text.
pub proof fn stages_start_from_the_shown_source(
    cfg: RuleConfigModel,
    inputs: Seq<InputModel>,
    i: int,
    t: Seq<char>,
)
    requires
        0 <= i < inputs.len(),
        engine::analysis_of(cfg, inputs).records[i].stages[0].text == Some(t),
    ensures
        exists|normalized: Seq<char>, folded: Seq<char>, stripped: Seq<char>| #[trigger]
            passes(
                cfg,
                engine::analysis_of(cfg, inputs).records[i],
                normalized,
                folded,
                stripped,
            ) && normalizes(cfg, t, normalized),
{
    let input = inputs[i];
    let points = engine::token_points(engine::source_of(input).tokens);
    lemma_passes(cfg, input);
    assert(engine::analysis_of(cfg, inputs).records[i] == engine::record_of(cfg, input));
    assert(source::chars_from(points) == Some(t));
    assert(source::text_from(points) == t);
}

/// How many bytes some numbers take in UTF-8.
pub open spec fn taken_by(tokens: Seq<SourceToken>) -> nat
    decreases tokens.len(),
{
    if tokens.len() == 0 {
        0
    } else {
        encode_scalar(tokens[0].codepoint).len() + taken_by(tokens.drop_first())
    }
}

/// How many bytes some issues tell of.
pub open spec fn told_by(issues: Seq<IssueModel>) -> nat
    decreases issues.len(),
{
    if issues.len() == 0 {
        0
    } else {
        issues[0].bytes.len() + told_by(issues.drop_first())
    }
}

/// A number is read where its UTF-8 bytes stand.
pub open spec fn stands_in(bytes: Seq<u8>, token: SourceToken) -> bool {
    let n = encode_scalar(token.codepoint).len();
    token.offset + n <= bytes.len() && bytes.subrange(token.offset as int, token.offset + n)
        == encode_scalar(token.codepoint)
}

/// No byte of a text is overlooked: each is part of a number that is read where its UTF-8 bytes stand,
/// or of bytes that are reported.
pub proof fn every_byte_is_read_or_reported(bytes: Seq<u8>, at: int)
    requires
        bytes.len() <= usize::MAX,
        0 <= at <= bytes.len(),
    ensures
        ({
            let decoded = source::strict_from(bytes, at);
            &&& taken_by(decoded.tokens) + told_by(decoded.issues) == bytes.len() - at
            &&& forall|k: int|
                0 <= k < decoded.tokens.len() ==> stands_in(bytes, #[trigger] decoded.tokens[k])
        }),
    decreases bytes.len() - at,
{
    let decoded = source::strict_from(bytes, at);
    if at < bytes.len() {
        match source::sequence_len(bytes[at]) {
            None => {
                every_byte_is_read_or_reported(bytes, at + 1);
                assert(decoded.issues.drop_first() =~= source::strict_from(bytes, at + 1).issues);
            },
            Some(n) => if at + n > bytes.len() {
                assert(decoded.issues.drop_first() =~= seq![]);
                assert(told_by(decoded.issues.drop_first()) == 0);
                assert(taken_by(decoded.tokens) == 0);
            } else {
                let sequence = bytes.subrange(at, at + n);
                let rest = source::strict_from(bytes, at + n);
                every_byte_is_read_or_reported(bytes, at + n);
                if valid_first_scalar(sequence) {
                    let v = decode_first_scalar(sequence);
                    decode::lemma_first_scalar_is_scalar(sequence);
                    decode::lemma_first_scalar_bytes(sequence);
                    assert(sequence[0] == bytes[at]);
                    assert(length_of_first_scalar(sequence) == n);
                    assert(sequence.take(n) =~= sequence);
                    assert((v as char) as u32 == v);
                    assert(encode_scalar(v) == sequence);
                    assert(decoded.tokens.drop_first() =~= rest.tokens);
                    assert(decoded.tokens[0].codepoint == v);
                    assert forall|k: int| 0 <= k < decoded.tokens.len() implies stands_in(
                        bytes,
                        #[trigger] decoded.tokens[k],
                    ) by {
                        if k > 0 {
                            assert(decoded.tokens[k] == rest.tokens[k - 1]);
                        }
                    }
                } else {
                    assert(decoded.issues.drop_first() =~= rest.issues);
                    assert(decoded.issues[0].bytes.len() == n);
                }
            },
        }
    }
}

/// A list of code points with surrogates is analyzed as the text that its bytes stand for where every
/// surrogate is replaced: the bytes are read back as the code points of the list.
pub proof fn surrogates_are_replaced(
    cfg: RuleConfigModel,
    inputs: Seq<InputModel>,
    i: int,
    numbers: Seq<u32>,
)
    requires
        0 <= i < inputs.len(),
        inputs[i].codepoint_source,
        json::json_numbers(inputs[i].original_bytes) == Some(numbers),
        forall|k: int| 0 <= k < numbers.len() ==> #[trigger] numbers[k] <= 0x10ffff,
        exists|k: int| 0 <= k < numbers.len() && 0xd800 <= #[trigger] numbers[k] <= 0xdfff,
    ensures
        exists|
            bytes: Seq<u8>,
            normalized: Seq<char>,
            folded: Seq<char>,
            stripped: Seq<char>,
        |
            #![trigger text::lossy_text(bytes), passes(cfg, engine::analysis_of(cfg, inputs).records[i], normalized, folded, stripped)]
            decode::units_of(bytes) == Seq::new(
                numbers.len(),
                |k: int| traces::unit_of(numbers[k]),
            ) && passes(
                cfg,
                engine::analysis_of(cfg, inputs).records[i],
                normalized,
                folded,
                stripped,
            ) && normalizes(cfg, text::lossy_text(bytes), normalized),
{
    let input = inputs[i];
    let points = engine::token_points(engine::source_of(input).tokens);
    let bytes = source::wtf8_bytes(numbers);
    lemma_passes(cfg, input);
    assert(engine::analysis_of(cfg, inputs).records[i] == engine::record_of(cfg, input));
    assert(points =~= numbers);
    let k = choose|k: int| 0 <= k < numbers.len() && 0xd800 <= #[trigger] numbers[k] <= 0xdfff;
    assert(!is_scalar(numbers[k]));
    assert(source::text_from(points) == text::lossy_text(bytes));
    traces::bytes_of_code_points_are_read_back(numbers, seq![]);
    assert(bytes + seq![] =~= bytes);
    let units = Seq::new(numbers.len(), |k: int| traces::unit_of(numbers[k]));
    assert(units + decode::units_of(seq![]) =~= units);
}

} // verus!

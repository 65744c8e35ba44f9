//! Analysis of records under configurable rules and one of two generations of Unicode tables.

use vstd::prelude::*;

pub use crate::base64::base64_encode;
pub use crate::decode::is_noncharacter;
pub use crate::source::{
    codepoints_to_string, decode_utf8_strict, encode_wtf8_codepoints, CodePoint, DecodedSource,
    Issue, SourceToken,
};

use crate::base64;
use crate::decode;
use crate::icu_tables;
use crate::json;
use crate::order;
use crate::source;
use crate::source::{codepoints_text, CodePointModel, DecodedModel, IssueModel};
use crate::stages;
use crate::strmap::{StringMap, StringSet};
use crate::text;
use crate::text::{chars_of, join, numbers_of, str_eq, u_plus, Duplicate};

verus! {

/// A generation of Unicode tables.
#[derive(Debug, Clone, Copy, PartialEq, Eq, Structural)]
pub enum UnicodeTable {
    U15_1,
    U16_0,
}

#[derive(Debug, Clone, Copy, PartialEq, Eq, Structural)]
pub enum NormalizationForm {
    Nfc,
    Nfkc,
}

/// What is demanded of the scripts of a record.
#[derive(Debug, Clone, Copy, PartialEq, Eq, Structural)]
pub enum ScriptPolicy {
    Off,
    /// At most one script.
    Single,
    /// Only scripts of a list.
    Allowed,
}

impl Default for ScriptPolicy {
    fn default() -> (r: Self)
        ensures
            r == ScriptPolicy::Off,
    {
        ScriptPolicy::Off
    }
}

/// The rules of an analysis.
#[derive(Debug, Clone, PartialEq, Eq)]
pub struct RuleConfig {
    pub unicode_table: Option<UnicodeTable>,
    pub case_fold: bool,
    pub normalization: Option<NormalizationForm>,
    pub strip_default_ignorable: bool,
    pub script_policy: ScriptPolicy,
    pub allowed_scripts: StringSet,
}

/// The model of a [`RuleConfig`].
#[verifier::ext_equal]
pub struct RuleConfigModel {
    pub unicode_table: Option<UnicodeTable>,
    pub case_fold: bool,
    pub normalization: Option<NormalizationForm>,
    pub strip_default_ignorable: bool,
    pub script_policy: ScriptPolicy,
    pub allowed_scripts: Set<Seq<char>>,
}

impl DeepView for RuleConfig {
    type V = RuleConfigModel;

    open spec fn deep_view(&self) -> RuleConfigModel {
        RuleConfigModel {
            unicode_table: self.unicode_table,
            case_fold: self.case_fold,
            normalization: self.normalization,
            strip_default_ignorable: self.strip_default_ignorable,
            script_policy: self.script_policy,
            allowed_scripts: self.allowed_scripts@,
        }
    }
}

impl Duplicate for RuleConfig {
    fn duplicate(&self) -> (r: Self) {
        RuleConfig {
            unicode_table: self.unicode_table,
            case_fold: self.case_fold,
            normalization: self.normalization,
            strip_default_ignorable: self.strip_default_ignorable,
            script_policy: self.script_policy,
            allowed_scripts: self.allowed_scripts.duplicate(),
        }
    }
}

/// Rules that ask for nothing.
pub open spec fn default_rules() -> RuleConfigModel {
    RuleConfigModel {
        unicode_table: None,
        case_fold: false,
        normalization: None,
        strip_default_ignorable: false,
        script_policy: ScriptPolicy::Off,
        allowed_scripts: Set::empty(),
    }
}

impl Default for RuleConfig {
    fn default() -> (r: Self)
        ensures
            r.deep_view() == default_rules(),
    {
        RuleConfig {
            unicode_table: None,
            case_fold: false,
            normalization: None,
            strip_default_ignorable: false,
            script_policy: ScriptPolicy::Off,
            allowed_scripts: StringSet::new(),
        }
    }
}

impl RuleConfigModel {
    /// The tables that the rules go by: the newer ones unless they say otherwise.
    pub open spec fn table(self) -> UnicodeTable {
        match self.unicode_table {
            Some(table) => table,
            None => UnicodeTable::U16_0,
        }
    }

    /// The normalization form of the rules: C unless they say otherwise.
    pub open spec fn form(self) -> NormalizationForm {
        match self.normalization {
            Some(form) => form,
            None => NormalizationForm::Nfc,
        }
    }

    /// The rules with what they leave open filled in.
    pub open spec fn resolved(self) -> RuleConfigModel {
        RuleConfigModel {
            unicode_table: Some(self.table()),
            normalization: Some(self.form()),
            ..self
        }
    }

    /// The rules with the versions of their tables.
    pub open spec fn snapshot(self) -> RuleSnapshotModel {
        let older = self.table() == UnicodeTable::U15_1;
        RuleSnapshotModel {
            unicode_version: if older {
                "15.1.0"@
            } else {
                "16.0.0"@
            },
            case_fold: self.case_fold,
            normalization: self.form(),
            strip_default_ignorable: self.strip_default_ignorable,
            script_policy: self.script_policy,
            allowed_scripts: self.allowed_scripts,
            icu_casemap: if older {
                "1.5.1"@
            } else {
                "2.3.0"@
            },
            icu_normalizer: if older {
                "1.5.0"@
            } else {
                "2.3.0"@
            },
            icu_properties: if older {
                "1.5.1"@
            } else {
                "2.3.0"@
            },
        }
    }
}

impl RuleConfig {
    fn table(&self) -> (r: UnicodeTable)
        ensures
            r == self.deep_view().table(),
    {
        match self.unicode_table {
            Some(table) => table,
            None => UnicodeTable::U16_0,
        }
    }

    fn form(&self) -> (r: NormalizationForm)
        ensures
            r == self.deep_view().form(),
    {
        match self.normalization {
            Some(form) => form,
            None => NormalizationForm::Nfc,
        }
    }

    /// Fills in what the rules leave open.
    pub fn resolved(self) -> (r: Self)
        ensures
            r.deep_view() == self.deep_view().resolved(),
    {
        let table = self.table();
        let form = self.form();
        RuleConfig {
            unicode_table: Some(table),
            case_fold: self.case_fold,
            normalization: Some(form),
            strip_default_ignorable: self.strip_default_ignorable,
            script_policy: self.script_policy,
            allowed_scripts: self.allowed_scripts,
        }
    }

    /// The rules with the versions of their tables.
    pub fn snapshot(&self) -> (r: RuleSnapshot)
        ensures
            r.deep_view() == self.deep_view().snapshot(),
    {
        let older = self.table() == UnicodeTable::U15_1;
        let icu = if older {
            "1.5.1"
        } else {
            "2.3.0"
        };
        RuleSnapshot {
            unicode_version: if older {
                "15.1.0".to_owned()
            } else {
                "16.0.0".to_owned()
            },
            case_fold: self.case_fold,
            normalization: self.form(),
            strip_default_ignorable: self.strip_default_ignorable,
            script_policy: self.script_policy,
            allowed_scripts: self.allowed_scripts.duplicate(),
            icu_casemap: icu.to_owned(),
            icu_normalizer: if older {
                "1.5.0".to_owned()
            } else {
                icu.to_owned()
            },
            icu_properties: icu.to_owned(),
        }
    }
}

/// Rules with the versions of their tables.
#[derive(Debug, Clone, PartialEq, Eq)]
pub struct RuleSnapshot {
    pub unicode_version: String,
    pub case_fold: bool,
    pub normalization: NormalizationForm,
    pub strip_default_ignorable: bool,
    pub script_policy: ScriptPolicy,
    pub allowed_scripts: StringSet,
    pub icu_casemap: String,
    pub icu_normalizer: String,
    pub icu_properties: String,
}

/// The model of a [`RuleSnapshot`].
#[verifier::ext_equal]
pub struct RuleSnapshotModel {
    pub unicode_version: Seq<char>,
    pub case_fold: bool,
    pub normalization: NormalizationForm,
    pub strip_default_ignorable: bool,
    pub script_policy: ScriptPolicy,
    pub allowed_scripts: Set<Seq<char>>,
    pub icu_casemap: Seq<char>,
    pub icu_normalizer: Seq<char>,
    pub icu_properties: Seq<char>,
}

impl DeepView for RuleSnapshot {
    type V = RuleSnapshotModel;

    open spec fn deep_view(&self) -> RuleSnapshotModel {
        RuleSnapshotModel {
            unicode_version: self.unicode_version@,
            case_fold: self.case_fold,
            normalization: self.normalization,
            strip_default_ignorable: self.strip_default_ignorable,
            script_policy: self.script_policy,
            allowed_scripts: self.allowed_scripts@,
            icu_casemap: self.icu_casemap@,
            icu_normalizer: self.icu_normalizer@,
            icu_properties: self.icu_properties@,
        }
    }
}

impl Duplicate for RuleSnapshot {
    fn duplicate(&self) -> (r: Self) {
        RuleSnapshot {
            unicode_version: self.unicode_version.duplicate(),
            case_fold: self.case_fold,
            normalization: self.normalization,
            strip_default_ignorable: self.strip_default_ignorable,
            script_policy: self.script_policy,
            allowed_scripts: self.allowed_scripts.duplicate(),
            icu_casemap: self.icu_casemap.duplicate(),
            icu_normalizer: self.icu_normalizer.duplicate(),
            icu_properties: self.icu_properties.duplicate(),
        }
    }
}

/// What one stage made of a record.
#[derive(Debug, Clone, PartialEq, Eq)]
pub struct Stage {
    pub name: String,
    pub codepoints: Vec<CodePoint>,
    pub text: Option<String>,
    pub rule_version: String,
}

/// The model of a [`Stage`].
#[verifier::ext_equal]
pub struct StageModel {
    pub name: Seq<char>,
    pub codepoints: Seq<CodePointModel>,
    pub text: Option<Seq<char>>,
    pub rule_version: Seq<char>,
}

impl DeepView for Stage {
    type V = StageModel;

    open spec fn deep_view(&self) -> StageModel {
        StageModel {
            name: self.name@,
            codepoints: self.codepoints.deep_view(),
            text: self.text.deep_view(),
            rule_version: self.rule_version@,
        }
    }
}

impl Duplicate for Stage {
    fn duplicate(&self) -> (r: Self) {
        Stage {
            name: self.name.duplicate(),
            codepoints: self.codepoints.duplicate(),
            text: self.text.duplicate(),
            rule_version: self.rule_version.duplicate(),
        }
    }
}

/// What the analysis says of one record.
#[derive(Debug, Clone, PartialEq, Eq)]
pub struct AnalyzedRecord {
    pub record_id: String,
    pub source_version: u64,
    pub original_text: Option<String>,
    pub original_base64: String,
    pub stages: Vec<Stage>,
    pub canonical: String,
    pub issues: Vec<Issue>,
    pub eligible: bool,
    pub scripts: StringSet,
    pub mixed_script: bool,
}

/// The model of an [`AnalyzedRecord`].
#[verifier::ext_equal]
pub struct RecordModel {
    pub record_id: Seq<char>,
    pub source_version: u64,
    pub original_text: Option<Seq<char>>,
    pub original_base64: Seq<char>,
    pub stages: Seq<StageModel>,
    pub canonical: Seq<char>,
    pub issues: Seq<IssueModel>,
    pub eligible: bool,
    pub scripts: Set<Seq<char>>,
    pub mixed_script: bool,
}

impl DeepView for AnalyzedRecord {
    type V = RecordModel;

    open spec fn deep_view(&self) -> RecordModel {
        RecordModel {
            record_id: self.record_id@,
            source_version: self.source_version,
            original_text: self.original_text.deep_view(),
            original_base64: self.original_base64@,
            stages: self.stages.deep_view(),
            canonical: self.canonical@,
            issues: self.issues.deep_view(),
            eligible: self.eligible,
            scripts: self.scripts@,
            mixed_script: self.mixed_script,
        }
    }
}

impl Duplicate for AnalyzedRecord {
    fn duplicate(&self) -> (r: Self) {
        AnalyzedRecord {
            record_id: self.record_id.duplicate(),
            source_version: self.source_version,
            original_text: self.original_text.duplicate(),
            original_base64: self.original_base64.duplicate(),
            stages: self.stages.duplicate(),
            canonical: self.canonical.duplicate(),
            issues: self.issues.duplicate(),
            eligible: self.eligible,
            scripts: self.scripts.duplicate(),
            mixed_script: self.mixed_script,
        }
    }
}

/// The eligible records that share a canonical value.
#[derive(Debug, Clone, PartialEq, Eq)]
pub struct Bucket {
    pub canonical: String,
    pub canonical_hex: Vec<String>,
    pub record_ids: Vec<String>,
}

/// The model of a [`Bucket`].
#[verifier::ext_equal]
pub struct BucketModel {
    pub canonical: Seq<char>,
    pub canonical_hex: Seq<Seq<char>>,
    pub record_ids: Seq<Seq<char>>,
}

impl DeepView for Bucket {
    type V = BucketModel;

    open spec fn deep_view(&self) -> BucketModel {
        BucketModel {
            canonical: self.canonical@,
            canonical_hex: self.canonical_hex.deep_view(),
            record_ids: self.record_ids.deep_view(),
        }
    }
}

impl Duplicate for Bucket {
    fn duplicate(&self) -> (r: Self) {
        Bucket {
            canonical: self.canonical.duplicate(),
            canonical_hex: self.canonical_hex.duplicate(),
            record_ids: self.record_ids.duplicate(),
        }
    }
}

/// What the analysis says of all records.
#[derive(Debug, Clone, PartialEq, Eq)]
pub struct Analysis {
    pub rules: RuleSnapshot,
    pub records: Vec<AnalyzedRecord>,
    pub buckets: Vec<Bucket>,
}

/// The model of an [`Analysis`].
#[verifier::ext_equal]
pub struct AnalysisModel {
    pub rules: RuleSnapshotModel,
    pub records: Seq<RecordModel>,
    pub buckets: Seq<BucketModel>,
}

impl DeepView for Analysis {
    type V = AnalysisModel;

    open spec fn deep_view(&self) -> AnalysisModel {
        AnalysisModel {
            rules: self.rules.deep_view(),
            records: self.records.deep_view(),
            buckets: self.buckets.deep_view(),
        }
    }
}

impl Duplicate for Analysis {
    fn duplicate(&self) -> (r: Self) {
        Analysis {
            rules: self.rules.duplicate(),
            records: self.records.duplicate(),
            buckets: self.buckets.duplicate(),
        }
    }
}

/// A record to analyze.
#[derive(Debug, Clone, PartialEq, Eq)]
pub struct EngineInput<'a> {
    pub record_id: &'a str,
    pub source_version: u64,
    pub original_text: Option<&'a str>,
    pub original_bytes: &'a [u8],
    /// The bytes are a JSON list of code points, not UTF-8.
    pub codepoint_source: bool,
}

/// The model of an [`EngineInput`].
#[verifier::ext_equal]
pub struct InputModel {
    pub record_id: Seq<char>,
    pub source_version: u64,
    pub original_text: Option<Seq<char>>,
    pub original_bytes: Seq<u8>,
    pub codepoint_source: bool,
}

impl<'a> DeepView for EngineInput<'a> {
    type V = InputModel;

    open spec fn deep_view(&self) -> InputModel {
        InputModel {
            record_id: self.record_id@,
            source_version: self.source_version,
            original_text: match self.original_text {
                Some(t) => Some(t@),
                None => None,
            },
            original_bytes: self.original_bytes@,
            codepoint_source: self.codepoint_source,
        }
    }
}

/// A normalization form of a text.
pub open spec fn normal_form(
    table: UnicodeTable,
    form: NormalizationForm,
    text: Seq<char>,
) -> Seq<char> {
    match (table, form) {
        (UnicodeTable::U15_1, NormalizationForm::Nfc) => icu_tables::older_form_c(text),
        (UnicodeTable::U15_1, NormalizationForm::Nfkc) => icu_tables::older_form_kc(text),
        (UnicodeTable::U16_0, NormalizationForm::Nfc) => icu_tables::newer_form_c(text),
        (UnicodeTable::U16_0, NormalizationForm::Nfkc) => icu_tables::newer_form_kc(text),
    }
}

/// The full case folding of a text.
pub open spec fn case_folding(table: UnicodeTable, text: Seq<char>) -> Seq<char> {
    match table {
        UnicodeTable::U15_1 => icu_tables::older_folding(text),
        UnicodeTable::U16_0 => icu_tables::newer_folding(text),
    }
}

/// The code points of the normalization form of code points.
pub open spec fn normalized_points(
    table: UnicodeTable,
    form: NormalizationForm,
    codepoints: Seq<u32>,
) -> Seq<u32> {
    text::code_points(normal_form(table, form, source::text_from(codepoints)))
}

/// The code points of the case folding of code points.
pub open spec fn folded_points(table: UnicodeTable, codepoints: Seq<u32>) -> Seq<u32> {
    text::code_points(case_folding(table, source::text_from(codepoints)))
}

/// Whether a code point is default ignorable; one that is no scalar value never is.
pub open spec fn ignorable_point(table: UnicodeTable, codepoint: u32) -> bool {
    match (source::scalar_of(codepoint), table) {
        (Some(c), UnicodeTable::U15_1) => icu_tables::older_ignorable(c),
        (Some(c), UnicodeTable::U16_0) => icu_tables::newer_ignorable(c),
        (None, _) => false,
    }
}

/// Which code points are not default ignorable.
pub open spec fn kept_points(table: UnicodeTable, codepoints: Seq<u32>) -> Seq<bool> {
    Seq::new(codepoints.len(), |i: int| !ignorable_point(table, codepoints[i]))
}

/// The long name of the script of a code point.
pub open spec fn script_name_of(table: UnicodeTable, codepoint: u32) -> Option<Seq<char>> {
    match (source::scalar_of(codepoint), table) {
        (Some(c), UnicodeTable::U15_1) => icu_tables::older_script_name(
            icu_tables::older_script(c),
        ),
        (Some(c), UnicodeTable::U16_0) => icu_tables::newer_script_name(
            icu_tables::newer_script(c),
        ),
        (None, _) => None,
    }
}

/// The long names of the scripts of code points.
pub open spec fn script_names(table: UnicodeTable, codepoints: Seq<u32>) -> Seq<Option<Seq<char>>> {
    Seq::new(codepoints.len(), |i: int| script_name_of(table, codepoints[i]))
}

/// Whether a name stands for a script.
pub open spec fn script_known(table: UnicodeTable, name: Seq<char>) -> bool {
    match table {
        UnicodeTable::U15_1 => icu_tables::older_script_named(name) is Some,
        UnicodeTable::U16_0 => icu_tables::newer_script_named(name) is Some,
    }
}

/// The script name that a listed name allows: itself in the older tables, and the long name of the
/// script that it stands for in the newer ones.
pub open spec fn allowed_name(table: UnicodeTable, name: Seq<char>) -> Option<Seq<char>> {
    match table {
        UnicodeTable::U15_1 => Some(name),
        UnicodeTable::U16_0 => match icu_tables::newer_script_named(name) {
            Some(script) => icu_tables::newer_script_name(script),
            None => None,
        },
    }
}

/// The script names that the rules allow, where their policy is a list.
pub open spec fn allowed_names(cfg: RuleConfigModel) -> Set<Seq<char>> {
    if cfg.script_policy == ScriptPolicy::Allowed {
        Set::new(
            |n: Seq<char>|
                exists|a: Seq<char>|
                    cfg.allowed_scripts.contains(a) && allowed_name(cfg.table(), a) == Some(n),
        )
    } else {
        Set::empty()
    }
}

fn normalize_codepoints(table: UnicodeTable, form: NormalizationForm, input: &[u32]) -> (r: Vec<
    u32,
>)
    ensures
        r@ == normalized_points(table, form, input@),
{
    let text = codepoints_text(input);
    let normalized = match (table, form) {
        (UnicodeTable::U15_1, NormalizationForm::Nfc) => icu_tables::to_older_form_c(
            text.as_str(),
        ),
        (UnicodeTable::U15_1, NormalizationForm::Nfkc) => icu_tables::to_older_form_kc(
            text.as_str(),
        ),
        (UnicodeTable::U16_0, NormalizationForm::Nfc) => icu_tables::to_newer_form_c(
            text.as_str(),
        ),
        (UnicodeTable::U16_0, NormalizationForm::Nfkc) => icu_tables::to_newer_form_kc(
            text.as_str(),
        ),
    };
    numbers_of(chars_of(normalized.as_str()).as_slice())
}

fn fold_codepoints(table: UnicodeTable, input: &[u32]) -> (r: Vec<u32>)
    ensures
        r@ == folded_points(table, input@),
{
    let text = codepoints_text(input);
    let folded = match table {
        UnicodeTable::U15_1 => icu_tables::to_older_folding(text.as_str()),
        UnicodeTable::U16_0 => icu_tables::to_newer_folding(text.as_str()),
    };
    numbers_of(chars_of(folded.as_str()).as_slice())
}

fn is_default_ignorable(table: UnicodeTable, codepoint: u32) -> (r: bool)
    ensures
        r == ignorable_point(table, codepoint),
{
    match char::from_u32(codepoint) {
        Some(c) => match table {
            UnicodeTable::U15_1 => icu_tables::is_older_ignorable(c),
            UnicodeTable::U16_0 => icu_tables::is_newer_ignorable(c),
        },
        None => false,
    }
}

fn script_name(table: UnicodeTable, codepoint: u32) -> (r: Option<String>)
    ensures
        r.deep_view() == script_name_of(table, codepoint),
{
    match char::from_u32(codepoint) {
        Some(c) => match table {
            UnicodeTable::U15_1 => icu_tables::name_of_older_script(
                icu_tables::older_script_of(c),
            ),
            UnicodeTable::U16_0 => icu_tables::name_of_newer_script(
                icu_tables::newer_script_of(c),
            ),
        },
        None => None,
    }
}

fn script_code_valid(table: UnicodeTable, name: &str) -> (r: bool)
    ensures
        r == script_known(table, name@),
{
    match table {
        UnicodeTable::U15_1 => icu_tables::older_script_by_name(name).is_some(),
        UnicodeTable::U16_0 => icu_tables::newer_script_by_name(name).is_some(),
    }
}

fn allowed_script(table: UnicodeTable, name: &str) -> (r: Option<String>)
    ensures
        r.deep_view() == allowed_name(table, name@),
{
    match table {
        UnicodeTable::U15_1 => Some(name.to_owned()),
        UnicodeTable::U16_0 => match icu_tables::newer_script_by_name(name) {
            Some(script) => icu_tables::name_of_newer_script(script),
            None => None,
        },
    }
}

/// An issue that is about no bytes.
pub open spec fn plain_issue(
    kind: Seq<char>,
    offset: usize,
    codepoint: Option<Seq<char>>,
    message: Seq<char>,
    script: Option<Seq<char>>,
) -> IssueModel {
    IssueModel { kind, offset, codepoint, bytes: seq![], message, script }
}

fn issue(
    kind: &str,
    offset: usize,
    codepoint: Option<String>,
    message: &str,
    script: Option<String>,
) -> (r: Issue)
    ensures
        r.deep_view() == plain_issue(
            kind@,
            offset,
            codepoint.deep_view(),
            message@,
            script.deep_view(),
        ),
{
    let r = Issue {
        kind: kind.to_owned(),
        offset,
        codepoint,
        bytes: Vec::new(),
        message: message.to_owned(),
        script,
    };
    proof {
        assert(r.bytes.deep_view() =~= Seq::<Seq<char>>::empty());
    }
    r
}

/// The tokens of a list of code points, each at its place in the list.
pub open spec fn listed_tokens(codepoints: Seq<u32>) -> Seq<SourceToken> {
    Seq::new(
        codepoints.len(),
        |i: int| SourceToken { codepoint: codepoints[i], offset: i as usize },
    )
}

/// The issues of a list of code points: its surrogates.
pub open spec fn surrogate_issues(codepoints: Seq<u32>) -> Seq<IssueModel>
    decreases codepoints.len(),
{
    if codepoints.len() == 0 {
        seq![]
    } else {
        let before = surrogate_issues(codepoints.drop_last());
        if source::surrogate(codepoints.last()) {
            before.push(
                plain_issue(
                    "lone-surrogate"@,
                    (codepoints.len() - 1) as usize,
                    Some(text::u_plus_text(codepoints.last() as nat)),
                    "unpaired Unicode surrogate"@,
                    None,
                ),
            )
        } else {
            before
        }
    }
}

/// The issues of tokens that are noncharacters.
pub open spec fn noncharacter_issues(tokens: Seq<SourceToken>) -> Seq<IssueModel>
    decreases tokens.len(),
{
    if tokens.len() == 0 {
        seq![]
    } else {
        let before = noncharacter_issues(tokens.drop_last());
        if decode::noncharacter(tokens.last().codepoint) {
            before.push(
                plain_issue(
                    "noncharacter"@,
                    tokens.last().offset,
                    Some(text::u_plus_text(tokens.last().codepoint as nat)),
                    "Unicode noncharacter code point"@,
                    None,
                ),
            )
        } else {
            before
        }
    }
}

/// The source of a record whose bytes were read as a list of code points.
pub open spec fn listed_source(codepoints: Seq<u32>) -> DecodedModel {
    DecodedModel {
        tokens: listed_tokens(codepoints),
        issues: surrogate_issues(codepoints),
        valid_utf8: true,
    }
}

/// The source of a record whose bytes were read as a list of code points.
pub fn list_source(codepoints: &[u32]) -> (r: DecodedSource)
    ensures
        r.deep_view() == listed_source(codepoints@),
{
    broadcast use {text::lemma_models_push, text::lemma_vec_model};

    let mut tokens: Vec<SourceToken> = Vec::new();
    let mut issues: Vec<Issue> = Vec::new();
    proof {
        assert(codepoints@.take(0) =~= Seq::<u32>::empty());
        assert(text::models(issues@) =~= Seq::<IssueModel>::empty());
    }
    for i in 0..codepoints.len()
        invariant
            tokens@ == listed_tokens(codepoints@.take(i as int)),
            text::models(issues@) == surrogate_issues(codepoints@.take(i as int)),
    {
        let codepoint = codepoints[i];
        proof {
            assert(codepoints@.take(i + 1).drop_last() =~= codepoints@.take(i as int));
            assert(codepoints@.take(i + 1).last() == codepoint);
        }
        tokens.push(SourceToken { codepoint, offset: i });
        proof {
            assert(tokens@ =~= listed_tokens(codepoints@.take(i + 1)));
        }
        if 0xd800 <= codepoint && codepoint <= 0xdfff {
            issues.push(
                issue(
                    "lone-surrogate",
                    i,
                    Some(u_plus(codepoint)),
                    "unpaired Unicode surrogate",
                    None,
                ),
            );
        }
    }
    proof {
        assert(codepoints@.take(codepoints@.len() as int) =~= codepoints@);
    }
    DecodedSource { tokens, issues, valid_utf8: true }
}

/// The source of a record.
pub open spec fn source_of(input: InputModel) -> DecodedModel {
    if input.codepoint_source {
        listed_source(
            match json::json_numbers(input.original_bytes) {
                Some(codepoints) => codepoints,
                None => seq![],
            },
        )
    } else {
        source::strictly_decoded(input.original_bytes)
    }
}

fn parse_codepoint_bytes(bytes: &[u8]) -> (r: Vec<u32>)
    ensures
        r@ == (match json::json_numbers(bytes@) {
            Some(codepoints) => codepoints,
            None => seq![],
        }),
{
    match json::numbers_from_json(bytes) {
        Some(codepoints) => {
            proof {
                assert(codepoints@ =~= codepoints.deep_view());
            }
            codepoints
        },
        None => Vec::new(),
    }
}

/// The code points of tokens.
pub open spec fn token_points(tokens: Seq<SourceToken>) -> Seq<u32> {
    Seq::new(tokens.len(), |i: int| tokens[i].codepoint)
}

/// The code points of a record after each stage.
#[verifier::ext_equal]
pub struct PointsModel {
    pub normalized: Seq<u32>,
    pub folded: Seq<u32>,
    pub stripped: Seq<u32>,
    pub canonical: Seq<u32>,
}

/// The code points of a record after each stage.
pub struct Points {
    pub normalized: Vec<u32>,
    pub folded: Vec<u32>,
    pub stripped: Vec<u32>,
    pub canonical: Vec<u32>,
}

impl DeepView for Points {
    type V = PointsModel;

    open spec fn deep_view(&self) -> PointsModel {
        PointsModel {
            normalized: self.normalized@,
            folded: self.folded@,
            stripped: self.stripped@,
            canonical: self.canonical@,
        }
    }
}

/// What the rules make of code points, stage by stage.
pub open spec fn points_of(cfg: RuleConfigModel, codepoints: Seq<u32>) -> PointsModel {
    let normalized = normalized_points(cfg.table(), cfg.form(), codepoints);
    let folded = if cfg.case_fold {
        folded_points(cfg.table(), normalized)
    } else {
        normalized
    };
    let stripped = if cfg.strip_default_ignorable {
        stages::marked(folded, kept_points(cfg.table(), folded))
    } else {
        folded
    };
    PointsModel {
        normalized,
        folded,
        stripped,
        canonical: normalized_points(cfg.table(), cfg.form(), stripped),
    }
}

fn strip_codepoints(table: UnicodeTable, input: &[u32]) -> (r: Vec<u32>)
    ensures
        r@ == stages::marked(input@, kept_points(table, input@)),
{
    let ghost marks = kept_points(table, input@);
    let mut out: Vec<u32> = Vec::new();
    proof {
        assert(marks.take(0) =~= Seq::<bool>::empty());
    }
    for i in 0..input.len()
        invariant
            marks == kept_points(table, input@),
            out@ == stages::marked(input@, marks.take(i as int)),
    {
        proof {
            assert(marks.take(i + 1).drop_last() =~= marks.take(i as int));
            assert(marks.take(i + 1).last() == marks[i as int]);
        }
        if !is_default_ignorable(table, input[i]) {
            out.push(input[i]);
        }
    }
    proof {
        assert(marks.take(marks.len() as int) =~= marks);
    }
    out
}

fn copy_points(points: &Vec<u32>) -> (r: Vec<u32>)
    ensures
        r@ == points@,
{
    let r = points.duplicate();
    proof {
        assert(r@ =~= r.deep_view());
        assert(points@ =~= points.deep_view());
    }
    r
}

/// Runs code points through the stages that the rules ask for.
fn rewrite(config: &RuleConfig, codepoints: &[u32]) -> (r: Points)
    ensures
        r.deep_view() == points_of(config.deep_view(), codepoints@),
{
    let table = config.table();
    let form = config.form();
    let normalized = normalize_codepoints(table, form, codepoints);
    let folded = if config.case_fold {
        fold_codepoints(table, normalized.as_slice())
    } else {
        copy_points(&normalized)
    };
    let stripped = if config.strip_default_ignorable {
        strip_codepoints(table, folded.as_slice())
    } else {
        copy_points(&folded)
    };
    let canonical = normalize_codepoints(table, form, stripped.as_slice());
    Points { normalized, folded, stripped, canonical }
}

/// Code points with their notations.
pub open spec fn shown_points(codepoints: Seq<u32>) -> Seq<CodePointModel> {
    Seq::new(codepoints.len(), |i: int| source::code_point(codepoints[i]))
}

/// A stage as it is shown.
pub open spec fn stage_of(name: Seq<char>, codepoints: Seq<u32>, version: Seq<char>) -> StageModel {
    StageModel {
        name,
        codepoints: shown_points(codepoints),
        text: source::chars_from(codepoints),
        rule_version: version,
    }
}

/// The five stages of a record.
pub open spec fn stages_of(
    cfg: RuleConfigModel,
    codepoints: Seq<u32>,
    points: PointsModel,
) -> Seq<StageModel> {
    let version = cfg.snapshot().unicode_version;
    let compatible = cfg.form() == NormalizationForm::Nfkc;
    seq![
        stage_of("source"@, codepoints, version),
        stage_of(
            if compatible {
                "nfkc-initial"@
            } else {
                "nfc-initial"@
            },
            points.normalized,
            version,
        ),
        stage_of(
            if cfg.case_fold {
                "case-fold"@
            } else {
                "case-fold-skipped"@
            },
            points.folded,
            version,
        ),
        stage_of(
            if cfg.strip_default_ignorable {
                "strip-default-ignorable"@
            } else {
                "default-ignorable-retained"@
            },
            points.stripped,
            version,
        ),
        stage_of(
            if compatible {
                "nfkc-final"@
            } else {
                "nfc-final"@
            },
            points.canonical,
            version,
        ),
    ]
}

fn stage(name: &str, codepoints: &[u32], version: &str) -> (r: Stage)
    ensures
        r.deep_view() == stage_of(name@, codepoints@, version@),
{
    let mut shown: Vec<CodePoint> = Vec::new();
    for i in 0..codepoints.len()
        invariant
            shown@.len() == i,
            forall|k: int|
                0 <= k < i ==> (#[trigger] shown@[k]).deep_view() == source::code_point(
                    codepoints@[k],
                ),
    {
        shown.push(CodePoint::new(codepoints[i]));
    }
    proof {
        assert(shown.deep_view() =~= shown_points(codepoints@));
    }
    Stage {
        name: name.to_owned(),
        codepoints: shown,
        text: codepoints_to_string(codepoints),
        rule_version: version.to_owned(),
    }
}

fn list_stages(config: &RuleConfig, codepoints: &[u32], points: &Points) -> (r: Vec<Stage>)
    ensures
        r.deep_view() == stages_of(config.deep_view(), codepoints@, points.deep_view()),
{
    let snapshot = config.snapshot();
    let version = snapshot.unicode_version.as_str();
    let compatible = config.form() == NormalizationForm::Nfkc;
    let mut out: Vec<Stage> = Vec::new();
    out.push(stage("source", codepoints, version));
    let name = if compatible {
        "nfkc-initial"
    } else {
        "nfc-initial"
    };
    out.push(stage(name, points.normalized.as_slice(), version));
    let name = if config.case_fold {
        "case-fold"
    } else {
        "case-fold-skipped"
    };
    out.push(stage(name, points.folded.as_slice(), version));
    let name = if config.strip_default_ignorable {
        "strip-default-ignorable"
    } else {
        "default-ignorable-retained"
    };
    out.push(stage(name, points.stripped.as_slice(), version));
    let name = if compatible {
        "nfkc-final"
    } else {
        "nfc-final"
    };
    out.push(stage(name, points.canonical.as_slice(), version));
    proof {
        assert(out.deep_view() =~= stages_of(
            config.deep_view(),
            codepoints@,
            points.deep_view(),
        ));
    }
    out
}

/// The scripts among the names of a record's code points, without Common and Inherited.
pub open spec fn scripts_among(names: Seq<Option<Seq<char>>>) -> Set<Seq<char>> {
    Set::new(|n: Seq<char>| n != "Common"@ && n != "Inherited"@ && names.contains(Some(n)))
}

/// More than one script.
pub open spec fn mixed(scripts: Set<Seq<char>>) -> bool {
    order::in_order(scripts).len() > 1
}

/// The issues of scripts that are not allowed, for a list of scripts.
pub open spec fn disallowed_issues(
    scripts: Seq<Seq<char>>,
    allowed: Set<Seq<char>>,
) -> Seq<IssueModel>
    decreases scripts.len(),
{
    if scripts.len() == 0 {
        seq![]
    } else {
        let before = disallowed_issues(scripts.drop_last(), allowed);
        if allowed.contains(scripts.last()) {
            before
        } else {
            before.push(
                plain_issue(
                    "script-restriction"@,
                    0,
                    None,
                    "script is not in allowed list"@,
                    Some(scripts.last()),
                ),
            )
        }
    }
}

/// The issues about scripts: that there is more than one, and what the policy forbids.
pub open spec fn script_issues(
    policy: ScriptPolicy,
    scripts: Set<Seq<char>>,
    allowed: Set<Seq<char>>,
) -> Seq<IssueModel> {
    let risk = if mixed(scripts) {
        seq![
            plain_issue(
                "mixed-script-risk"@,
                0,
                None,
                "multiple non-common scripts in normalized value"@,
                Some(text::joined(order::in_order(scripts), ","@)),
            ),
        ]
    } else {
        seq![]
    };
    match policy {
        ScriptPolicy::Off => risk,
        ScriptPolicy::Single => if mixed(scripts) {
            risk.push(
                plain_issue(
                    "script-restriction"@,
                    0,
                    None,
                    "single-script policy rejected this value"@,
                    None,
                ),
            )
        } else {
            risk
        },
        ScriptPolicy::Allowed => risk + disallowed_issues(order::in_order(scripts), allowed),
    }
}

fn gather_scripts(names: &Vec<Option<String>>) -> (r: StringSet)
    ensures
        r@ == scripts_among(names.deep_view()),
{
    let mut scripts = StringSet::new();
    let ghost model = names.deep_view();
    for i in 0..names.len()
        invariant
            model == names.deep_view(),
            scripts@ == scripts_among(model.take(i as int)),
    {
        let ghost before = model.take(i as int);
        let ghost after = model.take(i + 1);
        proof {
            assert(after =~= before.push(model[i as int]));
            assert(model[i as int] == names@[i as int].deep_view());
            assert forall|n: Seq<char>|
                after.contains(Some(n)) <==> before.contains(Some(n)) || model[i as int] == Some(
                    n,
                ) by {
                if before.contains(Some(n)) {
                    let k = choose|k: int| 0 <= k < before.len() && before[k] == Some(n);
                    assert(after[k] == Some(n));
                }
                if after.contains(Some(n)) {
                    let k = choose|k: int| 0 <= k < after.len() && after[k] == Some(n);
                    if k < before.len() {
                        assert(before[k] == Some(n));
                    }
                }
                if model[i as int] == Some(n) {
                    assert(after[i as int] == Some(n));
                }
            }
        }
        if let Some(name) = &names[i] {
            if !str_eq(name.as_str(), "Common") && !str_eq(name.as_str(), "Inherited") {
                scripts.insert(name.clone());
            }
        }
        proof {
            assert(scripts@ =~= scripts_among(after));
        }
    }
    proof {
        assert(model.take(model.len() as int) =~= model);
    }
    scripts
}

fn list_script_issues(policy: ScriptPolicy, scripts: &StringSet, allowed: &StringSet) -> (r: Vec<
    Issue,
>)
    ensures
        r.deep_view() == script_issues(policy, scripts@, allowed@),
{
    broadcast use {text::lemma_models_push, text::lemma_vec_model};

    let n = scripts.len();
    let ghost items = scripts.items();
    let mut issues: Vec<Issue> = Vec::new();
    let mut names: Vec<String> = Vec::new();
    let mut i: usize = 0;
    while i < n
        invariant
            n == items.len(),
            items == scripts.items(),
            i <= n,
            names@.len() == i,
            forall|k: int| 0 <= k < i ==> (#[trigger] names@[k])@ == items[k],
        decreases n - i,
    {
        names.push(scripts.at(i).clone());
        i += 1;
    }
    proof {
        assert(names.deep_view() =~= items);
        assert(text::models(issues@) =~= Seq::<IssueModel>::empty());
    }
    if n > 1 {
        issues.push(
            issue(
                "mixed-script-risk",
                0,
                None,
                "multiple non-common scripts in normalized value",
                Some(join(&names, ",")),
            ),
        );
    }
    let ghost risk = text::models(issues@);
    proof {
        let want = if mixed(scripts@) {
            seq![
                plain_issue(
                    "mixed-script-risk"@,
                    0,
                    None,
                    "multiple non-common scripts in normalized value"@,
                    Some(text::joined(order::in_order(scripts@), ","@)),
                ),
            ]
        } else {
            seq![]
        };
        assert(risk =~= want);
    }
    match policy {
        ScriptPolicy::Off => {},
        ScriptPolicy::Single => {
            if n > 1 {
                issues.push(
                    issue(
                        "script-restriction",
                        0,
                        None,
                        "single-script policy rejected this value",
                        None,
                    ),
                );
            }
        },
        ScriptPolicy::Allowed => {
            let mut i: usize = 0;
            proof {
                assert(items.take(0) =~= Seq::<Seq<char>>::empty());
                assert(risk =~= risk + disallowed_issues(items.take(0), allowed@));
            }
            while i < n
                invariant
                    n == items.len(),
                    items == scripts.items(),
                    i <= n,
                    text::models(issues@) == risk + disallowed_issues(
                        items.take(i as int),
                        allowed@,
                    ),
                decreases n - i,
            {
                let script = scripts.at(i);
                let ghost before = text::models(issues@);
                proof {
                    assert(items.take(i + 1).drop_last() =~= items.take(i as int));
                    assert(items.take(i + 1).last() == script@);
                }
                if !allowed.contains(script.as_str()) {
                    let found = issue(
                        "script-restriction",
                        0,
                        None,
                        "script is not in allowed list",
                        Some(script.clone()),
                    );
                    issues.push(found);
                    proof {
                        assert(text::models(issues@) == before.push(found.deep_view()));
                    }
                }
                proof {
                    assert(text::models(issues@) =~= risk + disallowed_issues(
                        items.take(i + 1),
                        allowed@,
                    ));
                }
                i += 1;
            }
            proof {
                assert(items.take(n as int) =~= items);
            }
        },
    }
    issues
}

/// The kinds of issues that keep a record out of the buckets.
pub open spec fn blocking(kind: Seq<char>) -> bool {
    kind == "invalid-utf8"@ || kind == "lone-surrogate"@ || kind == "noncharacter"@ || kind
        == "script-restriction"@
}

/// No issue keeps the record out.
pub open spec fn nothing_blocks(issues: Seq<IssueModel>) -> bool {
    forall|i: int| 0 <= i < issues.len() ==> !blocking((#[trigger] issues[i]).kind)
}

fn is_eligible(issues: &Vec<Issue>) -> (r: bool)
    ensures
        r == nothing_blocks(issues.deep_view()),
{
    for i in 0..issues.len()
        invariant
            forall|k: int| 0 <= k < i ==> !blocking((#[trigger] issues.deep_view()[k]).kind),
    {
        let kind = issues[i].kind.as_str();
        if str_eq(kind, "invalid-utf8") || str_eq(kind, "lone-surrogate") || str_eq(
            kind,
            "noncharacter",
        ) || str_eq(kind, "script-restriction") {
            proof {
                assert(blocking(issues.deep_view()[i as int].kind));
            }
            return false;
        }
    }
    true
}

/// What is said of a record, given its source, its code points after each stage, the script names
/// of its canonical code points, and the script names that are allowed.
pub open spec fn record_with(
    cfg: RuleConfigModel,
    input: InputModel,
    decoded: DecodedModel,
    points: PointsModel,
    names: Seq<Option<Seq<char>>>,
    allowed: Set<Seq<char>>,
) -> RecordModel {
    let scripts = scripts_among(names);
    let issues = decoded.issues + noncharacter_issues(decoded.tokens) + script_issues(
        cfg.script_policy,
        scripts,
        allowed,
    );
    RecordModel {
        record_id: input.record_id,
        source_version: input.source_version,
        original_text: input.original_text,
        original_base64: base64::base64_text(input.original_bytes),
        stages: stages_of(cfg, token_points(decoded.tokens), points),
        canonical: match source::chars_from(points.canonical) {
            Some(chars) => chars,
            None => seq![],
        },
        issues,
        eligible: nothing_blocks(issues),
        scripts,
        mixed_script: mixed(scripts),
    }
}

/// What is said of a record.
pub open spec fn record_of(cfg: RuleConfigModel, input: InputModel) -> RecordModel {
    let decoded = source_of(input);
    let points = points_of(cfg, token_points(decoded.tokens));
    record_with(
        cfg,
        input,
        decoded,
        points,
        script_names(cfg.table(), points.canonical),
        allowed_names(cfg),
    )
}

fn points_of_tokens(tokens: &Vec<SourceToken>) -> (r: Vec<u32>)
    ensures
        r@ == token_points(tokens@),
{
    let mut out: Vec<u32> = Vec::new();
    for i in 0..tokens.len()
        invariant
            out@ == token_points(tokens@.take(i as int)),
    {
        out.push(tokens[i].codepoint);
        proof {
            assert(out@ =~= token_points(tokens@.take(i + 1)));
        }
    }
    proof {
        assert(tokens@.take(tokens@.len() as int) =~= tokens@);
    }
    out
}

fn list_noncharacters(tokens: &Vec<SourceToken>) -> (r: Vec<Issue>)
    ensures
        r.deep_view() == noncharacter_issues(tokens@),
{
    broadcast use {text::lemma_models_push, text::lemma_vec_model};

    let mut issues: Vec<Issue> = Vec::new();
    proof {
        assert(tokens@.take(0) =~= Seq::<SourceToken>::empty());
        assert(text::models(issues@) =~= Seq::<IssueModel>::empty());
    }
    for i in 0..tokens.len()
        invariant
            text::models(issues@) == noncharacter_issues(tokens@.take(i as int)),
    {
        let codepoint = tokens[i].codepoint;
        proof {
            assert(tokens@.take(i + 1).drop_last() =~= tokens@.take(i as int));
            assert(tokens@.take(i + 1).last() == tokens@[i as int]);
        }
        if is_noncharacter(codepoint) {
            issues.push(
                issue(
                    "noncharacter",
                    tokens[i].offset,
                    Some(u_plus(codepoint)),
                    "Unicode noncharacter code point",
                    None,
                ),
            );
        }
    }
    proof {
        assert(tokens@.take(tokens@.len() as int) =~= tokens@);
    }
    issues
}

/// Composes what is said of a record from its source, its code points after each stage, the script
/// names of its canonical code points, and the script names that are allowed.
pub fn compose_record(
    config: &RuleConfig,
    input: &EngineInput<'_>,
    decoded: DecodedSource,
    points: &Points,
    names: &Vec<Option<String>>,
    allowed: &StringSet,
) -> (r: AnalyzedRecord)
    ensures
        r.deep_view() == record_with(
            config.deep_view(),
            input.deep_view(),
            decoded.deep_view(),
            points.deep_view(),
            names.deep_view(),
            allowed@,
        ),
{
    broadcast use {text::lemma_models_push, text::lemma_vec_model};

    let codepoints = points_of_tokens(&decoded.tokens);
    let scripts = gather_scripts(names);
    let mut issues = decoded.issues;
    let mut found = list_noncharacters(&decoded.tokens);
    let mut script_found = list_script_issues(config.script_policy, &scripts, allowed);
    let ghost wanted = issues.deep_view() + found.deep_view() + script_found.deep_view();
    issues.append(&mut found);
    issues.append(&mut script_found);
    proof {
        assert(issues.deep_view() =~= wanted);
    }
    let canonical = match codepoints_to_string(points.canonical.as_slice()) {
        Some(text) => text,
        None => String::new(),
    };
    let eligible = is_eligible(&issues);
    let mixed_script = scripts.len() > 1;
    AnalyzedRecord {
        record_id: input.record_id.to_owned(),
        source_version: input.source_version,
        original_text: match input.original_text {
            Some(text) => Some(text.to_owned()),
            None => None,
        },
        original_base64: base64_encode(input.original_bytes),
        stages: list_stages(config, codepoints.as_slice(), points),
        canonical,
        issues,
        eligible,
        scripts,
        mixed_script,
    }
}

fn name_scripts(table: UnicodeTable, codepoints: &[u32]) -> (r: Vec<Option<String>>)
    ensures
        r.deep_view() == script_names(table, codepoints@),
{
    let mut out: Vec<Option<String>> = Vec::new();
    for i in 0..codepoints.len()
        invariant
            out@.len() == i,
            forall|k: int|
                0 <= k < i ==> (#[trigger] out@[k]).deep_view() == script_name_of(
                    table,
                    codepoints@[k],
                ),
    {
        out.push(script_name(table, codepoints[i]));
    }
    proof {
        assert(out.deep_view() =~= script_names(table, codepoints@));
    }
    out
}

fn gather_allowed(config: &RuleConfig) -> (r: StringSet)
    ensures
        r@ == allowed_names(config.deep_view()),
{
    let mut allowed = StringSet::new();
    let ghost cfg = config.deep_view();
    if config.script_policy == ScriptPolicy::Allowed {
        let table = config.table();
        let n = config.allowed_scripts.len();
        let ghost items = config.allowed_scripts.items();
        let mut i: usize = 0;
        while i < n
            invariant
                table == cfg.table(),
                n == items.len(),
                items == config.allowed_scripts.items(),
                i <= n,
                forall|m: Seq<char>| #[trigger]
                    allowed@.contains(m) <==> exists|k: int|
                        0 <= k < i && allowed_name(table, #[trigger] items[k]) == Some(m),
            decreases n - i,
        {
            let name = config.allowed_scripts.at(i);
            let ghost before = allowed@;
            match allowed_script(table, name.as_str()) {
                Some(long) => {
                    let ghost l = long@;
                    allowed.insert(long);
                    proof {
                        assert forall|m: Seq<char>| #[trigger]
                            allowed@.contains(m) <==> exists|k: int|
                                0 <= k < i + 1 && allowed_name(table, #[trigger] items[k]) == Some(
                                    m,
                                ) by {
                            if before.contains(m) {
                                let k = choose|k: int|
                                    0 <= k < i && allowed_name(table, #[trigger] items[k]) == Some(
                                        m,
                                    );
                                assert(allowed_name(table, items[k]) == Some(m));
                            }
                            if m == l {
                                assert(allowed_name(table, items[i as int]) == Some(m));
                            }
                        }
                    }
                },
                None => {
                    proof {
                        assert(allowed_name(table, items[i as int]) is None);
                    }
                },
            }
            i += 1;
        }
        proof {
            assert forall|m: Seq<char>| #[trigger]
                allowed@.contains(m) <==> allowed_names(cfg).contains(m) by {
                if allowed@.contains(m) {
                    let k = choose|k: int|
                        0 <= k < n && allowed_name(table, #[trigger] items[k]) == Some(m);
                    assert(items.contains(items[k]));
                    assert(cfg.allowed_scripts.contains(items[k]));
                }
                if allowed_names(cfg).contains(m) {
                    let a = choose|a: Seq<char>|
                        cfg.allowed_scripts.contains(a) && allowed_name(table, a) == Some(m);
                    assert(items.contains(a));
                    let k = choose|k: int| 0 <= k < items.len() && items[k] == a;
                    assert(allowed_name(table, items[k]) == Some(m));
                }
            }
        }
    }
    proof {
        assert(allowed@ =~= allowed_names(cfg));
    }
    allowed
}

fn analyze_input(config: &RuleConfig, input: &EngineInput<'_>) -> (r: AnalyzedRecord)
    ensures
        r.deep_view() == record_of(config.deep_view(), input.deep_view()),
{
    let decoded = if input.codepoint_source {
        let codepoints = parse_codepoint_bytes(input.original_bytes);
        list_source(codepoints.as_slice())
    } else {
        decode_utf8_strict(input.original_bytes)
    };
    let codepoints = points_of_tokens(&decoded.tokens);
    let points = rewrite(config, codepoints.as_slice());
    let names = name_scripts(config.table(), points.canonical.as_slice());
    let allowed = gather_allowed(config);
    compose_record(config, input, decoded, &points, &names, &allowed)
}

/// Analyzes one record.
pub fn analyze_one(config: &RuleConfig, input: EngineInput<'_>) -> (r: AnalyzedRecord)
    ensures
        r.deep_view() == record_of(config.deep_view(), input.deep_view()),
{
    analyze_input(config, &input)
}

/// What is said of a script name that stands for no script.
pub open spec fn unknown_script_text(name: Seq<char>) -> Seq<char> {
    "unknown script `"@ + name + "`"@
}

/// The first of some script names that is not known.
pub open spec fn first_unknown(table: UnicodeTable, names: Seq<Seq<char>>) -> Option<Seq<char>>
    decreases names.len(),
{
    if names.len() == 0 {
        None
    } else {
        match first_unknown(table, names.drop_last()) {
            Some(name) => Some(name),
            None => if script_known(table, names.last()) {
                None
            } else {
                Some(names.last())
            },
        }
    }
}

/// The first script, in ascending order, that the rules list and their tables do not know.
pub open spec fn unknown_script(cfg: RuleConfigModel) -> Option<Seq<char>> {
    first_unknown(cfg.table(), order::in_order(cfg.allowed_scripts))
}

proof fn lemma_first_unknown(table: UnicodeTable, names: Seq<Seq<char>>, n: int)
    requires
        0 <= n <= names.len(),
        forall|k: int| 0 <= k < n ==> script_known(table, #[trigger] names[k]),
    ensures
        first_unknown(table, names.take(n)) is None,
        n < names.len() && !script_known(table, names[n]) ==> first_unknown(table, names) == Some(
            names[n],
        ),
    decreases names.len(),
{
    if n > 0 {
        lemma_first_unknown(table, names.take(n - 1), n - 1);
        assert(names.take(n).drop_last() =~= names.take(n - 1));
        assert(names.take(n - 1).take(n - 1) =~= names.take(n - 1));
        assert(names.take(n).last() == names[n - 1]);
    }
    if n < names.len() && !script_known(table, names[n]) {
        if n == names.len() - 1 {
            assert(names.drop_last() =~= names.take(n));
        } else {
            let front = names.drop_last();
            assert forall|k: int| 0 <= k < n implies script_known(table, #[trigger] front[k]) by {
                assert(front[k] == names[k]);
            }
            lemma_first_unknown(table, front, n);
            assert(front[n] == names[n]);
        }
    }
}

/// The verdict on listed scripts, where `known` says of each, in ascending order, whether it is
/// known: the first that is not is refused.
pub fn check_scripts(scripts: &StringSet, known: &Vec<bool>) -> (r: Result<(), String>)
    requires
        known@.len() == scripts.items().len(),
    ensures
        r is Ok <==> forall|i: int| 0 <= i < known@.len() ==> #[trigger] known@[i],
        r is Err ==> exists|i: int|
            {
                &&& 0 <= i < known@.len()
                &&& !#[trigger] known@[i]
                &&& forall|k: int| 0 <= k < i ==> #[trigger] known@[k]
                &&& r->Err_0@ == unknown_script_text(scripts.items()[i])
            },
{
    for i in 0..known.len()
        invariant
            known@.len() == scripts.items().len(),
            forall|k: int| 0 <= k < i ==> #[trigger] known@[k],
    {
        if !known[i] {
            let mut message = String::new();
            message.push_str("unknown script `");
            message.push_str(scripts.at(i).as_str());
            message.push_str("`");
            proof {
                assert(message@ =~= unknown_script_text(scripts.items()[i as int]));
            }
            return Err(message);
        }
    }
    Ok(())
}

/// Refuses rules that list an unknown script; fills in what the rules leave open.
pub fn validate_config(config: &RuleConfig) -> (r: Result<RuleConfig, String>)
    ensures
        match unknown_script(config.deep_view()) {
            None => r is Ok && r->Ok_0.deep_view() == config.deep_view().resolved(),
            Some(name) => r is Err && r->Err_0@ == unknown_script_text(name),
        },
{
    let ghost cfg = config.deep_view();
    let resolved = config.duplicate().resolved();
    let table = resolved.table();
    let n = resolved.allowed_scripts.len();
    let ghost items = resolved.allowed_scripts.items();
    let mut known: Vec<bool> = Vec::new();
    let mut i: usize = 0;
    while i < n
        invariant
            table == cfg.table(),
            n == items.len(),
            items == resolved.allowed_scripts.items(),
            i <= n,
            known@.len() == i,
            forall|k: int| 0 <= k < i ==> #[trigger] known@[k] == script_known(table, items[k]),
        decreases n - i,
    {
        known.push(script_code_valid(table, resolved.allowed_scripts.at(i).as_str()));
        i += 1;
    }
    match check_scripts(&resolved.allowed_scripts, &known) {
        Ok(()) => {
            proof {
                assert forall|k: int| 0 <= k < n implies script_known(
                    table,
                    #[trigger] items[k],
                ) by {
                    assert(known@[k]);
                }
                lemma_first_unknown(table, items, n as int);
                assert(items.take(n as int) =~= items);
            }
            Ok(resolved)
        },
        Err(message) => {
            proof {
                let i = choose|i: int|
                    {
                        &&& 0 <= i < known@.len()
                        &&& !#[trigger] known@[i]
                        &&& forall|k: int| 0 <= k < i ==> #[trigger] known@[k]
                        &&& message@ == unknown_script_text(items[i])
                    };
                assert(!known@[i]);
                assert forall|k: int| 0 <= k < i implies script_known(
                    table,
                    #[trigger] items[k],
                ) by {
                    assert(known@[k]);
                }
                lemma_first_unknown(table, items, i);
            }
            Err(message)
        },
    }
}

/// The ids of the eligible records with the given canonical value, in order.
pub open spec fn ids_with(records: Seq<RecordModel>, canonical: Seq<char>) -> Seq<Seq<char>>
    decreases records.len(),
{
    if records.len() == 0 {
        seq![]
    } else {
        let before = ids_with(records.drop_last(), canonical);
        if records.last().eligible && records.last().canonical == canonical {
            before.push(records.last().record_id)
        } else {
            before
        }
    }
}

/// The canonical values of the eligible records.
pub open spec fn canonicals(records: Seq<RecordModel>) -> Set<Seq<char>> {
    Set::new(
        |c: Seq<char>|
            exists|i: int|
                0 <= i < records.len() && (#[trigger] records[i]).eligible && records[i].canonical
                    == c,
    )
}

/// The notations of characters.
pub open spec fn shown_chars(chars: Seq<char>) -> Seq<Seq<char>> {
    Seq::new(chars.len(), |i: int| text::u_plus_text(chars[i] as u32 as nat))
}

/// The bucket of a canonical value.
pub open spec fn bucket_of(records: Seq<RecordModel>, canonical: Seq<char>) -> BucketModel {
    BucketModel {
        canonical,
        canonical_hex: shown_chars(canonical),
        record_ids: ids_with(records, canonical),
    }
}

/// The buckets of records, in ascending order of their canonical values.
pub open spec fn buckets_of(records: Seq<RecordModel>) -> Seq<BucketModel> {
    let values = order::in_order(canonicals(records));
    Seq::new(values.len(), |i: int| bucket_of(records, values[i]))
}

fn show_chars(text: &str) -> (r: Vec<String>)
    ensures
        r.deep_view() == shown_chars(text@),
{
    let chars = chars_of(text);
    let mut out: Vec<String> = Vec::new();
    for i in 0..chars.len()
        invariant
            chars@ == text@,
            out@.len() == i,
            forall|k: int|
                0 <= k < i ==> (#[trigger] out@[k])@ == text::u_plus_text(
                    chars@[k] as u32 as nat,
                ),
    {
        out.push(u_plus(chars[i] as u32));
    }
    proof {
        assert(out.deep_view() =~= shown_chars(text@));
    }
    out
}

/// Whether no eligible record has the canonical value, no id is listed for it.
proof fn lemma_ids_with(records: Seq<RecordModel>, canonical: Seq<char>)
    ensures
        !canonicals(records).contains(canonical) ==> ids_with(records, canonical).len() == 0,
    decreases records.len(),
{
    if records.len() > 0 {
        lemma_ids_with(records.drop_last(), canonical);
        if !canonicals(records).contains(canonical) {
            assert forall|i: int| 0 <= i < records.drop_last().len() implies !((
            #[trigger] records.drop_last()[i]).eligible && records.drop_last()[i].canonical
                == canonical) by {
                assert(records[i] == records.drop_last()[i]);
            }
            assert(!(records[records.len() - 1].eligible && records[records.len() - 1].canonical
                == canonical));
        }
    }
}

/// Sorts the eligible records into buckets by their canonical values.
pub fn bucket_records(records: &Vec<AnalyzedRecord>) -> (r: Vec<Bucket>)
    ensures
        r.deep_view() == buckets_of(records.deep_view()),
{
    broadcast use {text::lemma_models_push, text::lemma_vec_model};

    let mut groups: StringMap<Vec<String>> = StringMap::new();
    let ghost model = records.deep_view();
    proof {
        assert(model.take(0) =~= Seq::<RecordModel>::empty());
        assert(groups@.dom() =~= canonicals(model.take(0)));
    }
    for i in 0..records.len()
        invariant
            model == records.deep_view(),
            groups@.dom() == canonicals(model.take(i as int)),
            forall|c: Seq<char>| #[trigger]
                groups@.contains_key(c) ==> text::models(groups@[c]@) == ids_with(
                    model.take(i as int),
                    c,
                ),
    {
        let record = &records[i];
        let ghost before = model.take(i as int);
        let ghost after = model.take(i + 1);
        let ghost old_groups = groups@;
        proof {
            assert(after.drop_last() =~= before);
            assert(after.last() == record.deep_view());
            lemma_ids_with(before, record.canonical@);
            assert forall|c: Seq<char>|
                canonicals(after).contains(c) <==> canonicals(before).contains(c) || (
                record.eligible && record.canonical@ == c) by {
                if canonicals(before).contains(c) {
                    let k = choose|k: int|
                        0 <= k < before.len() && (#[trigger] before[k]).eligible
                            && before[k].canonical == c;
                    assert(after[k] == before[k]);
                }
                if canonicals(after).contains(c) {
                    let k = choose|k: int|
                        0 <= k < after.len() && (#[trigger] after[k]).eligible && after[k].canonical
                            == c;
                    if k < before.len() {
                        assert(before[k] == after[k]);
                    }
                }
                if record.eligible && record.canonical@ == c {
                    assert(after[i as int].eligible);
                }
            }
        }
        if record.eligible {
            let mut ids = match groups.remove(record.canonical.as_str()) {
                Some(ids) => ids,
                None => Vec::new(),
            };
            proof {
                if !old_groups.contains_key(record.canonical@) {
                    assert(text::models(ids@) =~= Seq::<Seq<char>>::empty());
                    assert(ids_with(before, record.canonical@) =~= Seq::<Seq<char>>::empty());
                }
            }
            ids.push(record.record_id.clone());
            groups.insert(record.canonical.clone(), ids);
        }
        proof {
            assert(groups@.dom() =~= canonicals(after));
            assert forall|c: Seq<char>| #[trigger] groups@.contains_key(c) implies text::models(
                groups@[c]@,
            ) == ids_with(after, c) by {
                if !(record.eligible && c == record.canonical@) {
                    assert(old_groups.contains_key(c));
                }
            }
        }
    }
    proof {
        assert(model.take(model.len() as int) =~= model);
    }
    let n = groups.len();
    let ghost keys = groups.keys();
    let mut out: Vec<Bucket> = Vec::new();
    let mut i: usize = 0;
    while i < n
        invariant
            n == keys.len(),
            keys == groups.keys(),
            i <= n,
            out@.len() == i,
            forall|c: Seq<char>| #[trigger]
                groups@.contains_key(c) ==> text::models(groups@[c]@) == ids_with(model, c),
            forall|k: int|
                0 <= k < i ==> (#[trigger] out@[k]).deep_view() == bucket_of(model, keys[k]),
        decreases n - i,
    {
        let canonical = groups.key_at(i);
        out.push(
            Bucket {
                canonical: canonical.clone(),
                canonical_hex: show_chars(canonical.as_str()),
                record_ids: groups.value_at(i).duplicate(),
            },
        );
        i += 1;
    }
    proof {
        assert(out.deep_view() =~= buckets_of(model));
    }
    out
}

/// The models of inputs.
pub open spec fn inputs_of(inputs: Seq<EngineInput<'_>>) -> Seq<InputModel> {
    text::models(inputs)
}

/// What is said of records.
pub open spec fn records_of(cfg: RuleConfigModel, inputs: Seq<InputModel>) -> Seq<RecordModel> {
    Seq::new(inputs.len(), |i: int| record_of(cfg, inputs[i]))
}

/// The analysis of records.
pub open spec fn analysis_of(cfg: RuleConfigModel, inputs: Seq<InputModel>) -> AnalysisModel {
    let records = records_of(cfg, inputs);
    AnalysisModel { rules: cfg.snapshot(), records, buckets: buckets_of(records) }
}

/// Analyzes records and sorts them into buckets.
pub fn analyze_records(config: &RuleConfig, records: &[EngineInput<'_>]) -> (r: Result<
    Analysis,
    String,
>)
    ensures
        match unknown_script(config.deep_view()) {
            None => r is Ok && r->Ok_0.deep_view() == analysis_of(
                config.deep_view(),
                inputs_of(records@),
            ),
            Some(name) => r is Err && r->Err_0@ == unknown_script_text(name),
        },
{
    let ghost cfg = config.deep_view();
    let ghost inputs = inputs_of(records@);
    let config = match validate_config(config) {
        Ok(config) => config,
        Err(message) => {
            return Err(message);
        },
    };
    let mut analyzed: Vec<AnalyzedRecord> = Vec::new();
    for i in 0..records.len()
        invariant
            config.deep_view() == cfg.resolved(),
            inputs == inputs_of(records@),
            analyzed@.len() == i,
            forall|k: int|
                0 <= k < i ==> (#[trigger] analyzed@[k]).deep_view() == record_of(cfg, inputs[k]),
    {
        proof {
            lemma_resolved_record(cfg, records@[i as int].deep_view());
        }
        analyzed.push(analyze_input(&config, &records[i]));
    }
    proof {
        assert(analyzed.deep_view() =~= records_of(cfg, inputs));
    }
    let buckets = bucket_records(&analyzed);
    Ok(Analysis { rules: config.snapshot(), records: analyzed, buckets })
}

/// Filling in what the rules leave open changes nothing.
proof fn lemma_resolved_record(cfg: RuleConfigModel, input: InputModel)
    ensures
        record_of(cfg.resolved(), input) == record_of(cfg, input),
{
    assert(allowed_names(cfg.resolved()) =~= allowed_names(cfg));
}

/// A text to analyze.
pub open spec fn query_input(text: Seq<char>) -> InputModel {
    InputModel {
        record_id: "query"@,
        source_version: 0,
        original_text: Some(text),
        original_bytes: vstd::utf8::encode_utf8(text),
        codepoint_source: false,
    }
}

/// Analyzes a single text.
pub fn analyze_text(config: &RuleConfig, text: &str) -> (r: Result<Analysis, String>)
    ensures
        match unknown_script(config.deep_view()) {
            None => r is Ok && r->Ok_0.deep_view() == analysis_of(
                config.deep_view(),
                seq![query_input(text@)],
            ),
            Some(name) => r is Err && r->Err_0@ == unknown_script_text(name),
        },
{
    let input = EngineInput {
        record_id: "query",
        source_version: 0,
        original_text: Some(text),
        original_bytes: text.as_bytes(),
        codepoint_source: false,
    };
    let mut inputs: Vec<EngineInput<'_>> = Vec::new();
    inputs.push(input);
    proof {
        assert(inputs_of(inputs@) =~= seq![query_input(text@)]);
    }
    analyze_records(config, inputs.as_slice())
}

proof fn lemma_ids_members(records: Seq<RecordModel>, canonical: Seq<char>, id: Seq<char>)
    ensures
        ids_with(records, canonical).contains(id) <==> exists|i: int|
            0 <= i < records.len() && (#[trigger] records[i]).eligible && records[i].canonical
                == canonical && records[i].record_id == id,
    decreases records.len(),
{
    let ids = ids_with(records, canonical);
    if records.len() > 0 {
        let front = records.drop_last();
        let before = ids_with(front, canonical);
        let last = records.last();
        lemma_ids_members(front, canonical, id);
        if before.contains(id) {
            let k = choose|k: int| 0 <= k < before.len() && before[k] == id;
            assert(ids[k] == id);
            let i = choose|i: int|
                0 <= i < front.len() && (#[trigger] front[i]).eligible && front[i].canonical
                    == canonical && front[i].record_id == id;
            assert(records[i] == front[i]);
        }
        if last.eligible && last.canonical == canonical && last.record_id == id {
            assert(ids[ids.len() - 1] == id);
            assert(records[records.len() - 1] == last);
        }
        if ids.contains(id) && !before.contains(id) {
            let k = choose|k: int| 0 <= k < ids.len() && ids[k] == id;
            if k < before.len() {
                assert(before[k] == id);
            }
        }
        if exists|i: int|
            0 <= i < records.len() && (#[trigger] records[i]).eligible && records[i].canonical
                == canonical && records[i].record_id == id {
            let i = choose|i: int|
                0 <= i < records.len() && (#[trigger] records[i]).eligible && records[i].canonical
                    == canonical && records[i].record_id == id;
            if i < front.len() {
                assert(front[i] == records[i]);
            }
        }
    }
}

/// Canonical values, for the records that are eligible.
spec fn eligible_values(records: Seq<RecordModel>) -> Seq<Seq<char>>
    decreases records.len(),
{
    if records.len() == 0 {
        seq![]
    } else if records.last().eligible {
        eligible_values(records.drop_last()).push(records.last().canonical)
    } else {
        eligible_values(records.drop_last())
    }
}

proof fn lemma_eligible_values(records: Seq<RecordModel>, c: Seq<char>)
    ensures
        eligible_values(records).contains(c) <==> canonicals(records).contains(c),
    decreases records.len(),
{
    if records.len() > 0 {
        let front = records.drop_last();
        let last = records.last();
        let values = eligible_values(records);
        let before = eligible_values(front);
        lemma_eligible_values(front, c);
        if before.contains(c) {
            let k = choose|k: int| 0 <= k < before.len() && before[k] == c;
            assert(values[k] == c);
            let i = choose|i: int|
                0 <= i < front.len() && (#[trigger] front[i]).eligible && front[i].canonical == c;
            assert(records[i] == front[i]);
        }
        if last.eligible && last.canonical == c {
            assert(values[values.len() - 1] == c);
            assert(records[records.len() - 1] == last);
        }
        if values.contains(c) && !before.contains(c) {
            let k = choose|k: int| 0 <= k < values.len() && values[k] == c;
            if k < before.len() {
                assert(before[k] == c);
            }
        }
        if canonicals(records).contains(c) {
            let i = choose|i: int|
                0 <= i < records.len() && (#[trigger] records[i]).eligible && records[i].canonical
                    == c;
            if i < front.len() {
                assert(front[i] == records[i]);
            }
        }
    }
}

/// The canonical values can be listed in ascending order.
proof fn lemma_canonicals_listed(records: Seq<RecordModel>)
    ensures
        order::lists_in_order(order::in_order(canonicals(records)), canonicals(records)),
{
    let values = eligible_values(records);
    order::lemma_listed(values);
    assert(values.to_set() =~= canonicals(records)) by {
        assert forall|c: Seq<char>| values.contains(c) <==> canonicals(records).contains(c) by {
            lemma_eligible_values(records, c);
        }
    }
}

/// The buckets divide the eligible records by their canonical values: bucket values ascend, every
/// eligible record is in the bucket of its value, and a bucket holds only eligible records of its
/// value, and at least one.
pub proof fn buckets_divide_eligible_records(records: Seq<RecordModel>)
    ensures
        ({
            let buckets = buckets_of(records);
            &&& forall|a: int, b: int|
                0 <= a < b < buckets.len() ==> order::text_less(
                    (#[trigger] buckets[a]).canonical,
                    (#[trigger] buckets[b]).canonical,
                )
            &&& forall|i: int|
                0 <= i < records.len() && (#[trigger] records[i]).eligible ==> exists|b: int|
                    0 <= b < buckets.len() && (#[trigger] buckets[b]).canonical
                        == records[i].canonical && buckets[b].record_ids.contains(
                        records[i].record_id,
                    )
            &&& forall|b: int, id: Seq<char>|
                0 <= b < buckets.len() && #[trigger] buckets[b].record_ids.contains(id)
                    ==> exists|i: int|
                    0 <= i < records.len() && (#[trigger] records[i]).eligible
                        && records[i].canonical == buckets[b].canonical && records[i].record_id
                        == id
            &&& forall|b: int| 0 <= b < buckets.len() ==> (#[trigger] buckets[b]).record_ids.len() > 0
        }),
{
    let buckets = buckets_of(records);
    let values = order::in_order(canonicals(records));
    lemma_canonicals_listed(records);
    assert forall|a: int, b: int| 0 <= a < b < buckets.len() implies order::text_less(
        (#[trigger] buckets[a]).canonical,
        (#[trigger] buckets[b]).canonical,
    ) by {
        assert(order::text_less(values[a], values[b]));
    }
    assert forall|i: int| 0 <= i < records.len() && (
    #[trigger] records[i]).eligible implies exists|b: int|
        0 <= b < buckets.len() && (#[trigger] buckets[b]).canonical == records[i].canonical
            && buckets[b].record_ids.contains(records[i].record_id) by {
        let c = records[i].canonical;
        assert(canonicals(records).contains(c));
        assert(values.contains(c));
        let b = choose|b: int| 0 <= b < values.len() && values[b] == c;
        lemma_ids_members(records, c, records[i].record_id);
        assert(buckets[b].canonical == c);
    }
    assert forall|b: int, id: Seq<char>|
        0 <= b < buckets.len() && #[trigger] buckets[b].record_ids.contains(id) implies exists|i: int|
        0 <= i < records.len() && (#[trigger] records[i]).eligible && records[i].canonical
            == buckets[b].canonical && records[i].record_id == id by {
        lemma_ids_members(records, values[b], id);
    }
    assert forall|b: int| 0 <= b < buckets.len() implies (
    #[trigger] buckets[b]).record_ids.len() > 0 by {
        assert(values.contains(values[b]));
        assert(canonicals(records).contains(values[b]));
        let i = choose|i: int|
            0 <= i < records.len() && (#[trigger] records[i]).eligible && records[i].canonical
                == values[b];
        lemma_ids_members(records, values[b], records[i].record_id);
        assert(buckets[b].record_ids.contains(records[i].record_id));
    }
}

proof fn lemma_blocked_part(a: Seq<IssueModel>, b: Seq<IssueModel>, c: Seq<IssueModel>)
    ensures
        nothing_blocks(a + b + c) ==> nothing_blocks(a) && nothing_blocks(b),
{
    let all = a + b + c;
    if nothing_blocks(all) {
        assert forall|i: int| 0 <= i < a.len() implies !blocking((#[trigger] a[i]).kind) by {
            assert(all[i] == a[i]);
        }
        assert forall|i: int| 0 <= i < b.len() implies !blocking((#[trigger] b[i]).kind) by {
            assert(all[a.len() + i] == b[i]);
        }
    }
}

proof fn lemma_strict_issues_block(bytes: Seq<u8>, at: int)
    requires
        0 <= at <= bytes.len(),
        nothing_blocks(source::strict_from(bytes, at).issues),
    ensures
        source::strict_from(bytes, at).issues.len() == 0,
{
    let issues = source::strict_from(bytes, at).issues;
    if issues.len() > 0 {
        lemma_strict_issue_kinds(bytes, at);
        assert(blocking(issues[0].kind));
    }
}

/// Strict decoding reports ill-formed bytes only.
pub proof fn lemma_strict_issue_kinds(bytes: Seq<u8>, at: int)
    requires
        0 <= at <= bytes.len(),
    ensures
        forall|i: int|
            0 <= i < source::strict_from(bytes, at).issues.len() ==> (
            #[trigger] source::strict_from(bytes, at).issues[i]).kind == "invalid-utf8"@,
    decreases bytes.len() - at,
{
    if at < bytes.len() {
        match source::sequence_len(bytes[at]) {
            None => lemma_strict_issue_kinds(bytes, at + 1),
            Some(n) => if at + n <= bytes.len() {
                lemma_strict_issue_kinds(bytes, at + n);
            },
        }
    }
}

proof fn lemma_noncharacters_block(tokens: Seq<SourceToken>, i: int)
    requires
        nothing_blocks(noncharacter_issues(tokens)),
        0 <= i < tokens.len(),
    ensures
        !decode::noncharacter(tokens[i].codepoint),
    decreases tokens.len(),
{
    let issues = noncharacter_issues(tokens);
    let before = noncharacter_issues(tokens.drop_last());
    if decode::noncharacter(tokens.last().codepoint) {
        assert(blocking(issues[issues.len() - 1].kind));
    }
    if i < tokens.len() - 1 {
        assert(issues =~= before);
        lemma_noncharacters_block(tokens.drop_last(), i);
    }
}

proof fn lemma_surrogates_block(codepoints: Seq<u32>, i: int)
    requires
        nothing_blocks(surrogate_issues(codepoints)),
        0 <= i < codepoints.len(),
    ensures
        !source::surrogate(codepoints[i]),
    decreases codepoints.len(),
{
    let issues = surrogate_issues(codepoints);
    let before = surrogate_issues(codepoints.drop_last());
    if source::surrogate(codepoints.last()) {
        assert(blocking(issues[issues.len() - 1].kind));
    }
    if i < codepoints.len() - 1 {
        assert(issues =~= before);
        lemma_surrogates_block(codepoints.drop_last(), i);
    }
}

/// An eligible record has a clean source: well-formed UTF-8 where it is text, no surrogate where it
/// is a list of code points, and no noncharacter.
pub proof fn eligible_records_are_clean(cfg: RuleConfigModel, input: InputModel, i: int)
    requires
        record_of(cfg, input).eligible,
        0 <= i < source_of(input).tokens.len(),
    ensures
        !input.codepoint_source ==> vstd::utf8::valid_utf8(input.original_bytes),
        input.codepoint_source ==> !source::surrogate(source_of(input).tokens[i].codepoint),
        !decode::noncharacter(source_of(input).tokens[i].codepoint),
{
    let decoded = source_of(input);
    let points = points_of(cfg, token_points(decoded.tokens));
    let scripts = scripts_among(script_names(cfg.table(), points.canonical));
    lemma_blocked_part(
        decoded.issues,
        noncharacter_issues(decoded.tokens),
        script_issues(cfg.script_policy, scripts, allowed_names(cfg)),
    );
    lemma_noncharacters_block(decoded.tokens, i);
    if input.codepoint_source {
        let codepoints = match json::json_numbers(input.original_bytes) {
            Some(codepoints) => codepoints,
            None => seq![],
        };
        lemma_surrogates_block(codepoints, i);
    } else {
        lemma_strict_issues_block(input.original_bytes, 0);
        source::strict_decoding_accepts_utf8(input.original_bytes);
    }
}

/// A text that is not well-formed UTF-8 is never eligible.
pub proof fn ill_formed_text_is_not_eligible(cfg: RuleConfigModel, input: InputModel)
    requires
        !input.codepoint_source,
        !vstd::utf8::valid_utf8(input.original_bytes),
    ensures
        !record_of(cfg, input).eligible,
{
    let decoded = source_of(input);
    let points = points_of(cfg, token_points(decoded.tokens));
    let scripts = scripts_among(script_names(cfg.table(), points.canonical));
    lemma_blocked_part(
        decoded.issues,
        noncharacter_issues(decoded.tokens),
        script_issues(cfg.script_policy, scripts, allowed_names(cfg)),
    );
    source::strict_decoding_accepts_utf8(input.original_bytes);
    if record_of(cfg, input).eligible {
        lemma_strict_issues_block(input.original_bytes, 0);
    }
}

/// Every stage of every record shows the version of the tables that the rules go by.
pub proof fn stages_show_their_version(cfg: RuleConfigModel, inputs: Seq<InputModel>, i: int, k: int)
    requires
        0 <= i < inputs.len(),
        0 <= k < analysis_of(cfg, inputs).records[i].stages.len(),
    ensures
        analysis_of(cfg, inputs).records[i].stages[k].rule_version == analysis_of(
            cfg,
            inputs,
        ).rules.unicode_version,
{
}

/// Filling in what the rules leave open changes no analysis.
pub proof fn resolving_changes_nothing(cfg: RuleConfigModel, inputs: Seq<InputModel>)
    ensures
        analysis_of(cfg.resolved(), inputs) == analysis_of(cfg, inputs),
        unknown_script(cfg.resolved()) == unknown_script(cfg),
{
    assert forall|i: int| 0 <= i < inputs.len() implies record_of(cfg.resolved(), inputs[i])
        == record_of(cfg, inputs[i]) by {
        lemma_resolved_record(cfg, inputs[i]);
    }
    assert(records_of(cfg.resolved(), inputs) =~= records_of(cfg, inputs));
}

/// Rules are refused exactly if they list a script that their tables do not know; what is then named
/// is such a script.
pub proof fn only_unknown_scripts_are_refused(cfg: RuleConfigModel)
    requires
        cfg.allowed_scripts.finite(),
    ensures
        unknown_script(cfg) is None <==> forall|name: Seq<char>|
            cfg.allowed_scripts.contains(name) ==> #[trigger] script_known(cfg.table(), name),
        unknown_script(cfg) matches Some(name) ==> cfg.allowed_scripts.contains(name)
            && !script_known(cfg.table(), name),
{
    let items = order::in_order(cfg.allowed_scripts);
    order::lemma_finite_listed(cfg.allowed_scripts);
    lemma_unknown_is_listed(cfg.table(), items);
    if unknown_script(cfg) is None {
        assert forall|name: Seq<char>| cfg.allowed_scripts.contains(
            name,
        ) implies #[trigger] script_known(cfg.table(), name) by {
            assert(items.contains(name));
            let k = choose|k: int| 0 <= k < items.len() && items[k] == name;
            assert(script_known(cfg.table(), items[k]));
        }
    } else {
        let name = unknown_script(cfg)->0;
        assert(items.contains(name));
        assert(cfg.allowed_scripts.contains(name));
    }
}

proof fn lemma_unknown_is_listed(table: UnicodeTable, names: Seq<Seq<char>>)
    ensures
        first_unknown(table, names) is None ==> forall|k: int|
            0 <= k < names.len() ==> script_known(table, #[trigger] names[k]),
        first_unknown(table, names) matches Some(name) ==> names.contains(name) && !script_known(
            table,
            name,
        ),
    decreases names.len(),
{
    if names.len() > 0 {
        let front = names.drop_last();
        lemma_unknown_is_listed(table, front);
        match first_unknown(table, front) {
            Some(name) => {
                let k = choose|k: int| 0 <= k < front.len() && front[k] == name;
                assert(names[k] == name);
            },
            None => {
                assert(names[names.len() - 1] == names.last());
                assert forall|k: int|
                    0 <= k < names.len() && first_unknown(table, names) is None implies script_known(
                    table,
                    #[trigger] names[k],
                ) by {
                    if k < front.len() {
                        assert(front[k] == names[k]);
                    }
                }
            },
        }
    }
}

} // verus!

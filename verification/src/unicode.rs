//! The identifier normalization pipeline.
//!
//! Stages, each of which is recorded:
//!   0 raw             - permissive decoding of the original bytes into units
//!   1 scalars         - without invalid bytes and lone surrogates; noncharacters are marked
//!   2 case_fold       - Unicode default case folding (full)
//!   3 strip_ignorable - without default ignorable characters (optional)
//!   4 normalize       - normalization form C or KC
//! A script report follows. The original bytes are never modified; every stage keeps for each of
//! its units the position of a unit of the stage before.

use vstd::prelude::*;

pub use crate::align::lcs_align;
pub use crate::decode::{is_noncharacter, permissive_decode, Unit};

use crate::align;
use crate::decode;
use crate::stages;
use crate::stages::{
    fold_stage, kept_stage, normalize_stage, raw_stage, scalar_stage, script_report, strip_stage,
};
use crate::tables;
use crate::text;
use crate::text::{numbers_of, push_decimal, string_of, Duplicate};

verus! {

/// The normalization form that the last stage applies.
#[derive(Clone, Copy, Debug, PartialEq, Eq, Structural)]
pub enum Normalization {
    Nfc,
    Nfkc,
}

impl Normalization {
    /// The name of the form.
    pub open spec fn name(self) -> Seq<char> {
        match self {
            Normalization::Nfc => "NFC"@,
            Normalization::Nfkc => "NFKC"@,
        }
    }

    /// The name of the form.
    pub fn as_str(self) -> (r: &'static str)
        ensures
            r@ == self.name(),
    {
        match self {
            Normalization::Nfc => "NFC",
            Normalization::Nfkc => "NFKC",
        }
    }
}

impl DeepView for Normalization {
    type V = Normalization;

    open spec fn deep_view(&self) -> Normalization {
        *self
    }
}

/// A fixed, versioned set of transformation rules. Rulesets are immutable.
#[derive(Clone, Debug, PartialEq, Eq)]
pub struct RuleConfig {
    pub case_fold: bool,
    pub normalization: Normalization,
    pub strip_default_ignorable: bool,
    /// A four-letter ISO 15924 script code, such as "Latn"; `None` disables the restriction.
    pub restrict_script: Option<String>,
}

/// The model of a [`RuleConfig`].
#[verifier::ext_equal]
pub struct RuleConfigModel {
    pub case_fold: bool,
    pub normalization: Normalization,
    pub strip_default_ignorable: bool,
    pub restrict_script: Option<Seq<char>>,
}

impl DeepView for RuleConfig {
    type V = RuleConfigModel;

    open spec fn deep_view(&self) -> RuleConfigModel {
        RuleConfigModel {
            case_fold: self.case_fold,
            normalization: self.normalization,
            strip_default_ignorable: self.strip_default_ignorable,
            restrict_script: self.restrict_script.deep_view(),
        }
    }
}

impl Duplicate for RuleConfig {
    fn duplicate(&self) -> (r: Self) {
        RuleConfig {
            case_fold: self.case_fold,
            normalization: self.normalization,
            strip_default_ignorable: self.strip_default_ignorable,
            restrict_script: self.restrict_script.duplicate(),
        }
    }
}

/// What is said of a script code that names no script.
pub open spec fn unknown_script_text(code: Seq<char>) -> Seq<char> {
    "unknown ISO-15924 script code: "@ + code
}

/// A rule set is valid if the script that it is restricted to, where there is one, is known.
pub open spec fn config_valid(cfg: RuleConfigModel) -> bool {
    match cfg.restrict_script {
        Some(code) => tables::is_script_code(code),
        None => true,
    }
}

/// The verdict on a script restriction, where `known` says whether its code names a script.
pub fn check_restriction(restriction: &Option<String>, known: bool) -> (r: Result<(), String>)
    ensures
        r is Ok <==> restriction is None || known,
        r is Err ==> r->Err_0@ == unknown_script_text(restriction->0@),
{
    if let Some(code) = restriction {
        if !known {
            let mut message = String::new();
            message.push_str("unknown ISO-15924 script code: ");
            message.push_str(code.as_str());
            proof {
                assert(message@ =~= unknown_script_text(code@));
            }
            return Err(message);
        }
    }
    Ok(())
}

impl RuleConfig {
    /// Refuses a restriction to a script that is not known.
    pub fn validate(&self) -> (r: Result<(), String>)
        ensures
            r is Ok <==> config_valid(self.deep_view()),
            r is Err ==> r->Err_0@ == unknown_script_text(self.restrict_script->0@),
    {
        let known = match &self.restrict_script {
            Some(code) => tables::knows_script_code(code.as_str()),
            None => true,
        };
        check_restriction(&self.restrict_script, known)
    }
}

/// Versions of the Unicode data tables that are linked in.
#[derive(Clone, Debug)]
pub struct TableVersions {
    pub unicode_normalization: String,
    pub unicode_casefold: String,
    pub unicode_general_category: String,
    pub unicode_script: String,
}

/// The model of [`TableVersions`].
#[verifier::ext_equal]
pub struct TableVersionsModel {
    pub unicode_normalization: Seq<char>,
    pub unicode_casefold: Seq<char>,
    pub unicode_general_category: Seq<char>,
    pub unicode_script: Seq<char>,
}

impl DeepView for TableVersions {
    type V = TableVersionsModel;

    open spec fn deep_view(&self) -> TableVersionsModel {
        TableVersionsModel {
            unicode_normalization: self.unicode_normalization@,
            unicode_casefold: self.unicode_casefold@,
            unicode_general_category: self.unicode_general_category@,
            unicode_script: self.unicode_script@,
        }
    }
}

impl Duplicate for TableVersions {
    fn duplicate(&self) -> (r: Self) {
        TableVersions {
            unicode_normalization: self.unicode_normalization.duplicate(),
            unicode_casefold: self.unicode_casefold.duplicate(),
            unicode_general_category: self.unicode_general_category.duplicate(),
            unicode_script: self.unicode_script.duplicate(),
        }
    }
}

/// The text of a version of three numbers.
pub open spec fn version_text(a: nat, b: nat, c: nat) -> Seq<char> {
    text::decimal_text(a) + "."@ + text::decimal_text(b) + "."@ + text::decimal_text(c)
}

fn version_string(a: u64, b: u64, c: u64) -> (r: String)
    ensures
        r@ == version_text(a as nat, b as nat, c as nat),
{
    let mut out = String::new();
    push_decimal(&mut out, a);
    out.push_str(".");
    push_decimal(&mut out, b);
    out.push_str(".");
    push_decimal(&mut out, c);
    proof {
        assert(out@ =~= version_text(a as nat, b as nat, c as nat));
    }
    out
}

/// The versions of the linked tables.
pub open spec fn linked_tables() -> TableVersionsModel {
    TableVersionsModel {
        unicode_normalization: version_text(18, 0, 0),
        unicode_casefold: version_text(16, 0, 0),
        unicode_general_category: version_text(16, 0, 0),
        unicode_script: version_text(18, 0, 0),
    }
}

/// The versions of the linked tables.
pub fn table_versions() -> (r: TableVersions)
    ensures
        r.deep_view() == linked_tables(),
{
    let n = tables::normalization_version();
    let f = tables::case_folding_version();
    let g = tables::general_category_version();
    let s = tables::script_version();
    TableVersions {
        unicode_normalization: version_string(n.0 as u64, n.1 as u64, n.2 as u64),
        unicode_casefold: version_string(f.0, f.1, f.2),
        unicode_general_category: version_string(g.0, g.1, g.2),
        unicode_script: version_string(s.0, s.1, s.2),
    }
}

/// The code points that the `Default_Ignorable_Code_Point` property is taken to hold of by range.
pub open spec fn in_ignorable_range(cp: u32) -> bool {
    ||| cp == 0x00ad
    ||| cp == 0x034f
    ||| cp == 0x061c
    ||| 0x115f <= cp <= 0x1160
    ||| 0x17b4 <= cp <= 0x17b5
    ||| 0x180b <= cp <= 0x180d
    ||| 0x200b <= cp <= 0x200f
    ||| 0x202a <= cp <= 0x202e
    ||| 0x2060 <= cp <= 0x206f
    ||| cp == 0x3164
    ||| 0xfe00 <= cp <= 0xfe0f
    ||| 0xfe20 <= cp <= 0xfe2f
    ||| cp == 0xfeff
    ||| cp == 0xffa0
    ||| 0xfff0 <= cp <= 0xfff8
    ||| 0xe0000 <= cp <= 0xe0fff
}

/// The code points that are not default ignorable though their category be Format.
pub open spec fn not_ignorable_by_category(cp: u32) -> bool {
    ||| cp == 0x00b7
    ||| cp == 0x0375
    ||| 0x055a <= cp <= 0x055c
    ||| cp == 0x058a
    ||| cp == 0x0591
    ||| 0x05a3 <= cp <= 0x05a4
    ||| 0x05b9 <= cp <= 0x05bd
    ||| cp == 0x05bf
    ||| 0x05c1 <= cp <= 0x05c2
    ||| 0x0600 <= cp <= 0x0605
    ||| cp == 0x06dd
    ||| cp == 0x070f
    ||| cp == 0x08e2
    ||| cp == 0x180e
    ||| cp == 0x2015
    ||| cp == 0x2022
    ||| 0x2032 <= cp <= 0x2033
    ||| cp == 0x2035
    ||| 0x203b <= cp <= 0x203d
    ||| cp == 0x2042
    ||| cp == 0x2044
    ||| cp == 0x2057
    ||| 0x205a <= cp <= 0x205e
    ||| cp == 0x2060
    ||| 0x20a0 <= cp <= 0x20a4
    ||| 0x20a6 <= cp <= 0x20ba
}

/// Default ignorable: by range, or by the category Format with exceptions.
pub open spec fn ignorable(c: char, format: bool) -> bool {
    in_ignorable_range(c as u32) || (format && !not_ignorable_by_category(c as u32))
}

/// Whether a character is default ignorable, where `format` says whether its category is Format.
pub fn is_ignorable_with(c: char, format: bool) -> (r: bool)
    ensures
        r == ignorable(c, format),
{
    let cp = c as u32;
    let in_range = cp == 0x00ad || cp == 0x034f || cp == 0x061c || (0x115f <= cp && cp <= 0x1160)
        || (0x17b4 <= cp && cp <= 0x17b5) || (0x180b <= cp && cp <= 0x180d) || (0x200b <= cp && cp
        <= 0x200f) || (0x202a <= cp && cp <= 0x202e) || (0x2060 <= cp && cp <= 0x206f) || cp
        == 0x3164 || (0xfe00 <= cp && cp <= 0xfe0f) || (0xfe20 <= cp && cp <= 0xfe2f) || cp
        == 0xfeff || cp == 0xffa0 || (0xfff0 <= cp && cp <= 0xfff8) || (0xe0000 <= cp && cp
        <= 0xe0fff);
    if in_range {
        return true;
    }
    let excepted = cp == 0x00b7 || cp == 0x0375 || (0x055a <= cp && cp <= 0x055c) || cp == 0x058a
        || cp == 0x0591 || (0x05a3 <= cp && cp <= 0x05a4) || (0x05b9 <= cp && cp <= 0x05bd) || cp
        == 0x05bf || (0x05c1 <= cp && cp <= 0x05c2) || (0x0600 <= cp && cp <= 0x0605) || cp
        == 0x06dd || cp == 0x070f || cp == 0x08e2 || cp == 0x180e || cp == 0x2015 || cp == 0x2022
        || (0x2032 <= cp && cp <= 0x2033) || cp == 0x2035 || (0x203b <= cp && cp <= 0x203d) || cp
        == 0x2042 || cp == 0x2044 || cp == 0x2057 || (0x205a <= cp && cp <= 0x205e) || cp == 0x2060
        || (0x20a0 <= cp && cp <= 0x20a4) || (0x20a6 <= cp && cp <= 0x20ba);
    format && !excepted
}

/// Approximation of the Unicode `Default_Ignorable_Code_Point` property: characters of the
/// category Format without exceptions, and those of fixed ranges.
pub fn is_default_ignorable(c: char) -> (r: bool)
    ensures
        r == ignorable(c, tables::format_category(c)),
{
    is_ignorable_with(c, tables::is_format(c))
}

/// Something to report about an identifier.
#[derive(Clone, Debug, PartialEq, Eq)]
pub enum Issue {
    /// A byte that is no part of well-formed UTF-8; `index` counts the units of the raw stage.
    InvalidUtf8 { index: usize, byte: u8 },
    /// A code point in the surrogate range; `index` counts the units of the raw stage.
    LoneSurrogate { index: usize, cp: u32 },
    /// A noncharacter; `index` counts the units of the scalar stage.
    Noncharacter { index: usize, cp: u32 },
    MixedScript { scripts: Vec<String> },
    ScriptRestriction { found: String, allowed: String },
}

/// The model of an [`Issue`].
#[verifier::ext_equal]
pub enum IssueModel {
    InvalidUtf8 { index: usize, byte: u8 },
    LoneSurrogate { index: usize, cp: u32 },
    Noncharacter { index: usize, cp: u32 },
    MixedScript { scripts: Seq<Seq<char>> },
    ScriptRestriction { found: Seq<char>, allowed: Seq<char> },
}

impl DeepView for Issue {
    type V = IssueModel;

    open spec fn deep_view(&self) -> IssueModel {
        match self {
            Issue::InvalidUtf8 { index, byte } => IssueModel::InvalidUtf8 {
                index: *index,
                byte: *byte,
            },
            Issue::LoneSurrogate { index, cp } => IssueModel::LoneSurrogate {
                index: *index,
                cp: *cp,
            },
            Issue::Noncharacter { index, cp } => IssueModel::Noncharacter {
                index: *index,
                cp: *cp,
            },
            Issue::MixedScript { scripts } => IssueModel::MixedScript {
                scripts: scripts.deep_view(),
            },
            Issue::ScriptRestriction { found, allowed } => IssueModel::ScriptRestriction {
                found: found@,
                allowed: allowed@,
            },
        }
    }
}

impl Duplicate for Issue {
    fn duplicate(&self) -> (r: Self) {
        match self {
            Issue::InvalidUtf8 { index, byte } => Issue::InvalidUtf8 { index: *index, byte: *byte },
            Issue::LoneSurrogate { index, cp } => Issue::LoneSurrogate { index: *index, cp: *cp },
            Issue::Noncharacter { index, cp } => Issue::Noncharacter { index: *index, cp: *cp },
            Issue::MixedScript { scripts } => Issue::MixedScript { scripts: scripts.duplicate() },
            Issue::ScriptRestriction { found, allowed } => Issue::ScriptRestriction {
                found: found.duplicate(),
                allowed: allowed.duplicate(),
            },
        }
    }
}

/// A [`Unit`] by its number.
#[derive(Clone, Copy, Debug, PartialEq, Eq, Structural)]
pub enum JsonUnit {
    /// A Unicode scalar value.
    Scalar(u32),
    Surrogate(u32),
    InvalidByte(u8),
}

/// A unit by its number.
pub open spec fn json_unit(u: Unit) -> JsonUnit {
    match u {
        Unit::Scalar(c) => JsonUnit::Scalar(c as u32),
        Unit::Surrogate(cp) => JsonUnit::Surrogate(cp),
        Unit::InvalidByte(b) => JsonUnit::InvalidByte(b),
    }
}

impl JsonUnit {
    /// A unit by its number.
    pub fn of(u: Unit) -> (r: Self)
        ensures
            r == json_unit(u),
    {
        match u {
            Unit::Scalar(c) => JsonUnit::Scalar(c as u32),
            Unit::Surrogate(cp) => JsonUnit::Surrogate(cp),
            Unit::InvalidByte(b) => JsonUnit::InvalidByte(b),
        }
    }
}

impl DeepView for JsonUnit {
    type V = JsonUnit;

    open spec fn deep_view(&self) -> JsonUnit {
        *self
    }
}

impl Duplicate for JsonUnit {
    fn duplicate(&self) -> (r: Self) {
        *self
    }
}

/// What one stage made of the identifier.
#[derive(Clone, Debug)]
pub struct StageView {
    pub name: String,
    /// The units of this stage.
    pub units: Vec<JsonUnit>,
    /// `provenance[i]` is the position in the stage before that unit `i` comes from.
    pub provenance: Vec<usize>,
    /// A note for each unit, empty where there is nothing to say.
    pub notes: Vec<String>,
}

/// The model of a [`StageView`].
#[verifier::ext_equal]
pub struct StageModel {
    pub name: Seq<char>,
    pub units: Seq<JsonUnit>,
    pub provenance: Seq<usize>,
    pub notes: Seq<Seq<char>>,
}

impl DeepView for StageView {
    type V = StageModel;

    open spec fn deep_view(&self) -> StageModel {
        StageModel {
            name: self.name@,
            units: self.units@,
            provenance: self.provenance@,
            notes: self.notes.deep_view(),
        }
    }
}

impl Duplicate for StageView {
    fn duplicate(&self) -> (r: Self) {
        let units = self.units.duplicate();
        let provenance = self.provenance.duplicate();
        proof {
            assert(units@ =~= units.deep_view());
            assert(self.units@ =~= self.units.deep_view());
            assert(provenance@ =~= provenance.deep_view());
            assert(self.provenance@ =~= self.provenance.deep_view());
        }
        StageView { name: self.name.duplicate(), units, provenance, notes: self.notes.duplicate() }
    }
}

/// The whole way of an identifier through the pipeline.
#[derive(Clone, Debug)]
pub struct Trace {
    pub stages: Vec<StageView>,
    pub issues: Vec<Issue>,
    /// The canonical value; surrogates and invalid bytes are never part of it.
    pub canonical: String,
    /// The code points of the canonical value.
    pub canonical_cps: Vec<u32>,
    pub scripts: Vec<String>,
    pub mixed_script: bool,
    pub restriction_violated: bool,
}

/// The model of a [`Trace`].
#[verifier::ext_equal]
pub struct TraceModel {
    pub stages: Seq<StageModel>,
    pub issues: Seq<IssueModel>,
    pub canonical: Seq<char>,
    pub canonical_cps: Seq<u32>,
    pub scripts: Seq<Seq<char>>,
    pub mixed_script: bool,
    pub restriction_violated: bool,
}

impl DeepView for Trace {
    type V = TraceModel;

    open spec fn deep_view(&self) -> TraceModel {
        TraceModel {
            stages: self.stages.deep_view(),
            issues: self.issues.deep_view(),
            canonical: self.canonical@,
            canonical_cps: self.canonical_cps@,
            scripts: self.scripts.deep_view(),
            mixed_script: self.mixed_script,
            restriction_violated: self.restriction_violated,
        }
    }
}

impl Duplicate for Trace {
    fn duplicate(&self) -> (r: Self) {
        let canonical_cps = self.canonical_cps.duplicate();
        proof {
            assert(canonical_cps@ =~= canonical_cps.deep_view());
            assert(self.canonical_cps@ =~= self.canonical_cps.deep_view());
        }
        Trace {
            stages: self.stages.duplicate(),
            issues: self.issues.duplicate(),
            canonical: self.canonical.duplicate(),
            canonical_cps,
            scripts: self.scripts.duplicate(),
            mixed_script: self.mixed_script,
            restriction_violated: self.restriction_violated,
        }
    }
}

/// What case folding makes of characters, where the rules ask for it.
pub open spec fn folded(cfg: RuleConfigModel, chars: Seq<char>) -> Seq<char> {
    if cfg.case_fold {
        tables::case_folding(chars)
    } else {
        chars
    }
}

/// Which characters are not default ignorable.
pub open spec fn kept_marks(chars: Seq<char>) -> Seq<bool> {
    Seq::new(chars.len(), |i: int| !ignorable(chars[i], tables::format_category(chars[i])))
}

/// What is left without the default ignorable characters, where the rules strip them.
pub open spec fn stripped(cfg: RuleConfigModel, chars: Seq<char>) -> Seq<char> {
    if cfg.strip_default_ignorable {
        stages::marked(chars, kept_marks(chars))
    } else {
        chars
    }
}

/// The normalization form of characters that the rules ask for.
pub open spec fn normalized(cfg: RuleConfigModel, chars: Seq<char>) -> Seq<char> {
    match cfg.normalization {
        Normalization::Nfc => tables::form_c(chars),
        Normalization::Nfkc => tables::form_kc(chars),
    }
}

/// The canonical value of the scalar values of an identifier.
pub open spec fn canonical_of(cfg: RuleConfigModel, scalars: Seq<char>) -> Seq<char> {
    normalized(cfg, stripped(cfg, folded(cfg, scalars)))
}

/// The script codes of characters.
pub open spec fn script_codes(chars: Seq<char>) -> Seq<Seq<char>> {
    Seq::new(chars.len(), |i: int| tables::script_code_of(chars[i]))
}

/// The script that identifiers are restricted to, where it is known.
pub open spec fn allowed_script(cfg: RuleConfigModel) -> Option<Seq<char>> {
    match cfg.restrict_script {
        Some(code) if tables::is_script_code(code) => Some(code),
        _ => None,
    }
}

/// The five stages.
pub open spec fn stages_of(bytes: Seq<u8>, cfg: RuleConfigModel) -> Seq<StageModel> {
    let units = decode::units_of(bytes);
    let scalars = stages::scalar_chars(units);
    let fold = folded(cfg, scalars);
    let strip = stripped(cfg, fold);
    seq![
        stages::raw_view(units),
        stages::scalar_view(units),
        if cfg.case_fold {
            stages::fold_view(scalars, fold)
        } else {
            stages::kept_view("case_fold"@, scalars)
        },
        if cfg.strip_default_ignorable {
            stages::strip_view(fold, kept_marks(fold))
        } else {
            stages::kept_view("strip_ignorable"@, fold)
        },
        stages::normalize_view(cfg.normalization, strip, normalized(cfg, strip)),
    ]
}

/// The whole way of an identifier through the pipeline.
pub open spec fn trace_of(bytes: Seq<u8>, cfg: RuleConfigModel) -> TraceModel {
    let units = decode::units_of(bytes);
    let scalars = stages::scalar_chars(units);
    let canonical = canonical_of(cfg, scalars);
    let scripts = stages::scripts_of(canonical, script_codes(canonical));
    let allowed = allowed_script(cfg);
    TraceModel {
        stages: stages_of(bytes, cfg),
        issues: stages::raw_issues(units) + stages::scalar_issues(scalars) + stages::script_issues(
            scripts,
            allowed,
        ),
        canonical,
        canonical_cps: text::code_points(canonical),
        scripts,
        mixed_script: scripts.len() > 1,
        restriction_violated: allowed is Some && stages::violates(scripts, allowed->0),
    }
}

/// Every unit of a stage comes from a unit of the stage before.
pub open spec fn comes_from(stage: StageModel, before: StageModel) -> bool {
    &&& stage.provenance.len() == stage.units.len()
    &&& stage.notes.len() == stage.units.len()
    &&& forall|i: int|
        0 <= i < stage.provenance.len() ==> (#[trigger] stage.provenance[i]) < before.units.len()
}

/// Every unit can be followed back, stage by stage, to a unit of the raw stage.
pub open spec fn chains_to_raw(stages: Seq<StageModel>) -> bool {
    &&& stages.len() == 5
    &&& comes_from(stages[0], stages[0])
    &&& comes_from(stages[1], stages[0])
    &&& comes_from(stages[2], stages[1])
    &&& comes_from(stages[3], stages[2])
    &&& comes_from(stages[4], stages[3])
}

fn marks_of(chars: &[char]) -> (r: Vec<bool>)
    ensures
        r@ == kept_marks(chars@),
{
    let mut out: Vec<bool> = Vec::new();
    for i in 0..chars.len()
        invariant
            out@ == kept_marks(chars@.take(i as int)),
    {
        out.push(!is_default_ignorable(chars[i]));
        proof {
            assert(out@ =~= kept_marks(chars@.take(i + 1)));
        }
    }
    proof {
        assert(chars@.take(chars@.len() as int) =~= chars@);
    }
    out
}

fn codes_of(chars: &[char]) -> (r: Vec<String>)
    ensures
        r.deep_view() == script_codes(chars@),
{
    let mut out: Vec<String> = Vec::new();
    for i in 0..chars.len()
        invariant
            out@.len() == i,
            forall|k: int| 0 <= k < i ==> (#[trigger] out@[k])@ == tables::script_code_of(chars@[k]),
    {
        out.push(tables::script_code(chars[i]));
    }
    proof {
        assert(out.deep_view() =~= script_codes(chars@));
    }
    out
}

/// Scalar units are as many as their characters.
proof fn lemma_scalar_count(units: Seq<Unit>)
    requires
        units.len() <= usize::MAX,
    ensures
        stages::positions(stages::scalar_marks(units)).len() == stages::scalar_chars(units).len(),
        stages::scalar_chars(units).len() <= units.len(),
        forall|k: int|
            0 <= k < stages::positions(stages::scalar_marks(units)).len() ==> (
            #[trigger] stages::positions(stages::scalar_marks(units))[k]) < units.len(),
    decreases units.len(),
{
    if units.len() > 0 {
        assert(stages::scalar_marks(units).drop_last() =~= stages::scalar_marks(units.drop_last()));
        lemma_scalar_count(units.drop_last());
    }
}

/// Runs the whole pipeline over one original byte string.
pub fn analyze(bytes: &[u8], cfg: &RuleConfig) -> (trace: Trace)
    ensures
        trace.deep_view() == trace_of(bytes@, cfg.deep_view()),
        chains_to_raw(trace.deep_view().stages),
{
    broadcast use {text::lemma_models_push, text::lemma_vec_model};

    let ghost model = cfg.deep_view();
    let raw = permissive_decode(bytes);
    let (raw_view, mut issues) = raw_stage(raw.as_slice());
    let (scalar_view, scalars, scalar_found) = scalar_stage(raw.as_slice());
    let raw_len = raw.len();
    let scalars_len = scalars.len();
    let (fold_view, fold) = if cfg.case_fold {
        let next = tables::fold_case(scalars.as_slice());
        proof {
            align::alignment_indexes_prev(scalars@, next@);
        }
        (fold_stage(scalars.as_slice(), next.as_slice()), next)
    } else {
        let view = kept_stage("case_fold", scalars.as_slice());
        (view, scalars)
    };
    let fold_len = fold.len();
    let (strip_view, strip) = if cfg.strip_default_ignorable {
        let keep = marks_of(fold.as_slice());
        proof {
            stages::lemma_positions(fold@, keep@);
        }
        strip_stage(fold.as_slice(), keep.as_slice())
    } else {
        let view = kept_stage("strip_ignorable", fold.as_slice());
        (view, fold)
    };
    let strip_len = strip.len();
    let canonical = match cfg.normalization {
        Normalization::Nfc => tables::to_form_c(strip.as_slice()),
        Normalization::Nfkc => tables::to_form_kc(strip.as_slice()),
    };
    let normal_view = normalize_stage(cfg.normalization, strip.as_slice(), canonical.as_slice());
    proof {
        align::alignment_indexes_prev(strip@, canonical@);
        lemma_scalar_count(raw@);
    }
    let codes = codes_of(canonical.as_slice());
    proof {
        assert(codes.deep_view().len() == codes@.len());
    }
    let allowed = match &cfg.restrict_script {
        Some(code) => if tables::knows_script_code(code.as_str()) {
            Some(code)
        } else {
            None
        },
        None => None,
    };
    let mut report = script_report(canonical.as_slice(), &codes, allowed);
    let mut scalar_issues = scalar_found;
    issues.append(&mut scalar_issues);
    issues.append(&mut report.issues);
    let mut stages: Vec<StageView> = Vec::new();
    stages.push(raw_view);
    stages.push(scalar_view);
    stages.push(fold_view);
    stages.push(strip_view);
    stages.push(normal_view);
    let trace = Trace {
        stages,
        issues,
        canonical: string_of(canonical.as_slice()),
        canonical_cps: numbers_of(canonical.as_slice()),
        scripts: report.scripts,
        mixed_script: report.mixed_script,
        restriction_violated: report.restriction_violated,
    };
    proof {
        let want = trace_of(bytes@, model);
        assert(trace.deep_view().stages =~= want.stages);
        assert(trace.deep_view().issues =~= want.issues);
        assert(trace.deep_view() =~= want);
    }
    trace
}

/// Runs the whole pipeline over a text.
pub fn analyze_str(s: &str, cfg: &RuleConfig) -> (trace: Trace)
    ensures
        trace.deep_view() == trace_of(vstd::utf8::encode_utf8(s@), cfg.deep_view()),
        chains_to_raw(trace.deep_view().stages),
{
    analyze(s.as_bytes(), cfg)
}

proof fn lemma_raw_issues(units: Seq<Unit>, index: usize, byte: u8, cp: u32)
    requires
        units.len() <= usize::MAX,
    ensures
        stages::raw_issues(units).contains(IssueModel::InvalidUtf8 { index, byte }) <==> index
            < units.len() && units[index as int] == Unit::InvalidByte(byte),
        stages::raw_issues(units).contains(IssueModel::LoneSurrogate { index, cp }) <==> index
            < units.len() && units[index as int] == Unit::Surrogate(cp),
        forall|k: int|
            0 <= k < stages::raw_issues(units).len() ==> (#[trigger] stages::raw_issues(
                units,
            )[k]) is InvalidUtf8 || stages::raw_issues(units)[k] is LoneSurrogate,
    decreases units.len(),
{
    let issues = stages::raw_issues(units);
    let a = IssueModel::InvalidUtf8 { index, byte };
    let b = IssueModel::LoneSurrogate { index, cp };
    if units.len() > 0 {
        let before = stages::raw_issues(units.drop_last());
        lemma_raw_issues(units.drop_last(), index, byte, cp);
        if issues != before {
            assert(issues.drop_last() =~= before);
            assert(issues[issues.len() - 1] == issues.last());
            assert forall|x: IssueModel| #[trigger]
                issues.contains(x) <==> before.contains(x) || x == issues.last() by {
                if before.contains(x) {
                    let k = choose|k: int| 0 <= k < before.len() && before[k] == x;
                    assert(issues[k] == x);
                }
                if issues.contains(x) && x != issues.last() {
                    let k = choose|k: int| 0 <= k < issues.len() && issues[k] == x;
                    assert(before[k] == x);
                }
            }
            assert forall|k: int| 0 <= k < issues.len() implies (#[trigger] issues[k]) is InvalidUtf8
                || issues[k] is LoneSurrogate by {
                if k < before.len() {
                    assert(issues[k] == before[k]);
                }
            }
        }
    } else {
        assert(issues =~= Seq::empty());
    }
}

proof fn lemma_scalar_issues(chars: Seq<char>, index: usize, cp: u32)
    requires
        chars.len() <= usize::MAX,
    ensures
        stages::scalar_issues(chars).contains(IssueModel::Noncharacter { index, cp }) <==> index
            < chars.len() && chars[index as int] as u32 == cp && decode::noncharacter(cp),
        forall|k: int|
            0 <= k < stages::scalar_issues(chars).len() ==> (#[trigger] stages::scalar_issues(
                chars,
            )[k]) is Noncharacter,
    decreases chars.len(),
{
    let issues = stages::scalar_issues(chars);
    if chars.len() > 0 {
        let before = stages::scalar_issues(chars.drop_last());
        lemma_scalar_issues(chars.drop_last(), index, cp);
        if issues != before {
            assert(issues.drop_last() =~= before);
            assert(issues[issues.len() - 1] == issues.last());
            assert forall|x: IssueModel| #[trigger]
                issues.contains(x) <==> before.contains(x) || x == issues.last() by {
                if before.contains(x) {
                    let k = choose|k: int| 0 <= k < before.len() && before[k] == x;
                    assert(issues[k] == x);
                }
                if issues.contains(x) && x != issues.last() {
                    let k = choose|k: int| 0 <= k < issues.len() && issues[k] == x;
                    assert(before[k] == x);
                }
            }
            assert forall|k: int| 0 <= k < issues.len() implies (
            #[trigger] issues[k]) is Noncharacter by {
                if k < before.len() {
                    assert(issues[k] == before[k]);
                }
            }
        }
    } else {
        assert(issues =~= Seq::empty());
    }
}

/// Each invalid byte, each lone surrogate and each noncharacter is reported with its position, and
/// nothing else is reported as one.
pub proof fn issues_report_exactly(
    bytes: Seq<u8>,
    cfg: RuleConfigModel,
    index: usize,
    byte: u8,
    cp: u32,
)
    requires
        decode::units_of(bytes).len() <= usize::MAX,
    ensures
        ({
            let units = decode::units_of(bytes);
            let scalars = stages::scalar_chars(units);
            let issues = trace_of(bytes, cfg).issues;
            &&& issues.contains(IssueModel::InvalidUtf8 { index, byte }) <==> index < units.len()
                && units[index as int] == Unit::InvalidByte(byte)
            &&& issues.contains(IssueModel::LoneSurrogate { index, cp }) <==> index < units.len()
                && units[index as int] == Unit::Surrogate(cp)
            &&& issues.contains(IssueModel::Noncharacter { index, cp }) <==> index < scalars.len()
                && scalars[index as int] as u32 == cp && decode::noncharacter(cp)
        }),
{
    let units = decode::units_of(bytes);
    let scalars = stages::scalar_chars(units);
    let trace = trace_of(bytes, cfg);
    let raw = stages::raw_issues(units);
    let scalar = stages::scalar_issues(scalars);
    let script = stages::script_issues(trace.scripts, allowed_script(cfg));
    lemma_scalar_count(units);
    lemma_raw_issues(units, index, byte, cp);
    lemma_scalar_issues(scalars, index, cp);
    assert forall|x: IssueModel| #[trigger]
        trace.issues.contains(x) <==> raw.contains(x) || scalar.contains(x) || script.contains(
            x,
        ) by {
        lemma_in_three(raw, scalar, script, x);
    }
    assert forall|k: int| 0 <= k < script.len() implies (#[trigger] script[k]) is MixedScript
        || script[k] is ScriptRestriction by {}
}

proof fn lemma_in_three<T>(a: Seq<T>, b: Seq<T>, c: Seq<T>, x: T)
    ensures
        (a + b + c).contains(x) <==> a.contains(x) || b.contains(x) || c.contains(x),
{
    let all = a + b + c;
    if a.contains(x) {
        let k = choose|k: int| 0 <= k < a.len() && a[k] == x;
        assert(all[k] == x);
    }
    if b.contains(x) {
        let k = choose|k: int| 0 <= k < b.len() && b[k] == x;
        assert(all[a.len() + k] == x);
    }
    if c.contains(x) {
        let k = choose|k: int| 0 <= k < c.len() && c[k] == x;
        assert(all[a.len() + b.len() + k] == x);
    }
    if all.contains(x) {
        let k = choose|k: int| 0 <= k < all.len() && all[k] == x;
        if k < a.len() {
            assert(a[k] == x);
        } else if k < a.len() + b.len() {
            assert(b[k - a.len()] == x);
        } else {
            assert(c[k - a.len() - b.len()] == x);
        }
    }
}

/// Invalid bytes and lone surrogates never take part after the raw stage: two byte strings with the
/// same scalar values have the same canonical value, scripts and script verdicts.
pub proof fn only_scalars_take_part(a: Seq<u8>, b: Seq<u8>, cfg: RuleConfigModel)
    requires
        stages::scalar_chars(decode::units_of(a)) == stages::scalar_chars(decode::units_of(b)),
    ensures
        trace_of(a, cfg).canonical == trace_of(b, cfg).canonical,
        trace_of(a, cfg).canonical_cps == trace_of(b, cfg).canonical_cps,
        trace_of(a, cfg).scripts == trace_of(b, cfg).scripts,
        trace_of(a, cfg).mixed_script == trace_of(b, cfg).mixed_script,
        trace_of(a, cfg).restriction_violated == trace_of(b, cfg).restriction_violated,
{
}

/// The raw and the scalar stage never change a unit: each unit of the scalar stage is the unit of
/// the raw stage that it comes from.
pub proof fn scalars_are_raw_units(bytes: Seq<u8>, cfg: RuleConfigModel, k: int)
    requires
        decode::units_of(bytes).len() <= usize::MAX,
        0 <= k < trace_of(bytes, cfg).stages[1].units.len(),
    ensures
        ({
            let stages = trace_of(bytes, cfg).stages;
            &&& stages[1].provenance[k] < stages[0].units.len()
            &&& stages[1].units[k] == stages[0].units[stages[1].provenance[k] as int]
        }),
{
    let units = decode::units_of(bytes);
    lemma_scalar_count(units);
    lemma_scalars_are_units(units, k);
}

proof fn lemma_scalars_are_units(units: Seq<Unit>, k: int)
    requires
        units.len() <= usize::MAX,
        0 <= k < stages::scalar_chars(units).len(),
        k < stages::positions(stages::scalar_marks(units)).len(),
    ensures
        ({
            let p = stages::positions(stages::scalar_marks(units))[k];
            p < units.len() && units[p as int] == Unit::Scalar(stages::scalar_chars(units)[k])
        }),
    decreases units.len(),
{
    assert(stages::scalar_marks(units).drop_last() =~= stages::scalar_marks(units.drop_last()));
    lemma_scalar_count(units.drop_last());
    if k < stages::scalar_chars(units.drop_last()).len() {
        lemma_scalars_are_units(units.drop_last(), k);
    }
}

/// A restriction is violated exactly if that is reported, and scripts are mixed exactly if that is
/// reported.
pub proof fn script_verdicts_are_reported(bytes: Seq<u8>, cfg: RuleConfigModel)
    requires
        decode::units_of(bytes).len() <= usize::MAX,
    ensures
        ({
            let trace = trace_of(bytes, cfg);
            &&& trace.mixed_script <==> exists|k: int|
                0 <= k < trace.issues.len() && (#[trigger] trace.issues[k]) is MixedScript
            &&& trace.restriction_violated <==> exists|k: int|
                0 <= k < trace.issues.len() && (#[trigger] trace.issues[k]) is ScriptRestriction
        }),
{
    let units = decode::units_of(bytes);
    let scalars = stages::scalar_chars(units);
    let trace = trace_of(bytes, cfg);
    let raw = stages::raw_issues(units);
    let scalar = stages::scalar_issues(scalars);
    let script = stages::script_issues(trace.scripts, allowed_script(cfg));
    lemma_scalar_count(units);
    lemma_raw_issues(units, 0, 0, 0);
    lemma_scalar_issues(scalars, 0, 0);
    let start = (raw + scalar).len() as int;
    assert forall|k: int| 0 <= k < start implies !((#[trigger] trace.issues[k]) is MixedScript)
        && !(trace.issues[k] is ScriptRestriction) by {
        if k < raw.len() {
            assert(trace.issues[k] == raw[k]);
        } else {
            assert(trace.issues[k] == scalar[k - raw.len()]);
        }
    }
    assert forall|k: int| start <= k < trace.issues.len() implies #[trigger] trace.issues[k]
        == script[k - start] by {}
    if trace.mixed_script {
        assert(trace.issues[start] == script[0]);
    }
    if trace.restriction_violated {
        assert(trace.issues[start + script.len() - 1] == script[script.len() - 1]);
    }
}

} // verus!

//! The Unicode tables of two generations of ICU4X: release 1.5 (crate `icu`, Unicode 15.1) and
//! release 2.3 (crates `icu_casemap`, `icu_normalizer`, `icu_properties`, Unicode 16).
//!
//! What a table says of a text or a character is a fixed function of it. Each such function has a
//! name here, and the functions that look it up return what the name stands for. Scripts are
//! numbered as in ICU4C.

use vstd::prelude::*;

verus! {

/// Normalization form C in the older tables.
pub uninterp spec fn older_form_c(text: Seq<char>) -> Seq<char>;

/// Normalization form KC in the older tables.
pub uninterp spec fn older_form_kc(text: Seq<char>) -> Seq<char>;

/// Normalization form C in the newer tables.
pub uninterp spec fn newer_form_c(text: Seq<char>) -> Seq<char>;

/// Normalization form KC in the newer tables.
pub uninterp spec fn newer_form_kc(text: Seq<char>) -> Seq<char>;

/// Full case folding in the older tables.
pub uninterp spec fn older_folding(text: Seq<char>) -> Seq<char>;

/// Full case folding in the newer tables.
pub uninterp spec fn newer_folding(text: Seq<char>) -> Seq<char>;

/// The property Default_Ignorable_Code_Point in the older tables.
pub uninterp spec fn older_ignorable(c: char) -> bool;

/// The property Default_Ignorable_Code_Point in the newer tables.
pub uninterp spec fn newer_ignorable(c: char) -> bool;

/// The number of a character's script in the older tables.
pub uninterp spec fn older_script(c: char) -> u16;

/// The number of a character's script in the newer tables.
pub uninterp spec fn newer_script(c: char) -> u16;

/// The long name of a script in the older tables.
pub uninterp spec fn older_script_name(script: u16) -> Option<Seq<char>>;

/// The long name of a script in the newer tables.
pub uninterp spec fn newer_script_name(script: u16) -> Option<Seq<char>>;

/// The script that a name stands for, loosely matched, in the older tables.
pub uninterp spec fn older_script_named(name: Seq<char>) -> Option<u16>;

/// The script that a name stands for, loosely matched, in the newer tables.
pub uninterp spec fn newer_script_named(name: Seq<char>) -> Option<u16>;

/// `icu::normalizer::ComposingNormalizer::normalize` of the normalizer that `new_nfc` makes. The
/// form of a text is fixed by the text.
#[verifier::external_body]
pub(crate) fn to_older_form_c(text: &str) -> (r: String)
    ensures
        r@ == older_form_c(text@),
{
    icu::normalizer::ComposingNormalizer::new_nfc().normalize(text)
}

/// `icu::normalizer::ComposingNormalizer::normalize` of the normalizer that `new_nfkc` makes. The
/// form of a text is fixed by the text.
#[verifier::external_body]
pub(crate) fn to_older_form_kc(text: &str) -> (r: String)
    ensures
        r@ == older_form_kc(text@),
{
    icu::normalizer::ComposingNormalizer::new_nfkc().normalize(text)
}

/// `icu_normalizer::ComposingNormalizerBorrowed::normalize` of the normalizer that
/// `ComposingNormalizer::new_nfc` makes. The form of a text is fixed by the text.
#[verifier::external_body]
pub(crate) fn to_newer_form_c(text: &str) -> (r: String)
    ensures
        r@ == newer_form_c(text@),
{
    icu_normalizer::ComposingNormalizer::new_nfc().normalize(text).into_owned()
}

/// `icu_normalizer::ComposingNormalizerBorrowed::normalize` of the normalizer that
/// `ComposingNormalizer::new_nfkc` makes. The form of a text is fixed by the text.
#[verifier::external_body]
pub(crate) fn to_newer_form_kc(text: &str) -> (r: String)
    ensures
        r@ == newer_form_kc(text@),
{
    icu_normalizer::ComposingNormalizer::new_nfkc().normalize(text).into_owned()
}

/// `icu::casemap::CaseMapper::fold_string`. The folding of a text is fixed by the text.
#[verifier::external_body]
pub(crate) fn to_older_folding(text: &str) -> (r: String)
    ensures
        r@ == older_folding(text@),
{
    icu::casemap::CaseMapper::new().fold_string(text)
}

/// `icu_casemap::CaseMapperBorrowed::fold_string`. The folding of a text is fixed by the text.
#[verifier::external_body]
pub(crate) fn to_newer_folding(text: &str) -> (r: String)
    ensures
        r@ == newer_folding(text@),
{
    icu_casemap::CaseMapper::new().fold_string(text).into_owned()
}

/// `contains` of the set that `icu::properties::sets::default_ignorable_code_point` gives.
#[verifier::external_body]
pub(crate) fn is_older_ignorable(c: char) -> (r: bool)
    ensures
        r == older_ignorable(c),
{
    icu::properties::sets::default_ignorable_code_point().contains(c)
}

/// `icu_properties::CodePointSetDataBorrowed::contains` of the set of default ignorable code
/// points.
#[verifier::external_body]
pub(crate) fn is_newer_ignorable(c: char) -> (r: bool)
    ensures
        r == newer_ignorable(c),
{
    icu_properties::CodePointSetData::new::<
        icu_properties::props::DefaultIgnorableCodePoint,
    >().contains(c)
}

/// `get` of the map that `icu::properties::maps::script` gives, by the number of the script.
#[verifier::external_body]
pub(crate) fn older_script_of(c: char) -> (r: u16)
    ensures
        r == older_script(c),
{
    icu::properties::maps::script().get(c).0
}

/// `icu_properties::CodePointMapDataBorrowed::get` of the map of scripts, by the number of the
/// script.
#[allow(deprecated)]
#[verifier::external_body]
pub(crate) fn newer_script_of(c: char) -> (r: u16)
    ensures
        r == newer_script(c),
{
    icu_properties::CodePointMapData::<
        icu_properties::props::Script,
    >::new().get(c).to_icu4c_value()
}

/// `get` of the mapper that `icu::properties::Script::enum_to_long_name_mapper` gives.
#[verifier::external_body]
pub(crate) fn name_of_older_script(script: u16) -> (r: Option<String>)
    ensures
        r.deep_view() == older_script_name(script),
{
    icu::properties::Script::enum_to_long_name_mapper().get(
        icu::properties::Script(script),
    ).map(str::to_owned)
}

/// `icu_properties::PropertyNamesLongBorrowed::get` for scripts.
#[allow(deprecated)]
#[verifier::external_body]
pub(crate) fn name_of_newer_script(script: u16) -> (r: Option<String>)
    ensures
        r.deep_view() == newer_script_name(script),
{
    icu_properties::PropertyNamesLong::<icu_properties::props::Script>::new().get(
        icu_properties::props::Script::from_icu4c_value(script),
    ).map(str::to_owned)
}

/// `get_loose` of the mapper that `icu::properties::Script::name_to_enum_mapper` gives, by the
/// number of the script.
#[verifier::external_body]
pub(crate) fn older_script_by_name(name: &str) -> (r: Option<u16>)
    ensures
        r == older_script_named(name@),
{
    icu::properties::Script::name_to_enum_mapper().get_loose(name).map(|script| script.0)
}

/// `icu_properties::PropertyParserBorrowed::get_loose` for scripts, by the number of the script.
#[allow(deprecated)]
#[verifier::external_body]
pub(crate) fn newer_script_by_name(name: &str) -> (r: Option<u16>)
    ensures
        r == newer_script_named(name@),
{
    icu_properties::PropertyParser::<icu_properties::props::Script>::new().get_loose(name).map(
        |script| script.to_icu4c_value(),
    )
}

} // verus!

//! The Unicode tables of the linked crates: case folding, normalization forms, categories and
//! scripts.
//!
//! What a table says of a text is a fixed function of that text. Each such function has a name
//! here, and the functions that look it up return what the name stands for.

use vstd::prelude::*;

use caseless::Caseless;
use unicode_general_category::{get_general_category, GeneralCategory};
use unicode_normalization::UnicodeNormalization;
use unicode_script::{Script, UnicodeScript};

verus! {

/// The Unicode default case folding (full) of a text, by `caseless`.
pub uninterp spec fn case_folding(text: Seq<char>) -> Seq<char>;

/// The normalization form C of a text, by `unicode_normalization`.
pub uninterp spec fn form_c(text: Seq<char>) -> Seq<char>;

/// The normalization form KC of a text, by `unicode_normalization`.
pub uninterp spec fn form_kc(text: Seq<char>) -> Seq<char>;

/// Whether a character is of the general category Cf, by `unicode_general_category`.
pub uninterp spec fn format_category(c: char) -> bool;

/// The four-letter ISO 15924 code of a character's script, by `unicode_script`.
pub uninterp spec fn script_code_of(c: char) -> Seq<char>;

/// Whether a text is the ISO 15924 code of a script that `unicode_script` knows.
pub uninterp spec fn is_script_code(code: Seq<char>) -> bool;

/// `caseless::Caseless::default_case_fold` over the characters of a text. The folding of a text is
/// fixed by the text, and an empty text has nothing to fold.
#[verifier::external_body]
pub(crate) fn fold_case(text: &[char]) -> (r: Vec<char>)
    ensures
        r@ == case_folding(text@),
        text@.len() == 0 ==> r@.len() == 0,
{
    text.iter().copied().default_case_fold().collect()
}

/// `unicode_normalization::UnicodeNormalization::nfc` over the characters of a text. The form of a
/// text is fixed by the text, and that of an empty text is empty.
#[verifier::external_body]
pub(crate) fn to_form_c(text: &[char]) -> (r: Vec<char>)
    ensures
        r@ == form_c(text@),
        text@.len() == 0 ==> r@.len() == 0,
{
    text.iter().copied().nfc().collect()
}

/// `unicode_normalization::UnicodeNormalization::nfkc` over the characters of a text. The form of
/// a text is fixed by the text, and that of an empty text is empty.
#[verifier::external_body]
pub(crate) fn to_form_kc(text: &[char]) -> (r: Vec<char>)
    ensures
        r@ == form_kc(text@),
        text@.len() == 0 ==> r@.len() == 0,
{
    text.iter().copied().nfkc().collect()
}

/// `unicode_general_category::get_general_category`: tells the category Format (Cf) from all
/// others. The category of a character is fixed by the character.
#[verifier::external_body]
pub(crate) fn is_format(c: char) -> (r: bool)
    ensures
        r == format_category(c),
{
    matches!(get_general_category(c), GeneralCategory::Format)
}

/// `unicode_script::UnicodeScript::script`, by its `short_name`. The script of a character is
/// fixed by the character, and no two scripts share a short name.
#[verifier::external_body]
pub(crate) fn script_code(c: char) -> (r: String)
    ensures
        r@ == script_code_of(c),
{
    c.script().short_name().to_string()
}

/// `unicode_script::Script::from_short_name`: whether it finds a script, which is then the one
/// whose short name is `code`.
#[verifier::external_body]
pub(crate) fn knows_script_code(code: &str) -> (r: bool)
    ensures
        r == is_script_code(code@),
{
    Script::from_short_name(code).is_some()
}

/// `unicode_normalization::UNICODE_VERSION`.
#[verifier::external_body]
pub(crate) fn normalization_version() -> (r: (u8, u8, u8))
    ensures
        r == (18u8, 0u8, 0u8),
{
    unicode_normalization::UNICODE_VERSION
}

/// `caseless::UNICODE_VERSION`.
#[verifier::external_body]
pub(crate) fn case_folding_version() -> (r: (u64, u64, u64))
    ensures
        r == (16u64, 0u64, 0u64),
{
    caseless::UNICODE_VERSION
}

/// `unicode_general_category::UNICODE_VERSION`.
#[verifier::external_body]
pub(crate) fn general_category_version() -> (r: (u64, u64, u64))
    ensures
        r == (16u64, 0u64, 0u64),
{
    unicode_general_category::UNICODE_VERSION
}

/// `unicode_script::UNICODE_VERSION`.
#[verifier::external_body]
pub(crate) fn script_version() -> (r: (u64, u64, u64))
    ensures
        r == (18u64, 0u64, 0u64),
{
    unicode_script::UNICODE_VERSION
}

} // verus!

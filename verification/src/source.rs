//! Source texts of records: code points, strict UTF-8 decoding, and the issues found on the way.

use vstd::prelude::*;
use vstd::utf8::*;

use crate::decode;
use crate::text;
use crate::text::{lossy_string, push_upper_hex, u_plus, Duplicate};

verus! {

/// A code point with its notation.
#[derive(Debug, Clone, PartialEq, Eq)]
pub struct CodePoint {
    pub value: u32,
    pub hex: String,
    pub character: Option<char>,
    pub surrogate: bool,
}

/// The model of a [`CodePoint`].
#[verifier::ext_equal]
pub struct CodePointModel {
    pub value: u32,
    pub hex: Seq<char>,
    pub character: Option<char>,
    pub surrogate: bool,
}

impl DeepView for CodePoint {
    type V = CodePointModel;

    open spec fn deep_view(&self) -> CodePointModel {
        CodePointModel {
            value: self.value,
            hex: self.hex@,
            character: self.character,
            surrogate: self.surrogate,
        }
    }
}

impl Duplicate for CodePoint {
    fn duplicate(&self) -> (r: Self) {
        CodePoint {
            value: self.value,
            hex: self.hex.duplicate(),
            character: self.character,
            surrogate: self.surrogate,
        }
    }
}

/// The character of a number, if it is a scalar value.
pub open spec fn scalar_of(value: u32) -> Option<char> {
    if is_scalar(value) {
        Some(value as char)
    } else {
        None
    }
}

/// A number in the surrogate range.
pub open spec fn surrogate(value: u32) -> bool {
    0xd800 <= value <= 0xdfff
}

/// A number with its notation.
pub open spec fn code_point(value: u32) -> CodePointModel {
    CodePointModel {
        value,
        hex: text::u_plus_text(value as nat),
        character: scalar_of(value),
        surrogate: surrogate(value),
    }
}

impl CodePoint {
    /// A number with its notation.
    pub fn new(value: u32) -> (r: Self)
        ensures
            r.deep_view() == code_point(value),
    {
        CodePoint {
            value,
            hex: u_plus(value),
            character: char::from_u32(value),
            surrogate: 0xd800 <= value && value <= 0xdfff,
        }
    }
}

/// Something to report about a record.
#[derive(Debug, Clone, PartialEq, Eq)]
pub struct Issue {
    pub kind: String,
    pub offset: usize,
    pub codepoint: Option<String>,
    pub bytes: Vec<String>,
    pub message: String,
    pub script: Option<String>,
}

/// The model of an [`Issue`].
#[verifier::ext_equal]
pub struct IssueModel {
    pub kind: Seq<char>,
    pub offset: usize,
    pub codepoint: Option<Seq<char>>,
    pub bytes: Seq<Seq<char>>,
    pub message: Seq<char>,
    pub script: Option<Seq<char>>,
}

impl DeepView for Issue {
    type V = IssueModel;

    open spec fn deep_view(&self) -> IssueModel {
        IssueModel {
            kind: self.kind@,
            offset: self.offset,
            codepoint: self.codepoint.deep_view(),
            bytes: self.bytes.deep_view(),
            message: self.message@,
            script: self.script.deep_view(),
        }
    }
}

impl Duplicate for Issue {
    fn duplicate(&self) -> (r: Self) {
        Issue {
            kind: self.kind.duplicate(),
            offset: self.offset,
            codepoint: self.codepoint.duplicate(),
            bytes: self.bytes.duplicate(),
            message: self.message.duplicate(),
            script: self.script.duplicate(),
        }
    }
}

/// A code point and where its source begins.
#[derive(Debug, Clone)]
pub struct SourceToken {
    pub codepoint: u32,
    pub offset: usize,
}

impl DeepView for SourceToken {
    type V = SourceToken;

    open spec fn deep_view(&self) -> SourceToken {
        *self
    }
}

/// What strict decoding found.
#[derive(Debug, Clone)]
pub struct DecodedSource {
    pub tokens: Vec<SourceToken>,
    pub issues: Vec<Issue>,
    pub valid_utf8: bool,
}

/// The model of a [`DecodedSource`].
#[verifier::ext_equal]
pub struct DecodedModel {
    pub tokens: Seq<SourceToken>,
    pub issues: Seq<IssueModel>,
    pub valid_utf8: bool,
}

impl DeepView for DecodedSource {
    type V = DecodedModel;

    open spec fn deep_view(&self) -> DecodedModel {
        DecodedModel {
            tokens: self.tokens@,
            issues: self.issues.deep_view(),
            valid_utf8: self.valid_utf8,
        }
    }
}

impl Default for DecodedSource {
    fn default() -> (r: Self)
        ensures
            r.tokens@ == Seq::<SourceToken>::empty(),
            r.issues@ == Seq::<Issue>::empty(),
            !r.valid_utf8,
    {
        DecodedSource { tokens: Vec::new(), issues: Vec::new(), valid_utf8: false }
    }
}

/// The notation of a byte.
pub open spec fn byte_text(b: u8) -> Seq<char> {
    "0x"@ + text::upper_hex_text(b as nat, 2)
}

/// The notations of bytes.
pub open spec fn byte_texts(bytes: Seq<u8>) -> Seq<Seq<char>> {
    Seq::new(bytes.len(), |i: int| byte_text(bytes[i]))
}

/// The issue of bytes that are not well-formed.
pub open spec fn invalid_bytes(offset: usize, bytes: Seq<u8>, message: Seq<char>) -> IssueModel {
    IssueModel {
        kind: "invalid-utf8"@,
        offset,
        codepoint: None,
        bytes: byte_texts(bytes),
        message,
        script: None,
    }
}

/// The number of bytes of a sequence, by its first byte.
pub open spec fn sequence_len(first: u8) -> Option<int> {
    if is_leading_byte_width_1(first) {
        Some(1int)
    } else if is_leading_byte_width_2(first) {
        Some(2int)
    } else if is_leading_byte_width_3(first) {
        Some(3int)
    } else if is_leading_byte_width_4(first) {
        Some(4int)
    } else {
        None
    }
}

/// A decoding with one more issue in front.
pub open spec fn with_issue(issue: IssueModel, rest: DecodedModel) -> DecodedModel {
    DecodedModel { tokens: rest.tokens, issues: seq![issue] + rest.issues, valid_utf8: false }
}

/// Strict decoding from the byte `at` on: a byte that cannot begin a sequence is reported alone, a
/// sequence that the bytes do not suffice for ends the decoding, a malformed sequence is reported
/// whole, and a well-formed one gives its scalar value.
pub open spec fn strict_from(bytes: Seq<u8>, at: int) -> DecodedModel
    decreases bytes.len() - at,
    when 0 <= at <= bytes.len()
{
    if at == bytes.len() {
        DecodedModel { tokens: seq![], issues: seq![], valid_utf8: true }
    } else {
        match sequence_len(bytes[at]) {
            None => with_issue(
                invalid_bytes(at as usize, seq![bytes[at]], "invalid UTF-8 lead byte"@),
                strict_from(bytes, at + 1),
            ),
            Some(n) => if at + n > bytes.len() {
                DecodedModel {
                    tokens: seq![],
                    issues: seq![
                        invalid_bytes(at as usize, bytes.skip(at), "truncated UTF-8 sequence"@),
                    ],
                    valid_utf8: false,
                }
            } else {
                let sequence = bytes.subrange(at, at + n);
                let rest = strict_from(bytes, at + n);
                if valid_first_scalar(sequence) {
                    DecodedModel {
                        tokens: seq![
                            SourceToken {
                                codepoint: decode_first_scalar(sequence),
                                offset: at as usize,
                            },
                        ] + rest.tokens,
                        ..rest
                    }
                } else {
                    with_issue(
                        invalid_bytes(at as usize, sequence, "malformed UTF-8 sequence"@),
                        rest,
                    )
                }
            },
        }
    }
}

/// Strict decoding of bytes.
pub open spec fn strictly_decoded(bytes: Seq<u8>) -> DecodedModel {
    strict_from(bytes, 0)
}

fn byte_notations(bytes: &[u8]) -> (r: Vec<String>)
    ensures
        r.deep_view() == byte_texts(bytes@),
{
    let mut out: Vec<String> = Vec::new();
    for i in 0..bytes.len()
        invariant
            out@.len() == i,
            forall|k: int| 0 <= k < i ==> (#[trigger] out@[k])@ == byte_text(bytes@[k]),
    {
        let mut note = String::new();
        note.push_str("0x");
        push_upper_hex(&mut note, bytes[i] as u64, 2);
        proof {
            assert(note@ =~= byte_text(bytes@[i as int]));
        }
        out.push(note);
    }
    proof {
        assert(out.deep_view() =~= byte_texts(bytes@));
    }
    out
}

fn invalid_issue(offset: usize, bytes: &[u8], message: &str) -> (r: Issue)
    ensures
        r.deep_view() == invalid_bytes(offset, bytes@, message@),
{
    Issue {
        kind: "invalid-utf8".to_owned(),
        offset,
        codepoint: None,
        bytes: byte_notations(bytes),
        message: message.to_owned(),
        script: None,
    }
}

/// The scalar value of a sequence whose first byte gives its length.
fn decode_one_utf8(sequence: &[u8]) -> (r: Option<u32>)
    requires
        sequence@.len() > 0,
        sequence_len(sequence@[0]) == Some(sequence@.len() as int),
    ensures
        r == (if valid_first_scalar(sequence@) {
            Some(decode_first_scalar(sequence@))
        } else {
            None
        }),
{
    let n = sequence.len();
    let b1 = sequence[0];
    if n == 1 {
        proof {
            decode::lemma_codepoint_bounds(b1, 0, 0);
        }
        return Some((b1 & 0x7F) as u32);
    }
    let b2 = sequence[1];
    if b2 < 0x80 || 0xbf < b2 {
        return None;
    }
    if n == 2 {
        let value: u32 = (((b1 & 0x1F) as u32) << 6) | ((b2 & 0x3f) as u32);
        proof {
            decode::lemma_codepoint_bounds(b1, b2, 0);
        }
        return if 0x80 <= value {
            Some(value)
        } else {
            None
        };
    }
    let b3 = sequence[2];
    if b3 < 0x80 || 0xbf < b3 {
        return None;
    }
    if n == 3 {
        let value: u32 = (((b1 & 0x0F) as u32) << 12) | (((b2 & 0x3f) as u32) << 6) | ((b3 & 0x3f)
            as u32);
        return if 0x800 <= value && (value < 0xd800 || 0xdfff < value) {
            Some(value)
        } else {
            None
        };
    }
    let b4 = sequence[3];
    if b4 < 0x80 || 0xbf < b4 {
        return None;
    }
    let value: u32 = (((b1 & 0x07) as u32) << 18) | (((b2 & 0x3f) as u32) << 12) | (((b3 & 0x3f)
        as u32) << 6) | ((b4 & 0x3f) as u32);
    if 0x10000 <= value && value <= 0x10ffff {
        Some(value)
    } else {
        None
    }
}

/// Decodes UTF-8 strictly; every place that is not well-formed is reported.
pub fn decode_utf8_strict(bytes: &[u8]) -> (r: DecodedSource)
    ensures
        r.deep_view() == strictly_decoded(bytes@),
{
    broadcast use {text::lemma_models_push, text::lemma_vec_model};

    let mut tokens: Vec<SourceToken> = Vec::new();
    let mut issues: Vec<Issue> = Vec::new();
    let mut valid_utf8 = true;
    let mut offset: usize = 0;
    let ghost want = strictly_decoded(bytes@);
    proof {
        assert(text::models(issues@) =~= Seq::<IssueModel>::empty());
        assert(tokens@ + want.tokens =~= want.tokens);
        assert(text::models(issues@) + want.issues =~= want.issues);
    }
    while offset < bytes.len()
        invariant_except_break
            tokens@ + strict_from(bytes@, offset as int).tokens == want.tokens,
            text::models(issues@) + strict_from(bytes@, offset as int).issues == want.issues,
            want.valid_utf8 == (valid_utf8 && strict_from(bytes@, offset as int).valid_utf8),
        invariant
            offset <= bytes@.len(),
        ensures
            tokens@ == want.tokens,
            text::models(issues@) == want.issues,
            valid_utf8 == want.valid_utf8,
        decreases bytes@.len() - offset,
    {
        let first = bytes[offset];
        let ghost here = strict_from(bytes@, offset as int);
        let ghost tokens_before = tokens@;
        let ghost issues_before = text::models(issues@);
        let n: usize = if first < 0x80 {
            1
        } else if 0xc0 <= first && first <= 0xdf {
            2
        } else if 0xe0 <= first && first <= 0xef {
            3
        } else if 0xf0 <= first && first <= 0xf7 {
            4
        } else {
            0
        };
        if n == 0 {
            let one = vstd::slice::slice_subrange(bytes, offset, offset + 1);
            proof {
                assert(one@ =~= seq![bytes@[offset as int]]);
            }
            issues.push(invalid_issue(offset, one, "invalid UTF-8 lead byte"));
            valid_utf8 = false;
            offset += 1;
            proof {
                let rest = strict_from(bytes@, offset as int);
                assert(tokens_before + here.tokens =~= tokens@ + rest.tokens);
                assert(issues_before + here.issues =~= text::models(issues@) + rest.issues);
            }
        } else if n > bytes.len() - offset {
            let rest = vstd::slice::slice_subrange(bytes, offset, bytes.len());
            proof {
                assert(rest@ =~= bytes@.skip(offset as int));
            }
            issues.push(invalid_issue(offset, rest, "truncated UTF-8 sequence"));
            valid_utf8 = false;
            proof {
                assert(tokens_before + here.tokens =~= tokens@);
                assert(issues_before + here.issues =~= text::models(issues@));
            }
            break;
        } else {
            let sequence = vstd::slice::slice_subrange(bytes, offset, offset + n);
            proof {
                assert(sequence@[0] == first);
            }
            match decode_one_utf8(sequence) {
                Some(codepoint) => {
                    tokens.push(SourceToken { codepoint, offset });
                },
                None => {
                    issues.push(invalid_issue(offset, sequence, "malformed UTF-8 sequence"));
                    valid_utf8 = false;
                },
            }
            offset += n;
            proof {
                let rest = strict_from(bytes@, offset as int);
                assert(tokens_before + here.tokens =~= tokens@ + rest.tokens);
                assert(issues_before + here.issues =~= text::models(issues@) + rest.issues);
            }
        }
        proof {
            if offset == bytes@.len() {
                let rest = strict_from(bytes@, offset as int);
                assert(tokens@ + rest.tokens =~= tokens@);
                assert(text::models(issues@) + rest.issues =~= text::models(issues@));
            }
        }
    }
    DecodedSource { tokens, issues, valid_utf8 }
}

/// Strict decoding finds nothing to report exactly in well-formed UTF-8, and then gives its scalar
/// values.
proof fn lemma_strict_from(bytes: Seq<u8>, at: int)
    requires
        0 <= at <= bytes.len(),
    ensures
        strict_from(bytes, at).valid_utf8 == valid_utf8(bytes.skip(at)),
        strict_from(bytes, at).valid_utf8 == (strict_from(bytes, at).issues.len() == 0),
        valid_utf8(bytes.skip(at)) ==> {
            let tokens = strict_from(bytes, at).tokens;
            let chars = decode_utf8(bytes.skip(at));
            &&& tokens.len() == chars.len()
            &&& forall|i: int|
                0 <= i < chars.len() ==> (#[trigger] tokens[i]).codepoint == chars[i] as u32
        },
    decreases bytes.len() - at,
{
    let rest = bytes.skip(at);
    if at < bytes.len() {
        match sequence_len(bytes[at]) {
            None => {
                lemma_strict_from(bytes, at + 1);
            },
            Some(n) => {
                if at + n <= bytes.len() {
                    let sequence = bytes.subrange(at, at + n);
                    lemma_strict_from(bytes, at + n);
                    assert(sequence[0] == rest[0]);
                    assert(n >= 2 ==> sequence[1] == rest[1]);
                    assert(n >= 3 ==> sequence[2] == rest[2]);
                    assert(n >= 4 ==> sequence[3] == rest[3]);
                    assert(valid_first_scalar(sequence) == valid_first_scalar(rest));
                    if valid_first_scalar(rest) {
                        assert(pop_first_scalar(rest) =~= bytes.skip(at + n));
                        decode::lemma_first_scalar_is_scalar(rest);
                        if valid_utf8(rest) {
                            let chars = decode_utf8(rest);
                            let tokens = strict_from(bytes, at).tokens;
                            assert forall|i: int| 0 <= i < chars.len() implies (
                            #[trigger] tokens[i]).codepoint == chars[i] as u32 by {
                                if i > 0 {
                                    assert(tokens[i] == strict_from(bytes, at + n).tokens[i - 1]);
                                }
                            }
                        }
                    }
                } else {
                    assert(!valid_first_scalar(rest));
                }
            },
        }
    }
}

/// Strict decoding accepts exactly well-formed UTF-8, and reports something in all other bytes; of
/// well-formed UTF-8 it gives the scalar values.
pub proof fn strict_decoding_accepts_utf8(bytes: Seq<u8>)
    ensures
        strictly_decoded(bytes).valid_utf8 == valid_utf8(bytes),
        strictly_decoded(bytes).valid_utf8 == (strictly_decoded(bytes).issues.len() == 0),
        valid_utf8(bytes) ==> {
            let tokens = strictly_decoded(bytes).tokens;
            let chars = decode_utf8(bytes);
            &&& tokens.len() == chars.len()
            &&& forall|i: int|
                0 <= i < chars.len() ==> (#[trigger] tokens[i]).codepoint == chars[i] as u32
        },
{
    assert(bytes.skip(0) =~= bytes);
    lemma_strict_from(bytes, 0);
}

/// The bytes of a code point: UTF-8 for a scalar value, the same scheme for a surrogate, and none
/// for a number outside the codespace.
pub open spec fn code_point_bytes(value: u32) -> Seq<u8> {
    if is_scalar(value) {
        encode_scalar(value)
    } else if surrogate(value) {
        seq![
            0xedu8,
            (0xa0 + (value - 0xd800) / 64) as u8,
            (0x80 + (value - 0xd800) % 64) as u8,
        ]
    } else {
        seq![]
    }
}

/// The bytes of code points.
pub open spec fn wtf8_bytes(codepoints: Seq<u32>) -> Seq<u8>
    decreases codepoints.len(),
{
    if codepoints.len() == 0 {
        seq![]
    } else {
        wtf8_bytes(codepoints.drop_last()) + code_point_bytes(codepoints.last())
    }
}

/// Appends the UTF-8 bytes of a scalar value.
fn push_scalar(out: &mut Vec<u8>, value: u32)
    requires
        is_scalar(value),
    ensures
        final(out)@ == old(out)@ + encode_scalar(value),
{
    let ghost before = out@;
    let last: u8 = 0x80 | (value & 0x3F) as u8;
    if value <= 0x7f {
        out.push((value & 0x7F) as u8);
    } else if value <= 0x7ff {
        out.push(0xC0 | ((value >> 6) & 0x1F) as u8);
        out.push(last);
    } else if value <= 0xffff {
        out.push(0xE0 | ((value >> 12) & 0x0F) as u8);
        out.push(0x80 | ((value >> 6) & 0x3F) as u8);
        out.push(last);
    } else {
        out.push(0xF0 | ((value >> 18) & 0x7) as u8);
        out.push(0x80 | ((value >> 12) & 0x3F) as u8);
        out.push(0x80 | ((value >> 6) & 0x3F) as u8);
        out.push(last);
    }
    proof {
        assert(out@ =~= before + encode_scalar(value));
    }
}

/// The bytes of code points, surrogates in the scheme of UTF-8.
pub fn encode_wtf8_codepoints(codepoints: &[u32]) -> (r: Vec<u8>)
    ensures
        r@ == wtf8_bytes(codepoints@),
{
    let mut out: Vec<u8> = Vec::new();
    proof {
        assert(codepoints@.take(0) =~= Seq::<u32>::empty());
    }
    for i in 0..codepoints.len()
        invariant
            out@ == wtf8_bytes(codepoints@.take(i as int)),
    {
        let value = codepoints[i];
        let ghost before = out@;
        proof {
            assert(codepoints@.take(i + 1).drop_last() =~= codepoints@.take(i as int));
            assert(codepoints@.take(i + 1).last() == value);
        }
        if value <= 0x10ffff && (value < 0xd800 || 0xdfff < value) {
            push_scalar(&mut out, value);
        } else if 0xd800 <= value && value <= 0xdfff {
            let low: u32 = value - 0xd800;
            out.push(0xed);
            out.push((0xa0 + low / 64) as u8);
            out.push((0x80 + low % 64) as u8);
        }
        proof {
            assert(out@ =~= before + code_point_bytes(value));
        }
    }
    proof {
        assert(codepoints@.take(codepoints@.len() as int) =~= codepoints@);
    }
    out
}

/// The characters of code points that are all scalar values.
pub open spec fn chars_from(codepoints: Seq<u32>) -> Option<Seq<char>> {
    if forall|i: int| 0 <= i < codepoints.len() ==> is_scalar(#[trigger] codepoints[i]) {
        Some(Seq::new(codepoints.len(), |i: int| codepoints[i] as char))
    } else {
        None
    }
}

/// The text of code points, if they are all scalar values.
pub fn codepoints_to_string(codepoints: &[u32]) -> (r: Option<String>)
    ensures
        r.deep_view() == chars_from(codepoints@),
{
    let mut out = String::new();
    for i in 0..codepoints.len()
        invariant
            forall|k: int| 0 <= k < i ==> is_scalar(#[trigger] codepoints@[k]),
            out@ == Seq::new(i as nat, |k: int| codepoints@[k] as char),
    {
        match char::from_u32(codepoints[i]) {
            Some(c) => {
                out.push(c);
                proof {
                    assert(out@ =~= Seq::new((i + 1) as nat, |k: int| codepoints@[k] as char));
                }
            },
            None => {
                proof {
                    assert(!is_scalar(codepoints@[i as int]));
                }
                return None;
            },
        }
    }
    proof {
        assert(chars_from(codepoints@)->0 =~= out@);
    }
    Some(out)
}

/// The bytes of scalar values are the UTF-8 bytes of their text.
pub proof fn wtf8_of_scalars_is_utf8(codepoints: Seq<u32>)
    requires
        chars_from(codepoints) is Some,
    ensures
        wtf8_bytes(codepoints) == encode_utf8(chars_from(codepoints)->0),
    decreases codepoints.len(),
{
    let chars = chars_from(codepoints)->0;
    if codepoints.len() == 0 {
        assert(chars =~= Seq::<char>::empty());
    } else {
        let front = codepoints.drop_last();
        assert forall|i: int| 0 <= i < front.len() implies is_scalar(#[trigger] front[i]) by {
            assert(front[i] == codepoints[i]);
        }
        wtf8_of_scalars_is_utf8(front);
        let last = codepoints.last();
        assert(is_scalar(last));
        assert(chars =~= chars_from(front)->0 + seq![last as char]);
        text::lemma_encode_utf8_concat(chars_from(front)->0, seq![last as char]);
        assert((last as char) as u32 == last);
        let one = seq![last as char];
        assert(one.drop_first() =~= Seq::<char>::empty());
        assert(encode_utf8(one.drop_first()) =~= Seq::<u8>::empty());
        assert(encode_utf8(one) =~= encode_scalar(last));
    }
}

/// The text of code points: their characters, or, where some are no scalar values, what their bytes
/// are read as.
pub open spec fn text_from(codepoints: Seq<u32>) -> Seq<char> {
    match chars_from(codepoints) {
        Some(chars) => chars,
        None => text::lossy_text(wtf8_bytes(codepoints)),
    }
}

/// The text of code points.
pub fn codepoints_text(codepoints: &[u32]) -> (r: String)
    ensures
        r@ == text_from(codepoints@),
{
    let bytes = encode_wtf8_codepoints(codepoints);
    proof {
        if let Some(chars) = chars_from(codepoints@) {
            wtf8_of_scalars_is_utf8(codepoints@);
            encode_utf8_valid_utf8(chars);
            encode_utf8_decode_utf8(chars);
        }
    }
    lossy_string(bytes.as_slice())
}

} // verus!

//! Codecs, orders and small texts.

use collision_workbench::align::lcs_align;
use collision_workbench::base64::{base64_decode, base64_encode};
use collision_workbench::cycles::find_cycle;
use collision_workbench::decode::{is_noncharacter, permissive_decode, Unit};
use collision_workbench::hex_bytes::{from_hex, to_hex};
use collision_workbench::source::{
    codepoints_text, codepoints_to_string, decode_utf8_strict, encode_wtf8_codepoints, CodePoint,
};
use collision_workbench::strmap::{StringMap, StringSet};
use collision_workbench::unicode::{
    analyze, analyze_str, is_default_ignorable, Issue, Normalization, RuleConfig,
};

#[test]
fn hex_goes_both_ways() {
    let bytes = [0x00, 0x0f, 0xa5, 0xff];
    assert_eq!(to_hex(&bytes), "000fa5ff");
    assert_eq!(from_hex("000FA5ff"), Ok(bytes.to_vec()));
    assert_eq!(from_hex("0"), Err("hex string has odd length".to_string()));
    assert_eq!(from_hex("0g"), Err("invalid hex digit 0x67".to_string()));
    assert_eq!(from_hex(""), Ok(vec![]));
}

#[test]
fn base64_goes_both_ways() {
    for (bytes, text) in [
        (&b""[..], ""),
        (&b"f"[..], "Zg=="),
        (&b"fo"[..], "Zm8="),
        (&b"foo"[..], "Zm9v"),
        (&[0x41, 0xff, 0x42][..], "Qf9C"),
        (&[0xfb, 0xef, 0xff][..], "++//"),
    ] {
        assert_eq!(base64_encode(bytes), text);
        assert_eq!(base64_decode(text), Ok(bytes.to_vec()));
    }
    for wrong in ["Z", "Zg=", "Zg", "Z*==", "=Zg="] {
        assert!(base64_decode(wrong).is_err());
    }
}

#[test]
fn permissive_decoding_keeps_every_byte() {
    assert_eq!(
        permissive_decode(b"a\xffb"),
        [Unit::Scalar('a'), Unit::InvalidByte(0xff), Unit::Scalar('b')]
    );
    assert_eq!(permissive_decode(&[0xed, 0xa0, 0x80]), [Unit::Surrogate(0xd800)]);
    // Overlong forms and what lies beyond the last code point are no characters.
    assert_eq!(
        permissive_decode(&[0xc0, 0x80]),
        [Unit::InvalidByte(0xc0), Unit::InvalidByte(0x80)]
    );
    assert_eq!(
        permissive_decode(&[0xf4, 0x90, 0x80, 0x80]),
        [
            Unit::InvalidByte(0xf4),
            Unit::InvalidByte(0x90),
            Unit::InvalidByte(0x80),
            Unit::InvalidByte(0x80),
        ]
    );
    assert_eq!(permissive_decode("é😀".as_bytes()), [Unit::Scalar('é'), Unit::Scalar('😀')]);
    assert_eq!(permissive_decode(&[0xe2, 0x82]), [Unit::InvalidByte(0xe2), Unit::InvalidByte(0x82)]);
    assert!(is_noncharacter(0xfffe) && is_noncharacter(0x10ffff) && is_noncharacter(0xfdd0));
    assert!(!is_noncharacter(0xfffd) && !is_noncharacter(0xfdf0));
}

#[test]
fn strict_decoding_reports_sequences() {
    let fine = decode_utf8_strict("aß".as_bytes());
    assert!(fine.valid_utf8 && fine.issues.is_empty());
    assert_eq!(fine.tokens.len(), 2);
    assert_eq!((fine.tokens[1].codepoint, fine.tokens[1].offset), (0xdf, 1));
    let broken = decode_utf8_strict(&[0x41, 0xff]);
    assert!(!broken.valid_utf8);
    assert_eq!(broken.issues[0].kind, "invalid-utf8");
    assert_eq!(broken.issues[0].offset, 1);
    assert_eq!(codepoints_to_string(&[0x61, 0xdf]), Some("aß".to_string()));
    assert_eq!(codepoints_to_string(&[0xd800]), None);
    assert_eq!(encode_wtf8_codepoints(&[0x61, 0xd800]), [0x61, 0xed, 0xa0, 0x80]);
    assert_eq!(codepoints_text(&[0x61, 0xdf]), "aß");
    let point = CodePoint::new(0xd800);
    assert_eq!((point.hex.as_str(), point.character, point.surrogate), ("U+D800", None, true));
    assert_eq!(CodePoint::new(0x1f600).hex, "U+1F600");
}

#[test]
fn alignment_points_back() {
    assert_eq!(lcs_align(&['a', 'b', 'c'], &['a', 'b', 'c']), [0, 1, 2]);
    assert_eq!(lcs_align(&['a', 'ß'], &['a', 's', 's']), [0, 1, 1]);
    assert_eq!(lcs_align(&[], &['x']), [0]);
    assert_eq!(lcs_align(&['a', 'b'], &['b']), [1]);
}

#[test]
fn first_cycles_are_found() {
    let set = |members: &[&str]| {
        let mut out = StringSet::new();
        for member in members {
            out.insert(member.to_string());
        }
        out
    };
    let mut edges = StringMap::new();
    edges.insert("a".to_string(), set(&["b", "c"]));
    edges.insert("b".to_string(), set(&["d"]));
    edges.insert("c".to_string(), set(&["x"]));
    assert_eq!(find_cycle(&edges), None);
    edges.insert("x".to_string(), set(&["c"]));
    let cycle = ["a", "c", "x", "c"].map(str::to_string).to_vec();
    assert_eq!(find_cycle(&edges), Some(cycle));
    let mut own = StringMap::new();
    own.insert("q".to_string(), set(&["q"]));
    assert_eq!(find_cycle(&own), Some(vec!["q".to_string(), "q".to_string()]));
}

#[test]
fn ignorable_characters() {
    assert!(is_default_ignorable('\u{00ad}'));
    assert!(is_default_ignorable('\u{200d}'));
    assert!(is_default_ignorable('\u{fe0f}'));
    assert!(!is_default_ignorable('a'));
    // Format characters that are shown.
    assert!(!is_default_ignorable('\u{0600}'));
    assert!(!is_default_ignorable('\u{06dd}'));
}

#[test]
fn analysis_of_text_and_bytes_agree() {
    let cfg = RuleConfig {
        case_fold: true,
        normalization: Normalization::Nfkc,
        strip_default_ignorable: true,
        restrict_script: Some("Latn".to_string()),
    };
    let text = analyze_str("Ⅷ\u{200b}ß", &cfg);
    let bytes = analyze("Ⅷ\u{200b}ß".as_bytes(), &cfg);
    assert_eq!(text.canonical, "viiiss");
    assert_eq!(text.canonical, bytes.canonical);
    assert_eq!(text.canonical_cps, [0x76, 0x69, 0x69, 0x69, 0x73, 0x73]);
    assert_eq!(text.scripts, ["Latn"]);
    let names: Vec<&str> = text.stages.iter().map(|s| s.name.as_str()).collect();
    assert_eq!(names, ["raw", "scalars", "case_fold", "strip_ignorable", "normalize"]);
    let greek = analyze_str("αa", &cfg);
    assert!(greek.mixed_script && greek.restriction_violated);
    assert!(greek.issues.iter().any(|i| matches!(i, Issue::MixedScript { scripts } if scripts.len() == 2)));
    assert!(greek.issues.iter().any(
        |i| matches!(i, Issue::ScriptRestriction { allowed, .. } if allowed == "Latn")
    ));
}

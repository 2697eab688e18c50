use parapet::action::Transformation as T;
use parapet::transform::hex_encode;
use std::borrow::Cow;

/// Apply a transformation to a string and read the result back as a string.
fn t(kind: T, input: &str) -> String {
    String::from_utf8_lossy(&kind.apply(input.as_bytes())).into_owned()
}

#[test]
fn none_borrows_and_changes_nothing() {
    let input = b"unchanged";
    assert!(matches!(T::Identity.apply(input), Cow::Borrowed(_)));
}

#[test]
fn unchanged_input_is_not_copied() {
    // A chain of no-ops should not allocate.
    assert!(matches!(
        T::Lowercase.apply(b"already lower"),
        Cow::Borrowed(_)
    ));
    assert!(matches!(
        T::RemoveNulls.apply(b"no nulls"),
        Cow::Borrowed(_)
    ));
    assert!(matches!(
        T::Utf8ToUnicode.apply(b"pure ascii"),
        Cow::Borrowed(_)
    ));
}

#[test]
fn lowercase_is_ascii_only() {
    assert_eq!(t(T::Lowercase, "SeLeCt"), "select");
}

#[test]
fn length_reports_bytes_not_characters() {
    assert_eq!(t(T::Length, "abc"), "3");
    assert_eq!(t(T::Length, ""), "0");
    // Three bytes, one character.
    assert_eq!(t(T::Length, "\u{20ac}"), "3");
}

#[test]
fn hex_encode_is_lowercase() {
    assert_eq!(t(T::HexEncode, "AB\n"), "41420a");
}

#[test]
fn sha1_matches_the_known_vector() {
    let out = T::Sha1.apply(b"abc");
    assert_eq!(
        hex_encode(&out),
        b"a9993e364706816aba3e25717850c26c9cd0d89d".to_vec()
    );
}

#[test]
fn remove_nulls_defeats_null_byte_splitting() {
    assert_eq!(t(T::RemoveNulls, "sel\0ect"), "select");
}

#[test]
fn remove_whitespace_strips_every_ascii_space_byte() {
    assert_eq!(t(T::RemoveWhitespace, "se l\te\nc\rt\x0b\x0c"), "select");
}

#[test]
fn compress_whitespace_folds_runs_to_one_space() {
    assert_eq!(t(T::CompressWhitespace, "a \t\n  b"), "a b");
    assert_eq!(t(T::CompressWhitespace, "union    select"), "union select");
    assert!(matches!(
        T::CompressWhitespace.apply(b"already single"),
        Cow::Borrowed(_)
    ));
}

#[test]
fn cmd_line_normalises_shell_obfuscation() {
    // A space before `/` is deleted, so `cat /etc/passwd` and
    // `cat/etc/passwd` normalise to the same string. This is the documented
    // behaviour and the reason the transformation exists.
    assert_eq!(
        t(T::CmdLine, r#"/bin/cat /etc/passwd"#),
        "/bin/cat/etc/passwd"
    );
    // Quotes, carets and backslashes vanish.
    assert_eq!(t(T::CmdLine, r#"n"e"t"w"o"r"k"#), "network");
    assert_eq!(t(T::CmdLine, "c^m^d"), "cmd");
    assert_eq!(t(T::CmdLine, r"pin\g"), "ping");
    // Commas and semicolons become spaces.
    assert_eq!(t(T::CmdLine, "a,b;c"), "a b c");
    // A space before / or ( is deleted.
    assert_eq!(t(T::CmdLine, "cat /etc"), "cat/etc");
    assert_eq!(t(T::CmdLine, "nc ("), "nc(");
    // And everything lowercases.
    assert_eq!(t(T::CmdLine, "WGET"), "wget");
}

#[test]
fn normalize_path_resolves_traversal() {
    assert_eq!(t(T::NormalizePath, "/a/b/../c"), "/a/c");
    assert_eq!(t(T::NormalizePath, "/a/./b"), "/a/b");
    assert_eq!(t(T::NormalizePath, "/a//b"), "/a/b");
    assert_eq!(t(T::NormalizePath, "a/b/../../c"), "c");
    // A traversal above the root is dropped, not preserved.
    assert_eq!(t(T::NormalizePath, "/../etc/passwd"), "/etc/passwd");
    // Above a relative root it is significant.
    assert_eq!(t(T::NormalizePath, "../etc/passwd"), "../etc/passwd");
    // Trailing slashes survive.
    assert_eq!(t(T::NormalizePath, "/a/b/"), "/a/b/");
}

#[test]
fn normalize_path_win_folds_backslashes_first() {
    assert_eq!(t(T::NormalizePathWin, r"\a\b\..\c"), "/a/c");
    assert_eq!(
        t(T::NormalizePathWin, r"..\..\windows\system32"),
        "../../windows/system32"
    );
}

#[test]
fn remove_comments_char_strips_delimiters_only() {
    assert_eq!(t(T::RemoveCommentsChar, "/*foo*/"), "foo");
    assert_eq!(t(T::RemoveCommentsChar, "a--b"), "ab");
    assert_eq!(t(T::RemoveCommentsChar, "a#b"), "ab");
    assert_eq!(t(T::RemoveCommentsChar, "<!--x-->"), "x");
}

#[test]
fn replace_comments_collapses_inline_sql_comments() {
    // The classic inline-comment evasion.
    assert_eq!(t(T::ReplaceComments, "UN/*x*/ION"), "UN ION");
    assert_eq!(t(T::ReplaceComments, "a/**/b"), "a b");
    // An unterminated comment must not hide the tail from the operator by
    // being left intact.
    assert_eq!(t(T::ReplaceComments, "select/*rest"), "select ");
}

#[test]
fn html_entity_decode_handles_named_decimal_and_hex() {
    assert_eq!(t(T::HtmlEntityDecode, "&lt;script&gt;"), "<script>");
    assert_eq!(t(T::HtmlEntityDecode, "&#60;&#62;"), "<>");
    assert_eq!(t(T::HtmlEntityDecode, "&#x3c;&#X3E;"), "<>");
    assert_eq!(t(T::HtmlEntityDecode, "&amp;&quot;"), "&\"");
    // The semicolon is optional, as browsers accept it missing.
    assert_eq!(t(T::HtmlEntityDecode, "&lt script"), "< script");
    // A bare ampersand stays put.
    assert_eq!(t(T::HtmlEntityDecode, "a & b"), "a & b");
    // An unknown entity is left alone rather than being eaten.
    assert_eq!(t(T::HtmlEntityDecode, "&unknown;"), "&unknown;");
}

#[test]
fn url_decode_uni_decodes_percent_plus_and_iis_unicode() {
    assert_eq!(t(T::UrlDecodeUni, "%3Cscript%3E"), "<script>");
    assert_eq!(t(T::UrlDecodeUni, "a+b"), "a b");
    assert_eq!(t(T::UrlDecodeUni, "%u003c"), "<");
    // Full-width ASCII folds to its ASCII equivalent.
    assert_eq!(t(T::UrlDecodeUni, "%uff1cscript%uff1e"), "<script>");
    // Invalid or truncated escapes are preserved, never swallowed.
    assert_eq!(t(T::UrlDecodeUni, "%zz"), "%zz");
    assert_eq!(t(T::UrlDecodeUni, "%"), "%");
    assert_eq!(t(T::UrlDecodeUni, "%u12"), "%u12");
}

#[test]
fn utf8_to_unicode_rewrites_non_ascii() {
    assert_eq!(t(T::Utf8ToUnicode, "a\u{20ac}b"), "a%u20acb");
    assert_eq!(t(T::Utf8ToUnicode, "\u{ff1c}"), "%uff1c");
}

#[test]
fn utf8_to_unicode_passes_invalid_bytes_through() {
    // Not valid UTF-8. The transformation re-encodes what it understands
    // and leaves the rest, rather than dropping bytes.
    let out = T::Utf8ToUnicode.apply(&[b'a', 0xff, b'b']);
    assert_eq!(out.as_ref(), &[b'a', 0xff, b'b']);
}

#[test]
fn js_decode_handles_every_escape_form() {
    assert_eq!(t(T::JsDecode, r"<script>"), "<script>");
    assert_eq!(t(T::JsDecode, r"\x3cscript\x3e"), "<script>");
    assert_eq!(t(T::JsDecode, r"\u{3c}"), "<");
    assert_eq!(t(T::JsDecode, r"\074"), "<");
    assert_eq!(t(T::JsDecode, r"\n\t"), "\n\t");
    // The full-width fold applies to the escape, not to a literal
    // full-width character, which jsDecode leaves alone.
    assert_eq!(t(T::JsDecode, r"\uff1c"), "<");
    assert_eq!(t(T::JsDecode, "＜"), "＜");
    // An escape of an ordinary character yields the character, which is
    // what collapses \S\E\L\E\C\T into SELECT.
    assert_eq!(t(T::JsDecode, r"\S\E\L\E\C\T"), "SELECT");
    // A leading-zero extended escape folds the same as the short form.
    assert_eq!(t(T::JsDecode, r"\u{0ff1c}"), "<");
}

#[test]
fn escape_seq_decode_handles_c_escapes() {
    assert_eq!(t(T::EscapeSeqDecode, r"\x41\x42"), "AB");
    assert_eq!(t(T::EscapeSeqDecode, r"\101"), "A");
    assert_eq!(t(T::EscapeSeqDecode, r"\n"), "\n");
    assert_eq!(t(T::EscapeSeqDecode, r"\?"), "?");
}

#[test]
fn css_decode_handles_hex_escapes_and_terminators() {
    assert_eq!(t(T::CssDecode, r"\3c script\3e"), "<script>");
    assert_eq!(t(T::CssDecode, r"\00003c"), "<");
    // The classic CSS expression evasion.
    assert_eq!(t(T::CssDecode, r"\65 xpression"), "expression");
    // A backslash before a non-hex character yields that character. Note
    // `\e` is a *hex* escape (U+000E), not the letter e.
    assert_eq!(t(T::CssDecode, r"\s\z\p"), "szp");
    assert_eq!(T::CssDecode.apply(br"\e").as_ref(), &[0x0e]);
}

#[test]
fn base64_decode_stops_at_the_first_invalid_byte() {
    assert_eq!(t(T::Base64Decode, "PHNjcmlwdD4="), "<script>");
    // CR and LF are ignored, so a wrapped payload decodes in full.
    assert_eq!(t(T::Base64Decode, "PHNj\r\ncmlwdD4="), "<script>");
    // Any other byte outside the alphabet ends the decode, and what was
    // decoded up to that point is returned.
    assert_eq!(t(T::Base64Decode, "PHNjcmlw dD4="), "<scrip");
    assert_eq!(t(T::Base64Decode, "PHNj\0cmlw"), "<sc");
    // A truncated final group still decodes as far as it can.
    assert_eq!(t(T::Base64Decode, "PHNjcmlwdD"), "<script");
    assert_eq!(t(T::Base64Decode, ""), "");
}

#[test]
fn css_decode_resolves_code_points_not_low_bytes() {
    // A three-digit escape whose value exceeds one byte must not be
    // truncated: U+0101, encoded as UTF-8.
    assert_eq!(T::CssDecode.apply(br"\101").as_ref(), "\u{101}".as_bytes());
    // A zero code point is invalid and resolves to U+FFFD.
    assert_eq!(
        T::CssDecode.apply(br"\0").as_ref(),
        char::REPLACEMENT_CHARACTER.to_string().as_bytes()
    );
    // A trailing backslash with nothing after it is dropped.
    assert_eq!(T::CssDecode.apply(br"a\").as_ref(), b"a");
}

#[test]
fn transformations_compose_the_way_crs_stacks_them() {
    // t:urlDecodeUni,t:htmlEntityDecode is the most common CRS pair.
    let stacked = [T::UrlDecodeUni, T::HtmlEntityDecode, T::Lowercase];
    let mut value: Vec<u8> = b"%26lt%3BSCRIPT%26gt%3B".to_vec();
    for step in stacked {
        value = step.apply(&value).into_owned();
    }
    assert_eq!(String::from_utf8_lossy(&value), "<script>");
}

#[test]
fn every_transformation_handles_empty_input() {
    for kind in [
        T::Identity,
        T::Base64Decode,
        T::CmdLine,
        T::CompressWhitespace,
        T::CssDecode,
        T::EscapeSeqDecode,
        T::HexEncode,
        T::HtmlEntityDecode,
        T::JsDecode,
        T::Length,
        T::Lowercase,
        T::NormalizePath,
        T::NormalizePathWin,
        T::RemoveCommentsChar,
        T::RemoveNulls,
        T::RemoveWhitespace,
        T::ReplaceComments,
        T::Sha1,
        T::UrlDecodeUni,
        T::Utf8ToUnicode,
    ] {
        let _ = kind.apply(b"");
    }
}

#[test]
fn no_transformation_panics_on_arbitrary_bytes() {
    // Decoders run on attacker-controlled bytes, so index arithmetic near
    // a truncated escape must not panic.
    let nasty: Vec<Vec<u8>> = vec![
        b"%".to_vec(),
        b"%u".to_vec(),
        b"%uff".to_vec(),
        b"\\".to_vec(),
        b"\\u".to_vec(),
        b"\\u{".to_vec(),
        b"\\u{fffff".to_vec(),
        b"\\x".to_vec(),
        b"&".to_vec(),
        b"&#".to_vec(),
        b"&#x".to_vec(),
        b"/*".to_vec(),
        b"<!--".to_vec(),
        b"--".to_vec(),
        vec![0xff, 0xfe, 0x00],
        vec![0x80],
        vec![b'\\', 0xff],
    ];
    for kind in [
        T::Base64Decode,
        T::CmdLine,
        T::CompressWhitespace,
        T::CssDecode,
        T::EscapeSeqDecode,
        T::HtmlEntityDecode,
        T::JsDecode,
        T::NormalizePath,
        T::NormalizePathWin,
        T::RemoveCommentsChar,
        T::ReplaceComments,
        T::UrlDecodeUni,
        T::Utf8ToUnicode,
    ] {
        for input in &nasty {
            let _ = kind.apply(input);
        }
    }
}
#[test]
fn decoder_edge_branches() {
    // urlDecodeUni leaves a malformed escape verbatim.
    assert_eq!(t(T::UrlDecodeUni, "%uZZZZ"), "%uZZZZ");
    assert_eq!(t(T::UrlDecodeUni, "%u"), "%u");
    assert_eq!(t(T::UrlDecodeUni, "%GG"), "%GG");
    assert_eq!(t(T::UrlDecodeUni, "%"), "%");
    // The single-character C escapes.
    assert_eq!(
        T::EscapeSeqDecode.apply(br"\a\b\f\v").into_owned(),
        vec![0x07, 0x08, 0x0c, 0x0b]
    );
    // A CSS backslash-newline is a line continuation and vanishes.
    assert_eq!(
        t(
            T::CssDecode,
            "a\\
b"
        ),
        "ab"
    );
    // A zero code point resolves to the replacement character.
    assert_eq!(t(T::CssDecode, "\\0"), "\u{FFFD}");
    // Base64 with a 2- and 3-char remainder still decodes the partial bytes.
    assert_eq!(t(T::Base64Decode, "TWE"), "Ma");
    assert_eq!(t(T::Base64Decode, "TQ"), "M");
}

//! Transformations: what they keep and what they undo.

use std::borrow::Cow;

use parapet::action::Transformation as T;
use parapet::decode::{
    css_decode, escape_seq_decode, html_entity_decode, js_decode, url_decode_uni,
};

fn run(kind: T, input: &[u8]) -> Vec<u8> {
    kind.apply(input).into_owned()
}

const PLAIN: &[u8] = b"no marks here, only words 123";

#[test]
fn plain_bytes_are_left_alone_by_every_decoder() {
    assert_eq!(url_decode_uni(PLAIN), PLAIN);
    assert_eq!(html_entity_decode(PLAIN), PLAIN);
    assert_eq!(escape_seq_decode(PLAIN), PLAIN);
    assert_eq!(js_decode(PLAIN), PLAIN);
    assert_eq!(css_decode(PLAIN), PLAIN);
}

#[test]
fn decoded_bytes_are_no_longer_than_before() {
    for input in [
        &b"%41%u0042%zz+%"[..],
        b"&lt;&#60;&#x3c;&bogus;&",
        b"\\x41\\101\\n\\",
        b"\\u0041\\u{1F600}\\u{zz}",
    ] {
        assert!(url_decode_uni(input).len() <= input.len());
        assert!(html_entity_decode(input).len() <= input.len());
        assert!(escape_seq_decode(input).len() <= input.len());
        assert!(js_decode(input).len() <= input.len());
    }
}

#[test]
fn lowercase_twice_is_lowercase_once() {
    let once = run(T::Lowercase, b"A\xc9z");
    assert_eq!(once, b"a\xc9z");
    assert_eq!(run(T::Lowercase, &once), once);
}

#[test]
fn no_null_and_no_space_is_left() {
    assert!(!run(T::RemoveNulls, b"\0a\0\0b").contains(&0));
    let bare = run(T::RemoveWhitespace, b" a\tb\x0bc\r\n");
    assert_eq!(bare, b"abc");
}

#[test]
fn compressing_twice_is_compressing_once() {
    let once = run(T::CompressWhitespace, b"  a\t\n b ");
    assert_eq!(run(T::CompressWhitespace, &once), once);
}

#[test]
fn no_closed_comment_is_left() {
    let out = run(T::ReplaceComments, b"a/*x*/b/*y*/c/*open");
    assert_eq!(out, b"a b c ");
    assert_eq!(run(T::ReplaceComments, &out), out);
}

#[test]
fn normalizing_a_path_twice_changes_nothing_more() {
    for path in [
        &b"/a/./b/../c//d/"[..],
        b"../../x",
        b"",
        b"/",
        b"a/..",
        b"/..",
        b".",
    ] {
        let once = run(T::NormalizePath, path);
        assert_eq!(run(T::NormalizePath, &once), once, "{path:?}");
    }
}

#[test]
fn hexadecimal_output_reads_back() {
    let out = run(T::HexEncode, &[0x00, 0x0f, 0xff]);
    assert_eq!(out, b"000fff");
}

#[test]
fn a_digest_is_twenty_bytes() {
    assert_eq!(run(T::Sha1, b"").len(), 20);
    assert_ne!(run(T::Sha1, b"a"), run(T::Sha1, b"b"));
}

#[test]
fn style_escapes_become_utf8() {
    assert_eq!(css_decode(b"\\e9 x"), "\u{e9}x".as_bytes());
    // A surrogate and a number out of range are replaced.
    assert_eq!(css_decode(b"\\d800 "), "\u{fffd}".as_bytes());
    assert_eq!(css_decode(b"\\ffffff "), "\u{fffd}".as_bytes());
}

#[test]
fn shell_spelling_settles() {
    for spelling in [
        "cat /etc/passwd",
        "cat\t\r\n /etc/passwd",
        "c\\a^t /\"etc\"/pas'swd",
        "CAT/etc/passwd",
    ] {
        let once = run(T::CmdLine, spelling.as_bytes());
        assert_eq!(once, b"cat/etc/passwd");
        assert_eq!(run(T::CmdLine, &once), once);
    }
    assert_eq!(run(T::CmdLine, b" a  ( b "), b" a( b ");
    // Commas become spaces only after the spaces before a slash have gone.
    assert_eq!(run(T::CmdLine, b"a,/b"), b"a /b");
    assert_eq!(run(T::CmdLine, b"a ; \"/B"), b"a /b");
    assert_eq!(run(T::CmdLine, b"a,(b;;c, "), b"a (b c ");
    assert_eq!(run(T::CmdLine, b"a\x0bb"), b"a\x0bb");
}

#[test]
fn an_unchanged_input_is_handed_back() {
    for kind in [
        T::Identity,
        T::CmdLine,
        T::CompressWhitespace,
        T::CssDecode,
        T::EscapeSeqDecode,
        T::HtmlEntityDecode,
        T::JsDecode,
        T::Lowercase,
        T::NormalizePath,
        T::NormalizePathWin,
        T::RemoveCommentsChar,
        T::RemoveNulls,
        T::RemoveWhitespace,
        T::ReplaceComments,
        T::UrlDecodeUni,
        T::Utf8ToUnicode,
    ] {
        assert!(matches!(kind.apply(b"plain"), Cow::Borrowed(_)));
    }
    for kind in [T::Base64Decode, T::HexEncode, T::Length, T::Sha1] {
        assert!(matches!(kind.apply(b"plain"), Cow::Owned(_)));
    }
    assert!(matches!(T::Utf8ToUnicode.apply(b"\xff"), Cow::Borrowed(_)));
}

#[test]
fn base64_ignores_line_breaks_and_stops_at_foreign_bytes() {
    assert_eq!(run(T::Base64Decode, b"Z\rm\n9v"), b"foo");
    assert_eq!(run(T::Base64Decode, b"Zm9v!YmFy"), b"foo");
    assert_eq!(run(T::Base64Decode, b"Zm8=YmFy"), b"fo");
    for (plain, encoded) in [
        (&b""[..], &b""[..]),
        (b"f", b"Zg=="),
        (b"fo", b"Zm8="),
        (b"foo", b"Zm9v"),
        (b"\x00\xff\x80\x7f", b"AP+Afw=="),
    ] {
        assert_eq!(run(T::Base64Decode, encoded), plain);
    }
}

#[test]
fn comments_are_replaced_once_and_for_all() {
    assert_eq!(run(T::ReplaceComments, b"a*/b/c*d"), b"a*/b/c*d");
    assert_eq!(run(T::ReplaceComments, b"a/*/b"), b"a ");
    assert_eq!(run(T::ReplaceComments, b"a//*b*/*c"), b"a/ *c");
    for input in ["/*x*/", "//**/*", "/*/**/*/", "a/*b"] {
        let once = run(T::ReplaceComments, input.as_bytes());
        assert!(once.len() <= input.len());
        assert_eq!(run(T::ReplaceComments, &once), once);
    }
}

#[test]
fn normalized_paths_come_out_clean() {
    for (path, clean) in [
        ("//a//./b/../c/", "/a/c/"),
        ("../../a/./..", "../.."),
        ("/../..", "/"),
        ("a/../", ""),
        ("./a/", "a/"),
        ("/", "/"),
        ("//", "/"),
    ] {
        assert_eq!(run(T::NormalizePath, path.as_bytes()), clean.as_bytes());
        assert_eq!(run(T::NormalizePath, clean.as_bytes()), clean.as_bytes());
    }
}

//! Text, bytes, digits and addresses.

use parapet::bytes::{contains_bytes, split_bytes, to_lower_bytes};
use parapet::digits::{fold_unicode_code_point, hex_digit_of, hex_nibble, read_digits};
use parapet::form::{parse_cookies, parse_urlencoded, trim_ascii};
use parapet::ip::{parse_address, parse_ip, write_address, IpAddr, IpRange};
use parapet::text::{
    chars_of, eq_ignore_case_str, parse_signed, parse_unsigned, split_chars, split_lines,
    split_words, string_of, to_lower, to_upper, trim, write_decimal, write_decimal_int,
};

fn c(s: &str) -> Vec<char> {
    chars_of(s)
}

fn pairs(v: &[(String, Vec<u8>)]) -> Vec<(String, String)> {
    v.iter()
        .map(|(n, v)| (n.clone(), String::from_utf8_lossy(v).into_owned()))
        .collect()
}

#[test]
fn lower_and_upper_are_ascii_only_and_idempotent() {
    assert_eq!(string_of(&to_lower(&c("AbC\u{c9}"))), "abc\u{c9}");
    assert_eq!(string_of(&to_lower(&to_lower(&c("AbC")))), "abc");
    assert_eq!(string_of(&to_upper(&c("aBc\u{e9}"))), "ABC\u{e9}");
    assert!(eq_ignore_case_str("Content-TYPE", "content-type"));
    assert!(!eq_ignore_case_str("\u{c9}", "\u{e9}"));
}

#[test]
fn trimming_takes_unicode_white_space() {
    assert_eq!(string_of(trim(&c("\u{a0}\u{2003} a b \t\u{3000}"))), "a b");
    assert_eq!(string_of(trim(&c("\u{200b}x"))), "\u{200b}x");
}

#[test]
fn splitting_keeps_empty_pieces() {
    let chars = c("a,,b,");
    let pieces: Vec<String> = split_chars(&chars, ',').into_iter().map(string_of).collect();
    assert_eq!(pieces, ["a", "", "b", ""]);
    assert_eq!(split_bytes(b"&&", b'&').len(), 3);
}

#[test]
fn joined_text_splits_into_the_pieces_of_both() {
    let whole = c("a;b;c;d");
    let left = c("a;b");
    let right = c("c;d");
    let mut both = split_chars(&left, ';');
    both.extend(split_chars(&right, ';'));
    assert_eq!(split_chars(&whole, ';'), both);
}

#[test]
fn words_and_lines() {
    let chars = c("  a \t b\n");
    let words: Vec<String> = split_words(&chars).into_iter().map(string_of).collect();
    assert_eq!(words, ["a", "b"]);
    let chars = c("x\r\ny\nz");
    let lines: Vec<String> = split_lines(&chars).into_iter().map(string_of).collect();
    assert_eq!(lines, ["x", "y", "z"]);
}

#[test]
fn numbers_read_and_write() {
    assert_eq!(write_decimal(0), "0");
    assert_eq!(write_decimal(u64::MAX), u64::MAX.to_string());
    assert_eq!(write_decimal_int(i64::MIN), i64::MIN.to_string());
    for n in [0i64, 7, -7, i64::MAX, i64::MIN] {
        assert_eq!(parse_signed(&c(&write_decimal_int(n))), Some(n));
    }
    assert_eq!(parse_signed(&c("9223372036854775808")), None);
    assert_eq!(parse_signed(&c("+5")), Some(5));
    assert_eq!(parse_signed(&c("-")), None);
    assert_eq!(parse_unsigned(&c("255"), 255), Some(255));
    assert_eq!(parse_unsigned(&c("256"), 255), None);
    assert_eq!(parse_unsigned(&c(""), 255), None);
}

#[test]
fn bytes_are_searched_and_folded() {
    assert!(contains_bytes(b"abc", b""));
    assert!(contains_bytes(b"abc", b"bc"));
    assert!(!contains_bytes(b"abc", b"cb"));
    assert_eq!(to_lower_bytes(b"A\xc9b"), b"a\xc9b");
}

#[test]
fn digits_and_folded_code_points() {
    assert_eq!(hex_nibble(b'f'), Some(15));
    assert_eq!(hex_nibble(b'g'), None);
    assert_eq!(hex_digit_of(11), b'b');
    assert_eq!(read_digits(b"ff", 16), 255);
    assert_eq!(fold_unicode_code_point(0x41), 0x41);
    // Full-width forms fold onto ASCII.
    assert_eq!(fold_unicode_code_point(0xff1c), b'<');
}

#[test]
fn addresses_parse_and_print() {
    assert_eq!(parse_address(&c("192.168.0.1")), Some(IpAddr::V4(0xc0a8_0001)));
    assert_eq!(parse_address(&c("256.1.1.1")), None);
    assert_eq!(parse_address(&c("1.2.3")), None);
    assert_eq!(parse_address(&c("01.2.3.4")), None);
    assert_eq!(
        parse_address(&c("::1")),
        Some(IpAddr::V6 { high: 0, low: 1 })
    );
    assert_eq!(
        parse_address(&c("2001:db8::ff00:42:8329")),
        Some(IpAddr::V6 {
            high: 0x2001_0db8_0000_0000,
            low: 0x0000_ff00_0042_8329
        })
    );
    assert_eq!(
        parse_address(&c("::ffff:1.2.3.4")),
        Some(IpAddr::V6 {
            high: 0,
            low: 0x0000_ffff_0102_0304
        })
    );
    assert_eq!(parse_address(&c(":::")), None);
    assert_eq!(parse_address(&c("1::2::3")), None);
    assert_eq!(write_address(IpAddr::V4(0x7f00_0001)), "127.0.0.1");
    assert_eq!(
        write_address(IpAddr::V6 {
            high: 0x2001_0db8_0000_0000,
            low: 1
        }),
        "2001:db8::1"
    );
}

#[test]
fn a_client_address_may_carry_a_port() {
    assert_eq!(parse_ip(&c("10.0.0.1:80")), Some(IpAddr::V4(0x0a00_0001)));
    assert_eq!(
        parse_ip(&c("[::1]")),
        Some(IpAddr::V6 { high: 0, low: 1 })
    );
    assert_eq!(parse_ip(&c("nowhere")), None);
}

#[test]
fn ranges_fit_and_hold_their_own_address() {
    let range = IpRange::parse(&c("10.1.2.3/8")).unwrap();
    assert!(range.contains(IpAddr::V4(0x0a01_0203)));
    assert!(range.contains(IpAddr::V4(0x0aff_ffff)));
    assert!(!range.contains(IpAddr::V4(0x0b00_0000)));
    assert!(IpRange::parse(&c("10.0.0.0/33")).is_err());
    assert!(IpRange::parse(&c("::/129")).is_err());
}

#[test]
fn an_empty_prefix_holds_the_whole_family() {
    let v4 = IpRange::parse(&c("1.2.3.4/0")).unwrap();
    assert!(v4.contains(IpAddr::V4(0)));
    assert!(v4.contains(IpAddr::V4(u32::MAX)));
    assert!(!v4.contains(IpAddr::V6 { high: 1, low: 1 }));
    let v6 = IpRange::parse(&c("::/0")).unwrap();
    assert!(v6.contains(IpAddr::V6 {
        high: u64::MAX,
        low: 0
    }));
}

#[test]
fn a_mapped_client_is_judged_as_ipv4() {
    let range = IpRange::parse(&c("192.168.0.0/16")).unwrap();
    for ip in [0xc0a8_0105u32, 0xc0a9_0000] {
        assert_eq!(
            range.contains(IpAddr::V4(ip)),
            range.contains(IpAddr::V6 {
                high: 0,
                low: 0xffff_0000_0000 + ip as u64
            })
        );
    }
}

#[test]
fn forms_keep_order_and_duplicates() {
    assert_eq!(
        pairs(&parse_urlencoded(b"a=1&b=2;a=%33&&c")),
        [
            ("a".to_string(), "1".to_string()),
            ("b".to_string(), "2".to_string()),
            ("a".to_string(), "3".to_string()),
            ("c".to_string(), "".to_string()),
        ]
    );
    assert_eq!(
        pairs(&parse_urlencoded(b"x=a+b%20c=d")),
        [("x".to_string(), "a b c=d".to_string())]
    );
}

#[test]
fn joined_forms_and_cookies_hold_the_pairs_of_both() {
    let mut both = parse_urlencoded(b"a=1&b");
    both.extend(parse_urlencoded(b"c=3;d=4"));
    assert_eq!(parse_urlencoded(b"a=1&b&c=3;d=4"), both);
    assert_eq!(parse_urlencoded(b"c=3;d=4"), parse_urlencoded(b"c=3&d=4"));
    let mut both = parse_cookies(b"a=1");
    both.extend(parse_cookies(b" b=2"));
    assert_eq!(parse_cookies(b"a=1; b=2"), both);
}

#[test]
fn a_name_that_is_not_utf8_is_read_with_replacements() {
    let out = parse_urlencoded(b"%ff=v");
    assert_eq!(out[0].0, "\u{fffd}");
    assert_eq!(out[0].1, b"v");
}

#[test]
fn cookies_are_trimmed() {
    assert_eq!(
        pairs(&parse_cookies(b" a = 1 ;; b ; \t ;c=x=y")),
        [
            ("a".to_string(), "1".to_string()),
            ("b".to_string(), "".to_string()),
            ("c".to_string(), "x=y".to_string()),
        ]
    );
    // A vertical tab is not among the white space that is taken off.
    assert_eq!(trim_ascii(b"\t\x0b a\x0c\r\n"), b"\x0b a");
}

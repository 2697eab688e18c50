//! What is kept of transaction variables.

use parapet::collections::{CompiledSelector, CompiledTarget, Variables};
use parapet::rule::Collection;

fn target(collection: Collection, name: Option<&str>, exclusion: bool) -> CompiledTarget {
    CompiledTarget {
        collection,
        selector: name.map(|n| CompiledSelector::Name(n.to_string())),
        exclusion,
        count: false,
    }
}

fn names(vars: &Variables, targets: &[CompiledTarget]) -> Vec<String> {
    vars.resolve(targets)
        .iter()
        .map(|v| v.name.to_string())
        .collect()
}

#[test]
fn tx_reads_what_was_written_in_any_case() {
    let mut v = Variables::default();
    v.tx_set("Score", b"1".to_vec());
    v.tx_set("other", b"2".to_vec());
    v.tx_set("SCORE", b"3".to_vec());
    assert_eq!(v.tx_get("score"), Some(&b"3"[..]));
    assert_eq!(v.tx_get("other"), Some(&b"2"[..]));
    assert_eq!(v.tx.len(), 2);
    assert_eq!(v.tx.iter()[0].0, "Score");
}

#[test]
fn tx_removal_takes_one_name() {
    let mut v = Variables::default();
    v.tx_set("a", b"1".to_vec());
    v.tx_set("b", b"2".to_vec());
    v.tx_remove("A");
    assert_eq!(v.tx_get("a"), None);
    assert_eq!(v.tx_get("b"), Some(&b"2"[..]));
    assert_eq!(v.tx.len(), 1);
}

#[test]
fn a_write_replaces_every_tx_entry_of_its_name() {
    // Written past `tx_set`, a name can stand twice.
    let mut v = Variables::default();
    v.tx.push("b", b"0");
    v.tx.push("a", b"1");
    v.tx.push("c", b"3");
    v.tx.push("A", b"2");
    assert_eq!(v.tx_get("a"), Some(&b"2"[..]));
    v.tx_set("a", b"9".to_vec());
    assert_eq!(v.tx_get("a"), Some(&b"9"[..]));
    assert_eq!(
        v.tx.iter(),
        [("b", &b"0"[..]), ("a", &b"9"[..]), ("c", &b"3"[..])]
    );
}

#[test]
fn tx_numbers_read_back_and_default_to_zero() {
    let mut v = Variables::default();
    v.tx_set("n", b"-42".to_vec());
    assert_eq!(v.tx_number("n"), -42);
    v.tx_set("n", b" 7 ".to_vec());
    assert_eq!(v.tx_number("n"), 7);
    v.tx_set("n", b"7x".to_vec());
    assert_eq!(v.tx_number("n"), 0);
    v.tx_set("n", vec![0xff]);
    assert_eq!(v.tx_number("n"), 0);
    assert_eq!(v.tx_number("absent"), 0);
}

#[test]
fn the_place_of_an_exclusion_does_not_matter() {
    let mut v = Variables::default();
    v.args_get.push("keep", b"1");
    v.args_get.push("drop", b"2");
    let first = [
        target(Collection::ArgsGet, Some("drop"), true),
        target(Collection::ArgsGet, None, false),
    ];
    let last = [
        target(Collection::ArgsGet, None, false),
        target(Collection::ArgsGet, Some("drop"), true),
    ];
    assert_eq!(names(&v, &first), ["ARGS_GET:keep"]);
    assert_eq!(names(&v, &first), names(&v, &last));
}

#[test]
fn an_exclusion_stays_in_its_collection() {
    let mut v = Variables::default();
    v.args_get.push("id", b"1");
    let targets = [
        target(Collection::ArgsGet, None, false),
        target(Collection::Args, Some("id"), true),
    ];
    assert_eq!(names(&v, &targets), ["ARGS_GET:id"]);
}

#[test]
fn several_entries_are_appended_in_order() {
    let mut v = Variables::default();
    v.args_get.push_owned("a".to_string(), b"1".to_vec());
    v.args_get.push_all(vec![
        ("b".to_string(), b"2".to_vec()),
        ("a".to_string(), b"3".to_vec()),
    ]);
    let all: Vec<(&str, &[u8])> = v.args_get.iter();
    assert_eq!(
        all,
        vec![("a", &b"1"[..]), ("b", &b"2"[..]), ("a", &b"3"[..])]
    );
    assert_eq!(v.args_get.combined_size(), 3);
}

#[test]
fn counts_are_of_what_the_target_inspects() {
    let mut v = Variables::default();
    v.request_headers.push("Host", b"");
    v.request_headers.push("Accept", b"a");
    v.request_headers.push("HOST", b"b");
    v.request_method = b"GET".to_vec();
    for (collection, name, count) in [
        (Collection::RequestHeaders, None, "3"),
        (Collection::RequestHeaders, Some("host"), "2"),
        (Collection::RequestHeaders, Some("X"), "0"),
        (Collection::RequestMethod, None, "1"),
        (Collection::RequestUri, None, "0"),
    ] {
        let mut counting = target(collection, name, false);
        counting.count = true;
        let targets = [counting];
        let found = v.resolve(&targets);
        assert_eq!(found.len(), 1);
        assert_eq!(&found[0].value[..], count.as_bytes());
    }
}

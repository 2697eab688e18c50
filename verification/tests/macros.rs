use parapet::macros::{EmptyContext, MacroContext, Template};
use std::borrow::Cow;
use std::collections::HashMap;

struct Values(HashMap<String, Vec<u8>>);

impl MacroContext for Values {
    fn lookup(&self, name: &str) -> Option<Cow<'_, [u8]>> {
        self.0
            .get(&name.to_ascii_lowercase())
            .map(|v| Cow::Borrowed(v.as_slice()))
    }
}

fn ctx() -> Values {
    let mut m = HashMap::new();
    m.insert("tx.threshold".to_string(), b"5".to_vec());
    m.insert("tx.allowed_methods".to_string(), b"GET HEAD POST".to_vec());
    Values(m)
}

#[test]
fn a_constant_template_is_literal_and_borrows() {
    let t = Template::parse("GET");
    assert!(t.is_literal());
    assert!(matches!(t.expand(&EmptyContext), Cow::Borrowed(_)));
}

#[test]
fn expands_a_single_macro() {
    let t = Template::parse("%{tx.threshold}");
    assert!(!t.is_literal());
    assert_eq!(t.expand(&ctx()).as_ref(), b"5");
}

#[test]
fn expands_mixed_literal_and_macro() {
    let t = Template::parse("score=%{tx.threshold}!");
    assert_eq!(t.expand(&ctx()).as_ref(), b"score=5!");
}

#[test]
fn macro_names_are_case_insensitive() {
    let t = Template::parse("%{TX.Threshold}");
    assert_eq!(t.expand(&ctx()).as_ref(), b"5");
}

#[test]
fn an_unknown_macro_expands_to_nothing() {
    let t = Template::parse("a%{tx.missing}b");
    assert_eq!(t.expand(&ctx()).as_ref(), b"ab");
}

#[test]
fn an_unterminated_macro_stays_literal() {
    let t = Template::parse("100%{ of it");
    assert!(t.is_literal());
    assert_eq!(t.expand(&ctx()).as_ref(), b"100%{ of it");
}

#[test]
fn an_empty_template_expands_to_empty() {
    assert_eq!(Template::parse("").expand(&ctx()).as_ref(), b"");
}

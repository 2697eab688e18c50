//! Regular expressions and multi-pattern automata, as the `regex` and
//! `aho-corasick` crates compile and run them.
//!
//! What a pattern means is left to those crates: a compiled matcher is known by
//! the text it was compiled from, and its answers are named by that text and
//! the subject.

use crate::bytes::lower_bytes;
use crate::bytes::occurs_in;
use vstd::prelude::*;
use vstd::utf8::encode_utf8;

verus! {

/// `regex::Regex`, a compiled pattern over text.
#[verifier::external_type_specification]
#[verifier::external_body]
pub struct ExRegex(regex::Regex);

/// `regex::bytes::Regex`, a compiled pattern over bytes.
#[verifier::external_type_specification]
#[verifier::external_body]
pub struct ExBytesRegex(regex::bytes::Regex);

/// `aho_corasick::AhoCorasick`, a set of phrases to search for at once.
#[verifier::external_type_specification]
#[verifier::external_body]
pub struct ExAhoCorasick(aho_corasick::AhoCorasick);

/// The text of a pattern over text: one that `regex::Regex::new` compiles to a
/// pattern with the same matches, and the one it was compiled from where
/// `regex::Regex::new` compiled it.
pub uninterp spec fn regex_text(re: regex::Regex) -> Seq<char>;

/// The text of a pattern over bytes: one that `regex::bytes::Regex::new` compiles
/// to a pattern with the same matches, and the one it was compiled from where
/// `regex::bytes::Regex::new` compiled it.
pub uninterp spec fn bytes_regex_text(re: regex::bytes::Regex) -> Seq<char>;

/// The phrases that an automaton searches for.
pub uninterp spec fn automaton_phrases(a: aho_corasick::AhoCorasick) -> Seq<Seq<char>>;

/// Whether an automaton was built to search up to ASCII case, starting anywhere
/// in a subject.
pub uninterp spec fn automaton_folds_case(a: aho_corasick::AhoCorasick) -> bool;

/// Why `regex::Regex` refuses a pattern, where it does.
pub uninterp spec fn regex_error(pattern: Seq<char>) -> Option<Seq<char>>;

/// Why `regex::bytes::Regex` refuses a pattern, where it does.
pub uninterp spec fn bytes_regex_error(pattern: Seq<char>) -> Option<Seq<char>>;

/// Why no automaton can be built for some phrases, where none can.
pub uninterp spec fn automaton_error(phrases: Seq<Seq<char>>) -> Option<Seq<char>>;

/// Whether a pattern over text matches anywhere in a subject.
pub uninterp spec fn regex_finds(pattern: Seq<char>, subject: Seq<char>) -> bool;

/// Whether a pattern over bytes matches anywhere in a subject.
pub uninterp spec fn regex_matches(pattern: Seq<char>, subject: Seq<u8>) -> bool;

/// The groups of the first match of a pattern over bytes: the whole match, then
/// each group, absent where it took no part.
pub uninterp spec fn regex_groups(pattern: Seq<char>, subject: Seq<u8>) -> Option<
    Seq<Option<Seq<u8>>>,
>;

/// The groups that a vector holds.
pub open spec fn groups_view(v: Seq<Option<Vec<u8>>>) -> Seq<Option<Seq<u8>>> {
    Seq::new(
        v.len(),
        |i: int|
            match v[i] {
                Some(g) => Some(g@),
                None => None,
            },
    )
}

/// `regex::Regex::new`: compile a pattern over text. The result keeps the text
/// it was compiled from; a refusal is named by the pattern, as the message that
/// `regex::Error` displays.
#[verifier::external_body]
pub(crate) fn new_regex(pattern: &str) -> (r: Result<regex::Regex, String>)
    ensures
        (match r {
            Ok(re) => regex_error(pattern@) is None && regex_text(re) == pattern@,
            Err(e) => regex_error(pattern@) == Some(e@),
        }),
{
    regex::Regex::new(pattern).map_err(|e| e.to_string())
}

/// `regex::bytes::Regex::new`: compile a pattern over bytes. The result keeps
/// the text it was compiled from; a refusal is named by the pattern, as the
/// message that `regex::Error` displays.
#[verifier::external_body]
pub(crate) fn new_bytes_regex(pattern: &str) -> (r: Result<regex::bytes::Regex, String>)
    ensures
        (match r {
            Ok(re) => bytes_regex_error(pattern@) is None && bytes_regex_text(re) == pattern@,
            Err(e) => bytes_regex_error(pattern@) == Some(e@),
        }),
{
    regex::bytes::Regex::new(pattern).map_err(|e| e.to_string())
}

/// `regex::Regex::is_match`: the answer is named by the pattern's text and the
/// subject.
#[verifier::external_body]
pub(crate) fn text_is_match(re: &regex::Regex, subject: &str) -> (r: bool)
    ensures
        r == regex_finds(regex_text(*re), subject@),
{
    re.is_match(subject)
}

/// `regex::bytes::Regex::is_match`: the answer is named by the pattern's text
/// and the subject.
#[verifier::external_body]
pub(crate) fn regex_is_match(re: &regex::bytes::Regex, subject: &[u8]) -> (r: bool)
    ensures
        r == regex_matches(bytes_regex_text(*re), subject@),
{
    re.is_match(subject)
}

/// `regex::bytes::Regex::captures`: the groups are named by the pattern's text
/// and the subject. There are groups exactly where the pattern matches, and
/// then the first of them, the whole match, is present.
#[verifier::external_body]
pub(crate) fn regex_capture(re: &regex::bytes::Regex, subject: &[u8]) -> (r: Option<
    Vec<Option<Vec<u8>>>,
>)
    ensures
        (match r {
            Some(groups) => regex_groups(bytes_regex_text(*re), subject@) == Some(
                groups_view(groups@),
            ) && groups@.len() >= 1 && groups@[0] is Some,
            None => regex_groups(bytes_regex_text(*re), subject@) is None,
        }),
        r is Some <==> regex_matches(bytes_regex_text(*re), subject@),
{
    re.captures(subject).map(
        |caps| caps.iter().map(|group| group.map(|m| m.as_bytes().to_vec())).collect(),
    )
}

/// `aho_corasick::AhoCorasickBuilder::build`, ASCII-case-insensitive and
/// leftmost-longest: the automaton searches for the phrases it was built from, up
/// to ASCII case and starting anywhere; a refusal is named by the phrases, as the
/// message that `BuildError` displays.
#[verifier::external_body]
fn build_automaton(phrases: &Vec<String>) -> (r: Result<
    aho_corasick::AhoCorasick,
    String,
>)
    ensures
        (match r {
            Ok(a) => automaton_error(phrases.deep_view()) is None && automaton_phrases(a)
                == phrases.deep_view() && automaton_folds_case(a),
            Err(e) => automaton_error(phrases.deep_view()) == Some(e@),
        }),
{
    aho_corasick::AhoCorasickBuilder::new()
        .ascii_case_insensitive(true)
        .match_kind(aho_corasick::MatchKind::LeftmostLongest)
        .build(phrases)
        .map_err(|e| e.to_string())
}

/// Whether one of some phrases occurs in a subject, up to ASCII case.
pub open spec fn any_phrase_in(phrases: Seq<Seq<char>>, subject: Seq<u8>) -> bool {
    exists|i: int|
        0 <= i < phrases.len() && occurs_in(
            lower_bytes(subject),
            lower_bytes(encode_utf8(#[trigger] phrases[i])),
        )
}

/// `aho_corasick::AhoCorasick::is_match`, on an automaton that searches up to
/// ASCII case and starts anywhere: whether any of its phrases occurs anywhere in
/// the subject, up to ASCII case.
#[verifier::external_body]
fn automaton_is_match(a: &aho_corasick::AhoCorasick, subject: &[u8]) -> (r: bool)
    requires
        automaton_folds_case(*a),
    ensures
        r == any_phrase_in(automaton_phrases(*a), subject@),
{
    a.is_match(subject)
}

/// An automaton that searches for phrases up to ASCII case.
#[derive(Debug)]
pub struct PhraseMatcher {
    automaton: aho_corasick::AhoCorasick,
}

/// The view of a [`PhraseMatcher`]: the phrases that it searches for.
impl View for PhraseMatcher {
    type V = Seq<Seq<char>>;

    closed spec fn view(&self) -> Seq<Seq<char>> {
        automaton_phrases(self.automaton)
    }
}

impl PhraseMatcher {
    #[verifier::type_invariant]
    spec fn well_formed(self) -> bool {
        automaton_folds_case(self.automaton)
    }

    /// Build a matcher for some phrases.
    pub fn build(phrases: &Vec<String>) -> (r: Result<Self, String>)
        ensures
            (match r {
                Ok(matcher) => automaton_error(phrases.deep_view()) is None && matcher@
                    == phrases.deep_view(),
                Err(e) => automaton_error(phrases.deep_view()) == Some(e@),
            }),
    {
        match build_automaton(phrases) {
            Ok(automaton) => Ok(PhraseMatcher { automaton }),
            Err(e) => Err(e),
        }
    }

    /// Whether any of the phrases occurs in a subject, up to ASCII case.
    pub fn finds(&self, subject: &[u8]) -> (r: bool)
        ensures
            r == any_phrase_in(self@, subject@),
    {
        proof {
            use_type_invariant(self);
        }
        automaton_is_match(&self.automaton, subject)
    }
}

} // verus!

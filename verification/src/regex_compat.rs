//! Compiling SecLang `@rx` patterns with the `regex` crate.
//!
//! SecLang rule sets are authored against PCRE, and the OWASP Core Rule Set
//! constrains itself to RE2-expressible patterns because ModSecurity's Go
//! successor evaluates them with Go's `regexp`. The `regex` crate accepts the
//! same language, with one difference: its parser rejects two constructs that
//! PCRE and RE2 accept.
//!
//! * A `{` or `}` that does not form a counted repetition. PCRE and RE2 read it
//!   as a literal; `regex-syntax` requires it escaped.
//! * A redundant escape of ASCII punctuation inside a character class.
//!
//! Repairs are attempted only after a direct compile fails, so a pattern the
//! `regex` crate already accepts is never rewritten. Rewriting an accepted
//! pattern would be an unreviewed semantic change to a security control.

use crate::pattern::new_regex;
use crate::pattern::regex_error;
use crate::pattern::regex_text;
use crate::text::chars_of;
use crate::text::count_leading_digits;
use crate::text::from;
use crate::text::joined;
use crate::text::leading_digits;
use crate::text::same_str;
use crate::text::string_of;
use vstd::prelude::*;

verus! {

/// A compiled `@rx` operand, and the rewrite applied to make it compile.
#[derive(Debug)]
pub struct CompiledRx {
    /// The compiled pattern.
    pub regex: regex::Regex,
    /// The rewritten pattern, when the pattern as authored did not compile.
    /// `None` means the pattern was used exactly as written.
    pub repaired_from: Option<String>,
}

/// Why a pattern could not be compiled at all.
#[derive(Debug)]
pub struct RxError {
    /// The pattern as authored in the rule set.
    pub pattern: String,
    /// The `regex` crate's parse error, after repairs were attempted.
    pub source_error: String,
}

impl RxError {
    /// The message that reports the error.
    pub fn to_string(&self) -> (r: String)
        ensures
            r@ == "pattern is not expressible with the regex crate: "@ + self.source_error@,
    {
        joined(
            "pattern is not expressible with the regex crate: ",
            self.source_error.as_str(),
        )
    }
}

/// Punctuation that the Core Rule Set escapes inside character classes and that
/// `regex-syntax` rejects. Tried one at a time, narrowest repair first.
pub open spec fn class_escape_candidates() -> Seq<char> {
    seq![
        '&', '|', '!', '<', '>', '~', '(', ')', '=', ',', '/', '"', '\'', '#', '%', ';', ':', '@',
        '`',
    ]
}

fn class_escapes() -> (r: Vec<char>)
    ensures
        r@ == class_escape_candidates(),
{
    let list: [char; 19] = [
        '&', '|', '!', '<', '>', '~', '(', ')', '=', ',', '/', '"', '\'', '#', '%', ';', ':', '@',
        '`',
    ];
    assert(list@ =~= class_escape_candidates());
    vstd::slice::slice_to_vec(&list)
}

/// Whether the text behind a `{` goes on as a counted repetition: `n}`, `n,}`
/// or `n,m}`.
pub open spec fn is_repetition(s: Seq<char>) -> bool {
    let n = leading_digits(s);
    let after = s.skip(n);
    let close = if after.len() > 0 && after[0] == ',' {
        after.skip(1).skip(leading_digits(after.skip(1)))
    } else {
        after
    };
    n > 0 && close.len() > 0 && close[0] == '}'
}

fn is_repetition_at(s: &[char]) -> (r: bool)
    ensures
        r == is_repetition(s@),
{
    let n = count_leading_digits(s);
    if n == 0 {
        return false;
    }
    let mut rest = from(s, n);
    if rest.len() > 0 && rest[0] == ',' {
        let tail = from(rest, 1);
        rest = from(tail, count_leading_digits(tail));
    }
    rest.len() > 0 && rest[0] == '}'
}

/// `s` with `{` and `}` escaped where they do not delimit a counted repetition.
pub open spec fn braces_escaped(s: Seq<char>, in_class: bool, in_repetition: bool) -> Seq<char>
    decreases s.len(),
{
    if s.len() == 0 {
        seq![]
    } else if s[0] == '\\' && s.len() > 1 {
        seq!['\\', s[1]] + braces_escaped(s.skip(2), in_class, in_repetition)
    } else if s[0] == '[' && !in_class {
        seq!['['] + braces_escaped(s.skip(1), true, in_repetition)
    } else if s[0] == ']' && in_class {
        seq![']'] + braces_escaped(s.skip(1), false, in_repetition)
    } else if s[0] == '{' && !in_class {
        if is_repetition(s.skip(1)) {
            seq!['{'] + braces_escaped(s.skip(1), in_class, true)
        } else {
            seq!['\\', '{'] + braces_escaped(s.skip(1), in_class, in_repetition)
        }
    } else if s[0] == '}' && !in_class {
        if in_repetition {
            seq!['}'] + braces_escaped(s.skip(1), in_class, false)
        } else {
            seq!['\\', '}'] + braces_escaped(s.skip(1), in_class, in_repetition)
        }
    } else {
        seq![s[0]] + braces_escaped(s.skip(1), in_class, in_repetition)
    }
}

/// Escape `{` and `}` that do not delimit a counted repetition (`{n}`, `{n,}`,
/// `{n,m}`).
pub fn escape_literal_braces(pattern: &str) -> (r: String)
    ensures
        r@ == braces_escaped(pattern@, false, false),
{
    let chars = chars_of(pattern);
    let s = chars.as_slice();
    let mut out: Vec<char> = Vec::new();
    let mut i: usize = 0;
    let mut in_class = false;
    let mut repetition_open = false;
    let ghost whole = braces_escaped(s@, false, false);
    assert(s@.skip(0) =~= s@);
    assert(out@ + whole =~= whole);
    while i < s.len()
        invariant
            i <= s@.len(),
            out@ + braces_escaped(s@.skip(i as int), in_class, repetition_open) == whole,
        decreases s@.len() - i,
    {
        let ghost rest = s@.skip(i as int);
        let ghost start = out@;
        let c = s[i];
        assert(rest.skip(1) =~= s@.skip(i + 1));
        if c == '\\' && i + 1 < s.len() {
            out.push('\\');
            out.push(s[i + 1]);
            proof {
                assert(rest.skip(2) =~= s@.skip(i + 2));
                let more = braces_escaped(rest.skip(2), in_class, repetition_open);
                assert(start + (seq!['\\', rest[1]] + more) =~= out@ + more);
            }
            i += 2;
            continue;
        }
        if c == '[' && !in_class {
            in_class = true;
            out.push(c);
        } else if c == ']' && in_class {
            in_class = false;
            out.push(c);
        } else if c == '{' && !in_class {
            if is_repetition_at(from(s, i + 1)) {
                out.push('{');
                repetition_open = true;
            } else {
                out.push('\\');
                out.push('{');
            }
        } else if c == '}' && !in_class {
            if repetition_open {
                out.push('}');
                repetition_open = false;
            } else {
                out.push('\\');
                out.push('}');
            }
        } else {
            out.push(c);
        }
        proof {
            let more = braces_escaped(rest.skip(1), in_class, repetition_open);
            assert(start + (seq![c] + more) =~= start.push(c) + more);
            assert(start + (seq!['\\', c] + more) =~= start.push('\\').push(c) + more);
        }
        i += 1;
    }
    assert(out@ + Seq::<char>::empty() =~= out@);
    string_of(out.as_slice())
}

/// `s` with the escape dropped from `\<offender>` inside character classes.
pub open spec fn class_unescaped(s: Seq<char>, offender: char, in_class: bool) -> Seq<char>
    decreases s.len(),
{
    if s.len() == 0 {
        seq![]
    } else if s[0] == '\\' && s.len() > 1 {
        if in_class && s[1] == offender {
            seq![s[1]] + class_unescaped(s.skip(2), offender, in_class)
        } else {
            seq!['\\', s[1]] + class_unescaped(s.skip(2), offender, in_class)
        }
    } else if !in_class && s[0] == '[' {
        seq!['['] + class_unescaped(s.skip(1), offender, true)
    } else if in_class && s[0] == ']' {
        seq![']'] + class_unescaped(s.skip(1), offender, false)
    } else {
        seq![s[0]] + class_unescaped(s.skip(1), offender, in_class)
    }
}

/// Drop the escape from `\<offender>` inside character classes, leaving escapes
/// outside classes and structurally significant class escapes alone.
pub fn strip_class_escape(pattern: &str, offender: char) -> (r: String)
    ensures
        r@ == class_unescaped(pattern@, offender, false),
{
    let chars = chars_of(pattern);
    let s = chars.as_slice();
    let mut out: Vec<char> = Vec::new();
    let mut i: usize = 0;
    let mut in_class = false;
    let ghost whole = class_unescaped(s@, offender, false);
    assert(s@.skip(0) =~= s@);
    assert(out@ + whole =~= whole);
    while i < s.len()
        invariant
            i <= s@.len(),
            out@ + class_unescaped(s@.skip(i as int), offender, in_class) == whole,
        decreases s@.len() - i,
    {
        let ghost rest = s@.skip(i as int);
        let ghost start = out@;
        let c = s[i];
        assert(rest.skip(1) =~= s@.skip(i + 1));
        if c == '\\' && i + 1 < s.len() {
            let next = s[i + 1];
            if in_class && next == offender {
                out.push(next);
            } else {
                out.push('\\');
                out.push(next);
            }
            proof {
                assert(rest.skip(2) =~= s@.skip(i + 2));
                let more = class_unescaped(rest.skip(2), offender, in_class);
                assert(start + (seq![next] + more) =~= start.push(next) + more);
                assert(start + (seq!['\\', next] + more) =~= start.push('\\').push(next) + more);
            }
            i += 2;
            continue;
        }
        if !in_class && c == '[' {
            in_class = true;
        } else if in_class && c == ']' {
            in_class = false;
        }
        out.push(c);
        proof {
            let more = class_unescaped(rest.skip(1), offender, in_class);
            assert(start + (seq![c] + more) =~= out@ + more);
        }
        i += 1;
    }
    assert(out@ + Seq::<char>::empty() =~= out@);
    string_of(out.as_slice())
}

/// The first rewrite of `candidate` that compiles, where the escape of each
/// offender in turn is dropped from character classes; else the last rewrite.
pub open spec fn class_repaired(candidate: Seq<char>, offenders: Seq<char>) -> Result<
    Seq<char>,
    Seq<char>,
>
    decreases offenders.len(),
{
    if offenders.len() == 0 {
        Err(candidate)
    } else {
        let next = class_unescaped(candidate, offenders[0], false);
        if next != candidate && regex_error(next) is None {
            Ok(next)
        } else {
            class_repaired(next, offenders.drop_first())
        }
    }
}

/// The pattern that is compiled for an `@rx` operand, and whether it is a
/// rewrite; else the parse error of the last attempt.
pub open spec fn rx_source(pattern: Seq<char>) -> Result<(Seq<char>, bool), Seq<char>> {
    let braced = braces_escaped(pattern, false, false);
    if regex_error(pattern) is None {
        Ok((pattern, false))
    } else if regex_error(braced) is None {
        Ok((braced, true))
    } else {
        match class_repaired(braced, class_escape_candidates()) {
            Ok(repaired) => Ok((repaired, true)),
            Err(last) => Err(
                match regex_error(last) {
                    Some(e) => e,
                    None => seq![],
                },
            ),
        }
    }
}

/// Whether a compiled operand is the one that [`rx_source`] describes.
pub open spec fn is_compiled_from(c: CompiledRx, source: Seq<char>, rewritten: bool) -> bool {
    &&& regex_text(c.regex) == source
    &&& (match c.repaired_from {
        Some(s) => rewritten && s@ == source,
        None => !rewritten,
    })
}

/// Compile a SecLang `@rx` operand.
///
/// Tries the pattern as authored. Only if that fails does it apply the
/// documented repairs, so accepted patterns pass through untouched.
pub fn compile(pattern: &str) -> (r: Result<CompiledRx, RxError>)
    ensures
        (match r {
            Ok(c) => rx_source(pattern@) matches Ok((source, rewritten)) && is_compiled_from(
                c,
                source,
                rewritten,
            ),
            Err(e) => rx_source(pattern@) == Err::<(Seq<char>, bool), Seq<char>>(e.source_error@)
                && e.pattern@ == pattern@,
        }),
{
    if let Ok(regex) = new_regex(pattern) {
        return Ok(CompiledRx { regex, repaired_from: None });
    }
    let mut candidate = escape_literal_braces(pattern);
    if let Ok(regex) = new_regex(candidate.as_str()) {
        return Ok(CompiledRx { regex, repaired_from: Some(candidate) });
    }
    let offenders = class_escapes();
    let ghost all = offenders@;
    let ghost braced = candidate@;
    let mut i: usize = 0;
    assert(all.skip(0) =~= all);
    while i < offenders.len()
        invariant
            i <= offenders@.len(),
            all == offenders@,
            all == class_escape_candidates(),
            braced == braces_escaped(pattern@, false, false),
            regex_error(pattern@) is Some,
            regex_error(braced) is Some,
            class_repaired(braced, all) == class_repaired(candidate@, all.skip(i as int)),
        decreases offenders@.len() - i,
    {
        let next = strip_class_escape(candidate.as_str(), offenders[i]);
        assert(all.skip(i as int)[0] == offenders@[i as int]);
        assert(all.skip(i as int).drop_first() =~= all.skip(i + 1));
        i += 1;
        if !same_str(next.as_str(), candidate.as_str()) {
            candidate = next;
            if let Ok(regex) = new_regex(candidate.as_str()) {
                return Ok(CompiledRx { regex, repaired_from: Some(candidate) });
            }
        }
    }
    let source_error = match new_regex(candidate.as_str()) {
        Ok(_) => String::new(),
        Err(e) => e,
    };
    assert(regex_error(candidate@) is None ==> source_error@ =~= seq![]);
    Err(RxError { pattern: pattern.to_string(), source_error })
}

// ---------------------------------------------------------------------------
// Laws

/// A pattern that the `regex` crate accepts is compiled as it stands.
pub proof fn accepted_pattern_is_not_rewritten(pattern: Seq<char>)
    requires
        regex_error(pattern) is None,
    ensures
        rx_source(pattern) == Ok::<(Seq<char>, bool), Seq<char>>((pattern, false)),
{
}

/// What is compiled is a pattern that the `regex` crate accepts.
pub proof fn compiled_source_is_accepted(pattern: Seq<char>)
    requires
        rx_source(pattern) is Ok,
    ensures
        regex_error(rx_source(pattern)->Ok_0.0) is None,
{
    let braced = braces_escaped(pattern, false, false);
    lemma_class_repaired(braced, class_escape_candidates());
}

proof fn lemma_class_repaired(candidate: Seq<char>, offenders: Seq<char>)
    ensures
        class_repaired(candidate, offenders) matches Ok(s) ==> regex_error(s) is None,
    decreases offenders.len(),
{
    if offenders.len() > 0 {
        lemma_class_repaired(
            class_unescaped(candidate, offenders[0], false),
            offenders.drop_first(),
        );
    }
}

/// A pattern without braces has none to escape.
pub proof fn pattern_without_braces_is_unchanged(s: Seq<char>, in_class: bool, in_repetition: bool)
    requires
        !s.contains('{'),
        !s.contains('}'),
    ensures
        braces_escaped(s, in_class, in_repetition) == s,
    decreases s.len(),
{
    if s.len() > 0 {
        assert(s.contains(s[0]));
        if s[0] == '\\' && s.len() > 1 {
            let rest = s.skip(2);
            assert forall|c: char| rest.contains(c) implies s.contains(c) by {
                let k = choose|k: int| 0 <= k < rest.len() && rest[k] == c;
                assert(s[k + 2] == c);
            }
            pattern_without_braces_is_unchanged(rest, in_class, in_repetition);
            assert(seq!['\\', s[1]] + rest =~= s);
        } else {
            let rest = s.skip(1);
            assert forall|c: char| rest.contains(c) implies s.contains(c) by {
                let k = choose|k: int| 0 <= k < rest.len() && rest[k] == c;
                assert(s[k + 1] == c);
            }
            pattern_without_braces_is_unchanged(rest, true, in_repetition);
            pattern_without_braces_is_unchanged(rest, false, in_repetition);
            assert(seq![s[0]] + rest =~= s);
        }
    }
}

/// A pattern without its backslashes.
pub open spec fn without_backslashes(s: Seq<char>) -> Seq<char>
    decreases s.len(),
{
    if s.len() == 0 {
        seq![]
    } else if s[0] == '\\' {
        without_backslashes(s.skip(1))
    } else {
        seq![s[0]] + without_backslashes(s.skip(1))
    }
}

proof fn lemma_without_backslashes(a: Seq<char>, b: Seq<char>)
    ensures
        without_backslashes(a + b) == without_backslashes(a) + without_backslashes(b),
    decreases a.len(),
{
    if a.len() == 0 {
        assert(a + b =~= b);
        assert(seq![] + without_backslashes(b) =~= without_backslashes(b));
    } else {
        lemma_without_backslashes(a.skip(1), b);
        assert((a + b).skip(1) =~= a.skip(1) + b);
        if a[0] != '\\' {
            assert(seq![a[0]] + (without_backslashes(a.skip(1)) + without_backslashes(b)) =~= (
            seq![a[0]] + without_backslashes(a.skip(1))) + without_backslashes(b));
        }
    }
}

proof fn lemma_same_front(front: Seq<char>, rest: Seq<char>, s: Seq<char>, n: int)
    requires
        0 <= n <= s.len(),
        without_backslashes(front) == without_backslashes(s.take(n)),
        without_backslashes(rest) == without_backslashes(s.skip(n)),
    ensures
        without_backslashes(front + rest) == without_backslashes(s),
{
    lemma_without_backslashes(front, rest);
    lemma_without_backslashes(s.take(n), s.skip(n));
    assert(s.take(n) + s.skip(n) =~= s);
}

proof fn lemma_braces_step(s: Seq<char>, rest: Seq<char>)
    requires
        s.len() > 0,
        without_backslashes(rest) == without_backslashes(s.skip(1)),
    ensures
        without_backslashes(seq![s[0]] + rest) == without_backslashes(s),
        without_backslashes(seq!['\\', s[0]] + rest) == without_backslashes(s),
{
    reveal_with_fuel(without_backslashes, 3);
    assert(s.take(1) =~= seq![s[0]]);
    assert(seq!['\\', s[0]].skip(1) =~= seq![s[0]]);
    lemma_same_front(seq![s[0]], rest, s, 1);
    lemma_same_front(seq!['\\', s[0]], rest, s, 1);
}

proof fn lemma_braces_keep(s: Seq<char>, in_class: bool, in_repetition: bool)
    ensures
        without_backslashes(braces_escaped(s, in_class, in_repetition)) == without_backslashes(s),
    decreases s.len(),
{
    if s.len() > 0 {
        if s[0] == '\\' && s.len() > 1 {
            lemma_braces_keep(s.skip(2), in_class, in_repetition);
            assert(s.take(2) =~= seq!['\\', s[1]]);
            lemma_same_front(
                seq!['\\', s[1]],
                braces_escaped(s.skip(2), in_class, in_repetition),
                s,
                2,
            );
        } else {
            let rest = s.skip(1);
            lemma_braces_keep(rest, true, in_repetition);
            lemma_braces_keep(rest, false, in_repetition);
            lemma_braces_keep(rest, in_class, true);
            lemma_braces_keep(rest, in_class, false);
            lemma_braces_step(s, braces_escaped(rest, true, in_repetition));
            lemma_braces_step(s, braces_escaped(rest, false, in_repetition));
            lemma_braces_step(s, braces_escaped(rest, in_class, true));
            lemma_braces_step(s, braces_escaped(rest, in_class, false));
        }
    }
}

proof fn lemma_class_keeps(s: Seq<char>, offender: char, in_class: bool)
    ensures
        without_backslashes(class_unescaped(s, offender, in_class)) == without_backslashes(s),
    decreases s.len(),
{
    reveal_with_fuel(without_backslashes, 3);
    if s.len() > 0 {
        if s[0] == '\\' && s.len() > 1 {
            let rest = class_unescaped(s.skip(2), offender, in_class);
            lemma_class_keeps(s.skip(2), offender, in_class);
            assert(s.take(2) =~= seq!['\\', s[1]]);
            assert(seq!['\\', s[1]].skip(1) =~= seq![s[1]]);
            lemma_same_front(seq!['\\', s[1]], rest, s, 2);
            lemma_same_front(seq![s[1]], rest, s, 2);
        } else {
            assert(s.take(1) =~= seq![s[0]]);
            lemma_class_keeps(s.skip(1), offender, true);
            lemma_class_keeps(s.skip(1), offender, false);
            lemma_same_front(seq![s[0]], class_unescaped(s.skip(1), offender, true), s, 1);
            lemma_same_front(seq![s[0]], class_unescaped(s.skip(1), offender, false), s, 1);
        }
    }
}

proof fn lemma_class_repairs_keep(candidate: Seq<char>, offenders: Seq<char>)
    ensures
        class_repaired(candidate, offenders) matches Ok(s) ==> without_backslashes(s)
            == without_backslashes(candidate),
    decreases offenders.len(),
{
    if offenders.len() > 0 {
        lemma_class_keeps(candidate, offenders[0], false);
        lemma_class_repairs_keep(
            class_unescaped(candidate, offenders[0], false),
            offenders.drop_first(),
        );
    }
}

/// A repair adds and drops backslashes and nothing else: every other character of
/// the pattern stays, in its place.
pub proof fn repairs_touch_only_backslashes(pattern: Seq<char>)
    requires
        rx_source(pattern) is Ok,
    ensures
        without_backslashes(rx_source(pattern)->Ok_0.0) == without_backslashes(pattern),
{
    let braced = braces_escaped(pattern, false, false);
    lemma_braces_keep(pattern, false, false);
    lemma_class_repairs_keep(braced, class_escape_candidates());
}

} // verus!

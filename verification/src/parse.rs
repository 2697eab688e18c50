//! Parsing SecLang source into [`Directive`]s.
//!
//! Every construct Parapet does not implement is a parse error carrying the
//! file and line, never a skipped directive. A rule set that loses a rule it
//! could not understand has converted that rule into a bypass.

use crate::action::action_of;
use crate::action::Action;
use crate::action::ActionError;
use crate::action::ActionErrorView;
use crate::action::ActionView;
use crate::operator::operator_of;
use crate::operator::Operator;
use crate::operator::OperatorError;
use crate::operator::OperatorErrorView;
use crate::rule::collection_named;
use crate::rule::Collection;
use crate::rule::Directive;
use crate::rule::DirectiveView;
use crate::rule::Rule;
use crate::rule::RuleView;
use crate::rule::Selector;
use crate::rule::SelectorView;
use crate::rule::Target;
use crate::rule::TargetView;
use crate::text::before;
use crate::text::chars_of;
use crate::text::debug_text;
use crate::text::decimal;
use crate::text::find_char;
use crate::text::from;
use crate::text::is_white;
use crate::text::is_whitespace;
use crate::text::joined;
use crate::text::joined3;
use crate::text::lemma_position;
use crate::text::lemma_position_is;
use crate::text::lines;
use crate::text::position;
use crate::text::push_chars;
use crate::text::same_str;
use crate::text::split;
use crate::text::split_chars;
use crate::text::split_lines;
use crate::text::string_of;
use crate::text::strip_char;
use crate::text::stripped;
use crate::text::texts;
use crate::text::then_quoted;
use crate::text::trim;
use crate::text::trim_end;
use crate::text::trimmed;
use crate::text::trimmed_end;
use crate::text::views;
use crate::text::without_return;
use crate::text::write_decimal;
use crate::Phase;
use vstd::prelude::*;

verus! {

/// A parse failure, located in the source.
#[derive(Debug, Clone, PartialEq)]
pub struct ParseError {
    /// The file the directive came from.
    pub source_name: String,
    /// 1-based line of the directive's first line.
    pub line: usize,
    /// What went wrong.
    pub kind: ParseErrorKind,
}

/// The view of a [`ParseError`].
#[verifier::ext_equal]
pub struct ParseErrorView {
    pub source_name: Seq<char>,
    pub line: usize,
    pub kind: ParseErrorKindView,
}

impl DeepView for ParseError {
    type V = ParseErrorView;

    open spec fn deep_view(&self) -> ParseErrorView {
        ParseErrorView {
            source_name: self.source_name@,
            line: self.line,
            kind: self.kind.deep_view(),
        }
    }
}

impl ParseErrorView {
    /// The message that reports the error.
    pub open spec fn text(self) -> Seq<char> {
        self.source_name + ":"@ + decimal(self.line as nat) + ": "@ + self.kind.text()
    }
}

impl ParseError {
    /// The message that reports the error.
    pub fn to_string(&self) -> (r: String)
        ensures
            r@ == self.deep_view().text(),
    {
        let mut out = joined3(
            self.source_name.as_str(),
            ":",
            write_decimal(self.line as u64).as_str(),
        );
        out.append(": ");
        out.append(self.kind.to_string().as_str());
        out
    }
}

/// The kinds of parse failure.
#[derive(Debug, Clone, PartialEq)]
pub enum ParseErrorKind {
    /// A directive Parapet does not implement.
    UnsupportedDirective {
        /// The directive name as written.
        name: String,
    },
    /// A directive with the wrong number of arguments.
    Arity {
        /// The directive name.
        directive: String,
        /// How many arguments it takes.
        expected: usize,
        /// How many were given.
        found: usize,
    },
    /// A target list that could not be parsed.
    Target {
        /// The offending target.
        target: String,
        /// What was wrong.
        detail: String,
    },
    /// The operator could not be parsed.
    Operator(OperatorError),
    /// An action could not be parsed.
    Action(ActionError),
    /// A quoted string was never closed.
    UnterminatedQuote,
}

/// The view of a [`ParseErrorKind`].
#[verifier::ext_equal]
pub enum ParseErrorKindView {
    UnsupportedDirective { name: Seq<char> },
    Arity { directive: Seq<char>, expected: usize, found: usize },
    Target { target: Seq<char>, detail: Seq<char> },
    Operator(OperatorErrorView),
    Action(ActionErrorView),
    UnterminatedQuote,
}

impl DeepView for ParseErrorKind {
    type V = ParseErrorKindView;

    open spec fn deep_view(&self) -> ParseErrorKindView {
        match self {
            ParseErrorKind::UnsupportedDirective { name } =>
                ParseErrorKindView::UnsupportedDirective { name: name@ },
            ParseErrorKind::Arity { directive, expected, found } => ParseErrorKindView::Arity {
                directive: directive@,
                expected: *expected,
                found: *found,
            },
            ParseErrorKind::Target { target, detail } => ParseErrorKindView::Target {
                target: target@,
                detail: detail@,
            },
            ParseErrorKind::Operator(e) => ParseErrorKindView::Operator(e.deep_view()),
            ParseErrorKind::Action(e) => ParseErrorKindView::Action(e.deep_view()),
            ParseErrorKind::UnterminatedQuote => ParseErrorKindView::UnterminatedQuote,
        }
    }
}

impl ParseErrorKindView {
    /// The message that reports the failure.
    pub open spec fn text(self) -> Seq<char> {
        match self {
            ParseErrorKindView::UnsupportedDirective { name } => "unsupported directive "@
                + debug_text(name),
            ParseErrorKindView::Arity { directive, expected, found } => directive + " expects "@
                + decimal(expected as nat) + " arguments, found "@ + decimal(found as nat),
            ParseErrorKindView::Target { target, detail } => "target "@ + debug_text(target) + ": "@
                + detail,
            ParseErrorKindView::Operator(e) => e.text(),
            ParseErrorKindView::Action(e) => e.text(),
            ParseErrorKindView::UnterminatedQuote => "unterminated quoted string"@,
        }
    }
}

impl ParseErrorKind {
    /// The message that reports the failure.
    pub fn to_string(&self) -> (r: String)
        ensures
            r@ == self.deep_view().text(),
    {
        match self {
            ParseErrorKind::UnsupportedDirective { name } => then_quoted(
                "unsupported directive ",
                name.as_str(),
            ),
            ParseErrorKind::Arity { directive, expected, found } => {
                let mut out = joined3(
                    directive.as_str(),
                    " expects ",
                    write_decimal(*expected as u64).as_str(),
                );
                out.append(" arguments, found ");
                out.append(write_decimal(*found as u64).as_str());
                out
            },
            ParseErrorKind::Target { target, detail } => {
                let mut out = then_quoted("target ", target.as_str());
                out.append(": ");
                out.append(detail.as_str());
                out
            },
            ParseErrorKind::Operator(e) => e.to_string(),
            ParseErrorKind::Action(e) => e.to_string(),
            ParseErrorKind::UnterminatedQuote => "unterminated quoted string".to_string(),
        }
    }
}

// ---------------------------------------------------------------------------
// Logical lines

/// The logical lines of a list of physical ones. A line that ends in a
/// backslash continues on the next; `n` numbers the first line of `rest`, and
/// `open` is the text gathered so far of a logical line begun at `start`.
pub open spec fn join_lines(
    rest: Seq<Seq<char>>,
    n: nat,
    start: nat,
    open: Seq<char>,
) -> Seq<(nat, Seq<char>)>
    decreases rest.len(),
{
    if rest.len() == 0 {
        if open.len() == 0 {
            seq![]
        } else {
            seq![(start, open)]
        }
    } else {
        let first = if open.len() == 0 {
            n
        } else {
            start
        };
        let line = trimmed_end(rest[0]);
        if line.len() > 0 && line.last() == '\\' {
            join_lines(rest.drop_first(), n + 1, first, open + line.drop_last())
        } else {
            seq![(first, open + line)] + join_lines(rest.drop_first(), n + 1, first, seq![])
        }
    }
}

/// The logical lines of a source, each with the number of its first line.
pub open spec fn logical_lines_of(source: Seq<char>) -> Seq<(nat, Seq<char>)> {
    join_lines(lines(source), 1, 1, seq![])
}

/// The numbered texts that a vector of logical lines holds.
pub open spec fn numbered(v: Seq<(usize, Vec<char>)>) -> Seq<(nat, Seq<char>)> {
    Seq::new(v.len(), |i: int| (v[i].0 as nat, v[i].1@))
}

/// Join SecLang's backslash continuations, yielding `(first_line_number, text)`.
fn logical_lines(source: &[char]) -> (r: Vec<(usize, Vec<char>)>)
    ensures
        numbered(r@) == logical_lines_of(source@),
{
    let raw = split_lines(source);
    let ghost all = views(raw@);
    let total: usize = source.len();
    let mut out: Vec<(usize, Vec<char>)> = Vec::new();
    let mut buf: Vec<char> = Vec::new();
    let mut start: usize = 1;
    let mut i: usize = 0;
    assert(all.skip(0) =~= all);
    assert(numbered(out@) + logical_lines_of(source@) =~= logical_lines_of(source@));
    while i < raw.len()
        invariant
            i <= raw@.len(),
            raw@.len() <= total,
            all == views(raw@),
            numbered(out@) + join_lines(all.skip(i as int), (i + 1) as nat, start as nat, buf@)
                == logical_lines_of(source@),
        decreases raw@.len() - i,
    {
        let line_no: usize = i + 1;
        let ghost rest = all.skip(i as int);
        assert(rest.drop_first() =~= all.skip(i + 1));
        assert(rest[0] == raw@[i as int]@);
        if buf.len() == 0 {
            start = line_no;
        }
        let line = trim_end(raw[i]);
        i += 1;
        if line.len() > 0 && line[line.len() - 1] == '\\' {
            let head = before(line, line.len() - 1);
            assert(head@ =~= line@.drop_last());
            push_chars(&mut buf, head);
            continue;
        }
        push_chars(&mut buf, line);
        let ghost done = numbered(out@);
        let ghost joined = buf@;
        let mut whole: Vec<char> = Vec::new();
        core::mem::swap(&mut whole, &mut buf);
        out.push((start, whole));
        assert(numbered(out@) =~= done + seq![(start as nat, joined)]);
        assert(done + (seq![(start as nat, joined)] + join_lines(
            all.skip(i as int),
            (i + 1) as nat,
            start as nat,
            seq![],
        )) =~= numbered(out@) + join_lines(
            all.skip(i as int),
            (i + 1) as nat,
            start as nat,
            seq![],
        ));
        assert(buf@ =~= seq![]);
    }
    let ghost done = numbered(out@);
    if buf.len() != 0 {
        let ghost joined = buf@;
        out.push((start, buf));
        assert(numbered(out@) =~= done + seq![(start as nat, joined)]);
    } else {
        assert(done + Seq::<(nat, Seq<char>)>::empty() =~= done);
    }
    out
}

// ---------------------------------------------------------------------------
// Tokens

/// `first` in front of the tokens that follow, if they are well formed.
pub open spec fn token_then(
    first: Seq<Seq<char>>,
    rest: Option<Seq<Seq<char>>>,
) -> Option<Seq<Seq<char>>> {
    match rest {
        Some(more) => Some(first + more),
        None => None,
    }
}

/// The tokens of `s`, read from inside or outside a quoted string with `cur`
/// gathered of the current token. `None` where a quoted string stays open.
pub open spec fn tokens_from(s: Seq<char>, in_quotes: bool, cur: Seq<char>) -> Option<
    Seq<Seq<char>>,
>
    decreases s.len(),
{
    if s.len() == 0 {
        if in_quotes {
            None
        } else if cur.len() == 0 {
            Some(seq![])
        } else {
            Some(seq![cur])
        }
    } else if in_quotes {
        if s[0] == '\\' && s.len() > 1 && s[1] == '"' {
            tokens_from(s.skip(2), true, cur.push('"'))
        } else if s[0] == '"' {
            tokens_from(s.skip(1), false, cur)
        } else {
            tokens_from(s.skip(1), true, cur.push(s[0]))
        }
    } else if s[0] == '"' {
        tokens_from(s.skip(1), true, cur)
    } else if is_white(s[0]) {
        if cur.len() == 0 {
            tokens_from(s.skip(1), false, cur)
        } else {
            token_then(seq![cur], tokens_from(s.skip(1), false, seq![]))
        }
    } else {
        tokens_from(s.skip(1), false, cur.push(s[0]))
    }
}

/// The tokens of a directive. `None` where a quoted string stays open.
pub open spec fn tokens_of(line: Seq<char>) -> Option<Seq<Seq<char>>> {
    tokens_from(line, false, seq![])
}

/// Split a directive into whitespace-separated tokens, honouring double quotes
/// and `\"` escapes inside them.
pub fn tokenize(line: &str) -> (r: Result<Vec<String>, ParseErrorKind>)
    ensures
        (match r {
            Ok(tokens) => tokens_of(line@) == Some(tokens.deep_view()),
            Err(e) => tokens_of(line@) is None && e.deep_view()
                == ParseErrorKindView::UnterminatedQuote,
        }),
{
    let chars = chars_of(line);
    let mut tokens: Vec<String> = Vec::new();
    let mut cur: Vec<char> = Vec::new();
    let mut in_quotes = false;
    let mut i: usize = 0;
    assert(chars@.skip(0) =~= chars@);
    assert(cur@ =~= seq![]);
    proof {
        if let Some(all) = tokens_of(chars@) {
            assert(tokens.deep_view() + all =~= all);
        }
    }
    while i < chars.len()
        invariant
            i <= chars@.len(),
            chars@ == line@,
            tokens_of(chars@) == token_then(
                tokens.deep_view(),
                tokens_from(chars@.skip(i as int), in_quotes, cur@),
            ),
        decreases chars@.len() - i,
    {
        let ghost rest = chars@.skip(i as int);
        assert(rest.skip(1) =~= chars@.skip(i + 1));
        let c = chars[i];
        if in_quotes {
            if c == '\\' && i + 1 < chars.len() && chars[i + 1] == '"' {
                assert(rest.skip(2) =~= chars@.skip(i + 2));
                cur.push('"');
                i += 2;
                continue;
            }
            if c == '"' {
                in_quotes = false;
                i += 1;
                continue;
            }
            cur.push(c);
            i += 1;
            continue;
        }
        if c == '"' {
            in_quotes = true;
            i += 1;
            continue;
        }
        if is_whitespace(c) {
            if cur.len() != 0 {
                let ghost done = tokens.deep_view();
                let ghost token = cur@;
                tokens.push(string_of(cur.as_slice()));
                cur.clear();
                proof {
                    assert(tokens.deep_view() =~= done + seq![token]);
                    assert(cur@ =~= seq![]);
                    if let Some(more) = tokens_from(rest.skip(1), false, seq![]) {
                        assert(done + (seq![token] + more) =~= tokens.deep_view() + more);
                    }
                }
            }
            i += 1;
            continue;
        }
        cur.push(c);
        i += 1;
    }
    if in_quotes {
        return Err(ParseErrorKind::UnterminatedQuote);
    }
    let ghost done = tokens.deep_view();
    if cur.len() != 0 {
        tokens.push(string_of(cur.as_slice()));
        assert(tokens.deep_view() =~= done + seq![cur@]);
    } else {
        assert(done + seq![] =~= done);
    }
    Ok(tokens)
}

// ---------------------------------------------------------------------------
// Targets

/// How many `!` and `&` marks stand in front of a target.
pub open spec fn marks(s: Seq<char>) -> int
    decreases s.len(),
{
    if s.len() > 0 && (s[0] == '!' || s[0] == '&') {
        1 + marks(s.drop_first())
    } else {
        0
    }
}

/// How the text behind a target's colon narrows the collection.
pub open spec fn selector_of(collection: Collection, sel: Seq<char>) -> Result<
    SelectorView,
    Seq<char>,
> {
    if collection == Collection::Xml {
        if sel.len() > 0 && sel[0] == '/' {
            Ok(SelectorView::XPath(sel))
        } else {
            Err("XML selectors are XPath expressions and must start with '/'"@)
        }
    } else if sel.len() > 0 && sel[0] == '/' {
        if sel.len() >= 2 && sel.last() == '/' {
            Ok(SelectorView::Regex(sel.subrange(1, sel.len() - 1)))
        } else {
            Err("regex selector is missing its closing '/'"@)
        }
    } else {
        Ok(SelectorView::Name(stripped(sel, '\'')))
    }
}

/// What one entry of a target list means, or what is wrong with it.
pub open spec fn target_of(raw: Seq<char>) -> Result<TargetView, Seq<char>> {
    let m = marks(raw);
    let exclusion = raw.take(m).contains('!');
    let count = raw.take(m).contains('&');
    let rest = raw.skip(m);
    let p = position(rest, ':');
    let name = if p < rest.len() {
        rest.take(p)
    } else {
        rest
    };
    match collection_named(name) {
        None => Err(
            "unknown collection: Parapet implements the collections the Core Rule Set uses, and refuses rather than inspecting nothing"@,
        ),
        Some(collection) => if p >= rest.len() {
            Ok(TargetView { collection, selector: None, exclusion, count })
        } else {
            match selector_of(collection, trimmed(rest.skip(p + 1))) {
                Ok(s) => Ok(TargetView { collection, selector: Some(s), exclusion, count }),
                Err(detail) => Err(detail),
            }
        },
    }
}

/// What a list of entries means: empty ones are skipped, and the first
/// malformed one is the error, with its text.
pub open spec fn target_list(parts: Seq<Seq<char>>) -> Result<
    Seq<TargetView>,
    (Seq<char>, Seq<char>),
>
    decreases parts.len(),
{
    if parts.len() == 0 {
        Ok(seq![])
    } else {
        let raw = trimmed(parts[0]);
        if raw.len() == 0 {
            target_list(parts.drop_first())
        } else {
            match target_of(raw) {
                Err(detail) => Err((raw, detail)),
                Ok(target) => targets_then(seq![target], target_list(parts.drop_first())),
            }
        }
    }
}

/// `first` in front of the targets that follow, if they are well formed.
pub open spec fn targets_then(
    first: Seq<TargetView>,
    rest: Result<Seq<TargetView>, (Seq<char>, Seq<char>)>,
) -> Result<Seq<TargetView>, (Seq<char>, Seq<char>)> {
    match rest {
        Ok(more) => Ok(first + more),
        Err(e) => Err(e),
    }
}

/// What a target list means.
pub open spec fn targets_of(spec_text: Seq<char>) -> Result<
    Seq<TargetView>,
    (Seq<char>, Seq<char>),
> {
    match target_list(split(spec_text, '|')) {
        Ok(targets) => if targets.len() == 0 {
            Err((spec_text, "no targets"@))
        } else {
            Ok(targets)
        },
        Err(e) => Err(e),
    }
}

fn parse_selector(collection: Collection, sel: &[char]) -> (r: Result<Selector, String>)
    ensures
        (match r {
            Ok(s) => selector_of(collection, sel@) == Ok::<SelectorView, Seq<char>>(s.deep_view()),
            Err(e) => selector_of(collection, sel@) == Err::<SelectorView, Seq<char>>(e@),
        }),
{
    if collection == Collection::Xml {
        if sel.len() > 0 && sel[0] == '/' {
            Ok(Selector::XPath(string_of(sel)))
        } else {
            Err("XML selectors are XPath expressions and must start with '/'".to_string())
        }
    } else if sel.len() > 0 && sel[0] == '/' {
        if sel.len() >= 2 && sel[sel.len() - 1] == '/' {
            let inner = before(from(sel, 1), sel.len() - 2);
            assert(inner@ =~= sel@.subrange(1, sel@.len() - 1));
            Ok(Selector::Regex(string_of(inner)))
        } else {
            Err("regex selector is missing its closing '/'".to_string())
        }
    } else {
        Ok(Selector::Name(string_of(strip_char(sel, '\''))))
    }
}

fn parse_target(raw: &[char]) -> (r: Result<Target, String>)
    ensures
        (match r {
            Ok(t) => target_of(raw@) == Ok::<TargetView, Seq<char>>(t.deep_view()),
            Err(e) => target_of(raw@) == Err::<TargetView, Seq<char>>(e@),
        }),
{
    let mut exclusion = false;
    let mut count = false;
    let mut m: usize = 0;
    assert(raw@.skip(0) =~= raw@);
    while m < raw.len() && (raw[m] == '!' || raw[m] == '&')
        invariant
            m <= raw@.len(),
            marks(raw@) == m + marks(raw@.skip(m as int)),
            exclusion == raw@.take(m as int).contains('!'),
            count == raw@.take(m as int).contains('&'),
        decreases raw@.len() - m,
    {
        let ghost prefix = raw@.take(m as int);
        assert(raw@.skip(m as int).drop_first() =~= raw@.skip(m + 1));
        assert(raw@.take(m + 1) =~= prefix.push(raw@[m as int]));
        assert(prefix.push(raw@[m as int])[m as int] == raw@[m as int]);
        assert(forall|c: char| prefix.contains(c) ==> prefix.push(raw@[m as int]).contains(c)) by {
            assert forall|c: char| prefix.contains(c) implies prefix.push(
                raw@[m as int],
            ).contains(c) by {
                let k = choose|k: int| 0 <= k < prefix.len() && prefix[k] == c;
                assert(prefix.push(raw@[m as int])[k] == c);
            }
        }
        if raw[m] == '!' {
            exclusion = true;
        } else {
            count = true;
        }
        m += 1;
    }
    assert(marks(raw@) == m);
    let rest = from(raw, m);
    let p = find_char(rest, ':');
    let name = if p < rest.len() {
        before(rest, p)
    } else {
        rest
    };
    match Collection::parse(string_of(name).as_str()) {
        None => Err(
            "unknown collection: Parapet implements the collections the Core Rule Set uses, and refuses rather than inspecting nothing".to_string(),
        ),
        Some(collection) => {
            if p >= rest.len() {
                return Ok(Target { collection, selector: None, exclusion, count });
            }
            let selector = parse_selector(collection, trim(from(rest, p + 1)))?;
            Ok(Target { collection, selector: Some(selector), exclusion, count })
        },
    }
}

/// Parse a pipe-separated target list such as `ARGS|!ARGS:x|&REQUEST_HEADERS:/^X-/`.
fn parse_targets(spec_text: &str) -> (r: Result<Vec<Target>, (String, String)>)
    ensures
        (match r {
            Ok(ts) => targets_of(spec_text@) == Ok::<Seq<TargetView>, (Seq<char>, Seq<char>)>(
                ts.deep_view(),
            ),
            Err((target, detail)) => targets_of(spec_text@) == Err::<
                Seq<TargetView>,
                (Seq<char>, Seq<char>),
            >((target@, detail@)),
        }),
{
    let chars = chars_of(spec_text);
    let parts = split_chars(chars.as_slice(), '|');
    let ghost all = views(parts@);
    let mut out: Vec<Target> = Vec::new();
    let mut i: usize = 0;
    assert(all.skip(0) =~= all);
    proof {
        if let Ok(ts) = target_list(all) {
            assert(out.deep_view() + ts =~= ts);
        }
    }
    while i < parts.len()
        invariant
            i <= parts@.len(),
            all == views(parts@),
            all == split(spec_text@, '|'),
            target_list(all) == targets_then(out.deep_view(), target_list(all.skip(i as int))),
        decreases parts@.len() - i,
    {
        let raw = trim(parts[i]);
        assert(all.skip(i as int)[0] == parts@[i as int]@);
        assert(all.skip(i as int).drop_first() =~= all.skip(i + 1));
        i += 1;
        if raw.len() == 0 {
            continue;
        }
        match parse_target(raw) {
            Ok(target) => {
                let ghost done = out.deep_view();
                let ghost seen = target.deep_view();
                out.push(target);
                proof {
                    assert(out.deep_view() =~= done + seq![seen]);
                    if let Ok(more) = target_list(all.skip(i as int)) {
                        assert(done + (seq![seen] + more) =~= out.deep_view() + more);
                    }
                }
            },
            Err(detail) => {
                return Err((string_of(raw), detail));
            },
        }
    }
    assert(out.deep_view() + Seq::<TargetView>::empty() =~= out.deep_view());
    assert(out.deep_view().len() == out@.len());
    if out.len() == 0 {
        return Err((spec_text.to_string(), "no targets".to_string()));
    }
    Ok(out)
}

// ---------------------------------------------------------------------------
// Actions

/// The entries of an action list: its pieces between commas that stand outside
/// single quotes and parentheses. Read from a given nesting with `cur` gathered
/// of the current entry; a last entry of white space alone is none.
pub open spec fn entries_from(
    s: Seq<char>,
    in_single: bool,
    depth: nat,
    cur: Seq<char>,
) -> Seq<Seq<char>>
    decreases s.len(),
{
    if s.len() == 0 {
        if trimmed(cur).len() == 0 {
            seq![]
        } else {
            seq![cur]
        }
    } else {
        let c = s[0];
        let rest = s.drop_first();
        if c == '\'' {
            entries_from(rest, !in_single, depth, cur.push(c))
        } else if c == '(' && !in_single {
            entries_from(rest, in_single, depth + 1, cur.push(c))
        } else if c == ')' && !in_single {
            entries_from(
                rest,
                in_single,
                if depth == 0 {
                    0
                } else {
                    (depth - 1) as nat
                },
                cur.push(c),
            )
        } else if c == ',' && !in_single && depth == 0 {
            seq![cur] + entries_from(rest, in_single, depth, seq![])
        } else {
            entries_from(rest, in_single, depth, cur.push(c))
        }
    }
}

/// `first` in front of the actions that follow, if they are well formed.
pub open spec fn actions_then(
    first: Seq<ActionView>,
    rest: Result<Seq<ActionView>, ActionErrorView>,
) -> Result<Seq<ActionView>, ActionErrorView> {
    match rest {
        Ok(more) => Ok(first + more),
        Err(e) => Err(e),
    }
}

/// What a list of entries means: empty ones are skipped, and the first
/// malformed one is the error.
pub open spec fn action_list(parts: Seq<Seq<char>>) -> Result<Seq<ActionView>, ActionErrorView>
    decreases parts.len(),
{
    if parts.len() == 0 {
        Ok(seq![])
    } else {
        let part = trimmed(parts[0]);
        if part.len() == 0 {
            action_list(parts.drop_first())
        } else {
            match action_of(part) {
                Err(e) => Err(e),
                Ok(a) => actions_then(seq![a], action_list(parts.drop_first())),
            }
        }
    }
}

/// What an action list means.
pub open spec fn actions_of(spec_text: Seq<char>) -> Result<Seq<ActionView>, ActionErrorView> {
    action_list(entries_from(spec_text, false, 0, seq![]))
}

fn split_entries(spec_text: &[char]) -> (r: Vec<Vec<char>>)
    ensures
        texts(r@) == entries_from(spec_text@, false, 0, seq![]),
{
    let mut parts: Vec<Vec<char>> = Vec::new();
    let mut cur: Vec<char> = Vec::new();
    let mut in_single = false;
    let mut depth: usize = 0;
    let mut i: usize = 0;
    let ghost whole = entries_from(spec_text@, false, 0, seq![]);
    assert(spec_text@.skip(0) =~= spec_text@);
    assert(texts(parts@) + whole =~= whole);
    assert(cur@ =~= seq![]);
    while i < spec_text.len()
        invariant
            i <= spec_text@.len(),
            depth <= i,
            whole == texts(parts@) + entries_from(
                spec_text@.skip(i as int),
                in_single,
                depth as nat,
                cur@,
            ),
        decreases spec_text@.len() - i,
    {
        let ghost rest = spec_text@.skip(i as int);
        assert(rest.drop_first() =~= spec_text@.skip(i + 1));
        let c = spec_text[i];
        i += 1;
        if c == '\'' {
            in_single = !in_single;
            cur.push(c);
        } else if c == '(' && !in_single {
            depth += 1;
            cur.push(c);
        } else if c == ')' && !in_single {
            depth = if depth == 0 {
                0
            } else {
                depth - 1
            };
            cur.push(c);
        } else if c == ',' && !in_single && depth == 0 {
            let ghost done = texts(parts@);
            let ghost entry = cur@;
            let mut next: Vec<char> = Vec::new();
            core::mem::swap(&mut next, &mut cur);
            parts.push(next);
            assert(cur@ =~= seq![]);
            assert(texts(parts@) =~= done + seq![entry]);
            assert(done + (seq![entry] + entries_from(rest.drop_first(), false, 0, seq![]))
                =~= texts(parts@) + entries_from(rest.drop_first(), false, 0, seq![]));
        } else {
            cur.push(c);
        }
    }
    let ghost done = texts(parts@);
    if trim(cur.as_slice()).len() != 0 {
        let ghost entry = cur@;
        parts.push(cur);
        assert(texts(parts@) =~= done + seq![entry]);
    } else {
        assert(done + seq![] =~= done);
    }
    parts
}

/// Split an action list on commas that are not inside quotes or parentheses,
/// then parse each action.
fn parse_actions(spec_text: &str) -> (r: Result<Vec<Action>, ActionError>)
    ensures
        (match r {
            Ok(a) => actions_of(spec_text@) == Ok::<Seq<ActionView>, ActionErrorView>(
                a.deep_view(),
            ),
            Err(e) => actions_of(spec_text@) == Err::<Seq<ActionView>, ActionErrorView>(
                e.deep_view(),
            ),
        }),
{
    let parts = split_entries(chars_of(spec_text).as_slice());
    let ghost all = texts(parts@);
    let mut out: Vec<Action> = Vec::new();
    let mut i: usize = 0;
    assert(all.skip(0) =~= all);
    proof {
        if let Ok(actions) = action_list(all) {
            assert(out.deep_view() + actions =~= actions);
        }
    }
    while i < parts.len()
        invariant
            i <= parts@.len(),
            all == texts(parts@),
            actions_of(spec_text@) == action_list(all),
            action_list(all) == actions_then(out.deep_view(), action_list(all.skip(i as int))),
        decreases parts@.len() - i,
    {
        let part = trim(parts[i].as_slice());
        assert(all.skip(i as int)[0] == parts@[i as int]@);
        assert(all.skip(i as int).drop_first() =~= all.skip(i + 1));
        i += 1;
        if part.len() == 0 {
            continue;
        }
        let action = Action::parse(string_of(part).as_str())?;
        let ghost done = out.deep_view();
        let ghost seen = action.deep_view();
        out.push(action);
        proof {
            assert(out.deep_view() =~= done + seq![seen]);
            if let Ok(more) = action_list(all.skip(i as int)) {
                assert(done + (seq![seen] + more) =~= out.deep_view() + more);
            }
        }
    }
    assert(out.deep_view() + Seq::<ActionView>::empty() =~= out.deep_view());
    Ok(out)
}

// ---------------------------------------------------------------------------
// Directives

/// The phase of the first `phase:` action in a list.
pub open spec fn first_phase(actions: Seq<ActionView>) -> Option<Phase>
    decreases actions.len(),
{
    if actions.len() == 0 {
        None
    } else {
        match actions[0] {
            ActionView::Phase(p) => Some(p),
            _ => first_phase(actions.drop_first()),
        }
    }
}

fn find_phase(actions: &Vec<Action>) -> (r: Option<Phase>)
    ensures
        r == first_phase(actions.deep_view()),
{
    let ghost all = actions.deep_view();
    let mut i: usize = 0;
    assert(all.skip(0) =~= all);
    while i < actions.len()
        invariant
            i <= actions@.len(),
            all == actions.deep_view(),
            first_phase(all) == first_phase(all.skip(i as int)),
        decreases actions@.len() - i,
    {
        assert(all.skip(i as int).drop_first() =~= all.skip(i + 1));
        assert(all.skip(i as int)[0] == actions@[i as int].deep_view());
        if let Action::Phase(p) = &actions[i] {
            return Some(*p);
        }
        i += 1;
    }
    None
}

/// What a logical line comes to.
#[verifier::ext_equal]
pub enum LineView {
    /// Blank, a comment, or nothing but empty quotes.
    Nothing,
    Directive(DirectiveView),
    Error(ParseErrorKindView),
}

pub open spec fn arity_error(tokens: Seq<Seq<char>>, expected: usize) -> LineView {
    LineView::Error(
        ParseErrorKindView::Arity {
            directive: tokens[0],
            expected,
            found: (tokens.len() - 1) as usize,
        },
    )
}

/// What the tokens of a `SecRule` come to.
pub open spec fn rule_line(tokens: Seq<Seq<char>>, line: usize) -> LineView {
    let negated = tokens[2].len() > 0 && tokens[2][0] == '!';
    let body = if negated {
        tokens[2].skip(1)
    } else {
        tokens[2]
    };
    if tokens.len() != 4 && tokens.len() != 3 {
        arity_error(tokens, 3)
    } else {
        match targets_of(tokens[1]) {
            Err((target, detail)) => LineView::Error(
                ParseErrorKindView::Target { target, detail },
            ),
            Ok(targets) => match operator_of(body) {
                Err(e) => LineView::Error(ParseErrorKindView::Operator(e)),
                Ok(operator) => match (if tokens.len() == 4 {
                    actions_of(tokens[3])
                } else {
                    Ok(seq![])
                }) {
                    Err(e) => LineView::Error(ParseErrorKindView::Action(e)),
                    Ok(actions) => LineView::Directive(
                        DirectiveView::Rule(
                            RuleView { targets, operator: Some(operator), negated, actions, line },
                        ),
                    ),
                },
            },
        }
    }
}

/// What the tokens of a directive come to.
pub open spec fn directive_line(tokens: Seq<Seq<char>>, line: usize) -> LineView {
    if tokens[0] == "SecRule"@ {
        rule_line(tokens, line)
    } else if tokens[0] == "SecAction"@ {
        if tokens.len() != 2 {
            arity_error(tokens, 1)
        } else {
            match actions_of(tokens[1]) {
                Err(e) => LineView::Error(ParseErrorKindView::Action(e)),
                Ok(actions) => LineView::Directive(
                    DirectiveView::Action(
                        RuleView { targets: seq![], operator: None, negated: false, actions, line },
                    ),
                ),
            }
        }
    } else if tokens[0] == "SecDefaultAction"@ {
        if tokens.len() != 2 {
            arity_error(tokens, 1)
        } else {
            match actions_of(tokens[1]) {
                Err(e) => LineView::Error(ParseErrorKindView::Action(e)),
                Ok(actions) => LineView::Directive(
                    DirectiveView::DefaultAction {
                        phase: match first_phase(actions) {
                            Some(p) => p,
                            None => Phase::RequestBody,
                        },
                        actions,
                    },
                ),
            }
        }
    } else if tokens[0] == "SecMarker"@ {
        if tokens.len() != 2 {
            arity_error(tokens, 1)
        } else {
            LineView::Directive(DirectiveView::Marker(tokens[1]))
        }
    } else if tokens[0] == "SecComponentSignature"@ {
        if tokens.len() != 2 {
            arity_error(tokens, 1)
        } else {
            LineView::Directive(DirectiveView::ComponentSignature(tokens[1]))
        }
    } else {
        LineView::Error(ParseErrorKindView::UnsupportedDirective { name: tokens[0] })
    }
}

/// What a logical line comes to.
pub open spec fn line_of(text: Seq<char>, line: usize) -> LineView {
    let t = trimmed(text);
    if t.len() == 0 || t[0] == '#' {
        LineView::Nothing
    } else {
        match tokens_of(t) {
            None => LineView::Error(ParseErrorKindView::UnterminatedQuote),
            Some(tokens) => if tokens.len() == 0 {
                LineView::Nothing
            } else {
                directive_line(tokens, line)
            },
        }
    }
}

/// The directives of a list of logical lines.
pub open spec fn directives_of(rest: Seq<(nat, Seq<char>)>) -> Seq<DirectiveView>
    decreases rest.len(),
{
    if rest.len() == 0 {
        seq![]
    } else {
        let more = directives_of(rest.drop_first());
        match line_of(rest[0].1, rest[0].0 as usize) {
            LineView::Directive(d) => seq![d] + more,
            _ => more,
        }
    }
}

/// The errors of a list of logical lines.
pub open spec fn errors_of(rest: Seq<(nat, Seq<char>)>, source_name: Seq<char>) -> Seq<
    ParseErrorView,
>
    decreases rest.len(),
{
    if rest.len() == 0 {
        seq![]
    } else {
        let more = errors_of(rest.drop_first(), source_name);
        match line_of(rest[0].1, rest[0].0 as usize) {
            LineView::Error(kind) => seq![
                ParseErrorView { source_name, line: rest[0].0 as usize, kind },
            ] + more,
            _ => more,
        }
    }
}

/// The directives that a source holds.
pub open spec fn source_directives(source: Seq<char>) -> Seq<DirectiveView> {
    directives_of(logical_lines_of(source))
}

/// The errors that a source holds.
pub open spec fn source_errors(source: Seq<char>, source_name: Seq<char>) -> Seq<ParseErrorView> {
    errors_of(logical_lines_of(source), source_name)
}

/// What an executable line outcome shows.
pub open spec fn outcome_view(r: Result<Option<Directive>, ParseErrorKind>) -> LineView {
    match r {
        Ok(None) => LineView::Nothing,
        Ok(Some(d)) => LineView::Directive(d.deep_view()),
        Err(e) => LineView::Error(e.deep_view()),
    }
}

fn arity(tokens: &Vec<String>, expected: usize) -> (r: ParseErrorKind)
    requires
        tokens@.len() > 0,
    ensures
        LineView::Error(r.deep_view()) == arity_error(tokens.deep_view(), expected),
{
    ParseErrorKind::Arity {
        directive: tokens[0].clone(),
        expected,
        found: tokens.len() - 1,
    }
}

fn parse_rule(tokens: &Vec<String>, line: usize) -> (r: Result<
    Option<Directive>,
    ParseErrorKind,
>)
    requires
        tokens@.len() > 0,
    ensures
        outcome_view(r) == rule_line(tokens.deep_view(), line),
{
    if tokens.len() != 4 && tokens.len() != 3 {
        return Err(arity(tokens, 3));
    }
    let targets = match parse_targets(tokens[1].as_str()) {
        Ok(t) => t,
        Err((target, detail)) => {
            return Err(ParseErrorKind::Target { target, detail });
        },
    };
    let chars = chars_of(tokens[2].as_str());
    let second = chars.as_slice();
    let negated = second.len() > 0 && second[0] == '!';
    let body = if negated {
        from(second, 1)
    } else {
        second
    };
    let operator = match Operator::parse(string_of(body).as_str()) {
        Ok(o) => o,
        Err(e) => {
            return Err(ParseErrorKind::Operator(e));
        },
    };
    let actions = if tokens.len() == 4 {
        match parse_actions(tokens[3].as_str()) {
            Ok(a) => a,
            Err(e) => {
                return Err(ParseErrorKind::Action(e));
            },
        }
    } else {
        let none: Vec<Action> = Vec::new();
        assert(none.deep_view() =~= seq![]);
        none
    };
    Ok(Some(Directive::Rule(Rule { targets, operator: Some(operator), negated, actions, line })))
}

fn parse_directive(tokens: &Vec<String>, line: usize) -> (r: Result<
    Option<Directive>,
    ParseErrorKind,
>)
    requires
        tokens@.len() > 0,
    ensures
        outcome_view(r) == directive_line(tokens.deep_view(), line),
{
    let name = tokens[0].as_str();
    if same_str(name, "SecRule") {
        parse_rule(tokens, line)
    } else if same_str(name, "SecAction") {
        if tokens.len() != 2 {
            return Err(arity(tokens, 1));
        }
        match parse_actions(tokens[1].as_str()) {
            Ok(actions) => {
                let targets: Vec<Target> = Vec::new();
                assert(targets.deep_view() =~= seq![]);
                Ok(
                    Some(
                        Directive::Action(
                            Rule { targets, operator: None, negated: false, actions, line },
                        ),
                    ),
                )
            },
            Err(e) => Err(ParseErrorKind::Action(e)),
        }
    } else if same_str(name, "SecDefaultAction") {
        if tokens.len() != 2 {
            return Err(arity(tokens, 1));
        }
        match parse_actions(tokens[1].as_str()) {
            Ok(actions) => {
                let phase = match find_phase(&actions) {
                    Some(p) => p,
                    None => Phase::RequestBody,
                };
                Ok(Some(Directive::DefaultAction { phase, actions }))
            },
            Err(e) => Err(ParseErrorKind::Action(e)),
        }
    } else if same_str(name, "SecMarker") {
        if tokens.len() != 2 {
            return Err(arity(tokens, 1));
        }
        Ok(Some(Directive::Marker(tokens[1].clone())))
    } else if same_str(name, "SecComponentSignature") {
        if tokens.len() != 2 {
            return Err(arity(tokens, 1));
        }
        Ok(Some(Directive::ComponentSignature(tokens[1].clone())))
    } else {
        Err(ParseErrorKind::UnsupportedDirective { name: tokens[0].clone() })
    }
}

fn parse_line(text: &[char], line: usize) -> (r: Result<Option<Directive>, ParseErrorKind>)
    ensures
        outcome_view(r) == line_of(text@, line),
{
    let t = trim(text);
    if t.len() == 0 || t[0] == '#' {
        return Ok(None);
    }
    let tokens = tokenize(string_of(t).as_str())?;
    assert(tokens.deep_view().len() == tokens@.len());
    if tokens.len() == 0 {
        return Ok(None);
    }
    parse_directive(&tokens, line)
}

/// Parse a SecLang source file, stopping at the first error.
///
/// This is the shape an embedder wants: a rule set that cannot be fully
/// understood is refused, and the error says where. Use [`parse_all`] for
/// tooling that needs to see every problem in one pass.
///
/// `source_name` appears in error messages and is usually the file name.
pub fn parse(source: &str, source_name: &str) -> (r: Result<Vec<Directive>, ParseError>)
    ensures
        (match r {
            Ok(directives) => source_errors(source@, source_name@).len() == 0
                && directives.deep_view() == source_directives(source@),
            Err(e) => source_errors(source@, source_name@).len() > 0 && e.deep_view()
                == source_errors(source@, source_name@)[0],
        }),
{
    let (directives, mut errors) = parse_all(source, source_name);
    assert(errors.deep_view().len() == errors@.len());
    if errors.len() == 0 {
        Ok(directives)
    } else {
        assert(errors@[0].deep_view() == errors.deep_view()[0]);
        Err(errors.remove(0))
    }
}

/// Parse a SecLang source file, collecting every error.
///
/// Returns the directives that did parse alongside all failures. A caller that
/// enforces rules must treat a non-empty error list as a refusal: the
/// directives returned are an incomplete rule set, and enforcing a subset of a
/// rule set silently weakens it.
pub fn parse_all(source: &str, source_name: &str) -> (r: (Vec<Directive>, Vec<ParseError>))
    ensures
        r.0.deep_view() == source_directives(source@),
        r.1.deep_view() == source_errors(source@, source_name@),
{
    let chars = chars_of(source);
    let found = logical_lines(chars.as_slice());
    let ghost all = numbered(found@);
    let mut out: Vec<Directive> = Vec::new();
    let mut errors: Vec<ParseError> = Vec::new();
    let mut i: usize = 0;
    assert(all.skip(0) =~= all);
    assert(out.deep_view() + directives_of(all) =~= directives_of(all));
    assert(errors.deep_view() + errors_of(all, source_name@) =~= errors_of(all, source_name@));
    while i < found.len()
        invariant
            i <= found@.len(),
            all == numbered(found@),
            all == logical_lines_of(source@),
            out.deep_view() + directives_of(all.skip(i as int)) == directives_of(all),
            errors.deep_view() + errors_of(all.skip(i as int), source_name@) == errors_of(
                all,
                source_name@,
            ),
        decreases found@.len() - i,
    {
        let ghost rest = all.skip(i as int);
        assert(rest.drop_first() =~= all.skip(i + 1));
        let line_no: usize = found[i].0;
        assert(rest[0] == (line_no as nat, found@[i as int].1@));
        let ghost done = out.deep_view();
        let ghost failed = errors.deep_view();
        match parse_line(found[i].1.as_slice(), line_no) {
            Ok(None) => {},
            Ok(Some(directive)) => {
                let ghost seen = directive.deep_view();
                out.push(directive);
                assert(out.deep_view() =~= done + seq![seen]);
                assert(done + (seq![seen] + directives_of(rest.drop_first())) =~= out.deep_view()
                    + directives_of(rest.drop_first()));
            },
            Err(kind) => {
                let error = ParseError {
                    source_name: source_name.to_string(),
                    line: line_no,
                    kind,
                };
                let ghost seen = error.deep_view();
                errors.push(error);
                assert(errors.deep_view() =~= failed + seq![seen]);
                assert(failed + (seq![seen] + errors_of(rest.drop_first(), source_name@))
                    =~= errors.deep_view() + errors_of(rest.drop_first(), source_name@));
            },
        }
        i += 1;
    }
    assert(out.deep_view() + Seq::<DirectiveView>::empty() =~= out.deep_view());
    assert(errors.deep_view() + Seq::<ParseErrorView>::empty() =~= errors.deep_view());
    (out, errors)
}

// ---------------------------------------------------------------------------
// Laws

/// How many logical lines hold something other than white space or a comment.
pub open spec fn meaningful_lines(rest: Seq<(nat, Seq<char>)>) -> nat
    decreases rest.len(),
{
    if rest.len() == 0 {
        0
    } else {
        let more = meaningful_lines(rest.drop_first());
        if line_of(rest[0].1, rest[0].0 as usize) is Nothing {
            more
        } else {
            more + 1
        }
    }
}

/// No directive is skipped: each line that says something is either a
/// directive or an error.
pub proof fn every_line_is_a_directive_or_an_error(source: Seq<char>, source_name: Seq<char>)
    ensures
        source_directives(source).len() + source_errors(source, source_name).len()
            == meaningful_lines(logical_lines_of(source)),
{
    lemma_line_counts(logical_lines_of(source), source_name);
}

proof fn lemma_line_counts(rest: Seq<(nat, Seq<char>)>, source_name: Seq<char>)
    ensures
        directives_of(rest).len() + errors_of(rest, source_name).len() == meaningful_lines(rest),
    decreases rest.len(),
{
    if rest.len() > 0 {
        lemma_line_counts(rest.drop_first(), source_name);
    }
}

/// An error names the source it was given, and nothing else about an error
/// depends on that name.
pub proof fn errors_name_their_source(source: Seq<char>, a: Seq<char>, b: Seq<char>)
    ensures
        source_errors(source, a).len() == source_errors(source, b).len(),
        forall|i: int|
            0 <= i < source_errors(source, a).len() ==> {
                &&& (#[trigger] source_errors(source, a)[i]).source_name == a
                &&& source_errors(source, a)[i].line == source_errors(source, b)[i].line
                &&& source_errors(source, a)[i].kind == source_errors(source, b)[i].kind
            },
{
    lemma_error_names(logical_lines_of(source), a, b);
}

proof fn lemma_error_names(rest: Seq<(nat, Seq<char>)>, a: Seq<char>, b: Seq<char>)
    ensures
        errors_of(rest, a).len() == errors_of(rest, b).len(),
        forall|i: int|
            0 <= i < errors_of(rest, a).len() ==> {
                &&& (#[trigger] errors_of(rest, a)[i]).source_name == a
                &&& errors_of(rest, a)[i].line == errors_of(rest, b)[i].line
                &&& errors_of(rest, a)[i].kind == errors_of(rest, b)[i].kind
            },
    decreases rest.len(),
{
    if rest.len() > 0 {
        lemma_error_names(rest.drop_first(), a, b);
    }
}

proof fn lemma_numbers_ascend(rest: Seq<Seq<char>>, n: nat, start: nat, open: Seq<char>)
    requires
        open.len() > 0 ==> start < n,
    ensures
        ({
            let r = join_lines(rest, n, start, open);
            let least = if open.len() == 0 {
                n
            } else {
                start
            };
            &&& forall|i: int| 0 <= i < r.len() ==> least <= (#[trigger] r[i]).0 < n + rest.len()
            &&& forall|i: int, j: int| 0 <= i < j < r.len() ==> (#[trigger] r[i]).0 < (#[trigger] r[j]).0
        }),
    decreases rest.len(),
{
    if rest.len() > 0 {
        let first = if open.len() == 0 {
            n
        } else {
            start
        };
        let line = trimmed_end(rest[0]);
        if line.len() > 0 && line.last() == '\\' {
            let more = join_lines(rest.drop_first(), n + 1, first, open + line.drop_last());
            lemma_numbers_ascend(rest.drop_first(), n + 1, first, open + line.drop_last());
            assert(join_lines(rest, n, start, open) == more);
            assert forall|i: int| 0 <= i < more.len() implies first <= (#[trigger] more[i]).0 < n
                + rest.len() by {}
        } else {
            let more = join_lines(rest.drop_first(), n + 1, first, seq![]);
            lemma_numbers_ascend(rest.drop_first(), n + 1, first, seq![]);
            let r = seq![(first, open + line)] + more;
            assert(join_lines(rest, n, start, open) == r);
            assert forall|i: int| 0 <= i < r.len() implies first <= (#[trigger] r[i]).0 < n
                + rest.len() by {
                if i > 0 {
                    assert(r[i] == more[i - 1]);
                }
            }
            assert forall|i: int, j: int| 0 <= i < j < r.len() implies (#[trigger] r[i]).0 < (
            #[trigger] r[j]).0 by {
                assert(r[j] == more[j - 1]);
                if i > 0 {
                    assert(r[i] == more[i - 1]);
                }
            }
        }
    }
}

/// Logical lines are numbered from one, in order, by lines that the source has:
/// the line that an error reports is where to look.
pub proof fn lines_are_numbered_in_order(source: Seq<char>)
    ensures
        forall|i: int|
            0 <= i < logical_lines_of(source).len() ==> 1 <= (#[trigger] logical_lines_of(source)[i]).0
                <= lines(source).len(),
        forall|i: int, j: int|
            0 <= i < j < logical_lines_of(source).len() ==> (#[trigger] logical_lines_of(source)[i]).0
                < (#[trigger] logical_lines_of(source)[j]).0,
{
    lemma_numbers_ascend(lines(source), 1, 1, seq![]);
}

proof fn lemma_inside_quotes(text: Seq<char>, cur: Seq<char>)
    requires
        !text.contains('"'),
        text.len() > 0 ==> text.last() != '\\',
    ensures
        tokens_from(text.push('"'), true, cur) == tokens_from(seq![], false, cur + text),
    decreases text.len(),
{
    let s = text.push('"');
    if text.len() == 0 {
        assert(s.skip(1) =~= seq![]);
        assert(cur + text =~= cur);
    } else {
        let rest = text.drop_first();
        assert(text[0] != '"');
        assert(s.skip(1) =~= rest.push('"'));
        assert(cur.push(text[0]) + rest =~= cur + text);
        if text.len() > 1 {
            assert(s[1] == text[1]);
        }
        assert forall|c: char| rest.contains(c) implies text.contains(c) by {
            let i = choose|i: int| 0 <= i < rest.len() && rest[i] == c;
            assert(text[i + 1] == c);
        }
        lemma_inside_quotes(rest, cur.push(text[0]));
    }
}

/// What stands between double quotes is one token, white space included, where
/// it holds no quote and does not end in a backslash.
pub proof fn quoted_text_is_one_token(text: Seq<char>)
    requires
        text.len() > 0,
        !text.contains('"'),
        text.last() != '\\',
    ensures
        tokens_of(seq!['"'] + text + seq!['"']) == Some(seq![text]),
{
    let s = seq!['"'] + text + seq!['"'];
    assert(s.skip(1) =~= text.push('"'));
    lemma_inside_quotes(text, seq![]);
    assert(seq![] + text =~= text);
}

proof fn lemma_lines_len(s: Seq<char>)
    ensures
        lines(s).len() <= s.len(),
        s.len() > 0 ==> lines(s).len() > 0,
    decreases s.len(),
{
    lemma_position(s, '\n');
    let p = position(s, '\n');
    if s.len() > 0 && p < s.len() {
        lemma_lines_len(s.skip(p + 1));
    }
}

/// Lines with the return at the end of the last one gone.
spec fn closed_lines(all: Seq<Seq<char>>) -> Seq<Seq<char>> {
    all.drop_last().push(without_return(all.last()))
}

proof fn lemma_joined_lines(a: Seq<char>, b: Seq<char>)
    requires
        a.len() > 0,
        a.last() != '\n',
    ensures
        lines(a + seq!['\n'] + b) == closed_lines(lines(a)) + lines(b),
    decreases a.len(),
{
    let whole = a + seq!['\n'] + b;
    let p = position(a, '\n');
    lemma_position(a, '\n');
    if p >= a.len() {
        lemma_position_is(whole, '\n', a.len() as int);
        assert(whole.take(a.len() as int) =~= a);
        assert(whole.skip(a.len() as int + 1) =~= b);
        assert(closed_lines(lines(a)) =~= seq![without_return(a)]);
    } else {
        let rest = a.skip(p + 1);
        lemma_position_is(whole, '\n', p);
        assert(whole.take(p) =~= a.take(p));
        assert(whole.skip(p + 1) =~= rest + seq!['\n'] + b);
        assert(rest.last() == a.last());
        lemma_joined_lines(rest, b);
        lemma_lines_len(rest);
        assert(closed_lines(lines(a)) =~= seq![without_return(a.take(p))] + closed_lines(
            lines(rest),
        ));
        assert(lines(whole) =~= closed_lines(lines(a)) + lines(b));
    }
}

/// Whether a physical line goes on with the next one.
pub open spec fn continues(line: Seq<char>) -> bool {
    trimmed_end(line).len() > 0 && trimmed_end(line).last() == '\\'
}

/// A return at the end of a line makes no difference to what it joins to.
proof fn lemma_closed_lines_join(all: Seq<Seq<char>>, n: nat, start: nat, open: Seq<char>)
    requires
        all.len() > 0,
    ensures
        join_lines(closed_lines(all), n, start, open) == join_lines(all, n, start, open),
    decreases all.len(),
{
    let closed = closed_lines(all);
    assert(trimmed_end(closed.last()) == trimmed_end(all.last())) by {
        if all.last().len() > 0 && all.last().last() == '\r' {
            assert(is_white('\r'));
        }
    }
    if all.len() == 1 {
        assert(closed.drop_first() =~= all.drop_first());
    } else {
        assert(closed.drop_first() =~= closed_lines(all.drop_first()));
        let line = trimmed_end(all[0]);
        let first = if open.len() == 0 {
            n
        } else {
            start
        };
        lemma_closed_lines_join(all.drop_first(), n + 1, first, open + line.drop_last());
        lemma_closed_lines_join(all.drop_first(), n + 1, first, seq![]);
    }
}

/// Where nothing is open, it does not matter where it would have started.
proof fn lemma_start_is_free(all: Seq<Seq<char>>, n: nat, start: nat, other: nat)
    ensures
        join_lines(all, n, start, seq![]) == join_lines(all, n, other, seq![]),
{
}

proof fn lemma_join_concat(
    x: Seq<Seq<char>>,
    y: Seq<Seq<char>>,
    n: nat,
    start: nat,
    open: Seq<char>,
)
    requires
        x.len() > 0,
        !continues(x.last()),
    ensures
        join_lines(x + y, n, start, open) == join_lines(x, n, start, open) + join_lines(
            y,
            n + x.len(),
            1,
            seq![],
        ),
    decreases x.len(),
{
    let line = trimmed_end(x[0]);
    let first = if open.len() == 0 {
        n
    } else {
        start
    };
    let rest = x.drop_first();
    assert((x + y).drop_first() =~= rest + y);
    let later = join_lines(y, n + x.len(), 1, seq![]);
    if x.len() == 1 {
        assert(rest + y =~= y);
        lemma_start_is_free(y, n + 1, first, 1);
        let empty = join_lines(rest, n + 1, first, seq![]);
        assert(empty =~= seq![]);
        assert(seq![(first, open + line)] + empty + later =~= seq![(first, open + line)] + later);
    } else {
        assert(rest.last() == x.last());
        lemma_join_concat(rest, y, n + 1, first, open + line.drop_last());
        lemma_join_concat(rest, y, n + 1, first, seq![]);
        if !continues(x[0]) {
            let more = join_lines(rest, n + 1, first, seq![]);
            assert(seq![(first, open + line)] + (more + later) =~= seq![(first, open + line)] + more
                + later);
        }
    }
}

/// Numbered lines, some lines further down.
spec fn lowered(all: Seq<(nat, Seq<char>)>, k: nat) -> Seq<(nat, Seq<char>)> {
    Seq::new(all.len(), |i: int| (all[i].0 + k, all[i].1))
}

proof fn lemma_join_lowered(
    all: Seq<Seq<char>>,
    n: nat,
    start: nat,
    open: Seq<char>,
    k: nat,
)
    ensures
        join_lines(all, n + k, start + k, open) == lowered(join_lines(all, n, start, open), k),
    decreases all.len(),
{
    if all.len() == 0 {
        assert(join_lines(all, n + k, start + k, open) =~= lowered(
            join_lines(all, n, start, open),
            k,
        ));
    } else {
        let line = trimmed_end(all[0]);
        let first = if open.len() == 0 {
            n
        } else {
            start
        };
        let rest = all.drop_first();
        lemma_join_lowered(rest, n + 1, first, open + line.drop_last(), k);
        lemma_join_lowered(rest, n + 1, first, seq![], k);
        let more = join_lines(rest, n + 1, first, seq![]);
        assert(lowered(seq![(first, open + line)] + more, k) =~= seq![(first + k, open + line)]
            + lowered(more, k));
    }
}

/// A directive, some lines further down.
pub open spec fn directive_below(d: DirectiveView, k: nat) -> DirectiveView {
    match d {
        DirectiveView::Rule(r) => DirectiveView::Rule(
            RuleView { line: (r.line + k) as usize, ..r },
        ),
        DirectiveView::Action(r) => DirectiveView::Action(
            RuleView { line: (r.line + k) as usize, ..r },
        ),
        _ => d,
    }
}

/// Directives, some lines further down.
pub open spec fn directives_below(all: Seq<DirectiveView>, k: nat) -> Seq<DirectiveView> {
    Seq::new(all.len(), |i: int| directive_below(all[i], k))
}

/// Errors, some lines further down.
pub open spec fn errors_below(all: Seq<ParseErrorView>, k: nat) -> Seq<ParseErrorView> {
    Seq::new(
        all.len(),
        |i: int| ParseErrorView { line: (all[i].line + k) as usize, ..all[i] },
    )
}

proof fn lemma_line_below(text: Seq<char>, n: nat, k: nat)
    requires
        n + k <= usize::MAX,
    ensures
        line_of(text, (n + k) as usize) == match line_of(text, n as usize) {
            LineView::Directive(d) => LineView::Directive(directive_below(d, k)),
            other => other,
        },
{
}

proof fn lemma_lines_below(all: Seq<(nat, Seq<char>)>, name: Seq<char>, k: nat)
    requires
        forall|i: int| 0 <= i < all.len() ==> (#[trigger] all[i]).0 + k <= usize::MAX,
    ensures
        directives_of(lowered(all, k)) == directives_below(directives_of(all), k),
        errors_of(lowered(all, k), name) == errors_below(errors_of(all, name), k),
    decreases all.len(),
{
    if all.len() == 0 {
        assert(directives_of(lowered(all, k)) =~= directives_below(directives_of(all), k));
        assert(errors_of(lowered(all, k), name) =~= errors_below(errors_of(all, name), k));
    } else {
        let rest = all.drop_first();
        let low = lowered(all, k);
        assert forall|i: int| 0 <= i < rest.len() implies (#[trigger] rest[i]).0 + k
            <= usize::MAX by {
            assert(rest[i] == all[i + 1]);
        }
        assert(low.drop_first() =~= lowered(rest, k));
        lemma_lines_below(rest, name, k);
        assert(all[0].0 + k <= usize::MAX);
        lemma_line_below(all[0].1, all[0].0, k);
        assert(directives_of(low) =~= directives_below(directives_of(all), k));
        assert(errors_of(low, name) =~= errors_below(errors_of(all, name), k));
    }
}

proof fn lemma_lines_concat(
    x: Seq<(nat, Seq<char>)>,
    y: Seq<(nat, Seq<char>)>,
    name: Seq<char>,
)
    ensures
        directives_of(x + y) == directives_of(x) + directives_of(y),
        errors_of(x + y, name) == errors_of(x, name) + errors_of(y, name),
    decreases x.len(),
{
    if x.len() == 0 {
        assert(x + y =~= y);
        assert(directives_of(x) + directives_of(y) =~= directives_of(y));
        assert(errors_of(x, name) + errors_of(y, name) =~= errors_of(y, name));
    } else {
        let rest = x.drop_first();
        assert((x + y).drop_first() =~= rest + y);
        lemma_lines_concat(rest, y, name);
        assert(directives_of(x + y) =~= directives_of(x) + directives_of(y));
        assert(errors_of(x + y, name) =~= errors_of(x, name) + errors_of(y, name));
    }
}

/// Two sources joined by a line break parse to what each of them parses to, the
/// second further down by the lines of the first. The first has to end in the
/// middle of a line that does not continue.
pub proof fn joined_sources_parse_as_both(a: Seq<char>, b: Seq<char>, source_name: Seq<char>)
    requires
        a.len() > 0,
        a.last() != '\n',
        !continues(lines(a).last()),
        a.len() + 1 + b.len() <= usize::MAX,
    ensures
        ({
            let whole = a + seq!['\n'] + b;
            let k = lines(a).len();
            &&& source_directives(whole) == source_directives(a) + directives_below(
                source_directives(b),
                k,
            )
            &&& source_errors(whole, source_name) == source_errors(a, source_name) + errors_below(
                source_errors(b, source_name),
                k,
            )
        }),
{
    let whole = a + seq!['\n'] + b;
    let first = lines(a);
    let second = lines(b);
    let k = first.len();
    lemma_lines_len(a);
    lemma_lines_len(b);
    lemma_joined_lines(a, b);
    let closed = closed_lines(first);
    assert(trimmed_end(closed.last()) == trimmed_end(first.last())) by {
        if first.last().len() > 0 && first.last().last() == '\r' {
            assert(is_white('\r'));
        }
    }
    lemma_join_concat(closed, second, 1, 1, seq![]);
    lemma_closed_lines_join(first, 1, 1, seq![]);
    lemma_join_lowered(second, 1, 1, seq![], k);
    lemma_start_is_free(second, 1 + k, 1, 1 + k);
    let x = logical_lines_of(a);
    let y = logical_lines_of(b);
    assert(logical_lines_of(whole) == x + lowered(y, k));
    lines_are_numbered_in_order(b);
    assert forall|i: int| 0 <= i < y.len() implies (#[trigger] y[i]).0 + k <= usize::MAX by {}
    lemma_lines_below(y, source_name, k);
    lemma_lines_concat(x, lowered(y, k), source_name);
}

} // verus!

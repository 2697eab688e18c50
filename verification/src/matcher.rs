//! Compiled operators: turning a parsed [`Operator`] into something evaluable.
//!
//! Compilation is where the expensive work happens (building regex programs
//! and Aho-Corasick automata), and it happens once. Evaluation borrows the
//! result. An embedder that compiles ahead of time pays nothing per request.

use crate::bytes::bytes_at;
use crate::bytes::bytes_of;
use crate::bytes::contains_bytes;
use crate::bytes::lossy_text;
use crate::bytes::lower_bytes;
use crate::bytes::occurs_at;
use crate::bytes::occurs_in;
use crate::bytes::same_bytes;
use crate::bytes::utf8_lossy;
use crate::bytes::utf8_text;
use crate::decode::has_hex_pair;
use crate::digits::hex_nibble;
use crate::injection::detect_sqli;
use crate::injection::detect_xss;
use crate::injection::sqli_verdict;
use crate::injection::xss_verdict;
use crate::ip::client_ip;
use crate::ip::in_range;
use crate::ip::parse_ip;
use crate::ip::range_of;
use crate::ip::IpAddr;
use crate::ip::IpRange;
use crate::macros::expanded;
use crate::macros::template_of;
use crate::macros::MacroContext;
use crate::macros::PartView;
use crate::macros::Template;
use crate::macros::Values;
use crate::operator::Numeric;
use crate::operator::NumericView;
use crate::operator::Operator;
use crate::operator::OperatorView;
use crate::pattern::any_phrase_in;
use crate::pattern::automaton_error;
use crate::pattern::bytes_regex_error;
use crate::pattern::bytes_regex_text;
use crate::pattern::groups_view;
use crate::pattern::new_bytes_regex;
use crate::pattern::regex_capture;
use crate::pattern::regex_groups;
use crate::pattern::regex_is_match;
use crate::pattern::regex_matches;
use crate::pattern::PhraseMatcher;
use crate::regex_compat::compile as compile_rx;
use crate::regex_compat::rx_source;
use crate::text::chars_of;
use crate::text::count_leading_digits;
use crate::text::debug_text;
use crate::text::from;
use crate::text::before;
use crate::text::joined;
use crate::text::joined3;
use crate::text::leading_digits;
use crate::text::lines;
use crate::text::lower;
use crate::text::parse_signed;
use crate::text::signed_number;
use crate::text::split;
use crate::text::split_chars;
use crate::text::split_lines;
use crate::text::string_of;
use crate::text::texts;
use crate::text::then_quoted;
use crate::text::to_lower;
use crate::text::trim;
use crate::text::trimmed;
use crate::text::views;
use std::borrow::Cow;
use vstd::prelude::*;
use vstd::slice::slice_to_vec;
use vstd::utf8::decode_utf8;
use vstd::utf8::encode_utf8;
use vstd::utf8::valid_utf8;

verus! {

// ---------------------------------------------------------------------------
// Data files

/// What loading a data file shows.
pub open spec fn loaded_view(r: Result<Vec<u8>, String>) -> Result<Seq<u8>, Seq<char>> {
    match r {
        Ok(data) => Ok(data@),
        Err(e) => Err(e@),
    }
}

/// Which results each name may be loaded with.
pub type Loads = spec_fn(Seq<char>, Result<Seq<u8>, Seq<char>>) -> bool;

/// Supplies the contents of `@pmFromFile` data files during compilation.
///
/// A trait rather than direct filesystem access so an embedder without a
/// filesystem, or one that vendors its rule data, stays in control of what the
/// compiler can read.
pub trait DataLoader {
    /// Which results a name may be loaded with. A loader that says nothing of
    /// its own may come to any, and to different ones at different times.
    open spec fn loads(&self) -> Loads {
        |name: Seq<char>, result: Result<Seq<u8>, Seq<char>>| true
    }

    /// Load a data file by the name written in the rule.
    fn load(&self, name: &str) -> (r: Result<Vec<u8>, String>)
        ensures
            self.loads()(name@, loaded_view(r)),
    ;
}

/// A data directory. Rules name files in it, and nothing outside it.
pub struct DirDataLoader {
    root: String,
}

/// Whether two dots stand next to each other in `s`.
pub open spec fn has_dot_dot(s: Seq<char>) -> bool {
    exists|i: int| 0 <= i < s.len() - 1 && #[trigger] s[i] == '.' && s[i + 1] == '.'
}

/// Whether a file name leads out of the directory it is looked up in.
pub open spec fn escapes(name: Seq<char>) -> bool {
    has_dot_dot(name) || (name.len() > 0 && name[0] == '/')
}

/// The path of a name in a directory.
pub open spec fn path_in(root: Seq<char>, name: Seq<char>) -> Seq<char> {
    if root.len() == 0 || root.last() == '/' {
        root + name
    } else {
        root + "/"@ + name
    }
}

fn find_dot_dot(s: &[char]) -> (r: bool)
    ensures
        r == has_dot_dot(s@),
{
    let mut i: usize = 0;
    while i < s.len() && s.len() - i >= 2
        invariant
            i <= s@.len(),
            forall|k: int| 0 <= k < i ==> !(#[trigger] s@[k] == '.' && s@[k + 1] == '.'),
        decreases s@.len() - i,
    {
        if s[i] == '.' && s[i + 1] == '.' {
            return true;
        }
        i += 1;
    }
    false
}

impl DirDataLoader {
    /// The directory that data files are read from.
    pub closed spec fn root(&self) -> Seq<char> {
        self.root@
    }

    /// Look for data files in `root`.
    pub fn new(root: &str) -> (r: Self)
        ensures
            r.root() == root@,
    {
        DirDataLoader { root: root.to_string() }
    }

    /// The path of a data file, by the name written in the rule. A rule must
    /// not reach outside the data directory.
    pub fn locate(&self, name: &str) -> (r: Result<String, String>)
        ensures
            (match r {
                Ok(path) => !escapes(name@) && path@ == path_in(self.root(), name@),
                Err(e) => escapes(name@) && e@ == "refusing to load "@ + debug_text(name@)
                    + ": path escapes the data directory"@,
            }),
    {
        let chars = chars_of(name);
        let s = chars.as_slice();
        if find_dot_dot(s) || (s.len() > 0 && s[0] == '/') {
            let mut message = then_quoted("refusing to load ", name);
            message.append(": path escapes the data directory");
            return Err(message);
        }
        let root = chars_of(self.root.as_str());
        if root.len() == 0 || root[root.len() - 1] == '/' {
            Ok(joined(self.root.as_str(), name))
        } else {
            Ok(joined3(self.root.as_str(), "/", name))
        }
    }
}

/// A loader with no data available. Every load fails.
pub struct NoDataLoader;

/// What a loader without data answers.
pub open spec fn no_data(name: Seq<char>) -> Seq<char> {
    "no data loader configured, so @pmFromFile "@ + debug_text(name) + " cannot be resolved"@
}

impl DataLoader for NoDataLoader {
    open spec fn loads(&self) -> Loads {
        |name: Seq<char>, result: Result<Seq<u8>, Seq<char>>|
            result == Err::<Seq<u8>, Seq<char>>(no_data(name))
    }

    fn load(&self, name: &str) -> (r: Result<Vec<u8>, String>) {
        let mut message = then_quoted("no data loader configured, so @pmFromFile ", name);
        message.append(" cannot be resolved");
        Err(message)
    }
}

// ---------------------------------------------------------------------------
// Errors

/// Why an operator could not be compiled.
#[derive(Debug)]
pub enum OperatorCompileError {
    /// The operator is parsed but has no implementation yet.
    ///
    /// Deliberately an error. Compiling it to something that never matches
    /// would turn the rule into a bypass with no signal.
    NotImplemented {
        /// The operator name.
        name: &'static str,
        /// What is missing.
        detail: &'static str,
    },
    /// The `@rx` pattern could not be compiled.
    Regex(String),
    /// A `@pmFromFile` data file could not be loaded.
    DataFile(String),
    /// An `@ipMatch` operand could not be parsed.
    IpAddress(String),
    /// The operand was otherwise unusable.
    BadOperand {
        /// The operator name.
        name: &'static str,
        /// What was wrong.
        detail: String,
    },
}

/// The view of an [`OperatorCompileError`].
#[verifier::ext_equal]
pub enum OperatorCompileErrorView {
    NotImplemented { name: Seq<char>, detail: Seq<char> },
    Regex(Seq<char>),
    DataFile(Seq<char>),
    IpAddress(Seq<char>),
    BadOperand { name: Seq<char>, detail: Seq<char> },
}

impl DeepView for OperatorCompileError {
    type V = OperatorCompileErrorView;

    open spec fn deep_view(&self) -> OperatorCompileErrorView {
        match self {
            OperatorCompileError::NotImplemented { name, detail } =>
                OperatorCompileErrorView::NotImplemented { name: name@, detail: detail@ },
            OperatorCompileError::Regex(e) => OperatorCompileErrorView::Regex(e@),
            OperatorCompileError::DataFile(e) => OperatorCompileErrorView::DataFile(e@),
            OperatorCompileError::IpAddress(e) => OperatorCompileErrorView::IpAddress(e@),
            OperatorCompileError::BadOperand { name, detail } =>
                OperatorCompileErrorView::BadOperand { name: name@, detail: detail@ },
        }
    }
}

impl OperatorCompileErrorView {
    /// The message that reports the error.
    pub open spec fn text(self) -> Seq<char> {
        match self {
            OperatorCompileErrorView::NotImplemented { name, detail } => "operator @"@ + name
                + " is not implemented yet: "@ + detail,
            OperatorCompileErrorView::Regex(e) => "operator @rx: "@ + e,
            OperatorCompileErrorView::DataFile(e) => "operator @pmFromFile: "@ + e,
            OperatorCompileErrorView::IpAddress(e) => "operator @ipMatch: "@ + e,
            OperatorCompileErrorView::BadOperand { name, detail } => "operator @"@ + name + ": "@
                + detail,
        }
    }
}

impl OperatorCompileError {
    /// The message that reports the error.
    pub fn to_string(&self) -> (r: String)
        ensures
            r@ == self.deep_view().text(),
    {
        match self {
            OperatorCompileError::NotImplemented { name, detail } => {
                let mut out = joined3("operator @", name, " is not implemented yet: ");
                out.append(detail);
                out
            },
            OperatorCompileError::Regex(e) => joined("operator @rx: ", e.as_str()),
            OperatorCompileError::DataFile(e) => joined("operator @pmFromFile: ", e.as_str()),
            OperatorCompileError::IpAddress(e) => joined("operator @ipMatch: ", e.as_str()),
            OperatorCompileError::BadOperand { name, detail } => {
                let mut out = joined3("operator @", name, ": ");
                out.append(detail.as_str());
                out
            },
        }
    }
}

// ---------------------------------------------------------------------------
// Compiled operators

/// A numeric comparison.
#[derive(Debug, Clone, Copy, PartialEq, Eq, Structural)]
pub enum NumericCmp {
    Lt,
    Gt,
    Eq,
    Ge,
}

/// The result of evaluating an operator.
#[derive(Debug, Clone, PartialEq, Eq, Default)]
pub struct OperatorMatch {
    /// Whether the operator matched, before any `!` negation is applied.
    pub matched: bool,
    /// Regex capture groups, populated only when the rule asked to `capture`.
    /// Index 0 is the whole match, as SecLang exposes it in `TX:0`.
    pub captures: Vec<Vec<u8>>,
}

/// The view of an [`OperatorMatch`].
#[verifier::ext_equal]
pub struct OperatorMatchView {
    pub matched: bool,
    pub captures: Seq<Seq<u8>>,
}

impl DeepView for OperatorMatch {
    type V = OperatorMatchView;

    open spec fn deep_view(&self) -> OperatorMatchView {
        OperatorMatchView { matched: self.matched, captures: texts(self.captures@) }
    }
}

/// A result without captures.
pub open spec fn plain_match(matched: bool) -> OperatorMatchView {
    OperatorMatchView { matched, captures: seq![] }
}

impl OperatorMatch {
    fn plain(matched: bool) -> (r: Self)
        ensures
            r.deep_view() == plain_match(matched),
    {
        let r = OperatorMatch { matched, captures: Vec::new() };
        assert(texts(r.captures@) =~= seq![]);
        r
    }
}

/// An operator ready to evaluate.
#[derive(Debug)]
pub enum CompiledOperator {
    /// `@rx`, compiled over bytes so a non-UTF-8 subject can still be matched.
    Rx(regex::bytes::Regex),
    /// `@pm` and `@pmFromFile`, which share an implementation.
    ///
    /// `min_len` is the shortest pattern: a subject shorter than that cannot
    /// match, so the automaton is skipped.
    Pm {
        /// The multi-pattern automaton.
        matcher: Box<PhraseMatcher>,
        /// Length of the shortest pattern.
        min_len: usize,
    },
    /// `@streq`
    Streq(Template),
    /// `@contains`
    Contains(Template),
    /// `@endsWith`
    EndsWith(Template),
    /// `@within`: the subject must appear inside the operand.
    Within(Template),
    /// `@ipMatch`
    IpMatch(Vec<IpRange>),
    /// `@lt`, `@gt`, `@eq`, `@ge`
    Numeric {
        /// Which comparison.
        cmp: NumericCmp,
        /// The right-hand operand.
        operand: Numeric,
    },
    /// `@validateByteRange`: matches when any byte falls outside the allowed set.
    ValidateByteRange(Box<[bool; 256]>),
    /// `@validateUtf8Encoding`: matches when the subject is not valid UTF-8.
    ValidateUtf8Encoding,
    /// `@validateUrlEncoding`: matches when percent-encoding is malformed.
    ValidateUrlEncoding,
    /// `@unconditionalMatch`
    UnconditionalMatch,
    /// `@detectSQLi`: libinjection SQL injection classifier.
    DetectSqli,
    /// `@detectXSS`: libinjection cross-site scripting classifier.
    DetectXss,
}

/// The view of a [`CompiledOperator`]: a pattern is its text, an automaton its
/// phrases.
#[verifier::ext_equal]
pub enum CompiledOperatorView {
    Rx(Seq<char>),
    Pm { phrases: Seq<Seq<char>>, min_len: usize },
    Streq(Seq<PartView>),
    Contains(Seq<PartView>),
    EndsWith(Seq<PartView>),
    Within(Seq<PartView>),
    IpMatch(Seq<(IpAddr, u8)>),
    Numeric { cmp: NumericCmp, operand: NumericView },
    ValidateByteRange(Seq<bool>),
    ValidateUtf8Encoding,
    ValidateUrlEncoding,
    UnconditionalMatch,
    DetectSqli,
    DetectXss,
}

impl DeepView for CompiledOperator {
    type V = CompiledOperatorView;

    open spec fn deep_view(&self) -> CompiledOperatorView {
        match self {
            CompiledOperator::Rx(re) => CompiledOperatorView::Rx(bytes_regex_text(*re)),
            CompiledOperator::Pm { matcher, min_len } => CompiledOperatorView::Pm {
                phrases: matcher@,
                min_len: *min_len,
            },
            CompiledOperator::Streq(t) => CompiledOperatorView::Streq(t@),
            CompiledOperator::Contains(t) => CompiledOperatorView::Contains(t@),
            CompiledOperator::EndsWith(t) => CompiledOperatorView::EndsWith(t@),
            CompiledOperator::Within(t) => CompiledOperatorView::Within(t@),
            CompiledOperator::IpMatch(ranges) => CompiledOperatorView::IpMatch(ranges.deep_view()),
            CompiledOperator::Numeric { cmp, operand } => CompiledOperatorView::Numeric {
                cmp: *cmp,
                operand: operand.deep_view(),
            },
            CompiledOperator::ValidateByteRange(allowed) =>
                CompiledOperatorView::ValidateByteRange((**allowed)@),
            CompiledOperator::ValidateUtf8Encoding => CompiledOperatorView::ValidateUtf8Encoding,
            CompiledOperator::ValidateUrlEncoding => CompiledOperatorView::ValidateUrlEncoding,
            CompiledOperator::UnconditionalMatch => CompiledOperatorView::UnconditionalMatch,
            CompiledOperator::DetectSqli => CompiledOperatorView::DetectSqli,
            CompiledOperator::DetectXss => CompiledOperatorView::DetectXss,
        }
    }
}

// ---------------------------------------------------------------------------
// Compilation

/// The phrases that an automaton is built for: lowercased, without empty ones.
pub open spec fn pm_phrases(phrases: Seq<Seq<char>>) -> Seq<Seq<char>>
    decreases phrases.len(),
{
    if phrases.len() == 0 {
        seq![]
    } else if phrases[0].len() == 0 {
        pm_phrases(phrases.drop_first())
    } else {
        seq![lower(phrases[0])] + pm_phrases(phrases.drop_first())
    }
}

/// The length of the shortest phrase in bytes.
pub open spec fn shortest(phrases: Seq<Seq<char>>) -> nat
    decreases phrases.len(),
{
    if phrases.len() == 0 {
        0
    } else if phrases.len() == 1 {
        encode_utf8(phrases[0]).len()
    } else {
        let rest = shortest(phrases.drop_last());
        let last = encode_utf8(phrases.last()).len();
        if last < rest {
            last
        } else {
            rest
        }
    }
}

/// What `@pm` compiles to for a list of phrases.
pub open spec fn pm_compiled(phrases: Seq<Seq<char>>) -> Result<
    CompiledOperatorView,
    OperatorCompileErrorView,
> {
    let kept = pm_phrases(phrases);
    if kept.len() == 0 {
        Err(OperatorCompileErrorView::BadOperand { name: "pm"@, detail: "no phrases"@ })
    } else {
        match automaton_error(kept) {
            Some(detail) => Err(OperatorCompileErrorView::BadOperand { name: "pm"@, detail }),
            None => Ok(
                CompiledOperatorView::Pm { phrases: kept, min_len: shortest(kept) as usize },
            ),
        }
    }
}

/// The phrases of a data file's lines: trimmed, without blank lines and
/// comments.
pub open spec fn line_phrases(rest: Seq<Seq<char>>) -> Seq<Seq<char>>
    decreases rest.len(),
{
    if rest.len() == 0 {
        seq![]
    } else {
        let line = trimmed(rest[0]);
        let more = line_phrases(rest.drop_first());
        if line.len() == 0 || line[0] == '#' {
            more
        } else {
            seq![line] + more
        }
    }
}

/// The phrases of a data file.
pub open spec fn data_phrases(text: Seq<char>) -> Seq<Seq<char>> {
    line_phrases(lines(text))
}

/// `first` in front of the ranges that follow, if they are well formed.
pub open spec fn ranges_then(
    first: Seq<(IpAddr, u8)>,
    rest: Result<Seq<(IpAddr, u8)>, Seq<char>>,
) -> Result<Seq<(IpAddr, u8)>, Seq<char>> {
    match rest {
        Ok(more) => Ok(first + more),
        Err(e) => Err(e),
    }
}

/// The ranges of a list of entries: empty ones are skipped, and the first
/// malformed one is the error.
pub open spec fn ip_ranges(parts: Seq<Seq<char>>) -> Result<Seq<(IpAddr, u8)>, Seq<char>>
    decreases parts.len(),
{
    if parts.len() == 0 {
        Ok(seq![])
    } else {
        let entry = trimmed(parts[0]);
        if entry.len() == 0 {
            ip_ranges(parts.drop_first())
        } else {
            match range_of(entry) {
                Err(e) => Err(e),
                Ok(range) => ranges_then(seq![range], ip_ranges(parts.drop_first())),
            }
        }
    }
}

/// What `@ipMatch` compiles to.
pub open spec fn ip_compiled(list: Seq<char>) -> Result<
    CompiledOperatorView,
    OperatorCompileErrorView,
> {
    match ip_ranges(split(list, ',')) {
        Err(e) => Err(OperatorCompileErrorView::IpAddress(e)),
        Ok(ranges) => if ranges.len() == 0 {
            Err(OperatorCompileErrorView::BadOperand { name: "ipMatch"@, detail: "no addresses"@ })
        } else {
            Ok(CompiledOperatorView::IpMatch(ranges))
        },
    }
}

/// What `@rx` compiles to.
pub open spec fn rx_compiled(pattern: Seq<char>) -> Result<
    CompiledOperatorView,
    OperatorCompileErrorView,
> {
    match rx_source(pattern) {
        Err(e) => Err(OperatorCompileErrorView::Regex(e)),
        Ok((source, _)) => match bytes_regex_error(source) {
            Some(e) => Err(OperatorCompileErrorView::Regex(e)),
            None => Ok(CompiledOperatorView::Rx(source)),
        },
    }
}

/// Whether a byte falls in one of some ranges.
pub open spec fn in_byte_ranges(ranges: Seq<(u8, u8)>, b: int) -> bool {
    exists|i: int| 0 <= i < ranges.len() && (#[trigger] ranges[i]).0 <= b <= ranges[i].1
}

/// For each byte, whether some ranges allow it.
pub open spec fn byte_table(ranges: Seq<(u8, u8)>) -> Seq<bool> {
    Seq::new(256, |b: int| in_byte_ranges(ranges, b))
}

/// What an operator compiles to, where `loaded` is what its data file was
/// loaded as. Only `@pmFromFile` has one.
pub open spec fn compiled_of(operator: OperatorView, loaded: Result<Seq<u8>, Seq<char>>) -> Result<
    CompiledOperatorView,
    OperatorCompileErrorView,
> {
    match operator {
        OperatorView::Rx(pattern) => rx_compiled(pattern),
        OperatorView::Pm(phrases) => pm_compiled(phrases),
        OperatorView::PmFromFile(_) => match loaded {
            Err(e) => Err(OperatorCompileErrorView::DataFile(e)),
            Ok(raw) => pm_compiled(data_phrases(lossy_text(raw))),
        },
        OperatorView::Streq(s) => Ok(CompiledOperatorView::Streq(template_of(s))),
        OperatorView::Contains(s) => Ok(CompiledOperatorView::Contains(template_of(s))),
        OperatorView::EndsWith(s) => Ok(CompiledOperatorView::EndsWith(template_of(s))),
        OperatorView::Within(s) => Ok(CompiledOperatorView::Within(template_of(s))),
        OperatorView::IpMatch(list) => ip_compiled(list),
        OperatorView::Lt(operand) => Ok(
            CompiledOperatorView::Numeric { cmp: NumericCmp::Lt, operand },
        ),
        OperatorView::Gt(operand) => Ok(
            CompiledOperatorView::Numeric { cmp: NumericCmp::Gt, operand },
        ),
        OperatorView::Eq(operand) => Ok(
            CompiledOperatorView::Numeric { cmp: NumericCmp::Eq, operand },
        ),
        OperatorView::Ge(operand) => Ok(
            CompiledOperatorView::Numeric { cmp: NumericCmp::Ge, operand },
        ),
        OperatorView::ValidateByteRange(ranges) => Ok(
            CompiledOperatorView::ValidateByteRange(byte_table(ranges)),
        ),
        OperatorView::ValidateUtf8Encoding => Ok(CompiledOperatorView::ValidateUtf8Encoding),
        OperatorView::ValidateUrlEncoding => Ok(CompiledOperatorView::ValidateUrlEncoding),
        OperatorView::UnconditionalMatch => Ok(CompiledOperatorView::UnconditionalMatch),
        OperatorView::DetectSqli => Ok(CompiledOperatorView::DetectSqli),
        OperatorView::DetectXss => Ok(CompiledOperatorView::DetectXss),
    }
}

/// What compiling an operator shows.
pub open spec fn compile_view(r: Result<CompiledOperator, OperatorCompileError>) -> Result<
    CompiledOperatorView,
    OperatorCompileErrorView,
> {
    match r {
        Ok(op) => Ok(op.deep_view()),
        Err(e) => Err(e.deep_view()),
    }
}

/// Whether a data file that an operator names may be loaded as `loaded`.
pub open spec fn loads_as(
    operator: OperatorView,
    loads: Loads,
    loaded: Result<Seq<u8>, Seq<char>>,
) -> bool {
    operator matches OperatorView::PmFromFile(name) ==> loads(name, loaded)
}

/// Whether compiling an operator may come to a result: the one for something
/// that its data file may be loaded as.
pub open spec fn compiles_to(
    operator: OperatorView,
    loads: Loads,
    result: Result<CompiledOperatorView, OperatorCompileErrorView>,
) -> bool {
    exists|loaded: Result<Seq<u8>, Seq<char>>| #[trigger]
        loads_as(operator, loads, loaded) && result == compiled_of(operator, loaded)
}

fn pm_bad(detail: String) -> (r: OperatorCompileError)
    ensures
        r.deep_view() == (OperatorCompileErrorView::BadOperand { name: "pm"@, detail: detail@ }),
{
    OperatorCompileError::BadOperand { name: "pm", detail }
}

fn keep_phrases(phrases: &Vec<String>) -> (r: Vec<String>)
    ensures
        r.deep_view() == pm_phrases(phrases.deep_view()),
{
    let ghost all = phrases.deep_view();
    let mut out: Vec<String> = Vec::new();
    let mut i: usize = 0;
    assert(all.skip(0) =~= all);
    assert(out.deep_view() + pm_phrases(all) =~= pm_phrases(all));
    while i < phrases.len()
        invariant
            i <= phrases@.len(),
            all == phrases.deep_view(),
            out.deep_view() + pm_phrases(all.skip(i as int)) == pm_phrases(all),
        decreases phrases@.len() - i,
    {
        let ghost rest = all.skip(i as int);
        let ghost done = out.deep_view();
        assert(rest[0] == phrases@[i as int]@);
        assert(rest.drop_first() =~= all.skip(i + 1));
        let chars = chars_of(phrases[i].as_str());
        if chars.len() > 0 {
            let small = to_lower(chars.as_slice());
            out.push(string_of(small.as_slice()));
            assert(out.deep_view() =~= done + seq![small@]);
            assert(done + (seq![small@] + pm_phrases(rest.drop_first())) =~= out.deep_view()
                + pm_phrases(rest.drop_first()));
        }
        i += 1;
    }
    assert(out.deep_view() + Seq::<Seq<char>>::empty() =~= out.deep_view());
    out
}

fn shortest_len(phrases: &Vec<String>) -> (r: usize)
    requires
        phrases@.len() > 0,
    ensures
        r == shortest(phrases.deep_view()),
{
    let ghost all = phrases.deep_view();
    let mut best: usize = bytes_of(phrases[0].as_str()).len();
    let mut i: usize = 1;
    assert(all.take(1).len() == 1 && all.take(1)[0] == phrases@[0]@);
    while i < phrases.len()
        invariant
            1 <= i <= phrases@.len(),
            all == phrases.deep_view(),
            best == shortest(all.take(i as int)),
        decreases phrases@.len() - i,
    {
        let n: usize = bytes_of(phrases[i].as_str()).len();
        assert(all.take(i + 1).drop_last() =~= all.take(i as int));
        assert(all.take(i + 1).last() == phrases@[i as int]@);
        if n < best {
            best = n;
        }
        i += 1;
    }
    assert(all.take(i as int) =~= all);
    best
}

/// Compile a list of phrases.
fn build_pm(phrases: &Vec<String>) -> (r: Result<CompiledOperator, OperatorCompileError>)
    ensures
        compile_view(r) == pm_compiled(phrases.deep_view()),
{
    let kept = keep_phrases(phrases);
    assert(kept.deep_view().len() == kept@.len());
    if kept.len() == 0 {
        return Err(pm_bad("no phrases".to_string()));
    }
    let min_len = shortest_len(&kept);
    match PhraseMatcher::build(&kept) {
        Ok(matcher) => Ok(CompiledOperator::Pm { matcher: Box::new(matcher), min_len }),
        Err(e) => Err(pm_bad(e)),
    }
}

/// The phrases of a data file: one per line, without blank lines and comments.
pub fn phrases_in(text: &str) -> (r: Vec<String>)
    ensures
        r.deep_view() == data_phrases(text@),
{
    let chars = chars_of(text);
    let found = split_lines(chars.as_slice());
    let ghost all = views(found@);
    let mut out: Vec<String> = Vec::new();
    let mut i: usize = 0;
    assert(all.skip(0) =~= all);
    assert(out.deep_view() + line_phrases(all) =~= line_phrases(all));
    while i < found.len()
        invariant
            i <= found@.len(),
            all == views(found@),
            out.deep_view() + line_phrases(all.skip(i as int)) == line_phrases(all),
        decreases found@.len() - i,
    {
        let ghost rest = all.skip(i as int);
        let ghost done = out.deep_view();
        assert(rest[0] == found@[i as int]@);
        assert(rest.drop_first() =~= all.skip(i + 1));
        let line = trim(found[i]);
        if line.len() > 0 && line[0] != '#' {
            out.push(string_of(line));
            assert(out.deep_view() =~= done + seq![line@]);
            assert(done + (seq![line@] + line_phrases(rest.drop_first())) =~= out.deep_view()
                + line_phrases(rest.drop_first()));
        }
        i += 1;
    }
    assert(out.deep_view() + Seq::<Seq<char>>::empty() =~= out.deep_view());
    out
}

fn compile_ip_match(list: &str) -> (r: Result<CompiledOperator, OperatorCompileError>)
    ensures
        compile_view(r) == ip_compiled(list@),
{
    let chars = chars_of(list);
    let parts = split_chars(chars.as_slice(), ',');
    let ghost all = views(parts@);
    let mut ranges: Vec<IpRange> = Vec::new();
    let mut i: usize = 0;
    assert(all.skip(0) =~= all);
    proof {
        if let Ok(found) = ip_ranges(all) {
            assert(ranges.deep_view() + found =~= found);
        }
    }
    while i < parts.len()
        invariant
            i <= parts@.len(),
            all == views(parts@),
            all == split(list@, ','),
            ip_ranges(all) == ranges_then(ranges.deep_view(), ip_ranges(all.skip(i as int))),
        decreases parts@.len() - i,
    {
        let ghost rest = all.skip(i as int);
        let ghost done = ranges.deep_view();
        assert(rest[0] == parts@[i as int]@);
        assert(rest.drop_first() =~= all.skip(i + 1));
        let entry = trim(parts[i]);
        i += 1;
        if entry.len() == 0 {
            continue;
        }
        match IpRange::parse(entry) {
            Ok(range) => {
                ranges.push(range);
                proof {
                    assert(ranges.deep_view() =~= done + seq![range@]);
                    if let Ok(more) = ip_ranges(rest.drop_first()) {
                        assert(done + (seq![range@] + more) =~= ranges.deep_view() + more);
                    }
                }
            },
            Err(e) => {
                return Err(OperatorCompileError::IpAddress(e));
            },
        }
    }
    assert(ranges.deep_view() + Seq::<(IpAddr, u8)>::empty() =~= ranges.deep_view());
    assert(ranges.deep_view().len() == ranges@.len());
    if ranges.len() == 0 {
        return Err(
            OperatorCompileError::BadOperand {
                name: "ipMatch",
                detail: "no addresses".to_string(),
            },
        );
    }
    Ok(CompiledOperator::IpMatch(ranges))
}

fn compile_regex(pattern: &str) -> (r: Result<CompiledOperator, OperatorCompileError>)
    ensures
        compile_view(r) == rx_compiled(pattern@),
{
    match compile_rx(pattern) {
        Err(e) => Err(OperatorCompileError::Regex(e.source_error)),
        // The pattern is known to be expressible, repaired where it had to be;
        // it is built again over bytes for matching.
        Ok(compiled) => {
            let source = match compiled.repaired_from {
                Some(s) => s,
                None => pattern.to_string(),
            };
            match new_bytes_regex(source.as_str()) {
                Ok(re) => Ok(CompiledOperator::Rx(re)),
                Err(e) => Err(OperatorCompileError::Regex(e)),
            }
        },
    }
}

fn compile_byte_ranges(ranges: &Vec<(u8, u8)>) -> (r: Box<[bool; 256]>)
    ensures
        (*r)@ == byte_table(ranges@),
{
    let mut allowed: [bool; 256] = [false;256];
    let mut b: usize = 0;
    while b < 256
        invariant
            b <= 256,
            forall|k: int| 0 <= k < b ==> allowed@[k] == in_byte_ranges(ranges@, k),
        decreases 256 - b,
    {
        let mut found = false;
        let mut i: usize = 0;
        while i < ranges.len()
            invariant
                i <= ranges@.len(),
                b < 256,
                found == exists|j: int|
                    0 <= j < i && (#[trigger] ranges@[j]).0 <= b <= ranges@[j].1,
            decreases ranges@.len() - i,
        {
            let (lo, hi) = ranges[i];
            if lo as usize <= b && b <= hi as usize {
                assert(ranges@[i as int].0 <= b <= ranges@[i as int].1);
                found = true;
            }
            i += 1;
        }
        allowed[b] = found;
        b += 1;
    }
    assert(allowed@ =~= byte_table(ranges@));
    Box::new(allowed)
}

/// Load the data file that an operator names. An operator without one comes
/// back with nothing loaded.
pub fn load_data<L: DataLoader + ?Sized>(operator: &Operator, loader: &L) -> (r: Result<
    Vec<u8>,
    String,
>)
    ensures
        loads_as(operator.deep_view(), loader.loads(), loaded_view(r)),
        operator.deep_view() !is PmFromFile ==> loaded_view(r) == Err::<Seq<u8>, Seq<char>>(
            seq![],
        ),
{
    match operator {
        Operator::PmFromFile(name) => loader.load(name.as_str()),
        _ => {
            let nothing = String::new();
            assert(nothing@ =~= seq![]);
            Err(nothing)
        },
    }
}

impl CompiledOperator {
    /// Compile a parsed operator.
    ///
    /// Only `@pmFromFile` asks the loader, and the result is the one for
    /// whatever the loader came back with.
    pub fn compile<L: DataLoader + ?Sized>(operator: &Operator, loader: &L) -> (r: Result<
        Self,
        OperatorCompileError,
    >)
        ensures
            compiles_to(operator.deep_view(), loader.loads(), compile_view(r)),
    {
        let loaded = load_data(operator, loader);
        assert(loads_as(operator.deep_view(), loader.loads(), loaded_view(loaded)));
        CompiledOperator::compile_loaded(operator, &loaded)
    }

    /// Compile a parsed operator, given what its data file was loaded as. Only
    /// `@pmFromFile` has a data file.
    pub fn compile_loaded(operator: &Operator, loaded: &Result<Vec<u8>, String>) -> (r: Result<
        Self,
        OperatorCompileError,
    >)
        ensures
            compile_view(r) == compiled_of(operator.deep_view(), loaded_view(*loaded)),
    {
        match operator {
            Operator::Rx(pattern) => compile_regex(pattern.as_str()),
            Operator::Pm(phrases) => build_pm(phrases),
            Operator::PmFromFile(_) => match loaded {
                Err(e) => Err(OperatorCompileError::DataFile(e.clone())),
                Ok(raw) => {
                    let text = utf8_lossy(raw.as_slice());
                    build_pm(&phrases_in(text.as_str()))
                },
            },
            Operator::Streq(s) => Ok(CompiledOperator::Streq(Template::parse(s.as_str()))),
            Operator::Contains(s) => Ok(CompiledOperator::Contains(Template::parse(s.as_str()))),
            Operator::EndsWith(s) => Ok(CompiledOperator::EndsWith(Template::parse(s.as_str()))),
            Operator::Within(s) => Ok(CompiledOperator::Within(Template::parse(s.as_str()))),
            Operator::IpMatch(list) => compile_ip_match(list.as_str()),
            Operator::Lt(n) => Ok(
                CompiledOperator::Numeric { cmp: NumericCmp::Lt, operand: n.clone() },
            ),
            Operator::Gt(n) => Ok(
                CompiledOperator::Numeric { cmp: NumericCmp::Gt, operand: n.clone() },
            ),
            Operator::Eq(n) => Ok(
                CompiledOperator::Numeric { cmp: NumericCmp::Eq, operand: n.clone() },
            ),
            Operator::Ge(n) => Ok(
                CompiledOperator::Numeric { cmp: NumericCmp::Ge, operand: n.clone() },
            ),
            Operator::ValidateByteRange(ranges) => Ok(
                CompiledOperator::ValidateByteRange(compile_byte_ranges(ranges)),
            ),
            Operator::ValidateUtf8Encoding => Ok(CompiledOperator::ValidateUtf8Encoding),
            Operator::ValidateUrlEncoding => Ok(CompiledOperator::ValidateUrlEncoding),
            Operator::UnconditionalMatch => Ok(CompiledOperator::UnconditionalMatch),
            Operator::DetectSqli => Ok(CompiledOperator::DetectSqli),
            Operator::DetectXss => Ok(CompiledOperator::DetectXss),
        }
    }
}

// ---------------------------------------------------------------------------
// Evaluation

/// How many characters at the front of `t` are an optional sign and digits.
pub open spec fn number_prefix(t: Seq<char>) -> int {
    if t.len() > 0 && (t[0] == '-' || t[0] == '+') {
        1 + leading_digits(t.skip(1))
    } else {
        leading_digits(t)
    }
}

/// The leading integer of some bytes, as SecLang's numeric operators read it. A
/// value with trailing text compares on its numeric prefix, and one without a
/// numeric prefix is 0. Bytes that are not text, a lone sign and a number beyond
/// 64 bits have none.
pub open spec fn integer_of(bytes: Seq<u8>) -> Option<i64> {
    let t = trimmed(decode_utf8(bytes));
    let n = number_prefix(t);
    if !valid_utf8(bytes) {
        None
    } else if n == 0 {
        Some(0)
    } else {
        match signed_number(t.take(n)) {
            Some(v) => if i64::MIN <= v <= i64::MAX {
                Some(v as i64)
            } else {
                None
            },
            None => None,
        }
    }
}

/// Parse a leading integer, as SecLang's numeric operators do. A value with
/// trailing text compares on its numeric prefix.
pub fn parse_i64(bytes: &[u8]) -> (r: Option<i64>)
    ensures
        r == integer_of(bytes@),
{
    let text = match utf8_text(bytes) {
        Some(text) => text,
        None => {
            return None;
        },
    };
    let chars = chars_of(text.as_str());
    let t = trim(chars.as_slice());
    let n: usize = if t.len() > 0 && (t[0] == '-' || t[0] == '+') {
        1 + count_leading_digits(from(t, 1))
    } else {
        count_leading_digits(t)
    };
    if n == 0 {
        return Some(0);
    }
    parse_signed(before(t, n))
}

/// Whether every `%` introduces a complete two-hex-digit escape.
pub open spec fn well_escaped(s: Seq<u8>) -> bool {
    forall|i: int|
        0 <= i < s.len() && #[trigger] s[i] == '%' as u8 ==> has_hex_pair(s.skip(i + 1))
}

/// Whether every `%` in the input introduces a complete two-hex-digit escape.
fn url_encoding_is_valid(input: &[u8]) -> (r: bool)
    ensures
        r == well_escaped(input@),
{
    let mut i: usize = 0;
    while i < input.len()
        invariant
            i <= input@.len(),
            forall|k: int|
                0 <= k < i && #[trigger] input@[k] == '%' as u8 ==> has_hex_pair(
                    input@.skip(k + 1),
                ),
        decreases input@.len() - i,
    {
        if input[i] == '%' as u8 {
            let ghost tail = input@.skip(i + 1);
            if input.len() - i < 3 {
                assert(!has_hex_pair(tail));
                return false;
            }
            assert(tail[0] == input@[i + 1] && tail[1] == input@[i + 2]);
            if hex_nibble(input[i + 1]).is_none() || hex_nibble(input[i + 2]).is_none() {
                assert(!has_hex_pair(tail));
                return false;
            }
        }
        i += 1;
    }
    true
}

/// The groups of a match as captures: a group that took no part is empty.
pub open spec fn group_captures(groups: Seq<Option<Seq<u8>>>) -> Seq<Seq<u8>> {
    Seq::new(
        groups.len(),
        |i: int|
            match groups[i] {
                Some(g) => g,
                None => seq![],
            },
    )
}

/// What `@rx` reports for the groups that a capturing match found.
pub open spec fn rx_match(groups: Option<Seq<Option<Seq<u8>>>>) -> OperatorMatchView {
    match groups {
        Some(found) => OperatorMatchView { matched: true, captures: group_captures(found) },
        None => plain_match(false),
    }
}

/// What `@detectSQLi` reports for a verdict. ModSecurity places the fingerprint
/// in the first capture.
pub open spec fn sqli_match(
    verdict: (bool, Option<Seq<char>>),
    capture: bool,
) -> OperatorMatchView {
    if !verdict.0 {
        plain_match(false)
    } else if capture {
        OperatorMatchView {
            matched: true,
            captures: seq![
                match verdict.1 {
                    Some(fingerprint) => encode_utf8(fingerprint),
                    None => seq![],
                },
            ],
        }
    } else {
        plain_match(true)
    }
}

/// The right-hand side of a numeric comparison. An unset variable is 0 in
/// SecLang, not an error.
pub open spec fn operand_value(operand: NumericView, values: Values) -> i64 {
    match operand {
        NumericView::Literal(v) => v,
        NumericView::Macro(name) => match values(name) {
            Some(bytes) => match integer_of(bytes) {
                Some(v) => v,
                None => 0,
            },
            None => 0,
        },
    }
}

/// Whether two numbers stand in a relation.
pub open spec fn compares(how: NumericCmp, l: i64, r: i64) -> bool {
    match how {
        NumericCmp::Lt => l < r,
        NumericCmp::Gt => l > r,
        NumericCmp::Eq => l == r,
        NumericCmp::Ge => l >= r,
    }
}

/// Whether a subject is an address in one of some ranges.
pub open spec fn ip_matches(ranges: Seq<(IpAddr, u8)>, subject: Seq<u8>) -> bool {
    valid_utf8(subject) && match client_ip(trimmed(decode_utf8(subject))) {
        Some(ip) => exists|i: int| 0 <= i < ranges.len() && in_range(#[trigger] ranges[i], ip),
        None => false,
    }
}

/// Whether a subject holds a byte that a table does not allow.
pub open spec fn byte_outside(allowed: Seq<bool>, subject: Seq<u8>) -> bool {
    exists|i: int| 0 <= i < subject.len() && !allowed[(#[trigger] subject[i]) as int]
}

/// What an operator reports for a subject.
pub open spec fn evaluated(
    operator: CompiledOperatorView,
    subject: Seq<u8>,
    values: Values,
    capture: bool,
) -> OperatorMatchView {
    match operator {
        CompiledOperatorView::Rx(pattern) => if capture {
            rx_match(regex_groups(pattern, subject))
        } else {
            plain_match(regex_matches(pattern, subject))
        },
        CompiledOperatorView::Pm { phrases, min_len } => plain_match(
            subject.len() >= min_len && any_phrase_in(phrases, subject),
        ),
        CompiledOperatorView::Streq(t) => plain_match(expanded(t, values) == subject),
        CompiledOperatorView::Contains(t) => plain_match(
            occurs_in(subject, expanded(t, values)),
        ),
        CompiledOperatorView::EndsWith(t) => plain_match(
            occurs_at(
                subject,
                expanded(t, values),
                subject.len() - expanded(t, values).len(),
            ),
        ),
        CompiledOperatorView::Within(t) => plain_match(occurs_in(expanded(t, values), subject)),
        CompiledOperatorView::IpMatch(ranges) => plain_match(ip_matches(ranges, subject)),
        CompiledOperatorView::Numeric { cmp, operand } => plain_match(
            match integer_of(subject) {
                Some(l) => compares(cmp, l, operand_value(operand, values)),
                None => false,
            },
        ),
        CompiledOperatorView::ValidateByteRange(allowed) => plain_match(
            byte_outside(allowed, subject),
        ),
        CompiledOperatorView::ValidateUtf8Encoding => plain_match(!valid_utf8(subject)),
        CompiledOperatorView::ValidateUrlEncoding => plain_match(!well_escaped(subject)),
        CompiledOperatorView::UnconditionalMatch => plain_match(true),
        CompiledOperatorView::DetectSqli => sqli_match(sqli_verdict(subject), capture),
        CompiledOperatorView::DetectXss => plain_match(xss_verdict(subject)),
    }
}

/// The result of `@rx` for the groups that a capturing match found.
pub fn rx_result(groups: Option<Vec<Option<Vec<u8>>>>) -> (r: OperatorMatch)
    ensures
        r.deep_view() == rx_match(
            match groups {
                Some(found) => Some(groups_view(found@)),
                None => None,
            },
        ),
{
    let found = match groups {
        Some(found) => found,
        None => {
            return OperatorMatch::plain(false);
        },
    };
    let ghost all = groups_view(found@);
    let mut captures: Vec<Vec<u8>> = Vec::new();
    let mut i: usize = 0;
    while i < found.len()
        invariant
            i <= found@.len(),
            all == groups_view(found@),
            texts(captures@) == group_captures(all).take(i as int),
        decreases found@.len() - i,
    {
        let ghost done = texts(captures@);
        let next: Vec<u8> = match &found[i] {
            Some(g) => slice_to_vec(g.as_slice()),
            None => Vec::new(),
        };
        assert(next@ =~= group_captures(all)[i as int]);
        captures.push(next);
        assert(texts(captures@) =~= done.push(next@));
        assert(texts(captures@) =~= group_captures(all).take(i + 1));
        i += 1;
    }
    assert(group_captures(all).take(i as int) =~= group_captures(all));
    OperatorMatch { matched: true, captures }
}

/// The result of `@detectSQLi` for a verdict and a fingerprint.
pub fn sqli_result(is_injection: bool, fingerprint: Option<String>, capture: bool) -> (r:
    OperatorMatch)
    ensures
        r.deep_view() == sqli_match((is_injection, fingerprint.deep_view()), capture),
{
    if !is_injection {
        return OperatorMatch::plain(false);
    }
    if !capture {
        return OperatorMatch::plain(true);
    }
    let first: Vec<u8> = match fingerprint {
        Some(f) => bytes_of(f.as_str()),
        None => Vec::new(),
    };
    let ghost shown = first@;
    let mut captures: Vec<Vec<u8>> = Vec::new();
    captures.push(first);
    assert(texts(captures@) =~= seq![shown]);
    proof {
        if fingerprint is None {
            assert(shown =~= seq![]);
        }
    }
    OperatorMatch { matched: true, captures }
}

/// The bytes of a borrowed or owned value.
pub fn cow_bytes<'a>(value: &'a Cow<'_, [u8]>) -> (r: &'a [u8])
    ensures
        r@ == value@,
{
    match value {
        Cow::Borrowed(b) => b,
        Cow::Owned(v) => v.as_slice(),
    }
}

fn ends_with(subject: &[u8], tail: &[u8]) -> (r: bool)
    ensures
        r == occurs_at(subject@, tail@, subject@.len() - tail@.len()),
{
    if tail.len() > subject.len() {
        return false;
    }
    bytes_at(subject, tail, subject.len() - tail.len())
}

fn ip_match(ranges: &Vec<IpRange>, subject: &[u8]) -> (r: bool)
    ensures
        r == ip_matches(ranges.deep_view(), subject@),
{
    let text = match utf8_text(subject) {
        Some(text) => text,
        None => {
            return false;
        },
    };
    let chars = chars_of(text.as_str());
    let ip = match parse_ip(trim(chars.as_slice())) {
        Some(ip) => ip,
        None => {
            return false;
        },
    };
    let ghost all = ranges.deep_view();
    let mut i: usize = 0;
    while i < ranges.len()
        invariant
            i <= ranges@.len(),
            all == ranges.deep_view(),
            valid_utf8(subject@),
            client_ip(trimmed(decode_utf8(subject@))) == Some(ip),
            forall|j: int| 0 <= j < i ==> !in_range(#[trigger] all[j], ip),
        decreases ranges@.len() - i,
    {
        assert(all[i as int] == ranges@[i as int]@);
        if ranges[i].contains(ip) {
            return true;
        }
        i += 1;
    }
    false
}

fn compare(how: NumericCmp, l: i64, r: i64) -> (b: bool)
    ensures
        b == compares(how, l, r),
{
    match how {
        NumericCmp::Lt => l < r,
        NumericCmp::Gt => l > r,
        NumericCmp::Eq => l == r,
        NumericCmp::Ge => l >= r,
    }
}

fn right_hand<C: MacroContext + ?Sized>(operand: &Numeric, ctx: &C) -> (r: i64)
    ensures
        r == operand_value(operand.deep_view(), ctx.values()),
{
    match operand {
        Numeric::Literal(v) => *v,
        Numeric::Macro(name) => match ctx.lookup(name.as_str()) {
            Some(value) => match parse_i64(cow_bytes(&value)) {
                Some(v) => v,
                None => 0,
            },
            None => 0,
        },
    }
}

fn has_byte_outside(allowed: &[bool; 256], subject: &[u8]) -> (r: bool)
    ensures
        r == byte_outside(allowed@, subject@),
{
    let mut i: usize = 0;
    while i < subject.len()
        invariant
            i <= subject@.len(),
            forall|j: int| 0 <= j < i ==> allowed@[(#[trigger] subject@[j]) as int],
        decreases subject@.len() - i,
    {
        if !allowed[subject[i] as usize] {
            assert(!allowed@[subject@[i as int] as int]);
            return true;
        }
        i += 1;
    }
    false
}

impl CompiledOperator {
    /// Evaluate against one target value.
    ///
    /// `capture` requests regex capture groups; it is ignored by operators
    /// that cannot produce them, and never changes whether there is a match.
    pub fn evaluate<C: MacroContext + ?Sized>(&self, subject: &[u8], ctx: &C, capture: bool) -> (r:
        OperatorMatch)
        ensures
            r.deep_view() == evaluated(
                self.deep_view(),
                subject@,
                ctx.values(),
                capture,
            ),
            r.matched == evaluated(self.deep_view(), subject@, ctx.values(), false).matched,
    {
        match self {
            CompiledOperator::Rx(re) => {
                if capture {
                    rx_result(regex_capture(re, subject))
                } else {
                    OperatorMatch::plain(regex_is_match(re, subject))
                }
            },
            CompiledOperator::Pm { matcher, min_len } => {
                if subject.len() < *min_len {
                    return OperatorMatch::plain(false);
                }
                OperatorMatch::plain(matcher.finds(subject))
            },
            CompiledOperator::Streq(t) => {
                let operand = t.expand(ctx);
                OperatorMatch::plain(same_bytes(cow_bytes(&operand), subject))
            },
            CompiledOperator::Contains(t) => {
                let operand = t.expand(ctx);
                OperatorMatch::plain(contains_bytes(subject, cow_bytes(&operand)))
            },
            CompiledOperator::EndsWith(t) => {
                let operand = t.expand(ctx);
                OperatorMatch::plain(ends_with(subject, cow_bytes(&operand)))
            },
            // Note the direction: the subject must be found inside the
            // operand, not the other way round.
            CompiledOperator::Within(t) => {
                let operand = t.expand(ctx);
                OperatorMatch::plain(contains_bytes(cow_bytes(&operand), subject))
            },
            CompiledOperator::IpMatch(ranges) => OperatorMatch::plain(ip_match(ranges, subject)),
            CompiledOperator::Numeric { cmp, operand } => {
                let right = right_hand(operand, ctx);
                match parse_i64(subject) {
                    Some(left) => OperatorMatch::plain(compare(*cmp, left, right)),
                    None => OperatorMatch::plain(false),
                }
            },
            CompiledOperator::ValidateByteRange(allowed) => OperatorMatch::plain(
                has_byte_outside(&**allowed, subject),
            ),
            CompiledOperator::ValidateUtf8Encoding => OperatorMatch::plain(
                utf8_text(subject).is_none(),
            ),
            CompiledOperator::ValidateUrlEncoding => OperatorMatch::plain(
                !url_encoding_is_valid(subject),
            ),
            CompiledOperator::UnconditionalMatch => OperatorMatch::plain(true),
            CompiledOperator::DetectSqli => {
                let (is_injection, fingerprint) = detect_sqli(subject);
                sqli_result(is_injection, fingerprint, capture)
            },
            CompiledOperator::DetectXss => OperatorMatch::plain(detect_xss(subject)),
        }
    }
}

// ---------------------------------------------------------------------------
// Laws

proof fn lemma_shortest(phrases: Seq<Seq<char>>, i: int)
    requires
        0 <= i < phrases.len(),
    ensures
        shortest(phrases) <= encode_utf8(phrases[i]).len(),
    decreases phrases.len(),
{
    if phrases.len() > 1 && i < phrases.len() - 1 {
        lemma_shortest(phrases.drop_last(), i);
    }
}

/// Skipping the automaton for a subject shorter than the shortest phrase loses
/// no match.
pub proof fn short_subjects_hold_no_phrase(phrases: Seq<Seq<char>>, subject: Seq<u8>)
    requires
        subject.len() < shortest(phrases),
    ensures
        !any_phrase_in(phrases, subject),
{
    assert forall|i: int| 0 <= i < phrases.len() implies !occurs_in(
        lower_bytes(subject),
        lower_bytes(encode_utf8(#[trigger] phrases[i])),
    ) by {
        lemma_shortest(phrases, i);
    }
}

/// A compiled phrase list matches exactly the subjects that hold a phrase.
pub proof fn pm_matches_what_holds_a_phrase(
    phrases: Seq<Seq<char>>,
    subject: Seq<u8>,
    values: Values,
    capture: bool,
)
    requires
        pm_compiled(phrases) is Ok,
        shortest(pm_phrases(phrases)) <= usize::MAX,
    ensures
        evaluated(pm_compiled(phrases)->Ok_0, subject, values, capture) == plain_match(
            any_phrase_in(pm_phrases(phrases), subject),
        ),
{
    if subject.len() < shortest(pm_phrases(phrases)) {
        short_subjects_hold_no_phrase(pm_phrases(phrases), subject);
    }
}

/// Searching for phrases ignores the subject's ASCII case.
pub proof fn pm_ignores_case(phrases: Seq<Seq<char>>, subject: Seq<u8>)
    ensures
        any_phrase_in(phrases, lower_bytes(subject)) == any_phrase_in(phrases, subject),
{
    assert(lower_bytes(lower_bytes(subject)) =~= lower_bytes(subject));
}

/// Without data, no `@pmFromFile` compiles: its error says so.
pub proof fn no_loader_fails_every_data_file(
    name: Seq<char>,
    result: Result<CompiledOperatorView, OperatorCompileErrorView>,
)
    requires
        compiles_to(OperatorView::PmFromFile(name), NoDataLoader.loads(), result),
    ensures
        result == Err::<CompiledOperatorView, OperatorCompileErrorView>(
            OperatorCompileErrorView::DataFile(no_data(name)),
        ),
{
}

/// An operator that names no data file compiles to one result, whatever the
/// loader holds.
pub proof fn compilation_depends_on_data_files_alone(
    operator: OperatorView,
    loads: Loads,
    result: Result<CompiledOperatorView, OperatorCompileErrorView>,
    loaded: Result<Seq<u8>, Seq<char>>,
)
    requires
        operator !is PmFromFile,
        compiles_to(operator, loads, result),
    ensures
        result == compiled_of(operator, loaded),
{
}

/// A byte is allowed exactly where some range holds it, so `@validateByteRange`
/// over all bytes matches nothing.
pub proof fn full_byte_range_matches_nothing(
    ranges: Seq<(u8, u8)>,
    subject: Seq<u8>,
    values: Values,
    capture: bool,
)
    requires
        ranges.contains((0u8, 255u8)),
    ensures
        evaluated(
            CompiledOperatorView::ValidateByteRange(byte_table(ranges)),
            subject,
            values,
            capture,
        ) == plain_match(false),
{
    let i = choose|i: int| 0 <= i < ranges.len() && ranges[i] == (0u8, 255u8);
    assert forall|k: int| 0 <= k < subject.len() implies byte_table(
        ranges,
    )[(#[trigger] subject[k]) as int] by {
        assert(ranges[i].0 <= subject[k] <= ranges[i].1);
    }
}

} // verus!

//! SecLang operators.
//!
//! The Core Rule Set uses a closed set of them. An operator outside that set
//! fails parsing with a named error rather than being treated as always-false,
//! because an operator nobody evaluates is a rule that cannot fire.

use crate::text::before;
use crate::text::chars_of;
use crate::text::debug_text;
use crate::text::decimal;
use crate::text::find_char;
use crate::text::find_whitespace;
use crate::text::from;
use crate::text::joined3;
use crate::text::parse_signed;
use crate::text::parse_unsigned;
use crate::text::position;
use crate::text::quoted_then;
use crate::text::same;
use crate::text::signed_number;
use crate::text::split;
use crate::text::split_chars;
use crate::text::split_words;
use crate::text::string_of;
use crate::text::then_quoted;
use crate::text::trim;
use crate::text::trim_start;
use crate::text::trimmed;
use crate::text::trimmed_start;
use crate::text::unsigned_number;
use crate::text::views;
use crate::text::white_position;
use crate::text::words;
use crate::text::write_decimal;
use vstd::prelude::*;
use vstd::slice::slice_subrange;

verus! {

/// An operand that is either a literal number or a macro to expand at
/// evaluation time, such as `@lt %{tx.anomaly_score}`.
#[derive(Debug, PartialEq)]
pub enum Numeric {
    /// A literal, as written in the rule.
    Literal(i64),
    /// A `%{...}` reference, kept unexpanded.
    Macro(String),
}

/// The view of a [`Numeric`].
#[verifier::ext_equal]
pub enum NumericView {
    Literal(i64),
    Macro(Seq<char>),
}

impl DeepView for Numeric {
    type V = NumericView;

    open spec fn deep_view(&self) -> NumericView {
        match self {
            Numeric::Literal(n) => NumericView::Literal(*n),
            Numeric::Macro(s) => NumericView::Macro(s@),
        }
    }
}

impl Clone for Numeric {
    fn clone(&self) -> (r: Self)
        ensures
            r.deep_view() == self.deep_view(),
    {
        match self {
            Numeric::Literal(n) => Numeric::Literal(*n),
            Numeric::Macro(s) => Numeric::Macro(s.clone()),
        }
    }
}

/// What a numeric operand means, or what is wrong with it.
pub open spec fn numeric_of(operand: Seq<char>) -> Result<NumericView, Seq<char>> {
    let arg = trimmed(operand);
    if arg.len() >= 3 && arg[0] == '%' && arg[1] == '{' && arg.last() == '}' {
        Ok(NumericView::Macro(arg.subrange(2, arg.len() - 1)))
    } else {
        match signed_number(arg) {
            Some(n) => if i64::MIN <= n <= i64::MAX {
                Ok(NumericView::Literal(n as i64))
            } else {
                Err("expected a number or %{macro}, found "@ + debug_text(arg))
            },
            None => Err("expected a number or %{macro}, found "@ + debug_text(arg)),
        }
    }
}

impl Numeric {
    pub fn parse(arg: &[char]) -> (r: Result<Self, String>)
        ensures
            (match r {
                Ok(n) => numeric_of(arg@) == Ok::<NumericView, Seq<char>>(n.deep_view()),
                Err(e) => numeric_of(arg@) == Err::<NumericView, Seq<char>>(e@),
            }),
    {
        let arg = trim(arg);
        if arg.len() >= 3 && arg[0] == '%' && arg[1] == '{' && arg[arg.len() - 1] == '}' {
            return Ok(Numeric::Macro(string_of(slice_subrange(arg, 2, arg.len() - 1))));
        }
        match parse_signed(arg) {
            Some(n) => Ok(Numeric::Literal(n)),
            None => Err(
                then_quoted("expected a number or %{macro}, found ", string_of(arg).as_str()),
            ),
        }
    }
}

/// A SecLang operator, with its operand.
#[derive(Debug, Clone, PartialEq)]
pub enum Operator {
    /// `@rx` regular expression. The pattern is kept as authored; compiling it
    /// is a separate step (see [`crate::regex_compat`]).
    Rx(String),
    /// `@pm` case-insensitive multi-pattern match over inline phrases.
    Pm(Vec<String>),
    /// `@pmFromFile` multi-pattern match over phrases loaded from a file.
    PmFromFile(String),
    /// `@streq` exact string equality.
    Streq(String),
    /// `@contains` substring.
    Contains(String),
    /// `@endsWith` suffix.
    EndsWith(String),
    /// `@within` the subject appears inside the operand.
    Within(String),
    /// `@ipMatch` against a comma-separated list of addresses and CIDR ranges.
    IpMatch(String),
    /// `@lt` numeric less-than.
    Lt(Numeric),
    /// `@gt` numeric greater-than.
    Gt(Numeric),
    /// `@eq` numeric equality.
    Eq(Numeric),
    /// `@ge` numeric greater-or-equal.
    Ge(Numeric),
    /// `@detectSQLi` libinjection SQL injection classifier.
    DetectSqli,
    /// `@detectXSS` libinjection cross-site scripting classifier.
    DetectXss,
    /// `@validateUtf8Encoding` well-formed UTF-8.
    ValidateUtf8Encoding,
    /// `@validateUrlEncoding` well-formed percent-encoding.
    ValidateUrlEncoding,
    /// `@validateByteRange` every byte falls in one of the allowed ranges.
    ValidateByteRange(Vec<(u8, u8)>),
    /// `@unconditionalMatch` always true.
    UnconditionalMatch,
}

/// The view of an [`Operator`].
#[verifier::ext_equal]
pub enum OperatorView {
    Rx(Seq<char>),
    Pm(Seq<Seq<char>>),
    PmFromFile(Seq<char>),
    Streq(Seq<char>),
    Contains(Seq<char>),
    EndsWith(Seq<char>),
    Within(Seq<char>),
    IpMatch(Seq<char>),
    Lt(NumericView),
    Gt(NumericView),
    Eq(NumericView),
    Ge(NumericView),
    DetectSqli,
    DetectXss,
    ValidateUtf8Encoding,
    ValidateUrlEncoding,
    ValidateByteRange(Seq<(u8, u8)>),
    UnconditionalMatch,
}

impl DeepView for Operator {
    type V = OperatorView;

    open spec fn deep_view(&self) -> OperatorView {
        match self {
            Operator::Rx(s) => OperatorView::Rx(s@),
            Operator::Pm(v) => OperatorView::Pm(v.deep_view()),
            Operator::PmFromFile(s) => OperatorView::PmFromFile(s@),
            Operator::Streq(s) => OperatorView::Streq(s@),
            Operator::Contains(s) => OperatorView::Contains(s@),
            Operator::EndsWith(s) => OperatorView::EndsWith(s@),
            Operator::Within(s) => OperatorView::Within(s@),
            Operator::IpMatch(s) => OperatorView::IpMatch(s@),
            Operator::Lt(n) => OperatorView::Lt(n.deep_view()),
            Operator::Gt(n) => OperatorView::Gt(n.deep_view()),
            Operator::Eq(n) => OperatorView::Eq(n.deep_view()),
            Operator::Ge(n) => OperatorView::Ge(n.deep_view()),
            Operator::DetectSqli => OperatorView::DetectSqli,
            Operator::DetectXss => OperatorView::DetectXss,
            Operator::ValidateUtf8Encoding => OperatorView::ValidateUtf8Encoding,
            Operator::ValidateUrlEncoding => OperatorView::ValidateUrlEncoding,
            Operator::ValidateByteRange(v) => OperatorView::ValidateByteRange(v@),
            Operator::UnconditionalMatch => OperatorView::UnconditionalMatch,
        }
    }
}

impl OperatorView {
    /// The operator's name as written in SecLang, without the `@`.
    pub open spec fn name(self) -> Seq<char> {
        match self {
            OperatorView::Rx(_) => "rx"@,
            OperatorView::Pm(_) => "pm"@,
            OperatorView::PmFromFile(_) => "pmFromFile"@,
            OperatorView::Streq(_) => "streq"@,
            OperatorView::Contains(_) => "contains"@,
            OperatorView::EndsWith(_) => "endsWith"@,
            OperatorView::Within(_) => "within"@,
            OperatorView::IpMatch(_) => "ipMatch"@,
            OperatorView::Lt(_) => "lt"@,
            OperatorView::Gt(_) => "gt"@,
            OperatorView::Eq(_) => "eq"@,
            OperatorView::Ge(_) => "ge"@,
            OperatorView::DetectSqli => "detectSQLi"@,
            OperatorView::DetectXss => "detectXSS"@,
            OperatorView::ValidateUtf8Encoding => "validateUtf8Encoding"@,
            OperatorView::ValidateUrlEncoding => "validateUrlEncoding"@,
            OperatorView::ValidateByteRange(_) => "validateByteRange"@,
            OperatorView::UnconditionalMatch => "unconditionalMatch"@,
        }
    }
}

/// Why an operator could not be parsed.
#[derive(Debug, Clone, PartialEq)]
pub enum OperatorError {
    /// The operator name is not one Parapet implements.
    Unsupported {
        /// The operator name as written, without the `@`.
        name: String,
    },
    /// The operator name is known but its operand is malformed.
    BadOperand {
        /// The operator name.
        name: String,
        /// What was wrong.
        detail: String,
    },
}

/// The view of an [`OperatorError`].
#[verifier::ext_equal]
pub enum OperatorErrorView {
    Unsupported { name: Seq<char> },
    BadOperand { name: Seq<char>, detail: Seq<char> },
}

impl DeepView for OperatorError {
    type V = OperatorErrorView;

    open spec fn deep_view(&self) -> OperatorErrorView {
        match self {
            OperatorError::Unsupported { name } => OperatorErrorView::Unsupported { name: name@ },
            OperatorError::BadOperand { name, detail } => OperatorErrorView::BadOperand {
                name: name@,
                detail: detail@,
            },
        }
    }
}

impl OperatorErrorView {
    /// The message that reports the error.
    pub open spec fn text(self) -> Seq<char> {
        match self {
            OperatorErrorView::Unsupported { name } => "unsupported operator @"@ + name
                + ": Parapet implements the 18 operators the Core Rule Set uses, and refuses rather than silently never matching"@,
            OperatorErrorView::BadOperand { name, detail } => "operator @"@ + name + ": "@ + detail,
        }
    }
}

impl OperatorError {
    /// The message that reports the error.
    pub fn to_string(&self) -> (r: String)
        ensures
            r@ == self.deep_view().text(),
    {
        match self {
            OperatorError::Unsupported { name } => joined3(
                "unsupported operator @",
                name.as_str(),
                ": Parapet implements the 18 operators the Core Rule Set uses, and refuses rather than silently never matching",
            ),
            OperatorError::BadOperand { name, detail } => {
                let mut out = joined3("operator @", name.as_str(), ": ");
                out.append(detail.as_str());
                out
            },
        }
    }
}

/// The byte that a text writes in decimal.
pub open spec fn byte_value(s: Seq<char>) -> Result<u8, Seq<char>> {
    match unsigned_number(s) {
        Some(n) => if n <= 255 {
            Ok(n as u8)
        } else {
            Err(debug_text(s) + " is not a byte value"@)
        },
        None => Err(debug_text(s) + " is not a byte value"@),
    }
}

/// The range that one entry of a `@validateByteRange` operand writes.
pub open spec fn byte_range(part: Seq<char>) -> Result<(u8, u8), Seq<char>> {
    let p = position(part, '-');
    let lo = if p < part.len() {
        trimmed(part.take(p))
    } else {
        part
    };
    let hi = if p < part.len() {
        trimmed(part.skip(p + 1))
    } else {
        part
    };
    match byte_value(lo) {
        Err(e) => Err(e),
        Ok(l) => match byte_value(hi) {
            Err(e) => Err(e),
            Ok(h) => if l > h {
                Err("range "@ + decimal(l as nat) + "-"@ + decimal(h as nat) + " is inverted"@)
            } else {
                Ok((l, h))
            },
        },
    }
}

/// The ranges that a list of entries writes: empty entries are skipped, and
/// the first malformed one is the error.
pub open spec fn byte_ranges(parts: Seq<Seq<char>>) -> Result<Seq<(u8, u8)>, Seq<char>>
    decreases parts.len(),
{
    if parts.len() == 0 {
        Ok(seq![])
    } else {
        let part = trimmed(parts[0]);
        if part.len() == 0 {
            byte_ranges(parts.drop_first())
        } else {
            match byte_range(part) {
                Err(e) => Err(e),
                Ok(range) => match byte_ranges(parts.drop_first()) {
                    Err(e) => Err(e),
                    Ok(rest) => Ok(seq![range] + rest),
                },
            }
        }
    }
}

/// What a `@validateByteRange` operand means.
pub open spec fn byte_ranges_of(arg: Seq<char>) -> Result<Seq<(u8, u8)>, Seq<char>> {
    if trimmed(arg).len() == 0 {
        Err("no ranges given"@)
    } else {
        byte_ranges(split(arg, ','))
    }
}

pub open spec fn bad_operand(name: Seq<char>, detail: Seq<char>) -> Result<
    OperatorView,
    OperatorErrorView,
> {
    Err(OperatorErrorView::BadOperand { name, detail })
}

/// The operator that a name with its operand writes.
pub open spec fn operator_named(name: Seq<char>, arg: Seq<char>) -> Result<
    OperatorView,
    OperatorErrorView,
> {
    if name == "rx"@ {
        Ok(OperatorView::Rx(arg))
    } else if name == "pm"@ {
        if words(arg).len() == 0 {
            bad_operand(name, "no phrases given"@)
        } else {
            Ok(OperatorView::Pm(words(arg)))
        }
    } else if name == "pmFromFile"@ || name == "pmf"@ {
        if arg.len() == 0 {
            bad_operand(name, "no file given"@)
        } else {
            Ok(OperatorView::PmFromFile(arg))
        }
    } else if name == "streq"@ {
        Ok(OperatorView::Streq(arg))
    } else if name == "contains"@ {
        Ok(OperatorView::Contains(arg))
    } else if name == "endsWith"@ {
        Ok(OperatorView::EndsWith(arg))
    } else if name == "within"@ {
        Ok(OperatorView::Within(arg))
    } else if name == "ipMatch"@ {
        if arg.len() == 0 {
            bad_operand(name, "no addresses given"@)
        } else {
            Ok(OperatorView::IpMatch(arg))
        }
    } else if name == "lt"@ || name == "gt"@ || name == "eq"@ || name == "ge"@ {
        match numeric_of(arg) {
            Ok(n) => Ok(
                if name == "lt"@ {
                    OperatorView::Lt(n)
                } else if name == "gt"@ {
                    OperatorView::Gt(n)
                } else if name == "eq"@ {
                    OperatorView::Eq(n)
                } else {
                    OperatorView::Ge(n)
                },
            ),
            Err(detail) => bad_operand(name, detail),
        }
    } else if name == "detectSQLi"@ {
        Ok(OperatorView::DetectSqli)
    } else if name == "detectXSS"@ {
        Ok(OperatorView::DetectXss)
    } else if name == "validateUtf8Encoding"@ {
        Ok(OperatorView::ValidateUtf8Encoding)
    } else if name == "validateUrlEncoding"@ {
        Ok(OperatorView::ValidateUrlEncoding)
    } else if name == "validateByteRange"@ {
        match byte_ranges_of(arg) {
            Ok(ranges) => Ok(OperatorView::ValidateByteRange(ranges)),
            Err(detail) => bad_operand(name, detail),
        }
    } else if name == "unconditionalMatch"@ {
        Ok(OperatorView::UnconditionalMatch)
    } else {
        Err(OperatorErrorView::Unsupported { name })
    }
}

/// What an operator argument means. One that does not start with `@` is a
/// regular expression.
pub open spec fn operator_of(text: Seq<char>) -> Result<OperatorView, OperatorErrorView> {
    let body = trimmed_start(text);
    if body.len() == 0 || body[0] != '@' {
        Ok(OperatorView::Rx(body))
    } else {
        let rest = body.skip(1);
        let p = white_position(rest);
        operator_named(rest.take(p), trimmed_start(rest.skip(p)))
    }
}

fn bad(name: &[char], detail: String) -> (r: OperatorError)
    ensures
        r.deep_view() == (OperatorErrorView::BadOperand { name: name@, detail: detail@ }),
{
    OperatorError::BadOperand { name: string_of(name), detail }
}

fn parse_byte(s: &[char]) -> (r: Result<u8, String>)
    ensures
        (match r {
            Ok(n) => byte_value(s@) == Ok::<u8, Seq<char>>(n),
            Err(e) => byte_value(s@) == Err::<u8, Seq<char>>(e@),
        }),
{
    match parse_unsigned(s, 0xff) {
        Some(n) => Ok(n as u8),
        None => Err(quoted_then(string_of(s).as_str(), " is not a byte value")),
    }
}

fn parse_byte_range(part: &[char]) -> (r: Result<(u8, u8), String>)
    ensures
        (match r {
            Ok(range) => byte_range(part@) == Ok::<(u8, u8), Seq<char>>(range),
            Err(e) => byte_range(part@) == Err::<(u8, u8), Seq<char>>(e@),
        }),
{
    let p = find_char(part, '-');
    let (low, high) = if p < part.len() {
        (trim(before(part, p)), trim(from(part, p + 1)))
    } else {
        (part, part)
    };
    let lo = parse_byte(low)?;
    let hi = parse_byte(high)?;
    if lo > hi {
        let mut message = joined3("range ", write_decimal(lo as u64).as_str(), "-");
        message.append(write_decimal(hi as u64).as_str());
        message.append(" is inverted");
        return Err(message);
    }
    Ok((lo, hi))
}

/// Parse `@validateByteRange` operands such as `9,10,13,32-126,128-255`.
pub fn parse_byte_ranges(arg: &[char]) -> (r: Result<Vec<(u8, u8)>, String>)
    ensures
        (match r {
            Ok(ranges) => byte_ranges_of(arg@) == Ok::<Seq<(u8, u8)>, Seq<char>>(ranges@),
            Err(e) => byte_ranges_of(arg@) == Err::<Seq<(u8, u8)>, Seq<char>>(e@),
        }),
{
    if trim(arg).len() == 0 {
        return Err("no ranges given".to_string());
    }
    let parts = split_chars(arg, ',');
    let ghost all = views(parts@);
    let mut ranges: Vec<(u8, u8)> = Vec::new();
    let mut i: usize = 0;
    assert(all.skip(0) =~= all);
    assert(byte_ranges(all) == after_ranges(ranges@, byte_ranges(all.skip(0)))) by {
        if let Ok(rest) = byte_ranges(all) {
            assert(Seq::<(u8, u8)>::empty() + rest =~= rest);
        }
    }
    while i < parts.len()
        invariant
            i <= parts@.len(),
            all == views(parts@),
            byte_ranges(all) == after_ranges(ranges@, byte_ranges(all.skip(i as int))),
            byte_ranges(all) == byte_ranges_of(arg@),
        decreases parts@.len() - i,
    {
        let part = trim(parts[i]);
        assert(all.skip(i as int)[0] == parts@[i as int]@);
        assert(all.skip(i as int).drop_first() =~= all.skip(i + 1));
        i += 1;
        if part.len() == 0 {
            continue;
        }
        let range = parse_byte_range(part)?;
        proof {
            if let Ok(rest) = byte_ranges(all.skip(i as int)) {
                assert(ranges@ + (seq![range] + rest) =~= ranges@.push(range) + rest);
            }
        }
        ranges.push(range);
    }
    assert(byte_ranges(all.skip(i as int)) == Ok::<Seq<(u8, u8)>, Seq<char>>(seq![]));
    assert(ranges@ + seq![] =~= ranges@);
    Ok(ranges)
}

/// What the whole list means, once `done` has been read and `rest` is what the
/// remaining entries mean.
pub open spec fn after_ranges(
    done: Seq<(u8, u8)>,
    rest: Result<Seq<(u8, u8)>, Seq<char>>,
) -> Result<Seq<(u8, u8)>, Seq<char>> {
    match rest {
        Ok(more) => Ok(done + more),
        Err(e) => Err(e),
    }
}

fn own_words(arg: &[char]) -> (r: Vec<String>)
    ensures
        r.deep_view() == words(arg@),
{
    let found = split_words(arg);
    let mut out: Vec<String> = Vec::new();
    let mut i: usize = 0;
    while i < found.len()
        invariant
            i <= found@.len(),
            out@.len() == i,
            forall|j: int| 0 <= j < i ==> (#[trigger] out@[j])@ == found@[j]@,
        decreases found@.len() - i,
    {
        out.push(string_of(found[i]));
        i += 1;
    }
    assert(out.deep_view() =~= views(found@));
    out
}

fn parse_named(name: &[char], arg: &[char]) -> (r: Result<Operator, OperatorError>)
    ensures
        (match r {
            Ok(o) => operator_named(name@, arg@) == Ok::<OperatorView, OperatorErrorView>(
                o.deep_view(),
            ),
            Err(e) => operator_named(name@, arg@) == Err::<OperatorView, OperatorErrorView>(
                e.deep_view(),
            ),
        }),
{
    if same(name, "rx") {
        Ok(Operator::Rx(string_of(arg)))
    } else if same(name, "pm") {
        let phrases = own_words(arg);
        assert(phrases.deep_view().len() == phrases@.len());
        if phrases.len() == 0 {
            Err(bad(name, "no phrases given".to_string()))
        } else {
            Ok(Operator::Pm(phrases))
        }
    } else if same(name, "pmFromFile") || same(name, "pmf") {
        if arg.len() == 0 {
            Err(bad(name, "no file given".to_string()))
        } else {
            Ok(Operator::PmFromFile(string_of(arg)))
        }
    } else if same(name, "streq") {
        Ok(Operator::Streq(string_of(arg)))
    } else if same(name, "contains") {
        Ok(Operator::Contains(string_of(arg)))
    } else if same(name, "endsWith") {
        Ok(Operator::EndsWith(string_of(arg)))
    } else if same(name, "within") {
        Ok(Operator::Within(string_of(arg)))
    } else if same(name, "ipMatch") {
        if arg.len() == 0 {
            Err(bad(name, "no addresses given".to_string()))
        } else {
            Ok(Operator::IpMatch(string_of(arg)))
        }
    } else if same(name, "lt") || same(name, "gt") || same(name, "eq") || same(name, "ge") {
        match Numeric::parse(arg) {
            Ok(n) => Ok(
                if same(name, "lt") {
                    Operator::Lt(n)
                } else if same(name, "gt") {
                    Operator::Gt(n)
                } else if same(name, "eq") {
                    Operator::Eq(n)
                } else {
                    Operator::Ge(n)
                },
            ),
            Err(detail) => Err(bad(name, detail)),
        }
    } else if same(name, "detectSQLi") {
        Ok(Operator::DetectSqli)
    } else if same(name, "detectXSS") {
        Ok(Operator::DetectXss)
    } else if same(name, "validateUtf8Encoding") {
        Ok(Operator::ValidateUtf8Encoding)
    } else if same(name, "validateUrlEncoding") {
        Ok(Operator::ValidateUrlEncoding)
    } else if same(name, "validateByteRange") {
        match parse_byte_ranges(arg) {
            Ok(ranges) => Ok(Operator::ValidateByteRange(ranges)),
            Err(detail) => Err(bad(name, detail)),
        }
    } else if same(name, "unconditionalMatch") {
        Ok(Operator::UnconditionalMatch)
    } else {
        Err(OperatorError::Unsupported { name: string_of(name) })
    }
}

impl Operator {
    /// Parse an operator and its operand.
    ///
    /// `body` is the operator argument with any leading `!` already stripped
    /// by the caller. A body that does not start with `@` is an implicit
    /// `@rx`, which SecLang permits.
    pub fn parse(body: &str) -> (r: Result<Self, OperatorError>)
        ensures
            (match r {
                Ok(o) => operator_of(body@) == Ok::<OperatorView, OperatorErrorView>(
                    o.deep_view(),
                ),
                Err(e) => operator_of(body@) == Err::<OperatorView, OperatorErrorView>(
                    e.deep_view(),
                ),
            }),
    {
        let chars = chars_of(body);
        let body = trim_start(chars.as_slice());
        if body.len() == 0 || body[0] != '@' {
            return Ok(Operator::Rx(string_of(body)));
        }
        let rest = from(body, 1);
        let p = find_whitespace(rest);
        parse_named(before(rest, p), trim_start(from(rest, p)))
    }

    /// The operator's name as written in SecLang, without the `@`.
    pub fn name(&self) -> (r: &'static str)
        ensures
            r@ == self.deep_view().name(),
    {
        match self {
            Operator::Rx(_) => "rx",
            Operator::Pm(_) => "pm",
            Operator::PmFromFile(_) => "pmFromFile",
            Operator::Streq(_) => "streq",
            Operator::Contains(_) => "contains",
            Operator::EndsWith(_) => "endsWith",
            Operator::Within(_) => "within",
            Operator::IpMatch(_) => "ipMatch",
            Operator::Lt(_) => "lt",
            Operator::Gt(_) => "gt",
            Operator::Eq(_) => "eq",
            Operator::Ge(_) => "ge",
            Operator::DetectSqli => "detectSQLi",
            Operator::DetectXss => "detectXSS",
            Operator::ValidateUtf8Encoding => "validateUtf8Encoding",
            Operator::ValidateUrlEncoding => "validateUrlEncoding",
            Operator::ValidateByteRange(_) => "validateByteRange",
            Operator::UnconditionalMatch => "unconditionalMatch",
        }
    }
}

// ---------------------------------------------------------------------------
// Laws

/// An operator reports the name it was written with; `pmf` is short for
/// `pmFromFile`.
pub proof fn operators_keep_their_name(name: Seq<char>, arg: Seq<char>)
    requires
        operator_named(name, arg) is Ok,
    ensures
        ({
            let kept = operator_named(name, arg)->Ok_0.name();
            kept == name || (name == "pmf"@ && kept == "pmFromFile"@)
        }),
{
}

/// The operators that are implemented.
pub open spec fn is_operator_name(name: Seq<char>) -> bool {
    ||| name == "rx"@
    ||| name == "pm"@
    ||| name == "pmFromFile"@
    ||| name == "pmf"@
    ||| name == "streq"@
    ||| name == "contains"@
    ||| name == "endsWith"@
    ||| name == "within"@
    ||| name == "ipMatch"@
    ||| name == "lt"@
    ||| name == "gt"@
    ||| name == "eq"@
    ||| name == "ge"@
    ||| name == "detectSQLi"@
    ||| name == "detectXSS"@
    ||| name == "validateUtf8Encoding"@
    ||| name == "validateUrlEncoding"@
    ||| name == "validateByteRange"@
    ||| name == "unconditionalMatch"@
}

/// An operator that is not implemented is an error, never one that does not
/// match; and nothing else is reported as one.
pub proof fn unknown_operators_are_refused(name: Seq<char>, arg: Seq<char>)
    ensures
        operator_named(name, arg) == Err::<OperatorView, OperatorErrorView>(
            OperatorErrorView::Unsupported { name },
        ) <==> !is_operator_name(name),
{
}

} // verus!

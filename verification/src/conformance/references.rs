//! Comparing transformations with the results of another engine.
//!
//! Transformations decide what an operator actually sees, so a divergence here
//! is a bypass or a false positive, not a cosmetic difference. The results to
//! compare with come from Coraza, the engine the Core Rule Set is authored
//! against.

use crate::action::transformation_named;
use crate::action::Transformation;
use crate::bytes::same_bytes;
use crate::bytes::utf8_text;
use crate::digits::hex_digit_of;
use crate::digits::hex_digit;
use crate::digits::hex_nibble;
use crate::digits::hex_value;
use crate::text::chars_of;
use crate::text::find_byte;
use crate::text::is_less;
use crate::text::joined;
use crate::text::same_str;
use crate::text::text_less;
use crate::text::text_order_is_transitive;
use crate::text::texts_are_ordered;
use crate::transform::into_vec;
use crate::transform::transformed;
use vstd::prelude::*;
use vstd::utf8::valid_utf8;

verus! {

// ---------------------------------------------------------------------------
// Hexadecimal

/// The value of two hexadecimal digits. A plus sign in place of the first is
/// read as a sign.
pub open spec fn hex_byte(first: char, second: char) -> Option<u8> {
    if first as u32 >= 128 || second as u32 >= 128 {
        None
    } else {
        match (hex_value(first as u8), hex_value(second as u8)) {
            (Some(high), Some(low)) => Some((16 * high + low) as u8),
            (None, Some(low)) => if first == '+' {
                Some(low)
            } else {
                None
            },
            _ => None,
        }
    }
}

/// A byte in front of those that follow, if they can be read.
pub open spec fn byte_then(first: Option<u8>, rest: Option<Seq<u8>>) -> Option<Seq<u8>> {
    match (first, rest) {
        (Some(b), Some(more)) => Some(seq![b] + more),
        _ => None,
    }
}

/// The bytes that a text writes in hexadecimal.
pub open spec fn hex_bytes(s: Seq<char>) -> Option<Seq<u8>>
    decreases s.len(),
{
    if s.len() == 0 {
        Some(seq![])
    } else if s.len() == 1 {
        None
    } else {
        byte_then(hex_byte(s[0], s[1]), hex_bytes(s.skip(2)))
    }
}

fn read_hex_byte(first: char, second: char) -> (r: Option<u8>)
    ensures
        r == hex_byte(first, second),
{
    if first as u32 >= 128 || second as u32 >= 128 {
        return None;
    }
    match (hex_nibble(first as u8), hex_nibble(second as u8)) {
        (Some(high), Some(low)) => Some(16 * high + low),
        (None, Some(low)) => if first == '+' {
            Some(low)
        } else {
            None
        },
        _ => None,
    }
}

/// Read bytes from hexadecimal.
pub fn from_hex(s: &str) -> (r: Option<Vec<u8>>)
    ensures
        (match r {
            Some(bytes) => hex_bytes(s@) == Some(bytes@),
            None => hex_bytes(s@) is None,
        }),
{
    let cs = chars_of(s);
    let mut out: Vec<u8> = Vec::new();
    let mut i: usize = 0;
    assert(cs@.skip(0) =~= cs@);
    proof {
        if let Some(bytes) = hex_bytes(cs@) {
            assert(out@ + bytes =~= bytes);
        }
    }
    while i < cs.len()
        invariant
            i <= cs@.len(),
            cs@ == s@,
            hex_bytes(s@) is None <==> hex_bytes(cs@.skip(i as int)) is None,
            hex_bytes(s@) matches Some(bytes) ==> bytes == out@ + hex_bytes(cs@.skip(i as int))->0,
        decreases cs@.len() - i,
    {
        let ghost rest = cs@.skip(i as int);
        if cs.len() - i < 2 {
            return None;
        }
        assert(rest[0] == cs@[i as int] && rest[1] == cs@[i + 1]);
        assert(rest.skip(2) =~= cs@.skip(i + 2));
        match read_hex_byte(cs[i], cs[i + 1]) {
            Some(b) => {
                let ghost done = out@;
                out.push(b);
                proof {
                    if let Some(more) = hex_bytes(rest.skip(2)) {
                        assert(done + (seq![b] + more) =~= out@ + more);
                    }
                }
            },
            None => {
                return None;
            },
        }
        i += 2;
    }
    assert(out@ + Seq::<u8>::empty() =~= out@);
    Some(out)
}

/// Bytes in lowercase hexadecimal.
pub open spec fn hex_text(bytes: Seq<u8>) -> Seq<char>
    decreases bytes.len(),
{
    if bytes.len() == 0 {
        seq![]
    } else {
        let b = bytes.last();
        hex_text(bytes.drop_last()) + seq![
            hex_digit((b / 16) as nat) as char,
            hex_digit((b % 16) as nat) as char,
        ]
    }
}

/// Write bytes in hexadecimal.
pub fn to_hex(bytes: &[u8]) -> (r: String)
    ensures
        r@ == hex_text(bytes@),
{
    let mut out = String::new();
    let mut i: usize = 0;
    assert(bytes@.take(0) =~= seq![]);
    assert(out@ =~= seq![]);
    while i < bytes.len()
        invariant
            i <= bytes@.len(),
            out@ == hex_text(bytes@.take(i as int)),
        decreases bytes@.len() - i,
    {
        let b = bytes[i];
        let ghost done = out@;
        assert(bytes@.take(i + 1).drop_last() =~= bytes@.take(i as int));
        assert(bytes@.take(i + 1).last() == b);
        let high = hex_digit_of(b / 16) as char;
        let low = hex_digit_of(b % 16) as char;
        out.push(high);
        out.push(low);
        assert(out@ =~= done + seq![high, low]);
        i += 1;
    }
    assert(bytes@.take(i as int) =~= bytes@);
    out
}

// ---------------------------------------------------------------------------
// Divergences

/// Whether a backslash stands in front of a decimal digit somewhere.
pub open spec fn has_octal_escape(input: Seq<u8>) -> bool {
    exists|i: int|
        0 <= i < input.len() - 1 && #[trigger] input[i] == '\\' as u8 && '0' as u8 <= input[i + 1]
            <= '9' as u8
}

/// Whether a byte of a Windows path ends a segment that file systems there read as
/// another name: a dot or a space at its end.
pub open spec fn trails_a_segment(input: Seq<u8>, i: int) -> bool {
    &&& input[i] == '.' as u8 || input[i] == ' ' as u8
    &&& i == input.len() - 1 || input[i + 1] == '/' as u8 || input[i + 1] == '\\' as u8
}

/// Whether a Windows path holds a segment that the other engine hardens: a colon,
/// which starts an alternate data stream, or a dot or a space at the end of a
/// segment.
pub open spec fn has_hardened_segment(input: Seq<u8>) -> bool {
    exists|i: int|
        0 <= i < input.len() && (#[trigger] input[i] == ':' as u8 || trails_a_segment(input, i))
}

/// Why a divergence from the other engine is intended, where it is.
///
/// Each reason holds for specific inputs rather than for a transformation as a
/// whole, so a *new* divergence in the same transformation still fails.
pub open spec fn divergence_reason(
    name: Seq<char>,
    input: Seq<u8>,
    ours: Seq<u8>,
    theirs: Seq<u8>,
) -> Option<Seq<char>> {
    if name == "lowercase"@ || name == "removeWhitespace"@ || name == "utf8toUnicode"@ {
        if !valid_utf8(input) {
            Some(
                "reference decodes runes and substitutes U+FFFD for invalid UTF-8; Parapet stays byte-oriented"@,
            )
        } else {
            None
        }
    } else if name == "htmlEntityDecode"@ {
        if ours == seq![0xa0u8] && theirs == seq![0xc2u8, 0xa0u8] {
            Some(
                "reference UTF-8 encodes the &nbsp; result; ModSecurity emits the single byte 0xa0"@,
            )
        } else {
            None
        }
    } else if name == "normalizePath"@ {
        if theirs == seq!['/' as u8, '/' as u8] {
            Some(
                "reference bug: re-appends a trailing slash unconditionally, yielding \"//\""@,
            )
        } else {
            None
        }
    } else if name == "normalizePathWin"@ {
        if has_hardened_segment(input) {
            Some("reference adds ADS/trailing-dot hardening beyond ModSecurity semantics"@)
        } else {
            None
        }
    } else if name == "jsDecode"@ {
        if theirs.contains(0) && has_octal_escape(input) {
            Some(
                "reference bug: octal escapes decode to NUL (digit buffer starts at the backslash)"@,
            )
        } else {
            None
        }
    } else {
        None
    }
}

fn finds_octal_escape(input: &[u8]) -> (r: bool)
    ensures
        r == has_octal_escape(input@),
{
    let mut i: usize = 0;
    while i < input.len()
        invariant
            i <= input@.len(),
            forall|k: int|
                0 <= k < i && k < input@.len() - 1 ==> !(#[trigger] input@[k] == '\\' as u8 && '0' as u8
                    <= input@[k + 1] <= '9' as u8),
        decreases input@.len() - i,
    {
        if input.len() - i >= 2 && input[i] == '\\' as u8 && '0' as u8 <= input[i + 1] && input[i
            + 1] <= '9' as u8 {
            return true;
        }
        i += 1;
    }
    false
}

fn finds_hardened_segment(input: &[u8]) -> (r: bool)
    ensures
        r == has_hardened_segment(input@),
{
    let n: usize = input.len();
    let mut i: usize = 0;
    while i < n
        invariant
            i <= n,
            n == input@.len(),
            forall|k: int|
                0 <= k < i ==> !(#[trigger] input@[k] == ':' as u8 || trails_a_segment(input@, k)),
        decreases n - i,
    {
        if input[i] == ':' as u8 || ((input[i] == '.' as u8 || input[i] == ' ' as u8) && (i + 1 == n
            || input[i + 1] == '/' as u8 || input[i + 1] == '\\' as u8)) {
            return true;
        }
        i += 1;
    }
    false
}

fn holds_byte(bytes: &[u8], b: u8) -> (r: bool)
    ensures
        r == bytes@.contains(b),
{
    let p = find_byte(bytes, b);
    if p < bytes.len() {
        assert(bytes@[p as int] == b);
    }
    p < bytes.len()
}

/// Why a divergence from the other engine is intended, where it is.
///
/// Another engine is a point of comparison, not an oracle: two of these exist
/// because it is wrong, three because it inherits Go's rune semantics where
/// SecLang is byte-oriented, and one because it adds hardening that the Core
/// Rule Set was not authored against.
pub fn expected_divergence(name: &str, input: &[u8], ours: &[u8], theirs: &[u8]) -> (r: Option<
    &'static str,
>)
    ensures
        (match r {
            Some(reason) => divergence_reason(name@, input@, ours@, theirs@) == Some(reason@),
            None => divergence_reason(name@, input@, ours@, theirs@) is None,
        }),
{
    if same_str(name, "lowercase") || same_str(name, "removeWhitespace") || same_str(
        name,
        "utf8toUnicode",
    ) {
        if utf8_text(input).is_none() {
            return Some(
                "reference decodes runes and substitutes U+FFFD for invalid UTF-8; Parapet stays byte-oriented",
            );
        }
    } else if same_str(name, "htmlEntityDecode") {
        let single: [u8; 1] = [0xa0];
        let double: [u8; 2] = [0xc2, 0xa0];
        assert(single@ =~= seq![0xa0u8]);
        assert(double@ =~= seq![0xc2u8, 0xa0u8]);
        if same_bytes(ours, single.as_slice()) && same_bytes(theirs, double.as_slice()) {
            return Some(
                "reference UTF-8 encodes the &nbsp; result; ModSecurity emits the single byte 0xa0",
            );
        }
    } else if same_str(name, "normalizePath") {
        let slashes: [u8; 2] = ['/' as u8, '/' as u8];
        assert(slashes@ =~= seq!['/' as u8, '/' as u8]);
        if same_bytes(theirs, slashes.as_slice()) {
            return Some(
                "reference bug: re-appends a trailing slash unconditionally, yielding \"//\"",
            );
        }
    } else if same_str(name, "normalizePathWin") {
        if finds_hardened_segment(input) {
            return Some("reference adds ADS/trailing-dot hardening beyond ModSecurity semantics");
        }
    } else if same_str(name, "jsDecode") {
        if holds_byte(theirs, 0) && finds_octal_escape(input) {
            return Some(
                "reference bug: octal escapes decode to NUL (digit buffer starts at the backslash)",
            );
        }
    }
    None
}

// ---------------------------------------------------------------------------
// Cases

/// One result of the other engine.
#[derive(Debug)]
pub struct ReferenceResult {
    /// The transformation, as SecLang names it.
    pub name: String,
    /// The input, in hexadecimal.
    pub input: String,
    /// The output, in hexadecimal.
    pub output: String,
    /// Why there is no output, where there is none.
    pub err: String,
}

/// The view of a [`ReferenceResult`].
#[verifier::ext_equal]
pub struct ReferenceView {
    pub name: Seq<char>,
    pub input: Seq<char>,
    pub output: Seq<char>,
    pub err: Seq<char>,
}

impl DeepView for ReferenceResult {
    type V = ReferenceView;

    open spec fn deep_view(&self) -> ReferenceView {
        ReferenceView {
            name: self.name@,
            input: self.input@,
            output: self.output@,
            err: self.err@,
        }
    }
}

/// What comparing one case says.
#[derive(Debug)]
pub enum Judgement {
    /// The other engine gave no output, or the transformation is unknown.
    Skipped,
    /// The input is not hexadecimal.
    BadInput,
    /// Both engines give the same.
    Agrees,
    /// They differ, and the difference is intended.
    Accepted(&'static str),
    /// They differ; with what this engine gives, in hexadecimal.
    Diverges(String),
}

/// The view of a [`Judgement`].
#[verifier::ext_equal]
pub enum JudgementView {
    Skipped,
    BadInput,
    Agrees,
    Accepted(Seq<char>),
    Diverges(Seq<char>),
}

impl DeepView for Judgement {
    type V = JudgementView;

    open spec fn deep_view(&self) -> JudgementView {
        match self {
            Judgement::Skipped => JudgementView::Skipped,
            Judgement::BadInput => JudgementView::BadInput,
            Judgement::Agrees => JudgementView::Agrees,
            Judgement::Accepted(reason) => JudgementView::Accepted(reason@),
            Judgement::Diverges(got) => JudgementView::Diverges(got@),
        }
    }
}

/// Bytes written in hexadecimal, or none where they cannot be read.
pub open spec fn hex_or_none(s: Seq<char>) -> Seq<u8> {
    match hex_bytes(s) {
        Some(bytes) => bytes,
        None => seq![],
    }
}

/// What comparing one case says.
pub open spec fn judged(case: ReferenceView) -> JudgementView {
    match transformation_named(case.name) {
        Some(kind) => if case.err.len() > 0 {
            JudgementView::Skipped
        } else {
            match hex_bytes(case.input) {
                None => JudgementView::BadInput,
                Some(input) => {
                    let ours = transformed(kind, input);
                    if hex_text(ours) == case.output {
                        JudgementView::Agrees
                    } else {
                        match divergence_reason(case.name, input, ours, hex_or_none(case.output)) {
                            Some(reason) => JudgementView::Accepted(reason),
                            None => JudgementView::Diverges(hex_text(ours)),
                        }
                    }
                },
            }
        },
        None => JudgementView::Skipped,
    }
}

/// Compare one case.
pub fn judge(case: &ReferenceResult) -> (r: Judgement)
    ensures
        r.deep_view() == judged(case.deep_view()),
{
    let kind = match Transformation::parse(case.name.as_str()) {
        Some(kind) => kind,
        None => {
            return Judgement::Skipped;
        },
    };
    let reason = chars_of(case.err.as_str());
    if reason.len() > 0 {
        return Judgement::Skipped;
    }
    let input = match from_hex(case.input.as_str()) {
        Some(input) => input,
        None => {
            return Judgement::BadInput;
        },
    };
    let ours = into_vec(kind.apply(input.as_slice()));
    let got = to_hex(ours.as_slice());
    if same_str(got.as_str(), case.output.as_str()) {
        return Judgement::Agrees;
    }
    let theirs = match from_hex(case.output.as_str()) {
        Some(theirs) => theirs,
        None => Vec::new(),
    };
    assert(theirs@ =~= hex_or_none(case.output@));
    match expected_divergence(
        case.name.as_str(),
        input.as_slice(),
        ours.as_slice(),
        theirs.as_slice(),
    ) {
        Some(reason) => Judgement::Accepted(reason),
        None => Judgement::Diverges(got),
    }
}

// ---------------------------------------------------------------------------
// Comparisons

/// A case in which the engines differ without a reason: the input, what this
/// engine gives and what the other gave.
#[derive(Debug)]
pub struct Divergence {
    pub input: String,
    pub got: String,
    pub want: String,
}

/// What comparing the cases of one transformation says.
#[derive(Debug)]
pub struct Row {
    /// The transformation.
    pub name: String,
    /// How many cases were compared.
    pub compared: usize,
    /// How many differ as intended.
    pub accepted: usize,
    /// Why they do.
    pub reason: Option<&'static str>,
    /// The cases that differ without a reason.
    pub diverged: Vec<Divergence>,
}

/// The view of a [`Row`].
#[verifier::ext_equal]
pub struct RowView {
    pub name: Seq<char>,
    pub compared: nat,
    pub accepted: nat,
    pub reason: Option<Seq<char>>,
    pub diverged: Seq<(Seq<char>, Seq<char>, Seq<char>)>,
}

impl DeepView for Row {
    type V = RowView;

    open spec fn deep_view(&self) -> RowView {
        RowView {
            name: self.name@,
            compared: self.compared as nat,
            accepted: self.accepted as nat,
            reason: match self.reason {
                Some(reason) => Some(reason@),
                None => None,
            },
            diverged: Seq::new(
                self.diverged@.len(),
                |i: int|
                    (self.diverged@[i].input@, self.diverged@[i].got@, self.diverged@[i].want@),
            ),
        }
    }
}

/// What comparing many cases says.
#[derive(Debug)]
pub struct Comparison {
    /// How many cases were compared.
    pub compared: usize,
    /// How many were skipped.
    pub skipped: usize,
    /// How many differ as intended.
    pub accepted: usize,
    /// How many differ without a reason.
    pub diverged: usize,
    /// The transformations compared, each once, in ascending order of their names.
    pub rows: Vec<Row>,
}

/// The view of a [`Comparison`].
#[verifier::ext_equal]
pub struct ComparisonView {
    pub compared: nat,
    pub skipped: nat,
    pub accepted: nat,
    pub diverged: nat,
    pub rows: Seq<RowView>,
}

impl View for Comparison {
    type V = ComparisonView;

    open spec fn view(&self) -> ComparisonView {
        ComparisonView {
            compared: self.compared as nat,
            skipped: self.skipped as nat,
            accepted: self.accepted as nat,
            diverged: self.diverged as nat,
            rows: self.rows.deep_view(),
        }
    }
}

/// A transformation of which nothing was compared yet.
pub open spec fn new_row(name: Seq<char>) -> RowView {
    RowView { name, compared: 0, accepted: 0, reason: None, diverged: seq![] }
}

/// A row with one more case.
pub open spec fn row_with(row: RowView, case: ReferenceView, judgement: JudgementView) -> RowView {
    let counted = RowView { compared: row.compared + 1, ..row };
    match judgement {
        JudgementView::Accepted(reason) => RowView {
            accepted: row.accepted + 1,
            reason: match row.reason {
                Some(first) => Some(first),
                None => Some(reason),
            },
            ..counted
        },
        JudgementView::Diverges(got) => RowView {
            diverged: row.diverged.push((case.input, got, case.output)),
            ..counted
        },
        _ => counted,
    }
}

/// Rows with one more case, in the row of its transformation or in a new one that
/// stands before those of later names.
pub open spec fn rows_with(
    rows: Seq<RowView>,
    case: ReferenceView,
    judgement: JudgementView,
) -> Seq<RowView>
    decreases rows.len(),
{
    if rows.len() == 0 || text_less(case.name, rows[0].name) {
        seq![row_with(new_row(case.name), case, judgement)] + rows
    } else if rows[0].name == case.name {
        seq![row_with(rows[0], case, judgement)] + rows.drop_first()
    } else {
        seq![rows[0]] + rows_with(rows.drop_first(), case, judgement)
    }
}

/// A comparison with one more case.
pub open spec fn comparison_with(
    c: ComparisonView,
    case: ReferenceView,
    judgement: JudgementView,
) -> ComparisonView {
    match judgement {
        JudgementView::Skipped => ComparisonView { skipped: c.skipped + 1, ..c },
        _ => ComparisonView {
            compared: c.compared + 1,
            skipped: c.skipped,
            accepted: if judgement is Accepted {
                c.accepted + 1
            } else {
                c.accepted
            },
            diverged: if judgement is Diverges {
                c.diverged + 1
            } else {
                c.diverged
            },
            rows: rows_with(c.rows, case, judgement),
        },
    }
}

/// What comparing some cases says, or the first case that cannot be read.
pub open spec fn comparison(cases: Seq<ReferenceView>) -> Result<ComparisonView, Seq<char>>
    decreases cases.len(),
{
    if cases.len() == 0 {
        Ok(ComparisonView { compared: 0, skipped: 0, accepted: 0, diverged: 0, rows: seq![] })
    } else {
        match comparison(cases.drop_last()) {
            Err(e) => Err(e),
            Ok(c) => {
                let case = cases.last();
                match judged(case) {
                    JudgementView::BadInput => Err("bad input hex for "@ + case.name),
                    judgement => Ok(comparison_with(c, case, judgement)),
                }
            },
        }
    }
}

fn count_case(row: &mut Row, case: &ReferenceResult, judgement: &Judgement)
    requires
        old(row).compared < usize::MAX,
        old(row).accepted < usize::MAX,
    ensures
        final(row).deep_view() == row_with(
            old(row).deep_view(),
            case.deep_view(),
            judgement.deep_view(),
        ),
{
    let ghost start = row.deep_view();
    row.compared += 1;
    match judgement {
        Judgement::Accepted(reason) => {
            row.accepted += 1;
            if row.reason.is_none() {
                row.reason = Some(*reason);
            }
        },
        Judgement::Diverges(got) => {
            row.diverged.push(
                Divergence {
                    input: case.input.clone(),
                    got: got.clone(),
                    want: case.output.clone(),
                },
            );
            assert(row.deep_view().diverged =~= start.diverged.push(
                (case.input@, got@, case.output@),
            ));
        },
        _ => {},
    }
    assert(row.deep_view() =~= row_with(start, case.deep_view(), judgement.deep_view()));
}

/// Whether no count in some rows is above a limit.
pub open spec fn counts_within(rows: Seq<RowView>, limit: nat) -> bool {
    forall|i: int|
        0 <= i < rows.len() ==> (#[trigger] rows[i]).compared <= limit && rows[i].accepted <= limit
}

fn note_case(rows: &mut Vec<Row>, case: &ReferenceResult, judgement: &Judgement)
    requires
        counts_within(old(rows).deep_view(), (usize::MAX - 1) as nat),
    ensures
        final(rows).deep_view() == rows_with(
            old(rows).deep_view(),
            case.deep_view(),
            judgement.deep_view(),
        ),
{
    let ghost all = rows.deep_view();
    let ghost c = case.deep_view();
    let ghost j = judgement.deep_view();
    let mut i: usize = 0;
    assert(all.skip(0) =~= all);
    assert(all.take(0) + rows_with(all, c, j) =~= rows_with(all, c, j));
    while i < rows.len() && !is_less(case.name.as_str(), rows[i].name.as_str())
        invariant
            i <= rows@.len(),
            rows.deep_view() == all,
            all == old(rows).deep_view(),
            c == case.deep_view(),
            j == judgement.deep_view(),
            counts_within(all, (usize::MAX - 1) as nat),
            rows_with(all, c, j) == all.take(i as int) + rows_with(all.skip(i as int), c, j),
        decreases rows@.len() - i,
    {
        let ghost rest = all.skip(i as int);
        assert(rest[0] == rows@[i as int].deep_view());
        assert(rest.drop_first() =~= all.skip(i + 1));
        if same_str(rows[i].name.as_str(), case.name.as_str()) {
            assert(all[i as int] == rows@[i as int].deep_view());
            count_case(&mut rows[i], case, judgement);
            assert(rows.deep_view() =~= all.take(i as int) + (seq![row_with(rest[0], c, j)]
                + rest.drop_first()));
            return;
        }
        assert(all.take(i as int) + (seq![rest[0]] + rows_with(rest.drop_first(), c, j))
            =~= all.take(i + 1) + rows_with(all.skip(i + 1), c, j));
        i += 1;
    }
    let mut row = Row {
        name: case.name.clone(),
        compared: 0,
        accepted: 0,
        reason: None,
        diverged: Vec::new(),
    };
    assert(row.deep_view() =~= new_row(case.name@));
    count_case(&mut row, case, judgement);
    let ghost shown = row.deep_view();
    let ghost rest = all.skip(i as int);
    if i < rows.len() {
        assert(rest[0] == rows@[i as int].deep_view());
    }
    rows.insert(i, row);
    assert(rows.deep_view() =~= all.take(i as int) + (seq![shown] + rest));
}

proof fn lemma_rows_within(
    rows: Seq<RowView>,
    case: ReferenceView,
    judgement: JudgementView,
    limit: nat,
)
    requires
        counts_within(rows, limit),
    ensures
        counts_within(rows_with(rows, case, judgement), limit + 1),
    decreases rows.len(),
{
    let after = rows_with(rows, case, judgement);
    if rows.len() > 0 {
        let rest = rows.drop_first();
        assert forall|i: int| 0 <= i < rest.len() implies (#[trigger] rest[i]).compared <= limit
            && rest[i].accepted <= limit by {
            assert(rest[i] == rows[i + 1]);
        }
        lemma_rows_within(rest, case, judgement, limit);
        let more = rows_with(rest, case, judgement);
        assert forall|i: int| 0 <= i < after.len() implies (#[trigger] after[i]).compared <= limit
            + 1 && after[i].accepted <= limit + 1 by {
            assert(rows[0].compared <= limit && rows[0].accepted <= limit);
            if i > 0 {
                if text_less(case.name, rows[0].name) {
                    assert(after[i] == rows[i - 1]);
                } else if rows[0].name == case.name {
                    assert(after[i] == rest[i - 1]);
                } else {
                    assert(after[i] == more[i - 1]);
                }
            }
        }
    }
}

proof fn lemma_comparison_within(cases: Seq<ReferenceView>)
    requires
        comparison(cases) is Ok,
    ensures
        counts_within(comparison(cases)->Ok_0.rows, cases.len()),
        comparison(cases)->Ok_0.compared + comparison(cases)->Ok_0.skipped == cases.len(),
        comparison(cases)->Ok_0.accepted + comparison(cases)->Ok_0.diverged <= comparison(
            cases,
        )->Ok_0.compared,
    decreases cases.len(),
{
    if cases.len() > 0 {
        lemma_comparison_within(cases.drop_last());
        let before = comparison(cases.drop_last())->Ok_0;
        lemma_rows_within(
            before.rows,
            cases.last(),
            judged(cases.last()),
            cases.drop_last().len(),
        );
        assert(counts_within(before.rows, cases.len())) by {
            assert forall|i: int| 0 <= i < before.rows.len() implies (
            #[trigger] before.rows[i]).compared <= cases.len() && before.rows[i].accepted
                <= cases.len() by {}
        }
    }
}

/// Compare this engine with the results of the other.
pub fn compare(cases: &Vec<ReferenceResult>) -> (r: Result<Comparison, String>)
    ensures
        (match r {
            Ok(c) => comparison(cases.deep_view()) == Ok::<ComparisonView, Seq<char>>(c@),
            Err(e) => comparison(cases.deep_view()) == Err::<ComparisonView, Seq<char>>(e@),
        }),
{
    let ghost all = cases.deep_view();
    let mut c = Comparison { compared: 0, skipped: 0, accepted: 0, diverged: 0, rows: Vec::new() };
    let mut i: usize = 0;
    assert(all.take(0) =~= seq![]);
    assert(c.rows.deep_view() =~= seq![]);
    while i < cases.len()
        invariant
            i <= cases@.len(),
            all == cases.deep_view(),
            comparison(all.take(i as int)) == Ok::<ComparisonView, Seq<char>>(c@),
        decreases cases@.len() - i,
    {
        let ghost before = c@;
        proof {
            lemma_comparison_within(all.take(i as int));
            assert(all.take(i + 1).drop_last() =~= all.take(i as int));
            assert(all.take(i + 1).last() == cases@[i as int].deep_view());
            assert(i < usize::MAX);
            assert(counts_within(c.rows.deep_view(), (usize::MAX - 1) as nat));
        }
        let case = &cases[i];
        let judgement = judge(case);
        match &judgement {
            Judgement::BadInput => {
                proof {
                    lemma_comparison_error(all, i + 1);
                }
                return Err(joined("bad input hex for ", case.name.as_str()));
            },
            Judgement::Skipped => {
                c.skipped += 1;
            },
            _ => {
                c.compared += 1;
                if let Judgement::Accepted(_) = &judgement {
                    c.accepted += 1;
                }
                if let Judgement::Diverges(_) = &judgement {
                    c.diverged += 1;
                }
                note_case(&mut c.rows, case, &judgement);
            },
        }
        assert(c@ =~= comparison_with(before, case.deep_view(), judgement.deep_view()));
        i += 1;
    }
    assert(all.take(i as int) =~= all);
    Ok(c)
}

proof fn lemma_comparison_error(cases: Seq<ReferenceView>, n: int)
    requires
        0 <= n <= cases.len(),
        comparison(cases.take(n)) is Err,
    ensures
        comparison(cases) == comparison(cases.take(n)),
    decreases cases.len(),
{
    if n == cases.len() {
        assert(cases.take(n) =~= cases);
    } else {
        assert(cases.drop_last().take(n) =~= cases.take(n));
        lemma_comparison_error(cases.drop_last(), n);
    }
}

// ---------------------------------------------------------------------------
// Laws

proof fn lemma_hex_concat(a: Seq<char>, b: Seq<char>)
    requires
        a.len() % 2 == 0,
        hex_bytes(a) is Some,
        hex_bytes(b) is Some,
    ensures
        hex_bytes(a + b) == Some(hex_bytes(a)->0 + hex_bytes(b)->0),
    decreases a.len(),
{
    if a.len() == 0 {
        assert(a + b =~= b);
        assert(hex_bytes(a)->0 + hex_bytes(b)->0 =~= hex_bytes(b)->0);
    } else {
        assert((a + b).skip(2) =~= a.skip(2) + b);
        lemma_hex_concat(a.skip(2), b);
        let first = hex_byte(a[0], a[1])->0;
        assert(seq![first] + (hex_bytes(a.skip(2))->0 + hex_bytes(b)->0) =~= hex_bytes(a)->0
            + hex_bytes(b)->0);
    }
}

/// Bytes written in hexadecimal are read back as they were.
pub proof fn hexadecimal_reads_back(bytes: Seq<u8>)
    ensures
        hex_bytes(hex_text(bytes)) == Some(bytes),
        hex_text(bytes).len() == 2 * bytes.len(),
    decreases bytes.len(),
{
    if bytes.len() > 0 {
        hexadecimal_reads_back(bytes.drop_last());
        let b = bytes.last();
        let pair = seq![hex_digit((b / 16) as nat) as char, hex_digit((b % 16) as nat) as char];
        assert(pair.skip(2) =~= seq![]);
        assert(hex_byte(pair[0], pair[1]) == Some(b));
        assert(hex_bytes(pair.skip(2)) == Some(Seq::<u8>::empty()));
        assert(hex_bytes(pair)->0 =~= seq![b]);
        lemma_hex_concat(hex_text(bytes.drop_last()), pair);
        assert(bytes.drop_last() + seq![b] =~= bytes);
    }
}

/// No case is lost: every one is compared or skipped, and of those compared no
/// more differ than there are.
pub proof fn every_case_is_compared_or_skipped(cases: Seq<ReferenceView>)
    requires
        comparison(cases) is Ok,
    ensures
        comparison(cases)->Ok_0.compared + comparison(cases)->Ok_0.skipped == cases.len(),
        comparison(cases)->Ok_0.accepted + comparison(cases)->Ok_0.diverged <= comparison(
            cases,
        )->Ok_0.compared,
{
    lemma_comparison_within(cases);
}

/// No transformation is exempt as a whole: of each there is a divergence that no
/// reason explains.
pub proof fn no_transformation_is_exempt(name: Seq<char>)
    ensures
        exists|input: Seq<u8>, ours: Seq<u8>, theirs: Seq<u8>|
            ours != theirs && #[trigger] divergence_reason(name, input, ours, theirs) is None,
{
    let input = Seq::<u8>::empty();
    let theirs = seq!['a' as u8];
    assert(valid_utf8(input));
    assert(theirs[0] == 'a' as u8);
    assert(input != theirs);
    assert(divergence_reason(name, input, input, theirs) is None);
}

/// A divergence without a reason is never accepted: only what
/// `divergence_reason` explains is.
pub proof fn only_explained_divergences_are_accepted(case: ReferenceView)
    ensures
        judged(case) matches JudgementView::Accepted(reason) ==> exists|
            input: Seq<u8>,
            ours: Seq<u8>,
            theirs: Seq<u8>,
        | #[trigger]
            divergence_reason(case.name, input, ours, theirs) == Some(reason) && hex_bytes(
                case.input,
            ) == Some(input),
{
    if let JudgementView::Accepted(reason) = judged(case) {
        let input = hex_bytes(case.input)->0;
        let ours = transformed(transformation_named(case.name)->0, input);
        assert(divergence_reason(case.name, input, ours, hex_or_none(case.output)) == Some(
            reason,
        ));
    }
}

/// Whether rows stand in ascending order of their names, each name once.
pub open spec fn rows_ascend(rows: Seq<RowView>) -> bool {
    forall|i: int, j: int|
        0 <= i < j < rows.len() ==> text_less((#[trigger] rows[i]).name, (#[trigger] rows[j]).name)
}

proof fn lemma_rows_ascend(rows: Seq<RowView>, case: ReferenceView, judgement: JudgementView)
    requires
        rows_ascend(rows),
    ensures
        ({
            let after = rows_with(rows, case, judgement);
            &&& rows_ascend(after)
            &&& after.len() > 0
            &&& after[0].name == case.name || (rows.len() > 0 && after[0].name == rows[0].name)
        }),
    decreases rows.len(),
{
    let after = rows_with(rows, case, judgement);
    if rows.len() > 0 {
        let rest = rows.drop_first();
        let more = rows_with(rest, case, judgement);
        assert(rows_ascend(rest)) by {
            assert forall|i: int, j: int| 0 <= i < j < rest.len() implies text_less(
                (#[trigger] rest[i]).name,
                (#[trigger] rest[j]).name,
            ) by {
                assert(rest[i] == rows[i + 1] && rest[j] == rows[j + 1]);
            }
        }
        lemma_rows_ascend(rest, case, judgement);
        texts_are_ordered(case.name, rows[0].name);
        assert forall|i: int, j: int| 0 <= i < j < after.len() implies text_less(
            (#[trigger] after[i]).name,
            (#[trigger] after[j]).name,
        ) by {
            if text_less(case.name, rows[0].name) {
                assert(after[j] == rows[j - 1]);
                if i > 0 {
                    assert(after[i] == rows[i - 1]);
                } else if j > 1 {
                    text_order_is_transitive(case.name, rows[0].name, rows[j - 1].name);
                }
            } else if rows[0].name == case.name {
                assert(after[j] == rest[j - 1] && rest[j - 1] == rows[j]);
                if i > 0 {
                    assert(after[i] == rest[i - 1] && rest[i - 1] == rows[i]);
                } else {
                    assert(text_less(rows[0].name, rows[j].name));
                }
            } else {
                assert(after[j] == more[j - 1]);
                if i > 0 {
                    assert(after[i] == more[i - 1]);
                } else {
                    if rest.len() > 0 {
                        assert(rest[0] == rows[1]);
                        assert(text_less(rows[0].name, rows[1].name));
                    }
                    assert(text_less(rows[0].name, more[0].name));
                    if j > 1 {
                        text_order_is_transitive(rows[0].name, more[0].name, more[j - 1].name);
                    }
                }
            }
        }
    }
}

/// The transformations of a comparison are listed by name, each once.
pub proof fn transformations_are_listed_by_name(cases: Seq<ReferenceView>)
    requires
        comparison(cases) is Ok,
    ensures
        rows_ascend(comparison(cases)->Ok_0.rows),
    decreases cases.len(),
{
    if cases.len() > 0 {
        transformations_are_listed_by_name(cases.drop_last());
        let before = comparison(cases.drop_last())->Ok_0;
        lemma_rows_ascend(before.rows, cases.last(), judged(cases.last()));
    }
}

} // verus!

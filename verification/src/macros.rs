//! `%{...}` macro expansion in operator operands and action arguments.
//!
//! The Core Rule Set writes operands like
//! `@ge %{tx.inbound_anomaly_score_threshold}` and
//! `!@within %{tx.allowed_methods}`, so an operand is a template resolved
//! against transaction state at evaluation time, not a constant.

use crate::bytes::bytes_of;
use crate::bytes::lemma_encode_nonempty;
use crate::bytes::lemma_encode_utf8_concat;
use crate::text::before;
use crate::text::chars_of;
use crate::text::find_char;
use crate::text::from;
use crate::text::lemma_position;
use crate::text::position;
use crate::text::push_bytes;
use crate::text::string_of;
use std::borrow::Cow;
use vstd::prelude::*;
use vstd::utf8::encode_utf8;

verus! {

/// What each name stands for.
pub type Values = spec_fn(Seq<char>) -> Option<Seq<u8>>;

/// Supplies values for `%{...}` references.
pub trait MacroContext {
    /// What each name stands for. Of a context that says nothing of its own,
    /// nothing is known.
    closed spec fn values(&self) -> Values {
        arbitrary()
    }

    /// Look up a macro by name, case-insensitively as SecLang is.
    ///
    /// An unknown name expands to nothing, matching SecLang, where an unset
    /// variable is empty rather than an error.
    fn lookup(&self, name: &str) -> (r: Option<Cow<'_, [u8]>>)
        ensures
            (match r {
                Some(value) => self.values()(name@) == Some(value@),
                None => self.values()(name@) is None,
            }),
    ;
}

/// A [`MacroContext`] with nothing in it. Every lookup expands to empty.
pub struct EmptyContext;

impl MacroContext for EmptyContext {
    open spec fn values(&self) -> Values {
        |name: Seq<char>| None
    }

    fn lookup(&self, _name: &str) -> (r: Option<Cow<'_, [u8]>>) {
        None
    }
}

#[derive(Debug, PartialEq)]
enum Part {
    Literal(Vec<u8>),
    Macro(String),
}

/// The view of one piece of a [`Template`].
#[verifier::ext_equal]
pub enum PartView {
    Literal(Seq<u8>),
    Macro(Seq<char>),
}

impl Part {
    pub closed spec fn shown(&self) -> PartView {
        match self {
            Part::Literal(b) => PartView::Literal(b@),
            Part::Macro(s) => PartView::Macro(s@),
        }
    }
}

impl Clone for Part {
    fn clone(&self) -> (r: Self)
        ensures
            r.shown() == self.shown(),
    {
        match self {
            Part::Literal(b) => {
                let copy = b.clone();
                assert(copy@ =~= b@);
                Part::Literal(copy)
            },
            Part::Macro(s) => Part::Macro(s.clone()),
        }
    }
}

/// An operand or argument that may contain `%{...}` references.
#[derive(Debug, PartialEq)]
pub struct Template {
    parts: Vec<Part>,
}

impl View for Template {
    type V = Seq<PartView>;

    closed spec fn view(&self) -> Seq<PartView> {
        Seq::new(self.parts@.len(), |i: int| self.parts@[i].shown())
    }
}

impl DeepView for Template {
    type V = Seq<PartView>;

    open spec fn deep_view(&self) -> Seq<PartView> {
        self@
    }
}

impl Clone for Template {
    fn clone(&self) -> (r: Self)
        ensures
            r@ == self@,
    {
        let mut parts: Vec<Part> = Vec::new();
        let mut i: usize = 0;
        while i < self.parts.len()
            invariant
                i <= self.parts@.len(),
                parts@.len() == i,
                forall|j: int| 0 <= j < i ==> (#[trigger] parts@[j]).shown() == self.parts@[j].shown(),
            decreases self.parts@.len() - i,
        {
            parts.push(self.parts[i].clone());
            i += 1;
        }
        let r = Template { parts };
        assert(r@ =~= self@);
        r
    }
}

/// Literal text as a piece, where there is any.
pub open spec fn literal_part(literal: Seq<char>) -> Seq<PartView> {
    if literal.len() == 0 {
        seq![]
    } else {
        seq![PartView::Literal(encode_utf8(literal))]
    }
}

/// Whether a reference opens at the front of `s` and is closed further on.
pub open spec fn starts_macro(s: Seq<char>) -> bool {
    s.len() >= 2 && s[0] == '%' && s[1] == '{' && position(s.skip(2), '}') < s.skip(2).len()
}

/// The pieces of a template's source, with `literal` gathered in front of it.
pub open spec fn parts_from(s: Seq<char>, literal: Seq<char>) -> Seq<PartView>
    decreases s.len(),
{
    if s.len() == 0 {
        literal_part(literal)
    } else if starts_macro(s) {
        proof {
            lemma_position(s.skip(2), '}');
        }
        let end = position(s.skip(2), '}');
        literal_part(literal) + seq![PartView::Macro(s.skip(2).take(end))] + parts_from(
            s.skip(end + 3),
            seq![],
        )
    } else {
        parts_from(s.skip(1), literal.push(s[0]))
    }
}

/// The pieces of a template's source.
pub open spec fn template_of(source: Seq<char>) -> Seq<PartView> {
    parts_from(source, seq![])
}

/// Whether no piece is a reference.
pub open spec fn all_literal(parts: Seq<PartView>) -> bool {
    forall|i: int| 0 <= i < parts.len() ==> (#[trigger] parts[i]) is Literal
}

/// The bytes that one piece expands to. A name without a value expands to
/// nothing.
pub open spec fn expanded_part(part: PartView, values: Values) -> Seq<u8> {
    match part {
        PartView::Literal(bytes) => bytes,
        PartView::Macro(name) => match values(name) {
            Some(value) => value,
            None => seq![],
        },
    }
}

/// The bytes that a template expands to: its pieces in order.
pub open spec fn expanded(parts: Seq<PartView>, values: Values) -> Seq<u8>
    decreases parts.len(),
{
    if parts.len() == 0 {
        seq![]
    } else {
        expanded_part(parts[0], values) + expanded(parts.drop_first(), values)
    }
}

impl Template {
    /// Parse a template. An unterminated `%{` is treated as literal text,
    /// since refusing would reject rules other engines accept.
    pub fn parse(source: &str) -> (r: Self)
        ensures
            r@ == template_of(source@),
    {
        let chars = chars_of(source);
        let s = chars.as_slice();
        let mut t = Template { parts: Vec::new() };
        let mut literal = String::new();
        let mut i: usize = 0;
        assert(s@.skip(0) =~= s@);
        assert(literal@ =~= seq![]);
        assert(t@ + template_of(s@) =~= template_of(s@));
        while i < s.len()
            invariant
                i <= s@.len(),
                template_of(s@) == t@ + parts_from(s@.skip(i as int), literal@),
            decreases s@.len() - i,
        {
            let rest = from(s, i);
            let ghost done = t@;
            let ghost gathered = literal@;
            if rest.len() >= 2 && rest[0] == '%' && rest[1] == '{' {
                let tail = from(rest, 2);
                let end = find_char(tail, '}');
                if end < tail.len() {
                    let name = before(tail, end);
                    t.push_literal(literal);
                    t.push_macro(name);
                    literal = String::new();
                    i += end + 3;
                    proof {
                        assert(literal@ =~= seq![]);
                        assert(rest@.skip(end + 3) =~= s@.skip(i as int));
                        let more = parts_from(s@.skip(i as int), seq![]);
                        assert(done + (literal_part(gathered) + seq![PartView::Macro(name@)] + more)
                            =~= t@ + more);
                    }
                    continue;
                }
            }
            assert(rest@.skip(1) =~= s@.skip(i + 1));
            literal.push(s[i]);
            i += 1;
        }
        t.push_literal(literal);
        t
    }

    fn push_literal(&mut self, literal: String)
        ensures
            final(self)@ == old(self)@ + literal_part(literal@),
    {
        let ghost start = self@;
        let bytes = bytes_of(literal.as_str());
        proof {
            lemma_encode_nonempty(literal@);
        }
        if bytes.len() > 0 {
            self.parts.push(Part::Literal(bytes));
        }
        assert(self@ =~= start + literal_part(literal@));
    }

    fn push_macro(&mut self, name: &[char])
        ensures
            final(self)@ == old(self)@ + seq![PartView::Macro(name@)],
    {
        let ghost start = self@;
        self.parts.push(Part::Macro(string_of(name)));
        assert(self@ =~= start + seq![PartView::Macro(name@)]);
    }

    /// Whether the template is a constant, so expansion can be skipped.
    pub fn is_literal(&self) -> (r: bool)
        ensures
            r == all_literal(self@),
    {
        let mut i: usize = 0;
        while i < self.parts.len()
            invariant
                i <= self.parts@.len(),
                forall|j: int| 0 <= j < i ==> (#[trigger] self@[j]) is Literal,
            decreases self.parts@.len() - i,
        {
            if let Part::Macro(_) = &self.parts[i] {
                assert(self@[i as int] is Macro);
                return false;
            }
            i += 1;
        }
        true
    }

    /// Expand against a context. A template that is one literal, or empty, is
    /// borrowed rather than copied.
    pub fn expand<C: MacroContext + ?Sized>(&self, ctx: &C) -> (r: Cow<'_, [u8]>)
        ensures
            r@ == expanded(self@, ctx.values()),
            r is Borrowed <==> self@.len() == 0 || (self@.len() == 1 && self@[0] is Literal),
    {
        let ghost all = self@;
        let ghost values: Values = ctx.values();
        if self.parts.len() == 1 {
            if let Part::Literal(only) = &self.parts[0] {
                proof {
                    reveal_with_fuel(expanded, 2);
                    assert(all[0] == PartView::Literal(only@));
                    assert(only@ + seq![] =~= only@);
                }
                return Cow::Borrowed(only.as_slice());
            }
        }
        if self.parts.len() == 0 {
            return Cow::Borrowed(&[]);
        }
        let mut out: Vec<u8> = Vec::new();
        let mut i: usize = 0;
        assert(all.skip(0) =~= all);
        assert(out@ + expanded(all, values) =~= expanded(all, values));
        while i < self.parts.len()
            invariant
                i <= self.parts@.len(),
                all == self@,
                values == ctx.values(),
                out@ + expanded(all.skip(i as int), values) == expanded(all, values),
            decreases self.parts@.len() - i,
        {
            let ghost start = out@;
            assert(all.skip(i as int).drop_first() =~= all.skip(i + 1));
            assert(all.skip(i as int)[0] == self.parts@[i as int].shown());
            match &self.parts[i] {
                Part::Literal(bytes) => push_bytes(&mut out, bytes.as_slice()),
                Part::Macro(name) => {
                    if let Some(value) = ctx.lookup(name.as_str()) {
                        push_cow(&mut out, &value);
                    } else {
                        assert(out@ =~= start + seq![]);
                    }
                },
            }
            assert(out@ == start + expanded_part(all[i as int], values));
            assert(start + (expanded_part(all[i as int], values) + expanded(all.skip(i + 1), values))
                =~= out@ + expanded(all.skip(i + 1), values));
            i += 1;
        }
        assert(out@ + Seq::<u8>::empty() =~= out@);
        Cow::Owned(out)
    }
}

/// Append the bytes of a borrowed or owned value.
pub fn push_cow(out: &mut Vec<u8>, value: &Cow<'_, [u8]>)
    ensures
        final(out)@ == old(out)@ + value@,
{
    match value {
        Cow::Borrowed(b) => push_bytes(out, b),
        Cow::Owned(v) => push_bytes(out, v.as_slice()),
    }
}

// ---------------------------------------------------------------------------
// Laws

/// The source that a piece was written as.
pub open spec fn written_part(part: PartView) -> Seq<u8> {
    match part {
        PartView::Literal(bytes) => bytes,
        PartView::Macro(name) => encode_utf8(seq!['%', '{'] + name + seq!['}']),
    }
}

/// The source that a list of pieces was written as.
pub open spec fn written(parts: Seq<PartView>) -> Seq<u8>
    decreases parts.len(),
{
    if parts.len() == 0 {
        seq![]
    } else {
        written_part(parts[0]) + written(parts.drop_first())
    }
}

proof fn lemma_written_concat(a: Seq<PartView>, b: Seq<PartView>)
    ensures
        written(a + b) == written(a) + written(b),
    decreases a.len(),
{
    if a.len() == 0 {
        assert(a + b =~= b);
        assert(written(a) + written(b) =~= written(b));
    } else {
        assert((a + b).drop_first() =~= a.drop_first() + b);
        lemma_written_concat(a.drop_first(), b);
        assert(written(a + b) =~= written(a) + written(b));
    }
}

proof fn lemma_written_one(p: PartView)
    ensures
        written(seq![p]) == written_part(p),
{
    reveal_with_fuel(written, 2);
    assert(seq![p].drop_first() =~= seq![]);
    assert(written_part(p) + seq![] =~= written_part(p));
}

proof fn lemma_written_literal(literal: Seq<char>)
    ensures
        written(literal_part(literal)) == encode_utf8(literal),
{
    if literal.len() > 0 {
        lemma_written_one(PartView::Literal(encode_utf8(literal)));
    }
}

proof fn lemma_written_source(s: Seq<char>, literal: Seq<char>)
    ensures
        written(parts_from(s, literal)) == encode_utf8(literal + s),
    decreases s.len(),
{
    if s.len() == 0 {
        assert(literal + s =~= literal);
        lemma_written_literal(literal);
    } else if starts_macro(s) {
        lemma_position(s.skip(2), '}');
        let end = position(s.skip(2), '}');
        let name = s.skip(2).take(end);
        let rest = s.skip(end + 3);
        let reference = seq!['%', '{'] + name + seq!['}'];
        lemma_written_source(rest, seq![]);
        assert(Seq::<char>::empty() + rest =~= rest);
        lemma_written_literal(literal);
        lemma_written_one(PartView::Macro(name));
        lemma_written_concat(
            literal_part(literal) + seq![PartView::Macro(name)],
            parts_from(rest, seq![]),
        );
        lemma_written_concat(literal_part(literal), seq![PartView::Macro(name)]);
        assert(literal + s =~= literal + reference + rest);
        lemma_encode_utf8_concat(literal + reference, rest);
        lemma_encode_utf8_concat(literal, reference);
    } else {
        lemma_written_source(s.skip(1), literal.push(s[0]));
        assert(literal.push(s[0]) + s.skip(1) =~= literal + s);
    }
}

/// Parsing loses nothing: the pieces, written out again, are the source.
pub proof fn template_pieces_write_the_source(source: Seq<char>)
    ensures
        written(template_of(source)) == encode_utf8(source),
{
    lemma_written_source(source, seq![]);
    assert(Seq::<char>::empty() + source =~= source);
}

proof fn lemma_literal_expansion(parts: Seq<PartView>, values: Values)
    requires
        all_literal(parts),
    ensures
        expanded(parts, values) == written(parts),
    decreases parts.len(),
{
    if parts.len() > 0 {
        assert(parts[0] is Literal);
        assert forall|i: int| 0 <= i < parts.drop_first().len() implies (
        #[trigger] parts.drop_first()[i]) is Literal by {
            assert(parts[i + 1] is Literal);
        }
        lemma_literal_expansion(parts.drop_first(), values);
    }
}

/// A template without references expands to its own source, whatever the
/// context holds.
pub proof fn constant_template_expands_to_its_source(source: Seq<char>, values: Values)
    requires
        all_literal(template_of(source)),
    ensures
        expanded(template_of(source), values) == encode_utf8(source),
{
    template_pieces_write_the_source(source);
    lemma_literal_expansion(template_of(source), values);
}

} // verus!

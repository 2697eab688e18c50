//! Transaction variables and how a target resolves against them.
//!
//! SecLang collections are ordered and may hold duplicate names: a query
//! string can repeat a parameter, and a rule has to see every occurrence.
//! Resolution therefore yields `(name, value)` pairs in order rather than a
//! map lookup, which is also what `MATCHED_VAR_NAME` reports.

use crate::bytes::bytes_of;
use crate::bytes::utf8_text;
use crate::macros::MacroContext;
use crate::macros::Values;
use crate::pattern::regex_finds;
use crate::pattern::regex_text;
use crate::pattern::text_is_match;
use crate::rule::Collection;
use crate::rule::SelectorView;
use crate::rule::TargetView;
use crate::text::before;
use crate::text::chars_of;
use crate::text::decimal;
use crate::text::decimal_int;
use crate::text::decimal_reads_back;
use crate::text::eq_ignore_case_str;
use crate::text::from;
use crate::text::is_white;
use crate::text::joined3;
use crate::text::lemma_decimal_is_plain;
use crate::text::lower;
use crate::text::parse_signed;
use crate::text::same;
use crate::text::same_chars;
use crate::text::same_ignoring_case;
use crate::text::signed_number;
use crate::text::string_of;
use crate::text::to_lower;
use crate::text::trim;
use crate::text::trimmed;
use crate::text::write_decimal;
use std::borrow::Cow;
use vstd::prelude::*;
use vstd::slice::slice_to_vec;
use vstd::utf8::decode_utf8;
use vstd::utf8::encode_utf8;
use vstd::utf8::encode_utf8_decode_utf8;
use vstd::utf8::encode_utf8_valid_utf8;
use vstd::utf8::valid_utf8;

verus! {

// ---------------------------------------------------------------------------
// Targets and values

/// A target whose member-selector is compiled, ready to resolve without any
/// per-request work.
///
/// The parsed [`crate::rule::Target`] keeps its selector as a string so the
/// rule set stays serialisable; compilation turns it into this, where a regex
/// selector is a compiled automaton rather than a pattern to rebuild on every
/// resolution. A rule set with many regex selectors resolves thousands of
/// values per request, and recompiling the selector for each one would be the
/// dominant cost of inspection.
#[derive(Debug)]
pub struct CompiledTarget {
    /// The collection to read.
    pub collection: Collection,
    /// Which members to keep, if narrowed.
    pub selector: Option<CompiledSelector>,
    /// A leading `!`: remove these members from the result.
    pub exclusion: bool,
    /// A leading `&`: inspect the member count, not the values.
    pub count: bool,
}

impl DeepView for CompiledTarget {
    type V = TargetView;

    open spec fn deep_view(&self) -> TargetView {
        TargetView {
            collection: self.collection,
            selector: self.selector.deep_view(),
            exclusion: self.exclusion,
            count: self.count,
        }
    }
}

/// A member-selector, compiled.
#[derive(Debug)]
pub enum CompiledSelector {
    /// `ARGS:username`, an exact member name.
    Name(String),
    /// `REQUEST_HEADERS:/^X-/`, compiled once.
    Regex(regex::Regex),
    /// `XML:/*`, an XPath expression, kept as authored.
    XPath(String),
}

impl DeepView for CompiledSelector {
    type V = SelectorView;

    open spec fn deep_view(&self) -> SelectorView {
        match self {
            CompiledSelector::Name(s) => SelectorView::Name(s@),
            CompiledSelector::Regex(re) => SelectorView::Regex(regex_text(*re)),
            CompiledSelector::XPath(s) => SelectorView::XPath(s@),
        }
    }
}

/// One resolved member of a collection.
///
/// Borrows its bytes from the transaction's variables. Every rule resolves its
/// targets, so with hundreds of rules and a handful of arguments a cloning
/// resolver would copy tens of thousands of small buffers per request. Only the
/// value that actually matches is copied, once, by the caller.
#[derive(Debug, PartialEq, Eq)]
pub struct Value<'a> {
    /// The fully qualified name, such as `ARGS:id`, as `MATCHED_VAR_NAME`
    /// reports it. Built for qualified members, borrowed for scalars.
    pub name: Cow<'a, str>,
    /// The member's value. Borrowed for stored variables, owned only for
    /// computed ones such as `&ARGS` counts and `*_COMBINED_SIZE`.
    pub value: Cow<'a, [u8]>,
}

/// The view of a [`Value`].
#[verifier::ext_equal]
pub struct ValueView {
    pub name: Seq<char>,
    pub value: Seq<u8>,
}

impl<'a> DeepView for Value<'a> {
    type V = ValueView;

    open spec fn deep_view(&self) -> ValueView {
        ValueView { name: self.name@, value: self.value@ }
    }
}

impl<'a> Clone for Value<'a> {
    fn clone(&self) -> (r: Self)
        ensures
            r.deep_view() == self.deep_view(),
    {
        let name: Cow<'a, str> = match &self.name {
            Cow::Borrowed(s) => Cow::Borrowed(*s),
            Cow::Owned(s) => Cow::Owned(s.clone()),
        };
        let value: Cow<'a, [u8]> = match &self.value {
            Cow::Borrowed(b) => Cow::Borrowed(*b),
            Cow::Owned(v) => Cow::Owned(slice_to_vec(v.as_slice())),
        };
        Value { name, value }
    }
}

/// A resolved value with its bytes owned, for the one value a rule matched.
#[derive(Debug, Clone, PartialEq, Eq)]
pub struct OwnedValue {
    /// The fully qualified name.
    pub name: String,
    /// The member's value, after transformations.
    pub value: Vec<u8>,
}

impl DeepView for OwnedValue {
    type V = ValueView;

    open spec fn deep_view(&self) -> ValueView {
        ValueView { name: self.name@, value: self.value@ }
    }
}

// ---------------------------------------------------------------------------
// Multimaps

/// Named values in order.
pub type Entries = Seq<(Seq<char>, Seq<u8>)>;

/// What a list of owned pairs shows.
pub open spec fn pairs_view(pairs: Seq<(String, Vec<u8>)>) -> Entries {
    Seq::new(pairs.len(), |i: int| (pairs[i].0@, pairs[i].1@))
}

/// An ordered multimap preserving insertion order and duplicate names.
#[derive(Debug, Clone)]
pub struct Multimap {
    entries: Vec<(String, Vec<u8>)>,
}

impl View for Multimap {
    type V = Entries;

    closed spec fn view(&self) -> Entries {
        Seq::new(self.entries@.len(), |i: int| (self.entries@[i].0@, self.entries@[i].1@))
    }
}

impl Default for Multimap {
    fn default() -> (r: Self)
        ensures
            r@ == Entries::empty(),
    {
        let r = Multimap { entries: Vec::new() };
        assert(r@ =~= Entries::empty());
        r
    }
}

/// A number, or the largest that a `usize` holds.
pub open spec fn capped_size(n: nat) -> usize {
    if n > usize::MAX {
        usize::MAX
    } else {
        n as usize
    }
}

/// The combined length of the values.
pub open spec fn total_size(entries: Entries) -> nat
    decreases entries.len(),
{
    if entries.len() == 0 {
        0
    } else {
        total_size(entries.drop_last()) + entries.last().1.len()
    }
}

impl Multimap {
    /// Append an entry.
    pub fn push(&mut self, name: &str, value: &[u8])
        ensures
            final(self)@ == old(self)@.push((name@, value@)),
    {
        let ghost start = self@;
        self.entries.push((name.to_string(), slice_to_vec(value)));
        assert(self@ =~= start.push((name@, value@)));
    }

    /// Append an entry whose value is already owned.
    pub fn push_owned(&mut self, name: String, value: Vec<u8>)
        ensures
            final(self)@ == old(self)@.push((name@, value@)),
    {
        let ghost start = self@;
        self.entries.push((name, value));
        assert(self@ =~= start.push((name@, value@)));
    }

    /// Append several entries, in order.
    pub fn push_all(&mut self, pairs: Vec<(String, Vec<u8>)>)
        ensures
            final(self)@ == old(self)@ + pairs_view(pairs@),
    {
        let ghost start = self@;
        let ghost more = pairs_view(pairs@);
        let mut pairs = pairs;
        self.entries.append(&mut pairs);
        assert(self@ =~= start + more);
    }

    /// Every entry, in insertion order.
    pub fn iter(&self) -> (r: Vec<(&str, &[u8])>)
        ensures
            r@.len() == self@.len(),
            forall|i: int|
                0 <= i < r@.len() ==> (#[trigger] r@[i]).0@ == self@[i].0 && r@[i].1@ == self@[i].1,
    {
        let mut out: Vec<(&str, &[u8])> = Vec::new();
        let mut i: usize = 0;
        while i < self.entries.len()
            invariant
                i <= self.entries@.len(),
                out@.len() == i,
                forall|j: int|
                    0 <= j < i ==> (#[trigger] out@[j]).0@ == self@[j].0 && out@[j].1@
                        == self@[j].1,
            decreases self.entries@.len() - i,
        {
            let entry = &self.entries[i];
            out.push((entry.0.as_str(), entry.1.as_slice()));
            i += 1;
        }
        out
    }

    /// The entry at a position.
    fn entry(&self, i: usize) -> (r: (&str, &[u8]))
        requires
            i < self@.len(),
        ensures
            r.0@ == self@[i as int].0,
            r.1@ == self@[i as int].1,
    {
        let entry = &self.entries[i];
        (entry.0.as_str(), entry.1.as_slice())
    }

    /// Remove the entries of a name, from a position on.
    fn remove_from(&mut self, from: usize, name: &str)
        requires
            from <= old(self)@.len(),
        ensures
            final(self)@ == old(self)@.take(from as int) + tx_without(
                old(self)@.skip(from as int),
                name@,
            ),
    {
        let ghost all = self@;
        let ghost rest = all.skip(from as int);
        let ghost mut seen: int = 0;
        let mut i: usize = from;
        assert(rest.take(0) =~= Entries::empty());
        assert(self@ =~= all.take(from as int) + tx_without(rest.take(0), name@) + rest.skip(0));
        while i < self.entries.len()
            invariant
                0 <= seen <= rest.len(),
                from <= all.len(),
                rest == all.skip(from as int),
                i == from + tx_without(rest.take(seen), name@).len(),
                self@ == all.take(from as int) + tx_without(rest.take(seen), name@) + rest.skip(
                    seen,
                ),
            decreases rest.len() - seen,
        {
            let ghost kept = tx_without(rest.take(seen), name@);
            let ghost now = self@;
            assert(now.len() == self.entries@.len());
            assert(now[i as int] == rest[seen]);
            assert(rest.take(seen + 1).drop_last() =~= rest.take(seen));
            assert(rest.take(seen + 1).last() == rest[seen]);
            if eq_ignore_case_str(self.entries[i].0.as_str(), name) {
                self.entries.remove(i);
                assert(self@ =~= now.remove(i as int));
                assert(self@ =~= all.take(from as int) + kept + rest.skip(seen + 1));
            } else {
                assert(now =~= all.take(from as int) + kept.push(rest[seen]) + rest.skip(
                    seen + 1,
                ));
                i += 1;
            }
            proof {
                seen = seen + 1;
            }
        }
        assert(rest.take(seen) =~= rest);
        assert(self@ =~= all.take(from as int) + tx_without(rest, name@));
    }

    /// Number of entries.
    pub fn len(&self) -> (r: usize)
        ensures
            r == self@.len(),
    {
        self.entries.len()
    }

    /// Whether the map holds nothing.
    pub fn is_empty(&self) -> (r: bool)
        ensures
            r == (self@.len() == 0),
    {
        self.entries.len() == 0
    }

    /// Combined byte length of all values, for the `*_COMBINED_SIZE` variables.
    pub fn combined_size(&self) -> (r: usize)
        ensures
            r == capped_size(total_size(self@)),
    {
        let mut sum: usize = 0;
        let mut i: usize = 0;
        assert(self@.take(0) =~= Entries::empty());
        while i < self.entries.len()
            invariant
                i <= self.entries@.len(),
                sum == capped_size(total_size(self@.take(i as int))),
            decreases self.entries@.len() - i,
        {
            assert(self@.take(i + 1).drop_last() =~= self@.take(i as int));
            assert(self@.take(i + 1).last() == self@[i as int]);
            sum = sum.saturating_add(self.entries[i].1.len());
            i += 1;
        }
        assert(self@.take(i as int) =~= self@);
        sum
    }
}

/// Why a body could not be processed.
///
/// SecLang surfaces this as `REQBODY_ERROR`, and the Core Rule Set has rules
/// that block on it. That is the correct home for "this body is in a format the
/// engine cannot inspect": the request is refused rather than passed
/// uninspected.
#[derive(Debug, Clone, PartialEq, Eq)]
pub enum BodyError {
    /// The body is in a format with no parser yet.
    UnsupportedFormat(&'static str),
    /// The body was malformed for its declared type.
    Malformed(String),
}

/// The view of a [`BodyError`].
#[verifier::ext_equal]
pub enum BodyErrorView {
    UnsupportedFormat(Seq<char>),
    Malformed(Seq<char>),
}

impl DeepView for BodyError {
    type V = BodyErrorView;

    open spec fn deep_view(&self) -> BodyErrorView {
        match self {
            BodyError::UnsupportedFormat(s) => BodyErrorView::UnsupportedFormat(s@),
            BodyError::Malformed(s) => BodyErrorView::Malformed(s@),
        }
    }
}

// ---------------------------------------------------------------------------
// Variables

/// All variables visible to a rule.
#[derive(Debug, Clone)]
pub struct Variables {
    /// `ARGS_GET`, from the query string.
    pub args_get: Multimap,
    /// `ARGS_POST`, from a parsed request body.
    pub args_post: Multimap,
    /// `REQUEST_HEADERS`
    pub request_headers: Multimap,
    /// `REQUEST_COOKIES`
    pub request_cookies: Multimap,
    /// `RESPONSE_HEADERS`
    pub response_headers: Multimap,
    /// `TX`, the rule-writable scratch collection.
    pub tx: Multimap,
    /// `FILES`, from a multipart body.
    pub files: Multimap,
    /// `MULTIPART_PART_HEADERS`, keyed by header name, valued with the whole
    /// raw header line. The Core Rule Set matches `^content-type\s*:\s*(.*)$`
    /// against the value, so the name has to stay in it.
    pub multipart_part_headers: Multimap,
    /// `XML:/*`, element text content from a parsed XML body.
    pub xml_elements: Multimap,
    /// `XML://@*`, attribute values from a parsed XML body.
    pub xml_attributes: Multimap,
    /// `REQUEST_METHOD`
    pub request_method: Vec<u8>,
    /// `REQUEST_URI`, path plus query.
    pub request_uri: Vec<u8>,
    /// `REQUEST_URI_RAW`, before any normalisation.
    pub request_uri_raw: Vec<u8>,
    /// `REQUEST_LINE`
    pub request_line: Vec<u8>,
    /// `REQUEST_PROTOCOL`
    pub request_protocol: Vec<u8>,
    /// `REQUEST_FILENAME`, the path with no query string.
    pub request_filename: Vec<u8>,
    /// `REQUEST_BASENAME`, the last path segment.
    pub request_basename: Vec<u8>,
    /// `QUERY_STRING`
    pub query_string: Vec<u8>,
    /// `REQUEST_BODY`
    pub request_body: Vec<u8>,
    /// `RESPONSE_BODY`
    pub response_body: Vec<u8>,
    /// `RESPONSE_STATUS`
    pub response_status: Vec<u8>,
    /// `REMOTE_ADDR`
    pub remote_addr: Vec<u8>,
    /// `UNIQUE_ID`
    pub unique_id: Vec<u8>,
    /// `REQBODY_PROCESSOR`
    pub reqbody_processor: Vec<u8>,
    /// Total bytes of uploaded file content, for `FILES_COMBINED_SIZE`. The
    /// `FILES` collection holds filenames, so its own size is not the answer.
    pub files_content_size: usize,
    /// `MATCHED_VAR`, the value that satisfied the last operator.
    pub matched_var: Vec<u8>,
    /// `MATCHED_VAR_NAME`
    pub matched_var_name: Vec<u8>,
    /// `MATCHED_VARS`, every value that matched in the current rule.
    pub matched_vars: Multimap,
}

/// The view of [`Variables`].
#[verifier::ext_equal]
pub struct VariablesView {
    pub args_get: Entries,
    pub args_post: Entries,
    pub request_headers: Entries,
    pub request_cookies: Entries,
    pub response_headers: Entries,
    pub tx: Entries,
    pub files: Entries,
    pub multipart_part_headers: Entries,
    pub xml_elements: Entries,
    pub xml_attributes: Entries,
    pub request_method: Seq<u8>,
    pub request_uri: Seq<u8>,
    pub request_uri_raw: Seq<u8>,
    pub request_line: Seq<u8>,
    pub request_protocol: Seq<u8>,
    pub request_filename: Seq<u8>,
    pub request_basename: Seq<u8>,
    pub query_string: Seq<u8>,
    pub request_body: Seq<u8>,
    pub response_body: Seq<u8>,
    pub response_status: Seq<u8>,
    pub remote_addr: Seq<u8>,
    pub unique_id: Seq<u8>,
    pub reqbody_processor: Seq<u8>,
    pub files_content_size: usize,
    pub matched_var: Seq<u8>,
    pub matched_var_name: Seq<u8>,
    pub matched_vars: Entries,
}

impl DeepView for Variables {
    type V = VariablesView;

    open spec fn deep_view(&self) -> VariablesView {
        VariablesView {
            args_get: self.args_get@,
            args_post: self.args_post@,
            request_headers: self.request_headers@,
            request_cookies: self.request_cookies@,
            response_headers: self.response_headers@,
            tx: self.tx@,
            files: self.files@,
            multipart_part_headers: self.multipart_part_headers@,
            xml_elements: self.xml_elements@,
            xml_attributes: self.xml_attributes@,
            request_method: self.request_method@,
            request_uri: self.request_uri@,
            request_uri_raw: self.request_uri_raw@,
            request_line: self.request_line@,
            request_protocol: self.request_protocol@,
            request_filename: self.request_filename@,
            request_basename: self.request_basename@,
            query_string: self.query_string@,
            request_body: self.request_body@,
            response_body: self.response_body@,
            response_status: self.response_status@,
            remote_addr: self.remote_addr@,
            unique_id: self.unique_id@,
            reqbody_processor: self.reqbody_processor@,
            files_content_size: self.files_content_size,
            matched_var: self.matched_var@,
            matched_var_name: self.matched_var_name@,
            matched_vars: self.matched_vars@,
        }
    }
}

/// Variables that hold nothing.
pub open spec fn no_variables() -> VariablesView {
    VariablesView {
        args_get: seq![],
        args_post: seq![],
        request_headers: seq![],
        request_cookies: seq![],
        response_headers: seq![],
        tx: seq![],
        files: seq![],
        multipart_part_headers: seq![],
        xml_elements: seq![],
        xml_attributes: seq![],
        request_method: seq![],
        request_uri: seq![],
        request_uri_raw: seq![],
        request_line: seq![],
        request_protocol: seq![],
        request_filename: seq![],
        request_basename: seq![],
        query_string: seq![],
        request_body: seq![],
        response_body: seq![],
        response_status: seq![],
        remote_addr: seq![],
        unique_id: seq![],
        reqbody_processor: seq![],
        files_content_size: 0,
        matched_var: seq![],
        matched_var_name: seq![],
        matched_vars: seq![],
    }
}

impl Default for Variables {
    fn default() -> (r: Self)
        ensures
            r.deep_view() == no_variables(),
    {
        let r = Variables {
            args_get: Multimap::default(),
            args_post: Multimap::default(),
            request_headers: Multimap::default(),
            request_cookies: Multimap::default(),
            response_headers: Multimap::default(),
            tx: Multimap::default(),
            files: Multimap::default(),
            multipart_part_headers: Multimap::default(),
            xml_elements: Multimap::default(),
            xml_attributes: Multimap::default(),
            request_method: Vec::new(),
            request_uri: Vec::new(),
            request_uri_raw: Vec::new(),
            request_line: Vec::new(),
            request_protocol: Vec::new(),
            request_filename: Vec::new(),
            request_basename: Vec::new(),
            query_string: Vec::new(),
            request_body: Vec::new(),
            response_body: Vec::new(),
            response_status: Vec::new(),
            remote_addr: Vec::new(),
            unique_id: Vec::new(),
            reqbody_processor: Vec::new(),
            files_content_size: 0,
            matched_var: Vec::new(),
            matched_var_name: Vec::new(),
            matched_vars: Multimap::default(),
        };
        assert(r.deep_view() =~= no_variables());
        r
    }
}

/// The value of a `TX` entry, the last of that name in any ASCII case.
pub open spec fn tx_value(tx: Entries, name: Seq<char>) -> Option<Seq<u8>>
    decreases tx.len(),
{
    if tx.len() == 0 {
        None
    } else if same_ignoring_case(tx.last().0, name) {
        Some(tx.last().1)
    } else {
        tx_value(tx.drop_last(), name)
    }
}

/// `TX` after writing an entry: the first of that name takes the value and those
/// behind it go, or a new one is appended.
pub open spec fn tx_written(tx: Entries, name: Seq<char>, value: Seq<u8>) -> Entries
    decreases tx.len(),
{
    if tx.len() == 0 {
        seq![(name, value)]
    } else if same_ignoring_case(tx[0].0, name) {
        seq![(tx[0].0, value)] + tx_without(tx.drop_first(), name)
    } else {
        seq![tx[0]] + tx_written(tx.drop_first(), name, value)
    }
}

/// `TX` without the entries of a name.
pub open spec fn tx_without(tx: Entries, name: Seq<char>) -> Entries
    decreases tx.len(),
{
    if tx.len() == 0 {
        seq![]
    } else if same_ignoring_case(tx.last().0, name) {
        tx_without(tx.drop_last(), name)
    } else {
        tx_without(tx.drop_last(), name).push(tx.last())
    }
}

/// The number that some bytes write, or 0.
pub open spec fn number_or_zero(value: Option<Seq<u8>>) -> i64 {
    match value {
        Some(bytes) => if !valid_utf8(bytes) {
            0
        } else {
            match signed_number(trimmed(decode_utf8(bytes))) {
                Some(n) => if i64::MIN <= n <= i64::MAX {
                    n as i64
                } else {
                    0
                },
                None => 0,
            }
        },
        None => 0,
    }
}

impl Variables {
    /// Read a `TX` entry, which is where rules keep their state.
    pub fn tx_get(&self, name: &str) -> (r: Option<&[u8]>)
        ensures
            (match r {
                Some(value) => tx_value(self.deep_view().tx, name@) == Some(value@),
                None => tx_value(self.deep_view().tx, name@) is None,
            }),
    {
        let ghost all = self.tx@;
        let mut n: usize = self.tx.len();
        assert(all.take(n as int) =~= all);
        while n > 0
            invariant
                n <= self.tx@.len(),
                all == self.tx@,
                tx_value(all, name@) == tx_value(all.take(n as int), name@),
            decreases n,
        {
            let (key, value) = self.tx.entry(n - 1);
            assert(all.take(n as int).last() == all[n - 1]);
            assert(all.take(n as int).drop_last() =~= all.take(n - 1));
            if eq_ignore_case_str(key, name) {
                return Some(value);
            }
            n -= 1;
        }
        None
    }

    /// Write a `TX` entry, replacing any existing one.
    pub fn tx_set(&mut self, name: &str, value: Vec<u8>)
        ensures
            final(self).deep_view() == (VariablesView {
                tx: tx_written(old(self).deep_view().tx, name@, value@),
                ..old(self).deep_view()
            }),
            tx_value(final(self).deep_view().tx, name@) == Some(value@),
    {
        let ghost start = self.deep_view();
        let ghost all = self.tx@;
        let mut i: usize = 0;
        proof {
            tx_reads_what_was_written(all, name@, value@, name@);
            assert(all.skip(0) =~= all);
            assert(all.take(0) + tx_written(all, name@, value@) =~= tx_written(all, name@, value@));
        }
        while i < self.tx.entries.len()
            invariant
                i <= all.len(),
                self.tx.entries@.len() == all.len(),
                all == self.tx@,
                start == self.deep_view(),
                start == old(self).deep_view(),
                tx_value(tx_written(all, name@, value@), name@) == Some(value@),
                tx_written(all, name@, value@) == all.take(i as int) + tx_written(
                    all.skip(i as int),
                    name@,
                    value@,
                ),
            decreases all.len() - i,
        {
            let ghost rest = all.skip(i as int);
            assert(rest.drop_first() =~= all.skip(i + 1));
            assert(rest[0] == all[i as int]);
            if eq_ignore_case_str(self.tx.entries[i].0.as_str(), name) {
                let key = self.tx.entries[i].0.clone();
                let ghost replaced = (key@, value@);
                self.tx.entries.set(i, (key, value));
                assert(self.tx@.take(i + 1) =~= all.take(i as int) + seq![replaced]);
                assert(self.tx@.skip(i + 1) =~= rest.drop_first());
                self.tx.remove_from(i + 1, name);
                assert(self.tx@ =~= all.take(i as int) + (seq![replaced] + tx_without(
                    rest.drop_first(),
                    name@,
                )));
                assert(self.deep_view() =~= (VariablesView {
                    tx: tx_written(start.tx, name@, value@),
                    ..start
                }));
                return;
            }
            assert(all.take(i as int) + (seq![rest[0]] + tx_written(
                rest.drop_first(),
                name@,
                value@,
            )) =~= all.take(i + 1) + tx_written(rest.drop_first(), name@, value@));
            i += 1;
        }
        let ghost written = (name@, value@);
        self.tx.push_owned(name.to_string(), value);
        assert(self.tx@ =~= all.take(i as int) + seq![written]);
        assert(self.deep_view() =~= (VariablesView {
            tx: tx_written(start.tx, name@, value@),
            ..start
        }));
    }

    /// Remove a `TX` entry.
    pub fn tx_remove(&mut self, name: &str)
        ensures
            final(self).deep_view() == (VariablesView {
                tx: tx_without(old(self).deep_view().tx, name@),
                ..old(self).deep_view()
            }),
    {
        let ghost start = self.deep_view();
        let ghost all = self.tx@;
        let mut kept = Multimap::default();
        let mut i: usize = 0;
        assert(all.take(0) =~= Entries::empty());
        while i < self.tx.len()
            invariant
                i <= all.len(),
                all == self.tx@,
                start == self.deep_view(),
                kept@ == tx_without(all.take(i as int), name@),
            decreases all.len() - i,
        {
            assert(all.take(i + 1).drop_last() =~= all.take(i as int));
            assert(all.take(i + 1).last() == all[i as int]);
            let (key, value) = self.tx.entry(i);
            if !eq_ignore_case_str(key, name) {
                kept.push(key, value);
            }
            i += 1;
        }
        assert(all.take(i as int) =~= all);
        self.tx = kept;
        assert(self.deep_view() =~= (VariablesView { tx: tx_without(start.tx, name@), ..start }));
    }

    /// Read a `TX` entry as a number, treating unset and unparsable as 0, as
    /// SecLang does.
    pub fn tx_number(&self, name: &str) -> (r: i64)
        ensures
            r == number_or_zero(tx_value(self.deep_view().tx, name@)),
    {
        let value = match self.tx_get(name) {
            Some(value) => value,
            None => {
                return 0;
            },
        };
        let text = match utf8_text(value) {
            Some(text) => text,
            None => {
                return 0;
            },
        };
        let chars = chars_of(text.as_str());
        match parse_signed(trim(chars.as_slice())) {
            Some(n) => n,
            None => 0,
        }
    }
}

// ---------------------------------------------------------------------------
// Macros

/// The scalar that a lowercase macro name stands for.
pub open spec fn scalar_macro(v: VariablesView, name: Seq<char>) -> Option<Seq<u8>> {
    if name == "matched_var"@ {
        Some(v.matched_var)
    } else if name == "matched_var_name"@ {
        Some(v.matched_var_name)
    } else if name == "request_method"@ {
        Some(v.request_method)
    } else if name == "request_uri"@ {
        Some(v.request_uri)
    } else if name == "request_filename"@ {
        Some(v.request_filename)
    } else if name == "request_basename"@ {
        Some(v.request_basename)
    } else if name == "query_string"@ {
        Some(v.query_string)
    } else if name == "request_line"@ {
        Some(v.request_line)
    } else if name == "request_protocol"@ {
        Some(v.request_protocol)
    } else if name == "remote_addr"@ {
        Some(v.remote_addr)
    } else if name == "unique_id"@ {
        Some(v.unique_id)
    } else if name == "response_status"@ {
        Some(v.response_status)
    } else {
        None
    }
}

/// What a macro name stands for: a `TX` entry behind `tx.` or `tx:`, or a
/// scalar.
pub open spec fn macro_value(v: VariablesView, name: Seq<char>) -> Option<Seq<u8>> {
    let n = lower(name);
    if n.len() >= 3 && n[0] == 't' && n[1] == 'x' && (n[2] == '.' || n[2] == ':') {
        tx_value(v.tx, n.skip(3))
    } else {
        scalar_macro(v, n)
    }
}

/// What each macro name stands for.
pub open spec fn macro_values(v: VariablesView) -> Values {
    |name: Seq<char>| macro_value(v, name)
}

impl MacroContext for Variables {
    open spec fn values(&self) -> Values {
        macro_values(self.deep_view())
    }

    fn lookup(&self, name: &str) -> (r: Option<Cow<'_, [u8]>>) {
        let small = to_lower(chars_of(name).as_slice());
        let n = small.as_slice();
        if n.len() >= 3 && n[0] == 't' && n[1] == 'x' && (n[2] == '.' || n[2] == ':') {
            let member = string_of(from(n, 3));
            return match self.tx_get(member.as_str()) {
                Some(value) => Some(Cow::Borrowed(value)),
                None => None,
            };
        }
        if same(n, "matched_var") {
            Some(Cow::Borrowed(self.matched_var.as_slice()))
        } else if same(n, "matched_var_name") {
            Some(Cow::Borrowed(self.matched_var_name.as_slice()))
        } else if same(n, "request_method") {
            Some(Cow::Borrowed(self.request_method.as_slice()))
        } else if same(n, "request_uri") {
            Some(Cow::Borrowed(self.request_uri.as_slice()))
        } else if same(n, "request_filename") {
            Some(Cow::Borrowed(self.request_filename.as_slice()))
        } else if same(n, "request_basename") {
            Some(Cow::Borrowed(self.request_basename.as_slice()))
        } else if same(n, "query_string") {
            Some(Cow::Borrowed(self.query_string.as_slice()))
        } else if same(n, "request_line") {
            Some(Cow::Borrowed(self.request_line.as_slice()))
        } else if same(n, "request_protocol") {
            Some(Cow::Borrowed(self.request_protocol.as_slice()))
        } else if same(n, "remote_addr") {
            Some(Cow::Borrowed(self.remote_addr.as_slice()))
        } else if same(n, "unique_id") {
            Some(Cow::Borrowed(self.unique_id.as_slice()))
        } else if same(n, "response_status") {
            Some(Cow::Borrowed(self.response_status.as_slice()))
        } else {
            None
        }
    }
}

// ---------------------------------------------------------------------------
// Resolution

/// The canonical SecLang name of a collection.
pub open spec fn canonical_name(collection: Collection) -> Seq<char> {
    match collection {
        Collection::Args => "ARGS"@,
        Collection::ArgsCombinedSize => "ARGS_COMBINED_SIZE"@,
        Collection::ArgsGet => "ARGS_GET"@,
        Collection::ArgsGetNames => "ARGS_GET_NAMES"@,
        Collection::ArgsNames => "ARGS_NAMES"@,
        Collection::Files => "FILES"@,
        Collection::FilesCombinedSize => "FILES_COMBINED_SIZE"@,
        Collection::FilesNames => "FILES_NAMES"@,
        Collection::MatchedVar => "MATCHED_VAR"@,
        Collection::MatchedVars => "MATCHED_VARS"@,
        Collection::MultipartPartHeaders => "MULTIPART_PART_HEADERS"@,
        Collection::QueryString => "QUERY_STRING"@,
        Collection::ReqbodyProcessor => "REQBODY_PROCESSOR"@,
        Collection::RemoteAddr => "REMOTE_ADDR"@,
        Collection::RequestBasename => "REQUEST_BASENAME"@,
        Collection::RequestBody => "REQUEST_BODY"@,
        Collection::RequestCookies => "REQUEST_COOKIES"@,
        Collection::RequestCookiesNames => "REQUEST_COOKIES_NAMES"@,
        Collection::RequestFilename => "REQUEST_FILENAME"@,
        Collection::RequestHeaders => "REQUEST_HEADERS"@,
        Collection::RequestHeadersNames => "REQUEST_HEADERS_NAMES"@,
        Collection::RequestLine => "REQUEST_LINE"@,
        Collection::RequestMethod => "REQUEST_METHOD"@,
        Collection::RequestProtocol => "REQUEST_PROTOCOL"@,
        Collection::RequestUri => "REQUEST_URI"@,
        Collection::RequestUriRaw => "REQUEST_URI_RAW"@,
        Collection::ResponseBody => "RESPONSE_BODY"@,
        Collection::ResponseHeaders => "RESPONSE_HEADERS"@,
        Collection::ResponseStatus => "RESPONSE_STATUS"@,
        Collection::Tx => "TX"@,
        Collection::UniqueId => "UNIQUE_ID"@,
        Collection::Xml => "XML"@,
    }
}

/// The canonical SecLang name of a collection.
pub fn collection_name(collection: Collection) -> (r: &'static str)
    ensures
        r@ == canonical_name(collection),
{
    match collection {
        Collection::Args => "ARGS",
        Collection::ArgsCombinedSize => "ARGS_COMBINED_SIZE",
        Collection::ArgsGet => "ARGS_GET",
        Collection::ArgsGetNames => "ARGS_GET_NAMES",
        Collection::ArgsNames => "ARGS_NAMES",
        Collection::Files => "FILES",
        Collection::FilesCombinedSize => "FILES_COMBINED_SIZE",
        Collection::FilesNames => "FILES_NAMES",
        Collection::MatchedVar => "MATCHED_VAR",
        Collection::MatchedVars => "MATCHED_VARS",
        Collection::MultipartPartHeaders => "MULTIPART_PART_HEADERS",
        Collection::QueryString => "QUERY_STRING",
        Collection::ReqbodyProcessor => "REQBODY_PROCESSOR",
        Collection::RemoteAddr => "REMOTE_ADDR",
        Collection::RequestBasename => "REQUEST_BASENAME",
        Collection::RequestBody => "REQUEST_BODY",
        Collection::RequestCookies => "REQUEST_COOKIES",
        Collection::RequestCookiesNames => "REQUEST_COOKIES_NAMES",
        Collection::RequestFilename => "REQUEST_FILENAME",
        Collection::RequestHeaders => "REQUEST_HEADERS",
        Collection::RequestHeadersNames => "REQUEST_HEADERS_NAMES",
        Collection::RequestLine => "REQUEST_LINE",
        Collection::RequestMethod => "REQUEST_METHOD",
        Collection::RequestProtocol => "REQUEST_PROTOCOL",
        Collection::RequestUri => "REQUEST_URI",
        Collection::RequestUriRaw => "REQUEST_URI_RAW",
        Collection::ResponseBody => "RESPONSE_BODY",
        Collection::ResponseHeaders => "RESPONSE_HEADERS",
        Collection::ResponseStatus => "RESPONSE_STATUS",
        Collection::Tx => "TX",
        Collection::UniqueId => "UNIQUE_ID",
        Collection::Xml => "XML",
    }
}

/// Whether a selector keeps a member.
pub open spec fn selects(selector: Option<SelectorView>, name: Seq<char>) -> bool {
    match selector {
        None => true,
        Some(SelectorView::Name(want)) => same_ignoring_case(name, want),
        Some(SelectorView::Regex(pattern)) => regex_finds(pattern, name),
        Some(SelectorView::XPath(_)) => false,
    }
}

/// The name of a member of a collection.
pub open spec fn qualified(prefix: Seq<char>, name: Seq<char>) -> Seq<char> {
    prefix + ":"@ + name
}

/// The members of a map that a selector keeps.
pub open spec fn map_values(
    prefix: Seq<char>,
    entries: Entries,
    selector: Option<SelectorView>,
) -> Seq<ValueView>
    decreases entries.len(),
{
    if entries.len() == 0 {
        seq![]
    } else {
        let before = map_values(prefix, entries.drop_last(), selector);
        let (name, value) = entries.last();
        if selects(selector, name) {
            before.push(ValueView { name: qualified(prefix, name), value })
        } else {
            before
        }
    }
}

/// The names of a map's members, as values.
pub open spec fn name_values(prefix: Seq<char>, entries: Entries) -> Seq<ValueView> {
    Seq::new(
        entries.len(),
        |i: int|
            ValueView {
                name: qualified(prefix, entries[i].0),
                value: encode_utf8(entries[i].0),
            },
    )
}

pub open spec fn scalar_value(name: Seq<char>, value: Seq<u8>) -> Seq<ValueView> {
    seq![ValueView { name, value }]
}

/// A number as a value.
pub open spec fn number_value(name: Seq<char>, n: nat) -> Seq<ValueView> {
    scalar_value(name, encode_utf8(decimal(n)))
}

/// The values of a collection that a selector keeps.
pub open spec fn collection_values(
    v: VariablesView,
    collection: Collection,
    selector: Option<SelectorView>,
) -> Seq<ValueView> {
    let prefix = canonical_name(collection);
    match collection {
        Collection::Args => map_values(prefix, v.args_get, selector) + map_values(
            prefix,
            v.args_post,
            selector,
        ),
        Collection::ArgsGet => map_values(prefix, v.args_get, selector),
        Collection::ArgsNames => name_values(prefix, v.args_get) + name_values(prefix, v.args_post),
        Collection::ArgsGetNames => name_values(prefix, v.args_get),
        Collection::RequestHeaders => map_values(prefix, v.request_headers, selector),
        Collection::RequestHeadersNames => name_values(prefix, v.request_headers),
        Collection::RequestCookies => map_values(prefix, v.request_cookies, selector),
        Collection::RequestCookiesNames => name_values(prefix, v.request_cookies),
        Collection::ResponseHeaders => map_values(prefix, v.response_headers, selector),
        Collection::Tx => map_values(prefix, v.tx, selector),
        Collection::Files => map_values(prefix, v.files, selector),
        Collection::FilesNames => name_values(prefix, v.files),
        Collection::MatchedVars => map_values(prefix, v.matched_vars, selector),
        Collection::ArgsCombinedSize => number_value(
            prefix,
            capped_size(total_size(v.args_get) + total_size(v.args_post)) as nat,
        ),
        Collection::FilesCombinedSize => number_value(prefix, v.files_content_size as nat),
        Collection::RequestMethod => scalar_value(prefix, v.request_method),
        Collection::RequestUri => scalar_value(prefix, v.request_uri),
        Collection::RequestUriRaw => scalar_value(prefix, v.request_uri_raw),
        Collection::RequestLine => scalar_value(prefix, v.request_line),
        Collection::RequestProtocol => scalar_value(prefix, v.request_protocol),
        Collection::RequestFilename => scalar_value(prefix, v.request_filename),
        Collection::RequestBasename => scalar_value(prefix, v.request_basename),
        Collection::QueryString => scalar_value(prefix, v.query_string),
        Collection::RequestBody => scalar_value(prefix, v.request_body),
        Collection::ResponseBody => scalar_value(prefix, v.response_body),
        Collection::ResponseStatus => scalar_value(prefix, v.response_status),
        Collection::RemoteAddr => scalar_value(prefix, v.remote_addr),
        Collection::UniqueId => scalar_value(prefix, v.unique_id),
        Collection::ReqbodyProcessor => scalar_value(prefix, v.reqbody_processor),
        Collection::MatchedVar => scalar_value(prefix, v.matched_var),
        // The Core Rule Set addresses XML with exactly two XPath expressions.
        Collection::Xml => match selector {
            Some(SelectorView::XPath(expr)) => if trimmed(expr) == "/*"@ {
                map_values(prefix, v.xml_elements, None)
            } else if trimmed(expr) == "//@*"@ {
                map_values(prefix, v.xml_attributes, None)
            } else {
                seq![]
            },
            _ => seq![],
        },
        Collection::MultipartPartHeaders => map_values(
            prefix,
            v.multipart_part_headers,
            selector,
        ),
    }
}

/// Whether a collection holds named members rather than a single value.
pub open spec fn holds_members(collection: Collection) -> bool {
    match collection {
        Collection::Args
        | Collection::ArgsGet
        | Collection::ArgsGetNames
        | Collection::ArgsNames
        | Collection::Files
        | Collection::FilesNames
        | Collection::MatchedVars
        | Collection::MultipartPartHeaders
        | Collection::RequestCookies
        | Collection::RequestCookiesNames
        | Collection::RequestHeaders
        | Collection::RequestHeadersNames
        | Collection::ResponseHeaders
        | Collection::Tx
        | Collection::Xml => true,
        _ => false,
    }
}

/// How many values are not empty.
pub open spec fn set_values(values: Seq<ValueView>) -> nat
    decreases values.len(),
{
    if values.len() == 0 {
        0
    } else if values.last().value.len() == 0 {
        set_values(values.drop_last())
    } else {
        set_values(values.drop_last()) + 1
    }
}

/// How many members a `&COLLECTION` target sees. A present member counts even
/// when its value is empty; a scalar counts as one when it is set.
pub open spec fn member_count(
    v: VariablesView,
    collection: Collection,
    selector: Option<SelectorView>,
) -> nat {
    let values = collection_values(v, collection, selector);
    if holds_members(collection) {
        values.len()
    } else {
        set_values(values)
    }
}

/// The values that one target adds.
pub open spec fn target_values(v: VariablesView, target: TargetView) -> Seq<ValueView> {
    if target.count {
        number_value(
            canonical_name(target.collection),
            member_count(v, target.collection, target.selector),
        )
    } else {
        collection_values(v, target.collection, target.selector)
    }
}

/// The values that the targets of a list add, in order; exclusions add none.
pub open spec fn collected(v: VariablesView, targets: Seq<TargetView>) -> Seq<ValueView>
    decreases targets.len(),
{
    if targets.len() == 0 {
        seq![]
    } else {
        let before = collected(v, targets.drop_last());
        if targets.last().exclusion {
            before
        } else {
            before + target_values(v, targets.last())
        }
    }
}

/// Whether a qualified name belongs to a collection, and the member it names
/// there. A value is named `PREFIX` (a scalar) or `PREFIX:member` (a map);
/// `ARGS_GET:x` is not a member of `ARGS`.
pub open spec fn member_of(name: Seq<char>, prefix: Seq<char>) -> Option<Option<Seq<char>>> {
    let rest = name.skip(prefix.len() as int);
    if name.len() < prefix.len() || name.take(prefix.len() as int) != prefix {
        None
    } else if rest.len() == 0 {
        Some(None)
    } else if rest[0] == ':' {
        Some(Some(rest.skip(1)))
    } else {
        None
    }
}

/// Whether an exclusion removes a value.
pub open spec fn excludes(target: TargetView, name: Seq<char>) -> bool {
    match member_of(name, canonical_name(target.collection)) {
        None => false,
        Some(member) => match (target.selector, member) {
            // Whole-collection exclusion: every member of it.
            (None, _) => true,
            // A selector cannot match a scalar, which has no member.
            (Some(_), None) => false,
            (Some(SelectorView::XPath(_)), _) => false,
            (Some(s), Some(m)) => selects(Some(s), m),
        },
    }
}

/// Whether a list of targets excludes a value.
pub open spec fn is_excluded(targets: Seq<TargetView>, name: Seq<char>) -> bool {
    exists|i: int|
        0 <= i < targets.len() && (#[trigger] targets[i]).exclusion && excludes(targets[i], name)
}

/// The values among `values` that a list of targets does not exclude.
pub open spec fn not_excluded(values: Seq<ValueView>, targets: Seq<TargetView>) -> Seq<ValueView>
    decreases values.len(),
{
    if values.len() == 0 {
        seq![]
    } else {
        let before = not_excluded(values.drop_last(), targets);
        if is_excluded(targets, values.last().name) {
            before
        } else {
            before.push(values.last())
        }
    }
}

/// The values that a rule with these targets inspects.
pub open spec fn inspected(v: VariablesView, targets: Seq<TargetView>) -> Seq<ValueView> {
    not_excluded(collected(v, targets), targets)
}

/// What a list of values shows.
pub open spec fn values_view(values: Seq<Value<'_>>) -> Seq<ValueView> {
    Seq::new(values.len(), |i: int| values[i].deep_view())
}

/// A value the engine computes rather than stores, so it must be owned. One
/// small allocation per count or size target, not per inspected value.
fn push_computed<'a>(out: &mut Vec<Value<'a>>, name: &'a str, value: usize)
    ensures
        values_view(final(out)@) == values_view(old(out)@) + number_value(name@, value as nat),
{
    let ghost start = values_view(out@);
    let text = write_decimal(value as u64);
    out.push(Value { name: Cow::Borrowed(name), value: Cow::Owned(bytes_of(text.as_str())) });
    assert(values_view(out@) =~= start + number_value(name@, value as nat));
}

fn push_scalar<'a>(out: &mut Vec<Value<'a>>, name: &'a str, value: &'a Vec<u8>)
    ensures
        values_view(final(out)@) == values_view(old(out)@) + scalar_value(name@, value@),
{
    let ghost start = values_view(out@);
    out.push(Value { name: Cow::Borrowed(name), value: Cow::Borrowed(value.as_slice()) });
    assert(values_view(out@) =~= start + scalar_value(name@, value@));
}

fn keeps(selector: &Option<CompiledSelector>, name: &str) -> (r: bool)
    ensures
        r == selects(selector.deep_view(), name@),
{
    match selector {
        None => true,
        Some(CompiledSelector::Name(want)) => eq_ignore_case_str(name, want.as_str()),
        Some(CompiledSelector::Regex(re)) => text_is_match(re, name),
        Some(CompiledSelector::XPath(_)) => false,
    }
}

fn push_map<'a>(
    out: &mut Vec<Value<'a>>,
    prefix: &'a str,
    map: &'a Multimap,
    selector: &Option<CompiledSelector>,
)
    ensures
        values_view(final(out)@) == values_view(old(out)@) + map_values(
            prefix@,
            map@,
            selector.deep_view(),
        ),
{
    let ghost start = values_view(out@);
    let ghost all = map@;
    let mut i: usize = 0;
    assert(all.take(0) =~= Entries::empty());
    assert(start + map_values(prefix@, all.take(0), selector.deep_view()) =~= start);
    while i < map.len()
        invariant
            i <= all.len(),
            all == map@,
            values_view(out@) == start + map_values(
                prefix@,
                all.take(i as int),
                selector.deep_view(),
            ),
        decreases all.len() - i,
    {
        let ghost grown = all.take(i + 1);
        let ghost so_far = values_view(out@);
        assert(grown.drop_last() =~= all.take(i as int));
        assert(grown.last() == all[i as int]);
        let (name, value) = map.entry(i);
        if keeps(selector, name) {
            out.push(
                Value {
                    name: Cow::Owned(joined3(prefix, ":", name)),
                    value: Cow::Borrowed(value),
                },
            );
            let ghost added = ValueView { name: qualified(prefix@, name@), value: value@ };
            assert(values_view(out@) =~= so_far.push(added));
            assert(values_view(out@) =~= start + map_values(
                prefix@,
                all.take(i as int),
                selector.deep_view(),
            ).push(added));
        }
        i += 1;
    }
    assert(all.take(i as int) =~= all);
}

/// `*_NAMES` collections inspect the member names as values.
fn push_names<'a>(out: &mut Vec<Value<'a>>, prefix: &'a str, map: &'a Multimap)
    ensures
        values_view(final(out)@) == values_view(old(out)@) + name_values(prefix@, map@),
{
    let ghost start = values_view(out@);
    let ghost all = map@;
    let mut i: usize = 0;
    assert(start + name_values(prefix@, all).take(0) =~= start);
    while i < map.len()
        invariant
            i <= all.len(),
            all == map@,
            values_view(out@) == start + name_values(prefix@, all).take(i as int),
        decreases all.len() - i,
    {
        let ghost so_far = values_view(out@);
        let (name, _) = map.entry(i);
        out.push(
            Value {
                name: Cow::Owned(joined3(prefix, ":", name)),
                // The name is already stored, so this borrows too.
                value: Cow::Borrowed(name.as_bytes()),
            },
        );
        assert(values_view(out@) =~= so_far.push(name_values(prefix@, all)[i as int]));
        assert(values_view(out@) =~= start + name_values(prefix@, all).take(i + 1));
        i += 1;
    }
    assert(name_values(prefix@, all).take(i as int) =~= name_values(prefix@, all));
}

fn is_map_backed(collection: Collection) -> (r: bool)
    ensures
        r == holds_members(collection),
{
    match collection {
        Collection::Args
        | Collection::ArgsGet
        | Collection::ArgsGetNames
        | Collection::ArgsNames
        | Collection::Files
        | Collection::FilesNames
        | Collection::MatchedVars
        | Collection::MultipartPartHeaders
        | Collection::RequestCookies
        | Collection::RequestCookiesNames
        | Collection::RequestHeaders
        | Collection::RequestHeadersNames
        | Collection::ResponseHeaders
        | Collection::Tx
        | Collection::Xml => true,
        _ => false,
    }
}

fn count_set(values: &Vec<Value<'_>>) -> (r: usize)
    ensures
        r == set_values(values_view(values@)),
        r <= values@.len(),
{
    let ghost all = values_view(values@);
    let mut n: usize = 0;
    let mut i: usize = 0;
    assert(all.take(0) =~= seq![]);
    while i < values.len()
        invariant
            i <= values@.len(),
            n <= i,
            all == values_view(values@),
            n == set_values(all.take(i as int)),
        decreases values@.len() - i,
    {
        assert(all.take(i + 1).drop_last() =~= all.take(i as int));
        assert(all.take(i + 1).last() == values@[i as int].deep_view());
        let empty = match &values[i].value {
            Cow::Borrowed(b) => b.len() == 0,
            Cow::Owned(v) => v.len() == 0,
        };
        if !empty {
            n += 1;
        }
        i += 1;
    }
    assert(all.take(i as int) =~= all);
    n
}

fn find_member(name: &[char], prefix: &[char]) -> (r: Option<Option<Vec<char>>>)
    ensures
        (match r {
            None => member_of(name@, prefix@) is None,
            Some(None) => member_of(name@, prefix@) == Some(None::<Seq<char>>),
            Some(Some(m)) => member_of(name@, prefix@) == Some(Some(m@)),
        }),
{
    if name.len() < prefix.len() || !same_chars(before(name, prefix.len()), prefix) {
        return None;
    }
    let rest = from(name, prefix.len());
    if rest.len() == 0 {
        return Some(None);
    }
    if rest[0] == ':' {
        return Some(Some(slice_to_vec(from(rest, 1))));
    }
    None
}

fn excludes_value(target: &CompiledTarget, name: &[char]) -> (r: bool)
    ensures
        r == excludes(target.deep_view(), name@),
{
    let prefix = chars_of(collection_name(target.collection));
    match find_member(name, prefix.as_slice()) {
        None => false,
        Some(None) => target.selector.is_none(),
        Some(Some(m)) => match &target.selector {
            None => true,
            Some(_) => keeps(&target.selector, string_of(m.as_slice()).as_str()),
        },
    }
}

fn cow_chars(name: &Cow<'_, str>) -> (r: Vec<char>)
    ensures
        r@ == name@,
{
    match name {
        Cow::Borrowed(s) => chars_of(s),
        Cow::Owned(s) => chars_of(s.as_str()),
    }
}

fn excluded_by(targets: &[CompiledTarget], name: &[char]) -> (r: bool)
    ensures
        r == is_excluded(targets.deep_view(), name@),
{
    let ghost all = targets.deep_view();
    let mut i: usize = 0;
    while i < targets.len()
        invariant
            i <= targets@.len(),
            all == targets.deep_view(),
            forall|j: int|
                0 <= j < i ==> !((#[trigger] all[j]).exclusion && excludes(all[j], name@)),
        decreases targets@.len() - i,
    {
        assert(all[i as int] == targets@[i as int].deep_view());
        if targets[i].exclusion && excludes_value(&targets[i], name) {
            return true;
        }
        i += 1;
    }
    false
}

fn has_exclusion(targets: &[CompiledTarget]) -> (r: bool)
    ensures
        r == exists|i: int|
            0 <= i < targets.deep_view().len() && (#[trigger] targets.deep_view()[i]).exclusion,
{
    let ghost all = targets.deep_view();
    let mut i: usize = 0;
    while i < targets.len()
        invariant
            i <= targets@.len(),
            all == targets.deep_view(),
            forall|j: int| 0 <= j < i ==> !(#[trigger] all[j]).exclusion,
        decreases targets@.len() - i,
    {
        assert(all[i as int] == targets@[i as int].deep_view());
        if targets[i].exclusion {
            return true;
        }
        i += 1;
    }
    false
}

proof fn lemma_nothing_excluded(values: Seq<ValueView>, targets: Seq<TargetView>)
    requires
        forall|i: int| 0 <= i < targets.len() ==> !(#[trigger] targets[i]).exclusion,
    ensures
        not_excluded(values, targets) == values,
    decreases values.len(),
{
    if values.len() > 0 {
        lemma_nothing_excluded(values.drop_last(), targets);
        assert(values.drop_last().push(values.last()) =~= values);
    }
}

impl Variables {
    /// Resolve a target list to the values a rule should inspect.
    ///
    /// Exclusions (`!ARGS:x`) are applied after collection, so order within
    /// the target list does not matter, matching SecLang.
    pub fn resolve(&self, targets: &[CompiledTarget]) -> (r: Vec<Value<'_>>)
        ensures
            values_view(r@) == inspected(self.deep_view(), targets.deep_view()),
    {
        let ghost all = targets.deep_view();
        let mut found: Vec<Value<'_>> = Vec::new();
        let mut i: usize = 0;
        assert(all.take(0) =~= seq![]);
        assert(values_view(found@) =~= seq![]);
        while i < targets.len()
            invariant
                i <= targets@.len(),
                all == targets.deep_view(),
                values_view(found@) == collected(self.deep_view(), all.take(i as int)),
            decreases targets@.len() - i,
        {
            assert(all.take(i + 1).drop_last() =~= all.take(i as int));
            assert(all.take(i + 1).last() == targets@[i as int].deep_view());
            if !targets[i].exclusion {
                self.resolve_one(&targets[i], &mut found);
            }
            i += 1;
        }
        assert(all.take(i as int) =~= all);
        if !has_exclusion(targets) {
            proof {
                lemma_nothing_excluded(values_view(found@), all);
            }
            return found;
        }
        let ghost whole = values_view(found@);
        let mut out: Vec<Value<'_>> = Vec::new();
        let mut k: usize = 0;
        assert(whole.take(0) =~= seq![]);
        assert(values_view(out@) =~= seq![]);
        while k < found.len()
            invariant
                k <= found@.len(),
                all == targets.deep_view(),
                whole == values_view(found@),
                values_view(out@) == not_excluded(whole.take(k as int), all),
            decreases found@.len() - k,
        {
            let ghost done = values_view(out@);
            assert(whole.take(k + 1).drop_last() =~= whole.take(k as int));
            assert(whole.take(k + 1).last() == found@[k as int].deep_view());
            let name = cow_chars(&found[k].name);
            if !excluded_by(targets, name.as_slice()) {
                out.push(found[k].clone());
                assert(values_view(out@) =~= done.push(found@[k as int].deep_view()));
            }
            k += 1;
        }
        assert(whole.take(k as int) =~= whole);
        out
    }

    fn resolve_one<'a>(&'a self, target: &CompiledTarget, out: &mut Vec<Value<'a>>)
        ensures
            values_view(final(out)@) == values_view(old(out)@) + target_values(
                self.deep_view(),
                target.deep_view(),
            ),
    {
        // `&COLLECTION` inspects the member count, not the values.
        if target.count {
            let count = self.count_of(target);
            push_computed(out, collection_name(target.collection), count);
            return;
        }
        self.push_collection(target.collection, &target.selector, out);
    }

    fn push_collection<'a>(
        &'a self,
        collection: Collection,
        selector: &Option<CompiledSelector>,
        out: &mut Vec<Value<'a>>,
    )
        ensures
            values_view(final(out)@) == values_view(old(out)@) + collection_values(
                self.deep_view(),
                collection,
                selector.deep_view(),
            ),
    {
        let prefix: &'static str = collection_name(collection);
        let ghost start = values_view(out@);
        let ghost v = self.deep_view();
        let ghost sel = selector.deep_view();
        match collection {
            Collection::Args => {
                push_map(out, prefix, &self.args_get, selector);
                push_map(out, prefix, &self.args_post, selector);
                assert(values_view(out@) =~= start + (map_values(prefix@, v.args_get, sel)
                    + map_values(prefix@, v.args_post, sel)));
            },
            Collection::ArgsGet => push_map(out, prefix, &self.args_get, selector),
            Collection::ArgsNames => {
                push_names(out, prefix, &self.args_get);
                push_names(out, prefix, &self.args_post);
                assert(values_view(out@) =~= start + (name_values(prefix@, v.args_get)
                    + name_values(prefix@, v.args_post)));
            },
            Collection::ArgsGetNames => push_names(out, prefix, &self.args_get),
            Collection::RequestHeaders => push_map(out, prefix, &self.request_headers, selector),
            Collection::RequestHeadersNames => push_names(out, prefix, &self.request_headers),
            Collection::RequestCookies => push_map(out, prefix, &self.request_cookies, selector),
            Collection::RequestCookiesNames => push_names(out, prefix, &self.request_cookies),
            Collection::ResponseHeaders => push_map(out, prefix, &self.response_headers, selector),
            Collection::Tx => push_map(out, prefix, &self.tx, selector),
            Collection::Files => push_map(out, prefix, &self.files, selector),
            Collection::FilesNames => push_names(out, prefix, &self.files),
            Collection::MatchedVars => push_map(out, prefix, &self.matched_vars, selector),
            Collection::ArgsCombinedSize => push_computed(
                out,
                prefix,
                self.args_get.combined_size().saturating_add(self.args_post.combined_size()),
            ),
            Collection::FilesCombinedSize => push_computed(out, prefix, self.files_content_size),
            Collection::RequestMethod => push_scalar(out, prefix, &self.request_method),
            Collection::RequestUri => push_scalar(out, prefix, &self.request_uri),
            Collection::RequestUriRaw => push_scalar(out, prefix, &self.request_uri_raw),
            Collection::RequestLine => push_scalar(out, prefix, &self.request_line),
            Collection::RequestProtocol => push_scalar(out, prefix, &self.request_protocol),
            Collection::RequestFilename => push_scalar(out, prefix, &self.request_filename),
            Collection::RequestBasename => push_scalar(out, prefix, &self.request_basename),
            Collection::QueryString => push_scalar(out, prefix, &self.query_string),
            Collection::RequestBody => push_scalar(out, prefix, &self.request_body),
            Collection::ResponseBody => push_scalar(out, prefix, &self.response_body),
            Collection::ResponseStatus => push_scalar(out, prefix, &self.response_status),
            Collection::RemoteAddr => push_scalar(out, prefix, &self.remote_addr),
            Collection::UniqueId => push_scalar(out, prefix, &self.unique_id),
            Collection::ReqbodyProcessor => push_scalar(out, prefix, &self.reqbody_processor),
            Collection::MatchedVar => push_scalar(out, prefix, &self.matched_var),
            Collection::Xml => {
                // Anything but these two XPath expressions is refused at
                // compile time.
                match selector {
                    Some(CompiledSelector::XPath(expr)) => {
                        let chars = chars_of(expr.as_str());
                        let path = trim(chars.as_slice());
                        if same(path, "/*") {
                            push_map(out, prefix, &self.xml_elements, &None);
                        } else if same(path, "//@*") {
                            push_map(out, prefix, &self.xml_attributes, &None);
                        } else {
                            assert(start + Seq::<ValueView>::empty() =~= start);
                        }
                    },
                    _ => {
                        assert(start + Seq::<ValueView>::empty() =~= start);
                    },
                }
            },
            Collection::MultipartPartHeaders => push_map(
                out,
                prefix,
                &self.multipart_part_headers,
                selector,
            ),
        }
    }

    /// How many members a `&COLLECTION` target sees.
    ///
    /// The selector matters: `&REQUEST_HEADERS:Transfer-Encoding` asks whether
    /// that one header is present, not how many headers there are. Counting
    /// the whole collection instead makes every presence check true, which
    /// silently fires the rules that test for a header being absent.
    fn count_of(&self, target: &CompiledTarget) -> (r: usize)
        ensures
            r == member_count(
                self.deep_view(),
                target.collection,
                target.selector.deep_view(),
            ),
    {
        let mut resolved: Vec<Value<'_>> = Vec::new();
        self.push_collection(target.collection, &target.selector, &mut resolved);
        assert(values_view(resolved@) =~= collection_values(
            self.deep_view(),
            target.collection,
            target.selector.deep_view(),
        ));
        if is_map_backed(target.collection) {
            resolved.len()
        } else {
            count_set(&resolved)
        }
    }
}

// ---------------------------------------------------------------------------
// Laws

/// Whether no two `TX` entries have the same name.
pub open spec fn tx_unique(tx: Entries) -> bool {
    forall|i: int, j: int|
        0 <= i < j < tx.len() ==> !same_ignoring_case((#[trigger] tx[i]).0, (#[trigger] tx[j]).0)
}

proof fn lemma_tx_value_joined(a: Entries, b: Entries, name: Seq<char>)
    ensures
        tx_value(a + b, name) == (match tx_value(b, name) {
            Some(value) => Some(value),
            None => tx_value(a, name),
        }),
    decreases b.len(),
{
    if b.len() == 0 {
        assert(a + b =~= a);
    } else {
        assert((a + b).drop_last() =~= a + b.drop_last());
        lemma_tx_value_joined(a, b.drop_last(), name);
    }
}

proof fn lemma_tx_value_of_one(entry: (Seq<char>, Seq<u8>), name: Seq<char>)
    ensures
        tx_value(seq![entry], name) == if same_ignoring_case(entry.0, name) {
            Some(entry.1)
        } else {
            None
        },
{
    reveal_with_fuel(tx_value, 2);
    assert(seq![entry].last() == entry);
}

/// A `TX` entry that was written is what is read, in any case of its name.
pub proof fn tx_reads_what_was_written(
    tx: Entries,
    name: Seq<char>,
    value: Seq<u8>,
    asked: Seq<char>,
)
    requires
        same_ignoring_case(name, asked),
    ensures
        tx_value(tx_written(tx, name, value), asked) == Some(value),
    decreases tx.len(),
{
    if tx.len() == 0 {
        lemma_tx_value_of_one((name, value), asked);
    } else if same_ignoring_case(tx[0].0, name) {
        let others = tx_without(tx.drop_first(), name);
        tx_remove_removes_one_name(tx.drop_first(), name, asked);
        lemma_tx_value_of_one((tx[0].0, value), asked);
        lemma_tx_value_joined(seq![(tx[0].0, value)], others, asked);
    } else {
        tx_reads_what_was_written(tx.drop_first(), name, value, asked);
        lemma_tx_value_joined(seq![tx[0]], tx_written(tx.drop_first(), name, value), asked);
    }
}

/// Writing a `TX` entry leaves the entries of other names as they were.
pub proof fn tx_write_leaves_other_names(
    tx: Entries,
    name: Seq<char>,
    value: Seq<u8>,
    other: Seq<char>,
)
    requires
        !same_ignoring_case(name, other),
    ensures
        tx_value(tx_written(tx, name, value), other) == tx_value(tx, other),
    decreases tx.len(),
{
    if tx.len() == 0 {
        lemma_tx_value_of_one((name, value), other);
    } else {
        let rest = tx.drop_first();
        assert(tx =~= seq![tx[0]] + rest);
        lemma_tx_value_joined(seq![tx[0]], rest, other);
        lemma_tx_value_of_one(tx[0], other);
        if same_ignoring_case(tx[0].0, name) {
            tx_remove_removes_one_name(rest, name, other);
            lemma_tx_value_of_one((tx[0].0, value), other);
            lemma_tx_value_joined(seq![(tx[0].0, value)], tx_without(rest, name), other);
        } else {
            tx_write_leaves_other_names(rest, name, value, other);
            lemma_tx_value_joined(seq![tx[0]], tx_written(rest, name, value), other);
        }
    }
}

/// Writing a `TX` entry keeps the names unique.
pub proof fn tx_write_keeps_names_unique(tx: Entries, name: Seq<char>, value: Seq<u8>)
    requires
        tx_unique(tx),
    ensures
        tx_unique(tx_written(tx, name, value)),
{
    lemma_tx_written_names(tx, name, value);
}

/// The names after a write are the name written and names that were there.
proof fn lemma_tx_written_names(tx: Entries, name: Seq<char>, value: Seq<u8>)
    requires
        tx_unique(tx),
    ensures
        tx_unique(tx_written(tx, name, value)),
        forall|i: int|
            0 <= i < tx_written(tx, name, value).len() ==> (
            #[trigger] tx_written(tx, name, value)[i]).0 == name || exists|k: int|
                0 <= k < tx.len() && (#[trigger] tx[k]).0 == tx_written(tx, name, value)[i].0,
    decreases tx.len(),
{
    let r = tx_written(tx, name, value);
    if tx.len() > 0 {
        let rest = tx.drop_first();
        assert forall|i: int, j: int| 0 <= i < j < rest.len() implies !same_ignoring_case(
            (#[trigger] rest[i]).0,
            (#[trigger] rest[j]).0,
        ) by {
            assert(rest[i] == tx[i + 1] && rest[j] == tx[j + 1]);
        }
        let tail = if same_ignoring_case(tx[0].0, name) {
            tx_without(rest, name)
        } else {
            tx_written(rest, name, value)
        };
        lemma_tx_without_from(rest, name);
        lemma_tx_written_names(rest, name, value);
        assert(r[0].0 == tx[0].0);
        assert(r.drop_first() =~= tail);
        assert forall|i: int| 0 <= i < tail.len() implies (#[trigger] tail[i]).0 == name || exists|
            k: int,
        | 1 <= k < tx.len() && (#[trigger] tx[k]).0 == tail[i].0 by {
            if same_ignoring_case(tx[0].0, name) {
                assert(rest.contains(tail[i]));
                let k = choose|k: int| 0 <= k < rest.len() && rest[k] == tail[i];
                assert(tx[k + 1] == tail[i]);
            } else if tail[i].0 != name {
                let k = choose|k: int| 0 <= k < rest.len() && (#[trigger] rest[k]).0 == tail[i].0;
                assert(tx[k + 1].0 == tail[i].0);
            }
        }
        assert forall|i: int| 0 <= i < r.len() implies (#[trigger] r[i]).0 == name || exists|k: int|
            0 <= k < tx.len() && (#[trigger] tx[k]).0 == r[i].0 by {
            if i > 0 {
                assert(r[i] == tail[i - 1]);
            }
        }
        assert forall|j: int| 0 <= j < tail.len() implies !same_ignoring_case(
            tx[0].0,
            (#[trigger] tail[j]).0,
        ) by {
            if same_ignoring_case(tx[0].0, name) {
                assert(rest.contains(tail[j]));
                let k = choose|k: int| 0 <= k < rest.len() && rest[k] == tail[j];
                assert(tx[k + 1] == tail[j]);
            } else if tail[j].0 != name {
                let k = choose|k: int| 1 <= k < tx.len() && (#[trigger] tx[k]).0 == tail[j].0;
                assert(!same_ignoring_case(tx[0].0, tx[k].0));
            }
        }
        assert forall|i: int, j: int| 0 <= i < j < r.len() implies !same_ignoring_case(
            (#[trigger] r[i]).0,
            (#[trigger] r[j]).0,
        ) by {
            assert(r[j] == tail[j - 1]);
            if i > 0 {
                assert(r[i] == tail[i - 1]);
            }
        }
    }
}

/// A removed `TX` entry is gone, and the entries of other names stay.
pub proof fn tx_remove_removes_one_name(tx: Entries, name: Seq<char>, other: Seq<char>)
    ensures
        same_ignoring_case(name, other) ==> tx_value(tx_without(tx, name), other) is None,
        !same_ignoring_case(name, other) ==> tx_value(tx_without(tx, name), other) == tx_value(
            tx,
            other,
        ),
    decreases tx.len(),
{
    if tx.len() > 0 {
        tx_remove_removes_one_name(tx.drop_last(), name, other);
        let r = tx_without(tx.drop_last(), name);
        assert(r.push(tx.last()).drop_last() =~= r);
    }
}

/// Removing `TX` entries keeps the names unique.
pub proof fn tx_remove_keeps_names_unique(tx: Entries, name: Seq<char>)
    requires
        tx_unique(tx),
    ensures
        tx_unique(tx_without(tx, name)),
    decreases tx.len(),
{
    lemma_tx_without_from(tx, name);
}

proof fn lemma_tx_without_from(tx: Entries, name: Seq<char>)
    requires
        tx_unique(tx),
    ensures
        tx_unique(tx_without(tx, name)),
        forall|i: int|
            0 <= i < tx_without(tx, name).len() ==> tx.contains(
                #[trigger] tx_without(tx, name)[i],
            ),
    decreases tx.len(),
{
    if tx.len() > 0 {
        let shorter = tx.drop_last();
        lemma_tx_without_from(shorter, name);
        let r = tx_without(shorter, name);
        let whole = tx_without(tx, name);
        assert forall|i: int| 0 <= i < whole.len() implies tx.contains(#[trigger] whole[i]) by {
            if i < r.len() {
                assert(whole[i] == r[i]);
                assert(shorter.contains(r[i]));
                let k = choose|k: int| 0 <= k < shorter.len() && shorter[k] == r[i];
                assert(tx[k] == r[i]);
            } else {
                assert(whole[i] == tx[tx.len() - 1]);
            }
        }
        assert forall|i: int, j: int| 0 <= i < j < whole.len() implies !same_ignoring_case(
            (#[trigger] whole[i]).0,
            (#[trigger] whole[j]).0,
        ) by {
            if j < r.len() {
                assert(whole[i] == r[i] && whole[j] == r[j]);
            } else {
                assert(whole[i] == r[i]);
                assert(shorter.contains(r[i]));
                let k = choose|k: int| 0 <= k < shorter.len() && shorter[k] == r[i];
                assert(tx[k] == r[i]);
                assert(!same_ignoring_case(tx[k].0, tx[tx.len() - 1].0));
            }
        }
    }
}

proof fn lemma_trimmed_plain(s: Seq<char>)
    requires
        s.len() > 0,
        !is_white(s[0]),
        !is_white(s.last()),
    ensures
        trimmed(s) == s,
{
}

/// A number written to `TX` in decimal is read back as that number.
pub proof fn tx_number_reads_back(tx: Entries, name: Seq<char>, n: i64)
    ensures
        number_or_zero(
            tx_value(tx_written(tx, name, encode_utf8(decimal_int(n as int))), name),
        ) == n,
{
    let text = decimal_int(n as int);
    tx_reads_what_was_written(tx, name, encode_utf8(text), name);
    encode_utf8_valid_utf8(text);
    encode_utf8_decode_utf8(text);
    decimal_reads_back(n as int);
    lemma_decimal_is_plain(n as int);
    lemma_trimmed_plain(text);
}

/// The targets of a list that add values.
pub open spec fn inclusions(targets: Seq<TargetView>) -> Seq<TargetView>
    decreases targets.len(),
{
    if targets.len() == 0 {
        seq![]
    } else if targets.last().exclusion {
        inclusions(targets.drop_last())
    } else {
        inclusions(targets.drop_last()).push(targets.last())
    }
}

proof fn lemma_collected_inclusions(v: VariablesView, targets: Seq<TargetView>)
    ensures
        collected(v, targets) == collected(v, inclusions(targets)),
        forall|i: int|
            0 <= i < inclusions(targets).len() ==> !(#[trigger] inclusions(targets)[i]).exclusion,
    decreases targets.len(),
{
    if targets.len() > 0 {
        lemma_collected_inclusions(v, targets.drop_last());
        let shorter = inclusions(targets.drop_last());
        assert(shorter.push(targets.last()).drop_last() =~= shorter);
    }
}

proof fn lemma_not_excluded_same(
    values: Seq<ValueView>,
    a: Seq<TargetView>,
    b: Seq<TargetView>,
)
    requires
        forall|name: Seq<char>| #[trigger] is_excluded(a, name) == is_excluded(b, name),
    ensures
        not_excluded(values, a) == not_excluded(values, b),
    decreases values.len(),
{
    if values.len() > 0 {
        lemma_not_excluded_same(values.drop_last(), a, b);
    }
}

/// Where exclusions stand in a target list does not matter: two lists that add
/// the same targets in the same order, and exclude the same ones, inspect the
/// same values.
pub proof fn exclusion_order_does_not_matter(
    v: VariablesView,
    a: Seq<TargetView>,
    b: Seq<TargetView>,
)
    requires
        inclusions(a) == inclusions(b),
        forall|t: TargetView| t.exclusion ==> #[trigger] a.contains(t) == b.contains(t),
    ensures
        inspected(v, a) == inspected(v, b),
{
    lemma_collected_inclusions(v, a);
    lemma_collected_inclusions(v, b);
    assert forall|name: Seq<char>| #[trigger] is_excluded(a, name) == is_excluded(b, name) by {
        if is_excluded(a, name) {
            let i = choose|i: int|
                0 <= i < a.len() && (#[trigger] a[i]).exclusion && excludes(a[i], name);
            assert(a.contains(a[i]));
            assert(b.contains(a[i]));
            let j = choose|j: int| 0 <= j < b.len() && b[j] == a[i];
            assert(b[j].exclusion && excludes(b[j], name));
        }
        if is_excluded(b, name) {
            let i = choose|i: int|
                0 <= i < b.len() && (#[trigger] b[i]).exclusion && excludes(b[i], name);
            assert(b.contains(b[i]));
            assert(a.contains(b[i]));
            let j = choose|j: int| 0 <= j < a.len() && a[j] == b[i];
            assert(a[j].exclusion && excludes(a[j], name));
        }
    }
    lemma_not_excluded_same(collected(v, a), a, b);
}

proof fn lemma_names_hold_no_colon(c: Collection)
    ensures
        !canonical_name(c).contains(':'),
{
    reveal_strlit("ARGS");
    reveal_strlit("ARGS_COMBINED_SIZE");
    reveal_strlit("ARGS_GET");
    reveal_strlit("ARGS_GET_NAMES");
    reveal_strlit("ARGS_NAMES");
    reveal_strlit("FILES");
    reveal_strlit("FILES_COMBINED_SIZE");
    reveal_strlit("FILES_NAMES");
    reveal_strlit("MATCHED_VAR");
    reveal_strlit("MATCHED_VARS");
    reveal_strlit("MULTIPART_PART_HEADERS");
    reveal_strlit("QUERY_STRING");
    reveal_strlit("REQBODY_PROCESSOR");
    reveal_strlit("REMOTE_ADDR");
    reveal_strlit("REQUEST_BASENAME");
    reveal_strlit("REQUEST_BODY");
    reveal_strlit("REQUEST_COOKIES");
    reveal_strlit("REQUEST_COOKIES_NAMES");
    reveal_strlit("REQUEST_FILENAME");
    reveal_strlit("REQUEST_HEADERS");
    reveal_strlit("REQUEST_HEADERS_NAMES");
    reveal_strlit("REQUEST_LINE");
    reveal_strlit("REQUEST_METHOD");
    reveal_strlit("REQUEST_PROTOCOL");
    reveal_strlit("REQUEST_URI");
    reveal_strlit("REQUEST_URI_RAW");
    reveal_strlit("RESPONSE_BODY");
    reveal_strlit("RESPONSE_HEADERS");
    reveal_strlit("RESPONSE_STATUS");
    reveal_strlit("TX");
    reveal_strlit("UNIQUE_ID");
    reveal_strlit("XML");
}

/// An exclusion of one collection leaves the members of a collection with
/// another name alone, also where that name starts with the first.
pub proof fn exclusion_stays_in_its_collection(
    target: TargetView,
    collection: Collection,
    member: Seq<char>,
)
    requires
        canonical_name(target.collection) != canonical_name(collection),
    ensures
        !excludes(target, qualified(canonical_name(collection), member)),
{
    let a = canonical_name(target.collection);
    let b = canonical_name(collection);
    let name = qualified(b, member);
    reveal_strlit(":");
    lemma_names_hold_no_colon(target.collection);
    lemma_names_hold_no_colon(collection);
    if member_of(name, a) is Some {
        assert(name.take(a.len() as int) == a);
        if a.len() < b.len() {
            assert(name.skip(a.len() as int)[0] == b[a.len() as int]);
            assert(b.contains(b[a.len() as int]));
        } else if a.len() > b.len() {
            assert(a[b.len() as int] == name.take(a.len() as int)[b.len() as int]);
            assert(name[b.len() as int] == ':');
            assert(a.contains(a[b.len() as int]));
        } else {
            assert(name.take(a.len() as int) =~= b);
        }
    }
}

/// A `&COLLECTION` target counts what the same target without the `&` inspects,
/// so a selector narrows the count: of a collection of named members each member,
/// whatever its value, and of a scalar the one value where it is not empty.
pub proof fn counts_are_of_what_is_inspected(v: VariablesView, target: TargetView)
    ensures
        ({
            let found = inspected(
                v,
                seq![TargetView { count: false, exclusion: false, ..target }],
            );
            let count = member_count(v, target.collection, target.selector);
            &&& holds_members(target.collection) ==> count == found.len()
            &&& !holds_members(target.collection) ==> found.len() == 1 && count == if found[0].value.len()
                > 0 {
                1nat
            } else {
                0
            }
            &&& inspected(v, seq![TargetView { count: true, exclusion: false, ..target }])
                == number_value(canonical_name(target.collection), count)
        }),
{
    let plain = TargetView { count: false, exclusion: false, ..target };
    let counting = TargetView { count: true, exclusion: false, ..target };
    let values = collection_values(v, target.collection, target.selector);
    lemma_one_target(v, plain);
    lemma_one_target(v, counting);
    if !holds_members(target.collection) {
        reveal_with_fuel(set_values, 2);
        assert(values.len() == 1);
        assert(values.drop_last() =~= seq![]);
        assert(values.last() == values[0]);
    }
}

pub proof fn lemma_one_target(v: VariablesView, target: TargetView)
    requires
        !target.exclusion,
    ensures
        inspected(v, seq![target]) == target_values(v, target),
{
    let targets = seq![target];
    reveal_with_fuel(collected, 2);
    assert(targets.last() == target);
    assert(targets.drop_last() =~= seq![]);
    assert(collected(v, targets) =~= target_values(v, target));
    lemma_nothing_excluded(collected(v, targets), targets);
}

} // verus!

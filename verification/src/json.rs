//! Flattening a JSON body into `ARGS`.
//!
//! SecLang has no JSON collection: the JSON body processor flattens the
//! document into the argument collection, so the same rules that inspect form
//! fields inspect JSON fields. Keys become argument names and scalars become
//! values, which is what lets a rule written for `ARGS` catch a payload posted
//! as JSON.

use crate::bytes::bytes_of;
use crate::collections::pairs_view;
use crate::collections::Entries;
use crate::text::decimal;
use crate::text::joined;
use crate::text::joined3;
use crate::text::same_str;
use crate::text::text_less;
use crate::text::texts_are_ordered;
use crate::text::write_decimal;
use serde_json::Value as Document;
use vstd::prelude::*;
use vstd::utf8::encode_utf8;

verus! {

// ---------------------------------------------------------------------------
// Documents

/// A JSON document. Numbers are kept as they print.
#[derive(Debug)]
pub enum Json {
    Null,
    Bool(bool),
    Number(String),
    Text(String),
    Array(Vec<Json>),
    /// The members, in the order of their keys.
    Object(Vec<(String, Json)>),
}

/// The view of a [`Json`] document.
pub enum JsonView {
    Null,
    Bool(bool),
    Number(Seq<char>),
    Text(Seq<char>),
    Array(Seq<JsonView>),
    Object(Seq<(Seq<char>, JsonView)>),
}

/// What a document shows.
pub open spec fn json_view(value: Json) -> JsonView
    decreases value,
{
    match value {
        Json::Null => JsonView::Null,
        Json::Bool(b) => JsonView::Bool(b),
        Json::Number(s) => JsonView::Number(s@),
        Json::Text(s) => JsonView::Text(s@),
        Json::Array(items) => JsonView::Array(
            Seq::new(
                items@.len(),
                |i: int|
                    if 0 <= i < items@.len() {
                        json_view(items@[i])
                    } else {
                        JsonView::Null
                    },
            ),
        ),
        Json::Object(members) => JsonView::Object(
            Seq::new(
                members@.len(),
                |i: int|
                    if 0 <= i < members@.len() {
                        (members@[i].0@, json_view(members@[i].1))
                    } else {
                        (seq![], JsonView::Null)
                    },
            ),
        ),
    }
}

/// Whether members stand in the order of their keys, each key once.
pub open spec fn keys_ascend(members: Seq<(Seq<char>, JsonView)>) -> bool {
    forall|i: int, j: int|
        0 <= i < j < members.len() ==> text_less((#[trigger] members[i]).0, (#[trigger] members[j]).0)
}

/// Whether the keys of every object in a document ascend.
pub open spec fn is_sorted(value: JsonView) -> bool
    decreases value,
{
    match value {
        JsonView::Array(items) => forall|i: int|
            0 <= i < items.len() ==> is_sorted(#[trigger] items[i]),
        JsonView::Object(members) => keys_ascend(members) && forall|i: int|
            0 <= i < members.len() ==> is_sorted((#[trigger] members[i]).1),
        _ => true,
    }
}

// ---------------------------------------------------------------------------
// Reading

/// `serde_json::Value`, a parsed document.
#[verifier::external_type_specification]
#[verifier::external_body]
pub struct ExDocument(Document);

/// What a `serde_json::Value` holds, with each number as it prints.
pub uninterp spec fn document_in(value: Document) -> JsonView;

/// What `serde_json::from_slice` reads a body as: a document, or the message of
/// its error.
pub uninterp spec fn json_document(body: Seq<u8>) -> Result<JsonView, Seq<char>>;

/// `serde_json::from_slice` into a `serde_json::Value`. The result is only named:
/// which bodies are JSON, and what an error says, is for `serde_json` to tell.
#[verifier::external_body]
fn read_document(body: &[u8]) -> (r: Result<Document, String>)
    ensures
        (match r {
            Ok(value) => json_document(body@) == Ok::<JsonView, Seq<char>>(document_in(value)),
            Err(e) => json_document(body@) == Err::<JsonView, Seq<char>>(e@),
        }),
{
    match serde_json::from_slice::<Document>(body) {
        Ok(value) => Ok(value),
        Err(e) => Err(e.to_string()),
    }
}

/// What `serde_json::Value`s hold.
pub open spec fn documents_in(values: Seq<Document>) -> Seq<JsonView> {
    Seq::new(values.len(), |i: int| document_in(values[i]))
}

/// What `serde_json::from_str` reads a text as that should be a list of documents:
/// those documents, or the message of its error.
pub uninterp spec fn json_documents(text: Seq<char>) -> Result<Seq<JsonView>, Seq<char>>;

/// `serde_json::from_str` into a `Vec` of `serde_json::Value`s. It succeeds where
/// the text is a document that is an array, and then gives the items of that
/// array; what an error says is only named.
#[verifier::external_body]
pub(crate) fn read_documents(text: &str) -> (r: Result<Vec<Document>, String>)
    ensures
        (match r {
            Ok(values) => json_documents(text@) == Ok::<Seq<JsonView>, Seq<char>>(
                documents_in(values@),
            ),
            Err(e) => json_documents(text@) == Err::<Seq<JsonView>, Seq<char>>(e@),
        }),
        (match json_document(encode_utf8(text@)) {
            Ok(JsonView::Array(items)) => r is Ok && documents_in(r->Ok_0@) == items,
            _ => r is Err,
        }),
{
    match serde_json::from_str::<Vec<Document>>(text) {
        Ok(values) => Ok(values),
        Err(e) => Err(e.to_string()),
    }
}

/// What a document is written as, without white space.
pub uninterp spec fn document_text(value: JsonView) -> Seq<char>;

/// The `Display` of `serde_json::Value`, its compact format. The text is only
/// named, by what the value holds.
#[verifier::external_body]
pub(crate) fn write_document(value: &Document) -> (r: String)
    ensures
        r@ == document_text(document_in(*value)),
{
    value.to_string()
}

/// One level of a `serde_json::Value`.
enum Node<'a> {
    Null,
    Bool(bool),
    Number(String),
    Text(String),
    Array(&'a Vec<Document>),
    Object(Vec<(&'a String, &'a Document)>),
}

spec fn node_view(node: Node<'_>) -> JsonView {
    match node {
        Node::Null => JsonView::Null,
        Node::Bool(b) => JsonView::Bool(b),
        Node::Number(s) => JsonView::Number(s@),
        Node::Text(s) => JsonView::Text(s@),
        Node::Array(items) => JsonView::Array(
            Seq::new(items@.len(), |i: int| document_in(items@[i])),
        ),
        Node::Object(members) => JsonView::Object(
            Seq::new(members@.len(), |i: int| (members@[i].0@, document_in(*members@[i].1))),
        ),
    }
}

/// The variants of `serde_json::Value`, told apart. A `serde_json::Map` walks its
/// members in the order of their keys, each key once.
#[verifier::external_body]
fn open_value(value: &Document) -> (r: Node<'_>)
    ensures
        node_view(r) == document_in(*value),
        node_view(r) matches JsonView::Object(members) ==> keys_ascend(members),
{
    match value {
        Document::Null => Node::Null,
        Document::Bool(b) => Node::Bool(*b),
        Document::Number(n) => Node::Number(n.to_string()),
        Document::String(s) => Node::Text(s.clone()),
        Document::Array(items) => Node::Array(items),
        Document::Object(map) => Node::Object(map.iter().collect()),
    }
}

/// The document that a `serde_json::Value` holds.
pub(crate) fn document_of(value: &Document) -> (r: Json)
    ensures
        json_view(r) == document_in(*value),
        is_sorted(document_in(*value)),
    decreases document_in(*value),
{
    let ghost shown = document_in(*value);
    match open_value(value) {
        Node::Null => Json::Null,
        Node::Bool(b) => Json::Bool(b),
        Node::Number(s) => Json::Number(s),
        Node::Text(s) => Json::Text(s),
        Node::Array(items) => {
            let ghost all = shown->Array_0;
            let mut out: Vec<Json> = Vec::new();
            let mut i: usize = 0;
            while i < items.len()
                invariant
                    i <= items@.len(),
                    out@.len() == i,
                    shown == document_in(*value),
                    shown == JsonView::Array(all),
                    all.len() == items@.len(),
                    forall|k: int| 0 <= k < items@.len() ==> all[k] == document_in(#[trigger] items@[k]),
                    forall|k: int| 0 <= k < i ==> json_view(#[trigger] out@[k]) == all[k],
                    forall|k: int| 0 <= k < i ==> is_sorted(#[trigger] all[k]),
                decreases items@.len() - i,
            {
                assert(all[i as int] == document_in(items@[i as int]));
                assert(decreases_to!(shown => shown->Array_0));
                assert(decreases_to!(all => all[i as int]));
                out.push(document_of(&items[i]));
                i += 1;
            }
            let r = Json::Array(out);
            assert(json_view(r)->Array_0 =~= all);
            r
        },
        Node::Object(members) => {
            let ghost all = shown->Object_0;
            let mut out: Vec<(String, Json)> = Vec::new();
            let mut i: usize = 0;
            while i < members.len()
                invariant
                    i <= members@.len(),
                    out@.len() == i,
                    shown == document_in(*value),
                    shown == JsonView::Object(all),
                    all.len() == members@.len(),
                    forall|k: int|
                        0 <= k < members@.len() ==> all[k] == (
                            (#[trigger] members@[k]).0@,
                            document_in(*members@[k].1),
                        ),
                    forall|k: int|
                        0 <= k < i ==> ((#[trigger] out@[k]).0@, json_view(out@[k].1)) == all[k],
                    forall|k: int| 0 <= k < i ==> is_sorted((#[trigger] all[k]).1),
                decreases members@.len() - i,
            {
                let (key, child) = members[i];
                assert(all[i as int] == (key@, document_in(*child)));
                assert(decreases_to!(shown => shown->Object_0));
                assert(decreases_to!(all => all[i as int]));
                assert(decreases_to!(all[i as int] => all[i as int].1));
                out.push((key.clone(), document_of(child)));
                i += 1;
            }
            let r = Json::Object(out);
            assert(json_view(r)->Object_0 =~= all);
            r
        },
    }
}

// ---------------------------------------------------------------------------
// Members

/// The text under a key among some members, where there is one. Any other value
/// there is no text.
pub open spec fn member_text(members: Seq<(Seq<char>, JsonView)>, key: Seq<char>) -> Option<
    Seq<char>,
>
    decreases members.len(),
{
    if members.len() == 0 {
        None
    } else if members[0].0 != key {
        member_text(members.drop_first(), key)
    } else {
        match members[0].1 {
            JsonView::Text(s) => Some(s),
            _ => None,
        }
    }
}

/// The text that a document has under a key, where it is an object with one.
pub open spec fn text_under(value: JsonView, key: Seq<char>) -> Option<Seq<char>> {
    match value {
        JsonView::Object(members) => member_text(members, key),
        _ => None,
    }
}

/// The text that a document has under a key, where it is an object with one.
pub fn text_at(value: &Json, key: &str) -> (r: Option<String>)
    ensures
        r.deep_view() == text_under(json_view(*value), key@),
{
    match value {
        Json::Object(members) => {
            let ghost all = json_view(*value)->Object_0;
            let mut i: usize = 0;
            assert(all.skip(0) =~= all);
            while i < members.len()
                invariant
                    i <= members@.len(),
                    all.len() == members@.len(),
                    forall|k: int|
                        0 <= k < members@.len() ==> #[trigger] all[k] == (
                            members@[k].0@,
                            json_view(members@[k].1),
                        ),
                    member_text(all, key@) == member_text(all.skip(i as int), key@),
                    text_under(json_view(*value), key@) == member_text(all, key@),
                decreases members@.len() - i,
            {
                assert(all.skip(i as int)[0] == all[i as int]);
                assert(all.skip(i as int).drop_first() =~= all.skip(i + 1));
                if same_str(members[i].0.as_str(), key) {
                    return match &members[i].1 {
                        Json::Text(s) => Some(s.clone()),
                        _ => None,
                    };
                }
                i += 1;
            }
            None
        },
        _ => None,
    }
}

// ---------------------------------------------------------------------------
// Flattening

/// A path with one more segment.
pub open spec fn path_to(path: Seq<char>, segment: Seq<char>) -> Seq<char> {
    path + "."@ + segment
}

/// The text of a boolean.
pub open spec fn bool_text(b: bool) -> Seq<char> {
    if b {
        "true"@
    } else {
        "false"@
    }
}

/// The arguments that a document under a path becomes. A null carries no value
/// to inspect, but its name is still there.
pub open spec fn flattened(path: Seq<char>, value: JsonView) -> Entries
    decreases value,
{
    match value {
        JsonView::Null => seq![(path, seq![])],
        JsonView::Bool(b) => seq![(path, encode_utf8(bool_text(b)))],
        JsonView::Number(s) => seq![(path, encode_utf8(s))],
        JsonView::Text(s) => seq![(path, encode_utf8(s))],
        JsonView::Array(items) => flattened_items(path, items),
        JsonView::Object(members) => flattened_members(path, members),
    }
}

/// The arguments that the items of an array become, under their indices.
pub open spec fn flattened_items(path: Seq<char>, items: Seq<JsonView>) -> Entries
    decreases items,
{
    if items.len() == 0 {
        seq![]
    } else {
        let last = items.len() - 1;
        flattened_items(path, items.subrange(0, last)) + flattened(
            path_to(path, decimal(last as nat)),
            items[last],
        )
    }
}

/// The arguments that the members of an object become, under their keys.
pub open spec fn flattened_members(path: Seq<char>, members: Seq<(Seq<char>, JsonView)>) -> Entries
    decreases members,
{
    if members.len() == 0 {
        seq![]
    } else {
        let last = members.len() - 1;
        flattened_members(path, members.subrange(0, last)) + flattened(
            path_to(path, members[last].0),
            members[last].1,
        )
    }
}

fn walk(path: &str, value: &Json, out: &mut Vec<(String, Vec<u8>)>)
    ensures
        pairs_view(final(out)@) == pairs_view(old(out)@) + flattened(path@, json_view(*value)),
    decreases *value,
{
    let ghost start = pairs_view(out@);
    match value {
        Json::Null => {
            out.push((path.to_string(), Vec::new()));
            assert(pairs_view(out@) =~= start + flattened(path@, json_view(*value)));
        },
        Json::Bool(b) => {
            let text = if *b {
                "true"
            } else {
                "false"
            };
            out.push((path.to_string(), bytes_of(text)));
            assert(pairs_view(out@) =~= start + flattened(path@, json_view(*value)));
        },
        Json::Number(s) => {
            out.push((path.to_string(), bytes_of(s.as_str())));
            assert(pairs_view(out@) =~= start + flattened(path@, json_view(*value)));
        },
        Json::Text(s) => {
            out.push((path.to_string(), bytes_of(s.as_str())));
            assert(pairs_view(out@) =~= start + flattened(path@, json_view(*value)));
        },
        Json::Array(items) => {
            let ghost all = json_view(*value)->Array_0;
            let mut i: usize = 0;
            assert(all.subrange(0, 0) =~= seq![]);
            assert(start + flattened_items(path@, all.subrange(0, 0)) =~= start);
            while i < items.len()
                invariant
                    i <= items@.len(),
                    *value == Json::Array(*items),
                    json_view(*value) == JsonView::Array(all),
                    all.len() == items@.len(),
                    pairs_view(out@) == start + flattened_items(
                        path@,
                        all.subrange(0, i as int),
                    ),
                decreases items@.len() - i,
            {
                let ghost done = flattened_items(path@, all.subrange(0, i as int));
                let ghost upto = all.subrange(0, i + 1);
                assert(upto.subrange(0, i as int) =~= all.subrange(0, i as int));
                assert(upto[i as int] == json_view(items@[i as int]));
                assert(decreases_to!(*value => items@));
                assert(decreases_to!(items@ => items@[i as int]));
                let index = write_decimal(i as u64);
                let deeper = joined3(path, ".", index.as_str());
                walk(deeper.as_str(), &items[i], out);
                assert(start + done + flattened(deeper@, upto[i as int]) =~= start + (done
                    + flattened(deeper@, upto[i as int])));
                i += 1;
            }
            assert(all.subrange(0, i as int) =~= all);
        },
        Json::Object(members) => {
            let ghost all = json_view(*value)->Object_0;
            let mut i: usize = 0;
            assert(all.subrange(0, 0) =~= seq![]);
            assert(start + flattened_members(path@, all.subrange(0, 0)) =~= start);
            while i < members.len()
                invariant
                    i <= members@.len(),
                    *value == Json::Object(*members),
                    json_view(*value) == JsonView::Object(all),
                    all.len() == members@.len(),
                    pairs_view(out@) == start + flattened_members(
                        path@,
                        all.subrange(0, i as int),
                    ),
                decreases members@.len() - i,
            {
                let ghost done = flattened_members(path@, all.subrange(0, i as int));
                let ghost upto = all.subrange(0, i + 1);
                assert(upto.subrange(0, i as int) =~= all.subrange(0, i as int));
                assert(upto[i as int] == (members@[i as int].0@, json_view(members@[i as int].1)));
                assert(decreases_to!(*value => members@));
                assert(decreases_to!(members@ => members@[i as int]));
                assert(decreases_to!(members@[i as int] => members@[i as int].1));
                let deeper = joined3(path, ".", members[i].0.as_str());
                walk(deeper.as_str(), &members[i].1, out);
                assert(start + done + flattened(deeper@, upto[i as int].1) =~= start + (done
                    + flattened(deeper@, upto[i as int].1)));
                i += 1;
            }
            assert(all.subrange(0, i as int) =~= all);
        },
    }
}

/// The arguments that a document becomes.
pub fn arguments_of(value: &Json) -> (r: Vec<(String, Vec<u8>)>)
    ensures
        pairs_view(r@) == flattened("json"@, json_view(*value)),
{
    let mut out: Vec<(String, Vec<u8>)> = Vec::new();
    let ghost before = pairs_view(out@);
    walk("json", value, &mut out);
    assert(before + flattened("json"@, json_view(*value)) =~= flattened(
        "json"@,
        json_view(*value),
    ));
    out
}

/// Flatten a JSON document into `(name, value)` argument pairs.
///
/// Names follow the `json.path.to.field` convention, with array indices as
/// path segments. Returns an error for a malformed document, which the caller
/// surfaces as `REQBODY_ERROR`: a body the parser cannot read must not be
/// reported as clean.
///
/// Object keys come out sorted rather than in document order. Every field is
/// inspected either way, so this only affects which one `MATCHED_VAR` names
/// when several match.
pub fn flatten(body: &[u8]) -> (r: Result<Vec<(String, Vec<u8>)>, String>)
    ensures
        (match json_document(body@) {
            Ok(document) => is_sorted(document) && r is Ok && pairs_view(r->Ok_0@) == flattened(
                "json"@,
                document,
            ),
            Err(reason) => r is Err && r->Err_0@ == "malformed JSON: "@ + reason,
        }),
{
    match read_document(body) {
        Ok(value) => {
            let document = document_of(&value);
            Ok(arguments_of(&document))
        },
        Err(e) => Err(joined("malformed JSON: ", e.as_str())),
    }
}

// ---------------------------------------------------------------------------
// Laws

/// How many scalars a document holds.
pub open spec fn leaves(value: JsonView) -> nat
    decreases value,
{
    match value {
        JsonView::Array(items) => leaves_of_items(items),
        JsonView::Object(members) => leaves_of_members(members),
        _ => 1,
    }
}

/// How many scalars the items of an array hold.
pub open spec fn leaves_of_items(items: Seq<JsonView>) -> nat
    decreases items,
{
    if items.len() == 0 {
        0
    } else {
        let last = items.len() - 1;
        leaves_of_items(items.subrange(0, last)) + leaves(items[last])
    }
}

/// How many scalars the members of an object hold.
pub open spec fn leaves_of_members(members: Seq<(Seq<char>, JsonView)>) -> nat
    decreases members,
{
    if members.len() == 0 {
        0
    } else {
        let last = members.len() - 1;
        leaves_of_members(members.subrange(0, last)) + leaves(members[last].1)
    }
}

/// Whether every name in a list starts with a path.
pub open spec fn all_under(path: Seq<char>, entries: Entries) -> bool {
    forall|i: int| 0 <= i < entries.len() ==> path.is_prefix_of((#[trigger] entries[i]).0)
}

proof fn lemma_under(path: Seq<char>, segment: Seq<char>, a: Entries, b: Entries)
    requires
        all_under(path, a),
        all_under(path_to(path, segment), b),
    ensures
        all_under(path, a + b),
{
    assert forall|i: int| 0 <= i < (a + b).len() implies path.is_prefix_of(
        (#[trigger] (a + b)[i]).0,
    ) by {
        if i < a.len() {
            assert((a + b)[i] == a[i]);
        } else {
            let name = b[i - a.len()].0;
            assert((a + b)[i] == b[i - a.len()]);
            let deeper = path_to(path, segment);
            assert(deeper =~= name.subrange(0, deeper.len() as int));
            assert(path =~= name.subrange(0, path.len() as int)) by {
                assert forall|k: int| 0 <= k < path.len() implies path[k] == name[k] by {
                    assert(deeper[k] == path[k]);
                    assert(name.subrange(0, deeper.len() as int)[k] == name[k]);
                }
            }
        }
    }
}

/// No scalar is lost in flattening: every one becomes an argument of its own,
/// under a name that starts with the path of the document.
pub proof fn every_scalar_becomes_an_argument(path: Seq<char>, value: JsonView)
    ensures
        flattened(path, value).len() == leaves(value),
        all_under(path, flattened(path, value)),
    decreases value, 1nat,
{
    match value {
        JsonView::Array(items) => {
            lemma_items(path, items);
        },
        JsonView::Object(members) => {
            lemma_members(path, members);
        },
        _ => {
            assert(path =~= path.subrange(0, path.len() as int));
        },
    }
}

proof fn lemma_items(path: Seq<char>, items: Seq<JsonView>)
    ensures
        flattened_items(path, items).len() == leaves_of_items(items),
        all_under(path, flattened_items(path, items)),
    decreases items, 0nat,
{
    if items.len() > 0 {
        let last = items.len() - 1;
        let segment = decimal(last as nat);
        lemma_items(path, items.subrange(0, last));
        every_scalar_becomes_an_argument(path_to(path, segment), items[last]);
        lemma_under(
            path,
            segment,
            flattened_items(path, items.subrange(0, last)),
            flattened(path_to(path, segment), items[last]),
        );
    }
}

proof fn lemma_members(path: Seq<char>, members: Seq<(Seq<char>, JsonView)>)
    ensures
        flattened_members(path, members).len() == leaves_of_members(members),
        all_under(path, flattened_members(path, members)),
    decreases members, 0nat,
{
    if members.len() > 0 {
        let last = members.len() - 1;
        lemma_members(path, members.subrange(0, last));
        every_scalar_becomes_an_argument(path_to(path, members[last].0), members[last].1);
        lemma_under(
            path,
            members[last].0,
            flattened_members(path, members.subrange(0, last)),
            flattened(path_to(path, members[last].0), members[last].1),
        );
    }
}

/// A text is found by its key: where keys ascend, as a document has them, each
/// member is the one under its key.
pub proof fn members_are_found_by_their_key(members: Seq<(Seq<char>, JsonView)>, i: int)
    requires
        keys_ascend(members),
        0 <= i < members.len(),
    ensures
        member_text(members, members[i].0) == match members[i].1 {
            JsonView::Text(s) => Some(s),
            _ => None,
        },
    decreases members.len(),
{
    if i > 0 {
        let rest = members.drop_first();
        texts_are_ordered(members[0].0, members[0].0);
        assert(text_less(members[0].0, members[i].0));
        assert(keys_ascend(rest)) by {
            assert forall|a: int, b: int| 0 <= a < b < rest.len() implies text_less(
                #[trigger] rest[a].0,
                #[trigger] rest[b].0,
            ) by {
                assert(rest[a] == members[a + 1] && rest[b] == members[b + 1]);
            }
        }
        members_are_found_by_their_key(rest, i - 1);
    }
}

} // verus!

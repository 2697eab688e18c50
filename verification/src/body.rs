//! Reading a request body into the variables that rules inspect.
//!
//! Forms and JSON documents become arguments, and a multipart body becomes
//! arguments, files and part headers. A body that cannot be read is refused
//! rather than inspected against empty collections.

use crate::bytes::bytes_of;
use crate::collections::capped_size;
use crate::collections::pairs_view;
use crate::collections::BodyError;
use crate::collections::BodyErrorView;
use crate::collections::Variables;
use crate::collections::VariablesView;
use crate::form::parse_urlencoded;
use crate::form::urlencoded;
use crate::json::flatten;
use crate::json::flattened;
use crate::json::json_document;
use crate::multipart::boundary_in;
use crate::multipart::boundary_of;
use crate::multipart::parse;
use crate::multipart::parsed;
use crate::multipart::Multipart;
use crate::multipart::Part;
use crate::multipart::PartView;
use crate::text::chars_of;
use crate::text::lower;
use crate::text::same;
use crate::text::split;
use crate::text::split_chars;
use crate::text::to_lower;
use crate::text::trim;
use crate::text::trimmed;
use crate::text::views;
use vstd::prelude::*;
use vstd::slice::slice_to_vec;
use vstd::utf8::encode_utf8;

verus! {

// ---------------------------------------------------------------------------
// Media types

/// The media type that a `Content-Type` declares: lower-cased, without its
/// parameters.
pub open spec fn media_type(content_type: Seq<char>) -> Seq<char> {
    trimmed(split(lower(content_type), ';')[0])
}

/// How a body is to be read.
#[derive(Debug, Clone, Copy, PartialEq, Eq, Structural)]
pub enum BodyFormat {
    Form,
    Multipart,
    Xml,
    Json,
    /// Not one that is read into collections.
    Other,
}

/// The format of a body that a `Content-Type` declares.
pub open spec fn declared_format(content_type: Option<Seq<char>>) -> BodyFormat {
    match content_type {
        None => BodyFormat::Other,
        Some(declared) => {
            let media = media_type(declared);
            if media == "application/x-www-form-urlencoded"@ {
                BodyFormat::Form
            } else if media == "multipart/form-data"@ {
                BodyFormat::Multipart
            } else if media == "text/xml"@ || media == "application/xml"@ || media
                == "application/soap+xml"@ {
                BodyFormat::Xml
            } else if media == "application/json"@ {
                BodyFormat::Json
            } else {
                BodyFormat::Other
            }
        },
    }
}

/// The text that an optional header value holds.
pub open spec fn header_text(value: Option<&str>) -> Option<Seq<char>> {
    match value {
        Some(s) => Some(s@),
        None => None,
    }
}

/// The format of a body that a `Content-Type` declares.
pub fn body_format(content_type: Option<&str>) -> (r: BodyFormat)
    ensures
        r == declared_format(header_text(content_type)),
{
    match content_type {
        None => BodyFormat::Other,
        Some(declared) => {
            let lowered = to_lower(chars_of(declared).as_slice());
            let parts = split_chars(lowered.as_slice(), ';');
            let media = trim(parts[0]);
            assert(views(parts@)[0] == parts@[0]@);
            assert(media@ =~= media_type(declared@));
            if same(media, "application/x-www-form-urlencoded") {
                BodyFormat::Form
            } else if same(media, "multipart/form-data") {
                BodyFormat::Multipart
            } else if same(media, "text/xml") || same(media, "application/xml") || same(
                media,
                "application/soap+xml",
            ) {
                BodyFormat::Xml
            } else if same(media, "application/json") {
                BodyFormat::Json
            } else {
                BodyFormat::Other
            }
        },
    }
}

/// The name of the processor of a format, as `REQBODY_PROCESSOR` reports it.
pub open spec fn processor_name(format: BodyFormat) -> Option<Seq<char>> {
    match format {
        BodyFormat::Form => Some("URLENCODED"@),
        BodyFormat::Multipart => Some("MULTIPART"@),
        BodyFormat::Xml => Some("XML"@),
        BodyFormat::Json => Some("JSON"@),
        BodyFormat::Other => None,
    }
}

/// The name of the processor of a format, as `REQBODY_PROCESSOR` reports it.
pub fn processor_of(format: BodyFormat) -> (r: Option<&'static str>)
    ensures
        header_text(r) == processor_name(format),
{
    match format {
        BodyFormat::Form => Some("URLENCODED"),
        BodyFormat::Multipart => Some("MULTIPART"),
        BodyFormat::Xml => Some("XML"),
        BodyFormat::Json => Some("JSON"),
        BodyFormat::Other => None,
    }
}

// ---------------------------------------------------------------------------
// Multipart bodies

/// The name that the value of a part goes under; a part without one still has a
/// value to inspect.
pub open spec fn part_name(part: PartView) -> Seq<char> {
    match part.name {
        Some(name) => name,
        None => seq![],
    }
}

/// The variables after one part of a multipart body. Its header lines are kept
/// as they are. A part with a filename is a file, listed by that filename and
/// counted by its content; any other is an argument.
pub open spec fn with_part(vars: VariablesView, part: PartView) -> VariablesView {
    let headed = VariablesView {
        multipart_part_headers: vars.multipart_part_headers + part.header_lines,
        ..vars
    };
    match part.filename {
        Some(filename) => VariablesView {
            files: headed.files.push((part_name(part), encode_utf8(filename))),
            files_content_size: capped_size(headed.files_content_size as nat + part.content.len()),
            ..headed
        },
        None => VariablesView {
            args_post: headed.args_post.push((part_name(part), part.content)),
            ..headed
        },
    }
}

/// The variables after some parts of a multipart body, in order.
pub open spec fn with_parts(vars: VariablesView, parts: Seq<PartView>) -> VariablesView
    decreases parts.len(),
{
    if parts.len() == 0 {
        vars
    } else {
        with_part(with_parts(vars, parts.drop_last()), parts.last())
    }
}

/// What a multipart body reads as, or why it cannot be read.
pub open spec fn multipart_read(
    vars: VariablesView,
    body: Seq<u8>,
    content_type: Seq<char>,
) -> Result<VariablesView, BodyErrorView> {
    match boundary_in(split(content_type, ';').drop_first()) {
        None => Err(BodyErrorView::Malformed("multipart body without a boundary"@)),
        Some(boundary) => match parsed(body, boundary) {
            Ok(parts) => Ok(with_parts(vars, parts)),
            Err(reason) => Err(BodyErrorView::Malformed(reason)),
        },
    }
}

fn add_part(vars: &mut Variables, part: &Part)
    ensures
        final(vars).deep_view() == with_part(old(vars).deep_view(), part.deep_view()),
{
    let ghost start = vars.deep_view();
    let ghost lines = pairs_view(part.header_lines@);
    let mut i: usize = 0;
    assert(start.multipart_part_headers + lines.take(0) =~= start.multipart_part_headers);
    while i < part.header_lines.len()
        invariant
            i <= part.header_lines@.len(),
            lines == pairs_view(part.header_lines@),
            vars.deep_view() == (VariablesView {
                multipart_part_headers: start.multipart_part_headers + lines.take(i as int),
                ..start
            }),
        decreases part.header_lines@.len() - i,
    {
        let line = &part.header_lines[i];
        vars.multipart_part_headers.push(line.0.as_str(), line.1.as_slice());
        assert(start.multipart_part_headers + lines.take(i + 1) =~= (start.multipart_part_headers
            + lines.take(i as int)).push(lines[i as int]));
        i += 1;
    }
    assert(lines.take(i as int) =~= lines);
    let name: String = match &part.name {
        Some(name) => name.clone(),
        None => String::new(),
    };
    assert(name@ =~= part_name(part.deep_view()));
    match &part.filename {
        Some(filename) => {
            vars.files.push_owned(name, bytes_of(filename.as_str()));
            vars.files_content_size = vars.files_content_size.saturating_add(part.content.len());
        },
        None => {
            vars.args_post.push_owned(name, slice_to_vec(part.content.as_slice()));
        },
    }
    assert(vars.deep_view() =~= with_part(start, part.deep_view()));
}

fn add_parts(vars: &mut Variables, multipart: &Multipart)
    ensures
        final(vars).deep_view() == with_parts(
            old(vars).deep_view(),
            multipart.parts.deep_view(),
        ),
{
    let ghost start = vars.deep_view();
    let ghost all = multipart.parts.deep_view();
    let mut i: usize = 0;
    assert(all.take(0) =~= seq![]);
    while i < multipart.parts.len()
        invariant
            i <= multipart.parts@.len(),
            all == multipart.parts.deep_view(),
            vars.deep_view() == with_parts(start, all.take(i as int)),
        decreases multipart.parts@.len() - i,
    {
        assert(all.take(i + 1).drop_last() =~= all.take(i as int));
        assert(all.take(i + 1).last() == multipart.parts@[i as int].deep_view());
        add_part(vars, &multipart.parts[i]);
        i += 1;
    }
    assert(all.take(i as int) =~= all);
}

// ---------------------------------------------------------------------------
// Bodies

/// What a body reads as, or why it cannot be read. XML has no reader here: an
/// XML payload must be refused rather than inspected against an empty collection.
pub open spec fn body_read(
    vars: VariablesView,
    body: Seq<u8>,
    content_type: Option<Seq<char>>,
) -> Result<VariablesView, BodyErrorView> {
    match declared_format(content_type) {
        BodyFormat::Form => Ok(
            VariablesView { args_post: vars.args_post + urlencoded(body), ..vars },
        ),
        BodyFormat::Multipart => multipart_read(vars, body, content_type->0),
        BodyFormat::Xml => Err(
            BodyErrorView::UnsupportedFormat("XML bodies are not parsed yet"@),
        ),
        BodyFormat::Json => match json_document(body) {
            Ok(document) => Ok(
                VariablesView {
                    args_post: vars.args_post + flattened("json"@, document),
                    ..vars
                },
            ),
            Err(reason) => Err(BodyErrorView::Malformed("malformed JSON: "@ + reason)),
        },
        BodyFormat::Other => Ok(vars),
    }
}

/// Read a body into the variables according to `content_type`. Where it cannot
/// be read, the variables stay as they are.
pub fn read_body(vars: &mut Variables, body: &[u8], content_type: Option<&str>) -> (r: Option<
    BodyError,
>)
    ensures
        (match body_read(old(vars).deep_view(), body@, header_text(content_type)) {
            Ok(read) => r is None && final(vars).deep_view() == read,
            Err(error) => r.deep_view() == Some(error) && final(vars).deep_view() == old(
                vars,
            ).deep_view(),
        }),
{
    let ghost start = vars.deep_view();
    match body_format(content_type) {
        BodyFormat::Form => {
            vars.args_post.push_all(parse_urlencoded(body));
            assert(vars.deep_view() =~= (VariablesView {
                args_post: start.args_post + urlencoded(body@),
                ..start
            }));
            None
        },
        BodyFormat::Multipart => {
            let declared = match content_type {
                Some(declared) => declared,
                None => "",
            };
            match boundary_of(declared) {
                None => Some(
                    BodyError::Malformed("multipart body without a boundary".to_string()),
                ),
                Some(boundary) => match parse(body, boundary.as_str()) {
                    Ok(multipart) => {
                        add_parts(vars, &multipart);
                        None
                    },
                    Err(reason) => Some(BodyError::Malformed(reason)),
                },
            }
        },
        BodyFormat::Xml => Some(BodyError::UnsupportedFormat("XML bodies are not parsed yet")),
        BodyFormat::Json => match flatten(body) {
            Ok(arguments) => {
                vars.args_post.push_all(arguments);
                assert(vars.deep_view() =~= (VariablesView {
                    args_post: start.args_post + pairs_view(arguments@),
                    ..start
                }));
                None
            },
            Err(reason) => Some(BodyError::Malformed(reason)),
        },
        BodyFormat::Other => None,
    }
}

// ---------------------------------------------------------------------------
// Laws

proof fn lemma_parts_add(vars: VariablesView, parts: Seq<PartView>)
    ensures
        ({
            let after = with_parts(vars, parts);
            &&& vars.args_post.is_prefix_of(after.args_post)
            &&& vars.files.is_prefix_of(after.files)
            &&& vars.multipart_part_headers.is_prefix_of(after.multipart_part_headers)
            &&& vars.files_content_size <= after.files_content_size
            &&& after.args_post.len() + after.files.len() == vars.args_post.len()
                + vars.files.len() + parts.len()
            &&& after == VariablesView {
                args_post: after.args_post,
                files: after.files,
                multipart_part_headers: after.multipart_part_headers,
                files_content_size: after.files_content_size,
                ..vars
            }
        }),
    decreases parts.len(),
{
    if parts.len() > 0 {
        lemma_parts_add(vars, parts.drop_last());
    }
}

/// Every part of a multipart body is inspected: each becomes one more argument or
/// one more file, and nothing that was there is lost.
pub proof fn every_part_is_an_argument_or_a_file(vars: VariablesView, parts: Seq<PartView>)
    ensures
        ({
            let after = with_parts(vars, parts);
            &&& vars.args_post.is_prefix_of(after.args_post)
            &&& vars.files.is_prefix_of(after.files)
            &&& after.args_post.len() + after.files.len() == vars.args_post.len()
                + vars.files.len() + parts.len()
        }),
{
    lemma_parts_add(vars, parts);
}

/// Reading a body fills the arguments of the body, the files and the part
/// headers; every other variable stays as it is, the arguments of the query
/// string and `TX` among them.
pub proof fn bodies_fill_only_their_collections(
    vars: VariablesView,
    body: Seq<u8>,
    content_type: Option<Seq<char>>,
)
    ensures
        body_read(vars, body, content_type) matches Ok(after) ==> after == (VariablesView {
            args_post: after.args_post,
            files: after.files,
            multipart_part_headers: after.multipart_part_headers,
            files_content_size: after.files_content_size,
            ..vars
        }) && vars.args_post.is_prefix_of(after.args_post),
{
    if declared_format(content_type) is Multipart {
        if let Some(boundary) = boundary_in(split(content_type->0, ';').drop_first()) {
            if let Ok(parts) = parsed(body, boundary) {
                lemma_parts_add(vars, parts);
            }
        }
    } else if let Ok(after) = body_read(vars, body, content_type) {
        assert(vars.args_post =~= after.args_post.subrange(0, vars.args_post.len() as int));
    }
}

} // verus!

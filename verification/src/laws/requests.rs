//! How a request becomes variables: its line, its headers, its arguments and its
//! body; and what a `%{...}` reference reads of them.

use crate::action::Transformation;
use crate::body::body_read;
use crate::body::declared_format;
use crate::body::media_type;
use crate::body::processor_name;
use crate::body::with_part;
use crate::body::with_parts;
use crate::body::BodyFormat;
use crate::bytes::lossy_text;
use crate::collections::macro_value;
use crate::collections::tx_value;
use crate::collections::BodyErrorView;
use crate::collections::Entries;
use crate::collections::VariablesView;
use crate::form::blanks_off;
use crate::form::blanks_off_end;
use crate::form::blanks_off_start;
use crate::form::cookie_pairs;
use crate::form::cookies;
use crate::form::form_pairs;
use crate::form::joined_cookies_hold_the_pairs_of_both;
use crate::form::joined_forms_hold_the_pairs_of_both;
use crate::form::urlencoded;
use crate::form::with_ampersands;
use crate::json::flattened;
use crate::json::flattened_items;
use crate::json::flattened_members;
use crate::json::json_document;
use crate::json::JsonView;
use crate::laws::targets::names_are_compared_by_their_letters;
use crate::laws::targets::reads_the_same;
use crate::multipart::PartView;
use crate::text::decimal;
use crate::text::lemma_position;
use crate::text::lemma_position_is;
use crate::text::lower;
use crate::text::position;
use crate::text::split;
use crate::transaction::with_raw_body;
use crate::transaction::with_request_body;
use crate::transaction::with_request_header;
use crate::transaction::with_request_line;
use crate::transaction::TransactionView;
use crate::transform::transformed;
use vstd::prelude::*;
use vstd::utf8::encode_utf8;

verus! {

pub proof fn lemma_split_none<T>(s: Seq<T>, c: T)
    requires
        !s.contains(c),
    ensures
        split(s, c) == seq![s],
{
    lemma_position(s, c);
}

pub proof fn lemma_split_last<T>(a: Seq<T>, c: T, b: Seq<T>)
    requires
        !b.contains(c),
    ensures
        split(a.push(c) + b, c).last() == b,
        split(a.push(c) + b, c).len() > 0,
    decreases a.len(),
{
    let s = a.push(c) + b;
    let p = position(a, c);
    lemma_position(a, c);
    if p >= a.len() {
        lemma_position_is(s, c, a.len() as int);
        assert(s.skip(a.len() as int + 1) =~= b);
        lemma_split_none(b, c);
    } else {
        lemma_position_is(s, c, p);
        assert(s.skip(p + 1) =~= a.skip(p + 1).push(c) + b);
        lemma_split_last(a.skip(p + 1), c, b);
    }
}

// ---------------------------------------------------------------------------
// The request line

/// The request line fills the method, the protocol, the URI and the line itself. A
/// query behind the first `?` fills the query string and the arguments, and what is
/// before it is the file name. Nothing else changes.
pub proof fn request_lines_are_taken_apart(
    vars: VariablesView,
    method: Seq<char>,
    path: Seq<char>,
    query: Seq<char>,
    protocol: Seq<char>,
)
    requires
        !path.contains('?'),
    ensures
        ({
            let uri = path + seq!['?'] + query;
            let with = with_request_line(vars, method, uri, protocol);
            let without = with_request_line(vars, method, path, protocol);
            &&& with.request_method == encode_utf8(method)
            &&& with.request_uri == encode_utf8(uri)
            &&& with.request_uri_raw == encode_utf8(uri)
            &&& with.request_protocol == encode_utf8(protocol)
            &&& with.request_line == encode_utf8(
                method + seq![' '] + uri + seq![' '] + protocol,
            )
            &&& with.request_filename == encode_utf8(path)
            &&& with.query_string == encode_utf8(query)
            &&& with.args_get == vars.args_get + urlencoded(encode_utf8(query))
            &&& with.request_basename == without.request_basename
            &&& without.request_uri == encode_utf8(path)
            &&& without.request_filename == encode_utf8(path)
            &&& without.query_string == vars.query_string
            &&& without.args_get == vars.args_get
            &&& with == (VariablesView {
                request_method: with.request_method,
                request_uri: with.request_uri,
                request_uri_raw: with.request_uri_raw,
                request_protocol: with.request_protocol,
                request_line: with.request_line,
                request_filename: with.request_filename,
                request_basename: with.request_basename,
                query_string: with.query_string,
                args_get: with.args_get,
                ..vars
            })
        }),
{
    reveal_strlit(" ");
    assert(" "@ =~= seq![' ']);
    let uri = path + seq!['?'] + query;
    assert forall|j: int| 0 <= j < path.len() implies path[j] != '?' by {
        assert(path.contains(path[j]));
    }
    lemma_position_is(uri, '?', path.len() as int);
    lemma_position_is(path, '?', path.len() as int);
    assert(uri.take(path.len() as int) =~= path);
    assert(uri.skip(path.len() as int + 1) =~= query);
}

/// The base name is what stands behind the last slash of the path.
pub proof fn base_names_stand_behind_the_last_slash(
    vars: VariablesView,
    method: Seq<char>,
    directory: Seq<char>,
    name: Seq<char>,
    protocol: Seq<char>,
)
    requires
        !directory.contains('?'),
        !name.contains('?'),
        !name.contains('/'),
    ensures
        with_request_line(
            vars,
            method,
            directory + seq!['/'] + name,
            protocol,
        ).request_basename == encode_utf8(name),
        with_request_line(vars, method, name, protocol).request_basename == encode_utf8(name),
{
    let path = directory + seq!['/'] + name;
    assert forall|j: int| 0 <= j < path.len() implies path[j] != '?' by {
        if j < directory.len() {
            assert(directory.contains(directory[j]));
        } else if j > directory.len() {
            assert(name.contains(name[j - directory.len() - 1]));
        }
    }
    lemma_position_is(path, '?', path.len() as int);
    assert forall|j: int| 0 <= j < name.len() implies name[j] != '?' by {
        assert(name.contains(name[j]));
    }
    lemma_position_is(name, '?', name.len() as int);
    assert(path =~= directory.push('/') + name);
    lemma_split_last(directory, '/', name);
    lemma_split_none(name, '/');
}

/// A header is added behind those before it, with its name and value as they are;
/// a `Cookie` header, in either case, adds its cookies too. Nothing else changes.
pub proof fn headers_are_added(vars: VariablesView, name: Seq<char>, value: Seq<char>)
    ensures
        ({
            let after = with_request_header(vars, name, value);
            &&& after.request_headers == vars.request_headers.push((name, encode_utf8(value)))
            &&& reads_the_same(name, seq!['c', 'o', 'o', 'k', 'i', 'e']) ==> after.request_cookies
                == vars.request_cookies + cookies(encode_utf8(value))
            &&& !reads_the_same(name, seq!['c', 'o', 'o', 'k', 'i', 'e']) ==> after.request_cookies
                == vars.request_cookies
            &&& after == (VariablesView {
                request_headers: after.request_headers,
                request_cookies: after.request_cookies,
                ..vars
            })
        }),
{
    reveal_strlit("cookie");
    assert("cookie"@ =~= seq!['c', 'o', 'o', 'k', 'i', 'e']);
    names_are_compared_by_their_letters(name, "cookie"@);
}

// ---------------------------------------------------------------------------
// Arguments and cookies

/// The bytes of a name or value, percent-decoded.
pub open spec fn unescaped(s: Seq<u8>) -> Seq<u8> {
    transformed(Transformation::UrlDecodeUni, s)
}

/// Whether some bytes hold no `&` and no `;`.
pub open spec fn is_one_pair(s: Seq<u8>) -> bool {
    !s.contains(0x26) && !s.contains(0x3b)
}

proof fn lemma_one_form(s: Seq<u8>)
    requires
        is_one_pair(s),
    ensures
        s.len() == 0 ==> urlencoded(s).len() == 0,
        s.len() > 0 ==> urlencoded(s) == seq![crate::form::form_pair(s)],
{
    assert(with_ampersands(s) =~= s) by {
        assert forall|i: int| 0 <= i < s.len() implies with_ampersands(s)[i] == s[i] by {
            assert(s.contains(s[i]));
        }
    }
    lemma_split_none(s, 0x26u8);
    reveal_with_fuel(form_pairs, 2);
    assert(seq![s].drop_last() =~= seq![]);
    assert(seq![s].last() == s);
    if s.len() > 0 {
        assert(form_pairs(seq![s]) =~= seq![crate::form::form_pair(s)]);
    }
}

/// `name=value` is one argument, both sides percent-decoded; only the first `=`
/// parts them. A name without `=` has no value, nothing is no argument, and `&` and
/// `;` part arguments.
pub proof fn forms_are_names_and_values(name: Seq<u8>, value: Seq<u8>, a: Seq<u8>, b: Seq<u8>)
    requires
        is_one_pair(name),
        is_one_pair(value),
        !name.contains(0x3d),
    ensures
        urlencoded(name + seq![0x3du8] + value) == seq![(lossy_text(unescaped(name)), unescaped(value))],
        name.len() > 0 ==> urlencoded(name) == seq![
            (lossy_text(unescaped(name)), Seq::<u8>::empty()),
        ],
        urlencoded(Seq::<u8>::empty()).len() == 0,
        urlencoded(a + seq![0x26u8] + b) == urlencoded(a) + urlencoded(b),
        urlencoded(a + seq![0x3bu8] + b) == urlencoded(a) + urlencoded(b),
{
    let s = name + seq![0x3du8] + value;
    assert(is_one_pair(s)) by {
        assert forall|i: int| 0 <= i < s.len() implies s[i] != 0x26 && s[i] != 0x3b by {
            if i < name.len() {
                assert(name.contains(name[i]));
            } else if i > name.len() {
                assert(value.contains(value[i - name.len() - 1]));
            }
        }
    }
    lemma_one_form(s);
    lemma_one_form(name);
    lemma_one_form(Seq::<u8>::empty());
    assert forall|j: int| 0 <= j < name.len() implies name[j] != 0x3d by {
        assert(name.contains(name[j]));
    }
    lemma_position_is(s, 0x3du8, name.len() as int);
    lemma_position_is(name, 0x3du8, name.len() as int);
    assert(s.take(name.len() as int) =~= name);
    assert(s.skip(name.len() as int + 1) =~= value);
    crate::laws::paths::nothing_stays_nothing(Transformation::UrlDecodeUni);
    joined_forms_hold_the_pairs_of_both(a, b);
    assert(with_ampersands(a + seq![0x3bu8] + b) =~= with_ampersands(a + seq![0x26u8] + b));
}

/// Whether a byte is white space in a cookie.
pub open spec fn is_cookie_blank(b: u8) -> bool {
    b == 0x09 || b == 0x0a || b == 0x0c || b == 0x0d || b == 0x20
}

/// Whether some bytes are white space throughout.
pub open spec fn all_blank(s: Seq<u8>) -> bool {
    forall|i: int| 0 <= i < s.len() ==> is_cookie_blank(#[trigger] s[i])
}

/// Whether some bytes neither start nor end with white space.
pub open spec fn is_bare(s: Seq<u8>) -> bool {
    s.len() > 0 ==> !is_cookie_blank(s[0]) && !is_cookie_blank(s.last())
}

proof fn lemma_off_start(a: Seq<u8>, s: Seq<u8>)
    requires
        all_blank(a),
        s.len() == 0 || !is_cookie_blank(s[0]),
    ensures
        blanks_off_start(a + s) == s,
    decreases a.len(),
{
    if a.len() == 0 {
        assert(a + s =~= s);
    } else {
        assert(is_cookie_blank(a[0]));
        assert((a + s)[0] == a[0]);
        assert((a + s).drop_first() =~= a.drop_first() + s);
        assert forall|i: int| 0 <= i < a.drop_first().len() implies is_cookie_blank(
            #[trigger] a.drop_first()[i],
        ) by {
            assert(is_cookie_blank(a[i + 1]));
        }
        lemma_off_start(a.drop_first(), s);
    }
}

proof fn lemma_off_end(s: Seq<u8>, b: Seq<u8>)
    requires
        all_blank(b),
        s.len() == 0 || !is_cookie_blank(s.last()),
    ensures
        blanks_off_end(s + b) == s,
    decreases b.len(),
{
    if b.len() == 0 {
        assert(s + b =~= s);
    } else {
        assert(is_cookie_blank(b[b.len() - 1]));
        assert((s + b).last() == b.last());
        assert((s + b).drop_last() =~= s + b.drop_last());
        assert forall|i: int| 0 <= i < b.drop_last().len() implies is_cookie_blank(
            #[trigger] b.drop_last()[i],
        ) by {
            assert(is_cookie_blank(b[i]));
        }
        lemma_off_end(s, b.drop_last());
    }
}

proof fn lemma_off(a: Seq<u8>, s: Seq<u8>, b: Seq<u8>)
    requires
        all_blank(a),
        all_blank(b),
        is_bare(s),
    ensures
        blanks_off(a + s + b) == s,
{
    if s.len() == 0 {
        let all = a + s + b;
        assert forall|i: int| 0 <= i < all.len() implies is_cookie_blank(#[trigger] all[i]) by {
            if i < a.len() {
                assert(is_cookie_blank(a[i]));
            } else {
                assert(is_cookie_blank(b[i - a.len()]));
            }
        }
        lemma_off_start(all, s);
        assert(all + s =~= all);
    } else {
        assert(a + s + b =~= a + (s + b));
        lemma_off_start(a, s + b);
        lemma_off_end(s, b);
    }
}

/// `name=value` is one cookie, the white space around both taken off and nothing
/// decoded; only the first `=` parts them. `;` parts cookies, and white space alone
/// is none.
pub proof fn cookies_are_names_and_values(
    blanks: Seq<Seq<u8>>,
    name: Seq<u8>,
    value: Seq<u8>,
    a: Seq<u8>,
    b: Seq<u8>,
)
    requires
        blanks.len() == 4,
        all_blank(blanks[0]) && all_blank(blanks[1]) && all_blank(blanks[2]) && all_blank(
            blanks[3],
        ),
        is_bare(name) && name.len() > 0,
        is_bare(value),
        !name.contains(0x3b) && !name.contains(0x3d),
        !value.contains(0x3b),
    ensures
        cookies(
            blanks[0] + name + blanks[1] + seq![0x3du8] + blanks[2] + value + blanks[3],
        ) == seq![(lossy_text(name), value)],
        cookies(blanks[0] + name + blanks[1]) == seq![(lossy_text(name), Seq::<u8>::empty())],
        cookies(blanks[0]).len() == 0,
        cookies(a + seq![0x3bu8] + b) == cookies(a) + cookies(b),
{
    let (b0, b1, b2, b3) = (blanks[0], blanks[1], blanks[2], blanks[3]);
    let left = name + b1;
    let right = b2 + value + b3;
    let s = b0 + name + b1 + seq![0x3du8] + b2 + value + b3;
    assert(s =~= b0 + (name + b1 + seq![0x3du8] + b2 + value) + b3);
    assert forall|i: int| 0 <= i < s.len() implies s[i] != 0x3b by {
        lemma_no_semicolon(b0, name);
        lemma_no_semicolon(b1, name);
        lemma_no_semicolon(b2, value);
        lemma_no_semicolon(b3, value);
    }
    lemma_split_none(s, 0x3bu8);
    // The pair without the white space around it.
    let core = if value.len() > 0 {
        name + b1 + seq![0x3du8] + b2 + value
    } else {
        name + b1 + seq![0x3du8]
    };
    let tail = if value.len() > 0 {
        b3
    } else {
        b2 + b3
    };
    assert(all_blank(tail)) by {
        if value.len() == 0 {
            assert forall|i: int| 0 <= i < tail.len() implies is_cookie_blank(
                #[trigger] tail[i],
            ) by {
                if i < b2.len() {
                    assert(is_cookie_blank(b2[i]));
                } else {
                    assert(is_cookie_blank(b3[i - b2.len()]));
                }
            }
        }
    }
    assert(s =~= b0 + core + tail);
    assert(core[0] == name[0]);
    assert(core.last() == if value.len() > 0 {
        value.last()
    } else {
        0x3d
    });
    lemma_off(b0, core, tail);
    let behind = if value.len() > 0 {
        b2 + value
    } else {
        Seq::<u8>::empty()
    };
    assert(core =~= left + seq![0x3du8] + behind);
    assert forall|j: int| 0 <= j < left.len() implies core[j] != 0x3d by {
        if j < name.len() {
            assert(name.contains(name[j]));
            assert(core[j] == name[j]);
        } else {
            assert(is_cookie_blank(b1[j - name.len()]));
            assert(core[j] == b1[j - name.len()]);
        }
    }
    lemma_position_is(core, 0x3du8, left.len() as int);
    assert(core.take(left.len() as int) =~= left);
    assert(core.skip(left.len() as int + 1) =~= behind);
    let none = Seq::<u8>::empty();
    lemma_off(none, name, b1);
    assert(none + name + b1 =~= left);
    if value.len() > 0 {
        lemma_off(b2, value, none);
        assert(b2 + value + none =~= behind);
    } else {
        lemma_off(none, none, none);
        assert(none + none + none =~= none);
        assert(value =~= none);
    }
    reveal_with_fuel(cookie_pairs, 2);
    assert(seq![s].drop_last() =~= seq![]);
    assert(seq![s].last() == s);
    assert(cookies(s) =~= seq![(lossy_text(name), value)]);
    // A name alone.
    let alone = b0 + name + b1;
    assert forall|i: int| 0 <= i < alone.len() implies alone[i] != 0x3b by {
        lemma_no_semicolon(b0, name);
        lemma_no_semicolon(b1, name);
    }
    lemma_split_none(alone, 0x3bu8);
    lemma_off(b0, name, b1);
    assert forall|j: int| 0 <= j < name.len() implies name[j] != 0x3d by {
        assert(name.contains(name[j]));
    }
    lemma_position_is(name, 0x3du8, name.len() as int);
    lemma_off(none, name, none);
    assert(none + name + none =~= name);
    lemma_off(none, none, none);
    assert(none + none + none =~= none);
    assert(seq![alone].drop_last() =~= seq![]);
    assert(seq![alone].last() == alone);
    assert(cookies(alone) =~= seq![(lossy_text(name), none)]);
    // White space alone.
    assert forall|i: int| 0 <= i < b0.len() implies b0[i] != 0x3b by {
        lemma_no_semicolon(b0, name);
    }
    lemma_split_none(b0, 0x3bu8);
    lemma_off(b0, none, none);
    assert(b0 + none + none =~= b0);
    assert(seq![b0].drop_last() =~= seq![]);
    assert(seq![b0].last() == b0);
    joined_cookies_hold_the_pairs_of_both(a, b);
}

proof fn lemma_no_semicolon(blank: Seq<u8>, text: Seq<u8>)
    requires
        all_blank(blank),
        !text.contains(0x3b),
    ensures
        forall|i: int| 0 <= i < blank.len() ==> blank[i] != 0x3b,
        forall|i: int| 0 <= i < text.len() ==> text[i] != 0x3b,
{
    assert forall|i: int| 0 <= i < blank.len() implies blank[i] != 0x3b by {
        assert(is_cookie_blank(blank[i]));
    }
    assert forall|i: int| 0 <= i < text.len() implies text[i] != 0x3b by {
        assert(text.contains(text[i]));
    }
}

// ---------------------------------------------------------------------------
// References

proof fn lemma_tx_value_lower(tx: Entries, a: Seq<char>, b: Seq<char>)
    requires
        lower(a) == lower(b),
    ensures
        tx_value(tx, a) == tx_value(tx, b),
    decreases tx.len(),
{
    if tx.len() > 0 {
        lemma_tx_value_lower(tx.drop_last(), a, b);
    }
}

/// `%{tx.name}` and `%{tx:name}` read the `TX` variable of that name, in either
/// case.
pub proof fn references_read_tx(
    vars: VariablesView,
    reference: Seq<char>,
    mark: char,
    name: Seq<char>,
)
    requires
        mark == '.' || mark == ':',
        reads_the_same(reference, seq!['t', 'x', mark] + name),
    ensures
        macro_value(vars, reference) == tx_value(vars.tx, name),
{
    let written = seq!['t', 'x', mark] + name;
    names_are_compared_by_their_letters(reference, written);
    let n = lower(reference);
    assert(n == lower(written));
    assert(n[0] == crate::text::lower_char(written[0]));
    assert(n[1] == crate::text::lower_char(written[1]));
    assert(n[2] == crate::text::lower_char(written[2]));
    assert(n.skip(3) =~= lower(name)) by {
        assert forall|i: int| 0 <= i < name.len() implies n.skip(3)[i] == lower(name)[i] by {
            assert(lower(written)[i + 3] == crate::text::lower_char(written[i + 3]));
        }
    }
    crate::text::lower_is_idempotent(name);
    lemma_tx_value_lower(vars.tx, n.skip(3), name);
}

/// The variables that a reference reads by their own name.
pub open spec fn readable(vars: VariablesView) -> Seq<(Seq<char>, Seq<u8>)> {
    seq![
        ("matched_var"@, vars.matched_var),
        ("matched_var_name"@, vars.matched_var_name),
        ("request_method"@, vars.request_method),
        ("request_uri"@, vars.request_uri),
        ("request_filename"@, vars.request_filename),
        ("request_basename"@, vars.request_basename),
        ("query_string"@, vars.query_string),
        ("request_line"@, vars.request_line),
        ("request_protocol"@, vars.request_protocol),
        ("remote_addr"@, vars.remote_addr),
        ("unique_id"@, vars.unique_id),
        ("response_status"@, vars.response_status),
    ]
}

/// A reference by name reads the variable of that name, in either case.
pub proof fn references_read_variables(vars: VariablesView, reference: Seq<char>, k: int)
    requires
        0 <= k < readable(vars).len(),
        reads_the_same(reference, readable(vars)[k].0),
    ensures
        macro_value(vars, reference) == Some(readable(vars)[k].1),
{
    reveal_strlit("matched_var");
    reveal_strlit("matched_var_name");
    reveal_strlit("request_method");
    reveal_strlit("request_uri");
    reveal_strlit("request_filename");
    reveal_strlit("request_basename");
    reveal_strlit("query_string");
    reveal_strlit("request_line");
    reveal_strlit("request_protocol");
    reveal_strlit("remote_addr");
    reveal_strlit("unique_id");
    reveal_strlit("response_status");
    let name = readable(vars)[k].0;
    names_are_compared_by_their_letters(reference, name);
    assert(lower(name) =~= name);
    assert(name[0] != 't');
    assert("request_filename"@[8] == 'f' && "request_basename"@[8] == 'b' && "request_protocol"@[8]
        == 'p' && "matched_var_name"@[0] == 'm' && "matched_var"@[0] == 'm' && "request_uri"@[0]
        == 'r' && "remote_addr"@[2] == 'm');
}

// ---------------------------------------------------------------------------
// Bodies

/// A document becomes one argument for each scalar, in order, named by its path: a
/// member by its key, an item by its index. A boolean is `true` or `false`, and a
/// null is empty.
pub proof fn documents_are_flattened(
    path: Seq<char>,
    text: Seq<char>,
    b: bool,
    items: Seq<JsonView>,
    item: JsonView,
    members: Seq<(Seq<char>, JsonView)>,
    key: Seq<char>,
)
    ensures
        flattened(path, JsonView::Text(text)) == seq![(path, encode_utf8(text))],
        flattened(path, JsonView::Number(text)) == seq![(path, encode_utf8(text))],
        flattened(path, JsonView::Bool(true)) == seq![
            (path, encode_utf8(seq!['t', 'r', 'u', 'e'])),
        ],
        flattened(path, JsonView::Bool(false)) == seq![
            (path, encode_utf8(seq!['f', 'a', 'l', 's', 'e'])),
        ],
        flattened(path, JsonView::Null) == seq![(path, Seq::<u8>::empty())],
        flattened(path, JsonView::Array(seq![])).len() == 0,
        flattened(path, JsonView::Object(seq![])).len() == 0,
        flattened(path, JsonView::Array(items.push(item))) == flattened(
            path,
            JsonView::Array(items),
        ) + flattened(path + seq!['.'] + decimal(items.len()), item),
        flattened(path, JsonView::Object(members.push((key, item)))) == flattened(
            path,
            JsonView::Object(members),
        ) + flattened(path + seq!['.'] + key, item),
{
    reveal_strlit("true");
    reveal_strlit("false");
    reveal_strlit(".");
    assert("true"@ =~= seq!['t', 'r', 'u', 'e']);
    assert("false"@ =~= seq!['f', 'a', 'l', 's', 'e']);
    assert("."@ =~= seq!['.']);
    assert(items.push(item).subrange(0, items.len() as int) =~= items);
    assert(members.push((key, item)).subrange(0, members.len() as int) =~= members);
    assert(flattened_items(path, items.push(item)) == flattened_items(path, items) + flattened(
        path + seq!['.'] + decimal(items.len()),
        item,
    ));
    assert(flattened_members(path, members.push((key, item))) == flattened_members(path, members)
        + flattened(path + seq!['.'] + key, item));
}

/// A part with a file name is a file, listed by that file name under its own name
/// and counted by its content; any other is an argument. Either way its headers are
/// kept, and nothing else changes. Parts are taken in order.
pub proof fn parts_are_arguments_or_files(
    vars: VariablesView,
    part: PartView,
    before: Seq<PartView>,
)
    ensures
        ({
            let after = with_part(vars, part);
            let name = match part.name {
                Some(name) => name,
                None => Seq::<char>::empty(),
            };
            &&& with_parts(vars, Seq::<PartView>::empty()) == vars
            &&& with_parts(vars, before.push(part)) == with_part(with_parts(vars, before), part)
            &&& after.multipart_part_headers == vars.multipart_part_headers + part.header_lines
            &&& part.filename is None ==> after.args_post == vars.args_post.push(
                (name, part.content),
            ) && after.files == vars.files && after.files_content_size == vars.files_content_size
            &&& part.filename matches Some(filename) ==> after.files == vars.files.push(
                (name, encode_utf8(filename)),
            ) && after.args_post == vars.args_post && (vars.files_content_size + part.content.len()
                <= usize::MAX ==> after.files_content_size == vars.files_content_size
                + part.content.len())
            &&& after == (VariablesView {
                multipart_part_headers: after.multipart_part_headers,
                args_post: after.args_post,
                files: after.files,
                files_content_size: after.files_content_size,
                ..vars
            })
        }),
{
    assert(before.push(part).drop_last() =~= before);
    assert(before.push(part).last() == part);
}

/// The media types that are read, with their format and the processor that
/// `REQBODY_PROCESSOR` reports.
pub open spec fn formats() -> Seq<(Seq<char>, BodyFormat, Seq<char>)> {
    seq![
        ("application/x-www-form-urlencoded"@, BodyFormat::Form, "URLENCODED"@),
        ("multipart/form-data"@, BodyFormat::Multipart, "MULTIPART"@),
        ("text/xml"@, BodyFormat::Xml, "XML"@),
        ("application/xml"@, BodyFormat::Xml, "XML"@),
        ("application/soap+xml"@, BodyFormat::Xml, "XML"@),
        ("application/json"@, BodyFormat::Json, "JSON"@),
    ]
}

/// A body is read by the media type that its `Content-Type` declares, in either
/// case and whatever parameters follow.
pub proof fn media_types_decide_the_format(
    k: int,
    declared: Seq<char>,
    parameters: Seq<char>,
)
    requires
        0 <= k < formats().len(),
        reads_the_same(declared, formats()[k].0),
    ensures
        declared_format(Some(declared)) == formats()[k].1,
        declared_format(Some(declared + seq![';'] + parameters)) == formats()[k].1,
        processor_name(formats()[k].1) == Some(formats()[k].2),
        declared_format(None) == BodyFormat::Other,
        processor_name(BodyFormat::Other) is None,
{
    reveal_strlit("application/x-www-form-urlencoded");
    reveal_strlit("multipart/form-data");
    reveal_strlit("text/xml");
    reveal_strlit("application/xml");
    reveal_strlit("application/soap+xml");
    reveal_strlit("application/json");
    let media = formats()[k].0;
    names_are_compared_by_their_letters(declared, media);
    assert(lower(media) =~= media);
    assert(media.len() > 0 && !crate::text::is_white(media[0]) && !crate::text::is_white(
        media.last(),
    ));
    crate::laws::phases::lemma_untrimmed(media);
    let full = declared + seq![';'] + parameters;
    let p = media.len() as int;
    assert forall|j: int| 0 <= j < p implies media[j] != ';' by {}
    lemma_position_is(lower(declared), ';', p);
    assert forall|j: int| 0 <= j < p implies lower(full)[j] == media[j] by {
        assert(lower(declared)[j] == crate::text::lower_char(declared[j]));
    }
    lemma_position_is(lower(full), ';', p);
    assert(lower(full).take(p) =~= media);
    assert(split(lower(full), ';')[0] == media);
    assert(split(lower(declared), ';')[0] == media);
    assert(media_type(declared) == media && media_type(full) == media);
    assert("application/xml"@.len() == 15 && "application/json"@.len() == 16);
}

/// A form body fills the arguments of the body, a JSON body those of its document
/// under `json`, and a body of no known format nothing; XML is refused, and so is
/// JSON that cannot be read.
pub proof fn bodies_are_read_by_their_format(
    vars: VariablesView,
    body: Seq<u8>,
    content_type: Option<Seq<char>>,
)
    ensures
        ({
            let read = body_read(vars, body, content_type);
            match declared_format(content_type) {
                BodyFormat::Form => read == Ok::<VariablesView, BodyErrorView>(
                    VariablesView { args_post: vars.args_post + urlencoded(body), ..vars },
                ),
                BodyFormat::Xml => read matches Err(BodyErrorView::UnsupportedFormat(_)),
                BodyFormat::Json => match json_document(body) {
                    Ok(document) => read == Ok::<VariablesView, BodyErrorView>(
                        VariablesView {
                            args_post: vars.args_post + flattened(
                                seq!['j', 's', 'o', 'n'],
                                document,
                            ),
                            ..vars
                        },
                    ),
                    Err(_) => read matches Err(BodyErrorView::Malformed(_)),
                },
                BodyFormat::Other => read == Ok::<VariablesView, BodyErrorView>(vars),
                BodyFormat::Multipart => true,
            }
        }),
{
    reveal_strlit("json");
    assert("json"@ =~= seq!['j', 's', 'o', 'n']);
}

/// A body is kept whole for `REQUEST_BODY`, whether or not it can be read, and its
/// processor is reported where its format has one.
pub proof fn bodies_are_kept_whole(
    t: TransactionView,
    body: Seq<u8>,
    content_type: Option<Seq<char>>,
)
    ensures
        ({
            let after = with_request_body(t, body, content_type).vars;
            &&& after.request_body == body
            &&& processor_name(declared_format(content_type)) matches Some(processor)
                ==> after.reqbody_processor == encode_utf8(processor)
            &&& processor_name(declared_format(content_type)) is None ==> after.reqbody_processor
                == t.vars.reqbody_processor
        }),
{
    let received = with_raw_body(t.vars, body, content_type);
    crate::body::bodies_fill_only_their_collections(received, body, content_type);
}

} // verus!

//! What the targets of a rule address: which variable each collection name stands
//! for, what a selector keeps of it, and what an exclusion takes away.

use crate::collections::canonical_name;
use crate::collections::collected;
use crate::collections::excludes;
use crate::collections::inspected;
use crate::collections::is_excluded;
use crate::collections::lemma_one_target;
use crate::collections::map_values;
use crate::collections::not_excluded;
use crate::collections::qualified;
use crate::collections::total_size;
use crate::collections::Entries;
use crate::collections::ValueView;
use crate::collections::VariablesView;
use crate::laws::transformations::lemma_decimal_bytes;
use crate::laws::transformations::writes;
use crate::pattern::regex_finds;
use crate::rule::Collection;
use crate::rule::SelectorView;
use crate::rule::TargetView;
use crate::text::lower;
use crate::text::lower_char;
use crate::text::same_ignoring_case;
use crate::text::trimmed;
use vstd::prelude::*;
use vstd::utf8::encode_utf8;

verus! {

// ---------------------------------------------------------------------------
// Names

/// Whether two characters are the same letter, or the same character.
pub open spec fn is_same_letter(a: char, b: char) -> bool {
    ||| a == b
    ||| 'a' <= a <= 'z' && b as int == a as int - 32
    ||| 'a' <= b <= 'z' && a as int == b as int - 32
}

/// Whether two texts differ at most in the case of ASCII letters.
pub open spec fn reads_the_same(a: Seq<char>, b: Seq<char>) -> bool {
    a.len() == b.len() && forall|i: int| 0 <= i < a.len() ==> is_same_letter(#[trigger] a[i], b[i])
}

/// Names are compared without regard to the case of ASCII letters, and to nothing
/// else.
pub proof fn names_are_compared_by_their_letters(a: Seq<char>, b: Seq<char>)
    ensures
        same_ignoring_case(a, b) <==> reads_the_same(a, b),
{
    if same_ignoring_case(a, b) {
        assert(lower(a).len() == a.len() && lower(b).len() == b.len());
        assert forall|i: int| 0 <= i < a.len() implies is_same_letter(#[trigger] a[i], b[i]) by {
            assert(lower(a)[i] == lower(b)[i]);
        }
    }
    if reads_the_same(a, b) {
        assert forall|i: int| 0 <= i < a.len() implies lower_char(a[i]) == lower_char(b[i]) by {
            assert(is_same_letter(a[i], b[i]));
        }
        assert(lower(a) =~= lower(b));
    }
}

// ---------------------------------------------------------------------------
// One target

/// A target that adds what a collection holds.
pub open spec fn of(collection: Collection, selector: Option<SelectorView>) -> TargetView {
    TargetView { collection, selector, exclusion: false, count: false }
}

/// What a rule inspects whose only target is a collection, under a selector.
pub open spec fn addressed(
    v: VariablesView,
    collection: Collection,
    selector: Option<SelectorView>,
) -> Seq<ValueView> {
    inspected(v, seq![of(collection, selector)])
}

/// The variable that a collection of named members stands for.
pub open spec fn members(v: VariablesView, collection: Collection) -> Option<Entries> {
    match collection {
        Collection::Args => Some(v.args_get + v.args_post),
        Collection::ArgsGet => Some(v.args_get),
        Collection::Files => Some(v.files),
        Collection::MatchedVars => Some(v.matched_vars),
        Collection::MultipartPartHeaders => Some(v.multipart_part_headers),
        Collection::RequestCookies => Some(v.request_cookies),
        Collection::RequestHeaders => Some(v.request_headers),
        Collection::ResponseHeaders => Some(v.response_headers),
        Collection::Tx => Some(v.tx),
        _ => None,
    }
}

/// The collection whose members a `*_NAMES` collection names.
pub open spec fn named_by(names: Collection) -> Option<Collection> {
    match names {
        Collection::ArgsNames => Some(Collection::Args),
        Collection::ArgsGetNames => Some(Collection::ArgsGet),
        Collection::FilesNames => Some(Collection::Files),
        Collection::RequestCookiesNames => Some(Collection::RequestCookies),
        Collection::RequestHeadersNames => Some(Collection::RequestHeaders),
        _ => None,
    }
}

/// The variable that a collection of a single value stands for.
pub open spec fn single(v: VariablesView, collection: Collection) -> Option<Seq<u8>> {
    match collection {
        Collection::MatchedVar => Some(v.matched_var),
        Collection::QueryString => Some(v.query_string),
        Collection::RemoteAddr => Some(v.remote_addr),
        Collection::ReqbodyProcessor => Some(v.reqbody_processor),
        Collection::RequestBasename => Some(v.request_basename),
        Collection::RequestBody => Some(v.request_body),
        Collection::RequestFilename => Some(v.request_filename),
        Collection::RequestLine => Some(v.request_line),
        Collection::RequestMethod => Some(v.request_method),
        Collection::RequestProtocol => Some(v.request_protocol),
        Collection::RequestUri => Some(v.request_uri),
        Collection::RequestUriRaw => Some(v.request_uri_raw),
        Collection::ResponseBody => Some(v.response_body),
        Collection::ResponseStatus => Some(v.response_status),
        Collection::UniqueId => Some(v.unique_id),
        _ => None,
    }
}

/// Whether a selector keeps a member: by its name in either case, or by a pattern
/// that its name matches. An XPath keeps none.
pub open spec fn keeps(selector: Option<SelectorView>, name: Seq<char>) -> bool {
    match selector {
        None => true,
        Some(SelectorView::Name(want)) => reads_the_same(name, want),
        Some(SelectorView::Regex(pattern)) => regex_finds(pattern, name),
        Some(SelectorView::XPath(_)) => false,
    }
}

/// A member as a rule sees it, under the name of its collection.
pub open spec fn member(collection: Collection, entry: (Seq<char>, Seq<u8>)) -> ValueView {
    ValueView { name: canonical_name(collection) + seq![':'] + entry.0, value: entry.1 }
}

proof fn lemma_qualified(prefix: Seq<char>, name: Seq<char>)
    ensures
        qualified(prefix, name) == prefix + seq![':'] + name,
{
    reveal_strlit(":");
    assert(":"@ =~= seq![':']);
}

proof fn lemma_selects(selector: Option<SelectorView>, name: Seq<char>)
    ensures
        crate::collections::selects(selector, name) == keeps(selector, name),
{
    if let Some(SelectorView::Name(want)) = selector {
        names_are_compared_by_their_letters(name, want);
    }
}

proof fn lemma_map_values(
    collection: Collection,
    entries: Entries,
    selector: Option<SelectorView>,
)
    ensures
        map_values(canonical_name(collection), entries, selector) == entries.filter(
            |e: (Seq<char>, Seq<u8>)| keeps(selector, e.0),
        ).map_values(|e: (Seq<char>, Seq<u8>)| member(collection, e)),
    decreases entries.len(),
{
    let keep = |e: (Seq<char>, Seq<u8>)| keeps(selector, e.0);
    let shown = |e: (Seq<char>, Seq<u8>)| member(collection, e);
    reveal(Seq::filter);
    if entries.len() > 0 {
        lemma_map_values(collection, entries.drop_last(), selector);
        lemma_selects(selector, entries.last().0);
        lemma_qualified(canonical_name(collection), entries.last().0);
        let before = entries.drop_last().filter(keep);
        assert(before.push(entries.last()).map_values(shown) =~= before.map_values(shown).push(
            shown(entries.last()),
        ));
    } else {
        assert(entries.filter(keep).map_values(shown) =~= seq![]);
    }
}

/// A collection of named members is the members that its selector keeps, each under
/// its own name and with its own value, in order.
pub proof fn members_are_addressed_by_name(
    v: VariablesView,
    collection: Collection,
    selector: Option<SelectorView>,
)
    requires
        members(v, collection) is Some,
    ensures
        addressed(v, collection, selector) == members(v, collection)->0.filter(
            |e: (Seq<char>, Seq<u8>)| keeps(selector, e.0),
        ).map_values(|e: (Seq<char>, Seq<u8>)| member(collection, e)),
{
    let keep = |e: (Seq<char>, Seq<u8>)| keeps(selector, e.0);
    let shown = |e: (Seq<char>, Seq<u8>)| member(collection, e);
    lemma_one_target(v, of(collection, selector));
    if collection == Collection::Args {
        lemma_map_values(collection, v.args_get, selector);
        lemma_map_values(collection, v.args_post, selector);
        Seq::filter_distributes_over_add(v.args_get, v.args_post, keep);
        assert((v.args_get.filter(keep) + v.args_post.filter(keep)).map_values(shown)
            =~= v.args_get.filter(keep).map_values(shown) + v.args_post.filter(keep).map_values(
            shown,
        ));
    } else {
        lemma_map_values(collection, members(v, collection)->0, selector);
    }
}

/// The values of a `*_NAMES` collection are the names of the members of the
/// collection that it names, in order, and depend on nothing else.
pub proof fn names_are_those_of_the_members(
    v: VariablesView,
    names: Collection,
    selector: Option<SelectorView>,
    i: int,
)
    requires
        named_by(names) is Some,
    ensures
        ({
            let found = addressed(v, names, selector);
            let entries = members(v, named_by(names)->0)->0;
            &&& found.len() == entries.len()
            &&& 0 <= i < entries.len() ==> found[i].value == encode_utf8(entries[i].0)
                && found[i].name == canonical_name(names) + seq![':'] + entries[i].0
        }),
{
    let entries = members(v, named_by(names)->0)->0;
    lemma_one_target(v, of(names, selector));
    if 0 <= i < entries.len() {
        lemma_qualified(canonical_name(names), entries[i].0);
    }
}

/// A variable that the names of a collection do not come from makes no difference
/// to them.
pub proof fn names_depend_on_their_collection_alone(
    v: VariablesView,
    w: VariablesView,
    names: Collection,
    selector: Option<SelectorView>,
)
    requires
        named_by(names) is Some,
        members(v, named_by(names)->0) == members(w, named_by(names)->0),
    ensures
        addressed(v, names, selector) == addressed(w, names, selector),
{
    let a = addressed(v, names, selector);
    let b = addressed(w, names, selector);
    names_are_those_of_the_members(v, names, selector, 0);
    names_are_those_of_the_members(w, names, selector, 0);
    assert forall|i: int| 0 <= i < a.len() implies a[i] == b[i] by {
        names_are_those_of_the_members(v, names, selector, i);
        names_are_those_of_the_members(w, names, selector, i);
    }
    assert(a =~= b);
}

/// A collection of a single value is that value, whatever selector is written.
pub proof fn single_values_are_addressed(
    v: VariablesView,
    collection: Collection,
    selector: Option<SelectorView>,
)
    requires
        single(v, collection) is Some,
    ensures
        addressed(v, collection, selector) == seq![
            ValueView { name: canonical_name(collection), value: single(v, collection)->0 },
        ],
{
    lemma_one_target(v, of(collection, selector));
}

/// The combined length of some values, counted from the first.
pub open spec fn combined(entries: Entries) -> nat
    decreases entries.len(),
{
    if entries.len() == 0 {
        0
    } else {
        entries[0].1.len() + combined(entries.drop_first())
    }
}

proof fn lemma_combined(entries: Entries)
    ensures
        total_size(entries) == combined(entries),
    decreases entries.len(),
{
    if entries.len() == 1 {
        reveal_with_fuel(total_size, 2);
        reveal_with_fuel(combined, 2);
        assert(entries.last() == entries[0]);
    } else if entries.len() > 1 {
        lemma_combined(entries.drop_last());
        lemma_combined(entries.drop_first());
        lemma_combined(entries.drop_first().drop_last());
        assert(entries.drop_first().drop_last() =~= entries.drop_last().drop_first());
        assert(entries.drop_first().last() == entries.last());
        assert(entries.drop_last()[0] == entries[0]);
    }
}

/// `ARGS_COMBINED_SIZE` is the combined length of the values of the arguments, and
/// `FILES_COMBINED_SIZE` that of the files, in decimal.
pub proof fn combined_sizes_are_written_in_decimal(
    v: VariablesView,
    selector: Option<SelectorView>,
)
    ensures
        ({
            let args = addressed(v, Collection::ArgsCombinedSize, selector);
            let files = addressed(v, Collection::FilesCombinedSize, selector);
            let n = combined(v.args_get) + combined(v.args_post);
            &&& args.len() == 1 && args[0].name == canonical_name(Collection::ArgsCombinedSize)
            &&& n <= usize::MAX ==> writes(args[0].value, 10, n as int)
            &&& files.len() == 1 && files[0].name == canonical_name(Collection::FilesCombinedSize)
            &&& writes(files[0].value, 10, v.files_content_size as int)
        }),
{
    lemma_one_target(v, of(Collection::ArgsCombinedSize, selector));
    lemma_one_target(v, of(Collection::FilesCombinedSize, selector));
    lemma_combined(v.args_get);
    lemma_combined(v.args_post);
    lemma_decimal_bytes(total_size(v.args_get) + total_size(v.args_post));
    lemma_decimal_bytes(v.files_content_size as nat);
}

/// `XML:/*` is the text of the elements and `XML://@*` that of the attributes; any
/// other expression addresses nothing, and so does `XML` without one.
pub proof fn xml_is_addressed_by_expression(
    v: VariablesView,
    expression: Seq<char>,
    selector: Option<SelectorView>,
)
    ensures
        ({
            let found = addressed(v, Collection::Xml, Some(SelectorView::XPath(expression)));
            let shown = |e: (Seq<char>, Seq<u8>)| member(Collection::Xml, e);
            &&& trimmed(expression) == seq!['/', '*'] ==> found == v.xml_elements.map_values(shown)
            &&& trimmed(expression) == seq!['/', '/', '@', '*'] ==> found
                == v.xml_attributes.map_values(shown)
            &&& trimmed(expression) != seq!['/', '*'] && trimmed(expression) != seq![
                '/',
                '/',
                '@',
                '*',
            ] ==> found.len() == 0
            &&& !(selector matches Some(SelectorView::XPath(_))) ==> addressed(
                v,
                Collection::Xml,
                selector,
            ).len() == 0
        }),
{
    reveal_strlit("/*");
    reveal_strlit("//@*");
    assert("/*"@ =~= seq!['/', '*']);
    assert("//@*"@ =~= seq!['/', '/', '@', '*']);
    assert("/*"@.len() != "//@*"@.len());
    lemma_one_target(v, of(Collection::Xml, Some(SelectorView::XPath(expression))));
    lemma_one_target(v, of(Collection::Xml, selector));
    lemma_map_values(Collection::Xml, v.xml_elements, None);
    lemma_map_values(Collection::Xml, v.xml_attributes, None);
    lemma_keeps_all(v.xml_elements);
    lemma_keeps_all(v.xml_attributes);
}

proof fn lemma_keeps_all(entries: Entries)
    ensures
        entries.filter(|e: (Seq<char>, Seq<u8>)| keeps(None, e.0)) == entries,
    decreases entries.len(),
{
    reveal(Seq::filter);
    if entries.len() > 0 {
        lemma_keeps_all(entries.drop_last());
        assert(entries.drop_last().push(entries.last()) =~= entries);
    }
}

/// A `&` target is one value, the number of members in decimal: of those that the
/// selector keeps, or of all where the collection holds names. Of a single value it
/// is one, or zero where the value is empty.
pub proof fn counts_are_written_in_decimal(
    v: VariablesView,
    collection: Collection,
    selector: Option<SelectorView>,
)
    ensures
        ({
            let found = inspected(
                v,
                seq![TargetView { collection, selector, exclusion: false, count: true }],
            );
            let all = addressed(v, collection, selector);
            &&& found.len() == 1
            &&& found[0].name == canonical_name(collection)
            &&& members(v, collection) is Some || named_by(collection) is Some || collection
                == Collection::Xml ==> writes(found[0].value, 10, all.len() as int)
            &&& single(v, collection) is Some ==> writes(
                found[0].value,
                10,
                if single(v, collection)->0.len() == 0 {
                    0
                } else {
                    1
                },
            )
        }),
{
    let target = TargetView { collection, selector, exclusion: false, count: true };
    crate::collections::counts_are_of_what_is_inspected(v, target);
    let plain = TargetView { count: false, exclusion: false, ..target };
    assert(plain == of(collection, selector));
    lemma_decimal_bytes(crate::collections::member_count(v, collection, selector));
    if single(v, collection) is Some {
        single_values_are_addressed(v, collection, selector);
    }
}

// ---------------------------------------------------------------------------
// Several targets

/// Whether no target of a list excludes.
pub open spec fn all_add(targets: Seq<TargetView>) -> bool {
    forall|i: int| 0 <= i < targets.len() ==> !(#[trigger] targets[i]).exclusion
}

proof fn lemma_collected_joined(v: VariablesView, a: Seq<TargetView>, b: Seq<TargetView>)
    ensures
        collected(v, a + b) == collected(v, a) + collected(v, b),
    decreases b.len(),
{
    if b.len() == 0 {
        assert(a + b =~= a);
        assert(collected(v, a) + collected(v, b) =~= collected(v, a));
    } else {
        lemma_collected_joined(v, a, b.drop_last());
        assert((a + b).drop_last() =~= a + b.drop_last());
        assert((a + b).last() == b.last());
        assert(collected(v, a + b) =~= collected(v, a) + collected(v, b));
    }
}

proof fn lemma_nothing_taken(values: Seq<ValueView>, targets: Seq<TargetView>)
    requires
        all_add(targets),
    ensures
        not_excluded(values, targets) == values,
    decreases values.len(),
{
    if values.len() > 0 {
        lemma_nothing_taken(values.drop_last(), targets);
        assert(values.drop_last().push(values.last()) =~= values);
    }
}

/// The targets of a list are inspected one after the other.
pub proof fn targets_are_inspected_in_order(
    v: VariablesView,
    a: Seq<TargetView>,
    b: Seq<TargetView>,
)
    requires
        all_add(a),
        all_add(b),
    ensures
        inspected(v, a + b) == inspected(v, a) + inspected(v, b),
        inspected(v, Seq::<TargetView>::empty()) == Seq::<ValueView>::empty(),
{
    lemma_collected_joined(v, a, b);
    lemma_nothing_taken(collected(v, a), a);
    lemma_nothing_taken(collected(v, b), b);
    lemma_nothing_taken(collected(v, a + b), a + b);
}

/// Whether an exclusion takes a value away: one of its collection, and of those the
/// members that its selector keeps, or all where it has none.
pub open spec fn takes_away(exclusion: TargetView, name: Seq<char>) -> bool {
    let whole = canonical_name(exclusion.collection);
    ||| exclusion.selector is None && name == whole
    ||| exclusion.selector is None && whole.len() < name.len() && name.take(
        whole.len() as int + 1,
    ) == whole.push(':')
    ||| exclusion.selector is Some && whole.len() < name.len() && name.take(whole.len() as int + 1)
        == whole.push(':') && keeps(exclusion.selector, name.skip(whole.len() as int + 1))
}

proof fn lemma_takes_away(exclusion: TargetView, name: Seq<char>)
    ensures
        excludes(exclusion, name) == takes_away(exclusion, name),
{
    let whole = canonical_name(exclusion.collection);
    let n = whole.len() as int;
    if whole.len() < name.len() {
        assert(name.take(n + 1) == whole.push(':') <==> name.take(n) == whole && name[n] == ':') by {
            if name.take(n + 1) == whole.push(':') {
                assert forall|i: int| 0 <= i < n implies name.take(n)[i] == whole[i] by {
                    assert(name.take(n + 1)[i] == whole.push(':')[i]);
                }
                assert(name.take(n) =~= whole);
                assert(name.take(n + 1)[n] == ':');
            }
            if name.take(n) == whole && name[n] == ':' {
                assert forall|i: int| 0 <= i < n + 1 implies name.take(n + 1)[i]
                    == whole.push(':')[i] by {
                    if i < n {
                        assert(name.take(n)[i] == whole[i]);
                    }
                }
                assert(name.take(n + 1) =~= whole.push(':'));
            }
        }
        assert(name.skip(n).skip(1) =~= name.skip(n + 1));
        lemma_selects(exclusion.selector, name.skip(n + 1));
        assert(name != whole);
    } else if whole.len() == name.len() {
        assert(name.take(n) =~= name);
    }
}

proof fn lemma_one_more_exclusion(
    values: Seq<ValueView>,
    targets: Seq<TargetView>,
    exclusion: TargetView,
)
    requires
        exclusion.exclusion,
    ensures
        not_excluded(values, targets.push(exclusion)) == not_excluded(values, targets).filter(
            |x: ValueView| !takes_away(exclusion, x.name),
        ),
    decreases values.len(),
{
    reveal(Seq::filter);
    let keep = |x: ValueView| !takes_away(exclusion, x.name);
    if values.len() > 0 {
        let name = values.last().name;
        let more = targets.push(exclusion);
        lemma_one_more_exclusion(values.drop_last(), targets, exclusion);
        lemma_takes_away(exclusion, name);
        assert(is_excluded(more, name) == (is_excluded(targets, name) || excludes(exclusion, name)))
            by {
            if is_excluded(targets, name) {
                let i = choose|i: int|
                    0 <= i < targets.len() && (#[trigger] targets[i]).exclusion && excludes(
                        targets[i],
                        name,
                    );
                assert(more[i] == targets[i]);
            }
            if excludes(exclusion, name) {
                assert(more[targets.len() as int] == exclusion);
            }
            if is_excluded(more, name) {
                let i = choose|i: int|
                    0 <= i < more.len() && (#[trigger] more[i]).exclusion && excludes(
                        more[i],
                        name,
                    );
                if i < targets.len() {
                    assert(more[i] == targets[i]);
                }
            }
        }
        let before = not_excluded(values.drop_last(), targets);
        if !is_excluded(targets, name) {
            let grown = before.push(values.last());
            assert(grown.drop_last() =~= before);
            assert(grown.last() == values.last());
        }
    } else {
        assert(not_excluded(values, targets).filter(keep) =~= seq![]);
    }
}

/// An exclusion takes away exactly the values that it names, and adds none.
pub proof fn exclusions_take_away_what_they_name(
    v: VariablesView,
    targets: Seq<TargetView>,
    exclusion: TargetView,
)
    requires
        exclusion.exclusion,
    ensures
        inspected(v, targets.push(exclusion)) == inspected(v, targets).filter(
            |x: ValueView| !takes_away(exclusion, x.name),
        ),
{
    let more = targets.push(exclusion);
    assert(more.drop_last() =~= targets);
    assert(more.last() == exclusion);
    assert(collected(v, more) == collected(v, targets));
    lemma_one_more_exclusion(collected(v, targets), targets, exclusion);
}

} // verus!

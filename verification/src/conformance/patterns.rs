//! How much of a corpus of `@rx` patterns compiles, and what needed repair.

use crate::json::document_of;
use crate::json::document_text;
use crate::json::documents_in;
use crate::json::json_document;
use crate::json::json_documents;
use crate::json::read_documents;
use crate::json::text_at;
use crate::json::text_under;
use crate::json::write_document;
use crate::json::JsonView;
use crate::regex_compat::compile;
use crate::regex_compat::rx_source;
use crate::text::is_less;
use crate::text::joined3;
use crate::text::same_str;
use crate::text::text_less;
use crate::text::text_order_is_transitive;
use crate::text::texts_are_ordered;
use vstd::prelude::*;
use vstd::utf8::encode_utf8;

verus! {

/// One entry of a corpus.
#[derive(Debug)]
pub struct PatternItem {
    /// The pattern, which every entry must have.
    pub pattern: Option<String>,
    /// The id of the rule it comes from. Chained rules carry one only on the
    /// chain starter.
    pub id: Option<String>,
    /// The file it comes from.
    pub file: Option<String>,
}

/// The view of a [`PatternItem`].
#[verifier::ext_equal]
pub struct ItemView {
    pub pattern: Option<Seq<char>>,
    pub id: Option<Seq<char>>,
    pub file: Option<Seq<char>>,
}

impl DeepView for PatternItem {
    type V = ItemView;

    open spec fn deep_view(&self) -> ItemView {
        ItemView {
            pattern: self.pattern.deep_view(),
            id: self.id.deep_view(),
            file: self.file.deep_view(),
        }
    }
}

/// How an entry is called: by the id of its rule, or by its file where the rule
/// is chained.
pub open spec fn item_label(item: ItemView) -> Seq<char> {
    match item.id {
        Some(id) => id,
        None => "(chained, "@ + (match item.file {
            Some(file) => file,
            None => "?"@,
        }) + ")"@,
    }
}

/// Patterns, each with the label of its first entry.
pub type Labelled = Map<Seq<char>, Seq<char>>;

/// Patterns with one more entry; a pattern that is there keeps its label.
pub open spec fn labelled_with(all: Labelled, pattern: Seq<char>, label: Seq<char>) -> Labelled {
    if all.contains_key(pattern) {
        all
    } else {
        all.insert(pattern, label)
    }
}

/// The patterns of a corpus with their labels, or nothing where an entry has no
/// pattern. Every pattern counts: keying on an
/// id would silently drop those of chained rules.
pub open spec fn labelled(items: Seq<ItemView>) -> Option<Labelled>
    decreases items.len(),
{
    if items.len() == 0 {
        Some(Map::empty())
    } else {
        match (labelled(items.drop_last()), items.last().pattern) {
            (Some(all), Some(pattern)) => Some(
                labelled_with(all, pattern, item_label(items.last())),
            ),
            _ => None,
        }
    }
}

/// Where the first entry without a pattern stands, or the length.
pub open spec fn bare_at(items: Seq<ItemView>) -> int
    decreases items.len(),
{
    if items.len() == 0 || items[0].pattern is None {
        0
    } else {
        1 + bare_at(items.drop_first())
    }
}

/// How many entries have no id.
pub open spec fn count_unlabelled(items: Seq<ItemView>) -> nat
    decreases items.len(),
{
    if items.len() == 0 {
        0
    } else {
        count_unlabelled(items.drop_last()) + if items.last().id is None {
            1nat
        } else {
            0nat
        }
    }
}

/// What compiling a pattern came to.
#[derive(Debug)]
pub enum PatternOutcome {
    /// It compiles as it was written.
    AsAuthored,
    /// It compiles after a repair.
    Repaired,
    /// It does not compile, with the reason.
    Refused(String),
}

/// The view of a [`PatternOutcome`].
#[verifier::ext_equal]
pub enum PatternOutcomeView {
    AsAuthored,
    Repaired,
    Refused(Seq<char>),
}

impl DeepView for PatternOutcome {
    type V = PatternOutcomeView;

    open spec fn deep_view(&self) -> PatternOutcomeView {
        match self {
            PatternOutcome::AsAuthored => PatternOutcomeView::AsAuthored,
            PatternOutcome::Repaired => PatternOutcomeView::Repaired,
            PatternOutcome::Refused(e) => PatternOutcomeView::Refused(e@),
        }
    }
}

/// What compiling a pattern comes to.
pub open spec fn pattern_outcome(pattern: Seq<char>) -> PatternOutcomeView {
    match rx_source(pattern) {
        Ok((_, rewritten)) => if rewritten {
            PatternOutcomeView::Repaired
        } else {
            PatternOutcomeView::AsAuthored
        },
        Err(e) => PatternOutcomeView::Refused(e),
    }
}

/// A pattern, its label and what compiling it came to.
#[derive(Debug)]
pub struct PatternRow {
    pub pattern: String,
    pub label: String,
    pub outcome: PatternOutcome,
}

/// The view of a [`PatternRow`].
#[verifier::ext_equal]
pub struct PatternRowView {
    pub pattern: Seq<char>,
    pub label: Seq<char>,
    pub outcome: PatternOutcomeView,
}

impl DeepView for PatternRow {
    type V = PatternRowView;

    open spec fn deep_view(&self) -> PatternRowView {
        PatternRowView {
            pattern: self.pattern@,
            label: self.label@,
            outcome: self.outcome.deep_view(),
        }
    }
}

/// What a corpus came to.
#[derive(Debug)]
pub struct Coverage {
    /// The patterns, each once, in ascending order.
    pub rows: Vec<PatternRow>,
    /// How many entries belong to chained rules.
    pub unlabelled: usize,
}

/// Whether rows list some patterns: each once, in ascending order, with its label
/// and with what compiling it comes to.
pub open spec fn lists(rows: Seq<PatternRowView>, all: Labelled) -> bool {
    &&& forall|i: int, j: int|
        0 <= i < j < rows.len() ==> text_less(
            (#[trigger] rows[i]).pattern,
            (#[trigger] rows[j]).pattern,
        )
    &&& forall|i: int|
        0 <= i < rows.len() ==> all.contains_pair((#[trigger] rows[i]).pattern, rows[i].label)
            && rows[i].outcome == pattern_outcome(rows[i].pattern)
    &&& forall|pattern: Seq<char>| #[trigger]
        all.contains_key(pattern) ==> exists|i: int|
            0 <= i < rows.len() && (#[trigger] rows[i]).pattern == pattern
}

fn label_of(item: &PatternItem) -> (r: String)
    ensures
        r@ == item_label(item.deep_view()),
{
    match &item.id {
        Some(id) => id.clone(),
        None => match &item.file {
            Some(file) => joined3("(chained, ", file.as_str(), ")"),
            None => joined3("(chained, ", "?", ")"),
        },
    }
}

fn try_pattern(pattern: &str) -> (r: PatternOutcome)
    ensures
        r.deep_view() == pattern_outcome(pattern@),
{
    match compile(pattern) {
        Ok(compiled) => if compiled.repaired_from.is_none() {
            PatternOutcome::AsAuthored
        } else {
            PatternOutcome::Repaired
        },
        Err(e) => PatternOutcome::Refused(e.source_error),
    }
}

proof fn lemma_row_added(
    rows: Seq<PatternRowView>,
    all: Labelled,
    at: int,
    row: PatternRowView,
)
    requires
        lists(rows, all),
        0 <= at <= rows.len(),
        row.outcome == pattern_outcome(row.pattern),
        forall|k: int| 0 <= k < at ==> text_less((#[trigger] rows[k]).pattern, row.pattern),
        at < rows.len() ==> text_less(row.pattern, rows[at].pattern),
    ensures
        !all.contains_key(row.pattern),
        lists(rows.insert(at, row), labelled_with(all, row.pattern, row.label)),
{
    let after = rows.insert(at, row);
    assert forall|k: int| at <= k < rows.len() implies text_less(
        row.pattern,
        (#[trigger] rows[k]).pattern,
    ) by {
        if k > at {
            text_order_is_transitive(row.pattern, rows[at].pattern, rows[k].pattern);
        }
    }
    texts_are_ordered(row.pattern, row.pattern);
    assert(!all.contains_key(row.pattern)) by {
        if all.contains_key(row.pattern) {
            let i = choose|i: int|
                0 <= i < rows.len() && (#[trigger] rows[i]).pattern == row.pattern;
            assert(text_less(rows[i].pattern, row.pattern) || text_less(
                row.pattern,
                rows[i].pattern,
            ));
        }
    }
    let more = all.insert(row.pattern, row.label);
    assert forall|i: int| 0 <= i < after.len() implies more.contains_pair(
        (#[trigger] after[i]).pattern,
        after[i].label,
    ) && after[i].outcome == pattern_outcome(after[i].pattern) by {
        if i < at {
            assert(after[i] == rows[i]);
        } else if i > at {
            assert(after[i] == rows[i - 1]);
        }
    }
    assert forall|pattern: Seq<char>| #[trigger] more.contains_key(pattern) implies exists|i: int|
        0 <= i < after.len() && (#[trigger] after[i]).pattern == pattern by {
        if pattern == row.pattern {
            assert(after[at].pattern == pattern);
        } else {
            assert(all.contains_key(pattern));
            let i = choose|i: int| 0 <= i < rows.len() && (#[trigger] rows[i]).pattern == pattern;
            if i < at {
                assert(after[i] == rows[i]);
            } else {
                assert(after[i + 1] == rows[i]);
            }
        }
    }
    assert forall|i: int, j: int| 0 <= i < j < after.len() implies text_less(
        (#[trigger] after[i]).pattern,
        (#[trigger] after[j]).pattern,
    ) by {
        if j < at {
            assert(after[i] == rows[i] && after[j] == rows[j]);
        } else if i < at && j > at {
            assert(after[i] == rows[i] && after[j] == rows[j - 1]);
        } else if i > at {
            assert(after[i] == rows[i - 1] && after[j] == rows[j - 1]);
        } else if j > at {
            assert(after[j] == rows[j - 1]);
        } else {
            assert(after[i] == rows[i]);
        }
    }
}

fn add_pattern(rows: &mut Vec<PatternRow>, pattern: &str, item: &PatternItem, all: Ghost<Labelled>)
    requires
        lists(old(rows).deep_view(), all@),
    ensures
        lists(
            final(rows).deep_view(),
            labelled_with(all@, pattern@, item_label(item.deep_view())),
        ),
{
    let ghost known = rows.deep_view();
    let mut at: usize = 0;
    while at < rows.len() && is_less(rows[at].pattern.as_str(), pattern)
        invariant
            at <= rows@.len(),
            known == rows.deep_view(),
            forall|k: int| 0 <= k < at ==> text_less((#[trigger] known[k]).pattern, pattern@),
        decreases rows@.len() - at,
    {
        assert(known[at as int].pattern == rows@[at as int].pattern@);
        at += 1;
    }
    if at < rows.len() {
        assert(known[at as int].pattern == rows@[at as int].pattern@);
        if same_str(rows[at].pattern.as_str(), pattern) {
            assert(all@.contains_pair(known[at as int].pattern, known[at as int].label));
            return;
        }
    }
    let row = PatternRow {
        pattern: pattern.to_string(),
        label: label_of(item),
        outcome: try_pattern(pattern),
    };
    proof {
        if at < known.len() {
            texts_are_ordered(known[at as int].pattern, pattern@);
        }
        lemma_row_added(known, all@, at as int, row.deep_view());
    }
    let ghost shown = row.deep_view();
    rows.insert(at, row);
    assert(rows.deep_view() =~= known.insert(at as int, shown));
}

/// Compile a corpus. Fails with the position of the first entry that has no
/// pattern: a tool that skips input it cannot label is worthless.
pub fn cover(items: &Vec<PatternItem>) -> (r: Result<Coverage, usize>)
    ensures
        (match labelled(items.deep_view()) {
            Some(all) => r is Ok && lists(r->Ok_0.rows.deep_view(), all) && r->Ok_0.unlabelled
                == count_unlabelled(items.deep_view()),
            None => r is Err && r->Err_0 == bare_at(items.deep_view()) && r->Err_0 < items@.len(),
        }),
{
    let ghost all = items.deep_view();
    let mut rows: Vec<PatternRow> = Vec::new();
    let mut unlabelled: usize = 0;
    let mut i: usize = 0;
    assert(all.take(0) =~= seq![]);
    assert(rows.deep_view() =~= seq![]);
    while i < items.len()
        invariant
            i <= items@.len(),
            all == items.deep_view(),
            labelled(all.take(i as int)) is Some,
            lists(rows.deep_view(), labelled(all.take(i as int))->0),
            forall|k: int| 0 <= k < i ==> (#[trigger] all[k]).pattern is Some,
            unlabelled <= i,
            unlabelled == count_unlabelled(all.take(i as int)),
        decreases items@.len() - i,
    {
        assert(all.take(i + 1).drop_last() =~= all.take(i as int));
        assert(all.take(i + 1).last() == items@[i as int].deep_view());
        let item = &items[i];
        assert(all[i as int] == item.deep_view());
        let pattern = match &item.pattern {
            Some(pattern) => pattern,
            None => {
                proof {
                    lemma_unlabelled_stays(all, i + 1);
                    lemma_bare_at(all, i as int);
                }
                return Err(i);
            },
        };
        if item.id.is_none() {
            unlabelled += 1;
        }
        add_pattern(
            &mut rows,
            pattern.as_str(),
            item,
            Ghost(labelled(all.take(i as int))->0),
        );
        i += 1;
    }
    assert(all.take(i as int) =~= all);
    Ok(Coverage { rows, unlabelled })
}

proof fn lemma_bare_at(items: Seq<ItemView>, i: int)
    requires
        0 <= i < items.len(),
        items[i].pattern is None,
        forall|k: int| 0 <= k < i ==> (#[trigger] items[k]).pattern is Some,
    ensures
        bare_at(items) == i,
    decreases i,
{
    if i > 0 {
        let rest = items.drop_first();
        assert(items[0].pattern is Some);
        assert forall|k: int| 0 <= k < i - 1 implies (#[trigger] rest[k]).pattern is Some by {
            assert(rest[k] == items[k + 1]);
        }
        lemma_bare_at(rest, i - 1);
    }
}

proof fn lemma_unlabelled_stays(items: Seq<ItemView>, n: int)
    requires
        0 <= n <= items.len(),
        labelled(items.take(n)) is None,
    ensures
        labelled(items) is None,
    decreases items.len(),
{
    if n == items.len() {
        assert(items.take(n) =~= items);
    } else {
        assert(items.drop_last().take(n) =~= items.take(n));
        lemma_unlabelled_stays(items.drop_last(), n);
    }
}

// ---------------------------------------------------------------------------
// Reports

/// How many patterns compile, and which do not do so as they were written.
#[derive(Debug)]
pub struct Tally {
    /// How many compile as they were written.
    pub as_authored: usize,
    /// The labels of those that compile after a repair.
    pub repaired: Vec<String>,
    /// The labels of those that do not compile, with the reasons.
    pub refused: Vec<(String, String)>,
}

/// The view of a [`Tally`].
#[verifier::ext_equal]
pub struct TallyView {
    pub as_authored: nat,
    pub repaired: Seq<Seq<char>>,
    pub refused: Seq<(Seq<char>, Seq<char>)>,
}

impl View for Tally {
    type V = TallyView;

    open spec fn view(&self) -> TallyView {
        TallyView {
            as_authored: self.as_authored as nat,
            repaired: self.repaired.deep_view(),
            refused: Seq::new(
                self.refused@.len(),
                |i: int| (self.refused@[i].0@, self.refused@[i].1@),
            ),
        }
    }
}

/// What rows tally up to, in the order in which they stand.
pub open spec fn tallied(rows: Seq<PatternRowView>) -> TallyView
    decreases rows.len(),
{
    if rows.len() == 0 {
        TallyView { as_authored: 0, repaired: seq![], refused: seq![] }
    } else {
        let before = tallied(rows.drop_last());
        let row = rows.last();
        match row.outcome {
            PatternOutcomeView::AsAuthored => TallyView {
                as_authored: before.as_authored + 1,
                ..before
            },
            PatternOutcomeView::Repaired => TallyView {
                repaired: before.repaired.push(row.label),
                ..before
            },
            PatternOutcomeView::Refused(reason) => TallyView {
                refused: before.refused.push((row.label, reason)),
                ..before
            },
        }
    }
}

/// Tally up a coverage, in the order of its patterns.
pub fn tally(coverage: &Coverage) -> (r: Tally)
    ensures
        r@ == tallied(coverage.rows.deep_view()),
{
    let ghost all = coverage.rows.deep_view();
    let mut r = Tally { as_authored: 0, repaired: Vec::new(), refused: Vec::new() };
    let mut i: usize = 0;
    assert(all.take(0) =~= seq![]);
    assert(r@ =~= tallied(all.take(0)));
    while i < coverage.rows.len()
        invariant
            i <= coverage.rows@.len(),
            all == coverage.rows.deep_view(),
            r.as_authored <= i,
            r@ == tallied(all.take(i as int)),
        decreases coverage.rows@.len() - i,
    {
        let ghost before = r@;
        let row = &coverage.rows[i];
        assert(all.take(i + 1).drop_last() =~= all.take(i as int));
        assert(all.take(i + 1).last() == row.deep_view());
        match &row.outcome {
            PatternOutcome::AsAuthored => {
                r.as_authored += 1;
            },
            PatternOutcome::Repaired => {
                r.repaired.push(row.label.clone());
                assert(r@.repaired =~= before.repaired.push(row.label@));
            },
            PatternOutcome::Refused(reason) => {
                r.refused.push((row.label.clone(), reason.clone()));
                assert(r@.refused =~= before.refused.push((row.label@, reason@)));
            },
        }
        assert(r@ =~= tallied(all.take(i + 1)));
        i += 1;
    }
    assert(all.take(i as int) =~= all);
    r
}

impl Tally {
    /// Whether every pattern compiles, which is what a report succeeds by.
    pub fn passes(&self) -> (r: bool)
        ensures
            r == (self@.refused.len() == 0),
    {
        self.refused.len() == 0
    }
}

/// The entry that a document writes. What is no text counts as missing.
pub open spec fn corpus_item(value: JsonView) -> ItemView {
    ItemView {
        pattern: text_under(value, "pattern"@),
        id: text_under(value, "id"@),
        file: text_under(value, "file"@),
    }
}

/// The entries that documents write.
pub open spec fn corpus_items(values: Seq<JsonView>) -> Seq<ItemView> {
    Seq::new(values.len(), |i: int| corpus_item(values[i]))
}

/// Read a corpus: a JSON array with an entry for each of its items. Fails with
/// what is wrong with the text.
pub fn read_corpus(text: &str) -> (r: Result<Vec<PatternItem>, String>)
    ensures
        (match json_documents(text@) {
            Ok(values) => r is Ok && r->Ok_0.deep_view() == corpus_items(values),
            Err(reason) => r is Err && r->Err_0@ == reason,
        }),
        (match json_document(encode_utf8(text@)) {
            Ok(JsonView::Array(values)) => r is Ok && r->Ok_0.deep_view() == corpus_items(values),
            _ => r is Err,
        }),
{
    let documents = match read_documents(text) {
        Ok(documents) => documents,
        Err(e) => {
            return Err(e);
        },
    };
    let ghost values = documents_in(documents@);
    let mut items: Vec<PatternItem> = Vec::new();
    let mut i: usize = 0;
    while i < documents.len()
        invariant
            i <= documents@.len(),
            values == documents_in(documents@),
            items.deep_view() == corpus_items(values).take(i as int),
        decreases documents@.len() - i,
    {
        let ghost done = items.deep_view();
        let entry = document_of(&documents[i]);
        let item = PatternItem {
            pattern: text_at(&entry, "pattern"),
            id: text_at(&entry, "id"),
            file: text_at(&entry, "file"),
        };
        assert(item.deep_view() =~= corpus_item(values[i as int]));
        let ghost shown = item.deep_view();
        items.push(item);
        assert(items.deep_view() =~= done.push(shown));
        assert(items.deep_view() =~= corpus_items(values).take(i + 1));
        i += 1;
    }
    assert(corpus_items(values).take(i as int) =~= corpus_items(values));
    Ok(items)
}

/// Why there is no report on a corpus.
#[derive(Debug)]
pub enum CorpusError {
    /// The text is no list of entries, with the reason.
    Unreadable(String),
    /// An entry, as it is written, has no pattern.
    NoPattern(String),
}

/// The view of a [`CorpusError`].
#[verifier::ext_equal]
pub enum CorpusErrorView {
    Unreadable(Seq<char>),
    NoPattern(Seq<char>),
}

impl DeepView for CorpusError {
    type V = CorpusErrorView;

    open spec fn deep_view(&self) -> CorpusErrorView {
        match self {
            CorpusError::Unreadable(e) => CorpusErrorView::Unreadable(e@),
            CorpusError::NoPattern(entry) => CorpusErrorView::NoPattern(entry@),
        }
    }
}

/// What a corpus came to, and its tally.
#[derive(Debug)]
pub struct Report {
    pub coverage: Coverage,
    pub tally: Tally,
}

/// Whether a report is one on some entries.
pub open spec fn reports_on(report: Report, items: Seq<ItemView>) -> bool {
    let rows = report.coverage.rows.deep_view();
    &&& labelled(items) is Some
    &&& lists(rows, labelled(items)->0)
    &&& report.coverage.unlabelled == count_unlabelled(items)
    &&& report.tally@ == tallied(rows)
}

/// The entry at a position of a corpus, as it is written.
fn entry_text(text: &str, at: usize) -> (r: String)
    requires
        json_documents(text@) is Ok,
        at < json_documents(text@)->Ok_0.len(),
    ensures
        r@ == document_text(json_documents(text@)->Ok_0[at as int]),
{
    match read_documents(text) {
        Ok(documents) => write_document(&documents[at]),
        Err(e) => e,
    }
}

/// Report how much of a corpus compiles, and what needed repair.
pub fn compile_report(text: &str) -> (r: Result<Report, CorpusError>)
    ensures
        (match json_documents(text@) {
            Err(reason) => r is Err && r->Err_0.deep_view() == CorpusErrorView::Unreadable(reason),
            Ok(values) => match labelled(corpus_items(values)) {
                None => r is Err && r->Err_0.deep_view() == CorpusErrorView::NoPattern(
                    document_text(values[bare_at(corpus_items(values))]),
                ),
                Some(_) => r is Ok && reports_on(r->Ok_0, corpus_items(values)),
            },
        }),
{
    let items = match read_corpus(text) {
        Ok(items) => items,
        Err(e) => {
            return Err(CorpusError::Unreadable(e));
        },
    };
    assert(items.deep_view().len() == items@.len());
    match cover(&items) {
        Err(at) => Err(CorpusError::NoPattern(entry_text(text, at))),
        Ok(coverage) => {
            let tally = tally(&coverage);
            Ok(Report { coverage, tally })
        },
    }
}

// ---------------------------------------------------------------------------
// Laws

/// No pattern is dropped: each one that an entry of the corpus holds is among
/// those that are compiled.
pub proof fn every_pattern_is_compiled(items: Seq<ItemView>, k: int)
    requires
        labelled(items) is Some,
        0 <= k < items.len(),
    ensures
        items[k].pattern is Some,
        labelled(items)->0.contains_key(items[k].pattern->0),
    decreases items.len(),
{
    if k < items.len() - 1 {
        every_pattern_is_compiled(items.drop_last(), k);
    }
}

/// A pattern that several entries hold is called by the first of them.
pub proof fn the_first_entry_labels_a_pattern(items: Seq<ItemView>, k: int)
    requires
        labelled(items) is Some,
        0 <= k < items.len(),
        forall|j: int| 0 <= j < k ==> (#[trigger] items[j]).pattern != items[k].pattern,
    ensures
        items[k].pattern is Some,
        labelled(items)->0.contains_pair(items[k].pattern->0, item_label(items[k])),
    decreases items.len(),
{
    let shorter = items.drop_last();
    if k < shorter.len() {
        assert forall|j: int| 0 <= j < k implies (#[trigger] shorter[j]).pattern
            != shorter[k].pattern by {
            assert(shorter[j] == items[j]);
        }
        the_first_entry_labels_a_pattern(shorter, k);
    } else {
        let pattern = items[k].pattern->0;
        let early = labelled(shorter)->0;
        assert(!early.contains_key(pattern)) by {
            if early.contains_key(pattern) {
                lemma_labelled_is_held(shorter, pattern);
                let j = choose|j: int|
                    0 <= j < shorter.len() && (#[trigger] shorter[j]).pattern == Some(pattern);
                assert(items[j] == shorter[j]);
            }
        }
    }
}

proof fn lemma_labelled_is_held(items: Seq<ItemView>, pattern: Seq<char>)
    requires
        labelled(items) is Some,
        labelled(items)->0.contains_key(pattern),
    ensures
        exists|j: int| 0 <= j < items.len() && (#[trigger] items[j]).pattern == Some(pattern),
    decreases items.len(),
{
    if items.len() > 0 {
        let shorter = items.drop_last();
        if items.last().pattern == Some(pattern) {
            assert(items[items.len() - 1].pattern == Some(pattern));
        } else {
            lemma_labelled_is_held(shorter, pattern);
            let j = choose|j: int|
                0 <= j < shorter.len() && (#[trigger] shorter[j]).pattern == Some(pattern);
            assert(items[j] == shorter[j]);
        }
    }
}

/// Every pattern is tallied, once.
pub proof fn every_pattern_is_tallied(rows: Seq<PatternRowView>)
    ensures
        tallied(rows).as_authored + tallied(rows).repaired.len() + tallied(rows).refused.len()
            == rows.len(),
    decreases rows.len(),
{
    if rows.len() > 0 {
        every_pattern_is_tallied(rows.drop_last());
    }
}

} // verus!

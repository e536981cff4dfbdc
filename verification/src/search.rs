use crate::active::{
    counted_ids, found_ids, worded_ids, ActiveQuery, ActiveSearch, ActiveStep, IndexRead, QueryTerm,
    QueryView, ScanView, SearchView, StageView, StepView, WordCountScan, WordScan, WordScanView,
};
use crate::active_laws::{
    active_rules, law_every_read_makes_progress, lemma_scan_rank, rank, remaining, run, Outcome,
    RuleIndex,
};
use crate::bitmap::ids;
use crate::fields::{rule_fields, FieldId, FieldsIdsMap, RuleFields};
use crate::pins::{find_pins, rule_ids_sorted_by_precedence, DocumentId, PinDoc, PinStep, PinStepView};
use crate::pins_laws::{
    documents, granted, law_search_finds_granted_pins, law_second_search_pins_nothing,
    pins_of_rules, rule_order, run_pins, RuleBook,
};
use crate::search_time::SearchTime;
use crate::text::optional_text;
use roaring::RoaringBitmap;
use vstd::prelude::*;

verus! {

/// What a search is about.
pub struct SearchContext {
    /// The index that is searched.
    pub index_uid: String,
    /// The time just before the search.
    pub before_search: SearchTime,
}

/// The rules' index, in which active rules can be searched for.
pub struct DynamicSearchRules {
    db_fields_ids_map: FieldsIdsMap,
    max_counted_words: u8,
}

/// What the rules' index is known by.
pub struct RulesView {
    pub fields: Map<Seq<char>, FieldId>,
    pub max_counted_words: u8,
}

impl View for DynamicSearchRules {
    type V = RulesView;

    closed spec fn view(&self) -> RulesView {
        RulesView {
            fields: self.db_fields_ids_map@,
            max_counted_words: self.max_counted_words,
        }
    }
}

/// A search for a rule by its name, which waits for the document with that id.
pub struct RuleLookup {
    rule_uid: String,
}

impl View for RuleLookup {
    type V = Seq<char>;

    closed spec fn view(&self) -> Seq<char> {
        self.rule_uid@
    }
}

/// How a search for a rule goes on.
pub enum RuleLookupStep {
    /// There is no such rule.
    Absent,
    /// The rule is what the index has under this number, if anything.
    Document(DocumentId),
}

impl RuleLookup {
    /// The id of the document that is waited for.
    pub fn rule_uid(&self) -> (rule_uid: &String)
        ensures
            rule_uid@ == self@,
    {
        &self.rule_uid
    }

    /// Goes on with the number of the document; `None` where the index has none under the id.
    pub fn resume(self, docid: Option<DocumentId>) -> (step: RuleLookupStep)
        ensures
            step == match docid {
                Some(docid) => RuleLookupStep::Document(docid),
                None => RuleLookupStep::Absent,
            },
    {
        match docid {
            Some(docid) => RuleLookupStep::Document(docid),
            None => RuleLookupStep::Absent,
        }
    }
}

/// Where the pins of the active rules go, and by which field the rules are sorted.
pub struct Target {
    pub index_uid: Seq<char>,
    pub precedence: Option<FieldId>,
}

/// How the resolution of pins goes on.
pub enum ResolveView {
    /// It waits for a read of the rules' index.
    Rules(SearchView, Target),
    /// It waits for a scan of the rules' index.
    WordCounts(ScanView, Target),
    /// It waits for the words that rules ask for.
    Words(WordScanView, Target),
    /// The active rules are known; it searches for their pins.
    Pins(PinStepView),
    /// The time of the search cannot be written down.
    TimeUnwritable,
}

/// How the resolution of pins goes on when the search for the active rules goes on by `step`.
pub open spec fn resolving(step: StepView, target: Target) -> ResolveView {
    match step {
        StepView::Read(search) => ResolveView::Rules(search, target),
        StepView::Scan(scan) => ResolveView::WordCounts(scan, target),
        StepView::Words(scan) => ResolveView::Words(scan, target),
        StepView::Done(active) => ResolveView::Pins(
            find_pins(active, target.precedence, target.index_uid),
        ),
        StepView::TimeUnwritable => ResolveView::TimeUnwritable,
    }
}

/// The resolution of pins, waiting for a read of the rules' index.
pub struct AwaitRules {
    search: ActiveSearch,
    fields: RuleFields,
    index_uid: String,
}

/// The resolution of pins, waiting for the words that rules ask for.
pub struct AwaitWords {
    scan: WordScan,
    fields: RuleFields,
    index_uid: String,
}

/// The resolution of pins, waiting for a scan of the rules' index.
pub struct AwaitWordCounts {
    scan: WordCountScan,
    fields: RuleFields,
    index_uid: String,
}

/// How the resolution of pins goes on.
pub enum ResolveStep {
    /// It waits for a read of the rules' index.
    Rules(AwaitRules),
    /// It waits for a scan of the rules' index.
    WordCounts(AwaitWordCounts),
    /// It waits for the words that rules ask for.
    Words(AwaitWords),
    /// The active rules are known; it searches for their pins.
    Pins(PinStep),
    /// The time of the search cannot be written down, so no rule can be held against it.
    TimeUnwritable,
}

impl View for AwaitRules {
    type V = (SearchView, Target);

    closed spec fn view(&self) -> (SearchView, Target) {
        (
            self.search@,
            Target { index_uid: self.index_uid@, precedence: self.fields.precedence },
        )
    }
}

impl View for AwaitWordCounts {
    type V = (ScanView, Target);

    closed spec fn view(&self) -> (ScanView, Target) {
        (self.scan@, Target { index_uid: self.index_uid@, precedence: self.fields.precedence })
    }
}

impl View for AwaitWords {
    type V = (WordScanView, Target);

    closed spec fn view(&self) -> (WordScanView, Target) {
        (self.scan@, Target { index_uid: self.index_uid@, precedence: self.fields.precedence })
    }
}

impl View for ResolveStep {
    type V = ResolveView;

    open spec fn view(&self) -> ResolveView {
        match *self {
            ResolveStep::Rules(rules) => ResolveView::Rules(rules@.0, rules@.1),
            ResolveStep::WordCounts(counts) => ResolveView::WordCounts(counts@.0, counts@.1),
            ResolveStep::Words(words) => ResolveView::Words(words@.0, words@.1),
            ResolveStep::Pins(step) => ResolveView::Pins(step@),
            ResolveStep::TimeUnwritable => ResolveView::TimeUnwritable,
        }
    }
}

fn resolve(step: ActiveStep, fields: RuleFields, index_uid: String) -> (next: ResolveStep)
    ensures
        next@ == resolving(
            step@,
            Target { index_uid: index_uid@, precedence: fields.precedence },
        ),
{
    match step {
        ActiveStep::Read(search) => ResolveStep::Rules(AwaitRules { search, fields, index_uid }),
        ActiveStep::Scan(scan) => ResolveStep::WordCounts(
            AwaitWordCounts { scan, fields, index_uid },
        ),
        ActiveStep::Words(scan) => ResolveStep::Words(AwaitWords { scan, fields, index_uid }),
        ActiveStep::Done(active) => ResolveStep::Pins(
            rule_ids_sorted_by_precedence(active, &fields, index_uid),
        ),
        ActiveStep::TimeUnwritable => ResolveStep::TimeUnwritable,
    }
}

impl AwaitRules {
    /// The read that is waited for.
    pub fn request(&self) -> (read: IndexRead<'_>)
        ensures
            read@ == self@.0.request(),
    {
        self.search.request()
    }

    /// Goes on with what the read has found.
    pub fn resume(self, found: Option<RoaringBitmap>) -> (step: ResolveStep)
        ensures
            step@ == resolving(self@.0.next(found_ids(found)), self@.1),
    {
        resolve(self.search.resume(found), self.fields, self.index_uid)
    }
}

impl AwaitWordCounts {
    /// The field whose words are counted.
    pub fn field(&self) -> (field: FieldId)
        ensures
            field == self@.0.field,
    {
        self.scan.field()
    }

    /// Goes on with the rules that the index has under the field for each count from 1 to 255,
    /// with the count.
    pub fn resume(self, found: Vec<(u8, RoaringBitmap)>) -> (step: ResolveStep)
        ensures
            step@ == resolving(self@.0.next(counted_ids(found@)), self@.1),
    {
        resolve(self.scan.resume(found), self.fields, self.index_uid)
    }
}

impl AwaitWords {
    /// The field whose words are waited for.
    pub fn field(&self) -> (field: FieldId)
        ensures
            field == self@.0.field,
    {
        self.scan.field()
    }

    /// Goes on with every word that the index has under the field, with its rules.
    pub fn resume(self, found: Vec<(String, RoaringBitmap)>) -> (step: ResolveStep)
        ensures
            step@ == resolving(self@.0.next(worded_ids(found@)), self@.1),
    {
        resolve(self.scan.resume(found), self.fields, self.index_uid)
    }
}

/// What decides which rules of the index are active.
pub open spec fn query_of(
    rules: RulesView,
    words: Seq<Option<Seq<char>>>,
    before_search: crate::search_time::Moment,
) -> QueryView {
    QueryView {
        fields: rule_fields(rules.fields),
        words,
        before_search,
        max_counted_words: rules.max_counted_words,
    }
}

/// The words of the terms of a query.
pub open spec fn words_of(terms: Seq<QueryTerm>) -> Seq<Option<Seq<char>>> {
    terms.map_values(|term: QueryTerm| optional_text(term.original_single_word))
}

impl DynamicSearchRules {
    /// The rules' index with these fields, which counts so many words of a field.
    pub fn new(db_fields_ids_map: FieldsIdsMap, max_counted_words: u8) -> (rules: Self)
        ensures
            rules@ == (RulesView { fields: db_fields_ids_map@, max_counted_words }),
    {
        DynamicSearchRules { db_fields_ids_map, max_counted_words }
    }

    /// Searches for a rule by its name.
    pub fn get(&self, rule_uid: String) -> (lookup: RuleLookup)
        ensures
            lookup@ == rule_uid@,
    {
        RuleLookup { rule_uid }
    }

    /// Searches for the pins of the rules that are active for a query.
    pub fn resolve_pins(&self, query_terms: Vec<QueryTerm>, search_context: SearchContext) -> (step:
        ResolveStep)
        ensures
            step@ == ResolveView::Rules(
                SearchView {
                    query: query_of(
                        self@,
                        words_of(query_terms@),
                        search_context.before_search@,
                    ),
                    stage: StageView::SwitchedOn,
                },
                Target {
                    index_uid: search_context.index_uid@,
                    precedence: rule_fields(self@.fields).precedence,
                },
            ),
            match step@ {
                ResolveView::Rules(search, target) => {
                    let map = self@.fields;
                    let fields = search.query.fields;
                    &&& target.index_uid == search_context.index_uid@
                    &&& target.precedence == if map.contains_key("precedence"@) {
                        Some(map["precedence"@])
                    } else {
                        None
                    }
                    &&& fields.active == if map.contains_key("active"@) {
                        Some(map["active"@])
                    } else {
                        None
                    }
                    &&& fields.time_start == if map.contains_key("conditions.time.start"@) {
                        Some(map["conditions.time.start"@])
                    } else {
                        None
                    }
                    &&& fields.time_end == if map.contains_key("conditions.time.end"@) {
                        Some(map["conditions.time.end"@])
                    } else {
                        None
                    }
                    &&& fields.query_is_empty == if map.contains_key("conditions.query.isEmpty"@) {
                        Some(map["conditions.query.isEmpty"@])
                    } else {
                        None
                    }
                    &&& fields.query_words == if map.contains_key("conditions.query.words"@) {
                        Some(map["conditions.query.words"@])
                    } else {
                        None
                    }
                    &&& search.query.before_search == search_context.before_search@
                    &&& search.query.max_counted_words == self@.max_counted_words
                    &&& search.query.words.len() == query_terms@.len()
                    &&& forall|i: int|
                        0 <= i < query_terms@.len() ==> {
                            let word = #[trigger] search.query.words[i];
                            let text = query_terms@[i].original_single_word;
                            &&& word is Some <==> text is Some
                            &&& text is Some ==> word->0 == text->0@
                        }
                },
                _ => false,
            },
    {
        let fields = RuleFields::of(&self.db_fields_ids_map);
        let query = ActiveQuery {
            fields,
            terms: query_terms,
            before_search: search_context.before_search,
            max_counted_words: self.max_counted_words,
        };
        let search = ActiveSearch::start(query);
        resolve(ActiveStep::Read(search), fields, search_context.index_uid)
    }
}

/// What the resolution of pins comes to when the rules' index and the rule book answer its
/// reads: the pins, and what is left of the universe. `None` where the time of the search cannot
/// be written down.
pub open spec fn run_resolution(
    index: RuleIndex,
    book: RuleBook,
    step: ResolveView,
    universe: Set<u32>,
) -> Option<(Seq<PinDoc>, Set<u32>)>
    decreases resolution_rank(step), resolution_remaining(step),
{
    match step {
        ResolveView::Rules(search, target) => {
            let found = index.answer(search.request());
            proof {
                law_every_read_makes_progress(search, found);
            }
            run_resolution(index, book, resolving(search.next(found), target), universe)
        },
        ResolveView::WordCounts(scan, target) => {
            let found = index.scanned(scan.field);
            proof {
                lemma_scan_rank(scan, found);
            }
            run_resolution(index, book, resolving(scan.next(found), target), universe)
        },
        ResolveView::Words(scan, target) => {
            let missing = index.worded_beside(scan.field, scan.query.counted_words());
            run_resolution(index, book, resolving(scan.without(missing), target), universe)
        },
        ResolveView::Pins(step) => Some(run_pins(book, Seq::empty(), step, universe)),
        ResolveView::TimeUnwritable => None,
    }
}

/// The step of the search for the active rules in a resolution.
pub open spec fn rules_step(step: ResolveView) -> StepView {
    match step {
        ResolveView::Rules(search, target) => StepView::Read(search),
        ResolveView::WordCounts(scan, target) => StepView::Scan(scan),
        ResolveView::Words(scan, target) => StepView::Words(scan),
        ResolveView::Pins(_) => StepView::TimeUnwritable,
        ResolveView::TimeUnwritable => StepView::TimeUnwritable,
    }
}

/// How many kinds of reads of the rules' index are ahead.
pub open spec fn resolution_rank(step: ResolveView) -> nat {
    rank(rules_step(step))
}

/// How many reads of its kind are ahead.
pub open spec fn resolution_remaining(step: ResolveView) -> nat {
    remaining(rules_step(step))
}

proof fn lemma_resolution_follows_rules(
    index: RuleIndex,
    book: RuleBook,
    step: StepView,
    target: Target,
    universe: Set<u32>,
)
    ensures
        run_resolution(index, book, resolving(step, target), universe) == match run(index, step) {
            Outcome::Active(active) => Some(
                run_pins(
                    book,
                    Seq::empty(),
                    find_pins(active, target.precedence, target.index_uid),
                    universe,
                ),
            ),
            Outcome::TimeUnwritable => None,
        },
    decreases rank(step), remaining(step),
{
    match step {
        StepView::Read(search) => {
            let found = index.answer(search.request());
            law_every_read_makes_progress(search, found);
            lemma_resolution_follows_rules(index, book, search.next(found), target, universe);
        },
        StepView::Scan(scan) => {
            let found = index.scanned(scan.field);
            lemma_scan_rank(scan, found);
            lemma_resolution_follows_rules(index, book, scan.next(found), target, universe);
        },
        StepView::Words(scan) => {
            let missing = index.worded_beside(scan.field, scan.query.counted_words());
            lemma_resolution_follows_rules(index, book, scan.without(missing), target, universe);
        },
        _ => {},
    }
}

/// The resolution of pins, whose every read is answered, ends with the pins that are granted to
/// the active rules in their order, and takes the pinned documents out of the universe.
pub proof fn law_resolution_finds_granted_pins(
    index: RuleIndex,
    book: RuleBook,
    query: QueryView,
    target: Target,
    universe: Set<u32>,
)
    ensures
        run_resolution(
            index,
            book,
            ResolveView::Rules(SearchView { query, stage: StageView::SwitchedOn }, target),
            universe,
        ) == match active_rules(index, query) {
            Outcome::Active(active) => {
                let pins = granted(
                    pins_of_rules(
                        book,
                        target.index_uid,
                        rule_order(book, active, target.precedence),
                    ),
                    universe,
                );
                Some((pins, universe.difference(documents(pins))))
            },
            Outcome::TimeUnwritable => None,
        },
{
    let start = SearchView { query, stage: StageView::SwitchedOn };
    lemma_resolution_follows_rules(index, book, StepView::Read(start), target, universe);
    crate::active_laws::law_search_finds_active_rules(index, query);
    match active_rules(index, query) {
        Outcome::Active(active) => {
            law_search_finds_granted_pins(
                book,
                active,
                target.precedence,
                target.index_uid,
                universe,
            );
        },
        Outcome::TimeUnwritable => {},
    }
}

/// A second resolution, of the same query in what the first has left of the universe, pins
/// nothing and leaves the universe as it is.
pub proof fn law_second_resolution_pins_nothing(
    index: RuleIndex,
    book: RuleBook,
    query: QueryView,
    target: Target,
    universe: Set<u32>,
)
    requires
        active_rules(index, query) is Active,
    ensures
        ({
            let start = ResolveView::Rules(
                SearchView { query, stage: StageView::SwitchedOn },
                target,
            );
            let first = run_resolution(index, book, start, universe);
            &&& first is Some
            &&& run_resolution(index, book, start, (first->0).1) == Some(
                (Seq::<PinDoc>::empty(), (first->0).1),
            )
        }),
{
    let active = active_rules(index, query)->Active_0;
    let asked = pins_of_rules(book, target.index_uid, rule_order(book, active, target.precedence));
    let left = universe.difference(documents(granted(asked, universe)));
    law_resolution_finds_granted_pins(index, book, query, target, universe);
    law_resolution_finds_granted_pins(index, book, query, target, left);
    law_second_search_pins_nothing(asked, universe);
    assert(left.difference(documents(Seq::empty())) =~= left);
}

} // verus!

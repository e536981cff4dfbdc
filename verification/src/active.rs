use crate::bitmap::{ids, restrict, shared, subtract, unite};
use crate::fields::{FieldId, RuleFields};
use crate::satisfied::{all_ids, satisfied_by, satisfied_rules, union_of, unite_all};
use crate::search_time::{has_rfc3339, rfc3339, Moment, SearchTime};
use crate::text::{optional_text, same_text};
use roaring::RoaringBitmap;
use vstd::prelude::*;

verus! {

/// A term of a query.
pub struct QueryTerm {
    /// The word of the query that the term stands for, where it stands for a single one.
    pub original_single_word: Option<String>,
}

/// What decides which rules are active.
pub struct ActiveQuery {
    /// The fields of the rules' index.
    pub fields: RuleFields,
    /// The terms of the query.
    pub terms: Vec<QueryTerm>,
    /// The time just before the search.
    pub before_search: SearchTime,
    /// How many words of a field the index counts.
    pub max_counted_words: u8,
}

/// What an `ActiveQuery` says: `words` has the word of each term.
pub struct QueryView {
    pub fields: RuleFields,
    pub words: Seq<Option<Seq<char>>>,
    pub before_search: Moment,
    pub max_counted_words: u8,
}

impl View for ActiveQuery {
    type V = QueryView;

    open spec fn view(&self) -> QueryView {
        QueryView {
            fields: self.fields,
            words: self.terms@.map_values(
                |term: QueryTerm| optional_text(term.original_single_word),
            ),
            before_search: self.before_search@,
            max_counted_words: self.max_counted_words,
        }
    }
}

impl QueryView {
    /// The number of words that count.
    pub open spec fn words_count(self) -> nat {
        if self.words.len() < self.max_counted_words {
            self.words.len()
        } else {
            self.max_counted_words as nat
        }
    }

    /// The words of the first `term` terms.
    pub open spec fn words_before(self, term: nat) -> Set<Seq<char>> {
        Set::new(
            |word: Seq<char>| exists|i: int| 0 <= i < term && #[trigger] self.words[i] == Some(word),
        )
    }

    /// The words that count.
    pub open spec fn counted_words(self) -> Set<Seq<char>> {
        self.words_before(self.words_count())
    }

    /// The term at `term` stands for a single word, and no term before it for the same one. A
    /// word of the query is looked up once, however often it stands there.
    pub open spec fn has_new_word(self, term: nat) -> bool {
        self.words[term as int] is Some && forall|i: int|
            0 <= i < term ==> #[trigger] self.words[i] != self.words[term as int]
    }
}

/// A read of the rules' index that finds at most one set of rules.
pub enum IndexRead<'a> {
    /// All rules.
    Documents,
    /// The rules whose field has exactly this value.
    Facet { field: FieldId, value: &'a str },
    /// The rules out of `within` whose field has a value after `bound`.
    FacetAfter { field: FieldId, bound: &'a str, within: &'a RoaringBitmap },
    /// The rules out of `within` whose field has a value before `bound`.
    FacetBefore { field: FieldId, bound: &'a str, within: &'a RoaringBitmap },
    /// The rules whose field has the word.
    Word { field: FieldId, word: &'a str },
    /// The rules whose field has this many words.
    WordCount { field: FieldId, count: u8 },
}

/// What an `IndexRead` asks for.
pub enum ReadView {
    Documents,
    Facet { field: FieldId, value: Seq<char> },
    FacetAfter { field: FieldId, bound: Seq<char>, within: Set<u32> },
    FacetBefore { field: FieldId, bound: Seq<char>, within: Set<u32> },
    Word { field: FieldId, word: Seq<char> },
    WordCount { field: FieldId, count: u8 },
}

impl<'a> View for IndexRead<'a> {
    type V = ReadView;

    open spec fn view(&self) -> ReadView {
        match *self {
            IndexRead::Documents => ReadView::Documents,
            IndexRead::Facet { field, value } => ReadView::Facet { field, value: value@ },
            IndexRead::FacetAfter { field, bound, within } => ReadView::FacetAfter {
                field,
                bound: bound@,
                within: ids(*within),
            },
            IndexRead::FacetBefore { field, bound, within } => ReadView::FacetBefore {
                field,
                bound: bound@,
                within: ids(*within),
            },
            IndexRead::Word { field, word } => ReadView::Word { field, word: word@ },
            IndexRead::WordCount { field, count } => ReadView::WordCount { field, count },
        }
    }
}

/// What a read found.
pub open spec fn found_ids(found: Option<RoaringBitmap>) -> Option<Set<u32>> {
    match found {
        Some(bitmap) => Some(ids(bitmap)),
        None => None,
    }
}

/// The rules that a read found; none where it found nothing.
pub open spec fn or_none(found: Option<Set<u32>>) -> Set<u32> {
    match found {
        Some(set) => set,
        None => Set::empty(),
    }
}

enum Stage {
    SwitchedOn,
    NotStarted { field: FieldId, active: RoaringBitmap, now: String },
    Ended { field: FieldId, active: RoaringBitmap, now: String },
    Emptiness { field: FieldId, active: RoaringBitmap },
    Word {
        field: FieldId,
        active: RoaringBitmap,
        asking: RoaringBitmap,
        words: Vec<RoaringBitmap>,
        term: usize,
    },
    WordCount {
        field: FieldId,
        active: RoaringBitmap,
        asking: RoaringBitmap,
        words: Vec<RoaringBitmap>,
        satisfied: RoaringBitmap,
        count: usize,
    },
}

/// What a search for the active rules waits for, and what it knows by then. `active` has the
/// rules that no condition has ruled out so far, and `asking` those that ask for words.
pub enum StageView {
    /// The rules that are switched on.
    SwitchedOn,
    /// The rules that start after `now`.
    NotStarted { field: FieldId, active: Set<u32>, now: Seq<char> },
    /// The rules that end before `now`.
    Ended { field: FieldId, active: Set<u32>, now: Seq<char> },
    /// The rules that ask for an empty query where this one is not, or the other way round.
    Emptiness { field: FieldId, active: Set<u32> },
    /// The rules of the word at `term`; `words` has those of the words before it.
    Word {
        field: FieldId,
        active: Set<u32>,
        asking: Set<u32>,
        words: Seq<Set<u32>>,
        term: nat,
    },
    /// The rules that ask for `count` words; `satisfied` has the rules that ask for fewer and
    /// get them.
    WordCount {
        field: FieldId,
        active: Set<u32>,
        asking: Set<u32>,
        words: Seq<Set<u32>>,
        satisfied: Set<u32>,
        count: nat,
    },
}

impl Stage {
    spec fn view(&self) -> StageView {
        match *self {
            Stage::SwitchedOn => StageView::SwitchedOn,
            Stage::NotStarted { field, active, now } => StageView::NotStarted {
                field,
                active: ids(active),
                now: now@,
            },
            Stage::Ended { field, active, now } => StageView::Ended {
                field,
                active: ids(active),
                now: now@,
            },
            Stage::Emptiness { field, active } => StageView::Emptiness {
                field,
                active: ids(active),
            },
            Stage::Word { field, active, asking, words, term } => StageView::Word {
                field,
                active: ids(active),
                asking: ids(asking),
                words: all_ids(words@),
                term: term as nat,
            },
            Stage::WordCount { field, active, asking, words, satisfied, count } => StageView::WordCount {
                field,
                active: ids(active),
                asking: ids(asking),
                words: all_ids(words@),
                satisfied: ids(satisfied),
                count: count as nat,
            },
        }
    }
}

/// A search for the active rules that waits for a read of the index.
pub struct ActiveSearch {
    query: ActiveQuery,
    stage: Stage,
}

pub struct SearchView {
    pub query: QueryView,
    pub stage: StageView,
}

impl View for ActiveSearch {
    type V = SearchView;

    closed spec fn view(&self) -> SearchView {
        SearchView { query: self.query@, stage: self.stage.view() }
    }
}

/// A search for the active rules that waits for the rules that ask for words, by how many they ask
/// for.
pub struct WordCountScan {
    query: ActiveQuery,
    field: FieldId,
    active: RoaringBitmap,
}

pub struct ScanView {
    pub query: QueryView,
    pub field: FieldId,
    pub active: Set<u32>,
}

impl View for WordCountScan {
    type V = ScanView;

    closed spec fn view(&self) -> ScanView {
        ScanView { query: self.query@, field: self.field, active: ids(self.active) }
    }
}

/// A search for the active rules that waits for every word that rules ask for, with its rules.
/// `unsatisfied` has the rules that ask for more words than words of the query have them. Some of
/// these may only ask for a word more than once: `doubtful` has those that ask for any word of the
/// query.
pub struct WordScan {
    query: ActiveQuery,
    field: FieldId,
    active: RoaringBitmap,
    unsatisfied: RoaringBitmap,
    doubtful: RoaringBitmap,
}

pub struct WordScanView {
    pub query: QueryView,
    pub field: FieldId,
    pub active: Set<u32>,
    pub unsatisfied: Set<u32>,
    pub doubtful: Set<u32>,
}

impl View for WordScan {
    type V = WordScanView;

    closed spec fn view(&self) -> WordScanView {
        WordScanView {
            query: self.query@,
            field: self.field,
            active: ids(self.active),
            unsatisfied: ids(self.unsatisfied),
            doubtful: ids(self.doubtful),
        }
    }
}

/// How a search for the active rules goes on.
pub enum ActiveStep {
    /// It waits for a read.
    Read(ActiveSearch),
    /// It waits for the rules that ask for words.
    Scan(WordCountScan),
    /// It waits for the words that rules ask for.
    Words(WordScan),
    /// These are the active rules.
    Done(RoaringBitmap),
    /// The time of the search cannot be written down, so no rule can be held against it.
    TimeUnwritable,
}

pub enum StepView {
    Read(SearchView),
    Scan(ScanView),
    Words(WordScanView),
    Done(Set<u32>),
    TimeUnwritable,
}

impl View for ActiveStep {
    type V = StepView;

    open spec fn view(&self) -> StepView {
        match *self {
            ActiveStep::Read(search) => StepView::Read(search@),
            ActiveStep::Scan(scan) => StepView::Scan(scan@),
            ActiveStep::Words(scan) => StepView::Words(scan@),
            ActiveStep::Done(active) => StepView::Done(ids(active)),
            ActiveStep::TimeUnwritable => StepView::TimeUnwritable,
        }
    }
}

/// Goes on to the rules that have not started, where rules can have a start.
pub open spec fn to_start(query: QueryView, active: Set<u32>, now: Seq<char>) -> StepView {
    match query.fields.time_start {
        Some(field) => StepView::Read(
            SearchView { query, stage: StageView::NotStarted { field, active, now } },
        ),
        None => to_end(query, active, now),
    }
}

/// Goes on to the rules that have ended, where rules can have an end.
pub open spec fn to_end(query: QueryView, active: Set<u32>, now: Seq<char>) -> StepView {
    match query.fields.time_end {
        Some(field) => StepView::Read(
            SearchView { query, stage: StageView::Ended { field, active, now } },
        ),
        None => to_emptiness(query, active),
    }
}

/// Goes on to the rules that need a query of the other emptiness, where rules can need one.
pub open spec fn to_emptiness(query: QueryView, active: Set<u32>) -> StepView {
    match query.fields.query_is_empty {
        Some(field) => StepView::Read(
            SearchView { query, stage: StageView::Emptiness { field, active } },
        ),
        None => to_words(query, active),
    }
}

/// Goes on to the rules that ask for words, where rules can.
pub open spec fn to_words(query: QueryView, active: Set<u32>) -> StepView {
    match query.fields.query_words {
        Some(field) => StepView::Scan(ScanView { query, field, active }),
        None => StepView::Done(active),
    }
}

/// Goes on to the next new word at `term` or after it, out of the words that count.
pub open spec fn to_word(
    query: QueryView,
    field: FieldId,
    active: Set<u32>,
    asking: Set<u32>,
    words: Seq<Set<u32>>,
    term: nat,
) -> StepView
    decreases query.words_count() - term,
{
    if term < query.words_count() {
        if query.has_new_word(term) {
            StepView::Read(
                SearchView {
                    query,
                    stage: StageView::Word { field, active, asking, words, term },
                },
            )
        } else {
            to_word(query, field, active, asking, words, term + 1)
        }
    } else {
        to_word_count(query, field, active, asking, words, Set::empty(), 0)
    }
}

/// Goes on to the rules that ask for `count` words, as long as so many words have rules.
pub open spec fn to_word_count(
    query: QueryView,
    field: FieldId,
    active: Set<u32>,
    asking: Set<u32>,
    words: Seq<Set<u32>>,
    satisfied: Set<u32>,
    count: nat,
) -> StepView {
    if count <= words.len() {
        StepView::Read(
            SearchView {
                query,
                stage: StageView::WordCount { field, active, asking, words, satisfied, count },
            },
        )
    } else {
        to_repeats(query, field, active, words, asking.difference(satisfied))
    }
}

/// Rules out the rules that ask for words and do not get them. Where some of these ask for a word
/// of the query, it goes on to the words that they ask for.
pub open spec fn to_repeats(
    query: QueryView,
    field: FieldId,
    active: Set<u32>,
    words: Seq<Set<u32>>,
    unsatisfied: Set<u32>,
) -> StepView {
    let doubtful = unsatisfied.intersect(union_of(words));
    if doubtful == Set::<u32>::empty() {
        StepView::Done(active.difference(unsatisfied))
    } else {
        StepView::Words(WordScanView { query, field, active, unsatisfied, doubtful })
    }
}

/// The rules of each word so far, with the rules of one more that are still active; a word
/// without any is left out.
pub open spec fn with_word(
    words: Seq<Set<u32>>,
    active: Set<u32>,
    found: Option<Set<u32>>,
) -> Seq<Set<u32>> {
    match found {
        Some(rules) => if rules.intersect(active) == Set::<u32>::empty() {
            words
        } else {
            words.push(rules.intersect(active))
        },
        None => words,
    }
}

/// The satisfied rules, with those that ask for `count` words.
pub open spec fn with_count(
    satisfied: Set<u32>,
    words: Seq<Set<u32>>,
    count: nat,
    found: Option<Set<u32>>,
) -> Set<u32> {
    match found {
        Some(rules) => satisfied.union(satisfied_by(rules, words, count)),
        None => satisfied,
    }
}

impl SearchView {
    /// The read that the search waits for.
    pub open spec fn request(self) -> ReadView {
        match self.stage {
            StageView::SwitchedOn => match self.query.fields.active {
                Some(field) => ReadView::Facet { field, value: "true"@ },
                None => ReadView::Documents,
            },
            StageView::NotStarted { field, active, now } => ReadView::FacetAfter {
                field,
                bound: now,
                within: active,
            },
            StageView::Ended { field, active, now } => ReadView::FacetBefore {
                field,
                bound: now,
                within: active,
            },
            StageView::Emptiness { field, active } => ReadView::Facet {
                field,
                value: if self.query.words.len() == 0 {
                    "false"@
                } else {
                    "true"@
                },
            },
            StageView::Word { field, active, asking, words, term } => ReadView::Word {
                field,
                word: self.query.words[term as int].unwrap(),
            },
            StageView::WordCount { field, active, asking, words, satisfied, count } => ReadView::WordCount {
                field,
                count: count as u8,
            },
        }
    }

    /// How the search goes on after the read has found `found`.
    pub open spec fn next(self, found: Option<Set<u32>>) -> StepView {
        let query = self.query;
        match self.stage {
            StageView::SwitchedOn => if query.fields.active is Some && found is None {
                StepView::Done(Set::empty())
            } else if has_rfc3339(query.before_search) {
                to_start(query, or_none(found), rfc3339(query.before_search))
            } else {
                StepView::TimeUnwritable
            },
            StageView::NotStarted { field, active, now } => to_end(
                query,
                active.difference(or_none(found)),
                now,
            ),
            StageView::Ended { field, active, now } => to_emptiness(
                query,
                active.difference(or_none(found)),
            ),
            StageView::Emptiness { field, active } => to_words(
                query,
                active.difference(or_none(found)),
            ),
            StageView::Word { field, active, asking, words, term } => to_word(
                query,
                field,
                active,
                asking,
                with_word(words, active, found),
                term + 1,
            ),
            StageView::WordCount { field, active, asking, words, satisfied, count } => to_word_count(
                query,
                field,
                active,
                asking,
                words,
                with_count(satisfied, words, count, found),
                count + 1,
            ),
        }
    }
}

impl ScanView {
    /// How the search goes on after the scan has found `found`: rules that ask for more words
    /// than the query has are ruled out.
    pub open spec fn next(self, found: Seq<(u8, Set<u32>)>) -> StepView {
        to_word(
            self.query,
            self.field,
            self.active.difference(counted_in(found, self.query.words_count() + 1)),
            counted_in(found, 1),
            Seq::empty(),
            0,
        )
    }
}

impl WordScanView {
    /// How the search goes on when the rules in `missing` ask for a word that the query does not
    /// have: a doubtful rule outside it gets every word that it asks for.
    pub open spec fn without(self, missing: Set<u32>) -> StepView {
        StepView::Done(
            self.active.difference(self.unsatisfied.difference(self.doubtful.difference(missing))),
        )
    }

    /// How the search goes on after the scan has found `found`.
    pub open spec fn next(self, found: Seq<(Seq<char>, Set<u32>)>) -> StepView {
        self.without(beside(found, self.query.counted_words()))
    }
}

/// The rules that stand under a word other than `words`.
pub open spec fn beside(found: Seq<(Seq<char>, Set<u32>)>, words: Set<Seq<char>>) -> Set<u32> {
    Set::new(
        |id: u32| exists|i: int|
            0 <= i < found.len() && !words.contains((#[trigger] found[i]).0)
                && found[i].1.contains(id),
    )
}

/// What a scan of the words found.
pub open spec fn worded_ids(found: Seq<(String, RoaringBitmap)>) -> Seq<(Seq<char>, Set<u32>)> {
    found.map_values(|entry: (String, RoaringBitmap)| (entry.0@, ids(entry.1)))
}

/// The rules that stand under a count of at least `from`.
pub open spec fn counted_in(found: Seq<(u8, Set<u32>)>, from: nat) -> Set<u32> {
    Set::new(
        |id: u32| exists|i: int|
            0 <= i < found.len() && (#[trigger] found[i]).0 >= from && found[i].1.contains(id),
    )
}

/// What a scan found.
pub open spec fn counted_ids(found: Seq<(u8, RoaringBitmap)>) -> Seq<(u8, Set<u32>)> {
    found.map_values(|entry: (u8, RoaringBitmap)| (entry.0, ids(entry.1)))
}

/// The rules that a read found; none where it found nothing.
fn unwrap_or_none(found: Option<RoaringBitmap>) -> (bitmap: RoaringBitmap)
    ensures
        ids(bitmap) == or_none(found_ids(found)),
{
    match found {
        Some(bitmap) => bitmap,
        None => RoaringBitmap::new(),
    }
}

impl ActiveQuery {
    fn words_count(&self) -> (count: u8)
        ensures
            count == self@.words_count(),
    {
        if self.terms.len() < self.max_counted_words as usize {
            self.terms.len() as u8
        } else {
            self.max_counted_words
        }
    }

    fn to_start(self, active: RoaringBitmap, now: String) -> (step: ActiveStep)
        ensures
            step@ == to_start(self@, ids(active), now@),
    {
        match self.fields.time_start {
            Some(field) => ActiveStep::Read(
                ActiveSearch { query: self, stage: Stage::NotStarted { field, active, now } },
            ),
            None => self.to_end(active, now),
        }
    }

    fn to_end(self, active: RoaringBitmap, now: String) -> (step: ActiveStep)
        ensures
            step@ == to_end(self@, ids(active), now@),
    {
        match self.fields.time_end {
            Some(field) => ActiveStep::Read(
                ActiveSearch { query: self, stage: Stage::Ended { field, active, now } },
            ),
            None => self.to_emptiness(active),
        }
    }

    fn to_emptiness(self, active: RoaringBitmap) -> (step: ActiveStep)
        ensures
            step@ == to_emptiness(self@, ids(active)),
    {
        match self.fields.query_is_empty {
            Some(field) => ActiveStep::Read(
                ActiveSearch { query: self, stage: Stage::Emptiness { field, active } },
            ),
            None => self.to_words(active),
        }
    }

    fn to_words(self, active: RoaringBitmap) -> (step: ActiveStep)
        ensures
            step@ == to_words(self@, ids(active)),
    {
        match self.fields.query_words {
            Some(field) => ActiveStep::Scan(WordCountScan { query: self, field, active }),
            None => ActiveStep::Done(active),
        }
    }

    /// Tells whether the term stands for a single word that no term before it stands for.
    fn has_new_word(&self, term: usize) -> (new: bool)
        requires
            term < self.terms.len(),
        ensures
            new == self@.has_new_word(term as nat),
    {
        match &self.terms[term].original_single_word {
            Some(word) => {
                let mut i: usize = 0;
                while i < term
                    invariant
                        i <= term < self.terms.len(),
                        self@.words[term as int] == Some(word@),
                        forall|j: int|
                            0 <= j < i ==> #[trigger] self@.words[j] != self@.words[term as int],
                    decreases term - i,
                {
                    match &self.terms[i].original_single_word {
                        Some(earlier) => {
                            if same_text(earlier.as_str(), word.as_str()) {
                                assert(self@.words[i as int] == self@.words[term as int]);
                                return false;
                            }
                        },
                        None => {},
                    }
                    i = i + 1;
                }
                true
            },
            None => false,
        }
    }

    fn to_word(
        self,
        field: FieldId,
        active: RoaringBitmap,
        asking: RoaringBitmap,
        words: Vec<RoaringBitmap>,
        term: usize,
    ) -> (step: ActiveStep)
        requires
            words.len() <= term <= self@.words_count(),
        ensures
            step@ == to_word(
                self@,
                field,
                ids(active),
                ids(asking),
                all_ids(words@),
                term as nat,
            ),
    {
        let count: usize = self.words_count() as usize;
        let mut at: usize = term;
        while at < count
            invariant
                words.len() <= at <= count,
                count == self@.words_count(),
                to_word(
                    self@,
                    field,
                    ids(active),
                    ids(asking),
                    all_ids(words@),
                    term as nat,
                ) == to_word(self@, field, ids(active), ids(asking), all_ids(words@), at as nat),
            decreases count - at,
        {
            if self.has_new_word(at) {
                return ActiveStep::Read(
                    ActiveSearch {
                        query: self,
                        stage: Stage::Word { field, active, asking, words, term: at },
                    },
                );
            }
            at = at + 1;
        }
        self.to_word_count(field, active, asking, words, RoaringBitmap::new(), 0)
    }

    fn to_word_count(
        self,
        field: FieldId,
        active: RoaringBitmap,
        asking: RoaringBitmap,
        words: Vec<RoaringBitmap>,
        satisfied: RoaringBitmap,
        count: usize,
    ) -> (step: ActiveStep)
        requires
            words.len() <= u8::MAX,
        ensures
            step@ == to_word_count(
                self@,
                field,
                ids(active),
                ids(asking),
                all_ids(words@),
                ids(satisfied),
                count as nat,
            ),
    {
        if count <= words.len() {
            ActiveStep::Read(
                ActiveSearch {
                    query: self,
                    stage: Stage::WordCount { field, active, asking, words, satisfied, count },
                },
            )
        } else {
            let mut unsatisfied = asking;
            subtract(&mut unsatisfied, &satisfied);
            self.to_repeats(field, active, words, unsatisfied)
        }
    }

    fn to_repeats(
        self,
        field: FieldId,
        active: RoaringBitmap,
        words: Vec<RoaringBitmap>,
        unsatisfied: RoaringBitmap,
    ) -> (step: ActiveStep)
        ensures
            step@ == to_repeats(
                self@,
                field,
                ids(active),
                all_ids(words@),
                ids(unsatisfied),
            ),
    {
        let doubtful = shared(&unsatisfied, &unite_all(&words));
        if doubtful.is_empty() {
            let mut active = active;
            subtract(&mut active, &unsatisfied);
            ActiveStep::Done(active)
        } else {
            ActiveStep::Words(WordScan { query: self, field, active, unsatisfied, doubtful })
        }
    }

    /// Tells whether the word is one of those that count.
    fn counts_word(&self, word: &str) -> (counts: bool)
        ensures
            counts == self@.counted_words().contains(word@),
    {
        let count: usize = self.words_count() as usize;
        let mut i: usize = 0;
        while i < count
            invariant
                i <= count,
                count == self@.words_count(),
                forall|j: int| 0 <= j < i ==> #[trigger] self@.words[j] != Some(word@),
            decreases count - i,
        {
            match &self.terms[i].original_single_word {
                Some(own) => {
                    if same_text(own.as_str(), word) {
                        assert(self@.words[i as int] == Some(word@));
                        return true;
                    }
                },
                None => {},
            }
            i = i + 1;
        }
        false
    }
}

impl ActiveSearch {
    #[verifier::type_invariant]
    spec fn well_formed(&self) -> bool {
        match self.stage {
            Stage::Word { field, active, asking, words, term } => {
                &&& words.len() <= term < self.query@.words_count()
                &&& self.query.terms[term as int].original_single_word is Some
            },
            Stage::WordCount { field, active, asking, words, satisfied, count } => {
                count <= words.len() <= u8::MAX
            },
            _ => true,
        }
    }

    /// Starts the search for the active rules.
    pub fn start(query: ActiveQuery) -> (search: ActiveSearch)
        ensures
            search@ == (SearchView { query: query@, stage: StageView::SwitchedOn }),
    {
        ActiveSearch { query, stage: Stage::SwitchedOn }
    }

    /// The read that the search waits for.
    pub fn request(&self) -> (read: IndexRead<'_>)
        ensures
            read@ == self@.request(),
    {
        proof {
            use_type_invariant(self);
        }
        match &self.stage {
            Stage::SwitchedOn => match self.query.fields.active {
                Some(field) => IndexRead::Facet { field, value: "true" },
                None => IndexRead::Documents,
            },
            Stage::NotStarted { field, active, now } => IndexRead::FacetAfter {
                field: *field,
                bound: now.as_str(),
                within: active,
            },
            Stage::Ended { field, active, now } => IndexRead::FacetBefore {
                field: *field,
                bound: now.as_str(),
                within: active,
            },
            Stage::Emptiness { field, active } => IndexRead::Facet {
                field: *field,
                value: if self.query.terms.len() == 0 {
                    "false"
                } else {
                    "true"
                },
            },
            Stage::Word { field, active, asking, words, term } => {
                match &self.query.terms[*term].original_single_word {
                    Some(word) => IndexRead::Word { field: *field, word: word.as_str() },
                    None => {
                        assert(false);
                        IndexRead::Documents
                    },
                }
            },
            Stage::WordCount { field, active, asking, words, satisfied, count } => IndexRead::WordCount {
                field: *field,
                count: *count as u8,
            },
        }
    }

    /// Goes on with what the read has found: the rules, or `None` where the index has nothing.
    pub fn resume(self, found: Option<RoaringBitmap>) -> (step: ActiveStep)
        ensures
            step@ == self@.next(found_ids(found)),
    {
        proof {
            use_type_invariant(&self);
        }
        let ActiveSearch { query, stage } = self;
        match stage {
            Stage::SwitchedOn => {
                if query.fields.active.is_some() && found.is_none() {
                    return ActiveStep::Done(RoaringBitmap::new());
                }
                let active = unwrap_or_none(found);
                match query.before_search.to_rfc3339() {
                    Some(now) => query.to_start(active, now),
                    None => ActiveStep::TimeUnwritable,
                }
            },
            Stage::NotStarted { field, active, now } => {
                let mut active = active;
                subtract(&mut active, &unwrap_or_none(found));
                query.to_end(active, now)
            },
            Stage::Ended { field, active, now } => {
                let mut active = active;
                subtract(&mut active, &unwrap_or_none(found));
                query.to_emptiness(active)
            },
            Stage::Emptiness { field, active } => {
                let mut active = active;
                subtract(&mut active, &unwrap_or_none(found));
                query.to_words(active)
            },
            Stage::Word { field, active, asking, words, term } => {
                let mut words = words;
                let ghost before = words@;
                match found {
                    Some(rules) => {
                        let mut rules = rules;
                        restrict(&mut rules, &active);
                        if !rules.is_empty() {
                            words.push(rules);
                            assert(all_ids(words@) =~= all_ids(before).push(ids(rules)));
                        }
                    },
                    None => {},
                }
                query.to_word(field, active, asking, words, term + 1)
            },
            Stage::WordCount { field, active, asking, words, satisfied, count } => {
                let mut satisfied = satisfied;
                match found {
                    Some(rules) => {
                        let more = satisfied_rules(&rules, &words, count as u8);
                        unite(&mut satisfied, &more);
                    },
                    None => {},
                }
                query.to_word_count(field, active, asking, words, satisfied, count + 1)
            },
        }
    }
}

impl WordCountScan {
    /// The field whose words are counted.
    pub fn field(&self) -> (field: FieldId)
        ensures
            field == self@.field,
    {
        self.field
    }

    /// Goes on with the rules that the index has under the field for each count from 1 to 255,
    /// with the count.
    pub fn resume(self, found: Vec<(u8, RoaringBitmap)>) -> (step: ActiveStep)
        ensures
            step@ == self@.next(counted_ids(found@)),
    {
        let WordCountScan { query, field, active } = self;
        let too_many = counted_from(&found, query.words_count() as usize + 1);
        let asking = counted_from(&found, 1);
        let mut active = active;
        subtract(&mut active, &too_many);
        let words: Vec<RoaringBitmap> = Vec::new();
        assert(all_ids(words@) =~= Seq::<Set<u32>>::empty());
        query.to_word(field, active, asking, words, 0)
    }
}

impl WordScan {
    /// The field whose words are waited for.
    pub fn field(&self) -> (field: FieldId)
        ensures
            field == self@.field,
    {
        self.field
    }

    /// Goes on with every word that the index has under the field, with its rules.
    pub fn resume(self, found: Vec<(String, RoaringBitmap)>) -> (step: ActiveStep)
        ensures
            step@ == self@.next(worded_ids(found@)),
    {
        let ghost sets = worded_ids(found@);
        let ghost counted = self.query@.counted_words();
        let mut missing = RoaringBitmap::new();
        let mut i: usize = 0;
        while i < found.len()
            invariant
                i <= found.len(),
                sets == worded_ids(found@),
                counted == self.query@.counted_words(),
                forall|id: u32| #[trigger]
                    ids(missing).contains(id) <==> exists|j: int|
                        0 <= j < i && !counted.contains((#[trigger] sets[j]).0)
                            && sets[j].1.contains(id),
            decreases found.len() - i,
        {
            assert(sets[i as int] == (found[i as int].0@, ids(found[i as int].1)));
            if !self.query.counts_word(found[i].0.as_str()) {
                unite(&mut missing, &found[i].1);
            }
            i = i + 1;
        }
        assert(ids(missing) =~= beside(sets, counted));
        let WordScan { query: _, field: _, active, unsatisfied, doubtful } = self;
        let mut active = active;
        let mut unsatisfied = unsatisfied;
        let mut doubtful = doubtful;
        subtract(&mut doubtful, &missing);
        subtract(&mut unsatisfied, &doubtful);
        subtract(&mut active, &unsatisfied);
        ActiveStep::Done(active)
    }
}

/// The rules that stand under a count of at least `from`.
fn counted_from(found: &Vec<(u8, RoaringBitmap)>, from: usize) -> (rules: RoaringBitmap)
    ensures
        ids(rules) == counted_in(counted_ids(found@), from as nat),
{
    let ghost sets = counted_ids(found@);
    let mut rules = RoaringBitmap::new();
    let mut i: usize = 0;
    while i < found.len()
        invariant
            i <= found.len(),
            sets == counted_ids(found@),
            forall|id: u32| #[trigger]
                ids(rules).contains(id) <==> exists|j: int|
                    0 <= j < i && (#[trigger] sets[j]).0 >= from && sets[j].1.contains(id),
        decreases found.len() - i,
    {
        assert(sets[i as int] == (found[i as int].0, ids(found[i as int].1)));
        if found[i].0 as usize >= from {
            unite(&mut rules, &found[i].1);
        }
        i = i + 1;
    }
    assert(ids(rules) =~= counted_in(sets, from as nat));
    rules
}

} // verus!

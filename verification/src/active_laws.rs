use crate::active::{
    beside, counted_in, or_none, to_emptiness, to_end, to_start, to_word, to_word_count, to_words,
    with_count, with_word, QueryView, ReadView, ScanView, SearchView, StageView, StepView,
    WordScanView,
};
use crate::fields::FieldId;
use crate::satisfied::{holders, lemma_one_holder, satisfied_by, union_of};
use crate::search_time::{has_rfc3339, rfc3339};
use vstd::prelude::*;
use vstd::seq_lib::*;
use vstd::set_lib::*;

verus! {

/// An index of rules: what each read of it finds.
pub struct RuleIndex {
    /// All rules.
    pub documents: Set<u32>,
    /// The rules whose field has exactly a value.
    pub facet: spec_fn(FieldId, Seq<char>) -> Option<Set<u32>>,
    /// The rules whose field has a value after a bound.
    pub facet_after: spec_fn(FieldId, Seq<char>) -> Set<u32>,
    /// The rules whose field has a value before a bound.
    pub facet_before: spec_fn(FieldId, Seq<char>) -> Set<u32>,
    /// The rules whose field has a word.
    pub word: spec_fn(FieldId, Seq<char>) -> Option<Set<u32>>,
    /// The rules whose field has so many words.
    pub word_count: spec_fn(FieldId, u8) -> Option<Set<u32>>,
}

impl RuleIndex {
    /// What a read finds.
    pub open spec fn answer(self, read: ReadView) -> Option<Set<u32>> {
        match read {
            ReadView::Documents => Some(self.documents),
            ReadView::Facet { field, value } => (self.facet)(field, value),
            ReadView::FacetAfter { field, bound, within } => Some(
                (self.facet_after)(field, bound).intersect(within),
            ),
            ReadView::FacetBefore { field, bound, within } => Some(
                (self.facet_before)(field, bound).intersect(within),
            ),
            ReadView::Word { field, word } => (self.word)(field, word),
            ReadView::WordCount { field, count } => (self.word_count)(field, count),
        }
    }

    /// The rules that have at least `from` words in a field.
    pub open spec fn counted_from(self, field: FieldId, from: nat) -> Set<u32> {
        Set::new(
            |id: u32| exists|count: u8|
                count >= from && or_none(#[trigger] (self.word_count)(field, count)).contains(id),
        )
    }

    /// The rules that have a word in a field other than `words`.
    pub open spec fn worded_beside(self, field: FieldId, words: Set<Seq<char>>) -> Set<u32> {
        Set::new(
            |id: u32| exists|word: Seq<char>|
                !words.contains(word) && #[trigger] or_none((self.word)(field, word)).contains(id),
        )
    }

    /// `found` has every word of a field, with its rules.
    pub open spec fn lists_words(self, field: FieldId, found: Seq<(Seq<char>, Set<u32>)>) -> bool {
        forall|word: Seq<char>, id: u32| #[trigger]
            or_none((self.word)(field, word)).contains(id) <==> exists|i: int|
                0 <= i < found.len() && (#[trigger] found[i]).0 == word && found[i].1.contains(id)
    }

    /// What a scan of the word counts finds.
    pub open spec fn scanned(self, field: FieldId) -> Seq<(u8, Set<u32>)> {
        Seq::new(
            255,
            |i: int| ((i + 1) as u8, or_none((self.word_count)(field, (i + 1) as u8))),
        )
    }
}

/// What a search for the active rules comes to.
pub enum Outcome {
    Active(Set<u32>),
    TimeUnwritable,
}

/// What a search comes to when `index` answers each of its reads.
pub open spec fn run(index: RuleIndex, step: StepView) -> Outcome
    decreases rank(step), remaining(step),
{
    match step {
        StepView::Read(search) => {
            let next = search.next(index.answer(search.request()));
            proof {
                law_every_read_makes_progress(search, index.answer(search.request()));
            }
            run(index, next)
        },
        StepView::Scan(scan) => {
            let next = scan.next(index.scanned(scan.field));
            proof {
                lemma_scan_rank(scan, index.scanned(scan.field));
            }
            run(index, next)
        },
        StepView::Words(scan) => run(
            index,
            scan.without(index.worded_beside(scan.field, scan.query.counted_words())),
        ),
        StepView::Done(active) => Outcome::Active(active),
        StepView::TimeUnwritable => Outcome::TimeUnwritable,
    }
}

/// How many kinds of reads are ahead of a search.
pub open spec fn rank(step: StepView) -> nat {
    match step {
        StepView::Read(search) => match search.stage {
            StageView::SwitchedOn => 8,
            StageView::NotStarted { .. } => 7,
            StageView::Ended { .. } => 6,
            StageView::Emptiness { .. } => 5,
            StageView::Word { .. } => 3,
            StageView::WordCount { .. } => 2,
        },
        StepView::Scan(_) => 4,
        StepView::Words(_) => 1,
        StepView::Done(_) => 0,
        StepView::TimeUnwritable => 0,
    }
}

/// How many reads of its kind are ahead of a search.
pub open spec fn remaining(step: StepView) -> nat {
    match step {
        StepView::Read(search) => match search.stage {
            StageView::Word { field, active, asking, words, term } => if term < search.query.words_count() {
                (search.query.words_count() - term) as nat
            } else {
                0
            },
            StageView::WordCount { field, active, asking, words, satisfied, count } => if count
                <= words.len() {
                (words.len() - count + 1) as nat
            } else {
                0
            },
            _ => 0,
        },
        _ => 0,
    }
}

/// Going on to a word leaves only words and word counts ahead.
pub proof fn lemma_word_rank(
    query: QueryView,
    field: FieldId,
    active: Set<u32>,
    asking: Set<u32>,
    words: Seq<Set<u32>>,
    term: nat,
)
    ensures
        ({
            let step = to_word(query, field, active, asking, words, term);
            rank(step) <= 3 && (rank(step) == 3 ==> term < query.words_count() && remaining(step)
                <= query.words_count() - term)
        }),
    decreases query.words_count() - term,
{
    if term < query.words_count() && !query.has_new_word(term) {
        lemma_word_rank(query, field, active, asking, words, term + 1);
    }
}

/// A scan leaves only words and word counts ahead, whatever it finds.
pub proof fn lemma_scan_rank(scan: ScanView, found: Seq<(u8, Set<u32>)>)
    ensures
        rank(scan.next(found)) < rank(StepView::Scan(scan)),
{
    lemma_word_rank(
        scan.query,
        scan.field,
        scan.active.difference(counted_in(found, scan.query.words_count() + 1)),
        counted_in(found, 1),
        Seq::empty(),
        0,
    );
}

/// Every read brings a search closer to its end, whatever it finds.
pub proof fn law_every_read_makes_progress(search: SearchView, found: Option<Set<u32>>)
    ensures
        ({
            let step = StepView::Read(search);
            let next = search.next(found);
            rank(next) < rank(step) || rank(next) == rank(step) && remaining(next) < remaining(
                step,
            )
        }),
{
    match search.stage {
        StageView::Word { field, active, asking, words, term } => {
            lemma_word_rank(
                search.query,
                field,
                active,
                asking,
                with_word(words, active, found),
                term + 1,
            );
        },
        _ => {},
    }
    lemma_later_ranks(search, found);
}

proof fn lemma_later_ranks(search: SearchView, found: Option<Set<u32>>)
    ensures
        search.stage is SwitchedOn ==> rank(search.next(found)) < 8,
        search.stage is NotStarted ==> rank(search.next(found)) < 7,
        search.stage is Ended ==> rank(search.next(found)) < 6,
        search.stage is Emptiness ==> rank(search.next(found)) < 5,
{
    assert forall|active: Set<u32>| rank(#[trigger] to_words(search.query, active)) < 5 by {}
    assert forall|active: Set<u32>| rank(#[trigger] to_emptiness(search.query, active)) < 6 by {}
    assert forall|active: Set<u32>, now: Seq<char>|
        rank(#[trigger] to_end(search.query, active, now)) < 7 by {}
    assert forall|active: Set<u32>, now: Seq<char>|
        rank(#[trigger] to_start(search.query, active, now)) < 8 by {}
}

/// The rules that are switched on: those whose `active` is true, or all where rules have no such
/// field. `None` where the field is known and the index has no rule under it.
pub open spec fn switched_on(index: RuleIndex, query: QueryView) -> Option<Set<u32>> {
    match query.fields.active {
        Some(field) => (index.facet)(field, "true"@),
        None => Some(index.documents),
    }
}

/// The rules that start after the text `now`.
pub open spec fn not_started(index: RuleIndex, query: QueryView, now: Seq<char>) -> Set<u32> {
    match query.fields.time_start {
        Some(field) => (index.facet_after)(field, now),
        None => Set::empty(),
    }
}

/// The rules that end before the text `now`.
pub open spec fn ended(index: RuleIndex, query: QueryView, now: Seq<char>) -> Set<u32> {
    match query.fields.time_end {
        Some(field) => (index.facet_before)(field, now),
        None => Set::empty(),
    }
}

/// The rules that ask for an empty query where this one is not, or for one that is not empty
/// where this one is.
pub open spec fn other_emptiness(index: RuleIndex, query: QueryView) -> Set<u32> {
    match query.fields.query_is_empty {
        Some(field) => or_none(
            (index.facet)(
                field,
                if query.words.len() == 0 {
                    "false"@
                } else {
                    "true"@
                },
            ),
        ),
        None => Set::empty(),
    }
}

/// The rules that ask for more words than the query has.
pub open spec fn too_many_words(index: RuleIndex, query: QueryView) -> Set<u32> {
    match query.fields.query_words {
        Some(field) => index.counted_from(field, query.words_count() + 1),
        None => Set::empty(),
    }
}

/// The rules that neither their time, nor the emptiness of the query, nor the number of its
/// words rules out.
pub open spec fn candidates(index: RuleIndex, query: QueryView, now: Seq<char>) -> Set<u32> {
    or_none(switched_on(index, query)).difference(not_started(index, query, now)).difference(
        ended(index, query, now),
    ).difference(other_emptiness(index, query)).difference(too_many_words(index, query))
}

/// For each new word of the first `term` terms, its rules that are in `active`; words without any
/// are left out.
pub open spec fn words_rules(
    index: RuleIndex,
    query: QueryView,
    field: FieldId,
    active: Set<u32>,
    term: nat,
) -> Seq<Set<u32>>
    decreases term,
{
    if term == 0 {
        Seq::empty()
    } else {
        let before = words_rules(index, query, field, active, (term - 1) as nat);
        if query.has_new_word((term - 1) as nat) {
            with_word(before, active, (index.word)(field, query.words[term - 1]->0))
        } else {
            before
        }
    }
}

/// The rules whose conditions on the words are satisfied, out of those that ask for fewer than
/// `below` words.
pub open spec fn satisfied_below(
    index: RuleIndex,
    field: FieldId,
    words: Seq<Set<u32>>,
    below: nat,
) -> Set<u32> {
    Set::new(
        |id: u32| exists|count: u8|
            count < below && (#[trigger] (index.word_count)(field, count)) is Some && satisfied_by(
                or_none((index.word_count)(field, count)),
                words,
                count as nat,
            ).contains(id),
    )
}

/// The rules whose conditions on the words of the query are satisfied.
pub open spec fn satisfied(
    index: RuleIndex,
    query: QueryView,
    field: FieldId,
    active: Set<u32>,
) -> Set<u32> {
    let words = words_rules(index, query, field, active, query.words_count());
    satisfied_below(index, field, words, words.len() + 1)
}

/// The active rules: the candidates that ask for no word, or get the words that they ask for.
pub open spec fn active_rules(index: RuleIndex, query: QueryView) -> Outcome {
    if switched_on(index, query) is None {
        Outcome::Active(Set::empty())
    } else if !has_rfc3339(query.before_search) {
        Outcome::TimeUnwritable
    } else {
        let now = rfc3339(query.before_search);
        let left = candidates(index, query, now);
        match query.fields.query_words {
            Some(field) => Outcome::Active(with_their_words(index, query, field, left)),
            None => Outcome::Active(left),
        }
    }
}

/// A rule gets the words that it asks for: it asks for as many as words of the query have it, or
/// for some word of the query and for no other.
pub open spec fn gets_its_words(
    index: RuleIndex,
    query: QueryView,
    field: FieldId,
    active: Set<u32>,
    id: u32,
) -> bool {
    let words = words_rules(index, query, field, active, query.words_count());
    ||| satisfied(index, query, field, active).contains(id)
    ||| union_of(words).contains(id) && !index.worded_beside(
        field,
        query.counted_words(),
    ).contains(id)
}

/// The rules out of `left` that ask for no word, or get the words that they ask for.
pub open spec fn with_their_words(
    index: RuleIndex,
    query: QueryView,
    field: FieldId,
    left: Set<u32>,
) -> Set<u32> {
    left.filter(
        |id: u32|
            !index.counted_from(field, 1).contains(id) || gets_its_words(
                index,
                query,
                field,
                left,
                id,
            ),
    )
}

proof fn lemma_words_len(
    index: RuleIndex,
    query: QueryView,
    field: FieldId,
    active: Set<u32>,
    term: nat,
)
    ensures
        words_rules(index, query, field, active, term).len() <= term,
    decreases term,
{
    if term > 0 {
        lemma_words_len(index, query, field, active, (term - 1) as nat);
    }
}

proof fn lemma_run_counts(
    index: RuleIndex,
    query: QueryView,
    field: FieldId,
    active: Set<u32>,
    words: Seq<Set<u32>>,
    count: nat,
)
    requires
        words == words_rules(index, query, field, active, query.words_count()),
        words.len() <= 255,
        count <= words.len() + 1,
    ensures
        run(
            index,
            to_word_count(
                query,
                field,
                active,
                index.counted_from(field, 1),
                words,
                satisfied_below(index, field, words, count),
                count,
            ),
        ) == Outcome::Active(with_their_words(index, query, field, active)),
    decreases words.len() + 1 - count,
{
    if count <= words.len() {
        let c = count as u8;
        let found = (index.word_count)(field, c);
        let below = satisfied_below(index, field, words, count);
        let above = satisfied_below(index, field, words, count + 1);
        assert forall|id: u32| #[trigger] above.contains(id) <==> with_count(
            below,
            words,
            count,
            found,
        ).contains(id) by {
            if above.contains(id) {
                let k = choose|k: u8|
                    k < count + 1 && (#[trigger] (index.word_count)(field, k)) is Some
                        && satisfied_by(
                        or_none((index.word_count)(field, k)),
                        words,
                        k as nat,
                    ).contains(id);
                assert(k < count || k == c);
            }
        }
        assert(above =~= with_count(below, words, count, found));
        lemma_run_counts(index, query, field, active, words, count + 1);
    } else {
        reveal_with_fuel(run, 2);
        let met = satisfied_below(index, field, words, count);
        let unsatisfied = index.counted_from(field, 1).difference(met);
        let doubtful = unsatisfied.intersect(union_of(words));
        let missing = index.worded_beside(field, query.counted_words());
        let all = with_their_words(index, query, field, active);
        assert(met == satisfied(index, query, field, active));
        if doubtful == Set::<u32>::empty() {
            assert forall|id: u32| #[trigger] all.contains(id) <==> active.difference(
                unsatisfied,
            ).contains(id) by {
                assert(!doubtful.contains(id));
            }
            assert(all =~= active.difference(unsatisfied));
        } else {
            assert(all =~= active.difference(unsatisfied.difference(doubtful.difference(missing))));
        }
    }
}

proof fn lemma_run_words(
    index: RuleIndex,
    query: QueryView,
    field: FieldId,
    active: Set<u32>,
    term: nat,
)
    requires
        term <= query.words_count(),
    ensures
        run(
            index,
            to_word(
                query,
                field,
                active,
                index.counted_from(field, 1),
                words_rules(index, query, field, active, term),
                term,
            ),
        ) == Outcome::Active(with_their_words(index, query, field, active)),
    decreases query.words_count() - term,
{
    let words = words_rules(index, query, field, active, term);
    if term < query.words_count() {
        lemma_run_words(index, query, field, active, term + 1);
    } else {
        lemma_words_len(index, query, field, active, term);
        assert(satisfied_below(index, field, words, 0) =~= Set::<u32>::empty());
        lemma_run_counts(index, query, field, active, words, 0);
    }
}

/// A scan finds the rules with at least `from` words.
proof fn lemma_scanned(index: RuleIndex, field: FieldId, from: nat)
    requires
        from >= 1,
    ensures
        counted_in(index.scanned(field), from) == index.counted_from(field, from),
{
    let found = index.scanned(field);
    assert forall|id: u32| #[trigger] counted_in(found, from).contains(id)
        <==> index.counted_from(field, from).contains(id) by {
        if index.counted_from(field, from).contains(id) {
            let count = choose|count: u8|
                count >= from && or_none(#[trigger] (index.word_count)(field, count)).contains(id);
            assert(found[count - 1] == (count, or_none((index.word_count)(field, count))));
        }
    }
    assert(counted_in(found, from) =~= index.counted_from(field, from));
}

proof fn lemma_run_from_words(index: RuleIndex, query: QueryView, active: Set<u32>)
    ensures
        run(index, to_words(query, active)) == match query.fields.query_words {
            Some(field) => {
                let left = active.difference(too_many_words(index, query));
                Outcome::Active(with_their_words(index, query, field, left))
            },
            None => Outcome::Active(active),
        },
{
    match query.fields.query_words {
        Some(field) => {
            let left = active.difference(too_many_words(index, query));
            lemma_run_words(index, query, field, left, 0);
            lemma_scanned(index, field, 1);
            lemma_scanned(index, field, query.words_count() + 1);
        },
        None => {},
    }
}

/// A search for the active rules, whose every read the index answers, ends with exactly the
/// active rules of the index.
pub proof fn law_search_finds_active_rules(index: RuleIndex, query: QueryView)
    ensures
        run(
            index,
            StepView::Read(SearchView { query, stage: StageView::SwitchedOn }),
        ) == active_rules(index, query),
{
    let start = SearchView { query, stage: StageView::SwitchedOn };
    let on = or_none(switched_on(index, query));
    reveal_with_fuel(run, 2);
    if switched_on(index, query) is Some && has_rfc3339(query.before_search) {
        let now = rfc3339(query.before_search);
        let a = on.difference(not_started(index, query, now));
        let b = a.difference(ended(index, query, now));
        let c = b.difference(other_emptiness(index, query));
        assert(run(index, to_words(query, c)) == active_rules(index, query)) by {
            lemma_run_from_words(index, query, c);
            if query.fields.query_words is None {
                assert(c.difference(too_many_words(index, query)) =~= c);
            }
        }
        assert(run(index, to_emptiness(query, b)) == run(index, to_words(query, c))) by {
            if query.fields.query_is_empty is None {
                assert(b =~= c);
            }
        }
        assert(run(index, to_end(query, a, now)) == run(index, to_emptiness(query, b))) by {
            match query.fields.time_end {
                Some(field) => {
                    assert(a.difference((index.facet_before)(field, now).intersect(a)) =~= b);
                },
                None => {
                    assert(a =~= b);
                },
            }
        }
        assert(run(index, to_start(query, on, now)) == run(index, to_end(query, a, now))) by {
            match query.fields.time_start {
                Some(field) => {
                    assert(on.difference((index.facet_after)(field, now).intersect(on)) =~= a);
                },
                None => {
                    assert(a =~= on);
                },
            }
        }
    }
}

/// Where no rule is switched on, no rule is active, and nothing more is read.
pub proof fn law_nothing_switched_on(query: QueryView)
    requires
        query.fields.active is Some,
    ensures
        (SearchView { query, stage: StageView::SwitchedOn }).next(None) == StepView::Done(
            Set::empty(),
        ),
{
}

/// Where rules cannot ask for words, a rule is active exactly when it is switched on, has
/// started, has not ended, and does not ask for a query of the other emptiness.
pub proof fn law_active_without_words(index: RuleIndex, query: QueryView, id: u32)
    requires
        query.fields.query_words is None,
        switched_on(index, query) is Some,
        has_rfc3339(query.before_search),
    ensures
        active_rules(index, query) is Active,
        active_rules(index, query)->Active_0.contains(id) <==> {
            let now = rfc3339(query.before_search);
            &&& switched_on(index, query)->0.contains(id)
            &&& !not_started(index, query, now).contains(id)
            &&& !ended(index, query, now).contains(id)
            &&& !other_emptiness(index, query).contains(id)
        },
{
}

/// Where rules can ask for words, a rule is active exactly when it is a candidate that asks for
/// no word, or one that gets the words that it asks for. So every active rule is a candidate.
pub proof fn law_active_with_words(index: RuleIndex, query: QueryView, field: FieldId)
    requires
        query.fields.query_words == Some(field),
        switched_on(index, query) is Some,
        has_rfc3339(query.before_search),
    ensures
        ({
            let left = candidates(index, query, rfc3339(query.before_search));
            &&& active_rules(index, query) is Active
            &&& forall|id: u32| #[trigger]
                active_rules(index, query)->Active_0.contains(id) <==> left.contains(id) && (
                !index.counted_from(field, 1).contains(id) || gets_its_words(
                    index,
                    query,
                    field,
                    left,
                    id,
                ))
            &&& active_rules(index, query)->Active_0.subset_of(left)
        }),
{
}

/// A scan of the words goes on by the rules of the words that the query does not have, whatever
/// the order of the words.
pub proof fn law_word_scan_goes_by_the_index(
    index: RuleIndex,
    scan: WordScanView,
    found: Seq<(Seq<char>, Set<u32>)>,
)
    requires
        index.lists_words(scan.field, found),
    ensures
        scan.next(found) == scan.without(
            index.worded_beside(scan.field, scan.query.counted_words()),
        ),
{
    let counted = scan.query.counted_words();
    let missing = index.worded_beside(scan.field, counted);
    assert forall|id: u32| #[trigger] beside(found, counted).contains(id) <==> missing.contains(
        id,
    ) by {
        if beside(found, counted).contains(id) {
            let i = choose|i: int|
                0 <= i < found.len() && !counted.contains((#[trigger] found[i]).0)
                    && found[i].1.contains(id);
            assert(or_none((index.word)(scan.field, found[i].0)).contains(id));
        }
        if missing.contains(id) {
            let word = choose|word: Seq<char>|
                !counted.contains(word) && #[trigger] or_none(
                    (index.word)(scan.field, word),
                ).contains(id);
            let i = choose|i: int|
                0 <= i < found.len() && (#[trigger] found[i]).0 == word && found[i].1.contains(id);
            assert(!counted.contains(found[i].0));
        }
    }
    assert(beside(found, counted) =~= missing);
}

/// The rules of a word that are in `active`.
spec fn rules_of_word(
    index: RuleIndex,
    field: FieldId,
    active: Set<u32>,
    word: Seq<char>,
) -> Set<u32> {
    or_none((index.word)(field, word)).intersect(active)
}

/// The words out of `words` that have the rule.
spec fn words_with_rule(
    index: RuleIndex,
    field: FieldId,
    active: Set<u32>,
    words: Set<Seq<char>>,
    id: u32,
) -> Set<Seq<char>> {
    words.filter(|word: Seq<char>| rules_of_word(index, field, active, word).contains(id))
}

/// The words out of `words` that have any rule.
spec fn words_with_rules(
    index: RuleIndex,
    field: FieldId,
    active: Set<u32>,
    words: Set<Seq<char>>,
) -> Set<Seq<char>> {
    words.filter(
        |word: Seq<char>| rules_of_word(index, field, active, word) != Set::<u32>::empty(),
    )
}

/// The rules of the words depend on the words of the first `term` terms as a set: how many there
/// are, and how many of them have a rule.
proof fn lemma_words_as_set(
    index: RuleIndex,
    query: QueryView,
    field: FieldId,
    active: Set<u32>,
    term: nat,
    id: u32,
)
    ensures
        query.words_before(term).finite(),
        words_rules(index, query, field, active, term).len() == words_with_rules(
            index,
            field,
            active,
            query.words_before(term),
        ).len(),
        holders(words_rules(index, query, field, active, term), id) == words_with_rule(
            index,
            field,
            active,
            query.words_before(term),
            id,
        ).len(),
    decreases term,
{
    let words = query.words_before(term);
    if term == 0 {
        assert(words =~= Set::<Seq<char>>::empty());
        assert(words_with_rule(index, field, active, words, id) =~= words);
        assert(words_with_rules(index, field, active, words) =~= words);
    } else {
        let last = (term - 1) as nat;
        let before = query.words_before(last);
        let sets = words_rules(index, query, field, active, last);
        lemma_words_as_set(index, query, field, active, last, id);
        if query.has_new_word(last) {
            let word = query.words[last as int]->0;
            let rules = rules_of_word(index, field, active, word);
            assert(query.words[last as int] == Some(word));
            assert(!before.contains(word));
            assert(words =~= before.insert(word));
            let some = words_with_rules(index, field, active, before);
            let all = words_with_rules(index, field, active, words);
            let with = words_with_rule(index, field, active, before, id);
            before.lemma_len_filter(
                |word: Seq<char>| rules_of_word(index, field, active, word) != Set::<u32>::empty(),
            );
            before.lemma_len_filter(
                |word: Seq<char>| rules_of_word(index, field, active, word).contains(id),
            );
            if (index.word)(field, word) is None {
                assert(rules =~= Set::<u32>::empty());
            }
            if rules == Set::<u32>::empty() {
                assert(all =~= some);
            } else {
                assert(all =~= some.insert(word));
                assert(sets.push(rules).drop_last() =~= sets);
            }
            if rules.contains(id) {
                assert(words_with_rule(index, field, active, words, id) =~= with.insert(word));
            } else {
                assert(words_with_rule(index, field, active, words, id) =~= with);
            }
        } else {
            assert(words =~= before) by {
                if query.words[last as int] is Some {
                    let i = choose|i: int|
                        0 <= i < last && #[trigger] query.words[i] == query.words[last as int];
                    assert(query.words[i] == query.words[last as int]);
                }
            }
        }
    }
}

/// The index is that of rules which ask for the words `asked`, where a word may stand more than
/// once: under each word it has the rules that ask for it, and under each count the rules that
/// ask for so many, each word counted as often as it stands there. Rules that ask for no word need
/// not stand under any count.
pub open spec fn indexes_words(
    index: RuleIndex,
    field: FieldId,
    asked: spec_fn(u32) -> Seq<Seq<char>>,
) -> bool {
    &&& forall|id: u32| (#[trigger] asked(id)).len() <= 255
    &&& forall|word: Seq<char>, id: u32| #[trigger]
        or_none((index.word)(field, word)).contains(id) <==> asked(id).contains(word)
    &&& forall|count: u8, id: u32| #[trigger]
        or_none((index.word_count)(field, count)).contains(id) ==> asked(id).len() == count
    &&& forall|count: u8, id: u32|
        count >= 1 && asked(id).len() == count ==> #[trigger] or_none(
            (index.word_count)(field, count),
        ).contains(id)
}

/// A rule is active exactly when it is switched on, has started, has not ended, does not ask for
/// a query of the other emptiness, asks for no more words than the query has, and every word that
/// it asks for is among the words of the query that count.
pub proof fn law_active_rules_get_their_words(
    index: RuleIndex,
    query: QueryView,
    field: FieldId,
    asked: spec_fn(u32) -> Seq<Seq<char>>,
    id: u32,
)
    requires
        query.fields.query_words == Some(field),
        switched_on(index, query) is Some,
        has_rfc3339(query.before_search),
        indexes_words(index, field, asked),
    ensures
        active_rules(index, query) is Active,
        active_rules(index, query)->Active_0.contains(id) <==> {
            let now = rfc3339(query.before_search);
            &&& switched_on(index, query)->0.contains(id)
            &&& !not_started(index, query, now).contains(id)
            &&& !ended(index, query, now).contains(id)
            &&& !other_emptiness(index, query).contains(id)
            &&& asked(id).len() <= query.words_count()
            &&& asked(id).to_set().subset_of(query.counted_words())
        },
{
    let left = candidates(index, query, rfc3339(query.before_search));
    let counted = query.counted_words();
    let own = asked(id).to_set();
    let number = asked(id).len();
    let words = words_rules(index, query, field, left, query.words_count());
    let with = words_with_rule(index, field, left, counted, id);
    seq_to_set_is_finite(asked(id));
    asked(id).lemma_cardinality_of_set();
    lemma_words_as_set(index, query, field, left, query.words_count(), id);
    lemma_one_holder(words, id);
    assert(index.counted_from(field, 1).contains(id) <==> number >= 1) by {
        if number >= 1 {
            assert(or_none((index.word_count)(field, number as u8)).contains(id));
        }
    }
    assert(too_many_words(index, query).contains(id) <==> number > query.words_count()) by {
        if number > query.words_count() {
            assert(or_none((index.word_count)(field, number as u8)).contains(id));
        }
    }
    if number == 0 {
        assert(own =~= Set::<Seq<char>>::empty());
    } else if left.contains(id) {
        assert forall|word: Seq<char>| #[trigger] own.contains(word) <==> or_none(
            (index.word)(field, word),
        ).contains(id) by {}
        assert(with =~= counted.intersect(own)) by {
            assert forall|word: Seq<char>| #[trigger] rules_of_word(
                index,
                field,
                left,
                word,
            ).contains(id) <==> own.contains(word) by {}
        }
        counted.lemma_len_filter(
            |word: Seq<char>| rules_of_word(index, field, left, word).contains(id),
        );
        if own.subset_of(counted) {
            assert(own.contains(asked(id)[0]));
            assert(with.contains(asked(id)[0]));
            assert(with.len() >= 1) by {
                if with.len() == 0 {
                    assert(with =~= Set::<Seq<char>>::empty());
                }
            }
        }
        if satisfied(index, query, field, left).contains(id) {
            let count = choose|count: u8|
                count < words.len() + 1 && (#[trigger] (index.word_count)(field, count)) is Some
                    && satisfied_by(
                    or_none((index.word_count)(field, count)),
                    words,
                    count as nat,
                ).contains(id);
            assert(or_none((index.word_count)(field, count)).contains(id));
            assert(with.subset_of(own));
            lemma_len_subset(with, own);
            lemma_subset_equality(with, own);
            assert(own.subset_of(counted));
        }
        if union_of(words).contains(id) && !index.worded_beside(field, counted).contains(id) {
            assert forall|word: Seq<char>| #[trigger] own.contains(word) implies counted.contains(
                word,
            ) by {
                assert(or_none((index.word)(field, word)).contains(id));
            }
        }
    }
}

/// A rule that asks for each of its words once, and only for words of the query that count, asks
/// for no more words than the query has.
pub proof fn law_distinct_words_are_not_too_many(query: QueryView, asked: Seq<Seq<char>>)
    requires
        asked.no_duplicates(),
        asked.to_set().subset_of(query.counted_words()),
    ensures
        asked.len() <= query.words_count(),
{
    lemma_words_before(query, query.words_count());
    asked.unique_seq_to_set();
    lemma_len_subset(asked.to_set(), query.counted_words());
}

/// There are at most as many words as terms.
proof fn lemma_words_before(query: QueryView, term: nat)
    ensures
        query.words_before(term).finite(),
        query.words_before(term).len() <= term,
    decreases term,
{
    let words = query.words_before(term);
    if term == 0 {
        assert(words =~= Set::<Seq<char>>::empty());
    } else {
        let last = (term - 1) as nat;
        let before = query.words_before(last);
        lemma_words_before(query, last);
        match query.words[last as int] {
            Some(word) => {
                assert(query.words[last as int] == Some(word));
                assert(words =~= before.insert(word));
            },
            None => {
                assert(words =~= before);
            },
        }
    }
}

/// Which rules are active depends on the words that count as a set: neither their order nor how
/// often each of them stands in the query plays a part, beside the number of the terms.
pub proof fn law_counted_words_are_a_set(index: RuleIndex, a: QueryView, b: QueryView)
    requires
        a.fields == b.fields,
        a.before_search == b.before_search,
        a.max_counted_words == b.max_counted_words,
        a.words.len() == b.words.len(),
        a.counted_words() == b.counted_words(),
    ensures
        active_rules(index, a) == active_rules(index, b),
{
    if switched_on(index, a) is Some && has_rfc3339(a.before_search) {
        let left = candidates(index, a, rfc3339(a.before_search));
        match a.fields.query_words {
            Some(field) => {
                let of_a = words_rules(index, a, field, left, a.words_count());
                let of_b = words_rules(index, b, field, left, b.words_count());
                assert forall|id: u32| holders(of_a, id) == holders(of_b, id) && of_a.len()
                    == of_b.len() by {
                    lemma_words_as_set(index, a, field, left, a.words_count(), id);
                    lemma_words_as_set(index, b, field, left, b.words_count(), id);
                }
                assert(holders(of_a, 0) == holders(of_b, 0));
                assert forall|id: u32| union_of(of_a).contains(id) == #[trigger] union_of(
                    of_b,
                ).contains(id) by {
                    assert(holders(of_a, id) == holders(of_b, id));
                    lemma_one_holder(of_a, id);
                    lemma_one_holder(of_b, id);
                }
                assert(union_of(of_a) =~= union_of(of_b));
                assert(satisfied(index, a, field, left) =~= satisfied(index, b, field, left)) by {
                    assert forall|count: u8|
                        satisfied_by(
                            or_none(#[trigger] (index.word_count)(field, count)),
                            of_a,
                            count as nat,
                        ) == satisfied_by(
                            or_none((index.word_count)(field, count)),
                            of_b,
                            count as nat,
                        ) by {
                        assert(satisfied_by(
                            or_none((index.word_count)(field, count)),
                            of_a,
                            count as nat,
                        ) =~= satisfied_by(
                            or_none((index.word_count)(field, count)),
                            of_b,
                            count as nat,
                        ));
                    }
                }
                assert(with_their_words(index, a, field, left) =~= with_their_words(
                    index,
                    b,
                    field,
                    left,
                ));
            },
            None => {},
        }
    }
}

/// The order of the terms of a query plays no part where all of them count.
pub proof fn law_order_of_terms_plays_no_part(index: RuleIndex, a: QueryView, b: QueryView)
    requires
        a.fields == b.fields,
        a.before_search == b.before_search,
        a.max_counted_words == b.max_counted_words,
        a.words.len() <= a.max_counted_words,
        a.words.to_multiset() == b.words.to_multiset(),
    ensures
        active_rules(index, a) == active_rules(index, b),
{
    a.words.to_multiset_ensures();
    b.words.to_multiset_ensures();
    assert(a.words.len() == b.words.len());
    assert forall|word: Seq<char>| #[trigger] a.counted_words().contains(word)
        <==> b.counted_words().contains(word) by {
        assert(a.words.contains(Some(word)) <==> a.words.to_multiset().count(Some(word)) > 0);
        assert(b.words.contains(Some(word)) <==> b.words.to_multiset().count(Some(word)) > 0);
        if a.words.contains(Some(word)) {
            let i = choose|i: int| 0 <= i < a.words.len() && a.words[i] == Some(word);
            let j = choose|j: int| 0 <= j < b.words.len() && b.words[j] == Some(word);
            assert(a.words[i] == Some(word) && b.words[j] == Some(word));
        }
    }
    assert(a.counted_words() =~= b.counted_words());
    law_counted_words_are_a_set(index, a, b);
}

/// A scan goes on by the rules that stand under any count, and those under too high a count,
/// whatever their order and however they are shared out.
pub proof fn law_scan_counts_rules_not_sets(
    scan: ScanView,
    a: Seq<(u8, Set<u32>)>,
    b: Seq<(u8, Set<u32>)>,
)
    requires
        counted_in(a, 1) == counted_in(b, 1),
        counted_in(a, scan.query.words_count() + 1) == counted_in(
            b,
            scan.query.words_count() + 1,
        ),
    ensures
        scan.next(a) == scan.next(b),
{
}

} // verus!

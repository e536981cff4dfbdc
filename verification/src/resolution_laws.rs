use crate::active::{
    beside, counted_ids, counted_in, found_ids, or_none, worded_ids, ActiveQuery, ActiveStep, IndexRead,
    QueryTerm, QueryView, ReadView, ScanView, SearchView, StageView, StepView, WordScanView,
};
use crate::active_laws::{
    active_rules, indexes_words, law_active_rules_get_their_words,
    law_active_without_words, law_search_finds_active_rules, run, Outcome, RuleIndex,
};
use crate::bitmap::ids;
use crate::fields::{rule_fields, FieldId};
use crate::pins::{
    action_views, law_ascending_lists_all, ActionView, DynamicSearchRuleAction, PinDoc, PinStep,
    PinStepView, RuleAction, RuleId,
};
use crate::pins_laws::{
    granted, law_buckets_list_rules_by_precedence, listed, pin_of, pins_of_actions,
    pins_of_rules, rule_order, sorted_by, RuleBook,
};
use crate::search::{
    law_resolution_finds_granted_pins, query_of, run_resolution, words_of, ResolveStep, ResolveView,
    RulesView, Target,
};
use crate::satisfied::all_ids;
use crate::search_time::{has_rfc3339, rfc3339, Moment};
use roaring::RoaringBitmap;
use vstd::prelude::*;

verus! {

/// Where rules can ask for words, what the index has under words and counts is that of `asked`.
proof fn lemma_indexes_words(
    index: RuleIndex,
    field: FieldId,
    asked: spec_fn(u32) -> Seq<Seq<char>>,
)
    requires
        forall|id: u32| (#[trigger] asked(id)).len() <= 255,
        forall|word: Seq<char>, id: u32|
            #![trigger (index.word)(field, word)->0.contains(id)]
            #![trigger asked(id).contains(word)]
            asked(id).contains(word) <==> (index.word)(field, word) is Some && (index.word)(
                field,
                word,
            )->0.contains(id),
        forall|count: u8, id: u32|
            #![trigger (index.word_count)(field, count)->0.contains(id)]
            (index.word_count)(field, count) is Some && (index.word_count)(
                field,
                count,
            )->0.contains(id) ==> asked(id).len() == count,
        forall|count: u8, id: u32|
            #![trigger (index.word_count)(field, count), asked(id)]
            count >= 1 && asked(id).len() == count ==> (index.word_count)(field, count) is Some
                && (index.word_count)(field, count)->0.contains(id),
    ensures
        indexes_words(index, field, asked),
{
    assert forall|word: Seq<char>, id: u32| #[trigger]
        or_none((index.word)(field, word)).contains(id) <==> asked(id).contains(word) by {
        assert(asked(id).contains(word) <==> (index.word)(field, word) is Some && (index.word)(
            field,
            word,
        )->0.contains(id));
    }
    assert forall|count: u8, id: u32| #[trigger]
        or_none((index.word_count)(field, count)).contains(id) implies asked(id).len() == count by {
        assert((index.word_count)(field, count)->0.contains(id));
    }
    assert forall|count: u8, id: u32|
        count >= 1 && asked(id).len() == count implies #[trigger] or_none(
        (index.word_count)(field, count),
    ).contains(id) by {
        assert((index.word_count)(field, count) is Some);
    }
}

/// The word is that of a term that counts.
spec fn counts(query: QueryView, word: Seq<char>) -> bool {
    exists|i: int|
        0 <= i < query.words.len() && i < query.max_counted_words && #[trigger] query.words[i]
            == Some(word)
}

/// Every word of the list is that of a term that counts.
spec fn all_counted(query: QueryView, list: Seq<Seq<char>>) -> bool {
    forall|word: Seq<char>| #[trigger] list.contains(word) ==> counts(query, word)
}

/// A rule that is active for a query, and what the fields and words of the query say of it.
proof fn lemma_active(
    index: RuleIndex,
    query: QueryView,
    asked: spec_fn(u32) -> Seq<Seq<char>>,
    id: u32,
)
    requires
        has_rfc3339(query.before_search),
        query.fields.query_words is Some ==> indexes_words(
            index,
            query.fields.query_words->0,
            asked,
        ),
    ensures
        active_rules(index, query) is Active,
        active_rules(index, query)->Active_0.contains(id) <==> {
            let now = rfc3339(query.before_search);
            &&& match query.fields.active {
                Some(field) => (index.facet)(field, "true"@) is Some && (index.facet)(
                    field,
                    "true"@,
                )->0.contains(id),
                None => index.documents.contains(id),
            }
            &&& query.fields.time_start is Some ==> !(index.facet_after)(
                query.fields.time_start->0,
                now,
            ).contains(id)
            &&& query.fields.time_end is Some ==> !(index.facet_before)(
                query.fields.time_end->0,
                now,
            ).contains(id)
            &&& query.fields.query_is_empty is Some ==> {
                let other = (index.facet)(
                    query.fields.query_is_empty->0,
                    if query.words.len() == 0 {
                        "false"@
                    } else {
                        "true"@
                    },
                );
                !(other is Some && other->0.contains(id))
            }
            &&& query.fields.query_words is Some ==> {
                &&& asked(id).len() <= query.words.len()
                &&& asked(id).len() <= query.max_counted_words
                &&& all_counted(query, asked(id))
            }
        },
{
    if crate::active_laws::switched_on(index, query) is Some {
        match query.fields.query_words {
            Some(field) => {
                law_active_rules_get_their_words(index, query, field, asked, id);
                let list = asked(id);
                let own = list.to_set();
                let counted = query.counted_words();
                if own.subset_of(counted) {
                    assert forall|word: Seq<char>| #[trigger] list.contains(word) implies counts(
                        query,
                        word,
                    ) by {
                        assert(own.contains(word));
                        assert(counted.contains(word));
                    }
                }
                if all_counted(query, list) {
                    assert forall|word: Seq<char>| #[trigger] own.contains(
                        word,
                    ) implies counted.contains(word) by {
                        assert(list.contains(word));
                        assert(counts(query, word));
                    }
                }
            },
            None => {
                law_active_without_words(index, query, id);
            },
        }
    }
}

/// The search for the active rules, whose every read the index answers, finds a rule exactly when
/// it is switched on, has not still to start and has not ended, does not ask for a query of the
/// other emptiness, asks for no more words than the query has terms that count, and each word that
/// it asks for is the text of one of these terms. `asked` has the words that each rule asks for.
pub proof fn law_rule_is_active_when_its_conditions_hold(
    index: RuleIndex,
    query: ActiveQuery,
    asked: spec_fn(u32) -> Seq<Seq<char>>,
    id: u32,
)
    requires
        has_rfc3339(query.before_search@),
        query.fields.query_words is Some ==> {
            let field = query.fields.query_words->0;
            &&& forall|id: u32| (#[trigger] asked(id)).len() <= 255
            &&& forall|word: Seq<char>, id: u32|
                #![trigger (index.word)(field, word)->0.contains(id)]
                #![trigger asked(id).contains(word)]
                asked(id).contains(word) <==> (index.word)(field, word) is Some && (index.word)(
                    field,
                    word,
                )->0.contains(id)
            &&& forall|count: u8, id: u32|
                #![trigger (index.word_count)(field, count)->0.contains(id)]
                (index.word_count)(field, count) is Some && (index.word_count)(
                    field,
                    count,
                )->0.contains(id) ==> asked(id).len() == count
            &&& forall|count: u8, id: u32|
                #![trigger (index.word_count)(field, count), asked(id)]
                count >= 1 && asked(id).len() == count ==> (index.word_count)(field, count) is Some
                    && (index.word_count)(field, count)->0.contains(id)
        },
    ensures
        ({
            let outcome = run(
                index,
                StepView::Read(SearchView { query: query@, stage: StageView::SwitchedOn }),
            );
            let now = rfc3339(query.before_search@);
            let own = asked(id);
            &&& outcome is Active
            &&& outcome->Active_0.contains(id) <==> {
                &&& match query.fields.active {
                    Some(field) => (index.facet)(field, "true"@) is Some && (index.facet)(
                        field,
                        "true"@,
                    )->0.contains(id),
                    None => index.documents.contains(id),
                }
                &&& query.fields.time_start is Some ==> !(index.facet_after)(
                    query.fields.time_start->0,
                    now,
                ).contains(id)
                &&& query.fields.time_end is Some ==> !(index.facet_before)(
                    query.fields.time_end->0,
                    now,
                ).contains(id)
                &&& query.fields.query_is_empty is Some ==> {
                    let other = (index.facet)(
                        query.fields.query_is_empty->0,
                        if query.terms@.len() == 0 {
                            "false"@
                        } else {
                            "true"@
                        },
                    );
                    !(other is Some && other->0.contains(id))
                }
                &&& query.fields.query_words is Some ==> {
                    &&& own.len() <= query.terms@.len()
                    &&& own.len() <= query.max_counted_words
                    &&& forall|word: Seq<char>| #[trigger]
                        own.contains(word) ==> exists|i: int|
                            0 <= i < query.terms@.len() && i < query.max_counted_words && (
                            #[trigger] query.terms@[i]).original_single_word is Some
                                && query.terms@[i].original_single_word->0@ == word
                }
            }
        }),
{
    let view = query@;
    if query.fields.query_words is Some {
        lemma_indexes_words(index, query.fields.query_words->0, asked);
    }
    law_search_finds_active_rules(index, view);
    lemma_active(index, view, asked, id);
    lemma_texts_of_terms(view, query.terms@, asked(id));
}

/// Every word of the list is that of a term that counts exactly when each is the text of one.
proof fn lemma_texts_of_terms(query: QueryView, terms: Seq<QueryTerm>, own: Seq<Seq<char>>)
    requires
        query.words.len() == terms.len(),
        forall|i: int|
            0 <= i < terms.len() ==> #[trigger] query.words[i] == match terms[i].original_single_word {
                Some(text) => Some(text@),
                None => None,
            },
    ensures
        all_counted(query, own) <==> forall|word: Seq<char>| #[trigger]
            own.contains(word) ==> exists|i: int|
                0 <= i < terms.len() && i < query.max_counted_words && (
                #[trigger] terms[i]).original_single_word is Some
                    && terms[i].original_single_word->0@ == word,
{
    assert forall|word: Seq<char>| #[trigger] own.contains(word) implies (counts(query, word) <==> (
    exists|i: int|
        0 <= i < terms.len() && i < query.max_counted_words && (
        #[trigger] terms[i]).original_single_word is Some && terms[i].original_single_word->0@
            == word)) by {
        lemma_text_of_term(query, terms, word);
    }
}

/// A word is that of a term that counts exactly when it is the text of one.
proof fn lemma_text_of_term(query: QueryView, terms: Seq<QueryTerm>, word: Seq<char>)
    requires
        query.words.len() == terms.len(),
        forall|i: int|
            0 <= i < terms.len() ==> #[trigger] query.words[i] == match terms[i].original_single_word {
                Some(text) => Some(text@),
                None => None,
            },
    ensures
        counts(query, word) <==> exists|i: int|
            0 <= i < terms.len() && i < query.max_counted_words && (
            #[trigger] terms[i]).original_single_word is Some && terms[i].original_single_word->0@
                == word,
{
    if counts(query, word) {
        let i = choose|i: int|
            0 <= i < query.words.len() && i < query.max_counted_words && #[trigger] query.words[i]
                == Some(word);
        assert(terms[i].original_single_word is Some);
    }
    if exists|i: int|
        0 <= i < terms.len() && i < query.max_counted_words && (
        #[trigger] terms[i]).original_single_word is Some && terms[i].original_single_word->0@
            == word {
        let i = choose|i: int|
            0 <= i < terms.len() && i < query.max_counted_words && (
            #[trigger] terms[i]).original_single_word is Some && terms[i].original_single_word->0@
                == word;
        assert(query.words[i] == Some(word));
    }
}

/// The places of the actions that ask for a pin.
spec fn action_places(book: RuleBook, index_uid: Seq<char>, actions: Seq<ActionView>) -> Seq<int>
    decreases actions.len(),
{
    if actions.len() == 0 {
        Seq::empty()
    } else {
        let before = action_places(book, index_uid, actions.drop_last());
        if pin_of(book, index_uid, actions.last()) is Some {
            before.push(actions.len() - 1)
        } else {
            before
        }
    }
}

proof fn lemma_pins_of_last_action(book: RuleBook, index_uid: Seq<char>, actions: Seq<ActionView>)
    requires
        actions.len() > 0,
    ensures
        pins_of_actions(book, index_uid, actions) == match pin_of(
            book,
            index_uid,
            actions.last(),
        ) {
            Some(pin) => pins_of_actions(book, index_uid, actions.drop_last()).push(pin),
            None => pins_of_actions(book, index_uid, actions.drop_last()),
        },
    decreases actions.len(),
{
    reveal_with_fuel(pins_of_actions, 2);
    let all = pins_of_actions(book, index_uid, actions);
    if actions.len() == 1 {
        assert(actions.drop_first() =~= Seq::<ActionView>::empty());
        assert(actions.drop_last() =~= Seq::<ActionView>::empty());
        match pin_of(book, index_uid, actions.last()) {
            Some(pin) => {
                assert(all =~= Seq::<PinDoc>::empty().push(pin));
            },
            None => {},
        }
    } else {
        let rest = actions.drop_first();
        lemma_pins_of_last_action(book, index_uid, rest);
        assert(rest.drop_last() =~= actions.drop_last().drop_first());
        assert(rest.last() == actions.last());
        match pin_of(book, index_uid, actions.last()) {
            Some(pin) => {
                assert(all =~= pins_of_actions(book, index_uid, actions.drop_last()).push(pin));
            },
            None => {
                assert(all =~= pins_of_actions(book, index_uid, actions.drop_last()));
            },
        }
    }
}

proof fn lemma_action_places(book: RuleBook, index_uid: Seq<char>, actions: Seq<ActionView>)
    ensures
        ({
            let places = action_places(book, index_uid, actions);
            let pins = pins_of_actions(book, index_uid, actions);
            &&& places.len() == pins.len()
            &&& forall|j: int|
                0 <= j < places.len() ==> 0 <= #[trigger] places[j] < actions.len() && pin_of(
                    book,
                    index_uid,
                    actions[places[j]],
                ) == Some(pins[j])
            &&& forall|j: int, l: int| 0 <= j < l < places.len() ==> places[j] < places[l]
            &&& forall|k: int|
                0 <= k < actions.len() && pin_of(book, index_uid, #[trigger] actions[k]) is Some
                    ==> places.contains(k)
        }),
    decreases actions.len(),
{
    if actions.len() > 0 {
        let places = action_places(book, index_uid, actions);
        let pins = pins_of_actions(book, index_uid, actions);
        let before = action_places(book, index_uid, actions.drop_last());
        lemma_action_places(book, index_uid, actions.drop_last());
        lemma_pins_of_last_action(book, index_uid, actions);
        assert forall|j: int| 0 <= j < places.len() implies 0 <= #[trigger] places[j]
            < actions.len() && pin_of(book, index_uid, actions[places[j]]) == Some(pins[j]) by {
            if j < before.len() {
                assert(places[j] == before[j]);
                assert(actions.drop_last()[before[j]] == actions[before[j]]);
            }
        }
        assert forall|k: int|
            0 <= k < actions.len() && pin_of(book, index_uid, #[trigger] actions[k]) is Some implies
            places.contains(k) by {
            if k < actions.len() - 1 {
                assert(actions.drop_last()[k] == actions[k]);
                let j = choose|j: int| 0 <= j < before.len() && before[j] == k;
                assert(places[j] == k);
            } else {
                assert(places[places.len() - 1] == k);
            }
        }
    }
}

/// The places of the actions that ask for a pin, each behind the place of its rule.
spec fn rule_places(book: RuleBook, index_uid: Seq<char>, rules: Seq<RuleId>) -> Seq<(int, int)>
    decreases rules.len(),
{
    if rules.len() == 0 {
        Seq::empty()
    } else {
        let before = rule_places(book, index_uid, rules.drop_last());
        match (book.actions)(rules.last()) {
            Some(actions) => {
                let last = rules.len() - 1;
                before + action_places(book, index_uid, actions).map_values(
                    |k: int| (last as int, k),
                )
            },
            None => before,
        }
    }
}

proof fn lemma_pins_of_last_rule(book: RuleBook, index_uid: Seq<char>, rules: Seq<RuleId>)
    requires
        rules.len() > 0,
    ensures
        pins_of_rules(book, index_uid, rules) == match (book.actions)(rules.last()) {
            Some(actions) => pins_of_rules(book, index_uid, rules.drop_last()) + pins_of_actions(
                book,
                index_uid,
                actions,
            ),
            None => pins_of_rules(book, index_uid, rules.drop_last()),
        },
    decreases rules.len(),
{
    reveal_with_fuel(pins_of_rules, 2);
    let all = pins_of_rules(book, index_uid, rules);
    let last = (book.actions)(rules.last());
    if rules.len() == 1 {
        assert(rules.drop_first() =~= Seq::<RuleId>::empty());
        assert(rules.drop_last() =~= Seq::<RuleId>::empty());
        match last {
            Some(actions) => {
                assert(all =~= pins_of_rules(book, index_uid, rules.drop_last())
                    + pins_of_actions(book, index_uid, actions));
            },
            None => {},
        }
    } else {
        let rest = rules.drop_first();
        lemma_pins_of_last_rule(book, index_uid, rest);
        assert(rest.drop_last() =~= rules.drop_last().drop_first());
        assert(rest.last() == rules.last());
        match last {
            Some(actions) => {
                assert(all =~= pins_of_rules(book, index_uid, rules.drop_last())
                    + pins_of_actions(book, index_uid, actions));
            },
            None => {
                assert(all =~= pins_of_rules(book, index_uid, rules.drop_last()));
            },
        }
    }
}

/// `places` are where the pins that the rules ask for come from.
spec fn come_from(
    book: RuleBook,
    index_uid: Seq<char>,
    rules: Seq<RuleId>,
    pins: Seq<PinDoc>,
    places: Seq<(int, int)>,
) -> bool {
    &&& places.len() == pins.len()
    &&& forall|j: int|
        0 <= j < places.len() ==> {
            &&& 0 <= (#[trigger] places[j]).0 < rules.len()
            &&& (book.actions)(rules[places[j].0]) is Some
            &&& 0 <= places[j].1 < (book.actions)(rules[places[j].0])->0.len()
            &&& pin_of(book, index_uid, (book.actions)(rules[places[j].0])->0[places[j].1]) == Some(
                pins[j],
            )
        }
    &&& forall|j: int, l: int|
        0 <= j < l < places.len() ==> (#[trigger] places[j]).0 < (#[trigger] places[l]).0
            || places[j].0 == places[l].0 && places[j].1 < places[l].1
}

/// The action at `k` of the rule at `a` asks for a pin.
spec fn asks(
    book: RuleBook,
    index_uid: Seq<char>,
    rules: Seq<RuleId>,
    a: int,
    k: int,
) -> bool {
    &&& 0 <= a < rules.len()
    &&& (book.actions)(rules[a]) is Some
    &&& 0 <= k < (book.actions)(rules[a])->0.len()
    &&& pin_of(book, index_uid, (book.actions)(rules[a])->0[k]) is Some
}

proof fn lemma_rule_places(book: RuleBook, index_uid: Seq<char>, rules: Seq<RuleId>)
    ensures
        come_from(
            book,
            index_uid,
            rules,
            pins_of_rules(book, index_uid, rules),
            rule_places(book, index_uid, rules),
        ),
        forall|a: int, k: int| #[trigger]
            asks(book, index_uid, rules, a, k) ==> rule_places(book, index_uid, rules).contains(
                (a, k),
            ),
    decreases rules.len(),
{
    if rules.len() > 0 {
        let places = rule_places(book, index_uid, rules);
        let pins = pins_of_rules(book, index_uid, rules);
        let fewer = rules.drop_last();
        let before = rule_places(book, index_uid, fewer);
        let last = rules.len() - 1;
        lemma_rule_places(book, index_uid, fewer);
        lemma_pins_of_last_rule(book, index_uid, rules);
        let own = (book.actions)(rules.last());
        if own is Some {
            lemma_action_places(book, index_uid, own->0);
        }
        let later = action_places(book, index_uid, own->0);
        assert forall|j: int| 0 <= j < places.len() implies {
            &&& 0 <= (#[trigger] places[j]).0 < rules.len()
            &&& (book.actions)(rules[places[j].0]) is Some
            &&& 0 <= places[j].1 < (book.actions)(rules[places[j].0])->0.len()
            &&& pin_of(book, index_uid, (book.actions)(rules[places[j].0])->0[places[j].1]) == Some(
                pins[j],
            )
        } by {
            if j < before.len() {
                assert(places[j] == before[j]);
                assert(fewer[before[j].0] == rules[before[j].0]);
            } else {
                assert(places[j] == (last as int, later[j - before.len()]));
            }
        }
        assert forall|j: int, l: int| 0 <= j < l < places.len() implies (#[trigger] places[j]).0 < (
        #[trigger] places[l]).0 || places[j].0 == places[l].0 && places[j].1 < places[l].1 by {
            if j < before.len() {
                assert(places[j] == before[j]);
            } else {
                assert(places[j] == (last as int, later[j - before.len()]));
            }
            if l < before.len() {
                assert(places[l] == before[l]);
            } else {
                assert(places[l] == (last as int, later[l - before.len()]));
            }
        }
        assert forall|a: int, k: int| #[trigger]
            asks(book, index_uid, rules, a, k) implies places.contains((a, k)) by {
            if a < last {
                assert(fewer[a] == rules[a]);
                assert(asks(book, index_uid, fewer, a, k));
                let j = choose|j: int| 0 <= j < before.len() && before[j] == (a, k);
                assert(places[j] == (a, k));
            } else {
                assert(own->0[k] == own->0[k]);
                assert(later.contains(k));
                let j = choose|j: int| 0 <= j < later.len() && later[j] == k;
                assert(places[before.len() + j] == (a, k));
            }
        }
    }
}

/// The places of the pins that are granted, among those that are asked for.
spec fn granted_places(asked: Seq<PinDoc>, universe: Set<u32>) -> Seq<int>
    decreases asked.len(),
{
    if asked.len() == 0 {
        Seq::empty()
    } else {
        let first = universe.contains(asked[0].doc_id);
        let left = if first {
            universe.remove(asked[0].doc_id)
        } else {
            universe
        };
        let later = granted_places(asked.drop_first(), left).map_values(|place: int| place + 1);
        if first {
            seq![0int] + later
        } else {
            later
        }
    }
}

/// The document of the pin at `j` is pinned, by that pin or one that is asked for before it.
spec fn pinned_by(asked: Seq<PinDoc>, pins: Seq<PinDoc>, places: Seq<int>, j: int) -> bool {
    exists|p: int|
        0 <= p < pins.len() && (#[trigger] pins[p]).doc_id == asked[j].doc_id && places[p] <= j
}

proof fn lemma_granted_places(asked: Seq<PinDoc>, universe: Set<u32>)
    ensures
        ({
            let pins = granted(asked, universe);
            let places = granted_places(asked, universe);
            &&& places.len() == pins.len()
            &&& forall|p: int|
                0 <= p < places.len() ==> 0 <= #[trigger] places[p] < asked.len() && pins[p]
                    == asked[places[p]] && universe.contains(pins[p].doc_id)
            &&& forall|p: int, q: int| 0 <= p < q < places.len() ==> places[p] < places[q]
            &&& forall|p: int, q: int|
                0 <= p < q < pins.len() ==> (#[trigger] pins[p]).doc_id != (
                #[trigger] pins[q]).doc_id
            &&& forall|j: int|
                0 <= j < asked.len() && universe.contains((#[trigger] asked[j]).doc_id)
                    ==> pinned_by(asked, pins, places, j)
        }),
    decreases asked.len(),
{
    if asked.len() > 0 {
        let pins = granted(asked, universe);
        let places = granted_places(asked, universe);
        let first = universe.contains(asked[0].doc_id);
        let left = if first {
            universe.remove(asked[0].doc_id)
        } else {
            universe
        };
        let rest = asked.drop_first();
        let others = granted(rest, left);
        let later = granted_places(rest, left);
        let shift: int = if first {
            1
        } else {
            0
        };
        lemma_granted_places(rest, left);
        assert(forall|q: int|
            0 <= q < later.len() ==> #[trigger] places[q + shift] == later[q] + 1 && pins[q + shift]
                == others[q]);
        assert forall|p: int| 0 <= p < places.len() implies 0 <= #[trigger] places[p] < asked.len()
            && pins[p] == asked[places[p]] && universe.contains(pins[p].doc_id) by {
            if p >= shift {
                assert(places[(p - shift) + shift] == later[p - shift] + 1);
                assert(rest[later[p - shift]] == asked[later[p - shift] + 1]);
            }
        }
        assert forall|p: int, q: int| 0 <= p < q < places.len() implies places[p] < places[q] by {
            assert(places[(q - shift) + shift] == later[q - shift] + 1);
            if p >= shift {
                assert(places[(p - shift) + shift] == later[p - shift] + 1);
            }
        }
        assert forall|p: int, q: int| 0 <= p < q < pins.len() implies (#[trigger] pins[p]).doc_id
            != (#[trigger] pins[q]).doc_id by {
            assert(places[(q - shift) + shift] == later[q - shift] + 1);
            assert(later[q - shift] < rest.len());
            if p >= shift {
                assert(places[(p - shift) + shift] == later[p - shift] + 1);
                assert(others[p - shift].doc_id != others[q - shift].doc_id);
            }
        }
        assert forall|j: int|
            0 <= j < asked.len() && universe.contains((#[trigger] asked[j]).doc_id) implies pinned_by(
            asked,
            pins,
            places,
            j,
        ) by {
            if first && asked[j].doc_id == asked[0].doc_id {
                assert(pins[0].doc_id == asked[j].doc_id);
            } else {
                assert(j > 0);
                assert(rest[j - 1] == asked[j]);
                assert(pinned_by(rest, others, later, j - 1));
                let q = choose|q: int|
                    0 <= q < others.len() && (#[trigger] others[q]).doc_id == rest[j - 1].doc_id
                        && later[q] <= j - 1;
                assert(places[q + shift] == later[q] + 1);
                assert(pins[q + shift].doc_id == asked[j].doc_id);
            }
        }
    }
}

/// The active rules of a resolution are those in `active`, which has the rules whose conditions
/// hold.
proof fn lemma_active_of_resolution(
    rules: RulesView,
    terms: Seq<QueryTerm>,
    time: Moment,
    index: RuleIndex,
    asked: spec_fn(u32) -> Seq<Seq<char>>,
    active: Set<u32>,
)
    requires
        has_rfc3339(time),
        rules.fields.contains_key("conditions.query.words"@) ==> {
            let field = rules.fields["conditions.query.words"@];
            &&& forall|id: u32| (#[trigger] asked(id)).len() <= 255
            &&& forall|word: Seq<char>, id: u32|
                #![trigger (index.word)(field, word)->0.contains(id)]
                #![trigger asked(id).contains(word)]
                asked(id).contains(word) <==> (index.word)(field, word) is Some && (index.word)(
                    field,
                    word,
                )->0.contains(id)
            &&& forall|count: u8, id: u32|
                #![trigger (index.word_count)(field, count)->0.contains(id)]
                (index.word_count)(field, count) is Some && (index.word_count)(
                    field,
                    count,
                )->0.contains(id) ==> asked(id).len() == count
            &&& forall|count: u8, id: u32|
                #![trigger (index.word_count)(field, count), asked(id)]
                count >= 1 && asked(id).len() == count ==> (index.word_count)(field, count) is Some
                    && (index.word_count)(field, count)->0.contains(id)
        },
        forall|id: u32| #[trigger]
            active.contains(id) <==> {
            let now = rfc3339(time);
            &&& if rules.fields.contains_key("active"@) {
                (index.facet)(rules.fields["active"@], "true"@) is Some && (index.facet)(
                    rules.fields["active"@],
                    "true"@,
                )->0.contains(id)
            } else {
                index.documents.contains(id)
            }
            &&& rules.fields.contains_key("conditions.time.start"@) ==> !(index.facet_after)(
                rules.fields["conditions.time.start"@],
                now,
            ).contains(id)
            &&& rules.fields.contains_key("conditions.time.end"@) ==> !(index.facet_before)(
                rules.fields["conditions.time.end"@],
                now,
            ).contains(id)
            &&& rules.fields.contains_key("conditions.query.isEmpty"@) ==> {
                let other = (index.facet)(
                    rules.fields["conditions.query.isEmpty"@],
                    if terms.len() == 0 {
                        "false"@
                    } else {
                        "true"@
                    },
                );
                !(other is Some && other->0.contains(id))
            }
            &&& rules.fields.contains_key("conditions.query.words"@) ==> {
                &&& asked(id).len() <= terms.len()
                &&& asked(id).len() <= rules.max_counted_words
                &&& forall|word: Seq<char>| #[trigger]
                    asked(id).contains(word) ==> exists|i: int|
                        0 <= i < terms.len() && i < rules.max_counted_words && (
                        #[trigger] terms[i]).original_single_word is Some
                            && terms[i].original_single_word->0@ == word
            }
        },
    ensures
        active_rules(index, query_of(rules, words_of(terms), time)) == Outcome::Active(active),
{
    let query = query_of(rules, words_of(terms), time);
    if query.fields.query_words is Some {
        lemma_indexes_words(index, query.fields.query_words->0, asked);
    }
    let found = active_rules(index, query)->Active_0;
    assert forall|id: u32| #[trigger] found.contains(id) <==> active.contains(id) by {
        lemma_active(index, query, asked, id);
        lemma_texts_of_terms(query, terms, asked(id));
    }
    lemma_active(index, query, asked, 0);
    assert(found =~= active);
}

/// The resolution of pins, from the fields of the rules' index, the terms of the query, the time of
/// the search and the index that is searched, with every read answered. `active` has the rules
/// whose conditions hold: a rule is switched on, has not still to start, has not ended, does not
/// ask for a query of the other emptiness, asks for no more words than terms count, and each of
/// its words is the text of one of these terms. Then each pin, at `p`, comes from the action at
/// `at[p]` of an active rule, which is about the searched index or about none, and has the position
/// of that action and the document that the action selects, out of the universe. The pins stand in
/// the order of the rules, which is that of their precedence where they have one and then of their
/// ids, and in that of the actions of a rule. No document is pinned twice, and none that such an
/// action selects is left out: an earlier pin of it, or the action itself, is there. What is left
/// of the universe are the documents without a pin.
pub proof fn law_resolution_pins_what_active_rules_ask_for(
    rules: RulesView,
    terms: Seq<QueryTerm>,
    index_uid: Seq<char>,
    time: Moment,
    index: RuleIndex,
    book: RuleBook,
    asked: spec_fn(u32) -> Seq<Seq<char>>,
    actions: spec_fn(RuleId) -> Option<Seq<RuleAction>>,
    precedence: spec_fn(RuleId) -> int,
    active: Set<u32>,
    universe: Set<u32>,
) -> (at: Seq<(RuleId, int)>)
    requires
        has_rfc3339(time),
        rules.fields.contains_key("conditions.query.words"@) ==> {
            let field = rules.fields["conditions.query.words"@];
            &&& forall|id: u32| (#[trigger] asked(id)).len() <= 255
            &&& forall|word: Seq<char>, id: u32|
                #![trigger (index.word)(field, word)->0.contains(id)]
                #![trigger asked(id).contains(word)]
                asked(id).contains(word) <==> (index.word)(field, word) is Some && (index.word)(
                    field,
                    word,
                )->0.contains(id)
            &&& forall|count: u8, id: u32|
                #![trigger (index.word_count)(field, count)->0.contains(id)]
                (index.word_count)(field, count) is Some && (index.word_count)(
                    field,
                    count,
                )->0.contains(id) ==> asked(id).len() == count
            &&& forall|count: u8, id: u32|
                #![trigger (index.word_count)(field, count), asked(id)]
                count >= 1 && asked(id).len() == count ==> (index.word_count)(field, count) is Some
                    && (index.word_count)(field, count)->0.contains(id)
        },
        forall|id: u32| #[trigger]
            active.contains(id) <==> {
            let now = rfc3339(time);
            &&& if rules.fields.contains_key("active"@) {
                (index.facet)(rules.fields["active"@], "true"@) is Some && (index.facet)(
                    rules.fields["active"@],
                    "true"@,
                )->0.contains(id)
            } else {
                index.documents.contains(id)
            }
            &&& rules.fields.contains_key("conditions.time.start"@) ==> !(index.facet_after)(
                rules.fields["conditions.time.start"@],
                now,
            ).contains(id)
            &&& rules.fields.contains_key("conditions.time.end"@) ==> !(index.facet_before)(
                rules.fields["conditions.time.end"@],
                now,
            ).contains(id)
            &&& rules.fields.contains_key("conditions.query.isEmpty"@) ==> {
                let other = (index.facet)(
                    rules.fields["conditions.query.isEmpty"@],
                    if terms.len() == 0 {
                        "false"@
                    } else {
                        "true"@
                    },
                );
                !(other is Some && other->0.contains(id))
            }
            &&& rules.fields.contains_key("conditions.query.words"@) ==> {
                &&& asked(id).len() <= terms.len()
                &&& asked(id).len() <= rules.max_counted_words
                &&& forall|word: Seq<char>| #[trigger]
                    asked(id).contains(word) ==> exists|i: int|
                        0 <= i < terms.len() && i < rules.max_counted_words && (
                        #[trigger] terms[i]).original_single_word is Some
                            && terms[i].original_single_word->0@ == word
            }
        },
        forall|rule: RuleId| #[trigger]
            (book.actions)(rule) == match actions(rule) {
                Some(list) => Some(action_views(list)),
                None => None,
            },
        rules.fields.contains_key("precedence"@) ==> {
            let buckets = (book.buckets)(rules.fields["precedence"@], active);
            &&& forall|id: u32| #[trigger]
                active.contains(id) <==> exists|i: int|
                    0 <= i < buckets.len() && (#[trigger] buckets[i]).contains(id)
            &&& forall|i: int, a: u32, b: u32|
                0 <= i < buckets.len() && #[trigger] buckets[i].contains(a)
                    && #[trigger] buckets[i].contains(b) ==> precedence(a) == precedence(b)
            &&& forall|i: int, j: int, a: u32, b: u32|
                0 <= i < j < buckets.len() && #[trigger] buckets[i].contains(a)
                    && #[trigger] buckets[j].contains(b) ==> precedence(a) < precedence(b)
        },
    ensures
        ({
            let result = run_resolution(
                index,
                book,
                ResolveView::Rules(
                    SearchView {
                        query: query_of(rules, words_of(terms), time),
                        stage: StageView::SwitchedOn,
                    },
                    Target { index_uid, precedence: rule_fields(rules.fields).precedence },
                ),
                universe,
            );
            let (pins, left) = result->0;
            let sorted = rules.fields.contains_key("precedence"@);
            &&& result is Some
            &&& at.len() == pins.len()
            &&& forall|p: int|
                0 <= p < pins.len() ==> {
                    let (rule, k) = #[trigger] at[p];
                    let action = actions(rule)->0[k];
                    &&& active.contains(rule)
                    &&& actions(rule) is Some
                    &&& 0 <= k < actions(rule)->0.len()
                    &&& action.selector.index_uid is Some ==> action.selector.index_uid->0@
                        == index_uid
                    &&& action.selector.id is Some
                    &&& (book.document)(action.selector.id->0@) == Some(pins[p].doc_id)
                    &&& action.action == (DynamicSearchRuleAction::Pin { position: pins[p].pos })
                    &&& universe.contains(pins[p].doc_id)
                }
            &&& forall|p: int, q: int|
                0 <= p < q < pins.len() ==> {
                    let a = (#[trigger] at[p]).0;
                    let b = (#[trigger] at[q]).0;
                    ||| sorted && precedence(a) < precedence(b)
                    ||| (sorted ==> precedence(a) == precedence(b)) && a < b
                    ||| a == b && at[p].1 < at[q].1
                }
            &&& forall|p: int, q: int|
                0 <= p < q < pins.len() ==> (#[trigger] pins[p]).doc_id != (
                #[trigger] pins[q]).doc_id
            &&& forall|rule: RuleId, k: int|
                #![trigger actions(rule)->0[k]]
                active.contains(rule) && actions(rule) is Some && 0 <= k < actions(rule)->0.len()
                    && (actions(rule)->0[k].selector.index_uid is Some
                    ==> actions(rule)->0[k].selector.index_uid->0@ == index_uid)
                    && actions(rule)->0[k].selector.id is Some && (book.document)(
                    actions(rule)->0[k].selector.id->0@,
                ) is Some && universe.contains(
                    (book.document)(actions(rule)->0[k].selector.id->0@)->0,
                ) ==> exists|p: int|
                    {
                        let a = (#[trigger] at[p]).0;
                        &&& 0 <= p < pins.len()
                        &&& Some(pins[p].doc_id) == (book.document)(
                            actions(rule)->0[k].selector.id->0@,
                        )
                        &&& {
                            ||| sorted && precedence(a) < precedence(rule)
                            ||| (sorted ==> precedence(a) == precedence(rule)) && a < rule
                            ||| a == rule && at[p].1 <= k
                        }
                    }
            &&& forall|doc_id: u32| #[trigger]
                left.contains(doc_id) <==> universe.contains(doc_id) && forall|p: int|
                    0 <= p < pins.len() ==> (#[trigger] pins[p]).doc_id != doc_id
        }),
{
    let query = query_of(rules, words_of(terms), time);
    let target = Target { index_uid, precedence: rule_fields(rules.fields).precedence };
    lemma_active_of_resolution(rules, terms, time, index, asked, active);
    law_resolution_finds_granted_pins(index, book, query, target, universe);
    let sorted = rules.fields.contains_key("precedence"@);
    let order = rule_order(book, active, target.precedence);
    lemma_order(book, active, target.precedence, precedence);
    let asked_pins = pins_of_rules(book, index_uid, order);
    let pins = granted(asked_pins, universe);
    let places = rule_places(book, index_uid, order);
    let chosen = granted_places(asked_pins, universe);
    lemma_rule_places(book, index_uid, order);
    lemma_granted_places(asked_pins, universe);
    let at = Seq::new(
        pins.len(),
        |p: int| (order[places[chosen[p]].0], places[chosen[p]].1),
    );
    assert forall|p: int| 0 <= p < pins.len() implies {
        let (rule, k) = #[trigger] at[p];
        let action = actions(rule)->0[k];
        &&& active.contains(rule)
        &&& actions(rule) is Some
        &&& 0 <= k < actions(rule)->0.len()
        &&& action.selector.index_uid is Some ==> action.selector.index_uid->0@ == index_uid
        &&& action.selector.id is Some
        &&& (book.document)(action.selector.id->0@) == Some(pins[p].doc_id)
        &&& action.action == (DynamicSearchRuleAction::Pin { position: pins[p].pos })
        &&& universe.contains(pins[p].doc_id)
    } by {
        let place = places[chosen[p]];
        assert(order.contains(order[place.0]));
        assert((book.actions)(order[place.0]) is Some);
    }
    assert forall|p: int, q: int| 0 <= p < q < pins.len() implies {
        let a = (#[trigger] at[p]).0;
        let b = (#[trigger] at[q]).0;
        ||| sorted && precedence(a) < precedence(b)
        ||| (sorted ==> precedence(a) == precedence(b)) && a < b
        ||| a == b && at[p].1 < at[q].1
    } by {
        assert(chosen[p] < chosen[q]);
        let first = places[chosen[p]];
        let second = places[chosen[q]];
        assert(first.0 < second.0 || first.0 == second.0 && first.1 < second.1);
        if first.0 < second.0 {
            assert(goes_before(sorted, precedence, order[first.0], order[second.0]));
        }
    }
    assert forall|rule: RuleId, k: int|
        #![trigger actions(rule)->0[k]]
        active.contains(rule) && actions(rule) is Some && 0 <= k < actions(rule)->0.len() && (
        actions(rule)->0[k].selector.index_uid is Some
            ==> actions(rule)->0[k].selector.index_uid->0@ == index_uid)
            && actions(rule)->0[k].selector.id is Some && (book.document)(
            actions(rule)->0[k].selector.id->0@,
        ) is Some && universe.contains(
            (book.document)(actions(rule)->0[k].selector.id->0@)->0,
        ) implies exists|p: int|
        {
            let a = (#[trigger] at[p]).0;
            &&& 0 <= p < pins.len()
            &&& Some(pins[p].doc_id) == (book.document)(actions(rule)->0[k].selector.id->0@)
            &&& {
                ||| sorted && precedence(a) < precedence(rule)
                ||| (sorted ==> precedence(a) == precedence(rule)) && a < rule
                ||| a == rule && at[p].1 <= k
            }
        } by {
        assert(order.contains(rule));
        let n = choose|n: int| 0 <= n < order.len() && order[n] == rule;
        assert((book.actions)(order[n]) == Some(action_views(actions(rule)->0)));
        assert((book.actions)(order[n])->0[k] == actions(rule)->0[k]@);
        assert(asks(book, index_uid, order, n, k));
        assert(places.contains((n, k)));
        let j = choose|j: int| 0 <= j < places.len() && places[j] == (n, k);
        assert(places[j].0 == n && places[j].1 == k);
        assert(universe.contains(asked_pins[j].doc_id));
        assert(pinned_by(asked_pins, pins, chosen, j));
        let p = choose|p: int|
            0 <= p < pins.len() && (#[trigger] pins[p]).doc_id == asked_pins[j].doc_id && chosen[p]
                <= j;
        let place = places[chosen[p]];
        assert(at[p] == (order[place.0], place.1));
        if chosen[p] < j {
            assert(place.0 < n || place.0 == n && place.1 < k);
        }
        if place.0 < n {
            assert(goes_before(sorted, precedence, order[place.0], order[n]));
        }
    }
    at
}

/// A rule applies before another: its precedence is smaller, where rules have one, or else its id.
spec fn goes_before(
    sorted: bool,
    precedence: spec_fn(RuleId) -> int,
    a: RuleId,
    b: RuleId,
) -> bool {
    ||| sorted && precedence(a) < precedence(b)
    ||| (sorted ==> precedence(a) == precedence(b)) && a < b
}

/// The order in which rules apply lists the active ones, each before the next.
proof fn lemma_order(
    book: RuleBook,
    active: Set<u32>,
    field: Option<FieldId>,
    precedence: spec_fn(RuleId) -> int,
)
    requires
        field is Some ==> sorted_by((book.buckets)(field->0, active), active, precedence),
    ensures
        forall|id: u32| #[trigger]
            rule_order(book, active, field).contains(id) <==> active.contains(id),
        forall|i: int, j: int|
            0 <= i < j < rule_order(book, active, field).len() ==> goes_before(
                field is Some,
                precedence,
                #[trigger] rule_order(book, active, field)[i],
                #[trigger] rule_order(book, active, field)[j],
            ),
{
    match field {
        Some(field) => {
            let buckets = (book.buckets)(field, active);
            law_buckets_list_rules_by_precedence(buckets, active, precedence);
            assert forall|i: int, j: int| 0 <= i < j < listed(buckets).len() implies goes_before(
                true,
                precedence,
                #[trigger] listed(buckets)[i],
                #[trigger] listed(buckets)[j],
            ) by {
                assert(crate::pins_laws::applies_before(
                    precedence,
                    listed(buckets)[i],
                    listed(buckets)[j],
                ));
            }
        },
        None => {
            law_ascending_lists_all(active);
        },
    }
}

/// Where RFC 3339 cannot write the time of the search, and the rules that are switched on can be
/// read, the resolution ends without pins.
pub proof fn law_resolution_needs_a_written_time(
    rules: RulesView,
    terms: Seq<QueryTerm>,
    index_uid: Seq<char>,
    time: Moment,
    index: RuleIndex,
    book: RuleBook,
    universe: Set<u32>,
)
    requires
        !has_rfc3339(time),
        rules.fields.contains_key("active"@) ==> (index.facet)(
            rules.fields["active"@],
            "true"@,
        ) is Some,
    ensures
        run_resolution(
            index,
            book,
            ResolveView::Rules(
                SearchView {
                    query: query_of(rules, words_of(terms), time),
                    stage: StageView::SwitchedOn,
                },
                Target { index_uid, precedence: rule_fields(rules.fields).precedence },
            ),
            universe,
        ) is None,
{
    let query = query_of(rules, words_of(terms), time);
    let target = Target { index_uid, precedence: rule_fields(rules.fields).precedence };
    law_resolution_finds_granted_pins(index, book, query, target, universe);
}

/// What a read asks for is what it holds.
pub proof fn law_reads_ask_for_what_they_hold(read: IndexRead<'_>)
    ensures
        read is Documents <==> read@ is Documents,
        read is Facet ==> read@ == (ReadView::Facet {
            field: read->Facet_field,
            value: read->value@,
        }),
        read is FacetAfter ==> read@ == (ReadView::FacetAfter {
            field: read->FacetAfter_field,
            bound: read->FacetAfter_bound@,
            within: ids(*read->FacetAfter_within),
        }),
        read is FacetBefore ==> read@ == (ReadView::FacetBefore {
            field: read->FacetBefore_field,
            bound: read->FacetBefore_bound@,
            within: ids(*read->FacetBefore_within),
        }),
        read is Word ==> read@ == (ReadView::Word { field: read->Word_field, word: read->word@ }),
        read is WordCount ==> read@ == (ReadView::WordCount {
            field: read->WordCount_field,
            count: read->count,
        }),
{
}

/// What a read or a scan finds is taken as it came: every set, count and word, in its place.
pub proof fn law_found_is_taken_as_it_came(
    found: Option<RoaringBitmap>,
    sets: Seq<RoaringBitmap>,
    counts: Seq<(u8, RoaringBitmap)>,
    words: Seq<(String, RoaringBitmap)>,
    i: int,
)
    ensures
        found is Some <==> found_ids(found) is Some,
        found is Some ==> found_ids(found)->0 == ids(found->0),
        all_ids(sets).len() == sets.len(),
        0 <= i < sets.len() ==> all_ids(sets)[i] == ids(sets[i]),
        counted_ids(counts).len() == counts.len(),
        0 <= i < counts.len() ==> counted_ids(counts)[i] == (counts[i].0, ids(counts[i].1)),
        worded_ids(words).len() == words.len(),
        0 <= i < words.len() ==> worded_ids(words)[i] == (words[i].0@, ids(words[i].1)),
{
}

/// A search, a search for pins and a resolution that have ended say what they found.
pub proof fn law_ended_searches_say_what_they_found(
    active: RoaringBitmap,
    pins: Vec<PinDoc>,
    pin_step: PinStep,
)
    ensures
        ActiveStep::Done(active)@ == StepView::Done(ids(active)),
        PinStep::Done(pins)@ == PinStepView::Done(pins@),
        ResolveStep::Pins(pin_step)@ == ResolveView::Pins(pin_step@),
{
}

/// After a scan of the words, a rule is active exactly when it was and is not unsatisfied, or is
/// in doubt and every word that the scan has it under is the word of a term that counts.
pub proof fn law_rule_in_doubt_needs_words_of_the_query(
    scan: WordScanView,
    found: Seq<(Seq<char>, Set<u32>)>,
    id: u32,
)
    ensures
        scan.next(found) is Done,
        scan.next(found)->Done_0.contains(id) <==> scan.active.contains(id) && (
        scan.unsatisfied.contains(id) ==> scan.doubtful.contains(id) && forall|i: int|
            0 <= i < found.len() && (#[trigger] found[i]).1.contains(id) ==> exists|j: int|
                0 <= j < scan.query.words.len() && j < scan.query.max_counted_words
                    && #[trigger] scan.query.words[j] == Some(found[i].0)),
{
    let counted = scan.query.counted_words();
    let missing = beside(found, counted);
    assert forall|i: int| 0 <= i < found.len() implies (counted.contains(
        (#[trigger] found[i]).0,
    ) <==> counts(scan.query, found[i].0)) by {}
    if missing.contains(id) {
        let i = choose|i: int|
            0 <= i < found.len() && !counted.contains((#[trigger] found[i]).0)
                && found[i].1.contains(id);
        assert(!counts(scan.query, found[i].0));
    }
}

/// How a scan of the word counts goes on depends on which rules stand under which counts from 1 on,
/// and on nothing else.
pub proof fn law_scan_goes_by_rules_and_their_counts(
    scan: ScanView,
    a: Seq<(u8, Set<u32>)>,
    b: Seq<(u8, Set<u32>)>,
)
    requires
        forall|count: u8, id: u32|
            #![trigger stands_under(a, count, id)]
            count >= 1 ==> (stands_under(a, count, id) <==> stands_under(b, count, id)),
    ensures
        scan.next(a) == scan.next(b),
{
    assert forall|from: nat| from >= 1 implies #[trigger] counted_in(a, from) == counted_in(
        b,
        from,
    ) by {
        assert forall|id: u32| #[trigger] counted_in(a, from).contains(id) <==> counted_in(
            b,
            from,
        ).contains(id) by {
            if counted_in(a, from).contains(id) {
                let i = choose|i: int|
                    0 <= i < a.len() && (#[trigger] a[i]).0 >= from && a[i].1.contains(id);
                assert(stands_under(a, a[i].0, id));
                assert(stands_under(b, a[i].0, id));
            }
            if counted_in(b, from).contains(id) {
                let i = choose|i: int|
                    0 <= i < b.len() && (#[trigger] b[i]).0 >= from && b[i].1.contains(id);
                assert(stands_under(b, b[i].0, id));
                assert(stands_under(a, b[i].0, id));
            }
        }
        assert(counted_in(a, from) =~= counted_in(b, from));
    }
    assert(counted_in(a, 1) == counted_in(b, 1));
    assert(counted_in(a, scan.query.words_count() + 1) == counted_in(
        b,
        scan.query.words_count() + 1,
    ));
}

/// The rule stands under the count.
pub open spec fn stands_under(found: Seq<(u8, Set<u32>)>, count: u8, id: u32) -> bool {
    exists|i: int| 0 <= i < found.len() && (#[trigger] found[i]).0 == count && found[i].1.contains(id)
}

} // verus!

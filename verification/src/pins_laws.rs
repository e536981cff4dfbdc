use crate::fields::FieldId;
use crate::pins::{
    ascending, find_pins, law_ascending_lists_all, to_action, to_rule, without, ActionView, DocumentId,
    DynamicSearchRuleAction, PinDoc, PinStepView, PinView, RuleAction, RuleId,
};
use vstd::prelude::*;

verus! {

/// What the reads of a search for pins find.
pub struct RuleBook {
    /// The candidates in the order of a field's values: a bucket for each value.
    pub buckets: spec_fn(FieldId, Set<u32>) -> Seq<Set<u32>>,
    /// The actions of a rule, where it has any.
    pub actions: spec_fn(RuleId) -> Option<Seq<ActionView>>,
    /// The document with an id, where there is one.
    pub document: spec_fn(Seq<char>) -> Option<DocumentId>,
}

/// The active rules in the order in which they apply: bucket by bucket where rules have a
/// precedence, else by their ids.
pub open spec fn rule_order(book: RuleBook, active: Set<u32>, precedence: Option<FieldId>) -> Seq<RuleId> {
    match precedence {
        Some(field) => listed((book.buckets)(field, active)),
        None => ascending(active),
    }
}

/// The rules of the buckets, bucket by bucket, and by their ids in each.
pub open spec fn listed(buckets: Seq<Set<u32>>) -> Seq<RuleId>
    decreases buckets.len(),
{
    if buckets.len() == 0 {
        Seq::empty()
    } else {
        ascending(buckets[0]) + listed(buckets.drop_first())
    }
}

/// The pin that an action asks for in an index: none where the action is about another index,
/// selects no document, or selects one that the index does not have.
pub open spec fn pin_of(book: RuleBook, index_uid: Seq<char>, action: ActionView) -> Option<PinDoc> {
    match action.target(index_uid) {
        Some(id) => match (book.document)(id) {
            Some(doc_id) => Some(PinDoc { pos: action.position, doc_id }),
            None => None,
        },
        None => None,
    }
}

/// The pins that the actions of a rule ask for, in their order.
pub open spec fn pins_of_actions(
    book: RuleBook,
    index_uid: Seq<char>,
    actions: Seq<ActionView>,
) -> Seq<PinDoc>
    decreases actions.len(),
{
    if actions.len() == 0 {
        Seq::empty()
    } else {
        let rest = pins_of_actions(book, index_uid, actions.drop_first());
        match pin_of(book, index_uid, actions[0]) {
            Some(pin) => seq![pin] + rest,
            None => rest,
        }
    }
}

/// The pins that the rules ask for, in the order of the rules.
pub open spec fn pins_of_rules(book: RuleBook, index_uid: Seq<char>, rules: Seq<RuleId>) -> Seq<PinDoc>
    decreases rules.len(),
{
    if rules.len() == 0 {
        Seq::empty()
    } else {
        let rest = pins_of_rules(book, index_uid, rules.drop_first());
        match (book.actions)(rules[0]) {
            Some(actions) => pins_of_actions(book, index_uid, actions) + rest,
            None => rest,
        }
    }
}

/// Out of the pins that are asked for, those that are granted: the first for each document of
/// the universe.
pub open spec fn granted(asked: Seq<PinDoc>, universe: Set<u32>) -> Seq<PinDoc>
    decreases asked.len(),
{
    if asked.len() == 0 {
        Seq::empty()
    } else if universe.contains(asked[0].doc_id) {
        seq![asked[0]] + granted(asked.drop_first(), universe.remove(asked[0].doc_id))
    } else {
        granted(asked.drop_first(), universe)
    }
}

/// The documents of the pins.
pub open spec fn documents(pins: Seq<PinDoc>) -> Set<u32> {
    Set::new(|doc_id: u32| exists|i: int| 0 <= i < pins.len() && (#[trigger] pins[i]).doc_id == doc_id)
}

/// What a search for pins comes to when the rule book answers its reads and `buckets` are still
/// to come: the pins, and what is left of the universe.
pub open spec fn run_pins(
    book: RuleBook,
    buckets: Seq<Set<u32>>,
    step: PinStepView,
    universe: Set<u32>,
) -> (Seq<PinDoc>, Set<u32>)
    decreases
            if step is Sort {
                1nat
            } else {
                0nat
            },
            buckets.len(),
            pending_rules(step),
            pending_actions(step),
{
    match step {
        PinStepView::Sort { field, candidates, search } => run_pins(
            book,
            (book.buckets)(field, candidates),
            PinStepView::Bucket(search),
            universe,
        ),
        PinStepView::Bucket(search) => if buckets.len() == 0 {
            match search.after_bucket(None) {
                PinStepView::Done(pins) => (pins, universe),
                _ => (search.pins, universe),
            }
        } else {
            run_pins(book, buckets.drop_first(), search.after_bucket(Some(buckets[0])), universe)
        },
        PinStepView::Actions(search) => {
            if search.rules.len() == 0 {
                (search.pins, universe)
            } else {
                proof {
                    lemma_action_progress(
                        PinView {
                            rules: search.rules.drop_first(),
                            actions: match (book.actions)(search.rules[0]) {
                                Some(actions) => actions,
                                None => Seq::empty(),
                            },
                            ..search
                        },
                    );
                }
                run_pins(
                    book,
                    buckets,
                    search.after_actions((book.actions)(search.rules[0])),
                    universe,
                )
            }
        },
        PinStepView::Document(search) => {
            if search.actions.len() == 0 || search.actions[0].target(search.index_uid) is None {
                (search.pins, universe)
            } else {
                let document = (book.document)(
                    search.actions[0].target(search.index_uid)->0,
                );
                proof {
                    lemma_action_progress(
                        PinView {
                            actions: search.actions.drop_first(),
                            pins: match document {
                                Some(doc_id) => if universe.contains(doc_id) {
                                    search.pins.push(
                                        PinDoc { pos: search.actions[0].position, doc_id },
                                    )
                                } else {
                                    search.pins
                                },
                                None => search.pins,
                            },
                            ..search
                        },
                    );
                }
                run_pins(
                    book,
                    buckets,
                    search.after_document(document, universe),
                    without(universe, document),
                )
            }
        },
        PinStepView::Done(pins) => (pins, universe),
    }
}

/// How many rules are ahead of a step.
pub open spec fn pending_rules(step: PinStepView) -> nat {
    match step {
        PinStepView::Actions(search) => search.rules.len(),
        PinStepView::Document(search) => search.rules.len(),
        _ => 0,
    }
}

/// How many actions are ahead of a step.
pub open spec fn pending_actions(step: PinStepView) -> nat {
    match step {
        PinStepView::Document(search) => search.actions.len(),
        _ => 0,
    }
}

/// Going on to the next action leaves no more rules and actions ahead than there were.
pub proof fn lemma_action_progress(search: PinView)
    ensures
        !(to_action(search) is Sort),
        pending_rules(to_action(search)) <= search.rules.len(),
        pending_actions(to_action(search)) <= search.actions.len(),
    decreases search.actions.len(),
{
    if search.actions.len() > 0 && search.actions[0].target(search.index_uid) is None {
        lemma_action_progress(PinView { actions: search.actions.drop_first(), ..search });
    }
}

/// The pins that the rules and actions ahead of a search ask for, with the buckets to come.
spec fn asked_ahead(book: RuleBook, buckets: Seq<Set<u32>>, search: PinView) -> Seq<PinDoc> {
    pins_of_actions(book, search.index_uid, search.actions) + pins_of_rules(
        book,
        search.index_uid,
        search.rules,
    ) + pins_of_rules(book, search.index_uid, listed(buckets))
}

proof fn lemma_pins_of_joined_rules(
    book: RuleBook,
    index_uid: Seq<char>,
    first: Seq<RuleId>,
    second: Seq<RuleId>,
)
    ensures
        pins_of_rules(book, index_uid, first + second) == pins_of_rules(book, index_uid, first)
            + pins_of_rules(book, index_uid, second),
    decreases first.len(),
{
    if first.len() == 0 {
        assert(first + second =~= second);
        assert(pins_of_rules(book, index_uid, first) + pins_of_rules(book, index_uid, second)
            =~= pins_of_rules(book, index_uid, second));
    } else {
        assert((first + second).drop_first() =~= first.drop_first() + second);
        lemma_pins_of_joined_rules(book, index_uid, first.drop_first(), second);
        assert(pins_of_rules(book, index_uid, first + second) =~= pins_of_rules(
            book,
            index_uid,
            first,
        ) + pins_of_rules(book, index_uid, second));
    }
}

/// The documents of one pin and of others.
proof fn lemma_documents_of_first(pin: PinDoc, rest: Seq<PinDoc>)
    ensures
        documents(seq![pin] + rest) == documents(rest).insert(pin.doc_id),
{
    let pins = seq![pin] + rest;
    assert forall|doc_id: u32| #[trigger] documents(pins).contains(doc_id) <==> documents(
        rest,
    ).insert(pin.doc_id).contains(doc_id) by {
        if documents(pins).contains(doc_id) {
            let i = choose|i: int| 0 <= i < pins.len() && (#[trigger] pins[i]).doc_id == doc_id;
            if i > 0 {
                assert(rest[i - 1] == pins[i]);
            }
        }
        if documents(rest).contains(doc_id) {
            let i = choose|i: int| 0 <= i < rest.len() && (#[trigger] rest[i]).doc_id == doc_id;
            assert(pins[i + 1] == rest[i]);
        }
        assert(pins[0] == pin);
    }
    assert(documents(pins) =~= documents(rest).insert(pin.doc_id));
}

proof fn lemma_run_pins(
    book: RuleBook,
    buckets: Seq<Set<u32>>,
    search: PinView,
    universe: Set<u32>,
)
    requires
        search.sorted || buckets.len() == 0,
    ensures
        ({
            let more = granted(asked_ahead(book, buckets, search), universe);
            run_pins(book, buckets, to_action(search), universe) == (
                search.pins + more,
                universe.difference(documents(more)),
            )
        }),
    decreases buckets.len(), search.rules.len(), search.actions.len(),
{
    let uid = search.index_uid;
    let asked = asked_ahead(book, buckets, search);
    let more = granted(asked, universe);
    if search.actions.len() > 0 {
        let rest = PinView { actions: search.actions.drop_first(), ..search };
        match search.actions[0].target(uid) {
            None => {
                lemma_run_pins(book, buckets, rest, universe);
            },
            Some(id) => {
                let document = (book.document)(id);
                match document {
                    None => {
                        lemma_run_pins(book, buckets, rest, universe);
                    },
                    Some(doc_id) => {
                        let pin = PinDoc { pos: search.actions[0].position, doc_id };
                        let later = asked_ahead(book, buckets, rest);
                        assert(asked =~= seq![pin] + later);
                        assert(asked.drop_first() =~= later);
                        if universe.contains(doc_id) {
                            let next = PinView { pins: search.pins.push(pin), ..rest };
                            let left = universe.remove(doc_id);
                            lemma_run_pins(book, buckets, next, left);
                            let others = granted(later, left);
                            lemma_documents_of_first(pin, others);
                            assert(search.pins.push(pin) + others =~= search.pins + more);
                            assert(left.difference(documents(others)) =~= universe.difference(
                                documents(more),
                            ));
                        } else {
                            lemma_run_pins(book, buckets, rest, universe);
                            assert(universe.remove(doc_id) =~= universe);
                        }
                    },
                }
            },
        }
    } else if search.rules.len() > 0 {
        let actions = match (book.actions)(search.rules[0]) {
            Some(actions) => actions,
            None => Seq::empty(),
        };
        let next = PinView { rules: search.rules.drop_first(), actions, ..search };
        lemma_run_pins(book, buckets, next, universe);
        assert(asked =~= asked_ahead(book, buckets, next));
        assert(to_action(search) == PinStepView::Actions(search));
    } else if search.sorted && buckets.len() > 0 {
        let next = PinView { rules: ascending(buckets[0]), ..search };
        lemma_run_pins(book, buckets.drop_first(), next, universe);
        lemma_pins_of_joined_rules(book, uid, ascending(buckets[0]), listed(buckets.drop_first()));
        assert(asked =~= asked_ahead(book, buckets.drop_first(), next));
        assert(to_action(search) == PinStepView::Bucket(search));
    } else {
        reveal_with_fuel(run_pins, 2);
        assert(asked =~= Seq::<PinDoc>::empty());
        assert(search.pins + more =~= search.pins);
        assert(universe.difference(documents(more)) =~= universe);
    }
}

/// A search for pins, whose every read the rule book answers, ends with exactly the pins that
/// are granted to the active rules in their order, and takes the pinned documents out of the
/// universe.
pub proof fn law_search_finds_granted_pins(
    book: RuleBook,
    active: Set<u32>,
    precedence: Option<FieldId>,
    index_uid: Seq<char>,
    universe: Set<u32>,
)
    ensures
        ({
            let pins = granted(
                pins_of_rules(book, index_uid, rule_order(book, active, precedence)),
                universe,
            );
            run_pins(book, Seq::empty(), find_pins(active, precedence, index_uid), universe) == (
                pins,
                universe.difference(documents(pins)),
            )
        }),
{
    let start = PinView {
        index_uid,
        sorted: precedence is Some,
        rules: Seq::empty(),
        actions: Seq::empty(),
        pins: Seq::empty(),
    };
    let order = rule_order(book, active, precedence);
    let asked = pins_of_rules(book, index_uid, order);
    match precedence {
        Some(field) => {
            let buckets = (book.buckets)(field, active);
            lemma_run_pins(book, buckets, start, universe);
            assert(asked_ahead(book, buckets, start) =~= asked);
        },
        None => {
            let search = PinView { rules: order, ..start };
            lemma_run_pins(book, Seq::empty(), search, universe);
            assert(asked_ahead(book, Seq::empty(), search) =~= asked);
        },
    }
    assert(Seq::<PinDoc>::empty() + granted(asked, universe) =~= granted(asked, universe));
}

/// Only documents of the universe are pinned, and none twice.
pub proof fn law_granted_pins_are_of_the_universe(asked: Seq<PinDoc>, universe: Set<u32>)
    ensures
        documents(granted(asked, universe)).subset_of(universe),
        forall|i: int, j: int|
            0 <= i < j < granted(asked, universe).len() ==> (#[trigger] granted(
                asked,
                universe,
            )[i]).doc_id != (#[trigger] granted(asked, universe)[j]).doc_id,
    decreases asked.len(),
{
    if asked.len() > 0 {
        let pin = asked[0];
        if universe.contains(pin.doc_id) {
            let left = universe.remove(pin.doc_id);
            let rest = granted(asked.drop_first(), left);
            law_granted_pins_are_of_the_universe(asked.drop_first(), left);
            lemma_documents_of_first(pin, rest);
            let pins = granted(asked, universe);
            assert forall|i: int, j: int| 0 <= i < j < pins.len() implies (
            #[trigger] pins[i]).doc_id != (#[trigger] pins[j]).doc_id by {
                assert(pins[j] == rest[j - 1]);
                assert(documents(rest).contains(rest[j - 1].doc_id));
                if i > 0 {
                    assert(pins[i] == rest[i - 1]);
                }
            }
        } else {
            law_granted_pins_are_of_the_universe(asked.drop_first(), universe);
        }
    }
}

/// A document of the universe that some pin is asked for is pinned where the first pin asked for
/// it says.
pub proof fn law_first_pin_wins(asked: Seq<PinDoc>, universe: Set<u32>, first: int)
    requires
        0 <= first < asked.len(),
        universe.contains(asked[first].doc_id),
        forall|i: int| 0 <= i < first ==> (#[trigger] asked[i]).doc_id != asked[first].doc_id,
    ensures
        granted(asked, universe).contains(asked[first]),
    decreases asked.len(),
{
    let pin = asked[0];
    let pins = granted(asked, universe);
    if first == 0 {
        assert(pins[0] == pin);
    } else {
        let rest = asked.drop_first();
        assert forall|i: int| 0 <= i < first - 1 implies (#[trigger] rest[i]).doc_id
            != rest[first - 1].doc_id by {
            assert(rest[i] == asked[i + 1]);
        }
        assert(asked[0].doc_id != asked[first].doc_id);
        if universe.contains(pin.doc_id) {
            let left = universe.remove(pin.doc_id);
            law_first_pin_wins(rest, left, first - 1);
            let i = choose|i: int|
                0 <= i < granted(rest, left).len() && granted(rest, left)[i] == asked[first];
            assert(pins[i + 1] == asked[first]);
        } else {
            law_first_pin_wins(rest, universe, first - 1);
        }
    }
}

/// `pins` stand in `asked` at the places `at`, in the same order.
pub open spec fn picked_in_order(asked: Seq<PinDoc>, pins: Seq<PinDoc>, at: Seq<int>) -> bool {
    &&& at.len() == pins.len()
    &&& forall|i: int| 0 <= i < at.len() ==> 0 <= #[trigger] at[i] < asked.len() && asked[at[i]] == pins[i]
    &&& forall|i: int, j: int| 0 <= i < j < at.len() ==> at[i] < at[j]
}

/// The places of the granted pins, moved by one, behind the place of a first pin or not.
spec fn moved(at: Seq<int>, with_first: bool) -> Seq<int> {
    let later = at.map_values(|place: int| place + 1);
    if with_first {
        seq![0int] + later
    } else {
        later
    }
}

/// Every pin that is granted was asked for, and the granted pins keep the order in which they
/// were asked for.
pub proof fn law_granted_pins_keep_their_order(asked: Seq<PinDoc>, universe: Set<u32>)
    ensures
        exists|at: Seq<int>| picked_in_order(asked, granted(asked, universe), at),
    decreases asked.len(),
{
    let pins = granted(asked, universe);
    if asked.len() == 0 {
        assert(picked_in_order(asked, pins, Seq::empty()));
    } else {
        let rest = asked.drop_first();
        let first = universe.contains(asked[0].doc_id);
        let left = if first {
            universe.remove(asked[0].doc_id)
        } else {
            universe
        };
        law_granted_pins_keep_their_order(rest, left);
        let before = choose|at: Seq<int>| picked_in_order(rest, granted(rest, left), at);
        let at = moved(before, first);
        assert forall|i: int| 0 <= i < at.len() implies 0 <= #[trigger] at[i] < asked.len()
            && asked[at[i]] == pins[i] by {
            let k = if first {
                i - 1
            } else {
                i
            };
            if k >= 0 {
                assert(at[i] == before[k] + 1);
                assert(rest[before[k]] == granted(rest, left)[k]);
            }
        }
        assert(picked_in_order(asked, pins, at));
    }
}

/// A rule without actions that can be read gives no pin, and takes none from the other rules.
pub proof fn law_rule_without_actions_is_passed_over(
    book: RuleBook,
    index_uid: Seq<char>,
    before: Seq<RuleId>,
    rule: RuleId,
    after: Seq<RuleId>,
)
    requires
        (book.actions)(rule) is None,
    ensures
        pins_of_rules(book, index_uid, before + seq![rule] + after) == pins_of_rules(
            book,
            index_uid,
            before + after,
        ),
{
    let rest = seq![rule] + after;
    assert(before + seq![rule] + after =~= before + rest);
    assert(rest.drop_first() =~= after);
    lemma_pins_of_joined_rules(book, index_uid, before, rest);
    lemma_pins_of_joined_rules(book, index_uid, before, after);
}

/// Every document of the universe that a pin is asked for is pinned.
proof fn lemma_asked_documents_are_pinned(asked: Seq<PinDoc>, universe: Set<u32>, i: int)
    requires
        0 <= i < asked.len(),
        universe.contains(asked[i].doc_id),
    ensures
        documents(granted(asked, universe)).contains(asked[i].doc_id),
    decreases asked.len(),
{
    let pin = asked[0];
    let rest = asked.drop_first();
    if universe.contains(pin.doc_id) {
        let left = universe.remove(pin.doc_id);
        lemma_documents_of_first(pin, granted(rest, left));
        if asked[i].doc_id != pin.doc_id {
            lemma_asked_documents_are_pinned(rest, left, i - 1);
        }
    } else {
        lemma_asked_documents_are_pinned(rest, universe, i - 1);
    }
}

proof fn lemma_nothing_to_grant(asked: Seq<PinDoc>, universe: Set<u32>)
    requires
        forall|i: int| 0 <= i < asked.len() ==> !universe.contains((#[trigger] asked[i]).doc_id),
    ensures
        granted(asked, universe) == Seq::<PinDoc>::empty(),
    decreases asked.len(),
{
    if asked.len() > 0 {
        let rest = asked.drop_first();
        assert forall|i: int| 0 <= i < rest.len() implies !universe.contains(
            (#[trigger] rest[i]).doc_id,
        ) by {
            assert(rest[i] == asked[i + 1]);
        }
        lemma_nothing_to_grant(rest, universe);
    }
}

/// In what is left of the universe, the same rules pin nothing more.
pub proof fn law_second_search_pins_nothing(asked: Seq<PinDoc>, universe: Set<u32>)
    ensures
        granted(asked, universe.difference(documents(granted(asked, universe)))) == Seq::<
            PinDoc,
        >::empty(),
{
    let left = universe.difference(documents(granted(asked, universe)));
    assert forall|i: int| 0 <= i < asked.len() implies !left.contains(
        (#[trigger] asked[i]).doc_id,
    ) by {
        if universe.contains(asked[i].doc_id) {
            lemma_asked_documents_are_pinned(asked, universe, i);
        }
    }
    lemma_nothing_to_grant(asked, left);
}

/// The buckets share out the candidates by their precedence: the rules of a bucket have the same,
/// and those of the next a larger one.
pub open spec fn sorted_by(
    buckets: Seq<Set<u32>>,
    candidates: Set<u32>,
    precedence: spec_fn(RuleId) -> int,
) -> bool {
    &&& forall|id: u32| #[trigger]
        candidates.contains(id) <==> exists|i: int|
            0 <= i < buckets.len() && (#[trigger] buckets[i]).contains(id)
    &&& forall|i: int, a: u32, b: u32|
        0 <= i < buckets.len() && #[trigger] buckets[i].contains(a) && #[trigger] buckets[i].contains(
            b,
        ) ==> precedence(a) == precedence(b)
    &&& forall|i: int, j: int, a: u32, b: u32|
        0 <= i < j < buckets.len() && #[trigger] buckets[i].contains(a)
            && #[trigger] buckets[j].contains(b) ==> precedence(a) < precedence(b)
}

/// `a` applies before `b`: its precedence is smaller, or the same and its id is smaller.
pub open spec fn applies_before(precedence: spec_fn(RuleId) -> int, a: RuleId, b: RuleId) -> bool {
    precedence(a) < precedence(b) || precedence(a) == precedence(b) && a < b
}

/// The rules of any of the buckets.
spec fn in_buckets(buckets: Seq<Set<u32>>, id: u32) -> bool {
    exists|i: int| 0 <= i < buckets.len() && (#[trigger] buckets[i]).contains(id)
}

proof fn lemma_listed_has_all(buckets: Seq<Set<u32>>, id: u32)
    ensures
        listed(buckets).contains(id) <==> in_buckets(buckets, id),
    decreases buckets.len(),
{
    if buckets.len() > 0 {
        let all = listed(buckets);
        let first = ascending(buckets[0]);
        let later = buckets.drop_first();
        let rest = listed(later);
        law_ascending_lists_all(buckets[0]);
        assert(buckets[0].contains(id) <==> first.contains(id));
        lemma_listed_has_all(later, id);
        if all.contains(id) {
            let k = choose|k: int| 0 <= k < all.len() && all[k] == id;
            if k < first.len() {
                assert(first[k] == id);
                assert(buckets[0].contains(id));
            } else {
                assert(rest[k - first.len()] == id);
                let i = choose|i: int| 0 <= i < later.len() && (#[trigger] later[i]).contains(id);
                assert(buckets[i + 1].contains(id));
            }
        }
        if in_buckets(buckets, id) {
            let i = choose|i: int| 0 <= i < buckets.len() && (#[trigger] buckets[i]).contains(id);
            if i == 0 {
                let k = choose|k: int| 0 <= k < first.len() && first[k] == id;
                assert(all[k] == id);
            } else {
                assert(later[i - 1].contains(id));
                assert(rest.contains(id));
                let k = choose|k: int| 0 <= k < rest.len() && rest[k] == id;
                assert(all[first.len() + k] == rest[k]);
            }
        }
    }
}

/// Sorted buckets list exactly the candidates, each once, by precedence and then by id.
pub proof fn law_buckets_list_rules_by_precedence(
    buckets: Seq<Set<u32>>,
    candidates: Set<u32>,
    precedence: spec_fn(RuleId) -> int,
)
    requires
        sorted_by(buckets, candidates, precedence),
    ensures
        forall|id: u32| #[trigger] listed(buckets).contains(id) <==> candidates.contains(id),
        forall|i: int, j: int|
            0 <= i < j < listed(buckets).len() ==> applies_before(
                precedence,
                #[trigger] listed(buckets)[i],
                #[trigger] listed(buckets)[j],
            ),
        listed(buckets).no_duplicates(),
{
    let all = listed(buckets);
    assert forall|id: u32| #[trigger] all.contains(id) <==> candidates.contains(id) by {
        lemma_listed_has_all(buckets, id);
    }
    lemma_listed_order(buckets, precedence);
    assert forall|i: int, j: int| 0 <= i < all.len() && 0 <= j < all.len() && i != j implies all[i]
        != all[j] by {
        if i < j {
            assert(applies_before(precedence, all[i], all[j]));
        } else {
            assert(applies_before(precedence, all[j], all[i]));
        }
    }
}

proof fn lemma_listed_order(buckets: Seq<Set<u32>>, precedence: spec_fn(RuleId) -> int)
    requires
        forall|i: int, a: u32, b: u32|
            0 <= i < buckets.len() && #[trigger] buckets[i].contains(a)
                && #[trigger] buckets[i].contains(b) ==> precedence(a) == precedence(b),
        forall|i: int, j: int, a: u32, b: u32|
            0 <= i < j < buckets.len() && #[trigger] buckets[i].contains(a)
                && #[trigger] buckets[j].contains(b) ==> precedence(a) < precedence(b),
    ensures
        forall|i: int, j: int|
            0 <= i < j < listed(buckets).len() ==> applies_before(
                precedence,
                #[trigger] listed(buckets)[i],
                #[trigger] listed(buckets)[j],
            ),
    decreases buckets.len(),
{
    if buckets.len() > 0 {
        let all = listed(buckets);
        let first = ascending(buckets[0]);
        let later = buckets.drop_first();
        let rest = listed(later);
        law_ascending_lists_all(buckets[0]);
        assert forall|i: int, a: u32, b: u32|
            0 <= i < later.len() && #[trigger] later[i].contains(a) && #[trigger] later[i].contains(
                b,
            ) implies precedence(a) == precedence(b) by {
            assert(buckets[i + 1].contains(a) && buckets[i + 1].contains(b));
        }
        assert forall|i: int, j: int, a: u32, b: u32|
            0 <= i < j < later.len() && #[trigger] later[i].contains(a)
                && #[trigger] later[j].contains(b) implies precedence(a) < precedence(b) by {
            assert(buckets[i + 1].contains(a) && buckets[j + 1].contains(b));
        }
        lemma_listed_order(later, precedence);
        assert forall|i: int, j: int| 0 <= i < j < all.len() implies applies_before(
            precedence,
            #[trigger] all[i],
            #[trigger] all[j],
        ) by {
            if j < first.len() {
                assert(first.contains(first[i]) && first.contains(first[j]));
                assert(buckets[0].contains(first[i]) && buckets[0].contains(first[j]));
            } else if i < first.len() {
                let b = rest[j - first.len()];
                assert(first.contains(first[i]));
                assert(buckets[0].contains(first[i]));
                assert(rest.contains(b));
                lemma_listed_has_all(later, b);
                let k = choose|k: int| 0 <= k < later.len() && (#[trigger] later[k]).contains(b);
                assert(buckets[k + 1].contains(b));
            } else {
                assert(all[i] == rest[i - first.len()] && all[j] == rest[j - first.len()]);
            }
        }
    }
}

/// An action that names another index than the one that is searched selects no document there, and
/// asks for no pin. One that names the searched index, or none, selects exactly the document with
/// the id of its selector; where the index has that document, it asks to pin it at its position,
/// and else for nothing.
pub proof fn law_action_is_about_its_own_index(
    book: RuleBook,
    index_uid: Seq<char>,
    action: RuleAction,
)
    ensures
        action.selector.index_uid is Some && action.selector.index_uid->0@ != index_uid ==> {
            &&& action@.target(index_uid) is None
            &&& pin_of(book, index_uid, action@) is None
        },
        action.selector.index_uid is None || action.selector.index_uid->0@ == index_uid ==> {
            &&& action.selector.id is None ==> action@.target(index_uid) is None && pin_of(
                book,
                index_uid,
                action@,
            ) is None
            &&& action.selector.id is Some ==> {
                let document = (book.document)(action.selector.id->0@);
                &&& action@.target(index_uid) == Some(action.selector.id->0@)
                &&& document is None ==> pin_of(book, index_uid, action@) is None
                &&& document is Some ==> {
                    let pin = pin_of(book, index_uid, action@);
                    &&& pin is Some
                    &&& pin->0.doc_id == document->0
                    &&& action.action == (DynamicSearchRuleAction::Pin { position: pin->0.pos })
                }
            }
        },
{
}

/// Two actions that differ only in the index that they name, both naming another one than is
/// searched, select the same: nothing. Two that name the searched index and none select the same.
pub proof fn law_named_index_only_matters_by_equality(
    index_uid: Seq<char>,
    a: RuleAction,
    b: RuleAction,
)
    requires
        a.selector.id == b.selector.id,
        a.action == b.action,
        (a.selector.index_uid is Some && a.selector.index_uid->0@ != index_uid) == (
        b.selector.index_uid is Some && b.selector.index_uid->0@ != index_uid),
    ensures
        a@.target(index_uid) == b@.target(index_uid),
{
}

} // verus!

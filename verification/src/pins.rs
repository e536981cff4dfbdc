use crate::bitmap::{ids, into_ascending, lemma_listing_unique, lists_ascending};
use crate::fields::{FieldId, RuleFields};
use crate::text::optional_text;
use roaring::RoaringBitmap;
use vstd::prelude::*;

verus! {

/// The number by which the rules' index knows a rule.
pub type RuleId = u32;

/// The number by which an index knows a document.
pub type DocumentId = u32;

/// The document that an action is about.
pub struct Selector {
    /// The index of the document; any index where it is not given.
    pub index_uid: Option<String>,
    /// The id of the document, as its owner wrote it.
    pub id: Option<String>,
}

/// What an action does to its document.
pub enum DynamicSearchRuleAction {
    /// It puts the document at a position of the results.
    Pin { position: u32 },
}

/// An action of a rule.
pub struct RuleAction {
    /// Target document selector for this action.
    pub selector: Selector,
    /// Action payload to apply to the selected document.
    pub action: DynamicSearchRuleAction,
}

/// A document with a fixed position in the results.
pub struct PinDoc {
    pub pos: u32,
    pub doc_id: DocumentId,
}

/// What an action says.
pub struct ActionView {
    pub index_uid: Option<Seq<char>>,
    pub id: Option<Seq<char>>,
    pub position: u32,
}

impl View for RuleAction {
    type V = ActionView;

    open spec fn view(&self) -> ActionView {
        ActionView {
            index_uid: optional_text(self.selector.index_uid),
            id: optional_text(self.selector.id),
            position: match self.action {
                DynamicSearchRuleAction::Pin { position } => position,
            },
        }
    }
}

/// What the actions of a list say.
pub open spec fn action_views(actions: Seq<RuleAction>) -> Seq<ActionView> {
    actions.map_values(|action: RuleAction| action@)
}

impl ActionView {
    /// The id of the document that the action is about in the index `index_uid`. There is none
    /// where the action is about another index or selects no document.
    pub open spec fn target(self, index_uid: Seq<char>) -> Option<Seq<char>> {
        if self.index_uid is Some && self.index_uid->0 != index_uid {
            None
        } else {
            self.id
        }
    }
}

impl RuleAction {
    /// The id of the document that the action is about in the index `index_uid`, if any.
    pub fn active_document(&self, index_uid: &String) -> (id: Option<&String>)
        ensures
            match id {
                Some(id) => self@.target(index_uid@) == Some(id@),
                None => self@.target(index_uid@) is None,
            },
            self.selector.index_uid is Some && self.selector.index_uid->0@ != index_uid@
                ==> id is None,
            self.selector.index_uid is None || self.selector.index_uid->0@ == index_uid@ ==> {
                &&& id is Some <==> self.selector.id is Some
                &&& id is Some ==> id->0@ == self.selector.id->0@
            },
    {
        match &self.selector.index_uid {
            Some(own) => {
                if !(*own == *index_uid) {
                    return None;
                }
            },
            None => {},
        }
        self.selector.id.as_ref()
    }
}

/// The ids of a set in ascending order.
pub open spec fn ascending(set: Set<u32>) -> Seq<u32> {
    choose|listing: Seq<u32>| lists_ascending(listing, set)
}

/// The ids of a set below `bound`, in ascending order.
spec fn ascending_below(set: Set<u32>, bound: nat) -> Seq<u32>
    decreases bound,
{
    if bound == 0 {
        Seq::empty()
    } else if set.contains((bound - 1) as u32) {
        ascending_below(set, (bound - 1) as nat).push((bound - 1) as u32)
    } else {
        ascending_below(set, (bound - 1) as nat)
    }
}

proof fn lemma_ascending_below(set: Set<u32>, bound: nat)
    requires
        bound <= u32::MAX + 1,
    ensures
        lists_ascending(ascending_below(set, bound), set.filter(|id: u32| id < bound)),
    decreases bound,
{
    let listing = ascending_below(set, bound);
    let below = set.filter(|id: u32| id < bound);
    if bound > 0 {
        let last = (bound - 1) as u32;
        let before = ascending_below(set, (bound - 1) as nat);
        let less = set.filter(|id: u32| id < bound - 1);
        lemma_ascending_below(set, (bound - 1) as nat);
        assert forall|i: int| 0 <= i < before.len() implies #[trigger] before[i] < last by {
            assert(before.contains(before[i]));
            assert(less.contains(before[i]));
        }
        assert forall|id: u32| #[trigger] below.contains(id) <==> listing.contains(id) by {
            if below.contains(id) {
                if id == last {
                    assert(listing[listing.len() - 1] == id);
                } else {
                    assert(less.contains(id));
                    let i = choose|i: int| 0 <= i < before.len() && before[i] == id;
                    assert(listing[i] == id);
                }
            }
            if listing.contains(id) {
                let i = choose|i: int| 0 <= i < listing.len() && listing[i] == id;
                if i < before.len() {
                    assert(before.contains(id));
                    assert(less.contains(id));
                }
            }
        }
    }
}

/// Every set of ids has an ascending listing.
pub proof fn law_ascending_lists_all(set: Set<u32>)
    ensures
        lists_ascending(ascending(set), set),
{
    lemma_ascending_below(set, (u32::MAX + 1) as nat);
    assert(set.filter(|id: u32| id < u32::MAX + 1) =~= set);
}

fn list_ascending(bitmap: RoaringBitmap) -> (listing: Vec<u32>)
    ensures
        listing@ == ascending(ids(bitmap)),
        lists_ascending(listing@, ids(bitmap)),
{
    let listing = into_ascending(bitmap);
    proof {
        lemma_listing_unique(listing@, ascending(ids(bitmap)), ids(bitmap));
    }
    listing
}

/// A search for pins: the rules and actions that are ahead of it, and the pins so far.
pub struct PinView {
    /// The index that is searched.
    pub index_uid: Seq<char>,
    /// More rules come in the order of their precedence.
    pub sorted: bool,
    /// The rules ahead.
    pub rules: Seq<RuleId>,
    /// The actions ahead, out of the rule before those.
    pub actions: Seq<ActionView>,
    /// The pins so far.
    pub pins: Seq<PinDoc>,
}

/// How a search for pins goes on.
pub enum PinStepView {
    /// It waits for the candidates to be sorted by the values of a field, in buckets.
    Sort { field: FieldId, candidates: Set<u32>, search: PinView },
    /// It waits for the next bucket.
    Bucket(PinView),
    /// It waits for the actions of the first rule ahead.
    Actions(PinView),
    /// It waits for the document of the first action ahead.
    Document(PinView),
    /// These are the pins.
    Done(Seq<PinDoc>),
}

/// Goes on to the next action with a document, and after the last to the next rule.
pub open spec fn to_action(search: PinView) -> PinStepView
    decreases search.actions.len(),
{
    if search.actions.len() == 0 {
        to_rule(search)
    } else if search.actions[0].target(search.index_uid) is Some {
        PinStepView::Document(search)
    } else {
        to_action(PinView { actions: search.actions.drop_first(), ..search })
    }
}

/// Goes on to the next rule, and after the last to the next bucket, where there can be one.
pub open spec fn to_rule(search: PinView) -> PinStepView {
    if search.rules.len() > 0 {
        PinStepView::Actions(search)
    } else if search.sorted {
        PinStepView::Bucket(search)
    } else {
        PinStepView::Done(search.pins)
    }
}

/// Starts a search for the pins of the active rules: by their precedence, where rules have one,
/// else by their ids.
pub open spec fn find_pins(active: Set<u32>, precedence: Option<FieldId>, index_uid: Seq<char>) -> PinStepView {
    let search = PinView {
        index_uid,
        sorted: precedence is Some,
        rules: Seq::empty(),
        actions: Seq::empty(),
        pins: Seq::empty(),
    };
    match precedence {
        Some(field) => PinStepView::Sort { field, candidates: active, search },
        None => to_rule(PinView { rules: ascending(active), ..search }),
    }
}

impl PinView {
    /// How the search goes on after it has got a bucket, or none.
    pub open spec fn after_bucket(self, bucket: Option<Set<u32>>) -> PinStepView {
        match bucket {
            Some(rules) => to_rule(PinView { rules: ascending(rules), ..self }),
            None => PinStepView::Done(self.pins),
        }
    }

    /// How the search goes on after it has got the actions of a rule, or none.
    pub open spec fn after_actions(self, actions: Option<Seq<ActionView>>) -> PinStepView {
        to_action(
            PinView {
                rules: self.rules.drop_first(),
                actions: match actions {
                    Some(actions) => actions,
                    None => Seq::empty(),
                },
                ..self
            },
        )
    }

    /// How the search goes on after it has got the document of an action, or none. Only a
    /// document of the universe is pinned.
    pub open spec fn after_document(
        self,
        document: Option<DocumentId>,
        universe: Set<u32>,
    ) -> PinStepView {
        to_action(
            PinView {
                actions: self.actions.drop_first(),
                pins: match document {
                    Some(doc_id) => if universe.contains(doc_id) {
                        self.pins.push(PinDoc { pos: self.actions[0].position, doc_id })
                    } else {
                        self.pins
                    },
                    None => self.pins,
                },
                ..self
            },
        )
    }
}

/// The universe without a document that was looked at.
pub open spec fn without(universe: Set<u32>, document: Option<DocumentId>) -> Set<u32> {
    match document {
        Some(doc_id) => universe.remove(doc_id),
        None => universe,
    }
}

/// A search for pins that waits for a bucket of rules.
pub struct AwaitBucket {
    index_uid: String,
    pins: Vec<PinDoc>,
}

/// A search for pins that waits for the actions of a rule.
pub struct AwaitActions {
    index_uid: String,
    sorted: bool,
    rules: Vec<RuleId>,
    at: usize,
    pins: Vec<PinDoc>,
}

/// A search for pins that waits for the document of an action.
pub struct AwaitDocument {
    index_uid: String,
    sorted: bool,
    rules: Vec<RuleId>,
    at: usize,
    actions: Vec<RuleAction>,
    action: usize,
    pins: Vec<PinDoc>,
}

/// How a search for pins goes on.
pub enum PinStep {
    /// It waits for `candidates` to be sorted by the values of `field`, in buckets from the
    /// smallest value to the largest, and then for the first of them.
    Sort { field: FieldId, candidates: RoaringBitmap, search: AwaitBucket },
    /// It waits for the next bucket.
    Bucket(AwaitBucket),
    /// It waits for the actions of a rule.
    Actions(AwaitActions),
    /// It waits for the document of an action.
    Document(AwaitDocument),
    /// These are the pins.
    Done(Vec<PinDoc>),
}

impl View for AwaitBucket {
    type V = PinView;

    closed spec fn view(&self) -> PinView {
        PinView {
            index_uid: self.index_uid@,
            sorted: true,
            rules: Seq::empty(),
            actions: Seq::empty(),
            pins: self.pins@,
        }
    }
}

impl View for AwaitActions {
    type V = PinView;

    closed spec fn view(&self) -> PinView {
        PinView {
            index_uid: self.index_uid@,
            sorted: self.sorted,
            rules: self.rules@.skip(self.at as int),
            actions: Seq::empty(),
            pins: self.pins@,
        }
    }
}

impl View for AwaitDocument {
    type V = PinView;

    closed spec fn view(&self) -> PinView {
        PinView {
            index_uid: self.index_uid@,
            sorted: self.sorted,
            rules: self.rules@.skip(self.at as int),
            actions: action_views(self.actions@).skip(self.action as int),
            pins: self.pins@,
        }
    }
}

impl View for PinStep {
    type V = PinStepView;

    open spec fn view(&self) -> PinStepView {
        match *self {
            PinStep::Sort { field, candidates, search } => PinStepView::Sort {
                field,
                candidates: ids(candidates),
                search: search@,
            },
            PinStep::Bucket(search) => PinStepView::Bucket(search@),
            PinStep::Actions(search) => PinStepView::Actions(search@),
            PinStep::Document(search) => PinStepView::Document(search@),
            PinStep::Done(pins) => PinStepView::Done(pins@),
        }
    }
}

/// Goes on to the next action with a document at `action` or after it.
fn go_to_action(
    index_uid: String,
    sorted: bool,
    rules: Vec<RuleId>,
    at: usize,
    actions: Vec<RuleAction>,
    action: usize,
    pins: Vec<PinDoc>,
) -> (step: PinStep)
    requires
        at <= rules.len(),
        action <= actions.len(),
    ensures
        step@ == to_action(
            PinView {
                index_uid: index_uid@,
                sorted,
                rules: rules@.skip(at as int),
                actions: action_views(actions@).skip(action as int),
                pins: pins@,
            },
        ),
{
    let ghost all = action_views(actions@);
    let ghost start = PinView {
        index_uid: index_uid@,
        sorted,
        rules: rules@.skip(at as int),
        actions: all.skip(action as int),
        pins: pins@,
    };
    let mut next: usize = action;
    while next < actions.len()
        invariant
            at <= rules.len(),
            next <= actions.len(),
            all == action_views(actions@),
            start == (PinView {
                index_uid: index_uid@,
                sorted,
                rules: rules@.skip(at as int),
                actions: all.skip(action as int),
                pins: pins@,
            }),
            to_action(start) == to_action(PinView { actions: all.skip(next as int), ..start }),
        decreases actions.len() - next,
    {
        assert(all.skip(next as int)[0] == actions[next as int]@);
        if actions[next].active_document(&index_uid).is_some() {
            return PinStep::Document(
                AwaitDocument { index_uid, sorted, rules, at, actions, action: next, pins },
            );
        }
        assert(all.skip(next as int).drop_first() =~= all.skip(next + 1));
        next = next + 1;
    }
    assert(all.skip(next as int) =~= Seq::<ActionView>::empty());
    go_to_rule(index_uid, sorted, rules, at, pins)
}

/// Goes on to the rule at `at`.
fn go_to_rule(index_uid: String, sorted: bool, rules: Vec<RuleId>, at: usize, pins: Vec<PinDoc>) -> (step:
    PinStep)
    requires
        at <= rules.len(),
    ensures
        step@ == to_rule(
            PinView {
                index_uid: index_uid@,
                sorted,
                rules: rules@.skip(at as int),
                actions: Seq::empty(),
                pins: pins@,
            },
        ),
{
    if at < rules.len() {
        PinStep::Actions(AwaitActions { index_uid, sorted, rules, at, pins })
    } else {
        assert(rules@.skip(at as int) =~= Seq::<RuleId>::empty());
        if sorted {
            PinStep::Bucket(AwaitBucket { index_uid, pins })
        } else {
            PinStep::Done(pins)
        }
    }
}

/// Starts a search for the pins of the active rules: by their precedence, where rules have one,
/// else by their ids.
pub fn rule_ids_sorted_by_precedence(active: RoaringBitmap, fields: &RuleFields, index_uid: String) -> (step:
    PinStep)
    ensures
        step@ == find_pins(ids(active), fields.precedence, index_uid@),
{
    let pins: Vec<PinDoc> = Vec::new();
    match fields.precedence {
        Some(field) => {
            PinStep::Sort { field, candidates: active, search: AwaitBucket { index_uid, pins } }
        },
        None => {
            let rules = list_ascending(active);
            assert(rules@.skip(0) =~= rules@);
            go_to_rule(index_uid, false, rules, 0, pins)
        },
    }
}

impl AwaitBucket {
    /// Goes on with the next bucket of rules, or `None` after the last.
    pub fn resume(self, bucket: Option<RoaringBitmap>) -> (step: PinStep)
        ensures
            step@ == self@.after_bucket(
                match bucket {
                    Some(rules) => Some(ids(rules)),
                    None => None,
                },
            ),
    {
        match bucket {
            Some(bucket) => {
                let rules = list_ascending(bucket);
                assert(rules@.skip(0) =~= rules@);
                go_to_rule(self.index_uid, true, rules, 0, self.pins)
            },
            None => PinStep::Done(self.pins),
        }
    }
}

/// What was found of the actions of a rule.
pub enum RuleRead {
    /// The index has no rule under the number.
    Gone,
    /// The rule has no actions.
    WithoutActions,
    /// The rule has actions that cannot be read.
    Malformed,
    /// These are the actions of the rule.
    Actions(Vec<RuleAction>),
}

impl RuleRead {
    /// The actions to go on with. A rule that is gone, has no actions, or has some that cannot be
    /// read is passed over, as one without actions.
    pub fn actions(self) -> (actions: Option<Vec<RuleAction>>)
        ensures
            actions == match self {
                RuleRead::Actions(actions) => Some(actions),
                RuleRead::Gone | RuleRead::WithoutActions | RuleRead::Malformed => None,
            },
    {
        match self {
            RuleRead::Actions(actions) => Some(actions),
            RuleRead::Gone | RuleRead::WithoutActions | RuleRead::Malformed => None,
        }
    }
}

impl AwaitActions {
    #[verifier::type_invariant]
    spec fn well_formed(&self) -> bool {
        self.at < self.rules.len()
    }

    /// The rule whose actions are waited for.
    pub fn rule(&self) -> (rule: RuleId)
        ensures
            self@.rules.len() > 0,
            rule == self@.rules[0],
    {
        proof {
            use_type_invariant(self);
        }
        self.rules[self.at]
    }

    /// Goes on with the actions of the rule, as `RuleRead::actions` gives them.
    pub fn resume(self, actions: Option<Vec<RuleAction>>) -> (step: PinStep)
        ensures
            step@ == self@.after_actions(
                match actions {
                    Some(actions) => Some(action_views(actions@)),
                    None => None,
                },
            ),
    {
        proof {
            use_type_invariant(&self);
            assert(self.rules@.skip(self.at as int).drop_first() =~= self.rules@.skip(
                self.at + 1,
            ));
        }
        match actions {
            Some(actions) => {
                assert(action_views(actions@).skip(0) =~= action_views(actions@));
                go_to_action(
                    self.index_uid,
                    self.sorted,
                    self.rules,
                    self.at + 1,
                    actions,
                    0,
                    self.pins,
                )
            },
            None => go_to_rule(self.index_uid, self.sorted, self.rules, self.at + 1, self.pins),
        }
    }
}

impl AwaitDocument {
    #[verifier::type_invariant]
    spec fn well_formed(&self) -> bool {
        &&& self.at <= self.rules.len()
        &&& self.action < self.actions.len()
        &&& self.actions[self.action as int]@.target(self.index_uid@) is Some
    }

    /// The id of the document that is waited for.
    pub fn document(&self) -> (id: &String)
        ensures
            self@.actions.len() > 0,
            self@.actions[0].target(self@.index_uid) == Some(id@),
    {
        proof {
            use_type_invariant(self);
            assert(action_views(self.actions@).skip(self.action as int)[0]
                == self.actions[self.action as int]@);
        }
        match self.actions[self.action].active_document(&self.index_uid) {
            Some(id) => id,
            None => {
                assert(false);
                &self.index_uid
            },
        }
    }

    /// Goes on with the document; `None` where the index has none under the id. A document that
    /// is pinned leaves the universe.
    pub fn resume(self, document: Option<DocumentId>, universe: &mut RoaringBitmap) -> (step:
        PinStep)
        ensures
            step@ == self@.after_document(document, ids(*old(universe))),
            ids(*final(universe)) == without(ids(*old(universe)), document),
    {
        proof {
            use_type_invariant(&self);
            let all = action_views(self.actions@);
            assert(all.skip(self.action as int)[0] == self.actions[self.action as int]@);
            assert(all.skip(self.action as int).drop_first() =~= all.skip(self.action + 1));
        }
        let mut pins = self.pins;
        match document {
            Some(doc_id) => {
                if universe.remove(doc_id) {
                    match self.actions[self.action].action {
                        DynamicSearchRuleAction::Pin { position } => {
                            pins.push(PinDoc { pos: position, doc_id });
                        },
                    }
                }
            },
            None => {},
        }
        go_to_action(
            self.index_uid,
            self.sorted,
            self.rules,
            self.at,
            self.actions,
            self.action + 1,
            pins,
        )
    }
}

} // verus!

use crate::rules::{lists_names, DynamicSearchRule, RuleUid, RuleView, RulesByUid};
use crate::scheduler::{
    updated, DsrUpdate, DynamicSearchRuleUpdateRequest, FeatureNotEnabledError, RoFeatures,
    TaskRegistration, UpdateView,
};
use crate::text::text_precedes;
use vstd::prelude::*;
use vstd::string::*;

verus! {

/// The routes under `/dynamic-search-rules`.
pub struct DynamicSearchRulesApi;

/// How many items a page has at most, where a request does not say.
pub const PAGINATION_DEFAULT_LIMIT: usize = 20;

/// What needs the feature, as an error calls it.
pub const USING_THE_ROUTES: &'static str = "Using the `/dynamic-search-rules` routes";

/// Patterns of names.
pub struct AttributePatterns {
    pub patterns: Vec<String>,
}

/// What patterns say of a name.
#[derive(Clone, Copy, PartialEq, Eq, Structural, Debug)]
pub enum PatternMatch {
    /// They match something below the name.
    Parent,
    /// They match the name.
    Match,
    /// They match neither.
    NoMatch,
}

/// Which rules to list.
pub struct ListRulesFilter {
    /// Only include rules whose names match these patterns (e.g. `["black-friday", "promo*"]`).
    pub attribute_patterns: Option<AttributePatterns>,
    /// Only include rules that are active (true) or not active (false).
    pub active: Option<bool>,
}

/// A request to list rules.
pub struct ListRules {
    /// Number of rules to skip. Defaults to 0.
    pub offset: usize,
    /// Maximum number of rules to return. Default to 20.
    pub limit: usize,
    /// Optional filter to restrict which rules are returned (e.g. by attribute patterns or by
    /// properties like if the rule is active or not)
    pub filter: Option<ListRulesFilter>,
}

impl Default for ListRules {
    fn default() -> (request: Self)
        ensures
            request.offset == 0,
            request.limit == 20,
            request.filter is None,
    {
        ListRules { offset: 0, limit: PAGINATION_DEFAULT_LIMIT, filter: None }
    }
}

/// A rule is listed: its name matches the patterns, and it is active or not as asked.
pub open spec fn passes(
    filter: Option<ListRulesFilter>,
    rule: RuleView,
    name_match: PatternMatch,
) -> bool {
    match filter {
        Some(filter) => {
            &&& filter.attribute_patterns is Some ==> name_match == PatternMatch::Match
            &&& filter.active is Some ==> filter.active->0 == rule.active
        },
        None => true,
    }
}

impl ListRules {
    /// Tells whether a rule is listed. `name_match` is what the patterns of the filter say of its
    /// name; without patterns it is not looked at.
    pub fn apply_filter(&self, rule: &DynamicSearchRule, name_match: PatternMatch) -> (listed: bool)
        ensures
            listed == passes(self.filter, rule@, name_match),
            listed && self.filter is Some && self.filter->0.active is Some ==> rule.active
                == self.filter->0.active->0,
            listed && self.filter is Some && self.filter->0.attribute_patterns is Some
                ==> name_match == PatternMatch::Match,
            self.filter is None ==> listed,
            self.filter is Some && (self.filter->0.active is Some ==> rule.active
                == self.filter->0.active->0) && (self.filter->0.attribute_patterns is Some
                ==> name_match == PatternMatch::Match) ==> listed,
    {
        match &self.filter {
            Some(filter) => {
                if filter.attribute_patterns.is_some() {
                    match name_match {
                        PatternMatch::NoMatch | PatternMatch::Parent => {
                            return false;
                        },
                        PatternMatch::Match => {},
                    }
                }
                match filter.active {
                    Some(active) => {
                        if active != rule.active {
                            return false;
                        }
                    },
                    None => {},
                }
                true
            },
            None => true,
        }
    }
}

/// A page of a list, and how long the list is.
pub struct PaginationView<'a> {
    pub results: Vec<&'a DynamicSearchRule>,
    pub offset: usize,
    pub limit: usize,
    pub total: usize,
}

/// What the patterns say of the name at a place; a name of which nothing is said is not matched.
pub open spec fn verdict(matches: Seq<PatternMatch>, place: int) -> PatternMatch {
    if 0 <= place < matches.len() {
        matches[place]
    } else {
        PatternMatch::NoMatch
    }
}

/// The rules under `names` that a filter lists, in the order of the names. `matches` has what its
/// patterns say of each.
pub open spec fn listed_rules(
    names: Seq<Seq<char>>,
    rules: Map<Seq<char>, RuleView>,
    matches: Seq<PatternMatch>,
    filter: Option<ListRulesFilter>,
) -> Seq<RuleView>
    decreases names.len(),
{
    if names.len() == 0 {
        Seq::empty()
    } else {
        let before = listed_rules(names.drop_last(), rules, matches, filter);
        let last = rules[names.last()];
        if passes(filter, last, verdict(matches, names.len() - 1)) {
            before.push(last)
        } else {
            before
        }
    }
}

/// What the rules of a list say.
pub open spec fn rule_views(rules: Seq<&DynamicSearchRule>) -> Seq<RuleView> {
    rules.map_values(|rule: &DynamicSearchRule| rule@)
}

/// The items of a list from `offset` on, at most `limit` of them.
pub open spec fn page<A>(items: Seq<A>, offset: nat, limit: nat) -> Seq<A> {
    let from = if offset < items.len() {
        offset
    } else {
        items.len()
    };
    let to = if offset + limit < items.len() {
        offset + limit
    } else {
        items.len()
    };
    items.subrange(from as int, to as int)
}

/// Lists the rules that pass the filter of a request, in the order of their names, a page of
/// them. `matches` has what the patterns of the filter say of each name, in that order.
pub fn list_rules<'a>(
    features: &RoFeatures,
    rules: &'a RulesByUid,
    matches: &Vec<PatternMatch>,
    request: &ListRules,
) -> (result: Result<PaginationView<'a>, FeatureNotEnabledError>)
    ensures
        match result {
            Ok(view) => {
                let listed = listed_rules(rules.names(), rules@, matches@, request.filter);
                &&& features.dynamic_search_rules
                &&& lists_names(rules.names(), rules@)
                &&& forall|i: int, j: int|
                    0 <= i < j < rules.names().len() ==> text_precedes(
                        #[trigger] rules.names()[i],
                        #[trigger] rules.names()[j],
                    )
                &&& forall|name: Seq<char>| #[trigger]
                    rules@.contains_key(name) <==> rules.names().contains(name)
                &&& rule_views(view.results@) == page(
                    listed,
                    request.offset as nat,
                    request.limit as nat,
                )
                &&& view.offset == request.offset
                &&& view.limit == request.limit
                &&& view.total == listed.len()
                &&& forall|k: int|
                    0 <= k < view.results@.len() && request.filter is Some
                        && request.filter->0.active is Some ==> (
                    #[trigger] view.results@[k]).active == request.filter->0.active->0
                &&& exists|at: Seq<int>|
                    {
                        &&& #[trigger] at.len() == view.total
                        &&& forall|k: int, l: int| 0 <= k < l < at.len() ==> at[k] < at[l]
                        &&& forall|i: int| #[trigger]
                            at.contains(i) <==> 0 <= i < rules.names().len() && (request.filter is Some ==> {
                                &&& request.filter->0.active is Some ==> rules@[rules.names()[i]].active
                                    == request.filter->0.active->0
                                &&& request.filter->0.attribute_patterns is Some ==> i < matches@.len()
                                    && matches@[i] == PatternMatch::Match
                            })
                        &&& view.results@.len() <= view.limit
                        &&& view.offset + view.results@.len() <= at.len() || view.results@.len() == 0
                        &&& view.results@.len() == view.limit || view.offset + view.results@.len()
                            >= at.len()
                        &&& forall|k: int|
                            0 <= k < view.results@.len() ==> (#[trigger] view.results@[k])@
                                == rules@[rules.names()[at[view.offset + k]]]
                    }
            },
            Err(error) => !features.dynamic_search_rules && error.disabled_action@
                == USING_THE_ROUTES@,
        },
{
    match features.check_dynamic_search_rules(USING_THE_ROUTES) {
        Ok(_) => {},
        Err(error) => {
            return Err(error);
        },
    }
    let ghost names = rules.names();
    let len: usize = rules.len();
    let mut results: Vec<&'a DynamicSearchRule> = Vec::new();
    let mut total: usize = 0;
    let mut place: usize = 0;
    while place < len
        invariant
            place <= len,
            len == names.len(),
            names == rules.names(),
            total <= place,
            total == listed_rules(
                names.take(place as int),
                rules@,
                matches@,
                request.filter,
            ).len(),
            rule_views(results@) == page(
                listed_rules(names.take(place as int), rules@, matches@, request.filter),
                request.offset as nat,
                request.limit as nat,
            ),
        decreases len - place,
    {
        let ghost before = listed_rules(
            names.take(place as int),
            rules@,
            matches@,
            request.filter,
        );
        let ghost after = listed_rules(names.take(place + 1), rules@, matches@, request.filter);
        proof {
            assert(names.take(place + 1).drop_last() =~= names.take(place as int));
            assert(names.take(place + 1).last() == names[place as int]);
        }
        let name_match = if place < matches.len() {
            matches[place]
        } else {
            PatternMatch::NoMatch
        };
        match rules.entry(place) {
            Some((_, rule)) => {
                if request.apply_filter(rule, name_match) {
                    assert(after == before.push(rule@));
                    let ghost shown = results@;
                    if total >= request.offset && results.len() < request.limit {
                        results.push(rule);
                        assert(rule_views(results@) =~= rule_views(shown).push(rule@));
                    }
                    assert(rule_views(shown).len() == shown.len());
                    assert(rule_views(results@) =~= page(
                        after,
                        request.offset as nat,
                        request.limit as nat,
                    ));
                    total = total + 1;
                }
            },
            None => {
                assert(false);
            },
        }
        place = place + 1;
    }
    assert(names.take(len as int) =~= names);
    proof {
        let listed = listed_rules(names, rules@, matches@, request.filter);
        let at = law_listing_has_what_the_filter_lets_through(
            names,
            rules@,
            matches@,
            request.filter,
        );
        assert(at.len() == total);
        assert(rule_views(results@).len() == results@.len());
        assert forall|k: int| 0 <= k < results@.len() implies (#[trigger] results@[k])@
            == rules@[names[at[request.offset + k]]] by {
            assert(rule_views(results@)[k] == results@[k]@);
            assert(listed[request.offset + k] == results@[k]@);
        }
        assert forall|k: int|
            0 <= k < results@.len() && request.filter is Some && request.filter->0.active is Some implies (
        #[trigger] results@[k]).active == request.filter->0.active->0 by {
            assert(results@[k]@ == rules@[names[at[request.offset + k]]]);
            assert(at.contains(at[request.offset + k]));
        }
    }
    Ok(PaginationView { results, offset: request.offset, limit: request.limit, total })
}

/// A code that tells an error from others.
#[derive(Clone, Copy, PartialEq, Eq, Structural, Debug)]
pub enum Code {
    DynamicSearchRuleNotFound,
}

impl Code {
    /// The code as a client reads it.
    pub fn name(&self) -> (name: &'static str)
        ensures
            name@ == "dynamic_search_rule_not_found"@,
    {
        match self {
            Code::DynamicSearchRuleNotFound => "dynamic_search_rule_not_found",
        }
    }

    /// What kind of error it is.
    pub fn type_(&self) -> (type_: &'static str)
        ensures
            type_@ == "invalid_request"@,
    {
        match self {
            Code::DynamicSearchRuleNotFound => "invalid_request",
        }
    }

    /// The HTTP status of a response with the error.
    pub fn status(&self) -> (status: u16)
        ensures
            status == 404,
    {
        match self {
            Code::DynamicSearchRuleNotFound => 404,
        }
    }

    /// Where the error is explained.
    pub fn link(&self) -> (link: String)
        ensures
            link@ == "https://docs.meilisearch.com/errors#"@ + "dynamic_search_rule_not_found"@,
    {
        "https://docs.meilisearch.com/errors#".to_owned().concat(self.name())
    }
}

/// An error of the routes.
pub enum DynamicSearchRulesError {
    NotFound(RuleUid),
}

impl DynamicSearchRulesError {
    pub fn error_code(&self) -> (code: Code)
        ensures
            match self {
                DynamicSearchRulesError::NotFound(_) => code == Code::DynamicSearchRuleNotFound,
            },
    {
        match self {
            DynamicSearchRulesError::NotFound(_) => Code::DynamicSearchRuleNotFound,
        }
    }

    /// The error in words.
    pub fn message(&self) -> (message: String)
        ensures
            match self {
                DynamicSearchRulesError::NotFound(uid) => message@ == "Dynamic search rule `"@
                    + uid@ + "` not found."@,
            },
    {
        match self {
            DynamicSearchRulesError::NotFound(uid) => "Dynamic search rule `".to_owned().concat(
                uid.value.as_str(),
            ).concat("` not found."),
        }
    }
}

/// A request for a rule that may be looked up.
pub struct GetRule {
    uid: RuleUid,
}

impl View for GetRule {
    type V = RuleUid;

    closed spec fn view(&self) -> RuleUid {
        self.uid
    }
}

/// Asks for a rule.
pub fn get_rule(features: &RoFeatures, uid: RuleUid) -> (result: Result<
    GetRule,
    FeatureNotEnabledError,
>)
    ensures
        match result {
            Ok(request) => features.dynamic_search_rules && request@ == uid,
            Err(error) => !features.dynamic_search_rules && error.disabled_action@
                == USING_THE_ROUTES@,
        },
{
    match features.check_dynamic_search_rules(USING_THE_ROUTES) {
        Ok(_) => Ok(GetRule { uid }),
        Err(error) => Err(error),
    }
}

impl GetRule {
    /// The rule to look up.
    pub fn uid(&self) -> (uid: &RuleUid)
        ensures
            *uid == self@,
    {
        &self.uid
    }

    /// The rule that was found, or the error that there is none.
    pub fn respond<D>(self, rule: Option<D>) -> (result: Result<D, DynamicSearchRulesError>)
        ensures
            result == match rule {
                Some(rule) => Ok::<D, DynamicSearchRulesError>(rule),
                None => Err(DynamicSearchRulesError::NotFound(self@)),
            },
    {
        match rule {
            Some(rule) => Ok(rule),
            None => Err(DynamicSearchRulesError::NotFound(self.uid)),
        }
    }
}

/// What is told of a rule that was created or updated.
pub struct UpdateDynamicSearchRuleAnalytics;

impl UpdateDynamicSearchRuleAnalytics {
    pub fn event_name(&self) -> (name: &'static str)
        ensures
            name@ == "Dynamic Search Rules Created or Updated"@,
    {
        "Dynamic Search Rules Created or Updated"
    }

    /// Two events count as one.
    pub fn aggregate(self, _new: Self) -> (event: Self)
        ensures
            event == self,
    {
        self
    }
}

/// What is told of a rule that was deleted.
pub struct DeleteDynamicSearchRuleAnalytics;

impl DeleteDynamicSearchRuleAnalytics {
    pub fn event_name(&self) -> (name: &'static str)
        ensures
            name@ == "Dynamic Search Rules Deleted"@,
    {
        "Dynamic Search Rules Deleted"
    }

    /// Two events count as one.
    pub fn aggregate(self, _new: Self) -> (event: Self)
        ensures
            event == self,
    {
        self
    }
}

/// What is told of a change.
pub enum Event {
    Updated(UpdateDynamicSearchRuleAnalytics),
    Deleted(DeleteDynamicSearchRuleAnalytics),
}

/// What a request asks to do to a rule.
pub enum Change {
    /// Replace fields of the rule, or make a rule of them.
    CreateOrUpdate { uid: RuleUid, update: DynamicSearchRuleUpdateRequest },
    /// Take the rule out.
    Delete { uid: RuleUid },
}

/// What a change that was made is answered.
pub enum Answer {
    /// The rule as it is after the update.
    Updated(DynamicSearchRule),
    /// Nothing: the rule is deleted.
    Deleted,
}

pub enum AnswerView {
    Updated(RuleView),
    Deleted,
}

impl View for Answer {
    type V = AnswerView;

    open spec fn view(&self) -> AnswerView {
        match *self {
            Answer::Updated(rule) => AnswerView::Updated(rule@),
            Answer::Deleted => AnswerView::Deleted,
        }
    }
}

impl Answer {
    /// The HTTP status of the answer.
    pub fn status(&self) -> (status: u16)
        ensures
            status == match self@ {
                AnswerView::Updated(_) => 200u16,
                AnswerView::Deleted => 204u16,
            },
            self is Updated ==> status == 200,
            self is Deleted ==> status == 204,
    {
        match self {
            Answer::Updated(_) => 200,
            Answer::Deleted => 204,
        }
    }

    /// The body of the answer.
    pub fn body(&self) -> (body: Option<&DynamicSearchRule>)
        ensures
            match body {
                Some(rule) => self@ == AnswerView::Updated(rule@),
                None => self@ == AnswerView::Deleted,
            },
            body is Some <==> self is Updated,
            body is Some ==> *body->0 == self->Updated_0,
    {
        match self {
            Answer::Updated(rule) => Some(rule),
            Answer::Deleted => None,
        }
    }
}

/// A request to change a rule, which waits until it is clear that this instance leads the
/// network.
pub struct LeaderCheck {
    change: Change,
}

impl View for LeaderCheck {
    type V = Change;

    closed spec fn view(&self) -> Change {
        self.change
    }
}

/// A request to change a rule, for the instances of a network, which waits for the rule as it is.
pub struct RuleCheck<N> {
    change: Change,
    network: Option<N>,
}

impl<N> View for RuleCheck<N> {
    type V = (Change, Option<N>);

    closed spec fn view(&self) -> (Change, Option<N>) {
        (self.change, self.network)
    }
}

/// A request to change a rule, which waits until its task is registered.
pub struct AwaitTask {
    pending: Pending,
}

enum Pending {
    Update { update: DynamicSearchRuleUpdateRequest, rule: DynamicSearchRule },
    Deletion,
}

/// A change whose task is to be registered.
pub enum PendingView {
    /// The fields to replace, and the rule that comes of it.
    Update { update: UpdateView, rule: RuleView },
    /// The rule is taken out.
    Deletion,
}

impl View for AwaitTask {
    type V = PendingView;

    closed spec fn view(&self) -> PendingView {
        match self.pending {
            Pending::Update { update, rule } => PendingView::Update { update: update@, rule: rule@ },
            Pending::Deletion => PendingView::Deletion,
        }
    }
}

/// How a request to change a rule goes on after its task has been registered.
pub enum MutationStep<N> {
    /// The request is passed on to the network, with `body`, and then answered.
    Proxy {
        network: N,
        body: Option<DynamicSearchRuleUpdateRequest>,
        event: Event,
        answer: Answer,
    },
    /// The request is answered.
    Done { event: Event, answer: Answer },
}

pub enum MutationView<N> {
    Proxy { network: N, body: Option<UpdateView>, event: Event, answer: AnswerView },
    Done { event: Event, answer: AnswerView },
}

impl<N> View for MutationStep<N> {
    type V = MutationView<N>;

    open spec fn view(&self) -> MutationView<N> {
        match *self {
            MutationStep::Proxy { network, body, event, answer } => MutationView::Proxy {
                network,
                body: match body {
                    Some(update) => Some(update@),
                    None => None,
                },
                event,
                answer: answer@,
            },
            MutationStep::Done { event, answer } => MutationView::Done { event, answer: answer@ },
        }
    }
}

/// Asks to replace fields of a rule, or to make a rule of them.
pub fn update_or_create_rule(
    features: &RoFeatures,
    uid: RuleUid,
    update: DynamicSearchRuleUpdateRequest,
) -> (result: Result<LeaderCheck, FeatureNotEnabledError>)
    ensures
        match result {
            Ok(request) => features.dynamic_search_rules && request@ == (Change::CreateOrUpdate {
                uid,
                update,
            }),
            Err(error) => !features.dynamic_search_rules && error.disabled_action@
                == USING_THE_ROUTES@,
        },
{
    match features.check_dynamic_search_rules(USING_THE_ROUTES) {
        Ok(_) => Ok(LeaderCheck { change: Change::CreateOrUpdate { uid, update } }),
        Err(error) => Err(error),
    }
}

/// Asks to take a rule out.
pub fn delete_rule(features: &RoFeatures, uid: RuleUid) -> (result: Result<
    LeaderCheck,
    FeatureNotEnabledError,
>)
    ensures
        match result {
            Ok(request) => features.dynamic_search_rules && request@ == (Change::Delete { uid }),
            Err(error) => !features.dynamic_search_rules && error.disabled_action@
                == USING_THE_ROUTES@,
        },
{
    match features.check_dynamic_search_rules(USING_THE_ROUTES) {
        Ok(_) => Ok(LeaderCheck { change: Change::Delete { uid } }),
        Err(error) => Err(error),
    }
}

impl LeaderCheck {
    /// Goes on for the network that the check came back with.
    pub fn passed<N>(self, task_network: Option<N>) -> (request: RuleCheck<N>)
        ensures
            request@ == (self@, task_network),
    {
        RuleCheck { change: self.change, network: task_network }
    }
}

impl Change {
    /// The rule that is changed.
    pub open spec fn rule_uid(self) -> RuleUid {
        match self {
            Change::CreateOrUpdate { uid, update } => uid,
            Change::Delete { uid } => uid,
        }
    }
}

/// The task of a change.
pub open spec fn task_of(change: Change) -> DsrUpdate {
    match change {
        Change::CreateOrUpdate { uid, update } => DsrUpdate::CreateOrUpdateFields {
            rule_id: uid,
            update,
        },
        Change::Delete { uid } => DsrUpdate::Deletion(uid),
    }
}

/// What is still to be done of a change when its task is registered. `current` is the rule before
/// the change; a new rule is switched on by `active_at_first`, where the update does not say.
pub open spec fn pending_of(
    change: Change,
    current: Option<RuleView>,
    active_at_first: bool,
) -> PendingView {
    match change {
        Change::CreateOrUpdate { uid, update } => PendingView::Update {
            update: update@,
            rule: updated(uid@, current, active_at_first, update@),
        },
        Change::Delete { uid } => PendingView::Deletion,
    }
}

impl<N> RuleCheck<N> {
    /// The rule to look up.
    pub fn uid(&self) -> (uid: &RuleUid)
        ensures
            *uid == self@.0.rule_uid(),
    {
        match &self.change {
            Change::CreateOrUpdate { uid, update: _ } => uid,
            Change::Delete { uid } => uid,
        }
    }

    /// Goes on with the rule as it is, to the task to register. Where there is no rule, an update
    /// creates one, which is switched on by `active_at_first` where the update does not say; and a
    /// deletion ends with the error that there is none.
    pub fn found(self, current: Option<DynamicSearchRule>, active_at_first: bool) -> (result: Result<
        (TaskRegistration<N>, AwaitTask),
        DynamicSearchRulesError,
    >)
        ensures
            match result {
                Ok((task, pending)) => {
                    &&& self@.0 is Delete ==> current is Some
                    &&& task == (TaskRegistration::<N> {
                        kind: task_of(self@.0),
                        task_id: None,
                        custom_metadata: None,
                        dry_run: false,
                        network: self@.1,
                    })
                    &&& pending@ == pending_of(
                        self@.0,
                        match current {
                            Some(current) => Some(current@),
                            None => None,
                        },
                        active_at_first,
                    )
                    &&& match self@.0 {
                        Change::CreateOrUpdate { uid, update } => {
                            &&& task.kind == (DsrUpdate::CreateOrUpdateFields {
                                rule_id: uid,
                                update,
                            })
                            &&& pending@ is Update
                            &&& pending@->update.active == update.active
                            &&& pending@->update.fields == update.fields@
                            &&& pending@->rule.uid == uid.value@
                            &&& update.active is Some ==> pending@->rule.active
                                == update.active->0
                            &&& update.active is None && current is Some
                                ==> pending@->rule.active == current->0.active
                            &&& update.active is None && current is None
                                ==> pending@->rule.active == active_at_first
                            &&& current is None ==> pending@->rule.fields == update.fields@
                            &&& current is Some ==> pending@->rule.fields
                                == current->0.fields@.union_prefer_right(update.fields@)
                        },
                        Change::Delete { uid } => {
                            &&& task.kind == DsrUpdate::Deletion(uid)
                            &&& pending@ is Deletion
                        },
                    }
                },
                Err(error) => {
                    &&& self@.0 is Delete && current is None
                    &&& error == DynamicSearchRulesError::NotFound(self@.0.rule_uid())
                },
            },
    {
        match self.change {
            Change::CreateOrUpdate { uid, update } => {
                let rule = update.apply(uid.clone(), current, active_at_first);
                let pending = Pending::Update { update: update.clone(), rule };
                let task = TaskRegistration {
                    kind: DsrUpdate::CreateOrUpdateFields { rule_id: uid, update },
                    task_id: None,
                    custom_metadata: None,
                    dry_run: false,
                    network: self.network,
                };
                Ok((task, AwaitTask { pending }))
            },
            Change::Delete { uid } => {
                if current.is_none() {
                    return Err(DynamicSearchRulesError::NotFound(uid));
                }
                let task = TaskRegistration {
                    kind: DsrUpdate::Deletion(uid),
                    task_id: None,
                    custom_metadata: None,
                    dry_run: false,
                    network: self.network,
                };
                Ok((task, AwaitTask { pending: Pending::Deletion }))
            },
        }
    }
}

impl PendingView {
    /// What the other instances of the network are told; nothing of a deletion.
    pub open spec fn body(self) -> Option<UpdateView> {
        match self {
            PendingView::Update { update, rule } => Some(update),
            PendingView::Deletion => None,
        }
    }

    /// What is told of the change.
    pub open spec fn event(self) -> Event {
        match self {
            PendingView::Update { .. } => Event::Updated(UpdateDynamicSearchRuleAnalytics),
            PendingView::Deletion => Event::Deleted(DeleteDynamicSearchRuleAnalytics),
        }
    }

    /// What the request is answered.
    pub open spec fn answer(self) -> AnswerView {
        match self {
            PendingView::Update { update, rule } => AnswerView::Updated(rule),
            PendingView::Deletion => AnswerView::Deleted,
        }
    }
}

impl AwaitTask {
    /// Goes on after the task has been registered, with the network that it is for, if any.
    pub fn registered<N>(self, network: Option<N>) -> (step: MutationStep<N>)
        ensures
            step@ == match network {
                Some(network) => MutationView::Proxy {
                    network,
                    body: self@.body(),
                    event: self@.event(),
                    answer: self@.answer(),
                },
                None => MutationView::Done { event: self@.event(), answer: self@.answer() },
            },
            match step {
                MutationStep::Proxy { network: for_network, body, event, answer } => {
                    &&& network == Some(for_network)
                    &&& match self@ {
                        PendingView::Update { update, rule } => {
                            &&& body is Some
                            &&& body->0.active == update.active
                            &&& body->0.fields@ == update.fields
                            &&& event is Updated
                            &&& answer is Updated
                            &&& answer->Updated_0.uid.value@ == rule.uid
                            &&& answer->Updated_0.active == rule.active
                            &&& answer->Updated_0.fields@ == rule.fields
                        },
                        PendingView::Deletion => body is None && event is Deleted
                            && answer is Deleted,
                    }
                },
                MutationStep::Done { event, answer } => {
                    &&& network is None
                    &&& match self@ {
                        PendingView::Update { update, rule } => {
                            &&& event is Updated
                            &&& answer is Updated
                            &&& answer->Updated_0.uid.value@ == rule.uid
                            &&& answer->Updated_0.active == rule.active
                            &&& answer->Updated_0.fields@ == rule.fields
                        },
                        PendingView::Deletion => event is Deleted && answer is Deleted,
                    }
                },
            },
    {
        match self.pending {
            Pending::Update { update, rule } => {
                let event = Event::Updated(UpdateDynamicSearchRuleAnalytics);
                let answer = Answer::Updated(rule);
                match network {
                    Some(network) => MutationStep::Proxy {
                        network,
                        body: Some(update),
                        event,
                        answer,
                    },
                    None => MutationStep::Done { event, answer },
                }
            },
            Pending::Deletion => {
                let event = Event::Deleted(DeleteDynamicSearchRuleAnalytics);
                let answer = Answer::Deleted;
                match network {
                    Some(network) => MutationStep::Proxy { network, body: None, event, answer },
                    None => MutationStep::Done { event, answer },
                }
            },
        }
    }
}

/// A rule is listed exactly when it stands under some name and passes the filter.
pub proof fn law_listed_rules_pass(
    names: Seq<Seq<char>>,
    rules: Map<Seq<char>, RuleView>,
    matches: Seq<PatternMatch>,
    filter: Option<ListRulesFilter>,
    rule: RuleView,
)
    ensures
        listed_rules(names, rules, matches, filter).contains(rule) <==> exists|i: int|
            0 <= i < names.len() && rules[#[trigger] names[i]] == rule && passes(
                filter,
                rule,
                verdict(matches, i),
            ),
    decreases names.len(),
{
    if names.len() > 0 {
        let before = names.drop_last();
        let some = listed_rules(before, rules, matches, filter);
        let all = listed_rules(names, rules, matches, filter);
        law_listed_rules_pass(before, rules, matches, filter, rule);
        if some.contains(rule) {
            let i = choose|i: int|
                0 <= i < before.len() && rules[#[trigger] before[i]] == rule && passes(
                    filter,
                    rule,
                    verdict(matches, i),
                );
            assert(names[i] == before[i]);
            let j = choose|j: int| 0 <= j < some.len() && some[j] == rule;
            assert(all[j] == rule);
        }
        if all.contains(rule) {
            let j = choose|j: int| 0 <= j < all.len() && all[j] == rule;
            if j < some.len() {
                assert(some[j] == rule);
            } else {
                assert(names[names.len() - 1] == names.last());
            }
        }
        if exists|i: int|
            0 <= i < names.len() && rules[#[trigger] names[i]] == rule && passes(
                filter,
                rule,
                verdict(matches, i),
            ) {
            let i = choose|i: int|
                0 <= i < names.len() && rules[#[trigger] names[i]] == rule && passes(
                    filter,
                    rule,
                    verdict(matches, i),
                );
            if i < before.len() {
                assert(before[i] == names[i]);
            } else {
                assert(all[all.len() - 1] == rule);
            }
        }
    }
}

/// `listed` are the rules under the names at the places `at`, in the order of the names.
pub open spec fn stand_at(
    listed: Seq<RuleView>,
    names: Seq<Seq<char>>,
    rules: Map<Seq<char>, RuleView>,
    at: Seq<int>,
) -> bool {
    &&& at.len() == listed.len()
    &&& forall|k: int|
        0 <= k < at.len() ==> 0 <= #[trigger] at[k] < names.len() && rules[names[at[k]]] == listed[k]
    &&& forall|k: int, l: int| 0 <= k < l < at.len() ==> at[k] < at[l]
}

/// The rules are listed in the order of their names, and no name twice.
pub proof fn law_rules_are_listed_by_name(
    names: Seq<Seq<char>>,
    rules: Map<Seq<char>, RuleView>,
    matches: Seq<PatternMatch>,
    filter: Option<ListRulesFilter>,
)
    ensures
        exists|at: Seq<int>| #[trigger]
            stand_at(listed_rules(names, rules, matches, filter), names, rules, at),
    decreases names.len(),
{
    let all = listed_rules(names, rules, matches, filter);
    if names.len() == 0 {
        assert(stand_at(all, names, rules, Seq::empty()));
    } else {
        let before = names.drop_last();
        let some = listed_rules(before, rules, matches, filter);
        law_rules_are_listed_by_name(before, rules, matches, filter);
        let places = choose|at: Seq<int>| #[trigger] stand_at(some, before, rules, at);
        let at = if all.len() > some.len() {
            places.push(names.len() - 1)
        } else {
            places
        };
        assert forall|k: int| 0 <= k < at.len() implies 0 <= #[trigger] at[k] < names.len()
            && rules[names[at[k]]] == all[k] by {
            if k < places.len() {
                assert(at[k] == places[k]);
                assert(before[places[k]] == names[places[k]]);
            }
        }
        assert(stand_at(all, names, rules, at));
    }
}

/// A listing has, in the order of their names, exactly the rules that the filter lets through: the
/// rule under the name at place `at[k]` is the one listed at `k`. Whatever else a filter gives, one
/// that gives `active` lets through only rules with that very value, and one with patterns only
/// rules with a name that they match; and a rule with all that the filter gives is listed.
pub proof fn law_listing_has_what_the_filter_lets_through(
    names: Seq<Seq<char>>,
    rules: Map<Seq<char>, RuleView>,
    matches: Seq<PatternMatch>,
    filter: Option<ListRulesFilter>,
) -> (at: Seq<int>)
    ensures
        ({
            let listed = listed_rules(names, rules, matches, filter);
            &&& at.len() == listed.len()
            &&& forall|k: int| 0 <= k < at.len() ==> listed[k] == rules[names[#[trigger] at[k]]]
            &&& forall|k: int, l: int| 0 <= k < l < at.len() ==> at[k] < at[l]
            &&& forall|i: int| #[trigger]
                at.contains(i) <==> 0 <= i < names.len() && (filter is Some ==> {
                    &&& filter->0.active is Some ==> rules[names[i]].active == filter->0.active->0
                    &&& filter->0.attribute_patterns is Some ==> i < matches.len() && matches[i]
                        == PatternMatch::Match
                })
        }),
    decreases names.len(),
{
    if names.len() == 0 {
        Seq::empty()
    } else {
        let before = names.drop_last();
        let last = names.len() - 1;
        let some = listed_rules(before, rules, matches, filter);
        let all = listed_rules(names, rules, matches, filter);
        let places = law_listing_has_what_the_filter_lets_through(before, rules, matches, filter);
        let at = if all.len() > some.len() {
            places.push(last as int)
        } else {
            places
        };
        assert forall|k: int| 0 <= k < places.len() implies 0 <= #[trigger] places[k]
            < before.len() by {
            assert(places.contains(places[k]));
        }
        assert forall|k: int| 0 <= k < at.len() implies all[k] == rules[names[#[trigger] at[k]]] by {
            if k < places.len() {
                assert(at[k] == places[k]);
                assert(before[places[k]] == names[places[k]]);
            }
        }
        assert forall|i: int| #[trigger]
            at.contains(i) <==> 0 <= i < names.len() && (filter is Some ==> {
                &&& filter->0.active is Some ==> rules[names[i]].active == filter->0.active->0
                &&& filter->0.attribute_patterns is Some ==> i < matches.len() && matches[i]
                    == PatternMatch::Match
            }) by {
            if 0 <= i < last {
                assert(before[i] == names[i]);
            }
            if places.contains(i) {
                let k = choose|k: int| 0 <= k < places.len() && places[k] == i;
                assert(at[k] == i);
            }
            if at.contains(i) && i != last {
                let k = choose|k: int| 0 <= k < at.len() && at[k] == i;
                assert(places[k] == i);
                assert(places.contains(i));
            }
            if at.contains(last as int) && all.len() == some.len() {
                assert(places.contains(last as int));
            }
            if all.len() > some.len() {
                assert(at[at.len() - 1] == last);
                assert(at.contains(last as int));
            }
        }
        at
    }
}

/// A page has the items from `offset` on: as many as its limit, or all that there are.
pub proof fn law_page_has_items_from_its_offset<A>(items: Seq<A>, offset: nat, limit: nat, k: int)
    ensures
        offset >= items.len() ==> page(items, offset, limit).len() == 0,
        offset < items.len() && limit <= items.len() - offset ==> page(items, offset, limit).len()
            == limit,
        offset < items.len() && limit > items.len() - offset ==> page(items, offset, limit).len()
            == items.len() - offset,
        0 <= k < page(items, offset, limit).len() ==> page(items, offset, limit)[k] == items[offset
            + k],
{
}

/// A page and the page that starts where it ends make up the page of both lengths: pages miss no
/// rule and show none twice.
pub proof fn law_pages_join<A>(items: Seq<A>, offset: nat, first: nat, second: nat)
    ensures
        page(items, offset, first) + page(items, offset + first, second) == page(
            items,
            offset,
            first + second,
        ),
{
    assert(page(items, offset, first) + page(items, offset + first, second) =~= page(
        items,
        offset,
        first + second,
    ));
}

/// No page is longer than its limit, and a page from the start that is as long as the list is
/// the list.
pub proof fn law_page_length<A>(items: Seq<A>, offset: nat, limit: nat)
    ensures
        page(items, offset, limit).len() <= limit,
        limit >= items.len() ==> page(items, 0, limit) == items,
{
    assert(limit >= items.len() ==> page(items, 0, limit) =~= items);
}

/// The task that is registered for a change, what the network is told of it, the event that is
/// published and the answer are all of an update, or all of a deletion.
pub proof fn law_change_is_one_of_two(
    change: Change,
    current: Option<RuleView>,
    active_at_first: bool,
)
    ensures
        ({
            let pending = pending_of(change, current, active_at_first);
            &&& change is CreateOrUpdate <==> task_of(change) is CreateOrUpdateFields
            &&& change is CreateOrUpdate <==> pending.body() is Some
            &&& change is CreateOrUpdate <==> pending.event() is Updated
            &&& change is CreateOrUpdate <==> pending.answer() is Updated
            &&& change is Delete <==> task_of(change) is Deletion
            &&& change is Delete <==> pending.event() is Deleted
            &&& change is Delete <==> pending.answer() is Deleted
        }),
{
}

/// The task that is registered for a request to update a rule carries the update of the request:
/// the same name, the same `active` and the same fields. Applied to the rule as it is, it gives the
/// rule that the request is answered with; and the network is told the same update.
pub proof fn law_task_carries_the_update_of_the_request(
    uid: RuleUid,
    update: DynamicSearchRuleUpdateRequest,
    current: Option<RuleView>,
    active_at_first: bool,
)
    ensures
        ({
            let change = Change::CreateOrUpdate { uid, update };
            let task = task_of(change);
            let pending = pending_of(change, current, active_at_first);
            &&& task is CreateOrUpdateFields
            &&& task->rule_id.value@ == uid.value@
            &&& task->update.active == update.active
            &&& task->update.fields@ == update.fields@
            &&& pending.body() is Some
            &&& pending.body()->0.active == update.active
            &&& pending.body()->0.fields == update.fields@
            &&& pending.answer() is Updated
            &&& pending.answer()->Updated_0 == updated(
                task->rule_id@,
                current,
                active_at_first,
                task->update@,
            )
            &&& pending.answer()->Updated_0.uid == uid.value@
            &&& update.active is Some ==> pending.answer()->Updated_0.active == update.active->0
            &&& update.active is None ==> pending.answer()->Updated_0.active == match current {
                Some(rule) => rule.active,
                None => active_at_first,
            }
            &&& forall|name: Seq<char>|
                update.fields@.contains_key(name) ==> #[trigger]
                pending.answer()->Updated_0.fields.contains_key(name)
                    && pending.answer()->Updated_0.fields[name] == update.fields@[name]
            &&& forall|name: Seq<char>|
                !update.fields@.contains_key(name) ==> (#[trigger]
                pending.answer()->Updated_0.fields.contains_key(name) <==> current is Some
                    && current->0.fields.contains_key(name))
            &&& forall|name: Seq<char>|
                !update.fields@.contains_key(name) && #[trigger]
                pending.answer()->Updated_0.fields.contains_key(name)
                    ==> pending.answer()->Updated_0.fields[name] == current->0.fields[name]
        }),
{
}

/// The task that is registered for a request to delete a rule takes out the rule with that name, and
/// the network is told nothing.
pub proof fn law_task_deletes_the_rule_of_the_request(
    uid: RuleUid,
    current: Option<RuleView>,
    active_at_first: bool,
)
    ensures
        ({
            let change = Change::Delete { uid };
            let task = task_of(change);
            let pending = pending_of(change, current, active_at_first);
            &&& task is Deletion
            &&& task->Deletion_0.value@ == uid.value@
            &&& pending.body() is None
            &&& pending.answer() is Deleted
            &&& pending.event() is Deleted
        }),
{
}

} // verus!

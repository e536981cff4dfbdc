use crate::body::RuleBody;
use crate::rules::{DynamicSearchRule, RuleUid, RuleView};
use vstd::prelude::*;

verus! {

/// Which experimental features are enabled.
#[derive(Clone, Copy)]
pub struct RoFeatures {
    pub dynamic_search_rules: bool,
}

/// An action that needs a feature which is not enabled.
pub struct FeatureNotEnabledError {
    pub disabled_action: String,
}

impl RoFeatures {
    /// Lets an action pass where dynamic search rules are enabled.
    pub fn check_dynamic_search_rules(&self, disabled_action: &str) -> (result: Result<
        (),
        FeatureNotEnabledError,
    >)
        ensures
            match result {
                Ok(_) => self.dynamic_search_rules,
                Err(error) => !self.dynamic_search_rules && error.disabled_action@
                    == disabled_action@,
            },
    {
        if self.dynamic_search_rules {
            Ok(())
        } else {
            Err(FeatureNotEnabledError { disabled_action: disabled_action.to_owned() })
        }
    }
}

/// The fields of a rule to replace.
pub struct DynamicSearchRuleUpdateRequest {
    /// Switch the rule on or off.
    pub active: Option<bool>,
    /// The other fields to replace.
    pub fields: RuleBody,
}

pub struct UpdateView {
    pub active: Option<bool>,
    pub fields: Map<Seq<char>, Seq<char>>,
}

impl View for DynamicSearchRuleUpdateRequest {
    type V = UpdateView;

    open spec fn view(&self) -> UpdateView {
        UpdateView { active: self.active, fields: self.fields@ }
    }
}

impl Clone for DynamicSearchRuleUpdateRequest {
    fn clone(&self) -> (copy: Self)
        ensures
            copy@ == self@,
            copy.active == self.active,
            copy.fields@ == self.fields@,
    {
        DynamicSearchRuleUpdateRequest { active: self.active, fields: self.fields.clone() }
    }
}

/// The rule `uid` after an update: the fields that the update gives are replaced, and the others
/// kept. Where there is no rule, one is created out of the given fields; it is switched on by
/// `active_at_first`, where the update does not say.
pub open spec fn updated(
    uid: Seq<char>,
    current: Option<RuleView>,
    active_at_first: bool,
    update: UpdateView,
) -> RuleView {
    RuleView {
        uid,
        active: match (update.active, current) {
            (Some(active), _) => active,
            (None, Some(rule)) => rule.active,
            (None, None) => active_at_first,
        },
        fields: match current {
            Some(rule) => rule.fields.union_prefer_right(update.fields),
            None => update.fields,
        },
    }
}

impl DynamicSearchRuleUpdateRequest {
    /// The rule `uid` after the update; `current` is the rule before it, if any.
    pub fn apply(
        &self,
        uid: RuleUid,
        current: Option<DynamicSearchRule>,
        active_at_first: bool,
    ) -> (rule: DynamicSearchRule)
        ensures
            rule@ == updated(
                uid@,
                match current {
                    Some(current) => Some(current@),
                    None => None,
                },
                active_at_first,
                self@,
            ),
            rule.uid.value@ == uid.value@,
            self.active is Some ==> rule.active == self.active->0,
            self.active is None && current is Some ==> rule.active == current->0.active,
            self.active is None && current is None ==> rule.active == active_at_first,
            current is None ==> rule.fields@ == self.fields@,
            current is Some ==> forall|name: Seq<char>| #[trigger]
                rule.fields@.contains_key(name) <==> self.fields@.contains_key(name)
                    || current->0.fields@.contains_key(name),
            current is Some ==> forall|name: Seq<char>|
                rule.fields@.contains_key(name) ==> #[trigger] rule.fields@[name]
                    == if self.fields@.contains_key(name) {
                    self.fields@[name]
                } else {
                    current->0.fields@[name]
                },
    {
        match current {
            Some(rule) => DynamicSearchRule {
                uid,
                active: match self.active {
                    Some(active) => active,
                    None => rule.active,
                },
                fields: rule.fields.replaced_by(&self.fields),
            },
            None => DynamicSearchRule {
                uid,
                active: match self.active {
                    Some(active) => active,
                    None => active_at_first,
                },
                fields: self.fields.clone(),
            },
        }
    }
}

/// An update replaces the fields that it gives and keeps the others, and the rule has the name
/// that was asked for.
pub proof fn law_update_replaces_given_fields(
    uid: Seq<char>,
    current: RuleView,
    active_at_first: bool,
    update: UpdateView,
    name: Seq<char>,
)
    ensures
        ({
            let rule = updated(uid, Some(current), active_at_first, update);
            &&& rule.uid == uid
            &&& rule.active == if update.active is Some {
                update.active->0
            } else {
                current.active
            }
            &&& rule.fields.contains_key(name) <==> update.fields.contains_key(name)
                || current.fields.contains_key(name)
            &&& update.fields.contains_key(name) ==> rule.fields[name] == update.fields[name]
            &&& !update.fields.contains_key(name) && current.fields.contains_key(name)
                ==> rule.fields[name] == current.fields[name]
        }),
{
}

/// An update of a rule that does not exist creates one with exactly the fields that it gives.
pub proof fn law_update_creates_rule(uid: Seq<char>, active_at_first: bool, update: UpdateView)
    ensures
        updated(uid, None, active_at_first, update).uid == uid,
        updated(uid, None, active_at_first, update).active == if update.active is Some {
            update.active->0
        } else {
            active_at_first
        },
        updated(uid, None, active_at_first, update).fields == update.fields,
{
}

/// The same update, applied again, changes nothing.
pub proof fn law_update_applies_once(
    uid: Seq<char>,
    current: Option<RuleView>,
    active_at_first: bool,
    update: UpdateView,
)
    ensures
        ({
            let rule = updated(uid, current, active_at_first, update);
            updated(uid, Some(rule), active_at_first, update) == rule
        }),
{
    let rule = updated(uid, current, active_at_first, update);
    assert(rule.fields.union_prefer_right(update.fields) =~= rule.fields);
}

/// What a task does to the rules.
pub enum DsrUpdate {
    /// It puts a rule in, in the place of one with the same name.
    CreateOrUpdate(DynamicSearchRule),
    /// It replaces fields of a rule, or makes a rule of them.
    CreateOrUpdateFields { rule_id: RuleUid, update: DynamicSearchRuleUpdateRequest },
    /// It takes a rule out.
    Deletion(RuleUid),
}

/// A task to register: what it does, the number that it should have, what its owner notes on it,
/// whether it is only tried, and the network that it is for.
pub struct TaskRegistration<N> {
    pub kind: DsrUpdate,
    pub task_id: Option<u32>,
    pub custom_metadata: Option<String>,
    pub dry_run: bool,
    pub network: Option<N>,
}

/// The rules of an instance that has them enabled.
pub struct DynamicSearchRules {
    features: RoFeatures,
}

impl DynamicSearchRules {
    #[verifier::type_invariant]
    spec fn enabled(&self) -> bool {
        self.features.dynamic_search_rules
    }

    /// The rules of the instance, where they are enabled. The caller passes the features, so that
    /// it can look them up once.
    pub fn new(features: RoFeatures) -> (rules: Option<Self>)
        ensures
            rules is Some <==> features.dynamic_search_rules,
    {
        match features.check_dynamic_search_rules("") {
            Ok(_) => Some(DynamicSearchRules { features }),
            Err(_) => None,
        }
    }

    /// The task that puts a rule in.
    pub fn add_or_update<N>(&self, rule: DynamicSearchRule, custom_metadata: Option<String>) -> (task:
        TaskRegistration<N>)
        ensures
            task == (TaskRegistration::<N> {
                kind: DsrUpdate::CreateOrUpdate(rule),
                task_id: None,
                custom_metadata,
                dry_run: false,
                network: None,
            }),
    {
        TaskRegistration {
            kind: DsrUpdate::CreateOrUpdate(rule),
            task_id: None,
            custom_metadata,
            dry_run: false,
            network: None,
        }
    }

    /// The task that takes a rule out.
    pub fn delete<N>(&self, rule_uid: RuleUid, custom_metadata: Option<String>) -> (task:
        TaskRegistration<N>)
        ensures
            task == (TaskRegistration::<N> {
                kind: DsrUpdate::Deletion(rule_uid),
                task_id: None,
                custom_metadata,
                dry_run: false,
                network: None,
            }),
    {
        TaskRegistration {
            kind: DsrUpdate::Deletion(rule_uid),
            task_id: None,
            custom_metadata,
            dry_run: false,
            network: None,
        }
    }
}

} // verus!

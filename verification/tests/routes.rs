use dynamic_search_rules::body::RuleBody;
use dynamic_search_rules::routes::{
    delete_rule, get_rule, list_rules, update_or_create_rule, Answer, AttributePatterns, Code,
    DeleteDynamicSearchRuleAnalytics, DynamicSearchRulesError, Event, ListRules, ListRulesFilter,
    MutationStep, PatternMatch, UpdateDynamicSearchRuleAnalytics,
};
use dynamic_search_rules::rules::{DynamicSearchRule, RuleUid, RulesByUid};
use dynamic_search_rules::scheduler::{
    DsrUpdate, DynamicSearchRuleUpdateRequest, DynamicSearchRules, RoFeatures, TaskRegistration,
};

const ON: RoFeatures = RoFeatures { dynamic_search_rules: true };
const OFF: RoFeatures = RoFeatures { dynamic_search_rules: false };

fn uid(name: &str) -> RuleUid {
    RuleUid { value: name.to_string() }
}

fn rule(name: &str, active: bool) -> DynamicSearchRule {
    DynamicSearchRule { uid: uid(name), active, fields: RuleBody::new() }
}

fn filter(patterns: Option<&[&str]>, active: Option<bool>) -> Option<ListRulesFilter> {
    let mut attribute_patterns = None;
    if let Some(patterns) = patterns {
        attribute_patterns = Some(AttributePatterns {
            patterns: patterns.iter().map(|p| p.to_string()).collect(),
        });
    }
    Some(ListRulesFilter { attribute_patterns, active })
}

#[test]
fn filter_by_patterns_needs_a_match_of_the_name() {
    let request = ListRules { filter: filter(Some(&["promo*"]), None), ..ListRules::default() };
    let promo = rule("promo-1", true);
    assert!(request.apply_filter(&promo, PatternMatch::Match));
    assert!(!request.apply_filter(&promo, PatternMatch::NoMatch));
    assert!(!request.apply_filter(&promo, PatternMatch::Parent));
}

#[test]
fn filter_by_activity_compares_it() {
    let active = ListRules { filter: filter(None, Some(true)), ..ListRules::default() };
    let inactive = ListRules { filter: filter(None, Some(false)), ..ListRules::default() };
    assert!(active.apply_filter(&rule("a", true), PatternMatch::NoMatch));
    assert!(!active.apply_filter(&rule("a", false), PatternMatch::NoMatch));
    assert!(!inactive.apply_filter(&rule("a", true), PatternMatch::Match));
    assert!(inactive.apply_filter(&rule("a", false), PatternMatch::Match));
}

#[test]
fn both_filters_must_pass() {
    let both = ListRules { filter: filter(Some(&["a"]), Some(true)), ..ListRules::default() };
    assert!(both.apply_filter(&rule("a", true), PatternMatch::Match));
    assert!(!both.apply_filter(&rule("a", false), PatternMatch::Match));
    assert!(!both.apply_filter(&rule("a", true), PatternMatch::Parent));
    let none = ListRules { filter: filter(None, None), ..ListRules::default() };
    assert!(none.apply_filter(&rule("a", false), PatternMatch::NoMatch));
    assert!(ListRules::default().apply_filter(&rule("a", false), PatternMatch::NoMatch));
}

#[test]
fn request_has_defaults() {
    let request = ListRules::default();
    assert_eq!((request.offset, request.limit), (0, 20));
    assert!(request.filter.is_none());
}

fn rules_of(names: &[&str]) -> RulesByUid {
    let mut rules = RulesByUid::new();
    for name in names {
        rules.insert(uid(name), rule(name, *name != "b"));
    }
    rules
}

fn page_of(rules: &RulesByUid, matches: &[PatternMatch], request: &ListRules) -> (Vec<String>, usize) {
    let view = list_rules(&ON, rules, &matches.to_vec(), request).ok().unwrap();
    assert_eq!((view.offset, view.limit), (request.offset, request.limit));
    (view.results.iter().map(|rule| rule.uid.value.clone()).collect(), view.total)
}

#[test]
fn list_has_the_rules_that_pass_page_by_page() {
    let rules = rules_of(&["d", "b", "e", "a", "c"]);
    let request = |offset, limit| ListRules { offset, limit, filter: filter(None, Some(true)) };
    let page = |offset, limit| page_of(&rules, &[], &request(offset, limit));
    assert_eq!(page(0, 20), (vec!["a".into(), "c".into(), "d".into(), "e".into()], 4));
    assert_eq!(page(0, 2), (vec!["a".into(), "c".into()], 4));
    assert_eq!(page(2, 1), (vec!["d".into()], 4));
    assert_eq!(page(3, usize::MAX), (vec!["e".into()], 4));
    assert_eq!(page(4, 2), (vec![], 4));
    assert_eq!(page(usize::MAX, usize::MAX), (vec![], 4));
    assert_eq!(page(0, 0), (vec![], 4));
    assert_eq!(page_of(&RulesByUid::new(), &[], &ListRules::default()), (vec![], 0));
}

#[test]
fn list_goes_by_what_the_patterns_say_of_each_name() {
    let rules = rules_of(&["c", "a", "b"]);
    let request = ListRules { filter: filter(Some(&["a", "c"]), None), ..ListRules::default() };
    let matches = [PatternMatch::Match, PatternMatch::Parent, PatternMatch::Match];
    assert_eq!(page_of(&rules, &matches, &request), (vec!["a".into(), "c".into()], 2));
    assert_eq!(page_of(&rules, &matches[..1], &request), (vec!["a".into()], 1));
    let all = (vec!["a".into(), "b".into(), "c".into()], 3);
    assert_eq!(page_of(&rules, &[], &ListRules::default()), all);
}

#[test]
fn routes_need_the_feature() {
    let action = "Using the `/dynamic-search-rules` routes";
    assert_eq!(
        list_rules(&OFF, &RulesByUid::new(), &vec![], &ListRules::default())
            .err()
            .unwrap()
            .disabled_action,
        action
    );
    assert_eq!(get_rule(&OFF, uid("a")).err().unwrap().disabled_action, action);
    assert_eq!(delete_rule(&OFF, uid("a")).err().unwrap().disabled_action, action);
    assert_eq!(
        update_or_create_rule(&OFF, uid("a"), update()).err().unwrap().disabled_action,
        action
    );
    assert!(ON.check_dynamic_search_rules("anything").is_ok());
}

#[test]
fn rule_that_is_there_is_returned() {
    let request = get_rule(&ON, uid("black-friday")).ok().unwrap();
    assert_eq!(request.uid().value, "black-friday");
    assert_eq!(request.respond(Some(5)).ok(), Some(5));
}

#[test]
fn rule_that_is_not_there_is_an_error() {
    let request = get_rule(&ON, uid("black-friday")).ok().unwrap();
    is_not_found(request.respond::<u8>(None).err().unwrap());
}

#[test]
fn rule_that_is_not_there_cannot_be_deleted() {
    for network in [None, Some(3)] {
        let request = delete_rule(&ON, uid("black-friday")).ok().unwrap().passed(network);
        assert_eq!(request.uid().value, "black-friday");
        is_not_found(request.found(None, true).err().unwrap());
    }
}

fn is_not_found(error: DynamicSearchRulesError) {
    assert!(matches!(&error, DynamicSearchRulesError::NotFound(uid) if uid.value == "black-friday"));
    assert_eq!(error.message(), "Dynamic search rule `black-friday` not found.");
    assert_eq!(error.error_code(), Code::DynamicSearchRuleNotFound);
    assert_eq!(error.error_code().name(), "dynamic_search_rule_not_found");
    assert_eq!(error.error_code().type_(), "invalid_request");
    assert_eq!(error.error_code().status(), 404);
    assert_eq!(
        error.error_code().link(),
        "https://docs.meilisearch.com/errors#dynamic_search_rule_not_found"
    );
}

fn plain<N>(task: &TaskRegistration<N>) -> bool {
    task.task_id.is_none() && task.custom_metadata.is_none() && !task.dry_run
}

/// Makes the priority 5 and switches the rule on.
fn update() -> DynamicSearchRuleUpdateRequest {
    DynamicSearchRuleUpdateRequest {
        active: Some(true),
        fields: RuleBody::new().set("priority".to_string(), "5".to_string()),
    }
}

fn described(name: &str, active: bool) -> DynamicSearchRule {
    let fields = RuleBody::new()
        .set("priority".to_string(), "10".to_string())
        .set("description".to_string(), "\"sale\"".to_string());
    DynamicSearchRule { uid: uid(name), active, fields }
}

fn field(rule: &DynamicSearchRule, name: &str) -> Option<String> {
    rule.fields.get(name).cloned()
}

#[test]
fn update_is_registered_and_passed_on() {
    let request =
        update_or_create_rule(&ON, uid("a"), update()).ok().unwrap().passed(Some("network"));
    assert_eq!(request.uid().value, "a");
    let (task, pending) = request.found(Some(described("a", false)), false).ok().unwrap();
    assert!(plain(&task));
    assert_eq!(task.network, Some("network"));
    match task.kind {
        DsrUpdate::CreateOrUpdateFields { rule_id, update } => {
            assert_eq!(rule_id.value, "a");
            assert_eq!(update.active, Some(true));
            assert_eq!(update.fields.get("priority"), Some(&"5".to_string()));
        }
        _ => panic!("another task"),
    }
    match pending.registered(Some("other network")) {
        MutationStep::Proxy { network, body, event: Event::Updated(event), answer } => {
            assert_eq!(network, "other network");
            let body = body.unwrap();
            assert_eq!((body.active, body.fields.len()), (Some(true), 1));
            assert_eq!(body.fields.get("priority"), Some(&"5".to_string()));
            assert_eq!(event.event_name(), "Dynamic Search Rules Created or Updated");
            assert_eq!(answer.status(), 200);
            let rule = answer.body().unwrap();
            assert_eq!((rule.uid.value.as_str(), rule.active), ("a", true));
            assert_eq!(field(rule, "priority"), Some("5".to_string()));
            assert_eq!(field(rule, "description"), Some("\"sale\"".to_string()));
        }
        _ => panic!("another step"),
    }
}

#[test]
fn update_of_a_rule_that_is_not_there_creates_it() {
    for active_at_first in [true, false] {
        let mut given = update();
        given.active = None;
        let request = update_or_create_rule(&ON, uid("a"), given).ok().unwrap().passed::<u8>(None);
        let (task, pending) = request.found(None, active_at_first).ok().unwrap();
        assert_eq!(task.network, None);
        match pending.registered::<u8>(None) {
            MutationStep::Done { event: Event::Updated(_), answer: Answer::Updated(rule) } => {
                assert_eq!((rule.uid.value.as_str(), rule.active), ("a", active_at_first));
                assert_eq!((field(&rule, "priority"), rule.fields.len()), (Some("5".to_string()), 1));
            }
            _ => panic!("another step"),
        }
    }
}

#[test]
fn update_keeps_what_it_does_not_give() {
    let nothing = DynamicSearchRuleUpdateRequest { active: None, fields: RuleBody::new() };
    let rule = nothing.apply(uid("a"), Some(described("a", false)), true);
    assert!(!rule.active);
    assert_eq!(field(&rule, "priority"), Some("10".to_string()));
    let once = update().apply(uid("a"), Some(rule), true);
    let twice = update().apply(uid("a"), Some(once.clone()), true);
    for rule in [&once, &twice] {
        assert!(rule.active);
        assert_eq!((field(rule, "priority"), rule.fields.len()), (Some("5".to_string()), 2));
    }
}

#[test]
fn deletion_is_registered_and_passed_on_without_a_body() {
    let request = delete_rule(&ON, uid("a")).ok().unwrap().passed(Some(3));
    let (task, pending) = request.found(Some(rule("a", true)), true).ok().unwrap();
    assert!(plain(&task));
    assert_eq!(task.network, Some(3));
    assert!(matches!(task.kind, DsrUpdate::Deletion(uid) if uid.value == "a"));
    match pending.registered(Some(4)) {
        MutationStep::Proxy { network: 4, body: None, event: Event::Deleted(event), answer } => {
            assert_eq!(event.event_name(), "Dynamic Search Rules Deleted");
            assert_eq!(answer.status(), 204);
            assert!(answer.body().is_none());
        }
        _ => panic!("another step"),
    }
    let request = delete_rule(&ON, uid("a")).ok().unwrap().passed::<u8>(None);
    let (_, pending) = request.found(Some(rule("a", false)), true).ok().unwrap();
    assert!(matches!(
        pending.registered::<u8>(None),
        MutationStep::Done { event: Event::Deleted(_), answer: Answer::Deleted }
    ));
}

#[test]
fn events_of_one_kind_count_as_one() {
    let updated =
        UpdateDynamicSearchRuleAnalytics.aggregate(UpdateDynamicSearchRuleAnalytics);
    assert_eq!(updated.event_name(), "Dynamic Search Rules Created or Updated");
    let deleted =
        DeleteDynamicSearchRuleAnalytics.aggregate(DeleteDynamicSearchRuleAnalytics);
    assert_eq!(deleted.event_name(), "Dynamic Search Rules Deleted");
}

#[test]
fn scheduler_needs_the_feature() {
    assert!(DynamicSearchRules::new(OFF).is_none());
    assert!(DynamicSearchRules::new(ON).is_some());
}

#[test]
fn scheduler_registers_a_rule() {
    let rules = DynamicSearchRules::new(ON).unwrap();
    let task = rules.add_or_update::<u8>(rule("a", true), Some("note".to_string()));
    assert_eq!(task.custom_metadata, Some("note".to_string()));
    assert_eq!((task.task_id, task.dry_run, task.network), (None, false, None));
    assert!(matches!(task.kind, DsrUpdate::CreateOrUpdate(rule) if rule.uid.value == "a" && rule.active));
}

#[test]
fn scheduler_registers_a_deletion() {
    let rules = DynamicSearchRules::new(ON).unwrap();
    let task = rules.delete::<u8>(uid("a"), None);
    assert_eq!(task.custom_metadata, None);
    assert_eq!((task.task_id, task.dry_run, task.network), (None, false, None));
    assert!(matches!(task.kind, DsrUpdate::Deletion(uid) if uid.value == "a"));
}

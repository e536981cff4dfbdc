use dynamic_search_rules::fields::{FieldsIdsMap, RuleFields};
use dynamic_search_rules::pins::{
    rule_ids_sorted_by_precedence, DynamicSearchRuleAction, PinStep, RuleAction, RuleRead, Selector,
};
use dynamic_search_rules::search::{
    DynamicSearchRules, ResolveStep, RuleLookupStep, SearchContext,
};
use dynamic_search_rules::active::{IndexRead, QueryTerm};
use dynamic_search_rules::search_time::SearchTime;
use roaring::RoaringBitmap;

fn bitmap(ids: &[u32]) -> RoaringBitmap {
    ids.iter().copied().collect()
}

fn pin(index_uid: Option<&str>, id: Option<&str>, position: u32) -> RuleAction {
    RuleAction {
        selector: Selector {
            index_uid: index_uid.map(|s| s.to_string()),
            id: id.map(|s| s.to_string()),
        },
        action: DynamicSearchRuleAction::Pin { position },
    }
}

fn no_precedence() -> RuleFields {
    RuleFields::of(&FieldsIdsMap::new())
}

fn with_precedence() -> RuleFields {
    RuleFields::of(&FieldsIdsMap::new().insert("precedence".to_string(), 6))
}

/// The actions of a few rules.
fn actions(rule: u32) -> Option<Vec<RuleAction>> {
    match rule {
        1 => Some(vec![pin(None, Some("ten"), 1), pin(Some("other"), Some("eleven"), 2)]),
        2 => Some(vec![
            pin(Some("products"), Some("eleven"), 3),
            pin(None, None, 4),
            pin(None, Some("ten"), 5),
        ]),
        3 => Some(vec![pin(None, Some("missing"), 6), pin(None, Some("twelve"), 7)]),
        4 => None,
        _ => Some(vec![]),
    }
}

/// The documents of an index.
fn document(id: &str) -> Option<u32> {
    match id {
        "ten" => Some(10),
        "eleven" => Some(11),
        "twelve" => Some(12),
        _ => None,
    }
}

fn follow(
    mut step: PinStep,
    buckets: Vec<RoaringBitmap>,
    universe: &mut RoaringBitmap,
    asked: &mut Vec<String>,
) -> Vec<(u32, u32)> {
    let mut buckets = buckets.into_iter();
    loop {
        step = match step {
            PinStep::Sort { field, candidates, search } => {
                asked.push(format!("sort {field} {candidates:?}"));
                search.resume(buckets.next())
            }
            PinStep::Bucket(search) => search.resume(buckets.next()),
            PinStep::Actions(search) => {
                let rule = search.rule();
                asked.push(format!("rule {rule}"));
                search.resume(actions(rule))
            }
            PinStep::Document(search) => {
                asked.push(format!("document {}", search.document()));
                let found = document(search.document());
                search.resume(found, universe)
            }
            PinStep::Done(pins) => return pins.iter().map(|pin| (pin.pos, pin.doc_id)).collect(),
        };
    }
}

#[test]
fn rules_apply_by_id_without_precedence() {
    let step = rule_ids_sorted_by_precedence(
        bitmap(&[3, 1, 2, 4, 9]),
        &no_precedence(),
        "products".to_string(),
    );
    let mut universe = bitmap(&[10, 11, 12, 13]);
    let mut asked = Vec::new();
    let pins = follow(step, vec![], &mut universe, &mut asked);
    assert_eq!(pins, vec![(1, 10), (3, 11), (7, 12)]);
    assert_eq!(universe, bitmap(&[13]));
    assert_eq!(
        asked,
        vec![
            "rule 1".to_string(),
            "document ten".to_string(),
            "rule 2".to_string(),
            "document eleven".to_string(),
            "document ten".to_string(),
            "rule 3".to_string(),
            "document missing".to_string(),
            "document twelve".to_string(),
            "rule 4".to_string(),
            "rule 9".to_string(),
        ]
    );
}

#[test]
fn rules_apply_bucket_by_bucket_with_precedence() {
    let step = rule_ids_sorted_by_precedence(
        bitmap(&[1, 2, 3]),
        &with_precedence(),
        "products".to_string(),
    );
    let mut universe = bitmap(&[10, 11, 12]);
    let mut asked = Vec::new();
    let buckets = vec![bitmap(&[3, 2]), bitmap(&[]), bitmap(&[1])];
    let pins = follow(step, buckets, &mut universe, &mut asked);
    assert_eq!(pins, vec![(3, 11), (5, 10), (7, 12)]);
    assert_eq!(universe, bitmap(&[]));
    assert_eq!(asked[0], "sort 6 RoaringBitmap<[1, 2, 3]>".to_string());
    assert_eq!(asked[1], "rule 2".to_string());
}

#[test]
fn first_pin_of_a_document_wins() {
    let step = rule_ids_sorted_by_precedence(
        bitmap(&[1, 2]),
        &with_precedence(),
        "products".to_string(),
    );
    let mut universe = bitmap(&[10]);
    let pins = follow(step, vec![bitmap(&[2]), bitmap(&[1])], &mut universe, &mut Vec::new());
    assert_eq!(pins, vec![(5, 10)]);
}

#[test]
fn second_search_pins_nothing() {
    let mut universe = bitmap(&[10, 11, 13]);
    for expected in [vec![(1, 10), (3, 11)], vec![]] {
        let step = rule_ids_sorted_by_precedence(
            bitmap(&[1, 2, 3]),
            &no_precedence(),
            "products".to_string(),
        );
        assert_eq!(follow(step, vec![], &mut universe, &mut Vec::new()), expected);
        assert_eq!(universe, bitmap(&[13]));
    }
}

#[test]
fn documents_outside_the_universe_are_not_pinned() {
    let step = rule_ids_sorted_by_precedence(
        bitmap(&[1, 2, 3]),
        &no_precedence(),
        "products".to_string(),
    );
    let mut universe = bitmap(&[12]);
    assert_eq!(follow(step, vec![], &mut universe, &mut Vec::new()), vec![(7, 12)]);
    assert_eq!(universe, bitmap(&[]));
}

#[test]
fn no_active_rules_have_no_pins() {
    let mut universe = bitmap(&[10]);
    let step =
        rule_ids_sorted_by_precedence(bitmap(&[]), &no_precedence(), "products".to_string());
    assert_eq!(follow(step, vec![], &mut universe, &mut Vec::new()), vec![]);
    let step =
        rule_ids_sorted_by_precedence(bitmap(&[]), &with_precedence(), "products".to_string());
    assert_eq!(follow(step, vec![], &mut universe, &mut Vec::new()), vec![]);
    assert_eq!(universe, bitmap(&[10]));
}

#[test]
fn action_is_about_its_own_index() {
    let products = "products".to_string();
    assert_eq!(
        pin(Some("products"), Some("1"), 0).active_document(&products),
        Some(&"1".to_string())
    );
    assert_eq!(pin(None, Some("1"), 0).active_document(&products), Some(&"1".to_string()));
    assert_eq!(pin(Some("product"), Some("1"), 0).active_document(&products), None);
    assert_eq!(pin(Some("products"), None, 0).active_document(&products), None);
    assert_eq!(pin(None, None, 0).active_document(&products), None);
}

fn context() -> SearchContext {
    SearchContext {
        index_uid: "products".to_string(),
        before_search: SearchTime::new((2025, 11, 28), (12, 0, 0), 0, (0, 0, 0)).unwrap(),
    }
}

#[test]
fn resolution_goes_from_the_rules_to_their_pins() {
    let fields = FieldsIdsMap::new()
        .insert("active".to_string(), 1)
        .insert("conditions.query.words".to_string(), 5)
        .insert("precedence".to_string(), 6);
    let rules = DynamicSearchRules::new(fields, 30);
    let terms = ["red", "red"]
        .iter()
        .map(|word| QueryTerm { original_single_word: Some(word.to_string()) })
        .collect();
    let mut step = rules.resolve_pins(terms, context());
    let mut universe = bitmap(&[10, 11]);
    let mut asked = Vec::new();
    let pins = loop {
        step = match step {
            ResolveStep::Rules(search) => {
                let found = match search.request() {
                    IndexRead::Facet { field: 1, value: "true" } => Some(bitmap(&[1, 2, 3, 4])),
                    IndexRead::Word { field: 5, word: "red" } => Some(bitmap(&[2, 4])),
                    IndexRead::WordCount { field: 5, count: 0 } => None,
                    IndexRead::WordCount { field: 5, count: 1 } => Some(bitmap(&[1])),
                    _ => panic!("another read"),
                };
                search.resume(found)
            }
            ResolveStep::WordCounts(search) => {
                assert_eq!(search.field(), 5);
                search.resume(vec![(1, bitmap(&[1])), (2, bitmap(&[2, 4])), (3, bitmap(&[3]))])
            }
            ResolveStep::Words(search) => {
                assert_eq!(search.field(), 5);
                let words = vec![("blue", &[3, 4][..]), ("red", &[2, 4][..])];
                search.resume(words.iter().map(|(w, ids)| (w.to_string(), bitmap(ids))).collect())
            }
            ResolveStep::Pins(step) => {
                break follow(step, vec![bitmap(&[2])], &mut universe, &mut asked);
            }
            ResolveStep::TimeUnwritable => panic!("the time can be written"),
        };
    };
    assert_eq!(asked[0], "sort 6 RoaringBitmap<[2]>".to_string());
    assert_eq!(pins, vec![(3, 11), (5, 10)]);
    assert_eq!(universe, bitmap(&[]));
}

#[test]
fn resolution_ends_where_the_time_cannot_be_written() {
    let rules = DynamicSearchRules::new(FieldsIdsMap::new(), 30);
    let far = SearchContext {
        index_uid: "products".to_string(),
        before_search: SearchTime::new((2025, 1, 1), (0, 0, 0), 0, (0, 0, 1)).unwrap(),
    };
    match rules.resolve_pins(vec![], far) {
        ResolveStep::Rules(search) => {
            assert!(matches!(search.request(), IndexRead::Documents));
            assert!(matches!(search.resume(Some(bitmap(&[1]))), ResolveStep::TimeUnwritable));
        }
        _ => panic!("nothing is read"),
    }
}

#[test]
fn rule_is_looked_up_by_name_and_then_by_number() {
    let rules = DynamicSearchRules::new(FieldsIdsMap::new(), 30);
    let lookup = rules.get("black-friday".to_string());
    assert_eq!(lookup.rule_uid(), "black-friday");
    assert!(matches!(lookup.resume(Some(7)), RuleLookupStep::Document(7)));
    assert!(matches!(
        rules.get("black-friday".to_string()).resume(None),
        RuleLookupStep::Absent
    ));
}

#[test]
fn rule_without_readable_actions_is_passed_over() {
    assert!(RuleRead::Gone.actions().is_none());
    assert!(RuleRead::WithoutActions.actions().is_none());
    assert!(RuleRead::Malformed.actions().is_none());
    let actions = RuleRead::Actions(vec![pin(None, Some("a"), 4)]).actions().unwrap();
    assert_eq!(actions.len(), 1);
    assert_eq!(actions[0].selector.id, Some("a".to_string()));
}

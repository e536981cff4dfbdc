use dynamic_search_rules::body::RuleBody;
use dynamic_search_rules::fields::{FieldsIdsMap, RuleFields};
use dynamic_search_rules::rules::{DynamicSearchRule, RulesByUid, RuleUid};
use dynamic_search_rules::store::{DynamicSearchRulesStore, StoreWrite, DYNAMIC_SEARCH_RULES};
use dynamic_search_rules::text::{compare_texts, same_text, TextOrder};

fn uid(name: &str) -> RuleUid {
    RuleUid { value: name.to_string() }
}

fn rule(name: &str, active: bool) -> DynamicSearchRule {
    let fields = RuleBody::new().set("description".to_string(), format!("\"about {name}\""));
    DynamicSearchRule { uid: uid(name), active, fields }
}

fn names(rules: &RulesByUid) -> Vec<String> {
    let mut names = Vec::new();
    for place in 0..rules.len() {
        let (uid, rule) = rules.entry(place).unwrap();
        names.push(format!("{}={}", uid.value, rule.active));
    }
    assert!(rules.entry(rules.len()).is_none());
    names
}

#[test]
fn rules_stand_in_the_order_of_their_names() {
    let mut rules = RulesByUid::new();
    for name in ["promo", "black-friday", "promo-2", "Promo", "été"] {
        rules.insert(uid(name), rule(name, true));
    }
    rules.insert(uid("promo"), rule("promo", false));
    assert_eq!(
        names(&rules),
        vec!["Promo=true", "black-friday=true", "promo=false", "promo-2=true", "été=true"]
    );
    assert!(!rules.get(&uid("promo")).unwrap().active);
    assert!(rules.get(&uid("prom")).is_none());
    rules.remove(&uid("promo"));
    rules.remove(&uid("unknown"));
    assert_eq!(names(&rules), vec!["Promo=true", "black-friday=true", "promo-2=true", "été=true"]);
}

#[test]
fn copy_of_the_rules_stays_as_it_was() {
    let mut store = DynamicSearchRulesStore::new(vec![(Some(uid("a")), rule("a", true))]);
    let before = store.get().clone();
    store.put_one(&rule("b", true));
    assert!(store.delete_one(&uid("a"), true));
    assert_eq!(names(&before), vec!["a=true"]);
    assert_eq!(names(store.get()), vec!["b=true"]);
}

#[test]
fn copy_of_the_store_stays_as_it_was() {
    let mut store = DynamicSearchRulesStore::new(vec![(Some(uid("a")), rule("a", true))]);
    let before = store.clone();
    store.put_one(&rule("a", false));
    assert_eq!(names(before.get()), vec!["a=true"]);
    assert_eq!(names(store.get()), vec!["a=false"]);
}

#[test]
fn entries_without_a_name_are_left_out() {
    let store = DynamicSearchRulesStore::new(vec![
        (Some(uid("b")), rule("b", true)),
        (None, rule("not a name", true)),
        (Some(uid("a")), rule("a", false)),
        (Some(uid("b")), rule("b", false)),
    ]);
    assert_eq!(names(store.get()), vec!["a=false", "b=false"]);
}

#[test]
fn put_one_puts_a_rule_under_its_own_name() {
    let mut store = DynamicSearchRulesStore::new(vec![]);
    let one = rule("one", true);
    match DynamicSearchRulesStore::put_one_write(&one) {
        StoreWrite::Put { uid, rule } => {
            assert_eq!(uid.value, "one");
            assert_eq!(rule.fields.get("description"), Some(&"\"about one\"".to_string()));
        }
        _ => panic!("another write"),
    }
    store.put_one(&one);
    store.put_one(&rule("one", false));
    assert_eq!(names(store.get()), vec!["one=false"]);
}

#[test]
fn delete_one_hides_only_what_was_deleted() {
    let mut store = DynamicSearchRulesStore::new(vec![(Some(uid("a")), rule("a", true))]);
    let a = uid("a");
    match DynamicSearchRulesStore::delete_one_write(&a) {
        StoreWrite::Delete { uid } => assert_eq!(uid.value, "a"),
        _ => panic!("another write"),
    }
    assert!(!store.delete_one(&a, false));
    assert_eq!(names(store.get()), vec!["a=true"]);
    assert!(store.delete_one(&a, true));
    assert_eq!(names(store.get()), Vec::<String>::new());
}

#[test]
fn put_replaces_every_rule() {
    let mut value = RulesByUid::new();
    value.insert(uid("b"), rule("b", true));
    value.insert(uid("a"), rule("a", true));
    let mut writes = Vec::new();
    for write in DynamicSearchRulesStore::put_writes(&value) {
        writes.push(match write {
            StoreWrite::Clear => "clear".to_string(),
            StoreWrite::Put { uid, rule } => format!("put {} {}", uid.value, rule.uid.value),
            StoreWrite::Delete { uid } => format!("delete {}", uid.value),
        });
    }
    assert_eq!(writes, vec!["clear", "put a a", "put b b"]);
    let mut store = DynamicSearchRulesStore::new(vec![(Some(uid("z")), rule("z", true))]);
    store.put(value);
    assert_eq!(names(store.get()), vec!["a=true", "b=true"]);
}

#[test]
fn store_has_one_database() {
    assert_eq!(DynamicSearchRulesStore::nb_db(), 1);
    assert_eq!(DYNAMIC_SEARCH_RULES, "dynamic-search-rules");
}

#[test]
fn texts_are_ordered_by_their_bytes() {
    for (a, b) in [("", "a"), ("a", "aa"), ("Z", "a"), ("a", "é"), ("z", "é"), ("é", "😀")] {
        assert!(a < b);
        assert!(matches!(compare_texts(a, b), TextOrder::Before));
        assert!(matches!(compare_texts(b, a), TextOrder::After));
        assert!(!same_text(a, b));
    }
    assert!(matches!(compare_texts("é", "é"), TextOrder::Same));
    assert!(same_text("", ""));
}

#[test]
fn fields_are_known_by_their_names() {
    let map = FieldsIdsMap::new()
        .insert("active".to_string(), 1)
        .insert("precedence".to_string(), 2)
        .insert("active".to_string(), 9);
    assert_eq!(map.id("active"), Some(9));
    assert_eq!(map.id("precedence"), Some(2));
    assert_eq!(map.id("activ"), None);
    let fields = RuleFields::of(&map);
    assert_eq!(fields.active, Some(9));
    assert_eq!(fields.precedence, Some(2));
    assert_eq!(fields.time_start, None);
    assert_eq!(fields.time_end, None);
    assert_eq!(fields.query_is_empty, None);
    assert_eq!(fields.query_words, None);
}

fn listed(body: &RuleBody) -> Vec<String> {
    let mut fields: Vec<String> = (0..body.len())
        .map(|place| {
            let (name, value) = body.entry(place).unwrap();
            format!("{name}={value}")
        })
        .collect();
    assert!(body.entry(body.len()).is_none());
    fields.sort();
    fields
}

#[test]
fn fields_are_replaced_by_name() {
    let body = RuleBody::new()
        .set("priority".to_string(), "10".to_string())
        .set("description".to_string(), "null".to_string())
        .set("priority".to_string(), "5".to_string());
    assert_eq!(listed(&body), vec!["description=null", "priority=5"]);
    assert_eq!(body.get("priority"), Some(&"5".to_string()));
    assert_eq!(body.get("actions"), None);
    let given = RuleBody::new()
        .set("actions".to_string(), "[]".to_string())
        .set("priority".to_string(), "1".to_string());
    let copy = body.clone();
    let after = body.replaced_by(&given);
    assert_eq!(listed(&after), vec!["actions=[]", "description=null", "priority=1"]);
    assert_eq!(listed(&copy), vec!["description=null", "priority=5"]);
    assert_eq!(listed(&RuleBody::new()), Vec::<String>::new());
}

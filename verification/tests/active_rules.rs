use dynamic_search_rules::active::{
    ActiveQuery, ActiveSearch, ActiveStep, IndexRead, QueryTerm,
};
use dynamic_search_rules::fields::{FieldsIdsMap, RuleFields};
use dynamic_search_rules::satisfied::satisfied_rules;
use dynamic_search_rules::search_time::SearchTime;
use roaring::RoaringBitmap;

const ACTIVE: u16 = 1;
const START: u16 = 2;
const END: u16 = 3;
const IS_EMPTY: u16 = 4;
const WORDS: u16 = 5;

fn bitmap(ids: &[u32]) -> RoaringBitmap {
    ids.iter().copied().collect()
}

#[derive(Default)]
struct Index {
    documents: RoaringBitmap,
    facets: Vec<(u16, &'static str, RoaringBitmap)>,
    words: Vec<(u16, &'static str, RoaringBitmap)>,
    counts: Vec<(u16, u8, RoaringBitmap)>,
    reads: Vec<String>,
}

impl Index {
    fn answer(&mut self, read: IndexRead<'_>) -> Option<RoaringBitmap> {
        match read {
            IndexRead::Documents => {
                self.reads.push("documents".to_string());
                Some(self.documents.clone())
            }
            IndexRead::Facet { field, value } => {
                self.reads.push(format!("facet {field} {value}"));
                self.facets.iter().find(|(f, v, _)| *f == field && *v == value).map(|(_, _, b)| b.clone())
            }
            IndexRead::FacetAfter { field, bound, within } => {
                self.reads.push(format!("after {field} {bound} {within:?}"));
                let mut all = RoaringBitmap::new();
                for (f, v, b) in &self.facets {
                    if *f == field && *v > bound {
                        all |= b;
                    }
                }
                Some(all & within)
            }
            IndexRead::FacetBefore { field, bound, within } => {
                self.reads.push(format!("before {field} {bound} {within:?}"));
                let mut all = RoaringBitmap::new();
                for (f, v, b) in &self.facets {
                    if *f == field && *v < bound {
                        all |= b;
                    }
                }
                Some(all & within)
            }
            IndexRead::Word { field, word } => {
                self.reads.push(format!("word {field} {word}"));
                self.words.iter().find(|(f, w, _)| *f == field && *w == word).map(|(_, _, b)| b.clone())
            }
            IndexRead::WordCount { field, count } => {
                self.reads.push(format!("count {field} {count}"));
                self.counts.iter().find(|(f, c, _)| *f == field && *c == count).map(|(_, _, b)| b.clone())
            }
        }
    }

    fn scan(&mut self, field: u16) -> Vec<(u8, RoaringBitmap)> {
        self.reads.push(format!("scan {field}"));
        self.counts
            .iter()
            .filter(|(f, c, _)| *f == field && *c >= 1)
            .map(|(_, c, b)| (*c, b.clone()))
            .collect()
    }

    fn all_words(&mut self, field: u16) -> Vec<(String, RoaringBitmap)> {
        self.reads.push(format!("words {field}"));
        self.words
            .iter()
            .filter(|(f, _, _)| *f == field)
            .map(|(_, w, b)| (w.to_string(), b.clone()))
            .collect()
    }

    fn active(&mut self, query: ActiveQuery) -> Option<RoaringBitmap> {
        let mut step = ActiveStep::Read(ActiveSearch::start(query));
        loop {
            step = match step {
                ActiveStep::Read(search) => {
                    let found = self.answer(search.request());
                    search.resume(found)
                }
                ActiveStep::Scan(scan) => {
                    let found = self.scan(scan.field());
                    scan.resume(found)
                }
                ActiveStep::Words(scan) => {
                    let found = self.all_words(scan.field());
                    scan.resume(found)
                }
                ActiveStep::Done(active) => return Some(active),
                ActiveStep::TimeUnwritable => return None,
            };
        }
    }
}

fn time() -> SearchTime {
    SearchTime::new((2025, 11, 28), (12, 0, 0), 0, (0, 0, 0)).unwrap()
}

fn map(names: &[(&str, u16)]) -> RuleFields {
    let mut map = FieldsIdsMap::new();
    for (name, id) in names {
        map = map.insert(name.to_string(), *id);
    }
    RuleFields::of(&map)
}

fn all_fields() -> RuleFields {
    map(&[
        ("active", ACTIVE),
        ("conditions.time.start", START),
        ("conditions.time.end", END),
        ("conditions.query.isEmpty", IS_EMPTY),
        ("conditions.query.words", WORDS),
    ])
}

fn query(fields: RuleFields, words: &[Option<&str>]) -> ActiveQuery {
    let mut terms = Vec::new();
    for word in words {
        terms.push(QueryTerm { original_single_word: word.map(|w| w.to_string()) });
    }
    ActiveQuery { fields, terms, before_search: time(), max_counted_words: 30 }
}

#[test]
fn all_documents_are_candidates_without_an_active_field() {
    let mut index = Index { documents: bitmap(&[1, 2, 70_000]), ..Index::default() };
    assert_eq!(index.active(query(map(&[]), &[])), Some(bitmap(&[1, 2, 70_000])));
    assert_eq!(index.reads, vec!["documents".to_string()]);
}

#[test]
fn no_rule_switched_on_ends_the_search_at_once() {
    let mut index = Index { documents: bitmap(&[1, 2]), ..Index::default() };
    assert_eq!(index.active(query(all_fields(), &[])), Some(bitmap(&[])));
    assert_eq!(index.reads, vec!["facet 1 true".to_string()]);
}

#[test]
fn no_rule_switched_on_needs_no_time() {
    let mut late = query(all_fields(), &[]);
    late.before_search = SearchTime::new((-1, 1, 1), (0, 0, 0), 0, (0, 0, 0)).unwrap();
    assert_eq!(Index::default().active(late), Some(bitmap(&[])));
}

#[test]
fn time_that_cannot_be_written_ends_the_search() {
    let mut index = Index { documents: bitmap(&[1]), ..Index::default() };
    let mut early = query(map(&[]), &[]);
    early.before_search = SearchTime::new((-1, 1, 1), (0, 0, 0), 0, (0, 0, 0)).unwrap();
    assert_eq!(index.active(early), None);
}

#[test]
fn rules_out_of_their_time_are_not_active() {
    let mut index = Index {
        facets: vec![
            (ACTIVE, "true", bitmap(&[1, 2, 3, 4])),
            (ACTIVE, "false", bitmap(&[5])),
            (START, "2025-11-28T12:00:00Z", bitmap(&[1])),
            (START, "2025-11-28T12:00:01Z", bitmap(&[2])),
            (END, "2025-11-28T11:59:59Z", bitmap(&[3])),
            (END, "2025-11-28T12:00:00Z", bitmap(&[4])),
        ],
        ..Index::default()
    };
    let fields = map(&[
        ("active", ACTIVE),
        ("conditions.time.start", START),
        ("conditions.time.end", END),
    ]);
    assert_eq!(index.active(query(fields, &[])), Some(bitmap(&[1, 4])));
    assert_eq!(
        index.reads,
        vec![
            "facet 1 true".to_string(),
            "after 2 2025-11-28T12:00:00Z RoaringBitmap<[1, 2, 3, 4]>".to_string(),
            "before 3 2025-11-28T12:00:00Z RoaringBitmap<[1, 3, 4]>".to_string(),
        ]
    );
}

#[test]
fn emptiness_of_the_query_decides() {
    let facets = vec![(IS_EMPTY, "true", bitmap(&[1])), (IS_EMPTY, "false", bitmap(&[2]))];
    let fields = map(&[("conditions.query.isEmpty", IS_EMPTY)]);
    let mut index = Index { documents: bitmap(&[1, 2, 3]), facets, ..Index::default() };
    assert_eq!(index.active(query(fields, &[])), Some(bitmap(&[1, 3])));
    assert_eq!(index.active(query(fields, &[Some("shoes")])), Some(bitmap(&[2, 3])));
    assert_eq!(index.active(query(fields, &[None])), Some(bitmap(&[2, 3])));
}

fn shop() -> Index {
    Index {
        facets: vec![(ACTIVE, "true", bitmap(&[1, 2, 3, 4]))],
        words: vec![
            (WORDS, "shoes", bitmap(&[2, 3, 4])),
            (WORDS, "red", bitmap(&[3, 4])),
            (WORDS, "leather", bitmap(&[4])),
        ],
        counts: vec![
            (WORDS, 0, bitmap(&[1])),
            (WORDS, 1, bitmap(&[2])),
            (WORDS, 2, bitmap(&[3])),
            (WORDS, 3, bitmap(&[4])),
        ],
        ..Index::default()
    }
}

fn words_only() -> RuleFields {
    map(&[("conditions.query.words", WORDS)])
}

#[test]
fn rules_get_the_words_that_they_ask_for() {
    let fields = map(&[("active", ACTIVE), ("conditions.query.words", WORDS)]);
    let mut index = shop();
    assert_eq!(
        index.active(query(fields, &[Some("red"), Some("shoes")])),
        Some(bitmap(&[1, 2, 3]))
    );
    assert_eq!(
        index.reads,
        vec![
            "facet 1 true".to_string(),
            "scan 5".to_string(),
            "word 5 red".to_string(),
            "word 5 shoes".to_string(),
            "count 5 0".to_string(),
            "count 5 1".to_string(),
            "count 5 2".to_string(),
        ]
    );
    assert_eq!(index.active(query(fields, &[Some("shoes")])), Some(bitmap(&[1, 2])));
    assert_eq!(index.active(query(fields, &[Some("red")])), Some(bitmap(&[1])));
    assert_eq!(index.active(query(fields, &[])), Some(bitmap(&[1])));
}

#[test]
fn rule_whose_word_is_missing_is_not_active() {
    let mut index = Index {
        documents: bitmap(&[1]),
        words: vec![(WORDS, "foo", bitmap(&[1]))],
        counts: vec![(WORDS, 1, bitmap(&[1]))],
        ..Index::default()
    };
    assert_eq!(index.active(query(words_only(), &[Some("bar")])), Some(bitmap(&[])));
    assert_eq!(index.active(query(words_only(), &[Some("foo")])), Some(bitmap(&[1])));
    assert_eq!(index.active(query(words_only(), &[Some("bar"), Some("foo")])), Some(bitmap(&[1])));
}

#[test]
fn rule_without_words_is_not_forgotten() {
    let mut index = Index {
        documents: bitmap(&[1, 2]),
        words: vec![(WORDS, "foo", bitmap(&[1]))],
        counts: vec![(WORDS, 1, bitmap(&[1]))],
        ..Index::default()
    };
    assert_eq!(index.active(query(words_only(), &[Some("foo")])), Some(bitmap(&[1, 2])));
    assert_eq!(index.active(query(words_only(), &[Some("bar")])), Some(bitmap(&[2])));
}

#[test]
fn repeated_word_counts_once() {
    let mut index = Index {
        documents: bitmap(&[1]),
        words: vec![(WORDS, "foo", bitmap(&[1])), (WORDS, "bar", bitmap(&[1]))],
        counts: vec![(WORDS, 2, bitmap(&[1]))],
        ..Index::default()
    };
    assert_eq!(index.active(query(words_only(), &[Some("foo"), Some("foo")])), Some(bitmap(&[])));
    assert_eq!(
        index.reads,
        vec![
            "documents".to_string(),
            "scan 5".to_string(),
            "word 5 foo".to_string(),
            "count 5 0".to_string(),
            "count 5 1".to_string(),
            "words 5".to_string(),
        ]
    );
    assert_eq!(
        index.active(query(words_only(), &[Some("foo"), Some("foo"), Some("bar")])),
        Some(bitmap(&[1]))
    );
}

#[test]
fn rule_may_ask_for_a_word_twice() {
    // Rule 1 asks for "foo foo", rule 2 for "foo bar", rule 3 for "foo foo bar".
    let mut index = Index {
        documents: bitmap(&[1, 2, 3]),
        words: vec![(WORDS, "bar", bitmap(&[2, 3])), (WORDS, "foo", bitmap(&[1, 2, 3]))],
        counts: vec![(WORDS, 2, bitmap(&[1, 2])), (WORDS, 3, bitmap(&[3]))],
        ..Index::default()
    };
    let mut active = |words: &[&str]| {
        let words: Vec<Option<&str>> = words.iter().map(|word| Some(*word)).collect();
        index.active(query(words_only(), &words)).unwrap()
    };
    assert_eq!(active(&["foo"]), bitmap(&[]));
    assert_eq!(active(&["foo", "foo"]), bitmap(&[1]));
    assert_eq!(active(&["foo", "baz"]), bitmap(&[1]));
    assert_eq!(active(&["foo", "bar"]), bitmap(&[1, 2]));
    assert_eq!(active(&["bar", "foo", "foo"]), bitmap(&[1, 2, 3]));
    assert_eq!(active(&["bar", "bar", "bar"]), bitmap(&[]));
}

#[test]
fn words_are_read_only_for_rules_in_doubt() {
    let mut index = shop();
    let fields = map(&[("active", ACTIVE), ("conditions.query.words", WORDS)]);
    index.active(query(fields, &[Some("red"), Some("shoes")]));
    index.active(query(fields, &[Some("hat"), Some("coat")]));
    assert!(!index.reads.contains(&"words 5".to_string()));
    assert_eq!(index.active(query(fields, &[Some("red"), Some("hat")])), Some(bitmap(&[1])));
    assert!(index.reads.contains(&"words 5".to_string()));
}

#[test]
fn order_of_the_terms_plays_no_part() {
    let fields = map(&[("active", ACTIVE), ("conditions.query.words", WORDS)]);
    let a = shop().active(query(fields, &[Some("red"), None, Some("shoes")]));
    let b = shop().active(query(fields, &[Some("shoes"), Some("red"), None]));
    assert_eq!(a, Some(bitmap(&[1, 2, 3])));
    assert_eq!(a, b);
}

#[test]
fn terms_that_are_no_single_word_are_not_looked_up() {
    let fields = map(&[("active", ACTIVE), ("conditions.query.words", WORDS)]);
    let mut index = shop();
    assert_eq!(index.active(query(fields, &[None, Some("unknown")])), Some(bitmap(&[1])));
    assert_eq!(
        index.reads,
        vec![
            "facet 1 true".to_string(),
            "scan 5".to_string(),
            "word 5 unknown".to_string(),
            "count 5 0".to_string(),
        ]
    );
}

#[test]
fn word_without_active_rules_is_left_out() {
    let fields = map(&[("active", ACTIVE), ("conditions.query.words", WORDS)]);
    let mut index = Index {
        facets: vec![(ACTIVE, "true", bitmap(&[1, 2]))],
        words: vec![(WORDS, "red", bitmap(&[3])), (WORDS, "shoes", bitmap(&[2, 3]))],
        counts: vec![(WORDS, 1, bitmap(&[2])), (WORDS, 2, bitmap(&[3]))],
        ..Index::default()
    };
    assert_eq!(
        index.active(query(fields, &[Some("red"), Some("shoes")])),
        Some(bitmap(&[1, 2]))
    );
    assert_eq!(
        index.reads,
        vec![
            "facet 1 true".to_string(),
            "scan 5".to_string(),
            "word 5 red".to_string(),
            "word 5 shoes".to_string(),
            "count 5 0".to_string(),
            "count 5 1".to_string(),
        ]
    );
}

#[test]
fn only_counted_words_are_looked_up() {
    let mut capped = query(words_only(), &[Some("a"), Some("b"), Some("c")]);
    capped.max_counted_words = 2;
    let mut index = Index {
        documents: bitmap(&[1, 2, 3]),
        words: vec![(WORDS, "c", bitmap(&[3]))],
        counts: vec![(WORDS, 3, bitmap(&[2])), (WORDS, 1, bitmap(&[3]))],
        ..Index::default()
    };
    assert_eq!(index.active(capped), Some(bitmap(&[1])));
    assert_eq!(
        index.reads,
        vec![
            "documents".to_string(),
            "scan 5".to_string(),
            "word 5 a".to_string(),
            "word 5 b".to_string(),
            "count 5 0".to_string(),
        ]
    );
}

#[test]
fn largest_count_of_words_is_within_reach() {
    let mut index = Index {
        documents: bitmap(&[1, 2, 4]),
        counts: vec![(WORDS, 0, bitmap(&[2])), (WORDS, 255, bitmap(&[1]))],
        ..Index::default()
    };
    let mut words: Vec<Option<&str>> = Vec::new();
    for i in 0..255 {
        let word: &'static str = Box::leak(format!("w{i}").into_boxed_str());
        index.words.push((WORDS, word, bitmap(&[1])));
        words.push(Some(word));
    }
    let mut full = query(words_only(), &words);
    full.max_counted_words = 255;
    assert_eq!(index.active(full), Some(bitmap(&[1, 2, 4])));
    assert_eq!(index.reads.len(), 2 + 255 + 256);

    let mut nearly = query(words_only(), &words);
    nearly.max_counted_words = 254;
    assert_eq!(index.active(nearly), Some(bitmap(&[2, 4])));
}

#[test]
fn rule_that_is_switched_off_stays_off() {
    let fields = map(&[("active", ACTIVE), ("conditions.query.words", WORDS)]);
    let mut index = Index {
        facets: vec![(ACTIVE, "true", bitmap(&[1]))],
        counts: vec![(WORDS, 0, bitmap(&[7]))],
        ..Index::default()
    };
    assert_eq!(index.active(query(fields, &[])), Some(bitmap(&[1])));
}

#[test]
fn share_of_a_scan_does_not_matter() {
    for counts in [
        vec![(WORDS, 1, bitmap(&[1, 2])), (WORDS, 2, bitmap(&[3]))],
        vec![(WORDS, 9, bitmap(&[3, 1])), (WORDS, 255, bitmap(&[2]))],
    ] {
        let mut index = Index { documents: bitmap(&[1, 2, 3, 4]), counts, ..Index::default() };
        assert_eq!(index.active(query(words_only(), &[])), Some(bitmap(&[4])));
    }
}

#[test]
fn rules_asking_for_no_word_are_satisfied() {
    let words = vec![bitmap(&[5])];
    assert_eq!(satisfied_rules(&bitmap(&[1, 2]), &words, 0), bitmap(&[1, 2]));
}

#[test]
fn rules_asking_for_one_word_need_one_of_them() {
    let words = vec![bitmap(&[1, 5]), bitmap(&[2, 5])];
    assert_eq!(satisfied_rules(&bitmap(&[1, 2, 3]), &words, 1), bitmap(&[1, 2]));
    assert_eq!(satisfied_rules(&bitmap(&[1, 2]), &vec![bitmap(&[1, 2])], 1), bitmap(&[1, 2]));
    assert_eq!(satisfied_rules(&bitmap(&[1, 2]), &vec![], 1), bitmap(&[]));
}

#[test]
fn rules_asking_for_two_words_need_two_of_them() {
    let rules = bitmap(&[1, 2, 3, 4]);
    let words = vec![bitmap(&[1, 2, 9]), bitmap(&[2, 3, 9]), bitmap(&[3, 4])];
    assert_eq!(satisfied_rules(&rules, &words, 2), bitmap(&[2, 3]));
    assert_eq!(satisfied_rules(&rules, &words, 3), bitmap(&[]));
    assert_eq!(satisfied_rules(&rules, &words, 4), bitmap(&[]));
}

#[test]
fn rules_asking_for_three_words_need_three_of_them() {
    let rules = bitmap(&[1, 2, 3]);
    let words = vec![bitmap(&[1, 2]), bitmap(&[1, 3]), bitmap(&[2, 1]), bitmap(&[2, 3])];
    assert_eq!(satisfied_rules(&rules, &words, 3), bitmap(&[1, 2]));
}

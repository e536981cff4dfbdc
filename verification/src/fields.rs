use crate::text::same_text;
use vstd::prelude::*;

verus! {

/// The number by which the index knows a field.
pub type FieldId = u16;

/// The fields of the rules' index: each known name has one id.
pub struct FieldsIdsMap {
    entries: Vec<(String, FieldId)>,
}

impl View for FieldsIdsMap {
    type V = Map<Seq<char>, FieldId>;

    closed spec fn view(&self) -> Map<Seq<char>, FieldId> {
        Map::new(
            |name: Seq<char>| exists|i: int|
                0 <= i < self.entries.len() && (#[trigger] self.entries[i]).0@ == name,
            |name: Seq<char>| self.entries[self.position(name)].1,
        )
    }
}

impl FieldsIdsMap {
    spec fn position(&self, name: Seq<char>) -> int {
        choose|i: int| 0 <= i < self.entries.len() && (#[trigger] self.entries[i]).0@ == name
    }

    /// No name stands twice.
    #[verifier::type_invariant]
    spec fn names_differ(&self) -> bool {
        forall|i: int, j: int|
            0 <= i < self.entries.len() && 0 <= j < self.entries.len()
                && (#[trigger] self.entries[i]).0@ == (#[trigger] self.entries[j]).0@ ==> i == j
    }

    /// A map without fields.
    pub fn new() -> (map: Self)
        ensures
            map@ == Map::<Seq<char>, FieldId>::empty(),
    {
        let map = FieldsIdsMap { entries: Vec::new() };
        assert(map@ =~= Map::<Seq<char>, FieldId>::empty());
        map
    }

    fn find(&self, name: &str) -> (found: Option<usize>)
        ensures
            match found {
                Some(i) => i < self.entries.len() && self.entries[i as int].0@ == name@,
                None => forall|i: int|
                    0 <= i < self.entries.len() ==> (#[trigger] self.entries[i]).0@ != name@,
            },
    {
        let mut i: usize = 0;
        while i < self.entries.len()
            invariant
                i <= self.entries.len(),
                forall|j: int| 0 <= j < i ==> (#[trigger] self.entries[j]).0@ != name@,
            decreases self.entries.len() - i,
        {
            if same_text(self.entries[i].0.as_str(), name) {
                return Some(i);
            }
            i = i + 1;
        }
        None
    }

    /// The id of a field, where the name is known.
    pub fn id(&self, name: &str) -> (id: Option<FieldId>)
        ensures
            id == (if self@.contains_key(name@) {
                Some(self@[name@])
            } else {
                None
            }),
    {
        proof {
            use_type_invariant(self);
        }
        match self.find(name) {
            Some(i) => {
                assert(self.entries[self.position(name@)].0@ == name@);
                Some(self.entries[i].1)
            },
            None => None,
        }
    }

    /// Makes `id` the id of the field `name`.
    pub fn insert(self, name: String, id: FieldId) -> (map: Self)
        ensures
            map@ == self@.insert(name@, id),
    {
        proof {
            use_type_invariant(&self);
        }
        let found = self.find(name.as_str());
        let ghost before = self;
        let ghost key = name@;
        let mut entries = self.entries;
        match found {
            Some(i) => {
                entries.set(i, (name, id));
            },
            None => {
                entries.push((name, id));
            },
        }
        proof {
            let at: int = match found {
                Some(i) => i as int,
                None => entries.len() - 1,
            };
            assert forall|i: int| 0 <= i < entries.len() && i != at implies entries[i]
                == before.entries[i] by {}
            assert(entries[at].0@ == key && entries[at].1 == id);
        }
        let map = FieldsIdsMap { entries };
        proof {
            use_type_invariant(&map);
            assert forall|n: Seq<char>|
                map@.contains_key(n) == #[trigger] before@.insert(key, id).contains_key(n) by {
                if before@.contains_key(n) && n != key {
                    let i = before.position(n);
                    assert(map.entries[i].0@ == n);
                }
                if map@.contains_key(n) && n != key {
                    let i = map.position(n);
                    assert(before.entries[i].0@ == n);
                }
            }
            assert forall|n: Seq<char>| #[trigger]
                map@.contains_key(n) implies map@[n] == before@.insert(key, id)[n] by {
                let i = map.position(n);
                assert(map.entries[i].0@ == n);
                if n != key {
                    assert(before.entries[i].0@ == n);
                    assert(before.entries[before.position(n)].0@ == n);
                }
            }
            assert(map@ =~= before@.insert(key, id));
        }
        map
    }
}

/// The fields that decide whether a rule is active, and in which order rules apply.
#[derive(Clone, Copy)]
pub struct RuleFields {
    pub active: Option<FieldId>,
    pub time_start: Option<FieldId>,
    pub time_end: Option<FieldId>,
    pub query_is_empty: Option<FieldId>,
    pub query_words: Option<FieldId>,
    pub precedence: Option<FieldId>,
}

/// The id of a field, where the name is known.
pub open spec fn field_id(map: Map<Seq<char>, FieldId>, name: Seq<char>) -> Option<FieldId> {
    if map.contains_key(name) {
        Some(map[name])
    } else {
        None
    }
}

/// The fields of a rule, by their names in the index.
pub open spec fn rule_fields(map: Map<Seq<char>, FieldId>) -> RuleFields {
    RuleFields {
        active: field_id(map, "active"@),
        time_start: field_id(map, "conditions.time.start"@),
        time_end: field_id(map, "conditions.time.end"@),
        query_is_empty: field_id(map, "conditions.query.isEmpty"@),
        query_words: field_id(map, "conditions.query.words"@),
        precedence: field_id(map, "precedence"@),
    }
}

impl RuleFields {
    /// Looks up the fields of a rule.
    pub fn of(map: &FieldsIdsMap) -> (fields: RuleFields)
        ensures
            fields == rule_fields(map@),
            fields.active is Some <==> map@.contains_key("active"@),
            fields.active is Some ==> fields.active->0 == map@["active"@],
            fields.time_start is Some <==> map@.contains_key("conditions.time.start"@),
            fields.time_start is Some ==> fields.time_start->0 == map@["conditions.time.start"@],
            fields.time_end is Some <==> map@.contains_key("conditions.time.end"@),
            fields.time_end is Some ==> fields.time_end->0 == map@["conditions.time.end"@],
            fields.query_is_empty is Some <==> map@.contains_key("conditions.query.isEmpty"@),
            fields.query_is_empty is Some ==> fields.query_is_empty->0
                == map@["conditions.query.isEmpty"@],
            fields.query_words is Some <==> map@.contains_key("conditions.query.words"@),
            fields.query_words is Some ==> fields.query_words->0 == map@["conditions.query.words"@],
            fields.precedence is Some <==> map@.contains_key("precedence"@),
            fields.precedence is Some ==> fields.precedence->0 == map@["precedence"@],
    {
        RuleFields {
            active: map.id("active"),
            time_start: map.id("conditions.time.start"),
            time_end: map.id("conditions.time.end"),
            query_is_empty: map.id("conditions.query.isEmpty"),
            query_words: map.id("conditions.query.words"),
            precedence: map.id("precedence"),
        }
    }
}

} // verus!

use crate::text::same_text;
use vstd::prelude::*;

verus! {

/// Fields by their names, each with its value as JSON.
#[derive(Debug)]
pub struct RuleBody {
    entries: Vec<(String, String)>,
}

/// Some entry has the name.
spec fn has_field(entries: Seq<(String, String)>, name: Seq<char>) -> bool {
    exists|i: int| 0 <= i < entries.len() && (#[trigger] entries[i]).0@ == name
}

/// The place of an entry with the name.
spec fn place_of(entries: Seq<(String, String)>, name: Seq<char>) -> int {
    choose|i: int| 0 <= i < entries.len() && (#[trigger] entries[i]).0@ == name
}

spec fn fields_of(entries: Seq<(String, String)>) -> Map<Seq<char>, Seq<char>> {
    Map::new(
        |name: Seq<char>| has_field(entries, name),
        |name: Seq<char>| entries[place_of(entries, name)].1@,
    )
}

/// No name stands twice.
spec fn names_differ(entries: Seq<(String, String)>) -> bool {
    forall|i: int, j: int|
        0 <= i < entries.len() && 0 <= j < entries.len() && (#[trigger] entries[i]).0@ == (
        #[trigger] entries[j]).0@ ==> i == j
}

impl View for RuleBody {
    type V = Map<Seq<char>, Seq<char>>;

    closed spec fn view(&self) -> Map<Seq<char>, Seq<char>> {
        fields_of(self.entries@)
    }
}

/// The field at `at` is in the map, with its value.
proof fn lemma_field_at(entries: Seq<(String, String)>, at: int)
    requires
        names_differ(entries),
        0 <= at < entries.len(),
    ensures
        fields_of(entries).contains_key(entries[at].0@),
        fields_of(entries)[entries[at].0@] == entries[at].1@,
{
    assert(entries[place_of(entries, entries[at].0@)].0@ == entries[at].0@);
}

/// Entries that are the same but for the one at `at`, which is new or has kept its name.
proof fn lemma_field_set(before: Seq<(String, String)>, after: Seq<(String, String)>, at: int)
    requires
        names_differ(before),
        names_differ(after),
        0 <= at < after.len(),
        after == before.push(after[at]) && at == before.len() || after == before.update(
            at,
            after[at],
        ) && at < before.len() && before[at].0@ == after[at].0@,
    ensures
        fields_of(after) == fields_of(before).insert(after[at].0@, after[at].1@),
{
    let map = fields_of(before).insert(after[at].0@, after[at].1@);
    assert forall|name: Seq<char>| #[trigger]
        map.contains_key(name) <==> fields_of(after).contains_key(name) by {
        if has_field(before, name) {
            assert(after[place_of(before, name)].0@ == name);
        }
        if has_field(after, name) && name != after[at].0@ {
            assert(before[place_of(after, name)].0@ == name);
        }
        assert(after[at].0@ == after[at].0@);
    }
    assert forall|name: Seq<char>| #[trigger] map.contains_key(name) implies map[name] == fields_of(
        after,
    )[name] by {
        if name == after[at].0@ {
            lemma_field_at(after, at);
        } else {
            let i = place_of(before, name);
            assert(after[i] == before[i]);
            lemma_field_at(after, i);
        }
    }
    assert(fields_of(after) =~= map);
}

impl RuleBody {
    #[verifier::type_invariant]
    spec fn well_formed(&self) -> bool {
        names_differ(self.entries@)
    }

    /// No fields.
    pub fn new() -> (body: Self)
        ensures
            body@ == Map::<Seq<char>, Seq<char>>::empty(),
    {
        let body = RuleBody { entries: Vec::new() };
        assert(body@ =~= Map::<Seq<char>, Seq<char>>::empty());
        body
    }

    fn find(&self, name: &str) -> (found: Option<usize>)
        ensures
            match found {
                Some(i) => i < self.entries.len() && self.entries@[i as int].0@ == name@,
                None => !has_field(self.entries@, name@),
            },
    {
        let mut i: usize = 0;
        while i < self.entries.len()
            invariant
                i <= self.entries.len(),
                forall|j: int| 0 <= j < i ==> (#[trigger] self.entries@[j]).0@ != name@,
            decreases self.entries.len() - i,
        {
            if same_text(self.entries[i].0.as_str(), name) {
                return Some(i);
            }
            i = i + 1;
        }
        None
    }

    /// The value of a field.
    pub fn get(&self, name: &str) -> (value: Option<&String>)
        ensures
            match value {
                Some(value) => self@.contains_key(name@) && self@[name@] == value@,
                None => !self@.contains_key(name@),
            },
    {
        proof {
            use_type_invariant(self);
        }
        match self.find(name) {
            Some(i) => {
                proof {
                    lemma_field_at(self.entries@, i as int);
                }
                Some(&self.entries[i].1)
            },
            None => None,
        }
    }

    /// How many fields there are.
    pub closed spec fn number(&self) -> nat {
        self.entries@.len()
    }

    /// The name of the field at a place.
    pub closed spec fn name_at(&self, place: int) -> Seq<char> {
        self.entries@[place].0@
    }

    /// How many fields there are: each stands at one place.
    pub fn len(&self) -> (len: usize)
        ensures
            len == self.number(),
            forall|name: Seq<char>| #[trigger]
                self@.contains_key(name) <==> exists|i: int|
                    0 <= i < self.number() && #[trigger] self.name_at(i) == name,
            forall|i: int, j: int|
                0 <= i < j < self.number() ==> #[trigger] self.name_at(i)
                    != #[trigger] self.name_at(j),
    {
        proof {
            use_type_invariant(self);
            assert forall|name: Seq<char>| #[trigger]
                self@.contains_key(name) <==> exists|i: int|
                    0 <= i < self.number() && #[trigger] self.name_at(i) == name by {
                if has_field(self.entries@, name) {
                    assert(self.name_at(place_of(self.entries@, name)) == name);
                }
                if exists|i: int| 0 <= i < self.number() && #[trigger] self.name_at(i) == name {
                    let i = choose|i: int|
                        0 <= i < self.number() && #[trigger] self.name_at(i) == name;
                    assert(self.entries@[i].0@ == name);
                }
            }
        }
        self.entries.len()
    }

    /// The field at a place: its name and its value.
    pub fn entry(&self, place: usize) -> (entry: Option<(&String, &String)>)
        ensures
            match entry {
                Some((name, value)) => {
                    &&& place < self.number()
                    &&& name@ == self.name_at(place as int)
                    &&& self@.contains_key(name@)
                    &&& self@[name@] == value@
                },
                None => place >= self.number(),
            },
    {
        proof {
            use_type_invariant(self);
        }
        if place < self.entries.len() {
            proof {
                lemma_field_at(self.entries@, place as int);
            }
            Some((&self.entries[place].0, &self.entries[place].1))
        } else {
            None
        }
    }

    /// Makes `value` the value of a field.
    pub fn set(self, name: String, value: String) -> (body: Self)
        ensures
            body@ == self@.insert(name@, value@),
    {
        proof {
            use_type_invariant(&self);
        }
        let found = self.find(name.as_str());
        let ghost before = self.entries@;
        let ghost key = name@;
        let mut entries = self.entries;
        match found {
            Some(i) => {
                entries.set(i, (name, value));
            },
            None => {
                entries.push((name, value));
            },
        }
        proof {
            let at: int = match found {
                Some(i) => i as int,
                None => before.len() as int,
            };
            assert forall|i: int, j: int|
                0 <= i < entries.len() && 0 <= j < entries.len() && (#[trigger] entries@[i]).0@ == (
                #[trigger] entries@[j]).0@ implies i == j by {
                if i != at {
                    assert(before[i].0@ == entries@[i].0@);
                }
                if j != at {
                    assert(before[j].0@ == entries@[j].0@);
                }
            }
            lemma_field_set(before, entries@, at);
        }
        RuleBody { entries }
    }

    /// These fields, with those of `given` in the place of fields with the same names.
    pub fn replaced_by(self, given: &RuleBody) -> (body: Self)
        ensures
            body@ == self@.union_prefer_right(given@),
    {
        proof {
            use_type_invariant(given);
        }
        let ghost start = self@;
        let mut body = self;
        let mut i: usize = 0;
        assert(body@ =~= start.union_prefer_right(fields_of(given.entries@.take(0))));
        while i < given.entries.len()
            invariant
                i <= given.entries.len(),
                names_differ(given.entries@),
                body@ == start.union_prefer_right(fields_of(given.entries@.take(i as int))),
            decreases given.entries.len() - i,
        {
            let ghost some = given.entries@.take(i as int);
            let ghost more = given.entries@.take(i + 1);
            proof {
                assert forall|j: int, k: int|
                    0 <= j < more.len() && 0 <= k < more.len() && (#[trigger] more[j]).0@ == (
                    #[trigger] more[k]).0@ implies j == k by {
                    assert(more[j] == given.entries@[j] && more[k] == given.entries@[k]);
                }
                assert forall|j: int, k: int|
                    0 <= j < some.len() && 0 <= k < some.len() && (#[trigger] some[j]).0@ == (
                    #[trigger] some[k]).0@ implies j == k by {
                    assert(some[j] == given.entries@[j] && some[k] == given.entries@[k]);
                }
                assert(more =~= some.push(more[i as int]));
                lemma_field_set(some, more, i as int);
            }
            body = body.set(given.entries[i].0.clone(), given.entries[i].1.clone());
            assert(body@ =~= start.union_prefer_right(fields_of(more)));
            i = i + 1;
        }
        assert(given.entries@.take(given.entries.len() as int) =~= given.entries@);
        body
    }
}

impl Clone for RuleBody {
    fn clone(&self) -> (copy: Self)
        ensures
            copy@ == self@,
    {
        let copy = RuleBody::new().replaced_by(self);
        assert(copy@ =~= self@);
        copy
    }
}

} // verus!

use crate::body::RuleBody;
use crate::text::{
    compare_texts, lemma_precedes_irreflexive, lemma_precedes_transitive,
    text_precedes, TextOrder,
};
use vstd::prelude::*;

verus! {

/// The name of a rule.
#[derive(Debug)]
pub struct RuleUid {
    pub value: String,
}

impl View for RuleUid {
    type V = Seq<char>;

    open spec fn view(&self) -> Seq<char> {
        self.value@
    }
}

impl Clone for RuleUid {
    fn clone(&self) -> (copy: Self)
        ensures
            copy == *self,
    {
        RuleUid { value: self.value.clone() }
    }
}

/// A search rule.
#[derive(Debug)]
pub struct DynamicSearchRule {
    /// The name of the rule.
    pub uid: RuleUid,
    /// The rule is switched on.
    pub active: bool,
    /// The other fields of the rule.
    pub fields: RuleBody,
}

pub struct RuleView {
    pub uid: Seq<char>,
    pub active: bool,
    pub fields: Map<Seq<char>, Seq<char>>,
}

impl View for DynamicSearchRule {
    type V = RuleView;

    open spec fn view(&self) -> RuleView {
        RuleView { uid: self.uid@, active: self.active, fields: self.fields@ }
    }
}

impl Clone for DynamicSearchRule {
    fn clone(&self) -> (copy: Self)
        ensures
            copy@ == self@,
            copy.uid == self.uid,
            copy.active == self.active,
            copy.fields@ == self.fields@,
    {
        DynamicSearchRule {
            uid: self.uid.clone(),
            active: self.active,
            fields: self.fields.clone(),
        }
    }
}

/// Rules say the same exactly when they have the same name, are both switched on or both off, and
/// have the same other fields.
pub proof fn law_rules_say_their_name_activity_and_fields(
    a: DynamicSearchRule,
    b: DynamicSearchRule,
)
    ensures
        a@ == b@ <==> a.uid.value@ == b.uid.value@ && a.active == b.active && a.fields@ == b.fields@,
        a@.uid == a.uid.value@,
        a@.active == a.active,
        a@.fields == a.fields@,
{
}

/// Rules by their names, in the order of the names.
#[derive(Debug)]
pub struct RulesByUid {
    entries: Vec<(RuleUid, DynamicSearchRule)>,
}

impl View for RulesByUid {
    type V = Map<Seq<char>, RuleView>;

    closed spec fn view(&self) -> Map<Seq<char>, RuleView> {
        entries_map(self.entries@)
    }
}

/// Some entry has the name.
spec fn has_name(entries: Seq<(RuleUid, DynamicSearchRule)>, name: Seq<char>) -> bool {
    exists|i: int| 0 <= i < entries.len() && (#[trigger] entries[i]).0@ == name
}

/// The place of an entry with the name.
spec fn place_of(entries: Seq<(RuleUid, DynamicSearchRule)>, name: Seq<char>) -> int {
    choose|i: int| 0 <= i < entries.len() && (#[trigger] entries[i]).0@ == name
}

spec fn entries_map(entries: Seq<(RuleUid, DynamicSearchRule)>) -> Map<Seq<char>, RuleView> {
    Map::new(
        |name: Seq<char>| has_name(entries, name),
        |name: Seq<char>| entries[place_of(entries, name)].1@,
    )
}

/// Each name comes before the next.
spec fn names_ascend(entries: Seq<(RuleUid, DynamicSearchRule)>) -> bool {
    forall|i: int, j: int|
        0 <= i < j < entries.len() ==> text_precedes(
            (#[trigger] entries[i]).0@,
            (#[trigger] entries[j]).0@,
        )
}

/// Where names ascend, a name has one place.
proof fn lemma_one_place(entries: Seq<(RuleUid, DynamicSearchRule)>, i: int)
    requires
        names_ascend(entries),
        0 <= i < entries.len(),
    ensures
        has_name(entries, entries[i].0@),
        place_of(entries, entries[i].0@) == i,
{
    let name = entries[i].0@;
    let j = place_of(entries, name);
    assert(has_name(entries, name));
    lemma_precedes_irreflexive(name);
    if i < j {
        assert(text_precedes(entries[i].0@, entries[j].0@));
    } else if j < i {
        assert(text_precedes(entries[j].0@, entries[i].0@));
    }
}

/// The names of the rules, in their order: `names` has every name of `rules` once, and each name
/// comes before the next.
pub open spec fn lists_names(names: Seq<Seq<char>>, rules: Map<Seq<char>, RuleView>) -> bool {
    &&& forall|i: int, j: int|
        0 <= i < j < names.len() ==> text_precedes(#[trigger] names[i], #[trigger] names[j])
    &&& forall|name: Seq<char>| #[trigger] rules.contains_key(name) <==> names.contains(name)
}

impl RulesByUid {
    #[verifier::type_invariant]
    spec fn well_formed(&self) -> bool {
        names_ascend(self.entries@)
    }

    /// The names of the rules, in their order.
    pub closed spec fn names(&self) -> Seq<Seq<char>> {
        self.entries@.map_values(|entry: (RuleUid, DynamicSearchRule)| entry.0@)
    }

    /// No rules.
    pub fn new() -> (rules: Self)
        ensures
            rules@ == Map::<Seq<char>, RuleView>::empty(),
    {
        let rules = RulesByUid { entries: Vec::new() };
        assert(rules@ =~= Map::<Seq<char>, RuleView>::empty());
        rules
    }

    /// How many rules there are.
    pub fn len(&self) -> (len: usize)
        ensures
            len == self.names().len(),
            lists_names(self.names(), self@),
            forall|i: int, j: int|
                0 <= i < j < self.names().len() ==> text_precedes(
                    #[trigger] self.names()[i],
                    #[trigger] self.names()[j],
                ),
            forall|name: Seq<char>| #[trigger]
                self@.contains_key(name) <==> self.names().contains(name),
    {
        proof {
            use_type_invariant(self);
            lemma_names(self.entries@);
        }
        self.entries.len()
    }

    /// The rule with a name.
    pub fn get(&self, uid: &RuleUid) -> (rule: Option<&DynamicSearchRule>)
        ensures
            match rule {
                Some(rule) => self@.contains_key(uid@) && self@[uid@] == rule@,
                None => !self@.contains_key(uid@),
            },
    {
        proof {
            use_type_invariant(self);
        }
        let (place, found) = find_place(&self.entries, uid);
        if found {
            proof {
                lemma_one_place(self.entries@, place as int);
            }
            Some(&self.entries[place].1)
        } else {
            proof {
                lemma_no_place(self.entries@, place as int, uid@);
            }
            None
        }
    }

    /// The rule at a place in the order of the names, with its name.
    pub fn entry(&self, place: usize) -> (entry: Option<(&RuleUid, &DynamicSearchRule)>)
        ensures
            lists_names(self.names(), self@),
            forall|i: int, j: int|
                0 <= i < j < self.names().len() ==> text_precedes(
                    #[trigger] self.names()[i],
                    #[trigger] self.names()[j],
                ),
            forall|name: Seq<char>| #[trigger]
                self@.contains_key(name) <==> self.names().contains(name),
            match entry {
                Some((uid, rule)) => {
                    &&& place < self.names().len()
                    &&& uid@ == self.names()[place as int]
                    &&& rule@ == self@[uid@]
                },
                None => place >= self.names().len(),
            },
    {
        proof {
            use_type_invariant(self);
            lemma_names(self.entries@);
        }
        if place < self.entries.len() {
            proof {
                lemma_one_place(self.entries@, place as int);
            }
            Some((&self.entries[place].0, &self.entries[place].1))
        } else {
            None
        }
    }

    /// Makes `rule` the rule with the name `uid`.
    pub fn insert(&mut self, uid: RuleUid, rule: DynamicSearchRule)
        ensures
            final(self)@ == old(self)@.insert(uid@, rule@),
    {
        proof {
            use_type_invariant(&*self);
        }
        let ghost before = self.entries@;
        let ghost name = uid@;
        let mut entries: Vec<(RuleUid, DynamicSearchRule)> = Vec::new();
        std::mem::swap(&mut entries, &mut self.entries);
        let (place, found) = find_place(&entries, &uid);
        if found {
            entries.set(place, (uid, rule));
        } else {
            entries.insert(place, (uid, rule));
        }
        proof {
            let at = place as int;
            if found {
                assert forall|i: int, j: int| 0 <= i < j < entries.len() implies text_precedes(
                    (#[trigger] entries@[i]).0@,
                    (#[trigger] entries@[j]).0@,
                ) by {
                    assert(entries@[i].0@ == before[i].0@);
                    assert(entries@[j].0@ == before[j].0@);
                }
                lemma_replaced(before, entries@, at);
            } else {
                assert forall|i: int, j: int| 0 <= i < j < entries.len() implies text_precedes(
                    (#[trigger] entries@[i]).0@,
                    (#[trigger] entries@[j]).0@,
                ) by {
                    if i < at {
                        assert(entries@[i] == before[i]);
                    } else if i > at {
                        assert(entries@[i] == before[i - 1]);
                    }
                    if j < at {
                        assert(entries@[j] == before[j]);
                    } else if j > at {
                        assert(entries@[j] == before[j - 1]);
                    }
                }
                lemma_added(before, entries@, at);
            }
        }
        self.entries = entries;
    }

    /// Takes the rule with the name `uid` out.
    pub fn remove(&mut self, uid: &RuleUid)
        ensures
            final(self)@ == old(self)@.remove(uid@),
    {
        proof {
            use_type_invariant(&*self);
        }
        let ghost before = self.entries@;
        let mut entries: Vec<(RuleUid, DynamicSearchRule)> = Vec::new();
        std::mem::swap(&mut entries, &mut self.entries);
        let (place, found) = find_place(&entries, uid);
        if found {
            let _ = entries.remove(place);
            proof {
                let at = place as int;
                assert forall|i: int, j: int| 0 <= i < j < entries.len() implies text_precedes(
                    (#[trigger] entries@[i]).0@,
                    (#[trigger] entries@[j]).0@,
                ) by {
                    let k = if i < at {
                        i
                    } else {
                        i + 1
                    };
                    let l = if j < at {
                        j
                    } else {
                        j + 1
                    };
                    assert(entries@[i] == before[k]);
                    assert(entries@[j] == before[l]);
                }
                assert(before =~= entries@.insert(at, before[at]));
                lemma_added(entries@, before, at);
                let rest = entries_map(entries@);
                assert(!rest.contains_key(uid@)) by {
                    if has_name(entries@, uid@) {
                        let i = place_of(entries@, uid@);
                        let k = if i < at {
                            i
                        } else {
                            i + 1
                        };
                        assert(before[k] == entries@[i]);
                        lemma_one_place(before, at);
                        lemma_one_place(before, k);
                    }
                }
                assert(rest =~= entries_map(before).remove(uid@));
            }
        } else {
            proof {
                lemma_no_place(entries@, place as int, uid@);
                assert(entries_map(entries@) =~= entries_map(before).remove(uid@));
            }
        }
        self.entries = entries;
    }
}

impl Clone for RulesByUid {
    fn clone(&self) -> (copy: Self)
        ensures
            copy@ == self@,
            copy.names() == self.names(),
    {
        proof {
            use_type_invariant(self);
        }
        let mut entries: Vec<(RuleUid, DynamicSearchRule)> = Vec::new();
        let mut i: usize = 0;
        while i < self.entries.len()
            invariant
                i <= self.entries.len(),
                entries.len() == i,
                forall|j: int|
                    0 <= j < i ==> (#[trigger] entries@[j]).0 == self.entries@[j].0 && entries@[j].1@
                        == self.entries@[j].1@,
            decreases self.entries.len() - i,
        {
            entries.push((self.entries[i].0.clone(), self.entries[i].1.clone()));
            i = i + 1;
        }
        proof {
            lemma_same_entries(self.entries@, entries@);
            assert(entries@.map_values(|entry: (RuleUid, DynamicSearchRule)| entry.0@)
                =~= self.names());
        }
        RulesByUid { entries }
    }
}

/// Entries that say the same make the same map.
proof fn lemma_same_entries(
    a: Seq<(RuleUid, DynamicSearchRule)>,
    b: Seq<(RuleUid, DynamicSearchRule)>,
)
    requires
        names_ascend(a),
        a.len() == b.len(),
        forall|i: int|
            0 <= i < b.len() ==> (#[trigger] b[i]).0 == a[i].0 && b[i].1@ == a[i].1@,
    ensures
        names_ascend(b),
        entries_map(a) == entries_map(b),
{
    assert forall|i: int, j: int| 0 <= i < j < b.len() implies text_precedes(
        (#[trigger] b[i]).0@,
        (#[trigger] b[j]).0@,
    ) by {
        assert(text_precedes(a[i].0@, a[j].0@));
    }
    assert forall|name: Seq<char>| has_name(a, name) <==> #[trigger] has_name(b, name) by {
        if has_name(a, name) {
            assert(b[place_of(a, name)].0@ == name);
        }
        if has_name(b, name) {
            assert(a[place_of(b, name)].0@ == name);
        }
    }
    assert forall|name: Seq<char>| #[trigger] entries_map(a).contains_key(name) implies entries_map(
        a,
    )[name] == entries_map(b)[name] by {
        let i = place_of(a, name);
        assert(b[i].0 == a[i].0);
        lemma_one_place(b, i);
    }
    assert(entries_map(a) =~= entries_map(b));
}

proof fn lemma_names(entries: Seq<(RuleUid, DynamicSearchRule)>)
    requires
        names_ascend(entries),
    ensures
        lists_names(
            entries.map_values(|entry: (RuleUid, DynamicSearchRule)| entry.0@),
            entries_map(entries),
        ),
{
    let names = entries.map_values(|entry: (RuleUid, DynamicSearchRule)| entry.0@);
    assert forall|name: Seq<char>| #[trigger]
        entries_map(entries).contains_key(name) <==> names.contains(name) by {
        if has_name(entries, name) {
            assert(names[place_of(entries, name)] == name);
        }
        if names.contains(name) {
            let i = choose|i: int| 0 <= i < names.len() && names[i] == name;
            assert(entries[i].0@ == name);
        }
    }
    assert forall|i: int, j: int| 0 <= i < j < names.len() implies text_precedes(
        #[trigger] names[i],
        #[trigger] names[j],
    ) by {
        assert(names[i] == entries[i].0@);
        assert(names[j] == entries[j].0@);
    }
}

/// A name between two neighbours is not there.
proof fn lemma_no_place(entries: Seq<(RuleUid, DynamicSearchRule)>, place: int, name: Seq<char>)
    requires
        0 <= place <= entries.len(),
        forall|i: int| 0 <= i < place ==> text_precedes((#[trigger] entries[i]).0@, name),
        forall|i: int| place <= i < entries.len() ==> text_precedes(name, (#[trigger] entries[i]).0@),
    ensures
        !has_name(entries, name),
{
    lemma_precedes_irreflexive(name);
}

/// A new entry at `at` adds its name to the map.
proof fn lemma_added(
    before: Seq<(RuleUid, DynamicSearchRule)>,
    after: Seq<(RuleUid, DynamicSearchRule)>,
    at: int,
)
    requires
        names_ascend(before),
        names_ascend(after),
        0 <= at <= before.len(),
        after == before.insert(at, after[at]),
    ensures
        entries_map(after) == entries_map(before).insert(after[at].0@, after[at].1@),
{
    let name = after[at].0@;
    let map = entries_map(before).insert(name, after[at].1@);
    lemma_one_place(after, at);
    assert forall|n: Seq<char>| #[trigger] map.contains_key(n) <==> has_name(after, n) by {
        if has_name(before, n) {
            let i = place_of(before, n);
            let k = if i < at {
                i
            } else {
                i + 1
            };
            assert(after[k] == before[i]);
        }
        if has_name(after, n) && n != name {
            let k = place_of(after, n);
            let i = if k < at {
                k
            } else {
                k - 1
            };
            assert(before[i] == after[k]);
        }
    }
    assert forall|n: Seq<char>| #[trigger] map.contains_key(n) implies map[n] == entries_map(
        after,
    )[n] by {
        if n != name {
            let i = place_of(before, n);
            let k = if i < at {
                i
            } else {
                i + 1
            };
            assert(after[k] == before[i]);
            lemma_one_place(after, k);
        }
    }
    assert(entries_map(after) =~= map);
}

/// A new entry in the place of one with the same name changes the map at that name.
proof fn lemma_replaced(
    before: Seq<(RuleUid, DynamicSearchRule)>,
    after: Seq<(RuleUid, DynamicSearchRule)>,
    at: int,
)
    requires
        names_ascend(before),
        names_ascend(after),
        0 <= at < before.len(),
        after == before.update(at, after[at]),
        after[at].0@ == before[at].0@,
    ensures
        entries_map(after) == entries_map(before).insert(after[at].0@, after[at].1@),
{
    let name = after[at].0@;
    let map = entries_map(before).insert(name, after[at].1@);
    lemma_one_place(after, at);
    assert forall|n: Seq<char>| #[trigger] map.contains_key(n) <==> has_name(after, n) by {
        if has_name(before, n) {
            assert(after[place_of(before, n)].0@ == n);
        }
        if has_name(after, n) {
            assert(before[place_of(after, n)].0@ == n);
        }
    }
    assert forall|n: Seq<char>| #[trigger] map.contains_key(n) implies map[n] == entries_map(
        after,
    )[n] by {
        if n != name {
            let i = place_of(before, n);
            assert(after[i] == before[i]);
            lemma_one_place(after, i);
        }
    }
    assert(entries_map(after) =~= map);
}

/// The place of a name, or where it would go.
fn find_place(entries: &Vec<(RuleUid, DynamicSearchRule)>, uid: &RuleUid) -> (result: (usize, bool))
    requires
        names_ascend(entries@),
    ensures
        ({
            let (place, found) = result;
            &&& place <= entries.len()
            &&& forall|i: int|
                0 <= i < place ==> text_precedes((#[trigger] entries@[i]).0@, uid@)
            &&& found ==> place < entries.len() && entries@[place as int].0@ == uid@
            &&& !found ==> forall|i: int|
                place <= i < entries.len() ==> text_precedes(uid@, (#[trigger] entries@[i]).0@)
        }),
{
    let mut place: usize = 0;
    while place < entries.len()
        invariant
            place <= entries.len(),
            names_ascend(entries@),
            forall|i: int| 0 <= i < place ==> text_precedes((#[trigger] entries@[i]).0@, uid@),
        decreases entries.len() - place,
    {
        match compare_texts(entries[place].0.value.as_str(), uid.value.as_str()) {
            TextOrder::Before => {},
            TextOrder::Same => {
                return (place, true);
            },
            TextOrder::After => {
                assert forall|i: int| place <= i < entries.len() implies text_precedes(
                    uid@,
                    (#[trigger] entries@[i]).0@,
                ) by {
                    if i > place {
                        lemma_precedes_transitive(
                            uid@,
                            entries@[place as int].0@,
                            entries@[i].0@,
                        );
                    }
                }
                return (place, false);
            },
        }
        place = place + 1;
    }
    (place, false)
}

} // verus!

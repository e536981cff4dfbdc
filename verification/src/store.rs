use crate::rules::{lists_names, DynamicSearchRule, RulesByUid, RuleUid, RuleView};
use vstd::prelude::*;

verus! {

/// How many databases the store keeps its rules in.
pub const NUMBER_OF_DATABASES: u32 = 1;

/// The name of the database with the rules.
pub const DYNAMIC_SEARCH_RULES: &'static str = "dynamic-search-rules";

/// A change of the database with the rules.
pub enum StoreWrite<'a> {
    /// Takes every rule out.
    Clear,
    /// Puts a rule under a name.
    Put { uid: &'a RuleUid, rule: &'a DynamicSearchRule },
    /// Takes the rule under a name out.
    Delete { uid: &'a RuleUid },
}

pub enum WriteView {
    Clear,
    Put { uid: Seq<char>, rule: RuleView },
    Delete { uid: Seq<char> },
}

impl<'a> View for StoreWrite<'a> {
    type V = WriteView;

    open spec fn view(&self) -> WriteView {
        match *self {
            StoreWrite::Clear => WriteView::Clear,
            StoreWrite::Put { uid, rule } => WriteView::Put { uid: uid@, rule: rule@ },
            StoreWrite::Delete { uid } => WriteView::Delete { uid: uid@ },
        }
    }
}

/// The rules in the database after one change.
pub open spec fn written(persisted: Map<Seq<char>, RuleView>, write: WriteView) -> Map<
    Seq<char>,
    RuleView,
> {
    match write {
        WriteView::Clear => Map::empty(),
        WriteView::Put { uid, rule } => persisted.insert(uid, rule),
        WriteView::Delete { uid } => persisted.remove(uid),
    }
}

/// The rules in the database after some changes, one after another.
pub open spec fn all_written(persisted: Map<Seq<char>, RuleView>, writes: Seq<WriteView>) -> Map<
    Seq<char>,
    RuleView,
>
    decreases writes.len(),
{
    if writes.len() == 0 {
        persisted
    } else {
        written(all_written(persisted, writes.drop_last()), writes.last())
    }
}

/// What the changes say.
pub open spec fn write_views(writes: Seq<StoreWrite<'_>>) -> Seq<WriteView> {
    writes.map_values(|write: StoreWrite<'_>| write@)
}

/// The rules of the entries whose key is a name; under the same name, the last.
pub open spec fn loaded(entries: Seq<(Option<RuleUid>, DynamicSearchRule)>) -> Map<
    Seq<char>,
    RuleView,
>
    decreases entries.len(),
{
    if entries.len() == 0 {
        Map::empty()
    } else {
        let before = loaded(entries.drop_last());
        match entries.last().0 {
            Some(uid) => before.insert(uid@, entries.last().1@),
            None => before,
        }
    }
}

/// The rules as readers see them. They stand in a database too, which is changed first.
pub struct DynamicSearchRulesStore {
    runtime: RulesByUid,
}

impl View for DynamicSearchRulesStore {
    type V = Map<Seq<char>, RuleView>;

    closed spec fn view(&self) -> Map<Seq<char>, RuleView> {
        self.runtime@
    }
}

impl DynamicSearchRulesStore {
    /// How many databases the store keeps its rules in.
    pub fn nb_db() -> (number: u32)
        ensures
            number == 1,
    {
        NUMBER_OF_DATABASES
    }

    /// The store with what the database holds. An entry whose key is no name has `None` for it,
    /// and is left out.
    pub fn new(entries: Vec<(Option<RuleUid>, DynamicSearchRule)>) -> (store: Self)
        ensures
            store@ == loaded(entries@),
            forall|uid: Seq<char>| #[trigger]
                store@.contains_key(uid) <==> exists|i: int|
                    0 <= i < entries@.len() && (#[trigger] entries@[i]).0 is Some
                        && entries@[i].0->0.value@ == uid,
            forall|i: int|
                0 <= i < entries@.len() && (#[trigger] entries@[i]).0 is Some && (forall|j: int|
                    i < j < entries@.len() && (#[trigger] entries@[j]).0 is Some
                        ==> entries@[j].0->0.value@ != entries@[i].0->0.value@)
                    ==> store@[entries@[i].0->0.value@] == entries@[i].1@,
    {
        let mut runtime = RulesByUid::new();
        let mut i: usize = 0;
        while i < entries.len()
            invariant
                i <= entries.len(),
                runtime@ == loaded(entries@.take(i as int)),
            decreases entries.len() - i,
        {
            proof {
                assert(entries@.take(i + 1).drop_last() =~= entries@.take(i as int));
                assert(entries@.take(i + 1).last() == entries@[i as int]);
            }
            match &entries[i].0 {
                Some(uid) => {
                    runtime.insert(uid.clone(), entries[i].1.clone());
                },
                None => {},
            }
            i = i + 1;
        }
        assert(entries@.take(entries.len() as int) =~= entries@);
        proof {
            law_load_takes_the_last_of_each_name(entries@);
        }
        DynamicSearchRulesStore { runtime }
    }

    /// The changes of the database that put the rules of `value` in the place of all others.
    pub fn put_writes(value: &RulesByUid) -> (writes: Vec<StoreWrite<'_>>)
        ensures
            lists_names(value.names(), value@),
            writes.len() == value.names().len() + 1,
            writes@[0]@ == WriteView::Clear,
            writes@[0] is Clear,
            forall|i: int|
                0 <= i < value.names().len() ==> {
                    &&& (#[trigger] writes@[i + 1]) is Put
                    &&& writes@[i + 1]->Put_uid.value@ == value.names()[i]
                    &&& writes@[i + 1]->rule@ == value@[value.names()[i]]
                },
            forall|i: int|
                0 <= i < value.names().len() ==> (#[trigger] writes@[i + 1])@ == (WriteView::Put {
                    uid: value.names()[i],
                    rule: value@[value.names()[i]],
                }),
            forall|persisted: Map<Seq<char>, RuleView>| #[trigger]
                all_written(persisted, write_views(writes@)) == value@,
    {
        let ghost names = value.names();
        let len: usize = value.len();
        let mut writes: Vec<StoreWrite<'_>> = Vec::new();
        writes.push(StoreWrite::Clear);
        let mut i: usize = 0;
        while i < len
            invariant
                i <= len,
                len == names.len(),
                names == value.names(),
                lists_names(names, value@),
                writes.len() == i + 1,
                writes@[0]@ == WriteView::Clear,
                writes@[0] is Clear,
                forall|j: int|
                    0 <= j < i ==> {
                        &&& (#[trigger] writes@[j + 1]) is Put
                        &&& writes@[j + 1]->Put_uid.value@ == names[j]
                        &&& writes@[j + 1]->rule@ == value@[names[j]]
                    },
                forall|j: int|
                    0 <= j < i ==> (#[trigger] writes@[j + 1])@ == (WriteView::Put {
                        uid: names[j],
                        rule: value@[names[j]],
                    }),
            decreases len - i,
        {
            match value.entry(i) {
                Some((uid, rule)) => {
                    writes.push(StoreWrite::Put { uid, rule });
                },
                None => {
                    assert(false);
                },
            }
            i = i + 1;
        }
        proof {
            assert forall|persisted: Map<Seq<char>, RuleView>| #[trigger]
                all_written(persisted, write_views(writes@)) == value@ by {
                lemma_put_all(persisted, write_views(writes@), names, value@, names.len() as int);
                assert(write_views(writes@).take(names.len() as int + 1) =~= write_views(writes@));
                let all = all_written(persisted, write_views(writes@));
                assert forall|name: Seq<char>| #[trigger]
                    all.contains_key(name) <==> value@.contains_key(name) by {
                    if names.contains(name) {
                        let k = choose|k: int| 0 <= k < names.len() && names[k] == name;
                        assert(names.take(names.len() as int)[k] == name);
                    }
                }
                assert(all =~= value@);
            }
        }
        writes
    }

    /// Shows the rules of `value` to readers, once the database holds them.
    pub fn put(&mut self, value: RulesByUid)
        ensures
            final(self)@ == value@,
    {
        self.runtime = value;
    }

    /// The rules, as readers see them.
    pub fn get(&self) -> (rules: &RulesByUid)
        ensures
            rules@ == self@,
    {
        &self.runtime
    }

    /// The change of the database that puts a rule under its own name.
    pub fn put_one_write(rule: &DynamicSearchRule) -> (write: StoreWrite<'_>)
        ensures
            write@ == (WriteView::Put { uid: rule@.uid, rule: rule@ }),
            write == (StoreWrite::Put { uid: &rule.uid, rule }),
    {
        StoreWrite::Put { uid: &rule.uid, rule }
    }

    /// Shows a rule to readers under its own name, once the database holds it.
    pub fn put_one(&mut self, rule: &DynamicSearchRule)
        ensures
            final(self)@ == old(self)@.insert(rule@.uid, rule@),
    {
        self.runtime.insert(rule.uid.clone(), rule.clone());
    }

    /// The change of the database that takes a rule out.
    pub fn delete_one_write(uid: &RuleUid) -> (write: StoreWrite<'_>)
        ensures
            write@ == (WriteView::Delete { uid: uid@ }),
            write == (StoreWrite::Delete { uid }),
    {
        StoreWrite::Delete { uid }
    }

    /// Hides a rule from readers where the database had it and has taken it out; tells whether
    /// it has.
    pub fn delete_one(&mut self, uid: &RuleUid, deleted: bool) -> (result: bool)
        ensures
            result == deleted,
            final(self)@ == if deleted {
                old(self)@.remove(uid@)
            } else {
                old(self)@
            },
    {
        if deleted {
            self.runtime.remove(uid);
        }
        deleted
    }
}

impl Clone for DynamicSearchRulesStore {
    fn clone(&self) -> (copy: Self)
        ensures
            copy@ == self@,
    {
        DynamicSearchRulesStore { runtime: self.runtime.clone() }
    }
}

/// Loading takes every entry whose key is a name, and under each name the last of them.
pub proof fn law_load_takes_the_last_of_each_name(
    entries: Seq<(Option<RuleUid>, DynamicSearchRule)>,
)
    ensures
        forall|uid: Seq<char>| #[trigger]
            loaded(entries).contains_key(uid) <==> exists|i: int|
                0 <= i < entries.len() && (#[trigger] entries[i]).0 is Some
                    && entries[i].0->0.value@ == uid,
        forall|i: int|
            0 <= i < entries.len() && (#[trigger] entries[i]).0 is Some && (forall|j: int|
                i < j < entries.len() && (#[trigger] entries[j]).0 is Some
                    ==> entries[j].0->0.value@ != entries[i].0->0.value@)
                ==> loaded(entries)[entries[i].0->0.value@] == entries[i].1@,
    decreases entries.len(),
{
    if entries.len() > 0 {
        let before = entries.drop_last();
        let last = entries.len() - 1;
        law_load_takes_the_last_of_each_name(before);
        assert(entries[last] == entries.last());
        assert forall|uid: Seq<char>| #[trigger] loaded(entries).contains_key(uid) <==> exists|
            i: int,
        |
            0 <= i < entries.len() && (#[trigger] entries[i]).0 is Some && entries[i].0->0.value@
                == uid by {
            if loaded(before).contains_key(uid) {
                let i = choose|i: int|
                    0 <= i < before.len() && (#[trigger] before[i]).0 is Some
                        && before[i].0->0.value@ == uid;
                assert(entries[i] == before[i]);
            }
            if exists|i: int|
                0 <= i < entries.len() && (#[trigger] entries[i]).0 is Some
                    && entries[i].0->0.value@ == uid {
                let i = choose|i: int|
                    0 <= i < entries.len() && (#[trigger] entries[i]).0 is Some
                        && entries[i].0->0.value@ == uid;
                if i < last {
                    assert(before[i] == entries[i]);
                }
            }
        }
        assert forall|i: int|
            0 <= i < entries.len() && (#[trigger] entries[i]).0 is Some && (forall|j: int|
                i < j < entries.len() && (#[trigger] entries[j]).0 is Some
                    ==> entries[j].0->0.value@ != entries[i].0->0.value@) implies loaded(
            entries,
        )[entries[i].0->0.value@] == entries[i].1@ by {
            if i < last {
                assert(before[i] == entries[i]);
                assert forall|j: int|
                    i < j < before.len() && (#[trigger] before[j]).0 is Some implies before[j].0->0.value@
                    != before[i].0->0.value@ by {
                    assert(before[j] == entries[j]);
                }
                assert(loaded(before)[before[i].0->0.value@] == before[i].1@);
            }
        }
    }
}

proof fn lemma_put_all(
    persisted: Map<Seq<char>, RuleView>,
    writes: Seq<WriteView>,
    names: Seq<Seq<char>>,
    rules: Map<Seq<char>, RuleView>,
    count: int,
)
    requires
        0 <= count <= names.len(),
        writes.len() == names.len() + 1,
        writes[0] == WriteView::Clear,
        forall|i: int|
            0 <= i < names.len() ==> (#[trigger] writes[i + 1]) == (WriteView::Put {
                uid: names[i],
                rule: rules[names[i]],
            }),
    ensures
        forall|name: Seq<char>| #[trigger]
            all_written(persisted, writes.take(count + 1)).contains_key(name) <==> names.take(
                count,
            ).contains(name),
        forall|name: Seq<char>| #[trigger]
            all_written(persisted, writes.take(count + 1)).contains_key(name) ==> all_written(
                persisted,
                writes.take(count + 1),
            )[name] == rules[name],
    decreases count,
{
    let now = writes.take(count + 1);
    let before = all_written(persisted, writes.take(count));
    let after = all_written(persisted, now);
    assert(now.drop_last() =~= writes.take(count));
    assert(now.last() == writes[count]);
    assert(after == written(before, writes[count]));
    if count == 0 {
        assert(names.take(0) =~= Seq::<Seq<char>>::empty());
    } else {
        lemma_put_all(persisted, writes, names, rules, count - 1);
        let fewer = names.take(count - 1);
        let name = names[count - 1];
        assert(writes[(count - 1) + 1] == WriteView::Put { uid: name, rule: rules[name] });
        assert(after == before.insert(name, rules[name]));
        assert(names.take(count) =~= fewer.push(name));
        assert forall|n: Seq<char>| #[trigger]
            after.contains_key(n) <==> names.take(count).contains(n) by {
            if before.contains_key(n) {
                let i = choose|i: int| 0 <= i < fewer.len() && fewer[i] == n;
                assert(names.take(count)[i] == n);
            }
            assert(names.take(count)[count - 1] == name);
            if names.take(count).contains(n) && n != name {
                let i = choose|i: int| 0 <= i < count && #[trigger] names.take(count)[i] == n;
                assert(fewer[i] == n);
                assert(fewer.contains(n));
                assert(before.contains_key(n));
            }
        }
        assert forall|n: Seq<char>| #[trigger] after.contains_key(n) implies after[n] == rules[n] by {
            if n != name {
                assert(before.contains_key(n));
            }
        }
    }
}

/// Readers see the rules of the database whose key is a name, and no others.
pub open spec fn mirrors(
    runtime: Map<Seq<char>, RuleView>,
    persisted: Map<Seq<char>, RuleView>,
    is_name: spec_fn(Seq<char>) -> bool,
) -> bool {
    &&& forall|uid: Seq<char>| #[trigger]
        runtime.contains_key(uid) <==> persisted.contains_key(uid) && is_name(uid)
    &&& forall|uid: Seq<char>| #[trigger]
        runtime.contains_key(uid) ==> runtime[uid] == persisted[uid]
}

/// `entries` are the rules of the database, with the key where it is a name.
pub open spec fn lists_entries(
    entries: Seq<(Option<RuleUid>, DynamicSearchRule)>,
    persisted: Map<Seq<char>, RuleView>,
    is_name: spec_fn(Seq<char>) -> bool,
) -> bool {
    &&& forall|i: int|
        0 <= i < entries.len() && (#[trigger] entries[i]).0 is Some ==> {
            let uid = entries[i].0->0@;
            is_name(uid) && persisted.contains_key(uid) && persisted[uid] == entries[i].1@
        }
    &&& forall|uid: Seq<char>| #[trigger]
        persisted.contains_key(uid) && is_name(uid) ==> exists|i: int|
            0 <= i < entries.len() && (#[trigger] entries[i]).0 is Some && entries[i].0->0@ == uid
}

proof fn lemma_loaded(
    entries: Seq<(Option<RuleUid>, DynamicSearchRule)>,
    persisted: Map<Seq<char>, RuleView>,
)
    requires
        forall|i: int|
            0 <= i < entries.len() && (#[trigger] entries[i]).0 is Some ==> persisted[entries[i].0->0@]
                == entries[i].1@,
    ensures
        forall|uid: Seq<char>| #[trigger]
            loaded(entries).contains_key(uid) <==> exists|i: int|
                0 <= i < entries.len() && (#[trigger] entries[i]).0 is Some && entries[i].0->0@ == uid,
        forall|uid: Seq<char>| #[trigger]
            loaded(entries).contains_key(uid) ==> loaded(entries)[uid] == persisted[uid],
    decreases entries.len(),
{
    if entries.len() > 0 {
        let before = entries.drop_last();
        assert forall|i: int| 0 <= i < before.len() && (#[trigger] before[i]).0 is Some implies
            persisted[before[i].0->0@] == before[i].1@ by {
            assert(before[i] == entries[i]);
        }
        lemma_loaded(before, persisted);
        assert forall|uid: Seq<char>| #[trigger]
            loaded(entries).contains_key(uid) <==> exists|i: int|
                0 <= i < entries.len() && (#[trigger] entries[i]).0 is Some && entries[i].0->0@
                    == uid by {
            if loaded(before).contains_key(uid) {
                let i = choose|i: int|
                    0 <= i < before.len() && (#[trigger] before[i]).0 is Some && before[i].0->0@
                        == uid;
                assert(entries[i] == before[i]);
            }
            if exists|i: int|
                0 <= i < entries.len() && (#[trigger] entries[i]).0 is Some && entries[i].0->0@
                    == uid {
                let i = choose|i: int|
                    0 <= i < entries.len() && (#[trigger] entries[i]).0 is Some
                        && entries[i].0->0@ == uid;
                if i < before.len() {
                    assert(before[i] == entries[i]);
                }
            }
            assert(entries[entries.len() - 1] == entries.last());
        }
        assert forall|uid: Seq<char>| #[trigger] loaded(entries).contains_key(uid) implies loaded(
            entries,
        )[uid] == persisted[uid] by {
            assert(entries[entries.len() - 1] == entries.last());
            if entries.last().0 is None || entries.last().0->0@ != uid {
                assert(loaded(before).contains_key(uid));
            }
        }
    }
}

/// A store that is loaded from the database shows its readers what the database holds.
pub proof fn law_loaded_store_mirrors_database(
    entries: Seq<(Option<RuleUid>, DynamicSearchRule)>,
    persisted: Map<Seq<char>, RuleView>,
    is_name: spec_fn(Seq<char>) -> bool,
)
    requires
        lists_entries(entries, persisted, is_name),
    ensures
        mirrors(loaded(entries), persisted, is_name),
{
    lemma_loaded(entries, persisted);
}

/// Readers see what the database holds after all rules have been replaced by the changes of
/// `DynamicSearchRulesStore::put_writes`.
pub proof fn law_put_keeps_mirror(
    persisted: Map<Seq<char>, RuleView>,
    writes: Seq<WriteView>,
    value: Map<Seq<char>, RuleView>,
    is_name: spec_fn(Seq<char>) -> bool,
)
    requires
        all_written(persisted, writes) == value,
        forall|uid: Seq<char>| #[trigger] value.contains_key(uid) ==> is_name(uid),
    ensures
        mirrors(value, all_written(persisted, writes), is_name),
{
}

/// Readers see what the database holds after a rule has been put in.
pub proof fn law_put_one_keeps_mirror(
    runtime: Map<Seq<char>, RuleView>,
    persisted: Map<Seq<char>, RuleView>,
    is_name: spec_fn(Seq<char>) -> bool,
    rule: RuleView,
)
    requires
        mirrors(runtime, persisted, is_name),
        is_name(rule.uid),
    ensures
        mirrors(
            runtime.insert(rule.uid, rule),
            written(persisted, WriteView::Put { uid: rule.uid, rule }),
            is_name,
        ),
{
}

/// Readers see what the database holds after a rule has been taken out; `deleted` is what the
/// database says of it.
pub proof fn law_delete_one_keeps_mirror(
    runtime: Map<Seq<char>, RuleView>,
    persisted: Map<Seq<char>, RuleView>,
    is_name: spec_fn(Seq<char>) -> bool,
    uid: Seq<char>,
    deleted: bool,
)
    requires
        mirrors(runtime, persisted, is_name),
        deleted == persisted.contains_key(uid),
    ensures
        mirrors(
            if deleted {
                runtime.remove(uid)
            } else {
                runtime
            },
            written(persisted, WriteView::Delete { uid }),
            is_name,
        ),
{
}

/// A rule that has been put in is there under its name, and no other has changed.
pub proof fn law_get_after_put_one(
    rules: Map<Seq<char>, RuleView>,
    rule: RuleView,
    other: Seq<char>,
)
    requires
        other != rule.uid,
    ensures
        rules.insert(rule.uid, rule).contains_key(rule.uid),
        rules.insert(rule.uid, rule)[rule.uid] == rule,
        rules.insert(rule.uid, rule).contains_key(other) == rules.contains_key(other),
        rules.insert(rule.uid, rule)[other] == rules[other],
{
}

} // verus!

use crate::bitmap::{ids, intersection, shared, unite};
use crate::combinations::{combinations, is_combination, next_combination, pending};
use roaring::RoaringBitmap;
use vstd::prelude::*;

verus! {

/// What each bitmap of a list holds.
pub open spec fn all_ids(bitmaps: Seq<RoaringBitmap>) -> Seq<Set<u32>> {
    bitmaps.map_values(|bitmap: RoaringBitmap| ids(bitmap))
}

/// How many of the sets hold `id`.
pub open spec fn holders(sets: Seq<Set<u32>>, id: u32) -> nat
    decreases sets.len(),
{
    if sets.len() == 0 {
        0
    } else {
        holders(sets.drop_last(), id) + if sets.last().contains(id) {
            1nat
        } else {
            0nat
        }
    }
}

/// Out of `rules`, which all ask for `count` words, those that stand in `count` of the sets in
/// `words`. A rule that asks for no word needs none of them.
pub open spec fn satisfied_by(rules: Set<u32>, words: Seq<Set<u32>>, count: nat) -> Set<u32> {
    Set::new(|id: u32| rules.contains(id) && holders(words, id) >= count)
}

/// Every set that `choice` picks holds `id`.
spec fn covers(choice: Seq<usize>, sets: Seq<Set<u32>>, id: u32) -> bool {
    forall|i: int| 0 <= i < choice.len() ==> sets[#[trigger] choice[i] as int].contains(id)
}

/// The positions of the sets that hold `id`.
spec fn positions(sets: Seq<Set<u32>>, id: u32) -> Seq<usize>
    decreases sets.len(),
{
    if sets.len() == 0 {
        Seq::empty()
    } else if sets.last().contains(id) {
        positions(sets.drop_last(), id).push((sets.len() - 1) as usize)
    } else {
        positions(sets.drop_last(), id)
    }
}

proof fn lemma_positions(sets: Seq<Set<u32>>, id: u32)
    requires
        sets.len() <= usize::MAX,
    ensures
        is_combination(positions(sets, id), sets.len(), holders(sets, id)),
        covers(positions(sets, id), sets, id),
    decreases sets.len(),
{
    if sets.len() > 0 {
        lemma_positions(sets.drop_last(), id);
        let before = positions(sets.drop_last(), id);
        assert forall|i: int| 0 <= i < positions(sets, id).len() implies sets[
            #[trigger] positions(sets, id)[i] as int
        ].contains(id) by {
            if i < before.len() {
                assert(before[i] < sets.drop_last().len());
                assert(sets.drop_last()[before[i] as int].contains(id));
            }
        }
    }
}

proof fn lemma_covering_choice(choice: Seq<usize>, sets: Seq<Set<u32>>, id: u32, k: nat)
    requires
        is_combination(choice, sets.len(), k),
        covers(choice, sets, id),
    ensures
        holders(sets, id) >= k,
    decreases sets.len(),
{
    if sets.len() == 0 {
        if choice.len() > 0 {
            assert(choice[0] < sets.len());
        }
    } else if choice.len() > 0 && choice.last() == sets.len() - 1 {
        let rest = choice.drop_last();
        assert forall|i: int| 0 <= i < rest.len() implies #[trigger] rest[i]
            < sets.drop_last().len() && sets.drop_last()[rest[i] as int].contains(id) by {
            assert(choice[i] < choice[choice.len() - 1]);
        }
        lemma_covering_choice(rest, sets.drop_last(), id, (k - 1) as nat);
        assert(sets[choice[choice.len() - 1] as int].contains(id));
    } else {
        assert forall|i: int| 0 <= i < choice.len() implies #[trigger] choice[i]
            < sets.drop_last().len() && sets.drop_last()[choice[i] as int].contains(id) by {
            if i < choice.len() - 1 {
                assert(choice[i] < choice[choice.len() - 1]);
            }
            assert(choice[choice.len() - 1] < sets.len());
        }
        lemma_covering_choice(choice, sets.drop_last(), id, k);
    }
}

/// Some choice of `k` sets covers `id` exactly when `k` sets hold it.
proof fn lemma_choice_iff_holders(sets: Seq<Set<u32>>, id: u32, k: nat)
    requires
        sets.len() <= usize::MAX,
    ensures
        holders(sets, id) >= k <==> exists|choice: Seq<usize>| #[trigger]
            is_combination(choice, sets.len(), k) && covers(choice, sets, id),
{
    if holders(sets, id) >= k {
        lemma_positions(sets, id);
        let choice = positions(sets, id).take(k as int);
        assert(is_combination(choice, sets.len(), k));
        assert forall|i: int| 0 <= i < choice.len() implies sets[
            #[trigger] choice[i] as int
        ].contains(id) by {
            assert(choice[i] == positions(sets, id)[i]);
        }
    }
    if exists|choice: Seq<usize>| #[trigger]
        is_combination(choice, sets.len(), k) && covers(choice, sets, id) {
        let choice = choose|choice: Seq<usize>| #[trigger]
            is_combination(choice, sets.len(), k) && covers(choice, sets, id);
        lemma_covering_choice(choice, sets, id, k);
    }
}

/// The ids that stand in any of the sets.
pub open spec fn union_of(sets: Seq<Set<u32>>) -> Set<u32> {
    Set::new(|id: u32| exists|i: int| 0 <= i < sets.len() && (#[trigger] sets[i]).contains(id))
}

/// Some set holds `id` exactly when at least one does.
pub proof fn lemma_one_holder(sets: Seq<Set<u32>>, id: u32)
    ensures
        holders(sets, id) >= 1 <==> union_of(sets).contains(id),
    decreases sets.len(),
{
    if sets.len() > 0 {
        let before = sets.drop_last();
        lemma_one_holder(before, id);
        if holders(before, id) >= 1 {
            let i = choose|i: int| 0 <= i < before.len() && (#[trigger] before[i]).contains(id);
            assert(sets[i].contains(id));
        }
        if sets.last().contains(id) {
            assert(sets[sets.len() - 1].contains(id));
        }
        if exists|i: int| 0 <= i < sets.len() && (#[trigger] sets[i]).contains(id) {
            let i = choose|i: int| 0 <= i < sets.len() && (#[trigger] sets[i]).contains(id);
            if i < before.len() {
                assert(before[i].contains(id));
            }
        }
    }
}

/// A rule is satisfied exactly when it is one of `rules` and there are `count` different places in
/// `words` at which it stands.
pub proof fn law_satisfied_rules_stand_at_as_many_places(
    rules: Set<u32>,
    words: Seq<Set<u32>>,
    count: nat,
    id: u32,
)
    requires
        words.len() <= usize::MAX,
    ensures
        satisfied_by(rules, words, count).contains(id) <==> rules.contains(id) && exists|
            places: Seq<usize>,
        |
            {
                &&& #[trigger] places.len() == count
                &&& forall|i: int| 0 <= i < places.len() ==> #[trigger] places[i] < words.len()
                &&& forall|i: int| 0 <= i < places.len() ==> words[#[trigger] places[i] as int].contains(id)
                &&& forall|i: int, j: int| 0 <= i < j < places.len() ==> places[i] < places[j]
            },
{
    lemma_choice_iff_holders(words, id, count);
    if holders(words, id) >= count {
        let choice = choose|choice: Seq<usize>| #[trigger]
            is_combination(choice, words.len(), count) && covers(choice, words, id);
        assert(choice.len() == count);
    }
    if exists|places: Seq<usize>|
        {
            &&& #[trigger] places.len() == count
            &&& forall|i: int| 0 <= i < places.len() ==> #[trigger] places[i] < words.len()
            &&& forall|i: int|
                0 <= i < places.len() ==> words[#[trigger] places[i] as int].contains(id)
            &&& forall|i: int, j: int| 0 <= i < j < places.len() ==> places[i] < places[j]
        } {
        let choice = choose|places: Seq<usize>|
            {
                &&& #[trigger] places.len() == count
                &&& forall|i: int| 0 <= i < places.len() ==> #[trigger] places[i] < words.len()
                &&& forall|i: int|
                    0 <= i < places.len() ==> words[#[trigger] places[i] as int].contains(id)
                &&& forall|i: int, j: int| 0 <= i < j < places.len() ==> places[i] < places[j]
            };
        assert(is_combination(choice, words.len(), count) && covers(choice, words, id));
    }
}

/// The ids that stand in any of the bitmaps.
pub(crate) fn unite_all(bitmaps: &Vec<RoaringBitmap>) -> (all: RoaringBitmap)
    ensures
        ids(all) == union_of(all_ids(bitmaps@)),
{
    let ghost sets = all_ids(bitmaps@);
    let mut all = RoaringBitmap::new();
    let mut i: usize = 0;
    while i < bitmaps.len()
        invariant
            i <= bitmaps.len(),
            sets == all_ids(bitmaps@),
            forall|id: u32| #[trigger]
                ids(all).contains(id) <==> exists|j: int|
                    0 <= j < i && (#[trigger] sets[j]).contains(id),
        decreases bitmaps.len() - i,
    {
        assert(sets[i as int] == ids(bitmaps[i as int]));
        unite(&mut all, &bitmaps[i]);
        i = i + 1;
    }
    assert(ids(all) =~= union_of(sets));
    all
}

/// The bitmaps that `choice` picks.
fn pick<'a>(words: &'a Vec<RoaringBitmap>, choice: &Vec<usize>) -> (picked: Vec<&'a RoaringBitmap>)
    requires
        forall|i: int| 0 <= i < choice.len() ==> #[trigger] choice[i] < words.len(),
    ensures
        picked.len() == choice.len(),
        forall|i: int| 0 <= i < choice.len() ==> *#[trigger] picked[i] == words[choice[i] as int],
{
    let mut picked: Vec<&'a RoaringBitmap> = Vec::new();
    let mut i: usize = 0;
    while i < choice.len()
        invariant
            i <= choice.len(),
            picked.len() == i,
            forall|j: int| 0 <= j < choice.len() ==> #[trigger] choice[j] < words.len(),
            forall|j: int| 0 <= j < i ==> *#[trigger] picked[j] == words[choice[j] as int],
        decreases choice.len() - i,
    {
        picked.push(&words[choice[i]]);
        i = i + 1;
    }
    picked
}

/// The rules among `rules` whose condition on the words of a query holds: `rules` all ask for
/// `count` words, and `words` has the rules of each word of the query.
pub fn satisfied_rules(rules: &RoaringBitmap, words: &Vec<RoaringBitmap>, count: u8) -> (satisfied:
    RoaringBitmap)
    ensures
        ids(satisfied) == satisfied_by(ids(*rules), all_ids(words@), count as nat),
{
    let ghost sets = all_ids(words@);
    let mut satisfied: RoaringBitmap = RoaringBitmap::new();
    if count == 0 {
        unite(&mut satisfied, rules);
        assert(ids(satisfied) =~= satisfied_by(ids(*rules), sets, 0));
    } else if count == 1 {
        let mut i: usize = 0;
        while i < words.len()
            invariant
                i <= words.len(),
                sets == all_ids(words@),
                forall|id: u32| #[trigger]
                    ids(satisfied).contains(id) <==> ids(*rules).contains(id) && exists|j: int|
                        0 <= j < i && (#[trigger] sets[j]).contains(id),
            decreases words.len() - i,
        {
            let vouched = shared(rules, &words[i]);
            assert(ids(vouched) == ids(*rules).intersect(sets[i as int]));
            unite(&mut satisfied, &vouched);
            i = i + 1;
        }
        assert forall|id: u32| #[trigger] ids(satisfied).contains(id) <==> satisfied_by(
            ids(*rules),
            sets,
            1,
        ).contains(id) by {
            lemma_one_holder(sets, id);
        }
        assert(ids(satisfied) =~= satisfied_by(ids(*rules), sets, 1));
    } else {
        let mut choices = combinations(words.len(), count);
        let ghost all = pending(choices);
        let ghost mut done: int = 0;
        loop
            invariant
                0 <= done <= all.len(),
                sets == all_ids(words@),
                pending(choices) == all.skip(done),
                forall|choice: Seq<usize>| #[trigger]
                    all.contains(choice) <==> is_combination(
                        choice,
                        words.len() as nat,
                        count as nat,
                    ),
                forall|id: u32| #[trigger]
                    ids(satisfied).contains(id) <==> ids(*rules).contains(id) && exists|j: int|
                        0 <= j < done && covers(#[trigger] all[j], sets, id),
            ensures
                done == all.len(),
            decreases all.len() - done,
        {
            match next_combination(&mut choices) {
                None => {
                    break;
                },
                Some(choice) => {
                    assert(choice@ == all[done]);
                    assert(all.contains(all[done]));
                    let picked = pick(words, &choice);
                    let common = intersection(rules, picked);
                    assert forall|id: u32| #[trigger] ids(common).contains(id) <==> ids(
                        *rules,
                    ).contains(id) && covers(all[done], sets, id) by {
                        if ids(common).contains(id) {
                            assert forall|i: int| 0 <= i < choice.len() implies sets[
                                #[trigger] choice@[i] as int
                            ].contains(id) by {
                                assert(ids(*picked[i]).contains(id));
                            }
                        }
                        if ids(*rules).contains(id) && covers(all[done], sets, id) {
                            assert forall|i: int| 0 <= i < picked.len() implies ids(
                                *#[trigger] picked[i],
                            ).contains(id) by {
                                assert(sets[choice@[i] as int].contains(id));
                            }
                        }
                    }
                    unite(&mut satisfied, &common);
                    proof {
                        done = done + 1;
                        assert(pending(choices) =~= all.skip(done));
                    }
                },
            }
        }
        assert forall|id: u32| #[trigger] ids(satisfied).contains(id) <==> satisfied_by(
            ids(*rules),
            sets,
            count as nat,
        ).contains(id) by {
            lemma_choice_iff_holders(sets, id, count as nat);
            if holders(sets, id) >= count {
                let choice = choose|choice: Seq<usize>| #[trigger]
                    is_combination(choice, sets.len(), count as nat) && covers(choice, sets, id);
                assert(all.contains(choice));
                let j = choose|j: int| 0 <= j < all.len() && all[j] == choice;
                assert(covers(all[j], sets, id));
            }
            if ids(satisfied).contains(id) {
                let j = choose|j: int| 0 <= j < done && covers(#[trigger] all[j], sets, id);
                assert(all.contains(all[j]));
                assert(is_combination(all[j], sets.len(), count as nat));
            }
        }
        assert(ids(satisfied) =~= satisfied_by(ids(*rules), sets, count as nat));
    }
    satisfied
}

} // verus!

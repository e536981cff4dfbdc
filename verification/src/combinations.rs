use itertools::Itertools;
use vstd::prelude::*;

verus! {

/// The choices of some positions out of `0..n` that are still to be handed out, held by
/// `Combinations` of `itertools`.
#[verifier::external_body]
pub struct IndexCombinations {
    inner: itertools::Combinations<std::ops::Range<usize>>,
}

/// The choices that are still to be handed out, in their order.
pub uninterp spec fn pending(choices: IndexCombinations) -> Seq<Seq<usize>>;

/// `choice` picks `k` of the positions `0..n`, in ascending order.
pub open spec fn is_combination(choice: Seq<usize>, n: nat, k: nat) -> bool {
    &&& choice.len() == k
    &&& forall|i: int| 0 <= i < choice.len() ==> #[trigger] choice[i] < n
    &&& forall|i: int, j: int| 0 <= i < j < choice.len() ==> choice[i] < choice[j]
}

/// `Itertools::combinations` of `itertools` on the range `0..n`: every way to pick `k` positions
/// in ascending order is handed out, and none twice.
#[verifier::external_body]
pub(crate) fn combinations(n: usize, k: u8) -> (choices: IndexCombinations)
    ensures
        pending(choices).no_duplicates(),
        forall|choice: Seq<usize>| #[trigger]
            pending(choices).contains(choice) <==> is_combination(choice, n as nat, k as nat),
{
    IndexCombinations { inner: (0..n).combinations(usize::from(k)) }
}

/// `Iterator::next` of `Combinations` of `itertools`: the first pending choice, as long as there
/// is one.
#[verifier::external_body]
pub(crate) fn next_combination(choices: &mut IndexCombinations) -> (choice: Option<Vec<usize>>)
    ensures
        match choice {
            Some(positions) => {
                &&& pending(*old(choices)).len() > 0
                &&& positions@ == pending(*old(choices))[0]
                &&& pending(*final(choices)) == pending(*old(choices)).drop_first()
            },
            None => {
                &&& pending(*old(choices)).len() == 0
                &&& pending(*final(choices)) == pending(*old(choices))
            },
        },
{
    choices.inner.next()
}

} // verus!

//! The candidate selector.
//!
//! The keystream of a correct data seed agrees with the combined keystream at
//! about three positions in four: wherever the control register picks it, and
//! at half of the other positions by chance. So the discrepancy of a correct
//! seed lies near a quarter of the window, and the selector picks the
//! candidate whose discrepancy comes closest to that.

use vstd::prelude::*;
use crate::error::AttackError;
use crate::scan::Candidate;

verus! {

/// Four times the distance between `discrepancy` and a quarter of `window`.
pub open spec fn deviation(discrepancy: nat, window: nat) -> nat {
    if 4 * discrepancy >= window {
        (4 * discrepancy - window) as nat
    } else {
        (window - 4 * discrepancy) as nat
    }
}

/// A candidate is usable when its seed is not the all-zero state, from which a
/// register emits zeros only.
pub open spec fn usable(candidate: Candidate) -> bool {
    candidate.0 != 0
}

/// `i` is the index of the best candidate: it is usable, no usable candidate
/// deviates less, and every usable candidate before it deviates more.
pub open spec fn is_best(candidates: Seq<Candidate>, window: nat, i: int) -> bool {
    &&& 0 <= i < candidates.len()
    &&& usable(candidates[i])
    &&& forall|k: int|
        0 <= k < candidates.len() && usable(#[trigger] candidates[k]) ==> deviation(
            candidates[i].1 as nat,
            window,
        ) <= deviation(candidates[k].1 as nat, window)
    &&& forall|k: int|
        0 <= k < i && usable(#[trigger] candidates[k]) ==> deviation(
            candidates[i].1 as nat,
            window,
        ) < deviation(candidates[k].1 as nat, window)
}

/// `seed` is the seed of the best candidate.
pub open spec fn selects(candidates: Seq<Candidate>, window: nat, seed: u32) -> bool {
    exists|i: int| is_best(candidates, window, i) && #[trigger] candidates[i].0 == seed
}

/// No candidate is usable.
pub open spec fn none_usable(candidates: Seq<Candidate>) -> bool {
    forall|i: int| 0 <= i < candidates.len() ==> !usable(#[trigger] candidates[i])
}

/// There is at most one best index.
pub proof fn lemma_best_is_unique(candidates: Seq<Candidate>, window: nat, i: int, j: int)
    requires
        is_best(candidates, window, i),
        is_best(candidates, window, j),
    ensures
        i == j,
{
    if i < j {
        assert(usable(candidates[i]));
    } else if j < i {
        assert(usable(candidates[j]));
    }
}

/// The selector's choice is a function of the candidates and the window.
pub proof fn lemma_selection_is_unique(
    candidates: Seq<Candidate>,
    window: nat,
    first: u32,
    second: u32,
)
    requires
        selects(candidates, window, first),
        selects(candidates, window, second),
    ensures
        first == second,
{
    let i = choose|i: int| is_best(candidates, window, i) && #[trigger] candidates[i].0 == first;
    let j = choose|j: int| is_best(candidates, window, j) && #[trigger] candidates[j].0 == second;
    lemma_best_is_unique(candidates, window, i, j);
}

/// Four times the distance between `discrepancy` and a quarter of
/// `required_len`.
pub fn scaled_deviation(discrepancy: usize, required_len: usize) -> (scaled: u128)
    ensures
        scaled == deviation(discrepancy as nat, required_len as nat),
{
    let quadruple: u128 = 4 * (discrepancy as u128);
    let window: u128 = required_len as u128;
    if quadruple >= window {
        quadruple - window
    } else {
        window - quadruple
    }
}

/// Picks, among the candidates with a nonzero seed, the one whose discrepancy
/// is closest to a quarter of `required_len`, and returns its seed. Of several
/// equally close candidates the first wins.
///
/// Fails with `NoCandidatesFound` when no candidate has a nonzero seed, in
/// particular when the list is empty.
pub fn find_best_candidate(candidates: &[Candidate], required_len: usize) -> (best: Result<
    u32,
    AttackError,
>)
    ensures
        best is Err <==> none_usable(candidates@),
        match best {
            Ok(seed) => seed != 0 && selects(candidates@, required_len as nat, seed),
            Err(e) => e == AttackError::NoCandidatesFound,
        },
{
    let ghost window = required_len as nat;
    let mut best: Option<(u32, u128)> = None;
    let ghost mut best_index: int = 0;
    let mut i: usize = 0;
    while i < candidates.len()
        invariant
            i <= candidates@.len(),
            window == required_len,
            match best {
                None => forall|k: int| 0 <= k < i ==> !usable(#[trigger] candidates@[k]),
                Some((seed, least)) => {
                    &&& 0 <= best_index < i
                    &&& candidates@[best_index].0 == seed
                    &&& seed != 0
                    &&& least == deviation(candidates@[best_index].1 as nat, window)
                    &&& forall|k: int|
                        0 <= k < i && usable(#[trigger] candidates@[k]) ==> least <= deviation(
                            candidates@[k].1 as nat,
                            window,
                        )
                    &&& forall|k: int|
                        0 <= k < best_index && usable(#[trigger] candidates@[k]) ==> least
                            < deviation(candidates@[k].1 as nat, window)
                },
            },
        decreases candidates@.len() - i,
    {
        let (seed, discrepancy) = candidates[i];
        if seed != 0 {
            let scaled: u128 = scaled_deviation(discrepancy, required_len);
            let closer: bool = match best {
                None => true,
                Some((_, least)) => scaled < least,
            };
            if closer {
                best = Some((seed, scaled));
                proof {
                    best_index = i as int;
                }
            }
        }
        i = i + 1;
    }
    match best {
        None => Err(AttackError::NoCandidatesFound),
        Some((seed, _)) => {
            assert(is_best(candidates@, window, best_index));
            assert(usable(candidates@[best_index]));
            Ok(seed)
        },
    }
}

} // verus!

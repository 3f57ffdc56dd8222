//! The correlation scanner.
//!
//! The scanner walks the states that a register visits from seed 1 and lists
//! those whose keystream lies close to the start of the target.

use vstd::prelude::*;
use vstd::arithmetic::power2::pow2;
use crate::lfsr::{LFSR, LfsrView, keystream, state_after};
use crate::period::{is_maximal, lemma_maximal_register_visits_each_state_once, period, visits};
use crate::walk::{StateWalk, WalkView, discrepancy, lemma_differing_bound, reference_len};

verus! {

/// A state of the register with its discrepancy: the number of positions at
/// which the keystream of that state differs from the start of the target.
pub type Candidate = (u32, usize);

/// The state that the register holds `offset` steps after seed 1, with its
/// discrepancy.
pub open spec fn candidate_at(
    taps: u32,
    degree: nat,
    target: Seq<u8>,
    window: nat,
    offset: nat,
) -> Candidate {
    let state = state_after(taps, degree, 1, offset);
    (state, discrepancy(taps, degree, state, target, window) as usize)
}

/// The candidates of the first `offsets` states from seed 1, in the order in
/// which the register visits them: those whose discrepancy is below
/// `threshold`.
pub open spec fn scan(
    taps: u32,
    degree: nat,
    target: Seq<u8>,
    window: nat,
    threshold: nat,
    offsets: nat,
) -> Seq<Candidate> {
    Seq::new(offsets, |j: int| candidate_at(taps, degree, target, window, j as nat)).filter(
        |c: Candidate| c.1 < threshold,
    )
}

/// Every entry of a scan is a state visited within the first `offsets` steps,
/// listed with its own discrepancy, which is below the threshold.
pub proof fn lemma_scan_entries(
    taps: u32,
    degree: nat,
    target: Seq<u8>,
    window: nat,
    threshold: nat,
    offsets: nat,
    i: int,
)
    requires
        window <= usize::MAX,
        0 <= i < scan(taps, degree, target, window, threshold, offsets).len(),
    ensures
        ({
            let entry = scan(taps, degree, target, window, threshold, offsets)[i];
            &&& entry.1 == discrepancy(taps, degree, entry.0, target, window)
            &&& entry.1 < threshold
            &&& exists|j: nat| j < offsets && entry.0 == state_after(taps, degree, 1, j)
        }),
{
    let visited = Seq::new(offsets, |j: int| candidate_at(taps, degree, target, window, j as nat));
    let close = |c: Candidate| c.1 < threshold;
    let entry = visited.filter(close)[i];
    visited.lemma_filter_pred(close, i);
    assert(visited.filter(close).contains(entry));
    visited.lemma_filter_contains_rev(close, entry);
    let j = choose|j: int| 0 <= j < visited.len() && visited[j] == entry;
    lemma_differing_bound(keystream(taps, degree, entry.0, window), target, window);
    assert((j as nat) < offsets && entry.0 == state_after(taps, degree, 1, j as nat));
}

/// Every state visited within the first `offsets` steps whose discrepancy is
/// below the threshold is an entry of the scan.
pub proof fn lemma_scan_lists_every_close_state(
    taps: u32,
    degree: nat,
    target: Seq<u8>,
    window: nat,
    threshold: nat,
    offsets: nat,
    j: nat,
)
    requires
        window <= usize::MAX,
        j < offsets,
        discrepancy(taps, degree, state_after(taps, degree, 1, j), target, window) < threshold,
    ensures
        scan(taps, degree, target, window, threshold, offsets).contains(
            candidate_at(taps, degree, target, window, j),
        ),
{
    let visited = Seq::new(offsets, |k: int| candidate_at(taps, degree, target, window, k as nat));
    let close = |c: Candidate| c.1 < threshold;
    lemma_differing_bound(
        keystream(taps, degree, state_after(taps, degree, 1, j), window),
        target,
        window,
    );
    assert(visited[j as int] == candidate_at(taps, degree, target, window, j));
    visited.lemma_filter_contains(close, j as int);
}

/// The scan of a register of maximal length stands for a scan over all seeds:
/// every nonzero seed below `2^degree` whose discrepancy is below the
/// threshold is listed, with that discrepancy.
pub proof fn lemma_full_scan_lists_every_close_seed(
    taps: u32,
    degree: nat,
    target: Seq<u8>,
    window: nat,
    threshold: nat,
    seed: u32,
)
    requires
        1 <= degree <= 32,
        is_maximal(taps, degree),
        0 < seed < pow2(degree),
        window <= usize::MAX,
        discrepancy(taps, degree, seed, target, window) < threshold,
    ensures
        scan(taps, degree, target, window, threshold, pow2(degree)).contains(
            (seed, discrepancy(taps, degree, seed, target, window) as usize),
        ),
{
    lemma_maximal_register_visits_each_state_once(taps, degree);
    assert(visits(taps, degree, seed));
    let k = choose|k: nat| k < period(degree) && #[trigger] state_after(taps, degree, 1, k) == seed;
    lemma_scan_lists_every_close_state(taps, degree, target, window, threshold, pow2(degree), k);
}

/// The comparison with the threshold is strict: a seed whose discrepancy is
/// the threshold or more is in no entry of the scan.
pub proof fn lemma_threshold_excludes(
    taps: u32,
    degree: nat,
    target: Seq<u8>,
    window: nat,
    threshold: nat,
    offsets: nat,
    seed: u32,
)
    requires
        window <= usize::MAX,
        threshold <= discrepancy(taps, degree, seed, target, window),
    ensures
        forall|i: int|
            0 <= i < scan(taps, degree, target, window, threshold, offsets).len() ==> (
            #[trigger] scan(taps, degree, target, window, threshold, offsets)[i]).0 != seed,
{
    assert forall|i: int|
        0 <= i < scan(taps, degree, target, window, threshold, offsets).len() implies (
    #[trigger] scan(taps, degree, target, window, threshold, offsets)[i]).0 != seed by {
        lemma_scan_entries(taps, degree, target, window, threshold, offsets, i);
    }
}

/// Scans the first `2^degree` states that `lfsr` visits from seed 1 and lists,
/// in that order, each state whose keystream differs from the first
/// `required_len` bits of `target_seq` at fewer than `threshold` positions,
/// together with that number.
///
/// With `degree` the width of `lfsr`, a register of maximal length is scanned
/// at every nonzero state, and at seed 1 once more at the end; a smaller
/// `degree` restricts the scan to the first `2^degree` states. The register is
/// left in the state at the end of the reference run.
pub fn find_candidates(
    lfsr: &mut LFSR,
    target_seq: &[u8],
    required_len: usize,
    threshold: usize,
    degree: u8,
) -> (candidates: Vec<Candidate>)
    requires
        degree <= 32,
        required_len <= target_seq@.len(),
        reference_len(old(lfsr)@.degree, required_len as nat, pow2(degree as nat)) <= usize::MAX,
    ensures
        candidates@ == scan(
            old(lfsr)@.taps,
            old(lfsr)@.degree,
            target_seq@,
            required_len as nat,
            threshold as nat,
            pow2(degree as nat),
        ),
        final(lfsr)@ == (LfsrView {
            state: state_after(
                old(lfsr)@.taps,
                old(lfsr)@.degree,
                1,
                reference_len(old(lfsr)@.degree, required_len as nat, pow2(degree as nat)),
            ),
            ..old(lfsr)@
        }),
{
    let ghost taps = lfsr@.taps;
    let ghost d = lfsr@.degree;
    let ghost target = target_seq@;
    let ghost window = required_len as nat;
    let mut walk = StateWalk::start(lfsr, required_len, degree);
    let mut candidates: Vec<Candidate> = Vec::new();
    proof {
        assert(Seq::new(0, |k: int| candidate_at(taps, d, target, window, k as nat)).filter(
            |c: Candidate| c.1 < threshold as nat,
        ) =~= Seq::<Candidate>::empty()) by {
            reveal(Seq::filter);
        }
    }
    while !walk.finished()
        invariant
            target == target_seq@,
            window == required_len,
            required_len <= target_seq@.len(),
            walk@ == (WalkView {
                taps,
                degree: d,
                window,
                offsets: pow2(degree as nat),
                offset: walk@.offset,
            }),
            candidates@ == scan(taps, d, target, window, threshold as nat, walk@.offset),
        decreases walk@.offsets - walk@.offset,
    {
        let ghost j = walk@.offset;
        let discrepancy: usize = walk.discrepancy(target_seq);
        proof {
            let before = Seq::new(j, |k: int| candidate_at(taps, d, target, window, k as nat));
            let after = Seq::new(j + 1, |k: int| candidate_at(taps, d, target, window, k as nat));
            assert(after =~= before.push(candidate_at(taps, d, target, window, j)));
            before.lemma_filter_push(
                candidate_at(taps, d, target, window, j),
                |c: Candidate| c.1 < threshold as nat,
            );
        }
        if discrepancy < threshold {
            candidates.push((walk.state(), discrepancy));
        }
        walk = walk.advance();
    }
    candidates
}

} // verus!

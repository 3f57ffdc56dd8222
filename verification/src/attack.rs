//! The attack from end to end: scan both data registers, select a seed for
//! each, resolve the control register, and verify the three seeds against the
//! whole target.

use vstd::prelude::*;
use vstd::arithmetic::power2::pow2;
use crate::error::AttackError;
use crate::period::{is_maximal, lemma_maximal_register_visits_each_state_once, period, visits};
use crate::geffe::{Geffe, GeffeView, Wiring, geffe_after, geffe_keystream};
use crate::lfsr::{Feedback, LfsrView, keystream, state_after};
use crate::resolve::{
    find_lfsr3_candidate,
    lemma_planted_control_seed_is_found,
    lemma_resolution_is_unique,
    lemma_resolved_seed_reproduces,
    is_first_resolving,
    resolves,
    resolves_at,
    unresolvable,
};
use crate::scan::{Candidate, find_candidates, scan};
use crate::walk::{StateWalk, reference_len};
use crate::select::{
    find_best_candidate,
    is_best,
    lemma_selection_is_unique,
    none_usable,
    selects,
    usable,
};

verus! {

/// Tuning of the scan of one data register: how many bits of the target to
/// compare, and the discrepancy below which a state becomes a candidate.
#[derive(Debug, Clone, Copy, PartialEq, Eq)]
pub struct ScanParams {
    pub window_len: usize,
    pub threshold: usize,
}

/// The seeds of the two data registers and of the control register.
#[derive(Debug, Clone, Copy, PartialEq, Eq)]
pub struct RecoveredSeeds {
    pub seed1: u32,
    pub seed2: u32,
    pub seed3: u32,
}

/// The scan of a whole register: all `2^degree` offsets.
pub open spec fn full_scan(register: Feedback, target: Seq<u8>, params: ScanParams) -> Seq<
    Candidate,
> {
    scan(
        register.taps,
        register.degree,
        target,
        params.window_len as nat,
        params.threshold as nat,
        pow2(register.degree),
    )
}

/// `seeds` is what the attack on `target` arrives at: the selector's choice
/// from the full scan of each data register, and the first control state that
/// reproduces the whole target with them.
pub open spec fn recovers(
    w: Wiring,
    target: Seq<u8>,
    params1: ScanParams,
    params2: ScanParams,
    seeds: RecoveredSeeds,
) -> bool {
    &&& selects(full_scan(w.lfsr1, target, params1), params1.window_len as nat, seeds.seed1)
    &&& selects(full_scan(w.lfsr2, target, params2), params2.window_len as nat, seeds.seed2)
    &&& resolves(
        w,
        seeds.seed1,
        seeds.seed2,
        target,
        target.len(),
        pow2(w.lfsr3.degree),
        seeds.seed3,
    )
}

/// An attack on a target of `target_len` bits can be run: neither window is
/// longer than the target, and the three reference runs fit the address
/// space.
pub open spec fn attack_fits(
    g: GeffeView,
    target_len: nat,
    params1: ScanParams,
    params2: ScanParams,
) -> bool {
    &&& params1.window_len <= target_len
    &&& params2.window_len <= target_len
    &&& reference_len(g.lfsr1.degree, params1.window_len as nat, pow2(g.lfsr1.degree))
        <= usize::MAX
    &&& reference_len(g.lfsr2.degree, params2.window_len as nat, pow2(g.lfsr2.degree))
        <= usize::MAX
    &&& reference_len(g.lfsr3.degree, target_len, pow2(g.lfsr3.degree)) <= usize::MAX
}

/// The generator after both data registers were scanned: each is at the end
/// of its reference run, the control register untouched.
pub open spec fn after_scans(g: GeffeView, params1: ScanParams, params2: ScanParams) -> GeffeView {
    GeffeView {
        lfsr1: LfsrView {
            state: state_after(
                g.lfsr1.taps,
                g.lfsr1.degree,
                1,
                reference_len(g.lfsr1.degree, params1.window_len as nat, pow2(g.lfsr1.degree)),
            ),
            ..g.lfsr1
        },
        lfsr2: LfsrView {
            state: state_after(
                g.lfsr2.taps,
                g.lfsr2.degree,
                1,
                reference_len(g.lfsr2.degree, params2.window_len as nat, pow2(g.lfsr2.degree)),
            ),
            ..g.lfsr2
        },
        lfsr3: g.lfsr3,
    }
}

/// The generator after a search of the whole control register over `n` bits
/// with data seeds `seed1` and `seed2`.
pub open spec fn after_resolution(g: GeffeView, seed1: u32, seed2: u32, n: nat) -> GeffeView {
    GeffeView {
        lfsr1: LfsrView { state: state_after(g.lfsr1.taps, g.lfsr1.degree, seed1, n), ..g.lfsr1 },
        lfsr2: LfsrView { state: state_after(g.lfsr2.taps, g.lfsr2.degree, seed2, n), ..g.lfsr2 },
        lfsr3: LfsrView {
            state: state_after(
                g.lfsr3.taps,
                g.lfsr3.degree,
                1,
                reference_len(g.lfsr3.degree, n, pow2(g.lfsr3.degree)),
            ),
            ..g.lfsr3
        },
    }
}

/// Whatever seeds the attack arrives at are nonzero and regenerate the target
/// over its full length, not only over the scan windows.
pub proof fn lemma_recovered_seeds_regenerate_target(
    w: Wiring,
    target: Seq<u8>,
    params1: ScanParams,
    params2: ScanParams,
    seeds: RecoveredSeeds,
)
    requires
        recovers(w, target, params1, params2, seeds),
    ensures
        seeds.seed1 != 0,
        seeds.seed2 != 0,
        seeds.seed3 != 0,
        geffe_keystream(w, seeds.seed1, seeds.seed2, seeds.seed3, target.len()) == target,
{
    lemma_resolved_seed_reproduces(
        w,
        seeds.seed1,
        seeds.seed2,
        target,
        target.len(),
        pow2(w.lfsr3.degree),
        seeds.seed3,
    );
    assert(target.take(target.len() as int) =~= target);
}

/// The attack arrives at no more than one triple of seeds.
pub proof fn lemma_recovery_is_unique(
    w: Wiring,
    target: Seq<u8>,
    params1: ScanParams,
    params2: ScanParams,
    first: RecoveredSeeds,
    second: RecoveredSeeds,
)
    requires
        recovers(w, target, params1, params2, first),
        recovers(w, target, params1, params2, second),
    ensures
        first == second,
{
    lemma_selection_is_unique(
        full_scan(w.lfsr1, target, params1),
        params1.window_len as nat,
        first.seed1,
        second.seed1,
    );
    lemma_selection_is_unique(
        full_scan(w.lfsr2, target, params2),
        params2.window_len as nat,
        first.seed2,
        second.seed2,
    );
    lemma_resolution_is_unique(
        w,
        first.seed1,
        first.seed2,
        target,
        target.len(),
        pow2(w.lfsr3.degree),
        first.seed3,
        second.seed3,
    );
}

/// Without a usable candidate for each data register the attack arrives at
/// nothing.
pub proof fn lemma_no_recovery_without_candidates(
    w: Wiring,
    target: Seq<u8>,
    params1: ScanParams,
    params2: ScanParams,
)
    requires
        none_usable(full_scan(w.lfsr1, target, params1)) || none_usable(
            full_scan(w.lfsr2, target, params2),
        ),
    ensures
        forall|seeds: RecoveredSeeds| !#[trigger] recovers(w, target, params1, params2, seeds),
{
    assert forall|seeds: RecoveredSeeds| !#[trigger] recovers(
        w,
        target,
        params1,
        params2,
        seeds,
    ) by {
        if recovers(w, target, params1, params2, seeds) {
            let scan1 = full_scan(w.lfsr1, target, params1);
            let scan2 = full_scan(w.lfsr2, target, params2);
            let i = choose|i: int|
                is_best(scan1, params1.window_len as nat, i) && #[trigger] scan1[i].0
                    == seeds.seed1;
            let j = choose|j: int|
                is_best(scan2, params2.window_len as nat, j) && #[trigger] scan2[j].0
                    == seeds.seed2;
            assert(usable(scan1[i]));
            assert(usable(scan2[j]));
        }
    }
}

/// When no control state reproduces the target with the two selected data
/// seeds the attack arrives at nothing.
pub proof fn lemma_no_recovery_when_unresolvable(
    w: Wiring,
    target: Seq<u8>,
    params1: ScanParams,
    params2: ScanParams,
    seed1: u32,
    seed2: u32,
)
    requires
        selects(full_scan(w.lfsr1, target, params1), params1.window_len as nat, seed1),
        selects(full_scan(w.lfsr2, target, params2), params2.window_len as nat, seed2),
        unresolvable(w, seed1, seed2, target, target.len(), pow2(w.lfsr3.degree)),
    ensures
        forall|seeds: RecoveredSeeds| !#[trigger] recovers(w, target, params1, params2, seeds),
{
    assert forall|seeds: RecoveredSeeds| !#[trigger] recovers(
        w,
        target,
        params1,
        params2,
        seeds,
    ) by {
        if recovers(w, target, params1, params2, seeds) {
            lemma_selection_is_unique(
                full_scan(w.lfsr1, target, params1),
                params1.window_len as nat,
                seed1,
                seeds.seed1,
            );
            lemma_selection_is_unique(
                full_scan(w.lfsr2, target, params2),
                params2.window_len as nat,
                seed2,
                seeds.seed2,
            );
            let j = choose|j: nat|
                j < pow2(w.lfsr3.degree) && #[trigger] is_first_resolving(
                    w,
                    seed1,
                    seed2,
                    target,
                    target.len(),
                    j,
                ) && state_after(w.lfsr3.taps, w.lfsr3.degree, 1, j) == seeds.seed3;
            assert(resolves_at(w, seed1, seed2, target, target.len(), j));
        }
    }
}

/// Round trip. Let `target` be the keystream of a generator wired as `w`,
/// made from data seeds `planted1` and `planted2` and from the nonzero state
/// that the control register holds `planted_offset` steps after seed 1. If the
/// selector's choices `seed1` and `seed2` emit, over the length of the target,
/// what the planted data seeds emit, then the attack arrives at seeds, these
/// two among them, that regenerate the target over its full length.
pub proof fn lemma_round_trip(
    w: Wiring,
    target: Seq<u8>,
    params1: ScanParams,
    params2: ScanParams,
    planted1: u32,
    planted2: u32,
    planted_offset: nat,
    seed1: u32,
    seed2: u32,
)
    requires
        planted_offset < pow2(w.lfsr3.degree),
        state_after(w.lfsr3.taps, w.lfsr3.degree, 1, planted_offset) != 0,
        target == geffe_keystream(
            w,
            planted1,
            planted2,
            state_after(w.lfsr3.taps, w.lfsr3.degree, 1, planted_offset),
            target.len(),
        ),
        selects(full_scan(w.lfsr1, target, params1), params1.window_len as nat, seed1),
        selects(full_scan(w.lfsr2, target, params2), params2.window_len as nat, seed2),
        keystream(w.lfsr1.taps, w.lfsr1.degree, seed1, target.len()) == keystream(
            w.lfsr1.taps,
            w.lfsr1.degree,
            planted1,
            target.len(),
        ),
        keystream(w.lfsr2.taps, w.lfsr2.degree, seed2, target.len()) == keystream(
            w.lfsr2.taps,
            w.lfsr2.degree,
            planted2,
            target.len(),
        ),
    ensures
        exists|seed3: u32|
            {
                &&& #[trigger] recovers(
                    w,
                    target,
                    params1,
                    params2,
                    RecoveredSeeds { seed1, seed2, seed3 },
                )
                &&& geffe_keystream(w, seed1, seed2, seed3, target.len()) == target
            },
{
    let n = target.len();
    let planted3 = state_after(w.lfsr3.taps, w.lfsr3.degree, 1, planted_offset);
    assert(target.take(n as int) =~= target);
    assert(geffe_keystream(w, seed1, seed2, planted3, n) == geffe_keystream(
        w,
        planted1,
        planted2,
        planted3,
        n,
    ));
    lemma_planted_control_seed_is_found(
        w,
        seed1,
        seed2,
        target,
        n,
        pow2(w.lfsr3.degree),
        planted_offset,
    );
    let seed3 = choose|seed3: u32|
        #[trigger] resolves(w, seed1, seed2, target, n, pow2(w.lfsr3.degree), seed3)
            && geffe_keystream(w, seed1, seed2, seed3, n) == target.take(n as int);
    assert(recovers(w, target, params1, params2, RecoveredSeeds { seed1, seed2, seed3 }));
}

/// Round trip with a control register of maximal length: every nonzero
/// control seed below `2^degree` can be planted, since such a register visits
/// each of them within one period from seed 1.
pub proof fn lemma_round_trip_with_maximal_control(
    w: Wiring,
    target: Seq<u8>,
    params1: ScanParams,
    params2: ScanParams,
    planted1: u32,
    planted2: u32,
    planted3: u32,
    seed1: u32,
    seed2: u32,
)
    requires
        1 <= w.lfsr3.degree <= 32,
        is_maximal(w.lfsr3.taps, w.lfsr3.degree),
        0 < planted3 < pow2(w.lfsr3.degree),
        target == geffe_keystream(w, planted1, planted2, planted3, target.len()),
        selects(full_scan(w.lfsr1, target, params1), params1.window_len as nat, seed1),
        selects(full_scan(w.lfsr2, target, params2), params2.window_len as nat, seed2),
        keystream(w.lfsr1.taps, w.lfsr1.degree, seed1, target.len()) == keystream(
            w.lfsr1.taps,
            w.lfsr1.degree,
            planted1,
            target.len(),
        ),
        keystream(w.lfsr2.taps, w.lfsr2.degree, seed2, target.len()) == keystream(
            w.lfsr2.taps,
            w.lfsr2.degree,
            planted2,
            target.len(),
        ),
    ensures
        exists|seed3: u32|
            {
                &&& #[trigger] recovers(
                    w,
                    target,
                    params1,
                    params2,
                    RecoveredSeeds { seed1, seed2, seed3 },
                )
                &&& geffe_keystream(w, seed1, seed2, seed3, target.len()) == target
            },
{
    lemma_maximal_register_visits_each_state_once(w.lfsr3.taps, w.lfsr3.degree);
    assert(visits(w.lfsr3.taps, w.lfsr3.degree, planted3));
    let offset = choose|k: nat|
        k < period(w.lfsr3.degree) && #[trigger] state_after(w.lfsr3.taps, w.lfsr3.degree, 1, k)
            == planted3;
    lemma_round_trip(w, target, params1, params2, planted1, planted2, offset, seed1, seed2);
}

/// Whether two streams are the same.
pub fn streams_equal(left: &[u8], right: &[u8]) -> (same: bool)
    ensures
        same == (left@ == right@),
{
    if left.len() != right.len() {
        return false;
    }
    let mut i: usize = 0;
    while i < left.len()
        invariant
            i <= left@.len(),
            left@.len() == right@.len(),
            forall|k: int| 0 <= k < i ==> left@[k] == right@[k],
        decreases left@.len() - i,
    {
        if left[i] != right[i] {
            return false;
        }
        i = i + 1;
    }
    assert(left@ =~= right@);
    true
}

impl Geffe {
    /// Regenerates as many bits as `target` holds from the three seeds and
    /// compares them with `target`: `Ok` on a match over the full length,
    /// `VerificationMismatch` otherwise.
    pub fn verify_seeds(&mut self, seed1: u32, seed2: u32, seed3: u32, target: &[u8]) -> (verdict:
        Result<(), AttackError>)
        ensures
            verdict is Ok <==> geffe_keystream(
                old(self)@.wiring(),
                seed1,
                seed2,
                seed3,
                target@.len(),
            )
                == target@,
            verdict matches Err(e) ==> e == AttackError::VerificationMismatch,
            final(self)@ == geffe_after(old(self)@, seed1, seed2, seed3, target@.len()),
    {
        let regenerated = self.generate(seed1, seed2, seed3, target.len());
        if streams_equal(regenerated.as_slice(), target) {
            Ok(())
        } else {
            Err(AttackError::VerificationMismatch)
        }
    }

    /// Whether an attack on a target of `target_len` bits can be run with
    /// these windows: neither window may be longer than the target, and the
    /// three reference runs must fit the address space.
    pub fn can_recover(
        &self,
        target_len: usize,
        params1: ScanParams,
        params2: ScanParams,
    ) -> (possible: bool)
        ensures
            possible == attack_fits(self@, target_len as nat, params1, params2),
    {
        let degree1: u8 = self.lfsr1.degree();
        let degree2: u8 = self.lfsr2.degree();
        let degree3: u8 = self.lfsr3.degree();
        params1.window_len <= target_len && params2.window_len <= target_len
            && StateWalk::can_start(&self.lfsr1, params1.window_len, degree1)
            && StateWalk::can_start(&self.lfsr2, params2.window_len, degree2)
            && StateWalk::can_start(&self.lfsr3, target_len, degree3)
    }

    /// Recovers the seeds of the three registers from the keystream `target`.
    ///
    /// Each data register is scanned over all its `2^degree` offsets with its
    /// own window and threshold, and the selector picks one seed from each
    /// scan. The control register is then searched for the first state that
    /// reproduces the whole target with those two seeds, and the three seeds
    /// are verified by regenerating the target.
    ///
    /// Seeds that are returned are nonzero and regenerate `target` over its
    /// full length. Since the control search compares the whole target, the
    /// verification cannot fail here.
    pub fn recover_seeds(
        &mut self,
        target: &[u8],
        params1: ScanParams,
        params2: ScanParams,
    ) -> (outcome: Result<RecoveredSeeds, AttackError>)
        requires
            attack_fits(old(self)@, target@.len(), params1, params2),
        ensures
            outcome is Ok <==> exists|seeds: RecoveredSeeds| #[trigger]
                recovers(old(self)@.wiring(), target@, params1, params2, seeds),
            match outcome {
                Ok(seeds) => {
                    &&& recovers(old(self)@.wiring(), target@, params1, params2, seeds)
                    &&& seeds.seed1 != 0 && seeds.seed2 != 0 && seeds.seed3 != 0
                    &&& geffe_keystream(
                        old(self)@.wiring(),
                        seeds.seed1,
                        seeds.seed2,
                        seeds.seed3,
                        target@.len(),
                    ) == target@
                    &&& final(self)@ == geffe_after(
                        old(self)@,
                        seeds.seed1,
                        seeds.seed2,
                        seeds.seed3,
                        target@.len(),
                    )
                },
                Err(AttackError::NoCandidatesFound) => {
                    &&& none_usable(full_scan(old(self)@.lfsr1.feedback(), target@, params1))
                        || none_usable(full_scan(old(self)@.lfsr2.feedback(), target@, params2))
                    &&& final(self)@ == after_scans(old(self)@, params1, params2)
                },
                Err(AttackError::ControlNotResolved) => (exists|seed1: u32, seed2: u32|
                    {
                        &&& selects(
                            full_scan(old(self)@.lfsr1.feedback(), target@, params1),
                            params1.window_len as nat,
                            seed1,
                        )
                        &&& selects(
                            full_scan(old(self)@.lfsr2.feedback(), target@, params2),
                            params2.window_len as nat,
                            seed2,
                        )
                        &&& #[trigger] unresolvable(
                            old(self)@.wiring(),
                            seed1,
                            seed2,
                            target@,
                            target@.len(),
                            pow2(old(self)@.lfsr3.degree),
                        )
                        &&& final(self)@ == after_resolution(
                            old(self)@,
                            seed1,
                            seed2,
                            target@.len(),
                        )
                    }),
                Err(AttackError::VerificationMismatch) => false,
            },
    {
        let ghost g = self@;
        let degree1: u8 = self.lfsr1.degree();
        let degree2: u8 = self.lfsr2.degree();
        let degree3: u8 = self.lfsr3.degree();
        let candidates1 = find_candidates(
            &mut self.lfsr1,
            target,
            params1.window_len,
            params1.threshold,
            degree1,
        );
        let candidates2 = find_candidates(
            &mut self.lfsr2,
            target,
            params2.window_len,
            params2.threshold,
            degree2,
        );
        let seed1 = match find_best_candidate(candidates1.as_slice(), params1.window_len) {
            Ok(seed) => seed,
            Err(e) => {
                proof {
                    lemma_no_recovery_without_candidates(g.wiring(), target@, params1, params2);
                }
                return Err(e);
            },
        };
        let seed2 = match find_best_candidate(candidates2.as_slice(), params2.window_len) {
            Ok(seed) => seed,
            Err(e) => {
                proof {
                    lemma_no_recovery_without_candidates(g.wiring(), target@, params1, params2);
                }
                return Err(e);
            },
        };
        let seed3 = match find_lfsr3_candidate(
            &mut self.lfsr3,
            &mut self.lfsr1,
            &mut self.lfsr2,
            target,
            seed1,
            seed2,
            target.len(),
            degree3,
        ) {
            Ok(seed) => seed,
            Err(e) => {
                assert(unresolvable(
                    g.wiring(),
                    seed1,
                    seed2,
                    target@,
                    target@.len(),
                    pow2(g.lfsr3.degree),
                ));
                assert(self@ == after_resolution(g, seed1, seed2, target@.len()));
                proof {
                    lemma_no_recovery_when_unresolvable(
                        g.wiring(),
                        target@,
                        params1,
                        params2,
                        seed1,
                        seed2,
                    );
                }
                return Err(e);
            },
        };
        proof {
            lemma_resolved_seed_reproduces(
                g.wiring(),
                seed1,
                seed2,
                target@,
                target@.len(),
                pow2(degree3 as nat),
                seed3,
            );
            assert(target@.take(target@.len() as int) =~= target@);
            assert(recovers(
                g.wiring(),
                target@,
                params1,
                params2,
                RecoveredSeeds { seed1, seed2, seed3 },
            ));
        }
        match self.verify_seeds(seed1, seed2, seed3, target) {
            Ok(()) => Ok(RecoveredSeeds { seed1, seed2, seed3 }),
            Err(e) => Err(e),
        }
    }
}

} // verus!

//! The control resolver.
//!
//! With the two data seeds fixed, the resolver walks the states that the
//! control register visits from seed 1 and looks for the first one that,
//! combined with the two data keystreams, reproduces the target bit for bit.

use vstd::prelude::*;
use vstd::arithmetic::power2::pow2;
use crate::error::AttackError;
use crate::geffe::{Wiring, geffe_keystream};
use crate::lfsr::{LFSR, LfsrView, keystream, state_after};
use crate::walk::{StateWalk, WalkView, reference_len};

verus! {

/// The state that the control register of `w` holds `offset` steps after
/// seed 1 is nonzero and, with the data seeds `seed1` and `seed2`, reproduces
/// the first `n` bits of `target`.
pub open spec fn resolves_at(
    w: Wiring,
    seed1: u32,
    seed2: u32,
    target: Seq<u8>,
    n: nat,
    offset: nat,
) -> bool {
    let state = state_after(w.lfsr3.taps, w.lfsr3.degree, 1, offset);
    state != 0 && geffe_keystream(w, seed1, seed2, state, n) == target.take(n as int)
}

/// `offset` resolves and no earlier offset does.
pub open spec fn is_first_resolving(
    w: Wiring,
    seed1: u32,
    seed2: u32,
    target: Seq<u8>,
    n: nat,
    offset: nat,
) -> bool {
    &&& resolves_at(w, seed1, seed2, target, n, offset)
    &&& forall|k: nat| k < offset ==> !#[trigger] resolves_at(w, seed1, seed2, target, n, k)
}

/// `seed3` is the control state at the first resolving offset below
/// `offsets`.
pub open spec fn resolves(
    w: Wiring,
    seed1: u32,
    seed2: u32,
    target: Seq<u8>,
    n: nat,
    offsets: nat,
    seed3: u32,
) -> bool {
    exists|j: nat|
        j < offsets && #[trigger] is_first_resolving(w, seed1, seed2, target, n, j) && state_after(
            w.lfsr3.taps,
            w.lfsr3.degree,
            1,
            j,
        ) == seed3
}

/// No offset below `offsets` resolves.
pub open spec fn unresolvable(
    w: Wiring,
    seed1: u32,
    seed2: u32,
    target: Seq<u8>,
    n: nat,
    offsets: nat,
) -> bool {
    forall|j: nat| j < offsets ==> !#[trigger] resolves_at(w, seed1, seed2, target, n, j)
}

/// Below every resolving offset there is a first one.
pub proof fn lemma_first_resolving_exists(
    w: Wiring,
    seed1: u32,
    seed2: u32,
    target: Seq<u8>,
    n: nat,
    offset: nat,
)
    requires
        resolves_at(w, seed1, seed2, target, n, offset),
    ensures
        exists|j: nat| j <= offset && #[trigger] is_first_resolving(w, seed1, seed2, target, n, j),
    decreases offset,
{
    if exists|k: nat| k < offset && #[trigger] resolves_at(w, seed1, seed2, target, n, k) {
        let k = choose|k: nat| k < offset && #[trigger] resolves_at(w, seed1, seed2, target, n, k);
        lemma_first_resolving_exists(w, seed1, seed2, target, n, k);
    } else {
        assert(is_first_resolving(w, seed1, seed2, target, n, offset));
    }
}

/// The resolver's answer is a function of its inputs.
pub proof fn lemma_resolution_is_unique(
    w: Wiring,
    seed1: u32,
    seed2: u32,
    target: Seq<u8>,
    n: nat,
    offsets: nat,
    first: u32,
    second: u32,
)
    requires
        resolves(w, seed1, seed2, target, n, offsets, first),
        resolves(w, seed1, seed2, target, n, offsets, second),
    ensures
        first == second,
{
    let i = choose|j: nat|
        j < offsets && #[trigger] is_first_resolving(w, seed1, seed2, target, n, j) && state_after(
            w.lfsr3.taps,
            w.lfsr3.degree,
            1,
            j,
        ) == first;
    let j = choose|j: nat|
        j < offsets && #[trigger] is_first_resolving(w, seed1, seed2, target, n, j) && state_after(
            w.lfsr3.taps,
            w.lfsr3.degree,
            1,
            j,
        ) == second;
    if i < j {
        assert(resolves_at(w, seed1, seed2, target, n, i));
    } else if j < i {
        assert(resolves_at(w, seed1, seed2, target, n, j));
    }
}

/// A seed that resolves reproduces the target and is not zero.
pub proof fn lemma_resolved_seed_reproduces(
    w: Wiring,
    seed1: u32,
    seed2: u32,
    target: Seq<u8>,
    n: nat,
    offsets: nat,
    seed3: u32,
)
    requires
        resolves(w, seed1, seed2, target, n, offsets, seed3),
    ensures
        seed3 != 0,
        geffe_keystream(w, seed1, seed2, seed3, n) == target.take(n as int),
{
    let j = choose|j: nat|
        j < offsets && #[trigger] is_first_resolving(w, seed1, seed2, target, n, j) && state_after(
            w.lfsr3.taps,
            w.lfsr3.degree,
            1,
            j,
        ) == seed3;
    assert(resolves_at(w, seed1, seed2, target, n, j));
}

/// Exhaustiveness: when the target was made with a nonzero control state that
/// the register holds at an offset inside the search space, the search
/// succeeds with a seed that reproduces the target, and with that very state
/// unless an earlier one reproduces the target too.
pub proof fn lemma_planted_control_seed_is_found(
    w: Wiring,
    seed1: u32,
    seed2: u32,
    target: Seq<u8>,
    n: nat,
    offsets: nat,
    planted: nat,
)
    requires
        planted < offsets,
        state_after(w.lfsr3.taps, w.lfsr3.degree, 1, planted) != 0,
        target.take(n as int) == geffe_keystream(
            w,
            seed1,
            seed2,
            state_after(w.lfsr3.taps, w.lfsr3.degree, 1, planted),
            n,
        ),
    ensures
        !unresolvable(w, seed1, seed2, target, n, offsets),
        exists|seed3: u32|
            #[trigger] resolves(w, seed1, seed2, target, n, offsets, seed3) && geffe_keystream(
                w,
                seed1,
                seed2,
                seed3,
                n,
            ) == target.take(n as int),
        (forall|k: nat| k < planted ==> !#[trigger] resolves_at(w, seed1, seed2, target, n, k))
            ==> resolves(
            w,
            seed1,
            seed2,
            target,
            n,
            offsets,
            state_after(w.lfsr3.taps, w.lfsr3.degree, 1, planted),
        ),
{
    assert(resolves_at(w, seed1, seed2, target, n, planted));
    lemma_first_resolving_exists(w, seed1, seed2, target, n, planted);
    let j = choose|j: nat|
        j <= planted && #[trigger] is_first_resolving(w, seed1, seed2, target, n, j);
    let seed3 = state_after(w.lfsr3.taps, w.lfsr3.degree, 1, j);
    assert(resolves(w, seed1, seed2, target, n, offsets, seed3));
    if forall|k: nat| k < planted ==> !#[trigger] resolves_at(w, seed1, seed2, target, n, k) {
        assert(is_first_resolving(w, seed1, seed2, target, n, planted));
    }
}

/// A search space that ends at or before the first resolving offset holds no
/// resolving offset.
pub proof fn lemma_restricted_search_finds_nothing(
    w: Wiring,
    seed1: u32,
    seed2: u32,
    target: Seq<u8>,
    n: nat,
    offsets: nat,
    first: nat,
)
    requires
        is_first_resolving(w, seed1, seed2, target, n, first),
        offsets <= first,
    ensures
        unresolvable(w, seed1, seed2, target, n, offsets),
{
}

/// Searches the first `2^degree` states that the control register `lfsr3`
/// visits from seed 1 for the first nonzero one that, combined with the
/// keystreams of `lfsr1` from `lfsr1_candidate` and of `lfsr2` from
/// `lfsr2_candidate`, equals the first `n` bits of `target_seq` exactly.
///
/// Fails with `ControlNotResolved` when none of those states does. With
/// `degree` the width of `lfsr3`, a register of maximal length is searched at
/// every nonzero state; a smaller `degree` restricts the search to the first
/// `2^degree` states. The data registers are left after `n` steps from their
/// seeds, the control register at the end of its reference run.
pub fn find_lfsr3_candidate(
    lfsr3: &mut LFSR,
    lfsr1: &mut LFSR,
    lfsr2: &mut LFSR,
    target_seq: &[u8],
    lfsr1_candidate: u32,
    lfsr2_candidate: u32,
    n: usize,
    degree: u8,
) -> (found: Result<u32, AttackError>)
    requires
        degree <= 32,
        n <= target_seq@.len(),
        reference_len(old(lfsr3)@.degree, n as nat, pow2(degree as nat)) <= usize::MAX,
    ensures
        found is Err <==> unresolvable(
            Wiring::of(old(lfsr1)@, old(lfsr2)@, old(lfsr3)@),
            lfsr1_candidate,
            lfsr2_candidate,
            target_seq@,
            n as nat,
            pow2(degree as nat),
        ),
        match found {
            Ok(seed) => seed != 0 && resolves(
                Wiring::of(old(lfsr1)@, old(lfsr2)@, old(lfsr3)@),
                lfsr1_candidate,
                lfsr2_candidate,
                target_seq@,
                n as nat,
                pow2(degree as nat),
                seed,
            ),
            Err(e) => e == AttackError::ControlNotResolved,
        },
        final(lfsr1)@ == (LfsrView {
            state: state_after(old(lfsr1)@.taps, old(lfsr1)@.degree, lfsr1_candidate, n as nat),
            ..old(lfsr1)@
        }),
        final(lfsr2)@ == (LfsrView {
            state: state_after(old(lfsr2)@.taps, old(lfsr2)@.degree, lfsr2_candidate, n as nat),
            ..old(lfsr2)@
        }),
        final(lfsr3)@ == (LfsrView {
            state: state_after(
                old(lfsr3)@.taps,
                old(lfsr3)@.degree,
                1,
                reference_len(old(lfsr3)@.degree, n as nat, pow2(degree as nat)),
            ),
            ..old(lfsr3)@
        }),
{
    let ghost w = Wiring::of(lfsr1@, lfsr2@, lfsr3@);
    let ghost target = target_seq@;
    let ghost len = n as nat;
    let mut walk = StateWalk::start(lfsr3, n, degree);
    let lfsr1_seq: Vec<u8> = lfsr1.generate(lfsr1_candidate, n as u64);
    let lfsr2_seq: Vec<u8> = lfsr2.generate(lfsr2_candidate, n as u64);

    while !walk.finished()
        invariant
            len == n,
            target == target_seq@,
            n <= target_seq@.len(),
            walk@ == (WalkView {
                taps: w.lfsr3.taps,
                degree: w.lfsr3.degree,
                window: len,
                offsets: pow2(degree as nat),
                offset: walk@.offset,
            }),
            w == Wiring::of(old(lfsr1)@, old(lfsr2)@, old(lfsr3)@),
            lfsr1@ == (LfsrView {
                state: state_after(w.lfsr1.taps, w.lfsr1.degree, lfsr1_candidate, len),
                ..old(lfsr1)@
            }),
            lfsr2@ == (LfsrView {
                state: state_after(w.lfsr2.taps, w.lfsr2.degree, lfsr2_candidate, len),
                ..old(lfsr2)@
            }),
            lfsr3@ == (LfsrView {
                state: state_after(
                    w.lfsr3.taps,
                    w.lfsr3.degree,
                    1,
                    reference_len(w.lfsr3.degree, len, pow2(degree as nat)),
                ),
                ..old(lfsr3)@
            }),
            lfsr1_seq@ == keystream(w.lfsr1.taps, w.lfsr1.degree, lfsr1_candidate, len),
            lfsr2_seq@ == keystream(w.lfsr2.taps, w.lfsr2.degree, lfsr2_candidate, len),
            forall|k: nat|
                k < walk@.offset ==> !#[trigger] resolves_at(
                    w,
                    lfsr1_candidate,
                    lfsr2_candidate,
                    target,
                    len,
                    k,
                ),
        decreases walk@.offsets - walk@.offset,
    {
        let match_found: bool = walk.reproduces(
            lfsr1_seq.as_slice(),
            lfsr2_seq.as_slice(),
            target_seq,
        );
        let current: u32 = walk.state();
        if match_found && current != 0 {
            assert(is_first_resolving(
                w,
                lfsr1_candidate,
                lfsr2_candidate,
                target,
                len,
                walk@.offset,
            ));
            return Ok(current);
        }
        walk = walk.advance();
    }
    Err(AttackError::ControlNotResolved)
}

} // verus!

//! A walk along the states that a register visits from seed 1.
//!
//! To try every state of a register against a target one could restart the
//! register from each state in turn. The walk does not restart: it makes one
//! reference run from seed 1 and reads everything off it. From offset `j` on,
//! the reference run is the keystream of the state held at step `j`; and the
//! bit at offset `j + degree` is the feedback bit that leads from that state
//! to the next, so the states themselves are rebuilt one shift at a time.

use vstd::prelude::*;
use vstd::arithmetic::power2::{pow2, lemma2_to64, lemma2_to64_rest, lemma_pow2_pos};
use vstd::bits::lemma_u64_shl_is_mul;
use vstd::math::max;
use crate::geffe::combine;
use crate::lfsr::{
    LFSR,
    LfsrView,
    keystream,
    lemma_feedback_emerges,
    lemma_keystream_window,
    lemma_one_fits,
    lemma_state_after_add,
    lemma_state_after_fits,
    state_after,
};

verus! {

/// Number of positions below `n` at which `a` and `b` differ.
pub open spec fn differing(a: Seq<u8>, b: Seq<u8>, n: nat) -> nat
    decreases n,
{
    if n == 0 {
        0
    } else {
        differing(a, b, (n - 1) as nat) + if a[n - 1] != b[n - 1] {
            1nat
        } else {
            0nat
        }
    }
}

/// Hamming distance between the first `window` bits that the register emits
/// from `seed` and the first `window` bits of `target`.
pub open spec fn discrepancy(
    taps: u32,
    degree: nat,
    seed: u32,
    target: Seq<u8>,
    window: nat,
) -> nat {
    differing(keystream(taps, degree, seed, window), target, window)
}

/// Length of the reference run for `offsets` states: every window must fit,
/// and so must the feedback bit of the last state.
pub open spec fn reference_len(degree: nat, window: nat, offsets: nat) -> nat {
    offsets + max(window as int, degree as int) as nat
}

/// The discrepancy never exceeds the window.
pub proof fn lemma_differing_bound(a: Seq<u8>, b: Seq<u8>, n: nat)
    ensures
        differing(a, b, n) <= n,
    decreases n,
{
    if n > 0 {
        lemma_differing_bound(a, b, (n - 1) as nat);
    }
}

/// `1 << exponent` is `2^exponent`.
proof fn lemma_one_shifted(exponent: u64)
    requires
        exponent <= 32,
    ensures
        1u64 << exponent == pow2(exponent as nat),
        pow2(exponent as nat) <= 0x1_0000_0000,
{
    lemma2_to64();
    lemma2_to64_rest();
    lemma_pow2_pos(exponent as nat);
    assert(pow2(exponent as nat) <= 0x1_0000_0000) by {
        if exponent < 32 {
            vstd::arithmetic::power2::lemma_pow2_strictly_increases(exponent as nat, 32);
        }
    }
    lemma_u64_shl_is_mul(1, exponent);
}

/// Hamming distance between `reference[offset .. offset + window]` and the
/// first `window` bits of `target`.
pub fn window_discrepancy(reference: &[u8], offset: usize, target: &[u8], window: usize) -> (count:
    usize)
    requires
        offset + window <= reference@.len(),
        window <= target@.len(),
    ensures
        count == differing(
            reference@.subrange(offset as int, offset + window),
            target@,
            window as nat,
        ),
{
    let ghost slice = reference@.subrange(offset as int, offset + window);
    let total: usize = reference.len();
    let mut count: usize = 0;
    let mut i: usize = 0;
    while i < window
        invariant
            i <= window,
            offset + window <= total,
            total == reference@.len(),
            window <= target@.len(),
            slice == reference@.subrange(offset as int, offset + window),
            count == differing(slice, target@, i as nat),
            count <= i,
        decreases window - i,
    {
        if reference[offset + i] != target[i] {
            count = count + 1;
        }
        i = i + 1;
    }
    count
}

/// Whether `control[offset .. offset + n]`, combined with the first `n` bits
/// of `first` and `second`, equals the first `n` bits of `target`.
pub fn control_window_matches(
    control: &[u8],
    offset: usize,
    first: &[u8],
    second: &[u8],
    target: &[u8],
    n: usize,
) -> (matches: bool)
    requires
        offset + n <= control@.len(),
        n <= first@.len(),
        n <= second@.len(),
        n <= target@.len(),
    ensures
        matches == (combine(
            control@.subrange(offset as int, offset + n),
            first@,
            second@,
            n as nat,
        ) == target@.take(n as int)),
{
    let ghost window = control@.subrange(offset as int, offset + n);
    let ghost combined = combine(window, first@, second@, n as nat);
    let total: usize = control.len();
    let mut i: usize = 0;
    while i < n
        invariant
            i <= n,
            offset + n <= total,
            total == control@.len(),
            n <= first@.len(),
            n <= second@.len(),
            n <= target@.len(),
            window == control@.subrange(offset as int, offset + n),
            combined == combine(window, first@, second@, n as nat),
            forall|k: int| 0 <= k < i ==> combined[k] == target@[k],
        decreases n - i,
    {
        let bit: u8 = if control[offset + i] == 1 {
            first[i]
        } else {
            second[i]
        };
        if bit != target[i] {
            assert(combined[i as int] != target@.take(n as int)[i as int]);
            return false;
        }
        i = i + 1;
    }
    assert(combined =~= target@.take(n as int));
    true
}

/// A walk seen from outside: the register walked, the length of the window
/// read at each state, the number of states to visit and the number visited
/// so far.
pub struct WalkView {
    pub taps: u32,
    pub degree: nat,
    pub window: nat,
    pub offsets: nat,
    pub offset: nat,
}

impl WalkView {
    /// The state at which the walk stands: the one that the register holds
    /// `offset` steps after seed 1.
    pub open spec fn state(self) -> u32 {
        state_after(self.taps, self.degree, 1, self.offset)
    }

    /// The window at which the walk stands: the keystream of its state.
    pub open spec fn keystream(self) -> Seq<u8> {
        keystream(self.taps, self.degree, self.state(), self.window)
    }
}

/// A walk along the first states that a register visits from seed 1. At each
/// state the walk offers the state itself and the first bits of its
/// keystream.
pub struct StateWalk {
    reference: Vec<u8>,
    taps: u32,
    width: u8,
    window: usize,
    offsets: usize,
    offset: usize,
    state: u32,
}

impl View for StateWalk {
    type V = WalkView;

    closed spec fn view(&self) -> WalkView {
        WalkView {
            taps: self.taps,
            degree: self.width as nat,
            window: self.window as nat,
            offsets: self.offsets as nat,
            offset: self.offset as nat,
        }
    }
}

impl StateWalk {
    /// The reference run is the keystream of seed 1, long enough for the
    /// window and the feedback bit of every state to visit; the state held is
    /// the one that the register reaches `offset` steps after seed 1.
    #[verifier::type_invariant]
    spec fn reads_off_one_reference_run(self) -> bool {
        &&& 1 <= self.width <= 32
        &&& self.offset <= self.offsets
        &&& self.reference@.len() == reference_len(
            self.width as nat,
            self.window as nat,
            self.offsets as nat,
        )
        &&& self.reference@ == keystream(self.taps, self.width as nat, 1, self.reference@.len())
        &&& self.state == state_after(self.taps, self.width as nat, 1, self.offset as nat)
    }

    /// Whether a walk along the first `2^degree` states of `lfsr`, with
    /// windows of `window` bits, can be started: `degree` must not exceed 32,
    /// and the reference run must fit the address space.
    pub fn can_start(lfsr: &LFSR, window: usize, degree: u8) -> (possible: bool)
        ensures
            possible == (degree <= 32 && reference_len(
                lfsr@.degree,
                window as nat,
                pow2(degree as nat),
            ) <= usize::MAX),
    {
        if degree > 32 {
            return false;
        }
        let width: u8 = lfsr.degree();
        proof {
            lemma_one_shifted(degree as u64);
        }
        let offsets: u64 = 1u64 << degree;
        let tail: usize = if window > width as usize {
            window
        } else {
            width as usize
        };
        offsets as u128 + tail as u128 <= usize::MAX as u128
    }

    /// Starts a walk along the first `2^degree` states of `lfsr`, with windows
    /// of `window` bits. The register makes the reference run and is left in
    /// the state at its end.
    pub fn start(lfsr: &mut LFSR, window: usize, degree: u8) -> (walk: StateWalk)
        requires
            degree <= 32,
            reference_len(old(lfsr)@.degree, window as nat, pow2(degree as nat)) <= usize::MAX,
        ensures
            walk@ == (WalkView {
                taps: old(lfsr)@.taps,
                degree: old(lfsr)@.degree,
                window: window as nat,
                offsets: pow2(degree as nat),
                offset: 0,
            }),
            final(lfsr)@ == (LfsrView {
                state: state_after(
                    old(lfsr)@.taps,
                    old(lfsr)@.degree,
                    1,
                    reference_len(old(lfsr)@.degree, window as nat, pow2(degree as nat)),
                ),
                ..old(lfsr)@
            }),
    {
        let taps: u32 = lfsr.taps();
        let width: u8 = lfsr.degree();
        proof {
            lemma_one_shifted(degree as u64);
        }
        let offsets: u64 = 1u64 << degree;
        let tail: usize = if window > width as usize {
            window
        } else {
            width as usize
        };
        let cycle_len: u64 = offsets + tail as u64;
        let reference: Vec<u8> = lfsr.generate(1, cycle_len);
        StateWalk { reference, taps, width, window, offsets: offsets as usize, offset: 0, state: 1 }
    }

    /// Whether every state has been visited.
    pub fn finished(&self) -> (done: bool)
        ensures
            done == (self@.offset == self@.offsets),
            self@.offset <= self@.offsets,
    {
        proof {
            use_type_invariant(self);
        }
        self.offset == self.offsets
    }

    /// The state at which the walk stands.
    pub fn state(&self) -> (state: u32)
        ensures
            state == self@.state(),
    {
        proof {
            use_type_invariant(self);
        }
        self.state
    }

    /// Hamming distance between the keystream of the present state and the
    /// first bits of `target`, over the window.
    pub fn discrepancy(&self, target: &[u8]) -> (count: usize)
        requires
            self@.window <= target@.len(),
        ensures
            count == discrepancy(self@.taps, self@.degree, self@.state(), target@, self@.window),
            count <= self@.window,
    {
        proof {
            use_type_invariant(self);
            lemma_keystream_window(
                self.taps,
                self.width as nat,
                1,
                self.reference@.len(),
                self.offset as nat,
                self.window as nat,
            );
            lemma_differing_bound(self@.keystream(), target@, self@.window);
        }
        window_discrepancy(self.reference.as_slice(), self.offset, target, self.window)
    }

    /// Whether the keystream of the present state, taken as control stream
    /// for the data streams `first` and `second`, reproduces the first bits
    /// of `target` over the window.
    pub fn reproduces(&self, first: &[u8], second: &[u8], target: &[u8]) -> (matches: bool)
        requires
            self@.window <= first@.len(),
            self@.window <= second@.len(),
            self@.window <= target@.len(),
        ensures
            matches == (combine(self@.keystream(), first@, second@, self@.window) == target@.take(
                self@.window as int,
            )),
    {
        proof {
            use_type_invariant(self);
            lemma_keystream_window(
                self.taps,
                self.width as nat,
                1,
                self.reference@.len(),
                self.offset as nat,
                self.window as nat,
            );
        }
        control_window_matches(
            self.reference.as_slice(),
            self.offset,
            first,
            second,
            target,
            self.window,
        )
    }

    /// Moves on to the next state. The state is not recomputed from the taps:
    /// it is shifted, and the bit that the reference run holds `degree`
    /// places further on is put in at the top.
    pub fn advance(self) -> (next: StateWalk)
        requires
            self@.offset < self@.offsets,
        ensures
            next@ == (WalkView { offset: self@.offset + 1, ..self@ }),
    {
        proof {
            use_type_invariant(&self);
            let d = self.width as nat;
            lemma_state_after_add(self.taps, d, 1, self.offset as nat, d);
            lemma_one_fits(d);
            lemma_state_after_fits(self.taps, d, 1, self.offset as nat);
            lemma_feedback_emerges(self.taps, d, self.state);
        }
        let total: usize = self.reference.len();
        assert(self.width + self.offset < total);
        let feedback: u8 = self.reference[self.width as usize + self.offset];
        let state: u32 = (self.state >> 1) ^ ((feedback as u32) << ((self.width - 1) as u32));
        StateWalk {
            reference: self.reference,
            taps: self.taps,
            width: self.width,
            window: self.window,
            offsets: self.offsets,
            offset: self.offset + 1,
            state,
        }
    }
}

} // verus!

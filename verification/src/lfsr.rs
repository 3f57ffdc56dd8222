//! The shift-register engine and its mathematical model.
//!
//! A register of width `degree` holds a state below `2^degree`. One step emits
//! the low bit of the state, shifts the state right by one, and inserts at the
//! top the parity of the tapped bits. The model is a handful of spec functions
//! on plain integers; [`LFSR`] is the executable register.

use vstd::prelude::*;
use vstd::arithmetic::power2::{pow2, lemma2_to64, lemma2_to64_rest, lemma_pow2_strictly_increases};
use vstd::bits::{lemma_u32_shl_is_mul, lemma_u32_pow2_no_overflow};

verus! {

/// Number of set bits of `x`.
pub open spec fn popcount(x: u32) -> nat
    decreases x,
{
    if x == 0 {
        0
    } else {
        (x % 2) as nat + popcount(x / 2)
    }
}

/// Low bit of the population count of `x`: 1 when an odd number of bits is set.
pub open spec fn parity(x: u32) -> u32 {
    (popcount(x) % 2) as u32
}

/// The state that follows `state` in a register with feedback `taps` and
/// width `degree`: the state shifted right by one, with the parity of the
/// tapped bits inserted at bit `degree - 1`.
pub open spec fn next_state(taps: u32, degree: nat, state: u32) -> u32 {
    (state >> 1) ^ (parity(state & taps) << ((degree - 1) as u32))
}

/// The state reached from `seed` after `steps` steps.
pub open spec fn state_after(taps: u32, degree: nat, seed: u32, steps: nat) -> u32
    decreases steps,
{
    if steps == 0 {
        seed
    } else {
        next_state(taps, degree, state_after(taps, degree, seed, (steps - 1) as nat))
    }
}

/// The bit emitted at step `i` (counting from 0) by a register started at
/// `seed`: the low bit of the state it holds at that step.
pub open spec fn output_bit(taps: u32, degree: nat, seed: u32, i: nat) -> u8 {
    (state_after(taps, degree, seed, i) & 1) as u8
}

/// The first `len` bits emitted by a register started at `seed`.
pub open spec fn keystream(taps: u32, degree: nat, seed: u32, len: nat) -> Seq<u8> {
    Seq::new(len, |i: int| output_bit(taps, degree, seed, i as nat))
}

/// A state fits a register of width `degree` when it is below `2^degree`.
pub open spec fn fits(state: u32, degree: nat) -> bool {
    state < pow2(degree)
}

/// Being below `2^degree`, said with a shift.
proof fn lemma_fits_by_shift(state: u32, width: u32)
    requires
        1 <= width <= 32,
    ensures
        fits(state, width as nat) <==> (width == 32 || state < (1u32 << width)),
{
    lemma2_to64();
    lemma2_to64_rest();
    if width < 32 {
        lemma_u32_pow2_no_overflow(width as nat);
        lemma_u32_shl_is_mul(1, width);
    }
}

/// Seed 1 fits every register.
pub proof fn lemma_one_fits(degree: nat)
    requires
        1 <= degree,
    ensures
        fits(1, degree),
{
    lemma2_to64();
    if degree > 1 {
        lemma_pow2_strictly_increases(1, degree);
    }
}

/// A step keeps the state below `2^degree`.
pub proof fn lemma_next_state_fits(taps: u32, degree: nat, state: u32)
    requires
        1 <= degree <= 32,
        fits(state, degree),
    ensures
        fits(next_state(taps, degree, state), degree),
{
    let width = degree as u32;
    let p = parity(state & taps);
    let next = next_state(taps, degree, state);
    lemma_fits_by_shift(state, width);
    lemma_fits_by_shift(next, width);
    assert(width == 32 || ((state >> 1) ^ (p << ((width - 1) as u32))) < (1u32 << width))
        by (bit_vector)
        requires
            1 <= width <= 32,
            p <= 1,
            width == 32 || state < (1u32 << width),
    ;
}

/// A register started below `2^degree` stays below it.
pub proof fn lemma_state_after_fits(taps: u32, degree: nat, seed: u32, steps: nat)
    requires
        1 <= degree <= 32,
        fits(seed, degree),
    ensures
        fits(state_after(taps, degree, seed, steps), degree),
    decreases steps,
{
    if steps > 0 {
        lemma_state_after_fits(taps, degree, seed, (steps - 1) as nat);
        lemma_next_state_fits(
            taps,
            degree,
            state_after(taps, degree, seed, (steps - 1) as nat),
        );
    }
}

/// Running `first` steps and then `then` more is running `first + then` steps.
pub proof fn lemma_state_after_add(taps: u32, degree: nat, seed: u32, first: nat, then: nat)
    ensures
        state_after(taps, degree, seed, first + then) == state_after(
            taps,
            degree,
            state_after(taps, degree, seed, first),
            then,
        ),
    decreases then,
{
    if then > 0 {
        lemma_state_after_add(taps, degree, seed, first, (then - 1) as nat);
        assert((first + then - 1) as nat == first + (then - 1) as nat);
    }
}

/// The windowing law: from offset `offset` on, the keystream of `seed` is the
/// keystream of the state that the register held at that offset.
pub proof fn lemma_keystream_window(
    taps: u32,
    degree: nat,
    seed: u32,
    len: nat,
    offset: nat,
    window: nat,
)
    requires
        offset + window <= len,
    ensures
        keystream(taps, degree, seed, len).subrange(offset as int, (offset + window) as int)
            == keystream(taps, degree, state_after(taps, degree, seed, offset), window),
{
    let whole = keystream(taps, degree, seed, len);
    let from_offset = keystream(taps, degree, state_after(taps, degree, seed, offset), window);
    assert forall|i: int| 0 <= i < window implies whole[offset + i] == from_offset[i] by {
        lemma_state_after_add(taps, degree, seed, offset, i as nat);
    }
    assert(whole.subrange(offset as int, (offset + window) as int) =~= from_offset);
}

/// The feedback bit inserted at the top by the `k`-th step from `state` has
/// moved down to bit `degree - k` after `k` steps.
proof fn lemma_feedback_travels(taps: u32, degree: nat, state: u32, k: nat)
    requires
        1 <= k <= degree <= 32,
        fits(state, degree),
    ensures
        (state_after(taps, degree, state, k) >> ((degree - k) as u32)) & 1 == parity(
            state & taps,
        ),
    decreases k,
{
    let width = degree as u32;
    let first = parity(state & taps);
    if k == 1 {
        assert(state_after(taps, degree, state, 0) == state);
        assert(state_after(taps, degree, state, 1) == next_state(taps, degree, state));
        lemma_fits_by_shift(state, width);
        assert((((state >> 1) ^ (first << ((width - 1) as u32))) >> ((width - 1) as u32)) & 1
            == first) by (bit_vector)
            requires
                1 <= width <= 32,
                first <= 1,
                width == 32 || state < (1u32 << width),
        ;
    } else {
        lemma_feedback_travels(taps, degree, state, (k - 1) as nat);
        let before = state_after(taps, degree, state, (k - 1) as nat);
        let p = parity(before & taps);
        let at = (degree - k) as u32;
        assert((((before >> 1) ^ (p << ((width - 1) as u32))) >> at) & 1 == (before >> ((at
            + 1) as u32)) & 1) by (bit_vector)
            requires
                1 <= width <= 32,
                p <= 1,
                at < width - 1,
        ;
    }
}

/// The bit a register emits `degree` steps from now is the feedback bit it
/// computes now: the parity of the tapped bits of its present state.
pub proof fn lemma_feedback_emerges(taps: u32, degree: nat, state: u32)
    requires
        1 <= degree <= 32,
        fits(state, degree),
    ensures
        output_bit(taps, degree, state, degree) == parity(state & taps),
        next_state(taps, degree, state) == (state >> 1) ^ ((output_bit(
            taps,
            degree,
            state,
            degree,
        ) as u32) << ((degree - 1) as u32)),
{
    lemma_feedback_travels(taps, degree, state, degree);
    let last = state_after(taps, degree, state, degree);
    assert((last >> 0u32) & 1 == last & 1) by (bit_vector);
    let low = last & 1;
    assert(low <= 1) by (bit_vector)
        requires
            low == last & 1,
    ;
}

/// The all-zero state is a fixed point.
pub proof fn lemma_zero_state_is_fixed(taps: u32, degree: nat, steps: nat)
    ensures
        state_after(taps, degree, 0, steps) == 0,
        output_bit(taps, degree, 0, steps) == 0,
    decreases steps,
{
    if steps > 0 {
        lemma_zero_state_is_fixed(taps, degree, (steps - 1) as nat);
        let shift = (degree - 1) as u32;
        assert(0u32 & taps == 0) by (bit_vector);
        assert(popcount(0) == 0);
        assert((0u32 >> 1) ^ (0u32 << shift) == 0) by (bit_vector);
    }
    assert(0u32 & 1 == 0) by (bit_vector);
}

/// Seeded with zero, a register emits zeros only, whatever its taps and width.
pub proof fn lemma_zero_seed_keystream(taps: u32, degree: nat, len: nat)
    ensures
        keystream(taps, degree, 0, len) == Seq::new(len, |i: int| 0u8),
{
    assert forall|i: int| 0 <= i < len implies keystream(taps, degree, 0, len)[i] == 0u8 by {
        lemma_zero_state_is_fixed(taps, degree, i as nat);
    }
    assert(keystream(taps, degree, 0, len) =~= Seq::new(len, |i: int| 0u8));
}

/// `u32::count_ones` returns the number of ones in the binary representation
/// of its argument.
pub assume_specification[ u32::count_ones ](x: u32) -> (r: u32)
    ensures
        r == popcount(x),
;

/// The fixed part of a register: its feedback taps and its width.
pub struct Feedback {
    pub taps: u32,
    pub degree: nat,
}

/// What a register is, seen from outside: its feedback taps, its width and the
/// state it holds.
pub struct LfsrView {
    pub taps: u32,
    pub degree: nat,
    pub state: u32,
}

impl LfsrView {
    /// The taps and the width, without the state.
    pub open spec fn feedback(self) -> Feedback {
        Feedback { taps: self.taps, degree: self.degree }
    }
}

/// A linear-feedback shift register of width 1 to 32.
pub struct LFSR {
    state: u32,
    highest_bit: u8,
    taps: u32,
}

impl View for LFSR {
    type V = LfsrView;

    closed spec fn view(&self) -> LfsrView {
        LfsrView { taps: self.taps, degree: (self.highest_bit + 1) as nat, state: self.state }
    }
}

impl LFSR {
    /// The width lies between 1 and 32: the top bit is one of the 32 bits of
    /// the state word.
    #[verifier::type_invariant]
    spec fn width_is_supported(self) -> bool {
        self.highest_bit < 32
    }

    /// A register with feedback `taps` and width `degree`, holding state 0.
    pub fn new(taps: u32, degree: u8) -> (lfsr: LFSR)
        requires
            1 <= degree <= 32,
        ensures
            lfsr@ == (LfsrView { taps, degree: degree as nat, state: 0 }),
    {
        let highest_bit: u8 = degree - 1;
        LFSR { state: 0, highest_bit, taps }
    }

    /// The feedback taps.
    pub fn taps(&self) -> (taps: u32)
        ensures
            taps == self@.taps,
    {
        self.taps
    }

    /// The width in bits, always between 1 and 32.
    pub fn degree(&self) -> (degree: u8)
        ensures
            degree == self@.degree,
            1 <= degree <= 32,
    {
        proof {
            use_type_invariant(self);
        }
        self.highest_bit + 1
    }

    /// The state the register holds now.
    pub fn state(&self) -> (state: u32)
        ensures
            state == self@.state,
    {
        self.state
    }

    /// Restarts the register from `seed` and emits `length` bits.
    ///
    /// The bits depend on the taps, the width, `seed` and `length` alone: the
    /// state held before the call is overwritten, so two calls with the same
    /// seed and length return the same bits whatever happened in between.
    /// Afterwards the register holds the state reached after `length` steps,
    /// which is below `2^degree` if the seed was.
    pub fn generate(&mut self, seed: u32, length: u64) -> (output: Vec<u8>)
        requires
            length <= usize::MAX,
        ensures
            output@ == keystream(old(self)@.taps, old(self)@.degree, seed, length as nat),
            final(self)@ == (LfsrView {
                state: state_after(old(self)@.taps, old(self)@.degree, seed, length as nat),
                ..old(self)@
            }),
            fits(seed, old(self)@.degree) ==> fits(final(self)@.state, old(self)@.degree),
    {
        proof {
            use_type_invariant(&*self);
            if fits(seed, (self.highest_bit + 1) as nat) {
                lemma_state_after_fits(
                    self.taps,
                    (self.highest_bit + 1) as nat,
                    seed,
                    length as nat,
                );
            }
        }
        let taps: u32 = self.taps;
        let top: u32 = self.highest_bit as u32;
        let ghost degree: nat = (top + 1) as nat;
        let mut state: u32 = seed;
        let mut output: Vec<u8> = Vec::with_capacity(length as usize);
        let mut i: u64 = 0;
        while i < length
            invariant
                i <= length,
                top < 32,
                degree == top + 1,
                state == state_after(taps, degree, seed, i as nat),
                output@ == keystream(taps, degree, seed, i as nat),
            decreases length - i,
        {
            let bit: u32 = state & 1;
            assert(bit <= 1) by (bit_vector)
                requires
                    bit == state & 1,
            ;
            output.push(bit as u8);
            let ones: u32 = (state & taps).count_ones();
            assert(ones & 1 == ones % 2) by (bit_vector);
            state = (state >> 1) ^ ((ones & 1) << top);
            i = i + 1;
            assert(output@ =~= keystream(taps, degree, seed, i as nat));
        }
        self.state = state;
        output
    }
}

} // verus!

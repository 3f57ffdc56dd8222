//! The Geffe combiner: two data registers and a control register that picks,
//! bit by bit, which of the two is heard.

use vstd::prelude::*;
use crate::lfsr::{Feedback, LFSR, LfsrView, keystream, state_after};

verus! {

/// The combining rule for one position: the first data bit where the control
/// bit is 1, the second data bit otherwise.
pub open spec fn select_bit(control: u8, first: u8, second: u8) -> u8 {
    if control == 1 {
        first
    } else {
        second
    }
}

/// The combining rule applied to the first `len` positions of three streams.
pub open spec fn combine(control: Seq<u8>, first: Seq<u8>, second: Seq<u8>, len: nat) -> Seq<u8> {
    Seq::new(len, |i: int| select_bit(control[i], first[i], second[i]))
}

/// The fixed part of a Geffe generator: the feedback of its two data
/// registers and of its control register `lfsr3`.
pub struct Wiring {
    pub lfsr1: Feedback,
    pub lfsr2: Feedback,
    pub lfsr3: Feedback,
}

impl Wiring {
    /// The wiring of a generator made of the three registers.
    pub open spec fn of(lfsr1: LfsrView, lfsr2: LfsrView, lfsr3: LfsrView) -> Wiring {
        Wiring { lfsr1: lfsr1.feedback(), lfsr2: lfsr2.feedback(), lfsr3: lfsr3.feedback() }
    }
}

/// A Geffe generator seen from outside: its three registers.
pub struct GeffeView {
    pub lfsr1: LfsrView,
    pub lfsr2: LfsrView,
    pub lfsr3: LfsrView,
}

impl GeffeView {
    /// The feedback of the three registers, without their states.
    pub open spec fn wiring(self) -> Wiring {
        Wiring::of(self.lfsr1, self.lfsr2, self.lfsr3)
    }
}

/// The first `len` bits of a generator wired as `w` when its registers are
/// started at `seed1`, `seed2` and, for the control register, `seed3`.
pub open spec fn geffe_keystream(w: Wiring, seed1: u32, seed2: u32, seed3: u32, len: nat) -> Seq<
    u8,
> {
    combine(
        keystream(w.lfsr3.taps, w.lfsr3.degree, seed3, len),
        keystream(w.lfsr1.taps, w.lfsr1.degree, seed1, len),
        keystream(w.lfsr2.taps, w.lfsr2.degree, seed2, len),
        len,
    )
}

/// The generator `g` after its registers ran `len` steps from the three seeds.
pub open spec fn geffe_after(
    g: GeffeView,
    seed1: u32,
    seed2: u32,
    seed3: u32,
    len: nat,
) -> GeffeView {
    GeffeView {
        lfsr1: LfsrView {
            state: state_after(g.lfsr1.taps, g.lfsr1.degree, seed1, len),
            ..g.lfsr1
        },
        lfsr2: LfsrView {
            state: state_after(g.lfsr2.taps, g.lfsr2.degree, seed2, len),
            ..g.lfsr2
        },
        lfsr3: LfsrView {
            state: state_after(g.lfsr3.taps, g.lfsr3.degree, seed3, len),
            ..g.lfsr3
        },
    }
}

/// Three registers combined by the Geffe rule; `lfsr3` is the control.
pub struct Geffe {
    pub lfsr1: LFSR,
    pub lfsr2: LFSR,
    pub lfsr3: LFSR,
}

impl View for Geffe {
    type V = GeffeView;

    open spec fn view(&self) -> GeffeView {
        GeffeView { lfsr1: self.lfsr1@, lfsr2: self.lfsr2@, lfsr3: self.lfsr3@ }
    }
}

/// Combines the first `length` bits of three streams by the Geffe rule.
pub fn combine_streams(control: &[u8], first: &[u8], second: &[u8], length: usize) -> (result: Vec<
    u8,
>)
    requires
        length <= control@.len(),
        length <= first@.len(),
        length <= second@.len(),
    ensures
        result@ == combine(control@, first@, second@, length as nat),
{
    let mut result: Vec<u8> = Vec::with_capacity(length);
    let mut i: usize = 0;
    while i < length
        invariant
            i <= length,
            length <= control@.len(),
            length <= first@.len(),
            length <= second@.len(),
            result@ == combine(control@, first@, second@, i as nat),
        decreases length - i,
    {
        let bit: u8 = if control[i] == 1 {
            first[i]
        } else {
            second[i]
        };
        result.push(bit);
        i = i + 1;
        assert(result@ =~= combine(control@, first@, second@, i as nat));
    }
    result
}

impl Geffe {
    /// A generator with data registers `lfsr1` and `lfsr2` and control
    /// register `lfsr3`.
    pub fn new(lfsr1: LFSR, lfsr2: LFSR, lfsr3: LFSR) -> (generator: Geffe)
        ensures
            generator@ == (GeffeView { lfsr1: lfsr1@, lfsr2: lfsr2@, lfsr3: lfsr3@ }),
    {
        Geffe { lfsr1, lfsr2, lfsr3 }
    }

    /// Restarts the three registers from the given seeds and emits `length`
    /// bits of combined keystream: at each position the bit of `lfsr1` where
    /// the control register emits 1, the bit of `lfsr2` otherwise.
    pub fn generate(&mut self, seed1: u32, seed2: u32, seed3: u32, length: usize) -> (result: Vec<
        u8,
    >)
        ensures
            result@ == geffe_keystream(old(self)@.wiring(), seed1, seed2, seed3, length as nat),
            final(self)@ == geffe_after(old(self)@, seed1, seed2, seed3, length as nat),
    {
        let seq1 = self.lfsr1.generate(seed1, length as u64);
        let seq2 = self.lfsr2.generate(seed2, length as u64);
        let control = self.lfsr3.generate(seed3, length as u64);
        combine_streams(control.as_slice(), seq1.as_slice(), seq2.as_slice(), length)
    }
}

} // verus!

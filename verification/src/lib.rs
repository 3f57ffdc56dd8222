//! Seed recovery for the Geffe keystream generator, with the text tools of
//! classical cryptanalysis beside it.
//!
//! A Geffe generator combines three linear-feedback shift registers: two data
//! registers and one control register that selects, bit by bit, which data
//! register is heard. Given the feedback taps and the width of each register
//! and a fragment of keystream, the attack recovers the three seeds:
//!
//! - [`lfsr`] is the register and its model, [`period`] the trajectory of a
//!   register of maximal length, [`geffe`] the combiner;
//! - [`walk`] visits the states of a register along one reference run;
//! - [`scan`] lists the states of a data register whose keystream correlates
//!   with the target, [`select`] picks one of them, [`resolve`] finds the
//!   control state that reproduces the target exactly;
//! - [`attack`] runs these stages in order and verifies the result, with
//!   [`error`] for the ways it can fail and [`bits`] for keystreams and seeds
//!   as text.
//!
//! The text tools prepare a text ([`utils`]), count its letters and bigrams
//! ([`frequency`]) and encode, decode and analyse the Vigenère cipher
//! ([`vigenere`]).

pub mod attack;
pub mod bits;
pub mod error;
pub mod frequency;
pub mod geffe;
pub mod lfsr;
pub mod period;
pub mod resolve;
pub mod scan;
pub mod select;
pub mod utils;
pub mod vigenere;
pub mod walk;

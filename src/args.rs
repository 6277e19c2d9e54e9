//! The command surface: which way to run, on which files, with which width.
use crate::policy::{Capacity, OnFull, Policy, WidthMode};
use vstd::prelude::*;

verus! {

/// Which way the tool runs.
#[derive(Clone, Copy, Debug, PartialEq, Eq, Structural, PartialOrd, Ord)]
pub enum Mode {
    Compress,
    Decompress,
}

/// The tool's arguments.
#[derive(Debug)]
pub struct Arguments {
    pub input_file: String,
    pub output_file: String,
    pub mode: Mode,
    /// The maximum code width for compression.
    pub length: u8,
}

impl Arguments {
    /// The policy that the tool compresses with: fixed-width codes of
    /// `length` bits, and a reset whenever the dictionary is full.
    pub fn policy(&self) -> (p: Policy)
        ensures
            p == (Policy {
                width_mode: WidthMode::Fixed,
                capacity: Capacity::Bounded(self.length),
                on_full: OnFull::Reset,
            }),
    {
        Policy::bounded(self.length, OnFull::Reset, WidthMode::Fixed)
    }
}

} // verus!

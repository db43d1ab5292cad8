use vstd::prelude::*;

pub mod binarize;
pub mod text;
pub mod code;
pub mod report;
pub mod source;
pub mod compose;
pub mod resample;
pub mod dilate;
pub mod components;
pub mod dots;
pub mod segment;
pub mod seeds;
pub mod check;
pub mod reference;
pub mod image;
pub mod migrate;
pub mod synth;
pub mod thumb;
pub mod debug_out;
pub mod xtask;

verus! {
} // verus!

use vstd::prelude::*;

pub mod bits;
pub mod blocks;
pub mod cfft;
pub mod chirp;
pub mod error;
pub mod exact;
pub mod host;
pub mod launch;
pub mod layout;
pub mod pow2;
pub mod rfft_large;
pub mod tensor;

verus! {
} // verus!

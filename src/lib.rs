//! Byte-string and number-text utilities on buffers of at most 512 bytes,
//! with their contracts proved.

use vstd::prelude::*;

pub mod buffer_utils;
pub mod error;
pub mod u64_utils;
pub mod vec_utils;

verus! {

} // verus!

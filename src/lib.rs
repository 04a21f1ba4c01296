//! A monotone priority queue implemented with a radix heap.
//!
//! The heap hands out its greatest key first, and only accepts keys that
//! rank at or below the last key it handed out (its top key). Entries are
//! kept in buckets by their radix distance to the top key, so that finding
//! the next greatest key costs time in the key width, not in the heap size.
use vstd::prelude::*;

mod bucket;
pub mod entries;
pub mod heap;
pub mod radix;
pub mod radix_impls;

pub use heap::{IntoIter, Iter, Keys, OutOfOrderKey, RadixHeapMap, Values};
pub use radix::Radix;
pub use radix_impls::{F32Key, F64Key};

verus! {

} // verus!

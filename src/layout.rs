//! Memory-layout helpers: a counter padded to a full cache line, and three
//! records that show how field order and explicit padding shape a layout.
use vstd::prelude::*;

verus! {

/// Size in bytes of one cache line on the targets this crate is tuned for.
pub const CACHE_LINE_SIZE: usize = 64;

/// A counter that fills a whole cache line, so that counters stored side by
/// side never share one.
pub struct PaddedCounter {
    pub value: u64,
    pub padding: [u8; 56],
}

impl PaddedCounter {
    /// A counter at zero.
    pub fn new() -> (r: PaddedCounter)
        ensures
            r.value == 0,
            forall|i: int| 0 <= i < 56 ==> r.padding[i] == 0,
    {
        PaddedCounter { value: 0, padding: [0u8; 56] }
    }
}

/// Fields in the order `u8, u64, u8, i128`, with the padding that a C layout
/// inserts written out: 48 bytes.
pub struct BadLayout {
    pub a: u8,
    pub pad_a: [u8; 7],
    pub b: u64,
    pub c: u8,
    pub pad_c: [u8; 15],
    pub d: i128,
}

/// The same fields, largest first: 26 bytes of data and 6 of tail padding.
pub struct GoodLayout {
    pub d: i128,
    pub b: u64,
    pub a: u8,
    pub c: u8,
    pub pad_tail: [u8; 6],
}

/// The fields of `BadLayout` without padding, left for the compiler to order.
pub struct OptimizedBadLayout {
    pub a: u8,
    pub b: u64,
    pub c: u8,
    pub d: i128,
}

} // verus!

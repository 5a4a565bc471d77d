use simulation::layout::{BadLayout, GoodLayout, OptimizedBadLayout, PaddedCounter, CACHE_LINE_SIZE};
use std::mem;

#[test]
fn verify_memory_layout_size() {
    assert_eq!(mem::size_of::<BadLayout>(), 48, "BadLayout should include heavy padding");
    assert_eq!(mem::size_of::<GoodLayout>(), 32, "GoodLayout should minimize padding");
    assert_eq!(mem::size_of::<OptimizedBadLayout>(), 32, "Rust compiler should optimize field order automatically");
}

#[test]
fn verify_alignment() {
    assert_eq!(mem::align_of::<BadLayout>(), 16);
}

#[test]
fn padded_counter_fills_a_cache_line() {
    let c = PaddedCounter::new();
    assert_eq!(c.value, 0);
    assert_eq!(mem::size_of::<PaddedCounter>(), CACHE_LINE_SIZE);
}

//! Counters on how the search orders moves: how large history scores get where moves are
//! reduced, on which move a node is cut, and which ordering source that move came from.
use vstd::prelude::*;
use crate::tag::{is_capture, tag_bit};

verus! {

pub const EDGES: [i32; 9] = [64, 256, 1024, 2048, 4096, 8192, 16384, 32768, 2147483647];

/// The ordering sources that cutoffs are counted by.
pub const BUCKETS: [&'static str; 6] = [
    "TT move",
    "winning capture",
    "queen promo",
    "killer/counter",
    "quiet (history)",
    "losing capture",
];

pub struct Counters {
    /// History sizes, by the edges they lie between.
    pub lmr_hist: [u64; 10],
    /// Cutoffs on the first to fourth move and later.
    pub fh_index: [u64; 5],
    /// Cutoffs by table move, winning capture, queen promotion, killer or countermove, history,
    /// losing capture.
    pub fh_bucket: [u64; 6],
}

impl Counters {
    pub fn new() -> (r: Counters)
        ensures
            forall|i: int| 0 <= i < 10 ==> #[trigger] r.lmr_hist@[i] == 0,
            forall|i: int| 0 <= i < 5 ==> #[trigger] r.fh_index@[i] == 0,
            forall|i: int| 0 <= i < 6 ==> #[trigger] r.fh_bucket@[i] == 0,
    {
        Counters { lmr_hist: [0;10], fh_index: [0;5], fh_bucket: [0;6] }
    }
}

pub open spec fn magnitude(h: int) -> int {
    if h < 0 {
        -h
    } else {
        h
    }
}

/// How many edges from `i` on a size reaches before one it does not.
pub open spec fn size_class(a: int, i: int) -> int
    decreases 9 - i,
{
    if i >= 9 || a < EDGES@[i] {
        i
    } else {
        size_class(a, i + 1)
    }
}

pub open spec fn bumped(x: u64) -> u64 {
    if x == u64::MAX {
        0
    } else {
        (x + 1) as u64
    }
}

/// The size of a history score in 32 bits; the least of all, which has none, counts as small.
pub open spec fn size_of_score(h: i32) -> int {
    if h == i32::MIN {
        i32::MIN as int
    } else {
        magnitude(h as int)
    }
}

/// Counts the size of a history score.
pub fn record(c: &mut Counters, h: i32)
    ensures
        final(c).lmr_hist@ == old(c).lmr_hist@.update(
            size_class(size_of_score(h), 0),
            bumped(old(c).lmr_hist@[size_class(size_of_score(h), 0)]),
        ),
        final(c).fh_index == old(c).fh_index,
        final(c).fh_bucket == old(c).fh_bucket,
{
    let a: i32 = if h < 0 && h > i32::MIN {
        -h
    } else {
        h
    };
    let mut i: usize = 0;
    while i < 9 && a >= EDGES[i]
        invariant
            i <= 9,
            a == size_of_score(h),
            size_class(a as int, 0) == size_class(a as int, i as int),
        decreases 9 - i,
    {
        i = i + 1;
    }
    c.lmr_hist[i] = c.lmr_hist[i].wrapping_add(1);
}

/// The ordering source of a move, from its score and tag.
pub open spec fn source_of(ord_score: i32, tag_bits: u8) -> int {
    if ord_score >= 1_000_000 {
        0
    } else if ord_score >= 99_000 {
        1
    } else if ord_score >= 94_000 {
        2
    } else if ord_score >= 77_000 {
        3
    } else if tag_bit(tag_bits, 3) {
        5
    } else {
        4
    }
}

pub open spec fn index_class(idx: usize) -> int {
    if idx < 4 {
        idx as int
    } else {
        4
    }
}

/// Counts a cutoff on move number `idx`.
pub fn record_cutoff(c: &mut Counters, idx: usize, ord_score: i32, tag_bits: u8)
    ensures
        final(c).fh_index@ == old(c).fh_index@.update(
            index_class(idx),
            bumped(old(c).fh_index@[index_class(idx)]),
        ),
        final(c).fh_bucket@ == old(c).fh_bucket@.update(
            source_of(ord_score, tag_bits),
            bumped(old(c).fh_bucket@[source_of(ord_score, tag_bits)]),
        ),
        final(c).lmr_hist == old(c).lmr_hist,
{
    let i: usize = if idx < 4 {
        idx
    } else {
        4
    };
    c.fh_index[i] = c.fh_index[i].wrapping_add(1);
    let b: usize = if ord_score >= 1_000_000 {
        0
    } else if ord_score >= 99_000 {
        1
    } else if ord_score >= 94_000 {
        2
    } else if ord_score >= 77_000 {
        3
    } else if is_capture(tag_bits) {
        5
    } else {
        4
    };
    c.fh_bucket[b] = c.fh_bucket[b].wrapping_add(1);
}

// ---------------- laws ----------------
/// Sizes are classed by the powers of two from 64 on: a larger size is never in a lower class.
pub proof fn law_sizes_are_classed_by_powers_of_two(a: int)
    requires
        0 <= a < 2_147_483_647,
    ensures
        size_class(a, 0) == 0 <==> a < 64,
        size_class(a, 0) == 1 <==> 64 <= a < 256,
        size_class(a, 0) == 2 <==> 256 <= a < 1024,
        size_class(a, 0) == 3 <==> 1024 <= a < 2048,
        size_class(a, 0) == 4 <==> 2048 <= a < 4096,
        size_class(a, 0) == 5 <==> 4096 <= a < 8192,
        size_class(a, 0) == 6 <==> 8192 <= a < 16_384,
        size_class(a, 0) == 7 <==> 16_384 <= a < 32_768,
        size_class(a, 0) == 8 <==> a >= 32_768,
{
    reveal_with_fuel(size_class, 11);
}

/// A move's source by its order: the table's move, captures that win, promotions and killers in their
/// ranges; what is left is told apart by whether it captures.
pub proof fn law_sources_follow_the_order(a: i32, b: i32, tag: u8)
    ensures
        a >= b && a >= 77_000 ==> source_of(a, tag) <= source_of(b, tag),
        source_of(a, tag) == 0 <==> a >= 1_000_000,
        source_of(a, tag) <= 1 <==> a >= 99_000,
        source_of(a, tag) <= 2 <==> a >= 94_000,
        source_of(a, tag) <= 3 <==> a >= 77_000,
        a < 77_000 ==> (source_of(a, tag) == 5 <==> tag / 8 % 2 == 1),
        source_of(a, tag) <= 5,
{
}

/// The first four moves of a node have a class each, and all later ones share the last.
pub proof fn law_late_moves_share_a_class(idx: usize)
    ensures
        idx <= 4 ==> index_class(idx) == idx,
        idx >= 4 ==> index_class(idx) == 4,
{
}

/// A counter counts one more each time, and begins again once it is full.
pub proof fn law_counters_count_one_by_one(x: u64)
    ensures
        x < u64::MAX ==> bumped(x) == x + 1,
        bumped(u64::MAX) == 0,
{
}

} // verus!

//! What the ordering pass knows of a move, in one byte beside its score: bits 0 to 2 the moving
//! piece, bit 3 capture, bit 4 exchange not losing, and from bit 5 the victim plus one or, on a
//! quiet move, whether the score is its history.
use vstd::prelude::*;

verus! {

pub const CAPTURE: u8 = 8;

pub const SEE_WIN: u8 = 16;

pub const IS_HIST_SCORE: u8 = 32;

/// Bit `k` of a tag.
pub open spec fn tag_bit(t: u8, k: int) -> bool {
    (t as int / if k == 3 {
        8
    } else if k == 4 {
        16
    } else {
        32
    }) % 2 == 1
}

pub fn piece(t: u8) -> (r: usize)
    ensures
        r == t as int % 8,
{
    assert(t & 7 == t % 8) by (bit_vector);
    (t & 7) as usize
}

pub fn is_capture(t: u8) -> (r: bool)
    ensures
        r == tag_bit(t, 3),
{
    assert((t & 8 != 0) == ((t / 8) % 2 == 1)) by (bit_vector);
    t & CAPTURE != 0
}

pub fn see_winning(t: u8) -> (r: bool)
    ensures
        r == tag_bit(t, 4),
{
    assert((t & 16 != 0) == ((t / 16) % 2 == 1)) by (bit_vector);
    t & SEE_WIN != 0
}

/// The ordering score of a quiet move is its history, not a killer's or a countermove's.
pub fn is_hist_score(t: u8) -> (r: bool)
    ensures
        r == (tag_bit(t, 5) && !tag_bit(t, 3)),
{
    assert((t & 32 != 0) == ((t / 32) % 2 == 1)) by (bit_vector);
    assert((t & 8 == 0) == ((t / 8) % 2 == 0)) by (bit_vector);
    t & IS_HIST_SCORE != 0 && t & CAPTURE == 0
}

/// The captured piece plus one, zero where there is none.
pub fn victim(t: u8) -> (r: u8)
    ensures
        r == t as int / 32,
{
    assert((t >> 5) & 7 == t / 32) by (bit_vector);
    (t >> 5) & 7
}

/// A tag from its parts.
pub open spec fn tag_of(moved: u8, taken: Option<u8>, winning: bool, history: bool) -> int {
    moved + (match taken {
        Some(v) => 8 + 32 * (v + 1),
        None => 0,
    }) + (if winning {
        16int
    } else {
        0
    }) + (if history {
        32int
    } else {
        0
    })
}

/// A tag is read back as what it was made of.
pub proof fn law_tag_reads_back(t: u8, moved: u8, taken: Option<u8>, winning: bool, history: bool)
    requires
        moved < 6,
        taken matches Some(v) ==> v < 6,
        history ==> taken is None,
        t == tag_of(moved, taken, winning, history),
    ensures
        t as int % 8 == moved,
        tag_bit(t, 3) <==> taken is Some,
        tag_bit(t, 4) <==> winning,
        tag_bit(t, 5) && !tag_bit(t, 3) <==> history,
        taken matches Some(v) ==> t as int / 32 == v + 1,
{
}

/// Makes a tag.
pub fn make(moved: u8, taken: Option<u8>, winning: bool, history: bool) -> (r: u8)
    requires
        moved < 6,
        taken matches Some(v) ==> v < 6,
        history ==> taken is None,
    ensures
        r == tag_of(moved, taken, winning, history),
{
    let base: u8 = match taken {
        Some(v) => moved + CAPTURE + 32 * (v + 1),
        None => moved,
    };
    let won: u8 = if winning {
        base + SEE_WIN
    } else {
        base
    };
    if history {
        won + IS_HIST_SCORE
    } else {
        won
    }
}

} // verus!

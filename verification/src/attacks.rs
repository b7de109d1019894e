//! Which squares a piece reaches from where it stands.
use vstd::prelude::*;
use crate::board::{bit, file_of, rank_of, WHITE};
use cozy_chess::{BitBoard, Color, Square};

verus! {

pub open spec fn distance(a: int, b: int) -> int {
    if a <= b {
        b - a
    } else {
        a - b
    }
}

pub open spec fn sign(x: int) -> int {
    if x > 0 {
        1
    } else if x < 0 {
        -1
    } else {
        0
    }
}

pub open spec fn knight_reaches(a: int, b: int) -> bool {
    let df = distance(file_of(a), file_of(b));
    let dr = distance(rank_of(a), rank_of(b));
    (df == 1 && dr == 2) || (df == 2 && dr == 1)
}

pub open spec fn king_reaches(a: int, b: int) -> bool {
    a != b && distance(file_of(a), file_of(b)) <= 1 && distance(rank_of(a), rank_of(b)) <= 1
}

/// A pawn of colour `c` on `a` attacks `b`.
pub open spec fn pawn_reaches(c: u8, a: int, b: int) -> bool {
    distance(file_of(a), file_of(b)) == 1 && rank_of(b) == rank_of(a) + if c == WHITE {
        1int
    } else {
        -1
    }
}

/// Two squares on one rank or file.
pub open spec fn on_one_line(a: int, b: int) -> bool {
    a != b && (file_of(a) == file_of(b) || rank_of(a) == rank_of(b))
}

/// Two squares on one diagonal.
pub open spec fn on_one_diagonal(a: int, b: int) -> bool {
    a != b && distance(file_of(a), file_of(b)) == distance(rank_of(a), rank_of(b))
}

/// From one square of a line to the next, on the way from `a` to `b`.
pub open spec fn line_step(a: int, b: int) -> int {
    8 * sign(rank_of(b) - rank_of(a)) + sign(file_of(b) - file_of(a))
}

/// How many steps it is from `a` to `b`.
pub open spec fn line_length(a: int, b: int) -> int {
    let df = distance(file_of(a), file_of(b));
    let dr = distance(rank_of(a), rank_of(b));
    if df > dr {
        df
    } else {
        dr
    }
}

/// No square of `occ` lies strictly between two squares on one line.
pub open spec fn open_line(occ: u64, a: int, b: int) -> bool {
    forall|k: int| 0 < k < line_length(a, b) ==> !bit(occ, #[trigger] (a + k * line_step(a, b)))
}

pub open spec fn rook_reaches(occ: u64, a: int, b: int) -> bool {
    on_one_line(a, b) && open_line(occ, a, b)
}

pub open spec fn bishop_reaches(occ: u64, a: int, b: int) -> bool {
    on_one_diagonal(a, b) && open_line(occ, a, b)
}

/// Wraps `cozy_chess::get_knight_moves`: the squares a knight's jump away.
#[verifier::external_body]
pub(crate) fn knight_moves(sq: u8) -> (r: u64)
    requires
        sq < 64,
    ensures
        forall|t: int| 0 <= t < 64 ==> (#[trigger] bit(r, t) <==> knight_reaches(sq as int, t)),
{
    cozy_chess::get_knight_moves(Square::index(sq as usize)).0
}

/// Wraps `cozy_chess::get_king_moves`: the adjacent squares.
#[verifier::external_body]
pub(crate) fn king_moves(sq: u8) -> (r: u64)
    requires
        sq < 64,
    ensures
        forall|t: int| 0 <= t < 64 ==> (#[trigger] bit(r, t) <==> king_reaches(sq as int, t)),
{
    cozy_chess::get_king_moves(Square::index(sq as usize)).0
}

/// Wraps `cozy_chess::get_pawn_attacks`: the squares one rank ahead on the files beside.
#[verifier::external_body]
pub(crate) fn pawn_attacks(sq: u8, c: u8) -> (r: u64)
    requires
        sq < 64,
        c < 2,
    ensures
        forall|t: int| 0 <= t < 64 ==> (#[trigger] bit(r, t) <==> pawn_reaches(c, sq as int, t)),
{
    cozy_chess::get_pawn_attacks(Square::index(sq as usize), Color::index(c as usize)).0
}

/// Wraps `cozy_chess::get_rook_moves`: along ranks and files, up to and including the first
/// square of `occ`.
#[verifier::external_body]
pub(crate) fn rook_moves(sq: u8, occ: u64) -> (r: u64)
    requires
        sq < 64,
    ensures
        forall|t: int| 0 <= t < 64 ==> (#[trigger] bit(r, t) <==> rook_reaches(occ, sq as int, t)),
{
    cozy_chess::get_rook_moves(Square::index(sq as usize), BitBoard(occ)).0
}

/// Wraps `cozy_chess::get_bishop_moves`: along diagonals, up to and including the first square
/// of `occ`.
#[verifier::external_body]
pub(crate) fn bishop_moves(sq: u8, occ: u64) -> (r: u64)
    requires
        sq < 64,
    ensures
        forall|t: int| 0 <= t < 64 ==> (#[trigger] bit(r, t) <==> bishop_reaches(occ, sq as int, t)),
{
    cozy_chess::get_bishop_moves(Square::index(sq as usize), BitBoard(occ)).0
}

} // verus!

//! The position as plain values, and what cozy-chess computes of it.
//!
//! Squares are numbered rank by rank from a1 (0) to h8 (63), pieces pawn to king from 0 to 5;
//! white is 0 and black 1. A castling move is written as the king moving to its own rook.
use vstd::prelude::*;
use cozy_chess::{Color, Piece, Square};
use crate::fen::{castle_letters, castles_of, ep_text, fen_input, fen_text, placement_text};
use crate::attacks::{king_reaches, knight_reaches, line_length, line_step, on_one_diagonal, on_one_line, pawn_reaches};
use crate::notation::{lemma_read_moves_stay_on_the_board, uci_move, uci_text};
use crate::text::numeral;

verus! {

pub const PAWN: u8 = 0;
pub const KNIGHT: u8 = 1;
pub const BISHOP: u8 = 2;
pub const ROOK: u8 = 3;
pub const QUEEN: u8 = 4;
pub const KING: u8 = 5;
pub const WHITE: u8 = 0;
pub const BLACK: u8 = 1;

/// A chess position as cozy-chess keeps it, carried inside a `Position`.
#[verifier::external_type_specification]
#[verifier::external_body]
pub struct ExCozyBoard(cozy_chess::Board);

/// `cozy_chess::Board::clone`, which is derived field by field: the copy equals what it is taken of.
pub assume_specification[ <cozy_chess::Board as Clone>::clone ](b: &cozy_chess::Board) -> (r: cozy_chess::Board)
    ensures
        r == *b,
;

/// A move.
#[derive(Clone, Copy, PartialEq, Eq, Structural, Debug)]
pub struct Move {
    pub from: u8,
    pub to: u8,
    pub promotion: Option<u8>,
}

/// What a game has come to in a position.
#[derive(Clone, Copy, PartialEq, Eq, Structural, Debug)]
pub enum GameStatus {
    /// The side to move is mated.
    Won,
    Drawn,
    Ongoing,
}

/// A position. The plain fields are what the engine reads; `cozy` is the same position for
/// cozy-chess to compute on. Only this module makes a `Position`, and each place that does reads
/// the plain fields off `cozy`.
pub struct Position {
    men: [Option<(u8, u8)>; 64],
    side: u8,
    ep: Option<u8>,
    halfmove: u8,
    hash: u64,
    checkers: u64,
    unread: Ghost<Unread>,
    cozy: cozy_chess::Board,
}

/// What the engine seldom asks for: it stays in the cozy-chess board and is read off it there.
pub struct Unread {
    pub castles: Seq<(Option<u8>, Option<u8>)>,
    pub fullmove: u16,
}

/// The value of a `Position`.
#[verifier::ext_equal]
pub struct PosView {
    /// Piece and colour of the man on each square.
    pub men: Seq<Option<(u8, u8)>>,
    pub side: u8,
    /// Rook files of the castling rights, short and long, of white and of black.
    pub castles: Seq<(Option<u8>, Option<u8>)>,
    /// File of the pawn that has just advanced two squares.
    pub ep: Option<u8>,
    pub halfmove: u8,
    pub fullmove: u16,
    pub hash: u64,
    /// The men giving check, one bit per square.
    pub checkers: u64,
}

impl View for Position {
    type V = PosView;

    closed spec fn view(&self) -> PosView {
        PosView {
            men: self.men@,
            side: self.side,
            castles: self.unread@.castles,
            ep: self.ep,
            halfmove: self.halfmove,
            fullmove: self.unread@.fullmove,
            hash: self.hash,
            checkers: self.checkers,
        }
    }
}

pub open spec fn file_of(s: int) -> int {
    s % 8
}

pub open spec fn rank_of(s: int) -> int {
    s / 8
}

pub open spec fn opposite(c: u8) -> u8 {
    if c == WHITE {
        BLACK
    } else {
        WHITE
    }
}

/// The rank a side's pieces start on.
pub open spec fn home_rank(c: u8) -> int {
    if c == WHITE {
        0
    } else {
        7
    }
}

/// The rank a pawn of colour `c` lands on when it captures en passant.
pub open spec fn ep_rank(c: u8) -> int {
    if c == WHITE {
        5
    } else {
        2
    }
}

/// The rank a pawn of colour `c` captures en passant from, which is its victim's rank.
pub open spec fn ep_victim_rank(c: u8) -> int {
    if c == WHITE {
        4
    } else {
        3
    }
}

/// Bit `s` of `w`.
pub open spec fn bit(w: u64, s: int) -> bool {
    (w >> (s as u64)) & 1 == 1
}

/// The piece on a square, or 6 where it is empty.
pub open spec fn piece_at(men: Seq<Option<(u8, u8)>>, s: int) -> u8 {
    match men[s] {
        Some(man) => man.0,
        None => 6,
    }
}

/// The colour of the man on a square, or 2 where it is empty.
pub open spec fn colour_at(men: Seq<Option<(u8, u8)>>, s: int) -> u8 {
    match men[s] {
        Some(man) => man.1,
        None => 2,
    }
}

/// How many of the first `n` squares are occupied.
pub open spec fn men_count(men: Seq<Option<(u8, u8)>>, n: int) -> int
    decreases n,
{
    if n <= 0 {
        0
    } else {
        men_count(men, n - 1) + if men[n - 1] is Some { 1int } else { 0 }
    }
}

pub open spec fn king_at(men: Seq<Option<(u8, u8)>>, c: u8, s: int) -> bool {
    0 <= s < 64 && men[s] == Some((KING, c))
}

/// The square of the king of colour `c`.
pub open spec fn king_square(men: Seq<Option<(u8, u8)>>, c: u8) -> int {
    choose|s: int| king_at(men, c, s)
}

/// There is one king of colour `c`.
pub open spec fn one_king(men: Seq<Option<(u8, u8)>>, c: u8) -> bool {
    &&& exists|s: int| king_at(men, c, s)
    &&& forall|s: int, t: int| #[trigger]
        king_at(men, c, s) && #[trigger] king_at(men, c, t) ==> s == t
}

/// Where a side may castle, its king stands on its home rank, with the rook of the short side on
/// a higher file and the rook of the long side on a lower one.
#[verifier::opaque]
pub open spec fn castling_ok(p: PosView) -> bool {
    &&& p.castles.len() == 2
    &&& forall|c: u8|
        c < 2 ==> {
            let (short, long) = #[trigger] p.castles[c as int];
            let king = king_square(p.men, c);
            &&& short matches Some(f) ==> f < 8 && p.men[8 * home_rank(c) + f] == Some((ROOK, c)) && rank_of(king)
                == home_rank(c) && file_of(king) < f
            &&& long matches Some(f) ==> f < 8 && p.men[8 * home_rank(c) + f] == Some((ROOK, c)) && rank_of(king)
                == home_rank(c) && f < file_of(king)
        }
}

/// No man stands strictly between two squares on one line.
pub open spec fn line_clear(men: Seq<Option<(u8, u8)>>, a: int, b: int) -> bool {
    forall|k: int| 0 < k < line_length(a, b) ==> #[trigger] men[a + k * line_step(a, b)] is None
}

/// The man on `s` gives check to a king on `k`. Kings give none.
pub open spec fn gives_check(men: Seq<Option<(u8, u8)>>, s: int, k: int) -> bool {
    let straight = on_one_line(s, k) && line_clear(men, s, k);
    let slanted = on_one_diagonal(s, k) && line_clear(men, s, k);
    match men[s] {
        None => false,
        Some((piece, c)) => if piece == PAWN {
            pawn_reaches(c, s, k)
        } else if piece == KNIGHT {
            knight_reaches(s, k)
        } else if piece == BISHOP {
            slanted
        } else if piece == ROOK {
            straight
        } else {
            piece == QUEEN && (straight || slanted)
        },
    }
}

/// The men giving check are those of the other side that attack the king of the side to move.
#[verifier::opaque]
pub open spec fn checkers_ok(p: PosView) -> bool {
    forall|s: int|
        0 <= s < 64 ==> (#[trigger] bit(p.checkers, s) <==> colour_at(p.men, s) == opposite(p.side) && gives_check(
            p.men,
            s,
            king_square(p.men, p.side),
        ))
}

/// How many men of colour `c`, all or pawns alone, stand on the first `n` squares.
pub open spec fn force(men: Seq<Option<(u8, u8)>>, c: u8, pawns: bool, n: int) -> int
    decreases n,
{
    if n <= 0 {
        0
    } else {
        force(men, c, pawns, n - 1) + if colour_at(men, n - 1) == c && (!pawns || piece_at(men, n - 1) == PAWN) {
            1int
        } else {
            0
        }
    }
}

/// How many men on the first `n` squares give check to the king of colour `c`.
pub open spec fn checks_to(men: Seq<Option<(u8, u8)>>, c: u8, n: int) -> int
    decreases n,
{
    if n <= 0 {
        0
    } else {
        checks_to(men, c, n - 1) + if colour_at(men, n - 1) == opposite(c) && gives_check(men, n - 1, king_square(men, c)) {
            1int
        } else {
            0
        }
    }
}

/// Square `s` lies strictly between two squares of one line.
pub open spec fn lies_between(s: int, a: int, b: int) -> bool {
    (on_one_line(a, b) || on_one_diagonal(a, b)) && exists|k: int|
        0 < k < line_length(a, b) && s == #[trigger] (a + k * line_step(a, b))
}

/// No side has more men than it began with, the side that has just moved is not in check, the
/// other is in check from no more than two men, and if a pawn has just advanced two squares,
/// from that pawn or along a line that it has opened.
#[verifier::opaque]
pub open spec fn playable(p: PosView) -> bool {
    &&& force(p.men, WHITE, false, 64) <= 16
    &&& force(p.men, BLACK, false, 64) <= 16
    &&& force(p.men, WHITE, true, 64) <= 8
    &&& force(p.men, BLACK, true, 64) <= 8
    &&& checks_to(p.men, opposite(p.side), 64) == 0
    &&& checks_to(p.men, p.side, 64) <= 2
    &&& p.ep matches Some(f) ==> {
        let source = 8 * (home_rank(opposite(p.side)) + if p.side == WHITE { -1int } else { 1 }) + f;
        &&& p.men[source] is None
        &&& forall|s: int|
            0 <= s < 64 && colour_at(p.men, s) == opposite(p.side) && #[trigger] gives_check(
                p.men,
                s,
                king_square(p.men, p.side),
            ) ==> s == 8 * ep_victim_rank(p.side) + f || lies_between(source, s, king_square(p.men, p.side))
    }
}

/// The kings do not stand side by side.
#[verifier::opaque]
pub open spec fn kings_apart(men: Seq<Option<(u8, u8)>>) -> bool {
    !king_reaches(king_square(men, WHITE), king_square(men, BLACK))
}

/// A position the engine works on: one that cozy-chess accepts, with the kings apart.
pub open spec fn wf(p: PosView) -> bool {
    accepted(p) && kings_apart(p.men)
}

/// What holds of every position cozy-chess accepts. Its kings may touch: cozy-chess counts no king
/// as giving check.
pub open spec fn accepted(p: PosView) -> bool {
    &&& p.men.len() == 64
    &&& forall|s: int|
        0 <= s < 64 ==> (#[trigger] p.men[s] matches Some(man) ==> man.0 < 6 && man.1 < 2 && (man.0
            == PAWN ==> 8 <= s < 56))
    &&& p.side < 2
    &&& castling_ok(p)
    &&& checkers_ok(p)
    &&& playable(p)
    &&& p.halfmove <= 100
    &&& men_count(p.men, 64) <= 32
    &&& one_king(p.men, WHITE)
    &&& one_king(p.men, BLACK)
    &&& p.ep matches Some(f) ==> {
        &&& f < 8
        &&& p.men[8 * ep_victim_rank(p.side) + f] == Some((PAWN, opposite(p.side)))
        &&& p.men[8 * ep_rank(p.side) + f] is None
    }
}

/// The moving piece of a move whose origin is occupied.
pub open spec fn mover(p: PosView, m: Move) -> u8 {
    match p.men[m.from as int] {
        Some(man) => man.0,
        None => PAWN,
    }
}

pub open spec fn is_castle(p: PosView, m: Move) -> bool {
    p.men[m.to as int] matches Some(man) && man.1 == p.side
}

pub open spec fn is_ep(p: PosView, m: Move) -> bool {
    &&& mover(p, m) == PAWN
    &&& p.ep == Some((m.to % 8) as u8)
    &&& rank_of(m.to as int) == ep_rank(p.side)
}

pub open spec fn castle_king_to(m: Move) -> int {
    8 * rank_of(m.from as int) + if m.to % 8 > m.from % 8 {
        6int
    } else {
        2
    }
}

pub open spec fn castle_rook_to(m: Move) -> int {
    8 * rank_of(m.from as int) + if m.to % 8 > m.from % 8 {
        5int
    } else {
        3
    }
}

/// The square of the pawn that an en passant capture takes.
pub open spec fn ep_victim_square(m: Move) -> int {
    8 * rank_of(m.from as int) + file_of(m.to as int)
}

/// There is a right to castle with the rook on a square.
pub open spec fn castles_with(rights: (Option<u8>, Option<u8>), s: int) -> bool {
    rights.0 == Some(file_of(s) as u8) || rights.1 == Some(file_of(s) as u8)
}

/// What a legal move looks like on the board.
pub open spec fn legal_shape(p: PosView, m: Move) -> bool {
    &&& m.from < 64
    &&& m.to < 64
    &&& m.from != m.to
    &&& p.men[m.from as int] matches Some(man) && man.1 == p.side
    &&& m.promotion matches Some(q) ==> mover(p, m) == PAWN && KNIGHT <= q <= QUEEN
    &&& if is_castle(p, m) {
        &&& mover(p, m) == KING
        &&& p.men[m.to as int] == Some((ROOK, p.side))
        &&& rank_of(m.from as int) == home_rank(p.side)
        &&& rank_of(m.to as int) == home_rank(p.side)
        &&& castles_with(p.castles[p.side as int], m.to as int)
        &&& (p.men[castle_king_to(m)] is None || castle_king_to(m) == m.from || castle_king_to(m)
            == m.to)
        &&& (p.men[castle_rook_to(m)] is None || castle_rook_to(m) == m.from || castle_rook_to(m)
            == m.to)
    } else {
        &&& p.men[m.to as int] != Some((KING, opposite(p.side)))
        &&& mover(p, m) == KING ==> king_reaches(m.from as int, m.to as int)
        &&& mover(p, m) == PAWN ==> {
            &&& p.men[m.to as int] is Some ==> m.from % 8 != m.to % 8
            &&& p.men[m.to as int] is None && m.from % 8 != m.to % 8 ==> is_ep(p, m)
            &&& is_ep(p, m) ==> rank_of(m.from as int) == ep_victim_rank(p.side) && m.from % 8
                != m.to % 8
            &&& m.promotion is Some <==> rank_of(m.to as int) == home_rank(opposite(p.side))
        }
    }
}

/// The men after a move.
pub open spec fn men_after(p: PosView, m: Move) -> Seq<Option<(u8, u8)>> {
    if is_castle(p, m) {
        p.men.update(m.from as int, None).update(m.to as int, None).update(
            castle_king_to(m),
            Some((KING, p.side)),
        ).update(castle_rook_to(m), Some((ROOK, p.side)))
    } else {
        let placed = match m.promotion {
            Some(q) => q,
            None => mover(p, m),
        };
        let lifted = p.men.update(m.from as int, None);
        let taken = if is_ep(p, m) {
            lifted.update(ep_victim_square(m), None)
        } else {
            lifted
        };
        taken.update(m.to as int, Some((placed, p.side)))
    }
}

pub open spec fn counted(halfmove: u8) -> u8 {
    if halfmove < 100 {
        (halfmove + 1) as u8
    } else {
        100
    }
}

pub open spec fn halfmove_after(p: PosView, m: Move) -> u8 {
    if mover(p, m) == PAWN || (p.men[m.to as int] is Some && !is_castle(p, m)) {
        0
    } else {
        counted(p.halfmove)
    }
}

pub open spec fn ep_after(p: PosView, m: Move) -> Option<u8> {
    if mover(p, m) == PAWN && (m.to == m.from + 16 || m.from == m.to + 16) {
        Some((m.to % 8) as u8)
    } else {
        None
    }
}

/// The men of the initial position.
pub open spec fn start_men() -> Seq<Option<(u8, u8)>> {
    Seq::new(
        64,
        |s: int|
            if 8 <= s < 16 {
                Some((PAWN, WHITE))
            } else if 48 <= s < 56 {
                Some((PAWN, BLACK))
            } else if s < 8 {
                Some((back_piece(s), WHITE))
            } else if s >= 56 {
                Some((back_piece(s - 56), BLACK))
            } else {
                None
            },
    )
}

pub open spec fn back_piece(f: int) -> u8 {
    if f == 0 || f == 7 {
        ROOK
    } else if f == 1 || f == 6 {
        KNIGHT
    } else if f == 2 || f == 5 {
        BISHOP
    } else if f == 3 {
        QUEEN
    } else {
        KING
    }
}

/// Castling rights without the one whose rook stands on file `f`.
pub open spec fn without_rook(rights: (Option<u8>, Option<u8>), f: int) -> (Option<u8>, Option<u8>) {
    match rights {
        (s, l) => if s == Some(f as u8) {
            (None, l)
        } else if l == Some(f as u8) {
            (s, None)
        } else {
            (s, l)
        },
    }
}

/// The castling rights after a move: a king that moves loses both, a rook that leaves its home
/// rank or is taken there loses its own.
pub open spec fn castles_after(p: PosView, m: Move) -> Seq<(Option<u8>, Option<u8>)> {
    Seq::new(
        2,
        |c: int|
            if c == p.side {
                if mover(p, m) == KING {
                    (None, None)
                } else if mover(p, m) == ROOK && rank_of(m.from as int) == home_rank(p.side) {
                    without_rook(p.castles[c], file_of(m.from as int))
                } else {
                    p.castles[c]
                }
            } else if !is_castle(p, m) && p.men[m.to as int] is Some && rank_of(m.to as int) == home_rank(opposite(p.side)) {
                without_rook(p.castles[c], file_of(m.to as int))
            } else {
                p.castles[c]
            },
    )
}

/// The number of the move that comes next: it goes up with black's moves.
pub open spec fn fullmove_after(p: PosView) -> u16 {
    if p.side == BLACK && p.fullmove < u16::MAX {
        (p.fullmove + 1) as u16
    } else {
        p.fullmove
    }
}

/// The moves `cozy_chess::Board::generate_moves` hands out for a position, in its order.
pub uninterp spec fn legal_moves(p: PosView) -> Seq<Move>;

/// The position after `cozy_chess::Board::play`.
pub uninterp spec fn position_after(p: PosView, m: Move) -> PosView;

/// The position after `cozy_chess::Board::null_move`.
pub uninterp spec fn position_passed(p: PosView) -> PosView;

/// What `cozy_chess::Board::from_fen` makes of a FEN: a position, or the text of its error.
pub uninterp spec fn fen_position(fen: Seq<char>) -> Result<PosView, Seq<char>>;

/// `p` is what the FEN of the initial position stands for.
pub open spec fn is_start(p: PosView) -> bool {
    fen_position("rnbqkbnr/pppppppp/8/8/8/8/PPPPPPPP/RNBQKBNR w KQkq - 0 1"@) == Ok::<PosView, Seq<char>>(p)
}

/// The initial position.
pub open spec fn start_view() -> PosView {
    fen_position("rnbqkbnr/pppppppp/8/8/8/8/PPPPPPPP/RNBQKBNR w KQkq - 0 1"@)->Ok_0
}

/// The hash `cozy_chess::Board::hash` gives a position.
pub uninterp spec fn zobrist(
    men: Seq<Option<(u8, u8)>>,
    side: u8,
    castles: Seq<(Option<u8>, Option<u8>)>,
    ep: Option<u8>,
) -> u64;

/// The hash is the one that men, side to move, castling rights and en passant file give.
pub open spec fn hashed(p: PosView) -> bool {
    p.hash == zobrist(p.men, p.side, p.castles, p.ep)
}

/// Wraps `cozy_chess::Board::generate_moves`. Claims that the moves are the ones named
/// `legal_moves`, and what every legal move looks like on the board: its man is the mover's, it
/// takes no king, as the kings are apart, and no own man but a rook that the king castles with,
/// the king otherwise goes to a square beside its own, pawns move straight without taking and
/// sideways only when they take, and they promote on the last rank.
#[verifier::external_body]
fn cozy_generate(p: &Position) -> (r: Vec<Move>)
    requires
        wf(p@),
    ensures
        r@ == legal_moves(p@),
        forall|i: int| 0 <= i < r@.len() ==> legal_shape(p@, #[trigger] r@[i]),
{
    let mut out = Vec::new();
    p.cozy.generate_moves(
        |pm| {
            out.extend(pm.into_iter().map(|m| Move { from: m.from as u8, to: m.to as u8, promotion: m.promotion.map(|q| q as u8) }));
            false
        },
    );
    out
}

/// Wraps `cozy_chess::Board::is_legal`. Claims that it accepts the moves that
/// `generate_moves` hands out and no others.
#[verifier::external_body]
fn cozy_is_legal(p: &Position, m: Move) -> (r: bool)
    requires
        wf(p@),
        m.from < 64,
        m.to < 64,
        m.promotion matches Some(q) ==> q < 6,
    ensures
        r == legal_moves(p@).contains(m),
        r ==> legal_shape(p@, m),
{
    let promotion = m.promotion.map(|q| Piece::index(q as usize));
    p.cozy.is_legal(cozy_chess::Move { from: Square::index(m.from as usize), to: Square::index(m.to as usize), promotion })
}

/// Wraps `cozy_chess::Board::play`. Claims that the position after a legal move is the one
/// named `position_after`, with the men that `men_after` says, the other side to move, the en
/// passant file of a double pawn push, the castling rights that `castles_after` says, a halfmove
/// clock that starts again at pawn moves and captures and stops at 100, and a move number that
/// goes up with black's moves; and that what holds of positions holds of it, which says who may
/// castle, who gives check and that the kings stay apart.
#[verifier::external_body]
fn cozy_play(p: &Position, m: Move) -> (r: Position)
    requires
        wf(p@),
        legal_moves(p@).contains(m),
    ensures
        r@ == position_after(p@, m),
        wf(r@),
        r@.hash == zobrist(r@.men, r@.side, r@.castles, r@.ep),
        r@.men == men_after(p@, m),
        r@.side == opposite(p@.side),
        r@.ep == ep_after(p@, m),
        r@.castles == castles_after(p@, m),
        r@.halfmove == halfmove_after(p@, m),
        r@.fullmove == fullmove_after(p@),
{
    let mut c = p.cozy.clone();
    let promotion = m.promotion.map(|q| Piece::index(q as usize));
    c.play(cozy_chess::Move { from: Square::index(m.from as usize), to: Square::index(m.to as usize), promotion });
    Position {
        men: Square::ALL.map(|s| c.piece_on(s).zip(c.color_on(s)).map(|(q, k)| (q as u8, k as u8))),
        side: c.side_to_move() as u8,
        ep: c.en_passant().map(|f| f as u8),
        halfmove: c.halfmove_clock(),
        hash: c.hash(),
        checkers: c.checkers().0,
        unread: Ghost(arbitrary()),
        cozy: c,
    }
}

/// Wraps `cozy_chess::Board::castle_rights`. Claims that it gives the files of the rooks a side
/// may castle with.
#[verifier::external_body]
fn cozy_castle_rights(p: &Position, c: u8) -> (r: (Option<u8>, Option<u8>))
    requires
        c < 2,
    ensures
        r == p@.castles[c as int],
{
    let r = p.cozy.castle_rights(Color::index(c as usize));
    (r.short.map(|f| f as u8), r.long.map(|f| f as u8))
}

/// Wraps `cozy_chess::Board::null_move`. Claims that it refuses exactly while in check, and that
/// otherwise only the side to move, the en passant file, the counters and the hash change.
#[verifier::external_body]
fn cozy_null_move(p: &Position) -> (r: Option<Position>)
    requires
        wf(p@),
    ensures
        r is Some <==> p@.checkers == 0,
        r matches Some(n) ==> {
            &&& n@ == position_passed(p@)
            &&& wf(n@)
            &&& hashed(n@)
            &&& n@.men == p@.men
            &&& n@.side == opposite(p@.side)
            &&& n@.castles == p@.castles
            &&& n@.ep is None
            &&& n@.halfmove == counted(p@.halfmove)
            &&& n@.fullmove == fullmove_after(p@)
            &&& n@.checkers == 0
        },
{
    p.cozy.null_move().map(|c| Position {
        men: Square::ALL.map(|s| c.piece_on(s).zip(c.color_on(s)).map(|(q, k)| (q as u8, k as u8))),
        side: c.side_to_move() as u8,
        ep: c.en_passant().map(|f| f as u8),
        halfmove: c.halfmove_clock(),
        hash: c.hash(),
        checkers: c.checkers().0,
        unread: Ghost(arbitrary()),
        cozy: c,
    })
}

/// Wraps `cozy_chess::Board::startpos`. Claims that it is the initial position of chess, as its
/// FEN describes it.
#[verifier::external_body]
fn cozy_startpos() -> (r: Position)
    ensures
        wf(r@),
        hashed(r@),
        r@.men == start_men(),
        r@.side == WHITE,
        r@.castles == seq![(Some(7u8), Some(0u8)), (Some(7u8), Some(0u8))],
        r@.ep is None,
        r@.halfmove == 0,
        r@.fullmove == 1,
        r@.checkers == 0,
        is_start(r@),
{
    let c = cozy_chess::Board::startpos();
    Position {
        men: Square::ALL.map(|s| c.piece_on(s).zip(c.color_on(s)).map(|(q, k)| (q as u8, k as u8))),
        side: c.side_to_move() as u8,
        ep: c.en_passant().map(|f| f as u8),
        halfmove: c.halfmove_clock(),
        hash: c.hash(),
        checkers: c.checkers().0,
        unread: Ghost(arbitrary()),
        cozy: c,
    }
}

/// Whatever men, side to move, castling rights and en passant file `fen` describes, with fresh
/// counters, `p` has them.
pub open spec fn reads_back(fen: Seq<char>, p: PosView) -> bool {
    forall|men: Seq<Option<(u8, u8)>>, side: u8, rights: u8, ep: Option<u8>|
        fen_input(men, side, ep) && fen == #[trigger] fen_text(men, side, rights, ep) ==> p.men
            == men && p.side == side && p.castles == castles_of(rights) && p.ep == ep && p.halfmove
            == 0
}

/// A FEN is the one of a position, with fresh counters.
pub open spec fn fen_of_some_position(fen: Seq<char>) -> bool {
    exists|p: PosView, rights: u8|
        wf(p) && p.castles == castles_of(rights) && fen == #[trigger] fen_text(p.men, p.side, rights, p.ep)
}

/// Wraps `cozy_chess::Board::from_fen` for standard FENs. Claims that the outcome is the one
/// named `fen_position`, that a FEN which describes given men, side to move, castling rights
/// and en passant file, with fresh counters, is read back as those, and that the FEN of a
/// position is accepted.
#[verifier::external_body]
fn cozy_from_fen(fen: &str) -> (r: Result<Position, String>)
    ensures
        match r {
            Ok(p) => fen_position(fen@) is Ok && fen_position(fen@)->Ok_0 == p@,
            Err(e) => fen_position(fen@) is Err && fen_position(fen@)->Err_0 == e@,
        },
        r matches Ok(p) ==> accepted(p@) && hashed(p@),
        r matches Ok(p) ==> reads_back(fen@, p@),
        fen_of_some_position(fen@) ==> r is Ok,
{
    let c = cozy_chess::Board::from_fen(fen, false).map_err(|e| e.to_string())?;
    Ok(Position {
        men: Square::ALL.map(|s| c.piece_on(s).zip(c.color_on(s)).map(|(q, k)| (q as u8, k as u8))),
        side: c.side_to_move() as u8,
        ep: c.en_passant().map(|f| f as u8),
        halfmove: c.halfmove_clock(),
        hash: c.hash(),
        checkers: c.checkers().0,
        unread: Ghost(arbitrary()),
        cozy: c,
    })
}

/// Wraps `cozy_chess::util::parse_uci_move`. Claims that the outcome is what `uci_move` says: two
/// squares and a letter for a promotion are read, and a king that castles goes to its rook. The
/// move need not be legal.
#[verifier::external_body]
fn cozy_parse_uci(p: &Position, text: &str) -> (r: Result<Move, String>)
    requires
        wf(p@),
    ensures
        match r {
            Ok(m) => uci_move(p@, text@) is Ok && uci_move(p@, text@)->Ok_0 == m,
            Err(e) => uci_move(p@, text@) is Err && uci_move(p@, text@)->Err_0 == e@,
        },
{
    let m = cozy_chess::util::parse_uci_move(&p.cozy, text).map_err(|e| e.to_string())?;
    Ok(Move { from: m.from as u8, to: m.to as u8, promotion: m.promotion.map(|q| q as u8) })
}

/// Wraps `cozy_chess::util::display_uci_move`. Claims that the text is what `uci_text` says: the
/// two squares and a letter for a promotion, castling as the king going to the g or c file.
#[verifier::external_body]
fn cozy_display_uci(p: &Position, m: Move) -> (r: String)
    requires
        wf(p@),
        m.from < 64,
        m.to < 64,
        m.promotion matches Some(q) ==> q < 6,
    ensures
        r@ == uci_text(p@, m),
{
    let promotion = m.promotion.map(|q| Piece::index(q as usize));
    cozy_chess::util::display_uci_move(&p.cozy, cozy_chess::Move { from: Square::index(m.from as usize), to: Square::index(m.to as usize), promotion }).to_string()
}

/// The FEN of a position.
pub open spec fn position_text(p: PosView) -> Seq<char> {
    placement_text(p.men, 7) + seq![' ', if p.side == WHITE { 'w' } else { 'b' }, ' '] + castle_letters(p.castles)
        + seq![' '] + ep_text(p.side, p.ep) + seq![' '] + numeral(p.halfmove as nat) + seq![' '] + numeral(
        p.fullmove as nat,
    )
}

/// Wraps the `Display` of `cozy_chess::Board`. Claims that it writes the position's FEN: the men
/// rank by rank, the side to move, a letter for each castling right, the square behind a pawn
/// that has just moved two ranks, and the two counters.
#[verifier::external_body]
fn cozy_display(p: &Position) -> (r: String)
    ensures
        r@ == position_text(p@),
{
    p.cozy.to_string()
}

/// What a game has come to in `p`.
pub open spec fn status_of(p: PosView) -> GameStatus {
    if legal_moves(p).len() > 0 {
        if p.halfmove < 100 {
            GameStatus::Ongoing
        } else {
            GameStatus::Drawn
        }
    } else if p.checkers == 0 {
        GameStatus::Drawn
    } else {
        GameStatus::Won
    }
}

impl Clone for Position {
    fn clone(&self) -> (r: Position)
        ensures
            r@ == self@,
    {
        Position {
            men: self.men,
            side: self.side,
            ep: self.ep,
            halfmove: self.halfmove,
            hash: self.hash,
            checkers: self.checkers,
            unread: Ghost(self.unread@),
            cozy: self.cozy.clone(),
        }
    }
}

impl Position {
    /// The initial position.
    pub fn start() -> (r: Position)
        ensures
            wf(r@),
            hashed(r@),
            r@.men == start_men(),
            r@.side == WHITE,
            r@.castles == seq![(Some(7u8), Some(0u8)), (Some(7u8), Some(0u8))],
            r@.ep is None,
            r@.halfmove == 0,
            r@.fullmove == 1,
            r@.checkers == 0,
            is_start(r@),
            r@ == start_view(),
    {
        cozy_startpos()
    }

    /// The position a FEN describes, or what is wrong with it.
    pub fn from_fen(fen: &str) -> (r: Result<Position, String>)
        ensures
            match r {
                Ok(p) => fen_position(fen@) is Ok && fen_position(fen@)->Ok_0 == p@ && accepted(p@)
                    && hashed(p@),
                Err(e) => fen_position(fen@) is Err && fen_position(fen@)->Err_0 == e@,
            },
            r matches Ok(p) ==> reads_back(fen@, p@),
            fen_of_some_position(fen@) ==> r is Ok,
    {
        cozy_from_fen(fen)
    }

    /// Whether the kings stand side by side: a move could take one.
    pub fn kings_touch(&self) -> (r: bool)
        requires
            accepted(self@),
        ensures
            r == !kings_apart(self@.men),
            !r ==> wf(self@),
    {
        let a: u8 = self.king(WHITE);
        let b: u8 = self.king(BLACK);
        proof {
            reveal(kings_apart);
        }
        let (af, ar): (u8, u8) = (a % 8, a / 8);
        let (bf, br): (u8, u8) = (b % 8, b / 8);
        af <= bf + 1 && bf <= af + 1 && ar <= br + 1 && br <= ar + 1
    }

    /// The legal moves, in cozy-chess's order.
    pub fn moves(&self) -> (r: Vec<Move>)
        requires
            wf(self@),
        ensures
            r@ == legal_moves(self@),
            forall|i: int| 0 <= i < r@.len() ==> legal_shape(self@, #[trigger] r@[i]),
    {
        cozy_generate(self)
    }

    pub fn is_legal(&self, m: Move) -> (r: bool)
        requires
            wf(self@),
            m.from < 64,
            m.to < 64,
            m.promotion matches Some(q) ==> q < 6,
        ensures
            r == legal_moves(self@).contains(m),
            r ==> legal_shape(self@, m),
    {
        cozy_is_legal(self, m)
    }

    /// The position after a legal move.
    pub fn play(&self, m: Move) -> (r: Position)
        requires
            wf(self@),
            legal_moves(self@).contains(m),
        ensures
            r@ == position_after(self@, m),
            wf(r@),
            hashed(r@),
            r@.men == men_after(self@, m),
            r@.side == opposite(self@.side),
            r@.ep == ep_after(self@, m),
            r@.castles == castles_after(self@, m),
            r@.halfmove == halfmove_after(self@, m),
            r@.fullmove == fullmove_after(self@),
    {
        cozy_play(self, m)
    }

    /// The position after `m`, if it is legal.
    pub fn try_play(&self, m: Move) -> (r: Option<Position>)
        requires
            wf(self@),
            m.from < 64,
            m.to < 64,
            m.promotion matches Some(q) ==> q < 6,
        ensures
            r is Some <==> legal_moves(self@).contains(m),
            r matches Some(n) ==> n@ == position_after(self@, m) && wf(n@)
                && n@.men == men_after(self@, m) && n@.side == opposite(self@.side),
    {
        if self.is_legal(m) {
            Some(self.play(m))
        } else {
            None
        }
    }

    /// The position after passing, unless in check.
    pub fn null_move(&self) -> (r: Option<Position>)
        requires
            wf(self@),
        ensures
            r is Some <==> self@.checkers == 0,
            r matches Some(n) ==> {
                &&& n@ == position_passed(self@)
                &&& wf(n@)
                &&& hashed(n@)
                &&& n@.men == self@.men
                &&& n@.side == opposite(self@.side)
                &&& n@.castles == self@.castles
                &&& n@.ep is None
                &&& n@.halfmove == counted(self@.halfmove)
                &&& n@.fullmove == fullmove_after(self@)
                &&& n@.checkers == 0
            },
    {
        cozy_null_move(self)
    }

    /// The move a UCI text stands for here, legal or not, or what is wrong with the text.
    pub fn parse_uci(&self, text: &str) -> (r: Result<Move, String>)
        requires
            wf(self@),
        ensures
            match r {
                Ok(m) => uci_move(self@, text@) is Ok && uci_move(self@, text@)->Ok_0 == m,
                Err(e) => uci_move(self@, text@) is Err && uci_move(self@, text@)->Err_0 == e@,
            },
            r matches Ok(m) ==> m.from < 64 && m.to < 64 && (m.promotion matches Some(q)
                ==> KNIGHT <= q <= QUEEN),
    {
        proof {
            lemma_read_moves_stay_on_the_board(self@, text@);
        }
        cozy_parse_uci(self, text)
    }

    /// The FEN of the position.
    pub fn fen(&self) -> (r: String)
        ensures
            r@ == position_text(self@),
    {
        cozy_display(self)
    }

    /// The UCI text of a move here.
    pub fn display_uci(&self, m: Move) -> (r: String)
        requires
            wf(self@),
            m.from < 64,
            m.to < 64,
            m.promotion matches Some(q) ==> q < 6,
        ensures
            r@ == uci_text(self@, m),
    {
        cozy_display_uci(self, m)
    }

    /// Whether the game goes on here.
    pub fn status(&self) -> (r: GameStatus)
        requires
            wf(self@),
        ensures
            r == status_of(self@),
    {
        let moves = self.moves();
        if moves.len() > 0 {
            if self.halfmove < 100 {
                GameStatus::Ongoing
            } else {
                GameStatus::Drawn
            }
        } else if self.checkers == 0 {
            GameStatus::Drawn
        } else {
            GameStatus::Won
        }
    }

    /// The man on a square.
    pub fn man(&self, sq: u8) -> (r: Option<(u8, u8)>)
        requires
            sq < 64,
        ensures
            r == self@.men[sq as int],
    {
        self.men[sq as usize]
    }

    pub fn side_to_move(&self) -> (r: u8)
        ensures
            r == self@.side,
    {
        self.side
    }

    /// Rook files of a side's castling rights, short and long.
    pub fn castle_rights(&self, c: u8) -> (r: (Option<u8>, Option<u8>))
        requires
            c < 2,
        ensures
            r == self@.castles[c as int],
    {
        cozy_castle_rights(self, c)
    }

    pub fn en_passant(&self) -> (r: Option<u8>)
        ensures
            r == self@.ep,
    {
        self.ep
    }

    pub fn halfmove_clock(&self) -> (r: u8)
        ensures
            r == self@.halfmove,
    {
        self.halfmove
    }

    pub fn hash(&self) -> (r: u64)
        ensures
            r == self@.hash,
    {
        self.hash
    }

    pub fn in_check(&self) -> (r: bool)
        ensures
            r == (self@.checkers != 0),
    {
        self.checkers != 0
    }

    /// The square of a side's king.
    pub fn king(&self, c: u8) -> (r: u8)
        requires
            accepted(self@),
            c < 2,
        ensures
            r < 64,
            king_at(self@.men, c, r as int),
            r == king_square(self@.men, c),
    {
        let mut s: u8 = 0;
        assert(one_king(self@.men, c));
        while s < 63 && self.men[s as usize] != Some((KING, c))
            invariant
                s <= 63,
                self.men@ == self@.men,
                self@.men.len() == 64,
                forall|t: int| 0 <= t < s ==> !king_at(self@.men, c, t),
            decreases 63 - s,
        {
            s = s + 1;
        }
        let ghost k = king_square(self@.men, c);
        assert(king_at(self@.men, c, k));
        s
    }

    /// The occupied squares, one bit each.
    pub fn occupied(&self) -> (r: u64)
        requires
            wf(self@),
        ensures
            forall|t: int| 0 <= t < 64 ==> bit(r, t) == (#[trigger] self@.men[t] is Some),
    {
        let mut r: u64 = 0;
        let mut s: u8 = 0;
        proof {
            assert forall|t: int| 0 <= t < 64 implies !bit(r, t) by {
                lemma_bit_zero(t as u64);
            }
        }
        while s < 64
            invariant
                s <= 64,
                self.men@ == self@.men,
                self@.men.len() == 64,
                forall|t: int| 0 <= t < 64 ==> bit(r, t) == (t < s && #[trigger] self@.men[t] is Some),
            decreases 64 - s,
        {
            if self.men[s as usize].is_some() {
                proof {
                    assert forall|t: int| 0 <= t < 64 implies bit(r | (1u64 << s), t) == (bit(r, t) || t == s) by {
                        lemma_bit_set(r, s as u64, t as u64);
                    }
                }
                r = r | (1u64 << s);
            }
            s = s + 1;
        }
        r
    }
}

pub proof fn lemma_bit_zero(t: u64)
    requires
        t < 64,
    ensures
        !bit(0, t as int),
{
    assert((0u64 >> t) & 1 == 0) by (bit_vector);
}

pub proof fn lemma_bit_set(w: u64, s: u64, t: u64)
    requires
        s < 64,
        t < 64,
    ensures
        bit(w | (1u64 << s), t as int) == (bit(w, t as int) || t == s),
{
    assert((((w | (1u64 << s)) >> t) & 1 == 1) == ((w >> t) & 1 == 1 || t == s)) by (bit_vector)
        requires
            s < 64,
            t < 64,
    ;
}

/// Taking an occupied square out of a set of squares.
pub proof fn lemma_bit_clear(w: u64, s: u64)
    requires
        s < 64,
        bit(w, s as int),
    ensures
        (w ^ (1u64 << s)) < w,
        forall|t: int| 0 <= t < 64 ==> bit(w ^ (1u64 << s), t) == (#[trigger] bit(w, t) && t != s),
{
    assert((w ^ (1u64 << s)) < w) by (bit_vector)
        requires
            s < 64,
            (w >> s) & 1 == 1,
    ;
    assert forall|t: int| 0 <= t < 64 implies bit(w ^ (1u64 << s), t) == (#[trigger] bit(w, t) && t != s) by {
        let u = t as u64;
        assert((((w ^ (1u64 << s)) >> u) & 1 == 1) == ((w >> u) & 1 == 1 && u != s)) by (bit_vector)
            requires
                s < 64,
                u < 64,
                (w >> s) & 1 == 1,
        ;
    }
}

/// Two sets with the same squares are the same.
pub proof fn lemma_same_bits(a: u64, b: u64)
    requires
        forall|t: int| 0 <= t < 64 ==> #[trigger] bit(a, t) == bit(b, t),
    ensures
        a == b,
{
    if a != b {
        assert(exists|t: u64| t < 64 && (a >> t) & 1 != (b >> t) & 1) by {
            let x = a ^ b;
            assert(x != 0) by (bit_vector)
                requires
                    x == a ^ b,
                    a != b,
            ;
            lemma_some_bit(x, 63);
            let t = choose|t: u64| t < 64 && (x >> t) & 1 == 1;
            assert((a >> t) & 1 != (b >> t) & 1) by (bit_vector)
                requires
                    x == a ^ b,
                    (x >> t) & 1 == 1,
            ;
        }
        let t = choose|t: u64| t < 64 && (a >> t) & 1 != (b >> t) & 1;
        assert(bit(a, t as int) == bit(b, t as int));
        assert((a >> t) & 1 == 0 || (a >> t) & 1 == 1) by (bit_vector);
        assert((b >> t) & 1 == 0 || (b >> t) & 1 == 1) by (bit_vector);
    }
}

proof fn lemma_some_bit(x: u64, n: u64)
    requires
        x != 0,
        n < 64,
        n < 63 ==> (x >> ((n + 1) as u64)) == 0,
    ensures
        exists|t: u64| t < 64 && (x >> t) & 1 == 1,
    decreases n,
{
    if (x >> n) & 1 == 1 {
    } else {
        if n < 63 {
            let m = (n + 1) as u64;
            assert((x >> n) == 0) by (bit_vector)
                requires
                    (x >> m) == 0,
                    m == n + 1,
                    n < 63,
                    (x >> n) & 1 != 1,
            ;
        } else {
            assert((x >> n) == 0) by (bit_vector)
                requires
                    n == 63,
                    (x >> n) & 1 != 1,
            ;
        }
        if n == 0 {
            assert(x == 0) by (bit_vector)
                requires
                    (x >> n) == 0,
                    n == 0,
            ;
        } else {
            lemma_some_bit(x, (n - 1) as u64);
        }
    }
}

/// A side is in check exactly when a man of the other side attacks its king.
pub proof fn law_check_is_an_attack_on_the_king(p: PosView)
    requires
        wf(p),
    ensures
        p.checkers != 0 <==> exists|s: int|
            0 <= s < 64 && colour_at(p.men, s) == opposite(p.side) && #[trigger] gives_check(
                p.men,
                s,
                king_square(p.men, p.side),
            ),
{
    reveal(checkers_ok);
    let k = king_square(p.men, p.side);
    if p.checkers != 0 {
        lemma_some_bit(p.checkers, 63);
        let t = choose|t: u64| t < 64 && (p.checkers >> t) & 1 == 1;
        assert(bit(p.checkers, t as int));
        assert(gives_check(p.men, t as int, k));
    } else {
        assert forall|s: int| 0 <= s < 64 implies !(colour_at(p.men, s) == opposite(p.side) && #[trigger] gives_check(p.men, s, k)) by {
            lemma_bit_zero(s as u64);
            assert(!bit(p.checkers, s));
        }
    }
}

// ---------------- laws ----------------
/// A side without a legal move has lost where it is in check and drawn where it is not; one with a legal
/// move plays on until a hundred plies have passed without a capture or pawn move.
pub proof fn law_games_end_without_a_move(p: PosView)
    ensures
        legal_moves(p).len() == 0 && p.checkers != 0 ==> status_of(p) is Won,
        legal_moves(p).len() == 0 && p.checkers == 0 ==> status_of(p) is Drawn,
        legal_moves(p).len() > 0 && p.halfmove >= 100 ==> status_of(p) is Drawn,
        legal_moves(p).len() > 0 && p.halfmove < 100 ==> status_of(p) is Ongoing,
{
}

} // verus!

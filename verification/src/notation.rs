//! Moves in the notation of the UCI protocol: the squares they go from and to, and a letter for
//! a promotion. Castling is written as the king going to the g or c file.
use vstd::prelude::*;
use crate::board::{
    castling_ok, home_rank, is_castle, king_at, legal_shape, one_king, wf, Move, PosView, BISHOP, BLACK, KING, KNIGHT,
    QUEEN, ROOK,
};
use crate::fen::man_letter;

verus! {

/// The name of a square.
pub open spec fn square_text(s: int) -> Seq<char> {
    seq![('a' as u8 + s % 8) as char, ('1' as u8 + s / 8) as char]
}

/// The square two characters name.
pub open spec fn square_read(file: char, rank: char) -> Option<int> {
    if 'a' <= file <= 'h' && '1' <= rank <= '8' {
        Some(8 * (rank as int - '1' as int) + (file as int - 'a' as int))
    } else {
        None
    }
}

/// The square on file `f` of a side's home rank.
pub open spec fn home_square(side: u8, f: int) -> int {
    8 * home_rank(side) + f
}

/// The man that moves is the king of the side to move.
pub open spec fn king_moves(p: PosView, m: Move) -> bool {
    p.men[m.from as int] == Some((KING, p.side))
}

/// The destination a move is written with: a king that goes to a rook it may castle with is
/// written as going to the g file, or to the c file.
pub open spec fn written_to(p: PosView, m: Move) -> int {
    let (short, long) = p.castles[p.side as int];
    let to = match short {
        Some(f) => if king_moves(p, m) && m.to == home_square(p.side, f as int) {
            home_square(p.side, 6)
        } else {
            m.to as int
        },
        None => m.to as int,
    };
    match long {
        Some(f) => if king_moves(p, m) && to == home_square(p.side, f as int) {
            home_square(p.side, 2)
        } else {
            to
        },
        None => to,
    }
}

/// The destination that is meant: a king on the e file of its home rank that goes to the g or c
/// file goes to the rook it may castle with there.
pub open spec fn meant_to(p: PosView, m: Move) -> int {
    let (short, long) = p.castles[p.side as int];
    if king_moves(p, m) && m.from == home_square(p.side, 4) {
        let to = match short {
            Some(f) => if m.to == home_square(p.side, 6) {
                home_square(p.side, f as int)
            } else {
                m.to as int
            },
            None => m.to as int,
        };
        match long {
            Some(f) => if to == home_square(p.side, 2) {
                home_square(p.side, f as int)
            } else {
                to
            },
            None => to,
        }
    } else {
        m.to as int
    }
}

/// The text of a move.
pub open spec fn uci_text(p: PosView, m: Move) -> Seq<char> {
    square_text(m.from as int) + square_text(written_to(p, m)) + match m.promotion {
        Some(q) => seq![man_letter((q, BLACK))],
        None => Seq::empty(),
    }
}

/// The promotion a text asks for, if its fifth character can stand there. A king or a pawn
/// counts as none, and so does a character beyond ASCII.
pub open spec fn promotion_read(text: Seq<char>) -> Option<Option<u8>> {
    if text.len() <= 4 || text[4] as int >= 128 {
        Some(None)
    } else if text[4] == 'n' {
        Some(Some(KNIGHT))
    } else if text[4] == 'b' {
        Some(Some(BISHOP))
    } else if text[4] == 'r' {
        Some(Some(ROOK))
    } else if text[4] == 'q' {
        Some(Some(QUEEN))
    } else if text[4] == 'p' || text[4] == 'k' {
        Some(None)
    } else {
        None
    }
}

/// The move a text writes, before castling is looked at. What follows the fifth character is not
/// read.
pub open spec fn plain_move_read(text: Seq<char>) -> Option<Move> {
    if text.len() < 4 {
        None
    } else {
        match (square_read(text[0], text[1]), square_read(text[2], text[3]), promotion_read(text)) {
            (Some(from), Some(to), Some(promotion)) => Some(Move { from: from as u8, to: to as u8, promotion }),
            _ => None,
        }
    }
}

/// The move a text stands for in a position, legal or not, or what is wrong with the text.
pub open spec fn uci_move(p: PosView, text: Seq<char>) -> Result<Move, Seq<char>> {
    match plain_move_read(text) {
        Some(m) => Ok(Move { to: meant_to(p, m) as u8, ..m }),
        None => Err("The value was not a valid Move."@),
    }
}

/// A move that is read, legal or not, stays on the board and promotes to nothing but a knight,
/// bishop, rook or queen.
pub proof fn lemma_read_moves_stay_on_the_board(p: PosView, text: Seq<char>)
    requires
        wf(p),
    ensures
        uci_move(p, text) matches Ok(m) ==> m.from < 64 && m.to < 64 && (m.promotion matches Some(q) ==> KNIGHT <= q
            <= QUEEN),
{
    reveal(castling_ok);
    assert(p.side < 2);
    let rights = p.castles[p.side as int];
}

/// A legal move is read back from its text. The king that castles has to stand on the e file: from
/// elsewhere castling is written but not read.
pub proof fn law_move_reads_back(p: PosView, m: Move)
    requires
        wf(p),
        legal_shape(p, m),
        is_castle(p, m) ==> m.from % 8 == 4,
    ensures
        uci_move(p, uci_text(p, m)) == Ok::<Move, Seq<char>>(m),
{
    reveal(castling_ok);
    let t = uci_text(p, m);
    let to = written_to(p, m);
    let (short, long) = p.castles[p.side as int];
    assert(p.men[m.from as int] is Some);
    assert(one_king(p.men, p.side));
    if king_moves(p, m) {
        assert(king_at(p.men, p.side, m.from as int));
        assert(king_at(p.men, p.side, crate::board::king_square(p.men, p.side)));
    }
    assert(0 <= to < 64);
    assert(t[0] == square_text(m.from as int)[0] && t[1] == square_text(m.from as int)[1]);
    assert(t[2] == square_text(to)[0] && t[3] == square_text(to)[1]);
    assert(m.promotion matches Some(q) ==> t.len() == 5 && t[4] == man_letter((q, BLACK)));
}

// ---------------- laws ----------------
/// A square is written by its file and its rank, and reads back.
pub proof fn law_squares_read_back(s: int)
    requires
        0 <= s < 64,
    ensures
        square_text(s).len() == 2,
        square_read(square_text(s)[0], square_text(s)[1]) == Some(s),
        s / 8 == 0 ==> square_text(s)[1] == '1',
        s / 8 == 7 ==> square_text(s)[1] == '8',
        s % 8 == 0 ==> square_text(s)[0] == 'a',
        s % 8 == 7 ==> square_text(s)[0] == 'h',
{
}

/// What is read as a square lies on the board, and is written as it was read.
pub proof fn law_read_squares_write_back(file: char, rank: char)
    ensures
        square_read(file, rank) matches Some(s) ==> 0 <= s < 64 && square_text(s) == seq![file, rank],
        square_read(file, rank) is Some <==> 'a' <= file <= 'h' && '1' <= rank <= '8',
{
    if let Some(s) = square_read(file, rank) {
        assert(square_text(s) =~= seq![file, rank]);
    }
}

/// A promotion is read from the fifth letter: a knight, a bishop, a rook or a queen, and nothing from
/// a text without one.
pub proof fn law_promotions_are_read_by_letter(text: Seq<char>)
    ensures
        text.len() <= 4 ==> promotion_read(text) == Some(None::<u8>),
        text.len() > 4 && text[4] == 'n' ==> promotion_read(text) == Some(Some(1u8)),
        text.len() > 4 && text[4] == 'b' ==> promotion_read(text) == Some(Some(2u8)),
        text.len() > 4 && text[4] == 'r' ==> promotion_read(text) == Some(Some(3u8)),
        text.len() > 4 && text[4] == 'q' ==> promotion_read(text) == Some(Some(4u8)),
        promotion_read(text) matches Some(Some(q)) ==> 1 <= q <= 4,
{
}

/// A castling king is written two files from where it stands and meant to take its rook; every other
/// move is written and meant as it is.
pub proof fn law_castling_is_written_as_the_kings_move(p: PosView, m: Move)
    requires
        p.side < 2,
        m.from < 64,
        m.to < 64,
    ensures
        !king_moves(p, m) ==> written_to(p, m) == m.to && meant_to(p, m) == m.to,
        m.from % 8 != 4 ==> meant_to(p, m) == m.to,
        king_moves(p, m) && p.castles[p.side as int].0 == Some(7u8) && m.to == 8 * home_rank(p.side) + 7 && p.castles[p.side as int].1
            != Some(6u8) ==> written_to(p, m) == 8 * home_rank(p.side) + 6,
        king_moves(p, m) && p.castles[p.side as int].1 == Some(0u8) && m.to == 8 * home_rank(p.side) && p.castles[p.side as int].0
            != Some(0u8) ==> written_to(p, m) == 8 * home_rank(p.side) + 2,
        king_moves(p, m) && m.from == 8 * home_rank(p.side) + 4 && p.castles[p.side as int].0 == Some(7u8) && m.to == 8 * home_rank(
            p.side,
        ) + 6 ==> meant_to(p, m) == 8 * home_rank(p.side) + 7,
        king_moves(p, m) && m.from == 8 * home_rank(p.side) + 4 && p.castles[p.side as int].1 == Some(0u8) && m.to == 8 * home_rank(
            p.side,
        ) + 2 && p.castles[p.side as int].0 != Some(2u8) ==> meant_to(p, m) == 8 * home_rank(p.side),
{
}

} // verus!

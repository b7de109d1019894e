//! Tapered evaluation: material and piece-square tables, blended between middlegame and endgame
//! by the material left. Scores are from the side to move.
use vstd::prelude::*;
use crate::board::{opposite, accepted, PosView, Position, WHITE};
use crate::pesto::{
    EG_BISHOP_TABLE, EG_KING_TABLE, EG_KNIGHT_TABLE, EG_PAWN_TABLE, EG_QUEEN_TABLE, EG_ROOK_TABLE,
    EG_VALUE, MG_BISHOP_TABLE, MG_KING_TABLE, MG_KNIGHT_TABLE, MG_PAWN_TABLE, MG_QUEEN_TABLE,
    MG_ROOK_TABLE, MG_VALUE,
};

verus! {

/// Weight of each piece in the game phase; the initial position has 24.
pub const PHASE_W: [i32; 6] = [0, 1, 1, 2, 4, 0];

/// No evaluation is further from zero than this.
pub const EVAL_LIMIT: i32 = 4_200_000;

pub open spec fn mg_square(p: u8, i: int) -> int {
    (if p == 0 {
        MG_PAWN_TABLE@[i]
    } else if p == 1 {
        MG_KNIGHT_TABLE@[i]
    } else if p == 2 {
        MG_BISHOP_TABLE@[i]
    } else if p == 3 {
        MG_ROOK_TABLE@[i]
    } else if p == 4 {
        MG_QUEEN_TABLE@[i]
    } else {
        MG_KING_TABLE@[i]
    }) as int
}

pub open spec fn eg_square(p: u8, i: int) -> int {
    (if p == 0 {
        EG_PAWN_TABLE@[i]
    } else if p == 1 {
        EG_KNIGHT_TABLE@[i]
    } else if p == 2 {
        EG_BISHOP_TABLE@[i]
    } else if p == 3 {
        EG_ROOK_TABLE@[i]
    } else if p == 4 {
        EG_QUEEN_TABLE@[i]
    } else {
        EG_KING_TABLE@[i]
    }) as int
}

/// A square seen from the other side of the board.
pub open spec fn mirrored(s: int) -> int {
    8 * (7 - s / 8) + s % 8
}

/// Where a man's square stands in the tables.
pub open spec fn table_index(c: u8, s: int) -> int {
    if c == WHITE {
        mirrored(s)
    } else {
        s
    }
}

pub open spec fn signed_for(c: u8, v: int) -> int {
    if c == WHITE {
        v
    } else {
        -v
    }
}

/// Middlegame score of the men on the first `n` squares, white's less black's.
pub open spec fn mg_sum(men: Seq<Option<(u8, u8)>>, n: int) -> int
    decreases n,
{
    if n <= 0 {
        0
    } else {
        mg_sum(men, n - 1) + match men[n - 1] {
            Some(man) => signed_for(
                man.1,
                MG_VALUE@[man.0 as int] + mg_square(man.0, table_index(man.1, n - 1)),
            ),
            None => 0,
        }
    }
}

/// Endgame score of the men on the first `n` squares, white's less black's.
pub open spec fn eg_sum(men: Seq<Option<(u8, u8)>>, n: int) -> int
    decreases n,
{
    if n <= 0 {
        0
    } else {
        eg_sum(men, n - 1) + match men[n - 1] {
            Some(man) => signed_for(
                man.1,
                EG_VALUE@[man.0 as int] + eg_square(man.0, table_index(man.1, n - 1)),
            ),
            None => 0,
        }
    }
}

/// Phase weight of the men on the first `n` squares.
pub open spec fn phase_sum(men: Seq<Option<(u8, u8)>>, n: int) -> int
    decreases n,
{
    if n <= 0 {
        0
    } else {
        phase_sum(men, n - 1) + match men[n - 1] {
            Some(man) => PHASE_W@[man.0 as int] as int,
            None => 0,
        }
    }
}

/// Division that rounds toward zero, for a positive divisor.
pub open spec fn quotient(a: int, b: int) -> int {
    if a >= 0 {
        a / b
    } else {
        -((-a) / b)
    }
}

/// The tapered score for the side to move.
pub open spec fn evaluation(p: PosView) -> int {
    let total = phase_sum(p.men, 64);
    let phase = if total < 24 {
        total
    } else {
        24
    };
    let score = quotient(mg_sum(p.men, 64) * phase + eg_sum(p.men, 64) * (24 - phase), 24);
    signed_for(p.side, score)
}

/// The middlegame and endgame entry of a piece's tables.
fn tables(p: u8, i: usize) -> (r: (i32, i32))
    requires
        p < 6,
        i < 64,
    ensures
        r.0 == mg_square(p, i as int),
        r.1 == eg_square(p, i as int),
{
    if p == 0 {
        (MG_PAWN_TABLE[i] as i32, EG_PAWN_TABLE[i] as i32)
    } else if p == 1 {
        (MG_KNIGHT_TABLE[i] as i32, EG_KNIGHT_TABLE[i] as i32)
    } else if p == 2 {
        (MG_BISHOP_TABLE[i] as i32, EG_BISHOP_TABLE[i] as i32)
    } else if p == 3 {
        (MG_ROOK_TABLE[i] as i32, EG_ROOK_TABLE[i] as i32)
    } else if p == 4 {
        (MG_QUEEN_TABLE[i] as i32, EG_QUEEN_TABLE[i] as i32)
    } else {
        (MG_KING_TABLE[i] as i32, EG_KING_TABLE[i] as i32)
    }
}

/// The rank-mirrored square.
pub fn mirror(s: u8) -> (r: u8)
    requires
        s < 64,
    ensures
        r == mirrored(s as int),
        r < 64,
{
    assert(s ^ 56 == 8 * (7 - s / 8) + s % 8) by (bit_vector)
        requires
            s < 64,
    ;
    s ^ 56
}

proof fn lemma_phase_weight(p: int)
    requires
        0 <= p < 6,
    ensures
        0 <= PHASE_W@[p] <= 4,
{
    assert(p == 0 || p == 1 || p == 2 || p == 3 || p == 4 || p == 5);
}

/// The evaluation of a position for the side to move.
pub fn evaluate(board: &Position) -> (r: i32)
    requires
        accepted(board@),
    ensures
        r == evaluation(board@),
        -EVAL_LIMIT <= r <= EVAL_LIMIT,
{
    let mut mg: i32 = 0;
    let mut eg: i32 = 0;
    let mut phase: i32 = 0;
    let mut s: u8 = 0;
    while s < 64
        invariant
            s <= 64,
            accepted(board@),
            mg == mg_sum(board@.men, s as int),
            eg == eg_sum(board@.men, s as int),
            phase == phase_sum(board@.men, s as int),
            -65536 * s <= mg <= 65536 * s,
            -65536 * s <= eg <= 65536 * s,
            0 <= phase <= 4 * s,
        decreases 64 - s,
    {
        match board.man(s) {
            Some((p, c)) => {
                assert(board@.men[s as int] == Some((p, c)));
                let i: u8 = if c == WHITE {
                    mirror(s)
                } else {
                    s
                };
                let (m, e): (i32, i32) = tables(p, i as usize);
                proof {
                    lemma_phase_weight(p as int);
                }
                let mv: i32 = MG_VALUE[p as usize] as i32 + m;
                let ev: i32 = EG_VALUE[p as usize] as i32 + e;
                if c == WHITE {
                    mg = mg + mv;
                    eg = eg + ev;
                } else {
                    mg = mg - mv;
                    eg = eg - ev;
                }
                phase = phase + PHASE_W[p as usize];
            },
            None => {},
        }
        s = s + 1;
    }
    let ph: i32 = if phase < 24 {
        phase
    } else {
        24
    };
    let lim: i32 = 65536 * 64;
    assert(-lim * 24 <= mg * ph + eg * (24 - ph) <= lim * 24 && -lim * 24 <= mg * ph <= lim * 24
        && -lim * 24 <= eg * (24 - ph) <= lim * 24) by (nonlinear_arith)
        requires
            -lim <= mg <= lim,
            -lim <= eg <= lim,
            0 <= ph <= 24,
            lim == 65536 * 64,
    ;
    let t: i32 = mg * ph + eg * (24 - ph);
    let score: i32 = t / 24;
    assert(score == quotient(t as int, 24));
    if board.side_to_move() == WHITE {
        score
    } else {
        -score
    }
}

pub open spec fn value_of(p: u8) -> int {
    MG_VALUE@[p as int] as int
}

/// Piece value in centipawns, for move ordering and exchanges.
pub fn piece_val(p: u8) -> (r: i32)
    requires
        p < 6,
    ensures
        r == value_of(p),
        0 <= r <= 1025,
{
    assert(p == 0 || p == 1 || p == 2 || p == 3 || p == 4 || p == 5);
    MG_VALUE[p as usize] as i32
}

/// The same board with the other side to move has the opposite evaluation.
pub proof fn law_evaluation_changes_sign_with_the_mover(p: PosView, q: PosView)
    requires
        p.men == q.men,
        p.side < 2,
        q.side < 2,
        p.side != q.side,
    ensures
        evaluation(p) == -evaluation(q),
{
}

/// A board turned round: every man on the mirrored square, in the other colour.
pub open spec fn turned(men: Seq<Option<(u8, u8)>>) -> Seq<Option<(u8, u8)>> {
    Seq::new(
        64,
        |s: int|
            match men[mirrored(s)] {
                Some(man) => Some((man.0, opposite(man.1))),
                None => None,
            },
    )
}

/// Files up to `f` of a rank of the turned board count for what the mirrored rank counts, with the
/// colours exchanged.
proof fn lemma_turned_rank(men: Seq<Option<(u8, u8)>>, r: int, f: int)
    requires
        men.len() == 64,
        forall|s: int| 0 <= s < 64 ==> (#[trigger] men[s] matches Some(man) ==> man.1 < 2),
        0 <= r < 8,
        0 <= f <= 8,
    ensures
        ({
            let (a, b) = (8 * r, 8 * (7 - r));
            let t = turned(men);
            &&& mg_sum(t, a + f) - mg_sum(t, a) == mg_sum(men, b) - mg_sum(men, b + f)
            &&& eg_sum(t, a + f) - eg_sum(t, a) == eg_sum(men, b) - eg_sum(men, b + f)
            &&& phase_sum(t, a + f) - phase_sum(t, a) == phase_sum(men, b + f) - phase_sum(men, b)
        }),
    decreases f,
{
    if f > 0 {
        lemma_turned_rank(men, r, f - 1);
        let s = 8 * r + f - 1;
        let m = 8 * (7 - r) + f - 1;
        assert(mirrored(s) == m && mirrored(m) == s);
        assert(turned(men)[s] == match men[m] {
            Some(man) => Some((man.0, opposite(man.1))),
            None => None,
        });
    }
}

proof fn lemma_turned(men: Seq<Option<(u8, u8)>>, r: int)
    requires
        men.len() == 64,
        forall|s: int| 0 <= s < 64 ==> (#[trigger] men[s] matches Some(man) ==> man.1 < 2),
        0 <= r <= 8,
    ensures
        ({
            let t = turned(men);
            let b = 8 * (8 - r);
            &&& mg_sum(t, 8 * r) == mg_sum(men, b) - mg_sum(men, 64)
            &&& eg_sum(t, 8 * r) == eg_sum(men, b) - eg_sum(men, 64)
            &&& phase_sum(t, 8 * r) == phase_sum(men, 64) - phase_sum(men, b)
        }),
    decreases r,
{
    if r > 0 {
        lemma_turned(men, r - 1);
        lemma_turned_rank(men, r - 1, 8);
    }
}

/// The evaluation has no favourite: with the board turned round and the other side to move it is
/// the same.
pub proof fn law_evaluation_has_no_favourite(p: PosView, q: PosView)
    requires
        accepted(p),
        q.men == turned(p.men),
        q.side == opposite(p.side),
    ensures
        evaluation(q) == evaluation(p),
{
    lemma_turned(p.men, 8);
    let total = phase_sum(p.men, 64);
    let phase = if total < 24 {
        total
    } else {
        24
    };
    let mg = mg_sum(p.men, 64);
    let eg = eg_sum(p.men, 64);
    assert((-mg) * phase + (-eg) * (24 - phase) == -(mg * phase + eg * (24 - phase))) by (nonlinear_arith);
}

// ---------------- laws ----------------
/// Putting a man on a square changes a sum by what the man is worth there, once the square has been
/// passed.
proof fn lemma_sums_with_a_man(men: Seq<Option<(u8, u8)>>, s: int, man: (u8, u8), n: int)
    requires
        0 <= s < men.len(),
        0 <= n <= men.len(),
        men[s] is None,
    ensures
        ({
            let more = men.update(s, Some(man));
            &&& mg_sum(more, n) - mg_sum(men, n) == if s < n {
                signed_for(man.1, MG_VALUE@[man.0 as int] + mg_square(man.0, table_index(man.1, s)))
            } else {
                0
            }
            &&& eg_sum(more, n) - eg_sum(men, n) == if s < n {
                signed_for(man.1, EG_VALUE@[man.0 as int] + eg_square(man.0, table_index(man.1, s)))
            } else {
                0
            }
            &&& phase_sum(more, n) - phase_sum(men, n) == if s < n {
                PHASE_W@[man.0 as int] as int
            } else {
                0
            }
        }),
    decreases n,
{
    if n > 0 {
        lemma_sums_with_a_man(men, s, man, n - 1);
    }
}

/// A man adds to its own side's scores what it is worth and what its square is worth to it, seen from
/// its own side of the board. Minor pieces count one towards the phase, rooks two and queens four.
pub proof fn law_men_add_their_worth(men: Seq<Option<(u8, u8)>>, s: int, piece: u8)
    requires
        men.len() == 64,
        0 <= s < 64,
        men[s] is None,
        piece < 6,
    ensures
        ({
            let white = men.update(s, Some((piece, 0u8)));
            let black = men.update(s, Some((piece, 1u8)));
            let phase = phase_sum(white, 64) - phase_sum(men, 64);
            let mg = mg_sum(white, 64) - mg_sum(men, 64) - mg_square(piece, mirrored(s));
            let eg = eg_sum(white, 64) - eg_sum(men, 64) - eg_square(piece, mirrored(s));
            &&& phase == phase_sum(black, 64) - phase_sum(men, 64)
            &&& mg == -(mg_sum(black, 64) - mg_sum(men, 64)) - mg_square(piece, s)
            &&& eg == -(eg_sum(black, 64) - eg_sum(men, 64)) - eg_square(piece, s)
            &&& piece == 0 ==> phase == 0 && mg == 82 && eg == 94
            &&& piece == 1 ==> phase == 1 && mg == 337 && eg == 281
            &&& piece == 2 ==> phase == 1 && mg == 365 && eg == 297
            &&& piece == 3 ==> phase == 2 && mg == 477 && eg == 512
            &&& piece == 4 ==> phase == 4 && mg == 1025 && eg == 936
            &&& piece == 5 ==> phase == 0 && mg == 0 && eg == 0
        }),
{
    lemma_sums_with_a_man(men, s, (piece, 0u8), 64);
    lemma_sums_with_a_man(men, s, (piece, 1u8), 64);
}

/// With all pieces on the board the middlegame score counts alone, without any the endgame score, and
/// in between the evaluation lies between the two, weighted by the pieces.
pub proof fn law_evaluation_tapers(p: PosView)
    requires
        p.side == 0,
        phase_sum(p.men, 64) >= 0,
    ensures
        ({
            let (mg, eg, k, v) = (mg_sum(p.men, 64), eg_sum(p.men, 64), phase_sum(p.men, 64), evaluation(p));
            &&& k >= 24 ==> v == mg
            &&& k == 0 ==> v == eg
            &&& mg <= eg ==> mg <= v <= eg
            &&& eg <= mg ==> eg <= v <= mg
            &&& k <= 24 ==> -24 < mg * k + eg * (24 - k) - 24 * v < 24
        }),
{
    let (mg, eg) = (mg_sum(p.men, 64), eg_sum(p.men, 64));
    let total = phase_sum(p.men, 64);
    let k = if total < 24 {
        total
    } else {
        24
    };
    assert(mg <= eg ==> 24 * mg <= mg * k + eg * (24 - k) <= 24 * eg) by (nonlinear_arith)
        requires
            0 <= k <= 24,
    ;
    assert(eg <= mg ==> 24 * eg <= mg * k + eg * (24 - k) <= 24 * mg) by (nonlinear_arith)
        requires
            0 <= k <= 24,
    ;
    assert(k == 24 ==> mg * k + eg * (24 - k) == 24 * mg) by (nonlinear_arith);
    assert(k == 0 ==> mg * k + eg * (24 - k) == 24 * eg) by (nonlinear_arith);
}

/// Division rounds towards zero: alike for both signs, and never past the exact quotient.
pub proof fn law_division_rounds_towards_zero(a: int, b: int)
    requires
        b >= 1,
    ensures
        quotient(-a, b) == -quotient(a, b),
        a >= 0 ==> b * quotient(a, b) <= a < b * quotient(a, b) + b,
        a <= 0 ==> b * quotient(a, b) - b < a <= b * quotient(a, b),
{
    let n = if a >= 0 {
        a
    } else {
        -a
    };
    vstd::arithmetic::div_mod::lemma_fundamental_div_mod(n, b);
    vstd::arithmetic::div_mod::lemma_mod_bound(n, b);
    vstd::arithmetic::div_mod::lemma_div_of0(b);
    assert(b * (-(n / b)) == -(b * (n / b))) by (nonlinear_arith);
}

} // verus!

//! Static exchange evaluation: what a capture wins when both sides keep recapturing on its
//! square with the least valuable man at hand.
use vstd::prelude::*;
use crate::attacks::{
    bishop_moves, bishop_reaches, king_moves, king_reaches, knight_moves, knight_reaches,
    line_length, line_step, on_one_diagonal, on_one_line, open_line, pawn_attacks, pawn_reaches,
    rook_moves, rook_reaches, sign,
};
use crate::board::{
    accepted, bit, checkers_ok, colour_at, file_of, gives_check, king_at, king_square,
    lemma_bit_clear, lemma_bit_set, lemma_bit_zero, lemma_same_bits, line_clear, opposite, piece_at,
    rank_of, wf, Move, PosView, Position, BISHOP, BLACK, KING, KNIGHT, PAWN, QUEEN, ROOK, WHITE,
};
use crate::eval::{piece_val, value_of};

verus! {

/// The man on `s` attacks `t` when only the squares of `occ` are occupied. Sliders and jumpers
/// are looked up from the target; a pawn is met by the attack of an enemy pawn from there.
pub open spec fn attacks(men: Seq<Option<(u8, u8)>>, occ: u64, t: int, s: int) -> bool {
    &&& bit(occ, s)
    &&& match men[s] {
        None => false,
        Some(man) => if man.0 == PAWN {
            pawn_reaches(opposite(man.1), t, s)
        } else if man.0 == KNIGHT {
            knight_reaches(t, s)
        } else if man.0 == BISHOP {
            bishop_reaches(occ, t, s)
        } else if man.0 == ROOK {
            rook_reaches(occ, t, s)
        } else if man.0 == QUEEN {
            bishop_reaches(occ, t, s) || rook_reaches(occ, t, s)
        } else {
            king_reaches(t, s)
        },
    }
}

/// A man of colour `c` on `s` attacks `t`.
pub open spec fn attacks_for(men: Seq<Option<(u8, u8)>>, occ: u64, t: int, c: u8, s: int) -> bool {
    0 <= s < 64 && attacks(men, occ, t, s) && colour_at(men, s) == c
}

/// No attacker of colour `c` is worth less than the one on `s`, nor as much on a lower square.
pub open spec fn least_attacker(
    men: Seq<Option<(u8, u8)>>,
    occ: u64,
    t: int,
    c: u8,
    s: int,
) -> bool {
    &&& attacks_for(men, occ, t, c, s)
    &&& forall|o: int| #[trigger]
        attacks_for(men, occ, t, c, o) ==> piece_at(men, s) < piece_at(men, o) || (piece_at(men, s)
            == piece_at(men, o) && s <= o)
}

/// The set `occ` without square `s`.
pub open spec fn without(occ: u64, s: int) -> u64 {
    occ ^ (1u64 << (s as u64))
}

/// The square colour `c` captures from next, if it can: the least attacker, unless that is the
/// king and the other side still attacks the target.
pub open spec fn capturer(men: Seq<Option<(u8, u8)>>, occ: u64, t: int, c: u8) -> Option<int> {
    if exists|s: int| least_attacker(men, occ, t, c, s) {
        let s = choose|s: int| least_attacker(men, occ, t, c, s);
        if piece_at(men, s) == KING && exists|o: int| attacks_for(men, without(occ, s), t, opposite(c), o) {
            None
        } else {
            Some(s)
        }
    } else {
        None
    }
}

pub open spec fn larger(a: int, b: int) -> int {
    if a >= b {
        a
    } else {
        b
    }
}

/// What the side that has just gained `gain` on `t` is left with when colour `c` may recapture
/// `victim` there, and so on. Once neither side can improve, the exchange is cut short.
pub open spec fn swap_off(
    men: Seq<Option<(u8, u8)>>,
    occ: u64,
    t: int,
    c: u8,
    victim: u8,
    gain: int,
) -> int
    decreases occ,
{
    match capturer(men, occ, t, c) {
        None => gain,
        Some(s) => {
            let next = value_of(victim) - gain;
            if larger(-gain, next) < 0 {
                -larger(-gain, next)
            } else {
                proof {
                    lemma_bit_clear(occ, s as u64);
                }
                -larger(
                    -gain,
                    swap_off(men, without(occ, s), t, opposite(c), piece_at(men, s), next),
                )
            }
        },
    }
}

/// What the exchange is worth to colour `c`, which may capture `victim` on `t` or leave it, when
/// both sides do their best and nothing is cut short.
pub open spec fn exchange(
    men: Seq<Option<(u8, u8)>>,
    occ: u64,
    t: int,
    c: u8,
    victim: u8,
) -> int
    decreases occ,
{
    match capturer(men, occ, t, c) {
        None => 0,
        Some(s) => {
            proof {
                lemma_bit_clear(occ, s as u64);
            }
            larger(
                0,
                value_of(victim) - exchange(
                    men,
                    without(occ, s),
                    t,
                    opposite(c),
                    piece_at(men, s),
                ),
            )
        },
    }
}

/// Value of what a move takes: the man on its destination, or a pawn en passant.
pub open spec fn captured_value(p: PosView, m: Move, attacker: u8) -> int {
    let direct = match p.men[m.to as int] {
        Some(man) => value_of(man.0),
        None => 0,
    };
    if direct == 0 && attacker == PAWN && m.from % 8 != m.to % 8 {
        value_of(PAWN)
    } else {
        direct
    }
}

/// `occ` is the set of occupied squares.
pub open spec fn occupancy(men: Seq<Option<(u8, u8)>>, occ: u64) -> bool {
    forall|t: int| 0 <= t < 64 ==> bit(occ, t) == (#[trigger] men[t] is Some)
}

/// The set of occupied squares.
pub open spec fn occupied_set(men: Seq<Option<(u8, u8)>>) -> u64 {
    choose|occ: u64| occupancy(men, occ)
}

/// The exchange value of a move by `attacker`.
pub open spec fn see_of(p: PosView, m: Move, attacker: u8) -> int {
    see_value(p, occupied_set(p.men), m, attacker)
}

/// The exchange value of a move by `attacker`, given the set of occupied squares.
pub open spec fn see_value(p: PosView, occ: u64, m: Move, attacker: u8) -> int {
    swap_off(
        p.men,
        without(occ, m.from as int),
        m.to as int,
        opposite(p.side),
        attacker,
        captured_value(p, m, attacker),
    )
}

/// The exchange value of a move by `attacker` when nothing is cut short.
pub open spec fn full_see_value(p: PosView, occ: u64, m: Move, attacker: u8) -> int {
    captured_value(p, m, attacker) - exchange(
        p.men,
        without(occ, m.from as int),
        m.to as int,
        opposite(p.side),
        attacker,
    )
}

/// The men of either colour that attack `t`, given the occupied squares.
fn attackers_to(board: &Position, t: u8, occ: u64) -> (r: u64)
    requires
        wf(board@),
        t < 64,
    ensures
        forall|s: int| 0 <= s < 64 ==> (#[trigger] bit(r, s) <==> attacks(board@.men, occ, t as int, s)),
{
    let kn: u64 = knight_moves(t);
    let kg: u64 = king_moves(t);
    let ro: u64 = rook_moves(t, occ);
    let bi: u64 = bishop_moves(t, occ);
    let wp: u64 = pawn_attacks(t, WHITE);
    let bp: u64 = pawn_attacks(t, BLACK);
    let mut r: u64 = 0;
    let mut s: u8 = 0;
    proof {
        assert forall|u: int| 0 <= u < 64 implies !bit(r, u) by {
            lemma_bit_zero(u as u64);
        }
    }
    while s < 64
        invariant
            s <= 64,
            t < 64,
            wf(board@),
            forall|u: int| 0 <= u < 64 ==> (#[trigger] bit(kn, u) <==> knight_reaches(t as int, u)),
            forall|u: int| 0 <= u < 64 ==> (#[trigger] bit(kg, u) <==> king_reaches(t as int, u)),
            forall|u: int| 0 <= u < 64 ==> (#[trigger] bit(ro, u) <==> rook_reaches(occ, t as int, u)),
            forall|u: int| 0 <= u < 64 ==> (#[trigger] bit(bi, u) <==> bishop_reaches(occ, t as int, u)),
            forall|u: int| 0 <= u < 64 ==> (#[trigger] bit(wp, u) <==> pawn_reaches(WHITE, t as int, u)),
            forall|u: int| 0 <= u < 64 ==> (#[trigger] bit(bp, u) <==> pawn_reaches(BLACK, t as int, u)),
            forall|u: int|
                0 <= u < 64 ==> (#[trigger] bit(r, u) <==> u < s && attacks(board@.men, occ, t as int, u)),
        decreases 64 - s,
    {
        let ghost before = r;
        if has(occ, s) {
            match board.man(s) {
                Some((p, c)) => {
                    assert(board@.men[s as int] == Some((p, c)));
                    let reach: u64 = if p == PAWN {
                        if c == WHITE {
                            bp
                        } else {
                            wp
                        }
                    } else if p == KNIGHT {
                        kn
                    } else if p == BISHOP {
                        bi
                    } else if p == ROOK {
                        ro
                    } else if p == QUEEN {
                        bi | ro
                    } else {
                        kg
                    };
                    proof {
                        lemma_bit_or(bi, ro, s as u64);
                    }
                    assert(bit(reach, s as int) == attacks(board@.men, occ, t as int, s as int));
                    if has(reach, s) {
                        proof {
                            assert forall|u: int| 0 <= u < 64 implies bit(r | (1u64 << s), u) == (bit(r, u) || u == s) by {
                                lemma_bit_set(r, s as u64, u as u64);
                            }
                        }
                        r = r | (1u64 << s);
                    }
                },
                None => {},
            }
        }
        assert forall|u: int| 0 <= u < 64 implies (#[trigger] bit(r, u) <==> u < s + 1 && attacks(
            board@.men,
            occ,
            t as int,
            u,
        )) by {
            assert(bit(before, u) <==> u < s && attacks(board@.men, occ, t as int, u));
            if u == s {
                assert(bit(r, u) <==> attacks(board@.men, occ, t as int, u));
            }
        }
        s = s + 1;
    }
    r
}

/// Bit `s` of `w`.
pub fn has(w: u64, s: u8) -> (r: bool)
    requires
        s < 64,
    ensures
        r == bit(w, s as int),
{
    (w >> s) & 1 == 1
}

proof fn lemma_bit_or(a: u64, b: u64, s: u64)
    requires
        s < 64,
    ensures
        bit(a | b, s as int) == (bit(a, s as int) || bit(b, s as int)),
{
    assert((((a | b) >> s) & 1 == 1) == ((a >> s) & 1 == 1 || (b >> s) & 1 == 1)) by (bit_vector)
        requires
            s < 64,
    ;
}

/// The least valuable man of colour `c` in a set of attackers, the lowest square first.
fn least_valuable(board: &Position, set: u64, t: u8, occ: u64, c: u8) -> (r: Option<(u8, u8)>)
    requires
        wf(board@),
        c < 2,
        t < 64,
        forall|s: int| 0 <= s < 64 ==> (#[trigger] bit(set, s) <==> attacks(board@.men, occ, t as int, s)),
    ensures
        match r {
            Some(x) => x.0 < 64 && x.1 < 6 && least_attacker(board@.men, occ, t as int, c, x.0 as int) && piece_at(
                board@.men,
                x.0 as int,
            ) == x.1,
            None => forall|s: int| !#[trigger] attacks_for(board@.men, occ, t as int, c, s),
        },
{
    let mut best: Option<(u8, u8)> = None;
    let mut s: u8 = 0;
    while s < 64
        invariant
            s <= 64,
            c < 2,
            t < 64,
            wf(board@),
            forall|u: int| 0 <= u < 64 ==> (#[trigger] bit(set, u) <==> attacks(board@.men, occ, t as int, u)),
            match best {
                Some(x) => x.0 < s && x.1 < 6 && attacks_for(board@.men, occ, t as int, c, x.0 as int) && piece_at(
                    board@.men,
                    x.0 as int,
                ) == x.1 && forall|o: int|
                    o < s && #[trigger] attacks_for(board@.men, occ, t as int, c, o) ==> x.1 < piece_at(
                        board@.men,
                        o,
                    ) || (x.1 == piece_at(board@.men, o) && x.0 <= o),
                None => forall|o: int| o < s ==> !#[trigger] attacks_for(board@.men, occ, t as int, c, o),
            },
        decreases 64 - s,
    {
        if has(set, s) {
            match board.man(s) {
                Some((p, k)) => {
                    assert(board@.men[s as int] == Some((p, k)));
                    if k == c {
                        assert(attacks_for(board@.men, occ, t as int, c, s as int));
                        match best {
                            Some((_, q)) => {
                                if p < q {
                                    best = Some((s, p));
                                }
                            },
                            None => {
                                best = Some((s, p));
                            },
                        }
                    }
                },
                None => {},
            }
        }
        s = s + 1;
    }
    best
}

/// Whether any man of colour `c` is in a set of attackers.
fn any_of(board: &Position, set: u64, t: u8, occ: u64, c: u8) -> (r: bool)
    requires
        wf(board@),
        c < 2,
        t < 64,
        forall|s: int| 0 <= s < 64 ==> (#[trigger] bit(set, s) <==> attacks(board@.men, occ, t as int, s)),
    ensures
        r == exists|s: int| attacks_for(board@.men, occ, t as int, c, s),
{
    match least_valuable(board, set, t, occ, c) {
        Some((_s, _p)) => {
            assert(attacks_for(board@.men, occ, t as int, c, _s as int));
            true
        },
        None => false,
    }
}

proof fn lemma_least_is_unique(men: Seq<Option<(u8, u8)>>, occ: u64, t: int, c: u8, a: int, b: int)
    requires
        least_attacker(men, occ, t, c, a),
        least_attacker(men, occ, t, c, b),
    ensures
        a == b,
{
    assert(attacks_for(men, occ, t, c, a));
    assert(attacks_for(men, occ, t, c, b));
}

/// The next capture on `t` by colour `c`: its square and piece.
fn next_capture(board: &Position, t: u8, occ: u64, c: u8) -> (r: Option<(u8, u8)>)
    requires
        wf(board@),
        t < 64,
        c < 2,
    ensures
        match r {
            Some(x) => x.0 < 64 && x.1 < 6 && capturer(board@.men, occ, t as int, c) == Some(x.0 as int) && piece_at(
                board@.men,
                x.0 as int,
            ) == x.1 && bit(occ, x.0 as int),
            None => capturer(board@.men, occ, t as int, c) is None,
        },
{
    let atk: u64 = attackers_to(board, t, occ);
    match least_valuable(board, atk, t, occ, c) {
        None => {
            assert forall|s: int| !least_attacker(board@.men, occ, t as int, c, s) by {
                assert(!attacks_for(board@.men, occ, t as int, c, s));
            }
            None
        },
        Some((s, p)) => {
            let ghost k = choose|k: int| least_attacker(board@.men, occ, t as int, c, k);
            proof {
                lemma_least_is_unique(board@.men, occ, t as int, c, s as int, k);
                lemma_bit_clear(occ, s as u64);
            }
            if p == KING {
                let rest: u64 = occ ^ (1u64 << s);
                let o: u8 = if c == WHITE {
                    BLACK
                } else {
                    WHITE
                };
                assert(rest == without(occ, k));
                assert(o == opposite(c));
                let after: u64 = attackers_to(board, t, rest);
                if any_of(board, after, t, rest, o) {
                    return None;
                }
            }
            Some((s, p))
        },
    }
}

/// Plays out the exchange on `t` from the point where `gain` has been won and colour `c` may
/// take back `victim`.
fn swap(board: &Position, t: u8, occ: u64, c: u8, victim: u8, gain: i32) -> (r: i32)
    requires
        wf(board@),
        t < 64,
        c < 2,
        victim < 6,
        0 <= gain <= 1025,
    ensures
        r == swap_off(board@.men, occ, t as int, c, victim, gain as int),
        -1025 <= r <= 1025,
    decreases occ,
{
    match next_capture(board, t, occ, c) {
        None => gain,
        Some((s, p)) => {
            proof {
                lemma_bit_clear(occ, s as u64);
            }
            let next: i32 = piece_val(victim) - gain;
            let stay: i32 = if -gain >= next {
                -gain
            } else {
                next
            };
            if stay < 0 {
                -stay
            } else {
                let o: u8 = if c == WHITE {
                    BLACK
                } else {
                    WHITE
                };
                let rest: i32 = swap(board, t, occ ^ (1u64 << s), o, p, next);
                if -gain >= rest {
                    gain
                } else {
                    -rest
                }
            }
        },
    }
}

/// The exchange value of a move, zero where no man stands on its origin.
pub fn see(board: &Position, mv: Move) -> (r: i32)
    requires
        wf(board@),
        mv.from < 64,
        mv.to < 64,
    ensures
        -1025 <= r <= 1025,
        match board@.men[mv.from as int] {
            Some(man) => r == see_of(board@, mv, man.0),
            None => r == 0,
        },
{
    match board.man(mv.from) {
        Some((p, _c)) => {
            assert(board@.men[mv.from as int] == Some((p, _c)));
            see_with(board, mv, p)
        },
        None => 0,
    }
}

/// The exchange value of a move by a known piece.
pub fn see_with(board: &Position, mv: Move, attacker: u8) -> (r: i32)
    requires
        wf(board@),
        mv.from < 64,
        mv.to < 64,
        attacker < 6,
        board@.men[mv.from as int] is Some,
    ensures
        -1025 <= r <= 1025,
        r == see_of(board@, mv, attacker),
{
    let mut captured: i32 = match board.man(mv.to) {
        Some((p, _c)) => {
            assert(board@.men[mv.to as int] == Some((p, _c)));
            piece_val(p)
        },
        None => 0,
    };
    if captured == 0 && attacker == PAWN && mv.from % 8 != mv.to % 8 {
        captured = piece_val(PAWN);
    }
    let all: u64 = board.occupied();
    let occ: u64 = all ^ (1u64 << mv.from);
    let o: u8 = if board.side_to_move() == WHITE {
        BLACK
    } else {
        WHITE
    };
    proof {
        assert forall|w: u64| #[trigger] occupancy(board@.men, w) implies w == all by {
            assert forall|u: int| 0 <= u < 64 implies #[trigger] bit(w, u) == bit(all, u) by {
                assert(bit(w, u) == (board@.men[u] is Some));
            }
            lemma_same_bits(w, all);
        }
        assert(occupancy(board@.men, all));
    }
    swap(board, mv.to, occ, o, attacker, captured)
}

proof fn lemma_values(p: int)
    requires
        0 <= p < 6,
    ensures
        0 <= value_of(p as u8),
{
    assert(p == 0 || p == 1 || p == 2 || p == 3 || p == 4 || p == 5);
}

/// Every man is one of the six pieces.
pub open spec fn pieces_ok(men: Seq<Option<(u8, u8)>>) -> bool {
    forall|s: int| 0 <= s < 64 ==> (#[trigger] men[s] matches Some(man) ==> man.0 < 6)
}

proof fn lemma_capturer(men: Seq<Option<(u8, u8)>>, occ: u64, t: int, c: u8)
    requires
        pieces_ok(men),
    ensures
        capturer(men, occ, t, c) matches Some(s) ==> 0 <= s < 64 && bit(occ, s) && piece_at(men, s) < 6,
{
}

proof fn lemma_swap(men: Seq<Option<(u8, u8)>>, occ: u64, t: int, c: u8, victim: u8, gain: int)
    requires
        pieces_ok(men),
        victim < 6,
        gain >= 0,
    ensures
        ({
            let cut = swap_off(men, occ, t, c, victim, gain);
            let full = gain - exchange(men, occ, t, c, victim);
            &&& cut > 0 <==> full > 0
            &&& cut < 0 <==> full < 0
            &&& gain - value_of(victim) <= cut <= gain
        }),
        exchange(men, occ, t, c, victim) >= 0,
    decreases occ,
{
    lemma_capturer(men, occ, t, c);
    lemma_values(victim as int);
    match capturer(men, occ, t, c) {
        None => {},
        Some(s) => {
            lemma_bit_clear(occ, s as u64);
            let next = value_of(victim) - gain;
            lemma_values(piece_at(men, s) as int);
            if larger(-gain, next) < 0 {
                lemma_swap(men, without(occ, s), t, opposite(c), piece_at(men, s), 0);
            } else {
                lemma_swap(men, without(occ, s), t, opposite(c), piece_at(men, s), next);
            }
        },
    }
}

proof fn lemma_exchange(p: PosView, occ: u64, m: Move, attacker: u8)
    requires
        wf(p),
        m.to < 64,
        attacker < 6,
    ensures
        captured_value(p, m, attacker) - value_of(attacker) <= see_value(p, occ, m, attacker),
        see_value(p, occ, m, attacker) <= captured_value(p, m, attacker),
        see_value(p, occ, m, attacker) > 0 <==> full_see_value(p, occ, m, attacker) > 0,
        see_value(p, occ, m, attacker) < 0 <==> full_see_value(p, occ, m, attacker) < 0,
{
    lemma_values(PAWN as int);
    assert(captured_value(p, m, attacker) >= 0) by {
        match p.men[m.to as int] {
            Some(man) => {
                lemma_values(man.0 as int);
            },
            None => {},
        }
    }
    lemma_swap(
        p.men,
        without(occ, m.from as int),
        m.to as int,
        opposite(p.side),
        attacker,
        captured_value(p, m, attacker),
    );
}

/// Cutting an exchange short never changes whether it wins, loses or breaks even.
pub proof fn law_cut_exchange_keeps_its_sign(p: PosView, occ: u64, m: Move, attacker: u8)
    requires
        wf(p),
        m.to < 64,
        attacker < 6,
    ensures
        see_value(p, occ, m, attacker) > 0 <==> full_see_value(p, occ, m, attacker) > 0,
        see_value(p, occ, m, attacker) < 0 <==> full_see_value(p, occ, m, attacker) < 0,
{
    lemma_exchange(p, occ, m, attacker);
}

/// An exchange wins at most what the move takes and loses at most the man that moves.
pub proof fn law_exchange_is_bounded(p: PosView, occ: u64, m: Move, attacker: u8)
    requires
        wf(p),
        m.to < 64,
        attacker < 6,
    ensures
        captured_value(p, m, attacker) - value_of(attacker) <= see_value(p, occ, m, attacker),
        see_value(p, occ, m, attacker) <= captured_value(p, m, attacker),
{
    lemma_exchange(p, occ, m, attacker);
}

// ---------------- laws ----------------
/// A queen attacks what a bishop or a rook would attack from where it stands.
pub proof fn law_queens_attack_as_rooks_and_bishops(men: Seq<Option<(u8, u8)>>, occ: u64, t: int, s: int, c: u8)
    requires
        0 <= s < men.len(),
        men[s] == Some((4u8, c)),
    ensures
        attacks(men, occ, t, s) <==> attacks(men.update(s, Some((2u8, c))), occ, t, s) || attacks(
            men.update(s, Some((3u8, c))),
            occ,
            t,
            s,
        ),
{
}

/// A line is as long from either end, and each of its squares lies on the board.
proof fn lemma_on_the_way(a: int, b: int, k: int)
    requires
        0 <= a < 64,
        0 <= b < 64,
        on_one_line(a, b) || on_one_diagonal(a, b),
        0 <= k <= line_length(a, b),
    ensures
        line_length(b, a) == line_length(a, b),
        line_step(b, a) == -line_step(a, b),
        0 <= a + k * line_step(a, b) < 64,
        b + (line_length(a, b) - k) * line_step(b, a) == a + k * line_step(a, b),
{
    let r = rank_of(b) - rank_of(a);
    let f = file_of(b) - file_of(a);
    let (sr, sf) = (sign(r), sign(f));
    let n = line_length(a, b);
    assert(line_step(a, b) == 8 * sr + sf);
    assert(line_step(b, a) == -(8 * sr + sf));
    assert(n * sr == r) by (nonlinear_arith)
        requires
            (sr == 1 && n == r) || (sr == -1 && n == -r) || (sr == 0 && r == 0),
    ;
    assert(n * sf == f) by (nonlinear_arith)
        requires
            (sf == 1 && n == f) || (sf == -1 && n == -f) || (sf == 0 && f == 0),
    ;
    assert(k * sr == if sr == 1 {
        k
    } else if sr == -1 {
        -k
    } else {
        0
    }) by (nonlinear_arith)
        requires
            sr == 1 || sr == -1 || sr == 0,
    ;
    assert(k * sf == if sf == 1 {
        k
    } else if sf == -1 {
        -k
    } else {
        0
    }) by (nonlinear_arith)
        requires
            sf == 1 || sf == -1 || sf == 0,
    ;
    assert(k * (8 * sr + sf) == 8 * (k * sr) + k * sf) by (nonlinear_arith);
    assert((n - k) * (-(8 * sr + sf)) == -(8 * (n * sr) + n * sf) + 8 * (k * sr) + k * sf) by (nonlinear_arith);
}

/// A line is clear of men from one end exactly where it is open from the other.
proof fn lemma_lines_open_both_ways(men: Seq<Option<(u8, u8)>>, occ: u64, t: int, s: int)
    requires
        occupancy(men, occ),
        0 <= s < 64,
        0 <= t < 64,
        on_one_line(t, s) || on_one_diagonal(t, s),
    ensures
        open_line(occ, t, s) <==> line_clear(men, s, t),
{
    lemma_on_the_way(t, s, 0);
    let n = line_length(t, s);
    if open_line(occ, t, s) {
        assert forall|k: int| 0 < k < line_length(s, t) implies #[trigger] men[s + k * line_step(s, t)] is None by {
            lemma_on_the_way(s, t, k);
            let u = t + (n - k) * line_step(t, s);
            assert(!bit(occ, u));
            assert(men[u] is None);
        }
    }
    if line_clear(men, s, t) {
        assert forall|k: int| 0 < k < n implies !bit(occ, #[trigger] (t + k * line_step(t, s))) by {
            lemma_on_the_way(t, s, k);
            let u = s + (n - k) * line_step(s, t);
            assert(men[u] is None);
        }
    }
}

/// The men that attack a square are those that would give check to a king on it, and a king that
/// stands beside it: on a board seen whole, attacks agree with how the men move.
pub proof fn law_attackers_would_give_check(men: Seq<Option<(u8, u8)>>, occ: u64, t: int, s: int)
    requires
        men.len() == 64,
        occupancy(men, occ),
        0 <= s < 64,
        0 <= t < 64,
        men[s] matches Some(man) ==> man.0 < 6 && man.1 < 2,
    ensures
        piece_at(men, s) != 5 ==> (attacks(men, occ, t, s) <==> gives_check(men, s, t)),
        piece_at(men, s) == 5 ==> (attacks(men, occ, t, s) <==> king_reaches(s, t)),
{
    assert(bit(occ, s) == men[s] is Some);
    if on_one_line(t, s) || on_one_diagonal(t, s) {
        lemma_lines_open_both_ways(men, occ, t, s);
    }
    if let Some(man) = men[s] {
        assert(pawn_reaches(opposite(man.1), t, s) == pawn_reaches(man.1, s, t));
    }
}

/// The men giving check are the enemy men, other than the king, that attack the king's square.
pub proof fn law_checkers_attack_the_king(p: PosView, occ: u64, s: int)
    requires
        accepted(p),
        occupancy(p.men, occ),
        0 <= s < 64,
    ensures
        bit(p.checkers, s) <==> attacks_for(p.men, occ, king_square(p.men, p.side), opposite(p.side), s) && piece_at(p.men, s)
            != 5,
{
    reveal(checkers_ok);
    let k = king_square(p.men, p.side);
    assert(king_at(p.men, p.side, k));
    assert(p.men[s] matches Some(man) ==> man.0 < 6 && man.1 < 2);
    law_attackers_would_give_check(p.men, occ, k, s);
}

/// What a pawn attacks lies one rank ahead, on the files beside; a king attacks what it stands
/// beside; and a man that has left the exchange attacks nothing.
pub proof fn law_short_ranged_men_attack_their_neighbours(men: Seq<Option<(u8, u8)>>, occ: u64, t: int, s: int, c: u8)
    requires
        0 <= s < 64,
        0 <= t < 64,
        c < 2,
    ensures
        !bit(occ, s) ==> !attacks(men, occ, t, s),
        men[s] is None ==> !attacks(men, occ, t, s),
        men[s] == Some((0u8, c)) && bit(occ, s) ==> (attacks(men, occ, t, s) <==> (t % 8 == s % 8 + 1 || t % 8 == s % 8 - 1)
            && t / 8 == s / 8 + if c == 0 {
            1int
        } else {
            -1
        }),
        men[s] == Some((5u8, c)) && bit(occ, s) ==> (attacks(men, occ, t, s) <==> t != s && -1 <= t % 8 - s % 8 <= 1 && -1 <= t
            / 8 - s / 8 <= 1),
        men[s] == Some((1u8, c)) && bit(occ, s) ==> (attacks(men, occ, t, s) <==> (t % 8 - s % 8) * (t % 8 - s % 8) + (t / 8 - s
            / 8) * (t / 8 - s / 8) == 5),
{
    let (f, r) = (t % 8 - s % 8, t / 8 - s / 8);
    assert(f * f + r * r == 5 <==> ((f == 1 || f == -1) && (r == 2 || r == -2)) || ((f == 2 || f == -2) && (r == 1 || r == -1)))
        by (nonlinear_arith)
        requires
            -8 < f < 8,
            -8 < r < 8,
    ;
}

/// Lighter men are worth less, kings aside, whose value an exchange never counts on.
pub proof fn law_values_follow_the_pieces(a: u8, b: u8)
    requires
        a < b,
        b < 5,
    ensures
        0 < value_of(a) < value_of(b),
        value_of(5) == 0,
        3 * value_of(0) < value_of(1) < 5 * value_of(0),
        value_of(2) < value_of(1) + value_of(0),
        value_of(3) < value_of(1) + value_of(2) < value_of(4) < 3 * value_of(3),
{
    lemma_values(a as int);
    lemma_values(b as int);
}

/// What recaptures is one of the cheapest men that can; a king does so only where nothing else can
/// and nothing defends. Nothing recaptures only where nothing attacks, or a king alone attacks what
/// is defended.
pub proof fn law_cheapest_attacker_recaptures(men: Seq<Option<(u8, u8)>>, occ: u64, t: int, c: u8)
    requires
        men.len() == 64,
        forall|s: int| 0 <= s < 64 ==> (#[trigger] men[s] matches Some(man) ==> man.0 < 6 && man.1 < 2),
    ensures
        match capturer(men, occ, t, c) {
            Some(s) => {
                &&& attacks_for(men, occ, t, c, s)
                &&& forall|o: int| #[trigger]
                    attacks_for(men, occ, t, c, o) && piece_at(men, o) < 5 ==> piece_at(men, s) < 5 && value_of(piece_at(men, s))
                        <= value_of(piece_at(men, o))
                &&& piece_at(men, s) == 5 ==> forall|o: int| !#[trigger] attacks_for(men, without(occ, s), t, opposite(c), o)
            },
            None => forall|s: int| #[trigger]
                attacks_for(men, occ, t, c, s) ==> piece_at(men, s) == 5 && exists|u: int, o: int|
                    #![trigger attacks_for(men, occ, t, c, u), attacks_for(men, without(occ, u), t, opposite(c), o)]
                    attacks_for(men, occ, t, c, u) && attacks_for(men, without(occ, u), t, opposite(c), o),
        },
{
    if exists|s: int| #[trigger] attacks_for(men, occ, t, c, s) {
        let a = choose|s: int| #[trigger] attacks_for(men, occ, t, c, s);
        let s = lemma_some_least(men, occ, t, c, a, 64);
        assert(least_attacker(men, occ, t, c, s));
    }
    if exists|s: int| least_attacker(men, occ, t, c, s) {
        let s = choose|s: int| least_attacker(men, occ, t, c, s);
        assert(attacks_for(men, occ, t, c, s));
        assert forall|o: int| #[trigger] attacks_for(men, occ, t, c, o) && piece_at(men, o) < 5 implies piece_at(men, s) < 5
            && value_of(piece_at(men, s)) <= value_of(piece_at(men, o)) by {
            if piece_at(men, s) < piece_at(men, o) {
                law_values_follow_the_pieces(piece_at(men, s), piece_at(men, o));
            }
        }
        if capturer(men, occ, t, c) is None {
            let o = choose|o: int| attacks_for(men, without(occ, s), t, opposite(c), o);
            assert(attacks_for(men, without(occ, s), t, opposite(c), o));
            assert forall|u: int| #[trigger] attacks_for(men, occ, t, c, u) implies piece_at(men, u) == 5 by {
                assert(men[u] matches Some(man) ==> man.0 < 6);
            }
        }
    }
}

/// The least of the attackers on the squares below `n`.
spec fn least_below(men: Seq<Option<(u8, u8)>>, occ: u64, t: int, c: u8, s: int, n: int) -> bool {
    &&& attacks_for(men, occ, t, c, s)
    &&& s < n
    &&& forall|o: int| #[trigger]
        attacks_for(men, occ, t, c, o) && o < n ==> piece_at(men, s) < piece_at(men, o) || (piece_at(men, s) == piece_at(men, o)
            && s <= o)
}

/// Where there is an attacker there is a least one.
proof fn lemma_some_least(men: Seq<Option<(u8, u8)>>, occ: u64, t: int, c: u8, a: int, n: int) -> (s: int)
    requires
        attacks_for(men, occ, t, c, a),
        a < n,
    ensures
        least_below(men, occ, t, c, s, n),
    decreases n,
{
    if exists|b: int| #[trigger] attacks_for(men, occ, t, c, b) && b < n - 1 {
        let b = choose|b: int| #[trigger] attacks_for(men, occ, t, c, b) && b < n - 1;
        let s = lemma_some_least(men, occ, t, c, b, n - 1);
        if attacks_for(men, occ, t, c, n - 1) && piece_at(men, n - 1) < piece_at(men, s) {
            n - 1
        } else {
            s
        }
    } else {
        a
    }
}

/// A capture that nothing can answer wins what it takes; one that can be answered wins no more, and
/// risks no more than the man that moves.
pub proof fn law_exchange_risks_the_moving_man(p: PosView, occ: u64, m: Move, attacker: u8)
    requires
        wf(p),
        attacker < 6,
        m.from < 64,
        m.to < 64,
        bit(occ, m.from as int),
    ensures
        capturer(p.men, without(occ, m.from as int), m.to as int, opposite(p.side)) is None ==> see_value(p, occ, m, attacker)
            == captured_value(p, m, attacker) && full_see_value(p, occ, m, attacker) == captured_value(p, m, attacker),
        captured_value(p, m, attacker) - value_of(attacker) <= full_see_value(p, occ, m, attacker) <= captured_value(
            p,
            m,
            attacker,
        ),
{
    let o = without(occ, m.from as int);
    let (t, c) = (m.to as int, opposite(p.side));
    lemma_exchange_not_negative(p.men, o, t, c, attacker);
    if let Some(s) = capturer(p.men, o, t, c) {
        lemma_exchange_not_negative(p.men, without(o, s), t, opposite(c), piece_at(p.men, s));
    }
    if attacker < 5 {
        lemma_values(attacker as int);
    }
}

/// An exchange never costs the side that may begin it anything: it need not.
proof fn lemma_exchange_not_negative(men: Seq<Option<(u8, u8)>>, occ: u64, t: int, c: u8, victim: u8)
    ensures
        exchange(men, occ, t, c, victim) >= 0,
{
}

} // verus!

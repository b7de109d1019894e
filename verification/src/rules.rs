//! The rules of the search: what a move captures, when a node is drawn, cut, pruned or reduced,
//! and how moves are ordered.
use vstd::prelude::*;
use crate::board::{
    accepted, colour_at, ep_rank, is_castle, king_at, legal_moves, legal_shape, men_count, mover,
    opposite, piece_at, wf, Move, PosView, Position, BISHOP, KNIGHT, PAWN, QUEEN, ROOK, WHITE,
};
use crate::eval::{piece_val, quotient, value_of};
use crate::history::{
    capt_index, capt_slot, clamped, cont_slot, cont_sum, from_to, from_to_index, params_ok, pulled,
    Preds, Tables, HIST_CAP, INF, MATE, MATE_BOUND,
};
use crate::nnue::victim_of;
use crate::see::{captured_value, see_of, see_with};
use crate::tag::{make, tag_of};
use crate::tt::{pack, packed, BOUND_EXACT, BOUND_LOWER, BOUND_NONE, BOUND_UPPER};
use crate::tune::{at_least_one, hist_lmr_div, lmp_base, nmp_base, nmp_div, rfp_margin, Params};

verus! {

// ---------------- captures ----------------
/// The square an en passant capture lands on.
pub open spec fn ep_target(p: PosView) -> Option<u8> {
    match p.ep {
        Some(f) => Some((8 * ep_rank(p.side) + f) as u8),
        None => None,
    }
}

/// The piece a move captures. Castling goes to an own rook and captures nothing.
pub open spec fn taken_by(p: PosView, m: Move) -> Option<u8> {
    if colour_at(p.men, m.to as int) == opposite(p.side) {
        Some(piece_at(p.men, m.to as int))
    } else if ep_target(p) == Some(m.to) && piece_at(p.men, m.from as int) == PAWN {
        Some(PAWN)
    } else {
        None
    }
}

pub fn ep_square(board: &Position) -> (r: Option<u8>)
    requires
        wf(board@),
    ensures
        r == ep_target(board@),
        r matches Some(s) ==> s < 64,
{
    match board.en_passant() {
        Some(f) => if board.side_to_move() == WHITE {
            Some(40 + f)
        } else {
            Some(16 + f)
        },
        None => None,
    }
}

/// The piece a move captures, en passant included.
pub fn capture_victim(board: &Position, mv: Move) -> (r: Option<u8>)
    requires
        wf(board@),
        mv.from < 64,
        mv.to < 64,
    ensures
        r == taken_by(board@, mv),
        r matches Some(v) ==> v < 6,
{
    let stm: u8 = board.side_to_move();
    match board.man(mv.to) {
        Some((p, c)) => {
            assert(board@.men[mv.to as int] == Some((p, c)));
            if c != stm {
                return Some(p);
            }
        },
        None => {},
    }
    let target: Option<u8> = ep_square(board);
    let hit: bool = match target {
        Some(s) => s == mv.to,
        None => false,
    };
    if hit {
        match board.man(mv.from) {
            Some((p, c)) => {
                assert(board@.men[mv.from as int] == Some((p, c)));
                if p == PAWN {
                    return Some(PAWN);
                }
            },
            None => {},
        }
    }
    None
}

/// Of a legal move, what it captures is what stood in its way or, en passant, the pawn beside
/// its origin.
pub proof fn law_capture_is_what_leaves_the_board(p: PosView, m: Move)
    requires
        wf(p),
        legal_shape(p, m),
    ensures
        is_castle(p, m) ==> taken_by(p, m) is None,
        !is_castle(p, m) ==> (match victim_of(p, m) {
            Some(v) => taken_by(p, m) == Some(v.0),
            None => taken_by(p, m) is None,
        }),
{
}

/// Moves a quiescence search looks at: all in check, else captures and queen promotions.
pub open spec fn noisy(p: PosView, m: Move) -> bool {
    p.checkers != 0 || taken_by(p, m) is Some || m.promotion == Some(QUEEN)
}

/// Destinations a quiescence search generates: all in check, else enemy squares, the en passant
/// target, and the last rank for pawns.
pub open spec fn in_quiescence_mask(p: PosView, m: Move) -> bool {
    ||| p.checkers != 0
    ||| colour_at(p.men, m.to as int) == opposite(p.side)
    ||| ep_target(p) == Some(m.to)
    ||| (piece_at(p.men, m.from as int) == PAWN && m.to / 8 == if p.side == WHITE {
        7int
    } else {
        0
    })
}

/// No move that a quiescence search looks at lies outside its mask.
pub proof fn law_mask_keeps_every_noisy_move(p: PosView, m: Move)
    requires
        wf(p),
        legal_shape(p, m),
        noisy(p, m),
    ensures
        in_quiescence_mask(p, m),
{
}

pub fn is_noisy(board: &Position, mv: Move) -> (r: bool)
    requires
        wf(board@),
        mv.from < 64,
        mv.to < 64,
    ensures
        r == noisy(board@, mv),
{
    if board.in_check() {
        return true;
    }
    if capture_victim(board, mv).is_some() {
        return true;
    }
    match mv.promotion {
        Some(q) => q == QUEEN,
        None => false,
    }
}

pub fn in_mask(board: &Position, mv: Move) -> (r: bool)
    requires
        wf(board@),
        mv.from < 64,
        mv.to < 64,
    ensures
        r == in_quiescence_mask(board@, mv),
{
    if board.in_check() {
        return true;
    }
    let stm: u8 = board.side_to_move();
    match board.man(mv.to) {
        Some((p, c)) => {
            assert(board@.men[mv.to as int] == Some((p, c)));
            if c != stm {
                return true;
            }
        },
        None => {},
    }
    match ep_square(board) {
        Some(s) => {
            if s == mv.to {
                return true;
            }
        },
        None => {},
    }
    match board.man(mv.from) {
        Some((p, c)) => {
            assert(board@.men[mv.from as int] == Some((p, c)));
            p == PAWN && mv.to / 8 == if stm == WHITE {
                7
            } else {
                0
            }
        },
        None => false,
    }
}

// ---------------- draws ----------------
/// How many men of a piece and colour stand on the first `n` squares; colour 2 counts both.
pub open spec fn piece_count(men: Seq<Option<(u8, u8)>>, piece: u8, c: u8, n: int) -> int
    decreases n,
{
    if n <= 0 {
        0
    } else {
        piece_count(men, piece, c, n - 1) + if piece_at(men, n - 1) == piece && (c == 2 || colour_at(men, n - 1) == c) {
            1int
        } else {
            0
        }
    }
}

/// Dead draws by material: bare kings, one minor piece, or two knights of one side.
pub open spec fn dead_draw(p: PosView) -> bool {
    let total = men_count(p.men, 64);
    let knights = piece_count(p.men, KNIGHT, 2, 64);
    let bishops = piece_count(p.men, BISHOP, 2, 64);
    &&& total <= 4
    &&& piece_count(p.men, PAWN, 2, 64) == 0
    &&& piece_count(p.men, ROOK, 2, 64) == 0
    &&& piece_count(p.men, QUEEN, 2, 64) == 0
    &&& (total == 2 || (total == 3 && knights + bishops == 1) || (total == 4 && knights == 2 && bishops == 0
        && piece_count(p.men, KNIGHT, WHITE, 64) != 1))
}

pub fn insufficient_material(board: &Position) -> (r: bool)
    requires
        wf(board@),
    ensures
        r == dead_draw(board@),
{
    let mut total: u32 = 0;
    let mut pawns: u32 = 0;
    let mut knights: u32 = 0;
    let mut white_knights: u32 = 0;
    let mut bishops: u32 = 0;
    let mut rooks: u32 = 0;
    let mut queens: u32 = 0;
    let mut s: u8 = 0;
    while s < 64
        invariant
            s <= 64,
            wf(board@),
            total == men_count(board@.men, s as int),
            pawns == piece_count(board@.men, PAWN, 2, s as int),
            knights == piece_count(board@.men, KNIGHT, 2, s as int),
            white_knights == piece_count(board@.men, KNIGHT, WHITE, s as int),
            bishops == piece_count(board@.men, BISHOP, 2, s as int),
            rooks == piece_count(board@.men, ROOK, 2, s as int),
            queens == piece_count(board@.men, QUEEN, 2, s as int),
            total <= s,
            pawns <= s,
            knights <= s,
            white_knights <= s,
            bishops <= s,
            rooks <= s,
            queens <= s,
        decreases 64 - s,
    {
        match board.man(s) {
            Some((p, c)) => {
                assert(board@.men[s as int] == Some((p, c)));
                total = total + 1;
                if p == PAWN {
                    pawns = pawns + 1;
                } else if p == KNIGHT {
                    knights = knights + 1;
                    if c == WHITE {
                        white_knights = white_knights + 1;
                    }
                } else if p == BISHOP {
                    bishops = bishops + 1;
                } else if p == ROOK {
                    rooks = rooks + 1;
                } else if p == QUEEN {
                    queens = queens + 1;
                }
            },
            None => {},
        }
        s = s + 1;
    }
    if total > 4 || pawns > 0 || rooks > 0 || queens > 0 {
        return false;
    }
    total == 2 || (total == 3 && knights + bishops == 1) || (total == 4 && knights == 2 && bishops == 0
        && white_knights != 1)
}

/// A knight, bishop, rook or queen of colour `c`.
pub open spec fn heavy_at(men: Seq<Option<(u8, u8)>>, c: u8, s: int) -> bool {
    colour_at(men, s) == c && KNIGHT <= piece_at(men, s) <= QUEEN
}

/// Whether side `c` has more than pawns and its king.
pub fn has_non_pawn(board: &Position, c: u8) -> (r: bool)
    requires
        wf(board@),
        c < 2,
    ensures
        r == exists|s: int| 0 <= s < 64 && heavy_at(board@.men, c, s),
{
    let mut s: u8 = 0;
    while s < 64
        invariant
            s <= 64,
            wf(board@),
            c < 2,
            forall|t: int| 0 <= t < s ==> !heavy_at(board@.men, c, t),
        decreases 64 - s,
    {
        match board.man(s) {
            Some((p, k)) => {
                assert(board@.men[s as int] == Some((p, k)));
                if k == c && p >= KNIGHT && p <= QUEEN {
                    assert(heavy_at(board@.men, c, s as int));
                    return true;
                }
            },
            None => {},
        }
        s = s + 1;
    }
    false
}

/// A position has occurred before within `halfmove` plies: the same hash an even number of plies
/// back among the positions played and then searched, oldest first.
pub open spec fn repeats(played: Seq<u64>, path: Seq<u64>, hash: u64, halfmove: u8) -> bool {
    let h = played + path;
    exists|j: int| 2 <= j <= halfmove && j <= h.len() && j % 2 == 0 && #[trigger] h[h.len() - j] == hash
}

pub fn is_repetition(played: &Vec<u64>, path: &Vec<u64>, hash: u64, halfmove: u8) -> (r: bool)
    ensures
        r == repeats(played@, path@, hash, halfmove),
{
    let ghost h = played@ + path@;
    let budget: usize = halfmove as usize;
    let n: usize = path.len();
    let g: usize = played.len();
    let mut j: usize = 2;
    while j <= budget
        invariant
            2 <= j <= 257,
            budget <= 255,
            budget == halfmove,
            j % 2 == 0,
            n == path@.len(),
            g == played@.len(),
            h == played@ + path@,
            forall|k: int| 2 <= k < j && k <= h.len() && k % 2 == 0 ==> #[trigger] h[h.len() - k] != hash,
        decreases 257 - j,
    {
        if j <= n {
            assert(h[h.len() - j] == path@[n - j]);
            if path[n - j] == hash {
                return true;
            }
        } else if j - n <= g {
            assert(h[h.len() - j] == played@[g - (j - n)]);
            if played[g - (j - n)] == hash {
                return true;
            }
        } else {
            return false;
        }
        j = j + 2;
    }
    false
}

// ---------------- table scores ----------------
/// A score as it is stored: mates count from the position, not from the root.
pub open spec fn stored_score(s: int, ply: int) -> int {
    if s > MATE_BOUND {
        s + ply
    } else if s < -MATE_BOUND {
        s - ply
    } else {
        s
    }
}

/// A stored score at `ply`.
pub open spec fn loaded_score(s: int, ply: int) -> int {
    if s > MATE_BOUND {
        s - ply
    } else if s < -MATE_BOUND {
        s + ply
    } else {
        s
    }
}

pub fn tt_score_to(s: i32, ply: i32) -> (r: i32)
    requires
        0 <= ply <= 1000,
        -2_000_000_000 <= s <= 2_000_000_000,
    ensures
        r == stored_score(s as int, ply as int),
{
    if s > MATE_BOUND {
        s + ply
    } else if s < -MATE_BOUND {
        s - ply
    } else {
        s
    }
}

pub fn tt_score_from(s: i32, ply: i32) -> (r: i32)
    requires
        0 <= ply <= 1000,
        -2_000_000_000 <= s <= 2_000_000_000,
    ensures
        r == loaded_score(s as int, ply as int),
{
    if s > MATE_BOUND {
        s - ply
    } else if s < -MATE_BOUND {
        s + ply
    } else {
        s
    }
}

/// Storing a score and loading it at the same ply gives it back.
pub proof fn law_score_survives_the_table(s: int, ply: int)
    requires
        ply >= 0,
    ensures
        loaded_score(stored_score(s, ply), ply) == s,
{
}

/// A stored bound decides a node: an exact score always, a lower bound that reaches beta, an
/// upper bound that does not exceed alpha.
pub open spec fn cuts(bound: u8, score: int, alpha: int, beta: int) -> bool {
    ||| bound == BOUND_EXACT
    ||| bound == BOUND_LOWER && score >= beta
    ||| bound == BOUND_UPPER && score <= alpha
}

pub fn tt_cuts(bound: u8, score: i32, alpha: i32, beta: i32) -> (r: bool)
    ensures
        r == cuts(bound, score as int, alpha as int, beta as int),
{
    bound == BOUND_EXACT || (bound == BOUND_LOWER && score >= beta) || (bound == BOUND_UPPER && score <= alpha)
}

/// What a result says of the true score.
pub open spec fn bound_of(best: int, alpha: int, beta: int) -> u8 {
    if best >= beta {
        BOUND_LOWER
    } else if best > alpha {
        BOUND_EXACT
    } else {
        BOUND_UPPER
    }
}

pub fn bound_for(best: i32, alpha: i32, beta: i32) -> (r: u8)
    ensures
        r == bound_of(best as int, alpha as int, beta as int),
{
    if best >= beta {
        BOUND_LOWER
    } else if best > alpha {
        BOUND_EXACT
    } else {
        BOUND_UPPER
    }
}

/// A result that is stored with its bound cuts the same window again.
pub proof fn law_stored_result_cuts_its_window(best: int, alpha: int, beta: int)
    requires
        alpha < beta,
    ensures
        cuts(bound_of(best, alpha, beta), best, alpha, beta),
{
}

// ---------------- cutting a node ----------------
/// The window within which a mate at `ply` still matters.
pub open spec fn mate_alpha(alpha: int, ply: int) -> int {
    if alpha < -MATE + ply {
        -MATE + ply
    } else {
        alpha
    }
}

pub open spec fn mate_beta(beta: int, ply: int) -> int {
    if beta > MATE - ply - 1 {
        MATE - ply - 1
    } else {
        beta
    }
}

pub fn mate_window(alpha: i32, beta: i32, ply: i32) -> (r: (i32, i32))
    requires
        0 <= ply <= 1000,
    ensures
        r.0 == mate_alpha(alpha as int, ply as int),
        r.1 == mate_beta(beta as int, ply as int),
{
    let lo: i32 = -MATE + ply;
    let hi: i32 = MATE - ply - 1;
    (if alpha < lo {
        lo
    } else {
        alpha
    }, if beta > hi {
        hi
    } else {
        beta
    })
}

/// The lower bound of the window once a best score is known.
pub open spec fn raised(alpha: int, best: int) -> int {
    if best > alpha && best > -INF {
        best
    } else {
        alpha
    }
}

/// With no table move to order by, a deep node is searched a ply shallower, and where it is
/// expected to fail high two.
pub open spec fn iir_depth_of(depth: int, tt_mv: u16, cut_node: bool) -> int {
    if depth >= 4 && tt_mv == 0 {
        if cut_node && depth - 1 >= 7 {
            depth - 2
        } else {
            depth - 1
        }
    } else {
        depth
    }
}

pub fn iir_depth(depth: i32, tt_mv: u16, cut_node: bool) -> (r: i32)
    ensures
        r == iir_depth_of(depth as int, tt_mv, cut_node),
{
    if depth >= 4 && tt_mv == 0 {
        if cut_node && depth - 1 >= 7 {
            depth - 2
        } else {
            depth - 1
        }
    } else {
        depth
    }
}

/// Reverse futility: near the horizon, an evaluation this far above beta stands. One ply less
/// margin where the side to move is improving.
pub open spec fn stands_above(p: Params, in_check: bool, ply: int, depth: int, improving: bool, static_eval: int, beta: int) -> bool {
    &&& !in_check
    &&& ply > 0
    &&& depth <= 6
    &&& static_eval - p.rfp_margin * (depth - if improving {
        1int
    } else {
        0
    }) >= beta
}

pub fn reverse_futility(p: &Params, in_check: bool, ply: i32, depth: i32, improving: bool, static_eval: i32, beta: i32) -> (r: bool)
    requires
        params_ok(*p),
        -1000 <= depth <= 1000,
        -1_000_000_000 <= static_eval <= 1_000_000_000,
    ensures
        r == stands_above(*p, in_check, ply as int, depth as int, improving, static_eval as int, beta as int),
{
    let d: i32 = if improving {
        depth - 1
    } else {
        depth
    };
    let m: i32 = rfp_margin(p);
    assert(-1_001_000 <= m * d <= 1_001_000) by (nonlinear_arith)
        requires
            0 <= m <= 1000,
            -1001 <= d <= 1001,
    ;
    !in_check && ply > 0 && depth <= 6 && static_eval - m * d >= beta
}

/// By how much a null-move search is reduced: more at depth, and the further the evaluation
/// stands above beta.
pub open spec fn null_reduction_of(p: Params, depth: int, static_eval: int, beta: int) -> int {
    p.nmp_base + quotient(depth, at_least_one(p.nmp_div) as int) + clamped(
        quotient(static_eval - beta, 200),
        0,
        3,
    )
}

pub fn null_reduction(p: &Params, depth: i32, static_eval: i32, beta: i32) -> (r: i32)
    requires
        params_ok(*p),
        0 <= depth <= 1000,
        -1_000_000_000 <= static_eval <= 1_000_000_000,
        -1_000_000_000 <= beta <= 1_000_000_000,
    ensures
        r == null_reduction_of(*p, depth as int, static_eval as int, beta as int),
        0 <= r <= depth + 103,
{
    let div: i32 = nmp_div(p);
    let over: i32 = (static_eval - beta) / 200;
    assert(over == quotient(static_eval - beta, 200));
    let more: i32 = if over < 0 {
        0
    } else if over > 3 {
        3
    } else {
        over
    };
    assert(0 <= depth / div <= depth) by (nonlinear_arith)
        requires
            div >= 1,
            depth >= 0,
    ;
    nmp_base(p) + depth / div + more
}

/// How far above beta a capture has to come at reduced depth.
pub const PROBCUT_MARGIN: i32 = 200;

pub const PROBCUT_REDUCTION: i32 = 4;

/// Whether captures are tried against a raised beta: not where the table already says that the
/// raised bound is out of reach at comparable depth.
pub open spec fn probcut_applies(is_pv: bool, in_check: bool, ply: int, depth: int, beta: int, tt_depth: int, tt_score: int, tt_bound: u8) -> bool {
    &&& !is_pv
    &&& !in_check
    &&& ply > 0
    &&& depth >= 5
    &&& -MATE_BOUND < beta < MATE_BOUND
    &&& !(tt_depth >= depth - PROBCUT_REDUCTION && tt_score < beta + PROBCUT_MARGIN && tt_bound != BOUND_NONE)
}

pub fn probcut(is_pv: bool, in_check: bool, ply: i32, depth: i32, beta: i32, tt_depth: i32, tt_score: i32, tt_bound: u8) -> (r: bool)
    requires
        -1000 <= depth <= 1000,
    ensures
        r == probcut_applies(is_pv, in_check, ply as int, depth as int, beta as int, tt_depth as int, tt_score as int, tt_bound),
{
    if is_pv || in_check || ply <= 0 || depth < 5 || beta >= MATE_BOUND || beta <= -MATE_BOUND {
        return false;
    }
    !(tt_depth >= depth - PROBCUT_REDUCTION && tt_score < beta + PROBCUT_MARGIN && tt_bound != BOUND_NONE)
}

// ---------------- pruning a move ----------------
/// How many quiet moves are searched at a depth before the rest are skipped: twice as many
/// where the side to move is improving.
pub open spec fn lmp_limit_of(p: Params, depth: int, improving: bool) -> int {
    (p.lmp_base + depth * depth) / if improving {
        1int
    } else {
        2
    }
}

pub fn lmp_limit(p: &Params, depth: i32, improving: bool) -> (r: usize)
    requires
        params_ok(*p),
        -1000 <= depth <= 1000,
    ensures
        r == lmp_limit_of(*p, depth as int, improving),
{
    assert(0 <= depth * depth <= 1_000_000) by (nonlinear_arith)
        requires
            -1000 <= depth <= 1000,
    ;
    let n: i32 = lmp_base(p) + depth * depth;
    if improving {
        n as usize
    } else {
        (n / 2) as usize
    }
}

/// A node in which late moves may be skipped: no principal variation, not in check, and not
/// about to be mated.
pub open spec fn prunes(is_pv: bool, in_check: bool, best: int) -> bool {
    !is_pv && !in_check && best > -MATE_BOUND
}

/// Enough quiet moves have been searched.
pub open spec fn late(is_quiet: bool, depth: int, tried: int, limit: int) -> bool {
    is_quiet && depth <= 8 && tried >= limit
}

/// A quiet move near the horizon cannot lift an evaluation this far below alpha.
pub open spec fn futile(is_quiet: bool, depth: int, static_eval: int, alpha: int) -> bool {
    is_quiet && depth <= 6 && static_eval + 100 * depth <= alpha
}

/// The exchange a move may lose at a depth: linear for quiet moves, quadratic for captures.
pub open spec fn see_threshold(is_quiet: bool, depth: int) -> int {
    if is_quiet {
        -50 * depth
    } else {
        -100 * depth * depth
    }
}

/// Whether exchanges decide over a move at all.
pub open spec fn see_decides(depth: int, promotes: bool, wins: bool) -> bool {
    depth <= 8 && !promotes && !wins
}

/// Whether a move is skipped without a search.
pub open spec fn skipped(
    is_pv: bool,
    in_check: bool,
    best: int,
    is_quiet: bool,
    promotes: bool,
    wins: bool,
    depth: int,
    tried: int,
    limit: int,
    static_eval: int,
    alpha: int,
    see: int,
) -> bool {
    prunes(is_pv, in_check, best) && (late(is_quiet, depth, tried, limit) || futile(
        is_quiet,
        depth,
        static_eval,
        alpha,
    ) || (see_decides(depth, promotes, wins) && see < see_threshold(is_quiet, depth)))
}

/// Decides whether a move is skipped. `wins` is whether the ordering pass found a capture whose
/// exchange does not lose.
pub fn skip_move(
    board: &Position,
    mv: Move,
    moved: u8,
    is_pv: bool,
    in_check: bool,
    best: i32,
    is_quiet: bool,
    wins: bool,
    depth: i32,
    tried: usize,
    limit: usize,
    static_eval: i32,
    alpha: i32,
) -> (r: bool)
    requires
        wf(board@),
        legal_shape(board@, mv),
        moved == mover(board@, mv),
        1 <= depth <= 1000,
        -1_000_000_000 <= static_eval <= 1_000_000_000,
    ensures
        r == skipped(
            is_pv,
            in_check,
            best as int,
            is_quiet,
            mv.promotion is Some,
            wins,
            depth as int,
            tried as int,
            limit as int,
            static_eval as int,
            alpha as int,
            see_of(board@, mv, moved),
        ),
{
    if is_pv || in_check || best <= -MATE_BOUND {
        return false;
    }
    if is_quiet && depth <= 8 && tried >= limit {
        return true;
    }
    if is_quiet && depth <= 6 && static_eval + 100 * depth <= alpha {
        return true;
    }
    if depth <= 8 && mv.promotion.is_none() && !wins {
        assert(moved < 6) by {
            assert(board@.men[mv.from as int] is Some);
        }
        assert(0 <= depth * depth <= 64) by (nonlinear_arith)
            requires
                1 <= depth <= 8,
        ;
        assert(-100 * depth * depth == -100 * (depth * depth)) by (nonlinear_arith);
        assert(-400 <= -50 * depth <= -50) by (nonlinear_arith)
            requires
                1 <= depth <= 8,
        ;
        let threshold: i32 = if is_quiet {
            -50 * depth
        } else {
            -100 * (depth * depth)
        };
        return see_with(board, mv, moved) < threshold;
    }
    false
}

// ---------------- reducing a move ----------------
pub open spec fn at_most(x: int, hi: int) -> int {
    if x > hi {
        hi
    } else {
        x
    }
}

pub open spec fn not_below_zero(x: int) -> int {
    if x < 0 {
        0
    } else {
        x
    }
}

/// The reduction of a late move from its table entry: a ply less for captures and on the
/// principal variation, a ply more where the side to move is not improving, two more where the
/// node is expected to fail high, and up to two either way by the move's history.
pub open spec fn reduction_of(base: int, is_quiet: bool, is_pv: bool, improving: bool, cut_node: bool, h: int, div: int) -> int {
    let a = if is_quiet {
        base
    } else {
        not_below_zero(base - 1)
    };
    let b = not_below_zero(
        a - (if is_pv {
            1int
        } else {
            0
        }) + (if improving {
            0int
        } else {
            1
        }),
    );
    let c = if cut_node {
        b + 2
    } else {
        b
    };
    not_below_zero(c - clamped(quotient(h, div), -2, 2))
}

/// Late moves of enough depth that are quiet or capture are reduced, except out of check.
pub open spec fn reduces(depth: int, number: int, is_quiet: bool, is_capture: bool, in_check: bool) -> bool {
    depth >= 3 && number >= 3 && (is_quiet || is_capture) && !in_check
}

pub fn reduction(p: &Params, base: i8, is_quiet: bool, is_pv: bool, improving: bool, cut_node: bool, h: i32) -> (r: i32)
    requires
        -1_000_000_000 <= h <= 1_000_000_000,
    ensures
        r == reduction_of(base as int, is_quiet, is_pv, improving, cut_node, h as int, at_least_one(p.hist_lmr_div) as int),
        0 <= r <= 132,
{
    let div: i32 = hist_lmr_div(p);
    let a: i32 = if is_quiet {
        base as i32
    } else if base < 1 {
        0
    } else {
        base as i32 - 1
    };
    let pv: i32 = if is_pv {
        1
    } else {
        0
    };
    let slack: i32 = if improving {
        0
    } else {
        1
    };
    let b0: i32 = a - pv + slack;
    let b: i32 = if b0 < 0 {
        0
    } else {
        b0
    };
    let c: i32 = if cut_node {
        b + 2
    } else {
        b
    };
    let q: i32 = h / div;
    assert(q == quotient(h as int, div as int));
    let adjust: i32 = if q < -2 {
        -2
    } else if q > 2 {
        2
    } else {
        q
    };
    let d: i32 = c - adjust;
    if d < 0 {
        0
    } else {
        d
    }
}

// ---------------- ordering ----------------
/// Score of a capture: the victim's value before the attacker's and what captures like it have
/// done; losing exchanges go behind everything.
pub open spec fn capture_score(see: int, attacker: u8, victim: u8, capt: int) -> int {
    let mvvlva = 10 * value_of(victim) - value_of(attacker);
    if see >= 0 {
        100_000 + mvvlva + quotient(capt, 64)
    } else {
        -20_000 + quotient(mvvlva, 10) + quotient(capt, 64)
    }
}

/// Score of a quiet move from the policy head.
pub open spec fn policy_score(logit: int) -> int {
    50_000 + clamped(logit / 256, -30_000, 30_000)
}

/// Ordering score of a move and whether it is the move's history. The table's move comes first,
/// then captures by exchange, queen promotions, and quiet moves: by policy where there is one,
/// otherwise killers, the countermove, and history.
pub open spec fn order_of(
    p: PosView,
    m: Move,
    tt_mv: u16,
    logit: Option<int>,
    killers: (u16, u16),
    counter: u16,
    capt: int,
    hist: int,
) -> (int, bool) {
    let pk = packed(m);
    match taken_by(p, m) {
        _ if pk == tt_mv && tt_mv != 0 => (1_000_000, false),
        Some(v) => (capture_score(see_of(p, m, mover(p, m)), mover(p, m), v, capt), false),
        None => if m.promotion == Some(QUEEN) {
            (95_000, false)
        } else {
            match logit {
                Some(l) => (policy_score(l), false),
                None => if pk == killers.0 {
                    (80_000, false)
                } else if pk == killers.1 {
                    (79_999, false)
                } else if counter != 0 && pk == counter {
                    (78_000, false)
                } else {
                    (hist, true)
                },
            }
        },
    }
}

/// A captures's exchange is found not to lose, where the ordering looked at it.
pub open spec fn order_wins(p: PosView, m: Move, tt_mv: u16) -> bool {
    &&& taken_by(p, m) is Some
    &&& !(packed(m) == tt_mv && tt_mv != 0)
    &&& see_of(p, m, mover(p, m)) >= 0
}

/// A move with its ordering score and tag.
#[derive(Clone, Copy, PartialEq, Eq, Structural, Debug)]
pub struct Ranked {
    pub score: i32,
    pub mv: Move,
    pub tag: u8,
}

/// The countermove to the opponent's last move, zero where there is none.
pub open spec fn counter_to(counter: Seq<u16>, stm: u8, prev: u16) -> u16 {
    if prev == 0 {
        0
    } else {
        counter[from_to(stm, prev as int % 64, prev as int / 64 % 64)]
    }
}

/// History of a quiet move: its own and after its predecessors.
pub open spec fn quiet_history(t: Tables, p: PosView, preds: Preds, m: Move) -> int {
    t.history@[from_to(p.side, m.from as int, m.to as int)] + cont_sum(
        t.cont@,
        preds,
        mover(p, m) * 64 + m.to,
    )
}

/// Capture history of a move that captures.
pub open spec fn capture_history(t: Tables, p: PosView, m: Move) -> int {
    match taken_by(p, m) {
        Some(v) => t.capt@[capt_slot(p.side, mover(p, m) as int, m.to as int, v as int)] as int,
        None => 0,
    }
}

/// A move as the main search ranks it.
pub open spec fn ranked_as(
    r: Ranked,
    t: Tables,
    p: PosView,
    m: Move,
    tt_mv: u16,
    logit: Option<int>,
    ply: int,
    prev: u16,
    preds: Preds,
) -> bool {
    let o = order_of(
        p,
        m,
        tt_mv,
        logit,
        t.killers@[ply],
        counter_to(t.counter@, p.side, prev),
        capture_history(t, p, m),
        quiet_history(t, p, preds, m),
    );
    &&& r.mv == m
    &&& r.score == o.0
    &&& r.tag == tag_of(mover(p, m), taken_by(p, m), order_wins(p, m, tt_mv), o.1)
}

/// How the main search ranks a move.
pub open spec fn rank_of(
    t: Tables,
    p: PosView,
    m: Move,
    tt_mv: u16,
    logit: Option<int>,
    ply: int,
    prev: u16,
    preds: Preds,
) -> Ranked {
    let o = order_of(
        p,
        m,
        tt_mv,
        logit,
        t.killers@[ply],
        counter_to(t.counter@, p.side, prev),
        capture_history(t, p, m),
        quiet_history(t, p, preds, m),
    );
    Ranked {
        score: o.0 as i32,
        mv: m,
        tag: tag_of(mover(p, m), taken_by(p, m), order_wins(p, m, tt_mv), o.1) as u8,
    }
}

/// Where a move comes in the order: the table's move before captures that do not lose, these
/// before queen promotions, then killers, the countermove, and the rest.
pub open spec fn tier(t: Tables, p: PosView, m: Move, tt_mv: u16, ply: int, prev: u16) -> int {
    let pk = packed(m);
    let counter = counter_to(t.counter@, p.side, prev);
    match taken_by(p, m) {
        _ if pk == tt_mv && tt_mv != 0 => 5,
        Some(_) => if see_of(p, m, mover(p, m)) >= 0 {
            4
        } else {
            0
        },
        None => if m.promotion == Some(QUEEN) {
            3
        } else if pk == t.killers@[ply].0 || pk == t.killers@[ply].1 {
            2
        } else if counter != 0 && pk == counter {
            1
        } else {
            0
        },
    }
}

/// The order of the scores.
proof fn lemma_tier(t: Tables, p: PosView, m: Move, tt_mv: u16, ply: int, prev: u16, preds: Preds)
    requires
        t.wf(),
        wf(p),
        legal_shape(p, m),
        preds.wf(),
    ensures
        ({
            let score = rank_of(t, p, m, tt_mv, None, ply, prev, preds).score;
            let n = tier(t, p, m, tt_mv, ply, prev);
            &&& n == 5 ==> score == 1_000_000
            &&& n == 4 ==> 99_000 < score < 200_000
            &&& n == 3 ==> score == 95_000
            &&& n == 2 ==> 79_999 <= score <= 80_000
            &&& n == 1 ==> score == 78_000
            &&& n == 0 ==> score < 50_000
        }),
{
    let i = from_to(p.side, m.from as int, m.to as int);
    let ci = mover(p, m) * 64 + m.to;
    assert(p.men[m.from as int] is Some);
    assert(-HIST_CAP <= t.history@[i] <= HIST_CAP);
    assert(-HIST_CAP <= t.cont@[cont_slot(0, preds.one as int, ci)] <= HIST_CAP);
    assert(-HIST_CAP <= t.cont@[cont_slot(1, preds.two as int, ci)] <= HIST_CAP);
    lemma_value_range(mover(p, m));
    match taken_by(p, m) {
        Some(v) => {
            assert(p.men[m.to as int] matches Some(man) ==> man.0 < 6);
            lemma_value_range(v);
            let k = capt_slot(p.side, mover(p, m) as int, m.to as int, v as int);
            assert(-HIST_CAP <= t.capt@[k] <= HIST_CAP);
        },
        None => {},
    }
}

proof fn lemma_value_range(p: u8)
    requires
        p < 6,
    ensures
        0 <= value_of(p) <= 1025,
{
    assert(p == 0 || p == 1 || p == 2 || p == 3 || p == 4 || p == 5);
}

/// Without a policy head, moves come in the order of their tiers.
pub proof fn law_moves_come_in_order(t: Tables, p: PosView, a: Move, b: Move, tt_mv: u16, ply: int, prev: u16, preds: Preds)
    requires
        t.wf(),
        wf(p),
        legal_shape(p, a),
        legal_shape(p, b),
        preds.wf(),
        tier(t, p, a, tt_mv, ply, prev) > tier(t, p, b, tt_mv, ply, prev),
    ensures
        rank_of(t, p, a, tt_mv, None, ply, prev, preds).score > rank_of(t, p, b, tt_mv, None, ply, prev, preds).score,
{
    lemma_tier(t, p, a, tt_mv, ply, prev, preds);
    lemma_tier(t, p, b, tt_mv, ply, prev, preds);
}

/// The history of a quiet move.
pub fn history_of(t: &Tables, board: &Position, preds: &Preds, mv: Move, moved: u8) -> (r: i32)
    requires
        t.wf(),
        wf(board@),
        legal_shape(board@, mv),
        moved == mover(board@, mv),
        preds.wf(),
    ensures
        r == quiet_history(*t, board@, *preds, mv),
        -50_000 <= r <= 50_000,
{
    assert(board@.men[mv.from as int] is Some);
    let i: usize = from_to_index(board.side_to_move(), mv.from, mv.to);
    let ci: usize = moved as usize * 64 + mv.to as usize;
    t.history[i] as i32 + t.cont_score(preds, ci)
}

/// Ranks a move for the main search.
pub fn rank_move(
    t: &Tables,
    board: &Position,
    mv: Move,
    tt_mv: u16,
    logit: Option<i32>,
    ply: usize,
    prev: u16,
    preds: &Preds,
) -> (r: Ranked)
    requires
        t.wf(),
        wf(board@),
        legal_shape(board@, mv),
        ply < 128,
        preds.wf(),
    ensures
        ranked_as(
            r,
            *t,
            board@,
            mv,
            tt_mv,
            match logit {
                Some(l) => Some(l as int),
                None => None,
            },
            ply as int,
            prev,
            *preds,
        ),
{
    let stm: u8 = board.side_to_move();
    let moved: u8 = match board.man(mv.from) {
        Some((p, _c)) => p,
        None => PAWN,
    };
    assert(board@.men[mv.from as int] == Some((moved, stm)));
    let pk: u16 = pack(mv);
    let victim: Option<u8> = capture_victim(board, mv);
    if pk == tt_mv && tt_mv != 0 {
        return Ranked { score: 1_000_000, mv, tag: make(moved, victim, false, false) };
    }
    match victim {
        Some(v) => {
            let mvvlva: i32 = 10 * piece_val(v) - piece_val(moved);
            let c: i32 = t.capt[capt_index(stm, moved, mv.to, v)] as i32;
            let ch: i32 = c / 64;
            assert(ch == quotient(c as int, 64));
            let q: i32 = mvvlva / 10;
            assert(q == quotient(mvvlva as int, 10));
            if see_with(board, mv, moved) >= 0 {
                Ranked { score: 100_000 + mvvlva + ch, mv, tag: make(moved, victim, true, false) }
            } else {
                Ranked { score: -20_000 + q + ch, mv, tag: make(moved, victim, false, false) }
            }
        },
        None => {
            let queening: bool = match mv.promotion {
                Some(q) => q == QUEEN,
                None => false,
            };
            if queening {
                return Ranked { score: 95_000, mv, tag: make(moved, None, false, false) };
            }
            match logit {
                Some(l) => {
                    let x: i32 = l >> 8;
                    assert(l >> 8 == l / 256) by (bit_vector);
                    let y: i32 = if x < -30_000 {
                        -30_000
                    } else if x > 30_000 {
                        30_000
                    } else {
                        x
                    };
                    return Ranked { score: 50_000 + y, mv, tag: make(moved, None, false, false) };
                },
                None => {},
            }
            let k: (u16, u16) = t.killers[ply];
            let counter: u16 = if prev == 0 {
                0
            } else {
                t.counter[from_to_index(stm, (prev % 64) as u8, (prev / 64 % 64) as u8)]
            };
            if pk == k.0 {
                Ranked { score: 80_000, mv, tag: make(moved, None, false, false) }
            } else if pk == k.1 {
                Ranked { score: 79_999, mv, tag: make(moved, None, false, false) }
            } else if counter != 0 && pk == counter {
                Ranked { score: 78_000, mv, tag: make(moved, None, false, false) }
            } else {
                Ranked { score: history_of(t, board, preds, mv, moved), mv, tag: make(moved, None, false, true) }
            }
        },
    }
}

/// Score of a move in the quiescence search.
pub open spec fn quiescence_score(p: PosView, m: Move, tt_mv: u16) -> int {
    if tt_mv != 0 && packed(m) == tt_mv {
        1_000_000
    } else {
        (match taken_by(p, m) {
            Some(v) => 100_000 + 10 * value_of(v) - value_of(mover(p, m)),
            None => 0,
        }) + if m.promotion == Some(QUEEN) {
            90_000int
        } else {
            0
        }
    }
}

/// Moves the quiescence search goes into: noisy ones, without captures whose exchange loses.
pub open spec fn quiescence_move(p: PosView, m: Move) -> bool {
    noisy(p, m) && !(p.checkers == 0 && taken_by(p, m) is Some && m.promotion != Some(QUEEN) && see_of(
        p,
        m,
        mover(p, m),
    ) < 0)
}

/// Ranks a move for the quiescence search, if it goes into it.
pub fn rank_noisy(board: &Position, mv: Move, tt_mv: u16) -> (r: Option<Ranked>)
    requires
        wf(board@),
        legal_shape(board@, mv),
    ensures
        r is Some <==> quiescence_move(board@, mv),
        r matches Some(x) ==> x.mv == mv && x.score == quiescence_score(board@, mv, tt_mv) && x.tag == tag_of(
            mover(board@, mv),
            taken_by(board@, mv),
            false,
            false,
        ),
{
    proof {
        if noisy(board@, mv) {
            law_mask_keeps_every_noisy_move(board@, mv);
        }
    }
    if !in_mask(board, mv) {
        return None;
    }
    let moved: u8 = match board.man(mv.from) {
        Some((p, _c)) => p,
        None => PAWN,
    };
    assert(board@.men[mv.from as int] == Some((moved, board@.side)));
    let in_check: bool = board.in_check();
    let victim: Option<u8> = capture_victim(board, mv);
    let queening: bool = match mv.promotion {
        Some(q) => q == QUEEN,
        None => false,
    };
    if !in_check && victim.is_none() && !queening {
        return None;
    }
    if !in_check && victim.is_some() && !queening && see_with(board, mv, moved) < 0 {
        return None;
    }
    let score: i32 = if tt_mv != 0 && pack(mv) == tt_mv {
        1_000_000
    } else {
        let a: i32 = match victim {
            Some(v) => 100_000 + 10 * piece_val(v) - piece_val(moved),
            None => 0,
        };
        if queening {
            a + 90_000
        } else {
            a
        }
    };
    Some(Ranked { score, mv, tag: make(moved, victim, false, false) })
}

/// Scores never rise along the list.
pub open spec fn descending(v: Seq<Ranked>) -> bool {
    forall|i: int, j: int| 0 <= i <= j < v.len() ==> (#[trigger] v[i]).score >= (#[trigger] v[j]).score
}

/// Wraps `slice::sort_unstable_by_key`. Claims that the moves are the same ones, best score
/// first. The order among equal scores is left open.
#[verifier::external_body]
pub(crate) fn sort_ranked(v: &mut Vec<Ranked>)
    ensures
        final(v)@.to_multiset() == old(v)@.to_multiset(),
        final(v)@.len() == old(v)@.len(),
        descending(final(v)@),
{
    v.sort_unstable_by_key(|m| std::cmp::Reverse(m.score));
}

/// A list with a move put in behind those that score no less.
pub open spec fn put_in(v: Seq<Ranked>, x: Ranked) -> Seq<Ranked>
    decreases v.len(),
{
    if v.len() == 0 || v.last().score >= x.score {
        v.push(x)
    } else {
        put_in(v.drop_last(), x).push(v.last())
    }
}

/// The moves of a list, best score first, and as they came where scores are equal.
pub open spec fn best_first(v: Seq<Ranked>) -> Seq<Ranked>
    decreases v.len(),
{
    if v.len() == 0 {
        v
    } else {
        put_in(best_first(v.drop_last()), v.last())
    }
}

/// A move that is put in keeps a list in order.
proof fn lemma_put_in(v: Seq<Ranked>, x: Ranked)
    requires
        descending(v),
    ensures
        descending(put_in(v, x)),
        put_in(v, x).len() == v.len() + 1,
        put_in(v, x).to_multiset() == v.to_multiset().insert(x),
        put_in(v, x).last().score == if v.len() == 0 || v.last().score >= x.score {
            x.score
        } else {
            v.last().score
        },
    decreases v.len(),
{
    if v.len() == 0 || v.last().score >= x.score {
        v.to_multiset_ensures();
    } else {
        let u = v.drop_last();
        lemma_put_in(u, x);
        assert(u.push(v.last()) =~= v);
        u.to_multiset_ensures();
        put_in(u, x).to_multiset_ensures();
        assert(put_in(v, x).to_multiset() =~= v.to_multiset().insert(x));
    }
}

/// Putting moves in order keeps them all.
pub proof fn lemma_best_first(v: Seq<Ranked>)
    ensures
        descending(best_first(v)),
        best_first(v).len() == v.len(),
        best_first(v).to_multiset() == v.to_multiset(),
    decreases v.len(),
{
    if v.len() > 0 {
        let u = v.drop_last();
        lemma_best_first(u);
        lemma_put_in(best_first(u), v.last());
        assert(u.push(v.last()) =~= v);
        u.to_multiset_ensures();
    }
}

/// Where a move goes in a list: behind the first `j`, where all from there on score less.
proof fn lemma_place(v: Seq<Ranked>, x: Ranked, j: int)
    requires
        0 <= j <= v.len(),
        forall|k: int| j <= k < v.len() ==> (#[trigger] v[k]).score < x.score,
        j > 0 ==> v[j - 1].score >= x.score,
    ensures
        put_in(v, x) == v.insert(j, x),
    decreases v.len(),
{
    if j == v.len() {
        assert(v.push(x) =~= v.insert(j, x));
    } else {
        lemma_place(v.drop_last(), x, j);
        assert(v.drop_last().insert(j, x).push(v.last()) =~= v.insert(j, x));
    }
}

/// Puts moves in order, best score first, and as they came where scores are equal.
pub fn order_ranked(v: &mut Vec<Ranked>)
    ensures
        final(v)@ == best_first(old(v)@),
{
    let n: usize = v.len();
    let mut i: usize = 0;
    let ghost all = v@;
    assert(v@ =~= best_first(all.take(0)) + all.skip(0));
    while i < n
        invariant
            i <= n == all.len(),
            all == old(v)@,
            v@ == best_first(all.take(i as int)) + all.skip(i as int),
        decreases n - i,
    {
        let ghost sorted = best_first(all.take(i as int));
        proof {
            lemma_best_first(all.take(i as int));
            assert(all.take(i + 1).drop_last() =~= all.take(i as int));
            assert(sorted.len() == i);
            assert(v@[i as int] == all[i as int]);
        }
        let x: Ranked = v[i];
        let mut j: usize = i;
        while j > 0 && v[j - 1].score < x.score
            invariant
                j <= i < n,
                n == v@.len(),
                sorted.len() == i,
                v@.take(i as int) == sorted,
                forall|k: int| j <= k < i ==> (#[trigger] sorted[k]).score < x.score,
            decreases j,
        {
            assert(v@.take(i as int)[j - 1] == v@[j - 1]);
            j = j - 1;
        }
        proof {
            if j > 0 {
                assert(v@.take(i as int)[j - 1] == v@[j - 1]);
            }
            lemma_place(sorted, x, j as int);
        }
        if j < i {
            let y: Ranked = v.remove(i);
            v.insert(j, y);
        }
        assert(v@ =~= sorted.insert(j as int, x) + all.skip(i + 1));
        i = i + 1;
    }
    assert(all.take(n as int) =~= all);
    assert(v@ =~= best_first(all));
}

/// Every element of a list that holds the same elements occurs in the other.
pub proof fn lemma_same_moves(a: Seq<Ranked>, b: Seq<Ranked>, i: int)
    requires
        a.to_multiset() == b.to_multiset(),
        0 <= i < b.len(),
    ensures
        exists|j: int| 0 <= j < a.len() && a[j] == b[i],
{
    a.to_multiset_ensures();
    b.to_multiset_ensures();
    assert(b.contains(b[i]));
    assert(b.to_multiset().count(b[i]) > 0);
    assert(a.contains(b[i]));
}

/// The legal move that a packed one stands for. A packed move that came from elsewhere is only
/// ever compared with legal ones, so what comes out is legal.
pub fn packed_to_move(board: &Position, wanted: u16) -> (r: Option<Move>)
    requires
        wf(board@),
    ensures
        r matches Some(m) ==> legal_moves(board@).contains(m) && legal_shape(board@, m) && packed(m) == wanted,
        wanted == 0 ==> r is None,
        r is None ==> wanted == 0 || forall|m: Move| #[trigger]
            legal_moves(board@).contains(m) ==> packed(m) != wanted,
{
    if wanted == 0 {
        return None;
    }
    let all = board.moves();
    let n: usize = all.len();
    let mut i: usize = 0;
    while i < n
        invariant
            i <= n,
            n == all@.len(),
            all@ == legal_moves(board@),
            forall|k: int| 0 <= k < all@.len() ==> legal_shape(board@, #[trigger] all@[k]),
            forall|k: int| 0 <= k < i ==> packed(#[trigger] all@[k]) != wanted,
        decreases n - i,
    {
        assert(legal_shape(board@, all@[i as int]));
        if pack(all[i]) == wanted {
            assert(legal_moves(board@).contains(all@[i as int]));
            return Some(all[i]);
        }
        i = i + 1;
    }
    None
}

/// A ranked capture: its piece and victim can be read off its tag.
pub open spec fn capture_tag_ok(x: Ranked) -> bool {
    x.mv.to < 64 && x.tag as int % 8 < 6 && 1 <= x.tag as int / 32 <= 6
}

/// Capture history after a bonus to one ranked capture.
pub open spec fn capt_after(capt: Seq<i16>, stm: u8, x: Ranked, bonus: int) -> Seq<i16> {
    let i = capt_slot(stm, x.tag as int % 8, x.mv.to as int, x.tag as int / 32 - 1);
    capt.update(i, pulled(capt[i] as int, bonus) as i16)
}

/// Capture history after penalties to the first `n` captures that did not cut.
pub open spec fn capt_penalized(capt: Seq<i16>, stm: u8, tried: Seq<Ranked>, n: int, bonus: int) -> Seq<i16>
    decreases n,
{
    if n <= 0 {
        capt
    } else {
        capt_after(capt_penalized(capt, stm, tried, n - 1, bonus), stm, tried[n - 1], -bonus)
    }
}

/// A move has cut: where it captured its capture history rises, and the captures tried before
/// it lose theirs.
pub fn capture_cutoff(t: &mut Tables, stm: u8, cut: Option<Ranked>, tried: &Vec<Ranked>, bonus: i32)
    requires
        old(t).wf(),
        stm < 2,
        cut matches Some(x) ==> capture_tag_ok(x),
        forall|k: int| 0 <= k < tried@.len() ==> capture_tag_ok(#[trigger] tried@[k]),
        0 <= bonus <= HIST_CAP,
    ensures
        final(t).wf(),
        *final(t) == (Tables { capt: final(t).capt, ..*old(t) }),
        final(t).capt@ == capt_penalized(
            match cut {
                Some(x) => capt_after(old(t).capt@, stm, x, bonus as int),
                None => old(t).capt@,
            },
            stm,
            tried@,
            tried@.len() as int,
            bonus as int,
        ),
{
    match cut {
        Some(x) => {
            let p: u8 = crate::tag::piece(x.tag) as u8;
            let v: u8 = crate::tag::victim(x.tag) - 1;
            t.capt_bonus(stm, p, x.mv.to, v, bonus);
        },
        None => {},
    }
    let ghost c0 = t.capt@;
    let n: usize = tried.len();
    let mut i: usize = 0;
    while i < n
        invariant
            i <= n,
            n == tried@.len(),
            t.wf(),
            stm < 2,
            forall|k: int| 0 <= k < tried@.len() ==> capture_tag_ok(#[trigger] tried@[k]),
            0 <= bonus <= HIST_CAP,
            *t == (Tables { capt: t.capt, ..*old(t) }),
            t.capt@ == capt_penalized(c0, stm, tried@, i as int, bonus as int),
        decreases n - i,
    {
        let x: Ranked = tried[i];
        assert(capture_tag_ok(tried@[i as int]));
        let p: u8 = crate::tag::piece(x.tag) as u8;
        let v: u8 = crate::tag::victim(x.tag) - 1;
        t.capt_bonus(stm, p, x.mv.to, v, -bonus);
        i = i + 1;
    }
}

// ---------------- laws ----------------
/// A move is skipped only out of check, off the principal variation, once some move avoids being
/// mated, and within eight plies of the horizon; and then only a quiet move after enough others, a
/// quiet move within six plies whose side stands a pawn a ply below alpha, or a move whose exchange
/// loses too much: half a pawn a ply for quiet moves, a pawn for the square of the depth for
/// captures. Where the side to move stands above alpha and the exchange does not lose, nothing but
/// the number of quiet moves searched skips a move.
pub proof fn law_skipped_moves_have_a_reason(
    is_pv: bool,
    in_check: bool,
    best: int,
    is_quiet: bool,
    promotes: bool,
    wins: bool,
    depth: int,
    tried: int,
    limit: int,
    static_eval: int,
    alpha: int,
    see: int,
)
    requires
        depth >= 1,
    ensures
        ({
            let r = skipped(is_pv, in_check, best, is_quiet, promotes, wins, depth, tried, limit, static_eval, alpha, see);
            let enough = is_quiet && tried >= limit;
            let below = is_quiet && depth <= 6 && alpha - static_eval >= 100 * depth;
            let loses = !promotes && !wins && see < 0 && if is_quiet {
                -see > 50 * depth
            } else {
                -see > 100 * (depth * depth)
            };
            &&& is_pv || in_check || best <= -31_488 || depth > 8 ==> !r
            &&& r ==> enough || below || loses
            &&& !is_pv && !in_check && best > -31_488 && depth <= 8 && (enough || below || loses) ==> r
            &&& static_eval > alpha && see >= 0 && !enough ==> !r
            &&& static_eval > alpha && (promotes || wins) && !enough ==> !r
        }),
{
    assert(-100 * depth * depth == -100 * (depth * depth)) by (nonlinear_arith);
    assert(depth * depth >= 1) by (nonlinear_arith)
        requires
            depth >= 1,
    ;
}

/// With more depth left, a better exchange or evaluation, a lower alpha or fewer quiet moves behind
/// it, no move is skipped that was not skipped before.
pub proof fn law_better_moves_are_skipped_less(
    is_pv: bool,
    in_check: bool,
    best: int,
    is_quiet: bool,
    promotes: bool,
    wins: bool,
    depth: int,
    deeper: int,
    tried: int,
    fewer: int,
    limit: int,
    more: int,
    static_eval: int,
    better: int,
    alpha: int,
    lower: int,
    see: int,
    gain: int,
)
    requires
        1 <= depth <= deeper,
        fewer <= tried,
        limit <= more,
        static_eval <= better,
        lower <= alpha,
        see <= gain,
        skipped(is_pv, in_check, best, is_quiet, promotes, wins, deeper, fewer, more, better, lower, gain),
    ensures
        skipped(is_pv, in_check, best, is_quiet, promotes, wins, depth, tried, limit, static_eval, alpha, see),
{
    assert(-100 * depth * depth >= -100 * deeper * deeper) by (nonlinear_arith)
        requires
            1 <= depth <= deeper,
    ;
}

/// What lies on a node, reduction by reduction. A late quiet move of a node off the principal
/// variation that is improving and not expected to fail high is reduced by its table entry. Nothing
/// is reduced by less than nothing; captures and moves on the principal variation by no more than
/// others; moves of a side that is not improving, or where the node is expected to fail high, by no
/// less.
pub proof fn law_reduction_follows_the_node(base: int, is_quiet: bool, is_pv: bool, improving: bool, cut_node: bool, h: int, div: int)
    requires
        div >= 1,
    ensures
        reduction_of(base, is_quiet, is_pv, improving, cut_node, h, div) >= 0,
        base >= 0 && -div < h < div ==> reduction_of(base, true, false, true, false, h, div) == base,
        base >= 1 && -div < h < div ==> {
            &&& reduction_of(base, false, false, true, false, h, div) == base - 1
            &&& reduction_of(base, true, true, true, false, h, div) == base - 1
            &&& reduction_of(base, true, false, false, false, h, div) == base + 1
            &&& reduction_of(base, true, false, true, true, h, div) == base + 2
        },
        reduction_of(base, false, is_pv, improving, cut_node, h, div) <= reduction_of(base, true, is_pv, improving, cut_node, h, div)
            || base < 0,
        reduction_of(base, is_quiet, true, improving, cut_node, h, div) <= reduction_of(
            base,
            is_quiet,
            false,
            improving,
            cut_node,
            h,
            div,
        ),
        reduction_of(base, is_quiet, is_pv, true, cut_node, h, div) <= reduction_of(
            base,
            is_quiet,
            is_pv,
            false,
            cut_node,
            h,
            div,
        ),
        reduction_of(base, is_quiet, is_pv, improving, false, h, div) <= reduction_of(
            base,
            is_quiet,
            is_pv,
            improving,
            true,
            h,
            div,
        ),
{
    assert(-div < h < div ==> quotient(h, div) == 0) by {
        if 0 <= h < div {
            vstd::arithmetic::div_mod::lemma_basic_div(h, div);
        } else if -div < h < 0 {
            vstd::arithmetic::div_mod::lemma_basic_div(-h, div);
        }
    }
}

/// A better history never means a deeper reduction; each full unit of it saves a ply, two at most,
/// and a bad history costs as much.
pub proof fn law_history_moves_the_reduction(base: int, is_quiet: bool, is_pv: bool, improving: bool, cut_node: bool, h: int, more: int, div: int)
    requires
        div >= 1,
        h <= more,
    ensures
        reduction_of(base, is_quiet, is_pv, improving, cut_node, more, div) <= reduction_of(
            base,
            is_quiet,
            is_pv,
            improving,
            cut_node,
            h,
            div,
        ),
        base >= 3 && is_quiet && !is_pv && improving && !cut_node ==> {
            &&& h >= 2 * div ==> reduction_of(base, is_quiet, is_pv, improving, cut_node, h, div) == base - 2
            &&& div <= h < 2 * div ==> reduction_of(base, is_quiet, is_pv, improving, cut_node, h, div) == base - 1
            &&& -2 * div < h <= -div ==> reduction_of(base, is_quiet, is_pv, improving, cut_node, h, div) == base + 1
            &&& h <= -2 * div ==> reduction_of(base, is_quiet, is_pv, improving, cut_node, h, div) == base + 2
        },
{
    lemma_quotient_rises(h, more, div);
    lemma_quotient_steps(h, div);
}

/// Division toward zero keeps the order.
proof fn lemma_quotient_rises(a: int, b: int, d: int)
    requires
        a <= b,
        d >= 1,
    ensures
        quotient(a, d) <= quotient(b, d),
{
    if a >= 0 {
        vstd::arithmetic::div_mod::lemma_div_is_ordered(a, b, d);
    } else {
        vstd::arithmetic::div_mod::lemma_div_pos_is_pos(-a, d);
        if b < 0 {
            vstd::arithmetic::div_mod::lemma_div_is_ordered(-b, -a, d);
        } else {
            vstd::arithmetic::div_mod::lemma_div_pos_is_pos(b, d);
        }
    }
}

/// The first two steps of a division toward zero, either way.
proof fn lemma_quotient_steps(h: int, d: int)
    requires
        d >= 1,
    ensures
        h >= 2 * d ==> quotient(h, d) >= 2,
        d <= h < 2 * d ==> quotient(h, d) == 1,
        -2 * d < h <= -d ==> quotient(h, d) == -1,
        h <= -2 * d ==> quotient(h, d) <= -2,
{
    let n = if h >= 0 {
        h
    } else {
        -h
    };
    let q = n / d;
    vstd::arithmetic::div_mod::lemma_fundamental_div_mod(n, d);
    vstd::arithmetic::div_mod::lemma_mod_bound(n, d);
    assert(n >= 2 * d ==> q >= 2) by (nonlinear_arith)
        requires
            n == d * q + n % d,
            0 <= n % d < d,
            d >= 1,
    ;
    assert(d <= n < 2 * d ==> q == 1) by (nonlinear_arith)
        requires
            n == d * q + n % d,
            0 <= n % d < d,
            d >= 1,
    ;
}

/// The first three moves of a node are searched to the full depth, and so is every move within two
/// plies of the horizon, in check, or that promotes without a capture.
pub proof fn law_early_moves_are_not_reduced(depth: int, number: int, is_quiet: bool, is_capture: bool, in_check: bool)
    ensures
        number < 3 || depth < 3 || in_check || !(is_quiet || is_capture) ==> !reduces(
            depth,
            number,
            is_quiet,
            is_capture,
            in_check,
        ),
        number >= 3 && depth >= 3 && !in_check ==> reduces(depth, number, true, is_capture, in_check) && reduces(
            depth,
            number,
            is_quiet,
            true,
            in_check,
        ),
{
}

/// The null move's search is reduced by the base, a ply for each divisor's worth of depth, and a ply
/// for every two pawns above beta up to three.
pub proof fn law_null_reduction_grows(p: Params, depth: int, static_eval: int, beta: int)
    requires
        depth >= 0,
    ensures
        ({
            let r = null_reduction_of(p, depth, static_eval, beta);
            let d = at_least_one(p.nmp_div) as int;
            &&& static_eval - beta < 200 ==> p.nmp_base <= r && (r - p.nmp_base) * d <= depth < (r - p.nmp_base + 1) * d
            &&& 0 <= static_eval - beta < 600 ==> null_reduction_of(p, depth, static_eval + 200, beta) == r + 1
            &&& static_eval - beta >= 600 ==> r == null_reduction_of(p, depth, beta, beta) + 3
            &&& null_reduction_of(p, depth + d, static_eval, beta) == r + 1
            &&& null_reduction_of(p, depth, static_eval + 1, beta + 1) == r
        }),
{
    let d = at_least_one(p.nmp_div) as int;
    let q = depth / d;
    vstd::arithmetic::div_mod::lemma_fundamental_div_mod(depth, d);
    vstd::arithmetic::div_mod::lemma_mod_bound(depth, d);
    vstd::arithmetic::div_mod::lemma_div_plus_one(depth, d);
    assert(d * q == q * d && (q + 1) * d == q * d + d) by (nonlinear_arith);
    vstd::arithmetic::div_mod::lemma_div_pos_is_pos(depth, d);
    assert((d + depth) / d == q + 1 && depth + d == d + depth);
}

/// An evaluation only stands where it reaches beta by the margin for each ply that is left, a ply
/// less where the side is improving; never at the root, in check or more than six plies from the
/// horizon.
pub proof fn law_evaluation_stands_above_beta(p: Params, in_check: bool, ply: int, depth: int, improving: bool, static_eval: int, beta: int)
    requires
        p.rfp_margin >= 0,
        depth >= 1,
    ensures
        ({
            let r = stands_above(p, in_check, ply, depth, improving, static_eval, beta);
            &&& r ==> static_eval >= beta
            &&& in_check || ply <= 0 || depth > 6 ==> !r
            &&& !improving && r ==> static_eval - beta >= p.rfp_margin * depth
            &&& !in_check && ply > 0 && depth <= 6 && static_eval - beta >= p.rfp_margin * depth ==> r
            &&& !in_check && ply > 0 && depth == 1 && improving && static_eval >= beta ==> r
            &&& stands_above(p, in_check, ply, depth, false, static_eval, beta) ==> stands_above(
                p,
                in_check,
                ply,
                depth,
                true,
                static_eval,
                beta,
            )
            &&& depth < 6 ==> stands_above(p, in_check, ply, depth, false, static_eval, beta) == stands_above(
                p,
                in_check,
                ply,
                depth + 1,
                true,
                static_eval,
                beta,
            )
        }),
{
    let m = p.rfp_margin as int;
    assert(m * depth >= 0 && m * (depth - 1) >= 0 && m * (depth - 1) <= m * depth) by (nonlinear_arith)
        requires
            m >= 0,
            depth >= 1,
    ;
    assert(m * (depth - 0) == m * depth);
    assert(depth == 1 ==> m * (depth - 1) == 0) by (nonlinear_arith);
    assert(m * ((depth + 1) - 1) == m * depth);
}

/// Captures are tried against beta and two pawns five plies and more from the horizon, below the
/// root, off the principal variation, out of check, and away from mate scores; not where the table
/// holds a score below the raised bound from a search at most four plies shallower.
pub proof fn law_raised_bound_is_tried_where_it_may_be_reached(
    is_pv: bool,
    in_check: bool,
    ply: int,
    depth: int,
    beta: int,
    tt_depth: int,
    tt_score: int,
    tt_bound: u8,
)
    ensures
        ({
            let r = probcut_applies(is_pv, in_check, ply, depth, beta, tt_depth, tt_score, tt_bound);
            &&& is_pv || in_check || ply <= 0 || depth < 5 || beta >= 31_488 || beta <= -31_488 ==> !r
            &&& tt_bound != BOUND_NONE && tt_depth + 4 >= depth && tt_score < beta + 200 ==> !r
            &&& !is_pv && !in_check && ply > 0 && depth >= 5 && -31_488 < beta < 31_488 && (tt_bound == BOUND_NONE
                || tt_score >= beta + 200 || tt_depth + 4 < depth) ==> r
        }),
{
}

/// Deeper nodes search more quiet moves, by the square of the depth, and twice as many where the
/// side to move is improving.
pub proof fn law_more_quiet_moves_at_depth(p: Params, depth: int)
    requires
        depth >= 0,
        p.lmp_base >= 0,
    ensures
        lmp_limit_of(p, 0, true) == p.lmp_base,
        lmp_limit_of(p, depth + 1, true) == lmp_limit_of(p, depth, true) + 2 * depth + 1,
        lmp_limit_of(p, depth, true) - 1 <= 2 * lmp_limit_of(p, depth, false) <= lmp_limit_of(p, depth, true),
{
    assert((depth + 1) * (depth + 1) == depth * depth + 2 * depth + 1) by (nonlinear_arith);
    assert(depth * depth >= 0) by (nonlinear_arith)
        requires
            depth >= 0,
    ;
}

/// A node is searched less deep only where the table has no move for it and it lies four plies or
/// more from the horizon: by a ply, or by two where it is expected to fail high and lies eight or
/// more. It never comes closer to the horizon than three plies for it.
pub proof fn law_unordered_nodes_lose_a_ply(depth: int, tt_mv: u16, cut_node: bool)
    ensures
        tt_mv != 0 || depth < 4 ==> iir_depth_of(depth, tt_mv, cut_node) == depth,
        tt_mv == 0 && depth >= 4 ==> {
            &&& iir_depth_of(depth, tt_mv, false) == depth - 1
            &&& depth < 8 ==> iir_depth_of(depth, tt_mv, true) == depth - 1
            &&& depth >= 8 ==> iir_depth_of(depth, tt_mv, true) == depth - 2
            &&& iir_depth_of(depth, tt_mv, cut_node) >= 3
        },
{
}

/// Narrowing the window to what a mate at a ply can still score loses nothing: a score that a node
/// at the ply can have lies inside the window exactly where it lies inside the narrowed one, but for
/// being mated at once.
pub proof fn law_mate_window_keeps_possible_scores(alpha: int, beta: int, ply: int, v: int)
    requires
        alpha < beta,
        ply >= 0,
        -32_000 + ply <= v < 32_000 - ply - 1,
    ensures
        v > mate_alpha(alpha, ply) ==> v > alpha,
        v > alpha && v > -32_000 + ply ==> v > mate_alpha(alpha, ply),
        v < mate_beta(beta, ply) <==> v < beta,
        mate_alpha(alpha, ply) >= alpha,
        mate_alpha(alpha, ply) >= -32_000 + ply,
        mate_beta(beta, ply) <= beta,
        mate_beta(beta, ply) <= 31_999 - ply,
        mate_alpha(alpha, ply) == alpha || mate_alpha(alpha, ply) == ply - 32_000,
        mate_beta(beta, ply) == beta || mate_beta(beta, ply) == 31_999 - ply,
{
}

/// A mate is stored by its distance from the position, wherever the position was met: one that lies
/// `n` plies below a node at a ply, and counts from the root there, is stored as a mate in `n`.
pub proof fn law_stored_mates_count_from_the_position(ply: int, n: int, s: int)
    requires
        ply >= 0,
        n >= 0,
        ply + n < 512,
    ensures
        stored_score(32_000 - ply - n, ply) == 32_000 - n,
        stored_score(-32_000 + ply + n, ply) == -32_000 + n,
        loaded_score(32_000 - n, ply) == 32_000 - n - ply,
        loaded_score(-32_000 + n, ply) == -32_000 + n + ply,
        -31_488 <= s <= 31_488 ==> stored_score(s, ply) == s && loaded_score(s, ply) == s,
{
}

/// What a stored result says of a position's true score.
pub open spec fn bound_tells(bound: u8, score: int, truth: int) -> bool {
    &&& bound != 0
    &&& bound == 1 ==> truth == score
    &&& bound == 2 ==> truth >= score
    &&& bound == 3 ==> truth <= score
}

/// A stored result decides a node only where every true score it allows lies on the same side of the
/// window as the stored one, or is the stored one; and it does decide wherever that is so. What a
/// result is stored as follows from where it lies: at or above beta the true score is no less, at or
/// below alpha it is no more, and inside it is the score.
pub proof fn law_stored_bounds_decide_soundly(bound: u8, score: int, alpha: int, beta: int, truth: int)
    requires
        alpha < beta,
    ensures
        BOUND_NONE == 0 && BOUND_EXACT == 1 && BOUND_LOWER == 2 && BOUND_UPPER == 3,
        cuts(bound, score, alpha, beta) && bound_tells(bound, score, truth) ==> truth == score || (truth >= beta && score >= beta)
            || (truth <= alpha && score <= alpha),
        bound == 0 ==> !cuts(bound, score, alpha, beta),
        bound == 1 ==> cuts(bound, score, alpha, beta),
        bound == 2 && score >= beta ==> cuts(bound, score, alpha, beta),
        bound == 3 && score <= alpha ==> cuts(bound, score, alpha, beta),
        bound == 2 && score < beta ==> !cuts(bound, score, alpha, beta),
        bound == 3 && score > alpha ==> !cuts(bound, score, alpha, beta),
        bound_of(score, alpha, beta) == 2 <==> score >= beta,
        bound_of(score, alpha, beta) == 3 <==> score <= alpha,
        bound_of(score, alpha, beta) == 1 <==> alpha < score < beta,
{
}

/// Alpha rises to a better score and never falls; a score that stands for none changes nothing.
pub proof fn law_alpha_rises_to_the_best_score(alpha: int, best: int)
    ensures
        raised(alpha, best) >= alpha,
        best > -32_500 ==> raised(alpha, best) >= best,
        raised(alpha, best) == alpha || raised(alpha, best) == best,
        best <= -32_500 ==> raised(alpha, best) == alpha,
{
}

/// Captures that do not lose go before those that do. Among either, more valuable victims first;
/// then the less valuable attacker, and captures that have done better before.
pub proof fn law_captures_are_ordered_by_what_they_win(see: int, other: int, attacker: u8, heavier: u8, victim: u8, prey: u8, capt: int, less: int)
    requires
        attacker < 6,
        heavier < 6,
        victim < 6,
        prey < 6,
        -16_384 <= less <= capt <= 16_384,
    ensures
        see >= 0 && other < 0 ==> capture_score(see, attacker, victim, capt) > capture_score(other, heavier, prey, less) && capture_score(
            other,
            heavier,
            prey,
            less,
        ) < 0,
        (see >= 0) == (other >= 0) ==> {
            &&& capture_score(see, attacker, victim, less) == capture_score(other, attacker, victim, less)
            &&& capture_score(see, attacker, victim, less) <= capture_score(see, attacker, victim, capt)
            &&& value_of(heavier) >= value_of(attacker) ==> capture_score(see, heavier, victim, capt) <= capture_score(
                see,
                attacker,
                victim,
                capt,
            )
            &&& value_of(victim) >= value_of(prey) ==> capture_score(see, attacker, prey, capt) <= capture_score(
                see,
                attacker,
                victim,
                capt,
            )
        },
        see >= 0 && value_of(victim) > value_of(prey) ==> capture_score(see, attacker, victim, capt) - capture_score(
            see,
            attacker,
            prey,
            capt,
        ) == 10 * (value_of(victim) - value_of(prey)),
        see >= 0 ==> capture_score(see, attacker, victim, capt) - capture_score(see, heavier, victim, capt) == value_of(heavier)
            - value_of(attacker),
        see >= 0 ==> 98_000 < capture_score(see, attacker, victim, capt) < 111_000,
        other < 0 ==> -21_000 < capture_score(other, attacker, victim, capt) < -18_000,
{
    lemma_value_range(attacker);
    lemma_value_range(heavier);
    lemma_value_range(victim);
    lemma_value_range(prey);
    lemma_quotient_rises(less, capt, 64);
    let (a, b) = (10 * value_of(victim) - value_of(attacker), 10 * value_of(victim) - value_of(heavier));
    let c = 10 * value_of(prey) - value_of(attacker);
    if b <= a {
        lemma_quotient_rises(b, a, 10);
    }
    if c <= a {
        lemma_quotient_rises(c, a, 10);
    }
}

/// The first killer of a ply goes before the second, the second before the countermove, and the
/// countermove before a move that only has its history. A policy head orders quiet moves by what it
/// says of them, between captures that lose and queen promotions.
pub proof fn law_quiet_moves_are_ordered_by_source(
    p: PosView,
    a: Move,
    b: Move,
    tt_mv: u16,
    killers: (u16, u16),
    counter: u16,
    capt: int,
    hist: int,
    l: int,
    more: int,
)
    requires
        taken_by(p, a) is None,
        taken_by(p, b) is None,
        a.promotion != Some(QUEEN),
        b.promotion != Some(QUEEN),
        packed(a) != tt_mv,
        packed(b) != tt_mv,
        packed(a) != packed(b),
        packed(a) != 0,
        hist <= 50_000,
        l <= more,
    ensures
        packed(a) == killers.0 ==> order_of(p, a, tt_mv, None, killers, counter, capt, hist).0 > order_of(
            p,
            b,
            tt_mv,
            None,
            killers,
            counter,
            capt,
            hist,
        ).0,
        packed(a) == killers.1 && packed(b) != killers.0 ==> order_of(p, a, tt_mv, None, killers, counter, capt, hist).0 > order_of(
            p,
            b,
            tt_mv,
            None,
            killers,
            counter,
            capt,
            hist,
        ).0,
        packed(a) == counter && packed(b) != killers.0 && packed(b) != killers.1 ==> order_of(
            p,
            a,
            tt_mv,
            None,
            killers,
            counter,
            capt,
            hist,
        ).0 > order_of(p, b, tt_mv, None, killers, counter, capt, hist).0,
        packed(a) != killers.0 && packed(a) != killers.1 && packed(a) != counter ==> order_of(
            p,
            a,
            tt_mv,
            None,
            killers,
            counter,
            capt,
            hist,
        ) == (hist, true),
        order_of(p, a, tt_mv, Some(l), killers, counter, capt, hist).0 <= order_of(
            p,
            b,
            tt_mv,
            Some(more),
            killers,
            counter,
            capt,
            hist,
        ).0,
        20_000 <= order_of(p, a, tt_mv, Some(l), killers, counter, capt, hist).0 <= 80_000,
        -7_680_000 <= l < 7_680_000 ==> ({
            let v = order_of(p, a, tt_mv, Some(l), killers, counter, capt, hist).0 - 50_000;
            256 * v <= l < 256 * v + 256
        }),
{
}

/// A quiescence search goes into every move in check; out of check into queen promotions and into
/// captures whose exchange does not lose, and into nothing else.
pub proof fn law_quiescence_goes_into_noisy_moves(p: PosView, m: Move)
    ensures
        p.checkers != 0 ==> quiescence_move(p, m),
        p.checkers == 0 && m.promotion == Some(QUEEN) ==> quiescence_move(p, m),
        p.checkers == 0 && m.promotion != Some(QUEEN) && taken_by(p, m) is None ==> !quiescence_move(p, m),
        p.checkers == 0 && m.promotion != Some(QUEEN) && taken_by(p, m) is Some ==> quiescence_move(p, m) == (see_of(
            p,
            m,
            mover(p, m),
        ) >= 0),
{
}

/// A quiescence search takes the table's move first, then captures, more valuable victims first and
/// with less valuable men, then promotions to a queen, and then the rest.
pub proof fn law_quiescence_takes_the_most_valuable_first(p: PosView, a: Move, b: Move, tt_mv: u16)
    requires
        wf(p),
        legal_shape(p, a),
        legal_shape(p, b),
        packed(b) != tt_mv,
    ensures
        packed(a) == tt_mv && tt_mv != 0 ==> quiescence_score(p, a, tt_mv) > quiescence_score(p, b, tt_mv),
        packed(a) != tt_mv && a.promotion == b.promotion ==> {
            &&& taken_by(p, a) is Some && taken_by(p, b) is None ==> quiescence_score(p, a, tt_mv) > quiescence_score(p, b, tt_mv)
            &&& taken_by(p, a) is Some && taken_by(p, b) is Some ==> quiescence_score(p, a, tt_mv) - quiescence_score(
                p,
                b,
                tt_mv,
            ) == 10 * (value_of(taken_by(p, a)->0) - value_of(taken_by(p, b)->0)) - (value_of(mover(p, a)) - value_of(
                mover(p, b),
            ))
        },
        packed(a) != tt_mv && taken_by(p, a) is None && taken_by(p, b) is None && a.promotion == Some(QUEEN) && b.promotion
            != Some(QUEEN) ==> quiescence_score(p, a, tt_mv) > quiescence_score(p, b, tt_mv),
        packed(a) != tt_mv && taken_by(p, a) is Some && taken_by(p, b) is None && a.promotion is None && b.promotion
            == Some(QUEEN) ==> quiescence_score(p, a, tt_mv) > quiescence_score(p, b, tt_mv),
{
    assert(p.men[a.from as int] is Some && p.men[b.from as int] is Some);
    lemma_value_range(mover(p, a));
    lemma_value_range(mover(p, b));
    assert(p.men[a.to as int] matches Some(man) ==> man.0 < 6);
    assert(p.men[b.to as int] matches Some(man) ==> man.0 < 6);
    if let Some(v) = taken_by(p, a) {
        lemma_value_range(v);
    }
    if let Some(v) = taken_by(p, b) {
        lemma_value_range(v);
    }
}

/// Two men of a kind are counted, each once its square has been passed.
proof fn lemma_two_of_a_kind(men: Seq<Option<(u8, u8)>>, piece: u8, a: int, b: int, n: int)
    requires
        0 <= n <= men.len(),
        0 <= a,
        0 <= b,
        a != b,
    ensures
        piece_count(men, piece, 2, n) >= (if a < n && piece_at(men, a) == piece {
            1int
        } else {
            0
        }) + if b < n && piece_at(men, b) == piece {
            1int
        } else {
            0
        },
    decreases n,
{
    if n > 0 {
        lemma_two_of_a_kind(men, piece, a, b, n - 1);
    }
}

/// Counts of a kind are never negative, and a side's are part of both sides'.
proof fn lemma_count_of_a_side(men: Seq<Option<(u8, u8)>>, piece: u8, n: int)
    requires
        0 <= n <= men.len(),
    ensures
        0 <= piece_count(men, piece, 0, n) <= piece_count(men, piece, 2, n),
    decreases n,
{
    if n > 0 {
        lemma_count_of_a_side(men, piece, n - 1);
    }
}

/// Every man is counted under its piece.
proof fn lemma_all_pieces(men: Seq<Option<(u8, u8)>>, n: int)
    requires
        0 <= n <= men.len(),
        forall|s: int| 0 <= s < n ==> (#[trigger] men[s] matches Some(man) ==> man.0 < 6),
    ensures
        men_count(men, n) == piece_count(men, 0, 2, n) + piece_count(men, 1, 2, n) + piece_count(men, 2, 2, n) + piece_count(
            men,
            3,
            2,
            n,
        ) + piece_count(men, 4, 2, n) + piece_count(men, 5, 2, n),
    decreases n,
{
    if n > 0 {
        lemma_all_pieces(men, n - 1);
        assert(men[n - 1] matches Some(man) ==> man.0 < 6);
    }
}

/// A pawn, rook or queen on the board is enough to win with, and so are five men, two bishops, a
/// bishop and a knight, or a knight on either side. Kings alone are not, nor with one knight or one
/// bishop, nor with two knights of one side.
pub proof fn law_dead_draws_have_nothing_to_mate_with(p: PosView, s: int)
    requires
        accepted(p),
        0 <= s < 64,
    ensures
        piece_at(p.men, s) == 0 || piece_at(p.men, s) == 3 || piece_at(p.men, s) == 4 ==> !dead_draw(p),
        men_count(p.men, 64) > 4 ==> !dead_draw(p),
        piece_count(p.men, 2, 2, 64) >= 2 ==> !dead_draw(p),
        piece_count(p.men, 1, 2, 64) >= 1 && piece_count(p.men, 2, 2, 64) >= 1 ==> !dead_draw(p),
        piece_count(p.men, 1, 0, 64) == 1 && piece_count(p.men, 1, 2, 64) == 2 ==> !dead_draw(p),
        men_count(p.men, 64) == 2 ==> dead_draw(p),
        men_count(p.men, 64) == 3 && (piece_count(p.men, 1, 2, 64) == 1 || piece_count(p.men, 2, 2, 64) == 1) ==> dead_draw(p),
        men_count(p.men, 64) == 4 && piece_count(p.men, 1, 0, 64) == 2 ==> dead_draw(p),
        men_count(p.men, 64) == 4 && piece_count(p.men, 1, 0, 64) == 0 && piece_count(p.men, 1, 2, 64) == 2 ==> dead_draw(p),
{
    let w = choose|s: int| king_at(p.men, 0, s);
    let b = choose|s: int| king_at(p.men, 1, s);
    let o = if s == 0 {
        1int
    } else {
        0
    };
    lemma_two_of_a_kind(p.men, 5, w, b, 64);
    lemma_two_of_a_kind(p.men, 0, s, o, 64);
    lemma_two_of_a_kind(p.men, 3, s, o, 64);
    lemma_two_of_a_kind(p.men, 4, s, o, 64);
    lemma_all_pieces(p.men, 64);
    lemma_count_of_a_side(p.men, 0, 64);
    lemma_count_of_a_side(p.men, 1, 64);
    lemma_count_of_a_side(p.men, 2, 64);
    lemma_count_of_a_side(p.men, 3, 64);
    lemma_count_of_a_side(p.men, 4, 64);
}

/// The exchange after a capture begins with what the move takes.
pub proof fn law_exchange_begins_with_the_victim(p: PosView, m: Move)
    requires
        wf(p),
        legal_shape(p, m),
        !is_castle(p, m),
    ensures
        captured_value(p, m, mover(p, m)) == match taken_by(p, m) {
            Some(v) => value_of(v),
            None => 0,
        },
{
}

/// The men of a board with the colours exchanged.
pub open spec fn recoloured(men: Seq<Option<(u8, u8)>>) -> Seq<Option<(u8, u8)>> {
    Seq::new(
        men.len(),
        |s: int|
            match men[s] {
                Some(man) => Some((man.0, (1 - man.1) as u8)),
                None => None,
            },
    )
}

proof fn lemma_recoloured(men: Seq<Option<(u8, u8)>>, piece: u8, n: int)
    requires
        0 <= n <= men.len(),
        piece < 6,
        forall|s: int| 0 <= s < men.len() ==> (#[trigger] men[s] matches Some(man) ==> man.1 < 2),
    ensures
        men_count(recoloured(men), n) == men_count(men, n),
        piece_count(recoloured(men), piece, 2, n) == piece_count(men, piece, 2, n),
        piece_count(recoloured(men), piece, 0, n) + piece_count(men, piece, 0, n) == piece_count(men, piece, 2, n),
    decreases n,
{
    if n > 0 {
        lemma_recoloured(men, piece, n - 1);
        assert(men[n - 1] matches Some(man) ==> man.1 < 2);
        assert(recoloured(men)[n - 1] == match men[n - 1] {
            Some(man) => Some((man.0, (1 - man.1) as u8)),
            None => None,
        });
    }
}

/// Whether a position is dead does not depend on which side has what.
pub proof fn law_dead_draws_have_no_favourite(p: PosView, q: PosView)
    requires
        accepted(p),
        q.men == recoloured(p.men),
    ensures
        dead_draw(q) == dead_draw(p),
{
    lemma_recoloured(p.men, 0, 64);
    lemma_recoloured(p.men, 1, 64);
    lemma_recoloured(p.men, 2, 64);
    lemma_recoloured(p.men, 3, 64);
    lemma_recoloured(p.men, 4, 64);
}

/// A position repeats only one with the same side to move, since the last capture or pawn move: what
/// lies further back, or an odd number of plies back, does not matter. One that occurred two plies
/// ago, or four, counts wherever the clock reaches back to it.
pub proof fn law_repetitions_reach_back_to_the_last_capture(a: Seq<u64>, b: Seq<u64>, x: Seq<u64>, y: Seq<u64>, hash: u64, halfmove: u8)
    requires
        a.len() + x.len() == b.len() + y.len(),
        forall|j: int|
            #![trigger (a + x)[(a.len() + x.len()) - j]]
            2 <= j <= halfmove && j <= a.len() + x.len() && j % 2 == 0 ==> (a + x)[a.len() + x.len() - j] == (b + y)[b.len()
                + y.len() - j],
    ensures
        repeats(a, x, hash, halfmove) == repeats(b, y, hash, halfmove),
        halfmove < 2 ==> !repeats(a, x, hash, halfmove),
        halfmove >= 2 && x.len() >= 2 && x[x.len() - 2] == hash ==> repeats(a, x, hash, halfmove),
        halfmove >= 4 && x.len() >= 4 && x[x.len() - 4] == hash ==> repeats(a, x, hash, halfmove),
        halfmove >= 4 && x.len() == 2 && a.len() >= 2 && a[a.len() - 2] == hash ==> repeats(a, x, hash, halfmove),
{
    let h = a + x;
    let g = b + y;
    assert(halfmove >= 2 && x.len() >= 2 ==> h[h.len() - 2] == x[x.len() - 2]);
    assert(halfmove >= 4 && x.len() >= 4 ==> h[h.len() - 4] == x[x.len() - 4]);
    assert(x.len() == 2 && a.len() >= 2 ==> h[h.len() - 4] == a[a.len() - 2]);
    if repeats(a, x, hash, halfmove) {
        let j = choose|j: int| 2 <= j <= halfmove && j <= h.len() && j % 2 == 0 && #[trigger] h[h.len() - j] == hash;
        assert(h[h.len() - j] == g[g.len() - j]);
    }
    if repeats(b, y, hash, halfmove) {
        let j = choose|j: int| 2 <= j <= halfmove && j <= g.len() && j % 2 == 0 && #[trigger] g[g.len() - j] == hash;
        assert(h[h.len() - j] == g[g.len() - j]);
    }
}

/// A move is put in behind those that score no less and before those that score less.
pub proof fn law_moves_are_put_in_behind_their_equals(v: Seq<Ranked>, x: Ranked) -> (k: int)
    requires
        descending(v),
    ensures
        0 <= k <= v.len(),
        put_in(v, x) == v.insert(k, x),
        forall|j: int| 0 <= j < k ==> (#[trigger] v[j]).score >= x.score,
        forall|j: int| k <= j < v.len() ==> (#[trigger] v[j]).score < x.score,
        descending(put_in(v, x)),
    decreases v.len(),
{
    if v.len() == 0 || v.last().score >= x.score {
        let k = v.len() as int;
        assert(v.push(x) =~= v.insert(k, x));
        assert forall|j: int| 0 <= j < k implies (#[trigger] v[j]).score >= x.score by {
            assert(v[j].score >= v[v.len() - 1].score);
        }
        k
    } else {
        let w = v.drop_last();
        assert(forall|j: int| 0 <= j < w.len() ==> w[j] == v[j]);
        let k = law_moves_are_put_in_behind_their_equals(w, x);
        assert(put_in(v, x) =~= v.insert(k, x));
        k
    }
}

/// Sorting puts the best moves first and loses none.
pub proof fn law_sorted_moves_are_the_same_moves(v: Seq<Ranked>)
    ensures
        descending(best_first(v)),
        best_first(v).to_multiset() == v.to_multiset(),
        best_first(v).len() == v.len(),
    decreases v.len(),
{
    if v.len() > 0 {
        let w = v.drop_last();
        law_sorted_moves_are_the_same_moves(w);
        let b = best_first(w);
        let k = law_moves_are_put_in_behind_their_equals(b, v.last());
        vstd::seq_lib::to_multiset_insert(b, k, v.last());
        assert(v =~= w.push(v.last()));
        vstd::seq_lib::to_multiset_build(w, v.last());
    }
}

/// A move takes the enemy man on its target, or en passant a pawn on another square; castling and quiet
/// moves take nothing.
pub proof fn law_moves_take_enemy_men(p: PosView, m: Move)
    requires
        accepted(p),
        legal_shape(p, m),
    ensures
        is_castle(p, m) ==> taken_by(p, m) is None,
        p.men[m.to as int] matches Some(man) && man.1 != p.side ==> taken_by(p, m) == Some(piece_at(p.men, m.to as int)),
        p.men[m.to as int] is None && mover(p, m) == 0 && m.from % 8 != m.to % 8 ==> taken_by(p, m) == Some(0u8),
        p.men[m.to as int] is None && (mover(p, m) != 0 || m.from % 8 == m.to % 8) ==> taken_by(p, m) is None,
{
    assert(p.men[m.to as int] matches Some(man) ==> man.1 < 2);
    assert(p.men[m.from as int] is Some);
}

/// What is remembered of a move is found by its side and squares, for captures also by piece and
/// victim; the answer to a move by the squares of the move answered, and there is none to nothing.
pub proof fn law_memories_are_found_by_the_move(t: Tables, p: PosView, preds: Preds, m: Move, prev: u16, v: u8)
    ensures
        quiet_history(t, p, preds, m) - cont_sum(t.cont@, preds, mover(p, m) * 64 + m.to) == t.history@[4096 * p.side + 64 * m.from
            + m.to],
        taken_by(p, m) is None ==> capture_history(t, p, m) == 0,
        taken_by(p, m) == Some(v) ==> capture_history(t, p, m) == t.capt@[2304 * p.side + 384 * mover(p, m) + 6 * m.to + v],
        counter_to(t.counter@, p.side, 0) == 0,
        prev != 0 ==> counter_to(t.counter@, p.side, prev) == t.counter@[4096 * p.side + 64 * (prev as int % 64) + prev as int / 64
            % 64],
{
    assert((p.side * 384 + mover(p, m) * 64 + m.to) * 6 + v == 2304 * p.side + 384 * mover(p, m) + 6 * m.to + v);
    assert(p.side * 4096 + m.from * 64 + m.to == 4096 * p.side + 64 * m.from + m.to);
}

/// A capture's bonus changes the history of its piece, target and victim, and no other.
pub proof fn law_capture_bonus_touches_one_history(capt: Seq<i16>, stm: u8, x: Ranked, moved: u8, v: u8, bonus: int, j: int)
    requires
        stm < 2,
        moved < 6,
        v < 6,
        x.mv.to < 64,
        capt.len() == 4608,
        x.tag == tag_of(moved, Some(v), false, false) || x.tag == tag_of(moved, Some(v), true, false),
        0 <= j < capt.len(),
    ensures
        j != 2304 * stm + 384 * moved + 6 * x.mv.to + v ==> capt_after(capt, stm, x, bonus)[j] == capt[j],
        j == 2304 * stm + 384 * moved + 6 * x.mv.to + v ==> capt_after(capt, stm, x, bonus)[j] == pulled(capt[j] as int, bonus) as i16,
{
    assert(x.tag as int % 8 == moved);
    assert(x.tag as int / 32 - 1 == v);
}

/// The table's move goes before everything, a promotion to a queen after the captures that do not lose
/// and before all other quiet moves, and a capture wins exactly where its exchange does not lose.
pub proof fn law_kinds_of_moves_are_apart(
    p: PosView,
    a: Move,
    b: Move,
    tt_mv: u16,
    logit: Option<int>,
    killers: (u16, u16),
    counter: u16,
    capt: int,
    hist: int,
)
    requires
        accepted(p),
        legal_shape(p, a),
        legal_shape(p, b),
        packed(b) != tt_mv,
        -16_384 <= capt <= 16_384,
        hist <= 50_000,
    ensures
        packed(a) == tt_mv && tt_mv != 0 ==> order_of(p, a, tt_mv, logit, killers, counter, capt, hist).0 > order_of(
            p,
            b,
            tt_mv,
            logit,
            killers,
            counter,
            capt,
            hist,
        ).0,
        packed(a) != tt_mv && taken_by(p, a) is None && a.promotion == Some(4u8) ==> {
            let (x, y) = (
                order_of(p, a, tt_mv, logit, killers, counter, capt, hist).0,
                order_of(p, b, tt_mv, logit, killers, counter, capt, hist).0,
            );
            &&& taken_by(p, b) is None && b.promotion != Some(4u8) ==> x > y
            &&& taken_by(p, b) is Some && see_of(p, b, mover(p, b)) >= 0 ==> x < y
            &&& taken_by(p, b) is Some && see_of(p, b, mover(p, b)) < 0 ==> x > y
        },
        order_wins(p, b, tt_mv) <==> taken_by(p, b) is Some && see_of(p, b, mover(p, b)) >= 0,
        tt_mv != 0 && packed(a) == tt_mv ==> !order_wins(p, a, tt_mv),
{
    assert(p.men[a.from as int] is Some && p.men[b.from as int] is Some);
    assert(p.men[b.to as int] matches Some(man) ==> man.0 < 6 && man.1 < 2);
    assert(mover(p, b) < 6);
    lemma_value_range(mover(p, b));
    if let Some(v) = taken_by(p, b) {
        lemma_value_range(v);
        law_captures_are_ordered_by_what_they_win(see_of(p, b, mover(p, b)), see_of(p, b, mover(p, b)), mover(p, b), 0, v, 0, capt, capt);
    }
}

} // verus!

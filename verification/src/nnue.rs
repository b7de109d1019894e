//! Quantized network inference: an accumulator of 256 values per perspective, clipped to 0..127,
//! then a hidden layer of 16 and one output. Accumulators follow the moves of a search by adding
//! and subtracting rows. Sums wrap around at the width they are kept in.
//!
//! Scales: feature weights and biases at 127, hidden weights at 64 with biases at 127 * 64, the
//! output layer likewise; the result is in centipawns.
use vstd::prelude::*;
use crate::board::{accepted, 
    castle_king_to, castle_rook_to, ep_victim_square, is_castle, is_ep, king_at, king_square,
    legal_moves, legal_shape, men_after, mover, one_king, opposite, wf, Move, PosView, Position,
    BLACK, KING, PAWN, ROOK, WHITE,
};
use crate::bytes::{as_i8, i16_at, i32_at, read_i16, read_i32, read_u32, u32_at};
use crate::eval::{mirror, mirrored, quotient, turned};
use crate::tt::signed8;

verus! {

/// Accumulator width.
pub const ACC: usize = 256;

pub const HIDDEN: usize = 16;

pub const FT_Q: i32 = 127;

pub const W_Q: i32 = 64;

pub const K_CP: i32 = 400;

/// Features when each perspective's king square selects the weights.
pub const HALFKP: usize = 40960;

pub struct Network {
    /// Feature weights, a row of 256 for each feature.
    pub ft: Vec<i16>,
    pub ft_bias: Vec<i16>,
    /// Hidden weights, a row of 512 for each hidden value.
    pub w1: Vec<i8>,
    pub b1: Vec<i32>,
    pub w2: Vec<i32>,
    pub b2: i32,
    /// Number of features: 768, or `HALFKP`.
    pub input_dim: usize,
}

/// Both perspectives of a position.
#[derive(Clone, Copy)]
pub struct Acc {
    pub w: [i16; 256],
    pub b: [i16; 256],
}

impl Network {
    /// The layers behind the accumulators have their sizes.
    pub open spec fn layered(&self) -> bool {
        &&& self.w1@.len() == 8192
        &&& self.b1@.len() == 16
        &&& self.w2@.len() == 16
    }

    /// Every feature of a position has its weights.
    pub open spec fn usable(&self) -> bool {
        &&& self.layered()
        &&& self.ft_bias@.len() == 256
        &&& self.ft@.len() == 256 * self.input_dim
        &&& 768 <= self.input_dim
    }

    pub open spec fn halfkp(&self) -> bool {
        self.input_dim == HALFKP
    }

    /// Whether king squares select the weights.
    pub fn is_halfkp(&self) -> (r: bool)
        ensures
            r == self.halfkp(),
    {
        self.input_dim == HALFKP
    }
}

// ---------------- wrapping sums ----------------
/// The 16-bit value that `x` wraps to.
pub open spec fn wrap16(x: int) -> int {
    (x + 0x8000) % 0x10000 - 0x8000
}

/// The 32-bit value that `x` wraps to.
pub open spec fn wrap32(x: int) -> int {
    (x + 0x8000_0000) % 0x1_0000_0000 - 0x8000_0000
}

proof fn lemma_wrap16_step(x: int, y: int)
    ensures
        wrap16(wrap16(x) + y) == wrap16(x + y),
        wrap16(wrap16(x) - y) == wrap16(x - y),
        -0x8000 <= wrap16(x) < 0x8000,
{
    let m = 0x10000int;
    let h = 0x8000int;
    vstd::arithmetic::div_mod::lemma_add_mod_noop(x + h, y, m);
    vstd::arithmetic::div_mod::lemma_add_mod_noop((x + h) % m, y, m);
    vstd::arithmetic::div_mod::lemma_add_mod_noop(x + h, -y, m);
    vstd::arithmetic::div_mod::lemma_add_mod_noop((x + h) % m, -y, m);
    vstd::arithmetic::div_mod::lemma_mod_twice(x + h, m);
}

/// Wrapping around a range that reaches as far down as up.
proof fn lemma_wrap_cases(z: int, m: int, h: int)
    requires
        m == 2 * h,
        h > 0,
    ensures
        (z + h) % m - h == if z % m >= h {
            z % m - m
        } else {
            z % m
        },
{
    let q = z / m;
    let r = z % m;
    vstd::arithmetic::div_mod::lemma_fundamental_div_mod(z, m);
    vstd::arithmetic::div_mod::lemma_mod_bound(z, m);
    assert(m * q == q * m) by (nonlinear_arith);
    if r < h {
        vstd::arithmetic::div_mod::lemma_fundamental_div_mod_converse(z + h, m, q, r + h);
    } else {
        assert((q + 1) * m == q * m + m) by (nonlinear_arith);
        vstd::arithmetic::div_mod::lemma_fundamental_div_mod_converse(z + h, m, q + 1, r + h - m);
    }
}

// ---------------- features ----------------
/// Index of a man's feature in one perspective. Black sees the board mirrored and the colours
/// exchanged. Where king squares select the weights, `k` is the perspective's king.
pub open spec fn feature_of(halfkp: bool, persp: u8, k: int, man: (u8, u8), s: int) -> int {
    let own = if persp == WHITE {
        man.1 as int
    } else {
        1 - man.1
    };
    let sq = if persp == WHITE {
        s
    } else {
        mirrored(s)
    };
    let ks = if persp == WHITE {
        k
    } else {
        mirrored(k)
    };
    if halfkp {
        ks * 640 + (own * 5 + man.0) * 64 + sq
    } else {
        own * 384 + man.0 * 64 + sq
    }
}

/// What a man adds to value `i` of a perspective. Kings add nothing where they select the
/// weights.
pub open spec fn man_term(net: Network, persp: u8, k: int, man: Option<(u8, u8)>, s: int, i: int) -> int {
    match man {
        None => 0,
        Some(m) => if net.halfkp() && m.0 == KING {
            0
        } else {
            net.ft@[feature_of(net.halfkp(), persp, k, m, s) * 256 + i] as int
        },
    }
}

/// What the men on the first `n` squares add to value `i` of a perspective.
pub open spec fn men_terms(net: Network, men: Seq<Option<(u8, u8)>>, persp: u8, k: int, i: int, n: int) -> int
    decreases n,
{
    if n <= 0 {
        0
    } else {
        men_terms(net, men, persp, k, i, n - 1) + man_term(net, persp, k, men[n - 1], n - 1, i)
    }
}

/// The king square that selects a perspective's weights, where it does.
pub open spec fn bucket(net: Network, men: Seq<Option<(u8, u8)>>, persp: u8) -> int {
    if net.halfkp() {
        king_square(men, persp)
    } else {
        0
    }
}

/// What all men add to value `i` of a perspective.
pub open spec fn half_terms(net: Network, men: Seq<Option<(u8, u8)>>, persp: u8, i: int) -> int {
    men_terms(net, men, persp, bucket(net, men, persp), i, 64)
}

/// Value `i` of a perspective's accumulator.
pub open spec fn half_value(net: Network, men: Seq<Option<(u8, u8)>>, persp: u8, i: int) -> int {
    wrap16(net.ft_bias@[i] + half_terms(net, men, persp, i))
}

pub open spec fn half_holds(half: Seq<i16>, net: Network, men: Seq<Option<(u8, u8)>>, persp: u8) -> bool {
    half.len() == 256 && forall|i: int| 0 <= i < 256 ==> #[trigger] half[i] == half_value(net, men, persp, i)
}

/// The accumulator is the one of these men.
pub open spec fn acc_holds(acc: Acc, net: Network, men: Seq<Option<(u8, u8)>>) -> bool {
    half_holds(acc.w@, net, men, WHITE) && half_holds(acc.b@, net, men, BLACK)
}

/// Feature index without king squares.
pub fn feature(persp: u8, color: u8, piece: u8, sq: u8) -> (r: usize)
    requires
        persp < 2,
        color < 2,
        piece < 6,
        sq < 64,
    ensures
        r == feature_of(false, persp, 0, (piece, color), sq as int),
        r < 768,
{
    if persp == WHITE {
        color as usize * 384 + piece as usize * 64 + sq as usize
    } else {
        (1 - color) as usize * 384 + piece as usize * 64 + mirror(sq) as usize
    }
}

/// Feature index under a king square.
pub fn feature_hkp(persp: u8, ksq: u8, color: u8, piece: u8, sq: u8) -> (r: usize)
    requires
        persp < 2,
        ksq < 64,
        color < 2,
        piece < 5,
        sq < 64,
    ensures
        r == feature_of(true, persp, ksq as int, (piece, color), sq as int),
        r < 40960,
{
    if persp == WHITE {
        ksq as usize * 640 + (color as usize * 5 + piece as usize) * 64 + sq as usize
    } else {
        mirror(ksq) as usize * 640 + ((1 - color) as usize * 5 + piece as usize) * 64 + mirror(sq) as usize
    }
}

/// Adds a row of feature weights to half an accumulator, or takes it off.
fn shift_row(half: &mut [i16; 256], net: &Network, f: usize, add: bool)
    requires
        net.usable(),
        f < net.input_dim,
    ensures
        forall|i: int|
            0 <= i < 256 ==> #[trigger] final(half)@[i] == wrap16(
                old(half)@[i] + if add {
                    net.ft@[f * 256 + i] as int
                } else {
                    -(net.ft@[f * 256 + i] as int)
                },
            ),
{
    let n: usize = net.ft.len();
    assert(f * 256 + 256 <= n) by (nonlinear_arith)
        requires
            n == 256 * net.input_dim,
            f < net.input_dim,
    ;
    let mut i: usize = 0;
    while i < 256
        invariant
            i <= 256,
            n == net.ft@.len(),
            f * 256 + 256 <= n,
            forall|j: int| i <= j < 256 ==> half@[j] == old(half)@[j],
            forall|j: int|
                0 <= j < i ==> #[trigger] half@[j] == wrap16(
                    old(half)@[j] + if add {
                        net.ft@[f * 256 + j] as int
                    } else {
                        -(net.ft@[f * 256 + j] as int)
                    },
                ),
        decreases 256 - i,
    {
        let w: i16 = net.ft[f * 256 + i];
        let v: i16 = half[i];
        half[i] = if add {
            v.wrapping_add(w)
        } else {
            v.wrapping_sub(w)
        };
        i = i + 1;
    }
}

/// Adds a man to half an accumulator, or takes it off.
fn shift_man(half: &mut [i16; 256], net: &Network, persp: u8, ksq: u8, man: (u8, u8), sq: u8, add: bool)
    requires
        net.usable(),
        persp < 2,
        ksq < 64,
        man.0 < 6,
        man.1 < 2,
        sq < 64,
    ensures
        forall|i: int|
            0 <= i < 256 ==> #[trigger] final(half)@[i] == wrap16(
                old(half)@[i] + if add {
                    man_term(*net, persp, if net.halfkp() { ksq as int } else { 0 }, Some(man), sq as int, i)
                } else {
                    -man_term(*net, persp, if net.halfkp() { ksq as int } else { 0 }, Some(man), sq as int, i)
                },
            ),
{
    if net.is_halfkp() {
        if man.0 == KING {
            assert forall|i: int| 0 <= i < 256 implies #[trigger] half@[i] == wrap16(old(half)@[i] + 0) by {}
            return;
        }
        let f: usize = feature_hkp(persp, ksq, man.1, man.0, sq);
        shift_row(half, net, f, add);
    } else {
        let f: usize = feature(persp, man.1, man.0, sq);
        shift_row(half, net, f, add);
    }
}

/// One perspective's accumulator, from scratch.
pub fn build_acc(net: &Network, board: &Position, persp: u8) -> (r: [i16; 256])
    requires
        net.usable(),
        accepted(board@),
        persp < 2,
    ensures
        half_holds(r@, *net, board@.men, persp),
{
    let mut acc: [i16; 256] = [0;256];
    let mut j: usize = 0;
    while j < 256
        invariant
            j <= 256,
            net.usable(),
            forall|i: int| 0 <= i < j ==> #[trigger] acc@[i] == net.ft_bias@[i],
        decreases 256 - j,
    {
        acc[j] = net.ft_bias[j];
        j = j + 1;
    }
    let ksq: u8 = board.king(persp);
    let ghost k = bucket(*net, board@.men, persp);
    let mut s: u8 = 0;
    proof {
        assert forall|i: int| 0 <= i < 256 implies #[trigger] acc@[i] == wrap16(
            net.ft_bias@[i] + men_terms(*net, board@.men, persp, k, i, 0),
        ) by {}
    }
    while s < 64
        invariant
            s <= 64,
            net.usable(),
            accepted(board@),
            persp < 2,
            ksq < 64,
            k == if net.halfkp() { ksq as int } else { 0 },
            forall|i: int|
                0 <= i < 256 ==> #[trigger] acc@[i] == wrap16(
                    net.ft_bias@[i] + men_terms(*net, board@.men, persp, k, i, s as int),
                ),
        decreases 64 - s,
    {
        let ghost before = acc@;
        match board.man(s) {
            Some(man) => {
                assert(board@.men[s as int] == Some(man));
                shift_man(&mut acc, net, persp, ksq, man, s, true);
            },
            None => {},
        }
        proof {
            assert forall|i: int| 0 <= i < 256 implies #[trigger] acc@[i] == wrap16(
                net.ft_bias@[i] + men_terms(*net, board@.men, persp, k, i, s + 1),
            ) by {
                let x = net.ft_bias@[i] + men_terms(*net, board@.men, persp, k, i, s as int);
                assert(before[i] == wrap16(x));
                lemma_wrap16_step(x, man_term(*net, persp, k, board@.men[s as int], s as int, i));
            }
        }
        s = s + 1;
    }
    acc
}

/// Both perspectives from scratch.
pub fn acc_from(net: &Network, board: &Position) -> (r: Acc)
    requires
        net.usable(),
        accepted(board@),
    ensures
        acc_holds(r, *net, board@.men),
{
    Acc { w: build_acc(net, board, WHITE), b: build_acc(net, board, BLACK) }
}

// ---------------- updates ----------------
/// What a move takes, and where it stood.
pub open spec fn victim_of(p: PosView, m: Move) -> Option<(u8, u8)> {
    match p.men[m.to as int] {
        Some(man) => Some((man.0, m.to)),
        None => if is_ep(p, m) {
            Some((PAWN, ep_victim_square(m) as u8))
        } else {
            None
        },
    }
}

/// The piece a move puts on its destination.
pub open spec fn placed_piece(p: PosView, m: Move) -> u8 {
    match m.promotion {
        Some(q) => q,
        None => mover(p, m),
    }
}

/// By how much a move changes value `i` of a perspective.
pub open spec fn move_delta(net: Network, p: PosView, m: Move, persp: u8, k: int, i: int) -> int {
    if is_castle(p, m) {
        man_term(net, persp, k, Some((KING, p.side)), castle_king_to(m), i) + man_term(
            net,
            persp,
            k,
            Some((ROOK, p.side)),
            castle_rook_to(m),
            i,
        ) - man_term(net, persp, k, Some((KING, p.side)), m.from as int, i) - man_term(
            net,
            persp,
            k,
            Some((ROOK, p.side)),
            m.to as int,
            i,
        )
    } else {
        man_term(net, persp, k, Some((placed_piece(p, m), p.side)), m.to as int, i) - man_term(
            net,
            persp,
            k,
            Some((mover(p, m), p.side)),
            m.from as int,
            i,
        ) - match victim_of(p, m) {
            Some(v) => man_term(net, persp, k, Some((v.0, opposite(p.side))), v.1 as int, i),
            None => 0,
        }
    }
}

proof fn lemma_terms_update(
    net: Network,
    men: Seq<Option<(u8, u8)>>,
    persp: u8,
    k: int,
    i: int,
    n: int,
    sq: int,
    x: Option<(u8, u8)>,
)
    requires
        men.len() == 64,
        0 <= sq < 64,
        n <= 64,
    ensures
        men_terms(net, men.update(sq, x), persp, k, i, n) == men_terms(net, men, persp, k, i, n) + if sq < n {
            man_term(net, persp, k, x, sq, i) - man_term(net, persp, k, men[sq], sq, i)
        } else {
            0
        },
    decreases n,
{
    if n > 0 {
        lemma_terms_update(net, men, persp, k, i, n - 1, sq, x);
    }
}

proof fn lemma_move_delta(net: Network, p: PosView, m: Move, persp: u8, k: int, i: int)
    requires
        wf(p),
        legal_shape(p, m),
    ensures
        men_terms(net, men_after(p, m), persp, k, i, 64) == men_terms(net, p.men, persp, k, i, 64)
            + move_delta(net, p, m, persp, k, i),
{
    let from = m.from as int;
    let to = m.to as int;
    let m1 = p.men.update(from, None);
    lemma_terms_update(net, p.men, persp, k, i, 64, from, None);
    if is_castle(p, m) {
        let kd = castle_king_to(m);
        let rd = castle_rook_to(m);
        let m2 = m1.update(to, None);
        lemma_terms_update(net, m1, persp, k, i, 64, to, None);
        let m3 = m2.update(kd, Some((KING, p.side)));
        lemma_terms_update(net, m2, persp, k, i, 64, kd, Some((KING, p.side)));
        lemma_terms_update(net, m3, persp, k, i, 64, rd, Some((ROOK, p.side)));
    } else if is_ep(p, m) {
        let v = ep_victim_square(m);
        lemma_terms_update(net, m1, persp, k, i, 64, v, None);
        lemma_terms_update(net, m1.update(v, None), persp, k, i, 64, to, Some((placed_piece(p, m), p.side)));
    } else {
        lemma_terms_update(net, m1, persp, k, i, 64, to, Some((placed_piece(p, m), p.side)));
    }
}

/// The king that selects a perspective's weights stays where it is, unless it moves.
proof fn lemma_bucket_stays(net: Network, p: PosView, m: Move, persp: u8)
    requires
        wf(p),
        legal_shape(p, m),
        persp < 2,
        net.halfkp() ==> mover(p, m) != KING || persp != p.side,
    ensures
        bucket(net, men_after(p, m), persp) == bucket(net, p.men, persp),
{
    if net.halfkp() {
        let k = king_square(p.men, persp);
        assert(one_king(p.men, persp));
        assert(king_at(p.men, persp, k));
        let after = men_after(p, m);
        assert(king_at(after, persp, k));
        assert forall|s: int| king_at(after, persp, s) implies s == k by {
            assert(king_at(p.men, persp, s));
        }
    }
}

/// Value `i` of a perspective after a move, from its value before: rebuilt where the
/// perspective's own king has moved and selects the weights, shifted otherwise.
pub open spec fn moved_value(net: Network, p: PosView, m: Move, persp: u8, i: int, before: int) -> int {
    if net.halfkp() && mover(p, m) == KING && persp == p.side {
        half_value(net, men_after(p, m), persp, i)
    } else {
        wrap16(before + move_delta(net, p, m, persp, bucket(net, p.men, persp), i))
    }
}

pub open spec fn half_moved(after: Seq<i16>, before: Seq<i16>, net: Network, p: PosView, m: Move, persp: u8) -> bool {
    forall|i: int| 0 <= i < 256 ==> #[trigger] after[i] == moved_value(net, p, m, persp, i, before[i] as int)
}

pub open spec fn acc_moved(after: Acc, before: Acc, net: Network, p: PosView, m: Move) -> bool {
    half_moved(after.w@, before.w@, net, p, m, WHITE) && half_moved(after.b@, before.b@, net, p, m, BLACK)
}

/// An accumulator that follows a move is the one a rebuild after the move would give.
pub proof fn law_update_equals_rebuild(before: Acc, after: Acc, net: Network, p: PosView, m: Move)
    requires
        wf(p),
        legal_shape(p, m),
        acc_holds(before, net, p.men),
        acc_moved(after, before, net, p, m),
    ensures
        acc_holds(after, net, men_after(p, m)),
{
    lemma_half_follows(before.w@, after.w@, net, p, m, WHITE);
    lemma_half_follows(before.b@, after.b@, net, p, m, BLACK);
}

proof fn lemma_half_follows(before: Seq<i16>, after: Seq<i16>, net: Network, p: PosView, m: Move, persp: u8)
    requires
        wf(p),
        legal_shape(p, m),
        persp < 2,
        after.len() == 256,
        half_holds(before, net, p.men, persp),
        half_moved(after, before, net, p, m, persp),
    ensures
        half_holds(after, net, men_after(p, m), persp),
{
    assert forall|i: int| 0 <= i < 256 implies #[trigger] after[i] == half_value(net, men_after(p, m), persp, i) by {
        if !(net.halfkp() && mover(p, m) == KING && persp == p.side) {
            let k = bucket(net, p.men, persp);
            assert(before[i] == half_value(net, p.men, persp, i));
            lemma_bucket_stays(net, p, m, persp);
            lemma_move_delta(net, p, m, persp, k, i);
            lemma_wrap16_step(
                net.ft_bias@[i] + men_terms(net, p.men, persp, k, i, 64),
                move_delta(net, p, m, persp, k, i),
            );
        }
    }
}

/// Shifts one perspective by a move.
fn move_half(half: &mut [i16; 256], net: &Network, persp: u8, ksq: u8, board: &Position, mv: Move, moving: u8, victim: Option<(u8, u8)>)
    requires
        net.usable(),
        wf(board@),
        persp < 2,
        ksq < 64,
        legal_shape(board@, mv),
        moving == mover(board@, mv),
        !is_castle(board@, mv) ==> victim == victim_of(board@, mv),
    ensures
        forall|i: int|
            0 <= i < 256 ==> #[trigger] final(half)@[i] == wrap16(
                old(half)@[i] + move_delta(
                    *net,
                    board@,
                    mv,
                    persp,
                    if net.halfkp() { ksq as int } else { 0 },
                    i,
                ),
            ),
{
    let stm: u8 = board.side_to_move();
    let them: u8 = if stm == WHITE {
        BLACK
    } else {
        WHITE
    };
    let ghost k = if net.halfkp() { ksq as int } else { 0 };
    let ghost h0 = half@;
    let castling: bool = match board.man(mv.to) {
        Some((_p, c)) => c == stm,
        None => false,
    };
    assert(board@.men[mv.from as int] == Some((moving, stm)));
    if castling {
        let back: u8 = mv.from / 8 * 8;
        let (kf, rf): (u8, u8) = if mv.to % 8 > mv.from % 8 {
            (6, 5)
        } else {
            (2, 3)
        };
        shift_man(half, net, persp, ksq, (KING, stm), mv.from, false);
        let ghost h1 = half@;
        shift_man(half, net, persp, ksq, (ROOK, stm), mv.to, false);
        let ghost h2 = half@;
        shift_man(half, net, persp, ksq, (KING, stm), back + kf, true);
        let ghost h3 = half@;
        shift_man(half, net, persp, ksq, (ROOK, stm), back + rf, true);
        proof {
            assert forall|i: int| 0 <= i < 256 implies #[trigger] half@[i] == wrap16(
                h0[i] + move_delta(*net, board@, mv, persp, k, i),
            ) by {
                let a = man_term(*net, persp, k, Some((KING, stm)), mv.from as int, i);
                let b = man_term(*net, persp, k, Some((ROOK, stm)), mv.to as int, i);
                let c = man_term(*net, persp, k, Some((KING, stm)), back + kf, i);
                let d = man_term(*net, persp, k, Some((ROOK, stm)), back + rf, i);
                assert(h1[i] == wrap16(h0[i] + -a));
                assert(h2[i] == wrap16(h1[i] + -b));
                assert(h3[i] == wrap16(h2[i] + c));
                lemma_wrap16_step(h0[i] - a, -b);
                lemma_wrap16_step(h0[i] - a - b, c);
                lemma_wrap16_step(h0[i] - a - b + c, d);
            }
        }
    } else {
        shift_man(half, net, persp, ksq, (moving, stm), mv.from, false);
        let ghost h1 = half@;
        match victim {
            Some((v, vsq)) => {
                assert(v < 6 && vsq < 64);
                shift_man(half, net, persp, ksq, (v, them), vsq, false);
            },
            None => {},
        }
        let ghost h2 = half@;
        let placed: u8 = match mv.promotion {
            Some(q) => q,
            None => moving,
        };
        shift_man(half, net, persp, ksq, (placed, stm), mv.to, true);
        proof {
            assert forall|i: int| 0 <= i < 256 implies #[trigger] half@[i] == wrap16(
                h0[i] + move_delta(*net, board@, mv, persp, k, i),
            ) by {
                let a = man_term(*net, persp, k, Some((moving, stm)), mv.from as int, i);
                let b = match victim {
                    Some(v) => man_term(*net, persp, k, Some((v.0, them)), v.1 as int, i),
                    None => 0,
                };
                let c = man_term(*net, persp, k, Some((placed, stm)), mv.to as int, i);
                assert(h1[i] == wrap16(h0[i] + -a));
                lemma_wrap16_step(h0[i] - a, 0);
                assert(h2[i] == wrap16(h1[i] - b));
                lemma_wrap16_step(h0[i] - a, b);
                lemma_wrap16_step(h0[i] - a - b, c);
            }
        }
    }
}

/// The accumulator after a move, from the one before it.
pub fn acc_update(net: &Network, acc: &Acc, board: &Position, mv: Move) -> (r: Acc)
    requires
        net.usable(),
        wf(board@),
        legal_moves(board@).contains(mv),
        legal_shape(board@, mv),
    ensures
        acc_moved(r, *acc, *net, board@, mv),
{
    let moving: u8 = match board.man(mv.from) {
        Some((p, _c)) => p,
        None => PAWN,
    };
    let victim: Option<(u8, u8)> = match board.man(mv.to) {
        Some((v, _c)) => Some((v, mv.to)),
        None => if moving == PAWN && mv.from % 8 != mv.to % 8 {
            Some((PAWN, mv.from / 8 * 8 + mv.to % 8))
        } else {
            None
        },
    };
    acc_update_known(net, acc, board, mv, moving, victim)
}

/// The accumulator after a move by a known piece that takes a known man.
pub fn acc_update_known(net: &Network, acc: &Acc, board: &Position, mv: Move, moving: u8, victim: Option<(u8, u8)>) -> (r: Acc)
    requires
        net.usable(),
        wf(board@),
        legal_moves(board@).contains(mv),
        legal_shape(board@, mv),
        moving == mover(board@, mv),
        !is_castle(board@, mv) ==> victim == victim_of(board@, mv),
    ensures
        acc_moved(r, *acc, *net, board@, mv),
{
    if net.is_halfkp() {
        acc_update_hkp(net, acc, board, mv, moving, victim)
    } else {
        acc_update_basic(net, acc, board, mv, moving, victim)
    }
}

/// With king squares selecting the weights: a king's move rebuilds its own perspective.
fn acc_update_hkp(net: &Network, acc: &Acc, board: &Position, mv: Move, moving: u8, victim: Option<(u8, u8)>) -> (r: Acc)
    requires
        net.usable(),
        net.halfkp(),
        wf(board@),
        legal_moves(board@).contains(mv),
        legal_shape(board@, mv),
        moving == mover(board@, mv),
        !is_castle(board@, mv) ==> victim == victim_of(board@, mv),
    ensures
        acc_moved(r, *acc, *net, board@, mv),
{
    let stm: u8 = board.side_to_move();
    let mut w: [i16; 256] = acc.w;
    let mut b: [i16; 256] = acc.b;
    if moving == KING {
        let nb = board.play(mv);
        if stm == WHITE {
            w = build_acc(net, &nb, WHITE);
            move_half(&mut b, net, BLACK, board.king(BLACK), board, mv, moving, victim);
        } else {
            b = build_acc(net, &nb, BLACK);
            move_half(&mut w, net, WHITE, board.king(WHITE), board, mv, moving, victim);
        }
    } else {
        move_half(&mut w, net, WHITE, board.king(WHITE), board, mv, moving, victim);
        move_half(&mut b, net, BLACK, board.king(BLACK), board, mv, moving, victim);
    }
    Acc { w, b }
}

/// Without king squares every move is a handful of rows.
fn acc_update_basic(net: &Network, acc: &Acc, board: &Position, mv: Move, moving: u8, victim: Option<(u8, u8)>) -> (r: Acc)
    requires
        net.usable(),
        !net.halfkp(),
        wf(board@),
        legal_shape(board@, mv),
        moving == mover(board@, mv),
        !is_castle(board@, mv) ==> victim == victim_of(board@, mv),
    ensures
        acc_moved(r, *acc, *net, board@, mv),
{
    let mut w: [i16; 256] = acc.w;
    let mut b: [i16; 256] = acc.b;
    move_half(&mut w, net, WHITE, 0, board, mv, moving, victim);
    move_half(&mut b, net, BLACK, 0, board, mv, moving, victim);
    Acc { w, b }
}

// ---------------- forward pass ----------------
pub open spec fn clipped(x: int) -> int {
    if x < 0 {
        0
    } else if x > FT_Q {
        FT_Q as int
    } else {
        x
    }
}

/// Input `k` of the hidden layer: the mover's perspective first.
pub open spec fn activation(w: Seq<i16>, b: Seq<i16>, stm: u8, k: int) -> int {
    let (us, them) = if stm == WHITE {
        (w, b)
    } else {
        (b, w)
    };
    clipped(if k < 256 {
        us[k] as int
    } else {
        them[k - 256] as int
    })
}

/// The first `n` products of hidden value `j`.
pub open spec fn hidden_dot(net: Network, w: Seq<i16>, b: Seq<i16>, stm: u8, j: int, n: int) -> int
    decreases n,
{
    if n <= 0 {
        0
    } else {
        hidden_dot(net, w, b, stm, j, n - 1) + activation(w, b, stm, n - 1) * net.w1@[j * 512 + n - 1]
    }
}

/// Hidden value `j`: biased, clipped and brought back to 0..127.
pub open spec fn hidden_value(net: Network, w: Seq<i16>, b: Seq<i16>, stm: u8, j: int) -> int {
    let x = wrap32(hidden_dot(net, w, b, stm, j, 512) + net.b1@[j]);
    (if x < 0 {
        0
    } else if x > FT_Q * W_Q {
        FT_Q * W_Q
    } else {
        x
    }) / (W_Q as int)
}

/// The first `n` products of the output.
pub open spec fn output_dot(net: Network, w: Seq<i16>, b: Seq<i16>, stm: u8, n: int) -> int
    decreases n,
{
    if n <= 0 {
        0
    } else {
        output_dot(net, w, b, stm, n - 1) + hidden_value(net, w, b, stm, n - 1) * net.w2@[n - 1]
    }
}

/// The network's verdict in centipawns for the side to move.
pub open spec fn network_output(net: Network, w: Seq<i16>, b: Seq<i16>, stm: u8) -> int {
    quotient(wrap32(wrap32(net.b2 + output_dot(net, w, b, stm, 16)) * K_CP), FT_Q * W_Q)
}

proof fn lemma_product(a: int, w: int)
    by (nonlinear_arith)
    requires
        0 <= a <= 127,
        -128 <= w <= 127,
    ensures
        -16256 <= a * w <= 16256,
{
}

proof fn lemma_wrap32_step(x: int, y: int)
    ensures
        wrap32(wrap32(x) + y) == wrap32(x + y),
        wrap32(x + wrap32(y)) == wrap32(x + y),
        -0x8000_0000 <= wrap32(x) < 0x8000_0000,
{
    let m = 0x1_0000_0000int;
    let h = 0x8000_0000int;
    vstd::arithmetic::div_mod::lemma_add_mod_noop(x + h, y, m);
    vstd::arithmetic::div_mod::lemma_add_mod_noop((x + h) % m, y, m);
    vstd::arithmetic::div_mod::lemma_mod_twice(x + h, m);
    vstd::arithmetic::div_mod::lemma_add_mod_noop(x, y + h, m);
    vstd::arithmetic::div_mod::lemma_add_mod_noop(x, (y + h) % m, m);
    vstd::arithmetic::div_mod::lemma_mod_twice(y + h, m);
}

proof fn lemma_wrapping_mul(a: i32, b: i32)
    ensures
        a.wrapping_mul(b) == wrap32(a * b),
{
    lemma_wrap_cases(a * b, 0x1_0000_0000, 0x8000_0000);
}

/// The clipped inputs of the hidden layer.
fn clip(acc_w: &[i16; 256], acc_b: &[i16; 256], stm: u8) -> (r: [u8; 512])
    requires
        stm < 2,
    ensures
        forall|k: int| 0 <= k < 512 ==> #[trigger] r@[k] == activation(acc_w@, acc_b@, stm, k),
{
    let mut act: [u8; 512] = [0;512];
    let mut i: usize = 0;
    while i < 256
        invariant
            i <= 256,
            forall|k: int| 0 <= k < i ==> #[trigger] act@[k] == activation(acc_w@, acc_b@, stm, k),
            forall|k: int| 256 <= k < 256 + i ==> #[trigger] act@[k] == activation(acc_w@, acc_b@, stm, k),
        decreases 256 - i,
    {
        let us: i16 = if stm == WHITE {
            acc_w[i]
        } else {
            acc_b[i]
        };
        let them: i16 = if stm == WHITE {
            acc_b[i]
        } else {
            acc_w[i]
        };
        act[i] = clip_one(us);
        act[256 + i] = clip_one(them);
        i = i + 1;
    }
    act
}

fn clip_one(x: i16) -> (r: u8)
    ensures
        r == clipped(x as int),
{
    if x < 0 {
        0
    } else if x > 127 {
        127
    } else {
        x as u8
    }
}

/// Biases and requantizes a hidden sum.
fn requantize(s: i32, bias: i32) -> (r: i32)
    ensures
        0 <= r <= 127,
        r == ({
            let x = wrap32(s + bias);
            (if x < 0 {
                0
            } else if x > FT_Q * W_Q {
                FT_Q * W_Q
            } else {
                x
            }) / (W_Q as int)
        }),
{
    let x: i32 = s.wrapping_add(bias);
    assert(x == wrap32(s + bias));
    let y: i32 = if x < 0 {
        0
    } else if x > 8128 {
        8128
    } else {
        x
    };
    y / 64
}

/// The output layer.
fn output(net: &Network, h: &[i32; 16], acc_w: &[i16; 256], acc_b: &[i16; 256], stm: u8) -> (r: i32)
    requires
        net.layered(),
        forall|j: int| 0 <= j < 16 ==> #[trigger] h@[j] == hidden_value(*net, acc_w@, acc_b@, stm, j),
    ensures
        r == network_output(*net, acc_w@, acc_b@, stm),
        -264_209 <= r <= 264_209,
{
    let mut v2: i32 = net.b2;
    let mut j: usize = 0;
    while j < 16
        invariant
            j <= 16,
            net.layered(),
            forall|k: int| 0 <= k < 16 ==> #[trigger] h@[k] == hidden_value(*net, acc_w@, acc_b@, stm, k),
            v2 == wrap32(net.b2 + output_dot(*net, acc_w@, acc_b@, stm, j as int)),
        decreases 16 - j,
    {
        let t: i32 = h[j].wrapping_mul(net.w2[j]);
        proof {
            lemma_wrapping_mul(h@[j as int], net.w2@[j as int]);
            lemma_wrap32_step(
                net.b2 + output_dot(*net, acc_w@, acc_b@, stm, j as int),
                t as int,
            );
            lemma_wrap32_step(
                net.b2 + output_dot(*net, acc_w@, acc_b@, stm, j as int),
                h@[j as int] * net.w2@[j as int],
            );
        }
        v2 = v2.wrapping_add(t);
        j = j + 1;
    }
    proof {
        lemma_wrapping_mul(v2, K_CP);
    }
    let x: i32 = v2.wrapping_mul(K_CP);
    let r: i32 = x / 8128;
    assert(r == quotient(x as int, 8128));
    r
}

/// Reference forward pass.
pub fn forward_scalar(net: &Network, acc_w: &[i16; 256], acc_b: &[i16; 256], stm: u8) -> (r: i32)
    requires
        net.layered(),
        stm < 2,
    ensures
        r == network_output(*net, acc_w@, acc_b@, stm),
        -264_209 <= r <= 264_209,
{
    let act = clip(acc_w, acc_b, stm);
    let mut h: [i32; 16] = [0;16];
    let mut j: usize = 0;
    while j < 16
        invariant
            j <= 16,
            net.layered(),
            forall|k: int| 0 <= k < 512 ==> #[trigger] act@[k] == activation(acc_w@, acc_b@, stm, k),
            forall|k: int| 0 <= k < j ==> #[trigger] h@[k] == hidden_value(*net, acc_w@, acc_b@, stm, k),
        decreases 16 - j,
    {
        let mut s: i32 = 0;
        let mut i: usize = 0;
        while i < 512
            invariant
                i <= 512,
                j < 16,
                net.layered(),
                forall|k: int| 0 <= k < 512 ==> #[trigger] act@[k] == activation(acc_w@, acc_b@, stm, k),
                s == hidden_dot(*net, acc_w@, acc_b@, stm, j as int, i as int),
                -16256 * i <= s <= 16256 * i,
            decreases 512 - i,
        {
            proof {
                lemma_product(act@[i as int] as int, net.w1@[j * 512 + i] as int);
            }
            s = s + act[i] as i32 * net.w1[j * 512 + i] as i32;
            i = i + 1;
        }
        h[j] = requantize(s, net.b1[j]);
        j = j + 1;
    }
    output(net, &h, acc_w, acc_b, stm)
}

/// Forward pass in the shape of multiply-and-add-pairs instructions: unsigned bytes times signed
/// bytes, two products summed in sixteen bits, and two running totals. A pair cannot overflow
/// its sixteen bits, so the result is the reference's to the integer.
pub fn forward(net: &Network, acc_w: &[i16; 256], acc_b: &[i16; 256], stm: u8) -> (r: i32)
    requires
        net.layered(),
        stm < 2,
    ensures
        r == network_output(*net, acc_w@, acc_b@, stm),
        -264_209 <= r <= 264_209,
{
    let act = clip(acc_w, acc_b, stm);
    let mut h: [i32; 16] = [0;16];
    let mut j: usize = 0;
    while j < 16
        invariant
            j <= 16,
            net.layered(),
            forall|k: int| 0 <= k < 512 ==> #[trigger] act@[k] == activation(acc_w@, acc_b@, stm, k),
            forall|k: int| 0 <= k < j ==> #[trigger] h@[k] == hidden_value(*net, acc_w@, acc_b@, stm, k),
        decreases 16 - j,
    {
        let mut s0: i32 = 0;
        let mut s1: i32 = 0;
        let mut i: usize = 0;
        while i < 512
            invariant
                i <= 512,
                i % 4 == 0,
                j < 16,
                net.layered(),
                forall|k: int| 0 <= k < 512 ==> #[trigger] act@[k] == activation(acc_w@, acc_b@, stm, k),
                s0 + s1 == hidden_dot(*net, acc_w@, acc_b@, stm, j as int, i as int),
                -16256 * i <= s0 <= 16256 * i,
                -16256 * i <= s1 <= 16256 * i,
            decreases 512 - i,
        {
            let p0: i16 = pair(act[i], net.w1[j * 512 + i], act[i + 1], net.w1[j * 512 + i + 1]);
            let p1: i16 = pair(act[i + 2], net.w1[j * 512 + i + 2], act[i + 3], net.w1[j * 512 + i + 3]);
            proof {
                reveal_with_fuel(hidden_dot, 5);
            }
            s0 = s0 + p0 as i32;
            s1 = s1 + p1 as i32;
            i = i + 4;
        }
        h[j] = requantize(s0 + s1, net.b1[j]);
        j = j + 1;
    }
    output(net, &h, acc_w, acc_b, stm)
}

/// Two products in sixteen bits.
fn pair(a0: u8, w0: i8, a1: u8, w1: i8) -> (r: i16)
    requires
        a0 <= 127,
        a1 <= 127,
    ensures
        r == a0 * w0 + a1 * w1,
        -32512 <= r <= 32512,
{
    proof {
        lemma_product(a0 as int, w0 as int);
        lemma_product(a1 as int, w1 as int);
    }
    a0 as i16 * w0 as i16 + a1 as i16 * w1 as i16
}

/// A perspective's accumulator.
pub open spec fn half_of(net: Network, men: Seq<Option<(u8, u8)>>, persp: u8) -> Seq<i16> {
    Seq::new(256, |i: int| half_value(net, men, persp, i) as i16)
}

/// The verdict on a position from scratch.
pub open spec fn scratch_eval(net: Network, p: PosView) -> int {
    network_output(net, half_of(net, p.men, WHITE), half_of(net, p.men, BLACK), p.side)
}

/// Evaluates a position from scratch.
pub fn eval_scratch(net: &Network, board: &Position) -> (r: i32)
    requires
        net.usable(),
        accepted(board@),
    ensures
        r == scratch_eval(*net, board@),
        -264_209 <= r <= 264_209,
{
    let acc = acc_from(net, board);
    assert(acc.w@ =~= half_of(*net, board@.men, WHITE));
    assert(acc.b@ =~= half_of(*net, board@.men, BLACK));
    forward(net, &acc.w, &acc.b, board.side_to_move())
}

/// All accumulators of the same men give the same verdict.
pub proof fn law_evaluation_depends_on_the_men_alone(a: Acc, b: Acc, net: Network, men: Seq<Option<(u8, u8)>>, stm: u8)
    requires
        acc_holds(a, net, men),
        acc_holds(b, net, men),
    ensures
        network_output(net, a.w@, a.b@, stm) == network_output(net, b.w@, b.b@, stm),
{
    assert(a.w@ =~= b.w@);
    assert(a.b@ =~= b.b@);
}

// ---------------- network files ----------------
/// Why a network file is refused.
#[derive(Clone, Copy, PartialEq, Eq, Structural, Debug)]
pub enum LoadError {
    TooShort,
    BadMagic,
    /// The accumulator width the file was made for.
    Width(u32),
    /// The file's size and the size its header asks for.
    Size(usize, u64),
}

/// The first four bytes.
pub open spec fn magic(d: Seq<u8>, a: u8, b: u8, c: u8, e: u8) -> bool {
    d[0] == a && d[1] == b && d[2] == c && d[3] == e
}

/// "PZR1": 768 features.
pub open spec fn magic_basic(d: Seq<u8>) -> bool {
    magic(d, 0x50, 0x5a, 0x52, 0x31)
}

/// "PZRH": the number of features follows the width.
pub open spec fn magic_halfkp(d: Seq<u8>) -> bool {
    magic(d, 0x50, 0x5a, 0x52, 0x48)
}

pub open spec fn file_features(d: Seq<u8>) -> int {
    if magic_basic(d) {
        768
    } else {
        u32_at(d, 8)
    }
}

pub open spec fn file_header(d: Seq<u8>) -> int {
    if magic_basic(d) {
        8
    } else {
        12
    }
}

/// The size a file's header asks for.
pub open spec fn file_size(d: Seq<u8>) -> int {
    file_header(d) + file_features(d) * 512 + 512 + 8192 + 64 + 16 + 4
}

/// The file holds this network: feature weights, feature biases, hidden weights and biases,
/// output weights and bias, one after another.
pub open spec fn file_holds(d: Seq<u8>, n: Network) -> bool {
    let o1 = file_header(d);
    let o2 = o1 + file_features(d) * 512;
    let o3 = o2 + 512;
    let o4 = o3 + 8192;
    let o5 = o4 + 64;
    let o6 = o5 + 16;
    &&& n.input_dim == file_features(d)
    &&& n.layered()
    &&& n.ft@.len() == 256 * n.input_dim
    &&& n.ft_bias@.len() == 256
    &&& forall|i: int| 0 <= i < n.ft@.len() ==> #[trigger] n.ft@[i] == i16_at(d, o1 + 2 * i)
    &&& forall|i: int| 0 <= i < 256 ==> #[trigger] n.ft_bias@[i] == i16_at(d, o2 + 2 * i)
    &&& forall|i: int| 0 <= i < 8192 ==> #[trigger] n.w1@[i] == signed8(d[o3 + i] as int)
    &&& forall|i: int| 0 <= i < 16 ==> #[trigger] n.b1@[i] == i32_at(d, o4 + 4 * i)
    &&& forall|i: int| 0 <= i < 16 ==> #[trigger] n.w2@[i] == signed8(d[o5 + i] as int)
    &&& n.b2 == i32_at(d, o6)
}

fn take_i16(d: &[u8], o: usize, n: usize) -> (r: Vec<i16>)
    requires
        o + 2 * n <= d@.len(),
    ensures
        r@.len() == n,
        forall|i: int| 0 <= i < n ==> #[trigger] r@[i] == i16_at(d@, o + 2 * i),
{
    let len: usize = d.len();
    let mut v: Vec<i16> = Vec::with_capacity(n);
    let mut i: usize = 0;
    while i < n
        invariant
            i <= n,
            o + 2 * n <= len,
            len == d@.len(),
            v@.len() == i,
            forall|k: int| 0 <= k < i ==> #[trigger] v@[k] == i16_at(d@, o + 2 * k),
        decreases n - i,
    {
        v.push(read_i16(d, o + 2 * i));
        i = i + 1;
    }
    v
}

fn take_i8(d: &[u8], o: usize, n: usize) -> (r: Vec<i8>)
    requires
        o + n <= d@.len(),
    ensures
        r@.len() == n,
        forall|i: int| 0 <= i < n ==> #[trigger] r@[i] == signed8(d@[o + i] as int),
{
    let len: usize = d.len();
    let mut v: Vec<i8> = Vec::with_capacity(n);
    let mut i: usize = 0;
    while i < n
        invariant
            i <= n,
            o + n <= len,
            len == d@.len(),
            v@.len() == i,
            forall|k: int| 0 <= k < i ==> #[trigger] v@[k] == signed8(d@[o + k] as int),
        decreases n - i,
    {
        v.push(as_i8(d[o + i]));
        i = i + 1;
    }
    v
}

fn take_i32(d: &[u8], o: usize, n: usize) -> (r: Vec<i32>)
    requires
        o + 4 * n <= d@.len(),
    ensures
        r@.len() == n,
        forall|i: int| 0 <= i < n ==> #[trigger] r@[i] == i32_at(d@, o + 4 * i),
{
    let len: usize = d.len();
    let mut v: Vec<i32> = Vec::with_capacity(n);
    let mut i: usize = 0;
    while i < n
        invariant
            i <= n,
            o + 4 * n <= len,
            len == d@.len(),
            v@.len() == i,
            forall|k: int| 0 <= k < i ==> #[trigger] v@[k] == i32_at(d@, o + 4 * k),
        decreases n - i,
    {
        v.push(read_i32(d, o + 4 * i));
        i = i + 1;
    }
    v
}

/// What is wrong with a network file: it is too short for a header, has no known mark, another
/// width than 256, or another size than its header says.
pub open spec fn file_fault(d: Seq<u8>) -> Option<LoadError> {
    if d.len() < 12 {
        Some(LoadError::TooShort)
    } else if !magic_basic(d) && !magic_halfkp(d) {
        Some(LoadError::BadMagic)
    } else if u32_at(d, 4) != ACC {
        Some(LoadError::Width(u32_at(d, 4) as u32))
    } else if d.len() != file_size(d) {
        Some(LoadError::Size(d.len() as usize, file_size(d) as u64))
    } else {
        None
    }
}

/// Reads a network from the bytes of its file.
pub fn load(data: &[u8]) -> (r: Result<Network, LoadError>)
    ensures
        match r {
            Err(e) => file_fault(data@) == Some(e),
            Ok(n) => file_fault(data@) is None && file_holds(data@, n),
        },
{
    let len: usize = data.len();
    if len < 12 {
        return Err(LoadError::TooShort);
    }
    let pzr: bool = data[0] == 0x50 && data[1] == 0x5a && data[2] == 0x52;
    let (dim, header): (u32, usize) = if pzr && data[3] == 0x31 {
        (768, 8)
    } else if pzr && data[3] == 0x48 {
        (read_u32(data, 8), 12)
    } else {
        return Err(LoadError::BadMagic);
    };
    let acc: u32 = read_u32(data, 4);
    if acc != 256 {
        return Err(LoadError::Width(acc));
    }
    let expected: u64 = header as u64 + dim as u64 * 512 + 512 + 8192 + 64 + 16 + 4;
    if len as u64 != expected {
        return Err(LoadError::Size(len, expected));
    }
    let rows: usize = dim as usize * 256;
    let o2: usize = header + 2 * rows;
    let ft = take_i16(data, header, rows);
    let ft_bias = take_i16(data, o2, 256);
    let w1 = take_i8(data, o2 + 512, 8192);
    let b1 = take_i32(data, o2 + 512 + 8192, 16);
    let w2_bytes = take_i8(data, o2 + 512 + 8192 + 64, 16);
    let mut w2: Vec<i32> = Vec::with_capacity(16);
    let mut i: usize = 0;
    while i < 16
        invariant
            i <= 16,
            w2_bytes@.len() == 16,
            w2@.len() == i,
            forall|k: int| 0 <= k < i ==> #[trigger] w2@[k] == w2_bytes@[k],
        decreases 16 - i,
    {
        w2.push(w2_bytes[i] as i32);
        i = i + 1;
    }
    let b2: i32 = read_i32(data, o2 + 512 + 8192 + 64 + 16);
    Ok(Network { ft, ft_bias, w1, b1, w2, b2, input_dim: dim as usize })
}

/// A network from a file of 768 features, or of at least as many under king squares, can
/// evaluate every position.
pub proof fn law_loaded_network_is_usable(d: Seq<u8>, n: Network)
    requires
        file_holds(d, n),
        file_features(d) >= 768,
    ensures
        n.usable(),
{
}

/// The network of a running engine: loaded at most once.
pub struct NetSlot {
    pub net: Option<std::sync::Arc<Network>>,
}

/// Why a network was not taken into use.
#[derive(Clone, Copy, PartialEq, Eq, Structural, Debug)]
pub enum NetUse {
    Refused(LoadError),
    AlreadyLoaded,
}

/// Takes a network file into use. A file is looked at before it matters whether one is in use.
pub fn load_global(slot: &mut NetSlot, data: &[u8]) -> (r: Result<(), NetUse>)
    ensures
        match r {
            Ok(()) => old(slot).net is None && file_fault(data@) is None && final(slot).net is Some && file_holds(
                data@,
                *final(slot).net->0,
            ),
            Err(NetUse::AlreadyLoaded) => old(slot).net is Some && file_fault(data@) is None && *final(slot) == *old(slot),
            Err(NetUse::Refused(e)) => file_fault(data@) == Some(e) && *final(slot) == *old(slot),
        },
{
    match load(data) {
        Err(e) => Err(NetUse::Refused(e)),
        Ok(n) => {
            if slot.net.is_some() {
                Err(NetUse::AlreadyLoaded)
            } else {
                slot.net = Some(std::sync::Arc::new(n));
                Ok(())
            }
        },
    }
}

/// The network in use.
pub fn net(slot: &NetSlot) -> (r: Option<std::sync::Arc<Network>>)
    ensures
        r == slot.net,
{
    match &slot.net {
        Some(n) => Some(n.clone()),
        None => None,
    }
}

// ---------------- laws ----------------
/// The hidden layer sees the mover's perspective in its first half and the other side's in its
/// second, each value cut to 0..127.
pub proof fn law_the_mover_comes_first(w: Seq<i16>, b: Seq<i16>, k: int)
    requires
        0 <= k < 256,
    ensures
        ({
            let white = if w[k] < 0 {
                0
            } else if w[k] > 127 {
                127
            } else {
                w[k] as int
            };
            let black = if b[k] < 0 {
                0
            } else if b[k] > 127 {
                127
            } else {
                b[k] as int
            };
            &&& activation(w, b, 0, k) == white
            &&& activation(w, b, 0, 256 + k) == black
            &&& activation(w, b, 1, k) == black
            &&& activation(w, b, 1, 256 + k) == white
        }),
{
}

proof fn lemma_hidden_dot_has_no_favourite(net: Network, w: Seq<i16>, b: Seq<i16>, j: int, n: int)
    ensures
        hidden_dot(net, w, b, WHITE, j, n) == hidden_dot(net, b, w, BLACK, j, n),
    decreases n,
{
    if n > 0 {
        lemma_hidden_dot_has_no_favourite(net, w, b, j, n - 1);
        assert(activation(w, b, WHITE, n - 1) == activation(b, w, BLACK, n - 1));
    }
}

proof fn lemma_output_dot_has_no_favourite(net: Network, w: Seq<i16>, b: Seq<i16>, n: int)
    ensures
        output_dot(net, w, b, WHITE, n) == output_dot(net, b, w, BLACK, n),
    decreases n,
{
    if n > 0 {
        lemma_output_dot_has_no_favourite(net, w, b, n - 1);
        lemma_hidden_dot_has_no_favourite(net, w, b, n - 1, 512);
    }
}

/// The verdict is the mover's: with the perspectives exchanged and the other side to move it is the
/// same.
pub proof fn law_verdict_is_the_movers(net: Network, w: Seq<i16>, b: Seq<i16>)
    ensures
        network_output(net, w, b, WHITE) == network_output(net, b, w, BLACK),
{
    lemma_output_dot_has_no_favourite(net, w, b, 16);
}

/// Black sees a man as White sees the man of the other colour on the mirrored square; each side finds
/// its own men in the first half of the features.
pub proof fn law_each_side_sees_its_own_men_first(halfkp: bool, persp: u8, k: int, man: (u8, u8), s: int)
    requires
        persp < 2,
        man.0 < 6,
        man.1 < 2,
        0 <= k < 64,
        0 <= s < 64,
    ensures
        feature_of(halfkp, 1, k, man, s) == feature_of(halfkp, 0, mirrored(k), (man.0, (1 - man.1) as u8), mirrored(s)),
        0 <= feature_of(false, persp, k, man, s) < 768,
        feature_of(false, persp, k, man, s) < 384 <==> man.1 == persp,
        man.0 < 5 ==> 0 <= feature_of(true, persp, k, man, s) < 40_960,
        man.0 < 5 ==> (feature_of(true, persp, k, man, s) % 640 < 320 <==> man.1 == persp),
        man.0 < 5 ==> feature_of(true, 0, k, man, s) / 640 == k,
{
}

/// Different men and squares are different features.
pub proof fn law_features_tell_men_apart(halfkp: bool, persp: u8, k: int, man: (u8, u8), s: int, other: (u8, u8), t: int)
    requires
        persp < 2,
        man.0 < 6,
        other.0 < 6,
        halfkp ==> man.0 < 5 && other.0 < 5,
        man.1 < 2,
        other.1 < 2,
        0 <= k < 64,
        0 <= s < 64,
        0 <= t < 64,
        feature_of(halfkp, persp, k, man, s) == feature_of(halfkp, persp, k, other, t),
    ensures
        man == other,
        s == t,
{
}

/// The king squares of a turned board.
proof fn lemma_turned_king(men: Seq<Option<(u8, u8)>>, c: u8)
    requires
        men.len() == 64,
        forall|s: int| 0 <= s < 64 ==> (#[trigger] men[s] matches Some(man) ==> man.1 < 2),
        c < 2,
        one_king(men, c),
    ensures
        king_square(turned(men), opposite(c)) == mirrored(king_square(men, c)),
        0 <= king_square(men, c) < 64,
{
    let k = king_square(men, c);
    assert(king_at(men, c, k));
    let t = turned(men);
    assert(mirrored(mirrored(k)) == k);
    assert(king_at(t, opposite(c), mirrored(k)));
    let u = king_square(t, opposite(c));
    assert(king_at(t, opposite(c), u));
    assert(king_at(men, c, mirrored(u)));
    assert(mirrored(u) == k);
    assert(mirrored(mirrored(u)) == u);
}

/// One side's feature on a board turned round is the other side's on the board.
proof fn lemma_turned_feature(halfkp: bool, persp: u8, k: int, l: int, man: (u8, u8), s: int)
    requires
        persp < 2,
        man.1 < 2,
        0 <= s < 64,
        halfkp ==> l == mirrored(k) && 0 <= k < 64,
    ensures
        feature_of(halfkp, opposite(persp), l, (man.0, opposite(man.1)), s) == feature_of(halfkp, persp, k, man, mirrored(s)),
{
    assert(mirrored(mirrored(s)) == s);
    assert(halfkp ==> mirrored(l) == k);
}

/// Files up to `f` of a rank of the turned board add to the other perspective what the mirrored rank
/// adds to this one.
#[verifier::spinoff_prover]
#[verifier::rlimit(40)]
proof fn lemma_turned_terms_rank(net: Network, men: Seq<Option<(u8, u8)>>, persp: u8, k: int, l: int, i: int, r: int, f: int)
    requires
        men.len() == 64,
        forall|s: int| 0 <= s < 64 ==> (#[trigger] men[s] matches Some(man) ==> man.1 < 2),
        persp < 2,
        net.halfkp() ==> l == mirrored(k) && 0 <= k < 64,
        0 <= r < 8,
        0 <= f <= 8,
    ensures
        ({
            let (a, b) = (8 * r, 8 * (7 - r));
            men_terms(net, turned(men), opposite(persp), l, i, a + f) - men_terms(net, turned(men), opposite(persp), l, i, a)
                == men_terms(net, men, persp, k, i, b + f) - men_terms(net, men, persp, k, i, b)
        }),
    decreases f,
{
    if f > 0 {
        lemma_turned_terms_rank(net, men, persp, k, l, i, r, f - 1);
        let s = 8 * r + f - 1;
        let m = 8 * (7 - r) + f - 1;
        assert(mirrored(s) == m && mirrored(m) == s);
        assert(turned(men)[s] == match men[m] {
            Some(man) => Some((man.0, opposite(man.1))),
            None => None,
        });
        if let Some(man) = men[m] {
            lemma_turned_feature(net.halfkp(), persp, k, l, man, s);
        }
        assert(man_term(net, opposite(persp), l, turned(men)[s], s, i) == man_term(net, persp, k, men[m], m, i));
    }
}

proof fn lemma_turned_terms(net: Network, men: Seq<Option<(u8, u8)>>, persp: u8, k: int, l: int, i: int, r: int)
    requires
        men.len() == 64,
        forall|s: int| 0 <= s < 64 ==> (#[trigger] men[s] matches Some(man) ==> man.1 < 2),
        persp < 2,
        net.halfkp() ==> l == mirrored(k) && 0 <= k < 64,
        0 <= r <= 8,
    ensures
        men_terms(net, turned(men), opposite(persp), l, i, 8 * r) == men_terms(net, men, persp, k, i, 64) - men_terms(
            net,
            men,
            persp,
            k,
            i,
            8 * (8 - r),
        ),
    decreases r,
{
    if r > 0 {
        lemma_turned_terms(net, men, persp, k, l, i, r - 1);
        lemma_turned_terms_rank(net, men, persp, k, l, i, r - 1, 8);
    }
}

/// One side's accumulator on a board turned round is the other side's on the board.
pub proof fn law_turned_boards_exchange_perspectives(net: Network, p: PosView, persp: u8)
    requires
        accepted(p),
        persp < 2,
    ensures
        half_of(net, turned(p.men), opposite(persp)) == half_of(net, p.men, persp),
{
    lemma_turned_king(p.men, persp);
    let k = bucket(net, p.men, persp);
    let l = bucket(net, turned(p.men), opposite(persp));
    assert forall|i: int| 0 <= i < 256 implies half_value(net, turned(p.men), opposite(persp), i) == half_value(
        net,
        p.men,
        persp,
        i,
    ) by {
        lemma_turned_terms(net, p.men, persp, k, l, i, 8);
    }
    assert(half_of(net, turned(p.men), opposite(persp)) =~= half_of(net, p.men, persp));
}

/// The network has no favourite: with the board turned round and the other side to move its verdict
/// is the same.
pub proof fn law_network_has_no_favourite(net: Network, p: PosView, q: PosView)
    requires
        accepted(p),
        q.men == turned(p.men),
        q.side == opposite(p.side),
    ensures
        scratch_eval(net, q) == scratch_eval(net, p),
{
    law_turned_boards_exchange_perspectives(net, p, WHITE);
    law_turned_boards_exchange_perspectives(net, p, BLACK);
    law_verdict_is_the_movers(net, half_of(net, p.men, WHITE), half_of(net, p.men, BLACK));
    law_verdict_is_the_movers(net, half_of(net, p.men, BLACK), half_of(net, p.men, WHITE));
}

/// A hidden value whose weights are one for a single input and nothing for the others sums to that
/// input.
pub proof fn law_hidden_weights_stand_in_rows(net: Network, w: Seq<i16>, b: Seq<i16>, stm: u8, j: int, k: int, n: int)
    requires
        0 <= k < 512,
        0 <= n <= 512,
        forall|i: int| 0 <= i < 512 ==> #[trigger] net.w1@[j * 512 + i] == (if i == k {
            1i8
        } else {
            0i8
        }),
    ensures
        hidden_dot(net, w, b, stm, j, n) == if k < n {
            activation(w, b, stm, k)
        } else {
            0
        },
    decreases n,
{
    if n > 0 {
        law_hidden_weights_stand_in_rows(net, w, b, stm, j, k, n - 1);
        assert(net.w1@[j * 512 + (n - 1)] == (if n - 1 == k {
            1i8
        } else {
            0i8
        }));
        assert(j * 512 + n - 1 == j * 512 + (n - 1));
        let a = activation(w, b, stm, n - 1);
        assert(a * 1 == a && a * 0 == 0);
    }
}

/// A hidden value is its biased sum in units of 64, cut to 0..127.
pub proof fn law_hidden_values_are_cut(net: Network, w: Seq<i16>, b: Seq<i16>, stm: u8, j: int)
    requires
        -0x8000_0000 <= hidden_dot(net, w, b, stm, j, 512) + net.b1@[j] < 0x8000_0000,
    ensures
        ({
            let x = hidden_dot(net, w, b, stm, j, 512) + net.b1@[j];
            let h = hidden_value(net, w, b, stm, j);
            &&& 0 <= h <= 127
            &&& x <= 0 ==> h == 0
            &&& x >= 8128 ==> h == 127
            &&& 0 <= x <= 8128 ==> 64 * h <= x < 64 * h + 64
        }),
{
    let x = hidden_dot(net, w, b, stm, j, 512) + net.b1@[j];
    assert(wrap32(x) == x);
}

/// The verdict is four hundred for each 8128 of the biased output, towards nothing, where sums fit;
/// an output whose weights are one for a single hidden value and nothing for the others counts that
/// value.
pub proof fn law_output_is_in_centipawns(net: Network, w: Seq<i16>, b: Seq<i16>, stm: u8, k: int, n: int)
    requires
        0 <= k < 16,
        0 <= n <= 16,
        forall|i: int| 0 <= i < 16 ==> #[trigger] net.w2@[i] == (if i == k {
            1i32
        } else {
            0i32
        }),
        -5_000_000 <= net.b2 <= 5_000_000,
    ensures
        output_dot(net, w, b, stm, n) == if k < n {
            hidden_value(net, w, b, stm, k)
        } else {
            0
        },
        n == 16 ==> ({
            let x = net.b2 + hidden_value(net, w, b, stm, k);
            let v = network_output(net, w, b, stm);
            &&& x >= 0 ==> 8128 * v <= 400 * x < 8128 * v + 8128
            &&& x <= 0 ==> 8128 * v - 8128 < 400 * x <= 8128 * v
        }),
    decreases n,
{
    if n > 0 {
        law_output_is_in_centipawns(net, w, b, stm, k, n - 1);
        assert(net.w2@[n - 1] == (if n - 1 == k {
            1i32
        } else {
            0i32
        }));
        let h = hidden_value(net, w, b, stm, n - 1);
        assert(h * 1 == h && h * 0 == 0);
    }
    if n == 16 {
        let h = hidden_value(net, w, b, stm, k);
        assert(0 <= h <= 127);
        let x = net.b2 + h;
        assert(wrap32(x) == x);
        assert(wrap32(x * 400) == x * 400);
    }
}

/// A network file ends with the output bias; before it stand the output weights, the hidden biases and
/// weights, and the feature biases. The feature weights follow the header.
pub proof fn law_network_files_are_read_to_the_end(d: Seq<u8>, n: Network, i: int)
    requires
        file_holds(d, n),
        d.len() == file_size(d),
    ensures
        n.b2 == i32_at(d, d.len() - 4),
        0 <= i < 16 ==> n.w2@[i] == signed8(d[d.len() - 20 + i] as int),
        0 <= i < 16 ==> n.b1@[i] == i32_at(d, d.len() - 84 + 4 * i),
        0 <= i < 8192 ==> n.w1@[i] == signed8(d[d.len() - 8_276 + i] as int),
        0 <= i < 256 ==> n.ft_bias@[i] == i16_at(d, d.len() - 8_788 + 2 * i),
        0 <= i < n.ft@.len() && magic_basic(d) ==> n.ft@[i] == i16_at(d, 8 + 2 * i),
        0 <= i < n.ft@.len() && !magic_basic(d) ==> n.ft@[i] == i16_at(d, 12 + 2 * i),
        d.len() - 8_788 == file_header(d) + 2 * n.ft@.len(),
{
    let len = d.len() as int;
    let o4 = file_header(d) + file_features(d) * 512 + 512 + 8192;
    assert(o4 == len - 84);
    if 0 <= i < 16 {
        assert(n.w2@[i] == signed8(d[o4 + 64 + i] as int));
        assert(n.b1@[i] == i32_at(d, o4 + 4 * i));
    }
}

/// An accumulator's values wrap round at sixteen bits: they differ from the sum of their bias and their
/// men by whole turns.
pub proof fn law_accumulators_wrap_round(net: Network, men: Seq<Option<(u8, u8)>>, persp: u8, i: int)
    ensures
        -0x8000 <= half_value(net, men, persp, i) < 0x8000,
        (half_value(net, men, persp, i) - (net.ft_bias@[i] + half_terms(net, men, persp, i))) % 0x1_0000 == 0,
{
    let x = net.ft_bias@[i] + half_terms(net, men, persp, i);
    let z = x + 0x8000;
    vstd::arithmetic::div_mod::lemma_fundamental_div_mod(z, 0x1_0000);
    assert(wrap16(x) - x == -0x1_0000 * (z / 0x1_0000));
}

/// Without men an accumulator is its bias, and a man on a square adds the weights of its feature; a
/// king adds nothing where its square selects the weights.
pub proof fn law_men_add_their_features(net: Network, men: Seq<Option<(u8, u8)>>, persp: u8, i: int, n: int, k: int)
    requires
        0 <= n <= men.len(),
    ensures
        (forall|s: int| 0 <= s < n ==> #[trigger] men[s] is None) ==> men_terms(net, men, persp, k, i, n) == 0,
        n > 0 ==> (men[n - 1] matches Some(man) ==> men_terms(net, men, persp, k, i, n) - men_terms(net, men, persp, k, i, n - 1)
            == if net.input_dim == 40_960 && man.0 == 5 {
            0
        } else {
            net.ft@[feature_of(net.input_dim == 40_960, persp, k, man, n - 1) * 256 + i] as int
        }),
        n > 0 && men[n - 1] is None ==> men_terms(net, men, persp, k, i, n) == men_terms(net, men, persp, k, i, n - 1),
        net.input_dim == 40_960 ==> half_terms(net, men, persp, i) == men_terms(net, men, persp, king_square(men, persp), i, 64),
    decreases n,
{
    if n > 0 {
        law_men_add_their_features(net, men, persp, i, n - 1, k);
    }
}

/// A file without king squares has exactly 402,012 bytes, and one with features of its own 512 for each
/// beside 8,800; anything else about it is a fault.
pub proof fn law_network_files_have_one_size(d: Seq<u8>)
    requires
        d.len() >= 12,
        u32_at(d, 4) == 256,
    ensures
        magic_basic(d) ==> (file_fault(d) is None <==> d.len() == 402_012),
        !magic_basic(d) && magic_halfkp(d) ==> (file_fault(d) is None <==> d.len() == 8_800 + 512 * u32_at(d, 8)),
        !magic_basic(d) && !magic_halfkp(d) ==> file_fault(d) is Some,
{
}

/// Short files, strange ones and those of another width are refused.
pub proof fn law_strange_network_files_are_refused(d: Seq<u8>)
    ensures
        d.len() < 12 ==> file_fault(d) == Some(LoadError::TooShort),
        file_fault(d) is None ==> u32_at(d, 4) == 256 && d[0] == 0x50 && d[1] == 0x5a && d[2] == 0x52 && (d[3] == 0x31 || d[3] == 0x48),
{
}

} // verus!

//! What a search remembers of moves and positions to order and judge later ones: killers,
//! countermoves, history and continuation history of quiet moves, history of captures, and
//! corrections of the static evaluation by pawn structure.
use vstd::prelude::*;
use crate::board::{bit, lemma_bit_set, lemma_bit_zero, wf, Move, Position, BLACK, PAWN, WHITE};
use crate::eval::quotient;
use crate::tt::{BOUND_LOWER, BOUND_UPPER};
use crate::tune::{at_least_one, hist_bonus_max, hist_bonus_mul, Params};

verus! {

pub const MATE: i32 = 32_000;

pub const INF: i32 = 32_500;

/// Scores beyond this are mates.
pub const MATE_BOUND: i32 = 31_488;

pub const MAX_PLY: usize = 128;

/// Corrections are kept in 256ths of a centipawn, and none is further from zero than this.
pub const CORR_MAX: i32 = 32_768;

pub const CAPT_SIZE: usize = 4608;

/// No history value is further from zero than this.
pub const HIST_CAP: i32 = 16_384;

// ---------------- history values ----------------
pub open spec fn magnitude(x: int) -> int {
    if x < 0 {
        -x
    } else {
        x
    }
}

/// A history value after a bonus, or a penalty where it is negative: the further the value has
/// gone, the less it moves.
pub open spec fn pulled(v: int, bonus: int) -> int {
    v + bonus - quotient(v * magnitude(bonus), 16_384)
}

/// History values never leave their range, however they are updated.
pub proof fn law_history_stays_in_range(v: int, bonus: int)
    requires
        -HIST_CAP <= v <= HIST_CAP,
        -HIST_CAP <= bonus <= HIST_CAP,
    ensures
        -HIST_CAP <= pulled(v, bonus) <= HIST_CAP,
{
    let b = magnitude(bonus);
    let u = magnitude(v);
    let p = u * b;
    let q = p / 16_384;
    assert(v * b == p || v * b == -p) by (nonlinear_arith)
        requires
            p == u * b,
            u == v || u == -v,
    ;
    assert(0 <= p <= 16_384 * u && p <= 16_384 * b && 16_384 * 16_384 - 16_384 * u - 16_384 * b + p >= 0)
        by (nonlinear_arith)
        requires
            p == u * b,
            0 <= u <= 16_384,
            0 <= b <= 16_384,
    ;
    assert(16_384 * q <= p < 16_384 * q + 16_384);
    assert(v >= 0 ==> v * b == p) by (nonlinear_arith)
        requires
            p == u * b,
            v >= 0 ==> u == v,
    ;
    assert(v < 0 ==> v * b == -p) by (nonlinear_arith)
        requires
            p == u * b,
            v < 0 ==> u == -v,
    ;
}

/// A bonus never lowers a history value and a penalty never raises it.
pub proof fn law_bonus_moves_history_its_way(v: int, bonus: int)
    requires
        -HIST_CAP <= v <= HIST_CAP,
        -HIST_CAP <= bonus <= HIST_CAP,
    ensures
        bonus >= 0 ==> pulled(v, bonus) >= v,
        bonus <= 0 ==> pulled(v, bonus) <= v,
{
    let b = magnitude(bonus);
    let u = magnitude(v);
    let p = u * b;
    assert(0 <= p <= 16_384 * b) by (nonlinear_arith)
        requires
            p == u * b,
            0 <= u <= 16_384,
            0 <= b,
    ;
    assert(v >= 0 ==> v * b == p) by (nonlinear_arith)
        requires
            p == u * b,
            v >= 0 ==> u == v,
    ;
    assert(v < 0 ==> v * b == -p) by (nonlinear_arith)
        requires
            p == u * b,
            v < 0 ==> u == -v,
    ;
    assert(p / 16_384 <= b);
}

fn pull(v: i16, bonus: i32) -> (r: i16)
    requires
        -HIST_CAP <= v <= HIST_CAP,
        -HIST_CAP <= bonus <= HIST_CAP,
    ensures
        r == pulled(v as int, bonus as int),
        -HIST_CAP <= r <= HIST_CAP,
{
    let w: i32 = v as i32;
    let b: i32 = if bonus < 0 {
        -bonus
    } else {
        bonus
    };
    assert(-268_435_456 <= w * b <= 268_435_456) by (nonlinear_arith)
        requires
            -16_384 <= w <= 16_384,
            0 <= b <= 16_384,
    ;
    proof {
        law_history_stays_in_range(v as int, bonus as int);
    }
    let t: i32 = w * b / 16_384;
    assert(t == quotient(w * b, 16_384));
    (w + bonus - t) as i16
}

/// The history bonus of a cutoff at `depth`.
pub open spec fn bonus_at(p: Params, depth: int) -> int {
    let b = depth * depth * at_least_one(p.hist_bonus_mul);
    let cap = at_least_one(p.hist_bonus_max) as int;
    if b < cap {
        b
    } else {
        cap
    }
}

/// Parameters a search can run with: within what the options allow.
pub open spec fn params_ok(p: Params) -> bool {
    &&& 0 <= p.rfp_margin <= 1000
    &&& 0 <= p.nmp_base <= 100
    &&& 0 <= p.lmp_base <= 1000
    &&& p.hist_bonus_mul <= 1000
    &&& p.hist_bonus_max <= HIST_CAP
}

/// Whether a search can go by some parameters.
pub fn params_usable(p: &Params) -> (r: bool)
    ensures
        r == params_ok(*p),
{
    0 <= p.rfp_margin && p.rfp_margin <= 1000 && 0 <= p.nmp_base && p.nmp_base <= 100 && 0 <= p.lmp_base && p.lmp_base <= 1000
        && p.hist_bonus_mul <= 1000 && p.hist_bonus_max <= HIST_CAP
}

pub fn hist_bonus(p: &Params, depth: i32) -> (r: i32)
    requires
        params_ok(*p),
        -1000 <= depth <= 1000,
    ensures
        r == bonus_at(*p, depth as int),
        0 <= r <= HIST_CAP,
{
    let mul: i32 = hist_bonus_mul(p);
    let max: i32 = hist_bonus_max(p);
    assert(0 <= depth * depth <= 1_000_000) by (nonlinear_arith)
        requires
            -1000 <= depth <= 1000,
    ;
    let sq: i32 = depth * depth;
    assert(0 <= sq * mul <= 1_000_000_000) by (nonlinear_arith)
        requires
            0 <= sq <= 1_000_000,
            1 <= mul <= 1000,
    ;
    let b: i32 = sq * mul;
    if b < max {
        b
    } else {
        max
    }
}

// ---------------- tables ----------------
pub struct Tables {
    /// Two quiet moves that cut at each ply.
    pub killers: Vec<(u16, u16)>,
    /// By side, origin and destination.
    pub history: Vec<i16>,
    /// By side and the opponent's move: the packed answer that cut.
    pub counter: Vec<u16>,
    /// By block, predecessor and move.
    pub cont: Vec<i16>,
    /// By side, piece and destination, and victim.
    pub capt: Vec<i16>,
    /// By side and pawn structure.
    pub corr: Vec<i32>,
}

pub open spec fn in_range(v: Seq<i16>) -> bool {
    forall|i: int| 0 <= i < v.len() ==> -HIST_CAP <= #[trigger] v[i] <= HIST_CAP
}

/// The row of each block that stands for no predecessor is zero.
pub open spec fn rows_zero(v: Seq<i16>) -> bool {
    forall|b: int, ci: int|
        #![trigger v[b * 147_840 + 147_456 + ci]]
        0 <= b < 4 && 0 <= ci < 384 ==> v[b * 147_840 + 147_456 + ci] == 0
}

/// Killers of a fresh search.
pub fn no_killers() -> (r: Vec<(u16, u16)>)
    ensures
        r@.len() == MAX_PLY,
        forall|i: int| 0 <= i < MAX_PLY ==> #[trigger] r@[i] == (0u16, 0u16),
{
    let mut v: Vec<(u16, u16)> = Vec::with_capacity(MAX_PLY);
    let mut i: usize = 0;
    while i < MAX_PLY
        invariant
            i <= MAX_PLY,
            v@.len() == i,
            forall|k: int| 0 <= k < i ==> #[trigger] v@[k] == (0u16, 0u16),
        decreases MAX_PLY - i,
    {
        v.push((0, 0));
        i = i + 1;
    }
    v
}

/// Nothing has been learned yet.
pub open spec fn fresh(t: Tables) -> bool {
    &&& forall|i: int| 0 <= i < 8192 ==> #[trigger] t.history@[i] == 0
    &&& forall|i: int| 0 <= i < 8192 ==> #[trigger] t.counter@[i] == 0
    &&& forall|i: int| 0 <= i < 591_360 ==> #[trigger] t.cont@[i] == 0
    &&& forall|i: int| 0 <= i < CAPT_SIZE ==> #[trigger] t.capt@[i] == 0
    &&& forall|i: int| 0 <= i < 32_768 ==> #[trigger] t.corr@[i] == 0
    &&& forall|i: int| 0 <= i < MAX_PLY ==> #[trigger] t.killers@[i] == (0u16, 0u16)
}

impl Tables {
    pub open spec fn wf(&self) -> bool {
        &&& self.killers@.len() == MAX_PLY
        &&& self.history@.len() == 8192
        &&& in_range(self.history@)
        &&& self.counter@.len() == 8192
        &&& self.cont@.len() == 591_360
        &&& in_range(self.cont@)
        &&& rows_zero(self.cont@)
        &&& self.capt@.len() == CAPT_SIZE
        &&& in_range(self.capt@)
        &&& self.corr@.len() == 32_768
        &&& forall|i: int| 0 <= i < 32_768 ==> -CORR_MAX <= #[trigger] self.corr@[i] <= CORR_MAX
    }

    /// Tables that have learned nothing.
    pub fn new() -> (r: Tables)
        ensures
            r.wf(),
            fresh(r),
    {
        Tables {
            killers: no_killers(),
            history: vec![0i16;8192],
            counter: vec![0u16;8192],
            cont: vec![0i16;591_360],
            capt: vec![0i16;4608],
            corr: vec![0i32;32_768],
        }
    }
}

/// Index into butterfly history and countermoves.
pub open spec fn from_to(stm: u8, from: int, to: int) -> int {
    stm * 4096 + from * 64 + to
}

pub fn from_to_index(stm: u8, from: u8, to: u8) -> (r: usize)
    requires
        stm < 2,
        from < 64,
        to < 64,
    ensures
        r == from_to(stm, from as int, to as int),
        r < 8192,
{
    stm as usize * 4096 + from as usize * 64 + to as usize
}

/// Index into capture history.
pub open spec fn capt_slot(stm: u8, piece: int, to: int, victim: int) -> int {
    (stm * 384 + piece * 64 + to) * 6 + victim
}

pub fn capt_index(stm: u8, piece: u8, to: u8, victim: u8) -> (r: usize)
    requires
        stm < 2,
        piece < 6,
        to < 64,
        victim < 6,
    ensures
        r == capt_slot(stm, piece as int, to as int, victim as int),
        r < CAPT_SIZE,
{
    (stm as usize * 384 + piece as usize * 64 + to as usize) * 6 + victim as usize
}

/// Index of a move in a block of continuation history, after predecessor `pred`.
pub open spec fn cont_slot(block: int, pred: int, ci: int) -> int {
    block * 147_840 + pred * 384 + ci
}

/// The moves one and two plies back, 384 where there is none.
#[derive(Clone, Copy)]
pub struct Preds {
    pub one: u16,
    pub two: u16,
}

impl Preds {
    pub open spec fn wf(&self) -> bool {
        self.one <= 384 && self.two <= 384
    }
}

/// The move `back` plies ago on the path.
pub open spec fn pred_at(stack: Seq<u16>, back: int) -> u16 {
    if stack.len() >= back {
        stack[stack.len() - back]
    } else {
        384
    }
}

pub open spec fn stack_ok(stack: Seq<u16>) -> bool {
    forall|i: int| 0 <= i < stack.len() ==> #[trigger] stack[i] <= 384
}

pub fn cont_preds(stack: &Vec<u16>) -> (r: Preds)
    requires
        stack_ok(stack@),
    ensures
        r.wf(),
        r.one == pred_at(stack@, 1),
        r.two == pred_at(stack@, 2),
{
    let n: usize = stack.len();
    Preds {
        one: if n >= 1 {
            stack[n - 1]
        } else {
            384
        },
        two: if n >= 2 {
            stack[n - 2]
        } else {
            384
        },
    }
}

/// Continuation history of move `ci` after its predecessors.
pub open spec fn cont_sum(cont: Seq<i16>, p: Preds, ci: int) -> int {
    cont[cont_slot(0, p.one as int, ci)] + cont[cont_slot(1, p.two as int, ci)]
}

/// A block's entry after a bonus; with no predecessor there is none to change.
pub open spec fn cont_block_after(cont: Seq<i16>, block: int, pred: u16, ci: int, bonus: int) -> Seq<i16> {
    if pred == 384 {
        cont
    } else {
        cont.update(
            cont_slot(block, pred as int, ci),
            pulled(cont[cont_slot(block, pred as int, ci)] as int, bonus) as i16,
        )
    }
}

pub open spec fn cont_after(cont: Seq<i16>, p: Preds, ci: int, bonus: int) -> Seq<i16> {
    cont_block_after(cont_block_after(cont, 0, p.one, ci, bonus), 1, p.two, ci, bonus)
}

/// History after a bonus to one move.
pub open spec fn hist_after(history: Seq<i16>, stm: u8, m: Move, bonus: int) -> Seq<i16> {
    let i = from_to(stm, m.from as int, m.to as int);
    history.update(i, pulled(history[i] as int, bonus) as i16)
}

/// History after penalties to the first `n` quiet moves that did not cut.
pub open spec fn hist_penalized(history: Seq<i16>, stm: u8, tried: Seq<(Move, u16)>, n: int, bonus: int) -> Seq<i16>
    decreases n,
{
    if n <= 0 {
        history
    } else {
        hist_after(hist_penalized(history, stm, tried, n - 1, bonus), stm, tried[n - 1].0, -bonus)
    }
}

/// Continuation history after penalties to the first `n` quiet moves that did not cut.
pub open spec fn cont_penalized(cont: Seq<i16>, p: Preds, tried: Seq<(Move, u16)>, n: int, bonus: int) -> Seq<i16>
    decreases n,
{
    if n <= 0 {
        cont
    } else {
        cont_after(cont_penalized(cont, p, tried, n - 1, bonus), p, tried[n - 1].1 as int, -bonus)
    }
}

/// The killers of a ply after a quiet move cut there.
pub open spec fn killers_after(k: (u16, u16), packed: u16) -> (u16, u16) {
    if k.0 == packed {
        k
    } else {
        (packed, k.0)
    }
}

pub open spec fn tried_ok(tried: Seq<(Move, u16)>) -> bool {
    forall|i: int|
        0 <= i < tried.len() ==> (#[trigger] tried[i]).0.from < 64 && tried[i].0.to < 64 && tried[i].1 < 384
}

impl Tables {
    pub fn cont_score(&self, p: &Preds, ci: usize) -> (r: i32)
        requires
            self.wf(),
            p.wf(),
            ci < 384,
        ensures
            r == cont_sum(self.cont@, *p, ci as int),
            -2 * HIST_CAP <= r <= 2 * HIST_CAP,
    {
        let a: usize = p.one as usize * 384 + ci;
        let b: usize = 147_840 + p.two as usize * 384 + ci;
        self.cont[a] as i32 + self.cont[b] as i32
    }

    fn cont_block_bonus(&mut self, block: usize, pred: u16, ci: usize, bonus: i32)
        requires
            old(self).wf(),
            block < 2,
            pred <= 384,
            ci < 384,
            -HIST_CAP <= bonus <= HIST_CAP,
        ensures
            final(self).wf(),
            final(self).cont@ == cont_block_after(old(self).cont@, block as int, pred, ci as int, bonus as int),
            *final(self) == (Tables { cont: final(self).cont, ..*old(self) }),
    {
        if pred != 384 {
            let i: usize = block * 147_840 + pred as usize * 384 + ci;
            let v: i16 = self.cont[i];
            self.cont[i] = pull(v, bonus);
            proof {
                assert forall|b: int, c: int|
                    #![trigger self.cont@[b * 147_840 + 147_456 + c]]
                    0 <= b < 4 && 0 <= c < 384 implies self.cont@[b * 147_840 + 147_456 + c] == 0 by {
                    assert(old(self).cont@[b * 147_840 + 147_456 + c] == 0);
                    assert(b * 147_840 + 147_456 + c != i);
                }
            }
        }
    }

    /// Continuation history of one move, rewarded or penalized.
    pub fn cont_bonus(&mut self, p: &Preds, ci: usize, bonus: i32)
        requires
            old(self).wf(),
            p.wf(),
            ci < 384,
            -HIST_CAP <= bonus <= HIST_CAP,
        ensures
            final(self).wf(),
            final(self).cont@ == cont_after(old(self).cont@, *p, ci as int, bonus as int),
            *final(self) == (Tables { cont: final(self).cont, ..*old(self) }),
    {
        self.cont_block_bonus(0, p.one, ci, bonus);
        self.cont_block_bonus(1, p.two, ci, bonus);
    }

    fn hist_bonus_to(&mut self, stm: u8, m: Move, bonus: i32)
        requires
            old(self).wf(),
            stm < 2,
            m.from < 64,
            m.to < 64,
            -HIST_CAP <= bonus <= HIST_CAP,
        ensures
            final(self).wf(),
            final(self).history@ == hist_after(old(self).history@, stm, m, bonus as int),
            *final(self) == (Tables { history: final(self).history, ..*old(self) }),
    {
        let i: usize = from_to_index(stm, m.from, m.to);
        let v: i16 = self.history[i];
        self.history[i] = pull(v, bonus);
    }

    /// A quiet move has cut: it becomes a killer and a countermove, its histories rise, and the
    /// quiet moves tried before it lose theirs.
    pub fn quiet_cutoff(&mut self, ply: usize, stm: u8, m: Move, packed: u16, prev: u16, p: &Preds, ci: usize, tried: &Vec<(Move, u16)>, bonus: i32)
        requires
            old(self).wf(),
            ply < MAX_PLY,
            stm < 2,
            m.from < 64,
            m.to < 64,
            p.wf(),
            ci < 384,
            tried_ok(tried@),
            0 <= bonus <= HIST_CAP,
        ensures
            final(self).wf(),
            final(self).killers@ == old(self).killers@.update(
                ply as int,
                killers_after(old(self).killers@[ply as int], packed),
            ),
            final(self).counter@ == if prev == 0 {
                old(self).counter@
            } else {
                old(self).counter@.update(from_to(stm, prev as int % 64, prev as int / 64 % 64), packed)
            },
            final(self).history@ == hist_penalized(
                hist_after(old(self).history@, stm, m, bonus as int),
                stm,
                tried@,
                tried@.len() as int,
                bonus as int,
            ),
            final(self).cont@ == cont_penalized(
                cont_after(old(self).cont@, *p, ci as int, bonus as int),
                *p,
                tried@,
                tried@.len() as int,
                bonus as int,
            ),
            final(self).capt == old(self).capt,
            final(self).corr == old(self).corr,
    {
        let k: (u16, u16) = self.killers[ply];
        if k.0 != packed {
            self.killers[ply] = (packed, k.0);
        }
        assert(self.killers@ =~= old(self).killers@.update(ply as int, killers_after(k, packed)));
        if prev != 0 {
            let f: u8 = (prev % 64) as u8;
            let t: u8 = (prev / 64 % 64) as u8;
            let i: usize = from_to_index(stm, f, t);
            self.counter[i] = packed;
        }
        self.hist_bonus_to(stm, m, bonus);
        self.cont_bonus(p, ci, bonus);
        let ghost h0 = self.history@;
        let ghost c0 = self.cont@;
        let ghost base = *self;
        let n: usize = tried.len();
        let mut i: usize = 0;
        while i < n
            invariant
                i <= n,
                n == tried@.len(),
                self.wf(),
                stm < 2,
                p.wf(),
                tried_ok(tried@),
                0 <= bonus <= HIST_CAP,
                self.history@ == hist_penalized(h0, stm, tried@, i as int, bonus as int),
                self.cont@ == cont_penalized(c0, *p, tried@, i as int, bonus as int),
                *self == (Tables { history: self.history, cont: self.cont, ..base }),
            decreases n - i,
        {
            let (q, qci): (Move, u16) = tried[i];
            assert(tried@[i as int].0.from < 64);
            self.hist_bonus_to(stm, q, -bonus);
            self.cont_bonus(p, qci as usize, -bonus);
            i = i + 1;
        }
    }

    /// Capture history of one capture, rewarded or penalized.
    pub fn capt_bonus(&mut self, stm: u8, piece: u8, to: u8, victim: u8, bonus: i32)
        requires
            old(self).wf(),
            stm < 2,
            piece < 6,
            to < 64,
            victim < 6,
            -HIST_CAP <= bonus <= HIST_CAP,
        ensures
            final(self).wf(),
            ({
                let i = capt_slot(stm, piece as int, to as int, victim as int);
                final(self).capt@ == old(self).capt@.update(
                    i,
                    pulled(old(self).capt@[i] as int, bonus as int) as i16,
                )
            }),
            *final(self) == (Tables { capt: final(self).capt, ..*old(self) }),
    {
        let i: usize = capt_index(stm, piece, to, victim);
        let v: i16 = self.capt[i];
        self.capt[i] = pull(v, bonus);
    }
}

// ---------------- corrections ----------------
/// A bit for every man of a piece and colour on the first `n` squares.
pub open spec fn mask(men: Seq<Option<(u8, u8)>>, piece: u8, c: u8, n: int) -> u64
    decreases n,
{
    if n <= 0 {
        0
    } else if men[n - 1] == Some((piece, c)) {
        mask(men, piece, c, n - 1) | (1u64 << ((n - 1) as u64))
    } else {
        mask(men, piece, c, n - 1)
    }
}

/// The bits of white's and black's pawns, mixed.
pub open spec fn pawn_mix(w: u64, b: u64) -> u64 {
    let x = w.wrapping_mul(0x9E37_79B9_7F4A_7C15) ^ b.wrapping_mul(0xBF58_476D_1CE4_E5B9);
    let y = x ^ (x >> 31);
    let z = y.wrapping_mul(0x94D0_49BB_1331_11EB);
    z ^ (z >> 29)
}

/// The correction bucket of a pawn structure for the side to move.
pub open spec fn corr_slot(w: u64, b: u64, stm: u8) -> int {
    stm * 16_384 + pawn_mix(w, b) as int % 16_384
}

/// The correction bucket of a position for side `stm`.
#[verifier::opaque]
pub open spec fn corr_bucket(men: Seq<Option<(u8, u8)>>, stm: u8) -> int {
    corr_slot(mask(men, PAWN, WHITE, 64), mask(men, PAWN, BLACK, 64), stm)
}

/// The men of one piece and colour, one bit each.
fn mask_of(board: &Position, piece: u8, c: u8) -> (r: u64)
    requires
        wf(board@),
    ensures
        r == mask(board@.men, piece, c, 64),
{
    let mut r: u64 = 0;
    let mut s: u8 = 0;
    while s < 64
        invariant
            s <= 64,
            wf(board@),
            r == mask(board@.men, piece, c, s as int),
        decreases 64 - s,
    {
        let hit: bool = match board.man(s) {
            Some((p, k)) => p == piece && k == c,
            None => false,
        };
        if hit {
            r = r | (1u64 << s);
        }
        s = s + 1;
    }
    r
}

/// The correction bucket of a position for side `stm`.
pub fn corr_index(board: &Position, stm: u8) -> (r: usize)
    requires
        wf(board@),
        stm < 2,
    ensures
        r < 32_768,
        r == corr_bucket(board@.men, stm),
{
    let w: u64 = mask_of(board, PAWN, WHITE);
    let b: u64 = mask_of(board, PAWN, BLACK);
    let x: u64 = w.wrapping_mul(0x9E37_79B9_7F4A_7C15) ^ b.wrapping_mul(0xBF58_476D_1CE4_E5B9);
    let y: u64 = x ^ (x >> 31);
    let z: u64 = y.wrapping_mul(0x94D0_49BB_1331_11EB);
    let m: u64 = z ^ (z >> 29);
    proof {
        reveal(corr_bucket);
    }
    stm as usize * 16_384 + (m % 16_384) as usize
}

/// The correction a bucket holds, in centipawns.
pub open spec fn corrected(corr: Seq<i32>, ci: int, raw: int) -> int {
    raw + quotient(corr[ci] as int, 256)
}

pub open spec fn clamped(x: int, lo: int, hi: int) -> int {
    if x < lo {
        lo
    } else if x > hi {
        hi
    } else {
        x
    }
}

/// However much has been learned, an evaluation is never shifted by more than 128 centipawns.
pub proof fn law_correction_is_small(t: Tables, ci: int, raw: int)
    requires
        t.wf(),
        0 <= ci < 32_768,
    ensures
        raw - 128 <= corrected(t.corr@, ci, raw) <= raw + 128,
{
    assert(-CORR_MAX <= t.corr@[ci] <= CORR_MAX);
}

/// Whether a search result teaches the correction table anything: not where the best move
/// captures or the score is a mate, and not from a bound that says nothing about the static
/// evaluation.
pub open spec fn teaches(static_eval: int, best: int, bound: u8, best_is_capture: bool) -> bool {
    &&& !best_is_capture
    &&& -MATE_BOUND < best < MATE_BOUND
    &&& !(bound == BOUND_LOWER && best <= static_eval)
    &&& !(bound == BOUND_UPPER && best >= static_eval)
}

/// A correction after a result at `depth` that was `diff` off the static evaluation.
pub open spec fn learned(e: int, diff: int, depth: int) -> int {
    let w = clamped(depth, 1, 8);
    clamped(quotient(e * (16 - w) + clamped(diff, -128, 128) * 256 * w, 16), -32_768, 32_768)
}

/// The corrections after a search result: one of them has moved, where the result teaches anything.
pub open spec fn corr_after(corr: Seq<i32>, ci: int, static_eval: int, best: int, bound: u8, depth: int, best_is_capture: bool) -> Seq<i32> {
    if teaches(static_eval, best, bound, best_is_capture) {
        corr.update(ci, learned(corr[ci] as int, best - static_eval, depth) as i32)
    } else {
        corr
    }
}

/// A result moves no correction but its own, and that one no further than to what it asks for: the
/// difference from the static evaluation, at most 128 centipawns either way. It stays within
/// bounds. A capture, a mate score, and a bound that says nothing about the static evaluation
/// change nothing.
pub proof fn law_correction_moves_towards_its_target(
    corr: Seq<i32>,
    ci: int,
    static_eval: int,
    best: int,
    bound: u8,
    depth: int,
    best_is_capture: bool,
)
    requires
        0 <= ci < corr.len(),
        forall|i: int| 0 <= i < corr.len() ==> -CORR_MAX <= #[trigger] corr[i] <= CORR_MAX,
    ensures
        ({
            let after = corr_after(corr, ci, static_eval, best, bound, depth, best_is_capture);
            let target = clamped(best - static_eval, -128, 128) * 256;
            &&& after.len() == corr.len()
            &&& forall|i: int| 0 <= i < corr.len() && i != ci ==> #[trigger] after[i] == corr[i]
            &&& forall|i: int| 0 <= i < corr.len() ==> -CORR_MAX <= #[trigger] after[i] <= CORR_MAX
            &&& corr[ci] <= after[ci] <= target || target <= after[ci] <= corr[ci] || after[ci] == corr[ci]
            &&& best_is_capture || best >= MATE_BOUND || best <= -MATE_BOUND || (bound == BOUND_LOWER && best <= static_eval) || (
            bound == BOUND_UPPER && best >= static_eval) ==> after == corr
        }),
{
    let e = corr[ci] as int;
    let w = clamped(depth, 1, 8);
    let target = clamped(best - static_eval, -128, 128) * 256;
    let t = e * (16 - w) + clamped(best - static_eval, -128, 128) * 256 * w;
    assert(t == e * (16 - w) + target * w);
    assert(16 * e <= t <= 16 * target || 16 * target <= t <= 16 * e) by (nonlinear_arith)
        requires
            t == e * (16 - w) + target * w,
            1 <= w <= 8,
    ;
    assert(-CORR_MAX <= corr[ci] <= CORR_MAX);
    let q = quotient(t, 16);
    assert(e <= q <= target || target <= q <= e);
}

impl Tables {
    /// The static evaluation with what has been learned of its pawn structure.
    pub fn corrected_eval_at(&self, ci: usize, raw: i32) -> (r: i32)
        requires
            self.wf(),
            ci < 32_768,
            -2_000_000_000 <= raw <= 2_000_000_000,
        ensures
            r == corrected(self.corr@, ci as int, raw as int),
            raw - 128 <= r <= raw + 128,
    {
        let e: i32 = self.corr[ci];
        let q: i32 = e / 256;
        assert(q == quotient(e as int, 256));
        raw + q
    }

    /// Folds a search result into the correction of its pawn structure.
    pub fn update_corr(&mut self, ci: usize, static_eval: i32, best: i32, bound: u8, depth: i32, best_is_capture: bool)
        requires
            old(self).wf(),
            ci < 32_768,
            best_is_capture || best > i32::MIN,
            teaches(static_eval as int, best as int, bound, best_is_capture) ==> i32::MIN <= best - static_eval <= i32::MAX,
        ensures
            final(self).wf(),
            *final(self) == (Tables { corr: final(self).corr, ..*old(self) }),
            final(self).corr@ == corr_after(
                old(self).corr@,
                ci as int,
                static_eval as int,
                best as int,
                bound,
                depth as int,
                best_is_capture,
            ),
    {
        if best_is_capture || best >= MATE_BOUND || best <= -MATE_BOUND {
            return;
        }
        if (bound == BOUND_LOWER && best <= static_eval) || (bound == BOUND_UPPER && best >= static_eval) {
            return;
        }
        let w: i32 = if depth < 1 {
            1
        } else if depth > 8 {
            8
        } else {
            depth
        };
        let d: i32 = best - static_eval;
        let c: i32 = if d < -128 {
            -128
        } else if d > 128 {
            128
        } else {
            d
        };
        let e: i32 = self.corr[ci];
        assert(-524_288 <= e * (16 - w) <= 524_288 && -262_144 <= c * 256 * w <= 262_144) by (nonlinear_arith)
            requires
                -32_768 <= e <= 32_768,
                1 <= w <= 8,
                -128 <= c <= 128,
        ;
        let t: i32 = e * (16 - w) + c * 256 * w;
        let q: i32 = t / 16;
        assert(q == quotient(t as int, 16));
        let v: i32 = if q < -32_768 {
            -32_768
        } else if q > 32_768 {
            32_768
        } else {
            q
        };
        self.corr[ci] = v;
    }
}

/// Positions with the same pawns share a correction, whatever else stands on the board.
pub proof fn law_correction_depends_on_pawns_alone(a: Seq<Option<(u8, u8)>>, b: Seq<Option<(u8, u8)>>, stm: u8)
    requires
        forall|t: int| 0 <= t < 64 ==> (#[trigger] a[t] == Some((PAWN, WHITE)) <==> b[t] == Some((PAWN, WHITE))),
        forall|t: int| 0 <= t < 64 ==> (#[trigger] a[t] == Some((PAWN, BLACK)) <==> b[t] == Some((PAWN, BLACK))),
    ensures
        corr_bucket(a, stm) == corr_bucket(b, stm),
{
    reveal(corr_bucket);
    lemma_same_mask(a, b, WHITE, 64);
    lemma_same_mask(a, b, BLACK, 64);
}

proof fn lemma_same_mask(a: Seq<Option<(u8, u8)>>, b: Seq<Option<(u8, u8)>>, c: u8, n: int)
    requires
        n <= 64,
        forall|t: int| 0 <= t < 64 ==> (#[trigger] a[t] == Some((PAWN, c)) <==> b[t] == Some((PAWN, c))),
    ensures
        mask(a, PAWN, c, n) == mask(b, PAWN, c, n),
    decreases n,
{
    if n > 0 {
        lemma_same_mask(a, b, c, n - 1);
        assert(a[n - 1] == Some((PAWN, c)) <==> b[n - 1] == Some((PAWN, c)));
    }
}

// ---------------- laws ----------------
/// Moves of different sides, origins or targets keep their history apart.
pub proof fn law_history_slots_are_apart(stm: u8, from: int, to: int)
    requires
        stm < 2,
        0 <= from < 64,
        0 <= to < 64,
    ensures
        from_to(stm, from, to) % 64 == to,
        from_to(stm, from, to) / 64 % 64 == from,
        from_to(stm, from, to) / 4096 == stm,
{
}

/// Captures that differ in side, piece, square or victim keep their history apart, and so do replies
/// to different moves.
pub proof fn law_capture_and_reply_slots_are_apart(stm: u8, piece: int, to: int, victim: int, block: int, pred: int, ci: int)
    requires
        stm < 2,
        0 <= piece < 6,
        0 <= to < 64,
        0 <= victim < 6,
        0 <= block < 4,
        0 <= pred <= 384,
        0 <= ci < 384,
    ensures
        capt_slot(stm, piece, to, victim) % 6 == victim,
        capt_slot(stm, piece, to, victim) / 6 % 64 == to,
        capt_slot(stm, piece, to, victim) / 384 % 6 == piece,
        capt_slot(stm, piece, to, victim) / 2304 == stm,
        cont_slot(block, pred, ci) % 384 == ci,
        cont_slot(block, pred, ci) / 384 == 385 * block + pred,
{
}

/// A new killer comes first and the former first one stays behind it; none is kept twice.
pub proof fn law_killers_are_the_last_two(k: (u16, u16), m: u16)
    ensures
        killers_after(k, m).0 == m,
        k.0 != m ==> killers_after(k, m).1 == k.0,
        k.0 == m ==> killers_after(k, m).1 == k.1,
        k.0 != k.1 ==> killers_after(k, m).0 != killers_after(k, m).1,
{
}

/// A bonus grows with the square of the depth up to its cap.
pub proof fn law_bonus_grows_with_depth(p: Params, depth: int)
    requires
        depth >= 1,
    ensures
        1 <= bonus_at(p, depth) <= bonus_at(p, depth + 1),
        p.hist_bonus_max >= 1 ==> bonus_at(p, depth) <= p.hist_bonus_max,
        p.hist_bonus_mul >= 1 && p.hist_bonus_max >= 1 ==> bonus_at(p, depth) == p.hist_bonus_max || bonus_at(p, depth) == p.hist_bonus_mul
            * (depth * depth),
        p.hist_bonus_mul >= 1 && p.hist_bonus_mul * (depth * depth) <= p.hist_bonus_max ==> bonus_at(p, depth) == p.hist_bonus_mul * (depth
            * depth),
{
    let m = at_least_one(p.hist_bonus_mul) as int;
    assert(depth * depth * m == m * (depth * depth)) by (nonlinear_arith);
    assert(depth * depth * m >= 1 && (depth + 1) * (depth + 1) * m >= depth * depth * m) by (nonlinear_arith)
        requires
            depth >= 1,
            m >= 1,
    ;
}

/// Good and bad moves are treated alike: what a bonus does to a history, the same penalty does to the
/// opposite one. A move without history takes the bonus whole, and one at the limit stays there.
pub proof fn law_bonus_and_penalty_mirror(v: int, bonus: int)
    ensures
        pulled(-v, -bonus) == -pulled(v, bonus),
        pulled(0, bonus) == bonus,
        bonus >= 0 ==> pulled(16_384, bonus) == 16_384,
        bonus >= 0 ==> pulled(-16_384, -bonus) == -16_384,
        bonus >= 0 ==> pulled(16_384, -bonus) == 16_384 - 2 * bonus,
        bonus >= 0 ==> pulled(8_192, 2 * bonus) == 8_192 + bonus,
{
    let b = magnitude(bonus);
    assert((-v) * b == -(v * b)) by (nonlinear_arith);
    assert(magnitude(-bonus) == b);
    assert(16_384 * b / 16_384 == b);
    assert((-16_384) * b == -(16_384 * b)) by (nonlinear_arith);
    assert(0 * b == 0);
    let d = magnitude(2 * bonus);
    assert(8_192 * d / 16_384 == b);
}

/// A search teaches the correction unless its best move captures, its score is a mate, or the score
/// is a bound that the evaluation already meets.
pub proof fn law_what_a_search_teaches(static_eval: int, best: int, bound: u8, best_is_capture: bool)
    ensures
        best_is_capture || best >= 31_488 || best <= -31_488 ==> !teaches(static_eval, best, bound, best_is_capture),
        bound == 2 && best <= static_eval ==> !teaches(static_eval, best, bound, best_is_capture),
        bound == 3 && best >= static_eval ==> !teaches(static_eval, best, bound, best_is_capture),
        !best_is_capture && -31_488 < best < 31_488 && (bound == 1 || (bound == 2 && best > static_eval) || (bound == 3 && best
            < static_eval)) ==> teaches(static_eval, best, bound, best_is_capture),
        teaches(static_eval, best, 2, best_is_capture) == teaches(-static_eval, -best, 3, best_is_capture),
{
}

/// A correction from nothing takes a sixteenth of the difference for each ply of depth, up to half of
/// it at eight plies and a half-pawn and more; corrections of opposite sign mirror each other; and the
/// correction in use is the stored one in units of 256, towards nothing.
pub proof fn law_correction_learns_by_depth(e: int, diff: int, depth: int, corr: Seq<i32>, ci: int, raw: int)
    ensures
        learned(-e, -diff, depth) == -learned(e, diff, depth),
        1 <= depth <= 8 && -128 <= diff <= 128 ==> learned(0, diff, depth) == 16 * diff * depth,
        depth >= 8 ==> learned(e, diff, depth) == learned(e, diff, 8),
        depth <= 1 ==> learned(e, diff, depth) == learned(e, diff, 1),
        diff >= 128 ==> learned(e, diff, depth) == learned(e, 128, depth),
        corr[ci] >= 0 ==> 256 * (corrected(corr, ci, raw) - raw) <= corr[ci] < 256 * (corrected(corr, ci, raw) - raw) + 256,
        corr[ci] <= 0 ==> 256 * (corrected(corr, ci, raw) - raw) - 256 < corr[ci] <= 256 * (corrected(corr, ci, raw) - raw),
{
    let w = clamped(depth, 1, 8);
    let d = clamped(diff, -128, 128);
    assert(clamped(-diff, -128, 128) == -d);
    assert((-e) * (16 - w) == -(e * (16 - w))) by (nonlinear_arith);
    assert((-d) * 256 * w == -(d * 256 * w)) by (nonlinear_arith);
    assert(0 * (16 - w) == 0);
    assert(d * 256 * w == 16 * (16 * d * w)) by (nonlinear_arith);
    if 1 <= depth <= 8 && -128 <= diff <= 128 {
        assert(16 * (16 * diff * depth) / 16 == 16 * diff * depth);
        assert(-16_384 <= 16 * diff * depth <= 16_384) by (nonlinear_arith)
            requires
                1 <= depth <= 8,
                -128 <= diff <= 128,
        ;
    }
}

/// A move's history changes by its own bonus and no other's: penalties leave every move that was not
/// tried as it was, and never raise one that was.
pub proof fn law_penalties_touch_tried_moves_alone(history: Seq<i16>, stm: u8, tried: Seq<(Move, u16)>, n: int, bonus: int, j: int)
    requires
        stm < 2,
        history.len() == 8192,
        in_range(history),
        0 <= n <= tried.len(),
        tried_ok(tried),
        0 <= bonus <= 16_384,
        0 <= j < 8192,
    ensures
        in_range(hist_penalized(history, stm, tried, n, bonus)),
        hist_penalized(history, stm, tried, n, bonus).len() == 8192,
        hist_penalized(history, stm, tried, n, bonus)[j] <= history[j],
        (forall|i: int| 0 <= i < n ==> from_to(stm, (#[trigger] tried[i]).0.from as int, tried[i].0.to as int) != j)
            ==> hist_penalized(history, stm, tried, n, bonus)[j] == history[j],
    decreases n,
{
    if n > 0 {
        law_penalties_touch_tried_moves_alone(history, stm, tried, n - 1, bonus, j);
        let h = hist_penalized(history, stm, tried, n - 1, bonus);
        let m = tried[n - 1].0;
        let s = from_to(stm, m.from as int, m.to as int);
        assert(-16_384 <= h[s] <= 16_384);
        lemma_penalty_lowers(h[s] as int, bonus);
        assert(forall|i: int| 0 <= i < 8192 ==> -16_384 <= #[trigger] h[i] <= 16_384);
    }
}

proof fn lemma_penalty_lowers(v: int, bonus: int)
    requires
        -16_384 <= v <= 16_384,
        0 <= bonus <= 16_384,
    ensures
        -16_384 <= pulled(v, -bonus) <= v,
{
    if v >= 0 {
        assert(0 <= v * bonus <= v * 16_384) by (nonlinear_arith)
            requires
                0 <= v <= 16_384,
                0 <= bonus <= 16_384,
        ;
        assert(v * (-bonus) == -(v * bonus)) by (nonlinear_arith);
    } else {
        let u = -v;
        assert(u * bonus == -(v * bonus)) by (nonlinear_arith)
            requires
                u == -v,
        ;
        assert(0 <= u * bonus <= 16_384 * bonus && u * bonus >= 16_384 * (u + bonus - 16_384)) by (nonlinear_arith)
            requires
                0 <= u <= 16_384,
                0 <= bonus <= 16_384,
        {
            assert((16_384 - u) * (16_384 - bonus) >= 0);
        }
    }
}

/// A mask holds the squares of its men and no others.
pub proof fn law_mask_holds_its_men(men: Seq<Option<(u8, u8)>>, piece: u8, c: u8, n: int, s: int)
    requires
        0 <= n <= 64,
        0 <= s < 64,
    ensures
        bit(mask(men, piece, c, n), s) <==> s < n && men[s] == Some((piece, c)),
    decreases n,
{
    if n <= 0 {
        lemma_bit_zero(s as u64);
    } else {
        law_mask_holds_its_men(men, piece, c, n - 1, s);
        lemma_bit_set(mask(men, piece, c, n - 1), (n - 1) as u64, s as u64);
    }
}

/// The moves before are found from the end of the line: the last, and the one before it; where the
/// line is too short there is none.
pub proof fn law_predecessors_are_the_last_moves(stack: Seq<u16>, x: u16, y: u16)
    ensures
        pred_at(stack.push(x), 1) == x,
        pred_at(stack.push(x).push(y), 1) == y,
        pred_at(stack.push(x).push(y), 2) == x,
        stack.len() == 0 ==> pred_at(stack, 1) == 384 && pred_at(stack.push(x), 2) == 384,
{
}

/// A reply's bonus goes to its entry behind the last move and behind the one before, each apart, and to
/// no other; behind a missing move it goes nowhere.
pub proof fn law_reply_bonus_touches_two_entries(cont: Seq<i16>, p: Preds, ci: int, bonus: int, j: int)
    requires
        p.one <= 384,
        p.two <= 384,
        0 <= ci < 384,
        cont.len() == 591_360,
        0 <= j < 591_360,
    ensures
        j != 384 * p.one + ci && j != 147_840 + 384 * p.two + ci ==> cont_after(cont, p, ci, bonus)[j] == cont[j],
        j == 384 * p.one + ci && p.one < 384 ==> cont_after(cont, p, ci, bonus)[j] == pulled(cont[j] as int, bonus) as i16,
        j == 147_840 + 384 * p.two + ci && p.two < 384 ==> cont_after(cont, p, ci, bonus)[j] == pulled(cont[j] as int, bonus) as i16,
        p.one == 384 && p.two == 384 ==> cont_after(cont, p, ci, bonus) == cont,
{
}

/// Corrections are kept apart for the two sides.
pub proof fn law_corrections_are_kept_by_side(w: u64, b: u64)
    ensures
        0 <= corr_slot(w, b, 0) < 16_384,
        corr_slot(w, b, 1) == corr_slot(w, b, 0) + 16_384,
{
}

} // verus!

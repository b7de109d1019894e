//! Time management: how long a move may take.
use vstd::prelude::*;

verus! {

/// What a search may spend.
#[derive(Clone, Copy, Debug)]
pub struct Limits {
    pub depth: Option<i32>,
    pub nodes: Option<u64>,
    pub movetime: Option<u128>,
    pub wtime: Option<u128>,
    pub btime: Option<u128>,
    pub winc: Option<u128>,
    pub binc: Option<u128>,
    /// Moves left before the clock is replenished; `None` for sudden death and increments.
    pub movestogo: Option<u32>,
    pub infinite: bool,
    /// Milliseconds kept back for each move's way to the opponent.
    pub move_overhead: u128,
    /// Adjust the soft budget to how settled the search is.
    pub adaptive_time: bool,
}

/// More milliseconds than any clock shows; sums of a few such times still fit.
pub const TIME_CAP: u128 = 0x100_0000_0000_0000_0000_0000_0000_0000;

pub open spec fn time_ok(t: Option<u128>) -> bool {
    t matches Some(x) ==> x < TIME_CAP
}

impl Limits {
    pub open spec fn wf(&self) -> bool {
        &&& time_ok(self.wtime)
        &&& time_ok(self.btime)
        &&& time_ok(self.winc)
        &&& time_ok(self.binc)
    }
}

impl Default for Limits {
    fn default() -> (r: Limits)
        ensures
            r == (Limits {
                depth: None,
                nodes: None,
                movetime: None,
                wtime: None,
                btime: None,
                winc: None,
                binc: None,
                movestogo: None,
                infinite: false,
                move_overhead: 0,
                adaptive_time: false,
            }),
            r.wf(),
    {
        Limits {
            depth: None,
            nodes: None,
            movetime: None,
            wtime: None,
            btime: None,
            winc: None,
            binc: None,
            movestogo: None,
            infinite: false,
            move_overhead: 0,
            adaptive_time: false,
        }
    }
}

pub open spec fn least(a: int, b: int) -> int {
    if a <= b {
        a
    } else {
        b
    }
}

pub open spec fn most(a: int, b: int) -> int {
    if a >= b {
        a
    } else {
        b
    }
}

/// What is left of `a` after `b`, never less than nothing.
pub open spec fn rest(a: int, b: int) -> int {
    most(a - b, 0)
}

/// Kept back with `mtg` moves to go: 150 ms and 20 ms a move, the latter at most a twentieth of
/// the clock.
pub open spec fn reserve(t: int, mtg: int) -> int {
    150 + least(20 * mtg, t / 20)
}

/// Soft and hard budget of a move. With moves to go, a shade under the fair share, and at most
/// three shares for a hard move; otherwise a thirtieth of the clock and at most a sixth. Fifty
/// milliseconds always stay on the clock, and every move gets at least one.
pub open spec fn allocation(t: int, inc: int, movestogo: Option<u32>) -> (int, int) {
    let (soft, wish) = match movestogo {
        Some(m) => {
            let mtg = most(m as int, 1);
            let avail = most(rest(t, reserve(t, mtg)), 1);
            let fair = avail / mtg;
            let soft = fair * 9 / 10 + inc * 3 / 4;
            (soft, most(least(fair * 3, avail), soft))
        },
        None => {
            let soft = t / 30 + inc * 3 / 4;
            (soft, most(t / 6, soft))
        },
    };
    let hard = most(least(wish, rest(t, 50)), 1);
    (least(soft, hard), hard)
}

/// Soft and hard time budget in milliseconds for one move.
pub fn allocate_time(t: u128, inc: u128, movestogo: Option<u32>) -> (r: (u128, u128))
    requires
        t < TIME_CAP,
        inc < TIME_CAP,
    ensures
        r.0 == allocation(t as int, inc as int, movestogo).0,
        r.1 == allocation(t as int, inc as int, movestogo).1,
{
    let (soft, wish): (u128, u128) = match movestogo {
        Some(m) => {
            let mtg: u128 = if m < 1 {
                1
            } else {
                m as u128
            };
            let slack: u128 = if 20 * mtg < t / 20 {
                20 * mtg
            } else {
                t / 20
            };
            let left: u128 = t.saturating_sub(150 + slack);
            let avail: u128 = if left < 1 {
                1
            } else {
                left
            };
            let fair: u128 = avail / mtg;
            assert(fair <= avail) by (nonlinear_arith)
                requires
                    fair == avail / mtg,
                    mtg >= 1,
            ;
            let soft: u128 = fair * 9 / 10 + inc * 3 / 4;
            let burst: u128 = if fair * 3 < avail {
                fair * 3
            } else {
                avail
            };
            (soft, if burst < soft {
                soft
            } else {
                burst
            })
        },
        None => {
            let soft: u128 = t / 30 + inc * 3 / 4;
            (soft, if t / 6 < soft {
                soft
            } else {
                t / 6
            })
        },
    };
    let ceiling: u128 = t.saturating_sub(50);
    let cut: u128 = if wish < ceiling {
        wish
    } else {
        ceiling
    };
    let hard: u128 = if cut < 1 {
        1
    } else {
        cut
    };
    (if soft < hard {
        soft
    } else {
        hard
    }, hard)
}

/// The soft budget never exceeds the hard one, the hard one is positive, and unless the clock
/// has run out a move never spends all of it.
pub proof fn law_budget_leaves_time_on_the_clock(t: u128, inc: u128, movestogo: Option<u32>)
    ensures
        ({
            let (soft, hard) = allocation(t as int, inc as int, movestogo);
            &&& 0 <= soft <= hard
            &&& hard >= 1
            &&& t > 1 ==> hard < t
            &&& t > 50 ==> hard <= t - 50
        }),
{
    match movestogo {
        Some(m) => {
            let mtg = most(m as int, 1);
            let avail = most(rest(t as int, reserve(t as int, mtg)), 1);
            assert(avail / mtg >= 0) by (nonlinear_arith)
                requires
                    avail >= 1,
                    mtg >= 1,
            ;
        },
        None => {},
    }
}

/// Without increment, a fair share is never overspent softly: the soft budget times the moves
/// to go stays within the clock.
pub proof fn law_moves_to_go_share_the_clock(t: u128, movestogo: u32)
    ensures
        allocation(t as int, 0, Some(movestogo)).0 * movestogo <= t,
{
    let mtg = most(movestogo as int, 1);
    let avail = most(rest(t as int, reserve(t as int, mtg)), 1);
    let fair = avail / mtg;
    let soft = allocation(t as int, 0, Some(movestogo)).0;
    assert(fair >= 0 && fair * mtg <= avail) by (nonlinear_arith)
        requires
            fair == avail / mtg,
            mtg >= 1,
            avail >= 0,
    ;
    assert(soft <= fair);
    assert(fair <= avail) by (nonlinear_arith)
        requires
            fair == avail / mtg,
            mtg >= 1,
            avail >= 0,
    ;
    assert(soft * mtg <= fair * mtg && soft * movestogo <= soft * mtg) by (nonlinear_arith)
        requires
            0 <= soft <= fair,
            mtg >= 1,
            movestogo <= mtg,
    ;
    assert(soft == 0 ==> soft * movestogo == 0) by (nonlinear_arith);
}

/// What is left of a clock after the first `k` moves of a block.
pub open spec fn clock_after(t: int, spent: Seq<int>, k: int) -> int
    decreases k,
{
    if k <= 0 {
        t
    } else {
        clock_after(t, spent, k - 1) - spent[k - 1]
    }
}

/// Move `k` of a block without increment spends at least its soft and at most its hard budget.
pub open spec fn spends_its_budget(t: int, spent: Seq<int>, k: int) -> bool {
    let (soft, hard) = allocation(clock_after(t, spent, k), 0, Some((spent.len() - k) as u32));
    soft <= spent[k] <= hard
}

/// Bounds of a move's budget with moves to go and no increment.
proof fn lemma_share(c: int, m: u32)
    requires
        c >= 1,
        m >= 1,
    ensures
        0 <= allocation(c, 0, Some(m)).0,
        allocation(c, 0, Some(m)).1 <= most(c - 50, 1),
        m == 2 && c >= 1000 ==> 20 * allocation(c, 0, Some(m)).0 >= 9 * (c - 190) - 40,
        m == 1 && c >= 1000 ==> 10 * allocation(c, 0, Some(m)).0 >= 9 * (c - 170) - 10,
{
    let mtg = most(m as int, 1);
    let avail = most(rest(c, reserve(c, mtg)), 1);
    assert(avail / mtg >= 0) by (nonlinear_arith)
        requires
            avail >= 1,
            mtg >= 1,
    ;
    let fair = avail / mtg;
    assert(m == 2 ==> 2 * fair >= avail - 1) by (nonlinear_arith)
        requires
            fair == avail / mtg,
            m == 2 ==> mtg == 2,
    ;
    assert(m == 1 ==> fair == avail) by (nonlinear_arith)
        requires
            fair == avail / mtg,
            m == 1 ==> mtg == 1,
    ;
}

/// The clock of a block never rises, and loses at most one millisecond a move of its last fifty.
proof fn lemma_block(t: int, spent: Seq<int>, k: int)
    requires
        t >= 51,
        0 <= k <= spent.len() <= 50,
        forall|j: int| 0 <= j < spent.len() ==> #[trigger] spends_its_budget(t, spent, j),
    ensures
        51 - k <= clock_after(t, spent, k) <= t,
    decreases k,
{
    if k > 0 {
        lemma_block(t, spent, k - 1);
        assert(spends_its_budget(t, spent, k - 1));
        lemma_share(clock_after(t, spent, k - 1), (spent.len() - (k - 1)) as u32);
    }
}

/// A block of moves to go spends more than nine tenths of its clock and never all of it.
pub proof fn law_a_block_spends_its_clock(t: u128, spent: Seq<int>)
    requires
        t >= 10_000,
        2 <= spent.len() <= 50,
        forall|k: int| 0 <= k < spent.len() ==> #[trigger] spends_its_budget(t as int, spent, k),
    ensures
        0 < clock_after(t as int, spent, spent.len() as int),
        10 * clock_after(t as int, spent, spent.len() as int) < t,
{
    let n = spent.len() as int;
    lemma_block(t as int, spent, n);
    lemma_block(t as int, spent, n - 1);
    lemma_block(t as int, spent, n - 2);
    let c = clock_after(t as int, spent, n - 2);
    assert(spends_its_budget(t as int, spent, n - 2));
    assert(spends_its_budget(t as int, spent, n - 1));
    lemma_share(c, 2);
    lemma_share(c - spent[n - 2], 1);
    assert(clock_after(t as int, spent, n - 1) == c - spent[n - 2]);
}

/// What a move takes that finishes the iteration it is in: two fifths more than its soft budget,
/// within its hard one.
pub open spec fn overrun(t: int, movestogo: Option<u32>) -> int {
    let (soft, hard) = allocation(t, 0, movestogo);
    least(soft * 14 / 10, hard)
}

/// The clock after the first `k` moves of a block of `n` that take as much as `overrun` says, told
/// how many moves are to go or not.
pub open spec fn walked_clock(t: int, n: int, told: bool, k: int) -> int
    decreases k,
{
    if k <= 0 {
        t
    } else {
        let c = walked_clock(t, n, told, k - 1);
        c - overrun(
            c,
            if told {
                Some((n - (k - 1)) as u32)
            } else {
                None
            },
        )
    }
}

/// Told how many moves are to go, each move spends its budget, and the last leaves a reserve.
proof fn lemma_told(t: int, n: int, k: int)
    requires
        t >= 1000,
        1 <= n <= 50,
        0 <= k <= n,
    ensures
        51 - k <= walked_clock(t, n, true, k) <= t,
        k == n ==> walked_clock(t, n, true, n) < 1000,
    decreases k,
{
    if k > 0 {
        lemma_told(t, n, k - 1);
        let c = walked_clock(t, n, true, k - 1);
        let m = (n - (k - 1)) as u32;
        lemma_share(c, m);
        lemma_budget_order(c, Some(m));
        if k == n && c >= 1000 {
            lemma_last_share(c);
        }
    }
}

/// The last move to go takes everything but the reserve.
proof fn lemma_last_share(c: int)
    requires
        c >= 1000,
    ensures
        overrun(c, Some(1u32)) >= c - 171,
{
    let avail = most(rest(c, reserve(c, 1)), 1);
    assert(avail / 1 == avail);
}

proof fn lemma_budget_order(t: int, movestogo: Option<u32>)
    requires
        t >= 0,
    ensures
        0 <= allocation(t, 0, movestogo).0 <= allocation(t, 0, movestogo).1,
{
    match movestogo {
        Some(m) => {
            let mtg = most(m as int, 1);
            let avail = most(rest(t, reserve(t, mtg)), 1);
            assert(avail / mtg >= 0) by (nonlinear_arith)
                requires
                    avail >= 1,
                    mtg >= 1,
            ;
        },
        None => {},
    }
}

/// Not told, a move takes at most fourteen three hundredths of the clock.
proof fn lemma_untold(t: int, n: int, k: int)
    requires
        t >= 1,
        0 <= k,
    ensures
        0 <= walked_clock(t, n, false, k) <= t,
        k > 0 ==> 300 * walked_clock(t, n, false, k) >= 286 * walked_clock(t, n, false, k - 1),
    decreases k,
{
    if k > 0 {
        lemma_untold(t, n, k - 1);
        lemma_budget_order(walked_clock(t, n, false, k - 1), None);
    }
}

/// Ten moves leave more than six tenths.
proof fn lemma_untold_ten(t: int, n: int, k: int)
    requires
        t >= 1,
        0 <= k,
    ensures
        100 * walked_clock(t, n, false, k + 10) >= 62 * walked_clock(t, n, false, k),
{
    lemma_untold(t, n, k + 1);
    lemma_untold(t, n, k + 2);
    lemma_untold(t, n, k + 3);
    lemma_untold(t, n, k + 4);
    lemma_untold(t, n, k + 5);
    lemma_untold(t, n, k + 6);
    lemma_untold(t, n, k + 7);
    lemma_untold(t, n, k + 8);
    lemma_untold(t, n, k + 9);
    lemma_untold(t, n, k + 10);
}

/// A block of forty moves whose iterations run over their soft budgets: told how many moves are to
/// go, no move takes the whole clock, and the block spends more than nine tenths of it but not all.
/// By the rule for increments it spends less than nine tenths, and more than a tenth of the clock
/// less than the other.
pub proof fn law_moves_to_go_spend_what_increments_leave(t: u128)
    requires
        t >= 30_000,
    ensures
        ({
            let told = walked_clock(t as int, 40, true, 40);
            let untold = walked_clock(t as int, 40, false, 40);
            &&& forall|k: int|
                0 <= k < 40 ==> overrun(#[trigger] walked_clock(t as int, 40, true, k), Some((40 - k) as u32)) < walked_clock(
                    t as int,
                    40,
                    true,
                    k,
                )
            &&& 0 < told
            &&& 10 * told < t
            &&& 10 * untold > t
            &&& 10 * (untold - told) > t
        }),
{
    let t = t as int;
    lemma_told(t, 40, 40);
    assert forall|k: int| 0 <= k < 40 implies overrun(#[trigger] walked_clock(t, 40, true, k), Some((40 - k) as u32)) < walked_clock(
        t,
        40,
        true,
        k,
    ) by {
        lemma_told(t, 40, k);
        lemma_told(t, 40, k + 1);
    }
    lemma_untold_ten(t, 40, 0);
    lemma_untold_ten(t, 40, 10);
    lemma_untold_ten(t, 40, 20);
    lemma_untold_ten(t, 40, 30);
}

/// Share of the budget for how settled the best move is, in percent.
pub open spec fn stability_percent(stable: u32, changed: bool) -> int {
    if changed {
        120
    } else if stable >= 3 {
        75
    } else {
        100
    }
}

/// Extra share for a falling score, in percent.
pub open spec fn falling_percent(drop_cp: int) -> int {
    (if drop_cp < 0 {
        0
    } else if drop_cp > 100 {
        100
    } else {
        drop_cp
    }) * 30 / 100
}

pub open spec fn adapted(base: int, hard: int, stable: u32, changed: bool, drop_cp: int) -> int {
    let product = base * (stability_percent(stable, changed) + falling_percent(drop_cp));
    least(most(least(product, u128::MAX as int) / 100, 1), hard)
}

/// The soft budget from the completed iterations: less for a settled best move, more for one
/// that changed and for a falling score, never past the hard budget.
pub fn adaptive_soft_time(base: u128, hard: u128, stable: u32, changed: bool, drop_cp: i32) -> (r: u128)
    ensures
        r == adapted(base as int, hard as int, stable, changed, drop_cp as int),
{
    let stability: u128 = if changed {
        120
    } else if stable >= 3 {
        75
    } else {
        100
    };
    let drop: u128 = if drop_cp < 0 {
        0
    } else if drop_cp > 100 {
        100
    } else {
        drop_cp as u128
    };
    let falling: u128 = drop * 30 / 100;
    let product: u128 = match base.checked_mul(stability + falling) {
        Some(p) => p,
        None => u128::MAX,
    };
    let wish: u128 = if product / 100 < 1 {
        1
    } else {
        product / 100
    };
    if wish < hard {
        wish
    } else {
        hard
    }
}

/// Adapting never takes a move past its hard budget nor down to nothing, and spends between
/// three quarters and one and a half times the budget it is given.
pub proof fn law_adapted_budget_is_bounded(base: u128, hard: u128, stable: u32, changed: bool, drop_cp: i32)
    requires
        hard >= 1,
    ensures
        1 <= adapted(base as int, hard as int, stable, changed, drop_cp as int) <= hard,
        adapted(base as int, hard as int, stable, changed, drop_cp as int) <= most(base * 150 / 100, 1),
        hard >= base && base < TIME_CAP ==> adapted(base as int, hard as int, stable, changed, drop_cp as int) >= base * 75
            / 100,
{
    let pct = stability_percent(stable, changed) + falling_percent(drop_cp as int);
    assert(75 <= pct <= 150);
    assert(base * 75 <= base * pct <= base * 150) by (nonlinear_arith)
        requires
            75 <= pct <= 150,
            base >= 0,
    ;
}

/// A larger fall of the score never shortens the budget.
pub proof fn law_a_falling_score_never_saves_time(base: u128, hard: u128, stable: u32, changed: bool, drop_cp: i32, more: i32)
    requires
        drop_cp <= more,
    ensures
        adapted(base as int, hard as int, stable, changed, drop_cp as int) <= adapted(
            base as int,
            hard as int,
            stable,
            changed,
            more as int,
        ),
{
    let a = stability_percent(stable, changed) + falling_percent(drop_cp as int);
    let b = stability_percent(stable, changed) + falling_percent(more as int);
    assert(base * a <= base * b) by (nonlinear_arith)
        requires
            a <= b,
            base >= 0,
    ;
}

// ---------------- volatility ----------------
/// Deltas in the window.
pub const VOL_W: usize = 8;

/// Mean change in centipawns that counts as calm.
pub const VOL_LO: u64 = 10;

/// Mean change in centipawns that counts as wild.
pub const VOL_HI: u64 = 60;

/// Percent of the budget spent when calm.
pub const VOL_MIN: u64 = 80;

/// Percent of the budget spent when wild.
pub const VOL_MAX: u64 = 160;

/// One step's change in centipawns, at most five pawns.
pub open spec fn step_change(a: int, b: int) -> int {
    least(if a <= b {
        b - a
    } else {
        a - b
    }, 500)
}

/// Changes between the scores from index `from` up to `n`.
pub open spec fn total_change(h: Seq<i32>, from: int, n: int) -> int
    decreases n - from,
{
    if n <= from + 1 {
        0
    } else {
        total_change(h, from, n - 1) + step_change(h[n - 2] as int, h[n - 1] as int)
    }
}

/// First score of the window.
pub open spec fn window_start(len: int) -> int {
    rest(len, 9)
}

/// Only the last nine scores count: two games that end in the same ones are equally unsettled.
pub proof fn law_old_scores_do_not_matter(a: Seq<i32>, b: Seq<i32>)
    requires
        a.len() >= 9,
        b.len() >= 9,
        a.subrange(a.len() - 9, a.len() as int) == b.subrange(b.len() - 9, b.len() as int),
    ensures
        total_change(a, window_start(a.len() as int), a.len() as int) == total_change(
            b,
            window_start(b.len() as int),
            b.len() as int,
        ),
{
    lemma_same_changes(a, b, 9);
}

proof fn lemma_same_changes(a: Seq<i32>, b: Seq<i32>, k: int)
    requires
        a.len() >= 9,
        b.len() >= 9,
        0 <= k <= 9,
        a.subrange(a.len() - 9, a.len() as int) == b.subrange(b.len() - 9, b.len() as int),
    ensures
        total_change(a, a.len() - 9, a.len() - 9 + k) == total_change(b, b.len() - 9, b.len() - 9 + k),
    decreases k,
{
    if k > 1 {
        lemma_same_changes(a, b, k - 1);
        let s = a.subrange(a.len() - 9, a.len() as int);
        let t = b.subrange(b.len() - 9, b.len() as int);
        assert(s[k - 1] == a[a.len() - 9 + k - 1] && t[k - 1] == b[b.len() - 9 + k - 1]);
        assert(s[k - 2] == a[a.len() - 9 + k - 2] && t[k - 2] == b[b.len() - 9 + k - 2]);
    }
}

/// How much the recent scores have moved: the summed change in centipawns and over how many
/// steps. Nothing is said of fewer than three scores.
pub fn recent_volatility(h: &Vec<i32>) -> (r: Option<(u64, u64)>)
    ensures
        match r {
            None => h@.len() < 3,
            Some(v) => h@.len() >= 3 && v.0 == total_change(h@, window_start(h@.len() as int), h@.len() as int)
                && v.1 == h@.len() - 1 - window_start(h@.len() as int) && 2 <= v.1 <= VOL_W && v.0 <= 500 * v.1,
        },
{
    let len: usize = h.len();
    if len < 3 {
        return None;
    }
    let start: usize = if len > 9 {
        len - 9
    } else {
        0
    };
    let mut total: u64 = 0;
    let mut i: usize = start + 1;
    while i < len
        invariant
            start < i <= len,
            len == h@.len(),
            len <= start + 9,
            total == total_change(h@, start as int, i as int),
            total <= 500 * (i - start - 1),
        decreases len - i,
    {
        let a: i64 = h[i - 1] as i64;
        let b: i64 = h[i] as i64;
        let d: i64 = if a <= b {
            b - a
        } else {
            a - b
        };
        total = total + if d < 500 {
            d as u64
        } else {
            500
        };
        i = i + 1;
    }
    Some((total, (len - 1 - start) as u64))
}

/// Share of the budget for a summed change over `n` steps, as a fraction: from `VOL_MIN` percent
/// at `VOL_LO` and below to `VOL_MAX` percent at `VOL_HI` and above.
pub fn volatility_factor(total: u64, n: u64) -> (r: (u64, u64))
    requires
        1 <= n <= 1000,
        total <= 500 * n,
    ensures
        r.1 == 5000 * n,
        r.0 == 4000 * n + 80 * least(rest(total as int, 10 * n), 50 * n),
        r.0 * 100 >= VOL_MIN * r.1,
        r.0 * 100 <= VOL_MAX * r.1,
        total <= VOL_LO * n ==> r.0 * 100 == VOL_MIN * r.1,
        total >= VOL_HI * n ==> r.0 * 100 == VOL_MAX * r.1,
{
    let over: u64 = if total > 10 * n {
        total - 10 * n
    } else {
        0
    };
    let x: u64 = if over < 50 * n {
        over
    } else {
        50 * n
    };
    (4000 * n + 80 * x, 5000 * n)
}

/// The soft budget scaled by how much the scores have moved, never past the hard one.
pub fn volatility_budget(soft: u128, hard: u128, total: u64, n: u64) -> (r: u128)
    requires
        soft < TIME_CAP / 0x10_0000,
        1 <= n <= 1000,
        total <= 500 * n,
    ensures
        r == least(
            soft * (4000 * n + 80 * least(rest(total as int, 10 * n), 50 * n)) / (5000 * n),
            hard as int,
        ),
        r == volatile_budget(soft as int, hard as int, total as int, n as int),
{
    let (num, den): (u64, u64) = volatility_factor(total, n);
    assert(soft * num <= u128::MAX) by (nonlinear_arith)
        requires
            soft < TIME_CAP / 0x10_0000,
            num <= 8_000_000,
    ;
    let s: u128 = soft * num as u128 / den as u128;
    if s < hard {
        s
    } else {
        hard
    }
}

// ---------------- laws ----------------
/// A move with moves to go is meant to take no more than its share of the clock and its increment;
/// the hardest no more than three shares, or its share and increment, and never the last fifty
/// milliseconds. Out of every four milliseconds of increment three are meant to be spent.
pub proof fn law_increments_are_spent_as_they_come(t: int, inc: int, m: u32)
    requires
        t >= 0,
        inc >= 0,
    ensures
        ({
            let n = most(m as int, 1);
            let (soft, hard) = allocation(t, inc, Some(m));
            &&& 0 <= soft <= hard
            &&& soft <= t / n + inc
            &&& hard <= most(most(3 * (t / n), t / n + inc), 1)
            &&& hard <= most(t - 50, 1)
            &&& allocation(t, inc + 4, Some(m)).0 <= t - 51 ==> allocation(t, inc + 4, Some(m)).0 == soft + 3
            &&& soft >= allocation(t, 0, Some(m)).0
        }),
{
    let n = most(m as int, 1);
    let avail = most(rest(t, reserve(t, n)), 1);
    let fair = avail / n;
    if t >= 1 {
        vstd::arithmetic::div_mod::lemma_div_is_ordered(avail, t, n);
    } else {
        assert(fair <= 1) by {
            vstd::arithmetic::div_mod::lemma_div_is_ordered_by_denominator(1, 1, n);
            assert(1int / 1 == 1);
        }
    }
    vstd::arithmetic::div_mod::lemma_div_pos_is_pos(avail, n);
    vstd::arithmetic::div_mod::lemma_div_pos_is_pos(t, n);
}

/// The same without a count of moves: a thirtieth of the clock and three quarters of the increment
/// are meant to be spent, and a sixth of the clock, or that, at most.
pub proof fn law_sudden_death_spends_a_thirtieth(t: int, inc: int)
    requires
        t >= 60,
        inc >= 0,
    ensures
        ({
            let (soft, hard) = allocation(t, inc, None);
            &&& soft <= hard <= t - 50
            &&& inc == 0 ==> 30 * soft <= t < 30 * soft + 30
            &&& inc == 0 ==> 6 * hard <= t < 6 * hard + 6
            &&& soft <= t / 30 + inc
            &&& hard <= most(t / 6, t / 30 + inc)
            &&& allocation(t, inc + 4, None).0 <= t - 51 ==> allocation(t, inc + 4, None).0 == soft + 3
        }),
{
}

/// With three moves to go or more and a second on the clock, the hardest move of a block without
/// increment takes three fair shares of what is not kept back, and the soft budget is nine tenths of
/// one.
pub proof fn law_hard_moves_take_three_shares(t: int, m: u32)
    requires
        t >= 1000,
        m >= 3,
    ensures
        ({
            let (soft, hard) = allocation(t, 0, Some(m));
            let kept = 150 + if 20 * m <= t / 20 {
                20 * m
            } else {
                t / 20
            };
            t - kept >= m ==> m * hard <= 3 * (t - kept) < m * hard + 3 * m && 3 * hard - 10 < 10 * soft <= 3 * hard
        }),
{
    let n = m as int;
    let avail = t - reserve(t, n);
    let fair = avail / n;
    vstd::arithmetic::div_mod::lemma_fundamental_div_mod(avail, n);
    vstd::arithmetic::div_mod::lemma_mod_bound(avail, n);
    assert(3 * fair <= avail) by (nonlinear_arith)
        requires
            n >= 3,
            avail == n * fair + avail % n,
            0 <= avail % n,
            avail >= 0,
    ;
    assert(fair >= 0) by (nonlinear_arith)
        requires
            n >= 3,
            avail == n * fair + avail % n,
            avail % n < n,
            avail >= 0,
    ;
    assert(n * (3 * fair) == 3 * (n * fair)) by (nonlinear_arith);
    assert(avail >= n ==> fair >= 1) by (nonlinear_arith)
        requires
            n >= 3,
            avail == n * fair + avail % n,
            avail % n < n,
    ;
}

/// The clock after the first `k` of a block's moves, each of which gets the increment back.
pub open spec fn clock_with_increment(t: int, inc: int, spent: Seq<int>, k: int) -> int
    decreases k,
{
    if k <= 0 {
        t
    } else {
        clock_with_increment(t, inc, spent, k - 1) - spent[k - 1] + inc
    }
}

/// A block of moves that each take no more than they are meant to leaves every later move its share
/// of the clock: after `k` of `n` moves at least `n - k` shares out of `n` are left, increments or
/// not, and the clock never runs below nothing.
pub proof fn law_a_block_leaves_every_move_its_share(t: int, inc: int, spent: Seq<int>, k: int)
    requires
        t >= 0,
        inc >= 0,
        0 <= k <= spent.len() <= u32::MAX,
        forall|j: int|
            0 <= j < spent.len() ==> 0 <= #[trigger] spent[j] <= allocation(
                clock_with_increment(t, inc, spent, j),
                inc,
                Some((spent.len() - j) as u32),
            ).0,
    ensures
        spent.len() * clock_with_increment(t, inc, spent, k) >= (spent.len() - k) * t,
        clock_with_increment(t, inc, spent, k) >= 0,
    decreases k,
{
    let n = spent.len() as int;
    if k > 0 {
        law_a_block_leaves_every_move_its_share(t, inc, spent, k - 1);
        let c = clock_with_increment(t, inc, spent, k - 1);
        let m = n - (k - 1);
        law_increments_are_spent_as_they_come(c, inc, m as u32);
        assert(0 <= spent[k - 1] <= allocation(c, inc, Some(m as u32)).0);
        let after = clock_with_increment(t, inc, spent, k);
        assert(after >= c - c / m);
        vstd::arithmetic::div_mod::lemma_fundamental_div_mod(c, m);
        vstd::arithmetic::div_mod::lemma_mod_bound(c, m);
        let q = c / m;
        assert(m * after >= (m - 1) * c) by (nonlinear_arith)
            requires
                after >= c - q,
                c >= m * q,
                m >= 1,
        ;
        assert(n * after >= (m - 1) * t) by (nonlinear_arith)
            requires
                m * after >= (m - 1) * c,
                n * c >= m * t,
                m >= 1,
                n >= 1,
        {
            assert(n * (m * after) >= n * ((m - 1) * c));
            assert(n * ((m - 1) * c) == (m - 1) * (n * c));
            assert((m - 1) * (n * c) >= (m - 1) * (m * t));
            assert((m - 1) * (m * t) == m * ((m - 1) * t));
            assert(n * (m * after) == m * (n * after));
            assert(m * (n * after) >= m * ((m - 1) * t));
        }
        assert(after >= 0) by (nonlinear_arith)
            requires
                n * after >= (m - 1) * t,
                m >= 1,
                t >= 0,
                n >= 1,
        ;
        assert(m - 1 == n - k);
    } else {
        assert(clock_with_increment(t, inc, spent, k) == t);
    }
}

/// Between one millisecond and the hard budget, an adapted budget is three quarters of the base for
/// a move that has stood for three iterations, six fifths for one that has just changed, and the base
/// otherwise; three tenths of a percent more for each centipawn lost, up to a hundred.
pub proof fn law_adapted_budget_follows_the_search(base: int, hard: int, stable: u32, changed: bool, drop_cp: int)
    requires
        0 <= base,
        base * 150 <= u128::MAX,
    ensures
        ({
            let r = adapted(base, hard, stable, changed, drop_cp);
            let percent = (if changed {
                120int
            } else if stable > 2 {
                75
            } else {
                100
            }) + if drop_cp <= 0 {
                0int
            } else if drop_cp >= 100 {
                30
            } else {
                3 * drop_cp / 10
            };
            &&& r <= hard
            &&& 1 < r < hard ==> 100 * r <= base * percent < 100 * r + 100
            &&& base * percent < 100 && hard >= 1 ==> r == 1
            &&& base * percent >= 100 * hard && hard >= 1 ==> r == hard
        }),
{
    let f = falling_percent(drop_cp);
    let s = stability_percent(stable, changed);
    assert(0 <= f <= 30);
    assert(base * (s + f) <= base * 150 && base * (s + f) >= 0) by (nonlinear_arith)
        requires
            0 <= base,
            75 <= s <= 120,
            0 <= f <= 30,
    ;
}

/// The budget for a game whose scores have moved by `total` over `n` steps.
pub open spec fn volatile_budget(soft: int, hard: int, total: int, n: int) -> int {
    least(soft * (4000 * n + 80 * least(rest(total, 10 * n), 50 * n)) / (5000 * n), hard)
}

/// A settled game, with up to ten centipawns a step, spends four fifths of the budget; one with sixty
/// and more spends eight fifths; in between the share grows with the changes, and halfway it is six
/// fifths. None spends more than the hard budget.
pub proof fn law_unsettled_games_spend_more(soft: int, hard: int, total: int, more: int, n: int)
    requires
        soft >= 0,
        n >= 1,
        0 <= total <= more,
    ensures
        volatile_budget(soft, hard, total, n) <= hard,
        volatile_budget(soft, hard, total, n) <= volatile_budget(soft, hard, more, n),
        total <= 10 * n ==> volatile_budget(soft, hard, total, n) == least(soft * 4 / 5, hard),
        total == 35 * n ==> volatile_budget(soft, hard, total, n) == least(soft * 6 / 5, hard),
        total >= 60 * n ==> volatile_budget(soft, hard, total, n) == least(soft * 8 / 5, hard),
{
    let (x, y) = (least(rest(total, 10 * n), 50 * n), least(rest(more, 10 * n), 50 * n));
    assert(0 <= x <= y);
    assert(soft * (4000 * n + 80 * x) <= soft * (4000 * n + 80 * y)) by (nonlinear_arith)
        requires
            soft >= 0,
            x <= y,
    ;
    vstd::arithmetic::div_mod::lemma_div_is_ordered(soft * (4000 * n + 80 * x), soft * (4000 * n + 80 * y), 5000 * n);
    let k = 1000 * n;
    vstd::arithmetic::div_mod::lemma_div_multiples_vanish_quotient(k, soft * 4, 5);
    vstd::arithmetic::div_mod::lemma_div_multiples_vanish_quotient(k, soft * 6, 5);
    vstd::arithmetic::div_mod::lemma_div_multiples_vanish_quotient(k, soft * 8, 5);
    assert(k * (soft * 4) == soft * (4000 * n) && k * (soft * 6) == soft * (6000 * n) && k * (soft * 8) == soft * (8000 * n)) by (
    nonlinear_arith)
        requires
            k == 1000 * n,
    ;
    assert(total == 35 * n ==> x == 25 * n);
}

/// The change from one score to the next counts alike up and down, and for five pawns at most; a game
/// whose scores stand still has none.
pub proof fn law_changes_count_up_and_down(a: int, b: int)
    ensures
        step_change(a, b) == step_change(b, a),
        0 <= step_change(a, b) <= 500,
        step_change(a, a) == 0,
        0 <= b - a <= 500 ==> step_change(a, b) == b - a,
        b - a >= 500 ==> step_change(a, b) == 500,
{
}

/// The last nine scores, or all of fewer, are looked at; the changes of a stretch are those of its
/// parts.
pub proof fn law_changes_add_up(h: Seq<i32>, from: int, mid: int, n: int, len: int)
    requires
        0 <= from < mid <= n,
    ensures
        len >= 9 ==> window_start(len) == len - 9,
        0 <= len <= 9 ==> window_start(len) == 0,
        total_change(h, from, n) == total_change(h, from, mid) + total_change(h, mid - 1, n),
        total_change(h, from, from + 2) == step_change(h[from] as int, h[from + 1] as int),
    decreases n - mid,
{
    assert(total_change(h, from, from + 1) == 0);
    assert(total_change(h, mid - 1, mid) == 0);
    if n > mid {
        law_changes_add_up(h, from, mid, n - 1, len);
    }
}

} // verus!

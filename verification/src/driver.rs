//! Iterative deepening: the time a search gets, one deeper search after another with aspiration
//! windows, and what is said of each.
use vstd::prelude::*;
use std::sync::atomic::AtomicBool;
use std::sync::Arc;
use crate::account::{
    accounted, answers, chained, cut_short, extended, followed, lemma_chain_join, lemma_chain_next, lemma_chain_none,
    lemma_join_followed, lemma_next_followed, lemma_none_followed, made_since, node_height, node_remembered, root_found, tables_end, Searched, Setting,
};
use crate::board::{legal_moves, legal_shape, position_after, wf, Move, PosView, Position, WHITE};
use crate::notation::uci_text;
use crate::eval::quotient;
use crate::history::{fresh, no_killers, Tables, INF, MATE, MATE_BOUND, MAX_PLY};
use crate::interior::{chosen, no_move_score, root_move_ok, root_move_set};
use crate::nnue::{acc_from, acc_holds, Acc};
use crate::reductions::{build_lmr_table, reduction_table};
use crate::rules::packed_to_move;
use crate::search::{acc_ok, elapsed_ms, law_a_stop_is_seen, now, polled, sound, stops, Pause, Searcher, SCORE_LIMIT, WINDOW_LIMIT};
use crate::shared::{Memory, SharedTT, Table};
use crate::text::{append, numeral, push_number, push_signed, signed_numeral};
use crate::time::{
    adapted, adaptive_soft_time, allocate_time, allocation, law_budget_leaves_time_on_the_clock, recent_volatility, rest, total_change, window_start, Limits,
};
use crate::tt::{is_pow2, packed, probed, slot_budget, Entry, TT};

verus! {

/// The clock of the side to move.
pub open spec fn clock_of(l: Limits, side: u8) -> Option<u128> {
    if side == WHITE {
        l.wtime
    } else {
        l.btime
    }
}

/// The increment of the side to move.
pub open spec fn increment_of(l: Limits, side: u8) -> int {
    match if side == WHITE {
        l.winc
    } else {
        l.binc
    } {
        Some(x) => x as int,
        None => 0,
    }
}

/// Soft and hard limit of a search in milliseconds: a fixed time is both, a clock is shared out
/// after what a move's way to the opponent costs, and without either there is no limit.
pub open spec fn budget(l: Limits, side: u8) -> (int, int) {
    match l.movetime {
        Some(mt) => (mt as int, mt as int),
        None => match clock_of(l, side) {
            Some(t) => allocation(rest(t as int, l.move_overhead as int), increment_of(l, side), l.movestogo),
            None => (u128::MAX as int, u128::MAX as int),
        },
    }
}

/// Whether the soft limit follows how settled the search is: on request, under a clock, and
/// under no other limit.
pub open spec fn adapts(l: Limits, side: u8) -> bool {
    &&& l.adaptive_time
    &&& !l.infinite
    &&& l.movetime is None
    &&& l.nodes is None
    &&& l.depth is None
    &&& clock_of(l, side) is Some
}

/// The deepest iteration that a search begins.
pub open spec fn last_depth(l: Limits) -> int {
    match l.depth {
        Some(d) => if d < MAX_PLY - 1 {
            d as int
        } else {
            MAX_PLY - 1
        },
        None => MAX_PLY - 1,
    }
}

/// A mate has been found with margin: searching on cannot shorten it by enough to matter.
pub open spec fn mate_settled(depth: int, score: int) -> bool {
    let size = if score < 0 {
        -score
    } else {
        score
    };
    size > MATE_BOUND && depth > 2 * (MATE - size)
}

/// No iteration follows one that reached `depth` after `elapsed` milliseconds: the soft limit has
/// passed, or a mate is settled.
pub open spec fn last_iteration(depth: int, score: int, elapsed: u128, soft_ms: u128) -> bool {
    elapsed > soft_ms || mate_settled(depth, score)
}

/// No iteration follows this one.
pub open spec fn last_pause(x: Pause) -> bool {
    last_iteration(x.depth, x.score, x.elapsed, x.soft_ms)
}

/// Iteration `k` kept the best move of the one before.
pub open spec fn kept_at(v: Seq<Pause>, k: int) -> bool {
    k <= 0 || v[k - 1].best is None || v[k - 1].best == v[k].best
}

/// How many iterations in a row, from the fifth ply on, had kept their best move after the first
/// `n`.
pub open spec fn stable_at(v: Seq<Pause>, n: int) -> int
    decreases n,
{
    if n <= 0 {
        0
    } else if v[n - 1].depth < 5 {
        stable_at(v, n - 1)
    } else if kept_at(v, n - 1) {
        stable_at(v, n - 1) + 1
    } else {
        0
    }
}

/// The soft limit after the first `n` iterations of a search under limits. Where it adapts, it
/// follows from the fifth ply on how settled the best move and the score are.
pub open spec fn soft_at(l: Limits, side: u8, v: Seq<Pause>, n: int) -> int
    decreases n,
{
    if n <= 0 {
        if l.infinite {
            u128::MAX as int
        } else {
            budget(l, side).0
        }
    } else if adapts(l, side) && v[n - 1].depth >= 5 {
        adapted(
            budget(l, side).0,
            budget(l, side).1,
            stable_at(v, n) as u32,
            !kept_at(v, n - 1),
            (if n == 1 {
                0
            } else {
                v[n - 2].score
            }) - v[n - 1].score,
        )
    } else {
        soft_at(l, side, v, n - 1)
    }
}

/// Iteration `k` of a search goes one ply deeper than the one before, and another followed only
/// where it was not the last.
#[verifier::opaque]
pub open spec fn paced_at(l: Limits, side: u8, first: int, v: Seq<Pause>, k: int) -> bool {
    &&& v[k].depth == first + k
    &&& v[k].depth <= last_depth(l)
    &&& v[k].soft_ms == soft_at(l, side, v, k + 1)
    &&& k < v.len() - 1 ==> !last_pause(v[k])
}

/// The iterations that a search under limits completed.
pub open spec fn paced(l: Limits, side: u8, first: int, v: Seq<Pause>) -> bool {
    forall|k: int| 0 <= k < v.len() ==> #[trigger] paced_at(l, side, first, v, k)
}

/// The pace so far does not depend on what follows.
proof fn lemma_pace_prefix(l: Limits, side: u8, v: Seq<Pause>, x: Pause, n: int)
    requires
        n <= v.len(),
    ensures
        stable_at(v.push(x), n) == stable_at(v, n),
        soft_at(l, side, v.push(x), n) == soft_at(l, side, v, n),
    decreases n,
{
    if n > 0 {
        lemma_pace_prefix(l, side, v, x, n - 1);
    }
}

/// One iteration more.
proof fn lemma_pace_next(l: Limits, side: u8, first: int, v: Seq<Pause>, x: Pause)
    requires
        paced(l, side, first, v),
        v.len() > 0 ==> !last_pause(v.last()),
        x.depth == first + v.len(),
        x.depth <= last_depth(l),
        x.soft_ms == soft_at(l, side, v.push(x), v.len() as int + 1),
    ensures
        paced(l, side, first, v.push(x)),
{
    let w = v.push(x);
    assert forall|k: int| 0 <= k < w.len() implies #[trigger] paced_at(l, side, first, w, k) by {
        if k < v.len() {
            assert(paced_at(l, side, first, v, k));
            lemma_pace_prefix(l, side, v, x, k + 1);
        }
        reveal(paced_at);
    }
}

/// A soft limit that does not adapt stays what it was.
proof fn lemma_soft_stays(l: Limits, side: u8, v: Seq<Pause>, n: int)
    requires
        !adapts(l, side),
    ensures
        soft_at(l, side, v, n) == soft_at(l, side, v, 0),
    decreases n,
{
    if n > 0 {
        lemma_soft_stays(l, side, v, n - 1);
    }
}

/// A soft limit that adapts is one of a clock.
proof fn lemma_adapting_budget(l: Limits, side: u8)
    requires
        l.wf(),
        adapts(l, side),
    ensures
        budget(l, side).0 < u128::MAX,
{
    let t = rest(clock_of(l, side)->0 as int, l.move_overhead as int);
    law_budget_leaves_time_on_the_clock(t as u128, increment_of(l, side) as u128, l.movestogo);
}

/// Whether no iteration follows one that reached `depth` after `elapsed` milliseconds.
pub fn is_last_iteration(depth: i32, score: i32, elapsed: u128, soft_ms: u128) -> (r: bool)
    requires
        -SCORE_LIMIT <= score <= SCORE_LIMIT,
    ensures
        r == last_iteration(depth as int, score as int, elapsed, soft_ms),
{
    if elapsed > soft_ms {
        return true;
    }
    let size: i32 = if score < 0 {
        -score
    } else {
        score
    };
    size > MATE_BOUND && depth > 2 * (MATE - size)
}

/// Where iterative deepening has come to.
pub struct Deepening {
    /// Accumulator of the root.
    pub acc: Option<Acc>,
    /// Depth of the next iteration.
    pub depth: i32,
    pub max_depth: i32,
    pub soft: u128,
    pub hard: u128,
    pub adaptive: bool,
    pub best: Option<Move>,
    /// Best move of the last completed iteration.
    pub previous_best: Option<Move>,
    /// Score of the last completed iteration.
    pub prev_score: i32,
    /// Iterations in a row that kept their best move.
    pub stable: u32,
    /// No iteration follows.
    pub over: bool,
}

/// A completed search of the root to `depth` plies, whose score lies inside its window.
pub open spec fn iteration(x: Searched, s: Setting, p: PosView, depth: int, score: int) -> bool {
    &&& x.position == p
    &&& !x.quiet
    &&& !x.stopped
    &&& x.ply == 0
    &&& x.depth == depth
    &&& x.result == score
    &&& x.alpha < score < x.beta
    &&& accounted(s, x)
}

/// By how much the window is widened the next time.
pub open spec fn widening(k: int) -> int
    decreases k,
{
    if k <= 0 {
        30
    } else {
        2 * widening(k - 1)
    }
}

/// The window of search `k` of an iteration: at first everything, or from the fifth ply on a little
/// either side of the last score; then the side that failed is widened, each time by twice as much.
pub open spec fn window_at(depth: int, prev_score: int, v: Seq<Searched>, k: int) -> (int, int)
    decreases k,
{
    if k <= 0 {
        if depth >= 5 {
            (prev_score - 30, prev_score + 30)
        } else {
            (-INF as int, INF as int)
        }
    } else {
        let (a, b) = window_at(depth, prev_score, v, k - 1);
        if v[k - 1].result <= a {
            (a - widening(k - 1), b)
        } else {
            (a, b + widening(k - 1))
        }
    }
}

/// Search `k` of an iteration is of the root with its window, and another follows only where it
/// fell outside.
#[verifier::opaque]
pub open spec fn aspires_at(v: Seq<Searched>, p: PosView, depth: int, prev_score: int, k: int) -> bool {
    let (a, b) = window_at(depth, prev_score, v, k);
    &&& v[k].position == p
    &&& !v[k].quiet
    &&& v[k].depth == depth
    &&& v[k].ply == 0
    &&& v[k].alpha == a
    &&& v[k].beta == b
    &&& v[k].prev == 0
    &&& !v[k].cut_node
    &&& k < v.len() - 1 ==> !v[k].stopped && (v[k].result <= a || v[k].result >= b)
}

/// The searches of an iteration so far.
pub open spec fn aspiring(v: Seq<Searched>, p: PosView, depth: int, prev_score: int) -> bool {
    forall|k: int| 0 <= k < v.len() ==> #[trigger] aspires_at(v, p, depth, prev_score, k)
}

/// The searches of an iteration: the last was stopped or fell inside its window.
pub open spec fn aspired(v: Seq<Searched>, p: PosView, depth: int, prev_score: int) -> bool {
    let (a, b) = window_at(depth, prev_score, v, v.len() - 1);
    &&& v.len() > 0
    &&& aspiring(v, p, depth, prev_score)
    &&& v.last().stopped || a < v.last().result < b
}

/// Later searches do not change the window of an earlier one.
proof fn lemma_window(depth: int, prev_score: int, v: Seq<Searched>, x: Searched, k: int)
    requires
        k <= v.len(),
    ensures
        window_at(depth, prev_score, v.push(x), k) == window_at(depth, prev_score, v, k),
    decreases k,
{
    if k > 0 {
        lemma_window(depth, prev_score, v, x, k - 1);
    }
}

/// One search more, after one that fell outside its window.
proof fn lemma_aspires_next(v: Seq<Searched>, x: Searched, p: PosView, depth: int, prev_score: int)
    requires
        v.len() > 0 ==> aspiring(v, p, depth, prev_score) && !v.last().stopped && ({
            let (a, b) = window_at(depth, prev_score, v, v.len() - 1);
            v.last().result <= a || v.last().result >= b
        }),
        ({
            let (a, b) = window_at(depth, prev_score, v, v.len() as int);
            x.alpha == a && x.beta == b
        }),
        x.position == p,
        !x.quiet,
        x.depth == depth,
        x.ply == 0,
        x.prev == 0,
        !x.cut_node,
    ensures
        aspiring(v.push(x), p, depth, prev_score),
{
    let w = v.push(x);
    assert forall|k: int| 0 <= k < w.len() implies #[trigger] aspires_at(w, p, depth, prev_score, k) by {
        if k < v.len() {
            assert(aspires_at(v, p, depth, prev_score, k));
        }
        reveal(aspires_at);
        lemma_window(depth, prev_score, v, x, k);
    }
}

/// The last thing a table took was the outcome of a completed search of the root.
pub open spec fn root_remembered<T: Table>(tt: T, x: Searched, s: Setting) -> bool {
    x.visits.len() > 0 ==> node_remembered(tt, s, x, extended(x.position, x.depth as int))
}

/// The move that a completed search of the root settled on, packed.
pub open spec fn settled_on(x: Searched, s: Setting) -> u16 {
    chosen(s, x, extended(x.position, x.depth as int))
}

/// The best move at the root after the first `n` of some searches of it, stopped or not.
pub open spec fn root_after(kept: u16, s: Setting, v: Seq<Searched>, n: int) -> u16
    decreases n,
{
    if n <= 0 {
        kept
    } else {
        root_found(root_after(kept, s, v, n - 1), s, v[n - 1], extended(v[n - 1].position, v[n - 1].depth as int))
    }
}

/// Searches go on from the best move of those before.
proof fn lemma_root_after(kept: u16, s: Setting, v: Seq<Searched>, w: Seq<Searched>, n: int)
    requires
        0 <= n <= w.len(),
    ensures
        root_after(kept, s, v + w, v.len() + n) == root_after(root_after(kept, s, v, v.len() as int), s, w, n),
    decreases n,
{
    if n > 0 {
        lemma_root_after(kept, s, v, w, n - 1);
        assert((v + w)[v.len() + n - 1] == w[n - 1]);
    } else {
        lemma_root_prefix(kept, s, v, w, v.len() as int);
    }
}

proof fn lemma_root_prefix(kept: u16, s: Setting, v: Seq<Searched>, w: Seq<Searched>, n: int)
    requires
        0 <= n <= v.len(),
    ensures
        root_after(kept, s, v + w, n) == root_after(kept, s, v, n),
    decreases n,
{
    if n > 0 {
        lemma_root_prefix(kept, s, v, w, n - 1);
        assert((v + w)[n - 1] == v[n - 1]);
    }
}

/// The last of some searches of the root was stopped: its moves as far as it came.
pub open spec fn last_cut_short(s: Setting, v: Seq<Searched>) -> bool {
    v.len() > 0 && cut_short(s, v.last(), extended(v.last().position, v.last().depth as int))
}

/// A move, if there is one, is legal.
pub open spec fn legal_choice(p: PosView, m: Option<Move>) -> bool {
    m matches Some(x) ==> legal_moves(p).contains(x) && legal_shape(p, x)
}

/// The accumulator is the root's, and there is one exactly when there is a network.
pub open spec fn root_acc_ok<T: Table>(s: &Searcher<T>, acc: Option<Acc>, p: PosView) -> bool {
    match (s.net, acc) {
        (Some(n), Some(a)) => n.usable() && acc_holds(a, *n, p.men),
        (None, None) => true,
        _ => false,
    }
}

impl Deepening {
    pub open spec fn wf<T: Table>(&self, s: &Searcher<T>, p: PosView) -> bool {
        &&& root_acc_ok(s, self.acc, p)
        &&& 1 <= self.depth <= MAX_PLY + 2
        &&& self.max_depth <= MAX_PLY - 1
        &&& self.stable < self.depth
        &&& -SCORE_LIMIT <= self.prev_score <= SCORE_LIMIT
        &&& legal_choice(p, self.best)
        &&& s.root_best == 0 || root_move_set(p, s.root_best)
    }
}

/// The move of a search that was stopped: that of the iterations it completed, and where they gave
/// none the best that the one it was stopped in had found at the root.
pub open spec fn falls_back(kept: Option<Move>, root_best: u16, r: Option<Move>) -> bool {
    match kept {
        Some(_) => r == kept,
        None => if root_best == 0 {
            r is None
        } else {
            r matches Some(m) && packed(m) == root_best
        },
    }
}

/// The move of an iteration that was completed: the best at the root, if there is one.
pub open spec fn takes_over(kept: Option<Move>, root_best: u16, r: Option<Move>) -> bool {
    if root_best == 0 {
        r == kept
    } else {
        r matches Some(m) && packed(m) == root_best
    }
}

/// Where the searches of iteration `k` begin among those noted.
pub open spec fn begun_at(from: int, v: Seq<Pause>, k: int) -> int {
    if k <= 0 {
        from
    } else {
        v[k - 1].noted
    }
}

/// The score that iteration `k` goes out from.
pub open spec fn score_before(v: Seq<Pause>, k: int) -> int {
    if k <= 0 {
        0
    } else {
        v[k - 1].score
    }
}

/// Iteration `k` was completed: its searches have the windows around the score before, and its score
/// and move are those of the last of them.
#[verifier::opaque]
pub open spec fn iterated(log: Seq<Searched>, from: int, s: Setting, p: PosView, v: Seq<Pause>, k: int) -> bool {
    let x = v[k];
    let start = begun_at(from, v, k);
    &&& from <= start < x.noted <= log.len()
    &&& aspired(log.subrange(start, x.noted), p, x.depth, score_before(v, k))
    &&& iteration(log[x.noted - 1], s, p, x.depth, x.score)
    &&& legal_moves(p).len() > 0 && x.score > -INF ==> (x.best matches Some(m) && packed(m) == settled_on(log[x.noted - 1], s))
}

/// What was found stays found as more is noted.
proof fn lemma_iterated(log: Seq<Searched>, more: Seq<Searched>, from: int, s: Setting, p: PosView, v: Seq<Pause>, w: Seq<Pause>, k: int)
    requires
        iterated(log, from, s, p, v, k),
        0 <= from,
        0 <= k < v.len() <= w.len(),
        log.len() <= more.len(),
        forall|i: int| 0 <= i < log.len() ==> #[trigger] more[i] == log[i],
        forall|i: int| 0 <= i < v.len() ==> #[trigger] w[i] == v[i],
    ensures
        iterated(more, from, s, p, w, k),
{
    reveal(iterated);
    assert(w[k] == v[k]);
    if k > 0 {
        assert(w[k - 1] == v[k - 1]);
    }
    let start = begun_at(from, v, k);
    assert(more.subrange(start, v[k].noted) =~= log.subrange(start, v[k].noted));
    assert(more[v[k].noted - 1] == log[v[k].noted - 1]);
}

/// Searches of the root: nothing lies before it on the path.
pub open spec fn all_rooted(v: Seq<Searched>) -> bool {
    forall|k: int| 0 <= k < v.len() ==> (#[trigger] v[k]).path.len() == 0 && v[k].cont.len() == 0
}

/// What a search begins with of what was learned in earlier ones: all but the killer moves.
pub open spec fn begins_with(t: Tables, before: Tables) -> bool {
    &&& t == (Tables { killers: t.killers, ..before })
    &&& forall|k: int| 0 <= k < MAX_PLY ==> #[trigger] t.killers@[k] == (0u16, 0u16)
}

/// The table that a search begins with, where it is known: the main searcher has aged it.
pub open spec fn table_begun(m: Memory, is_main: bool) -> Memory {
    match m {
        Some(x) => if is_main {
            Some((x.0, ((x.1 + 1) % 256) as u8))
        } else {
            m
        },
        None => None,
    }
}

/// Searches of the root, each with what the ones before it had taught.
pub open spec fn taught_on(v: Seq<Searched>, before: Tables, after: Tables) -> bool {
    let from = if v.len() > 0 {
        v[0].tables
    } else {
        after
    };
    &&& begins_with(from, before)
    &&& chained(from, Seq::empty(), v)
    &&& after == tables_end(from, v)
}

/// A search that was made: its searcher before and after.
pub struct Consulted<T: Table> {
    pub before: Searcher<T>,
    pub after: Searcher<T>,
}

/// A move is that of a search with `nodes` to spend and no clock, with the positions of the game
/// before it.
pub open spec fn found_by<T: Table>(c: Consulted<T>, p: PosView, played: Seq<u64>, nodes: u64, r: Option<Move>) -> bool {
    &&& c.before.game_hist@ == played
    &&& exists|l: Limits|
        l.nodes == Some(nodes) && l.depth is None && l.movetime is None && l.wtime is None && l.btime is None
            && #[trigger] c.after.thought(&c.before, p, l, r)
}

/// Searches that one searcher made one after another, told nothing in between but the positions of
/// the game.
pub open spec fn one_searcher<T: Table>(v: Seq<Consulted<T>>) -> bool {
    forall|k: int, j: int|
        #![trigger v[k], v[j]]
        0 <= j < v.len() && k == j + 1 && k < v.len() ==> v[k].before == (Searcher {
            game_hist: v[k].before.game_hist,
            ..v[j].after
        })
}

/// Soft and hard limit of a search in milliseconds.
pub fn time_budget(l: &Limits, side: u8) -> (r: (u128, u128))
    requires
        l.wf(),
    ensures
        r.0 == budget(*l, side).0,
        r.1 == budget(*l, side).1,
{
    match l.movetime {
        Some(mt) => (mt, mt),
        None => {
            let clock: Option<u128> = if side == WHITE {
                l.wtime
            } else {
                l.btime
            };
            let increment: Option<u128> = if side == WHITE {
                l.winc
            } else {
                l.binc
            };
            let inc: u128 = match increment {
                Some(x) => x,
                None => 0,
            };
            match clock {
                Some(t) => {
                    let left: u128 = if t >= l.move_overhead {
                        t - l.move_overhead
                    } else {
                        0
                    };
                    allocate_time(left, inc, l.movestogo)
                },
                None => (u128::MAX, u128::MAX),
            }
        },
    }
}

impl<T: Table> Searcher<T> {
    /// What a whole search leaves as it was.
    pub open spec fn same_setup(&self, before: &Self) -> bool {
        &&& self.is_main == before.is_main
        &&& self.thread_id == before.thread_id
        &&& self.net == before.net
        &&& self.policy == before.policy
        &&& self.params == before.params
        &&& self.stop == before.stop
        &&& self.game_hist == before.game_hist
        &&& self.eval_hist_game == before.eval_hist_game
    }

    /// The searches noted earlier are still there.
    pub open spec fn notes_kept(&self, before: &Self) -> bool {
        &&& before.log@.len() <= self.log@.len()
        &&& forall|k: int| 0 <= k < before.log@.len() ==> #[trigger] self.log@[k] == before.log@[k]
    }

    /// The first look at the stop conditions of a search that has visited nothing yet: what stops
    /// it there leaves nothing done, and what stops it later comes after as many nodes as lie
    /// between two looks.
    pub open spec fn first_look(&self, before: &Self) -> bool {
        !before.stopped && before.visited@ == 0 ==> {
            &&& self.polls@.len() > 0
            &&& if stops(self.polls@[0], self.max_nodes, self.hard_ms) {
                &&& self.stopped
                &&& self.nodes == 0
                &&& self.root_best == before.root_best
            } else {
                self.stopped ==> self.visited@ >= 2048
            }
        }
    }

    /// Prepares a search of a position under limits. What was learned in earlier searches stays;
    /// the killer moves, counters and stacks start afresh.
    pub fn begin(&mut self, board: &Position, limits: &Limits) -> (r: Deepening)
        requires
            old(self).wf(),
            wf(board@),
            limits.wf(),
        ensures
            final(self).wf(),
            r.wf(final(self), board@),
            *final(self) == (Searcher {
                tt: final(self).tt,
                tables: Tables { killers: final(self).tables.killers, ..old(self).tables },
                lmr: final(self).lmr,
                start: final(self).start,
                nodes: 0,
                stopped: false,
                polls: final(self).polls,
                visited: final(self).visited,
                pauses: final(self).pauses,
                path: final(self).path,
                cont_stack: final(self).cont_stack,
                root_best: 0,
                max_nodes: final(self).max_nodes,
                soft_ms: final(self).soft_ms,
                hard_ms: final(self).hard_ms,
                ..*old(self)
            }),
            if old(self).is_main {
                final(self).tt.renewed(&old(self).tt)
            } else {
                final(self).tt == old(self).tt
            },
            old(self).tt.memory() is Some ==> final(self).tt.memory() == table_begun(
                old(self).tt.memory(),
                old(self).is_main,
            ),
            final(self).path@.len() == 0,
            final(self).cont_stack@.len() == 0,
            final(self).polls@.len() == 0,
            final(self).visited@ == 0,
            final(self).pauses@.len() == 0,
            reduction_table(final(self).lmr@, final(self).params),
            forall|k: int| 0 <= k < MAX_PLY ==> #[trigger] final(self).tables.killers@[k] == (0u16, 0u16),
            final(self).max_nodes == match limits.nodes {
                Some(n) => n,
                None => u64::MAX,
            },
            final(self).soft_ms == if limits.infinite {
                u128::MAX as int
            } else {
                budget(*limits, board@.side).0
            },
            final(self).hard_ms == if limits.infinite {
                u128::MAX as int
            } else {
                budget(*limits, board@.side).1
            },
            r.soft == budget(*limits, board@.side).0,
            r.hard == budget(*limits, board@.side).1,
            r.depth == 1 + old(self).thread_id % 3,
            r.max_depth == last_depth(*limits),
            r.adaptive == adapts(*limits, board@.side),
            r.best is None,
            r.previous_best is None,
            r.prev_score == 0,
            r.stable == 0,
            !r.over,
    {
        self.nodes = 0;
        self.stopped = false;
        self.polls = Ghost(Seq::empty());
        self.visited = Ghost(0);
        self.pauses = Ghost(Seq::empty());
        proof {
            reveal(polled);
        }
        self.start = now();
        self.path.clear();
        self.cont_stack.clear();
        self.tables.killers = no_killers();
        self.root_best = 0;
        self.lmr = build_lmr_table(&self.params);
        if self.is_main {
            self.tt.begin_search();
        }
        self.max_nodes = match limits.nodes {
            Some(n) => n,
            None => u64::MAX,
        };
        let stm: u8 = board.side_to_move();
        let (soft, hard): (u128, u128) = time_budget(limits, stm);
        self.soft_ms = if limits.infinite {
            u128::MAX
        } else {
            soft
        };
        self.hard_ms = if limits.infinite {
            u128::MAX
        } else {
            hard
        };
        let max_depth: i32 = match limits.depth {
            Some(d) => if d < 127 {
                d
            } else {
                127
            },
            None => 127,
        };
        let acc: Option<Acc> = match &self.net {
            Some(n) => Some(acc_from(n, board)),
            None => None,
        };
        let clock: Option<u128> = if stm == WHITE {
            limits.wtime
        } else {
            limits.btime
        };
        let adaptive: bool = limits.adaptive_time && !limits.infinite && limits.movetime.is_none() && limits.nodes.is_none()
            && limits.depth.is_none() && clock.is_some();
        Deepening {
            acc,
            depth: 1 + (self.thread_id % 3) as i32,
            max_depth,
            soft,
            hard,
            adaptive,
            best: None,
            previous_best: None,
            prev_score: 0,
            stable: 0,
            over: false,
        }
    }

    /// One iteration: searches the root with a window around the last score, and widens the side
    /// that fails until the score falls inside.
    #[verifier::rlimit(40)]
    #[verifier::spinoff_prover]
    pub fn aspirate(&mut self, board: &Position, depth: i32, prev_score: i32, acc: Option<&Acc>) -> (r: i32)
        requires
            old(self).wf(),
            wf(board@),
            1 <= depth <= MAX_PLY - 1,
            -SCORE_LIMIT <= prev_score <= SCORE_LIMIT,
            acc_ok(old(self).net, acc, board@),
        ensures
            final(self).wf(),
            final(self).keeps(old(self)),
            root_move_ok(board@, old(self).root_best, final(self).root_best),
            final(self).log@ == old(self).log@ + made_since(old(self).log@, final(self).log@),
            aspired(made_since(old(self).log@, final(self).log@), board@, depth as int, prev_score as int),
            final(self).root_best == root_after(
                old(self).root_best,
                old(self).setting(),
                made_since(old(self).log@, final(self).log@),
                made_since(old(self).log@, final(self).log@).len() as int,
            ),
            final(self).stopped ==> last_cut_short(old(self).setting(), made_since(old(self).log@, final(self).log@)),
            chained(old(self).tables, Seq::empty(), made_since(old(self).log@, final(self).log@)),
            final(self).tables == tables_end(old(self).tables, made_since(old(self).log@, final(self).log@)),
            !final(self).stopped ==> followed(
                old(self).setting(),
                node_height(-1),
                made_since(old(self).log@, final(self).log@),
                old(self).tt.memory(),
                final(self).tt.memory(),
            ),
            final(self).path@ == old(self).path@,
            final(self).cont_stack@ == old(self).cont_stack@,
            old(self).path@.len() == 0 && old(self).cont_stack@.len() == 0 ==> all_rooted(
                made_since(old(self).log@, final(self).log@),
            ),
            final(self).notes_kept(old(self)),
            final(self).log@.len() > old(self).log@.len(),
            final(self).first_look(old(self)),
            !final(self).stopped ==> iteration(
                final(self).log@.last(),
                old(self).setting(),
                board@,
                depth as int,
                r as int,
            ) && root_remembered(final(self).tt, final(self).log@.last(), old(self).setting()),
            !final(self).stopped ==> -SCORE_LIMIT <= r <= SCORE_LIMIT && if legal_moves(board@).len() == 0 {
                r == no_move_score(board@, 0)
            } else {
                r > -INF ==> root_move_set(board@, final(self).root_best) && final(self).root_best == settled_on(
                    final(self).log@.last(),
                    old(self).setting(),
                )
            },
    {
        let mut delta: i32 = 30;
        let mut a: i32 = -INF;
        let mut b: i32 = INF;
        if depth >= 5 {
            a = prev_score - delta;
            b = prev_score + delta;
        }
        proof {
            reveal(polled);
        }
        let ghost m = self.tt.memory();
        let mut s: i32 = self.negamax(board, depth, 0, a, b, 0, acc, false);
        let ghost mut made: Seq<Searched> = Seq::empty();
        proof {
            lemma_first_look(self, old(self));
            lemma_aspires_next(made, self.log@.last(), board@, depth as int, prev_score as int);
            made = made.push(self.log@.last());
            assert(self.log@ =~= old(self).log@ + made);
            reveal_with_fuel(root_after, 2);
            lemma_chain_none(old(self).tables, Seq::empty(), Seq::empty());
            assert(self.log@.last().evals.take(0) =~= Seq::empty());
            lemma_chain_next(old(self).tables, Seq::empty(), Seq::empty(), self.log@.last());
            lemma_none_followed(old(self).setting(), node_height(-1), m);
            if !self.stopped {
                lemma_next_followed(
                    old(self).setting(),
                    node_height(-1),
                    Seq::empty(),
                    self.log@.last(),
                    m,
                    m,
                    self.tt.memory(),
                );
            }
        }
        while !self.stopped && (s <= a || s >= b)
            invariant
                self.wf(),
                self.keeps(old(self)),
                wf(board@),
                1 <= depth <= MAX_PLY - 1,
                acc_ok(old(self).net, acc, board@),
                root_move_ok(board@, old(self).root_best, self.root_best),
                !self.stopped ==> sound(s as int, a as int, b as int) && if legal_moves(board@).len() == 0 {
                    s == no_move_score(board@, 0)
                } else {
                    s > -INF ==> root_move_set(board@, self.root_best) && self.root_best == settled_on(
                        self.log@.last(),
                        old(self).setting(),
                    )
                },
                self.notes_kept(old(self)),
                self.log@.len() > old(self).log@.len(),
                self.first_look(old(self)),
                made.len() > 0,
                self.log@ == old(self).log@ + made,
                made.last() == self.log@.last(),
                self.root_best == root_after(old(self).root_best, old(self).setting(), made, made.len() as int),
                self.stopped ==> last_cut_short(old(self).setting(), made),
                chained(old(self).tables, Seq::empty(), made),
                self.tables == tables_end(old(self).tables, made),
                m == old(self).tt.memory(),
                !self.stopped ==> followed(old(self).setting(), node_height(-1), made, m, self.tt.memory()),
                old(self).path@.len() == 0 && old(self).cont_stack@.len() == 0 ==> all_rooted(made),
                made.last().stopped == self.stopped,
                made.last().result == s,
                aspiring(made, board@, depth as int, prev_score as int),
                window_at(depth as int, prev_score as int, made, made.len() - 1) == (a as int, b as int),
                delta == widening(made.len() - 1),
                !self.stopped ==> answers(
                    self.log@.last(),
                    (Searched {
                        tables: self.log@.last().tables,
                        evals: self.log@.last().evals,
                        ..old(self).main_search(board@, depth, 0, a, b, 0, acc, false)
                    }),
                    s,
                    false,
                ) && accounted(old(self).setting(), self.log@.last()) && root_remembered(
                    self.tt,
                    self.log@.last(),
                    old(self).setting(),
                ),
                a < b,
                30 <= delta,
                -WINDOW_LIMIT <= a <= SCORE_LIMIT,
                -SCORE_LIMIT <= b <= WINDOW_LIMIT,
                delta < 8 * SCORE_LIMIT || ((a < -SCORE_LIMIT || b > SCORE_LIMIT) && delta < 16 * SCORE_LIMIT) || (a
                    < -SCORE_LIMIT && b > SCORE_LIMIT && delta < 32 * SCORE_LIMIT),
            decreases
                    (if a >= -SCORE_LIMIT {
                        a + SCORE_LIMIT + 1
                    } else {
                        0
                    }) + (if b <= SCORE_LIMIT {
                        SCORE_LIMIT + 1 - b
                    } else {
                        0
                    }),
        {
            if s <= a {
                a = a - delta;
            } else {
                b = b + delta;
            }
            delta = delta * 2;
            let ghost before = *self;
            s = self.negamax(board, depth, 0, a, b, 0, acc, false);
            proof {
                lemma_later_look(self, &before, old(self));
                lemma_window(depth as int, prev_score as int, made, self.log@.last(), made.len() as int);
                lemma_window(depth as int, prev_score as int, made, self.log@.last(), made.len() - 1);
                lemma_aspires_next(made, self.log@.last(), board@, depth as int, prev_score as int);
                lemma_root_prefix(
                    old(self).root_best,
                    old(self).setting(),
                    made,
                    seq![self.log@.last()],
                    made.len() as int,
                );
                assert(made + seq![self.log@.last()] =~= made.push(self.log@.last()));
                assert(self.log@.last().evals.take(0) =~= Seq::empty());
                lemma_chain_next(old(self).tables, Seq::empty(), made, self.log@.last());
                if !self.stopped {
                    lemma_next_followed(
                        old(self).setting(),
                        node_height(-1),
                        made,
                        self.log@.last(),
                        m,
                        before.tt.memory(),
                        self.tt.memory(),
                    );
                }
                made = made.push(self.log@.last());
                assert(self.log@ =~= old(self).log@ + made);
            }
        }
        assert(made_since(old(self).log@, self.log@) =~= made);
        s
    }

    /// Searches one iteration deeper and takes its result in: the best move, whether it changed,
    /// the score, and the soft limit that follows from both. An iteration that was stopped only
    /// gives a best move where there is none yet, and no score.
    #[verifier::rlimit(40)]
    #[verifier::spinoff_prover]
    pub fn deepen(&mut self, board: &Position, d: &mut Deepening) -> (r: Option<i32>)
        requires
            old(self).wf(),
            wf(board@),
            old(d).wf(old(self), board@),
            old(d).depth <= old(d).max_depth,
        ensures
            final(self).wf(),
            final(d).wf(final(self), board@),
            r is None <==> final(self).stopped,
            final(d).acc == old(d).acc,
            final(d).max_depth == old(d).max_depth,
            final(d).soft == old(d).soft,
            final(d).hard == old(d).hard,
            final(d).adaptive == old(d).adaptive,
            final(self).same_setup(old(self)),
            final(self).hard_ms == old(self).hard_ms,
            final(self).max_nodes == old(self).max_nodes,
            old(d).best is Some ==> final(d).best is Some,
            final(d).over == old(d).over,
            final(self).pauses == old(self).pauses,
            final(self).log@ == old(self).log@ + made_since(old(self).log@, final(self).log@),
            aspired(
                made_since(old(self).log@, final(self).log@),
                board@,
                old(d).depth as int,
                old(d).prev_score as int,
            ),
            final(self).setting() == old(self).setting(),
            final(self).root_best == root_after(
                old(self).root_best,
                old(self).setting(),
                made_since(old(self).log@, final(self).log@),
                made_since(old(self).log@, final(self).log@).len() as int,
            ),
            final(self).stopped ==> last_cut_short(old(self).setting(), made_since(old(self).log@, final(self).log@)),
            chained(old(self).tables, Seq::empty(), made_since(old(self).log@, final(self).log@)),
            final(self).tables == tables_end(old(self).tables, made_since(old(self).log@, final(self).log@)),
            !final(self).stopped ==> followed(
                old(self).setting(),
                node_height(-1),
                made_since(old(self).log@, final(self).log@),
                old(self).tt.memory(),
                final(self).tt.memory(),
            ),
            final(self).path@ == old(self).path@,
            final(self).cont_stack@ == old(self).cont_stack@,
            old(self).path@.len() == 0 && old(self).cont_stack@.len() == 0 ==> all_rooted(
                made_since(old(self).log@, final(self).log@),
            ),
            final(self).notes_kept(old(self)),
            old(self).polls@.len() > 0 ==> final(self).polls@.len() > 0 && final(self).polls@[0] == old(self).polls@[0],
            final(self).first_look(old(self)),
            final(self).stopped ==> final(self).polls@.len() > 0 && stops(
                final(self).polls@.last(),
                final(self).max_nodes,
                final(self).hard_ms,
            ),
            !old(self).stopped && old(self).visited@ == 0 && old(self).root_best == 0 && stops(
                final(self).polls@[0],
                final(self).max_nodes,
                final(self).hard_ms,
            ) ==> final(d).best == old(d).best,
            match r {
                Some(score) => {
                    let settled = old(d).previous_best is None || old(d).previous_best == final(d).best;
                    &&& final(d).depth == old(d).depth + 1
                    &&& final(d).prev_score == score
                    &&& final(self).last_score == score
                    &&& final(self).log@.len() > old(self).log@.len()
                    &&& iteration(
                        final(self).log@.last(),
                        final(self).setting(),
                        board@,
                        old(d).depth as int,
                        score as int,
                    )
                    &&& root_remembered(final(self).tt, final(self).log@.last(), final(self).setting())
                    &&& final(d).previous_best == final(d).best
                    &&& takes_over(old(d).best, final(self).root_best, final(d).best)
                    &&& legal_moves(board@).len() == 0 ==> score == no_move_score(board@, 0)
                    &&& legal_moves(board@).len() > 0 && score > -INF ==> (final(d).best matches Some(m) && packed(m)
                        == final(self).root_best && packed(m) == settled_on(final(self).log@.last(), final(self).setting()))
                    &&& if old(d).adaptive && old(d).depth >= 5 {
                        &&& final(d).stable == if settled {
                            old(d).stable + 1
                        } else {
                            0
                        }
                        &&& final(self).soft_ms == adapted(
                            old(d).soft as int,
                            old(d).hard as int,
                            final(d).stable,
                            !settled,
                            old(d).prev_score - score,
                        )
                    } else {
                        &&& final(d).stable == old(d).stable
                        &&& final(self).soft_ms == old(self).soft_ms
                    }
                },
                None => {
                    &&& final(d).depth == old(d).depth
                    &&& final(d).prev_score == old(d).prev_score
                    &&& final(self).last_score == old(self).last_score
                    &&& final(self).soft_ms == old(self).soft_ms
                    &&& final(d).previous_best == old(d).previous_best
                    &&& final(d).stable == old(d).stable
                    &&& falls_back(old(d).best, final(self).root_best, final(d).best)
                },
            },
    {
        self.seldepth = 0;
        let score: i32 = self.aspirate(board, d.depth, d.prev_score, d.acc.as_ref());
        if !self.stopped || d.best.is_none() {
            match packed_to_move(board, self.root_best) {
                Some(mv) => {
                    d.best = Some(mv);
                },
                None => {},
            }
        }
        if self.stopped {
            proof {
                reveal(polled);
            }
            return None;
        }
        if d.adaptive && d.depth >= 5 {
            let changed: bool = d.previous_best.is_some() && !same_move(d.previous_best, d.best);
            d.stable = if changed {
                0
            } else {
                d.stable + 1
            };
            self.soft_ms = adaptive_soft_time(d.soft, d.hard, d.stable, changed, d.prev_score - score);
        }
        d.previous_best = d.best;
        d.prev_score = score;
        self.last_score = score;
        d.depth = d.depth + 1;
        Some(score)
    }

    /// Goes one iteration deeper, unless none follows: the greatest depth has been reached, the last
    /// iteration was stopped, its soft limit had passed or it had settled a mate. Of a completed
    /// iteration there is its depth and score.
    #[verifier::rlimit(40)]
    #[verifier::spinoff_prover]
    pub fn iterate(&mut self, board: &Position, d: &mut Deepening) -> (r: Option<(i32, i32)>)
        requires
            old(self).wf(),
            wf(board@),
            old(d).wf(old(self), board@),
            old(self).stopped ==> old(d).over,
        ensures
            final(self).wf(),
            final(d).wf(final(self), board@),
            final(self).stopped ==> final(d).over,
            final(d).max_depth == old(d).max_depth,
            final(d).soft == old(d).soft,
            final(d).hard == old(d).hard,
            final(d).adaptive == old(d).adaptive,
            final(self).same_setup(old(self)),
            final(self).setting() == old(self).setting(),
            final(self).hard_ms == old(self).hard_ms,
            final(self).max_nodes == old(self).max_nodes,
            final(self).notes_kept(old(self)),
            old(self).polls@.len() > 0 ==> final(self).polls@.len() > 0 && final(self).polls@[0] == old(self).polls@[0],
            old(d).over || old(d).depth > old(d).max_depth ==> r is None && *final(self) == *old(self) && *final(d) == *old(d),
            !old(d).over && old(d).depth <= old(d).max_depth ==> {
                &&& final(self).first_look(old(self))
                &&& final(self).log@ == old(self).log@ + made_since(old(self).log@, final(self).log@)
                &&& aspired(
                    made_since(old(self).log@, final(self).log@),
                    board@,
                    old(d).depth as int,
                    old(d).prev_score as int,
                )
                &&& final(self).root_best == root_after(
                    old(self).root_best,
                    old(self).setting(),
                    made_since(old(self).log@, final(self).log@),
                    made_since(old(self).log@, final(self).log@).len() as int,
                )
                &&& final(self).stopped ==> last_cut_short(
                    old(self).setting(),
                    made_since(old(self).log@, final(self).log@),
                )
                &&& chained(old(self).tables, Seq::empty(), made_since(old(self).log@, final(self).log@))
                &&& final(self).tables == tables_end(old(self).tables, made_since(old(self).log@, final(self).log@))
                &&& !final(self).stopped ==> followed(
                    old(self).setting(),
                    node_height(-1),
                    made_since(old(self).log@, final(self).log@),
                    old(self).tt.memory(),
                    final(self).tt.memory(),
                )
                &&& final(self).path@ == old(self).path@
                &&& final(self).cont_stack@ == old(self).cont_stack@
                &&& old(self).path@.len() == 0 && old(self).cont_stack@.len() == 0 ==> all_rooted(
                    made_since(old(self).log@, final(self).log@),
                )
                &&& final(self).stopped ==> final(self).polls@.len() > 0 && stops(
                    final(self).polls@.last(),
                    final(self).max_nodes,
                    final(self).hard_ms,
                )
                &&& old(self).visited@ == 0 && old(self).root_best == 0 && stops(
                    final(self).polls@[0],
                    final(self).max_nodes,
                    final(self).hard_ms,
                ) ==> final(d).best == old(d).best
                &&& match r {
                    Some((depth, score)) => {
                        &&& !final(self).stopped
                        &&& depth == old(d).depth
                        &&& final(d).depth == old(d).depth + 1
                        &&& final(d).prev_score == score
                        &&& final(self).last_score == score
                        &&& final(self).log@.len() > old(self).log@.len()
                        &&& iteration(
                            final(self).log@.last(),
                            final(self).setting(),
                            board@,
                            depth as int,
                            score as int,
                        )
                        &&& root_remembered(final(self).tt, final(self).log@.last(), final(self).setting())
                        &&& takes_over(old(d).best, final(self).root_best, final(d).best)
                        &&& legal_moves(board@).len() == 0 ==> score == no_move_score(board@, 0)
                        &&& legal_moves(board@).len() > 0 && score > -INF ==> (final(d).best matches Some(m) && packed(m)
                            == final(self).root_best && packed(m) == settled_on(
                            final(self).log@.last(),
                            final(self).setting(),
                        ))
                        &&& final(self).pauses@ == old(self).pauses@.push(final(self).pauses@.last())
                        &&& final(self).pauses@.last() == (Pause {
                            depth: depth as int,
                            score: score as int,
                            best: final(d).best,
                            elapsed: final(self).pauses@.last().elapsed,
                            soft_ms: final(self).soft_ms,
                            noted: final(self).log@.len() as int,
                        })
                        &&& final(d).over == last_pause(final(self).pauses@.last())
                        &&& final(d).previous_best == final(d).best
                        &&& if old(d).adaptive && old(d).depth >= 5 {
                            let settled = old(d).previous_best is None || old(d).previous_best == final(d).best;
                            &&& final(d).stable == if settled {
                                old(d).stable + 1
                            } else {
                                0
                            }
                            &&& final(self).soft_ms == adapted(
                                old(d).soft as int,
                                old(d).hard as int,
                                final(d).stable,
                                !settled,
                                old(d).prev_score - score,
                            )
                        } else {
                            &&& final(d).stable == old(d).stable
                            &&& final(self).soft_ms == old(self).soft_ms
                        }
                    },
                    None => {
                        &&& final(self).stopped
                        &&& final(self).pauses == old(self).pauses
                        &&& final(self).soft_ms == old(self).soft_ms
                        &&& final(d).previous_best == old(d).previous_best
                        &&& final(d).stable == old(d).stable
                        &&& final(d).depth == old(d).depth
                        &&& final(d).prev_score == old(d).prev_score
                        &&& final(self).last_score == old(self).last_score
                        &&& falls_back(old(d).best, final(self).root_best, final(d).best)
                    },
                }
            },
    {
        if d.over || d.depth > d.max_depth {
            return None;
        }
        let depth: i32 = d.depth;
        match self.deepen(board, d) {
            Some(score) => {
                let elapsed: u128 = elapsed_ms(&self.start);
                d.over = is_last_iteration(depth, score, elapsed, self.soft_ms);
                let ghost x = Pause {
                    depth: depth as int,
                    score: score as int,
                    best: d.best,
                    elapsed,
                    soft_ms: self.soft_ms,
                    noted: self.log@.len() as int,
                };
                self.pauses = Ghost(self.pauses@.push(x));
                Some((depth, score))
            },
            None => {
                d.over = true;
                None
            },
        }
    }

    /// What a search of a position under limits leaves behind, and the move it settles on: score and
    /// move are those of the last iteration that was completed. Where the search was stopped before
    /// there was one, the score is as before and the move is the best found at the root, if one was.
    /// There is no move where the position has none, or where the limits allow no iteration. A
    /// search is stopped by what it saw at its last look at the stop conditions, and one that was
    /// stopped at the first look has done nothing. It is over when it was stopped, or with the
    /// iteration that reached the greatest depth, after which the soft limit had passed, or which
    /// settled a mate, and not before. Each search of the root goes by what those before it had
    /// taught, and of a table that no other thread writes, by what they had left in it.
    pub open spec fn thought(&self, before: &Self, p: PosView, l: Limits, r: Option<Move>) -> bool {
        let first = 1 + before.thread_id as int % 3;
        let last = last_depth(l);
        &&& self.same_setup(before)
        &&& reduction_table(self.lmr@, self.params)
        &&& self.max_nodes == match l.nodes {
            Some(n) => n,
            None => u64::MAX,
        }
        &&& self.hard_ms == if l.infinite {
            u128::MAX as int
        } else {
            budget(l, p.side).1
        }
        &&& self.nodes == self.visited@ % 0x1_0000_0000_0000_0000
        &&& self.notes_kept(before)
        &&& self.root_best == root_after(
            0,
            self.setting(),
            made_since(before.log@, self.log@),
            made_since(before.log@, self.log@).len() as int,
        )
        &&& self.stopped ==> last_cut_short(self.setting(), made_since(before.log@, self.log@))
        &&& all_rooted(made_since(before.log@, self.log@))
        &&& taught_on(made_since(before.log@, self.log@), before.tables, self.tables)
        &&& !self.stopped ==> followed(
            self.setting(),
            node_height(-1),
            made_since(before.log@, self.log@),
            table_begun(before.tt.memory(), before.is_main),
            self.tt.memory(),
        )
        &&& self.stopped ==> self.polls@.len() > 0 && stops(self.polls@.last(), self.max_nodes, self.hard_ms)
        &&& if last < first {
            r is None && !self.stopped && self.last_score == before.last_score
        } else {
            &&& self.polls@.len() > 0
            &&& if stops(self.polls@[0], self.max_nodes, self.hard_ms) {
                r is None && self.stopped && self.nodes == 0 && self.last_score == before.last_score
            } else {
                self.stopped ==> self.visited@ >= 2048
            }
            &&& paced(l, p.side, first, self.pauses@)
            &&& forall|k: int|
                0 <= k < self.pauses@.len() ==> #[trigger] iterated(
                    self.log@,
                    before.log@.len() as int,
                    self.setting(),
                    p,
                    self.pauses@,
                    k,
                )
            &&& self.last_score == if self.pauses@.len() == 0 {
                before.last_score as int
            } else {
                self.pauses@.last().score
            }
            &&& if self.stopped {
                &&& self.pauses@.len() > 0 ==> self.pauses@.last().depth < last && !last_pause(self.pauses@.last())
                &&& before.log@.len() <= begun_at(before.log@.len() as int, self.pauses@, self.pauses@.len() as int)
                    < self.log@.len()
                &&& aspired(
                    self.log@.skip(begun_at(before.log@.len() as int, self.pauses@, self.pauses@.len() as int)),
                    p,
                    first + self.pauses@.len(),
                    score_before(self.pauses@, self.pauses@.len() as int),
                )
                &&& falls_back(
                    if self.pauses@.len() == 0 {
                        None
                    } else {
                        self.pauses@.last().best
                    },
                    self.root_best,
                    r,
                )
            } else {
                &&& self.pauses@.len() > 0
                &&& self.pauses@.last().noted == self.log@.len()
                &&& self.pauses@.last().depth == self.log@.last().depth
                &&& self.pauses@.last().best == r
                &&& self.pauses@.last().soft_ms == self.soft_ms
                &&& self.log@.last().depth == last || last_pause(self.pauses@.last())
            }
            &&& !self.stopped && (l.infinite || budget(l, p.side).0 == u128::MAX) ==> self.log@.last().depth == last
                || mate_settled(self.log@.last().depth as int, self.last_score as int)
            &&& !self.stopped ==> self.log@.len() > before.log@.len() && iteration(
                self.log@.last(),
                self.setting(),
                p,
                self.log@.last().depth as int,
                self.last_score as int,
            ) && root_remembered(self.tt, self.log@.last(), self.setting())
            &&& !self.stopped ==> if legal_moves(p).len() == 0 {
                r is None && self.last_score == no_move_score(p, 0)
            } else {
                self.last_score > -INF ==> (r matches Some(m) && packed(m) == self.root_best)
            }
        }
    }

    /// Searches a position under limits, one iteration deeper at a time. The move it settles on
    /// is legal, and is that of the last iteration that was completed. There is none where the
    /// position has no move, or where the search was stopped before its first iteration found one;
    /// a search that is stopped before it starts has visited no node.
    #[verifier::rlimit(40)]
    #[verifier::spinoff_prover]
    pub fn think(&mut self, board: &Position, limits: &Limits) -> (r: Option<Move>)
        requires
            old(self).wf(),
            wf(board@),
            limits.wf(),
        ensures
            final(self).wf(),
            legal_choice(board@, r),
            final(self).thought(old(self), board@, *limits, r),
    {
        let mut d: Deepening = self.begin(board, limits);
        let ghost first = d.depth;
        let mut going: bool = true;
        let ghost side = board@.side;
        let ghost from = self.tables;
        let ghost n = self.log@.len() as int;
        let ghost m = table_begun(old(self).tt.memory(), old(self).is_main);
        assert(self.pauses@ =~= Seq::empty());
        proof {
            lemma_chain_none(from, Seq::empty(), made_since(old(self).log@, self.log@));
            lemma_none_followed(self.setting(), node_height(-1), m);
            assert(made_since(old(self).log@, self.log@) =~= Seq::empty());
            assert(followed(self.setting(), node_height(-1), Seq::empty(), m, self.tt.memory())) by {
                reveal(followed);
            }
        }
        while going
            invariant
                side == board@.side,
                limits.wf(),
                paced(*limits, side, first as int, self.pauses@),
                d.depth == first + self.pauses@.len(),
                d.adaptive == adapts(*limits, side),
                d.soft == budget(*limits, side).0,
                d.hard == budget(*limits, side).1,
                d.adaptive ==> d.stable == stable_at(self.pauses@, self.pauses@.len() as int),
                d.previous_best == if self.pauses@.len() == 0 {
                    None
                } else {
                    self.pauses@.last().best
                },
                d.prev_score == if self.pauses@.len() == 0 {
                    0
                } else {
                    self.pauses@.last().score
                },
                self.soft_ms == soft_at(*limits, side, self.pauses@, self.pauses@.len() as int),
                self.pauses@.len() > 0 ==> self.pauses@.last().depth <= d.max_depth && self.pauses@.last().depth == d.depth - 1,
                self.pauses@.len() > 0 && !self.stopped ==> self.pauses@.last().soft_ms == self.soft_ms && self.pauses@.last().best
                    == d.best && self.pauses@.last().depth == self.log@.last().depth && d.over == last_pause(self.pauses@.last()),
                self.pauses@.len() > 0 && self.stopped ==> self.pauses@.last().depth < d.max_depth && !last_pause(
                    self.pauses@.last(),
                ),
                self.wf(),
                wf(board@),
                d.wf(self, board@),
                self.same_setup(old(self)),
                self.notes_kept(old(self)),
                d.max_depth == last_depth(*limits),
                self.max_nodes == match limits.nodes {
                    Some(n) => n,
                    None => u64::MAX,
                },
                self.hard_ms == if limits.infinite {
                    u128::MAX as int
                } else {
                    budget(*limits, board@.side).1
                },
                first == 1 + old(self).thread_id % 3,
                first <= d.depth,
                self.stopped ==> d.over,
                !going ==> d.over || d.depth > d.max_depth,
                d.over && d.depth == first ==> self.stopped,
                self.stopped ==> first <= d.max_depth,
                self.stopped ==> self.polls@.len() > 0 && stops(self.polls@.last(), self.max_nodes, self.hard_ms),
                d.depth == first ==> self.last_score == old(self).last_score,
                d.depth == first && !d.over ==> d.best is None && !self.stopped && self.visited@ == 0 && self.root_best == 0,
                d.depth > first || d.over ==> self.polls@.len() > 0 && if stops(
                    self.polls@[0],
                    self.max_nodes,
                    self.hard_ms,
                ) {
                    d.best is None && self.stopped && self.nodes == 0 && d.depth == first
                } else {
                    self.stopped ==> self.visited@ >= 2048
                },
                reduction_table(self.lmr@, self.params),
                self.root_best == root_after(
                    0,
                    self.setting(),
                    made_since(old(self).log@, self.log@),
                    made_since(old(self).log@, self.log@).len() as int,
                ),
                self.stopped ==> last_cut_short(self.setting(), made_since(old(self).log@, self.log@)),
                d.best == if self.stopped {
                    d.best
                } else {
                    d.previous_best
                },
                self.stopped ==> falls_back(d.previous_best, self.root_best, d.best),
                d.depth > first ==> self.last_score == d.prev_score,
                n == old(self).log@.len(),
                self.path@.len() == 0,
                self.cont_stack@.len() == 0,
                all_rooted(made_since(old(self).log@, self.log@)),
                m == table_begun(old(self).tt.memory(), old(self).is_main),
                !self.stopped ==> followed(
                    self.setting(),
                    node_height(-1),
                    made_since(old(self).log@, self.log@),
                    m,
                    self.tt.memory(),
                ),
                begins_with(from, old(self).tables),
                chained(from, Seq::empty(), made_since(old(self).log@, self.log@)),
                self.tables == tables_end(from, made_since(old(self).log@, self.log@)),
                !self.stopped ==> begun_at(n, self.pauses@, self.pauses@.len() as int) == self.log@.len(),
                self.stopped ==> n <= begun_at(n, self.pauses@, self.pauses@.len() as int) < self.log@.len(),
                self.stopped ==> aspired(
                    self.log@.skip(begun_at(n, self.pauses@, self.pauses@.len() as int)),
                    board@,
                    first + self.pauses@.len(),
                    score_before(self.pauses@, self.pauses@.len() as int),
                ),
                forall|k: int|
                    0 <= k < self.pauses@.len() ==> #[trigger] iterated(
                        self.log@,
                        n,
                        self.setting(),
                        board@,
                        self.pauses@,
                        k,
                    ),
                d.depth > first && !self.stopped ==> iteration(
                    self.log@.last(),
                    self.setting(),
                    board@,
                    self.log@.last().depth as int,
                    self.last_score as int,
                ) && self.log@.len() > old(self).log@.len() && root_remembered(self.tt, self.log@.last(), self.setting()),
                d.depth > first && !self.stopped ==> if legal_moves(board@).len() == 0 {
                    d.prev_score == no_move_score(board@, 0)
                } else {
                    d.prev_score > -INF ==> (d.best matches Some(m) && packed(m) == self.root_best)
                },
            decreases
                    (if d.depth <= d.max_depth {
                        d.max_depth - d.depth + 1
                    } else {
                        0
                    }) + if going {
                        1int
                    } else {
                        0int
                    },
        {
            let ghost before = self.pauses@;
            let ghost noted = self.log@;
            let ghost s = self.setting();
            let ghost mid = self.tt.memory();
            let ghost over = d.over || d.depth > d.max_depth;
            let step = self.iterate(board, &mut d);
            proof {
                if !over {
                    let a = made_since(old(self).log@, noted);
                    let b = made_since(noted, self.log@);
                    lemma_root_after(0, s, a, b, b.len() as int);
                    lemma_chain_join(from, Seq::empty(), a, b);
                    if !self.stopped {
                        lemma_join_followed(s, node_height(-1), a, b, m, mid, self.tt.memory());
                    }
                    assert(made_since(old(self).log@, self.log@) =~= a + b);
                }
            }
            match step {
                Some(_) => {
                    proof {
                        assert forall|k: int| 0 <= k < self.pauses@.len() implies #[trigger] iterated(
                            self.log@,
                            n,
                            s,
                            board@,
                            self.pauses@,
                            k,
                        ) by {
                            if k < before.len() {
                                assert(iterated(noted, n, s, board@, before, k));
                                lemma_iterated(noted, self.log@, n, s, board@, before, self.pauses@, k);
                            } else {
                                reveal(iterated);
                                assert(begun_at(n, self.pauses@, k) == noted.len());
                                assert(self.log@.subrange(noted.len() as int, self.log@.len() as int) =~= made_since(
                                    noted,
                                    self.log@,
                                ));
                            }
                        }
                        lemma_stop_is_seen(self);
                        lemma_pace_prefix(*limits, side, before, self.pauses@.last(), before.len() as int);
                        assert(self.pauses@.drop_last() =~= before);
                        lemma_pace_next(*limits, side, first as int, before, self.pauses@.last());
                    }
                },
                None => {
                    going = false;
                    proof {
                        lemma_stop_is_seen(self);
                        assert forall|k: int| 0 <= k < self.pauses@.len() implies #[trigger] iterated(
                            self.log@,
                            n,
                            s,
                            board@,
                            self.pauses@,
                            k,
                        ) by {
                            assert(iterated(noted, n, s, board@, before, k));
                            lemma_iterated(noted, self.log@, n, s, board@, before, self.pauses@, k);
                        }
                    }
                },
            }
        }
        proof {
            let v = made_since(old(self).log@, self.log@);
            assert(taught_on(v, old(self).tables, self.tables)) by {
                if v.len() > 0 {
                    reveal(chained);
                    assert(v[0].tables == tables_end(from, v.take(0)));
                    assert(v.take(0).len() == 0);
                }
            }
            reveal(polled);
            if adapts(*limits, side) {
                lemma_adapting_budget(*limits, side);
            } else {
                lemma_soft_stays(*limits, side, self.pauses@, self.pauses@.len() as int);
            }
        }
        d.best
    }
}

/// A search that was stopped, though not at its first look, has visited as many nodes as lie
/// between two looks.
proof fn lemma_stop_is_seen<T: Table>(s: &Searcher<T>)
    requires
        s.wf(),
    ensures
        s.stopped ==> s.polls@.len() > 0 && stops(s.polls@.last(), s.max_nodes, s.hard_ms),
        s.stopped && !stops(s.polls@[0], s.max_nodes, s.hard_ms) ==> s.visited@ >= 2048,
{
    if s.stopped {
        law_a_stop_is_seen(s.nodes, s.visited@, s.stopped, s.max_nodes, s.hard_ms, s.polls@);
    }
}

/// A search goes on after its first look.
proof fn lemma_later_look<T: Table>(after: &Searcher<T>, mid: &Searcher<T>, before: &Searcher<T>)
    requires
        after.wf(),
        after.keeps(mid),
        mid.keeps(before),
        !mid.stopped,
        mid.first_look(before),
    ensures
        after.first_look(before),
{
    lemma_stop_is_seen(after);
}

/// The first look of a search that begins with this search of a node.
proof fn lemma_first_look<T: Table>(after: &Searcher<T>, before: &Searcher<T>)
    requires
        before.wf(),
        after.wf(),
        after.keeps(before),
        !before.stopped && before.nodes % 2048 == 0 && before.polls@.len() == 0 ==> after.polls@.len() > 0 && (stops(
            after.polls@[0],
            before.max_nodes,
            before.hard_ms,
        ) ==> after.stopped && *after == (Searcher { log: after.log, polls: after.polls, stopped: true, ..*before })),
    ensures
        after.first_look(before),
{
    reveal(polled);
    lemma_stop_is_seen(after);
}

/// Whether two choices are the same move.
fn same_move(a: Option<Move>, b: Option<Move>) -> (r: bool)
    ensures
        r == (a == b),
{
    match (a, b) {
        (Some(x), Some(y)) => x == y,
        (None, None) => true,
        _ => false,
    }
}

// ---------------- what is said of a search ----------------
/// The position at the end of a line of moves.
pub open spec fn after_line(p: PosView, line: Seq<Move>) -> PosView
    decreases line.len(),
{
    if line.len() == 0 {
        p
    } else {
        position_after(after_line(p, line.drop_last()), line.last())
    }
}

/// Every move of a line is legal where it is made.
pub open spec fn legal_line(p: PosView, line: Seq<Move>) -> bool {
    forall|k: int| 0 <= k < line.len() ==> legal_choice(after_line(p, #[trigger] line.take(k)), Some(line[k]))
}

/// A line in UCI notation, a space before each move.
pub open spec fn line_text(p: PosView, line: Seq<Move>) -> Seq<char>
    decreases line.len(),
{
    if line.len() == 0 {
        Seq::empty()
    } else {
        line_text(p, line.drop_last()) + seq![' '] + uci_text(after_line(p, line.drop_last()), line.last())
    }
}

/// The position after the first `k` moves of a line has come up before, on the line or in the
/// game, or fifty moves have passed.
pub open spec fn line_drawn(p: PosView, line: Seq<Move>, k: int, played: Seq<u64>) -> bool {
    let q = after_line(p, line.take(k));
    ||| q.halfmove >= 100
    ||| played.contains(q.hash)
    ||| exists|j: int| 0 <= j < k && after_line(p, #[trigger] line.take(j)).hash == q.hash
}

/// Whether a list holds a hash.
pub fn listed(v: &Vec<u64>, x: u64) -> (r: bool)
    ensures
        r == v@.contains(x),
{
    let n: usize = v.len();
    let mut i: usize = 0;
    while i < n
        invariant
            i <= n,
            n == v@.len(),
            forall|k: int| 0 <= k < i ==> v@[k] != x,
        decreases n - i,
    {
        if v[i] == x {
            return true;
        }
        i = i + 1;
    }
    false
}

/// A longer line has the same beginnings.
pub proof fn lemma_beginnings(line: Seq<Move>, m: Move)
    ensures
        forall|k: int| 0 <= k <= line.len() ==> #[trigger] line.push(m).take(k) == line.take(k),
        line.push(m).drop_last() == line,
{
    assert forall|k: int| 0 <= k <= line.len() implies #[trigger] line.push(m).take(k) == line.take(k) by {
        assert(line.push(m).take(k) =~= line.take(k));
    }
    assert(line.push(m).drop_last() =~= line);
}

/// A legal line followed by a legal move is a legal line.
pub proof fn lemma_line_grows(p: PosView, line: Seq<Move>, m: Move)
    requires
        legal_line(p, line),
        legal_choice(after_line(p, line), Some(m)),
    ensures
        legal_line(p, line.push(m)),
        after_line(p, line.push(m)) == position_after(after_line(p, line), m),
{
    let all = line.push(m);
    lemma_beginnings(line, m);
    assert(line.take(line.len() as int) =~= line);
    assert forall|k: int| 0 <= k < all.len() implies legal_choice(after_line(p, #[trigger] all.take(k)), Some(all[k])) by {
        assert(all.take(k) == line.take(k));
        if k < line.len() {
            assert(all[k] == line[k]);
        }
    }
}

impl<T: Table> Searcher<T> {
    /// The table's move for a position, if it is legal there.
    pub fn tt_move(&self, board: &Position) -> (r: Option<Move>)
        requires
            self.tt.ready(),
            wf(board@),
        ensures
            legal_choice(board@, r),
            exists|e: Option<Entry>| #[trigger]
                self.tt.may_answer(board@.hash, e) && entry_move(board@, e, r),
    {
        match self.tt.lookup(board.hash()) {
            Some(e) => packed_to_move(board, e.mv),
            None => None,
        }
    }

    /// Move `k` of a line is one that the table may answer where it is made.
    #[verifier::opaque]
    pub open spec fn from_table(&self, p: PosView, line: Seq<Move>, k: int) -> bool {
        let q = after_line(p, line.take(k));
        exists|e: Option<Entry>| #[trigger] self.tt.may_answer(q.hash, e) && entry_move(q, e, Some(line[k]))
    }

    /// Where a line read from the table ends: at its greatest length, in a drawn position, or
    /// where the table has no legal move.
    pub open spec fn line_ends(&self, p: PosView, line: Seq<Move>, max_len: int) -> bool {
        let q = after_line(p, line);
        ||| line.len() >= max_len
        ||| line_drawn(p, line, line.len() as int, self.game_hist@)
        ||| exists|e: Option<Entry>| #[trigger] self.tt.may_answer(q.hash, e) && entry_move(q, e, None)
    }

    /// The principal variation as the table holds it.
    pub fn pv_line(&self, board: &Position, max_len: i32) -> (r: Vec<Move>)
        requires
            self.tt.ready(),
            wf(board@),
        ensures
            legal_line(board@, r@),
            forall|k: int| 0 <= k < r@.len() ==> #[trigger] self.from_table(board@, r@, k),
            forall|k: int| 0 <= k < r@.len() ==> !#[trigger] line_drawn(board@, r@, k, self.game_hist@),
            r@.len() == 0 || r@.len() <= max_len,
            self.line_ends(board@, r@, max_len as int),
    {
        let mut line: Vec<Move> = Vec::new();
        let mut seen: Vec<u64> = Vec::new();
        let mut b: Position = board.clone();
        let mut n: i32 = 0;
        assert(line@.take(0) =~= line@);
        while n < max_len
            invariant
                0 <= n,
                n == 0 || n <= max_len,
                n == line@.len(),
                n == seen@.len(),
                self.tt.ready(),
                wf(b@),
                b@ == after_line(board@, line@),
                legal_line(board@, line@),
                forall|k: int| 0 <= k < n ==> #[trigger] seen@[k] == after_line(board@, line@.take(k)).hash,
                forall|k: int| 0 <= k < n ==> #[trigger] self.from_table(board@, line@, k),
                forall|k: int| 0 <= k < n ==> !#[trigger] line_drawn(board@, line@, k, self.game_hist@),
            decreases max_len - n,
        {
            assert(line@.take(n as int) =~= line@);
            if listed(&seen, b.hash()) || listed(&self.game_hist, b.hash()) || b.halfmove_clock() >= 100 {
                proof {
                    if seen@.contains(b@.hash) {
                        let j = choose|j: int| 0 <= j < seen@.len() && seen@[j] == b@.hash;
                        assert(after_line(board@, line@.take(j)).hash == b@.hash);
                    }
                    assert(line_drawn(board@, line@, n as int, self.game_hist@));
                }
                return line;
            }
            let ghost before = line@;
            assert(!line_drawn(board@, before, n as int, self.game_hist@)) by {
                assert forall|j: int| 0 <= j < n implies after_line(board@, #[trigger] before.take(j)).hash != b@.hash by {
                    assert(seen@[j] != b@.hash);
                }
            }
            match self.tt_move(&b) {
                Some(mv) => {
                    seen.push(b.hash());
                    line.push(mv);
                    b = b.play(mv);
                    n = n + 1;
                    proof {
                        lemma_beginnings(before, mv);
                        assert(line@ == before.push(mv));
                        assert(legal_line(board@, line@)) by {
                            assert forall|k: int| 0 <= k < line@.len() implies legal_choice(
                                after_line(board@, #[trigger] line@.take(k)),
                                Some(line@[k]),
                            ) by {
                                assert(before.push(mv).take(k) == before.take(k));
                                if k < before.len() {
                                    assert(line@[k] == before[k]);
                                } else {
                                    assert(before.take(k) =~= before);
                                }
                            }
                        }
                        assert forall|k: int| 0 <= k < n implies #[trigger] seen@[k] == after_line(
                            board@,
                            line@.take(k),
                        ).hash by {
                            assert(before.push(mv).take(k) == before.take(k));
                        }
                        assert forall|k: int| 0 <= k < n implies #[trigger] self.from_table(board@, line@, k) by {
                            reveal(Searcher::from_table);
                            assert(before.push(mv).take(k) == before.take(k));
                            if k < before.len() {
                                assert(self.from_table(board@, before, k));
                            } else {
                                assert(before.take(k) =~= before);
                            }
                        }
                        assert forall|k: int| 0 <= k < n implies !#[trigger] line_drawn(
                            board@,
                            line@,
                            k,
                            self.game_hist@,
                        ) by {
                            assert(before.push(mv).take(k) == before.take(k));
                            assert(!line_drawn(board@, before, k, self.game_hist@));
                            assert forall|j: int| 0 <= j < k implies after_line(board@, #[trigger] line@.take(j)).hash
                                != after_line(board@, line@.take(k)).hash by {
                                assert(before.push(mv).take(j) == before.take(j));
                            }
                        }
                    }
                },
                None => {
                    return line;
                },
            }
        }
        line
    }
}

/// What becomes of the table's answer: the legal move it packs, or nothing.
pub open spec fn entry_move(p: PosView, e: Option<Entry>, r: Option<Move>) -> bool {
    match e {
        Some(x) => match r {
            Some(m) => legal_moves(p).contains(m) && packed(m) == x.mv,
            None => x.mv == 0 || forall|m: Move| #[trigger] legal_moves(p).contains(m) ==> packed(m) != x.mv,
        },
        None => r is None,
    }
}

/// A line of legal moves in UCI notation.
pub fn pv_string(board: &Position, line: &Vec<Move>) -> (r: String)
    requires
        wf(board@),
        legal_line(board@, line@),
    ensures
        r@ == line_text(board@, line@),
{
    let mut out = String::new();
    let mut b: Position = board.clone();
    let n: usize = line.len();
    let mut i: usize = 0;
    assert(line@.take(0) =~= Seq::empty());
    while i < n
        invariant
            i <= n,
            n == line@.len(),
            legal_line(board@, line@),
            wf(b@),
            b@ == after_line(board@, line@.take(i as int)),
            out@ == line_text(board@, line@.take(i as int)),
        decreases n - i,
    {
        let mv: Move = line[i];
        let ghost head = line@.take(i as int);
        assert(line@.take(i as int + 1).drop_last() =~= head);
        assert(line@.take(i as int + 1).last() == mv);
        assert(legal_choice(after_line(board@, head), Some(mv)));
        let text: String = b.display_uci(mv);
        out.push(' ');
        append(&mut out, text.as_str());
        b = b.play(mv);
        i = i + 1;
        assert(out@ =~= line_text(board@, line@.take(i as int)));
    }
    assert(line@.take(n as int) =~= line@);
    out
}

/// A score in words: the number of moves to mate, negative for the side being mated, or
/// centipawns.
pub open spec fn score_text(score: int) -> Seq<char> {
    if score > MATE_BOUND {
        "mate "@ + signed_numeral(quotient(MATE - score + 1, 2))
    } else if score < -MATE_BOUND {
        "mate "@ + signed_numeral(-quotient(MATE + score + 1, 2))
    } else {
        "cp "@ + signed_numeral(score)
    }
}

/// A score in words.
pub fn score_string(score: i32) -> (r: String)
    requires
        -SCORE_LIMIT <= score <= SCORE_LIMIT,
    ensures
        r@ == score_text(score as int),
{
    let mut out = String::new();
    if score > MATE_BOUND {
        append(&mut out, "mate ");
        push_signed(&mut out, ((MATE - score + 1) / 2) as i64);
    } else if score < -MATE_BOUND {
        append(&mut out, "mate ");
        push_signed(&mut out, -((MATE + score + 1) / 2) as i64);
    } else {
        append(&mut out, "cp ");
        push_signed(&mut out, score as i64);
    }
    assert(out@ =~= score_text(score as int));
    out
}

/// Nodes a second, over at least a millisecond.
pub open spec fn speed(nodes: u64, ms: int) -> u64 {
    (nodes * 1000 / ms) as u64
}

/// What is said of an iteration.
pub open spec fn info_text(depth: int, seldepth: int, score: int, nodes: u64, elapsed: u128, pv: Seq<char>) -> Seq<char> {
    let ms = if elapsed == 0 {
        1
    } else {
        elapsed as int
    };
    "info depth "@ + signed_numeral(depth) + " seldepth "@ + signed_numeral(seldepth) + " score "@ + score_text(score)
        + " nodes "@ + numeral(nodes as nat) + " nps "@ + numeral(speed(nodes, ms) as nat) + " time "@ + numeral(ms as nat)
        + " pv"@ + pv
}

impl<T: Table> Searcher<T> {
    /// The line that reports an iteration after `elapsed` milliseconds.
    pub fn info_line(&self, board: &Position, depth: i32, score: i32, elapsed: u128, line: &Vec<Move>) -> (r: String)
        requires
            wf(board@),
            legal_line(board@, line@),
            -SCORE_LIMIT <= score <= SCORE_LIMIT,
        ensures
            r@ == info_text(
                depth as int,
                self.seldepth as int,
                score as int,
                self.nodes,
                elapsed,
                line_text(board@, line@),
            ),
    {
        let ms: u128 = if elapsed == 0 {
            1
        } else {
            elapsed
        };
        let nps: u64 = (self.nodes as u128 * 1000 / ms) as u64;
        let words: String = score_string(score);
        let pv: String = pv_string(board, line);
        let mut out = String::new();
        append(&mut out, "info depth ");
        push_signed(&mut out, depth as i64);
        append(&mut out, " seldepth ");
        push_signed(&mut out, self.seldepth as i64);
        append(&mut out, " score ");
        append(&mut out, words.as_str());
        append(&mut out, " nodes ");
        push_number(&mut out, self.nodes as u128);
        append(&mut out, " nps ");
        push_number(&mut out, nps as u128);
        append(&mut out, " time ");
        push_number(&mut out, ms);
        append(&mut out, " pv");
        append(&mut out, pv.as_str());
        out
    }

    /// How much this side's recent root scores have moved, in centipawns and steps.
    pub fn recent_volatility(&self) -> (r: Option<(u64, u64)>)
        ensures
            match r {
                None => self.eval_hist_game@.len() < 3,
                Some(v) => {
                    let h = self.eval_hist_game@;
                    let from = window_start(h.len() as int);
                    h.len() >= 3 && v.0 == total_change(h, from, h.len() as int) && v.1 == h.len() - 1 - from
                },
            },
    {
        recent_volatility(&self.eval_hist_game)
    }

    /// Forgets what earlier games taught: the table, the history tables and the scores.
    pub fn new_game(&mut self)
        requires
            old(self).wf(),
        ensures
            final(self).wf(),
            *final(self) == (Searcher {
                tt: final(self).tt,
                tables: final(self).tables,
                eval_hist_game: final(self).eval_hist_game,
                ..*old(self)
            }),
            final(self).eval_hist_game@.len() == 0,
            final(self).tt.emptied(),
            fresh(final(self).tables),
    {
        self.tt.forget();
        self.tables = Tables::new();
        self.eval_hist_game.clear();
    }
}

impl Searcher<TT> {
    /// A searcher on its own, with a table of `hash_mb` megabytes.
    pub fn new(hash_mb: usize) -> (r: Searcher<TT>)
        requires
            hash_mb <= usize::MAX / 0x10_0000,
        ensures
            r.wf(),
            r.is_main,
            r.thread_id == 0,
            r.tt.n_slots <= slot_budget(hash_mb) < 2 * r.tt.n_slots,
            forall|key: u64| #[trigger] probed(r.tt.slots_of(key), key) is None,
            r.is_new(),
    {
        Searcher::<TT>::for_thread(TT::new(hash_mb), Arc::new(AtomicBool::new(false)), true)
    }
}

/// A group of searchers around one table and one stop flag. The first is the main one.
pub fn build_pool(hash_mb: usize, n: usize, stop: &Arc<AtomicBool>) -> (r: (Arc<SharedTT>, Vec<Searcher<Arc<SharedTT>>>))
    requires
        hash_mb <= usize::MAX / 0x10_0000,
    ensures
        r.0.wf(),
        is_pow2(4 * r.0.clusters),
        4 * r.0.clusters <= slot_budget(hash_mb) < 8 * r.0.clusters,
        r.1@.len() == if n < 1 {
            1
        } else {
            n as int
        },
        forall|i: int|
            0 <= i < r.1@.len() ==> {
                let s = #[trigger] r.1@[i];
                s.wf() && s.is_new() && s.tt == r.0 && s.stop == *stop && s.thread_id == i && s.is_main == (i == 0)
            },
{
    let tt: Arc<SharedTT> = Arc::new(SharedTT::new(hash_mb));
    let count: usize = if n < 1 {
        1
    } else {
        n
    };
    let mut pool: Vec<Searcher<Arc<SharedTT>>> = Vec::new();
    let mut i: usize = 0;
    while i < count
        invariant
            i <= count,
            tt.wf(),
            is_pow2(4 * tt.clusters),
            4 * tt.clusters <= slot_budget(hash_mb) < 8 * tt.clusters,
            pool@.len() == i,
            forall|k: int|
                0 <= k < i ==> {
                    let s = #[trigger] pool@[k];
                    s.wf() && s.is_new() && s.tt == tt && s.stop == *stop && s.thread_id == k && s.is_main == (k == 0)
                },
        decreases count - i,
    {
        let mut s = Searcher::for_thread(tt.clone(), stop.clone(), i == 0);
        s.thread_id = i;
        pool.push(s);
        i = i + 1;
    }
    (tt, pool)
}

// ---------------- laws ----------------
/// A move time is both budgets; otherwise the mover's own clock and increment decide, and the other
/// side's change nothing; without a clock there is no limit.
pub proof fn law_budget_is_the_movers(l: Limits, k: Limits, side: u8, other: Option<u128>, inc: Option<u128>)
    requires
        side < 2,
        k == if side == 0 {
            Limits { btime: other, binc: inc, ..l }
        } else {
            Limits { wtime: other, winc: inc, ..l }
        },
    ensures
        budget(k, side) == budget(l, side),
        l.movetime matches Some(mt) ==> budget(l, side) == (mt as int, mt as int),
        l.movetime is None && side == 0 && l.wtime is None ==> budget(l, side) == (u128::MAX as int, u128::MAX as int),
        l.movetime is None && side == 1 && l.btime is None ==> budget(l, side) == (u128::MAX as int, u128::MAX as int),
        side == 0 ==> clock_of(l, side) == l.wtime && (l.winc matches Some(x) ==> increment_of(l, side) == x),
        side == 1 ==> clock_of(l, side) == l.btime && (l.binc matches Some(x) ==> increment_of(l, side) == x),
        adapts(k, side) == adapts(l, side),
{
}

/// Overhead is time that the clock does not have.
pub proof fn law_overhead_comes_off_the_clock(l: Limits, k: Limits, side: u8, t: u128)
    requires
        side == 0,
        l.movetime is None,
        l.wtime == Some(t),
        l.move_overhead <= t,
        k == (Limits { wtime: Some((t - l.move_overhead) as u128), move_overhead: 0, ..l }),
    ensures
        budget(l, side) == budget(k, side),
{
}

/// Time is adapted only where a clock is the one limit.
pub proof fn law_only_a_clock_is_adapted(l: Limits, side: u8)
    requires
        side < 2,
    ensures
        adapts(l, side) ==> l.adaptive_time && !l.infinite && l.movetime is None && l.nodes is None && l.depth is None && (side == 0
            ==> l.wtime is Some) && (side == 1 ==> l.btime is Some),
        l.adaptive_time && !l.infinite && l.movetime is None && l.nodes is None && l.depth is None && l.wtime is Some && l.btime is Some
            ==> adapts(l, side),
{
}

/// No search goes deeper than 127 plies, nor than it was told.
pub proof fn law_depth_is_limited(l: Limits)
    ensures
        last_depth(l) <= 127,
        l.depth is None ==> last_depth(l) == 127,
        l.depth matches Some(d) ==> last_depth(l) <= d && (d <= 127 ==> last_depth(l) == d),
{
}

/// A mate in `n` plies, for either side, is settled once the search has gone deeper than twice that;
/// nothing else is.
pub proof fn law_mates_settle_at_twice_their_distance(depth: int, n: int, score: int)
    requires
        0 <= n < 512,
    ensures
        mate_settled(depth, 32_000 - n) <==> depth > 2 * n,
        mate_settled(depth, n - 32_000) <==> depth > 2 * n,
        -31_488 <= score <= 31_488 ==> !mate_settled(depth, score),
{
}

/// A search ends after the iteration that passes its soft budget, or that settles a mate.
pub proof fn law_iterations_end_past_the_budget(depth: int, score: int, elapsed: u128, soft_ms: u128)
    requires
        -31_488 <= score <= 31_488,
    ensures
        last_iteration(depth, score, elapsed, soft_ms) <==> elapsed > soft_ms,
{
}

/// A best move's age counts the iterations from the fifth on that kept it, and a change starts it
/// again.
pub proof fn law_a_changed_move_is_not_stable(v: Seq<Pause>, n: int)
    requires
        0 < n <= v.len(),
    ensures
        0 <= stable_at(v, n) <= n,
        n >= 2 && v[n - 1].depth >= 5 && v[n - 2].best is Some && v[n - 2].best != v[n - 1].best ==> stable_at(v, n) == 0,
        n >= 2 && v[n - 1].depth >= 5 && v[n - 2].best == v[n - 1].best ==> stable_at(v, n) == stable_at(v, n - 1) + 1,
        v[n - 1].depth < 5 ==> stable_at(v, n) == stable_at(v, n - 1),
    decreases n,
{
    assert(stable_at(v, 0) == 0);
    if n > 1 {
        law_a_changed_move_is_not_stable(v, n - 1);
    }
}

/// The soft budget is the base until the fifth iteration, and wherever time is not adapted; after that
/// it grows with how far the score has fallen since the iteration before, and never past the hard
/// budget.
pub proof fn law_soft_budget_adapts_from_the_fifth_iteration(l: Limits, side: u8, v: Seq<Pause>, n: int)
    requires
        0 <= n <= v.len(),
    ensures
        n == 0 && !l.infinite ==> soft_at(l, side, v, n) == budget(l, side).0,
        !adapts(l, side) ==> soft_at(l, side, v, n) == soft_at(l, side, v, 0),
        n > 0 && v[n - 1].depth < 5 ==> soft_at(l, side, v, n) == soft_at(l, side, v, n - 1),
        n > 0 && v[n - 1].depth >= 5 && adapts(l, side) ==> soft_at(l, side, v, n) <= budget(l, side).1,
        n > 1 && v[n - 1].depth >= 5 && adapts(l, side) ==> soft_at(l, side, v, n) == adapted(
            budget(l, side).0,
            budget(l, side).1,
            stable_at(v, n) as u32,
            v[n - 2].best is Some && v[n - 2].best != v[n - 1].best,
            v[n - 2].score - v[n - 1].score,
        ),
    decreases n,
{
    if n > 0 {
        law_soft_budget_adapts_from_the_fifth_iteration(l, side, v, n - 1);
    }
}

/// The window of an iteration is open before the fifth, and from then on a third of a pawn either way
/// of the last score; each miss opens it further on the side that was missed, by twice as much each
/// time, and leaves the other side.
pub proof fn law_windows_open_where_they_were_missed(depth: int, prev_score: int, v: Seq<Searched>, k: int)
    requires
        0 <= k < v.len(),
    ensures
        depth < 5 ==> window_at(depth, prev_score, v, 0) == (-32_500int, 32_500int),
        depth >= 5 ==> window_at(depth, prev_score, v, 0) == (prev_score - 30, prev_score + 30),
        widening(0) == 30,
        widening(k + 1) == 2 * widening(k),
        widening(k) >= 30,
        ({
            let (a, b) = window_at(depth, prev_score, v, k);
            let (c, d) = window_at(depth, prev_score, v, k + 1);
            &&& v[k].result <= a ==> d == b && a - c == widening(k)
            &&& v[k].result > a ==> c == a && d - b == widening(k)
            &&& c <= a && b <= d
        }),
    decreases k,
{
    if k > 0 {
        law_windows_open_where_they_were_missed(depth, prev_score, v, k - 1);
    }
}

/// A mate is announced in moves of the side that gives it, negative where this side is mated; every
/// other score in centipawns.
pub proof fn law_mates_are_announced_in_moves(k: int, score: int)
    requires
        1 <= k <= 255,
    ensures
        score_text(32_000 - (2 * k - 1)) == "mate "@ + signed_numeral(k),
        score_text(2 * k - 32_000) == "mate "@ + signed_numeral(-k),
        -31_488 <= score <= 31_488 ==> score_text(score) == "cp "@ + signed_numeral(score),
{
}

/// The speed is in nodes a second; no time at all counts as a millisecond.
pub proof fn law_speed_is_in_nodes_a_second(nodes: u64, ms: int, depth: int, seldepth: int, score: int, pv: Seq<char>)
    requires
        ms >= 1,
        nodes * 1000 / ms <= u64::MAX,
    ensures
        ms * speed(nodes, ms) <= 1000 * nodes < ms * speed(nodes, ms) + ms,
        info_text(depth, seldepth, score, nodes, 0, pv) == info_text(depth, seldepth, score, nodes, 1, pv),
{
    let x = nodes * 1000;
    vstd::arithmetic::div_mod::lemma_fundamental_div_mod(x, ms);
    vstd::arithmetic::div_mod::lemma_mod_bound(x, ms);
    vstd::arithmetic::div_mod::lemma_div_pos_is_pos(x, ms);
}

/// A search that is stopped keeps the move of its last whole iteration, or else the best that the
/// root has found; a whole iteration takes over the root's best move.
pub proof fn law_stopped_searches_keep_their_move(kept: Option<Move>, root_best: u16, r: Option<Move>)
    ensures
        falls_back(kept, root_best, r) && kept is Some ==> r == kept,
        falls_back(None, root_best, r) ==> (r is None <==> root_best == 0),
        takes_over(kept, root_best, r) && root_best != 0 ==> (r matches Some(m) && packed(m) == root_best),
        takes_over(kept, 0, r) ==> r == kept,
{
}

/// A table's move is played out only where it is legal.
pub proof fn law_table_moves_are_legal(p: PosView, e: Option<Entry>, m: Move)
    requires
        entry_move(p, e, Some(m)),
    ensures
        legal_moves(p).contains(m),
        e matches Some(x) && x.mv == packed(m),
{
}

} // verus!

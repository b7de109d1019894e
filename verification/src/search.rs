//! Iterative deepening with aspiration windows over a principal variation search, and a
//! quiescence search at its leaves.
//!
//! What a table, the clock or the stop flag answer is not known beforehand; what is stated here
//! holds whatever they answer.
use vstd::prelude::*;
use std::sync::atomic::{AtomicBool, Ordering};
use std::sync::Arc;
use crate::account::{Searched, Setting};
use crate::board::{
    Move, PosView, Position, legal_moves, legal_shape, men_after, wf,
};
use crate::eval::{
    EVAL_LIMIT, evaluate, evaluation,
};
use crate::history::{
    MAX_PLY, Tables, params_ok, stack_ok,
};
use crate::instrument::Counters;
use crate::nnue::{
    Acc, Network, acc_holds, acc_update, forward, law_update_equals_rebuild, network_output,
};
use crate::policy::Policy;
use crate::reductions::{build_lmr_table, reduction_table};
use crate::rules::{Ranked, dead_draw, insufficient_material};
use crate::shared::Table;
use crate::tune::Params;

verus! {

/// No score that a search settles on is further from zero than this.
pub const SCORE_LIMIT: i32 = 4_200_200;

/// No window reaches further than this.
pub const WINDOW_LIMIT: i32 = 80_000_000;

/// A point in time, from `std::time`.
#[verifier::external_type_specification]
#[verifier::external_body]
pub struct ExInstant(std::time::Instant);

/// Wraps `std::time::Instant::now`, of which nothing is claimed.
#[verifier::external_body]
pub(crate) fn now() -> (r: std::time::Instant) {
    std::time::Instant::now()
}

/// Wraps `std::time::Instant::elapsed` in milliseconds, of which nothing is claimed.
#[verifier::external_body]
pub(crate) fn elapsed_ms(start: &std::time::Instant) -> (r: u128) {
    start.elapsed().as_millis()
}

/// Whether the search has been asked to stop.
fn stop_requested(stop: &Arc<AtomicBool>) -> bool {
    stop.load(Ordering::Relaxed)
}

/// A look at the stop conditions: the flag, the time since the search began, and how many nodes had
/// been visited.
pub struct Poll {
    pub flag: bool,
    pub elapsed: u128,
    pub visited: nat,
}

/// Whether what was seen stops a search: the flag, as many nodes as allowed, or more time than
/// allowed.
pub open spec fn stops(p: Poll, max_nodes: u64, hard_ms: u128) -> bool {
    p.flag || p.visited % 0x1_0000_0000_0000_0000 >= max_nodes || p.elapsed > hard_ms
}

/// Decides from the flag, the nodes and the time whether a search stops.
pub fn stop_owed(flag: bool, nodes: u64, max_nodes: u64, elapsed: u128, hard_ms: u128) -> (r: bool)
    ensures
        r == (flag || nodes >= max_nodes || elapsed > hard_ms),
{
    flag || nodes >= max_nodes || elapsed > hard_ms
}

/// A search is stopped exactly when its last look at the stop conditions stopped it. It looks every
/// 2048 nodes, at the first node once, and never again after it was stopped.
#[verifier::opaque]
pub open spec fn polled(nodes: u64, visited: nat, stopped: bool, max_nodes: u64, hard_ms: u128, polls: Seq<Poll>) -> bool {
    &&& nodes == visited % 0x1_0000_0000_0000_0000
    &&& stopped <==> polls.len() > 0 && stops(polls.last(), max_nodes, hard_ms)
    &&& forall|k: int| 0 <= k < polls.len() - 1 ==> !stops(#[trigger] polls[k], max_nodes, hard_ms)
    &&& forall|k: int| 0 <= k < polls.len() ==> (#[trigger] polls[k]).visited % 2048 == 0 && polls[k].visited <= visited
    &&& forall|k: int| 1 <= k < polls.len() ==> (#[trigger] polls[k]).visited >= 2048
}

/// A search that was stopped, though not at its first look, has visited at least 2048 nodes.
pub proof fn law_a_stop_is_seen(nodes: u64, visited: nat, stopped: bool, max_nodes: u64, hard_ms: u128, polls: Seq<Poll>)
    requires
        polled(nodes, visited, stopped, max_nodes, hard_ms, polls),
        stopped,
    ensures
        polls.len() > 0,
        stops(polls.last(), max_nodes, hard_ms),
        !stops(polls[0], max_nodes, hard_ms) ==> visited >= 2048,
{
    reveal(polled);
    if polls.len() > 1 {
        assert(polls[polls.len() - 1].visited >= 2048);
    }
}

/// What an iteration ended with: its depth, score and best move, the time since the search began,
/// the soft limit then, and how many searches of the root had been noted.
pub struct Pause {
    pub depth: int,
    pub score: int,
    pub best: Option<Move>,
    pub elapsed: u128,
    pub soft_ms: u128,
    pub noted: int,
}

pub struct Searcher<T: Table> {
    pub tt: T,
    /// One searcher of a group is the main one: it alone starts a new search in the table.
    pub is_main: bool,
    /// Which searcher of a group this is.
    pub thread_id: usize,
    pub tables: Tables,
    /// Piece and destination of each move on the path, 384 for a null move.
    pub cont_stack: Vec<u16>,
    /// Static evaluation at each ply of the path.
    pub eval_hist: Vec<i32>,
    pub net: Option<Arc<Network>>,
    pub policy: Option<Arc<Policy>>,
    pub lmr: Vec<i8>,
    pub params: Params,
    pub counters: Option<Counters>,
    /// Best move at the root so far, packed.
    pub root_best: u16,
    pub move_buf: Vec<Vec<Ranked>>,
    pub qmove_buf: Vec<Vec<Ranked>>,
    pub pc_buf: Vec<Vec<Ranked>>,
    pub quiet_buf: Vec<Vec<(Move, u16)>>,
    pub capt_buf: Vec<Vec<Ranked>>,
    pub nodes: u64,
    pub seldepth: i32,
    pub start: std::time::Instant,
    pub soft_ms: u128,
    pub hard_ms: u128,
    pub max_nodes: u64,
    pub stop: Arc<AtomicBool>,
    pub stopped: bool,
    /// Hashes of the positions on the path, the root first.
    pub path: Vec<u64>,
    /// Hashes of the positions of the game before the root.
    pub game_hist: Vec<u64>,
    /// This side's own root scores across the game, oldest first.
    pub eval_hist_game: Vec<i32>,
    /// Score of the last completed iteration.
    pub last_score: i32,
    /// The searches of nodes made so far, each with the ones made for it.
    pub log: Ghost<Seq<Searched>>,
    /// The looks at the stop conditions since the search began.
    pub polls: Ghost<Seq<Poll>>,
    /// The nodes visited since the search began; `nodes` counts them modulo what it holds.
    pub visited: Ghost<nat>,
    /// The iterations completed since the search began.
    pub pauses: Ghost<Seq<Pause>>,
}

/// The accumulator belongs to the position, and there is one exactly when there is a network.
pub open spec fn acc_ok(net: Option<Arc<Network>>, acc: Option<&Acc>, p: PosView) -> bool {
    match (net, acc) {
        (Some(n), Some(a)) => n.usable() && acc_holds(*a, *n, p.men),
        (None, None) => true,
        _ => false,
    }
}

/// Static evaluation of a node.
pub open spec fn node_eval(net: Option<Arc<Network>>, acc: Option<&Acc>, p: PosView) -> int {
    if dead_draw(p) {
        0
    } else {
        match (net, acc) {
            (Some(n), Some(a)) => network_output(*n, a.w@, a.b@, p.side),
            _ => evaluation(p),
        }
    }
}

/// What a finished search of a window may answer: nothing above alpha exceeds the limit of
/// scores, nothing below beta falls short of it.
pub open spec fn sound(r: int, alpha: int, beta: int) -> bool {
    &&& r > alpha ==> r <= SCORE_LIMIT
    &&& r < beta ==> r >= -SCORE_LIMIT
}

/// A window a search accepts.
pub open spec fn window_ok(alpha: int, beta: int) -> bool {
    -WINDOW_LIMIT <= alpha < beta <= WINDOW_LIMIT
}

impl<T: Table> Searcher<T> {
    /// A searcher between searches of nodes: where it has looked at the stop conditions, it has
    /// visited a node since or was stopped.
    pub open spec fn wf(&self) -> bool {
        &&& self.sane()
        &&& self.visited@ == 0 && !self.stopped ==> self.polls@.len() == 0
    }

    /// A searcher whose parts fit together, with looks at the stop conditions that account for
    /// whether it is stopped.
    pub open spec fn sane(&self) -> bool {
        &&& polled(self.nodes, self.visited@, self.stopped, self.max_nodes, self.hard_ms, self.polls@)
        &&& self.tt.ready()
        &&& self.tables.wf()
        &&& stack_ok(self.cont_stack@)
        &&& self.eval_hist@.len() == MAX_PLY
        &&& self.net matches Some(n) ==> n.usable()
        &&& self.policy matches Some(p) ==> p.wf()
        &&& self.lmr@.len() == 4096
        &&& params_ok(self.params)
        &&& self.move_buf@.len() == MAX_PLY + 4
        &&& self.qmove_buf@.len() == MAX_PLY + 4
        &&& self.pc_buf@.len() == MAX_PLY + 4
        &&& self.quiet_buf@.len() == MAX_PLY + 4
        &&& self.capt_buf@.len() == MAX_PLY + 4
        &&& -SCORE_LIMIT <= self.last_score <= SCORE_LIMIT
    }

    /// What stays the same throughout a search.
    pub open spec fn setting(&self) -> Setting {
        Setting {
            net: self.net,
            policy: self.policy,
            lmr: self.lmr@,
            params: self.params,
            played: self.game_hist@,
        }
    }

    /// What a search of a node leaves as it was. A stopped search stays stopped.
    pub open spec fn keeps(&self, before: &Self) -> bool {
        &&& self.is_main == before.is_main
        &&& self.thread_id == before.thread_id
        &&& self.cont_stack@ == before.cont_stack@
        &&& self.net == before.net
        &&& self.policy == before.policy
        &&& self.lmr == before.lmr
        &&& self.params == before.params
        &&& self.start == before.start
        &&& self.soft_ms == before.soft_ms
        &&& self.hard_ms == before.hard_ms
        &&& self.max_nodes == before.max_nodes
        &&& self.stop == before.stop
        &&& self.path@ == before.path@
        &&& self.game_hist == before.game_hist
        &&& self.eval_hist_game == before.eval_hist_game
        &&& self.last_score == before.last_score
        &&& self.pauses == before.pauses
        &&& self.visited@ >= before.visited@
        &&& before.stopped ==> self.stopped
        &&& before.polls@.len() > 0 ==> self.polls@.len() > 0 && self.polls@[0] == before.polls@[0]
    }

    /// A searcher that has neither searched nor been told anything: default parameters, no network,
    /// no limits, and fresh memory.
    pub open spec fn is_new(&self) -> bool {
        &&& self.net is None
        &&& self.policy is None
        &&& self.params == crate::tune::default_params()
        &&& reduction_table(self.lmr@, self.params)
        &&& crate::history::fresh(self.tables)
        &&& self.counters is None
        &&& self.nodes == 0
        &&& self.visited@ == 0
        &&& self.seldepth == 0
        &&& self.max_nodes == u64::MAX
        &&& self.soft_ms == u128::MAX
        &&& self.hard_ms == u128::MAX
        &&& !self.stopped
        &&& self.path@.len() == 0
        &&& self.cont_stack@.len() == 0
        &&& self.game_hist@.len() == 0
        &&& self.eval_hist_game@.len() == 0
        &&& self.last_score == 0
        &&& self.root_best == 0
        &&& self.polls@.len() == 0
        &&& self.pauses@.len() == 0
        &&& self.log@.len() == 0
    }

    /// A searcher around a table and a stop flag, with fresh memory.
    pub fn for_thread(tt: T, stop: Arc<AtomicBool>, is_main: bool) -> (r: Searcher<T>)
        requires
            tt.ready(),
        ensures
            r.wf(),
            r.is_new(),
            r.tt == tt,
            r.stop == stop,
            r.is_main == is_main,
            r.thread_id == 0,
    {
        proof {
            reveal(polled);
        }
        let params: Params = Params::default();
        Searcher {
            tt,
            is_main,
            thread_id: 0,
            tables: Tables::new(),
            cont_stack: Vec::with_capacity(132),
            eval_hist: vec![0i32;128],
            net: None,
            policy: None,
            lmr: build_lmr_table(&params),
            params,
            counters: None,
            root_best: 0,
            move_buf: ranked_buffers(64),
            qmove_buf: ranked_buffers(32),
            pc_buf: ranked_buffers(32),
            quiet_buf: quiet_buffers(64),
            capt_buf: ranked_buffers(32),
            nodes: 0,
            seldepth: 0,
            start: now(),
            soft_ms: u128::MAX,
            hard_ms: u128::MAX,
            max_nodes: u64::MAX,
            stop,
            stopped: false,
            path: Vec::with_capacity(132),
            game_hist: Vec::new(),
            eval_hist_game: Vec::new(),
            last_score: 0,
            log: Ghost(Seq::empty()),
            polls: Ghost(Seq::empty()),
            visited: Ghost(0),
            pauses: Ghost(Seq::empty()),
        }
    }

    /// Polls the stop conditions every 2048 nodes.
    pub(crate) fn check_stop(&mut self) -> (r: bool)
        requires
            old(self).wf(),
        ensures
            final(self).sane(),
            r == final(self).stopped,
            *final(self) == (Searcher { stopped: r, polls: final(self).polls, ..*old(self) }),
            if old(self).stopped || old(self).nodes % 2048 != 0 {
                r == old(self).stopped && final(self).polls == old(self).polls
            } else {
                &&& final(self).polls@ == old(self).polls@.push(final(self).polls@.last())
                &&& final(self).polls@.last().visited == old(self).visited@
                &&& r == stops(final(self).polls@.last(), old(self).max_nodes, old(self).hard_ms)
            },
    {
        if self.stopped {
            return true;
        }
        if self.nodes % 2048 == 0 {
            let flag: bool = stop_requested(&self.stop);
            let elapsed: u128 = elapsed_ms(&self.start);
            self.stopped = stop_owed(flag, self.nodes, self.max_nodes, elapsed, self.hard_ms);
            let ghost p = Poll { flag, elapsed, visited: self.visited@ };
            self.polls = Ghost(self.polls@.push(p));
            proof {
                reveal(polled);
                assert(self.polls@.last() == p);
                assert forall|k: int| 0 <= k < self.polls@.len() - 1 implies !stops(
                    #[trigger] self.polls@[k],
                    self.max_nodes,
                    self.hard_ms,
                ) by {
                    assert(self.polls@[k] == old(self).polls@[k]);
                    if k == old(self).polls@.len() - 1 {
                        assert(old(self).polls@.last() == old(self).polls@[k]);
                    }
                }
            }
        }
        self.stopped
    }

    /// Counts a node.
    pub(crate) fn count_node(&mut self)
        requires
            old(self).sane(),
        ensures
            final(self).wf(),
            *final(self) == (Searcher { nodes: final(self).nodes, visited: final(self).visited, ..*old(self) }),
            final(self).visited@ == old(self).visited@ + 1,
            final(self).nodes == (old(self).nodes + 1) % 0x1_0000_0000_0000_0000,
    {
        self.nodes = self.nodes.wrapping_add(1);
        self.visited = Ghost(self.visited@ + 1);
        proof {
            reveal(polled);
        }
    }

    /// Static evaluation of a node: nothing in a dead draw, the network's verdict where there is
    /// a network, material and squares otherwise.
    pub fn eval_node(&self, board: &Position, acc: Option<&Acc>) -> (r: i32)
        requires
            wf(board@),
            acc is Some ==> dead_draw(board@) || (self.net matches Some(n) && n.layered()),
        ensures
            r == node_eval(self.net, acc, board@),
            -EVAL_LIMIT <= r <= EVAL_LIMIT,
    {
        if insufficient_material(board) {
            return 0;
        }
        match acc {
            Some(a) => match &self.net {
                Some(n) => forward(n, &a.w, &a.b, board.side_to_move()),
                None => evaluate(board),
            },
            None => evaluate(board),
        }
    }

    /// The accumulator after a move.
    pub(crate) fn follow(&self, board: &Position, mv: Move, acc: Option<&Acc>) -> (r: Option<Acc>)
        requires
            wf(board@),
            legal_moves(board@).contains(mv),
            legal_shape(board@, mv),
            acc_ok(self.net, acc, board@),
        ensures
            match (self.net, r) {
                (Some(n), Some(a)) => n.usable() && acc_holds(a, *n, men_after(board@, mv)),
                (None, None) => true,
                _ => false,
            },
    {
        match acc {
            Some(a) => match &self.net {
                Some(n) => {
                    Some(followed(n, board, mv, a))
                },
                None => None,
            },
            None => None,
        }
    }
}

/// The accumulator of the position after a move.
fn followed(net: &Network, board: &Position, mv: Move, acc: &Acc) -> (r: Acc)
    requires
        net.usable(),
        wf(board@),
        legal_moves(board@).contains(mv),
        legal_shape(board@, mv),
        acc_holds(*acc, *net, board@.men),
    ensures
        acc_holds(r, *net, men_after(board@, mv)),
{
    let after = acc_update(net, acc, board, mv);
    proof {
        law_update_equals_rebuild(*acc, after, *net, board@, mv);
    }
    after
}

fn ranked_buffers(cap: usize) -> (r: Vec<Vec<Ranked>>)
    ensures
        r@.len() == MAX_PLY + 4,
{
    let mut v: Vec<Vec<Ranked>> = Vec::with_capacity(132);
    let mut i: usize = 0;
    while i < 132
        invariant
            i <= 132,
            v@.len() == i,
        decreases 132 - i,
    {
        v.push(Vec::with_capacity(cap));
        i = i + 1;
    }
    v
}

fn quiet_buffers(cap: usize) -> (r: Vec<Vec<(Move, u16)>>)
    ensures
        r@.len() == MAX_PLY + 4,
{
    let mut v: Vec<Vec<(Move, u16)>> = Vec::with_capacity(132);
    let mut i: usize = 0;
    while i < 132
        invariant
            i <= 132,
            v@.len() == i,
        decreases 132 - i,
    {
        v.push(Vec::with_capacity(cap));
        i = i + 1;
    }
    v
}

// ---------------- laws ----------------
/// A search stops when it is told to, when its nodes are used up or when its time has passed, and for
/// nothing else.
pub proof fn law_stops_have_a_reason(p: Poll, max_nodes: u64, hard_ms: u128)
    ensures
        p.flag ==> stops(p, max_nodes, hard_ms),
        p.elapsed > hard_ms ==> stops(p, max_nodes, hard_ms),
        p.visited < 0x1_0000_0000_0000_0000 && p.visited >= max_nodes ==> stops(p, max_nodes, hard_ms),
        !p.flag && p.elapsed <= hard_ms && p.visited < max_nodes ==> !stops(p, max_nodes, hard_ms),
{
}

/// A dead position is worth nothing, whatever evaluates it; without a network the tables evaluate, and
/// with one the network.
pub proof fn law_dead_positions_are_worth_nothing(net: Option<Arc<Network>>, acc: Option<&Acc>, p: PosView)
    ensures
        dead_draw(p) ==> node_eval(net, acc, p) == 0,
        !dead_draw(p) && net is None ==> node_eval(net, acc, p) == evaluation(p),
        !dead_draw(p) ==> (net matches Some(n) ==> (acc matches Some(a) ==> node_eval(net, acc, p) == network_output(
            *n,
            a.w@,
            a.b@,
            p.side,
        ))),
{
}

} // verus!

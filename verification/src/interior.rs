//! The principal variation search above the leaves: shortcuts that settle a node, then its moves.
use vstd::prelude::*;
use crate::account::{
    Place, Searched, Setting, Visit, accounted, all_accounted, all_visited, answers, captures_tried,
    chained, cut_short, drawn_node, extended, followed, follows_from_moves, goes_part_way, held,
    inner_account, lemma_accounted, lemma_chain_join, lemma_chain_next, lemma_chain_none,
    lemma_held, lemma_join_followed, lemma_moves_followed, lemma_next_followed, lemma_node_followed,
    lemma_none_accounted, lemma_none_followed, lemma_one_more_accounted, lemma_quiet_followed,
    lemma_same_node_followed, lemma_searches_next, lemma_tried_prefix, lemma_unstored_followed,
    lemma_visited_next, lemma_visits_chain_next, lent, loop_teaches, made_since, main_account,
    move_reduction_of, moves_followed, node_account, node_followed, node_height, node_of,
    node_remembered, node_teaches, one_followed, quiets_tried, ranking_of, remembers, root_found,
    scores_of, searches_of, shortcut_of, tables_after, tables_end, visited_as, visits_accounted,
    visits_chained,
};
use crate::board::{
    colour_at, legal_moves, legal_shape, mover, opposite, piece_at, position_after, position_passed,
    wf, Move, PosView, Position, PAWN,
};
use crate::history::{
    bonus_at, cont_after, cont_penalized, cont_preds, corr_bucket, corr_index, from_to, hist_after,
    hist_bonus, hist_penalized, killers_after, law_bonus_grows_with_depth,
    law_bonus_moves_history_its_way, law_history_stays_in_range, params_ok, tried_ok, Preds, Tables,
    INF, MATE, MATE_BOUND, MAX_PLY,
};
use crate::instrument::{
    record, record_cutoff,
};
use crate::nnue::{Acc, activation};
use crate::policy::{activations, logit, move_class};
use crate::rules::{
    PROBCUT_MARGIN, PROBCUT_REDUCTION, Ranked, bound_for, bound_of, capt_after, capt_penalized,
    capture_cutoff, capture_history, capture_tag_ok, counter_to, descending, has_non_pawn,
    heavy_at, history_of, iir_depth, is_repetition, lemma_same_moves, lmp_limit, lmp_limit_of,
    mate_window, null_reduction, null_reduction_of, order_of, order_wins, probcut, quiet_history,
    raised, rank_move, ranked_as, reduction, reverse_futility, skip_move, skipped, sort_ranked,
    stored_score, taken_by, tt_cuts, tt_score_from, tt_score_to,
};
use crate::search::{
    SCORE_LIMIT, Searcher, WINDOW_LIMIT, acc_ok, node_eval, sound, stops, window_ok,
};
use crate::see::{
    see_of, see_with,
};
use crate::shared::Table;
use crate::tag::{
    law_tag_reads_back, tag_bit, tag_of,
};
use crate::tt::{
    BOUND_UPPER, Entry, pack, packed,
};
use crate::tune::Params;
use crate::tag;

verus! {

/// A ranked move of the main search: legal, with its mover and victim in its tag.
pub open spec fn nranked(p: PosView, x: Ranked) -> bool {
    &&& legal_moves(p).contains(x.mv)
    &&& legal_shape(p, x.mv)
    &&& x.tag as int % 8 == mover(p, x.mv)
    &&& tag_bit(x.tag, 3) <==> taken_by(p, x.mv) is Some
    &&& taken_by(p, x.mv) matches Some(v) ==> x.tag as int / 32 == v + 1
}

pub open spec fn all_nranked(p: PosView, v: Seq<Ranked>) -> bool {
    forall|k: int| 0 <= k < v.len() ==> nranked(p, #[trigger] v[k])
}

/// A candidate of the search against a raised beta: a legal capture, with mover and victim.
pub open spec fn capturing(p: PosView, x: Ranked) -> bool {
    &&& legal_moves(p).contains(x.mv)
    &&& legal_shape(p, x.mv)
    &&& x.tag == tag_of(mover(p, x.mv), taken_by(p, x.mv), false, false)
}

pub open spec fn all_capturing(p: PosView, v: Seq<Ranked>) -> bool {
    forall|k: int| 0 <= k < v.len() ==> capturing(p, #[trigger] v[k])
}

/// Whether the side to move may try to pass: not at the root, in check or near the leaves, only
/// where the evaluation reaches beta, and not with pawns alone.
pub open spec fn may_pass(p: PosView, node: Node) -> bool {
    &&& !node.in_check
    &&& node.ply > 0
    &&& node.depth >= 3
    &&& node.static_eval >= node.beta
    &&& exists|s: int| 0 <= s < 64 && heavy_at(p.men, p.side, s)
}

/// The best move at the root is as before, or a legal one.
pub open spec fn root_move_ok(p: PosView, before: u16, after: u16) -> bool {
    after == before || root_move_set(p, after)
}

/// The best move at the root is a legal one.
pub open spec fn root_move_set(p: PosView, rb: u16) -> bool {
    exists|m: Move| #[trigger] legal_moves(p).contains(m) && legal_shape(p, m) && packed(m) == rb
}

/// What the loop over a node's moves has come to.
#[derive(Clone, Copy, PartialEq, Eq, Structural, Debug)]
pub struct Outcome {
    pub best: i32,
    pub best_mv: u16,
    pub best_is_capture: bool,
    pub bound: u8,
}

/// A ranked move that neither captures nor promotes.
pub open spec fn quiet(x: Ranked) -> bool {
    !tag_bit(x.tag, 3) && x.mv.promotion is None
}

/// What the loop comes to after its first `n` moves, each of which was skipped or has a score:
/// the first of the best scores, with its move.
pub open spec fn outcome_of(node: Node, moves: Seq<Ranked>, scores: Seq<Option<i32>>, n: int) -> Outcome
    decreases n,
{
    if n <= 0 {
        Outcome { best: (-INF) as i32, best_mv: 0, best_is_capture: false, bound: BOUND_UPPER }
    } else {
        let before = outcome_of(node, moves, scores, n - 1);
        match scores[n - 1] {
            Some(sc) => improved(before, node, moves[n - 1], sc),
            None => before,
        }
    }
}

/// An outcome after a move has been searched with a score.
pub open spec fn improved(before: Outcome, node: Node, x: Ranked, score: i32) -> Outcome {
    if score > before.best {
        Outcome {
            best: score,
            best_mv: packed(x.mv) as u16,
            best_is_capture: tag_bit(x.tag, 3),
            bound: bound_of(score as int, node.alpha as int, node.beta as int),
        }
    } else {
        before
    }
}

/// How many of the first `n` moves were quiet and searched.
pub open spec fn quiets_searched(moves: Seq<Ranked>, scores: Seq<Option<i32>>, n: int) -> int
    decreases n,
{
    if n <= 0 {
        0
    } else {
        quiets_searched(moves, scores, n - 1) + if scores[n - 1] is Some && quiet(moves[n - 1]) {
            1int
        } else {
            0
        }
    }
}

/// Whether the loop skips move `k`, given what came before it.
#[verifier::opaque]
pub open spec fn passed_over(p: PosView, params: Params, node: Node, moves: Seq<Ranked>, scores: Seq<Option<i32>>, k: int) -> bool {
    let x = moves[k];
    let best = outcome_of(node, moves, scores, k).best;
    skipped(
        node.is_pv,
        node.in_check,
        best as int,
        quiet(x),
        x.mv.promotion is Some,
        tag_bit(x.tag, 3) && tag_bit(x.tag, 4),
        node.depth as int,
        quiets_searched(moves, scores, k),
        lmp_limit_of(params, node.depth as int, node.improving),
        node.static_eval as int,
        raised(node.alpha as int, best as int),
        see_of(p, x.mv, mover(p, x.mv)),
    )
}

/// A move has reached beta.
pub open spec fn cut_off(node: Node, o: Outcome) -> bool {
    o.best > -INF && o.best >= node.beta
}

/// Before move `k` no score had reached beta, and there is one of it unless the rules skip it.
#[verifier::opaque]
pub open spec fn done_at(p: PosView, params: Params, node: Node, moves: Seq<Ranked>, scores: Seq<Option<i32>>, k: int) -> bool {
    &&& !cut_off(node, outcome_of(node, moves, scores, k))
    &&& scores[k] is None <==> passed_over(p, params, node, moves, scores, k)
}

/// No score but the last has reached beta, and there is one of every move that the rules do not
/// skip.
pub open spec fn in_order(p: PosView, params: Params, node: Node, moves: Seq<Ranked>, scores: Seq<Option<i32>>) -> bool {
    forall|k: int| 0 <= k < scores.len() ==> #[trigger] done_at(p, params, node, moves, scores, k)
}

/// What the loop did with a node's moves: it goes through them in order until a score reaches
/// beta, and has a score of every move that the rules do not skip.
pub open spec fn goes_through(p: PosView, params: Params, node: Node, moves: Seq<Ranked>, scores: Seq<Option<i32>>) -> bool {
    &&& scores.len() <= moves.len()
    &&& in_order(p, params, node, moves, scores)
    &&& scores.len() < moves.len() ==> cut_off(node, outcome_of(node, moves, scores, scores.len() as int))
}

/// A node as the loop over its moves sees it.
#[derive(Clone, Copy)]
pub struct Node {
    pub hash: u64,
    pub depth: i32,
    pub ply: i32,
    pub alpha: i32,
    pub beta: i32,
    pub prev: u16,
    pub is_pv: bool,
    pub in_check: bool,
    pub improving: bool,
    pub cut_node: bool,
    pub static_eval: i32,
    pub preds: Preds,
}

impl Node {
    pub open spec fn wf(&self) -> bool {
        &&& 0 <= self.ply <= 126
        &&& 1 <= self.depth <= 129 + self.ply
        &&& window_ok(self.alpha as int, self.beta as int)
        &&& -SCORE_LIMIT <= self.static_eval <= SCORE_LIMIT
        &&& self.preds.wf()
    }
}

/// A search of a node's child was made as described.
pub open spec fn searched_as(x: Searched, p: PosView, depth: int, ply: int, alpha: int, beta: int, prev: u16, cut_node: bool, path: Seq<u64>, cont: Seq<u16>) -> bool {
    &&& x.position == p
    &&& !x.quiet
    &&& x.depth == depth
    &&& x.ply == ply
    &&& x.alpha == alpha
    &&& x.beta == beta
    &&& x.prev == prev
    &&& x.cut_node == cut_node
    &&& x.path == path
    &&& x.cont == cont
}

/// A quiescence search of a node's child was made as described.
pub open spec fn quiesced_as(x: Searched, p: PosView, ply: int, alpha: int, beta: int, path: Seq<u64>, cont: Seq<u16>) -> bool {
    &&& x.position == p
    &&& x.quiet
    &&& x.ply == ply
    &&& x.alpha == alpha
    &&& x.beta == beta
    &&& x.path == path
    &&& x.cont == cont
}

/// The searches that give a child its score. The first child is searched once, with the full
/// window. A later one is searched with a null window at reduced depth, again at full depth if it
/// was reduced and that fails high, and again with the full window if the score lands inside it.
/// The last of them gives the score.
pub open spec fn child_searches(
    v: Seq<Searched>,
    p: PosView,
    node: Node,
    first: bool,
    r: int,
    a: int,
    pk: u16,
    path: Seq<u64>,
    cont: Seq<u16>,
    score: int,
) -> bool {
    let ply = node.ply + 1;
    let depth = node.depth - 1;
    if first {
        &&& v.len() == 1
        &&& searched_as(v[0], p, depth, ply, -node.beta, -a, pk, !node.is_pv && !node.cut_node, path, cont)
        &&& score == -v[0].result
    } else {
        let again = r > 0 && -v[0].result > a;
        let n = if again {
            2int
        } else {
            1
        };
        let narrow = -v[n - 1].result;
        let wide = a < narrow < node.beta;
        &&& v.len() == if wide {
            n + 1
        } else {
            n
        }
        &&& searched_as(v[0], p, depth - r, ply, -a - 1, -a, pk, true, path, cont)
        &&& again ==> searched_as(v[1], p, depth, ply, -a - 1, -a, pk, !node.cut_node, path, cont)
        &&& wide ==> searched_as(v[n], p, depth, ply, -node.beta, -a, pk, false, path, cont)
        &&& score == -v[v.len() - 1].result
    }
}

/// Piece and destination of a move, as one index.
pub open spec fn move_index(p: PosView, m: Move) -> u16 {
    (mover(p, m) * 64 + m.to) as u16
}

/// Those of the first `n` legal moves that take a man where they land and whose exchange wins
/// `need`.
pub open spec fn probcut_list(p: PosView, need: int, n: int) -> Seq<Ranked>
    decreases n,
{
    if n <= 0 {
        Seq::empty()
    } else {
        let m = legal_moves(p)[n - 1];
        let before = probcut_list(p, need, n - 1);
        if colour_at(p.men, m.to as int) == opposite(p.side) && see_of(p, m, mover(p, m)) >= need {
            before.push(Ranked { score: 0, mv: m, tag: tag_of(mover(p, m), taken_by(p, m), false, false) as u8 })
        } else {
            before
        }
    }
}

/// How many searches the first `i` captures against a raised bound took: a quiescence search
/// each, and a second search where that reaches the bound.
pub open spec fn raised_count(v: Seq<Searched>, bound: int, i: int) -> int
    decreases i,
{
    if i <= 0 {
        0
    } else {
        let at = raised_count(v, bound, i - 1);
        at + if -v[at].result >= bound {
            2int
        } else {
            1
        }
    }
}

/// The score of capture `i`: that of its last search.
pub open spec fn raised_score(v: Seq<Searched>, bound: int, i: int) -> int {
    -v[raised_count(v, bound, i + 1) - 1].result
}

/// Capture `i` was searched against the raised bound.
#[verifier::opaque]
pub open spec fn raised_at(p: PosView, node: Node, m: Move, v: Seq<Searched>, i: int, path: Seq<u64>, cont: Seq<u16>) -> bool {
    let bound = node.beta + PROBCUT_MARGIN;
    let at = raised_count(v, bound, i);
    let q = position_after(p, m);
    let on = path.push(node.hash);
    let next = cont.push(move_index(p, m));
    &&& raised_count(v, bound, i + 1) <= v.len()
    &&& quiesced_as(v[at], q, node.ply + 1, -bound, -bound + 1, on, next)
    &&& -v[at].result >= bound ==> searched_as(
        v[at + 1],
        q,
        node.depth - PROBCUT_REDUCTION,
        node.ply + 1,
        -bound,
        -bound + 1,
        packed(m) as u16,
        !node.cut_node,
        on,
        next,
    )
}

/// The first `n` captures were searched and fell short of the raised bound.
pub open spec fn all_short(p: PosView, node: Node, cands: Seq<Ranked>, v: Seq<Searched>, n: int, path: Seq<u64>, cont: Seq<u16>) -> bool {
    forall|k: int|
        0 <= k < n ==> #[trigger] raised_at(p, node, cands[k].mv, v, k, path, cont) && raised_score(
            v,
            node.beta + PROBCUT_MARGIN,
            k,
        ) < node.beta + PROBCUT_MARGIN
}

/// The searches of captures against a raised bound, and what comes of them: the captures are
/// searched in order until one reaches the bound, which is the result, or the search is stopped.
pub open spec fn raised_searches(
    p: PosView,
    node: Node,
    cands: Seq<Ranked>,
    v: Seq<Searched>,
    path: Seq<u64>,
    cont: Seq<u16>,
    stopped: bool,
    r: Option<i32>,
) -> bool {
    let bound = node.beta + PROBCUT_MARGIN;
    match r {
        None => {
            &&& !stopped
            &&& v.len() == raised_count(v, bound, cands.len() as int)
            &&& all_short(p, node, cands, v, cands.len() as int, path, cont)
        },
        Some(x) => exists|i: int|
            {
                &&& 0 <= i < cands.len()
                &&& v.len() == raised_count(v, bound, i + 1)
                &&& all_short(p, node, cands, v, i, path, cont)
                &&& #[trigger] raised_at(p, node, cands[i].mv, v, i, path, cont)
                &&& if stopped {
                    x == 0
                } else {
                    x == raised_score(v, bound, i) && x >= bound
                }
            },
    }
}

/// Later searches do not change what the earlier ones came to.
proof fn lemma_raised_count(v: Seq<Searched>, w: Seq<Searched>, bound: int, i: int)
    requires
        0 <= i,
        raised_count(v, bound, i) <= v.len() <= w.len(),
        forall|j: int| 0 <= j < v.len() ==> v[j] == w[j],
    ensures
        0 <= raised_count(v, bound, i),
        raised_count(w, bound, i) == raised_count(v, bound, i),
        forall|k: int| 0 <= k < i ==> #[trigger] raised_count(v, bound, k + 1) <= raised_count(v, bound, i),
    decreases i,
{
    if i > 0 {
        lemma_raised_count(v, w, bound, i - 1);
        let at = raised_count(v, bound, i - 1);
        assert(v[at] == w[at]);
    }
}

/// One capture more fell short.
proof fn lemma_one_more_short(p: PosView, node: Node, cands: Seq<Ranked>, v: Seq<Searched>, n: int, path: Seq<u64>, cont: Seq<u16>)
    requires
        all_short(p, node, cands, v, n, path, cont),
        raised_at(p, node, cands[n].mv, v, n, path, cont),
        raised_score(v, node.beta + PROBCUT_MARGIN, n) < node.beta + PROBCUT_MARGIN,
    ensures
        all_short(p, node, cands, v, n + 1, path, cont),
{
    assert forall|k: int| 0 <= k < n + 1 implies #[trigger] raised_at(p, node, cands[k].mv, v, k, path, cont) && raised_score(
        v,
        node.beta + PROBCUT_MARGIN,
        k,
    ) < node.beta + PROBCUT_MARGIN by {
        assert(k < n ==> raised_at(p, node, cands[k].mv, v, k, path, cont));
    }
}

proof fn lemma_short(p: PosView, node: Node, cands: Seq<Ranked>, v: Seq<Searched>, w: Seq<Searched>, n: int, path: Seq<u64>, cont: Seq<u16>)
    requires
        0 <= n,
        all_short(p, node, cands, v, n, path, cont),
        v.len() <= w.len(),
        forall|j: int| 0 <= j < v.len() ==> v[j] == w[j],
    ensures
        all_short(p, node, cands, w, n, path, cont),
{
    let bound = node.beta + PROBCUT_MARGIN;
    assert forall|k: int| 0 <= k < n implies #[trigger] raised_at(p, node, cands[k].mv, w, k, path, cont) && raised_score(w, bound, k)
        < bound by {
        assert(raised_at(p, node, cands[k].mv, v, k, path, cont));
        reveal(raised_at);
        lemma_raised_count(v, w, bound, k + 1);
        lemma_raised_count(v, w, bound, k);
    }
}

/// What a cutoff by a move teaches, against the quiet moves and captures tried before it: a quiet
/// move becomes a killer and the answer to the opponent's move, and histories rise and fall.
#[verifier::opaque]
pub open spec fn cutoff_teaches(
    params: Params,
    p: PosView,
    node: Node,
    x: Ranked,
    quiets: Seq<(Move, u16)>,
    caps: Seq<Ranked>,
    t: Tables,
    after: Tables,
) -> bool {
    let bonus = bonus_at(params, node.depth as int);
    let ci = mover(p, x.mv) * 64 + x.mv.to;
    &&& after.corr == t.corr
    &&& after.capt@ == capt_penalized(
        if tag_bit(x.tag, 3) {
            capt_after(t.capt@, p.side, x, bonus)
        } else {
            t.capt@
        },
        p.side,
        caps,
        caps.len() as int,
        bonus,
    )
    &&& if quiet(x) {
        &&& after.killers@ == t.killers@.update(
            node.ply as int,
            killers_after(t.killers@[node.ply as int], packed(x.mv) as u16),
        )
        &&& after.counter@ == if node.prev == 0 {
            t.counter@
        } else {
            t.counter@.update(
                from_to(p.side, node.prev as int % 64, node.prev as int / 64 % 64),
                packed(x.mv) as u16,
            )
        }
        &&& after.history@ == hist_penalized(
            hist_after(t.history@, p.side, x.mv, bonus),
            p.side,
            quiets,
            quiets.len() as int,
            bonus,
        )
        &&& after.cont@ == cont_penalized(
            cont_after(t.cont@, node.preds, ci, bonus),
            node.preds,
            quiets,
            quiets.len() as int,
            bonus,
        )
    } else {
        &&& after.history == t.history
        &&& after.cont == t.cont
        &&& after.killers == t.killers
        &&& after.counter == t.counter
    }
}

/// What was done to come to a node's result: the searches before its moves, the moves ranked by
/// what had been learned, and what was done with them.
pub struct Work {
    pub before: Seq<Searched>,
    pub ranked_by: Tables,
    pub order: Seq<Ranked>,
    pub visits: Seq<Visit>,
    pub left: Tables,
}

/// A search with the work done for it and its result.
pub open spec fn work_done(of: Searched, entry: Option<Entry>, w: Work, result: i32) -> Searched {
    Searched { result, entry, before: w.before, ranked_by: w.ranked_by, order: w.order, visits: w.visits, left: w.left, ..of }
}

/// The move that a node searched to `depth` plies settled on, packed.
pub open spec fn chosen(s: Setting, x: Searched, depth: int) -> u16 {
    outcome_of(node_of(s, x, depth), x.order, scores_of(x.visits), x.visits.len() as int).best_mv
}

/// The loop over a node's moves teaches nothing of pawn structures.
proof fn lemma_loop_keeps_corr(params: Params, p: PosView, node: Node, order: Seq<Ranked>, visits: Seq<Visit>, from: Tables, after: Tables)
    requires
        loop_teaches(params, p, node, order, visits, from, after),
    ensures
        after.corr == tables_after(from, visits, visits.len() as int).corr,
{
    reveal(loop_teaches);
    reveal(cutoff_teaches);
}

/// The searches made for a node are accounted for.
pub open spec fn children_accounted(s: Setting, x: Searched) -> bool {
    x.stopped || (all_accounted(s, x.before, x.ply + 1, false) && visits_accounted(s, x.visits, x.ply + 1))
}

/// Two runs of searches, all accounted for.
proof fn lemma_joined_accounted(s: Setting, v: Seq<Searched>, w: Seq<Searched>, ply: int)
    ensures
        all_accounted(s, v, ply, false) && all_accounted(s, w, ply, false) ==> all_accounted(s, v + w, ply, false),
{
    reveal(all_accounted);
    if all_accounted(s, v, ply, false) && all_accounted(s, w, ply, false) {
        assert forall|i: int| 0 <= i < (v + w).len() implies #[trigger] accounted(s, (v + w)[i]) && (v + w)[i].ply == ply && !(v
            + w)[i].stopped by {
            if i < v.len() {
                assert(accounted(s, v[i]));
            } else {
                assert(accounted(s, w[i - v.len()]));
            }
        }
    }
}

/// Evaluations that agree up to a ply agree before it.
proof fn lemma_evals(now: Seq<i32>, was: Seq<i32>, evals: Seq<i32>, ply: int)
    requires
        0 <= ply < now.len(),
        now.take(ply + 1) == evals,
        evals.take(ply) == was.take(ply),
    ensures
        now.take(ply) == was.take(ply),
{
    assert(now.take(ply + 1).take(ply) =~= now.take(ply));
}

/// A search without searches below it.
proof fn lemma_leaf_accounted(s: Setting, x: Searched, ply: int)
    requires
        acc_ok(s.net, lent(&x.acc), x.position),
        !x.quiet,
        ply == x.ply + 1,
        x.before.len() == 0,
        x.visits.len() == 0,
        x.left == x.tables,
        0 <= x.ply <= 127,
        drawn_node(x.position, x.ply as int, s.played, x.path) && x.result == 0 || (!drawn_node(
            x.position,
            x.ply as int,
            s.played,
            x.path,
        ) && extended(x.position, x.depth as int) > 0 && x.ply == 127 && x.result == node_eval(s.net, lent(&x.acc), x.position)),
    ensures
        accounted(s, x),
{
    reveal(main_account);
    reveal(accounted);
}

/// A search at no depth.
proof fn lemma_quiet_leaf_accounted(s: Setting, x: Searched, y: Searched)
    requires
        acc_ok(s.net, lent(&x.acc), x.position),
        !x.quiet,
        0 <= x.ply <= 127,
        x.before == Seq::empty().push(y),
        x.visits.len() == 0,
        !drawn_node(x.position, x.ply as int, s.played, x.path),
        extended(x.position, x.depth as int) <= 0,
        quiesced_as(y, x.position, x.ply as int, x.alpha as int, x.beta as int, x.path, x.cont),
        x.result == y.result,
        x.stopped == y.stopped,
        y.tables == x.tables,
        x.left == x.tables,
        accounted(s, y),
    ensures
        accounted(s, x),
{
    reveal(main_account);
    lemma_none_accounted(s, Seq::empty(), x.ply as int, false);
    lemma_one_more_accounted(s, Seq::empty(), x.ply as int, y, false, x.stopped);
    if !x.stopped {
        lemma_accounted(s, x, x.ply as int);
    } else {
        reveal(accounted);
    }
}

/// A search of a node to more than no depth.
proof fn lemma_node_accounted(s: Setting, x: Searched, y: Searched, depth: int)
    requires
        acc_ok(s.net, lent(&x.acc), x.position),
        !x.quiet,
        0 <= x.ply <= 126,
        x == (Searched { depth: x.depth, ..y }),
        depth == extended(x.position, x.depth as int),
        depth == y.depth,
        depth > 0,
        !drawn_node(x.position, x.ply as int, s.played, x.path),
        !y.stopped ==> node_account(s, y, depth),
        children_accounted(s, y),
    ensures
        accounted(s, x),
{
    if !x.stopped {
        assert(node_account(s, x, depth)) by {
            assert(node_of(s, x, depth) == node_of(s, y, depth));
            reveal(inner_account);
        }
        reveal(main_account);
        lemma_accounted(s, x, x.ply + 1);
    } else {
        reveal(accounted);
    }
}

impl<T: Table> Searcher<T> {
    /// A node may be searched.
    pub open spec fn can_search(&self, p: PosView, depth: int, ply: int, alpha: int, beta: int, acc: Option<&Acc>) -> bool {
        &&& self.wf()
        &&& wf(p)
        &&& 0 <= ply <= 127
        &&& -1000 <= depth <= 128 + ply
        &&& window_ok(alpha, beta)
        &&& acc_ok(self.net, acc, p)
    }

    /// A search from here, of which nothing has come yet.
    pub open spec fn main_search(&self, p: PosView, depth: i32, ply: i32, alpha: i32, beta: i32, prev: u16, acc: Option<&Acc>, cut_node: bool) -> Searched {
        Searched {
            position: p,
            quiet: false,
            depth,
            ply,
            alpha,
            beta,
            prev,
            cut_node,
            path: self.path@,
            cont: self.cont_stack@,
            result: 0,
            stopped: false,
            entry: None,
            acc: held(acc),
            tables: self.tables,
            evals: self.eval_hist@,
            before: Seq::empty(),
            ranked_by: self.tables,
            order: Seq::empty(),
            visits: Seq::empty(),
            left: self.tables,
        }
    }

    /// Where a node is that is searched from here.
    pub open spec fn place(&self, p: PosView) -> Place {
        Place { position: p, path: self.path@, cont: self.cont_stack@ }
    }

    /// By how much this searcher reduces a move.
    pub open spec fn reduction_for(&self, p: PosView, node: Node, x: Ranked, number: int, is_quiet: bool, is_capture: bool) -> int {
        move_reduction_of(self.setting(), self.tables, p, node, x, number, is_quiet, is_capture)
    }

    /// The result of a node that is decided before its moves are looked at.
    pub open spec fn shortcut(
        &self,
        p: PosView,
        depth: int,
        ply: int,
        alpha: int,
        beta: int,
        acc: Option<&Acc>,
        cut_node: bool,
        entry: Option<Entry>,
    ) -> Option<int> {
        shortcut_of(self.setting(), self.tables, self.eval_hist@, p, depth, ply, alpha, beta, acc, cut_node, entry)
    }

    /// All moves of a node as this searcher ranks them.
    pub open spec fn ranking(&self, p: PosView, tt_mv: u16, ply: int, prev: u16, preds: Preds, acc: Option<&Acc>) -> Seq<Ranked> {
        ranking_of(self.policy, self.tables, p, tt_mv, ply, prev, preds, acc)
    }

    /// Ranks all moves of a node, best first.
    pub fn ranked_moves(&self, board: &Position, tt_mv: u16, ply: i32, prev: u16, preds: &Preds, acc: Option<&Acc>, moves: &mut Vec<Ranked>)
        requires
            self.wf(),
            wf(board@),
            0 <= ply <= 126,
            preds.wf(),
        ensures
            final(moves)@.to_multiset() == self.ranking(board@, tt_mv, ply as int, prev, *preds, acc).to_multiset(),
            descending(final(moves)@),
            all_nranked(board@, final(moves)@),
            final(moves)@.len() == legal_moves(board@).len(),
    {
        let all = board.moves();
        let n: usize = all.len();
        moves.clear();
        let act: Option<[i32; 512]> = match acc {
            Some(a) => if self.policy.is_some() {
                Some(activations(a, board.side_to_move()))
            } else {
                None
            },
            None => None,
        };
        assert(act matches Some(v) ==> v@ =~= Seq::new(
            512,
            |k: int| activation(acc->0.w@, acc->0.b@, board@.side, k) as i32,
        ));
        let ghost ranking = self.ranking(board@, tt_mv, ply as int, prev, *preds, acc);
        assert(moves@ =~= ranking.take(0));
        let mut i: usize = 0;
        while i < n
            invariant
                i <= n,
                n == all@.len(),
                self.wf(),
                wf(board@),
                0 <= ply <= 126,
                preds.wf(),
                all@ == legal_moves(board@),
                forall|k: int| 0 <= k < all@.len() ==> legal_shape(board@, #[trigger] all@[k]),
                act is Some <==> acc is Some && self.policy is Some,
                act matches Some(v) ==> forall|k: int| 0 <= k < 512 ==> 0 <= #[trigger] v@[k] <= 127,
                act matches Some(v) ==> v@ == Seq::new(512, |k: int| activation(acc->0.w@, acc->0.b@, board@.side, k) as i32),
                moves@.len() == i,
                ranking == self.ranking(board@, tt_mv, ply as int, prev, *preds, acc),
                moves@ == ranking.take(i as int),
                all_nranked(board@, moves@),
            decreases n - i,
        {
            let mv: Move = all[i];
            assert(legal_shape(board@, all@[i as int]));
            assert(legal_moves(board@).contains(mv));
            let lg: Option<i32> = match &act {
                Some(v) => match &self.policy {
                    Some(p) => Some(logit(p, v, move_class(board, mv))),
                    None => None,
                },
                None => None,
            };
            let x: Ranked = rank_move(&self.tables, board, mv, tt_mv, lg, ply as usize, prev, preds);
            proof {
                lemma_ranked(x, self.tables, board@, mv, tt_mv, lg, ply as int, prev, *preds);
            }
            assert(x == ranking[i as int]);
            moves.push(x);
            i = i + 1;
            assert(moves@ =~= ranking.take(i as int));
        }
        assert(moves@ =~= ranking);
        let ghost before = moves@;
        sort_ranked(moves);
        assert forall|k: int| 0 <= k < moves@.len() implies nranked(board@, #[trigger] moves@[k]) by {
            lemma_same_moves(before, moves@, k);
        }
    }
}

impl<T: Table> Searcher<T> {
    /// Null move: if passing still beats beta at reduced depth, so does the node.
    #[verifier::rlimit(60)]
    fn try_null(&mut self, board: &Position, node: &Node, acc: Option<&Acc>) -> (r: Option<i32>)
        requires
            old(self).wf(),
            wf(board@),
            node.wf(),
            node.in_check == (board@.checkers != 0),
            acc_ok(old(self).net, acc, board@),
            !old(self).stopped,
        ensures
            final(self).wf(),
            final(self).keeps(old(self)),
            final(self).root_best == old(self).root_best,
            final(self).eval_hist@.take(node.ply + 1) == old(self).eval_hist@.take(node.ply + 1),
            !may_pass(board@, *node) ==> r is None && *final(self) == *old(self),
            may_pass(board@, *node) ==> ({
                let v = made_since(old(self).log@, final(self).log@);
                let depth = node.depth - 1 - null_reduction_of(
                    old(self).params,
                    node.depth as int,
                    node.static_eval as int,
                    node.beta as int,
                );
                &&& final(self).log@ == old(self).log@ + v
                &&& v.len() == 1
                &&& searched_as(
                    v[0],
                    position_passed(board@),
                    depth,
                    node.ply + 1,
                    -node.beta,
                    -node.beta + 1,
                    0,
                    !node.cut_node,
                    old(self).path@.push(node.hash),
                    old(self).cont_stack@.push(384),
                )
                &&& all_accounted(old(self).setting(), v, node.ply + 1, final(self).stopped)
                &&& chained(old(self).tables, old(self).eval_hist@.take(node.ply + 1), v)
                &&& final(self).tables == tables_end(old(self).tables, v)
                &&& !final(self).stopped ==> followed(
                    old(self).setting(),
                    node_height(node.ply as int),
                    v,
                    old(self).tt.memory(),
                    final(self).tt.memory(),
                )
                &&& r == if final(self).stopped {
                    Some(0i32)
                } else if -v[0].result >= node.beta {
                    Some(node.beta)
                } else {
                    None
                }
            }),
            match r {
                Some(v) => if final(self).stopped {
                    v == 0
                } else {
                    v == node.beta && node.static_eval >= node.beta
                },
                None => !final(self).stopped,
            },
        decreases MAX_PLY - node.ply, 2int,
    {
        if node.in_check || node.ply <= 0 || node.depth < 3 || node.static_eval < node.beta || !has_non_pawn(board, board.side_to_move()) {
            return None;
        }
        match board.null_move() {
            Some(nb) => {
                let r: i32 = null_reduction(&self.params, node.depth, node.static_eval, node.beta);
                let ghost log = self.log@;
                self.path.push(node.hash);
                self.cont_stack.push(384);
                let sc: i32 = -self.negamax(&nb, node.depth - 1 - r, node.ply + 1, -node.beta, -node.beta + 1, 0, acc, !node.cut_node);
                let _ = self.cont_stack.pop();
                let _ = self.path.pop();
                assert(self.cont_stack@ =~= old(self).cont_stack@);
                assert(self.path@ =~= old(self).path@);
                assert(made_since(log, self.log@) =~= seq![self.log@.last()]);
                assert(self.log@ =~= log + made_since(log, self.log@));
                proof {
                    let s = self.setting();
                    lemma_none_accounted(s, Seq::empty(), node.ply + 1, false);
                    lemma_one_more_accounted(s, Seq::empty(), node.ply + 1, self.log@.last(), false, self.stopped);
                    let evals = old(self).eval_hist@.take(node.ply + 1);
                    lemma_chain_none(old(self).tables, evals, Seq::empty());
                    lemma_chain_next(old(self).tables, evals, Seq::empty(), self.log@.last());
                    assert(made_since(log, self.log@) =~= Seq::empty().push(self.log@.last()));
                    if !self.stopped {
                        let (m, h) = (old(self).tt.memory(), node_height(node.ply as int));
                        lemma_none_followed(s, h, m);
                        lemma_next_followed(s, h, Seq::empty(), self.log@.last(), m, m, self.tt.memory());
                    }
                }
                if self.stopped {
                    return Some(0);
                }
                if sc >= node.beta {
                    return Some(node.beta);
                }
                None
            },
            None => None,
        }
    }

    /// Searches a child: the first move with the full window, later ones with a null window at
    /// reduced depth, again at full depth if that fails high, and again with the full window if
    /// the score lands inside it.
    #[verifier::rlimit(60)]
    fn search_child(&mut self, nb: &Position, node: &Node, first: bool, r: i32, a: i32, pk: u16, na: Option<&Acc>) -> (sc: i32)
        requires
            node.wf(),
            old(self).wf(),
            wf(nb@),
            acc_ok(old(self).net, na, nb@),
            0 <= r <= 132,
            node.alpha <= a < node.beta,
        ensures
            final(self).wf(),
            final(self).keeps(old(self)),
            final(self).root_best == old(self).root_best,
            final(self).log@ == old(self).log@ + made_since(old(self).log@, final(self).log@),
            child_searches(
                made_since(old(self).log@, final(self).log@),
                nb@,
                *node,
                first,
                r as int,
                a as int,
                pk,
                old(self).path@,
                old(self).cont_stack@,
                sc as int,
            ),
            chained(
                old(self).tables,
                old(self).eval_hist@.take(node.ply + 1),
                made_since(old(self).log@, final(self).log@),
            ),
            final(self).tables == tables_end(old(self).tables, made_since(old(self).log@, final(self).log@)),
            final(self).eval_hist@.take(node.ply + 1) == old(self).eval_hist@.take(node.ply + 1),
            all_accounted(
                old(self).setting(),
                made_since(old(self).log@, final(self).log@),
                node.ply + 1,
                final(self).stopped,
            ),
            !final(self).stopped ==> followed(
                old(self).setting(),
                node_height(node.ply as int),
                made_since(old(self).log@, final(self).log@),
                old(self).tt.memory(),
                final(self).tt.memory(),
            ),
            -WINDOW_LIMIT <= sc <= WINDOW_LIMIT,
            !final(self).stopped ==> (sc > a ==> sc <= SCORE_LIMIT),
        decreases MAX_PLY - node.ply, 1int,
    {
        let ply: i32 = node.ply + 1;
        let depth: i32 = node.depth - 1;
        let ghost log = self.log@;
        let ghost evals = self.eval_hist@.take(node.ply + 1);
        let ghost m = self.tt.memory();
        let ghost h = node_height(node.ply as int);
        let ghost mut mid = m;
        if first {
            let child_cut: bool = if node.is_pv {
                false
            } else {
                !node.cut_node
            };
            let sc: i32 = -self.negamax(nb, depth, ply, -node.beta, -a, pk, na, child_cut);
            assert(self.log@ =~= log + seq![self.log@.last()]);
            assert(made_since(log, self.log@) =~= Seq::empty().push(self.log@.last()));
            proof {
                lemma_none_accounted(self.setting(), Seq::empty(), ply as int, false);
                lemma_one_more_accounted(self.setting(), Seq::empty(), ply as int, self.log@.last(), false, self.stopped);
                lemma_chain_none(old(self).tables, evals, Seq::empty());
                lemma_chain_next(old(self).tables, evals, Seq::empty(), self.log@.last());
                lemma_none_followed(self.setting(), h, m);
                if !self.stopped {
                    lemma_next_followed(self.setting(), h, Seq::empty(), self.log@.last(), m, m, self.tt.memory());
                }
            }
            return sc;
        }
        let ghost mut made: Seq<Searched> = Seq::empty();
        let mut s: i32 = -self.negamax(nb, depth - r, ply, -a - 1, -a, pk, na, true);
        proof {
            lemma_chain_none(old(self).tables, evals, made);
            lemma_chain_next(old(self).tables, evals, made, self.log@.last());
            lemma_none_accounted(self.setting(), made, ply as int, false);
            lemma_one_more_accounted(self.setting(), made, ply as int, self.log@.last(), false, self.stopped);
            lemma_none_followed(self.setting(), h, m);
            if !self.stopped {
                lemma_next_followed(self.setting(), h, made, self.log@.last(), m, mid, self.tt.memory());
            }
            mid = self.tt.memory();
            made = made.push(self.log@.last());
            assert(self.log@ =~= log + made);
        }
        if s > a && r > 0 {
            let ghost was = self.stopped;
            s = -self.negamax(nb, depth, ply, -a - 1, -a, pk, na, !node.cut_node);
            proof {
                lemma_one_more_accounted(self.setting(), made, ply as int, self.log@.last(), was, self.stopped);
                lemma_chain_next(old(self).tables, evals, made, self.log@.last());
                if !self.stopped {
                    lemma_next_followed(self.setting(), h, made, self.log@.last(), m, mid, self.tt.memory());
                }
                mid = self.tt.memory();
                made = made.push(self.log@.last());
                assert(self.log@ =~= log + made);
            }
        }
        if s > a && s < node.beta {
            let ghost was = self.stopped;
            s = -self.negamax(nb, depth, ply, -node.beta, -a, pk, na, false);
            proof {
                lemma_one_more_accounted(self.setting(), made, ply as int, self.log@.last(), was, self.stopped);
                lemma_chain_next(old(self).tables, evals, made, self.log@.last());
                if !self.stopped {
                    lemma_next_followed(self.setting(), h, made, self.log@.last(), m, mid, self.tt.memory());
                }
                mid = self.tt.memory();
                made = made.push(self.log@.last());
                assert(self.log@ =~= log + made);
            }
        }
        assert(made_since(log, self.log@) =~= made);
        s
    }

    /// Captures whose exchange covers the distance to the raised bound.
    fn probcut_moves(&self, board: &Position, need: i32, cands: &mut Vec<Ranked>)
        requires
            wf(board@),
        ensures
            all_capturing(board@, final(cands)@),
            final(cands)@ == probcut_list(board@, need as int, legal_moves(board@).len() as int),
    {
        let all = board.moves();
        let n: usize = all.len();
        cands.clear();
        let stm: u8 = board.side_to_move();
        let mut i: usize = 0;
        while i < n
            invariant
                i <= n,
                n == all@.len(),
                wf(board@),
                stm == board@.side,
                all@ == legal_moves(board@),
                forall|k: int| 0 <= k < all@.len() ==> legal_shape(board@, #[trigger] all@[k]),
                all_capturing(board@, cands@),
                cands@ == probcut_list(board@, need as int, i as int),
            decreases n - i,
        {
            let mv: Move = all[i];
            assert(legal_shape(board@, all@[i as int]));
            assert(legal_moves(board@).contains(mv));
            match board.man(mv.to) {
                Some((v, c)) => {
                    assert(board@.men[mv.to as int] == Some((v, c)));
                    if c != stm {
                        let moved: u8 = match board.man(mv.from) {
                            Some((p, _k)) => p,
                            None => PAWN,
                        };
                        assert(board@.men[mv.from as int] == Some((moved, stm)));
                        if see_with(board, mv, moved) >= need {
                            cands.push(Ranked { score: 0, mv, tag: tag::make(moved, Some(v), false, false) });
                        }
                    }
                },
                None => {},
            }
            i = i + 1;
        }
    }

    /// A capture that beats a raised beta at reduced depth, after a quiescence search agrees.
    #[verifier::rlimit(80)]
    fn try_probcut(&mut self, board: &Position, node: &Node, acc: Option<&Acc>) -> (r: Option<i32>)
        requires
            old(self).wf(),
            wf(board@),
            node.wf(),
            5 <= node.depth,
            -MATE_BOUND < node.beta < MATE_BOUND,
            acc_ok(old(self).net, acc, board@),
            !old(self).stopped,
        ensures
            final(self).wf(),
            final(self).keeps(old(self)),
            final(self).root_best == old(self).root_best,
            match r {
                Some(v) => if final(self).stopped {
                    v == 0
                } else {
                    node.beta + PROBCUT_MARGIN <= v <= SCORE_LIMIT
                },
                None => !final(self).stopped,
            },
            final(self).log@ == old(self).log@ + made_since(old(self).log@, final(self).log@),
            raised_searches(
                board@,
                *node,
                probcut_list(
                    board@,
                    node.beta + PROBCUT_MARGIN - node.static_eval,
                    legal_moves(board@).len() as int,
                ),
                made_since(old(self).log@, final(self).log@),
                old(self).path@,
                old(self).cont_stack@,
                final(self).stopped,
                r,
            ),
            chained(
                old(self).tables,
                old(self).eval_hist@.take(node.ply + 1),
                made_since(old(self).log@, final(self).log@),
            ),
            final(self).tables == tables_end(old(self).tables, made_since(old(self).log@, final(self).log@)),
            final(self).eval_hist@.take(node.ply + 1) == old(self).eval_hist@.take(node.ply + 1),
            all_accounted(
                old(self).setting(),
                made_since(old(self).log@, final(self).log@),
                node.ply + 1,
                final(self).stopped,
            ),
            !final(self).stopped ==> followed(
                old(self).setting(),
                node_height(node.ply as int),
                made_since(old(self).log@, final(self).log@),
                old(self).tt.memory(),
                final(self).tt.memory(),
            ),
        decreases MAX_PLY - node.ply, 2int,
    {
        let pc_beta: i32 = node.beta + PROBCUT_MARGIN;
        let pc_depth: i32 = node.depth - PROBCUT_REDUCTION;
        let mut cands: Vec<Ranked> = Vec::new();
        std::mem::swap(&mut cands, &mut self.pc_buf[node.ply as usize]);
        self.probcut_moves(board, pc_beta - node.static_eval, &mut cands);
        let n: usize = cands.len();
        let ghost log = self.log@;
        let ghost mut made: Seq<Searched> = Seq::empty();
        let ghost evals = self.eval_hist@.take(node.ply + 1);
        let ghost m = self.tt.memory();
        let ghost h = node_height(node.ply as int);
        assert(self.log@ =~= log + made);
        assert(made_since(log, self.log@) =~= made);
        proof {
            lemma_none_followed(self.setting(), h, m);
            lemma_none_accounted(self.setting(), made, node.ply + 1, false);
            lemma_chain_none(old(self).tables, evals, made);
        }
        let mut i: usize = 0;
        while i < n
            invariant
                i <= n,
                n == cands@.len(),
                wf(board@),
                node.wf(),
                5 <= node.depth,
                -MATE_BOUND < node.beta < MATE_BOUND,
                pc_beta == node.beta + PROBCUT_MARGIN,
                pc_depth == node.depth - PROBCUT_REDUCTION,
                all_capturing(board@, cands@),
                self.wf(),
                self.keeps(old(self)),
                self.root_best == old(self).root_best,
                !self.stopped,
                acc_ok(self.net, acc, board@),
                log == old(self).log@,
                cands@ == probcut_list(board@, pc_beta - node.static_eval, legal_moves(board@).len() as int),
                self.log@ == log + made,
                made_since(log, self.log@) == made,
                all_accounted(old(self).setting(), made, node.ply + 1, false),
                evals == old(self).eval_hist@.take(node.ply + 1),
                self.eval_hist@.take(node.ply + 1) == evals,
                chained(old(self).tables, evals, made),
                self.tables == tables_end(old(self).tables, made),
                m == old(self).tt.memory(),
                h == node_height(node.ply as int),
                followed(old(self).setting(), h, made, m, self.tt.memory()),
                made.len() == raised_count(made, pc_beta as int, i as int),
                all_short(board@, *node, cands@, made, i as int, old(self).path@, old(self).cont_stack@),
            decreases n - i,
        {
            let x: Ranked = cands[i];
            assert(capturing(board@, cands@[i as int]));
            let mv: Move = x.mv;
            proof {
                lemma_mover(board@, mv);
                law_tag_reads_back(x.tag, mover(board@, mv), taken_by(board@, mv), false, false);
            }
            let moved: usize = tag::piece(x.tag);
            let nb = board.play(mv);
            let nacc = self.follow(board, mv, acc);
            self.path.push(node.hash);
            self.cont_stack.push(moved as u16 * 64 + mv.to as u16);
            let ghost earlier = made;
            let ghost mut mid = self.tt.memory();
            let mut v: i32 = -self.qsearch(&nb, node.ply + 1, -pc_beta, -pc_beta + 1, nacc.as_ref());
            proof {
                lemma_one_more_accounted(self.setting(), made, node.ply + 1, self.log@.last(), false, self.stopped);
                lemma_chain_next(old(self).tables, evals, made, self.log@.last());
                if !self.stopped {
                    lemma_quiet_followed(self.setting(), self.log@.last(), mid, self.tt.memory());
                    lemma_next_followed(self.setting(), h, made, self.log@.last(), m, mid, self.tt.memory());
                }
                mid = self.tt.memory();
                made = made.push(self.log@.last());
                assert(self.log@ =~= log + made);
            }
            if v >= pc_beta {
                let ghost was = self.stopped;
                v = -self.negamax(&nb, pc_depth, node.ply + 1, -pc_beta, -pc_beta + 1, pack(mv), nacc.as_ref(), !node.cut_node);
                proof {
                    lemma_one_more_accounted(self.setting(), made, node.ply + 1, self.log@.last(), was, self.stopped);
                    lemma_chain_next(old(self).tables, evals, made, self.log@.last());
                    if !self.stopped {
                        lemma_next_followed(self.setting(), h, made, self.log@.last(), m, mid, self.tt.memory());
                    }
                    made = made.push(self.log@.last());
                    assert(self.log@ =~= log + made);
                }
            }
            let _ = self.cont_stack.pop();
            let _ = self.path.pop();
            assert(self.cont_stack@ =~= old(self).cont_stack@);
            assert(self.path@ =~= old(self).path@);
            proof {
                assert(made_since(log, self.log@) =~= made);
                lemma_short(board@, *node, cands@, earlier, made, i as int, old(self).path@, old(self).cont_stack@);
                lemma_raised_count(earlier, made, pc_beta as int, i as int);
                assert(raised_count(made, pc_beta as int, i + 1) == made.len());
                assert(raised_score(made, pc_beta as int, i as int) == v);
                assert(raised_at(
                    board@,
                    *node,
                    cands@[i as int].mv,
                    made,
                    i as int,
                    old(self).path@,
                    old(self).cont_stack@,
                )) by {
                    reveal(raised_at);
                }
            }
            if self.stopped {
                self.pc_buf[node.ply as usize] = cands;
                return Some(0);
            }
            if v >= pc_beta {
                self.pc_buf[node.ply as usize] = cands;
                return Some(v);
            }
            proof {
                lemma_one_more_short(board@, *node, cands@, made, i as int, old(self).path@, old(self).cont_stack@);
            }
            i = i + 1;
        }
        self.pc_buf[node.ply as usize] = cands;
        None
    }

    /// By how much a move's search is reduced.
    fn move_reduction(&mut self, board: &Position, node: &Node, x: &Ranked, number: usize, is_quiet: bool, is_capture: bool) -> (r: i32)
        requires
            old(self).wf(),
            wf(board@),
            node.wf(),
            nranked(board@, *x),
        ensures
            final(self).wf(),
            *final(self) == (Searcher { counters: final(self).counters, ..*old(self) }),
            0 <= r <= 132,
            r == old(self).reduction_for(board@, *node, *x, number as int, is_quiet, is_capture),
    {
        if !(node.depth >= 3 && number >= 3 && (is_quiet || is_capture) && !node.in_check) {
            return 0;
        }
        proof {
            lemma_mover(board@, x.mv);
        }
        let h: i32 = history_of(&self.tables, board, &node.preds, x.mv, tag::piece(x.tag) as u8);
        let d: usize = if node.depth > 63 {
            63
        } else {
            node.depth as usize
        };
        let m: usize = if number > 63 {
            63
        } else {
            number
        };
        let base: i8 = self.lmr[64 * d + m];
        let r: i32 = reduction(&self.params, base, is_quiet, node.is_pv, node.improving, node.cut_node, h);
        match &mut self.counters {
            Some(c) => {
                record(c, h);
            },
            None => {},
        }
        r
    }

    /// What a cutoff teaches: killers, countermoves and histories.
    fn learn_cutoff(&mut self, board: &Position, node: &Node, x: &Ranked, number: usize, is_quiet: bool, is_capture: bool, quiets: &Vec<(Move, u16)>, caps: &Vec<Ranked>)
        requires
            old(self).wf(),
            wf(board@),
            node.wf(),
            nranked(board@, *x),
            is_quiet == quiet(*x),
            is_capture == tag_bit(x.tag, 3),
            tried_ok(quiets@),
            forall|k: int| 0 <= k < caps@.len() ==> capture_tag_ok(#[trigger] caps@[k]),
        ensures
            final(self).wf(),
            *final(self) == (Searcher { counters: final(self).counters, tables: final(self).tables, ..*old(self) }),
            cutoff_teaches(
                old(self).params,
                board@,
                *node,
                *x,
                quiets@,
                caps@,
                old(self).tables,
                final(self).tables,
            ),
    {
        match &mut self.counters {
            Some(c) => {
                record_cutoff(c, number, x.score, x.tag);
            },
            None => {},
        }
        proof {
            lemma_mover(board@, x.mv);
            reveal(cutoff_teaches);
        }
        let stm: u8 = board.side_to_move();
        let bonus: i32 = hist_bonus(&self.params, node.depth);
        if is_quiet {
            let ci: usize = tag::piece(x.tag) * 64 + x.mv.to as usize;
            self.tables.quiet_cutoff(
                node.ply as usize,
                stm,
                x.mv,
                pack(x.mv),
                node.prev,
                &node.preds,
                ci,
                quiets,
                bonus,
            );
        }
        let cut: Option<Ranked> = if is_capture {
            Some(*x)
        } else {
            None
        };
        capture_cutoff(&mut self.tables, stm, cut, caps, bonus);
    }

    /// Plays a move and searches the position after it.
    #[verifier::rlimit(60)]
    fn visit(&mut self, board: &Position, node: &Node, x: &Ranked, number: usize, is_quiet: bool, is_capture: bool, a: i32, acc: Option<&Acc>) -> (sc: i32)
        requires
            old(self).wf(),
            wf(board@),
            node.wf(),
            nranked(board@, *x),
            acc_ok(old(self).net, acc, board@),
            node.alpha <= a < node.beta,
        ensures
            final(self).wf(),
            final(self).keeps(old(self)),
            final(self).root_best == old(self).root_best,
            final(self).log@ == old(self).log@ + made_since(old(self).log@, final(self).log@),
            child_searches(
                made_since(old(self).log@, final(self).log@),
                position_after(board@, x.mv),
                *node,
                number == 0,
                old(self).reduction_for(board@, *node, *x, number as int, is_quiet, is_capture),
                a as int,
                packed(x.mv) as u16,
                old(self).path@.push(node.hash),
                old(self).cont_stack@.push(move_index(board@, x.mv)),
                sc as int,
            ),
            chained(
                old(self).tables,
                old(self).eval_hist@.take(node.ply + 1),
                made_since(old(self).log@, final(self).log@),
            ),
            final(self).tables == tables_end(old(self).tables, made_since(old(self).log@, final(self).log@)),
            final(self).eval_hist@.take(node.ply + 1) == old(self).eval_hist@.take(node.ply + 1),
            all_accounted(
                old(self).setting(),
                made_since(old(self).log@, final(self).log@),
                node.ply + 1,
                final(self).stopped,
            ),
            !final(self).stopped ==> followed(
                old(self).setting(),
                node_height(node.ply as int),
                made_since(old(self).log@, final(self).log@),
                old(self).tt.memory(),
                final(self).tt.memory(),
            ),
            -WINDOW_LIMIT <= sc <= WINDOW_LIMIT,
            !final(self).stopped ==> (sc > a ==> sc <= SCORE_LIMIT),
        decreases MAX_PLY - node.ply, 2int,
    {
        let mv: Move = x.mv;
        proof {
            lemma_mover(board@, mv);
        }
        let red: i32 = self.move_reduction(board, node, x, number, is_quiet, is_capture);
        let ci: u16 = tag::piece(x.tag) as u16 * 64 + mv.to as u16;
        let nb = board.play(mv);
        let nacc = self.follow(board, mv, acc);
        self.path.push(node.hash);
        self.cont_stack.push(ci);
        let sc: i32 = self.search_child(&nb, node, number == 0, red, a, pack(mv), nacc.as_ref());
        let _ = self.cont_stack.pop();
        let _ = self.path.pop();
        assert(self.cont_stack@ =~= old(self).cont_stack@);
        assert(self.path@ =~= old(self).path@);
        sc
    }

    /// Searches the moves of a node in order. Moves that cannot matter are skipped; the first
    /// that reaches beta ends the search. The outcome comes with the scores it is made of.
    #[verifier::rlimit(100)]
    fn search_moves(&mut self, board: &Position, node: &Node, moves: &Vec<Ranked>, acc: Option<&Acc>, quiets: &mut Vec<(Move, u16)>, caps: &mut Vec<Ranked>) -> (r: (Outcome, Ghost<Seq<Visit>>))
        requires
            old(self).wf(),
            wf(board@),
            node.wf(),
            all_nranked(board@, moves@),
            acc_ok(old(self).net, acc, board@),
            !old(self).stopped,
        ensures
            final(self).wf(),
            final(self).keeps(old(self)),
            node.ply > 0 ==> final(self).root_best == old(self).root_best,
            root_move_ok(board@, old(self).root_best, final(self).root_best),
            -INF <= r.0.best <= WINDOW_LIMIT,
            !final(self).stopped ==> (r.0.best > node.alpha ==> r.0.best <= SCORE_LIMIT),
            !final(self).stopped ==> goes_through(board@, old(self).params, *node, moves@, scores_of(r.1@)) && r.0 == outcome_of(
                *node,
                moves@,
                scores_of(r.1@),
                r.1@.len() as int,
            ),
            final(self).stopped ==> r.1@.len() < moves@.len(),
            !final(self).stopped ==> followed(
                old(self).setting(),
                node_height(node.ply as int),
                searches_of(r.1@, r.1@.len() as int),
                old(self).tt.memory(),
                final(self).tt.memory(),
            ),
            in_order(board@, old(self).params, *node, moves@, scores_of(r.1@)),
            all_visited(old(self).setting(), old(self).place(board@), *node, moves@, r.1@),
            visits_accounted(old(self).setting(), r.1@, node.ply + 1),
            visits_chained(old(self).tables, old(self).eval_hist@.take(node.ply + 1), r.1@),
            node.ply == 0 ==> final(self).root_best == ({
                let out = outcome_of(*node, moves@, scores_of(r.1@), r.1@.len() as int);
                if out.best > -INF {
                    out.best_mv
                } else {
                    old(self).root_best
                }
            }),
            !final(self).stopped ==> loop_teaches(
                old(self).params,
                board@,
                *node,
                moves@,
                r.1@,
                old(self).tables,
                final(self).tables,
            ),
            final(self).eval_hist@.take(node.ply + 1) == old(self).eval_hist@.take(node.ply + 1),
            !final(self).stopped && r.0.best > -INF && node.ply == 0 ==> final(self).root_best == r.0.best_mv && root_move_set(
                board@,
                final(self).root_best,
            ),
        decreases MAX_PLY - node.ply, 3int,
    {
        quiets.clear();
        caps.clear();
        let mut a: i32 = node.alpha;
        let mut out = Outcome { best: -INF, best_mv: 0, best_is_capture: false, bound: BOUND_UPPER };
        let n: usize = moves.len();
        let mut i: usize = 0;
        let mut done: bool = false;
        let ghost mut scores: Seq<Option<i32>> = Seq::empty();
        let ghost mut visits: Seq<Visit> = Seq::empty();
        let ghost at = self.place(board@);
        let ghost evals = self.eval_hist@.take(node.ply + 1);
        let ghost from = self.tables;
        let ghost m = self.tt.memory();
        let ghost h = node_height(node.ply as int);
        assert(scores_of(visits) =~= scores);
        proof {
            lemma_none_followed(self.setting(), h, m);
        }
        while i < n && !done
            invariant
                m == old(self).tt.memory(),
                h == node_height(node.ply as int),
                followed(old(self).setting(), h, searches_of(visits, visits.len() as int), m, self.tt.memory()),
                i <= n,
                n == moves@.len(),
                wf(board@),
                node.wf(),
                all_nranked(board@, moves@),
                self.wf(),
                self.keeps(old(self)),
                !self.stopped,
                acc_ok(self.net, acc, board@),
                node.ply > 0 ==> self.root_best == old(self).root_best,
                root_move_ok(board@, old(self).root_best, self.root_best),
                tried_ok(quiets@),
                forall|k: int| 0 <= k < caps@.len() ==> capture_tag_ok(#[trigger] caps@[k]),
                node.alpha <= a <= WINDOW_LIMIT,
                -INF <= out.best <= WINDOW_LIMIT,
                a > node.alpha ==> out.best == a && a <= SCORE_LIMIT,
                out.best > -INF && node.ply == 0 ==> self.root_best == out.best_mv && root_move_set(
                    board@,
                    self.root_best,
                ),
                out.best <= -INF && node.ply == 0 ==> self.root_best == old(self).root_best,
                !done ==> a < node.beta,
                out.best > node.alpha ==> out.best <= SCORE_LIMIT,
                scores.len() == i,
                out == outcome_of(*node, moves@, scores, i as int),
                a == raised(node.alpha as int, out.best as int),
                quiets@.len() == quiets_searched(moves@, scores, i as int) || done,
                done ==> cut_off(*node, out),
                in_order(board@, self.params, *node, moves@, scores),
                scores == scores_of(visits),
                visits.len() == i,
                at == old(self).place(board@),
                all_visited(old(self).setting(), at, *node, moves@, visits),
                visits_accounted(old(self).setting(), visits, node.ply + 1),
                evals == old(self).eval_hist@.take(node.ply + 1),
                self.eval_hist@.take(node.ply + 1) == evals,
                from == old(self).tables,
                visits_chained(from, evals, visits),
                !done ==> self.tables == tables_after(from, visits, i as int),
                done ==> loop_teaches(self.params, board@, *node, moves@, visits, from, self.tables),
                !done ==> !cut_off(*node, out),
                !done ==> quiets@ == quiets_tried(board@, moves@, scores, i as int),
                !done ==> caps@ == captures_tried(moves@, scores, i as int),
            decreases n - i,
        {
            let x: Ranked = moves[i];
            let number: usize = i;
            i = i + 1;
            assert(nranked(board@, moves@[number as int]));
            let mv: Move = x.mv;
            proof {
                lemma_mover(board@, mv);
            }
            let moved: u8 = tag::piece(x.tag) as u8;
            let is_capture: bool = tag::is_capture(x.tag);
            let is_quiet: bool = !is_capture && mv.promotion.is_none();
            if skips(board, &self.params, node, moves, number, &out, quiets.len(), Ghost(scores)) {
                proof {
                    lemma_next(board@, self.params, *node, moves@, scores, None);
                    scores = scores.push(None);
                    let v = Visit { tables: self.tables, score: None, searches: Seq::empty() };
                    reveal(visited_as);
                    lemma_visited_next(old(self).setting(), at, *node, moves@, visits, v);
                    lemma_none_accounted(old(self).setting(), v.searches, node.ply + 1, false);
                    lemma_chain_none(v.tables, evals, v.searches);
                    lemma_visits_chain_next(from, evals, visits, v);
                    lemma_tried_prefix(board@, moves@, scores_of(visits), scores, number as int);
                    lemma_searches_next(visits, v);
                    assert(searches_of(visits, visits.len() as int) + v.searches =~= searches_of(visits, visits.len() as int));
                    visits = visits.push(v);
                }
                continue ;
            }
            let ci: u16 = moved as u16 * 64 + mv.to as u16;
            let ghost log = self.log@;
            let ghost tables = self.tables;
            let ghost mid = self.tt.memory();
            let sc: i32 = self.visit(board, node, &x, number, is_quiet, is_capture, a, acc);
            if self.stopped {
                if sc > out.best {
                    out.best = sc;
                }
                return (out, Ghost(visits));
            }
            proof {
                lemma_next(board@, self.params, *node, moves@, scores, Some(sc));
                scores = scores.push(Some(sc));
                let v = Visit { tables, score: Some(sc), searches: made_since(log, self.log@) };
                assert(visited_as(old(self).setting(), at, *node, moves@[number as int], number as int, out.best as int, v)) by {
                    reveal(visited_as);
                }
                lemma_visited_next(old(self).setting(), at, *node, moves@, visits, v);
                lemma_visits_chain_next(from, evals, visits, v);
                lemma_tried_prefix(board@, moves@, scores_of(visits), scores, number as int);
                lemma_searches_next(visits, v);
                lemma_join_followed(
                    old(self).setting(),
                    h,
                    searches_of(visits, visits.len() as int),
                    v.searches,
                    m,
                    mid,
                    self.tt.memory(),
                );
                visits = visits.push(v);
            }
            if sc > out.best {
                out = Outcome {
                    best: sc,
                    best_mv: pack(mv),
                    best_is_capture: is_capture,
                    bound: bound_for(sc, node.alpha, node.beta),
                };
                if sc > a {
                    a = sc;
                }
                if node.ply == 0 {
                    self.root_best = out.best_mv;
                    assert(legal_moves(board@).contains(mv));
                }
                if sc >= node.beta {
                    self.learn_cutoff(board, node, &x, number, is_quiet, is_capture, quiets, caps);
                    done = true;
                    proof {
                        reveal(loop_teaches);
                    }
                }
            }
            if !done {
                if is_quiet {
                    quiets.push((mv, ci));
                } else if is_capture {
                    caps.push(x);
                }
            }
        }
        proof {
            if !done {
                reveal(loop_teaches);
            }
        }
        (out, Ghost(visits))
    }

    /// Searches all moves of a node and remembers the outcome. A side without moves is mated or
    /// stalemated.
    #[verifier::rlimit(60)]
    fn search_all(&mut self, board: &Position, node: &Node, tt_mv: u16, ci: usize, acc: Option<&Acc>) -> (r: (i32, Ghost<(Seq<Ranked>, Seq<Visit>)>))
        requires
            old(self).wf(),
            wf(board@),
            node.wf(),
            node.in_check == (board@.checkers != 0),
            ci < 32_768,
            ci == corr_bucket(board@.men, board@.side),
            acc_ok(old(self).net, acc, board@),
            !old(self).stopped,
        ensures
            final(self).wf(),
            final(self).keeps(old(self)),
            node.ply > 0 ==> final(self).root_best == old(self).root_best,
            root_move_ok(board@, old(self).root_best, final(self).root_best),
            final(self).eval_hist@.take(node.ply + 1) == old(self).eval_hist@.take(node.ply + 1),
            -WINDOW_LIMIT <= r.0 <= WINDOW_LIMIT,
            legal_moves(board@).len() == 0 ==> !final(self).stopped && r.0 == no_move_score(board@, node.ply as int),
            !final(self).stopped ==> r.0 >= -INF && (r.0 > node.alpha ==> r.0 <= SCORE_LIMIT),
            node.ply == 0 && !final(self).stopped && r.0 > -INF && legal_moves(board@).len() > 0 ==> root_move_set(
                board@,
                final(self).root_best,
            ),
            node.ply == 0 && !final(self).stopped && r.0 > -INF && legal_moves(board@).len() > 0 ==> final(self).root_best
                == outcome_of(*node, r.1@.0, scores_of(r.1@.1), r.1@.1.len() as int).best_mv,
            !final(self).stopped && r.1@.1.len() > 0 ==> ({
                let out = outcome_of(*node, r.1@.0, scores_of(r.1@.1), r.1@.1.len() as int);
                remembers(
                    final(self).tt,
                    node.hash,
                    out.best_mv,
                    stored_score(out.best as int, node.ply as int) as i32,
                    node.depth,
                    out.bound,
                )
            }),
            !final(self).stopped ==> follows_from_moves(
                old(self).setting(),
                old(self).tables,
                old(self).place(board@),
                *node,
                tt_mv,
                acc,
                old(self).eval_hist@.take(node.ply + 1),
                r.1@.0,
                r.1@.1,
                r.0,
                final(self).tables,
            ),
            visits_accounted(old(self).setting(), r.1@.1, node.ply + 1),
            !final(self).stopped ==> moves_followed(
                old(self).setting(),
                *node,
                r.1@.0,
                r.1@.1,
                old(self).tt.memory(),
                final(self).tt.memory(),
            ),
            final(self).stopped ==> goes_part_way(
                old(self).setting(),
                old(self).tables,
                old(self).place(board@),
                *node,
                tt_mv,
                acc,
                old(self).eval_hist@.take(node.ply + 1),
                r.1@.0,
                r.1@.1,
            ),
            node.ply == 0 ==> final(self).root_best == ({
                let out = outcome_of(*node, r.1@.0, scores_of(r.1@.1), r.1@.1.len() as int);
                if out.best > -INF {
                    out.best_mv
                } else {
                    old(self).root_best
                }
            }),
        decreases MAX_PLY - node.ply, 4int,
    {
        let mut moves: Vec<Ranked> = Vec::new();
        std::mem::swap(&mut moves, &mut self.move_buf[node.ply as usize]);
        self.ranked_moves(board, tt_mv, node.ply, node.prev, &node.preds, acc, &mut moves);
        if moves.len() == 0 {
            self.move_buf[node.ply as usize] = moves;
            proof {
                reveal(follows_from_moves);
                reveal(moves_followed);
            }
            let r: i32 = if node.in_check {
                -MATE + node.ply
            } else {
                0
            };
            return (r, Ghost((Seq::empty(), Seq::empty())));
        }
        let mut quiets: Vec<(Move, u16)> = Vec::new();
        std::mem::swap(&mut quiets, &mut self.quiet_buf[node.ply as usize]);
        let mut caps: Vec<Ranked> = Vec::new();
        std::mem::swap(&mut caps, &mut self.capt_buf[node.ply as usize]);
        let ghost order = moves@;
        let (out, Ghost(visits)) = self.search_moves(board, node, &moves, acc, &mut quiets, &mut caps);
        self.move_buf[node.ply as usize] = moves;
        self.quiet_buf[node.ply as usize] = quiets;
        self.capt_buf[node.ply as usize] = caps;
        if self.stopped {
            proof {
                reveal(goes_part_way);
            }
            return (out.best, Ghost((order, visits)));
        }
        let ghost taught = self.tables;
        let ghost before = self.tt;
        self.tt.record(node.hash, out.best_mv, tt_score_to(out.best, node.ply), node.depth, out.bound);
        assert(self.tt.took(
            &before,
            node.hash,
            out.best_mv,
            stored_score(out.best as int, node.ply as int) as i32,
            node.depth,
            out.bound,
        ));
        assert(before.ready());
        if !node.in_check {
            self.tables.update_corr(ci, node.static_eval, out.best, out.bound, node.depth, out.best_is_capture);
        }
        proof {
            reveal(follows_from_moves);
            assert(moves_followed(
                old(self).setting(),
                *node,
                order,
                visits,
                old(self).tt.memory(),
                self.tt.memory(),
            )) by {
                reveal(moves_followed);
                reveal(followed);
            }
            assert(node_teaches(old(self).params, board@, *node, order, visits, old(self).tables, self.tables)) by {
                reveal(node_teaches);
                lemma_loop_keeps_corr(old(self).params, board@, *node, order, visits, old(self).tables, taught);
            }
        }
        (out.best, Ghost((order, visits)))
    }

    /// Searches an interior node of which the table has answered `entry`. Beyond the reach of
    /// mates the window's bound is the result; an answer that is deep enough and decides the
    /// window is the result; an evaluation that stands far enough above beta is the result; a
    /// side in check without moves is mated. Otherwise a null move and captures against a raised
    /// beta may cut the node, and then its moves are searched.
    #[verifier::rlimit(80)]
    pub fn search_node(&mut self, board: &Position, depth: i32, ply: i32, alpha: i32, beta: i32, prev: u16, acc: Option<&Acc>, cut_node: bool, entry: Option<Entry>) -> (r: i32)
        requires
            old(self).wf(),
            wf(board@),
            0 <= ply <= 126,
            1 <= depth <= 129 + ply,
            window_ok(alpha as int, beta as int),
            acc_ok(old(self).net, acc, board@),
            !old(self).stopped,
        ensures
            final(self).wf(),
            final(self).keeps(old(self)),
            ply > 0 ==> final(self).root_best == old(self).root_best,
            root_move_ok(board@, old(self).root_best, final(self).root_best),
            final(self).log@ == old(self).log@.push(final(self).log@.last()),
            answers(
                final(self).log@.last(),
                old(self).main_search(board@, depth, ply, alpha, beta, prev, acc, cut_node),
                r,
                final(self).stopped,
            ),
            final(self).log@.last().entry == entry,
            final(self).log@.last().left == final(self).tables,
            final(self).eval_hist@.take(ply as int) == old(self).eval_hist@.take(ply as int),
            !final(self).stopped ==> node_account(old(self).setting(), final(self).log@.last(), depth as int),
            !final(self).stopped && final(self).log@.last().visits.len() > 0 ==> node_remembered(
                final(self).tt,
                old(self).setting(),
                final(self).log@.last(),
                depth as int,
            ),
            children_accounted(old(self).setting(), final(self).log@.last()),
            final(self).stopped ==> cut_short(old(self).setting(), final(self).log@.last(), depth as int),
            !final(self).stopped ==> node_followed(
                final(self).log@.last(),
                old(self).setting(),
                node_of(old(self).setting(), final(self).log@.last(), depth as int),
                old(self).tt.memory(),
                final(self).tt.memory(),
            ),
            ply == 0 ==> final(self).root_best == root_found(
                old(self).root_best,
                old(self).setting(),
                final(self).log@.last(),
                depth as int,
            ),
            -WINDOW_LIMIT <= r <= WINDOW_LIMIT,
            !final(self).stopped ==> sound(r as int, alpha as int, beta as int),
            match old(self).shortcut(board@, depth as int, ply as int, alpha as int, beta as int, acc, cut_node, entry) {
                Some(v) => r == v && !final(self).stopped,
                None => legal_moves(board@).len() == 0 && (ply == 0 || board@.checkers != 0) ==> !final(self).stopped && r
                    == no_move_score(board@, ply as int),
            },
            ply == 0 && !final(self).stopped && r > -INF && legal_moves(board@).len() > 0 ==> root_move_set(
                board@,
                final(self).root_best,
            ),
            ply == 0 && !final(self).stopped && r > -INF && legal_moves(board@).len() > 0 ==> final(self).root_best == chosen(
                old(self).setting(),
                final(self).log@.last(),
                depth as int,
            ),
        decreases MAX_PLY - ply, 6int,
    {
        let (r, Ghost(g)) = self.node_result(board, depth, ply, alpha, beta, prev, acc, cut_node, entry);
        let ghost x = Searched {
            result: r,
            stopped: self.stopped,
            entry,
            before: g.before,
            ranked_by: g.ranked_by,
            order: g.order,
            visits: g.visits,
            left: self.tables,
            ..old(self).main_search(board@, depth, ply, alpha, beta, prev, acc, cut_node)
        };
        self.log = Ghost(old(self).log@.push(x));
        proof {
            assert(!self.stopped ==> x == work_done(
                old(self).main_search(board@, depth, ply, alpha, beta, prev, acc, cut_node),
                entry,
                g,
                r,
            ));
            lemma_held(acc);
        }
        r
    }

    /// The result of an interior node, with the searches it follows from.
    #[verifier::rlimit(100)]
    fn node_result(&mut self, board: &Position, depth: i32, ply: i32, alpha: i32, beta: i32, prev: u16, acc: Option<&Acc>, cut_node: bool, entry: Option<Entry>) -> (r: (i32, Ghost<Work>))
        requires
            old(self).wf(),
            wf(board@),
            0 <= ply <= 126,
            1 <= depth <= 129 + ply,
            window_ok(alpha as int, beta as int),
            acc_ok(old(self).net, acc, board@),
            !old(self).stopped,
        ensures
            final(self).wf(),
            final(self).keeps(old(self)),
            ply > 0 ==> final(self).root_best == old(self).root_best,
            root_move_ok(board@, old(self).root_best, final(self).root_best),
            !final(self).stopped ==> r.1@.left == final(self).tables,
            final(self).eval_hist@.take(ply as int) == old(self).eval_hist@.take(ply as int),
            !final(self).stopped && r.1@.visits.len() > 0 ==> node_remembered(
                final(self).tt,
                old(self).setting(),
                work_done(
                    old(self).main_search(board@, depth, ply, alpha, beta, prev, acc, cut_node),
                    entry,
                    r.1@,
                    r.0,
                ),
                depth as int,
            ),
            -WINDOW_LIMIT <= r.0 <= WINDOW_LIMIT,
            !final(self).stopped ==> sound(r.0 as int, alpha as int, beta as int),
            !final(self).stopped ==> node_account(
                old(self).setting(),
                work_done(
                    old(self).main_search(board@, depth, ply, alpha, beta, prev, acc, cut_node),
                    entry,
                    r.1@,
                    r.0,
                ),
                depth as int,
            ) && all_accounted(old(self).setting(), r.1@.before, ply + 1, false) && visits_accounted(
                old(self).setting(),
                r.1@.visits,
                ply + 1,
            ),
            ({
                let x = work_done(
                    old(self).main_search(board@, depth, ply, alpha, beta, prev, acc, cut_node),
                    entry,
                    r.1@,
                    r.0,
                );
                &&& final(self).stopped ==> cut_short(old(self).setting(), x, depth as int)
                &&& ply == 0 ==> final(self).root_best == root_found(old(self).root_best, old(self).setting(), x, depth as int)
                &&& !final(self).stopped ==> node_followed(
                    x,
                    old(self).setting(),
                    node_of(old(self).setting(), x, depth as int),
                    old(self).tt.memory(),
                    final(self).tt.memory(),
                )
            }),
            match old(self).shortcut(board@, depth as int, ply as int, alpha as int, beta as int, acc, cut_node, entry) {
                Some(v) => !final(self).stopped,
                None => legal_moves(board@).len() == 0 && (ply == 0 || board@.checkers != 0) ==> !final(self).stopped && r.0
                    == no_move_score(board@, ply as int),
            },
            ply == 0 && !final(self).stopped && r.0 > -INF && legal_moves(board@).len() > 0 ==> root_move_set(
                board@,
                final(self).root_best,
            ),
            ply == 0 && !final(self).stopped && r.0 > -INF && legal_moves(board@).len() > 0 ==> final(self).root_best == chosen(
                old(self).setting(),
                work_done(
                    old(self).main_search(board@, depth, ply, alpha, beta, prev, acc, cut_node),
                    entry,
                    r.1@,
                    r.0,
                ),
                depth as int,
            ),
        decreases MAX_PLY - ply, 5int,
    {
        let ghost x = old(self).main_search(board@, depth, ply, alpha, beta, prev, acc, cut_node);
        let ghost s = old(self).setting();
        let ghost full = depth as int;
        let ghost m = self.tt.memory();
        let ghost h = node_height(ply as int);
        let ghost idle = Work {
            before: Seq::empty(),
            ranked_by: old(self).tables,
            order: Seq::empty(),
            visits: Seq::empty(),
            left: old(self).tables,
        };
        proof {
            lemma_none_followed(s, h, m);
            lemma_held(acc);
            lemma_none_accounted(s, Seq::empty(), ply + 1, false);
            reveal(goes_part_way);
        }
        let mut a: i32 = alpha;
        if ply > 0 {
            let (lo, hi): (i32, i32) = mate_window(alpha, beta, ply);
            if lo >= hi {
                proof {
                    let y = work_done(x, entry, idle, lo);
                    lemma_unstored_followed(y, s, node_of(s, y, full), m, self.tt.memory());
                }
                return (lo, Ghost(idle));
            }
            a = lo;
        }
        let in_check: bool = board.in_check();
        let mut tt_mv: u16 = 0;
        let mut tt_depth: i32 = -1;
        let mut tt_score: i32 = 0;
        let mut tt_bound: u8 = 0;
        match entry {
            Some(e) => {
                tt_mv = e.mv;
                tt_depth = e.depth as i32;
                tt_score = tt_score_from(e.score as i32, ply);
                tt_bound = e.bound;
                if ply > 0 && e.depth as i32 >= depth && tt_cuts(e.bound, tt_score, a, beta) {
                    proof {
                        let y = work_done(x, entry, idle, tt_score);
                        lemma_unstored_followed(y, s, node_of(s, y, full), m, self.tt.memory());
                    }
                    return (tt_score, Ghost(idle));
                }
            },
            None => {},
        }
        let is_pv: bool = beta - a > 1;
        let depth: i32 = iir_depth(depth, tt_mv, cut_node);
        let stm: u8 = board.side_to_move();
        let raw: i32 = self.eval_node(board, acc);
        let ci: usize = corr_index(board, stm);
        let static_eval: i32 = self.tables.corrected_eval_at(ci, raw);
        let improving: bool = !in_check && ply >= 2 && static_eval > self.eval_hist[ply as usize - 2];
        self.eval_hist[ply as usize] = static_eval;
        let ghost evals = self.eval_hist@.take(ply + 1);
        proof {
            assert(self.eval_hist@.take(ply as int) =~= old(self).eval_hist@.take(ply as int));
            assert(evals =~= old(self).eval_hist@.take(ply as int).push(static_eval));
            assert(evals.take(ply as int) =~= old(self).eval_hist@.take(ply as int));
            lemma_chain_none(old(self).tables, evals, Seq::empty());
        }
        if reverse_futility(&self.params, in_check, ply, depth, improving, static_eval, beta) {
            proof {
                let y = work_done(x, entry, idle, static_eval);
                lemma_unstored_followed(y, s, node_of(s, y, full), m, self.tt.memory());
            }
            return (static_eval, Ghost(idle));
        }
        let node = Node {
            hash: board.hash(),
            depth,
            ply,
            alpha: a,
            beta,
            prev,
            is_pv,
            in_check,
            improving,
            cut_node,
            static_eval,
            preds: cont_preds(&self.cont_stack),
        };
        assert(node == node_of(s, Searched { entry, ..x }, full));
        let ghost log = self.log@;
        let ghost mut w = idle;
        let ghost passes = may_pass(board@, node);
        match self.try_null(board, &node, acc) {
            Some(v) => {
                proof {
                    w = Work { before: made_since(log, self.log@), ranked_by: self.tables, left: self.tables, ..w };
                    reveal(inner_account);
                    if !self.stopped {
                        let y = work_done(x, entry, w, v);
                        lemma_unstored_followed(y, s, node_of(s, y, full), m, self.tt.memory());
                    }
                    lemma_evals(self.eval_hist@, old(self).eval_hist@, evals, ply as int);
                }
                return (v, Ghost(w));
            },
            None => {},
        }
        let ghost passed: Seq<Searched> = if passes {
            made_since(log, self.log@)
        } else {
            Seq::empty()
        };
        proof {
            w = Work { before: passed, ranked_by: self.tables, ..w };
            lemma_evals(self.eval_hist@, old(self).eval_hist@, evals, ply as int);
            assert(passed.skip(
                if passes {
                    1
                } else {
                    0
                },
            ) =~= Seq::empty());
        }
        if probcut(is_pv, in_check, ply, depth, beta, tt_depth, tt_score, tt_bound) {
            let ghost before = self.log@;
            let ghost mid = self.tt.memory();
            let cut: Option<i32> = self.try_probcut(board, &node, acc);
            let ghost rest = made_since(before, self.log@);
            proof {
                w = Work { before: passed + rest, ranked_by: self.tables, left: self.tables, ..w };
                lemma_chain_join(old(self).tables, evals, passed, rest);
                lemma_evals(self.eval_hist@, old(self).eval_hist@, evals, ply as int);
                assert((passed + rest).skip(passed.len() as int) =~= rest);
                lemma_joined_accounted(s, passed, rest, ply + 1);
                if !self.stopped {
                    lemma_join_followed(s, h, passed, rest, m, mid, self.tt.memory());
                }
            }
            match cut {
                Some(v) => {
                    proof {
                        reveal(inner_account);
                        if !self.stopped {
                            let y = work_done(x, entry, w, v);
                            lemma_unstored_followed(y, s, node_of(s, y, full), m, self.tt.memory());
                        }
                    }
                    return (v, Ghost(w));
                },
                None => {},
            }
        }
        proof {
            w = Work { ranked_by: self.tables, ..w };
        }
        let ghost mid = self.tt.memory();
        assert(followed(s, h, w.before, m, mid));
        let (r, Ghost(g)) = self.search_all(board, &node, tt_mv, ci, acc);
        proof {
            w = Work { order: g.0, visits: g.1, left: self.tables, ..w };
            assert(node_of(s, work_done(x, entry, w, r), full) == node);
            if !self.stopped {
                lemma_moves_followed(work_done(x, entry, w, r), s, node, m, mid, self.tt.memory());
            }
            lemma_evals(self.eval_hist@, old(self).eval_hist@, evals, ply as int);
            reveal(inner_account);
        }
        (r, Ghost(w))
    }

    /// Searches a position to `depth` plies within a window. A stopped search answers zero at
    /// once. A position below the root that is drawn by fifty moves or repetition is worth nothing.
    /// A side without moves is mated or stalemated.
    #[verifier::rlimit(60)]
    pub fn negamax(&mut self, board: &Position, depth: i32, ply: i32, alpha: i32, beta: i32, prev: u16, acc: Option<&Acc>, cut_node: bool) -> (r: i32)
        requires
            old(self).can_search(board@, depth as int, ply as int, alpha as int, beta as int, acc),
        ensures
            final(self).wf(),
            final(self).keeps(old(self)),
            ply > 0 ==> final(self).root_best == old(self).root_best,
            root_move_ok(board@, old(self).root_best, final(self).root_best),
            -WINDOW_LIMIT <= r <= WINDOW_LIMIT,
            !final(self).stopped ==> sound(r as int, alpha as int, beta as int),
            final(self).log@ == old(self).log@.push(final(self).log@.last()),
            answers(
                final(self).log@.last(),
                old(self).main_search(board@, depth, ply, alpha, beta, prev, acc, cut_node),
                r,
                final(self).stopped,
            ),
            accounted(old(self).setting(), final(self).log@.last()),
            final(self).log@.last().left == final(self).tables,
            final(self).eval_hist@.take(ply as int) == old(self).eval_hist@.take(ply as int),
            !final(self).stopped && final(self).log@.last().visits.len() > 0 ==> node_remembered(
                final(self).tt,
                old(self).setting(),
                final(self).log@.last(),
                extended(board@, depth as int),
            ),
            !final(self).stopped ==> one_followed(
                old(self).setting(),
                final(self).log@.last(),
                old(self).tt.memory(),
                final(self).tt.memory(),
            ),
            old(self).stopped ==> r == 0 && *final(self) == (Searcher { log: final(self).log, ..*old(self) }),
            final(self).stopped && final(self).visited@ == old(self).visited@ ==> r == 0,
            !old(self).stopped && old(self).nodes % 2048 == 0 && old(self).polls@.len() == 0 ==> final(self).polls@.len() > 0 && (stops(
                final(self).polls@[0],
                old(self).max_nodes,
                old(self).hard_ms,
            ) ==> r == 0 && final(self).stopped && *final(self) == (Searcher {
                log: final(self).log,
                polls: final(self).polls,
                stopped: true,
                ..*old(self)
            })),
            drawn_node(board@, ply as int, old(self).game_hist@, old(self).path@) ==> r == 0 && *final(self) == (Searcher {
                nodes: final(self).nodes,
                log: final(self).log,
                polls: final(self).polls,
                visited: final(self).visited,
                stopped: final(self).stopped,
                ..*old(self)
            }) && final(self).nodes == if final(self).stopped {
                old(self).nodes as int
            } else {
                (old(self).nodes + 1) % 0x1_0000_0000_0000_0000
            },
            !final(self).stopped && !drawn_node(board@, ply as int, old(self).game_hist@, old(self).path@) && ply < 127 && extended(
                board@,
                depth as int,
            ) >= 1 ==> ({
                let entry = final(self).log@.last().entry;
                &&& old(self).tt.may_answer(board@.hash, entry)
                &&& match old(self).shortcut(
                    board@,
                    extended(board@, depth as int),
                    ply as int,
                    alpha as int,
                    beta as int,
                    acc,
                    cut_node,
                    entry,
                ) {
                    Some(v) => r == v,
                    None => legal_moves(board@).len() == 0 && (ply == 0 || board@.checkers != 0) ==> r == no_move_score(
                        board@,
                        ply as int,
                    ),
                }
            }),
            ply == 0 && depth >= 1 ==> {
                let x = final(self).log@.last();
                &&& final(self).stopped ==> cut_short(old(self).setting(), x, extended(board@, depth as int))
                &&& final(self).root_best == root_found(
                    old(self).root_best,
                    old(self).setting(),
                    x,
                    extended(board@, depth as int),
                )
            },
            !final(self).stopped && ply == 0 && depth >= 1 ==> if legal_moves(board@).len() == 0 {
                r == no_move_score(board@, 0)
            } else {
                r > -INF ==> root_move_set(board@, final(self).root_best) && final(self).root_best == chosen(
                    old(self).setting(),
                    final(self).log@.last(),
                    extended(board@, depth as int),
                )
            },
        decreases MAX_PLY - ply, 7int,
    {
        let ghost of = old(self).main_search(board@, depth, ply, alpha, beta, prev, acc, cut_node);
        let ghost s = old(self).setting();
        proof {
            lemma_held(acc);
            lemma_none_accounted(s, Seq::empty(), ply + 1, false);
        }
        let ghost m = self.tt.memory();
        if self.check_stop() {
            let ghost x = Searched { result: 0, stopped: true, ..of };
            self.log = Ghost(old(self).log@.push(x));
            proof {
                lemma_accounted(s, x, ply + 1);
                reveal(goes_part_way);
            }
            return 0;
        }
        let half: u8 = board.halfmove_clock();
        if ply > 0 {
            if half >= 100 || is_repetition(&self.game_hist, &self.path, board.hash(), half) {
                self.count_node();
                let ghost x = Searched { result: 0, ..of };
                self.log = Ghost(old(self).log@.push(x));
                proof {
                    lemma_leaf_accounted(s, x, ply + 1);
                    lemma_none_followed(s, node_height(ply as int), m);
                    lemma_unstored_followed(x, s, node_of(s, x, extended(x.position, x.depth as int)), m, m);
                    lemma_node_followed(s, x, m, m);
                }
                return 0;
            }
        }
        let deeper: i32 = if board.in_check() {
            depth + 1
        } else {
            depth
        };
        if deeper <= 0 {
            let r: i32 = self.qsearch(board, ply, alpha, beta, acc);
            let ghost y = self.log@.last();
            let ghost x = Searched { result: r, stopped: self.stopped, before: Seq::empty().push(y), ..of };
            self.log = Ghost(old(self).log@.push(x));
            proof {
                lemma_quiet_leaf_accounted(s, x, y);
                if !self.stopped {
                    let h = node_height(ply as int);
                    lemma_quiet_followed(s, y, m, self.tt.memory());
                    lemma_none_followed(s, h, m);
                    lemma_next_followed(s, h, Seq::empty(), y, m, m, self.tt.memory());
                    lemma_unstored_followed(
                        x,
                        s,
                        node_of(s, x, extended(x.position, x.depth as int)),
                        m,
                        self.tt.memory(),
                    );
                    lemma_node_followed(s, x, m, self.tt.memory());
                }
            }
            return r;
        }
        self.count_node();
        if ply >= 127 {
            let r: i32 = self.eval_node(board, acc);
            let ghost x = Searched { result: r, ..of };
            self.log = Ghost(old(self).log@.push(x));
            proof {
                lemma_leaf_accounted(s, x, ply + 1);
                lemma_none_followed(s, node_height(ply as int), m);
                lemma_unstored_followed(x, s, node_of(s, x, extended(x.position, x.depth as int)), m, m);
                lemma_node_followed(s, x, m, m);
            }
            return r;
        }
        let entry: Option<Entry> = self.tt.lookup(board.hash());
        let r: i32 = self.search_node(board, deeper, ply, alpha, beta, prev, acc, cut_node, entry);
        let ghost y = self.log@.last();
        let ghost x = Searched { depth, ..y };
        self.log = Ghost(old(self).log@.push(x));
        proof {
            lemma_node_accounted(s, x, y, deeper as int);
            if !self.stopped {
                assert(node_of(s, x, deeper as int) == node_of(s, y, deeper as int));
                lemma_same_node_followed(x, y, s, node_of(s, y, deeper as int), m, self.tt.memory());
                lemma_node_followed(s, x, m, self.tt.memory());
            }
        }
        r
    }
}

/// Score of a side that has no move: mated in check, stalemated otherwise.
pub open spec fn no_move_score(p: PosView, ply: int) -> int {
    if p.checkers != 0 {
        -MATE + ply
    } else {
        0
    }
}

/// A node settles on a move that was searched, and on the first of those with the best score.
pub proof fn law_first_best_score_wins(node: Node, moves: Seq<Ranked>, scores: Seq<Option<i32>>, n: int)
    requires
        0 <= n <= scores.len() <= moves.len(),
    ensures
        forall|k: int|
            0 <= k < n && #[trigger] scores[k] is Some ==> scores[k]->0 <= outcome_of(node, moves, scores, n).best,
        outcome_of(node, moves, scores, n).best > -INF ==> exists|k: int|
            0 <= k < n && #[trigger] scores[k] == Some(outcome_of(node, moves, scores, n).best) && outcome_of(
                node,
                moves,
                scores,
                n,
            ).best_mv == packed(moves[k].mv) as u16 && forall|j: int|
                0 <= j < k && #[trigger] scores[j] is Some ==> scores[j]->0 < scores[k]->0,
    decreases n,
{
    if n > 0 {
        law_first_best_score_wins(node, moves, scores, n - 1);
        let before = outcome_of(node, moves, scores, n - 1);
        let after = outcome_of(node, moves, scores, n);
        if scores[n - 1] is Some && scores[n - 1]->0 > before.best {
            assert(scores[n - 1] == Some(after.best));
        }
    }
}

/// Decides whether the loop skips a move.
fn skips(board: &Position, params: &Params, node: &Node, moves: &Vec<Ranked>, k: usize, out: &Outcome, tried: usize, Ghost(scores): Ghost<Seq<Option<i32>>>) -> (r: bool)
    requires
        wf(board@),
        params_ok(*params),
        node.wf(),
        k < moves@.len(),
        nranked(board@, moves@[k as int]),
        *out == outcome_of(*node, moves@, scores, k as int),
        tried == quiets_searched(moves@, scores, k as int),
    ensures
        r == passed_over(board@, *params, *node, moves@, scores, k as int),
{
    let x: Ranked = moves[k];
    proof {
        reveal(passed_over);
        lemma_mover(board@, x.mv);
    }
    let is_capture: bool = tag::is_capture(x.tag);
    let a: i32 = if out.best > node.alpha && out.best > -INF {
        out.best
    } else {
        node.alpha
    };
    skip_move(
        board,
        x.mv,
        tag::piece(x.tag) as u8,
        node.is_pv,
        node.in_check,
        out.best,
        !is_capture && x.mv.promotion.is_none(),
        is_capture && tag::see_winning(x.tag),
        node.depth,
        tried,
        lmp_limit(params, node.depth, node.improving),
        node.static_eval,
        a,
    )
}

/// What the loop comes to depends on the scores that went into it alone.
pub proof fn lemma_prefix(p: PosView, params: Params, node: Node, moves: Seq<Ranked>, a: Seq<Option<i32>>, b: Seq<Option<i32>>, n: int)
    requires
        0 <= n <= a.len() <= b.len(),
        forall|k: int| 0 <= k < n ==> a[k] == b[k],
    ensures
        outcome_of(node, moves, a, n) == outcome_of(node, moves, b, n),
        quiets_searched(moves, a, n) == quiets_searched(moves, b, n),
        passed_over(p, params, node, moves, a, n) == passed_over(p, params, node, moves, b, n),
    decreases n,
{
    reveal(passed_over);
    if n > 0 {
        lemma_prefix(p, params, node, moves, a, b, n - 1);
    }
}

/// One move more.
proof fn lemma_next(p: PosView, params: Params, node: Node, moves: Seq<Ranked>, scores: Seq<Option<i32>>, next: Option<i32>)
    requires
        scores.len() < moves.len(),
        in_order(p, params, node, moves, scores),
        !cut_off(node, outcome_of(node, moves, scores, scores.len() as int)),
        next is None <==> passed_over(p, params, node, moves, scores, scores.len() as int),
    ensures
        in_order(p, params, node, moves, scores.push(next)),
        outcome_of(node, moves, scores.push(next), scores.len() as int + 1) == match next {
            Some(sc) => improved(outcome_of(node, moves, scores, scores.len() as int), node, moves[scores.len() as int], sc),
            None => outcome_of(node, moves, scores, scores.len() as int),
        },
        quiets_searched(moves, scores.push(next), scores.len() as int + 1) == quiets_searched(moves, scores, scores.len() as int)
            + if next is Some && quiet(moves[scores.len() as int]) {
            1int
        } else {
            0
        },
{
    let all = scores.push(next);
    lemma_prefix(p, params, node, moves, scores, all, scores.len() as int);
    assert forall|k: int| 0 <= k < all.len() implies #[trigger] done_at(p, params, node, moves, all, k) by {
        assert(k < scores.len() ==> done_at(p, params, node, moves, scores, k));
        reveal(done_at);
        lemma_prefix(p, params, node, moves, scores, all, k);
    }
}

/// The mover of a legal move is a piece, and so is its victim.
proof fn lemma_mover(p: PosView, m: Move)
    requires
        wf(p),
        legal_shape(p, m),
    ensures
        mover(p, m) < 6,
        m.from < 64,
        m.to < 64,
        taken_by(p, m) matches Some(v) ==> v < 6,
{
    assert(p.men[m.from as int] is Some);
    assert(p.men[m.to as int] matches Some(man) ==> man.0 < 6);
}

proof fn lemma_ranked(x: Ranked, t: Tables, p: PosView, m: Move, tt_mv: u16, lg: Option<i32>, ply: int, prev: u16, preds: Preds)
    requires
        wf(p),
        legal_moves(p).contains(m),
        legal_shape(p, m),
        ranked_as(
            x,
            t,
            p,
            m,
            tt_mv,
            match lg {
                Some(l) => Some(l as int),
                None => None,
            },
            ply,
            prev,
            preds,
        ),
    ensures
        nranked(p, x),
{
    let o = order_of(
        p,
        m,
        tt_mv,
        match lg {
            Some(l) => Some(l as int),
            None => None,
        },
        t.killers@[ply],
        counter_to(t.counter@, p.side, prev),
        capture_history(t, p, m),
        quiet_history(t, p, preds, m),
    );
    assert(p.men[m.from as int] is Some);
    assert(taken_by(p, m) matches Some(v) ==> v < 6) by {
        assert(p.men[m.to as int] matches Some(man) ==> man.0 < 6);
    }
    law_tag_reads_back(x.tag, mover(p, m), taken_by(p, m), order_wins(p, m, tt_mv), o.1);
}

// ---------------- laws ----------------
/// The turn is passed only out of check, below the root, three plies or more from the horizon, where
/// the side to move already stands at beta and has more than its king and pawns.
pub proof fn law_passing_needs_a_piece(p: PosView, node: Node, s: int)
    ensures
        node.in_check || node.ply <= 0 || node.depth < 3 || node.static_eval < node.beta ==> !may_pass(p, node),
        (forall|s: int| 0 <= s < 64 && colour_at(p.men, s) == p.side ==> piece_at(p.men, s) == 0 || #[trigger] piece_at(p.men, s) >= 5)
            ==> !may_pass(p, node),
        !node.in_check && node.ply > 0 && node.depth >= 3 && node.static_eval >= node.beta && 0 <= s < 64 && colour_at(p.men, s)
            == p.side && 1 <= piece_at(p.men, s) <= 4 && p.side < 2 ==> may_pass(p, node),
{
    if !node.in_check && node.ply > 0 && node.depth >= 3 && node.static_eval >= node.beta && 0 <= s < 64 && colour_at(p.men, s)
        == p.side && 1 <= piece_at(p.men, s) <= 4 && p.side < 2 {
        assert(heavy_at(p.men, p.side, s));
    }
    if may_pass(p, node) {
        let o = choose|o: int| 0 <= o < 64 && heavy_at(p.men, p.side, o);
        assert(colour_at(p.men, o) == p.side);
        assert(1 <= piece_at(p.men, o) <= 4);
    }
}

/// A move that raises alpha has been searched to its full depth, and one that lands inside the window
/// with the whole window. Every search of it looks at the position after it from the other side, with
/// alpha as its bound; the first is reduced and asks only whether the move beats alpha, unless the
/// move is the node's first.
pub proof fn law_better_moves_are_searched_in_full(
    v: Seq<Searched>,
    p: PosView,
    node: Node,
    first: bool,
    r: int,
    a: int,
    pk: u16,
    path: Seq<u64>,
    cont: Seq<u16>,
    score: int,
)
    requires
        child_searches(v, p, node, first, r, a, pk, path, cont, score),
        r >= 0,
        a < node.beta,
    ensures
        1 <= v.len() <= 3,
        score == -v.last().result,
        forall|i: int|
            0 <= i < v.len() ==> {
                &&& (#[trigger] v[i]).position == p
                &&& v[i].ply == node.ply + 1
                &&& v[i].beta == -a
                &&& !v[i].quiet
                &&& v[i].prev == pk
                &&& v[i].depth <= node.depth - 1
            },
        score > a ==> v.last().depth == node.depth - 1,
        a < score < node.beta ==> v.last().alpha == -node.beta,
        first ==> v.len() == 1 && v[0].depth == node.depth - 1 && v[0].alpha == -node.beta,
        !first ==> v[0].depth == node.depth - 1 - r && v[0].alpha == v[0].beta - 1 && v[0].cut_node,
        first && node.is_pv ==> !v[0].cut_node,
        first && !node.is_pv ==> v[0].cut_node != node.cut_node,
        v.len() == 3 ==> !v.last().cut_node && v[1].alpha == -a - 1 && v[1].depth == node.depth - 1,
        r == 0 ==> v.len() <= 2,
        !first && v.len() >= 2 ==> -v[0].result > a,
{
}

/// The captures that are tried against the raised bound are the legal captures that win what is
/// needed, and no others.
pub proof fn law_raised_bound_is_tried_by_winning_captures(p: PosView, need: int, n: int, k: int, i: int)
    requires
        0 <= n <= legal_moves(p).len(),
        0 <= k < probcut_list(p, need, n).len(),
        0 <= i < n,
    ensures
        ({
            let x = probcut_list(p, need, n)[k].mv;
            &&& legal_moves(p).contains(x)
            &&& colour_at(p.men, x.to as int) == opposite(p.side)
            &&& see_of(p, x, mover(p, x)) >= need
        }),
        ({
            let m = legal_moves(p)[i];
            colour_at(p.men, m.to as int) == opposite(p.side) && see_of(p, m, mover(p, m)) >= need ==> exists|j: int|
                0 <= j < probcut_list(p, need, n).len() && (#[trigger] probcut_list(p, need, n)[j]).mv == m
        }),
{
    lemma_probcut_listed(p, need, n, k);
    let m = legal_moves(p)[i];
    if colour_at(p.men, m.to as int) == opposite(p.side) && see_of(p, m, mover(p, m)) >= need {
        lemma_probcut_lists(p, need, n, i);
    }
}

proof fn lemma_probcut_listed(p: PosView, need: int, n: int, k: int)
    requires
        0 <= n <= legal_moves(p).len(),
        0 <= k < probcut_list(p, need, n).len(),
    ensures
        ({
            let x = probcut_list(p, need, n)[k].mv;
            &&& legal_moves(p).contains(x)
            &&& colour_at(p.men, x.to as int) == opposite(p.side)
            &&& see_of(p, x, mover(p, x)) >= need
        }),
    decreases n,
{
    if n > 0 {
        let before = probcut_list(p, need, n - 1);
        if k < before.len() {
            lemma_probcut_listed(p, need, n - 1, k);
        } else {
            assert(legal_moves(p).contains(legal_moves(p)[n - 1]));
        }
    }
}

proof fn lemma_probcut_lists(p: PosView, need: int, n: int, i: int)
    requires
        0 <= i < n <= legal_moves(p).len(),
        colour_at(p.men, legal_moves(p)[i].to as int) == opposite(p.side),
        see_of(p, legal_moves(p)[i], mover(p, legal_moves(p)[i])) >= need,
    ensures
        exists|j: int|
            0 <= j < probcut_list(p, need, n).len() && (#[trigger] probcut_list(p, need, n)[j]).mv == legal_moves(p)[i],
    decreases n,
{
    let before = probcut_list(p, need, n - 1);
    let after = probcut_list(p, need, n);
    if i == n - 1 {
        assert(after[before.len() as int].mv == legal_moves(p)[i]);
    } else {
        lemma_probcut_lists(p, need, n - 1, i);
        let j = choose|j: int| 0 <= j < before.len() && (#[trigger] before[j]).mv == legal_moves(p)[i];
        assert(after[j] == before[j]);
    }
}

/// A capture that is tried against the raised bound is searched two pawns above beta: first for quiet,
/// and where that holds, four plies less deep.
pub proof fn law_raised_bound_lies_two_pawns_above_beta(p: PosView, node: Node, m: Move, v: Seq<Searched>, i: int, path: Seq<u64>, cont: Seq<u16>)
    requires
        raised_at(p, node, m, v, i, path, cont),
        0 <= i,
    ensures
        ({
            let at = raised_count(v, node.beta + 200, i);
            &&& v[at].quiet
            &&& v[at].position == position_after(p, m)
            &&& v[at].ply == node.ply + 1
            &&& v[at].alpha == -(node.beta + 200)
            &&& v[at].beta == v[at].alpha + 1
            &&& -v[at].result >= node.beta + 200 ==> {
                &&& !v[at + 1].quiet
                &&& v[at + 1].position == position_after(p, m)
                &&& v[at + 1].depth == node.depth - 4
                &&& v[at + 1].alpha == -(node.beta + 200)
                &&& v[at + 1].beta == v[at + 1].alpha + 1
                &&& v[at + 1].cut_node != node.cut_node
            }
        }),
{
    reveal(raised_at);
}

/// A move's index tells the piece and its target.
pub proof fn law_move_index_tells_piece_and_target(p: PosView, m: Move)
    requires
        m.to < 64,
        mover(p, m) < 6,
    ensures
        move_index(p, m) % 64 == m.to,
        move_index(p, m) / 64 == mover(p, m),
        move_index(p, m) < 384,
{
}

/// A cutoff by a quiet move makes it the first killer of its ply and the answer to the move before;
/// one by any other move leaves quiet histories, killers and answers alone. Neither touches the
/// corrections.
pub proof fn law_cutoffs_teach_their_move(
    params: Params,
    p: PosView,
    node: Node,
    x: Ranked,
    quiets: Seq<(Move, u16)>,
    caps: Seq<Ranked>,
    t: Tables,
    after: Tables,
)
    requires
        cutoff_teaches(params, p, node, x, quiets, caps, t, after),
        0 <= node.ply < t.killers@.len(),
        p.side < 2,
        t.counter@.len() == 8192,
    ensures
        after.corr == t.corr,
        quiet(x) ==> after.killers@[node.ply as int].0 == packed(x.mv) as u16,
        quiet(x) ==> forall|k: int| 0 <= k < t.killers@.len() && k != node.ply ==> #[trigger] after.killers@[k] == t.killers@[k],
        quiet(x) && node.prev != 0 ==> after.counter@[4096 * p.side + 64 * (node.prev as int % 64) + node.prev as int / 64 % 64]
            == packed(x.mv) as u16,
        !quiet(x) ==> after.history == t.history && after.cont == t.cont && after.killers == t.killers && after.counter == t.counter,
        quiet(x) && caps.len() == 0 && !tag_bit(x.tag, 3) ==> after.capt@ == t.capt@,
        t.wf() && params_ok(params) && node.depth >= 1 && x.mv.from < 64 && x.mv.to < 64 && quiet(x) && quiets.len() == 0 ==> ({
            let j = 4096 * p.side + 64 * x.mv.from + x.mv.to;
            after.history@[j] >= t.history@[j]
        }),
{
    reveal(cutoff_teaches);
    if t.wf() && params_ok(params) && node.depth >= 1 && x.mv.from < 64 && x.mv.to < 64 {
        let j = from_to(p.side, x.mv.from as int, x.mv.to as int);
        let bonus = bonus_at(params, node.depth as int);
        assert(-16_384 <= t.history@[j] <= 16_384);
        law_bonus_grows_with_depth(params, node.depth as int);
        law_bonus_moves_history_its_way(t.history@[j] as int, bonus);
        law_history_stays_in_range(t.history@[j] as int, bonus);
    }
}

/// A node without a legal move is lost in check, by its distance from the root, and drawn otherwise.
pub proof fn law_no_move_is_mate_or_stalemate(p: PosView, ply: int)
    ensures
        p.checkers != 0 ==> no_move_score(p, ply) == ply - 32_000,
        p.checkers == 0 ==> no_move_score(p, ply) == 0,
{
}

/// A node ends at beta, and never by a score that no move has given.
pub proof fn law_nodes_end_at_beta(node: Node, o: Outcome)
    ensures
        o.best < node.beta || o.best <= -32_500 ==> !cut_off(node, o),
        o.best >= node.beta && o.best > -32_500 ==> cut_off(node, o),
{
}

} // verus!

//! The account a search gives of itself: every search of a node, with the searches it made of the
//! nodes below, and how its result follows from theirs.
use vstd::prelude::*;
use crate::see::see_of;
use std::sync::Arc;
use crate::board::{legal_moves, mover, position_after, position_passed, Move, PosView};
use crate::history::{
    corr_after, corr_bucket, corrected, law_correction_is_small, pred_at, Preds, Tables, INF, MATE,
};
use crate::interior::{
    child_searches, cut_off, cutoff_teaches, goes_through, in_order, law_first_best_score_wins,
    lemma_prefix, may_pass, move_index, no_move_score, outcome_of, probcut_list, quiesced_as, quiet,
    quiets_searched, raised_searches, searched_as, Node,
};
use crate::nnue::{activation, Acc, Network};
use crate::policy::{class_of, logit_sum, Policy};
use crate::quiesce::{
    law_first_best_score_settles, lemma_settled_prefix, lifted, noisy_ranking, quiet_in_order,
    settled, settled_at, settles, table_decides,
};
use crate::rules::{
    at_most, best_first, bound_of, descending, iir_depth_of, lemma_best_first, loaded_score, mate_alpha, mate_beta, null_reduction_of, probcut_applies,
    quiet_history, raised, rank_of, reduces, reduction_of, repeats, stands_above, stored_score, Ranked, PROBCUT_MARGIN,
};
use crate::search::{acc_ok, node_eval};
use crate::shared::{Memory, Table};
use crate::tag::tag_bit;
use crate::tt::{
    alike, answered, lemma_alike_answers, lemma_alike_store, packed, table_after, tables_alike, Entry, Slot, BOUND_NONE,
};
use crate::tune::{at_least_one, Params};

verus! {

/// What stays the same throughout a search.
pub struct Setting {
    pub net: Option<Arc<Network>>,
    pub policy: Option<Arc<Policy>>,
    pub lmr: Seq<i8>,
    pub params: Params,
    /// Hashes of the positions of the game before the root.
    pub played: Seq<u64>,
}

/// What a search did with one of a node's moves: skipped it, or gave it a score by searches of the
/// position after it, reduced by the tables of that moment.
pub struct Visit {
    pub tables: Tables,
    pub score: Option<i32>,
    pub searches: Seq<Searched>,
}

/// A search of a node that was made.
pub struct Searched {
    pub position: PosView,
    /// Made by the quiescence search.
    pub quiet: bool,
    pub depth: i32,
    pub ply: i32,
    pub alpha: i32,
    pub beta: i32,
    pub prev: u16,
    pub cut_node: bool,
    /// Hashes of the positions on the path to the node.
    pub path: Seq<u64>,
    /// Piece and destination of each move on the path.
    pub cont: Seq<u16>,
    pub result: i32,
    /// The search was stopped before it came to its result.
    pub stopped: bool,
    /// What the table answered.
    pub entry: Option<Entry>,
    pub acc: Option<Acc>,
    /// What had been learned when the node was reached.
    pub tables: Tables,
    /// The static evaluations on the path, by ply.
    pub evals: Seq<i32>,
    /// The quiescence search that stands for the node, or the searches made before its moves: of
    /// the null move and of captures against a raised bound.
    pub before: Seq<Searched>,
    /// What had been learned when the moves were ranked.
    pub ranked_by: Tables,
    /// The moves, best first.
    pub order: Seq<Ranked>,
    /// What was done with them, as far as they were reached.
    pub visits: Seq<Visit>,
    /// What had been learned in the end.
    pub left: Tables,
}

/// The searches of `after` that came after those of `before`.
pub open spec fn made_since(before: Seq<Searched>, after: Seq<Searched>) -> Seq<Searched> {
    after.skip(before.len() as int)
}

/// An accumulator as a search keeps it.
pub open spec fn held(acc: Option<&Acc>) -> Option<Acc> {
    match acc {
        Some(a) => Some(*a),
        None => None,
    }
}

/// An accumulator as a search is handed it.
pub open spec fn lent(acc: &Option<Acc>) -> Option<&Acc> {
    match acc {
        Some(a) => Some(a),
        None => None,
    }
}

/// What is kept is what was handed in.
pub proof fn lemma_held(acc: Option<&Acc>)
    ensures
        lent(&held(acc)) == acc,
{
}

// ---------------- what a node goes by ----------------
/// Static evaluation with what has been learned of the pawn structure.
pub open spec fn static_eval_of(net: Option<Arc<Network>>, t: Tables, p: PosView, acc: Option<&Acc>) -> int {
    corrected(t.corr@, corr_bucket(p.men, p.side), node_eval(net, acc, p))
}

/// The table's move, zero where there is none.
pub open spec fn table_move(entry: Option<Entry>) -> u16 {
    match entry {
        Some(e) => e.mv,
        None => 0,
    }
}

/// Whether the side to move stands better than two plies ago.
pub open spec fn improves(p: PosView, ply: int, evals: Seq<i32>, static_eval: int) -> bool {
    p.checkers == 0 && ply >= 2 && static_eval > evals[ply - 2]
}

/// The result of a node that is decided before its moves are looked at.
pub open spec fn shortcut_of(
    s: Setting,
    t: Tables,
    evals: Seq<i32>,
    p: PosView,
    depth: int,
    ply: int,
    alpha: int,
    beta: int,
    acc: Option<&Acc>,
    cut_node: bool,
    entry: Option<Entry>,
) -> Option<int> {
    let a = mate_alpha(alpha, ply);
    let st = static_eval_of(s.net, t, p, acc);
    if ply == 0 {
        None
    } else if a >= mate_beta(beta, ply) {
        Some(a)
    } else if table_decides(entry, depth, ply, a, beta) {
        Some(loaded_score(entry->0.score as int, ply))
    } else if stands_above(
        s.params,
        p.checkers != 0,
        ply,
        iir_depth_of(depth, table_move(entry), cut_node),
        improves(p, ply, evals, st),
        st,
        beta,
    ) {
        Some(st)
    } else {
        None
    }
}

/// What the policy head says of a move, where there is one.
pub open spec fn policy_view(policy: Option<Arc<Policy>>, p: PosView, acc: Option<&Acc>, m: Move) -> Option<int> {
    match (acc, policy) {
        (Some(a), Some(pol)) => Some(
            logit_sum(
                *pol,
                Seq::new(512, |k: int| activation(a.w@, a.b@, p.side, k) as i32),
                class_of(p, m),
                512,
            ),
        ),
        _ => None,
    }
}

/// All moves of a node as the tables rank them.
pub open spec fn ranking_of(policy: Option<Arc<Policy>>, t: Tables, p: PosView, tt_mv: u16, ply: int, prev: u16, preds: Preds, acc: Option<&Acc>) -> Seq<Ranked> {
    Seq::new(
        legal_moves(p).len(),
        |k: int| rank_of(t, p, legal_moves(p)[k], tt_mv, policy_view(policy, p, acc, legal_moves(p)[k]), ply, prev, preds),
    )
}

/// By how much a move's search is reduced.
pub open spec fn move_reduction_of(s: Setting, t: Tables, p: PosView, node: Node, x: Ranked, number: int, is_quiet: bool, is_capture: bool) -> int {
    if reduces(node.depth as int, number, is_quiet, is_capture, node.in_check) {
        reduction_of(
            s.lmr[64 * at_most(node.depth as int, 63) + at_most(number, 63)] as int,
            is_quiet,
            node.is_pv,
            node.improving,
            node.cut_node,
            quiet_history(t, p, node.preds, x.mv),
            at_least_one(s.params.hist_lmr_div) as int,
        )
    } else {
        0
    }
}

/// The node as the loop over its moves sees it, searched to `depth` plies.
pub open spec fn node_of(s: Setting, x: Searched, depth: int) -> Node {
    let p = x.position;
    let st = static_eval_of(s.net, x.tables, p, lent(&x.acc));
    let a = if x.ply > 0 {
        mate_alpha(x.alpha as int, x.ply as int)
    } else {
        x.alpha as int
    };
    Node {
        hash: p.hash,
        depth: iir_depth_of(depth, table_move(x.entry), x.cut_node) as i32,
        ply: x.ply,
        alpha: a as i32,
        beta: x.beta,
        prev: x.prev,
        is_pv: x.beta - a > 1,
        in_check: p.checkers != 0,
        improving: improves(p, x.ply as int, x.evals, st),
        cut_node: x.cut_node,
        static_eval: st as i32,
        preds: Preds { one: pred_at(x.cont, 1), two: pred_at(x.cont, 2) },
    }
}

// ---------------- what a result follows from ----------------
pub open spec fn scores_of(v: Seq<Visit>) -> Seq<Option<i32>> {
    v.map_values(|w: Visit| w.score)
}

/// The search of the position after passing.
pub open spec fn pass_search(y: Searched, s: Setting, x: Searched, node: Node) -> bool {
    searched_as(
        y,
        position_passed(x.position),
        node.depth - 1 - null_reduction_of(s.params, node.depth as int, node.static_eval as int, node.beta as int),
        node.ply + 1,
        -node.beta,
        -node.beta + 1,
        0,
        !node.cut_node,
        x.path.push(node.hash),
        x.cont.push(384),
    )
}

// ---------------- what is learned ----------------
/// What has been learned after some searches.
pub open spec fn tables_end(from: Tables, v: Seq<Searched>) -> Tables {
    if v.len() == 0 {
        from
    } else {
        v.last().left
    }
}

/// Searches made one after another: each goes by what the one before had learned in the end, and
/// by the same static evaluations up to the node they are made for.
#[verifier::opaque]
pub open spec fn chained(from: Tables, evals: Seq<i32>, v: Seq<Searched>) -> bool {
    forall|i: int|
        0 <= i < v.len() ==> (#[trigger] v[i]).tables == tables_end(from, v.take(i)) && v[i].evals.take(evals.len() as int) == evals
}

pub proof fn lemma_chain_none(from: Tables, evals: Seq<i32>, v: Seq<Searched>)
    requires
        v.len() == 0,
    ensures
        chained(from, evals, v),
        tables_end(from, v) == from,
{
    reveal(chained);
}

/// One search more.
pub proof fn lemma_chain_next(from: Tables, evals: Seq<i32>, v: Seq<Searched>, x: Searched)
    requires
        chained(from, evals, v),
        x.tables == tables_end(from, v),
        x.evals.take(evals.len() as int) == evals,
    ensures
        chained(from, evals, v.push(x)),
        tables_end(from, v.push(x)) == x.left,
{
    reveal(chained);
    let w = v.push(x);
    assert forall|i: int| 0 <= i < w.len() implies (#[trigger] w[i]).tables == tables_end(from, w.take(i)) && w[i].evals.take(
        evals.len() as int,
    ) == evals by {
        assert(w.take(i) =~= v.take(i));
        if i == v.len() {
            assert(v.take(i) =~= v);
        } else {
            assert(w[i] == v[i]);
        }
    }
}

/// Two runs of searches, one after the other.
pub proof fn lemma_chain_join(from: Tables, evals: Seq<i32>, v: Seq<Searched>, w: Seq<Searched>)
    requires
        chained(from, evals, v),
        chained(tables_end(from, v), evals, w),
    ensures
        chained(from, evals, v + w),
        tables_end(from, v + w) == tables_end(tables_end(from, v), w),
{
    reveal(chained);
    let all = v + w;
    assert forall|i: int| 0 <= i < all.len() implies (#[trigger] all[i]).tables == tables_end(from, all.take(i)) && all[i].evals.take(
        evals.len() as int,
    ) == evals by {
        if i < v.len() {
            assert(all[i] == v[i]);
            assert(all.take(i) =~= v.take(i));
        } else {
            let j = i - v.len();
            assert(all[i] == w[j]);
            if j == 0 {
                assert(all.take(i) =~= v);
                assert(w.take(0).len() == 0);
            } else {
                assert(all.take(i).last() == w.take(j).last());
            }
        }
    }
    if w.len() > 0 {
        assert(all.last() == w.last());
    } else {
        assert(all =~= v);
    }
}

/// What has been learned after the first `n` moves.
pub open spec fn tables_after(from: Tables, visits: Seq<Visit>, n: int) -> Tables
    decreases n,
{
    if n <= 0 {
        from
    } else {
        tables_end(visits[n - 1].tables, visits[n - 1].searches)
    }
}

/// Move `k` was come to with what the moves before had taught, and its searches follow one another.
#[verifier::opaque]
pub open spec fn visit_chained(from: Tables, evals: Seq<i32>, visits: Seq<Visit>, k: int) -> bool {
    visits[k].tables == tables_after(from, visits, k) && chained(visits[k].tables, evals, visits[k].searches)
}

pub open spec fn visits_chained(from: Tables, evals: Seq<i32>, visits: Seq<Visit>) -> bool {
    forall|k: int| 0 <= k < visits.len() ==> #[trigger] visit_chained(from, evals, visits, k)
}

/// One move more.
pub proof fn lemma_visits_chain_next(from: Tables, evals: Seq<i32>, visits: Seq<Visit>, v: Visit)
    requires
        visits_chained(from, evals, visits),
        v.tables == tables_after(from, visits, visits.len() as int),
        chained(v.tables, evals, v.searches),
    ensures
        visits_chained(from, evals, visits.push(v)),
        tables_after(from, visits.push(v), visits.len() as int + 1) == tables_end(v.tables, v.searches),
{
    let all = visits.push(v);
    assert forall|k: int| 0 <= k < all.len() implies #[trigger] visit_chained(from, evals, all, k) by {
        reveal(visit_chained);
        if k < visits.len() {
            assert(visit_chained(from, evals, visits, k));
        }
    }
}

/// Those of the first `n` moves that are quiet and were searched, with piece and destination.
pub open spec fn quiets_tried(p: PosView, order: Seq<Ranked>, scores: Seq<Option<i32>>, n: int) -> Seq<(Move, u16)>
    decreases n,
{
    if n <= 0 {
        Seq::empty()
    } else if scores[n - 1] is Some && quiet(order[n - 1]) {
        quiets_tried(p, order, scores, n - 1).push((order[n - 1].mv, move_index(p, order[n - 1].mv)))
    } else {
        quiets_tried(p, order, scores, n - 1)
    }
}

/// Those of the first `n` moves that capture and were searched.
pub open spec fn captures_tried(order: Seq<Ranked>, scores: Seq<Option<i32>>, n: int) -> Seq<Ranked>
    decreases n,
{
    if n <= 0 {
        Seq::empty()
    } else if scores[n - 1] is Some && tag_bit(order[n - 1].tag, 3) {
        captures_tried(order, scores, n - 1).push(order[n - 1])
    } else {
        captures_tried(order, scores, n - 1)
    }
}

/// What was tried depends on the scores that went into it alone.
pub proof fn lemma_tried_prefix(p: PosView, order: Seq<Ranked>, a: Seq<Option<i32>>, b: Seq<Option<i32>>, n: int)
    requires
        0 <= n <= a.len() <= b.len(),
        forall|k: int| 0 <= k < n ==> a[k] == b[k],
    ensures
        quiets_tried(p, order, a, n) == quiets_tried(p, order, b, n),
        captures_tried(order, a, n) == captures_tried(order, b, n),
    decreases n,
{
    if n > 0 {
        lemma_tried_prefix(p, order, a, b, n - 1);
    }
}

/// What the loop over a node's moves taught: after a cutoff killers, countermoves and histories
/// for the move that cut against those tried before it, and nothing otherwise.
#[verifier::opaque]
pub open spec fn loop_teaches(params: Params, p: PosView, node: Node, order: Seq<Ranked>, visits: Seq<Visit>, from: Tables, after: Tables) -> bool {
    let n = visits.len() as int;
    let scores = scores_of(visits);
    let end = tables_after(from, visits, n);
    if cut_off(node, outcome_of(node, order, scores, n)) {
        cutoff_teaches(
            params,
            p,
            node,
            order[n - 1],
            quiets_tried(p, order, scores, n - 1),
            captures_tried(order, scores, n - 1),
            end,
            after,
        )
    } else {
        after == end
    }
}

/// What a node taught: what the loop over its moves did and, out of check, how far its evaluation
/// was off for its pawn structure.
#[verifier::opaque]
pub open spec fn node_teaches(params: Params, p: PosView, node: Node, order: Seq<Ranked>, visits: Seq<Visit>, from: Tables, left: Tables) -> bool {
    let n = visits.len() as int;
    let corr = tables_after(from, visits, n).corr;
    let out = outcome_of(node, order, scores_of(visits), n);
    let ci = corr_bucket(p.men, p.side);
    &&& loop_teaches(params, p, node, order, visits, from, (Tables { corr, ..left }))
    &&& left.corr@ == if node.in_check {
        corr@
    } else {
        corr_after(
            corr@,
            ci,
            node.static_eval as int,
            out.best as int,
            out.bound,
            node.depth as int,
            out.best_is_capture,
        )
    }
}

/// Where a node is: the position, the hashes on the path to it and the moves.
pub struct Place {
    pub position: PosView,
    pub path: Seq<u64>,
    pub cont: Seq<u16>,
}

/// The move `m` of a node, the one of number `k`, was skipped, or its score is what the searches
/// of the position after it came to, where `best` was the best score so far.
#[verifier::opaque]
pub open spec fn visited_as(s: Setting, at: Place, node: Node, m: Ranked, k: int, best: int, v: Visit) -> bool {
    match v.score {
        None => v.searches.len() == 0,
        Some(sc) => child_searches(
            v.searches,
            position_after(at.position, m.mv),
            node,
            k == 0,
            move_reduction_of(s, v.tables, at.position, node, m, k, quiet(m), tag_bit(m.tag, 3)),
            raised(node.alpha as int, best),
            packed(m.mv) as u16,
            at.path.push(node.hash),
            at.cont.push(move_index(at.position, m.mv)),
            sc as int,
        ),
    }
}

/// Each of the moves that were reached was skipped or searched.
pub open spec fn all_visited(s: Setting, at: Place, node: Node, order: Seq<Ranked>, visits: Seq<Visit>) -> bool {
    forall|k: int|
        0 <= k < visits.len() ==> #[trigger] visited_as(
            s,
            at,
            node,
            order[k],
            k,
            outcome_of(node, order, scores_of(visits), k).best as int,
            visits[k],
        )
}

/// One move more.
pub proof fn lemma_visited_next(s: Setting, at: Place, node: Node, order: Seq<Ranked>, visits: Seq<Visit>, v: Visit)
    requires
        visits.len() < order.len(),
        all_visited(s, at, node, order, visits),
        visited_as(
            s,
            at,
            node,
            order[visits.len() as int],
            visits.len() as int,
            outcome_of(node, order, scores_of(visits), visits.len() as int).best as int,
            v,
        ),
    ensures
        all_visited(s, at, node, order, visits.push(v)),
        scores_of(visits.push(v)) == scores_of(visits).push(v.score),
{
    let all = visits.push(v);
    assert(scores_of(all) =~= scores_of(visits).push(v.score));
    assert forall|k: int| 0 <= k < all.len() implies #[trigger] visited_as(
        s,
        at,
        node,
        order[k],
        k,
        outcome_of(node, order, scores_of(all), k).best as int,
        all[k],
    ) by {
        lemma_prefix(at.position, s.params, node, order, scores_of(visits), scores_of(all), k);
        if k < visits.len() {
            assert(visited_as(
                s,
                at,
                node,
                order[k],
                k,
                outcome_of(node, order, scores_of(visits), k).best as int,
                visits[k],
            ));
        }
    }
}

/// The result `r` follows from the moves: a side without any is mated or stalemated; otherwise it
/// is the best of the scores that the moves, ranked by what had been learned and gone through in
/// order, were given.
#[verifier::opaque]
pub open spec fn follows_from_moves(
    s: Setting,
    ranked_by: Tables,
    at: Place,
    node: Node,
    tt_mv: u16,
    acc: Option<&Acc>,
    evals: Seq<i32>,
    order: Seq<Ranked>,
    visits: Seq<Visit>,
    r: i32,
    left: Tables,
) -> bool {
    let p = at.position;
    let scores = scores_of(visits);
    if legal_moves(p).len() == 0 {
        visits.len() == 0 && r == no_move_score(p, node.ply as int) && left == ranked_by
    } else {
        &&& order.to_multiset() == ranking_of(s.policy, ranked_by, p, tt_mv, node.ply as int, node.prev, node.preds, acc).to_multiset()
        &&& descending(order)
        &&& goes_through(p, s.params, node, order, scores)
        &&& r == outcome_of(node, order, scores, scores.len() as int).best
        &&& all_visited(s, at, node, order, visits)
        &&& visits_chained(ranked_by, evals, visits)
        &&& node_teaches(s.params, p, node, order, visits, ranked_by, left)
    }
}

/// The moves of a node were gone through as far as a search came that was stopped: ranked by what
/// had been learned, in order, each skipped or searched.
#[verifier::opaque]
pub open spec fn goes_part_way(
    s: Setting,
    ranked_by: Tables,
    at: Place,
    node: Node,
    tt_mv: u16,
    acc: Option<&Acc>,
    evals: Seq<i32>,
    order: Seq<Ranked>,
    visits: Seq<Visit>,
) -> bool {
    let p = at.position;
    visits.len() > 0 ==> {
        &&& order.to_multiset() == ranking_of(s.policy, ranked_by, p, tt_mv, node.ply as int, node.prev, node.preds, acc).to_multiset()
        &&& descending(order)
        &&& visits.len() < order.len()
        &&& in_order(p, s.params, node, order, scores_of(visits))
        &&& all_visited(s, at, node, order, visits)
        &&& visits_chained(ranked_by, evals, visits)
    }
}

/// A node searched to `depth` plies, in which the search was stopped: its moves as far as it came.
pub open spec fn cut_short(s: Setting, x: Searched, depth: int) -> bool {
    let node = node_of(s, x, depth);
    &&& goes_part_way(
        s,
        x.ranked_by,
        Place { position: x.position, path: x.path, cont: x.cont },
        node,
        table_move(x.entry),
        lent(&x.acc),
        evals_below(x, node),
        x.order,
        x.visits,
    )
    &&& visits_accounted(s, x.visits, x.ply + 1)
}

/// The best move at the root after a search of it to `depth` plies, stopped or not: the first with
/// the best score, or the one from before where no move has a score.
pub open spec fn root_found(kept: u16, s: Setting, x: Searched, depth: int) -> u16 {
    let out = outcome_of(node_of(s, x, depth), x.order, scores_of(x.visits), x.visits.len() as int);
    if out.best > -INF {
        out.best_mv
    } else {
        kept
    }
}

pub open spec fn moves_account(s: Setting, x: Searched, node: Node) -> bool {
    follows_from_moves(
        s,
        x.ranked_by,
        Place { position: x.position, path: x.path, cont: x.cont },
        node,
        table_move(x.entry),
        lent(&x.acc),
        evals_below(x, node),
        x.order,
        x.visits,
        x.result,
        x.left,
    )
}

/// The static evaluations on the path to a node and its own.
pub open spec fn evals_below(x: Searched, node: Node) -> Seq<i32> {
    x.evals.take(x.ply as int).push(node.static_eval)
}

/// Captures are tried against a raised bound.
pub open spec fn tries_captures(x: Searched, node: Node) -> bool {
    probcut_applies(
        node.is_pv,
        node.in_check,
        node.ply as int,
        node.depth as int,
        node.beta as int,
        match x.entry {
            Some(e) => e.depth as int,
            None => -1,
        },
        match x.entry {
            Some(e) => loaded_score(e.score as int, x.ply as int),
            None => 0,
        },
        match x.entry {
            Some(e) => e.bound,
            None => BOUND_NONE,
        },
    )
}

/// The captures that a node tries against a raised bound.
pub open spec fn tried_captures(p: PosView, node: Node) -> Seq<Ranked> {
    probcut_list(p, node.beta + PROBCUT_MARGIN - node.static_eval, legal_moves(p).len() as int)
}

/// The result of a node without a shortcut: beta where passing reaches it, a capture's score where
/// one reaches the raised bound, or what the moves come to.
#[verifier::opaque]
pub open spec fn inner_account(s: Setting, x: Searched, node: Node) -> bool {
    let passes = may_pass(x.position, node);
    let rest = x.before.skip(
        if passes {
            1
        } else {
            0
        },
    );
    let cands = tried_captures(x.position, node);
    &&& passes ==> x.before.len() >= 1 && pass_search(x.before[0], s, x, node)
    &&& chained(x.tables, evals_below(x, node), x.before)
    &&& x.ranked_by == tables_end(x.tables, x.before)
    &&& if passes && -x.before[0].result >= node.beta {
        x.result == node.beta && rest.len() == 0 && x.visits.len() == 0 && x.left == x.ranked_by
    } else if tries_captures(x, node) {
        ||| x.visits.len() == 0 && x.left == x.ranked_by && raised_searches(
            x.position,
            node,
            cands,
            rest,
            x.path,
            x.cont,
            false,
            Some(x.result),
        )
        ||| raised_searches(x.position, node, cands, rest, x.path, x.cont, false, None) && moves_account(s, x, node)
    } else {
        rest.len() == 0 && moves_account(s, x, node)
    }
}

/// The result of a node searched to `depth` plies.
pub open spec fn node_account(s: Setting, x: Searched, depth: int) -> bool {
    match shortcut_of(
        s,
        x.tables,
        x.evals,
        x.position,
        depth,
        x.ply as int,
        x.alpha as int,
        x.beta as int,
        lent(&x.acc),
        x.cut_node,
        x.entry,
    ) {
        Some(v) => x.result == v && x.before.len() == 0 && x.visits.len() == 0 && x.left == x.tables,
        None => inner_account(s, x, node_of(s, x, depth)),
    }
}

/// A node below the root is drawn: fifty moves have passed, or the position has occurred before.
pub open spec fn drawn_node(p: PosView, ply: int, played: Seq<u64>, path: Seq<u64>) -> bool {
    ply > 0 && (p.halfmove >= 100 || repeats(played, path, p.hash, p.halfmove))
}

/// A check extends the search by a ply.
pub open spec fn extended(p: PosView, depth: int) -> int {
    if p.checkers != 0 {
        depth + 1
    } else {
        depth
    }
}

/// The result of a search: nothing for a drawn node, at no depth that of a quiescence search, at
/// the greatest ply the evaluation, and that of the node otherwise.
#[verifier::opaque]
pub open spec fn main_account(s: Setting, x: Searched) -> bool {
    let p = x.position;
    let depth = extended(p, x.depth as int);
    if drawn_node(p, x.ply as int, s.played, x.path) {
        x.result == 0 && x.before.len() == 0 && x.visits.len() == 0 && x.left == x.tables
    } else if depth <= 0 {
        &&& x.before.len() == 1
        &&& x.before[0].tables == x.tables
        &&& x.left == x.tables
        &&& quiesced_as(x.before[0], p, x.ply as int, x.alpha as int, x.beta as int, x.path, x.cont)
        &&& x.result == x.before[0].result
        &&& x.visits.len() == 0
    } else if x.ply >= 127 {
        x.result == node_eval(s.net, lent(&x.acc), p) && x.before.len() == 0 && x.visits.len() == 0 && x.left == x.tables
    } else {
        node_account(s, x, depth)
    }
}

/// What a quiescence node has without a move.
pub open spec fn quiet_stand(s: Setting, x: Searched) -> i32 {
    if x.position.checkers != 0 {
        (-INF) as i32
    } else {
        static_eval_of(s.net, x.tables, x.position, lent(&x.acc)) as i32
    }
}

/// The move `m` of a quiescence node was skipped, or its score is that of the quiescence search of
/// the position after it, where `best` was the best score so far. Nothing is learned.
#[verifier::opaque]
pub open spec fn quieted_as(at: Place, t: Tables, ply: int, alpha: int, beta: int, m: Ranked, best: int, v: Visit) -> bool {
    match v.score {
        None => v.searches.len() == 0,
        Some(sc) => {
            &&& v.searches.len() == 1
            &&& quiesced_as(
                v.searches[0],
                position_after(at.position, m.mv),
                ply + 1,
                -beta,
                -lifted(at.position.checkers != 0, alpha, best),
                at.path,
                at.cont,
            )
            &&& v.searches[0].tables == t
            &&& sc == -v.searches[0].result
        },
    }
}

/// Each of the moves that were reached was skipped or searched.
pub open spec fn all_quieted(at: Place, t: Tables, ply: int, alpha: int, beta: int, stand: i32, order: Seq<Ranked>, visits: Seq<Visit>) -> bool {
    forall|k: int|
        0 <= k < visits.len() ==> #[trigger] quieted_as(
            at,
            t,
            ply,
            alpha,
            beta,
            order[k],
            settled(stand, order, scores_of(visits), k).0 as int,
            visits[k],
        )
}

/// One move more.
pub proof fn lemma_quieted_next(at: Place, t: Tables, ply: int, alpha: int, beta: int, stand: i32, order: Seq<Ranked>, visits: Seq<Visit>, v: Visit)
    requires
        visits.len() < order.len(),
        all_quieted(at, t, ply, alpha, beta, stand, order, visits),
        quieted_as(
            at,
            t,
            ply,
            alpha,
            beta,
            order[visits.len() as int],
            settled(stand, order, scores_of(visits), visits.len() as int).0 as int,
            v,
        ),
    ensures
        all_quieted(at, t, ply, alpha, beta, stand, order, visits.push(v)),
        scores_of(visits.push(v)) == scores_of(visits).push(v.score),
{
    let all = visits.push(v);
    assert(scores_of(all) =~= scores_of(visits).push(v.score));
    assert forall|k: int| 0 <= k < all.len() implies #[trigger] quieted_as(
        at,
        t,
        ply,
        alpha,
        beta,
        order[k],
        settled(stand, order, scores_of(all), k).0 as int,
        all[k],
    ) by {
        lemma_settled_prefix(true, 0, stand, order, scores_of(visits), scores_of(all), k);
        if k < visits.len() {
            assert(quieted_as(
                at,
                t,
                ply,
                alpha,
                beta,
                order[k],
                settled(stand, order, scores_of(visits), k).0 as int,
                visits[k],
            ));
        }
    }
}

/// The result of a quiescence search: at the greatest ply the evaluation; a table's answer that
/// decides; out of check the static evaluation where it reaches beta; mate where a side in check
/// has no move; and otherwise the best of what stands and the scores of the noisy moves.
#[verifier::opaque]
pub open spec fn quiet_account(s: Setting, x: Searched) -> bool {
    let p = x.position;
    let in_check = p.checkers != 0;
    let stand = quiet_stand(s, x);
    let ranking = noisy_ranking(p, table_move(x.entry), legal_moves(p).len() as int);
    let scores = scores_of(x.visits);
    &&& x.before.len() == 0
    &&& x.left == x.tables
    &&& if x.ply >= 127 {
        x.result == node_eval(s.net, lent(&x.acc), p) && x.visits.len() == 0
    } else if table_decides(x.entry, 0, x.ply as int, x.alpha as int, x.beta as int) {
        x.result == loaded_score(x.entry->0.score as int, x.ply as int) && x.visits.len() == 0
    } else if !in_check && stand >= x.beta {
        x.result == stand && x.visits.len() == 0
    } else if in_check && ranking.len() == 0 {
        x.result == -MATE + x.ply && x.visits.len() == 0
    } else {
        &&& x.order == best_first(ranking)
        &&& settles(in_check, x.alpha as int, x.beta as int, stand, x.order, scores)
        &&& x.result == settled(stand, x.order, scores, scores.len() as int).0
        &&& all_quieted(
            Place { position: p, path: x.path, cont: x.cont },
            x.tables,
            x.ply as int,
            x.alpha as int,
            x.beta as int,
            stand,
            x.order,
            x.visits,
        )
    }
}

// ---------------- the whole tree ----------------
/// How far a search is from the end of the tree.
pub open spec fn height(x: Searched) -> int {
    2 * (128 - x.ply) + if x.quiet {
        0int
    } else {
        1
    }
}

/// A search made for another and not stopped: a ply further, or a quiescence search of the same
/// node.
pub open spec fn lies_below(y: Searched, x: Searched) -> bool {
    &&& !y.stopped
    &&& y.ply <= 127
    &&& y.ply == x.ply + 1 || (y.ply == x.ply && y.quiet && !x.quiet)
}

/// A search that was not stopped has a result that follows from the searches made for it, and so
/// has each of these.
#[verifier::opaque]
pub open spec fn accounted(s: Setting, x: Searched) -> bool
    decreases height(x),
{
    x.stopped || {
        &&& acc_ok(s.net, lent(&x.acc), x.position)
        &&& if x.quiet {
            quiet_account(s, x)
        } else {
            main_account(s, x)
        }
        &&& forall|i: int|
            #![trigger x.before[i]]
            0 <= i < x.before.len() ==> lies_below(x.before[i], x) && accounted(s, x.before[i])
        &&& forall|k: int, j: int|
            #![trigger x.visits[k].searches[j]]
            0 <= k < x.visits.len() && 0 <= j < x.visits[k].searches.len() ==> lies_below(x.visits[k].searches[j], x) && accounted(
                s,
                x.visits[k].searches[j],
            )
    }
}

/// Searches at a ply, all accounted for; unless the search was stopped, none of them was.
#[verifier::opaque]
pub open spec fn all_accounted(s: Setting, v: Seq<Searched>, ply: int, stopped: bool) -> bool {
    forall|i: int| 0 <= i < v.len() ==> #[trigger] accounted(s, v[i]) && v[i].ply == ply && (!stopped ==> !v[i].stopped)
}

/// The searches of a node's moves, all accounted for.
pub open spec fn visits_accounted(s: Setting, v: Seq<Visit>, ply: int) -> bool {
    forall|k: int| 0 <= k < v.len() ==> all_accounted(s, (#[trigger] v[k]).searches, ply, false)
}

/// A search whose result follows from accounted searches is accounted for.
pub proof fn lemma_accounted(s: Setting, x: Searched, ply: int)
    requires
        x.stopped || {
            &&& acc_ok(s.net, lent(&x.acc), x.position)
            &&& if x.quiet {
                quiet_account(s, x)
            } else {
                main_account(s, x)
            }
            &&& ply <= 127
            &&& ply == x.ply + 1 || (ply == x.ply && !x.quiet && x.visits.len() == 0 && forall|i: int|
                0 <= i < x.before.len() ==> (#[trigger] x.before[i]).quiet)
            &&& all_accounted(s, x.before, ply, false)
            &&& visits_accounted(s, x.visits, ply)
        },
    ensures
        accounted(s, x),
{
    reveal(accounted);
    if !x.stopped {
        reveal(all_accounted);
        assert forall|i: int|
            #![trigger x.before[i]]
            0 <= i < x.before.len() implies lies_below(x.before[i], x) && accounted(s, x.before[i]) by {
            assert(accounted(s, x.before[i]));
        }
        assert forall|k: int, j: int|
            #![trigger x.visits[k].searches[j]]
            0 <= k < x.visits.len() && 0 <= j < x.visits[k].searches.len() implies lies_below(x.visits[k].searches[j], x)
            && accounted(s, x.visits[k].searches[j]) by {
            assert(all_accounted(s, x.visits[k].searches, ply, false));
            assert(accounted(s, x.visits[k].searches[j]));
        }
    }
}

/// No searches are all accounted for.
pub proof fn lemma_none_accounted(s: Setting, v: Seq<Searched>, ply: int, stopped: bool)
    requires
        v.len() == 0,
    ensures
        all_accounted(s, v, ply, stopped),
{
    reveal(all_accounted);
}

/// One search more.
pub proof fn lemma_one_more_accounted(s: Setting, v: Seq<Searched>, ply: int, x: Searched, before: bool, after: bool)
    requires
        all_accounted(s, v, ply, before),
        accounted(s, x),
        x.ply == ply,
        x.stopped == after,
        before ==> after,
    ensures
        all_accounted(s, v.push(x), ply, after),
{
    reveal(all_accounted);
    assert forall|i: int| 0 <= i < v.push(x).len() implies #[trigger] accounted(s, v.push(x)[i]) && v.push(x)[i].ply == ply && (!after
        ==> !v.push(x)[i].stopped) by {
        if i < v.len() {
            assert(accounted(s, v[i]));
        }
    }
}

/// The account of a search that was not stopped holds down to its leaves: none of the searches it
/// was made of was stopped, and each is accounted for.
pub proof fn law_account_reaches_every_search(s: Setting, x: Searched)
    requires
        accounted(s, x),
        !x.stopped,
    ensures
        forall|i: int| 0 <= i < x.before.len() ==> accounted(s, #[trigger] x.before[i]) && lies_below(x.before[i], x),
        forall|k: int, j: int|
            #![trigger x.visits[k].searches[j]]
            0 <= k < x.visits.len() && 0 <= j < x.visits[k].searches.len() ==> accounted(s, x.visits[k].searches[j])
                && lies_below(x.visits[k].searches[j], x),
{
    reveal(accounted);
}

/// A position below the root that is drawn by fifty moves or repetition is worth nothing, wherever
/// in the tree it occurs.
pub proof fn law_drawn_nodes_are_worth_nothing(s: Setting, x: Searched)
    requires
        accounted(s, x),
        !x.stopped,
        !x.quiet,
        drawn_node(x.position, x.ply as int, s.played, x.path),
    ensures
        x.result == 0,
{
    reveal(accounted);
    reveal(main_account);
}

/// A side that is mated scores by its distance from the root, unless the node is drawn or was
/// decided before its moves were looked at.
pub proof fn law_mated_side_scores_its_distance(s: Setting, x: Searched)
    requires
        accounted(s, x),
        !x.stopped,
        legal_moves(x.position).len() == 0,
        x.position.checkers != 0,
        0 <= x.ply < 127,
        if x.quiet {
            !table_decides(x.entry, 0, x.ply as int, x.alpha as int, x.beta as int)
        } else {
            &&& x.depth >= 0
            &&& !drawn_node(x.position, x.ply as int, s.played, x.path)
            &&& shortcut_of(
                s,
                x.tables,
                x.evals,
                x.position,
                x.depth + 1,
                x.ply as int,
                x.alpha as int,
                x.beta as int,
                lent(&x.acc),
                x.cut_node,
                x.entry,
            ) is None
        },
    ensures
        x.result == -MATE + x.ply,
{
    reveal(accounted);
    if x.quiet {
        reveal(quiet_account);
        assert(noisy_ranking(x.position, table_move(x.entry), 0).len() == 0);
    } else {
        reveal(main_account);
        reveal(inner_account);
        reveal(follows_from_moves);
    }
}

/// An answer of the table that the main search stored changes nothing in a quiescence search but
/// the order of the moves: with another score and bound the same result follows from the same
/// searches.
pub proof fn law_deeper_entry_only_orders(s: Setting, x: Searched, e: Entry, d: Entry)
    requires
        x.quiet,
        x.entry == Some(e),
        e.depth > 0,
        d.depth > 0,
        d.mv == e.mv,
        accounted(s, x),
    ensures
        accounted(s, (Searched { entry: Some(d), ..x })),
{
    reveal(accounted);
    let y = Searched { entry: Some(d), ..x };
    if !x.stopped {
        assert(quiet_account(s, y)) by {
            reveal(quiet_account);
        }
        assert forall|i: int|
            #![trigger y.before[i]]
            0 <= i < y.before.len() implies lies_below(y.before[i], y) && accounted(s, y.before[i]) by {
            assert(lies_below(x.before[i], x));
        }
        assert forall|k: int, j: int|
            #![trigger y.visits[k].searches[j]]
            0 <= k < y.visits.len() && 0 <= j < y.visits[k].searches.len() implies lies_below(y.visits[k].searches[j], y)
            && accounted(s, y.visits[k].searches[j]) by {
            assert(lies_below(x.visits[k].searches[j], x));
        }
    }
}

/// Accumulators of the same position give the same evaluation.
proof fn lemma_same_eval(net: Option<Arc<Network>>, a: Option<Acc>, b: Option<Acc>, p: PosView)
    requires
        acc_ok(net, lent(&a), p),
        acc_ok(net, lent(&b), p),
    ensures
        node_eval(net, lent(&a), p) == node_eval(net, lent(&b), p),
{
    match (net, a, b) {
        (Some(n), Some(x), Some(y)) => {
            assert(x.w@ =~= y.w@);
            assert(x.b@ =~= y.b@);
        },
        _ => {},
    }
}

/// Two quiescence searches of the same node in the same state, of which neither was stopped.
pub open spec fn same_quiet_search(x: Searched, y: Searched) -> bool {
    &&& x.quiet && y.quiet
    &&& !x.stopped && !y.stopped
    &&& x.position == y.position
    &&& x.ply == y.ply
    &&& x.alpha == y.alpha
    &&& x.beta == y.beta
    &&& x.path == y.path
    &&& x.cont == y.cont
    &&& x.tables == y.tables
}

// ---------------- what is remembered ----------------
/// The last thing a table took was this result.
pub open spec fn remembers<T: Table>(tt: T, hash: u64, mv: u16, score: i32, depth: i32, bound: u8) -> bool {
    exists|t: T| #[trigger] tt.took(&t, hash, mv, score, depth, bound) && t.ready()
}

/// The last thing a table took was the outcome of a node searched to `depth` plies.
pub open spec fn node_remembered<T: Table>(tt: T, s: Setting, x: Searched, depth: int) -> bool {
    let node = node_of(s, x, depth);
    let out = outcome_of(node, x.order, scores_of(x.visits), x.visits.len() as int);
    remembers(tt, x.position.hash, out.best_mv, stored_score(out.best as int, x.ply as int) as i32, node.depth, out.bound)
}

/// A quiescence node goes on to its moves.
pub open spec fn quiet_goes_on(s: Setting, x: Searched) -> bool {
    let p = x.position;
    &&& x.ply < 127
    &&& !table_decides(x.entry, 0, x.ply as int, x.alpha as int, x.beta as int)
    &&& if p.checkers != 0 {
        noisy_ranking(p, table_move(x.entry), legal_moves(p).len() as int).len() > 0
    } else {
        quiet_stand(s, x) < x.beta
    }
}

/// The last thing a table took was the outcome of a quiescence node.
pub open spec fn quiet_remembered<T: Table>(tt: T, s: Setting, x: Searched) -> bool {
    let out = settled(quiet_stand(s, x), x.order, scores_of(x.visits), x.visits.len() as int);
    remembers(
        tt,
        x.position.hash,
        out.1,
        stored_score(out.0 as int, x.ply as int) as i32,
        0,
        bound_of(out.0 as int, x.alpha as int, x.beta as int),
    )
}

/// The search of move `k` of a quiescence node, where one was made.
pub open spec fn child_at(ply: int, v: Seq<Visit>, k: int) -> Option<Searched> {
    if 0 <= k < v.len() && v[k].searches.len() > 0 && v[k].searches[0].quiet && v[k].searches[0].ply == ply + 1 <= 127 {
        Some(v[k].searches[0])
    } else {
        None
    }
}

/// What a table holds after the first `n` moves of a quiescence node.
pub open spec fn visits_left(s: Setting, ply: int, v: Seq<Visit>, t: Seq<Seq<Slot>>, age: u8, n: int) -> Seq<Seq<Slot>>
    decreases 128 - ply, 0int, n,
{
    if n <= 0 {
        t
    } else {
        let before = visits_left(s, ply, v, t, age, n - 1);
        match child_at(ply, v, n - 1) {
            Some(y) => table_left(s, y, before, age),
            None => before,
        }
    }
}

/// What a table holds after a quiescence search: what its moves left, and its own result where it
/// went into them.
pub open spec fn table_left(s: Setting, x: Searched, t: Seq<Seq<Slot>>, age: u8) -> Seq<Seq<Slot>>
    decreases 128 - x.ply, 1int, 0int,
{
    if quiet_goes_on(s, x) {
        let out = settled(quiet_stand(s, x), x.order, scores_of(x.visits), x.visits.len() as int);
        table_after(
            visits_left(s, x.ply as int, x.visits, t, age, x.visits.len() as int),
            x.position.hash,
            out.1,
            stored_score(out.0 as int, x.ply as int) as i32,
            0,
            bound_of(out.0 as int, x.alpha as int, x.beta as int),
            age,
        )
    } else {
        t
    }
}

/// The search of move `k` of a quiescence node read what the table held then.
pub open spec fn visit_read(s: Setting, ply: int, v: Seq<Visit>, t: Seq<Seq<Slot>>, age: u8, k: int) -> bool
    decreases 128 - ply, 0int,
{
    match child_at(ply, v, k) {
        Some(y) => quiet_reads(s, y, visits_left(s, ply, v, t, age, k), age),
        None => true,
    }
}

/// The searches of the first `n` moves of a quiescence node read what the table held then.
pub open spec fn visits_read(s: Setting, ply: int, v: Seq<Visit>, t: Seq<Seq<Slot>>, age: u8, n: int) -> bool
    decreases 128 - ply, 1int,
{
    forall|k: int|
        #![trigger v[k]]
        0 <= k < n ==> visit_read(s, ply, v, t, age, k)
}

/// A quiescence search, and each search made for it, was answered with what the table held then,
/// if the table held `t` at first.
pub open spec fn quiet_reads(s: Setting, x: Searched, t: Seq<Seq<Slot>>, age: u8) -> bool
    decreases 128 - x.ply, 2int,
{
    &&& x.ply < 127 ==> x.entry == answered(t, x.position.hash)
    &&& visits_read(s, x.ply as int, x.visits, t, age, x.visits.len() as int)
}

/// What the first moves left and read does not depend on what follows.
proof fn lemma_visits_prefix(s: Setting, ply: int, v: Seq<Visit>, w: Visit, t: Seq<Seq<Slot>>, age: u8, n: int)
    requires
        0 <= n <= v.len(),
    ensures
        visits_left(s, ply, v.push(w), t, age, n) == visits_left(s, ply, v, t, age, n),
    decreases n,
{
    if n > 0 {
        lemma_visits_prefix(s, ply, v, w, t, age, n - 1);
        assert(v.push(w)[n - 1] == v[n - 1]);
        assert(child_at(ply, v.push(w), n - 1) == child_at(ply, v, n - 1));
    }
}

/// One move more.
pub proof fn lemma_visit_read(s: Setting, ply: int, v: Seq<Visit>, w: Visit, t: Seq<Seq<Slot>>, age: u8)
    requires
        visits_read(s, ply, v, t, age, v.len() as int),
        w.searches.len() > 0 ==> {
            let y = w.searches[0];
            y.quiet && y.ply == ply + 1 <= 127 && quiet_reads(s, y, visits_left(s, ply, v, t, age, v.len() as int), age)
        },
    ensures
        visits_read(s, ply, v.push(w), t, age, v.len() as int + 1),
        visits_left(s, ply, v.push(w), t, age, v.len() as int + 1) == if w.searches.len() > 0 {
            table_left(s, w.searches[0], visits_left(s, ply, v, t, age, v.len() as int), age)
        } else {
            visits_left(s, ply, v, t, age, v.len() as int)
        },
{
    let n = v.len() as int;
    assert forall|k: int|
        #![trigger v.push(w)[k]]
        0 <= k < n + 1 implies visit_read(s, ply, v.push(w), t, age, k) by {
        lemma_visits_prefix(s, ply, v, w, t, age, k);
        if k < n {
            assert(v.push(w)[k] == v[k]);
            assert(visit_read(s, ply, v, t, age, k));
            assert(child_at(ply, v.push(w), k) == child_at(ply, v, k));
        }
    }
    lemma_visits_prefix(s, ply, v, w, t, age, n);
    assert(v.push(w)[n] == w);
}

// ---------------- what the table was asked ----------------
/// The searches of the first `n` moves of a node, one after another.
pub open spec fn searches_of(v: Seq<Visit>, n: int) -> Seq<Searched>
    decreases n,
{
    if n <= 0 {
        Seq::empty()
    } else {
        searches_of(v, n - 1) + v[n - 1].searches
    }
}

/// The searches that a search made, one after another.
pub open spec fn all_searches(x: Searched) -> Seq<Searched> {
    x.before + searches_of(x.visits, x.visits.len() as int)
}

/// How far a node of the main search is from the end of the tree.
pub open spec fn node_height(ply: int) -> int {
    2 * (128 - ply) + 1
}

/// What a table holds after a node searched to `depth` plies, once its searches have left `u` in it.
pub open spec fn node_stored(x: Searched, node: Node, u: Seq<Seq<Slot>>, age: u8) -> Seq<Seq<Slot>> {
    if x.visits.len() > 0 {
        let out = outcome_of(node, x.order, scores_of(x.visits), x.visits.len() as int);
        table_after(
            u,
            node.hash,
            out.best_mv,
            stored_score(out.best as int, node.ply as int) as i32,
            node.depth,
            out.bound,
            age,
        )
    } else {
        u
    }
}

/// What a table that held `t` holds after the first `n` of some searches, each nearer than `h` to
/// the end of the tree.
pub open spec fn left_by(s: Setting, h: int, v: Seq<Searched>, t: Seq<Seq<Slot>>, age: u8, n: int) -> Seq<Seq<Slot>>
    decreases h, 0int, n,
{
    if n <= 0 {
        t
    } else {
        let u = left_by(s, h, v, t, age, n - 1);
        if 0 <= height(v[n - 1]) < h {
            replayed(s, v[n - 1], u, age)
        } else {
            u
        }
    }
}

/// What a table that held `t` holds after a search.
pub open spec fn replayed(s: Setting, x: Searched, t: Seq<Seq<Slot>>, age: u8) -> Seq<Seq<Slot>>
    decreases height(x), 1int, 0int,
{
    if x.quiet {
        table_left(s, x, t, age)
    } else {
        node_stored(
            x,
            node_of(s, x, extended(x.position, x.depth as int)),
            left_by(s, height(x), all_searches(x), t, age, all_searches(x).len() as int),
            age,
        )
    }
}

/// A search of the main search that asks the table.
pub open spec fn looks_up(s: Setting, x: Searched) -> bool {
    &&& !drawn_node(x.position, x.ply as int, s.played, x.path)
    &&& x.ply < 127
    &&& extended(x.position, x.depth as int) >= 1
}

/// Each of the first `n` of some searches read what the table held then.
pub open spec fn all_read(s: Setting, h: int, v: Seq<Searched>, t: Seq<Seq<Slot>>, age: u8, n: int) -> bool
    decreases h, 0int,
{
    forall|k: int|
        #![trigger v[k]]
        0 <= k < n && 0 <= height(v[k]) < h ==> table_read(s, v[k], left_by(s, h, v, t, age, k), age)
}

/// A search, and each search made for it, was answered with what the table held then, if the table
/// held `t` at first.
pub open spec fn table_read(s: Setting, x: Searched, t: Seq<Seq<Slot>>, age: u8) -> bool
    decreases height(x), 1int,
{
    if x.quiet {
        quiet_reads(s, x, t, age)
    } else {
        &&& looks_up(s, x) ==> x.entry == answered(t, x.position.hash)
        &&& all_read(s, height(x), all_searches(x), t, age, all_searches(x).len() as int)
    }
}

/// Of a table that is known, some searches read what it held, and left in it what they found.
#[verifier::opaque]
pub open spec fn followed(s: Setting, h: int, v: Seq<Searched>, m: Memory, after: Memory) -> bool {
    m matches Some(x) ==> {
        &&& all_read(s, h, v, x.0, x.1, v.len() as int)
        &&& after == Some((left_by(s, h, v, x.0, x.1, v.len() as int), x.1))
    }
}

/// Of a table that is known, a search read what it held, and left in it what it found.
#[verifier::opaque]
pub open spec fn one_followed(s: Setting, x: Searched, m: Memory, after: Memory) -> bool {
    m matches Some(y) ==> {
        &&& table_read(s, x, y.0, y.1)
        &&& after == Some((replayed(s, x, y.0, y.1), y.1))
    }
}

/// The same of the searches of a node and of the outcome that it stores.
#[verifier::opaque]
pub open spec fn node_followed(x: Searched, s: Setting, node: Node, m: Memory, after: Memory) -> bool {
    m matches Some(y) ==> {
        &&& all_read(s, node_height(node.ply as int), all_searches(x), y.0, y.1, all_searches(x).len() as int)
        &&& after == Some(
            (
                node_stored(
                    x,
                    node,
                    left_by(s, node_height(node.ply as int), all_searches(x), y.0, y.1, all_searches(x).len() as int),
                    y.1,
                ),
                y.1,
            ),
        )
    }
}

/// The same of the searches of a node's moves and of the outcome that it stores.
#[verifier::opaque]
pub open spec fn moves_followed(s: Setting, node: Node, order: Seq<Ranked>, visits: Seq<Visit>, m: Memory, after: Memory) -> bool {
    let v = searches_of(visits, visits.len() as int);
    m matches Some(y) ==> {
        let u = left_by(s, node_height(node.ply as int), v, y.0, y.1, v.len() as int);
        let out = outcome_of(node, order, scores_of(visits), visits.len() as int);
        &&& all_read(s, node_height(node.ply as int), v, y.0, y.1, v.len() as int)
        &&& after == Some(
            (
                if visits.len() > 0 {
                    table_after(
                        u,
                        node.hash,
                        out.best_mv,
                        stored_score(out.best as int, node.ply as int) as i32,
                        node.depth,
                        out.bound,
                        y.1,
                    )
                } else {
                    u
                },
                y.1,
            ),
        )
    }
}

pub proof fn lemma_none_followed(s: Setting, h: int, m: Memory)
    ensures
        followed(s, h, Seq::empty(), m, m),
{
    reveal(followed);
}

proof fn lemma_left_prefix(s: Setting, h: int, v: Seq<Searched>, w: Seq<Searched>, t: Seq<Seq<Slot>>, age: u8, n: int)
    requires
        0 <= n <= v.len(),
    ensures
        left_by(s, h, v + w, t, age, n) == left_by(s, h, v, t, age, n),
    decreases n,
{
    if n > 0 {
        lemma_left_prefix(s, h, v, w, t, age, n - 1);
        assert((v + w)[n - 1] == v[n - 1]);
    }
}

proof fn lemma_left_join(s: Setting, h: int, v: Seq<Searched>, w: Seq<Searched>, t: Seq<Seq<Slot>>, age: u8, n: int)
    requires
        0 <= n <= w.len(),
    ensures
        left_by(s, h, v + w, t, age, v.len() + n) == left_by(s, h, w, left_by(s, h, v, t, age, v.len() as int), age, n),
    decreases n,
{
    if n > 0 {
        lemma_left_join(s, h, v, w, t, age, n - 1);
        assert((v + w)[v.len() + n - 1] == w[n - 1]);
    } else {
        lemma_left_prefix(s, h, v, w, t, age, v.len() as int);
    }
}

/// Searches that follow others.
pub proof fn lemma_join_followed(s: Setting, h: int, v: Seq<Searched>, w: Seq<Searched>, m: Memory, mid: Memory, after: Memory)
    requires
        followed(s, h, v, m, mid),
        followed(s, h, w, mid, after),
    ensures
        followed(s, h, v + w, m, after),
{
    reveal(followed);
    if let Some(x) = m {
        let u = left_by(s, h, v, x.0, x.1, v.len() as int);
        let all = v + w;
        lemma_left_join(s, h, v, w, x.0, x.1, w.len() as int);
        assert forall|k: int|
            #![trigger all[k]]
            0 <= k < all.len() && 0 <= height(all[k]) < h implies table_read(
            s,
            all[k],
            left_by(s, h, all, x.0, x.1, k),
            x.1,
        ) by {
            if k < v.len() {
                assert(all[k] == v[k]);
                lemma_left_prefix(s, h, v, w, x.0, x.1, k);
            } else {
                let j = k - v.len();
                assert(all[k] == w[j]);
                lemma_left_join(s, h, v, w, x.0, x.1, j);
            }
        }
    }
}

/// One search more.
pub proof fn lemma_next_followed(s: Setting, h: int, v: Seq<Searched>, x: Searched, m: Memory, mid: Memory, after: Memory)
    requires
        followed(s, h, v, m, mid),
        one_followed(s, x, mid, after),
        0 <= height(x) < h,
    ensures
        followed(s, h, v.push(x), m, after),
{
    assert(followed(s, h, seq![x], mid, after)) by {
        reveal(followed);
        reveal(one_followed);
        if let Some(y) = mid {
            let w = seq![x];
            assert(left_by(s, h, w, y.0, y.1, 0) == y.0);
            assert(left_by(s, h, w, y.0, y.1, 1) == replayed(s, x, y.0, y.1));
            assert forall|k: int|
                #![trigger w[k]]
                0 <= k < 1 && 0 <= height(w[k]) < h implies table_read(s, w[k], left_by(s, h, w, y.0, y.1, k), y.1) by {
            }
        }
    }
    lemma_join_followed(s, h, v, seq![x], m, mid, after);
    assert(v + seq![x] =~= v.push(x));
}

/// A quiescence search.
pub proof fn lemma_quiet_followed(s: Setting, x: Searched, m: Memory, after: Memory)
    requires
        x.quiet,
        m matches Some(y) ==> quiet_reads(s, x, y.0, y.1) && after == Some((table_left(s, x, y.0, y.1), y.1)),
    ensures
        one_followed(s, x, m, after),
{
    reveal(one_followed);
}

/// A node, once its searches and its outcome are.
pub proof fn lemma_node_followed(s: Setting, x: Searched, m: Memory, after: Memory)
    requires
        !x.quiet,
        node_followed(x, s, node_of(s, x, extended(x.position, x.depth as int)), m, after),
        looks_up(s, x) ==> (m matches Some(y) ==> x.entry == answered(y.0, x.position.hash)),
    ensures
        one_followed(s, x, m, after),
{
    reveal(one_followed);
    reveal(node_followed);
}

/// A node of which the depth is noted otherwise.
pub proof fn lemma_same_node_followed(x: Searched, y: Searched, s: Setting, node: Node, m: Memory, after: Memory)
    requires
        node_followed(y, s, node, m, after),
        x == (Searched { depth: x.depth, ..y }),
    ensures
        node_followed(x, s, node, m, after),
{
    reveal(node_followed);
    assert(all_searches(x) == all_searches(y));
}

/// A node that made searches but stores nothing.
pub proof fn lemma_unstored_followed(x: Searched, s: Setting, node: Node, m: Memory, after: Memory)
    requires
        x.visits.len() == 0,
        followed(s, node_height(node.ply as int), x.before, m, after),
    ensures
        node_followed(x, s, node, m, after),
{
    reveal(followed);
    reveal(node_followed);
    assert(all_searches(x) =~= x.before);
}

/// A node that went on to its moves.
pub proof fn lemma_moves_followed(x: Searched, s: Setting, node: Node, m: Memory, mid: Memory, after: Memory)
    requires
        followed(s, node_height(node.ply as int), x.before, m, mid),
        moves_followed(s, node, x.order, x.visits, mid, after),
    ensures
        node_followed(x, s, node, m, after),
{
    let h = node_height(node.ply as int);
    let v = searches_of(x.visits, x.visits.len() as int);
    reveal(moves_followed);
    reveal(node_followed);
    if let Some(y) = m {
        let u = left_by(s, h, x.before, y.0, y.1, x.before.len() as int);
        assert(mid == Some((u, y.1))) by {
            reveal(followed);
        }
        let last: Memory = Some((left_by(s, h, v, u, y.1, v.len() as int), y.1));
        assert(followed(s, h, v, mid, last)) by {
            reveal(followed);
        }
        lemma_join_followed(s, h, x.before, v, m, mid, last);
        reveal(followed);
    }
}

/// The searches of one move more.
pub proof fn lemma_searches_next(v: Seq<Visit>, w: Visit)
    ensures
        searches_of(v.push(w), v.len() as int + 1) == searches_of(v, v.len() as int) + w.searches,
{
    lemma_searches_prefix(v, w, v.len() as int);
    assert(v.push(w)[v.len() as int] == w);
}

proof fn lemma_searches_prefix(v: Seq<Visit>, w: Visit, n: int)
    requires
        0 <= n <= v.len(),
    ensures
        searches_of(v.push(w), n) == searches_of(v, n),
    decreases n,
{
    if n > 0 {
        lemma_searches_prefix(v, w, n - 1);
        assert(v.push(w)[n - 1] == v[n - 1]);
    }
}

// ---------------- quiescence and deeper results ----------------
/// The moves of two quiescence nodes that both came to have the same scores, and leave tables alike.
proof fn lemma_same_scores(
    s: Setting,
    x: Searched,
    y: Searched,
    stand: i32,
    t: Seq<Seq<Slot>>,
    u: Seq<Seq<Slot>>,
    age: u8,
    n: int,
)
    requires
        accounted(s, x),
        accounted(s, y),
        same_quiet_search(x, y),
        x.order == y.order,
        tables_alike(t, u),
        visits_read(s, x.ply as int, x.visits, t, age, x.visits.len() as int),
        visits_read(s, y.ply as int, y.visits, u, age, y.visits.len() as int),
        0 <= x.ply < 127,
        0 <= n <= x.visits.len() <= x.order.len(),
        n <= y.visits.len(),
        quiet_in_order(x.position.checkers != 0, x.alpha as int, x.beta as int, stand, x.order, scores_of(x.visits)),
        quiet_in_order(x.position.checkers != 0, x.alpha as int, x.beta as int, stand, x.order, scores_of(y.visits)),
        all_quieted(
            Place { position: x.position, path: x.path, cont: x.cont },
            x.tables,
            x.ply as int,
            x.alpha as int,
            x.beta as int,
            stand,
            x.order,
            x.visits,
        ),
        all_quieted(
            Place { position: x.position, path: x.path, cont: x.cont },
            x.tables,
            x.ply as int,
            x.alpha as int,
            x.beta as int,
            stand,
            x.order,
            y.visits,
        ),
    ensures
        forall|k: int| 0 <= k < n ==> scores_of(x.visits)[k] == scores_of(y.visits)[k],
        tables_alike(
            visits_left(s, x.ply as int, x.visits, t, age, n),
            visits_left(s, y.ply as int, y.visits, u, age, n),
        ),
    decreases height(x), 0int, n,
{
    if n > 0 {
        lemma_same_scores(s, x, y, stand, t, u, age, n - 1);
        let k = n - 1;
        let in_check = x.position.checkers != 0;
        let a = scores_of(x.visits);
        let b = scores_of(y.visits);
        let at = Place { position: x.position, path: x.path, cont: x.cont };
        lemma_settled_prefix(in_check, x.alpha as int, stand, x.order, a.take(k), a, k);
        lemma_settled_prefix(in_check, x.alpha as int, stand, x.order, a.take(k), b, k);
        assert(settled_at(in_check, x.alpha as int, x.beta as int, stand, x.order, a, k));
        assert(settled_at(in_check, x.alpha as int, x.beta as int, stand, x.order, b, k));
        let best = settled(stand, x.order, a, k).0 as int;
        assert(quieted_as(at, x.tables, x.ply as int, x.alpha as int, x.beta as int, x.order[k], best, x.visits[k]));
        assert(quieted_as(at, x.tables, x.ply as int, x.alpha as int, x.beta as int, x.order[k], best, y.visits[k]));
        reveal(settled_at);
        reveal(quieted_as);
        assert(a[k] == x.visits[k].score);
        assert(b[k] == y.visits[k].score);
        if a[k] is Some {
            let v = x.visits[k].searches[0];
            let w = y.visits[k].searches[0];
            law_account_reaches_every_search(s, x);
            law_account_reaches_every_search(s, y);
            assert(lies_below(v, x));
            assert(lies_below(w, y));
            assert(child_at(x.ply as int, x.visits, k) == Some(v));
            assert(child_at(y.ply as int, y.visits, k) == Some(w));
            assert(visit_read(s, x.ply as int, x.visits, t, age, k));
            assert(visit_read(s, y.ply as int, y.visits, u, age, k));
            law_deeper_entries_leave_the_score(
                s,
                v,
                w,
                visits_left(s, x.ply as int, x.visits, t, age, k),
                visits_left(s, y.ply as int, y.visits, u, age, k),
                age,
            );
        } else {
            assert(child_at(x.ply as int, x.visits, k) is None);
            assert(child_at(y.ply as int, y.visits, k) is None);
        }
    }
}

/// What the main search stored does not change the score of a quiescence search: two searches of
/// the same node in the same state, whose tables differ at most in the scores and bounds of results
/// deeper than the leaves, come to the same score. Their tables then differ in no more than before.
pub proof fn law_deeper_entries_leave_the_score(
    s: Setting,
    x: Searched,
    y: Searched,
    t: Seq<Seq<Slot>>,
    u: Seq<Seq<Slot>>,
    age: u8,
)
    requires
        accounted(s, x),
        accounted(s, y),
        same_quiet_search(x, y),
        quiet_reads(s, x, t, age),
        quiet_reads(s, y, u, age),
        tables_alike(t, u),
        0 <= x.ply <= 127,
    ensures
        x.result == y.result,
        tables_alike(table_left(s, x, t, age), table_left(s, y, u, age)),
    decreases height(x), 1int, 0int,
{
    let p = x.position;
    let in_check = p.checkers != 0;
    let stand = quiet_stand(s, x);
    let a = scores_of(x.visits);
    let b = scores_of(y.visits);
    assert(quiet_account(s, x) && quiet_account(s, y) && acc_ok(s.net, lent(&x.acc), p) && acc_ok(s.net, lent(&y.acc), p)) by {
        reveal(accounted);
    }
    lemma_same_eval(s.net, x.acc, y.acc, p);
    assert(quiet_stand(s, y) == stand);
    reveal(quiet_account);
    lemma_alike_answers(t, u, p.hash);
    let ranking = noisy_ranking(p, table_move(x.entry), legal_moves(p).len() as int);
    if x.ply < 127 {
        assert(alike(x.entry, y.entry));
        assert(table_decides(x.entry, 0, x.ply as int, x.alpha as int, x.beta as int) == table_decides(
            y.entry,
            0,
            x.ply as int,
            x.alpha as int,
            x.beta as int,
        ));
        assert(table_move(x.entry) == table_move(y.entry));
    }
    assert(quiet_goes_on(s, x) == quiet_goes_on(s, y));
    if quiet_goes_on(s, x) {
        let n = if a.len() <= b.len() {
            a.len() as int
        } else {
            b.len() as int
        };
        lemma_best_first(ranking);
        lemma_same_scores(s, x, y, stand, t, u, age, n);
        if a.len() < b.len() {
            lemma_settled_prefix(in_check, x.alpha as int, stand, x.order, a, b, n);
            assert(settled_at(in_check, x.alpha as int, x.beta as int, stand, x.order, b, n));
            reveal(settled_at);
        } else if b.len() < a.len() {
            lemma_settled_prefix(in_check, x.alpha as int, stand, x.order, b, a, n);
            assert(settled_at(in_check, x.alpha as int, x.beta as int, stand, x.order, a, n));
            reveal(settled_at);
        }
        assert(a =~= b);
        let out = settled(stand, x.order, a, a.len() as int);
        lemma_alike_store(
            visits_left(s, x.ply as int, x.visits, t, age, n),
            visits_left(s, y.ply as int, y.visits, u, age, n),
            p.hash,
            out.1,
            stored_score(out.0 as int, x.ply as int) as i32,
            0,
            bound_of(out.0 as int, x.alpha as int, x.beta as int),
            age,
        );
    }
}

/// A search that was noted answers the call `of`: it has the same arguments and the given result.
pub open spec fn answers(x: Searched, of: Searched, result: i32, stopped: bool) -> bool {
    x == (Searched {
        result,
        stopped,
        entry: x.entry,
        before: x.before,
        ranked_by: x.ranked_by,
        order: x.order,
        visits: x.visits,
        left: x.left,
        ..of
    })
}

// ---------------- laws ----------------
/// A side improves where it stands better than two plies before, in the same line; never in check and
/// never in the first two plies.
pub proof fn law_improving_looks_two_plies_back(p: PosView, ply: int, evals: Seq<i32>, static_eval: int)
    ensures
        p.checkers != 0 || ply < 2 ==> !improves(p, ply, evals, static_eval),
        p.checkers == 0 && ply >= 2 ==> (improves(p, ply, evals, static_eval) <==> evals[ply - 2] < static_eval),
{
}

/// A side in check is searched a ply deeper, and no other.
pub proof fn law_checks_are_searched_deeper(p: PosView, depth: int)
    ensures
        p.checkers != 0 ==> extended(p, depth) == depth + 1,
        p.checkers == 0 ==> extended(p, depth) == depth,
{
}

/// Nothing is drawn at the root; below it a position is after a hundred plies without a capture or
/// pawn move, and where it repeats one.
pub proof fn law_draws_are_below_the_root(p: PosView, ply: int, played: Seq<u64>, path: Seq<u64>)
    ensures
        ply <= 0 ==> !drawn_node(p, ply, played, path),
        ply > 0 && p.halfmove >= 100 ==> drawn_node(p, ply, played, path),
        ply > 0 && p.halfmove < 100 ==> drawn_node(p, ply, played, path) == repeats(played, path, p.hash, p.halfmove),
{
}

/// The root is never cut short. Below it a node in check that nothing is stored about is, only where
/// no mate could still change its score; and out of check an evaluation that stands is at or above
/// beta.
pub proof fn law_short_cuts_are_sound(
    s: Setting,
    t: Tables,
    evals: Seq<i32>,
    p: PosView,
    depth: int,
    ply: int,
    alpha: int,
    beta: int,
    acc: Option<&Acc>,
    cut_node: bool,
    entry: Option<Entry>,
)
    requires
        alpha < beta,
        depth >= 1,
        s.params.rfp_margin >= 0,
    ensures
        ply == 0 ==> shortcut_of(s, t, evals, p, depth, ply, alpha, beta, acc, cut_node, entry) is None,
        ply > 0 && ply - 32_000 <= alpha < 31_999 - ply ==> (entry matches Some(e) ==> (table_decides(entry, depth, ply, alpha, beta)
            ==> shortcut_of(s, t, evals, p, depth, ply, alpha, beta, acc, cut_node, entry) == Some(loaded_score(e.score as int, ply)))),
        ply > 0 && entry is None ==> (shortcut_of(s, t, evals, p, depth, ply, alpha, beta, acc, cut_node, entry) matches Some(v)
            ==> v >= beta || v >= 31_999 - ply || v == ply - 32_000),
        ply > 0 && entry is None && p.checkers != 0 && alpha > ply - 32_000 && alpha < 31_999 - ply ==> shortcut_of(
            s,
            t,
            evals,
            p,
            depth,
            ply,
            alpha,
            beta,
            acc,
            cut_node,
            entry,
        ) is None,
{
    let st = static_eval_of(s.net, t, p, acc);
    let d = iir_depth_of(depth, table_move(entry), cut_node);
    assert(d >= 1);
    let imp = improves(p, ply, evals, st);
    let m = s.params.rfp_margin as int;
    assert(m * d >= 0 && m * (d - 1) >= 0) by (nonlinear_arith)
        requires
            m >= 0,
            d >= 1,
    ;
    assert(stands_above(s.params, p.checkers != 0, ply, d, imp, st, beta) ==> st >= beta);
}

/// The search after a passed turn asks the other side only whether it can get below beta, from the
/// same position with the turn passed, at least a ply and the reduction less deep.
pub proof fn law_passed_turns_are_searched_for_beta(y: Searched, s: Setting, x: Searched, node: Node)
    requires
        pass_search(y, s, x, node),
        s.params.nmp_base >= 0,
        node.depth >= 0,
    ensures
        y.position == position_passed(x.position),
        !y.quiet,
        y.ply == node.ply + 1,
        y.alpha == -node.beta,
        y.beta == y.alpha + 1,
        y.prev == 0,
        y.cut_node != node.cut_node,
        y.depth <= node.depth - 1 - s.params.nmp_base,
        y.path == x.path.push(node.hash),
{
    let d = at_least_one(s.params.nmp_div) as int;
    vstd::arithmetic::div_mod::lemma_div_pos_is_pos(node.depth as int, d);
}

/// A node lies on the principal variation exactly where its window is wider than a point; its window
/// is no wider than the search's, and it knows whether its side is in check.
pub proof fn law_nodes_keep_to_their_search(s: Setting, x: Searched, depth: int)
    requires
        -32_500 <= x.alpha < x.beta <= 32_500,
        0 <= x.ply <= 127,
        -1_000 <= depth <= 1_000,
    ensures
        ({
            let node = node_of(s, x, depth);
            &&& node.alpha >= x.alpha
            &&& node.beta == x.beta
            &&& node.is_pv <==> node.beta - node.alpha >= 2
            &&& x.ply == 0 || x.alpha >= x.ply - 32_000 ==> node.alpha == x.alpha
            &&& node.in_check <==> x.position.checkers != 0
            &&& node.hash == x.position.hash
            &&& node.ply == x.ply
            &&& depth - 2 <= node.depth <= depth
            &&& table_move(x.entry) != 0 ==> node.depth == depth
            &&& x.cont.len() >= 1 ==> node.preds.one == x.cont.last()
            &&& x.cont.len() >= 2 ==> node.preds.two == x.cont[x.cont.len() - 2]
            &&& x.cont.len() == 0 ==> node.preds.one == 384
        }),
{
}

/// The captures tried against the raised bound must make up for what the evaluation lacks of it; how
/// deep a stored result is, and what it says, comes from the entry alone.
pub proof fn law_tried_captures_close_the_gap(p: PosView, node: Node, k: int)
    requires
        0 <= k < tried_captures(p, node).len(),
    ensures
        node.static_eval + see_of(p, tried_captures(p, node)[k].mv, mover(p, tried_captures(p, node)[k].mv)) >= node.beta + 200,
{
    lemma_gap(p, node.beta + PROBCUT_MARGIN - node.static_eval, legal_moves(p).len() as int, k);
}

proof fn lemma_gap(p: PosView, need: int, n: int, k: int)
    requires
        0 <= n <= legal_moves(p).len(),
        0 <= k < probcut_list(p, need, n).len(),
    ensures
        see_of(p, probcut_list(p, need, n)[k].mv, mover(p, probcut_list(p, need, n)[k].mv)) >= need,
    decreases n,
{
    if n > 0 && k < probcut_list(p, need, n - 1).len() {
        lemma_gap(p, need, n - 1, k);
    }
}

/// A quiescence search out of check may stand on the evaluation; in check it has nothing to stand on.
pub proof fn law_checks_leave_nothing_to_stand_on(s: Setting, x: Searched)
    ensures
        x.position.checkers != 0 ==> quiet_stand(s, x) == -32_500,
{
}

/// Out of check a quiescence search scores no less than the evaluation it stands on, unless the table
/// answers it.
pub proof fn law_quiet_searches_stand_on_the_evaluation(s: Setting, x: Searched)
    requires
        quiet_account(s, x),
        x.position.checkers == 0,
        x.ply < 127,
        !table_decides(x.entry, 0, x.ply as int, x.alpha as int, x.beta as int),
    ensures
        x.result >= quiet_stand(s, x),
        quiet_stand(s, x) >= x.beta ==> x.result == quiet_stand(s, x),
{
    reveal(quiet_account);
    let scores = scores_of(x.visits);
    if quiet_stand(s, x) < x.beta {
        law_first_best_score_settles(quiet_stand(s, x), x.order, scores, scores.len() as int);
    }
}

/// At the horizon a search is the quiescence search of its position, in its own window.
pub proof fn law_the_horizon_is_searched_for_quiet(s: Setting, x: Searched)
    requires
        main_account(s, x),
        !drawn_node(x.position, x.ply as int, s.played, x.path),
        x.depth <= 0,
        x.position.checkers == 0,
    ensures
        x.before.len() == 1,
        x.before[0].quiet,
        x.before[0].position == x.position,
        x.before[0].ply == x.ply,
        x.before[0].alpha == x.alpha,
        x.before[0].beta == x.beta,
        x.result == x.before[0].result,
{
    reveal(main_account);
}

/// The quiet moves that a cutoff penalizes are those that were searched, each once.
pub proof fn law_penalized_moves_were_searched(p: PosView, order: Seq<Ranked>, scores: Seq<Option<i32>>, n: int)
    requires
        0 <= n <= order.len(),
        n <= scores.len(),
    ensures
        quiets_tried(p, order, scores, n).len() == quiets_searched(order, scores, n),
        quiets_tried(p, order, scores, n).len() + captures_tried(order, scores, n).len() <= n,
        forall|k: int|
            0 <= k < captures_tried(order, scores, n).len() ==> tag_bit((#[trigger] captures_tried(order, scores, n)[k]).tag, 3),
        forall|k: int|
            0 <= k < quiets_tried(p, order, scores, n).len() ==> (#[trigger] quiets_tried(p, order, scores, n)[k]).0.promotion is None,
    decreases n,
{
    if n > 0 {
        law_penalized_moves_were_searched(p, order, scores, n - 1);
    }
}

/// A move's reduction is none for the first three moves, in check and close to the horizon, and never
/// negative.
pub proof fn law_reductions_spare_the_first_moves(s: Setting, t: Tables, p: PosView, node: Node, x: Ranked, number: int, is_quiet: bool, is_capture: bool)
    ensures
        move_reduction_of(s, t, p, node, x, number, is_quiet, is_capture) >= 0,
        number < 3 || node.depth < 3 || node.in_check ==> move_reduction_of(s, t, p, node, x, number, is_quiet, is_capture) == 0,
        number >= 63 ==> move_reduction_of(s, t, p, node, x, number, is_quiet, is_capture) == move_reduction_of(
            s,
            t,
            p,
            node,
            x,
            63,
            is_quiet,
            is_capture,
        ),
{
}

/// The root keeps its move unless a search has found one with a score.
pub proof fn law_the_root_takes_scored_moves(kept: u16, s: Setting, x: Searched, depth: int)
    ensures
        ({
            let out = outcome_of(node_of(s, x, depth), x.order, scores_of(x.visits), x.visits.len() as int);
            &&& out.best > -32_500 ==> root_found(kept, s, x, depth) == out.best_mv
            &&& out.best <= -32_500 ==> root_found(kept, s, x, depth) == kept
        }),
{
}

/// The evaluation of a node is the position's, corrected by little more than a pawn.
pub proof fn law_corrected_evaluations_stay_close(net: Option<Arc<Network>>, t: Tables, p: PosView, acc: Option<&Acc>)
    requires
        t.wf(),
        p.side < 2,
    ensures
        node_eval(net, acc, p) - 128 <= static_eval_of(net, t, p, acc) <= node_eval(net, acc, p) + 128,
{
    reveal(corr_bucket);
    law_correction_is_small(t, corr_bucket(p.men, p.side), node_eval(net, acc, p));
}

/// A passed turn that still holds beta settles the node at beta, without a search of its moves.
pub proof fn law_passed_turns_settle_at_beta(s: Setting, x: Searched, node: Node)
    requires
        inner_account(s, x, node),
        may_pass(x.position, node),
    ensures
        x.before.len() >= 1,
        -x.before[0].result >= node.beta ==> x.result == node.beta && x.visits.len() == 0 && x.before.len() == 1,
{
    reveal(inner_account);
}

/// A node without a table's answer, a passed turn or a raised bound that settles it scores what its
/// moves score: the best of them, and mate or nothing where it has none.
pub proof fn law_nodes_score_their_best_move(s: Setting, x: Searched, node: Node, k: int)
    requires
        moves_account(s, x, node),
    ensures
        legal_moves(x.position).len() == 0 ==> x.result == no_move_score(x.position, node.ply as int),
        legal_moves(x.position).len() > 0 && 0 <= k < x.visits.len() ==> (x.visits[k].score matches Some(v) ==> v <= x.result),
{
    reveal(follows_from_moves);
    if legal_moves(x.position).len() > 0 {
        let scores = scores_of(x.visits);
        law_first_best_score_wins(node, x.order, scores, scores.len() as int);
        if 0 <= k < x.visits.len() {
            assert(scores[k] == x.visits[k].score);
        }
    }
}

} // verus!

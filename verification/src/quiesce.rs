//! The quiescence search at the leaves: captures and queen promotions until a position is quiet.
use vstd::prelude::*;
use crate::account::{
    Place, Searched, Visit, accounted, all_quieted, answers, quiet_reads, table_left, visits_left, visits_read, lemma_visit_read, held, lemma_accounted, lemma_held,
    lemma_none_accounted, lemma_one_more_accounted, lemma_quieted_next, quiet_account,
    quiet_goes_on, quiet_remembered, quiet_stand, quieted_as, remembers, scores_of, static_eval_of,
    table_move, visits_accounted,
};
use crate::board::{
    Move, PosView, Position, legal_moves, legal_shape, mover, wf,
};
use crate::eval::{piece_val, value_of};
use crate::history::{
    INF, MATE, MAX_PLY, corr_index,
};
use crate::instrument::record;
use crate::nnue::Acc;
use crate::rules::{
    Ranked, best_first, bound_for, bound_of, stored_score, cuts, lemma_same_moves, loaded_score,
    quiescence_move, quiescence_score, lemma_best_first, order_ranked, rank_noisy, taken_by,
    tt_cuts, tt_score_from, tt_score_to,
};
use crate::search::{
    SCORE_LIMIT, Searcher, WINDOW_LIMIT, acc_ok, node_eval, sound, window_ok,
};
use crate::shared::Table;
use crate::tag::{
    law_tag_reads_back, tag_of,
};
use crate::tt::{
    Entry, answered, pack, packed,
};
use crate::tag;

verus! {

/// A ranked move of the quiescence search: legal, with its mover and victim.
pub open spec fn qranked(p: PosView, x: Ranked) -> bool {
    &&& legal_moves(p).contains(x.mv)
    &&& legal_shape(p, x.mv)
    &&& quiescence_move(p, x.mv)
    &&& x.tag == tag_of(mover(p, x.mv), taken_by(p, x.mv), false, false)
}

pub open spec fn all_qranked(p: PosView, v: Seq<Ranked>) -> bool {
    forall|k: int| 0 <= k < v.len() ==> qranked(p, #[trigger] v[k])
}

/// A stored result is deep enough and decides the window.
pub open spec fn table_decides(entry: Option<Entry>, depth: int, ply: int, alpha: int, beta: int) -> bool {
    match entry {
        Some(e) => (if depth > 0 {
            e.depth >= depth
        } else {
            e.depth <= 0
        }) && cuts(e.bound, loaded_score(e.score as int, ply), alpha, beta),
        None => false,
    }
}

/// What a quiescence search stored never cuts the main search, and what the main search stored
/// never cuts a quiescence search.
pub proof fn law_depth_keeps_the_searches_apart(e: Entry, depth: int, ply: int, alpha: int, beta: int)
    requires
        depth >= 1,
    ensures
        e.depth <= 0 ==> !table_decides(Some(e), depth, ply, alpha, beta),
        e.depth >= 1 ==> !table_decides(Some(e), 0, ply, alpha, beta),
{
}

/// No legal move is one that a quiescence search goes into.
pub open spec fn quiet_position(p: PosView) -> bool {
    forall|m: Move| #[trigger] legal_moves(p).contains(m) ==> !quiescence_move(p, m)
}

/// How the quiescence search ranks a move.
pub open spec fn noisy_rank(p: PosView, m: Move, tt_mv: u16) -> Ranked {
    Ranked {
        score: quiescence_score(p, m, tt_mv) as i32,
        mv: m,
        tag: tag_of(mover(p, m), taken_by(p, m), false, false) as u8,
    }
}

/// Those of the first `n` legal moves that a quiescence search goes into, ranked.
pub open spec fn noisy_ranking(p: PosView, tt_mv: u16, n: int) -> Seq<Ranked>
    decreases n,
{
    if n <= 0 {
        Seq::empty()
    } else if quiescence_move(p, legal_moves(p)[n - 1]) {
        noisy_ranking(p, tt_mv, n - 1).push(noisy_rank(p, legal_moves(p)[n - 1], tt_mv))
    } else {
        noisy_ranking(p, tt_mv, n - 1)
    }
}

/// The best score after the first `n` moves, each of which was skipped or has a score, and the
/// first move that has it; at first what stands without a move.
pub open spec fn settled(stand: i32, moves: Seq<Ranked>, scores: Seq<Option<i32>>, n: int) -> (i32, u16)
    decreases n,
{
    if n <= 0 {
        (stand, 0)
    } else {
        let before = settled(stand, moves, scores, n - 1);
        match scores[n - 1] {
            Some(sc) => if sc > before.0 {
                (sc, packed(moves[n - 1].mv) as u16)
            } else {
                before
            },
            None => before,
        }
    }
}

/// The lower bound of the window once something stands: in check, only a move's score counts.
pub open spec fn lifted(in_check: bool, alpha: int, best: int) -> int {
    if best > alpha && (!in_check || best > -INF) {
        best
    } else {
        alpha
    }
}

/// A capture that cannot come near alpha: out of check, its victim and a margin do not lift the
/// best score to it.
pub open spec fn hopeless(in_check: bool, x: Ranked, best: int, alpha: int) -> bool {
    let v = x.tag as int / 32;
    !in_check && v != 0 && best + value_of((v - 1) as u8) + 200 < alpha
}

/// Whether the loop skips move `k`, given what came before it.
#[verifier::opaque]
pub open spec fn left_out(in_check: bool, alpha: int, stand: i32, moves: Seq<Ranked>, scores: Seq<Option<i32>>, k: int) -> bool {
    let best = settled(stand, moves, scores, k).0 as int;
    hopeless(in_check, moves[k], best, lifted(in_check, alpha, best))
}

/// A move has reached beta.
pub open spec fn settled_above(stand: i32, beta: int, best: i32) -> bool {
    best > stand && best >= beta
}

/// Before move `k` no score had reached beta, and there is one of it unless it is hopeless.
#[verifier::opaque]
pub open spec fn settled_at(in_check: bool, alpha: int, beta: int, stand: i32, moves: Seq<Ranked>, scores: Seq<Option<i32>>, k: int) -> bool {
    &&& !settled_above(stand, beta, settled(stand, moves, scores, k).0)
    &&& scores[k] is None <==> left_out(in_check, alpha, stand, moves, scores, k)
}

/// No score but the last has reached beta, and there is one of every capture that is not
/// hopeless.
pub open spec fn quiet_in_order(in_check: bool, alpha: int, beta: int, stand: i32, moves: Seq<Ranked>, scores: Seq<Option<i32>>) -> bool {
    forall|k: int| 0 <= k < scores.len() ==> #[trigger] settled_at(in_check, alpha, beta, stand, moves, scores, k)
}

/// What the loop did with the moves of a quiescence node: it goes through them in order until a
/// score reaches beta, and has a score of every one that is not hopeless.
pub open spec fn settles(in_check: bool, alpha: int, beta: int, stand: i32, moves: Seq<Ranked>, scores: Seq<Option<i32>>) -> bool {
    &&& scores.len() <= moves.len()
    &&& quiet_in_order(in_check, alpha, beta, stand, moves, scores)
    &&& scores.len() < moves.len() ==> settled_above(stand, beta, settled(stand, moves, scores, scores.len() as int).0)
}

/// One move more.
proof fn lemma_settled_next(in_check: bool, alpha: int, beta: int, stand: i32, moves: Seq<Ranked>, scores: Seq<Option<i32>>, next: Option<i32>)
    requires
        scores.len() < moves.len(),
        quiet_in_order(in_check, alpha, beta, stand, moves, scores),
        !settled_above(stand, beta, settled(stand, moves, scores, scores.len() as int).0),
        next is None <==> left_out(in_check, alpha, stand, moves, scores, scores.len() as int),
    ensures
        quiet_in_order(in_check, alpha, beta, stand, moves, scores.push(next)),
        settled(stand, moves, scores.push(next), scores.len() as int + 1) == ({
            let before = settled(stand, moves, scores, scores.len() as int);
            match next {
                Some(sc) => if sc > before.0 {
                    (sc, packed(moves[scores.len() as int].mv) as u16)
                } else {
                    before
                },
                None => before,
            }
        }),
{
    let all = scores.push(next);
    lemma_settled_prefix(in_check, alpha, stand, moves, scores, all, scores.len() as int);
    assert forall|k: int| 0 <= k < all.len() implies #[trigger] settled_at(in_check, alpha, beta, stand, moves, all, k) by {
        assert(k < scores.len() ==> settled_at(in_check, alpha, beta, stand, moves, scores, k));
        reveal(settled_at);
        lemma_settled_prefix(in_check, alpha, stand, moves, scores, all, k);
    }
}

/// What the loop comes to depends on the scores that went into it alone.
pub proof fn lemma_settled_prefix(in_check: bool, alpha: int, stand: i32, moves: Seq<Ranked>, a: Seq<Option<i32>>, b: Seq<Option<i32>>, n: int)
    requires
        0 <= n <= a.len() <= b.len(),
        forall|k: int| 0 <= k < n ==> a[k] == b[k],
    ensures
        settled(stand, moves, a, n) == settled(stand, moves, b, n),
        left_out(in_check, alpha, stand, moves, a, n) == left_out(in_check, alpha, stand, moves, b, n),
    decreases n,
{
    reveal(left_out);
    if n > 0 {
        lemma_settled_prefix(in_check, alpha, stand, moves, a, b, n - 1);
    }
}

/// A quiescence node settles on what stands or, where a move is better, on the first of the
/// best.
pub proof fn law_first_best_score_settles(stand: i32, moves: Seq<Ranked>, scores: Seq<Option<i32>>, n: int)
    requires
        0 <= n <= scores.len() <= moves.len(),
    ensures
        settled(stand, moves, scores, n).0 >= stand,
        forall|k: int| 0 <= k < n && #[trigger] scores[k] is Some ==> scores[k]->0 <= settled(stand, moves, scores, n).0,
        settled(stand, moves, scores, n).0 > stand ==> exists|k: int|
            0 <= k < n && #[trigger] scores[k] == Some(settled(stand, moves, scores, n).0) && settled(stand, moves, scores, n).1
                == packed(moves[k].mv) as u16 && forall|j: int|
                0 <= j < k && #[trigger] scores[j] is Some ==> scores[j]->0 < scores[k]->0,
    decreases n,
{
    if n > 0 {
        law_first_best_score_settles(stand, moves, scores, n - 1);
        if scores[n - 1] is Some && scores[n - 1]->0 > settled(stand, moves, scores, n - 1).0 {
            assert(scores[n - 1] == Some(settled(stand, moves, scores, n).0));
        }
    }
}

/// A position without legal moves has no noisy ones.
proof fn lemma_noisy_len(p: PosView, tt_mv: u16, n: int)
    ensures
        noisy_ranking(p, tt_mv, n).len() <= if n > 0 {
            n
        } else {
            0
        },
    decreases n,
{
    if n > 0 {
        lemma_noisy_len(p, tt_mv, n - 1);
    }
}

impl<T: Table> Searcher<T> {
    /// Static evaluation with what has been learned of the pawn structure.
    pub open spec fn static_of(&self, p: PosView, acc: Option<&Acc>) -> int {
        static_eval_of(self.net, self.tables, p, acc)
    }

    /// A quiescence search from here, of which nothing has come yet.
    pub open spec fn quiet_search(&self, p: PosView, ply: i32, alpha: i32, beta: i32, acc: Option<&Acc>) -> Searched {
        Searched {
            position: p,
            quiet: true,
            depth: 0,
            ply,
            alpha,
            beta,
            prev: 0,
            cut_node: false,
            path: self.path@,
            cont: self.cont_stack@,
            result: 0,
            stopped: false,
            entry: None,
            acc: held(acc),
            tables: self.tables,
            evals: self.eval_hist@,
            before: Seq::empty(),
            ranked_by: self.tables,
            order: Seq::empty(),
            visits: Seq::empty(),
            left: self.tables,
        }
    }

    /// Of a table that is known, a quiescence search read what it held at each node, and left in it
    /// what it found.
    pub open spec fn quiet_followed(&self, before: &Self, x: Searched) -> bool {
        before.tt.memory() matches Some(m) ==> {
            &&& quiet_reads(before.setting(), x, m.0, m.1)
            &&& self.tt.memory() == Some((table_left(before.setting(), x, m.0, m.1), m.1))
        }
    }

    /// A quiescence search touches the table, its counters and its buffers, notes the searches it
    /// makes, and nothing else.
    pub open spec fn quiesced(&self, before: &Self) -> bool {
        &&& *self == (Searcher {
            tt: self.tt,
            nodes: self.nodes,
            seldepth: self.seldepth,
            stopped: self.stopped,
            qmove_buf: self.qmove_buf,
            log: self.log,
            polls: self.polls,
            visited: self.visited,
            ..*before
        })
        &&& before.stopped ==> self.stopped
        &&& self.visited@ >= before.visited@
        &&& before.polls@.len() > 0 ==> self.polls@.len() > 0 && self.polls@[0] == before.polls@[0]
    }

    /// Ranks the moves of a quiescence node, best first.
    pub fn noisy_moves(&self, board: &Position, tt_mv: u16, moves: &mut Vec<Ranked>)
        requires
            wf(board@),
        ensures
            final(moves)@ == best_first(noisy_ranking(board@, tt_mv, legal_moves(board@).len() as int)),
            all_qranked(board@, final(moves)@),
            final(moves)@.len() == 0 ==> forall|k: int|
                0 <= k < legal_moves(board@).len() ==> !quiescence_move(board@, #[trigger] legal_moves(board@)[k]),
    {
        let all = board.moves();
        let n: usize = all.len();
        moves.clear();
        let mut i: usize = 0;
        while i < n
            invariant
                i <= n,
                n == all@.len(),
                wf(board@),
                all@ == legal_moves(board@),
                forall|k: int| 0 <= k < all@.len() ==> legal_shape(board@, #[trigger] all@[k]),
                all_qranked(board@, moves@),
                moves@ == noisy_ranking(board@, tt_mv, i as int),
                moves@.len() == 0 ==> forall|k: int| 0 <= k < i ==> !quiescence_move(board@, #[trigger] all@[k]),
            decreases n - i,
        {
            let mv: Move = all[i];
            assert(legal_shape(board@, all@[i as int]));
            assert(legal_moves(board@).contains(mv));
            match rank_noisy(board, mv, tt_mv) {
                Some(x) => {
                    assert(x == noisy_rank(board@, mv, tt_mv));
                    moves.push(x);
                },
                None => {},
            }
            i = i + 1;
        }
        let ghost before = moves@;
        order_ranked(moves);
        proof {
            lemma_best_first(before);
        }
        assert forall|k: int| 0 <= k < moves@.len() implies qranked(board@, #[trigger] moves@[k]) by {
            lemma_same_moves(before, moves@, k);
        }
    }

    /// Quiescence search: captures and queen promotions until the position is quiet, all
    /// evasions while in check. A result the table holds from a quiescence search decides where
    /// its bound does.
    pub fn qsearch(&mut self, board: &Position, ply: i32, alpha: i32, beta: i32, acc: Option<&Acc>) -> (r: i32)
        requires
            old(self).sane(),
            wf(board@),
            0 <= ply <= 127,
            window_ok(alpha as int, beta as int),
            acc_ok(old(self).net, acc, board@),
        ensures
            final(self).wf(),
            final(self).quiesced(old(self)),
            final(self).log@ == old(self).log@.push(final(self).log@.last()),
            answers(final(self).log@.last(), old(self).quiet_search(board@, ply, alpha, beta, acc), r, final(self).stopped),
            accounted(old(self).setting(), final(self).log@.last()),
            final(self).log@.last().left == old(self).tables,
            !final(self).stopped && quiet_goes_on(old(self).setting(), final(self).log@.last()) ==> quiet_remembered(
                final(self).tt,
                old(self).setting(),
                final(self).log@.last(),
            ),
            !final(self).stopped && ply < 127 ==> old(self).tt.may_answer(board@.hash, final(self).log@.last().entry),
            !final(self).stopped ==> final(self).quiet_followed(old(self), final(self).log@.last()),
            old(self).stopped || ply == 127 ==> r == node_eval(old(self).net, acc, board@),
            final(self).visited@ > old(self).visited@,
            final(self).stopped && final(self).visited@ == old(self).visited@ + 1 ==> r == node_eval(
                old(self).net,
                acc,
                board@,
            ),
            -WINDOW_LIMIT <= r <= WINDOW_LIMIT,
            !final(self).stopped ==> sound(r as int, alpha as int, beta as int),
        decreases MAX_PLY - ply, 3int,
    {
        self.count_node();
        if ply > self.seldepth {
            self.seldepth = ply;
        }
        if self.check_stop() || ply >= 127 {
            let r: i32 = self.eval_node(board, acc);
            let ghost x = Searched {
                result: r,
                stopped: self.stopped,
                ..old(self).quiet_search(board@, ply, alpha, beta, acc)
            };
            self.log = Ghost(old(self).log@.push(x));
            proof {
                lemma_held(acc);
                assert(accounted(self.setting(), x)) by {
                    reveal(quiet_account);
                    reveal(accounted);
                }
            }
            return r;
        }
        let entry: Option<Entry> = self.tt.lookup(board.hash());
        self.quiesce(board, ply, alpha, beta, acc, entry)
    }

    /// Searches the moves of a quiescence node in order, from what stands without a move. Hopeless
    /// captures are skipped; the first move that reaches beta ends the search. The best score
    /// comes with its move and with the scores it is the best of.
    #[verifier::rlimit(60)]
    fn settle(&mut self, board: &Position, ply: i32, alpha: i32, beta: i32, stand: i32, moves: &Vec<Ranked>, acc: Option<&Acc>) -> (r: (i32, u16, Ghost<Seq<Visit>>))
        requires
            old(self).wf(),
            wf(board@),
            0 <= ply <= 126,
            window_ok(alpha as int, beta as int),
            all_qranked(board@, moves@),
            acc_ok(old(self).net, acc, board@),
            !old(self).stopped,
            board@.checkers != 0 ==> stand == -INF && moves@.len() > 0,
            board@.checkers == 0 ==> -SCORE_LIMIT <= stand <= SCORE_LIMIT && stand < beta,
        ensures
            final(self).wf(),
            final(self).quiesced(old(self)),
            stand <= r.0 <= WINDOW_LIMIT,
            moves@.len() == 0 ==> r.0 == stand && *final(self) == *old(self),
            final(self).stopped ==> final(self).visited@ > old(self).visited@,
            !final(self).stopped ==> (old(self).tt.memory() matches Some(m) ==> {
                let s = old(self).setting();
                &&& visits_read(s, ply as int, r.2@, m.0, m.1, r.2@.len() as int)
                &&& final(self).tt.memory() == Some(
                    (visits_left(s, ply as int, r.2@, m.0, m.1, r.2@.len() as int), m.1),
                )
            }),
            !final(self).stopped ==> sound(r.0 as int, alpha as int, beta as int),
            !final(self).stopped ==> settles(
                board@.checkers != 0,
                alpha as int,
                beta as int,
                stand,
                moves@,
                scores_of(r.2@),
            ) && (r.0, r.1) == settled(stand, moves@, scores_of(r.2@), r.2@.len() as int) && all_quieted(
                Place { position: board@, path: old(self).path@, cont: old(self).cont_stack@ },
                old(self).tables,
                ply as int,
                alpha as int,
                beta as int,
                stand,
                moves@,
                r.2@,
            ) && visits_accounted(old(self).setting(), r.2@, ply + 1),
        decreases MAX_PLY - ply, 0int,
    {
        let in_check: bool = board.in_check();
        let mut best: i32 = stand;
        let mut best_mv: u16 = 0;
        let mut a: i32 = if stand > alpha && (!in_check || stand > -INF) {
            stand
        } else {
            alpha
        };
        let n: usize = moves.len();
        let mut i: usize = 0;
        let mut done: bool = false;
        let ghost mut visits: Seq<Visit> = Seq::empty();
        let ghost mut scores: Seq<Option<i32>> = Seq::empty();
        let ghost at = Place { position: board@, path: self.path@, cont: self.cont_stack@ };
        assert(scores_of(visits) =~= scores);
        while i < n && !done
            invariant
                i <= n,
                n == moves@.len(),
                wf(board@),
                0 <= ply <= 126,
                window_ok(alpha as int, beta as int),
                all_qranked(board@, moves@),
                self.wf(),
                self.quiesced(old(self)),
                i == 0 ==> *self == *old(self),
                !self.stopped,
                in_check == (board@.checkers != 0),
                acc_ok(self.net, acc, board@),
                !in_check ==> -SCORE_LIMIT <= stand < beta,
                in_check ==> stand == -INF,
                stand <= best <= WINDOW_LIMIT,
                best > alpha ==> best <= SCORE_LIMIT,
                a == lifted(in_check, alpha as int, best as int),
                !done ==> a < beta,
                done <==> settled_above(stand, beta as int, best),
                scores.len() == i,
                (best, best_mv) == settled(stand, moves@, scores, i as int),
                quiet_in_order(in_check, alpha as int, beta as int, stand, moves@, scores),
                scores == scores_of(visits),
                visits.len() == i,
                at == (Place { position: board@, path: old(self).path@, cont: old(self).cont_stack@ }),
                all_quieted(at, old(self).tables, ply as int, alpha as int, beta as int, stand, moves@, visits),
                visits_accounted(old(self).setting(), visits, ply + 1),
                old(self).tt.memory() matches Some(m) ==> {
                    let s = old(self).setting();
                    &&& visits_read(s, ply as int, visits, m.0, m.1, visits.len() as int)
                    &&& self.tt.memory() == Some((visits_left(s, ply as int, visits, m.0, m.1, visits.len() as int), m.1))
                },
            decreases n - i,
        {
            let x: Ranked = moves[i];
            assert(qranked(board@, moves@[i as int]));
            let mv: Move = x.mv;
            let vic: u8 = tag::victim(x.tag);
            proof {
                law_tag_reads_back(x.tag, mover(board@, mv), taken_by(board@, mv), false, false);
            }
            let no_hope: bool = if !in_check && vic != 0 {
                best + piece_val(vic - 1) + 200 < a
            } else {
                false
            };
            assert(no_hope == left_out(in_check, alpha as int, stand, moves@, scores, i as int)) by {
                reveal(left_out);
            }
            i = i + 1;
            if no_hope {
                proof {
                    lemma_settled_next(in_check, alpha as int, beta as int, stand, moves@, scores, None);
                    scores = scores.push(None);
                    let v = Visit { tables: self.tables, score: None, searches: Seq::empty() };
                    reveal(quieted_as);
                    lemma_quieted_next(at, old(self).tables, ply as int, alpha as int, beta as int, stand, moves@, visits, v);
                    lemma_none_accounted(self.setting(), v.searches, ply + 1, false);
                    if let Some(m) = old(self).tt.memory() {
                        lemma_visit_read(self.setting(), ply as int, visits, v, m.0, m.1);
                    }
                    visits = visits.push(v);
                }
                continue ;
            }
            let nb = board.play(mv);
            let nacc = self.follow(board, mv, acc);
            let sc: i32 = -self.qsearch(&nb, ply + 1, -beta, -a, nacc.as_ref());
            if self.stopped {
                return (if sc > best {
                    sc
                } else {
                    best
                }, best_mv, Ghost(visits));
            }
            proof {
                lemma_settled_next(in_check, alpha as int, beta as int, stand, moves@, scores, Some(sc));
                scores = scores.push(Some(sc));
                let y = self.log@.last();
                let v = Visit { tables: self.tables, score: Some(sc), searches: Seq::empty().push(y) };
                reveal(quieted_as);
                lemma_quieted_next(at, old(self).tables, ply as int, alpha as int, beta as int, stand, moves@, visits, v);
                lemma_none_accounted(self.setting(), Seq::empty(), ply + 1, false);
                lemma_one_more_accounted(self.setting(), Seq::empty(), ply + 1, y, false, false);
                if let Some(m) = old(self).tt.memory() {
                    lemma_visit_read(self.setting(), ply as int, visits, v, m.0, m.1);
                }
                visits = visits.push(v);
            }
            if sc > best {
                best = sc;
                best_mv = pack(mv);
                if sc > a {
                    a = sc;
                }
                if sc >= beta {
                    done = true;
                }
            }
        }
        (best, best_mv, Ghost(visits))
    }

    /// Quiescence search of a node of which the table has answered `entry`. An answer that
    /// decides the window is the result. Otherwise, in check a side without moves is mated; out
    /// of check the corrected static evaluation is a lower bound of the result, and is the result
    /// where it reaches beta or there is nothing to capture.
    #[verifier::rlimit(60)]
    pub fn quiesce(&mut self, board: &Position, ply: i32, alpha: i32, beta: i32, acc: Option<&Acc>, entry: Option<Entry>) -> (r: i32)
        requires
            old(self).wf(),
            wf(board@),
            0 <= ply <= 126,
            window_ok(alpha as int, beta as int),
            acc_ok(old(self).net, acc, board@),
            !old(self).stopped,
        ensures
            final(self).wf(),
            final(self).quiesced(old(self)),
            final(self).stopped ==> final(self).visited@ > old(self).visited@,
            final(self).log@ == old(self).log@.push(final(self).log@.last()),
            answers(final(self).log@.last(), old(self).quiet_search(board@, ply, alpha, beta, acc), r, final(self).stopped),
            final(self).log@.last().entry == entry,
            !final(self).stopped ==> quiet_account(old(self).setting(), final(self).log@.last()),
            accounted(old(self).setting(), final(self).log@.last()),
            final(self).log@.last().left == old(self).tables,
            !final(self).stopped && quiet_goes_on(old(self).setting(), final(self).log@.last()) ==> quiet_remembered(
                final(self).tt,
                old(self).setting(),
                final(self).log@.last(),
            ),
            !final(self).stopped && (old(self).tt.memory() matches Some(m) ==> entry == answered(m.0, board@.hash))
                ==> final(self).quiet_followed(old(self), final(self).log@.last()),
            -WINDOW_LIMIT <= r <= WINDOW_LIMIT,
            !final(self).stopped ==> sound(r as int, alpha as int, beta as int),
            table_decides(entry, 0, ply as int, alpha as int, beta as int) ==> r == loaded_score(
                entry->0.score as int,
                ply as int,
            ) && *final(self) == (Searcher { log: final(self).log, ..*old(self) }),
            !table_decides(entry, 0, ply as int, alpha as int, beta as int) ==> ({
                let stand = old(self).static_of(board@, acc);
                if board@.checkers != 0 {
                    legal_moves(board@).len() == 0 ==> r == -MATE + ply
                } else {
                    &&& r >= stand
                    &&& stand >= beta ==> r == stand && *final(self) == (Searcher { log: final(self).log, ..*old(self) })
                    &&& quiet_position(board@) ==> r == stand
                }
            }),
        decreases MAX_PLY - ply, 2int,
    {
        let (r, Ghost(g)) = self.quiet_result(board, ply, alpha, beta, acc, entry);
        let ghost x = Searched {
            result: r,
            stopped: self.stopped,
            entry,
            order: g.0,
            visits: g.1,
            ..old(self).quiet_search(board@, ply, alpha, beta, acc)
        };
        self.log = Ghost(old(self).log@.push(x));
        proof {
            lemma_held(acc);
            lemma_none_accounted(self.setting(), x.before, ply + 1, false);
            lemma_accounted(self.setting(), x, ply + 1);
            lemma_noisy_len(board@, table_move(entry), legal_moves(board@).len() as int);
            reveal(quiet_account);
        }
        r
    }

    /// The result of a quiescence node, with its moves in order and what was done with them.
    #[verifier::rlimit(60)]
    #[verifier::spinoff_prover]
    fn quiet_result(&mut self, board: &Position, ply: i32, alpha: i32, beta: i32, acc: Option<&Acc>, entry: Option<Entry>) -> (r: (i32, Ghost<(Seq<Ranked>, Seq<Visit>)>))
        requires
            old(self).wf(),
            wf(board@),
            0 <= ply <= 126,
            window_ok(alpha as int, beta as int),
            acc_ok(old(self).net, acc, board@),
            !old(self).stopped,
        ensures
            final(self).wf(),
            final(self).quiesced(old(self)),
            final(self).stopped ==> final(self).visited@ > old(self).visited@,
            -WINDOW_LIMIT <= r.0 <= WINDOW_LIMIT,
            !final(self).stopped ==> sound(r.0 as int, alpha as int, beta as int),
            !final(self).stopped ==> quiet_account(
                old(self).setting(),
                (Searched {
                    result: r.0,
                    entry,
                    order: r.1@.0,
                    visits: r.1@.1,
                    ..old(self).quiet_search(board@, ply, alpha, beta, acc)
                }),
            ) && visits_accounted(old(self).setting(), r.1@.1, ply + 1),
            ({
                let x = Searched {
                    result: r.0,
                    entry,
                    order: r.1@.0,
                    visits: r.1@.1,
                    ..old(self).quiet_search(board@, ply, alpha, beta, acc)
                };
                &&& !final(self).stopped && quiet_goes_on(old(self).setting(), x) ==> quiet_remembered(
                    final(self).tt,
                    old(self).setting(),
                    x,
                )
                &&& !final(self).stopped && (old(self).tt.memory() matches Some(m) ==> entry == answered(
                    m.0,
                    board@.hash,
                )) ==> final(self).quiet_followed(old(self), x)
            }),
            table_decides(entry, 0, ply as int, alpha as int, beta as int) ==> *final(self) == *old(self),
            !table_decides(entry, 0, ply as int, alpha as int, beta as int) ==> ({
                let stand = old(self).static_of(board@, acc);
                if board@.checkers != 0 {
                    legal_moves(board@).len() == 0 ==> !final(self).stopped
                } else {
                    &&& r.0 >= stand
                    &&& stand >= beta ==> *final(self) == *old(self)
                    &&& quiet_position(board@) ==> r.0 == stand
                }
            }),
        decreases MAX_PLY - ply, 1int,
    {
        let ghost of = Searched { entry, ..old(self).quiet_search(board@, ply, alpha, beta, acc) };
        let ghost s = old(self).setting();
        proof {
            lemma_held(acc);
        }
        let stm: u8 = board.side_to_move();
        let in_check: bool = board.in_check();
        let hash: u64 = board.hash();
        let mut tt_mv: u16 = 0;
        match entry {
            Some(e) => {
                tt_mv = e.mv;
                if e.depth <= 0 {
                    let sc: i32 = tt_score_from(e.score as i32, ply);
                    if tt_cuts(e.bound, sc, alpha, beta) {
                        assert(quiet_account(s, Searched { result: sc, ..of })) by {
                            reveal(quiet_account);
                        }
                        return (sc, Ghost((Seq::empty(), Seq::empty())));
                    }
                }
            },
            None => {},
        }
        let mut stand: i32 = -INF;
        if !in_check {
            let raw: i32 = self.eval_node(board, acc);
            let ci: usize = corr_index(board, stm);
            stand = self.tables.corrected_eval_at(ci, raw);
            if stand >= beta {
                assert(quiet_account(s, Searched { result: stand, ..of })) by {
                    reveal(quiet_account);
                }
                return (stand, Ghost((Seq::empty(), Seq::empty())));
            }
        }
        let mut moves: Vec<Ranked> = Vec::new();
        std::mem::swap(&mut moves, &mut self.qmove_buf[ply as usize]);
        self.noisy_moves(board, tt_mv, &mut moves);
        if in_check && moves.len() == 0 {
            assert(noisy_ranking(board@, tt_mv, legal_moves(board@).len() as int).len() == 0) by {
                lemma_best_first(noisy_ranking(board@, tt_mv, legal_moves(board@).len() as int));
            }
            assert(quiet_account(s, Searched { result: (-MATE + ply) as i32, ..of })) by {
                reveal(quiet_account);
            }
            self.qmove_buf[ply as usize] = moves;
            return (-MATE + ply, Ghost((Seq::empty(), Seq::empty())));
        }
        assert(quiet_position(board@) && !in_check ==> moves@.len() == 0) by {
            if moves@.len() > 0 {
                assert(qranked(board@, moves@[0]));
                assert(quiescence_move(board@, moves@[0].mv));
            }
        }
        assert(in_check ==> legal_moves(board@).len() > 0) by {
            if moves@.len() > 0 {
                assert(legal_moves(board@).contains(moves@[0].mv));
            }
        }
        let ghost order = moves@;
        let (best, best_mv, Ghost(visits)) = self.settle(board, ply, alpha, beta, stand, &moves, acc);
        if self.stopped {
            self.qmove_buf[ply as usize] = moves;
            return (best, Ghost((Seq::empty(), visits)));
        }
        self.qmove_buf[ply as usize] = moves;
        let ghost before = self.tt;
        self.tt.record(hash, best_mv, tt_score_to(best, ply), 0, bound_for(best, alpha, beta));
        assert(self.tt.took(
            &before,
            hash,
            best_mv,
            stored_score(best as int, ply as int) as i32,
            0,
            bound_of(best as int, alpha as int, beta as int),
        ));
        proof {
            assert(before.ready());
            let x = Searched {
                result: best,
                entry,
                order,
                visits,
                ..old(self).quiet_search(board@, ply, alpha, beta, acc)
            };
            assert(quiet_stand(s, x) == stand);
            assert(quiet_account(s, x)) by {
                lemma_best_first(noisy_ranking(board@, tt_mv, legal_moves(board@).len() as int));
                reveal(quiet_account);
            }
            assert(settled(stand, x.order, scores_of(x.visits), x.visits.len() as int) == (best, best_mv));
            assert(remembers(
                self.tt,
                hash,
                best_mv,
                stored_score(best as int, ply as int) as i32,
                0,
                bound_of(best as int, alpha as int, beta as int),
            ));
        }
        (best, Ghost((order, visits)))
    }
}

// ---------------- laws ----------------
/// A move is left out of a quiescence search only out of check, where it captures and even the victim
/// and two pawns would not lift the best score to alpha; every such capture is.
pub proof fn law_hopeless_captures_stay_below_alpha(in_check: bool, x: Ranked, moved: u8, taken: Option<u8>, best: int, alpha: int)
    requires
        moved < 6,
        taken matches Some(v) ==> v < 6,
        x.tag == tag_of(moved, taken, false, false),
    ensures
        in_check || taken is None ==> !hopeless(in_check, x, best, alpha),
        !in_check ==> (taken matches Some(v) ==> (hopeless(in_check, x, best, alpha) <==> alpha - best > value_of(v) + 200)),
        best + 200 >= alpha ==> !hopeless(in_check, x, best, alpha),
{
    if let Some(v) = taken {
        if v < 5 {
            lemma_piece_value(v);
        }
    }
}

proof fn lemma_piece_value(v: u8)
    requires
        v < 6,
    ensures
        value_of(v) >= 0,
{
    let i = v as int;
    assert(i == 0 || i == 1 || i == 2 || i == 3 || i == 4 || i == 5);
}

/// A stored result answers a main search only from at least its depth, and a quiescence search only
/// from a quiescence search; without one nothing is answered.
pub proof fn law_stored_results_answer_their_own_kind(e: Entry, depth: int, ply: int, alpha: int, beta: int)
    ensures
        !table_decides(None, depth, ply, alpha, beta),
        depth > 0 && e.depth < depth ==> !table_decides(Some(e), depth, ply, alpha, beta),
        depth <= 0 && e.depth > 0 ==> !table_decides(Some(e), depth, ply, alpha, beta),
        (depth > 0 && e.depth >= depth) || (depth <= 0 && e.depth <= 0) ==> table_decides(Some(e), depth, ply, alpha, beta) == cuts(
            e.bound,
            loaded_score(e.score as int, ply),
            alpha,
            beta,
        ),
{
}

/// Alpha rises to a better score, in check only to one that a move has given, and never falls.
pub proof fn law_lifted_alpha_is_the_best_score(in_check: bool, alpha: int, best: int)
    ensures
        lifted(in_check, alpha, best) >= alpha,
        lifted(in_check, alpha, best) == alpha || lifted(in_check, alpha, best) == best,
        best > alpha && best > -32_500 ==> lifted(in_check, alpha, best) == best,
        in_check && best <= -32_500 ==> lifted(in_check, alpha, best) == alpha,
        !in_check ==> lifted(in_check, alpha, best) >= best,
{
}

/// The moves of a quiescence search are the noisy legal moves, and all of them.
pub proof fn law_noisy_moves_are_all_ranked(p: PosView, tt_mv: u16, n: int, i: int)
    requires
        0 <= i < n <= legal_moves(p).len(),
    ensures
        noisy_ranking(p, tt_mv, n).len() <= n,
        quiescence_move(p, legal_moves(p)[i]) <==> exists|j: int|
            0 <= j < noisy_ranking(p, tt_mv, n).len() && (#[trigger] noisy_ranking(p, tt_mv, n)[j]).mv == legal_moves(p)[i],
{
    lemma_noisy_ranked(p, tt_mv, n, i);
}

proof fn lemma_noisy_ranked(p: PosView, tt_mv: u16, n: int, i: int)
    requires
        0 <= i < legal_moves(p).len(),
        0 <= n <= legal_moves(p).len(),
    ensures
        noisy_ranking(p, tt_mv, n).len() <= n,
        i < n && quiescence_move(p, legal_moves(p)[i]) ==> exists|j: int|
            0 <= j < noisy_ranking(p, tt_mv, n).len() && (#[trigger] noisy_ranking(p, tt_mv, n)[j]).mv == legal_moves(p)[i],
        forall|j: int|
            0 <= j < noisy_ranking(p, tt_mv, n).len() ==> quiescence_move(p, (#[trigger] noisy_ranking(p, tt_mv, n)[j]).mv),
    decreases n,
{
    if n > 0 {
        lemma_noisy_ranked(p, tt_mv, n - 1, i);
        let before = noisy_ranking(p, tt_mv, n - 1);
        let after = noisy_ranking(p, tt_mv, n);
        if i < n && quiescence_move(p, legal_moves(p)[i]) {
            if i == n - 1 {
                assert(after[before.len() as int].mv == legal_moves(p)[i]);
            } else {
                let j = choose|j: int| 0 <= j < before.len() && (#[trigger] before[j]).mv == legal_moves(p)[i];
                assert(after[j] == before[j]);
            }
        }
        assert forall|j: int| 0 <= j < after.len() implies quiescence_move(p, (#[trigger] after[j]).mv) by {
            if j < before.len() {
                assert(after[j] == before[j]);
            }
        }
    }
}

} // verus!

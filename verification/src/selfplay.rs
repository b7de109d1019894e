//! Games the engine plays against itself: when they end, and what a move adds to one.
use vstd::prelude::*;
use crate::board::{start_view, status_of, wf, GameStatus, Move, PosView, Position, WHITE};
use crate::driver::{after_line, found_by, legal_line, one_searcher, Consulted, lemma_beginnings, lemma_line_grows};
use crate::search::Searcher;
use crate::shared::Table;
use crate::time::Limits;

verus! {

/// How often a hash occurs.
pub open spec fn occurrences(s: Seq<u64>, x: u64) -> nat
    decreases s.len(),
{
    if s.len() == 0 {
        0
    } else {
        occurrences(s.drop_last(), x) + if s.last() == x {
            1nat
        } else {
            0nat
        }
    }
}

/// Counts how often a hash occurs.
pub fn count_of(v: &Vec<u64>, x: u64) -> (r: usize)
    ensures
        r == occurrences(v@, x),
{
    let n: usize = v.len();
    let mut i: usize = 0;
    let mut c: usize = 0;
    assert(v@.take(0) =~= Seq::empty());
    while i < n
        invariant
            i <= n,
            n == v@.len(),
            c <= i,
            c == occurrences(v@.take(i as int), x),
        decreases n - i,
    {
        assert(v@.take(i as int + 1).drop_last() =~= v@.take(i as int));
        assert(v@.take(i as int + 1).last() == v@[i as int]);
        if v[i] == x {
            c = c + 1;
        }
        i = i + 1;
    }
    assert(v@.take(n as int) =~= v@);
    c
}

/// The result of a game for white: two for a win, one for a draw, nothing for a loss.
pub open spec fn mated_result(side: u8) -> u8 {
    if side == WHITE {
        0
    } else {
        2
    }
}

/// How games ended for white.
#[derive(Clone, Copy, PartialEq, Eq, Structural, Debug)]
pub struct Score {
    pub wins: usize,
    pub draws: usize,
    pub losses: usize,
}

/// How often a result occurs.
pub open spec fn results_of(results: Seq<u8>, result: u8) -> nat
    decreases results.len(),
{
    if results.len() == 0 {
        0
    } else {
        results_of(results.drop_last(), result) + if results.last() == result {
            1nat
        } else {
            0nat
        }
    }
}

/// Counts the results of games: two is a win for white, nothing a loss, anything else a draw.
pub fn score_of(results: &Vec<u8>) -> (r: Score)
    ensures
        r.wins == results_of(results@, 2),
        r.losses == results_of(results@, 0),
        r.wins + r.draws + r.losses == results@.len(),
{
    let mut score = Score { wins: 0, draws: 0, losses: 0 };
    let n: usize = results.len();
    let mut i: usize = 0;
    while i < n
        invariant
            i <= n == results@.len(),
            score.wins == results_of(results@.take(i as int), 2),
            score.losses == results_of(results@.take(i as int), 0),
            score.wins + score.draws + score.losses == i,
        decreases n - i,
    {
        assert(results@.take(i + 1).drop_last() =~= results@.take(i as int));
        if results[i] == 2 {
            score.wins = score.wins + 1;
        } else if results[i] == 0 {
            score.losses = score.losses + 1;
        } else {
            score.draws = score.draws + 1;
        }
        i = i + 1;
    }
    assert(results@.take(n as int) =~= results@);
    score
}

/// What the rules say before a move: the side to move is mated, or the game is drawn by
/// stalemate, fifty moves, a third occurrence of the position, or having lasted `limit` plies.
pub open spec fn ruled(p: PosView, played: Seq<u64>, ply: int, limit: int) -> Option<u8> {
    match status_of(p) {
        GameStatus::Won => Some(mated_result(p.side)),
        GameStatus::Drawn => Some(1u8),
        GameStatus::Ongoing => if occurrences(played, p.hash) + 1 >= 3 || p.halfmove >= 100 || ply >= limit {
            Some(1u8)
        } else {
            None
        },
    }
}

/// What the rules say before a move.
pub fn ruling(board: &Position, played: &Vec<u64>, ply: usize, limit: usize) -> (r: Option<u8>)
    requires
        wf(board@),
    ensures
        r == ruled(board@, played@, ply as int, limit as int),
{
    match board.status() {
        GameStatus::Won => Some(if board.side_to_move() == WHITE {
            0
        } else {
            2
        }),
        GameStatus::Drawn => Some(1),
        GameStatus::Ongoing => if count_of(played, board.hash()) >= 2 || board.halfmove_clock() >= 100 || ply >= limit {
            Some(1)
        } else {
            None
        },
    }
}

/// A game.
pub struct Game {
    pub moves: Vec<Move>,
    /// For white.
    pub result: u8,
}

/// The hashes of the positions before the end of a line.
pub open spec fn line_hashes(p: PosView, line: Seq<Move>) -> Seq<u64> {
    Seq::new(line.len(), |k: int| after_line(p, line.take(k)).hash)
}

/// A line is a game: its moves are legal, the rules end it where it ends, and not before.
pub open spec fn is_game(p: PosView, line: Seq<Move>, result: u8, limit: int) -> bool {
    &&& legal_line(p, line)
    &&& ruled(after_line(p, line), line_hashes(p, line), line.len() as int, limit) == Some(result)
    &&& forall|k: int|
        0 <= k < line.len() ==> ruled(
            after_line(p, #[trigger] line.take(k)),
            line_hashes(p, line.take(k)),
            k,
            limit,
        ) is None
}

/// A line is a game that has not ended: its moves are legal, and the rules end it nowhere.
pub open spec fn unfinished(p: PosView, line: Seq<Move>, limit: int) -> bool {
    &&& legal_line(p, line)
    &&& ruled(after_line(p, line), line_hashes(p, line), line.len() as int, limit) is None
    &&& forall|k: int|
        0 <= k < line.len() ==> ruled(
            after_line(p, #[trigger] line.take(k)),
            line_hashes(p, line.take(k)),
            k,
            limit,
        ) is None
}

/// Move `k` of a game is that of a search of its position, with the game before it.
#[verifier::opaque]
pub open spec fn move_found<T: Table>(p: PosView, line: Seq<Move>, searches: Seq<Consulted<T>>, nodes: u64, k: int) -> bool {
    found_by(searches[k], after_line(p, line.take(k)), line_hashes(p, line.take(k)), nodes, Some(line[k]))
}

/// Every move of a game is the engine's.
pub open spec fn all_found<T: Table>(p: PosView, line: Seq<Move>, searches: Seq<Consulted<T>>, nodes: u64) -> bool {
    &&& searches.len() == line.len()
    &&& forall|k: int| 0 <= k < line.len() ==> #[trigger] move_found(p, line, searches, nodes, k)
}

/// One move more.
proof fn lemma_found_next<T: Table>(p: PosView, line: Seq<Move>, searches: Seq<Consulted<T>>, nodes: u64, m: Move, c: Consulted<T>)
    requires
        all_found(p, line, searches, nodes),
        found_by(c, after_line(p, line), line_hashes(p, line), nodes, Some(m)),
    ensures
        all_found(p, line.push(m), searches.push(c), nodes),
{
    lemma_beginnings(line, m);
    assert(line.take(line.len() as int) =~= line);
    assert forall|k: int| 0 <= k < line.len() + 1 implies #[trigger] move_found(p, line.push(m), searches.push(c), nodes, k) by {
        reveal(move_found);
        assert(line.push(m).take(k) == line.take(k));
        if k < line.len() {
            assert(move_found(p, line, searches, nodes, k));
        }
    }
}

/// A longer line has the same hashes.
pub proof fn lemma_hashes(p: PosView, line: Seq<Move>, m: Move)
    ensures
        line_hashes(p, line.push(m)) == line_hashes(p, line).push(after_line(p, line).hash),
{
    lemma_beginnings(line, m);
    assert(line.take(line.len() as int) =~= line);
    assert forall|k: int| 0 <= k <= line.len() implies line_hashes(p, line.push(m))[k] == line_hashes(p, line).push(
        after_line(p, line).hash,
    )[k] by {
        assert(line.push(m).take(k) == line.take(k));
    }
    assert(line_hashes(p, line.push(m)) =~= line_hashes(p, line).push(after_line(p, line).hash));
}

/// Plays a game from the initial position, the engine on both sides with `nodes` a move. What it
/// plays is legal, and the game ends where the rules end it. Nothing comes of an engine that finds
/// no move in a position that has one; then the moves played. Both come with the searches behind
/// the moves, and with the one that found none.
pub fn play_out<T: Table>(s: &mut Searcher<T>, nodes: u64, limit: usize) -> (r: (Result<Game, Vec<Move>>, Ghost<Seq<Consulted<T>>>))
    requires
        old(s).wf(),
    ensures
        final(s).wf(),
        one_searcher(r.1@),
        r.1@.len() > 0 ==> r.1@[0].before == (Searcher { game_hist: r.1@[0].before.game_hist, ..*old(s) }),
        r.1@.len() > 0 ==> *final(s) == r.1@.last().after,
        match r.0 {
            Ok(g) => is_game(start_view(), g.moves@, g.result, limit as int) && g.moves@.len() <= limit && all_found(
                start_view(),
                g.moves@,
                r.1@,
                nodes,
            ),
            Err(line) => {
                &&& r.1@.len() > 0
                &&& all_found(start_view(), line@, r.1@.drop_last(), nodes)
                &&& unfinished(start_view(), line@, limit as int)
                &&& line@.len() < limit
                &&& found_by(
                    r.1@.last(),
                    after_line(start_view(), line@),
                    line_hashes(start_view(), line@),
                    nodes,
                    None,
                )
            },
        },
{
    let mut limits = Limits::default();
    limits.nodes = Some(nodes);
    let mut b: Position = Position::start();
    let mut hist: Vec<u64> = Vec::new();
    let mut line: Vec<Move> = Vec::new();
    let mut ply: usize = 0;
    let ghost mut searches: Seq<Consulted<T>> = Seq::empty();
    let mut result: Option<u8> = ruling(&b, &hist, ply, limit);
    assert(line_hashes(start_view(), line@) =~= hist@);
    while result.is_none()
        invariant
            s.wf(),
            s.thread_id == old(s).thread_id,
            limits.wf(),
            limits.depth is None,
            limits.nodes == Some(nodes),
            limits.movetime is None,
            limits.wtime is None,
            limits.btime is None,
            wf(b@),
            ply == line@.len(),
            ply <= limit,
            b@ == after_line(start_view(), line@),
            hist@ == line_hashes(start_view(), line@),
            legal_line(start_view(), line@),
            all_found(start_view(), line@, searches, nodes),
            one_searcher(searches),
            searches.len() == 0 ==> *s == (Searcher { game_hist: s.game_hist, ..*old(s) }),
            searches.len() > 0 ==> *s == searches.last().after,
            searches.len() > 0 ==> searches[0].before == (Searcher { game_hist: searches[0].before.game_hist, ..*old(s) }),
            result == ruled(b@, hist@, ply as int, limit as int),
            forall|k: int|
                0 <= k < ply ==> ruled(
                    after_line(start_view(), #[trigger] line@.take(k)),
                    line_hashes(start_view(), line@.take(k)),
                    k,
                    limit as int,
                ) is None,
        decreases limit - ply,
    {
        s.game_hist = hist.clone();
        let ghost asked = *s;
        match s.think(&b, &limits) {
            Some(mv) => {
                let ghost before = line@;
                proof {
                    let c = Consulted { before: asked, after: *s };
                    assert(c.after.thought(&c.before, b@, limits, Some(mv)));
                    lemma_found_next(start_view(), before, searches, nodes, mv, c);
                    searches = searches.push(c);
                }
                hist.push(b.hash());
                line.push(mv);
                b = b.play(mv);
                ply = ply + 1;
                proof {
                    lemma_beginnings(before, mv);
                    lemma_hashes(start_view(), before, mv);
                    lemma_line_grows(start_view(), before, mv);
                    assert(line@ == before.push(mv));
                    assert(before.take(before.len() as int) =~= before);
                    assert forall|k: int| 0 <= k < ply implies ruled(
                        after_line(start_view(), #[trigger] line@.take(k)),
                        line_hashes(start_view(), line@.take(k)),
                        k,
                        limit as int,
                    ) is None by {
                        assert(before.push(mv).take(k) == before.take(k));
                    }
                }
                result = ruling(&b, &hist, ply, limit);
            },
            None => {
                proof {
                    let c = Consulted { before: asked, after: *s };
                    assert(c.after.thought(&c.before, b@, limits, None));
                    assert(searches.push(c).drop_last() =~= searches);
                    searches = searches.push(c);
                }
                return (Err(line), Ghost(searches));
            },
        }
    }
    match result {
        Some(x) => (Ok(Game { moves: line, result: x }), Ghost(searches)),
        None => (Err(line), Ghost(searches)),
    }
}

// ---------------- laws ----------------
/// A side that is mated has lost; stalemate, the third occurrence of a position, a hundred plies
/// without a capture or pawn move and a game at its limit are draws; nothing else ends a game.
pub proof fn law_games_end_by_the_rules(p: PosView, played: Seq<u64>, ply: int, limit: int)
    requires
        p.side < 2,
    ensures
        status_of(p) is Won && p.side == 0 ==> ruled(p, played, ply, limit) == Some(0u8),
        status_of(p) is Won && p.side == 1 ==> ruled(p, played, ply, limit) == Some(2u8),
        ruled(p, played, ply, limit) matches Some(r) && r != 1 ==> status_of(p) is Won,
        status_of(p) is Drawn ==> ruled(p, played, ply, limit) == Some(1u8),
        status_of(p) is Ongoing ==> {
            &&& ruled(p, played, ply, limit) is Some <==> occurrences(played, p.hash) >= 2 || p.halfmove >= 100 || ply >= limit
            &&& ruled(p, played, ply, limit) matches Some(r) ==> r == 1
        },
{
}

/// Occurrences are counted one by one, wherever they lie.
pub proof fn law_occurrences_add_up(a: Seq<u64>, b: Seq<u64>, x: u64)
    ensures
        occurrences(a + b, x) == occurrences(a, x) + occurrences(b, x),
        occurrences(seq![x], x) == 1,
        forall|i: int| 0 <= i < a.len() && #[trigger] a[i] == x ==> occurrences(a, x) >= 1,
        (forall|i: int| 0 <= i < a.len() ==> #[trigger] a[i] != x) ==> occurrences(a, x) == 0,
    decreases a.len(), b.len(),
{
    assert(seq![x].drop_last() =~= Seq::<u64>::empty());
    assert(seq![x].last() == x);
    if a.len() > 0 {
        law_occurrences_add_up(a.drop_last(), Seq::empty(), x);
        assert(forall|i: int| 0 <= i < a.len() - 1 ==> a.drop_last()[i] == a[i]);
        assert(a.last() == a[a.len() - 1]);
    }
    if b.len() == 0 {
        assert(a + b =~= a);
    } else {
        law_occurrences_add_up(a, b.drop_last(), x);
        assert((a + b).drop_last() =~= a + b.drop_last());
        assert((a + b).last() == b.last());
    }
}

/// Every game is counted under its result.
pub proof fn law_results_add_up(results: Seq<u8>)
    requires
        forall|i: int| 0 <= i < results.len() ==> #[trigger] results[i] <= 2,
    ensures
        results_of(results, 0) + results_of(results, 1) + results_of(results, 2) == results.len(),
    decreases results.len(),
{
    if results.len() > 0 {
        let front = results.drop_last();
        assert(forall|i: int| 0 <= i < front.len() ==> front[i] == results[i]);
        law_results_add_up(front);
        assert(results.last() == results[results.len() - 1]);
        assert(results.last() <= 2);
    }
}

} // verus!

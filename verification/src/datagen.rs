//! Training data from self-play: openings, adjudication, which positions are worth a record, and
//! the bytes of a game.
use vstd::prelude::*;
use crate::board::{fen_position, kings_apart, start_view, status_of, wf, GameStatus, Move, PosView, Position, WHITE};
use crate::bytes::{i16_at, i16_bytes, u16_at, u16_bytes};
use crate::driver::{after_line, found_by, legal_choice, lemma_beginnings, one_searcher, Consulted};
use crate::records::{pack_board, records, RECORD_SIZE};
use crate::rules::{capture_victim, taken_by};
use crate::search::Searcher;
use crate::selfplay::{lemma_hashes, line_hashes, ruled, ruling};
use crate::shared::Table;
use crate::text::{lines, lines_of, text_of, trim, trimmed, views};
use crate::time::Limits;
use crate::tt::{bits16, pack, packed, probed, Entry, TT};
use crate::walk::{random_opening, view_of, walked};

verus! {

pub const NODES_PER_MOVE: u64 = 5_000;
pub const OPENING_PLIES: usize = 8;
pub const OPENING_FILTER_CP: i32 = 200;
/// No records before this ply.
pub const SKIP_PLIES: usize = 10;
/// Decided positions teach nothing.
pub const MAX_SCORE_CP: i32 = 2_000;
pub const RESIGN_CP: i32 = 2_500;
pub const RESIGN_PLIES: u32 = 4;
pub const DRAW_CP: i32 = 8;
pub const DRAW_PLIES: u32 = 10;
pub const DRAW_MIN_PLY: usize = 100;
pub const MAX_PLIES: usize = 400;

pub open spec fn size_of(x: int) -> int {
    if x < 0 {
        -x
    } else {
        x
    }
}

fn magnitude(x: i32) -> (r: i32)
    requires
        x > i32::MIN,
    ensures
        r == size_of(x as int),
{
    if x < 0 {
        -x
    } else {
        x
    }
}

/// The random numbers of a thread start here.
pub fn thread_seed(base: u64, t: u64) -> (r: u64)
    ensures
        r == (base ^ t.wrapping_mul(0x9E37_79B9_7F4A_7C15)) | 1,
        r == seed_of(base, t),
{
    (base ^ t.wrapping_mul(0x9E37_79B9_7F4A_7C15)) | 1
}

// ---------------- one move ----------------
/// A position worth learning from, before the game's result is known.
#[derive(Clone, Copy, Debug)]
pub struct GameRecord {
    pub pos: [u8; 27],
    pub score: i16,
    pub best: u16,
    pub stm: u8,
}

/// Whether a position is recorded: past the opening, quiet and undecided. Neither side is in
/// check, and the move neither captures, en passant or otherwise, nor promotes.
pub open spec fn recorded(p: PosView, mv: Move, score: int, ply: int) -> bool {
    &&& ply >= SKIP_PLIES
    &&& p.checkers == 0
    &&& taken_by(p, mv) is None
    &&& mv.promotion is None
    &&& size_of(score) < MAX_SCORE_CP
}

/// A record of a position, its score and its move.
pub open spec fn record_holds(r: GameRecord, p: PosView, mv: Move, score: int) -> bool {
    &&& records(r.pos@, p)
    &&& r.score == score
    &&& r.best == packed(mv)
    &&& r.stm == p.side
}

/// A record of a quiet, undecided position.
pub open spec fn good_record(r: GameRecord) -> bool {
    &&& size_of(r.score as int) < MAX_SCORE_CP
    &&& exists|p: PosView| wf(p) && p.checkers == 0 && p.side == r.stm && #[trigger] records(r.pos@, p)
}

/// A game of self-play under way.
pub struct Play {
    pub board: Position,
    /// Hashes of the positions before this one.
    pub hist: Vec<u64>,
    pub ply: usize,
    /// Moves in a row with a decisive score.
    pub resign_run: u32,
    /// Moves in a row with hardly any score, late in the game.
    pub draw_run: u32,
    pub records: Vec<GameRecord>,
}

/// Whether a score counts towards resigning.
pub open spec fn decisive(score: int) -> bool {
    size_of(score) >= RESIGN_CP
}

/// Whether a score counts towards a draw.
pub open spec fn lifeless(score: int, ply: int) -> bool {
    size_of(score) <= DRAW_CP && ply >= DRAW_MIN_PLY
}

/// What the scores say: a win for the side that has been winning for long enough, a draw where
/// nothing has happened for long enough.
pub open spec fn adjudged(side: u8, score: int, ply: int, resign_run: int, draw_run: int) -> Option<u8> {
    if decisive(score) && resign_run + 1 >= RESIGN_PLIES {
        Some(
            if (side == WHITE) == (score > 0) {
                2u8
            } else {
                0u8
            },
        )
    } else if lifeless(score, ply) && draw_run + 1 >= DRAW_PLIES {
        Some(1u8)
    } else {
        None
    }
}

impl Play {
    pub open spec fn wf(&self) -> bool {
        &&& wf(self.board@)
        &&& self.ply <= MAX_PLIES
        &&& self.resign_run < RESIGN_PLIES
        &&& self.draw_run < DRAW_PLIES
        &&& forall|k: int| 0 <= k < self.records@.len() ==> good_record(#[trigger] self.records@[k])
    }

    /// A game that begins in a position.
    pub fn begin(board: Position) -> (r: Play)
        requires
            wf(board@),
        ensures
            r.wf(),
            r.board@ == board@,
            r.hist@.len() == 0,
            r.ply == OPENING_PLIES,
            r.resign_run == 0,
            r.draw_run == 0,
            r.records@.len() == 0,
    {
        Play { board, hist: Vec::new(), ply: 8, resign_run: 0, draw_run: 0, records: Vec::new() }
    }

    /// The result of the game by the rules, if it is over.
    pub fn over(&self) -> (r: Option<u8>)
        requires
            self.wf(),
        ensures
            r == ruled(self.board@, self.hist@, self.ply as int, MAX_PLIES as int),
            r matches Some(x) ==> x <= 2,
    {
        ruling(&self.board, &self.hist, self.ply, MAX_PLIES)
    }

    /// Takes in the engine's move and score. The scores may end the game; if they do not, the
    /// position is recorded where it is worth it, and the move is made.
    pub fn advance(&mut self, mv: Move, score: i32) -> (r: Option<u8>)
        requires
            old(self).wf(),
            legal_choice(old(self).board@, Some(mv)),
            score > i32::MIN,
            old(self).ply < MAX_PLIES,
        ensures
            r == adjudged(
                old(self).board@.side,
                score as int,
                old(self).ply as int,
                old(self).resign_run as int,
                old(self).draw_run as int,
            ),
            match r {
                Some(x) => {
                    &&& x <= 2
                    &&& final(self).board@ == old(self).board@
                    &&& final(self).hist == old(self).hist
                    &&& final(self).ply == old(self).ply
                    &&& final(self).records == old(self).records
                },
                None => {
                    let p = old(self).board@;
                    &&& final(self).wf()
                    &&& final(self).board@ == crate::board::position_after(p, mv)
                    &&& final(self).hist@ == old(self).hist@.push(p.hash)
                    &&& final(self).ply == old(self).ply + 1
                    &&& final(self).resign_run == if decisive(score as int) {
                        old(self).resign_run + 1
                    } else {
                        0
                    }
                    &&& final(self).draw_run == if lifeless(score as int, old(self).ply as int) {
                        old(self).draw_run + 1
                    } else {
                        0
                    }
                    &&& if recorded(p, mv, score as int, old(self).ply as int) {
                        exists|g: GameRecord| #[trigger]
                            record_holds(g, p, mv, score as int) && final(self).records@ == old(self).records@.push(g)
                    } else {
                        final(self).records == old(self).records
                    }
                },
            },
    {
        let stm: u8 = self.board.side_to_move();
        let size: i32 = magnitude(score);
        if size >= RESIGN_CP {
            self.resign_run = self.resign_run + 1;
            if self.resign_run >= RESIGN_PLIES {
                return Some(if (stm == WHITE) == (score > 0) {
                    2
                } else {
                    0
                });
            }
        } else {
            self.resign_run = 0;
        }
        if size <= DRAW_CP && self.ply >= DRAW_MIN_PLY {
            self.draw_run = self.draw_run + 1;
            if self.draw_run >= DRAW_PLIES {
                return Some(1);
            }
        } else {
            self.draw_run = 0;
        }
        if self.ply >= SKIP_PLIES && !self.board.in_check() && capture_victim(&self.board, mv).is_none()
            && mv.promotion.is_none() && size < MAX_SCORE_CP {
            let g = GameRecord { pos: pack_board(&self.board), score: score as i16, best: pack(mv), stm };
            assert(record_holds(g, old(self).board@, mv, score as int));
            self.records.push(g);
        }
        self.hist.push(self.board.hash());
        self.board = self.board.play(mv);
        self.ply = self.ply + 1;
        None
    }
}

// ---------------- one game ----------------
/// A finished game of self-play.
pub struct Played {
    pub records: Vec<GameRecord>,
    /// For white: two for a win, one for a draw, nothing for a loss.
    pub result: u8,
}

/// A search that a move of self-play gets.
fn move_limits() -> (r: Limits)
    ensures
        r.wf(),
        r == (Limits { nodes: Some(NODES_PER_MOVE), ..r }),
        r.depth is None,
        r.movetime is None,
        r.wtime is None,
        r.btime is None,
        !r.infinite,
{
    let mut limits = Limits::default();
    limits.nodes = Some(NODES_PER_MOVE);
    limits
}

/// A searcher has looked at a position afresh: with an emptied table, and nothing before the
/// position.
pub open spec fn looked_over<T: Table>(s: &Searcher<T>, before: &Searcher<T>, p: PosView) -> bool {
    exists|b: Searcher<T>, m: Option<Move>|
        {
            &&& b == (Searcher { tt: b.tt, game_hist: b.game_hist, ..*before })
            &&& b.tt.emptied()
            &&& #[trigger] found_by(Consulted { before: b, after: *s }, p, Seq::empty(), NODES_PER_MOVE, m)
        }
}

/// One attempt at a balanced opening: random moves from the initial position, and a search that
/// does not find either side far ahead.
pub fn try_opening<T: Table>(s: &mut Searcher<T>, seed: &mut u64) -> (r: Option<Position>)
    requires
        old(s).wf(),
    ensures
        final(s).wf(),
        final(s).thread_id == old(s).thread_id,
        final(s).net == old(s).net,
        *final(seed) == walked(start_view(), OPENING_PLIES as nat, *old(seed)).1,
        match walked(start_view(), OPENING_PLIES as nat, *old(seed)).0 {
            Some(q) => if status_of(q) == GameStatus::Ongoing {
                &&& view_of(r) == if size_of(final(s).last_score as int) <= OPENING_FILTER_CP {
                    Some(q)
                } else {
                    None
                }
                &&& looked_over(final(s), old(s), q)
            } else {
                r is None
            },
            None => r is None,
        },
        r matches Some(b) ==> wf(b@),
{
    let start: Position = Position::start();
    match random_opening(&start, OPENING_PLIES, seed) {
        Some(b) => {
            s.tt.forget();
            s.game_hist.clear();
            let limits: Limits = move_limits();
            let ghost before = *s;
            let m: Option<Move> = s.think(&b, &limits);
            proof {
                let c = Consulted { before, after: *s };
                assert(before.game_hist@ =~= Seq::empty());
                assert(c.after.thought(&c.before, b@, limits, m));
                assert(found_by(Consulted { before, after: *s }, b@, Seq::empty(), NODES_PER_MOVE, m));
            }
            if magnitude(s.last_score) <= OPENING_FILTER_CP {
                Some(b)
            } else {
                None
            }
        },
        None => None,
    }
}

/// The positions that the first `n` lines give, one FEN a line, or what is wrong with the first
/// that gives none. Lines of white space give nothing.
pub open spec fn listed(lines: Seq<Seq<char>>, n: nat) -> Result<Seq<PosView>, Seq<char>>
    decreases n,
{
    if n == 0 {
        Ok(Seq::empty())
    } else {
        let fen = trimmed(lines[n - 1]);
        match listed(lines, (n - 1) as nat) {
            Err(e) => Err(e),
            Ok(before) => if fen.len() == 0 {
                Ok(before)
            } else {
                match fen_position(fen) {
                    Err(e) => Err(e),
                    Ok(p) => if kings_apart(p.men) {
                        Ok(before.push(p))
                    } else {
                        Err("kings side by side"@)
                    },
                }
            },
        }
    }
}

/// What is wrong with a line stays wrong.
proof fn lemma_fault_stays(lines: Seq<Seq<char>>, n: nat, m: nat)
    requires
        n <= m,
        listed(lines, n) is Err,
    ensures
        listed(lines, m) == listed(lines, n),
    decreases m,
{
    if n < m {
        lemma_fault_stays(lines, n, (m - 1) as nat);
    }
}

/// Reads a list of positions that games are to start from, one FEN a line.
pub fn seed_positions(text: &str) -> (r: Result<Vec<Position>, String>)
    ensures
        match r {
            Ok(v) => listed(lines_of(text@), lines_of(text@).len()) == Ok::<Seq<PosView>, Seq<char>>(
                v@.map_values(|p: Position| p@),
            ) && forall|k: int| 0 <= k < v@.len() ==> wf(#[trigger] v@[k]@),
            Err(e) => listed(lines_of(text@), lines_of(text@).len()) == Err::<Seq<PosView>, Seq<char>>(e@),
        },
{
    let list = lines(text);
    let ghost all = lines_of(text@);
    let mut out: Vec<Position> = Vec::new();
    let n: usize = list.len();
    let mut i: usize = 0;
    assert(out@.map_values(|p: Position| p@) =~= Seq::empty());
    while i < n
        invariant
            i <= n == list@.len(),
            all == lines_of(text@),
            views(list@) == all,
            listed(all, i as nat) == Ok::<Seq<PosView>, Seq<char>>(out@.map_values(|p: Position| p@)),
            forall|k: int| 0 <= k < out@.len() ==> wf(#[trigger] out@[k]@),
        decreases n - i,
    {
        let line = trim(&list[i]);
        assert(all[i as int] == list@[i as int]@);
        if line.len() > 0 {
            let fen = text_of(&line);
            match Position::from_fen(fen.as_str()) {
                Ok(p) => {
                    if p.kings_touch() {
                        let e = String::from_str("kings side by side");
                        proof {
                            lemma_fault_stays(all, (i + 1) as nat, all.len());
                        }
                        return Err(e);
                    }
                    let ghost held = out@;
                    out.push(p);
                    assert(out@.map_values(|p: Position| p@) =~= held.map_values(|p: Position| p@).push(p@));
                },
                Err(e) => {
                    proof {
                        lemma_fault_stays(all, (i + 1) as nat, all.len());
                    }
                    return Err(e);
                },
            }
        }
        i = i + 1;
    }
    Ok(out)
}

/// A table's entry says that neither side is far ahead.
pub open spec fn even(e: Option<Entry>) -> bool {
    e matches Some(x) && size_of(x.score as int) <= 120
}

/// Whether a table's entry says that neither side is far ahead.
pub fn balanced(e: Option<Entry>) -> (r: bool)
    ensures
        r == even(e),
{
    match e {
        Some(x) => magnitude(x.score as i32) <= 120,
        None => false,
    }
}

/// An opening for a match is kept where a search of its own, with a table of its own, finds the
/// position balanced: the table's entry of it afterwards.
pub open spec fn match_entry(p: PosView, c: Consulted<TT>) -> Option<Entry> {
    probed(c.after.tt.slots_of(p.hash), p.hash)
}

/// The limits of a search that looks whether a match opening is balanced.
pub open spec fn match_limits(l: Limits) -> bool {
    l.depth == Some(8i32) && l.nodes == Some(300_000u64) && l.movetime is None && l.wtime is None && l.btime is None
}

/// A search of a match opening.
pub open spec fn looked_at(p: PosView, c: Consulted<TT>) -> bool {
    &&& c.before.thread_id == 0
    &&& c.before.net is None
    &&& exists|l: Limits, m: Option<Move>| match_limits(l) && #[trigger] c.after.thought(&c.before, p, l, m)
}

/// An attempt at an opening for a match, with the generator at `seed`: where eight random moves
/// lead to a position with the game going on, `search` looked at it, and it is kept where that
/// search finds it balanced.
pub open spec fn match_attempt(seed: u64, a: Attempt) -> bool {
    match walked(start_view(), 8, seed).0 {
        Some(q) => if status_of(q) == GameStatus::Ongoing {
            a.search matches Some(c) && looked_at(q, c) && a.kept == if even(match_entry(q, c)) {
                Some(q)
            } else {
                None
            }
        } else {
            a.kept is None
        },
        None => a.kept is None,
    }
}

/// What came of an attempt at an opening for a match.
pub struct Attempt {
    pub kept: Option<PosView>,
    pub search: Option<Consulted<TT>>,
}

/// One attempt at an opening for a match: random moves from the initial position, kept where a
/// search of its own finds the position balanced. It comes with that search.
pub fn try_match_opening(seed: &mut u64) -> (r: (Option<Position>, Ghost<Option<Consulted<TT>>>))
    ensures
        *final(seed) == walked(start_view(), 8, *old(seed)).1,
        r.0 matches Some(b) ==> wf(b@),
        match_attempt(*old(seed), (Attempt { kept: view_of(r.0), search: r.1@ })),
{
    let start: Position = Position::start();
    match random_opening(&start, 8, seed) {
        Some(b) => {
            let mut s = Searcher::<TT>::new(16);
            let mut limits = Limits::default();
            limits.depth = Some(8);
            limits.nodes = Some(300_000);
            let ghost before = s;
            let m: Option<Move> = s.think(&b, &limits);
            let ghost c = Consulted { before, after: s };
            assert(match_limits(limits));
            assert(c.after.thought(&c.before, b@, limits, m));
            if balanced(s.tt.probe(b.hash())) {
                (Some(b), Ghost(Some(c)))
            } else {
                (None, Ghost(Some(c)))
            }
        },
        None => (None, Ghost(None)),
    }
}

/// The generator's state after `k` attempts.
pub open spec fn seed_after(seed: u64, k: nat) -> u64
    decreases k,
{
    if k == 0 {
        seed
    } else {
        walked(start_view(), 8, seed_after(seed, (k - 1) as nat)).1
    }
}

/// The positions that attempts kept, in order.
pub open spec fn kept_of(attempts: Seq<Attempt>) -> Seq<PosView>
    decreases attempts.len(),
{
    if attempts.len() == 0 {
        Seq::empty()
    } else {
        match attempts.last().kept {
            Some(p) => kept_of(attempts.drop_last()).push(p),
            None => kept_of(attempts.drop_last()),
        }
    }
}

/// Attempts are made while openings are missing and fewer than fifty have been made for each.
pub open spec fn still_trying(attempts: Seq<Attempt>, count: int) -> bool {
    kept_of(attempts).len() < count && attempts.len() < count * 50
}

/// Each attempt starts where the one before left the generator, and is made only while openings
/// are missing.
pub open spec fn attempts_from(seed: u64, attempts: Seq<Attempt>, count: int) -> bool {
    forall|k: int| 0 <= k < attempts.len() ==> match_attempt(seed_after(seed, k as nat), #[trigger] attempts[k])
        && still_trying(attempts.take(k), count)
}

/// Openings for matches: attempts until there are `count`, but at most fifty for each. They come
/// with the number of attempts.
pub fn match_openings(count: usize, seed: &mut u64) -> (r: (Vec<Position>, usize, Ghost<Seq<Attempt>>))
    requires
        count * 50 <= usize::MAX,
    ensures
        attempts_from(*old(seed), r.2@, count as int),
        !still_trying(r.2@, count as int),
        r.1 == r.2@.len(),
        r.0@.map_values(|p: Position| p@) == kept_of(r.2@),
        forall|k: int| 0 <= k < r.0@.len() ==> wf(#[trigger] r.0@[k]@),
        *final(seed) == seed_after(*old(seed), r.1 as nat),
{
    let mut out: Vec<Position> = Vec::new();
    let mut tried: usize = 0;
    let ghost mut log: Seq<Attempt> = Seq::empty();
    assert(out@.map_values(|p: Position| p@) =~= kept_of(log));
    while out.len() < count && tried < count * 50
        invariant
            count * 50 <= usize::MAX,
            tried == log.len(),
            attempts_from(*old(seed), log, count as int),
            out@.map_values(|p: Position| p@) == kept_of(log),
            forall|k: int| 0 <= k < out@.len() ==> wf(#[trigger] out@[k]@),
            *seed == seed_after(*old(seed), tried as nat),
        decreases count * 50 - tried,
    {
        let ghost before = log;
        let ghost held = out@;
        let (opening, search) = try_match_opening(seed);
        proof {
            log = log.push(Attempt { kept: view_of(opening), search: search@ });
            assert(log.drop_last() =~= before);
            assert(held.len() == kept_of(before).len());
            assert forall|k: int| 0 <= k < log.len() implies match_attempt(
                seed_after(*old(seed), k as nat),
                #[trigger] log[k],
            ) && still_trying(log.take(k), count as int) by {
                if k < before.len() {
                    assert(log[k] == before[k]);
                    assert(log.take(k) =~= before.take(k));
                } else {
                    assert(log.take(k) =~= before);
                }
            }
        }
        tried = tried + 1;
        match opening {
            Some(b) => {
                out.push(b);
                assert(out@.map_values(|p: Position| p@) =~= held.map_values(|p: Position| p@).push(b@));
            },
            None => {},
        }
    }
    (out, tried, Ghost(log))
}

/// A turn of self-play: the engine's move and its score.
#[derive(Clone, Copy)]
pub struct Turn {
    pub mv: Move,
    pub score: i32,
}

pub open spec fn moves_of(turns: Seq<Turn>) -> Seq<Move> {
    turns.map_values(|t: Turn| t.mv)
}

/// The position after the first `k` turns.
pub open spec fn at_turn(p: PosView, turns: Seq<Turn>, k: int) -> PosView {
    after_line(p, moves_of(turns).take(k))
}

/// What the rules say after the first `k` turns.
pub open spec fn ruled_at(p: PosView, turns: Seq<Turn>, k: int) -> Option<u8> {
    ruled(at_turn(p, turns, k), line_hashes(p, moves_of(turns).take(k)), OPENING_PLIES + k, MAX_PLIES as int)
}

/// Decisive scores in a row before turn `n`.
pub open spec fn resigning(turns: Seq<Turn>, n: int) -> int
    decreases n,
{
    if n <= 0 || !decisive(turns[n - 1].score as int) {
        0
    } else {
        resigning(turns, n - 1) + 1
    }
}

/// Lifeless scores in a row before turn `n`.
pub open spec fn drawing(turns: Seq<Turn>, n: int) -> int
    decreases n,
{
    if n <= 0 || !lifeless(turns[n - 1].score as int, OPENING_PLIES + n - 1) {
        0
    } else {
        drawing(turns, n - 1) + 1
    }
}

/// What the scores say at turn `k`.
pub open spec fn judged_at(p: PosView, turns: Seq<Turn>, k: int, score: int) -> Option<u8> {
    adjudged(at_turn(p, turns, k).side, score, OPENING_PLIES + k, resigning(turns, k), drawing(turns, k))
}

/// Turn `k` makes a legal move, and neither the rules nor the scores had ended the game.
#[verifier::opaque]
pub open spec fn turn_ok(p: PosView, turns: Seq<Turn>, k: int) -> bool {
    &&& legal_choice(at_turn(p, turns, k), Some(turns[k].mv))
    &&& ruled_at(p, turns, k) is None
    &&& judged_at(p, turns, k, turns[k].score as int) is None
}

/// Those of the first `n` turns that are recorded.
pub open spec fn kept(p: PosView, turns: Seq<Turn>, n: int) -> Seq<int>
    decreases n,
{
    if n <= 0 {
        Seq::empty()
    } else if recorded(at_turn(p, turns, n - 1), turns[n - 1].mv, turns[n - 1].score as int, OPENING_PLIES + n - 1) {
        kept(p, turns, n - 1).push(n - 1)
    } else {
        kept(p, turns, n - 1)
    }
}

/// Record `g` is the one of turn `k`.
#[verifier::opaque]
pub open spec fn record_of_turn(g: GameRecord, p: PosView, turns: Seq<Turn>, k: int) -> bool {
    0 <= k < turns.len() && record_holds(g, at_turn(p, turns, k), turns[k].mv, turns[k].score as int)
}

/// A game has come this far: every turn was in order, and the records are those of the turns
/// that are worth one.
pub open spec fn played_on(p: PosView, turns: Seq<Turn>, v: Seq<GameRecord>) -> bool {
    let at = kept(p, turns, turns.len() as int);
    &&& forall|k: int| 0 <= k < turns.len() ==> #[trigger] turn_ok(p, turns, k)
    &&& v.len() == at.len()
    &&& forall|j: int| 0 <= j < at.len() ==> record_of_turn(v[j], p, turns, #[trigger] at[j])
}

/// A game that has ended: by the rules, or by the scores at a last turn whose move is not made,
/// or as a draw where the engine had no move.
pub open spec fn ended(p: PosView, turns: Seq<Turn>, last: Option<Turn>, result: u8) -> bool {
    match ruled_at(p, turns, turns.len() as int) {
        Some(x) => result == x && last is None,
        None => match last {
            Some(t) => judged_at(p, turns, turns.len() as int, t.score as int) == Some(result),
            None => result == 1,
        },
    }
}

proof fn lemma_same_beginning(p: PosView, turns: Seq<Turn>, t: Turn, k: int)
    requires
        0 <= k <= turns.len(),
    ensures
        moves_of(turns.push(t)).take(k) == moves_of(turns).take(k),
        at_turn(p, turns.push(t), k) == at_turn(p, turns, k),
        ruled_at(p, turns.push(t), k) == ruled_at(p, turns, k),
        resigning(turns.push(t), k) == resigning(turns, k),
        drawing(turns.push(t), k) == drawing(turns, k),
        kept(p, turns.push(t), k) == kept(p, turns, k),
        forall|j: int| 0 <= j < kept(p, turns, k).len() ==> 0 <= #[trigger] kept(p, turns, k)[j] < k,
    decreases k,
{
    assert(moves_of(turns.push(t)).take(k) =~= moves_of(turns).take(k));
    if k > 0 {
        lemma_same_beginning(p, turns, t, k - 1);
        assert(turns.push(t)[k - 1] == turns[k - 1]);
    }
}

/// One turn more.
proof fn lemma_turn(p: PosView, turns: Seq<Turn>, t: Turn, v: Seq<GameRecord>, w: Seq<GameRecord>)
    requires
        played_on(p, turns, v),
        legal_choice(at_turn(p, turns, turns.len() as int), Some(t.mv)),
        ruled_at(p, turns, turns.len() as int) is None,
        judged_at(p, turns, turns.len() as int, t.score as int) is None,
        ({
            let q = at_turn(p, turns, turns.len() as int);
            if recorded(q, t.mv, t.score as int, OPENING_PLIES + turns.len()) {
                exists|g: GameRecord| #[trigger] record_holds(g, q, t.mv, t.score as int) && w == v.push(g)
            } else {
                w == v
            }
        }),
    ensures
        played_on(p, turns.push(t), w),
        at_turn(p, turns.push(t), turns.len() as int + 1) == crate::board::position_after(
            at_turn(p, turns, turns.len() as int),
            t.mv,
        ),
        line_hashes(p, moves_of(turns.push(t))) == line_hashes(p, moves_of(turns)).push(
            at_turn(p, turns, turns.len() as int).hash,
        ),
{
    let n = turns.len() as int;
    let all = turns.push(t);
    let at = kept(p, turns, n);
    let now = kept(p, all, n + 1);
    assert(moves_of(all) =~= moves_of(turns).push(t.mv));
    assert(moves_of(turns).take(n) =~= moves_of(turns));
    assert(moves_of(all).take(n + 1) =~= moves_of(all));
    lemma_beginnings(moves_of(turns), t.mv);
    lemma_hashes(p, moves_of(turns), t.mv);
    lemma_same_beginning(p, turns, t, n);
    assert(all[n] == t);
    assert forall|k: int| 0 <= k < all.len() implies #[trigger] turn_ok(p, all, k) by {
        assert(k < n ==> turn_ok(p, turns, k));
        reveal(turn_ok);
        lemma_same_beginning(p, turns, t, k);
        assert(k < n ==> all[k] == turns[k]);
    }
    assert forall|j: int| 0 <= j < now.len() implies record_of_turn(w[j], p, all, #[trigger] now[j]) by {
        reveal(record_of_turn);
        if j < at.len() {
            assert(record_of_turn(v[j], p, turns, at[j]));
            assert(now[j] == at[j]);
            assert(w[j] == v[j]);
            lemma_same_beginning(p, turns, t, at[j]);
            assert(all[at[j]] == turns[at[j]]);
        } else {
            assert(now[j] == n);
        }
    }
}

/// Turn `k` makes the move and has the score of a search of its position, with the game before it.
#[verifier::opaque]
pub open spec fn turn_searched<T: Table>(p: PosView, turns: Seq<Turn>, searches: Seq<Consulted<T>>, k: int, t: Turn) -> bool {
    &&& t.score == searches[k].after.last_score
    &&& found_by(
        searches[k],
        at_turn(p, turns, k),
        line_hashes(p, moves_of(turns).take(k)),
        NODES_PER_MOVE,
        Some(t.mv),
    )
}

/// The course of a game of self-play: its turns, the one that ended it by its score if one did,
/// and the searches behind them, the last of which may have found no move.
pub struct Course<T: Table> {
    pub turns: Seq<Turn>,
    pub last: Option<Turn>,
    pub searches: Seq<Consulted<T>>,
}

/// Every turn is the engine's.
pub open spec fn all_searched<T: Table>(p: PosView, c: Course<T>) -> bool {
    &&& forall|k: int| 0 <= k < c.turns.len() ==> #[trigger] turn_searched(p, c.turns, c.searches, k, c.turns[k])
    &&& c.last matches Some(t) ==> turn_searched(p, c.turns, c.searches, c.turns.len() as int, t)
}

/// One turn more.
proof fn lemma_turn_searched<T: Table>(p: PosView, turns: Seq<Turn>, searches: Seq<Consulted<T>>, t: Turn, c: Consulted<T>)
    requires
        searches.len() == turns.len(),
        forall|k: int| 0 <= k < turns.len() ==> #[trigger] turn_searched(p, turns, searches, k, turns[k]),
        turn_searched(p, turns, searches.push(c), turns.len() as int, t),
    ensures
        forall|k: int|
            0 <= k < turns.len() + 1 ==> #[trigger] turn_searched(p, turns.push(t), searches.push(c), k, turns.push(t)[k]),
        forall|k: int| 0 <= k < turns.len() ==> #[trigger] turn_searched(p, turns, searches.push(c), k, turns[k]),
{
    reveal(turn_searched);
    assert forall|k: int| 0 <= k < turns.len() + 1 implies #[trigger] turn_searched(
        p,
        turns.push(t),
        searches.push(c),
        k,
        turns.push(t)[k],
    ) by {
        lemma_same_beginning(p, turns, t, k);
        if k < turns.len() {
            assert(turn_searched(p, turns, searches, k, turns[k]));
        }
    }
    assert forall|k: int| 0 <= k < turns.len() implies #[trigger] turn_searched(p, turns, searches.push(c), k, turns[k]) by {
        assert(turn_searched(p, turns, searches, k, turns[k]));
    }
}

/// The engine had no move in a position that has one: its search of the last position found none.
pub open spec fn gave_up<T: Table>(p: PosView, c: Course<T>) -> bool {
    let n = c.turns.len() as int;
    &&& c.searches.len() == n + 1
    &&& found_by(c.searches.last(), at_turn(p, c.turns, n), line_hashes(p, moves_of(c.turns)), NODES_PER_MOVE, None)
}

/// Plays a game of self-play from a position to its end. The game comes with its course.
pub fn play_game<T: Table>(s: &mut Searcher<T>, board: Position) -> (r: (Played, Ghost<Course<T>>))
    requires
        old(s).wf(),
        wf(board@),
    ensures
        final(s).wf(),
        r.0.result <= 2,
        played_on(board@, r.1@.turns, r.0.records@),
        all_searched(board@, r.1@),
        one_searcher(r.1@.searches),
        r.1@.searches.len() > 0 ==> r.1@.searches[0].before.tt.emptied() && r.1@.searches[0].before == (Searcher {
            tt: r.1@.searches[0].before.tt,
            game_hist: r.1@.searches[0].before.game_hist,
            ..*old(s)
        }),
        ended(board@, r.1@.turns, r.1@.last, r.0.result),
        if r.1@.last is Some {
            r.1@.searches.len() == r.1@.turns.len() + 1
        } else if ruled_at(board@, r.1@.turns, r.1@.turns.len() as int) is Some {
            r.1@.searches.len() == r.1@.turns.len()
        } else {
            gave_up(board@, r.1@)
        },
        r.1@.searches.len() > 0 ==> *final(s) == r.1@.searches.last().after,
        r.0.records@.len() <= MAX_PLIES - OPENING_PLIES,
        forall|k: int| 0 <= k < r.0.records@.len() ==> good_record(#[trigger] r.0.records@[k]),
{
    s.tt.forget();
    let ghost start = board@;
    let mut g: Play = Play::begin(board);
    let mut result: Option<u8> = g.over();
    let ghost mut turns: Seq<Turn> = Seq::empty();
    let ghost mut last: Option<Turn> = None;
    let ghost mut searches: Seq<Consulted<T>> = Seq::empty();
    proof {
        assert(moves_of(turns).take(0) =~= Seq::<Move>::empty());
        assert(moves_of(turns) =~= Seq::<Move>::empty());
        assert(g.hist@ =~= line_hashes(start, moves_of(turns)));
    }
    let limits: Limits = move_limits();
    while result.is_none()
        invariant
            s.wf(),
            limits.wf(),
            result is None ==> g.wf() && g.ply < MAX_PLIES && last is None && ruled_at(start, turns, turns.len() as int) is None,
            result matches Some(x) ==> x <= 2 && ended(start, turns, last, x),
            limits == (Limits { nodes: Some(NODES_PER_MOVE), ..limits }),
            limits.depth is None,
            limits.movetime is None,
            limits.wtime is None,
            limits.btime is None,
            result is Some ==> if last is Some {
                searches.len() == turns.len() + 1
            } else if ruled_at(start, turns, turns.len() as int) is Some {
                searches.len() == turns.len()
            } else {
                gave_up(start, Course { turns, last, searches })
            },
            g.ply <= MAX_PLIES,
            g.ply == OPENING_PLIES + turns.len(),
            g.board@ == at_turn(start, turns, turns.len() as int),
            g.hist@ == line_hashes(start, moves_of(turns)),
            result is None ==> g.resign_run == resigning(turns, turns.len() as int) && g.draw_run == drawing(
                turns,
                turns.len() as int,
            ),
            played_on(start, turns, g.records@),
            result is None ==> searches.len() == turns.len(),
            one_searcher(searches),
            searches.len() == 0 ==> s.tt.emptied() && *s == (Searcher { tt: s.tt, game_hist: s.game_hist, ..*old(s) }),
            searches.len() > 0 ==> *s == searches.last().after,
            searches.len() > 0 ==> searches[0].before.tt.emptied() && searches[0].before == (Searcher {
                tt: searches[0].before.tt,
                game_hist: searches[0].before.game_hist,
                ..*old(s)
            }),
            forall|k: int| 0 <= k < turns.len() ==> #[trigger] turn_searched(start, turns, searches, k, turns[k]),
            last matches Some(t) ==> turn_searched(start, turns, searches, turns.len() as int, t),
            g.records@.len() <= g.ply - OPENING_PLIES,
            forall|k: int| 0 <= k < g.records@.len() ==> good_record(#[trigger] g.records@[k]),
        decreases (if result is None { 1int } else { 0 }) + MAX_PLIES - g.ply,
    {
        s.game_hist = g.hist.clone();
        let ghost asked = *s;
        match s.think(&g.board, &limits) {
            Some(mv) => {
                let score: i32 = s.last_score;
                let ghost before = g.records@;
                let ghost t = Turn { mv, score };
                proof {
                    let c = Consulted { before: asked, after: *s };
                    assert(c.after.thought(&c.before, g.board@, limits, Some(mv)));
                    assert(moves_of(turns).take(turns.len() as int) =~= moves_of(turns));
                    assert(turn_searched(start, turns, searches.push(c), turns.len() as int, t)) by {
                        reveal(turn_searched);
                    }
                    lemma_turn_searched(start, turns, searches, t, c);
                    searches = searches.push(c);
                }
                result = g.advance(mv, score);
                if result.is_none() {
                    proof {
                        lemma_turn(start, turns, t, before, g.records@);
                        lemma_same_beginning(start, turns, t, turns.len() as int);
                        turns = turns.push(t);
                        assert(moves_of(turns).take(turns.len() as int) =~= moves_of(turns));
                    }
                    result = g.over();
                } else {
                    proof {
                        last = Some(t);
                    }
                }
            },
            None => {
                result = Some(1);
                proof {
                    let c = Consulted { before: asked, after: *s };
                    assert(c.after.thought(&c.before, g.board@, limits, None));
                    assert forall|k: int| 0 <= k < turns.len() implies #[trigger] turn_searched(
                        start,
                        turns,
                        searches.push(c),
                        k,
                        turns[k],
                    ) by {
                        assert(turn_searched(start, turns, searches, k, turns[k]));
                        reveal(turn_searched);
                    }
                    searches = searches.push(c);
                }
            },
        }
    }
    (
        Played {
            records: g.records,
            result: match result {
                Some(x) => x,
                None => 1,
            },
        },
        Ghost(Course { turns, last, searches }),
    )
}

// ---------------- bytes ----------------
/// The result of a game for a side.
pub open spec fn result_for(stm: u8, result: u8) -> int {
    if stm == WHITE {
        result as int
    } else {
        2 - result
    }
}

/// The bytes of a record.
pub open spec fn record_bytes(g: GameRecord, result: u8) -> Seq<u8> {
    g.pos@ + seq![
        (bits16(g.score) % 0x100) as u8,
        (bits16(g.score) / 0x100) as u8,
        result_for(g.stm, result) as u8,
        (g.best as int % 0x100) as u8,
        (g.best as int / 0x100) as u8,
    ]
}

/// The bytes of the first `n` records of a game.
pub open spec fn game_bytes(v: Seq<GameRecord>, result: u8, n: int) -> Seq<u8>
    decreases n,
{
    if n <= 0 {
        Seq::empty()
    } else {
        game_bytes(v, result, n - 1) + record_bytes(v[n - 1], result)
    }
}

/// The bytes of a game: its records with the result filled in.
pub fn encode_game(p: &Played) -> (r: Vec<u8>)
    requires
        p.result <= 2,
    ensures
        r@ == game_bytes(p.records@, p.result, p.records@.len() as int),
{
    let mut out: Vec<u8> = Vec::new();
    let n: usize = p.records.len();
    let mut i: usize = 0;
    while i < n
        invariant
            i <= n,
            n == p.records@.len(),
            p.result <= 2,
            out@ == game_bytes(p.records@, p.result, i as int),
        decreases n - i,
    {
        let ghost before = out@;
        let g: GameRecord = p.records[i];
        let mut k: usize = 0;
        assert(before + g.pos@.take(0) =~= before);
        while k < 27
            invariant
                k <= 27,
                g.pos@.len() == 27,
                out@ == before + g.pos@.take(k as int),
            decreases 27 - k,
        {
            out.push(g.pos[k]);
            k = k + 1;
            assert(g.pos@.take(k as int) =~= g.pos@.take(k as int - 1).push(g.pos@[k as int - 1]));
            assert(out@ =~= before + g.pos@.take(k as int));
        }
        assert(g.pos@.take(27) =~= g.pos@);
        let (lo, hi): (u8, u8) = i16_bytes(g.score);
        out.push(lo);
        out.push(hi);
        out.push(if g.stm == WHITE {
            p.result
        } else {
            2 - p.result
        });
        let (lo2, hi2): (u8, u8) = u16_bytes(g.best);
        out.push(lo2);
        out.push(hi2);
        i = i + 1;
        assert(out@ =~= before + record_bytes(g, p.result));
    }
    out
}

/// A record's bytes give back its position, score, result and move.
pub proof fn law_record_bytes_read_back(g: GameRecord, result: u8)
    requires
        result <= 2,
    ensures
        record_bytes(g, result).len() == RECORD_SIZE,
        record_bytes(g, result).take(27) == g.pos@,
        i16_at(record_bytes(g, result), 27) == g.score,
        record_bytes(g, result)[29] == result_for(g.stm, result),
        u16_at(record_bytes(g, result), 30) == g.best,
{
    assert(record_bytes(g, result).take(27) =~= g.pos@);
}

/// Record `k` of a game stands at 32 times `k`.
pub proof fn law_records_stand_in_order(v: Seq<GameRecord>, result: u8, n: int, k: int)
    requires
        0 <= k < n <= v.len(),
    ensures
        game_bytes(v, result, n).len() == RECORD_SIZE * n,
        game_bytes(v, result, n).subrange(RECORD_SIZE * k, RECORD_SIZE * k + RECORD_SIZE) == record_bytes(v[k], result),
    decreases n,
{
    let before = game_bytes(v, result, n - 1);
    let whole = game_bytes(v, result, n);
    let last = record_bytes(v[n - 1], result);
    lemma_game_len(v, result, n - 1);
    if k == n - 1 {
        assert(whole.subrange(32 * k, 32 * k + 32) =~= last);
    } else {
        law_records_stand_in_order(v, result, n - 1, k);
        assert(whole.subrange(32 * k, 32 * k + 32) =~= before.subrange(32 * k, 32 * k + 32));
    }
}

proof fn lemma_game_len(v: Seq<GameRecord>, result: u8, n: int)
    requires
        0 <= n <= v.len(),
    ensures
        game_bytes(v, result, n).len() == 32 * n,
    decreases n,
{
    if n > 0 {
        lemma_game_len(v, result, n - 1);
    }
}

// ---------------- laws ----------------
/// A decisive score that has stood for four moves wins for the side that it favours, whoever is to
/// move; a score near nothing that has stood for ten moves from ply a hundred on is a draw; nothing
/// else ends a game by its scores.
pub proof fn law_scores_decide_for_the_better_side(score: int, ply: int, resign_run: int, draw_run: int)
    ensures
        adjudged(0, score, ply, resign_run, draw_run) == Some(2u8) <==> score >= 2_500 && resign_run >= 3,
        adjudged(0, score, ply, resign_run, draw_run) == Some(0u8) <==> score <= -2_500 && resign_run >= 3,
        adjudged(1, score, ply, resign_run, draw_run) == Some(0u8) <==> score >= 2_500 && resign_run >= 3,
        adjudged(1, score, ply, resign_run, draw_run) == Some(2u8) <==> score <= -2_500 && resign_run >= 3,
        adjudged(0, score, ply, resign_run, draw_run) == Some(1u8) <==> -8 <= score <= 8 && ply >= 100 && draw_run >= 9,
        adjudged(0, score, ply, resign_run, draw_run) == Some(1u8) <==> adjudged(1, score, ply, resign_run, draw_run) == Some(1u8),
        adjudged(0, score, ply, resign_run, draw_run) is None <==> adjudged(1, score, ply, resign_run, draw_run) is None,
        adjudged(0, score, ply, resign_run, draw_run) == adjudged(1, -score, ply, resign_run, draw_run),
        adjudged(0, score, ply, resign_run, draw_run) matches Some(r) ==> r <= 2,
{
}

/// The side to move has won, by its scores, exactly where its own score is positive.
pub proof fn law_the_mover_wins_by_a_positive_score(side: u8, score: int, ply: int, resign_run: int, draw_run: int)
    requires
        side < 2,
    ensures
        adjudged(side, score, ply, resign_run, draw_run) matches Some(r) ==> {
            &&& result_for(side, r) == 2 <==> score > 8
            &&& result_for(side, r) == 0 <==> score < -8
            &&& result_for(side, r) + result_for((1 - side) as u8, r) == 2
        },
{
}

/// Nothing is recorded in the first ten plies, in check, before a capture or a promotion, or with a
/// score of twenty pawns or more; everything else is.
pub proof fn law_quiet_undecided_positions_are_recorded(p: PosView, mv: Move, score: int, ply: int)
    ensures
        ply < 10 || p.checkers != 0 || taken_by(p, mv) is Some || mv.promotion is Some || score >= 2_000 || score <= -2_000
            ==> !recorded(p, mv, score, ply),
        ply >= 10 && p.checkers == 0 && taken_by(p, mv) is None && mv.promotion is None && -2_000 < score < 2_000 ==> recorded(
            p,
            mv,
            score,
            ply,
        ),
{
}

/// Where the random numbers of a thread start.
pub open spec fn seed_of(base: u64, t: u64) -> u64 {
    (base ^ t.wrapping_mul(0x9E37_79B9_7F4A_7C15)) | 1
}

/// Every thread starts with an odd number, so that its random numbers never run dry; the first with
/// the base itself.
pub proof fn law_threads_start_with_odd_numbers(base: u64, t: u64)
    ensures
        seed_of(base, t) % 2 == 1,
        seed_of(base, 0) == base | 1,
{
    let x = base ^ t.wrapping_mul(0x9E37_79B9_7F4A_7C15);
    assert((x | 1) % 2 == 1) by (bit_vector);
    assert(0u64.wrapping_mul(0x9E37_79B9_7F4A_7C15) == 0);
    assert(base ^ 0 == base) by (bit_vector);
}

/// A run of decisive scores is counted back to the first that was not.
pub proof fn law_runs_count_back(turns: Seq<Turn>, n: int, j: int)
    requires
        0 <= n <= turns.len(),
    ensures
        0 <= resigning(turns, n) <= n,
        0 <= drawing(turns, n) <= n,
        n - resigning(turns, n) <= j < n ==> turns[j].score >= 2_500 || turns[j].score <= -2_500,
        n - drawing(turns, n) <= j < n ==> -8 <= turns[j].score <= 8 && j >= 92,
        resigning(turns, n) < n ==> -2_500 < turns[n - resigning(turns, n) - 1].score < 2_500,
        drawing(turns, n) > 0 ==> n > 92,
    decreases n,
{
    if n > 0 {
        law_runs_count_back(turns, n - 1, j);
    }
}

/// Scores end a game only after four decisive ones in a row, or ten near nothing.
pub proof fn law_a_single_score_ends_no_game(p: PosView, turns: Seq<Turn>, k: int, score: int, j: int)
    requires
        0 <= k <= turns.len(),
    ensures
        judged_at(p, turns, k, score) matches Some(r) ==> {
            &&& r != 1 ==> k >= 3 && (k - 3 <= j < k ==> turns[j].score >= 2_500 || turns[j].score <= -2_500)
            &&& r == 1 ==> k >= 101 && (k - 9 <= j < k ==> -8 <= turns[j].score <= 8)
        },
{
    law_runs_count_back(turns, k, j);
    law_runs_count_back(turns, k, k - drawing(turns, k));
}

/// An opening is balanced where its search has left a score within 120 centipawns; without a score it
/// is not.
pub proof fn law_even_openings_are_within_a_pawn_and_a_bit(e: Entry)
    ensures
        !even(None),
        even(Some(e)) <==> -120 <= e.score <= 120,
{
}

/// No more openings are kept than asked for, and no more than fifty attempts are made for each.
pub proof fn law_attempts_are_limited(attempts: Seq<Attempt>, count: int)
    ensures
        kept_of(attempts).len() <= attempts.len(),
        kept_of(attempts).len() >= count ==> !still_trying(attempts, count),
        attempts.len() >= 50 * count ==> !still_trying(attempts, count),
        kept_of(attempts).len() < count && attempts.len() < 50 * count ==> still_trying(attempts, count),
    decreases attempts.len(),
{
    if attempts.len() > 0 {
        law_attempts_are_limited(attempts.drop_last(), count);
    }
}

/// Blank lines of a list name no position, and every other line names one with the kings apart.
pub proof fn law_listed_positions_come_from_their_lines(lines: Seq<Seq<char>>, n: nat)
    requires
        n <= lines.len(),
    ensures
        listed(lines, n) matches Ok(v) ==> {
            &&& v.len() <= n
            &&& forall|k: int| 0 <= k < v.len() ==> kings_apart((#[trigger] v[k]).men)
            &&& n > 0 && trimmed(lines[n - 1]).len() == 0 ==> listed(lines, (n - 1) as nat) == listed(lines, n)
            &&& n > 0 && trimmed(lines[n - 1]).len() > 0 ==> v.len() > 0 && fen_position(trimmed(lines[n - 1])) == Ok::<PosView, Seq<char>>(
                v.last(),
            )
        },
    decreases n,
{
    if n > 0 {
        law_listed_positions_come_from_their_lines(lines, (n - 1) as nat);
    }
}

} // verus!

//! Checks of the engine against itself: records that read back, accumulators that follow, and
//! mates that are proved.
use vstd::prelude::*;
use crate::rules::taken_by;
use crate::board::{
    accepted, castles_after, hashed, is_castle, is_ep, legal_moves, legal_shape, mover,
    position_after, start_view, status_of, wf, GameStatus, Move, PosView, Position, PAWN,
};
use crate::notation::uci_move;
use crate::book::{reached, sampled, Book};
use crate::driver::{legal_choice, Consulted};
use crate::history::INF;
use crate::nnue::{acc_from, acc_holds, acc_update, law_update_equals_rebuild, Acc, Network};
use crate::records::{rights_of, round_trip, standard_castles, RoundTrip};
use crate::search::Searcher;
use crate::time::Limits;
use crate::tt::TT;
use crate::text::{text_of, views, words, words_of};
use crate::walk::{draw, random_move, stepped, view_of};

verus! {

// ---------------- records ----------------
/// What a walk of round trips has seen.
#[derive(Clone, Copy, PartialEq, Eq, Structural, Debug)]
pub struct Tally {
    pub checked: usize,
    pub with_castle: usize,
    pub with_ep: usize,
}

/// The move a random walk makes.
pub open spec fn chosen(p: PosView, seed: u64) -> Move {
    legal_moves(p)[stepped(seed) as int % legal_moves(p).len() as int]
}

/// Positions of a random walk, with castling rights, and with an en passant file: at most `n`
/// moves and `room` positions, as long as the game goes on. And the generator's state.
pub open spec fn walk_tally(p: PosView, n: nat, room: nat, seed: u64) -> (int, int, int, u64)
    decreases n,
{
    if n == 0 || room == 0 || legal_moves(p).len() == 0 {
        (0, 0, 0, seed)
    } else {
        let q = position_after(p, chosen(p, seed));
        if status_of(q) != GameStatus::Ongoing {
            (0, 0, 0, stepped(seed))
        } else {
            let (a, b, c, s) = walk_tally(q, (n - 1) as nat, (room - 1) as nat, stepped(seed));
            (
                a + 1,
                b + if rights_of(q.castles) != 0 {
                    1int
                } else {
                    0int
                },
                c + if q.ep is Some {
                    1int
                } else {
                    0int
                },
                s,
            )
        }
    }
}

/// Castling rights are never gained.
proof fn lemma_castles_stay_standard(p: PosView, m: Move)
    requires
        standard_castles(p.castles),
        p.side < 2,
    ensures
        standard_castles(castles_after(p, m)),
{
    assert forall|c: int| 0 <= c < 2 implies (match #[trigger] castles_after(p, m)[c] {
        (s, l) => (s is None || s == Some(7u8)) && (l is None || l == Some(0u8)),
    }) by {
        let before = p.castles[c];
    }
}

/// Walks from the initial position at random and writes each position as a record, reading it
/// again. Every position comes back, and with the hash it had.
pub fn check_records(len: usize, room: usize, seed: &mut u64) -> (r: Result<Tally, RoundTrip>)
    ensures
        r matches Ok(t) && (t.checked as int, t.with_castle as int, t.with_ep as int, *final(seed)) == walk_tally(
            start_view(),
            len as nat,
            room as nat,
            *old(seed),
        ),
{
    let start: Position = Position::start();
    let mut b: Position = start.clone();
    let mut t = Tally { checked: 0, with_castle: 0, with_ep: 0 };
    let mut left: usize = len;
    let mut done: bool = false;
    assert(standard_castles(b@.castles));
    while left > 0 && t.checked < room && !done
        invariant
            left <= len,
            t.checked <= room,
            t.with_castle <= t.checked,
            t.with_ep <= t.checked,
            wf(b@),
            hashed(b@),
            standard_castles(b@.castles),
            ({
                let whole = walk_tally(start@, len as nat, room as nat, *old(seed));
                if done {
                    (t.checked as int, t.with_castle as int, t.with_ep as int, *seed) == whole
                } else {
                    let rest = walk_tally(b@, left as nat, (room - t.checked) as nat, *seed);
                    whole == (t.checked + rest.0, t.with_castle + rest.1, t.with_ep + rest.2, rest.3)
                }
            }),
        decreases left,
    {
        match random_move(&b, seed) {
            Some(mv) => {
                proof {
                    lemma_castles_stay_standard(b@, mv);
                }
                b = b.play(mv);
                match b.status() {
                    GameStatus::Ongoing => match round_trip(&b) {
                        RoundTrip::Exact(castle, ep) => {
                            t.checked = t.checked + 1;
                            if castle {
                                t.with_castle = t.with_castle + 1;
                            }
                            if ep {
                                t.with_ep = t.with_ep + 1;
                            }
                        },
                        failed => {
                            return Err(failed);
                        },
                    },
                    _ => {
                        done = true;
                    },
                }
            },
            None => {
                done = true;
            },
        }
        left = left - 1;
    }
    Ok(t)
}

/// How long a random walk is to be, for a number drawn.
pub open spec fn walk_length(drawn: u64) -> nat {
    (4 + drawn % 120) as nat
}

/// What at most `walks` random walks see, until they have seen `room` positions, and the
/// generator's state. The length of each is drawn before it starts.
pub open spec fn walks_tally(walks: nat, room: nat, seed: u64) -> (int, int, int, u64)
    decreases walks,
{
    if walks == 0 || room == 0 {
        (0, 0, 0, seed)
    } else {
        let first = walk_tally(start_view(), walk_length(stepped(seed)), room, stepped(seed));
        let rest = walks_tally((walks - 1) as nat, (room - first.0) as nat, first.3);
        (first.0 + rest.0, first.1 + rest.1, first.2 + rest.2, rest.3)
    }
}

/// A walk sees no more positions than there is room for.
proof fn lemma_walk_fits(p: PosView, n: nat, room: nat, seed: u64)
    ensures
        0 <= walk_tally(p, n, room, seed).0 <= room,
        0 <= walk_tally(p, n, room, seed).1 <= walk_tally(p, n, room, seed).0,
        0 <= walk_tally(p, n, room, seed).2 <= walk_tally(p, n, room, seed).0,
    decreases n,
{
    if n > 0 && room > 0 {
        lemma_walk_fits(position_after(p, chosen(p, seed)), (n - 1) as nat, (room - 1) as nat, stepped(seed));
    }
}

/// Random walks from the initial position, each position written as a record and read again,
/// until `room` positions have come back or `walks` walks are over.
pub fn check_walks(walks: usize, room: usize, seed: &mut u64) -> (r: Result<Tally, RoundTrip>)
    ensures
        r matches Ok(t) && (t.checked as int, t.with_castle as int, t.with_ep as int, *final(seed)) == walks_tally(
            walks as nat,
            room as nat,
            *old(seed),
        ),
{
    let mut t = Tally { checked: 0, with_castle: 0, with_ep: 0 };
    let mut left: usize = walks;
    while left > 0 && t.checked < room
        invariant
            left <= walks,
            t.checked <= room,
            t.with_castle <= t.checked,
            t.with_ep <= t.checked,
            ({
                let whole = walks_tally(walks as nat, room as nat, *old(seed));
                let rest = walks_tally(left as nat, (room - t.checked) as nat, *seed);
                whole == (t.checked + rest.0, t.with_castle + rest.1, t.with_ep + rest.2, rest.3)
            }),
        decreases left,
    {
        let len: usize = 4 + (draw(seed) % 120) as usize;
        proof {
            lemma_walk_fits(start_view(), len as nat, (room - t.checked) as nat, *seed);
        }
        match check_records(len, room - t.checked, seed) {
            Ok(one) => {
                t.checked = t.checked + one.checked;
                t.with_castle = t.with_castle + one.with_castle;
                t.with_ep = t.with_ep + one.with_ep;
            },
            Err(failed) => {
                return Err(failed);
            },
        }
        left = left - 1;
    }
    Ok(t)
}

// ---------------- accumulators ----------------
/// What a game of accumulator updates has seen.
#[derive(Clone, Copy, PartialEq, Eq, Structural, Debug)]
pub struct Coverage {
    pub moves: u64,
    pub castles: u64,
    pub en_passants: u64,
    pub promotions: u64,
}

/// A pawn goes sideways to an empty square.
pub open spec fn steps_aside(p: PosView, m: Move) -> bool {
    mover(p, m) == PAWN && m.from % 8 != m.to % 8 && p.men[m.to as int] is None
}

/// Moves, castlings, en passant captures and promotions of a random game of at most `n` moves,
/// and the generator's state.
pub open spec fn game_coverage(p: PosView, n: nat, seed: u64) -> (int, int, int, int, u64)
    decreases n,
{
    if n == 0 || status_of(p) != GameStatus::Ongoing {
        (0, 0, 0, 0, seed)
    } else {
        let m = chosen(p, seed);
        let (a, b, c, d, s) = game_coverage(position_after(p, m), (n - 1) as nat, stepped(seed));
        (
            a + 1,
            b + if is_castle(p, m) {
                1int
            } else {
                0
            },
            c + if steps_aside(p, m) {
                1int
            } else {
                0
            },
            d + if m.promotion is Some {
                1int
            } else {
                0
            },
            s,
        )
    }
}

/// Whether two accumulators hold the same numbers.
pub fn same_acc(a: &Acc, b: &Acc) -> (r: bool)
    ensures
        r == (a.w@ == b.w@ && a.b@ == b.b@),
{
    let mut i: usize = 0;
    while i < 256
        invariant
            i <= 256,
            forall|k: int| 0 <= k < i ==> a.w@[k] == b.w@[k] && a.b@[k] == b.b@[k],
        decreases 256 - i,
    {
        if a.w[i] != b.w[i] || a.b[i] != b.b[i] {
            return false;
        }
        i = i + 1;
    }
    assert(a.w@ =~= b.w@);
    assert(a.b@ =~= b.b@);
    true
}

/// Plays a random game and compares, after each move, the accumulator that followed it with one
/// built afresh. They never differ.
pub fn check_updates(net: &Network, plies: usize, seed: &mut u64) -> (r: Result<Coverage, (Move, Position)>)
    requires
        net.usable(),
    ensures
        r matches Ok(v) && (
            v.moves as int,
            v.castles as int,
            v.en_passants as int,
            v.promotions as int,
            *final(seed),
        ) == game_coverage(start_view(), plies as nat, *old(seed)),
{
    let start: Position = Position::start();
    let mut b: Position = start.clone();
    let mut acc: Acc = acc_from(net, &b);
    let mut v = Coverage { moves: 0, castles: 0, en_passants: 0, promotions: 0 };
    let mut left: usize = plies;
    let mut done: bool = false;
    while left > 0 && !done
        invariant
            left <= plies,
            net.usable(),
            wf(b@),
            acc_holds(acc, *net, b@.men),
            v.moves + left <= plies || done,
            v.castles <= v.moves,
            v.en_passants <= v.moves,
            v.promotions <= v.moves,
            ({
                let whole = game_coverage(start@, plies as nat, *old(seed));
                if done {
                    (v.moves as int, v.castles as int, v.en_passants as int, v.promotions as int, *seed) == whole
                } else {
                    let rest = game_coverage(b@, left as nat, *seed);
                    whole == (v.moves + rest.0, v.castles + rest.1, v.en_passants + rest.2, v.promotions + rest.3, rest.4)
                }
            }),
        decreases left,
    {
        let ongoing: bool = match b.status() {
            GameStatus::Ongoing => true,
            _ => false,
        };
        if ongoing {
            match random_move(&b, seed) {
                Some(mv) => {
                    let mine: bool = match b.man(mv.to) {
                        Some((_p, c)) => c == b.side_to_move(),
                        None => false,
                    };
                    if mine {
                        v.castles = v.castles + 1;
                    }
                    if mv.promotion.is_some() {
                        v.promotions = v.promotions + 1;
                    }
                    let pawn: bool = match b.man(mv.from) {
                        Some((p, _c)) => p == PAWN,
                        None => false,
                    };
                    if pawn && mv.from % 8 != mv.to % 8 && b.man(mv.to).is_none() {
                        v.en_passants = v.en_passants + 1;
                    }
                    let next: Acc = acc_update(net, &acc, &b, mv);
                    proof {
                        law_update_equals_rebuild(acc, next, *net, b@, mv);
                    }
                    let nb: Position = b.play(mv);
                    let scratch: Acc = acc_from(net, &nb);
                    proof {
                        assert(next.w@ =~= scratch.w@);
                        assert(next.b@ =~= scratch.b@);
                    }
                    if !same_acc(&next, &scratch) {
                        return Err((mv, nb));
                    }
                    acc = next;
                    b = nb;
                    v.moves = v.moves + 1;
                },
                None => {
                    done = true;
                },
            }
        } else {
            done = true;
        }
        left = left - 1;
    }
    Ok(v)
}

/// What `games` random games of at most `plies` moves cover, one after another, and the
/// generator's state.
pub open spec fn games_coverage(games: nat, plies: nat, seed: u64) -> (int, int, int, int, u64)
    decreases games,
{
    if games == 0 {
        (0, 0, 0, 0, seed)
    } else {
        let first = game_coverage(start_view(), plies, seed);
        let rest = games_coverage((games - 1) as nat, plies, first.4);
        (first.0 + rest.0, first.1 + rest.1, first.2 + rest.2, first.3 + rest.3, rest.4)
    }
}

/// A game covers no more than its moves.
proof fn lemma_game_fits(p: PosView, n: nat, seed: u64)
    ensures
        0 <= game_coverage(p, n, seed).0 <= n,
        0 <= game_coverage(p, n, seed).1 <= game_coverage(p, n, seed).0,
        0 <= game_coverage(p, n, seed).2 <= game_coverage(p, n, seed).0,
        0 <= game_coverage(p, n, seed).3 <= game_coverage(p, n, seed).0,
    decreases n,
{
    if n > 0 && status_of(p) == GameStatus::Ongoing {
        lemma_game_fits(position_after(p, chosen(p, seed)), (n - 1) as nat, stepped(seed));
    }
}

/// Plays random games, with an accumulator that follows each move and is compared with one built
/// afresh.
pub fn check_games(net: &Network, games: u32, plies: u32, seed: &mut u64) -> (r: Result<Coverage, (Move, Position)>)
    requires
        net.usable(),
    ensures
        r matches Ok(v) && (
            v.moves as int,
            v.castles as int,
            v.en_passants as int,
            v.promotions as int,
            *final(seed),
        ) == games_coverage(games as nat, plies as nat, *old(seed)),
{
    let mut v = Coverage { moves: 0, castles: 0, en_passants: 0, promotions: 0 };
    let mut left: u32 = games;
    while left > 0
        invariant
            left <= games,
            net.usable(),
            v.moves <= (games - left) * plies,
            v.castles <= v.moves,
            v.en_passants <= v.moves,
            v.promotions <= v.moves,
            ({
                let whole = games_coverage(games as nat, plies as nat, *old(seed));
                let rest = games_coverage(left as nat, plies as nat, *seed);
                whole == (v.moves + rest.0, v.castles + rest.1, v.en_passants + rest.2, v.promotions + rest.3, rest.4)
            }),
        decreases left,
    {
        proof {
            lemma_game_fits(start_view(), plies as nat, *seed);
            assert((games - left) * plies + plies == (games - left + 1) * plies) by (nonlinear_arith);
            assert((games - left + 1) * plies <= u32::MAX * u32::MAX) by (nonlinear_arith)
                requires
                    0 <= games - left + 1 <= u32::MAX,
                    0 <= plies <= u32::MAX,
            ;
        }
        match check_updates(net, plies as usize, seed) {
            Ok(one) => {
                v.moves = v.moves + one.moves;
                v.castles = v.castles + one.castles;
                v.en_passants = v.en_passants + one.en_passants;
                v.promotions = v.promotions + one.promotions;
            },
            Err(failed) => {
                return Err(failed);
            },
        }
        left = left - 1;
    }
    Ok(v)
}

// ---------------- mates ----------------
/// The side to move can force mate within `n` of its moves.
pub open spec fn mate_forced(p: PosView, n: int) -> bool
    decreases n,
{
    exists|m: Move| #[trigger]
        legal_moves(p).contains(m) && {
            let q = position_after(p, m);
            ||| status_of(q) == GameStatus::Won
            ||| n > 1 && status_of(q) == GameStatus::Ongoing && forall|r: Move| #[trigger]
                legal_moves(q).contains(r) ==> mate_forced(position_after(q, r), n - 1)
        }
}

/// The limits of a search for a mate: a depth, and no more than five million nodes.
pub open spec fn mate_limits(l: Limits, depth: int) -> bool {
    &&& l.depth matches Some(d) && d == depth
    &&& l.nodes == Some(5_000_000u64)
    &&& l.movetime is None
    &&& l.wtime is None
    &&& l.btime is None
}

/// The engine's move for a position at a depth is that of a search of its own, with an empty
/// table. It has no clock to run out.
pub open spec fn engine_found(p: PosView, depth: int, found: Option<Move>, c: Consulted<TT>) -> bool {
    &&& legal_choice(p, found)
    &&& c.before.thread_id == 0
    &&& c.before.net is None
    &&& c.before.policy is None
    &&& c.before.game_hist@.len() == 0
    &&& c.after.hard_ms == u128::MAX
    &&& exists|l: Limits| mate_limits(l, depth) && #[trigger] c.after.thought(&c.before, p, l, found)
}

/// The move the engine finds at a depth, with a fresh table of its own, and the search that found
/// it. At no depth there is none.
pub fn engine_move(board: &Position, depth: i32) -> (r: (Option<Move>, Ghost<Consulted<TT>>))
    requires
        wf(board@),
    ensures
        engine_found(board@, depth as int, r.0, r.1@),
        depth < 1 ==> r.0 is None,
        r.0 is None && depth >= 1 && legal_moves(board@).len() > 0 ==> r.1@.after.stopped || r.1@.after.last_score <= -INF,
{
    let mut s = Searcher::<TT>::new(16);
    let mut limits = Limits::default();
    limits.depth = Some(depth);
    limits.nodes = Some(5_000_000);
    let ghost before = s;
    let mv: Option<Move> = s.think(board, &limits);
    let ghost c = Consulted { before, after: s };
    assert(mate_limits(limits, depth as int));
    assert(c.after.thought(&c.before, board@, limits, mv));
    (mv, Ghost(c))
}

/// What a proof of mate went through: the move the engine found, its search, and what came of
/// the replies that were walked, in order.
pub struct Walk {
    pub found: Option<Move>,
    pub search: Consulted<TT>,
    pub replies: Seq<Walk>,
}

/// A move is proved to mate within `n` moves: it mates, or with a move to spare every reply was
/// walked and answered by a move that is proved to mate in one move less. No move does not mate,
/// nor does one that draws.
pub open spec fn proves(p: PosView, n: int, found: Option<Move>, replies: Seq<Walk>) -> bool
    decreases n,
{
    match found {
        None => false,
        Some(m) => {
            let q = position_after(p, m);
            match status_of(q) {
                GameStatus::Won => true,
                GameStatus::Drawn => false,
                GameStatus::Ongoing => n > 1 && replies.len() == legal_moves(q).len() && forall|k: int|
                    0 <= k < replies.len() ==> proves(
                        position_after(q, legal_moves(q)[k]),
                        n - 1,
                        (#[trigger] replies[k]).found,
                        replies[k].replies,
                    ),
            }
        },
    }
}

/// The replies to a move are walked in order, each with a move of the engine's, until one is not
/// proved to lose; none is where the move decides by itself or no move is to spare.
pub open spec fn walked_through(p: PosView, n: int, found: Option<Move>, replies: Seq<Walk>) -> bool
    decreases n,
{
    match found {
        None => replies.len() == 0,
        Some(m) => {
            let q = position_after(p, m);
            if status_of(q) == GameStatus::Ongoing && n > 1 {
                &&& replies.len() <= legal_moves(q).len()
                &&& forall|k: int|
                    0 <= k < replies.len() ==> {
                        let w = #[trigger] replies[k];
                        let b = position_after(q, legal_moves(q)[k]);
                        &&& engine_found(b, 2 * n, w.found, w.search)
                        &&& walked_through(b, n - 1, w.found, w.replies)
                        &&& k < replies.len() - 1 ==> proves(b, n - 1, w.found, w.replies)
                    }
                &&& replies.len() < legal_moves(q).len() ==> replies.len() > 0 && !proves(
                    position_after(q, legal_moves(q)[replies.len() - 1]),
                    n - 1,
                    replies.last().found,
                    replies.last().replies,
                )
            } else {
                replies.len() == 0
            }
        },
    }
}

/// What is proved so is so.
pub proof fn law_proved_mates_are_forced(p: PosView, n: int, found: Option<Move>, replies: Seq<Walk>)
    requires
        proves(p, n, found, replies),
        walked_through(p, n, found, replies),
        legal_choice(p, found),
    ensures
        mate_forced(p, n),
    decreases n,
{
    match found {
        Some(m) => {
            let q = position_after(p, m);
            assert(legal_moves(p).contains(m));
            if status_of(q) == GameStatus::Ongoing {
                assert forall|r: Move| #[trigger] legal_moves(q).contains(r) implies mate_forced(position_after(q, r), n - 1) by {
                    let k = choose|k: int| 0 <= k < legal_moves(q).len() && legal_moves(q)[k] == r;
                    let w = replies[k];
                    law_proved_mates_are_forced(position_after(q, r), n - 1, w.found, w.replies);
                }
            }
        },
        None => {},
    }
}

/// Proves that the engine mates within `n` moves: plays its move and walks every reply. The
/// engine's own claim counts for nothing.
pub fn verify_mate(board: &Position, n: i32) -> (r: (bool, Ghost<Walk>))
    requires
        wf(board@),
        -0x4000_0000 < n < 0x3fff_ffff,
    ensures
        engine_found(board@, 2 * n + 2, r.1@.found, r.1@.search),
        walked_through(board@, n as int, r.1@.found, r.1@.replies),
        r.0 == proves(board@, n as int, r.1@.found, r.1@.replies),
        r.0 ==> mate_forced(board@, n as int),
        n < 0 ==> !r.0,
    decreases n, 1int,
{
    let (mv, Ghost(search)) = engine_move(board, 2 * n + 2);
    let (r, Ghost(replies)) = mate_follows(board, n, mv);
    (r, Ghost(Walk { found: mv, search, replies }))
}

/// Whether a move of the engine's is proved to mate within `n` moves.
pub fn mate_follows(board: &Position, n: i32, found: Option<Move>) -> (r: (bool, Ghost<Seq<Walk>>))
    requires
        wf(board@),
        legal_choice(board@, found),
        -0x4000_0000 < n < 0x3fff_ffff,
    ensures
        walked_through(board@, n as int, found, r.1@),
        r.0 == proves(board@, n as int, found, r.1@),
        r.0 ==> mate_forced(board@, n as int),
    decreases n, 0int,
{
    let ghost mut replied: Seq<Walk> = Seq::empty();
    match found {
        Some(mv) => {
            let b: Position = board.play(mv);
            match b.status() {
                GameStatus::Won => {
                    return (true, Ghost(replied));
                },
                GameStatus::Drawn => {
                    return (false, Ghost(replied));
                },
                GameStatus::Ongoing => {},
            }
            if n <= 1 {
                return (false, Ghost(replied));
            }
            let replies = b.moves();
            let k: usize = replies.len();
            let mut i: usize = 0;
            while i < k
                invariant
                    i <= k,
                    k == replies@.len(),
                    replies@ == legal_moves(b@),
                    wf(b@),
                    1 < n < 0x3fff_ffff,
                    found == Some(mv),
                    b@ == position_after(board@, mv),
                    status_of(b@) == GameStatus::Ongoing,
                    replied.len() == i,
                    forall|j: int|
                        0 <= j < i ==> {
                            let w = #[trigger] replied[j];
                            let c = position_after(b@, replies@[j]);
                            &&& engine_found(c, 2 * n, w.found, w.search)
                            &&& walked_through(c, n - 1, w.found, w.replies)
                            &&& proves(c, n - 1, w.found, w.replies)
                        },
                decreases k - i,
            {
                assert(legal_moves(b@).contains(replies@[i as int]));
                let b2: Position = b.play(replies[i]);
                let (proved, Ghost(w)) = verify_mate(&b2, n - 1);
                proof {
                    replied = replied.push(w);
                }
                if !proved {
                    assert(replied[i as int] == w);
                    return (false, Ghost(replied));
                }
                i = i + 1;
            }
            proof {
                law_proved_mates_are_forced(board@, n as int, found, replied);
            }
            (true, Ghost(replied))
        },
        None => (false, Ghost(replied)),
    }
}

// ---------------- repertoire ----------------
/// Where a line in UCI notation leads from a position, if every move is legal.
pub open spec fn line_end(p: PosView, rest: Seq<Seq<char>>) -> Option<PosView>
    decreases rest.len(),
{
    if rest.len() == 0 {
        Some(p)
    } else {
        match uci_move(p, rest[0]) {
            Ok(m) => if legal_moves(p).contains(m) {
                line_end(position_after(p, m), rest.drop_first())
            } else {
                None
            },
            Err(_) => None,
        }
    }
}

/// Walks a line in UCI notation from the initial position.
pub fn walk_line(line: &str) -> (r: Option<Position>)
    ensures
        view_of(r) == line_end(start_view(), words_of(line@)),
        r matches Some(b) ==> wf(b@),
{
    let tokens = words(line);
    let n: usize = tokens.len();
    let ghost all = words_of(line@);
    let mut b: Position = Position::start();
    let mut i: usize = 0;
    assert(all.skip(0) =~= all);
    while i < n
        invariant
            i <= n,
            n == tokens@.len(),
            views(tokens@) == all,
            all == words_of(line@),
            wf(b@),
            line_end(b@, all.skip(i as int)) == line_end(start_view(), all),
        decreases n - i,
    {
        let word: String = text_of(&tokens[i]);
        assert(word@ == all[i as int]);
        assert(all.skip(i as int)[0] == all[i as int]);
        assert(all.skip(i as int).drop_first() =~= all.skip(i as int + 1));
        match b.parse_uci(word.as_str()) {
            Ok(m) => {
                if !b.is_legal(m) {
                    return None;
                }
                b = b.play(m);
            },
            Err(_) => {
                return None;
            },
        }
        i = i + 1;
    }
    assert(all.skip(n as int).len() == 0);
    Some(b)
}

/// What is asked of the repertoire.
pub struct BookCheck {
    /// What the initial position offers.
    pub start_moves: Vec<Move>,
    /// The knight does not go to g5 against the Philidor.
    pub locock_gone: bool,
    /// The Ruy Lopez is played.
    pub has_ruy: bool,
    /// The queen's pawn is met with a knight.
    pub has_kid: bool,
    pub ok: bool,
}

pub open spec fn plain_move(from: u8, to: u8) -> Move {
    Move { from, to, promotion: None }
}

/// Whether 64 probes after a line give a move, and the generator's state; no where the line is
/// not legal.
pub open spec fn reached_after(m: Map<u64, Seq<Move>>, line: Seq<char>, want: Move, seed: u64) -> (bool, u64) {
    match line_end(start_view(), words_of(line)) {
        Some(p) => reached(m, p.hash, want, 64, seed),
        None => (false, seed),
    }
}

fn reaches_after(book: &Book, line: &str, want: Move, seed: &mut u64) -> (r: bool)
    requires
        book.wf(),
    ensures
        (r, *final(seed)) == reached_after(book@, line@, want, *old(seed)),
{
    match walk_line(line) {
        Some(b) => book.reaches(b.hash(), want, 64, seed),
        None => false,
    }
}

/// Probes the repertoire: the initial position must offer the king's pawn and nothing else, so
/// that no line for black teaches white to open, and the lines that matter must be there.
pub fn check_book(book: &Book) -> (r: BookCheck)
    requires
        book.wf(),
    ensures
        ({
            let (moves, s1) = sampled(book@, start_view().hash, 64, 1, Seq::empty());
            let (locock, s2) = reached_after(book@, "e2e4 e7e5 g1f3 d7d6 d2d4 g8f6"@, plain_move(21, 38), s1);
            let (ruy, s3) = reached_after(book@, "e2e4 e7e5 g1f3 b8c6"@, plain_move(5, 33), s2);
            let (kid, _) = reached_after(book@, "d2d4"@, plain_move(62, 45), s3);
            &&& r.start_moves@ == moves
            &&& r.locock_gone == !locock
            &&& r.has_ruy == ruy
            &&& r.has_kid == kid
            &&& r.ok == (moves == seq![plain_move(12, 28)] && !locock && ruy && kid)
        }),
{
    let start: Position = Position::start();
    let mut seed: u64 = 1;
    let start_moves: Vec<Move> = book.sample(start.hash(), 64, &mut seed);
    let locock: bool = reaches_after(
        book,
        "e2e4 e7e5 g1f3 d7d6 d2d4 g8f6",
        Move { from: 21, to: 38, promotion: None },
        &mut seed,
    );
    let has_ruy: bool = reaches_after(book, "e2e4 e7e5 g1f3 b8c6", Move { from: 5, to: 33, promotion: None }, &mut seed);
    let has_kid: bool = reaches_after(book, "d2d4", Move { from: 62, to: 45, promotion: None }, &mut seed);
    let only: bool = start_moves.len() == 1 && start_moves[0] == (Move { from: 12, to: 28, promotion: None });
    assert(only == (start_moves@ == seq![plain_move(12, 28)])) by {
        if only {
            assert(start_moves@ =~= seq![plain_move(12, 28)]);
        }
    }
    BookCheck { start_moves, locock_gone: !locock, has_ruy, has_kid, ok: only && !locock && has_ruy && has_kid }
}

// ---------------- laws ----------------
/// A walk takes from 4 to 123 plies.
pub proof fn law_walks_have_a_length(drawn: u64)
    ensures
        4 <= walk_length(drawn) <= 123,
        drawn < 120 ==> walk_length(drawn) == drawn + 4,
{
}

/// A tally counts no more positions than the walk has plies or there is room for; those that may
/// castle or take en passant are among them.
pub proof fn law_tallies_fit_their_room(p: PosView, n: nat, room: nat, seed: u64)
    ensures
        ({
            let (a, b, c, _s) = walk_tally(p, n, room, seed);
            &&& 0 <= b <= a
            &&& 0 <= c <= a
            &&& a <= n
            &&& a <= room
        }),
    decreases n,
{
    if n != 0 && room != 0 && legal_moves(p).len() != 0 {
        law_tallies_fit_their_room(position_after(p, chosen(p, seed)), (n - 1) as nat, (room - 1) as nat, stepped(seed));
    }
}

/// A mate forced in so many moves is forced in any greater number.
pub proof fn law_forced_mates_stay_forced(p: PosView, n: int)
    requires
        n >= 1,
        mate_forced(p, n),
    ensures
        mate_forced(p, n + 1),
    decreases n,
{
    let m = choose|m: Move| #[trigger]
        legal_moves(p).contains(m) && {
            let q = position_after(p, m);
            ||| status_of(q) == GameStatus::Won
            ||| n > 1 && status_of(q) == GameStatus::Ongoing && forall|r: Move| #[trigger]
                legal_moves(q).contains(r) ==> mate_forced(position_after(q, r), n - 1)
        };
    let q = position_after(p, m);
    if status_of(q) != GameStatus::Won {
        assert forall|r: Move| #[trigger] legal_moves(q).contains(r) implies mate_forced(position_after(q, r), n) by {
            law_forced_mates_stay_forced(position_after(q, r), n - 1);
        }
    }
}

/// A pawn that steps aside onto an empty square takes en passant.
pub proof fn law_stepping_aside_is_en_passant(p: PosView, m: Move)
    requires
        accepted(p),
        legal_shape(p, m),
        steps_aside(p, m),
    ensures
        is_ep(p, m),
        taken_by(p, m) == Some(0u8),
{
    assert(p.men[m.from as int] is Some);
}

/// The special moves of a game are among its moves.
pub proof fn law_special_moves_are_moves(p: PosView, n: nat, seed: u64)
    ensures
        ({
            let (a, b, c, d, _s) = game_coverage(p, n, seed);
            &&& 0 <= b <= a
            &&& 0 <= c <= a
            &&& 0 <= d <= a
            &&& a <= n
        }),
    decreases n,
{
    if n != 0 && status_of(p) == GameStatus::Ongoing {
        law_special_moves_are_moves(position_after(p, chosen(p, seed)), (n - 1) as nat, stepped(seed));
    }
}

/// Many walks count no more positions than there is room for.
pub proof fn law_many_tallies_fit_their_room(walks: nat, room: nat, seed: u64)
    ensures
        ({
            let (a, b, c, _s) = walks_tally(walks, room, seed);
            &&& 0 <= b <= a
            &&& 0 <= c <= a
            &&& a <= room
            &&& a <= 123 * walks
        }),
    decreases walks,
{
    if walks != 0 && room != 0 {
        law_tallies_fit_their_room(start_view(), walk_length(stepped(seed)), room, stepped(seed));
        law_walks_have_a_length(stepped(seed));
        let first = walk_tally(start_view(), walk_length(stepped(seed)), room, stepped(seed));
        law_many_tallies_fit_their_room((walks - 1) as nat, (room - first.0) as nat, first.3);
    }
}

/// The special moves of many games are among their moves.
pub proof fn law_special_moves_of_many_games_are_moves(games: nat, plies: nat, seed: u64)
    ensures
        ({
            let (a, b, c, d, _s) = games_coverage(games, plies, seed);
            &&& 0 <= b <= a
            &&& 0 <= c <= a
            &&& 0 <= d <= a
            &&& a <= plies * games
        }),
    decreases games,
{
    if games == 0 {
        assert(plies * games == 0) by (nonlinear_arith)
            requires
                games == 0,
        ;
    } else {
        law_special_moves_are_moves(start_view(), plies, seed);
        let first = game_coverage(start_view(), plies, seed);
        law_special_moves_of_many_games_are_moves((games - 1) as nat, plies, first.4);
        assert(plies * games == plies * (games - 1) + plies) by (nonlinear_arith);
    }
}

} // verus!

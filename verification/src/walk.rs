//! Random walks over legal moves, and exhaustive ones.
use vstd::prelude::*;
use crate::board::{legal_moves, legal_shape, position_after, status_of, wf, GameStatus, Move, PosView, Position};

verus! {

/// The next state of the random number generator.
pub open spec fn stepped(seed: u64) -> u64 {
    let a = seed ^ (seed << 13);
    let b = a ^ (a >> 7);
    b ^ (b << 17)
}

/// Draws the next random number, a 64-bit xorshift.
pub fn draw(seed: &mut u64) -> (r: u64)
    ensures
        r == stepped(*old(seed)),
        *final(seed) == r,
{
    let s: u64 = *seed;
    let a: u64 = s ^ (s << 13);
    let b: u64 = a ^ (a >> 7);
    let c: u64 = b ^ (b << 17);
    *seed = c;
    c
}

/// Where a walk of `n` random legal moves leads, if it does not run out of moves, and the state
/// of the generator afterwards.
pub open spec fn walked(p: PosView, n: nat, seed: u64) -> (Option<PosView>, u64)
    decreases n,
{
    if n == 0 {
        (Some(p), seed)
    } else if legal_moves(p).len() == 0 {
        (None, seed)
    } else {
        let s = stepped(seed);
        walked(position_after(p, legal_moves(p)[s as int % legal_moves(p).len() as int]), (n - 1) as nat, s)
    }
}

pub open spec fn view_of(p: Option<Position>) -> Option<PosView> {
    match p {
        Some(x) => Some(x@),
        None => None,
    }
}

/// One move of a random walk.
pub fn random_move(board: &Position, seed: &mut u64) -> (r: Option<Move>)
    requires
        wf(board@),
    ensures
        r is None <==> legal_moves(board@).len() == 0,
        r is None ==> *final(seed) == *old(seed),
        r matches Some(m) ==> {
            &&& *final(seed) == stepped(*old(seed))
            &&& m == legal_moves(board@)[stepped(*old(seed)) as int % legal_moves(board@).len() as int]
            &&& legal_moves(board@).contains(m)
            &&& legal_shape(board@, m)
        },
{
    let moves = board.moves();
    let n: usize = moves.len();
    if n == 0 {
        return None;
    }
    let x: u64 = draw(seed);
    let i: usize = (x % n as u64) as usize;
    assert(legal_moves(board@).contains(moves@[i as int]));
    Some(moves[i])
}

/// A walk of random legal moves, unless it runs out of them.
pub fn random_walk(board: &Position, plies: usize, seed: &mut u64) -> (r: Option<Position>)
    requires
        wf(board@),
    ensures
        (view_of(r), *final(seed)) == walked(board@, plies as nat, *old(seed)),
        r matches Some(p) ==> wf(p@),
{
    let mut b: Position = board.clone();
    let mut left: usize = plies;
    while left > 0
        invariant
            left <= plies,
            wf(b@),
            walked(b@, left as nat, *seed) == walked(board@, plies as nat, *old(seed)),
        decreases left,
    {
        match random_move(&b, seed) {
            Some(mv) => {
                b = b.play(mv);
            },
            None => {
                return None;
            },
        }
        left = left - 1;
    }
    Some(b)
}

/// A random opening: a walk that ends in a game still going on.
pub fn random_opening(board: &Position, plies: usize, seed: &mut u64) -> (r: Option<Position>)
    requires
        wf(board@),
    ensures
        r matches Some(p) ==> wf(p@) && status_of(p@) == GameStatus::Ongoing,
        ({
            let (end, s) = walked(board@, plies as nat, *old(seed));
            &&& *final(seed) == s
            &&& view_of(r) == match end {
                Some(q) => if status_of(q) == GameStatus::Ongoing {
                    Some(q)
                } else {
                    None
                },
                None => None,
            }
        }),
{
    match random_walk(board, plies, seed) {
        Some(b) => match b.status() {
            GameStatus::Ongoing => Some(b),
            _ => None,
        },
        None => None,
    }
}

// ---------------- perft ----------------
/// How many lines of `depth` legal moves there are.
pub open spec fn line_count(p: PosView, depth: nat) -> nat
    decreases depth, 1nat, 0nat,
{
    if depth == 0 {
        1
    } else {
        lines_from(p, depth, legal_moves(p).len())
    }
}

/// How many of them begin with one of the first `n` moves.
pub open spec fn lines_from(p: PosView, depth: nat, n: nat) -> nat
    decreases depth, 0nat, n,
{
    if depth == 0 || n == 0 {
        0
    } else {
        lines_from(p, depth, (n - 1) as nat) + line_count(
            position_after(p, legal_moves(p)[n - 1]),
            (depth - 1) as nat,
        )
    }
}

/// With one move to go there is a line for each move.
proof fn lemma_last_ply(p: PosView, n: nat)
    ensures
        lines_from(p, 1, n) == n,
    decreases n,
{
    if n > 0 {
        lemma_last_ply(p, (n - 1) as nat);
        assert(line_count(position_after(p, legal_moves(p)[n - 1]), 0) == 1);
    }
}

/// Counts the lines of `depth` legal moves, modulo what 64 bits hold.
pub fn perft(board: &Position, depth: u32) -> (r: u64)
    requires
        wf(board@),
    ensures
        r == line_count(board@, depth as nat) % 0x1_0000_0000_0000_0000,
    decreases depth,
{
    if depth == 0 {
        return 1;
    }
    let moves = board.moves();
    let n: usize = moves.len();
    if depth == 1 {
        proof {
            lemma_last_ply(board@, n as nat);
        }
        return n as u64;
    }
    let mut nodes: u64 = 0;
    let mut i: usize = 0;
    while i < n
        invariant
            i <= n,
            n == moves@.len(),
            moves@ == legal_moves(board@),
            wf(board@),
            depth >= 2,
            nodes == lines_from(board@, depth as nat, i as nat) % 0x1_0000_0000_0000_0000,
        decreases n - i,
    {
        assert(legal_moves(board@).contains(moves@[i as int]));
        let b: Position = board.play(moves[i]);
        let sub: u64 = perft(&b, depth - 1);
        proof {
            vstd::arithmetic::div_mod::lemma_add_mod_noop(
                lines_from(board@, depth as nat, i as nat) as int,
                line_count(b@, (depth - 1) as nat) as int,
                0x1_0000_0000_0000_0000,
            );
        }
        nodes = nodes.wrapping_add(sub);
        i = i + 1;
    }
    nodes
}

// ---------------- laws ----------------
/// Different seeds step to different seeds, and no seed but nothing steps to nothing: the random
/// numbers never run dry and never fall into another sequence.
pub proof fn law_random_numbers_never_run_dry(a: u64, b: u64)
    ensures
        a != b ==> stepped(a) != stepped(b),
        stepped(0) == 0,
        a != 0 ==> stepped(a) != 0,
{
    lemma_steps_apart(a, b);
    lemma_nothing_steps_to_nothing();
    if a != 0 {
        lemma_steps_apart(a, 0);
    }
}

proof fn lemma_steps_apart(a: u64, b: u64)
    ensures
        a != b ==> stepped(a) != stepped(b),
{
    let (x, u) = (a ^ (a << 13), b ^ (b << 13));
    let (y, v) = (x ^ (x >> 7), u ^ (u >> 7));
    assert(a ^ (a << 13) == b ^ (b << 13) ==> a == b) by (bit_vector);
    assert(x ^ (x >> 7) == u ^ (u >> 7) ==> x == u) by (bit_vector);
    assert(y ^ (y << 17) == v ^ (v << 17) ==> y == v) by (bit_vector);
}

proof fn lemma_nothing_steps_to_nothing()
    ensures
        stepped(0) == 0,
{
    assert(0u64 ^ (0u64 << 13) == 0 && 0u64 ^ (0u64 >> 7) == 0 && 0u64 ^ (0u64 << 17) == 0) by (bit_vector);
}

/// A position has one line of no moves and as many of one move as legal moves; the lines of more moves
/// are those of each legal move, with one move less.
pub proof fn law_lines_branch_at_every_move(p: PosView, depth: nat)
    ensures
        line_count(p, 0) == 1,
        line_count(p, 1) == legal_moves(p).len(),
        depth >= 1 && legal_moves(p).len() == 0 ==> line_count(p, depth) == 0,
        depth >= 1 && legal_moves(p).len() == 1 ==> line_count(p, depth) == line_count(
            position_after(p, legal_moves(p)[0]),
            (depth - 1) as nat,
        ),
{
    lemma_single_moves(p, legal_moves(p).len());
    assert(lines_from(p, depth, 0) == 0);
    if depth >= 1 && legal_moves(p).len() == 1 {
        assert(lines_from(p, depth, 1) == lines_from(p, depth, 0) + line_count(
            position_after(p, legal_moves(p)[0]),
            (depth - 1) as nat,
        ));
    }
}

proof fn lemma_single_moves(p: PosView, n: nat)
    ensures
        lines_from(p, 1, n) == n,
    decreases n,
{
    if n > 0 {
        lemma_single_moves(p, (n - 1) as nat);
        assert(line_count(position_after(p, legal_moves(p)[n - 1]), 0) == 1);
    }
}

/// A walk makes a legal move for each number drawn: one of so many plies ends where a shorter one and
/// the rest of the way end.
pub proof fn law_walks_are_made_of_steps(p: PosView, n: nat, seed: u64)
    requires
        n >= 1,
        legal_moves(p).len() > 0,
    ensures
        ({
            let m = legal_moves(p)[stepped(seed) as int % legal_moves(p).len() as int];
            &&& legal_moves(p).contains(m)
            &&& walked(p, n, seed) == walked(position_after(p, m), (n - 1) as nat, stepped(seed))
            &&& walked(p, 1, seed) == (Some(position_after(p, m)), stepped(seed))
            &&& walked(p, 0, seed) == (Some(p), seed)
        }),
{
    let k = stepped(seed) as int % legal_moves(p).len() as int;
    assert(0 <= k < legal_moves(p).len());
    let m = legal_moves(p)[k];
    assert(legal_moves(p).contains(m));
    assert(walked(position_after(p, m), 0, stepped(seed)) == (Some(position_after(p, m)), stepped(seed)));
}

} // verus!

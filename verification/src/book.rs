//! The opening repertoire: the moves of each line by position, one picked at random where lines
//! part. A line's marker says whose moves it teaches: `w` white's, `b` black's, `*` both, so that
//! a line can show how to meet an opening without showing how to play it.
use vstd::prelude::*;
use std::collections::HashMap;
use vstd::std_specs::hash::group_hash_axioms;
use crate::board::{legal_moves, position_after, start_view, wf, Move, PosView, Position, BLACK, WHITE};
use crate::notation::uci_move;
use crate::text::{append, text_of, views, words, words_of};
use crate::walk::{draw, stepped};

verus! {

broadcast use group_hash_axioms;

/// The repertoire.
pub const LINES: [(char, &'static str); 20] = [
    // Philidor Defence, exchange
    ('*', "e2e4 e7e5 g1f3 d7d6 d2d4 e5d4 f3d4 g8f6 b1c3 f8e7"),
    // Philidor Defence, Nimzovich with the knight on c3
    ('*', "e2e4 e7e5 g1f3 d7d6 d2d4 g8f6 b1c3 b8d7"),
    // Hyperaccelerated Dragon
    ('*', "e2e4 c7c5 g1f3 g7g6 d2d4 c5d4 f3d4 b8c6 b1c3 f8g7"),
    // Ruy Lopez, closed, ninth move h3
    ('*', "e2e4 e7e5 g1f3 b8c6 f1b5 a7a6 b5a4 g8f6 e1g1 f8e7 f1e1 b7b5 a4b3 d7d6 c2c3 e8g8 h2h3"),
    // Ruy Lopez, closed, castling first, against the Marshall
    ('*', "e2e4 e7e5 g1f3 b8c6 f1b5 a7a6 b5a4 g8f6 e1g1 f8e7 f1e1 b7b5 a4b3 e8g8 a2a4"),
    // Ruy Lopez, Berlin endgame
    ('*', "e2e4 e7e5 g1f3 b8c6 f1b5 g8f6 e1g1 f6e4 d2d4 e4d6 b5c6 d7c6 d4e5 d6f5 d1d8 e8d8"),
    // Ruy Lopez, open
    ('*', "e2e4 e7e5 g1f3 b8c6 f1b5 a7a6 b5a4 g8f6 e1g1 f6e4 d2d4 b7b5 a4b3 d7d5 d4e5 c8e6"),
    // Ruy Lopez, Steinitz deferred
    ('*', "e2e4 e7e5 g1f3 b8c6 f1b5 a7a6 b5a4 d7d6 c2c3"),
    // Ruy Lopez, Neo-Arkhangelsk
    ('*', "e2e4 e7e5 g1f3 b8c6 f1b5 a7a6 b5a4 g8f6 e1g1 b7b5 a4b3 f8c5 c2c3"),
    // Ruy Lopez, Schliemann
    ('*', "e2e4 e7e5 g1f3 b8c6 f1b5 f7f5 b1c3"),
    // Ruy Lopez, Bird's defence
    ('*', "e2e4 e7e5 g1f3 b8c6 f1b5 c6d4 f3d4 e5d4 e1g1"),
    // Ruy Lopez, classical
    ('*', "e2e4 e7e5 g1f3 b8c6 f1b5 f8c5 c2c3 g8f6 d2d4"),
    // King's Indian, Mar del Plata
    ('b', "d2d4 g8f6 c2c4 g7g6 b1c3 f8g7 e2e4 d7d6 g1f3 e8g8 f1e2 e7e5 e1g1 b8c6 d4d5 c6e7"),
    // King's Indian, Saemisch
    ('b', "d2d4 g8f6 c2c4 g7g6 b1c3 f8g7 e2e4 d7d6 f2f3 e8g8 c1e3 e7e5"),
    // King's Indian, four pawns attack
    ('b', "d2d4 g8f6 c2c4 g7g6 b1c3 f8g7 e2e4 d7d6 f2f4 e8g8 g1f3 c7c5"),
    // King's Indian, Averbakh
    ('b', "d2d4 g8f6 c2c4 g7g6 b1c3 f8g7 e2e4 d7d6 f1e2 e8g8 c1g5 b8a6"),
    // King's Indian, fianchetto, knight first
    ('b', "d2d4 g8f6 c2c4 g7g6 g1f3 f8g7 g2g3 e8g8 f1g2 d7d6 e1g1 b8d7"),
    // King's Indian, fianchetto, pawn first
    ('b', "d2d4 g8f6 c2c4 g7g6 g2g3 f8g7 f1g2 e8g8 b1c3 d7d6 g1f3 b8d7"),
    // King's Indian setup against the London
    ('b', "d2d4 g8f6 g1f3 g7g6 c1f4 f8g7 e2e3 d7d6"),
    // Trompowsky
    ('b', "d2d4 g8f6 c1g5 f6e4 g5f4 d7d5"),
];

/// The moves of each position, in the order the lines give them.
pub open spec fn shelf_of(m: Map<u64, Vec<Move>>) -> Map<u64, Seq<Move>> {
    m.map_values(|v: Vec<Move>| v@)
}

pub open spec fn moves_at(m: Map<u64, Seq<Move>>, hash: u64) -> Seq<Move> {
    if m.contains_key(hash) {
        m[hash]
    } else {
        Seq::empty()
    }
}

/// The book with one more move, which no position has twice.
pub open spec fn with_move(m: Map<u64, Seq<Move>>, hash: u64, mv: Move) -> Map<u64, Seq<Move>> {
    if moves_at(m, hash).contains(mv) {
        m
    } else {
        m.insert(hash, moves_at(m, hash).push(mv))
    }
}

/// Whether a line teaches the moves of a side; no answer for a marker that means nothing.
pub open spec fn covers(marker: char, side: u8) -> Option<bool> {
    if marker == '*' {
        Some(true)
    } else if marker == 'w' {
        Some(side == WHITE)
    } else if marker == 'b' {
        Some(side == BLACK)
    } else {
        None
    }
}

pub open spec fn bad_move(line: Seq<char>, word: Seq<char>, why: Seq<char>) -> Seq<char> {
    "book line '"@ + line + "': move "@ + word + ": "@ + why
}

pub open spec fn bad_marker(marker: char) -> Seq<char> {
    "bad side marker '"@ + seq![marker] + "'"@
}

/// The book after the rest of a line, or what is wrong with the line.
pub open spec fn line_book(
    m: Map<u64, Seq<Move>>,
    p: PosView,
    marker: char,
    line: Seq<char>,
    rest: Seq<Seq<char>>,
) -> Result<Map<u64, Seq<Move>>, Seq<char>>
    decreases rest.len(),
{
    if rest.len() == 0 {
        Ok(m)
    } else {
        match uci_move(p, rest[0]) {
            Err(e) => Err(bad_move(line, rest[0], e)),
            Ok(mv) => match covers(marker, p.side) {
                None => Err(bad_marker(marker)),
                Some(taught) => if legal_moves(p).contains(mv) {
                    line_book(
                        if taught {
                            with_move(m, p.hash, mv)
                        } else {
                            m
                        },
                        position_after(p, mv),
                        marker,
                        line,
                        rest.drop_first(),
                    )
                } else {
                    Err(bad_move(line, rest[0], "illegal"@))
                },
            },
        }
    }
}

/// The book of the first `n` lines, or what is wrong with the first line that has something
/// wrong.
pub open spec fn book_of(lines: Seq<(char, &'static str)>, n: nat) -> Result<Map<u64, Seq<Move>>, Seq<char>>
    decreases n,
{
    if n == 0 {
        Ok(Map::empty())
    } else {
        match book_of(lines, (n - 1) as nat) {
            Err(e) => Err(e),
            Ok(m) => match lines[n - 1] {
                (marker, line) => line_book(m, start_view(), marker, line@, words_of(line@)),
            },
        }
    }
}

pub struct Book {
    map: HashMap<u64, Vec<Move>>,
}

impl View for Book {
    type V = Map<u64, Seq<Move>>;

    closed spec fn view(&self) -> Map<u64, Seq<Move>> {
        shelf_of(self.map@)
    }
}

/// A move that stays on the board and promotes to a piece if at all.
pub open spec fn on_board(m: Move) -> bool {
    m.from < 64 && m.to < 64 && (m.promotion matches Some(q) ==> q < 6)
}

/// Every position that is in the book has a move, and its moves stay on the board.
pub open spec fn stocked(m: Map<u64, Seq<Move>>) -> bool {
    &&& forall|h: u64| #[trigger] m.contains_key(h) ==> m[h].len() > 0
    &&& forall|h: u64, k: int| m.contains_key(h) && 0 <= k < m[h].len() ==> on_board(#[trigger] m[h][k])
}

/// Whether a list holds a move.
fn holds(v: &Vec<Move>, mv: Move) -> (r: bool)
    ensures
        r == v@.contains(mv),
{
    let n: usize = v.len();
    let mut i: usize = 0;
    while i < n
        invariant
            i <= n,
            n == v@.len(),
            forall|k: int| 0 <= k < i ==> v@[k] != mv,
        decreases n - i,
    {
        if v[i] == mv {
            return true;
        }
        i = i + 1;
    }
    false
}

/// Puts a move in the book.
fn register(map: &mut HashMap<u64, Vec<Move>>, hash: u64, mv: Move)
    requires
        on_board(mv),
    ensures
        shelf_of(final(map)@) == with_move(shelf_of(old(map)@), hash, mv),
        stocked(shelf_of(old(map)@)) ==> stocked(shelf_of(final(map)@)),
{
    let ghost before = map@;
    let mut list: Vec<Move> = match map.remove(&hash) {
        Some(v) => v,
        None => Vec::new(),
    };
    let ghost had = list@;
    assert(had == moves_at(shelf_of(before), hash));
    if !holds(&list, mv) {
        list.push(mv);
    }
    let _ = map.insert(hash, list);
    assert(shelf_of(map@) =~= with_move(shelf_of(before), hash, mv));
}

/// What is wrong with a move of a line.
fn bad_move_string(line: &str, word: &str, why: &str) -> (r: String)
    ensures
        r@ == bad_move(line@, word@, why@),
{
    let mut e = String::new();
    append(&mut e, "book line '");
    append(&mut e, line);
    append(&mut e, "': move ");
    append(&mut e, word);
    append(&mut e, ": ");
    append(&mut e, why);
    e
}

/// Walks a line from the initial position and puts its moves in the book.
fn load_line(map: &mut HashMap<u64, Vec<Move>>, marker: char, line: &str) -> (r: Result<(), String>)
    requires
        stocked(shelf_of(old(map)@)),
    ensures
        match r {
            Ok(_) => line_book(shelf_of(old(map)@), start_view(), marker, line@, words_of(line@)) == Ok::<
                Map<u64, Seq<Move>>,
                Seq<char>,
            >(shelf_of(final(map)@)) && stocked(shelf_of(final(map)@)),
            Err(e) => line_book(shelf_of(old(map)@), start_view(), marker, line@, words_of(line@)) == Err::<
                Map<u64, Seq<Move>>,
                Seq<char>,
            >(e@),
        },
{
    let tokens = words(line);
    let n: usize = tokens.len();
    let ghost all = words_of(line@);
    let mut b: Position = Position::start();
    let mut i: usize = 0;
    assert(all.skip(0) =~= all);
    while i < n
        invariant
            i <= n,
            n == tokens@.len(),
            views(tokens@) == all,
            all == words_of(line@),
            wf(b@),
            stocked(shelf_of(map@)),
            line_book(shelf_of(map@), b@, marker, line@, all.skip(i as int)) == line_book(
                shelf_of(old(map)@),
                start_view(),
                marker,
                line@,
                all,
            ),
        decreases n - i,
    {
        let word: String = text_of(&tokens[i]);
        assert(word@ == all[i as int]);
        assert(all.skip(i as int)[0] == all[i as int]);
        assert(all.skip(i as int).drop_first() =~= all.skip(i as int + 1));
        let mv: Move = match b.parse_uci(word.as_str()) {
            Ok(m) => m,
            Err(e) => {
                return Err(bad_move_string(line, word.as_str(), e.as_str()));
            },
        };
        let taught: bool = if marker == '*' {
            true
        } else if marker == 'w' {
            b.side_to_move() == WHITE
        } else if marker == 'b' {
            b.side_to_move() == BLACK
        } else {
            let mut e = String::new();
            append(&mut e, "bad side marker '");
            e.push(marker);
            append(&mut e, "'");
            assert(e@ =~= bad_marker(marker));
            return Err(e);
        };
        if !b.is_legal(mv) {
            return Err(bad_move_string(line, word.as_str(), "illegal"));
        }
        if taught {
            register(map, b.hash(), mv);
        }
        b = b.play(mv);
        i = i + 1;
    }
    assert(all.skip(n as int).len() == 0);
    Ok(())
}

/// Where `n` probes of a position lead: the moves they give without repetition, and the state of
/// the generator.
pub open spec fn sampled(m: Map<u64, Seq<Move>>, hash: u64, n: nat, seed: u64, seen: Seq<Move>) -> (Seq<Move>, u64)
    decreases n,
{
    if n == 0 || !m.contains_key(hash) {
        (seen, seed)
    } else {
        let s = stepped(seed);
        let mv = m[hash][s as int % m[hash].len() as int];
        sampled(
            m,
            hash,
            (n - 1) as nat,
            s,
            if seen.contains(mv) {
                seen
            } else {
                seen.push(mv)
            },
        )
    }
}

/// Whether one of `n` probes of a position gives a move, and the state of the generator after the
/// last one that was needed.
pub open spec fn reached(m: Map<u64, Seq<Move>>, hash: u64, want: Move, n: nat, seed: u64) -> (bool, u64)
    decreases n,
{
    if n == 0 || !m.contains_key(hash) {
        (false, seed)
    } else {
        let s = stepped(seed);
        if m[hash][s as int % m[hash].len() as int] == want {
            (true, s)
        } else {
            reached(m, hash, want, (n - 1) as nat, s)
        }
    }
}

impl Book {
    pub open spec fn wf(&self) -> bool {
        stocked(self@)
    }

    /// Walks every line of the repertoire from the initial position. A move that cannot be read
    /// or is illegal, or a marker without meaning, is an error that names its line.
    pub fn load() -> (r: Result<Book, String>)
        ensures
            match r {
                Ok(b) => b.wf() && book_of(LINES@, LINES@.len()) == Ok::<Map<u64, Seq<Move>>, Seq<char>>(b@),
                Err(e) => book_of(LINES@, LINES@.len()) == Err::<Map<u64, Seq<Move>>, Seq<char>>(e@),
            },
    {
        let mut map: HashMap<u64, Vec<Move>> = HashMap::new();
        let mut i: usize = 0;
        assert(shelf_of(map@) =~= Map::empty());
        while i < 20
            invariant
                i <= 20,
                LINES@.len() == 20,
                stocked(shelf_of(map@)),
                book_of(LINES@, i as nat) == Ok::<Map<u64, Seq<Move>>, Seq<char>>(shelf_of(map@)),
            decreases 20 - i,
        {
            let (marker, line): (char, &'static str) = LINES[i];
            match load_line(&mut map, marker, line) {
                Ok(_) => {},
                Err(e) => {
                    proof {
                        lemma_error_stays(LINES@, i as nat + 1, 20);
                    }
                    return Err(e);
                },
            }
            i = i + 1;
        }
        Ok(Book { map })
    }

    /// How many positions the book knows.
    pub fn positions(&self) -> (r: usize)
        ensures
            r == self@.dom().len(),
    {
        assert(self@.dom() =~= self.map@.dom());
        self.map.len()
    }

    /// A move for a position, drawn among those its lines give.
    pub fn probe(&self, hash: u64, seed: &mut u64) -> (r: Option<Move>)
        requires
            self.wf(),
        ensures
            match r {
                Some(mv) => {
                    &&& self@.contains_key(hash)
                    &&& *final(seed) == stepped(*old(seed))
                    &&& mv == self@[hash][stepped(*old(seed)) as int % self@[hash].len() as int]
                    &&& on_board(mv)
                },
                None => !self@.contains_key(hash) && *final(seed) == *old(seed),
            },
    {
        match self.map.get(&hash) {
            Some(choices) => {
                assert(choices@ == self@[hash]);
                assert(self@.contains_key(hash));
                let n: usize = choices.len();
                let x: u64 = draw(seed);
                Some(choices[(x % n as u64) as usize])
            },
            None => None,
        }
    }

    /// The moves that `n` probes of a position give, without repetition.
    pub fn sample(&self, hash: u64, n: u32, seed: &mut u64) -> (r: Vec<Move>)
        requires
            self.wf(),
        ensures
            (r@, *final(seed)) == sampled(self@, hash, n as nat, *old(seed), Seq::empty()),
    {
        let mut seen: Vec<Move> = Vec::new();
        let mut left: u32 = n;
        while left > 0
            invariant
                left <= n,
                self.wf(),
                sampled(self@, hash, left as nat, *seed, seen@) == sampled(
                    self@,
                    hash,
                    n as nat,
                    *old(seed),
                    Seq::empty(),
                ),
            decreases left,
        {
            match self.probe(hash, seed) {
                Some(mv) => {
                    if !holds(&seen, mv) {
                        seen.push(mv);
                    }
                },
                None => {},
            }
            left = left - 1;
        }
        seen
    }

    /// Whether one of `n` probes of a position gives a move.
    pub fn reaches(&self, hash: u64, want: Move, n: u32, seed: &mut u64) -> (r: bool)
        requires
            self.wf(),
        ensures
            (r, *final(seed)) == reached(self@, hash, want, n as nat, *old(seed)),
    {
        let mut left: u32 = n;
        while left > 0
            invariant
                left <= n,
                self.wf(),
                reached(self@, hash, want, left as nat, *seed) == reached(self@, hash, want, n as nat, *old(seed)),
            decreases left,
        {
            match self.probe(hash, seed) {
                Some(mv) => {
                    if mv == want {
                        return true;
                    }
                },
                None => {},
            }
            left = left - 1;
        }
        false
    }
}

/// A book with something wrong does not get better with more lines.
proof fn lemma_error_stays(lines: Seq<(char, &'static str)>, n: nat, m: nat)
    requires
        n <= m,
        book_of(lines, n) is Err,
    ensures
        book_of(lines, m) == book_of(lines, n),
    decreases m,
{
    if n < m {
        lemma_error_stays(lines, n, (m - 1) as nat);
    }
}

// ---------------- what holds of the book ----------------
/// Every move of the book is legal in a position it is listed for.
pub open spec fn backed(m: Map<u64, Seq<Move>>) -> bool {
    forall|h: u64, mv: Move| #[trigger]
        moves_at(m, h).contains(mv) ==> exists|p: PosView| p.hash == h && #[trigger] legal_moves(p).contains(mv)
}

/// No position lists a move twice.
pub open spec fn distinct(m: Map<u64, Seq<Move>>) -> bool {
    forall|h: u64| (#[trigger] moves_at(m, h)).no_duplicates()
}

proof fn lemma_line_keeps(m: Map<u64, Seq<Move>>, p: PosView, marker: char, line: Seq<char>, rest: Seq<Seq<char>>)
    requires
        backed(m),
        distinct(m),
        line_book(m, p, marker, line, rest) is Ok,
    ensures
        backed(line_book(m, p, marker, line, rest)->Ok_0),
        distinct(line_book(m, p, marker, line, rest)->Ok_0),
    decreases rest.len(),
{
    if rest.len() > 0 {
        let mv = uci_move(p, rest[0])->Ok_0;
        let next = if covers(marker, p.side)->0 {
            with_move(m, p.hash, mv)
        } else {
            m
        };
        assert forall|h: u64, x: Move| #[trigger] moves_at(next, h).contains(x) implies exists|q: PosView|
            q.hash == h && #[trigger] legal_moves(q).contains(x) by {
            if moves_at(m, h).contains(x) {
            } else {
                assert(h == p.hash);
                let k = choose|k: int| 0 <= k < moves_at(next, h).len() && moves_at(next, h)[k] == x;
                assert(moves_at(next, h) == moves_at(m, h).push(mv));
                if k < moves_at(m, h).len() {
                    assert(moves_at(m, h)[k] == x);
                }
                assert(x == mv);
                assert(legal_moves(p).contains(x));
            }
        }
        assert forall|h: u64| (#[trigger] moves_at(next, h)).no_duplicates() by {
            assert(moves_at(m, h).no_duplicates());
            if h == p.hash && next != m {
                assert(moves_at(next, h) == moves_at(m, h).push(mv));
            }
        }
        lemma_line_keeps(next, position_after(p, mv), marker, line, rest.drop_first());
    }
}

/// A book that loads lists only legal moves, and none twice for a position.
pub proof fn law_book_moves_are_legal(lines: Seq<(char, &'static str)>, n: nat)
    requires
        book_of(lines, n) is Ok,
    ensures
        backed(book_of(lines, n)->Ok_0),
        distinct(book_of(lines, n)->Ok_0),
    decreases n,
{
    if n > 0 {
        law_book_moves_are_legal(lines, (n - 1) as nat);
        let (marker, line) = lines[n - 1];
        lemma_line_keeps(book_of(lines, (n - 1) as nat)->Ok_0, start_view(), marker, line@, words_of(line@));
    }
}

// ---------------- laws ----------------
/// A move is taught once: after it is taught the position has it, has lost nothing, and no other
/// position has changed.
pub proof fn law_teaching_adds_one_move(m: Map<u64, Seq<Move>>, hash: u64, mv: Move, other: u64)
    ensures
        moves_at(with_move(m, hash, mv), hash).contains(mv),
        other != hash ==> moves_at(with_move(m, hash, mv), other) == moves_at(m, other),
        with_move(with_move(m, hash, mv), hash, mv) == with_move(m, hash, mv),
        moves_at(m, hash).len() <= moves_at(with_move(m, hash, mv), hash).len() <= moves_at(m, hash).len() + 1,
        forall|k: int| 0 <= k < moves_at(m, hash).len() ==> moves_at(with_move(m, hash, mv), hash)[k] == #[trigger] moves_at(m, hash)[k],
{
    let v = moves_at(m, hash);
    if !v.contains(mv) {
        assert(v.push(mv)[v.len() as int] == mv);
        assert(v.push(mv).contains(mv));
    }
}

/// A line marked for both sides teaches both, and one marked for a side teaches it alone.
pub proof fn law_markers_choose_the_side(marker: char, side: u8)
    requires
        side < 2,
    ensures
        covers('*', side) == Some(true),
        covers('w', 0) == Some(true) && covers('w', 1) == Some(false),
        covers('b', 0) == Some(false) && covers('b', 1) == Some(true),
        covers(marker, side) is None <==> marker != '*' && marker != 'w' && marker != 'b',
{
}

/// What is sampled is among the book's moves; a sample keeps what it has and never holds a move
/// twice; outside the book nothing is drawn.
pub proof fn law_samples_come_from_the_book(m: Map<u64, Seq<Move>>, hash: u64, n: nat, seed: u64, seen: Seq<Move>)
    requires
        m.contains_key(hash) ==> m[hash].len() > 0,
        seen.no_duplicates(),
        forall|x: Move| #[trigger] seen.contains(x) ==> moves_at(m, hash).contains(x),
    ensures
        ({
            let r = sampled(m, hash, n, seed, seen).0;
            &&& r.no_duplicates()
            &&& forall|x: Move| #[trigger] r.contains(x) ==> moves_at(m, hash).contains(x)
            &&& r.len() >= seen.len()
            &&& n > 0 && m.contains_key(hash) ==> r.len() >= 1
            &&& !m.contains_key(hash) ==> sampled(m, hash, n, seed, seen) == (seen, seed)
        }),
    decreases n,
{
    if n > 0 && m.contains_key(hash) {
        let s = stepped(seed);
        let k = s as int % m[hash].len() as int;
        assert(0 <= k < m[hash].len());
        let mv = m[hash][k];
        assert(moves_at(m, hash).contains(mv));
        let next = if seen.contains(mv) {
            seen
        } else {
            seen.push(mv)
        };
        assert forall|x: Move| #[trigger] next.contains(x) implies moves_at(m, hash).contains(x) by {
            let j = choose|j: int| 0 <= j < next.len() && next[j] == x;
            if j < seen.len() {
                assert(seen.contains(x)) by {
                    assert(seen[j] == x);
                }
            }
        }
        assert(next.no_duplicates());
        assert(next.len() >= 1) by {
            if seen.contains(mv) {
                let j = choose|j: int| 0 <= j < seen.len() && seen[j] == mv;
            }
        }
        law_samples_come_from_the_book(m, hash, (n - 1) as nat, s, next);
    }
}

/// A move is reached only where the book has it.
pub proof fn law_only_book_moves_are_reached(m: Map<u64, Seq<Move>>, hash: u64, want: Move, n: nat, seed: u64)
    requires
        m.contains_key(hash) ==> m[hash].len() > 0,
    ensures
        reached(m, hash, want, n, seed).0 ==> moves_at(m, hash).contains(want),
        m.contains_key(hash) && n > 0 && m[hash].len() == 1 && m[hash][0] == want ==> reached(m, hash, want, n, seed).0,
    decreases n,
{
    if n > 0 && m.contains_key(hash) {
        law_only_book_moves_are_reached(m, hash, want, (n - 1) as nat, stepped(seed));
        let k = stepped(seed) as int % m[hash].len() as int;
        assert(0 <= k < m[hash].len());
        assert(moves_at(m, hash).contains(m[hash][k]));
    }
}

} // verus!

//! The text of a position: Forsyth-Edwards notation.
use vstd::prelude::*;
use crate::board::WHITE;

verus! {

/// Men, side to move and en passant file that a FEN can describe.
pub open spec fn fen_input(men: Seq<Option<(u8, u8)>>, side: u8, ep: Option<u8>) -> bool {
    &&& men.len() == 64
    &&& forall|s: int| 0 <= s < 64 ==> (#[trigger] men[s] matches Some(man) ==> man.0 < 6 && man.1 < 2)
    &&& side < 2
    &&& ep matches Some(f) ==> f < 8
}

/// The castling rights of a king and two rooks at home, from bits for white short, white long,
/// black short and black long.
pub open spec fn castles_of(rights: u8) -> Seq<(Option<u8>, Option<u8>)> {
    seq![
        (
            if rights & 1 != 0 { Some(7u8) } else { None },
            if rights & 2 != 0 { Some(0u8) } else { None },
        ),
        (
            if rights & 4 != 0 { Some(7u8) } else { None },
            if rights & 8 != 0 { Some(0u8) } else { None },
        ),
    ]
}

/// The letter of a man: capital for white.
pub open spec fn man_letter(man: (u8, u8)) -> char {
    let p = man.0;
    if man.1 == WHITE {
        if p == 0 { 'P' } else if p == 1 { 'N' } else if p == 2 { 'B' } else if p == 3 { 'R' }
        else if p == 4 { 'Q' } else { 'K' }
    } else {
        if p == 0 { 'p' } else if p == 1 { 'n' } else if p == 2 { 'b' } else if p == 3 { 'r' }
        else if p == 4 { 'q' } else { 'k' }
    }
}

/// A run of empty squares: nothing, or how many.
pub open spec fn empty_run(n: int) -> Seq<char> {
    if n == 0 {
        Seq::empty()
    } else {
        seq![('0' as u8 + n) as char]
    }
}

/// A rank's text from file `f` on, after `n` empty squares.
pub open spec fn rank_text(men: Seq<Option<(u8, u8)>>, rank: int, f: int, n: int) -> Seq<char>
    decreases 8 - f,
{
    if f >= 8 {
        empty_run(n)
    } else {
        match men[8 * rank + f] {
            None => rank_text(men, rank, f + 1, n + 1),
            Some(man) => empty_run(n) + seq![man_letter(man)] + rank_text(men, rank, f + 1, 0),
        }
    }
}

/// The ranks from `rank` down to the first.
pub open spec fn placement_text(men: Seq<Option<(u8, u8)>>, rank: int) -> Seq<char>
    decreases rank,
{
    if rank <= 0 {
        rank_text(men, 0, 0, 0)
    } else {
        rank_text(men, rank, 0, 0) + seq!['/'] + placement_text(men, rank - 1)
    }
}

/// The castling rights in letters: capital for white, short before long.
pub open spec fn castle_letters(castles: Seq<(Option<u8>, Option<u8>)>) -> Seq<char> {
    let t = (if right_at(castles, 0, true) { seq!['K'] } else { Seq::empty() })
        + (if right_at(castles, 0, false) { seq!['Q'] } else { Seq::empty() })
        + (if right_at(castles, 1, true) { seq!['k'] } else { Seq::empty() })
        + (if right_at(castles, 1, false) { seq!['q'] } else { Seq::empty() });
    if t.len() == 0 {
        seq!['-']
    } else {
        t
    }
}

/// Whether side `c` may castle short, or long.
pub open spec fn right_at(castles: Seq<(Option<u8>, Option<u8>)>, c: int, short: bool) -> bool {
    match castles[c] {
        (s, l) => if short {
            s is Some
        } else {
            l is Some
        },
    }
}

pub open spec fn castle_text(rights: u8) -> Seq<char> {
    let t = (if rights & 1 != 0 { seq!['K'] } else { Seq::empty() })
        + (if rights & 2 != 0 { seq!['Q'] } else { Seq::empty() })
        + (if rights & 4 != 0 { seq!['k'] } else { Seq::empty() })
        + (if rights & 8 != 0 { seq!['q'] } else { Seq::empty() });
    if t.len() == 0 {
        seq!['-']
    } else {
        t
    }
}

pub open spec fn ep_text(side: u8, ep: Option<u8>) -> Seq<char> {
    match ep {
        None => seq!['-'],
        Some(f) => seq![('a' as u8 + f) as char, if side == WHITE { '6' } else { '3' }],
    }
}

/// The FEN of a position whose counters have just started.
pub open spec fn fen_text(men: Seq<Option<(u8, u8)>>, side: u8, rights: u8, ep: Option<u8>) -> Seq<char> {
    placement_text(men, 7) + seq![' ', if side == WHITE { 'w' } else { 'b' }, ' '] + castle_text(rights)
        + seq![' '] + ep_text(side, ep) + seq![' ', '0', ' ', '1']
}

// ---------------- laws ----------------
/// Every man has a letter of its own: capitals are White's, and a side's letters are the other's in
/// the other case.
pub proof fn law_letters_tell_men_apart(a: (u8, u8), b: (u8, u8))
    requires
        a.0 < 6,
        a.1 < 2,
        b.0 < 6,
        b.1 < 2,
    ensures
        man_letter(a) == man_letter(b) ==> a == b,
        a.1 == 0 <==> 'A' <= man_letter(a) <= 'Z',
        man_letter((a.0, 1)) as u32 == man_letter((a.0, 0)) as u32 + 32,
{
}

/// How many squares a rank's text stands for: a digit for so many, a letter for one.
pub open spec fn squares_told(s: Seq<char>) -> int
    decreases s.len(),
{
    if s.len() == 0 {
        0
    } else {
        squares_told(s.drop_last()) + if '1' <= s.last() <= '8' {
            s.last() as int - '0' as int
        } else {
            1
        }
    }
}

proof fn lemma_squares_told(a: Seq<char>, b: Seq<char>)
    ensures
        squares_told(a + b) == squares_told(a) + squares_told(b),
    decreases b.len(),
{
    if b.len() == 0 {
        assert(a + b =~= a);
    } else {
        lemma_squares_told(a, b.drop_last());
        assert((a + b).drop_last() =~= a + b.drop_last());
        assert((a + b).last() == b.last());
    }
}

proof fn lemma_one_told(c: char)
    ensures
        squares_told(seq![c]) == if '1' <= c <= '8' {
            c as int - '0' as int
        } else {
            1
        },
{
    reveal_with_fuel(squares_told, 2);
    assert(seq![c].drop_last() =~= Seq::<char>::empty());
    assert(seq![c].last() == c);
}

/// The text of a rank stands for eight squares.
pub proof fn law_rank_text_tells_eight_squares(men: Seq<Option<(u8, u8)>>, rank: int, f: int, n: int)
    requires
        0 <= f <= 8,
        0 <= n <= f,
        0 <= rank < 8,
        men.len() == 64,
        forall|s: int| 0 <= s < 64 ==> (#[trigger] men[s] matches Some(man) ==> man.0 < 6 && man.1 < 2),
    ensures
        squares_told(rank_text(men, rank, f, n)) == 8 - f + n,
    decreases 8 - f,
{
    if n > 0 {
        lemma_one_told(('0' as u8 + n) as char);
    } else {
        assert(squares_told(empty_run(0)) == 0);
    }
    if f < 8 {
        match men[8 * rank + f] {
            None => {
                law_rank_text_tells_eight_squares(men, rank, f + 1, n + 1);
            },
            Some(man) => {
                law_rank_text_tells_eight_squares(men, rank, f + 1, 0);
                assert(man.0 < 6);
                lemma_one_told(man_letter(man));
                let rest = rank_text(men, rank, f + 1, 0);
                lemma_squares_told(empty_run(n) + seq![man_letter(man)], rest);
                lemma_squares_told(empty_run(n), seq![man_letter(man)]);
            },
        }
    }
}

/// An empty rank is written as one number.
pub proof fn law_empty_ranks_are_written_as_one_number(men: Seq<Option<(u8, u8)>>, rank: int, f: int)
    requires
        0 <= f <= 8,
        0 <= rank < 8,
        forall|s: int| 8 * rank <= s < 8 * rank + 8 ==> #[trigger] men[s] is None,
    ensures
        rank_text(men, rank, f, f) == seq!['8'],
    decreases 8 - f,
{
    if f < 8 {
        assert(men[8 * rank + f] is None);
        law_empty_ranks_are_written_as_one_number(men, rank, f + 1);
    }
}

/// Castling rights are written alike from a record and from a position.
pub proof fn law_rights_are_written_alike(rights: u8)
    ensures
        castle_text(rights) == castle_letters(castles_of(rights)),
{
    assert(castle_text(rights) =~= castle_letters(castles_of(rights)));
}

/// The square passed by a pawn lies on the sixth rank where White is to move and on the third where
/// Black is.
pub proof fn law_passed_squares_lie_behind_the_pawn(f: u8)
    requires
        f < 8,
    ensures
        ep_text(0, Some(f)).len() == 2 && ep_text(1, Some(f)).len() == 2,
        ep_text(0, Some(f))[1] == '6',
        ep_text(1, Some(f))[1] == '3',
        ep_text(0, Some(f))[0] as u32 == 'a' as u32 + f,
        ep_text(1, Some(f))[0] == ep_text(0, Some(f))[0],
        ep_text(0, None) == seq!['-'],
{
}

/// A board is written from the eighth rank down to the first.
pub proof fn law_boards_are_written_from_the_eighth_rank(men: Seq<Option<(u8, u8)>>, rank: int)
    requires
        0 <= rank < 8,
    ensures
        placement_text(men, rank).len() >= rank_text(men, rank, 0, 0).len(),
        placement_text(men, rank).take(rank_text(men, rank, 0, 0).len() as int) == rank_text(men, rank, 0, 0),
        placement_text(men, rank).len() >= rank_text(men, 0, 0, 0).len(),
        placement_text(men, rank).skip(placement_text(men, rank).len() - rank_text(men, 0, 0, 0).len()) == rank_text(men, 0, 0, 0),
    decreases rank,
{
    let t = placement_text(men, rank);
    let a = rank_text(men, rank, 0, 0);
    let z = rank_text(men, 0, 0, 0);
    if rank > 0 {
        law_boards_are_written_from_the_eighth_rank(men, rank - 1);
        let u = placement_text(men, rank - 1);
        assert(t.take(a.len() as int) =~= a);
        assert(t.skip(t.len() - z.len()) =~= u.skip(u.len() - z.len()));
    } else {
        assert(t.take(a.len() as int) =~= a);
        assert(t.skip(t.len() - z.len()) =~= z);
    }
}

} // verus!

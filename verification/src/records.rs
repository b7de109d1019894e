//! Training records: a position in 27 bytes, then score, result and move.
//!
//! A record is eight bytes of occupancy, one a rank from the first, a bit a file; sixteen bytes of
//! men in the order of their squares, a nibble each, low nibble first, piece plus eight for
//! black; side to move; castling rights; en passant file or 255; the score in two bytes; the
//! result for the side to move; and the packed move in two bytes.
use vstd::prelude::*;
use crate::board::{fen_of_some_position, fen_position, hashed, men_count, reads_back, wf, PosView, Position, BLACK, WHITE};
use crate::fen::{castles_of, castle_text, empty_run, ep_text, fen_input, fen_text, man_letter, placement_text, rank_text};

verus! {

pub const RECORD_SIZE: usize = 32;

/// Whether bit `f` of a byte is set.
pub open spec fn bit_at(b: u8, f: int) -> bool {
    let shifted = if f == 0 {
        b
    } else if f == 1 {
        b / 2
    } else if f == 2 {
        b / 4
    } else if f == 3 {
        b / 8
    } else if f == 4 {
        b / 16
    } else if f == 5 {
        b / 32
    } else if f == 6 {
        b / 64
    } else {
        b / 128
    };
    shifted % 2 == 1
}

/// Whether a record has a man on a square.
pub open spec fn occupied_at(d: Seq<u8>, s: int) -> bool {
    bit_at(d[s / 8], s % 8)
}

/// How many of the first `n` squares of a record are occupied.
pub open spec fn record_count(d: Seq<u8>, n: int) -> int
    decreases n,
{
    if n <= 0 {
        0
    } else {
        record_count(d, n - 1) + if occupied_at(d, n - 1) {
            1int
        } else {
            0
        }
    }
}

/// The code of the man in place `i`.
pub open spec fn code_at(d: Seq<u8>, i: int) -> int {
    if i % 2 == 0 {
        d[8 + i / 2] as int % 16
    } else {
        d[8 + i / 2] as int / 16
    }
}

/// The man on a square of a record.
pub open spec fn record_man(d: Seq<u8>, s: int) -> Option<(u8, u8)> {
    if occupied_at(d, s) {
        let code = code_at(d, record_count(d, s));
        Some(((code % 8) as u8, (code / 8) as u8))
    } else {
        None
    }
}

/// The men of a record.
pub open spec fn record_men(d: Seq<u8>) -> Seq<Option<(u8, u8)>> {
    Seq::new(64, |s: int| record_man(d, s))
}

pub open spec fn record_side(d: Seq<u8>) -> u8 {
    if d[24] == 0 {
        WHITE
    } else {
        BLACK
    }
}

pub open spec fn record_ep(d: Seq<u8>) -> Option<u8> {
    if d[26] == 0xFF {
        None
    } else {
        Some(d[26])
    }
}

/// A record that describes men: there are no more than it has room to name, each is a piece,
/// and its en passant file has a letter.
pub open spec fn readable(d: Seq<u8>) -> bool {
    &&& d.len() == 27
    &&& record_count(d, 64) <= 38
    &&& forall|s: int| 0 <= s < 64 && #[trigger] occupied_at(d, s) ==> code_at(d, record_count(d, s)) % 8 < 6
    &&& d[26] == 0xFF || d[26] <= 158
}

/// The castling rights in bits: white short, white long, black short, black long.
pub open spec fn rights_of(castles: Seq<(Option<u8>, Option<u8>)>) -> int {
    match (castles[0], castles[1]) {
        ((ws, wl), (bs, bl)) => (if ws is Some { 1int } else { 0 }) + (if wl is Some { 2int } else { 0 })
            + (if bs is Some { 4int } else { 0 }) + (if bl is Some { 8int } else { 0 }),
    }
}

/// A record of a position.
pub open spec fn records(d: Seq<u8>, p: PosView) -> bool {
    &&& d.len() == 27
    &&& forall|s: int| 0 <= s < 64 ==> #[trigger] occupied_at(d, s) == (p.men[s] is Some)
    &&& forall|s: int| 0 <= s < 64 ==> (#[trigger] p.men[s] matches Some(man) ==> code_at(d, men_count(p.men, s))
        == man.0 + 8 * man.1)
    &&& forall|i: int| men_count(p.men, 64) <= i < 32 ==> #[trigger] code_at(d, i) == 0
    &&& d[24] == p.side
    &&& d[25] == rights_of(p.castles)
    &&& d[26] == match p.ep {
        Some(f) => f,
        None => 0xFF,
    }
}

proof fn lemma_count_grows(men: Seq<Option<(u8, u8)>>, n: int, m: int)
    requires
        0 <= n <= m,
    ensures
        0 <= men_count(men, n) <= men_count(men, m) <= m,
        n < m && men[n] is Some ==> men_count(men, n) < men_count(men, m),
    decreases m,
{
    if n < m {
        lemma_count_grows(men, n, m - 1);
        if n == m - 1 {
            lemma_count_grows(men, n, n);
        }
    } else if 0 < n {
        lemma_count_grows(men, n - 1, n - 1);
    }
}

/// The bits of a byte.
proof fn lemma_byte(a: u8, b: u8, c: u8, d: u8, e: u8, f: u8, g: u8, h: u8, r: u8)
    by (bit_vector)
    requires
        a <= 1 && b <= 1 && c <= 1 && d <= 1 && e <= 1 && f <= 1 && g <= 1 && h <= 1,
        r == a + 2 * b + 4 * c + 8 * d + 16 * e + 32 * f + 64 * g + 128 * h,
    ensures
        r % 2 == a,
        (r / 2) % 2 == b,
        (r / 4) % 2 == c,
        (r / 8) % 2 == d,
        (r / 16) % 2 == e,
        (r / 32) % 2 == f,
        (r / 64) % 2 == g,
        (r / 128) % 2 == h,
{
}

/// One for an occupied square.
fn man_bit(board: &Position, s: usize) -> (r: u8)
    requires
        s < 64,
    ensures
        r <= 1,
        (r == 1) == (board@.men[s as int] is Some),
{
    if board.man(s as u8).is_some() {
        1
    } else {
        0
    }
}

/// The byte of a rank.
fn rank_byte(board: &Position, rank: usize) -> (r: u8)
    requires
        wf(board@),
        rank < 8,
    ensures
        forall|f: int| 0 <= f < 8 ==> #[trigger] bit_at(r, f) == (board@.men[8 * rank + f] is Some),
{
    let a: u8 = man_bit(board, 8 * rank);
    let b: u8 = man_bit(board, 8 * rank + 1);
    let c: u8 = man_bit(board, 8 * rank + 2);
    let d: u8 = man_bit(board, 8 * rank + 3);
    let e: u8 = man_bit(board, 8 * rank + 4);
    let f: u8 = man_bit(board, 8 * rank + 5);
    let g: u8 = man_bit(board, 8 * rank + 6);
    let h: u8 = man_bit(board, 8 * rank + 7);
    let r: u8 = a + 2 * b + 4 * c + 8 * d + 16 * e + 32 * f + 64 * g + 128 * h;
    proof {
        lemma_byte(a, b, c, d, e, f, g, h, r);
        assert(bit_at(r, 0) == (board@.men[8 * rank] is Some));
        assert forall|k: int| 0 <= k < 8 implies #[trigger] bit_at(r, k) == (board@.men[8 * rank + k] is Some) by {
            assert(k == 0 || k == 1 || k == 2 || k == 3 || k == 4 || k == 5 || k == 6 || k == 7);
        }
    }
    r
}

/// Writes the code of the man in place `i`, which has none yet.
fn put_code(out: &mut [u8; 27], i: usize, code: u8)
    requires
        i < 32,
        code < 16,
        code_at(old(out)@, i as int) == 0,
    ensures
        code_at(final(out)@, i as int) == code,
        forall|j: int| 0 <= j < 32 && j != i ==> #[trigger] code_at(final(out)@, j) == code_at(old(out)@, j),
        forall|k: int| 0 <= k < 8 || 24 <= k < 27 ==> #[trigger] final(out)@[k] == old(out)@[k],
{
    let at: usize = 8 + i / 2;
    let b: u8 = out[at];
    if i % 2 == 0 {
        out[at] = b + code;
    } else {
        out[at] = b + 16 * code;
    }
    assert forall|j: int| 0 <= j < 32 && j != i implies #[trigger] code_at(out@, j) == code_at(old(out)@, j) by {
        if j / 2 == i as int / 2 {
            assert(j % 2 != i as int % 2);
        }
    }
}

/// The first part of a record: occupancy.
fn put_ranks(board: &Position, out: &mut [u8; 27])
    requires
        wf(board@),
        forall|k: int| 0 <= k < 27 ==> #[trigger] old(out)@[k] == 0,
    ensures
        forall|s: int| 0 <= s < 64 ==> #[trigger] occupied_at(final(out)@, s) == (board@.men[s] is Some),
        forall|k: int| 8 <= k < 27 ==> #[trigger] final(out)@[k] == 0,
{
    let mut r: usize = 0;
    while r < 8
        invariant
            r <= 8,
            wf(board@),
            forall|s: int| 0 <= s < 8 * r ==> #[trigger] occupied_at(out@, s) == (board@.men[s] is Some),
            forall|k: int| 8 <= k < 27 ==> #[trigger] out@[k] == 0,
        decreases 8 - r,
    {
        let ghost before = out@;
        let b: u8 = rank_byte(board, r);
        out[r] = b;
        assert forall|s: int| 0 <= s < 8 * (r + 1) implies #[trigger] occupied_at(out@, s) == (board@.men[s] is Some) by {
            if s < 8 * r {
                assert(occupied_at(before, s) == (board@.men[s] is Some));
                assert(out@[s / 8] == before[s / 8]);
            } else {
                assert(s / 8 == r && s == 8 * r + s % 8);
                assert(bit_at(b, s % 8) == (board@.men[8 * r + s % 8] is Some));
            }
        }
        r = r + 1;
    }
}

/// The castling rights of a position in bits.
fn rights_byte(board: &Position) -> (r: u8)
    requires
        wf(board@),
    ensures
        r == rights_of(board@.castles),
        r < 16,
{
    let (ws, wl): (Option<u8>, Option<u8>) = board.castle_rights(WHITE);
    let (bs, bl): (Option<u8>, Option<u8>) = board.castle_rights(BLACK);
    let a: u8 = if ws.is_some() { 1 } else { 0 };
    let b: u8 = if wl.is_some() { 2 } else { 0 };
    let c: u8 = if bs.is_some() { 4 } else { 0 };
    let d: u8 = if bl.is_some() { 8 } else { 0 };
    a + b + c + d
}

/// The record of a position.
pub fn pack_board(board: &Position) -> (r: [u8; 27])
    requires
        wf(board@),
    ensures
        records(r@, board@),
{
    let mut out: [u8; 27] = [0;27];
    put_ranks(board, &mut out);
    let ghost men = board@.men;
    let mut i: usize = 0;
    let mut s: usize = 0;
    while s < 64
        invariant
            s <= 64,
            wf(board@),
            men == board@.men,
            i == men_count(men, s as int),
            i <= 32,
            forall|t: int| 0 <= t < 64 ==> #[trigger] occupied_at(out@, t) == (men[t] is Some),
            forall|t: int| 0 <= t < s ==> (#[trigger] men[t] matches Some(man) ==> code_at(out@, men_count(men, t))
                == man.0 + 8 * man.1),
            forall|j: int| i <= j < 32 ==> #[trigger] code_at(out@, j) == 0,
        decreases 64 - s,
    {
        proof {
            lemma_count_grows(men, s as int, 64);
        }
        match board.man(s as u8) {
            Some((p, c)) => {
                let ghost before = out@;
                assert(men[s as int] == Some((p, c)));
                put_code(&mut out, i, p + 8 * c);
                assert forall|t: int| 0 <= t < 64 implies #[trigger] occupied_at(out@, t) == (men[t] is Some) by {
                    assert(occupied_at(before, t) == (men[t] is Some));
                    assert(out@[t / 8] == before[t / 8]);
                }
                assert forall|t: int| 0 <= t < s + 1 implies (#[trigger] men[t] matches Some(man) ==> code_at(
                    out@,
                    men_count(men, t),
                ) == man.0 + 8 * man.1) by {
                    if t < s {
                        lemma_count_grows(men, t, s as int);
                        lemma_count_grows(men, t, 64);
                        if men[t] is Some {
                            assert(code_at(out@, men_count(men, t)) == code_at(before, men_count(men, t)));
                        }
                    }
                }
                i = i + 1;
            },
            None => {},
        }
        s = s + 1;
    }
    let ghost before = out@;
    out[24] = board.side_to_move();
    out[25] = rights_byte(board);
    out[26] = match board.en_passant() {
        Some(f) => f,
        None => 0xFF,
    };
    assert forall|t: int| 0 <= t < 64 implies #[trigger] occupied_at(out@, t) == (men[t] is Some) by {
        assert(occupied_at(before, t) == (men[t] is Some));
        assert(out@[t / 8] == before[t / 8]);
    }
    assert forall|t: int| 0 <= t < 64 implies (#[trigger] men[t] matches Some(man) ==> code_at(out@, men_count(men, t))
        == man.0 + 8 * man.1) by {
        lemma_count_grows(men, t, 64);
        if men[t] is Some {
            assert(code_at(out@, men_count(men, t)) == code_at(before, men_count(men, t)));
        }
    }
    assert forall|j: int| men_count(men, 64) <= j < 32 implies #[trigger] code_at(out@, j) == 0 by {
        lemma_count_grows(men, 0, 64);
        assert(code_at(before, j) == 0);
    }
    out
}

pub proof fn lemma_record_count(d: Seq<u8>, n: int, m: int)
    requires
        0 <= n <= m,
    ensures
        0 <= record_count(d, n) <= record_count(d, m),
        n < m && occupied_at(d, n) ==> record_count(d, n) < record_count(d, m),
    decreases m,
{
    if n < m {
        lemma_record_count(d, n, m - 1);
        if n == m - 1 {
            lemma_record_count(d, n, n);
        }
    } else if 0 < n {
        lemma_record_count(d, n - 1, n - 1);
    }
}

/// Whether bit `f` of a byte is set.
pub fn has_bit(b: u8, f: usize) -> (r: bool)
    requires
        f < 8,
    ensures
        r == bit_at(b, f as int),
{
    let shifted: u8 = if f == 0 {
        b
    } else if f == 1 {
        b / 2
    } else if f == 2 {
        b / 4
    } else if f == 3 {
        b / 8
    } else if f == 4 {
        b / 16
    } else if f == 5 {
        b / 32
    } else if f == 6 {
        b / 64
    } else {
        b / 128
    };
    shifted % 2 == 1
}

/// The men of a record.
pub fn unpack_men(buf: &[u8; 27]) -> (r: Vec<Option<(u8, u8)>>)
    requires
        readable(buf@),
    ensures
        r@ == record_men(buf@),
        forall|s: int| 0 <= s < 64 ==> (#[trigger] r@[s] matches Some(man) ==> man.0 < 6 && man.1 < 2),
{
    let mut men: Vec<Option<(u8, u8)>> = Vec::with_capacity(64);
    let mut i: usize = 0;
    let mut s: usize = 0;
    while s < 64
        invariant
            s <= 64,
            readable(buf@),
            men@.len() == s,
            i == record_count(buf@, s as int),
            i <= 38,
            forall|t: int| 0 <= t < s ==> #[trigger] men@[t] == record_man(buf@, t),
            forall|t: int| 0 <= t < s ==> (#[trigger] men@[t] matches Some(man) ==> man.0 < 6 && man.1 < 2),
        decreases 64 - s,
    {
        proof {
            lemma_record_count(buf@, s as int, 64);
        }
        if has_bit(buf[s / 8], s % 8) {
            assert(occupied_at(buf@, s as int));
            let b: u8 = buf[8 + i / 2];
            let code: u8 = if i % 2 == 0 {
                b % 16
            } else {
                b / 16
            };
            men.push(Some((code % 8, code / 8)));
            i = i + 1;
        } else {
            men.push(None);
        }
        s = s + 1;
    }
    assert(men@ =~= record_men(buf@));
    men
}

/// The letter of a man.
fn letter(p: u8, c: u8) -> (r: char)
    ensures
        r == man_letter((p, c)),
{
    if c == WHITE {
        if p == 0 { 'P' } else if p == 1 { 'N' } else if p == 2 { 'B' } else if p == 3 { 'R' }
        else if p == 4 { 'Q' } else { 'K' }
    } else {
        if p == 0 { 'p' } else if p == 1 { 'n' } else if p == 2 { 'b' } else if p == 3 { 'r' }
        else if p == 4 { 'q' } else { 'k' }
    }
}

/// Writes a run of empty squares.
fn push_empty(out: &mut String, n: u8)
    requires
        n <= 8,
    ensures
        final(out)@ == old(out)@ + empty_run(n as int),
{
    if n > 0 {
        out.push((48 + n) as char);
    }
    assert(out@ =~= old(out)@ + empty_run(n as int));
}

/// Writes a rank.
fn push_rank(out: &mut String, men: &Vec<Option<(u8, u8)>>, rank: usize)
    requires
        men@.len() == 64,
        rank < 8,
    ensures
        final(out)@ == old(out)@ + rank_text(men@, rank as int, 0, 0),
{
    let mut f: usize = 0;
    let mut n: u8 = 0;
    assert(out@ + rank_text(men@, rank as int, 0, 0) =~= old(out)@ + rank_text(men@, rank as int, 0, 0));
    while f < 8
        invariant
            f <= 8,
            n <= f,
            rank < 8,
            men@.len() == 64,
            out@ + rank_text(men@, rank as int, f as int, n as int) == old(out)@ + rank_text(men@, rank as int, 0, 0),
        decreases 8 - f,
    {
        let ghost before = out@;
        let ghost tail = rank_text(men@, rank as int, f as int + 1, 0);
        match men[8 * rank + f] {
            None => {
                n = n + 1;
            },
            Some((p, c)) => {
                push_empty(out, n);
                out.push(letter(p, c));
                assert(before + (empty_run(n as int) + seq![man_letter((p, c))] + tail) =~= out@ + tail);
                n = 0;
            },
        }
        f = f + 1;
    }
    push_empty(out, n);
}

/// Writes the ranks from the eighth down.
fn push_placement(out: &mut String, men: &Vec<Option<(u8, u8)>>)
    requires
        men@.len() == 64,
    ensures
        final(out)@ == old(out)@ + placement_text(men@, 7),
{
    let mut rank: usize = 7;
    while rank > 0
        invariant
            rank <= 7,
            men@.len() == 64,
            out@ + placement_text(men@, rank as int) == old(out)@ + placement_text(men@, 7),
        decreases rank,
    {
        let ghost before = out@;
        let ghost tail = placement_text(men@, rank as int - 1);
        let ghost here = rank_text(men@, rank as int, 0, 0);
        push_rank(out, men, rank);
        out.push('/');
        assert(before + (here + seq!['/'] + tail) =~= out@ + tail);
        rank = rank - 1;
    }
    push_rank(out, men, 0);
}

/// Writes the castling rights.
fn push_castles(out: &mut String, rights: u8)
    ensures
        final(out)@ == old(out)@ + castle_text(rights),
{
    if rights & 1 != 0 {
        out.push('K');
    }
    if rights & 2 != 0 {
        out.push('Q');
    }
    if rights & 4 != 0 {
        out.push('k');
    }
    if rights & 8 != 0 {
        out.push('q');
    }
    if rights & 1 == 0 && rights & 2 == 0 && rights & 4 == 0 && rights & 8 == 0 {
        out.push('-');
    }
    assert(out@ =~= old(out)@ + castle_text(rights));
}

/// The FEN of a record, with fresh counters.
pub fn unpack_to_fen(buf: &[u8; 27]) -> (r: String)
    requires
        readable(buf@),
    ensures
        r@ == fen_text(record_men(buf@), record_side(buf@), buf@[25], record_ep(buf@)),
{
    let men = unpack_men(buf);
    let mut out = String::new();
    push_placement(&mut out, &men);
    let ghost placement = placement_text(men@, 7);
    assert(out@ =~= placement);
    let white: bool = buf[24] == 0;
    out.push(' ');
    out.push(if white { 'w' } else { 'b' });
    out.push(' ');
    let ghost head = placement + seq![' ', if record_side(buf@) == WHITE { 'w' } else { 'b' }, ' '];
    assert(out@ =~= head);
    let rights: u8 = buf[25];
    push_castles(&mut out, rights);
    out.push(' ');
    let ghost front = head + castle_text(rights) + seq![' '];
    assert(out@ =~= front);
    let ep: u8 = buf[26];
    if ep == 0xFF {
        out.push('-');
    } else {
        out.push((97 + ep) as char);
        out.push(if white { '6' } else { '3' });
    }
    assert(out@ =~= front + ep_text(record_side(buf@), record_ep(buf@)));
    out.push(' ');
    out.push('0');
    out.push(' ');
    out.push('1');
    assert(out@ =~= front + ep_text(record_side(buf@), record_ep(buf@)) + seq![' ', '0', ' ', '1']);
    out
}

// ---------------- what a record gives back ----------------
/// Castling rights with the rooks where standard chess has them.
pub open spec fn standard_castles(castles: Seq<(Option<u8>, Option<u8>)>) -> bool {
    &&& castles.len() == 2
    &&& forall|c: int| 0 <= c < 2 ==> (match #[trigger] castles[c] {
        (s, l) => (s is None || s == Some(7u8)) && (l is None || l == Some(0u8)),
    })
}

proof fn lemma_rights(a: u8, b: u8, c: u8, d: u8, r: u8)
    by (bit_vector)
    requires
        a <= 1 && b <= 1 && c <= 1 && d <= 1,
        r == a + 2 * b + 4 * c + 8 * d,
    ensures
        (r & 1 != 0) == (a == 1),
        (r & 2 != 0) == (b == 1),
        (r & 4 != 0) == (c == 1),
        (r & 8 != 0) == (d == 1),
{
}

proof fn lemma_rights_read_back(castles: Seq<(Option<u8>, Option<u8>)>, r: u8)
    requires
        standard_castles(castles),
        r == rights_of(castles),
    ensures
        castles_of(r) == castles,
{
    let (ws, wl) = castles[0];
    let (bs, bl) = castles[1];
    let a = if ws is Some { 1u8 } else { 0u8 };
    let b = if wl is Some { 1u8 } else { 0u8 };
    let c = if bs is Some { 1u8 } else { 0u8 };
    let d = if bl is Some { 1u8 } else { 0u8 };
    lemma_rights(a, b, c, d, r);
    assert(castles_of(r) =~= castles);
}

proof fn lemma_same_count(d: Seq<u8>, men: Seq<Option<(u8, u8)>>, n: int)
    requires
        0 <= n <= 64,
        forall|s: int| 0 <= s < 64 ==> #[trigger] occupied_at(d, s) == (men[s] is Some),
    ensures
        record_count(d, n) == men_count(men, n),
    decreases n,
{
    if n > 0 {
        lemma_same_count(d, men, n - 1);
        assert(occupied_at(d, n - 1) == (men[n - 1] is Some));
    }
}

/// A record gives back the position it was made of: men, side to move and en passant file, and
/// in standard chess the castling rights.
pub proof fn law_record_reads_back(d: Seq<u8>, p: PosView)
    requires
        wf(p),
        records(d, p),
    ensures
        readable(d),
        record_men(d) == p.men,
        record_side(d) == p.side,
        record_ep(d) == p.ep,
        standard_castles(p.castles) ==> castles_of(d[25]) == p.castles,
{
    lemma_same_count(d, p.men, 64);
    assert forall|s: int| 0 <= s < 64 implies #[trigger] record_man(d, s) == p.men[s] by {
        lemma_same_count(d, p.men, s);
        assert(occupied_at(d, s) == (p.men[s] is Some));
        assert(p.men[s] matches Some(man) ==> code_at(d, men_count(p.men, s)) == man.0 + 8 * man.1);
    }
    assert forall|s: int| 0 <= s < 64 && #[trigger] occupied_at(d, s) implies code_at(d, record_count(d, s)) % 8 < 6 by {
        lemma_same_count(d, p.men, s);
        assert(p.men[s] is Some);
    }
    assert(record_men(d) =~= p.men);
    if standard_castles(p.castles) {
        lemma_rights_read_back(p.castles, d[25]);
    }
}

/// The FEN of a position's record is accepted.
pub proof fn law_record_fen_is_accepted(d: Seq<u8>, p: PosView)
    requires
        wf(p),
        standard_castles(p.castles),
        records(d, p),
    ensures
        fen_of_some_position(fen_text(record_men(d), record_side(d), d[25], record_ep(d))),
{
    law_record_reads_back(d, p);
}

/// Whatever position a record's FEN is read as, it has the hash of the position the record was
/// made of.
pub proof fn law_record_keeps_the_hash(d: Seq<u8>, p: PosView, q: PosView)
    requires
        wf(p),
        hashed(p),
        standard_castles(p.castles),
        records(d, p),
        reads_back(fen_text(record_men(d), record_side(d), d[25], record_ep(d)), q),
        hashed(q),
    ensures
        q.men == p.men,
        q.side == p.side,
        q.castles == p.castles,
        q.ep == p.ep,
        q.hash == p.hash,
{
    law_record_reads_back(d, p);
    assert(fen_input(p.men, p.side, p.ep));
    assert(fen_text(record_men(d), record_side(d), d[25], record_ep(d)) == fen_text(p.men, p.side, d[25], p.ep));
}

/// What comes of writing a position as a record and reading it again.
pub enum RoundTrip {
    /// The FEN is refused, and why.
    Unparsable(String, String),
    /// The position read has another hash.
    Mismatch(Position),
    /// The same hash. Whether there were castling rights, and an en passant file.
    Exact(bool, bool),
}

/// Writes a position as a record and reads it again through its FEN.
pub fn round_trip(board: &Position) -> (r: RoundTrip)
    requires
        wf(board@),
        hashed(board@),
    ensures
        standard_castles(board@.castles) ==> r is Exact,
        match r {
            RoundTrip::Unparsable(fen, e) => fen@ == fen_text(
                board@.men,
                board@.side,
                rights_of(board@.castles) as u8,
                board@.ep,
            ) && fen_position(fen@) is Err && fen_position(fen@)->Err_0 == e@,
            RoundTrip::Mismatch(q) => q@.hash != board@.hash,
            RoundTrip::Exact(castle, ep) => castle == (rights_of(board@.castles) != 0) && ep == (board@.ep is Some),
        },
{
    let d: [u8; 27] = pack_board(board);
    proof {
        law_record_reads_back(d@, board@);
    }
    let fen: String = unpack_to_fen(&d);
    proof {
        if standard_castles(board@.castles) {
            law_record_fen_is_accepted(d@, board@);
        }
    }
    match Position::from_fen(fen.as_str()) {
        Ok(q) => {
            proof {
                if standard_castles(board@.castles) {
                    law_record_keeps_the_hash(d@, board@, q@);
                }
            }
            if q.hash() != board.hash() {
                RoundTrip::Mismatch(q)
            } else {
                RoundTrip::Exact(d[25] != 0, d[26] != 0xFF)
            }
        },
        Err(e) => RoundTrip::Unparsable(fen, e),
    }
}

// ---------------- laws ----------------
/// The bits of a byte make up its value.
pub proof fn law_bits_make_up_a_byte(b: u8)
    ensures
        b == (if bit_at(b, 0) { 1int } else { 0 }) + (if bit_at(b, 1) { 2int } else { 0 }) + (if bit_at(b, 2) { 4int } else { 0 })
            + (if bit_at(b, 3) { 8int } else { 0 }) + (if bit_at(b, 4) { 16int } else { 0 }) + (if bit_at(b, 5) {
            32int
        } else {
            0
        }) + (if bit_at(b, 6) { 64int } else { 0 }) + (if bit_at(b, 7) { 128int } else { 0 }),
{
    let n = b as int;
    assert(n / 4 == (n / 2) / 2);
    assert(n / 8 == (n / 4) / 2);
    assert(n / 16 == (n / 8) / 2);
    assert(n / 32 == (n / 16) / 2);
    assert(n / 64 == (n / 32) / 2);
    assert(n / 128 == (n / 64) / 2);
    assert(n / 128 == (n / 128) % 2);
    assert(bit_at(b, 0) <==> n % 2 == 1);
    assert(bit_at(b, 1) <==> (n / 2) % 2 == 1);
    assert(bit_at(b, 2) <==> (n / 4) % 2 == 1);
    assert(bit_at(b, 3) <==> (n / 8) % 2 == 1);
    assert(bit_at(b, 4) <==> (n / 16) % 2 == 1);
    assert(bit_at(b, 5) <==> (n / 32) % 2 == 1);
    assert(bit_at(b, 6) <==> (n / 64) % 2 == 1);
    assert(bit_at(b, 7) <==> (n / 128) % 2 == 1);
}

/// The men of a record stand on its occupied squares, one code each; the codes of eight and more are
/// Black's.
pub proof fn law_record_men_stand_on_occupied_squares(d: Seq<u8>, s: int)
    requires
        readable(d),
        0 <= s < 64,
    ensures
        record_men(d)[s] is Some <==> occupied_at(d, s),
        record_men(d)[s] matches Some(man) ==> man.0 < 6 && man.1 < 2 && code_at(d, record_count(d, s)) == man.0 + 8 * man.1,
        0 <= record_count(d, s) <= s,
        occupied_at(d, s) ==> record_count(d, s + 1) == record_count(d, s) + 1,
        !occupied_at(d, s) ==> record_count(d, s + 1) == record_count(d, s),
{
    lemma_record_count_bounds(d, s);
}

proof fn lemma_record_count_bounds(d: Seq<u8>, n: int)
    requires
        0 <= n,
    ensures
        0 <= record_count(d, n) <= n,
    decreases n,
{
    if n > 0 {
        lemma_record_count_bounds(d, n - 1);
    }
}

/// A record's rights tell which side may castle which way.
pub proof fn law_rights_tell_castling_apart(castles: Seq<(Option<u8>, Option<u8>)>)
    ensures
        rights_of(castles) % 2 == 1 <==> castles[0].0 is Some,
        rights_of(castles) / 2 % 2 == 1 <==> castles[0].1 is Some,
        rights_of(castles) / 4 % 2 == 1 <==> castles[1].0 is Some,
        rights_of(castles) / 8 == 1 <==> castles[1].1 is Some,
        0 <= rights_of(castles) < 16,
{
}

/// The bytes of a record: one a rank for the occupied squares, the lowest bit for the a file; then the
/// men's codes in the order of their squares, the lower half of a byte first; then the side to move,
/// the castling rights and the file of a pawn that may be taken in passing.
pub proof fn law_records_keep_to_their_bytes(d: Seq<u8>, p: PosView, r: int, s: int)
    requires
        records(d, p),
        0 <= r < 8,
        0 <= s < 64,
    ensures
        d[r] == (if p.men[8 * r] is Some { 1int } else { 0 }) + (if p.men[8 * r + 1] is Some { 2int } else { 0 }) + (if p.men[8 * r + 2] is Some {
            4int
        } else {
            0
        }) + (if p.men[8 * r + 3] is Some { 8int } else { 0 }) + (if p.men[8 * r + 4] is Some { 16int } else { 0 }) + (if p.men[8 * r + 5] is Some {
            32int
        } else {
            0
        }) + (if p.men[8 * r + 6] is Some { 64int } else { 0 }) + (if p.men[8 * r + 7] is Some { 128int } else { 0 }),
        p.men[s] matches Some(man) ==> ({
            let k = men_count(p.men, s);
            &&& k % 2 == 0 ==> d[8 + k / 2] % 16 == man.0 + 8 * man.1
            &&& k % 2 == 1 ==> d[8 + k / 2] / 16 == man.0 + 8 * man.1
        }),
        d[24] == p.side,
        d[25] % 2 == 1 <==> p.castles[0].0 is Some,
        d[25] / 8 == 1 <==> p.castles[1].1 is Some,
        p.ep is None ==> d[26] == 255,
        p.ep matches Some(f) ==> d[26] == f,
        d.len() == 27,
{
    law_bits_make_up_a_byte(d[r]);
    law_rights_tell_castling_apart(p.castles);
    lemma_rank_byte(d, p, r, 0);
    lemma_rank_byte(d, p, r, 1);
    lemma_rank_byte(d, p, r, 2);
    lemma_rank_byte(d, p, r, 3);
    lemma_rank_byte(d, p, r, 4);
    lemma_rank_byte(d, p, r, 5);
    lemma_rank_byte(d, p, r, 6);
    lemma_rank_byte(d, p, r, 7);
}

proof fn lemma_rank_byte(d: Seq<u8>, p: PosView, r: int, f: int)
    requires
        records(d, p),
        0 <= r < 8,
        0 <= f < 8,
    ensures
        bit_at(d[r], f) == (p.men[8 * r + f] is Some),
{
    assert(occupied_at(d, 8 * r + f) == (p.men[8 * r + f] is Some));
    assert((8 * r + f) / 8 == r && (8 * r + f) % 8 == f);
}

} // verus!

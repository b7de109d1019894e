//! The engine's side of the UCI protocol: what each command changes, and what is said and done
//! about it.
use vstd::prelude::*;
use crate::board::{
    accepted, fen_position, kings_apart, legal_moves, legal_shape, position_after, start_view, wf, Move, PosView, Position,
};
use crate::notation::{uci_move, uci_text};
use crate::book::Book;
use crate::driver::{after_line, lemma_beginnings};
use crate::selfplay::{lemma_hashes, line_hashes};
use crate::text::{
    append, chars_of, is, is_ignoring_case, lowered_text, numeral, parse_i64, parse_u128, parse_usize, push_number,
    push_signed, signed_numeral, signed_value, text_of, unsigned_value, views, words, words_of,
};
use crate::time::Limits;
use crate::tune::{after_set, default_params, Params, PARAMS};
use crate::walk::stepped;

verus! {

// ---------------- words ----------------
/// Where a word first occurs from `i` on.
pub open spec fn index_from(ws: Seq<Seq<char>>, w: Seq<char>, i: int) -> Option<int>
    decreases ws.len() - i,
{
    if i >= ws.len() {
        None
    } else if ws[i] == w {
        Some(i)
    } else {
        index_from(ws, w, i + 1)
    }
}

pub open spec fn index_of(ws: Seq<Seq<char>>, w: Seq<char>) -> Option<int> {
    index_from(ws, w, 0)
}

pub open spec fn word_at(ws: Seq<Seq<char>>, i: int) -> Option<Seq<char>> {
    if 0 <= i < ws.len() {
        Some(ws[i])
    } else {
        None
    }
}

/// A word is there and is the given one but for case.
pub open spec fn says(w: Option<Seq<char>>, text: Seq<char>) -> bool {
    w matches Some(x) && lowered_text(x) == lowered_text(text)
}

fn find(ws: &Vec<Vec<char>>, w: &str) -> (r: Option<usize>)
    ensures
        match r {
            Some(i) => i < ws@.len() && index_of(views(ws@), w@) == Some(i as int),
            None => index_of(views(ws@), w@) is None,
        },
{
    let n: usize = ws.len();
    let mut i: usize = 0;
    while i < n
        invariant
            i <= n,
            n == ws@.len(),
            index_from(views(ws@), w@, i as int) == index_of(views(ws@), w@),
        decreases n - i,
    {
        assert(views(ws@)[i as int] == ws@[i as int]@);
        if is(&ws[i], w) {
            return Some(i);
        }
        i = i + 1;
    }
    None
}

/// Whether word `i` is there and is the given one but for case.
fn word_says(ws: &Vec<Vec<char>>, i: usize, text: &str) -> (r: bool)
    ensures
        r == says(word_at(views(ws@), i as int), text@),
{
    if i < ws.len() {
        assert(views(ws@)[i as int] == ws@[i as int]@);
        is_ignoring_case(&ws[i], text)
    } else {
        false
    }
}

/// Whether word `i` is there and is the given one.
fn word_is(ws: &Vec<Vec<char>>, i: usize, text: &str) -> (r: bool)
    ensures
        r == (word_at(views(ws@), i as int) == Some(text@)),
{
    if i < ws.len() {
        assert(views(ws@)[i as int] == ws@[i as int]@);
        is(&ws[i], text)
    } else {
        false
    }
}

// ---------------- options ----------------
/// What an option command asks for.
pub enum SetOption {
    Ignored,
    Hash(usize),
    Threads(usize),
    OwnBook(bool),
    AdaptiveTime(bool),
    MoveOverhead(u128),
    EvalFile(String),
    PolicyFile(String),
    /// A search parameter, if there is one of that name.
    Parameter(Vec<char>, i32),
}

/// The number of megabytes, threads or milliseconds a value writes, if it does.
pub open spec fn amount(value: Option<Seq<char>>, max: int) -> Option<int> {
    match value {
        Some(w) => unsigned_value(w, max),
        None => None,
    }
}

/// What an option command asks for: the word after `name` and the word after `value` decide. A
/// value that is not a number is ignored where a number is asked for, as it is for every name but
/// those of the other options.
pub open spec fn asks_for(ws: Seq<Seq<char>>, r: SetOption) -> bool {
    match (index_of(ws, "name"@), index_of(ws, "value"@)) {
        (Some(n), Some(v)) => {
            let name = word_at(ws, n + 1);
            let value = word_at(ws, v + 1);
            if says(name, "hash"@) {
                match amount(value, usize::MAX as int) {
                    Some(x) => r matches SetOption::Hash(y) && x == y,
                    None => r is Ignored,
                }
            } else if says(name, "threads"@) {
                match amount(value, usize::MAX as int) {
                    Some(x) => r matches SetOption::Threads(y) && y == if x < 1 {
                        1
                    } else {
                        x
                    },
                    None => r is Ignored,
                }
            } else if says(name, "ownbook"@) {
                r matches SetOption::OwnBook(y) && y == says(value, "true"@)
            } else if says(name, "adaptivetime"@) {
                r matches SetOption::AdaptiveTime(y) && y == says(value, "true"@)
            } else if says(name, "move"@) && says(word_at(ws, n + 2), "overhead"@) {
                match amount(value, u128::MAX as int) {
                    Some(x) => r matches SetOption::MoveOverhead(y) && y == if x > 5000 {
                        5000
                    } else {
                        x
                    },
                    None => r is Ignored,
                }
            } else if says(name, "evalfile"@) {
                match value {
                    Some(w) => r matches SetOption::EvalFile(y) && y@ == w,
                    None => r is Ignored,
                }
            } else if says(name, "policyfile"@) {
                match value {
                    Some(w) => r matches SetOption::PolicyFile(y) && y@ == w,
                    None => r is Ignored,
                }
            } else {
                match (name, value) {
                    (Some(k), Some(w)) => match signed_value(w, i32::MIN as int, i32::MAX as int) {
                        Some(x) => r matches SetOption::Parameter(y, z) && y@ == k && x == z,
                        None => r is Ignored,
                    },
                    _ => r is Ignored,
                }
            }
        },
        _ => r is Ignored,
    }
}

fn copied(w: &Vec<char>) -> (r: Vec<char>)
    ensures
        r@ == w@,
{
    let n: usize = w.len();
    let mut v: Vec<char> = Vec::new();
    let mut i: usize = 0;
    while i < n
        invariant
            i <= n,
            n == w@.len(),
            v@ == w@.take(i as int),
        decreases n - i,
    {
        v.push(w[i]);
        i = i + 1;
        assert(v@ =~= w@.take(i as int));
    }
    assert(w@.take(n as int) =~= w@);
    v
}

/// Reads an option command.
pub fn parse_option(ws: &Vec<Vec<char>>) -> (r: SetOption)
    ensures
        asks_for(views(ws@), r),
{
    let len: usize = ws.len();
    let (n, v): (usize, usize) = match (find(ws, "name"), find(ws, "value")) {
        (Some(n), Some(v)) => (n + 1, v + 1),
        _ => {
            return SetOption::Ignored;
        },
    };
    let has: bool = v < len;
    assert(has ==> views(ws@)[v as int] == ws@[v as int]@);
    if word_says(ws, n, "hash") {
        if has {
            match parse_usize(&ws[v]) {
                Some(x) => {
                    return SetOption::Hash(x);
                },
                None => {},
            }
        }
    } else if word_says(ws, n, "threads") {
        if has {
            match parse_usize(&ws[v]) {
                Some(x) => {
                    return SetOption::Threads(if x < 1 {
                        1
                    } else {
                        x
                    });
                },
                None => {},
            }
        }
    } else if word_says(ws, n, "ownbook") {
        return SetOption::OwnBook(word_says(ws, v, "true"));
    } else if word_says(ws, n, "adaptivetime") {
        return SetOption::AdaptiveTime(word_says(ws, v, "true"));
    } else if word_says(ws, n, "move") && word_says(ws, n + 1, "overhead") {
        if has {
            match parse_u128(&ws[v]) {
                Some(x) => {
                    return SetOption::MoveOverhead(if x > 5000 {
                        5000
                    } else {
                        x
                    });
                },
                None => {},
            }
        }
    } else if word_says(ws, n, "evalfile") {
        if has {
            return SetOption::EvalFile(text_of(&ws[v]));
        }
    } else if word_says(ws, n, "policyfile") {
        if has {
            return SetOption::PolicyFile(text_of(&ws[v]));
        }
    } else if n < len && has {
        assert(views(ws@)[n as int] == ws@[n as int]@);
        match parse_i64(&ws[v]) {
            Some(x) => {
                if -0x8000_0000 <= x && x <= 0x7fff_ffff {
                    return SetOption::Parameter(copied(&ws[n]), x as i32);
                }
            },
            None => {},
        }
    }
    SetOption::Ignored
}

// ---------------- positions ----------------
/// Words with a space between each two.
pub open spec fn joined(ws: Seq<Seq<char>>) -> Seq<char>
    decreases ws.len(),
{
    if ws.len() == 0 {
        Seq::empty()
    } else if ws.len() == 1 {
        ws[0]
    } else {
        joined(ws.drop_last()) + seq![' '] + ws.last()
    }
}

fn join(ws: &Vec<Vec<char>>) -> (r: String)
    ensures
        r@ == joined(views(ws@)),
{
    let n: usize = ws.len();
    let mut out = String::new();
    let mut i: usize = 0;
    let ghost all = views(ws@);
    assert(all.take(0) =~= Seq::empty());
    while i < n
        invariant
            i <= n,
            n == ws@.len(),
            all == views(ws@),
            out@ == joined(all.take(i as int)),
        decreases n - i,
    {
        let ghost before = out@;
        let ghost longer = all.take(i as int + 1);
        assert(longer.drop_last() =~= all.take(i as int));
        assert(longer.last() == ws@[i as int]@);
        if i > 0 {
            out.push(' ');
        }
        let w: String = text_of(&ws[i]);
        append(&mut out, w.as_str());
        assert(out@ =~= joined(longer)) by {
            if i == 0 {
                assert(longer[0] == w@);
                assert(before =~= Seq::<char>::empty());
            }
        }
        i = i + 1;
    }
    assert(all.take(n as int) =~= all);
    out
}

/// The position of FEN fields, or what is wrong with them. Four fields get fresh counters.
pub open spec fn fields_position(fields: Seq<Seq<char>>) -> Result<PosView, Seq<char>> {
    if fields.len() == 4 {
        fen_position(joined(fields) + " 0 1"@)
    } else if fields.len() == 6 {
        fen_position(joined(fields))
    } else {
        Err("expected 4 or 6 fields, got "@ + numeral(fields.len()))
    }
}

/// The position of FEN fields.
pub fn parse_fields(fields: &Vec<Vec<char>>) -> (r: Result<Position, String>)
    ensures
        match r {
            Ok(p) => fields_position(views(fields@)) == Ok::<PosView, Seq<char>>(p@) && accepted(p@),
            Err(e) => fields_position(views(fields@)) == Err::<PosView, Seq<char>>(e@),
        },
{
    let n: usize = fields.len();
    if n == 4 {
        let mut fen: String = join(fields);
        append(&mut fen, " 0 1");
        Position::from_fen(fen.as_str())
    } else if n == 6 {
        let fen: String = join(fields);
        Position::from_fen(fen.as_str())
    } else {
        let mut e = String::new();
        append(&mut e, "expected 4 or 6 fields, got ");
        push_number(&mut e, n as u128);
        Err(e)
    }
}

pub open spec fn str_views(v: Seq<&str>) -> Seq<Seq<char>> {
    v.map_values(|s: &str| s@)
}

/// The position of FEN fields.
pub fn parse_fen(fields: &[&str]) -> (r: Result<Position, String>)
    ensures
        match r {
            Ok(p) => fields_position(str_views(fields@)) == Ok::<PosView, Seq<char>>(p@) && accepted(p@),
            Err(e) => fields_position(str_views(fields@)) == Err::<PosView, Seq<char>>(e@),
        },
{
    let n: usize = fields.len();
    let mut v: Vec<Vec<char>> = Vec::new();
    let mut i: usize = 0;
    while i < n
        invariant
            i <= n,
            n == fields@.len(),
            v@.len() == i,
            forall|k: int| 0 <= k < i ==> #[trigger] v@[k]@ == fields@[k]@,
        decreases n - i,
    {
        v.push(chars_of(fields[i]));
        i = i + 1;
    }
    assert(views(v@) =~= str_views(fields@));
    parse_fields(&v)
}

/// Where the moves from word `i` on lead, with the hashes of the positions on the way; or what is
/// said of the first that cannot be read or made.
pub open spec fn moves_from(p: PosView, hist: Seq<u64>, ws: Seq<Seq<char>>, i: int) -> Result<(PosView, Seq<u64>), Seq<char>>
    decreases ws.len() - i,
{
    if i >= ws.len() {
        Ok((p, hist))
    } else {
        match uci_move(p, ws[i]) {
            Err(e) => Err("info string bad move "@ + ws[i] + ": "@ + e),
            Ok(m) => if legal_moves(p).contains(m) {
                moves_from(position_after(p, m), hist.push(p.hash), ws, i + 1)
            } else {
                Err("info string illegal move "@ + ws[i])
            },
        }
    }
}

/// Every move of a line is one of the legal ones where it is made.
pub open spec fn lawful(p: PosView, line: Seq<Move>) -> bool {
    forall|k: int| 0 <= k < line.len() ==> legal_moves(after_line(p, #[trigger] line.take(k))).contains(line[k])
}

/// The moves of a command that is accepted are legal one after another, and lead to the position
/// that is set up through the positions that are remembered.
pub proof fn law_accepted_moves_are_legal(p: PosView, ws: Seq<Seq<char>>, i: int)
    requires
        0 <= i <= ws.len(),
        moves_from(p, Seq::empty(), ws, i) is Ok,
    ensures
        exists|line: Seq<Move>| #[trigger]
            lawful(p, line) && line.len() == ws.len() - i && moves_from(p, Seq::empty(), ws, i) == Ok::<
                (PosView, Seq<u64>),
                Seq<char>,
            >((after_line(p, line), line_hashes(p, line))),
{
    assert(line_hashes(p, Seq::empty()) =~= Seq::empty());
    lemma_accepted(p, Seq::empty(), ws, i);
}

proof fn lemma_accepted(p: PosView, line: Seq<Move>, ws: Seq<Seq<char>>, i: int)
    requires
        0 <= i <= ws.len(),
        lawful(p, line),
        moves_from(after_line(p, line), line_hashes(p, line), ws, i) is Ok,
    ensures
        exists|all: Seq<Move>| #[trigger]
            lawful(p, all) && all.len() == line.len() + ws.len() - i && moves_from(
                after_line(p, line),
                line_hashes(p, line),
                ws,
                i,
            ) == Ok::<(PosView, Seq<u64>), Seq<char>>((after_line(p, all), line_hashes(p, all))),
    decreases ws.len() - i,
{
    if i < ws.len() {
        let m = uci_move(after_line(p, line), ws[i])->Ok_0;
        let all = line.push(m);
        lemma_beginnings(line, m);
        assert(line.take(line.len() as int) =~= line);
        assert forall|k: int| 0 <= k < all.len() implies legal_moves(after_line(p, #[trigger] all.take(k))).contains(all[k]) by {
            assert(all.take(k) == line.take(k));
            if k < line.len() {
                assert(all[k] == line[k]);
            }
        }
        lemma_hashes(p, line, m);
        lemma_accepted(p, line.push(m), ws, i + 1);
    }
}

/// The position a command sets up before any moves, and the word where the moves begin; or what
/// is said of a command that sets up none. A game cannot be played with kings side by side.
pub open spec fn setup_of(ws: Seq<Seq<char>>) -> Result<(PosView, int), Seq<char>> {
    if word_at(ws, 1) == Some("startpos"@) {
        Ok((start_view(), 2))
    } else if word_at(ws, 1) == Some("fen"@) {
        let end = match index_of(ws, "moves"@) {
            Some(i) => i,
            None => ws.len() as int,
        };
        match fields_position(ws.subrange(2, end)) {
            Ok(p) => if kings_apart(p.men) {
                Ok((p, end))
            } else {
                Err("info string bad fen: kings side by side"@)
            },
            Err(e) => Err("info string bad fen: "@ + e),
        }
    } else {
        Err("info string bad position command"@)
    }
}

/// The position a command leads to and the hashes on the way, or what is said of a command that
/// leads nowhere.
pub open spec fn position_of(ws: Seq<Seq<char>>) -> Result<(PosView, Seq<u64>), Seq<char>> {
    match setup_of(ws) {
        Err(e) => Err(e),
        Ok((p, i)) => if word_at(ws, i) == Some("moves"@) {
            moves_from(p, Seq::empty(), ws, i + 1)
        } else {
            Ok((p, Seq::empty()))
        },
    }
}

/// Words `from` up to `to`.
fn slice_words(ws: &Vec<Vec<char>>, from: usize, to: usize) -> (r: Vec<Vec<char>>)
    requires
        from <= to <= ws@.len(),
    ensures
        views(r@) == views(ws@).subrange(from as int, to as int),
{
    let mut out: Vec<Vec<char>> = Vec::new();
    let mut i: usize = from;
    while i < to
        invariant
            from <= i <= to,
            to <= ws@.len(),
            out@.len() == i - from,
            forall|k: int| 0 <= k < i - from ==> #[trigger] out@[k]@ == ws@[from + k]@,
        decreases to - i,
    {
        out.push(copy_word(&ws[i]));
        i = i + 1;
    }
    assert(views(out@) =~= views(ws@).subrange(from as int, to as int));
    out
}

fn copy_word(w: &Vec<char>) -> (r: Vec<char>)
    ensures
        r@ == w@,
{
    let n: usize = w.len();
    let mut out: Vec<char> = Vec::with_capacity(n);
    let mut i: usize = 0;
    while i < n
        invariant
            i <= n,
            n == w@.len(),
            out@ == w@.take(i as int),
        decreases n - i,
    {
        out.push(w[i]);
        i = i + 1;
        assert(w@.take(i as int) =~= w@.take(i as int - 1).push(w@[i as int - 1]));
    }
    assert(w@.take(n as int) =~= w@);
    out
}

/// Nothing is before the word after `position`.
proof fn lemma_index_bounds(ws: Seq<Seq<char>>, w: Seq<char>, i: int)
    requires
        0 <= i,
    ensures
        index_from(ws, w, i) matches Some(j) ==> i <= j < ws.len() && ws[j] == w,
    decreases ws.len() - i,
{
    if i < ws.len() && ws[i] != w {
        lemma_index_bounds(ws, w, i + 1);
    }
}

/// Makes the moves of a command.
fn make_moves(board: &Position, ws: &Vec<Vec<char>>, from: usize) -> (r: Result<(Position, Vec<u64>), String>)
    requires
        wf(board@),
        from <= ws@.len(),
    ensures
        match r {
            Ok((p, h)) => moves_from(board@, Seq::empty(), views(ws@), from as int) == Ok::<(PosView, Seq<u64>), Seq<char>>(
                (p@, h@),
            ) && wf(p@),
            Err(e) => moves_from(board@, Seq::empty(), views(ws@), from as int) == Err::<(PosView, Seq<u64>), Seq<char>>(e@),
        },
{
    let n: usize = ws.len();
    let mut b: Position = board.clone();
    let mut hist: Vec<u64> = Vec::new();
    let mut i: usize = from;
    assert(hist@ =~= Seq::<u64>::empty());
    while i < n
        invariant
            from <= i <= n,
            n == ws@.len(),
            wf(b@),
            moves_from(b@, hist@, views(ws@), i as int) == moves_from(board@, Seq::empty(), views(ws@), from as int),
        decreases n - i,
    {
        let w: String = text_of(&ws[i]);
        assert(views(ws@)[i as int] == w@);
        match b.parse_uci(w.as_str()) {
            Ok(m) => {
                if !b.is_legal(m) {
                    let mut e = String::new();
                    append(&mut e, "info string illegal move ");
                    append(&mut e, w.as_str());
                    return Err(e);
                }
                hist.push(b.hash());
                b = b.play(m);
            },
            Err(why) => {
                let mut e = String::new();
                append(&mut e, "info string bad move ");
                append(&mut e, w.as_str());
                append(&mut e, ": ");
                append(&mut e, why.as_str());
                return Err(e);
            },
        }
        i = i + 1;
    }
    Ok((b, hist))
}

/// Reads a position command. No command, however wrong, sets up an illegal position: a move that
/// is not legal where it is made is refused.
pub fn parse_position(ws: &Vec<Vec<char>>) -> (r: Result<(Position, Vec<u64>), String>)
    requires
        ws@.len() > 0,
        ws@[0]@ == "position"@,
    ensures
        match r {
            Ok((p, h)) => position_of(views(ws@)) == Ok::<(PosView, Seq<u64>), Seq<char>>((p@, h@)) && wf(p@),
            Err(e) => position_of(views(ws@)) == Err::<(PosView, Seq<u64>), Seq<char>>(e@),
        },
{
    let n: usize = ws.len();
    let board: Position;
    let at: usize;
    if word_is(ws, 1, "startpos") {
        board = Position::start();
        at = 2;
    } else if word_is(ws, 1, "fen") {
        proof {
            reveal_strlit("position");
            reveal_strlit("moves");
            reveal_strlit("fen");
            assert(views(ws@)[0] == "position"@);
            assert(views(ws@)[1] == "fen"@);
            assert("position"@.len() != "moves"@.len());
            assert("fen"@.len() != "moves"@.len());
            assert(index_from(views(ws@), "moves"@, 0) == index_from(views(ws@), "moves"@, 1));
            assert(index_from(views(ws@), "moves"@, 1) == index_from(views(ws@), "moves"@, 2));
            lemma_index_bounds(views(ws@), "moves"@, 2);
        }
        let end: usize = match find(ws, "moves") {
            Some(i) => i,
            None => n,
        };
        let fields = slice_words(ws, 2, end);
        match parse_fields(&fields) {
            Ok(b) => {
                if b.kings_touch() {
                    let mut e = String::new();
                    append(&mut e, "info string bad fen: kings side by side");
                    assert(e@ =~= "info string bad fen: kings side by side"@);
                    return Err(e);
                }
                board = b;
                at = end;
            },
            Err(why) => {
                let mut e = String::new();
                append(&mut e, "info string bad fen: ");
                append(&mut e, why.as_str());
                return Err(e);
            },
        }
    } else {
        let mut e = String::new();
        append(&mut e, "info string bad position command");
        assert(e@ =~= "info string bad position command"@);
        return Err(e);
    }
    if word_is(ws, at, "moves") {
        make_moves(&board, ws, at + 1)
    } else {
        let hist: Vec<u64> = Vec::new();
        assert(hist@ =~= Seq::<u64>::empty());
        Ok((board, hist))
    }
}

// ---------------- limits ----------------
/// The number word `i` writes, if it does.
pub open spec fn number_at(ws: Seq<Seq<char>>, i: int) -> Option<i64> {
    match word_at(ws, i) {
        Some(w) => match signed_value(w, i64::MIN as int, i64::MAX as int) {
            Some(v) => Some(v as i64),
            None => None,
        },
        None => None,
    }
}

/// A number of milliseconds, at least `low`.
pub open spec fn time_from(num: Option<i64>, low: i64) -> Option<u128> {
    match num {
        Some(v) => Some(
            if v < low {
                low as u128
            } else {
                v as u128
            },
        ),
        None => None,
    }
}

/// The limits after a word that takes a number, if it is one.
pub open spec fn limit_set(l: Limits, w: Seq<char>, num: Option<i64>) -> Option<Limits> {
    if w == "depth"@ {
        Some(
            Limits {
                depth: match num {
                    Some(v) => Some(v as i32),
                    None => None,
                },
                ..l
            },
        )
    } else if w == "nodes"@ {
        Some(
            Limits {
                nodes: match num {
                    Some(v) => Some(v as u64),
                    None => None,
                },
                ..l
            },
        )
    } else if w == "movetime"@ {
        Some(
            Limits {
                movetime: match num {
                    Some(v) => Some(v as u128),
                    None => None,
                },
                ..l
            },
        )
    } else if w == "wtime"@ {
        Some(Limits { wtime: time_from(num, 1), ..l })
    } else if w == "btime"@ {
        Some(Limits { btime: time_from(num, 1), ..l })
    } else if w == "winc"@ {
        Some(Limits { winc: time_from(num, 0), ..l })
    } else if w == "movestogo"@ {
        Some(
            Limits {
                movestogo: match num {
                    Some(v) => Some(
                        if v < 1 {
                            1u32
                        } else {
                            v as u32
                        },
                    ),
                    None => None,
                },
                ..l
            },
        )
    } else if w == "binc"@ {
        Some(Limits { binc: time_from(num, 0), ..l })
    } else {
        None
    }
}

/// The limits after the words from `i` on. A word that takes a number takes the next word,
/// whatever it is.
pub open spec fn limits_from(ws: Seq<Seq<char>>, i: int, l: Limits) -> Limits
    decreases ws.len() + 1 - i,
{
    if i >= ws.len() {
        l
    } else {
        match limit_set(l, ws[i], number_at(ws, i + 1)) {
            Some(m) => limits_from(ws, i + 2, m),
            None => limits_from(
                ws,
                i + 1,
                Limits { infinite: l.infinite || ws[i] == "infinite"@, ..l },
            ),
        }
    }
}

fn clock_time(num: Option<i64>, low: i64) -> (r: Option<u128>)
    requires
        0 <= low <= 1,
    ensures
        r == time_from(num, low),
        crate::time::time_ok(r),
{
    match num {
        Some(v) => Some(
            if v < low {
                low as u128
            } else {
                v as u128
            },
        ),
        None => None,
    }
}

fn set_limit(l: Limits, w: &Vec<char>, num: Option<i64>) -> (r: Option<Limits>)
    ensures
        r == limit_set(l, w@, num),
        l.wf() ==> (r matches Some(m) ==> m.wf()),
{
    let mut m: Limits = l;
    if is(w, "depth") {
        m.depth = match num {
            Some(v) => Some(v as i32),
            None => None,
        };
    } else if is(w, "nodes") {
        m.nodes = match num {
            Some(v) => Some(v as u64),
            None => None,
        };
    } else if is(w, "movetime") {
        m.movetime = match num {
            Some(v) => Some(v as u128),
            None => None,
        };
    } else if is(w, "wtime") {
        m.wtime = clock_time(num, 1);
    } else if is(w, "btime") {
        m.btime = clock_time(num, 1);
    } else if is(w, "winc") {
        m.winc = clock_time(num, 0);
    } else if is(w, "movestogo") {
        m.movestogo = match num {
            Some(v) => Some(
                if v < 1 {
                    1
                } else {
                    v as u32
                },
            ),
            None => None,
        };
    } else if is(w, "binc") {
        m.binc = clock_time(num, 0);
    } else {
        return None;
    }
    Some(m)
}

/// Reads the limits of a search command on top of given ones.
pub fn parse_limits(ws: &Vec<Vec<char>>, start: Limits) -> (r: Limits)
    requires
        ws@.len() > 0,
        start.wf(),
    ensures
        r == limits_from(views(ws@), 1, start),
        r.wf(),
{
    let n: usize = ws.len();
    let mut l: Limits = start;
    let mut i: usize = 1;
    while i < n
        invariant
            i <= n,
            n == ws@.len(),
            l.wf(),
            limits_from(views(ws@), i as int, l) == limits_from(views(ws@), 1, start),
        decreases n - i,
    {
        assert(views(ws@)[i as int] == ws@[i as int]@);
        let num: Option<i64> = if i + 1 < n {
            assert(views(ws@)[i + 1] == ws@[i + 1]@);
            parse_i64(&ws[i + 1])
        } else {
            None
        };
        match set_limit(l, &ws[i], num) {
            Some(m) => {
                l = m;
                assert(i + 1 >= n ==> limits_from(views(ws@), i + 2, l) == l && limits_from(views(ws@), i + 1, l) == l);
                i = i + 1;
                if i < n {
                    i = i + 1;
                }
            },
            None => {
                if is(&ws[i], "infinite") {
                    l.infinite = true;
                }
                i = i + 1;
            },
        }
    }
    l
}

// ---------------- best move ----------------
/// The line that answers a search: its move, or the first legal one, or none where there is none.
pub open spec fn best_text(p: PosView, best: Option<Move>) -> Seq<char> {
    match best {
        Some(m) => "bestmove "@ + uci_text(p, m),
        None => if legal_moves(p).len() > 0 {
            "bestmove "@ + uci_text(p, legal_moves(p)[0])
        } else {
            "bestmove 0000"@
        },
    }
}

/// The line that answers a search. Where there is a legal move, a move is always named.
pub fn best_line(board: &Position, best: Option<Move>) -> (r: String)
    requires
        wf(board@),
        best matches Some(m) ==> legal_shape(board@, m),
    ensures
        r@ == best_text(board@, best),
{
    let choice: Option<Move> = match best {
        Some(m) => Some(m),
        None => {
            let all = board.moves();
            if all.len() > 0 {
                assert(legal_shape(board@, all@[0]));
                Some(all[0])
            } else {
                None
            }
        },
    };
    let mut out = String::new();
    match choice {
        Some(m) => {
            append(&mut out, "bestmove ");
            let t: String = board.display_uci(m);
            append(&mut out, t.as_str());
        },
        None => {
            append(&mut out, "bestmove 0000");
        },
    }
    assert(out@ =~= best_text(board@, best));
    out
}

// ---------------- session ----------------
/// What the engine answers when asked who it is.
pub const GREETING: [&'static str; 10] = [
    "id name Patzer 0.2",
    "id author Hubert Lipski",
    "option name Hash type spin default 64 min 1 max 4096",
    "option name Threads type spin default 1 min 1 max 256",
    "option name OwnBook type check default false",
    "option name AdaptiveTime type check default false",
    "option name Move Overhead type spin default 10 min 0 max 5000",
    "option name EvalFile type string default <empty>",
    "option name PolicyFile type string default <empty>",
    "uciok",
];

/// What is left to do after a command, beyond saying something.
pub enum Action {
    Nothing,
    /// Make the searchers anew for the present hash size and number of threads.
    Rebuild,
    LoadNet(String),
    LoadPolicy(String),
    /// Stop the search and forget the last game.
    NewGame,
    Search(Limits),
    Stop,
    Quit,
}

/// The state that commands change.
pub struct Session {
    pub hash_mb: usize,
    pub threads: usize,
    pub own_book: bool,
    pub adaptive_time: bool,
    pub move_overhead: u128,
    pub board: Position,
    /// The last position command was understood.
    pub position_valid: bool,
    /// Hashes of the positions of the game before this one.
    pub game_hist: Vec<u64>,
    /// This side's own scores across the game, oldest first.
    pub scores: Vec<i32>,
    /// A new game has begun, and nothing of it has been searched.
    pub new_game: bool,
    pub book_seed: u64,
    /// The search parameters are options, for measuring.
    pub tuning: bool,
    pub params: Params,
}

/// What is said about a command, and what is left to do.
pub struct Reply {
    pub lines: Vec<String>,
    pub action: Action,
}

pub open spec fn said(v: Seq<String>) -> Seq<Seq<char>> {
    v.map_values(|s: String| s@)
}

/// The limits a search starts from.
pub open spec fn base_limits(s: Session) -> Limits {
    Limits {
        depth: None,
        nodes: None,
        movetime: None,
        wtime: None,
        btime: None,
        winc: None,
        binc: None,
        movestogo: None,
        infinite: false,
        move_overhead: s.move_overhead,
        adaptive_time: s.adaptive_time,
    }
}

/// A move from the book, if the session plays from it and the move is legal.
pub open spec fn book_move(s: Session, book: Map<u64, Seq<Move>>, ws: Seq<Seq<char>>) -> Option<Move> {
    if s.own_book && !ws.contains("infinite"@) && book.contains_key(s.board@.hash) {
        let list = book[s.board@.hash];
        let m = list[stepped(s.book_seed) as int % list.len() as int];
        if legal_moves(s.board@).contains(m) {
            Some(m)
        } else {
            None
        }
    } else {
        None
    }
}

fn push_line(lines: &mut Vec<String>, t: &str)
    ensures
        said(final(lines)@) == said(old(lines)@).push(t@),
{
    let mut s = String::new();
    append(&mut s, t);
    assert(s@ =~= t@);
    lines.push(s);
    assert(said(lines@) =~= said(old(lines)@).push(t@));
}

fn one_line(t: &str) -> (r: Vec<String>)
    ensures
        said(r@) == seq![t@],
{
    let mut v: Vec<String> = Vec::new();
    push_line(&mut v, t);
    assert(said(v@) =~= seq![t@]);
    v
}

/// What is said of a parameter that was set.
pub open spec fn tuned_text(name: Seq<char>, v: int) -> Seq<char> {
    "info string tune "@ + name + " = "@ + signed_numeral(v)
}

fn tuned_line(name: &Vec<char>, v: i32) -> (r: String)
    ensures
        r@ == tuned_text(name@, v as int),
{
    let mut out = String::new();
    append(&mut out, "info string tune ");
    let w: String = text_of(name);
    append(&mut out, w.as_str());
    append(&mut out, " = ");
    push_signed(&mut out, v as i64);
    assert(out@ =~= tuned_text(name@, v as int));
    out
}

/// What an option changes, what is said of it and what is left to do about it. Search parameters
/// can be set while they are options, and nothing is said of a name that is none of them.
pub open spec fn option_effect(before: Session, o: SetOption, after: Session, lines: Seq<Seq<char>>, a: Action) -> bool {
    let quiet = lines.len() == 0;
    match o {
        SetOption::Ignored => after == before && quiet && a is Nothing,
        SetOption::Hash(x) => after == (Session { hash_mb: x, ..before }) && quiet && a is Rebuild,
        SetOption::Threads(x) => after == (Session { threads: x, ..before }) && quiet && a is Rebuild,
        SetOption::OwnBook(x) => after == (Session { own_book: x, ..before }) && quiet && a is Nothing,
        SetOption::AdaptiveTime(x) => after == (Session { adaptive_time: x, ..before }) && quiet && a is Nothing,
        SetOption::MoveOverhead(x) => after == (Session { move_overhead: x, ..before }) && quiet && a is Nothing,
        SetOption::EvalFile(x) => after == before && quiet && (a matches Action::LoadNet(y) && y@ == x@),
        SetOption::PolicyFile(x) => after == before && quiet && (a matches Action::LoadPolicy(y) && y@ == x@),
        SetOption::Parameter(name, v) => a is Nothing && match after_set(before.params, name@, v) {
            Some(q) if before.tuning => after == (Session { params: q, ..before }) && lines == seq![tuned_text(name@, v as int)],
            _ => after == before && quiet,
        },
    }
}

/// What a position command changes, and what is said about it. One that leads nowhere leaves the
/// board as it was, but nothing is searched before the next that does.
pub open spec fn position_effect(before: Session, ws: Seq<Seq<char>>, after: Session, lines: Seq<Seq<char>>) -> bool {
    &&& after == (Session {
        board: after.board,
        position_valid: after.position_valid,
        game_hist: after.game_hist,
        ..before
    })
    &&& match position_of(ws) {
        Ok((p, h)) => after.position_valid && after.board@ == p && after.game_hist@ == h && lines.len() == 0,
        Err(e) => !after.position_valid && after.board@ == before.board@ && after.game_hist@.len() == 0 && lines == seq![e],
    }
}

/// What a search command leads to: nothing without a valid position, a book move at once, or a
/// search.
pub open spec fn go_effect(
    before: Session,
    book: Map<u64, Seq<Move>>,
    ws: Seq<Seq<char>>,
    after: Session,
    lines: Seq<Seq<char>>,
    a: Action,
) -> bool {
    let probes = before.own_book && !ws.contains("infinite"@) && book.contains_key(before.board@.hash);
    if !before.position_valid {
        &&& after == before
        &&& lines == seq!["info string no valid position"@, "bestmove 0000"@]
        &&& a is Nothing
    } else {
        &&& after == (Session {
            book_seed: if probes {
                stepped(before.book_seed)
            } else {
                before.book_seed
            },
            ..before
        })
        &&& match book_move(before, book, ws) {
            Some(m) => lines == seq![best_text(before.board@, Some(m))] && a is Nothing,
            None => lines.len() == 0 && (a matches Action::Search(l) && l == limits_from(ws, 1, base_limits(before)) && l.wf()),
        }
    }
}

proof fn lemma_index_contains(ws: Seq<Seq<char>>, w: Seq<char>, i: int)
    requires
        0 <= i <= ws.len(),
        forall|k: int| 0 <= k < i ==> ws[k] != w,
    ensures
        index_from(ws, w, i) is Some <==> ws.contains(w),
    decreases ws.len() - i,
{
    if i < ws.len() && ws[i] != w {
        lemma_index_contains(ws, w, i + 1);
    }
}

impl Session {
    pub open spec fn wf(&self) -> bool {
        wf(self.board@)
    }

    /// A session as it begins: small table, one thread, no book, the initial position.
    pub fn new(seed: u64) -> (r: Session)
        ensures
            r.wf(),
            r.hash_mb == 64,
            r.threads == 1,
            !r.own_book,
            !r.adaptive_time,
            r.move_overhead == 10,
            r.board@ == start_view(),
            r.position_valid,
            r.game_hist@.len() == 0,
            r.scores@.len() == 0,
            !r.new_game,
            r.book_seed == seed | 1,
            !r.tuning,
            r.params == default_params(),
    {
        Session {
            hash_mb: 64,
            threads: 1,
            own_book: false,
            adaptive_time: false,
            move_overhead: 10,
            board: Position::start(),
            position_valid: true,
            game_hist: Vec::new(),
            scores: Vec::new(),
            new_game: false,
            book_seed: seed | 1,
            tuning: false,
            params: Params::default(),
        }
    }

    /// Takes in an option command.
    fn set_option(&mut self, ws: &Vec<Vec<char>>) -> (r: Reply)
        ensures
            exists|o: SetOption| #[trigger]
                asks_for(views(ws@), o) && option_effect(*old(self), o, *final(self), said(r.lines@), r.action),
    {
        let o: SetOption = parse_option(ws);
        let ghost asked = o;
        assert(asks_for(views(ws@), asked));
        let mut lines: Vec<String> = Vec::new();
        let action: Action = match o {
            SetOption::Ignored => Action::Nothing,
            SetOption::Hash(x) => {
                self.hash_mb = x;
                Action::Rebuild
            },
            SetOption::Threads(x) => {
                self.threads = x;
                Action::Rebuild
            },
            SetOption::OwnBook(x) => {
                self.own_book = x;
                Action::Nothing
            },
            SetOption::AdaptiveTime(x) => {
                self.adaptive_time = x;
                Action::Nothing
            },
            SetOption::MoveOverhead(x) => {
                self.move_overhead = x;
                Action::Nothing
            },
            SetOption::EvalFile(x) => Action::LoadNet(x),
            SetOption::PolicyFile(x) => Action::LoadPolicy(x),
            SetOption::Parameter(name, v) => {
                if self.tuning && crate::tune::set(&mut self.params, &name, v) {
                    let t: String = tuned_line(&name, v);
                    lines = one_line(t.as_str());
                }
                Action::Nothing
            },
        };
        assert(option_effect(*old(self), asked, *self, said(lines@), action));
        Reply { lines, action }
    }

    /// Takes in a position command.
    fn set_position(&mut self, ws: &Vec<Vec<char>>) -> (lines: Vec<String>)
        requires
            old(self).wf(),
            ws@.len() > 0,
            ws@[0]@ == "position"@,
        ensures
            final(self).wf(),
            position_effect(*old(self), views(ws@), *final(self), said(lines@)),
    {
        match parse_position(ws) {
            Ok((p, h)) => {
                self.board = p;
                self.game_hist = h;
                self.position_valid = true;
                Vec::new()
            },
            Err(e) => {
                self.position_valid = false;
                self.game_hist = Vec::new();
                one_line(e.as_str())
            },
        }
    }

    /// Takes in a search command.
    fn go(&mut self, ws: &Vec<Vec<char>>, book: &Book) -> (r: Reply)
        requires
            old(self).wf(),
            book.wf(),
            ws@.len() > 0,
        ensures
            final(self).wf(),
            go_effect(*old(self), book@, views(ws@), *final(self), said(r.lines@), r.action),
    {
        if !self.position_valid {
            let mut lines: Vec<String> = one_line("info string no valid position");
            push_line(&mut lines, "bestmove 0000");
            assert(said(lines@) =~= seq!["info string no valid position"@, "bestmove 0000"@]);
            return Reply { lines, action: Action::Nothing };
        }
        proof {
            lemma_index_contains(views(ws@), "infinite"@, 0);
        }
        if self.own_book && find(ws, "infinite").is_none() {
            match book.probe(self.board.hash(), &mut self.book_seed) {
                Some(mv) => {
                    if self.board.is_legal(mv) {
                        let t: String = best_line(&self.board, Some(mv));
                        let lines: Vec<String> = one_line(t.as_str());
                        return Reply { lines, action: Action::Nothing };
                    }
                },
                None => {},
            }
        }
        let mut base: Limits = Limits::default();
        base.adaptive_time = self.adaptive_time;
        base.move_overhead = self.move_overhead;
        let l: Limits = parse_limits(ws, base);
        Reply { lines: Vec::new(), action: Action::Search(l) }
    }

    /// Takes in a line of the protocol.
    pub fn handle(&mut self, line: &str, book: &Book) -> (r: Reply)
        requires
            old(self).wf(),
            book.wf(),
        ensures
            final(self).wf(),
            ({
                let ws = words_of(line@);
                let cmd = word_at(ws, 0);
                if cmd == Some("uci"@) {
                    said(r.lines@) == introduction(old(self).tuning) && *final(self) == *old(self) && r.action is Nothing
                } else if cmd == Some("isready"@) {
                    said(r.lines@) == seq!["readyok"@] && *final(self) == *old(self) && r.action is Nothing
                } else if cmd == Some("setoption"@) {
                    exists|o: SetOption| #[trigger]
                        asks_for(ws, o) && option_effect(*old(self), o, *final(self), said(r.lines@), r.action)
                } else if cmd == Some("ucinewgame"@) {
                    r.lines@.len() == 0 && r.action is NewGame && final(self).scores@.len() == 0 && *final(self) == (Session {
                        scores: final(self).scores,
                        new_game: true,
                        ..*old(self)
                    })
                } else if cmd == Some("position"@) {
                    position_effect(*old(self), ws, *final(self), said(r.lines@)) && r.action is Nothing
                } else if cmd == Some("go"@) {
                    go_effect(*old(self), book@, ws, *final(self), said(r.lines@), r.action)
                } else if cmd == Some("stop"@) {
                    r.lines@.len() == 0 && *final(self) == *old(self) && r.action is Stop
                } else if cmd == Some("quit"@) {
                    r.lines@.len() == 0 && *final(self) == *old(self) && r.action is Quit
                } else {
                    r.lines@.len() == 0 && *final(self) == *old(self) && r.action is Nothing
                }
            }),
    {
        let ws = words(line);
        if ws.len() == 0 {
            return Reply { lines: Vec::new(), action: Action::Nothing };
        }
        assert(views(ws@)[0] == ws@[0]@);
        if is(&ws[0], "uci") {
            Reply { lines: greeting(self.tuning), action: Action::Nothing }
        } else if is(&ws[0], "isready") {
            Reply { lines: one_line("readyok"), action: Action::Nothing }
        } else if is(&ws[0], "setoption") {
            self.set_option(&ws)
        } else if is(&ws[0], "ucinewgame") {
            self.scores.clear();
            self.new_game = true;
            Reply { lines: Vec::new(), action: Action::NewGame }
        } else if is(&ws[0], "position") {
            let lines: Vec<String> = self.set_position(&ws);
            Reply { lines, action: Action::Nothing }
        } else if is(&ws[0], "go") {
            self.go(&ws, book)
        } else if is(&ws[0], "stop") {
            Reply { lines: Vec::new(), action: Action::Stop }
        } else if is(&ws[0], "quit") {
            Reply { lines: Vec::new(), action: Action::Quit }
        } else {
            Reply { lines: Vec::new(), action: Action::Nothing }
        }
    }

    /// Notes the score of the search before the one that begins: there was one, and it was of
    /// the same game.
    pub fn note_score(&mut self, last: Option<i32>)
        ensures
            *final(self) == (Session { scores: final(self).scores, new_game: false, ..*old(self) }),
            final(self).scores@ == match last {
                Some(x) if !old(self).new_game => old(self).scores@.push(x),
                _ => old(self).scores@,
            },
    {
        match last {
            Some(x) => {
                if !self.new_game {
                    self.scores.push(x);
                }
            },
            None => {},
        }
        self.new_game = false;
    }
}

/// A search parameter as an option.
pub open spec fn parameter_text(x: (&'static str, i32, i32, i32)) -> Seq<char> {
    "option name "@ + x.0@ + " type spin default "@ + signed_numeral(x.1 as int) + " min "@ + signed_numeral(x.2 as int)
        + " max "@ + signed_numeral(x.3 as int)
}

/// What the engine answers when asked who it is. The search parameters are the last options where
/// they are options.
pub open spec fn introduction(tuning: bool) -> Seq<Seq<char>> {
    let plain = str_views(GREETING@);
    if tuning {
        plain.drop_last() + Seq::new(9, |k: int| parameter_text(PARAMS@[k])) + seq![plain.last()]
    } else {
        plain
    }
}

fn parameter_line(x: (&'static str, i32, i32, i32)) -> (r: String)
    ensures
        r@ == parameter_text(x),
{
    let mut out = String::new();
    append(&mut out, "option name ");
    append(&mut out, x.0);
    append(&mut out, " type spin default ");
    push_signed(&mut out, x.1 as i64);
    append(&mut out, " min ");
    push_signed(&mut out, x.2 as i64);
    append(&mut out, " max ");
    push_signed(&mut out, x.3 as i64);
    assert(out@ =~= parameter_text(x));
    out
}

fn greeting(tuning: bool) -> (r: Vec<String>)
    ensures
        said(r@) == introduction(tuning),
{
    let mut v: Vec<String> = Vec::new();
    let ghost plain = str_views(GREETING@);
    let mut i: usize = 0;
    assert(said(v@) =~= plain.take(0));
    while i < 9
        invariant
            i <= 9,
            plain == str_views(GREETING@),
            GREETING@.len() == 10,
            said(v@) == plain.take(i as int),
        decreases 9 - i,
    {
        push_line(&mut v, GREETING[i]);
        i = i + 1;
        assert(plain.take(i as int) =~= plain.take(i as int - 1).push(plain[i as int - 1]));
    }
    assert(plain.take(9) =~= plain.drop_last());
    if tuning {
        let ghost all = Seq::new(9, |k: int| parameter_text(PARAMS@[k]));
        let mut k: usize = 0;
        assert(said(v@) =~= plain.drop_last() + all.take(0));
        while k < 9
            invariant
                k <= 9,
                PARAMS@.len() == 9,
                all == Seq::new(9, |k: int| parameter_text(PARAMS@[k])),
                said(v@) == plain.drop_last() + all.take(k as int),
            decreases 9 - k,
        {
            let t: String = parameter_line(PARAMS[k]);
            push_line(&mut v, t.as_str());
            k = k + 1;
            assert(all.take(k as int) =~= all.take(k as int - 1).push(all[k as int - 1]));
            assert(said(v@) =~= plain.drop_last() + all.take(k as int));
        }
        assert(all.take(9) =~= all);
    }
    push_line(&mut v, GREETING[9]);
    assert(said(v@) =~= introduction(tuning));
    v
}

// ---------------- laws ----------------
/// A word is found at its first place, or it is not there.
pub proof fn law_words_are_found_at_their_first_place(ws: Seq<Seq<char>>, w: Seq<char>, i: int)
    requires
        0 <= i <= ws.len(),
    ensures
        match index_from(ws, w, i) {
            Some(k) => i <= k < ws.len() && ws[k] == w && forall|j: int| i <= j < k ==> #[trigger] ws[j] != w,
            None => forall|j: int| i <= j < ws.len() ==> #[trigger] ws[j] != w,
        },
    decreases ws.len() - i,
{
    if i < ws.len() && ws[i] != w {
        law_words_are_found_at_their_first_place(ws, w, i + 1);
    }
}

/// A word of a search command changes its own limit and no other, to the number behind it; clocks are
/// never below a millisecond, increments never below nothing, and there is always a move to go.
pub proof fn law_limits_change_by_their_word(l: Limits, w: Seq<char>, v: i64)
    ensures
        match limit_set(l, w, Some(v)) {
            Some(q) => {
                &&& q.depth != l.depth ==> w == "depth"@ && q.depth == Some(v as i32)
                &&& q.nodes != l.nodes ==> w == "nodes"@ && q.nodes == Some(v as u64)
                &&& q.movetime != l.movetime ==> w == "movetime"@ && q.movetime == Some(v as u128)
                &&& q.wtime != l.wtime ==> w == "wtime"@ && (v >= 1 ==> q.wtime == Some(v as u128)) && (v <= 1 ==> q.wtime == Some(1u128))
                &&& q.btime != l.btime ==> w == "btime"@ && (v >= 1 ==> q.btime == Some(v as u128)) && (v <= 1 ==> q.btime == Some(1u128))
                &&& q.winc != l.winc ==> w == "winc"@ && (v >= 0 ==> q.winc == Some(v as u128)) && (v <= 0 ==> q.winc == Some(0u128))
                &&& q.binc != l.binc ==> w == "binc"@ && (v >= 0 ==> q.binc == Some(v as u128)) && (v <= 0 ==> q.binc == Some(0u128))
                &&& q.movestogo != l.movestogo ==> w == "movestogo"@ && (v >= 1 ==> q.movestogo == Some(v as u32)) && (v <= 1
                    ==> q.movestogo == Some(1u32))
                &&& q.infinite == l.infinite
                &&& q.move_overhead == l.move_overhead
                &&& q.adaptive_time == l.adaptive_time
            },
            None => w != "depth"@ && w != "nodes"@ && w != "movetime"@ && w != "wtime"@ && w != "btime"@ && w != "winc"@ && w
                != "binc"@ && w != "movestogo"@,
        },
{
}

/// Without a number behind it a word lifts its limit.
pub proof fn law_limits_are_lifted_without_a_number(l: Limits, w: Seq<char>)
    ensures
        limit_set(l, w, None) matches Some(q) ==> {
            &&& q.depth is None || q.depth == l.depth
            &&& q.nodes is None || q.nodes == l.nodes
            &&& q.movetime is None || q.movetime == l.movetime
            &&& q.wtime is None || q.wtime == l.wtime
            &&& q.btime is None || q.btime == l.btime
            &&& q.winc is None || q.winc == l.winc
            &&& q.binc is None || q.binc == l.binc
            &&& q.movestogo is None || q.movestogo == l.movestogo
        },
{
}

/// There is always a thread, and the overhead is never above five seconds.
pub proof fn law_options_stay_in_range(ws: Seq<Seq<char>>, r: SetOption)
    requires
        asks_for(ws, r),
    ensures
        r matches SetOption::Threads(n) ==> n >= 1,
        r matches SetOption::MoveOverhead(x) ==> x <= 5000,
        index_of(ws, "name"@) is None || index_of(ws, "value"@) is None ==> r is Ignored,
{
}

/// A book move is legal, comes from the book of the position, and is played only where the book is in
/// use and the search is not to go on without end.
pub proof fn law_book_moves_are_played_where_allowed(s: Session, book: Map<u64, Seq<Move>>, ws: Seq<Seq<char>>)
    requires
        book.contains_key(s.board@.hash) ==> book[s.board@.hash].len() > 0,
    ensures
        book_move(s, book, ws) matches Some(m) ==> {
            &&& legal_moves(s.board@).contains(m)
            &&& s.own_book
            &&& !ws.contains("infinite"@)
            &&& book.contains_key(s.board@.hash) && book[s.board@.hash].contains(m)
        },
{
    if book.contains_key(s.board@.hash) {
        let list = book[s.board@.hash];
        let k = stepped(s.book_seed) as int % list.len() as int;
        assert(0 <= k < list.len());
        assert(list.contains(list[k]));
    }
}

/// What a command does not name stays as it was, and a search begins from the session's own settings.
pub proof fn law_searches_begin_without_limits(s: Session)
    ensures
        ({
            let l = base_limits(s);
            &&& l.depth is None && l.nodes is None && l.movetime is None && l.movestogo is None
            &&& l.wtime is None && l.btime is None && l.winc is None && l.binc is None
            &&& !l.infinite
            &&& l.move_overhead == s.move_overhead
            &&& l.adaptive_time == s.adaptive_time
        }),
{
}

/// Four fields of a position stand for six, with the clocks at their beginning; any other number is
/// refused.
pub proof fn law_four_fields_stand_for_six(fields: Seq<Seq<char>>)
    requires
        fields.len() == 4,
    ensures
        fields_position(fields) == fields_position(fields.push("0"@).push("1"@)),
{
    reveal_strlit(" 0 1");
    reveal_strlit("0");
    reveal_strlit("1");
    let five = fields.push("0"@);
    let six = five.push("1"@);
    assert(six.drop_last() =~= five);
    assert(five.drop_last() =~= fields);
    assert(joined(six) == joined(five) + seq![' '] + "1"@);
    assert(joined(five) == joined(fields) + seq![' '] + "0"@);
    assert(joined(six) =~= joined(fields) + " 0 1"@);
}

/// Without a best move the first legal one is played.
pub proof fn law_a_legal_move_is_always_played(p: PosView)
    requires
        legal_moves(p).len() > 0,
    ensures
        best_text(p, None) == best_text(p, Some(legal_moves(p)[0])),
{
}

/// An option changes its own setting: the position, the game and its scores stay, and so do the
/// parameters unless they are being tuned.
pub proof fn law_options_leave_the_game_alone(before: Session, o: SetOption, after: Session, lines: Seq<Seq<char>>, a: Action)
    requires
        option_effect(before, o, after, lines, a),
    ensures
        after.board == before.board,
        after.position_valid == before.position_valid,
        after.game_hist == before.game_hist,
        after.scores == before.scores,
        after.tuning == before.tuning,
        !before.tuning ==> after.params == before.params && lines.len() == 0,
        after.hash_mb != before.hash_mb ==> (o matches SetOption::Hash(x) && after.hash_mb == x),
        after.threads != before.threads ==> (o matches SetOption::Threads(x) && after.threads == x),
        after.own_book != before.own_book ==> (o matches SetOption::OwnBook(x) && after.own_book == x),
        after.adaptive_time != before.adaptive_time ==> (o matches SetOption::AdaptiveTime(x) && after.adaptive_time == x),
        after.move_overhead != before.move_overhead ==> (o matches SetOption::MoveOverhead(x) && after.move_overhead == x),
        a is Rebuild <==> o is Hash || o is Threads,
        a is LoadNet <==> o is EvalFile,
        a is LoadPolicy <==> o is PolicyFile,
{
}

/// A position command that is not understood leaves the board, says why, and leaves nothing to search
/// from.
pub proof fn law_refused_positions_are_not_searched(
    before: Session,
    ws: Seq<Seq<char>>,
    after: Session,
    lines: Seq<Seq<char>>,
    book: Map<u64, Seq<Move>>,
    go: Seq<Seq<char>>,
    last: Session,
    said: Seq<Seq<char>>,
    a: Action,
)
    requires
        position_effect(before, ws, after, lines),
        position_of(ws) is Err,
        go_effect(after, book, go, last, said, a),
    ensures
        lines.len() == 1,
        after.board@ == before.board@,
        a is Nothing,
        said.last() == "bestmove 0000"@,
        last == after,
{
}

/// While parameters are tuned they are announced before the last line, and nothing else changes.
pub proof fn law_tuning_announces_parameters()
    ensures
        introduction(true).len() == introduction(false).len() + 9,
        introduction(true).last() == introduction(false).last(),
        forall|k: int| 0 <= k < introduction(false).len() - 1 ==> #[trigger] introduction(true)[k] == introduction(false)[k],
{
}

/// A limit is read from the word and the number directly behind it, and a search goes on without end
/// only where it was told to.
pub proof fn law_limits_are_read_in_pairs(ws: Seq<Seq<char>>, i: int, l: Limits)
    requires
        0 <= i < ws.len(),
    ensures
        limit_set(l, ws[i], None) is Some && i + 1 < ws.len() ==> limits_from(ws, i, l) == limits_from(
            ws,
            i + 2,
            limit_set(
                l,
                ws[i],
                match signed_value(ws[i + 1], i64::MIN as int, i64::MAX as int) {
                    Some(v) => Some(v as i64),
                    None => None,
                },
            )->0,
        ),
        limits_from(ws, i, l).infinite ==> l.infinite || exists|j: int| i <= j < ws.len() && #[trigger] ws[j] == "infinite"@,
        limits_from(ws, i, l).move_overhead == l.move_overhead,
        limits_from(ws, i, l).adaptive_time == l.adaptive_time,
        l.infinite ==> limits_from(ws, i, l).infinite,
    decreases ws.len() - i,
{
    reveal_with_fuel(limits_from, 2);
    match limit_set(l, ws[i], number_at(ws, i + 1)) {
        Some(m) => {
            assert(m.infinite == l.infinite && m.move_overhead == l.move_overhead && m.adaptive_time == l.adaptive_time);
            if i + 2 < ws.len() {
                law_limits_are_read_in_pairs(ws, i + 2, m);
            }
        },
        None => {
            let m = Limits { infinite: l.infinite || ws[i] == "infinite"@, ..l };
            if i + 1 < ws.len() {
                law_limits_are_read_in_pairs(ws, i + 1, m);
            }
        },
    }
}

} // verus!

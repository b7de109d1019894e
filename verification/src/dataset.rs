//! Files of training records: what they hold, and the engine's own opinion of it.
use vstd::prelude::*;
use crate::board::{fen_position, accepted, PosView, Position};
use crate::bytes::{i16_at, i16_bytes, i32_at, read_i16, read_i32};
use crate::eval::{evaluate, evaluation};
use crate::fen::fen_text;
use crate::nnue::{acc_from, eval_scratch, forward, forward_scalar, scratch_eval, Acc, Network};
use crate::records::{
    code_at, occupied_at, readable, record_count, record_ep, record_men, record_side, unpack_to_fen, RECORD_SIZE,
};
use crate::text::{append, numeral, push_number, push_signed, signed_numeral};

verus! {

/// Why a record's position cannot be had.
pub enum ReadError {
    /// The bytes name no men.
    Unreadable,
    /// The FEN is refused.
    Refused(String),
}

/// The FEN of a record.
pub open spec fn record_fen(d: Seq<u8>) -> Seq<char> {
    fen_text(record_men(d), record_side(d), d[25], record_ep(d))
}

/// Whether a record's bytes describe men.
pub fn can_read(buf: &[u8; 27]) -> (r: bool)
    ensures
        r == readable(buf@),
{
    if buf[26] != 0xFF && buf[26] > 158 {
        return false;
    }
    let mut i: usize = 0;
    let mut s: usize = 0;
    while s < 64
        invariant
            s <= 64,
            i == record_count(buf@, s as int),
            i <= s,
            i <= 38,
            forall|t: int| 0 <= t < s && #[trigger] occupied_at(buf@, t) ==> code_at(buf@, record_count(buf@, t)) % 8 < 6,
        decreases 64 - s,
    {
        if crate::records::has_bit(buf[s / 8], s % 8) {
            assert(occupied_at(buf@, s as int));
            if i >= 38 {
                proof {
                    crate::records::lemma_record_count(buf@, s as int + 1, 64);
                }
                return false;
            }
            let b: u8 = buf[8 + i / 2];
            let code: u8 = if i % 2 == 0 {
                b % 16
            } else {
                b / 16
            };
            if code % 8 >= 6 {
                return false;
            }
            i = i + 1;
        }
        s = s + 1;
    }
    true
}

/// The position of a record.
pub fn read_position(buf: &[u8; 27]) -> (r: Result<Position, ReadError>)
    ensures
        match r {
            Ok(p) => readable(buf@) && fen_position(record_fen(buf@)) == Ok::<PosView, Seq<char>>(p@) && accepted(p@),
            Err(ReadError::Unreadable) => !readable(buf@),
            Err(ReadError::Refused(e)) => readable(buf@) && fen_position(record_fen(buf@)) == Err::<PosView, Seq<char>>(e@),
        },
{
    if !can_read(buf) {
        return Err(ReadError::Unreadable);
    }
    let fen: String = unpack_to_fen(buf);
    match Position::from_fen(fen.as_str()) {
        Ok(p) => Ok(p),
        Err(e) => Err(ReadError::Refused(e)),
    }
}

/// How many records a file has.
pub open spec fn record_total(d: Seq<u8>) -> int {
    d.len() as int / 32
}

/// The position's bytes of record `i`.
pub open spec fn pos_of(d: Seq<u8>, i: int) -> Seq<u8> {
    d.subrange(32 * i, 32 * i + 27)
}

pub open spec fn score_of(d: Seq<u8>, i: int) -> int {
    i16_at(d, 32 * i + 27)
}

pub open spec fn wdl_of(d: Seq<u8>, i: int) -> u8 {
    d[32 * i + 29]
}

/// The position's bytes of a record.
pub fn pos_bytes(data: &[u8], i: usize) -> (r: [u8; 27])
    requires
        i < record_total(data@),
    ensures
        r@ == pos_of(data@, i as int),
{
    let len: usize = data.len();
    let mut out: [u8; 27] = [0;27];
    let mut k: usize = 0;
    while k < 27
        invariant
            k <= 27,
            len == data@.len(),
            i < record_total(data@),
            forall|j: int| 0 <= j < k ==> #[trigger] out@[j] == data@[32 * i + j],
        decreases 27 - k,
    {
        out[k] = data[32 * i + k];
        k = k + 1;
    }
    assert(out@ =~= pos_of(data@, i as int));
    out
}

// ---------------- what a file holds ----------------
/// What is wrong with a file of records.
#[derive(Clone, Copy, PartialEq, Eq, Structural, Debug)]
pub enum Fault {
    /// Its size is not a number of records.
    Size,
    /// A record has a result that is none.
    Result(usize),
    /// The bytes of a record name no men.
    Unreadable(usize),
}

/// Which records are looked at closely: about two thousand of them.
pub open spec fn stride(n: int) -> int {
    if n / 2000 < 1 {
        1
    } else {
        n / 2000
    }
}

/// The first thing wrong with the first `n` records.
pub open spec fn first_fault(d: Seq<u8>, n: nat) -> Option<Fault>
    decreases n,
{
    if n == 0 {
        None
    } else {
        let i = n - 1;
        match first_fault(d, i as nat) {
            Some(f) => Some(f),
            None => if wdl_of(d, i) >= 3 {
                Some(Fault::Result(i as usize))
            } else if i % stride(record_total(d)) == 0 && !readable(pos_of(d, i)) {
                Some(Fault::Unreadable(i as usize))
            } else {
                None
            },
        }
    }
}

/// How many of the first `n` records have a result.
pub open spec fn results(d: Seq<u8>, w: u8, n: nat) -> int
    decreases n,
{
    if n == 0 {
        0
    } else {
        results(d, w, (n - 1) as nat) + if wdl_of(d, n - 1) == w {
            1int
        } else {
            0
        }
    }
}

/// The scores of those.
pub open spec fn score_sum(d: Seq<u8>, w: u8, n: nat) -> int
    decreases n,
{
    if n == 0 {
        0
    } else {
        score_sum(d, w, (n - 1) as nat) + if wdl_of(d, n - 1) == w {
            score_of(d, n - 1)
        } else {
            0
        }
    }
}

/// The bin of a score: steps of five hundred from -2000, the last one for 2000 itself.
pub open spec fn bin(score: int) -> int {
    let s = if score < -2000 {
        -2000
    } else if score > 2000 {
        2000
    } else {
        score
    };
    (s + 2000) / 500
}

/// How many of the first `n` records have their score in a bin.
pub open spec fn binned(d: Seq<u8>, b: int, n: nat) -> int
    decreases n,
{
    if n == 0 {
        0
    } else {
        binned(d, b, (n - 1) as nat) + if bin(score_of(d, n - 1)) == b {
            1int
        } else {
            0
        }
    }
}

/// How many of the first `n` records are looked at closely and refused.
pub open spec fn refused(d: Seq<u8>, n: nat) -> int
    decreases n,
{
    if n == 0 {
        0
    } else {
        refused(d, (n - 1) as nat) + if (n - 1) % stride(record_total(d)) == 0 && fen_position(
            record_fen(pos_of(d, n - 1)),
        ) is Err {
            1int
        } else {
            0
        }
    }
}

/// What a file of records holds.
pub struct Summary {
    pub total: usize,
    /// Losses, draws and wins for the side to move.
    pub wdl: [u64; 3],
    /// Their scores.
    pub scores: [i64; 3],
    pub bins: [u64; 9],
    pub refused: u64,
}

pub open spec fn summarizes(s: Summary, d: Seq<u8>, n: nat) -> bool {
    &&& forall|w: int| 0 <= w < 3 ==> #[trigger] s.wdl@[w] == results(d, w as u8, n)
    &&& forall|w: int| 0 <= w < 3 ==> #[trigger] s.scores@[w] == score_sum(d, w as u8, n)
    &&& forall|b: int| 0 <= b < 9 ==> #[trigger] s.bins@[b] == binned(d, b, n)
    &&& s.refused == refused(d, n)
}

pub open spec fn small(s: Summary, n: int) -> bool {
    &&& forall|w: int| 0 <= w < 3 ==> 0 <= #[trigger] s.wdl@[w] <= n
    &&& forall|w: int| 0 <= w < 3 ==> -32768 * n <= #[trigger] s.scores@[w] <= 32768 * n
    &&& forall|b: int| 0 <= b < 9 ==> 0 <= #[trigger] s.bins@[b] <= n
    &&& s.refused <= n
}

/// Adds up a file of records.
#[verifier::rlimit(60)]
pub fn summarize(data: &[u8]) -> (r: Result<Summary, Fault>)
    requires
        data@.len() <= 0x10_0000_0000_0000,
    ensures
        match r {
            Ok(s) => data@.len() % 32 == 0 && first_fault(data@, record_total(data@) as nat) is None && s.total
                == record_total(data@) && summarizes(s, data@, s.total as nat),
            Err(Fault::Size) => data@.len() % 32 != 0,
            Err(f) => data@.len() % 32 == 0 && first_fault(data@, record_total(data@) as nat) == Some(f),
        },
{
    if data.len() % RECORD_SIZE != 0 {
        return Err(Fault::Size);
    }
    let len: usize = data.len();
    let n: usize = len / RECORD_SIZE;
    let step: usize = if n / 2000 < 1 {
        1
    } else {
        n / 2000
    };
    let mut s = Summary { total: n, wdl: [0;3], scores: [0;3], bins: [0;9], refused: 0 };
    let mut i: usize = 0;
    while i < n
        invariant
            i <= n,
            n == record_total(data@),
            n <= 0x8000_0000_0000,
            len == data@.len(),
            data@.len() == 32 * n,
            step == stride(n as int),
            step >= 1,
            s.total == n,
            first_fault(data@, i as nat) is None,
            summarizes(s, data@, i as nat),
            small(s, i as int),
        decreases n - i,
    {
        let ghost before = s;
        let score: i32 = read_i16(data, 32 * i + 27) as i32;
        let wdl: u8 = data[32 * i + 29];
        if wdl >= 3 {
            proof {
                lemma_fault_stays(data@, i as nat + 1, n as nat);
            }
            return Err(Fault::Result(i));
        }
        s.wdl[wdl as usize] = s.wdl[wdl as usize] + 1;
        s.scores[wdl as usize] = s.scores[wdl as usize] + score as i64;
        let clamped: i32 = if score < -2000 {
            -2000
        } else if score > 2000 {
            2000
        } else {
            score
        };
        let b: usize = ((clamped + 2000) / 500) as usize;
        s.bins[b] = s.bins[b] + 1;
        if i % step == 0 {
            let pos: [u8; 27] = pos_bytes(data, i);
            match read_position(&pos) {
                Ok(_) => {},
                Err(ReadError::Unreadable) => {
                    proof {
                        lemma_fault_stays(data@, i as nat + 1, n as nat);
                    }
                    return Err(Fault::Unreadable(i));
                },
                Err(ReadError::Refused(_)) => {
                    s.refused = s.refused + 1;
                },
            }
        }
        proof {
            assert forall|w: int| 0 <= w < 3 implies #[trigger] s.wdl@[w] == results(data@, w as u8, i as nat + 1) by {
                assert(before.wdl@[w] == results(data@, w as u8, i as nat));
            }
            assert forall|w: int| 0 <= w < 3 implies #[trigger] s.scores@[w] == score_sum(data@, w as u8, i as nat + 1) by {
                assert(before.scores@[w] == score_sum(data@, w as u8, i as nat));
            }
            assert forall|k: int| 0 <= k < 9 implies #[trigger] s.bins@[k] == binned(data@, k, i as nat + 1) by {
                assert(before.bins@[k] == binned(data@, k, i as nat));
            }
        }
        i = i + 1;
    }
    Ok(s)
}

proof fn lemma_fault_stays(d: Seq<u8>, n: nat, m: nat)
    requires
        n <= m,
        first_fault(d, n) is Some,
    ensures
        first_fault(d, m) == first_fault(d, n),
    decreases m,
{
    if n < m {
        lemma_fault_stays(d, n, (m - 1) as nat);
    }
}

/// Whether one mean lies below another; nothing has the mean nought.
pub open spec fn mean_below(sum0: int, n0: int, sum1: int, n1: int) -> bool {
    sum0 * at_least_one(n1) < sum1 * at_least_one(n0)
}

pub open spec fn at_least_one(n: int) -> int {
    if n < 1 {
        1
    } else {
        n
    }
}

fn is_mean_below(sum0: i64, n0: u64, sum1: i64, n1: u64) -> (r: bool)
    ensures
        r == mean_below(sum0 as int, n0 as int, sum1 as int, n1 as int),
{
    let a: i128 = if n1 < 1 {
        1
    } else {
        n1 as i128
    };
    let b: i128 = if n0 < 1 {
        1
    } else {
        n0 as i128
    };
    proof {
        lemma_product_fits(sum0 as int, a as int);
        lemma_product_fits(sum1 as int, b as int);
    }
    (sum0 as i128) * a < (sum1 as i128) * b
}

proof fn lemma_product_fits(x: int, y: int)
    by (nonlinear_arith)
    requires
        i64::MIN <= x <= i64::MAX,
        0 <= y <= u64::MAX,
    ensures
        i128::MIN <= x * y <= i128::MAX,
{
}

impl Summary {
    /// The file is sound: nothing looked at was refused, and the mean score rises from losses
    /// over draws to wins.
    pub open spec fn sound(&self) -> bool {
        &&& self.refused == 0
        &&& mean_below(self.scores@[0] as int, self.wdl@[0] as int, self.scores@[1] as int, self.wdl@[1] as int)
        &&& mean_below(self.scores@[1] as int, self.wdl@[1] as int, self.scores@[2] as int, self.wdl@[2] as int)
    }

    pub fn passes(&self) -> (r: bool)
        ensures
            r == self.sound(),
    {
        self.refused == 0 && is_mean_below(self.scores[0], self.wdl[0], self.scores[1], self.wdl[1]) && is_mean_below(
            self.scores[1],
            self.wdl[1],
            self.scores[2],
            self.wdl[2],
        )
    }
}

// ---------------- the engine's opinion ----------------
/// A score cut to sixteen bits.
pub open spec fn cut16(x: int) -> int {
    if x < -32768 {
        -32768
    } else if x > 32767 {
        32767
    } else {
        x
    }
}

/// Record `i` can be read.
pub open spec fn legible(d: Seq<u8>, i: int) -> bool {
    readable(pos_of(d, i)) && fen_position(record_fen(pos_of(d, i))) is Ok
}

/// The position of record `i`.
pub open spec fn position_at(d: Seq<u8>, i: int) -> PosView {
    fen_position(record_fen(pos_of(d, i)))->Ok_0
}

/// The static evaluation of every record's position, two bytes each; the number of the first
/// record that cannot be read, if there is one.
pub fn static_evals(data: &[u8]) -> (r: Result<Vec<u8>, usize>)
    ensures
        match r {
            Ok(out) => {
                &&& out@.len() == 2 * record_total(data@)
                &&& forall|i: int| 0 <= i < record_total(data@) ==> #[trigger] legible(data@, i)
                &&& forall|i: int|
                    0 <= i < record_total(data@) ==> i16_at(out@, 2 * i) == cut16(evaluation(#[trigger] position_at(data@, i)))
            },
            Err(i) => {
                &&& 0 <= i < record_total(data@)
                &&& !legible(data@, i as int)
                &&& forall|k: int| 0 <= k < i ==> #[trigger] legible(data@, k)
            },
        },
{
    let n: usize = data.len() / RECORD_SIZE;
    let mut out: Vec<u8> = Vec::new();
    let mut i: usize = 0;
    while i < n
        invariant
            i <= n,
            n == record_total(data@),
            out@.len() == 2 * i,
            forall|k: int| 0 <= k < i ==> #[trigger] legible(data@, k),
            forall|k: int| 0 <= k < i ==> i16_at(out@, 2 * k) == cut16(evaluation(#[trigger] position_at(data@, k))),
        decreases n - i,
    {
        let pos: [u8; 27] = pos_bytes(data, i);
        match read_position(&pos) {
            Ok(board) => {
                assert(legible(data@, i as int) && position_at(data@, i as int) == board@);
                let e: i32 = evaluate(&board);
                let c: i16 = if e < -32768 {
                    -32768
                } else if e > 32767 {
                    32767
                } else {
                    e as i16
                };
                let ghost before = out@;
                let (lo, hi): (u8, u8) = i16_bytes(c);
                out.push(lo);
                out.push(hi);
                assert forall|k: int| 0 <= k < i + 1 implies i16_at(out@, 2 * k) == cut16(
                    evaluation(#[trigger] position_at(data@, k)),
                ) by {
                    if k < i {
                        assert(i16_at(before, 2 * k) == cut16(evaluation(position_at(data@, k))));
                        assert(out@[2 * k] == before[2 * k] && out@[2 * k + 1] == before[2 * k + 1]);
                    }
                }
            },
            Err(_) => {
                assert(!legible(data@, i as int));
                return Err(i);
            },
        }
        i = i + 1;
    }
    Ok(out)
}

/// The line that names a record for another program: number, score and FEN. None where the bytes
/// name no men.
pub fn dump_line(data: &[u8], i: usize) -> (r: Option<String>)
    requires
        i < record_total(data@),
    ensures
        match r {
            Some(t) => readable(pos_of(data@, i as int)) && t@ == numeral(i as nat) + seq!['\t'] + signed_numeral(
                score_of(data@, i as int),
            ) + seq!['\t'] + record_fen(pos_of(data@, i as int)),
            None => !readable(pos_of(data@, i as int)),
        },
{
    let pos: [u8; 27] = pos_bytes(data, i);
    if !can_read(&pos) {
        return None;
    }
    let len: usize = data.len();
    assert(32 * i + 32 <= len);
    let score: i16 = read_i16(data, 32 * i + 27);
    let fen: String = unpack_to_fen(&pos);
    let mut out = String::new();
    push_number(&mut out, i as u128);
    out.push('\t');
    push_signed(&mut out, score as i64);
    out.push('\t');
    append(&mut out, fen.as_str());
    assert(out@ =~= numeral(i as nat) + seq!['\t'] + signed_numeral(score_of(data@, i as int)) + seq!['\t'] + record_fen(
        pos_of(data@, i as int),
    ));
    Some(out)
}

/// How two ways of evaluating the records of a file compare.
pub struct Agreement {
    pub total: usize,
    pub mismatches: usize,
    /// The first record on which they differ, and what each says.
    pub first: Option<(usize, i32, i32)>,
}

/// Evaluates the positions of a file with the network twice, with and without the shortcuts of
/// the fast way. They never differ.
pub fn check_forward(net: &Network, data: &[u8], limit: usize) -> (r: Agreement)
    requires
        net.usable(),
    ensures
        r.total == if record_total(data@) < limit {
            record_total(data@)
        } else {
            limit as int
        },
        r.mismatches == 0,
        r.first is None,
{
    let all: usize = data.len() / RECORD_SIZE;
    let n: usize = if all < limit {
        all
    } else {
        limit
    };
    let mut r = Agreement { total: n, mismatches: 0, first: None };
    let mut i: usize = 0;
    while i < n
        invariant
            i <= n,
            n <= record_total(data@),
            net.usable(),
            r.total == n,
            r.mismatches == 0,
            r.first is None,
        decreases n - i,
    {
        let pos: [u8; 27] = pos_bytes(data, i);
        match read_position(&pos) {
            Ok(board) => {
                let acc: Acc = acc_from(net, &board);
                let stm: u8 = board.side_to_move();
                let fast: i32 = forward(net, &acc.w, &acc.b, stm);
                let want: i32 = forward_scalar(net, &acc.w, &acc.b, stm);
                if fast != want {
                    r.mismatches = r.mismatches + 1;
                    if r.first.is_none() {
                        r.first = Some((i, fast, want));
                    }
                }
            },
            Err(_) => {},
        }
        i = i + 1;
    }
    r
}

/// Record `i` on which the network and a reference differ.
pub open spec fn differs(net: Network, d: Seq<u8>, refs: Seq<u8>, i: int) -> bool {
    scratch_eval(net, position_at(d, i)) != i32_at(refs, 4 * i)
}

pub open spec fn differences(net: Network, d: Seq<u8>, refs: Seq<u8>, n: nat) -> int
    decreases n,
{
    if n == 0 {
        0
    } else {
        differences(net, d, refs, (n - 1) as nat) + if differs(net, d, refs, n - 1) {
            1int
        } else {
            0
        }
    }
}

/// Compares the network's verdict on each record with a reference of four bytes a record. The
/// number of the first record that cannot be read, if there is one.
pub fn check_reference(net: &Network, data: &[u8], refs: &[u8]) -> (r: Result<Agreement, usize>)
    requires
        net.usable(),
        refs@.len() == 4 * record_total(data@),
    ensures
        match r {
            Ok(a) => {
                &&& a.total == record_total(data@)
                &&& forall|i: int| 0 <= i < record_total(data@) ==> #[trigger] legible(data@, i)
                &&& a.mismatches == differences(*net, data@, refs@, a.total as nat)
                &&& match a.first {
                    Some((i, got, want)) => {
                        &&& i < a.total
                        &&& got == scratch_eval(*net, position_at(data@, i as int))
                        &&& want == i32_at(refs@, 4 * i)
                        &&& got != want
                        &&& differences(*net, data@, refs@, i as nat) == 0
                    },
                    None => a.mismatches == 0,
                }
            },
            Err(i) => i < record_total(data@) && !legible(data@, i as int) && forall|k: int|
                0 <= k < i ==> #[trigger] legible(data@, k),
        },
{
    let n: usize = data.len() / RECORD_SIZE;
    let len: usize = refs.len();
    let mut r = Agreement { total: n, mismatches: 0, first: None };
    let mut i: usize = 0;
    while i < n
        invariant
            i <= n,
            n == record_total(data@),
            len == refs@.len(),
            refs@.len() == 4 * n,
            net.usable(),
            r.total == n,
            r.mismatches <= i,
            r.mismatches == differences(*net, data@, refs@, i as nat),
            forall|k: int| 0 <= k < i ==> #[trigger] legible(data@, k),
            match r.first {
                Some((j, got, want)) => {
                    &&& j < i
                    &&& got == scratch_eval(*net, position_at(data@, j as int))
                    &&& want == i32_at(refs@, 4 * j)
                    &&& got != want
                    &&& differences(*net, data@, refs@, j as nat) == 0
                },
                None => r.mismatches == 0,
            },
        decreases n - i,
    {
        let pos: [u8; 27] = pos_bytes(data, i);
        match read_position(&pos) {
            Ok(board) => {
                assert(legible(data@, i as int) && position_at(data@, i as int) == board@);
                let got: i32 = eval_scratch(net, &board);
                let want: i32 = read_i32(refs, 4 * i);
                if got != want {
                    if r.first.is_none() {
                        r.first = Some((i, got, want));
                    }
                    r.mismatches = r.mismatches + 1;
                }
            },
            Err(_) => {
                assert(!legible(data@, i as int));
                return Err(i);
            },
        }
        i = i + 1;
    }
    Ok(r)
}

// ---------------- laws ----------------
/// Scores are counted in nine bins of five pawns each from -20 pawns on, and those beyond in the
/// outermost.
pub proof fn law_bins_are_five_pawns_wide(score: int)
    ensures
        0 <= bin(score) <= 8,
        -2000 <= score < 2500 ==> 500 * bin(score) - 2000 <= score || score >= 2000,
        -2000 <= score <= 2000 ==> 500 * bin(score) - 2000 <= score < 500 * bin(score) - 1500,
        score <= -2000 ==> bin(score) == 0,
        score >= 2000 ==> bin(score) == 8,
        bin(score) <= bin(score + 1),
{
}

/// About two thousand records are looked into closely, and every one of a smaller file.
pub proof fn law_samples_are_about_two_thousand(n: int)
    requires
        n >= 0,
    ensures
        stride(n) >= 1,
        n < 4000 ==> stride(n) == 1,
        n >= 2000 ==> 2000 * stride(n) <= n < 2000 * stride(n) + 2000,
{
}

/// A record of a file is 32 bytes: the position, then the score, then the result.
pub proof fn law_records_are_apart(d: Seq<u8>, i: int)
    requires
        0 <= i < record_total(d),
    ensures
        32 * record_total(d) <= d.len() < 32 * record_total(d) + 32,
        pos_of(d, i).len() == 27,
        forall|k: int| 0 <= k < 27 ==> #[trigger] pos_of(d, i)[k] == d[32 * i + k],
        score_of(d, i) == i16_at(d, 32 * i + 27),
        -0x8000 <= score_of(d, i) < 0x8000,
        wdl_of(d, i) == d[32 * i + 29],
{
}

/// Every record without a fault is counted under one result and in one bin.
pub proof fn law_records_are_counted_once(d: Seq<u8>, n: nat)
    requires
        first_fault(d, n) is None,
    ensures
        results(d, 0, n) + results(d, 1, n) + results(d, 2, n) == n,
        binned(d, 0, n) + binned(d, 1, n) + binned(d, 2, n) + binned(d, 3, n) + binned(d, 4, n) + binned(d, 5, n) + binned(
            d,
            6,
            n,
        ) + binned(d, 7, n) + binned(d, 8, n) == n,
        0 <= refused(d, n) <= n,
    decreases n,
{
    if n > 0 {
        law_records_are_counted_once(d, (n - 1) as nat);
        let s = score_of(d, n - 1);
        law_bins_are_five_pawns_wide(s);
    }
}

/// The first fault is a record's own, and none before it has one.
pub proof fn law_first_fault_comes_first(d: Seq<u8>, n: nat, m: nat)
    requires
        m <= n <= usize::MAX,
    ensures
        first_fault(d, m) is Some ==> first_fault(d, n) == first_fault(d, m),
        first_fault(d, n) matches Some(Fault::Result(i)) ==> i < n && d[32 * i + 29] > 2,
        first_fault(d, n) matches Some(Fault::Unreadable(i)) ==> i < n && !readable(d.subrange(32 * i, 32 * i + 27)),
    decreases n,
{
    if n > m {
        law_first_fault_comes_first(d, (n - 1) as nat, m);
    } else if n > 0 {
        law_first_fault_comes_first(d, (n - 1) as nat, (n - 1) as nat);
    }
}

/// One mean lies below another where the sums do, each for as many records as the other has; the order
/// is strict.
pub proof fn law_means_are_compared_by_cross_products(sum0: int, n0: int, sum1: int, n1: int)
    ensures
        n0 >= 1 && n1 >= 1 ==> (mean_below(sum0, n0, sum1, n1) <==> n1 * sum0 < n0 * sum1),
        !(mean_below(sum0, n0, sum1, n1) && mean_below(sum1, n1, sum0, n0)),
        n0 >= 1 ==> (mean_below(sum0, n0, sum1, n0) <==> sum0 < sum1),
{
    let (a, b) = (at_least_one(n0), at_least_one(n1));
    assert(sum0 * b == b * sum0 && sum1 * a == a * sum1) by (nonlinear_arith);
    assert(n0 >= 1 ==> (sum0 * n0 < sum1 * n0 <==> sum0 < sum1)) by (nonlinear_arith);
}

/// A verdict is cut to the range of a record's score.
pub proof fn law_scores_fit_a_record(x: int)
    ensures
        -0x8000 <= cut16(x) <= 0x7fff,
        -0x8000 <= x <= 0x7fff ==> cut16(x) == x,
        x > 0x7fff ==> cut16(x) == 0x7fff,
        x < -0x8000 ==> cut16(x) == -0x8000,
{
}

/// A file's results and scores are sound where nothing is refused and positions that were lost scored
/// less on average than drawn ones, and those less than won ones.
pub proof fn law_sound_data_scores_by_result(s: Summary)
    requires
        s.wdl@[0] >= 1,
        s.wdl@[1] >= 1,
        s.wdl@[2] >= 1,
    ensures
        s.sound() <==> s.refused == 0 && s.wdl@[1] * s.scores@[0] < s.wdl@[0] * s.scores@[1] && s.wdl@[2] * s.scores@[1] < s.wdl@[1]
            * s.scores@[2],
{
    law_means_are_compared_by_cross_products(s.scores@[0] as int, s.wdl@[0] as int, s.scores@[1] as int, s.wdl@[1] as int);
    law_means_are_compared_by_cross_products(s.scores@[1] as int, s.wdl@[1] as int, s.scores@[2] as int, s.wdl@[2] as int);
}

/// There are no differences exactly where no verdict differs from its reference.
pub proof fn law_no_differences_means_none(net: Network, d: Seq<u8>, refs: Seq<u8>, n: nat)
    ensures
        0 <= differences(net, d, refs, n) <= n,
        differences(net, d, refs, n) == 0 <==> forall|i: int| 0 <= i < n ==> !#[trigger] differs(net, d, refs, i),
    decreases n,
{
    if n > 0 {
        law_no_differences_means_none(net, d, refs, (n - 1) as nat);
        if differences(net, d, refs, n) == 0 {
            assert forall|i: int| 0 <= i < n implies !#[trigger] differs(net, d, refs, i) by {}
        } else if !differs(net, d, refs, n - 1) {
            let i = choose|i: int| 0 <= i < n - 1 && #[trigger] differs(net, d, refs, i);
            assert(differs(net, d, refs, i));
        }
    }
}

} // verus!

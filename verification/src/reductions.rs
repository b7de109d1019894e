//! The base table of late move reductions.
use vstd::prelude::*;
use crate::tune::{at_least_one, lmr_base, lmr_div, Params};

verus! {

/// The natural logarithms of the numbers below 64, in units of two to the power of -54; nothing
/// for zero, whose entry is not used.
pub const LOGS: [u64; 64] = [
    0, 0, 0x2c5c85fdf473de, 0x464fa9eab40c2a,
    0x58b90bfbe8e7bd, 0x670107dfb634ce, 0x72ac2fe8a88009, 0x7c89cab8c9695d,
    0x851591f9dd5b9b, 0x8c9f53d5681855, 0x935d8dddaaa8ac, 0x99771dbbf9ba5e,
    0x9f08b5e69cf3e7, 0xa42821598c6288, 0xa8e650b6bddd3c, 0xad50b1ca6a40f8,
    0xb17217f7d1cf7a, 0xb5535e0fd3fbce, 0xb8fbd9d35c8c33, 0xbc71b030259964,
    0xbfba13db9f1c8b, 0xc2d974a37d7588, 0xc5d3a3b9ee2e3c, 0xc8abefee8d9f80,
    0xcb653be49167c6, 0xce020fbf6c699b, 0xd084a75780d666, 0xd2eefdc01c247f,
    0xd542d6b4b2511a, 0xd781c65e6ff0f6, 0xd9ad37c85eb4d6, 0xdbc67244895ad0,
    0xddce9df5c64358, 0xdfc6c7a6adc688, 0xe1afe40dc86fad, 0xe38ad2987f9e2b,
    0xe5585fd1510012, 0xe7194771d63dea, 0xe8ce362e1a0d42, 0xea77cb44406eb2,
    0xec1699d9939069, 0xedab2a2c75626d, 0xef35faa171e966, 0xf0b780b0a76089,
    0xf23029b7e2a21b, 0xf3a05bb51e4d22, 0xf50875ec82135f, 0xf668d17c8785b3,
    0xf7c1c1e285dba4, 0xf913957192d2bb, 0xfa5e95bd60dd7a, 0xfba307fa8807f9,
    0xfce12d55754a45, 0xfe19434111e556, 0xff4b83be10985e, 0x10078259bafef2b,
    0x1019f5cb2a6c4f9, 0x102c15a1ad9a58e, 0x103de4c5c6464d4, 0x104f65f9c72978b,
    0x10609bdc65328b5, 0x107188eb126c0ce, 0x10822f8427dceae, 0x109291e8e3181b2,
];

/// Ten thousand times the product of two logarithms, cut to a whole number.
pub open spec fn log_product(d: int, m: int) -> int {
    LOGS@[d] * LOGS@[m] / 0x1000_0000 * 10_000 / 0x1_0000_0000_0000_0000_0000
}

/// A number of hundredths, and a fraction of one where there is `more`, as a whole number, cut
/// towards zero.
pub open spec fn cut(hundredths: int, more: bool) -> int {
    if hundredths >= 0 {
        hundredths / 100
    } else {
        -(-(hundredths + if more {
            1int
        } else {
            0
        }) / 100)
    }
}

/// A number as near as eight bits come to it.
pub open spec fn saturated(x: int) -> int {
    if x < -128 {
        -128
    } else if x > 127 {
        127
    } else {
        x
    }
}

/// The reduction of a move by its depth and number: the base plus the product of both logarithms
/// over the divisor, base and divisor in hundredths, cut to a whole number.
pub open spec fn reduction_at(p: Params, d: int, m: int) -> int {
    if d <= 0 || m <= 0 {
        0
    } else {
        saturated(cut(p.lmr_base + log_product(d, m) / at_least_one(p.lmr_div) as int, d > 1 && m > 1))
    }
}

/// The reduction table of some parameters has a row of 64 move numbers for each of 64 depths.
pub open spec fn reduction_table(t: Seq<i8>, p: Params) -> bool {
    &&& t.len() == 4096
    &&& forall|d: int, m: int|
        #![trigger t[64 * d + m]]
        0 <= d < 64 && 0 <= m < 64 ==> t[64 * d + m] == reduction_at(p, d, m)
}

/// The reduction of a move by its depth and number.
fn base_reduction(p: &Params, d: usize, m: usize) -> (r: i8)
    requires
        d < 64,
        m < 64,
    ensures
        r == reduction_at(*p, d as int, m as int),
{
    if d == 0 || m == 0 {
        return 0;
    }
    let a: u64 = LOGS[d];
    let b: u64 = LOGS[m];
    assert(0 <= a * b <= 0xffff_ffff_ffff_ffff * 0xffff_ffff_ffff_ffff) by (nonlinear_arith)
        requires
            0 <= a <= 0xffff_ffff_ffff_ffff,
            0 <= b <= 0xffff_ffff_ffff_ffff,
    ;
    let k: u128 = (a as u128 * b as u128) / 0x1000_0000 * 10_000 / 0x1_0000_0000_0000_0000_0000;
    assert(k == log_product(d as int, m as int));
    let div: i64 = lmr_div(p) as i64;
    let share: i64 = k as i64 / div;
    assert(0 <= share <= k) by (nonlinear_arith)
        requires
            share == k as int / div as int,
            div >= 1,
            k >= 0,
    ;
    let sum: i64 = lmr_base(p) as i64 + share;
    let v: i64 = if sum >= 0 {
        sum / 100
    } else if d > 1 && m > 1 {
        -(-(sum + 1) / 100)
    } else {
        -(-sum / 100)
    };
    if v < -128 {
        -128
    } else if v > 127 {
        127
    } else {
        v as i8
    }
}

/// Builds the reduction table of some parameters.
pub fn build_lmr_table(p: &Params) -> (r: Vec<i8>)
    ensures
        reduction_table(r@, *p),
{
    let mut t: Vec<i8> = Vec::with_capacity(4096);
    let mut d: usize = 0;
    while d < 64
        invariant
            d <= 64,
            t@.len() == 64 * d,
            forall|e: int, m: int|
                #![trigger t@[64 * e + m]]
                0 <= e < d && 0 <= m < 64 ==> t@[64 * e + m] == reduction_at(*p, e, m),
        decreases 64 - d,
    {
        let mut m: usize = 0;
        while m < 64
            invariant
                m <= 64,
                d < 64,
                t@.len() == 64 * d + m,
                forall|e: int, k: int|
                    #![trigger t@[64 * e + k]]
                    0 <= e < d && 0 <= k < 64 ==> t@[64 * e + k] == reduction_at(*p, e, k),
                forall|k: int| 0 <= k < m ==> #[trigger] t@[64 * d + k] == reduction_at(*p, d as int, k),
            decreases 64 - m,
        {
            t.push(base_reduction(p, d, m));
            m = m + 1;
        }
        d = d + 1;
    }
    t
}

// ---------------- laws ----------------
/// A reduction is the same for a move number and a depth exchanged, never falls as the base is
/// raised, and is the base alone, in whole plies towards nothing, for a first move or a last ply.
pub proof fn law_reductions_are_even_handed(p: Params, q: Params, d: int, m: int)
    requires
        0 <= d < 64,
        0 <= m < 64,
        p.lmr_base <= q.lmr_base,
        p.lmr_div == q.lmr_div,
    ensures
        reduction_at(p, d, m) == reduction_at(p, m, d),
        reduction_at(p, d, m) <= reduction_at(q, d, m),
        reduction_at(p, 0, m) == 0,
        -128 <= reduction_at(p, d, m) <= 127,
        m >= 1 && 0 <= p.lmr_base < 12_800 ==> 100 * reduction_at(p, 1, m) <= p.lmr_base < 100 * reduction_at(p, 1, m) + 100,
        m >= 1 && -12_800 < p.lmr_base <= 0 ==> 100 * reduction_at(p, 1, m) - 100 < p.lmr_base <= 100 * reduction_at(p, 1, m),
{
    assert(LOGS@[d] * LOGS@[m] == LOGS@[m] * LOGS@[d]) by (nonlinear_arith);
    assert(LOGS@[1] == 0);
    assert(LOGS@[1] * LOGS@[m] == 0) by (nonlinear_arith)
        requires
            LOGS@[1] == 0,
    ;
}

/// Later moves and deeper nodes are never reduced less.
pub proof fn law_later_moves_are_reduced_more(p: Params, d: int, m: int)
    requires
        1 <= d < 63,
        1 <= m < 64,
    ensures
        reduction_at(p, d, m) <= reduction_at(p, d + 1, m),
        reduction_at(p, m, d) <= reduction_at(p, m, d + 1),
{
    lemma_logs_rise(d);
    lemma_logs_rise(if m < 63 {
        m
    } else {
        62
    });
    let (a, b, c) = (LOGS@[d] as int, LOGS@[d + 1] as int, LOGS@[m] as int);
    assert(a * c <= b * c && c * a == a * c && c * b == b * c) by (nonlinear_arith)
        requires
            a <= b,
            c >= 0,
    ;
    let div = at_least_one(p.lmr_div) as int;
    let (x, y) = (log_product(d, m), log_product(d + 1, m));
    assert(x <= y);
    assert(x >= 0) by {
        assert(a * c >= 0) by (nonlinear_arith)
            requires
                a >= 0,
                c >= 0,
        ;
    }
    vstd::arithmetic::div_mod::lemma_div_is_ordered(x, y, div);
    assert(log_product(m, d) == x && log_product(m, d + 1) == y);
}

proof fn lemma_logs_rise(i: int)
    requires
        1 <= i < 63,
    ensures
        LOGS@[i] <= LOGS@[i + 1],
{
}

} // verus!

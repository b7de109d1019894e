//! Policy head on the shared accumulators: a score for every mover, origin and destination,
//! used to order quiet moves.
use vstd::prelude::*;
use crate::eval::turned;
use crate::board::{
    accepted, legal_moves, legal_shape, mover, opposite, wf, Move, PosView, Position, BLACK, WHITE,
};
use crate::bytes::{as_i8, read_u32, u32_at};
use crate::nnue::{
    acc_from, activation, clipped, half_of, law_turned_boards_exchange_perspectives, magic, Acc,
    Network,
};
use crate::text::{numeral, push_number, push_signed, signed_numeral};
use crate::tt::signed8;

verus! {

/// Piece times origin times destination.
pub const N_CLASSES: usize = 24576;

pub const DIM: usize = 512;

pub struct Policy {
    /// A row of 512 weights for each class.
    pub w: Vec<i8>,
}

impl Policy {
    pub open spec fn wf(&self) -> bool {
        self.w@.len() == N_CLASSES * DIM
    }
}

/// Why a policy file is refused.
#[derive(Clone, Copy, PartialEq, Eq, Structural, Debug)]
pub enum PolicyError {
    BadMagic,
    /// Classes and inputs the file was made for.
    Shape(u32, u32),
    BadSize,
}

/// "PZP1".
pub open spec fn magic_policy(d: Seq<u8>) -> bool {
    magic(d, 0x50, 0x5a, 0x50, 0x31)
}

/// What is wrong with a policy file: it has not the mark, is made for another shape, or has
/// another size.
pub open spec fn file_fault(d: Seq<u8>) -> Option<PolicyError> {
    if d.len() < 12 || !magic_policy(d) {
        Some(PolicyError::BadMagic)
    } else if u32_at(d, 4) != N_CLASSES || u32_at(d, 8) != DIM {
        Some(PolicyError::Shape(u32_at(d, 4) as u32, u32_at(d, 8) as u32))
    } else if d.len() != 12 + N_CLASSES * DIM {
        Some(PolicyError::BadSize)
    } else {
        None
    }
}

/// Reads a policy from the bytes of its file.
pub fn load(data: &[u8]) -> (r: Result<Policy, PolicyError>)
    ensures
        match r {
            Err(e) => file_fault(data@) == Some(e),
            Ok(p) => file_fault(data@) is None && p.wf() && forall|i: int|
                0 <= i < N_CLASSES * DIM ==> #[trigger] p.w@[i] == signed8(data@[12 + i] as int) && p.w@[i] == weight_of(data@, i),
        },
{
    let len: usize = data.len();
    if len < 12 || !(data[0] == 0x50 && data[1] == 0x5a && data[2] == 0x50 && data[3] == 0x31) {
        return Err(PolicyError::BadMagic);
    }
    let nc: u32 = read_u32(data, 4);
    let dim: u32 = read_u32(data, 8);
    if nc != 24576 || dim != 512 {
        return Err(PolicyError::Shape(nc, dim));
    }
    let n: usize = N_CLASSES * DIM;
    if len != 12 + n {
        return Err(PolicyError::BadSize);
    }
    let mut w: Vec<i8> = Vec::with_capacity(n);
    let mut i: usize = 0;
    while i < n
        invariant
            i <= n,
            len == data@.len(),
            len == 12 + n,
            w@.len() == i,
            forall|k: int| 0 <= k < i ==> #[trigger] w@[k] == signed8(data@[12 + k] as int),
        decreases n - i,
    {
        w.push(as_i8(data[12 + i]));
        i = i + 1;
    }
    Ok(Policy { w })
}

fn clip(x: i16) -> (r: i32)
    ensures
        r == crate::nnue::clipped(x as int),
{
    if x < 0 {
        0
    } else if x > 127 {
        127
    } else {
        x as i32
    }
}

/// The inputs of the head: both perspectives, clipped, the mover's first.
pub fn activations(acc: &Acc, stm: u8) -> (r: [i32; 512])
    requires
        stm < 2,
    ensures
        forall|k: int| 0 <= k < 512 ==> #[trigger] r@[k] == activation(acc.w@, acc.b@, stm, k),
{
    let mut act: [i32; 512] = [0;512];
    let mut i: usize = 0;
    while i < 256
        invariant
            i <= 256,
            forall|k: int| 0 <= k < i ==> #[trigger] act@[k] == activation(acc.w@, acc.b@, stm, k),
            forall|k: int| 256 <= k < 256 + i ==> #[trigger] act@[k] == activation(acc.w@, acc.b@, stm, k),
        decreases 256 - i,
    {
        if stm == WHITE {
            act[i] = clip(acc.w[i]);
            act[256 + i] = clip(acc.b[i]);
        } else {
            act[i] = clip(acc.b[i]);
            act[256 + i] = clip(acc.w[i]);
        }
        i = i + 1;
    }
    act
}

/// The class of a move.
pub open spec fn class_of(p: PosView, m: Move) -> int {
    mover(p, m) * 4096 + m.from * 64 + m.to
}

pub fn move_class(board: &Position, mv: Move) -> (r: usize)
    requires
        wf(board@),
        mv.from < 64,
        mv.to < 64,
        board@.men[mv.from as int] is Some,
    ensures
        r == class_of(board@, mv),
        r < N_CLASSES,
{
    let piece: u8 = match board.man(mv.from) {
        Some((p, _c)) => {
            assert(board@.men[mv.from as int] == Some((p, _c)));
            p
        },
        None => 0,
    };
    piece as usize * 4096 + mv.from as usize * 64 + mv.to as usize
}

/// The first `n` products of a class's score.
pub open spec fn logit_sum(pol: Policy, act: Seq<i32>, class: int, n: int) -> int
    decreases n,
{
    if n <= 0 {
        0
    } else {
        logit_sum(pol, act, class, n - 1) + act[n - 1] * pol.w@[class * 512 + n - 1]
    }
}

proof fn lemma_product(a: int, w: int)
    by (nonlinear_arith)
    requires
        0 <= a <= 127,
        -128 <= w <= 127,
    ensures
        -16256 <= a * w <= 16256,
{
}

/// The score of a class.
pub fn logit(pol: &Policy, act: &[i32; 512], class: usize) -> (r: i32)
    requires
        pol.wf(),
        class < N_CLASSES,
        forall|k: int| 0 <= k < 512 ==> 0 <= #[trigger] act@[k] <= 127,
    ensures
        r == logit_sum(*pol, act@, class as int, 512),
        -8_323_072 <= r <= 8_323_072,
{
    let mut s: i32 = 0;
    let mut i: usize = 0;
    while i < 512
        invariant
            i <= 512,
            pol.wf(),
            class < N_CLASSES,
            forall|k: int| 0 <= k < 512 ==> 0 <= #[trigger] act@[k] <= 127,
            s == logit_sum(*pol, act@, class as int, i as int),
            -16256 * i <= s <= 16256 * i,
        decreases 512 - i,
    {
        proof {
            lemma_product(act@[i as int] as int, pol.w@[class * 512 + i] as int);
        }
        s = s + act[i] * pol.w[class * 512 + i] as i32;
        i = i + 1;
    }
    s
}

/// The policy of a running engine: loaded at most once.
pub struct PolicySlot {
    pub policy: Option<std::sync::Arc<Policy>>,
}

/// Why a policy was not taken into use.
#[derive(Clone, Copy, PartialEq, Eq, Structural, Debug)]
pub enum PolicyUse {
    Refused(PolicyError),
    AlreadyLoaded,
}

/// Takes a policy file into use. A file is looked at before it matters whether one is in use.
pub fn load_global(slot: &mut PolicySlot, data: &[u8]) -> (r: Result<(), PolicyUse>)
    ensures
        match r {
            Ok(()) => old(slot).policy is None && file_fault(data@) is None && final(slot).policy is Some && final(slot).policy->0.wf() && forall|i: int|
                0 <= i < N_CLASSES * DIM ==> #[trigger] final(slot).policy->0.w@[i] == signed8(
                    data@[12 + i] as int,
                ),
            Err(PolicyUse::AlreadyLoaded) => old(slot).policy is Some && file_fault(data@) is None && *final(slot) == *old(slot),
            Err(PolicyUse::Refused(e)) => file_fault(data@) == Some(e) && *final(slot) == *old(slot),
        },
{
    match load(data) {
        Err(e) => Err(PolicyUse::Refused(e)),
        Ok(p) => {
            if slot.policy.is_some() {
                Err(PolicyUse::AlreadyLoaded)
            } else {
                slot.policy = Some(std::sync::Arc::new(p));
                Ok(())
            }
        },
    }
}

/// The policy in use.
pub fn policy(slot: &PolicySlot) -> (r: Option<std::sync::Arc<Policy>>)
    ensures
        r == slot.policy,
{
    match &slot.policy {
        Some(p) => Some(p.clone()),
        None => None,
    }
}

// ---------------- for another program to check ----------------
/// The inputs of the head in a position.
pub open spec fn inputs_of(net: Network, p: PosView) -> Seq<i32> {
    Seq::new(
        512,
        |k: int| activation(half_of(net, p.men, WHITE), half_of(net, p.men, BLACK), p.side, k) as i32,
    )
}

/// A line for each of the first `n` legal moves: the record's number, the move's class and its
/// score.
pub open spec fn lines_text(net: Network, pol: Policy, p: PosView, index: nat, n: nat) -> Seq<char>
    decreases n,
{
    if n == 0 {
        Seq::empty()
    } else {
        let c = class_of(p, legal_moves(p)[n - 1]);
        lines_text(net, pol, p, index, (n - 1) as nat) + numeral(index) + seq![' '] + numeral(c as nat) + seq![' ']
            + signed_numeral(logit_sum(pol, inputs_of(net, p), c, 512)) + seq!['\n']
    }
}

/// The policy's scores of all legal moves of a position, a line each.
pub fn policy_lines(net: &Network, pol: &Policy, board: &Position, index: usize) -> (r: String)
    requires
        net.usable(),
        pol.wf(),
        wf(board@),
    ensures
        r@ == lines_text(*net, *pol, board@, index as nat, legal_moves(board@).len()),
{
    let acc: Acc = acc_from(net, board);
    assert(acc.w@ =~= half_of(*net, board@.men, WHITE));
    assert(acc.b@ =~= half_of(*net, board@.men, BLACK));
    let act: [i32; 512] = activations(&acc, board.side_to_move());
    assert(act@ =~= inputs_of(*net, board@));
    let moves = board.moves();
    let n: usize = moves.len();
    let mut out = String::new();
    let mut i: usize = 0;
    while i < n
        invariant
            i <= n,
            n == moves@.len(),
            moves@ == legal_moves(board@),
            forall|k: int| 0 <= k < moves@.len() ==> legal_shape(board@, #[trigger] moves@[k]),
            wf(board@),
            pol.wf(),
            act@ == inputs_of(*net, board@),
            forall|k: int| 0 <= k < 512 ==> 0 <= #[trigger] act@[k] <= 127,
            out@ == lines_text(*net, *pol, board@, index as nat, i as nat),
        decreases n - i,
    {
        let mv: Move = moves[i];
        assert(legal_shape(board@, moves@[i as int]));
        let c: usize = move_class(board, mv);
        let l: i32 = logit(pol, &act, c);
        let ghost before = out@;
        push_number(&mut out, index as u128);
        out.push(' ');
        push_number(&mut out, c as u128);
        out.push(' ');
        push_signed(&mut out, l as i64);
        out.push('\n');
        i = i + 1;
        assert(out@ =~= before + numeral(index as nat) + seq![' '] + numeral(c as nat) + seq![' '] + signed_numeral(
            l as int,
        ) + seq!['\n']);
    }
    out
}

// ---------------- laws ----------------
/// A class tells the moving piece and both squares.
pub proof fn law_classes_tell_moves_apart(p: PosView, m: Move)
    requires
        m.from < 64,
        m.to < 64,
        mover(p, m) < 6,
    ensures
        class_of(p, m) % 64 == m.to,
        class_of(p, m) / 64 % 64 == m.from,
        class_of(p, m) / 4096 == mover(p, m),
        0 <= class_of(p, m) < 24_576,
{
}

/// A class whose weights are one for a single input and nothing for the others scores that input.
pub proof fn law_policy_weights_stand_in_rows(pol: Policy, act: Seq<i32>, class: int, k: int, n: int)
    requires
        0 <= k < 512,
        0 <= n <= 512,
        forall|i: int| 0 <= i < 512 ==> #[trigger] pol.w@[class * 512 + i] == (if i == k {
            1i8
        } else {
            0i8
        }),
    ensures
        logit_sum(pol, act, class, n) == if k < n {
            act[k] as int
        } else {
            0
        },
    decreases n,
{
    if n > 0 {
        law_policy_weights_stand_in_rows(pol, act, class, k, n - 1);
        assert(pol.w@[class * 512 + (n - 1)] == (if n - 1 == k {
            1i8
        } else {
            0i8
        }));
        assert(class * 512 + n - 1 == class * 512 + (n - 1));
        let a = act[n - 1] as int;
        assert(a * 1 == a && a * 0 == 0);
    }
}

/// The head sees the mover's accumulator first, and so sees a board turned round with the other side
/// to move as it sees the board.
pub proof fn law_policy_has_no_favourite(net: Network, p: PosView, q: PosView, k: int)
    requires
        accepted(p),
        q.men == turned(p.men),
        q.side == opposite(p.side),
        0 <= k < 256,
    ensures
        inputs_of(net, q) == inputs_of(net, p),
        inputs_of(net, p)[k] == clipped(half_of(net, p.men, p.side)[k] as int),
        inputs_of(net, p)[256 + k] == clipped(half_of(net, p.men, opposite(p.side))[k] as int),
{
    law_turned_boards_exchange_perspectives(net, p, WHITE);
    law_turned_boards_exchange_perspectives(net, p, BLACK);
    assert(inputs_of(net, q) =~= inputs_of(net, p));
}

/// A policy file names 24,576 classes of 512 inputs and holds a byte for each.
pub proof fn law_policy_files_have_one_size(d: Seq<u8>)
    ensures
        file_fault(d) is None ==> d.len() == 12_582_924 && u32_at(d, 4) == 24_576 && u32_at(d, 8) == 512,
        d.len() < 12 ==> file_fault(d) is Some,
        d.len() == 12_582_924 && magic_policy(d) && u32_at(d, 4) == 24_576 && u32_at(d, 8) == 512 ==> file_fault(d) is None,
{
}

/// Weight `i` of a policy file.
pub open spec fn weight_of(d: Seq<u8>, i: int) -> int {
    signed8(d[12 + i] as int)
}

/// A policy file ends with its last weight.
pub proof fn law_policy_weights_fill_the_file(d: Seq<u8>, i: int)
    requires
        file_fault(d) is None,
        0 <= i < 12_582_912,
    ensures
        weight_of(d, i) == signed8(d[d.len() - 12_582_912 + i] as int),
        -128 <= weight_of(d, i) <= 127,
{
}

} // verus!

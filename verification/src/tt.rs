//! Transposition table: clusters of four slots, each a packed data word beside the key folded
//! with it. A slot whose two words do not belong together never matches the key it is asked for.
use vstd::prelude::*;
use crate::board::{legal_shape, Move, PosView};

verus! {

pub const BOUND_NONE: u8 = 0;
pub const BOUND_EXACT: u8 = 1;
pub const BOUND_LOWER: u8 = 2;
pub const BOUND_UPPER: u8 = 3;

/// The code of a promotion in a packed move.
pub open spec fn promo_code(promotion: Option<u8>) -> int {
    match promotion {
        Some(q) => if 1 <= q <= 4 {
            q as int
        } else {
            0
        },
        None => 0,
    }
}

/// A move in sixteen bits: origin, destination, promotion.
pub open spec fn packed(m: Move) -> int {
    m.from + 64 * m.to + 4096 * promo_code(m.promotion)
}

pub fn pack(mv: Move) -> (r: u16)
    requires
        mv.from < 64,
        mv.to < 64,
    ensures
        r == packed(mv),
{
    let promo: u16 = match mv.promotion {
        None => 0,
        Some(q) => if q >= 1 && q <= 4 {
            q as u16
        } else {
            0
        },
    };
    let f: u16 = mv.from as u16;
    let t: u16 = mv.to as u16;
    assert(f | (t << 6u16) | (promo << 12u16) == f + 64 * t + 4096 * promo) by (bit_vector)
        requires
            f < 64,
            t < 64,
            promo <= 4,
    ;
    f | (t << 6) | (promo << 12)
}

/// A packed legal move is never zero, the value that stands for no move.
pub proof fn law_packed_move_is_not_zero(p: PosView, m: Move)
    requires
        legal_shape(p, m),
    ensures
        0 < packed(m) < 0x8000,
{
}

/// Two legal moves with the same packing are the same move.
pub proof fn law_packing_tells_moves_apart(p: PosView, a: Move, b: Move)
    requires
        legal_shape(p, a),
        legal_shape(p, b),
        packed(a) == packed(b),
    ensures
        a == b,
{
    assert(promo_code(a.promotion) == promo_code(b.promotion));
    assert(a.from == b.from && a.to == b.to);
}

/// What a probe hands back.
#[derive(Clone, Copy, PartialEq, Eq, Structural, Debug)]
pub struct Entry {
    pub mv: u16,
    pub score: i16,
    pub depth: i8,
    pub bound: u8,
}

impl Default for Entry {
    fn default() -> (r: Entry)
        ensures
            r == (Entry { mv: 0, score: 0, depth: 0, bound: BOUND_NONE }),
    {
        Entry { mv: 0, score: 0, depth: 0, bound: BOUND_NONE }
    }
}

/// Sixteen bits read as a signed number.
pub open spec fn signed16(x: int) -> int {
    if x >= 0x8000 {
        x - 0x10000
    } else {
        x
    }
}

/// Eight bits read as a signed number.
pub open spec fn signed8(x: int) -> int {
    if x >= 0x80 {
        x - 0x100
    } else {
        x
    }
}

pub open spec fn data_mv(d: u64) -> int {
    d as int % 0x10000
}

pub open spec fn data_score(d: u64) -> int {
    signed16((d as int / 0x1_0000) % 0x10000)
}

pub open spec fn data_depth(d: u64) -> int {
    signed8((d as int / 0x1_0000_0000) % 0x100)
}

pub open spec fn data_bound(d: u64) -> int {
    (d as int / 0x100_0000_0000) % 0x100
}

pub open spec fn data_age(d: u64) -> int {
    (d as int / 0x1_0000_0000_0000) % 0x100
}

/// `d` holds these five fields and nothing above them.
pub open spec fn data_holds(d: u64, mv: u16, score: i16, depth: i8, bound: u8, age: u8) -> bool {
    &&& data_mv(d) == mv
    &&& data_score(d) == score
    &&& data_depth(d) == depth
    &&& data_bound(d) == bound
    &&& data_age(d) == age
    &&& d < 0x100_0000_0000_0000
}

/// A signed number as the sixteen bits that hold it.
pub open spec fn bits16(x: i16) -> int {
    if x < 0 {
        x + 0x10000
    } else {
        x as int
    }
}

/// A signed number as the eight bits that hold it.
pub open spec fn bits8(x: i8) -> int {
    if x < 0 {
        x + 0x100
    } else {
        x as int
    }
}

pub open spec fn data_word(mv: u16, score: i16, depth: i8, bound: u8, age: u8) -> int {
    mv + 0x1_0000 * bits16(score) + 0x1_0000_0000 * bits8(depth) + 0x100_0000_0000 * bound
        + 0x1_0000_0000_0000 * age
}

/// The data word of five fields. Layout: move, score, depth, bound, age from the low end.
pub fn pack_data(mv: u16, score: i16, depth: i8, bound: u8, age: u8) -> (r: u64)
    ensures
        r == data_word(mv, score, depth, bound, age),
        data_holds(r, mv, score, depth, bound, age),
{
    let s: u16 = score as u16;
    let d: u8 = depth as u8;
    proof {
        assert(score as u16 == bits16(score)) by (bit_vector);
        assert(depth as u8 == bits8(depth)) by (bit_vector);
    }
    let m64: u64 = mv as u64;
    let s64: u64 = s as u64;
    let d64: u64 = d as u64;
    let b64: u64 = bound as u64;
    let a64: u64 = age as u64;
    let r: u64 = m64 | (s64 << 16) | (d64 << 32) | (b64 << 40) | (a64 << 48);
    assert(r % 0x10000 == m64 && (r / 0x1_0000) % 0x10000 == s64 && (r / 0x1_0000_0000) % 0x100
        == d64 && (r / 0x100_0000_0000) % 0x100 == b64 && (r / 0x1_0000_0000_0000) % 0x100 == a64
        && r < 0x100_0000_0000_0000 && r == m64 + 0x1_0000 * s64 + 0x1_0000_0000 * d64
        + 0x100_0000_0000 * b64 + 0x1_0000_0000_0000 * a64) by (bit_vector)
        requires
            r == m64 | (s64 << 16u64) | (d64 << 32u64) | (b64 << 40u64) | (a64 << 48u64),
            m64 < 0x10000,
            s64 < 0x10000,
            d64 < 0x100,
            b64 < 0x100,
            a64 < 0x100,
    ;
    r
}

pub fn unpack_data(data: u64) -> (r: (u16, i16, i8, u8, u8))
    ensures
        r.0 == data_mv(data),
        r.1 == data_score(data),
        r.2 == data_depth(data),
        r.3 == data_bound(data),
        r.4 == data_age(data),
{
    let s: u16 = (data >> 16) as u16;
    let d: u8 = (data >> 32) as u8;
    proof {
        assert(data as u16 == data % 0x10000) by (bit_vector);
        assert((data >> 16) as u16 == (data / 0x1_0000) % 0x10000) by (bit_vector);
        assert((data >> 32) as u8 == (data / 0x1_0000_0000) % 0x100) by (bit_vector);
        assert((data >> 40) as u8 == (data / 0x100_0000_0000) % 0x100) by (bit_vector);
        assert((data >> 48) as u8 == (data / 0x1_0000_0000_0000) % 0x100) by (bit_vector);
        assert(s as i16 == if s >= 0x8000 {
            s - 0x10000
        } else {
            s as int
        }) by (bit_vector);
        assert(d as i8 == if d >= 0x80 {
            d - 0x100
        } else {
            d as int
        }) by (bit_vector);
    }
    (data as u16, s as i16, d as i8, (data >> 40) as u8, (data >> 48) as u8)
}

/// Packing loses nothing: two sets of fields with the same data word are the same.
pub proof fn law_data_word_tells_fields_apart(
    d: u64,
    mv: u16,
    score: i16,
    depth: i8,
    bound: u8,
    age: u8,
    mv2: u16,
    score2: i16,
    depth2: i8,
    bound2: u8,
    age2: u8,
)
    requires
        data_holds(d, mv, score, depth, bound, age),
        data_holds(d, mv2, score2, depth2, bound2, age2),
    ensures
        mv == mv2 && score == score2 && depth == depth2 && bound == bound2 && age == age2,
{
}

#[derive(Clone, Copy, PartialEq, Eq, Structural, Debug)]
pub struct Slot {
    pub key_xor_data: u64,
    pub data: u64,
}

/// A SIMD register type, held here only for its alignment.
#[verifier::external_type_specification]
#[verifier::external_body]
pub struct ExLine(std::arch::x86_64::__m512i);

/// Four slots on one cache line: the empty array aligns it.
#[derive(Clone, Copy)]
pub struct Cluster {
    pub slots: [Slot; 4],
    pub line: [std::arch::x86_64::__m512i; 0],
}

impl Cluster {
    pub fn empty() -> (r: Cluster)
        ensures
            r.slots@ == empty_slots(),
    {
        let e = Slot { key_xor_data: 0, data: 0 };
        let r = Cluster { slots: [e, e, e, e], line: [] };
        assert(r.slots@ =~= empty_slots());
        r
    }
}

/// The slot holds an entry for `key`.
pub open spec fn slot_matches(s: Slot, key: u64) -> bool {
    (s.key_xor_data ^ s.data) == key && data_bound(s.data) != BOUND_NONE
}

/// The first slot from `i` on that matches, or four.
pub open spec fn first_match(c: Seq<Slot>, key: u64, i: int) -> int
    decreases 4 - i,
{
    if i >= 4 {
        4
    } else if slot_matches(c[i], key) {
        i
    } else {
        first_match(c, key, i + 1)
    }
}

pub open spec fn entry_of(d: u64) -> Entry {
    Entry {
        mv: data_mv(d) as u16,
        score: data_score(d) as i16,
        depth: data_depth(d) as i8,
        bound: data_bound(d) as u8,
    }
}

/// What a cluster answers for `key`.
pub open spec fn probed(c: Seq<Slot>, key: u64) -> Option<Entry> {
    let i = first_match(c, key, 0);
    if i < 4 {
        Some(entry_of(c[i].data))
    } else {
        None
    }
}

pub fn probe_cluster(c: &[Slot; 4], key: u64) -> (r: Option<Entry>)
    ensures
        r == probed(c@, key),
{
    let mut i: usize = 0;
    while i < 4
        invariant
            i <= 4,
            first_match(c@, key, 0) == first_match(c@, key, i as int),
        decreases 4 - i,
    {
        let slot: Slot = c[i];
        let (mv, score, depth, bound, _age) = unpack_data(slot.data);
        if slot.key_xor_data ^ slot.data == key && bound != BOUND_NONE {
            return Some(Entry { mv, score, depth, bound });
        }
        i = i + 1;
    }
    None
}

/// How many searches ago `old` was written: ages wrap around.
pub open spec fn age_gap(cur: u8, old: u8) -> int {
    if cur >= old {
        cur - old
    } else {
        cur - old + 256
    }
}

pub fn age_distance(cur: u8, old: u8) -> (r: i32)
    ensures
        r == age_gap(cur, old),
{
    cur.wrapping_sub(old) as i32
}

/// What a slot is worth keeping: its depth less eight plies per search since it was written;
/// an empty slot least of all.
pub open spec fn slot_value(s: Slot, age: u8) -> int {
    if data_bound(s.data) == BOUND_NONE {
        i32::MIN as int
    } else {
        data_depth(s.data) - 8 * age_gap(age, data_age(s.data) as u8)
    }
}

/// The first of the least valuable of the first `n` slots.
pub open spec fn victim(c: Seq<Slot>, age: u8, n: int) -> int
    decreases n,
{
    if n <= 1 {
        0
    } else {
        let v = victim(c, age, n - 1);
        if slot_value(c[n - 1], age) < slot_value(c[v], age) {
            n - 1
        } else {
            v
        }
    }
}

pub open spec fn clamp(x: int, lo: int, hi: int) -> int {
    if x < lo {
        lo
    } else if x > hi {
        hi
    } else {
        x
    }
}

/// A slot filled for `key`.
pub open spec fn slot_of(key: u64, mv: u16, score: i32, depth: i32, bound: u8, age: u8) -> Slot {
    let d = data_word(
        mv,
        clamp(score as int, -0x8000, 0x7fff) as i16,
        clamp(depth as int, -128, 127) as i8,
        bound,
        age,
    ) as u64;
    Slot { key_xor_data: key ^ d, data: d }
}

/// A store that leaves the slot of the same position alone: what is there is deeper and from this
/// search.
pub open spec fn keeps(old: u64, depth: i32, age: u8) -> bool {
    depth < data_depth(old) && data_age(old) == age
}

/// Where a result goes in a cluster and what is written there, if anything.
pub open spec fn placed(
    c: Seq<Slot>,
    key: u64,
    mv: u16,
    score: i32,
    depth: i32,
    bound: u8,
    age: u8,
) -> Option<(int, Slot)> {
    let i = first_match(c, key, 0);
    if i < 4 {
        if keeps(c[i].data, depth, age) {
            None
        } else {
            let kept = if mv == 0 {
                data_mv(c[i].data) as u16
            } else {
                mv
            };
            Some((i, slot_of(key, kept, score, depth, bound, age)))
        }
    } else {
        Some((victim(c, age, 4), slot_of(key, mv, score, depth, bound, age)))
    }
}

/// A cluster after a store.
pub open spec fn stored(
    c: Seq<Slot>,
    key: u64,
    mv: u16,
    score: i32,
    depth: i32,
    bound: u8,
    age: u8,
) -> Seq<Slot> {
    match placed(c, key, mv, score, depth, bound, age) {
        Some(w) => c.update(w.0, w.1),
        None => c,
    }
}

pub proof fn lemma_victim(c: Seq<Slot>, age: u8, n: int)
    requires
        1 <= n <= 4,
        c.len() == 4,
    ensures
        0 <= victim(c, age, n) < n,
        forall|i: int| 0 <= i < n ==> slot_value(c[victim(c, age, n)], age) <= slot_value(#[trigger] c[i], age),
    decreases n,
{
    if n > 1 {
        lemma_victim(c, age, n - 1);
    }
}

pub proof fn lemma_first_match(c: Seq<Slot>, key: u64, i: int)
    requires
        0 <= i <= 4,
        c.len() == 4,
    ensures
        i <= first_match(c, key, i) <= 4,
        forall|j: int| i <= j < first_match(c, key, i) ==> !slot_matches(#[trigger] c[j], key),
        first_match(c, key, i) < 4 ==> slot_matches(c[first_match(c, key, i)], key),
    decreases 4 - i,
{
    if i < 4 && !slot_matches(c[i], key) {
        lemma_first_match(c, key, i + 1);
    }
}

pub proof fn lemma_first_match_is(c: Seq<Slot>, key: u64, i: int, at: int)
    requires
        0 <= i <= at < 4,
        c.len() == 4,
        slot_matches(c[at], key),
        forall|j: int| i <= j < at ==> !slot_matches(#[trigger] c[j], key),
    ensures
        first_match(c, key, i) == at,
    decreases at - i,
{
    if i < at {
        lemma_first_match_is(c, key, i + 1, at);
    }
}

/// Decides where a result goes and what is written there. A slot of the same position is the
/// one to use, so that no position occurs twice; otherwise the least valuable slot gives way.
pub fn place(c: &[Slot; 4], key: u64, mv: u16, score: i32, depth: i32, bound: u8, age: u8) -> (r: Option<(usize, Slot)>)
    ensures
        match r {
            Some(w) => w.0 < 4 && placed(c@, key, mv, score, depth, bound, age) == Some((w.0 as int, w.1)),
            None => placed(c@, key, mv, score, depth, bound, age) is None,
        },
{
    let mut least: usize = 0;
    let mut least_value: i32 = i32::MAX;
    let mut found: Option<usize> = None;
    let mut i: usize = 0;
    while i < 4
        invariant_except_break
            i <= 4,
            found is None,
            first_match(c@, key, 0) == first_match(c@, key, i as int),
            i > 0 ==> least == victim(c@, age, i as int) && least_value == slot_value(c@[least as int], age),
            i == 0 ==> least == 0 && least_value == i32::MAX,
            least < 4,
        ensures
            match found {
                Some(k) => k < 4 && first_match(c@, key, 0) == k,
                None => first_match(c@, key, 0) == 4 && least < 4 && least == victim(c@, age, 4),
            },
        decreases 4 - i,
    {
        let slot: Slot = c[i];
        let (_mv, _score, old_depth, old_bound, old_age) = unpack_data(slot.data);
        if slot.key_xor_data ^ slot.data == key && old_bound != BOUND_NONE {
            found = Some(i);
            break;
        }
        let value: i32 = if old_bound == BOUND_NONE {
            i32::MIN
        } else {
            old_depth as i32 - 8 * age_distance(age, old_age)
        };
        assert(value == slot_value(c@[i as int], age));
        if value < least_value {
            least_value = value;
            least = i;
        }
        i = i + 1;
    }
    let (at, kept): (usize, u16) = match found {
        Some(k) => {
            let (old_mv, _score, old_depth, _bound, old_age) = unpack_data(c[k].data);
            if depth < old_depth as i32 && old_age == age {
                return None;
            }
            (k, if mv == 0 {
                old_mv
            } else {
                mv
            })
        },
        None => (least, mv),
    };
    let s: i16 = if score < -0x8000 {
        -0x8000
    } else if score > 0x7fff {
        0x7fff
    } else {
        score as i16
    };
    let d: i8 = if depth < -128 {
        -128
    } else if depth > 127 {
        127
    } else {
        depth as i8
    };
    let data: u64 = pack_data(kept, s, d, bound, age);
    Some((at, Slot { key_xor_data: key ^ data, data }))
}

pub open spec fn is_pow2(n: int) -> bool
    decreases n,
{
    n == 1 || (n > 1 && n % 2 == 0 && is_pow2(n / 2))
}

/// The slots a table of `mb` megabytes may hold.
pub open spec fn slot_budget(mb: usize) -> int {
    (if mb < 1 {
        1
    } else {
        mb as int
    }) * 0x10_0000 / 16
}

/// The transposition table of one search thread.
pub struct TT {
    pub clusters: Vec<Cluster>,
    pub n_slots: usize,
    /// One less than the number of clusters.
    pub mask: usize,
    pub age: u8,
}

/// A cluster that holds nothing.
pub open spec fn empty_slots() -> Seq<Slot> {
    Seq::new(4, |i: int| Slot { key_xor_data: 0, data: 0 })
}

/// The clusters of a table after a store: the one the key belongs to takes it in.
pub open spec fn table_after(t: Seq<Seq<Slot>>, key: u64, mv: u16, score: i32, depth: i32, bound: u8, age: u8) -> Seq<Seq<Slot>> {
    let h = key as int % t.len() as int;
    t.update(h, stored(t[h], key, mv, score, depth, bound, age))
}

impl TT {
    /// The slots of every cluster.
    pub open spec fn contents(&self) -> Seq<Seq<Slot>> {
        self.clusters@.map_values(|c: Cluster| c.slots@)
    }

    pub open spec fn wf(&self) -> bool {
        &&& self.clusters@.len() >= 1
        &&& self.clusters@.len() == self.mask + 1
        &&& self.n_slots == 4 * self.clusters@.len()
    }

    /// The cluster a key belongs to.
    pub open spec fn home(&self, key: u64) -> int {
        key as int % self.clusters@.len() as int
    }

    pub open spec fn slots_of(&self, key: u64) -> Seq<Slot> {
        self.clusters@[self.home(key)].slots@
    }

    /// A table of the largest power of two of slots that fits in `mb` megabytes, all empty.
    pub fn new(mb: usize) -> (r: TT)
        requires
            mb <= usize::MAX / 0x10_0000,
        ensures
            r.wf(),
            r.age == 0,
            is_pow2(r.n_slots as int),
            r.n_slots <= slot_budget(mb) < 2 * r.n_slots,
            forall|i: int| 0 <= i < r.clusters@.len() ==> (#[trigger] r.clusters@[i]).slots@ == empty_slots(),
            forall|key: u64| #[trigger] probed(r.slots_of(key), key) is None,
    {
        let megs: usize = if mb < 1 {
            1
        } else {
            mb
        };
        assert(megs * 0x10_0000 <= usize::MAX) by (nonlinear_arith)
            requires
                megs <= usize::MAX / 0x10_0000,
        ;
        let budget: usize = megs * 0x10_0000 / 16;
        let mut n: usize = 4;
        assert(is_pow2(4)) by {
            reveal_with_fuel(is_pow2, 3);
        }
        while n <= budget / 2
            invariant
                is_pow2(n as int),
                4 <= n <= budget,
                n % 4 == 0,
            decreases budget - n,
        {
            n = n * 2;
        }
        let count: usize = n / 4;
        let mut clusters: Vec<Cluster> = Vec::with_capacity(count);
        let mut i: usize = 0;
        while i < count
            invariant
                i <= count,
                clusters@.len() == i,
                forall|j: int|
                    0 <= j < i ==> (#[trigger] clusters@[j]).slots@ == empty_slots(),
            decreases count - i,
        {
            clusters.push(Cluster::empty());
            i = i + 1;
        }
        let r = TT { clusters, n_slots: n, mask: count - 1, age: 0 };
        proof {
            assert forall|key: u64| #[trigger] probed(r.slots_of(key), key) is None by {
                lemma_empty_cluster(r.slots_of(key), key);
            }
        }
        r
    }

    /// Total slots.
    pub fn n_slots(&self) -> (r: usize)
        requires
            self.wf(),
        ensures
            r == self.n_slots,
            r == 4 * self.clusters@.len(),
    {
        self.n_slots
    }

    /// The cluster `key` belongs to.
    pub fn cluster(&self, key: u64) -> (r: &[Slot; 4])
        requires
            self.wf(),
        ensures
            r@ == self.slots_of(key),
    {
        let i: usize = home_index(key, self.clusters.len());
        &self.clusters[i].slots
    }

    /// Forgets every entry.
    pub fn clear(&mut self)
        requires
            old(self).wf(),
        ensures
            final(self).wf(),
            final(self).clusters@.len() == old(self).clusters@.len(),
            final(self).age == 0,
            forall|i: int|
                0 <= i < final(self).clusters@.len() ==> (#[trigger] final(self).clusters@[i]).slots@ == empty_slots(),
            forall|key: u64| #[trigger] probed(final(self).slots_of(key), key) is None,
    {
        let mut i: usize = 0;
        let n: usize = self.clusters.len();
        while i < n
            invariant
                i <= n,
                n == self.clusters@.len(),
                self.wf(),
                self.clusters@.len() == old(self).clusters@.len(),
                forall|j: int|
                    0 <= j < i ==> (#[trigger] self.clusters@[j]).slots@ == empty_slots(),
            decreases n - i,
        {
            self.clusters[i] = Cluster::empty();
            i = i + 1;
        }
        self.age = 0;
        proof {
            assert forall|key: u64| #[trigger] probed(self.slots_of(key), key) is None by {
                lemma_empty_cluster(self.slots_of(key), key);
            }
        }
    }

    /// Starts a new search: entries written so far count as one search older.
    pub fn new_search(&mut self)
        requires
            old(self).wf(),
        ensures
            final(self).wf(),
            final(self).clusters == old(self).clusters,
            final(self).age == (old(self).age + 1) % 256,
    {
        self.age = self.age.wrapping_add(1);
    }

    pub fn probe(&self, key: u64) -> (r: Option<Entry>)
        requires
            self.wf(),
        ensures
            r == probed(self.slots_of(key), key),
    {
        probe_cluster(self.cluster(key), key)
    }

    pub fn store(&mut self, key: u64, mv: u16, score: i32, depth: i32, bound: u8)
        requires
            old(self).wf(),
        ensures
            final(self).wf(),
            final(self).age == old(self).age,
            final(self).clusters@.len() == old(self).clusters@.len(),
            final(self).slots_of(key) == stored(old(self).slots_of(key), key, mv, score, depth, bound, old(self).age),
            forall|i: int|
                0 <= i < old(self).clusters@.len() && i != old(self).home(key)
                    ==> #[trigger] final(self).clusters@[i] == old(self).clusters@[i],
            final(self).contents() == table_after(old(self).contents(), key, mv, score, depth, bound, old(self).age),
    {
        let i: usize = home_index(key, self.clusters.len());
        let mut cluster: Cluster = self.clusters[i];
        match place(&cluster.slots, key, mv, score, depth, bound, self.age) {
            Some((at, slot)) => {
                cluster.slots[at] = slot;
                self.clusters[i] = cluster;
            },
            None => {},
        }
        assert(self.contents() =~= table_after(old(self).contents(), key, mv, score, depth, bound, old(self).age)) by {
            assert(old(self).contents()[i as int] == old(self).slots_of(key));
        }
    }
}

/// Index of the cluster a key belongs to.
pub fn home_index(key: u64, clusters: usize) -> (r: usize)
    requires
        clusters >= 1,
    ensures
        r == key as int % clusters as int,
        r < clusters,
{
    (key % (clusters as u64)) as usize
}

pub proof fn lemma_empty_cluster(c: Seq<Slot>, key: u64)
    requires
        c == empty_slots(),
    ensures
        probed(c, key) is None,
{
    lemma_first_match(c, key, 0);
}

proof fn lemma_slot_of(key: u64, mv: u16, score: i32, depth: i32, bound: u8, age: u8)
    ensures
        ({
            let s = slot_of(key, mv, score, depth, bound, age);
            &&& (s.key_xor_data ^ s.data) == key
            &&& data_mv(s.data) == mv
            &&& data_score(s.data) == clamp(score as int, -0x8000, 0x7fff)
            &&& data_depth(s.data) == clamp(depth as int, -128, 127)
            &&& data_bound(s.data) == bound
            &&& data_age(s.data) == age
        }),
{
    let d = slot_of(key, mv, score, depth, bound, age).data;
    assert((key ^ d) ^ d == key) by (bit_vector);
    let sc = clamp(score as int, -0x8000, 0x7fff) as i16;
    let de = clamp(depth as int, -128, 127) as i8;
    lemma_data_word(mv, sc, de, bound, age);
}

proof fn lemma_data_word(mv: u16, score: i16, depth: i8, bound: u8, age: u8)
    ensures
        0 <= data_word(mv, score, depth, bound, age) < 0x100_0000_0000_0000,
        data_holds(data_word(mv, score, depth, bound, age) as u64, mv, score, depth, bound, age),
{
    let s = bits16(score);
    let d = bits8(depth);
    let x3 = bound + 0x100 * age;
    let x2 = d + 0x100 * x3;
    let x1 = s + 0x1_0000 * x2;
    let w = mv + 0x1_0000 * x1;
    assert(w == data_word(mv, score, depth, bound, age));
    assert(w / 0x1_0000 == x1 && w % 0x1_0000 == mv);
    assert(x1 / 0x1_0000 == x2 && x1 % 0x1_0000 == s);
    assert(x2 / 0x100 == x3 && x2 % 0x100 == d);
    assert(x3 / 0x100 == age && x3 % 0x100 == bound);
    assert(w / 0x1_0000_0000 == x2) by {
        assert(w / 0x1_0000_0000 == (w / 0x1_0000) / 0x1_0000);
    }
    assert(w / 0x100_0000_0000 == x3) by {
        assert(w / 0x100_0000_0000 == (w / 0x1_0000_0000) / 0x100);
    }
    assert(w / 0x1_0000_0000_0000 == age) by {
        assert(w / 0x1_0000_0000_0000 == (w / 0x100_0000_0000) / 0x100);
    }
}

/// A result that is stored is what the next probe of its key gives back: unless the store left
/// a deeper result of the same position alone, the entry has the stored bound, the score and
/// depth cut to their fields, and the stored move or, with none given, the one already known.
pub proof fn law_probe_returns_what_was_stored(
    c: Seq<Slot>,
    key: u64,
    mv: u16,
    score: i32,
    depth: i32,
    bound: u8,
    age: u8,
)
    requires
        c.len() == 4,
        bound != BOUND_NONE,
    ensures
        ({
            let i = first_match(c, key, 0);
            let after = stored(c, key, mv, score, depth, bound, age);
            if i < 4 && keeps(c[i].data, depth, age) {
                after == c
            } else {
                probed(after, key) == Some(
                    Entry {
                        mv: if mv == 0 && i < 4 {
                            data_mv(c[i].data) as u16
                        } else {
                            mv
                        },
                        score: clamp(score as int, -0x8000, 0x7fff) as i16,
                        depth: clamp(depth as int, -128, 127) as i8,
                        bound,
                    },
                )
            }
        }),
{
    let i = first_match(c, key, 0);
    lemma_first_match(c, key, 0);
    lemma_victim(c, age, 4);
    let after = stored(c, key, mv, score, depth, bound, age);
    if !(i < 4 && keeps(c[i].data, depth, age)) {
        let kept = if i < 4 && mv == 0 {
            data_mv(c[i].data) as u16
        } else {
            mv
        };
        let at = if i < 4 {
            i
        } else {
            victim(c, age, 4)
        };
        lemma_slot_of(key, kept, score, depth, bound, age);
        assert(after[at] == slot_of(key, kept, score, depth, bound, age));
        assert forall|j: int| 0 <= j < at implies !slot_matches(#[trigger] after[j], key) by {
            assert(after[j] == c[j]);
        }
        lemma_first_match_is(after, key, 0, at);
    }
}

/// A shallower result of the same search does not replace a deeper one of the same position, be it
/// exact or not.
pub proof fn law_shallow_result_keeps_deeper_one(
    c: Seq<Slot>,
    key: u64,
    mv: u16,
    score: i32,
    depth: i32,
    bound: u8,
    age: u8,
)
    requires
        c.len() == 4,
        first_match(c, key, 0) < 4,
        depth < data_depth(c[first_match(c, key, 0)].data),
        data_age(c[first_match(c, key, 0)].data) == age,
    ensures
        stored(c, key, mv, score, depth, bound, age) == c,
        probed(stored(c, key, mv, score, depth, bound, age), key) == probed(c, key),
{
}

/// Storing another position evicts no slot while the cluster has a less valuable one: a deep
/// entry outlives shallow, older and empty neighbours.
pub proof fn law_more_valuable_slot_survives(
    c: Seq<Slot>,
    key: u64,
    mv: u16,
    score: i32,
    depth: i32,
    bound: u8,
    age: u8,
    strong: int,
    weak: int,
)
    requires
        c.len() == 4,
        0 <= strong < 4,
        0 <= weak < 4,
        !slot_matches(c[strong], key),
        slot_value(c[weak], age) < slot_value(c[strong], age),
    ensures
        stored(c, key, mv, score, depth, bound, age)[strong] == c[strong],
{
    lemma_first_match(c, key, 0);
    lemma_victim(c, age, 4);
}

/// A store changes nothing that is known of other positions but the one it evicts: a probe of
/// another key answers as before, unless its entry stood in the slot that was overwritten.
pub proof fn law_store_leaves_other_positions_alone(
    c: Seq<Slot>,
    key: u64,
    mv: u16,
    score: i32,
    depth: i32,
    bound: u8,
    age: u8,
    other: u64,
)
    requires
        c.len() == 4,
        other != key,
        placed(c, key, mv, score, depth, bound, age) matches Some(w) ==> w.0 != first_match(c, other, 0),
    ensures
        probed(stored(c, key, mv, score, depth, bound, age), other) == probed(c, other),
{
    lemma_first_match(c, other, 0);
    lemma_first_match(c, key, 0);
    lemma_victim(c, age, 4);
    let after = stored(c, key, mv, score, depth, bound, age);
    match placed(c, key, mv, score, depth, bound, age) {
        None => {},
        Some(w) => {
            let i = first_match(c, key, 0);
            let kept = if i < 4 && mv == 0 {
                data_mv(c[i].data) as u16
            } else {
                mv
            };
            lemma_slot_of(key, kept, score, depth, bound, age);
            assert(!slot_matches(after[w.0], other));
            let k = first_match(c, other, 0);
            assert forall|j: int| 0 <= j < 4 && j < k implies !slot_matches(#[trigger] after[j], other) by {
                if j != w.0 {
                    assert(after[j] == c[j]);
                }
            }
            if k < 4 {
                assert(after[k] == c[k]);
                lemma_first_match_is(after, other, 0, k);
            } else {
                lemma_first_match(after, other, 0);
            }
        },
    }
}

// ---------------- over many stores ----------------
/// The key a slot was written for.
pub open spec fn slot_key(s: Slot) -> u64 {
    s.key_xor_data ^ s.data
}

pub open spec fn is_empty(s: Slot) -> bool {
    data_bound(s.data) == BOUND_NONE
}

/// No position occurs twice in a cluster.
pub open spec fn no_doubles(c: Seq<Slot>) -> bool {
    forall|i: int, j: int|
        0 <= i < j < c.len() && !is_empty(c[i]) && !is_empty(c[j]) ==> slot_key(#[trigger] c[i]) != slot_key(#[trigger] c[j])
}

/// A store keeps positions from occurring twice.
pub proof fn lemma_no_doubles(c: Seq<Slot>, key: u64, mv: u16, score: i32, depth: i32, bound: u8, age: u8)
    requires
        c.len() == 4,
        no_doubles(c),
    ensures
        no_doubles(stored(c, key, mv, score, depth, bound, age)),
{
    lemma_first_match(c, key, 0);
    lemma_victim(c, age, 4);
    match placed(c, key, mv, score, depth, bound, age) {
        None => {},
        Some(w) => {
            let i = first_match(c, key, 0);
            let kept = if i < 4 && mv == 0 {
                data_mv(c[i].data) as u16
            } else {
                mv
            };
            lemma_slot_of(key, kept, score, depth, bound, age);
            let after = stored(c, key, mv, score, depth, bound, age);
            assert(slot_key(after[w.0]) == key);
            assert forall|a: int, b: int|
                0 <= a < b < after.len() && !is_empty(after[a]) && !is_empty(after[b]) implies slot_key(#[trigger] after[a])
                != slot_key(#[trigger] after[b]) by {
                if a != w.0 && b != w.0 {
                    assert(c[a] == after[a] && c[b] == after[b]);
                } else {
                    let o = if a == w.0 {
                        b
                    } else {
                        a
                    };
                    assert(after[o] == c[o]);
                    if slot_key(c[o]) == key {
                        assert(slot_matches(c[o], key));
                        if i < 4 && o != i {
                            assert(o < i || (i < o && slot_key(c[i]) != slot_key(c[o])));
                        }
                    }
                }
            }
        },
    }
}

/// A new position takes an empty slot if there is one, and nothing known is lost. In a full cluster
/// exactly one position is lost, and it is the least valuable: the one of least depth, less eight
/// plies for each search since it was written.
pub proof fn law_least_valuable_position_gives_way(
    c: Seq<Slot>,
    key: u64,
    mv: u16,
    score: i32,
    depth: i32,
    bound: u8,
    age: u8,
    other: u64,
)
    requires
        c.len() == 4,
        no_doubles(c),
        probed(c, key) is None,
        bound != BOUND_NONE,
        other != key,
    ensures
        ({
            let after = stored(c, key, mv, score, depth, bound, age);
            let v = victim(c, age, 4);
            &&& probed(after, key) is Some
            &&& forall|i: int| 0 <= i < 4 ==> slot_value(c[v], age) <= slot_value(#[trigger] c[i], age)
            &&& (exists|i: int| 0 <= i < 4 && is_empty(#[trigger] c[i])) ==> probed(after, other) == probed(c, other)
            &&& (forall|i: int| 0 <= i < 4 ==> !is_empty(#[trigger] c[i])) ==> {
                &&& probed(c, slot_key(c[v])) is Some
                &&& probed(after, other) == if other == slot_key(c[v]) {
                    None
                } else {
                    probed(c, other)
                }
            }
        }),
{
    lemma_first_match(c, key, 0);
    lemma_first_match(c, other, 0);
    lemma_victim(c, age, 4);
    law_probe_returns_what_was_stored(c, key, mv, score, depth, bound, age);
    let v = victim(c, age, 4);
    let after = stored(c, key, mv, score, depth, bound, age);
    let k = first_match(c, other, 0);
    assert(placed(c, key, mv, score, depth, bound, age) == Some((v, slot_of(key, mv, score, depth, bound, age))));
    if exists|i: int| 0 <= i < 4 && is_empty(#[trigger] c[i]) {
        let e = choose|i: int| 0 <= i < 4 && is_empty(#[trigger] c[i]);
        assert(slot_value(c[v], age) <= slot_value(c[e], age));
        assert(is_empty(c[v]));
        assert(v != k);
        law_store_leaves_other_positions_alone(c, key, mv, score, depth, bound, age, other);
    } else {
        assert(!is_empty(c[v]));
        assert(slot_matches(c[v], slot_key(c[v])));
        lemma_first_match(c, slot_key(c[v]), 0);
        if other == slot_key(c[v]) {
            lemma_slot_of(key, mv, score, depth, bound, age);
            lemma_first_match(after, other, 0);
            let j = first_match(after, other, 0);
            if j < 4 {
                assert(slot_matches(after[j], other));
                if j == v {
                    assert(slot_key(after[v]) == key);
                } else {
                    assert(after[j] == c[j]);
                    assert(j < v ==> slot_key(c[j]) != slot_key(c[v]));
                    assert(v < j ==> slot_key(c[v]) != slot_key(c[j]));
                }
            }
        } else {
            if k == v {
                assert(slot_key(c[v]) == other);
            }
            law_store_leaves_other_positions_alone(c, key, mv, score, depth, bound, age, other);
        }
    }
}

/// What is done to a table.
pub enum Deed {
    Store { key: u64, mv: u16, score: i32, depth: i32, bound: u8 },
    NewSearch,
    Clear,
}

/// Clusters and age of a table of `n` clusters, new at first, after the first `k` deeds.
pub open spec fn table_history(n: nat, deeds: Seq<Deed>, k: int) -> (Seq<Seq<Slot>>, u8)
    decreases k,
{
    if k <= 0 {
        (Seq::new(n, |i: int| empty_slots()), 0)
    } else {
        let (t, age) = table_history(n, deeds, k - 1);
        match deeds[k - 1] {
            Deed::Store { key, mv, score, depth, bound } => (table_after(t, key, mv, score, depth, bound, age), age),
            Deed::NewSearch => (t, ((age + 1) % 256) as u8),
            Deed::Clear => (Seq::new(n, |i: int| empty_slots()), 0),
        }
    }
}

/// Deed `j` stored the result that a slot holds, in the cluster its key belongs to, and the table
/// has not been cleared since.
pub open spec fn stored_by(n: nat, deeds: Seq<Deed>, k: int, s: Slot, at: int, j: int) -> bool {
    &&& 0 <= j < k
    &&& forall|i: int| j <= i < k ==> !(#[trigger] deeds[i] is Clear)
    &&& deeds[j] matches Deed::Store { key, mv: _, score, depth, bound } && {
        &&& slot_key(s) == key
        &&& key as int % n as int == at
        &&& data_score(s.data) == clamp(score as int, -0x8000, 0x7fff)
        &&& data_depth(s.data) == clamp(depth as int, -128, 127)
        &&& data_bound(s.data) == bound
        &&& data_age(s.data) == table_history(n, deeds, j).1
    }
}

/// How many searches have begun since deed `j` when `k` deeds are done.
pub open spec fn searches_since(deeds: Seq<Deed>, j: int, k: int) -> nat
    decreases k,
{
    if k <= j || k <= 0 {
        0
    } else {
        searches_since(deeds, j, k - 1) + if deeds[k - 1] is NewSearch {
            1nat
        } else {
            0
        }
    }
}

/// Ages tell how many searches have begun, up to what they can hold.
proof fn lemma_ages(n: nat, deeds: Seq<Deed>, j: int, k: int)
    requires
        0 <= j <= k <= deeds.len(),
        forall|i: int| j <= i < k ==> !(#[trigger] deeds[i] is Clear),
    ensures
        age_gap(table_history(n, deeds, k).1, table_history(n, deeds, j).1) == searches_since(deeds, j, k) % 256,
    decreases k,
{
    if k > j {
        lemma_ages(n, deeds, j, k - 1);
        assert(!(deeds[k - 1] is Clear));
        let a = table_history(n, deeds, k - 1).1;
        let b = table_history(n, deeds, k).1;
        assert(b == if deeds[k - 1] is NewSearch {
            (a + 1) % 256
        } else {
            a as int
        });
        lemma_gap_grows(a, b, table_history(n, deeds, j).1, searches_since(deeds, j, k - 1));
    } else {
        assert(searches_since(deeds, j, k) == 0);
    }
}

proof fn lemma_gap_grows(a: u8, b: u8, from: u8, m: nat)
    requires
        age_gap(a, from) == m % 256,
    ensures
        b == (a + 1) % 256 ==> age_gap(b, from) == (m + 1) % 256,
{
}

proof fn lemma_history(n: nat, deeds: Seq<Deed>, k: int)
    requires
        n >= 1,
        0 <= k <= deeds.len(),
    ensures
        ({
            let t = table_history(n, deeds, k).0;
            &&& t.len() == n
            &&& forall|c: int| 0 <= c < n ==> (#[trigger] t[c]).len() == 4 && no_doubles(t[c])
            &&& forall|c: int, i: int|
                0 <= c < n && 0 <= i < 4 && !is_empty(#[trigger] t[c][i]) ==> exists|j: int|
                    stored_by(n, deeds, k, t[c][i], c, j)
        }),
    decreases k,
{
    let t = table_history(n, deeds, k).0;
    if k > 0 {
        lemma_history(n, deeds, k - 1);
        let (u, age) = table_history(n, deeds, k - 1);
        let m = k - 1;
        match deeds[k - 1] {
            Deed::Store { key, mv, score, depth, bound } => {
                let h = key as int % n as int;
                lemma_no_doubles(u[h], key, mv, score, depth, bound, age);
                lemma_first_match(u[h], key, 0);
                lemma_victim(u[h], age, 4);
                let f = first_match(u[h], key, 0);
                let kept = if f < 4 && mv == 0 {
                    data_mv(u[h][f].data) as u16
                } else {
                    mv
                };
                lemma_slot_of(key, kept, score, depth, bound, age);
                assert forall|c: int, i: int| 0 <= c < n && 0 <= i < 4 && !is_empty(#[trigger] t[c][i]) implies exists|j: int|
                    stored_by(n, deeds, k, t[c][i], c, j) by {
                    let w = placed(u[h], key, mv, score, depth, bound, age);
                    let here = c == h && (w matches Some(x) && i == x.0);
                    if here {
                        assert(stored_by(n, deeds, k, t[c][i], c, k - 1));
                    } else {
                        assert(t[c][i] == u[c][i]);
                        let j = choose|j: int| stored_by(n, deeds, m, u[c][i], c, j);
                        assert(stored_by(n, deeds, k, t[c][i], c, j));
                    }
                }
            },
            Deed::NewSearch => {
                assert forall|c: int, i: int| 0 <= c < n && 0 <= i < 4 && !is_empty(#[trigger] t[c][i]) implies exists|j: int|
                    stored_by(n, deeds, k, t[c][i], c, j) by {
                    assert(t[c][i] == u[c][i]);
                    let j = choose|j: int| stored_by(n, deeds, m, u[c][i], c, j);
                    assert(stored_by(n, deeds, k, t[c][i], c, j));
                }
            },
            Deed::Clear => {
                lemma_empty_bound();
            },
        }
    } else {
        lemma_empty_bound();
    }
}

proof fn lemma_empty_bound()
    ensures
        data_bound(0) == BOUND_NONE,
        is_empty(Slot { key_xor_data: 0, data: 0 }),
        no_doubles(empty_slots()),
{
}

/// What a table answers for a key.
pub open spec fn answered(t: Seq<Seq<Slot>>, key: u64) -> Option<Entry> {
    probed(t[key as int % t.len() as int], key)
}

/// What a table keeps a key for: the depth of its entry, less eight plies for each search since it
/// was written.
pub open spec fn worth(t: Seq<Seq<Slot>>, key: u64, age: u8) -> int {
    let c = t[key as int % t.len() as int];
    slot_value(c[first_match(c, key, 0)], age)
}

/// The keys a table answers for that share a cluster with a key.
pub open spec fn neighbours(t: Seq<Seq<Slot>>, key: u64) -> Set<u64> {
    Set::new(|k: u64| k as int % t.len() as int == key as int % t.len() as int && answered(t, k) is Some)
}

/// The keys of a cluster's entries are those that share it.
proof fn lemma_neighbours(n: nat, deeds: Seq<Deed>, key: u64)
    requires
        n >= 1,
    ensures
        ({
            let t = table_history(n, deeds, deeds.len() as int).0;
            let c = t[key as int % n as int];
            &&& forall|k: u64| #[trigger] neighbours(t, key).contains(k) ==> exists|i: int|
                0 <= i < 4 && slot_matches(#[trigger] c[i], k)
            &&& forall|i: int| 0 <= i < 4 && !is_empty(#[trigger] c[i]) ==> neighbours(t, key).contains(slot_key(c[i]))
        }),
{
    let t = table_history(n, deeds, deeds.len() as int).0;
    let h = key as int % n as int;
    let c = t[h];
    lemma_history(n, deeds, deeds.len() as int);
    assert forall|k: u64| #[trigger] neighbours(t, key).contains(k) implies exists|i: int|
        0 <= i < 4 && slot_matches(#[trigger] c[i], k) by {
        lemma_first_match(c, k, 0);
        assert(slot_matches(c[first_match(c, k, 0)], k));
    }
    assert forall|i: int| 0 <= i < 4 && !is_empty(#[trigger] c[i]) implies neighbours(t, key).contains(slot_key(c[i])) by {
        assert(!is_empty(t[h][i]));
        let j = choose|j: int| stored_by(n, deeds, deeds.len() as int, t[h][i], h, j);
        assert(slot_matches(c[i], slot_key(c[i])));
        lemma_first_match(c, slot_key(c[i]), 0);
    }
}

/// With an empty slot a cluster holds fewer than four keys.
proof fn lemma_room(c: Seq<Slot>, near: Set<u64>)
    requires
        exists|i: int| 0 <= i < 4 && is_empty(#[trigger] c[i]),
        forall|k: u64| #[trigger] near.contains(k) ==> exists|i: int| 0 <= i < 4 && slot_matches(#[trigger] c[i], k),
    ensures
        near.finite(),
        near.len() < 4,
{
    let e = choose|i: int| 0 <= i < 4 && is_empty(#[trigger] c[i]);
    let a = if e == 0 {
        1int
    } else {
        0
    };
    let b = if e <= 1 {
        2int
    } else {
        1
    };
    let d = if e <= 2 {
        3int
    } else {
        2
    };
    let three = set![slot_key(c[a]), slot_key(c[b]), slot_key(c[d])];
    assert forall|k: u64| #[trigger] near.contains(k) implies three.contains(k) by {
        let i = choose|i: int| 0 <= i < 4 && slot_matches(#[trigger] c[i], k);
        assert(slot_key(c[i]) == k);
        assert(i != e);
    }
    vstd::set_lib::lemma_len_subset(near, three);
}

/// A full cluster holds four keys.
proof fn lemma_full(c: Seq<Slot>, near: Set<u64>)
    requires
        c.len() == 4,
        no_doubles(c),
        forall|i: int| 0 <= i < 4 ==> !is_empty(#[trigger] c[i]),
        forall|k: u64| #[trigger] near.contains(k) ==> exists|i: int| 0 <= i < 4 && slot_matches(#[trigger] c[i], k),
        forall|i: int| 0 <= i < 4 && !is_empty(#[trigger] c[i]) ==> near.contains(slot_key(c[i])),
    ensures
        near.finite(),
        near.len() == 4,
{
    let all = set![slot_key(c[0]), slot_key(c[1]), slot_key(c[2]), slot_key(c[3])];
    assert forall|k: u64| #[trigger] near.contains(k) implies all.contains(k) by {
        let i = choose|i: int| 0 <= i < 4 && slot_matches(#[trigger] c[i], k);
        assert(slot_key(c[i]) == k);
    }
    assert(!is_empty(c[0]) && !is_empty(c[1]) && !is_empty(c[2]) && !is_empty(c[3]));
    assert(near =~= all);
}

/// No other slot has the key of one that is not empty.
proof fn lemma_only_match(c: Seq<Slot>, v: int)
    requires
        c.len() == 4,
        no_doubles(c),
        0 <= v < 4,
        !is_empty(c[v]),
    ensures
        first_match(c, slot_key(c[v]), 0) == v,
{
    assert(slot_matches(c[v], slot_key(c[v])));
    lemma_first_match(c, slot_key(c[v]), 0);
    let i = first_match(c, slot_key(c[v]), 0);
    if i != v {
        assert(slot_key(c[i]) == slot_key(c[v]));
        assert(!is_empty(c[i]));
    }
}

/// Whatever has been done to a table since it was new, of the positions that share a cluster with a
/// new one none is lost while there are fewer than four; of four exactly one is lost, and none of
/// them is worth less. Nothing else that the table answers changes.
pub proof fn law_table_loses_the_least_valuable_of_four(
    n: nat,
    deeds: Seq<Deed>,
    key: u64,
    mv: u16,
    score: i32,
    depth: i32,
    bound: u8,
)
    requires
        n >= 1,
        bound != BOUND_NONE,
        answered(table_history(n, deeds, deeds.len() as int).0, key) is None,
    ensures
        ({
            let (t, age) = table_history(n, deeds, deeds.len() as int);
            let after = table_after(t, key, mv, score, depth, bound, age);
            let near = neighbours(t, key);
            &&& answered(after, key) is Some
            &&& forall|k: u64| k != key && !near.contains(k) ==> #[trigger] answered(after, k) == answered(t, k)
            &&& near.finite()
            &&& near.len() <= 4
            &&& near.len() < 4 ==> forall|k: u64| near.contains(k) ==> #[trigger] answered(after, k) == answered(t, k)
            &&& near.len() == 4 ==> exists|lost: u64|
                {
                    &&& near.contains(lost)
                    &&& #[trigger] answered(after, lost) is None
                    &&& forall|k: u64| near.contains(k) ==> worth(t, lost, age) <= #[trigger] worth(t, k, age)
                    &&& forall|k: u64| near.contains(k) && k != lost ==> #[trigger] answered(after, k) == answered(t, k)
                }
        }),
{
    let (t, age) = table_history(n, deeds, deeds.len() as int);
    let h = key as int % n as int;
    let c = t[h];
    let after = table_after(t, key, mv, score, depth, bound, age);
    let near = neighbours(t, key);
    lemma_history(n, deeds, deeds.len() as int);
    lemma_neighbours(n, deeds, key);
    lemma_victim(c, age, 4);
    let v = victim(c, age, 4);
    assert forall|k: u64| k != key && k as int % n as int != h implies #[trigger] answered(after, k) == answered(t, k) by {
        assert(after[k as int % n as int] == t[k as int % n as int]);
    }
    if exists|i: int| 0 <= i < 4 && is_empty(#[trigger] c[i]) {
        lemma_room(c, near);
        assert forall|k: u64| k != key implies #[trigger] answered(after, k) == answered(t, k) by {
            if k as int % n as int == h {
                law_least_valuable_position_gives_way(c, key, mv, score, depth, bound, age, k);
            }
        }
    } else {
        lemma_full(c, near);
        let lost = slot_key(c[v]);
        lemma_first_match(c, key, 0);
        assert(lost != key) by {
            if lost == key {
                assert(slot_matches(c[v], key));
            }
        }
        assert(!is_empty(c[v]));
        assert(near.contains(lost));
        law_least_valuable_position_gives_way(c, key, mv, score, depth, bound, age, lost);
        assert(lost as int % n as int == h);
        assert(answered(after, lost) is None);
        assert forall|k: u64| k != key && k != lost implies #[trigger] answered(after, k) == answered(t, k) by {
            if k as int % n as int == h {
                law_least_valuable_position_gives_way(c, key, mv, score, depth, bound, age, k);
            }
        }
        assert forall|k: u64| near.contains(k) implies worth(t, lost, age) <= #[trigger] worth(t, k, age) by {
            lemma_only_match(c, v);
            lemma_first_match(c, k, 0);
            assert(k as int % n as int == h);
        }
    }
    let other: u64 = if key == 0 {
        1
    } else {
        0
    };
    law_least_valuable_position_gives_way(c, key, mv, score, depth, bound, age, other);
}

/// The age of an entry tells how many searches ago its result was stored, up to 256.
pub proof fn law_age_counts_searches(n: nat, deeds: Seq<Deed>, key: u64)
    requires
        n >= 1,
        answered(table_history(n, deeds, deeds.len() as int).0, key) is Some,
    ensures
        ({
            let (t, age) = table_history(n, deeds, deeds.len() as int);
            exists|j: int|
                {
                    &&& 0 <= j < deeds.len()
                    &&& #[trigger] deeds[j] matches Deed::Store { key: k, mv: _, score: _, depth: d, bound: _ } && k == key
                        && worth(t, key, age) == clamp(d as int, -128, 127) - 8 * (searches_since(
                        deeds,
                        j,
                        deeds.len() as int,
                    ) % 256)
                }
        }),
{
    let (t, age) = table_history(n, deeds, deeds.len() as int);
    let h = key as int % n as int;
    lemma_history(n, deeds, deeds.len() as int);
    lemma_first_match(t[h], key, 0);
    let i = first_match(t[h], key, 0);
    assert(!is_empty(t[h][i]));
    let j = choose|j: int| stored_by(n, deeds, deeds.len() as int, t[h][i], h, j);
    lemma_ages(n, deeds, j, deeds.len() as int);
    assert(deeds[j] is Store);
}

/// Whatever has been done to a table since it was new, a probe gives back nothing but what was
/// stored for exactly this key since the table was last cleared; and no position occurs twice.
pub proof fn law_probe_gives_only_what_was_stored(n: nat, deeds: Seq<Deed>, key: u64)
    requires
        n >= 1,
    ensures
        ({
            let c = table_history(n, deeds, deeds.len() as int).0[key as int % n as int];
            &&& no_doubles(c)
            &&& probed(c, key) matches Some(e) ==> e.bound != BOUND_NONE && exists|j: int|
                {
                    &&& 0 <= j < deeds.len()
                    &&& forall|i: int| j <= i < deeds.len() ==> !(#[trigger] deeds[i] is Clear)
                    &&& (#[trigger] deeds[j]) matches Deed::Store { key: k, mv: _, score, depth, bound } && {
                        &&& k == key
                        &&& e.score == clamp(score as int, -0x8000, 0x7fff)
                        &&& e.depth == clamp(depth as int, -128, 127)
                        &&& e.bound == bound
                    }
                }
        }),
{
    let h = key as int % n as int;
    let c = table_history(n, deeds, deeds.len() as int).0[h];
    lemma_history(n, deeds, deeds.len() as int);
    lemma_first_match(c, key, 0);
    let i = first_match(c, key, 0);
    if i < 4 {
        assert(!is_empty(c[i]));
        let j = choose|j: int| stored_by(n, deeds, deeds.len() as int, c[i], h, j);
        assert(deeds[j] is Store);
    }
}

// ---------------- tables that differ in deeper results ----------------
/// Two answers of a table that are the same, or both deeper than the leaves and with the same move.
pub open spec fn alike(a: Option<Entry>, b: Option<Entry>) -> bool {
    a == b || (a matches Some(x) && b matches Some(y) && x.depth > 0 && y.depth > 0 && x.mv == y.mv)
}

/// Two slots that differ at most in the score and bound of a result deeper than the leaves.
pub open spec fn slots_alike(a: Slot, b: Slot) -> bool {
    &&& slot_key(a) == slot_key(b)
    &&& is_empty(a) == is_empty(b)
    &&& data_mv(a.data) == data_mv(b.data)
    &&& data_depth(a.data) == data_depth(b.data)
    &&& data_age(a.data) == data_age(b.data)
    &&& data_depth(a.data) <= 0 ==> data_score(a.data) == data_score(b.data) && data_bound(a.data) == data_bound(b.data)
}

/// Two clusters of such slots.
pub open spec fn clusters_alike(c: Seq<Slot>, d: Seq<Slot>) -> bool {
    &&& c.len() == 4
    &&& d.len() == 4
    &&& forall|i: int| 0 <= i < 4 ==> slots_alike(#[trigger] c[i], d[i])
}

/// Two tables that differ at most in the scores and bounds of results deeper than the leaves.
pub open spec fn tables_alike(t: Seq<Seq<Slot>>, u: Seq<Seq<Slot>>) -> bool {
    &&& t.len() == u.len()
    &&& t.len() > 0
    &&& forall|i: int| 0 <= i < t.len() ==> clusters_alike(#[trigger] t[i], u[i])
}

proof fn lemma_alike_match(c: Seq<Slot>, d: Seq<Slot>, key: u64, i: int)
    requires
        clusters_alike(c, d),
        0 <= i <= 4,
    ensures
        first_match(c, key, i) == first_match(d, key, i),
        i <= first_match(c, key, i) <= 4,
    decreases 4 - i,
{
    if i < 4 {
        assert(slots_alike(c[i], d[i]));
        lemma_alike_match(c, d, key, i + 1);
    }
}

proof fn lemma_alike_victim(c: Seq<Slot>, d: Seq<Slot>, age: u8, n: int)
    requires
        clusters_alike(c, d),
        1 <= n <= 4,
    ensures
        victim(c, age, n) == victim(d, age, n),
        0 <= victim(c, age, n) < n,
    decreases n,
{
    if n > 1 {
        lemma_alike_victim(c, d, age, n - 1);
        assert(slots_alike(c[n - 1], d[n - 1]));
        assert(slots_alike(c[victim(c, age, n - 1)], d[victim(c, age, n - 1)]));
    }
}

/// Tables that are alike answer alike.
pub proof fn lemma_alike_answers(t: Seq<Seq<Slot>>, u: Seq<Seq<Slot>>, key: u64)
    requires
        tables_alike(t, u),
    ensures
        alike(answered(t, key), answered(u, key)),
{
    let h = key as int % t.len() as int;
    assert(clusters_alike(t[h], u[h]));
    lemma_alike_match(t[h], u[h], key, 0);
    let i = first_match(t[h], key, 0);
    if i < 4 {
        assert(slots_alike(t[h][i], u[h][i]));
    }
}

/// Tables that are alike stay so when the same result is stored in both.
pub proof fn lemma_alike_store(
    t: Seq<Seq<Slot>>,
    u: Seq<Seq<Slot>>,
    key: u64,
    mv: u16,
    score: i32,
    depth: i32,
    bound: u8,
    age: u8,
)
    requires
        tables_alike(t, u),
    ensures
        tables_alike(table_after(t, key, mv, score, depth, bound, age), table_after(u, key, mv, score, depth, bound, age)),
{
    let h = key as int % t.len() as int;
    let (c, d) = (t[h], u[h]);
    assert(clusters_alike(c, d));
    lemma_alike_match(c, d, key, 0);
    lemma_alike_victim(c, d, age, 4);
    let i = first_match(c, key, 0);
    if i < 4 {
        assert(slots_alike(c[i], d[i]));
    }
    assert(placed(c, key, mv, score, depth, bound, age) == placed(d, key, mv, score, depth, bound, age));
    let (e, f) = (stored(c, key, mv, score, depth, bound, age), stored(d, key, mv, score, depth, bound, age));
    assert forall|k: int| 0 <= k < 4 implies slots_alike(#[trigger] e[k], f[k]) by {
        assert(slots_alike(c[k], d[k]));
    }
    assert(clusters_alike(e, f));
    let (v, w) = (
        table_after(t, key, mv, score, depth, bound, age),
        table_after(u, key, mv, score, depth, bound, age),
    );
    assert forall|k: int| 0 <= k < v.len() implies clusters_alike(#[trigger] v[k], w[k]) by {
        if k != h {
            assert(clusters_alike(t[k], u[k]));
        }
    }
}

// ---------------- laws ----------------
/// A packed move tells its origin, its target and what it promotes to: nothing, or from a knight to a
/// queen.
pub proof fn law_packed_move_tells_its_squares(m: Move)
    requires
        m.from < 64,
        m.to < 64,
    ensures
        packed(m) % 64 == m.from,
        packed(m) / 64 % 64 == m.to,
        m.promotion is None ==> packed(m) / 4096 == 0,
        m.promotion matches Some(q) && 1 <= q <= 4 ==> packed(m) / 4096 == m.promotion->0,
        0 <= packed(m) < 0x5000,
{
}

/// The searches between two ages, counted round after 256.
pub proof fn law_age_gap_counts_searches(old: u8, g: int)
    requires
        0 <= g < 256,
    ensures
        age_gap(((old + g) % 256) as u8, old) == g,
{
}

/// A result is worth its depth, less eight plies for each search since; an empty slot is worth less
/// than anything.
pub proof fn law_results_lose_eight_plies_a_search(s: Slot, t: Slot, g: int, age: u8)
    requires
        0 <= g < 256,
        !is_empty(s),
        is_empty(t),
    ensures
        slot_value(s, ((data_age(s.data) + g) % 256) as u8) == data_depth(s.data) - 8 * g,
        slot_value(t, age) < slot_value(s, age),
{
    law_age_gap_counts_searches(data_age(s.data) as u8, g);
}

/// A table of so many megabytes has a slot for every sixteen bytes, and none has less than one
/// megabyte.
pub proof fn law_slots_fill_the_megabytes(mb: usize)
    ensures
        mb >= 1 ==> 16 * slot_budget(mb) == 1_048_576 * mb,
        slot_budget(0) == slot_budget(1),
{
}

} // verus!

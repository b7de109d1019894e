//! A transposition table that several search threads use at once. Slots are pairs of atomic
//! words; what a thread reads may be half of one write and half of another, and the folded key
//! then fails to match. The decisions are the ones of the single-threaded table.
use vstd::prelude::*;
use std::sync::atomic::{AtomicU64, AtomicU8, Ordering};
use std::sync::Arc;
use crate::tt::{answered, table_after, home_index, place, probe_cluster, Entry, Slot, TT};

verus! {

/// A table that is known: its slots and its age.
pub type Memory = Option<(Seq<Seq<Slot>>, u8)>;

/// What a search needs of a table. A probe may answer anything: other threads write too.
pub trait Table {
    /// The table is ready for use.
    spec fn ready(&self) -> bool;

    /// The slots of a table and its age, where they are known: no other thread writes.
    spec fn memory(&self) -> Memory;

    /// Whether a probe may be answered like this.
    spec fn may_answer(&self, key: u64, r: Option<Entry>) -> bool;

    /// Whether this is what becomes of a table in which a result is stored.
    spec fn took(&self, before: &Self, key: u64, mv: u16, score: i32, depth: i32, bound: u8) -> bool;

    /// Whether this is what becomes of a table when a search begins.
    spec fn renewed(&self, before: &Self) -> bool;

    /// Whether a table holds nothing, as far as that is known of it.
    spec fn emptied(&self) -> bool;

    fn lookup(&self, key: u64) -> (r: Option<Entry>)
        requires
            self.ready(),
        ensures
            self.may_answer(key, r),
            self.memory() matches Some(m) ==> r == answered(m.0, key),
    ;

    fn record(&mut self, key: u64, mv: u16, score: i32, depth: i32, bound: u8)
        requires
            old(self).ready(),
        ensures
            final(self).ready(),
            final(self).took(old(self), key, mv, score, depth, bound),
            old(self).memory() matches Some(m) ==> final(self).memory() == Some(
                (table_after(m.0, key, mv, score, depth, bound, m.1), m.1),
            ),
            old(self).memory() is None ==> final(self).memory() is None,
    ;

    fn begin_search(&mut self)
        requires
            old(self).ready(),
        ensures
            final(self).ready(),
            final(self).renewed(old(self)),
            old(self).memory() matches Some(m) ==> final(self).memory() == Some((m.0, ((m.1 + 1) % 256) as u8)),
    ;

    fn forget(&mut self)
        requires
            old(self).ready(),
        ensures
            final(self).ready(),
            final(self).emptied(),
    ;
}

impl Table for TT {
    open spec fn ready(&self) -> bool {
        self.wf()
    }

    open spec fn memory(&self) -> Memory {
        Some((self.contents(), self.age))
    }

    /// A table of one's own answers with what it holds.
    open spec fn may_answer(&self, key: u64, r: Option<Entry>) -> bool {
        r == crate::tt::probed(self.slots_of(key), key)
    }

    /// A table of one's own holds what the store makes of it.
    open spec fn took(&self, before: &Self, key: u64, mv: u16, score: i32, depth: i32, bound: u8) -> bool {
        self.age == before.age && self.contents() == table_after(before.contents(), key, mv, score, depth, bound, before.age)
    }

    /// A search ages what is there.
    open spec fn renewed(&self, before: &Self) -> bool {
        self.clusters == before.clusters && self.age == (before.age + 1) % 256
    }

    open spec fn emptied(&self) -> bool {
        forall|key: u64| #[trigger] crate::tt::probed(self.slots_of(key), key) is None
    }

    fn lookup(&self, key: u64) -> (r: Option<Entry>) {
        self.probe(key)
    }

    fn record(&mut self, key: u64, mv: u16, score: i32, depth: i32, bound: u8) {
        self.store(key, mv, score, depth, bound)
    }

    fn begin_search(&mut self) {
        self.new_search()
    }

    fn forget(&mut self) {
        self.clear()
    }
}

/// The table of a group of search threads.
pub struct SharedTT {
    /// Two words per slot, four slots per cluster.
    pub words: Vec<AtomicU64>,
    pub clusters: usize,
    pub age: AtomicU8,
}

fn word(n: u64) -> AtomicU64 {
    AtomicU64::new(n)
}

fn load(w: &AtomicU64) -> u64 {
    w.load(Ordering::Relaxed)
}

fn put(w: &AtomicU64, v: u64) {
    w.store(v, Ordering::Relaxed)
}

impl SharedTT {
    pub open spec fn wf(&self) -> bool {
        &&& self.clusters >= 1
        &&& self.words@.len() == 8 * self.clusters
    }

    /// As many empty clusters as a single-threaded table of `mb` megabytes has.
    pub fn new(mb: usize) -> (r: SharedTT)
        requires
            mb <= usize::MAX / 0x10_0000,
        ensures
            r.wf(),
            crate::tt::is_pow2(4 * r.clusters),
            4 * r.clusters <= crate::tt::slot_budget(mb) < 8 * r.clusters,
    {
        let sized = TT::new(mb);
        let clusters: usize = sized.clusters.len();
        let n: usize = sized.n_slots;
        let mut words: Vec<AtomicU64> = Vec::new();
        let mut i: usize = 0;
        while i < n
            invariant
                i <= n,
                words@.len() == 2 * i,
            decreases n - i,
        {
            words.push(word(0));
            words.push(word(0));
            i = i + 1;
        }
        SharedTT { words, clusters, age: AtomicU8::new(0) }
    }

    fn read(&self, base: usize) -> (r: [Slot; 4])
        requires
            base + 8 <= self.words@.len(),
    {
        let n: usize = self.words.len();
        let mut c = [Slot { key_xor_data: 0, data: 0 };4];
        let mut i: usize = 0;
        while i < 4
            invariant
                i <= 4,
                base + 8 <= n == self.words@.len(),
            decreases 4 - i,
        {
            c[i] = Slot {
                key_xor_data: load(&self.words[base + 2 * i]),
                data: load(&self.words[base + 2 * i + 1]),
            };
            i = i + 1;
        }
        c
    }

    pub fn probe(&self, key: u64) -> (r: Option<Entry>)
        requires
            self.wf(),
        ensures
            r matches Some(e) ==> e.bound != crate::tt::BOUND_NONE,
    {
        let h: usize = home_index(key, self.clusters);
        let n: usize = self.words.len();
        assert(8 * h + 8 <= n);
        let c = self.read(8 * h);
        proof {
            crate::tt::lemma_first_match(c@, key, 0);
        }
        probe_cluster(&c, key)
    }

    pub fn store(&self, key: u64, mv: u16, score: i32, depth: i32, bound: u8)
        requires
            self.wf(),
    {
        let h: usize = home_index(key, self.clusters);
        let n: usize = self.words.len();
        assert(8 * h + 8 <= n);
        let c = self.read(8 * h);
        match place(&c, key, mv, score, depth, bound, self.age.load(Ordering::Relaxed)) {
            Some((at, slot)) => {
                put(&self.words[8 * h + 2 * at + 1], slot.data);
                put(&self.words[8 * h + 2 * at], slot.key_xor_data);
            },
            None => {},
        }
    }

    pub fn new_search(&self) {
        let _ = self.age.fetch_add(1, Ordering::Relaxed);
    }

    pub fn clear(&self) {
        let n: usize = self.words.len();
        let mut i: usize = 0;
        while i < n
            invariant
                i <= n,
                n == self.words@.len(),
            decreases n - i,
        {
            put(&self.words[i], 0);
            i = i + 1;
        }
        self.age.store(0, Ordering::Relaxed);
    }
}

impl Table for Arc<SharedTT> {
    open spec fn ready(&self) -> bool {
        (**self).wf()
    }

    open spec fn memory(&self) -> Memory {
        None
    }

    /// Other threads write, so nothing is known of an answer but that it is no empty slot's.
    open spec fn may_answer(&self, key: u64, r: Option<Entry>) -> bool {
        r matches Some(e) ==> e.bound != crate::tt::BOUND_NONE
    }

    /// The table stays the one that is shared.
    open spec fn took(&self, before: &Self, key: u64, mv: u16, score: i32, depth: i32, bound: u8) -> bool {
        *self == *before
    }

    /// The table stays the one that is shared.
    open spec fn renewed(&self, before: &Self) -> bool {
        *self == *before
    }

    /// Nothing is known of what other threads have written since.
    open spec fn emptied(&self) -> bool {
        true
    }

    fn lookup(&self, key: u64) -> (r: Option<Entry>) {
        (**self).probe(key)
    }

    /// The table stays the one that is shared; what its words hold then is other threads' doing
    /// too.
    fn record(&mut self, key: u64, mv: u16, score: i32, depth: i32, bound: u8)
        ensures
            *final(self) == *old(self),
    {
        (**self).store(key, mv, score, depth, bound)
    }

    fn begin_search(&mut self)
        ensures
            *final(self) == *old(self),
    {
        (**self).new_search()
    }

    fn forget(&mut self)
        ensures
            *final(self) == *old(self),
    {
        (**self).clear()
    }
}

} // verus!

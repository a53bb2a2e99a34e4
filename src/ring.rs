//! The bounded message queue.
//!
//! A queue of capacity `1 << ORDER` is made of two index rings and a payload
//! array: the free ring holds the indices of the payload cells that may be
//! written, the ready ring those of the cells that hold a message waiting to
//! be received. Sending moves an index from the free ring to the ready ring
//! after writing the message at that index; receiving moves it back after
//! taking the message out.
//!
//! The index rings follow the single-width CAS variant of the Scalable
//! Circular Queue: two word-sized position counters, a table of twice as
//! many cells as entries, each cell tagged with the cycle of the position
//! that wrote it, and a threshold that lets a dequeue on a drained ring give
//! up early. Each ring is proved to behave as a FIFO of slot indices.
//!
//! Producer and consumer handles share one queue behind vstd's verified
//! reader-writer lock, whose predicate is the queue's well-formedness: every
//! send and receive runs with the queue to itself and leaves it well formed.
use std::sync::Arc;
use vstd::arithmetic::power2::{lemma2_to64, lemma_pow2_strictly_increases, pow2};
use vstd::bits::lemma_u64_shl_is_mul;
use vstd::prelude::*;
use vstd::rwlock::{RwLock, RwLockPredicate};
use vstd::seq_lib::{lemma_seq_union_to_multiset_commutative, to_multiset_build};
use crate::layout::{
    advance, free_for, holds, index_bits, lemma_blank_cell, lemma_counters,
    lemma_fill_free_cell, lemma_probe_free_cell, lemma_seeded_cell, lemma_slot,
    lemma_take_held_cell, lemma_window_distinct, lemma_window_step, retreat, ring_geometry,
    signed_gap, slot_of, tag_of, RING_MAX_ORDER, RING_MIN_ORDER,
};

verus! {

/// Cell word of a cell that was never written.
const RING_EMPTY_VAL: u64 = 0xffff_ffff_ffff_ffff;

/// Signed distance from `rhs` to `lhs` on the wrapping position counters.
fn sub_with_overflow(lhs: u64, rhs: u64) -> (r: i64)
    ensures
        r == signed_gap(lhs, rhs),
{
    let d = lhs.wrapping_sub(rhs);
    proof {
        assert(d == (lhs - rhs) as u64) by (bit_vector)
            requires
                d == lhs.wrapping_sub(rhs),
        ;
    }
    #[verifier::truncate]
    (d as i64)
}

/// A lock-free-style ring of slot indices in `0 .. 1 << ORDER`, used here
/// with exclusive access.
pub struct Ring<const ORDER: usize> {
    cells: Vec<u64>,
    head: u64,
    threshold: isize,
    tail: u64,
}

/// Number of entries of a ring of order `order`.
pub open spec fn entries_of(order: usize) -> u64 {
    1u64 << (order as u64)
}

/// Number of cells of a ring of order `order`.
pub open spec fn cells_of(order: usize) -> u64 {
    1u64 << ((order + 1) as u64)
}

/// Threshold of a ring that holds entries.
pub open spec fn busy_threshold(order: usize) -> int {
    entries_of(order) + cells_of(order) - 1
}

pub proof fn lemma_order(order: usize)
    requires
        order <= RING_MAX_ORDER,
    ensures
        ring_geometry(cells_of(order), (order + 1) as u64),
        entries_of(order) * 2 == cells_of(order),
        cells_of(order) / 2 == entries_of(order),
        1 <= entries_of(order) <= 0x1000_0000,
        index_bits(cells_of(order)) == cells_of(order) - 1,
        entries_of(order) == pow2(order as nat),
{
    let o = order as u64;
    lemma2_to64();
    if order < 28 {
        lemma_pow2_strictly_increases(order as nat, 28);
    }
    lemma_u64_shl_is_mul(1, o);
    let half = entries_of(order);
    let full = cells_of(order);
    assert(half * 2 == full && 1 <= half <= 0x1000_0000 && full == 1u64 << ((o + 1) as u64))
        by (bit_vector)
        requires
            o <= 28,
            half == 1u64 << o,
            full == 1u64 << ((o + 1) as u64),
    ;
}

/// The indices a free ring starts with: every slot index once, in the
/// order in which `slot_of` spreads them.
pub open spec fn seeded(order: usize) -> Seq<usize> {
    Seq::new(
        entries_of(order) as nat,
        |i: int| slot_of(i as u64, entries_of(order), order as u64) as usize,
    )
}

/// Each index in `0 .. 1 << order` appears exactly once in `seeded(order)`.
pub proof fn lemma_seeded(order: usize)
    requires
        order <= RING_MAX_ORDER,
    ensures
        seeded(order).len() == entries_of(order),
        seeded(order).no_duplicates(),
        forall|i: int| 0 <= i < seeded(order).len() ==> seeded(order)[i] < entries_of(order),
{
    lemma_order(order);
    let half = entries_of(order);
    let s = seeded(order);
    assert forall|i: int| 0 <= i < s.len() implies s[i] < half by {
        lemma_slot(i as u64, i as u64, half, order as u64);
    }
    assert forall|i: int, j: int| 0 <= i < s.len() && 0 <= j < s.len() && i != j implies s[i]
        != s[j] by {
        lemma_slot(i as u64, j as u64, half, order as u64);
        lemma_slot(j as u64, i as u64, half, order as u64);
    }
}

impl<const ORDER: usize> Ring<ORDER> {
    /// The word in the cell that backs the `j`-th position from the head.
    pub closed spec fn cell_at(&self, j: u64) -> u64 {
        self.cells@[slot_of(advance(self.head, j), cells_of(ORDER), (ORDER + 1) as u64) as int]
    }

    /// Number of indices in the ring.
    pub closed spec fn count(&self) -> u64 {
        retreat(self.tail, self.head)
    }

    pub closed spec fn wf(&self) -> bool {
        &&& ORDER <= RING_MAX_ORDER
        &&& self.cells@.len() == cells_of(ORDER)
        &&& self.count() <= entries_of(ORDER)
        &&& -1 <= self.threshold <= busy_threshold(ORDER)
        &&& self.count() > 0 ==> self.threshold == busy_threshold(ORDER)
        &&& forall|j: u64|
            j < cells_of(ORDER) ==> {
                let e = #[trigger] self.cell_at(j);
                let p = advance(self.head, j);
                if j < self.count() {
                    holds(e, p, cells_of(ORDER), e & index_bits(cells_of(ORDER)))
                        && e & index_bits(cells_of(ORDER)) < entries_of(ORDER)
                } else {
                    free_for(e, p, cells_of(ORDER))
                }
            }
    }

    /// The indices in the ring, oldest first.
    pub closed spec fn view(&self) -> Seq<usize> {
        Seq::new(
            self.count() as nat,
            |j: int| (self.cell_at(j as u64) & index_bits(cells_of(ORDER))) as usize,
        )
    }

    /// An empty ring.
    fn new() -> (r: Self)
        requires
            ORDER <= RING_MAX_ORDER,
        ensures
            r.wf(),
            r@.len() == 0,
            r.head == 0,
            r.tail == 0,
            r.threshold == -1,
            r.cells@.len() == cells_of(ORDER),
            forall|i: int| 0 <= i < r.cells@.len() ==> r.cells@[i] == RING_EMPTY_VAL,
    {
        let nr_cells = Self::get_nr_cells();
        proof {
            lemma_order(ORDER);
        }
        let mut cells: Vec<u64> = Vec::with_capacity(nr_cells as usize);
        let mut i: u64 = 0;
        while i < nr_cells
            invariant
                nr_cells == cells_of(ORDER),
                i <= nr_cells,
                cells@.len() == i,
                forall|m: int| 0 <= m < i ==> cells@[m] == RING_EMPTY_VAL,
            decreases nr_cells - i,
        {
            cells.push(RING_EMPTY_VAL);
            i = i + 1;
        }
        let r = Ring { cells, head: 0, tail: 0, threshold: -1 };
        proof {
            let full = cells_of(ORDER);
            let k = (ORDER + 1) as u64;
            assert(retreat(0, 0) == 0 && RING_EMPTY_VAL == !0u64) by (bit_vector);
            assert forall|j: u64| j < full implies free_for(#[trigger] r.cell_at(j), advance(0, j), full) by {
                lemma_slot(advance(0, j), advance(0, j), full, k);
                lemma_blank_cell(advance(0, j), full, k);
            }
        }
        r
    }

    /// Loads every slot index into an empty ring.
    fn fill(&mut self)
        requires
            ORDER <= RING_MAX_ORDER,
            old(self).cells@.len() == cells_of(ORDER),
        ensures
            final(self).wf(),
            final(self)@ == seeded(ORDER),
            final(self).head == 0,
            final(self).tail == entries_of(ORDER),
            final(self).threshold == busy_threshold(ORDER),
            forall|m: u64|
                entries_of(ORDER) <= m < cells_of(ORDER) ==> final(self).cells@[#[trigger] slot_of(
                    m,
                    cells_of(ORDER),
                    (ORDER + 1) as u64,
                ) as int] == RING_EMPTY_VAL,
    {
        let half: u64 = Self::get_nr_entries();
        let full: u64 = Self::get_nr_cells();
        let ghost k = (ORDER + 1) as u64;
        proof {
            lemma_order(ORDER);
        }
        let mut n: u64 = 0;
        while n < half
            invariant
                half == entries_of(ORDER),
                full == cells_of(ORDER),
                k == ORDER + 1,
                ORDER <= RING_MAX_ORDER,
                n <= half,
                self.cells@.len() == full,
                forall|m: u64|
                    m < n ==> self.cells@[slot_of(m, full, k) as int] == #[trigger] slot_of(
                        m,
                        half,
                        ORDER as u64,
                    ),
            decreases half - n,
        {
            let c = Self::cell_index(n);
            let v = Self::map(n, half, ORDER as u64);
            let ghost before = self.cells@;
            self.cells.set(c, v);
            proof {
                lemma_order(ORDER);
                assert forall|m: u64| m < n + 1 implies self.cells@[slot_of(m, full, k) as int]
                    == #[trigger] slot_of(m, half, ORDER as u64) by {
                    lemma_slot(m, n, full, k);
                    lemma_slot(n, n, full, k);
                    if m < n {
                        assert(before[slot_of(m, full, k) as int] == slot_of(m, half, ORDER as u64));
                    }
                }
            }
            n = n + 1;
        }
        while n < full
            invariant
                half == entries_of(ORDER),
                full == cells_of(ORDER),
                k == ORDER + 1,
                ORDER <= RING_MAX_ORDER,
                half <= n <= full,
                self.cells@.len() == full,
                forall|m: u64|
                    m < half ==> self.cells@[slot_of(m, full, k) as int] == #[trigger] slot_of(
                        m,
                        half,
                        ORDER as u64,
                    ),
                forall|m: u64|
                    half <= m < n ==> self.cells@[#[trigger] slot_of(m, full, k) as int]
                        == RING_EMPTY_VAL,
            decreases full - n,
        {
            let c = Self::cell_index(n);
            self.cells.set(c, RING_EMPTY_VAL);
            proof {
                lemma_order(ORDER);
                assert forall|m: u64| m < half implies self.cells@[slot_of(m, full, k) as int]
                    == #[trigger] slot_of(m, half, ORDER as u64) by {
                    lemma_slot(m, n, full, k);
                    lemma_slot(n, n, full, k);
                }
                assert forall|m: u64| half <= m < n + 1 implies self.cells@[#[trigger] slot_of(
                    m,
                    full,
                    k,
                ) as int] == RING_EMPTY_VAL by {
                    lemma_slot(m, n, full, k);
                    lemma_slot(n, n, full, k);
                }
            }
            n = n + 1;
        }
        self.head = 0;
        self.tail = half;
        self.threshold = Self::get_threshold(half, full);
        proof {
            assert(RING_EMPTY_VAL == !0u64) by (bit_vector);
            assert(self.count() == half);
            assert forall|j: u64| j < full implies {
                let e = #[trigger] self.cell_at(j);
                let p = advance(self.head, j);
                if j < self.count() {
                    holds(e, p, full, e & index_bits(full)) && e & index_bits(full) < half
                } else {
                    free_for(e, p, full)
                }
            } by {
                assert(advance(0, j) == j);
                if j < half {
                    let v = slot_of(j, half, ORDER as u64);
                    lemma_slot(j, j, half, ORDER as u64);
                    lemma_seeded_cell(v, j, full, k);
                } else {
                    lemma_blank_cell(j, full, k);
                }
            }
            assert forall|i: int| 0 <= i < half implies #[trigger] self@[i] == seeded(ORDER)[i] by {
                let j = i as u64;
                assert(advance(0, j) == j);
                let v = slot_of(j, half, ORDER as u64);
                lemma_slot(j, j, half, ORDER as u64);
                lemma_seeded_cell(v, j, full, k);
            }
            assert(self@ =~= seeded(ORDER));
        }
    }

    /// Appends slot index `eidx`. The caller keeps the ring below its
    /// capacity: an index only comes back after it was taken out.
    fn enqueue(&mut self, eidx: usize)
        requires
            old(self).wf(),
            old(self)@.len() < entries_of(ORDER),
            eidx < entries_of(ORDER),
        ensures
            final(self).wf(),
            final(self)@ == old(self)@.push(eidx),
            final(self).head == old(self).head,
            final(self).tail == old(self).tail.wrapping_add(1),
            final(self).threshold == busy_threshold(ORDER),
    {
        let half: u64 = Self::get_nr_entries();
        let full: u64 = Self::get_nr_cells();
        let ghost k = (ORDER + 1) as u64;
        let ghost c = self.count();
        proof {
            lemma_order(ORDER);
            lemma_counters(self.head, self.tail, c);
        }
        let ghost idx = eidx as u64;
        let eidx: u64 = (eidx as u64) ^ (full - 1);
        let tail = self.tail;
        self.tail = tail.wrapping_add(1);
        let tcycle = (tail << 1) | (2 * full - 1);
        let tidx = Self::cell_index(tail);
        let entry = self.cells[tidx];
        let ecycle = entry | (2 * full - 1);
        proof {
            assert(entry == old(self).cell_at(c));
            lemma_fill_free_cell(entry, tail, full, k, idx);
        }
        // With exclusive access the claimed cell is always reusable: it lags
        // one round behind and carries no index.
        if sub_with_overflow(ecycle, tcycle) < 0 && (entry == ecycle || (entry == (ecycle ^ full)
            && sub_with_overflow(self.head, tail) <= 0)) {
            self.cells.set(tidx, tcycle ^ eidx);
        }
        let t = Self::get_threshold(half, full);
        if self.threshold != t {
            self.threshold = t;
        }
        proof {
            let v = idx as usize;
            assert(self.count() == c + 1);
            assert forall|j: u64| j < full implies {
                let e = #[trigger] self.cell_at(j);
                let p = advance(self.head, j);
                if j < self.count() {
                    holds(e, p, full, e & index_bits(full)) && e & index_bits(full) < half
                } else {
                    free_for(e, p, full)
                }
            } by {
                if j != c {
                    lemma_window_distinct(self.head, j, c, full, k);
                    lemma_slot(advance(self.head, j), tail, full, k);
                    assert(self.cell_at(j) == old(self).cell_at(j));
                }
            }
            assert forall|i: int| 0 <= i < c + 1 implies #[trigger] self@[i] == old(self)@.push(
                v,
            )[i] by {
                if i < c {
                    lemma_window_distinct(self.head, i as u64, c, full, k);
                    lemma_slot(advance(self.head, i as u64), tail, full, k);
                    assert(self.cell_at(i as u64) == old(self).cell_at(i as u64));
                }
            }
            assert(self@ =~= old(self)@.push(v));
        }
    }

    /// Takes the oldest slot index out, or `None` when the ring is empty.
    fn dequeue(&mut self) -> (r: Option<usize>)
        requires
            old(self).wf(),
        ensures
            final(self).wf(),
            old(self)@.len() == 0 ==> r is None && final(self)@ == old(self)@,
            old(self)@.len() > 0 ==> r == Some(old(self)@[0]) && final(self)@ == old(
                self,
            )@.drop_first(),
            old(self).threshold < 0 ==> r is None && *final(self) == *old(self),
            old(self).threshold >= 0 ==> final(self).head == old(self).head.wrapping_add(1),
    {
        if self.threshold < 0 {
            return None;
        }
        let full: u64 = Self::get_nr_cells();
        let ghost k = (ORDER + 1) as u64;
        let ghost c = self.count();
        let ghost half = entries_of(ORDER);
        proof {
            lemma_order(ORDER);
            lemma_counters(self.head, self.tail, c);
            lemma_window_step(self.head, 0, full, k);
        }
        let head = self.head;
        self.head = head.wrapping_add(1);
        let hcycle = (head << 1) | (2 * full - 1);
        let hidx = Self::cell_index(head);
        let entry = self.cells[hidx];
        let ecycle = entry | (2 * full - 1);
        proof {
            assert(entry == old(self).cell_at(0));
            if c > 0 {
                lemma_take_held_cell(entry, head, full, k, entry & index_bits(full));
            } else {
                lemma_probe_free_cell(entry, head, full, k);
            }
        }
        if ecycle == hcycle {
            self.cells.set(hidx, entry | (full - 1));
            proof {
                assert(self.count() == c - 1);
                assert forall|j: u64| j < full implies {
                    let e = #[trigger] self.cell_at(j);
                    let p = advance(self.head, j);
                    if j < self.count() {
                        holds(e, p, full, e & index_bits(full)) && e & index_bits(full) < half
                    } else {
                        free_for(e, p, full)
                    }
                } by {
                    lemma_window_step(head, j, full, k);
                    if j + 1 < full {
                        lemma_window_distinct(head, (j + 1) as u64, 0, full, k);
                        lemma_slot(advance(head, (j + 1) as u64), head, full, k);
                        assert(self.cell_at(j) == old(self).cell_at((j + 1) as u64));
                    } else {
                        lemma_slot(advance(head, full), head, full, k);
                    }
                }
                assert forall|i: int| 0 <= i < c - 1 implies #[trigger] self@[i]
                    == old(self)@.drop_first()[i] by {
                    let j = i as u64;
                    lemma_window_step(head, j, full, k);
                    lemma_window_distinct(head, (j + 1) as u64, 0, full, k);
                    lemma_slot(advance(head, (j + 1) as u64), head, full, k);
                    assert(self.cell_at(j) == old(self).cell_at((j + 1) as u64));
                }
                assert(self@ =~= old(self)@.drop_first());
            }
            return Some((entry & (full - 1)) as usize);
        }
        // Nothing was written for this position: the ring is drained. The
        // cell is stamped with this position's cycle, so that an enqueue
        // that claimed the same position cannot publish into it any more.

        let new_entry = if (entry | full) != ecycle {
            entry & !full
        } else {
            hcycle ^ (!entry & full)
        };
        if sub_with_overflow(ecycle, hcycle) < 0 {
            self.cells.set(hidx, new_entry);
        }
        let tail = self.tail;
        let next = head.wrapping_add(1);
        if sub_with_overflow(tail, next) <= 0 {
            self.catchup(next);
        }
        self.threshold = self.threshold - 1;
        proof {
            assert(retreat(next, next) == 0) by (bit_vector);
            assert(self.count() == 0);
            assert forall|j: u64| j < full implies free_for(
                #[trigger] self.cell_at(j),
                advance(self.head, j),
                full,
            ) by {
                lemma_window_step(head, j, full, k);
                if j + 1 < full {
                    lemma_window_distinct(head, (j + 1) as u64, 0, full, k);
                    lemma_slot(advance(head, (j + 1) as u64), head, full, k);
                    assert(self.cell_at(j) == old(self).cell_at((j + 1) as u64));
                } else {
                    lemma_slot(advance(head, full), head, full, k);
                }
            }
            assert(self@ =~= old(self)@);
        }
        None
    }

    /// Moves the tail up to `head`, unless it already is there or beyond.
    fn catchup(&mut self, head: u64)
        ensures
            final(self).tail == (if signed_gap(old(self).tail, head) < 0 {
                head
            } else {
                old(self).tail
            }),
            final(self).head == old(self).head,
            final(self).cells == old(self).cells,
            final(self).threshold == old(self).threshold,
    {
        if sub_with_overflow(self.tail, head) < 0 {
            self.tail = head;
        }
    }

    fn get_nr_entries() -> (r: u64)
        requires
            ORDER <= RING_MAX_ORDER,
        ensures
            r == entries_of(ORDER),
    {
        1u64 << (ORDER as u64)
    }

    fn get_nr_cells() -> (r: u64)
        requires
            ORDER <= RING_MAX_ORDER,
        ensures
            r == cells_of(ORDER),
    {
        1u64 << ((ORDER + 1) as u64)
    }

    /// The cell that backs position `idx` in a table of `limit == 1 << order`
    /// cells. Consecutive positions are spread one cache line apart.
    fn map(idx: u64, limit: u64, order: u64) -> (r: u64)
        requires
            order < 64,
            limit == 1u64 << order,
        ensures
            r == slot_of(idx, limit, order),
            r < limit,
    {
        proof {
            lemma_slot(idx, idx, limit, order);
        }
        let s = if order < RING_MIN_ORDER {
            order
        } else {
            RING_MIN_ORDER
        };
        ((idx & (limit - 1)) >> (order - s)) | ((idx << s) & (limit - 1))
    }

    /// Index in the cell table of the cell that backs position `pos`.
    fn cell_index(pos: u64) -> (r: usize)
        requires
            ORDER <= RING_MAX_ORDER,
        ensures
            r as u64 == slot_of(pos, cells_of(ORDER), (ORDER + 1) as u64),
            r < cells_of(ORDER),
    {
        proof {
            lemma_order(ORDER);
        }
        let c = Self::map(pos, Self::get_nr_cells(), (ORDER + 1) as u64);
        c as usize
    }

    fn get_threshold(half: u64, nr: u64) -> (r: isize)
        requires
            1 <= half <= 0x1000_0000,
            nr <= 0x2000_0000,
        ensures
            r == half + nr - 1,
    {
        (half + nr - 1) as isize
    }
}

} // verus!

verus! {

/// The queue proper: two index rings and the payload array, used with
/// exclusive access.
///
/// A payload cell is written only after its index left the free ring and
/// read only after it left the ready ring; since every slot index is in
/// exactly one of the two rings, no two operations ever touch the same cell
/// at once.
pub struct RingQueue<T, const ORDER: usize> {
    dq: Ring<ORDER>,
    fq: Ring<ORDER>,
    data: Vec<T>,
}

/// Every slot index of a queue of capacity `cap` appears exactly once in
/// `slots`.
pub open spec fn covers_each_slot_once(slots: Seq<usize>, cap: nat) -> bool {
    &&& slots.len() == cap
    &&& slots.no_duplicates()
    &&& forall|i: int| 0 <= i < slots.len() ==> slots[i] < cap
}

/// Taking the front message out of `s` leaves the rest of its messages.
pub proof fn lemma_front_to_multiset<T>(s: Seq<T>)
    requires
        s.len() > 0,
    ensures
        s.to_multiset() == s.drop_first().to_multiset().insert(s[0]),
{
    let d = s.drop_first();
    to_multiset_build(d, s[0]);
    lemma_seq_union_to_multiset_commutative(seq![s[0]], d);
    assert(seq![s[0]] + d =~= s);
    assert(d + seq![s[0]] =~= d.push(s[0]));
    assert(s.to_multiset() == (seq![s[0]] + d).to_multiset());
    assert((seq![s[0]] + d).to_multiset() == (d + seq![s[0]]).to_multiset());
}

impl<T, const ORDER: usize> RingQueue<T, ORDER> {
    /// Number of messages the queue can hold.
    pub open spec fn capacity() -> nat {
        pow2(ORDER as nat)
    }

    /// The free slot indices followed by the ready ones.
    pub closed spec fn slots(&self) -> Seq<usize> {
        self.fq@ + self.dq@
    }

    pub closed spec fn wf(&self) -> bool {
        &&& self.dq.wf()
        &&& self.fq.wf()
        &&& self.data@.len() == Self::capacity()
        &&& covers_each_slot_once(self.slots(), Self::capacity())
    }

    /// Number of slots free for a message.
    pub closed spec fn free_slots(&self) -> nat {
        self.fq@.len()
    }

    /// The payload cells, by slot index.
    pub closed spec fn payload(&self) -> Seq<T> {
        self.data@
    }

    /// The messages waiting to be received, oldest first.
    pub closed spec fn view(&self) -> Seq<T> {
        self.dq@.map_values(|i: usize| self.data@[i as int])
    }
}

impl<T, const ORDER: usize> RingQueue<T, ORDER> {
    /// Puts `msg` in the queue unless all slots are taken. On success gives
    /// back the value the payload cell held before (a placeholder), on
    /// failure gives `msg` back; either way the caller decides where the
    /// value is dropped.
    pub fn try_put(&mut self, msg: T) -> (r: Result<T, T>)
        requires
            old(self).wf(),
        ensures
            final(self).wf(),
            old(self)@.len() < Self::capacity() <==> r is Ok,
            r is Ok ==> final(self)@ == old(self)@.push(msg),
            r is Ok ==> final(self)@.to_multiset() == old(self)@.to_multiset().insert(msg),
            r is Ok ==> final(self).free_slots() + 1 == old(self).free_slots(),
            r matches Err(m) ==> m == msg && final(self)@ == old(self)@ && final(self).slots()
                == old(self).slots() && final(self).payload() == old(self).payload(),
    {
        proof {
            lemma_order(ORDER);
        }
        match self.fq.dequeue() {
            Some(eidx) => {
                let ghost s = old(self).slots();
                proof {
                    assert(s[0] == eidx);
                    assert(eidx < entries_of(ORDER));
                }
                let mut cell = msg;
                self.data.set_and_swap(eidx, &mut cell);
                self.dq.enqueue(eidx);
                proof {
                    let n = s.len() as int;
                    let s2 = self.slots();
                    assert(s2 =~= s.drop_first().push(s[0]));
                    assert forall|i: int, j: int|
                        0 <= i < n && 0 <= j < n && i != j implies s2[i] != s2[j] by {
                        let a = if i + 1 < n { i + 1 } else { 0 };
                        let b = if j + 1 < n { j + 1 } else { 0 };
                        assert(s2[i] == s[a] && s2[j] == s[b]);
                    }
                    assert forall|i: int| 0 <= i < n implies s2[i] < Self::capacity() by {
                        let a = if i + 1 < n { i + 1 } else { 0 };
                        assert(s2[i] == s[a]);
                    }
                    let fl = old(self).fq@.len() as int;
                    assert forall|i: int| 0 <= i < old(self).dq@.len() implies old(self).dq@[i]
                        != eidx by {
                        assert(s[fl + i] == old(self).dq@[i]);
                    }
                    assert(self@ =~= old(self)@.push(msg));
                    to_multiset_build(old(self)@, msg);
                }
                Ok(cell)
            },
            None => {
                proof {
                    assert(self.slots() =~= old(self).slots());
                }
                Err(msg)
            },
        }
    }

    /// Takes the oldest message out, leaving `spare` in its payload cell.
    /// Gives `spare` back when the queue is empty.
    pub fn take(&mut self, spare: T) -> (r: Result<T, T>)
        requires
            old(self).wf(),
        ensures
            final(self).wf(),
            old(self)@.len() > 0 <==> r is Ok,
            r is Ok ==> r == Ok::<T, T>(old(self)@[0]) && final(self)@ == old(self)@.drop_first(),
            r matches Ok(v) ==> old(self)@.to_multiset() == final(self)@.to_multiset().insert(v),
            r is Ok ==> final(self).free_slots() == old(self).free_slots() + 1,
            r matches Err(m) ==> m == spare && final(self)@ == old(self)@ && final(self).slots()
                == old(self).slots() && final(self).payload() == old(self).payload(),
    {
        proof {
            lemma_order(ORDER);
        }
        match self.dq.dequeue() {
            Some(eidx) => {
                let ghost s = old(self).slots();
                let ghost fl = old(self).fq@.len() as int;
                proof {
                    assert(s[fl] == eidx);
                }
                let mut msg = spare;
                self.data.set_and_swap(eidx, &mut msg);
                self.fq.enqueue(eidx);
                proof {
                    assert(self.slots() =~= s);
                    assert forall|i: int| 0 <= i < self.dq@.len() implies self.dq@[i] != eidx by {
                        assert(s[fl + 1 + i] == self.dq@[i]);
                    }
                    assert(self@ =~= old(self)@.drop_first());
                    lemma_front_to_multiset(old(self)@);
                }
                Ok(msg)
            },
            None => {
                proof {
                    assert(self.slots() =~= old(self).slots());
                }
                Err(spare)
            },
        }
    }
}

impl<T: Default, const ORDER: usize> RingQueue<T, ORDER> {
    /// An empty queue of capacity `1 << ORDER`, every payload cell holding
    /// `T::default()`, the free ring loaded with every slot index and the
    /// ready ring empty.
    pub fn new() -> (r: Self)
        requires
            ORDER <= RING_MAX_ORDER,
        ensures
            r.wf(),
            r@.len() == 0,
            r.free_slots() == Self::capacity(),
            r.slots() == seeded(ORDER),
            r.payload().len() == Self::capacity(),
            forall|i: int|
                0 <= i < r.payload().len() ==> T::default.ensures((), #[trigger] r.payload()[i]),
    {
        proof {
            lemma_order(ORDER);
        }
        let nr_data = Ring::<ORDER>::get_nr_entries();
        let mut data: Vec<T> = Vec::with_capacity(nr_data as usize);
        let mut i: u64 = 0;
        while i < nr_data
            invariant
                nr_data == entries_of(ORDER),
                i <= nr_data,
                data@.len() == i,
                forall|m: int| 0 <= m < i ==> T::default.ensures((), #[trigger] data@[m]),
            decreases nr_data - i,
        {
            data.push(T::default());
            i = i + 1;
        }
        let mut fq = Ring::<ORDER>::new();
        fq.fill();
        let rq = RingQueue { dq: Ring::<ORDER>::new(), fq, data };
        proof {
            lemma_seeded(ORDER);
            assert(rq.slots() =~= seeded(ORDER));
        }
        rq
    }

    /// Sends `msg`, or gives `None` when all slots are taken. On `None` the
    /// queue is left exactly as it was and `msg` is dropped.
    pub fn send(&mut self, msg: T) -> (r: Option<()>)
        requires
            old(self).wf(),
        ensures
            final(self).wf(),
            old(self)@.len() < Self::capacity() ==> r == Some(()) && final(self)@ == old(
                self,
            )@.push(msg),
            old(self)@.len() >= Self::capacity() ==> r is None && final(self)@ == old(self)@,
            r is Some ==> final(self)@.to_multiset() == old(self)@.to_multiset().insert(msg),
            r is None ==> final(self).slots() == old(self).slots() && final(self).payload() == old(
                self,
            ).payload(),
    {
        match self.try_put(msg) {
            Ok(_) => Some(()),
            Err(_) => None,
        }
    }

    /// Receives the oldest message, or gives `None` when there is none. On
    /// `None` the queue is left exactly as it was.
    pub fn recv(&mut self) -> (r: Option<T>)
        requires
            old(self).wf(),
        ensures
            final(self).wf(),
            old(self)@.len() > 0 ==> r == Some(old(self)@[0]) && final(self)@ == old(
                self,
            )@.drop_first(),
            old(self)@.len() == 0 ==> r is None && final(self)@ == old(self)@,
            r matches Some(v) ==> old(self)@.to_multiset() == final(self)@.to_multiset().insert(v),
            r is None ==> final(self).slots() == old(self).slots() && final(self).payload() == old(
                self,
            ).payload(),
    {
        match self.take(T::default()) {
            Ok(v) => Some(v),
            Err(_) => None,
        }
    }

    /// Receives until the queue reports empty. Every queued message comes
    /// out exactly once, oldest first: none is lost, none is duplicated, and
    /// every slot is free again afterwards.
    pub fn drain(&mut self) -> (r: Vec<T>)
        requires
            old(self).wf(),
        ensures
            final(self).wf(),
            r@ == old(self)@,
            final(self)@.len() == 0,
            final(self).free_slots() == Self::capacity(),
    {
        let mut out: Vec<T> = Vec::new();
        let ghost start = self@;
        loop
            invariant
                self.wf(),
                start == out@ + self@,
            ensures
                self.wf(),
                start == out@,
                self@.len() == 0,
            decreases self@.len(),
        {
            match self.recv() {
                Some(v) => {
                    proof {
                        assert(start =~= out@.push(v) + self@);
                    }
                    out.push(v);
                },
                None => {
                    proof {
                        assert(out@ =~= start);
                    }
                    break;
                },
            }
        }
        proof {
            lemma_conservation(self);
        }
        out
    }
}


} // verus!

verus! {

/// The lock predicate of a shared queue: it is well formed, so that its
/// slot indices stay conserved across every send and receive.
pub struct Conserved;

impl<T, const ORDER: usize> RwLockPredicate<RingQueue<T, ORDER>> for Conserved {
    open spec fn inv(self, q: RingQueue<T, ORDER>) -> bool {
        q.wf()
    }
}

/// Producer handle of a shared queue.
pub struct Sender<T, const ORDER: usize> {
    rq: Arc<RwLock<RingQueue<T, ORDER>, Conserved>>,
}

impl<T, const ORDER: usize> Sender<T, ORDER> {
    /// The lock that guards the shared queue.
    pub closed spec fn lock(&self) -> Arc<RwLock<RingQueue<T, ORDER>, Conserved>> {
        self.rq
    }
}

impl<T: Default, const ORDER: usize> Sender<T, ORDER> {
    /// Sends `msg`: `Some(())` once it is in the queue, `None` when the
    /// queue was full. Other handles act on the same queue, so the outcome
    /// only describes the queue at the moment of the call, and `None` is
    /// always safe to retry. The call spins while another handle holds the
    /// queue's lock; it never waits for room.
    pub fn send(&self, msg: T) -> (r: Option<()>) {
        let (mut q, handle) = self.rq.acquire_write();
        let res = q.try_put(msg);
        handle.release_write(q);
        // The displaced placeholder, or the message that found no room, is
        // dropped only once the lock is released.
        match res {
            Ok(_) => Some(()),
            Err(_) => None,
        }
    }
}

impl<T, const ORDER: usize> Clone for Sender<T, ORDER> {
    fn clone(&self) -> (r: Self)
        ensures
            r.lock() == self.lock(),
    {
        Sender { rq: self.rq.clone() }
    }
}

/// Consumer handle of a shared queue.
pub struct Receiver<T, const ORDER: usize> {
    rq: Arc<RwLock<RingQueue<T, ORDER>, Conserved>>,
}

impl<T, const ORDER: usize> Receiver<T, ORDER> {
    /// The lock that guards the shared queue.
    pub closed spec fn lock(&self) -> Arc<RwLock<RingQueue<T, ORDER>, Conserved>> {
        self.rq
    }
}

impl<T: Default, const ORDER: usize> Receiver<T, ORDER> {
    /// Receives a message: `Some` with the oldest one in the queue, `None`
    /// when the queue was empty at the moment of the call (safe to retry).
    /// The call spins while another handle holds the queue's lock; it never
    /// waits for a message.
    pub fn recv(&self) -> (r: Option<T>) {
        // The placeholder is built, and an unused one dropped, outside the
        // lock.
        let spare = T::default();
        let (mut q, handle) = self.rq.acquire_write();
        let res = q.take(spare);
        handle.release_write(q);
        match res {
            Ok(v) => Some(v),
            Err(_) => None,
        }
    }
}

impl<T, const ORDER: usize> Clone for Receiver<T, ORDER> {
    fn clone(&self) -> (r: Self)
        ensures
            r.lock() == self.lock(),
    {
        Receiver { rq: self.rq.clone() }
    }
}

/// A queue of capacity `1 << ORDER` and the first producer and consumer
/// handles on it, both on the same lock-guarded queue.
pub fn create<T: Default, const ORDER: usize>() -> (r: (Sender<T, ORDER>, Receiver<T, ORDER>))
    requires
        ORDER <= RING_MAX_ORDER,
    ensures
        r.0.lock() == r.1.lock(),
        r.0.lock().pred() == Conserved,
{
    let rq = RingQueue::<T, ORDER>::new();
    let r = Arc::new(RwLock::new(rq, Ghost(Conserved)));
    (Sender { rq: r.clone() }, Receiver { rq: r })
}

} // verus!

verus! {

/// Conservation: in every state a queue can reach, the free and the ready
/// ring together hold each slot index exactly once, so at most `1 << ORDER`
/// messages are in flight and `1 << ORDER` minus that many slots are free.
pub proof fn lemma_conservation<T, const ORDER: usize>(q: &RingQueue<T, ORDER>)
    requires
        q.wf(),
    ensures
        covers_each_slot_once(q.slots(), RingQueue::<T, ORDER>::capacity()),
        q@.len() <= RingQueue::<T, ORDER>::capacity(),
        q.free_slots() + q@.len() == RingQueue::<T, ORDER>::capacity(),
{
}

} // verus!

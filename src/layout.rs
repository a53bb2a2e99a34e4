//! Cell placement and cell encoding of the index ring.
//!
//! A ring of `1 << order` entries uses `1 << (order + 1)` cells. Logical
//! positions are word-sized counters that wrap around; the cell that backs a
//! position is picked by `slot_of`, which rotates the low bits of the position
//! so that consecutive positions land on different cache lines.
//!
//! A cell word packs three fields, from high to low bits: the cycle of the
//! position that last wrote it, a "safe" bit (the bit worth `full`), and an
//! index field of `order + 1` bits whose all-ones value means "no index".
use vstd::prelude::*;

verus! {

/// Cells per cache line, as a power of two (128-byte lines of 8-byte words).
pub const RING_MIN_ORDER: u64 = 4;

/// Largest supported ring order. A ring of order `o` keeps a table of
/// `2^(o+1)` eight-byte cells, and each queue has two rings: at order 28
/// that is already 8 GiB of cells, and the table length must still be a
/// `usize` on 32-bit targets.
pub const RING_MAX_ORDER: usize = 28;

/// How far `slot_of` rotates: one cache line's worth of cells, or the whole
/// index for rings smaller than a cache line (where the rotation is then the
/// identity).
pub open spec fn spread(order: u64) -> u64 {
    if order < RING_MIN_ORDER {
        order
    } else {
        RING_MIN_ORDER
    }
}

/// The cell backing position `idx` in a table of `limit == 1 << order` cells.
pub open spec fn slot_of(idx: u64, limit: u64, order: u64) -> u64 {
    ((idx & ((limit - 1) as u64)) >> ((order - spread(order)) as u64)) | ((idx << spread(
        order,
    )) & ((limit - 1) as u64))
}

/// `p + j` on the wrapping position counter.
pub open spec fn advance(p: u64, j: u64) -> u64 {
    (p + j) as u64
}

/// `p - j` on the wrapping position counter.
pub open spec fn retreat(p: u64, j: u64) -> u64 {
    (p - j) as u64
}

/// Signed distance from `rhs` to `lhs` on the wrapping counter.
pub open spec fn signed_gap(lhs: u64, rhs: u64) -> i64 {
    ((lhs - rhs) as u64) as i64
}

/// The cell word that marks position `pos` as current: its cycle, the safe
/// bit, and all index bits set.
pub open spec fn tag_of(pos: u64, full: u64) -> u64 {
    (pos << 1u64) | ((full * 2 - 1) as u64)
}

/// Index bits of a cell word.
pub open spec fn index_bits(full: u64) -> u64 {
    (full - 1) as u64
}

/// Cell word `e` holds index `v` written at position `pos`.
pub open spec fn holds(e: u64, pos: u64, full: u64, v: u64) -> bool {
    &&& e | ((full * 2 - 1) as u64) == tag_of(pos, full)
    &&& e & index_bits(full) == v
}

/// Cell word `e` is free for position `pos`: it was last used one full round
/// earlier and carries no index (the safe bit may be either way).
pub open spec fn free_for(e: u64, pos: u64, full: u64) -> bool {
    e | full == tag_of(retreat(pos, full), full)
}

pub open spec fn ring_geometry(full: u64, k: u64) -> bool {
    &&& 1 <= k <= RING_MAX_ORDER as u64 + 1
    &&& full == 1u64 << k
}

/// `slot_of` sends the table onto itself without collisions.
pub proof fn lemma_slot(x: u64, y: u64, limit: u64, order: u64)
    requires
        order < 64,
        limit == 1u64 << order,
    ensures
        1 <= limit,
        slot_of(x, limit, order) < limit,
        x < limit ==> x & ((limit - 1) as u64) == x,
        x & ((limit - 1) as u64) == y & ((limit - 1) as u64) ==> slot_of(x, limit, order)
            == slot_of(y, limit, order),
        x & ((limit - 1) as u64) != y & ((limit - 1) as u64) ==> slot_of(x, limit, order)
            != slot_of(y, limit, order),
{
    let s = spread(order);
    assert(x & ((limit - 1) as u64) == y & ((limit - 1) as u64) ==> slot_of(x, limit, order)
        == slot_of(y, limit, order)) by (bit_vector)
        requires
            order < 64,
            limit == 1u64 << order,
            s == spread(order),
    ;
    assert(1 <= limit && slot_of(x, limit, order) < limit && (x < limit ==> x & ((limit - 1) as u64) == x) && (x
        & ((limit - 1) as u64) != y & ((limit - 1) as u64) ==> slot_of(x, limit, order) != slot_of(
        y,
        limit,
        order,
    ))) by (bit_vector)
        requires
            order < 64,
            limit == 1u64 << order,
            s == spread(order),
    ;
}

/// Writing index `v` into a cell that is free for position `t`: the checks
/// made before the write pass, and the new word holds `v` for `t`.
pub proof fn lemma_fill_free_cell(e: u64, t: u64, full: u64, k: u64, v: u64)
    requires
        ring_geometry(full, k),
        free_for(e, t, full),
        v < full / 2,
    ensures
        e | ((full * 2 - 1) as u64) == tag_of(retreat(t, full), full),
        signed_gap(e | ((full * 2 - 1) as u64), tag_of(t, full)) < 0,
        e == e | ((full * 2 - 1) as u64) || e == (e | ((full * 2 - 1) as u64)) ^ full,
        holds(tag_of(t, full) ^ (v ^ index_bits(full)), t, full, v),
{
    let m = (full * 2 - 1) as u64;
    let p = retreat(t, full);
    assert(e | m == tag_of(p, full)) by (bit_vector)
        requires
            1 <= k <= 29,
            full == 1u64 << k,
            m == (full * 2 - 1) as u64,
            e | full == tag_of(p, full),
    ;
    assert(signed_gap(tag_of(p, full), tag_of(t, full)) < 0) by (bit_vector)
        requires
            1 <= k <= 29,
            full == 1u64 << k,
            p == retreat(t, full),
    ;
    assert(e == e | m || e == (e | m) ^ full) by (bit_vector)
        requires
            1 <= k <= 29,
            full == 1u64 << k,
            m == (full * 2 - 1) as u64,
            e | full == tag_of(p, full),
    ;
    assert(holds(tag_of(t, full) ^ (v ^ index_bits(full)), t, full, v)) by (bit_vector)
        requires
            1 <= k <= 29,
            full == 1u64 << k,
            v < full / 2,
    ;
}

/// Taking the index out of a cell that holds it for position `h`: the cycle
/// matches, the index bits give `v`, and once they are set the cell is free
/// for the same slot one round later.
pub proof fn lemma_take_held_cell(e: u64, h: u64, full: u64, k: u64, v: u64)
    requires
        ring_geometry(full, k),
        holds(e, h, full, v),
    ensures
        e | ((full * 2 - 1) as u64) == tag_of(h, full),
        e & index_bits(full) == v,
        free_for(e | index_bits(full), advance(h, full), full),
{
    let m = (full * 2 - 1) as u64;
    assert(free_for(e | index_bits(full), advance(h, full), full)) by (bit_vector)
        requires
            1 <= k <= 29,
            full == 1u64 << k,
            m == (full * 2 - 1) as u64,
            e | m == tag_of(h, full),
    ;
}

/// Probing a cell that is free for position `h` (nothing was written for
/// `h`): the cycle does not match, the cell carries no index, it lags behind
/// `h`, and stamping it with `h`'s cycle leaves it free one round later.
pub proof fn lemma_probe_free_cell(e: u64, h: u64, full: u64, k: u64)
    requires
        ring_geometry(full, k),
        free_for(e, h, full),
    ensures
        e | ((full * 2 - 1) as u64) != tag_of(h, full),
        e | full == e | ((full * 2 - 1) as u64),
        signed_gap(e | ((full * 2 - 1) as u64), tag_of(h, full)) < 0,
        free_for(tag_of(h, full) ^ (!e & full), advance(h, full), full),
{
    let m = (full * 2 - 1) as u64;
    let p = retreat(h, full);
    assert(e | m != tag_of(h, full) && e | full == e | m && signed_gap(e | m, tag_of(h, full))
        < 0 && free_for(tag_of(h, full) ^ (!e & full), advance(h, full), full)) by (bit_vector)
        requires
            1 <= k <= 29,
            full == 1u64 << k,
            m == (full * 2 - 1) as u64,
            p == retreat(h, full),
            e | full == tag_of(p, full),
    ;
}

/// Positions of one window of `full` consecutive positions fall on
/// pairwise different cells.
pub proof fn lemma_window_distinct(h: u64, i: u64, j: u64, full: u64, k: u64)
    requires
        ring_geometry(full, k),
        i < full,
        j < full,
        i != j,
    ensures
        advance(h, i) & index_bits(full) != advance(h, j) & index_bits(full),
{
    assert(advance(h, i) & index_bits(full) != advance(h, j) & index_bits(full)) by (bit_vector)
        requires
            1 <= k <= 29,
            full == 1u64 << k,
            i < full,
            j < full,
            i != j,
    ;
}

/// Moving a window one position forward.
pub proof fn lemma_window_step(h: u64, j: u64, full: u64, k: u64)
    requires
        ring_geometry(full, k),
        j < full,
    ensures
        advance(h.wrapping_add(1), j) == advance(h, (j + 1) as u64),
        advance(h, full) & index_bits(full) == h & index_bits(full),
        retreat(advance(h, full), full) == h,
        advance(h, 0) == h,
{
    assert(advance(h.wrapping_add(1), j) == advance(h, (j + 1) as u64) && advance(h, full)
        & index_bits(full) == h & index_bits(full) && retreat(advance(h, full), full) == h
        && advance(h, 0) == h) by (bit_vector)
        requires
            1 <= k <= 29,
            full == 1u64 << k,
            j < full,
    ;
}

/// How the number of positions between the two counters changes when one
/// of them moves.
pub proof fn lemma_counters(h: u64, t: u64, c: u64)
    requires
        c == retreat(t, h),
        c <= 0x4000_0000,
    ensures
        retreat(t.wrapping_add(1), h) == c + 1,
        c > 0 ==> retreat(t, h.wrapping_add(1)) == c - 1,
        c == 0 ==> t == h && signed_gap(t, h.wrapping_add(1)) < 0,
        signed_gap(h, t) <= 0,
        advance(h, c) == t,
        retreat(h, h) == 0,
{
    assert(retreat(t.wrapping_add(1), h) == c + 1 && (c > 0 ==> retreat(t, h.wrapping_add(1))
        == c - 1) && (c == 0 ==> t == h && signed_gap(t, h.wrapping_add(1)) < 0) && signed_gap(
        h,
        t,
    ) <= 0 && advance(h, c) == t && retreat(h, h) == 0) by (bit_vector)
        requires
            c == retreat(t, h),
            c <= 0x4000_0000,
    ;
}

/// A cell that was never written (all bits set) is free for every position
/// of the first round.
pub proof fn lemma_blank_cell(p: u64, full: u64, k: u64)
    requires
        ring_geometry(full, k),
        p < full,
    ensures
        free_for(!0u64, p, full),
{
    assert(free_for(!0u64, p, full)) by (bit_vector)
        requires
            1 <= k <= 29,
            full == 1u64 << k,
            p < full,
    ;
}

/// A plain index `v` stored in a cell at setup is held for position `p` of
/// the first round.
pub proof fn lemma_seeded_cell(v: u64, p: u64, full: u64, k: u64)
    requires
        ring_geometry(full, k),
        p < full,
        v < full / 2,
    ensures
        holds(v, p, full, v),
{
    assert(holds(v, p, full, v)) by (bit_vector)
        requires
            1 <= k <= 29,
            full == 1u64 << k,
            p < full,
            v < full / 2,
    ;
}

} // verus!

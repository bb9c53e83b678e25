//! The logical address space: how an ordered list of regions reads as one
//! contiguous byte sequence.
use vstd::prelude::*;

verus! {

/// The regions laid end to end.
pub open spec fn flat(rs: Seq<Seq<u8>>) -> Seq<u8>
    decreases rs.len(),
{
    if rs.len() == 0 {
        Seq::empty()
    } else {
        flat(rs.drop_last()) + rs.last()
    }
}

/// Global offset at which region `k` begins.
pub open spec fn region_start(rs: Seq<Seq<u8>>, k: int) -> int {
    flat(rs.take(k)).len() as int
}

/// The sizes of the regions, in order.
pub open spec fn sizes(rs: Seq<Seq<u8>>) -> Seq<int> {
    Seq::new(rs.len(), |k: int| rs[k].len() as int)
}

/// `s` with `data` written over it from `off` on.
pub open spec fn overlay(s: Seq<u8>, off: int, data: Seq<u8>) -> Seq<u8> {
    s.subrange(0, off) + data + s.subrange(off + data.len(), s.len() as int)
}

/// `s` with every byte in `[from, to)` set to `v`.
pub open spec fn fill(s: Seq<u8>, from: int, to: int, v: u8) -> Seq<u8> {
    Seq::new(s.len(), |g: int| if from <= g < to { v } else { s[g] })
}

/// `x` held to the interval `[lo, hi]`.
pub open spec fn clamp(x: int, lo: int, hi: int) -> int {
    if x < lo {
        lo
    } else if x > hi {
        hi
    } else {
        x
    }
}

pub proof fn lemma_flat_take_step(rs: Seq<Seq<u8>>, k: int)
    requires
        0 <= k < rs.len(),
    ensures
        flat(rs.take(k + 1)) == flat(rs.take(k)) + rs[k],
        region_start(rs, k + 1) == region_start(rs, k) + rs[k].len(),
{
    assert(rs.take(k + 1).drop_last() =~= rs.take(k));
}

pub proof fn lemma_flat_take_all(rs: Seq<Seq<u8>>)
    ensures
        region_start(rs, rs.len() as int) == flat(rs).len(),
{
    assert(rs.take(rs.len() as int) =~= rs);
}

pub proof fn lemma_region_start_nonneg(rs: Seq<Seq<u8>>, k: int)
    ensures
        region_start(rs, k) >= 0,
{
}

/// Byte `j` of region `k` stands at global offset `region_start(rs, k) + j`.
pub proof fn lemma_flat_index(rs: Seq<Seq<u8>>, k: int, j: int)
    requires
        0 <= k < rs.len(),
        0 <= j < rs[k].len(),
    ensures
        region_start(rs, k) + rs[k].len() <= flat(rs).len(),
        flat(rs)[region_start(rs, k) + j] == rs[k][j],
    decreases rs.len(),
{
    let n = rs.len() as int;
    assert(rs.take(n - 1) =~= rs.drop_last());
    if k == n - 1 {
        assert(flat(rs) == flat(rs.drop_last()) + rs.last());
    } else {
        lemma_flat_index(rs.drop_last(), k, j);
        assert(rs.drop_last().take(k) =~= rs.take(k));
    }
}

/// Writing one byte of one region writes the matching byte of the whole.
pub proof fn lemma_flat_update(rs: Seq<Seq<u8>>, k: int, j: int, v: u8)
    requires
        0 <= k < rs.len(),
        0 <= j < rs[k].len(),
    ensures
        flat(rs.update(k, rs[k].update(j, v))) == flat(rs).update(region_start(rs, k) + j, v),
        sizes(rs.update(k, rs[k].update(j, v))) == sizes(rs),
    decreases rs.len(),
{
    let n = rs.len() as int;
    let rs2 = rs.update(k, rs[k].update(j, v));
    assert(rs.take(n - 1) =~= rs.drop_last());
    assert(sizes(rs2) =~= sizes(rs));
    assert(flat(rs2) == flat(rs2.drop_last()) + rs2.last());
    assert(flat(rs) == flat(rs.drop_last()) + rs.last());
    if k == n - 1 {
        assert(rs2.drop_last() =~= rs.drop_last());
        assert(flat(rs2) =~= flat(rs).update(region_start(rs, k) + j, v));
    } else {
        let d = rs.drop_last();
        lemma_flat_update(d, k, j, v);
        assert(d.take(k) =~= rs.take(k));
        assert(rs2.drop_last() =~= d.update(k, d[k].update(j, v)));
        lemma_flat_index(d, k, j);
        assert(flat(rs2) =~= flat(rs).update(region_start(rs, k) + j, v));
    }
}

/// Every region start lies within the whole.
pub proof fn lemma_region_start_bound(rs: Seq<Seq<u8>>, k: int)
    requires
        0 <= k <= rs.len(),
    ensures
        region_start(rs, k) <= flat(rs).len(),
    decreases rs.len() - k,
{
    if k == rs.len() {
        lemma_flat_take_all(rs);
    } else {
        lemma_flat_take_step(rs, k);
        lemma_region_start_bound(rs, k + 1);
    }
}

/// Region lists of the same sizes have the same region starts.
pub proof fn lemma_region_start_eq(rs: Seq<Seq<u8>>, qs: Seq<Seq<u8>>, k: int)
    requires
        sizes(rs) == sizes(qs),
        0 <= k <= rs.len(),
    ensures
        region_start(rs, k) == region_start(qs, k),
    decreases k,
{
    assert(rs.len() == sizes(rs).len() && qs.len() == sizes(qs).len());
    if k > 0 {
        lemma_region_start_eq(rs, qs, k - 1);
        lemma_flat_take_step(rs, k - 1);
        lemma_flat_take_step(qs, k - 1);
        assert(sizes(rs)[k - 1] == rs[k - 1].len());
        assert(sizes(qs)[k - 1] == qs[k - 1].len());
    } else {
        assert(rs.take(0) =~= Seq::<Seq<u8>>::empty());
        assert(qs.take(0) =~= Seq::<Seq<u8>>::empty());
        assert(flat(Seq::<Seq<u8>>::empty()) == Seq::<u8>::empty());
    }
}

} // verus!

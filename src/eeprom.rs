//! A byte-addressable storage device composed of fixed-size regions, with the
//! granularities and range erase of a NOR-flash-like contract.
use vstd::prelude::*;
use crate::layout::{
    clamp, fill, flat, lemma_flat_index, lemma_flat_take_all, lemma_flat_take_step, lemma_flat_update,
    lemma_region_start_bound, lemma_region_start_eq, lemma_region_start_nonneg, overlay, region_start, sizes,
};

verus! {

/// The value every byte holds after an erase.
pub const ERASE_VALUE: u8 = 0xff;

/// Size of each of the two regions of the default device.
pub const REGION_SIZE: usize = 512;

/// Reads may start at any byte.
pub const READ_SIZE: usize = 1;

/// Writes may start at any byte and have any length.
pub const WRITE_SIZE: usize = 1;

/// The smallest unit the device erases.
pub const ERASE_SIZE: usize = 16;

/// An erase unit holds at least three write units, as the append-log store
/// that runs on this device requires.
pub proof fn lemma_erase_size_holds_three_writes()
    ensures
        ERASE_SIZE >= 3 * WRITE_SIZE,
{
}

/// `n` erased bytes.
pub open spec fn erased(n: int) -> Seq<u8> {
    Seq::new(n as nat, |_i: int| ERASE_VALUE)
}

/// Sum of the given region sizes.
pub open spec fn total_size(region_sizes: Seq<usize>) -> int
    decreases region_sizes.len(),
{
    if region_sizes.len() == 0 {
        0
    } else {
        total_size(region_sizes.drop_last()) + region_sizes.last()
    }
}

proof fn lemma_total_size_prefix(region_sizes: Seq<usize>, k: int)
    requires
        0 <= k <= region_sizes.len(),
    ensures
        0 <= total_size(region_sizes.take(k)) <= total_size(region_sizes),
    decreases region_sizes.len(),
{
    if region_sizes.len() > 0 {
        assert(region_sizes.take(region_sizes.len() as int) =~= region_sizes);
        if k < region_sizes.len() {
            let d = region_sizes.drop_last();
            lemma_total_size_prefix(d, k);
            assert(d.take(k) =~= region_sizes.take(k));
        } else {
            lemma_total_size_prefix(region_sizes.drop_last(), 0);
        }
    }
}

/// A request reached past the end of the device.
#[derive(Debug, PartialEq, Eq, Structural)]
pub struct NotEnoughSpace {}

/// In-memory stand-in for a storage device made of several separately
/// addressed regions, read and written as one contiguous address range.
#[derive(Debug)]
pub struct EepromEmu {
    regions: Vec<Vec<u8>>,
}

impl View for EepromEmu {
    type V = Seq<u8>;

    /// The contents of the whole address range.
    open spec fn view(&self) -> Seq<u8> {
        flat(self.regions())
    }
}

impl EepromEmu {
    /// The contents of each region, in address order.
    pub closed spec fn regions(&self) -> Seq<Seq<u8>> {
        self.regions@.map_values(|r: Vec<u8>| r@)
    }

    /// The whole address range can be counted in a `usize`.
    pub open spec fn wf(&self) -> bool {
        self@.len() <= usize::MAX
    }

    /// A device of two erased regions of `REGION_SIZE` bytes each.
    pub fn new() -> (r: Self)
        ensures
            r.wf(),
            r.regions() == seq![erased(REGION_SIZE as int), erased(REGION_SIZE as int)],
            r@ == erased(2 * REGION_SIZE),
    {
        let r = Self { regions: vec![erased_region(REGION_SIZE), erased_region(REGION_SIZE)] };
        proof {
            let rs = r.regions();
            assert(rs =~= seq![erased(REGION_SIZE as int), erased(REGION_SIZE as int)]);
            assert(rs.drop_last().drop_last() =~= Seq::<Seq<u8>>::empty());
            assert(flat(rs.drop_last()) == flat(rs.drop_last().drop_last()) + rs[0]);
            assert(flat(rs) =~= erased(2 * REGION_SIZE));
        }
        r
    }

    /// A device of erased regions of the given sizes, in the given order.
    pub fn with_region_sizes(region_sizes: &[usize]) -> (r: Self)
        requires
            total_size(region_sizes@) <= usize::MAX,
        ensures
            r.wf(),
            r.regions() == Seq::new(
                region_sizes@.len(),
                |k: int| erased(region_sizes@[k] as int),
            ),
            r@ == erased(total_size(region_sizes@)),
    {
        let ghost want = Seq::new(region_sizes@.len(), |k: int| erased(region_sizes@[k] as int));
        let mut regions: Vec<Vec<u8>> = Vec::new();
        let mut k: usize = 0;
        while k < region_sizes.len()
            invariant
                total_size(region_sizes@) <= usize::MAX,
                want == Seq::new(region_sizes@.len(), |k: int| erased(region_sizes@[k] as int)),
                k <= region_sizes@.len(),
                regions@.len() == k,
                regions@.map_values(|r: Vec<u8>| r@) == want.take(k as int),
                flat(want.take(k as int)) == erased(total_size(region_sizes@.take(k as int))),
            decreases region_sizes@.len() - k,
        {
            let ghost before = regions@.map_values(|r: Vec<u8>| r@);
            regions.push(erased_region(region_sizes[k]));
            proof {
                let t = want.take(k + 1);
                assert(regions@.map_values(|r: Vec<u8>| r@) =~= t);
                assert(t.drop_last() =~= want.take(k as int));
                assert(region_sizes@.take(k + 1).drop_last() =~= region_sizes@.take(k as int));
                lemma_total_size_prefix(region_sizes@, k as int);
                assert(flat(t) == flat(t.drop_last()) + t.last());
                assert(t.last() == erased(region_sizes@[k as int] as int));
                assert(total_size(region_sizes@.take(k + 1)) == total_size(region_sizes@.take(k as int))
                    + region_sizes@[k as int]);
                assert(flat(t) =~= erased(total_size(region_sizes@.take(k + 1))));
            }
            k = k + 1;
        }
        proof {
            assert(want.take(k as int) =~= want);
            assert(region_sizes@.take(k as int) =~= region_sizes@);
            lemma_total_size_prefix(region_sizes@, 0);
        }
        Self { regions }
    }

    /// Total number of bytes over all regions.
    pub fn capacity(&self) -> (r: usize)
        requires
            self.wf(),
        ensures
            r == self@.len(),
    {
        let ghost rs = self.regions();
        let mut total: usize = 0;
        let mut k: usize = 0;
        while k < self.regions.len()
            invariant
                self.wf(),
                rs == self.regions(),
                rs.len() == self.regions@.len(),
                k <= rs.len(),
                total == region_start(rs, k as int),
            decreases rs.len() - k,
        {
            proof {
                lemma_flat_take_step(rs, k as int);
                lemma_region_start_bound(rs, k as int + 1);
            }
            total = total + self.regions[k].len();
            k = k + 1;
        }
        proof {
            lemma_flat_take_all(rs);
        }
        total
    }

    /// Fills `bytes` with the contents starting at `offset`. Fails, leaving
    /// `bytes` as it was, when the range reaches past the end.
    pub fn read(&self, offset: u32, bytes: &mut [u8]) -> (r: Result<(), NotEnoughSpace>)
        requires
            self.wf(),
        ensures
            r is Ok <==> offset + old(bytes)@.len() <= self@.len(),
            r is Ok ==> final(bytes)@ == self@.subrange(
                offset as int,
                offset + old(bytes)@.len(),
            ),
            r is Err ==> final(bytes)@ == old(bytes)@,
    {
        let len = bytes.len();
        let cap = self.capacity();
        if offset as usize > cap || len > cap - offset as usize {
            return Err(NotEnoughSpace {});
        }
        let off = offset as usize;
        let end = off + len;
        let ghost rs = self.regions();
        let mut start: usize = 0;
        let mut k: usize = 0;
        while k < self.regions.len()
            invariant
                self.wf(),
                rs == self.regions(),
                rs.len() == self.regions@.len(),
                cap == self@.len(),
                off + len == end <= cap,
                bytes@.len() == len,
                k <= rs.len(),
                start == region_start(rs, k as int),
                forall|i: int|
                    0 <= i < clamp(start as int, off as int, end as int) - off ==> bytes@[i]
                        == self@[off + i],
            decreases rs.len() - k,
        {
            proof {
                lemma_flat_take_step(rs, k as int);
                lemma_region_start_bound(rs, k as int + 1);
            }
            let next = start + self.regions[k].len();
            let mut g: usize = if start < off {
                off
            } else if start > end {
                end
            } else {
                start
            };
            let hi: usize = if next < off {
                off
            } else if next > end {
                end
            } else {
                next
            };
            let ghost lo = g;
            while g < hi
                invariant
                    self.wf(),
                    rs == self.regions(),
                    rs.len() == self.regions@.len(),
                    off + len == end <= cap,
                    cap == self@.len(),
                    bytes@.len() == len,
                    k < rs.len(),
                    start == region_start(rs, k as int),
                    next == start + rs[k as int].len(),
                    off <= g <= hi <= end,
                    lo <= g,
                    lo < hi ==> start <= lo && hi <= next,
                    forall|i: int| 0 <= i < g - off ==> bytes@[i] == self@[off + i],
                decreases hi - g,
            {
                proof {
                    lemma_flat_index(rs, k as int, g - start);
                }
                bytes[g - off] = self.regions[k][g - start];
                g = g + 1;
            }
            start = next;
            k = k + 1;
        }
        proof {
            lemma_flat_take_all(rs);
            assert(bytes@ =~= self@.subrange(off as int, end as int));
        }
        Ok(())
    }

    /// Writes `bytes` from `offset` on, splitting the write where it crosses
    /// from one region into the next. Fails, changing nothing, when the range
    /// reaches past the end.
    pub fn write(&mut self, offset: u32, bytes: &[u8]) -> (r: Result<(), NotEnoughSpace>)
        requires
            old(self).wf(),
        ensures
            final(self).wf(),
            sizes(final(self).regions()) == sizes(old(self).regions()),
            r is Ok <==> offset + bytes@.len() <= old(self)@.len(),
            r is Ok ==> final(self)@ == overlay(old(self)@, offset as int, bytes@),
            r is Err ==> final(self)@ == old(self)@,
    {
        let len = bytes.len();
        let cap = self.capacity();
        if offset as usize > cap || len > cap - offset as usize {
            return Err(NotEnoughSpace {});
        }
        let off = offset as usize;
        let end = off + len;
        let ghost rs0 = self.regions();
        let ghost whole0 = self@;
        let mut start: usize = 0;
        let mut k: usize = 0;
        while k < self.regions.len()
            invariant
                rs0.len() == self.regions@.len(),
                sizes(self.regions()) == sizes(rs0),
                whole0 == flat(rs0),
                cap == whole0.len(),
                self@.len() == cap,
                off + len == end <= cap,
                bytes@.len() == len,
                k <= rs0.len(),
                start == region_start(rs0, k as int),
                forall|g: int|
                    0 <= g < cap ==> #[trigger] self@[g] == if off <= g < clamp(
                        start as int,
                        off as int,
                        end as int,
                    ) {
                        bytes@[g - off]
                    } else {
                        whole0[g]
                    },
            decreases rs0.len() - k,
        {
            proof {
                lemma_flat_take_step(rs0, k as int);
                lemma_region_start_bound(rs0, k as int + 1);
                assert(sizes(self.regions())[k as int] == self.regions()[k as int].len());
                assert(sizes(rs0)[k as int] == rs0[k as int].len());
            }
            let next = start + self.regions[k].len();
            let mut g: usize = if start < off {
                off
            } else if start > end {
                end
            } else {
                start
            };
            let hi: usize = if next < off {
                off
            } else if next > end {
                end
            } else {
                next
            };
            let ghost lo = g;
            while g < hi
                invariant
                    rs0.len() == self.regions@.len(),
                    sizes(self.regions()) == sizes(rs0),
                    whole0 == flat(rs0),
                    cap == whole0.len(),
                    self@.len() == cap,
                    off + len == end <= cap,
                    bytes@.len() == len,
                    k < rs0.len(),
                    start == region_start(rs0, k as int),
                    next == start + rs0[k as int].len(),
                    self.regions()[k as int].len() == rs0[k as int].len(),
                    off <= lo <= g <= hi <= end,
                    lo == clamp(start as int, off as int, end as int),
                    lo < hi ==> start <= lo && hi <= next,
                    forall|x: int|
                        0 <= x < cap ==> #[trigger] self@[x] == if off <= x < g {
                            bytes@[x - off]
                        } else {
                            whole0[x]
                        },
                decreases hi - g,
            {
                let ghost before = self.regions();
                proof {
                    lemma_region_start_eq(before, rs0, k as int);
                    lemma_flat_update(before, k as int, g - start, bytes@[g - off]);
                }
                self.regions[k][g - start] = bytes[g - off];
                proof {
                    assert(self.regions() =~= before.update(
                        k as int,
                        before[k as int].update(g - start, bytes@[g - off]),
                    ));
                    assert(sizes(self.regions()) == sizes(before));
                }
                g = g + 1;
            }
            start = next;
            k = k + 1;
        }
        proof {
            lemma_flat_take_all(rs0);
            assert(self@ =~= overlay(whole0, off as int, bytes@));
        }
        Ok(())
    }

    /// Sets every byte in `[from, to)` to `ERASE_VALUE`, one byte write at a
    /// time. An empty range (`from >= to`) changes nothing. Fails, changing
    /// nothing, when the range reaches past the end.
    pub fn erase(&mut self, from: u32, to: u32) -> (r: Result<(), NotEnoughSpace>)
        requires
            old(self).wf(),
        ensures
            final(self).wf(),
            sizes(final(self).regions()) == sizes(old(self).regions()),
            r is Ok <==> from >= to || to <= old(self)@.len(),
            r is Ok ==> final(self)@ == fill(old(self)@, from as int, to as int, ERASE_VALUE),
            r is Err ==> final(self)@ == old(self)@,
    {
        if from >= to {
            proof {
                assert(self@ =~= fill(self@, from as int, to as int, ERASE_VALUE));
            }
            return Ok(());
        }
        let cap = self.capacity();
        if to as usize > cap {
            return Err(NotEnoughSpace {});
        }
        let ghost rs0 = self.regions();
        let ghost whole0 = self@;
        let erased_byte: [u8; 1] = [ERASE_VALUE];
        let mut offs: u32 = from;
        while offs < to
            invariant
                self.wf(),
                sizes(self.regions()) == sizes(rs0),
                whole0 == flat(rs0),
                to <= cap == whole0.len(),
                from <= offs <= to,
                erased_byte@ == seq![ERASE_VALUE],
                self@ == fill(whole0, from as int, offs as int, ERASE_VALUE),
            decreases to - offs,
        {
            let written = self.write(offs, &erased_byte);
            proof {
                assert(written is Ok);
                assert(self@ =~= fill(whole0, from as int, offs + 1, ERASE_VALUE));
            }
            offs = offs + 1;
        }
        Ok(())
    }
}

/// Where, inside a region that starts at `start` and holds `size` bytes, a
/// write at global `offset` begins.
pub open spec fn local_offset(start: int, size: int, offset: int) -> int {
    clamp(offset, start, start + size) - start
}

/// The part of `data`, written at global `offset`, that falls in the region
/// that starts at `start` and holds `size` bytes.
pub open spec fn portion(start: int, size: int, offset: int, data: Seq<u8>) -> Seq<u8> {
    let end = offset + data.len();
    data.subrange(clamp(start, offset, end) - offset, clamp(start + size, offset, end) - offset)
}

/// Reading back what was just written gives the written bytes: a write of
/// `data` at `offset` within the device, then a read of as many bytes there.
pub proof fn lemma_write_then_read(before: EepromEmu, after: EepromEmu, offset: u32, data: Seq<u8>)
    requires
        before.wf(),
        offset + data.len() <= before@.len(),
        after@ == overlay(before@, offset as int, data),
    ensures
        offset + data.len() <= after@.len(),
        after@.subrange(offset as int, offset + data.len()) == data,
{
    assert(after@.subrange(offset as int, offset + data.len()) =~= data);
}

/// A write that spans several regions leaves each region as if that
/// region's own part of the data had been written into it alone, at the
/// matching local offset.
pub proof fn lemma_write_splits_by_region(
    before: EepromEmu,
    after: EepromEmu,
    offset: u32,
    data: Seq<u8>,
)
    requires
        before.wf(),
        offset + data.len() <= before@.len(),
        sizes(after.regions()) == sizes(before.regions()),
        after@ == overlay(before@, offset as int, data),
    ensures
        after.regions().len() == before.regions().len(),
        forall|k: int|
            0 <= k < before.regions().len() ==> #[trigger] after.regions()[k] == overlay(
                before.regions()[k],
                local_offset(
                    region_start(before.regions(), k),
                    before.regions()[k].len() as int,
                    offset as int,
                ),
                portion(
                    region_start(before.regions(), k),
                    before.regions()[k].len() as int,
                    offset as int,
                    data,
                ),
            ),
{
    let rs = before.regions();
    let qs = after.regions();
    let off = offset as int;
    let end = off + data.len();
    assert(rs.len() == sizes(rs).len() && qs.len() == sizes(qs).len());
    assert forall|k: int| 0 <= k < rs.len() implies #[trigger] qs[k] == overlay(
        rs[k],
        local_offset(region_start(rs, k), rs[k].len() as int, off),
        portion(region_start(rs, k), rs[k].len() as int, off, data),
    ) by {
        let st = region_start(rs, k);
        let size = rs[k].len() as int;
        assert(sizes(rs)[k] == rs[k].len() && sizes(qs)[k] == qs[k].len());
        lemma_region_start_eq(qs, rs, k);
        lemma_region_start_nonneg(rs, k);
        let want = overlay(rs[k], local_offset(st, size, off), portion(st, size, off, data));
        assert forall|j: int| 0 <= j < size implies qs[k][j] == want[j] by {
            lemma_flat_index(rs, k, j);
            lemma_flat_index(qs, k, j);
        }
        assert(qs[k] =~= want);
    }
}

/// A write of no bytes anywhere within the device changes nothing.
pub proof fn lemma_empty_write_changes_nothing(before: EepromEmu, offset: u32)
    requires
        offset <= before@.len(),
    ensures
        overlay(before@, offset as int, Seq::empty()) == before@,
{
    assert(overlay(before@, offset as int, Seq::empty()) =~= before@);
}

/// On the default two-region device, a write that starts exactly at the
/// boundary lands wholly in the second region, and a read there reads the
/// second region only.
pub proof fn lemma_boundary_offset_stays_in_second_region(
    before: EepromEmu,
    after: EepromEmu,
    data: Seq<u8>,
)
    requires
        before.wf(),
        sizes(before.regions()) == seq![REGION_SIZE as int, REGION_SIZE as int],
        REGION_SIZE + data.len() <= before@.len(),
        sizes(after.regions()) == sizes(before.regions()),
        after@ == overlay(before@, REGION_SIZE as int, data),
    ensures
        after.regions()[0] == before.regions()[0],
        after.regions()[1] == overlay(before.regions()[1], 0, data),
        before@.subrange(REGION_SIZE as int, REGION_SIZE + data.len())
            == before.regions()[1].subrange(0, data.len() as int),
{
    let rs = before.regions();
    assert(rs.len() == sizes(rs).len());
    assert(sizes(rs)[0] == rs[0].len() && sizes(rs)[1] == rs[1].len());
    lemma_write_splits_by_region(before, after, REGION_SIZE as u32, data);
    lemma_flat_take_step(rs, 0);
    assert(rs.take(0) =~= Seq::<Seq<u8>>::empty());
    lemma_flat_take_step(rs, 1);
    assert(after.regions()[0] =~= rs[0]);
    assert(after.regions()[1] =~= overlay(rs[1], 0, data));
    assert forall|j: int| 0 <= j < data.len() implies before@[REGION_SIZE + j] == rs[1][j] by {
        lemma_flat_index(rs, 1, j);
    }
    assert(before@.subrange(REGION_SIZE as int, REGION_SIZE + data.len()) =~= rs[1].subrange(
        0,
        data.len() as int,
    ));
}

/// A region of `n` erased bytes.
fn erased_region(n: usize) -> (r: Vec<u8>)
    ensures
        r@ == erased(n as int),
{
    let mut r: Vec<u8> = Vec::new();
    while r.len() < n
        invariant
            r@ == erased(r@.len() as int),
            r@.len() <= n,
        decreases n - r@.len(),
    {
        r.push(ERASE_VALUE);
        assert(r@ =~= erased(r@.len() as int));
    }
    r
}

} // verus!

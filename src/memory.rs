//! The shared linear memory: reservation and release of regions, and the
//! reads and writes of bytes at given offsets.
use vstd::prelude::*;
use vstd::utf8::valid_utf8;
use crate::error::BoundaryError;
use crate::automaton::{Match, spans};

verus! {

/// Most bytes the shared memory spans: 65535 pages of 64 KiB, one page
/// short of the 32-bit address space.
pub const ADDRESS_LIMIT: u64 = 4294901760;

/// A reserved byte range: `len` bytes from `offset`.
#[derive(Clone, Copy, Debug, PartialEq, Eq, Structural)]
pub struct Region {
    pub offset: u32,
    pub len: u32,
}

/// Live regions are kept in address order, with at least one free byte
/// between neighbours, so that no two share an offset.
pub open spec fn regions_ordered(live: Seq<Region>) -> bool {
    forall|i: int, j: int|
        0 <= i < j < live.len() ==> #[trigger] live[i].offset + live[i].len < #[trigger] live[j].offset
}

/// Where the next reservation is placed: just past the last live region.
pub open spec fn next_offset(live: Seq<Region>) -> int {
    if live.len() == 0 {
        0
    } else {
        live.last().offset + live.last().len + 1
    }
}

/// Some live region starts at `offset`.
pub open spec fn holds_offset(live: Seq<Region>, offset: u32) -> bool {
    exists|i: int| 0 <= i < live.len() && live[i].offset == offset
}

/// The index of the live region that starts at `offset`.
pub open spec fn region_at(live: Seq<Region>, offset: u32) -> int {
    choose|i: int| 0 <= i < live.len() && live[i].offset == offset
}

/// The four little-endian bytes of `v`.
pub open spec fn le_bytes(v: u32) -> Seq<u8> {
    seq![(v % 256) as u8, ((v / 256) % 256) as u8, ((v / 65536) % 256) as u8, ((v / 16777216) % 256) as u8]
}

/// The value of four little-endian bytes.
pub open spec fn le_value(b: Seq<u8>) -> int {
    b[0] + 256 * b[1] + 65536 * b[2] + 16777216 * b[3]
}

/// Reading back four bytes written for `v` gives `v`.
pub proof fn lemma_le_round_trip(v: u32)
    ensures
        le_value(le_bytes(v)) == v,
{
    let b = le_bytes(v);
    assert(b[0] == v % 256);
    assert(b[1] == (v / 256) % 256);
    assert(b[2] == (v / 65536) % 256);
    assert(b[3] == (v / 16777216) % 256);
    assert(v % 256 + 256 * ((v / 256) % 256) + 65536 * ((v / 65536) % 256) + 16777216 * ((v / 16777216) % 256)
        == v) by (nonlinear_arith)
        requires
            v <= u32::MAX,
    ;
}

/// The `len` bytes from `offset` of `bytes`.
pub open spec fn window(bytes: Seq<u8>, offset: int, len: int) -> Seq<u8> {
    bytes.subrange(offset, offset + len)
}

/// Matches written out as consecutive pairs of little-endian `u32`:
/// start, then end.
pub open spec fn encode_spans(ms: Seq<(int, int)>) -> Seq<u8>
    decreases ms.len(),
{
    if ms.len() == 0 {
        Seq::empty()
    } else {
        encode_spans(ms.drop_last()) + le_bytes(ms.last().0 as u32) + le_bytes(ms.last().1 as u32)
    }
}

pub proof fn lemma_encode_spans_len(ms: Seq<(int, int)>)
    ensures
        encode_spans(ms).len() == 8 * ms.len(),
    decreases ms.len(),
{
    if ms.len() > 0 {
        lemma_encode_spans_len(ms.drop_last());
    }
}

/// In ordered regions an offset names at most one region, and `region_at`
/// picks that one.
pub proof fn lemma_offsets_unique(live: Seq<Region>)
    requires
        regions_ordered(live),
    ensures
        forall|i: int, j: int|
            0 <= i < live.len() && 0 <= j < live.len() && #[trigger] live[i].offset == #[trigger] live[j].offset
                ==> i == j,
        forall|i: int| 0 <= i < live.len() ==> region_at(live, #[trigger] live[i].offset) == i,
{
    assert forall|i: int, j: int|
        0 <= i < live.len() && 0 <= j < live.len() && #[trigger] live[i].offset == #[trigger] live[j].offset
            implies i == j by {
        if i < j {
            assert(live[i].offset + live[i].len < live[j].offset);
        } else if j < i {
            assert(live[j].offset + live[j].len < live[i].offset);
        }
    }
    assert forall|i: int| 0 <= i < live.len() implies region_at(live, #[trigger] live[i].offset) == i by {
        let k = region_at(live, live[i].offset);
        assert(0 <= k < live.len() && live[k].offset == live[i].offset);
    }
}

/// Reserving `size` bytes and then releasing the region that came back,
/// with the same size, leaves the reserved regions as they were, so that
/// the next reservation of the same size lands at the same offset again.
pub proof fn lemma_reserve_release_round_trip(live: Seq<Region>, size: u32)
    requires
        regions_ordered(live),
        next_offset(live) + size <= ADDRESS_LIMIT,
    ensures
        ({
            let got = Region { offset: next_offset(live) as u32, len: size };
            let after = live.push(got);
            &&& holds_offset(after, got.offset)
            &&& after[region_at(after, got.offset)].len == size
            &&& after.remove(region_at(after, got.offset)) == live
        }),
{
    let got = Region { offset: next_offset(live) as u32, len: size };
    let after = live.push(got);
    let last = live.len() as int;
    assert(after[last].offset == got.offset);
    assert forall|i: int| 0 <= i < after.len() && after[i].offset == got.offset implies i == last by {
        if i < last {
            if i < last - 1 {
                assert(live[i].offset + live[i].len < live[last - 1].offset);
            }
            assert(after[i] == live[i]);
        }
    }
    assert(after.remove(last) =~= live);
}

/// Relies on std::str::from_utf8: it succeeds exactly on well-formed UTF-8.
#[verifier::external_body]
fn is_well_formed_utf8(b: &[u8]) -> (r: bool)
    ensures
        r == valid_utf8(b@),
{
    std::str::from_utf8(b).is_ok()
}

/// The shared memory and the regions reserved in it.
pub struct SharedMemory {
    bytes: Vec<u8>,
    live: Vec<Region>,
}

impl SharedMemory {
    pub closed spec fn bytes(&self) -> Seq<u8> {
        self.bytes@
    }

    /// The reserved regions, in address order.
    pub closed spec fn live(&self) -> Seq<Region> {
        self.live@
    }

    pub closed spec fn wf(&self) -> bool {
        &&& self.bytes@.len() <= ADDRESS_LIMIT
        &&& regions_ordered(self.live@)
        &&& forall|i: int| 0 <= i < self.live@.len() ==> #[trigger] self.live@[i].offset + self.live@[i].len <= self.bytes@.len()
    }

    /// The layout every well-formed memory keeps: it spans at most
    /// `ADDRESS_LIMIT` bytes, its live regions are in address order (so no
    /// two overlap or share an offset), and each lies inside the memory.
    pub proof fn lemma_layout(&self)
        requires
            self.wf(),
        ensures
            self.bytes().len() <= ADDRESS_LIMIT,
            regions_ordered(self.live()),
            forall|i: int|
                0 <= i < self.live().len() ==> #[trigger] self.live()[i].offset + self.live()[i].len
                    <= self.bytes().len(),
    {
    }

    /// An empty memory with nothing reserved.
    pub fn new() -> (m: Self)
        ensures
            m.wf(),
            m.bytes() == Seq::<u8>::empty(),
            m.live() == Seq::<Region>::empty(),
    {
        SharedMemory { bytes: Vec::new(), live: Vec::new() }
    }

    /// Number of bytes the memory spans.
    pub fn size(&self) -> (r: usize)
        ensures
            r == self.bytes().len(),
    {
        self.bytes.len()
    }

    /// Number of regions currently reserved.
    pub fn live_count(&self) -> (r: usize)
        ensures
            r == self.live().len(),
    {
        self.live.len()
    }

    /// The `len` bytes at `offset`, copied out; the caller keeps its region.
    pub fn read(&self, offset: u32, len: u32) -> (r: Result<Vec<u8>, BoundaryError>)
        requires
            self.wf(),
        ensures
            r.is_ok() <==> offset + len <= self.bytes().len(),
            r.is_ok() ==> r.unwrap()@ == window(self.bytes(), offset as int, len as int),
            r.is_err() ==> r == Err::<Vec<u8>, BoundaryError>(BoundaryError::OutOfBounds),
    {
        if offset as u64 + len as u64 > self.bytes.len() as u64 {
            return Err(BoundaryError::OutOfBounds);
        }
        let start = offset as usize;
        let end = start + len as usize;
        let mut out: Vec<u8> = Vec::new();
        let mut i: usize = start;
        while i < end
            invariant
                start <= i <= end,
                end <= self.bytes@.len(),
                out@ == self.bytes@.subrange(start as int, i as int),
            decreases end - i,
        {
            out.push(self.bytes[i]);
            i += 1;
            assert(out@ =~= self.bytes@.subrange(start as int, i as int));
        }
        Ok(out)
    }

    /// The `len` bytes at `offset`, provided they are well-formed UTF-8 text.
    pub fn read_text(&self, offset: u32, len: u32) -> (r: Result<Vec<u8>, BoundaryError>)
        requires
            self.wf(),
        ensures
            offset + len > self.bytes().len() ==> r == Err::<Vec<u8>, BoundaryError>(BoundaryError::OutOfBounds),
            offset + len <= self.bytes().len() && !valid_utf8(window(self.bytes(), offset as int, len as int))
                ==> r == Err::<Vec<u8>, BoundaryError>(BoundaryError::InvalidEncoding),
            offset + len <= self.bytes().len() && valid_utf8(window(self.bytes(), offset as int, len as int))
                ==> r.is_ok() && r.unwrap()@ == window(self.bytes(), offset as int, len as int),
    {
        let bytes = self.read(offset, len)?;
        if !is_well_formed_utf8(bytes.as_slice()) {
            return Err(BoundaryError::InvalidEncoding);
        }
        Ok(bytes)
    }

    /// Copies `data` into memory at `offset`, as the host does before a call.
    pub fn write(&mut self, offset: u32, data: &[u8]) -> (r: Result<(), BoundaryError>)
        requires
            old(self).wf(),
        ensures
            final(self).wf(),
            final(self).live() == old(self).live(),
            r.is_ok() <==> offset + data@.len() <= old(self).bytes().len(),
            r.is_ok() ==> final(self).bytes() == old(self).bytes().take(offset as int) + data@
                + old(self).bytes().skip(offset + data@.len()),
            r.is_err() ==> r == Err::<(), BoundaryError>(BoundaryError::OutOfBounds) && *final(self) == *old(self),
    {
        if data.len() > self.bytes.len() || offset as usize > self.bytes.len() - data.len() {
            return Err(BoundaryError::OutOfBounds);
        }
        let start = offset as usize;
        let mut i: usize = 0;
        while i < data.len()
            invariant
                self.live@ == old(self).live@,
                self.bytes@.len() == old(self).bytes@.len(),
                old(self).wf(),
                start + data@.len() <= self.bytes@.len(),
                i <= data@.len(),
                self.bytes@ == old(self).bytes@.take(start as int) + data@.take(i as int) + old(self).bytes@.skip(
                    start + i,
                ),
            decreases data@.len() - i,
        {
            self.bytes.set(start + i, data[i]);
            i += 1;
            assert(self.bytes@ =~= old(self).bytes@.take(start as int) + data@.take(i as int)
                + old(self).bytes@.skip(start + i));
        }
        assert(data@.take(data@.len() as int) =~= data@);
        Ok(())
    }

    /// The little-endian `u32` at `offset`.
    pub fn read_u32(&self, offset: u32) -> (r: Result<u32, BoundaryError>)
        requires
            self.wf(),
        ensures
            r.is_ok() <==> offset + 4 <= self.bytes().len(),
            r.is_ok() ==> r.unwrap() == le_value(window(self.bytes(), offset as int, 4)),
            r.is_err() ==> r == Err::<u32, BoundaryError>(BoundaryError::OutOfBounds),
    {
        if offset as u64 + 4 > self.bytes.len() as u64 {
            return Err(BoundaryError::OutOfBounds);
        }
        let i = offset as usize;
        let v = self.bytes[i] as u32 + 256 * self.bytes[i + 1] as u32 + 65536 * self.bytes[i + 2] as u32
            + 16777216 * self.bytes[i + 3] as u32;
        Ok(v)
    }

    fn write_u32(&mut self, at: usize, v: u32)
        requires
            old(self).wf(),
            at + 4 <= old(self).bytes().len(),
        ensures
            final(self).wf(),
            final(self).live() == old(self).live(),
            final(self).bytes() == old(self).bytes().take(at as int) + le_bytes(v) + old(self).bytes().skip(at + 4),
    {
        self.bytes.set(at, (v % 256) as u8);
        self.bytes.set(at + 1, ((v / 256) % 256) as u8);
        self.bytes.set(at + 2, ((v / 65536) % 256) as u8);
        self.bytes.set(at + 3, ((v / 16777216) % 256) as u8);
        assert(self.bytes@ =~= old(self).bytes@.take(at as int) + le_bytes(v) + old(self).bytes@.skip(at + 4));
    }

    /// Writes the spans of `ms` at `at`, as pairs of little-endian `u32`.
    pub fn write_spans(&mut self, at: usize, ms: &Vec<Match>)
        requires
            old(self).wf(),
            at + 8 * ms@.len() <= old(self).bytes().len(),
            forall|i: int| 0 <= i < ms@.len() ==> (#[trigger] ms@[i]).start <= u32::MAX && ms@[i].end <= u32::MAX,
        ensures
            final(self).wf(),
            final(self).live() == old(self).live(),
            final(self).bytes() == old(self).bytes().take(at as int) + encode_spans(spans(ms@))
                + old(self).bytes().skip(at + 8 * ms@.len()),
    {
        let ghost all = spans(ms@);
        let mut i: usize = 0;
        while i < ms.len()
            invariant
                self.wf(),
                self.live() == old(self).live(),
                self.bytes().len() == old(self).bytes().len(),
                at + 8 * ms@.len() <= old(self).bytes().len(),
                all == spans(ms@),
                forall|j: int| 0 <= j < ms@.len() ==> (#[trigger] ms@[j]).start <= u32::MAX && ms@[j].end <= u32::MAX,
                i <= ms@.len(),
                self.bytes() == old(self).bytes().take(at as int) + encode_spans(all.take(i as int))
                    + old(self).bytes().skip(at + 8 * i),
            decreases ms@.len() - i,
        {
            let m = ms[i];
            let ghost before = self.bytes();
            proof {
                lemma_encode_spans_len(all.take(i as int));
            }
            self.write_u32(at + 8 * i, m.start as u32);
            self.write_u32(at + 8 * i + 4, m.end as u32);
            proof {
                let enc = encode_spans(all.take(i as int));
                assert(all.take(i + 1).drop_last() =~= all.take(i as int));
                assert(all.take(i + 1).last() == (m.start as int, m.end as int));
                assert(encode_spans(all.take(i + 1)) == enc + le_bytes(m.start as u32) + le_bytes(m.end as u32));
                assert(self.bytes() =~= old(self).bytes().take(at as int) + encode_spans(all.take(i + 1))
                    + old(self).bytes().skip(at + 8 * (i + 1)));
            }
            i += 1;
        }
        assert(all.take(ms@.len() as int) =~= all);
    }

    /// Reserves `size` bytes just past the last live region and hands their
    /// offset to the caller, who owns them until it releases them. Memory
    /// grows, zero-filled, to hold the region.
    pub fn reserve(&mut self, size: u32) -> (r: Result<u32, BoundaryError>)
        requires
            old(self).wf(),
        ensures
            final(self).wf(),
            next_offset(old(self).live()) + size <= ADDRESS_LIMIT ==> {
                let off = next_offset(old(self).live());
                &&& r == Ok::<u32, BoundaryError>(off as u32)
                &&& forall|i: int|
                    0 <= i < old(self).live().len() ==> #[trigger] old(self).live()[i].offset + old(self).live()[i].len
                        < off
                &&& final(self).live() == old(self).live().push(Region { offset: off as u32, len: size })
                &&& final(self).bytes().len() == if old(self).bytes().len() < off + size {
                    off + size
                } else {
                    old(self).bytes().len() as int
                }
                &&& final(self).bytes().take(old(self).bytes().len() as int) == old(self).bytes()
                &&& forall|i: int| old(self).bytes().len() <= i < final(self).bytes().len() ==> final(self).bytes()[i] == 0
            },
            next_offset(old(self).live()) + size > ADDRESS_LIMIT ==> r == Err::<u32, BoundaryError>(
                BoundaryError::OutOfMemory,
            ) && *final(self) == *old(self),
    {
        let off: u64 = if self.live.len() == 0 {
            0
        } else {
            let last = self.live[self.live.len() - 1];
            last.offset as u64 + last.len as u64 + 1
        };
        if off + size as u64 > ADDRESS_LIMIT {
            return Err(BoundaryError::OutOfMemory);
        }
        assert forall|i: int| 0 <= i < self.live@.len() implies #[trigger] self.live@[i].offset + self.live@[i].len
            < off by {
            let last = self.live@.len() - 1;
            if i < last {
                assert(self.live@[i].offset + self.live@[i].len < self.live@[last].offset);
            }
        }
        let end = (off + size as u64) as usize;
        let ghost start = self.bytes@;
        while self.bytes.len() < end
            invariant
                start == old(self).bytes@,
                self.live@ == old(self).live@,
                old(self).wf(),
                end <= ADDRESS_LIMIT,
                start.len() <= self.bytes@.len() <= if start.len() < end { end as int } else { start.len() as int },
                self.bytes@.take(start.len() as int) == start,
                forall|i: int| start.len() <= i < self.bytes@.len() ==> self.bytes@[i] == 0,
            decreases end - self.bytes@.len(),
        {
            let ghost prev = self.bytes@;
            self.bytes.push(0);
            assert(self.bytes@.take(start.len() as int) =~= prev.take(start.len() as int));
        }
        let ghost prev_live = self.live@;
        let region = Region { offset: off as u32, len: size };
        self.live.push(region);
        assert forall|i: int, j: int| 0 <= i < j < self.live@.len() implies #[trigger] self.live@[i].offset
            + self.live@[i].len < #[trigger] self.live@[j].offset by {
            if j == prev_live.len() && i < j - 1 {
                assert(prev_live[i].offset + prev_live[i].len < prev_live[j - 1].offset);
            } else if j < prev_live.len() {
                assert(prev_live[i].offset + prev_live[i].len < prev_live[j].offset);
            }
        }
        Ok(off as u32)
    }

    /// Gives back the region reserved at `offset`; `size` must be the size
    /// it was reserved with.
    pub fn release(&mut self, offset: u32, size: u32) -> (r: Result<(), BoundaryError>)
        requires
            old(self).wf(),
        ensures
            final(self).wf(),
            final(self).bytes() == old(self).bytes(),
            forall|i: int|
                0 <= i < old(self).live().len() && #[trigger] old(self).live()[i].offset == offset ==> i == region_at(
                    old(self).live(),
                    offset,
                ),
            r.is_ok() <==> holds_offset(old(self).live(), offset)
                && old(self).live()[region_at(old(self).live(), offset)].len == size,
            r.is_ok() ==> final(self).live() == old(self).live().remove(region_at(old(self).live(), offset)),
            r == Err::<(), BoundaryError>(BoundaryError::UnknownRegion) <==> !holds_offset(old(self).live(), offset),
            r == Err::<(), BoundaryError>(BoundaryError::SizeMismatch) <==> holds_offset(old(self).live(), offset)
                && old(self).live()[region_at(old(self).live(), offset)].len != size,
            r.is_err() ==> *final(self) == *old(self),
    {
        proof {
            lemma_offsets_unique(self.live@);
        }
        let mut i: usize = 0;
        while i < self.live.len()
            invariant
                *self == *old(self),
                old(self).wf(),
                i <= self.live@.len(),
                forall|j: int| 0 <= j < i ==> self.live@[j].offset != offset,
            decreases self.live@.len() - i,
        {
            if self.live[i].offset == offset {
                assert forall|j: int| 0 <= j < self.live@.len() && self.live@[j].offset == offset implies j == i by {
                    if j < i {
                        assert(self.live@[j].offset + self.live@[j].len < self.live@[i as int].offset);
                    } else if j > i {
                        assert(self.live@[i as int].offset + self.live@[i as int].len < self.live@[j].offset);
                    }
                }
                if self.live[i].len != size {
                    return Err(BoundaryError::SizeMismatch);
                }
                let ghost prev = self.live@;
                self.live.remove(i);
                assert forall|a: int, b: int| 0 <= a < b < self.live@.len() implies #[trigger] self.live@[a].offset
                    + self.live@[a].len < #[trigger] self.live@[b].offset by {
                    let pa = if a < i { a } else { a + 1 };
                    let pb = if b < i { b } else { b + 1 };
                    assert(prev[pa].offset + prev[pa].len < prev[pb].offset);
                }
                assert forall|j: int| 0 <= j < self.live@.len() implies #[trigger] self.live@[j].offset
                    + self.live@[j].len <= self.bytes@.len() by {
                    let pj = if j < i { j } else { j + 1 };
                    assert(prev[pj].offset + prev[pj].len <= self.bytes@.len());
                }
                return Ok(());
            }
            i += 1;
        }
        Err(BoundaryError::UnknownRegion)
    }
}

} // verus!

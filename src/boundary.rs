//! The four operations the host calls. Each runs against an explicit
//! instance that owns the shared memory and the matcher registry, and checks
//! every handle, offset and size it is given.
use vstd::prelude::*;
use vstd::utf8::valid_utf8;
use crate::automaton::{Automaton, Match, spans, MAX_PATTERN_BYTES};
use crate::error::BoundaryError;
use crate::memory::{
    SharedMemory, Region, window, encode_spans, next_offset, holds_offset, region_at, ADDRESS_LIMIT,
};
use crate::patterns::{split_patterns, split_spaces, lemma_split_spaces_len};
use crate::registry::Registry;
use crate::semantics::{leftmost_longest, lemma_scan_from_shape};

verus! {

/// Outcome of a scan: how many (start, end) pairs were written, and whether
/// more matches existed than the output had room for.
#[derive(Clone, Copy, Debug, PartialEq, Eq, Structural)]
pub struct ScanCount {
    pub written: u32,
    pub truncated: bool,
}

/// One runtime context: its shared memory and the matchers built in it.
pub struct Instance {
    pub memory: SharedMemory,
    pub registry: Registry,
}

impl Instance {
    pub open spec fn wf(&self) -> bool {
        self.memory.wf() && self.registry.wf()
    }

    /// A context with empty memory and no matchers.
    pub fn new() -> (r: Self)
        ensures
            r.wf(),
            r.memory.bytes() == Seq::<u8>::empty(),
            r.memory.live() == Seq::<Region>::empty(),
            r.registry.pattern_sets() == Seq::<Seq<Seq<u8>>>::empty(),
    {
        Instance { memory: SharedMemory::new(), registry: Registry::new() }
    }
}

/// `len` bytes from `ptr` lie inside `bytes`.
pub open spec fn fits(bytes: Seq<u8>, ptr: int, len: int) -> bool {
    ptr + len <= bytes.len()
}

/// `len` bytes from `ptr` lie inside `bytes` and are well-formed UTF-8.
pub open spec fn readable(bytes: Seq<u8>, ptr: u32, len: u32) -> bool {
    fits(bytes, ptr as int, len as int) && valid_utf8(window(bytes, ptr as int, len as int))
}

/// What a successful scan reports and leaves in memory: the first
/// `min(n, total)` leftmost-longest matches, as (start, end) pairs from
/// `out_ptr` on, with every other byte as it was.
pub open spec fn scan_written(
    pats: Seq<Seq<u8>>,
    hay: Seq<u8>,
    n: u32,
    out_ptr: u32,
    before: Seq<u8>,
    after: Seq<u8>,
    c: ScanCount,
) -> bool {
    let all = leftmost_longest(pats, hay);
    let k = if all.len() > n {
        n as int
    } else {
        all.len() as int
    };
    &&& c.written == k
    &&& c.truncated == (all.len() > n)
    &&& after == before.take(out_ptr as int) + encode_spans(all.take(k)) + before.skip(out_ptr + 8 * k)
}

/// Builds a matcher from the space-separated patterns at `patterns_ptr` and
/// registers it; the handle is its index in the registry.
pub fn new_matcher(inst: &mut Instance, patterns_ptr: u32, patterns_len: u32) -> (r: Result<u32, BoundaryError>)
    requires
        old(inst).wf(),
    ensures
        final(inst).wf(),
        final(inst).memory == old(inst).memory,
        !fits(old(inst).memory.bytes(), patterns_ptr as int, patterns_len as int) ==> r == Err::<u32, BoundaryError>(
            BoundaryError::OutOfBounds,
        ),
        fits(old(inst).memory.bytes(), patterns_ptr as int, patterns_len as int) && !readable(
            old(inst).memory.bytes(),
            patterns_ptr,
            patterns_len,
        ) ==> r == Err::<u32, BoundaryError>(BoundaryError::InvalidEncoding),
        readable(old(inst).memory.bytes(), patterns_ptr, patterns_len) && patterns_len > MAX_PATTERN_BYTES
            ==> r == Err::<u32, BoundaryError>(BoundaryError::TooLarge),
        readable(old(inst).memory.bytes(), patterns_ptr, patterns_len) && patterns_len <= MAX_PATTERN_BYTES
            && old(inst).registry.pattern_sets().len() > u32::MAX ==> r == Err::<u32, BoundaryError>(
            BoundaryError::RegistryFull,
        ),
        r.is_ok() <==> readable(old(inst).memory.bytes(), patterns_ptr, patterns_len) && patterns_len
            <= MAX_PATTERN_BYTES && old(inst).registry.pattern_sets().len() <= u32::MAX,
        r.is_ok() ==> r.unwrap() == old(inst).registry.pattern_sets().len() && final(inst).registry.pattern_sets()
            == old(inst).registry.pattern_sets().push(
            split_spaces(window(old(inst).memory.bytes(), patterns_ptr as int, patterns_len as int)),
        ),
        r.is_err() ==> final(inst).registry == old(inst).registry,
{
    let text = match inst.memory.read_text(patterns_ptr, patterns_len) {
        Ok(t) => t,
        Err(e) => {
            return Err(e);
        },
    };
    if patterns_len as usize > MAX_PATTERN_BYTES {
        return Err(BoundaryError::TooLarge);
    }
    if inst.registry.len() > u32::MAX as usize {
        return Err(BoundaryError::RegistryFull);
    }
    let pats = split_patterns(text.as_slice());
    proof {
        lemma_split_spaces_len(text@);
    }
    let a = Automaton::build(&pats);
    let h = inst.registry.register(a);
    Ok(h as u32)
}

/// Scans the text at `value_ptr` with matcher `matcher` and writes up to `n`
/// (start, end) pairs of little-endian `u32` from `out_ptr` on.
pub fn matches(inst: &mut Instance, matcher: u32, value_ptr: u32, value_len: u32, n: u32, out_ptr: u32) -> (r:
    Result<ScanCount, BoundaryError>)
    requires
        old(inst).wf(),
    ensures
        final(inst).wf(),
        final(inst).registry == old(inst).registry,
        final(inst).memory.live() == old(inst).memory.live(),
        r.is_err() ==> final(inst).memory == old(inst).memory,
        matcher >= old(inst).registry.pattern_sets().len() ==> r == Err::<ScanCount, BoundaryError>(
            BoundaryError::InvalidHandle,
        ),
        matcher < old(inst).registry.pattern_sets().len() && !fits(old(inst).memory.bytes(), value_ptr as int, value_len as int)
            ==> r == Err::<ScanCount, BoundaryError>(BoundaryError::OutOfBounds),
        matcher < old(inst).registry.pattern_sets().len() && fits(old(inst).memory.bytes(), value_ptr as int, value_len as int)
            && !readable(old(inst).memory.bytes(), value_ptr, value_len) ==> r == Err::<ScanCount, BoundaryError>(
            BoundaryError::InvalidEncoding,
        ),
        matcher < old(inst).registry.pattern_sets().len() && readable(old(inst).memory.bytes(), value_ptr, value_len)
            && !fits(old(inst).memory.bytes(), out_ptr as int, 8 * n) ==> r == Err::<ScanCount, BoundaryError>(
            BoundaryError::OutOfBounds,
        ),
        r.is_ok() <==> matcher < old(inst).registry.pattern_sets().len() && readable(old(inst).memory.bytes(), value_ptr, value_len)
            && fits(old(inst).memory.bytes(), out_ptr as int, 8 * n),
        r.is_ok() ==> scan_written(
            old(inst).registry.pattern_sets()[matcher as int],
            window(old(inst).memory.bytes(), value_ptr as int, value_len as int),
            n,
            out_ptr,
            old(inst).memory.bytes(),
            final(inst).memory.bytes(),
            r.unwrap(),
        ),
{
    let found: Vec<Match>;
    let truncated: bool;
    {
        let a = match inst.registry.get(matcher as usize) {
            Some(a) => a,
            None => {
                return Err(BoundaryError::InvalidHandle);
            },
        };
        let ghost pats = a.patterns();
        let hay = match inst.memory.read_text(value_ptr, value_len) {
            Ok(h) => h,
            Err(e) => {
                return Err(e);
            },
        };
        proof {
            inst.memory.lemma_layout();
        }
        if out_ptr as u64 + 8 * n as u64 > inst.memory.size() as u64 {
            return Err(BoundaryError::OutOfBounds);
        }
        let res = a.find_limited(hay.as_slice(), n as usize);
        found = res.0;
        truncated = res.1;
        proof {
            lemma_scan_from_shape(pats, hay@, 0);
            let all = leftmost_longest(pats, hay@);
            assert(all.take(all.len() as int) =~= all);
            assert(spans(found@).len() == found@.len());
            if truncated {
                assert(spans(found@) == all.take(n as int));
            }
            assert(found@.len() <= n);
            assert forall|i: int| 0 <= i < found@.len() implies (#[trigger] found@[i]).start <= u32::MAX
                && found@[i].end <= u32::MAX by {
                if truncated {
                    assert(spans(found@) == all.take(n as int));
                    assert(all.take(n as int)[i] == all[i]);
                }
                assert(spans(found@)[i] == all[i]);
            }
        }
    }
    let ghost before = inst.memory.bytes();
    inst.memory.write_spans(out_ptr as usize, &found);
    Ok(ScanCount { written: found.len() as u32, truncated })
}

/// Reserves `size` bytes of shared memory for the host and returns their
/// offset; the host owns them until it hands them back to `deallocate`.
pub fn allocate(inst: &mut Instance, size: u32) -> (r: Result<u32, BoundaryError>)
    requires
        old(inst).wf(),
    ensures
        final(inst).wf(),
        final(inst).registry == old(inst).registry,
        r.is_ok() <==> next_offset(old(inst).memory.live()) + size <= ADDRESS_LIMIT,
        r.is_ok() ==> forall|i: int|
            0 <= i < old(inst).memory.live().len() ==> #[trigger] old(inst).memory.live()[i].offset
                + old(inst).memory.live()[i].len < r.unwrap(),
        r.is_ok() ==> forall|i: int, j: int|
            #![trigger final(inst).memory.bytes()[j], old(inst).memory.live()[i]]
            0 <= i < old(inst).memory.live().len() && old(inst).memory.live()[i].offset <= j
                < old(inst).memory.live()[i].offset + old(inst).memory.live()[i].len
                ==> final(inst).memory.bytes()[j] == old(inst).memory.bytes()[j],
        r.is_ok() ==> r.unwrap() == next_offset(old(inst).memory.live()) && final(inst).memory.live()
            == old(inst).memory.live().push(Region { offset: r.unwrap(), len: size }) && final(inst).memory.bytes().take(
            old(inst).memory.bytes().len() as int,
        ) == old(inst).memory.bytes() && r.unwrap() + size <= final(inst).memory.bytes().len(),
        r.is_err() ==> r == Err::<u32, BoundaryError>(BoundaryError::OutOfMemory) && final(inst).memory == old(
            inst,
        ).memory,
{
    proof {
        inst.memory.lemma_layout();
    }
    let ghost before = inst.memory.bytes();
    let r = inst.memory.reserve(size);
    proof {
        if r.is_ok() {
            assert forall|j: int| 0 <= j < before.len() implies inst.memory.bytes()[j] == before[j] by {
                assert(inst.memory.bytes().take(before.len() as int)[j] == inst.memory.bytes()[j]);
            }
        }
    }
    r
}

/// Takes back the region at `ptr`; `size` must be the size it was reserved
/// with.
pub fn deallocate(inst: &mut Instance, ptr: u32, size: u32) -> (r: Result<(), BoundaryError>)
    requires
        old(inst).wf(),
    ensures
        final(inst).wf(),
        final(inst).registry == old(inst).registry,
        final(inst).memory.bytes() == old(inst).memory.bytes(),
        forall|i: int|
            0 <= i < old(inst).memory.live().len() && #[trigger] old(inst).memory.live()[i].offset == ptr ==> i
                == region_at(old(inst).memory.live(), ptr),
        r.is_ok() <==> holds_offset(old(inst).memory.live(), ptr) && old(inst).memory.live()[region_at(
            old(inst).memory.live(),
            ptr,
        )].len == size,
        r.is_ok() ==> final(inst).memory.live() == old(inst).memory.live().remove(
            region_at(old(inst).memory.live(), ptr),
        ),
        r == Err::<(), BoundaryError>(BoundaryError::UnknownRegion) <==> !holds_offset(old(inst).memory.live(), ptr),
        r == Err::<(), BoundaryError>(BoundaryError::SizeMismatch) <==> holds_offset(old(inst).memory.live(), ptr)
            && old(inst).memory.live()[region_at(old(inst).memory.live(), ptr)].len != size,
        r.is_err() ==> final(inst).memory == old(inst).memory,
{
    inst.memory.release(ptr, size)
}

} // verus!

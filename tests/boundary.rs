use ac_matcher::boundary::{allocate, deallocate, new_matcher, Instance, ScanCount};
use ac_matcher::error::BoundaryError;

fn put(inst: &mut Instance, data: &[u8]) -> u32 {
    let ptr = allocate(inst, data.len() as u32).unwrap();
    inst.memory.write(ptr, data).unwrap();
    ptr
}

fn read_pairs(inst: &Instance, out: u32, count: u32) -> Vec<(u32, u32)> {
    (0..count)
        .map(|i| {
            let s = inst.memory.read_u32(out + 8 * i).unwrap();
            let e = inst.memory.read_u32(out + 8 * i + 4).unwrap();
            (s, e)
        })
        .collect()
}

fn matcher(inst: &mut Instance, patterns: &str) -> u32 {
    let p = put(inst, patterns.as_bytes());
    let h = new_matcher(inst, p, patterns.len() as u32).unwrap();
    deallocate(inst, p, patterns.len() as u32).unwrap();
    h
}

#[test]
fn construct_and_scan_through_memory() {
    let mut inst = Instance::new();
    let h = matcher(&mut inst, "he she hers");
    assert_eq!(h, 0);
    let hay = put(&mut inst, b"shers");
    let out = allocate(&mut inst, 8 * 4).unwrap();
    let c = ac_matcher::boundary::matches(&mut inst, h, hay, 5, 4, out).unwrap();
    assert_eq!(c, ScanCount { written: 1, truncated: false });
    assert_eq!(read_pairs(&inst, out, 1), vec![(0, 3)]);
}

#[test]
fn case_insensitive_through_memory() {
    let mut inst = Instance::new();
    let h = matcher(&mut inst, "ABC");
    let hay = put(&mut inst, b"xxabcxx");
    let out = allocate(&mut inst, 8).unwrap();
    let c = ac_matcher::boundary::matches(&mut inst, h, hay, 7, 1, out).unwrap();
    assert_eq!(c.written, 1);
    assert_eq!(read_pairs(&inst, out, 1), vec![(2, 5)]);
}

#[test]
fn handles_count_up_from_zero() {
    let mut inst = Instance::new();
    assert_eq!(matcher(&mut inst, "a"), 0);
    assert_eq!(matcher(&mut inst, "b"), 1);
    assert_eq!(matcher(&mut inst, "c"), 2);
    assert_eq!(inst.registry.len(), 3);
}

#[test]
fn handle_past_the_registry_is_rejected() {
    let mut inst = Instance::new();
    let hay = put(&mut inst, b"abc");
    let out = allocate(&mut inst, 8).unwrap();
    assert_eq!(ac_matcher::boundary::matches(&mut inst, 0, hay, 3, 1, out), Err(BoundaryError::InvalidHandle));
    let h = matcher(&mut inst, "b");
    assert_eq!(ac_matcher::boundary::matches(&mut inst, h + 1, hay, 3, 1, out), Err(BoundaryError::InvalidHandle));
    assert_eq!(ac_matcher::boundary::matches(&mut inst, u32::MAX, hay, 3, 1, out), Err(BoundaryError::InvalidHandle));
    assert!(ac_matcher::boundary::matches(&mut inst, h, hay, 3, 1, out).is_ok());
}

#[test]
fn capacity_bounds_what_is_written() {
    let mut inst = Instance::new();
    let h = matcher(&mut inst, "a");
    let hay = put(&mut inst, b"aaaaa");
    let out = put(&mut inst, &[0xEE; 40]);
    let guard = put(&mut inst, &[0x77; 4]);
    let c = ac_matcher::boundary::matches(&mut inst, h, hay, 5, 2, out).unwrap();
    assert_eq!(c, ScanCount { written: 2, truncated: true });
    assert_eq!(read_pairs(&inst, out, 2), vec![(0, 1), (1, 2)]);
    // the bytes after the two pairs are untouched
    assert_eq!(inst.memory.read(out + 16, 24).unwrap(), vec![0xEE; 24]);
    assert_eq!(inst.memory.read(guard, 4).unwrap(), vec![0x77; 4]);
}

#[test]
fn capacity_zero_writes_nothing() {
    let mut inst = Instance::new();
    let h = matcher(&mut inst, "a");
    let hay = put(&mut inst, b"aaa");
    let out = put(&mut inst, &[0xEE; 8]);
    let c = ac_matcher::boundary::matches(&mut inst, h, hay, 3, 0, out).unwrap();
    assert_eq!(c, ScanCount { written: 0, truncated: true });
    assert_eq!(inst.memory.read(out, 8).unwrap(), vec![0xEE; 8]);
}

#[test]
fn capacity_larger_than_matches() {
    let mut inst = Instance::new();
    let h = matcher(&mut inst, "ab");
    let hay = put(&mut inst, b"ab ab");
    let out = allocate(&mut inst, 8 * 10).unwrap();
    let c = ac_matcher::boundary::matches(&mut inst, h, hay, 5, 10, out).unwrap();
    assert_eq!(c, ScanCount { written: 2, truncated: false });
    assert_eq!(read_pairs(&inst, out, 2), vec![(0, 2), (3, 5)]);
}

#[test]
fn output_region_outside_memory_is_rejected() {
    let mut inst = Instance::new();
    let h = matcher(&mut inst, "a");
    let hay = put(&mut inst, b"aaa");
    let size = inst.memory.size() as u32;
    assert_eq!(ac_matcher::boundary::matches(&mut inst, h, hay, 3, 1, size - 4), Err(BoundaryError::OutOfBounds));
    assert_eq!(ac_matcher::boundary::matches(&mut inst, h, hay, 3, 0, size), Ok(ScanCount { written: 0, truncated: true }));
}

#[test]
fn haystack_outside_memory_is_rejected() {
    let mut inst = Instance::new();
    let h = matcher(&mut inst, "a");
    let out = allocate(&mut inst, 8).unwrap();
    let size = inst.memory.size() as u32;
    assert_eq!(ac_matcher::boundary::matches(&mut inst, h, size - 1, 2, 1, out), Err(BoundaryError::OutOfBounds));
}

#[test]
fn malformed_text_is_rejected() {
    let mut inst = Instance::new();
    let bad = put(&mut inst, &[b'a', 0xFF, b'b']);
    assert_eq!(new_matcher(&mut inst, bad, 3), Err(BoundaryError::InvalidEncoding));
    assert_eq!(inst.registry.len(), 0);
    let h = matcher(&mut inst, "a");
    let out = allocate(&mut inst, 8).unwrap();
    assert_eq!(ac_matcher::boundary::matches(&mut inst, h, bad, 3, 1, out), Err(BoundaryError::InvalidEncoding));
    // a cut multi-byte character is malformed too
    let cut = put(&mut inst, &[0xC3]);
    assert_eq!(ac_matcher::boundary::matches(&mut inst, h, cut, 1, 1, out), Err(BoundaryError::InvalidEncoding));
}

#[test]
fn multi_byte_text_is_accepted() {
    let mut inst = Instance::new();
    let h = matcher(&mut inst, "caf\u{e9}");
    let text = "un caf\u{e9}";
    let hay = put(&mut inst, text.as_bytes());
    let out = allocate(&mut inst, 8).unwrap();
    let c = ac_matcher::boundary::matches(&mut inst, h, hay, text.len() as u32, 1, out).unwrap();
    assert_eq!(c.written, 1);
    assert_eq!(read_pairs(&inst, out, 1), vec![(3, 8)]);
}

#[test]
fn pattern_text_outside_memory_is_rejected() {
    let mut inst = Instance::new();
    assert_eq!(new_matcher(&mut inst, 0, 1), Err(BoundaryError::OutOfBounds));
}

#[test]
fn reserve_release_cycles_leave_no_trace() {
    let mut inst = Instance::new();
    let keep = allocate(&mut inst, 10).unwrap();
    let live = inst.memory.live_count();
    let first = allocate(&mut inst, 16).unwrap();
    deallocate(&mut inst, first, 16).unwrap();
    let size = inst.memory.size();
    for _ in 0..5 {
        let p = allocate(&mut inst, 16).unwrap();
        assert_eq!(p, first);
        assert_eq!(inst.memory.live_count(), live + 1);
        deallocate(&mut inst, p, 16).unwrap();
        assert_eq!(inst.memory.live_count(), live);
        assert_eq!(inst.memory.size(), size);
    }
    deallocate(&mut inst, keep, 10).unwrap();
    assert_eq!(inst.memory.live_count(), 0);
}

#[test]
fn regions_do_not_share_offsets() {
    let mut inst = Instance::new();
    let a = allocate(&mut inst, 0).unwrap();
    let b = allocate(&mut inst, 0).unwrap();
    let c = allocate(&mut inst, 4).unwrap();
    assert_eq!((a, b, c), (0, 1, 2));
    let d = allocate(&mut inst, 1).unwrap();
    assert_eq!(d, 7);
}

#[test]
fn release_with_wrong_size_is_rejected() {
    let mut inst = Instance::new();
    let p = allocate(&mut inst, 8).unwrap();
    assert_eq!(deallocate(&mut inst, p, 7), Err(BoundaryError::SizeMismatch));
    assert_eq!(inst.memory.live_count(), 1);
    assert_eq!(deallocate(&mut inst, p, 8), Ok(()));
}

#[test]
fn double_release_is_rejected() {
    let mut inst = Instance::new();
    let p = allocate(&mut inst, 8).unwrap();
    assert_eq!(deallocate(&mut inst, p, 8), Ok(()));
    assert_eq!(deallocate(&mut inst, p, 8), Err(BoundaryError::UnknownRegion));
    assert_eq!(deallocate(&mut inst, 1234, 8), Err(BoundaryError::UnknownRegion));
}

#[test]
fn reservation_past_the_address_space_is_refused() {
    let mut inst = Instance::new();
    assert_eq!(allocate(&mut inst, u32::MAX), Err(BoundaryError::OutOfMemory));
    assert_eq!(inst.memory.live_count(), 0);
    assert_eq!(inst.memory.size(), 0);
}

#[test]
fn fresh_memory_is_zeroed_and_u32_reads_are_little_endian() {
    let mut inst = Instance::new();
    let p = allocate(&mut inst, 8).unwrap();
    assert_eq!(inst.memory.read(p, 8).unwrap(), vec![0; 8]);
    inst.memory.write(p, &[0x78, 0x56, 0x34, 0x12]).unwrap();
    assert_eq!(inst.memory.read_u32(p), Ok(0x12345678));
    assert_eq!(inst.memory.read_u32(p + 5), Err(BoundaryError::OutOfBounds));
    assert_eq!(inst.memory.write(p + 6, &[1, 2, 3]), Err(BoundaryError::OutOfBounds));
}

#[test]
fn empty_pattern_text_registers_one_empty_pattern() {
    let mut inst = Instance::new();
    let h = new_matcher(&mut inst, 0, 0).unwrap();
    let hay = put(&mut inst, b"ab");
    let out = allocate(&mut inst, 8 * 4).unwrap();
    let c = ac_matcher::boundary::matches(&mut inst, h, hay, 2, 4, out).unwrap();
    assert_eq!(c, ScanCount { written: 3, truncated: false });
    assert_eq!(read_pairs(&inst, out, 3), vec![(0, 0), (1, 1), (2, 2)]);
}

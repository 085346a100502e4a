use optimal_space_allocator::block::{align_up, HEADER};
use optimal_space_allocator::{Allocator, Layout};

/// An address on a page boundary, far from both ends of the address space.
const ADDRESS: usize = 0x10_0000;

fn lay(size: usize, align: usize) -> Layout {
    Layout::from_size_align(size, align).unwrap()
}

fn fill(a: &mut Allocator<'_>, ptr: usize, byte: u8, n: usize) {
    for i in 0..n {
        a.store(ptr + i, byte);
    }
}

fn holds(a: &Allocator<'_>, ptr: usize, byte: u8, n: usize) -> bool {
    (0..n).all(|i| a.load(ptr + i) == byte)
}

fn write_u64(a: &mut Allocator<'_>, ptr: usize, v: u64) {
    for (i, &byte) in v.to_le_bytes().iter().enumerate() {
        a.store(ptr + i, byte);
    }
}

fn read_u64(a: &Allocator<'_>, ptr: usize) -> u64 {
    let mut bytes = [0u8; 8];
    for (i, byte) in bytes.iter_mut().enumerate() {
        *byte = a.load(ptr + i);
    }
    u64::from_le_bytes(bytes)
}

#[test]
fn basic_alloc_dealloc() {
    let mut buffer = [0u8; 1024];
    let mut a = Allocator::over(&mut buffer, ADDRESS);
    let p = a.allocate(lay(64, 8));
    assert!(p.is_some());
    let p = p.unwrap();
    fill(&mut a, p, 0xAB, 64);
    assert!(a.dealloc(p, lay(64, 8)));
}

#[test]
fn multiple_allocs_are_disjoint() {
    let mut buffer = [0u8; 4096];
    let mut a = Allocator::over(&mut buffer, ADDRESS);
    let l = lay(128, 8);
    let p1 = a.allocate(l);
    let p2 = a.allocate(l);
    let p3 = a.allocate(l);
    assert!(p1.is_some());
    assert!(p2.is_some());
    assert!(p3.is_some());

    let ptrs = [p1.unwrap(), p2.unwrap(), p3.unwrap()];
    for (i, &a_ptr) in ptrs.iter().enumerate() {
        for &b_ptr in &ptrs[i + 1..] {
            assert!(a_ptr + 128 <= b_ptr || b_ptr + 128 <= a_ptr);
        }
    }

    assert!(a.dealloc(ptrs[0], l));
    assert!(a.dealloc(ptrs[1], l));
    assert!(a.dealloc(ptrs[2], l));
}

#[test]
fn best_fit_prefers_tighter_gap() {
    let mut buffer = [0u8; 8192];
    let mut a = Allocator::over(&mut buffer, ADDRESS);
    let sep = lay(64, 8);
    let small = lay(100, 8);
    let big = lay(400, 8);

    let s1 = a.allocate(small).unwrap();
    let g1 = a.allocate(sep).unwrap();
    let s2 = a.allocate(big).unwrap();
    let g2 = a.allocate(sep).unwrap();

    a.dealloc(s1, small);
    a.dealloc(s2, big);

    let req = lay(80, 8);
    let p = a.allocate(req);
    assert!(p.is_some());
    let p = p.unwrap();
    assert!(p < g1);

    a.dealloc(p, req);
    a.dealloc(g1, sep);
    a.dealloc(g2, sep);
}

#[test]
fn alignment_is_honoured() {
    let mut buffer = [0u8; 4096];
    let mut a = Allocator::over(&mut buffer, ADDRESS);
    for &align in &[1, 2, 4, 8, 16, 32, 64, 128, 256] {
        let l = lay(32, align);
        let p = a.allocate(l);
        assert!(p.is_some());
        let p = p.unwrap();
        assert_eq!(p % align, 0, "pointer not {align}-byte aligned");
        a.dealloc(p, l);
    }
}

#[test]
fn oom_returns_null() {
    let mut buffer = [0u8; 128];
    let mut a = Allocator::over(&mut buffer, ADDRESS);
    let p = a.allocate(lay(256, 8));
    assert!(p.is_none());
}

#[test]
fn free_reclaims_full_space() {
    const BUF: usize = 4096;
    let mut buffer = [0u8; BUF];
    let mut a = Allocator::over(&mut buffer, ADDRESS);
    let align = size_of::<usize>();
    let l = lay(64, align);
    let p1 = a.allocate(l).unwrap();
    let p2 = a.allocate(l).unwrap();
    let p3 = a.allocate(l).unwrap();

    a.dealloc(p2, l);
    a.dealloc(p1, l);
    a.dealloc(p3, l);

    // The max allocatable size: the body region after one header, accounting for alignment
    // padding.
    let base = a.buf();
    let raw = base + HEADER;
    let padding = align_up(raw, align) - raw;
    let max_body = BUF - HEADER - padding;
    // Round down to usize alignment so the body does not exceed the buffer.
    let max_size = max_body & !(size_of::<usize>() - 1);

    let big = lay(max_size, align);
    let p = a.allocate(big);
    assert!(p.is_some(), "should be able to allocate {max_size} bytes after full free");
    a.dealloc(p.unwrap(), big);
}

#[test]
fn reuse_after_free() {
    let mut buffer = [0u8; 512];
    let mut a = Allocator::over(&mut buffer, ADDRESS);
    let l = lay(64, 8);
    let p1 = a.allocate(l).unwrap();
    a.dealloc(p1, l);
    let p2 = a.allocate(l);
    assert!(p2.is_some());
    a.dealloc(p2.unwrap(), l);
}

#[test]
fn optimize_space_compacts() {
    let mut buffer = [0u8; 4096];
    let mut a = Allocator::over(&mut buffer, ADDRESS);
    let l = lay(64, 8);
    let p1 = a.allocate(l).unwrap();
    let p2 = a.allocate(l).unwrap();
    let p3 = a.allocate(l).unwrap();

    // Free the middle block, creating a gap.
    a.dealloc(p2, l);

    // p3 should slide left into p2's old space.
    let mut moved = false;
    let mut new_p3 = p3;
    for r in a.optimize_space() {
        if r.old == p3 {
            moved = true;
            new_p3 = r.new;
        }
    }

    assert!(moved, "p3 should have been relocated");
    assert!(new_p3 < p3, "p3 should have moved to a lower address");

    // Data should still be accessible at the new location.
    fill(&mut a, new_p3, 0xCD, 64);

    // After compaction, a larger contiguous region should be available.
    // 2 blocks of (HEADER + 64), so free = 4096 - 2*(HEADER+64) - HEADER for new block.
    let big = lay(4096 - 3 * HEADER - 128, 8);
    let p4 = a.allocate(big);
    assert!(p4.is_some());

    assert!(a.dealloc(p1, l));
    assert!(a.dealloc(new_p3, l));
    assert!(a.dealloc(p4.unwrap(), big));
}

#[test]
fn optimize_space_preserves_data() {
    let mut buffer = [0u8; 4096];
    let mut a = Allocator::over(&mut buffer, ADDRESS);
    let l = lay(8, 8);
    let p1 = a.allocate(l).unwrap();
    let p2 = a.allocate(l).unwrap();
    let p3 = a.allocate(l).unwrap();

    write_u64(&mut a, p1, 0xAAAA);
    write_u64(&mut a, p2, 0xBBBB);
    write_u64(&mut a, p3, 0xCCCC);

    // Free p1, creating a gap at the front.
    a.dealloc(p1, l);

    let mut new_p2 = p2;
    let mut new_p3 = p3;
    for r in a.optimize_space() {
        if r.old == p2 {
            new_p2 = r.new;
        }
        if r.old == p3 {
            new_p3 = r.new;
        }
    }

    assert_eq!(read_u64(&a, new_p2), 0xBBBB);
    assert_eq!(read_u64(&a, new_p3), 0xCCCC);

    a.dealloc(new_p2, l);
    a.dealloc(new_p3, l);
}

#[test]
fn realloc_in_place_when_space_available() {
    let mut buffer = [0u8; 4096];
    let mut a = Allocator::over(&mut buffer, ADDRESS);
    let l = lay(64, 8);
    let p = a.allocate(l);
    assert!(p.is_some());
    let p = p.unwrap();
    fill(&mut a, p, 0xAB, 64);

    // Grow in-place: no other blocks, so the trailing gap is large.
    let p2 = a.realloc(p, l, 128);
    assert_eq!(p2, Some(p), "realloc should expand in-place");
    // The data should still be intact.
    assert_eq!(a.load(p), 0xAB);

    a.dealloc(p, lay(128, 8));
}

#[test]
fn realloc_falls_back_to_copy() {
    let mut buffer = [0u8; 4096];
    let mut a = Allocator::over(&mut buffer, ADDRESS);
    let l = lay(64, 8);
    let p1 = a.allocate(l);
    let p2 = a.allocate(l).unwrap();
    assert!(p1.is_some());
    let p1 = p1.unwrap();
    fill(&mut a, p1, 0xCD, 64);

    // Try to grow p1 beyond the gap before p2: must relocate.
    let big = 1024;
    let p3 = a.realloc(p1, l, big);
    assert!(p3.is_some());
    let p3 = p3.unwrap();
    // Data from p1 should be preserved.
    assert_eq!(a.load(p3), 0xCD);
    assert!(holds(&a, p3, 0xCD, 64));
    assert_ne!(p3, p1);

    assert!(a.dealloc(p2, l));
    assert!(a.dealloc(p3, lay(big, 8)));
}

#[test]
fn realloc_shrink() {
    let mut buffer = [0u8; 4096];
    let mut a = Allocator::over(&mut buffer, ADDRESS);
    let l = lay(128, 8);
    let p = a.allocate(l);
    assert!(p.is_some());
    let p = p.unwrap();
    fill(&mut a, p, 0xEF, 128);

    let p2 = a.realloc(p, l, 32);
    assert_eq!(p2, Some(p), "shrink should be in-place");

    a.dealloc(p, lay(32, 8));
}

#[test]
fn zero_size_alloc() {
    let mut buffer = [0u8; 1024];
    let mut a = Allocator::over(&mut buffer, ADDRESS);
    let l = lay(0, 1);
    let p = a.allocate(l);
    // A zero-size allocation takes a header and no byte.
    assert_eq!(p, Some(ADDRESS + HEADER));
    if let Some(p) = p {
        assert!(a.dealloc(p, l));
    }
}

#[test]
fn align_greater_than_size() {
    let mut buffer = [0u8; 4096];
    let mut a = Allocator::over(&mut buffer, ADDRESS);
    // Align 256 but only 8 bytes of data.
    let l = lay(8, 256);
    let p = a.allocate(l);
    assert!(p.is_some());
    let p = p.unwrap();
    assert_eq!(p % 256, 0, "pointer must be 256-byte aligned");
    fill(&mut a, p, 0xBB, 8);
    a.dealloc(p, l);
}

#[test]
fn alloc_exactly_fills_buffer() {
    // A tiny buffer that can hold exactly one block.
    const BUF: usize = HEADER + size_of::<usize>();
    let mut buffer = [0u8; BUF];
    let mut a = Allocator::over(&mut buffer, ADDRESS);
    let align = size_of::<usize>();
    let base = a.buf();
    let raw = base + HEADER;
    let padding = align_up(raw, align) - raw;
    // The exact size that fills the buffer.
    let size = BUF - HEADER - padding;
    // Round down to usize alignment.
    let size = size & !(size_of::<usize>() - 1);
    assert!(size > 0);
    let l = lay(size, align);
    let p = a.allocate(l);
    assert!(p.is_some(), "should fill buffer exactly with {size} bytes");
    // Second allocation must fail: no space left.
    let p2 = a.allocate(lay(1, 1));
    assert!(p2.is_none(), "buffer should be full");
    a.dealloc(p.unwrap(), l);
}

#[test]
fn realloc_zero_size() {
    let mut buffer = [0u8; 1024];
    let mut a = Allocator::over(&mut buffer, ADDRESS);
    let l = lay(64, 8);
    let p = a.allocate(l);
    assert!(p.is_some());
    let p = p.unwrap();

    // realloc to size 0 should act as dealloc and return null.
    let p2 = a.realloc(p, l, 0);
    assert!(p2.is_none(), "realloc to size 0 should return null");
    assert!(!a.dealloc(p, l));

    // The space should be fully reclaimed: we can allocate again.
    let p3 = a.allocate(l);
    assert!(p3.is_some(), "space should be reclaimed after realloc to 0");
    a.dealloc(p3.unwrap(), l);
}

#[test]
fn realloc_invalid_pointer() {
    let mut buffer = [0u8; 1024];
    let mut a = Allocator::over(&mut buffer, ADDRESS);
    // realloc of a pointer that was never allocated should return null.
    let result = a.realloc(0x1000, lay(64, 8), 128);
    assert!(result.is_none(), "realloc of invalid pointer should return null");
}

#[test]
fn realloc_fills_remaining_gap() {
    let mut buffer = [0u8; 4096];
    let mut a = Allocator::over(&mut buffer, ADDRESS);
    let l = lay(64, 8);
    let p1 = a.allocate(l);
    let p2 = a.allocate(l);
    assert!(p1.is_some());
    assert!(p2.is_some());
    let p1 = p1.unwrap();
    let p2 = p2.unwrap();

    // Find how much space is available after p2.
    let base = a.buf();
    let p2_off = p2 - base;
    let remaining = 4096 - p2_off;
    assert!(remaining > 64);

    // Grow p2 to fill the trailing space.
    let p2_new = a.realloc(p2, l, remaining);
    assert_eq!(p2_new, Some(p2), "should grow in-place into trailing gap");

    // No more space for another allocation.
    let p3 = a.allocate(lay(1, 1));
    assert!(p3.is_none());

    assert!(a.dealloc(p1, l));
    assert!(a.dealloc(p2, lay(remaining, 8)));
}

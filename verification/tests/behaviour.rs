use optimal_space_allocator::allocator::Step;
use optimal_space_allocator::block::{
    align_up, body_len, checked_align_up, checked_body_len, HEADER, WORD,
};
use optimal_space_allocator::lock::{turn, Turn};
use optimal_space_allocator::memory::{copy_bytes, read_header, read_word, write_word};
use optimal_space_allocator::{Allocator, Layout};

const ADDRESS: usize = 0x10_0000;

fn lay(size: usize, align: usize) -> Layout {
    Layout::from_size_align(size, align).unwrap()
}

#[test]
fn layouts_are_checked() {
    assert!(Layout::from_size_align(1, 0).is_none());
    assert!(Layout::from_size_align(1, 3).is_none());
    assert!(Layout::from_size_align(1, 24).is_none());
    assert!(Layout::from_size_align(isize::MAX as usize, 2).is_none());
    assert!(Layout::from_size_align(usize::MAX, 1).is_none());
    let l = Layout::from_size_align(isize::MAX as usize, 1).unwrap();
    assert_eq!((l.size, l.align), (isize::MAX as usize, 1));
    let top = isize::MAX as usize + 1;
    assert!(Layout::from_size_align(1, top).is_none());
    assert!(Layout::from_size_align(0, top).is_some());
}

#[test]
fn rounding_up() {
    assert_eq!(align_up(0, 16), 0);
    assert_eq!(align_up(1, 16), 16);
    assert_eq!(align_up(16, 16), 16);
    assert_eq!(align_up(17, 1), 17);
    assert_eq!(checked_align_up(17, 8), Some(24));
}

#[test]
fn rounding_up_reports_the_end_of_the_address_space() {
    assert_eq!(checked_align_up(usize::MAX - 2, 8), None);
    assert_eq!(checked_align_up(usize::MAX - 15, 16), Some(usize::MAX - 15));
    assert_eq!(checked_align_up(usize::MAX - 14, 16), None);
}

#[test]
fn body_lengths() {
    assert_eq!(HEADER, 3 * WORD);
    // No padding: a page boundary minus the header, word alignment.
    assert_eq!(body_len(0x1000, 0, 5, 1), WORD);
    // The user bytes start at the next multiple of 64.
    assert_eq!(body_len(0x1000, 0, 16, 64), 64 - HEADER + 16);
    assert_eq!(checked_body_len(0x1000, 0, 16, 64), Some(64 - HEADER + 16));
    assert_eq!(checked_body_len(usize::MAX - 3, 0, 1, 1), None);
    assert_eq!(checked_body_len(usize::MAX - 63, 0, 1, 64), None);
    assert_eq!(checked_body_len(0x1000, 0, usize::MAX, 1), None);
}

#[test]
fn words_are_stored_lowest_byte_first() {
    let mut m = [0xFFu8; 32];
    write_word(&mut m, 8, 0x0102);
    assert_eq!(m[7], 0xFF);
    assert_eq!(m[8], 0x02);
    assert_eq!(m[9], 0x01);
    assert_eq!(m[10], 0x00);
    assert_eq!(m[8 + WORD], 0xFF);
    assert_eq!(read_word(&m, 8), 0x0102);
    write_word(&mut m, 8, usize::MAX);
    assert_eq!(read_word(&m, 8), usize::MAX);
}

#[test]
fn bytes_copy_left_over_themselves() {
    let mut m = [0u8, 1, 2, 3, 4, 5, 6, 7];
    copy_bytes(&mut m, 2, 1, 5);
    assert_eq!(m, [0, 2, 3, 4, 5, 6, 6, 7]);
}

#[test]
fn new_takes_the_address_of_the_buffer() {
    let mut buffer = [0u8; 1024];
    let start = buffer.as_ptr() as usize;
    let mut a = Allocator::new(&mut buffer);
    assert_eq!(a.buf(), align_up(start, WORD));
    let p = a.allocate(lay(100, 4)).unwrap();
    assert_eq!(p, a.buf() + HEADER);
    assert!(start + HEADER <= p && p + 100 <= start + 1024);
}

#[test]
fn unaligned_buffer_is_usable() {
    let mut buffer = [0u8; 256];
    let mut a = Allocator::over(&mut buffer, ADDRESS + 2);
    assert_eq!(a.buf(), ADDRESS + WORD);
    let usable = 256 - (WORD - 2);
    assert_eq!(a.allocate(lay(usable - HEADER + 1, 1)), None);
    let room = (usable - HEADER) / WORD * WORD;
    assert_eq!(a.allocate(lay(room, 1)), Some(ADDRESS + WORD + HEADER));
}

#[test]
fn buffer_shorter_than_its_padding_never_fits_anything() {
    let mut buffer = [0u8; 2];
    let mut a = Allocator::over(&mut buffer, ADDRESS + 1);
    assert_eq!(a.buf(), ADDRESS + 1);
    assert_eq!(a.allocate(lay(0, 1)), None);
    let mut top = [0u8; 2];
    let mut b = Allocator::over(&mut top, usize::MAX - 2);
    assert_eq!(b.allocate(lay(0, 1)), None);
    let mut empty: [u8; 0] = [];
    let mut c = Allocator::over(&mut empty, ADDRESS);
    assert_eq!(c.allocate(lay(0, 1)), None);
}

#[test]
fn bytes_before_the_usable_region_stay_as_they_are() {
    let mut buffer = [0x5Au8; 128];
    {
        let mut a = Allocator::over(&mut buffer, ADDRESS + 1);
        let p = a.allocate(lay(64, 1)).unwrap();
        for i in 0..64 {
            a.store(p + i, 0);
        }
        a.optimize_space();
    }
    let padding = WORD - 1;
    assert!(buffer[..padding].iter().all(|&b| b == 0x5A));
    assert!(buffer[padding..padding + WORD].iter().any(|&b| b != 0x5A));

    let mut short = [0x5Au8; 2];
    {
        let mut a = Allocator::over(&mut short, ADDRESS + 1);
        assert_eq!(a.allocate(lay(0, 1)), None);
    }
    assert_eq!(short, [0x5A; 2]);

    let mut plain = [0x5Au8; 128];
    let start = plain.as_ptr() as usize;
    let padding = align_up(start, WORD) - start;
    {
        let mut a = Allocator::new(&mut plain);
        a.allocate(lay(8, 1)).unwrap();
    }
    assert!(plain[..padding].iter().all(|&b| b == 0x5A));
}

#[test]
fn alignment_beyond_the_address_space_does_not_fit() {
    let mut buffer = [0u8; 512];
    let address = usize::MAX - 1023;
    let mut a = Allocator::over(&mut buffer, address);
    assert_eq!(a.allocate(lay(8, 4096)), None);
    assert_eq!(a.allocate(lay(8, 8)), Some(address + align_up(HEADER, 8)));
}

#[test]
fn fit_gap_reports_body_and_waste() {
    let mut buffer = [0u8; 512];
    let a = Allocator::over(&mut buffer, ADDRESS);
    assert_eq!(a.fit_gap(0, HEADER - 1, 0, 1), None);
    assert_eq!(a.fit_gap(0, HEADER, 0, 1), Some((0, 0)));
    assert_eq!(a.fit_gap(0, HEADER, 1, 1), None);
    assert_eq!(a.fit_gap(64, 64 + HEADER + 100, 8, 1), Some((8, 92)));
    assert_eq!(a.fit_gap(100, 64, 0, 1), None);
}

#[test]
fn ties_go_to_the_first_gap() {
    let mut buffer = [0u8; 4096];
    let mut a = Allocator::over(&mut buffer, ADDRESS);
    let l = lay(64, 8);
    let p1 = a.allocate(l).unwrap();
    let _s1 = a.allocate(l).unwrap();
    let p2 = a.allocate(l).unwrap();
    let _s2 = a.allocate(l).unwrap();
    a.dealloc(p2, l);
    a.dealloc(p1, l);
    assert_eq!(a.allocate(l), Some(p1));
    assert_eq!(a.allocate(l), Some(p2));
}

#[test]
fn best_fit_passes_over_an_earlier_larger_gap() {
    let mut buffer = [0u8; 4096];
    let mut a = Allocator::over(&mut buffer, ADDRESS);
    let sep = lay(8, 8);
    let large = a.allocate(lay(256, 8)).unwrap();
    let _s1 = a.allocate(sep).unwrap();
    let small = a.allocate(lay(64, 8)).unwrap();
    let _s2 = a.allocate(sep).unwrap();
    a.dealloc(large, lay(256, 8));
    a.dealloc(small, lay(64, 8));
    assert_eq!(a.allocate(lay(56, 8)), Some(small));
}

#[test]
fn freeing_neighbours_leaves_one_gap() {
    let mut buffer = [0u8; 4096];
    let mut a = Allocator::over(&mut buffer, ADDRESS);
    let l = lay(64, 8);
    let p1 = a.allocate(l).unwrap();
    let p2 = a.allocate(l).unwrap();
    let end = a.allocate(lay(4096 - 3 * HEADER - 128, 8)).unwrap();
    assert_eq!(a.allocate(lay(0, 1)), None);
    a.dealloc(p1, l);
    a.dealloc(p2, l);
    assert_eq!(a.allocate(lay(128 + HEADER, 8)), Some(p1));
    assert!(a.dealloc(end, lay(1, 1)));
}

#[test]
fn dealloc_of_unknown_pointer_changes_nothing() {
    let mut buffer = [0u8; 1024];
    let mut a = Allocator::over(&mut buffer, ADDRESS);
    let l = lay(64, 8);
    let p = a.allocate(l).unwrap();
    a.store(p, 0x5A);
    assert!(!a.dealloc(0x1000, l));
    assert!(!a.dealloc(p + 1, l));
    assert_eq!(a.load(p), 0x5A);
    let p2 = a.allocate(l);
    assert!(p2.is_some());
    assert!(a.dealloc(p, l));
    assert!(!a.dealloc(p, l));
    assert!(a.dealloc(p2.unwrap(), l));
}

#[test]
fn dealloc_goes_by_the_stored_alignment() {
    let mut buffer = [0u8; 1024];
    let mut a = Allocator::over(&mut buffer, ADDRESS);
    let p = a.allocate(lay(8, 64)).unwrap();
    assert_eq!(p, ADDRESS + 64);
    assert!(a.dealloc(p, lay(8, 1)));
}

#[test]
fn realloc_beyond_buffer_returns_null() {
    let mut buffer = [0u8; 1024];
    let mut a = Allocator::over(&mut buffer, ADDRESS);
    let l = lay(16, 8);
    let p = a.allocate(l).unwrap();
    a.store(p, 0x77);
    assert_eq!(a.realloc(p, l, usize::MAX), None);
    assert_eq!(a.realloc(p, l, 1025), None);
    assert_eq!(a.realloc(p, l, 1024), None);
    assert_eq!(a.load(p), 0x77);
    assert!(a.dealloc(p, l));
}

#[test]
fn failed_realloc_leaves_the_block() {
    let mut buffer = [0u8; 256];
    let mut a = Allocator::over(&mut buffer, ADDRESS);
    let l = lay(64, 8);
    let p = a.allocate(l).unwrap();
    let q = a.allocate(l).unwrap();
    a.store(p + 63, 0x11);
    a.store(q, 0x22);
    assert_eq!(a.realloc(p, l, 128), None);
    assert_eq!(a.load(p + 63), 0x11);
    assert_eq!(a.load(q), 0x22);
    assert!(a.dealloc(p, l));
    assert!(a.dealloc(q, l));
}

#[test]
fn relocation_leaves_other_blocks_alone() {
    let mut buffer = [0u8; 1024];
    let mut a = Allocator::over(&mut buffer, ADDRESS);
    let l = lay(32, 8);
    let p = a.allocate(l).unwrap();
    let q = a.allocate(l).unwrap();
    for i in 0..32 {
        a.store(p + i, i as u8);
        a.store(q + i, 100 + i as u8);
    }
    let moved = a.realloc(p, l, 64).unwrap();
    assert!(moved > q);
    for i in 0..32 {
        assert_eq!(a.load(moved + i), i as u8);
        assert_eq!(a.load(q + i), 100 + i as u8);
    }
    // The old place is free again.
    assert_eq!(a.allocate(l), Some(p));
}

#[test]
fn compaction_moves_blocks_behind_each_other() {
    let mut buffer = [0u8; 4096];
    let mut a = Allocator::over(&mut buffer, ADDRESS);
    let sizes = [24usize, 40, 8, 56];
    let ptrs: Vec<usize> = sizes.iter().map(|&s| a.allocate(lay(s, 8)).unwrap()).collect();
    for (n, (&p, &s)) in ptrs.iter().zip(sizes.iter()).enumerate() {
        for i in 0..s {
            a.store(p + i, n as u8 + 1);
        }
    }
    a.dealloc(ptrs[0], lay(24, 8));
    a.dealloc(ptrs[2], lay(8, 8));
    let moves = a.optimize_space();
    assert_eq!(moves.len(), 2);
    assert_eq!((moves[0].old, moves[0].new), (ptrs[1], ADDRESS + HEADER));
    assert_eq!((moves[1].old, moves[1].new), (ptrs[3], ADDRESS + 2 * HEADER + 40));
    for i in 0..40 {
        assert_eq!(a.load(moves[0].new + i), 2);
    }
    for i in 0..56 {
        assert_eq!(a.load(moves[1].new + i), 4);
    }
    // Packed blocks stay where they are.
    assert_eq!(a.optimize_space().len(), 0);
    // All free bytes are behind the last block.
    let rest = 4096 - 3 * HEADER - 96;
    assert_eq!(a.allocate(lay(rest, 8)), Some(ADDRESS + 3 * HEADER + 96));
}

#[test]
fn compaction_with_mixed_alignments() {
    let mut buffer = [0u8; 2048];
    let mut a = Allocator::over(&mut buffer, ADDRESS);
    let l = lay(32, 8);
    let p1 = a.allocate(l).unwrap();
    let p2 = a.allocate(l).unwrap();
    let wide = a.allocate(lay(16, 256)).unwrap();
    let p4 = a.allocate(l).unwrap();
    assert_eq!(wide, ADDRESS + 256);
    a.store(wide, 0x66);
    a.store(p4 + 31, 0x44);
    a.dealloc(p1, l);
    a.dealloc(p2, l);
    // The header of the wide block moves to the front, its user bytes stay where they are, and the
    // block behind it has nowhere to go.
    let moves = a.optimize_space();
    assert_eq!(moves.len(), 1);
    assert_eq!((moves[0].old, moves[0].new), (wide, wide));
    assert_eq!(a.load(wide), 0x66);
    assert_eq!(a.load(p4 + 31), 0x44);
    // The padding of the wide block has taken the gap: nothing fits before it.
    assert!(a.allocate(l).unwrap() > p4);
    assert!(a.dealloc(wide, lay(16, 256)));
    assert_eq!(a.allocate(l), Some(p1));
}

#[test]
fn compaction_writes_no_free_byte() {
    let mut buffer = [0x5Au8; 512];
    {
        let mut a = Allocator::over(&mut buffer, ADDRESS);
        let l = lay(32, 8);
        let p1 = a.allocate(l).unwrap();
        let p2 = a.allocate(l).unwrap();
        for i in 0..32 {
            a.store(p2 + i, 0x11);
        }
        a.dealloc(p1, l);
        assert_eq!(a.optimize_space().len(), 1);
    }
    let block = HEADER + 32;
    assert!(buffer[HEADER..block].iter().all(|&b| b == 0x11));
    // The second block's old user bytes lie in free space now, and still hold what they held.
    assert!(buffer[block + HEADER..2 * block].iter().all(|&b| b == 0x11));
    assert!(buffer[2 * block..].iter().all(|&b| b == 0x5A));
}

#[test]
fn compaction_step_by_step() {
    let mut buffer = [0u8; 1024];
    let mut a = Allocator::over(&mut buffer, ADDRESS);
    let l = lay(16, 8);
    let p1 = a.allocate(l).unwrap();
    let p2 = a.allocate(l).unwrap();
    let p3 = a.allocate(l).unwrap();
    a.dealloc(p2, l);
    let mut cursor = a.start_compaction();
    assert!(matches!(a.compact_step(&mut cursor), Step::Kept));
    match a.compact_step(&mut cursor) {
        Step::Moved(r) => assert_eq!((r.old, r.new), (p3, p2)),
        _ => panic!("the block should move"),
    }
    assert!(matches!(a.compact_step(&mut cursor), Step::Done));
    assert!(a.dealloc(p1, l));
    assert!(a.dealloc(p2, l));
    assert!(!a.dealloc(p3, l));
}

#[test]
fn headers_stand_before_the_user_bytes() {
    let mut buffer = [0u8; 256];
    {
        let mut a = Allocator::over(&mut buffer, ADDRESS);
        a.allocate(lay(9, 2)).unwrap();
        a.allocate(lay(1, 4)).unwrap();
    }
    let first = read_header(&buffer, 0);
    assert_eq!((first.size, first.align), (9, 2));
    assert_eq!(first.next, HEADER + align_up(9, WORD));
    let second = read_header(&buffer, first.next);
    assert_eq!((second.size, second.align, second.next), (1, 4, usize::MAX));
}

#[test]
fn a_contender_enters_a_free_lock_only() {
    assert!(matches!(turn(false), Turn::Enter));
    assert!(matches!(turn(true), Turn::Spin));
}

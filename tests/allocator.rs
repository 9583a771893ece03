use bump_allocator::{after_exchange, align_up, next_block, BumpAllocator};

#[test]
fn align_up_rounds_to_next_multiple() {
    assert_eq!(align_up(0x1001, 8), Some(0x1008));
    assert_eq!(align_up(0x1000, 8), Some(0x1000));
    assert_eq!(align_up(0x1fff, 0x1000), Some(0x2000));
    assert_eq!(align_up(5, 1), Some(5));
    assert_eq!(align_up(0, 16), Some(0));
}

#[test]
fn align_up_past_address_space_is_none() {
    assert_eq!(align_up(usize::MAX, 2), None);
    assert_eq!(align_up(usize::MAX - 6, 8), None);
    assert_eq!(align_up(usize::MAX - 7, 8), Some(usize::MAX - 7));
    assert_eq!(align_up(usize::MAX, 1), Some(usize::MAX));
}

#[test]
fn next_block_from_cursor() {
    // cursor below the buffer counts as its start
    assert_eq!(next_block(0, 0x1003, 256, 16, 8), Some(0x1008));
    assert_eq!(next_block(0x1010, 0x1000, 256, 16, 16), Some(0x1010));
    assert_eq!(next_block(0x1011, 0x1000, 256, 16, 16), Some(0x1020));
    // exactly fills the buffer
    assert_eq!(next_block(0x10f0, 0x1000, 256, 16, 16), Some(0x10f0));
    // one byte too many
    assert_eq!(next_block(0x10f0, 0x1000, 256, 17, 16), None);
    // padding pushes the block past the end
    assert_eq!(next_block(0x10f1, 0x1000, 256, 1, 16), None);
    // end address past the address space
    assert_eq!(next_block(0x1000, 0x1000, 256, usize::MAX, 1), None);
}

#[test]
fn two_blocks_in_large_heap() {
    let start: usize = 0x10003;
    let a = BumpAllocator::<65536>::new(start);
    let first = a.allocate(64, 8).unwrap();
    assert_eq!(first, align_up(start, 8).unwrap());
    assert_eq!(first, 0x10008);
    let second = a.allocate(64, 8).unwrap();
    assert!(second > first);
    assert!(first + 64 <= second);
    assert_eq!(second, 0x10048);
}

#[test]
fn oversized_request_fails() {
    let a = BumpAllocator::<256>::new(0x4000);
    assert_eq!(a.allocate(512, 8), None);
    // nothing was used up by the failure
    assert_eq!(a.allocate(256, 8), Some(0x4000));
}

#[test]
fn small_heap_serves_four_blocks() {
    let a = BumpAllocator::<256>::new(0x4000);
    let mut granted = Vec::new();
    while let Some(p) = a.allocate(64, 8) {
        granted.push(p);
        assert!(granted.len() <= 4);
    }
    assert_eq!(granted, vec![0x4000, 0x4040, 0x4080, 0x40c0]);
    assert_eq!(a.allocate(64, 8), None);
}

#[test]
fn unaligned_small_heap_loses_padding() {
    let a = BumpAllocator::<256>::new(0x4001);
    let mut n: usize = 0;
    while a.allocate(64, 8).is_some() {
        n += 1;
    }
    assert_eq!(n, 3);
}

#[test]
fn every_alignment_is_met() {
    let start: usize = 0x8001;
    let a = BumpAllocator::<65536>::new(start);
    for align in [1usize, 2, 4, 8, 16, 32, 64, 128, 256] {
        let p = a.allocate(align, align).unwrap();
        assert_eq!(p % align, 0);
        assert!(p >= start);
        assert!(p + align <= start + 65536);
    }
}

#[test]
fn zero_size_request_advances_by_padding_only() {
    let a = BumpAllocator::<256>::new(0x1001);
    assert_eq!(a.allocate(1, 1), Some(0x1001));
    assert_eq!(a.allocate(0, 8), Some(0x1008));
    assert_eq!(a.allocate(8, 1), Some(0x1008));
    assert_eq!(a.allocate(0, 1), Some(0x1010));
}

#[test]
fn single_byte_block() {
    let a = BumpAllocator::<65536>::new(0x1000);
    assert_eq!(a.allocate(1, 1), Some(0x1000));
    assert_eq!(a.allocate(1, 1), Some(0x1001));
}

#[test]
fn deallocate_changes_nothing() {
    let plain = BumpAllocator::<256>::new(0x2000);
    let freed = BumpAllocator::<256>::new(0x2000);
    for size in [24usize, 8, 100, 64, 64, 1] {
        let p = plain.allocate(size, 8);
        let q = freed.allocate(size, 8);
        assert_eq!(p, q);
        if let Some(addr) = q {
            freed.deallocate(addr, size, 8);
            freed.deallocate(addr, size, 8);
        }
        freed.deallocate(0, 0, 1);
        freed.deallocate(0xdead_0000, 4096, 4096);
    }
}

#[test]
fn failed_request_keeps_failing() {
    let a = BumpAllocator::<256>::new(0x2000);
    assert_eq!(a.allocate(200, 8), Some(0x2000));
    // 200 granted plus 100 asked for exceeds 256
    assert_eq!(a.allocate(100, 8), None);
    assert_eq!(a.allocate(100, 8), None);
    assert_eq!(a.allocate(128, 8), None);
    // a smaller request may still fit
    assert_eq!(a.allocate(56, 8), Some(0x20c8));
    assert_eq!(a.allocate(1, 1), None);
}

#[test]
fn heap_start_is_kept() {
    let a = BumpAllocator::<64>::new(0x7000);
    assert_eq!(a.heap_start(), 0x7000);
    a.allocate(8, 8);
    assert_eq!(a.heap_start(), 0x7000);
}

#[test]
fn interleaved_cycles_never_overlap() {
    let a = BumpAllocator::<65536>::new(0x1_0000);
    let mut live: Vec<(usize, usize)> = Vec::new();
    let mut all: Vec<usize> = Vec::new();
    for _round in 0..10 {
        for _worker in 0..8 {
            let p = a.allocate(64, 8).unwrap();
            assert_eq!(p % 8, 0);
            for &(q, n) in &live {
                assert!(p + 64 <= q || q + n <= p);
            }
            live.push((p, 64));
            all.push(p);
        }
        for (p, n) in live.drain(..) {
            a.deallocate(p, n, 8);
        }
    }
    assert_eq!(all.len(), 80);
    for w in all.windows(2) {
        assert!(w[0] + 64 <= w[1]);
    }
}

#[test]
fn after_exchange_decides_each_outcome() {
    assert_eq!(after_exchange(0x1000, 0x1008, Ok(0x1000)), Ok(Some(0x1008)));
    // another thread moved the cursor forward: retry from there
    assert_eq!(after_exchange(0x1000, 0x1008, Err(0x1040)), Err(0x1040));
    // a cursor that did not move forward is not retried
    assert_eq!(after_exchange(0x1040, 0x1048, Err(0x1040)), Ok(None));
    assert_eq!(after_exchange(0x1040, 0x1048, Err(0x1000)), Ok(None));
}

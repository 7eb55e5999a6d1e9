use aegis_microkernel::memory::{Frame, FrameAllocator, FrameError, PAGE_SIZE};

#[test]
fn allocation_skips_reserved_frames_and_reuses_freed_frames() {
    let mut allocator = FrameAllocator::<1>::new(0x4000_0000, 8 * PAGE_SIZE).unwrap();
    allocator.reserve(0x4000_0000, 2).unwrap();
    let first = allocator.allocate().unwrap();
    let second = allocator.allocate().unwrap();
    assert_eq!(first.physical_address, 0x4000_2000);
    assert_eq!(second.physical_address, 0x4000_3000);
    allocator.free(first).unwrap();
    assert_eq!(allocator.allocate().unwrap(), first);
}

#[test]
fn exhaustion_and_double_free_are_detected() {
    let mut allocator = FrameAllocator::<1>::new(0x8000, PAGE_SIZE).unwrap();
    let frame = allocator.allocate().unwrap();
    assert_eq!(allocator.allocate(), Err(FrameError::OutOfMemory));
    allocator.free(frame).unwrap();
    assert_eq!(allocator.free(frame), Err(FrameError::DoubleFree));
}

#[test]
fn invalid_ranges_are_rejected() {
    let mut allocator = FrameAllocator::<1>::new(0x1000, 4 * PAGE_SIZE).unwrap();
    assert_eq!(allocator.reserve(0x1001, 1), Err(FrameError::Unaligned));
    assert_eq!(allocator.reserve(0x5000, 1), Err(FrameError::OutOfRange));
}

#[test]
fn region_must_be_aligned_and_fit_the_bitmap() {
    assert!(matches!(
        FrameAllocator::<1>::new(0x1001, PAGE_SIZE),
        Err(FrameError::Unaligned)
    ));
    assert!(matches!(
        FrameAllocator::<1>::new(0x1000, 100),
        Err(FrameError::Unaligned)
    ));
    assert!(matches!(
        FrameAllocator::<1>::new(0x1000, 0),
        Err(FrameError::EmptyRegion)
    ));
    assert!(matches!(
        FrameAllocator::<1>::new(0x1000, 65 * PAGE_SIZE),
        Err(FrameError::EmptyRegion)
    ));
    let allocator = FrameAllocator::<2>::new(0x1000, 65 * PAGE_SIZE).unwrap();
    assert_eq!(allocator.available(), 65);
}

#[test]
fn available_counts_free_frames() {
    let mut allocator = FrameAllocator::<1>::new(0, 6 * PAGE_SIZE).unwrap();
    assert_eq!(allocator.available(), 6);
    allocator.reserve(PAGE_SIZE, 3).unwrap();
    assert_eq!(allocator.available(), 3);
    let frame = allocator.allocate().unwrap();
    assert_eq!(frame.physical_address, 0);
    assert_eq!(allocator.available(), 2);
    allocator.free(frame).unwrap();
    assert_eq!(allocator.available(), 3);
}

#[test]
fn allocation_wraps_around_the_region() {
    let mut allocator = FrameAllocator::<1>::new(0x10_0000, 3 * PAGE_SIZE).unwrap();
    let a = allocator.allocate().unwrap();
    let b = allocator.allocate().unwrap();
    let c = allocator.allocate().unwrap();
    assert_eq!(c.physical_address, 0x10_2000);
    allocator.free(b).unwrap();
    // the search restarts at the hint and finds the freed frame first
    assert_eq!(allocator.allocate().unwrap(), b);
    allocator.free(a).unwrap();
    assert_eq!(allocator.allocate().unwrap(), a);
    assert_eq!(allocator.allocate(), Err(FrameError::OutOfMemory));
}

#[test]
fn free_and_reserve_reject_addresses_outside_the_region() {
    let mut allocator = FrameAllocator::<1>::new(0x2000, 2 * PAGE_SIZE).unwrap();
    assert_eq!(
        allocator.free(Frame {
            physical_address: 0x1000
        }),
        Err(FrameError::OutOfRange)
    );
    assert_eq!(
        allocator.free(Frame {
            physical_address: 0x4000
        }),
        Err(FrameError::OutOfRange)
    );
    assert_eq!(
        allocator.free(Frame {
            physical_address: 0x2800
        }),
        Err(FrameError::OutOfRange)
    );
    assert_eq!(
        allocator.free(Frame {
            physical_address: 0x2000
        }),
        Err(FrameError::DoubleFree)
    );
    assert_eq!(allocator.reserve(0x2000, 3), Err(FrameError::OutOfRange));
    assert_eq!(allocator.reserve(0x3000, usize::MAX), Err(FrameError::OutOfRange));
    allocator.reserve(0x2000, 2).unwrap();
    assert_eq!(allocator.available(), 0);
}

#[test]
fn allocation_takes_the_lowest_free_frame() {
    let mut allocator = FrameAllocator::<1>::new(0x1_0000, 4 * PAGE_SIZE).unwrap();
    let a = allocator.allocate().unwrap();
    let b = allocator.allocate().unwrap();
    let c = allocator.allocate().unwrap();
    assert_eq!(b.physical_address, 0x1_1000);
    allocator.free(c).unwrap();
    allocator.free(a).unwrap();
    // frames 0 and 2 are free: the lower one comes first
    assert_eq!(allocator.allocate().unwrap(), a);
    assert_eq!(allocator.allocate().unwrap(), c);
    assert_eq!(allocator.allocate().unwrap().physical_address, 0x1_3000);
    assert_eq!(allocator.allocate(), Err(FrameError::OutOfMemory));
}

#[test]
fn a_region_at_the_top_of_memory_hands_out_its_first_frame() {
    let mut allocator = FrameAllocator::<1>::new(0xFFFF_FFFF_FFFF_F000, 2 * PAGE_SIZE).unwrap();
    assert_eq!(
        allocator.allocate().unwrap().physical_address,
        0xFFFF_FFFF_FFFF_F000
    );
    assert_eq!(allocator.available(), 1);
}

use audio_graph::{Buffer, BufferAllocator, DefaultPortType};

#[test]
fn acquire_counts_up_per_type() {
    let mut alloc: BufferAllocator<DefaultPortType> = BufferAllocator::default();
    let a0 = alloc.acquire(DefaultPortType::Audio);
    let a1 = alloc.acquire(DefaultPortType::Audio);
    let e0 = alloc.acquire(DefaultPortType::Event);
    assert_eq!(a0.index, 0);
    assert_eq!(a1.index, 1);
    // types have separate pools: the first event index is 0 again
    assert_eq!(e0.index, 0);
    assert_eq!(a0.type_, DefaultPortType::Audio);
    assert_eq!(e0.type_, DefaultPortType::Event);
}

#[test]
fn release_recycles_most_recent_first() {
    let mut alloc: BufferAllocator<DefaultPortType> = BufferAllocator::default();
    let a0 = alloc.acquire(DefaultPortType::Audio);
    let a1 = alloc.acquire(DefaultPortType::Audio);
    alloc.release(a0);
    alloc.release(a1);
    // the free stack pops the most recently released index
    let r0 = alloc.acquire(DefaultPortType::Audio);
    let r1 = alloc.acquire(DefaultPortType::Audio);
    let fresh = alloc.acquire(DefaultPortType::Audio);
    assert_eq!(r0.index, a1.index);
    assert_eq!(r1.index, a0.index);
    assert_eq!(fresh.index, 2);
}

#[test]
fn clear_resets_every_pool() {
    let mut alloc: BufferAllocator<DefaultPortType> = BufferAllocator::default();
    let a = alloc.acquire(DefaultPortType::Audio);
    let _ = alloc.acquire(DefaultPortType::Event);
    alloc.release(a);
    alloc.clear();
    let a0: Buffer<DefaultPortType> = alloc.acquire(DefaultPortType::Audio);
    let e0 = alloc.acquire(DefaultPortType::Event);
    assert_eq!(a0.index, 0);
    assert_eq!(e0.index, 0);
}

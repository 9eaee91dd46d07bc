use trident::memory::{allocate, Constants};

#[test]
fn memory_allocation() {
    allocate::<u128>(32, 1usize << 20, 8);
    allocate::<u64>(32, 2513, 7);
    allocate::<u8>(256, 256, 1);
    allocate::<u8>(64, 32, 1);
}

#[test]
fn layout_of_chunks_and_work() {
    let c = Constants::calculate::<u64>(32, 2513, 7);
    assert_eq!(c.chunk_size, 256);
    assert_eq!(c.nchunk, 1);
    assert_eq!(c.nwork, 8);
    assert_eq!(c.work_size, 32);
    let c = Constants::calculate::<u8>(64, 32, 1);
    assert_eq!((c.chunk_size, c.nchunk, c.nwork, c.work_size), (32, 2, 2, 32));
    let c = Constants::calculate::<u32>(1024, 3000, 4);
    assert_eq!((c.chunk_size, c.nchunk, c.nwork, c.work_size), (2048, 2, 4, 1024));
}

#[test]
fn accesses_cover_the_buffer() {
    let (mut memory, accesses) = allocate::<u64>(32, 64, 8);
    assert_eq!(memory.chunks.len(), 4);
    assert_eq!(accesses.len(), 8);
    for (w, a) in accesses.iter().enumerate() {
        assert_eq!(a.work_offset, w * 32);
        assert_eq!(a.work_size::<u64>(), 4);
        assert_eq!(a.work_offset::<u64>(), w * 4);
    }
    let a = accesses[5];
    a.write(&mut memory, 170, 9);
    assert_eq!(a.read(&memory, 170), 9);
    assert_eq!(memory.chunks[2][42], 9);
    assert_eq!(a.read(&memory, 171), 0);
}

//! Tests of buffers, pipes and the output file.
use ringdl::pipe::KernelPipe;
use ringdl::storage::{
    aligned_start, buffer_room, preallocation, AlignedBuffer, BufferError, DirectFileWriter,
    SECTOR_SIZE,
};

#[test]
fn buffer_is_zeroed_and_aligned() {
    for (capacity, align) in [(1usize, 1usize), (100, 8), (4096, SECTOR_SIZE), (131072, 65536)] {
        let buffer = AlignedBuffer::new(capacity, align).ok().unwrap();
        assert_eq!(buffer.as_slice().len(), capacity);
        assert!(buffer.as_slice().iter().all(|b| *b == 0));
        assert_eq!(buffer.as_slice().as_ptr() as usize % align, 0);
    }
}

#[test]
fn buffer_keeps_what_is_written() {
    let mut buffer = AlignedBuffer::new(16, 4096).ok().unwrap();
    buffer.as_mut_slice()[3] = 7;
    buffer.as_mut_slice()[15] = 9;
    let moved = buffer;
    assert_eq!(moved.as_slice(), &[0, 0, 0, 7, 0, 0, 0, 0, 0, 0, 0, 0, 0, 0, 0, 9]);
    assert_eq!(moved.as_slice().as_ptr() as usize % 4096, 0);
}

#[test]
fn buffer_stays_where_it_is() {
    let mut buffer = AlignedBuffer::new(64, 4096).ok().unwrap();
    let before = buffer.as_slice().as_ptr() as usize;
    buffer.as_mut_slice()[0] = 1;
    buffer.as_mut_slice()[63] = 2;
    assert_eq!(buffer.as_slice().as_ptr() as usize, before);
    assert_eq!(buffer.as_slice().len(), 64);
    assert_eq!((buffer.as_slice()[0], buffer.as_slice()[63]), (1, 2));
    assert!(buffer.as_slice()[1..63].iter().all(|b| *b == 0));
}

#[test]
fn room_for_a_buffer() {
    let max = isize::MAX as usize;
    assert_eq!(buffer_room(100, 1), Some(100));
    assert_eq!(buffer_room(100, 4096), Some(4195));
    assert_eq!(buffer_room(0, 1), Some(0));
    assert_eq!(buffer_room(max, 1), Some(max));
    assert_eq!(buffer_room(max, 2), None);
    assert_eq!(buffer_room(1, 3), None);
    assert_eq!(buffer_room(1, 0), None);
}

#[test]
fn aligned_starts() {
    assert_eq!(aligned_start(0, 4096), 0);
    assert_eq!(aligned_start(8192, 4096), 0);
    assert_eq!(aligned_start(8193, 4096), 4095);
    assert_eq!(aligned_start(12287, 4096), 1);
    assert_eq!(aligned_start(77, 1), 0);
    assert_eq!(aligned_start(usize::MAX, 8), 1);
}

#[test]
fn buffers_are_placed_by_address() {
    let memory: Vec<u8> = (0..11).collect();
    let buffer = AlignedBuffer::place(Some(memory), 1001, 4, 8).ok().unwrap();
    assert_eq!(buffer.as_slice(), &[7, 8, 9, 10]);
    let buffer = AlignedBuffer::place(Some(vec![5; 11]), 1008, 4, 8).ok().unwrap();
    assert_eq!(buffer.as_slice(), &[5; 4]);
    assert_eq!(
        AlignedBuffer::place(None, 0, 4, 8).err(),
        Some(BufferError::OutOfMemory(4))
    );
}

#[test]
fn layouts_are_checked_like_the_standard_library_checks_them() {
    let max = isize::MAX as usize;
    let cases = [
        (0usize, 0usize), (10, 3), (10, 6), (max, 2), (max + 1, 1), (max - 4094, 4096), (usize::MAX, 1),
        (1, usize::MAX), (1, 1 << 63),
    ];
    for (capacity, align) in cases {
        assert!(std::alloc::Layout::from_size_align(capacity, align).is_err());
        assert_eq!(
            AlignedBuffer::new(capacity, align).err(),
            Some(BufferError::InvalidLayout),
            "{} {}",
            capacity,
            align
        );
    }
}

#[test]
fn memory_runs_out() {
    let max = isize::MAX as usize;
    assert_eq!(AlignedBuffer::new(max, 1).err(), Some(BufferError::OutOfMemory(max)));
}

#[test]
fn lengths_to_reserve() {
    assert_eq!(preallocation(None), None);
    assert_eq!(preallocation(Some(0)), None);
    assert_eq!(preallocation(Some(1)), Some(1));
    assert_eq!(preallocation(Some(u64::MAX)), Some(-1));
}

#[test]
fn writer_counts() {
    let mut writer = DirectFileWriter::create(9);
    assert_eq!(writer.raw_fd(), 9);
    assert_eq!(writer.current_offset(), 0);
    writer.advance_offset(10);
    writer.advance_offset(u64::MAX - 10);
    assert_eq!(writer.current_offset(), u64::MAX);
    assert_eq!(writer.raw_fd(), 9);
}

#[test]
fn pipe_is_sixteen_mebibytes() {
    let pipe = KernelPipe::new(3, 4);
    assert_eq!(pipe, KernelPipe { read_fd: 3, write_fd: 4, capacity: 16777216 });
}

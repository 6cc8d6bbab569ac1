//! The kernel pipe that payload passes through on its way from socket to file.
use vstd::prelude::*;

verus! {

/// The size that every pipe is set to: 16 MiB.
pub const PIPE_CAPACITY: usize = 16777216;

/// The two ends of a pipe, as file descriptors, and how much it can hold.
#[derive(Clone, Copy, Debug, PartialEq, Eq, Structural)]
pub struct KernelPipe {
    pub read_fd: i32,
    pub write_fd: i32,
    pub capacity: usize,
}

impl KernelPipe {
    /// A pipe between two descriptors, sized to `PIPE_CAPACITY`.
    pub fn new(read_fd: i32, write_fd: i32) -> (pipe: KernelPipe)
        ensures
            pipe == (KernelPipe { read_fd, write_fd, capacity: PIPE_CAPACITY }),
    {
        KernelPipe { read_fd, write_fd, capacity: PIPE_CAPACITY }
    }
}

} // verus!

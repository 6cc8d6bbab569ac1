//! Memory and files: aligned buffers and the book-keeping of an output file.
use vstd::prelude::*;
#[allow(unused_imports)]
use vstd::arithmetic::power2::{
    lemma2_to64,
    lemma_pow2_adds,
    lemma_pow2_pos,
    lemma_pow2_strictly_increases,
    lemma_pow2_unfold,
    pow2,
};

verus! {

/// The alignment that block devices ask for.
pub const SECTOR_SIZE: usize = 4096;

/// Whether `n` is a power of two.
pub open spec fn power_of_two(n: nat) -> bool
    decreases n,
{
    n == 1 || (n > 0 && n % 2 == 0 && power_of_two(n / 2))
}

/// Whether memory can be laid out in `capacity` bytes aligned to `align`: the
/// alignment is a power of two, and the size rounded up to a multiple of it is no
/// larger than memory can be.
pub open spec fn valid_layout(capacity: usize, align: usize) -> bool {
    &&& power_of_two(align as nat)
    &&& capacity <= isize::MAX - (align - 1)
}

/// Why there is no buffer.
#[derive(Clone, Copy, Debug, PartialEq, Eq, Structural)]
pub enum BufferError {
    /// The size and the alignment do not go together.
    InvalidLayout,
    /// There is not enough memory for this many bytes.
    OutOfMemory(usize),
}

/// A buffer whose first byte lies at a multiple of a given alignment, within memory
/// that is somewhat larger.
pub struct AlignedBuffer {
    data: Vec<u8>,
    base: usize,
    start: usize,
    capacity: usize,
}

impl View for AlignedBuffer {
    type V = Seq<u8>;

    closed spec fn view(&self) -> Seq<u8> {
        self.data@.subrange(self.start as int, self.start + self.capacity)
    }
}

/// Calls `slice::as_ptr`: the address of the first byte of `bytes`. Nothing is
/// claimed of it.
#[verifier::external_body]
fn address(bytes: &[u8]) -> (addr: usize) {
    bytes.as_ptr() as usize
}

fn is_power_of_two(n: usize) -> (b: bool)
    ensures
        b == power_of_two(n as nat),
{
    let mut rest: usize = n;
    while rest > 1 && rest % 2 == 0
        invariant
            power_of_two(n as nat) == power_of_two(rest as nat),
        decreases rest,
    {
        rest = rest / 2;
    }
    rest == 1
}

/// How much memory a buffer of `capacity` bytes needs so that an aligned place can be
/// found in it wherever the memory lies; nothing where they cannot be laid out.
pub fn buffer_room(capacity: usize, align: usize) -> (room: Option<usize>)
    ensures
        room == (if valid_layout(capacity, align) {
            Some((capacity + align - 1) as usize)
        } else {
            None
        }),
{
    if !is_power_of_two(align) || align - 1 > isize::MAX as usize || capacity > isize::MAX as usize
        - (align - 1) {
        None
    } else {
        Some(capacity + (align - 1))
    }
}

/// How far into memory at `addr` the first multiple of `align` lies.
pub fn aligned_start(addr: usize, align: usize) -> (start: usize)
    requires
        align > 0,
    ensures
        start < align,
        (addr + start) % align as int == 0,
{
    let past: usize = addr % align;
    if past == 0 {
        0
    } else {
        proof {
            let whole = addr as int / align as int;
            vstd::arithmetic::div_mod::lemma_fundamental_div_mod(addr as int, align as int);
            vstd::arithmetic::mul::lemma_mul_is_distributive_add(align as int, whole, 1);
            vstd::arithmetic::div_mod::lemma_mod_multiples_basic(whole + 1, align as int);
            assert(addr + (align - past) == (whole + 1) * align) by (nonlinear_arith)
                requires
                    addr == align * whole + past,
            ;
        }
        align - past
    }
}

impl AlignedBuffer {
    /// What holds of every buffer: its bytes lie within the memory it has.
    pub closed spec fn wf(&self) -> bool {
        self.start + self.capacity <= self.data.len()
    }

    /// All the memory that the buffer has.
    pub closed spec fn memory(&self) -> Seq<u8> {
        self.data@
    }

    /// The address at which that memory was found to lie.
    pub closed spec fn base(&self) -> usize {
        self.base
    }

    /// Where in that memory the buffer starts.
    pub closed spec fn offset(&self) -> usize {
        self.start
    }

    /// The buffer of `capacity` bytes at the first multiple of `align` in `memory`,
    /// which lies at `addr`, where there is memory.
    pub fn place(memory: Option<Vec<u8>>, addr: usize, capacity: usize, align: usize) -> (buffer:
        Result<AlignedBuffer, BufferError>)
        requires
            align > 0,
            memory matches Some(data) ==> capacity + align - 1 <= data@.len(),
        ensures
            match memory {
                None => buffer == Err::<AlignedBuffer, _>(BufferError::OutOfMemory(capacity)),
                Some(data) => {
                    &&& buffer matches Ok(b)
                    &&& b.wf()
                    &&& b.memory() == data@
                    &&& b.base() == addr
                    &&& b.offset() < align
                    &&& (addr + b.offset()) % align as int == 0
                    &&& b@ == data@.subrange(b.offset() as int, b.offset() + capacity)
                },
            },
    {
        match memory {
            None => Err(BufferError::OutOfMemory(capacity)),
            Some(data) => {
                let start: usize = aligned_start(addr, align);
                Ok(AlignedBuffer { data, base: addr, start, capacity })
            },
        }
    }

    /// A zeroed buffer of `capacity` bytes whose first byte lies at a multiple of
    /// `align`. Where its memory lies, and whether there is enough of it, is up to the
    /// machine.
    pub fn new(capacity: usize, align: usize) -> (buffer: Result<AlignedBuffer, BufferError>)
        ensures
            buffer == Err::<AlignedBuffer, _>(BufferError::InvalidLayout) <==> !valid_layout(
                capacity,
                align,
            ),
            match buffer {
                Ok(b) => {
                    &&& b.wf()
                    &&& b@ == Seq::new(capacity as nat, |i: int| 0u8)
                    &&& b.memory() == Seq::new((capacity + align - 1) as nat, |i: int| 0u8)
                    &&& b.offset() < align
                    &&& (b.base() + b.offset()) % align as int == 0
                },
                Err(e) => e == BufferError::InvalidLayout || e == BufferError::OutOfMemory(capacity),
            },
    {
        let room: usize = match buffer_room(capacity, align) {
            Some(room) => room,
            None => return Err(BufferError::InvalidLayout),
        };
        let mut data: Vec<u8> = Vec::new();
        let reserved = data.try_reserve(room).is_ok();
        if !reserved {
            return Self::place(None, 0, capacity, align);
        }
        data.resize(room, 0);
        assert(data@ == Seq::new(room as nat, |i: int| 0u8));
        let addr: usize = address(data.as_slice());
        let buffer = Self::place(Some(data), addr, capacity, align);
        assert(buffer->Ok_0@ == Seq::new(capacity as nat, |i: int| 0u8));
        buffer
    }

    /// The bytes of the buffer.
    pub fn as_slice(&self) -> (bytes: &[u8])
        requires
            self.wf(),
        ensures
            bytes@ == self@,
    {
        vstd::slice::slice_subrange(self.data.as_slice(), self.start, self.start + self.capacity)
    }

    /// The bytes of the buffer, to be changed. The buffer stays where it is, and the
    /// memory around it stays as it is. A slice keeps its length, so what is in the
    /// slice in the end is what is in the buffer.
    pub fn as_mut_slice(&mut self) -> (bytes: &mut [u8])
        requires
            old(self).wf(),
        ensures
            bytes@ == old(self)@,
            final(self).base() == old(self).base(),
            final(self).offset() == old(self).offset(),
            final(self).memory() == old(self).memory().take(old(self).offset() as int)
                + final(bytes)@ + old(self).memory().skip(old(self).offset() + old(self)@.len()),
            final(bytes)@.len() == bytes@.len() ==> final(self)@ == final(bytes)@ && final(self).wf(),
    {
        let (_, rest) = self.data.as_mut_slice().split_at_mut(self.start);
        let (bytes, _) = rest.split_at_mut(self.capacity);
        bytes
    }
}

/// The length to reserve on disk for a file of `content_length` bytes, as the
/// kernel's offset type: nothing where the length is unknown or zero.
pub fn preallocation(content_length: Option<u64>) -> (len: Option<i64>)
    ensures
        len == (match content_length {
            Some(n) if n > 0 => Some(n as i64),
            _ => None,
        }),
{
    match content_length {
        Some(n) => if n > 0 {
            Some(n as i64)
        } else {
            None
        },
        None => None,
    }
}

/// An output file: its descriptor, and how far it has been written.
#[derive(Clone, Copy, Debug, PartialEq, Eq, Structural)]
pub struct DirectFileWriter {
    raw_fd: i32,
    current_offset: u64,
}

impl DirectFileWriter {
    /// The descriptor.
    pub closed spec fn fd(self) -> i32 {
        self.raw_fd
    }

    /// How far the file has been written.
    pub closed spec fn offset(self) -> u64 {
        self.current_offset
    }

    /// The writer of a freshly opened file.
    pub fn create(raw_fd: i32) -> (writer: DirectFileWriter)
        ensures
            writer.fd() == raw_fd,
            writer.offset() == 0,
    {
        DirectFileWriter { raw_fd, current_offset: 0 }
    }

    /// The descriptor of the file.
    pub fn raw_fd(&self) -> (fd: i32)
        ensures
            fd == self.fd(),
    {
        self.raw_fd
    }

    /// How far the file has been written.
    pub fn current_offset(&self) -> (offset: u64)
        ensures
            offset == self.offset(),
    {
        self.current_offset
    }

    /// Notes that `bytes` more have been written.
    pub fn advance_offset(&mut self, bytes: u64)
        requires
            old(self).offset() + bytes <= u64::MAX,
        ensures
            final(self).fd() == old(self).fd(),
            final(self).offset() == old(self).offset() + bytes,
    {
        self.current_offset = self.current_offset + bytes;
    }
}

/// The powers of two are one and what comes of doubling it: no other number passes.
pub proof fn law_power_of_two(n: nat, k: nat)
    ensures
        power_of_two(pow2(k)),
        power_of_two(n) ==> exists|j: nat| n == #[trigger] pow2(j),
    decreases n, k,
{
    lemma_pow2_pos(k);
    lemma2_to64();
    if k > 0 {
        law_power_of_two(0, (k - 1) as nat);
        lemma_pow2_unfold(k);
        assert(pow2(k) / 2 == pow2(
            (k - 1) as nat,
        ));
    }
    if power_of_two(n) {
        if n == 1 {
            assert(n == pow2(0));
        } else {
            law_power_of_two(n / 2, 0);
            let j = choose|j: nat| n / 2 == #[trigger] pow2(j);
            lemma_pow2_unfold(j + 1);
            assert(n == pow2(j + 1));
        }
    }
}

/// A buffer can be laid out exactly if its alignment is a power of two and its size, rounded
/// up to a multiple of the alignment, is no larger than memory can be.
pub proof fn law_layout(capacity: usize, align: usize, rounded: int)
    requires
        align > 0,
        rounded % align as int == 0,
        capacity <= rounded < capacity + align,
    ensures
        valid_layout(capacity, align) <==> power_of_two(align as nat) && rounded <= isize::MAX,
{
    if power_of_two(align as nat) && rounded <= isize::MAX {
        lemma_divides_memory(align);
        let n = align as int;
        let a = rounded / n;
        let b = (isize::MAX + 1) / n;
        vstd::arithmetic::div_mod::lemma_fundamental_div_mod(rounded, n);
        vstd::arithmetic::div_mod::lemma_fundamental_div_mod(isize::MAX + 1, n);
        assert(a + 1 <= b) by (nonlinear_arith)
            requires
                n * a < n * b,
                n > 0,
        ;
        assert(n * a + n <= n * b) by (nonlinear_arith)
            requires
                a + 1 <= b,
                n > 0,
        ;
    }
}

proof fn lemma_divides_memory(align: usize)
    requires
        power_of_two(align as nat),
    ensures
        (isize::MAX + 1) % align as int == 0,
{
    law_power_of_two(align as nat, 0);
    let j = choose|j: nat| align as nat == #[trigger] pow2(j);
    vstd::layout::unsigned_int_max_values();
    vstd::layout::signed_int_min_max_values();
    let bits = usize::BITS as nat;
    let m = (bits - 1) as nat;
    if j > m {
        if j > bits {
            lemma_pow2_strictly_increases(bits, j);
        }
        assert(align as nat >= pow2(bits));
    }
    lemma_pow2_adds((m - j) as nat, j);
    vstd::arithmetic::div_mod::lemma_mod_multiples_basic(pow2((m - j) as nat) as int, align as int);
}

} // verus!

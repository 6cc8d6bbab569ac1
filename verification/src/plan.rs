//! The division of a resource among connections.
use vstd::prelude::*;

verus! {

/// A run of bytes of the resource, both ends included.
#[derive(Clone, Copy, Debug, PartialEq, Eq, Structural)]
pub struct ByteRange {
    pub start: u64,
    pub end: u64,
}

impl ByteRange {
    /// How many bytes the range holds.
    pub open spec fn size(self) -> int {
        self.end - self.start + 1
    }

    /// Whether the range holds the byte at `offset`.
    pub open spec fn holds(self, offset: int) -> bool {
        self.start <= offset <= self.end
    }

    /// How many bytes the range holds.
    pub fn len(&self) -> (n: u64)
        requires
            self.start <= self.end,
            self.size() <= u64::MAX,
        ensures
            n == self.size(),
    {
        self.end - self.start + 1
    }
}

/// Whether `total_size` bytes can be divided among `connections`: at least one
/// byte each.
pub open spec fn divisible(total_size: u64, connections: usize) -> bool {
    0 < connections <= total_size
}

/// The share of connection `id`: equal shares from the front, and what is left
/// over goes to the last.
pub open spec fn share(total_size: u64, connections: usize, id: int) -> ByteRange {
    let chunk = total_size as int / connections as int;
    ByteRange {
        start: (id * chunk) as u64,
        end: if id == connections - 1 {
            (total_size - 1) as u64
        } else {
            (id * chunk + chunk - 1) as u64
        },
    }
}

/// The share of connection `id` of `connections`.
pub fn share_of(total_size: u64, connections: usize, id: usize) -> (range: ByteRange)
    requires
        divisible(total_size, connections),
        id < connections,
    ensures
        range == share(total_size, connections, id as int),
{
    let chunk_size: u64 = total_size / connections as u64;
    proof {
        lemma_share_bounds(total_size, connections, id as int);
    }
    let start: u64 = id as u64 * chunk_size;
    let end: u64 = if id == connections - 1 {
        total_size - 1
    } else {
        start + chunk_size - 1
    };
    ByteRange { start, end }
}

proof fn lemma_share_bounds(total_size: u64, connections: usize, id: int)
    requires
        divisible(total_size, connections),
        0 <= id < connections,
    ensures
        ({
            let chunk = total_size as int / connections as int;
            &&& 1 <= chunk
            &&& 0 <= id * chunk
            &&& id * chunk + chunk <= total_size
            &&& id * chunk + chunk == (id + 1) * chunk
        }),
{
    let n = connections as int;
    let chunk = total_size as int / n;
    assert(1 <= chunk && n * chunk <= total_size) by (nonlinear_arith)
        requires
            0 < n <= total_size,
            chunk == total_size as int / n,
    ;
    assert(0 <= id * chunk && id * chunk + chunk == (id + 1) * chunk && (id + 1) * chunk <= n
        * chunk) by (nonlinear_arith)
        requires
            0 <= id < n,
            1 <= chunk,
    ;
}

/// Every share holds at least one byte and lies within the resource.
pub proof fn law_share_within(total_size: u64, connections: usize, id: int)
    requires
        divisible(total_size, connections),
        0 <= id < connections,
    ensures
        share(total_size, connections, id).start <= share(total_size, connections, id).end,
        share(total_size, connections, id).end < total_size,
{
    lemma_share_bounds(total_size, connections, id);
}

/// The shares follow one another without gap or overlap, from the first byte of
/// the resource to the last.
pub proof fn law_shares_adjoin(total_size: u64, connections: usize, id: int)
    requires
        divisible(total_size, connections),
        0 <= id < connections,
    ensures
        share(total_size, connections, 0).start == 0,
        id + 1 < connections ==> share(total_size, connections, id + 1).start == share(
            total_size,
            connections,
            id,
        ).end + 1,
        share(total_size, connections, connections - 1).end == total_size - 1,
{
    lemma_share_bounds(total_size, connections, id);
    if id + 1 < connections {
        lemma_share_bounds(total_size, connections, id + 1);
    }
}

/// No byte is in the shares of two connections.
pub proof fn law_shares_disjoint(
    total_size: u64,
    connections: usize,
    a: int,
    b: int,
    offset: int,
)
    requires
        divisible(total_size, connections),
        0 <= a < connections,
        0 <= b < connections,
        share(total_size, connections, a).holds(offset),
        share(total_size, connections, b).holds(offset),
    ensures
        a == b,
{
    if a < b {
        lemma_share_order(total_size, connections, a, b);
    } else if b < a {
        lemma_share_order(total_size, connections, b, a);
    }
}

proof fn lemma_share_order(total_size: u64, connections: usize, a: int, b: int)
    requires
        divisible(total_size, connections),
        0 <= a < b < connections,
    ensures
        share(total_size, connections, a).end < share(total_size, connections, b).start,
{
    let chunk = total_size as int / connections as int;
    lemma_share_bounds(total_size, connections, a);
    lemma_share_bounds(total_size, connections, b);
    assert((a + 1) * chunk <= b * chunk) by (nonlinear_arith)
        requires
            a + 1 <= b,
            1 <= chunk,
    ;
}

/// Every byte of the resource is in some connection's share.
pub proof fn law_shares_cover(total_size: u64, connections: usize, offset: int) -> (id: int)
    requires
        divisible(total_size, connections),
        0 <= offset < total_size,
    ensures
        0 <= id < connections,
        share(total_size, connections, id).holds(offset),
{
    lemma_cover_from(total_size, connections, connections - 1, offset)
}

proof fn lemma_cover_from(total_size: u64, connections: usize, id: int, offset: int) -> (found: int)
    requires
        divisible(total_size, connections),
        0 <= id < connections,
        0 <= offset <= share(total_size, connections, id).end,
    ensures
        0 <= found <= id,
        share(total_size, connections, found).holds(offset),
    decreases id,
{
    law_shares_adjoin(total_size, connections, id);
    if share(total_size, connections, id).start <= offset {
        id
    } else {
        law_shares_adjoin(total_size, connections, id - 1);
        lemma_cover_from(total_size, connections, id - 1, offset)
    }
}

/// The bytes of the first `n` shares together.
pub open spec fn shares_size(total_size: u64, connections: usize, n: int) -> int
    decreases n,
{
    if n <= 0 {
        0
    } else {
        shares_size(total_size, connections, n - 1) + share(
            total_size,
            connections,
            n - 1,
        ).size()
    }
}

/// The shares together are as long as the resource.
pub proof fn law_shares_add_up(total_size: u64, connections: usize)
    requires
        divisible(total_size, connections),
    ensures
        shares_size(total_size, connections, connections as int) == total_size,
{
    lemma_shares_size(total_size, connections, connections as int);
}

proof fn lemma_shares_size(total_size: u64, connections: usize, n: int)
    requires
        divisible(total_size, connections),
        0 < n <= connections,
    ensures
        shares_size(total_size, connections, n) == share(total_size, connections, n - 1).end + 1,
    decreases n,
{
    if n > 1 {
        lemma_shares_size(total_size, connections, n - 1);
        law_shares_adjoin(total_size, connections, n - 2);
    } else {
        law_shares_adjoin(total_size, connections, 0);
        assert(shares_size(total_size, connections, 0) == 0);
    }
}

/// A resource can be divided exactly if there is a connection and a byte for each.
pub proof fn law_divisible(total_size: u64, connections: usize)
    ensures
        divisible(total_size, connections) <==> connections >= 1 && total_size >= connections,
{
}

/// The resource is shared out equally: all shares but the last are of one size, as large
/// as it can be, and the last takes in addition the few bytes that are left over.
pub proof fn law_shares_equal(total_size: u64, connections: usize, id: int)
    requires
        divisible(total_size, connections),
        0 <= id < connections - 1,
    ensures
        ({
            let size = share(total_size, connections, id).size();
            let last = share(total_size, connections, connections - 1).size();
            &&& connections * size <= total_size < connections * (size + 1)
            &&& share(total_size, connections, id).start == id * size
            &&& last == size + (total_size - connections * size)
        }),
{
    let n = connections as int;
    let chunk = total_size as int / n;
    lemma_share_bounds(total_size, connections, id);
    lemma_share_bounds(total_size, connections, n - 1);
    assert(n * chunk <= total_size < n * (chunk + 1)) by (nonlinear_arith)
        requires
            0 < n,
            0 <= total_size,
            chunk == total_size as int / n,
    ;
    assert(n * chunk == (n - 1) * chunk + chunk) by (nonlinear_arith);
}

} // verus!

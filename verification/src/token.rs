//! Tokens that tie a completed operation to its connection and its kind.
use vstd::prelude::*;

verus! {

/// The request is being sent.
pub const STATE_SEND_REQ: u8 = 1;

/// The response head is being read.
pub const STATE_READ_HEADER: u8 = 2;

/// The payload that came along with the head is being written.
pub const STATE_WRITE_INITIAL: u8 = 3;

/// Payload is being moved from the socket into the pipe.
pub const STATE_SPLICE_IN: u8 = 4;

/// Payload is being moved from the pipe into the file.
pub const STATE_SPLICE_OUT: u8 = 5;

/// The connection numbers that a token can carry are below this bound.
pub const CONN_ID_LIMIT: u64 = 0x100_0000_0000_0000;

/// The token of an operation: the kind in its lowest byte, the connection above.
pub open spec fn token(conn_id: nat, state: u8) -> u64 {
    ((conn_id % (CONN_ID_LIMIT as nat)) * 256 + state) as u64
}

/// The connection that a token carries.
pub open spec fn token_conn(user_data: u64) -> usize {
    (user_data / 256) as usize
}

/// The kind of operation that a token carries.
pub open spec fn token_state(user_data: u64) -> u8 {
    (user_data % 256) as u8
}

/// Packs a connection and a kind of operation into a token.
pub fn encode_user_data(conn_id: usize, state: u8) -> (user_data: u64)
    ensures
        user_data == token(conn_id as nat, state),
{
    let id: u64 = conn_id as u64;
    let user_data: u64 = (id << 8) | (state as u64);
    assert(user_data == (id % 0x100_0000_0000_0000) * 256 + state) by (bit_vector)
        requires
            user_data == (id << 8) | (state as u64),
    ;
    user_data
}

/// Unpacks a token.
pub fn decode_user_data(user_data: u64) -> (parts: (usize, u8))
    ensures
        parts.0 == token_conn(user_data),
        parts.1 == token_state(user_data),
{
    assert(user_data >> 8 == user_data / 256) by (bit_vector);
    assert(user_data & 0xFF == user_data % 256) by (bit_vector);
    let state: u8 = (user_data & 0xFF) as u8;
    let conn_id: usize = (user_data >> 8) as usize;
    (conn_id, state)
}

/// A token gives back the connection and the kind that went into it.
pub proof fn law_token_round_trip(conn_id: usize, state: u8)
    requires
        conn_id < CONN_ID_LIMIT,
    ensures
        token_conn(token(conn_id as nat, state)) == conn_id,
        token_state(token(conn_id as nat, state)) == state,
{
}

/// Every token whose connection fits in a `usize` is the token of what it
/// carries: no two pairs share a token, and none is unused.
pub proof fn law_token_unique(user_data: u64)
    requires
        user_data / 256 <= usize::MAX,
    ensures
        token(token_conn(user_data) as nat, token_state(user_data)) == user_data,
{
}

/// The kinds of operations have the numbers from one to five, in the order in which a
/// connection comes to them.
pub proof fn law_kinds()
    ensures
        seq![
            STATE_SEND_REQ,
            STATE_READ_HEADER,
            STATE_WRITE_INITIAL,
            STATE_SPLICE_IN,
            STATE_SPLICE_OUT,
        ] == seq![1u8, 2u8, 3u8, 4u8, 5u8],
{
}

/// A token is 256 times the connection plus the kind, and is taken apart accordingly.
pub proof fn law_token_layout(conn_id: nat, state: u8, user_data: u64)
    ensures
        conn_id < 0x100_0000_0000_0000 ==> token(conn_id, state) == 256 * conn_id + state,
        user_data / 256 <= usize::MAX ==> 256 * token_conn(user_data) + token_state(user_data)
            == user_data,
{
}

} // verus!

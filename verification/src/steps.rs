//! What a download does in answer to each completion, told by what is asked for next and
//! by what was counted before and after.
#![allow(unused_imports)]
use vstd::prelude::*;
use vstd::utf8::encode_utf8;
use crate::connection::{
    initial_conn,
    listed,
    monus,
    ConnView,
    ConnectionState,
    Submission,
    SubmissionView,
};
use crate::engine::{
    live,
    opening_submissions,
    used_connections,
    EngineError,
    Errnos,
    Step,
    StepView,
    Transfer,
    TransferView,
};
use crate::guarantees::{opening_run, Event};
use crate::http::{response_header, HttpResponseHeader, ResponseError};
use crate::pipe::KernelPipe;
use crate::plan::{divisible, law_share_within, share, ByteRange};
use crate::request::{range_request, ParsedUrlView};

verus! {

/// Whether the token `user_data` is that of an operation of kind `state` on connection
/// `id`: the kind is its lowest byte, and the connection is what is above.
pub open spec fn carries(user_data: u64, id: int, state: int) -> bool {
    user_data as int % 256 == state && user_data as int / 256 == id
}

/// Whether `s` reads on from the socket of `c`, as much as there is room for.
pub open spec fn reads_on(s: SubmissionView, c: ConnView) -> bool {
    s matches SubmissionView::ReadHeader { fd, len, user_data } && fd == c.sock_fd && len == (
    c.header_capacity - c.header.len()) as u32 && carries(user_data, c.id as int, 2)
}

/// Whether `s` moves `n` bytes from the socket of `c` into its pipe.
pub open spec fn moves_in(s: SubmissionView, c: ConnView, n: nat) -> bool {
    s matches SubmissionView::Splice { fd_in, off_in, fd_out, off_out, len, user_data } && fd_in
        == c.sock_fd && off_in == -1 && fd_out == c.pipe.write_fd && off_out == -1 && len
        == n as u32 && carries(user_data, c.id as int, 4)
}

/// Whether `s` moves `n` bytes from the pipe of `c` to its place in the file.
pub open spec fn moves_out(s: SubmissionView, c: ConnView, n: nat, writer_fd: i32) -> bool {
    s matches SubmissionView::Splice { fd_in, off_in, fd_out, off_out, len, user_data } && fd_in
        == c.pipe.read_fd && off_in == -1 && fd_out == writer_fd && off_out == c.file_offset as i64
        && len == n as u32 && carries(user_data, c.id as int, 5)
}

/// Whether a move from the socket into the pipe is due: payload is still to come, none is
/// on its way, and there is room for it.
pub open spec fn in_due(c: ConnView, buf_size: nat) -> bool {
    &&& !c.network_eof
    &&& c.inflight_in_bytes == 0
    &&& c.bytes_remaining > 0
    &&& c.pipe_bytes_available < c.pipe.capacity
    &&& buf_size > 0
}

/// Whether a move from the pipe into the file is due: there is something in the pipe and
/// nothing on its way, and a mebibyte has gathered or nothing more will come.
pub open spec fn out_due(c: ConnView, buf_size: nat) -> bool {
    &&& !c.disk_eof
    &&& c.inflight_out_bytes == 0
    &&& c.pipe_bytes_available > 0
    &&& buf_size > 0
    &&& c.network_eof || c.done || c.pipe_bytes_available >= 1048576
}

/// Whether `n` is as much as a move into the pipe of `c` can ask for, and no more: one of
/// the three limits is reached and none is passed.
pub open spec fn fills(c: ConnView, n: nat, buf_size: nat) -> bool {
    &&& n <= buf_size
    &&& n <= c.bytes_remaining
    &&& c.pipe_bytes_available + n <= c.pipe.capacity
    &&& n == buf_size || n == c.bytes_remaining || c.pipe_bytes_available + n == c.pipe.capacity
}

/// Whether `n` is as much as a move out of the pipe of `c` can ask for, and no more.
pub open spec fn empties(c: ConnView, n: nat, buf_size: nat) -> bool {
    &&& n <= buf_size
    &&& n <= c.pipe_bytes_available
    &&& n == buf_size || n == c.pipe_bytes_available
}

/// Whether `subs` is what `c` asks of the network, after which `n` bytes are on their way
/// into the pipe.
pub open spec fn feeds(c: ConnView, n: nat, subs: Seq<SubmissionView>, buf_size: nat) -> bool {
    if in_due(c, buf_size) {
        subs.len() == 1 && moves_in(subs[0], c, n) && fills(c, n, buf_size)
    } else {
        subs.len() == 0 && n == c.inflight_in_bytes
    }
}

/// Whether `subs` is what `c` asks of the file, after which `n` bytes are on their way out
/// of the pipe.
pub open spec fn drains(
    c: ConnView,
    n: nat,
    subs: Seq<SubmissionView>,
    writer_fd: i32,
    buf_size: nat,
) -> bool {
    if out_due(c, buf_size) {
        subs.len() == 1 && moves_out(subs[0], c, n, writer_fd) && empties(c, n, buf_size)
    } else {
        subs.len() == 0 && n == c.inflight_out_bytes
    }
}

/// Whether `c` turned into `next` and asked for `subs` when both its sides were served, the
/// network first.
pub open spec fn serves(
    c: ConnView,
    next: ConnView,
    subs: Seq<SubmissionView>,
    writer_fd: i32,
    buf_size: nat,
) -> bool {
    let k: int = if in_due(c, buf_size) {
        1
    } else {
        0
    };
    &&& next == ConnView {
        inflight_in_bytes: next.inflight_in_bytes,
        inflight_out_bytes: next.inflight_out_bytes,
        ..c
    }
    &&& k <= subs.len()
    &&& feeds(c, next.inflight_in_bytes, subs.take(k), buf_size)
    &&& drains(c, next.inflight_out_bytes, subs.skip(k), writer_fd, buf_size)
}

/// Whether `c`, which knows how much payload is still to come, turned into `next` and asked
/// for `subs`: it asks for payload as long as some is to come, and otherwise ends.
pub open spec fn goes_on(
    c: ConnView,
    next: ConnView,
    subs: Seq<SubmissionView>,
    writer_fd: i32,
    buf_size: nat,
) -> bool {
    if c.bytes_remaining == 0 {
        &&& next == ConnView { network_eof: true, disk_eof: true, done: true, ..c }
        &&& subs.len() == 0
    } else {
        serves(c, next, subs, writer_fd, buf_size)
    }
}

/// Asking the network for payload asks for one move of as much as can be had, exactly if
/// one is due, and notes how much; nothing else of the connection changes.
pub proof fn law_producer(c: ConnView, buf_size: nat)
    requires
        c.id < 0x100_0000_0000_0000,
    ensures
        ({
            let (next, sub) = c.produce(buf_size);
            &&& next == ConnView { inflight_in_bytes: next.inflight_in_bytes, ..c }
            &&& sub is Some <==> in_due(c, buf_size)
            &&& sub matches Some(s) ==> moves_in(s, c, next.inflight_in_bytes) && fills(
                c,
                next.inflight_in_bytes,
                buf_size,
            )
            &&& sub is None ==> next == c
        }),
{
}

/// Asking the file to take payload asks for one move of as much as there is, exactly if one
/// is due, and notes how much; nothing else of the connection changes.
pub proof fn law_consumer(c: ConnView, writer_fd: i32, buf_size: nat)
    requires
        c.id < 0x100_0000_0000_0000,
    ensures
        ({
            let (next, sub) = c.consume(writer_fd, buf_size);
            &&& next == ConnView { inflight_out_bytes: next.inflight_out_bytes, ..c }
            &&& sub is Some <==> out_due(c, buf_size)
            &&& sub matches Some(s) ==> moves_out(s, c, next.inflight_out_bytes, writer_fd)
                && empties(c, next.inflight_out_bytes, buf_size)
            &&& sub is None ==> next == c
        }),
{
}

proof fn lemma_serves(c: ConnView, writer_fd: i32, buf_size: nat)
    requires
        c.id < 0x100_0000_0000_0000,
    ensures
        serves(
            c,
            c.pump(writer_fd, buf_size).0,
            c.pump(writer_fd, buf_size).1,
            writer_fd,
            buf_size,
        ),
        goes_on(
            c,
            c.streamed(writer_fd, buf_size).0,
            c.streamed(writer_fd, buf_size).1,
            writer_fd,
            buf_size,
        ),
{
    law_producer(c, buf_size);
    let fed = c.produce(buf_size).0;
    law_consumer(fed, writer_fd, buf_size);
    let subs = c.pump(writer_fd, buf_size).1;
    if in_due(c, buf_size) {
        assert(subs.take(1) =~= listed(c.produce(buf_size).1));
        assert(subs.skip(1) =~= listed(fed.consume(writer_fd, buf_size).1));
    } else {
        assert(subs.take(0).len() == 0);
        assert(subs.skip(0) =~= listed(fed.consume(writer_fd, buf_size).1));
    }
}

/// What a connection does, whatever its state, with `n` bytes that arrived in its pipe, with
/// `n` bytes that left it for the file, with the first write done, and when the server closes
/// it: the books are brought up to date, and what is then due is asked for.
pub proof fn law_connection_moves(c: ConnView, n: nat, writer_fd: i32, buf_size: nat)
    requires
        c.id < 0x100_0000_0000_0000,
    ensures
        ({
            let (next, subs) = c.spliced_in(n, writer_fd, buf_size);
            serves(
                ConnView {
                    pipe_bytes_available: c.pipe_bytes_available + n,
                    inflight_in_bytes: 0,
                    bytes_remaining: if n < c.bytes_remaining {
                        (c.bytes_remaining - n) as nat
                    } else {
                        0
                    },
                    network_eof: c.network_eof || c.bytes_remaining <= n,
                    ..c
                },
                next,
                subs,
                writer_fd,
                buf_size,
            )
        }),
        n <= c.pipe_bytes_available ==> ({
            let (next, subs) = c.spliced_out(n, writer_fd, buf_size);
            let moved = ConnView {
                pipe_bytes_available: (c.pipe_bytes_available - n) as nat,
                inflight_out_bytes: 0,
                file_offset: c.file_offset + n,
                ..c
            };
            if c.network_eof && n == c.pipe_bytes_available {
                next == ConnView { disk_eof: true, done: true, ..moved } && subs.len() == 0
            } else {
                serves(moved, next, subs, writer_fd, buf_size)
            }
        }),
        ({
            let (next, subs) = c.initial_written(writer_fd, buf_size);
            goes_on(
                ConnView {
                    file_offset: c.file_offset + c.initial_payload_len,
                    bytes_remaining: if c.initial_payload_len < c.bytes_remaining {
                        (c.bytes_remaining - c.initial_payload_len) as nat
                    } else {
                        0
                    },
                    ..c
                },
                next,
                subs,
                writer_fd,
                buf_size,
            )
        }),
        ({
            let (next, subs) = c.network_closed(writer_fd, buf_size);
            let ended = ConnView { done: true, ..c };
            &&& next == ConnView { inflight_out_bytes: next.inflight_out_bytes, ..ended }
            &&& drains(ended, next.inflight_out_bytes, subs, writer_fd, buf_size)
        }),
{
    lemma_serves(c.filled(n), writer_fd, buf_size);
    if n <= c.pipe_bytes_available {
        lemma_serves(
            ConnView {
                pipe_bytes_available: (c.pipe_bytes_available - n) as nat,
                inflight_out_bytes: 0,
                file_offset: c.file_offset + n,
                ..c
            },
            writer_fd,
            buf_size,
        );
    }
    lemma_serves(
        ConnView {
            file_offset: c.file_offset + c.initial_payload_len,
            bytes_remaining: monus(c.bytes_remaining, c.initial_payload_len),
            ..c
        },
        writer_fd,
        buf_size,
    );
    law_consumer(c.finished(), writer_fd, buf_size);
}

/// What a connection does, whatever its state, once the bytes that it received were searched
/// for a head: it reads on from its socket where there is none yet, with twice the room where
/// that is full; and otherwise writes what came behind the head to its place in the file, or
/// asks for payload where nothing did.
pub proof fn law_connection_head(
    c: ConnView,
    header: Option<HttpResponseHeader>,
    writer_fd: i32,
    buf_size: nat,
)
    requires
        c.id < 0x100_0000_0000_0000,
        header matches Some(h) ==> h.header_len <= c.header.len(),
    ensures
        ({
            let (next, subs) = c.header_parsed(header, writer_fd, buf_size);
            match header {
                None => {
                    &&& subs.len() == 1
                    &&& reads_on(subs[0], next)
                    &&& next == ConnView { header_capacity: next.header_capacity, ..c }
                    &&& next.header_capacity == if c.header.len() == c.header_capacity {
                        2 * c.header_capacity
                    } else {
                        c.header_capacity
                    }
                },
                Some(h) => {
                    let payload = c.header.subrange(h.header_len as int, c.header.len() as int);
                    let known = ConnView { initial_payload_len: payload.len(), ..c };
                    if payload.len() > 0 {
                        &&& next == known
                        &&& subs.len() == 1
                        &&& subs[0] matches SubmissionView::WriteFile {
                            fd,
                            offset,
                            data,
                            user_data,
                        }
                        &&& fd == writer_fd
                        &&& offset == c.file_offset as u64
                        &&& data == payload
                        &&& carries(user_data, c.id as int, 3)
                    } else {
                        goes_on(known, next, subs, writer_fd, buf_size)
                    }
                },
            }
        }),
{
    if let Some(h) = header {
        let payload = c.header.skip(h.header_len as int);
        assert(payload =~= c.header.subrange(h.header_len as int, c.header.len() as int));
        lemma_serves(ConnView { initial_payload_len: payload.len(), ..c }, writer_fd, buf_size);
    }
}

/// What a connection asks for at its beginning, whatever its state: its request is sent, and
/// its answer read, on its own socket, with the token that is given; bytes that are received
/// are kept behind those received before; and a connection that is taken out of the download
/// only ends.
pub proof fn law_connection_basics(c: ConnView, user_data: u64, data: Seq<u8>)
    requires
        c.id < 0x100_0000_0000_0000,
    ensures
        c.send_request(user_data) == (SubmissionView::Send {
            fd: c.sock_fd,
            data: encode_utf8(c.http_req),
            user_data,
        }),
        c.read_header(user_data) == (SubmissionView::ReadHeader {
            fd: c.sock_fd,
            len: (c.header_capacity - c.header.len()) as u32,
            user_data,
        }),
        c.request_sent().0 == c,
        c.request_sent().1.len() == 1 && reads_on(c.request_sent().1[0], c),
        c.received(data).header.len() == c.header.len() + data.len(),
        c.received(data).header.take(c.header.len() as int) == c.header,
        c.received(data).header.skip(c.header.len() as int) == data,
        c.received(data) == (ConnView { header: c.received(data).header, ..c }),
        c.finished() == (ConnView { done: true, ..c }),
{
    assert(c.received(data).header.take(c.header.len() as int) =~= c.header);
    assert(c.received(data).header.skip(c.header.len() as int) =~= data);
}

/// An operation that a connection, whatever its state, asks for once more.
pub proof fn law_connection_retries(
    c: ConnView,
    state: u8,
    user_data: u64,
    writer_fd: i32,
    buf_size: nat,
)
    requires
        c.id < 0x100_0000_0000_0000,
    ensures
        ({
            let (next, subs) = c.retried(state, user_data, writer_fd, buf_size);
            &&& state == 1 ==> next == c && subs == seq![
                SubmissionView::Send { fd: c.sock_fd, data: encode_utf8(c.http_req), user_data },
            ]
            &&& state == 2 ==> next == c && subs == seq![
                SubmissionView::ReadHeader {
                    fd: c.sock_fd,
                    len: (c.header_capacity - c.header.len()) as u32,
                    user_data,
                },
            ]
            &&& state == 4 ==> next == ConnView {
                inflight_in_bytes: next.inflight_in_bytes,
                ..c
            } && feeds(
                ConnView { inflight_in_bytes: 0, ..c },
                next.inflight_in_bytes,
                subs,
                buf_size,
            )
            &&& state == 5 ==> next == ConnView {
                inflight_out_bytes: next.inflight_out_bytes,
                ..c
            } && drains(
                ConnView { inflight_out_bytes: 0, ..c },
                next.inflight_out_bytes,
                subs,
                writer_fd,
                buf_size,
            )
            &&& state == 0 || state == 3 || state > 5 ==> next == c && subs.len() == 0
        }),
{
    law_producer(ConnView { inflight_in_bytes: 0, ..c }, buf_size);
    law_consumer(ConnView { inflight_out_bytes: 0, ..c }, writer_fd, buf_size);
}

/// Whether a completion belongs to a connection of `t`.
pub open spec fn concerns(t: TransferView, e: Event) -> bool {
    t.wf() && e.conn() < t.conns.len()
}

/// The download after `e`.
pub open spec fn following(t: TransferView, e: Event) -> TransferView {
    t.completed(e.user_data, e.res, e.data).0
}

/// The outcome of `e`.
pub open spec fn outcome(t: TransferView, e: Event) -> Result<StepView, EngineError> {
    t.completed(e.user_data, e.res, e.data).1
}

/// Whether `errno` means that an operation was only put off.
pub open spec fn only_put_off(errnos: Errnos, errno: int) -> bool {
    errno == errnos.again as int || errno == errnos.would_block as int || errno
        == errnos.interrupted as int
}

/// A completion concerns its own connection alone: the others stay as they are, and so do
/// the settings of the download and the identity of the connection. The bytes counted as
/// downloaded grow by as much as the connection's place in the file moves on, the number
/// of connections at work shrinks by one exactly if the connection ends, and progress is
/// told exactly if a move into the file succeeded.
pub proof fn law_own_connection_alone(t: TransferView, e: Event, j: int)
    requires
        concerns(t, e),
        0 <= j < t.conns.len(),
    ensures
        ({
            let after = following(t, e);
            let before = t.conns[e.conn()];
            let next = after.conns[e.conn()];
            &&& after.conns.len() == t.conns.len()
            &&& j != e.conn() ==> after.conns[j] == t.conns[j]
            &&& after.total_size == t.total_size
            &&& after.writer_fd == t.writer_fd
            &&& after.buf_size == t.buf_size
            &&& after.errnos == t.errnos
            &&& next.id == before.id
            &&& next.sock_fd == before.sock_fd
            &&& next.pipe == before.pipe
            &&& next.http_req == before.http_req
            &&& before.file_offset <= next.file_offset
            &&& after.downloaded - t.downloaded == next.file_offset - before.file_offset
            &&& before.done ==> next.done
            &&& t.active - after.active == (if next.done && !before.done {
                1int
            } else {
                0int
            })
            &&& outcome(t, e) matches Ok(step) ==> step.progress == (if token_kind(e) == 5 && e.res
                > 0 {
                Some((after.downloaded, t.total_size))
            } else {
                None
            })
        }),
{
    lemma_some_live(t.conns, e.conn());
}

/// The kind of operation that `e` completes, by number.
pub open spec fn token_kind(e: Event) -> int {
    e.user_data as int % 256
}

proof fn lemma_some_live(conns: Seq<ConnView>, i: int)
    requires
        0 <= i < conns.len(),
    ensures
        !conns[i].done ==> live(conns) > 0,
    decreases conns.len(),
{
    if i < conns.len() - 1 {
        assert(conns.drop_last()[i] == conns[i]);
        lemma_some_live(conns.drop_last(), i);
    }
}

/// A failed operation ends the download with an error that names the connection, the kind
/// and the error number, unless it was only put off, or a connection was reset that has
/// nothing more to fetch. Such a connection ends quietly; an error changes nothing.
pub proof fn law_failure_is_reported(t: TransferView, e: Event)
    requires
        concerns(t, e),
        i32::MIN < e.res < 0,
        !only_put_off(t.errnos, -e.res),
    ensures
        ({
            let c = t.conns[e.conn()];
            if -e.res == t.errnos.connection_reset && c.bytes_remaining == 0 {
                &&& outcome(t, e) matches Ok(step)
                &&& step.submissions.len() == 0
                &&& following(t, e).conns[e.conn()] == ConnView { done: true, ..c }
            } else {
                &&& outcome(t, e) matches Err(EngineError::Io { conn_id, state, errno })
                &&& conn_id == e.conn()
                &&& state == token_kind(e)
                &&& errno == -e.res
                &&& following(t, e) == t
            }
        }),
{
}

/// No completion ends the download with an error but a failed operation that was not put
/// off and a response that is refused; and the error of a response is the response's own.
pub proof fn law_errors_have_causes(t: TransferView, e: Event)
    requires
        concerns(t, e),
        i32::MIN < e.res,
    ensures
        outcome(t, e) matches Err(EngineError::Io { conn_id, state, errno }) ==> e.res < 0
            && !only_put_off(t.errnos, -e.res),
        outcome(t, e) matches Err(EngineError::Response(refused)) ==> e.res > 0 && token_kind(e)
            == 2 && response_header(t.conns[e.conn()].header + e.data) == Err::<
            Option<HttpResponseHeader>,
            _,
        >(refused),
{
    let i = e.conn();
    assert(t.with_conn(i, t.conns[i].received(e.data)).conns[i].header == t.conns[i].header
        + e.data);
}

/// An operation that was only put off is asked for once more: the request with the same
/// text and the read with the same room, each with its own token; a move with what is then
/// due on its side. The first write and operations of other kinds are not.
pub proof fn law_put_off(t: TransferView, e: Event)
    requires
        concerns(t, e),
        i32::MIN < e.res < 0,
        only_put_off(t.errnos, -e.res),
    ensures
        ({
            let c = t.conns[e.conn()];
            let next = following(t, e).conns[e.conn()];
            &&& outcome(t, e) matches Ok(step)
            &&& token_kind(e) == 1 ==> next == c && step.submissions.len() == 1
                && step.submissions[0] == (SubmissionView::Send {
                fd: c.sock_fd,
                data: encode_utf8(c.http_req),
                user_data: e.user_data,
            })
            &&& token_kind(e) == 2 ==> next == c && step.submissions.len() == 1
                && step.submissions[0] == (SubmissionView::ReadHeader {
                fd: c.sock_fd,
                len: (c.header_capacity - c.header.len()) as u32,
                user_data: e.user_data,
            })
            &&& token_kind(e) == 4 ==> next == ConnView {
                inflight_in_bytes: next.inflight_in_bytes,
                ..c
            } && feeds(
                ConnView { inflight_in_bytes: 0, ..c },
                next.inflight_in_bytes,
                step.submissions,
                t.buf_size,
            )
            &&& token_kind(e) == 5 ==> next == ConnView {
                inflight_out_bytes: next.inflight_out_bytes,
                ..c
            } && drains(
                ConnView { inflight_out_bytes: 0, ..c },
                next.inflight_out_bytes,
                step.submissions,
                t.writer_fd,
                t.buf_size,
            )
            &&& token_kind(e) == 3 || token_kind(e) == 0 || token_kind(e) > 5 ==> next == c
                && step.submissions.len() == 0
        }),
{
    let c = t.conns[e.conn()];
    assert(c.id == e.conn());
    law_producer(ConnView { inflight_in_bytes: 0, ..c }, t.buf_size);
    law_consumer(ConnView { inflight_out_bytes: 0, ..c }, t.writer_fd, t.buf_size);
}

/// Once the request is sent, the response is read from the connection's socket, as much as
/// there is room for; nothing else changes.
pub proof fn law_request_sent(t: TransferView, e: Event)
    requires
        concerns(t, e),
        e.res >= 0,
        token_kind(e) == 1,
    ensures
        outcome(t, e) matches Ok(step) && step.submissions.len() == 1 && reads_on(
            step.submissions[0],
            t.conns[e.conn()],
        ),
        following(t, e).conns[e.conn()] == t.conns[e.conn()],
{
    assert(t.conns[e.conn()].id == e.conn());
}

/// Bytes that arrive while the head is awaited are kept behind those that arrived before.
/// A head that is refused ends the download with its error. As long as the head is not
/// complete, the socket is read on, and the room doubles when it is full. Once the head is
/// complete, what came behind it is written to the connection's place in the file, or, where
/// nothing did, the payload is asked for.
pub proof fn law_head_arrives(t: TransferView, e: Event)
    requires
        concerns(t, e),
        e.res > 0,
        token_kind(e) == 2,
    ensures
        ({
            let c = t.conns[e.conn()];
            let next = following(t, e).conns[e.conn()];
            let received = c.header + e.data;
            match response_header(received) {
                Err(refused) => {
                    &&& outcome(t, e) == Err::<StepView, _>(EngineError::Response(refused))
                    &&& next == ConnView { header: received, ..c }
                },
                Ok(None) => {
                    &&& outcome(t, e) matches Ok(step)
                    &&& step.submissions.len() == 1
                    &&& reads_on(step.submissions[0], next)
                    &&& next == ConnView {
                        header: received,
                        header_capacity: next.header_capacity,
                        ..c
                    }
                    &&& next.header_capacity == if received.len() == c.header_capacity {
                        2 * c.header_capacity
                    } else {
                        c.header_capacity
                    }
                },
                Ok(Some(header)) => {
                    let payload = received.subrange(
                        header.header_len as int,
                        received.len() as int,
                    );
                    let known = ConnView {
                        header: received,
                        initial_payload_len: payload.len(),
                        ..c
                    };
                    &&& outcome(t, e) matches Ok(step)
                    &&& header.header_len < received.len() ==> {
                        &&& next == known
                        &&& step.submissions.len() == 1
                        &&& step.submissions[0] matches SubmissionView::WriteFile {
                            fd,
                            offset,
                            data,
                            user_data,
                        }
                        &&& fd == t.writer_fd
                        &&& offset == c.file_offset as u64
                        &&& data == payload
                        &&& carries(user_data, e.conn(), 3)
                    }
                    &&& header.header_len == received.len() ==> goes_on(
                        known,
                        next,
                        step.submissions,
                        t.writer_fd,
                        t.buf_size,
                    )
                },
            }
        }),
{
    let i = e.conn();
    let c = t.conns[i];
    let received = c.received(e.data);
    assert(c.id == i);
    let mid = t.with_conn(i, received);
    assert(mid.conns[i] == received);
    if let Ok(Some(header)) = response_header(received.header) {
        let payload = received.header.skip(header.header_len as int);
        if header.header_len <= received.header.len() {
            assert(payload =~= received.header.subrange(
                header.header_len as int,
                received.header.len() as int,
            ));
        }
        lemma_serves(
            ConnView { initial_payload_len: payload.len(), ..received },
            t.writer_fd,
            t.buf_size,
        );
    }
}

/// Once the payload that came with the head is written, the place in the file moves on by
/// it, that much less is to come, and the rest is asked for.
pub proof fn law_first_write_done(t: TransferView, e: Event)
    requires
        concerns(t, e),
        e.res >= 0,
        token_kind(e) == 3,
    ensures
        ({
            let c = t.conns[e.conn()];
            let n = c.initial_payload_len;
            outcome(t, e) matches Ok(step) && goes_on(
                ConnView {
                    file_offset: c.file_offset + n,
                    bytes_remaining: if n < c.bytes_remaining {
                        (c.bytes_remaining - n) as nat
                    } else {
                        0
                    },
                    ..c
                },
                following(t, e).conns[e.conn()],
                step.submissions,
                t.writer_fd,
                t.buf_size,
            )
        }),
{
    let c = t.conns[e.conn()];
    assert(c.id == e.conn());
    lemma_serves(
        ConnView {
            file_offset: c.file_offset + c.initial_payload_len,
            bytes_remaining: monus(c.bytes_remaining, c.initial_payload_len),
            ..c
        },
        t.writer_fd,
        t.buf_size,
    );
}

/// Payload that arrives in the pipe is counted there and is no longer to come; with the
/// last of it the network's side ends. Then both sides are served.
pub proof fn law_moved_in(t: TransferView, e: Event)
    requires
        concerns(t, e),
        e.res > 0,
        token_kind(e) == 4,
    ensures
        ({
            let c = t.conns[e.conn()];
            outcome(t, e) matches Ok(step) && serves(
                ConnView {
                    pipe_bytes_available: c.pipe_bytes_available + e.res as nat,
                    inflight_in_bytes: 0,
                    bytes_remaining: if e.res < c.bytes_remaining {
                        (c.bytes_remaining - e.res) as nat
                    } else {
                        0
                    },
                    network_eof: c.network_eof || c.bytes_remaining <= e.res,
                    ..c
                },
                following(t, e).conns[e.conn()],
                step.submissions,
                t.writer_fd,
                t.buf_size,
            )
        }),
{
    let c = t.conns[e.conn()];
    assert(c.id == e.conn());
    lemma_serves(c.filled(e.res as nat), t.writer_fd, t.buf_size);
}

/// Payload that reaches the file leaves the pipe, and the place in the file moves on by it.
/// With the last of it the connection ends; otherwise both sides are served.
pub proof fn law_moved_out(t: TransferView, e: Event)
    requires
        concerns(t, e),
        e.res > 0,
        token_kind(e) == 5,
        e.res <= t.conns[e.conn()].pipe_bytes_available,
    ensures
        ({
            let c = t.conns[e.conn()];
            let next = following(t, e).conns[e.conn()];
            let moved = ConnView {
                pipe_bytes_available: (c.pipe_bytes_available - e.res) as nat,
                inflight_out_bytes: 0,
                file_offset: c.file_offset + e.res as nat,
                ..c
            };
            &&& outcome(t, e) matches Ok(step)
            &&& if c.network_eof && e.res == c.pipe_bytes_available {
                next == ConnView { disk_eof: true, done: true, ..moved } && step.submissions.len()
                    == 0
            } else {
                serves(moved, next, step.submissions, t.writer_fd, t.buf_size)
            }
        }),
{
    let c = t.conns[e.conn()];
    assert(c.id == e.conn());
    lemma_serves(
        ConnView {
            pipe_bytes_available: (c.pipe_bytes_available - e.res) as nat,
            inflight_out_bytes: 0,
            file_offset: c.file_offset + e.res as nat,
            ..c
        },
        t.writer_fd,
        t.buf_size,
    );
}

/// An operation that moves nothing ends its connection, unless it sent the request or wrote
/// what came with the head. Nothing else changes and nothing is asked for, except that what
/// is in the pipe of a connection which the server closed is moved on to the file.
pub proof fn law_nothing_moved(t: TransferView, e: Event)
    requires
        concerns(t, e),
        e.res == 0,
        token_kind(e) != 1,
        token_kind(e) != 3,
    ensures
        ({
            let ended = ConnView { done: true, ..t.conns[e.conn()] };
            let next = following(t, e).conns[e.conn()];
            &&& outcome(t, e) matches Ok(step)
            &&& if token_kind(e) == 4 {
                &&& next == ConnView { inflight_out_bytes: next.inflight_out_bytes, ..ended }
                &&& drains(
                    ended,
                    next.inflight_out_bytes,
                    step.submissions,
                    t.writer_fd,
                    t.buf_size,
                )
            } else {
                next == ended && step.submissions.len() == 0
            }
        }),
{
    let c = t.conns[e.conn()];
    assert(c.id == e.conn());
    law_consumer(c.finished(), t.writer_fd, t.buf_size);
}

/// The completion of an operation of an unknown kind that moved something changes nothing
/// and asks for nothing.
pub proof fn law_unknown_kind(t: TransferView, e: Event)
    requires
        concerns(t, e),
        e.res > 0,
        token_kind(e) == 0 || token_kind(e) > 5,
    ensures
        outcome(t, e) matches Ok(step) && step.submissions.len() == 0,
        following(t, e).conns[e.conn()] == t.conns[e.conn()],
{
}

/// A completion is taken up exactly if its connection exists and what it reports is possible:
/// a read brought as many bytes as it says and no more than there was room for, no more left
/// the pipe than was in it, no more is in the pipe than it holds while more is to come, and
/// no count outgrows its type. Failures, completions that moved nothing where that ends the
/// connection, sent requests and unknown kinds are always possible.
pub proof fn law_accepted(t: TransferView, e: Event)
    requires
        t.wf(),
    ensures
        ({
            let c = t.conns[e.conn()];
            let n = e.res as int;
            t.accepts(e.user_data, e.res, e.data) <==> e.conn() < t.conns.len() && e.res != i32::MIN
                && if e.res < 0 || (e.res == 0 && token_kind(e) != 1 && token_kind(e) != 3) {
                true
            } else if token_kind(e) == 2 {
                e.data.len() == n && c.header.len() + n <= c.header_capacity && (c.header.len() + n
                    < c.header_capacity || 2 * c.header_capacity <= usize::MAX)
            } else if token_kind(e) == 3 {
                c.file_offset + c.initial_payload_len <= u64::MAX && t.downloaded
                    + c.initial_payload_len <= u64::MAX
            } else if token_kind(e) == 4 {
                c.pipe_bytes_available + n <= usize::MAX && (c.network_eof || c.bytes_remaining <= n
                    || c.pipe_bytes_available + n <= c.pipe.capacity)
            } else if token_kind(e) == 5 {
                n <= c.pipe_bytes_available && c.file_offset + n <= u64::MAX && t.downloaded + n
                    <= u64::MAX
            } else {
                true
            }
        }),
{
    if e.conn() < t.conns.len() {
        assert(t.conns[e.conn()].wf());
    }
}

/// A fresh connection starts at the first byte of its range with all of it still to come,
/// has received and moved nothing, has room for 8192 bytes of a head, and asks the server
/// for its range.
pub proof fn law_fresh_connection(
    id: usize,
    sock_fd: i32,
    pipe: KernelPipe,
    url: ParsedUrlView,
    range: ByteRange,
)
    requires
        range.start <= range.end,
    ensures
        ({
            let c = initial_conn(id, sock_fd, pipe, url, range);
            &&& c.id == id
            &&& c.sock_fd == sock_fd
            &&& c.pipe == pipe
            &&& c.file_offset == range.start
            &&& c.file_offset + c.bytes_remaining == range.end + 1
            &&& c.http_req == range_request(url, range.start as nat, range.end as nat)
            &&& c.header.len() == 0
            &&& c.header_capacity == 8192
            &&& c.initial_payload_len == 0
            &&& c.pipe_bytes_available == 0
            &&& c.inflight_in_bytes == 0
            &&& c.inflight_out_bytes == 0
            &&& !c.done
            &&& !c.network_eof
            &&& !c.disk_eof
        }),
{
}

/// A download starts with one request for each connection, sent on the connection's own
/// socket, for the connection's own share of the resource.
pub proof fn law_opening_requests(
    total_size: u64,
    url: ParsedUrlView,
    fds: Seq<i32>,
    pipes: Seq<KernelPipe>,
    writer_fd: i32,
    buf_size: nat,
    errnos: Errnos,
    i: int,
)
    requires
        fds.len() <= usize::MAX,
        fds.len() <= 0x100_0000_0000_0000,
        divisible(total_size, fds.len() as usize),
        0 <= i < fds.len(),
    ensures
        ({
            let r = opening_run(total_size, url, fds, pipes, writer_fd, buf_size, errnos);
            let subs = opening_submissions(r.t.conns);
            let range = share(total_size, fds.len() as usize, i);
            &&& subs.len() == fds.len()
            &&& subs[i] matches SubmissionView::Send { fd, data, user_data }
            &&& fd == fds[i]
            &&& data == encode_utf8(range_request(url, range.start as nat, range.end as nat))
            &&& carries(user_data, i, 1)
        }),
{
}

/// As many connections are used as are asked for, but at least one.
pub proof fn law_connections_used(connections: usize)
    ensures
        used_connections(connections) >= 1,
        connections >= 1 ==> used_connections(connections) == connections,
        used_connections(0) == 1,
{
}

/// A download has finished exactly if each of its connections has ended.
pub proof fn law_finished(t: TransferView)
    requires
        t.wf(),
    ensures
        t.active == 0 <==> forall|i: int|
            0 <= i < t.conns.len() ==> (#[trigger] t.conns[i]).done,
{
    if t.active == 0 {
        assert forall|i: int| 0 <= i < t.conns.len() implies (#[trigger] t.conns[i]).done by {
            lemma_some_live(t.conns, i);
        }
    }
    if forall|i: int| 0 <= i < t.conns.len() ==> (#[trigger] t.conns[i]).done {
        lemma_all_done(t.conns);
    }
}

proof fn lemma_all_done(conns: Seq<ConnView>)
    requires
        forall|i: int| 0 <= i < conns.len() ==> (#[trigger] conns[i]).done,
    ensures
        live(conns) == 0,
    decreases conns.len(),
{
    if conns.len() > 0 {
        let rest = conns.drop_last();
        assert forall|i: int| 0 <= i < rest.len() implies (#[trigger] rest[i]).done by {
            assert(rest[i] == conns[i]);
        }
        lemma_all_done(rest);
        assert(conns[conns.len() - 1].done);
    }
}

/// Once the bytes that connection `i` received were searched for a head, a refused head is
/// reported with its own error and changes nothing, and otherwise the connection goes on as
/// it does with that head; the other connections stay as they are.
pub proof fn law_searched_for_head(
    t: TransferView,
    i: int,
    parsed: Result<Option<HttpResponseHeader>, ResponseError>,
    j: int,
)
    requires
        t.wf(),
        0 <= i < t.conns.len(),
        0 <= j < t.conns.len(),
    ensures
        ({
            let (after, outcome) = t.header_parsed(i, parsed);
            match parsed {
                Err(e) => after == t && outcome == Err::<StepView, _>(EngineError::Response(e)),
                Ok(header) => {
                    let (next, subs) = t.conns[i].header_parsed(header, t.writer_fd, t.buf_size);
                    &&& outcome matches Ok(step)
                    &&& step.submissions == subs
                    &&& step.progress is None
                    &&& after.conns[i] == next
                    &&& j != i ==> after.conns[j] == t.conns[j]
                    &&& after.conns.len() == t.conns.len()
                    &&& after.downloaded == t.downloaded
                    &&& t.active - after.active == (if next.done && !t.conns[i].done {
                        1int
                    } else {
                        0int
                    })
                },
            }
        }),
{
    lemma_some_live(t.conns, i);
}

/// What stands for an operation, a connection, a download and a step says of each part what
/// the part is.
pub proof fn law_views(sub: Submission, state: ConnectionState, transfer: Transfer, step: Step)
    ensures
        match sub {
            Submission::Send { fd, data, user_data } => sub@ == (SubmissionView::Send {
                fd,
                data: data@,
                user_data,
            }),
            Submission::ReadHeader { fd, len, user_data } => sub@ == (SubmissionView::ReadHeader {
                fd,
                len,
                user_data,
            }),
            Submission::WriteFile { fd, offset, data, user_data } => sub@ == (
            SubmissionView::WriteFile { fd, offset, data: data@, user_data }),
            Submission::Splice { fd_in, off_in, fd_out, off_out, len, user_data } => sub@ == (
            SubmissionView::Splice { fd_in, off_in, fd_out, off_out, len, user_data }),
        },
        state@.id == state.id,
        state@.sock_fd == state.sock_fd,
        state@.pipe == state.pipe,
        state@.file_offset == state.file_offset,
        state@.bytes_remaining == state.bytes_remaining,
        state@.header == state.header@,
        state@.header_capacity == state.header_capacity,
        state@.initial_payload_len == state.initial_payload_len,
        state@.http_req == state.http_req@,
        state@.done == state.done,
        state@.pipe_bytes_available == state.pipe_bytes_available,
        state@.inflight_in_bytes == state.inflight_in_bytes,
        state@.inflight_out_bytes == state.inflight_out_bytes,
        state@.network_eof == state.network_eof,
        state@.disk_eof == state.disk_eof,
        transfer@.conns.len() == transfer.states@.len(),
        forall|i: int|
            0 <= i < transfer.states@.len() ==> #[trigger] transfer@.conns[i]
                == transfer.states@[i]@,
        transfer@.active == transfer.active_connections,
        transfer@.downloaded == transfer.total_downloaded_bytes,
        transfer@.total_size == transfer.total_size,
        transfer@.writer_fd == transfer.writer_fd,
        transfer@.buf_size == transfer.buf_size,
        transfer@.errnos == transfer.errnos,
        step@.submissions.len() == step.submissions@.len(),
        forall|i: int|
            0 <= i < step.submissions@.len() ==> #[trigger] step@.submissions[i]
                == step.submissions@[i]@,
        step.progress is None <==> step@.progress is None,
        step.progress matches Some(told) ==> step@.progress == Some((told.0 as nat, told.1 as nat)),
{
}

} // verus!

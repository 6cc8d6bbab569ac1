//! One connection: what it has received, buffered and written, and the
//! operations it asks for next.
use vstd::prelude::*;
use vstd::slice::{slice_subrange, slice_to_vec};
use vstd::utf8::encode_utf8;
use crate::http::HttpResponseHeader;
use crate::pipe::KernelPipe;
use crate::plan::ByteRange;
use crate::request::ParsedUrl;
#[allow(unused_imports)]
use crate::request::{range_request, ParsedUrlView};
use crate::token::{
    encode_user_data,
    STATE_READ_HEADER,
    STATE_SEND_REQ,
    STATE_SPLICE_IN,
    STATE_SPLICE_OUT,
    STATE_WRITE_INITIAL,
};
#[allow(unused_imports)]
use crate::token::token;

verus! {

broadcast use vstd::string::group_string_axioms;

/// The room for a response head before it first has to grow.
pub const HEADER_BUF_SIZE: usize = 8192;

/// Payload leaves a pipe for the file only once this much has gathered in it, or
/// once nothing more will come: 1 MiB.
pub const DISK_WRITE_THRESHOLD: usize = 1048576;

/// The offset to give for a descriptor without positions.
pub const NO_OFFSET: i64 = -1;

/// An operation for the kernel to perform. The token comes back with its result.
#[derive(Debug)]
pub enum Submission {
    /// Write `data` to the socket `fd`.
    Send { fd: i32, data: Vec<u8>, user_data: u64 },
    /// Read at most `len` bytes from the socket `fd`.
    ReadHeader { fd: i32, len: u32, user_data: u64 },
    /// Write `data` to the file `fd` at `offset`.
    WriteFile { fd: i32, offset: u64, data: Vec<u8>, user_data: u64 },
    /// Move at most `len` bytes from `fd_in` to `fd_out`.
    Splice { fd_in: i32, off_in: i64, fd_out: i32, off_out: i64, len: u32, user_data: u64 },
}

/// What a `Submission` stands for.
#[verifier::ext_equal]
pub enum SubmissionView {
    Send { fd: i32, data: Seq<u8>, user_data: u64 },
    ReadHeader { fd: i32, len: u32, user_data: u64 },
    WriteFile { fd: i32, offset: u64, data: Seq<u8>, user_data: u64 },
    Splice { fd_in: i32, off_in: i64, fd_out: i32, off_out: i64, len: u32, user_data: u64 },
}

impl View for Submission {
    type V = SubmissionView;

    open spec fn view(&self) -> SubmissionView {
        match *self {
            Submission::Send { fd, data, user_data } => SubmissionView::Send {
                fd,
                data: data@,
                user_data,
            },
            Submission::ReadHeader { fd, len, user_data } => SubmissionView::ReadHeader {
                fd,
                len,
                user_data,
            },
            Submission::WriteFile { fd, offset, data, user_data } => SubmissionView::WriteFile {
                fd,
                offset,
                data: data@,
                user_data,
            },
            Submission::Splice { fd_in, off_in, fd_out, off_out, len, user_data } =>
                SubmissionView::Splice { fd_in, off_in, fd_out, off_out, len, user_data },
        }
    }
}

/// What a list of submissions stands for.
pub open spec fn submission_views(subs: Seq<Submission>) -> Seq<SubmissionView> {
    subs.map_values(|s: Submission| s@)
}

/// What a submission that may be missing stands for.
pub open spec fn optional_view(sub: Option<Submission>) -> Option<SubmissionView> {
    match sub {
        Some(s) => Some(s@),
        None => None,
    }
}

/// A submission that may be missing, as a list.
pub open spec fn listed(sub: Option<SubmissionView>) -> Seq<SubmissionView> {
    match sub {
        Some(s) => seq![s],
        None => seq![],
    }
}

/// The state of one connection.
#[derive(Debug)]
pub struct ConnectionState {
    pub id: usize,
    pub sock_fd: i32,
    pub pipe: KernelPipe,
    /// Where in the file the next payload goes.
    pub file_offset: u64,
    /// How much payload is still to come from the network.
    pub bytes_remaining: u64,
    /// The start of the response, as far as it has been received.
    pub header: Vec<u8>,
    /// How much of the response may be received while its head is not complete.
    pub header_capacity: usize,
    /// How much payload came along with the head.
    pub initial_payload_len: usize,
    pub http_req: String,
    pub done: bool,
    /// How much payload is in the pipe.
    pub pipe_bytes_available: usize,
    /// How much is asked for by the running move into the pipe, if one is running.
    pub inflight_in_bytes: usize,
    /// How much is asked for by the running move out of the pipe, if one is running.
    pub inflight_out_bytes: usize,
    pub network_eof: bool,
    pub disk_eof: bool,
}

/// What a `ConnectionState` stands for.
#[verifier::ext_equal]
pub struct ConnView {
    pub id: usize,
    pub sock_fd: i32,
    pub pipe: KernelPipe,
    pub file_offset: nat,
    pub bytes_remaining: nat,
    pub header: Seq<u8>,
    pub header_capacity: nat,
    pub initial_payload_len: nat,
    pub http_req: Seq<char>,
    pub done: bool,
    pub pipe_bytes_available: nat,
    pub inflight_in_bytes: nat,
    pub inflight_out_bytes: nat,
    pub network_eof: bool,
    pub disk_eof: bool,
}

impl View for ConnectionState {
    type V = ConnView;

    open spec fn view(&self) -> ConnView {
        ConnView {
            id: self.id,
            sock_fd: self.sock_fd,
            pipe: self.pipe,
            file_offset: self.file_offset as nat,
            bytes_remaining: self.bytes_remaining as nat,
            header: self.header@,
            header_capacity: self.header_capacity as nat,
            initial_payload_len: self.initial_payload_len as nat,
            http_req: self.http_req@,
            done: self.done,
            pipe_bytes_available: self.pipe_bytes_available as nat,
            inflight_in_bytes: self.inflight_in_bytes as nat,
            inflight_out_bytes: self.inflight_out_bytes as nat,
            network_eof: self.network_eof,
            disk_eof: self.disk_eof,
        }
    }
}

/// The smaller of two numbers.
pub open spec fn min(a: nat, b: nat) -> nat {
    if a <= b {
        a
    } else {
        b
    }
}

/// `a - b`, but never below zero.
pub open spec fn monus(a: nat, b: nat) -> nat {
    if a <= b {
        0
    } else {
        (a - b) as nat
    }
}

impl ConnView {
    /// What holds of a connection at all times: the received start of the response
    /// fits its room, and while more may come the pipe holds no more than it can.
    pub open spec fn wf(self) -> bool {
        &&& self.header.len() <= self.header_capacity
        &&& self.network_eof || self.pipe_bytes_available <= self.pipe.capacity
    }

    /// How much the next move from the socket into the pipe asks for: as much as
    /// the pipe has room for, as is still to come and as one move may carry; and
    /// nothing at the end of the payload or while a move is running.
    pub open spec fn wanted_in(self, buf_size: nat) -> nat {
        if self.network_eof || self.inflight_in_bytes > 0 {
            0
        } else {
            min(
                min(monus(self.pipe.capacity as nat, self.pipe_bytes_available), self.bytes_remaining),
                buf_size,
            )
        }
    }

    /// Whether enough has gathered in the pipe to write to the file, or nothing more
    /// will come.
    pub open spec fn worth_writing(self) -> bool {
        self.network_eof || self.done || self.pipe_bytes_available >= DISK_WRITE_THRESHOLD
    }

    /// How much the next move from the pipe into the file asks for: as much as the
    /// pipe holds and as one move may carry; and nothing at the end of the file,
    /// while a move is running or while it is not worth while.
    pub open spec fn wanted_out(self, buf_size: nat) -> nat {
        if self.disk_eof || self.inflight_out_bytes > 0 || !self.worth_writing() {
            0
        } else {
            min(self.pipe_bytes_available, buf_size)
        }
    }

    /// The connection after its side of the network was served.
    pub open spec fn produce(self, buf_size: nat) -> (ConnView, Option<SubmissionView>) {
        let wanted = self.wanted_in(buf_size);
        if wanted == 0 {
            (self, None)
        } else {
            (
                ConnView { inflight_in_bytes: wanted, ..self },
                Some(
                    SubmissionView::Splice {
                        fd_in: self.sock_fd,
                        off_in: NO_OFFSET,
                        fd_out: self.pipe.write_fd,
                        off_out: NO_OFFSET,
                        len: wanted as u32,
                        user_data: token(self.id as nat, STATE_SPLICE_IN),
                    },
                ),
            )
        }
    }

    /// The connection after its side of the file was served.
    pub open spec fn consume(self, writer_fd: i32, buf_size: nat) -> (
        ConnView,
        Option<SubmissionView>,
    ) {
        let wanted = self.wanted_out(buf_size);
        if wanted == 0 {
            (self, None)
        } else {
            (
                ConnView { inflight_out_bytes: wanted, ..self },
                Some(
                    SubmissionView::Splice {
                        fd_in: self.pipe.read_fd,
                        off_in: NO_OFFSET,
                        fd_out: writer_fd,
                        off_out: self.file_offset as i64,
                        len: wanted as u32,
                        user_data: token(self.id as nat, STATE_SPLICE_OUT),
                    },
                ),
            )
        }
    }

    /// The connection after both its sides were served.
    pub open spec fn pump(self, writer_fd: i32, buf_size: nat) -> (ConnView, Seq<SubmissionView>) {
        let (fed, sub_in) = self.produce(buf_size);
        let (drained, sub_out) = fed.consume(writer_fd, buf_size);
        (drained, listed(sub_in) + listed(sub_out))
    }

    /// The operation that sends the request.
    pub open spec fn send_request(self, user_data: u64) -> SubmissionView {
        SubmissionView::Send { fd: self.sock_fd, data: encode_utf8(self.http_req), user_data }
    }

    /// The operation that reads on for the response head.
    pub open spec fn read_header(self, user_data: u64) -> SubmissionView {
        SubmissionView::ReadHeader {
            fd: self.sock_fd,
            len: (self.header_capacity - self.header.len()) as u32,
            user_data,
        }
    }

    /// The connection once it takes no further part in the download.
    pub open spec fn finished(self) -> ConnView {
        ConnView { done: true, ..self }
    }

    /// The connection once its payload is complete.
    pub open spec fn closed(self) -> ConnView {
        ConnView { network_eof: true, disk_eof: true, done: true, ..self }
    }

    /// The connection after an operation of kind `state` was put off by the kernel:
    /// the operation is asked for once more.
    pub open spec fn retried(self, state: u8, user_data: u64, writer_fd: i32, buf_size: nat) -> (
        ConnView,
        Seq<SubmissionView>,
    ) {
        if state == STATE_SEND_REQ {
            (self, seq![self.send_request(user_data)])
        } else if state == STATE_READ_HEADER {
            (self, seq![self.read_header(user_data)])
        } else if state == STATE_SPLICE_IN {
            let (next, sub) = ConnView { inflight_in_bytes: 0, ..self }.produce(buf_size);
            (next, listed(sub))
        } else if state == STATE_SPLICE_OUT {
            let (next, sub) = ConnView { inflight_out_bytes: 0, ..self }.consume(
                writer_fd,
                buf_size,
            );
            (next, listed(sub))
        } else {
            (self, seq![])
        }
    }

    /// The connection after its request was sent.
    pub open spec fn request_sent(self) -> (ConnView, Seq<SubmissionView>) {
        (self, seq![self.read_header(token(self.id as nat, STATE_READ_HEADER))])
    }

    /// The connection after `data` arrived while the response head was awaited.
    pub open spec fn received(self, data: Seq<u8>) -> ConnView {
        ConnView { header: self.header + data, ..self }
    }

    /// The connection after its side of the network was asked for more payload, or
    /// was closed where none is to come.
    pub open spec fn streamed(self, writer_fd: i32, buf_size: nat) -> (
        ConnView,
        Seq<SubmissionView>,
    ) {
        if self.bytes_remaining == 0 {
            (self.closed(), seq![])
        } else {
            self.pump(writer_fd, buf_size)
        }
    }

    /// The connection after what was received was found to start with the head
    /// `header`, or with no complete head yet.
    pub open spec fn header_parsed(
        self,
        header: Option<HttpResponseHeader>,
        writer_fd: i32,
        buf_size: nat,
    ) -> (ConnView, Seq<SubmissionView>) {
        match header {
            Some(h) => {
                let payload = self.header.skip(h.header_len as int);
                let next = ConnView { initial_payload_len: payload.len(), ..self };
                if payload.len() > 0 {
                    (
                        next,
                        seq![
                            SubmissionView::WriteFile {
                                fd: writer_fd,
                                offset: self.file_offset as u64,
                                data: payload,
                                user_data: token(self.id as nat, STATE_WRITE_INITIAL),
                            },
                        ],
                    )
                } else {
                    next.streamed(writer_fd, buf_size)
                }
            },
            None => {
                let next = ConnView {
                    header_capacity: if self.header.len() == self.header_capacity {
                        self.header_capacity * 2
                    } else {
                        self.header_capacity
                    },
                    ..self
                };
                (next, seq![next.read_header(token(self.id as nat, STATE_READ_HEADER))])
            },
        }
    }

    /// The connection after the payload that came with the head was written.
    pub open spec fn initial_written(self, writer_fd: i32, buf_size: nat) -> (
        ConnView,
        Seq<SubmissionView>,
    ) {
        ConnView {
            file_offset: self.file_offset + self.initial_payload_len,
            bytes_remaining: monus(self.bytes_remaining, self.initial_payload_len),
            ..self
        }.streamed(writer_fd, buf_size)
    }

    /// The connection after `n` bytes arrived in the pipe, with nothing asked for yet.
    pub open spec fn filled(self, n: nat) -> ConnView {
        ConnView {
            pipe_bytes_available: self.pipe_bytes_available + n,
            inflight_in_bytes: 0,
            bytes_remaining: monus(self.bytes_remaining, n),
            network_eof: self.network_eof || self.bytes_remaining <= n,
            ..self
        }
    }

    /// The connection after `n` bytes arrived in the pipe.
    pub open spec fn spliced_in(self, n: nat, writer_fd: i32, buf_size: nat) -> (
        ConnView,
        Seq<SubmissionView>,
    ) {
        self.filled(n).pump(writer_fd, buf_size)
    }

    /// The connection after the server closed it: it takes no further part in the
    /// download, and what is in its pipe is on its way to the file.
    pub open spec fn network_closed(self, writer_fd: i32, buf_size: nat) -> (
        ConnView,
        Seq<SubmissionView>,
    ) {
        let (next, sub) = self.finished().consume(writer_fd, buf_size);
        (next, listed(sub))
    }

    /// The connection after `n` bytes went from the pipe into the file.
    pub open spec fn spliced_out(self, n: nat, writer_fd: i32, buf_size: nat) -> (
        ConnView,
        Seq<SubmissionView>,
    ) {
        let next = ConnView {
            pipe_bytes_available: monus(self.pipe_bytes_available, n),
            inflight_out_bytes: 0,
            file_offset: self.file_offset + n,
            ..self
        };
        if next.network_eof && next.pipe_bytes_available == 0 {
            (ConnView { disk_eof: true, done: true, ..next }, seq![])
        } else {
            next.pump(writer_fd, buf_size)
        }
    }
}

/// Asks for the next move from the socket into the pipe, where one is due.
pub fn submit_producer(state: &mut ConnectionState, buf_size: usize) -> (sub: Option<Submission>)
    requires
        old(state)@.network_eof || old(state)@.inflight_in_bytes > 0
            || old(state)@.pipe_bytes_available <= old(state)@.pipe.capacity,
    ensures
        (final(state)@, optional_view(sub)) == old(state)@.produce(buf_size as nat),
{
    if state.network_eof || state.inflight_in_bytes > 0 {
        return None;
    }
    let pipe_space_free: usize = state.pipe.capacity - state.pipe_bytes_available;
    let mut max_read: usize = if pipe_space_free as u64 <= state.bytes_remaining {
        pipe_space_free
    } else {
        state.bytes_remaining as usize
    };
    if buf_size < max_read {
        max_read = buf_size;
    }
    if max_read == 0 {
        return None;
    }
    state.inflight_in_bytes = max_read;
    Some(
        Submission::Splice {
            fd_in: state.sock_fd,
            off_in: NO_OFFSET,
            fd_out: state.pipe.write_fd,
            off_out: NO_OFFSET,
            len: max_read as u32,
            user_data: encode_user_data(state.id, STATE_SPLICE_IN),
        },
    )
}

/// Asks for the next move from the pipe into the file, where one is due.
pub fn submit_consumer(state: &mut ConnectionState, writer_fd: i32, buf_size: usize) -> (sub:
    Option<Submission>)
    ensures
        (final(state)@, optional_view(sub)) == old(state)@.consume(writer_fd, buf_size as nat),
{
    if state.disk_eof || state.inflight_out_bytes > 0 {
        return None;
    }
    if !state.network_eof && !state.done && state.pipe_bytes_available < DISK_WRITE_THRESHOLD {
        return None;
    }
    let mut max_write: usize = state.pipe_bytes_available;
    if buf_size < max_write {
        max_write = buf_size;
    }
    if max_write == 0 {
        return None;
    }
    state.inflight_out_bytes = max_write;
    Some(
        Submission::Splice {
            fd_in: state.pipe.read_fd,
            off_in: NO_OFFSET,
            fd_out: writer_fd,
            off_out: state.file_offset as i64,
            len: max_write as u32,
            user_data: encode_user_data(state.id, STATE_SPLICE_OUT),
        },
    )
}

/// The submissions `a` and `b`, as far as they are there, in this order.
fn in_order(a: Option<Submission>, b: Option<Submission>) -> (subs: Vec<Submission>)
    ensures
        submission_views(subs@) == listed(optional_view(a)) + listed(optional_view(b)),
{
    let mut subs: Vec<Submission> = Vec::new();
    if let Some(sub) = a {
        subs.push(sub);
    }
    if let Some(sub) = b {
        subs.push(sub);
    }
    subs
}

impl ConnectionState {
    /// A fresh connection that is to fetch `range` of `url`.
    pub fn new(id: usize, sock_fd: i32, pipe: KernelPipe, url: &ParsedUrl, range: ByteRange) -> (state:
        ConnectionState)
        requires
            range.start <= range.end,
            range.size() <= u64::MAX,
        ensures
            state@ == initial_conn(id, sock_fd, pipe, url@, range),
    {
        ConnectionState {
            id,
            sock_fd,
            pipe,
            file_offset: range.start,
            bytes_remaining: range.len(),
            header: Vec::new(),
            header_capacity: HEADER_BUF_SIZE,
            initial_payload_len: 0,
            http_req: url.build_range_request(range.start, range.end),
            done: false,
            pipe_bytes_available: 0,
            inflight_in_bytes: 0,
            inflight_out_bytes: 0,
            network_eof: false,
            disk_eof: false,
        }
    }

    /// The operation that sends the request.
    pub fn send_request(&self, user_data: u64) -> (sub: Submission)
        ensures
            sub@ == self@.send_request(user_data),
    {
        Submission::Send {
            fd: self.sock_fd,
            data: slice_to_vec(self.http_req.as_str().as_bytes()),
            user_data,
        }
    }

    /// The operation that reads on for the response head.
    pub fn read_header(&self, user_data: u64) -> (sub: Submission)
        requires
            self@.header.len() <= self@.header_capacity,
        ensures
            sub@ == self@.read_header(user_data),
    {
        Submission::ReadHeader {
            fd: self.sock_fd,
            len: (self.header_capacity - self.header.len()) as u32,
            user_data,
        }
    }

    /// Serves both sides of the connection.
    fn pump(&mut self, writer_fd: i32, buf_size: usize) -> (subs: Vec<Submission>)
        requires
            old(self)@.wf(),
        ensures
            (final(self)@, submission_views(subs@)) == old(self)@.pump(
                writer_fd,
                buf_size as nat,
            ),
    {
        let sub_in = submit_producer(self, buf_size);
        let sub_out = submit_consumer(self, writer_fd, buf_size);
        in_order(sub_in, sub_out)
    }

    /// Asks for more payload, or closes the connection where none is to come.
    fn stream(&mut self, writer_fd: i32, buf_size: usize) -> (subs: Vec<Submission>)
        requires
            old(self)@.wf(),
        ensures
            (final(self)@, submission_views(subs@)) == old(self)@.streamed(
                writer_fd,
                buf_size as nat,
            ),
    {
        if self.bytes_remaining == 0 {
            self.network_eof = true;
            self.disk_eof = true;
            self.done = true;
            in_order(None, None)
        } else {
            self.pump(writer_fd, buf_size)
        }
    }

    /// Takes the connection out of the download.
    pub fn finish(&mut self)
        ensures
            final(self)@ == old(self)@.finished(),
    {
        self.done = true;
    }

    /// Asks once more for an operation that the kernel put off.
    pub fn retry(&mut self, state: u8, user_data: u64, writer_fd: i32, buf_size: usize) -> (subs:
        Vec<Submission>)
        requires
            old(self)@.wf(),
        ensures
            (final(self)@, submission_views(subs@)) == old(self)@.retried(
                state,
                user_data,
                writer_fd,
                buf_size as nat,
            ),
    {
        if state == STATE_SEND_REQ {
            in_order(Some(self.send_request(user_data)), None)
        } else if state == STATE_READ_HEADER {
            in_order(Some(self.read_header(user_data)), None)
        } else if state == STATE_SPLICE_IN {
            self.inflight_in_bytes = 0;
            in_order(submit_producer(self, buf_size), None)
        } else if state == STATE_SPLICE_OUT {
            self.inflight_out_bytes = 0;
            in_order(submit_consumer(self, writer_fd, buf_size), None)
        } else {
            in_order(None, None)
        }
    }

    /// Goes on to read the response once the request was sent.
    pub fn request_sent(&mut self) -> (subs: Vec<Submission>)
        requires
            old(self)@.wf(),
        ensures
            (final(self)@, submission_views(subs@)) == old(self)@.request_sent(),
    {
        in_order(Some(self.read_header(encode_user_data(self.id, STATE_READ_HEADER))), None)
    }

    /// Takes in bytes that arrived while the response head was awaited.
    pub fn receive(&mut self, data: &[u8])
        requires
            old(self)@.header.len() + data@.len() <= old(self)@.header_capacity,
        ensures
            final(self)@ == old(self)@.received(data@),
    {
        self.header.extend_from_slice(data);
        assert(self.header@ == old(self).header@ + data@);
    }

    /// Goes on once the received bytes were searched for a response head: writes the
    /// payload that came with it, or asks for more payload, or for more of the head.
    pub fn header_parsed(
        &mut self,
        header: Option<HttpResponseHeader>,
        writer_fd: i32,
        buf_size: usize,
    ) -> (subs: Vec<Submission>)
        requires
            old(self)@.wf(),
            match header {
                Some(h) => h.header_len <= old(self)@.header.len(),
                None => old(self)@.header.len() == old(self)@.header_capacity
                    ==> old(self)@.header_capacity * 2 <= usize::MAX,
            },
        ensures
            (final(self)@, submission_views(subs@)) == old(self)@.header_parsed(
                header,
                writer_fd,
                buf_size as nat,
            ),
    {
        match header {
            Some(h) => {
                let payload = slice_to_vec(
                    slice_subrange(self.header.as_slice(), h.header_len, self.header.len()),
                );
                assert(payload@ == self.header@.skip(h.header_len as int));
                self.initial_payload_len = payload.len();
                if payload.len() > 0 {
                    let sub = Submission::WriteFile {
                        fd: writer_fd,
                        offset: self.file_offset,
                        data: payload,
                        user_data: encode_user_data(self.id, STATE_WRITE_INITIAL),
                    };
                    in_order(Some(sub), None)
                } else {
                    self.stream(writer_fd, buf_size)
                }
            },
            None => {
                if self.header.len() == self.header_capacity {
                    self.header_capacity = self.header_capacity * 2;
                }
                in_order(
                    Some(self.read_header(encode_user_data(self.id, STATE_READ_HEADER))),
                    None,
                )
            },
        }
    }

    /// Accounts for the payload that came with the head, once it was written.
    pub fn initial_written(&mut self, writer_fd: i32, buf_size: usize) -> (subs: Vec<Submission>)
        requires
            old(self)@.wf(),
            old(self)@.file_offset + old(self)@.initial_payload_len <= u64::MAX,
        ensures
            (final(self)@, submission_views(subs@)) == old(self)@.initial_written(
                writer_fd,
                buf_size as nat,
            ),
    {
        let written: u64 = self.initial_payload_len as u64;
        self.file_offset = self.file_offset + written;
        self.bytes_remaining = self.bytes_remaining.saturating_sub(written);
        self.stream(writer_fd, buf_size)
    }

    /// Accounts for `n` bytes that arrived in the pipe.
    pub fn spliced_in(&mut self, n: usize, writer_fd: i32, buf_size: usize) -> (subs: Vec<
        Submission,
    >)
        requires
            old(self)@.wf(),
            old(self)@.pipe_bytes_available + n <= usize::MAX,
            old(self)@.filled(n as nat).wf(),
        ensures
            (final(self)@, submission_views(subs@)) == old(self)@.spliced_in(
                n as nat,
                writer_fd,
                buf_size as nat,
            ),
    {
        self.pipe_bytes_available = self.pipe_bytes_available + n;
        self.inflight_in_bytes = 0;
        self.bytes_remaining = self.bytes_remaining.saturating_sub(n as u64);
        if self.bytes_remaining == 0 {
            self.network_eof = true;
        }
        self.pump(writer_fd, buf_size)
    }

    /// Takes the connection out of the download because the server closed it, and sees to
    /// it that what is in its pipe is on its way to the file.
    pub fn network_closed(&mut self, writer_fd: i32, buf_size: usize) -> (subs: Vec<Submission>)
        ensures
            (final(self)@, submission_views(subs@)) == old(self)@.network_closed(
                writer_fd,
                buf_size as nat,
            ),
    {
        self.finish();
        in_order(submit_consumer(self, writer_fd, buf_size), None)
    }

    /// Accounts for `n` bytes that went from the pipe into the file.
    pub fn spliced_out(&mut self, n: usize, writer_fd: i32, buf_size: usize) -> (subs: Vec<
        Submission,
    >)
        requires
            old(self)@.wf(),
            n <= old(self)@.pipe_bytes_available,
            old(self)@.file_offset + n <= u64::MAX,
        ensures
            (final(self)@, submission_views(subs@)) == old(self)@.spliced_out(
                n as nat,
                writer_fd,
                buf_size as nat,
            ),
    {
        self.pipe_bytes_available = self.pipe_bytes_available - n;
        self.inflight_out_bytes = 0;
        self.file_offset = self.file_offset + n as u64;
        if self.network_eof && self.pipe_bytes_available == 0 {
            self.disk_eof = true;
            self.done = true;
            in_order(None, None)
        } else {
            self.pump(writer_fd, buf_size)
        }
    }
}

/// A fresh connection that is to fetch `range` of `url`.
pub open spec fn initial_conn(
    id: usize,
    sock_fd: i32,
    pipe: KernelPipe,
    url: ParsedUrlView,
    range: ByteRange,
) -> ConnView {
    ConnView {
        id,
        sock_fd,
        pipe,
        file_offset: range.start as nat,
        bytes_remaining: range.size() as nat,
        header: seq![],
        header_capacity: HEADER_BUF_SIZE as nat,
        initial_payload_len: 0,
        http_req: range_request(url, range.start as nat, range.end as nat),
        done: false,
        pipe_bytes_available: 0,
        inflight_in_bytes: 0,
        inflight_out_bytes: 0,
        network_eof: false,
        disk_eof: false,
    }
}

} // verus!

//! What can be relied on of a whole download, whatever order its operations
//! complete in.
#![allow(unused_imports)]
use vstd::prelude::*;
use vstd::utf8::encode_utf8;
use crate::connection::{
    initial_conn,
    listed,
    monus,
    ConnView,
    SubmissionView,
    DISK_WRITE_THRESHOLD,
    NO_OFFSET,
};
use crate::engine::{lemma_all_live, lemma_with_conn_wf, live, EngineError, Errnos, StepView, TransferView};
use crate::http::{response_header, HttpResponseHeader};
use crate::pipe::{KernelPipe, PIPE_CAPACITY};
use crate::plan::{divisible, law_share_within, law_shares_add_up, share, shares_size, ByteRange};
use crate::request::ParsedUrlView;
use crate::token::{
    token,
    token_conn,
    token_state,
    STATE_READ_HEADER,
    STATE_SEND_REQ,
    STATE_SPLICE_IN,
    STATE_SPLICE_OUT,
    STATE_WRITE_INITIAL,
};

verus! {

/// What a connection waits for.
pub enum Stage {
    /// Its request is being sent.
    Requesting,
    /// The head of the response is being read.
    Heading,
    /// The payload that came with the head is being written.
    Writing,
    /// Payload moves through the pipe, or nothing is to be waited for.
    Streaming,
}

/// What a connection waits for once it asked for `subs`.
pub open spec fn stage_of(subs: Seq<SubmissionView>) -> Stage {
    if subs.len() == 0 {
        Stage::Streaming
    } else {
        match subs[0] {
            SubmissionView::Send { .. } => Stage::Requesting,
            SubmissionView::ReadHeader { .. } => Stage::Heading,
            SubmissionView::WriteFile { .. } => Stage::Writing,
            SubmissionView::Splice { .. } => Stage::Streaming,
        }
    }
}

/// The books of a connection that fetches `range` are right: every byte of the
/// range is either written, in the pipe or still to come; the pipe is never asked
/// to hold more than it can; no move asks for more than there is, and none leaves
/// the pipe before it is worth while.
pub open spec fn on_track(c: ConnView, range: ByteRange) -> bool {
    &&& c.wf()
    &&& c.pipe.capacity == PIPE_CAPACITY
    &&& range.start <= c.file_offset
    &&& c.file_offset + c.pipe_bytes_available + c.bytes_remaining == range.end + 1
    &&& c.pipe_bytes_available + c.inflight_in_bytes <= PIPE_CAPACITY
    &&& c.inflight_out_bytes <= c.pipe_bytes_available
    &&& c.inflight_in_bytes <= c.bytes_remaining
    &&& c.network_eof <==> c.bytes_remaining == 0
    &&& c.inflight_out_bytes > 0 ==> c.worth_writing()
    &&& c.disk_eof ==> c.bytes_remaining == 0 && c.pipe_bytes_available == 0
}

/// No running move asks for more than one move may carry.
pub open spec fn capped(c: ConnView, buf_size: nat) -> bool {
    c.inflight_in_bytes <= buf_size && c.inflight_out_bytes <= buf_size
}

/// No payload has come through the pipe yet and none is asked for.
pub open spec fn quiet(c: ConnView) -> bool {
    &&& c.pipe_bytes_available == 0
    &&& c.inflight_in_bytes == 0
    &&& c.inflight_out_bytes == 0
    &&& !c.network_eof
    &&& !c.disk_eof
}

/// A connection is on track, and before its payload streams the pipe is quiet.
pub open spec fn sound_conn(c: ConnView, stage: Stage, range: ByteRange) -> bool {
    &&& on_track(c, range)
    &&& !(stage is Streaming) ==> quiet(c) && c.bytes_remaining > 0
}

/// A download together with what each of its connections waits for.
pub struct Run {
    pub t: TransferView,
    pub stages: Seq<Stage>,
}

/// The completion of an operation.
pub struct Event {
    pub user_data: u64,
    pub res: i32,
    pub data: Seq<u8>,
}

impl Event {
    /// The connection that the event belongs to.
    pub open spec fn conn(self) -> int {
        token_conn(self.user_data) as int
    }

    /// The kind of operation that the event completes.
    pub open spec fn state(self) -> u8 {
        token_state(self.user_data)
    }
}

/// Whether the kernel may complete an operation of kind `state` with `res` and
/// `data` on the connection `c`, which waits for `stage`: only what was asked for
/// completes, and no more is moved than was asked for.
pub open spec fn answers(c: ConnView, stage: Stage, state: u8, res: i32, data: Seq<u8>) -> bool {
    &&& res != i32::MIN
    &&& match stage {
        Stage::Requesting => state == STATE_SEND_REQ,
        Stage::Heading => {
            &&& state == STATE_READ_HEADER
            &&& res > 0 ==> data.len() == res && c.header.len() + res <= c.header_capacity
        },
        Stage::Writing => state == STATE_WRITE_INITIAL,
        Stage::Streaming => {
            ||| state == STATE_SPLICE_IN && 0 < c.inflight_in_bytes && res <= c.inflight_in_bytes
            ||| state == STATE_SPLICE_OUT && 0 < c.inflight_out_bytes && res
                <= c.inflight_out_bytes
        },
    }
}

/// Whether the server sent no more along with the head than it was asked for.
pub open spec fn within_range(c: ConnView, state: u8, res: i32) -> bool {
    state == STATE_WRITE_INITIAL && res >= 0 ==> c.initial_payload_len <= c.bytes_remaining
}

/// Whether the head that is found in the bytes received once `data` arrived lies
/// within these bytes. `parse_http_response_header` finds no other.
pub open spec fn head_within(c: ConnView, state: u8, res: i32, data: Seq<u8>) -> bool {
    state == STATE_READ_HEADER && res > 0 ==> (response_header(c.header + data) matches Ok(Some(h))
        ==> h.header_len <= c.header.len() + data.len())
}

impl Run {
    /// The share of the resource that connection `i` fetches.
    pub open spec fn range(self, i: int) -> ByteRange {
        share(self.t.total_size as u64, self.t.conns.len() as usize, i)
    }

    /// Whether `e` is a completion that a faithful kernel and server may bring now.
    pub open spec fn expects(self, e: Event) -> bool {
        &&& e.conn() < self.t.conns.len()
        &&& answers(
            self.t.conns[e.conn()],
            self.stages[e.conn()],
            e.state(),
            e.res,
            e.data,
        )
        &&& within_range(self.t.conns[e.conn()], e.state(), e.res)
        &&& head_within(self.t.conns[e.conn()], e.state(), e.res, e.data)
    }

    /// The outcome of `e`.
    pub open spec fn outcome(self, e: Event) -> Result<StepView, EngineError> {
        self.t.completed(e.user_data, e.res, e.data).1
    }

    /// The run after `e`.
    pub open spec fn after(self, e: Event) -> Run {
        Run {
            t: self.t.completed(e.user_data, e.res, e.data).0,
            stages: match self.outcome(e) {
                Ok(step) => self.stages.update(e.conn(), stage_of(step.submissions)),
                Err(_) => self.stages,
            },
        }
    }

    /// How much the first `n` connections have written.
    pub open spec fn written(self, n: int) -> int
        decreases n,
    {
        if n <= 0 {
            0
        } else {
            self.written(n - 1) + self.t.conns[n - 1].file_offset - self.range(n - 1).start
        }
    }

    /// Whether all books of the run are right.
    pub open spec fn sound(self) -> bool {
        &&& self.t.wf()
        &&& self.t.total_size <= u64::MAX
        &&& self.t.conns.len() <= usize::MAX
        &&& divisible(self.t.total_size as u64, self.t.conns.len() as usize)
        &&& self.stages.len() == self.t.conns.len()
        &&& forall|i: int|
            #![trigger self.t.conns[i]]
            0 <= i < self.t.conns.len() ==> sound_conn(
                self.t.conns[i],
                self.stages[i],
                self.range(i),
            ) && capped(self.t.conns[i], self.t.buf_size)
        &&& self.t.downloaded == self.written(self.t.conns.len() as int)
    }
}

proof fn lemma_produce(c: ConnView, range: ByteRange, buf_size: nat)
    requires
        on_track(c, range),
    ensures
        on_track(c.produce(buf_size).0, range),
        stage_of(listed(c.produce(buf_size).1)) is Streaming,
{
}

proof fn lemma_consume(c: ConnView, range: ByteRange, writer_fd: i32, buf_size: nat)
    requires
        on_track(c, range),
    ensures
        on_track(c.consume(writer_fd, buf_size).0, range),
        stage_of(listed(c.consume(writer_fd, buf_size).1)) is Streaming,
{
}

proof fn lemma_pump(c: ConnView, range: ByteRange, writer_fd: i32, buf_size: nat)
    requires
        on_track(c, range),
    ensures
        on_track(c.pump(writer_fd, buf_size).0, range),
        stage_of(c.pump(writer_fd, buf_size).1) is Streaming,
{
    lemma_produce(c, range, buf_size);
    lemma_consume(c.produce(buf_size).0, range, writer_fd, buf_size);
}

/// What one connection does in answer to a completion other than the arrival of
/// part of a response head.
pub open spec fn reaction(
    c: ConnView,
    errnos: Errnos,
    user_data: u64,
    res: i32,
    writer_fd: i32,
    buf_size: nat,
) -> (ConnView, Seq<SubmissionView>) {
    let state = token_state(user_data);
    if res < 0 {
        if errnos.puts_off(-res) {
            c.retried(state, user_data, writer_fd, buf_size)
        } else {
            (c.finished(), seq![])
        }
    } else if res == 0 && state == STATE_SPLICE_IN {
        c.network_closed(writer_fd, buf_size)
    } else if res == 0 && TransferView::ends_at_zero(state) {
        (c.finished(), seq![])
    } else if state == STATE_SEND_REQ {
        c.request_sent()
    } else if state == STATE_WRITE_INITIAL {
        c.initial_written(writer_fd, buf_size)
    } else if state == STATE_SPLICE_IN {
        c.spliced_in(res as nat, writer_fd, buf_size)
    } else if state == STATE_SPLICE_OUT {
        c.spliced_out(res as nat, writer_fd, buf_size)
    } else {
        (c, seq![])
    }
}

proof fn lemma_reaction(
    c: ConnView,
    stage: Stage,
    range: ByteRange,
    errnos: Errnos,
    user_data: u64,
    res: i32,
    data: Seq<u8>,
    writer_fd: i32,
    buf_size: nat,
)
    requires
        sound_conn(c, stage, range),
        answers(c, stage, token_state(user_data), res, data),
        within_range(c, token_state(user_data), res),
        capped(c, buf_size),
        !(token_state(user_data) == STATE_READ_HEADER && res > 0),
    ensures
        ({
            let (next, subs) = reaction(c, errnos, user_data, res, writer_fd, buf_size);
            &&& sound_conn(next, stage_of(subs), range)
            &&& capped(next, buf_size)
            &&& c.done ==> next.done
            &&& next.id == c.id
            &&& next.file_offset >= c.file_offset
        }),
{
    let state = token_state(user_data);
    let (next, subs) = reaction(c, errnos, user_data, res, writer_fd, buf_size);
    if res < 0 {
        if errnos.puts_off(-res) {
            if state == STATE_SPLICE_IN {
                lemma_produce(ConnView { inflight_in_bytes: 0, ..c }, range, buf_size);
            } else if state == STATE_SPLICE_OUT {
                lemma_consume(ConnView { inflight_out_bytes: 0, ..c }, range, writer_fd, buf_size);
            }
        }
    } else if res == 0 && state == STATE_SPLICE_IN {
        lemma_consume(c.finished(), range, writer_fd, buf_size);
    } else if res == 0 && TransferView::ends_at_zero(state) {
    } else if state == STATE_SEND_REQ {
    } else if state == STATE_WRITE_INITIAL {
        let w = ConnView {
            file_offset: c.file_offset + c.initial_payload_len,
            bytes_remaining: monus(c.bytes_remaining, c.initial_payload_len),
            ..c
        };
        if w.bytes_remaining > 0 {
            assert(on_track(w, range));
            lemma_pump(w, range, writer_fd, buf_size);
        }
    } else if state == STATE_SPLICE_IN {
        assert(on_track(c.filled(res as nat), range));
        lemma_pump(c.filled(res as nat), range, writer_fd, buf_size);
    } else {
        let w = ConnView {
            pipe_bytes_available: monus(c.pipe_bytes_available, res as nat),
            inflight_out_bytes: 0,
            file_offset: c.file_offset + res as nat,
            ..c
        };
        assert(on_track(w, range));
        lemma_pump(w, range, writer_fd, buf_size);
    }
}

proof fn lemma_heading(
    c: ConnView,
    range: ByteRange,
    header: Option<HttpResponseHeader>,
    writer_fd: i32,
    buf_size: nat,
)
    requires
        sound_conn(c, Stage::Heading, range),
        capped(c, buf_size),
        header matches Some(h) ==> h.header_len <= c.header.len(),
    ensures
        ({
            let (next, subs) = c.header_parsed(header, writer_fd, buf_size);
            &&& sound_conn(next, stage_of(subs), range)
            &&& capped(next, buf_size)
            &&& c.done ==> next.done
            &&& next.id == c.id
            &&& next.file_offset == c.file_offset
        }),
{
    if let Some(h) = header {
        let payload = c.header.skip(h.header_len as int);
        let next = ConnView { initial_payload_len: payload.len(), ..c };
        assert(on_track(next, range));
        lemma_pump(next, range, writer_fd, buf_size);
    }
}

/// The run after connection `i` turned into `c` and waits for `stage`.
pub open spec fn moved_run(r: Run, i: int, c: ConnView, stage: Stage) -> Run {
    Run { t: r.t.with_conn(i, c), stages: r.stages.update(i, stage) }
}

proof fn lemma_written_update(r: Run, i: int, c: ConnView, stage: Stage, n: int)
    requires
        0 <= i < r.t.conns.len(),
        0 <= n <= r.t.conns.len(),
    ensures
        moved_run(r, i, c, stage).written(n) == r.written(n) + if i < n {
            c.file_offset - r.t.conns[i].file_offset
        } else {
            0
        },
    decreases n,
{
    if n > 0 {
        lemma_written_update(r, i, c, stage, n - 1);
    }
}

proof fn lemma_moved_run(r: Run, i: int, c: ConnView, stage: Stage)
    requires
        r.sound(),
        0 <= i < r.t.conns.len(),
        sound_conn(c, stage, r.range(i)),
        capped(c, r.t.buf_size),
        c.id == i,
        r.t.conns[i].done ==> c.done,
        r.t.conns[i].file_offset <= c.file_offset,
    ensures
        moved_run(r, i, c, stage).sound(),
{
    let next = moved_run(r, i, c, stage);
    lemma_with_conn_wf(r.t, i, c);
    lemma_written_update(r, i, c, stage, r.t.conns.len() as int);
    assert forall|j: int| #![trigger next.t.conns[j]] 0 <= j < next.t.conns.len() implies sound_conn(
        next.t.conns[j],
        next.stages[j],
        next.range(j),
    ) && capped(next.t.conns[j], next.t.buf_size) by {
        assert(next.range(j) == r.range(j));
        if j != i {
            assert(next.t.conns[j] == r.t.conns[j]);
        }
    }
}

/// The connection that an expected event leaves behind, and what it asks for.
pub open spec fn answered(r: Run, e: Event) -> (ConnView, Seq<SubmissionView>) {
    let c = r.t.conns[e.conn()];
    if e.state() == STATE_READ_HEADER && e.res > 0 {
        c.received(e.data).header_parsed(
            response_header(c.header + e.data)->Ok_0,
            r.t.writer_fd,
            r.t.buf_size,
        )
    } else {
        reaction(c, r.t.errnos, e.user_data, e.res, r.t.writer_fd, r.t.buf_size)
    }
}

pub(crate) proof fn lemma_after(r: Run, e: Event)
    requires
        r.sound(),
        r.expects(e),
        r.outcome(e) is Ok,
    ensures
        sound_conn(answered(r, e).0, stage_of(answered(r, e).1), r.range(e.conn())),
        r.after(e) == moved_run(r, e.conn(), answered(r, e).0, stage_of(answered(r, e).1)),
        r.outcome(e)->Ok_0.submissions == answered(r, e).1,
        r.after(e).sound(),
{
    let i = e.conn();
    let c = r.t.conns[i];
    let (next, subs) = answered(r, e);
    if e.state() == STATE_READ_HEADER && e.res > 0 {
        let received = c.received(e.data);
        let header = response_header(c.header + e.data)->Ok_0;
        assert(sound_conn(received, Stage::Heading, r.range(i)));
        lemma_heading(received, r.range(i), header, r.t.writer_fd, r.t.buf_size);
        let mid = r.t.with_conn(i, received);
        assert(mid.conns[i] == received);
        assert(mid.with_conn(i, next).conns =~= r.t.with_conn(i, next).conns);
        assert(mid.with_conn(i, next) == r.t.with_conn(i, next));
    } else {
        lemma_reaction(
            c,
            r.stages[i],
            r.range(i),
            r.t.errnos,
            e.user_data,
            e.res,
            e.data,
            r.t.writer_fd,
            r.t.buf_size,
        );
    }
    lemma_moved_run(r, i, next, stage_of(subs));
}

/// The payload that came along with the response head of `c`.
pub open spec fn initial_payload(c: ConnView) -> Seq<u8> {
    c.header.skip(c.header.len() - c.initial_payload_len)
}

/// Whether `s`, asked for by a connection that turned into `next`, is what the
/// books of `next` say is under way.
pub open spec fn booked(s: SubmissionView, next: ConnView, writer_fd: i32) -> bool {
    match s {
        SubmissionView::Splice { fd_in, off_in, fd_out, off_out, len, user_data } => {
            &&& off_in == NO_OFFSET
            &&& {
                ||| token_state(user_data) == STATE_SPLICE_IN && fd_in == next.sock_fd && fd_out
                    == next.pipe.write_fd && off_out == NO_OFFSET && len
                    == next.inflight_in_bytes as u32
                ||| token_state(user_data) == STATE_SPLICE_OUT && fd_in == next.pipe.read_fd
                    && fd_out == writer_fd && off_out == next.file_offset as i64 && len
                    == next.inflight_out_bytes as u32
            }
        },
        SubmissionView::WriteFile { fd, offset, data, user_data } => {
            &&& token_state(user_data) == STATE_WRITE_INITIAL
            &&& fd == writer_fd
            &&& offset == next.file_offset as u64
            &&& data.len() == next.initial_payload_len
            &&& data == initial_payload(next)
        },
        SubmissionView::Send { fd, data, user_data } => {
            &&& token_state(user_data) == STATE_SEND_REQ
            &&& fd == next.sock_fd
            &&& data == encode_utf8(next.http_req)
        },
        SubmissionView::ReadHeader { fd, len, user_data } => {
            &&& token_state(user_data) == STATE_READ_HEADER
            &&& fd == next.sock_fd
            &&& len == (next.header_capacity - next.header.len()) as u32
        },
    }
}

/// Whether all of `subs` are what the books of `next` say is under way.
pub open spec fn all_booked(subs: Seq<SubmissionView>, next: ConnView, writer_fd: i32) -> bool {
    forall|k: int| #![trigger subs[k]] 0 <= k < subs.len() ==> booked(subs[k], next, writer_fd)
}

proof fn lemma_token_state(conn_id: nat, state: u8)
    ensures
        token_state(token(conn_id, state)) == state,
{
}

proof fn lemma_pump_booked(c: ConnView, writer_fd: i32, buf_size: nat)
    ensures
        all_booked(listed(c.produce(buf_size).1), c.produce(buf_size).0, writer_fd),
        all_booked(
            listed(c.consume(writer_fd, buf_size).1),
            c.consume(writer_fd, buf_size).0,
            writer_fd,
        ),
        all_booked(c.pump(writer_fd, buf_size).1, c.pump(writer_fd, buf_size).0, writer_fd),
{
    lemma_token_state(c.id as nat, STATE_SPLICE_IN);
    lemma_token_state(c.id as nat, STATE_SPLICE_OUT);
}

proof fn lemma_heading_booked(
    c: ConnView,
    header: Option<HttpResponseHeader>,
    writer_fd: i32,
    buf_size: nat,
)
    requires
        header matches Some(h) ==> h.header_len <= c.header.len(),
    ensures
        all_booked(
            c.header_parsed(header, writer_fd, buf_size).1,
            c.header_parsed(header, writer_fd, buf_size).0,
            writer_fd,
        ),
{
    lemma_token_state(c.id as nat, STATE_READ_HEADER);
    if let Some(h) = header {
        let payload = c.header.skip(h.header_len as int);
        let next = ConnView { initial_payload_len: payload.len(), ..c };
        lemma_token_state(c.id as nat, STATE_WRITE_INITIAL);
        lemma_pump_booked(next, writer_fd, buf_size);
    }
}

proof fn lemma_reaction_booked(
    c: ConnView,
    errnos: Errnos,
    user_data: u64,
    res: i32,
    writer_fd: i32,
    buf_size: nat,
)
    ensures
        ({
            let (next, subs) = reaction(c, errnos, user_data, res, writer_fd, buf_size);
            all_booked(subs, next, writer_fd)
        }),
{
    let state = token_state(user_data);
    if res < 0 {
        lemma_pump_booked(ConnView { inflight_in_bytes: 0, ..c }, writer_fd, buf_size);
        lemma_pump_booked(ConnView { inflight_out_bytes: 0, ..c }, writer_fd, buf_size);
    } else if res == 0 && state == STATE_SPLICE_IN {
        lemma_pump_booked(c.finished(), writer_fd, buf_size);
    } else if state == STATE_WRITE_INITIAL {
        let w = ConnView {
            file_offset: c.file_offset + c.initial_payload_len,
            bytes_remaining: monus(c.bytes_remaining, c.initial_payload_len),
            ..c
        };
        lemma_pump_booked(w, writer_fd, buf_size);
    } else if state == STATE_SPLICE_IN {
        lemma_pump_booked(c.filled(res as nat), writer_fd, buf_size);
    } else if state == STATE_SPLICE_OUT {
        let w = ConnView {
            pipe_bytes_available: monus(c.pipe_bytes_available, res as nat),
            inflight_out_bytes: 0,
            file_offset: c.file_offset + res as nat,
            ..c
        };
        lemma_pump_booked(w, writer_fd, buf_size);
    }
}

proof fn lemma_booked(r: Run, e: Event)
    requires
        r.expects(e),
        r.outcome(e) is Ok,
    ensures
        all_booked(answered(r, e).1, answered(r, e).0, r.t.writer_fd),
{
    let c = r.t.conns[e.conn()];
    if e.state() == STATE_READ_HEADER && e.res > 0 {
        lemma_heading_booked(
            c.received(e.data),
            response_header(c.header + e.data)->Ok_0,
            r.t.writer_fd,
            r.t.buf_size,
        );
    } else {
        lemma_reaction_booked(c, r.t.errnos, e.user_data, e.res, r.t.writer_fd, r.t.buf_size);
    }
}

/// The run at the start of a download of `total_size` bytes over `fds.len()`
/// connections, with the sockets `fds` and the pipes `pipes`.
pub open spec fn opening_run(
    total_size: u64,
    url: ParsedUrlView,
    fds: Seq<i32>,
    pipes: Seq<KernelPipe>,
    writer_fd: i32,
    buf_size: nat,
    errnos: Errnos,
) -> Run {
    Run {
        t: TransferView {
            conns: Seq::new(
                fds.len(),
                |i: int|
                    initial_conn(
                        i as usize,
                        fds[i],
                        pipes[i],
                        url,
                        share(total_size, fds.len() as usize, i),
                    ),
            ),
            active: fds.len(),
            downloaded: 0,
            total_size: total_size as nat,
            writer_fd,
            buf_size,
            errnos,
        },
        stages: Seq::new(fds.len(), |i: int| Stage::Requesting),
    }
}

proof fn lemma_nothing_written(r: Run, n: int)
    requires
        0 <= n <= r.t.conns.len(),
        forall|i: int|
            #![trigger r.t.conns[i]]
            0 <= i < r.t.conns.len() ==> r.t.conns[i].file_offset == r.range(i).start,
    ensures
        r.written(n) == 0,
    decreases n,
{
    if n > 0 {
        lemma_nothing_written(r, n - 1);
        assert(r.t.conns[n - 1].file_offset == r.range(n - 1).start);
    }
}

/// At the start of a download all books are right, every connection takes part and
/// each waits for its request to be sent.
pub proof fn law_opening_sound(
    total_size: u64,
    url: ParsedUrlView,
    fds: Seq<i32>,
    pipes: Seq<KernelPipe>,
    writer_fd: i32,
    buf_size: nat,
    errnos: Errnos,
)
    requires
        fds.len() <= usize::MAX,
        divisible(total_size, fds.len() as usize),
        pipes.len() == fds.len(),
        forall|i: int|
            #![trigger pipes[i]]
            0 <= i < pipes.len() ==> pipes[i].capacity == PIPE_CAPACITY,
    ensures
        ({
            let r = opening_run(total_size, url, fds, pipes, writer_fd, buf_size, errnos);
            &&& r.sound()
            &&& r.whole()
            &&& r.draining()
            &&& r.moving()
            &&& r.t.active == fds.len()
        }),
{
    let r = opening_run(total_size, url, fds, pipes, writer_fd, buf_size, errnos);
    assert forall|i: int| #![trigger r.t.conns[i]] 0 <= i < r.t.conns.len() implies {
        &&& sound_conn(r.t.conns[i], r.stages[i], r.range(i))
        &&& r.t.conns[i].file_offset == r.range(i).start
        &&& r.t.conns[i].id == i
        &&& r.t.conns[i].wf()
        &&& !r.t.conns[i].done
        &&& r.stages[i] is Requesting
    } by {
        law_share_within(total_size, fds.len() as usize, i);
        assert(pipes[i].capacity == PIPE_CAPACITY);
    }
    lemma_nothing_written(r, r.t.conns.len() as int);
    lemma_all_live(r.t.conns);
}

/// Whatever a faithful kernel and server bring next, all books stay right.
pub proof fn law_books_stay_right(r: Run, e: Event)
    requires
        r.sound(),
        r.expects(e),
        r.outcome(e) is Ok,
    ensures
        r.after(e).sound(),
{
    lemma_after(r, e);
}

/// Whether a connection did not end before its share was complete.
pub open spec fn whole_conn(c: ConnView) -> bool {
    c.done ==> c.bytes_remaining == 0 && c.pipe_bytes_available == 0
}

impl Run {
    /// Whether no connection ended before its share was complete.
    pub open spec fn whole(self) -> bool {
        forall|i: int|
            #![trigger self.t.conns[i]]
            0 <= i < self.t.conns.len() ==> whole_conn(self.t.conns[i])
    }

    /// Whether every connection that takes part waits for something.
    pub open spec fn moving(self) -> bool {
        forall|i: int|
            #![trigger self.t.conns[i]]
            0 <= i < self.t.conns.len() && !self.t.conns[i].done && self.stages[i] is Streaming
                ==> self.t.conns[i].inflight_in_bytes > 0 || self.t.conns[i].inflight_out_bytes > 0
    }

    /// Whether `e` cuts its connection off: the server closed it or an error ended it.
    pub open spec fn cut_off(self, e: Event) -> bool {
        ||| e.res == 0 && TransferView::ends_at_zero(e.state())
        ||| e.res < 0 && !self.t.errnos.puts_off(-e.res)
    }
}

/// A connection that is not cut off ends only when its share is complete.
pub proof fn law_ends_whole(r: Run, e: Event)
    requires
        r.sound(),
        r.whole(),
        r.expects(e),
        r.outcome(e) is Ok,
        !r.cut_off(e),
    ensures
        r.after(e).whole(),
{
    lemma_after(r, e);
    let i = e.conn();
    let c = r.t.conns[i];
    let next = answered(r, e).0;
    assert(sound_conn(c, r.stages[i], r.range(i)));
    assert(whole_conn(c));
    assert(!c.done);
    assert(whole_conn(next));
    assert forall|j: int|
        #![trigger r.after(e).t.conns[j]]
        0 <= j < r.after(e).t.conns.len() implies whole_conn(r.after(e).t.conns[j]) by {
        if j != i {
            assert(r.after(e).t.conns[j] == r.t.conns[j]);
        }
    }
}

/// A connection never comes to a standstill before it ends, as long as moves may
/// carry anything at all and the kernel does not put off the first write.
pub proof fn law_never_stalls(r: Run, e: Event)
    requires
        r.sound(),
        r.moving(),
        r.expects(e),
        r.outcome(e) is Ok,
        r.t.buf_size > 0,
        !(e.state() == STATE_WRITE_INITIAL && e.res < 0 && r.t.errnos.puts_off(-e.res)),
    ensures
        r.after(e).moving(),
{
    lemma_after(r, e);
    let i = e.conn();
    let c = r.t.conns[i];
    let (next, subs) = answered(r, e);
    assert(sound_conn(c, r.stages[i], r.range(i)));
    assert(next.done || !(stage_of(subs) is Streaming) || next.inflight_in_bytes > 0
        || next.inflight_out_bytes > 0);
    assert forall|j: int|
        #![trigger r.after(e).t.conns[j]]
        0 <= j < r.after(e).t.conns.len() && !r.after(e).t.conns[j].done && r.after(
            e,
        ).stages[j] is Streaming implies r.after(e).t.conns[j].inflight_in_bytes > 0 || r.after(
        e,
    ).t.conns[j].inflight_out_bytes > 0 by {
        if j != i {
            assert(r.after(e).t.conns[j] == r.t.conns[j]);
        }
    }
}

impl Run {
    /// The run after the first `n` of `events`.
    pub open spec fn after_all(self, events: Seq<Event>, n: int) -> Run
        decreases n,
    {
        if n <= 0 {
            self
        } else {
            self.after_all(events, n - 1).after(events[n - 1])
        }
    }

    /// Whether a faithful kernel and server may bring the first `n` of `events`, one
    /// after the other, none of which fails the download.
    pub open spec fn expects_all(self, events: Seq<Event>, n: int) -> bool {
        forall|k: int|
            #![trigger events[k]]
            0 <= k < n ==> self.after_all(events, k).expects(events[k]) && self.after_all(
                events,
                k,
            ).outcome(events[k]) is Ok
    }

    /// Whether none of the first `n` of `events` cuts a connection off.
    pub open spec fn unbroken(self, events: Seq<Event>, n: int) -> bool {
        forall|k: int|
            #![trigger events[k]]
            0 <= k < n ==> !self.after_all(events, k).cut_off(events[k])
    }
}

/// In whatever order a faithful kernel and server complete the operations, all books
/// are right at every point of the download.
pub proof fn law_books_right_throughout(r: Run, events: Seq<Event>, n: int)
    requires
        r.sound(),
        0 <= n <= events.len(),
        r.expects_all(events, n),
    ensures
        r.after_all(events, n).sound(),
    decreases n,
{
    if n > 0 {
        law_books_right_throughout(r, events, n - 1);
        assert(r.after_all(events, n - 1).expects(events[n - 1]));
        law_books_stay_right(r.after_all(events, n - 1), events[n - 1]);
    }
}

proof fn lemma_whole_throughout(r: Run, events: Seq<Event>, n: int)
    requires
        r.sound(),
        r.whole(),
        0 <= n <= events.len(),
        r.expects_all(events, n),
        r.unbroken(events, n),
    ensures
        r.after_all(events, n).whole(),
    decreases n,
{
    if n > 0 {
        lemma_whole_throughout(r, events, n - 1);
        law_books_right_throughout(r, events, n - 1);
        assert(r.after_all(events, n - 1).expects(events[n - 1]));
        assert(!r.after_all(events, n - 1).cut_off(events[n - 1]));
        law_ends_whole(r.after_all(events, n - 1), events[n - 1]);
    }
}

pub(crate) proof fn lemma_none_live(conns: Seq<ConnView>, i: int)
    requires
        live(conns) == 0,
        0 <= i < conns.len(),
    ensures
        conns[i].done,
    decreases conns.len(),
{
    if i < conns.len() - 1 {
        lemma_none_live(conns.drop_last(), i);
        assert(conns.drop_last()[i] == conns[i]);
    }
}

proof fn lemma_all_written(r: Run, n: int)
    requires
        0 <= n <= r.t.conns.len(),
        forall|i: int|
            #![trigger r.t.conns[i]]
            0 <= i < r.t.conns.len() ==> r.t.conns[i].file_offset == r.range(i).end + 1,
    ensures
        r.written(n) == shares_size(r.t.total_size as u64, r.t.conns.len() as usize, n),
    decreases n,
{
    if n > 0 {
        lemma_all_written(r, n - 1);
        assert(r.t.conns[n - 1].file_offset == r.range(n - 1).end + 1);
    }
}

/// A download in which every connection has ended and none was cut off is complete:
/// every connection has written its whole share, and as many bytes were written as the
/// resource has.
pub proof fn law_ended_complete(r: Run)
    requires
        r.sound(),
        r.whole(),
        r.t.active == 0,
    ensures
        r.t.downloaded == r.t.total_size,
        forall|i: int|
            #![trigger r.t.conns[i]]
            0 <= i < r.t.conns.len() ==> r.t.conns[i].file_offset == r.range(i).end + 1,
{
    assert forall|i: int| #![trigger r.t.conns[i]] 0 <= i < r.t.conns.len() implies r.t.conns[i].file_offset
        == r.range(i).end + 1 by {
        lemma_none_live(r.t.conns, i);
        assert(sound_conn(r.t.conns[i], r.stages[i], r.range(i)));
    }
    lemma_all_written(r, r.t.conns.len() as int);
    law_shares_add_up(r.t.total_size as u64, r.t.conns.len() as usize);
}

/// A download that ends with no connection cut off is complete, whatever order its
/// operations completed in.
pub proof fn law_download_complete(r: Run, events: Seq<Event>)
    requires
        r.sound(),
        r.whole(),
        r.expects_all(events, events.len() as int),
        r.unbroken(events, events.len() as int),
        r.after_all(events, events.len() as int).t.active == 0,
    ensures
        ({
            let end = r.after_all(events, events.len() as int);
            &&& end.t.downloaded == end.t.total_size
            &&& forall|i: int|
                #![trigger end.t.conns[i]]
                0 <= i < end.t.conns.len() ==> end.t.conns[i].file_offset == end.range(i).end + 1
        }),
{
    law_books_right_throughout(r, events, events.len() as int);
    lemma_whole_throughout(r, events, events.len() as int);
    law_ended_complete(r.after_all(events, events.len() as int));
}

/// Whether what a connection that has ended has in its pipe is on its way to the file.
pub open spec fn draining_conn(c: ConnView) -> bool {
    c.done && c.pipe_bytes_available > 0 ==> c.inflight_out_bytes > 0
}

impl Run {
    /// Whether what ended connections have in their pipes is on its way to the file.
    pub open spec fn draining(self) -> bool {
        forall|i: int|
            #![trigger self.t.conns[i]]
            0 <= i < self.t.conns.len() ==> draining_conn(self.t.conns[i])
    }
}

/// What a connection has received is not forgotten when the connection ends, also where
/// the server closes it early: as long as there is anything in the pipe, a move from
/// there into the file is asked for.
pub proof fn law_ended_drains(r: Run, e: Event)
    requires
        r.sound(),
        r.draining(),
        r.expects(e),
        r.outcome(e) is Ok,
    ensures
        r.after(e).draining(),
{
    lemma_after(r, e);
    let i = e.conn();
    let c = r.t.conns[i];
    let next = answered(r, e).0;
    assert(sound_conn(c, r.stages[i], r.range(i)));
    assert(capped(c, r.t.buf_size));
    assert(draining_conn(c));
    assert(draining_conn(next));
    assert forall|j: int|
        #![trigger r.after(e).t.conns[j]]
        0 <= j < r.after(e).t.conns.len() implies draining_conn(r.after(e).t.conns[j]) by {
        if j != i {
            assert(r.after(e).t.conns[j] == r.t.conns[j]);
        }
    }
}

/// No connection writes outside its share: every operation that writes to the file
/// does so within the share, provided the server sent no more than it was asked for
/// and file positions fit the kernel's offsets.
pub proof fn law_writes_within_share(r: Run, e: Event, k: int)
    requires
        r.sound(),
        r.expects(e),
        r.outcome(e) is Ok,
        r.t.total_size <= i64::MAX,
        0 <= k < r.outcome(e)->Ok_0.submissions.len(),
    ensures
        match r.outcome(e)->Ok_0.submissions[k] {
            SubmissionView::Splice { fd_out, off_out, len, user_data, .. } => token_state(user_data)
                == STATE_SPLICE_OUT ==> {
                &&& fd_out == r.t.writer_fd
                &&& r.range(e.conn()).start <= off_out
                &&& off_out + len <= r.range(e.conn()).end + 1
            },
            SubmissionView::WriteFile { fd, offset, data, .. } => {
                &&& fd == r.t.writer_fd
                &&& r.range(e.conn()).start <= offset
                &&& data.len() <= r.after(e).t.conns[e.conn()].bytes_remaining ==> offset + data.len()
                    <= r.range(e.conn()).end + 1
            },
            _ => true,
        },
{
    lemma_after(r, e);
    lemma_booked(r, e);
    law_share_within(r.t.total_size as u64, r.t.conns.len() as usize, e.conn());
    let next = answered(r, e).0;
    assert(booked(answered(r, e).1[k], next, r.t.writer_fd));
    assert(r.after(e).t.conns[e.conn()] == next);
}

/// Every operation that a connection asks for is its own, by its token, and is what its
/// books then say is under way: the sending of its request on its socket, the reading of
/// its answer from there, a move from its socket into its pipe, a move from its pipe to
/// its place in the file, or the writing there of the payload that came with the head.
/// File positions have to fit the kernel's offsets.
pub proof fn law_operations_match_books(r: Run, e: Event, k: int)
    requires
        r.sound(),
        r.expects(e),
        r.outcome(e) is Ok,
        r.t.total_size <= i64::MAX,
        0 <= k < r.outcome(e)->Ok_0.submissions.len(),
    ensures
        ({
            let next = r.after(e).t.conns[e.conn()];
            match r.outcome(e)->Ok_0.submissions[k] {
                SubmissionView::Splice { fd_in, off_in, fd_out, off_out, len, user_data } => {
                    &&& off_in == NO_OFFSET
                    &&& if token_state(user_data) == STATE_SPLICE_IN {
                        &&& fd_in == next.sock_fd
                        &&& fd_out == next.pipe.write_fd
                        &&& off_out == NO_OFFSET
                        &&& len == next.inflight_in_bytes
                    } else {
                        &&& token_state(user_data) == STATE_SPLICE_OUT
                        &&& fd_in == next.pipe.read_fd
                        &&& fd_out == r.t.writer_fd
                        &&& off_out == next.file_offset
                        &&& len == next.inflight_out_bytes
                    }
                },
                SubmissionView::WriteFile { fd, offset, data, user_data } => {
                    &&& token_state(user_data) == STATE_WRITE_INITIAL
                    &&& fd == r.t.writer_fd
                    &&& offset == next.file_offset
                    &&& data == initial_payload(next)
                },
                SubmissionView::Send { fd, data, user_data } => {
                    &&& token_state(user_data) == STATE_SEND_REQ
                    &&& fd == next.sock_fd
                    &&& data == encode_utf8(next.http_req)
                },
                SubmissionView::ReadHeader { fd, len, user_data } => {
                    &&& token_state(user_data) == STATE_READ_HEADER
                    &&& fd == next.sock_fd
                    &&& len == (next.header_capacity - next.header.len()) as u32
                },
            }
        }),
        token_conn(operation_token(r.outcome(e)->Ok_0.submissions[k])) == e.conn(),
{
    lemma_after(r, e);
    lemma_booked(r, e);
    law_share_within(r.t.total_size as u64, r.t.conns.len() as usize, e.conn());
    let next = answered(r, e).0;
    assert(booked(answered(r, e).1[k], next, r.t.writer_fd));
    assert(r.after(e).t.conns[e.conn()] == next);
    lemma_own_tokens(r, e, k);
}

/// The token of an operation.
pub open spec fn operation_token(s: SubmissionView) -> u64 {
    match s {
        SubmissionView::Send { user_data, .. } => user_data,
        SubmissionView::ReadHeader { user_data, .. } => user_data,
        SubmissionView::WriteFile { user_data, .. } => user_data,
        SubmissionView::Splice { user_data, .. } => user_data,
    }
}

proof fn lemma_own_tokens(r: Run, e: Event, k: int)
    requires
        r.sound(),
        r.expects(e),
        r.outcome(e) is Ok,
        0 <= k < answered(r, e).1.len(),
    ensures
        token_conn(operation_token(answered(r, e).1[k])) == e.conn(),
{
    let c = r.t.conns[e.conn()];
    assert(c.id == e.conn());
    assert(forall|state: u8| token_conn(#[trigger] token(c.id as nat, state)) == c.id);
}

/// A running move is left alone until it completes: no other completion changes what
/// it carries, nor the place in the file that a move into the file goes to.
pub proof fn law_running_moves_left_alone(r: Run, e: Event, i: int)
    requires
        r.sound(),
        r.expects(e),
        r.outcome(e) is Ok,
        0 <= i < r.t.conns.len(),
    ensures
        ({
            let before = r.t.conns[i];
            let next = r.after(e).t.conns[i];
            &&& before.inflight_in_bytes > 0 && !(e.conn() == i && e.state() == STATE_SPLICE_IN)
                ==> next.inflight_in_bytes == before.inflight_in_bytes
            &&& before.inflight_out_bytes > 0 && !(e.conn() == i && e.state() == STATE_SPLICE_OUT)
                ==> next.inflight_out_bytes == before.inflight_out_bytes && next.file_offset
                == before.file_offset
        }),
{
    lemma_after(r, e);
    assert(sound_conn(r.t.conns[e.conn()], r.stages[e.conn()], r.range(e.conn())));
    if i != e.conn() {
        assert(r.after(e).t.conns[i] == r.t.conns[i]);
    }
}

/// Every completion that a faithful kernel and server bring can be taken up, while
/// the room for response heads can still double.
pub proof fn law_expected_is_accepted(r: Run, e: Event)
    requires
        r.sound(),
        r.expects(e),
        r.t.conns[e.conn()].header_capacity * 2 <= usize::MAX,
    ensures
        r.t.accepts(e.user_data, e.res, e.data),
{
    let i = e.conn();
    let c = r.t.conns[i];
    assert(sound_conn(c, r.stages[i], r.range(i)));
    law_share_within(r.t.total_size as u64, r.t.conns.len() as usize, i);
    lemma_written_rest(r, i, r.t.conns.len() as int);
    law_shares_add_up(r.t.total_size as u64, r.t.conns.len() as usize);
}

/// What all connections wrote, and what connection `i` has yet to write, is
/// together no more than all shares.
proof fn lemma_written_rest(r: Run, i: int, n: int)
    requires
        r.sound(),
        0 <= i < r.t.conns.len(),
        0 <= n <= r.t.conns.len(),
    ensures
        r.written(n) + (if i < n {
            r.t.conns[i].pipe_bytes_available + r.t.conns[i].bytes_remaining
        } else {
            0
        }) <= shares_size(r.t.total_size as u64, r.t.conns.len() as usize, n),
    decreases n,
{
    if n > 0 {
        lemma_written_rest(r, i, n - 1);
        assert(sound_conn(r.t.conns[n - 1], r.stages[n - 1], r.range(n - 1)));
    }
}

/// A move into the pipe asks for no more than one move may carry, than is still to
/// come and than the pipe has room for, so the pipe holds at most what it can; it is
/// not asked for while another one runs.
pub proof fn law_pipe_bounded(c: ConnView, buf_size: nat)
    requires
        c.pipe_bytes_available + c.inflight_in_bytes <= c.pipe.capacity,
    ensures
        c.wanted_in(buf_size) <= buf_size,
        c.wanted_in(buf_size) <= c.bytes_remaining,
        ({
            let next = c.produce(buf_size).0;
            next.pipe_bytes_available + next.inflight_in_bytes <= c.pipe.capacity
        }),
        c.inflight_in_bytes > 0 ==> c.produce(buf_size).1 is None,
{
}

/// A move into the file asks for no more than one move may carry and than the pipe
/// holds; it is asked for only once the threshold is reached or the payload or the
/// connection has ended, and not while another one runs.
pub proof fn law_disk_writes_gathered(c: ConnView, writer_fd: i32, buf_size: nat)
    ensures
        c.wanted_out(buf_size) <= buf_size,
        c.wanted_out(buf_size) <= c.pipe_bytes_available,
        c.consume(writer_fd, buf_size).1 is Some ==> c.network_eof || c.done
            || c.pipe_bytes_available >= DISK_WRITE_THRESHOLD,
        c.inflight_out_bytes > 0 ==> c.consume(writer_fd, buf_size).1 is None,
{
}

/// A connection that the server closes ends at once. Nothing else changes where its pipe is
/// empty or a move from there into the file is running; otherwise such a move is asked for.
pub proof fn law_close_ends_at_once(c: ConnView, writer_fd: i32, buf_size: nat)
    ensures
        ({
            let (next, subs) = c.network_closed(writer_fd, buf_size);
            &&& next == ConnView { done: true, inflight_out_bytes: next.inflight_out_bytes, ..c }
            &&& c.pipe_bytes_available == 0 || c.inflight_out_bytes > 0 ==> next == c.finished()
                && subs.len() == 0
            &&& c.pipe_bytes_available > 0 && !c.disk_eof && buf_size > 0
                ==> next.inflight_out_bytes > 0
        }),
{
}

/// The two sides of a connection are served independently: what is asked of the
/// network does not depend on what is under way to the file, nor the other way round.
pub proof fn law_sides_independent(
    c: ConnView,
    buf_size: nat,
    inflight: nat,
    ended: bool,
    offset: nat,
    remaining: nat,
)
    ensures
        (ConnView {
            inflight_out_bytes: inflight,
            disk_eof: ended,
            file_offset: offset,
            ..c
        }).wanted_in(buf_size) == c.wanted_in(buf_size),
        (ConnView { inflight_in_bytes: inflight, bytes_remaining: remaining, ..c }).wanted_out(
            buf_size,
        ) == c.wanted_out(buf_size),
{
}

/// No connection comes to a standstill at any point of the download, as long as moves
/// may carry anything at all and the kernel puts off no first write.
pub proof fn law_never_stalls_throughout(r: Run, events: Seq<Event>, n: int)
    requires
        r.sound(),
        r.moving(),
        r.t.buf_size > 0,
        0 <= n <= events.len(),
        r.expects_all(events, n),
        forall|k: int|
            #![trigger events[k]]
            0 <= k < n ==> !(events[k].state() == STATE_WRITE_INITIAL && events[k].res < 0
                && r.t.errnos.puts_off(-events[k].res)),
    ensures
        r.after_all(events, n).moving(),
        r.after_all(events, n).t.buf_size == r.t.buf_size,
        r.after_all(events, n).t.errnos == r.t.errnos,
    decreases n,
{
    if n > 0 {
        let before = r.after_all(events, n - 1);
        law_never_stalls_throughout(r, events, n - 1);
        law_books_right_throughout(r, events, n - 1);
        assert(before.expects(events[n - 1]));
        lemma_after(before, events[n - 1]);
        law_never_stalls(before, events[n - 1]);
    }
}

/// A connection that has ended stays so, and no completion makes the number of bytes
/// written smaller.
pub proof fn law_no_way_back(r: Run, e: Event, i: int)
    requires
        r.sound(),
        r.expects(e),
        0 <= i < r.t.conns.len(),
    ensures
        r.t.conns[i].done ==> r.after(e).t.conns[i].done,
        r.after(e).t.active <= r.t.active,
        r.after(e).t.downloaded >= r.t.downloaded,
{
    assert(sound_conn(r.t.conns[e.conn()], r.stages[e.conn()], r.range(e.conn())));
    if r.outcome(e) is Ok {
        lemma_after(r, e);
        if answered(r, e).0.done && !r.t.conns[e.conn()].done {
            lemma_with_conn_wf(r.t, e.conn(), answered(r, e).0);
        }
    }
}

} // verus!

//! The engine: how a download is laid out, and how it answers the completion of
//! each operation.
use vstd::prelude::*;
use crate::connection::{ConnectionState, Submission};
#[allow(unused_imports)]
use crate::connection::{submission_views, ConnView, SubmissionView};
use crate::http::{parse_http_response_header, HttpResponseHeader, ResponseError};
#[allow(unused_imports)]
use crate::http::response_header;
use crate::plan::{share_of, ByteRange};
#[allow(unused_imports)]
use crate::plan::{divisible, share};
use crate::token::{
    decode_user_data,
    encode_user_data,
    STATE_READ_HEADER,
    STATE_SEND_REQ,
    STATE_SPLICE_IN,
    STATE_SPLICE_OUT,
    STATE_WRITE_INITIAL,
};
#[allow(unused_imports)]
use crate::token::{token, token_conn, token_state};

verus! {

/// How downloads are carried out: the sizes of the two rings, the most that one
/// move of payload may carry, and the number of connections asked for.
#[derive(Clone, Copy, Debug, PartialEq, Eq, Structural)]
pub struct DownloadEngine {
    pub sq_entries: u32,
    pub cq_entries: u32,
    pub buf_size: usize,
    pub connections: usize,
}

/// The number of connections used where `connections` are asked for: at least one.
pub open spec fn used_connections(connections: usize) -> usize {
    if connections == 0 {
        1
    } else {
        connections
    }
}

impl DownloadEngine {
    /// An engine whose submission ring and completion ring have `ring_entries` each.
    /// The block size plays no part.
    pub fn new(
        ring_entries: u16,
        buf_size: usize,
        connections: usize,
        _block_size_kb: usize,
    ) -> (engine: DownloadEngine)
        ensures
            engine.sq_entries == ring_entries,
            engine.cq_entries == ring_entries,
            engine.buf_size == buf_size,
            engine.connections == connections,
    {
        DownloadEngine {
            sq_entries: ring_entries as u32,
            cq_entries: ring_entries as u32,
            buf_size,
            connections,
        }
    }

    /// The number of connections that a download uses.
    pub fn num_connections(&self) -> (n: usize)
        ensures
            n == used_connections(self.connections),
    {
        if self.connections == 0 {
            1
        } else {
            self.connections
        }
    }

    /// Whether a resource of `total_size` bytes has a byte for every connection.
    pub fn can_divide(&self, total_size: u64) -> (b: bool)
        ensures
            b == divisible(total_size, used_connections(self.connections)),
    {
        self.num_connections() as u64 <= total_size
    }

    /// The part of a resource of `total_size` bytes that connection `id` fetches.
    pub fn range(&self, total_size: u64, id: usize) -> (range: ByteRange)
        requires
            divisible(total_size, used_connections(self.connections)),
            id < used_connections(self.connections),
        ensures
            range == share(total_size, used_connections(self.connections), id as int),
    {
        share_of(total_size, self.num_connections(), id)
    }
}

/// The error numbers of the operating system that the engine tells apart.
#[derive(Clone, Copy, Debug, PartialEq, Eq, Structural)]
pub struct Errnos {
    pub again: i32,
    pub would_block: i32,
    pub interrupted: i32,
    pub connection_reset: i32,
}

impl Errnos {
    /// Whether an operation that failed with `errno` is to be asked for once more.
    pub open spec fn puts_off(self, errno: int) -> bool {
        errno == self.again || errno == self.would_block || errno == self.interrupted
    }
}

/// Why a download ended early.
#[derive(Debug)]
pub enum EngineError {
    /// An operation of kind `state` failed on connection `conn_id`.
    Io { conn_id: usize, state: u8, errno: i32 },
    /// A connection was answered with something other than the payload.
    Response(ResponseError),
}

/// What follows from the completion of an operation: the operations to ask for,
/// and, where payload reached the file through the pipe, how much of the whole is
/// there.
#[derive(Debug)]
pub struct Step {
    pub submissions: Vec<Submission>,
    pub progress: Option<(u64, u64)>,
}

/// What a `Step` stands for.
#[verifier::ext_equal]
pub struct StepView {
    pub submissions: Seq<SubmissionView>,
    pub progress: Option<(nat, nat)>,
}

impl View for Step {
    type V = StepView;

    open spec fn view(&self) -> StepView {
        StepView {
            submissions: submission_views(self.submissions@),
            progress: match self.progress {
                Some((downloaded, total)) => Some((downloaded as nat, total as nat)),
                None => None,
            },
        }
    }
}

/// What the outcome of a completion stands for.
pub open spec fn outcome_view(outcome: Result<Step, EngineError>) -> Result<StepView, EngineError> {
    match outcome {
        Ok(step) => Ok(step@),
        Err(e) => Err(e),
    }
}

/// A download under way.
#[derive(Debug)]
pub struct Transfer {
    pub states: Vec<ConnectionState>,
    pub active_connections: usize,
    pub total_downloaded_bytes: u64,
    pub total_size: u64,
    pub writer_fd: i32,
    pub buf_size: usize,
    pub errnos: Errnos,
}

/// What a `Transfer` stands for.
#[verifier::ext_equal]
pub struct TransferView {
    pub conns: Seq<ConnView>,
    pub active: nat,
    pub downloaded: nat,
    pub total_size: nat,
    pub writer_fd: i32,
    pub buf_size: nat,
    pub errnos: Errnos,
}

/// What a list of connections stands for.
pub open spec fn conn_views(states: Seq<ConnectionState>) -> Seq<ConnView> {
    states.map_values(|s: ConnectionState| s@)
}

impl View for Transfer {
    type V = TransferView;

    open spec fn view(&self) -> TransferView {
        TransferView {
            conns: conn_views(self.states@),
            active: self.active_connections as nat,
            downloaded: self.total_downloaded_bytes as nat,
            total_size: self.total_size as nat,
            writer_fd: self.writer_fd,
            buf_size: self.buf_size as nat,
            errnos: self.errnos,
        }
    }
}

/// How many connections still take part in the download.
pub open spec fn live(conns: Seq<ConnView>) -> nat
    decreases conns.len(),
{
    if conns.len() == 0 {
        0
    } else {
        live(conns.drop_last()) + if conns.last().done {
            0nat
        } else {
            1nat
        }
    }
}

/// The operations that start a download: every connection sends its request.
pub open spec fn opening_submissions(conns: Seq<ConnView>) -> Seq<SubmissionView> {
    conns.map_values(|c: ConnView| c.send_request(token(c.id as nat, STATE_SEND_REQ)))
}

impl TransferView {
    /// What holds of a download at all times: connections are found by their
    /// number, and the count of those that still take part is right.
    pub open spec fn wf(self) -> bool {
        &&& forall|i: int|
            #![trigger self.conns[i]]
            0 <= i < self.conns.len() ==> self.conns[i].id == i && self.conns[i].wf()
        &&& self.active == live(self.conns)
    }

    /// The download after connection `i` turned into `c`.
    pub open spec fn with_conn(self, i: int, c: ConnView) -> TransferView {
        TransferView {
            conns: self.conns.update(i, c),
            active: if c.done && !self.conns[i].done {
                (self.active - 1) as nat
            } else {
                self.active
            },
            downloaded: (self.downloaded + c.file_offset - self.conns[i].file_offset) as nat,
            ..self
        }
    }

    /// The download and the outcome after connection `i` did `moved`.
    pub open spec fn stepped(self, i: int, moved: (ConnView, Seq<SubmissionView>)) -> (
        TransferView,
        Result<StepView, EngineError>,
    ) {
        (
            self.with_conn(i, moved.0),
            Ok(StepView { submissions: moved.1, progress: None }),
        )
    }

    /// The download and the outcome after the bytes that connection `i` received
    /// were searched for a response head, with the result `parsed`.
    pub open spec fn header_parsed(
        self,
        i: int,
        parsed: Result<Option<HttpResponseHeader>, ResponseError>,
    ) -> (TransferView, Result<StepView, EngineError>) {
        match parsed {
            Err(e) => (self, Err(EngineError::Response(e))),
            Ok(header) => self.stepped(
                i,
                self.conns[i].header_parsed(header, self.writer_fd, self.buf_size),
            ),
        }
    }

    /// The download and the outcome after an operation of kind `state` failed on
    /// connection `i`.
    pub open spec fn failed(self, i: int, state: u8, user_data: u64, errno: int) -> (
        TransferView,
        Result<StepView, EngineError>,
    ) {
        let c = self.conns[i];
        if self.errnos.puts_off(errno) {
            self.stepped(i, c.retried(state, user_data, self.writer_fd, self.buf_size))
        } else if errno == self.errnos.connection_reset && c.bytes_remaining == 0 {
            self.stepped(i, (c.finished(), seq![]))
        } else {
            (self, Err(EngineError::Io { conn_id: i as usize, state, errno: errno as i32 }))
        }
    }

    /// The download and the outcome after an operation of kind `state` moved `n`
    /// bytes on connection `i`; `data` are the bytes that a read brought.
    pub open spec fn succeeded(self, i: int, state: u8, n: nat, data: Seq<u8>) -> (
        TransferView,
        Result<StepView, EngineError>,
    ) {
        let c = self.conns[i];
        if state == STATE_SEND_REQ {
            self.stepped(i, c.request_sent())
        } else if state == STATE_READ_HEADER {
            let next = self.with_conn(i, c.received(data));
            next.header_parsed(i, response_header(next.conns[i].header))
        } else if state == STATE_WRITE_INITIAL {
            self.stepped(i, c.initial_written(self.writer_fd, self.buf_size))
        } else if state == STATE_SPLICE_IN {
            self.stepped(i, c.spliced_in(n, self.writer_fd, self.buf_size))
        } else if state == STATE_SPLICE_OUT {
            let (next, subs) = c.spliced_out(n, self.writer_fd, self.buf_size);
            let after = self.with_conn(i, next);
            (
                after,
                Ok(
                    StepView {
                        submissions: subs,
                        progress: Some((after.downloaded, after.total_size)),
                    },
                ),
            )
        } else {
            self.stepped(i, (c, seq![]))
        }
    }

    /// Whether a result of zero says that nothing more will come: it does for every
    /// operation but the sending of the request and the first write.
    pub open spec fn ends_at_zero(state: u8) -> bool {
        state != STATE_SEND_REQ && state != STATE_WRITE_INITIAL
    }

    /// The download and the outcome after the operation with the token `user_data`
    /// completed with `res`: a negated error number, or a number of bytes.
    pub open spec fn completed(self, user_data: u64, res: i32, data: Seq<u8>) -> (
        TransferView,
        Result<StepView, EngineError>,
    ) {
        let i = token_conn(user_data) as int;
        let state = token_state(user_data);
        if res < 0 {
            self.failed(i, state, user_data, -res)
        } else if res == 0 && state == STATE_SPLICE_IN {
            self.stepped(i, self.conns[i].network_closed(self.writer_fd, self.buf_size))
        } else if res == 0 && Self::ends_at_zero(state) {
            self.stepped(i, (self.conns[i].finished(), seq![]))
        } else {
            self.succeeded(i, state, res as nat, data)
        }
    }

    /// Whether the books can take up `n` bytes moved by an operation of kind `state`
    /// on connection `i`: a read brings as many bytes as it reports and has room for,
    /// no more leaves a pipe than is in it, no more stays in it than it can hold
    /// while more may come, and every count fits its type.
    pub open spec fn can_account(self, i: int, state: u8, n: nat, data: Seq<u8>) -> bool {
        let c = self.conns[i];
        if state == STATE_READ_HEADER {
            &&& data.len() == n
            &&& c.header.len() + n <= c.header_capacity
            &&& c.header.len() + n == c.header_capacity ==> c.header_capacity * 2 <= usize::MAX
        } else if state == STATE_WRITE_INITIAL {
            &&& c.file_offset + c.initial_payload_len <= u64::MAX
            &&& self.downloaded + c.initial_payload_len <= u64::MAX
        } else if state == STATE_SPLICE_IN {
            &&& c.pipe_bytes_available + n <= usize::MAX
            &&& c.filled(n).wf()
        } else if state == STATE_SPLICE_OUT {
            &&& n <= c.pipe_bytes_available
            &&& c.file_offset + n <= u64::MAX
            &&& self.downloaded + n <= u64::MAX
        } else {
            true
        }
    }

    /// Whether the download can take up a completion: its connection exists, and
    /// what it reports can be accounted for.
    pub open spec fn accepts(self, user_data: u64, res: i32, data: Seq<u8>) -> bool {
        let i = token_conn(user_data) as int;
        let state = token_state(user_data);
        &&& i < self.conns.len()
        &&& res != i32::MIN
        &&& res < 0 || (res == 0 && Self::ends_at_zero(state)) || self.can_account(
            i,
            state,
            res as nat,
            data,
        )
    }
}

proof fn lemma_live_update(conns: Seq<ConnView>, i: int, c: ConnView)
    requires
        0 <= i < conns.len(),
    ensures
        live(conns.update(i, c)) + (if conns[i].done {
            0nat
        } else {
            1nat
        }) == live(conns) + (if c.done {
            0nat
        } else {
            1nat
        }),
    decreases conns.len(),
{
    if i == conns.len() - 1 {
        assert(conns.update(i, c).drop_last() == conns.drop_last());
    } else {
        assert(conns.update(i, c).drop_last() == conns.drop_last().update(i, c));
        lemma_live_update(conns.drop_last(), i, c);
    }
}

/// A download stays well-formed when one connection turns into a well-formed
/// connection of the same number.
pub(crate) proof fn lemma_with_conn_wf(t: TransferView, i: int, c: ConnView)
    requires
        t.wf(),
        0 <= i < t.conns.len(),
        c.id == i,
        c.wf(),
        t.conns[i].done ==> c.done,
    ensures
        t.with_conn(i, c).wf(),
        c.done && !t.conns[i].done ==> t.active > 0,
{
    lemma_live_update(t.conns, i, c);
    let conns = t.with_conn(i, c).conns;
    assert forall|j: int| #![trigger conns[j]] 0 <= j < conns.len() implies conns[j].id == j
        && conns[j].wf() by {
        if j != i {
            assert(conns[j] == t.conns[j]);
        }
    }
}

pub(crate) proof fn lemma_all_live(conns: Seq<ConnView>)
    requires
        forall|i: int| #![trigger conns[i]] 0 <= i < conns.len() ==> !conns[i].done,
    ensures
        live(conns) == conns.len(),
    decreases conns.len(),
{
    if conns.len() > 0 {
        assert forall|i: int| #![trigger conns.drop_last()[i]]
            0 <= i < conns.drop_last().len() implies !conns.drop_last()[i].done by {
            assert(conns.drop_last()[i] == conns[i]);
        }
        lemma_all_live(conns.drop_last());
        assert(!conns[conns.len() - 1].done);
    }
}

impl Transfer {
    /// A download over the fresh connections `states` into the file `writer_fd`.
    pub fn new(
        engine: &DownloadEngine,
        writer_fd: i32,
        total_size: u64,
        states: Vec<ConnectionState>,
        errnos: Errnos,
    ) -> (transfer: Transfer)
        requires
            forall|i: int|
                #![trigger states@[i]]
                0 <= i < states@.len() ==> states@[i]@.id == i && states@[i]@.wf()
                    && !states@[i]@.done,
        ensures
            transfer@ == (TransferView {
                conns: conn_views(states@),
                active: states@.len(),
                downloaded: 0,
                total_size: total_size as nat,
                writer_fd,
                buf_size: engine.buf_size as nat,
                errnos,
            }),
            transfer@.wf(),
    {
        let active_connections: usize = states.len();
        let transfer = Transfer {
            states,
            active_connections,
            total_downloaded_bytes: 0,
            total_size,
            writer_fd,
            buf_size: engine.buf_size,
            errnos,
        };
        proof {
            let conns = conn_views(states@);
            assert forall|i: int| #![trigger conns[i]] 0 <= i < conns.len() implies !conns[i].done
                && conns[i].id == i && conns[i].wf() by {
                assert(conns[i] == states@[i]@);
            }
            lemma_all_live(conns);
        }
        transfer
    }

    /// The operations that start the download.
    pub fn opening(&self) -> (subs: Vec<Submission>)
        ensures
            submission_views(subs@) == opening_submissions(self@.conns),
    {
        let mut subs: Vec<Submission> = Vec::new();
        let mut i: usize = 0;
        while i < self.states.len()
            invariant
                i <= self.states.len(),
                subs@.len() == i,
                forall|j: int|
                    #![trigger subs@[j]]
                    0 <= j < i ==> subs@[j]@ == opening_submissions(self@.conns)[j],
            decreases self.states.len() - i,
        {
            let state = &self.states[i];
            subs.push(state.send_request(encode_user_data(state.id, STATE_SEND_REQ)));
            i += 1;
        }
        assert(submission_views(subs@) =~= opening_submissions(self@.conns));
        subs
    }

    /// Whether every connection has ended.
    pub fn is_finished(&self) -> (b: bool)
        ensures
            b == (self@.active == 0),
    {
        self.active_connections == 0
    }

    /// Brings the counts of the download up to date with connection `conn_id`, which
    /// was done or not and wrote up to `offset` before.
    fn settle(&mut self, conn_id: usize, was_done: bool, offset: u64)
        requires
            conn_id < old(self).states.len(),
            old(self).states@[conn_id as int].done && !was_done ==> old(self).active_connections
                > 0,
            offset <= old(self).states@[conn_id as int].file_offset,
            old(self).total_downloaded_bytes + old(self).states@[conn_id as int].file_offset
                - offset <= u64::MAX,
        ensures
            final(self)@ == (TransferView {
                active: if old(self).states@[conn_id as int].done && !was_done {
                    (old(self)@.active - 1) as nat
                } else {
                    old(self)@.active
                },
                downloaded: (old(self)@.downloaded + old(self).states@[conn_id as int].file_offset
                    - offset) as nat,
                ..old(self)@
            }),
    {
        if self.states[conn_id].done && !was_done {
            self.active_connections = self.active_connections - 1;
        }
        let written: u64 = self.states[conn_id].file_offset - offset;
        self.total_downloaded_bytes = self.total_downloaded_bytes + written;
    }

    /// Goes on once the bytes that connection `conn_id` received were searched for a
    /// response head.
    pub fn header_parsed(
        &mut self,
        conn_id: usize,
        parsed: Result<Option<HttpResponseHeader>, ResponseError>,
    ) -> (outcome: Result<Step, EngineError>)
        requires
            old(self)@.wf(),
            conn_id < old(self)@.conns.len(),
            match parsed {
                Err(_) => true,
                Ok(Some(h)) => h.header_len <= old(self)@.conns[conn_id as int].header.len(),
                Ok(None) => old(self)@.conns[conn_id as int].header.len() == old(
                    self,
                )@.conns[conn_id as int].header_capacity ==> old(
                    self,
                )@.conns[conn_id as int].header_capacity * 2 <= usize::MAX,
            },
        ensures
            (final(self)@, outcome_view(outcome)) == old(self)@.header_parsed(
                conn_id as int,
                parsed,
            ),
            final(self)@.wf(),
    {
        match parsed {
            Err(e) => Err(EngineError::Response(e)),
            Ok(header) => {
                let was_done = self.states[conn_id].done;
                let offset: u64 = self.states[conn_id].file_offset;
                let writer_fd: i32 = self.writer_fd;
                let buf_size: usize = self.buf_size;
                let submissions = self.states[conn_id].header_parsed(header, writer_fd, buf_size);
                let ghost next = self.states@[conn_id as int]@;
                proof {
                    assert(next.wf());
                    lemma_with_conn_wf(old(self)@, conn_id as int, next);
                }
                self.settle(conn_id, was_done, offset);
                assert(self@ == old(self)@.with_conn(conn_id as int, next));
                Ok(Step { submissions, progress: None })
            },
        }
    }

    /// Whether the download can take up a completion.
    pub fn accepts(&self, user_data: u64, res: i32, data: &[u8]) -> (b: bool)
        ensures
            b == self@.accepts(user_data, res, data@),
    {
        let (conn_id, state) = decode_user_data(user_data);
        if conn_id >= self.states.len() || res == i32::MIN {
            return false;
        }
        if res < 0 || (res == 0 && state != STATE_SEND_REQ && state != STATE_WRITE_INITIAL) {
            return true;
        }
        let c = &self.states[conn_id];
        assert(c@ == self@.conns[conn_id as int]);
        let n: usize = res as usize;
        if state == STATE_READ_HEADER {
            data.len() == n && c.header.len() <= c.header_capacity && n <= c.header_capacity
                - c.header.len() && (n < c.header_capacity - c.header.len() || c.header_capacity
                <= usize::MAX / 2)
        } else if state == STATE_WRITE_INITIAL {
            let written: u64 = c.initial_payload_len as u64;
            written <= u64::MAX - c.file_offset && written <= u64::MAX
                - self.total_downloaded_bytes
        } else if state == STATE_SPLICE_IN {
            n <= usize::MAX - c.pipe_bytes_available && c.header.len() <= c.header_capacity && (
            c.network_eof || c.bytes_remaining <= n as u64 || c.pipe_bytes_available + n
                <= c.pipe.capacity)
        } else if state == STATE_SPLICE_OUT {
            let written: u64 = n as u64;
            n <= c.pipe_bytes_available && written <= u64::MAX - c.file_offset && written
                <= u64::MAX - self.total_downloaded_bytes
        } else {
            true
        }
    }

    /// Answers the completion of the operation with the token `user_data`. `res` is
    /// a negated error number or the number of bytes moved; `data` are the bytes that
    /// were read, where the operation was the reading of a response head.
    pub fn on_completion(&mut self, user_data: u64, res: i32, data: &[u8]) -> (outcome: Result<
        Step,
        EngineError,
    >)
        requires
            old(self)@.wf(),
            old(self)@.accepts(user_data, res, data@),
        ensures
            (final(self)@, outcome_view(outcome)) == old(self)@.completed(user_data, res, data@),
            final(self)@.wf(),
    {
        let (conn_id, state) = decode_user_data(user_data);
        let was_done = self.states[conn_id].done;
        let offset: u64 = self.states[conn_id].file_offset;
        let writer_fd: i32 = self.writer_fd;
        let buf_size: usize = self.buf_size;
        let ghost before = self.states@[conn_id as int]@;
        assert(before == self@.conns[conn_id as int]);
        let submissions: Vec<Submission>;
        if res < 0 {
            let errno: i32 = -res;
            if errno == self.errnos.again || errno == self.errnos.would_block || errno
                == self.errnos.interrupted {
                submissions = self.states[conn_id].retry(state, user_data, writer_fd, buf_size);
            } else if errno == self.errnos.connection_reset && self.states[conn_id].bytes_remaining
                == 0 {
                self.states[conn_id].finish();
                submissions = Vec::new();
            } else {
                return Err(EngineError::Io { conn_id, state, errno });
            }
        } else if res == 0 && state == STATE_SPLICE_IN {
            submissions = self.states[conn_id].network_closed(writer_fd, buf_size);
        } else if res == 0 && state != STATE_SEND_REQ && state != STATE_WRITE_INITIAL {
            self.states[conn_id].finish();
            submissions = Vec::new();
        } else if state == STATE_SEND_REQ {
            submissions = self.states[conn_id].request_sent();
        } else if state == STATE_READ_HEADER {
            self.states[conn_id].receive(data);
            let ghost next = self.states@[conn_id as int]@;
            proof {
                lemma_with_conn_wf(old(self)@, conn_id as int, next);
                assert(self@ == old(self)@.with_conn(conn_id as int, next));
            }
            let parsed = parse_http_response_header(self.states[conn_id].header.as_slice());
            return self.header_parsed(conn_id, parsed);
        } else if state == STATE_WRITE_INITIAL {
            submissions = self.states[conn_id].initial_written(writer_fd, buf_size);
        } else if state == STATE_SPLICE_IN {
            submissions = self.states[conn_id].spliced_in(res as usize, writer_fd, buf_size);
        } else if state == STATE_SPLICE_OUT {
            submissions = self.states[conn_id].spliced_out(res as usize, writer_fd, buf_size);
        } else {
            submissions = Vec::new();
        }
        let ghost next = self.states@[conn_id as int]@;
        proof {
            assert(submissions@.len() == 0 ==> submission_views(submissions@) =~= seq![]);
            lemma_with_conn_wf(old(self)@, conn_id as int, next);
        }
        self.settle(conn_id, was_done, offset);
        assert(self@ == old(self)@.with_conn(conn_id as int, next));
        let progress = if res > 0 && state == STATE_SPLICE_OUT {
            Some((self.total_downloaded_bytes, self.total_size))
        } else {
            None
        };
        let outcome: Result<Step, EngineError> = Ok(Step { submissions, progress });
        outcome
    }
}

} // verus!

//! What arrives in the file: a download against a kernel that moves bytes faithfully
//! and servers that send what they are asked for leaves the resource in the file.
#![allow(unused_imports)]
use vstd::prelude::*;
use crate::connection::{monus, ConnView};
use crate::engine::Errnos;
use crate::guarantees::{
    answered,
    answers,
    draining_conn,
    initial_payload,
    law_ended_complete,
    law_ended_drains,
    law_ends_whole,
    law_opening_sound,
    lemma_after,
    lemma_none_live,
    on_track,
    opening_run,
    quiet,
    sound_conn,
    stage_of,
    Event,
    Run,
    Stage,
};
use crate::http::{recognised, response_header};
use crate::pipe::{KernelPipe, PIPE_CAPACITY};
use crate::plan::{
    divisible,
    law_share_within,
    law_shares_cover,
    law_shares_disjoint,
    share,
    ByteRange,
};
use crate::request::ParsedUrlView;
use crate::token::{
    token_state,
    STATE_READ_HEADER,
    STATE_SPLICE_IN,
    STATE_SPLICE_OUT,
    STATE_WRITE_INITIAL,
};

verus! {

/// The world outside the library: the bytes in the file, the bytes in each pipe, and
/// what each server has yet to send.
#[verifier::ext_equal]
pub struct World {
    pub file: Seq<u8>,
    pub pipes: Seq<Seq<u8>>,
    pub streams: Seq<Seq<u8>>,
}

/// `file` after `data` was written to it at `offset`.
pub open spec fn overwritten(file: Seq<u8>, offset: int, data: Seq<u8>) -> Seq<u8> {
    Seq::new(
        file.len(),
        |k: int|
            if offset <= k < offset + data.len() {
                data[k - offset]
            } else {
                file[k]
            },
    )
}

impl World {
    /// The world after the operation that `e` completes was carried out for the
    /// connection `c`.
    pub open spec fn after(self, c: ConnView, e: Event) -> World {
        let i = e.conn();
        let n = e.res as int;
        if e.res <= 0 {
            self
        } else if e.state() == STATE_READ_HEADER {
            World { streams: self.streams.update(i, self.streams[i].skip(n)), ..self }
        } else if e.state() == STATE_WRITE_INITIAL {
            World {
                file: overwritten(self.file, c.file_offset as int, initial_payload(c)),
                ..self
            }
        } else if e.state() == STATE_SPLICE_IN {
            World {
                pipes: self.pipes.update(i, self.pipes[i] + self.streams[i].take(n)),
                streams: self.streams.update(i, self.streams[i].skip(n)),
                ..self
            }
        } else if e.state() == STATE_SPLICE_OUT {
            World {
                file: overwritten(self.file, c.file_offset as int, self.pipes[i].take(n)),
                pipes: self.pipes.update(i, self.pipes[i].skip(n)),
                ..self
            }
        } else {
            self
        }
    }
}

/// Whether `e` reports that the server closed its connection while payload was awaited.
pub open spec fn closes(e: Event) -> bool {
    e.state() == STATE_SPLICE_IN && e.res == 0
}

/// Whether no server closes a connection in the first `n` of `events`.
pub open spec fn unclosed(events: Seq<Event>, n: int) -> bool {
    forall|k: int| #![trigger events[k]] 0 <= k < n ==> !closes(events[k])
}

/// A download and the world around it.
pub struct Delivery {
    pub r: Run,
    pub w: World,
}

impl Delivery {
    /// Whether `e` reports what a faithful kernel does next: it completes what was asked
    /// for, it brings only bytes that the server sends, the first write is carried out at
    /// once and in full, and no connection is cut off but by the server's closing it.
    pub open spec fn carries_out(self, e: Event) -> bool {
        let i = e.conn();
        let c = self.r.t.conns[i];
        &&& i < self.r.t.conns.len()
        &&& answers(c, self.r.stages[i], e.state(), e.res, e.data)
        &&& self.r.cut_off(e) ==> closes(e)
        &&& e.state() == STATE_WRITE_INITIAL ==> e.res == c.initial_payload_len
        &&& e.res > 0 && (e.state() == STATE_READ_HEADER || e.state() == STATE_SPLICE_IN) ==> e.res
            <= self.w.streams[i].len()
        &&& e.res > 0 && e.state() == STATE_READ_HEADER ==> e.data == self.w.streams[i].take(
            e.res as int,
        )
    }

    /// The download and the world after `e`.
    pub open spec fn after(self, e: Event) -> Delivery {
        Delivery { r: self.r.after(e), w: self.w.after(self.r.t.conns[e.conn()], e) }
    }

    /// The download and the world after the first `n` of `events`.
    pub open spec fn after_all(self, events: Seq<Event>, n: int) -> Delivery
        decreases n,
    {
        if n <= 0 {
            self
        } else {
            self.after_all(events, n - 1).after(events[n - 1])
        }
    }

    /// Whether a faithful kernel may bring the first `n` of `events`, one after the other.
    pub open spec fn carries_out_all(self, events: Seq<Event>, n: int) -> bool {
        forall|k: int|
            #![trigger events[k]]
            0 <= k < n ==> self.after_all(events, k).carries_out(events[k])
    }

    /// Whether everything that is in the file, in the pipes and on the way is what the
    /// resource has there, where the servers answer with `heads`.
    pub open spec fn faithful(self, heads: Seq<Seq<u8>>, resource: Seq<u8>) -> bool {
        &&& self.r.sound()
        &&& resource.len() == self.r.t.total_size
        &&& self.w.file.len() == resource.len()
        &&& heads.len() == self.r.t.conns.len()
        &&& self.w.pipes.len() == self.r.t.conns.len()
        &&& self.w.streams.len() == self.r.t.conns.len()
        &&& forall|i: int|
            #![trigger self.r.t.conns[i]]
            0 <= i < self.r.t.conns.len() ==> true_conn(
                self.r.t.conns[i],
                self.r.stages[i],
                self.r.range(i),
                heads[i],
                resource,
                self.w.pipes[i],
                self.w.streams[i],
                self.w.file,
            )
    }
}

/// The bytes of `resource` in `range`.
pub open spec fn part(resource: Seq<u8>, range: ByteRange) -> Seq<u8> {
    resource.subrange(range.start as int, range.end + 1)
}

/// Whether the connection `c`, its pipe, what its server has yet to send and its
/// share of the file are true to the resource.
pub open spec fn true_conn(
    c: ConnView,
    stage: Stage,
    range: ByteRange,
    head: Seq<u8>,
    resource: Seq<u8>,
    pipe: Seq<u8>,
    stream: Seq<u8>,
    file: Seq<u8>,
) -> bool {
    &&& recognised(head, part(resource, range))
    &&& forall|k: int|
        #![trigger file[k]]
        range.start <= k < c.file_offset ==> file[k] == resource[k]
    &&& match stage {
        Stage::Streaming => {
            &&& pipe == resource.subrange(
                c.file_offset as int,
                (c.file_offset + c.pipe_bytes_available) as int,
            )
            &&& stream == resource.subrange(
                (c.file_offset + c.pipe_bytes_available) as int,
                range.end + 1,
            )
        },
        Stage::Writing => {
            &&& pipe == Seq::<u8>::empty()
            &&& c.file_offset == range.start
            &&& c.header + stream == head + part(resource, range)
            &&& c.header.len() == head.len() + c.initial_payload_len
        },
        _ => {
            &&& pipe == Seq::<u8>::empty()
            &&& c.file_offset == range.start
            &&& c.header + stream == head + part(resource, range)
        },
    }
}

/// What `true_conn` says of a connection whose payload is about to stream.
proof fn lemma_stream_starts(
    c: ConnView,
    range: ByteRange,
    head: Seq<u8>,
    resource: Seq<u8>,
    stream: Seq<u8>,
)
    requires
        0 <= range.start <= range.end < resource.len(),
        head.len() <= c.header.len(),
        c.header + stream == head + part(resource, range),
    ensures
        ({
            let got = c.header.len() - head.len();
            &&& range.start + got <= range.end + 1
            &&& c.header.skip(head.len() as int) == resource.subrange(
                range.start as int,
                range.start + got,
            )
            &&& stream == resource.subrange(range.start + got, range.end + 1)
        }),
{
    let got = c.header.len() - head.len();
    let all = c.header + stream;
    let same = head + part(resource, range);
    assert(all.len() == c.header.len() + stream.len());
    assert(same.len() == head.len() + range.size());
    assert forall|k: int| 0 <= k < got implies #[trigger] c.header.skip(head.len() as int)[k]
        == resource[range.start + k] by {
        assert(all[head.len() + k] == c.header[head.len() + k]);
        assert(same[head.len() + k] == part(resource, range)[k]);
    }
    assert forall|k: int| 0 <= k < stream.len() implies #[trigger] stream[k] == resource[range.start
        + got + k] by {
        assert(all[c.header.len() + k] == stream[k]);
        assert(same[c.header.len() + k] == part(resource, range)[got + k]);
    }
    assert(c.header.skip(head.len() as int) =~= resource.subrange(
        range.start as int,
        range.start + got,
    ));
    assert(stream =~= resource.subrange(range.start + got, range.end + 1));
}

/// Asking for moves changes nothing of what has been moved.
proof fn lemma_pump_keeps(c: ConnView, writer_fd: i32, buf_size: nat)
    ensures
        ({
            let (next, subs) = c.pump(writer_fd, buf_size);
            &&& next.file_offset == c.file_offset
            &&& next.pipe_bytes_available == c.pipe_bytes_available
            &&& stage_of(subs) is Streaming
        }),
{
}

proof fn lemma_streamed_keeps(c: ConnView, writer_fd: i32, buf_size: nat)
    ensures
        ({
            let (next, subs) = c.streamed(writer_fd, buf_size);
            &&& next.file_offset == c.file_offset
            &&& next.pipe_bytes_available == c.pipe_bytes_available
            &&& stage_of(subs) is Streaming
        }),
{
    lemma_pump_keeps(c, writer_fd, buf_size);
}

proof fn lemma_true_retried(
    c: ConnView,
    stage: Stage,
    range: ByteRange,
    head: Seq<u8>,
    resource: Seq<u8>,
    w: (Seq<u8>, Seq<u8>, Seq<u8>),
    user_data: u64,
    res: i32,
    data: Seq<u8>,
    writer_fd: i32,
    buf_size: nat,
)
    requires
        true_conn(c, stage, range, head, resource, w.0, w.1, w.2),
        answers(c, stage, token_state(user_data), res, data),
        token_state(user_data) != STATE_WRITE_INITIAL,
    ensures
        ({
            let (next, subs) = c.retried(token_state(user_data), user_data, writer_fd, buf_size);
            true_conn(next, stage_of(subs), range, head, resource, w.0, w.1, w.2)
        }),
{
}

proof fn lemma_true_received(
    c: ConnView,
    range: ByteRange,
    head: Seq<u8>,
    resource: Seq<u8>,
    w: (Seq<u8>, Seq<u8>, Seq<u8>),
    n: int,
    writer_fd: i32,
    buf_size: nat,
)
    requires
        true_conn(c, Stage::Heading, range, head, resource, w.0, w.1, w.2),
        on_track(c, range),
        quiet(c),
        range.start <= range.end < resource.len(),
        0 < n <= w.1.len(),
    ensures
        ({
            let data = w.1.take(n);
            let (next, subs) = c.received(data).header_parsed(
                response_header(c.header + data)->Ok_0,
                writer_fd,
                buf_size,
            );
            true_conn(next, stage_of(subs), range, head, resource, w.0, w.1.skip(n), w.2)
        }),
{
    let data = w.1.take(n);
    let got = c.received(data);
    let body = part(resource, range);
    assert(got.header + w.1.skip(n) =~= c.header + w.1);
    assert(got.header =~= (got.header + w.1.skip(n)).take(got.header.len() as int));
    assert(got.header == (head + body).take(got.header.len() as int));
    assert((head + body).len() == head.len() + body.len());
    match response_header(got.header)->Ok_0 {
        Some(h) => {
            assert(h.header_len == head.len() && head.len() <= got.header.len());
            lemma_stream_starts(got, range, head, resource, w.1.skip(n));
            let payload = got.header.skip(h.header_len as int);
            let next = ConnView { initial_payload_len: payload.len(), ..got };
            lemma_streamed_keeps(next, writer_fd, buf_size);
            if payload.len() == 0 {
                assert(w.0 =~= resource.subrange(range.start as int, range.start as int));
            }
        },
        None => {},
    }
}

proof fn lemma_true_initial(
    c: ConnView,
    range: ByteRange,
    head: Seq<u8>,
    resource: Seq<u8>,
    w: (Seq<u8>, Seq<u8>, Seq<u8>),
    writer_fd: i32,
    buf_size: nat,
)
    requires
        true_conn(c, Stage::Writing, range, head, resource, w.0, w.1, w.2),
        on_track(c, range),
        quiet(c),
        range.start <= range.end < resource.len() == w.2.len(),
    ensures
        ({
            let (next, subs) = c.initial_written(writer_fd, buf_size);
            true_conn(
                next,
                stage_of(subs),
                range,
                head,
                resource,
                w.0,
                w.1,
                overwritten(w.2, c.file_offset as int, initial_payload(c)),
            )
        }),
{
    let moved = ConnView {
        file_offset: c.file_offset + c.initial_payload_len,
        bytes_remaining: monus(c.bytes_remaining, c.initial_payload_len),
        ..c
    };
    let file = overwritten(w.2, c.file_offset as int, initial_payload(c));
    lemma_stream_starts(c, range, head, resource, w.1);
    assert(initial_payload(c) == c.header.skip(head.len() as int));
    lemma_streamed_keeps(moved, writer_fd, buf_size);
    assert(w.0 =~= resource.subrange(moved.file_offset as int, moved.file_offset as int));
    assert forall|k: int| #![trigger file[k]] range.start <= k < moved.file_offset implies file[k]
        == resource[k] by {
        assert(initial_payload(c)[k - range.start] == resource[k]);
    }
}

proof fn lemma_true_filled(
    c: ConnView,
    range: ByteRange,
    head: Seq<u8>,
    resource: Seq<u8>,
    w: (Seq<u8>, Seq<u8>, Seq<u8>),
    n: int,
    writer_fd: i32,
    buf_size: nat,
)
    requires
        true_conn(c, Stage::Streaming, range, head, resource, w.0, w.1, w.2),
        on_track(c, range),
        range.start <= range.end < resource.len(),
        0 < n <= w.1.len(),
    ensures
        ({
            let (next, subs) = c.spliced_in(n as nat, writer_fd, buf_size);
            true_conn(
                next,
                stage_of(subs),
                range,
                head,
                resource,
                w.0 + w.1.take(n),
                w.1.skip(n),
                w.2,
            )
        }),
{
    let from = (c.file_offset + c.pipe_bytes_available) as int;
    lemma_pump_keeps(c.filled(n as nat), writer_fd, buf_size);
    assert(w.0 + w.1.take(n) =~= resource.subrange(c.file_offset as int, from + n));
    assert(w.1.skip(n) =~= resource.subrange(from + n, range.end + 1));
}

proof fn lemma_true_drained(
    c: ConnView,
    range: ByteRange,
    head: Seq<u8>,
    resource: Seq<u8>,
    w: (Seq<u8>, Seq<u8>, Seq<u8>),
    n: int,
    writer_fd: i32,
    buf_size: nat,
)
    requires
        true_conn(c, Stage::Streaming, range, head, resource, w.0, w.1, w.2),
        on_track(c, range),
        range.start <= range.end < resource.len() == w.2.len(),
        0 < n <= c.pipe_bytes_available,
    ensures
        ({
            let (next, subs) = c.spliced_out(n as nat, writer_fd, buf_size);
            true_conn(
                next,
                stage_of(subs),
                range,
                head,
                resource,
                w.0.skip(n),
                w.1,
                overwritten(w.2, c.file_offset as int, w.0.take(n)),
            )
        }),
{
    let from = c.file_offset as int;
    let moved = ConnView {
        pipe_bytes_available: monus(c.pipe_bytes_available, n as nat),
        inflight_out_bytes: 0,
        file_offset: c.file_offset + n as nat,
        ..c
    };
    let file = overwritten(w.2, from, w.0.take(n));
    lemma_pump_keeps(moved, writer_fd, buf_size);
    assert(w.0.skip(n) =~= resource.subrange(from + n, from + c.pipe_bytes_available));
    assert forall|k: int| #![trigger file[k]] range.start <= k < from + n implies file[k]
        == resource[k] by {
        if from <= k {
            assert(w.0.take(n)[k - from] == resource[k]);
        }
    }
}

/// The bytes received once `n` more arrive are the start of the answer.
proof fn lemma_received_start(
    c: ConnView,
    range: ByteRange,
    head: Seq<u8>,
    resource: Seq<u8>,
    stream: Seq<u8>,
    n: int,
)
    requires
        c.header + stream == head + part(resource, range),
        0 <= n <= stream.len(),
    ensures
        ({
            let k = c.header.len() + n;
            &&& k <= head.len() + part(resource, range).len()
            &&& c.header + stream.take(n) == (head + part(resource, range)).take(k)
        }),
{
    assert((c.header + stream).len() == c.header.len() + stream.len());
    assert(c.header + stream.take(n) =~= (c.header + stream).take(c.header.len() + n));
}

/// What a faithful kernel reports is expected, and it never fails the download.
proof fn lemma_carried_out(d: Delivery, heads: Seq<Seq<u8>>, resource: Seq<u8>, e: Event)
    requires
        d.faithful(heads, resource),
        d.carries_out(e),
    ensures
        d.r.expects(e),
        d.r.outcome(e) is Ok,
{
    let i = e.conn();
    let c = d.r.t.conns[i];
    let range = d.r.range(i);
    law_share_within(d.r.t.total_size as u64, d.r.t.conns.len() as usize, i);
    assert(sound_conn(c, d.r.stages[i], range));
    assert(true_conn(
        c,
        d.r.stages[i],
        range,
        heads[i],
        resource,
        d.w.pipes[i],
        d.w.streams[i],
        d.w.file,
    ));
    let body = part(resource, range);
    assert(body.len() == range.size());
    if d.r.stages[i] is Writing {
        assert((c.header + d.w.streams[i]).len() == (heads[i] + body).len());
    }
    if e.state() == STATE_READ_HEADER && e.res > 0 {
        lemma_received_start(c, range, heads[i], resource, d.w.streams[i], e.res as int);
        assert(response_header((heads[i] + body).take(c.header.len() + e.res)) is Ok);
        assert(d.r.t.with_conn(i, c.received(e.data)).conns[i].header == c.header + e.data);
    }
}

/// What an event does to its own connection is true to the resource.
proof fn lemma_own_conn(d: Delivery, heads: Seq<Seq<u8>>, resource: Seq<u8>, e: Event)
    requires
        d.faithful(heads, resource),
        d.carries_out(e),
    ensures
        ({
            let i = e.conn();
            let w = d.w.after(d.r.t.conns[i], e);
            true_conn(
                answered(d.r, e).0,
                stage_of(answered(d.r, e).1),
                d.r.range(i),
                heads[i],
                resource,
                w.pipes[i],
                w.streams[i],
                w.file,
            )
        }),
{
    let i = e.conn();
    let c = d.r.t.conns[i];
    let range = d.r.range(i);
    let stage = d.r.stages[i];
    let w = (d.w.pipes[i], d.w.streams[i], d.w.file);
    let writer_fd = d.r.t.writer_fd;
    let buf_size = d.r.t.buf_size;
    law_share_within(d.r.t.total_size as u64, d.r.t.conns.len() as usize, i);
    assert(sound_conn(c, stage, range));
    assert(true_conn(c, stage, range, heads[i], resource, w.0, w.1, w.2));
    lemma_carried_out(d, heads, resource, e);
    if e.res < 0 {
        lemma_true_retried(
            c,
            stage,
            range,
            heads[i],
            resource,
            w,
            e.user_data,
            e.res,
            e.data,
            writer_fd,
            buf_size,
        );
    } else if e.state() == STATE_READ_HEADER {
        lemma_true_received(c, range, heads[i], resource, w, e.res as int, writer_fd, buf_size);
    } else if e.state() == STATE_WRITE_INITIAL {
        lemma_true_initial(c, range, heads[i], resource, w, writer_fd, buf_size);
        if e.res == 0 {
            assert(overwritten(w.2, c.file_offset as int, initial_payload(c)) =~= w.2);
        }
    } else if closes(e) {
    } else if e.state() == STATE_SPLICE_IN {
        lemma_true_filled(c, range, heads[i], resource, w, e.res as int, writer_fd, buf_size);
    } else if e.state() == STATE_SPLICE_OUT {
        lemma_true_drained(c, range, heads[i], resource, w, e.res as int, writer_fd, buf_size);
    }
}

/// An event changes the file only within the share of its own connection.
proof fn lemma_other_bytes(d: Delivery, heads: Seq<Seq<u8>>, resource: Seq<u8>, e: Event, k: int)
    requires
        d.faithful(heads, resource),
        d.carries_out(e),
        0 <= k < resource.len(),
        !d.r.range(e.conn()).holds(k),
    ensures
        d.w.after(d.r.t.conns[e.conn()], e).file[k] == d.w.file[k],
{
    let i = e.conn();
    let c = d.r.t.conns[i];
    lemma_carried_out(d, heads, resource, e);
    assert(sound_conn(c, d.r.stages[i], d.r.range(i)));
    assert(true_conn(
        c,
        d.r.stages[i],
        d.r.range(i),
        heads[i],
        resource,
        d.w.pipes[i],
        d.w.streams[i],
        d.w.file,
    ));
    law_share_within(d.r.t.total_size as u64, d.r.t.conns.len() as usize, i);
}

/// Whatever a faithful kernel does next, what is in the file, in the pipes and on the
/// way stays true to the resource.
pub proof fn law_stays_faithful(d: Delivery, heads: Seq<Seq<u8>>, resource: Seq<u8>, e: Event)
    requires
        d.faithful(heads, resource),
        d.carries_out(e),
    ensures
        d.after(e).faithful(heads, resource),
{
    let i = e.conn();
    let next = d.after(e);
    lemma_carried_out(d, heads, resource, e);
    lemma_after(d.r, e);
    lemma_own_conn(d, heads, resource, e);
    assert(next.w.file.len() == resource.len());
    assert forall|j: int| #![trigger next.r.t.conns[j]] 0 <= j < next.r.t.conns.len() implies true_conn(
        next.r.t.conns[j],
        next.r.stages[j],
        next.r.range(j),
        heads[j],
        resource,
        next.w.pipes[j],
        next.w.streams[j],
        next.w.file,
    ) by {
        assert(next.r.range(j) == d.r.range(j));
        if j != i {
            let c = d.r.t.conns[j];
            assert(next.r.t.conns[j] == c);
            assert(sound_conn(c, d.r.stages[j], d.r.range(j)));
            law_share_within(d.r.t.total_size as u64, d.r.t.conns.len() as usize, j);
            assert forall|k: int|
                #![trigger next.w.file[k]]
                d.r.range(j).start <= k < c.file_offset implies next.w.file[k] == resource[k] by {
                if d.r.range(i).holds(k) {
                    law_shares_disjoint(
                        d.r.t.total_size as u64,
                        d.r.t.conns.len() as usize,
                        i,
                        j,
                        k,
                    );
                }
                lemma_other_bytes(d, heads, resource, e, k);
            }
        }
    }
}

/// Everything stays true to the resource throughout the download.
pub proof fn law_faithful_throughout(
    d: Delivery,
    heads: Seq<Seq<u8>>,
    resource: Seq<u8>,
    events: Seq<Event>,
    n: int,
)
    requires
        d.faithful(heads, resource),
        0 <= n <= events.len(),
        d.carries_out_all(events, n),
    ensures
        d.after_all(events, n).faithful(heads, resource),
    decreases n,
{
    if n > 0 {
        law_faithful_throughout(d, heads, resource, events, n - 1);
        assert(d.after_all(events, n - 1).carries_out(events[n - 1]));
        law_stays_faithful(d.after_all(events, n - 1), heads, resource, events[n - 1]);
    }
}

/// No completion that a faithful kernel brings fails the download.
pub proof fn law_faithful_run_succeeds(
    d: Delivery,
    heads: Seq<Seq<u8>>,
    resource: Seq<u8>,
    events: Seq<Event>,
    k: int,
)
    requires
        d.faithful(heads, resource),
        d.carries_out_all(events, events.len() as int),
        0 <= k < events.len(),
    ensures
        d.after_all(events, k).r.expects(events[k]),
        d.after_all(events, k).r.outcome(events[k]) is Ok,
{
    assert(d.carries_out_all(events, k)) by {
        assert forall|j: int| #![trigger events[j]] 0 <= j < k implies d.after_all(
            events,
            j,
        ).carries_out(events[j]) by {}
    }
    law_faithful_throughout(d, heads, resource, events, k);
    assert(d.after_all(events, k).carries_out(events[k]));
    lemma_carried_out(d.after_all(events, k), heads, resource, events[k]);
}

proof fn lemma_stays_whole(
    d: Delivery,
    heads: Seq<Seq<u8>>,
    resource: Seq<u8>,
    events: Seq<Event>,
    n: int,
)
    requires
        d.faithful(heads, resource),
        d.r.whole(),
        0 <= n <= events.len(),
        d.carries_out_all(events, n),
        unclosed(events, n),
    ensures
        d.after_all(events, n).r.whole(),
    decreases n,
{
    if n > 0 {
        let before = d.after_all(events, n - 1);
        let e = events[n - 1];
        lemma_stays_whole(d, heads, resource, events, n - 1);
        law_faithful_throughout(d, heads, resource, events, n - 1);
        assert(before.carries_out(e));
        assert(!closes(e));
        lemma_carried_out(before, heads, resource, e);
        law_ends_whole(before.r, e);
    }
}

/// A download that ends leaves the resource in the file, byte for byte, in whatever
/// order its operations complete and however the answers are cut into pieces, where no
/// server closes its connection early.
pub proof fn law_file_is_resource(
    d: Delivery,
    heads: Seq<Seq<u8>>,
    resource: Seq<u8>,
    events: Seq<Event>,
)
    requires
        d.faithful(heads, resource),
        d.r.whole(),
        d.carries_out_all(events, events.len() as int),
        unclosed(events, events.len() as int),
        d.after_all(events, events.len() as int).r.t.active == 0,
    ensures
        d.after_all(events, events.len() as int).w.file == resource,
        d.after_all(events, events.len() as int).r.t.downloaded == resource.len(),
{
    let n = events.len() as int;
    let end = d.after_all(events, n);
    law_faithful_throughout(d, heads, resource, events, n);
    lemma_stays_whole(d, heads, resource, events, n);
    assert forall|k: int| 0 <= k < resource.len() implies end.w.file[k] == resource[k] by {
        let i = law_shares_cover(end.r.t.total_size as u64, end.r.t.conns.len() as usize, k);
        let c = end.r.t.conns[i];
        lemma_none_live(end.r.t.conns, i);
        assert(c.done);
        assert(sound_conn(c, end.r.stages[i], end.r.range(i)));
        assert(true_conn(
            c,
            end.r.stages[i],
            end.r.range(i),
            heads[i],
            resource,
            end.w.pipes[i],
            end.w.streams[i],
            end.w.file,
        ));
    }
    assert(end.w.file =~= resource);
    law_ended_complete(end.r);
}

/// Two downloads over the same answers end alike: neither fails, and when both have
/// ended their files are the same and each counts every byte, in whatever order their
/// operations completed and however the answers were cut into pieces.
pub proof fn law_runs_end_alike(
    d: Delivery,
    heads: Seq<Seq<u8>>,
    resource: Seq<u8>,
    events: Seq<Event>,
    others: Seq<Event>,
)
    requires
        d.faithful(heads, resource),
        d.r.whole(),
        d.carries_out_all(events, events.len() as int),
        unclosed(events, events.len() as int),
        d.after_all(events, events.len() as int).r.t.active == 0,
        d.carries_out_all(others, others.len() as int),
        unclosed(others, others.len() as int),
        d.after_all(others, others.len() as int).r.t.active == 0,
    ensures
        forall|k: int|
            #![trigger events[k]]
            0 <= k < events.len() ==> d.after_all(events, k).r.outcome(events[k]) is Ok,
        forall|k: int|
            #![trigger others[k]]
            0 <= k < others.len() ==> d.after_all(others, k).r.outcome(others[k]) is Ok,
        d.after_all(events, events.len() as int).w.file == d.after_all(
            others,
            others.len() as int,
        ).w.file,
        d.after_all(events, events.len() as int).r.t.downloaded == d.after_all(
            others,
            others.len() as int,
        ).r.t.downloaded,
{
    assert forall|k: int| #![trigger events[k]] 0 <= k < events.len() implies d.after_all(
        events,
        k,
    ).r.outcome(events[k]) is Ok by {
        law_faithful_run_succeeds(d, heads, resource, events, k);
    }
    assert forall|k: int| #![trigger others[k]] 0 <= k < others.len() implies d.after_all(
        others,
        k,
    ).r.outcome(others[k]) is Ok by {
        law_faithful_run_succeeds(d, heads, resource, others, k);
    }
    law_file_is_resource(d, heads, resource, events);
    law_file_is_resource(d, heads, resource, others);
}

/// Also where servers close their connections early, what a connection has written is at
/// every point what the resource has there; and once the connection has ended and no move
/// into the file is under way, everything that it received is written.
pub proof fn law_received_is_delivered(
    d: Delivery,
    heads: Seq<Seq<u8>>,
    resource: Seq<u8>,
    events: Seq<Event>,
    i: int,
)
    requires
        d.faithful(heads, resource),
        d.r.draining(),
        d.carries_out_all(events, events.len() as int),
        0 <= i < d.r.t.conns.len(),
    ensures
        ({
            let end = d.after_all(events, events.len() as int);
            let c = end.r.t.conns[i];
            let range = d.r.range(i);
            &&& forall|k: int|
                #![trigger end.w.file[k]]
                range.start <= k < c.file_offset ==> end.w.file[k] == resource[k]
            &&& c.done && c.inflight_out_bytes == 0 ==> c.file_offset + c.bytes_remaining
                == range.end + 1
        }),
{
    let n = events.len() as int;
    let end = d.after_all(events, n);
    law_faithful_throughout(d, heads, resource, events, n);
    lemma_stays_draining(d, heads, resource, events, n);
    assert(draining_conn(end.r.t.conns[i]));
    assert(sound_conn(end.r.t.conns[i], end.r.stages[i], end.r.range(i)));
    assert(true_conn(
        end.r.t.conns[i],
        end.r.stages[i],
        end.r.range(i),
        heads[i],
        resource,
        end.w.pipes[i],
        end.w.streams[i],
        end.w.file,
    ));
}

proof fn lemma_stays_draining(
    d: Delivery,
    heads: Seq<Seq<u8>>,
    resource: Seq<u8>,
    events: Seq<Event>,
    n: int,
)
    requires
        d.faithful(heads, resource),
        d.r.draining(),
        0 <= n <= events.len(),
        d.carries_out_all(events, n),
    ensures
        d.after_all(events, n).r.draining(),
        d.after_all(events, n).r.t.conns.len() == d.r.t.conns.len(),
        d.after_all(events, n).r.t.total_size == d.r.t.total_size,
    decreases n,
{
    if n > 0 {
        let before = d.after_all(events, n - 1);
        let e = events[n - 1];
        lemma_stays_draining(d, heads, resource, events, n - 1);
        law_faithful_throughout(d, heads, resource, events, n - 1);
        assert(before.carries_out(e));
        lemma_carried_out(before, heads, resource, e);
        lemma_after(before.r, e);
        law_ended_drains(before.r, e);
    }
}

/// How far a connection that waits for `stage` is from streaming.
pub open spec fn steps_to_streaming(stage: Stage) -> nat {
    match stage {
        Stage::Requesting => 3,
        Stage::Heading => 2,
        Stage::Writing => 1,
        Stage::Streaming => 0,
    }
}

impl Delivery {
    /// What is left to do on the first `n` connections: every byte of an answer has to
    /// be received, and every byte in a pipe to be written.
    pub open spec fn work(self, n: int) -> nat
        decreases n,
    {
        if n <= 0 {
            0
        } else {
            self.work(n - 1) + self.conn_work(n - 1)
        }
    }

    /// What is left to do on connection `i`.
    pub open spec fn conn_work(self, i: int) -> nat {
        steps_to_streaming(self.r.stages[i]) + self.w.pipes[i].len() + 2 * self.w.streams[i].len()
    }
}

/// How many of the first `n` of `events` were not put off by the kernel.
pub open spec fn effective(events: Seq<Event>, n: int) -> nat
    decreases n,
{
    if n <= 0 {
        0
    } else {
        effective(events, n - 1) + if events[n - 1].res < 0 {
            0nat
        } else {
            1nat
        }
    }
}

proof fn lemma_work_update(a: Delivery, b: Delivery, i: int, n: int)
    requires
        0 <= i,
        forall|j: int|
            #![trigger a.conn_work(j)]
            0 <= j < n && j != i ==> a.conn_work(j) == b.conn_work(j),
    ensures
        b.work(n) == a.work(n) + if i < n {
            b.conn_work(i) - a.conn_work(i)
        } else {
            0
        },
    decreases n,
{
    if n > 0 {
        lemma_work_update(a, b, i, n - 1);
        assert(n - 1 != i ==> a.conn_work(n - 1) == b.conn_work(n - 1));
    }
}

/// Every completion that is not put off leaves less to do, so a download cannot go on
/// for ever: no more of them come than there was to do at the start.
pub proof fn law_run_is_finite(
    d: Delivery,
    heads: Seq<Seq<u8>>,
    resource: Seq<u8>,
    events: Seq<Event>,
    n: int,
)
    requires
        d.faithful(heads, resource),
        0 <= n <= events.len(),
        d.carries_out_all(events, n),
        unclosed(events, n),
    ensures
        ({
            let conns = d.r.t.conns.len() as int;
            effective(events, n) + d.after_all(events, n).work(conns) <= d.work(conns)
        }),
        d.after_all(events, n).r.t.conns.len() == d.r.t.conns.len(),
    decreases n,
{
    if n > 0 {
        let before = d.after_all(events, n - 1);
        let e = events[n - 1];
        let i = e.conn();
        let next = before.after(e);
        law_run_is_finite(d, heads, resource, events, n - 1);
        law_faithful_throughout(d, heads, resource, events, n - 1);
        assert(before.carries_out(e));
        assert(!closes(e));
        lemma_carried_out(before, heads, resource, e);
        lemma_after(before.r, e);
        lemma_less_to_do(before, heads, resource, e);
        assert forall|j: int|
            #![trigger before.conn_work(j)]
            0 <= j < d.r.t.conns.len() && j != i implies before.conn_work(j) == next.conn_work(j) by {
            assert(before.w.pipes[j] == next.w.pipes[j]);
            assert(before.w.streams[j] == next.w.streams[j]);
        }
        lemma_work_update(before, next, i, d.r.t.conns.len() as int);
    }
}

/// A completion leaves less to do on its own connection, or as much where it was put off.
proof fn lemma_less_to_do(d: Delivery, heads: Seq<Seq<u8>>, resource: Seq<u8>, e: Event)
    requires
        d.faithful(heads, resource),
        d.carries_out(e),
        !closes(e),
    ensures
        d.after(e).conn_work(e.conn()) + (if e.res < 0 {
            0nat
        } else {
            1nat
        }) <= d.conn_work(e.conn()),
{
    let i = e.conn();
    let c = d.r.t.conns[i];
    lemma_carried_out(d, heads, resource, e);
    lemma_after(d.r, e);
    law_share_within(d.r.t.total_size as u64, d.r.t.conns.len() as usize, i);
    assert(sound_conn(c, d.r.stages[i], d.r.range(i)));
    assert(true_conn(
        c,
        d.r.stages[i],
        d.r.range(i),
        heads[i],
        resource,
        d.w.pipes[i],
        d.w.streams[i],
        d.w.file,
    ));
    assert(d.after(e).r.stages[i] == stage_of(answered(d.r, e).1));
    let writer_fd = d.r.t.writer_fd;
    let buf_size = d.r.t.buf_size;
    if e.res < 0 {
        assert(stage_of(answered(d.r, e).1) == d.r.stages[i]);
    } else if e.state() == STATE_READ_HEADER {
        assert(d.after(e).w.streams[i].len() == d.w.streams[i].len() - e.res);
        let got = c.received(e.data);
        lemma_streamed_keeps(
            ConnView { initial_payload_len: got.header.len(), ..got },
            writer_fd,
            buf_size,
        );
        assert(!(stage_of(answered(d.r, e).1) is Requesting));
    } else if e.state() == STATE_WRITE_INITIAL {
        let moved = ConnView {
            file_offset: c.file_offset + c.initial_payload_len,
            bytes_remaining: monus(c.bytes_remaining, c.initial_payload_len),
            ..c
        };
        lemma_streamed_keeps(moved, writer_fd, buf_size);
    } else if e.state() == STATE_SPLICE_IN {
        lemma_pump_keeps(c.filled(e.res as nat), writer_fd, buf_size);
    } else if e.state() == STATE_SPLICE_OUT {
        let moved = ConnView {
            pipe_bytes_available: monus(c.pipe_bytes_available, e.res as nat),
            inflight_out_bytes: 0,
            file_offset: c.file_offset + e.res as nat,
            ..c
        };
        lemma_pump_keeps(moved, writer_fd, buf_size);
    }
}

/// At the start of a download everything is true to the resource, where every server
/// answers with a head that can be recognised and with its share of the resource.
pub proof fn law_opening_faithful(
    url: ParsedUrlView,
    fds: Seq<i32>,
    kernel_pipes: Seq<KernelPipe>,
    writer_fd: i32,
    buf_size: nat,
    errnos: Errnos,
    heads: Seq<Seq<u8>>,
    resource: Seq<u8>,
    w: World,
)
    requires
        resource.len() <= u64::MAX,
        fds.len() <= usize::MAX,
        divisible(resource.len() as u64, fds.len() as usize),
        kernel_pipes.len() == fds.len(),
        forall|i: int|
            #![trigger kernel_pipes[i]]
            0 <= i < kernel_pipes.len() ==> kernel_pipes[i].capacity == PIPE_CAPACITY,
        heads.len() == fds.len(),
        w.file.len() == resource.len(),
        w.pipes.len() == fds.len(),
        w.streams.len() == fds.len(),
        forall|i: int|
            #![trigger w.pipes[i]]
            #![trigger w.streams[i]]
            #![trigger heads[i]]
            0 <= i < fds.len() ==> {
                let body = part(resource, share(resource.len() as u64, fds.len() as usize, i));
                &&& w.pipes[i] == Seq::<u8>::empty()
                &&& w.streams[i] == heads[i] + body
                &&& recognised(heads[i], body)
            },
    ensures
        (Delivery {
            r: opening_run(
                resource.len() as u64,
                url,
                fds,
                kernel_pipes,
                writer_fd,
                buf_size,
                errnos,
            ),
            w,
        }).faithful(heads, resource),
        ({
            let r = opening_run(
                resource.len() as u64,
                url,
                fds,
                kernel_pipes,
                writer_fd,
                buf_size,
                errnos,
            );
            r.whole() && r.draining() && r.moving()
        }),
{
    let r = opening_run(
        resource.len() as u64,
        url,
        fds,
        kernel_pipes,
        writer_fd,
        buf_size,
        errnos,
    );
    law_opening_sound(
        resource.len() as u64,
        url,
        fds,
        kernel_pipes,
        writer_fd,
        buf_size,
        errnos,
    );
    assert forall|i: int| #![trigger r.t.conns[i]] 0 <= i < r.t.conns.len() implies true_conn(
        r.t.conns[i],
        r.stages[i],
        r.range(i),
        heads[i],
        resource,
        w.pipes[i],
        w.streams[i],
        w.file,
    ) by {
        let body = part(resource, share(resource.len() as u64, fds.len() as usize, i));
        assert(r.range(i) == share(resource.len() as u64, fds.len() as usize, i));
        assert(w.pipes[i] == Seq::<u8>::empty());
        assert(r.t.conns[i].header + w.streams[i] =~= heads[i] + body);
    }
}

} // verus!

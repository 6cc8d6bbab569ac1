//! Operations that the kernel puts off: they are asked for once more, and the download
//! goes on as if they had not been put off.
#![allow(unused_imports)]
use vstd::prelude::*;
use crate::connection::{monus, ConnView, SubmissionView, NO_OFFSET};
use crate::delivery::Delivery;
use crate::engine::TransferView;
use crate::guarantees::{capped, sound_conn, stage_of, Event, Run};
use crate::http::{response_header, HttpResponseHeader};
use crate::token::{
    token,
    STATE_READ_HEADER,
    STATE_SEND_REQ,
    STATE_SPLICE_IN,
    STATE_SPLICE_OUT,
    STATE_WRITE_INITIAL,
};

verus! {

/// Whether two connections differ in nothing but how much their running moves ask for.
pub open spec fn alike_conn(a: ConnView, b: ConnView) -> bool {
    &&& a == ConnView {
        inflight_in_bytes: a.inflight_in_bytes,
        inflight_out_bytes: a.inflight_out_bytes,
        ..b
    }
    &&& a.inflight_in_bytes > 0 <==> b.inflight_in_bytes > 0
    &&& a.inflight_out_bytes > 0 <==> b.inflight_out_bytes > 0
}

/// Whether two runs differ in nothing but how much running moves ask for. Every count,
/// every place in the file and what each connection waits for are then the same.
pub open spec fn alike(a: Run, b: Run) -> bool {
    &&& a.t == TransferView { conns: a.t.conns, ..b.t }
    &&& a.stages == b.stages
    &&& a.t.conns.len() == b.t.conns.len()
    &&& forall|i: int|
        #![trigger a.t.conns[i]]
        #![trigger b.t.conns[i]]
        0 <= i < a.t.conns.len() ==> alike_conn(a.t.conns[i], b.t.conns[i])
}

/// Whether two outcomes of a step of two connections are alike: so are the connections,
/// and the operations asked for are the same.
pub open spec fn alike_moves(
    a: (ConnView, Seq<SubmissionView>),
    b: (ConnView, Seq<SubmissionView>),
) -> bool {
    alike_conn(a.0, b.0) && a.1 == b.1
}

proof fn lemma_alike_pump(a: ConnView, b: ConnView, writer_fd: i32, buf_size: nat)
    requires
        alike_conn(a, b),
    ensures
        alike_conn(a.produce(buf_size).0, b.produce(buf_size).0),
        a.produce(buf_size).1 == b.produce(buf_size).1,
        alike_conn(a.consume(writer_fd, buf_size).0, b.consume(writer_fd, buf_size).0),
        a.consume(writer_fd, buf_size).1 == b.consume(writer_fd, buf_size).1,
{
}

proof fn lemma_alike_streamed(a: ConnView, b: ConnView, writer_fd: i32, buf_size: nat)
    requires
        alike_conn(a, b),
    ensures
        alike_moves(a.pump(writer_fd, buf_size), b.pump(writer_fd, buf_size)),
        alike_moves(a.streamed(writer_fd, buf_size), b.streamed(writer_fd, buf_size)),
{
    lemma_alike_pump(a, b, writer_fd, buf_size);
    lemma_alike_pump(a.produce(buf_size).0, b.produce(buf_size).0, writer_fd, buf_size);
}

proof fn lemma_alike_retried(
    a: ConnView,
    b: ConnView,
    state: u8,
    user_data: u64,
    writer_fd: i32,
    buf_size: nat,
)
    requires
        alike_conn(a, b),
    ensures
        alike_moves(
            a.retried(state, user_data, writer_fd, buf_size),
            b.retried(state, user_data, writer_fd, buf_size),
        ),
{
    lemma_alike_pump(
        ConnView { inflight_in_bytes: 0, ..a },
        ConnView { inflight_in_bytes: 0, ..b },
        writer_fd,
        buf_size,
    );
    lemma_alike_pump(
        ConnView { inflight_out_bytes: 0, ..a },
        ConnView { inflight_out_bytes: 0, ..b },
        writer_fd,
        buf_size,
    );
}

proof fn lemma_alike_heading(
    a: ConnView,
    b: ConnView,
    header: Option<HttpResponseHeader>,
    writer_fd: i32,
    buf_size: nat,
)
    requires
        alike_conn(a, b),
    ensures
        alike_moves(
            a.header_parsed(header, writer_fd, buf_size),
            b.header_parsed(header, writer_fd, buf_size),
        ),
{
    if let Some(h) = header {
        let payload = a.header.skip(h.header_len as int);
        lemma_alike_streamed(
            ConnView { initial_payload_len: payload.len(), ..a },
            ConnView { initial_payload_len: payload.len(), ..b },
            writer_fd,
            buf_size,
        );
    }
}

proof fn lemma_alike_moved(a: ConnView, b: ConnView, n: nat, writer_fd: i32, buf_size: nat)
    requires
        alike_conn(a, b),
    ensures
        alike_moves(
            a.initial_written(writer_fd, buf_size),
            b.initial_written(writer_fd, buf_size),
        ),
        alike_moves(a.network_closed(writer_fd, buf_size), b.network_closed(writer_fd, buf_size)),
        alike_moves(a.spliced_in(n, writer_fd, buf_size), b.spliced_in(n, writer_fd, buf_size)),
        alike_moves(a.spliced_out(n, writer_fd, buf_size), b.spliced_out(n, writer_fd, buf_size)),
{
    lemma_alike_streamed(
        ConnView {
            file_offset: a.file_offset + a.initial_payload_len,
            bytes_remaining: monus(a.bytes_remaining, a.initial_payload_len),
            ..a
        },
        ConnView {
            file_offset: b.file_offset + b.initial_payload_len,
            bytes_remaining: monus(b.bytes_remaining, b.initial_payload_len),
            ..b
        },
        writer_fd,
        buf_size,
    );
    lemma_alike_pump(a.finished(), b.finished(), writer_fd, buf_size);
    lemma_alike_streamed(a.filled(n), b.filled(n), writer_fd, buf_size);
    lemma_alike_streamed(
        ConnView {
            pipe_bytes_available: monus(a.pipe_bytes_available, n),
            inflight_out_bytes: 0,
            file_offset: a.file_offset + n,
            ..a
        },
        ConnView {
            pipe_bytes_available: monus(b.pipe_bytes_available, n),
            inflight_out_bytes: 0,
            file_offset: b.file_offset + n,
            ..b
        },
        writer_fd,
        buf_size,
    );
}

/// Turning connection `i` of two runs that are alike into connections that are alike
/// leaves the runs alike.
proof fn lemma_alike_with_conn(a: Run, b: Run, i: int, x: ConnView, y: ConnView)
    requires
        alike(a, b),
        0 <= i < a.t.conns.len(),
        alike_conn(x, y),
    ensures
        ({
            let s = a.t.with_conn(i, x);
            let t = b.t.with_conn(i, y);
            &&& s == TransferView { conns: s.conns, ..t }
            &&& s.conns.len() == t.conns.len()
            &&& forall|j: int|
                #![trigger s.conns[j]]
                #![trigger t.conns[j]]
                0 <= j < s.conns.len() ==> alike_conn(s.conns[j], t.conns[j])
        }),
{
    assert(alike_conn(a.t.conns[i], b.t.conns[i]));
    let s = a.t.with_conn(i, x);
    let t = b.t.with_conn(i, y);
    assert forall|j: int|
        #![trigger s.conns[j]]
        #![trigger t.conns[j]]
        0 <= j < s.conns.len() implies alike_conn(s.conns[j], t.conns[j]) by {
        assert(alike_conn(a.t.conns[j], b.t.conns[j]));
    }
}

/// The same completion has the same outcome in two runs that are alike, and leaves them
/// alike.
pub proof fn law_alike_stays(a: Run, b: Run, e: Event)
    requires
        alike(a, b),
        e.conn() < a.t.conns.len(),
    ensures
        a.outcome(e) == b.outcome(e),
        alike(a.after(e), b.after(e)),
{
    let i = e.conn();
    let x = a.t.conns[i];
    let y = b.t.conns[i];
    let writer_fd = a.t.writer_fd;
    let buf_size = a.t.buf_size;
    let state = e.state();
    assert(alike_conn(x, y));
    lemma_alike_retried(x, y, state, e.user_data, writer_fd, buf_size);
    lemma_alike_moved(x, y, e.res as nat, writer_fd, buf_size);
    if e.res < 0 {
        let p = x.retried(state, e.user_data, writer_fd, buf_size);
        let q = y.retried(state, e.user_data, writer_fd, buf_size);
        lemma_alike_with_conn(a, b, i, p.0, q.0);
        lemma_alike_with_conn(a, b, i, x.finished(), y.finished());
    } else if e.res == 0 && state == STATE_SPLICE_IN {
        let p = x.network_closed(writer_fd, buf_size);
        let q = y.network_closed(writer_fd, buf_size);
        lemma_alike_with_conn(a, b, i, p.0, q.0);
    } else if e.res == 0 && TransferView::ends_at_zero(state) {
        lemma_alike_with_conn(a, b, i, x.finished(), y.finished());
    } else if state == STATE_READ_HEADER {
        let p = x.received(e.data);
        let q = y.received(e.data);
        lemma_alike_with_conn(a, b, i, p, q);
        let mid_a = Run { t: a.t.with_conn(i, p), ..a };
        let mid_b = Run { t: b.t.with_conn(i, q), ..b };
        assert(alike(mid_a, mid_b));
        assert(mid_a.t.conns[i] == p && mid_b.t.conns[i] == q);
        if let Ok(header) = response_header(p.header) {
            lemma_alike_heading(p, q, header, writer_fd, buf_size);
            lemma_alike_with_conn(
                mid_a,
                mid_b,
                i,
                p.header_parsed(header, writer_fd, buf_size).0,
                q.header_parsed(header, writer_fd, buf_size).0,
            );
        }
    } else if state == STATE_WRITE_INITIAL {
        let p = x.initial_written(writer_fd, buf_size);
        let q = y.initial_written(writer_fd, buf_size);
        lemma_alike_with_conn(a, b, i, p.0, q.0);
    } else if state == STATE_SPLICE_IN {
        let p = x.spliced_in(e.res as nat, writer_fd, buf_size);
        let q = y.spliced_in(e.res as nat, writer_fd, buf_size);
        lemma_alike_with_conn(a, b, i, p.0, q.0);
    } else if state == STATE_SPLICE_OUT {
        let p = x.spliced_out(e.res as nat, writer_fd, buf_size);
        let q = y.spliced_out(e.res as nat, writer_fd, buf_size);
        lemma_alike_with_conn(a, b, i, p.0, q.0);
    } else {
        lemma_alike_with_conn(a, b, i, x, y);
    }
}

/// Whether `e` says that the kernel put an operation off that is then asked for once
/// more: any but the first write.
pub open spec fn put_off(r: Run, e: Event) -> bool {
    &&& e.res < 0
    &&& r.t.errnos.puts_off(-e.res)
    &&& e.state() != STATE_WRITE_INITIAL
}

/// Whether `s` is the operation of kind `state` of the connection `c`, with its
/// descriptors, its place in the file and the token `user_data`.
pub open spec fn asks_again(
    s: SubmissionView,
    c: ConnView,
    state: u8,
    user_data: u64,
    writer_fd: i32,
) -> bool {
    if state == STATE_SEND_REQ {
        s == c.send_request(user_data)
    } else if state == STATE_READ_HEADER {
        s == c.read_header(user_data)
    } else if state == STATE_SPLICE_IN {
        s matches SubmissionView::Splice { fd_in, off_in, fd_out, off_out, user_data: again, .. }
            && fd_in == c.sock_fd && off_in == NO_OFFSET && fd_out == c.pipe.write_fd && off_out
            == NO_OFFSET && again == user_data
    } else {
        s matches SubmissionView::Splice { fd_in, off_in, fd_out, off_out, user_data: again, .. }
            && fd_in == c.pipe.read_fd && off_in == NO_OFFSET && fd_out == writer_fd && off_out
            == c.file_offset as i64 && again == user_data
    }
}

/// An operation that the kernel puts off is asked for once more, with the same
/// descriptors and the same token. Nothing else is asked for, and no count and no place
/// in the file moves.
pub proof fn law_put_off_is_repeated(r: Run, e: Event)
    requires
        r.sound(),
        r.expects(e),
        put_off(r, e),
        e.user_data == token(e.conn() as nat, e.state()),
    ensures
        r.outcome(e) matches Ok(step) && step.progress is None && step.submissions.len() == 1
            && asks_again(
            step.submissions[0],
            r.t.conns[e.conn()],
            e.state(),
            e.user_data,
            r.t.writer_fd,
        ),
        alike(r.after(e), r),
{
    let i = e.conn();
    let c = r.t.conns[i];
    assert(sound_conn(c, r.stages[i], r.range(i)));
    assert(capped(c, r.t.buf_size));
    let (next, subs) = c.retried(e.state(), e.user_data, r.t.writer_fd, r.t.buf_size);
    assert(c.id == i);
    assert(subs.len() == 1);
    assert(alike_conn(next, c));
    assert(stage_of(subs) == r.stages[i]);
    assert(r.after(e).stages =~= r.stages);
    let after = r.after(e);
    assert forall|j: int|
        #![trigger after.t.conns[j]]
        #![trigger r.t.conns[j]]
        0 <= j < after.t.conns.len() implies alike_conn(after.t.conns[j], r.t.conns[j]) by {
        if j != i {
            assert(after.t.conns[j] == r.t.conns[j]);
        }
    }
}

proof fn lemma_alike_delivery(a: Delivery, b: Delivery, e: Event)
    requires
        alike(a.r, b.r),
        a.w == b.w,
        e.conn() < b.r.t.conns.len(),
    ensures
        alike(a.after(e).r, b.after(e).r),
        a.after(e).w == b.after(e).w,
        a.r.outcome(e) == b.r.outcome(e),
        b.after(e).r.t.conns.len() == b.r.t.conns.len(),
{
    law_alike_stays(a.r, b.r, e);
    assert(alike_conn(a.r.t.conns[e.conn()], b.r.t.conns[e.conn()]));
}

proof fn lemma_no_trace_at_first(d: Delivery, e: Event)
    requires
        d.r.sound(),
        d.r.expects(e),
        put_off(d.r, e),
        e.user_data == token(e.conn() as nat, e.state()),
    ensures
        alike(d.after(e).r, d.r),
        d.after(e).w == d.w,
{
    law_put_off_is_repeated(d.r, e);
}

/// Two downloads that are alike, in the same world, stay so whatever completions follow,
/// and each of these has the same outcome in both.
pub proof fn law_alike_throughout(a: Delivery, b: Delivery, events: Seq<Event>, n: int)
    requires
        alike(a.r, b.r),
        a.w == b.w,
        0 <= n <= events.len(),
        forall|k: int|
            #![trigger events[k]]
            0 <= k < n ==> events[k].conn() < b.r.t.conns.len(),
    ensures
        alike(a.after_all(events, n).r, b.after_all(events, n).r),
        a.after_all(events, n).w == b.after_all(events, n).w,
        forall|k: int|
            #![trigger events[k]]
            0 <= k < n ==> a.after_all(events, k).r.outcome(events[k]) == b.after_all(
                events,
                k,
            ).r.outcome(events[k]),
        b.after_all(events, n).r.t.conns.len() == b.r.t.conns.len(),
    decreases n,
{
    if n > 0 {
        let x = a.after_all(events, n - 1);
        let y = b.after_all(events, n - 1);
        law_alike_throughout(a, b, events, n - 1);
        assert(events[n - 1].conn() < b.r.t.conns.len());
        lemma_alike_delivery(x, y, events[n - 1]);
        assert forall|k: int| #![trigger events[k]] 0 <= k < n implies a.after_all(
            events,
            k,
        ).r.outcome(events[k]) == b.after_all(events, k).r.outcome(events[k]) by {
            if k == n - 1 {
                assert(x.r.outcome(events[k]) == y.r.outcome(events[k]));
            }
        }
    }
}

/// A put-off operation leaves no trace: whatever completions follow, each has the outcome
/// that it has without the put-off one before them, the file and the pipes hold the same
/// bytes, and the downloads are alike in every count.
pub proof fn law_put_off_leaves_no_trace(d: Delivery, e: Event, events: Seq<Event>, n: int)
    requires
        d.r.sound(),
        d.r.expects(e),
        put_off(d.r, e),
        e.user_data == token(e.conn() as nat, e.state()),
        0 <= n <= events.len(),
        forall|k: int|
            #![trigger events[k]]
            0 <= k < n ==> events[k].conn() < d.r.t.conns.len(),
    ensures
        alike(d.after(e).after_all(events, n).r, d.after_all(events, n).r),
        d.after(e).after_all(events, n).w == d.after_all(events, n).w,
        forall|k: int|
            #![trigger events[k]]
            0 <= k < n ==> d.after(e).after_all(events, k).r.outcome(events[k]) == d.after_all(
                events,
                k,
            ).r.outcome(events[k]),
{
    lemma_no_trace_at_first(d, e);
    law_alike_throughout(d.after(e), d, events, n);
}

} // verus!

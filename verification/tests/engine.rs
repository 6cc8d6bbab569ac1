//! Tests of connections and whole downloads.
use ringdl::connection::{
    submit_consumer, submit_producer, ConnectionState, Submission, DISK_WRITE_THRESHOLD,
};
use ringdl::engine::{DownloadEngine, EngineError, Errnos, Step, Transfer};
use ringdl::http::{HttpResponseHeader, ResponseError};
use ringdl::pipe::KernelPipe;
use ringdl::plan::ByteRange;
use ringdl::request::ParsedUrl;
use ringdl::token::{
    decode_user_data, encode_user_data, STATE_READ_HEADER, STATE_SEND_REQ, STATE_SPLICE_IN,
    STATE_SPLICE_OUT, STATE_WRITE_INITIAL,
};

const AGAIN: i32 = 11;
const INTERRUPTED: i32 = 4;
const RESET: i32 = 104;
const WRITER: i32 = 99;

fn errnos() -> Errnos {
    Errnos { again: AGAIN, would_block: AGAIN, interrupted: INTERRUPTED, connection_reset: RESET }
}

fn url() -> ParsedUrl {
    ParsedUrl {
        scheme: "http".to_string(),
        host: "h".to_string(),
        port: 80,
        path: "/f".to_string(),
    }
}

fn connection(id: usize, range: ByteRange) -> ConnectionState {
    let base = 10 * (id as i32 + 1);
    ConnectionState::new(id, base, KernelPipe::new(base + 1, base + 2), &url(), range)
}

fn transfer(connections: usize, total: u64, buf_size: usize) -> Transfer {
    let engine = DownloadEngine::new(128, buf_size, connections, 64);
    let states = (0..connections).map(|id| connection(id, engine.range(total, id))).collect();
    Transfer::new(&engine, WRITER, total, states, errnos())
}

fn complete(t: &mut Transfer, user_data: u64, res: i32, data: &[u8]) -> Step {
    assert!(t.accepts(user_data, res, data));
    t.on_completion(user_data, res, data).unwrap()
}

fn streaming(remaining: u64) -> ConnectionState {
    connection(0, ByteRange { start: 0, end: remaining - 1 })
}

const MIB: usize = 1048576;

#[test]
fn fresh_connection() {
    let c = connection(2, ByteRange { start: 100, end: 199 });
    assert_eq!(c.id, 2);
    assert_eq!(c.file_offset, 100);
    assert_eq!(c.bytes_remaining, 100);
    assert_eq!(c.header_capacity, 8192);
    assert!(c.http_req.contains("Range: bytes=100-199\r\n"));
    assert!(!c.done && !c.network_eof && !c.disk_eof);
}

#[test]
fn producer_asks_for_the_smallest_of_three() {
    let mut c = streaming(1000);
    match submit_producer(&mut c, 16384) {
        Some(Submission::Splice { fd_in, off_in, fd_out, off_out, len, user_data }) => {
            assert_eq!((fd_in, off_in, fd_out, off_out, len), (10, -1, 12, -1, 1000));
            assert_eq!(user_data, encode_user_data(0, STATE_SPLICE_IN));
        }
        _ => panic!("no move into the pipe"),
    }
    assert_eq!(c.inflight_in_bytes, 1000);
    assert!(submit_producer(&mut c, 16384).is_none());

    let mut c = streaming(100 * MIB as u64);
    assert!(matches!(submit_producer(&mut c, 16384), Some(Submission::Splice { len: 16384, .. })));
    let mut c = streaming(100 * MIB as u64);
    c.pipe_bytes_available = 16 * MIB - 5;
    assert!(matches!(submit_producer(&mut c, 16384), Some(Submission::Splice { len: 5, .. })));
}

#[test]
fn producer_rests() {
    let mut full = streaming(100 * MIB as u64);
    full.pipe_bytes_available = 16 * MIB;
    assert!(submit_producer(&mut full, 16384).is_none());
    let mut ended = streaming(10);
    ended.network_eof = true;
    assert!(submit_producer(&mut ended, 16384).is_none());
    assert!(submit_producer(&mut streaming(10), 0).is_none());
}

#[test]
fn consumer_waits_for_the_threshold() {
    assert_eq!(DISK_WRITE_THRESHOLD, MIB);
    let mut c = streaming(100 * MIB as u64);
    c.file_offset = 77;
    c.pipe_bytes_available = MIB - 1;
    assert!(submit_consumer(&mut c, WRITER, 2 * MIB).is_none());
    c.pipe_bytes_available = MIB;
    match submit_consumer(&mut c, WRITER, 2 * MIB) {
        Some(Submission::Splice { fd_in, off_in, fd_out, off_out, len, user_data }) => {
            assert_eq!((fd_in, off_in, fd_out, off_out, len), (11, -1, WRITER, 77, MIB as u32));
            assert_eq!(user_data, encode_user_data(0, STATE_SPLICE_OUT));
        }
        _ => panic!("no move into the file"),
    }
    assert_eq!(c.inflight_out_bytes, MIB);
    assert!(submit_consumer(&mut c, WRITER, 2 * MIB).is_none());
}

#[test]
fn consumer_drains_at_the_end() {
    let mut c = streaming(100);
    c.network_eof = true;
    c.pipe_bytes_available = 3;
    assert!(matches!(submit_consumer(&mut c, WRITER, 16384), Some(Submission::Splice { len: 3, .. })));
    let mut empty = streaming(100);
    empty.network_eof = true;
    assert!(submit_consumer(&mut empty, WRITER, 16384).is_none());
    let mut closed = streaming(100);
    closed.network_eof = true;
    closed.disk_eof = true;
    closed.pipe_bytes_available = 3;
    assert!(submit_consumer(&mut closed, WRITER, 16384).is_none());
}

#[test]
fn consumer_is_capped() {
    let mut c = streaming(100 * MIB as u64);
    c.pipe_bytes_available = 2 * MIB;
    assert!(matches!(submit_consumer(&mut c, WRITER, 16384), Some(Submission::Splice { len: 16384, .. })));
}

#[test]
fn sides_are_served_independently() {
    let mut c = streaming(100 * MIB as u64);
    c.pipe_bytes_available = 2 * MIB;
    c.inflight_out_bytes = MIB;
    assert!(matches!(submit_producer(&mut c, 16384), Some(Submission::Splice { len: 16384, .. })));
    assert!(submit_consumer(&mut c, WRITER, 16384).is_none());
    c.inflight_out_bytes = 0;
    assert!(matches!(
        submit_consumer(&mut c, WRITER, 16384),
        Some(Submission::Splice { len: 16384, .. })
    ));
    assert_eq!((c.inflight_in_bytes, c.inflight_out_bytes), (16384, 16384));
}

#[test]
fn opening_sends_every_request() {
    let t = transfer(3, 100, 16384);
    let subs = t.opening();
    assert_eq!(subs.len(), 3);
    for (i, sub) in subs.iter().enumerate() {
        match sub {
            Submission::Send { fd, data, user_data } => {
                assert_eq!(*fd, 10 * (i as i32 + 1));
                assert_eq!(*user_data, encode_user_data(i, STATE_SEND_REQ));
                assert_eq!(data.as_slice(), t.states[i].http_req.as_bytes());
            }
            _ => panic!("not a request"),
        }
    }
    assert_eq!(t.active_connections, 3);
    assert!(!t.is_finished());
}

#[test]
fn request_sent_reads_the_head() {
    let mut t = transfer(1, 100, 16384);
    let step = complete(&mut t, encode_user_data(0, STATE_SEND_REQ), 0, b"");
    assert_eq!(step.submissions.len(), 1);
    assert!(matches!(step.submissions[0], Submission::ReadHeader { fd: 10, len: 8192, user_data: 2 }));
    assert!(step.progress.is_none());
}

#[test]
fn head_in_pieces() {
    let mut t = transfer(1, 100, 16384);
    let read = encode_user_data(0, STATE_READ_HEADER);
    let step = complete(&mut t, read, 12, b"HTTP/1.1 206");
    assert!(matches!(step.submissions[0], Submission::ReadHeader { len: 8180, .. }));
    let step = complete(&mut t, read, 4, b"\r\n\r\n");
    assert_eq!(t.states[0].initial_payload_len, 0);
    assert!(matches!(step.submissions[0], Submission::Splice { fd_in: 10, len: 100, .. }));
    assert_eq!(step.submissions.len(), 1);
}

#[test]
fn room_for_the_head_doubles() {
    let mut t = transfer(1, 100, 16384);
    let mut start = b"HTTP/1.1 206 OK\r\nA: ".to_vec();
    start.resize(8192, b'a');
    let step = complete(&mut t, encode_user_data(0, STATE_READ_HEADER), 8192, &start);
    assert_eq!(t.states[0].header_capacity, 16384);
    assert!(matches!(step.submissions[0], Submission::ReadHeader { len: 8192, .. }));
}

#[test]
fn payload_with_the_head_is_written() {
    let mut t = transfer(1, 10, 16384);
    let response = b"HTTP/1.1 206 OK\r\n\r\nabcd";
    let step = complete(&mut t, encode_user_data(0, STATE_READ_HEADER), 23, response);
    match &step.submissions[0] {
        Submission::WriteFile { fd, offset, data, user_data } => {
            assert_eq!((*fd, *offset, data.as_slice()), (WRITER, 0, &b"abcd"[..]));
            assert_eq!(*user_data, encode_user_data(0, STATE_WRITE_INITIAL));
        }
        _ => panic!("no write"),
    }
    let step = complete(&mut t, encode_user_data(0, STATE_WRITE_INITIAL), 4, b"");
    assert_eq!(t.states[0].file_offset, 4);
    assert_eq!(t.states[0].bytes_remaining, 6);
    assert_eq!(t.total_downloaded_bytes, 4);
    assert!(step.progress.is_none());
    assert!(matches!(step.submissions[0], Submission::Splice { len: 6, .. }));
}

#[test]
fn payload_with_the_head_may_be_everything() {
    let mut t = transfer(1, 4, 16384);
    complete(&mut t, encode_user_data(0, STATE_READ_HEADER), 23, b"HTTP/1.1 206 OK\r\n\r\nabcd");
    let step = complete(&mut t, encode_user_data(0, STATE_WRITE_INITIAL), 4, b"");
    assert!(step.submissions.is_empty());
    assert!(t.states[0].done && t.states[0].network_eof && t.states[0].disk_eof);
    assert!(t.is_finished());
}

#[test]
fn refused_answer_ends_the_download() {
    let mut t = transfer(1, 100, 16384);
    let read = encode_user_data(0, STATE_READ_HEADER);
    assert!(matches!(
        t.on_completion(read, 19, b"HTTP/1.1 403 No\r\n\r\n"),
        Err(EngineError::Response(ResponseError::Status(403)))
    ));
}

#[test]
fn parsed_heads_are_taken_up() {
    let mut t = transfer(1, 100, 16384);
    t.states[0].receive(b"0123456789");
    let header = HttpResponseHeader { status_code: 206, content_length: None, header_len: 8 };
    let step = t.header_parsed(0, Ok(Some(header))).unwrap();
    assert!(matches!(&step.submissions[0], Submission::WriteFile { data, .. } if data.as_slice() == b"89"));
    let step = t.header_parsed(0, Ok(None)).unwrap();
    assert!(matches!(step.submissions[0], Submission::ReadHeader { len: 8182, .. }));
    assert!(matches!(
        t.header_parsed(0, Err(ResponseError::MissingStatusCode)),
        Err(EngineError::Response(ResponseError::MissingStatusCode))
    ));
}

#[test]
fn moves_are_accounted_for() {
    let mut t = transfer(1, 10, 6);
    let read = encode_user_data(0, STATE_READ_HEADER);
    let step = complete(&mut t, read, 19, b"HTTP/1.1 206 OK\r\n\r\n");
    assert!(matches!(step.submissions[0], Submission::Splice { len: 6, .. }));
    let step = complete(&mut t, encode_user_data(0, STATE_SPLICE_IN), 6, b"");
    assert_eq!(t.states[0].pipe_bytes_available, 6);
    assert_eq!(t.states[0].bytes_remaining, 4);
    assert_eq!(step.submissions.len(), 1);
    let step = complete(&mut t, encode_user_data(0, STATE_SPLICE_IN), 4, b"");
    assert!(t.states[0].network_eof);
    assert!(matches!(step.submissions[0], Submission::Splice { off_out: 0, len: 6, .. }));
    let step = complete(&mut t, encode_user_data(0, STATE_SPLICE_OUT), 5, b"");
    assert_eq!(step.progress, Some((5, 10)));
    assert!(matches!(step.submissions[0], Submission::Splice { off_out: 5, len: 5, .. }));
    let step = complete(&mut t, encode_user_data(0, STATE_SPLICE_OUT), 5, b"");
    assert_eq!(step.progress, Some((10, 10)));
    assert!(step.submissions.is_empty());
    assert!(t.is_finished());
    assert!(t.states[0].done && t.states[0].disk_eof);
}

#[test]
fn running_moves_are_left_alone() {
    let mut t = transfer(1, 10 * MIB as u64, MIB);
    let splice_in = encode_user_data(0, STATE_SPLICE_IN);
    complete(&mut t, encode_user_data(0, STATE_READ_HEADER), 19, b"HTTP/1.1 206 OK\r\n\r\n");
    let step = complete(&mut t, splice_in, MIB as i32, b"");
    assert_eq!(step.submissions.len(), 2);
    assert!(matches!(step.submissions[1], Submission::Splice { off_out: 0, len: 1048576, .. }));
    let step = complete(&mut t, splice_in, 5, b"");
    assert_eq!(step.submissions.len(), 1);
    assert_eq!((t.states[0].inflight_out_bytes, t.states[0].file_offset), (MIB, 0));
    let step = complete(&mut t, encode_user_data(0, STATE_SPLICE_OUT), MIB as i32, b"");
    assert!(step.submissions.is_empty());
    assert_eq!(t.states[0].inflight_in_bytes, MIB);
    assert_eq!(t.states[0].pipe_bytes_available, 5);
}

#[test]
fn put_off_operations_are_repeated() {
    for errno in [AGAIN, INTERRUPTED] {
        let mut t = transfer(2, 100, 16384);
        let send = encode_user_data(1, STATE_SEND_REQ);
        let step = complete(&mut t, send, -errno, b"");
        assert!(matches!(&step.submissions[0], Submission::Send { fd: 20, user_data, .. } if *user_data == send));
        let read = encode_user_data(1, STATE_READ_HEADER);
        let step = complete(&mut t, read, -errno, b"");
        assert!(matches!(&step.submissions[0], Submission::ReadHeader { user_data, .. } if *user_data == read));
        let step = complete(&mut t, encode_user_data(1, STATE_WRITE_INITIAL), -errno, b"");
        assert!(step.submissions.is_empty());
        t.states[1].inflight_in_bytes = 9;
        let step = complete(&mut t, encode_user_data(1, STATE_SPLICE_IN), -errno, b"");
        assert!(matches!(step.submissions[0], Submission::Splice { fd_in: 20, len: 50, .. }));
        t.states[1].pipe_bytes_available = MIB;
        t.states[1].inflight_out_bytes = 9;
        let step = complete(&mut t, encode_user_data(1, STATE_SPLICE_OUT), -errno, b"");
        assert!(matches!(step.submissions[0], Submission::Splice { fd_in: 21, len: 16384, .. }));
        assert_eq!(t.active_connections, 2);
    }
}

#[test]
fn other_errors_end_the_download() {
    let mut t = transfer(2, 100, 16384);
    assert!(matches!(
        t.on_completion(encode_user_data(1, STATE_SPLICE_IN), -5, b""),
        Err(EngineError::Io { conn_id: 1, state: STATE_SPLICE_IN, errno: 5 })
    ));
    assert!(matches!(
        t.on_completion(encode_user_data(0, STATE_READ_HEADER), -RESET, b""),
        Err(EngineError::Io { conn_id: 0, state: STATE_READ_HEADER, errno: RESET })
    ));
}

#[test]
fn reset_after_the_last_byte_is_no_error() {
    let mut t = transfer(2, 100, 16384);
    t.states[1].bytes_remaining = 0;
    let step = complete(&mut t, encode_user_data(1, STATE_SPLICE_IN), -RESET, b"");
    assert!(step.submissions.is_empty());
    assert!(t.states[1].done);
    assert_eq!(t.active_connections, 1);
    complete(&mut t, encode_user_data(1, STATE_SPLICE_IN), -RESET, b"");
    assert_eq!(t.active_connections, 1);
}

#[test]
fn zero_ends_a_connection() {
    let mut t = transfer(2, 100, 16384);
    complete(&mut t, encode_user_data(0, STATE_READ_HEADER), 0, b"");
    assert!(t.states[0].done);
    assert_eq!(t.active_connections, 1);
    complete(&mut t, encode_user_data(0, STATE_SPLICE_OUT), 0, b"");
    assert_eq!(t.active_connections, 1);
    complete(&mut t, encode_user_data(1, 200), 0, b"");
    assert!(t.is_finished());
}

#[test]
fn early_close_drains_the_pipe() {
    let mut t = transfer(1, 100 * MIB as u64, 600);
    let splice_in = encode_user_data(0, STATE_SPLICE_IN);
    let splice_out = encode_user_data(0, STATE_SPLICE_OUT);
    complete(&mut t, encode_user_data(0, STATE_READ_HEADER), 19, b"HTTP/1.1 206 OK\r\n\r\n");
    complete(&mut t, splice_in, 600, b"");
    let step = complete(&mut t, splice_in, 400, b"");
    assert_eq!(step.submissions.len(), 1);

    let step = complete(&mut t, splice_in, 0, b"");
    assert!(t.states[0].done && t.is_finished());
    assert!(!t.states[0].network_eof);
    assert_eq!(step.submissions.len(), 1);
    assert!(matches!(step.submissions[0], Submission::Splice { off_out: 0, len: 600, .. }));
    let step = complete(&mut t, splice_out, 600, b"");
    assert_eq!(step.submissions.len(), 1);
    assert!(matches!(step.submissions[0], Submission::Splice { off_out: 600, len: 400, .. }));
    let step = complete(&mut t, splice_out, 400, b"");
    assert!(step.submissions.is_empty());
    assert_eq!(t.active_connections, 0);
    assert_eq!(t.total_downloaded_bytes, 1000);
    assert_eq!(t.states[0].bytes_remaining, 100 * MIB as u64 - 1000);
}

#[test]
fn early_close_leaves_the_running_move_alone() {
    let mut t = transfer(1, 100 * MIB as u64, 2 * MIB);
    let splice_in = encode_user_data(0, STATE_SPLICE_IN);
    complete(&mut t, encode_user_data(0, STATE_READ_HEADER), 19, b"HTTP/1.1 206 OK\r\n\r\n");
    let step = complete(&mut t, splice_in, MIB as i32, b"");
    assert_eq!(step.submissions.len(), 2);
    let step = complete(&mut t, splice_in, 0, b"");
    assert!(step.submissions.is_empty());
    assert!(t.states[0].done && t.is_finished());
    assert_eq!(t.states[0].inflight_out_bytes, MIB);
    let step = complete(&mut t, encode_user_data(0, STATE_SPLICE_OUT), MIB as i32, b"");
    assert!(step.submissions.is_empty());
    assert_eq!(t.total_downloaded_bytes, MIB as u64);
}

#[test]
fn early_close_with_an_empty_pipe_ends_at_once() {
    let mut t = transfer(1, 10, 600);
    complete(&mut t, encode_user_data(0, STATE_READ_HEADER), 19, b"HTTP/1.1 206 OK\r\n\r\n");
    let step = complete(&mut t, encode_user_data(0, STATE_SPLICE_IN), 0, b"");
    assert!(step.submissions.is_empty());
    assert!(t.is_finished() && t.states[0].done);
}

#[test]
fn put_off_operations_leave_no_trace() {
    let splice_in = encode_user_data(0, STATE_SPLICE_IN);
    let splice_out = encode_user_data(0, STATE_SPLICE_OUT);
    let rest = [(splice_in, 500), (splice_out, 7), (splice_in, 9), (splice_out, 600)];
    let mut with = transfer(1, 4 * MIB as u64, MIB);
    let mut without = transfer(1, 4 * MIB as u64, MIB);
    for t in [&mut with, &mut without] {
        complete(t, encode_user_data(0, STATE_READ_HEADER), 19, b"HTTP/1.1 206 OK\r\n\r\n");
        complete(t, splice_in, MIB as i32, b"");
        complete(t, splice_in, 3, b"");
    }
    let step = complete(&mut with, splice_out, -AGAIN, b"");
    assert_eq!(step.submissions.len(), 1);
    assert!(step.progress.is_none());
    let step = complete(&mut with, splice_in, -INTERRUPTED, b"");
    assert_eq!(step.submissions.len(), 1);
    for (user_data, res) in rest {
        let a = complete(&mut with, user_data, res, b"");
        let b = complete(&mut without, user_data, res, b"");
        assert_eq!(format!("{:?}", a), format!("{:?}", b));
        assert_eq!(with.total_downloaded_bytes, without.total_downloaded_bytes);
        assert_eq!(with.states[0].file_offset, without.states[0].file_offset);
        assert_eq!(with.states[0].bytes_remaining, without.states[0].bytes_remaining);
        assert_eq!(with.states[0].pipe_bytes_available, without.states[0].pipe_bytes_available);
        assert_eq!(with.active_connections, without.active_connections);
    }
}

#[test]
fn requests_and_heads_are_repeated_without_a_buffer_size() {
    let mut t = transfer(1, 10, 0);
    let send = encode_user_data(0, STATE_SEND_REQ);
    let step = complete(&mut t, send, -AGAIN, b"");
    assert!(matches!(step.submissions[..], [Submission::Send { user_data, .. }] if user_data == send));
    let read = encode_user_data(0, STATE_READ_HEADER);
    let step = complete(&mut t, read, -AGAIN, b"");
    assert!(matches!(
        step.submissions[..],
        [Submission::ReadHeader { user_data, len: 8192, .. }] if user_data == read
    ));
}

#[test]
fn unknown_operations_change_nothing() {
    let mut t = transfer(1, 100, 16384);
    let step = complete(&mut t, encode_user_data(0, 200), 5, b"");
    assert!(step.submissions.is_empty());
    assert_eq!(t.active_connections, 1);
    assert_eq!(t.total_downloaded_bytes, 0);
}

#[test]
fn impossible_completions_are_not_accepted() {
    let mut t = transfer(1, 100 * MIB as u64, 16384);
    assert!(!t.accepts(encode_user_data(1, STATE_SEND_REQ), 0, b""));
    assert!(!t.accepts(encode_user_data(0, STATE_SEND_REQ), i32::MIN, b""));
    assert!(!t.accepts(encode_user_data(0, STATE_READ_HEADER), 2, b"a"));
    assert!(!t.accepts(encode_user_data(0, STATE_READ_HEADER), 9000, &[0; 9000]));
    assert!(t.accepts(encode_user_data(0, STATE_READ_HEADER), 8192, &[0; 8192]));
    assert!(!t.accepts(encode_user_data(0, STATE_SPLICE_OUT), 1, b""));
    assert!(t.accepts(encode_user_data(0, STATE_SPLICE_IN), 16 * MIB as i32, b""));
    assert!(!t.accepts(encode_user_data(0, STATE_SPLICE_IN), 16 * MIB as i32 + 1, b""));
    t.states[0].initial_payload_len = 10;
    t.states[0].file_offset = u64::MAX - 9;
    assert!(!t.accepts(encode_user_data(0, STATE_WRITE_INITIAL), 10, b""));
    t.states[0].file_offset = u64::MAX - 10;
    assert!(t.accepts(encode_user_data(0, STATE_WRITE_INITIAL), 10, b""));
    t.total_downloaded_bytes = u64::MAX;
    assert!(!t.accepts(encode_user_data(0, STATE_WRITE_INITIAL), 10, b""));
}

/// A kernel and a server that answer what is asked for, a little at a time.
struct World {
    source: Vec<u8>,
    file: Vec<u8>,
    written: Vec<u32>,
    streams: Vec<Vec<u8>>,
    pipes: Vec<Vec<u8>>,
    seed: u64,
}

impl World {
    fn new(t: &Transfer, total: usize, ranges: &[ByteRange], with_head: usize) -> World {
        let source: Vec<u8> = (0..total).map(|i| (i * 31 % 251) as u8).collect();
        let streams = ranges
            .iter()
            .map(|r| {
                let mut stream = format!(
                    "HTTP/1.1 206 Partial Content\r\nContent-Range: bytes {}-{}/{}\r\nX: {}\r\n\r\n",
                    r.start,
                    r.end,
                    total,
                    "y".repeat(with_head)
                )
                .into_bytes();
                stream.extend_from_slice(&source[r.start as usize..=r.end as usize]);
                stream
            })
            .collect();
        World {
            file: vec![0; total],
            written: vec![0; total],
            streams,
            pipes: vec![Vec::new(); t.states.len()],
            source,
            seed: 12345,
        }
    }

    fn pick(&mut self, n: usize) -> usize {
        self.seed = self.seed.wrapping_mul(6364136223846793005).wrapping_add(1442695040888963407);
        (self.seed >> 33) as usize % n
    }

    fn write(&mut self, offset: usize, data: &[u8]) {
        for (i, b) in data.iter().enumerate() {
            self.file[offset + i] = *b;
            self.written[offset + i] += 1;
        }
    }

    fn perform(&mut self, sub: &Submission, whole_reads: bool) -> (u64, i32, Vec<u8>) {
        match sub {
            Submission::Send { data, user_data, .. } => (*user_data, data.len() as i32, Vec::new()),
            Submission::ReadHeader { len, user_data, .. } => {
                let (id, _) = decode_user_data(*user_data);
                let most = (*len as usize).min(self.streams[id].len());
                let n = if whole_reads { most.min(200) } else { 1 + self.pick(most.min(60)) };
                let data: Vec<u8> = self.streams[id].drain(..n).collect();
                (*user_data, n as i32, data)
            }
            Submission::WriteFile { fd, offset, data, user_data } => {
                assert_eq!(*fd, WRITER);
                self.write(*offset as usize, data);
                (*user_data, data.len() as i32, Vec::new())
            }
            Submission::Splice { fd_out, off_out, len, user_data, .. } => {
                let (id, state) = decode_user_data(*user_data);
                if state == STATE_SPLICE_IN {
                    assert!(self.pipes[id].len() + *len as usize <= 16 * MIB);
                    let most = (*len as usize).min(self.streams[id].len());
                    let n = 1 + self.pick(most);
                    let data: Vec<u8> = self.streams[id].drain(..n).collect();
                    self.pipes[id].extend_from_slice(&data);
                    (*user_data, n as i32, Vec::new())
                } else {
                    assert_eq!(*fd_out, WRITER);
                    let most = (*len as usize).min(self.pipes[id].len());
                    let n = 1 + self.pick(most);
                    let data: Vec<u8> = self.pipes[id].drain(..n).collect();
                    self.write(*off_out as usize, &data);
                    (*user_data, n as i32, Vec::new())
                }
            }
        }
    }
}

fn run(connections: usize, total: usize, buf_size: usize, whole_reads: bool, with_head: usize) {
    run_seeded(connections, total, buf_size, whole_reads, with_head, 12345);
}

/// Runs a whole download and gives back the file and the number of operations that were
/// carried out.
fn run_seeded(
    connections: usize,
    total: usize,
    buf_size: usize,
    whole_reads: bool,
    with_head: usize,
    seed: u64,
) -> (Vec<u8>, usize) {
    let mut t = transfer(connections, total as u64, buf_size);
    let ranges: Vec<ByteRange> = t
        .states
        .iter()
        .map(|c| ByteRange { start: c.file_offset, end: c.file_offset + c.bytes_remaining - 1 })
        .collect();
    let mut world = World::new(&t, total, &ranges, with_head);
    world.seed = seed;
    let work: usize = world.streams.iter().map(|stream| 3 + 2 * stream.len()).sum();
    let mut effective: usize = 0;
    let mut pending = t.opening();
    let mut progress = None;
    while !t.is_finished() {
        assert!(!pending.is_empty());
        let next = world.pick(pending.len());
        let sub = pending.swap_remove(next);
        let put_off = !matches!(sub, Submission::WriteFile { .. }) && world.pick(10) == 0;
        let (user_data, res, data) = if put_off {
            let user_data = match &sub {
                Submission::Send { user_data, .. } => *user_data,
                Submission::ReadHeader { user_data, .. } => *user_data,
                Submission::WriteFile { user_data, .. } => *user_data,
                Submission::Splice { user_data, .. } => *user_data,
            };
            (user_data, -AGAIN, Vec::new())
        } else {
            world.perform(&sub, whole_reads)
        };
        effective += (res >= 0) as usize;
        let step = complete(&mut t, user_data, res, &data);
        progress = step.progress.or(progress);
        pending.extend(step.submissions);
        for c in t.states.iter() {
            assert!(c.pipe_bytes_available + c.inflight_in_bytes <= 16 * MIB);
            let range = ranges[c.id];
            assert!(range.start <= c.file_offset);
            assert_eq!(
                c.file_offset + c.pipe_bytes_available as u64 + c.bytes_remaining,
                range.end + 1
            );
        }
    }
    assert!(pending.is_empty());
    assert_eq!(t.total_downloaded_bytes, total as u64);
    assert_eq!(world.file, world.source);
    assert!(world.written.iter().all(|n| *n == 1));
    if let Some((downloaded, of)) = progress {
        assert!(downloaded <= of);
        assert_eq!(of, total as u64);
    }
    assert!(effective <= work);
    (world.file, effective)
}

#[test]
fn order_and_cut_make_no_difference() {
    let (first, steps) = run_seeded(3, 5000, 100, false, 9000, 1);
    let (second, other_steps) = run_seeded(3, 5000, 100, true, 9000, 2);
    assert_ne!(steps, other_steps);
    assert_eq!(first, second);
}

#[test]
fn small_download_is_complete() {
    run(4, 1000, 64, false, 10);
}

#[test]
fn download_of_a_byte_each_is_complete() {
    run(16, 16, 16384, false, 0);
}

#[test]
fn download_with_payload_beside_the_heads_is_complete() {
    run(3, 1001, 100, true, 20);
}

#[test]
fn download_with_long_heads_is_complete() {
    run(2, 500, 50, true, 20000);
}

#[test]
fn download_beyond_the_threshold_is_complete() {
    run(2, 5 * MIB + 7, 300000, true, 3);
}

#[test]
fn download_on_one_connection_is_complete() {
    run(1, 3 * MIB, MIB, false, 3);
}

//! Tests of the division of a resource.
use ringdl::engine::DownloadEngine;
use ringdl::plan::{share_of, ByteRange};

#[test]
fn shares_of_a_hundred() {
    assert_eq!(share_of(100, 3, 0), ByteRange { start: 0, end: 32 });
    assert_eq!(share_of(100, 3, 1), ByteRange { start: 33, end: 65 });
    assert_eq!(share_of(100, 3, 2), ByteRange { start: 66, end: 99 });
}

#[test]
fn one_connection_takes_everything() {
    assert_eq!(share_of(1, 1, 0), ByteRange { start: 0, end: 0 });
    assert_eq!(share_of(u64::MAX, 1, 0), ByteRange { start: 0, end: u64::MAX - 1 });
}

#[test]
fn a_byte_each() {
    for id in 0..16usize {
        assert_eq!(share_of(16, 16, id), ByteRange { start: id as u64, end: id as u64 });
    }
}

#[test]
fn shares_adjoin_and_add_up() {
    for total in [16u64, 17, 1000, 10737418240, u64::MAX] {
        let mut next = 0u64;
        let mut sum = 0u64;
        for id in 0..16usize {
            let share = share_of(total, 16, id);
            assert_eq!(share.start, next);
            next = share.end + 1;
            sum += share.len();
        }
        assert_eq!(next, total);
        assert_eq!(sum, total);
    }
}

#[test]
fn every_byte_has_one_share() {
    for offset in 0..50u64 {
        let holders = (0..7usize)
            .filter(|id| {
                let share = share_of(50, 7, *id);
                share.start <= offset && offset <= share.end
            })
            .count();
        assert_eq!(holders, 1);
    }
}

#[test]
fn engine_sizes() {
    let engine = DownloadEngine::new(128, 16384, 4, 64);
    assert_eq!(engine.sq_entries, 128);
    assert_eq!(engine.cq_entries, 128);
    assert_eq!(engine.buf_size, 16384);
    assert_eq!(engine.num_connections(), 4);
    let largest = DownloadEngine::new(65535, 1, 0, 0);
    assert_eq!(largest.sq_entries, 65535);
    assert_eq!(largest.cq_entries, 65535);
    assert_eq!(largest.num_connections(), 1);
}

#[test]
fn engine_divides() {
    let engine = DownloadEngine::new(128, 16384, 4, 64);
    assert!(!engine.can_divide(0));
    assert!(!engine.can_divide(3));
    assert!(engine.can_divide(4));
    assert_eq!(engine.range(10, 3), ByteRange { start: 6, end: 9 });
    let single = DownloadEngine::new(128, 16384, 0, 64);
    assert!(!single.can_divide(0));
    assert_eq!(single.range(10, 0), ByteRange { start: 0, end: 9 });
}

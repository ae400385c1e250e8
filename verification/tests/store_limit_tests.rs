use fsyncd::error::{Error, FromError};
use fsyncd::filestore::{recover_call, FileStore};
use fsyncd::iolimit::{Admit, LimitWriter, Quota};
use fsyncd::mdata::{MDataEntry, MODE, SIZE};
use fsyncd::vfs::{FileSecurity, VFSCall};
use std::time::Instant;

#[test]
fn quota_covers_small_writes() {
    let lw = LimitWriter::new(Vec::<u8>::new(), 1000);
    assert_eq!(lw.quota(500), Quota::Write(500));
    assert_eq!(lw.quota(1000), Quota::Write(1000));
    assert_eq!(lw.quota(1500), Quota::Clock);
    let unlimited = LimitWriter::new(Vec::<u8>::new(), 0);
    assert_eq!(unlimited.quota(1 << 30), Quota::Write(1 << 30));
}

#[test]
fn partial_writes_take_what_is_left() {
    let mut lw = LimitWriter::new(Vec::<u8>::new(), 1000);
    lw.set_partial_writes(true);
    assert_eq!(lw.quota(1500), Quota::Write(1000));
    lw.wrote(1000);
    assert_eq!(lw.quota(1500), Quota::Clock);
}

#[test]
fn the_clock_refills_the_quota() {
    let mut lw = LimitWriter::new(Vec::<u8>::new(), 1000);
    // one byte per millisecond: 100 ms give 100 bytes, 400 are missing
    assert_eq!(lw.refill(1500, 100, Instant::now()), Admit::Sleep(400));
    let mut lw = LimitWriter::new(Vec::<u8>::new(), 1000);
    lw.set_blocking(false);
    assert_eq!(lw.refill(1500, 100, Instant::now()), Admit::WouldBlock);
    let mut lw = LimitWriter::new(Vec::<u8>::new(), 1000);
    assert_eq!(lw.refill(1500, 600, Instant::now()), Admit::Write);
    lw.wrote(1500);
    assert_eq!(lw.quota(1), Quota::Write(1));
    lw.wrote(100);
    assert_eq!(lw.quota(1), Quota::Clock);
}

#[test]
fn writes_reach_the_inner_writer() {
    let mut lw = LimitWriter::new(Vec::<u8>::new(), 10);
    lw.get_mut().extend_from_slice(b"abc");
    assert_eq!(lw.get_mut().len(), 3);
}

#[test]
fn the_store_evicts_the_oldest_file_when_full() {
    let mut fs = FileStore::new(&b"/root".to_vec(), 40, &vec![10, 20], Some(3), Some(7));
    assert_eq!(fs.eviction(5), None);
    assert_eq!(fs.eviction(20), Some(3));
    assert_eq!(fs.evicted(10), 10);
    assert_eq!(fs.eviction(20), None);
    assert_eq!(fs.take_token(20), 7);
    assert_eq!(fs.eviction(1), Some(4));
    assert_eq!(fs.stored_file(7), b"/root/.fsyncer-deleted/7".to_vec());
}

#[test]
fn an_empty_store_starts_at_token_zero() {
    let mut fs = FileStore::new(&b"/r".to_vec(), 100, &vec![], None, None);
    assert_eq!(fs.take_token(1), 0);
    assert_eq!(fs.take_token(1), 1);
}

#[test]
fn a_kept_file_comes_back_as_a_link() {
    match recover_call(12, &b"/a/b".to_vec(), 5, 6) {
        VFSCall::link { from, to, security: FileSecurity::Unix { uid, gid } } => {
            assert_eq!(from, b"/.fsyncer-deleted/12".to_vec());
            assert_eq!(to, b"/a/b".to_vec());
            assert_eq!((uid, gid), (5, 6));
        }
        other => panic!("unexpected {:?}", other),
    }
}

#[test]
fn metadata_entries_name_what_changed() {
    match MDataEntry::from_call(&VFSCall::chmod { path: b"/x".to_vec(), mode: 1 }) {
        MDataEntry::Stat { path, fields } => {
            assert_eq!(path, b"/x".to_vec());
            assert_eq!(fields.bits, MODE);
        }
        other => panic!("unexpected {:?}", other),
    }
    match MDataEntry::from_call(&VFSCall::write { path: b"/x".to_vec(), offset: 8, buf: vec![1, 2, 3] }) {
        MDataEntry::Write { offset, len, .. } => assert_eq!((offset, len), (8, 3)),
        other => panic!("unexpected {:?}", other),
    }
    match MDataEntry::from_call(&VFSCall::fallocate { path: b"/x".to_vec(), mode: 0, offset: 0, length: 4 }) {
        MDataEntry::Stat { fields, .. } => assert_eq!(fields.bits, SIZE),
        other => panic!("unexpected {:?}", other),
    }
    match MDataEntry::from_call(&VFSCall::rename { from: b"/a".to_vec(), to: b"/b".to_vec(), flags: 0 }) {
        MDataEntry::Rename(a, b) => assert_eq!((a, b), (b"/a".to_vec(), b"/b".to_vec())),
        other => panic!("unexpected {:?}", other),
    }
}

#[test]
fn errors_keep_their_trail() {
    let e: Error<&str> = Error::from_error("boom");
    assert!(e.trace.is_empty());
    let e = e.traced("a.rs", 3).traced("b.rs", 9);
    assert_eq!(e.trace, vec![("a.rs", 3), ("b.rs", 9)]);
    let same: Error<&str> = Error::from_error(e);
    assert_eq!(same.trace.len(), 2);
    assert_eq!(*same, "boom");
}

#[test]
fn waking_records_the_time() {
    let mut lw = LimitWriter::new(Vec::<u8>::new(), 1000);
    let t = Instant::now() + std::time::Duration::from_millis(250);
    lw.woke(t);
    assert_eq!(lw.last_updated(), t);
    assert_eq!(lw.bytes_left(), 1000);
}

#[test]
fn a_huge_rate_refills_without_overflow() {
    let mut lw = LimitWriter::new(Vec::<u8>::new(), usize::MAX);
    lw.wrote(usize::MAX);
    assert_eq!(lw.bytes_left(), 0);
    assert!(lw.check_clock(10).is_some());
}

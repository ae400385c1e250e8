use fsyncd::freelist::{Block, FreeList};
use fsyncd::snapshot::{
    ApplyStep, DataOp, File, FileSize, FileType, Header, Snapshot, SnapshotError, SnapshotType,
};
use fsyncd::vfs::{FileSecurity, Timespec, VFSCall};

fn p(s: &str) -> Vec<u8> {
    s.as_bytes().to_vec()
}

fn unix(uid: u32, gid: u32) -> FileSecurity {
    FileSecurity::Unix { uid, gid }
}

#[test]
fn allocation_is_first_fit_then_from_the_end() {
    let mut f = FreeList::new(100);
    let a = f.allocate(10);
    let b = f.allocate(10);
    assert_eq!(a, Block { location: 100, size: 10 });
    assert_eq!(b, Block { location: 110, size: 10 });
    assert_eq!(f.end, 120);
    f.deallocate(a);
    assert_eq!(f.holes, vec![(100, 10)]);
    let c = f.allocate(4);
    assert_eq!(c, Block { location: 100, size: 4 });
    assert_eq!(f.holes, vec![(104, 6)]);
    let d = f.allocate(20);
    assert_eq!(d, Block { location: 120, size: 20 });
    assert_eq!(f.end, 140);
}

#[test]
fn freeing_merges_with_neighbours_and_the_end() {
    let mut f = FreeList::new(0);
    let a = f.allocate(10);
    let b = f.allocate(10);
    let c = f.allocate(10);
    let d = f.allocate(10);
    f.deallocate(a);
    f.deallocate(c);
    assert_eq!(f.holes, vec![(0, 10), (20, 10)]);
    // b joins the hole before it and the one after it
    f.deallocate(b);
    assert_eq!(f.holes, vec![(0, 30)]);
    // d reaches the end, and the hole before it joins the end too
    f.deallocate(d);
    assert!(f.holes.is_empty());
    assert_eq!(f.end, 0);
}

#[test]
fn freeing_a_block_in_the_unbounded_region_changes_nothing() {
    let mut f = FreeList::new(50);
    f.deallocate(Block { location: 60, size: 5 });
    assert!(f.holes.is_empty());
    assert_eq!(f.end, 50);
}

fn create(path: &str) -> VFSCall {
    VFSCall::create { path: p(path), flags: 2, security: unix(1, 2), mode: 0o644 }
}

fn write(path: &str, offset: i64, buf: &[u8]) -> VFSCall {
    VFSCall::write { path: p(path), offset, buf: buf.to_vec() }
}

#[test]
fn new_snapshot_is_empty() {
    let s = Snapshot::new(12);
    assert_eq!(s.header(), Header { ty: SnapshotType::Forward, ft_offset: 0 });
    assert!(s.files().is_empty());
    assert_eq!(s.data_end(), 12);
}

#[test]
fn a_write_is_stored_in_a_new_block() {
    let mut s = Snapshot::new(12);
    assert!(s.merge_call(&create("/a")).is_empty());
    let ops = s.merge_call(&write("/a", 0, b"hello"));
    match &ops[..] {
        [DataOp::Write { location, data }] => {
            assert_eq!(*location, 12);
            assert_eq!(data, b"hello");
        }
        other => panic!("unexpected {:?}", other),
    }
    assert_eq!(s.data_end(), 17);
    let f = &s.files()[0].1;
    assert_eq!(f.data.as_ref().unwrap(), &vec![(0u64, Block { location: 12, size: 5 })]);
}

#[test]
fn a_write_inside_a_block_goes_in_place() {
    let mut s = Snapshot::new(0);
    s.merge_call(&create("/a"));
    s.merge_call(&write("/a", 0, b"0123456789"));
    let ops = s.merge_call(&write("/a", 3, b"abc"));
    match &ops[..] {
        [DataOp::Write { location, data }] => {
            assert_eq!(*location, 3);
            assert_eq!(data, b"abc");
        }
        other => panic!("unexpected {:?}", other),
    }
    assert_eq!(s.data_end(), 10);
}

#[test]
fn a_write_running_past_its_block_moves_to_a_new_block() {
    let mut s = Snapshot::new(0);
    s.merge_call(&create("/a"));
    s.merge_call(&write("/a", 0, b"0123456789"));
    let ops = s.merge_call(&write("/a", 8, b"XYZ"));
    match &ops[..] {
        [DataOp::Move { from, to, size }, DataOp::Write { location, data }] => {
            assert_eq!((*from, *to, *size), (0, 10, 8));
            assert_eq!(*location, 18);
            assert_eq!(data, b"XYZ");
        }
        other => panic!("unexpected {:?}", other),
    }
    let f = &s.files()[0].1;
    assert_eq!(f.data.as_ref().unwrap(), &vec![(0u64, Block { location: 10, size: 11 })]);
}

#[test]
fn a_write_over_two_blocks_keeps_their_outer_bytes() {
    let mut s = Snapshot::new(0);
    let mut file = Vec::new();
    s.merge_call(&create("/f"));
    run_ops(&mut file, &s.merge_call(&write("/f", 0, &[1u8; 10])));
    run_ops(&mut file, &s.merge_call(&write("/f", 20, &[2u8; 10])));
    run_ops(&mut file, &s.merge_call(&write("/f", 5, &[3u8; 20])));
    let mut expected = vec![1u8; 5];
    expected.extend_from_slice(&[3u8; 20]);
    expected.extend_from_slice(&[2u8; 5]);
    for (x, byte) in expected.iter().enumerate() {
        assert_eq!(read_at(&s, &file, x as u64), Some(*byte));
    }
    assert_eq!(s.files()[0].1.data.as_ref().unwrap().len(), 1);
}

#[test]
fn an_overlapping_write_is_defragmented() {
    let mut s = Snapshot::new(0);
    s.merge_call(&create("/a"));
    s.merge_call(&write("/a", 2, b"0123456789"));
    let ops = s.merge_call(&write("/a", 0, b"ABCD"));
    match &ops[..] {
        [DataOp::Write { location, data }, DataOp::Move { from, to, size }] => {
            assert_eq!(*location, 10);
            assert_eq!(data, b"ABCD");
            assert_eq!((*from, *to, *size), (2, 14, 8));
        }
        other => panic!("unexpected {:?}", other),
    }
    let f = &s.files()[0].1;
    assert_eq!(f.data.as_ref().unwrap(), &vec![(0u64, Block { location: 10, size: 12 })]);
    assert_eq!(s.data_end(), 22);
}

#[test]
fn truncation_frees_data_past_the_size() {
    let mut s = Snapshot::new(0);
    s.merge_call(&create("/a"));
    s.merge_call(&write("/a", 0, b"0123456789"));
    s.merge_call(&VFSCall::truncate { path: p("/a"), size: 4 });
    let f = &s.files()[0].1;
    assert_eq!(f.size, FileSize::Exactly(4));
    assert_eq!(f.data.as_ref().unwrap(), &vec![(0u64, Block { location: 0, size: 4 })]);
    assert_eq!(s.data_end(), 4);
}

#[test]
fn unlink_drops_the_entry_and_frees_its_data() {
    let mut s = Snapshot::new(0);
    s.merge_call(&create("/a"));
    s.merge_call(&write("/a", 0, b"data"));
    s.merge_call(&VFSCall::unlink { path: p("/a") });
    assert!(s.files().is_empty());
    assert_eq!(s.data_end(), 0);
}

#[test]
fn rename_of_an_unknown_path_records_a_move() {
    let mut s = Snapshot::new(0);
    s.merge_call(&VFSCall::rename { from: p("/x"), to: p("/y"), flags: 0 });
    let (path, f) = &s.files()[0];
    assert_eq!(path, &p("/y"));
    match &f.ty {
        FileType::Moved(from) => assert_eq!(from, &p("/x")),
        other => panic!("unexpected {:?}", other),
    }
}

#[test]
fn attributes_of_an_existing_file_are_recorded_as_opened() {
    let mut s = Snapshot::new(0);
    s.merge_call(&VFSCall::chmod { path: p("/f"), mode: 0o600 });
    s.merge_call(&VFSCall::fallocate { path: p("/f"), mode: 0, offset: 10, length: 20 });
    s.merge_call(&VFSCall::fallocate { path: p("/f"), mode: 0, offset: 0, length: 5 });
    let f = &s.files()[0].1;
    assert!(matches!(f.ty, FileType::Opened));
    assert_eq!(f.mode, Some(0o600));
    assert_eq!(f.size, FileSize::MoreThan(30));
}

#[test]
fn truncating_writes_and_duplicate_nodes_are_not_merged() {
    let mut s = Snapshot::new(0);
    let tw = VFSCall::truncating_write { path: p("/a"), offset: 0, buf: vec![1], length: 1 };
    assert!(!s.can_merge(&tw));
    let calls = vec![
        VFSCall::mkdir { path: p("/d"), security: unix(0, 0), mode: 0o755 },
        VFSCall::mkdir { path: p("/d"), security: unix(0, 0), mode: 0o755 },
    ];
    let mut ops = Vec::new();
    assert_eq!(s.merge_from(&calls, &mut ops), Err(1));
    assert_eq!(s.files().len(), 1);
}

#[test]
fn merging_a_run_collects_the_writes() {
    let mut s = Snapshot::new(0);
    let calls = vec![create("/a"), write("/a", 0, b"ab"), write("/a", 4, b"cd")];
    let mut ops = Vec::new();
    assert_eq!(s.merge_from(&calls, &mut ops), Ok(()));
    assert_eq!(ops.len(), 2);
    assert_eq!(s.data_end(), 4);
}

#[test]
fn applying_gives_the_operations_back() {
    let mut s = Snapshot::new(0);
    s.merge_call(&VFSCall::mkdir { path: p("/d"), security: unix(3, 4), mode: 0o755 });
    s.merge_call(&create("/d/f"));
    s.merge_call(&write("/d/f", 2, b"xy"));
    s.merge_call(&VFSCall::utimens {
        path: p("/d/f"),
        timespec: [Timespec { high: 1, low: 2 }, Timespec { high: 3, low: 4 }, Timespec { high: 5, low: 6 }],
    });
    let mut it = s.apply();
    let mut steps = Vec::new();
    while let Some(step) = it.next() {
        steps.push(step);
    }
    assert_eq!(steps.len(), 4);
    match &steps[0] {
        ApplyStep::Call(VFSCall::mkdir { path, mode, .. }) => {
            assert_eq!(path, &p("/d"));
            assert_eq!(*mode, 0o755);
        }
        other => panic!("unexpected {:?}", other),
    }
    assert!(matches!(&steps[1], ApplyStep::Call(VFSCall::create { .. })));
    match &steps[2] {
        ApplyStep::Data { path, offset, location, size } => {
            assert_eq!(path, &p("/d/f"));
            assert_eq!((*offset, *location, *size), (2, 0, 2));
        }
        other => panic!("unexpected {:?}", other),
    }
    assert!(matches!(&steps[3], ApplyStep::Call(VFSCall::utimens { .. })));
}

#[test]
fn an_opened_file_gives_an_attribute_before_its_data() {
    let mut s = Snapshot::new(0);
    s.merge_call(&VFSCall::chmod { path: p("/f"), mode: 0o600 });
    s.merge_call(&write("/f", 0, b"z"));
    s.merge_call(&VFSCall::truncate { path: p("/f"), size: 1 });
    let mut it = s.apply();
    let mut steps = Vec::new();
    while let Some(step) = it.next() {
        steps.push(step);
    }
    assert_eq!(steps.len(), 3);
    assert!(matches!(&steps[0], ApplyStep::Call(VFSCall::chmod { mode: 0o600, .. })));
    assert!(matches!(&steps[1], ApplyStep::Data { .. }));
    assert!(matches!(&steps[2], ApplyStep::Call(VFSCall::truncate { size: 1, .. })));
}

#[test]
fn compaction_moves_late_blocks_into_holes() {
    let mut s = Snapshot::new(0);
    s.merge_call(&create("/a"));
    s.merge_call(&create("/b"));
    s.merge_call(&write("/a", 0, b"aaaa"));
    s.merge_call(&write("/b", 0, b"bb"));
    s.merge_call(&VFSCall::unlink { path: p("/a") });
    assert_eq!(s.data_end(), 6);
    let ops = s.finalize();
    match &ops[..] {
        [DataOp::Move { from, to, size }] => assert_eq!((*from, *to, *size), (4, 0, 2)),
        other => panic!("unexpected {:?}", other),
    }
    assert_eq!(s.data_end(), 2);
    assert_eq!(s.header().ft_offset, 2);
    let f = &s.files()[0].1;
    assert_eq!(f.data.as_ref().unwrap(), &vec![(0u64, Block { location: 0, size: 2 })]);
}

#[test]
fn a_table_with_a_repeated_path_is_refused() {
    let entry = |_: ()| File {
        uid: None,
        gid: None,
        mode: None,
        size: FileSize::Unknown,
        xattrs: None,
        time: None,
        ty: FileType::Opened,
        data: None,
    };
    let table = vec![(p("/a"), entry(())), (p("/a"), entry(()))];
    let r = Snapshot::open(Header { ty: SnapshotType::Forward, ft_offset: 40 }, table);
    assert!(matches!(r, Err(SnapshotError::Malformed)));
    let table = vec![(p("/a"), entry(()))];
    let s = Snapshot::open(Header { ty: SnapshotType::Forward, ft_offset: 40 }, table).unwrap();
    assert_eq!(s.data_end(), 40);
}

#[test]
fn unsorted_data_is_refused() {
    let mut f = File {
        uid: None,
        gid: None,
        mode: None,
        size: FileSize::Unknown,
        xattrs: None,
        time: None,
        ty: FileType::Opened,
        data: None,
    };
    f.data = Some(vec![(5, Block { location: 0, size: 1 }), (2, Block { location: 1, size: 1 })]);
    let r = Snapshot::open(Header { ty: SnapshotType::Forward, ft_offset: 2 }, vec![(p("/a"), f)]);
    assert!(r.is_err());
}

#[test]
fn overlapping_data_is_refused() {
    let f = File {
        uid: None,
        gid: None,
        mode: None,
        size: FileSize::Unknown,
        xattrs: None,
        time: None,
        ty: FileType::Opened,
        data: Some(vec![(0, Block { location: 0, size: 5 }), (3, Block { location: 5, size: 2 })]),
    };
    let r = Snapshot::open(Header { ty: SnapshotType::Forward, ft_offset: 7 }, vec![(p("/a"), f)]);
    assert!(matches!(r, Err(SnapshotError::Malformed)));
}

fn run_ops(file: &mut Vec<u8>, ops: &[DataOp]) {
    for op in ops {
        match op {
            DataOp::Write { location, data } => {
                let end = *location as usize + data.len();
                if file.len() < end {
                    file.resize(end, 0);
                }
                file[*location as usize..end].copy_from_slice(data);
            }
            DataOp::Move { from, to, size } => {
                let moved = file[*from as usize..(*from + *size) as usize].to_vec();
                let end = (*to + *size) as usize;
                if file.len() < end {
                    file.resize(end, 0);
                }
                file[*to as usize..end].copy_from_slice(&moved);
            }
        }
    }
}

fn read_at(s: &Snapshot, file: &[u8], x: u64) -> Option<u8> {
    let d = s.files()[0].1.data.as_ref().unwrap();
    d.iter()
        .find(|(k, b)| *k <= x && x < *k + b.size)
        .map(|(k, b)| file[(b.location + (x - *k)) as usize])
}

#[test]
fn written_bytes_read_back() {
    let mut s = Snapshot::new(0);
    let mut file = Vec::new();
    s.merge_call(&create("/a"));
    let writes: [(i64, &[u8]); 4] =
        [(2, b"0123456789"), (0, b"ABCD"), (20, b"xyz"), (5, b"pqrst")];
    for (off, buf) in writes.iter() {
        let ops = s.merge_call(&write("/a", *off, buf));
        run_ops(&mut file, &ops);
        for (i, byte) in buf.iter().enumerate() {
            assert_eq!(read_at(&s, &file, *off as u64 + i as u64), Some(*byte));
        }
    }
    assert_eq!(read_at(&s, &file, 16), None);
}

#[test]
fn truncated_data_reads_below_the_size_only() {
    let mut s = Snapshot::new(0);
    let mut file = Vec::new();
    s.merge_call(&create("/a"));
    run_ops(&mut file, &s.merge_call(&write("/a", 0, b"abcdef")));
    run_ops(&mut file, &s.merge_call(&write("/a", 10, b"ghij")));
    let ops = s.merge_call(&VFSCall::truncate { path: p("/a"), size: 12 });
    assert!(ops.is_empty());
    for (x, byte) in [(0u64, b'a'), (5, b'f'), (10, b'g'), (11, b'h')] {
        assert_eq!(read_at(&s, &file, x), Some(byte));
    }
    assert_eq!(read_at(&s, &file, 12), None);
    assert_eq!(read_at(&s, &file, 13), None);
    assert_eq!(read_at(&s, &file, 7), None);
}

#[test]
fn a_path_created_and_removed_in_one_merge_leaves_the_table_as_it_was() {
    let mut s = Snapshot::new(0);
    s.merge_call(&create("/b"));
    s.merge_call(&write("/b", 0, b"keep"));
    let before = format!("{:?}", s.files());
    let end = s.data_end();
    let calls = vec![
        create("/a"),
        VFSCall::chmod { path: p("/a"), mode: 0o600 },
        VFSCall::utimens { path: p("/a"), timespec: [Timespec { high: 1, low: 2 }; 3] },
        VFSCall::unlink { path: p("/a") },
    ];
    let mut ops = Vec::new();
    assert_eq!(s.merge_from(&calls, &mut ops), Ok(()));
    assert_eq!(format!("{:?}", s.files()), before);
    assert_eq!(s.data_end(), end);
    assert!(ops.is_empty());
}

#[test]
fn a_path_written_truncated_and_removed_gives_its_space_back_coalesced() {
    let mut s = Snapshot::new(0);
    s.merge_call(&create("/b"));
    s.merge_call(&write("/b", 0, b"0123456789"));
    s.merge_call(&create("/c"));
    s.merge_call(&write("/c", 0, b"abcde"));
    s.merge_call(&VFSCall::unlink { path: p("/b") });
    assert_eq!(s.data_end(), 15);
    let calls = vec![
        create("/a"),
        write("/a", 0, b"xy"),
        write("/a", 1, b"ZZZZ"),
        VFSCall::truncate { path: p("/a"), size: 2 },
        VFSCall::unlink { path: p("/a") },
    ];
    let mut ops = Vec::new();
    assert_eq!(s.merge_from(&calls, &mut ops), Ok(()));
    assert_eq!(s.data_end(), 15);
    // The ten bytes /b had are one hole again: ten new bytes fit there.
    s.merge_call(&create("/d"));
    s.merge_call(&write("/d", 0, b"9876543210"));
    let (_, d) = s.files().iter().find(|(k, _)| k == &p("/d")).unwrap();
    assert_eq!(d.data.as_ref().unwrap(), &vec![(0u64, Block { location: 0, size: 10 })]);
    assert_eq!(s.data_end(), 15);
}

use fsyncd::vfs::{after_truncate, after_write, TruncatingWriteNext};
use fsyncd::bilog::{
    bilog_dir, bilog_symlink, bilog_chmod, bilog_chown, bilog_truncate, bilog_write, bilog_xattr, classify_unlink, filestore_path,
    u64_decimal, xor_buf, xor_largest_buf, BilogEntry, BilogError, PriorState, UnlinkKind, Xor,
};
use fsyncd::vfs::{write_call, FileSecurity, Timespec, VFSCall};

fn p(s: &str) -> Vec<u8> {
    s.as_bytes().to_vec()
}

#[test]
fn a_mode_change_replays_both_ways() {
    let call = VFSCall::chmod { path: p("/f"), mode: 0o600 };
    let before = PriorState::Chmod(bilog_chmod::<Xor>::old_state(p("/f"), 0o644));
    let entry = BilogEntry::try_from(&call, &before);
    match entry.apply(&PriorState::Chmod(bilog_chmod::<Xor>::old_state(p("/f"), 0o644))) {
        Ok(VFSCall::chmod { path, mode }) => {
            assert_eq!(path, p("/f"));
            assert_eq!(mode, 0o600);
        }
        other => panic!("unexpected {:?}", other),
    }
    match entry.apply(&PriorState::Chmod(bilog_chmod::<Xor>::old_state(p("/f"), 0o600))) {
        Ok(VFSCall::chmod { mode, .. }) => assert_eq!(mode, 0o644),
        other => panic!("unexpected {:?}", other),
    }
}

#[test]
fn a_mode_change_from_a_third_mode_combines_all_three() {
    // the checksum of a fixed-size field is affine in its bits, so a third
    // mode passes the check and the modes combine by exclusive or
    let call = VFSCall::chmod { path: p("/f"), mode: 0o600 };
    let before = PriorState::Chmod(bilog_chmod::<Xor>::old_state(p("/f"), 0o644));
    let entry = BilogEntry::try_from(&call, &before);
    match entry.apply(&PriorState::Chmod(bilog_chmod::<Xor>::old_state(p("/f"), 0o777))) {
        Ok(VFSCall::chmod { mode, .. }) => assert_eq!(mode, 0o600 ^ 0o644 ^ 0o777),
        other => panic!("unexpected {:?}", other),
    }
}

#[test]
fn an_attribute_change_from_a_value_of_another_length_is_refused() {
    let call = VFSCall::setxattr { path: p("/f"), name: p("user.a"), value: p("abcd"), flags: 0 };
    let before = PriorState::Xattr(bilog_xattr::<Xor>::old_state(p("/f"), p("user.a"), Some(p("wxyz"))));
    let entry = BilogEntry::try_from(&call, &before);
    let r = entry.apply(&PriorState::Xattr(bilog_xattr::<Xor>::old_state(
        p("/f"),
        p("user.a"),
        Some(p("12345678")),
    )));
    assert!(matches!(r, Err(BilogError::ChecksumMismatch)));
    match entry.apply(&PriorState::Xattr(bilog_xattr::<Xor>::old_state(p("/f"), p("user.a"), Some(p("wxyz"))))) {
        Ok(VFSCall::setxattr { value, .. }) => assert_eq!(value, p("abcd")),
        other => panic!("unexpected {:?}", other),
    }
}

#[test]
fn an_owner_change_replays_both_ways() {
    let call = VFSCall::security { path: p("/f"), security: FileSecurity::Unix { uid: 7, gid: 8 } };
    let before = PriorState::Chown(bilog_chown::<Xor>::old_state(p("/f"), 1, 2));
    let entry = BilogEntry::try_from(&call, &before);
    match entry.apply(&PriorState::Chown(bilog_chown::<Xor>::old_state(p("/f"), 7, 8))) {
        Ok(VFSCall::security { security: FileSecurity::Unix { uid, gid }, .. }) => {
            assert_eq!((uid, gid), (1, 2))
        }
        other => panic!("unexpected {:?}", other),
    }
}

#[test]
fn checksums_are_crc32_of_the_little_endian_fields() {
    let c = bilog_chmod::<Xor>::old_state(p("/f"), 0o644);
    assert_eq!(c.crc32(), crc::crc32::checksum_ieee(&0o644u32.to_le_bytes()));
    assert_eq!(c.checksum, c.crc32());
    assert_ne!(c.crc32(), 0o644);
    let o = bilog_chown::<Xor>::old_state(p("/f"), 1, 2);
    let mut b = 1u32.to_le_bytes().to_vec();
    b.extend_from_slice(&2u32.to_le_bytes());
    assert_eq!(o.crc32(), crc::crc32::checksum_ieee(&b));
}

#[test]
fn xor_of_buffers() {
    let mut a = vec![0xff, 0x0f, 0x01];
    xor_buf(&mut a, &[0x0f, 0x0f]);
    assert_eq!(a, vec![0xf0, 0x00, 0x01]);
    assert_eq!(xor_largest_buf(vec![1, 2], vec![3, 3, 3]), vec![2, 1, 3]);
    assert_eq!(xor_largest_buf(vec![1, 2, 4], vec![3]), vec![2, 2, 4]);
}

#[test]
fn removals_are_classified_by_type() {
    assert_eq!(classify_unlink(0o120777, 1, 5), UnlinkKind::Symlink);
    assert_eq!(classify_unlink(0o100644, 2, 5), UnlinkKind::Link);
    assert_eq!(classify_unlink(0o100644, 1, 0), UnlinkKind::EmptyFile);
    assert_eq!(classify_unlink(0o100644, 1, 9), UnlinkKind::StoredFile);
    assert_eq!(classify_unlink(0o020644, 1, 0), UnlinkKind::Node);
    assert_eq!(classify_unlink(0o040755, 2, 0), UnlinkKind::Unknown);
}

#[test]
fn stored_files_are_named_by_token() {
    assert_eq!(u64_decimal(0), b"0".to_vec());
    assert_eq!(u64_decimal(1203), b"1203".to_vec());
    assert_eq!(filestore_path(42), b"/.fsyncer-deleted/42".to_vec());
}

#[test]
fn size_and_overlap_formulas() {
    assert_eq!(bilog_truncate::<Xor>::saved_range(25, 10), Some((10, 15)));
    assert_eq!(bilog_truncate::<Xor>::saved_range(10, 25), None);
    assert_eq!(bilog_truncate::<Xor>::saved_range(10, -1), None);
    assert_eq!(bilog_write::<Xor>::overlap(4, 10, 8), Some(4));
    assert_eq!(bilog_write::<Xor>::overlap(4, 2, 8), Some(2));
    assert_eq!(bilog_write::<Xor>::overlap(8, 2, 8), None);
}

#[test]
fn affected_paths_of_calls_and_entries() {
    let r = VFSCall::rename { from: p("/a"), to: p("/b"), flags: 0 };
    assert_eq!(r.affected_paths(), vec![p("/a"), p("/b")]);
    let c = VFSCall::chmod { path: p("/c"), mode: 1 };
    assert_eq!(c.affected_paths(), vec![p("/c")]);
    let before = PriorState::Chmod(bilog_chmod::<Xor>::old_state(p("/c"), 0));
    assert_eq!(BilogEntry::try_from(&c, &before).affected_paths(), vec![p("/c")]);
}

#[test]
fn windows_descriptors_are_edited_in_place() {
    let mut s = FileSecurity::Windows { str_desc: String::from("O:BA"), info: Some(3) };
    s.mut_sddl().push_str("G:SY");
    match s {
        FileSecurity::Windows { str_desc, info } => {
            assert_eq!(str_desc, "O:BAG:SY");
            assert_eq!(info, Some(3));
        }
        other => panic!("unexpected {:?}", other),
    }
}

#[test]
fn times_combine_by_exclusive_or() {
    let a = Timespec { high: 0b1100, low: 5 };
    let b = Timespec { high: 0b1010, low: 5 };
    assert_eq!(a.bitxor(b), Timespec { high: 0b0110, low: 0 });
}

#[test]
fn a_removed_directory_replays_both_ways() {
    let call = VFSCall::rmdir { path: p("/d") };
    let before = PriorState::Dir(bilog_dir::<Xor>::old_state(p("/d"), Some((0o755, 10, 20))));
    let entry = BilogEntry::try_from(&call, &before);
    match entry.apply(&PriorState::Dir(bilog_dir::<Xor>::old_state(p("/d"), None))) {
        Ok(VFSCall::mkdir { path, mode, security: FileSecurity::Unix { uid, gid } }) => {
            assert_eq!((path, mode, uid, gid), (p("/d"), 0o755, 10, 20));
        }
        other => panic!("unexpected {:?}", other),
    }
    match entry.apply(&PriorState::Dir(bilog_dir::<Xor>::old_state(p("/d"), Some((0o700, 1, 1))))) {
        Ok(VFSCall::rmdir { path }) => assert_eq!(path, p("/d")),
        other => panic!("unexpected {:?}", other),
    }
}

#[test]
fn a_removed_symlink_is_recreated_with_its_target() {
    let call = VFSCall::unlink { path: p("/l") };
    let before = PriorState::Symlink(bilog_symlink::<Xor>::old_state(p("/l"), Some((p("/target"), 3, 4))));
    let entry = BilogEntry::try_from(&call, &before);
    match entry.apply(&PriorState::Symlink(bilog_symlink::<Xor>::old_state(p("/l"), None))) {
        Ok(VFSCall::symlink { from, to, security: FileSecurity::Unix { uid, gid } }) => {
            assert_eq!((from, to, uid, gid), (p("/target"), p("/l"), 3, 4));
        }
        other => panic!("unexpected {:?}", other),
    }
}

#[test]
fn writes_are_sent_as_trimmed_differences() {
    let path = p("/f");
    match write_call(&path, 10, &vec![1, 2, 3, 4], &vec![1, 9, 3, 4], Some(4)) {
        VFSCall::diff_write { path, offset, buf } => {
            assert_eq!((path, offset, buf), (p("/f"), 11, vec![2 ^ 9]));
        }
        other => panic!("unexpected {:?}", other),
    }
    // past what could be read, bytes are sent as they are and none is dropped at the end
    match write_call(&path, 10, &vec![1, 2, 0, 5], &vec![1, 2, 7, 7], Some(2)) {
        VFSCall::diff_write { offset, buf, .. } => assert_eq!((offset, buf), (13, vec![5])),
        other => panic!("unexpected {:?}", other),
    }
    match write_call(&path, 10, &vec![5], &vec![], None) {
        VFSCall::write { offset, buf, .. } => assert_eq!((offset, buf), (10, vec![5])),
        other => panic!("unexpected {:?}", other),
    }
    match write_call(&path, 10, &vec![5], &vec![0], Some(0)) {
        VFSCall::write { offset, buf, .. } => assert_eq!((offset, buf), (10, vec![5])),
        other => panic!("unexpected {:?}", other),
    }
}

#[test]
fn a_shrinking_truncate_is_undone_by_writing_back_what_it_cut() {
    let cut = b"0123456789abcde".to_vec();
    let before = bilog_truncate::<Xor>::old_state(p("/f"), 25, cut.clone());
    let n = bilog_truncate::<Xor>::new(&VFSCall::truncate { path: p("/f"), size: 10 });
    let x = bilog_truncate::<Xor>::xor(&before, &n);
    // Undo, from the shorter file: nothing to read, the cut bytes come back.
    assert_eq!(bilog_truncate::<Xor>::replay_range(&x, 10), None);
    let short = bilog_truncate::<Xor>::old_state(p("/f"), 10, vec![]);
    match bilog_truncate::<Xor>::apply(&x, &short) {
        Ok(VFSCall::write { path, offset, buf }) => {
            assert_eq!(path, p("/f"));
            assert_eq!(offset, 10);
            assert_eq!(buf, cut);
        }
        other => panic!("unexpected {:?}", other),
    }
    // Redo, from the longer file: its cut bytes are read and checked.
    assert_eq!(bilog_truncate::<Xor>::replay_range(&x, 25), Some((10, 15)));
    let long = bilog_truncate::<Xor>::old_state(p("/f"), 25, cut.clone());
    match bilog_truncate::<Xor>::apply(&x, &long) {
        Ok(VFSCall::truncate { path, size }) => {
            assert_eq!(path, p("/f"));
            assert_eq!(size, 10);
        }
        other => panic!("unexpected {:?}", other),
    }
    // Other bytes there than were cut: the state does not match.
    let changed = bilog_truncate::<Xor>::old_state(p("/f"), 25, b"XXXXXXXXXXXXXXX".to_vec());
    assert!(matches!(bilog_truncate::<Xor>::apply(&x, &changed), Err(BilogError::ChecksumMismatch)));
}

#[test]
fn a_growing_truncate_is_undone_by_a_truncate() {
    let before = bilog_truncate::<Xor>::old_state(p("/f"), 10, vec![]);
    let n = bilog_truncate::<Xor>::new(&VFSCall::truncate { path: p("/f"), size: 25 });
    let x = bilog_truncate::<Xor>::xor(&before, &n);
    assert_eq!(bilog_truncate::<Xor>::replay_range(&x, 25), None);
    let long = bilog_truncate::<Xor>::old_state(p("/f"), 25, vec![]);
    match bilog_truncate::<Xor>::apply(&x, &long) {
        Ok(VFSCall::truncate { size, .. }) => assert_eq!(size, 10),
        other => panic!("unexpected {:?}", other),
    }
}

#[test]
fn a_truncating_write_truncates_only_after_a_good_write() {
    assert_eq!(after_write(-5), TruncatingWriteNext::Reply(-5));
    assert_eq!(after_write(12), TruncatingWriteNext::Truncate);
    assert_eq!(after_truncate(12, -1), -1);
    assert_eq!(after_truncate(12, 0), 12);
}

use fsyncd::setattr::{setattr_next, setattr_steps, SetattrNext, SetattrStep};
use fsyncd::setattr::{
    setattr_plan, Owner, SetattrPlan, Times, FUSE_SET_ATTR_ATIME, FUSE_SET_ATTR_ATIME_NOW,
    FUSE_SET_ATTR_GID, FUSE_SET_ATTR_MODE, FUSE_SET_ATTR_MTIME, FUSE_SET_ATTR_MTIME_NOW,
    FUSE_SET_ATTR_SIZE, UTIME_NOW, UTIME_OMIT,
};
use fsyncd::util::Lazy;
use std::cell::Cell;
use fsyncd::mirrorplan::{
    allocation_truncates, cleanup_op, CleanupOp,
    create_plan, create_status, diff_write_buf, write_step, CreateAction, CREATE_ALWAYS,
    CREATE_NEW, FILE_ATTRIBUTE_READONLY, FILE_FLAG_BACKUP_SEMANTICS, FILE_FLAG_DELETE_ON_CLOSE,
    FILE_NON_DIRECTORY_FILE, FILE_SHARE_READ, OPEN_ALWAYS, OPEN_EXISTING,
    STATUS_OBJECT_NAME_COLLISION, STATUS_SUCCESS, TRUNCATE_EXISTING, WriteStep,
};
use fsyncd::mountpaths::{finish, implicit_backing_name, relocation, Finish, PathsError, Relocation};

#[test]
fn backing_store_is_named_after_the_mount_path() {
    assert_eq!(implicit_backing_name(b"data"), b".fsyncer-data".to_vec());
    assert_eq!(implicit_backing_name(b""), b".fsyncer-".to_vec());
}

#[test]
fn existing_tree_moves_to_the_backing_store() {
    assert_eq!(relocation(true, true, None), Relocation::Keep);
    assert_eq!(relocation(true, false, None), Relocation::Keep);
    assert_eq!(relocation(false, false, None), Relocation::Keep);
    assert_eq!(relocation(false, true, None), Relocation::CheckMountpoint);
    assert_eq!(relocation(false, true, Some(true)), Relocation::MoveMount);
    assert_eq!(relocation(false, true, Some(false)), Relocation::RenameDir);
}

#[test]
fn last_step_before_mounting() {
    assert_eq!(finish(true, false), Ok(Finish::CreateMount));
    assert_eq!(finish(false, false), Err(PathsError::MountMissing));
    assert_eq!(finish(true, true), Ok(Finish::Ready));
    assert_eq!(finish(false, true), Ok(Finish::Ready));
}

#[test]
fn directory_opened_as_file_is_refused() {
    let p = create_plan(Some((true, 0)), FILE_NON_DIRECTORY_FILE, OPEN_EXISTING, 0, 0, false);
    assert_eq!(p.action, CreateAction::FileIsDirectory);
    assert!(!p.is_directory);
}

#[test]
fn existing_directory_is_opened_as_one() {
    let p = create_plan(Some((true, 0)), 0, OPEN_EXISTING, 0x80, 0x2, false);
    assert_eq!(p.action, CreateAction::Open);
    assert!(p.is_directory);
    assert_eq!(p.shared, 0x2 | FILE_SHARE_READ);
    assert_eq!(p.attributes, 0x80 | FILE_FLAG_BACKUP_SEMANTICS);
}

#[test]
fn missing_directory_is_created() {
    let p = create_plan(None, 0, CREATE_NEW, 0, 0, true);
    assert_eq!(p.action, CreateAction::MakeDir);
    let p = create_plan(None, 0, OPEN_EXISTING, 0, 0, true);
    assert_eq!(p.action, CreateAction::Open);
}

#[test]
fn files_are_created_truncated_or_opened() {
    assert_eq!(create_plan(None, 0, CREATE_ALWAYS, 0, 0, false).action, CreateAction::Create);
    assert_eq!(create_plan(None, 0, OPEN_ALWAYS, 0, 0, false).action, CreateAction::Create);
    assert_eq!(create_plan(None, 0, OPEN_EXISTING, 0, 0, false).action, CreateAction::Open);
    assert_eq!(
        create_plan(Some((false, 0)), 0, TRUNCATE_EXISTING, 0, 0, false).action,
        CreateAction::Truncate
    );
    assert_eq!(
        create_plan(Some((false, 0)), 0, CREATE_ALWAYS, 0, 0, false).action,
        CreateAction::Truncate
    );
    assert_eq!(create_plan(Some((false, 0)), 0, CREATE_NEW, 0, 0, false).action, CreateAction::Open);
    assert_eq!(create_plan(Some((false, 0)), 0, OPEN_ALWAYS, 0, 0, false).action, CreateAction::Open);
}

#[test]
fn read_only_files_are_not_deleted_on_close() {
    let p = create_plan(
        Some((false, FILE_ATTRIBUTE_READONLY)),
        0,
        OPEN_EXISTING,
        FILE_FLAG_DELETE_ON_CLOSE,
        0,
        false,
    );
    assert_eq!(p.action, CreateAction::CannotDelete);
    let p = create_plan(
        None,
        0,
        CREATE_NEW,
        FILE_FLAG_DELETE_ON_CLOSE | FILE_ATTRIBUTE_READONLY,
        0,
        false,
    );
    assert_eq!(p.action, CreateAction::CannotDelete);
    let p = create_plan(Some((false, 0)), 0, OPEN_EXISTING, FILE_FLAG_DELETE_ON_CLOSE, 0, false);
    assert_eq!(p.action, CreateAction::Open);
}

#[test]
fn opened_objects_report_a_collision() {
    assert_eq!(create_status(STATUS_SUCCESS, true, OPEN_ALWAYS, true), STATUS_OBJECT_NAME_COLLISION);
    assert_eq!(create_status(STATUS_SUCCESS, false, OPEN_ALWAYS, true), STATUS_SUCCESS);
    assert_eq!(create_status(STATUS_SUCCESS, true, OPEN_ALWAYS, false), STATUS_SUCCESS);
    assert_eq!(create_status(STATUS_SUCCESS, true, CREATE_NEW, true), STATUS_SUCCESS);
    assert_eq!(create_status(5, true, OPEN_ALWAYS, true), 5);
}

#[test]
fn paging_writes_stay_inside_the_file() {
    assert_eq!(write_step(false, true, 10, 20, None), WriteStep::NeedSize);
    assert_eq!(write_step(false, true, 10, 20, Some(100)), WriteStep::Write { offset: 10, len: 20 });
    assert_eq!(write_step(false, true, 90, 20, Some(100)), WriteStep::Write { offset: 90, len: 10 });
    assert_eq!(write_step(false, true, 100, 20, Some(100)), WriteStep::Nothing);
    assert_eq!(write_step(false, true, -1, 20, Some(100)), WriteStep::Nothing);
    assert_eq!(write_step(true, true, 10, 20, None), WriteStep::Write { offset: i64::MAX, len: 20 });
    assert_eq!(write_step(false, false, 500, 20, Some(100)), WriteStep::Write { offset: 500, len: 20 });
}

#[test]
fn differential_write_combines_what_was_read() {
    let r = diff_write_buf(vec![0xff, 0x0f, 7, 7], &[0x0f, 0x0f, 1, 2], 2);
    assert_eq!(r, vec![0xf0, 0x00, 1, 2]);
    let r = diff_write_buf(vec![1, 2], &[3, 4], 0);
    assert_eq!(r, vec![3, 4]);
}

#[test]
fn lazy_value_is_computed_once() {
    let runs = Cell::new(0u32);
    let mut l = Lazy::new(|| {
        runs.set(runs.get() + 1);
        vec![1u8, 2, 3]
    });
    assert_eq!(runs.get(), 0);
    assert_eq!(*l.get_or_create(), vec![1, 2, 3]);
    l.get_or_create().push(4);
    assert_eq!(l.take(), vec![1, 2, 3, 4]);
    assert_eq!(runs.get(), 1);
    let l = Lazy::new(|| 9u64);
    assert_eq!(l.take(), 9);
}

#[test]
fn deletion_happens_when_the_handle_is_cleaned_up() {
    assert_eq!(cleanup_op(false, true), CleanupOp::Keep);
    assert_eq!(cleanup_op(false, false), CleanupOp::Keep);
    assert_eq!(cleanup_op(true, true), CleanupOp::RemoveDir);
    assert_eq!(cleanup_op(true, false), CleanupOp::RemoveFile);
}

#[test]
fn smaller_allocation_cuts_the_file() {
    assert!(allocation_truncates(10, 100));
    assert!(!allocation_truncates(100, 100));
    assert!(!allocation_truncates(200, 100));
}

#[test]
fn setattr_splits_into_operations() {
    assert_eq!(UTIME_NOW, libc::UTIME_NOW as i64);
    assert_eq!(UTIME_OMIT, libc::UTIME_OMIT as i64);
    let p = setattr_plan(FUSE_SET_ATTR_MODE, 0o600, 1, 2, 3, 4, 5);
    assert_eq!(p, SetattrPlan { mode: Some(0o600), owner: None, size: None, times: None });
    let p = setattr_plan(FUSE_SET_ATTR_GID | FUSE_SET_ATTR_SIZE, 0, 7, 8, 100, 0, 0);
    assert_eq!(p.owner, Some(Owner { uid: u32::MAX, gid: 8 }));
    assert_eq!(p.size, Some(100));
    assert_eq!(p.mode, None);
    let p = setattr_plan(FUSE_SET_ATTR_ATIME | FUSE_SET_ATTR_ATIME_NOW, 0, 0, 0, 0, 11, 12);
    assert_eq!(p.times, Some(Times { atime: UTIME_NOW, mtime: UTIME_OMIT }));
    let p = setattr_plan(FUSE_SET_ATTR_MTIME, 0, 0, 0, 0, 11, 12);
    assert_eq!(p.times, Some(Times { atime: UTIME_OMIT, mtime: 12 }));
    let p = setattr_plan(FUSE_SET_ATTR_MTIME_NOW, 0, 0, 0, 0, 11, 12);
    assert_eq!(p.times, None);
}

#[test]
fn setattr_calls_come_in_order_and_stop_at_the_first_error() {
    let plan = setattr_plan(FUSE_SET_ATTR_MODE | FUSE_SET_ATTR_SIZE | FUSE_SET_ATTR_MTIME, 0o600, 1, 2, 99, 5, 6);
    let steps = setattr_steps(&plan);
    assert_eq!(
        steps,
        vec![
            SetattrStep::Chmod(0o600),
            SetattrStep::Truncate(99),
            SetattrStep::Utimens(Times { atime: UTIME_OMIT, mtime: 6 }),
            SetattrStep::Getattr,
        ]
    );
    assert_eq!(setattr_next(steps.len(), 0, None), SetattrNext::Call(1));
    assert_eq!(setattr_next(steps.len(), 1, Some(-28)), SetattrNext::Fail(-28));
    assert_eq!(setattr_next(steps.len(), 3, Some(-2)), SetattrNext::Done);
    let none = setattr_steps(&setattr_plan(0, 0, 0, 0, 0, 0, 0));
    assert_eq!(none, vec![SetattrStep::Getattr]);
}

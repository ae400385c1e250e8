//! Decisions of the Windows mirror callbacks, taken on plain flag values:
//! which operation an open request replicates, how a paging write is clipped
//! to the file, and what a differential write sends.
use vstd::prelude::*;

verus! {

/// Creation dispositions, as the user-mode `CreateFile` takes them.
pub const CREATE_NEW: u32 = 1;
pub const CREATE_ALWAYS: u32 = 2;
pub const OPEN_EXISTING: u32 = 3;
pub const OPEN_ALWAYS: u32 = 4;
pub const TRUNCATE_EXISTING: u32 = 5;

/// The create option that demands a file, not a directory.
pub const FILE_NON_DIRECTORY_FILE: u32 = 0x40;
/// The share mode that lets others read.
pub const FILE_SHARE_READ: u32 = 0x1;
/// The read-only file attribute.
pub const FILE_ATTRIBUTE_READONLY: u32 = 0x1;
/// The flag needed to open a directory handle.
pub const FILE_FLAG_BACKUP_SEMANTICS: u32 = 0x0200_0000;
/// The flag that deletes the file when its last handle closes.
pub const FILE_FLAG_DELETE_ON_CLOSE: u32 = 0x0400_0000;

/// Success, and the status that reports an opened (not created) object.
pub const STATUS_SUCCESS: i32 = 0;
pub const STATUS_OBJECT_NAME_COLLISION: i32 = -1073741771;

pub open spec fn flagset(v: u32, f: u32) -> bool {
    v & f == f
}

/// What an open request does.
#[derive(Clone, Copy, Debug, PartialEq, Eq, Structural)]
pub enum CreateAction {
    /// Refused: a directory was opened as a file.
    FileIsDirectory,
    /// Refused: a read-only file was opened for deletion on close.
    CannotDelete,
    /// Create a directory, replicated as `mkdir`.
    MakeDir,
    /// Open an existing file and empty it, replicated as a truncation to 0.
    Truncate,
    /// Create a file, replicated as `create`.
    Create,
    /// Open without replicating anything.
    Open,
}

/// The action of an open request and the flags it is carried out with.
#[derive(Clone, Copy, Debug, PartialEq, Eq, Structural)]
pub struct CreatePlan {
    pub action: CreateAction,
    pub is_directory: bool,
    pub shared: u32,
    pub attributes: u32,
}

pub open spec fn spec_open_action(
    existing: Option<(bool, u32)>,
    disposition: u32,
    attributes: u32,
    is_directory: bool,
) -> CreateAction {
    let exists = existing is Some;
    let readonly = match existing {
        Some((_, a)) => flagset(a, FILE_ATTRIBUTE_READONLY),
        None => false,
    };
    if !exists && (disposition == CREATE_ALWAYS || disposition == CREATE_NEW) && is_directory {
        CreateAction::MakeDir
    } else if (readonly || flagset(attributes, FILE_ATTRIBUTE_READONLY)) && flagset(
        attributes,
        FILE_FLAG_DELETE_ON_CLOSE,
    ) {
        CreateAction::CannotDelete
    } else if exists && (disposition == TRUNCATE_EXISTING || disposition == CREATE_ALWAYS) {
        CreateAction::Truncate
    } else if !exists && (disposition == CREATE_ALWAYS || disposition == CREATE_NEW || disposition
        == OPEN_ALWAYS) {
        CreateAction::Create
    } else {
        CreateAction::Open
    }
}

/// The plan of an open request. `existing` is `None` where nothing is at
/// the path, else whether it is a directory and its file attributes; the
/// other arguments are the request's create options, its user-mode
/// disposition, attributes and share mode, and whether it was marked as a
/// directory.
pub open spec fn spec_create_plan(
    existing: Option<(bool, u32)>,
    options: u32,
    disposition: u32,
    attributes: u32,
    shared: u32,
    is_directory: bool,
) -> CreatePlan {
    let dir_exists = match existing {
        Some((d, _)) => d,
        None => false,
    };
    if dir_exists && flagset(options, FILE_NON_DIRECTORY_FILE) {
        CreatePlan { action: CreateAction::FileIsDirectory, is_directory, shared, attributes }
    } else if dir_exists {
        let attributes = attributes | FILE_FLAG_BACKUP_SEMANTICS;
        CreatePlan {
            action: spec_open_action(existing, disposition, attributes, true),
            is_directory: true,
            shared: shared | FILE_SHARE_READ,
            attributes,
        }
    } else {
        CreatePlan {
            action: spec_open_action(existing, disposition, attributes, is_directory),
            is_directory,
            shared,
            attributes,
        }
    }
}

fn open_action(existing: Option<(bool, u32)>, disposition: u32, attributes: u32, is_directory: bool) -> (r:
    CreateAction)
    ensures
        r == spec_open_action(existing, disposition, attributes, is_directory),
{
    let exists = existing.is_some();
    let readonly = match existing {
        Some((_, a)) => a & FILE_ATTRIBUTE_READONLY == FILE_ATTRIBUTE_READONLY,
        None => false,
    };
    if !exists && (disposition == CREATE_ALWAYS || disposition == CREATE_NEW) && is_directory {
        CreateAction::MakeDir
    } else if (readonly || attributes & FILE_ATTRIBUTE_READONLY == FILE_ATTRIBUTE_READONLY)
        && attributes & FILE_FLAG_DELETE_ON_CLOSE == FILE_FLAG_DELETE_ON_CLOSE {
        CreateAction::CannotDelete
    } else if exists && (disposition == TRUNCATE_EXISTING || disposition == CREATE_ALWAYS) {
        CreateAction::Truncate
    } else if !exists && (disposition == CREATE_ALWAYS || disposition == CREATE_NEW || disposition
        == OPEN_ALWAYS) {
        CreateAction::Create
    } else {
        CreateAction::Open
    }
}

/// Decides what an open request does: a directory opened as a file is
/// refused; an existing directory is opened as one; a missing directory is
/// created; a read-only target of a delete-on-close open is refused; an
/// existing file opened to be replaced is truncated; a missing file opened to
/// be created is created; anything else is opened and nothing is replicated.
pub fn create_plan(
    existing: Option<(bool, u32)>,
    options: u32,
    disposition: u32,
    attributes: u32,
    shared: u32,
    is_directory: bool,
) -> (r: CreatePlan)
    ensures
        r == spec_create_plan(existing, options, disposition, attributes, shared, is_directory),
{
    let dir_exists = match existing {
        Some((d, _)) => d,
        None => false,
    };
    if dir_exists && options & FILE_NON_DIRECTORY_FILE == FILE_NON_DIRECTORY_FILE {
        CreatePlan { action: CreateAction::FileIsDirectory, is_directory, shared, attributes }
    } else if dir_exists {
        let attributes = attributes | FILE_FLAG_BACKUP_SEMANTICS;
        CreatePlan {
            action: open_action(existing, disposition, attributes, true),
            is_directory: true,
            shared: shared | FILE_SHARE_READ,
            attributes,
        }
    } else {
        CreatePlan {
            action: open_action(existing, disposition, attributes, is_directory),
            is_directory,
            shared,
            attributes,
        }
    }
}

/// The status an open request reports: an open that succeeded with a handle
/// on an existing object asked for with `OPEN_ALWAYS` is reported as a name
/// collision, so that the driver learns the object was opened rather than
/// created; otherwise the status stands.
pub fn create_status(status: i32, handle_valid: bool, disposition: u32, exists: bool) -> (r: i32)
    ensures
        r == (if status == STATUS_SUCCESS && handle_valid && disposition == OPEN_ALWAYS && exists {
            STATUS_OBJECT_NAME_COLLISION
        } else {
            status
        }),
{
    if status == STATUS_SUCCESS && handle_valid && disposition == OPEN_ALWAYS && exists {
        STATUS_OBJECT_NAME_COLLISION
    } else {
        status
    }
}

/// What a write request does.
#[derive(Clone, Copy, Debug, PartialEq, Eq, Structural)]
pub enum WriteStep {
    /// Write `len` bytes at `offset`.
    Write { offset: i64, len: u32 },
    /// A paging write needs the file's size; ask, then decide again with it.
    NeedSize,
    /// A paging write wholly past the end of the file: write nothing and
    /// report success.
    Nothing,
}

pub open spec fn spec_write_step(
    write_to_eof: bool,
    paging_io: bool,
    offset: i64,
    len: u32,
    file_size: Option<u64>,
) -> WriteStep {
    if write_to_eof {
        WriteStep::Write { offset: i64::MAX, len }
    } else if paging_io {
        match file_size {
            None => WriteStep::NeedSize,
            Some(size) => {
                let start = offset as u64;
                if start >= size {
                    WriteStep::Nothing
                } else if start + len > size {
                    WriteStep::Write { offset, len: (size - start) as u32 }
                } else {
                    WriteStep::Write { offset, len }
                }
            },
        }
    } else {
        WriteStep::Write { offset, len }
    }
}

/// Decides where a write goes and how long it is. A write to the end of the
/// file goes to the largest offset; a paging write never extends the file:
/// it is clipped to the file's size, and one that starts at or past the end
/// writes nothing.
pub fn write_step(write_to_eof: bool, paging_io: bool, offset: i64, len: u32, file_size: Option<u64>) -> (r:
    WriteStep)
    ensures
        r == spec_write_step(write_to_eof, paging_io, offset, len, file_size),
        r matches WriteStep::Write { len: l, .. } ==> l <= len,
{
    if write_to_eof {
        WriteStep::Write { offset: i64::MAX, len }
    } else if paging_io {
        match file_size {
            None => WriteStep::NeedSize,
            Some(size) => {
                let start = offset as u64;
                if start >= size {
                    WriteStep::Nothing
                } else if start as u128 + len as u128 > size as u128 {
                    WriteStep::Write { offset, len: (size - start) as u32 }
                } else {
                    WriteStep::Write { offset, len }
                }
            },
        }
    } else {
        WriteStep::Write { offset, len }
    }
}

/// The bytes a differential write sends: where `diff_len` bytes of the old
/// contents could be read, the old and new bytes combined by exclusive or;
/// past them, the new bytes as they are.
pub open spec fn spec_diff_buf(old_bytes: Seq<u8>, new_bytes: Seq<u8>, diff_len: int) -> Seq<u8> {
    Seq::new(
        new_bytes.len(),
        |i: int|
            if i < diff_len {
                old_bytes[i] ^ new_bytes[i]
            } else {
                new_bytes[i]
            },
    )
}

/// Builds the buffer of a differential write in place of the old contents.
pub fn diff_write_buf(old_buf: Vec<u8>, new_buf: &[u8], diff_len: usize) -> (r: Vec<u8>)
    requires
        old_buf@.len() == new_buf@.len(),
        diff_len <= new_buf@.len(),
    ensures
        r@ == spec_diff_buf(old_buf@, new_buf@, diff_len as int),
{
    let mut r = old_buf;
    let ghost orig = r@;
    let mut i: usize = 0;
    while i < new_buf.len()
        invariant
            orig.len() == new_buf@.len(),
            r@.len() == new_buf@.len(),
            diff_len <= new_buf@.len(),
            i <= new_buf@.len(),
            forall|k: int| 0 <= k < i ==> r@[k] == spec_diff_buf(orig, new_buf@, diff_len as int)[k],
            forall|k: int| i <= k < r@.len() ==> r@[k] == orig[k],
        decreases new_buf@.len() - i,
    {
        let v = if i < diff_len {
            r[i] ^ new_buf[i]
        } else {
            new_buf[i]
        };
        r.set(i, v);
        i = i + 1;
    }
    assert(r@ =~= spec_diff_buf(orig, new_buf@, diff_len as int));
    r
}

/// What closing the last handle of a file replicates.
#[derive(Clone, Copy, Debug, PartialEq, Eq, Structural)]
pub enum CleanupOp {
    /// Nothing: the file stays.
    Keep,
    /// The directory is deleted, replicated as `rmdir`.
    RemoveDir,
    /// The file is deleted, replicated as `unlink`.
    RemoveFile,
}

/// A handle opened for deletion on close deletes its directory or file when
/// it is cleaned up; any other handle deletes nothing.
pub fn cleanup_op(delete_on_close: bool, is_directory: bool) -> (r: CleanupOp)
    ensures
        r == (if !delete_on_close {
            CleanupOp::Keep
        } else if is_directory {
            CleanupOp::RemoveDir
        } else {
            CleanupOp::RemoveFile
        }),
{
    if !delete_on_close {
        CleanupOp::Keep
    } else if is_directory {
        CleanupOp::RemoveDir
    } else {
        CleanupOp::RemoveFile
    }
}

/// Setting a file's allocation size below its end cuts the file there,
/// replicated as a truncation to `size`; a size at or past the end changes
/// nothing.
pub fn allocation_truncates(size: i64, file_size: i64) -> (r: bool)
    ensures
        r == (size < file_size),
{
    size < file_size
}

} // verus!

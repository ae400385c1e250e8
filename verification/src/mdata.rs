//! Metadata journal entries: what an operation changed, without the data.
use vstd::prelude::*;
use crate::vfs::{VFSCall, CallView, copy_bytes};

verus! {

/// Which attributes a change touched.
#[derive(Clone, Copy, Debug, PartialEq, Eq, Structural)]
pub struct StatChange {
    pub bits: u8,
}

pub const MODE: u8 = 0b0001;
pub const UID_GID: u8 = 0b0010;
pub const TIME: u8 = 0b0100;
pub const SIZE: u8 = 0b1000;

/// The change an operation made.
#[derive(Debug)]
pub enum MDataEntry {
    New(Vec<u8>),
    Unlink(Vec<u8>),
    Rename(Vec<u8>, Vec<u8>),
    Link(Vec<u8>, Vec<u8>),
    Stat { path: Vec<u8>, fields: StatChange },
    Xattr { path: Vec<u8>, name: Vec<u8> },
    Write { path: Vec<u8>, offset: u64, len: u64 },
}

pub enum MDataView {
    New(Seq<u8>),
    Unlink(Seq<u8>),
    Rename(Seq<u8>, Seq<u8>),
    Link(Seq<u8>, Seq<u8>),
    Stat { path: Seq<u8>, fields: StatChange },
    Xattr { path: Seq<u8>, name: Seq<u8> },
    Write { path: Seq<u8>, offset: u64, len: u64 },
}

impl View for MDataEntry {
    type V = MDataView;

    open spec fn view(&self) -> MDataView {
        match self {
            MDataEntry::New(p) => MDataView::New(p@),
            MDataEntry::Unlink(p) => MDataView::Unlink(p@),
            MDataEntry::Rename(a, b) => MDataView::Rename(a@, b@),
            MDataEntry::Link(a, b) => MDataView::Link(a@, b@),
            MDataEntry::Stat { path, fields } => MDataView::Stat { path: path@, fields: *fields },
            MDataEntry::Xattr { path, name } => MDataView::Xattr { path: path@, name: name@ },
            MDataEntry::Write { path, offset, len } => MDataView::Write {
                path: path@,
                offset: *offset,
                len: *len,
            },
        }
    }
}

/// Every operation but `fsync` and the truncating write is a change.
pub open spec fn is_change(c: CallView) -> bool {
    !(c is fsync) && !(c is truncating_write)
}

pub open spec fn spec_entry(c: CallView) -> MDataView {
    match c {
        CallView::mkdir { path, .. } => MDataView::New(path),
        CallView::mknod { path, .. } => MDataView::New(path),
        CallView::create { path, .. } => MDataView::New(path),
        CallView::unlink { path } => MDataView::Unlink(path),
        CallView::rmdir { path } => MDataView::Unlink(path),
        CallView::setxattr { path, name, .. } => MDataView::Xattr { path, name },
        CallView::removexattr { path, name } => MDataView::Xattr { path, name },
        CallView::chmod { path, .. } => MDataView::Stat { path, fields: StatChange { bits: MODE } },
        CallView::symlink { from, to, .. } => MDataView::Link(from, to),
        CallView::link { from, to, .. } => MDataView::Link(from, to),
        CallView::rename { from, to, .. } => MDataView::Rename(from, to),
        CallView::security { path, .. } => MDataView::Stat { path, fields: StatChange { bits: UID_GID } },
        CallView::truncate { path, .. } => MDataView::Stat { path, fields: StatChange { bits: SIZE } },
        CallView::utimens { path, .. } => MDataView::Stat { path, fields: StatChange { bits: TIME } },
        CallView::write { path, offset, buf } => MDataView::Write {
            path,
            offset: offset as u64,
            len: buf.len() as u64,
        },
        CallView::diff_write { path, offset, buf } => MDataView::Write {
            path,
            offset: offset as u64,
            len: buf.len() as u64,
        },
        CallView::fallocate { path, .. } => MDataView::Stat { path, fields: StatChange { bits: SIZE } },
        _ => MDataView::New(Seq::empty()),
    }
}

impl MDataEntry {
    /// The change `call` made.
    pub fn from_call(call: &VFSCall) -> (r: MDataEntry)
        requires
            is_change(call@),
        ensures
            r@ == spec_entry(call@),
    {
        match call {
            VFSCall::mkdir { path, .. } => MDataEntry::New(copy_bytes(path)),
            VFSCall::mknod { path, .. } => MDataEntry::New(copy_bytes(path)),
            VFSCall::create { path, .. } => MDataEntry::New(copy_bytes(path)),
            VFSCall::unlink { path } => MDataEntry::Unlink(copy_bytes(path)),
            VFSCall::rmdir { path } => MDataEntry::Unlink(copy_bytes(path)),
            VFSCall::setxattr { path, name, .. } => MDataEntry::Xattr {
                path: copy_bytes(path),
                name: copy_bytes(name),
            },
            VFSCall::removexattr { path, name } => MDataEntry::Xattr {
                path: copy_bytes(path),
                name: copy_bytes(name),
            },
            VFSCall::chmod { path, .. } => MDataEntry::Stat {
                path: copy_bytes(path),
                fields: StatChange { bits: MODE },
            },
            VFSCall::symlink { from, to, .. } => MDataEntry::Link(copy_bytes(from), copy_bytes(to)),
            VFSCall::link { from, to, .. } => MDataEntry::Link(copy_bytes(from), copy_bytes(to)),
            VFSCall::rename { from, to, .. } => MDataEntry::Rename(copy_bytes(from), copy_bytes(to)),
            VFSCall::security { path, .. } => MDataEntry::Stat {
                path: copy_bytes(path),
                fields: StatChange { bits: UID_GID },
            },
            VFSCall::truncate { path, .. } => MDataEntry::Stat {
                path: copy_bytes(path),
                fields: StatChange { bits: SIZE },
            },
            VFSCall::utimens { path, .. } => MDataEntry::Stat {
                path: copy_bytes(path),
                fields: StatChange { bits: TIME },
            },
            VFSCall::write { path, offset, buf } => MDataEntry::Write {
                path: copy_bytes(path),
                offset: *offset as u64,
                len: buf.len() as u64,
            },
            VFSCall::diff_write { path, offset, buf } => MDataEntry::Write {
                path: copy_bytes(path),
                offset: *offset as u64,
                len: buf.len() as u64,
            },
            VFSCall::fallocate { path, .. } => MDataEntry::Stat {
                path: copy_bytes(path),
                fields: StatChange { bits: SIZE },
            },
            _ => vstd::pervasive::unreached(),
        }
    }
}

} // verus!

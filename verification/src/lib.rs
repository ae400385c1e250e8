//! Verified core of a VFS-level file system replicator: the on-disk journal
//! layout, bidirectional journal entries, forward snapshots and the small
//! pieces of protocol and bookkeeping logic around them.
#![allow(non_camel_case_types)]
#![allow(non_snake_case)]

pub mod codec;
pub mod journal;
pub mod vfs;
pub mod bilog;
pub mod keyed;
pub mod freelist;
pub mod snapshot;
pub mod util;
pub mod protocol;
pub mod iolimit;
pub mod error;
pub mod filestore;
pub mod mdata;
pub mod mountpaths;
pub mod mirrorplan;
pub mod setattr;

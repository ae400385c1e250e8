//! Bookkeeping of the store of deleted files: files removed from the
//! backing store are kept under increasing tokens, oldest first out, while
//! their total size stays within a limit.
use vstd::prelude::*;
use crate::bilog::{stored_path, filestore_path};
use crate::vfs::{VFSCall, CallView, SecurityView, FileSecurity, copy_bytes};

verus! {

/// Which files make room when the store is full.
#[derive(Clone, Copy, Debug, PartialEq, Eq, Structural)]
pub enum DeletePolicy {
    JournalBefore,
    BeforeAffected,
    /// The oldest kept file.
    FilestoreEntry,
}

/// The store of deleted files of a backing store.
pub struct FileStore {
    current_size: u64,
    oldest_token: u64,
    current_token: u64,
    max_size: u64,
    vfsroot: Vec<u8>,
    policy: DeletePolicy,
}

pub struct StoreView {
    pub current_size: u64,
    pub oldest_token: u64,
    pub current_token: u64,
    pub max_size: u64,
    pub vfsroot: Seq<u8>,
    pub policy: DeletePolicy,
}

impl View for FileStore {
    type V = StoreView;

    closed spec fn view(&self) -> StoreView {
        StoreView {
            current_size: self.current_size,
            oldest_token: self.oldest_token,
            current_token: self.current_token,
            max_size: self.max_size,
            vfsroot: self.vfsroot@,
            policy: self.policy,
        }
    }
}

pub open spec fn total(sizes: Seq<u64>) -> int
    decreases sizes.len(),
{
    if sizes.len() == 0 {
        0
    } else {
        total(sizes.drop_last()) + sizes.last()
    }
}

impl FileStore {
    /// The store as found on disk: the sizes of the files in it, and the
    /// tokens of the first and last of them as the directory lists them.
    pub fn new(vfsroot: &Vec<u8>, max_size: u64, sizes: &Vec<u64>, first: Option<u64>, last: Option<u64>) -> (r: FileStore)
        requires
            total(sizes@) <= u64::MAX,
        ensures
            r@ == (StoreView {
                current_size: total(sizes@) as u64,
                oldest_token: match first {
                    Some(t) => t,
                    None => 0,
                },
                current_token: match last {
                    Some(t) => t,
                    None => 0,
                },
                max_size,
                vfsroot: vfsroot@,
                policy: DeletePolicy::FilestoreEntry,
            }),
    {
        let mut current_size: u64 = 0;
        let mut i: usize = 0;
        while i < sizes.len()
            invariant
                0 <= i <= sizes@.len(),
                total(sizes@) <= u64::MAX,
                current_size == total(sizes@.subrange(0, i as int)),
            decreases sizes@.len() - i,
        {
            proof {
                assert(sizes@.subrange(0, i + 1).drop_last() =~= sizes@.subrange(0, i as int));
                lemma_total_prefix(sizes@, i + 1);
            }
            current_size = current_size + sizes[i];
            i += 1;
        }
        assert(sizes@.subrange(0, sizes@.len() as int) =~= sizes@);
        FileStore {
            vfsroot: copy_bytes(vfsroot),
            current_size,
            current_token: match last {
                Some(t) => t,
                None => 0,
            },
            oldest_token: match first {
                Some(t) => t,
                None => 0,
            },
            max_size,
            policy: DeletePolicy::FilestoreEntry,
        }
    }

    /// The file to delete before a file of `size` bytes fits, if any.
    pub fn eviction(&self, size: u64) -> (r: Option<u64>)
        requires
            self@.current_size + size <= u64::MAX,
            self@.policy == DeletePolicy::FilestoreEntry,
        ensures
            r == (if self@.current_size + size > self@.max_size {
                Some(self@.oldest_token)
            } else {
                None
            }),
    {
        if self.current_size + size > self.max_size {
            Some(self.oldest_token)
        } else {
            None
        }
    }

    /// Records that the oldest file, of `size` bytes, was deleted.
    pub fn evicted(&mut self, size: u64) -> (r: u64)
        requires
            old(self)@.current_size >= size,
            old(self)@.oldest_token < u64::MAX,
        ensures
            r == size,
            final(self)@ == (StoreView {
                current_size: (old(self)@.current_size - size) as u64,
                oldest_token: (old(self)@.oldest_token + 1) as u64,
                ..old(self)@
            }),
    {
        self.current_size = self.current_size - size;
        self.oldest_token = self.oldest_token + 1;
        size
    }

    /// Takes the token for a file of `size` bytes that is moved in. Once no
    /// file needs to be deleted for it, the store stays within its limit.
    pub fn take_token(&mut self, size: u64) -> (token: u64)
        requires
            old(self)@.current_size + size <= u64::MAX,
            old(self)@.current_token < u64::MAX,
        ensures
            token == old(self)@.current_token,
            final(self)@ == (StoreView {
                current_size: (old(self)@.current_size + size) as u64,
                current_token: (old(self)@.current_token + 1) as u64,
                ..old(self)@
            }),
            old(self)@.current_size + size <= old(self)@.max_size ==> final(self)@.current_size
                <= final(self)@.max_size,
    {
        let token = self.current_token;
        self.current_token = self.current_token + 1;
        self.current_size = self.current_size + size;
        token
    }

    pub fn current_size(&self) -> (r: u64)
        ensures
            r == self@.current_size,
    {
        self.current_size
    }

    pub fn oldest_token(&self) -> (r: u64)
        ensures
            r == self@.oldest_token,
    {
        self.oldest_token
    }

    pub fn current_token(&self) -> (r: u64)
        ensures
            r == self@.current_token,
    {
        self.current_token
    }

    /// Where the file kept under `token` is.
    pub fn stored_file(&self, token: u64) -> (r: Vec<u8>)
        ensures
            r@ == self@.vfsroot + stored_path(token),
    {
        let mut r = copy_bytes(&self.vfsroot);
        let mut tail = filestore_path(token);
        r.append(&mut tail);
        r
    }
}

proof fn lemma_total_prefix(s: Seq<u64>, k: int)
    requires
        0 <= k <= s.len(),
    ensures
        total(s.subrange(0, k)) <= total(s),
    decreases s.len() - k,
{
    if k < s.len() {
        lemma_total_prefix(s, k + 1);
        assert(s.subrange(0, k + 1).drop_last() =~= s.subrange(0, k));
    } else {
        assert(s.subrange(0, k) =~= s);
    }
}

/// The operation that brings the file kept under `token` back to `path`: a
/// hard link from the store, owned as the kept file is.
pub fn recover_call(token: u64, path: &Vec<u8>, uid: u32, gid: u32) -> (r: VFSCall)
    ensures
        r@ == (CallView::link { from: stored_path(token), to: path@, security: SecurityView::Unix { uid, gid } }),
{
    VFSCall::link { from: filestore_path(token), to: copy_bytes(path), security: FileSecurity::Unix { uid, gid } }
}

} // verus!

//! Bidirectional journal entries.
//!
//! An entry records what an operation changed so that it can be replayed in
//! either direction. For an attribute change it keeps the exclusive or of the
//! old and new values, and of their checksums: applied to a file that is in
//! either of the two states, it yields the operation that takes the file to
//! the other state, and the checksum tells whether the file was in one of them
//! at all. For a creation or removal it keeps what is needed to recreate the
//! object, and applying it creates or removes depending on whether the object
//! exists.
//!
//! Each kind has a `New` form (taken from the operation), an `Old` form (taken
//! from the file as it is), and the `Xor` form combining the two that goes
//! into the journal. Reading the current state of a file is done by the
//! caller, which hands the values it found to the `old` constructors.
use crate::codec::{checksum_ieee, crc32_ieee, u32_le_bytes, u64_le_bytes};
use crate::vfs::{copy_bytes, CallView, FileSecurity, SecurityView, Timespec, VFSCall};
use std::marker::PhantomData;
use vstd::bytes::*;
use vstd::prelude::*;

verus! {

/// Marks the form of a bidirectional entry.
pub trait BilogState {}

/// The state of a file before an operation, read from the file.
pub struct Old;

/// The state of a file as an operation sets it.
pub struct New;

/// The combination of the two, as stored in the journal.
pub struct Xor;

impl BilogState for Old {}

impl BilogState for New {}

impl BilogState for Xor {}

/// Why an entry could not be applied.
#[derive(Clone, Copy, Debug, PartialEq, Eq)]
pub enum BilogError {
    /// The file is in neither of the two states that the entry connects.
    ChecksumMismatch,
}

pub open spec fn le32(x: u32) -> Seq<u8> {
    spec_u32_to_le_bytes(x)
}

pub open spec fn le64(x: u64) -> Seq<u8> {
    spec_u64_to_le_bytes(x)
}

/// A byte string as it is fed to the checksum: its length, then its bytes.
pub open spec fn hashed_bytes(b: Seq<u8>) -> Seq<u8> {
    le64(b.len() as u64) + b
}

pub open spec fn chmod_sum(mode: u32) -> u32 {
    crc32_ieee(le32(mode))
}

pub open spec fn chown_sum(uid: u32, gid: u32) -> u32 {
    crc32_ieee(le32(uid) + le32(gid))
}

pub open spec fn times_bytes(t: Seq<Timespec>) -> Seq<u8> {
    le64(3) + le64(t[0].high as u64) + le64(t[0].low as u64) + le64(t[1].high as u64) + le64(
        t[1].low as u64,
    ) + le64(t[2].high as u64) + le64(t[2].low as u64)
}

pub open spec fn utimens_sum(t: Seq<Timespec>) -> u32 {
    crc32_ieee(times_bytes(t))
}

/// Checksum of file contents together with a size.
pub open spec fn data_sum(buf: Seq<u8>, size: i64) -> u32 {
    crc32_ieee(hashed_bytes(buf) + le64(size as u64))
}

pub open spec fn xattr_bytes(value: Option<Seq<u8>>) -> Seq<u8> {
    match value {
        None => le64(0),
        Some(v) => le64(1) + hashed_bytes(v),
    }
}

pub open spec fn xattr_sum(value: Option<Seq<u8>>) -> u32 {
    crc32_ieee(xattr_bytes(value))
}

/// `a` with its first `b.len()` bytes combined with `b` by exclusive or.
pub open spec fn xor_prefix(a: Seq<u8>, b: Seq<u8>) -> Seq<u8> {
    Seq::new(a.len(), |i: int| if i < b.len() { a[i] ^ b[i] } else { a[i] })
}

pub open spec fn xor_time(a: Timespec, b: Timespec) -> Timespec {
    Timespec { high: a.high ^ b.high, low: a.low ^ b.low }
}

pub open spec fn xor_times(a: Seq<Timespec>, b: Seq<Timespec>) -> Seq<Timespec> {
    seq![xor_time(a[0], b[0]), xor_time(a[1], b[1]), xor_time(a[2], b[2])]
}

pub open spec fn unix_security(uid: u32, gid: u32) -> SecurityView {
    SecurityView::Unix { uid, gid }
}

pub open spec fn result_view(r: Result<VFSCall, BilogError>) -> Result<CallView, BilogError> {
    match r {
        Ok(c) => Ok(c@),
        Err(e) => Err(e),
    }
}

/// The longer of two buffers, with the shorter one combined into its start
/// by exclusive or (the first when they are as long).
pub fn xor_largest_buf(new: Vec<u8>, old_buf: Vec<u8>) -> (r: Vec<u8>)
    ensures
        r@ == if new@.len() >= old_buf@.len() {
            xor_prefix(new@, old_buf@)
        } else {
            xor_prefix(old_buf@, new@)
        },
{
    let mut new = new;
    let mut old_buf = old_buf;
    if new.len() >= old_buf.len() {
        xor_buf(&mut new, old_buf.as_slice());
        new
    } else {
        xor_buf(&mut old_buf, new.as_slice());
        old_buf
    }
}

/// Combines the first `prev.len()` bytes of `new` with `prev` by exclusive or.
pub fn xor_buf(new: &mut Vec<u8>, prev: &[u8])
    requires
        old(new)@.len() >= prev@.len(),
    ensures
        final(new)@ == xor_prefix(old(new)@, prev@),
{
    let ghost orig = new@;
    let mut i: usize = 0;
    while i < prev.len()
        invariant
            new@.len() == orig.len(),
            orig.len() >= prev@.len(),
            0 <= i <= prev@.len(),
            forall|k: int| 0 <= k < i ==> new@[k] == orig[k] ^ prev@[k],
            forall|k: int| i <= k < orig.len() ==> new@[k] == orig[k],
        decreases prev@.len() - i,
    {
        let v = new[i] ^ prev[i];
        new.set(i, v);
        i += 1;
    }
    assert(new@ =~= xor_prefix(orig, prev@));
}

fn append_bytes(v: &mut Vec<u8>, b: Vec<u8>)
    ensures
        final(v)@ == old(v)@ + b@,
{
    let mut b = b;
    v.append(&mut b);
}

fn hashed_vec(b: &[u8]) -> (r: Vec<u8>)
    ensures
        r@ == hashed_bytes(b@),
{
    let mut r = u64_le_bytes(b.len() as u64);
    let mut i: usize = 0;
    while i < b.len()
        invariant
            0 <= i <= b@.len(),
            r@ == le64(b@.len() as u64) + b@.subrange(0, i as int),
        decreases b@.len() - i,
    {
        r.push(b[i]);
        i += 1;
        assert(b@.subrange(0, i as int) =~= b@.subrange(0, i - 1).push(b@[i - 1]));
    }
    assert(b@.subrange(0, b@.len() as int) =~= b@);
    r
}

fn chmod_checksum(mode: u32) -> (r: u32)
    ensures
        r == chmod_sum(mode),
{
    let b = u32_le_bytes(mode);
    checksum_ieee(b.as_slice())
}

fn chown_checksum(uid: u32, gid: u32) -> (r: u32)
    ensures
        r == chown_sum(uid, gid),
{
    let mut b = u32_le_bytes(uid);
    append_bytes(&mut b, u32_le_bytes(gid));
    checksum_ieee(b.as_slice())
}

fn utimens_checksum(t: &[Timespec; 3]) -> (r: u32)
    ensures
        r == utimens_sum(t@),
{
    let mut b = u64_le_bytes(3);
    append_bytes(&mut b, u64_le_bytes(t[0].high as u64));
    append_bytes(&mut b, u64_le_bytes(t[0].low as u64));
    append_bytes(&mut b, u64_le_bytes(t[1].high as u64));
    append_bytes(&mut b, u64_le_bytes(t[1].low as u64));
    append_bytes(&mut b, u64_le_bytes(t[2].high as u64));
    append_bytes(&mut b, u64_le_bytes(t[2].low as u64));
    checksum_ieee(b.as_slice())
}

fn data_checksum(buf: &[u8], size: i64) -> (r: u32)
    ensures
        r == data_sum(buf@, size),
{
    let mut b = hashed_vec(buf);
    append_bytes(&mut b, u64_le_bytes(size as u64));
    checksum_ieee(b.as_slice())
}

fn xattr_checksum(value: &Option<Vec<u8>>) -> (r: u32)
    ensures
        r == xattr_sum(match value {
            Some(v) => Some(v@),
            None => None,
        }),
{
    match value {
        None => {
            let b = u64_le_bytes(0);
            checksum_ieee(b.as_slice())
        },
        Some(v) => {
            let mut b = u64_le_bytes(1);
            append_bytes(&mut b, hashed_vec(v.as_slice()));
            checksum_ieee(b.as_slice())
        },
    }
}

proof fn lemma_xor_u32(a: u32, b: u32)
    by (bit_vector)
    ensures
        (b ^ a) ^ a == b,
        (b ^ a) ^ b == a,
        a ^ b == b ^ a,
{
}

proof fn lemma_xor_i64(a: i64, b: i64)
    by (bit_vector)
    ensures
        (b ^ a) ^ a == b,
        (b ^ a) ^ b == a,
        a ^ b == b ^ a,
{
}

// ---------------------------------------------------------------------------
// chmod

/// A permission change.
pub struct bilog_chmod<S: BilogState> {
    pub path: Vec<u8>,
    pub mode: u32,
    pub checksum: u32,
    pub s: PhantomData<S>,
}

pub struct ChmodView {
    pub path: Seq<u8>,
    pub mode: u32,
    pub checksum: u32,
}

impl<S: BilogState> View for bilog_chmod<S> {
    type V = ChmodView;

    open spec fn view(&self) -> ChmodView {
        ChmodView { path: self.path@, mode: self.mode, checksum: self.checksum }
    }
}

pub open spec fn chmod_state(path: Seq<u8>, mode: u32) -> ChmodView {
    ChmodView { path, mode, checksum: chmod_sum(mode) }
}

pub open spec fn spec_chmod_xor(o: ChmodView, n: ChmodView) -> ChmodView {
    ChmodView { path: n.path, mode: n.mode ^ o.mode, checksum: n.checksum ^ o.checksum }
}

pub open spec fn spec_chmod_apply(x: ChmodView, o: ChmodView) -> Result<CallView, BilogError> {
    if chmod_sum(x.mode ^ o.mode) ^ o.checksum != x.checksum {
        Err(BilogError::ChecksumMismatch)
    } else {
        Ok(CallView::chmod { path: x.path, mode: x.mode ^ o.mode })
    }
}

impl bilog_chmod<Xor> {
    /// The state a `chmod` sets.
    pub fn new(call: &VFSCall) -> (n: bilog_chmod<New>)
        requires
            call@ is chmod,
        ensures
            match call@ {
                CallView::chmod { path, mode } => n@ == chmod_state(path, mode),
                _ => false,
            },
    {
        match call {
            VFSCall::chmod { path, mode } => bilog_chmod {
                path: copy_bytes(path),
                mode: *mode,
                checksum: chmod_checksum(*mode),
                s: PhantomData,
            },
            _ => vstd::pervasive::unreached(),
        }
    }

    /// The current state of a file whose mode is `st_mode`.
    pub fn old_state(path: Vec<u8>, st_mode: u32) -> (o: bilog_chmod<Old>)
        ensures
            o@ == chmod_state(path@, st_mode),
    {
        bilog_chmod { path, mode: st_mode, checksum: chmod_checksum(st_mode), s: PhantomData }
    }

    pub fn xor(o: &bilog_chmod<Old>, n: &bilog_chmod<New>) -> (x: Self)
        ensures
            x@ == spec_chmod_xor(o@, n@),
    {
        bilog_chmod {
            path: copy_bytes(&n.path),
            mode: n.mode ^ o.mode,
            checksum: n.checksum ^ o.checksum,
            s: PhantomData,
        }
    }

    /// The operation that takes a file in state `o` to the other state.
    pub fn apply(x: &Self, o: &bilog_chmod<Old>) -> (r: Result<VFSCall, BilogError>)
        ensures
            result_view(r) == spec_chmod_apply(x@, o@),
    {
        if chmod_checksum(x.mode ^ o.mode) ^ o.checksum != x.checksum {
            return Err(BilogError::ChecksumMismatch);
        }
        Ok(VFSCall::chmod { path: copy_bytes(&x.path), mode: x.mode ^ o.mode })
    }
}

/// A permission change can be replayed forward from the old mode and backward
/// from the new one.
pub proof fn lemma_chmod_bidirectional(path: Seq<u8>, a: u32, b: u32)
    ensures
        ({
            let x = spec_chmod_xor(chmod_state(path, a), chmod_state(path, b));
            &&& spec_chmod_apply(x, chmod_state(path, a)) == Ok::<CallView, BilogError>(
                CallView::chmod { path, mode: b },
            )
            &&& spec_chmod_apply(x, chmod_state(path, b)) == Ok::<CallView, BilogError>(
                CallView::chmod { path, mode: a },
            )
        }),
{
    lemma_xor_u32(a, b);
    lemma_xor_u32(chmod_sum(a), chmod_sum(b));
}

// ---------------------------------------------------------------------------
// chown

/// An ownership change.
pub struct bilog_chown<S: BilogState> {
    pub path: Vec<u8>,
    pub uid: u32,
    pub gid: u32,
    pub checksum: u32,
    pub s: PhantomData<S>,
}

pub struct ChownView {
    pub path: Seq<u8>,
    pub uid: u32,
    pub gid: u32,
    pub checksum: u32,
}

impl<S: BilogState> View for bilog_chown<S> {
    type V = ChownView;

    open spec fn view(&self) -> ChownView {
        ChownView { path: self.path@, uid: self.uid, gid: self.gid, checksum: self.checksum }
    }
}

pub open spec fn chown_state(path: Seq<u8>, uid: u32, gid: u32) -> ChownView {
    ChownView { path, uid, gid, checksum: chown_sum(uid, gid) }
}

pub open spec fn spec_chown_xor(o: ChownView, n: ChownView) -> ChownView {
    ChownView {
        path: n.path,
        uid: n.uid ^ o.uid,
        gid: n.gid ^ o.gid,
        checksum: n.checksum ^ o.checksum,
    }
}

pub open spec fn spec_chown_apply(x: ChownView, o: ChownView) -> Result<CallView, BilogError> {
    if chown_sum(x.uid ^ o.uid, x.gid ^ o.gid) ^ o.checksum != x.checksum {
        Err(BilogError::ChecksumMismatch)
    } else {
        Ok(
            CallView::security {
                path: x.path,
                security: unix_security(x.uid ^ o.uid, x.gid ^ o.gid),
            },
        )
    }
}

impl bilog_chown<Xor> {
    /// The state an ownership change sets; only Unix ownership is journaled.
    pub fn new(call: &VFSCall) -> (n: bilog_chown<New>)
        requires
            call@ matches CallView::security { security: SecurityView::Unix { .. }, .. },
        ensures
            match call@ {
                CallView::security { path, security: SecurityView::Unix { uid, gid } } => n@
                    == chown_state(path, uid, gid),
                _ => false,
            },
    {
        match call {
            VFSCall::security { path, security: FileSecurity::Unix { uid, gid } } => bilog_chown {
                path: copy_bytes(path),
                uid: *uid,
                gid: *gid,
                checksum: chown_checksum(*uid, *gid),
                s: PhantomData,
            },
            _ => vstd::pervasive::unreached(),
        }
    }

    /// The current state of a file owned by `st_uid` and `st_gid`.
    pub fn old_state(path: Vec<u8>, st_uid: u32, st_gid: u32) -> (o: bilog_chown<Old>)
        ensures
            o@ == chown_state(path@, st_uid, st_gid),
    {
        bilog_chown {
            path,
            uid: st_uid,
            gid: st_gid,
            checksum: chown_checksum(st_uid, st_gid),
            s: PhantomData,
        }
    }

    pub fn xor(o: &bilog_chown<Old>, n: &bilog_chown<New>) -> (x: Self)
        ensures
            x@ == spec_chown_xor(o@, n@),
    {
        bilog_chown {
            path: copy_bytes(&n.path),
            uid: n.uid ^ o.uid,
            gid: n.gid ^ o.gid,
            checksum: n.checksum ^ o.checksum,
            s: PhantomData,
        }
    }

    /// The operation that takes a file in state `o` to the other state.
    pub fn apply(x: &Self, o: &bilog_chown<Old>) -> (r: Result<VFSCall, BilogError>)
        ensures
            result_view(r) == spec_chown_apply(x@, o@),
    {
        if chown_checksum(x.uid ^ o.uid, x.gid ^ o.gid) ^ o.checksum != x.checksum {
            return Err(BilogError::ChecksumMismatch);
        }
        Ok(
            VFSCall::security {
                path: copy_bytes(&x.path),
                security: FileSecurity::Unix { uid: x.uid ^ o.uid, gid: x.gid ^ o.gid },
            },
        )
    }
}

/// An ownership change can be replayed forward from the old owner and backward
/// from the new one.
pub proof fn lemma_chown_bidirectional(path: Seq<u8>, u1: u32, g1: u32, u2: u32, g2: u32)
    ensures
        ({
            let x = spec_chown_xor(chown_state(path, u1, g1), chown_state(path, u2, g2));
            &&& spec_chown_apply(x, chown_state(path, u1, g1)) == Ok::<CallView, BilogError>(
                CallView::security { path, security: unix_security(u2, g2) },
            )
            &&& spec_chown_apply(x, chown_state(path, u2, g2)) == Ok::<CallView, BilogError>(
                CallView::security { path, security: unix_security(u1, g1) },
            )
        }),
{
    lemma_xor_u32(u1, u2);
    lemma_xor_u32(g1, g2);
    lemma_xor_u32(chown_sum(u1, g1), chown_sum(u2, g2));
}

// ---------------------------------------------------------------------------
// utimens

/// A change of access and modification times.
pub struct bilog_utimens<S: BilogState> {
    pub path: Vec<u8>,
    pub timespec: [Timespec; 3],
    pub checksum: u32,
    pub s: PhantomData<S>,
}

pub struct UtimensView {
    pub path: Seq<u8>,
    pub timespec: Seq<Timespec>,
    pub checksum: u32,
}

impl<S: BilogState> View for bilog_utimens<S> {
    type V = UtimensView;

    open spec fn view(&self) -> UtimensView {
        UtimensView { path: self.path@, timespec: self.timespec@, checksum: self.checksum }
    }
}

pub open spec fn utimens_state(path: Seq<u8>, t: Seq<Timespec>) -> UtimensView {
    UtimensView { path, timespec: t, checksum: utimens_sum(t) }
}

pub open spec fn spec_utimens_xor(o: UtimensView, n: UtimensView) -> UtimensView {
    UtimensView {
        path: n.path,
        timespec: xor_times(n.timespec, o.timespec),
        checksum: n.checksum ^ o.checksum,
    }
}

pub open spec fn spec_utimens_apply(x: UtimensView, o: UtimensView) -> Result<
    CallView,
    BilogError,
> {
    if utimens_sum(xor_times(x.timespec, o.timespec)) ^ o.checksum != x.checksum {
        Err(BilogError::ChecksumMismatch)
    } else {
        Ok(CallView::utimens { path: x.path, timespec: xor_times(x.timespec, o.timespec) })
    }
}

fn xor_time_array(a: &[Timespec; 3], b: &[Timespec; 3]) -> (r: [Timespec; 3])
    ensures
        r@ == xor_times(a@, b@),
{
    let r = [a[0].bitxor(b[0]), a[1].bitxor(b[1]), a[2].bitxor(b[2])];
    assert(r@ =~= xor_times(a@, b@));
    r
}

impl bilog_utimens<Xor> {
    /// The times a `utimens` sets.
    pub fn new(call: &VFSCall) -> (n: bilog_utimens<New>)
        requires
            call@ is utimens,
        ensures
            match call@ {
                CallView::utimens { path, timespec } => n@ == utimens_state(path, timespec),
                _ => false,
            },
    {
        match call {
            VFSCall::utimens { path, timespec } => {
                let t = *timespec;
                bilog_utimens {
                    path: copy_bytes(path),
                    timespec: t,
                    checksum: utimens_checksum(&t),
                    s: PhantomData,
                }
            },
            _ => vstd::pervasive::unreached(),
        }
    }

    /// The current state of a file with access time `atime` and modification
    /// time `mtime`; the third time stays zero.
    pub fn old_state(path: Vec<u8>, atime: Timespec, mtime: Timespec) -> (o: bilog_utimens<Old>)
        ensures
            o@ == utimens_state(path@, seq![atime, mtime, Timespec { high: 0, low: 0 }]),
    {
        let t = [atime, mtime, Timespec { high: 0, low: 0 }];
        assert(t@ =~= seq![atime, mtime, Timespec { high: 0, low: 0 }]);
        bilog_utimens { path, timespec: t, checksum: utimens_checksum(&t), s: PhantomData }
    }

    pub fn xor(o: &bilog_utimens<Old>, n: &bilog_utimens<New>) -> (x: Self)
        ensures
            x@ == spec_utimens_xor(o@, n@),
    {
        bilog_utimens {
            path: copy_bytes(&n.path),
            timespec: xor_time_array(&n.timespec, &o.timespec),
            checksum: n.checksum ^ o.checksum,
            s: PhantomData,
        }
    }

    /// The operation that takes a file in state `o` to the other state.
    pub fn apply(x: &Self, o: &bilog_utimens<Old>) -> (r: Result<VFSCall, BilogError>)
        ensures
            result_view(r) == spec_utimens_apply(x@, o@),
    {
        let t = xor_time_array(&x.timespec, &o.timespec);
        if utimens_checksum(&t) ^ o.checksum != x.checksum {
            return Err(BilogError::ChecksumMismatch);
        }
        Ok(VFSCall::utimens { path: copy_bytes(&x.path), timespec: t })
    }
}

proof fn lemma_xor_times(a: Seq<Timespec>, b: Seq<Timespec>)
    requires
        a.len() == 3,
        b.len() == 3,
    ensures
        xor_times(xor_times(b, a), a) == b,
        xor_times(xor_times(b, a), b) == a,
{
    assert forall|i: int| 0 <= i < 3 implies xor_time(xor_time(b[i], a[i]), a[i]) == b[i]
        && xor_time(xor_time(b[i], a[i]), b[i]) == a[i] by {
        lemma_xor_i64(a[i].high, b[i].high);
        lemma_xor_i64(a[i].low, b[i].low);
    }
    assert(xor_times(xor_times(b, a), a) =~= b);
    assert(xor_times(xor_times(b, a), b) =~= a);
}

/// A time change can be replayed forward from the old times and backward from
/// the new ones.
pub proof fn lemma_utimens_bidirectional(path: Seq<u8>, a: Seq<Timespec>, b: Seq<Timespec>)
    requires
        a.len() == 3,
        b.len() == 3,
    ensures
        ({
            let x = spec_utimens_xor(utimens_state(path, a), utimens_state(path, b));
            &&& spec_utimens_apply(x, utimens_state(path, a)) == Ok::<CallView, BilogError>(
                CallView::utimens { path, timespec: b },
            )
            &&& spec_utimens_apply(x, utimens_state(path, b)) == Ok::<CallView, BilogError>(
                CallView::utimens { path, timespec: a },
            )
        }),
{
    lemma_xor_times(a, b);
    lemma_xor_u32(utimens_sum(a), utimens_sum(b));
}

// ---------------------------------------------------------------------------
// rename

/// A rename; it is replayed as the same rename.
pub struct bilog_rename<S: BilogState> {
    pub from: Vec<u8>,
    pub to: Vec<u8>,
    pub from_exists: bool,
    pub s: PhantomData<S>,
}

pub struct RenameView {
    pub from: Seq<u8>,
    pub to: Seq<u8>,
    pub from_exists: bool,
}

impl<S: BilogState> View for bilog_rename<S> {
    type V = RenameView;

    open spec fn view(&self) -> RenameView {
        RenameView { from: self.from@, to: self.to@, from_exists: self.from_exists }
    }
}

pub open spec fn spec_rename_apply(x: RenameView, o: RenameView) -> Result<CallView, BilogError> {
    if o.from_exists {
        Ok(CallView::rename { from: x.from, to: x.to, flags: 0 })
    } else {
        Ok(CallView::rename { from: x.to, to: x.from, flags: 0 })
    }
}

impl bilog_rename<Xor> {
    /// The entry for a rename of `from` to `to`.
    pub fn record(from: &Vec<u8>, to: &Vec<u8>) -> (x: Self)
        ensures
            x@ == (RenameView { from: from@, to: to@, from_exists: true }),
    {
        bilog_rename { from: copy_bytes(from), to: copy_bytes(to), from_exists: true, s: PhantomData }
    }

    /// The state of the two names; the source is always taken to exist.
    pub fn old_state(from: Vec<u8>, to: Vec<u8>) -> (o: bilog_rename<Old>)
        ensures
            o@ == (RenameView { from: from@, to: to@, from_exists: true }),
    {
        bilog_rename { from, to, from_exists: true, s: PhantomData }
    }

    pub fn apply(x: &Self, o: &bilog_rename<Old>) -> (r: Result<VFSCall, BilogError>)
        ensures
            result_view(r) == spec_rename_apply(x@, o@),
    {
        if o.from_exists {
            Ok(VFSCall::rename { from: copy_bytes(&x.from), to: copy_bytes(&x.to), flags: 0 })
        } else {
            Ok(VFSCall::rename { from: copy_bytes(&x.to), to: copy_bytes(&x.from), flags: 0 })
        }
    }
}

// ---------------------------------------------------------------------------
// dir

/// Creation or removal of a directory.
pub struct bilog_dir<S: BilogState> {
    pub path: Vec<u8>,
    pub mode: u32,
    pub dir_exists: bool,
    pub uid: u32,
    pub gid: u32,
    pub s: PhantomData<S>,
}

pub struct DirView {
    pub path: Seq<u8>,
    pub mode: u32,
    pub dir_exists: bool,
    pub uid: u32,
    pub gid: u32,
}

impl<S: BilogState> View for bilog_dir<S> {
    type V = DirView;

    open spec fn view(&self) -> DirView {
        DirView {
            path: self.path@,
            mode: self.mode,
            dir_exists: self.dir_exists,
            uid: self.uid,
            gid: self.gid,
        }
    }
}

/// The state `rmdir` leaves, as far as the entry needs it.
pub open spec fn dir_removed(path: Seq<u8>) -> DirView {
    DirView { path, mode: 0, dir_exists: true, uid: 0, gid: 0 }
}

pub open spec fn dir_state(path: Seq<u8>, st: Option<(u32, u32, u32)>) -> DirView {
    match st {
        Some(t) => DirView { path, mode: t.0, dir_exists: true, uid: t.1, gid: t.2 },
        None => DirView { path, mode: 0, dir_exists: false, uid: 0, gid: 0 },
    }
}

pub open spec fn spec_dir_xor(o: DirView, n: DirView) -> DirView {
    DirView {
        path: o.path,
        mode: o.mode ^ n.mode,
        dir_exists: true,
        uid: o.uid ^ n.uid,
        gid: o.gid ^ n.gid,
    }
}

pub open spec fn spec_dir_apply(x: DirView, o: DirView) -> Result<CallView, BilogError> {
    if o.dir_exists {
        Ok(CallView::rmdir { path: x.path })
    } else {
        Ok(
            CallView::mkdir {
                path: x.path,
                security: unix_security(x.uid, x.gid),
                mode: x.mode,
            },
        )
    }
}

impl bilog_dir<Xor> {
    pub fn new(call: &VFSCall) -> (n: bilog_dir<New>)
        requires
            call@ is rmdir,
        ensures
            match call@ {
                CallView::rmdir { path } => n@ == dir_removed(path),
                _ => false,
            },
    {
        match call {
            VFSCall::rmdir { path } => bilog_dir {
                path: copy_bytes(path),
                mode: 0,
                uid: 0,
                gid: 0,
                dir_exists: true,
                s: PhantomData,
            },
            _ => vstd::pervasive::unreached(),
        }
    }

    /// The entry for a directory created with these attributes.
    pub fn record(path: &Vec<u8>, mode: u32, uid: u32, gid: u32) -> (x: Self)
        ensures
            x@ == (DirView { path: path@, mode, dir_exists: true, uid, gid }),
    {
        bilog_dir { path: copy_bytes(path), mode, uid, gid, dir_exists: true, s: PhantomData }
    }

    /// The current state of a directory: `st` holds its mode, owner and group,
    /// or is `None` when there is nothing at `path`.
    pub fn old_state(path: Vec<u8>, st: Option<(u32, u32, u32)>) -> (o: bilog_dir<Old>)
        ensures
            o@ == dir_state(path@, st),
    {
        match st {
            Some((mode, uid, gid)) => bilog_dir {
                path,
                mode,
                uid,
                gid,
                dir_exists: true,
                s: PhantomData,
            },
            None => bilog_dir { path, mode: 0, uid: 0, gid: 0, dir_exists: false, s: PhantomData },
        }
    }

    pub fn xor(o: &bilog_dir<Old>, n: &bilog_dir<New>) -> (x: Self)
        ensures
            x@ == spec_dir_xor(o@, n@),
    {
        bilog_dir {
            path: copy_bytes(&o.path),
            mode: o.mode ^ n.mode,
            uid: o.uid ^ n.uid,
            gid: o.gid ^ n.gid,
            dir_exists: true,
            s: PhantomData,
        }
    }

    /// Removes the directory when it exists, recreates it when it does not.
    pub fn apply(x: &Self, o: &bilog_dir<Old>) -> (r: Result<VFSCall, BilogError>)
        ensures
            result_view(r) == spec_dir_apply(x@, o@),
    {
        if o.dir_exists {
            Ok(VFSCall::rmdir { path: copy_bytes(&x.path) })
        } else {
            Ok(
                VFSCall::mkdir {
                    path: copy_bytes(&x.path),
                    security: FileSecurity::Unix { uid: x.uid, gid: x.gid },
                    mode: x.mode,
                },
            )
        }
    }
}

proof fn lemma_xor_zero(a: u32)
    by (bit_vector)
    ensures
        a ^ 0 == a,
{
}

/// A removed directory is recreated with the mode and ownership it had, and
/// removed again when it exists.
pub proof fn lemma_dir_toggle(path: Seq<u8>, mode: u32, uid: u32, gid: u32, other: DirView)
    requires
        other.dir_exists,
    ensures
        ({
            let x = spec_dir_xor(dir_state(path, Some((mode, uid, gid))), dir_removed(path));
            &&& spec_dir_apply(x, dir_state(path, None)) == Ok::<CallView, BilogError>(
                CallView::mkdir { path, security: unix_security(uid, gid), mode },
            )
            &&& spec_dir_apply(x, other) == Ok::<CallView, BilogError>(CallView::rmdir { path })
        }),
{
    lemma_xor_zero(mode);
    lemma_xor_zero(uid);
    lemma_xor_zero(gid);
}

// ---------------------------------------------------------------------------
// symlink and link

/// Creation or removal of a symbolic link `to` pointing at `from`.
pub struct bilog_symlink<S: BilogState> {
    pub from: Vec<u8>,
    pub to: Vec<u8>,
    pub to_exists: bool,
    pub uid: u32,
    pub gid: u32,
    pub s: PhantomData<S>,
}

/// Creation or removal of a hard link `to` of the file `from`.
pub struct bilog_link<S: BilogState> {
    pub from: Vec<u8>,
    pub to: Vec<u8>,
    pub to_exists: bool,
    pub uid: u32,
    pub gid: u32,
    pub s: PhantomData<S>,
}

pub struct LinkView {
    pub from: Seq<u8>,
    pub to: Seq<u8>,
    pub to_exists: bool,
    pub uid: u32,
    pub gid: u32,
}

impl<S: BilogState> View for bilog_symlink<S> {
    type V = LinkView;

    open spec fn view(&self) -> LinkView {
        LinkView {
            from: self.from@,
            to: self.to@,
            to_exists: self.to_exists,
            uid: self.uid,
            gid: self.gid,
        }
    }
}

impl<S: BilogState> View for bilog_link<S> {
    type V = LinkView;

    open spec fn view(&self) -> LinkView {
        LinkView {
            from: self.from@,
            to: self.to@,
            to_exists: self.to_exists,
            uid: self.uid,
            gid: self.gid,
        }
    }
}

/// The state an `unlink` of `to` leaves, as far as the entry needs it.
pub open spec fn link_removed(to: Seq<u8>) -> LinkView {
    LinkView { from: seq![], to, to_exists: true, uid: 0, gid: 0 }
}

/// `st` holds the link's target, owner and group, or is `None` when there is
/// nothing at `to`.
pub open spec fn link_state(to: Seq<u8>, st: Option<(Seq<u8>, u32, u32)>) -> LinkView {
    match st {
        Some(t) => LinkView { from: t.0, to, to_exists: true, uid: t.1, gid: t.2 },
        None => LinkView { from: seq![], to, to_exists: false, uid: 0, gid: 0 },
    }
}

pub open spec fn spec_link_xor(o: LinkView, n: LinkView) -> LinkView {
    LinkView {
        from: if o.to_exists {
            o.from
        } else {
            n.from
        },
        to: o.to,
        to_exists: true,
        uid: o.uid ^ n.uid,
        gid: o.gid ^ n.gid,
    }
}

pub open spec fn spec_symlink_apply(x: LinkView, o: LinkView) -> Result<CallView, BilogError> {
    if o.to_exists {
        Ok(CallView::unlink { path: x.to })
    } else {
        Ok(CallView::symlink { from: x.from, to: x.to, security: unix_security(x.uid, x.gid) })
    }
}

pub open spec fn spec_link_apply(x: LinkView, o: LinkView) -> Result<CallView, BilogError> {
    if o.to_exists {
        Ok(CallView::unlink { path: x.to })
    } else {
        Ok(CallView::link { from: x.from, to: x.to, security: unix_security(x.uid, x.gid) })
    }
}

pub open spec fn opt_link_view(st: Option<(Vec<u8>, u32, u32)>) -> Option<(Seq<u8>, u32, u32)> {
    match st {
        Some(t) => Some((t.0@, t.1, t.2)),
        None => None,
    }
}

impl bilog_symlink<Xor> {
    pub fn new(call: &VFSCall) -> (n: bilog_symlink<New>)
        requires
            call@ is unlink,
        ensures
            match call@ {
                CallView::unlink { path } => n@ == link_removed(path),
                _ => false,
            },
    {
        match call {
            VFSCall::unlink { path } => bilog_symlink {
                from: Vec::new(),
                to: copy_bytes(path),
                uid: 0,
                gid: 0,
                to_exists: true,
                s: PhantomData,
            },
            _ => vstd::pervasive::unreached(),
        }
    }

    /// The entry for a symbolic link created with this owner.
    pub fn record(from: &Vec<u8>, to: &Vec<u8>, uid: u32, gid: u32) -> (x: Self)
        ensures
            x@ == (LinkView { from: from@, to: to@, to_exists: true, uid, gid }),
    {
        bilog_symlink {
            from: copy_bytes(from),
            to: copy_bytes(to),
            uid,
            gid,
            to_exists: true,
            s: PhantomData,
        }
    }

    /// The current state at `to`: `st` holds the link's target, owner and
    /// group, or is `None` when there is nothing there.
    pub fn old_state(to: Vec<u8>, st: Option<(Vec<u8>, u32, u32)>) -> (o: bilog_symlink<Old>)
        ensures
            o@ == link_state(to@, opt_link_view(st)),
    {
        match st {
            Some((from, uid, gid)) => bilog_symlink {
                from,
                to,
                uid,
                gid,
                to_exists: true,
                s: PhantomData,
            },
            None => bilog_symlink {
                from: Vec::new(),
                to,
                uid: 0,
                gid: 0,
                to_exists: false,
                s: PhantomData,
            },
        }
    }

    pub fn xor(o: &bilog_symlink<Old>, n: &bilog_symlink<New>) -> (x: Self)
        ensures
            x@ == spec_link_xor(o@, n@),
    {
        bilog_symlink {
            from: if o.to_exists {
                copy_bytes(&o.from)
            } else {
                copy_bytes(&n.from)
            },
            to: copy_bytes(&o.to),
            to_exists: true,
            uid: o.uid ^ n.uid,
            gid: o.gid ^ n.gid,
            s: PhantomData,
        }
    }

    /// Removes the link when it exists, recreates it when it does not.
    pub fn apply(x: &Self, o: &bilog_symlink<Old>) -> (r: Result<VFSCall, BilogError>)
        ensures
            result_view(r) == spec_symlink_apply(x@, o@),
    {
        if o.to_exists {
            Ok(VFSCall::unlink { path: copy_bytes(&x.to) })
        } else {
            Ok(
                VFSCall::symlink {
                    from: copy_bytes(&x.from),
                    to: copy_bytes(&x.to),
                    security: FileSecurity::Unix { uid: x.uid, gid: x.gid },
                },
            )
        }
    }
}

impl bilog_link<Xor> {
    pub fn new(call: &VFSCall) -> (n: bilog_link<New>)
        requires
            call@ is unlink,
        ensures
            match call@ {
                CallView::unlink { path } => n@ == link_removed(path),
                _ => false,
            },
    {
        match call {
            VFSCall::unlink { path } => bilog_link {
                from: Vec::new(),
                to: copy_bytes(path),
                to_exists: true,
                uid: 0,
                gid: 0,
                s: PhantomData,
            },
            _ => vstd::pervasive::unreached(),
        }
    }

    /// The entry for a hard link created with this owner.
    pub fn record(from: &Vec<u8>, to: &Vec<u8>, uid: u32, gid: u32) -> (x: Self)
        ensures
            x@ == (LinkView { from: from@, to: to@, to_exists: true, uid, gid }),
    {
        bilog_link {
            from: copy_bytes(from),
            to: copy_bytes(to),
            uid,
            gid,
            to_exists: true,
            s: PhantomData,
        }
    }

    /// The current state at `to`: `st` holds another name of the same file,
    /// its owner and group, or is `None` when there is nothing there.
    pub fn old_state(to: Vec<u8>, st: Option<(Vec<u8>, u32, u32)>) -> (o: bilog_link<Old>)
        ensures
            o@ == link_state(to@, opt_link_view(st)),
    {
        match st {
            Some((from, uid, gid)) => bilog_link {
                from,
                to,
                uid,
                gid,
                to_exists: true,
                s: PhantomData,
            },
            None => bilog_link {
                from: Vec::new(),
                to,
                uid: 0,
                gid: 0,
                to_exists: false,
                s: PhantomData,
            },
        }
    }

    pub fn xor(o: &bilog_link<Old>, n: &bilog_link<New>) -> (x: Self)
        ensures
            x@ == spec_link_xor(o@, n@),
    {
        bilog_link {
            from: if o.to_exists {
                copy_bytes(&o.from)
            } else {
                copy_bytes(&n.from)
            },
            to: copy_bytes(&o.to),
            to_exists: true,
            uid: o.uid ^ n.uid,
            gid: o.gid ^ n.gid,
            s: PhantomData,
        }
    }

    /// Removes the link when it exists, recreates it when it does not.
    pub fn apply(x: &Self, o: &bilog_link<Old>) -> (r: Result<VFSCall, BilogError>)
        ensures
            result_view(r) == spec_link_apply(x@, o@),
    {
        if o.to_exists {
            Ok(VFSCall::unlink { path: copy_bytes(&x.to) })
        } else {
            Ok(
                VFSCall::link {
                    from: copy_bytes(&x.from),
                    to: copy_bytes(&x.to),
                    security: FileSecurity::Unix { uid: x.uid, gid: x.gid },
                },
            )
        }
    }
}

/// A removed symbolic link is recreated with its target and owner, and
/// removed again when it exists.
pub proof fn lemma_symlink_toggle(
    to: Seq<u8>,
    from: Seq<u8>,
    uid: u32,
    gid: u32,
    other: LinkView,
)
    requires
        other.to_exists,
    ensures
        ({
            let x = spec_link_xor(link_state(to, Some((from, uid, gid))), link_removed(to));
            &&& spec_symlink_apply(x, link_state(to, None)) == Ok::<CallView, BilogError>(
                CallView::symlink { from, to, security: unix_security(uid, gid) },
            )
            &&& spec_symlink_apply(x, other) == Ok::<CallView, BilogError>(
                CallView::unlink { path: to },
            )
        }),
{
    lemma_xor_zero(uid);
    lemma_xor_zero(gid);
}

/// A removed hard link is recreated from another name of the file, and
/// removed again when it exists.
pub proof fn lemma_link_toggle(to: Seq<u8>, from: Seq<u8>, uid: u32, gid: u32, other: LinkView)
    requires
        other.to_exists,
    ensures
        ({
            let x = spec_link_xor(link_state(to, Some((from, uid, gid))), link_removed(to));
            &&& spec_link_apply(x, link_state(to, None)) == Ok::<CallView, BilogError>(
                CallView::link { from, to, security: unix_security(uid, gid) },
            )
            &&& spec_link_apply(x, other) == Ok::<CallView, BilogError>(
                CallView::unlink { path: to },
            )
        }),
{
    lemma_xor_zero(uid);
    lemma_xor_zero(gid);
}

// ---------------------------------------------------------------------------
// node and file

/// Creation or removal of a special file (device, fifo or socket).
pub struct bilog_node<S: BilogState> {
    pub path: Vec<u8>,
    pub mode: u32,
    pub rdev: u64,
    pub exists: bool,
    pub uid: u32,
    pub gid: u32,
    pub s: PhantomData<S>,
}

pub struct NodeView {
    pub path: Seq<u8>,
    pub mode: u32,
    pub rdev: u64,
    pub exists: bool,
    pub uid: u32,
    pub gid: u32,
}

impl<S: BilogState> View for bilog_node<S> {
    type V = NodeView;

    open spec fn view(&self) -> NodeView {
        NodeView {
            path: self.path@,
            mode: self.mode,
            rdev: self.rdev,
            exists: self.exists,
            uid: self.uid,
            gid: self.gid,
        }
    }
}

pub open spec fn node_removed(path: Seq<u8>) -> NodeView {
    NodeView { path, mode: 0, rdev: 0, exists: true, uid: 0, gid: 0 }
}

/// `st` holds mode, device, owner and group, or is `None` when there is
/// nothing at `path`.
pub open spec fn node_state(path: Seq<u8>, st: Option<(u32, u64, u32, u32)>) -> NodeView {
    match st {
        Some(t) => NodeView { path, mode: t.0, rdev: t.1, exists: true, uid: t.2, gid: t.3 },
        None => NodeView { path, mode: 0, rdev: 0, exists: false, uid: 0, gid: 0 },
    }
}

pub open spec fn spec_node_xor(o: NodeView, n: NodeView) -> NodeView {
    NodeView {
        path: o.path,
        mode: n.mode ^ o.mode,
        rdev: n.rdev ^ o.rdev,
        exists: true,
        uid: o.uid ^ n.uid,
        gid: o.gid ^ n.gid,
    }
}

pub open spec fn spec_node_apply(x: NodeView, o: NodeView) -> Result<CallView, BilogError> {
    if o.exists {
        Ok(CallView::unlink { path: x.path })
    } else {
        Ok(
            CallView::mknod {
                path: x.path,
                mode: x.mode,
                rdev: x.rdev,
                security: unix_security(x.uid, x.gid),
            },
        )
    }
}

impl bilog_node<Xor> {
    pub fn new(call: &VFSCall) -> (n: bilog_node<New>)
        requires
            call@ is unlink,
        ensures
            match call@ {
                CallView::unlink { path } => n@ == node_removed(path),
                _ => false,
            },
    {
        match call {
            VFSCall::unlink { path } => bilog_node {
                path: copy_bytes(path),
                mode: 0,
                rdev: 0,
                uid: 0,
                gid: 0,
                exists: true,
                s: PhantomData,
            },
            _ => vstd::pervasive::unreached(),
        }
    }

    /// The entry for a special file created with these attributes.
    pub fn record(path: &Vec<u8>, mode: u32, rdev: u64, uid: u32, gid: u32) -> (x: Self)
        ensures
            x@ == (NodeView { path: path@, mode, rdev, exists: true, uid, gid }),
    {
        bilog_node { path: copy_bytes(path), mode, rdev, exists: true, uid, gid, s: PhantomData }
    }

    pub fn old_state(path: Vec<u8>, st: Option<(u32, u64, u32, u32)>) -> (o: bilog_node<Old>)
        ensures
            o@ == node_state(path@, st),
    {
        match st {
            Some((mode, rdev, uid, gid)) => bilog_node {
                path,
                mode,
                rdev,
                exists: true,
                uid,
                gid,
                s: PhantomData,
            },
            None => bilog_node {
                path,
                mode: 0,
                rdev: 0,
                uid: 0,
                gid: 0,
                exists: false,
                s: PhantomData,
            },
        }
    }

    pub fn xor(o: &bilog_node<Old>, n: &bilog_node<New>) -> (x: Self)
        ensures
            x@ == spec_node_xor(o@, n@),
    {
        bilog_node {
            path: copy_bytes(&o.path),
            mode: n.mode ^ o.mode,
            rdev: n.rdev ^ o.rdev,
            uid: o.uid ^ n.uid,
            gid: o.gid ^ n.gid,
            exists: true,
            s: PhantomData,
        }
    }

    /// Removes the special file when it exists, recreates it when it does not.
    pub fn apply(x: &Self, o: &bilog_node<Old>) -> (r: Result<VFSCall, BilogError>)
        ensures
            result_view(r) == spec_node_apply(x@, o@),
    {
        if o.exists {
            Ok(VFSCall::unlink { path: copy_bytes(&x.path) })
        } else {
            Ok(
                VFSCall::mknod {
                    path: copy_bytes(&x.path),
                    mode: x.mode,
                    rdev: x.rdev,
                    security: FileSecurity::Unix { uid: x.uid, gid: x.gid },
                },
            )
        }
    }
}

/// A removed special file is recreated as it was, and removed again when it
/// exists.
pub proof fn lemma_node_toggle(
    path: Seq<u8>,
    mode: u32,
    rdev: u64,
    uid: u32,
    gid: u32,
    other: NodeView,
)
    requires
        other.exists,
    ensures
        ({
            let x = spec_node_xor(node_state(path, Some((mode, rdev, uid, gid))), node_removed(path));
            &&& spec_node_apply(x, node_state(path, None)) == Ok::<CallView, BilogError>(
                CallView::mknod { path, mode, rdev, security: unix_security(uid, gid) },
            )
            &&& spec_node_apply(x, other) == Ok::<CallView, BilogError>(
                CallView::unlink { path },
            )
        }),
{
    lemma_xor_zero(uid);
    lemma_xor_zero(gid);
    assert(0u32 ^ mode == mode) by (bit_vector);
    assert(0u64 ^ rdev == rdev) by (bit_vector);
}

/// The flags with which a removed regular file is recreated: create it,
/// opened for reading.
pub const RECREATE_FLAGS: i32 = 0o100;

/// Creation or removal of an empty regular file.
pub struct bilog_file<S: BilogState> {
    pub path: Vec<u8>,
    pub mode: u32,
    pub exists: bool,
    pub uid: u32,
    pub gid: u32,
    pub s: PhantomData<S>,
}

pub struct FileView {
    pub path: Seq<u8>,
    pub mode: u32,
    pub exists: bool,
    pub uid: u32,
    pub gid: u32,
}

impl<S: BilogState> View for bilog_file<S> {
    type V = FileView;

    open spec fn view(&self) -> FileView {
        FileView {
            path: self.path@,
            mode: self.mode,
            exists: self.exists,
            uid: self.uid,
            gid: self.gid,
        }
    }
}

pub open spec fn file_removed(path: Seq<u8>) -> FileView {
    FileView { path, mode: 0, exists: true, uid: 0, gid: 0 }
}

/// `st` holds mode, owner and group, or is `None` when there is nothing at
/// `path`.
pub open spec fn file_state(path: Seq<u8>, st: Option<(u32, u32, u32)>) -> FileView {
    match st {
        Some(t) => FileView { path, mode: t.0, exists: true, uid: t.1, gid: t.2 },
        None => FileView { path, mode: 0, exists: false, uid: 0, gid: 0 },
    }
}

pub open spec fn spec_file_xor(o: FileView, n: FileView) -> FileView {
    FileView {
        path: o.path,
        mode: n.mode ^ o.mode,
        exists: true,
        uid: o.uid ^ n.uid,
        gid: o.gid ^ n.gid,
    }
}

pub open spec fn spec_file_apply(x: FileView, o: FileView) -> Result<CallView, BilogError> {
    if o.exists {
        Ok(CallView::unlink { path: x.path })
    } else {
        Ok(
            CallView::create {
                path: x.path,
                flags: RECREATE_FLAGS,
                security: unix_security(x.uid, x.gid),
                mode: x.mode,
            },
        )
    }
}

impl bilog_file<Xor> {
    pub fn new(call: &VFSCall) -> (n: bilog_file<New>)
        requires
            call@ is unlink,
        ensures
            match call@ {
                CallView::unlink { path } => n@ == file_removed(path),
                _ => false,
            },
    {
        match call {
            VFSCall::unlink { path } => bilog_file {
                path: copy_bytes(path),
                mode: 0,
                exists: true,
                uid: 0,
                gid: 0,
                s: PhantomData,
            },
            _ => vstd::pervasive::unreached(),
        }
    }

    /// The entry for a file created with these attributes; the file did not
    /// exist before.
    pub fn record(path: &Vec<u8>, mode: u32, uid: u32, gid: u32) -> (x: Self)
        ensures
            x@ == (FileView { path: path@, mode, exists: false, uid, gid }),
    {
        bilog_file { path: copy_bytes(path), mode, exists: false, uid, gid, s: PhantomData }
    }

    pub fn old_state(path: Vec<u8>, st: Option<(u32, u32, u32)>) -> (o: bilog_file<Old>)
        ensures
            o@ == file_state(path@, st),
    {
        match st {
            Some((mode, uid, gid)) => bilog_file {
                path,
                mode,
                exists: true,
                uid,
                gid,
                s: PhantomData,
            },
            None => bilog_file { path, mode: 0, exists: false, uid: 0, gid: 0, s: PhantomData },
        }
    }

    pub fn xor(o: &bilog_file<Old>, n: &bilog_file<New>) -> (x: Self)
        ensures
            x@ == spec_file_xor(o@, n@),
    {
        bilog_file {
            path: copy_bytes(&o.path),
            mode: n.mode ^ o.mode,
            uid: o.uid ^ n.uid,
            gid: o.gid ^ n.gid,
            exists: true,
            s: PhantomData,
        }
    }

    /// Removes the file when it exists, recreates it empty when it does not.
    pub fn apply(x: &Self, o: &bilog_file<Old>) -> (r: Result<VFSCall, BilogError>)
        ensures
            result_view(r) == spec_file_apply(x@, o@),
    {
        if o.exists {
            Ok(VFSCall::unlink { path: copy_bytes(&x.path) })
        } else {
            Ok(
                VFSCall::create {
                    path: copy_bytes(&x.path),
                    mode: x.mode,
                    flags: RECREATE_FLAGS,
                    security: FileSecurity::Unix { uid: x.uid, gid: x.gid },
                },
            )
        }
    }
}

/// A removed empty file is recreated with its mode and owner, and removed
/// again when it exists.
pub proof fn lemma_file_toggle(path: Seq<u8>, mode: u32, uid: u32, gid: u32, other: FileView)
    requires
        other.exists,
    ensures
        ({
            let x = spec_file_xor(file_state(path, Some((mode, uid, gid))), file_removed(path));
            &&& spec_file_apply(x, file_state(path, None)) == Ok::<CallView, BilogError>(
                CallView::create {
                    path,
                    flags: RECREATE_FLAGS,
                    security: unix_security(uid, gid),
                    mode,
                },
            )
            &&& spec_file_apply(x, other) == Ok::<CallView, BilogError>(
                CallView::unlink { path },
            )
        }),
{
    assert(0u32 ^ mode == mode) by (bit_vector);
    lemma_xor_zero(uid);
    lemma_xor_zero(gid);
}

// ---------------------------------------------------------------------------
// truncate

/// A change of file length; `buf` holds file contents that the entry keeps.
pub struct bilog_truncate<S: BilogState> {
    pub path: Vec<u8>,
    pub size: i64,
    pub buf: Vec<u8>,
    pub checksum: u32,
    pub s: PhantomData<S>,
}

pub struct TruncateView {
    pub path: Seq<u8>,
    pub size: i64,
    pub buf: Seq<u8>,
    pub checksum: u32,
}

impl<S: BilogState> View for bilog_truncate<S> {
    type V = TruncateView;

    open spec fn view(&self) -> TruncateView {
        TruncateView {
            path: self.path@,
            size: self.size,
            buf: self.buf@,
            checksum: self.checksum,
        }
    }
}

pub open spec fn truncate_state(path: Seq<u8>, size: i64, buf: Seq<u8>) -> TruncateView {
    TruncateView { path, size, buf, checksum: data_sum(buf, size) }
}

pub open spec fn spec_truncate_xor(o: TruncateView, n: TruncateView) -> TruncateView {
    TruncateView {
        path: n.path,
        size: o.size ^ n.size,
        buf: o.buf,
        checksum: n.checksum ^ o.checksum,
    }
}

/// The operation that takes a file in state `o` to the entry's other
/// length. The entry keeps the bytes that lie between the two lengths when it
/// was recorded from the longer file, and those belong to the longer state;
/// the shorter state keeps none. Going to the longer length writes the kept
/// bytes back at the current end when there are any, and otherwise extends
/// the file by a truncate; going to the shorter length is a truncate.
pub open spec fn spec_truncate_apply(x: TruncateView, o: TruncateView) -> Result<
    CallView,
    BilogError,
> {
    let nsize = x.size ^ o.size;
    let other_buf = if nsize > o.size {
        x.buf
    } else {
        seq![]
    };
    if data_sum(other_buf, nsize) ^ o.checksum != x.checksum {
        Err(BilogError::ChecksumMismatch)
    } else if nsize > o.size && x.buf.len() > 0 {
        Ok(CallView::write { path: x.path, offset: o.size, buf: x.buf })
    } else {
        Ok(CallView::truncate { path: x.path, size: nsize })
    }
}

impl bilog_truncate<Xor> {
    pub fn new(call: &VFSCall) -> (n: bilog_truncate<New>)
        requires
            call@ is truncate,
        ensures
            match call@ {
                CallView::truncate { path, size } => n@ == truncate_state(path, size, seq![]),
                _ => false,
            },
    {
        match call {
            VFSCall::truncate { path, size } => {
                let buf: Vec<u8> = Vec::new();
                let checksum = data_checksum(buf.as_slice(), *size);
                bilog_truncate { path: copy_bytes(path), size: *size, buf, checksum, s: PhantomData }
            },
            _ => vstd::pervasive::unreached(),
        }
    }

    /// Which bytes of a file of length `osize` an entry keeps when its length
    /// is to become `nsize`: when the file shrinks, the bytes that are cut off,
    /// as an offset and a length; nothing when it grows (or the new length is
    /// negative, which no file can take).
    pub fn saved_range(osize: i64, nsize: i64) -> (r: Option<(i64, u64)>)
        ensures
            r == (if 0 <= nsize < osize {
                Some((nsize, (osize - nsize) as u64))
            } else {
                None::<(i64, u64)>
            }),
    {
        if 0 <= nsize && nsize < osize {
            Some((nsize, (osize - nsize) as u64))
        } else {
            None
        }
    }

    /// Which bytes of a file of length `osize` are read to check its state
    /// before the entry `x` is replayed on it: the bytes the entry kept, when
    /// the file is the longer of the entry's two lengths; nothing otherwise
    /// (nor when the other length is negative, which no file can have).
    pub fn replay_range(x: &Self, osize: i64) -> (r: Option<(i64, u64)>)
        ensures
            r == (if 0 <= (x@.size ^ osize) < osize && x@.buf.len() > 0 {
                Some(((x@.size ^ osize) as i64, (osize - (x@.size ^ osize)) as u64))
            } else {
                None::<(i64, u64)>
            }),
    {
        let nsize = x.size ^ osize;
        if 0 <= nsize && nsize < osize && x.buf.len() > 0 {
            Some((nsize, (osize - nsize) as u64))
        } else {
            None
        }
    }

    /// The current state of a file of length `size`, with the bytes read at
    /// `saved_range`.
    pub fn old_state(path: Vec<u8>, size: i64, buf: Vec<u8>) -> (o: bilog_truncate<Old>)
        ensures
            o@ == truncate_state(path@, size, buf@),
    {
        let checksum = data_checksum(buf.as_slice(), size);
        bilog_truncate { path, size, buf, checksum, s: PhantomData }
    }

    pub fn xor(o: &bilog_truncate<Old>, n: &bilog_truncate<New>) -> (x: Self)
        ensures
            x@ == spec_truncate_xor(o@, n@),
    {
        bilog_truncate {
            path: copy_bytes(&n.path),
            size: o.size ^ n.size,
            buf: copy_bytes(&o.buf),
            checksum: n.checksum ^ o.checksum,
            s: PhantomData,
        }
    }

    /// The operation that takes a file in state `o` to the entry's other
    /// length: the kept bytes written back at the current end, or a truncate.
    pub fn apply(x: &Self, o: &bilog_truncate<Old>) -> (r: Result<VFSCall, BilogError>)
        ensures
            result_view(r) == spec_truncate_apply(x@, o@),
    {
        let nsize = x.size ^ o.size;
        let empty: Vec<u8> = Vec::new();
        let other_sum = if nsize > o.size {
            data_checksum(x.buf.as_slice(), nsize)
        } else {
            data_checksum(empty.as_slice(), nsize)
        };
        if other_sum ^ o.checksum != x.checksum {
            return Err(BilogError::ChecksumMismatch);
        }
        if nsize > o.size && x.buf.len() > 0 {
            Ok(VFSCall::write { path: copy_bytes(&x.path), offset: o.size, buf: copy_bytes(&x.buf) })
        } else {
            Ok(VFSCall::truncate { path: copy_bytes(&x.path), size: nsize })
        }
    }
}

/// A shrinking truncate is undone by writing back what it cut off: the entry
/// recorded from a file of length `z` whose bytes from `s` on are `d`, when
/// it is truncated to `s`, takes the shorter file back by a write of `d` at
/// `s`, and the longer file (holding `d` there again) forward by the same
/// truncate.
pub proof fn lemma_truncate_shrink_round_trip(path: Seq<u8>, z: i64, s: i64, d: Seq<u8>)
    requires
        0 <= s < z,
        d.len() == z - s,
    ensures
        ({
            let x = spec_truncate_xor(truncate_state(path, z, d), truncate_state(path, s, seq![]));
            &&& spec_truncate_apply(x, truncate_state(path, s, seq![])) == Ok::<CallView, BilogError>(
                CallView::write { path, offset: s, buf: d },
            )
            &&& spec_truncate_apply(x, truncate_state(path, z, d)) == Ok::<CallView, BilogError>(
                CallView::truncate { path, size: s },
            )
        }),
{
    lemma_xor_i64(z, s);
    lemma_xor_i64(s, z);
    lemma_xor_u32(data_sum(d, z), data_sum(seq![], s));
    lemma_xor_u32(data_sum(seq![], s), data_sum(d, z));
}

/// A growing truncate keeps nothing, and is undone and redone by truncates:
/// the entry of a file of length `a` grown to `b` takes the longer file back
/// to `a` and the shorter one forward to `b`.
pub proof fn lemma_truncate_grow_round_trip(path: Seq<u8>, a: i64, b: i64)
    requires
        0 <= a < b,
    ensures
        ({
            let x = spec_truncate_xor(truncate_state(path, a, seq![]), truncate_state(path, b, seq![]));
            &&& spec_truncate_apply(x, truncate_state(path, b, seq![])) == Ok::<CallView, BilogError>(
                CallView::truncate { path, size: a },
            )
            &&& spec_truncate_apply(x, truncate_state(path, a, seq![])) == Ok::<CallView, BilogError>(
                CallView::truncate { path, size: b },
            )
        }),
{
    lemma_xor_i64(a, b);
    lemma_xor_i64(b, a);
    lemma_xor_u32(data_sum(seq![], a), data_sum(seq![], b));
    lemma_xor_u32(data_sum(seq![], b), data_sum(seq![], a));
}

/// Shrinking a file is replayed forward from the longer file as the same
/// truncate.
pub proof fn lemma_truncate_forward(path: Seq<u8>, a: i64, b: i64)
    requires
        b <= a,
    ensures
        ({
            let x = spec_truncate_xor(truncate_state(path, a, seq![]), truncate_state(path, b, seq![]));
            spec_truncate_apply(x, truncate_state(path, a, seq![])) == Ok::<CallView, BilogError>(
                CallView::truncate { path, size: b },
            )
        }),
{
    lemma_xor_i64(a, b);
    lemma_xor_u32(data_sum(seq![], a), data_sum(seq![], b));
}

// ---------------------------------------------------------------------------
// write

/// A write of file contents; `buf` holds contents and `length` the file
/// length, combined as the entry's form says.
pub struct bilog_write<S: BilogState> {
    pub path: Vec<u8>,
    pub offset: i64,
    pub buf: Vec<u8>,
    pub length: i64,
    pub checksum: u32,
    pub s: PhantomData<S>,
}

pub struct WriteView {
    pub path: Seq<u8>,
    pub offset: i64,
    pub buf: Seq<u8>,
    pub length: i64,
    pub checksum: u32,
}

impl<S: BilogState> View for bilog_write<S> {
    type V = WriteView;

    open spec fn view(&self) -> WriteView {
        WriteView {
            path: self.path@,
            offset: self.offset,
            buf: self.buf@,
            length: self.length,
            checksum: self.checksum,
        }
    }
}

pub open spec fn write_state(path: Seq<u8>, offset: i64, buf: Seq<u8>, length: i64) -> WriteView {
    WriteView { path, offset, buf, length, checksum: data_sum(buf, length) }
}

/// The file length after a write, as the entry records it.
pub open spec fn written_length(o: WriteView, n: WriteView) -> i64 {
    if n.offset + n.buf.len() < o.length {
        o.length
    } else {
        (n.offset + n.buf.len()) as i64
    }
}

pub open spec fn spec_write_xor(o: WriteView, n: WriteView) -> WriteView {
    WriteView {
        path: n.path,
        offset: n.offset,
        buf: xor_prefix(n.buf, o.buf),
        length: written_length(o, n) ^ o.length,
        checksum: n.checksum ^ o.checksum,
    }
}

pub open spec fn write_apply_buf(x: WriteView, o: WriteView) -> Seq<u8> {
    if o.buf.len() == 0 {
        x.buf
    } else {
        xor_prefix(x.buf, o.buf)
    }
}

pub open spec fn spec_write_apply(x: WriteView, o: WriteView) -> Result<CallView, BilogError> {
    let buf = write_apply_buf(x, o);
    if data_sum(buf, x.length ^ o.length) ^ o.checksum != x.checksum {
        Err(BilogError::ChecksumMismatch)
    } else if x.length ^ o.length >= o.length {
        Ok(CallView::write { path: x.path, offset: x.offset, buf })
    } else {
        Ok(
            CallView::truncating_write {
                path: x.path,
                offset: x.offset,
                buf,
                length: o.length ^ x.length,
            },
        )
    }
}

impl bilog_write<Xor> {
    pub fn new(call: &VFSCall) -> (n: bilog_write<New>)
        requires
            call@ is write,
        ensures
            match call@ {
                CallView::write { path, offset, buf } => n@ == write_state(path, offset, buf, 0),
                _ => false,
            },
    {
        match call {
            VFSCall::write { path, offset, buf } => {
                let checksum = data_checksum(buf.as_slice(), 0);
                bilog_write {
                    path: copy_bytes(path),
                    offset: *offset,
                    buf: copy_bytes(buf),
                    length: 0,
                    checksum,
                    s: PhantomData,
                }
            },
            _ => vstd::pervasive::unreached(),
        }
    }

    /// How many bytes a write of `write_len` bytes at `offset` overwrites in a
    /// file of length `osize`; `None` when it only appends.
    pub fn overlap(offset: i64, write_len: u64, osize: u64) -> (r: Option<u64>)
        requires
            offset >= 0,
        ensures
            r == (if osize > offset {
                Some(
                    if osize - offset < write_len {
                        (osize - offset) as u64
                    } else {
                        write_len
                    },
                )
            } else {
                None::<u64>
            }),
    {
        let off = offset as u64;
        if osize > off {
            let rest = osize - off;
            Some(
                if rest < write_len {
                    rest
                } else {
                    write_len
                },
            )
        } else {
            None
        }
    }

    /// The current state of a file of length `osize` around a write at
    /// `offset`, with the bytes read at the overlap.
    pub fn old_state(path: Vec<u8>, offset: i64, osize: u64, buf: Vec<u8>) -> (o: bilog_write<Old>)
        requires
            osize <= i64::MAX,
        ensures
            o@ == write_state(path@, offset, buf@, osize as i64),
    {
        let checksum = data_checksum(buf.as_slice(), osize as i64);
        bilog_write { path, offset, buf, length: osize as i64, checksum, s: PhantomData }
    }

    pub fn xor(o: &bilog_write<Old>, n: &bilog_write<New>) -> (x: Self)
        requires
            o@.buf.len() <= n@.buf.len(),
            n@.buf.len() <= i64::MAX,
            n@.offset + n@.buf.len() <= i64::MAX,
        ensures
            x@ == spec_write_xor(o@, n@),
    {
        let mut buf = copy_bytes(&n.buf);
        xor_buf(&mut buf, o.buf.as_slice());
        let mut nsize = n.offset + n.buf.len() as i64;
        if nsize < o.length {
            nsize = o.length;
        }
        bilog_write {
            path: copy_bytes(&n.path),
            offset: n.offset,
            buf,
            length: nsize ^ o.length,
            checksum: n.checksum ^ o.checksum,
            s: PhantomData,
        }
    }

    /// The write that takes a file in state `o` to the other contents, cutting
    /// the file short when the other length is smaller.
    pub fn apply(x: &Self, o: &bilog_write<Old>) -> (r: Result<VFSCall, BilogError>)
        requires
            o@.buf.len() <= x@.buf.len(),
        ensures
            result_view(r) == spec_write_apply(x@, o@),
    {
        let buf = if o.buf.len() == 0 {
            copy_bytes(&x.buf)
        } else {
            let mut b = copy_bytes(&x.buf);
            xor_buf(&mut b, o.buf.as_slice());
            b
        };
        if data_checksum(buf.as_slice(), x.length ^ o.length) ^ o.checksum != x.checksum {
            return Err(BilogError::ChecksumMismatch);
        }
        if x.length ^ o.length >= o.length {
            Ok(VFSCall::write { path: copy_bytes(&x.path), offset: x.offset, buf })
        } else {
            Ok(
                VFSCall::truncating_write {
                    path: copy_bytes(&x.path),
                    offset: x.offset,
                    buf,
                    length: o.length ^ x.length,
                },
            )
        }
    }
}

// ---------------------------------------------------------------------------
// xattr

/// Setting, changing or removing an extended attribute.
pub struct bilog_xattr<S: BilogState> {
    pub path: Vec<u8>,
    pub name: Vec<u8>,
    pub value: Option<Vec<u8>>,
    pub remove: bool,
    pub checksum: u32,
    pub s: PhantomData<S>,
}

pub struct XattrView {
    pub path: Seq<u8>,
    pub name: Seq<u8>,
    pub value: Option<Seq<u8>>,
    pub remove: bool,
    pub checksum: u32,
}

pub open spec fn opt_bytes(v: Option<Vec<u8>>) -> Option<Seq<u8>> {
    match v {
        Some(b) => Some(b@),
        None => None,
    }
}

impl<S: BilogState> View for bilog_xattr<S> {
    type V = XattrView;

    open spec fn view(&self) -> XattrView {
        XattrView {
            path: self.path@,
            name: self.name@,
            value: opt_bytes(self.value),
            remove: self.remove,
            checksum: self.checksum,
        }
    }
}

/// The attribute `name` of `path` holding `value`, or absent when `None`.
pub open spec fn xattr_state(path: Seq<u8>, name: Seq<u8>, value: Option<Seq<u8>>) -> XattrView {
    XattrView { path, name, value, remove: value is None, checksum: xattr_sum(value) }
}

pub open spec fn spec_xattr_xor(o: XattrView, n: XattrView) -> XattrView {
    let (value, remove) = if n.value is None {
        (o.value->0, true)
    } else if o.value is None {
        (n.value->0, true)
    } else if o.value->0.len() > n.value->0.len() {
        (xor_prefix(o.value->0, n.value->0), false)
    } else {
        (xor_prefix(n.value->0, o.value->0), false)
    };
    XattrView {
        path: n.path,
        name: n.name,
        value: Some(value),
        remove,
        checksum: n.checksum ^ o.checksum,
    }
}

pub open spec fn spec_xattr_apply(x: XattrView, o: XattrView) -> Result<CallView, BilogError> {
    if o.value is Some {
        if x.remove {
            Ok(CallView::removexattr { path: x.path, name: x.name })
        } else {
            let value = xor_prefix(x.value->0, o.value->0);
            if xattr_sum(Some(value)) ^ o.checksum != x.checksum {
                Err(BilogError::ChecksumMismatch)
            } else {
                Ok(CallView::setxattr { path: x.path, name: x.name, value, flags: 0 })
            }
        }
    } else {
        Ok(CallView::setxattr { path: x.path, name: x.name, value: x.value->0, flags: 0 })
    }
}

/// What `apply` needs to proceed without indexing out of bounds.
pub open spec fn xattr_apply_ok(x: XattrView, o: XattrView) -> bool {
    &&& o.value is None ==> x.value is Some
    &&& (o.value is Some && !x.remove) ==> (x.value is Some && x.value->0.len()
        <= o.value->0.len())
}

impl bilog_xattr<Xor> {
    /// The state a `setxattr` or `removexattr` sets.
    pub fn new(call: &VFSCall) -> (n: bilog_xattr<New>)
        requires
            call@ is setxattr || call@ is removexattr,
        ensures
            match call@ {
                CallView::setxattr { path, name, value, .. } => n@ == xattr_state(
                    path,
                    name,
                    Some(value),
                ),
                CallView::removexattr { path, name } => n@ == xattr_state(path, name, None),
                _ => false,
            },
    {
        match call {
            VFSCall::setxattr { path, name, value, .. } => {
                let v = Some(copy_bytes(value));
                let checksum = xattr_checksum(&v);
                bilog_xattr {
                    path: copy_bytes(path),
                    name: copy_bytes(name),
                    value: v,
                    remove: false,
                    checksum,
                    s: PhantomData,
                }
            },
            VFSCall::removexattr { path, name } => {
                let v: Option<Vec<u8>> = None;
                let checksum = xattr_checksum(&v);
                bilog_xattr {
                    path: copy_bytes(path),
                    name: copy_bytes(name),
                    value: v,
                    remove: true,
                    checksum,
                    s: PhantomData,
                }
            },
            _ => vstd::pervasive::unreached(),
        }
    }

    /// The current state of the attribute: its value, or `None` when the file
    /// does not have it.
    pub fn old_state(path: Vec<u8>, name: Vec<u8>, value: Option<Vec<u8>>) -> (o: bilog_xattr<
        Old,
    >)
        ensures
            o@ == xattr_state(path@, name@, opt_bytes(value)),
    {
        let checksum = xattr_checksum(&value);
        let remove = value.is_none();
        bilog_xattr { path, name, value, remove, checksum, s: PhantomData }
    }

    pub fn xor(o: &bilog_xattr<Old>, n: &bilog_xattr<New>) -> (x: Self)
        requires
            n@.value is None ==> o@.value is Some,
        ensures
            x@ == spec_xattr_xor(o@, n@),
    {
        let (value, remove) = match (&o.value, &n.value) {
            (Some(ov), None) => (copy_bytes(ov), true),
            (None, Some(nv)) => (copy_bytes(nv), true),
            (Some(ov), Some(nv)) => {
                if ov.len() > nv.len() {
                    let mut b = copy_bytes(ov);
                    xor_buf(&mut b, nv.as_slice());
                    (b, false)
                } else {
                    let mut b = copy_bytes(nv);
                    xor_buf(&mut b, ov.as_slice());
                    (b, false)
                }
            },
            (None, None) => vstd::pervasive::unreached(),
        };
        bilog_xattr {
            path: copy_bytes(&n.path),
            name: copy_bytes(&n.name),
            value: Some(value),
            checksum: n.checksum ^ o.checksum,
            remove,
            s: PhantomData,
        }
    }

    /// Removes the attribute, sets it, or changes it to the other value,
    /// depending on the attribute's current state.
    pub fn apply(x: &Self, o: &bilog_xattr<Old>) -> (r: Result<VFSCall, BilogError>)
        requires
            xattr_apply_ok(x@, o@),
        ensures
            result_view(r) == spec_xattr_apply(x@, o@),
    {
        match &o.value {
            Some(ov) => {
                if x.remove {
                    Ok(VFSCall::removexattr { path: copy_bytes(&x.path), name: copy_bytes(&x.name) })
                } else {
                    let xv = match &x.value {
                        Some(v) => v,
                        None => vstd::pervasive::unreached(),
                    };
                    let mut value = copy_bytes(xv);
                    let mut i: usize = 0;
                    while i < value.len()
                        invariant
                            value@.len() == xv@.len(),
                            xv@.len() <= ov@.len(),
                            0 <= i <= value@.len(),
                            forall|k: int| 0 <= k < i ==> value@[k] == xv@[k] ^ ov@[k],
                            forall|k: int| i <= k < value@.len() ==> value@[k] == xv@[k],
                        decreases value@.len() - i,
                    {
                        let b = value[i] ^ ov[i];
                        value.set(i, b);
                        i += 1;
                    }
                    assert(value@ =~= xor_prefix(xv@, ov@));
                    let sv = Some(value);
                    if xattr_checksum(&sv) ^ o.checksum != x.checksum {
                        return Err(BilogError::ChecksumMismatch);
                    }
                    let value = match sv {
                        Some(v) => v,
                        None => vstd::pervasive::unreached(),
                    };
                    Ok(
                        VFSCall::setxattr {
                            path: copy_bytes(&x.path),
                            name: copy_bytes(&x.name),
                            value,
                            flags: 0,
                        },
                    )
                }
            },
            None => {
                let xv = match &x.value {
                    Some(v) => v,
                    None => vstd::pervasive::unreached(),
                };
                Ok(
                    VFSCall::setxattr {
                        path: copy_bytes(&x.path),
                        name: copy_bytes(&x.name),
                        value: copy_bytes(xv),
                        flags: 0,
                    },
                )
            },
        }
    }
}

proof fn lemma_xor_prefix_twice(a: Seq<u8>, b: Seq<u8>)
    requires
        a.len() == b.len(),
    ensures
        xor_prefix(xor_prefix(b, a), a) == b,
        xor_prefix(xor_prefix(b, a), b) == a,
        xor_prefix(a, b).len() == a.len(),
{
    assert forall|i: int| 0 <= i < a.len() implies (b[i] ^ a[i]) ^ a[i] == b[i] && (b[i] ^ a[i])
        ^ b[i] == a[i] by {
        let x = a[i];
        let y = b[i];
        assert((y ^ x) ^ x == y && (y ^ x) ^ y == x) by (bit_vector);
    }
    assert(xor_prefix(xor_prefix(b, a), a) =~= b);
    assert(xor_prefix(xor_prefix(b, a), b) =~= a);
}

/// Setting a new attribute is redone on a file without it and undone on a
/// file with it.
pub proof fn lemma_xattr_set_new(path: Seq<u8>, name: Seq<u8>, v: Seq<u8>, present: XattrView)
    requires
        present.value is Some,
    ensures
        ({
            let x = spec_xattr_xor(xattr_state(path, name, None), xattr_state(path, name, Some(v)));
            &&& spec_xattr_apply(x, xattr_state(path, name, None)) == Ok::<CallView, BilogError>(
                CallView::setxattr { path, name, value: v, flags: 0 },
            )
            &&& spec_xattr_apply(x, present) == Ok::<CallView, BilogError>(
                CallView::removexattr { path, name },
            )
        }),
{
}

/// Removing an attribute is redone on a file with it and undone, restoring
/// the old value, on a file without it.
pub proof fn lemma_xattr_remove(path: Seq<u8>, name: Seq<u8>, v: Seq<u8>, present: XattrView)
    requires
        present.value is Some,
    ensures
        ({
            let x = spec_xattr_xor(xattr_state(path, name, Some(v)), xattr_state(path, name, None));
            &&& spec_xattr_apply(x, present) == Ok::<CallView, BilogError>(
                CallView::removexattr { path, name },
            )
            &&& spec_xattr_apply(x, xattr_state(path, name, None)) == Ok::<CallView, BilogError>(
                CallView::setxattr { path, name, value: v, flags: 0 },
            )
        }),
{
}

/// Changing an attribute to a value of the same length can be replayed
/// forward from the old value and backward from the new one.
pub proof fn lemma_xattr_change(path: Seq<u8>, name: Seq<u8>, a: Seq<u8>, b: Seq<u8>)
    requires
        a.len() == b.len(),
    ensures
        ({
            let x = spec_xattr_xor(xattr_state(path, name, Some(a)), xattr_state(path, name, Some(b)));
            &&& spec_xattr_apply(x, xattr_state(path, name, Some(a))) == Ok::<CallView, BilogError>(
                CallView::setxattr { path, name, value: b, flags: 0 },
            )
            &&& spec_xattr_apply(x, xattr_state(path, name, Some(b))) == Ok::<CallView, BilogError>(
                CallView::setxattr { path, name, value: a, flags: 0 },
            )
        }),
{
    lemma_xor_prefix_twice(a, b);
    lemma_xor_u32(xattr_sum(Some(a)), xattr_sum(Some(b)));
}

// ---------------------------------------------------------------------------
// entries

/// The decimal digits of `n`, most significant first.
pub open spec fn decimal(n: nat) -> Seq<u8>
    decreases n,
{
    if n < 10 {
        seq![(48 + n) as u8]
    } else {
        decimal(n / 10).push((48 + n % 10) as u8)
    }
}

/// Renders `n` in decimal.
pub fn u64_decimal(n: u64) -> (r: Vec<u8>)
    ensures
        r@ == decimal(n as nat),
    decreases n,
{
    if n < 10 {
        let mut v = Vec::new();
        v.push((48 + n) as u8);
        assert(v@ =~= decimal(n as nat));
        v
    } else {
        let mut v = u64_decimal(n / 10);
        v.push((48 + n % 10) as u8);
        v
    }
}

/// `/.fsyncer-deleted/`, the directory under the backing store where removed
/// files with contents are kept.
pub open spec fn filestore_dir() -> Seq<u8> {
    seq![
        47u8, 46u8, 102u8, 115u8, 121u8, 110u8, 99u8, 101u8, 114u8, 45u8, 100u8, 101u8, 108u8,
        101u8, 116u8, 101u8, 100u8, 47u8,
    ]
}

/// Where the file kept under `token` lies, relative to the backing store.
pub open spec fn stored_path(token: u64) -> Seq<u8> {
    filestore_dir() + decimal(token as nat)
}

/// The path of the file kept under `token`, relative to the backing store.
pub fn filestore_path(token: u64) -> (r: Vec<u8>)
    ensures
        r@ == stored_path(token),
{
    let mut v = vec![
        47u8, 46u8, 102u8, 115u8, 121u8, 110u8, 99u8, 101u8, 114u8, 45u8, 100u8, 101u8, 108u8,
        101u8, 116u8, 101u8, 100u8, 47u8,
    ];
    assert(v@ =~= filestore_dir());
    let mut d = u64_decimal(token);
    v.append(&mut d);
    v
}

/// A journal entry of a bidirectional journal.
pub enum BilogEntry {
    chmod(bilog_chmod<Xor>),
    chown(bilog_chown<Xor>),
    utimens(bilog_utimens<Xor>),
    rename(bilog_rename<Xor>),
    dir(bilog_dir<Xor>),
    symlink(bilog_symlink<Xor>),
    link(bilog_link<Xor>),
    node(bilog_node<Xor>),
    file(bilog_file<Xor>),
    /// A removed file with contents, moved aside under `token`.
    filestore { path: Vec<u8>, token: u64 },
    truncate(bilog_truncate<Xor>),
    write(bilog_write<Xor>),
    xattr(bilog_xattr<Xor>),
}

pub enum EntryView {
    chmod(ChmodView),
    chown(ChownView),
    utimens(UtimensView),
    rename(RenameView),
    dir(DirView),
    symlink(LinkView),
    link(LinkView),
    node(NodeView),
    file(FileView),
    filestore { path: Seq<u8>, token: u64 },
    truncate(TruncateView),
    write(WriteView),
    xattr(XattrView),
}

impl View for BilogEntry {
    type V = EntryView;

    open spec fn view(&self) -> EntryView {
        match self {
            BilogEntry::chmod(x) => EntryView::chmod(x@),
            BilogEntry::chown(x) => EntryView::chown(x@),
            BilogEntry::utimens(x) => EntryView::utimens(x@),
            BilogEntry::rename(x) => EntryView::rename(x@),
            BilogEntry::dir(x) => EntryView::dir(x@),
            BilogEntry::symlink(x) => EntryView::symlink(x@),
            BilogEntry::link(x) => EntryView::link(x@),
            BilogEntry::node(x) => EntryView::node(x@),
            BilogEntry::file(x) => EntryView::file(x@),
            BilogEntry::filestore { path, token } => EntryView::filestore {
                path: path@,
                token: *token,
            },
            BilogEntry::truncate(x) => EntryView::truncate(x@),
            BilogEntry::write(x) => EntryView::write(x@),
            BilogEntry::xattr(x) => EntryView::xattr(x@),
        }
    }
}

/// What is known of the file that an operation or an entry concerns, read by
/// the caller before the entry is made or applied.
pub enum PriorState {
    /// Nothing needs to be read.
    Unneeded,
    Chmod(bilog_chmod<Old>),
    Chown(bilog_chown<Old>),
    Utimens(bilog_utimens<Old>),
    Rename(bilog_rename<Old>),
    Dir(bilog_dir<Old>),
    Symlink(bilog_symlink<Old>),
    Link(bilog_link<Old>),
    Node(bilog_node<Old>),
    File(bilog_file<Old>),
    Truncate(bilog_truncate<Old>),
    Write(bilog_write<Old>),
    Xattr(bilog_xattr<Old>),
    /// The file to be removed has contents and is moved aside whole.
    StoreWhole,
    /// Whether a file removed into the file store exists again at its path,
    /// and the owner of the copy that was kept.
    StoredFile { exists: bool, uid: u32, gid: u32 },
}

pub enum PriorView {
    Unneeded,
    Chmod(ChmodView),
    Chown(ChownView),
    Utimens(UtimensView),
    Rename(RenameView),
    Dir(DirView),
    Symlink(LinkView),
    Link(LinkView),
    Node(NodeView),
    File(FileView),
    Truncate(TruncateView),
    Write(WriteView),
    Xattr(XattrView),
    StoreWhole,
    StoredFile { exists: bool, uid: u32, gid: u32 },
}

impl View for PriorState {
    type V = PriorView;

    open spec fn view(&self) -> PriorView {
        match self {
            PriorState::Unneeded => PriorView::Unneeded,
            PriorState::Chmod(o) => PriorView::Chmod(o@),
            PriorState::Chown(o) => PriorView::Chown(o@),
            PriorState::Utimens(o) => PriorView::Utimens(o@),
            PriorState::Rename(o) => PriorView::Rename(o@),
            PriorState::Dir(o) => PriorView::Dir(o@),
            PriorState::Symlink(o) => PriorView::Symlink(o@),
            PriorState::Link(o) => PriorView::Link(o@),
            PriorState::Node(o) => PriorView::Node(o@),
            PriorState::File(o) => PriorView::File(o@),
            PriorState::Truncate(o) => PriorView::Truncate(o@),
            PriorState::Write(o) => PriorView::Write(o@),
            PriorState::Xattr(o) => PriorView::Xattr(o@),
            PriorState::StoreWhole => PriorView::StoreWhole,
            PriorState::StoredFile { exists, uid, gid } => PriorView::StoredFile {
                exists: *exists,
                uid: *uid,
                gid: *gid,
            },
        }
    }
}

/// What kind of entry an `unlink` becomes, by the type, link count and size
/// of the file removed.
#[derive(Clone, Copy, Debug, PartialEq, Eq)]
pub enum UnlinkKind {
    Symlink,
    /// A regular file with other names left.
    Link,
    /// An empty regular file.
    EmptyFile,
    /// A regular file with contents; it is moved aside.
    StoredFile,
    /// A device, fifo or socket.
    Node,
    /// Any other type; such a removal cannot be journaled.
    Unknown,
}

pub const S_IFMT: u32 = 0o170000;

pub const S_IFSOCK: u32 = 0o140000;

pub const S_IFLNK: u32 = 0o120000;

pub const S_IFREG: u32 = 0o100000;

pub const S_IFBLK: u32 = 0o060000;

pub const S_IFCHR: u32 = 0o020000;

pub const S_IFIFO: u32 = 0o010000;

pub open spec fn spec_classify_unlink(mode: u32, nlink: u64, size: i64) -> UnlinkKind {
    let t = mode & S_IFMT;
    if t == S_IFLNK {
        UnlinkKind::Symlink
    } else if t == S_IFREG {
        if nlink > 1 {
            UnlinkKind::Link
        } else if size == 0 {
            UnlinkKind::EmptyFile
        } else {
            UnlinkKind::StoredFile
        }
    } else if t == S_IFBLK || t == S_IFCHR || t == S_IFIFO || t == S_IFSOCK {
        UnlinkKind::Node
    } else {
        UnlinkKind::Unknown
    }
}

/// What a removal is journaled as, by the type bits of the file's mode:
/// devices, fifos and sockets are nodes (undone by `mknod`); a symbolic link
/// is a symlink entry; a regular file is a link when other names remain, else
/// an empty file when it has no bytes, else a stored file; and only a file of
/// another type (a directory, or bits that name no type) is unknown.
pub proof fn lemma_unlink_kinds(mode: u32, nlink: u64, size: i64)
    ensures
        ({
            let t = mode & S_IFMT;
            let k = spec_classify_unlink(mode, nlink, size);
            &&& (t == S_IFBLK || t == S_IFCHR || t == S_IFIFO || t == S_IFSOCK) ==> k == UnlinkKind::Node
            &&& t == S_IFLNK ==> k == UnlinkKind::Symlink
            &&& t == S_IFREG ==> (k == UnlinkKind::Link <==> nlink > 1)
            &&& t == S_IFREG ==> (k == UnlinkKind::EmptyFile <==> nlink <= 1 && size == 0)
            &&& t == S_IFREG ==> (k == UnlinkKind::StoredFile <==> nlink <= 1 && size != 0)
            &&& (k == UnlinkKind::Unknown <==> !(t == S_IFBLK || t == S_IFCHR || t == S_IFIFO || t == S_IFSOCK
                || t == S_IFLNK || t == S_IFREG))
        }),
{
}

/// Decides what kind of entry removing a file with this mode, link count and
/// size makes.
pub fn classify_unlink(st_mode: u32, st_nlink: u64, st_size: i64) -> (k: UnlinkKind)
    ensures
        k == spec_classify_unlink(st_mode, st_nlink, st_size),
        (st_mode & S_IFMT == S_IFBLK || st_mode & S_IFMT == S_IFCHR || st_mode & S_IFMT == S_IFIFO
            || st_mode & S_IFMT == S_IFSOCK) ==> k == UnlinkKind::Node,
{
    proof {
        lemma_unlink_kinds(st_mode, st_nlink, st_size);
    }
    let t = st_mode & S_IFMT;
    if t == S_IFLNK {
        UnlinkKind::Symlink
    } else if t == S_IFREG {
        if st_nlink > 1 {
            UnlinkKind::Link
        } else if st_size == 0 {
            UnlinkKind::EmptyFile
        } else {
            UnlinkKind::StoredFile
        }
    } else if t == S_IFBLK || t == S_IFCHR || t == S_IFIFO || t == S_IFSOCK {
        UnlinkKind::Node
    } else {
        UnlinkKind::Unknown
    }
}

/// The operations that a bidirectional journal records, together with what
/// must be known of the file for each: creations and renames need nothing,
/// the others the current state of what they change.
pub open spec fn prior_fits(call: CallView, prior: PriorView) -> bool {
    match call {
        CallView::mknod { security, .. } => security is Unix,
        CallView::mkdir { security, .. } => security is Unix,
        CallView::rmdir { .. } => prior is Dir,
        CallView::unlink { .. } => prior is Symlink || prior is Link || prior is File
            || prior is Node || prior is StoreWhole,
        CallView::symlink { security, .. } => security is Unix,
        CallView::rename { .. } => true,
        CallView::link { security, .. } => security is Unix,
        CallView::chmod { .. } => prior is Chmod,
        CallView::security { security, .. } => security is Unix && prior is Chown,
        CallView::truncate { .. } => prior is Truncate,
        CallView::write { offset, buf, .. } => match prior {
            PriorView::Write(o) => o.buf.len() <= buf.len() && buf.len() <= i64::MAX && offset
                + buf.len() <= i64::MAX,
            _ => false,
        },
        CallView::setxattr { .. } => prior is Xattr,
        CallView::removexattr { .. } => match prior {
            PriorView::Xattr(o) => o.value is Some,
            _ => false,
        },
        CallView::create { security, .. } => security is Unix,
        CallView::utimens { .. } => prior is Utimens,
        _ => false,
    }
}

/// The entry that an operation makes, given what was known of the file.
pub open spec fn spec_entry_of(call: CallView, prior: PriorView) -> EntryView {
    match call {
        CallView::mknod { path, mode, rdev, security } => EntryView::node(
            NodeView {
                path,
                mode,
                rdev,
                exists: true,
                uid: security->Unix_uid,
                gid: security->Unix_gid,
            },
        ),
        CallView::mkdir { path, security, mode } => EntryView::dir(
            DirView {
                path,
                mode,
                dir_exists: true,
                uid: security->Unix_uid,
                gid: security->Unix_gid,
            },
        ),
        CallView::rmdir { path } => EntryView::dir(spec_dir_xor(prior->Dir_0, dir_removed(path))),
        CallView::unlink { path } => match prior {
            PriorView::Symlink(o) => EntryView::symlink(spec_link_xor(o, link_removed(path))),
            PriorView::Link(o) => EntryView::link(spec_link_xor(o, link_removed(path))),
            PriorView::File(o) => EntryView::file(spec_file_xor(o, file_removed(path))),
            PriorView::Node(o) => EntryView::node(spec_node_xor(o, node_removed(path))),
            _ => EntryView::filestore { path, token: 0 },
        },
        CallView::symlink { from, to, security } => EntryView::symlink(
            LinkView {
                from,
                to,
                to_exists: true,
                uid: security->Unix_uid,
                gid: security->Unix_gid,
            },
        ),
        CallView::rename { from, to, .. } => EntryView::rename(
            RenameView { from, to, from_exists: true },
        ),
        CallView::link { from, to, security } => EntryView::link(
            LinkView {
                from,
                to,
                to_exists: true,
                uid: security->Unix_uid,
                gid: security->Unix_gid,
            },
        ),
        CallView::chmod { path, mode } => EntryView::chmod(
            spec_chmod_xor(prior->Chmod_0, chmod_state(path, mode)),
        ),
        CallView::security { path, security } => EntryView::chown(
            spec_chown_xor(
                prior->Chown_0,
                chown_state(path, security->Unix_uid, security->Unix_gid),
            ),
        ),
        CallView::truncate { path, size } => EntryView::truncate(
            spec_truncate_xor(prior->Truncate_0, truncate_state(path, size, seq![])),
        ),
        CallView::write { path, offset, buf } => EntryView::write(
            spec_write_xor(prior->Write_0, write_state(path, offset, buf, 0)),
        ),
        CallView::setxattr { path, name, value, .. } => EntryView::xattr(
            spec_xattr_xor(prior->Xattr_0, xattr_state(path, name, Some(value))),
        ),
        CallView::removexattr { path, name } => EntryView::xattr(
            spec_xattr_xor(prior->Xattr_0, xattr_state(path, name, None)),
        ),
        CallView::create { path, security, mode, .. } => EntryView::file(
            FileView {
                path,
                mode,
                exists: false,
                uid: security->Unix_uid,
                gid: security->Unix_gid,
            },
        ),
        CallView::utimens { path, timespec } => EntryView::utimens(
            spec_utimens_xor(prior->Utimens_0, utimens_state(path, timespec)),
        ),
        _ => EntryView::filestore { path: seq![], token: 0 },
    }
}

/// What must be known of the file for an entry to be applied.
pub open spec fn apply_fits(e: EntryView, cur: PriorView) -> bool {
    match e {
        EntryView::chmod(_) => cur is Chmod,
        EntryView::chown(_) => cur is Chown,
        EntryView::utimens(_) => cur is Utimens,
        EntryView::rename(_) => cur is Rename,
        EntryView::dir(_) => cur is Dir,
        EntryView::symlink(_) => cur is Symlink,
        EntryView::link(_) => cur is Link,
        EntryView::node(_) => cur is Node,
        EntryView::file(_) => cur is File,
        EntryView::filestore { .. } => cur is StoredFile,
        EntryView::truncate(_) => cur is Truncate,
        EntryView::write(x) => match cur {
            PriorView::Write(o) => o.buf.len() <= x.buf.len(),
            _ => false,
        },
        EntryView::xattr(x) => match cur {
            PriorView::Xattr(o) => xattr_apply_ok(x, o),
            _ => false,
        },
    }
}

/// The operation that applying an entry to a file in state `cur` performs.
pub open spec fn spec_entry_apply(e: EntryView, cur: PriorView) -> Result<CallView, BilogError> {
    match e {
        EntryView::chmod(x) => spec_chmod_apply(x, cur->Chmod_0),
        EntryView::chown(x) => spec_chown_apply(x, cur->Chown_0),
        EntryView::utimens(x) => spec_utimens_apply(x, cur->Utimens_0),
        EntryView::rename(x) => spec_rename_apply(x, cur->Rename_0),
        EntryView::dir(x) => spec_dir_apply(x, cur->Dir_0),
        EntryView::symlink(x) => spec_symlink_apply(x, cur->Symlink_0),
        EntryView::link(x) => spec_link_apply(x, cur->Link_0),
        EntryView::node(x) => spec_node_apply(x, cur->Node_0),
        EntryView::file(x) => spec_file_apply(x, cur->File_0),
        EntryView::filestore { path, token } => if cur->StoredFile_exists {
            Ok(CallView::unlink { path })
        } else {
            Ok(
                CallView::link {
                    from: stored_path(token),
                    to: path,
                    security: unix_security(cur->StoredFile_uid, cur->StoredFile_gid),
                },
            )
        },
        EntryView::truncate(x) => spec_truncate_apply(x, cur->Truncate_0),
        EntryView::write(x) => spec_write_apply(x, cur->Write_0),
        EntryView::xattr(x) => spec_xattr_apply(x, cur->Xattr_0),
    }
}

pub open spec fn spec_entry_paths(e: EntryView) -> Seq<Seq<u8>> {
    match e {
        EntryView::chmod(c) => seq![c.path],
        EntryView::chown(c) => seq![c.path],
        EntryView::utimens(c) => seq![c.path],
        EntryView::rename(c) => seq![c.from, c.to],
        EntryView::dir(c) => seq![c.path],
        EntryView::symlink(c) => seq![c.to],
        EntryView::link(c) => seq![c.to],
        EntryView::node(c) => seq![c.path],
        EntryView::file(c) => seq![c.path],
        EntryView::filestore { path, .. } => seq![path],
        EntryView::truncate(c) => seq![c.path],
        EntryView::write(c) => seq![c.path],
        EntryView::xattr(c) => seq![c.path],
    }
}

fn paths_of(a: &Vec<u8>) -> (r: Vec<Vec<u8>>)
    ensures
        crate::vfs::byte_strings(r@) == seq![a@],
{
    let mut r = Vec::new();
    r.push(copy_bytes(a));
    assert(crate::vfs::byte_strings(r@) =~= seq![a@]);
    r
}

impl BilogEntry {
    /// The entry that `call` makes, given what was known of the file before it.
    pub fn try_from(call: &VFSCall, prior: &PriorState) -> (e: BilogEntry)
        requires
            prior_fits(call@, prior@),
        ensures
            e@ == spec_entry_of(call@, prior@),
    {
        match call {
            VFSCall::mknod { path, mode, rdev, security } => match security {
                FileSecurity::Unix { uid, gid } => BilogEntry::node(
                    bilog_node::record(path, *mode, *rdev, *uid, *gid),
                ),
                _ => vstd::pervasive::unreached(),
            },
            VFSCall::mkdir { path, security, mode } => match security {
                FileSecurity::Unix { uid, gid } => BilogEntry::dir(
                    bilog_dir::record(path, *mode, *uid, *gid),
                ),
                _ => vstd::pervasive::unreached(),
            },
            VFSCall::rmdir { .. } => match prior {
                PriorState::Dir(o) => BilogEntry::dir(bilog_dir::xor(o, &bilog_dir::new(call))),
                _ => vstd::pervasive::unreached(),
            },
            VFSCall::unlink { path } => match prior {
                PriorState::Symlink(o) => BilogEntry::symlink(
                    bilog_symlink::xor(o, &bilog_symlink::new(call)),
                ),
                PriorState::Link(o) => BilogEntry::link(bilog_link::xor(o, &bilog_link::new(call))),
                PriorState::File(o) => BilogEntry::file(bilog_file::xor(o, &bilog_file::new(call))),
                PriorState::Node(o) => BilogEntry::node(bilog_node::xor(o, &bilog_node::new(call))),
                _ => BilogEntry::filestore { path: copy_bytes(path), token: 0 },
            },
            VFSCall::symlink { from, to, security } => match security {
                FileSecurity::Unix { uid, gid } => BilogEntry::symlink(
                    bilog_symlink::record(from, to, *uid, *gid),
                ),
                _ => vstd::pervasive::unreached(),
            },
            VFSCall::rename { from, to, .. } => BilogEntry::rename(bilog_rename::record(from, to)),
            VFSCall::link { from, to, security } => match security {
                FileSecurity::Unix { uid, gid } => BilogEntry::link(
                    bilog_link::record(from, to, *uid, *gid),
                ),
                _ => vstd::pervasive::unreached(),
            },
            VFSCall::chmod { .. } => match prior {
                PriorState::Chmod(o) => BilogEntry::chmod(
                    bilog_chmod::xor(o, &bilog_chmod::new(call)),
                ),
                _ => vstd::pervasive::unreached(),
            },
            VFSCall::security { .. } => match prior {
                PriorState::Chown(o) => BilogEntry::chown(
                    bilog_chown::xor(o, &bilog_chown::new(call)),
                ),
                _ => vstd::pervasive::unreached(),
            },
            VFSCall::truncate { .. } => match prior {
                PriorState::Truncate(o) => BilogEntry::truncate(
                    bilog_truncate::xor(o, &bilog_truncate::new(call)),
                ),
                _ => vstd::pervasive::unreached(),
            },
            VFSCall::write { .. } => match prior {
                PriorState::Write(o) => BilogEntry::write(
                    bilog_write::xor(o, &bilog_write::new(call)),
                ),
                _ => vstd::pervasive::unreached(),
            },
            VFSCall::setxattr { .. } | VFSCall::removexattr { .. } => match prior {
                PriorState::Xattr(o) => BilogEntry::xattr(
                    bilog_xattr::xor(o, &bilog_xattr::new(call)),
                ),
                _ => vstd::pervasive::unreached(),
            },
            VFSCall::create { path, security, mode, .. } => match security {
                FileSecurity::Unix { uid, gid } => BilogEntry::file(
                    bilog_file::record(path, *mode, *uid, *gid),
                ),
                _ => vstd::pervasive::unreached(),
            },
            VFSCall::utimens { .. } => match prior {
                PriorState::Utimens(o) => BilogEntry::utimens(
                    bilog_utimens::xor(o, &bilog_utimens::new(call)),
                ),
                _ => vstd::pervasive::unreached(),
            },
            _ => vstd::pervasive::unreached(),
        }
    }

    /// The operation that replays this entry on a file in state `cur`.
    pub fn apply(&self, cur: &PriorState) -> (r: Result<VFSCall, BilogError>)
        requires
            apply_fits(self@, cur@),
        ensures
            result_view(r) == spec_entry_apply(self@, cur@),
    {
        match (self, cur) {
            (BilogEntry::chmod(x), PriorState::Chmod(o)) => bilog_chmod::apply(x, o),
            (BilogEntry::chown(x), PriorState::Chown(o)) => bilog_chown::apply(x, o),
            (BilogEntry::utimens(x), PriorState::Utimens(o)) => bilog_utimens::apply(x, o),
            (BilogEntry::rename(x), PriorState::Rename(o)) => bilog_rename::apply(x, o),
            (BilogEntry::dir(x), PriorState::Dir(o)) => bilog_dir::apply(x, o),
            (BilogEntry::symlink(x), PriorState::Symlink(o)) => bilog_symlink::apply(x, o),
            (BilogEntry::link(x), PriorState::Link(o)) => bilog_link::apply(x, o),
            (BilogEntry::node(x), PriorState::Node(o)) => bilog_node::apply(x, o),
            (BilogEntry::file(x), PriorState::File(o)) => bilog_file::apply(x, o),
            (BilogEntry::truncate(x), PriorState::Truncate(o)) => bilog_truncate::apply(x, o),
            (BilogEntry::write(x), PriorState::Write(o)) => bilog_write::apply(x, o),
            (BilogEntry::xattr(x), PriorState::Xattr(o)) => bilog_xattr::apply(x, o),
            (BilogEntry::filestore { path, token }, PriorState::StoredFile { exists, uid, gid }) => {
                if *exists {
                    Ok(VFSCall::unlink { path: copy_bytes(path) })
                } else {
                    Ok(
                        VFSCall::link {
                            from: filestore_path(*token),
                            to: copy_bytes(path),
                            security: FileSecurity::Unix { uid: *uid, gid: *gid },
                        },
                    )
                }
            },
            _ => vstd::pervasive::unreached(),
        }
    }

    /// The paths that this entry concerns, for filtering a journal.
    pub fn affected_paths(&self) -> (r: Vec<Vec<u8>>)
        ensures
            crate::vfs::byte_strings(r@) == spec_entry_paths(self@),
    {
        match self {
            BilogEntry::chmod(c) => paths_of(&c.path),
            BilogEntry::chown(c) => paths_of(&c.path),
            BilogEntry::utimens(c) => paths_of(&c.path),
            BilogEntry::rename(c) => {
                let mut r = Vec::new();
                r.push(copy_bytes(&c.from));
                r.push(copy_bytes(&c.to));
                assert(crate::vfs::byte_strings(r@) =~= seq![c.from@, c.to@]);
                r
            },
            BilogEntry::dir(c) => paths_of(&c.path),
            BilogEntry::symlink(c) => paths_of(&c.to),
            BilogEntry::link(c) => paths_of(&c.to),
            BilogEntry::node(c) => paths_of(&c.path),
            BilogEntry::file(c) => paths_of(&c.path),
            BilogEntry::filestore { path, .. } => paths_of(path),
            BilogEntry::truncate(c) => paths_of(&c.path),
            BilogEntry::write(c) => paths_of(&c.path),
            BilogEntry::xattr(c) => paths_of(&c.path),
        }
    }
}

// ---------------------------------------------------------------------------
// The checksum of each kind of entry over its own state

impl<S: BilogState> bilog_chmod<S> {
    /// Checksum of the mode.
    pub fn crc32(&self) -> (r: u32)
        ensures
            r == chmod_sum(self@.mode),
    {
        chmod_checksum(self.mode)
    }
}

impl<S: BilogState> bilog_chown<S> {
    /// Checksum of the owner.
    pub fn crc32(&self) -> (r: u32)
        ensures
            r == chown_sum(self@.uid, self@.gid),
    {
        chown_checksum(self.uid, self.gid)
    }
}

impl<S: BilogState> bilog_utimens<S> {
    /// Checksum of the times.
    pub fn crc32(&self) -> (r: u32)
        ensures
            r == utimens_sum(self@.timespec),
    {
        utimens_checksum(&self.timespec)
    }
}

impl<S: BilogState> bilog_truncate<S> {
    /// Checksum of the kept bytes and the size.
    pub fn crc32(&self) -> (r: u32)
        ensures
            r == data_sum(self@.buf, self@.size),
    {
        data_checksum(self.buf.as_slice(), self.size)
    }
}

impl<S: BilogState> bilog_write<S> {
    /// Checksum of the bytes and the file length.
    pub fn crc32(&self) -> (r: u32)
        ensures
            r == data_sum(self@.buf, self@.length),
    {
        data_checksum(self.buf.as_slice(), self.length)
    }
}

impl<S: BilogState> bilog_xattr<S> {
    /// Checksum of the value.
    pub fn crc32(&self) -> (r: u32)
        ensures
            r == xattr_sum(self@.value),
    {
        xattr_checksum(&self.value)
    }
}

/// A journaled permission change replays forward from the mode it replaced
/// and backward from the mode it set.
pub proof fn lemma_entry_chmod_replays(path: Seq<u8>, before: u32, after: u32)
    ensures
        ({
            let e = spec_entry_of(CallView::chmod { path, mode: after }, PriorView::Chmod(chmod_state(path, before)));
            &&& spec_entry_apply(e, PriorView::Chmod(chmod_state(path, before))) == Ok::<CallView, BilogError>(
                CallView::chmod { path, mode: after },
            )
            &&& spec_entry_apply(e, PriorView::Chmod(chmod_state(path, after))) == Ok::<CallView, BilogError>(
                CallView::chmod { path, mode: before },
            )
        }),
{
    lemma_chmod_bidirectional(path, before, after);
}

/// A journaled ownership change replays forward from the owner it replaced
/// and backward from the owner it set.
pub proof fn lemma_entry_chown_replays(path: Seq<u8>, u1: u32, g1: u32, u2: u32, g2: u32)
    ensures
        ({
            let e = spec_entry_of(
                CallView::security { path, security: unix_security(u2, g2) },
                PriorView::Chown(chown_state(path, u1, g1)),
            );
            &&& spec_entry_apply(e, PriorView::Chown(chown_state(path, u1, g1))) == Ok::<CallView, BilogError>(
                CallView::security { path, security: unix_security(u2, g2) },
            )
            &&& spec_entry_apply(e, PriorView::Chown(chown_state(path, u2, g2))) == Ok::<CallView, BilogError>(
                CallView::security { path, security: unix_security(u1, g1) },
            )
        }),
{
    lemma_chown_bidirectional(path, u1, g1, u2, g2);
}

/// A journaled change of times replays forward from the times it replaced
/// and backward from the times it set.
pub proof fn lemma_entry_utimens_replays(path: Seq<u8>, a: Seq<Timespec>, b: Seq<Timespec>)
    requires
        a.len() == 3,
        b.len() == 3,
    ensures
        ({
            let e = spec_entry_of(CallView::utimens { path, timespec: b }, PriorView::Utimens(utimens_state(path, a)));
            &&& spec_entry_apply(e, PriorView::Utimens(utimens_state(path, a))) == Ok::<CallView, BilogError>(
                CallView::utimens { path, timespec: b },
            )
            &&& spec_entry_apply(e, PriorView::Utimens(utimens_state(path, b))) == Ok::<CallView, BilogError>(
                CallView::utimens { path, timespec: a },
            )
        }),
{
    lemma_utimens_bidirectional(path, a, b);
}

/// A journaled directory removal, and a journaled directory creation, can be
/// replayed both ways: where the directory is gone it is created with the
/// mode and owner it had (or was created with), where it exists it is removed.
pub proof fn lemma_entry_dir_replays(path: Seq<u8>, mode: u32, uid: u32, gid: u32, other: DirView, prior: PriorView)
    requires
        other.dir_exists,
    ensures
        ({
            let removed = spec_entry_of(CallView::rmdir { path }, PriorView::Dir(dir_state(path, Some((mode, uid, gid)))));
            let created = spec_entry_of(CallView::mkdir { path, security: unix_security(uid, gid), mode }, prior);
            let mk = Ok::<CallView, BilogError>(CallView::mkdir { path, security: unix_security(uid, gid), mode });
            let rm = Ok::<CallView, BilogError>(CallView::rmdir { path });
            &&& spec_entry_apply(removed, PriorView::Dir(dir_state(path, None))) == mk
            &&& spec_entry_apply(removed, PriorView::Dir(other)) == rm
            &&& spec_entry_apply(created, PriorView::Dir(dir_state(path, None))) == mk
            &&& spec_entry_apply(created, PriorView::Dir(other)) == rm
        }),
{
    lemma_dir_toggle(path, mode, uid, gid, other);
}

/// A journaled removal of a symbolic link, and a journaled creation of one,
/// can be replayed both ways: where the link is gone it is created with its
/// target and owner, where it exists it is removed.
pub proof fn lemma_entry_symlink_replays(to: Seq<u8>, from: Seq<u8>, uid: u32, gid: u32, other: LinkView, prior: PriorView)
    requires
        other.to_exists,
    ensures
        ({
            let removed = spec_entry_of(CallView::unlink { path: to }, PriorView::Symlink(link_state(to, Some((from, uid, gid)))));
            let created = spec_entry_of(CallView::symlink { from, to, security: unix_security(uid, gid) }, prior);
            let mk = Ok::<CallView, BilogError>(CallView::symlink { from, to, security: unix_security(uid, gid) });
            let rm = Ok::<CallView, BilogError>(CallView::unlink { path: to });
            &&& spec_entry_apply(removed, PriorView::Symlink(link_state(to, None))) == mk
            &&& spec_entry_apply(removed, PriorView::Symlink(other)) == rm
            &&& spec_entry_apply(created, PriorView::Symlink(link_state(to, None))) == mk
            &&& spec_entry_apply(created, PriorView::Symlink(other)) == rm
        }),
{
    lemma_symlink_toggle(to, from, uid, gid, other);
}

/// A journaled removal of a hard link, and a journaled creation of one, can
/// be replayed both ways: where the name is gone it is linked again from
/// another name of the file, where it exists it is removed.
pub proof fn lemma_entry_link_replays(to: Seq<u8>, from: Seq<u8>, uid: u32, gid: u32, other: LinkView, prior: PriorView)
    requires
        other.to_exists,
    ensures
        ({
            let removed = spec_entry_of(CallView::unlink { path: to }, PriorView::Link(link_state(to, Some((from, uid, gid)))));
            let created = spec_entry_of(CallView::link { from, to, security: unix_security(uid, gid) }, prior);
            let mk = Ok::<CallView, BilogError>(CallView::link { from, to, security: unix_security(uid, gid) });
            let rm = Ok::<CallView, BilogError>(CallView::unlink { path: to });
            &&& spec_entry_apply(removed, PriorView::Link(link_state(to, None))) == mk
            &&& spec_entry_apply(removed, PriorView::Link(other)) == rm
            &&& spec_entry_apply(created, PriorView::Link(link_state(to, None))) == mk
            &&& spec_entry_apply(created, PriorView::Link(other)) == rm
        }),
{
    lemma_link_toggle(to, from, uid, gid, other);
}

/// A journaled removal of a special file, and a journaled creation of one,
/// can be replayed both ways: where it is gone it is created as it was, where
/// it exists it is removed.
pub proof fn lemma_entry_node_replays(
    path: Seq<u8>,
    mode: u32,
    rdev: u64,
    uid: u32,
    gid: u32,
    other: NodeView,
    prior: PriorView,
)
    requires
        other.exists,
    ensures
        ({
            let removed = spec_entry_of(CallView::unlink { path }, PriorView::Node(node_state(path, Some((mode, rdev, uid, gid)))));
            let created = spec_entry_of(CallView::mknod { path, mode, rdev, security: unix_security(uid, gid) }, prior);
            let mk = Ok::<CallView, BilogError>(CallView::mknod { path, mode, rdev, security: unix_security(uid, gid) });
            let rm = Ok::<CallView, BilogError>(CallView::unlink { path });
            &&& spec_entry_apply(removed, PriorView::Node(node_state(path, None))) == mk
            &&& spec_entry_apply(removed, PriorView::Node(other)) == rm
            &&& spec_entry_apply(created, PriorView::Node(node_state(path, None))) == mk
            &&& spec_entry_apply(created, PriorView::Node(other)) == rm
        }),
{
    lemma_node_toggle(path, mode, rdev, uid, gid, other);
}

/// A journaled removal of an empty file, and a journaled creation of a
/// file, can be replayed both ways: where the file is gone it is created
/// with its mode and owner, where it exists it is removed.
pub proof fn lemma_entry_file_replays(path: Seq<u8>, mode: u32, uid: u32, gid: u32, flags: i32, other: FileView, prior: PriorView)
    requires
        other.exists,
    ensures
        ({
            let removed = spec_entry_of(CallView::unlink { path }, PriorView::File(file_state(path, Some((mode, uid, gid)))));
            let created = spec_entry_of(CallView::create { path, flags, security: unix_security(uid, gid), mode }, prior);
            let mk = Ok::<CallView, BilogError>(
                CallView::create { path, flags: RECREATE_FLAGS, security: unix_security(uid, gid), mode },
            );
            let rm = Ok::<CallView, BilogError>(CallView::unlink { path });
            &&& spec_entry_apply(removed, PriorView::File(file_state(path, None))) == mk
            &&& spec_entry_apply(removed, PriorView::File(other)) == rm
            &&& spec_entry_apply(created, PriorView::File(file_state(path, None))) == mk
            &&& spec_entry_apply(created, PriorView::File(other)) == rm
        }),
{
    lemma_file_toggle(path, mode, uid, gid, other);
}

/// A journaled setting of a new extended attribute is redone where the
/// attribute is missing and undone where it is set.
pub proof fn lemma_entry_xattr_set_replays(path: Seq<u8>, name: Seq<u8>, v: Seq<u8>, flags: i32, present: XattrView)
    requires
        present.value is Some,
    ensures
        ({
            let e = spec_entry_of(
                CallView::setxattr { path, name, value: v, flags },
                PriorView::Xattr(xattr_state(path, name, None)),
            );
            &&& spec_entry_apply(e, PriorView::Xattr(xattr_state(path, name, None))) == Ok::<CallView, BilogError>(
                CallView::setxattr { path, name, value: v, flags: 0 },
            )
            &&& spec_entry_apply(e, PriorView::Xattr(present)) == Ok::<CallView, BilogError>(
                CallView::removexattr { path, name },
            )
        }),
{
    lemma_xattr_set_new(path, name, v, present);
}

/// A journaled removal of an extended attribute is redone where the
/// attribute is set and undone, with the value it had, where it is missing.
pub proof fn lemma_entry_xattr_remove_replays(path: Seq<u8>, name: Seq<u8>, v: Seq<u8>, present: XattrView)
    requires
        present.value is Some,
    ensures
        ({
            let e = spec_entry_of(
                CallView::removexattr { path, name },
                PriorView::Xattr(xattr_state(path, name, Some(v))),
            );
            &&& spec_entry_apply(e, PriorView::Xattr(present)) == Ok::<CallView, BilogError>(
                CallView::removexattr { path, name },
            )
            &&& spec_entry_apply(e, PriorView::Xattr(xattr_state(path, name, None))) == Ok::<CallView, BilogError>(
                CallView::setxattr { path, name, value: v, flags: 0 },
            )
        }),
{
    lemma_xattr_remove(path, name, v, present);
}

/// A journaled change of an extended attribute to a value of the same
/// length is redone from the old value and undone from the new one.
pub proof fn lemma_entry_xattr_change_replays(path: Seq<u8>, name: Seq<u8>, a: Seq<u8>, b: Seq<u8>, flags: i32)
    requires
        a.len() == b.len(),
    ensures
        ({
            let e = spec_entry_of(
                CallView::setxattr { path, name, value: b, flags },
                PriorView::Xattr(xattr_state(path, name, Some(a))),
            );
            &&& spec_entry_apply(e, PriorView::Xattr(xattr_state(path, name, Some(a)))) == Ok::<CallView, BilogError>(
                CallView::setxattr { path, name, value: b, flags: 0 },
            )
            &&& spec_entry_apply(e, PriorView::Xattr(xattr_state(path, name, Some(b)))) == Ok::<CallView, BilogError>(
                CallView::setxattr { path, name, value: a, flags: 0 },
            )
        }),
{
    lemma_xattr_change(path, name, a, b);
}

} // verus!

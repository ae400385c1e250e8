//! The file system operations that are replicated and journaled, as plain
//! values: paths and names are byte strings, times are pairs of integers.
use vstd::prelude::*;

verus! {

/// Ownership and access control of a file, in the form of the platform it was
/// taken from.
#[derive(Debug)]
pub enum FileSecurity {
    Windows { str_desc: String, info: Option<u32> },
    Unix { uid: u32, gid: u32 },
    Portable { owner: Option<String>, group: Option<String> },
}

pub enum SecurityView {
    Windows { str_desc: Seq<char>, info: Option<u32> },
    Unix { uid: u32, gid: u32 },
    Portable { owner: Option<Seq<char>>, group: Option<Seq<char>> },
}

pub open spec fn opt_string_view(s: Option<String>) -> Option<Seq<char>> {
    match s {
        Some(v) => Some(v@),
        None => None,
    }
}

impl View for FileSecurity {
    type V = SecurityView;

    open spec fn view(&self) -> SecurityView {
        match self {
            FileSecurity::Windows { str_desc, info } => SecurityView::Windows {
                str_desc: str_desc@,
                info: *info,
            },
            FileSecurity::Unix { uid, gid } => SecurityView::Unix { uid: *uid, gid: *gid },
            FileSecurity::Portable { owner, group } => SecurityView::Portable {
                owner: opt_string_view(*owner),
                group: opt_string_view(*group),
            },
        }
    }
}

impl FileSecurity {
    /// The security descriptor string of a Windows security record, for
    /// editing in place. Only Windows records have one.
    pub fn mut_sddl(&mut self) -> (r: &mut String)
        requires
            *old(self) is Windows,
        ensures
            match *old(self) {
                FileSecurity::Windows { str_desc, info } => {
                    &&& *r == str_desc
                    &&& *final(self) == (FileSecurity::Windows { str_desc: *final(r), info })
                },
                _ => false,
            },
    {
        match self {
            FileSecurity::Windows { str_desc, .. } => str_desc,
            _ => vstd::pervasive::unreached(),
        }
    }
}

/// A time stamp as two integers: seconds and nanoseconds on Unix, the high and
/// low halves of a FILETIME on Windows.
#[derive(Clone, Copy, Debug, PartialEq, Eq)]
pub struct Timespec {
    pub high: i64,
    pub low: i64,
}

impl Timespec {
    /// Both halves combined by exclusive or.
    pub fn bitxor(self, rhs: Timespec) -> (r: Timespec)
        ensures
            r.high == self.high ^ rhs.high,
            r.low == self.low ^ rhs.low,
    {
        Timespec { high: self.high ^ rhs.high, low: self.low ^ rhs.low }
    }
}

/// A file system operation as it is sent to replicas and stored in journals.
#[derive(Debug)]
pub enum VFSCall {
    mknod { path: Vec<u8>, mode: u32, rdev: u64, security: FileSecurity },
    mkdir { path: Vec<u8>, security: FileSecurity, mode: u32 },
    unlink { path: Vec<u8> },
    rmdir { path: Vec<u8> },
    symlink { from: Vec<u8>, to: Vec<u8>, security: FileSecurity },
    rename { from: Vec<u8>, to: Vec<u8>, flags: u32 },
    link { from: Vec<u8>, to: Vec<u8>, security: FileSecurity },
    chmod { path: Vec<u8>, mode: u32 },
    truncate { path: Vec<u8>, size: i64 },
    write { path: Vec<u8>, offset: i64, buf: Vec<u8> },
    diff_write { path: Vec<u8>, offset: i64, buf: Vec<u8> },
    fallocate { path: Vec<u8>, mode: i32, offset: i64, length: i64 },
    setxattr { path: Vec<u8>, name: Vec<u8>, value: Vec<u8>, flags: i32 },
    removexattr { path: Vec<u8>, name: Vec<u8> },
    create { path: Vec<u8>, flags: i32, security: FileSecurity, mode: u32 },
    utimens { path: Vec<u8>, timespec: [Timespec; 3] },
    fsync { path: Vec<u8>, isdatasync: i32 },
    truncating_write { path: Vec<u8>, offset: i64, buf: Vec<u8>, length: i64 },
    security { path: Vec<u8>, security: FileSecurity },
}

/// `VFSCall` with its byte strings as sequences.
pub enum CallView {
    mknod { path: Seq<u8>, mode: u32, rdev: u64, security: SecurityView },
    mkdir { path: Seq<u8>, security: SecurityView, mode: u32 },
    unlink { path: Seq<u8> },
    rmdir { path: Seq<u8> },
    symlink { from: Seq<u8>, to: Seq<u8>, security: SecurityView },
    rename { from: Seq<u8>, to: Seq<u8>, flags: u32 },
    link { from: Seq<u8>, to: Seq<u8>, security: SecurityView },
    chmod { path: Seq<u8>, mode: u32 },
    truncate { path: Seq<u8>, size: i64 },
    write { path: Seq<u8>, offset: i64, buf: Seq<u8> },
    diff_write { path: Seq<u8>, offset: i64, buf: Seq<u8> },
    fallocate { path: Seq<u8>, mode: i32, offset: i64, length: i64 },
    setxattr { path: Seq<u8>, name: Seq<u8>, value: Seq<u8>, flags: i32 },
    removexattr { path: Seq<u8>, name: Seq<u8> },
    create { path: Seq<u8>, flags: i32, security: SecurityView, mode: u32 },
    utimens { path: Seq<u8>, timespec: Seq<Timespec> },
    fsync { path: Seq<u8>, isdatasync: i32 },
    truncating_write { path: Seq<u8>, offset: i64, buf: Seq<u8>, length: i64 },
    security { path: Seq<u8>, security: SecurityView },
}

impl View for VFSCall {
    type V = CallView;

    open spec fn view(&self) -> CallView {
        match self {
            VFSCall::mknod { path, mode, rdev, security } => CallView::mknod {
                path: path@,
                mode: *mode,
                rdev: *rdev,
                security: security@,
            },
            VFSCall::mkdir { path, security, mode } => CallView::mkdir {
                path: path@,
                security: security@,
                mode: *mode,
            },
            VFSCall::unlink { path } => CallView::unlink { path: path@ },
            VFSCall::rmdir { path } => CallView::rmdir { path: path@ },
            VFSCall::symlink { from, to, security } => CallView::symlink {
                from: from@,
                to: to@,
                security: security@,
            },
            VFSCall::rename { from, to, flags } => CallView::rename {
                from: from@,
                to: to@,
                flags: *flags,
            },
            VFSCall::link { from, to, security } => CallView::link {
                from: from@,
                to: to@,
                security: security@,
            },
            VFSCall::chmod { path, mode } => CallView::chmod { path: path@, mode: *mode },
            VFSCall::truncate { path, size } => CallView::truncate { path: path@, size: *size },
            VFSCall::write { path, offset, buf } => CallView::write {
                path: path@,
                offset: *offset,
                buf: buf@,
            },
            VFSCall::diff_write { path, offset, buf } => CallView::diff_write {
                path: path@,
                offset: *offset,
                buf: buf@,
            },
            VFSCall::fallocate { path, mode, offset, length } => CallView::fallocate {
                path: path@,
                mode: *mode,
                offset: *offset,
                length: *length,
            },
            VFSCall::setxattr { path, name, value, flags } => CallView::setxattr {
                path: path@,
                name: name@,
                value: value@,
                flags: *flags,
            },
            VFSCall::removexattr { path, name } => CallView::removexattr {
                path: path@,
                name: name@,
            },
            VFSCall::create { path, flags, security, mode } => CallView::create {
                path: path@,
                flags: *flags,
                security: security@,
                mode: *mode,
            },
            VFSCall::utimens { path, timespec } => CallView::utimens {
                path: path@,
                timespec: timespec@,
            },
            VFSCall::fsync { path, isdatasync } => CallView::fsync {
                path: path@,
                isdatasync: *isdatasync,
            },
            VFSCall::truncating_write { path, offset, buf, length } => CallView::truncating_write {
                path: path@,
                offset: *offset,
                buf: buf@,
                length: *length,
            },
            VFSCall::security { path, security } => CallView::security {
                path: path@,
                security: security@,
            },
        }
    }
}

/// A copy of a byte string.
pub fn copy_bytes(v: &Vec<u8>) -> (r: Vec<u8>)
    ensures
        r@ == v@,
{
    vstd::slice::slice_to_vec(v.as_slice())
}

/// The paths that an operation touches: both ends of a rename, the new name
/// of a link, and the single path of every other operation.
pub open spec fn spec_affected_paths(c: CallView) -> Seq<Seq<u8>> {
    match c {
        CallView::rename { from, to, .. } => seq![from, to],
        CallView::symlink { to, .. } => seq![to],
        CallView::link { to, .. } => seq![to],
        CallView::mknod { path, .. } => seq![path],
        CallView::mkdir { path, .. } => seq![path],
        CallView::unlink { path } => seq![path],
        CallView::rmdir { path } => seq![path],
        CallView::chmod { path, .. } => seq![path],
        CallView::truncate { path, .. } => seq![path],
        CallView::write { path, .. } => seq![path],
        CallView::diff_write { path, .. } => seq![path],
        CallView::fallocate { path, .. } => seq![path],
        CallView::setxattr { path, .. } => seq![path],
        CallView::removexattr { path, .. } => seq![path],
        CallView::create { path, .. } => seq![path],
        CallView::utimens { path, .. } => seq![path],
        CallView::fsync { path, .. } => seq![path],
        CallView::truncating_write { path, .. } => seq![path],
        CallView::security { path, .. } => seq![path],
    }
}

pub open spec fn byte_strings(v: Seq<Vec<u8>>) -> Seq<Seq<u8>> {
    v.map_values(|x: Vec<u8>| x@)
}

fn one_path(p: &Vec<u8>) -> (r: Vec<Vec<u8>>)
    ensures
        byte_strings(r@) == seq![p@],
{
    let mut r = Vec::new();
    r.push(copy_bytes(p));
    assert(byte_strings(r@) =~= seq![p@]);
    r
}

impl VFSCall {
    /// The paths that this operation touches, as a forward journal records
    /// them for filtering.
    pub fn affected_paths(&self) -> (r: Vec<Vec<u8>>)
        ensures
            byte_strings(r@) == spec_affected_paths(self@),
    {
        match self {
            VFSCall::rename { from, to, .. } => {
                let mut r = Vec::new();
                r.push(copy_bytes(from));
                r.push(copy_bytes(to));
                assert(byte_strings(r@) =~= seq![from@, to@]);
                r
            },
            VFSCall::symlink { to, .. } => one_path(to),
            VFSCall::link { to, .. } => one_path(to),
            VFSCall::mknod { path, .. } => one_path(path),
            VFSCall::mkdir { path, .. } => one_path(path),
            VFSCall::unlink { path } => one_path(path),
            VFSCall::rmdir { path } => one_path(path),
            VFSCall::chmod { path, .. } => one_path(path),
            VFSCall::truncate { path, .. } => one_path(path),
            VFSCall::write { path, .. } => one_path(path),
            VFSCall::diff_write { path, .. } => one_path(path),
            VFSCall::fallocate { path, .. } => one_path(path),
            VFSCall::setxattr { path, .. } => one_path(path),
            VFSCall::removexattr { path, .. } => one_path(path),
            VFSCall::create { path, .. } => one_path(path),
            VFSCall::utimens { path, .. } => one_path(path),
            VFSCall::fsync { path, .. } => one_path(path),
            VFSCall::truncating_write { path, .. } => one_path(path),
            VFSCall::security { path, .. } => one_path(path),
        }
    }
}

// ---------------------------------------------------------------------------
// Differential writes

/// Zero bytes at the start.
pub open spec fn leading_zeros(s: Seq<u8>) -> nat
    decreases s.len(),
{
    if s.len() == 0 || s[0] != 0 {
        0
    } else {
        1 + leading_zeros(s.drop_first())
    }
}

/// Zero bytes at the end.
pub open spec fn trailing_zeros(s: Seq<u8>) -> nat
    decreases s.len(),
{
    if s.len() == 0 || s.last() != 0 {
        0
    } else {
        1 + trailing_zeros(s.drop_last())
    }
}

proof fn lemma_leading_zeros_at(s: Seq<u8>, i: int)
    requires
        0 <= i <= s.len(),
        forall|j: int| 0 <= j < i ==> s[j] == 0,
        i == s.len() || s[i] != 0,
    ensures
        leading_zeros(s) == i,
    decreases i,
{
    if i > 0 {
        let t = s.drop_first();
        assert forall|j: int| 0 <= j < i - 1 implies t[j] == 0 by {
            assert(t[j] == s[j + 1]);
        }
        if i - 1 < t.len() {
            assert(t[i - 1] == s[i]);
        }
        lemma_leading_zeros_at(t, i - 1);
    }
}

proof fn lemma_trailing_zeros_at(s: Seq<u8>, i: int)
    requires
        0 <= i <= s.len(),
        forall|j: int| s.len() - i <= j < s.len() ==> s[j] == 0,
        i == s.len() || s[s.len() - 1 - i] != 0,
    ensures
        trailing_zeros(s) == i,
    decreases i,
{
    if i > 0 {
        let t = s.drop_last();
        assert forall|j: int| t.len() - (i - 1) <= j < t.len() implies t[j] == 0 by {
            assert(t[j] == s[j]);
        }
        if i - 1 < t.len() {
            assert(t[t.len() - 1 - (i - 1)] == s[s.len() - 1 - i]);
        }
        lemma_trailing_zeros_at(t, i - 1);
    }
}

/// The bytes a write sends as a difference: the new bytes combined by
/// exclusive or with the `diff_len` old bytes that could be read.
pub open spec fn diff_bytes(new_buf: Seq<u8>, old_buf: Seq<u8>, diff_len: int) -> Seq<u8> {
    Seq::new(new_buf.len(), |i: int| if i < diff_len { new_buf[i] ^ old_buf[i] } else { new_buf[i] })
}

/// Zero bytes of the difference dropped at its end: only where the old
/// contents reached the write's end, for zeros past the file's end extend it.
pub open spec fn diff_trail(new_buf: Seq<u8>, old_buf: Seq<u8>, diff_len: int) -> nat {
    if diff_len == new_buf.len() {
        trailing_zeros(diff_bytes(new_buf, old_buf, diff_len))
    } else {
        0
    }
}

/// The operation a write of `new_buf` at `offset` is replicated as, given
/// how many of the old bytes under it could be read (`None` when they could
/// not): with nothing read, the write itself; otherwise a differential write
/// of the difference with its zero bytes dropped at the start (moving the
/// offset) and, where the old contents reached the write's end, at its end.
pub fn write_call(path: &Vec<u8>, offset: i64, new_buf: &Vec<u8>, old_buf: &Vec<u8>, read: Option<usize>) -> (r:
    VFSCall)
    requires
        new_buf@.len() <= i64::MAX,
        read matches Some(d) ==> d <= new_buf@.len() && d <= old_buf@.len(),
        read matches Some(d) ==> (d > 0 ==> leading_zeros(diff_bytes(new_buf@, old_buf@, d as int))
            + diff_trail(new_buf@, old_buf@, d as int) <= new_buf@.len()),
        read matches Some(d) ==> (d > 0 ==> offset + leading_zeros(diff_bytes(new_buf@, old_buf@, d as int))
            <= i64::MAX),
    ensures
        r@ == match read {
            Some(d) if d > 0 => {
                let x = diff_bytes(new_buf@, old_buf@, d as int);
                let lead = leading_zeros(x);
                CallView::diff_write {
                    path: path@,
                    offset: (offset + lead) as i64,
                    buf: x.subrange(lead as int, new_buf@.len() - diff_trail(new_buf@, old_buf@, d as int)),
                }
            },
            _ => CallView::write { path: path@, offset, buf: new_buf@ },
        },
{
    let d = match read {
        Some(d) => d,
        None => return VFSCall::write { path: copy_bytes(path), offset, buf: copy_bytes(new_buf) },
    };
    if d == 0 {
        return VFSCall::write { path: copy_bytes(path), offset, buf: copy_bytes(new_buf) };
    }
    let n = new_buf.len();
    let ghost x = diff_bytes(new_buf@, old_buf@, d as int);
    let mut v: Vec<u8> = Vec::new();
    let mut i: usize = 0;
    while i < n
        invariant
            i <= n,
            n == new_buf@.len(),
            d <= n,
            d <= old_buf@.len(),
            x == diff_bytes(new_buf@, old_buf@, d as int),
            v@ == x.subrange(0, i as int),
        decreases n - i,
    {
        let b = if i < d {
            new_buf[i] ^ old_buf[i]
        } else {
            new_buf[i]
        };
        v.push(b);
        i += 1;
        assert(v@ =~= x.subrange(0, i as int));
    }
    assert(v@ =~= x);
    let mut lead: usize = 0;
    while lead < n && v[lead] == 0
        invariant
            lead <= n,
            n == v@.len(),
            forall|j: int| 0 <= j < lead ==> v@[j] == 0,
        decreases n - lead,
    {
        lead += 1;
    }
    proof {
        lemma_leading_zeros_at(v@, lead as int);
    }
    let mut trail: usize = 0;
    if d == n {
        while trail < n && v[n - 1 - trail] == 0
            invariant
                trail <= n,
                n == v@.len(),
                forall|j: int| n - trail <= j < n ==> v@[j] == 0,
            decreases n - trail,
        {
            trail += 1;
        }
        proof {
            lemma_trailing_zeros_at(v@, trail as int);
        }
    }
    assert(lead == leading_zeros(x));
    assert(trail == diff_trail(new_buf@, old_buf@, d as int));
    let mut out: Vec<u8> = Vec::new();
    let mut k: usize = lead;
    while k < n - trail
        invariant
            lead <= k <= n - trail,
            n == v@.len(),
            out@ == v@.subrange(lead as int, k as int),
        decreases n - trail - k,
    {
        out.push(v[k]);
        k += 1;
        assert(out@ =~= v@.subrange(lead as int, k as int));
    }
    VFSCall::diff_write { path: copy_bytes(path), offset: offset + lead as i64, buf: out }
}

/// What a truncating write does once its write has returned.
#[derive(Clone, Copy, Debug, PartialEq, Eq, Structural)]
pub enum TruncatingWriteNext {
    /// The write succeeded: truncate to the length next.
    Truncate,
    /// The write failed: answer with its result; no truncate is made.
    Reply(i32),
}

/// A truncating write truncates only after a write that succeeded (returned
/// a result that is not negative).
pub fn after_write(res: i32) -> (r: TruncatingWriteNext)
    ensures
        r == (if res < 0 {
            TruncatingWriteNext::Reply(res)
        } else {
            TruncatingWriteNext::Truncate
        }),
{
    if res < 0 {
        TruncatingWriteNext::Reply(res)
    } else {
        TruncatingWriteNext::Truncate
    }
}

/// A truncating write's answer once both calls were made: the truncate's
/// error when it failed, else the write's result.
pub fn after_truncate(res: i32, tres: i32) -> (r: i32)
    ensures
        r == (if tres < 0 {
            tres
        } else {
            res
        }),
{
    if tres < 0 {
        tres
    } else {
        res
    }
}

} // verus!

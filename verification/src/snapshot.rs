//! Forward snapshots: the net effect of a run of operations, per path, with
//! file contents kept as blocks of a snapshot file. Merging an operation
//! updates the table and says which bytes to write or move in the snapshot
//! file; applying a snapshot gives back the operations that recreate it.
use vstd::prelude::*;
use crate::keyed::{keys_sorted, sorted_insert, lower_bound, insert_sorted, find_lower_bound,
    lemma_sorted_insert_sorted, lemma_lower_bound_range, lemma_remove_sorted,
};
use crate::freelist::{Block, FreeList, FreeView, free_wf, free_disjoint, free_set, block_set, spec_allocate,
    spec_deallocate, free_apart};
use crate::vfs::{VFSCall, CallView, FileSecurity, SecurityView, Timespec, copy_bytes};

verus! {

/// What a path stands for in the snapshot.
#[derive(Debug)]
pub enum FileType {
    /// Not yet known (never a valid entry).
    Invalid,
    /// A file that existed before the snapshot began and was changed.
    Opened,
    Directory,
    /// A regular file created with these open flags.
    New(i32),
    /// A device node with this device number.
    Special(u64),
    /// A symbolic link to this target.
    Symlink(Vec<u8>),
    /// A hard link to this path.
    Hardlink(Vec<u8>),
    /// A file moved here from this path.
    Moved(Vec<u8>),
}

pub enum TypeView {
    Invalid,
    Opened,
    Directory,
    New(i32),
    Special(u64),
    Symlink(Seq<u8>),
    Hardlink(Seq<u8>),
    Moved(Seq<u8>),
}

impl View for FileType {
    type V = TypeView;

    open spec fn view(&self) -> TypeView {
        match self {
            FileType::Invalid => TypeView::Invalid,
            FileType::Opened => TypeView::Opened,
            FileType::Directory => TypeView::Directory,
            FileType::New(f) => TypeView::New(*f),
            FileType::Special(d) => TypeView::Special(*d),
            FileType::Symlink(p) => TypeView::Symlink(p@),
            FileType::Hardlink(p) => TypeView::Hardlink(p@),
            FileType::Moved(p) => TypeView::Moved(p@),
        }
    }
}

/// What is known of a file's size.
#[derive(Clone, Copy, Debug, PartialEq, Eq)]
pub enum FileSize {
    Unknown,
    MoreThan(u64),
    Exactly(u64),
}

/// The net change to one path: attributes that were set, extended
/// attributes set (`Some`) or removed (`None`), and the data written, as
/// `(file offset, block)` pairs by increasing offset.
#[derive(Debug)]
pub struct File {
    pub uid: Option<u32>,
    pub gid: Option<u32>,
    pub mode: Option<u32>,
    pub size: FileSize,
    pub xattrs: Option<Vec<(Vec<u8>, Option<Vec<u8>>)>>,
    pub time: Option<[Timespec; 3]>,
    pub ty: FileType,
    pub data: Option<Vec<(u64, Block)>>,
}

pub struct FileState {
    pub uid: Option<u32>,
    pub gid: Option<u32>,
    pub mode: Option<u32>,
    pub size: FileSize,
    pub xattrs: Option<Seq<(Seq<u8>, Option<Seq<u8>>)>>,
    pub time: Option<Seq<Timespec>>,
    pub ty: TypeView,
    pub data: Option<Seq<(u64, Block)>>,
}

pub open spec fn opt_bytes(v: Option<Vec<u8>>) -> Option<Seq<u8>> {
    match v {
        Some(b) => Some(b@),
        None => None,
    }
}

pub open spec fn xattr_entry(e: (Vec<u8>, Option<Vec<u8>>)) -> (Seq<u8>, Option<Seq<u8>>) {
    (e.0@, opt_bytes(e.1))
}

pub open spec fn xattr_list(v: Seq<(Vec<u8>, Option<Vec<u8>>)>) -> Seq<(Seq<u8>, Option<Seq<u8>>)> {
    v.map_values(|e: (Vec<u8>, Option<Vec<u8>>)| xattr_entry(e))
}

impl View for File {
    type V = FileState;

    open spec fn view(&self) -> FileState {
        FileState {
            uid: self.uid,
            gid: self.gid,
            mode: self.mode,
            size: self.size,
            xattrs: match self.xattrs {
                Some(x) => Some(xattr_list(x@)),
                None => None,
            },
            time: match self.time {
                Some(t) => Some(t@),
                None => None,
            },
            ty: self.ty@,
            data: match self.data {
                Some(d) => Some(d@),
                None => None,
            },
        }
    }
}

pub open spec fn file_entry(e: (Vec<u8>, File)) -> (Seq<u8>, FileState) {
    (e.0@, e.1@)
}

pub open spec fn file_list(v: Seq<(Vec<u8>, File)>) -> Seq<(Seq<u8>, FileState)> {
    v.map_values(|e: (Vec<u8>, File)| file_entry(e))
}

/// The kind of a snapshot file.
#[derive(Clone, Copy, Debug, PartialEq, Eq)]
pub enum SnapshotType {
    Forward,
    Bidirectional,
    Undo,
}

/// The start of a snapshot file: its kind and where the file table begins.
#[derive(Clone, Copy, Debug, PartialEq, Eq)]
pub struct Header {
    pub ty: SnapshotType,
    pub ft_offset: u64,
}

/// What the snapshot file needs done to it, in order.
#[derive(Debug)]
pub enum DataOp {
    /// Write these bytes at this location.
    Write { location: u64, data: Vec<u8> },
    /// Copy `size` bytes from one location to another.
    Move { from: u64, to: u64, size: u64 },
}

pub enum OpView {
    Write { location: u64, data: Seq<u8> },
    Move { from: u64, to: u64, size: u64 },
}

impl View for DataOp {
    type V = OpView;

    open spec fn view(&self) -> OpView {
        match self {
            DataOp::Write { location, data } => OpView::Write { location: *location, data: data@ },
            DataOp::Move { from, to, size } => OpView::Move { from: *from, to: *to, size: *size },
        }
    }
}

pub open spec fn op_list(v: Seq<DataOp>) -> Seq<OpView> {
    v.map_values(|o: DataOp| o@)
}

/// A snapshot: its header, the table of paths and their changes, and the
/// free space of its file.
pub struct Snapshot {
    header: Header,
    files: Vec<(Vec<u8>, File)>,
    free: FreeList,
}

pub struct SnapView {
    pub header: Header,
    pub files: Seq<(Seq<u8>, FileState)>,
    pub free: FreeView,
}

impl View for Snapshot {
    type V = SnapView;

    closed spec fn view(&self) -> SnapView {
        SnapView { header: self.header, files: file_list(self.files@), free: self.free@ }
    }
}

// ---------------------------------------------------------------------------
// Tables keyed by byte strings

/// Index of the first entry with key `k`, or the length when there is none.
pub open spec fn key_index<V>(s: Seq<(Seq<u8>, V)>, k: Seq<u8>) -> int
    decreases s.len(),
{
    if s.len() == 0 {
        0
    } else if s[0].0 == k {
        0
    } else {
        1 + key_index(s.drop_first(), k)
    }
}

/// No key occurs twice.
pub open spec fn unique_keys<V>(s: Seq<(Seq<u8>, V)>) -> bool {
    forall|i: int, j: int| 0 <= i < j < s.len() ==> s[i].0 != s[j].0
}

/// `s` with `k` mapped to `v`: in place when `k` is there, at the end when not.
pub open spec fn put<V>(s: Seq<(Seq<u8>, V)>, k: Seq<u8>, v: V) -> Seq<(Seq<u8>, V)> {
    let i = key_index(s, k);
    if i < s.len() {
        s.update(i, (k, v))
    } else {
        s.push((k, v))
    }
}

/// `s` without the entry for `k`.
pub open spec fn drop_key<V>(s: Seq<(Seq<u8>, V)>, k: Seq<u8>) -> Seq<(Seq<u8>, V)> {
    let i = key_index(s, k);
    if i < s.len() {
        s.remove(i)
    } else {
        s
    }
}

pub proof fn lemma_key_index_range<V>(s: Seq<(Seq<u8>, V)>, k: Seq<u8>)
    ensures
        0 <= key_index(s, k) <= s.len(),
        forall|i: int| 0 <= i < key_index(s, k) ==> s[i].0 != k,
        key_index(s, k) < s.len() ==> s[key_index(s, k)].0 == k,
    decreases s.len(),
{
    if s.len() > 0 && s[0].0 != k {
        lemma_key_index_range(s.drop_first(), k);
        assert forall|i: int| 0 <= i < key_index(s, k) implies s[i].0 != k by {
            if i > 0 {
                assert(s[i] == s.drop_first()[i - 1]);
            }
        }
        if key_index(s, k) < s.len() {
            assert(s[key_index(s, k)] == s.drop_first()[key_index(s.drop_first(), k)]);
        }
    }
}

proof fn lemma_key_index_at<V>(s: Seq<(Seq<u8>, V)>, k: Seq<u8>, i: int)
    requires
        0 <= i <= s.len(),
        forall|j: int| 0 <= j < i ==> s[j].0 != k,
        i == s.len() || s[i].0 == k,
    ensures
        key_index(s, k) == i,
    decreases i,
{
    if i > 0 {
        let t = s.drop_first();
        assert forall|j: int| 0 <= j < i - 1 implies t[j].0 != k by {
            assert(t[j] == s[j + 1]);
        }
        if i < s.len() {
            assert(t[i - 1] == s[i]);
        }
        lemma_key_index_at(t, k, i - 1);
    }
}

proof fn lemma_put_unique<V>(s: Seq<(Seq<u8>, V)>, k: Seq<u8>, v: V)
    requires
        unique_keys(s),
    ensures
        unique_keys(put(s, k, v)),
        key_index(put(s, k, v), k) < put(s, k, v).len(),
        put(s, k, v)[key_index(put(s, k, v), k)] == (k, v),
{
    lemma_key_index_range(s, k);
    let r = put(s, k, v);
    let i = key_index(s, k);
    assert forall|a: int, b: int| 0 <= a < b < r.len() implies r[a].0 != r[b].0 by {
        if i == s.len() && b == s.len() {
            assert(r[a] == s[a]);
        }
    }
    lemma_key_index_range(r, k);
    if i < s.len() {
        lemma_key_index_at(r, k, i);
    } else {
        assert forall|j: int| 0 <= j < s.len() implies r[j].0 != k by {
            assert(r[j] == s[j]);
        }
        lemma_key_index_at(r, k, s.len() as int);
    }
}

proof fn lemma_drop_unique<V>(s: Seq<(Seq<u8>, V)>, k: Seq<u8>)
    requires
        unique_keys(s),
    ensures
        unique_keys(drop_key(s, k)),
{
    lemma_key_index_range(s, k);
    let i = key_index(s, k);
    if i < s.len() {
        let r = s.remove(i);
        assert forall|a: int, b: int| 0 <= a < b < r.len() implies r[a].0 != r[b].0 by {
            let a2 = if a < i {
                a
            } else {
                a + 1
            };
            let b2 = if b < i {
                b
            } else {
                b + 1
            };
            assert(r[a] == s[a2] && r[b] == s[b2]);
        }
    }
}

/// Byte strings compared by content.
pub fn bytes_eq(a: &Vec<u8>, b: &Vec<u8>) -> (r: bool)
    ensures
        r == (a@ == b@),
{
    if a.len() != b.len() {
        return false;
    }
    let mut i: usize = 0;
    while i < a.len()
        invariant
            a@.len() == b@.len(),
            0 <= i <= a@.len(),
            forall|j: int| 0 <= j < i ==> a@[j] == b@[j],
        decreases a@.len() - i,
    {
        if a[i] != b[i] {
            return false;
        }
        i += 1;
    }
    assert(a@ =~= b@);
    true
}

fn find_file(v: &Vec<(Vec<u8>, File)>, k: &Vec<u8>) -> (r: usize)
    ensures
        r == key_index(file_list(v@), k@),
{
    let ghost s = file_list(v@);
    let mut i: usize = 0;
    while i < v.len()
        invariant
            s == file_list(v@),
            0 <= i <= v@.len(),
            forall|j: int| 0 <= j < i ==> s[j].0 != k@,
        decreases v@.len() - i,
    {
        if bytes_eq(&v[i].0, k) {
            proof {
                lemma_key_index_at(s, k@, i as int);
            }
            return i;
        }
        i += 1;
    }
    proof {
        lemma_key_index_at(s, k@, i as int);
    }
    i
}

fn find_xattr(v: &Vec<(Vec<u8>, Option<Vec<u8>>)>, k: &Vec<u8>) -> (r: usize)
    ensures
        r == key_index(xattr_list(v@), k@),
{
    let ghost s = xattr_list(v@);
    let mut i: usize = 0;
    while i < v.len()
        invariant
            s == xattr_list(v@),
            0 <= i <= v@.len(),
            forall|j: int| 0 <= j < i ==> s[j].0 != k@,
        decreases v@.len() - i,
    {
        if bytes_eq(&v[i].0, k) {
            proof {
                lemma_key_index_at(s, k@, i as int);
            }
            return i;
        }
        i += 1;
    }
    proof {
        lemma_key_index_at(s, k@, i as int);
    }
    i
}

// ---------------------------------------------------------------------------
// Well-formedness

/// A data list: offsets strictly increase, no two entries cover the same
/// byte of the file, and neither a block's end in the snapshot file nor its
/// end in the file can overflow.
pub open spec fn data_wf(d: Seq<(u64, Block)>) -> bool {
    &&& keys_sorted(d)
    &&& data_disjoint(d)
    &&& data_fits(d)
}

/// Neither a block's end in the snapshot file nor its end in the file can
/// overflow.
pub open spec fn data_fits(d: Seq<(u64, Block)>) -> bool {
    forall|i: int| 0 <= i < d.len() ==> (#[trigger] d[i]).1.fits() && d[i].0 + d[i].1.size <= u64::MAX
}

/// No two entries of a data list cover the same byte of the file.
pub open spec fn data_disjoint(d: Seq<(u64, Block)>) -> bool {
    forall|i: int, k: int| #![trigger d[i], d[k]] 0 <= i < k < d.len() ==> d[i].0 + d[i].1.size <= d[k].0
}

pub open spec fn file_wf(f: FileState) -> bool {
    &&& (f.data matches Some(d) ==> data_wf(d))
    &&& (f.xattrs matches Some(x) ==> unique_keys(x))
    &&& (f.time matches Some(t) ==> t.len() == 3)
}

pub open spec fn snap_wf(s: SnapView) -> bool {
    &&& unique_keys(s.files)
    &&& forall|i: int| 0 <= i < s.files.len() ==> file_wf(#[trigger] s.files[i].1)
    &&& free_wf(s.free)
}

impl Snapshot {
    pub closed spec fn wf(&self) -> bool {
        snap_wf(self@)
    }
}

// ---------------------------------------------------------------------------
// The model of merging

/// A file as it is known before anything was recorded of it.
pub open spec fn blank(ty: TypeView, data: Option<Seq<(u64, Block)>>) -> FileState {
    FileState {
        uid: None,
        gid: None,
        mode: None,
        size: FileSize::Unknown,
        xattrs: None,
        time: None,
        ty,
        data,
    }
}

/// The table with an entry for `p`: an existing file that is changed for the
/// first time is recorded as opened, with no data yet.
pub open spec fn opened(files: Seq<(Seq<u8>, FileState)>, p: Seq<u8>) -> Seq<(Seq<u8>, FileState)> {
    if key_index(files, p) < files.len() {
        files
    } else {
        files.push((p, blank(TypeView::Opened, Some(Seq::empty()))))
    }
}

/// The entry for `p` after `opened`.
pub open spec fn entry_of(files: Seq<(Seq<u8>, FileState)>, p: Seq<u8>) -> FileState {
    opened(files, p)[key_index(opened(files, p), p)].1
}

/// The free space after freeing the blocks of a data list, by increasing
/// offset.
pub open spec fn free_all(f: FreeView, d: Seq<(u64, Block)>) -> FreeView
    decreases d.len(),
{
    if d.len() == 0 {
        f
    } else {
        spec_deallocate(free_all(f, d.drop_last()), d.last().1)
    }
}

pub open spec fn free_data(f: FreeView, d: Option<Seq<(u64, Block)>>) -> FreeView {
    match d {
        Some(d) => free_all(f, d),
        None => f,
    }
}

/// The free space after freeing the entries of `d` from index `i` on, from the
/// last to the one at `i`.
pub open spec fn free_from_back(f: FreeView, d: Seq<(u64, Block)>, i: int) -> FreeView
    decreases d.len() - i,
{
    if i >= d.len() || i < 0 {
        f
    } else {
        spec_deallocate(free_from_back(f, d, i + 1), d[i].1)
    }
}

pub open spec fn with_table(s: SnapView, files: Seq<(Seq<u8>, FileState)>) -> SnapView {
    SnapView { header: s.header, files, free: s.free }
}

pub open spec fn with_free(s: SnapView, files: Seq<(Seq<u8>, FileState)>, free: FreeView) -> SnapView {
    SnapView { header: s.header, files, free }
}

/// A new entry with the owner and mode given.
pub open spec fn created(ty: TypeView, uid: u32, gid: u32, mode: Option<u32>, data: Option<Seq<(u64, Block)>>) -> FileState {
    FileState { uid: Some(uid), gid: Some(gid), mode, ..blank(ty, data) }
}

/// A rename moves the entry of `from` (or records a move when there is none)
/// over `to`, whose data is freed.
pub open spec fn spec_rename(s: SnapView, from: Seq<u8>, to: Seq<u8>) -> SnapView {
    let i = key_index(s.files, from);
    let moved = if i < s.files.len() {
        s.files[i].1
    } else {
        blank(TypeView::Moved(from), Some(Seq::empty()))
    };
    let f1 = drop_key(s.files, from);
    let j = key_index(f1, to);
    let free = if j < f1.len() {
        free_data(s.free, f1[j].1.data)
    } else {
        s.free
    };
    with_free(s, put(f1, to, moved), free)
}

/// Removing a path frees its data.
pub open spec fn spec_remove(s: SnapView, p: Seq<u8>) -> SnapView {
    let i = key_index(s.files, p);
    if i < s.files.len() {
        with_free(s, s.files.remove(i), free_data(s.free, s.files[i].1.data))
    } else {
        s
    }
}

/// The data list cut at `size`: entries from `size` on are freed, and the
/// tail of an entry that reaches past `size` is freed from its block.
pub open spec fn spec_cut(f: FreeView, d: Seq<(u64, Block)>, size: u64) -> (FreeView, Seq<(u64, Block)>) {
    let lb = lower_bound(d, size);
    let f1 = free_all(f, d.subrange(lb, d.len() as int));
    let kept = d.subrange(0, lb);
    if lb > 0 && kept[lb - 1].0 + kept[lb - 1].1.size > size {
        let (k, b) = kept[lb - 1];
        let cut = (k + b.size - size) as u64;
        (
            spec_deallocate(f1, Block { location: (b.location + (b.size - cut)) as u64, size: cut }),
            kept.update(lb - 1, (k, Block { location: b.location, size: (b.size - cut) as u64 })),
        )
    } else {
        (f1, kept)
    }
}

/// A known size after `fallocate` to `n` bytes: only grows.
pub open spec fn grown(size: FileSize, n: u64) -> FileSize {
    match size {
        FileSize::Exactly(s) => if s < n {
            FileSize::Exactly(n)
        } else {
            size
        },
        FileSize::MoreThan(s) => if s < n {
            FileSize::MoreThan(n)
        } else {
            size
        },
        FileSize::Unknown => FileSize::MoreThan(n),
    }
}

pub open spec fn xattrs_put(x: Option<Seq<(Seq<u8>, Option<Seq<u8>>)>>, name: Seq<u8>, value: Option<Seq<u8>>) -> Option<Seq<(Seq<u8>, Option<Seq<u8>>)>> {
    Some(
        put(
            match x {
                Some(x) => x,
                None => Seq::empty(),
            },
            name,
            value,
        ),
    )
}

/// Changes the entry of `p` (opened first when needed) with `g`.
pub open spec fn changed(s: SnapView, p: Seq<u8>, f: FileState) -> SnapView {
    with_table(s, put(opened(s.files, p), p, f))
}

// ---------------------------------------------------------------------------
// Executable pieces

proof fn lemma_list_push(v: Seq<(Vec<u8>, File)>, e: (Vec<u8>, File))
    ensures
        file_list(v.push(e)) == file_list(v).push(file_entry(e)),
{
    assert(file_list(v.push(e)) =~= file_list(v).push(file_entry(e)));
}

proof fn lemma_list_remove(v: Seq<(Vec<u8>, File)>, i: int)
    requires
        0 <= i < v.len(),
    ensures
        file_list(v.remove(i)) == file_list(v).remove(i),
{
    assert(file_list(v.remove(i)) =~= file_list(v).remove(i));
}

/// Frees every block of a data list, by increasing offset.
fn free_blocks(free: &mut FreeList, d: &Vec<(u64, Block)>)
    requires
        free_wf(old(free)@),
        data_wf(d@),
    ensures
        free_wf(final(free)@),
        final(free)@ == free_all(old(free)@, d@),
{
    let mut i: usize = 0;
    while i < d.len()
        invariant
            0 <= i <= d@.len(),
            data_wf(d@),
            free_wf(free@),
            free@ == free_all(old(free)@, d@.subrange(0, i as int)),
        decreases d@.len() - i,
    {
        assert(d@[i as int].1.fits());
        free.deallocate(d[i].1);
        assert(d@.subrange(0, i + 1).drop_last() =~= d@.subrange(0, i as int));
        i += 1;
    }
    assert(d@.subrange(0, d@.len() as int) =~= d@);
}

fn free_opt_blocks(free: &mut FreeList, d: &Option<Vec<(u64, Block)>>)
    requires
        free_wf(old(free)@),
        d matches Some(v) ==> data_wf(v@),
    ensures
        free_wf(final(free)@),
        final(free)@ == free_data(old(free)@, match d {
            Some(v) => Some(v@),
            None => None,
        }),
{
    match d {
        Some(v) => free_blocks(free, v),
        None => {},
    }
}

/// Index of the entry for `p`, adding an opened entry when there is none.
fn open_index(files: &mut Vec<(Vec<u8>, File)>, p: &Vec<u8>) -> (i: usize)
    requires
        unique_keys(file_list(old(files)@)),
    ensures
        file_list(final(files)@) == opened(file_list(old(files)@), p@),
        i == key_index(file_list(final(files)@), p@),
        i < final(files)@.len(),
        unique_keys(file_list(final(files)@)),
{
    let i = find_file(files, p);
    proof {
        lemma_key_index_range(file_list(files@), p@);
    }
    if i < files.len() {
        return i;
    }
    let ghost before = files@;
    let e = (copy_bytes(p), File {
        uid: None,
        gid: None,
        mode: None,
        size: FileSize::Unknown,
        xattrs: None,
        time: None,
        ty: FileType::Opened,
        data: Some(Vec::new()),
    });
    files.push(e);
    proof {
        lemma_list_push(before, e);
        assert(file_entry(e) == (p@, blank(TypeView::Opened, Some(Seq::empty()))));
        lemma_put_unique(file_list(before), p@, blank(TypeView::Opened, Some(Seq::empty())));
        assert(put(file_list(before), p@, blank(TypeView::Opened, Some(Seq::empty())))
            =~= file_list(files@));
        let s = file_list(files@);
        assert forall|j: int| 0 <= j < i implies s[j].0 != p@ by {
            assert(s[j] == file_list(before)[j]);
        }
        lemma_key_index_at(s, p@, i as int);
    }
    i
}

/// Puts `e` back at index `i`, where an entry with the same key was taken out.
fn put_back(files: &mut Vec<(Vec<u8>, File)>, i: usize, e: (Vec<u8>, File), Ghost(before): Ghost<Seq<(Vec<u8>, File)>>)
    requires
        0 <= i < before.len(),
        old(files)@ == before.remove(i as int),
        before[i as int].0@ == e.0@,
        unique_keys(file_list(before)),
    ensures
        final(files)@ == before.update(i as int, e),
        file_list(final(files)@) == file_list(before).update(i as int, file_entry(e)),
        file_list(final(files)@) == put(file_list(before), e.0@, e.1@),
        unique_keys(file_list(final(files)@)),
{
    let ghost mid = files@;
    files.insert(i, e);
    proof {
        assert(files@ =~= before.update(i as int, e));
        assert(file_list(files@) =~= file_list(before).update(i as int, file_entry(e)));
        let s = file_list(before);
        assert(s[i as int].0 == e.0@);
        assert forall|j: int| 0 <= j < i implies s[j].0 != e.0@ by {
            assert(s[j].0 != s[i as int].0);
        }
        lemma_key_index_at(s, e.0@, i as int);
        lemma_put_unique(s, e.0@, e.1@);
    }
}

proof fn lemma_table_update_wf(s: Seq<(Seq<u8>, FileState)>, i: int, e: (Seq<u8>, FileState))
    requires
        0 <= i < s.len(),
        forall|j: int| 0 <= j < s.len() ==> file_wf(#[trigger] s[j].1),
        file_wf(e.1),
    ensures
        forall|j: int| 0 <= j < s.update(i, e).len() ==> file_wf(#[trigger] s.update(i, e)[j].1),
{
    assert forall|j: int| 0 <= j < s.update(i, e).len() implies file_wf(#[trigger] s.update(i, e)[j].1) by {
        if j != i {
            assert(s.update(i, e)[j] == s[j]);
        }
    }
}

proof fn lemma_table_remove_wf(s: Seq<(Seq<u8>, FileState)>, i: int)
    requires
        0 <= i < s.len(),
        forall|j: int| 0 <= j < s.len() ==> file_wf(#[trigger] s[j].1),
    ensures
        forall|j: int| 0 <= j < s.remove(i).len() ==> file_wf(#[trigger] s.remove(i)[j].1),
{
    assert forall|j: int| 0 <= j < s.remove(i).len() implies file_wf(#[trigger] s.remove(i)[j].1) by {
        if j < i {
            assert(s.remove(i)[j] == s[j]);
        } else {
            assert(s.remove(i)[j] == s[j + 1]);
        }
    }
}

proof fn lemma_put_wf(s: Seq<(Seq<u8>, FileState)>, k: Seq<u8>, f: FileState)
    requires
        forall|j: int| 0 <= j < s.len() ==> file_wf(#[trigger] s[j].1),
        file_wf(f),
    ensures
        forall|j: int| 0 <= j < put(s, k, f).len() ==> file_wf(#[trigger] put(s, k, f)[j].1),
{
    lemma_key_index_range(s, k);
    if key_index(s, k) < s.len() {
        lemma_table_update_wf(s, key_index(s, k), (k, f));
    } else {
        assert forall|j: int| 0 <= j < put(s, k, f).len() implies file_wf(#[trigger] put(s, k, f)[j].1) by {
            if j < s.len() {
                assert(put(s, k, f)[j] == s[j]);
            }
        }
    }
}

proof fn lemma_opened_wf(s: Seq<(Seq<u8>, FileState)>, p: Seq<u8>)
    requires
        forall|j: int| 0 <= j < s.len() ==> file_wf(#[trigger] s[j].1),
    ensures
        forall|j: int| 0 <= j < opened(s, p).len() ==> file_wf(#[trigger] opened(s, p)[j].1),
{
    let o = opened(s, p);
    assert forall|j: int| 0 <= j < o.len() implies file_wf(#[trigger] o[j].1) by {
        if j < s.len() {
            assert(o[j] == s[j]);
        } else {
            assert(o[j].1 == blank(TypeView::Opened, Some(Seq::<(u64, Block)>::empty())));
        }
    }
}

impl Snapshot {
    /// An empty forward snapshot whose data starts after `data_start` bytes
    /// of header.
    pub fn new(data_start: u64) -> (s: Snapshot)
        ensures
            s.wf(),
            s@.header == (Header { ty: SnapshotType::Forward, ft_offset: 0 }),
            s@.files.len() == 0,
            s@.free.holes.len() == 0,
            s@.free.end == data_start,
    {
        let s = Snapshot {
            header: Header { ty: SnapshotType::Forward, ft_offset: 0 },
            files: Vec::new(),
            free: FreeList::new(data_start),
        };
        assert(file_list(s.files@) =~= Seq::empty());
        s
    }

    /// Takes the entry at `i` out for a change.
    fn take_entry(&mut self, i: usize) -> (e: (Vec<u8>, File))
        requires
            i < old(self).files@.len(),
        ensures
            e == old(self).files@[i as int],
            final(self).files@ == old(self).files@.remove(i as int),
            final(self).free == old(self).free,
            final(self).header == old(self).header,
    {
        self.files.remove(i)
    }

    /// Sets the owner of `p`.
    pub fn set_owner(&mut self, p: &Vec<u8>, uid: u32, gid: u32)
        requires
            old(self).wf(),
        ensures
            final(self).wf(),
            final(self)@ == changed(
                old(self)@,
                p@,
                FileState { uid: Some(uid), gid: Some(gid), ..entry_of(old(self)@.files, p@) },
            ),
    {
        let i = open_index(&mut self.files, p);
        let ghost before = self.files@;
        proof {
            lemma_opened_wf(file_list(old(self).files@), p@);
            lemma_key_index_range(file_list(before), p@);
            assert(file_list(before)[i as int] == file_entry(before[i as int]));
        }
        let (k, mut f) = self.take_entry(i);
        f.uid = Some(uid);
        f.gid = Some(gid);
        put_back(&mut self.files, i, (k, f), Ghost(before));
        proof {
            lemma_table_update_wf(file_list(before), i as int, file_entry((k, f)));
        }
    }

    /// Sets the permission bits of `p`.
    pub fn set_mode(&mut self, p: &Vec<u8>, mode: u32)
        requires
            old(self).wf(),
        ensures
            final(self).wf(),
            final(self)@ == changed(
                old(self)@,
                p@,
                FileState { mode: Some(mode), ..entry_of(old(self)@.files, p@) },
            ),
    {
        let i = open_index(&mut self.files, p);
        let ghost before = self.files@;
        proof {
            lemma_opened_wf(file_list(old(self).files@), p@);
            lemma_key_index_range(file_list(before), p@);
            assert(file_list(before)[i as int] == file_entry(before[i as int]));
        }
        let (k, mut f) = self.take_entry(i);
        f.mode = Some(mode);
        put_back(&mut self.files, i, (k, f), Ghost(before));
        proof {
            lemma_table_update_wf(file_list(before), i as int, file_entry((k, f)));
        }
    }

    /// Sets the times of `p`.
    pub fn set_times(&mut self, p: &Vec<u8>, t: [Timespec; 3])
        requires
            old(self).wf(),
        ensures
            final(self).wf(),
            final(self)@ == changed(
                old(self)@,
                p@,
                FileState { time: Some(t@), ..entry_of(old(self)@.files, p@) },
            ),
    {
        let i = open_index(&mut self.files, p);
        let ghost before = self.files@;
        proof {
            lemma_opened_wf(file_list(old(self).files@), p@);
            lemma_key_index_range(file_list(before), p@);
            assert(file_list(before)[i as int] == file_entry(before[i as int]));
        }
        let (k, mut f) = self.take_entry(i);
        f.time = Some(t);
        put_back(&mut self.files, i, (k, f), Ghost(before));
        proof {
            lemma_table_update_wf(file_list(before), i as int, file_entry((k, f)));
        }
    }

    /// Records that `p` grows to at least `n` bytes.
    pub fn grow(&mut self, p: &Vec<u8>, n: u64)
        requires
            old(self).wf(),
        ensures
            final(self).wf(),
            final(self)@ == changed(
                old(self)@,
                p@,
                FileState { size: grown(entry_of(old(self)@.files, p@).size, n), ..entry_of(old(self)@.files, p@) },
            ),
    {
        let i = open_index(&mut self.files, p);
        let ghost before = self.files@;
        proof {
            lemma_opened_wf(file_list(old(self).files@), p@);
            lemma_key_index_range(file_list(before), p@);
            assert(file_list(before)[i as int] == file_entry(before[i as int]));
        }
        let (k, mut f) = self.take_entry(i);
        f.size = match f.size {
            FileSize::Exactly(s) => if s < n {
                FileSize::Exactly(n)
            } else {
                FileSize::Exactly(s)
            },
            FileSize::MoreThan(s) => if s < n {
                FileSize::MoreThan(n)
            } else {
                FileSize::MoreThan(s)
            },
            FileSize::Unknown => FileSize::MoreThan(n),
        };
        put_back(&mut self.files, i, (k, f), Ghost(before));
        proof {
            lemma_table_update_wf(file_list(before), i as int, file_entry((k, f)));
        }
    }

    /// Records an extended attribute of `p` as set (`Some`) or removed.
    pub fn set_xattr(&mut self, p: &Vec<u8>, name: &Vec<u8>, value: Option<Vec<u8>>)
        requires
            old(self).wf(),
        ensures
            final(self).wf(),
            final(self)@ == changed(
                old(self)@,
                p@,
                FileState {
                    xattrs: xattrs_put(entry_of(old(self)@.files, p@).xattrs, name@, opt_bytes(value)),
                    ..entry_of(old(self)@.files, p@)
                },
            ),
    {
        let i = open_index(&mut self.files, p);
        let ghost before = self.files@;
        proof {
            lemma_opened_wf(file_list(old(self).files@), p@);
            lemma_key_index_range(file_list(before), p@);
            assert(file_list(before)[i as int] == file_entry(before[i as int]));
        }
        let (k, mut f) = self.take_entry(i);
        let mut x = match f.xattrs {
            Some(x) => x,
            None => Vec::new(),
        };
        let ghost xs = xattr_list(x@);
        assert(xs == match file_entry(before[i as int]).1.xattrs {
            Some(x) => x,
            None => Seq::empty(),
        }) by {
            if x@.len() == 0 {
                assert(xs =~= Seq::empty());
            }
        };
        let j = find_xattr(&x, name);
        proof {
            lemma_key_index_range(xs, name@);
            lemma_put_unique(xs, name@, opt_bytes(value));
        }
        let e = (copy_bytes(name), value);
        if j < x.len() {
            x.set(j, e);
            assert(xattr_list(x@) =~= xs.update(j as int, xattr_entry(e)));
        } else {
            x.push(e);
            assert(xattr_list(x@) =~= xs.push(xattr_entry(e)));
        }
        f.xattrs = Some(x);
        put_back(&mut self.files, i, (k, f), Ghost(before));
        proof {
            lemma_table_update_wf(file_list(before), i as int, file_entry((k, f)));
        }
    }

    /// Drops the entry of `p`, freeing its data.
    pub fn remove_path(&mut self, p: &Vec<u8>)
        requires
            old(self).wf(),
        ensures
            final(self).wf(),
            final(self)@ == spec_remove(old(self)@, p@),
    {
        let i = find_file(&self.files, p);
        proof {
            lemma_key_index_range(file_list(self.files@), p@);
        }
        if i < self.files.len() {
            let ghost before = self.files@;
            proof {
                assert(file_list(before)[i as int] == file_entry(before[i as int]));
                assert(file_wf(file_list(before)[i as int].1));
            }
            let (_k, f) = self.take_entry(i);
            free_opt_blocks(&mut self.free, &f.data);
            proof {
                lemma_list_remove(before, i as int);
                lemma_drop_unique(file_list(before), p@);
                lemma_table_remove_wf(file_list(before), i as int);
            }
        }
    }

    /// Puts a new entry at `p`, which has none.
    fn add_entry(&mut self, p: &Vec<u8>, f: File)
        requires
            old(self).wf(),
            key_index(old(self)@.files, p@) == old(self)@.files.len(),
            file_wf(f@),
        ensures
            final(self).wf(),
            final(self)@ == with_table(old(self)@, put(old(self)@.files, p@, f@)),
    {
        let ghost before = self.files@;
        let e = (copy_bytes(p), f);
        self.files.push(e);
        proof {
            lemma_list_push(before, e);
            lemma_put_unique(file_list(before), p@, f@);
            lemma_put_wf(file_list(before), p@, f@);
            assert(put(file_list(before), p@, f@) =~= file_list(self.files@));
        }
    }

    /// Moves the entry of `from` over `to`.
    pub fn rename(&mut self, from: &Vec<u8>, to: &Vec<u8>)
        requires
            old(self).wf(),
        ensures
            final(self).wf(),
            final(self)@ == spec_rename(old(self)@, from@, to@),
    {
        let ghost s0 = self@;
        let i = find_file(&self.files, from);
        proof {
            lemma_key_index_range(file_list(self.files@), from@);
        }
        let moved = if i < self.files.len() {
            let ghost before = self.files@;
            proof {
                assert(file_list(before)[i as int] == file_entry(before[i as int]));
                assert(file_wf(file_list(before)[i as int].1));
                lemma_list_remove(before, i as int);
                lemma_drop_unique(file_list(before), from@);
                lemma_table_remove_wf(file_list(before), i as int);
            }
            let (_k, f) = self.take_entry(i);
            f
        } else {
            File {
                uid: None,
                gid: None,
                mode: None,
                size: FileSize::Unknown,
                xattrs: None,
                time: None,
                ty: FileType::Moved(copy_bytes(from)),
                data: Some(Vec::new()),
            }
        };
        assert(file_list(self.files@) == drop_key(s0.files, from@));
        assert(moved@ == (if i < s0.files.len() {
            s0.files[i as int].1
        } else {
            blank(TypeView::Moved(from@), Some(Seq::empty()))
        })) by {
            if i >= s0.files.len() {
                assert(moved@.xattrs is None);
            }
        };
        let j = find_file(&self.files, to);
        let ghost f1 = file_list(self.files@);
        proof {
            lemma_key_index_range(f1, to@);
        }
        if j < self.files.len() {
            let ghost before = self.files@;
            proof {
                assert(f1[j as int] == file_entry(before[j as int]));
                assert(file_wf(f1[j as int].1));
            }
            let (k, old_entry) = self.take_entry(j);
            free_opt_blocks(&mut self.free, &old_entry.data);
            put_back(&mut self.files, j, (k, moved), Ghost(before));
            proof {
                lemma_table_update_wf(f1, j as int, file_entry((k, moved)));
            }
        } else {
            let ghost before = self.files@;
            let e = (copy_bytes(to), moved);
            self.files.push(e);
            proof {
                lemma_list_push(before, e);
                lemma_put_unique(f1, to@, moved@);
                lemma_put_wf(f1, to@, moved@);
                assert(put(f1, to@, moved@) =~= file_list(self.files@));
            }
        }
    }
}

// ---------------------------------------------------------------------------
// Writes

/// Scanning down from index `i`, the first index from which on every entry
/// reaches past `offset`.
pub open spec fn overlap_start(d: Seq<(u64, Block)>, i: int, offset: u64) -> int
    decreases i,
{
    if i <= 0 {
        0
    } else if d[i - 1].0 + d[i - 1].1.size > offset {
        overlap_start(d, i - 1, offset)
    } else {
        i
    }
}

/// How a write of `len` bytes at `offset` meets the data list `d`: the
/// entries `d[j..lb]` are the ones it overlaps (entries that start before the
/// write ends, taken from the last down while they reach into the write).
pub struct WritePlan {
    pub lb: int,
    pub j: int,
    /// The write falls wholly inside one existing block, at this location.
    pub in_place: Option<u64>,
    /// Bytes kept before the write, from the lowest overlapping entry.
    pub keep_before: u64,
    /// Bytes kept after the write, from the highest overlapping entry.
    pub keep_after: u64,
}

pub open spec fn write_plan(d: Seq<(u64, Block)>, offset: u64, len: u64) -> WritePlan {
    let lb = lower_bound(d, (offset + len) as u64);
    let j = overlap_start(d, lb, offset);
    let first = d[j];
    let last = d[lb - 1];
    WritePlan {
        lb,
        j,
        in_place: if lb - j == 1 && d[j].0 <= offset && offset + len <= d[j].0 + d[j].1.size {
            Some((d[j].1.location + (offset - d[j].0)) as u64)
        } else {
            None
        },
        keep_before: if offset > first.0 {
            (offset - first.0) as u64
        } else {
            0
        },
        keep_after: if last.0 + last.1.size > offset + len {
            (last.0 + last.1.size - (offset + len)) as u64
        } else {
            0
        },
    }
}

/// Bytes to allocate for a write, or `None` when it goes in place.
pub open spec fn write_need(d: Seq<(u64, Block)>, offset: u64, len: u64) -> Option<u64> {
    let w = write_plan(d, offset, len);
    if w.lb == w.j {
        Some(len)
    } else if w.in_place is Some {
        None
    } else {
        Some((w.keep_before + len + w.keep_after) as u64)
    }
}

/// The snapshot file can hold what a write allocates.
pub open spec fn alloc_fits(f: FreeView, n: u64) -> bool {
    first_fit_free(f, n) ==> f.end + n <= u64::MAX
}

pub open spec fn first_fit_free(f: FreeView, n: u64) -> bool {
    crate::freelist::first_fit(f.holes, n) == f.holes.len()
}

/// A write is recorded in data that was allocated for it: with no overlap in
/// a new block; inside the one block it falls in; otherwise in a new block
/// that also takes the bytes kept before and after it, the overlapped blocks
/// being freed from the last down.
pub open spec fn spec_write_data(f: FreeView, d: Seq<(u64, Block)>, offset: u64, buf: Seq<u8>) -> (FreeView, Seq<(u64, Block)>, Seq<OpView>) {
    let len = buf.len() as u64;
    let w = write_plan(d, offset, len);
    if w.lb == w.j {
        let (f1, b) = spec_allocate(f, len);
        (f1, sorted_insert(d, offset, b), seq![OpView::Write { location: b.location, data: buf }])
    } else if w.in_place is Some {
        (f, d, seq![OpView::Write { location: w.in_place->0, data: buf }])
    } else {
        let first = d[w.j];
        let last = d[w.lb - 1];
        let need = (w.keep_before + len + w.keep_after) as u64;
        let (f1, b) = spec_allocate(f, need);
        let before = if w.keep_before != 0 {
            seq![OpView::Move { from: first.1.location, to: b.location, size: w.keep_before }]
        } else {
            Seq::empty()
        };
        let after = if w.keep_after != 0 {
            seq![
                OpView::Move {
                    from: (last.1.location + (last.1.size - w.keep_after)) as u64,
                    to: (b.location + w.keep_before + len) as u64,
                    size: w.keep_after,
                },
            ]
        } else {
            Seq::empty()
        };
        let logical = if first.0 < offset {
            first.0
        } else {
            offset
        };
        (
            free_from_back(f1, d.subrange(w.j, w.lb), 0),
            sorted_insert(d.subrange(0, w.j) + d.subrange(w.lb, d.len() as int), logical, b),
            before + seq![OpView::Write { location: (b.location + w.keep_before) as u64, data: buf }]
                + after,
        )
    }
}

/// A write can be recorded: the path has data, the write's end fits, and the
/// snapshot file can grow by what it allocates.
pub open spec fn write_ok(s: SnapView, p: Seq<u8>, offset: u64, len: u64) -> bool {
    let f = entry_of(s.files, p);
    &&& f.data is Some
    &&& offset + len <= u64::MAX
    &&& match write_need(f.data->0, offset, len) {
        Some(n) => alloc_fits(s.free, n),
        None => true,
    }
}

pub open spec fn spec_write(s: SnapView, p: Seq<u8>, offset: u64, buf: Seq<u8>) -> (SnapView, Seq<OpView>) {
    let f = entry_of(s.files, p);
    let (fr, d, ops) = spec_write_data(s.free, f.data->0, offset, buf);
    (with_free(s, put(opened(s.files, p), p, FileState { data: Some(d), ..f }), fr), ops)
}

pub open spec fn spec_truncate(s: SnapView, p: Seq<u8>, size: u64) -> SnapView {
    let f = entry_of(s.files, p);
    match f.data {
        Some(d) => {
            let (fr, d2) = spec_cut(s.free, d, size);
            with_free(
                s,
                put(opened(s.files, p), p, FileState { size: FileSize::Exactly(size), data: Some(d2), ..f }),
                fr,
            )
        },
        None => changed(s, p, FileState { size: FileSize::Exactly(size), ..f }),
    }
}

proof fn lemma_overlap_start_range(d: Seq<(u64, Block)>, i: int, offset: u64)
    requires
        0 <= i <= d.len(),
    ensures
        0 <= overlap_start(d, i, offset) <= i,
        forall|k: int| overlap_start(d, i, offset) <= k < i ==> d[k].0 + d[k].1.size > offset,
    decreases i,
{
    if i > 0 && d[i - 1].0 + d[i - 1].1.size > offset {
        lemma_overlap_start_range(d, i - 1, offset);
    }
}

fn find_overlap_start(d: &Vec<(u64, Block)>, lb: usize, offset: u64) -> (j: usize)
    requires
        lb <= d@.len(),
        data_wf(d@),
    ensures
        j == overlap_start(d@, lb as int, offset),
{
    let mut i = lb;
    while i > 0 && d[i - 1].0 + d[i - 1].1.size > offset
        invariant
            i <= lb <= d@.len(),
            data_wf(d@),
            overlap_start(d@, lb as int, offset) == overlap_start(d@, i as int, offset),
        decreases i,
    {
        assert(d@[i - 1].0 + d@[i - 1].1.size <= u64::MAX);
        i -= 1;
    }
    i
}

proof fn lemma_sorted_sub(d: Seq<(u64, Block)>, j: int, lb: int)
    requires
        keys_sorted(d),
        0 <= j <= lb <= d.len(),
    ensures
        keys_sorted(d.subrange(0, j) + d.subrange(lb, d.len() as int)),
{
    let r = d.subrange(0, j) + d.subrange(lb, d.len() as int);
    assert forall|a: int, b: int| 0 <= a < b < r.len() implies r[a].0 < r[b].0 by {
        let a2 = if a < j {
            a
        } else {
            a - j + lb
        };
        let b2 = if b < j {
            b
        } else {
            b - j + lb
        };
        assert(r[a] == d[a2] && r[b] == d[b2]);
    }
}

proof fn lemma_data_insert_wf(d: Seq<(u64, Block)>, k: u64, b: Block)
    requires
        data_wf(d),
        b.fits(),
        k + b.size <= u64::MAX,
    ensures
        keys_sorted(sorted_insert(d, k, b)),
        data_fits(sorted_insert(d, k, b)),
{
    lemma_sorted_insert_sorted(d, k, b);
    crate::keyed::lemma_sorted_insert_split(d, k, b);
    lemma_lower_bound_range(d, k);
    let r = sorted_insert(d, k, b);
    let lb = lower_bound(d, k);
    assert forall|i: int| 0 <= i < r.len() implies (#[trigger] r[i]).1.fits() && r[i].0 + r[i].1.size <= u64::MAX by {
        if i < lb {
            assert(r[i] == d[i]);
        } else if i == lb {
            assert(r[i] == (k, b));
        } else if lb < d.len() && d[lb].0 == k {
            assert(r[i] == d[i]);
        } else {
            assert(r[i] == d[i - 1]);
        }
    }
}

/// Cuts a data list at `size`.
fn cut_data(free: &mut FreeList, d: &mut Vec<(u64, Block)>, size: u64)
    requires
        free_wf(old(free)@),
        data_wf(old(d)@),
    ensures
        (final(free)@, final(d)@) == spec_cut(old(free)@, old(d)@, size),
        free_wf(final(free)@),
        data_wf(final(d)@),
{
    let lb = find_lower_bound(d, size);
    proof {
        lemma_lower_bound_range(d@, size);
    }
    let mut i = lb;
    while i < d.len()
        invariant
            lb <= i <= d@.len(),
            d@ == old(d)@,
            lb == lower_bound(d@, size),
            data_wf(d@),
            free_wf(free@),
            free@ == free_all(old(free)@, d@.subrange(lb as int, i as int)),
        decreases d@.len() - i,
    {
        assert(d@[i as int].1.fits());
        free.deallocate(d[i].1);
        assert(d@.subrange(lb as int, i + 1).drop_last() =~= d@.subrange(lb as int, i as int));
        i += 1;
    }
    d.truncate(lb);
    assert(data_wf(d@)) by {
        assert forall|a: int| 0 <= a < d@.len() implies d@[a] == old(d)@[a] by {}
    };
    if lb > 0 && d[lb - 1].0 + d[lb - 1].1.size > size {
        let (k, b) = d[lb - 1];
        let cut = k + b.size - size;
        free.deallocate(Block { location: b.location + (b.size - cut), size: cut });
        d.set(lb - 1, (k, Block { location: b.location, size: b.size - cut }));
        proof {
            let kept = old(d)@.subrange(0, lb as int);
            assert(d@ =~= kept.update(lb - 1, (k, Block { location: b.location, size: (b.size - cut) as u64 })));
            assert forall|a: int, c: int| 0 <= a < c < d@.len() implies d@[a].0 < d@[c].0 by {
                assert(d@[a].0 == kept[a].0 && d@[c].0 == kept[c].0);
            }
            assert forall|a: int| 0 <= a < d@.len() implies (#[trigger] d@[a]).1.fits() && d@[a].0 + d@[a].1.size <= u64::MAX by {
                if a != lb - 1 {
                    assert(d@[a] == kept[a]);
                }
            }
        }
    }
}

/// Moves the entries `d[lb..]` after `d[..j]`.
fn splice_out(d: &mut Vec<(u64, Block)>, j: usize, lb: usize)
    requires
        j <= lb <= old(d)@.len(),
    ensures
        final(d)@ == old(d)@.subrange(0, j as int) + old(d)@.subrange(lb as int, old(d)@.len() as int),
{
    let mut tail = d.split_off(lb);
    d.truncate(j);
    d.append(&mut tail);
}

/// Records a write of `buf` at `offset` in the data list `d`.
fn write_data(free: &mut FreeList, d: &mut Vec<(u64, Block)>, offset: u64, buf: &Vec<u8>) -> (ops: Vec<DataOp>)
    requires
        free_wf(old(free)@),
        data_wf(old(d)@),
        offset + buf@.len() <= u64::MAX,
        match write_need(old(d)@, offset, buf@.len() as u64) {
            Some(n) => alloc_fits(old(free)@, n),
            None => true,
        },
    ensures
        (final(free)@, final(d)@, op_list(ops@)) == spec_write_data(old(free)@, old(d)@, offset, buf@),
        free_wf(final(free)@),
        data_wf(final(d)@),
{
    proof {
        lemma_write_keeps_disjoint(old(free)@, old(d)@, offset, buf@);
    }
    let len = buf.len() as u64;
    let end = offset + len;
    let lb = find_lower_bound(d, end);
    proof {
        lemma_lower_bound_range(d@, end);
    }
    let j = find_overlap_start(d, lb, offset);
    proof {
        lemma_overlap_start_range(d@, lb as int, offset);
    }
    let ghost w = write_plan(d@, offset, len);
    let mut ops: Vec<DataOp> = Vec::new();
    if j == lb {
        let b = free.allocate(len);
        ops.push(DataOp::Write { location: b.location, data: copy_bytes(buf) });
        proof {
            lemma_data_insert_wf(d@, offset, b);
        }
        insert_sorted(d, offset, b);
        assert(op_list(ops@) =~= seq![OpView::Write { location: b.location, data: buf@ }]);
        return ops;
    }
    assert(d@[j as int].0 + d@[j as int].1.size <= u64::MAX);
    if lb - j == 1 && d[j].0 <= offset && end <= d[j].0 + d[j].1.size {
        assert(d@[j as int].1.fits());
        let location = d[j].1.location + (offset - d[j].0);
        ops.push(DataOp::Write { location, data: copy_bytes(buf) });
        assert(op_list(ops@) =~= seq![OpView::Write { location, data: buf@ }]);
        return ops;
    }
    let first = d[j];
    let last = d[lb - 1];
    assert(d@[lb - 1].0 + d@[lb - 1].1.size <= u64::MAX && d@[lb - 1].1.fits());
    assert(last.1.fits());
    let keep_before = if offset > first.0 {
        offset - first.0
    } else {
        0
    };
    let keep_after = if last.0 + last.1.size > end {
        last.0 + last.1.size - end
    } else {
        0
    };
    let need = keep_before + len + keep_after;
    let b = free.allocate(need);
    if keep_before != 0 {
        ops.push(DataOp::Move { from: first.1.location, to: b.location, size: keep_before });
    }
    ops.push(DataOp::Write { location: b.location + keep_before, data: copy_bytes(buf) });
    if keep_after != 0 {
        ops.push(
            DataOp::Move {
                from: last.1.location + (last.1.size - keep_after),
                to: b.location + keep_before + len,
                size: keep_after,
            },
        );
    }
    proof {
        let before = if keep_before != 0 {
            seq![OpView::Move { from: first.1.location, to: b.location, size: keep_before }]
        } else {
            Seq::empty()
        };
        let after = if keep_after != 0 {
            seq![
                OpView::Move {
                    from: (last.1.location + (last.1.size - keep_after)) as u64,
                    to: (b.location + keep_before + len) as u64,
                    size: keep_after,
                },
            ]
        } else {
            Seq::empty()
        };
        assert(op_list(ops@) =~= before + seq![OpView::Write { location: (b.location + keep_before) as u64, data: buf@ }] + after);
    }
    let ghost free1 = free@;
    let ghost dd = d@;
    let ghost sub = dd.subrange(j as int, lb as int);
    let mut k = lb;
    while k > j
        invariant
            j <= k <= lb <= dd.len(),
            d@ == dd,
            data_wf(dd),
            sub == dd.subrange(j as int, lb as int),
            free_wf(free@),
            free@ == free_from_back(free1, sub, k - j),
        decreases k,
    {
        k -= 1;
        assert(dd[k as int].1.fits());
        assert(sub[k - j] == dd[k as int]);
        free.deallocate(d[k].1);
    }
    let logical = if first.0 < offset {
        first.0
    } else {
        offset
    };
    splice_out(d, j, lb);
    proof {
        lemma_sorted_sub(dd, j as int, lb as int);
        let r = d@;
        assert forall|i: int| 0 <= i < r.len() implies (#[trigger] r[i]).1.fits() && r[i].0 + r[i].1.size <= u64::MAX by {
            if i < j {
                assert(r[i] == dd[i]);
            } else {
                assert(r[i] == dd[i - j + lb]);
            }
        }
        lemma_data_insert_wf(d@, logical, b);
    }
    insert_sorted(d, logical, b);
    ops
}

// ---------------------------------------------------------------------------
// Reading back a write

/// The entry covers the byte at offset `x` of the file.
pub open spec fn covers(e: (u64, Block), x: int) -> bool {
    e.0 <= x < e.0 + e.1.size
}

/// Where in the snapshot file the byte at offset `x` of the file is kept,
/// if an entry covers it.
pub open spec fn locate(d: Seq<(u64, Block)>, x: int) -> Option<int> {
    if exists|i: int| 0 <= i < d.len() && covers(#[trigger] d[i], x) {
        let i = choose|i: int| 0 <= i < d.len() && covers(#[trigger] d[i], x);
        Some(d[i].1.location + (x - d[i].0))
    } else {
        None
    }
}

/// The byte at `y` of the snapshot file once `ops` are done, where `c` gave
/// its bytes before.
pub open spec fn byte_after(c: spec_fn(int) -> u8, ops: Seq<OpView>, y: int) -> u8
    decreases ops.len(),
{
    if ops.len() == 0 {
        c(y)
    } else {
        match ops.last() {
            OpView::Write { location, data } => if location <= y < location + data.len() {
                data[y - location]
            } else {
                byte_after(c, ops.drop_last(), y)
            },
            OpView::Move { from, to, size } => if to <= y < to + size {
                byte_after(c, ops.drop_last(), from + (y - to))
            } else {
                byte_after(c, ops.drop_last(), y)
            },
        }
    }
}

/// Where in the snapshot file a write's first byte goes.
pub open spec fn write_location(f: FreeView, d: Seq<(u64, Block)>, offset: u64, len: u64) -> int {
    let w = write_plan(d, offset, len);
    if w.lb == w.j {
        spec_allocate(f, len).1.location as int
    } else if w.in_place is Some {
        w.in_place->0 as int
    } else {
        spec_allocate(f, (w.keep_before + len + w.keep_after) as u64).1.location + w.keep_before
    }
}

proof fn lemma_overlap_start_stop(d: Seq<(u64, Block)>, i: int, offset: u64)
    requires
        0 <= i <= d.len(),
    ensures
        overlap_start(d, i, offset) > 0 ==> d[overlap_start(d, i, offset) - 1].0 + d[overlap_start(
            d,
            i,
            offset,
        ) - 1].1.size <= offset,
    decreases i,
{
    if i > 0 && d[i - 1].0 + d[i - 1].1.size > offset {
        lemma_overlap_start_stop(d, i - 1, offset);
    }
}

/// How the entries of a sorted, disjoint data list stand to a write of `len`
/// bytes at `offset`: those before `j` end at or before it, those from `lb`
/// on start at or after its end.
proof fn lemma_write_sides(d: Seq<(u64, Block)>, offset: u64, len: u64)
    requires
        data_wf(d),
        offset + len <= u64::MAX,
    ensures
        ({
            let w = write_plan(d, offset, len);
            &&& 0 <= w.j <= w.lb <= d.len()
            &&& forall|k: int| 0 <= k < w.j ==> #[trigger] d[k].0 + d[k].1.size <= offset
            &&& forall|k: int| w.lb <= k < d.len() ==> #[trigger] d[k].0 >= offset + len
            &&& forall|k: int| 0 <= k < w.lb ==> #[trigger] d[k].0 < offset + len
            &&& forall|k: int| w.j <= k < w.lb ==> #[trigger] d[k].0 + d[k].1.size > offset
        }),
{
    let w = write_plan(d, offset, len);
    let e = (offset + len) as u64;
    lemma_lower_bound_range(d, e);
    lemma_overlap_start_range(d, w.lb, offset);
    lemma_overlap_start_stop(d, w.lb, offset);
    assert forall|k: int| w.lb <= k < d.len() implies #[trigger] d[k].0 >= offset + len by {
        if k > w.lb {
            assert(d[w.lb].0 < d[k].0);
        }
    }
    assert forall|k: int| 0 <= k < w.j implies #[trigger] d[k].0 + d[k].1.size <= offset by {
        if k < w.j - 1 {
            assert(d[k].0 + d[k].1.size <= d[w.j - 1].0);
        }
    }
}

/// Exactly one entry of a disjoint data list covers a byte it covers.
proof fn lemma_locate_at(d: Seq<(u64, Block)>, i: int, x: int)
    requires
        data_disjoint(d),
        0 <= i < d.len(),
        covers(d[i], x),
    ensures
        locate(d, x) == Some(d[i].1.location + (x - d[i].0)),
{
    let k = choose|k: int| 0 <= k < d.len() && covers(#[trigger] d[k], x);
    if k < i {
        assert(d[k].0 + d[k].1.size <= d[i].0);
    } else if i < k {
        assert(d[i].0 + d[i].1.size <= d[k].0);
    }
}

/// Keeping the entries before `j` and from `lb` on keeps a list disjoint.
proof fn lemma_sub_disjoint(d: Seq<(u64, Block)>, j: int, lb: int)
    requires
        data_disjoint(d),
        0 <= j <= lb <= d.len(),
    ensures
        data_disjoint(d.subrange(0, j) + d.subrange(lb, d.len() as int)),
{
    let r = d.subrange(0, j) + d.subrange(lb, d.len() as int);
    assert forall|a: int, b: int| #![trigger r[a], r[b]] 0 <= a < b < r.len() implies r[a].0 + r[a].1.size <= r[b].0 by {
        let a2 = if a < j {
            a
        } else {
            a - j + lb
        };
        let b2 = if b < j {
            b
        } else {
            b - j + lb
        };
        assert(r[a] == d[a2] && r[b] == d[b2]);
    }
}

/// Putting in an entry that overlaps no entry keeps a list disjoint, and the
/// entry is then found at the lower bound of its key.
proof fn lemma_insert_disjoint(s: Seq<(u64, Block)>, k: u64, b: Block)
    requires
        keys_sorted(s),
        data_disjoint(s),
        forall|i: int| 0 <= i < s.len() && #[trigger] s[i].0 < k ==> s[i].0 + s[i].1.size <= k,
        forall|i: int| 0 <= i < s.len() && #[trigger] s[i].0 > k ==> k + b.size <= s[i].0,
    ensures
        data_disjoint(sorted_insert(s, k, b)),
        0 <= lower_bound(s, k) < sorted_insert(s, k, b).len(),
        sorted_insert(s, k, b)[lower_bound(s, k)] == (k, b),
{
    crate::keyed::lemma_sorted_insert_split(s, k, b);
    lemma_lower_bound_range(s, k);
    let p = lower_bound(s, k);
    let r = sorted_insert(s, k, b);
    let skip = p < s.len() && s[p].0 == k;
    // Index in `s` of an entry of `r` other than the new one.
    assert forall|a: int, c: int| #![trigger r[a], r[c]] 0 <= a < c < r.len() implies r[a].0 + r[a].1.size <= r[c].0 by {
        let a2 = if a < p {
            a
        } else if skip {
            a
        } else {
            a - 1
        };
        let c2 = if c < p {
            c
        } else if skip {
            c
        } else {
            c - 1
        };
        if a == p {
            assert(r[a] == (k, b));
            assert(r[c] == s[c2]);
            assert(s[c2].0 > k) by {
                if skip {
                    assert(s[p].0 < s[c2].0);
                } else if c2 > p {
                    assert(s[p].0 < s[c2].0);
                }
            }
        } else if c == p {
            assert(r[c] == (k, b));
            assert(r[a] == s[a2]);
        } else {
            assert(r[a] == s[a2] && r[c] == s[c2]);
            assert(a2 < c2);
        }
    }
}

/// A write leaves the data list disjoint.
proof fn lemma_write_keeps_disjoint(f: FreeView, d: Seq<(u64, Block)>, offset: u64, buf: Seq<u8>)
    requires
        free_wf(f),
        data_wf(d),
        offset + buf.len() <= u64::MAX,
        match write_need(d, offset, buf.len() as u64) {
            Some(n) => alloc_fits(f, n),
            None => true,
        },
    ensures
        data_disjoint(spec_write_data(f, d, offset, buf).1),
{
    let len = buf.len() as u64;
    let w = write_plan(d, offset, len);
    lemma_write_sides(d, offset, len);
    if w.lb == w.j {
        crate::freelist::lemma_allocate_fits(f, len);
        let b = spec_allocate(f, len).1;
        assert forall|i: int| 0 <= i < d.len() && #[trigger] d[i].0 > offset implies offset + b.size <= d[i].0 by {
            if i < w.lb {
                assert(d[i].0 + d[i].1.size <= offset);
            }
        }
        lemma_insert_disjoint(d, offset, b);
    } else if w.in_place is Some {
    } else {
        let first = d[w.j];
        let last = d[w.lb - 1];
        let need = (w.keep_before + len + w.keep_after) as u64;
        crate::freelist::lemma_allocate_fits(f, need);
        let b = spec_allocate(f, need).1;
        let logical = if first.0 < offset {
            first.0
        } else {
            offset
        };
        let rest = d.subrange(0, w.j) + d.subrange(w.lb, d.len() as int);
        lemma_sub_disjoint(d, w.j, w.lb);
        lemma_sorted_sub(d, w.j, w.lb);
        assert(logical + need <= offset + len + w.keep_after);
        assert forall|i: int| 0 <= i < rest.len() && #[trigger] rest[i].0 < logical implies rest[i].0
            + rest[i].1.size <= logical by {
            if i < w.j {
                assert(rest[i] == d[i]);
                if logical < offset {
                    assert(d[i].0 + d[i].1.size <= d[w.lb - 1].0);
                }
            } else {
                assert(rest[i] == d[i - w.j + w.lb]);
            }
        }
        assert forall|i: int| 0 <= i < rest.len() && #[trigger] rest[i].0 > logical implies logical
            + b.size <= rest[i].0 by {
            if i < w.j {
                assert(rest[i] == d[i]);
            } else {
                let k = i - w.j + w.lb;
                assert(rest[i] == d[k]);
                if w.keep_after != 0 {
                    assert(d[w.j].0 + d[w.j].1.size <= d[k].0);
                }
            }
        }
        lemma_insert_disjoint(rest, logical, b);
    }
}

/// A write to a data list reads back: afterwards each byte of the written
/// range of the file is kept where the write put it, and the snapshot file
/// holds there the byte that was written, whatever it held before.
#[verifier::rlimit(50)]
#[verifier::spinoff_prover]
proof fn lemma_write_reads_back(
    f: FreeView,
    d: Seq<(u64, Block)>,
    offset: u64,
    buf: Seq<u8>,
    c: spec_fn(int) -> u8,
    x: int,
)
    requires
        free_wf(f),
        data_wf(d),
        offset + buf.len() <= u64::MAX,
        match write_need(d, offset, buf.len() as u64) {
            Some(n) => alloc_fits(f, n),
            None => true,
        },
        offset <= x < offset + buf.len(),
    ensures
        ({
            let (f2, d2, ops) = spec_write_data(f, d, offset, buf);
            let at = write_location(f, d, offset, buf.len() as u64) + (x - offset);
            &&& locate(d2, x) == Some(at)
            &&& byte_after(c, ops, at) == buf[x - offset]
        }),
{
    let len = buf.len() as u64;
    let w = write_plan(d, offset, len);
    let (f2, d2, ops) = spec_write_data(f, d, offset, buf);
    let at = write_location(f, d, offset, len) + (x - offset);
    lemma_write_sides(d, offset, len);
    lemma_write_keeps_disjoint(f, d, offset, buf);
    if w.lb == w.j {
        crate::freelist::lemma_allocate_fits(f, len);
        let b = spec_allocate(f, len).1;
        assert forall|i: int| 0 <= i < d.len() && #[trigger] d[i].0 > offset implies offset + b.size <= d[i].0 by {
            if i < w.lb {
                assert(d[i].0 + d[i].1.size <= offset);
            }
        }
        lemma_insert_disjoint(d, offset, b);
        lemma_locate_at(d2, lower_bound(d, offset), x);
        assert(ops.last() == OpView::Write { location: b.location, data: buf });
        assert(locate(d2, x) == Some(at));
        assert(byte_after(c, ops, at) == buf[x - offset]);
    } else if w.in_place is Some {
        assert(covers(d[w.j], x));
        lemma_locate_at(d2, w.j, x);
        assert(ops.last() == OpView::Write { location: w.in_place->0, data: buf });
        assert(locate(d2, x) == Some(at));
        assert(byte_after(c, ops, at) == buf[x - offset]);
    } else {
        let first = d[w.j];
        let last = d[w.lb - 1];
        let need = (w.keep_before + len + w.keep_after) as u64;
        crate::freelist::lemma_allocate_fits(f, need);
        let b = spec_allocate(f, need).1;
        let logical = if first.0 < offset {
            first.0
        } else {
            offset
        };
        let rest = d.subrange(0, w.j) + d.subrange(w.lb, d.len() as int);
        lemma_sub_disjoint(d, w.j, w.lb);
        lemma_sorted_sub(d, w.j, w.lb);
        assert forall|i: int| 0 <= i < rest.len() && #[trigger] rest[i].0 < logical implies rest[i].0
            + rest[i].1.size <= logical by {
            if i < w.j {
                assert(rest[i] == d[i]);
                if logical < offset {
                    assert(d[i].0 + d[i].1.size <= d[w.lb - 1].0);
                }
            } else {
                assert(rest[i] == d[i - w.j + w.lb]);
            }
        }
        assert forall|i: int| 0 <= i < rest.len() && #[trigger] rest[i].0 > logical implies logical
            + b.size <= rest[i].0 by {
            if i < w.j {
                assert(rest[i] == d[i]);
            } else {
                let k = i - w.j + w.lb;
                assert(rest[i] == d[k]);
                if w.keep_after != 0 {
                    assert(d[w.j].0 + d[w.j].1.size <= d[k].0);
                }
            }
        }
        lemma_insert_disjoint(rest, logical, b);
        assert(covers((logical, b), x));
        lemma_locate_at(d2, lower_bound(rest, logical), x);
        assert(w.keep_before + len + w.keep_after <= u64::MAX) by {
            if w.lb - 1 > w.j {
                assert(d[w.j].0 + d[w.j].1.size <= d[w.lb - 1].0);
            }
        }
        assert(b.location + w.keep_before + len + w.keep_after <= u64::MAX);
        let wr = OpView::Write { location: (b.location + w.keep_before) as u64, data: buf };
        let before = if w.keep_before != 0 {
            seq![OpView::Move { from: first.1.location, to: b.location, size: w.keep_before }]
        } else {
            Seq::empty()
        };
        let after = if w.keep_after != 0 {
            seq![
                OpView::Move {
                    from: (last.1.location + (last.1.size - w.keep_after)) as u64,
                    to: (b.location + w.keep_before + len) as u64,
                    size: w.keep_after,
                },
            ]
        } else {
            Seq::empty()
        };
        assert(ops == before + seq![wr] + after);
        if w.keep_after != 0 {
            let ops1 = ops.drop_last();
            assert(ops1 =~= before + seq![wr]);
            assert(ops1.last() == wr);
            assert(byte_after(c, ops1, at) == buf[x - offset]);
            assert(ops.last() == after[0]);
        } else {
            assert(ops.last() == wr);
        }
        assert(locate(d2, x) == Some(at));
        assert(byte_after(c, ops, at) == buf[x - offset]);
    }
}

/// No two entries of a data list keep bytes at the same place of the
/// snapshot file.
pub open spec fn blocks_apart(d: Seq<(u64, Block)>) -> bool {
    forall|i: int, k: int| #![trigger d[i], d[k]] 0 <= i < k < d.len() ==> d[i].1.size == 0 || d[k].1.size == 0
        || d[i].1.location + d[i].1.size <= d[k].1.location || d[k].1.location + d[k].1.size
        <= d[i].1.location
}

/// Where an entry keeps bytes, the snapshot file's space is not free.
pub open spec fn blocks_in_use(d: Seq<(u64, Block)>, f: FreeView) -> bool {
    forall|i: int, y: int| #![trigger d[i], free_set(f).contains(y)]
        0 <= i < d.len() && d[i].1.location <= y < d[i].1.location + d[i].1.size ==> !free_set(f).contains(y)
}

/// The operation puts bytes at `y`.
pub open spec fn writes_at(op: OpView, y: int) -> bool {
    match op {
        OpView::Write { location, data } => location <= y < location + data.len(),
        OpView::Move { to, size, .. } => to <= y < to + size,
    }
}

/// Operations none of which puts bytes at `y` leave the byte there as it was.
proof fn lemma_byte_untouched(c: spec_fn(int) -> u8, ops: Seq<OpView>, y: int)
    requires
        forall|k: int| 0 <= k < ops.len() ==> !writes_at(#[trigger] ops[k], y),
    ensures
        byte_after(c, ops, y) == c(y),
    decreases ops.len(),
{
    if ops.len() > 0 {
        let t = ops.drop_last();
        assert(!writes_at(ops[ops.len() - 1], y));
        assert forall|k: int| 0 <= k < t.len() implies !writes_at(#[trigger] t[k], y) by {
            assert(t[k] == ops[k]);
        }
        lemma_byte_untouched(c, t, y);
    }
}

/// An entry of a sorted list whose key is not `k` is still there once an
/// entry with key `k` is put in.
proof fn lemma_insert_index<V>(s: Seq<(u64, V)>, k: u64, v: V, i: int) -> (idx: int)
    requires
        0 <= i < s.len(),
        s[i].0 != k,
    ensures
        0 <= idx < sorted_insert(s, k, v).len(),
        sorted_insert(s, k, v)[idx] == s[i],
{
    crate::keyed::lemma_sorted_insert_split(s, k, v);
    lemma_lower_bound_range(s, k);
    let p = lower_bound(s, k);
    if i < p {
        i
    } else if p < s.len() && s[p].0 == k {
        i
    } else {
        i + 1
    }
}

/// A write keeps the rest of the file: every byte of the file that was kept
/// before and lies outside the written range is kept afterwards at a place
/// that holds, once the write's operations are done, the byte its old place
/// held. This is for a data list whose entries keep bytes at distinct places
/// that are not free (a hard link shares the blocks of its source, which
/// this leaves out), and leaves out a write of nothing at an offset where
/// an entry covering the byte starts: that entry is replaced.
#[verifier::rlimit(80)]
#[verifier::spinoff_prover]
proof fn lemma_write_keeps_bytes(
    f: FreeView,
    d: Seq<(u64, Block)>,
    offset: u64,
    buf: Seq<u8>,
    c: spec_fn(int) -> u8,
    x: int,
)
    requires
        free_disjoint(f),
        data_wf(d),
        blocks_apart(d),
        blocks_in_use(d, f),
        offset + buf.len() <= u64::MAX,
        match write_need(d, offset, buf.len() as u64) {
            Some(n) => alloc_fits(f, n),
            None => true,
        },
        locate(d, x) is Some,
        x < offset || x >= offset + buf.len(),
        buf.len() == 0 ==> forall|i: int| 0 <= i < d.len() && d[i].0 == offset ==> !covers(#[trigger] d[i], x),
    ensures
        ({
            let (f2, d2, ops) = spec_write_data(f, d, offset, buf);
            &&& locate(d2, x) is Some
            &&& byte_after(c, ops, locate(d2, x)->0) == c(locate(d, x)->0)
        }),
{
    let len = buf.len() as u64;
    let w = write_plan(d, offset, len);
    let (f2, d2, ops) = spec_write_data(f, d, offset, buf);
    lemma_write_sides(d, offset, len);
    lemma_write_keeps_disjoint(f, d, offset, buf);
    let i = choose|i: int| 0 <= i < d.len() && covers(#[trigger] d[i], x);
    lemma_locate_at(d, i, x);
    let ll = d[i].1.location + (x - d[i].0);
    assert(!free_set(f).contains(ll));
    if w.lb == w.j {
        crate::freelist::lemma_allocate_fits(f, len);
        crate::freelist::lemma_allocate_takes_free(f, len);
        let b = spec_allocate(f, len).1;
        assert(!(b.location <= ll < b.location + b.size)) by {
            if b.location <= ll < b.location + b.size {
                assert(block_set(b).contains(ll));
            }
        }
        assert(d[i].0 != offset) by {
            if d[i].0 == offset && len > 0 {
                assert(i < w.lb);
            }
        }
        let idx = lemma_insert_index(d, offset, b, i);
        lemma_locate_at(d2, idx, x);
        assert(ops == seq![OpView::Write { location: b.location, data: buf }]);
        lemma_byte_untouched(c, ops, ll);
    } else if w.in_place is Some {
        let at = d[w.j].1.location + (offset - d[w.j].0);
        assert(ops == seq![OpView::Write { location: at as u64, data: buf }]);
        assert(!writes_at(ops[0], ll)) by {
            if i < w.j {
                assert(d[i].1.size == 0 || d[w.j].1.size == 0 || d[i].1.location + d[i].1.size
                    <= d[w.j].1.location || d[w.j].1.location + d[w.j].1.size <= d[i].1.location);
            } else if w.j < i {
                assert(d[w.j].1.size == 0 || d[i].1.size == 0 || d[w.j].1.location + d[w.j].1.size
                    <= d[i].1.location || d[i].1.location + d[i].1.size <= d[w.j].1.location);
            }
        }
        lemma_byte_untouched(c, ops, ll);
        lemma_locate_at(d2, i, x);
    } else {
        let first = d[w.j];
        let last = d[w.lb - 1];
        let need = (w.keep_before + len + w.keep_after) as u64;
        crate::freelist::lemma_allocate_fits(f, need);
        crate::freelist::lemma_allocate_takes_free(f, need);
        let b = spec_allocate(f, need).1;
        let logical = if first.0 < offset {
            first.0
        } else {
            offset
        };
        assert(w.keep_before + len + w.keep_after <= u64::MAX) by {
            if w.lb - 1 > w.j {
                assert(d[w.j].0 + d[w.j].1.size <= d[w.lb - 1].0);
            }
        }
        let rest = d.subrange(0, w.j) + d.subrange(w.lb, d.len() as int);
        lemma_sub_disjoint(d, w.j, w.lb);
        lemma_sorted_sub(d, w.j, w.lb);
        assert forall|a: int| 0 <= a < rest.len() && #[trigger] rest[a].0 < logical implies rest[a].0
            + rest[a].1.size <= logical by {
            if a < w.j {
                assert(rest[a] == d[a]);
                if a < w.j - 1 {
                    assert(d[a].0 + d[a].1.size <= d[w.j - 1].0);
                }
            } else {
                assert(rest[a] == d[a - w.j + w.lb]);
            }
        }
        assert forall|a: int| 0 <= a < rest.len() && #[trigger] rest[a].0 > logical implies logical
            + b.size <= rest[a].0 by {
            if a < w.j {
                assert(rest[a] == d[a]);
            } else {
                let k = a - w.j + w.lb;
                assert(rest[a] == d[k]);
                if w.keep_after != 0 && k > w.lb - 1 {
                    assert(d[w.lb - 1].0 + d[w.lb - 1].1.size <= d[k].0);
                }
            }
        }
        lemma_insert_disjoint(rest, logical, b);
        let wr = OpView::Write { location: (b.location + w.keep_before) as u64, data: buf };
        let before = if w.keep_before != 0 {
            seq![OpView::Move { from: first.1.location, to: b.location, size: w.keep_before }]
        } else {
            Seq::empty()
        };
        let after = if w.keep_after != 0 {
            seq![
                OpView::Move {
                    from: (last.1.location + (last.1.size - w.keep_after)) as u64,
                    to: (b.location + w.keep_before + len) as u64,
                    size: w.keep_after,
                },
            ]
        } else {
            Seq::empty()
        };
        let ops_b = before + seq![wr];
        assert(ops == ops_b + after);
        assert(!(b.location <= ll < b.location + b.size)) by {
            if b.location <= ll < b.location + b.size {
                assert(block_set(b).contains(ll));
            }
        }
        // Every operation puts bytes inside the new block, which was free.
        assert forall|k: int| 0 <= k < ops.len() implies !writes_at(#[trigger] ops[k], ll) by {
            if k < before.len() {
                assert(ops[k] == before[k]);
            } else if k == before.len() {
                assert(ops[k] == wr);
            } else {
                assert(ops[k] == after[k - before.len() - 1]);
            }
        }
        assert forall|k: int| 0 <= k < ops_b.len() implies !writes_at(#[trigger] ops_b[k], ll) by {
            assert(ops_b[k] == ops[k]);
        }
        if i < w.j || i >= w.lb {
            let ri = if i < w.j {
                i
            } else {
                i - w.lb + w.j
            };
            assert(rest[ri] == d[i]);
            assert(rest[ri].0 != logical) by {
                if rest[ri].0 == logical {
                    if i < w.j {
                        if i < w.j - 1 {
                            assert(d[i].0 + d[i].1.size <= d[w.j - 1].0);
                        }
                        if first.0 < offset {
                            assert(d[i].0 < d[w.j].0);
                        }
                    } else if len > 0 {
                        assert(d[i].0 >= offset + len);
                    }
                }
            }
            let idx = lemma_insert_index(rest, logical, b, ri);
            lemma_locate_at(d2, idx, x);
            lemma_byte_untouched(c, ops, ll);
        } else {
            // The byte lies in the lowest overlapped block before the write,
            // or in the highest one after it.
            assert(i == w.j && x < offset || i == w.lb - 1 && x >= offset + len) by {
                if w.j < i {
                    assert(d[w.j].0 + d[w.j].1.size <= d[i].0);
                }
                if i < w.lb - 1 {
                    assert(d[i].0 + d[i].1.size <= d[w.lb - 1].0);
                }
            }
            let ni = lower_bound(rest, logical);
            assert(covers(d2[ni], x));
            lemma_locate_at(d2, ni, x);
            let y = b.location + (x - logical);
            if i == w.j && x < offset {
                assert(w.keep_before != 0);
                assert(ops_b == before + seq![wr]);
                if w.keep_after != 0 {
                    assert(ops.drop_last() =~= ops_b);
                    assert(ops.last() == after[0]);
                } else {
                    assert(ops =~= ops_b);
                }
                assert(ops_b.drop_last() =~= before);
                assert(ops_b.last() == wr);
                assert(before.drop_last() =~= Seq::<OpView>::empty());
                assert(logical == first.0);
                assert(first == d[i]);
                assert(w.keep_before == offset - first.0);
                assert(b.location <= y < b.location + w.keep_before);
                assert(first.1.location + (y - b.location) == ll);
                assert(byte_after(c, before.drop_last(), ll) == c(ll));
                assert(byte_after(c, before, y) == c(ll));
                assert(byte_after(c, ops_b, y) == c(ll));
            } else {
                assert(w.keep_after != 0);
                assert(ops.drop_last() =~= ops_b);
                assert(ops.last() == after[0]);
                lemma_byte_untouched(c, ops_b, ll);
            }
        }
    }
}

/// A recorded write reads back: once a write of `buf` at `offset` of `p` is
/// recorded and its operations are done on the snapshot file, the data of
/// `p` keeps each byte of the written range at a place of the snapshot file
/// that holds the byte written there, whatever the file held before.
pub proof fn lemma_encode_write_reads_back(
    s: SnapView,
    p: Seq<u8>,
    offset: u64,
    buf: Seq<u8>,
    c: spec_fn(int) -> u8,
    x: int,
)
    requires
        snap_wf(s),
        offset + buf.len() <= u64::MAX,
        write_ok(s, p, offset, buf.len() as u64),
        offset <= x < offset + buf.len(),
    ensures
        ({
            let (s2, ops) = spec_write(s, p, offset, buf);
            let at = write_location(s.free, entry_of(s.files, p).data->0, offset, buf.len() as u64) + (
            x - offset);
            &&& locate(entry_of(s2.files, p).data->0, x) == Some(at)
            &&& byte_after(c, ops, at) == buf[x - offset]
        }),
{
    lemma_entry_of_wf(s, p);
    let f = entry_of(s.files, p);
    let d = f.data->0;
    lemma_write_reads_back(s.free, d, offset, buf, c, x);
    let (fr, d2, ops) = spec_write_data(s.free, d, offset, buf);
    lemma_entry_after_put(s, p, FileState { data: Some(d2), ..f });
}

/// A recorded write keeps the rest of the file: once a write of `buf` at
/// `offset` of `p` is recorded and its operations are done on the snapshot
/// file, each byte of `p` that was kept before and lies outside the written
/// range is kept at a place that holds the byte its old place held. This is
/// for a file whose blocks are distinct and not free (a hard link shares
/// the blocks of its source, which this leaves out), and leaves out a write
/// of nothing at an offset where an entry covering the byte starts.
pub proof fn lemma_encode_write_keeps_bytes(
    s: SnapView,
    p: Seq<u8>,
    offset: u64,
    buf: Seq<u8>,
    c: spec_fn(int) -> u8,
    x: int,
)
    requires
        snap_wf(s),
        free_disjoint(s.free),
        offset + buf.len() <= u64::MAX,
        write_ok(s, p, offset, buf.len() as u64),
        blocks_apart(entry_of(s.files, p).data->0),
        blocks_in_use(entry_of(s.files, p).data->0, s.free),
        locate(entry_of(s.files, p).data->0, x) is Some,
        x < offset || x >= offset + buf.len(),
        buf.len() == 0 ==> forall|i: int|
            0 <= i < entry_of(s.files, p).data->0.len() && (#[trigger] entry_of(s.files, p).data->0[i]).0
                == offset ==> !covers(entry_of(s.files, p).data->0[i], x),
    ensures
        ({
            let (s2, ops) = spec_write(s, p, offset, buf);
            let d = entry_of(s.files, p).data->0;
            &&& locate(entry_of(s2.files, p).data->0, x) is Some
            &&& byte_after(c, ops, locate(entry_of(s2.files, p).data->0, x)->0) == c(locate(d, x)->0)
        }),
{
    lemma_entry_of_wf(s, p);
    let f = entry_of(s.files, p);
    let d = f.data->0;
    lemma_write_keeps_bytes(s.free, d, offset, buf, c, x);
    let (fr, d2, ops) = spec_write_data(s.free, d, offset, buf);
    lemma_entry_after_put(s, p, FileState { data: Some(d2), ..f });
}

/// The entry of a path in a well-formed snapshot is well formed.
proof fn lemma_entry_of_wf(s: SnapView, p: Seq<u8>)
    requires
        snap_wf(s),
    ensures
        file_wf(entry_of(s.files, p)),
        unique_keys(opened(s.files, p)),
{
    let o = opened(s.files, p);
    lemma_key_index_range(s.files, p);
    lemma_key_index_range(o, p);
    lemma_opened_wf(s.files, p);
    assert(key_index(o, p) < o.len()) by {
        if key_index(s.files, p) == s.files.len() {
            assert(o[s.files.len() as int].0 == p);
        }
    }
    assert(file_wf(o[key_index(o, p)].1));
    assert(unique_keys(o)) by {
        if key_index(s.files, p) == s.files.len() {
            assert forall|a: int, b: int| 0 <= a < b < o.len() implies o[a].0 != o[b].0 by {
                if b == s.files.len() {
                    assert(o[a] == s.files[a]);
                }
            }
        }
    }
}

/// Once `p` is put in the table, its entry is what was put.
proof fn lemma_entry_after_put(s: SnapView, p: Seq<u8>, v: FileState)
    requires
        unique_keys(opened(s.files, p)),
    ensures
        entry_of(put(opened(s.files, p), p, v), p) == v,
{
    let o = opened(s.files, p);
    lemma_put_unique(o, p, v);
    let t = put(o, p, v);
    lemma_key_index_range(t, p);
    assert(opened(t, p) == t);
}

/// What a truncation leaves of a data list: below the size each byte is
/// kept where it was, at and past it no byte is kept.
proof fn lemma_cut_reads(f: FreeView, d: Seq<(u64, Block)>, size: u64, x: int)
    requires
        data_wf(d),
    ensures
        locate(spec_cut(f, d, size).1, x) == if x < size {
            locate(d, x)
        } else {
            None
        },
{
    let lb = lower_bound(d, size);
    lemma_lower_bound_range(d, size);
    let d2 = spec_cut(f, d, size).1;
    let kept = d.subrange(0, lb);
    let shortened = lb > 0 && kept[lb - 1].0 + kept[lb - 1].1.size > size;
    assert(d2.len() == lb);
    // Each kept entry covers part of what it covered before, and nothing at
    // or past the size.
    assert forall|i: int| 0 <= i < d2.len() implies d2[i].0 == d[i].0 && d2[i].1.location == d[i].1.location
        && d2[i].1.size <= d[i].1.size && d2[i].0 + d2[i].1.size <= size by {
        if i < lb - 1 {
            assert(d[i].0 + d[i].1.size <= d[lb - 1].0);
        }
    }
    assert(data_disjoint(d2)) by {
        assert forall|a: int, b: int| #![trigger d2[a], d2[b]] 0 <= a < b < d2.len() implies d2[a].0
            + d2[a].1.size <= d2[b].0 by {
            assert(d[a].0 + d[a].1.size <= d[b].0);
        }
    }
    if x < size {
        if exists|i: int| 0 <= i < d.len() && covers(#[trigger] d[i], x) {
            let i = choose|i: int| 0 <= i < d.len() && covers(#[trigger] d[i], x);
            lemma_locate_at(d, i, x);
            assert(i < lb) by {
                if i >= lb && lb < d.len() && i > lb {
                    assert(d[lb].0 < d[i].0);
                }
            }
            assert(covers(d2[i], x)) by {
                if i == lb - 1 && shortened {
                } else {
                    assert(d2[i] == d[i]);
                }
            }
            lemma_locate_at(d2, i, x);
        } else {
            assert forall|i: int| 0 <= i < d2.len() implies !covers(#[trigger] d2[i], x) by {
                if covers(d2[i], x) {
                    assert(covers(d[i], x));
                }
            }
        }
    } else {
        assert forall|i: int| 0 <= i < d2.len() implies !covers(#[trigger] d2[i], x) by {}
    }
}

/// A truncation reads as one: afterwards the data of `p` keeps each byte
/// below the new size where it was kept before, and keeps no byte at or
/// past it.
pub proof fn lemma_truncate_reads(s: SnapView, p: Seq<u8>, size: u64, x: int)
    requires
        snap_wf(s),
        entry_of(s.files, p).data is Some,
    ensures
        locate(entry_of(spec_truncate(s, p, size).files, p).data->0, x) == if x < size {
            locate(entry_of(s.files, p).data->0, x)
        } else {
            None
        },
{
    lemma_entry_of_wf(s, p);
    let f = entry_of(s.files, p);
    let d = f.data->0;
    lemma_cut_reads(s.free, d, size, x);
    let (fr, d2) = spec_cut(s.free, d, size);
    lemma_entry_after_put(s, p, FileState { size: FileSize::Exactly(size), data: Some(d2), ..f });
}

// ---------------------------------------------------------------------------
// Merging operations

/// The data a new hard link to `from` starts with: that of `from` when the
/// snapshot has it, none otherwise.
pub open spec fn link_data(files: Seq<(Seq<u8>, FileState)>, from: Seq<u8>) -> Seq<(u64, Block)> {
    let i = key_index(files, from);
    if i < files.len() {
        files[i].1.data->0
    } else {
        Seq::empty()
    }
}

pub open spec fn absent(files: Seq<(Seq<u8>, FileState)>, p: Seq<u8>) -> bool {
    key_index(files, p) == files.len()
}

/// The operations a snapshot can take in its state: new nodes carry Unix
/// owners and have no entry yet, a hard link's source has data, writes fit,
/// and `fallocate`'s end does not overflow. A truncating write is never
/// recorded.
#[verifier::opaque]
pub open spec fn mergeable(s: SnapView, c: CallView) -> bool {
    match c {
        CallView::mknod { path, security, .. } => security is Unix && absent(s.files, path),
        CallView::mkdir { path, security, .. } => security is Unix && absent(s.files, path),
        CallView::symlink { to, security, .. } => security is Unix && absent(s.files, to),
        CallView::link { from, to, security } => {
            &&& security is Unix
            &&& absent(s.files, to)
            &&& key_index(s.files, from) < s.files.len() ==> s.files[key_index(s.files, from)].1.data is Some
        },
        CallView::create { security, .. } => security is Unix,
        CallView::security { security, .. } => security is Unix,
        CallView::truncating_write { .. } => false,
        CallView::fallocate { offset, length, .. } => i64::MIN <= offset + length <= i64::MAX,
        CallView::write { path, offset, buf } => write_ok(s, path, offset as u64, buf.len() as u64),
        CallView::diff_write { path, offset, buf } => write_ok(s, path, offset as u64, buf.len() as u64),
        _ => true,
    }
}

/// What merging one operation does to a snapshot, and the writes to its file.
#[verifier::opaque]
pub open spec fn spec_merge(s: SnapView, c: CallView) -> (SnapView, Seq<OpView>) {
    match c {
        CallView::rename { from, to, .. } => (spec_rename(s, from, to), Seq::empty()),
        CallView::mknod { path, mode, rdev, security } => (
            with_table(
                s,
                put(
                    s.files,
                    path,
                    created(TypeView::Special(rdev), security->uid, security->gid, Some(mode), Some(Seq::empty())),
                ),
            ),
            Seq::empty(),
        ),
        CallView::mkdir { path, security, mode } => (
            with_table(
                s,
                put(s.files, path, created(TypeView::Directory, security->uid, security->gid, Some(mode), None)),
            ),
            Seq::empty(),
        ),
        CallView::symlink { from, to, security } => (
            with_table(
                s,
                put(s.files, to, created(TypeView::Symlink(from), security->uid, security->gid, None, None)),
            ),
            Seq::empty(),
        ),
        CallView::link { from, to, security } => (
            with_table(
                s,
                put(
                    s.files,
                    to,
                    created(TypeView::Hardlink(from), security->uid, security->gid, None, Some(link_data(s.files, from))),
                ),
            ),
            Seq::empty(),
        ),
        CallView::create { path, flags, security, mode } => (
            with_table(
                s,
                put(
                    s.files,
                    path,
                    created(TypeView::New(flags), security->uid, security->gid, Some(mode), Some(Seq::empty())),
                ),
            ),
            Seq::empty(),
        ),
        CallView::unlink { path } => (spec_remove(s, path), Seq::empty()),
        CallView::rmdir { path } => (spec_remove(s, path), Seq::empty()),
        CallView::security { path, security } => (
            changed(s, path, FileState { uid: Some(security->uid), gid: Some(security->gid), ..entry_of(s.files, path) }),
            Seq::empty(),
        ),
        CallView::chmod { path, mode } => (
            changed(s, path, FileState { mode: Some(mode), ..entry_of(s.files, path) }),
            Seq::empty(),
        ),
        CallView::truncate { path, size } => (spec_truncate(s, path, size as u64), Seq::empty()),
        CallView::fallocate { path, offset, length, .. } => (
            changed(
                s,
                path,
                FileState { size: grown(entry_of(s.files, path).size, (offset + length) as u64), ..entry_of(s.files, path) },
            ),
            Seq::empty(),
        ),
        CallView::write { path, offset, buf } => spec_write(s, path, offset as u64, buf),
        CallView::diff_write { path, offset, buf } => spec_write(s, path, offset as u64, buf),
        CallView::setxattr { path, name, value, .. } => (
            changed(
                s,
                path,
                FileState { xattrs: xattrs_put(entry_of(s.files, path).xattrs, name, Some(value)), ..entry_of(s.files, path) },
            ),
            Seq::empty(),
        ),
        CallView::removexattr { path, name } => (
            changed(
                s,
                path,
                FileState { xattrs: xattrs_put(entry_of(s.files, path).xattrs, name, None), ..entry_of(s.files, path) },
            ),
            Seq::empty(),
        ),
        CallView::utimens { path, timespec } => (
            changed(s, path, FileState { time: Some(timespec), ..entry_of(s.files, path) }),
            Seq::empty(),
        ),
        _ => (s, Seq::empty()),
    }
}

/// Merging a run of operations, up to the first one that cannot be merged:
/// the state, the writes, and how many were merged.
pub open spec fn merge_prefix(s: SnapView, cs: Seq<CallView>) -> (SnapView, Seq<OpView>, int)
    decreases cs.len(),
{
    if cs.len() == 0 {
        (s, Seq::empty(), 0)
    } else {
        let (s1, o1, n1) = merge_prefix(s, cs.drop_last());
        if n1 == cs.len() - 1 && mergeable(s1, cs.last()) {
            let (s2, o2) = spec_merge(s1, cs.last());
            (s2, o1 + o2, cs.len() as int)
        } else {
            (s1, o1, n1)
        }
    }
}

/// The snapshot-file bytes held by the blocks `d[lo..hi]`.
pub open spec fn held_between(d: Seq<(u64, Block)>, lo: int, hi: int) -> Set<int> {
    Set::new(
        |y: int|
            exists|k: int|
                #![trigger d[k]]
                lo <= k < hi && d[k].1.location <= y < d[k].1.location + d[k].1.size,
    )
}

/// The snapshot-file bytes held by the blocks of a data list.
pub open spec fn held(d: Seq<(u64, Block)>) -> Set<int> {
    held_between(d, 0, d.len() as int)
}

/// The blocks `d[lo..hi]` are not empty, fit, do not share bytes, and hold
/// no free byte.
pub open spec fn blocks_owned(f: FreeView, d: Seq<(u64, Block)>, lo: int, hi: int) -> bool {
    &&& forall|k: int| lo <= k < hi ==> (#[trigger] d[k]).1.size > 0 && d[k].1.fits()
    &&& forall|a: int, c: int|
        #![trigger d[a], d[c]]
        lo <= a < c < hi ==> d[a].1.location + d[a].1.size <= d[c].1.location || d[c].1.location
            + d[c].1.size <= d[a].1.location
    &&& free_set(f).disjoint(held_between(d, lo, hi))
}

proof fn lemma_held_split(d: Seq<(u64, Block)>, lo: int, hi: int)
    requires
        lo < hi,
    ensures
        held_between(d, lo, hi) == block_set(d[lo].1).union(held_between(d, lo + 1, hi)),
        held_between(d, lo, hi) == held_between(d, lo, hi - 1).union(block_set(d[hi - 1].1)),
{
    assert(held_between(d, lo, hi) =~= block_set(d[lo].1).union(held_between(d, lo + 1, hi)));
    assert(held_between(d, lo, hi) =~= held_between(d, lo, hi - 1).union(block_set(d[hi - 1].1)));
}

/// Freeing the blocks `d[i..]` from the last down gives back exactly their
/// bytes and keeps free space coalesced.
proof fn lemma_free_from_back_gives(f: FreeView, d: Seq<(u64, Block)>, i: int)
    requires
        free_apart(f),
        0 <= i <= d.len(),
        blocks_owned(f, d, i, d.len() as int),
    ensures
        free_apart(free_from_back(f, d, i)),
        free_set(free_from_back(f, d, i)) == free_set(f).union(held_between(d, i, d.len() as int)),
    decreases d.len() - i,
{
    let n = d.len() as int;
    if i == n {
        assert(held_between(d, i, n) =~= Set::<int>::empty());
        assert(free_set(f).union(held_between(d, i, n)) =~= free_set(f));
    } else {
        lemma_held_split(d, i, n);
        assert(blocks_owned(f, d, i + 1, n)) by {
            assert(held_between(d, i + 1, n).subset_of(held_between(d, i, n)));
        }
        lemma_free_from_back_gives(f, d, i + 1);
        let g = free_from_back(f, d, i + 1);
        let b = d[i].1;
        assert(block_set(b).disjoint(free_set(g))) by {
            assert forall|y: int| block_set(b).contains(y) implies !free_set(g).contains(y) by {
                assert(held_between(d, i, n).contains(y));
                if held_between(d, i + 1, n).contains(y) {
                    let k = choose|k: int|
                        #![trigger d[k]]
                        i + 1 <= k < n && d[k].1.location <= y < d[k].1.location + d[k].1.size;
                    assert(d[i].1.location + d[i].1.size <= d[k].1.location || d[k].1.location
                        + d[k].1.size <= d[i].1.location);
                }
            }
        }
        crate::freelist::lemma_deallocate_coalesces(g, b);
        assert(free_set(free_from_back(f, d, i)) =~= free_set(f).union(held_between(d, i, n)));
    }
}

/// Freeing all blocks of a data list gives back exactly their bytes and
/// keeps free space coalesced.
proof fn lemma_free_all_gives(f: FreeView, d: Seq<(u64, Block)>)
    requires
        free_apart(f),
        blocks_owned(f, d, 0, d.len() as int),
    ensures
        free_apart(free_all(f, d)),
        free_set(free_all(f, d)) == free_set(f).union(held(d)),
    decreases d.len(),
{
    let n = d.len() as int;
    if n == 0 {
        assert(held(d) =~= Set::<int>::empty());
        assert(free_set(f).union(held(d)) =~= free_set(f));
    } else {
        let t = d.drop_last();
        lemma_held_split(d, 0, n);
        assert(held_between(t, 0, n - 1) =~= held_between(d, 0, n - 1)) by {
            assert forall|y: int| #[trigger] held_between(d, 0, n - 1).contains(y) implies held_between(t, 0, n - 1).contains(y) by {
                let k = choose|k: int|
                    #![trigger d[k]]
                    0 <= k < n - 1 && d[k].1.location <= y < d[k].1.location + d[k].1.size;
                assert(t[k] == d[k]);
            }
        }
        assert(blocks_owned(f, t, 0, n - 1)) by {
            assert forall|k: int| 0 <= k < n - 1 implies (#[trigger] t[k]).1.size > 0 && t[k].1.fits() by {
                assert(t[k] == d[k]);
            }
            assert forall|a: int, c: int| #![trigger t[a], t[c]] 0 <= a < c < n - 1 implies t[a].1.location
                + t[a].1.size <= t[c].1.location || t[c].1.location + t[c].1.size <= t[a].1.location by {
                assert(t[a] == d[a]);
                assert(t[c] == d[c]);
            }
        }
        lemma_free_all_gives(f, t);
        let g = free_all(f, t);
        let b = d[n - 1].1;
        assert(block_set(b).disjoint(free_set(g))) by {
            assert forall|y: int| block_set(b).contains(y) implies !free_set(g).contains(y) by {
                assert(held_between(d, 0, n).contains(y));
                if held_between(d, 0, n - 1).contains(y) {
                    let k = choose|k: int|
                        #![trigger d[k]]
                        0 <= k < n - 1 && d[k].1.location <= y < d[k].1.location + d[k].1.size;
                    assert(d[k].1.location + d[k].1.size <= d[n - 1].1.location || d[n - 1].1.location
                        + d[n - 1].1.size <= d[k].1.location);
                }
            }
        }
        crate::freelist::lemma_deallocate_coalesces(g, b);
        assert(free_set(free_all(f, d)) =~= free_set(f).union(held(d)));
    }
}

/// Putting in a block under a key the list does not have adds its bytes,
/// and keeps the blocks owned when the new block is not empty and holds no
/// byte that is free or already held.
proof fn lemma_owned_insert(f: FreeView, s: Seq<(u64, Block)>, k: u64, b: Block)
    requires
        blocks_owned(f, s, 0, s.len() as int),
        forall|i: int| 0 <= i < s.len() ==> (#[trigger] s[i]).0 != k,
        b.size > 0,
        b.fits(),
        block_set(b).disjoint(free_set(f)),
        block_set(b).disjoint(held(s)),
    ensures
        blocks_owned(f, sorted_insert(s, k, b), 0, sorted_insert(s, k, b).len() as int),
        held(sorted_insert(s, k, b)) == held(s).union(block_set(b)),
{
    crate::keyed::lemma_sorted_insert_split(s, k, b);
    lemma_lower_bound_range(s, k);
    let p = lower_bound(s, k);
    let r = sorted_insert(s, k, b);
    assert(r =~= s.subrange(0, p) + seq![(k, b)] + s.subrange(p, s.len() as int));
    assert(r.len() == s.len() + 1);
    assert forall|i: int| 0 <= i < r.len() implies #[trigger] r[i] == if i < p {
        s[i]
    } else if i == p {
        (k, b)
    } else {
        s[i - 1]
    } by {}
    assert forall|i: int| 0 <= i < r.len() implies (#[trigger] r[i]).1.size > 0 && r[i].1.fits() by {
        if i < p {
        } else if i > p {
            assert(s[i - 1] == r[i]);
        }
    }
    assert forall|a: int, c: int| #![trigger r[a], r[c]] 0 <= a < c < r.len() implies r[a].1.location
        + r[a].1.size <= r[c].1.location || r[c].1.location + r[c].1.size <= r[a].1.location by {
        let a2 = if a < p {
            a
        } else {
            a - 1
        };
        let c2 = if c < p {
            c
        } else {
            c - 1
        };
        if a == p {
            if !(r[a].1.location + r[a].1.size <= r[c].1.location || r[c].1.location + r[c].1.size
                <= r[a].1.location) {
                let z: int = if s[c2].1.location <= b.location {
                    b.location as int
                } else {
                    s[c2].1.location as int
                };
                assert(block_set(b).contains(z));
                assert(held(s).contains(z));
            }
        } else if c == p {
            if !(r[a].1.location + r[a].1.size <= r[c].1.location || r[c].1.location + r[c].1.size
                <= r[a].1.location) {
                let z: int = if s[a2].1.location <= b.location {
                    b.location as int
                } else {
                    s[a2].1.location as int
                };
                assert(block_set(b).contains(z));
                assert(held(s).contains(z));
            }
        } else {
            assert(r[a] == s[a2] && r[c] == s[c2]);
        }
    }
    assert(held(r) =~= held(s).union(block_set(b))) by {
        assert forall|y: int| #[trigger] held(r).contains(y) implies held(s).union(block_set(b)).contains(y) by {
            let i = choose|i: int|
                #![trigger r[i]]
                0 <= i < r.len() && r[i].1.location <= y < r[i].1.location + r[i].1.size;
            if i < p {
                assert(s[i] == r[i]);
            } else if i > p {
                assert(s[i - 1] == r[i]);
            }
        }
        assert forall|y: int| #[trigger] held(s).union(block_set(b)).contains(y) implies held(r).contains(y) by {
            if block_set(b).contains(y) {
                assert(r[p] == (k, b));
            } else {
                let i = choose|i: int|
                    #![trigger s[i]]
                    0 <= i < s.len() && s[i].1.location <= y < s[i].1.location + s[i].1.size;
                if i < p {
                    assert(r[i] == s[i]);
                } else {
                    assert(r[i + 1] == s[i]);
                }
            }
        }
    }
    assert forall|y: int| free_set(f).contains(y) implies !#[trigger] held(r).contains(y) by {
        if held(r).contains(y) {
            assert(held(s).union(block_set(b)).contains(y));
        }
    }
}

/// Taking the entries `d[j..lb]` out of a data list: what is held splits
/// into what the rest holds and what they hold, and the rest stays owned.
proof fn lemma_owned_splice(f: FreeView, d: Seq<(u64, Block)>, j: int, lb: int)
    requires
        0 <= j <= lb <= d.len(),
        blocks_owned(f, d, 0, d.len() as int),
    ensures
        ({
            let rest = d.subrange(0, j) + d.subrange(lb, d.len() as int);
            let mid = d.subrange(j, lb);
            &&& held(d) == held(rest).union(held(mid))
            &&& held(rest).disjoint(held(mid))
            &&& blocks_owned(f, rest, 0, rest.len() as int)
            &&& blocks_owned(f, mid, 0, mid.len() as int)
        }),
{
    let rest = d.subrange(0, j) + d.subrange(lb, d.len() as int);
    let mid = d.subrange(j, lb);
    let n = d.len() as int;
    assert forall|i: int| 0 <= i < rest.len() implies #[trigger] rest[i] == if i < j {
        d[i]
    } else {
        d[i - j + lb]
    } by {}
    assert forall|i: int| 0 <= i < mid.len() implies #[trigger] mid[i] == d[i + j] by {}
    assert(held(d) =~= held(rest).union(held(mid))) by {
        assert forall|y: int| #[trigger] held(d).contains(y) implies held(rest).union(held(mid)).contains(y) by {
            let i = choose|i: int|
                #![trigger d[i]]
                0 <= i < n && d[i].1.location <= y < d[i].1.location + d[i].1.size;
            if i < j {
                assert(rest[i] == d[i]);
            } else if i < lb {
                assert(mid[i - j] == d[i]);
            } else {
                assert(rest[i - lb + j] == d[i]);
            }
        }
        assert forall|y: int| #[trigger] held(rest).union(held(mid)).contains(y) implies held(d).contains(y) by {
            if held(rest).contains(y) {
                let i = choose|i: int|
                    #![trigger rest[i]]
                    0 <= i < rest.len() && rest[i].1.location <= y < rest[i].1.location + rest[i].1.size;
                if i < j {
                    assert(rest[i] == d[i]);
                } else {
                    assert(rest[i] == d[i - j + lb]);
                }
            } else {
                let i = choose|i: int|
                    #![trigger mid[i]]
                    0 <= i < mid.len() && mid[i].1.location <= y < mid[i].1.location + mid[i].1.size;
                assert(mid[i] == d[i + j]);
            }
        }
    }
    assert(held(rest).disjoint(held(mid))) by {
        assert forall|y: int| #[trigger] held(rest).contains(y) implies !held(mid).contains(y) by {
            let i = choose|i: int|
                #![trigger rest[i]]
                0 <= i < rest.len() && rest[i].1.location <= y < rest[i].1.location + rest[i].1.size;
            if held(mid).contains(y) {
                let m = choose|m: int|
                    #![trigger mid[m]]
                    0 <= m < mid.len() && mid[m].1.location <= y < mid[m].1.location + mid[m].1.size;
                let i2 = if i < j {
                    i
                } else {
                    i - j + lb
                };
                assert(rest[i] == d[i2]);
                assert(mid[m] == d[m + j]);
                if i2 < m + j {
                    assert(d[i2].1.location + d[i2].1.size <= d[m + j].1.location || d[m + j].1.location
                        + d[m + j].1.size <= d[i2].1.location);
                } else {
                    assert(d[m + j].1.location + d[m + j].1.size <= d[i2].1.location || d[i2].1.location
                        + d[i2].1.size <= d[m + j].1.location);
                }
            }
        }
    }
    assert forall|a: int, c: int| #![trigger rest[a], rest[c]] 0 <= a < c < rest.len() implies rest[a].1.location
        + rest[a].1.size <= rest[c].1.location || rest[c].1.location + rest[c].1.size <= rest[a].1.location by {
        let a2 = if a < j {
            a
        } else {
            a - j + lb
        };
        let c2 = if c < j {
            c
        } else {
            c - j + lb
        };
        assert(rest[a] == d[a2] && rest[c] == d[c2]);
    }
    assert forall|k: int| 0 <= k < rest.len() implies (#[trigger] rest[k]).1.size > 0 && rest[k].1.fits() by {
        if k >= j {
            assert(rest[k] == d[k - j + lb]);
        }
    }
    assert forall|a: int, c: int| #![trigger mid[a], mid[c]] 0 <= a < c < mid.len() implies mid[a].1.location
        + mid[a].1.size <= mid[c].1.location || mid[c].1.location + mid[c].1.size <= mid[a].1.location by {
        assert(mid[a] == d[a + j] && mid[c] == d[c + j]);
    }
    assert forall|k: int| 0 <= k < mid.len() implies (#[trigger] mid[k]).1.size > 0 && mid[k].1.fits() by {
        assert(mid[k] == d[k + j]);
    }
    assert forall|y: int| free_set(f).contains(y) implies !#[trigger] held(rest).contains(y) by {
        if held(rest).contains(y) {
            assert(held(d).contains(y));
        }
    }
    assert forall|y: int| free_set(f).contains(y) implies !#[trigger] held(mid).contains(y) by {
        if held(mid).contains(y) {
            assert(held(d).contains(y));
        }
    }
}

/// A write of some bytes keeps the space accounted for: the free space and
/// the bytes the data list holds together are what they were, free space
/// stays coalesced, and the list stays well formed with its blocks owned.
#[verifier::rlimit(80)]
#[verifier::spinoff_prover]
proof fn lemma_write_accounts(f: FreeView, d: Seq<(u64, Block)>, offset: u64, buf: Seq<u8>)
    requires
        free_apart(f),
        data_wf(d),
        blocks_owned(f, d, 0, d.len() as int),
        buf.len() > 0,
        offset + buf.len() <= u64::MAX,
        match write_need(d, offset, buf.len() as u64) {
            Some(n) => alloc_fits(f, n),
            None => true,
        },
    ensures
        ({
            let (f2, d2, ops) = spec_write_data(f, d, offset, buf);
            &&& free_apart(f2)
            &&& data_wf(d2)
            &&& blocks_owned(f2, d2, 0, d2.len() as int)
            &&& free_set(f2).union(held(d2)) == free_set(f).union(held(d))
        }),
{
    let len = buf.len() as u64;
    let w = write_plan(d, offset, len);
    let (f2, d2, ops) = spec_write_data(f, d, offset, buf);
    lemma_write_sides(d, offset, len);
    lemma_write_keeps_disjoint(f, d, offset, buf);
    if w.lb == w.j {
        crate::freelist::lemma_allocate_fits(f, len);
        crate::freelist::lemma_allocate_takes_free(f, len);
        crate::freelist::lemma_allocate_keeps_apart(f, len);
        let (f1, b) = spec_allocate(f, len);
        assert forall|i: int| 0 <= i < d.len() implies (#[trigger] d[i]).0 != offset by {
            if i < w.lb {
                assert(d[i].0 + d[i].1.size <= offset);
            }
        }
        assert(block_set(b).disjoint(held(d))) by {
            assert forall|y: int| #[trigger] block_set(b).contains(y) implies !held(d).contains(y) by {
                assert(free_set(f).contains(y));
            }
        }
        assert(blocks_owned(f1, d, 0, d.len() as int)) by {
            assert forall|y: int| #[trigger] free_set(f1).contains(y) implies !held_between(d, 0, d.len() as int).contains(y) by {
                assert(free_set(f).contains(y));
            }
        }
        lemma_owned_insert(f1, d, offset, b);
        lemma_data_insert_wf(d, offset, b);
        assert(free_set(f2).union(held(d2)) =~= free_set(f).union(held(d)));
    } else if w.in_place is Some {
    } else {
        let first = d[w.j];
        let last = d[w.lb - 1];
        let need = (w.keep_before + len + w.keep_after) as u64;
        assert(w.keep_before + len + w.keep_after <= u64::MAX) by {
            if w.lb - 1 > w.j {
                assert(d[w.j].0 + d[w.j].1.size <= d[w.lb - 1].0);
            }
        }
        crate::freelist::lemma_allocate_fits(f, need);
        crate::freelist::lemma_allocate_takes_free(f, need);
        crate::freelist::lemma_allocate_keeps_apart(f, need);
        let (f1, b) = spec_allocate(f, need);
        let logical = if first.0 < offset {
            first.0
        } else {
            offset
        };
        let rest = d.subrange(0, w.j) + d.subrange(w.lb, d.len() as int);
        let mid = d.subrange(w.j, w.lb);
        lemma_owned_splice(f, d, w.j, w.lb);
        // The new block was free, so it holds no byte of the list.
        assert(block_set(b).disjoint(held(d))) by {
            assert forall|y: int| #[trigger] block_set(b).contains(y) implies !held(d).contains(y) by {
                assert(free_set(f).contains(y));
            }
        }
        assert(blocks_owned(f1, mid, 0, mid.len() as int)) by {
            assert forall|y: int| #[trigger] free_set(f1).contains(y) implies !held_between(mid, 0, mid.len() as int).contains(y) by {
                assert(free_set(f).contains(y));
            }
        }
        lemma_free_from_back_gives(f1, mid, 0);
        assert(f2 == free_from_back(f1, mid, 0));
        assert(held_between(mid, 0, mid.len() as int) == held(mid));
        // The rest is owned against the space freed so far.
        assert(blocks_owned(f2, rest, 0, rest.len() as int)) by {
            assert forall|y: int| #[trigger] free_set(f2).contains(y) implies !held_between(rest, 0, rest.len() as int).contains(y) by {
                if free_set(f1).contains(y) {
                    assert(free_set(f).contains(y));
                }
            }
        }
        assert forall|i: int| 0 <= i < rest.len() implies (#[trigger] rest[i]).0 != logical by {
            if i < w.j {
                assert(rest[i] == d[i]);
                if i < w.j - 1 {
                    assert(d[i].0 + d[i].1.size <= d[w.j - 1].0);
                }
                assert(d[i].0 < d[w.j].0);
                assert(d[i].0 + d[i].1.size <= offset);
            } else {
                assert(rest[i] == d[i - w.j + w.lb]);
            }
        }
        assert(block_set(b).disjoint(free_set(f2))) by {
            assert forall|y: int| #[trigger] block_set(b).contains(y) implies !free_set(f2).contains(y) by {
                assert(free_set(f).contains(y));
                assert(!held(mid).contains(y)) by {
                    assert(held(d).contains(y) ==> false);
                }
            }
        }
        assert(block_set(b).disjoint(held(rest))) by {
            assert forall|y: int| #[trigger] block_set(b).contains(y) implies !held(rest).contains(y) by {
                assert(free_set(f).contains(y));
            }
        }
        lemma_owned_insert(f2, rest, logical, b);
        lemma_sorted_sub(d, w.j, w.lb);
        lemma_sub_disjoint(d, w.j, w.lb);
        assert forall|i: int| 0 <= i < rest.len() implies (#[trigger] rest[i]).1.fits() && rest[i].0
            + rest[i].1.size <= u64::MAX by {
            if i < w.j {
                assert(rest[i] == d[i]);
            } else {
                assert(rest[i] == d[i - w.j + w.lb]);
            }
        }
        assert(logical + need <= u64::MAX);
        lemma_data_insert_wf(rest, logical, b);
        assert(free_set(f2).union(held(d2)) =~= free_set(f).union(held(d)));
    }
}

/// Cutting a data list keeps the space accounted for: what it frees is what
/// the list stops holding, free space stays coalesced, and the list stays
/// well formed with its blocks owned.
#[verifier::rlimit(80)]
#[verifier::spinoff_prover]
proof fn lemma_cut_accounts(f: FreeView, d: Seq<(u64, Block)>, size: u64)
    requires
        free_apart(f),
        data_wf(d),
        blocks_owned(f, d, 0, d.len() as int),
    ensures
        ({
            let (f2, d2) = spec_cut(f, d, size);
            &&& free_apart(f2)
            &&& data_wf(d2)
            &&& blocks_owned(f2, d2, 0, d2.len() as int)
            &&& free_set(f2).union(held(d2)) == free_set(f).union(held(d))
        }),
{
    let n = d.len() as int;
    let lb = lower_bound(d, size);
    lemma_lower_bound_range(d, size);
    let suffix = d.subrange(lb, n);
    let kept = d.subrange(0, lb);
    lemma_owned_splice(f, d, lb, n);
    assert(d.subrange(0, lb) + d.subrange(n, n) =~= kept);
    lemma_free_all_gives(f, suffix);
    let f1 = free_all(f, suffix);
    let (f2, d2) = spec_cut(f, d, size);
    assert forall|i: int| 0 <= i < kept.len() implies #[trigger] kept[i] == d[i] by {}
    assert(keys_sorted(kept) && data_disjoint(kept) && data_fits(kept)) by {
        assert forall|a: int, c: int| 0 <= a < c < kept.len() implies kept[a].0 < kept[c].0 by {}
        assert forall|a: int, c: int| #![trigger kept[a], kept[c]] 0 <= a < c < kept.len() implies kept[a].0
            + kept[a].1.size <= kept[c].0 by {
            assert(d[a].0 + d[a].1.size <= d[c].0);
        }
    }
    // What is kept is owned against the space freed so far.
    assert(blocks_owned(f1, kept, 0, kept.len() as int)) by {
        assert forall|y: int| #[trigger] free_set(f1).contains(y) implies !held_between(kept, 0, kept.len() as int).contains(y) by {
            if held(kept).contains(y) {
                assert(free_set(f).union(held(suffix)).contains(y));
                assert(!free_set(f).contains(y));
            }
        }
    }
    if lb > 0 && kept[lb - 1].0 + kept[lb - 1].1.size > size {
        let (k, b) = kept[lb - 1];
        let cut = (k + b.size - size) as u64;
        assert(k < size);
        let hb = Block { location: b.location, size: (b.size - cut) as u64 };
        let tb = Block { location: (b.location + (b.size - cut)) as u64, size: cut };
        assert(block_set(b) =~= block_set(hb).union(block_set(tb)));
        assert(d2 == kept.update(lb - 1, (k, hb)));
        assert(f2 == spec_deallocate(f1, tb));
        assert forall|i: int| 0 <= i < d2.len() implies #[trigger] d2[i] == if i == lb - 1 {
            (k, hb)
        } else {
            d[i]
        } by {}
        // The cut piece is neither free nor held by another block.
        assert(block_set(tb).disjoint(free_set(f1))) by {
            assert forall|y: int| #[trigger] block_set(tb).contains(y) implies !free_set(f1).contains(y) by {
                assert(block_set(b).contains(y));
                assert(held(kept).contains(y)) by {
                    assert(kept[lb - 1] == (k, b));
                }
            }
        }
        crate::freelist::lemma_deallocate_coalesces(f1, tb);
        assert(held(kept) =~= held(d2).union(block_set(tb))) by {
            assert forall|y: int| #[trigger] held(kept).contains(y) implies held(d2).union(block_set(tb)).contains(y) by {
                let i = choose|i: int|
                    #![trigger kept[i]]
                    0 <= i < kept.len() && kept[i].1.location <= y < kept[i].1.location + kept[i].1.size;
                if i != lb - 1 {
                    assert(d2[i] == kept[i]);
                } else if !block_set(tb).contains(y) {
                    assert(d2[i] == (k, hb));
                }
            }
            assert forall|y: int| #[trigger] held(d2).union(block_set(tb)).contains(y) implies held(kept).contains(y) by {
                if block_set(tb).contains(y) {
                    assert(kept[lb - 1] == (k, b));
                } else {
                    let i = choose|i: int|
                        #![trigger d2[i]]
                        0 <= i < d2.len() && d2[i].1.location <= y < d2[i].1.location + d2[i].1.size;
                    if i != lb - 1 {
                        assert(kept[i] == d2[i]);
                    } else {
                        assert(kept[lb - 1] == (k, b));
                    }
                }
            }
        }
        assert(held(d2).disjoint(block_set(tb))) by {
            assert forall|y: int| #[trigger] held(d2).contains(y) implies !block_set(tb).contains(y) by {
                let i = choose|i: int|
                    #![trigger d2[i]]
                    0 <= i < d2.len() && d2[i].1.location <= y < d2[i].1.location + d2[i].1.size;
                if i != lb - 1 && block_set(tb).contains(y) {
                    assert(d2[i] == d[i]);
                    assert(d[i].1.location + d[i].1.size <= d[lb - 1].1.location || d[lb - 1].1.location
                        + d[lb - 1].1.size <= d[i].1.location) by {
                        if i < lb - 1 {
                        } else {
                        }
                    }
                }
            }
        }
        assert(blocks_owned(f2, d2, 0, d2.len() as int)) by {
            assert forall|i: int| 0 <= i < d2.len() implies (#[trigger] d2[i]).1.size > 0 && d2[i].1.fits() by {
                if i == lb - 1 {
                    assert(kept[i] == (k, b));
                    assert(d[i].1.fits());
                }
            }
            assert forall|a: int, c: int| #![trigger d2[a], d2[c]] 0 <= a < c < d2.len() implies d2[a].1.location
                + d2[a].1.size <= d2[c].1.location || d2[c].1.location + d2[c].1.size <= d2[a].1.location by {
                assert(d[a].1.location + d[a].1.size <= d[c].1.location || d[c].1.location + d[c].1.size
                    <= d[a].1.location);
            }
            assert forall|y: int| #[trigger] free_set(f2).contains(y) implies !held_between(d2, 0, d2.len() as int).contains(y) by {
                if held(d2).contains(y) {
                    assert(held(kept).contains(y));
                    assert(!block_set(tb).contains(y));
                    assert(!free_set(f1).contains(y));
                }
            }
        }
        assert(data_wf(d2)) by {
            assert forall|a: int, c: int| 0 <= a < c < d2.len() implies d2[a].0 < d2[c].0 by {
                assert(kept[a].0 < kept[c].0);
            }
            assert forall|a: int, c: int| #![trigger d2[a], d2[c]] 0 <= a < c < d2.len() implies d2[a].0
                + d2[a].1.size <= d2[c].0 by {
                assert(kept[a].0 + kept[a].1.size <= kept[c].0);
            }
            assert forall|i: int| 0 <= i < d2.len() implies (#[trigger] d2[i]).1.fits() && d2[i].0
                + d2[i].1.size <= u64::MAX by {
                assert(kept[i].1.fits() && kept[i].0 + kept[i].1.size <= u64::MAX);
            }
        }
        assert(free_set(f2).union(held(d2)) =~= free_set(f).union(held(d)));
    } else {
        assert(free_set(f2).union(held(d2)) =~= free_set(f).union(held(d)));
    }
}

/// The call changes nothing but the entry of `p`: its data, its size or its
/// attributes.
pub open spec fn only_on(c: CallView, p: Seq<u8>) -> bool {
    match c {
        CallView::chmod { path, .. } => path == p,
        CallView::truncate { path, .. } => path == p,
        CallView::write { path, .. } => path == p,
        CallView::diff_write { path, .. } => path == p,
        CallView::fallocate { path, .. } => path == p,
        CallView::setxattr { path, .. } => path == p,
        CallView::removexattr { path, .. } => path == p,
        CallView::utimens { path, .. } => path == p,
        CallView::security { path, .. } => path == p,
        CallView::fsync { path, .. } => path == p,
        _ => false,
    }
}

/// The call leaves data alone: it neither writes nor truncates.
pub open spec fn keeps_data(c: CallView) -> bool {
    match c {
        CallView::truncate { .. } => false,
        CallView::write { .. } => false,
        CallView::diff_write { .. } => false,
        _ => true,
    }
}

/// A path that has no entry, once it is added, is found in the last entry.
proof fn lemma_key_of_pushed(files: Seq<(Seq<u8>, FileState)>, p: Seq<u8>, v: FileState)
    requires
        absent(files, p),
    ensures
        key_index(files.push((p, v)), p) == files.len(),
{
    lemma_key_index_range(files, p);
    let t = files.push((p, v));
    lemma_key_index_range(t, p);
    if key_index(t, p) < files.len() {
        assert(t[key_index(t, p)] == files[key_index(t, p)]);
    }
    assert(t[files.len() as int].0 == p);
}


/// Merging the creation of a path that has no entry, then calls on that
/// path alone, adds one entry for it at the end of the table and leaves the
/// rest as it was; calls that leave data alone leave the free space too and
/// the entry without data blocks.
#[verifier::rlimit(60)]
#[verifier::spinoff_prover]
proof fn lemma_created_entry(s: SnapView, cs: Seq<CallView>, p: Seq<u8>)
    requires
        cs.len() >= 1,
        cs[0] matches CallView::create { path, .. } && path == p,
        absent(s.files, p),
        forall|i: int| 1 <= i < cs.len() ==> only_on(#[trigger] cs[i], p),
        merge_prefix(s, cs).2 == cs.len(),
    ensures
        ({
            let st = merge_prefix(s, cs).0;
            &&& st.header == s.header
            &&& st.files.len() == s.files.len() + 1
            &&& st.files.subrange(0, s.files.len() as int) == s.files
            &&& st.files.last().0 == p
            &&& st.files.last().1.data is Some
            &&& (forall|i: int| 1 <= i < cs.len() ==> keeps_data(#[trigger] cs[i])) ==> st.free == s.free
                && st.files.last().1.data == Some(Seq::<(u64, Block)>::empty())
        }),
    decreases cs.len(),
{
    reveal(spec_merge);
    let (s1, o1, n1) = merge_prefix(s, cs.drop_last());
    lemma_merge_prefix_count(s, cs.drop_last());
    assert(n1 == cs.len() - 1 && mergeable(s1, cs.last()));
    if cs.len() == 1 {
        assert(cs.drop_last().len() == 0);
        assert(s1 == s);
        let c = cs[0];
        let v = created(TypeView::New(c->create_flags), c->create_security->uid, c->create_security->gid, Some(c->create_mode), Some(Seq::empty()));
        lemma_key_index_range(s.files, p);
        assert(put(s.files, p, v) == s.files.push((p, v)));
        assert(s.files.push((p, v)).subrange(0, s.files.len() as int) =~= s.files);
    } else {
        let cp = cs.drop_last();
        assert forall|i: int| 1 <= i < cp.len() implies only_on(#[trigger] cp[i], p) by {
            assert(cp[i] == cs[i]);
        }
        lemma_created_entry(s, cp, p);
        let n = s.files.len() as int;
        assert(s1.files =~= s.files.push(s1.files.last()));
        lemma_key_of_pushed(s.files, p, s1.files.last().1);
        assert(key_index(s1.files, p) == n);
        assert(opened(s1.files, p) == s1.files);
        assert(entry_of(s1.files, p) == s1.files.last().1);
        assert forall|v: FileState| #[trigger] put(s1.files, p, v).subrange(0, n) =~= s.files
            && put(s1.files, p, v).len() == n + 1 && put(s1.files, p, v).last() == (p, v) by {
            assert(put(s1.files, p, v) == s1.files.update(n, (p, v)));
            assert forall|j: int| 0 <= j < n implies put(s1.files, p, v)[j] == s.files[j] by {
                assert(s1.files.subrange(0, n)[j] == s1.files[j]);
            }
        }
        let c = cs.last();
        assert(only_on(c, p));
        if (forall|i: int| 1 <= i < cs.len() ==> keeps_data(#[trigger] cs[i])) {
            assert forall|i: int| 1 <= i < cp.len() implies keeps_data(#[trigger] cp[i]) by {
                assert(cp[i] == cs[i]);
                assert(keeps_data(cs[i]));
            }
            assert(keeps_data(c));
        }
    }
}

/// The call carries bytes when it writes: a write of nothing is not one of
/// the calls this accounts for, and a write's length fits in 64 bits.
pub open spec fn carries_bytes(c: CallView) -> bool {
    match c {
        CallView::write { buf, .. } => 0 < buf.len() <= u64::MAX,
        CallView::diff_write { buf, .. } => 0 < buf.len() <= u64::MAX,
        _ => true,
    }
}

/// After the creation of a path that has no entry and calls on it alone,
/// the entry's data blocks are owned and, with the free space, make up the
/// free space there was before; free space stays coalesced.
#[verifier::rlimit(80)]
#[verifier::spinoff_prover]
proof fn lemma_created_accounts(s: SnapView, cs: Seq<CallView>, p: Seq<u8>)
    requires
        free_apart(s.free),
        cs.len() >= 1,
        cs[0] matches CallView::create { path, .. } && path == p,
        absent(s.files, p),
        forall|i: int| 1 <= i < cs.len() ==> only_on(#[trigger] cs[i], p) && carries_bytes(cs[i]),
        merge_prefix(s, cs).2 == cs.len(),
    ensures
        ({
            let st = merge_prefix(s, cs).0;
            let d = st.files.last().1.data->0;
            &&& st.files.last().1.data is Some
            &&& data_wf(d)
            &&& free_apart(st.free)
            &&& blocks_owned(st.free, d, 0, d.len() as int)
            &&& free_set(st.free).union(held(d)) == free_set(s.free)
        }),
    decreases cs.len(),
{
    reveal(spec_merge);
    reveal(mergeable);
    assert forall|i: int| 1 <= i < cs.len() implies only_on(#[trigger] cs[i], p) by {}
    lemma_created_entry(s, cs, p);
    let (s1, o1, n1) = merge_prefix(s, cs.drop_last());
    lemma_merge_prefix_count(s, cs.drop_last());
    assert(n1 == cs.len() - 1 && mergeable(s1, cs.last()));
    if cs.len() == 1 {
        assert(s1 == s);
        let e = Seq::<(u64, Block)>::empty();
        assert(held(e) =~= Set::<int>::empty());
        assert(free_set(s.free).union(held(e)) =~= free_set(s.free));
    } else {
        let cp = cs.drop_last();
        assert forall|i: int| 1 <= i < cp.len() implies only_on(#[trigger] cp[i], p) && carries_bytes(cp[i]) by {
            assert(cp[i] == cs[i]);
        }
        lemma_created_entry(s, cp, p);
        lemma_created_accounts(s, cp, p);
        let n = s.files.len() as int;
        assert(s1.files =~= s.files.push(s1.files.last()));
        lemma_key_of_pushed(s.files, p, s1.files.last().1);
        assert(key_index(s1.files, p) == n);
        assert(opened(s1.files, p) == s1.files);
        let x = s1.files.last().1;
        assert(entry_of(s1.files, p) == x);
        let d = x.data->0;
        assert forall|v: FileState| #[trigger] put(s1.files, p, v).last() == (p, v) by {
            assert(put(s1.files, p, v) == s1.files.update(n, (p, v)));
        }
        let st = merge_prefix(s, cs).0;
        let c = cs.last();
        assert(only_on(c, p) && carries_bytes(c));
        match c {
            CallView::write { path, offset, buf } => {
                lemma_write_accounts(s1.free, d, offset as u64, buf);
                let (f2, d2, ops) = spec_write_data(s1.free, d, offset as u64, buf);
                assert(st.files.last() == (p, FileState { data: Some(d2), ..x }));
                assert(st.free == f2);
                assert(free_set(st.free).union(held(d2)) =~= free_set(s.free));
            },
            CallView::diff_write { path, offset, buf } => {
                lemma_write_accounts(s1.free, d, offset as u64, buf);
                let (f2, d2, ops) = spec_write_data(s1.free, d, offset as u64, buf);
                assert(st.files.last() == (p, FileState { data: Some(d2), ..x }));
                assert(st.free == f2);
                assert(free_set(st.free).union(held(d2)) =~= free_set(s.free));
            },
            CallView::truncate { path, size } => {
                lemma_cut_accounts(s1.free, d, size as u64);
                let (f2, d2) = spec_cut(s1.free, d, size as u64);
                assert(st.files.last() == (p, FileState { size: FileSize::Exactly(size as u64), data: Some(d2), ..x }));
                assert(st.free == f2);
                assert(free_set(st.free).union(held(d2)) =~= free_set(s.free));
            },
            CallView::fsync { .. } => {
                assert(st == s1);
            },
            _ => {
                assert(st.free == s1.free);
                assert(st.files.last().1.data == x.data);
            },
        }
    }
}

/// A path created and removed within one merge leaves no trace: when a
/// path that has no entry is created, changed by calls on it alone, and
/// removed, and all of these are merged, the table is as it was before; when
/// none of those calls writes or truncates, the free space is as it was
/// too, so the whole snapshot is unchanged.
pub proof fn lemma_create_then_remove(s: SnapView, cs: Seq<CallView>, p: Seq<u8>)
    requires
        cs.len() >= 2,
        cs[0] matches CallView::create { path, .. } && path == p,
        cs.last() == (CallView::unlink { path: p }),
        absent(s.files, p),
        forall|i: int| 1 <= i < cs.len() - 1 ==> only_on(#[trigger] cs[i], p),
        merge_prefix(s, cs).2 == cs.len(),
    ensures
        merge_prefix(s, cs).0.files == s.files,
        merge_prefix(s, cs).0.header == s.header,
        (forall|i: int| 1 <= i < cs.len() - 1 ==> keeps_data(#[trigger] cs[i])) ==> merge_prefix(
            s,
            cs,
        ).0 == s,
{
    reveal(spec_merge);
    let cp = cs.drop_last();
    let (s1, o1, n1) = merge_prefix(s, cp);
    lemma_merge_prefix_count(s, cp);
    assert(n1 == cs.len() - 1 && mergeable(s1, cs.last()));
    assert forall|i: int| 1 <= i < cp.len() implies only_on(#[trigger] cp[i], p) by {
        assert(cp[i] == cs[i]);
    }
    lemma_created_entry(s, cp, p);
    let n = s.files.len() as int;
    assert(s1.files =~= s.files.push(s1.files.last()));
    lemma_key_of_pushed(s.files, p, s1.files.last().1);
    assert(key_index(s1.files, p) == n);
    assert(s1.files.remove(n) =~= s.files);
    if (forall|i: int| 1 <= i < cs.len() - 1 ==> keeps_data(#[trigger] cs[i])) {
        assert forall|i: int| 1 <= i < cp.len() implies keeps_data(#[trigger] cp[i]) by {
            assert(cp[i] == cs[i]);
        }
        assert(s1.files[n].1.data == Some(Seq::<(u64, Block)>::empty()));
        assert(free_all(s1.free, Seq::<(u64, Block)>::empty()) == s1.free);
    }
}

/// A path created, written and removed within one merge leaves the whole
/// snapshot as it was, free space included: when a path that has no entry
/// is created, changed by calls on it alone (writes of some bytes,
/// truncates, attribute changes), and removed, and all of these are merged,
/// every byte its data took is free again and the free list, coalesced
/// before, is the same list again.
pub proof fn lemma_create_write_remove(s: SnapView, cs: Seq<CallView>, p: Seq<u8>)
    requires
        free_apart(s.free),
        cs.len() >= 2,
        cs[0] matches CallView::create { path, .. } && path == p,
        cs.last() == (CallView::unlink { path: p }),
        absent(s.files, p),
        forall|i: int| 1 <= i < cs.len() - 1 ==> only_on(#[trigger] cs[i], p) && carries_bytes(cs[i]),
        merge_prefix(s, cs).2 == cs.len(),
    ensures
        merge_prefix(s, cs).0 == s,
{
    reveal(spec_merge);
    let cp = cs.drop_last();
    let (s1, o1, n1) = merge_prefix(s, cp);
    lemma_merge_prefix_count(s, cp);
    assert(n1 == cs.len() - 1 && mergeable(s1, cs.last()));
    assert forall|i: int| 1 <= i < cp.len() implies only_on(#[trigger] cp[i], p) && carries_bytes(cp[i]) by {
        assert(cp[i] == cs[i]);
    }
    assert forall|i: int| 1 <= i < cs.len() - 1 implies only_on(#[trigger] cs[i], p) by {}
    lemma_create_then_remove(s, cs, p);
    lemma_created_entry(s, cp, p);
    lemma_created_accounts(s, cp, p);
    let n = s.files.len() as int;
    assert(s1.files =~= s.files.push(s1.files.last()));
    lemma_key_of_pushed(s.files, p, s1.files.last().1);
    let d = s1.files[n].1.data->0;
    assert(s1.files[n] == s1.files.last());
    lemma_free_all_gives(s1.free, d);
    crate::freelist::lemma_free_apart_unique(free_all(s1.free, d), s.free);
    let st = merge_prefix(s, cs).0;
    assert(st.free == s.free);
}

pub open spec fn call_list(v: Seq<VFSCall>) -> Seq<CallView> {
    v.map_values(|c: VFSCall| c@)
}

fn copy_data(d: &Vec<(u64, Block)>) -> (r: Vec<(u64, Block)>)
    ensures
        r@ == d@,
{
    let mut r: Vec<(u64, Block)> = Vec::new();
    let mut i: usize = 0;
    while i < d.len()
        invariant
            0 <= i <= d@.len(),
            r@ == d@.subrange(0, i as int),
        decreases d@.len() - i,
    {
        r.push(d[i]);
        i += 1;
    }
    assert(d@.subrange(0, d@.len() as int) =~= d@);
    r
}

fn append_ops(ops: &mut Vec<DataOp>, more: Vec<DataOp>)
    ensures
        op_list(final(ops)@) == op_list(old(ops)@) + op_list(more@),
{
    let mut more = more;
    let ghost a = ops@;
    let ghost b = more@;
    ops.append(&mut more);
    assert(op_list(ops@) =~= op_list(a) + op_list(b));
}

impl Snapshot {
    /// Truncates `p` to `size` bytes.
    pub fn truncate(&mut self, p: &Vec<u8>, size: u64)
        requires
            old(self).wf(),
        ensures
            final(self).wf(),
            final(self)@ == spec_truncate(old(self)@, p@, size),
    {
        let i = open_index(&mut self.files, p);
        let ghost before = self.files@;
        proof {
            lemma_opened_wf(file_list(old(self).files@), p@);
            lemma_key_index_range(file_list(before), p@);
            assert(file_list(before)[i as int] == file_entry(before[i as int]));
            assert(file_wf(file_list(before)[i as int].1));
        }
        let (k, f) = self.take_entry(i);
        let File { uid, gid, mode, size: _, xattrs, time, ty, data } = f;
        let data = match data {
            Some(d) => {
                let mut d = d;
                cut_data(&mut self.free, &mut d, size);
                Some(d)
            },
            None => None,
        };
        let f = File { uid, gid, mode, size: FileSize::Exactly(size), xattrs, time, ty, data };
        put_back(&mut self.files, i, (k, f), Ghost(before));
        proof {
            lemma_table_update_wf(file_list(before), i as int, file_entry((k, f)));
        }
    }

    /// Records a write of `buf` at `offset` of `p`; the result says what to
    /// write to the snapshot file.
    pub fn encode_write(&mut self, p: &Vec<u8>, offset: u64, buf: &Vec<u8>) -> (ops: Vec<DataOp>)
        requires
            old(self).wf(),
            write_ok(old(self)@, p@, offset, buf@.len() as u64),
        ensures
            final(self).wf(),
            (final(self)@, op_list(ops@)) == spec_write(old(self)@, p@, offset, buf@),
    {
        let i = open_index(&mut self.files, p);
        let ghost before = self.files@;
        proof {
            lemma_opened_wf(file_list(old(self).files@), p@);
            lemma_key_index_range(file_list(before), p@);
            assert(file_list(before)[i as int] == file_entry(before[i as int]));
            assert(file_wf(file_list(before)[i as int].1));
        }
        let (k, f) = self.take_entry(i);
        let File { uid, gid, mode, size, xattrs, time, ty, data } = f;
        let mut d = match data {
            Some(d) => d,
            None => {
                assert(false);
                Vec::new()
            },
        };
        let blen = buf.len();
        assert(blen as u64 == buf@.len());
        let ops = write_data(&mut self.free, &mut d, offset, buf);
        let f = File { uid, gid, mode, size, xattrs, time, ty, data: Some(d) };
        put_back(&mut self.files, i, (k, f), Ghost(before));
        proof {
            lemma_table_update_wf(file_list(before), i as int, file_entry((k, f)));
        }
        ops
    }

    /// Records that `p`, which has no entry, was created as `f`.
    fn create_entry(&mut self, p: &Vec<u8>, f: File)
        requires
            old(self).wf(),
            file_wf(f@),
        ensures
            final(self).wf(),
            final(self)@ == with_table(old(self)@, put(old(self)@.files, p@, f@)),
    {
        let i = find_file(&self.files, p);
        proof {
            lemma_key_index_range(file_list(self.files@), p@);
        }
        if i < self.files.len() {
            let ghost before = self.files@;
            proof {
                assert(file_list(before)[i as int] == file_entry(before[i as int]));
            }
            let (k, _f) = self.take_entry(i);
            put_back(&mut self.files, i, (k, f), Ghost(before));
            proof {
                lemma_table_update_wf(file_list(before), i as int, file_entry((k, f)));
            }
        } else {
            self.add_entry(p, f);
        }
    }

    /// Merges one operation; the result says what to write to the snapshot
    /// file.
    pub fn merge_call(&mut self, call: &VFSCall) -> (ops: Vec<DataOp>)
        requires
            old(self).wf(),
            mergeable(old(self)@, call@),
        ensures
            final(self).wf(),
            (final(self)@, op_list(ops@)) == spec_merge(old(self)@, call@),
    {
        reveal(spec_merge);
        reveal(mergeable);
        let none: Vec<DataOp> = Vec::new();
        assert(op_list(none@) =~= Seq::empty());
        match call {
            VFSCall::rename { from, to, .. } => {
                self.rename(from, to);
                none
            },
            VFSCall::mknod { path, mode, rdev, security } => {
                let (uid, gid) = unix_owner(security);
                let f = File {
                    uid: Some(uid),
                    gid: Some(gid),
                    mode: Some(*mode),
                    size: FileSize::Unknown,
                    xattrs: None,
                    time: None,
                    ty: FileType::Special(*rdev),
                    data: Some(Vec::new()),
                };
                self.add_entry(path, f);
                none
            },
            VFSCall::mkdir { path, security, mode } => {
                let (uid, gid) = unix_owner(security);
                let f = File {
                    uid: Some(uid),
                    gid: Some(gid),
                    mode: Some(*mode),
                    size: FileSize::Unknown,
                    xattrs: None,
                    time: None,
                    ty: FileType::Directory,
                    data: None,
                };
                self.add_entry(path, f);
                none
            },
            VFSCall::symlink { from, to, security } => {
                let (uid, gid) = unix_owner(security);
                let f = File {
                    uid: Some(uid),
                    gid: Some(gid),
                    mode: None,
                    size: FileSize::Unknown,
                    xattrs: None,
                    time: None,
                    ty: FileType::Symlink(copy_bytes(from)),
                    data: None,
                };
                self.add_entry(to, f);
                none
            },
            VFSCall::link { from, to, security } => {
                let (uid, gid) = unix_owner(security);
                let i = find_file(&self.files, from);
                proof {
                    lemma_key_index_range(file_list(self.files@), from@);
                }
                let data = if i < self.files.len() {
                    proof {
                        assert(file_list(self.files@)[i as int] == file_entry(self.files@[i as int]));
                        assert(file_wf(file_list(self.files@)[i as int].1));
                    }
                    match &self.files[i].1.data {
                        Some(d) => copy_data(d),
                        None => {
                            assert(false);
                            Vec::new()
                        },
                    }
                } else {
                    Vec::new()
                };
                let f = File {
                    uid: Some(uid),
                    gid: Some(gid),
                    mode: None,
                    size: FileSize::Unknown,
                    xattrs: None,
                    time: None,
                    ty: FileType::Hardlink(copy_bytes(from)),
                    data: Some(data),
                };
                self.add_entry(to, f);
                none
            },
            VFSCall::create { path, flags, security, mode } => {
                let (uid, gid) = unix_owner(security);
                let f = File {
                    uid: Some(uid),
                    gid: Some(gid),
                    mode: Some(*mode),
                    size: FileSize::Unknown,
                    xattrs: None,
                    time: None,
                    ty: FileType::New(*flags),
                    data: Some(Vec::new()),
                };
                self.create_entry(path, f);
                none
            },
            VFSCall::unlink { path } => {
                self.remove_path(path);
                none
            },
            VFSCall::rmdir { path } => {
                self.remove_path(path);
                none
            },
            VFSCall::security { path, security } => {
                let (uid, gid) = unix_owner(security);
                self.set_owner(path, uid, gid);
                none
            },
            VFSCall::chmod { path, mode } => {
                self.set_mode(path, *mode);
                none
            },
            VFSCall::truncate { path, size } => {
                self.truncate(path, *size as u64);
                none
            },
            VFSCall::fallocate { path, offset, length, .. } => {
                self.grow(path, (*offset + *length) as u64);
                none
            },
            VFSCall::write { path, offset, buf } => self.encode_write(path, *offset as u64, buf),
            VFSCall::diff_write { path, offset, buf } => self.encode_write(path, *offset as u64, buf),
            VFSCall::setxattr { path, name, value, .. } => {
                self.set_xattr(path, name, Some(copy_bytes(value)));
                none
            },
            VFSCall::removexattr { path, name } => {
                self.set_xattr(path, name, None);
                none
            },
            VFSCall::utimens { path, timespec } => {
                self.set_times(path, *timespec);
                none
            },
            _ => none,
        }
    }

    /// Whether `merge_call` takes `call` in this state.
    pub fn can_merge(&self, call: &VFSCall) -> (r: bool)
        requires
            self.wf(),
        ensures
            r == mergeable(self@, call@),
    {
        reveal(mergeable);
        match call {
            VFSCall::mknod { path, security, .. } => is_unix(security) && find_file(&self.files, path)
                == self.files.len(),
            VFSCall::mkdir { path, security, .. } => is_unix(security) && find_file(&self.files, path)
                == self.files.len(),
            VFSCall::symlink { to, security, .. } => is_unix(security) && find_file(&self.files, to)
                == self.files.len(),
            VFSCall::link { from, to, security } => {
                if !is_unix(security) || find_file(&self.files, to) != self.files.len() {
                    return false;
                }
                let i = find_file(&self.files, from);
                proof {
                    lemma_key_index_range(file_list(self.files@), from@);
                }
                if i < self.files.len() {
                    assert(file_list(self.files@)[i as int] == file_entry(self.files@[i as int]));
                    self.files[i].1.data.is_some()
                } else {
                    true
                }
            },
            VFSCall::create { security, .. } => is_unix(security),
            VFSCall::security { security, .. } => is_unix(security),
            VFSCall::truncating_write { .. } => false,
            VFSCall::fallocate { offset, length, .. } => offset.checked_add(*length).is_some(),
            VFSCall::write { path, offset, buf } => self.write_fits(path, *offset as u64, buf.len() as u64),
            VFSCall::diff_write { path, offset, buf } => self.write_fits(path, *offset as u64, buf.len() as u64),
            _ => true,
        }
    }

    fn write_fits(&self, p: &Vec<u8>, offset: u64, len: u64) -> (r: bool)
        requires
            self.wf(),
        ensures
            r == write_ok(self@, p@, offset, len),
    {
        let ghost files = self@.files;
        let i = find_file(&self.files, p);
        proof {
            lemma_key_index_range(files, p@);
        }
        let empty: Vec<(u64, Block)> = Vec::new();
        let d = if i < self.files.len() {
            proof {
                assert(files[i as int] == file_entry(self.files@[i as int]));
                assert(file_wf(files[i as int].1));
                assert(opened(files, p@) == files);
                assert(entry_of(files, p@) == files[i as int].1);
            }
            match &self.files[i].1.data {
                Some(d) => d,
                None => {
                    return false;
                },
            }
        } else {
            proof {
                let o = opened(files, p@);
                assert forall|j: int| 0 <= j < files.len() implies o[j].0 != p@ by {
                    assert(o[j] == files[j]);
                }
                lemma_key_index_at(o, p@, files.len() as int);
                assert(entry_of(files, p@).data == Some(Seq::<(u64, Block)>::empty()));
                assert(empty@ =~= Seq::<(u64, Block)>::empty());
            }
            &empty
        };
        if offset.checked_add(len).is_none() {
            return false;
        }
        let end = offset + len;
        let lb = find_lower_bound(d, end);
        proof {
            lemma_lower_bound_range(d@, end);
        }
        let j = find_overlap_start(d, lb, offset);
        proof {
            lemma_overlap_start_range(d@, lb as int, offset);
        }
        let need = if j == lb {
            len
        } else {
            assert(d@[j as int].0 + d@[j as int].1.size <= u64::MAX);
            if lb - j == 1 && d[j].0 <= offset && end <= d[j].0 + d[j].1.size {
                return true;
            }
            let first = d[j];
            let last = d[lb - 1];
            assert(d@[lb - 1].0 + d@[lb - 1].1.size <= u64::MAX);
            let keep_before = if offset > first.0 {
                offset - first.0
            } else {
                0
            };
            let keep_after = if last.0 + last.1.size > end {
                last.0 + last.1.size - end
            } else {
                0
            };
            keep_before + len + keep_after
        };
        let mut k: usize = 0;
        while k < self.free.holes.len() && self.free.holes[k].1 < need
            invariant
                0 <= k <= self.free.holes@.len(),
                forall|m: int| 0 <= m < k ==> self.free.holes@[m].1 < need,
            decreases self.free.holes@.len() - k,
        {
            k += 1;
        }
        proof {
            crate::freelist::lemma_first_fit_at_pub(self.free.holes@, need, k as int);
        }
        k < self.free.holes.len() || self.free.end.checked_add(need).is_some()
    }

    /// Merges a run of operations, stopping before the first one that cannot
    /// be merged (`Err` with its index); the result says what to write to
    /// the snapshot file.
    pub fn merge_from(&mut self, calls: &Vec<VFSCall>, ops: &mut Vec<DataOp>) -> (r: Result<(), usize>)
        requires
            old(self).wf(),
        ensures
            final(self).wf(),
            ({
                let (s, o, n) = merge_prefix(old(self)@, call_list(calls@));
                &&& final(self)@ == s
                &&& op_list(final(ops)@) == op_list(old(ops)@) + o
                &&& r == (if n == calls@.len() {
                    Ok::<(), usize>(())
                } else {
                    Err::<(), usize>(n as usize)
                })
            }),
    {
        let ghost s0 = self@;
        let ghost o0 = op_list(ops@);
        let mut i: usize = 0;
        while i < calls.len()
            invariant
                0 <= i <= calls@.len(),
                self.wf(),
                s0 == old(self)@,
                o0 == op_list(old(ops)@),
                ({
                    let (s, o, n) = merge_prefix(s0, call_list(calls@).subrange(0, i as int));
                    &&& self@ == s
                    &&& op_list(ops@) == o0 + o
                    &&& n == i
                }),
            decreases calls@.len() - i,
        {
            let ghost cs = call_list(calls@).subrange(0, i + 1);
            assert(cs.drop_last() =~= call_list(calls@).subrange(0, i as int));
            assert(cs.last() == calls@[i as int]@);
            if !self.can_merge(&calls[i]) {
                proof {
                    assert(call_list(calls@)[i as int] == calls@[i as int]@);
                    lemma_merge_prefix_stops(s0, call_list(calls@), i as int);
                    let (s, o, n) = merge_prefix(s0, call_list(calls@));
                    assert(s == self@);
                    assert(n == i);
                    assert(s0 == old(self)@);
                    assert(o0 == op_list(old(ops)@));
                    assert(op_list(ops@) == op_list(old(ops)@) + o);
                    assert(n != calls@.len());
                }
                return Err(i);
            }
            let more = self.merge_call(&calls[i]);
            append_ops(ops, more);
            proof {
                let (s1, o1, n1) = merge_prefix(s0, cs.drop_last());
                assert(o0 + (o1 + op_list(more@)) =~= (o0 + o1) + op_list(more@));
            }
            i += 1;
        }
        assert(call_list(calls@).subrange(0, calls@.len() as int) =~= call_list(calls@));
        Ok(())
    }
}

/// Once a run stops, merging more of it changes nothing.
proof fn lemma_merge_prefix_stops(s: SnapView, cs: Seq<CallView>, i: int)
    requires
        0 <= i < cs.len(),
        merge_prefix(s, cs.subrange(0, i)).2 == i,
        !mergeable(merge_prefix(s, cs.subrange(0, i)).0, cs[i]),
    ensures
        merge_prefix(s, cs) == merge_prefix(s, cs.subrange(0, i)),
    decreases cs.len(),
{
    if cs.len() == i + 1 {
        assert(cs.drop_last() =~= cs.subrange(0, i));
    } else {
        let t = cs.drop_last();
        assert(t.subrange(0, i) =~= cs.subrange(0, i));
        lemma_merge_prefix_stops(s, t, i);
        lemma_merge_prefix_count(s, t);
    }
}

proof fn lemma_merge_prefix_count(s: SnapView, cs: Seq<CallView>)
    ensures
        0 <= merge_prefix(s, cs).2 <= cs.len(),
    decreases cs.len(),
{
    if cs.len() > 0 {
        lemma_merge_prefix_count(s, cs.drop_last());
    }
}

fn is_unix(sec: &FileSecurity) -> (r: bool)
    ensures
        r == (sec@ is Unix),
{
    match sec {
        FileSecurity::Unix { .. } => true,
        _ => false,
    }
}

fn unix_owner(sec: &FileSecurity) -> (r: (u32, u32))
    requires
        sec@ is Unix,
    ensures
        r == (sec@->uid, sec@->gid),
{
    match sec {
        FileSecurity::Unix { uid, gid } => (*uid, *gid),
        _ => vstd::pervasive::unreached(),
    }
}

// ---------------------------------------------------------------------------
// Compaction

/// Total size of the holes.
pub open spec fn hole_total(h: Seq<(u64, u64)>) -> int
    decreases h.len(),
{
    if h.len() == 0 {
        0
    } else {
        hole_total(h.drop_last()) + h.last().1
    }
}

/// Compacting a data list: a block that starts within the last `wasted`
/// bytes before `end` is moved to the first hole that takes it, unless that
/// would move it up (or the file cannot grow by it); the old block is freed.
pub open spec fn compact_blocks(f: FreeView, d: Seq<(u64, Block)>, wasted: int, end: u64) -> (FreeView, Seq<(u64, Block)>, Seq<OpView>)
    decreases d.len(),
{
    if d.len() == 0 {
        (f, d, Seq::empty())
    } else {
        let (f1, d1, o1) = compact_blocks(f, d.drop_last(), wasted, end);
        let (k, b) = d.last();
        if b.location + wasted > end && alloc_fits(f1, b.size) {
            let (f2, nb) = spec_allocate(f1, b.size);
            if nb.location > b.location {
                (spec_deallocate(f2, nb), d1.push((k, b)), o1)
            } else {
                (
                    spec_deallocate(f2, b),
                    d1.push((k, nb)),
                    o1.push(OpView::Move { from: b.location, to: nb.location, size: b.size }),
                )
            }
        } else {
            (f1, d1.push((k, b)), o1)
        }
    }
}

/// Compacting every file in table order; each file's limit is taken from
/// the free space as it is when its turn comes.
pub open spec fn compact_files(files: Seq<(Seq<u8>, FileState)>, f: FreeView) -> (Seq<(Seq<u8>, FileState)>, FreeView, Seq<OpView>)
    decreases files.len(),
{
    if files.len() == 0 {
        (files, f, Seq::empty())
    } else {
        let (fs1, f1, o1) = compact_files(files.drop_last(), f);
        let (p, file) = files.last();
        match file.data {
            Some(d) => {
                let (f2, d2, o2) = compact_blocks(f1, d, hole_total(f1.holes), f1.end);
                (fs1.push((p, FileState { data: Some(d2), ..file })), f2, o1 + o2)
            },
            None => (fs1.push((p, file)), f1, o1),
        }
    }
}

pub open spec fn spec_compact(s: SnapView) -> (SnapView, Seq<OpView>) {
    let (files, free, ops) = compact_files(s.files, s.free);
    (with_free(s, files, free), ops)
}

/// `d2` covers the same bytes of the file as `d`, entry for entry, each kept
/// at the same place of the snapshot file or nearer its start.
pub open spec fn same_layout_lower(d: Seq<(u64, Block)>, d2: Seq<(u64, Block)>) -> bool {
    &&& d2.len() == d.len()
    &&& forall|i: int| #![trigger d2[i]] 0 <= i < d.len() ==> d2[i].0 == d[i].0 && d2[i].1.size == d[i].1.size
        && d2[i].1.location <= d[i].1.location
}

/// Every operation moves bytes towards the start of the snapshot file.
pub open spec fn moves_down(ops: Seq<OpView>) -> bool {
    forall|k: int| 0 <= k < ops.len() ==> (#[trigger] ops[k] matches OpView::Move { from, to, .. } && to <= from)
}

proof fn lemma_compact_blocks_layout(f: FreeView, d: Seq<(u64, Block)>, wasted: int, end: u64)
    ensures
        ({
            let (f2, d2, o) = compact_blocks(f, d, wasted, end);
            same_layout_lower(d, d2) && moves_down(o)
        }),
    decreases d.len(),
{
    if d.len() > 0 {
        let (f1, d1, o1) = compact_blocks(f, d.drop_last(), wasted, end);
        lemma_compact_blocks_layout(f, d.drop_last(), wasted, end);
        let (f2, d2, o) = compact_blocks(f, d, wasted, end);
        assert forall|i: int| #![trigger d2[i]] 0 <= i < d.len() implies d2[i].0 == d[i].0 && d2[i].1.size
            == d[i].1.size && d2[i].1.location <= d[i].1.location by {
            if i < d.len() - 1 {
                assert(d2[i] == d1[i]);
                assert(d[i] == d.drop_last()[i]);
            }
        }
        assert forall|k: int| 0 <= k < o.len() implies (#[trigger] o[k] matches OpView::Move { from, to, .. }
            && to <= from) by {
            if k < o1.len() {
                assert(o[k] == o1[k]);
            }
        }
    }
}

proof fn lemma_compact_files_layout(files: Seq<(Seq<u8>, FileState)>, f: FreeView)
    ensures
        ({
            let (fs, f2, o) = compact_files(files, f);
            &&& fs.len() == files.len()
            &&& forall|i: int| #![trigger fs[i]] 0 <= i < files.len() ==> fs[i].0 == files[i].0 && (fs[i].1
                == FileState { data: fs[i].1.data, ..files[i].1 }) && match (files[i].1.data, fs[i].1.data) {
                (Some(d), Some(d2)) => same_layout_lower(d, d2),
                (None, None) => true,
                _ => false,
            }
            &&& moves_down(o)
        }),
    decreases files.len(),
{
    if files.len() > 0 {
        let (fs1, f1, o1) = compact_files(files.drop_last(), f);
        lemma_compact_files_layout(files.drop_last(), f);
        let (fs, f2, o) = compact_files(files, f);
        let (p, file) = files.last();
        let mut o2 = Seq::<OpView>::empty();
        if let Some(d) = file.data {
            lemma_compact_blocks_layout(f1, d, hole_total(f1.holes), f1.end);
            o2 = compact_blocks(f1, d, hole_total(f1.holes), f1.end).2;
            assert(o == o1 + o2);
        } else {
            assert(o == o1);
        }
        assert forall|i: int| #![trigger fs[i]] 0 <= i < files.len() implies fs[i].0 == files[i].0 && (
        fs[i].1 == FileState { data: fs[i].1.data, ..files[i].1 }) && match (files[i].1.data, fs[i].1.data) {
            (Some(d), Some(d2)) => same_layout_lower(d, d2),
            (None, None) => true,
            _ => false,
        } by {
            if i < files.len() - 1 {
                assert(fs[i] == fs1[i]);
                assert(files[i] == files.drop_last()[i]);
            }
        }
        assert forall|k: int| 0 <= k < o.len() implies (#[trigger] o[k] matches OpView::Move { from, to, .. }
            && to <= from) by {
            if k < o1.len() {
                assert(o[k] == o1[k]);
            } else {
                assert(o[k] == o2[k - o1.len()]);
            }
        }
    }
}

/// Where the byte at `y` of the snapshot file comes from once the moves are
/// done: a move's destination takes its bytes from its source.
pub open spec fn moved_from(ops: Seq<OpView>, y: int) -> int
    decreases ops.len(),
{
    if ops.len() == 0 {
        y
    } else {
        match ops.last() {
            OpView::Move { from, to, size } => if to <= y < to + size {
                moved_from(ops.drop_last(), from + (y - to))
            } else {
                moved_from(ops.drop_last(), y)
            },
            OpView::Write { .. } => moved_from(ops.drop_last(), y),
        }
    }
}

/// Once moves alone are done, each byte holds what its source held.
proof fn lemma_moves_carry(c: spec_fn(int) -> u8, ops: Seq<OpView>, y: int)
    requires
        moves_down(ops),
    ensures
        byte_after(c, ops, y) == c(moved_from(ops, y)),
    decreases ops.len(),
{
    if ops.len() > 0 {
        let t = ops.drop_last();
        assert(moves_down(t)) by {
            assert forall|k: int| 0 <= k < t.len() implies (#[trigger] t[k] matches OpView::Move { from, to, .. } && to <= from) by {
                assert(t[k] == ops[k]);
            }
        }
        assert(ops[ops.len() - 1] is Move);
        match ops.last() {
            OpView::Move { from, to, size } => {
                if to <= y < to + size {
                    lemma_moves_carry(c, t, from + (y - to));
                } else {
                    lemma_moves_carry(c, t, y);
                }
            },
            OpView::Write { .. } => {},
        }
    }
}

/// Moves done in two runs: the second run's sources are traced through the
/// first.
proof fn lemma_moved_from_concat(a: Seq<OpView>, b: Seq<OpView>, y: int)
    ensures
        moved_from(a + b, y) == moved_from(a, moved_from(b, y)),
    decreases b.len(),
{
    if b.len() == 0 {
        assert(a + b =~= a);
    } else {
        assert((a + b).drop_last() =~= a + b.drop_last());
        assert((a + b).last() == b.last());
        match b.last() {
            OpView::Move { from, to, size } => {
                if to <= y < to + size {
                    lemma_moved_from_concat(a, b.drop_last(), from + (y - to));
                } else {
                    lemma_moved_from_concat(a, b.drop_last(), y);
                }
            },
            OpView::Write { .. } => {
                lemma_moved_from_concat(a, b.drop_last(), y);
            },
        }
    }
}

/// Compacting a data list whose blocks are owned keeps every block's bytes:
/// each entry's block afterwards takes its bytes from where the entry's
/// block was, a byte that was neither free nor held by the list takes them
/// from where it is, and the space stays accounted for.
#[verifier::rlimit(80)]
#[verifier::spinoff_prover]
proof fn lemma_compact_blocks_carry(f: FreeView, d: Seq<(u64, Block)>, wasted: int, end: u64)
    requires
        free_apart(f),
        blocks_owned(f, d, 0, d.len() as int),
    ensures
        ({
            let (f2, d2, o) = compact_blocks(f, d, wasted, end);
            &&& free_apart(f2)
            &&& d2.len() == d.len()
            &&& blocks_owned(f2, d2, 0, d2.len() as int)
            &&& free_set(f2).union(held(d2)) == free_set(f).union(held(d))
            &&& forall|y: int| !#[trigger] free_set(f).union(held(d)).contains(y) ==> moved_from(o, y) == y
            &&& forall|k: int, t: int|
                0 <= k < d.len() && 0 <= t < d[k].1.size ==> #[trigger] moved_from(o, d2[k].1.location + t)
                    == d[k].1.location + t && d2[k].1.size == d[k].1.size
        }),
    decreases d.len(),
{
    let n = d.len() as int;
    let (f2, d2, o) = compact_blocks(f, d, wasted, end);
    if n == 0 {
        return;
    }
    let dp = d.drop_last();
    assert forall|i: int| 0 <= i < dp.len() implies #[trigger] dp[i] == d[i] by {}
    lemma_held_split(d, 0, n);
    assert(held_between(dp, 0, n - 1) =~= held_between(d, 0, n - 1)) by {
        assert forall|y: int| #[trigger] held_between(d, 0, n - 1).contains(y) implies held_between(dp, 0, n - 1).contains(y) by {
            let k = choose|k: int|
                #![trigger d[k]]
                0 <= k < n - 1 && d[k].1.location <= y < d[k].1.location + d[k].1.size;
            assert(dp[k] == d[k]);
        }
    }
    assert(blocks_owned(f, dp, 0, n - 1)) by {
        assert forall|a: int, c: int| #![trigger dp[a], dp[c]] 0 <= a < c < n - 1 implies dp[a].1.location
            + dp[a].1.size <= dp[c].1.location || dp[c].1.location + dp[c].1.size <= dp[a].1.location by {
            assert(dp[a] == d[a] && dp[c] == d[c]);
        }
        assert forall|k: int| 0 <= k < n - 1 implies (#[trigger] dp[k]).1.size > 0 && dp[k].1.fits() by {
            assert(dp[k] == d[k]);
        }
    }
    lemma_compact_blocks_carry(f, dp, wasted, end);
    let (f1, d1, o1) = compact_blocks(f, dp, wasted, end);
    let (k, b) = d.last();
    // The last block is outside what the rest of the list and the free space
    // hold, so nothing before it moved over it.
    assert(block_set(b).disjoint(free_set(f).union(held(dp)))) by {
        assert forall|y: int| #[trigger] block_set(b).contains(y) implies !free_set(f).union(held(dp)).contains(y) by {
            assert(held(d).contains(y)) by {
                assert(d[n - 1] == (k, b));
            }
            if held(dp).contains(y) {
                let i = choose|i: int|
                    #![trigger dp[i]]
                    0 <= i < n - 1 && dp[i].1.location <= y < dp[i].1.location + dp[i].1.size;
                assert(dp[i] == d[i]);
                assert(d[i].1.location + d[i].1.size <= d[n - 1].1.location || d[n - 1].1.location
                    + d[n - 1].1.size <= d[i].1.location);
            }
        }
    }
    assert(b.size > 0 && b.fits()) by {
        assert(d[n - 1] == (k, b));
    }
    assert(held(d) =~= held(dp).union(block_set(b))) by {
        assert(d[n - 1] == (k, b));
    }
    assert(free_set(f1).union(held(d1)) == free_set(f).union(held(dp)));
    if b.location + wasted > end && alloc_fits(f1, b.size) {
        crate::freelist::lemma_allocate_fits(f1, b.size);
        crate::freelist::lemma_allocate_takes_free(f1, b.size);
        crate::freelist::lemma_allocate_keeps_apart(f1, b.size);
        let (fa, nb) = spec_allocate(f1, b.size);
        assert(block_set(nb).disjoint(held(d1))) by {
            assert forall|y: int| #[trigger] block_set(nb).contains(y) implies !held(d1).contains(y) by {
                assert(free_set(f1).contains(y));
            }
        }
        if nb.location > b.location {
            assert(block_set(nb).disjoint(free_set(fa)));
            crate::freelist::lemma_deallocate_coalesces(fa, nb);
            assert(f2 == spec_deallocate(fa, nb));
            assert(free_set(f2) =~= free_set(f1));
            assert(d2 == d1.push((k, b)));
            assert(o == o1);
            let ev = d1.len() as int;
            assert forall|i: int| 0 <= i < d2.len() implies #[trigger] d2[i] == if i < ev {
                d1[i]
            } else {
                (k, b)
            } by {}
            assert(held(d2) =~= held(d1).union(block_set(b))) by {
                lemma_held_split(d2, 0, ev + 1);
                assert(held_between(d2, 0, ev) =~= held_between(d1, 0, ev)) by {
                    assert forall|y: int| #[trigger] held_between(d2, 0, ev).contains(y) implies held_between(d1, 0, ev).contains(y) by {
                        let i = choose|i: int| #![trigger d2[i]] 0 <= i < ev && d2[i].1.location <= y < d2[i].1.location + d2[i].1.size;
                        assert(d2[i] == d1[i]);
                    }
                    assert forall|y: int| #[trigger] held_between(d1, 0, ev).contains(y) implies held_between(d2, 0, ev).contains(y) by {
                        let i = choose|i: int| #![trigger d1[i]] 0 <= i < ev && d1[i].1.location <= y < d1[i].1.location + d1[i].1.size;
                        assert(d2[i] == d1[i]);
                    }
                }
            }
            assert(blocks_owned(f2, d2, 0, d2.len() as int)) by {
                assert forall|a: int, c: int| #![trigger d2[a], d2[c]] 0 <= a < c < d2.len() implies d2[a].1.location
                    + d2[a].1.size <= d2[c].1.location || d2[c].1.location + d2[c].1.size <= d2[a].1.location by {
                    if c == ev {
                        if !(d2[a].1.location + d2[a].1.size <= d2[c].1.location || d2[c].1.location
                            + d2[c].1.size <= d2[a].1.location) {
                            let z: int = if d1[a].1.location <= b.location {
                                b.location as int
                            } else {
                                d1[a].1.location as int
                            };
                            assert(block_set(b).contains(z));
                            assert(held(d1).contains(z));
                        }
                    } else {
                        assert(d2[a] == d1[a] && d2[c] == d1[c]);
                    }
                }
                assert forall|y: int| #[trigger] free_set(f2).contains(y) implies !held_between(d2, 0, d2.len() as int).contains(y) by {
                    if held(d2).contains(y) && block_set(b).contains(y) {
                        assert(!free_set(f1).contains(y));
                    }
                }
            }
            assert forall|y: int| !#[trigger] free_set(f).union(held(d)).contains(y) implies moved_from(o, y) == y by {
                assert(!free_set(f).union(held(dp)).contains(y));
            }
            assert forall|y: int| #[trigger] free_set(f2).union(held(d2)).contains(y) == free_set(f).union(held(d)).contains(y) by {
                assert(free_set(f1).union(held(d1)).contains(y) == free_set(f).union(held(dp)).contains(y));
            }
            assert(free_set(f2).union(held(d2)) =~= free_set(f).union(held(d)));
            assert forall|kk: int, t: int|
                0 <= kk < d.len() && 0 <= t < d[kk].1.size implies #[trigger] moved_from(o, d2[kk].1.location + t)
                    == d[kk].1.location + t && d2[kk].1.size == d[kk].1.size by {
                if kk < n - 1 {
                    assert(d2[kk] == d1[kk]);
                    assert(dp[kk] == d[kk]);
                    assert(moved_from(o1, d1[kk].1.location + t) == dp[kk].1.location + t);
                } else {
                    assert(d[kk] == (k, b));
                    assert(block_set(b).contains(b.location + t));
                    assert(!free_set(f).union(held(dp)).contains(b.location + t));
                }
            }
        } else {
            let mv = OpView::Move { from: b.location, to: nb.location, size: b.size };
            assert(o == o1.push(mv));
            assert(o.drop_last() =~= o1);
            assert(block_set(b).disjoint(free_set(fa)));
            crate::freelist::lemma_deallocate_coalesces(fa, b);
            assert(f2 == spec_deallocate(fa, b));
            assert(d2 == d1.push((k, nb)));
            let ev = d1.len() as int;
            assert forall|i: int| 0 <= i < d2.len() implies #[trigger] d2[i] == if i < ev {
                d1[i]
            } else {
                (k, nb)
            } by {}
            assert(held(d2) =~= held(d1).union(block_set(nb))) by {
                lemma_held_split(d2, 0, ev + 1);
                assert(held_between(d2, 0, ev) =~= held_between(d1, 0, ev)) by {
                    assert forall|y: int| #[trigger] held_between(d2, 0, ev).contains(y) implies held_between(d1, 0, ev).contains(y) by {
                        let i = choose|i: int| #![trigger d2[i]] 0 <= i < ev && d2[i].1.location <= y < d2[i].1.location + d2[i].1.size;
                        assert(d2[i] == d1[i]);
                    }
                    assert forall|y: int| #[trigger] held_between(d1, 0, ev).contains(y) implies held_between(d2, 0, ev).contains(y) by {
                        let i = choose|i: int| #![trigger d1[i]] 0 <= i < ev && d1[i].1.location <= y < d1[i].1.location + d1[i].1.size;
                        assert(d2[i] == d1[i]);
                    }
                }
            }
            assert(blocks_owned(f2, d2, 0, d2.len() as int)) by {
                assert forall|a: int, c: int| #![trigger d2[a], d2[c]] 0 <= a < c < d2.len() implies d2[a].1.location
                    + d2[a].1.size <= d2[c].1.location || d2[c].1.location + d2[c].1.size <= d2[a].1.location by {
                    if c == ev {
                        if !(d2[a].1.location + d2[a].1.size <= d2[c].1.location || d2[c].1.location
                            + d2[c].1.size <= d2[a].1.location) {
                            let z: int = if d1[a].1.location <= nb.location {
                                nb.location as int
                            } else {
                                d1[a].1.location as int
                            };
                            assert(block_set(nb).contains(z));
                            assert(held(d1).contains(z));
                        }
                    } else {
                        assert(d2[a] == d1[a] && d2[c] == d1[c]);
                    }
                }
                assert forall|i: int| 0 <= i < d2.len() implies (#[trigger] d2[i]).1.size > 0 && d2[i].1.fits() by {}
                assert forall|y: int| #[trigger] free_set(f2).contains(y) implies !held_between(d2, 0, d2.len() as int).contains(y) by {
                    if held(d2).contains(y) {
                        if block_set(nb).contains(y) {
                            assert(!free_set(fa).contains(y));
                            assert(free_set(f1).contains(y));
                            assert(!block_set(b).contains(y));
                        } else {
                            assert(held(d1).contains(y));
                            assert(!free_set(f1).contains(y));
                            assert(!block_set(b).contains(y)) by {
                                if block_set(b).contains(y) {
                                    assert(free_set(f).union(held(dp)).contains(y)) by {
                                        assert(free_set(f1).union(held(d1)).contains(y));
                                    }
                                }
                            }
                        }
                    }
                }
            }
            assert forall|y: int| #[trigger] free_set(f2).union(held(d2)).contains(y) == free_set(f).union(held(d)).contains(y) by {
                assert(free_set(f1).union(held(d1)).contains(y) == free_set(f).union(held(dp)).contains(y));
                assert(free_set(f2).contains(y) == (free_set(fa).contains(y) || block_set(b).contains(y)));
                assert(free_set(fa).contains(y) == (free_set(f1).contains(y) && !block_set(nb).contains(y)));
                assert(block_set(nb).contains(y) ==> free_set(f1).contains(y));
            }
            assert(free_set(f2).union(held(d2)) =~= free_set(f).union(held(d)));
            assert forall|y: int| !#[trigger] free_set(f).union(held(d)).contains(y) implies moved_from(o, y) == y by {
                assert(!free_set(f1).contains(y)) by {
                    if free_set(f1).contains(y) {
                        assert(free_set(f1).union(held(d1)).contains(y));
                    }
                }
                assert(!block_set(nb).contains(y));
                assert(!free_set(f).union(held(dp)).contains(y));
            }
            assert forall|kk: int, t: int|
                0 <= kk < d.len() && 0 <= t < d[kk].1.size implies #[trigger] moved_from(o, d2[kk].1.location + t)
                    == d[kk].1.location + t && d2[kk].1.size == d[kk].1.size by {
                if kk < n - 1 {
                    assert(d2[kk] == d1[kk]);
                    assert(dp[kk] == d[kk]);
                    let y = d1[kk].1.location + t;
                    assert(moved_from(o1, d1[kk].1.location + t) == dp[kk].1.location + t);
                    assert(d1[kk].1.size == dp[kk].1.size);
                    assert(d1[kk].1.location <= y < d1[kk].1.location + d1[kk].1.size);
                    assert(held(d1).contains(y));
                    assert(!free_set(f1).contains(y));
                    assert(!block_set(nb).contains(y));
                    assert(moved_from(o1, y) == dp[kk].1.location + t);
                } else {
                    assert(d[kk] == (k, b));
                    assert(d2[kk] == (k, nb));
                    assert(block_set(b).contains(b.location + t));
                    assert(!free_set(f).union(held(dp)).contains(b.location + t));
                }
            }
        }
    } else {
        assert(d2 == d1.push((k, b)));
        assert(o == o1);
        assert(f2 == f1);
        let ev = d1.len() as int;
        assert forall|i: int| 0 <= i < d2.len() implies #[trigger] d2[i] == if i < ev {
            d1[i]
        } else {
            (k, b)
        } by {}
        assert(held(d2) =~= held(d1).union(block_set(b))) by {
            lemma_held_split(d2, 0, ev + 1);
            assert(held_between(d2, 0, ev) =~= held_between(d1, 0, ev)) by {
                assert forall|y: int| #[trigger] held_between(d2, 0, ev).contains(y) implies held_between(d1, 0, ev).contains(y) by {
                    let i = choose|i: int| #![trigger d2[i]] 0 <= i < ev && d2[i].1.location <= y < d2[i].1.location + d2[i].1.size;
                    assert(d2[i] == d1[i]);
                }
                assert forall|y: int| #[trigger] held_between(d1, 0, ev).contains(y) implies held_between(d2, 0, ev).contains(y) by {
                    let i = choose|i: int| #![trigger d1[i]] 0 <= i < ev && d1[i].1.location <= y < d1[i].1.location + d1[i].1.size;
                    assert(d2[i] == d1[i]);
                }
            }
        }
        assert(blocks_owned(f2, d2, 0, d2.len() as int)) by {
            assert forall|a: int, c: int| #![trigger d2[a], d2[c]] 0 <= a < c < d2.len() implies d2[a].1.location
                + d2[a].1.size <= d2[c].1.location || d2[c].1.location + d2[c].1.size <= d2[a].1.location by {
                if c == ev {
                    if !(d2[a].1.location + d2[a].1.size <= d2[c].1.location || d2[c].1.location
                        + d2[c].1.size <= d2[a].1.location) {
                        let z: int = if d1[a].1.location <= b.location {
                            b.location as int
                        } else {
                            d1[a].1.location as int
                        };
                        assert(block_set(b).contains(z));
                        assert(held(d1).contains(z));
                    }
                } else {
                    assert(d2[a] == d1[a] && d2[c] == d1[c]);
                }
            }
            assert forall|y: int| #[trigger] free_set(f2).contains(y) implies !held_between(d2, 0, d2.len() as int).contains(y) by {
                if held(d2).contains(y) && block_set(b).contains(y) {
                    assert(free_set(f1).union(held(d1)).contains(y));
                }
            }
        }
        assert forall|y: int| !#[trigger] free_set(f).union(held(d)).contains(y) implies moved_from(o, y) == y by {
            assert(!free_set(f).union(held(dp)).contains(y));
        }
        assert forall|y: int| #[trigger] free_set(f2).union(held(d2)).contains(y) == free_set(f).union(held(d)).contains(y) by {
            assert(free_set(f1).union(held(d1)).contains(y) == free_set(f).union(held(dp)).contains(y));
        }
        assert(free_set(f2).union(held(d2)) =~= free_set(f).union(held(d)));
        assert forall|kk: int, t: int|
            0 <= kk < d.len() && 0 <= t < d[kk].1.size implies #[trigger] moved_from(o, d2[kk].1.location + t)
                == d[kk].1.location + t && d2[kk].1.size == d[kk].1.size by {
            if kk < n - 1 {
                assert(d2[kk] == d1[kk]);
                assert(dp[kk] == d[kk]);
                assert(moved_from(o1, d1[kk].1.location + t) == dp[kk].1.location + t);
            } else {
                assert(d[kk] == (k, b));
                assert(block_set(b).contains(b.location + t));
                assert(!free_set(f).union(held(dp)).contains(b.location + t));
            }
        }
    }
    assert(free_apart(f2));
    assert(d2.len() == d.len());
    assert(blocks_owned(f2, d2, 0, d2.len() as int));
    assert(free_set(f2).union(held(d2)) == free_set(f).union(held(d)));
    assert(forall|y: int| !#[trigger] free_set(f).union(held(d)).contains(y) ==> moved_from(o, y) == y);
}

/// The snapshot-file bytes a file's data holds.
pub open spec fn file_held(x: FileState) -> Set<int> {
    match x.data {
        Some(d) => held(d),
        None => Set::empty(),
    }
}

/// The snapshot-file bytes the files of a table hold.
pub open spec fn table_held(files: Seq<(Seq<u8>, FileState)>) -> Set<int>
    decreases files.len(),
{
    if files.len() == 0 {
        Set::empty()
    } else {
        table_held(files.drop_last()).union(file_held(files.last().1))
    }
}

/// Every file's blocks are owned, and no two files share a byte (a hard
/// link shares its source's blocks, which this leaves out).
pub open spec fn table_owned(f: FreeView, files: Seq<(Seq<u8>, FileState)>) -> bool {
    &&& forall|i: int|
        0 <= i < files.len() ==> (#[trigger] files[i].1.data matches Some(d) ==> blocks_owned(
            f,
            d,
            0,
            d.len() as int,
        ))
    &&& forall|i: int, j: int|
        #![trigger files[i], files[j]]
        0 <= i < j < files.len() ==> file_held(files[i].1).disjoint(file_held(files[j].1))
}

/// A file's bytes are among the table's.
proof fn lemma_file_in_table(files: Seq<(Seq<u8>, FileState)>, i: int)
    requires
        0 <= i < files.len(),
    ensures
        file_held(files[i].1).subset_of(table_held(files)),
    decreases files.len(),
{
    if i < files.len() - 1 {
        lemma_file_in_table(files.drop_last(), i);
        assert(files.drop_last()[i] == files[i]);
    }
}

/// A set apart from every file's bytes is apart from the table's.
proof fn lemma_table_apart(files: Seq<(Seq<u8>, FileState)>, x: Set<int>)
    requires
        forall|i: int| 0 <= i < files.len() ==> file_held(#[trigger] files[i].1).disjoint(x),
    ensures
        table_held(files).disjoint(x),
    decreases files.len(),
{
    if files.len() > 0 {
        let t = files.drop_last();
        assert forall|i: int| 0 <= i < t.len() implies file_held(#[trigger] t[i].1).disjoint(x) by {
            assert(t[i] == files[i]);
        }
        lemma_table_apart(t, x);
        assert(file_held(files[files.len() - 1].1).disjoint(x));
    }
}

/// Compacting a table whose files own their blocks keeps every block's
/// bytes: each block afterwards takes its bytes from where it was, and a
/// byte that was neither free nor held takes them from where it is.
#[verifier::rlimit(80)]
#[verifier::spinoff_prover]
proof fn lemma_compact_files_carry(files: Seq<(Seq<u8>, FileState)>, f: FreeView)
    requires
        free_apart(f),
        table_owned(f, files),
    ensures
        ({
            let (fs, f2, o) = compact_files(files, f);
            &&& free_apart(f2)
            &&& fs.len() == files.len()
            &&& free_set(f2).union(table_held(fs)) == free_set(f).union(table_held(files))
            &&& free_set(f2).disjoint(table_held(fs))
            &&& moves_down(o)
            &&& forall|y: int| !#[trigger] free_set(f).union(table_held(files)).contains(y) ==> moved_from(o, y) == y
            &&& forall|i: int, k: int, t: int|
                0 <= i < files.len() && files[i].1.data is Some && 0 <= k < files[i].1.data->0.len() && 0 <= t
                    < files[i].1.data->0[k].1.size ==> fs[i].1.data is Some && #[trigger] moved_from(
                    o,
                    fs[i].1.data->0[k].1.location + t,
                ) == files[i].1.data->0[k].1.location + t
        }),
    decreases files.len(),
{
    lemma_compact_files_layout(files, f);
    let (fs, f2, o) = compact_files(files, f);
    let n = files.len() as int;
    if n == 0 {
        assert(table_held(fs) =~= Set::<int>::empty());
        assert(table_held(files) =~= Set::<int>::empty());
        return;
    }
    let tp = files.drop_last();
    assert forall|i: int| 0 <= i < tp.len() implies #[trigger] tp[i] == files[i] by {}
    assert(table_owned(f, tp)) by {
        assert forall|i: int| 0 <= i < tp.len() implies (#[trigger] tp[i].1.data matches Some(d) ==> blocks_owned(
            f,
            d,
            0,
            d.len() as int,
        )) by {
            assert(tp[i] == files[i]);
        }
        assert forall|i: int, j: int| #![trigger tp[i], tp[j]] 0 <= i < j < tp.len() implies file_held(tp[i].1).disjoint(
            file_held(tp[j].1),
        ) by {
            assert(tp[i] == files[i] && tp[j] == files[j]);
        }
    }
    lemma_compact_files_carry(tp, f);
    lemma_compact_files_layout(tp, f);
    let (fs1, f1, o1) = compact_files(tp, f);
    let (p, file) = files.last();
    assert(files[n - 1] == (p, file));
    // The last file's bytes are apart from the free space and the rest.
    assert(file_held(file).disjoint(table_held(tp))) by {
        assert forall|i: int| 0 <= i < tp.len() implies file_held(#[trigger] tp[i].1).disjoint(file_held(file)) by {
            assert(tp[i] == files[i]);
        }
        lemma_table_apart(tp, file_held(file));
    }
    match file.data {
        Some(d) => {
            assert(blocks_owned(f, d, 0, d.len() as int));
            assert(blocks_owned(f1, d, 0, d.len() as int)) by {
                assert forall|y: int| #[trigger] free_set(f1).contains(y) implies !held_between(d, 0, d.len() as int).contains(y) by {
                    assert(free_set(f1).union(table_held(fs1)).contains(y));
                    if held(d).contains(y) {
                        assert(file_held(file).contains(y));
                    }
                }
            }
            lemma_compact_blocks_carry(f1, d, hole_total(f1.holes), f1.end);
            lemma_compact_blocks_layout(f1, d, hole_total(f1.holes), f1.end);
            let (f3, d2, o2) = compact_blocks(f1, d, hole_total(f1.holes), f1.end);
            assert(fs == fs1.push((p, FileState { data: Some(d2), ..file })));
            assert(o == o1 + o2);
            assert(f2 == f3);
            assert(table_held(fs) == table_held(fs1).union(held(d2))) by {
                assert(fs.drop_last() == fs1);
            }
            assert(free_set(f2).union(table_held(fs)) =~= free_set(f).union(table_held(files))) by {
                assert forall|y: int| #[trigger] free_set(f2).union(table_held(fs)).contains(y) == free_set(f).union(table_held(files)).contains(y) by {
                    assert(free_set(f3).union(held(d2)).contains(y) == free_set(f1).union(held(d)).contains(y));
                    assert(free_set(f1).union(table_held(fs1)).contains(y) == free_set(f).union(table_held(tp)).contains(y));
                }
            }
            assert(free_set(f2).disjoint(table_held(fs))) by {
                assert forall|y: int| #[trigger] free_set(f2).contains(y) implies !table_held(fs).contains(y) by {
                    if table_held(fs1).contains(y) {
                        // Not held by the last file, and not free before it.
                        assert(!free_set(f1).contains(y));
                        assert(free_set(f1).union(table_held(fs1)).contains(y));
                        assert(free_set(f).union(table_held(tp)).contains(y));
                        assert(!held(d).contains(y)) by {
                            if held(d).contains(y) {
                                assert(file_held(file).contains(y));
                                assert(!free_set(f).contains(y));
                                assert(!table_held(tp).contains(y));
                            }
                        }
                        assert(!free_set(f1).union(held(d)).contains(y));
                        assert(!free_set(f3).union(held(d2)).contains(y));
                    }
                }
            }
            assert(moves_down(o)) by {
                assert forall|kk: int| 0 <= kk < o.len() implies (#[trigger] o[kk] matches OpView::Move { from, to, .. } && to <= from) by {
                    if kk < o1.len() {
                        assert(o[kk] == o1[kk]);
                    } else {
                        assert(o[kk] == o2[kk - o1.len()]);
                    }
                }
            }
            assert forall|y: int| !#[trigger] free_set(f).union(table_held(files)).contains(y) implies moved_from(o, y) == y by {
                lemma_moved_from_concat(o1, o2, y);
                assert(!free_set(f1).union(held(d)).contains(y)) by {
                    assert(!free_set(f).union(table_held(tp)).contains(y));
                    assert(!free_set(f1).union(table_held(fs1)).contains(y));
                }
                assert(!free_set(f).union(table_held(tp)).contains(y));
            }
            assert forall|i: int, k: int, t: int|
                0 <= i < files.len() && files[i].1.data is Some && 0 <= k < files[i].1.data->0.len() && 0 <= t
                    < files[i].1.data->0[k].1.size implies fs[i].1.data is Some && #[trigger] moved_from(
                    o,
                    fs[i].1.data->0[k].1.location + t,
                ) == files[i].1.data->0[k].1.location + t by {
                let y = fs[i].1.data->0[k].1.location + t;
                lemma_moved_from_concat(o1, o2, y);
                if i < n - 1 {
                    assert(tp[i] == files[i]);
                    assert(fs[i] == fs1[i]);
                    assert(moved_from(o1, fs1[i].1.data->0[k].1.location + t) == tp[i].1.data->0[k].1.location + t);
                    // The block is held by an earlier file, so the last file's
                    // moves leave it.
                    let dd = fs1[i].1.data->0;
                    assert(same_layout_lower(tp[i].1.data->0, dd));
                    assert(dd[k].1.location <= y < dd[k].1.location + dd[k].1.size);
                    assert(held(dd).contains(y));
                    lemma_file_in_table(fs1, i);
                    assert(table_held(fs1).contains(y));
                    assert(!free_set(f1).contains(y));
                    assert(!held(d).contains(y)) by {
                        if held(d).contains(y) {
                            assert(free_set(f1).union(table_held(fs1)).contains(y));
                            assert(file_held(file).contains(y));
                        }
                    }
                    assert(!free_set(f1).union(held(d)).contains(y));
                } else {
                    assert(fs[i] == (p, FileState { data: Some(d2), ..file }));
                    assert(moved_from(o2, d2[k].1.location + t) == d[k].1.location + t);
                    let z = d[k].1.location + t;
                    assert(held(d).contains(z));
                    assert(!free_set(f).contains(z));
                    assert(!table_held(tp).contains(z));
                    assert(!free_set(f).union(table_held(tp)).contains(z));
                }
            }
        },
        None => {
            assert(fs == fs1.push((p, file)));
            assert(o == o1);
            assert(f2 == f1);
            assert(table_held(fs) =~= table_held(fs1)) by {
                assert(fs.drop_last() == fs1);
            }
            assert(table_held(files) =~= table_held(tp));
            assert forall|i: int, k: int, t: int|
                0 <= i < files.len() && files[i].1.data is Some && 0 <= k < files[i].1.data->0.len() && 0 <= t
                    < files[i].1.data->0[k].1.size implies fs[i].1.data is Some && #[trigger] moved_from(
                    o,
                    fs[i].1.data->0[k].1.location + t,
                ) == files[i].1.data->0[k].1.location + t by {
                assert(i < n - 1);
                assert(tp[i] == files[i]);
                assert(fs[i] == fs1[i]);
                assert(moved_from(o1, fs1[i].1.data->0[k].1.location + t) == tp[i].1.data->0[k].1.location + t);
            }
        },
    }
}

/// Compaction keeps the data: once a snapshot whose files own their blocks
/// (no two files share a byte of the snapshot file, as a hard link shares
/// its source's) is compacted and the moves are done on the snapshot file,
/// every block of every file holds the bytes its block held before.
pub proof fn lemma_compact_keeps_bytes(s: SnapView, c: spec_fn(int) -> u8, i: int, k: int, t: int)
    requires
        free_apart(s.free),
        table_owned(s.free, s.files),
        0 <= i < s.files.len(),
        s.files[i].1.data is Some,
        0 <= k < s.files[i].1.data->0.len(),
        0 <= t < s.files[i].1.data->0[k].1.size,
    ensures
        ({
            let (s2, ops) = spec_compact(s);
            &&& s2.files[i].1.data is Some
            &&& byte_after(c, ops, s2.files[i].1.data->0[k].1.location + t) == c(
                s.files[i].1.data->0[k].1.location + t,
            )
        }),
{
    lemma_compact_files_carry(s.files, s.free);
    let (s2, ops) = spec_compact(s);
    let (fs, f2, o) = compact_files(s.files, s.free);
    assert(ops == o && s2.files == fs);
    assert(moved_from(o, fs[i].1.data->0[k].1.location + t) == s.files[i].1.data->0[k].1.location + t);
    lemma_moves_carry(c, o, fs[i].1.data->0[k].1.location + t);
}

/// Compaction changes only where blocks are kept: every path keeps its
/// entry, every file covers the same bytes by the same entries, each block
/// stays where it was or moves nearer the start of the snapshot file, and
/// every operation it asks for is such a move.
pub proof fn lemma_compact_keeps_layout(s: SnapView)
    ensures
        ({
            let (s2, ops) = spec_compact(s);
            &&& s2.header == s.header
            &&& s2.files.len() == s.files.len()
            &&& forall|i: int| #![trigger s2.files[i]] 0 <= i < s.files.len() ==> s2.files[i].0 == s.files[i].0
                && (s2.files[i].1 == FileState { data: s2.files[i].1.data, ..s.files[i].1 }) && match (
                s.files[i].1.data,
                s2.files[i].1.data,
            ) {
                (Some(d), Some(d2)) => same_layout_lower(d, d2),
                (None, None) => true,
                _ => false,
            }
            &&& moves_down(ops)
        }),
{
    lemma_compact_files_layout(s.files, s.free);
}

fn holes_total(h: &Vec<(u64, u64)>) -> (r: u128)
    ensures
        r == hole_total(h@),
{
    let mut t: u128 = 0;
    let mut i: usize = 0;
    while i < h.len()
        invariant
            0 <= i <= h@.len(),
            t == hole_total(h@.subrange(0, i as int)),
            t <= i * 0x1_0000_0000_0000_0000,
        decreases h@.len() - i,
    {
        assert(h@.subrange(0, i + 1).drop_last() =~= h@.subrange(0, i as int));
        t = t + h[i].1 as u128;
        i += 1;
    }
    assert(h@.subrange(0, h@.len() as int) =~= h@);
    t
}

fn can_allocate(free: &FreeList, n: u64) -> (r: bool)
    ensures
        r == alloc_fits(free@, n),
{
    let mut k: usize = 0;
    while k < free.holes.len() && free.holes[k].1 < n
        invariant
            0 <= k <= free.holes@.len(),
            forall|m: int| 0 <= m < k ==> free.holes@[m].1 < n,
        decreases free.holes@.len() - k,
    {
        k += 1;
    }
    proof {
        crate::freelist::lemma_first_fit_at_pub(free.holes@, n, k as int);
    }
    k < free.holes.len() || free.end.checked_add(n).is_some()
}

fn compact_data(free: &mut FreeList, d: &mut Vec<(u64, Block)>, ops: &mut Vec<DataOp>)
    requires
        free_wf(old(free)@),
        data_wf(old(d)@),
    ensures
        free_wf(final(free)@),
        data_wf(final(d)@),
        ({
            let (f2, d2, o2) = compact_blocks(
                old(free)@,
                old(d)@,
                hole_total(old(free)@.holes),
                old(free)@.end,
            );
            &&& final(free)@ == f2
            &&& final(d)@ == d2
            &&& op_list(final(ops)@) == op_list(old(ops)@) + o2
        }),
{
    let wasted = holes_total(&free.holes);
    let end = free.end;
    let ghost f0 = free@;
    let ghost d0 = d@;
    let ghost o0 = op_list(ops@);
    let mut i: usize = 0;
    while i < d.len()
        invariant
            0 <= i <= d@.len(),
            d@.len() == d0.len(),
            f0 == old(free)@,
            d0 == old(d)@,
            o0 == op_list(old(ops)@),
            wasted == hole_total(f0.holes),
            end == f0.end,
            data_wf(d0),
            data_wf(d@),
            free_wf(free@),
            forall|k: int| i <= k < d@.len() ==> d@[k] == d0[k],
            ({
                let (f1, d1, o1) = compact_blocks(f0, d0.subrange(0, i as int), wasted as int, end);
                &&& free@ == f1
                &&& d@.subrange(0, i as int) == d1
                &&& op_list(ops@) == o0 + o1
            }),
        decreases d@.len() - i,
    {
        let ghost sub = d0.subrange(0, i + 1);
        assert(sub.drop_last() =~= d0.subrange(0, i as int));
        assert(sub.last() == d@[i as int]);
        let (k, b) = d[i];
        assert(b.fits() && k + b.size <= u64::MAX) by {
            assert(d@[i as int] == d0[i as int]);
        };
        let ghost dprev = d@;
        if (b.location > end || wasted > (end - b.location) as u128) && can_allocate(free, b.size) {
            let nb = free.allocate(b.size);
            if nb.location > b.location {
                free.deallocate(nb);
                assert(d@.subrange(0, i + 1) =~= d@.subrange(0, i as int).push((k, b)));
            } else {
                let ghost before = op_list(ops@);
                ops.push(DataOp::Move { from: b.location, to: nb.location, size: b.size });
                assert(op_list(ops@) =~= before.push(OpView::Move { from: b.location, to: nb.location, size: b.size }));
                free.deallocate(b);
                d.set(i, (k, nb));
                assert(d@.subrange(0, i + 1) =~= dprev.subrange(0, i as int).push((k, nb)));
                assert forall|a: int, c: int| 0 <= a < c < d@.len() implies d@[a].0 < d@[c].0 by {
                    assert(d@[a].0 == dprev[a].0 && d@[c].0 == dprev[c].0);
                }
                assert forall|a: int| 0 <= a < d@.len() implies (#[trigger] d@[a]).1.fits() && d@[a].0 + d@[a].1.size <= u64::MAX by {
                    if a != i {
                        assert(d@[a] == dprev[a]);
                    }
                }
            }
        } else {
            assert(d@.subrange(0, i + 1) =~= d@.subrange(0, i as int).push((k, b)));
        }
        i += 1;
    }
    assert(d0.subrange(0, d0.len() as int) =~= d0);
    assert(d@.subrange(0, d@.len() as int) =~= d@);
}

impl Snapshot {
    /// Moves data from the end of the snapshot file into holes; the result
    /// says which bytes to move.
    pub fn compact(&mut self) -> (ops: Vec<DataOp>)
        requires
            old(self).wf(),
        ensures
            final(self).wf(),
            (final(self)@, op_list(ops@)) == spec_compact(old(self)@),
    {
        let mut ops: Vec<DataOp> = Vec::new();
        let ghost s0 = self@;
        let ghost v0 = self.files@;
        let mut i: usize = 0;
        while i < self.files.len()
            invariant
                0 <= i <= self.files@.len(),
                self.files@.len() == v0.len(),
                s0 == old(self)@,
                v0 == old(self).files@,
                self.header == old(self).header,
                self.wf(),
                forall|k: int| i <= k < self.files@.len() ==> self.files@[k] == v0[k],
                ({
                    let (fs1, f1, o1) = compact_files(s0.files.subrange(0, i as int), s0.free);
                    &&& self.free@ == f1
                    &&& file_list(self.files@).subrange(0, i as int) == fs1
                    &&& op_list(ops@) == o1
                }),
            decreases self.files@.len() - i,
        {
            let ghost before = self.files@;
            let ghost sub = s0.files.subrange(0, i + 1);
            assert(sub.drop_last() =~= s0.files.subrange(0, i as int));
            assert(sub.last() == file_entry(before[i as int])) by {
                assert(before[i as int] == v0[i as int]);
            };
            assert(file_list(before)[i as int] == file_entry(before[i as int]));
            assert(file_wf(file_list(before)[i as int].1));
            let (k, f) = self.take_entry(i);
            let File { uid, gid, mode, size, xattrs, time, ty, data } = f;
            let data = match data {
                Some(d) => {
                    let mut d = d;
                    compact_data(&mut self.free, &mut d, &mut ops);
                    Some(d)
                },
                None => None,
            };
            let f = File { uid, gid, mode, size, xattrs, time, ty, data };
            put_back(&mut self.files, i, (k, f), Ghost(before));
            proof {
                lemma_table_update_wf(file_list(before), i as int, file_entry((k, f)));
                assert(file_list(self.files@).subrange(0, i + 1) =~= file_list(before).subrange(0, i as int).push(file_entry((k, f))));
            }
            i += 1;
        }
        assert(s0.files.subrange(0, s0.files.len() as int) =~= s0.files);
        assert(file_list(self.files@).subrange(0, self.files@.len() as int) =~= file_list(self.files@));
        ops
    }

    /// Compacts, then records that the file table starts where the data ends;
    /// the result says which bytes to move first.
    pub fn finalize(&mut self) -> (ops: Vec<DataOp>)
        requires
            old(self).wf(),
        ensures
            final(self).wf(),
            ({
                let (c, o) = spec_compact(old(self)@);
                &&& op_list(ops@) == o
                &&& final(self)@ == (SnapView {
                    header: Header { ty: c.header.ty, ft_offset: c.free.end },
                    ..c
                })
            }),
    {
        let ops = self.compact();
        self.header = Header { ty: self.header.ty, ft_offset: self.free.end };
        ops
    }

    /// The header.
    pub fn header(&self) -> (h: Header)
        ensures
            h == self@.header,
    {
        self.header
    }

    /// The table of paths.
    pub fn files(&self) -> (r: &Vec<(Vec<u8>, File)>)
        ensures
            file_list(r@) == self@.files,
    {
        &self.files
    }

    /// Where the unbounded free space of the snapshot file begins.
    pub fn data_end(&self) -> (r: u64)
        ensures
            r == self@.free.end,
    {
        self.free.end
    }
}

// ---------------------------------------------------------------------------
// Applying

/// One step of applying a snapshot: an operation, or `size` bytes of the
/// snapshot file at `location` to be written at `offset` of `path`.
#[derive(Debug)]
pub enum ApplyStep {
    Call(VFSCall),
    Data { path: Vec<u8>, offset: i64, location: u64, size: u64 },
}

pub enum StepView {
    Call(CallView),
    Data { path: Seq<u8>, offset: i64, location: u64, size: u64 },
}

impl View for ApplyStep {
    type V = StepView;

    open spec fn view(&self) -> StepView {
        match self {
            ApplyStep::Call(c) => StepView::Call(c@),
            ApplyStep::Data { path, offset, location, size } => StepView::Data {
                path: path@,
                offset: *offset,
                location: *location,
                size: *size,
            },
        }
    }
}

pub open spec fn step_list(v: Seq<ApplyStep>) -> Seq<StepView> {
    v.map_values(|s: ApplyStep| s@)
}

/// The owner is part of the operation that makes this kind of entry.
pub open spec fn takes_owner(t: TypeView) -> bool {
    match t {
        TypeView::Directory | TypeView::New(_) | TypeView::Special(_) | TypeView::Symlink(_)
        | TypeView::Hardlink(_) => true,
        _ => false,
    }
}

/// The mode is part of the operation that makes this kind of entry.
pub open spec fn takes_mode(t: TypeView) -> bool {
    match t {
        TypeView::Directory | TypeView::New(_) | TypeView::Special(_) => true,
        _ => false,
    }
}

pub open spec fn unix(uid: u32, gid: u32) -> SecurityView {
    SecurityView::Unix { uid, gid }
}

/// The operation that makes the entry, for entries that are made.
pub open spec fn type_step(p: Seq<u8>, f: FileState) -> Option<StepView> {
    match f.ty {
        TypeView::Directory => Some(
            StepView::Call(CallView::mkdir { path: p, security: unix(f.uid->0, f.gid->0), mode: f.mode->0 }),
        ),
        TypeView::New(flags) => Some(
            StepView::Call(
                CallView::create { path: p, flags, security: unix(f.uid->0, f.gid->0), mode: f.mode->0 },
            ),
        ),
        TypeView::Special(rdev) => Some(
            StepView::Call(
                CallView::mknod { path: p, mode: f.mode->0, rdev, security: unix(f.uid->0, f.gid->0) },
            ),
        ),
        TypeView::Symlink(from) => Some(
            StepView::Call(CallView::symlink { from, to: p, security: unix(f.uid->0, f.gid->0) }),
        ),
        TypeView::Hardlink(from) => Some(
            StepView::Call(CallView::link { from, to: p, security: unix(f.uid->0, f.gid->0) }),
        ),
        TypeView::Moved(from) => Some(StepView::Call(CallView::rename { from, to: p, flags: 0 })),
        _ => None,
    }
}

pub open spec fn xattr_step(p: Seq<u8>, e: (Seq<u8>, Option<Seq<u8>>)) -> StepView {
    match e.1 {
        Some(v) => StepView::Call(
            CallView::setxattr { path: p, name: e.0.drop_last(), value: v, flags: 0 },
        ),
        None => StepView::Call(CallView::removexattr { path: p, name: e.0.drop_last() }),
    }
}

/// The attribute steps, in order: owner, mode, size, times, extended
/// attributes.
#[verifier::opaque]
pub open spec fn attr_steps(p: Seq<u8>, f: FileState) -> Seq<StepView> {
    let owner = !takes_owner(f.ty) && f.uid is Some && f.gid is Some;
    let mode = !takes_mode(f.ty) && f.mode is Some;
    (if owner {
        seq![StepView::Call(CallView::security { path: p, security: unix(f.uid->0, f.gid->0) })]
    } else {
        Seq::empty()
    }) + (if mode {
        seq![StepView::Call(CallView::chmod { path: p, mode: f.mode->0 })]
    } else {
        Seq::empty()
    }) + (match f.size {
        FileSize::Exactly(t) => seq![StepView::Call(CallView::truncate { path: p, size: t as i64 })],
        FileSize::MoreThan(t) => seq![
            StepView::Call(CallView::fallocate { path: p, mode: 0, offset: 0, length: t as i64 }),
        ],
        FileSize::Unknown => Seq::empty(),
    }) + (match f.time {
        Some(t) => seq![StepView::Call(CallView::utimens { path: p, timespec: t })],
        None => Seq::empty(),
    }) + (match f.xattrs {
        Some(x) => x.map_values(|e: (Seq<u8>, Option<Seq<u8>>)| xattr_step(p, e)),
        None => Seq::empty(),
    })
}

#[verifier::opaque]
pub open spec fn data_steps(p: Seq<u8>, f: FileState) -> Seq<StepView> {
    match f.data {
        Some(d) => d.map_values(
            |e: (u64, Block)|
                StepView::Data { path: p, offset: e.0 as i64, location: e.1.location, size: e.1.size },
        ),
        None => Seq::empty(),
    }
}

/// The steps for one entry: the operation that makes it, its data, then its
/// attributes. An opened entry has no such operation and gives its first
/// attribute step before its data.
pub open spec fn file_steps(p: Seq<u8>, f: FileState) -> Seq<StepView> {
    match type_step(p, f) {
        Some(t) => seq![t] + data_steps(p, f) + attr_steps(p, f),
        None => {
            let a = attr_steps(p, f);
            if a.len() > 0 {
                seq![a[0]] + data_steps(p, f) + a.drop_first()
            } else {
                Seq::empty()
            }
        },
    }
}

pub open spec fn all_steps(files: Seq<(Seq<u8>, FileState)>) -> Seq<StepView>
    decreases files.len(),
{
    if files.len() == 0 {
        Seq::empty()
    } else {
        all_steps(files.drop_last()) + file_steps(files.last().0, files.last().1)
    }
}

/// An entry recorded as moved here from `from` is applied first of all by a
/// rename whose source is `from` and whose target is the entry's path.
pub proof fn lemma_moved_entry_renames(p: Seq<u8>, f: FileState, from: Seq<u8>)
    requires
        f.ty == TypeView::Moved(from),
    ensures
        file_steps(p, f).len() > 0,
        file_steps(p, f)[0] == StepView::Call(CallView::rename { from, to: p, flags: 0 }),
{
}

/// A recorded move is replayed as that move: merging a rename of `a` to `b`
/// into a snapshot that has no entry for either adds, after the steps the
/// snapshot already gave, exactly one step, a rename of `a` (the source) to
/// `b` (the target).
pub proof fn lemma_rename_replays(s: SnapView, a: Seq<u8>, b: Seq<u8>, flags: u32)
    requires
        absent(s.files, a),
        absent(s.files, b),
    ensures
        all_steps(spec_merge(s, CallView::rename { from: a, to: b, flags }).0.files) == all_steps(s.files)
            + seq![StepView::Call(CallView::rename { from: a, to: b, flags: 0 })],
{
    reveal(spec_merge);
    reveal(attr_steps);
    reveal(data_steps);
    let moved = blank(TypeView::Moved(a), Some(Seq::empty()));
    let files2 = spec_merge(s, CallView::rename { from: a, to: b, flags }).0.files;
    assert(drop_key(s.files, a) == s.files);
    assert(files2 == s.files.push((b, moved)));
    assert(files2.drop_last() =~= s.files);
    assert(data_steps(b, moved) =~= Seq::<StepView>::empty());
    assert(attr_steps(b, moved) =~= Seq::<StepView>::empty());
    assert(file_steps(b, moved) =~= seq![StepView::Call(CallView::rename { from: a, to: b, flags: 0 })]);
}

/// An extended attribute name as stored for applying: bytes ending in the
/// only zero byte.
pub open spec fn c_name(n: Seq<u8>) -> bool {
    &&& n.len() > 0
    &&& n.last() == 0
    &&& forall|i: int| 0 <= i < n.len() - 1 ==> n[i] != 0
}

/// An entry can be turned into operations: it has a kind, the kinds that are
/// made carry the owner (and mode) they are made with, an opened entry with
/// data has an attribute to give first, and attribute names are C strings.
pub open spec fn appliable(f: FileState) -> bool {
    &&& !(f.ty is Invalid)
    &&& takes_owner(f.ty) ==> f.uid is Some && f.gid is Some
    &&& takes_mode(f.ty) ==> f.mode is Some
    &&& (f.ty is Opened && attr_steps(Seq::empty(), f).len() == 0) ==> data_steps(Seq::empty(), f).len() == 0
    &&& f.xattrs matches Some(x) ==> forall|i: int| 0 <= i < x.len() ==> c_name(#[trigger] x[i].0)
}

/// Steps still to come, first at the end.
pub struct SnapshotApply {
    rest: Vec<ApplyStep>,
}

impl SnapshotApply {
    pub closed spec fn remaining(&self) -> Seq<StepView> {
        step_list(self.rest@).reverse()
    }

    /// The next step, if any.
    pub fn next(&mut self) -> (r: Option<ApplyStep>)
        ensures
            old(self).remaining().len() == 0 ==> r is None && final(self).remaining().len() == 0,
            old(self).remaining().len() > 0 ==> r is Some && r->0@ == old(self).remaining()[0]
                && final(self).remaining() == old(self).remaining().drop_first(),
    {
        let ghost before = self.rest@;
        let r = self.rest.pop();
        proof {
            if before.len() > 0 {
                assert(step_list(self.rest@) =~= step_list(before).drop_last());
                assert(step_list(self.rest@).reverse() =~= step_list(before).reverse().drop_first());
            } else {
                assert(step_list(self.rest@).reverse() =~= Seq::empty());
            }
        }
        r
    }
}

fn append_steps(v: &mut Vec<ApplyStep>, more: Vec<ApplyStep>)
    ensures
        step_list(final(v)@) == step_list(old(v)@) + step_list(more@),
{
    let mut more = more;
    let ghost a = v@;
    let ghost b = more@;
    v.append(&mut more);
    assert(step_list(v@) =~= step_list(a) + step_list(b));
}

fn push_step(v: &mut Vec<ApplyStep>, s: ApplyStep)
    ensures
        step_list(final(v)@) == step_list(old(v)@).push(s@),
{
    let ghost a = v@;
    v.push(s);
    assert(step_list(v@) =~= step_list(a).push(s@));
}

fn unix_sec(uid: u32, gid: u32) -> (r: FileSecurity)
    ensures
        r@ == unix(uid, gid),
{
    FileSecurity::Unix { uid, gid }
}

/// A C string without its final zero byte.
fn c_name_bytes(n: &Vec<u8>) -> (r: Vec<u8>)
    requires
        n@.len() > 0,
    ensures
        r@ == n@.drop_last(),
{
    let mut r: Vec<u8> = Vec::new();
    let mut i: usize = 0;
    while i < n.len() - 1
        invariant
            0 <= i < n@.len(),
            r@ == n@.subrange(0, i as int),
        decreases n@.len() - i,
    {
        r.push(n[i]);
        i += 1;
    }
    assert(r@ =~= n@.drop_last());
    r
}

fn type_call(p: &Vec<u8>, f: &File) -> (r: Option<ApplyStep>)
    requires
        appliable(f@),
    ensures
        match r {
            Some(s) => type_step(p@, f@) == Some(s@),
            None => type_step(p@, f@) is None,
        },
{
    match &f.ty {
        FileType::Directory => Some(
            ApplyStep::Call(
                VFSCall::mkdir {
                    path: copy_bytes(p),
                    security: unix_sec(f.uid.unwrap(), f.gid.unwrap()),
                    mode: f.mode.unwrap(),
                },
            ),
        ),
        FileType::New(flags) => Some(
            ApplyStep::Call(
                VFSCall::create {
                    path: copy_bytes(p),
                    flags: *flags,
                    security: unix_sec(f.uid.unwrap(), f.gid.unwrap()),
                    mode: f.mode.unwrap(),
                },
            ),
        ),
        FileType::Special(rdev) => Some(
            ApplyStep::Call(
                VFSCall::mknod {
                    path: copy_bytes(p),
                    mode: f.mode.unwrap(),
                    rdev: *rdev,
                    security: unix_sec(f.uid.unwrap(), f.gid.unwrap()),
                },
            ),
        ),
        FileType::Symlink(from) => Some(
            ApplyStep::Call(
                VFSCall::symlink {
                    from: copy_bytes(from),
                    to: copy_bytes(p),
                    security: unix_sec(f.uid.unwrap(), f.gid.unwrap()),
                },
            ),
        ),
        FileType::Hardlink(from) => Some(
            ApplyStep::Call(
                VFSCall::link {
                    from: copy_bytes(from),
                    to: copy_bytes(p),
                    security: unix_sec(f.uid.unwrap(), f.gid.unwrap()),
                },
            ),
        ),
        FileType::Moved(from) => Some(
            ApplyStep::Call(VFSCall::rename { from: copy_bytes(from), to: copy_bytes(p), flags: 0 }),
        ),
        _ => None,
    }
}

fn xattr_calls(p: &Vec<u8>, x: &Vec<(Vec<u8>, Option<Vec<u8>>)>) -> (r: Vec<ApplyStep>)
    requires
        forall|i: int| 0 <= i < x@.len() ==> c_name(#[trigger] xattr_list(x@)[i].0),
    ensures
        step_list(r@) == xattr_list(x@).map_values(
            |e: (Seq<u8>, Option<Seq<u8>>)| xattr_step(p@, e),
        ),
{
    let ghost xs = xattr_list(x@);
    let ghost target = xs.map_values(|e: (Seq<u8>, Option<Seq<u8>>)| xattr_step(p@, e));
    let mut r: Vec<ApplyStep> = Vec::new();
    let mut i: usize = 0;
    while i < x.len()
        invariant
            0 <= i <= x@.len(),
            xs == xattr_list(x@),
            target == xs.map_values(|e: (Seq<u8>, Option<Seq<u8>>)| xattr_step(p@, e)),
            forall|k: int| 0 <= k < x@.len() ==> c_name(#[trigger] xs[k].0),
            step_list(r@) == target.subrange(0, i as int),
        decreases x@.len() - i,
    {
        assert(xs[i as int] == xattr_entry(x@[i as int]));
        assert(c_name(xs[i as int].0));
        let name = c_name_bytes(&x[i].0);
        let step = match &x[i].1 {
            Some(v) => ApplyStep::Call(
                VFSCall::setxattr { path: copy_bytes(p), name, value: copy_bytes(v), flags: 0 },
            ),
            None => ApplyStep::Call(VFSCall::removexattr { path: copy_bytes(p), name }),
        };
        push_step(&mut r, step);
        assert(target.subrange(0, i + 1) =~= target.subrange(0, i as int).push(target[i as int]));
        i += 1;
    }
    assert(target.subrange(0, x@.len() as int) =~= target);
    r
}

proof fn lemma_step_counts(p: Seq<u8>, q: Seq<u8>, f: FileState)
    ensures
        attr_steps(p, f).len() == attr_steps(q, f).len(),
        data_steps(p, f).len() == data_steps(q, f).len(),
{
    reveal(attr_steps);
    reveal(data_steps);
}

fn attr_calls(p: &Vec<u8>, f: &File) -> (r: Vec<ApplyStep>)
    requires
        appliable(f@),
    ensures
        step_list(r@) == attr_steps(p@, f@),
{
    reveal(attr_steps);
    let mut r: Vec<ApplyStep> = Vec::new();
    let ghost e: Seq<StepView> = Seq::empty();
    assert(step_list(r@) =~= e);
    let owner = match &f.ty {
        FileType::Directory | FileType::New(_) | FileType::Special(_) | FileType::Symlink(_)
        | FileType::Hardlink(_) => false,
        _ => f.uid.is_some() && f.gid.is_some(),
    };
    let mode = match &f.ty {
        FileType::Directory | FileType::New(_) | FileType::Special(_) => false,
        _ => f.mode.is_some(),
    };
    if owner {
        push_step(
            &mut r,
            ApplyStep::Call(
                VFSCall::security { path: copy_bytes(p), security: unix_sec(f.uid.unwrap(), f.gid.unwrap()) },
            ),
        );
    }
    let ghost a1 = step_list(r@);
    if mode {
        push_step(&mut r, ApplyStep::Call(VFSCall::chmod { path: copy_bytes(p), mode: f.mode.unwrap() }));
    }
    let ghost a2 = step_list(r@);
    match f.size {
        FileSize::Exactly(t) => push_step(
            &mut r,
            ApplyStep::Call(VFSCall::truncate { path: copy_bytes(p), size: t as i64 }),
        ),
        FileSize::MoreThan(t) => push_step(
            &mut r,
            ApplyStep::Call(VFSCall::fallocate { path: copy_bytes(p), mode: 0, offset: 0, length: t as i64 }),
        ),
        FileSize::Unknown => {},
    }
    let ghost a3 = step_list(r@);
    match &f.time {
        Some(t) => push_step(&mut r, ApplyStep::Call(VFSCall::utimens { path: copy_bytes(p), timespec: *t })),
        None => {},
    }
    let ghost a4 = step_list(r@);
    match &f.xattrs {
        Some(x) => {
            proof {
                let xs = xattr_list(x@);
                assert(f@.xattrs == Some(xs));
                let fv = f@;
                assert(appliable(fv));
                let xx = fv.xattrs->0;
                assert(xx == xs);
                assert(forall|i: int| 0 <= i < xx.len() ==> c_name(#[trigger] xx[i].0));
                assert forall|i: int| 0 <= i < x@.len() implies c_name(#[trigger] xattr_list(x@)[i].0) by {
                    assert(c_name(xx[i].0));
                }
            }
            let xs = xattr_calls(p, x);
            append_steps(&mut r, xs);
        },
        None => {
            assert(step_list(r@) =~= a4 + Seq::empty());
        },
    }
    proof {
        let fv = f@;
        let s1: Seq<StepView> = if !takes_owner(fv.ty) && fv.uid is Some && fv.gid is Some {
            seq![StepView::Call(CallView::security { path: p@, security: unix(fv.uid->0, fv.gid->0) })]
        } else {
            Seq::empty()
        };
        assert(a1 =~= s1);
        assert(step_list(r@) =~= attr_steps(p@, fv));
    }
    r
}

fn data_calls(p: &Vec<u8>, f: &File) -> (r: Vec<ApplyStep>)
    ensures
        step_list(r@) == data_steps(p@, f@),
{
    reveal(data_steps);
    let mut r: Vec<ApplyStep> = Vec::new();
    match &f.data {
        Some(d) => {
            let ghost target = d@.map_values(
                |e: (u64, Block)|
                    StepView::Data { path: p@, offset: e.0 as i64, location: e.1.location, size: e.1.size },
            );
            assert(target == data_steps(p@, f@));
            let mut i: usize = 0;
            while i < d.len()
                invariant
                    0 <= i <= d@.len(),
                    target == d@.map_values(
                        |e: (u64, Block)|
                            StepView::Data { path: p@, offset: e.0 as i64, location: e.1.location, size: e.1.size },
                    ),
                    step_list(r@) == target.subrange(0, i as int),
                decreases d@.len() - i,
            {
                let (k, b) = d[i];
                push_step(
                    &mut r,
                    ApplyStep::Data { path: copy_bytes(p), offset: k as i64, location: b.location, size: b.size },
                );
                assert(target.subrange(0, i + 1) =~= target.subrange(0, i as int).push(target[i as int]));
                i += 1;
            }
            assert(target.subrange(0, d@.len() as int) =~= target);
        },
        None => {
            assert(step_list(r@) =~= Seq::empty());
        },
    }
    r
}

fn file_calls(p: &Vec<u8>, f: &File) -> (r: Vec<ApplyStep>)
    requires
        appliable(f@),
    ensures
        step_list(r@) == file_steps(p@, f@),
{
    let attrs = attr_calls(p, f);
    let data = data_calls(p, f);
    let ghost a = step_list(attrs@);
    let ghost d = step_list(data@);
    match type_call(p, f) {
        Some(t) => {
            let mut r: Vec<ApplyStep> = Vec::new();
            push_step(&mut r, t);
            append_steps(&mut r, data);
            append_steps(&mut r, attrs);
            assert(step_list(r@) =~= seq![t@] + d + a);
            r
        },
        None => {
            if attrs.len() > 0 {
                let mut attrs = attrs;
                let ghost all = attrs@;
                let first = attrs.remove(0);
                let mut r: Vec<ApplyStep> = Vec::new();
                push_step(&mut r, first);
                append_steps(&mut r, data);
                assert(step_list(attrs@) =~= a.drop_first());
                append_steps(&mut r, attrs);
                assert(step_list(r@) =~= seq![a[0]] + d + a.drop_first());
                r
            } else {
                proof {
                    lemma_step_counts(p@, Seq::empty(), f@);
                }
                let r: Vec<ApplyStep> = Vec::new();
                assert(step_list(r@) =~= Seq::empty());
                r
            }
        },
    }
}

/// Every entry of the table can be turned into operations.
pub open spec fn all_appliable(files: Seq<(Seq<u8>, FileState)>) -> bool {
    forall|i: int| 0 <= i < files.len() ==> appliable(#[trigger] files[i].1)
}

impl Snapshot {
    /// The steps that recreate the snapshot's changes, entry by entry in
    /// table order.
    pub fn apply(&self) -> (r: SnapshotApply)
        requires
            self.wf(),
            all_appliable(self@.files),
        ensures
            r.remaining() == all_steps(self@.files),
    {
        let ghost fs = self@.files;
        let mut steps: Vec<ApplyStep> = Vec::new();
        let mut i: usize = 0;
        while i < self.files.len()
            invariant
                0 <= i <= self.files@.len(),
                fs == file_list(self.files@),
                all_appliable(fs),
                step_list(steps@) == all_steps(fs.subrange(0, i as int)),
            decreases self.files@.len() - i,
        {
            assert(fs[i as int] == file_entry(self.files@[i as int]));
            assert(appliable(fs[i as int].1));
            let more = file_calls(&self.files[i].0, &self.files[i].1);
            append_steps(&mut steps, more);
            assert(fs.subrange(0, i + 1).drop_last() =~= fs.subrange(0, i as int));
            i += 1;
        }
        assert(fs.subrange(0, fs.len() as int) =~= fs);
        let ghost forward = steps@;
        let mut rest: Vec<ApplyStep> = Vec::new();
        while steps.len() > 0
            invariant
                step_list(steps@) + step_list(rest@).reverse() == step_list(forward),
            decreases steps@.len(),
        {
            let ghost before_rest = rest@;
            let ghost before_steps = steps@;
            let s = steps.pop().unwrap();
            push_step(&mut rest, s);
            assert(step_list(rest@).reverse() =~= seq![s@] + step_list(before_rest).reverse());
            assert(step_list(before_steps) =~= step_list(steps@).push(s@));
            assert(step_list(steps@) + step_list(rest@).reverse() =~= step_list(before_steps)
                + step_list(before_rest).reverse());
        }
        assert(step_list(steps@) =~= Seq::empty());
        assert(step_list(rest@).reverse() =~= step_list(forward)) by {
            assert(step_list(steps@) + step_list(rest@).reverse() =~= step_list(rest@).reverse());
        };
        SnapshotApply { rest }
    }
}

// ---------------------------------------------------------------------------
// Loading

/// Why a stored snapshot table was refused.
#[derive(Clone, Copy, Debug, PartialEq, Eq)]
pub enum SnapshotError {
    /// A path or attribute name occurs twice, or a data list is out of order
    /// or reaches past the largest offset.
    Malformed,
}

pub open spec fn table_wf(files: Seq<(Seq<u8>, FileState)>) -> bool {
    &&& unique_keys(files)
    &&& forall|i: int| 0 <= i < files.len() ==> file_wf(#[trigger] files[i].1)
}

/// A data list laid out as another, entry for entry, at the same or lower
/// places, is well formed when the other is.
proof fn lemma_lower_layout_wf(d: Seq<(u64, Block)>, d2: Seq<(u64, Block)>)
    requires
        data_wf(d),
        same_layout_lower(d, d2),
    ensures
        data_wf(d2),
{
    assert forall|i: int, k: int| 0 <= i < k < d2.len() implies d2[i].0 < d2[k].0 by {
        assert(d[i].0 < d[k].0);
    }
    assert forall|i: int, k: int| #![trigger d2[i], d2[k]] 0 <= i < k < d2.len() implies d2[i].0
        + d2[i].1.size <= d2[k].0 by {
        assert(d[i].0 + d[i].1.size <= d[k].0);
    }
    assert forall|i: int| 0 <= i < d2.len() implies (#[trigger] d2[i]).1.fits() && d2[i].0
        + d2[i].1.size <= u64::MAX by {
        assert(d[i].1.fits());
    }
}

/// A finalized snapshot reads back when reopened: the header and table that
/// `finalize` leaves are accepted by `open`, which gives back that header
/// and table, and as free space the region from the table's offset on (holes
/// that compaction left before it are not recorded in the file).
pub proof fn lemma_reopen_finalized(s: SnapView)
    requires
        snap_wf(s),
    ensures
        ({
            let (c, o) = spec_compact(s);
            let fin = SnapView { header: Header { ty: c.header.ty, ft_offset: c.free.end }, ..c };
            &&& table_wf(fin.files)
            &&& (SnapView {
                header: fin.header,
                files: fin.files,
                free: FreeView { holes: Seq::empty(), end: fin.header.ft_offset },
            }) == (SnapView { free: FreeView { holes: Seq::empty(), end: fin.free.end }, ..fin })
        }),
{
    lemma_compact_keeps_layout(s);
    let (c, o) = spec_compact(s);
    assert forall|i: int, j: int| 0 <= i < j < c.files.len() implies c.files[i].0 != c.files[j].0 by {
        assert(c.files[i].0 == s.files[i].0);
        assert(c.files[j].0 == s.files[j].0);
    }
    assert forall|i: int| 0 <= i < c.files.len() implies file_wf(#[trigger] c.files[i].1) by {
        assert(file_wf(s.files[i].1));
        assert(c.files[i].0 == s.files[i].0);
        if let Some(d) = s.files[i].1.data {
            lemma_lower_layout_wf(d, c.files[i].1.data->0);
        }
    }
}

fn check_data(d: &Vec<(u64, Block)>) -> (r: bool)
    ensures
        r == data_wf(d@),
{
    let mut i: usize = 0;
    while i < d.len()
        invariant
            0 <= i <= d@.len(),
            forall|k: int| 0 <= k < i ==> (#[trigger] d@[k]).1.fits() && d@[k].0 + d@[k].1.size <= u64::MAX,
            forall|a: int, b: int| 0 <= a < b < i ==> d@[a].0 < d@[b].0,
            forall|a: int, b: int| #![trigger d@[a], d@[b]] 0 <= a < b < i ==> d@[a].0 + d@[a].1.size <= d@[b].0,
        decreases d@.len() - i,
    {
        let (k, b) = d[i];
        if b.location.checked_add(b.size).is_none() || k.checked_add(b.size).is_none() {
            return false;
        }
        if i > 0 && (d[i - 1].0 >= k || d[i - 1].0 + d[i - 1].1.size > k) {
            proof {
                assert(!data_disjoint(d@) || !keys_sorted(d@)) by {
                    assert(d@[i - 1].0 >= d@[i as int].0 || d@[i - 1].0 + d@[i - 1].1.size > d@[i as int].0);
                }
            }
            return false;
        }
        proof {
            assert forall|a: int, c: int| 0 <= a < c < i + 1 implies d@[a].0 < d@[c].0 by {
                if c == i && a < i - 1 {
                    assert(d@[a].0 < d@[i - 1].0);
                }
            }
            assert forall|a: int, c: int| #![trigger d@[a], d@[c]] 0 <= a < c < i + 1 implies d@[a].0
                + d@[a].1.size <= d@[c].0 by {
                if c == i && a < i - 1 {
                    assert(d@[a].0 + d@[a].1.size <= d@[i - 1].0);
                }
            }
        }
        i += 1;
    }
    true
}

fn check_xattrs(x: &Vec<(Vec<u8>, Option<Vec<u8>>)>) -> (r: bool)
    ensures
        r == unique_keys(xattr_list(x@)),
{
    let ghost xs = xattr_list(x@);
    let mut i: usize = 0;
    while i < x.len()
        invariant
            0 <= i <= x@.len(),
            xs == xattr_list(x@),
            forall|a: int, b: int| 0 <= a < b < i ==> xs[a].0 != xs[b].0,
        decreases x@.len() - i,
    {
        let mut j: usize = 0;
        while j < i
            invariant
                0 <= j <= i < x@.len(),
                xs == xattr_list(x@),
                forall|a: int| 0 <= a < j ==> xs[a].0 != xs[i as int].0,
            decreases i - j,
        {
            if bytes_eq(&x[j].0, &x[i].0) {
                assert(xs[j as int] == xattr_entry(x@[j as int]));
                assert(xs[i as int] == xattr_entry(x@[i as int]));
                assert(xs[j as int].0 == xs[i as int].0);
                return false;
            }
            j += 1;
        }
        i += 1;
    }
    true
}

fn check_table(v: &Vec<(Vec<u8>, File)>) -> (r: bool)
    ensures
        r == table_wf(file_list(v@)),
{
    let ghost fs = file_list(v@);
    let mut i: usize = 0;
    while i < v.len()
        invariant
            0 <= i <= v@.len(),
            fs == file_list(v@),
            forall|a: int, b: int| 0 <= a < b < i ==> fs[a].0 != fs[b].0,
            forall|a: int| 0 <= a < i ==> file_wf(#[trigger] fs[a].1),
        decreases v@.len() - i,
    {
        let mut j: usize = 0;
        while j < i
            invariant
                0 <= j <= i < v@.len(),
                fs == file_list(v@),
                forall|a: int| 0 <= a < j ==> fs[a].0 != fs[i as int].0,
            decreases i - j,
        {
            if bytes_eq(&v[j].0, &v[i].0) {
                assert(fs[j as int] == file_entry(v@[j as int]));
                assert(fs[i as int] == file_entry(v@[i as int]));
                assert(fs[j as int].0 == fs[i as int].0);
                return false;
            }
            j += 1;
        }
        assert(fs[i as int] == file_entry(v@[i as int]));
        let f = &v[i].1;
        let data_ok = match &f.data {
            Some(d) => check_data(d),
            None => true,
        };
        let x_ok = match &f.xattrs {
            Some(x) => check_xattrs(x),
            None => true,
        };
        if !data_ok || !x_ok {
            assert(!file_wf(fs[i as int].1));
            return false;
        }
        proof {
            match f.time {
                Some(t) => {
                    assert(t@.len() == 3);
                },
                None => {},
            }
            assert(file_wf(fs[i as int].1));
        }
        i += 1;
    }
    true
}

impl Snapshot {
    /// A snapshot read back from its file: the header and the stored table.
    /// New data goes where the table began.
    pub fn open(header: Header, files: Vec<(Vec<u8>, File)>) -> (r: Result<Snapshot, SnapshotError>)
        ensures
            r is Ok <==> table_wf(file_list(files@)),
            r matches Ok(s) ==> s.wf() && s@ == (SnapView {
                header,
                files: file_list(files@),
                free: FreeView { holes: Seq::empty(), end: header.ft_offset },
            }),
    {
        if !check_table(&files) {
            return Err(SnapshotError::Malformed);
        }
        let s = Snapshot { header, files, free: FreeList::new(header.ft_offset) };
        assert(s.free@.holes =~= Seq::empty());
        Ok(s)
    }
}

fn check_c_name(n: &Vec<u8>) -> (r: bool)
    ensures
        r == c_name(n@),
{
    if n.len() == 0 || n[n.len() - 1] != 0 {
        return false;
    }
    let mut i: usize = 0;
    while i < n.len() - 1
        invariant
            n@.len() > 0,
            0 <= i <= n@.len() - 1,
            forall|j: int| 0 <= j < i ==> n@[j] != 0,
        decreases n@.len() - 1 - i,
    {
        if n[i] == 0 {
            return false;
        }
        i += 1;
    }
    true
}

fn check_appliable(f: &File) -> (r: bool)
    ensures
        r == appliable(f@),
{
    let owner_needed = match &f.ty {
        FileType::Directory | FileType::New(_) | FileType::Special(_) | FileType::Symlink(_)
        | FileType::Hardlink(_) => true,
        _ => false,
    };
    let mode_needed = match &f.ty {
        FileType::Directory | FileType::New(_) | FileType::Special(_) => true,
        _ => false,
    };
    if let FileType::Invalid = &f.ty {
        return false;
    }
    if owner_needed && (f.uid.is_none() || f.gid.is_none()) {
        return false;
    }
    if mode_needed && f.mode.is_none() {
        return false;
    }
    let names_ok = match &f.xattrs {
        Some(x) => {
            let ghost xs = xattr_list(x@);
            let mut i: usize = 0;
            let mut ok = true;
            while i < x.len()
                invariant
                    0 <= i <= x@.len(),
                    xs == xattr_list(x@),
                    ok == (forall|k: int| 0 <= k < i ==> c_name(#[trigger] xs[k].0)),
                decreases x@.len() - i,
            {
                assert(xs[i as int] == xattr_entry(x@[i as int]));
                let c = check_c_name(&x[i].0);
                proof {
                    assert(c == c_name(xs[i as int].0));
                    if ok && c {
                        assert forall|k: int| 0 <= k < i + 1 implies c_name(#[trigger] xs[k].0) by {}
                    }
                    if !c {
                        assert(!c_name(xs[i as int].0));
                    }
                }
                ok = ok && c;
                i += 1;
            }
            ok
        },
        None => true,
    };
    proof {
        if let Some(xx) = f@.xattrs {
            assert(xx == xattr_list(f.xattrs->0@));
        }
    }
    if !names_ok {
        return false;
    }
    if let FileType::Opened = &f.ty {
        let p: Vec<u8> = Vec::new();
        let none = no_attr_steps(&p, f);
        proof {
            lemma_step_counts(p@, Seq::empty(), f@);
        }
        if none {
            let d = match &f.data {
                Some(d) => d.len(),
                None => 0,
            };
            proof {
                reveal(data_steps);
            }
            return d == 0;
        }
    }
    true
}

/// Whether an entry gives no attribute step.
#[verifier::spinoff_prover]
fn no_attr_steps(p: &Vec<u8>, f: &File) -> (r: bool)
    ensures
        r == (attr_steps(p@, f@).len() == 0),
{
    reveal(attr_steps);
    let owner = match &f.ty {
        FileType::Directory | FileType::New(_) | FileType::Special(_) | FileType::Symlink(_)
        | FileType::Hardlink(_) => false,
        _ => f.uid.is_some() && f.gid.is_some(),
    };
    let mode = match &f.ty {
        FileType::Directory | FileType::New(_) | FileType::Special(_) => false,
        _ => f.mode.is_some(),
    };
    let sized = match f.size {
        FileSize::Unknown => false,
        _ => true,
    };
    let x = match &f.xattrs {
        Some(x) => x.len() > 0,
        None => false,
    };
    !owner && !mode && !sized && f.time.is_none() && !x
}

impl Snapshot {
    /// Whether every entry can be turned into operations, as `apply` needs.
    pub fn can_apply(&self) -> (r: bool)
        requires
            self.wf(),
        ensures
            r == all_appliable(self@.files),
    {
        let ghost fs = self@.files;
        let mut i: usize = 0;
        while i < self.files.len()
            invariant
                0 <= i <= self.files@.len(),
                fs == file_list(self.files@),
                forall|k: int| 0 <= k < i ==> appliable(#[trigger] fs[k].1),
            decreases self.files@.len() - i,
        {
            assert(fs[i as int] == file_entry(self.files@[i as int]));
            if !check_appliable(&self.files[i].1) {
                assert(!appliable(fs[i as int].1));
                return false;
            }
            i += 1;
        }
        true
    }
}

} // verus!

//! The on-disk journal: a ring of fixed-size blocks behind a small header.
//!
//! The journal file starts with a header (tail, head, transaction counter),
//! followed by a ring region whose size is a multiple of `BLOCK_SIZE`.
//! Logical offsets grow without bound and are mapped into the ring modulo its
//! size. Every entry is a frame `fsize, trans_id, payload, crc32` that never
//! straddles a block boundary; a block whose remaining space cannot hold the
//! next frame is closed by a zero `fsize` marker (when at least four bytes are
//! left) and writing continues at the next block.
//!
//! This module decides where everything goes and frames and checks the bytes;
//! reading and writing the file itself is done by the caller, which performs
//! the writes that `Journal::write_entry` returns and hands back the bytes that
//! the cursors ask for.
use crate::codec::{
    checksum_ieee, crc32_ieee, lemma_u32_le_roundtrip, lemma_u64_le_roundtrip, read_u32_le, read_u64_le,
    u32_le_bytes, u64_le_bytes,
};
use std::marker::PhantomData;
use vstd::bytes::*;
use vstd::prelude::*;
use vstd::slice::*;

verus! {

/// Size of a journal block; entries never cross a block boundary.
pub const BLOCK_SIZE: u64 = 131072;

/// Size of the encoded journal header.
pub const HEADER_SIZE: u64 = 20;

/// Bytes that a frame adds around its payload: size, transaction id, checksum.
pub const FRAME_OVERHEAD: u64 = 12;

/// Marker for the direction a journal cursor walks in.
pub trait Direction {}

/// Walks the journal from the oldest entry to the newest.
pub struct Forward;

impl Direction for Forward {}

/// Walks the journal from the newest entry to the oldest.
pub struct Reverse;

impl Direction for Reverse {}

/// The persistent header of a journal.
#[derive(Clone, Copy, Debug, PartialEq, Eq, Structural)]
pub struct JournalHeader {
    pub tail: u64,
    pub head: u64,
    pub trans_ctr: u32,
}

/// One write that the caller must perform on the journal file.
#[derive(Debug)]
pub struct FileWrite {
    pub offset: u64,
    pub bytes: Vec<u8>,
}

/// Why a block of the journal could not be decoded completely.
#[derive(Clone, Copy, Debug, PartialEq, Eq)]
pub enum BlockError {
    /// A frame claims to extend past the end of its block.
    EntryTooLarge,
    /// The recorded checksum of a frame does not match its contents.
    ChecksumMismatch,
    /// A frame is too short to hold its own header, or ends past the tail.
    Malformed,
}

/// The transaction counter after `x`; it wraps around at `u32::MAX`.
pub open spec fn next_trans_id(x: u32) -> u32 {
    if x == u32::MAX {
        0
    } else {
        (x + 1) as u32
    }
}

/// The transaction counter before `x`; it wraps around at zero.
pub open spec fn prev_trans_id(x: u32) -> u32 {
    if x == 0 {
        u32::MAX
    } else {
        (x - 1) as u32
    }
}

pub open spec fn spec_align_up_always(off: int, align: int) -> int {
    (off / align + 1) * align
}

/// Start of the block after the one that holds logical offset `off`.
pub open spec fn block_end(off: int) -> int {
    spec_align_up_always(off, BLOCK_SIZE as int)
}

/// Start of the block that holds logical offset `off`.
pub open spec fn block_start(off: int) -> int {
    off - off % (BLOCK_SIZE as int)
}

/// Position in the journal file of logical offset `off`.
pub open spec fn spec_file_off(size: int, off: int) -> int {
    HEADER_SIZE + off % size
}

/// Rounds `off` up to the next multiple of `align`, moving even when it is
/// already a multiple.
pub fn align_up_always(off: u64, align: u64) -> (r: u64)
    requires
        align > 0,
        spec_align_up_always(off as int, align as int) <= u64::MAX,
    ensures
        r == spec_align_up_always(off as int, align as int),
{
    let q = off / align;
    proof {
        assert((q + 1) * align >= q + 1) by (nonlinear_arith)
            requires
                align > 0,
        ;
    }
    (q + 1) * align
}

/// Rounds `off` down by clearing the bits below `align`.
pub fn align_down(off: u64, align: u64) -> (r: u64)
    requires
        align > 0,
    ensures
        r == off & !((align - 1) as u64),
{
    off & !(align - 1)
}

/// With the block size, clearing the low bits is rounding down to a block.
pub proof fn lemma_align_down_block(off: u64)
    ensures
        off & !((BLOCK_SIZE - 1) as u64) == block_start(off as int),
{
    assert(off & !(131071u64) == off - off % 131072) by (bit_vector);
}

/// Rounding up always lands on a block boundary strictly past `off`.
pub proof fn lemma_block_end(off: int)
    requires
        off >= 0,
    ensures
        block_end(off) % (BLOCK_SIZE as int) == 0,
        off < block_end(off) <= off + BLOCK_SIZE,
        block_end(off) == block_start(off) + BLOCK_SIZE,
{
    assert(block_end(off) == (off / 131072 + 1) * 131072);
}

pub open spec fn spec_encode_header(h: JournalHeader) -> Seq<u8> {
    spec_u64_to_le_bytes(h.tail) + spec_u64_to_le_bytes(h.head) + spec_u32_to_le_bytes(
        h.trans_ctr,
    )
}

/// Encodes a header as it is stored at the start of the journal file.
pub fn encode_header(h: &JournalHeader) -> (r: Vec<u8>)
    ensures
        r@ == spec_encode_header(*h),
        r@.len() == HEADER_SIZE,
{
    let mut v = u64_le_bytes(h.tail);
    let mut head = u64_le_bytes(h.head);
    v.append(&mut head);
    let mut ctr = u32_le_bytes(h.trans_ctr);
    v.append(&mut ctr);
    v
}

/// Decodes the header at the start of `bytes`; `None` when there are fewer
/// bytes than a header takes.
pub fn decode_header(bytes: &[u8]) -> (r: Option<JournalHeader>)
    ensures
        r is Some <==> bytes@.len() >= HEADER_SIZE,
        r is Some ==> r->0.tail == spec_u64_from_le_bytes(bytes@.subrange(0, 8)) && r->0.head
            == spec_u64_from_le_bytes(bytes@.subrange(8, 16)) && r->0.trans_ctr
            == spec_u32_from_le_bytes(bytes@.subrange(16, 20)),
{
    if bytes.len() < 20 {
        return None;
    }
    let tail = read_u64_le(slice_subrange(bytes, 0, 8));
    let head = read_u64_le(slice_subrange(bytes, 8, 16));
    let trans_ctr = read_u32_le(slice_subrange(bytes, 16, 20));
    proof {
        assert(bytes@.subrange(0, 8).subrange(0, 8) =~= bytes@.subrange(0, 8));
        assert(bytes@.subrange(8, 16).subrange(0, 8) =~= bytes@.subrange(8, 16));
        assert(bytes@.subrange(16, 20).subrange(0, 4) =~= bytes@.subrange(16, 20));
    }
    Some(JournalHeader { tail, head, trans_ctr })
}

/// A header reads back as it was written.
pub proof fn lemma_header_roundtrip(h: JournalHeader)
    ensures
        spec_encode_header(h).len() == HEADER_SIZE,
        spec_u64_from_le_bytes(spec_encode_header(h).subrange(0, 8)) == h.tail,
        spec_u64_from_le_bytes(spec_encode_header(h).subrange(8, 16)) == h.head,
        spec_u32_from_le_bytes(spec_encode_header(h).subrange(16, 20)) == h.trans_ctr,
{
    lemma_u64_le_roundtrip(h.tail);
    lemma_u64_le_roundtrip(h.head);
    lemma_u32_le_roundtrip(h.trans_ctr);
    let e = spec_encode_header(h);
    assert(e.subrange(0, 8) =~= spec_u64_to_le_bytes(h.tail));
    assert(e.subrange(8, 16) =~= spec_u64_to_le_bytes(h.head));
    assert(e.subrange(16, 20) =~= spec_u32_to_le_bytes(h.trans_ctr));
}

/// The bytes of a frame before its checksum.
pub open spec fn frame_prefix(trans_id: u32, payload: Seq<u8>) -> Seq<u8> {
    spec_u32_to_le_bytes((payload.len() + FRAME_OVERHEAD) as u32) + spec_u32_to_le_bytes(trans_id)
        + payload
}

/// A complete frame: size, transaction id, payload, and the CRC-32 of all that
/// precedes the checksum.
pub open spec fn spec_encode_frame(trans_id: u32, payload: Seq<u8>) -> Seq<u8> {
    frame_prefix(trans_id, payload) + spec_u32_to_le_bytes(
        crc32_ieee(frame_prefix(trans_id, payload)),
    )
}

/// Frames a payload for the journal.
pub fn encode_frame(trans_id: u32, payload: &[u8]) -> (r: Vec<u8>)
    requires
        payload@.len() + FRAME_OVERHEAD <= u32::MAX,
    ensures
        r@ == spec_encode_frame(trans_id, payload@),
        r@.len() == payload@.len() + FRAME_OVERHEAD,
{
    let esize = (payload.len() as u64 + 12) as u32;
    let mut v = u32_le_bytes(esize);
    let mut tid = u32_le_bytes(trans_id);
    v.append(&mut tid);
    let mut i: usize = 0;
    while i < payload.len()
        invariant
            0 <= i <= payload@.len(),
            v@ == spec_u32_to_le_bytes(esize) + spec_u32_to_le_bytes(trans_id) + payload@.subrange(
                0,
                i as int,
            ),
        decreases payload@.len() - i,
    {
        v.push(payload[i]);
        i += 1;
        proof {
            assert(payload@.subrange(0, i as int) =~= payload@.subrange(0, i - 1).push(
                payload@[i - 1],
            ));
        }
    }
    proof {
        assert(payload@.subrange(0, payload@.len() as int) =~= payload@);
        assert(v@ =~= frame_prefix(trans_id, payload@));
    }
    let crc = checksum_ieee(v.as_slice());
    let mut c = u32_le_bytes(crc);
    v.append(&mut c);
    v
}

/// Copies `s[from..to]` into a new vector.
fn copy_range(s: &[u8], from: usize, to: usize) -> (r: Vec<u8>)
    requires
        from <= to <= s@.len(),
    ensures
        r@ == s@.subrange(from as int, to as int),
{
    slice_to_vec(slice_subrange(s, from, to))
}

/// The frame size recorded at `pos` in a block.
pub open spec fn frame_size_at(block: Seq<u8>, pos: int) -> int {
    spec_u32_from_le_bytes(block.subrange(pos, pos + 4)) as int
}

/// What decoding a block from `pos` yields: the payloads of the frames found
/// before the block's entries end, and the reason decoding stopped early, if it
/// did. `end` is the offset in the block where the journal's tail lies (the
/// block size when the tail is at the block's end). Decoding stops at the tail,
/// at a zero size marker, or at the first frame that is not intact.
pub open spec fn spec_decode_block(block: Seq<u8>, pos: int, end: int) -> (
    Seq<Seq<u8>>,
    Option<BlockError>,
)
    decreases BLOCK_SIZE - pos,
{
    if end < pos {
        (seq![], Some(BlockError::Malformed))
    } else if end - pos < 4 {
        (seq![], None)
    } else if pos < 0 || BLOCK_SIZE < pos + 4 || block.len() < BLOCK_SIZE {
        (seq![], Some(BlockError::Malformed))
    } else {
        let fsize = frame_size_at(block, pos);
        if fsize == 0 {
            (seq![], None)
        } else if fsize > BLOCK_SIZE - pos {
            (seq![], Some(BlockError::EntryTooLarge))
        } else if fsize < 4 {
            (seq![], Some(BlockError::Malformed))
        } else {
            let frame = block.subrange(pos, pos + fsize);
            if spec_u32_from_le_bytes(frame.subrange(fsize - 4, fsize)) != crc32_ieee(
                frame.subrange(0, fsize - 4),
            ) {
                (seq![], Some(BlockError::ChecksumMismatch))
            } else if fsize < FRAME_OVERHEAD {
                (seq![], Some(BlockError::Malformed))
            } else {
                let rest = spec_decode_block(block, pos + fsize, end);
                (seq![frame.subrange(8, fsize - 4)] + rest.0, rest.1)
            }
        }
    }
}

pub open spec fn byte_views(v: Seq<Vec<u8>>) -> Seq<Seq<u8>> {
    v.map_values(|x: Vec<u8>| x@)
}

/// Decodes the frames of one block, from its start up to the journal's tail
/// position `end` within it.
pub fn decode_block(block: &[u8], end: u64) -> (r: (Vec<Vec<u8>>, Option<BlockError>))
    requires
        block@.len() == BLOCK_SIZE,
        end <= BLOCK_SIZE,
    ensures
        byte_views(r.0@) == spec_decode_block(block@, 0, end as int).0,
        r.1 == spec_decode_block(block@, 0, end as int).1,
{
    let mut out: Vec<Vec<u8>> = Vec::new();
    let mut pos: u64 = 0;
    loop
        invariant
            pos <= BLOCK_SIZE,
            block@.len() == BLOCK_SIZE,
            end <= BLOCK_SIZE,
            byte_views(out@) + spec_decode_block(block@, pos as int, end as int).0
                == spec_decode_block(block@, 0, end as int).0,
            spec_decode_block(block@, pos as int, end as int).1 == spec_decode_block(
                block@,
                0,
                end as int,
            ).1,
        decreases BLOCK_SIZE - pos,
    {
        let ghost cur = spec_decode_block(block@, pos as int, end as int);
        if end < pos {
            assert(byte_views(out@) + cur.0 =~= byte_views(out@));
            return (out, Some(BlockError::Malformed));
        }
        if end - pos < 4 {
            assert(byte_views(out@) + cur.0 =~= byte_views(out@));
            return (out, None);
        }
        let p = pos as usize;
        let fsize = read_u32_le(slice_subrange(block, p, p + 4)) as u64;
        proof {
            assert(block@.subrange(p as int, p + 4).subrange(0, 4) =~= block@.subrange(
                p as int,
                p + 4,
            ));
            assert(fsize == frame_size_at(block@, pos as int));
        }
        if fsize == 0 {
            assert(byte_views(out@) + cur.0 =~= byte_views(out@));
            return (out, None);
        }
        if fsize > BLOCK_SIZE - pos {
            assert(byte_views(out@) + cur.0 =~= byte_views(out@));
            return (out, Some(BlockError::EntryTooLarge));
        }
        if fsize < 4 {
            assert(byte_views(out@) + cur.0 =~= byte_views(out@));
            return (out, Some(BlockError::Malformed));
        }
        let f = fsize as usize;
        let recorded = read_u32_le(slice_subrange(block, p + f - 4, p + f));
        let computed = checksum_ieee(slice_subrange(block, p, p + f - 4));
        proof {
            let frame = block@.subrange(pos as int, pos + fsize);
            assert(block@.subrange(p + f - 4, p + f as int).subrange(0, 4) =~= frame.subrange(
                fsize - 4,
                fsize as int,
            ));
            assert(block@.subrange(p as int, p + f - 4) =~= frame.subrange(0, fsize - 4));
        }
        if recorded != computed {
            assert(byte_views(out@) + cur.0 =~= byte_views(out@));
            return (out, Some(BlockError::ChecksumMismatch));
        }
        if fsize < 12 {
            assert(byte_views(out@) + cur.0 =~= byte_views(out@));
            return (out, Some(BlockError::Malformed));
        }
        let payload = copy_range(block, p + 8, p + f - 4);
        proof {
            let frame = block@.subrange(pos as int, pos + fsize);
            assert(payload@ =~= frame.subrange(8, fsize - 4));
        }
        let ghost old_out = out@;
        out.push(payload);
        proof {
            assert(byte_views(out@) =~= byte_views(old_out).push(payload@));
            let rest = spec_decode_block(block@, pos + fsize, end as int);
            assert(cur.0 =~= seq![payload@] + rest.0);
            assert(byte_views(out@) + rest.0 =~= byte_views(old_out) + cur.0);
        }
        pos = pos + fsize;
    }
}

/// The size of a journal's ring region: a whole number of blocks that fits
/// after the header in a file.
#[derive(Clone, Copy)]
struct Ring {
    size: u64,
}

impl Ring {
    #[verifier::type_invariant]
    spec fn well_formed(&self) -> bool {
        &&& self.size % BLOCK_SIZE == 0
        &&& self.size + HEADER_SIZE <= u64::MAX
    }

    fn of_file(file_len: u64) -> (r: Ring)
        requires
            file_len >= HEADER_SIZE,
        ensures
            r.size == ring_size(file_len as int),
    {
        let size = align_down(file_len - HEADER_SIZE, BLOCK_SIZE);
        proof {
            lemma_align_down_block((file_len - HEADER_SIZE) as u64);
        }
        Ring { size }
    }

    fn file_off(&self, off: u64) -> (r: u64)
        requires
            self.size > 0,
        ensures
            r == spec_file_off(self.size as int, off as int),
    {
        proof {
            use_type_invariant(self);
        }
        HEADER_SIZE + off % self.size
    }
}

/// The journal's bookkeeping: its header and the size of its ring region.
pub struct Journal {
    header: JournalHeader,
    ring: Ring,
    sync: bool,
}

/// Size of the ring region of a journal file of `file_len` bytes.
pub open spec fn ring_size(file_len: int) -> int {
    block_start(file_len - HEADER_SIZE)
}

/// Whether a frame of `esize` bytes no longer fits in the block of the tail.
pub open spec fn needs_new_block(h: JournalHeader, esize: int) -> bool {
    block_end(h.tail as int) - h.tail < esize
}

/// The header once the tail has moved to the next block; when the journal is
/// full the head gives up its oldest block.
pub open spec fn header_after_realign(h: JournalHeader, size: int) -> JournalHeader {
    let t = block_end(h.tail as int);
    JournalHeader {
        tail: t as u64,
        head: if h.head + size == t {
            (h.head + BLOCK_SIZE) as u64
        } else {
            h.head
        },
        trans_ctr: h.trans_ctr,
    }
}

/// The header in force when the entry is written.
pub open spec fn header_before_entry(h: JournalHeader, size: int, esize: int) -> JournalHeader {
    if needs_new_block(h, esize) {
        header_after_realign(h, size)
    } else {
        h
    }
}

/// The header after appending a payload of `len` bytes.
pub open spec fn header_after_append(h: JournalHeader, size: int, len: int) -> JournalHeader {
    let h1 = header_before_entry(h, size, len + FRAME_OVERHEAD);
    JournalHeader {
        tail: (h1.tail + len + FRAME_OVERHEAD) as u64,
        head: h1.head,
        trans_ctr: next_trans_id(h.trans_ctr),
    }
}

/// The writes that appending `payload` performs, in order: a zero marker
/// closing the tail's block (when the frame does not fit and four bytes are
/// left), the header (when the tail moves to a new block), and the frame.
pub open spec fn append_writes(h: JournalHeader, size: int, payload: Seq<u8>) -> Seq<
    (int, Seq<u8>),
> {
    let esize = payload.len() + FRAME_OVERHEAD;
    let space = block_end(h.tail as int) - h.tail;
    let h1 = header_before_entry(h, size, esize);
    let pre: Seq<(int, Seq<u8>)> = if needs_new_block(h, esize) {
        let marker: Seq<(int, Seq<u8>)> = if space >= 4 {
            seq![(spec_file_off(size, h.tail as int), spec_u32_to_le_bytes(0))]
        } else {
            seq![]
        };
        marker.push((0, spec_encode_header(h1)))
    } else {
        seq![]
    };
    pre.push((spec_file_off(size, h1.tail as int), spec_encode_frame(h.trans_ctr, payload)))
}

pub open spec fn writes_view(ws: Seq<FileWrite>) -> Seq<(int, Seq<u8>)> {
    ws.map_values(|w: FileWrite| (w.offset as int, w.bytes@))
}

impl Journal {
    pub closed spec fn spec_header(&self) -> JournalHeader {
        self.header
    }

    pub closed spec fn spec_size(&self) -> u64 {
        self.ring.size
    }

    pub closed spec fn spec_sync(&self) -> bool {
        self.sync
    }

    /// A fresh journal over a file of `file_len` bytes: empty, with its ring
    /// region the largest whole number of blocks after the header.
    pub fn new(file_len: u64, sync: bool) -> (j: Journal)
        requires
            file_len >= HEADER_SIZE,
        ensures
            j.spec_header() == (JournalHeader { tail: 0, head: 0, trans_ctr: 0 }),
            j.spec_size() == ring_size(file_len as int),
            j.spec_sync() == sync,
    {
        Journal {
            header: JournalHeader { tail: 0, head: 0, trans_ctr: 0 },
            ring: Ring::of_file(file_len),
            sync,
        }
    }

    /// Starts recovering a journal whose stored header is `header`: the tail
    /// recorded there may lag behind entries written after it was stored.
    pub fn open(header: JournalHeader, file_len: u64, sync: bool) -> (scan: RecoveryScan)
        requires
            file_len >= HEADER_SIZE,
        ensures
            scan.spec_journal().spec_header() == header,
            scan.spec_journal().spec_size() == ring_size(file_len as int),
            scan.spec_journal().spec_sync() == sync,
            scan.spec_tx_max() == prev_trans_id(header.trans_ctr),
            scan.spec_new_tail() == header.tail,
    {
        let ring = Ring::of_file(file_len);
        let tx_max = if header.trans_ctr == 0 {
            u32::MAX
        } else {
            header.trans_ctr - 1
        };
        RecoveryScan { journal: Journal { header, ring, sync }, tx_max, new_tail: header.tail }
    }

    pub fn header(&self) -> (h: JournalHeader)
        ensures
            h == self.spec_header(),
    {
        self.header
    }

    pub fn size(&self) -> (s: u64)
        ensures
            s == self.spec_size(),
    {
        self.ring.size
    }

    /// Whether every append is to be followed by a flush of the file.
    pub fn sync(&self) -> (s: bool)
        ensures
            s == self.spec_sync(),
    {
        self.sync
    }

    /// Position in the file of logical offset `off`.
    pub fn file_off(&self, off: u64) -> (r: u64)
        requires
            self.spec_size() > 0,
        ensures
            r == spec_file_off(self.spec_size() as int, off as int),
    {
        self.ring.file_off(off)
    }

    /// The write that stores the current header.
    pub fn write_header(&self) -> (w: FileWrite)
        ensures
            w.offset == 0,
            w.bytes@ == spec_encode_header(self.spec_header()),
    {
        FileWrite { offset: 0, bytes: encode_header(&self.header) }
    }

    /// Appends a payload: frames it with the next transaction id, places the
    /// frame at the tail (moving the tail to the next block when it does not
    /// fit, and the head along when the ring is full), and returns the writes
    /// that carry this out, in the order they must be performed.
    pub fn write_entry(&mut self, payload: &[u8]) -> (writes: Vec<FileWrite>)
        requires
            old(self).spec_size() > 0,
            payload@.len() + FRAME_OVERHEAD < BLOCK_SIZE,
            old(self).spec_header().tail + 2 * BLOCK_SIZE <= u64::MAX,
            old(self).spec_header().head + old(self).spec_size() + BLOCK_SIZE <= u64::MAX,
        ensures
            final(self).spec_size() == old(self).spec_size(),
            final(self).spec_sync() == old(self).spec_sync(),
            final(self).spec_header() == header_after_append(
                old(self).spec_header(),
                old(self).spec_size() as int,
                payload@.len() as int,
            ),
            writes_view(writes@) == append_writes(
                old(self).spec_header(),
                old(self).spec_size() as int,
                payload@,
            ),
    {
        let ghost h0 = self.header;
        let ghost size = self.ring.size as int;
        let esize = payload.len() as u64 + FRAME_OVERHEAD;
        let mut writes: Vec<FileWrite> = Vec::new();
        proof {
            lemma_block_end(self.header.tail as int);
        }
        let end = align_up_always(self.header.tail, BLOCK_SIZE);
        let space_in_block = end - self.header.tail;
        if space_in_block < esize {
            if space_in_block >= 4 {
                let off = self.file_off(self.header.tail);
                writes.push(FileWrite { offset: off, bytes: u32_le_bytes(0) });
            }
            self.header.tail = end;
            if self.header.head + self.ring.size == self.header.tail {
                self.header.head = self.header.head + BLOCK_SIZE;
            }
            let hw = self.write_header();
            writes.push(hw);
        }
        let frame = encode_frame(self.header.trans_ctr, payload);
        let off = self.file_off(self.header.tail);
        writes.push(FileWrite { offset: off, bytes: frame });
        self.header.tail = self.header.tail + esize;
        self.header.trans_ctr = if self.header.trans_ctr == u32::MAX {
            0
        } else {
            self.header.trans_ctr + 1
        };
        proof {
            let pre = if needs_new_block(h0, esize as int) {
                let marker: Seq<(int, Seq<u8>)> = if block_end(h0.tail as int) - h0.tail >= 4 {
                    seq![(spec_file_off(size, h0.tail as int), spec_u32_to_le_bytes(0))]
                } else {
                    seq![]
                };
                marker.push((0, spec_encode_header(header_before_entry(h0, size, esize as int))))
            } else {
                seq![]
            };
            assert(writes_view(writes@) =~= append_writes(h0, size, payload@));
        }
        writes
    }

    /// A cursor from the oldest entry to the newest.
    pub fn read_forward(&self) -> (it: JournalIterator<Forward>)
        ensures
            it.spec_header() == self.spec_header(),
            it.spec_size() == self.spec_size(),
            it.spec_buffer().len() == 0,
    {
        JournalIterator {
            direction: PhantomData,
            header: self.header,
            ring: self.ring,
            block_buffer: Vec::new(),
        }
    }

    /// A cursor from the newest entry to the oldest.
    pub fn read_reverse(&self) -> (it: JournalIterator<Reverse>)
        ensures
            it.spec_header() == self.spec_header(),
            it.spec_size() == self.spec_size(),
            it.spec_buffer().len() == 0,
    {
        JournalIterator {
            direction: PhantomData,
            header: self.header,
            ring: self.ring,
            block_buffer: Vec::new(),
        }
    }
}

/// Recovery of the tail after reopening a journal: starting from the stored
/// tail it walks the entries that follow, as long as their transaction ids
/// continue the stored counter, without leaving the tail's block.
pub struct RecoveryScan {
    journal: Journal,
    tx_max: u32,
    new_tail: u64,
}

impl RecoveryScan {
    pub closed spec fn spec_journal(&self) -> Journal {
        self.journal
    }

    pub closed spec fn spec_tx_max(&self) -> u32 {
        self.tx_max
    }

    pub closed spec fn spec_new_tail(&self) -> u64 {
        self.new_tail
    }

    /// Where the size and transaction id of the next entry are to be read, or
    /// `None` when the scan has reached the end of the tail's block.
    pub fn probe(&self) -> (r: Option<u64>)
        requires
            self.spec_journal().spec_size() > 0,
            self.spec_journal().spec_header().tail + BLOCK_SIZE <= u64::MAX,
            self.spec_new_tail() + BLOCK_SIZE <= u64::MAX,
        ensures
            r == (if self.spec_new_tail() > block_end(self.spec_journal().spec_header().tail as int)
                || block_end(self.spec_new_tail() as int) - self.spec_new_tail() < 4 {
                None::<u64>
            } else {
                Some(
                    spec_file_off(
                        self.spec_journal().spec_size() as int,
                        self.spec_new_tail() as int,
                    ) as u64,
                )
            }),
    {
        proof {
            lemma_block_end(self.journal.header.tail as int);
            lemma_block_end(self.new_tail as int);
        }
        if self.new_tail > align_up_always(self.journal.header.tail, BLOCK_SIZE) {
            return None;
        }
        if align_up_always(self.new_tail, BLOCK_SIZE) - self.new_tail < 4 {
            return None;
        }
        Some(self.journal.file_off(self.new_tail))
    }

    /// Takes the size and transaction id read at the probed position; returns
    /// whether the entry continues the journal (and the scan goes on). A zero
    /// size ends the scan without looking at the transaction id.
    pub fn accept(&mut self, fsize: u32, next_tx: u32) -> (more: bool)
        requires
            old(self).spec_new_tail() + fsize <= u64::MAX,
        ensures
            final(self).spec_journal() == old(self).spec_journal(),
            more == (fsize != 0 && next_tx == next_trans_id(old(self).spec_tx_max())),
            more ==> final(self).spec_tx_max() == next_tx && final(self).spec_new_tail()
                == old(self).spec_new_tail() + fsize,
            !more ==> final(self).spec_tx_max() == old(self).spec_tx_max()
                && final(self).spec_new_tail() == old(self).spec_new_tail(),
    {
        if fsize == 0 {
            return false;
        }
        let expected = if self.tx_max == u32::MAX {
            0
        } else {
            self.tx_max + 1
        };
        if next_tx != expected {
            return false;
        }
        self.tx_max = next_tx;
        self.new_tail = self.new_tail + fsize as u64;
        true
    }

    /// The recovered journal: its tail after the last entry found, its counter
    /// after that entry's transaction id.
    pub fn finish(self) -> (j: Journal)
        ensures
            j.spec_size() == self.spec_journal().spec_size(),
            j.spec_sync() == self.spec_journal().spec_sync(),
            j.spec_header() == (JournalHeader {
                tail: self.spec_new_tail(),
                head: self.spec_journal().spec_header().head,
                trans_ctr: next_trans_id(self.spec_tx_max()),
            }),
    {
        let mut j = self.journal;
        j.header.tail = self.new_tail;
        j.header.trans_ctr = if self.tx_max == u32::MAX {
            0
        } else {
            self.tx_max + 1
        };
        j
    }
}

/// A cursor over the journal's entries. It keeps its own copy of the header,
/// so walking the journal leaves the journal itself unchanged.
pub struct JournalIterator<D: Direction> {
    direction: PhantomData<D>,
    header: JournalHeader,
    ring: Ring,
    block_buffer: Vec<Vec<u8>>,
}

impl<D: Direction> JournalIterator<D> {
    pub closed spec fn spec_header(&self) -> JournalHeader {
        self.header
    }

    pub closed spec fn spec_size(&self) -> u64 {
        self.ring.size
    }

    pub closed spec fn spec_buffer(&self) -> Seq<Seq<u8>> {
        byte_views(self.block_buffer@)
    }

    /// The cursor's copy of the header.
    pub fn header(&self) -> (h: JournalHeader)
        ensures
            h == self.spec_header(),
    {
        self.header
    }

    /// Entries decoded and not yet handed out.
    pub fn buffered(&self) -> (n: usize)
        ensures
            n == self.spec_buffer().len(),
    {
        self.block_buffer.len()
    }
}

/// What the forward cursor needs next.
#[derive(Debug, PartialEq, Eq)]
pub enum ForwardStep {
    /// The cursor has reached the tail.
    Done,
    /// Read the four bytes at this file position and hand them to
    /// `marker_read`.
    ReadMarker(u64),
    /// Read the entry at this file position and hand its size to `entry_read`.
    ReadEntry(u64),
}

impl JournalIterator<Forward> {
    /// Starts reading the next entry.
    pub fn begin_next(&mut self) -> (step: ForwardStep)
        requires
            old(self).spec_size() > 0,
            old(self).spec_header().head + BLOCK_SIZE <= u64::MAX,
        ensures
            final(self).spec_size() == old(self).spec_size(),
            final(self).spec_buffer() == old(self).spec_buffer(),
            ({
                let h = old(self).spec_header();
                let size = old(self).spec_size() as int;
                if h.head == h.tail {
                    step == ForwardStep::Done && final(self).spec_header() == h
                } else if block_end(h.head as int) - h.head < 4 {
                    &&& final(self).spec_header() == (JournalHeader {
                        head: block_end(h.head as int) as u64,
                        ..h
                    })
                    &&& step == ForwardStep::ReadEntry(
                        spec_file_off(size, block_end(h.head as int)) as u64,
                    )
                } else {
                    step == ForwardStep::ReadMarker(spec_file_off(size, h.head as int) as u64)
                        && final(self).spec_header() == h
                }
            }),
    {
        if self.header.head == self.header.tail {
            return ForwardStep::Done;
        }
        proof {
            lemma_block_end(self.header.head as int);
        }
        let end = align_up_always(self.header.head, BLOCK_SIZE);
        if end - self.header.head < 4 {
            self.header.head = end;
            return ForwardStep::ReadEntry(self.ring.file_off(self.header.head));
        }
        ForwardStep::ReadMarker(self.ring.file_off(self.header.head))
    }

    /// Takes the four bytes read at the marker position (as a little-endian
    /// number); a zero marker means the rest of the block is empty. Returns the
    /// file position of the entry to read.
    pub fn marker_read(&mut self, marker: u32) -> (entry_at: u64)
        requires
            old(self).spec_size() > 0,
            old(self).spec_header().head + BLOCK_SIZE <= u64::MAX,
        ensures
            final(self).spec_size() == old(self).spec_size(),
            final(self).spec_buffer() == old(self).spec_buffer(),
            ({
                let h = old(self).spec_header();
                let nh = if marker == 0 {
                    JournalHeader { head: block_end(h.head as int) as u64, ..h }
                } else {
                    h
                };
                &&& final(self).spec_header() == nh
                &&& entry_at == spec_file_off(old(self).spec_size() as int, nh.head as int)
            }),
    {
        if marker == 0 {
            proof {
                lemma_block_end(self.header.head as int);
            }
            self.header.head = align_up_always(self.header.head, BLOCK_SIZE);
        }
        self.ring.file_off(self.header.head)
    }

    /// Takes the size recorded in the entry just read; the cursor moves past it.
    pub fn entry_read(&mut self, fsize: u32)
        requires
            old(self).spec_header().head + fsize <= u64::MAX,
        ensures
            final(self).spec_size() == old(self).spec_size(),
            final(self).spec_buffer() == old(self).spec_buffer(),
            final(self).spec_header() == (JournalHeader {
                head: (old(self).spec_header().head + fsize) as u64,
                ..old(self).spec_header()
            }),
    {
        self.header.head = self.header.head + fsize as u64;
    }
}

/// What the reverse cursor produces next.
#[derive(Debug)]
pub enum ReverseStep {
    /// The cursor has reached the head.
    Done,
    /// The payload of the next entry, newest first.
    Entry(Vec<u8>),
    /// Read the block at this file position and hand it to `load_block`; the
    /// journal's entries in it end `end` bytes into the block.
    ReadBlock { file_offset: u64, end: u64 },
}

/// Logical offset of the block that the reverse cursor decodes next.
pub open spec fn decode_start(tail: int) -> int {
    if tail % (BLOCK_SIZE as int) != 0 {
        block_start(tail)
    } else {
        tail - BLOCK_SIZE
    }
}

impl JournalIterator<Reverse> {
    /// The next payload if one is buffered, the end of the walk, or the block
    /// that has to be read first.
    pub fn step(&mut self) -> (step: ReverseStep)
        requires
            old(self).spec_size() > 0,
        ensures
            final(self).spec_size() == old(self).spec_size(),
            final(self).spec_header() == old(self).spec_header(),
            ({
                let h = old(self).spec_header();
                let buf = old(self).spec_buffer();
                if buf.len() > 0 {
                    &&& step matches ReverseStep::Entry(p) && p@ == buf.last()
                    &&& final(self).spec_buffer() == buf.drop_last()
                } else if h.head == h.tail || h.tail == 0 {
                    step == ReverseStep::Done && final(self).spec_buffer() == buf
                } else {
                    &&& final(self).spec_buffer() == buf
                    &&& step == ReverseStep::ReadBlock {
                        file_offset: spec_file_off(
                            old(self).spec_size() as int,
                            decode_start(h.tail as int),
                        ) as u64,
                        end: (h.tail - decode_start(h.tail as int)) as u64,
                    }
                }
            }),
    {
        if self.block_buffer.len() > 0 {
            let ghost old_buf = self.block_buffer@;
            let p = self.block_buffer.pop().unwrap();
            proof {
                assert(byte_views(self.block_buffer@) =~= byte_views(old_buf).drop_last());
            }
            return ReverseStep::Entry(p);
        }
        if self.header.head == self.header.tail || self.header.tail == 0 {
            return ReverseStep::Done;
        }
        let decode_tail = if self.header.tail % BLOCK_SIZE != 0 {
            proof {
                lemma_align_down_block(self.header.tail);
            }
            align_down(self.header.tail, BLOCK_SIZE)
        } else {
            self.header.tail - BLOCK_SIZE
        };
        ReverseStep::ReadBlock {
            file_offset: self.ring.file_off(decode_tail),
            end: self.header.tail - decode_tail,
        }
    }

    /// Takes the block that `step` asked for and decodes its entries into the
    /// cursor's buffer. When the whole block decodes, the cursor's tail moves
    /// to the start of the block; when it does not, the entries before the
    /// faulty one are buffered, the tail stays, and the error is returned.
    pub fn load_block(&mut self, block: &[u8]) -> (err: Option<BlockError>)
        requires
            old(self).spec_buffer().len() == 0,
            old(self).spec_header().tail != 0,
            old(self).spec_header().tail != old(self).spec_header().head,
            block@.len() == BLOCK_SIZE,
        ensures
            ({
                let h = old(self).spec_header();
                let start = decode_start(h.tail as int);
                let decoded = spec_decode_block(block@, 0, h.tail - start);
                &&& err == decoded.1
                &&& final(self).spec_buffer() == decoded.0
                &&& final(self).spec_size() == old(self).spec_size()
                &&& final(self).spec_header() == (if err is Some {
                    h
                } else {
                    JournalHeader { tail: start as u64, ..h }
                })
            }),
    {
        let decode_tail = if self.header.tail % BLOCK_SIZE != 0 {
            proof {
                lemma_align_down_block(self.header.tail);
            }
            align_down(self.header.tail, BLOCK_SIZE)
        } else {
            self.header.tail - BLOCK_SIZE
        };
        let (entries, err) = decode_block(block, self.header.tail - decode_tail);
        self.block_buffer = entries;
        if err.is_some() {
            return err;
        }
        self.header.tail = decode_tail;
        None
    }
}

/// Frames laid back to back, as appends within one block write them.
pub open spec fn spec_frames(entries: Seq<(u32, Seq<u8>)>) -> Seq<u8>
    decreases entries.len(),
{
    if entries.len() == 0 {
        seq![]
    } else {
        spec_encode_frame(entries[0].0, entries[0].1) + spec_frames(entries.drop_first())
    }
}

pub open spec fn payloads_of(entries: Seq<(u32, Seq<u8>)>) -> Seq<Seq<u8>> {
    entries.map_values(|e: (u32, Seq<u8>)| e.1)
}

/// Every payload fits in a frame inside one block.
pub open spec fn payloads_fit(entries: Seq<(u32, Seq<u8>)>) -> bool {
    forall|i: int| 0 <= i < entries.len() ==> #[trigger] entries[i].1.len() + FRAME_OVERHEAD < BLOCK_SIZE
}

proof fn lemma_frame_shape(tid: u32, payload: Seq<u8>)
    requires
        payload.len() + FRAME_OVERHEAD < BLOCK_SIZE,
    ensures
        ({
            let f = spec_encode_frame(tid, payload);
            let n = payload.len() + FRAME_OVERHEAD;
            &&& f.len() == n
            &&& spec_u32_from_le_bytes(f.subrange(0, 4)) == n
            &&& spec_u32_from_le_bytes(f.subrange(n - 4, n)) == crc32_ieee(f.subrange(0, n - 4))
            &&& f.subrange(8, n - 4) == payload
        }),
{
    let n = payload.len() + FRAME_OVERHEAD;
    let esize = (payload.len() + FRAME_OVERHEAD) as u32;
    lemma_u32_le_roundtrip(esize);
    lemma_u32_le_roundtrip(tid);
    let pre = frame_prefix(tid, payload);
    let c = crc32_ieee(pre);
    lemma_u32_le_roundtrip(c);
    let f = spec_encode_frame(tid, payload);
    assert(f.subrange(0, 4) =~= spec_u32_to_le_bytes(esize));
    assert(f.subrange(n - 4, n) =~= spec_u32_to_le_bytes(c));
    assert(f.subrange(0, n - 4) =~= pre);
    assert(f.subrange(8, n - 4) =~= payload);
}

proof fn lemma_frames_len(entries: Seq<(u32, Seq<u8>)>)
    requires
        payloads_fit(entries),
    ensures
        spec_frames(entries).len() >= 12 * entries.len(),
    decreases entries.len(),
{
    if entries.len() > 0 {
        assert(entries[0].1.len() + FRAME_OVERHEAD < BLOCK_SIZE);
        lemma_frame_shape(entries[0].0, entries[0].1);
        assert forall|i: int| 0 <= i < entries.drop_first().len() implies #[trigger] entries.drop_first()[i].1.len()
            + FRAME_OVERHEAD < BLOCK_SIZE by {
            assert(entries.drop_first()[i] == entries[i + 1]);
        }
        lemma_frames_len(entries.drop_first());
    }
}

proof fn lemma_decode_frames_from(
    block: Seq<u8>,
    entries: Seq<(u32, Seq<u8>)>,
    pos: int,
    end: int,
)
    requires
        block.len() == BLOCK_SIZE,
        payloads_fit(entries),
        0 <= pos,
        pos + spec_frames(entries).len() <= end <= BLOCK_SIZE,
        block.subrange(pos, pos + spec_frames(entries).len()) == spec_frames(entries),
        end - (pos + spec_frames(entries).len()) < 4 || frame_size_at(
            block,
            pos + spec_frames(entries).len(),
        ) == 0,
    ensures
        spec_decode_block(block, pos, end) == (payloads_of(entries), None::<BlockError>),
    decreases entries.len(),
{
    let body = spec_frames(entries);
    if entries.len() == 0 {
        assert(payloads_of(entries) =~= seq![]);
    } else {
        let e0 = entries[0];
        let rest = entries.drop_first();
        assert(e0.1.len() + FRAME_OVERHEAD < BLOCK_SIZE);
        lemma_frame_shape(e0.0, e0.1);
        let f = spec_encode_frame(e0.0, e0.1);
        let n = f.len() as int;
        let rb = spec_frames(rest);
        assert(body == f + rb);
        assert forall|i: int| 0 <= i < rest.len() implies #[trigger] rest[i].1.len() + FRAME_OVERHEAD
            < BLOCK_SIZE by {
            assert(rest[i] == entries[i + 1]);
        }
        assert(block.subrange(pos, pos + n) =~= f) by {
            assert(block.subrange(pos, pos + n) =~= block.subrange(pos, pos + body.len()).subrange(
                0,
                n,
            ));
            assert(body.subrange(0, n) =~= f);
        }
        assert(block.subrange(pos + n, pos + n + rb.len()) =~= rb) by {
            assert(block.subrange(pos + n, pos + n + rb.len()) =~= block.subrange(
                pos,
                pos + body.len(),
            ).subrange(n, n + rb.len()));
            assert(body.subrange(n, n + rb.len()) =~= rb);
        }
        assert(block.subrange(pos, pos + 4) =~= f.subrange(0, 4)) by {
            assert(block.subrange(pos, pos + 4) =~= block.subrange(pos, pos + n).subrange(0, 4));
        }
        assert(frame_size_at(block, pos) == n);
        lemma_decode_frames_from(block, rest, pos + n, end);
        let frame = block.subrange(pos, pos + n);
        assert(frame =~= f);
        assert(payloads_of(entries) =~= seq![e0.1] + payloads_of(rest));
    }
}

/// What the reverse reader gives back of what was written: a block that holds
/// frames back to back from its start, closed by the tail or by a zero size
/// marker, decodes to exactly the payloads of those frames, in order.
pub proof fn lemma_block_roundtrip(block: Seq<u8>, entries: Seq<(u32, Seq<u8>)>, end: int)
    requires
        block.len() == BLOCK_SIZE,
        payloads_fit(entries),
        spec_frames(entries).len() <= end <= BLOCK_SIZE,
        block.subrange(0, spec_frames(entries).len() as int) == spec_frames(entries),
        end - spec_frames(entries).len() < 4 || frame_size_at(
            block,
            spec_frames(entries).len() as int,
        ) == 0,
    ensures
        spec_decode_block(block, 0, end) == (payloads_of(entries), None::<BlockError>),
{
    lemma_decode_frames_from(block, entries, 0, end);
}

/// An appended frame never straddles a block: it is written at the tail in
/// force (the old tail, or the start of the next block when the frame does
/// not fit before the old tail's block ends) and ends within that block, where
/// the new tail is.
pub proof fn lemma_append_within_block(h: JournalHeader, size: int, len: int)
    requires
        0 <= len,
        len + FRAME_OVERHEAD < BLOCK_SIZE,
        h.tail + 2 * BLOCK_SIZE <= u64::MAX,
    ensures
        ({
            let h1 = header_before_entry(h, size, len + FRAME_OVERHEAD);
            &&& h1.tail + len + FRAME_OVERHEAD <= block_end(h1.tail as int)
            &&& header_after_append(h, size, len).tail == h1.tail + len + FRAME_OVERHEAD
            &&& (needs_new_block(h, len + FRAME_OVERHEAD) ==> (h1.tail as int) % (BLOCK_SIZE as int) == 0)
        }),
{
    let esize = len + FRAME_OVERHEAD;
    let h1 = header_before_entry(h, size, esize);
    lemma_block_end(h.tail as int);
    if needs_new_block(h, esize) {
        let t = block_end(h.tail as int);
        lemma_block_end(t);
        assert(block_start(t) == t);
    }
}


/// The file image once `bytes` are written at position `off`.
pub open spec fn write_at(img: Seq<u8>, off: int, bytes: Seq<u8>) -> Seq<u8> {
    img.subrange(0, off) + bytes + img.subrange(off + bytes.len(), img.len() as int)
}

/// The file image once the writes are performed in order.
pub open spec fn apply_writes(img: Seq<u8>, ws: Seq<(int, Seq<u8>)>) -> Seq<u8>
    decreases ws.len(),
{
    if ws.len() == 0 {
        img
    } else {
        write_at(apply_writes(img, ws.drop_last()), ws.last().0, ws.last().1)
    }
}

/// The header and the file image after appending the payloads in order, the
/// writes of each append performed before the next append.
pub open spec fn append_all(h: JournalHeader, size: int, img: Seq<u8>, ps: Seq<Seq<u8>>) -> (
    JournalHeader,
    Seq<u8>,
)
    decreases ps.len(),
{
    if ps.len() == 0 {
        (h, img)
    } else {
        let (h1, img1) = append_all(h, size, img, ps.drop_last());
        (
            header_after_append(h1, size, ps.last().len() as int),
            apply_writes(img1, append_writes(h1, size, ps.last())),
        )
    }
}

/// The block of a file image that starts at logical offset `start`.
pub open spec fn image_block(img: Seq<u8>, size: int, start: int) -> Seq<u8> {
    img.subrange(spec_file_off(size, start), spec_file_off(size, start) + BLOCK_SIZE)
}

/// What the reverse cursor hands out, newest first, when it is driven over a
/// file image from a header with this head and tail: it asks for the block
/// below the tail (`step`), decodes it (`load_block`) and hands out its
/// entries last first, then goes on below that block; it ends at the head,
/// or after the entries decoded before the first fault of a block.
pub open spec fn reverse_walk(img: Seq<u8>, size: int, head: u64, tail: u64) -> Seq<Seq<u8>>
    decreases tail,
{
    if head == tail || tail == 0 {
        seq![]
    } else {
        let start = decode_start(tail as int);
        let d = spec_decode_block(image_block(img, size, start), 0, tail - start);
        if d.1 is Some || start < 0 || start >= tail {
            d.0.reverse()
        } else {
            d.0.reverse() + reverse_walk(img, size, head, start as u64)
        }
    }
}

proof fn lemma_write_at(img: Seq<u8>, off: int, bytes: Seq<u8>)
    requires
        0 <= off,
        off + bytes.len() <= img.len(),
    ensures
        write_at(img, off, bytes).len() == img.len(),
        forall|i: int|
            0 <= i < img.len() ==> #[trigger] write_at(img, off, bytes)[i] == if off <= i < off
                + bytes.len() {
                bytes[i - off]
            } else {
                img[i]
            },
{
    let w = write_at(img, off, bytes);
    assert forall|i: int| 0 <= i < img.len() implies #[trigger] w[i] == if off <= i < off
        + bytes.len() {
        bytes[i - off]
    } else {
        img[i]
    } by {
        if i < off {
        } else if i < off + bytes.len() {
        } else {
        }
    }
}

proof fn lemma_frames_push(es: Seq<(u32, Seq<u8>)>, e: (u32, Seq<u8>))
    ensures
        spec_frames(es.push(e)) == spec_frames(es) + spec_encode_frame(e.0, e.1),
    decreases es.len(),
{
    if es.len() == 0 {
        let t = es.push(e);
        assert(t.drop_first() =~= Seq::<(u32, Seq<u8>)>::empty());
        assert(spec_frames(t.drop_first()) == Seq::<u8>::empty());
        assert(t[0] == e);
        assert(spec_frames(t) =~= spec_encode_frame(e.0, e.1));
        assert(spec_frames(es) == Seq::<u8>::empty());
    } else {
        assert(es.push(e).drop_first() =~= es.drop_first().push(e));
        lemma_frames_push(es.drop_first(), e);
        assert(spec_frames(es.push(e)) =~= spec_frames(es) + spec_encode_frame(e.0, e.1));
    }
}

proof fn lemma_reverse_split(s: Seq<Seq<u8>>, k: int)
    requires
        0 <= k <= s.len(),
    ensures
        s.reverse() == s.subrange(k, s.len() as int).reverse() + s.subrange(0, k).reverse(),
{
    let a = s.subrange(k, s.len() as int);
    let b = s.subrange(0, k);
    let r = a.reverse() + b.reverse();
    assert(s.reverse().len() == s.len());
    assert(r.len() == s.len());
    assert forall|i: int| 0 <= i < s.len() implies #[trigger] s.reverse()[i] == r[i] by {
        if i < a.len() {
            assert(a.reverse()[i] == a[a.len() - 1 - i]);
        } else {
            assert(b.reverse()[i - a.len()] == b[b.len() - 1 - (i - a.len())]);
        }
    }
    assert(s.reverse() =~= r);
}

/// The reverse walk below a block boundary reads only the image below it.
proof fn lemma_walk_reads_below(img1: Seq<u8>, img2: Seq<u8>, size: int, head: u64, tail: u64)
    requires
        0 < size,
        tail <= size,
        (tail as int) % (BLOCK_SIZE as int) == 0,
        img1.len() >= HEADER_SIZE + size,
        img2.len() >= HEADER_SIZE + size,
        img1.subrange(HEADER_SIZE as int, HEADER_SIZE + tail) == img2.subrange(
            HEADER_SIZE as int,
            HEADER_SIZE + tail,
        ),
    ensures
        reverse_walk(img1, size, head, tail) == reverse_walk(img2, size, head, tail),
    decreases tail,
{
    if head == tail || tail == 0 {
    } else {
        let start = tail - BLOCK_SIZE;
        assert(decode_start(tail as int) == start);
        assert(start % size == start) by (nonlinear_arith)
            requires
                0 <= start < size,
        ;
        let b1 = image_block(img1, size, start);
        let b2 = image_block(img2, size, start);
        assert(b1 =~= b2) by {
            assert forall|i: int| 0 <= i < BLOCK_SIZE implies b1[i] == b2[i] by {
                assert(img1.subrange(HEADER_SIZE as int, HEADER_SIZE + tail)[start + i] == img1[HEADER_SIZE + start + i]);
                assert(img2.subrange(HEADER_SIZE as int, HEADER_SIZE + tail)[start + i] == img2[HEADER_SIZE + start + i]);
            }
        }
        assert(img1.subrange(HEADER_SIZE as int, HEADER_SIZE + start) =~= img1.subrange(
            HEADER_SIZE as int,
            HEADER_SIZE + tail,
        ).subrange(0, start));
        assert(img2.subrange(HEADER_SIZE as int, HEADER_SIZE + start) =~= img2.subrange(
            HEADER_SIZE as int,
            HEADER_SIZE + tail,
        ).subrange(0, start));
        lemma_walk_reads_below(img1, img2, size, head, start as u64);
    }
}

/// An offset within the block that starts at `cs` lies in that block.
proof fn lemma_start_of_block(cs: int, off: int)
    requires
        cs >= 0,
        cs % (BLOCK_SIZE as int) == 0,
        cs <= off < cs + BLOCK_SIZE,
    ensures
        block_start(off) == cs,
{
    let bs = BLOCK_SIZE as int;
    vstd::arithmetic::div_mod::lemma_fundamental_div_mod(cs, bs);
    vstd::arithmetic::div_mod::lemma_fundamental_div_mod_converse(off, bs, cs / bs, off - cs);
}

/// What appending to a fresh journal lays down, block by block: the block
/// of the tail (starting at `r.0`) holds from its start the frames of the
/// last `r.1.len()` payloads, and the reverse walk from that block's start
/// hands out all earlier payloads, newest first.
#[verifier::rlimit(60)]
#[verifier::spinoff_prover]
proof fn lemma_appends_lay_blocks(h: JournalHeader, size: int, img: Seq<u8>, ps: Seq<Seq<u8>>) -> (r: (
    int,
    Seq<(u32, Seq<u8>)>,
))
    requires
        h.tail == 0,
        h.head == 0,
        0 < size,
        size % (BLOCK_SIZE as int) == 0,
        HEADER_SIZE + size + 2 * BLOCK_SIZE <= u64::MAX,
        img.len() == HEADER_SIZE + size,
        forall|i: int| 0 <= i < ps.len() ==> #[trigger] ps[i].len() + FRAME_OVERHEAD < BLOCK_SIZE,
        forall|k: int|
            0 <= k <= ps.len() ==> (#[trigger] append_all(h, size, img, ps.subrange(0, k))).0.tail
                < size,
    ensures
        ({
            let (h2, im) = append_all(h, size, img, ps);
            let (cs, es) = r;
            let fl = spec_frames(es).len() as int;
            &&& h2.head == 0
            &&& im.len() == img.len()
            &&& cs % (BLOCK_SIZE as int) == 0
            &&& 0 <= cs <= h2.tail <= cs + BLOCK_SIZE
            &&& h2.tail - cs == fl
            &&& payloads_fit(es)
            &&& image_block(im, size, cs).subrange(0, fl) == spec_frames(es)
            &&& es.len() <= ps.len()
            &&& payloads_of(es) == ps.subrange(ps.len() - es.len(), ps.len() as int)
            &&& reverse_walk(im, size, 0, cs as u64) == ps.subrange(0, ps.len() - es.len()).reverse()
        }),
    decreases ps.len(),
{
    let bs = BLOCK_SIZE as int;
    if ps.len() == 0 {
        let es = Seq::<(u32, Seq<u8>)>::empty();
        assert(spec_frames(es) == Seq::<u8>::empty());
        assert(payloads_of(es) =~= ps.subrange(0, 0));
        assert(image_block(img, size, 0).subrange(0, 0) =~= spec_frames(es));
        assert(ps.subrange(0, 0).reverse() =~= Seq::<Seq<u8>>::empty());
        return (0, es);
    }
    let pp = ps.drop_last();
    let p = ps.last();
    assert forall|i: int| 0 <= i < pp.len() implies #[trigger] pp[i].len() + FRAME_OVERHEAD
        < BLOCK_SIZE by {
        assert(pp[i] == ps[i]);
    }
    assert forall|k: int| 0 <= k <= pp.len() implies (#[trigger] append_all(
        h,
        size,
        img,
        pp.subrange(0, k),
    )).0.tail < size by {
        assert(pp.subrange(0, k) =~= ps.subrange(0, k));
    }
    let (cs, es) = lemma_appends_lay_blocks(h, size, img, pp);
    let (h1, im1) = append_all(h, size, img, pp);
    assert(ps.subrange(0, pp.len() as int) =~= pp);
    assert(ps.subrange(0, ps.len() as int) =~= ps);
    let tt = h1.tail as int;
    assert(tt < size);
    let (h2, im) = append_all(h, size, img, ps);
    assert(h2.tail < size);
    assert(ps[ps.len() - 1].len() + FRAME_OVERHEAD < BLOCK_SIZE);
    let n = p.len() + FRAME_OVERHEAD;
    let tid = h1.trans_ctr;
    let fr = spec_encode_frame(tid, p);
    lemma_frame_shape(tid, p);
    lemma_append_within_block(h1, size, p.len() as int);
    lemma_block_end(tt);
    let fl = spec_frames(es).len() as int;
    let h1e = header_before_entry(h1, size, n);
    let ws = append_writes(h1, size, p);
    assert(h2 == header_after_append(h1, size, p.len() as int));
    assert(im == apply_writes(im1, ws));
    assert(tt % size == tt) by (nonlinear_arith)
        requires
            0 <= tt < size,
    ;
    assert(cs % size == cs) by (nonlinear_arith)
        requires
            0 <= cs <= tt < size,
    ;
    assert(cs + bs <= size) by (nonlinear_arith)
        requires
            cs % bs == 0,
            size % bs == 0,
            0 <= cs < size,
            bs > 0,
    ;
    let pre_es = pp.subrange(0, pp.len() - es.len());
    let e = (tid, p);
    if !needs_new_block(h1, n) {
        assert(h1e == h1);
        let w = (HEADER_SIZE + tt, fr);
        assert(ws =~= seq![w]);
        assert(ws.drop_last() =~= Seq::<(int, Seq<u8>)>::empty());
        assert(apply_writes(im1, ws.drop_last()) == im1);
        assert(im == write_at(im1, HEADER_SIZE + tt, fr));
        assert(h2.tail == tt + n);
        lemma_write_at(im1, HEADER_SIZE + tt, fr);
        assert(im.subrange(HEADER_SIZE as int, HEADER_SIZE + cs) =~= im1.subrange(
            HEADER_SIZE as int,
            HEADER_SIZE + cs,
        ));
        lemma_walk_reads_below(im, im1, size, 0, cs as u64);
        if tt == cs + bs {
            // The tail's block is full: the frame opens the next block.
            let es2 = seq![e];
            assert(es2.drop_first() =~= Seq::<(u32, Seq<u8>)>::empty());
            assert(spec_frames(es2.drop_first()) == Seq::<u8>::empty());
            assert(spec_frames(es2) =~= fr);
            assert(tt % size == tt);
            assert(image_block(im, size, tt).subrange(0, n) =~= fr);
            // The full block decodes as before.
            let blk = image_block(im, size, cs);
            assert(blk =~= image_block(im1, size, cs));
            assert(blk.subrange(0, fl) == spec_frames(es));
            lemma_block_roundtrip(blk, es, bs);
            assert(decode_start(tt) == cs);
            assert(reverse_walk(im, size, 0, tt as u64) == payloads_of(es).reverse() + reverse_walk(
                im,
                size,
                0,
                cs as u64,
            ));
            lemma_reverse_split(pp, pp.len() - es.len());
            assert(pp.subrange(pp.len() - es.len(), pp.len() as int) == payloads_of(es));
            assert(ps.subrange(0, ps.len() - 1) =~= pp);
            assert(payloads_of(es2) =~= ps.subrange(ps.len() - 1, ps.len() as int));
            assert forall|i: int| 0 <= i < es2.len() implies #[trigger] es2[i].1.len() + FRAME_OVERHEAD
                < BLOCK_SIZE by {}
            return (tt, es2);
        } else {
            // The frame joins the tail's block.
            let es2 = es.push(e);
            lemma_frames_push(es, e);
            lemma_start_of_block(cs, tt);
            assert(h2.tail <= cs + bs);
            let blk = image_block(im, size, cs);
            let old_blk = image_block(im1, size, cs);
            assert(blk.subrange(0, fl + n) =~= spec_frames(es) + fr) by {
                assert forall|i: int| 0 <= i < fl + n implies blk.subrange(0, fl + n)[i] == (spec_frames(es)
                    + fr)[i] by {
                    assert(blk[i] == im[HEADER_SIZE + cs + i]);
                    if i < fl {
                        assert(old_blk.subrange(0, fl)[i] == old_blk[i]);
                        assert(old_blk[i] == im1[HEADER_SIZE + cs + i]);
                    }
                }
            }
            assert forall|i: int| 0 <= i < es2.len() implies #[trigger] es2[i].1.len() + FRAME_OVERHEAD
                < BLOCK_SIZE by {
                if i < es.len() {
                    assert(es2[i] == es[i]);
                }
            }
            assert(payloads_of(es2) =~= ps.subrange(ps.len() - es2.len(), ps.len() as int)) by {
                assert(payloads_of(es) == pp.subrange(pp.len() - es.len(), pp.len() as int));
                assert forall|i: int| 0 <= i < es2.len() implies payloads_of(es2)[i] == ps.subrange(
                    ps.len() - es2.len(),
                    ps.len() as int,
                )[i] by {
                    if i < es.len() {
                        assert(es2[i] == es[i]);
                        assert(payloads_of(es)[i] == pp.subrange(pp.len() - es.len(), pp.len() as int)[i]);
                    }
                }
            }
            assert(ps.subrange(0, ps.len() - es2.len()) =~= pre_es);
            return (cs, es2);
        }
    } else {
        // The frame does not fit: the block is closed and the frame opens the
        // next one.
        let t = cs + bs;
        assert(cs < tt < cs + bs) by {
            if tt == cs || tt == cs + bs {
                assert(block_end(tt) == tt + bs) by (nonlinear_arith)
                    requires
                        tt % bs == 0,
                        bs > 0,
                        block_end(tt) == (tt / bs + 1) * bs,
                ;
            }
        }
        lemma_start_of_block(cs, tt);
        assert(block_end(tt) == t);
        assert(h1e.tail == t);
        assert(h1e.head == 0);
        assert(t % size == t) by (nonlinear_arith)
            requires
                0 <= t < size,
        ;
        let hdr = spec_encode_header(h1e);
        lemma_header_roundtrip(h1e);
        let zero = spec_u32_to_le_bytes(0);
        lemma_u32_le_roundtrip(0);
        let space = t - tt;
        let marker: Seq<(int, Seq<u8>)> = if space >= 4 {
            seq![(HEADER_SIZE + tt, zero)]
        } else {
            seq![]
        };
        let pre = marker.push((0, hdr));
        assert(ws =~= pre.push((HEADER_SIZE + t, fr)));
        assert(ws.drop_last() =~= pre);
        assert(pre.drop_last() =~= marker);
        let im_m = apply_writes(im1, marker);
        if space >= 4 {
            assert(marker.drop_last() =~= Seq::<(int, Seq<u8>)>::empty());
            assert(apply_writes(im1, marker.drop_last()) == im1);
            assert(im_m == write_at(im1, HEADER_SIZE + tt, zero));
            lemma_write_at(im1, HEADER_SIZE + tt, zero);
        } else {
            assert(im_m == im1);
        }
        let im_h = apply_writes(im1, pre);
        assert(im_h == write_at(im_m, 0, hdr));
        lemma_write_at(im_m, 0, hdr);
        assert(im == write_at(im_h, HEADER_SIZE + t, fr));
        lemma_write_at(im_h, HEADER_SIZE + t, fr);
        assert(h2.tail == t + n);
        assert(h2.head == 0);
        // Below the tail's old block nothing changed.
        assert(im.subrange(HEADER_SIZE as int, HEADER_SIZE + cs) =~= im1.subrange(
            HEADER_SIZE as int,
            HEADER_SIZE + cs,
        ));
        lemma_walk_reads_below(im, im1, size, 0, cs as u64);
        // The old block: its frames, then the marker or too little room.
        let blk = image_block(im, size, cs);
        let old_blk = image_block(im1, size, cs);
        assert(blk.subrange(0, fl) =~= spec_frames(es)) by {
            assert forall|i: int| 0 <= i < fl implies blk.subrange(0, fl)[i] == spec_frames(es)[i] by {
                assert(blk[i] == im[HEADER_SIZE + cs + i]);
                assert(old_blk.subrange(0, fl)[i] == old_blk[i]);
                assert(old_blk[i] == im1[HEADER_SIZE + cs + i]);
            }
        }
        assert(fl == tt - cs);
        if bs - fl >= 4 {
            assert(blk.subrange(fl, fl + 4) =~= zero) by {
                assert forall|i: int| 0 <= i < 4 implies blk.subrange(fl, fl + 4)[i] == zero[i] by {
                    assert(blk[fl + i] == im[HEADER_SIZE + tt + i]);
                }
            }
            assert(frame_size_at(blk, fl) == 0);
        }
        lemma_block_roundtrip(blk, es, bs);
        assert(decode_start(t) == cs);
        assert(reverse_walk(im, size, 0, t as u64) == payloads_of(es).reverse() + reverse_walk(
            im,
            size,
            0,
            cs as u64,
        ));
        lemma_reverse_split(pp, pp.len() - es.len());
        assert(pp.subrange(pp.len() - es.len(), pp.len() as int) == payloads_of(es));
        assert(ps.subrange(0, ps.len() - 1) =~= pp);
        // The new block holds the frame.
        let es2 = seq![e];
        assert(es2.drop_first() =~= Seq::<(u32, Seq<u8>)>::empty());
        assert(spec_frames(es2.drop_first()) == Seq::<u8>::empty());
        assert(spec_frames(es2) =~= fr);
        assert(image_block(im, size, t).subrange(0, n) =~= fr);
        assert(payloads_of(es2) =~= ps.subrange(ps.len() - 1, ps.len() as int));
        assert forall|i: int| 0 <= i < es2.len() implies #[trigger] es2[i].1.len() + FRAME_OVERHEAD
            < BLOCK_SIZE by {}
        assert(t % bs == 0) by (nonlinear_arith)
            requires
                cs % bs == 0,
                t == cs + bs,
                bs > 0,
        ;
        return (t, es2);
    }
}

/// Entries appended to a fresh journal read back: once the writes of each
/// append are performed on the file in turn, driving the reverse cursor over
/// the file hands out every payload, newest first, from the last appended
/// to the first. This is for appends that stay within the ring (the tail
/// never reaches the ring's end, so nothing is overwritten).
pub proof fn lemma_appends_read_back(h: JournalHeader, size: int, img: Seq<u8>, ps: Seq<Seq<u8>>)
    requires
        h.tail == 0,
        h.head == 0,
        0 < size,
        size % (BLOCK_SIZE as int) == 0,
        HEADER_SIZE + size + 2 * BLOCK_SIZE <= u64::MAX,
        img.len() == HEADER_SIZE + size,
        forall|i: int| 0 <= i < ps.len() ==> #[trigger] ps[i].len() + FRAME_OVERHEAD < BLOCK_SIZE,
        forall|k: int|
            0 <= k <= ps.len() ==> (#[trigger] append_all(h, size, img, ps.subrange(0, k))).0.tail
                < size,
    ensures
        ({
            let (h2, im) = append_all(h, size, img, ps);
            reverse_walk(im, size, h2.head, h2.tail) == ps.reverse()
        }),
{
    let bs = BLOCK_SIZE as int;
    let (cs, es) = lemma_appends_lay_blocks(h, size, img, ps);
    let (h2, im) = append_all(h, size, img, ps);
    let tt = h2.tail as int;
    assert(ps.subrange(0, ps.len() as int) =~= ps);
    assert(tt < size);
    let fl = spec_frames(es).len() as int;
    lemma_reverse_split(ps, ps.len() - es.len());
    if tt == cs {
        assert(ps.subrange(ps.len() - es.len(), ps.len() as int).len() == 0) by {
            if es.len() > 0 {
                lemma_frames_len(es);
            }
        }
        assert(ps.subrange(ps.len() - es.len(), ps.len() as int).reverse() =~= Seq::<Seq<u8>>::empty());
        assert(ps.reverse() =~= ps.subrange(0, ps.len() - es.len()).reverse());
    } else {
        assert(decode_start(tt) == cs) by {
            if tt < cs + bs {
                lemma_start_of_block(cs, tt);
            }
        }
        assert(cs % size == cs) by (nonlinear_arith)
            requires
                0 <= cs < size,
        ;
        assert(cs + bs <= size) by (nonlinear_arith)
            requires
                cs % bs == 0,
                size % bs == 0,
                0 <= cs < size,
                bs > 0,
        ;
        let blk = image_block(im, size, cs);
        lemma_block_roundtrip(blk, es, fl);
        assert(reverse_walk(im, size, 0, h2.tail) == payloads_of(es).reverse() + reverse_walk(
            im,
            size,
            0,
            cs as u64,
        ));
    }
}

/// The little-endian number held by the four bytes of an image at `pos`.
pub open spec fn u32_at(img: Seq<u8>, pos: int) -> u32 {
    spec_u32_from_le_bytes(img.subrange(pos, pos + 4))
}

/// What the forward cursor hands out, oldest first, when it is driven over a
/// file image from `head` to `tail`: at each entry it skips to the next block
/// when fewer than four bytes are left in the block or the marker read there
/// is zero (`begin_next`, `marker_read`), takes the payload of the frame it
/// finds and moves past it (`entry_read`); it ends at the tail, and at a size
/// too small for a frame.
pub open spec fn forward_walk(img: Seq<u8>, size: int, head: int, tail: int) -> Seq<Seq<u8>>
    decreases tail - head,
{
    if head >= tail {
        seq![]
    } else {
        let h1 = if block_end(head) - head < 4 || u32_at(img, spec_file_off(size, head)) == 0 {
            block_end(head)
        } else {
            head
        };
        let at = spec_file_off(size, h1);
        let fsize = u32_at(img, at);
        if fsize < FRAME_OVERHEAD || h1 < head {
            seq![]
        } else {
            seq![img.subrange(at + 8, at + fsize - 4)] + if h1 + fsize >= tail {
                seq![]
            } else {
                forward_walk(img, size, h1 + fsize, tail)
            }
        }
    }
}

/// The forward walk over what appends to a fresh journal left: on any image
/// that holds the same bytes below the tail, the walk from the start hands
/// out the appended payloads in order and then goes on from the tail.
#[verifier::rlimit(60)]
#[verifier::spinoff_prover]
proof fn lemma_appends_walk_forward(h: JournalHeader, size: int, img: Seq<u8>, ps: Seq<Seq<u8>>)
    requires
        h.tail == 0,
        h.head == 0,
        0 < size,
        size % (BLOCK_SIZE as int) == 0,
        HEADER_SIZE + size + 2 * BLOCK_SIZE <= u64::MAX,
        img.len() == HEADER_SIZE + size,
        forall|i: int| 0 <= i < ps.len() ==> #[trigger] ps[i].len() + FRAME_OVERHEAD < BLOCK_SIZE,
        forall|k: int|
            0 <= k <= ps.len() ==> (#[trigger] append_all(h, size, img, ps.subrange(0, k))).0.tail
                < size,
    ensures
        ({
            let (h2, im) = append_all(h, size, img, ps);
            forall|img2: Seq<u8>, c: int|
                img2.len() == im.len() && img2.subrange(HEADER_SIZE as int, HEADER_SIZE + h2.tail)
                    == im.subrange(HEADER_SIZE as int, HEADER_SIZE + h2.tail) && c >= h2.tail
                    ==> #[trigger] forward_walk(img2, size, 0, c) == ps + forward_walk(
                    img2,
                    size,
                    h2.tail as int,
                    c,
                )
        }),
    decreases ps.len(),
{
    let bs = BLOCK_SIZE as int;
    let (cs0, es0) = lemma_appends_lay_blocks(h, size, img, ps);
    if ps.len() == 0 {
        assert forall|img2: Seq<u8>, c: int| #[trigger] forward_walk(img2, size, 0, c) == ps
            + forward_walk(img2, size, 0, c) by {
            assert(ps + forward_walk(img2, size, 0, c) =~= forward_walk(img2, size, 0, c));
        }
        return;
    }
    let pp = ps.drop_last();
    let p = ps.last();
    assert forall|i: int| 0 <= i < pp.len() implies #[trigger] pp[i].len() + FRAME_OVERHEAD
        < BLOCK_SIZE by {
        assert(pp[i] == ps[i]);
    }
    assert forall|k: int| 0 <= k <= pp.len() implies (#[trigger] append_all(
        h,
        size,
        img,
        pp.subrange(0, k),
    )).0.tail < size by {
        assert(pp.subrange(0, k) =~= ps.subrange(0, k));
    }
    lemma_appends_walk_forward(h, size, img, pp);
    let (cs, es) = lemma_appends_lay_blocks(h, size, img, pp);
    let (h1, im1) = append_all(h, size, img, pp);
    assert(ps.subrange(0, pp.len() as int) =~= pp);
    assert(ps.subrange(0, ps.len() as int) =~= ps);
    let tt = h1.tail as int;
    let (h2, im) = append_all(h, size, img, ps);
    let t2 = h2.tail as int;
    assert(ps[ps.len() - 1].len() + FRAME_OVERHEAD < BLOCK_SIZE);
    let n = p.len() + FRAME_OVERHEAD;
    let tid = h1.trans_ctr;
    let fr = spec_encode_frame(tid, p);
    lemma_frame_shape(tid, p);
    lemma_append_within_block(h1, size, p.len() as int);
    lemma_block_end(tt);
    let h1e = header_before_entry(h1, size, n);
    let ws = append_writes(h1, size, p);
    assert(h2 == header_after_append(h1, size, p.len() as int));
    assert(im == apply_writes(im1, ws));
    assert(tt % size == tt) by (nonlinear_arith)
        requires
            0 <= tt < size,
    ;
    // Where the frame goes, and what the image holds from the old tail on.
    let t = h1e.tail as int;
    assert(t % size == t) by (nonlinear_arith)
        requires
            0 <= t < size,
    ;
    assert(t2 == t + n);
    let zero = spec_u32_to_le_bytes(0);
    lemma_u32_le_roundtrip(0);
    lemma_u32_le_roundtrip(n as u32);
    assert(fr.subrange(0, 4) =~= spec_u32_to_le_bytes(n as u32));
    if !needs_new_block(h1, n) {
        assert(h1e == h1);
        let w = (HEADER_SIZE + tt, fr);
        assert(ws =~= seq![w]);
        assert(ws.drop_last() =~= Seq::<(int, Seq<u8>)>::empty());
        assert(apply_writes(im1, ws.drop_last()) == im1);
        assert(im == write_at(im1, HEADER_SIZE + tt, fr));
        lemma_write_at(im1, HEADER_SIZE + tt, fr);
    } else {
        let hdr = spec_encode_header(h1e);
        lemma_header_roundtrip(h1e);
        let space = t - tt;
        let marker: Seq<(int, Seq<u8>)> = if space >= 4 {
            seq![(HEADER_SIZE + tt, zero)]
        } else {
            seq![]
        };
        let pre = marker.push((0, hdr));
        assert(ws =~= pre.push((HEADER_SIZE + t, fr)));
        assert(ws.drop_last() =~= pre);
        assert(pre.drop_last() =~= marker);
        let im_m = apply_writes(im1, marker);
        if space >= 4 {
            assert(marker.drop_last() =~= Seq::<(int, Seq<u8>)>::empty());
            assert(apply_writes(im1, marker.drop_last()) == im1);
            assert(im_m == write_at(im1, HEADER_SIZE + tt, zero));
            lemma_write_at(im1, HEADER_SIZE + tt, zero);
        } else {
            assert(im_m == im1);
        }
        let im_h = apply_writes(im1, pre);
        assert(im_h == write_at(im_m, 0, hdr));
        lemma_write_at(im_m, 0, hdr);
        assert(im == write_at(im_h, HEADER_SIZE + t, fr));
        lemma_write_at(im_h, HEADER_SIZE + t, fr);
    }
    assert forall|img2: Seq<u8>, c: int|
        img2.len() == im.len() && img2.subrange(HEADER_SIZE as int, HEADER_SIZE + t2)
            == im.subrange(HEADER_SIZE as int, HEADER_SIZE + t2) && c >= t2 implies #[trigger] forward_walk(
        img2,
        size,
        0,
        c,
    ) == ps + forward_walk(img2, size, t2, c) by {
        let sub2 = img2.subrange(HEADER_SIZE as int, HEADER_SIZE + t2);
        let sub = im.subrange(HEADER_SIZE as int, HEADER_SIZE + t2);
        assert forall|i: int| HEADER_SIZE <= i < HEADER_SIZE + t2 implies img2[i] == im[i] by {
            assert(sub2[i - HEADER_SIZE] == sub[i - HEADER_SIZE]);
        }
        // Below the old tail the image is as the earlier appends left it.
        assert(img2.subrange(HEADER_SIZE as int, HEADER_SIZE + tt) =~= im1.subrange(
            HEADER_SIZE as int,
            HEADER_SIZE + tt,
        ));
        assert(img2.len() == im1.len());
        assert(forward_walk(img2, size, 0, c) == pp + forward_walk(img2, size, tt, c));
        // From the old tail: the walk finds the new frame and moves past it.
        let hx = if block_end(tt) - tt < 4 || u32_at(img2, spec_file_off(size, tt)) == 0 {
            block_end(tt)
        } else {
            tt
        };
        if !needs_new_block(h1, n) {
            assert(img2.subrange(HEADER_SIZE + tt, HEADER_SIZE + tt + 4) =~= fr.subrange(0, 4));
            assert(hx == tt);
        } else {
            if block_end(tt) - tt >= 4 {
                assert(img2.subrange(HEADER_SIZE + tt, HEADER_SIZE + tt + 4) =~= zero);
            }
            assert(hx == t);
        }
        assert(img2.subrange(HEADER_SIZE + t, HEADER_SIZE + t + 4) =~= fr.subrange(0, 4));
        assert(u32_at(img2, spec_file_off(size, hx)) == n);
        assert(img2.subrange(HEADER_SIZE + t + 8, HEADER_SIZE + t + n - 4) =~= p) by {
            assert(fr.subrange(8, n - 4) == p);
        }
        assert(forward_walk(img2, size, tt, c) == seq![p] + forward_walk(img2, size, t2, c));
        assert(ps =~= pp + seq![p]);
        assert(pp + (seq![p] + forward_walk(img2, size, t2, c)) =~= ps + forward_walk(img2, size, t2, c));
    }
}

/// Entries appended to a fresh journal read back in order: once the writes
/// of each append are performed on the file in turn, driving the forward
/// cursor over the file hands out every payload, from the first appended to
/// the last. This is for appends that stay within the ring (the tail never
/// reaches the ring's end, so nothing is overwritten).
pub proof fn lemma_appends_read_forward(h: JournalHeader, size: int, img: Seq<u8>, ps: Seq<Seq<u8>>)
    requires
        h.tail == 0,
        h.head == 0,
        0 < size,
        size % (BLOCK_SIZE as int) == 0,
        HEADER_SIZE + size + 2 * BLOCK_SIZE <= u64::MAX,
        img.len() == HEADER_SIZE + size,
        forall|i: int| 0 <= i < ps.len() ==> #[trigger] ps[i].len() + FRAME_OVERHEAD < BLOCK_SIZE,
        forall|k: int|
            0 <= k <= ps.len() ==> (#[trigger] append_all(h, size, img, ps.subrange(0, k))).0.tail
                < size,
    ensures
        ({
            let (h2, im) = append_all(h, size, img, ps);
            forward_walk(im, size, h2.head as int, h2.tail as int) == ps
        }),
{
    lemma_appends_walk_forward(h, size, img, ps);
    let (cs, es) = lemma_appends_lay_blocks(h, size, img, ps);
    let (h2, im) = append_all(h, size, img, ps);
    assert(forward_walk(im, size, 0, h2.tail as int) == ps + forward_walk(im, size, h2.tail as int, h2.tail as int));
    assert(ps + forward_walk(im, size, h2.tail as int, h2.tail as int) =~= ps);
}

/// Where recovery ends, as the tail and the last transaction id accepted,
/// when the scan (`probe`, then `accept` with the size and transaction id
/// read at the probed position) is driven over a file image whose stored
/// tail is `st`, from the scan at `nt` after transaction `tx`.
pub open spec fn recovery_scan(img: Seq<u8>, size: int, st: int, nt: int, tx: u32) -> (int, u32)
    decreases block_end(st) - nt,
{
    if nt > block_end(st) || block_end(nt) - nt < 4 {
        (nt, tx)
    } else {
        let pos = spec_file_off(size, nt);
        let fsize = u32_at(img, pos);
        let next = u32_at(img, pos + 4);
        if fsize == 0 || next != next_trans_id(tx) {
            (nt, tx)
        } else if nt + fsize > block_end(st) {
            (nt + fsize, next)
        } else {
            recovery_scan(img, size, st, nt + fsize, next)
        }
    }
}

/// The recovery scan over what appends within the first block left: on any
/// image that holds the same bytes below the tail, the scan from the start
/// accepts every appended entry; above the tail the image is as it was.
#[verifier::rlimit(60)]
#[verifier::spinoff_prover]
proof fn lemma_appends_scan(h: JournalHeader, size: int, img: Seq<u8>, ps: Seq<Seq<u8>>)
    requires
        h.tail == 0,
        h.head == 0,
        0 < size,
        size % (BLOCK_SIZE as int) == 0,
        HEADER_SIZE + size + 2 * BLOCK_SIZE <= u64::MAX,
        img.len() == HEADER_SIZE + size,
        forall|i: int| 0 <= i < ps.len() ==> #[trigger] ps[i].len() + FRAME_OVERHEAD < BLOCK_SIZE,
        forall|k: int|
            0 <= k <= ps.len() ==> (#[trigger] append_all(h, size, img, ps.subrange(0, k))).0.tail
                < BLOCK_SIZE,
    ensures
        ({
            let (h2, im) = append_all(h, size, img, ps);
            &&& im.len() == img.len()
            &&& forall|i: int| HEADER_SIZE + h2.tail <= i < img.len() ==> #[trigger] im[i] == img[i]
            &&& forall|img2: Seq<u8>|
                img2.len() == im.len() && img2.subrange(HEADER_SIZE as int, HEADER_SIZE + h2.tail)
                    == im.subrange(HEADER_SIZE as int, HEADER_SIZE + h2.tail)
                    ==> #[trigger] recovery_scan(img2, size, 0, 0, prev_trans_id(h.trans_ctr))
                    == recovery_scan(img2, size, 0, h2.tail as int, prev_trans_id(h2.trans_ctr))
        }),
    decreases ps.len(),
{
    let bs = BLOCK_SIZE as int;
    assert(bs <= size) by (nonlinear_arith)
        requires
            size % bs == 0,
            0 < size,
            bs > 0,
    ;
    assert forall|k: int| 0 <= k <= ps.len() implies (#[trigger] append_all(
        h,
        size,
        img,
        ps.subrange(0, k),
    )).0.tail < size by {}
    let (cs0, es0) = lemma_appends_lay_blocks(h, size, img, ps);
    if ps.len() == 0 {
        return;
    }
    let pp = ps.drop_last();
    let p = ps.last();
    assert forall|i: int| 0 <= i < pp.len() implies #[trigger] pp[i].len() + FRAME_OVERHEAD
        < BLOCK_SIZE by {
        assert(pp[i] == ps[i]);
    }
    assert forall|k: int| 0 <= k <= pp.len() implies (#[trigger] append_all(
        h,
        size,
        img,
        pp.subrange(0, k),
    )).0.tail < BLOCK_SIZE by {
        assert(pp.subrange(0, k) =~= ps.subrange(0, k));
    }
    lemma_appends_scan(h, size, img, pp);
    let (cs, es) = lemma_appends_lay_blocks(h, size, img, pp);
    let (h1, im1) = append_all(h, size, img, pp);
    assert(ps.subrange(0, pp.len() as int) =~= pp);
    assert(ps.subrange(0, ps.len() as int) =~= ps);
    let tt = h1.tail as int;
    let (h2, im) = append_all(h, size, img, ps);
    let t2 = h2.tail as int;
    assert(tt < bs && t2 < bs);
    assert(ps[ps.len() - 1].len() + FRAME_OVERHEAD < BLOCK_SIZE);
    let n = p.len() + FRAME_OVERHEAD;
    let tid = h1.trans_ctr;
    let fr = spec_encode_frame(tid, p);
    lemma_frame_shape(tid, p);
    lemma_append_within_block(h1, size, p.len() as int);
    lemma_block_end(tt);
    let ws = append_writes(h1, size, p);
    assert(h2 == header_after_append(h1, size, p.len() as int));
    assert(im == apply_writes(im1, ws));
    assert(tt % size == tt) by (nonlinear_arith)
        requires
            0 <= tt < size,
    ;
    lemma_start_of_block(0, tt);
    assert(block_end(tt) == bs);
    assert(!needs_new_block(h1, n));
    assert(header_before_entry(h1, size, n) == h1);
    let w = (HEADER_SIZE + tt, fr);
    assert(ws =~= seq![w]);
    assert(ws.drop_last() =~= Seq::<(int, Seq<u8>)>::empty());
    assert(apply_writes(im1, ws.drop_last()) == im1);
    assert(im == write_at(im1, HEADER_SIZE + tt, fr));
    lemma_write_at(im1, HEADER_SIZE + tt, fr);
    assert(t2 == tt + n);
    lemma_u32_le_roundtrip(n as u32);
    lemma_u32_le_roundtrip(tid);
    assert(fr.subrange(0, 4) =~= spec_u32_to_le_bytes(n as u32));
    assert(fr.subrange(4, 8) =~= spec_u32_to_le_bytes(tid));
    assert(h2.trans_ctr == next_trans_id(tid));
    assert(prev_trans_id(next_trans_id(tid)) == tid);
    assert(next_trans_id(prev_trans_id(tid)) == tid);
    assert forall|img2: Seq<u8>|
        img2.len() == im.len() && img2.subrange(HEADER_SIZE as int, HEADER_SIZE + t2)
            == im.subrange(HEADER_SIZE as int, HEADER_SIZE + t2) implies #[trigger] recovery_scan(
        img2,
        size,
        0,
        0,
        prev_trans_id(h.trans_ctr),
    ) == recovery_scan(img2, size, 0, t2, prev_trans_id(h2.trans_ctr)) by {
        let sub2 = img2.subrange(HEADER_SIZE as int, HEADER_SIZE + t2);
        let sub = im.subrange(HEADER_SIZE as int, HEADER_SIZE + t2);
        assert forall|i: int| HEADER_SIZE <= i < HEADER_SIZE + t2 implies img2[i] == im[i] by {
            assert(sub2[i - HEADER_SIZE] == sub[i - HEADER_SIZE]);
        }
        assert(img2.subrange(HEADER_SIZE as int, HEADER_SIZE + tt) =~= im1.subrange(
            HEADER_SIZE as int,
            HEADER_SIZE + tt,
        ));
        assert(img2.len() == im1.len());
        assert(recovery_scan(img2, size, 0, 0, prev_trans_id(h.trans_ctr)) == recovery_scan(
            img2,
            size,
            0,
            tt,
            prev_trans_id(tid),
        ));
        assert(img2.subrange(HEADER_SIZE + tt, HEADER_SIZE + tt + 4) =~= fr.subrange(0, 4));
        assert(img2.subrange(HEADER_SIZE + tt + 4, HEADER_SIZE + tt + 8) =~= fr.subrange(4, 8));
        assert(u32_at(img2, HEADER_SIZE + tt) == n);
        assert(u32_at(img2, HEADER_SIZE + tt + 4) == tid);
        assert(block_end(0) == bs);
        assert(recovery_scan(img2, size, 0, tt, prev_trans_id(tid)) == recovery_scan(
            img2,
            size,
            0,
            t2,
            tid,
        ));
    }
}

/// Recovery finds what was appended: a fresh journal whose header was stored
/// at the start takes appends that stay within its first block; when the
/// file, where the last entry ends, holds a zero size (as a fresh file of
/// zeros does) or too little room for one, the recovery scan from the
/// stored header, driven over the file that the appends' writes leave,
/// accepts every appended entry: it ends at the journal's tail, and the
/// recovered counter is the journal's counter.
pub proof fn lemma_recovery_finds_appends(
    h: JournalHeader,
    size: int,
    img: Seq<u8>,
    ps: Seq<Seq<u8>>,
)
    requires
        h.tail == 0,
        h.head == 0,
        0 < size,
        size % (BLOCK_SIZE as int) == 0,
        HEADER_SIZE + size + 2 * BLOCK_SIZE <= u64::MAX,
        img.len() == HEADER_SIZE + size,
        forall|i: int| 0 <= i < ps.len() ==> #[trigger] ps[i].len() + FRAME_OVERHEAD < BLOCK_SIZE,
        forall|k: int|
            0 <= k <= ps.len() ==> (#[trigger] append_all(h, size, img, ps.subrange(0, k))).0.tail
                < BLOCK_SIZE,
        ({
            let t = append_all(h, size, img, ps).0.tail as int;
            block_end(t) - t < 4 || u32_at(img, HEADER_SIZE + t) == 0
        }),
    ensures
        ({
            let (h2, im) = append_all(h, size, img, ps);
            let (nt, tx) = recovery_scan(im, size, h.tail as int, h.tail as int, prev_trans_id(h.trans_ctr));
            &&& nt == h2.tail
            &&& next_trans_id(tx) == h2.trans_ctr
        }),
{
    lemma_appends_scan(h, size, img, ps);
    let (h2, im) = append_all(h, size, img, ps);
    let t = h2.tail as int;
    let bs = BLOCK_SIZE as int;
    assert(ps.subrange(0, ps.len() as int) =~= ps);
    assert(t < bs);
    assert(bs <= size) by (nonlinear_arith)
        requires
            size % bs == 0,
            0 < size,
            bs > 0,
    ;
    assert(t % size == t) by (nonlinear_arith)
        requires
            0 <= t < size,
    ;
    assert(recovery_scan(im, size, 0, 0, prev_trans_id(h.trans_ctr)) == recovery_scan(
        im,
        size,
        0,
        t,
        prev_trans_id(h2.trans_ctr),
    ));
    lemma_block_end(t);
    lemma_start_of_block(0, t);
    if block_end(t) - t >= 4 {
        assert(t + 4 <= size);
        let a = im.subrange(HEADER_SIZE + t, HEADER_SIZE + t + 4);
        let b = img.subrange(HEADER_SIZE + t, HEADER_SIZE + t + 4);
        assert forall|j: int| 0 <= j < 4 implies #[trigger] a[j] == b[j] by {
            assert(HEADER_SIZE + h2.tail <= HEADER_SIZE + t + j < img.len());
            assert(im[HEADER_SIZE + t + j] == img[HEADER_SIZE + t + j]);
        }
        assert(im.subrange(HEADER_SIZE + t, HEADER_SIZE + t + 4) =~= img.subrange(
            HEADER_SIZE + t,
            HEADER_SIZE + t + 4,
        ));
    }
}

} // verus!

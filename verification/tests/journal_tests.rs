use fsyncd::journal::{
    align_down, align_up_always, decode_block, decode_header, encode_frame, encode_header,
    BlockError, ForwardStep, Journal, JournalHeader, ReverseStep, BLOCK_SIZE, FRAME_OVERHEAD,
    HEADER_SIZE,
};

#[test]
fn align_up_always_moves_past_multiples() {
    assert_eq!(align_up_always(0, 8), 8);
    assert_eq!(align_up_always(7, 8), 8);
    assert_eq!(align_up_always(8, 8), 16);
    assert_eq!(align_up_always(9, 8), 16);
}

#[test]
fn align_down_keeps_multiples() {
    assert_eq!(align_down(9, 8), 8);
    assert_eq!(align_down(16, 8), 16);
    assert_eq!(align_down(0, 8), 0);
}

#[test]
fn header_reads_back_as_written() {
    let h = JournalHeader { tail: 0x0102_0304_0506_0708, head: 42, trans_ctr: 0xdead_beef };
    let bytes = encode_header(&h);
    assert_eq!(bytes.len() as u64, HEADER_SIZE);
    assert_eq!(&bytes[0..8], &0x0102_0304_0506_0708u64.to_le_bytes());
    let back = decode_header(&bytes).unwrap();
    assert_eq!(back.tail, h.tail);
    assert_eq!(back.head, h.head);
    assert_eq!(back.trans_ctr, h.trans_ctr);
}

#[test]
fn short_header_is_refused() {
    assert!(decode_header(&[0u8; 19]).is_none());
}

#[test]
fn frame_layout_and_checksum() {
    let f = encode_frame(5, b"abc");
    assert_eq!(f.len() as u64, 3 + FRAME_OVERHEAD);
    assert_eq!(&f[0..4], &15u32.to_le_bytes());
    assert_eq!(&f[4..8], &5u32.to_le_bytes());
    assert_eq!(&f[8..11], b"abc");
    let crc = crc::crc32::checksum_ieee(&f[0..11]);
    assert_eq!(&f[11..15], &crc.to_le_bytes());
    // the checksum is not the bytes it covers
    assert_ne!(&f[11..15], &f[0..4]);
}

fn block_with(frames: &[Vec<u8>]) -> (Vec<u8>, u64) {
    let mut block = vec![0u8; BLOCK_SIZE as usize];
    let mut pos = 0usize;
    for f in frames {
        block[pos..pos + f.len()].copy_from_slice(f);
        pos += f.len();
    }
    (block, pos as u64)
}

#[test]
fn frames_decode_back_to_payloads() {
    let a = encode_frame(1, b"first");
    let b = encode_frame(2, b"second entry");
    let (block, end) = block_with(&[a, b]);
    let (payloads, err) = decode_block(&block, end);
    assert_eq!(err, None);
    assert_eq!(payloads, vec![b"first".to_vec(), b"second entry".to_vec()]);
}

#[test]
fn corrupted_frame_is_a_checksum_mismatch() {
    let mut a = encode_frame(1, b"first");
    a[9] ^= 0xff;
    let (block, end) = block_with(&[a]);
    let (payloads, err) = decode_block(&block, end);
    assert!(payloads.is_empty());
    assert_eq!(err, Some(BlockError::ChecksumMismatch));
}

#[test]
fn oversized_frame_is_refused() {
    let mut block = vec![0u8; BLOCK_SIZE as usize];
    block[0..4].copy_from_slice(&(BLOCK_SIZE as u32 + 1).to_le_bytes());
    let (payloads, err) = decode_block(&block, BLOCK_SIZE);
    assert!(payloads.is_empty());
    assert_eq!(err, Some(BlockError::EntryTooLarge));
}

#[test]
fn appending_writes_the_frame_at_the_tail() {
    let mut j = Journal::new(HEADER_SIZE + 2 * BLOCK_SIZE, false);
    assert_eq!(j.size(), 2 * BLOCK_SIZE);
    let writes = j.write_entry(b"hello");
    assert_eq!(writes.len(), 1);
    assert_eq!(writes[0].offset, HEADER_SIZE);
    assert_eq!(writes[0].bytes, encode_frame(0, b"hello"));
    let h = j.header();
    assert_eq!(h.tail, 5 + FRAME_OVERHEAD);
    assert_eq!(h.head, 0);
    assert_eq!(h.trans_ctr, 1);
    let writes = j.write_entry(b"again");
    assert_eq!(writes[0].offset, HEADER_SIZE + 5 + FRAME_OVERHEAD);
    assert_eq!(j.header().trans_ctr, 2);
}

#[test]
fn header_write_goes_to_offset_zero() {
    let j = Journal::new(HEADER_SIZE + BLOCK_SIZE, true);
    let w = j.write_header();
    assert_eq!(w.offset, 0);
    assert_eq!(w.bytes, encode_header(&JournalHeader { tail: 0, head: 0, trans_ctr: 0 }));
    assert!(j.sync());
    assert_eq!(j.file_off(BLOCK_SIZE + 3), HEADER_SIZE + 3);
}

fn put(file: &mut Vec<u8>, offset: u64, bytes: &[u8]) {
    let o = offset as usize;
    file[o..o + bytes.len()].copy_from_slice(bytes);
}

fn u32_at(file: &[u8], pos: u64) -> u32 {
    let p = pos as usize;
    u32::from_le_bytes([file[p], file[p + 1], file[p + 2], file[p + 3]])
}

fn forward(file: &[u8], j: &Journal) -> Vec<Vec<u8>> {
    let mut it = j.read_forward();
    let mut out = Vec::new();
    loop {
        let pos = match it.begin_next() {
            ForwardStep::Done => break,
            ForwardStep::ReadEntry(p) => p,
            ForwardStep::ReadMarker(p) => it.marker_read(u32_at(file, p)),
        };
        let fsize = u32_at(file, pos);
        out.push(file[pos as usize + 8..pos as usize + fsize as usize - 4].to_vec());
        it.entry_read(fsize);
    }
    out
}

fn reverse(file: &[u8], j: &Journal) -> Vec<Vec<u8>> {
    let mut it = j.read_reverse();
    let mut out = Vec::new();
    loop {
        match it.step() {
            ReverseStep::Done => break,
            ReverseStep::Entry(p) => out.push(p),
            ReverseStep::ReadBlock { file_offset, .. } => {
                let o = file_offset as usize;
                assert_eq!(it.load_block(&file[o..o + BLOCK_SIZE as usize]), None);
            }
        }
    }
    out
}

#[test]
fn entries_read_back_both_ways_and_after_recovery() {
    let len = HEADER_SIZE + 2 * BLOCK_SIZE;
    let mut file = vec![0u8; len as usize];
    let mut j = Journal::new(len, false);
    let w = j.write_header();
    put(&mut file, w.offset, &w.bytes);
    let mut written = Vec::new();
    for i in 0..100u32 {
        let payload = format!("Hello {}", i).into_bytes();
        for w in j.write_entry(&payload) {
            put(&mut file, w.offset, &w.bytes);
        }
        written.push(payload);
    }
    assert_eq!(forward(&file, &j), written);
    let mut newest_first = written.clone();
    newest_first.reverse();
    assert_eq!(reverse(&file, &j), newest_first);

    // The stored header still says the journal is empty; recovery finds the
    // entries written after it.
    let stored = decode_header(&file[..HEADER_SIZE as usize]).unwrap();
    assert_eq!(stored, JournalHeader { tail: 0, head: 0, trans_ctr: 0 });
    let mut scan = Journal::open(stored, len, false);
    while let Some(pos) = scan.probe() {
        if !scan.accept(u32_at(&file, pos), u32_at(&file, pos + 4)) {
            break;
        }
    }
    let r = scan.finish();
    assert_eq!(r.header(), j.header());
    assert_eq!(forward(&file, &r), written);
}

use fsyncd::protocol::entry_passes;
use fsyncd::protocol::{
    build_ready, rsync_step, transport, RsyncStep, Transport,
    bridge_chunk, check_ack, client_reaction, handshake, server_reaction, AckMsg,
    ClientReaction, FsyncerMsg, Handshake, InitMsg, ServerReaction, comp_from_names, frame, frame_len, keep_entry, mode_from_name,
    route, rt_comp, stream_comp, sync_acks, AckCheck, Chunk, ClientAck, ClientMode, CompMode,
    Options, Route, RtComp, StreamComp, INITIAL_RSYNC, RT_DSSC_CHUNKED, RT_DSSC_ZSTD,
    STREAM_LZ4, STREAM_MASK, STREAM_ZSTD,
};
use fsyncd::util::{human_size_fits, parse_human_size, zrld, zrle, ErrorOrOk};
use fsyncd::vfs::VFSCall;

#[test]
fn sizes_with_suffixes() {
    assert_eq!(parse_human_size("64K"), Some(64 * 1024));
    assert_eq!(parse_human_size("64k"), Some(64 * 1024));
    assert_eq!(parse_human_size("2M"), Some(2 * 1024 * 1024));
    assert_eq!(parse_human_size("3g"), Some(3 * 1024 * 1024 * 1024));
    assert_eq!(parse_human_size("123"), Some(123));
    assert_eq!(parse_human_size("+5"), Some(5));
    assert_eq!(parse_human_size("0"), Some(0));
}

#[test]
fn sizes_that_do_not_parse() {
    assert_eq!(parse_human_size("K"), None);
    assert_eq!(parse_human_size("abc"), None);
    assert_eq!(parse_human_size("-1"), None);
    assert_eq!(parse_human_size("+"), None);
    assert_eq!(parse_human_size("1.5M"), None);
    assert_eq!(parse_human_size("12T"), None);
    assert_eq!(parse_human_size("99999999999999999999999"), None);
}

#[test]
fn zero_runs_are_expanded() {
    assert_eq!(zrld(&[1, 2, 0, 3, 4], None), vec![1, 2, 0, 0, 0, 4]);
    assert_eq!(zrld(&[0, 2, 0, 1], Some(8)), vec![0, 0, 0]);
    assert_eq!(zrld(&[], None), Vec::<u8>::new());
    assert_eq!(zrld(&[7, 0, 0], None), vec![7]);
}

#[test]
fn test_zrle() {
    let mut data = vec![0, 1, 0, 1, 0, 1, 2, 3, 0, 0];
    assert_eq!(zrle(&mut data), None);
    assert_eq!(data, vec![0, 1, 0, 1, 0, 1, 2, 3, 0, 0]);
}

#[test]
fn a_failed_encoding_leaves_what_it_wrote_before_the_failure() {
    // the first run of two zeros is written as [0, 2]; the single zero after
    // the 7 cannot be encoded with nothing saved
    let mut data = vec![0, 0, 7, 0, 8];
    assert_eq!(zrle(&mut data), None);
    assert_eq!(data, vec![0, 2, 7, 0, 8]);
}

#[test]
fn zero_runs_are_encoded_in_place() {
    let mut data = vec![0, 0, 0, 5, 6, 0, 0];
    assert_eq!(zrle(&mut data), Some(6));
    assert_eq!(&data[..6], &[0, 3, 5, 6, 0, 2]);
    assert_eq!(zrld(&data[..6], None), vec![0, 0, 0, 5, 6, 0, 0]);
    let mut empty: Vec<u8> = Vec::new();
    assert_eq!(zrle(&mut empty), Some(0));
    let mut long = vec![0u8; 300];
    long.push(9);
    assert_eq!(zrle(&mut long), Some(5));
    assert_eq!(&long[..5], &[0, 255, 0, 45, 9]);
}

#[test]
fn sizes_that_would_overflow_are_detected() {
    assert!(human_size_fits("64K"));
    assert!(human_size_fits("abc"));
    assert!(!human_size_fits("18446744073709551615K"));
}

#[test]
fn either_side_of_a_result() {
    let a: Result<u8, u8> = Ok(3);
    let b: Result<u8, u8> = Err(4);
    assert_eq!(a.err_or_ok(), 3);
    assert_eq!(b.err_or_ok(), 4);
}

fn fsync() -> VFSCall {
    VFSCall::fsync { path: b"/f".to_vec(), isdatasync: 0 }
}

fn chmod() -> VFSCall {
    VFSCall::chmod { path: b"/f".to_vec(), mode: 0o644 }
}

#[test]
fn operations_are_routed_by_mode() {
    assert_eq!(route(ClientMode::MODE_CONTROL, &chmod()), Route::Skip);
    assert_eq!(route(ClientMode::MODE_SYNC, &chmod()), Route::Sync);
    assert_eq!(route(ClientMode::MODE_SEMISYNC, &chmod()), Route::Sync);
    assert_eq!(route(ClientMode::MODE_ASYNC, &fsync()), Route::Async);
    assert_eq!(route(ClientMode::MODE_FLUSHSYNC, &chmod()), Route::Async);
    assert_eq!(route(ClientMode::MODE_FLUSHSYNC, &fsync()), Route::Sync);
}

#[test]
fn acknowledgements_owed_by_mode() {
    assert_eq!(sync_acks(ClientMode::MODE_SEMISYNC), (true, false));
    assert_eq!(sync_acks(ClientMode::MODE_SYNC), (false, true));
    assert_eq!(sync_acks(ClientMode::MODE_FLUSHSYNC), (false, true));
    assert_eq!(sync_acks(ClientMode::MODE_ASYNC), (false, false));
}

#[test]
fn answers_are_judged_against_the_servers_result() {
    assert_eq!(check_ack(None, 0), AckCheck::NoResponse);
    assert_eq!(check_ack(Some(ClientAck::Dead), 0), AckCheck::Dead);
    assert_eq!(check_ack(Some(ClientAck::RetCode(-2)), 0), AckCheck::Mismatch(-2));
    assert_eq!(check_ack(Some(ClientAck::RetCode(5)), 5), AckCheck::Agrees);
    assert_eq!(check_ack(Some(ClientAck::Ack), 7), AckCheck::Agrees);
}

#[test]
fn modes_by_name() {
    assert_eq!(mode_from_name("sync"), Some(ClientMode::MODE_SYNC));
    assert_eq!(mode_from_name("async"), Some(ClientMode::MODE_ASYNC));
    assert_eq!(mode_from_name("semi"), Some(ClientMode::MODE_SEMISYNC));
    assert_eq!(mode_from_name("flush"), Some(ClientMode::MODE_FLUSHSYNC));
    assert_eq!(mode_from_name("semisync"), None);
    assert_eq!(mode_from_name("flushsync"), None);
}

#[test]
fn compression_by_name() {
    assert_eq!(comp_from_names("default", "default").bits, STREAM_LZ4 | RT_DSSC_ZSTD);
    assert_eq!(comp_from_names("zstd", "chunked").bits, STREAM_ZSTD | RT_DSSC_CHUNKED);
    assert_eq!(comp_from_names("none", "none").bits, 0);
    assert_eq!(comp_from_names("lz4", "zstd").bits, STREAM_LZ4 | RT_DSSC_ZSTD);
}

#[test]
fn compressors_chosen_from_flags() {
    let both = CompMode { bits: STREAM_ZSTD | STREAM_LZ4 | RT_DSSC_ZSTD | RT_DSSC_CHUNKED };
    assert_eq!(stream_comp(both), StreamComp::Zstd);
    assert_eq!(rt_comp(both), RtComp::Chunked);
    assert_eq!(stream_comp(CompMode { bits: STREAM_LZ4 }), StreamComp::Lz4);
    assert_eq!(rt_comp(CompMode::empty()), RtComp::Plain);
    assert!(both.intersects(STREAM_MASK));
    assert!(!CompMode::empty().intersects(STREAM_MASK));
    let mut c = CompMode::empty();
    c.insert(STREAM_LZ4);
    assert!(c.contains(STREAM_LZ4));
    assert!(Options { bits: INITIAL_RSYNC }.contains(INITIAL_RSYNC));
    assert!(!Options::empty().contains(INITIAL_RSYNC));
}

#[test]
fn frames_carry_a_big_endian_length() {
    let f = frame(&vec![9, 8, 7]);
    assert_eq!(f, vec![0, 0, 0, 3, 9, 8, 7]);
    assert_eq!(frame_len(&f), 3);
    assert_eq!(frame_len(&[0x01, 0x02, 0x03, 0x04]), 0x0102_0304);
    assert_eq!(bridge_chunk(&[0, 0, 0, 0]), Chunk::End);
    assert_eq!(bridge_chunk(&[0, 0, 1, 0]), Chunk::Data(256));
}

#[test]
fn journal_filter_decisions() {
    assert!(keep_entry(false, false, false, false));
    assert!(keep_entry(true, true, false, false));
    assert!(keep_entry(true, false, true, false));
    assert!(!keep_entry(true, false, false, false));
    assert!(keep_entry(true, false, false, true));
    assert!(!keep_entry(true, false, true, true));
}

fn init(mode: ClientMode, dsthash: u64, options: u32) -> InitMsg {
    InitMsg {
        mode,
        dsthash,
        compress: CompMode { bits: 0 },
        iolimit_bps: 0,
        options: Options { bits: options },
    }
}

#[test]
fn replicas_are_checked_before_they_are_served() {
    let m = FsyncerMsg::InitMsg(init(ClientMode::MODE_SYNC, 7, 0));
    assert_eq!(handshake(&m, false, None), Handshake::NeedHash);
    assert_eq!(handshake(&m, false, Some(7)), Handshake::Accept { rsync: false });
    assert_eq!(handshake(&m, false, Some(8)), Handshake::HashMismatch);
    assert_eq!(handshake(&m, true, None), Handshake::Accept { rsync: false });
    let m = FsyncerMsg::InitMsg(init(ClientMode::MODE_CONTROL, 7, 0));
    assert_eq!(handshake(&m, false, None), Handshake::Accept { rsync: false });
    let m = FsyncerMsg::InitMsg(init(ClientMode::MODE_ASYNC, 7, INITIAL_RSYNC));
    assert_eq!(handshake(&m, false, None), Handshake::Accept { rsync: true });
    assert_eq!(handshake(&FsyncerMsg::NOP, false, None), Handshake::NotInit);
}

#[test]
fn replicas_answer_by_mode() {
    let op = FsyncerMsg::SyncOp(VFSCall::fsync { path: b"/a".to_vec(), isdatasync: 0 }, 9);
    assert_eq!(
        client_reaction(ClientMode::MODE_SEMISYNC, &op),
        ClientReaction::Apply { ack_first: true, report: false, tid: 9 }
    );
    assert_eq!(
        client_reaction(ClientMode::MODE_SYNC, &op),
        ClientReaction::Apply { ack_first: false, report: true, tid: 9 }
    );
    assert_eq!(
        client_reaction(ClientMode::MODE_FLUSHSYNC, &op),
        ClientReaction::Apply { ack_first: false, report: true, tid: 9 }
    );
    let op = FsyncerMsg::AsyncOp(VFSCall::fsync { path: b"/a".to_vec(), isdatasync: 1 });
    assert_eq!(client_reaction(ClientMode::MODE_ASYNC, &op), ClientReaction::ApplyQuietly);
    assert_eq!(client_reaction(ClientMode::MODE_SYNC, &FsyncerMsg::Cork(4)), ClientReaction::AckCork(4));
    assert_eq!(client_reaction(ClientMode::MODE_SYNC, &FsyncerMsg::NOP), ClientReaction::Ignore);
    assert_eq!(client_reaction(ClientMode::MODE_SYNC, &FsyncerMsg::Uncork), ClientReaction::Ignore);
    assert_eq!(client_reaction(ClientMode::MODE_SYNC, &FsyncerMsg::AckCork(1)), ClientReaction::Unexpected);
}

#[test]
fn server_delivers_answers() {
    assert_eq!(
        server_reaction(&FsyncerMsg::AckCork(3)),
        ServerReaction::Deliver { tid: 3, ack: ClientAck::Ack, create: false }
    );
    assert_eq!(
        server_reaction(&FsyncerMsg::Ack(AckMsg { retcode: ClientAck::RetCode(-2), tid: 5 })),
        ServerReaction::Deliver { tid: 5, ack: ClientAck::RetCode(-2), create: true }
    );
    assert_eq!(server_reaction(&FsyncerMsg::Cork(1)), ServerReaction::Cork);
    assert_eq!(server_reaction(&FsyncerMsg::Uncork), ServerReaction::Uncork);
    assert_eq!(server_reaction(&FsyncerMsg::NOP), ServerReaction::Unexpected);
}

#[test]
fn addresses_name_their_transport() {
    assert_eq!(transport("tcp", Some(9000)), Some(Transport::Tcp { port: 9000 }));
    assert_eq!(transport("tcp", None), Some(Transport::Tcp { port: 2323 }));
    assert_eq!(transport("unix", None), Some(Transport::Unix));
    assert_eq!(transport("stdio", Some(1)), Some(Transport::Stdio));
    assert_eq!(transport("http", None), None);
}

#[test]
fn initial_synchronisation_is_announced_and_done_before_use() {
    let announced = Options { bits: INITIAL_RSYNC };
    let silent = Options { bits: 0 };
    assert_eq!(rsync_step(announced, false), RsyncStep::Run);
    assert_eq!(rsync_step(announced, true), RsyncStep::Done);
    assert_eq!(rsync_step(silent, false), RsyncStep::NotAnnounced);
    assert!(!build_ready(announced, false));
    assert!(build_ready(announced, true));
    assert!(build_ready(silent, false));
}

#[test]
fn encoded_buffers_decode_back() {
    let mut plain = vec![0u8; 300];
    plain.extend_from_slice(&[7, 8, 9]);
    plain.extend_from_slice(&[0; 5]);
    plain.push(1);
    let mut buf = plain.clone();
    let n = zrle(&mut buf).unwrap();
    assert!(n < plain.len());
    assert_eq!(zrld(&buf[..n], Some(plain.len())), plain);
}

#[test]
fn the_path_filter_matches_any_affected_path() {
    let rename = VFSCall::rename { from: b"/docs/a".to_vec(), to: b"/tmp/b".to_vec(), flags: 0 };
    assert_eq!(entry_passes(None, &rename, false), Some(true));
    assert_eq!(entry_passes(None, &rename, true), Some(true));
    assert_eq!(entry_passes(Some("^/tmp/"), &rename, false), Some(true));
    assert_eq!(entry_passes(Some("^/tmp/"), &rename, true), Some(false));
    assert_eq!(entry_passes(Some("^/var/"), &rename, false), Some(false));
    assert_eq!(entry_passes(Some("^/var/"), &rename, true), Some(true));
    assert_eq!(entry_passes(Some("docs/a$"), &rename, false), Some(true));
    assert_eq!(entry_passes(Some("foo(bar"), &rename, false), None);
}

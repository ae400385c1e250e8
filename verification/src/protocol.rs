//! What the server and its replicas send each other, and the decisions
//! around it: which operations a replica gets and whether it acknowledges
//! them, how acknowledgements are judged, how compression is chosen, and the
//! length-prefixed frames that carry messages.
use vstd::prelude::*;
use vstd::bytes::*;
use crate::codec::{u32_be_bytes, read_u32_be, lemma_u32_be_roundtrip};
use crate::vfs::{VFSCall, CallView, spec_affected_paths, byte_strings};

verus! {

/// Kinds of operation on the wire of the first protocol version.
#[derive(Clone, Copy, Debug, PartialEq, Eq, Structural)]
pub enum op_type {
    MKNOD,
    MKDIR,
    UNLINK,
    RMDIR,
    SYMLINK,
    RENAME,
    LINK,
    CHMOD,
    CHOWN,
    TRUNCATE,
    WRITE,
    FALLOCATE,
    SETXATTR,
    REMOVEXATTR,
    CREATE,
    UTIMENS,
}

/// Replica modes of the first protocol version.
#[derive(Clone, Copy, Debug, PartialEq, Eq, Structural)]
pub enum client_mode {
    MODE_ASYNC,
    MODE_SYNC,
    MODE_CONTROL,
}

/// Header of an operation of the first protocol version.
#[derive(Clone, Copy, Debug, PartialEq, Eq, Structural)]
pub struct op_msg {
    pub op_length: u32,
    pub op_type: op_type,
}

/// Greeting of the first protocol version.
#[derive(Clone, Copy, Debug, PartialEq, Eq, Structural)]
pub struct init_msg {
    pub mode: client_mode,
    pub dsthash: u64,
    pub compress: bool,
}

/// Acknowledgement of the first protocol version.
#[derive(Clone, Copy, Debug, PartialEq, Eq, Structural)]
pub struct ack_msg {
    pub retcode: i32,
}

/// How a replica follows the server.
#[derive(Clone, Copy, Debug, PartialEq, Eq, Structural)]
pub enum ClientMode {
    /// Operations are sent and not waited for.
    MODE_ASYNC,
    /// Every operation waits for the replica's result.
    MODE_SYNC,
    /// Every operation waits for the replica to have received it.
    MODE_SEMISYNC,
    /// Only `fsync` waits for the replica's result.
    MODE_FLUSHSYNC,
    /// A connection for control commands only.
    MODE_CONTROL,
}

/// Compression flags.
#[derive(Clone, Copy, Debug, PartialEq, Eq, Structural)]
pub struct CompMode {
    pub bits: u32,
}

pub const RT_DSSC_ZLIB: u32 = 0b000001;
pub const RT_DSSC_CHUNKED: u32 = 0b000010;
pub const RT_DSSC_ZSTD: u32 = 0b000100;
pub const RT_MASK: u32 = 0b000111;
pub const STREAM_ZSTD: u32 = 0b001000;
pub const STREAM_LZ4: u32 = 0b010000;
pub const STREAM_MASK: u32 = 0b011000;

/// Connection options.
#[derive(Clone, Copy, Debug, PartialEq, Eq, Structural)]
pub struct Options {
    pub bits: u32,
}

pub const INITIAL_RSYNC: u32 = 0b000001;

/// What a replica announces when it connects.
#[derive(Clone, Copy, Debug, PartialEq, Eq, Structural)]
pub struct InitMsg {
    pub mode: ClientMode,
    pub dsthash: u64,
    pub compress: CompMode,
    pub iolimit_bps: usize,
    pub options: Options,
}

/// A replica's answer to an operation.
#[derive(Clone, Copy, Debug, PartialEq, Eq, Structural)]
pub enum ClientAck {
    Ack,
    Dead,
    RetCode(i32),
}

#[derive(Clone, Copy, Debug, PartialEq, Eq, Structural)]
pub struct AckMsg {
    pub retcode: ClientAck,
    pub tid: u64,
}

/// Whether a replica connection is still served.
#[derive(Clone, Copy, Debug, PartialEq, Eq, Structural)]
pub enum ClientStatus {
    DEAD,
    ALIVE,
}

/// The messages of the protocol.
#[derive(Debug)]
pub enum FsyncerMsg {
    InitMsg(InitMsg),
    AsyncOp(VFSCall),
    SyncOp(VFSCall, u64),
    Ack(AckMsg),
    Cork(u64),
    AckCork(u64),
    Uncork,
    NOP,
}

impl CompMode {
    pub fn empty() -> (r: CompMode)
        ensures
            r.bits == 0,
    {
        CompMode { bits: 0 }
    }

    /// All of `flag` is set.
    pub fn contains(&self, flag: u32) -> (r: bool)
        ensures
            r == (self.bits & flag == flag),
    {
        self.bits & flag == flag
    }

    /// Some of `flag` is set.
    pub fn intersects(&self, flag: u32) -> (r: bool)
        ensures
            r == (self.bits & flag != 0),
    {
        self.bits & flag != 0
    }

    pub fn insert(&mut self, flag: u32)
        ensures
            final(self).bits == old(self).bits | flag,
    {
        self.bits = self.bits | flag;
    }
}

impl Options {
    pub fn empty() -> (r: Options)
        ensures
            r.bits == 0,
    {
        Options { bits: 0 }
    }

    pub fn contains(&self, flag: u32) -> (r: bool)
        ensures
            r == (self.bits & flag == flag),
    {
        self.bits & flag == flag
    }
}

// ---------------------------------------------------------------------------
// Decisions

/// How an operation goes to a replica.
#[derive(Clone, Copy, Debug, PartialEq, Eq, Structural)]
pub enum Route {
    /// Nothing is sent.
    Skip,
    /// Sent without waiting.
    Async,
    /// Sent, and the server waits for the answer.
    Sync,
}

pub open spec fn spec_route(mode: ClientMode, c: CallView) -> Route {
    if mode == ClientMode::MODE_CONTROL {
        Route::Skip
    } else if mode == ClientMode::MODE_SYNC || mode == ClientMode::MODE_SEMISYNC || (mode
        == ClientMode::MODE_FLUSHSYNC && c is fsync) {
        Route::Sync
    } else {
        Route::Async
    }
}

/// Control connections get nothing; synchronous and semi-synchronous
/// replicas get every operation synchronously, flush-synchronous replicas
/// only `fsync`; everything else goes asynchronously.
pub fn route(mode: ClientMode, call: &VFSCall) -> (r: Route)
    ensures
        r == spec_route(mode, call@),
{
    if mode == ClientMode::MODE_CONTROL {
        return Route::Skip;
    }
    let is_fsync = match call {
        VFSCall::fsync { .. } => true,
        _ => false,
    };
    if mode == ClientMode::MODE_SYNC || mode == ClientMode::MODE_SEMISYNC || (mode
        == ClientMode::MODE_FLUSHSYNC && is_fsync) {
        Route::Sync
    } else {
        Route::Async
    }
}

/// What a replica owes for a synchronous operation: an acknowledgement on
/// receipt (semi-synchronous), and its result after applying it
/// (synchronous and flush-synchronous).
pub fn sync_acks(mode: ClientMode) -> (r: (bool, bool))
    ensures
        r.0 == (mode == ClientMode::MODE_SEMISYNC),
        r.1 == (mode == ClientMode::MODE_SYNC || mode == ClientMode::MODE_FLUSHSYNC),
{
    (mode == ClientMode::MODE_SEMISYNC, mode == ClientMode::MODE_SYNC || mode == ClientMode::MODE_FLUSHSYNC)
}

/// How an answer to a synchronous operation compares with the server's
/// own result.
#[derive(Clone, Copy, Debug, PartialEq, Eq, Structural)]
pub enum AckCheck {
    /// No answer came in time.
    NoResponse,
    /// The replica died first.
    Dead,
    /// The replica's result differs from the server's.
    Mismatch(i32),
    /// Nothing to report.
    Agrees,
}

pub fn check_ack(resp: Option<ClientAck>, ret: i32) -> (r: AckCheck)
    ensures
        r == match resp {
            None => AckCheck::NoResponse,
            Some(ClientAck::Dead) => AckCheck::Dead,
            Some(ClientAck::RetCode(code)) => if code != ret {
                AckCheck::Mismatch(code)
            } else {
                AckCheck::Agrees
            },
            Some(ClientAck::Ack) => AckCheck::Agrees,
        },
{
    match resp {
        None => AckCheck::NoResponse,
        Some(ClientAck::Dead) => AckCheck::Dead,
        Some(ClientAck::RetCode(code)) => if code != ret {
            AckCheck::Mismatch(code)
        } else {
            AckCheck::Agrees
        },
        Some(ClientAck::Ack) => AckCheck::Agrees,
    }
}

/// The replica mode named on the command line; anything but these four
/// is not accepted.
pub open spec fn mode_named(name: Seq<char>) -> Option<ClientMode> {
    if name == "sync"@ {
        Some(ClientMode::MODE_SYNC)
    } else if name == "async"@ {
        Some(ClientMode::MODE_ASYNC)
    } else if name == "semi"@ {
        Some(ClientMode::MODE_SEMISYNC)
    } else if name == "flush"@ {
        Some(ClientMode::MODE_FLUSHSYNC)
    } else {
        None
    }
}

fn chars_eq_lit(a: &str, lit: &str) -> (r: bool)
    requires
        lit.is_ascii(),
    ensures
        r == (a@ == lit@),
{
    let n = a.unicode_len();
    let m = lit.unicode_len();
    if n != m {
        return false;
    }
    let mut i: usize = 0;
    while i < n
        invariant
            n == a@.len(),
            m == lit@.len(),
            n == m,
            0 <= i <= n,
            forall|j: int| 0 <= j < i ==> a@[j] == lit@[j],
        decreases n - i,
    {
        if a.get_char(i) != lit.get_char(i) {
            return false;
        }
        i += 1;
    }
    assert(a@ =~= lit@);
    true
}

/// The mode a replica is started in, by name.
pub fn mode_from_name(name: &str) -> (r: Option<ClientMode>)
    ensures
        r == mode_named(name@),
{
    proof {
        reveal_strlit("sync");
        reveal_strlit("async");
        reveal_strlit("semi");
        reveal_strlit("flush");
    }
    if chars_eq_lit(name, "sync") {
        Some(ClientMode::MODE_SYNC)
    } else if chars_eq_lit(name, "async") {
        Some(ClientMode::MODE_ASYNC)
    } else if chars_eq_lit(name, "semi") {
        Some(ClientMode::MODE_SEMISYNC)
    } else if chars_eq_lit(name, "flush") {
        Some(ClientMode::MODE_FLUSHSYNC)
    } else {
        None
    }
}

pub open spec fn stream_bits(name: Seq<char>) -> u32 {
    if name == "default"@ || name == "lz4"@ {
        STREAM_LZ4
    } else if name == "zstd"@ {
        STREAM_ZSTD
    } else {
        0
    }
}

pub open spec fn rt_bits(name: Seq<char>) -> u32 {
    if name == "default"@ || name == "zstd"@ {
        RT_DSSC_ZSTD
    } else if name == "chunked"@ {
        RT_DSSC_CHUNKED
    } else {
        0
    }
}

/// The compression a replica asks for, from the names of its stream and
/// real-time compressors: `default` or `lz4` streams with LZ4, `zstd` with
/// Zstandard; a `default` or `zstd` real-time compressor is the Zstandard one,
/// `chunked` the chunked one; other names ask for none.
pub fn comp_from_names(stream: &str, rt: &str) -> (r: CompMode)
    ensures
        r.bits == stream_bits(stream@) | rt_bits(rt@),
{
    proof {
        reveal_strlit("default");
        reveal_strlit("lz4");
        reveal_strlit("zstd");
        reveal_strlit("chunked");
    }
    let sb: u32 = if chars_eq_lit(stream, "default") || chars_eq_lit(stream, "lz4") {
        STREAM_LZ4
    } else if chars_eq_lit(stream, "zstd") {
        STREAM_ZSTD
    } else {
        0
    };
    let rb: u32 = if chars_eq_lit(rt, "default") || chars_eq_lit(rt, "zstd") {
        RT_DSSC_ZSTD
    } else if chars_eq_lit(rt, "chunked") {
        RT_DSSC_CHUNKED
    } else {
        0
    };
    let comp = CompMode { bits: sb | rb };
    comp
}

/// The stream compressor that a compression mode selects.
#[derive(Clone, Copy, Debug, PartialEq, Eq, Structural)]
pub enum StreamComp {
    Zstd,
    Lz4,
    Plain,
}

/// The real-time compressor that a compression mode selects.
#[derive(Clone, Copy, Debug, PartialEq, Eq, Structural)]
pub enum RtComp {
    Chunked,
    Zstd,
    Plain,
}

/// Zstandard wins over LZ4 when both are set.
pub fn stream_comp(c: CompMode) -> (r: StreamComp)
    ensures
        r == (if c.bits & STREAM_ZSTD == STREAM_ZSTD {
            StreamComp::Zstd
        } else if c.bits & STREAM_LZ4 == STREAM_LZ4 {
            StreamComp::Lz4
        } else {
            StreamComp::Plain
        }),
{
    if c.contains(STREAM_ZSTD) {
        StreamComp::Zstd
    } else if c.contains(STREAM_LZ4) {
        StreamComp::Lz4
    } else {
        StreamComp::Plain
    }
}

/// The chunked compressor wins over Zstandard when both are set.
pub fn rt_comp(c: CompMode) -> (r: RtComp)
    ensures
        r == (if c.bits & RT_DSSC_CHUNKED == RT_DSSC_CHUNKED {
            RtComp::Chunked
        } else if c.bits & RT_DSSC_ZSTD == RT_DSSC_ZSTD {
            RtComp::Zstd
        } else {
            RtComp::Plain
        }),
{
    if c.contains(RT_DSSC_CHUNKED) {
        RtComp::Chunked
    } else if c.contains(RT_DSSC_ZSTD) {
        RtComp::Zstd
    } else {
        RtComp::Plain
    }
}

// ---------------------------------------------------------------------------
// Connections

/// The server's answer to a replica's first message.
#[derive(Clone, Copy, Debug, PartialEq, Eq, Structural)]
pub enum Handshake {
    /// The first message was not an init message.
    NotInit,
    /// The replica's tree must be compared with the server's: hash the
    /// server's tree, then decide again with the hash.
    NeedHash,
    /// The trees differ; the replica is dropped.
    HashMismatch,
    /// The replica is served, after an initial synchronisation when it asked
    /// for one.
    Accept { rsync: bool },
}

/// Whether the server compares a replica's tree with its own before
/// serving it: not for control connections, not when told not to, and not
/// when the replica asked to be synchronised first.
pub open spec fn needs_hash_check(init: InitMsg, dontcheck: bool) -> bool {
    !(init.mode == ClientMode::MODE_CONTROL || dontcheck || init.options.bits & INITIAL_RSYNC
        == INITIAL_RSYNC)
}

pub open spec fn spec_handshake(first: Option<InitMsg>, dontcheck: bool, srchash: Option<u64>) -> Handshake {
    match first {
        None => Handshake::NotInit,
        Some(init) => if needs_hash_check(init, dontcheck) && srchash is None {
            Handshake::NeedHash
        } else if needs_hash_check(init, dontcheck) && srchash != Some(init.dsthash) {
            Handshake::HashMismatch
        } else {
            Handshake::Accept { rsync: init.options.bits & INITIAL_RSYNC == INITIAL_RSYNC }
        },
    }
}

/// Decides how the server answers a replica's first message, given the
/// hash of its own tree once it was asked for.
pub fn handshake(first: &FsyncerMsg, dontcheck: bool, srchash: Option<u64>) -> (r: Handshake)
    ensures
        r == spec_handshake(
            match first {
                FsyncerMsg::InitMsg(m) => Some(*m),
                _ => None,
            },
            dontcheck,
            srchash,
        ),
{
    let init = match first {
        FsyncerMsg::InitMsg(m) => *m,
        _ => return Handshake::NotInit,
    };
    let check = !(init.mode == ClientMode::MODE_CONTROL || dontcheck || init.options.contains(
        INITIAL_RSYNC,
    ));
    if check {
        match srchash {
            None => return Handshake::NeedHash,
            Some(h) => if h != init.dsthash {
                return Handshake::HashMismatch;
            },
        }
    }
    Handshake::Accept { rsync: init.options.contains(INITIAL_RSYNC) }
}

/// How a replica reaches the server.
#[derive(Clone, Copy, Debug, PartialEq, Eq, Structural)]
pub enum Transport {
    /// A TCP connection to this port.
    Tcp { port: u16 },
    /// A Unix domain socket at the address's path.
    Unix,
    /// Standard input and output.
    Stdio,
}

/// The port a TCP address without one connects to.
pub const DEFAULT_PORT: u16 = 2323;

pub open spec fn spec_transport(scheme: Seq<char>, port: Option<u16>) -> Option<Transport> {
    if scheme == "tcp"@ {
        Some(Transport::Tcp {
            port: match port {
                Some(p) => p,
                None => DEFAULT_PORT,
            },
        })
    } else if scheme == "unix"@ {
        Some(Transport::Unix)
    } else if scheme == "stdio"@ {
        Some(Transport::Stdio)
    } else {
        None
    }
}

/// The transport an address's scheme names: `tcp` (on the address's port,
/// or the default one), `unix` or `stdio`; no other scheme is supported.
pub fn transport(scheme: &str, port: Option<u16>) -> (r: Option<Transport>)
    ensures
        r == spec_transport(scheme@, port),
{
    proof {
        reveal_strlit("tcp");
        reveal_strlit("unix");
        reveal_strlit("stdio");
    }
    if chars_eq_lit(scheme, "tcp") {
        Some(Transport::Tcp {
            port: match port {
                Some(p) => p,
                None => DEFAULT_PORT,
            },
        })
    } else if chars_eq_lit(scheme, "unix") {
        Some(Transport::Unix)
    } else if chars_eq_lit(scheme, "stdio") {
        Some(Transport::Stdio)
    } else {
        None
    }
}

/// What asking a connection under construction for its initial
/// synchronisation does.
#[derive(Clone, Copy, Debug, PartialEq, Eq, Structural)]
pub enum RsyncStep {
    /// It was done already; nothing happens.
    Done,
    /// The server was not told to expect one: a usage error.
    NotAnnounced,
    /// Synchronise now.
    Run,
}

/// A replica synchronises once, and only after announcing it in its init
/// message.
pub fn rsync_step(options: Options, rsynced: bool) -> (r: RsyncStep)
    ensures
        r == (if rsynced {
            RsyncStep::Done
        } else if options.bits & INITIAL_RSYNC != INITIAL_RSYNC {
            RsyncStep::NotAnnounced
        } else {
            RsyncStep::Run
        }),
{
    if rsynced {
        RsyncStep::Done
    } else if !options.contains(INITIAL_RSYNC) {
        RsyncStep::NotAnnounced
    } else {
        RsyncStep::Run
    }
}

/// A connection is ready to be used unless an announced initial
/// synchronisation has not been done.
pub fn build_ready(options: Options, rsynced: bool) -> (r: bool)
    ensures
        r == !(options.bits & INITIAL_RSYNC == INITIAL_RSYNC && !rsynced),
{
    !(options.contains(INITIAL_RSYNC) && !rsynced)
}

/// What a replica does with a message from the server.
#[derive(Clone, Copy, Debug, PartialEq, Eq, Structural)]
pub enum ClientReaction {
    /// Apply the operation: acknowledge its receipt first when `ack_first`,
    /// and report its result under `tid` afterwards when `report`.
    Apply { ack_first: bool, report: bool, tid: u64 },
    /// Apply the operation and answer nothing.
    ApplyQuietly,
    /// Answer a cork request under its id.
    AckCork(u64),
    /// Nothing to do.
    Ignore,
    /// A message a replica does not expect.
    Unexpected,
}

/// Decides what a replica in `mode` does with `msg`: a synchronous
/// operation is acknowledged on receipt by semi-synchronous replicas and
/// answered with its result by synchronous and flush-synchronous ones; an
/// asynchronous operation is applied silently; a cork is acknowledged; an
/// empty message and an uncork are ignored.
pub fn client_reaction(mode: ClientMode, msg: &FsyncerMsg) -> (r: ClientReaction)
    ensures
        r == (match msg {
            FsyncerMsg::SyncOp(_, tid) => ClientReaction::Apply {
                ack_first: mode == ClientMode::MODE_SEMISYNC,
                report: mode == ClientMode::MODE_SYNC || mode == ClientMode::MODE_FLUSHSYNC,
                tid: *tid,
            },
            FsyncerMsg::AsyncOp(_) => ClientReaction::ApplyQuietly,
            FsyncerMsg::Cork(tid) => ClientReaction::AckCork(*tid),
            FsyncerMsg::NOP => ClientReaction::Ignore,
            FsyncerMsg::Uncork => ClientReaction::Ignore,
            _ => ClientReaction::Unexpected,
        }),
{
    match msg {
        FsyncerMsg::SyncOp(_, tid) => {
            let (ack_first, report) = sync_acks(mode);
            ClientReaction::Apply { ack_first, report, tid: *tid }
        },
        FsyncerMsg::AsyncOp(_) => ClientReaction::ApplyQuietly,
        FsyncerMsg::Cork(tid) => ClientReaction::AckCork(*tid),
        FsyncerMsg::NOP => ClientReaction::Ignore,
        FsyncerMsg::Uncork => ClientReaction::Ignore,
        _ => ClientReaction::Unexpected,
    }
}

/// What the server does with a message from a replica.
#[derive(Clone, Copy, Debug, PartialEq, Eq, Structural)]
pub enum ServerReaction {
    /// Wake the operation parked under `tid` with `ack`, where one is
    /// parked (`create` false), or park the answer for it (`create` true).
    Deliver { tid: u64, ack: ClientAck, create: bool },
    /// Stop accepting operations until uncorked.
    Cork,
    /// Accept operations again.
    Uncork,
    /// A message the server does not expect.
    Unexpected,
}

/// Decides what the server does with a replica's message: a cork
/// acknowledgement wakes the corking thread if it is waiting; an answer
/// to an operation is delivered to the operation, kept for it if it is not
/// waiting yet; a cork and an uncork cork and uncork the server.
pub fn server_reaction(msg: &FsyncerMsg) -> (r: ServerReaction)
    ensures
        r == (match msg {
            FsyncerMsg::AckCork(tid) => ServerReaction::Deliver { tid: *tid, ack: ClientAck::Ack, create: false },
            FsyncerMsg::Ack(a) => ServerReaction::Deliver { tid: a.tid, ack: a.retcode, create: true },
            FsyncerMsg::Cork(_) => ServerReaction::Cork,
            FsyncerMsg::Uncork => ServerReaction::Uncork,
            _ => ServerReaction::Unexpected,
        }),
{
    match msg {
        FsyncerMsg::AckCork(tid) => ServerReaction::Deliver { tid: *tid, ack: ClientAck::Ack, create: false },
        FsyncerMsg::Ack(a) => ServerReaction::Deliver { tid: a.tid, ack: a.retcode, create: true },
        FsyncerMsg::Cork(_) => ServerReaction::Cork,
        FsyncerMsg::Uncork => ServerReaction::Uncork,
        _ => ServerReaction::Unexpected,
    }
}

// ---------------------------------------------------------------------------
// Frames

/// A frame: the payload's length as four bytes, most significant first, then
/// the payload.
pub open spec fn spec_frame(payload: Seq<u8>) -> Seq<u8> {
    spec_u32_to_le_bytes(payload.len() as u32).reverse() + payload
}

/// Frames a payload.
pub fn frame(payload: &Vec<u8>) -> (r: Vec<u8>)
    requires
        payload@.len() <= u32::MAX,
    ensures
        r@ == spec_frame(payload@),
{
    let mut r = u32_be_bytes(payload.len() as u32);
    let mut i: usize = 0;
    let ghost h = r@;
    while i < payload.len()
        invariant
            0 <= i <= payload@.len(),
            r@ == h + payload@.subrange(0, i as int),
        decreases payload@.len() - i,
    {
        r.push(payload[i]);
        i += 1;
        assert(r@ =~= h + payload@.subrange(0, i as int));
    }
    assert(payload@.subrange(0, payload@.len() as int) =~= payload@);
    r
}

/// The payload length a frame header announces.
pub fn frame_len(header: &[u8]) -> (r: u32)
    requires
        header@.len() >= 4,
    ensures
        r == spec_u32_from_le_bytes(header@.subrange(0, 4).reverse()),
{
    read_u32_be(header)
}

/// Reading a frame header gives back the length it was written with.
pub proof fn lemma_frame_len(payload: Seq<u8>)
    requires
        payload.len() <= u32::MAX,
    ensures
        spec_frame(payload).len() >= 4,
        spec_u32_from_le_bytes(spec_frame(payload).subrange(0, 4).reverse()) == payload.len(),
        spec_frame(payload).subrange(4, spec_frame(payload).len() as int) == payload,
{
    let n = payload.len() as u32;
    lemma_u32_be_roundtrip(n);
    let h = spec_u32_to_le_bytes(n).reverse();
    assert(spec_frame(payload).subrange(0, 4) =~= h.subrange(0, 4));
    assert(spec_frame(payload).subrange(4, spec_frame(payload).len() as int) =~= payload);
}

/// A chunk on the byte bridge to the file synchroniser: a zero length ends
/// the stream.
#[derive(Clone, Copy, Debug, PartialEq, Eq, Structural)]
pub enum Chunk {
    End,
    Data(u32),
}

pub fn bridge_chunk(header: &[u8]) -> (r: Chunk)
    requires
        header@.len() >= 4,
    ensures
        ({
            let n = spec_u32_from_le_bytes(header@.subrange(0, 4).reverse());
            r == if n == 0 {
                Chunk::End
            } else {
                Chunk::Data(n)
            }
        }),
{
    let n = read_u32_be(header);
    if n == 0 {
        Chunk::End
    } else {
        Chunk::Data(n)
    }
}

/// Whether a journal entry passes a path filter: time stamps and unfiltered
/// views always do; otherwise an entry passes when one of its paths matches,
/// or, with the filter inverted, when none does.
pub fn keep_entry(has_filter: bool, is_time: bool, has_match: bool, inverse: bool) -> (r: bool)
    ensures
        r == (!has_filter || is_time || (has_match != inverse)),
{
    if !has_filter || is_time {
        return true;
    }
    (!has_match && inverse) || (has_match && !inverse)
}

/// Whether `regex::bytes::Regex::new` compiles the pattern (with the
/// default size limit).
pub uninterp spec fn regex_valid(pattern: Seq<char>) -> bool;

/// Whether the regex compiled from the pattern matches somewhere in the
/// haystack (`regex::bytes::Regex::is_match`).
pub uninterp spec fn regex_matches(pattern: Seq<char>, haystack: Seq<u8>) -> bool;

/// Compiles `pattern` with `regex::bytes::Regex::new` and, when that
/// succeeds, tests the haystack with `Regex::is_match`. Trusted: `None`
/// exactly when the pattern does not compile, and otherwise whether the
/// regex matches somewhere in the haystack; both depend on their arguments
/// alone, which is all that is claimed of them.
#[verifier::external_body]
fn regex_is_match(pattern: &str, haystack: &[u8]) -> (r: Option<bool>)
    ensures
        r == (if regex_valid(pattern@) {
            Some(regex_matches(pattern@, haystack@))
        } else {
            None::<bool>
        }),
{
    match regex::bytes::Regex::new(pattern) {
        Ok(re) => Some(re.is_match(haystack)),
        Err(_) => None,
    }
}

/// Whether some path the operation affects matches the pattern.
pub open spec fn some_path_matches(pattern: Seq<char>, c: CallView) -> bool {
    exists|i: int|
        0 <= i < spec_affected_paths(c).len() && #[trigger] regex_matches(
            pattern,
            spec_affected_paths(c)[i],
        )
}

/// Whether a journaled operation passes the view's path filter: with no
/// filter every operation does; with one, `None` when the pattern is not a
/// regex, and otherwise whether one of the operation's paths matches (or,
/// with the filter inverted, none does).
pub fn entry_passes(pattern: Option<&str>, call: &VFSCall, inverse: bool) -> (r: Option<bool>)
    ensures
        r == (match pattern {
            None => Some(true),
            Some(pt) => if regex_valid(pt@) {
                Some(some_path_matches(pt@, call@) != inverse)
            } else {
                None::<bool>
            },
        }),
{
    match pattern {
        None => Some(keep_entry(false, false, false, inverse)),
        Some(pt) => {
            let empty: Vec<u8> = Vec::new();
            if regex_is_match(pt, empty.as_slice()).is_none() {
                return None;
            }
            let paths = call.affected_paths();
            let ghost ps = spec_affected_paths(call@);
            let mut found = false;
            let mut i: usize = 0;
            while i < paths.len()
                invariant
                    regex_valid(pt@),
                    byte_strings(paths@) == ps,
                    ps == spec_affected_paths(call@),
                    0 <= i <= paths@.len(),
                    found == exists|j: int| 0 <= j < i && #[trigger] regex_matches(pt@, ps[j]),
                decreases paths@.len() - i,
            {
                assert(ps[i as int] == paths@[i as int]@);
                let m = regex_is_match(pt, paths[i].as_slice());
                proof {
                    if m == Some(true) {
                        assert(regex_matches(pt@, ps[i as int]));
                    }
                }
                if m == Some(true) {
                    found = true;
                }
                proof {
                    if !found {
                        assert forall|j: int| 0 <= j < i + 1 implies !#[trigger] regex_matches(pt@, ps[j]) by {
                            if j < i {
                            }
                        }
                    }
                }
                i += 1;
            }
            proof {
                assert(ps.len() == paths@.len());
                if found {
                    let j = choose|j: int| 0 <= j < paths@.len() && #[trigger] regex_matches(pt@, ps[j]);
                    assert(0 <= j < spec_affected_paths(call@).len() && regex_matches(pt@, spec_affected_paths(call@)[j]));
                }
            }
            Some(keep_entry(true, false, found, inverse))
        },
    }
}

} // verus!

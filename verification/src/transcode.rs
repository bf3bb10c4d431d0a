//! GoldSrc HLDEMO -> Xash3D IDEM container transcoding.
//!
//! Xash3D cannot open a GoldSrc demo: the containers differ. It does accept
//! [`PROTOCOL_GOLDSRC_VERSION_DEMO`] in `net_protocol`, and then decodes the
//! contained network messages with GoldSrc protocol-48 rules, so only the
//! wrapper has to be rewritten. The frame mapping:
//!
//! | GoldSrc | Xash |
//! |---|---|
//! | `NetworkMessage(Start)` | `dem_usercmd` + `dem_norewind` |
//! | `NetworkMessage(Normal)` | `dem_usercmd` + `dem_read` |
//! | `DemoStart` | `dem_jumptime` |
//! | `NextSection` | `dem_stop` |
//! | `DemoBuffer` | `dem_userdata`, when asked for |
//! | `ConsoleCommand`, `ClientData`, `Event`, `WeaponAnimation`, `Sound` | dropped |
//!
//! Frame times are 32-bit floats; this module takes them as their bit
//! patterns, already made relative to the start of their section.
use vstd::prelude::*;
use crate::bit::le_bytes_u32_spec;
use crate::writer::{ByteWriter, le_bytes_u16_spec, le_bytes_u64_spec, fixed_str_bytes, c_str_len};
use crate::usercmd::{UserCmd, encode_usercmd, pack_bits, usercmd_bits};
use crate::bit::{string_from_utf8_lossy, utf8_lossy};
use crate::netmsg::{NetMessage, messages_bytes, write_netmsg};
use crate::idem::{
    IDEMOHEADER, DEMO_PROTOCOL, PROTOCOL_GOLDSRC_VERSION_DEMO, MAX_INIT_MSG, DEM_NOREWIND, DEM_READ,
    DEM_JUMPTIME, DEM_USERDATA, DEM_USERCMD, DEM_STOP, DEMO_STARTUP, DEMO_NORMAL, FIELD_WIDTH,
    HEADER_SIZE, DEFAULT_HOST_FPS_BITS,
};

verus! {

/// The netchan sequence numbers a GoldSrc network message frame records;
/// `CL_ReadDemoSequence` reads the same seven, in this order.
#[derive(Clone, Copy)]
pub struct SequenceInfo {
    pub incoming_sequence: i32,
    pub incoming_acknowledged: i32,
    pub incoming_reliable_acknowledged: i32,
    pub incoming_reliable_sequence: i32,
    pub outgoing_sequence: i32,
    pub reliable_sequence: i32,
    pub last_reliable_sequence: i32,
}

/// Which section of the demo a network message frame belongs to.
#[derive(Clone, Copy, PartialEq, Eq, Structural)]
pub enum NetworkMessageType {
    Start,
    Normal,
    /// Frame types from 10 up, which GoldSrc reads as network messages.
    Unknown(u8),
}

/// A network message frame's messages, as the demo reader left them.
pub enum MessageData {
    /// The message bytes as recorded, when the demo was read without
    /// decoding them.
    Raw(Vec<u8>),
    /// The decoded messages.
    Parsed(Vec<NetMessage>),
    /// Neither was kept.
    Absent,
}

/// The bytes a frame's messages are written as: the recorded bytes, or the
/// decoded messages written out again; none when neither was kept.
pub open spec fn message_payload(m: MessageData) -> Option<Seq<u8>> {
    match m {
        MessageData::Raw(b) => Some(b@),
        MessageData::Parsed(ms) => Some(messages_bytes(ms@)),
        MessageData::Absent => None,
    }
}

/// What a GoldSrc frame carries, as far as transcoding reads it.
pub enum FrameData {
    NetworkMessage {
        kind: NetworkMessageType,
        sequence_info: SequenceInfo,
        /// The recorded input of the frame's `DemoInfo`.
        usercmd: UserCmd,
        messages: MessageData,
    },
    DemoStart,
    ConsoleCommand,
    ClientData,
    NextSection,
    Event,
    WeaponAnimation,
    Sound,
    DemoBuffer(Vec<u8>),
}

/// One GoldSrc frame.
pub struct Frame {
    /// The frame's time relative to its section's base, as 32-bit float bits.
    pub dt_bits: u32,
    /// The frame number GoldSrc recorded.
    pub frame: i32,
    pub frame_data: FrameData,
}

/// One GoldSrc directory entry (a section of the demo).
pub struct DirectoryEntry {
    /// 0 for the signon section.
    pub type_: i32,
    /// The description field as stored, NUL padding included.
    pub description: Vec<u8>,
    /// The section's playback time, as 32-bit float bits.
    pub track_time_bits: u32,
    pub frames: Vec<Frame>,
}

/// The header fields of a GoldSrc demo that transcoding reads.
pub struct Header {
    pub map_name: Vec<u8>,
    pub game_directory: Vec<u8>,
}

/// A GoldSrc demo, as far as transcoding reads it.
pub struct Demo {
    pub header: Header,
    pub entries: Vec<DirectoryEntry>,
}

/// How to transcode.
pub struct Options {
    /// Written to the IDEM header, as 64-bit float bits. Xash clamps it; 0
    /// plays back in slow motion.
    pub host_fps_bits: u64,
    /// Forward `DemoBuffer` frames as `dem_userdata`.
    pub keep_userdata: bool,
    /// Overrides the gamedir field; `None` keeps the source demo's.
    pub gamedir: Option<String>,
}

impl Default for Options {
    fn default() -> (r: Self)
        ensures
            r.host_fps_bits == DEFAULT_HOST_FPS_BITS,
            !r.keep_userdata,
            r.gamedir is None,
    {
        Options { host_fps_bits: DEFAULT_HOST_FPS_BITS, keep_userdata: false, gamedir: None }
    }
}

/// How many source frames were handled each way.
#[derive(Clone, Copy, PartialEq, Eq, Structural)]
pub struct TranscodeStats {
    /// "NetworkMessage -> dem_usercmd"
    pub usercmd: usize,
    /// "NetworkMessage -> dem_read"
    pub read: usize,
    /// "NetworkMessage -> dem_norewind"
    pub norewind: usize,
    /// "SKIPPED oversize netmsg"
    pub skipped_oversize: usize,
    /// "DemoStart -> dem_jumptime"
    pub jumptime: usize,
    /// "NextSection -> dem_stop"
    pub stop: usize,
    /// "DemoBuffer -> dem_userdata"
    pub userdata: usize,
    /// "dropped ConsoleCommand"
    pub dropped_console_command: usize,
    /// "dropped ClientData"
    pub dropped_client_data: usize,
    /// "dropped Event"
    pub dropped_event: usize,
    /// "dropped WeaponAnimation"
    pub dropped_weapon_animation: usize,
    /// "dropped Sound"
    pub dropped_sound: usize,
    /// "dropped DemoBuffer"
    pub dropped_demo_buffer: usize,
}

/// What the IDEM directory says of one transcoded section.
pub struct EntrySummary {
    pub entrytype: i32,
    pub description: String,
    pub frames: i32,
    pub offset: i32,
    pub length: i32,
    /// The section's playback time, as 32-bit float bits.
    pub playback_time_bits: u32,
}

/// A transcoded demo.
pub struct Output {
    pub bytes: Vec<u8>,
    pub entries: Vec<EntrySummary>,
    pub stats: TranscodeStats,
}

/// Why a demo could not be transcoded.
#[derive(Clone, Copy, PartialEq, Eq, Structural, Debug)]
pub enum TranscodeError {
    /// This frame's network message kept neither its bytes nor its decoded
    /// messages when the demo was read, so there is nothing to write.
    MissingRawPayload(i32),
}

/// The Xash command for a network message frame.
pub open spec fn net_cmd(kind: NetworkMessageType) -> u8 {
    match kind {
        NetworkMessageType::Start => DEM_NOREWIND,
        _ => DEM_READ,
    }
}

/// The little-endian bytes of an `i32`.
pub open spec fn le32(v: i32) -> Seq<u8> {
    le_bytes_u32_spec(v as u32)
}

/// The seven sequence numbers, in `CL_ReadDemoSequence` order.
pub open spec fn sequence_bytes(s: SequenceInfo) -> Seq<u8> {
    le32(s.incoming_sequence) + le32(s.incoming_acknowledged) + le32(
        s.incoming_reliable_acknowledged,
    ) + le32(s.incoming_reliable_sequence) + le32(s.outgoing_sequence) + le32(s.reliable_sequence)
        + le32(s.last_reliable_sequence)
}

/// The `dem_usercmd` frame written ahead of a network message.
pub open spec fn usercmd_frame_bytes(dt_bits: u32, s: SequenceInfo, cmd: UserCmd) -> Seq<u8> {
    let enc = pack_bits(usercmd_bits(cmd));
    seq![DEM_USERCMD] + le_bytes_u32_spec(dt_bits) + le32(s.outgoing_sequence) + le32(
        s.outgoing_sequence,
    ) + le_bytes_u16_spec(enc.len() as u16) + enc
}

/// Whether a frame is a network message whose messages were not kept.
pub open spec fn missing_payload(f: Frame) -> bool {
    match f.frame_data {
        FrameData::NetworkMessage { messages, .. } => message_payload(messages) is None,
        _ => false,
    }
}

/// The IDEM bytes a frame becomes (nothing for a dropped or skipped one).
pub open spec fn frame_bytes(f: Frame, keep_userdata: bool) -> Seq<u8> {
    match f.frame_data {
        FrameData::NetworkMessage { kind, sequence_info, usercmd, messages } => match message_payload(
            messages,
        ) {
            None => Seq::empty(),
            Some(p) => if p.len() > MAX_INIT_MSG {
                Seq::empty()
            } else {
                usercmd_frame_bytes(f.dt_bits, sequence_info, usercmd) + seq![net_cmd(kind)]
                    + le_bytes_u32_spec(f.dt_bits) + sequence_bytes(sequence_info) + le32(
                    p.len() as i32,
                ) + p
            },
        },
        FrameData::DemoStart => seq![DEM_JUMPTIME] + le_bytes_u32_spec(f.dt_bits),
        FrameData::NextSection => seq![DEM_STOP] + le_bytes_u32_spec(f.dt_bits),
        FrameData::DemoBuffer(b) => if keep_userdata {
            seq![DEM_USERDATA] + le_bytes_u32_spec(f.dt_bits) + le32(b@.len() as i32) + b@
        } else {
            Seq::empty()
        },
        _ => Seq::empty(),
    }
}

/// How many IDEM frames a frame becomes.
pub open spec fn frame_count(f: Frame, keep_userdata: bool) -> nat {
    match f.frame_data {
        FrameData::NetworkMessage { messages, .. } => match message_payload(messages) {
            None => 0,
            Some(p) => if p.len() > MAX_INIT_MSG {
                0
            } else {
                2
            },
        },
        FrameData::DemoStart => 1,
        FrameData::NextSection => 1,
        FrameData::DemoBuffer(b) => if keep_userdata {
            1
        } else {
            0
        },
        _ => 0,
    }
}

/// The statistics after handling one more frame.
pub open spec fn stats_step(s: TranscodeStats, f: Frame, keep_userdata: bool) -> TranscodeStats {
    match f.frame_data {
        FrameData::NetworkMessage { kind, messages, .. } => match message_payload(messages) {
            None => s,
            Some(p) => if p.len() > MAX_INIT_MSG {
                TranscodeStats { skipped_oversize: (s.skipped_oversize + 1) as usize, ..s }
            } else if net_cmd(kind) == DEM_READ {
                TranscodeStats {
                    usercmd: (s.usercmd + 1) as usize,
                    read: (s.read + 1) as usize,
                    ..s
                }
            } else {
                TranscodeStats {
                    usercmd: (s.usercmd + 1) as usize,
                    norewind: (s.norewind + 1) as usize,
                    ..s
                }
            },
        },
        FrameData::DemoStart => TranscodeStats { jumptime: (s.jumptime + 1) as usize, ..s },
        FrameData::NextSection => TranscodeStats { stop: (s.stop + 1) as usize, ..s },
        FrameData::DemoBuffer(_) => if keep_userdata {
            TranscodeStats { userdata: (s.userdata + 1) as usize, ..s }
        } else {
            TranscodeStats { dropped_demo_buffer: (s.dropped_demo_buffer + 1) as usize, ..s }
        },
        FrameData::ConsoleCommand => TranscodeStats {
            dropped_console_command: (s.dropped_console_command + 1) as usize,
            ..s
        },
        FrameData::ClientData => TranscodeStats {
            dropped_client_data: (s.dropped_client_data + 1) as usize,
            ..s
        },
        FrameData::Event => TranscodeStats { dropped_event: (s.dropped_event + 1) as usize, ..s },
        FrameData::WeaponAnimation => TranscodeStats {
            dropped_weapon_animation: (s.dropped_weapon_animation + 1) as usize,
            ..s
        },
        FrameData::Sound => TranscodeStats { dropped_sound: (s.dropped_sound + 1) as usize, ..s },
    }
}

/// The sum of all counters.
pub open spec fn stats_total(s: TranscodeStats) -> int {
    s.usercmd + s.read + s.norewind + s.skipped_oversize + s.jumptime + s.stop + s.userdata
        + s.dropped_console_command + s.dropped_client_data + s.dropped_event
        + s.dropped_weapon_animation + s.dropped_sound + s.dropped_demo_buffer
}

/// The IDEM bytes of a run of frames.
pub open spec fn frames_bytes(frames: Seq<Frame>, keep_userdata: bool) -> Seq<u8>
    decreases frames.len(),
{
    if frames.len() == 0 {
        Seq::empty()
    } else {
        frames_bytes(frames.drop_last(), keep_userdata) + frame_bytes(frames.last(), keep_userdata)
    }
}

/// The number of IDEM frames a run of frames becomes.
pub open spec fn frames_count(frames: Seq<Frame>, keep_userdata: bool) -> nat
    decreases frames.len(),
{
    if frames.len() == 0 {
        0
    } else {
        frames_count(frames.drop_last(), keep_userdata) + frame_count(frames.last(), keep_userdata)
    }
}

/// The statistics after a run of frames.
pub open spec fn frames_stats(s: TranscodeStats, frames: Seq<Frame>, keep_userdata: bool) -> TranscodeStats
    decreases frames.len(),
{
    if frames.len() == 0 {
        s
    } else {
        stats_step(frames_stats(s, frames.drop_last(), keep_userdata), frames.last(), keep_userdata)
    }
}

/// The first frame of a run whose messages were not kept.
pub open spec fn first_missing(frames: Seq<Frame>) -> Option<int>
    decreases frames.len(),
{
    if frames.len() == 0 {
        None
    } else {
        match first_missing(frames.drop_last()) {
            Some(k) => Some(k),
            None => if missing_payload(frames.last()) {
                Some(frames.len() - 1)
            } else {
                None
            },
        }
    }
}

/// All counters at zero.
pub open spec fn zero_stats() -> TranscodeStats {
    TranscodeStats {
        usercmd: 0,
        read: 0,
        norewind: 0,
        skipped_oversize: 0,
        jumptime: 0,
        stop: 0,
        userdata: 0,
        dropped_console_command: 0,
        dropped_client_data: 0,
        dropped_event: 0,
        dropped_weapon_animation: 0,
        dropped_sound: 0,
        dropped_demo_buffer: 0,
    }
}

impl TranscodeStats {
    pub fn new() -> (r: Self)
        ensures
            r == zero_stats(),
    {
        TranscodeStats {
            usercmd: 0,
            read: 0,
            norewind: 0,
            skipped_oversize: 0,
            jumptime: 0,
            stop: 0,
            userdata: 0,
            dropped_console_command: 0,
            dropped_client_data: 0,
            dropped_event: 0,
            dropped_weapon_animation: 0,
            dropped_sound: 0,
            dropped_demo_buffer: 0,
        }
    }
}

/// Handling a frame adds at most two to the counters.
proof fn lemma_stats_step_total(s: TranscodeStats, f: Frame, keep_userdata: bool)
    requires
        stats_total(s) + 2 <= usize::MAX,
    ensures
        stats_total(stats_step(s, f, keep_userdata)) <= stats_total(s) + 2,
{
}

/// Writes the `dem_usercmd` frame and the network message frame that a
/// GoldSrc network message frame becomes.
fn write_network_frame(
    w: &mut ByteWriter,
    dt_bits: u32,
    cmd: u8,
    s: &SequenceInfo,
    usercmd: &UserCmd,
    payload: &Vec<u8>,
)
    ensures
        final(w)@ == old(w)@ + usercmd_frame_bytes(dt_bits, *s, *usercmd) + seq![cmd]
            + le_bytes_u32_spec(dt_bits) + sequence_bytes(*s) + le32(payload@.len() as i32)
            + payload@,
{
    let ghost start = w@;
    let encoded_cmd = encode_usercmd(usercmd);
    w.u8(DEM_USERCMD);
    w.f32_bits(dt_bits);
    w.i32(s.outgoing_sequence);
    w.i32(s.outgoing_sequence);
    w.u16(encoded_cmd.len() as u16);
    w.bytes(encoded_cmd.as_slice());
    let ghost mid = w@;
    proof {
        assert(mid =~= start + usercmd_frame_bytes(dt_bits, *s, *usercmd));
    }
    w.u8(cmd);
    w.f32_bits(dt_bits);
    w.i32(s.incoming_sequence);
    w.i32(s.incoming_acknowledged);
    w.i32(s.incoming_reliable_acknowledged);
    w.i32(s.incoming_reliable_sequence);
    w.i32(s.outgoing_sequence);
    w.i32(s.reliable_sequence);
    w.i32(s.last_reliable_sequence);
    let ghost before_len = w@;
    w.i32(payload.len() as i32);
    w.bytes(payload.as_slice());
    proof {
        assert(before_len =~= mid + seq![cmd] + le_bytes_u32_spec(dt_bits) + sequence_bytes(*s));
        assert(w@ =~= start + usercmd_frame_bytes(dt_bits, *s, *usercmd) + seq![cmd]
            + le_bytes_u32_spec(dt_bits) + sequence_bytes(*s) + le32(payload@.len() as i32)
            + payload@);
    }
}

/// Writes the IDEM frames of one GoldSrc frame, or fails on a network
/// message whose messages were not kept.
fn write_frame(w: &mut ByteWriter, f: &Frame, keep_userdata: bool, stats: &mut TranscodeStats) -> (r:
    Result<u8, TranscodeError>)
    requires
        stats_total(*old(stats)) + 2 <= usize::MAX,
    ensures
        missing_payload(*f) ==> r == Err::<u8, TranscodeError>(
            TranscodeError::MissingRawPayload(f.frame),
        ),
        !missing_payload(*f) ==> {
            &&& r == Ok::<u8, TranscodeError>(frame_count(*f, keep_userdata) as u8)
            &&& final(w)@ == old(w)@ + frame_bytes(*f, keep_userdata)
            &&& *final(stats) == stats_step(*old(stats), *f, keep_userdata)
        },
{
    proof {
        lemma_stats_step_total(*stats, *f, keep_userdata);
    }
    match &f.frame_data {
        FrameData::NetworkMessage { kind, sequence_info, usercmd, messages } => {
            let cmd = match kind {
                NetworkMessageType::Start => DEM_NOREWIND,
                NetworkMessageType::Normal => DEM_READ,
                NetworkMessageType::Unknown(_) => DEM_READ,
            };
            // Decoded messages are written out again.
            let written: Vec<u8> = match messages {
                MessageData::Parsed(ms) => write_netmsg(ms),
                _ => Vec::new(),
            };
            let payload: &Vec<u8> = match messages {
                MessageData::Raw(p) => p,
                MessageData::Parsed(_) => &written,
                MessageData::Absent => {
                    return Err(TranscodeError::MissingRawPayload(f.frame));
                },
            };
            assert(message_payload(*messages) == Some(payload@));
            if payload.len() > MAX_INIT_MSG as usize {
                stats.skipped_oversize = stats.skipped_oversize + 1;
                return Ok(0);
            }
            write_network_frame(w, f.dt_bits, cmd, sequence_info, usercmd, payload);
            stats.usercmd = stats.usercmd + 1;
            if cmd == DEM_READ {
                stats.read = stats.read + 1;
            } else {
                stats.norewind = stats.norewind + 1;
            }
            Ok(2)
        },
        FrameData::DemoStart => {
            w.u8(DEM_JUMPTIME);
            w.f32_bits(f.dt_bits);
            stats.jumptime = stats.jumptime + 1;
            proof {
                assert(w@ =~= old(w)@ + frame_bytes(*f, keep_userdata));
            }
            Ok(1)
        },
        FrameData::NextSection => {
            w.u8(DEM_STOP);
            w.f32_bits(f.dt_bits);
            stats.stop = stats.stop + 1;
            proof {
                assert(w@ =~= old(w)@ + frame_bytes(*f, keep_userdata));
            }
            Ok(1)
        },
        FrameData::DemoBuffer(b) => {
            if keep_userdata {
                w.u8(DEM_USERDATA);
                w.f32_bits(f.dt_bits);
                w.i32(b.len() as i32);
                w.bytes(b.as_slice());
                stats.userdata = stats.userdata + 1;
                proof {
                    assert(w@ =~= old(w)@ + frame_bytes(*f, keep_userdata));
                }
                Ok(1)
            } else {
                stats.dropped_demo_buffer = stats.dropped_demo_buffer + 1;
                proof {
                    assert(w@ =~= old(w)@ + frame_bytes(*f, keep_userdata));
                }
                Ok(0)
            }
        },
        FrameData::ConsoleCommand => {
            stats.dropped_console_command = stats.dropped_console_command + 1;
            proof {
                assert(w@ =~= old(w)@ + frame_bytes(*f, keep_userdata));
            }
            Ok(0)
        },
        FrameData::ClientData => {
            stats.dropped_client_data = stats.dropped_client_data + 1;
            proof {
                assert(w@ =~= old(w)@ + frame_bytes(*f, keep_userdata));
            }
            Ok(0)
        },
        FrameData::Event => {
            stats.dropped_event = stats.dropped_event + 1;
            proof {
                assert(w@ =~= old(w)@ + frame_bytes(*f, keep_userdata));
            }
            Ok(0)
        },
        FrameData::WeaponAnimation => {
            stats.dropped_weapon_animation = stats.dropped_weapon_animation + 1;
            proof {
                assert(w@ =~= old(w)@ + frame_bytes(*f, keep_userdata));
            }
            Ok(0)
        },
        FrameData::Sound => {
            stats.dropped_sound = stats.dropped_sound + 1;
            proof {
                assert(w@ =~= old(w)@ + frame_bytes(*f, keep_userdata));
            }
            Ok(0)
        },
    }
}

/// The number of frames in a run of entries.
pub open spec fn total_frames(entries: Seq<DirectoryEntry>) -> nat
    decreases entries.len(),
{
    if entries.len() == 0 {
        0
    } else {
        total_frames(entries.drop_last()) + entries.last().frames@.len()
    }
}

/// The statistics after handling every frame of a run of entries.
pub open spec fn entries_stats(s: TranscodeStats, entries: Seq<DirectoryEntry>, keep_userdata: bool) -> TranscodeStats
    decreases entries.len(),
{
    if entries.len() == 0 {
        s
    } else {
        frames_stats(entries_stats(s, entries.drop_last(), keep_userdata), entries.last().frames@, keep_userdata)
    }
}

/// The IDEM bytes of the frames of a run of entries, section after section.
pub open spec fn entries_body(entries: Seq<DirectoryEntry>, keep_userdata: bool) -> Seq<u8>
    decreases entries.len(),
{
    if entries.len() == 0 {
        Seq::empty()
    } else {
        entries_body(entries.drop_last(), keep_userdata) + frames_bytes(entries.last().frames@, keep_userdata)
    }
}

/// The frame number of the first frame, across a run of entries, whose
/// messages were not kept.
pub open spec fn first_missing_entries(entries: Seq<DirectoryEntry>) -> Option<i32>
    decreases entries.len(),
{
    if entries.len() == 0 {
        None
    } else {
        match first_missing_entries(entries.drop_last()) {
            Some(f) => Some(f),
            None => match first_missing(entries.last().frames@) {
                Some(k) => Some(entries.last().frames@[k].frame),
                None => None,
            },
        }
    }
}

/// The IDEM entry type of a GoldSrc section.
pub open spec fn entry_type(e: DirectoryEntry) -> i32 {
    if e.type_ == 0 {
        DEMO_STARTUP
    } else {
        DEMO_NORMAL
    }
}

/// The description text of a section: its bytes up to the first NUL,
/// decoded lossily.
pub open spec fn description_text(e: DirectoryEntry) -> Seq<char> {
    utf8_lossy(e.description@.take(c_str_len(e.description@) as int))
}

/// Where section `i` of a run of entries starts in the IDEM file.
pub open spec fn entry_offset(entries: Seq<DirectoryEntry>, i: int, keep_userdata: bool) -> int {
    HEADER_SIZE + entries_body(entries.take(i), keep_userdata).len()
}

/// Section `i` was summarised as the directory describes it.
pub open spec fn summary_matches(
    s: EntrySummary,
    entries: Seq<DirectoryEntry>,
    i: int,
    keep_userdata: bool,
) -> bool {
    let e = entries[i];
    &&& s.entrytype == entry_type(e)
    &&& s.description@ == description_text(e)
    &&& s.frames == frames_count(e.frames@, keep_userdata) as i32
    &&& s.offset == entry_offset(entries, i, keep_userdata) as i32
    &&& s.length == frames_bytes(e.frames@, keep_userdata).len() as i32
    &&& s.playback_time_bits == e.track_time_bits
}

/// The directory record of section `i`.
pub open spec fn entry_dir_bytes(entries: Seq<DirectoryEntry>, i: int, keep_userdata: bool) -> Seq<
    u8,
> {
    let e = entries[i];
    le32(entry_type(e)) + le_bytes_u32_spec(e.track_time_bits) + le32(
        frames_count(e.frames@, keep_userdata) as i32,
    ) + le32(entry_offset(entries, i, keep_userdata) as i32) + le32(
        frames_bytes(e.frames@, keep_userdata).len() as i32,
    ) + le32(0) + fixed_str_bytes(vstd::utf8::encode_utf8(description_text(e)), FIELD_WIDTH as nat)
}

/// The directory records of the first `k` sections.
pub open spec fn dir_records(entries: Seq<DirectoryEntry>, k: int, keep_userdata: bool) -> Seq<u8>
    decreases k,
{
    if k <= 0 {
        Seq::empty()
    } else {
        dir_records(entries, k - 1, keep_userdata) + entry_dir_bytes(entries, k - 1, keep_userdata)
    }
}

/// The gamedir field's source text.
pub open spec fn gamedir_bytes(h: Header, opts: Options) -> Seq<u8> {
    match opts.gamedir {
        Some(g) => vstd::utf8::encode_utf8(g@),
        None => h.game_directory@,
    }
}

/// The comment field's text.
pub open spec fn comment_bytes() -> Seq<u8> {
    vstd::utf8::encode_utf8("transcoded by dod-tools"@)
}

/// The IDEM header, pointing at a directory at `dir_off`.
pub open spec fn header_bytes(h: Header, opts: Options, dir_off: i32) -> Seq<u8> {
    le32(IDEMOHEADER) + le32(DEMO_PROTOCOL) + le32(PROTOCOL_GOLDSRC_VERSION_DEMO)
        + le_bytes_u64_spec(opts.host_fps_bits) + fixed_str_bytes(h.map_name@, FIELD_WIDTH as nat)
        + fixed_str_bytes(comment_bytes(), FIELD_WIDTH as nat) + fixed_str_bytes(
        gamedir_bytes(h, opts),
        FIELD_WIDTH as nat,
    ) + le32(dir_off)
}

/// The whole IDEM file: header, sections, directory.
pub open spec fn idem_bytes(h: Header, entries: Seq<DirectoryEntry>, opts: Options) -> Seq<u8> {
    let body = entries_body(entries, opts.keep_userdata);
    header_bytes(h, opts, (HEADER_SIZE + body.len()) as i32) + body + le32(entries.len() as i32)
        + dir_records(entries, entries.len() as int, opts.keep_userdata)
}

/// Writes the frames of one section; the number of IDEM frames written.
fn write_entry(w: &mut ByteWriter, entry: &DirectoryEntry, keep_userdata: bool, stats: &mut TranscodeStats) -> (r:
    Result<i32, TranscodeError>)
    requires
        frames_count(entry.frames@, keep_userdata) <= i32::MAX,
        stats_total(*old(stats)) + 2 * entry.frames@.len() <= usize::MAX,
    ensures
        match first_missing(entry.frames@) {
            Some(k) => r == Err::<i32, TranscodeError>(
                TranscodeError::MissingRawPayload(entry.frames@[k].frame),
            ),
            None => {
                &&& r == Ok::<i32, TranscodeError>(frames_count(entry.frames@, keep_userdata) as i32)
                &&& final(w)@ == old(w)@ + frames_bytes(entry.frames@, keep_userdata)
                &&& *final(stats) == frames_stats(*old(stats), entry.frames@, keep_userdata)
                &&& stats_total(*final(stats)) <= stats_total(*old(stats)) + 2 * entry.frames@.len()
            },
        },
{
    let frames = &entry.frames;
    let mut nframes: i32 = 0;
    let mut k: usize = 0;
    while k < frames.len()
        invariant
            frames@ == entry.frames@,
            k <= frames@.len(),
            frames_count(frames@, keep_userdata) <= i32::MAX,
            stats_total(*old(stats)) + 2 * frames@.len() <= usize::MAX,
            first_missing(frames@.take(k as int)) is None,
            nframes == frames_count(frames@.take(k as int), keep_userdata),
            w@ == old(w)@ + frames_bytes(frames@.take(k as int), keep_userdata),
            *stats == frames_stats(*old(stats), frames@.take(k as int), keep_userdata),
            stats_total(*stats) <= stats_total(*old(stats)) + 2 * k,
        decreases frames@.len() - k,
    {
        let ghost before = *stats;
        proof {
            assert(frames@.take(k + 1).drop_last() =~= frames@.take(k as int));
            lemma_frames_count_prefix(frames@, keep_userdata, k + 1);
            lemma_first_missing_prefix(frames@, k as int);
        }
        match write_frame(w, &frames[k], keep_userdata, stats) {
            Err(e) => {
                return Err(e);
            },
            Ok(c) => {
                proof {
                    lemma_stats_step_total(before, frames@[k as int], keep_userdata);
                }
                nframes = nframes + c as i32;
            },
        }
        k = k + 1;
    }
    proof {
        assert(frames@.take(frames@.len() as int) =~= frames@);
    }
    Ok(nframes)
}

/// The frame count of a prefix is at most that of the whole run.
proof fn lemma_frames_count_prefix(frames: Seq<Frame>, keep_userdata: bool, k: int)
    requires
        0 <= k <= frames.len(),
    ensures
        frames_count(frames.take(k), keep_userdata) <= frames_count(frames, keep_userdata),
    decreases frames.len(),
{
    if k < frames.len() {
        assert(frames.drop_last().take(k) =~= frames.take(k));
        lemma_frames_count_prefix(frames.drop_last(), keep_userdata, k);
    } else {
        assert(frames.take(k) =~= frames);
    }
}

/// Where the first missing frame of a prefix lies once the prefix has none.
proof fn lemma_first_missing_prefix(frames: Seq<Frame>, k: int)
    requires
        0 <= k < frames.len(),
        first_missing(frames.take(k)) is None,
    ensures
        first_missing(frames.take(k + 1)) == (if missing_payload(frames[k]) {
            Some(k)
        } else {
            None::<int>
        }),
        first_missing(frames.take(k + 1)) is Some ==> first_missing(frames) == first_missing(
            frames.take(k + 1),
        ),
    decreases frames.len(),
{
    assert(frames.take(k + 1).drop_last() =~= frames.take(k));
    if first_missing(frames.take(k + 1)) is Some {
        lemma_first_missing_extends(frames, k + 1);
    }
}

/// A missing frame found in a prefix is the first missing frame of the run.
proof fn lemma_first_missing_extends(frames: Seq<Frame>, k: int)
    requires
        0 <= k <= frames.len(),
        first_missing(frames.take(k)) is Some,
    ensures
        first_missing(frames) == first_missing(frames.take(k)),
    decreases frames.len(),
{
    if k < frames.len() {
        assert(frames.drop_last().take(k) =~= frames.take(k));
        lemma_first_missing_extends(frames.drop_last(), k);
    } else {
        assert(frames.take(k) =~= frames);
    }
}

/// The description of a section: its bytes up to the first NUL, decoded
/// lossily.
fn description_of(entry: &DirectoryEntry) -> (r: String)
    ensures
        r@ == description_text(*entry),
{
    let d = &entry.description;
    let mut end: usize = 0;
    while end < d.len() && d[end] != 0
        invariant
            end <= d@.len(),
            forall|j: int| 0 <= j < end ==> d@[j] != 0,
        decreases d@.len() - end,
    {
        end = end + 1;
    }
    proof {
        crate::writer::lemma_c_str_len(d@, end as nat);
    }
    let prefix = &d.as_slice()[0..end];
    proof {
        assert(prefix@ =~= d@.take(end as int));
    }
    string_from_utf8_lossy(prefix)
}

/// The name of a frame's kind, as reports print it.
pub open spec fn frame_kind_spec(f: FrameData) -> Seq<char> {
    match f {
        FrameData::NetworkMessage { .. } => "NetworkMessage"@,
        FrameData::DemoStart => "DemoStart"@,
        FrameData::ConsoleCommand => "ConsoleCommand"@,
        FrameData::ClientData => "ClientData"@,
        FrameData::NextSection => "NextSection"@,
        FrameData::Event => "Event"@,
        FrameData::WeaponAnimation => "WeaponAnimation"@,
        FrameData::Sound => "Sound"@,
        FrameData::DemoBuffer(_) => "DemoBuffer"@,
    }
}

/// The name of a frame's kind.
pub fn frame_kind(f: &FrameData) -> (r: String)
    ensures
        r@ == frame_kind_spec(*f),
{
    let mut s = String::new();
    match f {
        FrameData::NetworkMessage { .. } => s.append("NetworkMessage"),
        FrameData::DemoStart => s.append("DemoStart"),
        FrameData::ConsoleCommand => s.append("ConsoleCommand"),
        FrameData::ClientData => s.append("ClientData"),
        FrameData::NextSection => s.append("NextSection"),
        FrameData::Event => s.append("Event"),
        FrameData::WeaponAnimation => s.append("WeaponAnimation"),
        FrameData::Sound => s.append("Sound"),
        FrameData::DemoBuffer(_) => s.append("DemoBuffer"),
    }
    s
}

/// The position of a frame's kind in `FrameData`'s declaration.
pub open spec fn kind_index(f: FrameData) -> nat {
    match f {
        FrameData::NetworkMessage { .. } => 0,
        FrameData::DemoStart => 1,
        FrameData::ConsoleCommand => 2,
        FrameData::ClientData => 3,
        FrameData::NextSection => 4,
        FrameData::Event => 5,
        FrameData::WeaponAnimation => 6,
        FrameData::Sound => 7,
        FrameData::DemoBuffer(_) => 8,
    }
}

/// How many frames of a run are of kind `k`.
pub open spec fn kind_count(frames: Seq<Frame>, k: nat) -> nat
    decreases frames.len(),
{
    if frames.len() == 0 {
        0
    } else {
        kind_count(frames.drop_last(), k) + if kind_index(frames.last().frame_data) == k {
            1nat
        } else {
            0nat
        }
    }
}

/// The length of a frame's raw network message; 0 for anything else.
pub open spec fn raw_len(f: Frame) -> nat {
    match f.frame_data {
        FrameData::NetworkMessage { messages: MessageData::Raw(p), .. } => p@.len(),
        _ => 0,
    }
}

/// The longest raw network message of a run of frames (0 when none).
pub open spec fn largest_message(frames: Seq<Frame>) -> nat
    decreases frames.len(),
{
    if frames.len() == 0 {
        0
    } else {
        let m = largest_message(frames.drop_last());
        if raw_len(frames.last()) > m {
            raw_len(frames.last())
        } else {
            m
        }
    }
}

/// A section's frames counted by kind, in the order of `FrameData`'s
/// variants, and its longest raw network message.
pub struct SectionCounts {
    pub by_kind: [usize; 9],
    pub largest_message: usize,
}

/// Counts a section's frames by kind, and finds its longest raw network
/// message.
pub fn count_frames(frames: &Vec<Frame>) -> (r: SectionCounts)
    ensures
        forall|k: int| 0 <= k < 9 ==> r.by_kind@[k] == kind_count(frames@, k as nat),
        r.largest_message == largest_message(frames@),
{
    let mut by_kind: [usize; 9] = [0; 9];
    let mut largest: usize = 0;
    let mut i: usize = 0;
    while i < frames.len()
        invariant
            i <= frames@.len(),
            forall|k: int| 0 <= k < 9 ==> by_kind@[k] == kind_count(frames@.take(i as int), k as nat),
            forall|k: int| 0 <= k < 9 ==> by_kind@[k] <= i,
            largest == largest_message(frames@.take(i as int)),
        decreases frames@.len() - i,
    {
        let f = &frames[i];
        let k: usize = match &f.frame_data {
            FrameData::NetworkMessage { messages, .. } => {
                if let MessageData::Raw(p) = messages {
                    if p.len() > largest {
                        largest = p.len();
                    }
                }
                0
            },
            FrameData::DemoStart => 1,
            FrameData::ConsoleCommand => 2,
            FrameData::ClientData => 3,
            FrameData::NextSection => 4,
            FrameData::Event => 5,
            FrameData::WeaponAnimation => 6,
            FrameData::Sound => 7,
            FrameData::DemoBuffer(_) => 8,
        };
        proof {
            assert(frames@.take(i + 1).drop_last() =~= frames@.take(i as int));
            assert(k == kind_index(frames@[i as int].frame_data));
        }
        let ghost before = by_kind@;
        by_kind[k] = by_kind[k] + 1;
        proof {
            assert forall|j: int| 0 <= j < 9 implies by_kind@[j] == kind_count(
                frames@.take(i + 1),
                j as nat,
            ) by {
                if j != k {
                    assert(by_kind@[j] == before[j]);
                }
            }
        }
        i = i + 1;
    }
    proof {
        assert(frames@.take(frames@.len() as int) =~= frames@);
    }
    SectionCounts { by_kind, largest_message: largest }
}

/// Whether the sections are within what transcoding can count: each
/// section's frame count fits an `i32`, and twice the number of source
/// frames fits a `usize`.
pub open spec fn fits_transcode(entries: Seq<DirectoryEntry>, keep_userdata: bool) -> bool {
    &&& forall|i: int|
        0 <= i < entries.len() ==> frames_count(#[trigger] entries[i].frames@, keep_userdata)
            <= i32::MAX
    &&& 2 * total_frames(entries) <= usize::MAX
}

/// The length of the bytes a frame's messages are written as; `None` when
/// the messages were not kept.
fn payload_len(m: &MessageData) -> (r: Option<usize>)
    ensures
        r is None <==> message_payload(*m) is None,
        r matches Some(n) ==> n == message_payload(*m)->0.len(),
{
    match m {
        MessageData::Raw(p) => Some(p.len()),
        MessageData::Parsed(ms) => Some(write_netmsg(ms).len()),
        MessageData::Absent => None,
    }
}

/// The count of a section's frames, or `None` past `i32::MAX`.
fn section_count(frames: &Vec<Frame>, keep_userdata: bool) -> (r: Option<u32>)
    ensures
        match r {
            Some(c) => c == frames_count(frames@, keep_userdata) && c <= i32::MAX,
            None => frames_count(frames@, keep_userdata) > i32::MAX,
        },
{
    let mut c: u32 = 0;
    let mut i: usize = 0;
    while i < frames.len()
        invariant
            i <= frames@.len(),
            c == frames_count(frames@.take(i as int), keep_userdata),
            c <= i32::MAX,
        decreases frames@.len() - i,
    {
        let add: u32 = match &frames[i].frame_data {
            FrameData::NetworkMessage { messages, .. } => match payload_len(messages) {
                None => 0,
                Some(n) => if n as u64 > MAX_INIT_MSG as u64 {
                    0
                } else {
                    2
                },
            },
            FrameData::DemoStart => 1,
            FrameData::NextSection => 1,
            FrameData::DemoBuffer(_) => if keep_userdata {
                1
            } else {
                0
            },
            _ => 0,
        };
        proof {
            assert(frames@.take(i + 1).drop_last() =~= frames@.take(i as int));
            assert(add == frame_count(frames@[i as int], keep_userdata));
        }
        if c + add > i32::MAX as u32 {
            proof {
                lemma_frames_count_prefix(frames@, keep_userdata, i + 1);
            }
            return None;
        }
        c = c + add;
        i = i + 1;
    }
    proof {
        assert(frames@.take(frames@.len() as int) =~= frames@);
    }
    Some(c)
}

/// Whether transcoding can count the sections' frames (what
/// `transcode_entries` asks of its input).
pub fn total_frames_fit(entries: &Vec<DirectoryEntry>, keep_userdata: bool) -> (r: bool)
    ensures
        r == fits_transcode(entries@, keep_userdata),
{
    let mut total: usize = 0;
    let mut i: usize = 0;
    while i < entries.len()
        invariant
            i <= entries@.len(),
            total == total_frames(entries@.take(i as int)),
            2 * total <= usize::MAX,
            forall|k: int|
                0 <= k < i ==> frames_count(#[trigger] entries@[k].frames@, keep_userdata)
                    <= i32::MAX,
        decreases entries@.len() - i,
    {
        proof {
            assert(entries@.take(i + 1).drop_last() =~= entries@.take(i as int));
        }
        let n = entries[i].frames.len();
        if n > usize::MAX / 2 - total {
            proof {
                lemma_total_frames_prefix(entries@, i + 1);
            }
            return false;
        }
        if section_count(&entries[i].frames, keep_userdata).is_none() {
            return false;
        }
        total = total + n;
        i = i + 1;
    }
    proof {
        assert(entries@.take(entries@.len() as int) =~= entries@);
    }
    true
}

/// Transcode a GoldSrc demo into an IDEM container.
pub fn transcode(demo: &Demo, opts: &Options) -> (r: Result<Output, TranscodeError>)
    requires
        forall|i: int|
            0 <= i < demo.entries@.len() ==> frames_count(
                #[trigger] demo.entries@[i].frames@,
                opts.keep_userdata,
            ) <= i32::MAX,
        2 * total_frames(demo.entries@) <= usize::MAX,
    ensures
        transcode_result(demo.header, demo.entries@, *opts, r),
{
    transcode_entries(&demo.header, &demo.entries, opts)
}

/// What transcoding `entries` under `header` returns: the first frame whose
/// messages were not kept fails it; otherwise the IDEM file, a summary per
/// section and the statistics.
pub open spec fn transcode_result(
    header: Header,
    entries: Seq<DirectoryEntry>,
    opts: Options,
    r: Result<Output, TranscodeError>,
) -> bool {
    match first_missing_entries(entries) {
        Some(f) => r == Err::<Output, TranscodeError>(TranscodeError::MissingRawPayload(f)),
        None => match r {
            Ok(out) => {
                &&& out.bytes@ == idem_bytes(header, entries, opts)
                &&& out.entries@.len() == entries.len()
                &&& forall|i: int|
                    0 <= i < entries.len() ==> summary_matches(
                        #[trigger] out.entries@[i],
                        entries,
                        i,
                        opts.keep_userdata,
                    )
                &&& out.stats == entries_stats(zero_stats(), entries, opts.keep_userdata)
            },
            Err(_) => false,
        },
    }
}

/// Writes the IDEM header, with a zero directory offset to patch later.
fn write_header(w: &mut ByteWriter, header: &Header, opts: &Options)
    requires
        old(w)@.len() == 0,
    ensures
        final(w)@ == header_bytes(*header, *opts, 0),
        final(w)@.len() == HEADER_SIZE,
{
    w.i32(IDEMOHEADER);
    w.i32(DEMO_PROTOCOL);
    w.i32(PROTOCOL_GOLDSRC_VERSION_DEMO);
    w.f64_bits(opts.host_fps_bits);
    w.fixed_str(header.map_name.as_slice(), FIELD_WIDTH);
    w.fixed_str("transcoded by dod-tools".as_bytes(), FIELD_WIDTH);
    match &opts.gamedir {
        Some(g) => w.fixed_str(g.as_str().as_bytes(), FIELD_WIDTH),
        None => w.fixed_str(header.game_directory.as_slice(), FIELD_WIDTH),
    }
    w.i32(0);
    proof {
        crate::writer::law_fixed_str_width(header.map_name@, FIELD_WIDTH as nat);
        crate::writer::law_fixed_str_width(comment_bytes(), FIELD_WIDTH as nat);
        crate::writer::law_fixed_str_width(gamedir_bytes(*header, *opts), FIELD_WIDTH as nat);
        assert(w@ =~= header_bytes(*header, *opts, 0));
    }
}

/// Writes every section's frames, one summary per section.
fn write_sections(w: &mut ByteWriter, entries: &Vec<DirectoryEntry>, keep: bool) -> (r: Result<
    (Vec<EntrySummary>, TranscodeStats),
    TranscodeError,
>)
    requires
        forall|i: int|
            0 <= i < entries@.len() ==> frames_count(#[trigger] entries@[i].frames@, keep)
                <= i32::MAX,
        2 * total_frames(entries@) <= usize::MAX,
        old(w)@.len() == HEADER_SIZE,
    ensures
        match first_missing_entries(entries@) {
            Some(f) => r matches Err(e) && e == TranscodeError::MissingRawPayload(f),
            None => r matches Ok((summaries, stats)) && {
                &&& final(w)@ == old(w)@ + entries_body(entries@, keep)
                &&& stats == entries_stats(zero_stats(), entries@, keep)
                &&& summaries@.len() == entries@.len()
                &&& forall|j: int|
                    0 <= j < entries@.len() ==> summary_matches(
                        #[trigger] summaries@[j],
                        entries@,
                        j,
                        keep,
                    )
            },
        },
{
    let mut stats = TranscodeStats::new();
    let ghost head0 = w@;
    let mut summaries: Vec<EntrySummary> = Vec::with_capacity(entries.len());
    let mut i: usize = 0;
    while i < entries.len()
        invariant
            i <= entries@.len(),
            forall|j: int|
                0 <= j < entries@.len() ==> frames_count(#[trigger] entries@[j].frames@, keep)
                    <= i32::MAX,
            2 * total_frames(entries@) <= usize::MAX,
            head0.len() == HEADER_SIZE,
            first_missing_entries(entries@.take(i as int)) is None,
            w@ == head0 + entries_body(entries@.take(i as int), keep),
            stats == entries_stats(zero_stats(), entries@.take(i as int), keep),
            stats_total(stats) <= 2 * total_frames(entries@.take(i as int)),
            summaries@.len() == i,
            forall|j: int|
                0 <= j < i ==> summary_matches(#[trigger] summaries@[j], entries@, j, keep),
        decreases entries@.len() - i,
    {
        let entry = &entries[i];
        let start = w.offset();
        proof {
            assert(entries@.take(i + 1).drop_last() =~= entries@.take(i as int));
            lemma_total_frames_prefix(entries@, i + 1);
        }
        let nframes = match write_entry(w, entry, keep, &mut stats) {
            Err(e) => {
                proof {
                    lemma_first_missing_entries_extends(entries@, i + 1);
                }
                return Err(e);
            },
            Ok(n) => n,
        };
        let length = (w.offset() - start) as i32;
        let description = description_of(entry);
        let summary = EntrySummary {
            entrytype: if entry.type_ == 0 {
                DEMO_STARTUP
            } else {
                DEMO_NORMAL
            },
            description,
            frames: nframes,
            offset: start as i32,
            length,
            playback_time_bits: entry.track_time_bits,
        };
        proof {
            assert(entries@.take(i as int) =~= entries@.take(i + 1).drop_last());
            assert(w@ =~= head0 + entries_body(entries@.take(i + 1), keep));
            assert(summary_matches(summary, entries@, i as int, keep));
        }
        summaries.push(summary);
        i = i + 1;
    }
    proof {
        assert(entries@.take(entries@.len() as int) =~= entries@);
    }
    Ok((summaries, stats))
}

/// Writes the directory: the number of sections, then one record each.
fn write_directory(w: &mut ByteWriter, summaries: &Vec<EntrySummary>, Ghost(entries): Ghost<Seq<DirectoryEntry>>, keep: bool)
    requires
        summaries@.len() == entries.len(),
        forall|j: int|
            0 <= j < entries.len() ==> summary_matches(#[trigger] summaries@[j], entries, j, keep),
    ensures
        final(w)@ == old(w)@ + le32(entries.len() as i32) + dir_records(entries, entries.len() as int, keep),
{
    let ghost body_end = w@;
    w.i32(summaries.len() as i32);
    let mut k: usize = 0;
    while k < summaries.len()
        invariant
            summaries@.len() == entries.len(),
            k <= summaries@.len(),
            forall|j: int|
                0 <= j < entries.len() ==> summary_matches(#[trigger] summaries@[j], entries, j, keep),
            w@ == body_end + le32(entries.len() as i32) + dir_records(entries, k as int, keep),
        decreases summaries@.len() - k,
    {
        let s = &summaries[k];
        w.i32(s.entrytype);
        w.f32_bits(s.playback_time_bits);
        w.i32(s.frames);
        w.i32(s.offset);
        w.i32(s.length);
        w.i32(0);
        w.fixed_str(s.description.as_str().as_bytes(), FIELD_WIDTH);
        proof {
            assert(summary_matches(summaries@[k as int], entries, k as int, keep));
            assert(w@ =~= body_end + le32(entries.len() as i32) + dir_records(entries, k + 1, keep));
        }
        k = k + 1;
    }
}

/// Transcode the sections `entries` of a demo with header `header` into an
/// IDEM container.
#[verifier::spinoff_prover]
#[verifier::rlimit(40)]
pub fn transcode_entries(header: &Header, entries: &Vec<DirectoryEntry>, opts: &Options) -> (r: Result<
    Output,
    TranscodeError,
>)
    requires
        forall|i: int|
            0 <= i < entries@.len() ==> frames_count(
                #[trigger] entries@[i].frames@,
                opts.keep_userdata,
            ) <= i32::MAX,
        2 * total_frames(entries@) <= usize::MAX,
    ensures
        transcode_result(*header, entries@, *opts, r),
{
    let keep = opts.keep_userdata;
    let mut w = ByteWriter::with_capacity(8 << 20);
    write_header(&mut w, header, opts);
    let dir_off_slot = HEADER_SIZE - 4;
    let ghost head0 = w@;
    let (summaries, stats) = match write_sections(&mut w, entries, keep) {
        Err(e) => {
            return Err(e);
        },
        Ok(found) => found,
    };
    let dir_off = w.offset();
    write_directory(&mut w, &summaries, Ghost(entries@), keep);
    w.patch_i32(dir_off_slot, dir_off as i32);
    proof {
        let body = entries_body(entries@, keep);
        assert(head0.take(dir_off_slot as int) =~= header_bytes(*header, *opts, 0).take(HEADER_SIZE - 4));
        assert(w@ =~= idem_bytes(*header, entries@, *opts));
    }
    Ok(Output { bytes: w.into_vec(), entries: summaries, stats })
}

/// The frames of a prefix of the entries are no more than those of all.
proof fn lemma_total_frames_prefix(entries: Seq<DirectoryEntry>, k: int)
    requires
        0 <= k <= entries.len(),
    ensures
        total_frames(entries.take(k)) <= total_frames(entries),
    decreases entries.len(),
{
    if k < entries.len() {
        assert(entries.drop_last().take(k) =~= entries.take(k));
        lemma_total_frames_prefix(entries.drop_last(), k);
    } else {
        assert(entries.take(k) =~= entries);
    }
}

/// A missing frame found in a prefix of the entries is the first one of all.
proof fn lemma_first_missing_entries_extends(entries: Seq<DirectoryEntry>, k: int)
    requires
        0 <= k <= entries.len(),
        first_missing_entries(entries.take(k)) is Some,
    ensures
        first_missing_entries(entries) == first_missing_entries(entries.take(k)),
    decreases entries.len(),
{
    if k < entries.len() {
        assert(entries.drop_last().take(k) =~= entries.take(k));
        lemma_first_missing_entries_extends(entries.drop_last(), k);
    } else {
        assert(entries.take(k) =~= entries);
    }
}

} // verus!

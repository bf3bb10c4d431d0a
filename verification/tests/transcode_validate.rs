use dod_tools::idem::{DEFAULT_HOST_FPS_BITS, DEM_STOP, HEADER_SIZE, IDEMOHEADER};
use dod_tools::transcode::{
    frame_kind, transcode, transcode_entries, Demo, DirectoryEntry, Frame, FrameData, Header,
    MessageData, NetworkMessageType, Options, SequenceInfo, TranscodeError,
};
use dod_tools::netmsg::{write_netmsg, NetMessage, SvcCdTrack, SvcCrosshairAngle};
use dod_tools::usercmd::UserCmd;
use dod_tools::validate::{validate, validate_checked, ValidationError};

fn seq(n: i32) -> SequenceInfo {
    SequenceInfo {
        incoming_sequence: n,
        incoming_acknowledged: n - 1,
        incoming_reliable_acknowledged: 0,
        incoming_reliable_sequence: 0,
        outgoing_sequence: n + 1,
        reliable_sequence: 0,
        last_reliable_sequence: 0,
    }
}

fn cmd() -> UserCmd {
    UserCmd { lerp_msec: 0, msec: 10, view_angles: vec![1, 2, 3], buttons: 0, light_level: 0, impulse: 0 }
}

fn net(kind: NetworkMessageType, frame: i32, messages: MessageData) -> Frame {
    Frame {
        dt_bits: 0.5f32.to_bits(),
        frame,
        frame_data: FrameData::NetworkMessage { kind, sequence_info: seq(frame), usercmd: cmd(), messages },
    }
}

fn plain(frame_data: FrameData) -> Frame {
    Frame { dt_bits: 0, frame: 0, frame_data }
}

fn entry(type_: i32, frames: Vec<Frame>) -> DirectoryEntry {
    DirectoryEntry {
        type_,
        description: b"Playback\0\0\0".to_vec(),
        track_time_bits: 2.0f32.to_bits(),
        frames,
    }
}

fn demo() -> Demo {
    Demo {
        header: Header { map_name: b"dod_flash".to_vec(), game_directory: b"dod".to_vec() },
        entries: vec![
            entry(
                0,
                vec![
                    net(NetworkMessageType::Start, 1, MessageData::Raw(vec![1, 2, 3])),
                    plain(FrameData::NextSection),
                ],
            ),
            entry(
                1,
                vec![
                    plain(FrameData::DemoStart),
                    net(NetworkMessageType::Normal, 2, MessageData::Raw(vec![9; 10])),
                    plain(FrameData::ConsoleCommand),
                    plain(FrameData::Sound),
                    plain(FrameData::DemoBuffer(vec![7, 7])),
                    plain(FrameData::NextSection),
                ],
            ),
        ],
    }
}

fn opts() -> Options {
    Options { host_fps_bits: DEFAULT_HOST_FPS_BITS, keep_userdata: false, gamedir: None }
}

fn rd(b: &[u8], at: usize) -> i32 {
    i32::from_le_bytes([b[at], b[at + 1], b[at + 2], b[at + 3]])
}

#[test]
fn transcoded_output_validates() {
    let out = transcode(&demo(), &opts()).unwrap();
    assert!(validate(&out.bytes).is_empty());
    assert_eq!(validate_checked(&out.bytes), vec![]);
    assert_eq!(rd(&out.bytes, 0), IDEMOHEADER);
    assert_eq!(&out.bytes[0..4], b"IDEM");
    assert_eq!(rd(&out.bytes, 4), 3);
    assert_eq!(rd(&out.bytes, 8), 176);
    assert_eq!(&out.bytes[12..20], &100.0f64.to_le_bytes());
    assert_eq!(&out.bytes[20..29], b"dod_flash");
    assert_eq!(out.bytes[29], 0);
    assert_eq!(&out.bytes[84..107], b"transcoded by dod-tools");
    assert_eq!(&out.bytes[148..151], b"dod");
}

#[test]
fn sections_and_stats_are_reported() {
    let out = transcode(&demo(), &opts()).unwrap();
    assert_eq!(out.entries.len(), 2);
    assert_eq!(out.entries[0].entrytype, 0);
    assert_eq!(out.entries[1].entrytype, 1);
    assert_eq!(out.entries[1].description, "Playback");
    assert_eq!(out.entries[0].offset, HEADER_SIZE as i32);
    // usercmd + norewind + stop
    assert_eq!(out.entries[0].frames, 3);
    // jumptime + usercmd + read + stop
    assert_eq!(out.entries[1].frames, 4);
    assert_eq!(out.entries[1].playback_time_bits, 2.0f32.to_bits());
    assert_eq!(out.entries[0].offset + out.entries[0].length, out.entries[1].offset);
    let s = out.stats;
    assert_eq!(s.usercmd, 2);
    assert_eq!(s.read, 1);
    assert_eq!(s.norewind, 1);
    assert_eq!(s.jumptime, 1);
    assert_eq!(s.stop, 2);
    assert_eq!(s.dropped_console_command, 1);
    assert_eq!(s.dropped_sound, 1);
    assert_eq!(s.dropped_demo_buffer, 1);
    assert_eq!(s.userdata, 0);
    let dir = rd(&out.bytes, 212) as usize;
    assert_eq!(rd(&out.bytes, dir), 2);
    assert_eq!(dir + 4 + 2 * 88, out.bytes.len());
}

#[test]
fn userdata_is_kept_when_asked() {
    let mut o = opts();
    o.keep_userdata = true;
    o.gamedir = Some("valve".to_string());
    let out = transcode(&demo(), &o).unwrap();
    assert_eq!(out.stats.userdata, 1);
    assert_eq!(out.stats.dropped_demo_buffer, 0);
    assert_eq!(out.entries[1].frames, 5);
    assert_eq!(&out.bytes[148..154], b"valve\0");
    assert!(validate(&out.bytes).is_empty());
}

#[test]
fn an_oversize_message_is_skipped() {
    let mut d = demo();
    d.entries[1].frames[1] = net(NetworkMessageType::Normal, 2, MessageData::Raw(vec![0; 0x8001]));
    let out = transcode(&d, &opts()).unwrap();
    assert_eq!(out.stats.skipped_oversize, 1);
    assert_eq!(out.entries[1].frames, 2);
    assert!(validate(&out.bytes).is_empty());
}

#[test]
fn a_message_kept_neither_way_cannot_be_transcoded() {
    let mut d = demo();
    d.entries[1].frames[1] = net(NetworkMessageType::Normal, 42, MessageData::Absent);
    assert_eq!(transcode(&d, &opts()).err(), Some(TranscodeError::MissingRawPayload(42)));
    let e = transcode_entries(&d.header, &d.entries, &opts()).err();
    assert_eq!(e, Some(TranscodeError::MissingRawPayload(42)));
}

fn decoded() -> Vec<NetMessage> {
    vec![
        NetMessage::CdTrack(SvcCdTrack { track: 3, loop_track: -1 }),
        NetMessage::CrosshairAngle(SvcCrosshairAngle { pitch: 258, yaw: -2 }),
        NetMessage::Encoded(vec![1, 0xff]),
    ]
}

#[test]
fn a_decoded_message_is_written_out_again() {
    let bytes = write_netmsg(&decoded());
    assert_eq!(bytes, vec![32, 3, 0xff, 47, 2, 1, 0xfe, 0xff, 1, 0xff]);
    let mut parsed = demo();
    parsed.entries[1].frames[1] = net(NetworkMessageType::Normal, 2, MessageData::Parsed(decoded()));
    let mut raw = demo();
    raw.entries[1].frames[1] = net(NetworkMessageType::Normal, 2, MessageData::Raw(bytes.clone()));
    let a = transcode(&parsed, &opts()).unwrap();
    let b = transcode(&raw, &opts()).unwrap();
    assert_eq!(a.bytes, b.bytes);
    assert_eq!(a.stats.read, 1);
    // The message bytes stand at the end of the dem_read frame.
    let at = a.bytes.windows(bytes.len()).position(|w| w == bytes.as_slice());
    assert!(at.is_some());
    let at = at.unwrap();
    assert_eq!(&a.bytes[at - 4..at], &(bytes.len() as i32).to_le_bytes());
    assert!(validate(&a.bytes).is_empty());
}

#[test]
fn frame_kinds_have_names() {
    assert_eq!(frame_kind(&FrameData::DemoStart), "DemoStart");
    assert_eq!(frame_kind(&FrameData::DemoBuffer(vec![])), "DemoBuffer");
    assert_eq!(frame_kind(&net(NetworkMessageType::Normal, 1, MessageData::Absent).frame_data), "NetworkMessage");
}

fn valid_bytes() -> Vec<u8> {
    transcode(&demo(), &opts()).unwrap().bytes
}

fn put(b: &mut [u8], at: usize, v: i32) {
    b[at..at + 4].copy_from_slice(&v.to_le_bytes());
}

#[test]
fn short_input_is_refused() {
    assert_eq!(validate(&[0u8; 10]), vec!["shorter than IDEM header".to_string()]);
    assert_eq!(validate_checked(&[0u8; 10]), vec![ValidationError::ShortHeader]);
}

#[test]
fn header_fields_are_checked() {
    let mut b = valid_bytes();
    put(&mut b, 0, 0);
    put(&mut b, 4, 2);
    put(&mut b, 8, 48);
    assert_eq!(
        validate(&b),
        vec![
            "id != IDEMOHEADER".to_string(),
            "dem_protocol 2 != 3".to_string(),
            "net_protocol 48 would be rejected".to_string(),
        ]
    );
}

#[test]
fn a_bad_directory_offset_stops_the_check() {
    let mut b = valid_bytes();
    put(&mut b, 212, 0);
    assert_eq!(validate(&b), vec!["directory_offset 0 out of range".to_string()]);
    let len = b.len() as i32;
    put(&mut b, 212, len);
    assert_eq!(validate_checked(&b), vec![ValidationError::DirectoryOffset(len)]);
}

#[test]
fn a_directory_at_the_very_end_is_a_truncated_read() {
    let mut b = valid_bytes();
    let len = b.len();
    put(&mut b, 212, (len - 2) as i32);
    assert_eq!(validate(&b), vec![format!("truncated read at {}", len - 2)]);
}

#[test]
fn entry_counts_are_bounded() {
    let mut b = valid_bytes();
    let dir = rd(&b, 212) as usize;
    put(&mut b, dir, 0);
    assert_eq!(validate(&b), vec!["bogus numentries 0".to_string()]);
    put(&mut b, dir, 1025);
    assert_eq!(validate_checked(&b), vec![ValidationError::EntryCount(1025)]);
}

#[test]
fn a_missing_entry_is_truncated() {
    let mut b = valid_bytes();
    let dir = rd(&b, 212) as usize;
    put(&mut b, dir, 3);
    assert_eq!(validate(&b), vec!["entry 2 truncated".to_string()]);
}

#[test]
fn an_entry_past_the_end_is_reported() {
    let mut b = valid_bytes();
    let dir = rd(&b, 212) as usize;
    put(&mut b, dir + 4 + 16, 1_000_000);
    assert_eq!(validate(&b), vec!["entry 0 extends past EOF".to_string()]);
}

#[test]
fn frame_walk_errors_are_reported() {
    let out = transcode(&demo(), &opts()).unwrap();
    let dir = rd(&out.bytes, 212) as usize;
    let off1 = out.entries[1].offset as usize;

    // An unknown command.
    let mut b = out.bytes.clone();
    b[off1] = 7;
    let errs = validate(&b);
    assert_eq!(errs[0], "entry 1: cmd 7 > dem_stop");
    assert!(errs.iter().any(|e| e.starts_with("entry 1: frame walk ended at")));

    // A message length out of range: entry 0 starts with the usercmd frame
    // (29 bytes), then the norewind frame, whose length follows 1 + 4 + 28 bytes.
    let off0 = out.entries[0].offset as usize;
    let mut b = out.bytes.clone();
    put(&mut b, off0 + 29 + 33, -1);
    let errs = validate(&b);
    assert_eq!(errs[0], "entry 0: msglen -1 rejected");
    assert_eq!(
        validate_checked(&b)[0],
        ValidationError::MessageLength(0, -1)
    );

    // No terminator: the last frame of entry 0 becomes a jumptime.
    let mut b = out.bytes.clone();
    let end0 = off0 + out.entries[0].length as usize;
    assert_eq!(b[end0 - 5], DEM_STOP);
    b[end0 - 5] = 3;
    assert_eq!(validate(&b), vec!["entry 0: no terminating dem_stop".to_string()]);

    // A length one short leaves the walk past the end.
    let mut b = out.bytes.clone();
    put(&mut b, dir + 4 + 16, out.entries[0].length - 1);
    let errs = validate_checked(&b);
    let end = off0 + out.entries[0].length as usize - 1;
    assert_eq!(errs[0], ValidationError::FrameWalkDrift(0, end as u64 + 1, end, 1));
    assert_eq!(
        errs[0].message(),
        format!("entry 0: frame walk ended at {}, expected {} (drift 1)", end + 1, end)
    );
}

#[test]
fn frame_counts_that_fit_are_accepted() {
    let d = demo();
    assert!(dod_tools::transcode::total_frames_fit(&d.entries, false));
    assert!(dod_tools::transcode::total_frames_fit(&vec![], true));
}

#[test]
fn frames_are_counted_by_kind() {
    let d = demo();
    let c = dod_tools::transcode::count_frames(&d.entries[1].frames);
    assert_eq!(c.by_kind, [1, 1, 1, 0, 1, 0, 0, 1, 1]);
    assert_eq!(c.largest_message, 10);
    let e = dod_tools::transcode::count_frames(&vec![]);
    assert_eq!(e.by_kind, [0; 9]);
    assert_eq!(e.largest_message, 0);
}

/// The size of the frame at `q`, as an accepted file's frames are laid out.
fn frame_size(b: &[u8], q: usize) -> usize {
    match b[q] {
        1 | 2 => 37 + rd(b, q + 33) as usize,
        4 => 9 + rd(b, q + 5).max(0) as usize,
        5 => 15 + b[q + 13] as usize + 256 * b[q + 14] as usize,
        _ => 5,
    }
}

#[test]
fn an_accepted_file_splits_into_frames_ending_at_each_entry_end() {
    let b = valid_bytes();
    assert!(validate(&b).is_empty());
    let dir = rd(&b, 212) as usize;
    let n = rd(&b, dir);
    assert!((1..=1024).contains(&n));
    for i in 0..n as usize {
        let p = dir + 4 + i * 88;
        let off = rd(&b, p + 12) as usize;
        let end = off + rd(&b, p + 16) as usize;
        assert!(end <= b.len());
        let mut q = off;
        let mut stop = false;
        while q < end {
            assert!(b[q] <= DEM_STOP);
            if b[q] == 1 || b[q] == 2 {
                assert!((0..=0x8000).contains(&rd(&b, q + 33)));
            }
            stop |= b[q] == DEM_STOP;
            q += frame_size(&b, q);
        }
        assert_eq!(q, end);
        assert!(stop);
    }
    // One byte less in an entry, and the walk no longer lands on its end.
    let mut short = b.clone();
    let p = dir + 4 + 88;
    put(&mut short, p + 16, rd(&b, p + 16) - 1);
    assert!(!validate(&short).is_empty());
}

#[test]
fn a_usercmd_frame_cut_short_is_reported_as_truncated() {
    // An entry whose one frame is a dem_usercmd ending right after its time
    // and 8 bytes: its 16-bit length lies past the end of the file.
    let mut b = valid_bytes();
    let dir = rd(&b, 212) as usize;
    let len = b.len();
    // The last 14 bytes of the file (inside the directory) are walked as the frame.
    let frame_at = len - 14;
    b[frame_at] = 5;
    put(&mut b, dir + 4 + 12, frame_at as i32);
    put(&mut b, dir + 4 + 16, 14);
    let errs = validate_checked(&b);
    assert_eq!(errs, vec![ValidationError::TruncatedRead(frame_at + 13)]);
    assert_eq!(validate(&b), vec![format!("truncated read at {}", frame_at + 13)]);
}

#[test]
fn a_negative_entry_offset_extends_past_eof() {
    let mut b = valid_bytes();
    let dir = rd(&b, 212) as usize;
    put(&mut b, dir + 4 + 12, -1);
    assert_eq!(validate(&b), vec!["entry 0 extends past EOF".to_string()]);
}

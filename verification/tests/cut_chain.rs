use dod_tools::bitvec_model::BitVec;
use dod_tools::chain::{client_data_chain, ChainFrame, ClientDataRef};
use dod_tools::cut::{
    cut, cut_section, synthetic_baseline_frame, CutError, CutFrame, FrameSource, FrameWindow, SectionCut,
};
use dod_tools::transcode::{
    Demo, DirectoryEntry, Frame, FrameData, Header, MessageData, NetworkMessageType, Options, SequenceInfo,
};
use dod_tools::netmsg::{NetMessage, SvcCdTrack};
use dod_tools::validate::validate;
use dod_tools::idem::DEFAULT_HOST_FPS_BITS;
use dod_tools::usercmd::UserCmd;

fn delta(byte: u8) -> ClientDataRef {
    ClientDataRef { has_delta_update_mask: true, delta_update_mask: Some(BitVec::from_slice(&[byte])) }
}

fn full() -> ClientDataRef {
    ClientDataRef { has_delta_update_mask: false, delta_update_mask: None }
}

fn frame(before_cut: bool, seq: i32, cds: Vec<ClientDataRef>) -> ChainFrame {
    ChainFrame { before_cut, incoming_sequence: Some(seq), client_data: Some(cds) }
}

#[test]
fn the_chain_lists_each_pre_cut_byte_once_in_first_seen_order() {
    // Sequence 1000 is byte 1000 % 64 = 40; byte 37 names 997, byte 38 names 998.
    let frames = vec![
        frame(true, 990, vec![delta(20)]),
        frame(false, 1000, vec![delta(37)]),
        frame(false, 1001, vec![delta(38), delta(37)]),
        ChainFrame { before_cut: false, incoming_sequence: None, client_data: None },
        frame(false, 1002, vec![delta(38)]),
        frame(false, 1003, vec![delta(40)]),
        frame(false, 1004, vec![delta(39)]),
    ];
    // Anchor 1000: byte 40 at 1003 names 1000 and ends the chain.
    assert_eq!(client_data_chain(&frames, 1000), vec![37, 38]);
}

#[test]
fn a_full_update_ends_the_chain() {
    let frames = vec![
        frame(false, 64, vec![delta(62)]),
        frame(false, 65, vec![full(), delta(1)]),
        frame(false, 66, vec![delta(60)]),
    ];
    assert_eq!(client_data_chain(&frames, 100), vec![62]);
}

#[test]
fn references_wrap_around_the_ring() {
    // Sequence 129 is byte 1; byte 63 names 127 (lag 2), before anchor 128.
    let frames = vec![frame(false, 129, vec![delta(63)])];
    assert_eq!(client_data_chain(&frames, 128), vec![63]);
    // Byte 1 names 129 itself, at the anchor.
    let frames = vec![frame(false, 129, vec![delta(1)])];
    assert!(client_data_chain(&frames, 128).is_empty());
    // Negative sequence numbers count modulo 64 too: -1 is byte 63.
    let frames = vec![frame(false, -1, vec![delta(62)])];
    assert_eq!(client_data_chain(&frames, 0), vec![62]);
}

#[test]
fn undecoded_and_pre_cut_frames_are_passed_over() {
    let frames = vec![
        ChainFrame { before_cut: false, incoming_sequence: Some(10), client_data: None },
        frame(true, 11, vec![delta(5)]),
    ];
    assert!(client_data_chain(&frames, 0).is_empty());
    assert!(client_data_chain(&vec![], 0).is_empty());
}

fn cf(start: bool, stop: bool, in_window: bool, after: bool) -> CutFrame {
    CutFrame { is_demo_start: start, is_next_section: stop, in_window, at_or_after_start: after }
}

#[test]
fn the_signon_section_is_kept_whole() {
    let frames = vec![cf(false, false, false, false), cf(false, true, false, false)];
    assert_eq!(
        cut_section(&frames, true, true, &vec![1]),
        vec![FrameSource::Source(0), FrameSource::Source(1)]
    );
}

#[test]
fn a_cut_keeps_the_window_and_the_markers_and_splices_the_baseline() {
    let frames = vec![
        cf(true, false, false, false),  // DemoStart, before the window
        cf(false, false, false, false), // before the window
        cf(false, false, true, true),   // in the window
        cf(false, false, true, true),
        cf(false, false, false, true),  // after the window
        cf(false, true, false, true),   // NextSection
    ];
    assert_eq!(
        cut_section(&frames, false, true, &vec![5, 6]),
        vec![
            FrameSource::Source(0),
            FrameSource::Synthetic(Some(5)),
            FrameSource::Synthetic(Some(6)),
            FrameSource::Source(2),
            FrameSource::Source(3),
            FrameSource::Source(5),
        ]
    );
    assert_eq!(
        cut_section(&frames, false, true, &vec![]),
        vec![
            FrameSource::Source(0),
            FrameSource::Synthetic(None),
            FrameSource::Source(2),
            FrameSource::Source(3),
            FrameSource::Source(5),
        ]
    );
    assert_eq!(
        cut_section(&frames, false, false, &vec![5]),
        vec![FrameSource::Source(0), FrameSource::Source(2), FrameSource::Source(3), FrameSource::Source(5)]
    );
}

#[test]
fn a_cut_without_a_terminator_gets_a_stop() {
    let frames = vec![cf(false, false, true, true), cf(false, false, false, true)];
    assert_eq!(
        cut_section(&frames, false, false, &vec![]),
        vec![FrameSource::Source(0), FrameSource::Stop]
    );
    // Nothing at or after the start: the baseline goes first.
    let frames = vec![cf(false, false, true, false)];
    assert_eq!(
        cut_section(&frames, false, true, &vec![]),
        vec![FrameSource::Synthetic(None), FrameSource::Source(0), FrameSource::Stop]
    );
    // A kept NextSection needs no added stop.
    let frames = vec![cf(false, false, true, true), cf(false, true, false, true)];
    assert_eq!(
        cut_section(&frames, false, false, &vec![]),
        vec![FrameSource::Source(0), FrameSource::Source(1)]
    );
    assert_eq!(cut_section(&vec![], false, false, &vec![]), vec![FrameSource::Stop]);
    // The signon section is kept as it is.
    assert!(cut_section(&vec![], true, false, &vec![]).is_empty());
}

#[test]
fn a_baseline_frame_takes_the_anchor_instant() {
    let anchor = Frame {
        dt_bits: 3.0f32.to_bits(),
        frame: 77,
        frame_data: FrameData::NetworkMessage {
            kind: NetworkMessageType::Start,
            sequence_info: SequenceInfo {
                incoming_sequence: 500,
                incoming_acknowledged: 1,
                incoming_reliable_acknowledged: 2,
                incoming_reliable_sequence: 3,
                outgoing_sequence: 4,
                reliable_sequence: 5,
                last_reliable_sequence: 6,
            },
            usercmd: UserCmd { lerp_msec: 1, msec: 2, view_angles: vec![3, 4, 5], buttons: 6, light_level: 7, impulse: 8 },
            messages: MessageData::Raw(vec![1]),
        },
    };
    let f = synthetic_baseline_frame(&anchor, vec![9, 9], Some(38));
    assert_eq!(f.dt_bits, 3.0f32.to_bits());
    assert_eq!(f.frame, 77);
    match f.frame_data {
        FrameData::NetworkMessage { kind, sequence_info, usercmd, messages } => {
            assert!(kind == NetworkMessageType::Normal);
            assert_eq!(sequence_info.incoming_sequence, 38);
            assert_eq!(sequence_info.outgoing_sequence, 4);
            assert_eq!(usercmd.view_angles, vec![3, 4, 5]);
            assert_eq!(usercmd.impulse, 8);
            assert!(matches!(messages, MessageData::Raw(ref b) if *b == vec![9, 9]));
        }
        _ => panic!("not a network message"),
    }
    let g = synthetic_baseline_frame(&anchor, vec![], None);
    match g.frame_data {
        FrameData::NetworkMessage { sequence_info, .. } => assert_eq!(sequence_info.incoming_sequence, 500),
        _ => panic!("not a network message"),
    }
}

#[test]
fn sequences_near_the_bottom_of_the_range_are_flagged() {
    let ok = vec![frame(false, i32::MIN + 63, vec![delta(1)])];
    assert!(dod_tools::chain::sequences_in_range(&ok));
    let low = vec![frame(false, i32::MIN, vec![delta(1)])];
    assert!(!dod_tools::chain::sequences_in_range(&low));
    // A frame the walk does not read is not checked.
    let skipped = vec![frame(true, i32::MIN, vec![delta(1)])];
    assert!(dod_tools::chain::sequences_in_range(&skipped));
}

fn seq_info(n: i32) -> SequenceInfo {
    SequenceInfo {
        incoming_sequence: n,
        incoming_acknowledged: 0,
        incoming_reliable_acknowledged: 0,
        incoming_reliable_sequence: 0,
        outgoing_sequence: n,
        reliable_sequence: 0,
        last_reliable_sequence: 0,
    }
}

fn net_frame(n: i32) -> Frame {
    Frame {
        dt_bits: (n as f32).to_bits(),
        frame: n,
        frame_data: FrameData::NetworkMessage {
            kind: NetworkMessageType::Normal,
            sequence_info: seq_info(n),
            usercmd: UserCmd { lerp_msec: 0, msec: 0, view_angles: vec![], buttons: 0, light_level: 0, impulse: 0 },
            messages: MessageData::Raw(vec![n as u8; 4]),
        },
    }
}

fn marker(data: FrameData) -> Frame {
    Frame { dt_bits: 0, frame: 0, frame_data: data }
}

fn cut_demo() -> Demo {
    Demo {
        header: Header { map_name: b"dod_flash".to_vec(), game_directory: b"dod".to_vec() },
        entries: vec![
            DirectoryEntry {
                type_: 0,
                description: b"LOADING".to_vec(),
                track_time_bits: 1.0f32.to_bits(),
                frames: vec![net_frame(1), marker(FrameData::NextSection)],
            },
            DirectoryEntry {
                type_: 1,
                description: b"Playback".to_vec(),
                track_time_bits: 9.0f32.to_bits(),
                frames: vec![
                    marker(FrameData::DemoStart),
                    net_frame(10),
                    net_frame(11),
                    net_frame(12),
                    marker(FrameData::NextSection),
                ],
            },
        ],
    }
}

fn fw(in_window: bool, at_or_after_start: bool) -> FrameWindow {
    FrameWindow { in_window, at_or_after_start }
}

fn section_cut(frames: Vec<FrameWindow>, baseline: Option<Vec<u8>>, chain_frames: Vec<ChainFrame>) -> SectionCut {
    SectionCut { frames, track_time_bits: 2.0f32.to_bits(), baseline, chain_frames }
}

#[test]
fn a_cut_demo_keeps_signon_and_the_window_and_validates() {
    let d = cut_demo();
    let cuts = vec![
        section_cut(vec![fw(false, false); 2], None, vec![]),
        section_cut(
            vec![
                fw(false, false),
                fw(false, false),
                fw(true, true),
                fw(false, true),
                fw(false, true),
            ],
            None,
            vec![],
        ),
    ];
    let opts = Options { host_fps_bits: DEFAULT_HOST_FPS_BITS, keep_userdata: false, gamedir: None };
    let out = cut(&d, &cuts, &opts).unwrap();
    assert!(validate(&out.bytes).is_empty());
    // Signon: usercmd + norewind... (a Normal frame is a read) + stop.
    assert_eq!(out.entries[0].frames, 3);
    // Playback: jumptime, usercmd + read for frame 11, stop.
    assert_eq!(out.entries[1].frames, 4);
    assert_eq!(out.entries[0].playback_time_bits, 1.0f32.to_bits());
    assert_eq!(out.entries[1].playback_time_bits, 2.0f32.to_bits());
}

#[test]
fn a_cut_with_a_baseline_splices_one_frame_per_chain_byte() {
    let d = cut_demo();
    // The first kept network frame is 11 (byte 11); the chain frames after
    // the cut reference bytes 9 and 10, before it.
    let chain_frames = vec![
        frame(false, 11, vec![delta(9)]),
        frame(false, 12, vec![delta(10), delta(11)]),
    ];
    let cuts = vec![
        section_cut(vec![fw(false, false); 2], None, vec![]),
        section_cut(
            vec![
                fw(false, false),
                fw(false, false),
                fw(true, true),
                fw(true, true),
                fw(false, true),
            ],
            Some(vec![7; 3]),
            chain_frames,
        ),
    ];
    let opts = Options { host_fps_bits: DEFAULT_HOST_FPS_BITS, keep_userdata: false, gamedir: None };
    let out = cut(&d, &cuts, &opts).unwrap();
    assert!(validate(&out.bytes).is_empty());
    // jumptime, 2 synthetic (usercmd + read each), frames 11 and 12, stop.
    assert_eq!(out.entries[1].frames, 1 + 4 + 4 + 1);
    // An oversize baseline is left out.
    let mut big = cuts;
    big[1].baseline = Some(vec![0; 0x8001]);
    let out = cut(&d, &big, &opts).unwrap();
    assert_eq!(out.entries[1].frames, 1 + 4 + 1);
    let _ = CutError::TooManyFrames;
}

#[test]
fn a_cut_section_without_a_stop_gets_one_and_validates() {
    let mut d = cut_demo();
    // The playback section loses its NextSection, and one frame is decoded.
    d.entries[1].frames.pop();
    d.entries[1].frames[2] = Frame {
        dt_bits: 11.0f32.to_bits(),
        frame: 11,
        frame_data: FrameData::NetworkMessage {
            kind: NetworkMessageType::Normal,
            sequence_info: seq_info(11),
            usercmd: UserCmd { lerp_msec: 0, msec: 0, view_angles: vec![], buttons: 0, light_level: 0, impulse: 0 },
            messages: MessageData::Parsed(vec![NetMessage::CdTrack(SvcCdTrack { track: 2, loop_track: 0 })]),
        },
    };
    let cuts = vec![
        section_cut(vec![fw(false, false); 2], None, vec![]),
        section_cut(
            vec![
                fw(false, false),
                fw(false, false),
                fw(true, true),
                fw(false, true),
            ],
            None,
            vec![],
        ),
    ];
    let opts = Options { host_fps_bits: DEFAULT_HOST_FPS_BITS, keep_userdata: false, gamedir: None };
    let out = cut(&d, &cuts, &opts).unwrap();
    assert!(validate(&out.bytes).is_empty());
    // jumptime, usercmd + read for frame 11, the added stop.
    assert_eq!(out.entries[1].frames, 4);
    // The decoded message went out as its bytes.
    assert!(out.bytes.windows(3).any(|w| w == [32, 2, 0]));
}

#[test]
fn a_cut_reads_frame_kinds_from_the_frames() {
    // A playback section holding only a DemoStart frame, outside the window:
    // the cut keeps the marker and adds a dem_stop of its own.
    let mut d = cut_demo();
    d.entries[1].frames = vec![marker(FrameData::DemoStart)];
    let cuts = vec![
        section_cut(vec![fw(false, false); 2], None, vec![]),
        section_cut(vec![fw(false, false)], None, vec![]),
    ];
    let opts = Options { host_fps_bits: DEFAULT_HOST_FPS_BITS, keep_userdata: false, gamedir: None };
    let out = cut(&d, &cuts, &opts).unwrap();
    // dem_jumptime, then the added dem_stop.
    assert_eq!(out.entries[1].frames, 2);
    assert!(validate(&out.bytes).is_empty());
    // A network message outside the window is dropped whatever the caller says of it.
    let mut d = cut_demo();
    d.entries[1].frames = vec![net_frame(10)];
    let cuts = vec![
        section_cut(vec![fw(false, false); 2], None, vec![]),
        section_cut(vec![fw(false, true)], None, vec![]),
    ];
    let out = cut(&d, &cuts, &opts).unwrap();
    assert_eq!(out.entries[1].frames, 1);
    assert!(validate(&out.bytes).is_empty());
}

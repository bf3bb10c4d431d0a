use dod_tools::netmsg::{
    write_netmsg, DeltaField, NetMessage, ParseError, SvcCdTrack, SvcCrosshairAngle,
    SvcDeltaDescription,
};

#[test]
fn cd_track_parses_two_signed_bytes() {
    let (rest, m) = SvcCdTrack::parse(&[3, 0xFF, 9]).unwrap();
    assert_eq!(m, SvcCdTrack { track: 3, loop_track: -1 });
    assert_eq!(rest, &[9]);
    assert_eq!(SvcCdTrack::parse(&[1]).err(), Some(ParseError::Incomplete));
}

#[test]
fn cd_track_writes_its_id_first_and_round_trips() {
    let m = SvcCdTrack { track: -5, loop_track: 2 };
    assert_eq!(m.id(), 32);
    let b = m.write();
    assert_eq!(b, vec![32, 0xFB, 2]);
    let (rest, back) = SvcCdTrack::parse(&b[1..]).unwrap();
    assert!(rest.is_empty());
    assert_eq!(back, m);
}

#[test]
fn crosshair_angle_is_two_little_endian_shorts() {
    let (rest, m) = SvcCrosshairAngle::parse(&[0x34, 0x12, 0xFF, 0xFF]).unwrap();
    assert!(rest.is_empty());
    assert_eq!(m, SvcCrosshairAngle { pitch: 0x1234, yaw: -1 });
    assert_eq!(SvcCrosshairAngle::parse(&[1, 2, 3]).err(), Some(ParseError::Incomplete));
    let w = SvcCrosshairAngle { pitch: -300, yaw: 7 }.write();
    assert_eq!(w[0], 47);
    assert_eq!(&w[1..3], &(-300i16).to_le_bytes());
    let (_, back) = SvcCrosshairAngle::parse(&w[1..]).unwrap();
    assert_eq!(back, SvcCrosshairAngle { pitch: -300, yaw: 7 });
}

#[test]
fn delta_description_writes_name_count_and_fields_as_read() {
    let d = SvcDeltaDescription {
        name: b"event_t\0".to_vec(),
        total_fields: 0x0102,
        fields: vec![DeltaField { name: b"entindex".to_vec(), bits: 10, divisor_bits: 1.0f32.to_bits(), flags: 8 }],
        clone: vec![0xAA, 0xBB],
    };
    assert_eq!(d.id(), 14);
    let mut want = vec![14];
    want.extend_from_slice(b"event_t\0");
    want.extend_from_slice(&[0x02, 0x01, 0xAA, 0xBB]);
    assert_eq!(d.write(), want);
}

#[test]
fn a_frame_is_its_messages_one_after_the_other() {
    let msgs = vec![
        NetMessage::CdTrack(SvcCdTrack { track: 1, loop_track: 0 }),
        NetMessage::Encoded(vec![99, 98]),
        NetMessage::CrosshairAngle(SvcCrosshairAngle { pitch: 1, yaw: 2 }),
    ];
    assert_eq!(write_netmsg(&msgs), vec![32, 1, 0, 99, 98, 47, 1, 0, 2, 0]);
    assert!(write_netmsg(&vec![]).is_empty());
}

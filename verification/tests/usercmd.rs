use dod_tools::usercmd::{encode_usercmd, UserCmd};

/// An LSB-first bit reader, as `net_buffer.c` reads: used to read back
/// what `encode_usercmd` wrote.
struct Reader<'a> {
    data: &'a [u8],
    bitpos: usize,
}

impl<'a> Reader<'a> {
    fn new(data: &'a [u8]) -> Self {
        Self { data, bitpos: 0 }
    }

    fn read_bits(&mut self, bits: u32) -> u32 {
        let mut value: u32 = 0;
        for i in 0..bits {
            let byte = self.data[self.bitpos >> 3];
            let bit = (byte >> (self.bitpos & 7)) & 1;
            value |= (bit as u32) << i;
            self.bitpos += 1;
        }
        value
    }

    fn read_bit(&mut self) -> bool {
        self.read_bits(1) != 0
    }

    fn read_field_raw(&mut self, bits: u32) -> Option<u32> {
        if self.read_bit() {
            Some(self.read_bits(bits))
        } else {
            None
        }
    }

    fn read_field_angle(&mut self, bits: u32) -> Option<f32> {
        if self.read_bit() {
            let shift = (1u32 << bits) as f32;
            let i = self.read_bits(bits);
            let mut ret = i as f32 * (360.0 / shift);
            if ret < -180.0 {
                ret += 360.0;
            } else if ret > 180.0 {
                ret -= 360.0;
            }
            Some(ret)
        } else {
            None
        }
    }
}

/// An angle in degrees as the 16-bit code `MSG_WriteBitAngle` writes.
fn angle_code(angle_deg: f32) -> u32 {
    let shift = 1u32 << 16;
    let mask = shift - 1;
    let mut a = angle_deg % 360.0;
    if a < 0.0 {
        a += 360.0;
    }
    let d = ((a * shift as f32) / 360.0) as i32;
    (d as u32) & mask
}

fn make_cmd(pitch: f32, yaw: f32, roll: f32) -> UserCmd {
    UserCmd {
        lerp_msec: 0,
        msec: 0,
        view_angles: vec![angle_code(pitch), angle_code(yaw), angle_code(roll)],
        buttons: 0,
        light_level: 0,
        impulse: 0,
    }
}

#[test]
fn skipped_fields_encode_to_a_single_unchanged_bit_each() {
    let bytes = encode_usercmd(&make_cmd(0.0, 0.0, 0.0));
    let mut r = Reader::new(&bytes);

    assert_eq!(r.read_field_raw(9), Some(0)); // lerp_msec
    assert_eq!(r.read_field_raw(8), Some(0)); // msec
    assert_eq!(r.read_field_angle(16), Some(0.0)); // yaw
    assert_eq!(r.read_field_angle(16), Some(0.0)); // pitch
    assert_eq!(r.read_field_raw(16), Some(0)); // buttons
    assert_eq!(r.read_field_raw(12), None); // forwardmove
    assert_eq!(r.read_field_raw(8), Some(0)); // lightlevel
    assert_eq!(r.read_field_raw(12), None); // sidemove
    assert_eq!(r.read_field_raw(12), None); // upmove
    assert_eq!(r.read_field_raw(8), Some(0)); // impulse
    assert_eq!(r.read_field_angle(16), Some(0.0)); // roll
    assert_eq!(r.read_field_raw(6), None); // impact_index
    assert_eq!(r.read_field_raw(16), None); // impact_position[0]
    assert_eq!(r.read_field_raw(16), None); // impact_position[1]
    assert_eq!(r.read_field_raw(16), None); // impact_position[2]
}

#[test]
fn view_angles_round_trip_through_the_real_read_order() {
    let mut cmd = make_cmd(-12.5, 273.0, 0.0);
    let degrees = [-12.5f32, 273.0, 0.0];
    cmd.lerp_msec = 16;
    cmd.msec = 16;
    let bytes = encode_usercmd(&cmd);
    let mut r = Reader::new(&bytes);

    assert_eq!(r.read_field_raw(9), Some(16)); // lerp_msec
    assert_eq!(r.read_field_raw(8), Some(16)); // msec
    let yaw = r.read_field_angle(16).expect("yaw should be present");
    let pitch = r.read_field_angle(16).expect("pitch should be present");
    assert_eq!(r.read_field_raw(16), Some(0)); // buttons
    assert_eq!(r.read_field_raw(12), None); // forwardmove
    assert_eq!(r.read_field_raw(8), Some(0)); // lightlevel
    assert_eq!(r.read_field_raw(12), None); // sidemove
    assert_eq!(r.read_field_raw(12), None); // upmove
    assert_eq!(r.read_field_raw(8), Some(0)); // impulse
    let roll = r.read_field_angle(16).expect("roll should be present");
    assert_eq!(r.read_field_raw(6), None); // impact_index
    assert_eq!(r.read_field_raw(16), None); // impact_position[0]
    assert_eq!(r.read_field_raw(16), None); // impact_position[1]
    assert_eq!(r.read_field_raw(16), None); // impact_position[2]

    let angle_diff = |a: f32, b: f32| {
        let mut d = (a - b) % 360.0;
        if d > 180.0 {
            d -= 360.0;
        } else if d < -180.0 {
            d += 360.0;
        }
        d.abs()
    };
    assert!(angle_diff(pitch, degrees[0]) < 0.01);
    assert!(angle_diff(yaw, degrees[1]) < 0.01);
    assert!(angle_diff(roll, degrees[2]) < 0.01);
}

#[test]
fn a_usercmd_is_always_fourteen_bytes() {
    let mut cmd = make_cmd(10.0, 20.0, 30.0);
    cmd.lerp_msec = -1;
    cmd.msec = 255;
    cmd.buttons = 0xFFFF;
    cmd.light_level = -1;
    cmd.impulse = -128;
    assert_eq!(encode_usercmd(&cmd).len(), 14);
    assert_eq!(encode_usercmd(&make_cmd(0.0, 0.0, 0.0)).len(), 14);
}

#[test]
fn raw_fields_are_written_as_their_low_bits() {
    let mut cmd = make_cmd(0.0, 0.0, 0.0);
    cmd.lerp_msec = -1; // 9 low bits of 0xFFFF
    cmd.buttons = 0x1234;
    cmd.light_level = -2;
    cmd.impulse = 7;
    let bytes = encode_usercmd(&cmd);
    let mut r = Reader::new(&bytes);
    assert_eq!(r.read_field_raw(9), Some(0x1FF));
    assert_eq!(r.read_field_raw(8), Some(0));
    assert_eq!(r.read_field_raw(16), Some(0));
    assert_eq!(r.read_field_raw(16), Some(0));
    assert_eq!(r.read_field_raw(16), Some(0x1234));
    assert_eq!(r.read_field_raw(12), None);
    assert_eq!(r.read_field_raw(8), Some(0xFE));
    assert_eq!(r.read_field_raw(12), None);
    assert_eq!(r.read_field_raw(12), None);
    assert_eq!(r.read_field_raw(8), Some(7));
}

#[test]
fn a_missing_view_angle_counts_as_zero() {
    let cmd = UserCmd {
        lerp_msec: 0,
        msec: 0,
        view_angles: vec![100],
        buttons: 0,
        light_level: 0,
        impulse: 0,
    };
    let bytes = encode_usercmd(&cmd);
    let mut r = Reader::new(&bytes);
    r.read_field_raw(9);
    r.read_field_raw(8);
    assert_eq!(r.read_field_raw(16), Some(0)); // yaw, missing
    assert_eq!(r.read_field_raw(16), Some(100)); // pitch
}

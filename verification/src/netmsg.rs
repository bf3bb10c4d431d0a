//! Engine messages whose wire form needs no delta tables: their parsers
//! (the bytes after the message id) and writers (id included).
use vstd::prelude::*;
use vstd::slice::slice_subrange;
use crate::writer::le_bytes_u16_spec;

verus! {

/// Why a message could not be parsed.
#[derive(Clone, Copy, Debug, PartialEq, Eq, Structural)]
pub enum ParseError {
    /// The input ended before the message did.
    Incomplete,
}

/// `svc_cdtrack`: the CD track to play.
#[derive(Clone, Copy, Debug, PartialEq, Eq, Structural)]
pub struct SvcCdTrack {
    pub track: i8,
    pub loop_track: i8,
}

/// `svc_crosshairangle`: the crosshair's offset.
#[derive(Clone, Copy, Debug, PartialEq, Eq, Structural)]
pub struct SvcCrosshairAngle {
    pub pitch: i16,
    pub yaw: i16,
}

/// One field of a delta description.
pub struct DeltaField {
    pub name: Vec<u8>,
    pub bits: u32,
    /// The divisor, as 32-bit float bits.
    pub divisor_bits: u32,
    pub flags: u32,
}

/// `svc_deltadescription`: a delta table, with the bytes of its encoded
/// fields kept as they were read.
pub struct SvcDeltaDescription {
    /// The table's name, NUL terminator included.
    pub name: Vec<u8>,
    pub total_fields: u16,
    pub fields: Vec<DeltaField>,
    /// The encoded fields, as read.
    pub clone: Vec<u8>,
}

/// A message to write.
pub enum NetMessage {
    CdTrack(SvcCdTrack),
    CrosshairAngle(SvcCrosshairAngle),
    DeltaDescription(SvcDeltaDescription),
    /// A message already encoded, id included.
    Encoded(Vec<u8>),
}

pub const SVC_CDTRACK: u8 = 32;

pub const SVC_CROSSHAIRANGLE: u8 = 47;

pub const SVC_DELTADESCRIPTION: u8 = 14;

/// The little-endian bytes of an `i16`.
pub open spec fn le_bytes_i16_spec(v: i16) -> Seq<u8> {
    le_bytes_u16_spec(v as u16)
}

/// The `i16` of two little-endian bytes.
pub open spec fn i16_of_le(b0: u8, b1: u8) -> i16 {
    (b0 as int + 256 * b1 as int) as u16 as i16
}

pub open spec fn cd_track_bytes(m: SvcCdTrack) -> Seq<u8> {
    seq![SVC_CDTRACK, m.track as u8, m.loop_track as u8]
}

pub open spec fn crosshair_angle_bytes(m: SvcCrosshairAngle) -> Seq<u8> {
    seq![SVC_CROSSHAIRANGLE] + le_bytes_i16_spec(m.pitch) + le_bytes_i16_spec(m.yaw)
}

pub open spec fn delta_description_bytes(m: SvcDeltaDescription) -> Seq<u8> {
    seq![SVC_DELTADESCRIPTION] + m.name@ + le_bytes_u16_spec(m.total_fields) + m.clone@
}

pub open spec fn message_bytes(m: NetMessage) -> Seq<u8> {
    match m {
        NetMessage::CdTrack(t) => cd_track_bytes(t),
        NetMessage::CrosshairAngle(c) => crosshair_angle_bytes(c),
        NetMessage::DeltaDescription(d) => delta_description_bytes(d),
        NetMessage::Encoded(b) => b@,
    }
}

/// The messages, encoded one after the other.
pub open spec fn messages_bytes(ms: Seq<NetMessage>) -> Seq<u8>
    decreases ms.len(),
{
    if ms.len() == 0 {
        Seq::empty()
    } else {
        messages_bytes(ms.drop_last()) + message_bytes(ms.last())
    }
}

/// What parsing `svc_cdtrack` from `i` gives: two signed bytes, and the
/// rest of the input.
pub open spec fn parse_cd_track_spec(i: Seq<u8>) -> Option<(Seq<u8>, SvcCdTrack)> {
    if i.len() < 2 {
        None
    } else {
        Some((i.skip(2), SvcCdTrack { track: i[0] as i8, loop_track: i[1] as i8 }))
    }
}

/// What parsing `svc_crosshairangle` from `i` gives: two little-endian
/// `i16`, and the rest of the input.
pub open spec fn parse_crosshair_angle_spec(i: Seq<u8>) -> Option<(Seq<u8>, SvcCrosshairAngle)> {
    if i.len() < 4 {
        None
    } else {
        Some(
            (
                i.skip(4),
                SvcCrosshairAngle { pitch: i16_of_le(i[0], i[1]), yaw: i16_of_le(i[2], i[3]) },
            ),
        )
    }
}

fn i16_from_le(b0: u8, b1: u8) -> (r: i16)
    ensures
        r == i16_of_le(b0, b1),
{
    let v: u16 = (b0 as u16) | ((b1 as u16) << 8u16);
    assert(v == b0 as u16 + 256 * (b1 as u16)) by (bit_vector)
        requires
            v == (b0 as u16) | ((b1 as u16) << 8u16),
    ;
    #[verifier::truncate]
    (v as i16)
}

fn push_i16(out: &mut Vec<u8>, v: i16)
    ensures
        final(out)@ == old(out)@ + le_bytes_i16_spec(v),
{
    let u = v as u16;
    out.push(#[verifier::truncate] (u as u8));
    out.push(#[verifier::truncate] ((u >> 8u16) as u8));
    assert(final(out)@ =~= old(out)@ + le_bytes_i16_spec(v));
}

impl SvcCdTrack {
    pub fn id(&self) -> (r: u8)
        ensures
            r == SVC_CDTRACK,
    {
        SVC_CDTRACK
    }

    /// Reads the message body (what follows the id).
    pub fn parse(i: &[u8]) -> (r: Result<(&[u8], SvcCdTrack), ParseError>)
        ensures
            match parse_cd_track_spec(i@) {
                Some((rest, m)) => r matches Ok((rest2, m2)) && rest2@ == rest && m2 == m,
                None => r == Err::<(&[u8], SvcCdTrack), ParseError>(ParseError::Incomplete),
            },
    {
        if i.len() < 2 {
            return Err(ParseError::Incomplete);
        }
        let m = SvcCdTrack { track: i[0] as i8, loop_track: i[1] as i8 };
        let rest = slice_subrange(i, 2, i.len());
        proof {
            assert(rest@ =~= i@.skip(2));
        }
        Ok((rest, m))
    }

    /// The message, id first.
    pub fn write(&self) -> (r: Vec<u8>)
        ensures
            r@ == cd_track_bytes(*self),
    {
        let mut out: Vec<u8> = Vec::new();
        out.push(self.id());
        out.push(self.track as u8);
        out.push(self.loop_track as u8);
        assert(out@ =~= cd_track_bytes(*self));
        out
    }
}

impl SvcCrosshairAngle {
    pub fn id(&self) -> (r: u8)
        ensures
            r == SVC_CROSSHAIRANGLE,
    {
        SVC_CROSSHAIRANGLE
    }

    /// Reads the message body (what follows the id).
    pub fn parse(i: &[u8]) -> (r: Result<(&[u8], SvcCrosshairAngle), ParseError>)
        ensures
            match parse_crosshair_angle_spec(i@) {
                Some((rest, m)) => r matches Ok((rest2, m2)) && rest2@ == rest && m2 == m,
                None => r == Err::<(&[u8], SvcCrosshairAngle), ParseError>(
                    ParseError::Incomplete,
                ),
            },
    {
        if i.len() < 4 {
            return Err(ParseError::Incomplete);
        }
        let pitch = i16_from_le(i[0], i[1]);
        let yaw = i16_from_le(i[2], i[3]);
        let rest = slice_subrange(i, 4, i.len());
        proof {
            assert(rest@ =~= i@.skip(4));
        }
        Ok((rest, SvcCrosshairAngle { pitch, yaw }))
    }

    /// The message, id first.
    pub fn write(&self) -> (r: Vec<u8>)
        ensures
            r@ == crosshair_angle_bytes(*self),
    {
        let mut out: Vec<u8> = Vec::new();
        out.push(self.id());
        push_i16(&mut out, self.pitch);
        push_i16(&mut out, self.yaw);
        assert(out@ =~= crosshair_angle_bytes(*self));
        out
    }
}

fn extend_bytes(out: &mut Vec<u8>, b: &Vec<u8>)
    ensures
        final(out)@ == old(out)@ + b@,
{
    let mut i: usize = 0;
    while i < b.len()
        invariant
            i <= b@.len(),
            out@ == old(out)@ + b@.take(i as int),
        decreases b@.len() - i,
    {
        out.push(b[i]);
        proof {
            assert(b@.take(i + 1) =~= b@.take(i as int).push(b@[i as int]));
            assert(out@ =~= old(out)@ + b@.take(i + 1));
        }
        i = i + 1;
    }
    assert(b@.take(b@.len() as int) =~= b@);
}

impl SvcDeltaDescription {
    pub fn id(&self) -> (r: u8)
        ensures
            r == SVC_DELTADESCRIPTION,
    {
        SVC_DELTADESCRIPTION
    }

    /// The message, id first: the name, the field count, and the encoded
    /// fields as they were read.
    pub fn write(&self) -> (r: Vec<u8>)
        ensures
            r@ == delta_description_bytes(*self),
    {
        let mut out: Vec<u8> = Vec::new();
        out.push(self.id());
        extend_bytes(&mut out, &self.name);
        let t = self.total_fields;
        out.push(#[verifier::truncate] (t as u8));
        out.push(#[verifier::truncate] ((t >> 8u16) as u8));
        extend_bytes(&mut out, &self.clone);
        assert(out@ =~= delta_description_bytes(*self));
        out
    }
}

impl NetMessage {
    /// The message, id first.
    pub fn write(&self) -> (r: Vec<u8>)
        ensures
            r@ == message_bytes(*self),
    {
        match self {
            NetMessage::CdTrack(t) => t.write(),
            NetMessage::CrosshairAngle(c) => c.write(),
            NetMessage::DeltaDescription(d) => d.write(),
            NetMessage::Encoded(b) => {
                let mut out: Vec<u8> = Vec::new();
                extend_bytes(&mut out, b);
                assert(out@ =~= b@);
                out
            },
        }
    }
}

/// The bytes of a frame's messages: each message's encoding, in order.
pub fn write_netmsg(i: &Vec<NetMessage>) -> (r: Vec<u8>)
    ensures
        r@ == messages_bytes(i@),
{
    let mut res: Vec<u8> = Vec::new();
    let mut k: usize = 0;
    while k < i.len()
        invariant
            k <= i@.len(),
            res@ == messages_bytes(i@.take(k as int)),
        decreases i@.len() - k,
    {
        let b = i[k].write();
        extend_bytes(&mut res, &b);
        proof {
            assert(i@.take(k + 1).drop_last() =~= i@.take(k as int));
        }
        k = k + 1;
    }
    proof {
        assert(i@.take(i@.len() as int) =~= i@);
    }
    res
}

/// Parsing a written `svc_cdtrack` (after its id) gives the message back,
/// and nothing is left over.
pub proof fn law_cd_track_round_trip(m: SvcCdTrack)
    ensures
        parse_cd_track_spec(cd_track_bytes(m).skip(1)) == Some((Seq::<u8>::empty(), m)),
{
    let t = m.track;
    let l = m.loop_track;
    assert((t as u8) as i8 == t) by (bit_vector);
    assert((l as u8) as i8 == l) by (bit_vector);
    assert(cd_track_bytes(m).skip(1).skip(2) =~= Seq::<u8>::empty());
}

/// Parsing a written `svc_crosshairangle` (after its id) gives the message
/// back, and nothing is left over.
pub proof fn law_crosshair_angle_round_trip(m: SvcCrosshairAngle)
    ensures
        parse_crosshair_angle_spec(crosshair_angle_bytes(m).skip(1)) == Some(
            (Seq::<u8>::empty(), m),
        ),
{
    let p = m.pitch;
    let y = m.yaw;
    let b = crosshair_angle_bytes(m).skip(1);
    assert(b =~= seq![
        (p as u16) as u8,
        ((p as u16) >> 8u16) as u8,
        (y as u16) as u8,
        ((y as u16) >> 8u16) as u8,
    ]);
    assert(i16_of_le((p as u16) as u8, ((p as u16) >> 8u16) as u8) == p) by {
        let u = p as u16;
        assert(((u as u8) as int + 256 * ((u >> 8u16) as u8) as int) == u as int) by (bit_vector);
        assert((u as u16) as i16 == p) by (bit_vector)
            requires
                u == p as u16,
        ;
    }
    assert(i16_of_le((y as u16) as u8, ((y as u16) >> 8u16) as u8) == y) by {
        let u = y as u16;
        assert(((u as u8) as int + 256 * ((u >> 8u16) as u8) as int) == u as int) by (bit_vector);
        assert((u as u16) as i16 == y) by (bit_vector)
            requires
                u == y as u16,
        ;
    }
    assert(b.skip(4) =~= Seq::<u8>::empty());
}

} // verus!

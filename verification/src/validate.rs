//! Re-checks an IDEM file the way Xash3D's demo player would read it: the
//! header, the directory, and a walk of every entry's frames.
//!
//! Passing means the file is structurally acceptable to Xash. It does not
//! prove the contents replay correctly.
use vstd::prelude::*;
use crate::text::{decimal, push_int};
use crate::idem::{
    IDEMOHEADER, DEMO_PROTOCOL, PROTOCOL_GOLDSRC_VERSION_DEMO, MAX_INIT_MSG, HEADER_SIZE,
    ENTRY_SIZE, DEM_NOREWIND, DEM_READ, DEM_USERDATA, DEM_USERCMD, DEM_STOP,
};

verus! {

/// One problem found in an IDEM file.
#[derive(PartialEq, Eq, Structural, Clone, Copy, Debug)]
pub enum ValidationError {
    /// "shorter than IDEM header"
    ShortHeader,
    /// "truncated read at {at}": an i32, or the 16-bit length of a
    /// `dem_usercmd` frame, at `at` runs past the end.
    TruncatedRead(usize),
    /// "id != IDEMOHEADER"
    BadMagic,
    /// "dem_protocol {} != 3"
    DemProtocol(i32),
    /// "net_protocol {} would be rejected"
    NetProtocol(i32),
    /// "directory_offset {} out of range"
    DirectoryOffset(i32),
    /// "bogus numentries {}"
    EntryCount(i32),
    /// "entry {} truncated": the directory entry itself runs past the end.
    EntryTruncated(usize),
    /// "entry {} extends past EOF"
    EntryPastEof(usize),
    /// "entry {}: cmd {} > dem_stop"
    BadCommand(usize, u8),
    /// "entry {}: msglen {} rejected"
    MessageLength(usize, i32),
    /// "entry {}: frame walk ended at {}, expected {} (drift {})"
    FrameWalkDrift(usize, u64, usize, i64),
    /// "entry {}: no terminating dem_stop"
    NoStop(usize),
}

/// The little-endian `i32` of four bytes.
pub open spec fn i32_of_le(b0: u8, b1: u8, b2: u8, b3: u8) -> i32 {
    (b0 as int + 256 * b1 as int + 65536 * b2 as int + 16777216 * b3 as int) as u32 as i32
}

/// The little-endian `i32` at byte `at`.
pub open spec fn rd_i32(data: Seq<u8>, at: int) -> i32 {
    i32_of_le(data[at], data[at + 1], data[at + 2], data[at + 3])
}

/// `i32::from_le_bytes` of the four bytes at `at`.
pub(crate) fn read_i32(data: &[u8], at: usize) -> (r: i32)
    requires
        at + 4 <= data@.len(),
    ensures
        r == rd_i32(data@, at as int),
{
    let b0 = data[at];
    let b1 = data[at + 1];
    let b2 = data[at + 2];
    let b3 = data[at + 3];
    let v: u32 = (b0 as u32) | ((b1 as u32) << 8u32) | ((b2 as u32) << 16u32) | ((b3 as u32)
        << 24u32);
    assert(v == b0 as u32 + 256 * (b1 as u32) + 65536 * (b2 as u32) + 16777216 * (b3 as u32))
        by (bit_vector)
        requires
            v == (b0 as u32) | ((b1 as u32) << 8u32) | ((b2 as u32) << 16u32) | ((b3 as u32)
                << 24u32),
    ;
    v as i32
}

/// How the walk over one entry's frames came to an end.
#[derive(PartialEq, Eq, Structural, Clone, Copy)]
pub enum WalkEnd {
    /// A length field at this position runs past the end of the file:
    /// validation stops.
    Truncated(usize),
    /// The walk stopped at `q`; whether a `dem_stop` was seen; the error that
    /// cut the walk short, if one did.
    Ended(u64, bool, Option<ValidationError>),
}

/// The walk over the frames of entry `entry` from `q` to `end`: each frame
/// is a command byte, a 32-bit time, and what the command carries.
pub open spec fn frame_walk(data: Seq<u8>, entry: usize, q: int, end: int, saw_stop: bool) -> WalkEnd
    decreases if q < end { end - q } else { 0 },
{
    if q >= end || q < 0 {
        WalkEnd::Ended(q as u64, saw_stop, None)
    } else {
        let cmd = data[q];
        let q1 = q + 1;
        let q2 = q1 + 4;
        if cmd > DEM_STOP {
            WalkEnd::Ended(q1 as u64, saw_stop, Some(ValidationError::BadCommand(entry, cmd)))
        } else if cmd == DEM_NOREWIND || cmd == DEM_READ {
            let q3 = q2 + 28;
            if q3 + 4 > data.len() {
                WalkEnd::Truncated(q3 as usize)
            } else {
                let mlen = rd_i32(data, q3);
                let q4 = q3 + 4;
                if mlen < 0 || mlen > MAX_INIT_MSG {
                    WalkEnd::Ended(
                        q4 as u64,
                        saw_stop,
                        Some(ValidationError::MessageLength(entry, mlen)),
                    )
                } else {
                    frame_walk(data, entry, q4 + mlen, end, saw_stop)
                }
            }
        } else if cmd == DEM_USERDATA {
            if q2 + 4 > data.len() {
                WalkEnd::Truncated(q2 as usize)
            } else {
                let sz = rd_i32(data, q2);
                let skip: int = if sz < 0 { 0 } else { sz as int };
                frame_walk(data, entry, q2 + 4 + skip, end, saw_stop)
            }
        } else if cmd == DEM_USERCMD {
            let q3 = q2 + 8;
            if q3 + 2 > data.len() {
                WalkEnd::Truncated(q3 as usize)
            } else {
                let nb = data[q3] as int + 256 * data[q3 + 1] as int;
                frame_walk(data, entry, q3 + 2 + nb, end, saw_stop)
            }
        } else if cmd == DEM_STOP {
            frame_walk(data, entry, q2, end, true)
        } else {
            frame_walk(data, entry, q2, end, saw_stop)
        }
    }
}

/// The errors that checking directory entry `i` adds, and whether the
/// validation stops with it.
pub open spec fn entry_step(data: Seq<u8>, dir_off: int, i: int) -> (Seq<ValidationError>, bool) {
    let p = dir_off + 4 + i * ENTRY_SIZE;
    if p + ENTRY_SIZE > data.len() {
        (seq![ValidationError::EntryTruncated(i as usize)], true)
    } else {
        let off = rd_i32(data, p + 12) as usize as int;
        let len = rd_i32(data, p + 16) as usize as int;
        if off + len > data.len() {
            (seq![ValidationError::EntryPastEof(i as usize)], false)
        } else {
            let end = off + len;
            match frame_walk(data, i as usize, off, end, false) {
                WalkEnd::Truncated(at) => (seq![ValidationError::TruncatedRead(at)], true),
                WalkEnd::Ended(q, saw_stop, stop_err) => {
                    let drift = q as int - end;
                    let e1: Seq<ValidationError> = match stop_err {
                        Some(e) => seq![e],
                        None => Seq::empty(),
                    };
                    let e2 = if q != end {
                        e1.push(
                            ValidationError::FrameWalkDrift(
                                i as usize,
                                q,
                                end as usize,
                                drift as i64,
                            ),
                        )
                    } else {
                        e1
                    };
                    let e3 = if !saw_stop {
                        e2.push(ValidationError::NoStop(i as usize))
                    } else {
                        e2
                    };
                    (e3, false)
                },
            }
        }
    }
}

/// What the validation of the directory entries from `i` on finds.
pub open spec fn entries_walk(data: Seq<u8>, dir_off: int, n: int, i: int) -> Seq<ValidationError>
    decreases n - i,
{
    if i >= n || i < 0 {
        Seq::empty()
    } else {
        let (errs, stop) = entry_step(data, dir_off, i);
        if stop {
            errs
        } else {
            errs + entries_walk(data, dir_off, n, i + 1)
        }
    }
}

/// What validating `data` finds, in the order found.
pub open spec fn validate_spec(data: Seq<u8>) -> Seq<ValidationError> {
    if data.len() < HEADER_SIZE {
        seq![ValidationError::ShortHeader]
    } else {
        let e1: Seq<ValidationError> = if rd_i32(data, 0) != IDEMOHEADER {
            seq![ValidationError::BadMagic]
        } else {
            Seq::empty()
        };
        let e2 = if rd_i32(data, 4) != DEMO_PROTOCOL {
            e1.push(ValidationError::DemProtocol(rd_i32(data, 4)))
        } else {
            e1
        };
        let e3 = if rd_i32(data, 8) != PROTOCOL_GOLDSRC_VERSION_DEMO {
            e2.push(ValidationError::NetProtocol(rd_i32(data, 8)))
        } else {
            e2
        };
        let dir_off = rd_i32(data, 212);
        if dir_off <= 0 || dir_off >= data.len() {
            e3.push(ValidationError::DirectoryOffset(dir_off))
        } else if dir_off + 4 > data.len() {
            e3.push(ValidationError::TruncatedRead(dir_off as usize))
        } else {
            let n = rd_i32(data, dir_off as int);
            if n < 1 || n > 1024 {
                e3.push(ValidationError::EntryCount(n))
            } else {
                e3 + entries_walk(data, dir_off as int, n as int, 0)
            }
        }
    }
}

/// Walks the frames of entry `entry`, from `off` to `end`. A walk that
/// ends, ends at most 2^32 bytes past `end`.
fn walk_frames(data: &[u8], entry: usize, off: usize, end: usize) -> (r: WalkEnd)
    requires
        off <= end <= data@.len(),
        data@.len() <= isize::MAX,
    ensures
        r == frame_walk(data@, entry, off as int, end as int, false),
        r matches WalkEnd::Ended(q, _, _) ==> q <= end + 0x1_0000_0000,
{
    let len = data.len() as u64;
    let e = end as u64;
    let mut q: u64 = off as u64;
    let mut saw_stop = false;
    while q < e
        invariant
            end <= data@.len() <= isize::MAX,
            len == data@.len(),
            e == end,
            q <= e + 0x1_0000_0000,
            frame_walk(data@, entry, q as int, end as int, saw_stop) == frame_walk(
                data@,
                entry,
                off as int,
                end as int,
                false,
            ),
        decreases if q < e { e - q } else { 0 },
    {
        let cmd = data[q as usize];
        let q1 = q + 1;
        if cmd > DEM_STOP {
            return WalkEnd::Ended(q1, saw_stop, Some(ValidationError::BadCommand(entry, cmd)));
        }
        let q2 = q1 + 4;
        if cmd == DEM_NOREWIND || cmd == DEM_READ {
            let q3 = q2 + 28;
            if q3 + 4 > len {
                return WalkEnd::Truncated(q3 as usize);
            }
            let mlen = read_i32(data, q3 as usize);
            let q4 = q3 + 4;
            if mlen < 0 || mlen as u32 > MAX_INIT_MSG {
                return WalkEnd::Ended(q4, saw_stop, Some(ValidationError::MessageLength(entry, mlen)));
            }
            q = q4 + mlen as u64;
        } else if cmd == DEM_USERDATA {
            if q2 + 4 > len {
                return WalkEnd::Truncated(q2 as usize);
            }
            let sz = read_i32(data, q2 as usize);
            let skip: u64 = if sz < 0 { 0 } else { sz as u64 };
            q = q2 + 4 + skip;
        } else if cmd == DEM_USERCMD {
            let q3 = q2 + 8;
            if q3 + 2 > len {
                return WalkEnd::Truncated(q3 as usize);
            }
            let nb = (data[q3 as usize] as u64) + 256 * (data[q3 as usize + 1] as u64);
            q = q3 + 2 + nb;
        } else if cmd == DEM_STOP {
            saw_stop = true;
            q = q2;
        } else {
            q = q2;
        }
    }
    WalkEnd::Ended(q, saw_stop, None)
}

/// Validates `data`: every problem found, in the order found; none when the
/// file is structurally acceptable to Xash. Any byte slice can be checked
/// (a slice never holds more than `isize::MAX` bytes).
pub fn validate_checked(data: &[u8]) -> (r: Vec<ValidationError>)
    requires
        data@.len() <= isize::MAX,
    ensures
        r@ == validate_spec(data@),
{
    let mut errs: Vec<ValidationError> = Vec::new();
    if data.len() < HEADER_SIZE {
        errs.push(ValidationError::ShortHeader);
        proof {
            assert(errs@ =~= seq![ValidationError::ShortHeader]);
        }
        return errs;
    }
    if read_i32(data, 0) != IDEMOHEADER {
        errs.push(ValidationError::BadMagic);
    }
    let dem_protocol = read_i32(data, 4);
    if dem_protocol != DEMO_PROTOCOL {
        errs.push(ValidationError::DemProtocol(dem_protocol));
    }
    let np = read_i32(data, 8);
    if np != PROTOCOL_GOLDSRC_VERSION_DEMO {
        errs.push(ValidationError::NetProtocol(np));
    }
    proof {
        let e1: Seq<ValidationError> = if rd_i32(data@, 0) != IDEMOHEADER {
            seq![ValidationError::BadMagic]
        } else {
            Seq::empty()
        };
        assert(e1.len() <= 1);
    }
    let dir_off = read_i32(data, 212);
    if dir_off <= 0 || dir_off as usize >= data.len() {
        errs.push(ValidationError::DirectoryOffset(dir_off));
        return errs;
    }
    let d = dir_off as usize;
    if d > data.len() - 4 {
        errs.push(ValidationError::TruncatedRead(d));
        return errs;
    }
    let n = read_i32(data, d);
    if n < 1 || n > 1024 {
        errs.push(ValidationError::EntryCount(n));
        return errs;
    }
    let count = n as usize;
    let mut i: usize = 0;
    while i < count
        invariant
            count == n as int,
            1 <= n <= 1024,
            i <= count,
            d == dir_off as int,
            d < data@.len() <= isize::MAX,
            validate_spec(data@) == errs@ + entries_walk(data@, d as int, count as int, i as int),
        decreases count - i,
    {
        let ghost before = errs@;
        let (found, stop) = check_entry(data, d, i);
        let mut found = found;
        let ghost f = found@;
        errs.append(&mut found);
        if stop {
            proof {
                assert(before + f =~= errs@);
            }
            return errs;
        }
        proof {
            let rest = entries_walk(data@, d as int, count as int, i + 1);
            assert(before + (f + rest) =~= errs@ + rest);
        }
        i = i + 1;
    }
    proof {
        assert(errs@ + Seq::<ValidationError>::empty() =~= errs@);
    }
    errs
}

/// Checks directory entry `i` of the directory at `d`: the errors found,
/// and whether validation stops there.
fn check_entry(data: &[u8], d: usize, i: usize) -> (r: (Vec<ValidationError>, bool))
    requires
        i <= 1024,
        d < data@.len() <= isize::MAX,
    ensures
        (r.0@, r.1) == entry_step(data@, d as int, i as int),
{
    let mut errs: Vec<ValidationError> = Vec::new();
    let p = d + 4 + i * ENTRY_SIZE;
    if p + ENTRY_SIZE > data.len() {
        errs.push(ValidationError::EntryTruncated(i));
        proof {
            assert(errs@ =~= seq![ValidationError::EntryTruncated(i)]);
        }
        return (errs, true);
    }
    let off = read_i32(data, p + 12) as usize;
    let len = read_i32(data, p + 16) as usize;
    if off > data.len() || len > data.len() - off {
        errs.push(ValidationError::EntryPastEof(i));
        proof {
            assert(errs@ =~= seq![ValidationError::EntryPastEof(i)]);
        }
        return (errs, false);
    }
    let end = off + len;
    match walk_frames(data, i, off, end) {
        WalkEnd::Truncated(at) => {
            errs.push(ValidationError::TruncatedRead(at));
            proof {
                assert(errs@ =~= seq![ValidationError::TruncatedRead(at)]);
            }
            (errs, true)
        },
        WalkEnd::Ended(q, saw_stop, stop_err) => {
            let e = end as u64;
            let drift: i64 = if q >= e {
                (q - e) as i64
            } else {
                -((e - q) as i64)
            };
            match stop_err {
                Some(err) => errs.push(err),
                None => {},
            }
            if q != e {
                errs.push(ValidationError::FrameWalkDrift(i, q, end, drift));
            }
            if !saw_stop {
                errs.push(ValidationError::NoStop(i));
            }
            proof {
                let e1: Seq<ValidationError> = match stop_err {
                    Some(x) => seq![x],
                    None => Seq::empty(),
                };
                let e2 = if q != end {
                    e1.push(ValidationError::FrameWalkDrift(i, q, end, drift))
                } else {
                    e1
                };
                let e3 = if !saw_stop {
                    e2.push(ValidationError::NoStop(i))
                } else {
                    e2
                };
                assert(errs@ =~= e3);
            }
            (errs, false)
        },
    }
}


/// The text of an error, as the validator reports it.
pub open spec fn message_spec(e: ValidationError) -> Seq<char> {
    match e {
        ValidationError::ShortHeader => "shorter than IDEM header"@,
        ValidationError::TruncatedRead(at) => "truncated read at "@ + decimal(at as int),
        ValidationError::BadMagic => "id != IDEMOHEADER"@,
        ValidationError::DemProtocol(v) => "dem_protocol "@ + decimal(v as int) + " != 3"@,
        ValidationError::NetProtocol(v) => "net_protocol "@ + decimal(v as int)
            + " would be rejected"@,
        ValidationError::DirectoryOffset(v) => "directory_offset "@ + decimal(v as int)
            + " out of range"@,
        ValidationError::EntryCount(n) => "bogus numentries "@ + decimal(n as int),
        ValidationError::EntryTruncated(i) => "entry "@ + decimal(i as int) + " truncated"@,
        ValidationError::EntryPastEof(i) => "entry "@ + decimal(i as int) + " extends past EOF"@,
        ValidationError::BadCommand(i, c) => "entry "@ + decimal(i as int) + ": cmd "@ + decimal(
            c as int,
        ) + " > dem_stop"@,
        ValidationError::MessageLength(i, m) => "entry "@ + decimal(i as int) + ": msglen "@
            + decimal(m as int) + " rejected"@,
        ValidationError::FrameWalkDrift(i, q, end, d) => "entry "@ + decimal(i as int)
            + ": frame walk ended at "@ + decimal(q as int) + ", expected "@ + decimal(end as int)
            + " (drift "@ + decimal(d as int) + ")"@,
        ValidationError::NoStop(i) => "entry "@ + decimal(i as int) + ": no terminating dem_stop"@,
    }
}

impl ValidationError {
    /// The text of the error, as the validator reports it.
    pub fn message(&self) -> (r: String)
        ensures
            r@ == message_spec(*self),
    {
        let mut s = String::new();
        match *self {
            ValidationError::ShortHeader => {
                s.append("shorter than IDEM header");
            },
            ValidationError::TruncatedRead(at) => {
                s.append("truncated read at ");
                push_int(&mut s, at as i128);
            },
            ValidationError::BadMagic => {
                s.append("id != IDEMOHEADER");
            },
            ValidationError::DemProtocol(v) => {
                s.append("dem_protocol ");
                push_int(&mut s, v as i128);
                s.append(" != 3");
            },
            ValidationError::NetProtocol(v) => {
                s.append("net_protocol ");
                push_int(&mut s, v as i128);
                s.append(" would be rejected");
            },
            ValidationError::DirectoryOffset(v) => {
                s.append("directory_offset ");
                push_int(&mut s, v as i128);
                s.append(" out of range");
            },
            ValidationError::EntryCount(n) => {
                s.append("bogus numentries ");
                push_int(&mut s, n as i128);
            },
            ValidationError::EntryTruncated(i) => {
                s.append("entry ");
                push_int(&mut s, i as i128);
                s.append(" truncated");
            },
            ValidationError::EntryPastEof(i) => {
                s.append("entry ");
                push_int(&mut s, i as i128);
                s.append(" extends past EOF");
            },
            ValidationError::BadCommand(i, c) => {
                s.append("entry ");
                push_int(&mut s, i as i128);
                s.append(": cmd ");
                push_int(&mut s, c as i128);
                s.append(" > dem_stop");
            },
            ValidationError::MessageLength(i, m) => {
                s.append("entry ");
                push_int(&mut s, i as i128);
                s.append(": msglen ");
                push_int(&mut s, m as i128);
                s.append(" rejected");
            },
            ValidationError::FrameWalkDrift(i, q, end, d) => {
                s.append("entry ");
                push_int(&mut s, i as i128);
                s.append(": frame walk ended at ");
                push_int(&mut s, q as i128);
                s.append(", expected ");
                push_int(&mut s, end as i128);
                s.append(" (drift ");
                push_int(&mut s, d as i128);
                s.append(")");
            },
            ValidationError::NoStop(i) => {
                s.append("entry ");
                push_int(&mut s, i as i128);
                s.append(": no terminating dem_stop");
            },
        }
        s
    }
}

/// Re-check produced bytes the way `CL_ParseDemoHeader`, `CL_PlayDemo_f` and
/// `CL_DemoReadMessage` would, and describe each problem found. An empty
/// result means the file is structurally acceptable to Xash. Any byte slice
/// can be checked: a frame whose fields run past the end of the file is
/// reported as a truncated read, an entry whose offset and length add up
/// past the end as extending past EOF.
pub fn validate(data: &[u8]) -> (r: Vec<String>)
    requires
        data@.len() <= isize::MAX,
    ensures
        r@.len() == validate_spec(data@).len(),
        forall|k: int| 0 <= k < r@.len() ==> #[trigger] r@[k]@ == message_spec(
            validate_spec(data@)[k],
        ),
{
    let errs = validate_checked(data);
    let mut out: Vec<String> = Vec::new();
    let mut k: usize = 0;
    while k < errs.len()
        invariant
            errs@ == validate_spec(data@),
            k <= errs@.len(),
            out@.len() == k,
            forall|j: int| 0 <= j < k ==> #[trigger] out@[j]@ == message_spec(errs@[j]),
        decreases errs@.len() - k,
    {
        let m = errs[k].message();
        out.push(m);
        k = k + 1;
    }
    out
}
} // verus!

//! What transcoding writes, validation accepts.
use vstd::prelude::*;
use crate::writer::{le_bytes_u16_spec, law_fixed_str_width};
use crate::transcode::{
    Header, Options, DirectoryEntry, Frame, FrameData, le32, frame_bytes, frames_bytes,
    usercmd_frame_bytes, net_cmd, missing_payload, first_missing, message_payload,
    first_missing_entries, entries_body, entry_dir_bytes, dir_records, header_bytes, idem_bytes,
    entry_offset, comment_bytes, gamedir_bytes,
};
use crate::validate::{
    ValidationError, WalkEnd, rd_i32, i32_of_le, frame_walk, entry_step, entries_walk,
    validate_spec,
};
use crate::bit::le_bytes_u32_spec;
use crate::idem::{
    DEM_NOREWIND, DEM_READ, IDEMOHEADER, DEMO_PROTOCOL, PROTOCOL_GOLDSRC_VERSION_DEMO, MAX_INIT_MSG, DEM_JUMPTIME, DEM_USERDATA, DEM_USERCMD, DEM_STOP, ENTRY_SIZE, FIELD_WIDTH, HEADER_SIZE,
};

verus! {

/// Four little-endian bytes of an `i32` read back as that `i32`.
pub proof fn lemma_le32_read_back(v: i32)
    ensures
        i32_of_le(le32(v)[0], le32(v)[1], le32(v)[2], le32(v)[3]) == v,
{
    let u = v as u32;
    let b0 = u as u8;
    let b1 = (u >> 8u32) as u8;
    let b2 = (u >> 16u32) as u8;
    let b3 = (u >> 24u32) as u8;
    assert(b0 as u32 + 256 * (b1 as u32) + 65536 * (b2 as u32) + 16777216 * (b3 as u32) == u)
        by (bit_vector)
        requires
            b0 == u as u8,
            b1 == (u >> 8u32) as u8,
            b2 == (u >> 16u32) as u8,
            b3 == (u >> 24u32) as u8,
    ;
    assert((u as i32) == v) by (bit_vector)
        requires
            u == v as u32,
    ;
}

/// An `i32` written at `at` reads back there.
proof fn lemma_rd_at(data: Seq<u8>, at: int, v: i32)
    requires
        0 <= at,
        at + 4 <= data.len(),
        data.subrange(at, at + 4) == le32(v),
    ensures
        rd_i32(data, at) == v,
{
    lemma_le32_read_back(v);
    assert(data[at] == data.subrange(at, at + 4)[0]);
    assert(data[at + 1] == data.subrange(at, at + 4)[1]);
    assert(data[at + 2] == data.subrange(at, at + 4)[2]);
    assert(data[at + 3] == data.subrange(at, at + 4)[3]);
}

/// The layout of the two IDEM frames a GoldSrc network message frame
/// becomes, when its messages were kept and fit a message. First a
/// `dem_usercmd` frame of 29 bytes: its command, its time, the outgoing
/// sequence number twice. Then the `dem_norewind` frame (for a start
/// section message) or the `dem_read` frame: its command, its time, the
/// seven sequence numbers in `CL_ReadDemoSequence` order (incoming sequence,
/// incoming acknowledged, incoming reliable acknowledged, incoming reliable
/// sequence, outgoing sequence, reliable sequence, last reliable sequence),
/// the message length, and the message bytes.
pub proof fn law_network_frame_layout(f: Frame, keep: bool)
    requires
        f.frame_data is NetworkMessage,
        message_payload(f.frame_data->messages) is Some,
        message_payload(f.frame_data->messages)->0.len() <= MAX_INIT_MSG,
    ensures
        ({
            let fb = frame_bytes(f, keep);
            let s = f.frame_data->sequence_info;
            let p = message_payload(f.frame_data->messages)->0;
            &&& fb.len() == 66 + p.len()
            &&& fb[0] == DEM_USERCMD
            &&& fb.subrange(1, 5) == le_bytes_u32_spec(f.dt_bits)
            &&& rd_i32(fb, 5) == s.outgoing_sequence
            &&& rd_i32(fb, 9) == s.outgoing_sequence
            &&& fb[29] == (if f.frame_data->kind is Start {
                DEM_NOREWIND
            } else {
                DEM_READ
            })
            &&& fb.subrange(30, 34) == le_bytes_u32_spec(f.dt_bits)
            &&& rd_i32(fb, 34) == s.incoming_sequence
            &&& rd_i32(fb, 38) == s.incoming_acknowledged
            &&& rd_i32(fb, 42) == s.incoming_reliable_acknowledged
            &&& rd_i32(fb, 46) == s.incoming_reliable_sequence
            &&& rd_i32(fb, 50) == s.outgoing_sequence
            &&& rd_i32(fb, 54) == s.reliable_sequence
            &&& rd_i32(fb, 58) == s.last_reliable_sequence
            &&& rd_i32(fb, 62) == p.len()
            &&& fb.skip(66) == p
        }),
{
    let fb = frame_bytes(f, keep);
    let s = f.frame_data->sequence_info;
    let usercmd = f.frame_data->usercmd;
    let p = message_payload(f.frame_data->messages)->0;
    crate::usercmd::lemma_usercmd_bits_len(usercmd);
    let uc = usercmd_frame_bytes(f.dt_bits, s, usercmd);
    assert(uc.len() == 29);
    assert(fb.len() == 66 + p.len());
    assert(fb.subrange(1, 5) =~= le_bytes_u32_spec(f.dt_bits));
    assert(fb.subrange(5, 9) =~= le32(s.outgoing_sequence));
    assert(fb.subrange(9, 13) =~= le32(s.outgoing_sequence));
    assert(fb.subrange(30, 34) =~= le_bytes_u32_spec(f.dt_bits));
    assert(fb.subrange(34, 38) =~= le32(s.incoming_sequence));
    assert(fb.subrange(38, 42) =~= le32(s.incoming_acknowledged));
    assert(fb.subrange(42, 46) =~= le32(s.incoming_reliable_acknowledged));
    assert(fb.subrange(46, 50) =~= le32(s.incoming_reliable_sequence));
    assert(fb.subrange(50, 54) =~= le32(s.outgoing_sequence));
    assert(fb.subrange(54, 58) =~= le32(s.reliable_sequence));
    assert(fb.subrange(58, 62) =~= le32(s.last_reliable_sequence));
    assert(fb.subrange(62, 66) =~= le32(p.len() as i32));
    assert(fb.skip(66) =~= p);
    lemma_rd_at(fb, 5, s.outgoing_sequence);
    lemma_rd_at(fb, 9, s.outgoing_sequence);
    lemma_rd_at(fb, 34, s.incoming_sequence);
    lemma_rd_at(fb, 38, s.incoming_acknowledged);
    lemma_rd_at(fb, 42, s.incoming_reliable_acknowledged);
    lemma_rd_at(fb, 46, s.incoming_reliable_sequence);
    lemma_rd_at(fb, 50, s.outgoing_sequence);
    lemma_rd_at(fb, 54, s.reliable_sequence);
    lemma_rd_at(fb, 58, s.last_reliable_sequence);
    lemma_rd_at(fb, 62, p.len() as i32);
}

/// Whether a run of frames holds a `NextSection`.
pub open spec fn frames_stop(frames: Seq<Frame>) -> bool
    decreases frames.len(),
{
    if frames.len() == 0 {
        false
    } else {
        frames_stop(frames.drop_last()) || frames.last().frame_data is NextSection
    }
}

/// A run with a `NextSection` frame at `j` holds a `NextSection`.
pub(crate) proof fn lemma_frames_stop_at(frames: Seq<Frame>, j: int)
    requires
        0 <= j < frames.len(),
        frames[j].frame_data is NextSection,
    ensures
        frames_stop(frames),
    decreases frames.len(),
{
    if j < frames.len() - 1 {
        lemma_frames_stop_at(frames.drop_last(), j);
    }
}

/// The two IDEM frames of a network message frame, walked over.
#[verifier::rlimit(50)]
proof fn lemma_walk_network_frame(
    data: Seq<u8>,
    entry: usize,
    f: Frame,
    keep: bool,
    q: int,
    end: int,
    s: bool,
)
    requires
        f.frame_data is NetworkMessage,
        message_payload(f.frame_data->messages) is Some,
        message_payload(f.frame_data->messages)->0.len() <= MAX_INIT_MSG,
        0 <= q,
        q + frame_bytes(f, keep).len() <= end <= data.len(),
        data.len() <= i32::MAX,
        forall|j: int|
            0 <= j < frame_bytes(f, keep).len() ==> data[q + j] == #[trigger] frame_bytes(f, keep)[j],
    ensures
        frame_walk(data, entry, q, end, s) == frame_walk(
            data,
            entry,
            q + frame_bytes(f, keep).len(),
            end,
            s,
        ),
{
    let fb = frame_bytes(f, keep);
    let kind = f.frame_data->kind;
    let sequence_info = f.frame_data->sequence_info;
    let usercmd = f.frame_data->usercmd;
    let p = message_payload(f.frame_data->messages)->0;
    let uc = usercmd_frame_bytes(f.dt_bits, sequence_info, usercmd);
    crate::usercmd::lemma_usercmd_bits_len(usercmd);
    assert(uc.len() == 29);
    assert(fb.len() == 29 + 37 + p.len());
    // the dem_usercmd frame
    assert(fb[0] == DEM_USERCMD);
    assert(data[q] == DEM_USERCMD);
    assert(fb[13] == le_bytes_u16_spec(14)[0]);
    assert(fb[14] == le_bytes_u16_spec(14)[1]);
    assert(le_bytes_u16_spec(14)[0] == 14 && le_bytes_u16_spec(14)[1] == 0) by {
        assert((14u16 as u8) == 14u8 && ((14u16 >> 8u16) as u8) == 0u8) by (bit_vector);
    }
    assert(data[q + 13] == 14);
    assert(data[q + 14] == 0);
    assert(frame_walk(data, entry, q, end, s) == frame_walk(data, entry, q + 29, end, s));
    // the network message frame
    let q2 = q + 29;
    assert(fb[29] == net_cmd(kind));
    assert(data[q2] == net_cmd(kind));
    let mlen_bytes = le32(p.len() as i32);
    assert(data.subrange(q2 + 33, q2 + 37) =~= mlen_bytes) by {
        assert forall|j: int| 0 <= j < 4 implies data.subrange(q2 + 33, q2 + 37)[j]
            == mlen_bytes[j] by {
            assert(data[q + 62 + j] == fb[62 + j]);
        }
    }
    lemma_rd_at(data, q2 + 33, p.len() as i32);
    assert(frame_walk(data, entry, q2, end, s) == frame_walk(
        data,
        entry,
        q2 + 37 + p.len(),
        end,
        s,
    ));
}

/// Walking over the bytes one frame became, placed at `q`, moves the walk
/// to just past them, noting a `dem_stop` for a `NextSection`.
proof fn lemma_walk_one_frame(
    data: Seq<u8>,
    entry: usize,
    f: Frame,
    keep: bool,
    q: int,
    end: int,
    s: bool,
)
    requires
        !missing_payload(f),
        0 <= q,
        q + frame_bytes(f, keep).len() <= end <= data.len(),
        data.len() <= i32::MAX,
        data.subrange(q, q + frame_bytes(f, keep).len()) == frame_bytes(f, keep),
    ensures
        frame_walk(data, entry, q, end, s) == frame_walk(
            data,
            entry,
            q + frame_bytes(f, keep).len(),
            end,
            s || f.frame_data is NextSection,
        ),
{
    let fb = frame_bytes(f, keep);
    let n = fb.len() as int;
    assert forall|j: int| 0 <= j < n implies data[q + j] == #[trigger] fb[j] by {
        assert(data.subrange(q, q + n)[j] == data[q + j]);
    }
    match f.frame_data {
        FrameData::NetworkMessage { kind, sequence_info, usercmd, messages } => {
            let p = message_payload(messages)->0;
            if p.len() <= MAX_INIT_MSG {
                lemma_walk_network_frame(data, entry, f, keep, q, end, s);
            }
        },
        FrameData::DemoStart => {
            assert(fb[0] == DEM_JUMPTIME);
            assert(data[q] == DEM_JUMPTIME);
        },
        FrameData::NextSection => {
            assert(fb[0] == DEM_STOP);
            assert(data[q] == DEM_STOP);
        },
        FrameData::DemoBuffer(b) => {
            if keep {
                assert(fb[0] == DEM_USERDATA);
                assert(data[q] == DEM_USERDATA);
                let lb = le32(b@.len() as i32);
                assert(data.subrange(q + 5, q + 9) =~= lb) by {
                    assert forall|j: int| 0 <= j < 4 implies data.subrange(q + 5, q + 9)[j]
                        == lb[j] by {
                        assert(data[q + 5 + j] == fb[5 + j]);
                    }
                }
                lemma_rd_at(data, q + 5, b@.len() as i32);
            }
        },
        _ => {},
    }
}

/// Walking over the bytes a run of frames became moves the walk to just
/// past them, noting whether a `NextSection` was among them.
proof fn lemma_walk_frames(
    data: Seq<u8>,
    entry: usize,
    fs: Seq<Frame>,
    keep: bool,
    q: int,
    end: int,
    s: bool,
)
    requires
        first_missing(fs) is None,
        0 <= q,
        q + frames_bytes(fs, keep).len() <= end <= data.len(),
        data.len() <= i32::MAX,
        data.subrange(q, q + frames_bytes(fs, keep).len()) == frames_bytes(fs, keep),
    ensures
        frame_walk(data, entry, q, end, s) == frame_walk(
            data,
            entry,
            q + frames_bytes(fs, keep).len(),
            end,
            s || frames_stop(fs),
        ),
    decreases fs.len(),
{
    if fs.len() > 0 {
        let init = fs.drop_last();
        let last = fs.last();
        let a = frames_bytes(init, keep);
        let b = frame_bytes(last, keep);
        assert(frames_bytes(fs, keep) == a + b);
        assert(data.subrange(q, q + a.len()) =~= a) by {
            assert forall|j: int| 0 <= j < a.len() implies data.subrange(q, q + a.len())[j]
                == a[j] by {
                assert(data.subrange(q, q + a.len() + b.len())[j] == (a + b)[j]);
            }
        }
        lemma_walk_frames(data, entry, init, keep, q, end, s);
        assert(data.subrange(q + a.len(), q + a.len() + b.len()) =~= b) by {
            assert forall|j: int| 0 <= j < b.len() implies data.subrange(
                q + a.len(),
                q + a.len() + b.len(),
            )[j] == b[j] by {
                assert(data.subrange(q, q + a.len() + b.len())[a.len() + j] == (a + b)[a.len()
                    + j]);
            }
        }
        lemma_walk_one_frame(data, entry, last, keep, q + a.len(), end, s || frames_stop(init));
    }
}

/// No frame of any section misses its messages.
proof fn lemma_no_missing_each(entries: Seq<DirectoryEntry>, i: int)
    requires
        first_missing_entries(entries) is None,
        0 <= i < entries.len(),
    ensures
        first_missing(entries[i].frames@) is None,
    decreases entries.len(),
{
    if i < entries.len() - 1 {
        lemma_no_missing_each(entries.drop_last(), i);
    }
}

/// The sections' bytes, in order: those of the first `i` sections, then
/// those of section `i`, start the bytes of all.
proof fn lemma_body_layout(entries: Seq<DirectoryEntry>, i: int, keep: bool)
    requires
        0 <= i < entries.len(),
    ensures
        entries_body(entries.take(i + 1), keep) == entries_body(entries.take(i), keep)
            + frames_bytes(entries[i].frames@, keep),
        entries_body(entries.take(i + 1), keep).len() <= entries_body(entries, keep).len(),
        entries_body(entries, keep).subrange(0, entries_body(entries.take(i + 1), keep).len() as int)
            == entries_body(entries.take(i + 1), keep),
{
    assert(entries.take(i + 1).drop_last() =~= entries.take(i));
    lemma_body_prefix(entries, i + 1, keep);
}

proof fn lemma_body_prefix(entries: Seq<DirectoryEntry>, k: int, keep: bool)
    requires
        0 <= k <= entries.len(),
    ensures
        entries_body(entries.take(k), keep).len() <= entries_body(entries, keep).len(),
        entries_body(entries, keep).subrange(0, entries_body(entries.take(k), keep).len() as int)
            == entries_body(entries.take(k), keep),
    decreases entries.len(),
{
    if k < entries.len() {
        assert(entries.drop_last().take(k) =~= entries.take(k));
        lemma_body_prefix(entries.drop_last(), k, keep);
        let x = entries_body(entries.take(k), keep);
        let y = entries_body(entries.drop_last(), keep);
        assert(entries_body(entries, keep).subrange(0, x.len() as int) =~= y.subrange(
            0,
            x.len() as int,
        ));
    } else {
        assert(entries.take(k) =~= entries);
        assert(entries_body(entries, keep).subrange(0, entries_body(entries, keep).len() as int)
            =~= entries_body(entries, keep));
    }
}

/// Directory records are 88 bytes each, in section order.
proof fn lemma_dir_records(entries: Seq<DirectoryEntry>, k: int, keep: bool)
    requires
        0 <= k <= entries.len(),
    ensures
        dir_records(entries, k, keep).len() == ENTRY_SIZE * k,
        forall|i: int|
            0 <= i < k ==> dir_records(entries, k, keep).subrange(
                ENTRY_SIZE * i,
                ENTRY_SIZE * i + ENTRY_SIZE,
            ) == #[trigger] entry_dir_bytes(entries, i, keep),
    decreases k,
{
    if k > 0 {
        lemma_dir_records(entries, k - 1, keep);
        let prev = dir_records(entries, k - 1, keep);
        let last = entry_dir_bytes(entries, k - 1, keep);
        let e = entries[k - 1];
        law_fixed_str_width(
            vstd::utf8::encode_utf8(crate::transcode::description_text(e)),
            FIELD_WIDTH as nat,
        );
        assert(last.len() == ENTRY_SIZE);
        assert forall|i: int| 0 <= i < k implies dir_records(entries, k, keep).subrange(
            ENTRY_SIZE * i,
            ENTRY_SIZE * i + ENTRY_SIZE,
        ) == #[trigger] entry_dir_bytes(entries, i, keep) by {
            if i < k - 1 {
                assert(dir_records(entries, k, keep).subrange(ENTRY_SIZE * i, ENTRY_SIZE * i
                    + ENTRY_SIZE) =~= prev.subrange(ENTRY_SIZE * i, ENTRY_SIZE * i + ENTRY_SIZE));
            } else {
                assert(dir_records(entries, k, keep).subrange(ENTRY_SIZE * i, ENTRY_SIZE * i
                    + ENTRY_SIZE) =~= last);
            }
        }
    }
}

/// The header is 216 bytes, with the magic, the protocols and the
/// directory offset where the player reads them.
proof fn lemma_header_layout(h: Header, opts: Options, dir_off: i32)
    ensures
        header_bytes(h, opts, dir_off).len() == HEADER_SIZE,
        header_bytes(h, opts, dir_off).subrange(0, 4) == le32(IDEMOHEADER),
        header_bytes(h, opts, dir_off).subrange(4, 8) == le32(DEMO_PROTOCOL),
        header_bytes(h, opts, dir_off).subrange(8, 12) == le32(PROTOCOL_GOLDSRC_VERSION_DEMO),
        header_bytes(h, opts, dir_off).subrange(212, 216) == le32(dir_off),
{
    law_fixed_str_width(h.map_name@, FIELD_WIDTH as nat);
    law_fixed_str_width(comment_bytes(), FIELD_WIDTH as nat);
    law_fixed_str_width(gamedir_bytes(h, opts), FIELD_WIDTH as nat);
    let hb = header_bytes(h, opts, dir_off);
    assert(hb.subrange(0, 4) =~= le32(IDEMOHEADER));
    assert(hb.subrange(4, 8) =~= le32(DEMO_PROTOCOL));
    assert(hb.subrange(8, 12) =~= le32(PROTOCOL_GOLDSRC_VERSION_DEMO));
    assert(hb.subrange(212, 216) =~= le32(dir_off));
}

/// The bytes of the transcoded file, with the places of its parts.
proof fn lemma_file_layout(h: Header, entries: Seq<DirectoryEntry>, opts: Options)
    ensures
        ({
            let data = idem_bytes(h, entries, opts);
            let body = entries_body(entries, opts.keep_userdata);
            let dir_off = HEADER_SIZE + body.len();
            &&& data.len() == dir_off + 4 + ENTRY_SIZE * entries.len()
            &&& data.subrange(0, HEADER_SIZE as int) == header_bytes(h, opts, dir_off as i32)
            &&& data.subrange(HEADER_SIZE as int, dir_off) == body
            &&& data.subrange(dir_off, dir_off + 4) == le32(entries.len() as i32)
            &&& data.subrange(dir_off + 4, data.len() as int) == dir_records(
                entries,
                entries.len() as int,
                opts.keep_userdata,
            )
        }),
{
    let keep = opts.keep_userdata;
    let data = idem_bytes(h, entries, opts);
    let body = entries_body(entries, keep);
    let dir_off = HEADER_SIZE + body.len();
    let hb = header_bytes(h, opts, dir_off as i32);
    lemma_header_layout(h, opts, dir_off as i32);
    lemma_dir_records(entries, entries.len() as int, keep);
    let d = dir_records(entries, entries.len() as int, keep);
    assert(data == hb + body + le32(entries.len() as i32) + d);
    assert(data.subrange(0, HEADER_SIZE as int) =~= hb);
    assert(data.subrange(HEADER_SIZE as int, dir_off) =~= body);
    assert(data.subrange(dir_off, dir_off + 4) =~= le32(entries.len() as i32));
    assert(data.subrange(dir_off + 4, data.len() as int) =~= d);
}

/// A subrange of a subrange.
proof fn lemma_sub_sub(s: Seq<u8>, a: int, b: int, c: int, d: int)
    requires
        0 <= a <= b <= s.len(),
        0 <= c <= d <= b - a,
    ensures
        s.subrange(a, b).subrange(c, d) == s.subrange(a + c, a + d),
{
    assert(s.subrange(a, b).subrange(c, d) =~= s.subrange(a + c, a + d));
}

/// The directory record of section `i` holds its offset and length.
#[verifier::rlimit(50)]
proof fn lemma_record_fields(h: Header, entries: Seq<DirectoryEntry>, opts: Options, i: int)
    requires
        0 <= i < entries.len(),
        idem_bytes(h, entries, opts).len() <= i32::MAX,
    ensures
        ({
            let data = idem_bytes(h, entries, opts);
            let keep = opts.keep_userdata;
            let dir_off = HEADER_SIZE + entries_body(entries, keep).len();
            let p = dir_off + 4 + i * ENTRY_SIZE;
            let off = entry_offset(entries, i, keep);
            let len = frames_bytes(entries[i].frames@, keep).len();
            &&& p + ENTRY_SIZE <= data.len()
            &&& rd_i32(data, p + 12) as usize as int == off
            &&& rd_i32(data, p + 16) as usize as int == len
            &&& off + len <= dir_off
        }),
{
    let keep = opts.keep_userdata;
    let data = idem_bytes(h, entries, opts);
    let body = entries_body(entries, keep);
    let dir_off = HEADER_SIZE + body.len();
    lemma_file_layout(h, entries, opts);
    lemma_dir_records(entries, entries.len() as int, keep);
    let n = entries.len() as int;
    let p = dir_off + 4 + i * ENTRY_SIZE;
    assert(p + ENTRY_SIZE <= data.len()) by (nonlinear_arith)
        requires
            p == dir_off + 4 + i * ENTRY_SIZE,
            data.len() == dir_off + 4 + ENTRY_SIZE * n,
            i < n,
    ;
    let d = dir_records(entries, n, keep);
    let rec = entry_dir_bytes(entries, i, keep);
    assert(data.subrange(p, p + ENTRY_SIZE) == rec) by {
        lemma_sub_sub(data, dir_off + 4, data.len() as int, ENTRY_SIZE * i, ENTRY_SIZE * i
            + ENTRY_SIZE);
        assert(d.subrange(ENTRY_SIZE * i, ENTRY_SIZE * i + ENTRY_SIZE) == rec);
        assert(dir_off + 4 + ENTRY_SIZE * i == p);
    }
    let e = entries[i];
    let off = entry_offset(entries, i, keep);
    let fb = frames_bytes(e.frames@, keep);
    lemma_body_layout(entries, i, keep);
    let before = entries_body(entries.take(i), keep);
    assert(off == HEADER_SIZE + before.len());
    assert(off + fb.len() <= dir_off);
    law_fixed_str_width(
        vstd::utf8::encode_utf8(crate::transcode::description_text(e)),
        FIELD_WIDTH as nat,
    );
    assert(rec.subrange(12, 16) =~= le32(off as i32));
    assert(rec.subrange(16, 20) =~= le32(fb.len() as i32));
    lemma_sub_sub(data, p, p + ENTRY_SIZE, 12, 16);
    lemma_sub_sub(data, p, p + ENTRY_SIZE, 16, 20);
    lemma_rd_at(data, p + 12, off as i32);
    lemma_rd_at(data, p + 16, fb.len() as i32);
}

/// Section `i`'s frames lie at its offset.
proof fn lemma_section_bytes(h: Header, entries: Seq<DirectoryEntry>, opts: Options, i: int)
    requires
        0 <= i < entries.len(),
    ensures
        ({
            let data = idem_bytes(h, entries, opts);
            let keep = opts.keep_userdata;
            let off = entry_offset(entries, i, keep);
            let fb = frames_bytes(entries[i].frames@, keep);
            &&& off + fb.len() <= HEADER_SIZE + entries_body(entries, keep).len()
            &&& data.subrange(off, off + fb.len()) == fb
        }),
{
    let keep = opts.keep_userdata;
    let data = idem_bytes(h, entries, opts);
    let body = entries_body(entries, keep);
    let dir_off = HEADER_SIZE + body.len();
    lemma_file_layout(h, entries, opts);
    let e = entries[i];
    let off = entry_offset(entries, i, keep);
    let fb = frames_bytes(e.frames@, keep);
    lemma_body_layout(entries, i, keep);
    let before = entries_body(entries.take(i), keep);
    lemma_sub_sub(data, HEADER_SIZE as int, dir_off, before.len() as int, (before.len()
        + fb.len()) as int);
    let take1 = entries_body(entries.take(i + 1), keep);
    assert(body.subrange(0, take1.len() as int) == take1);
    assert(body.subrange(before.len() as int, (before.len() + fb.len()) as int) =~= fb) by {
        assert forall|j: int| 0 <= j < fb.len() implies body.subrange(
            before.len() as int,
            (before.len() + fb.len()) as int,
        )[j] == fb[j] by {
            assert(body.subrange(0, take1.len() as int)[before.len() + j] == take1[before.len()
                + j]);
        }
    }
}

/// Checking section `i` of a transcoded file finds nothing.
proof fn lemma_entry_clean(h: Header, entries: Seq<DirectoryEntry>, opts: Options, i: int)
    requires
        first_missing_entries(entries) is None,
        0 <= i < entries.len(),
        frames_stop(entries[i].frames@),
        idem_bytes(h, entries, opts).len() <= i32::MAX,
    ensures
        entry_step(
            idem_bytes(h, entries, opts),
            HEADER_SIZE + entries_body(entries, opts.keep_userdata).len(),
            i,
        ) == (Seq::<ValidationError>::empty(), false),
{
    let keep = opts.keep_userdata;
    let data = idem_bytes(h, entries, opts);
    let dir_off = HEADER_SIZE + entries_body(entries, keep).len();
    lemma_record_fields(h, entries, opts, i);
    lemma_section_bytes(h, entries, opts, i);
    lemma_no_missing_each(entries, i);
    let e = entries[i];
    let off = entry_offset(entries, i, keep);
    let fb = frames_bytes(e.frames@, keep);
    let end = off + fb.len();
    lemma_walk_frames(data, i as usize, e.frames@, keep, off, end, false);
    assert(frame_walk(data, i as usize, end, end, true) == WalkEnd::Ended(end as u64, true, None));
    assert(frame_walk(data, i as usize, off, end, false) == WalkEnd::Ended(end as u64, true, None));
}

/// Checking every section from `i` on finds nothing.
proof fn lemma_entries_clean(h: Header, entries: Seq<DirectoryEntry>, opts: Options, i: int)
    requires
        first_missing_entries(entries) is None,
        0 <= i <= entries.len(),
        forall|j: int| 0 <= j < entries.len() ==> frames_stop(#[trigger] entries[j].frames@),
        idem_bytes(h, entries, opts).len() <= i32::MAX,
    ensures
        entries_walk(
            idem_bytes(h, entries, opts),
            HEADER_SIZE + entries_body(entries, opts.keep_userdata).len(),
            entries.len() as int,
            i,
        ) == Seq::<ValidationError>::empty(),
    decreases entries.len() - i,
{
    if i < entries.len() {
        lemma_entry_clean(h, entries, opts, i);
        lemma_entries_clean(h, entries, opts, i + 1);
        assert(Seq::<ValidationError>::empty() + Seq::<ValidationError>::empty() =~= Seq::<
            ValidationError,
        >::empty());
    }
}

/// What transcoding writes, validation accepts: a transcoded demo with
/// between 1 and 1024 sections, each holding a `NextSection` frame, whose
/// file stays within `i32` offsets, validates without a single error.
///
/// Transcoding itself does not ensure the `NextSection` frames or the
/// section count; without them validation reports the missing `dem_stop`
/// or the bogus entry count.
pub proof fn law_transcoded_output_validates(h: Header, entries: Seq<DirectoryEntry>, opts: Options)
    requires
        first_missing_entries(entries) is None,
        1 <= entries.len() <= 1024,
        forall|i: int| 0 <= i < entries.len() ==> frames_stop(#[trigger] entries[i].frames@),
        idem_bytes(h, entries, opts).len() <= i32::MAX,
    ensures
        validate_spec(idem_bytes(h, entries, opts)) == Seq::<ValidationError>::empty(),
{
    let keep = opts.keep_userdata;
    let data = idem_bytes(h, entries, opts);
    let body = entries_body(entries, keep);
    let dir_off = HEADER_SIZE + body.len();
    lemma_file_layout(h, entries, opts);
    let hb = header_bytes(h, opts, dir_off as i32);
    lemma_header_layout(h, opts, dir_off as i32);
    lemma_sub_sub(data, 0, HEADER_SIZE as int, 0, 4);
    lemma_sub_sub(data, 0, HEADER_SIZE as int, 4, 8);
    lemma_sub_sub(data, 0, HEADER_SIZE as int, 8, 12);
    lemma_sub_sub(data, 0, HEADER_SIZE as int, 212, 216);
    lemma_rd_at(data, 0, IDEMOHEADER);
    lemma_rd_at(data, 4, DEMO_PROTOCOL);
    lemma_rd_at(data, 8, PROTOCOL_GOLDSRC_VERSION_DEMO);
    lemma_rd_at(data, 212, dir_off as i32);
    lemma_rd_at(data, dir_off, entries.len() as i32);
    lemma_entries_clean(h, entries, opts, 0);
    assert(Seq::<ValidationError>::empty() + Seq::<ValidationError>::empty() =~= Seq::<
        ValidationError,
    >::empty());
}

} // verus!

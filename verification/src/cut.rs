//! Cutting a time window out of a demo: which frames each section keeps,
//! where synthetic baseline frames go, and the transcoding of the result.
//!
//! A cut keeps the signon section whole. Of a playback section it keeps the
//! frames inside the time window, and every `DemoStart` and `NextSection`
//! marker; in front of the first kept frame at or after the window's start
//! it splices the synthetic baseline frames (one per pre-cut client-data
//! frame the chain needs, or one plain one when the chain needs none); and
//! it guarantees a terminator, since Xash treats a section without
//! `dem_stop` as corrupt.
use vstd::prelude::*;
use crate::transcode::{
    Demo, DirectoryEntry, Frame, FrameData, MessageData, NetworkMessageType, Options, Output,
    SequenceInfo, TranscodeError, fits_transcode, message_payload, total_frames_fit,
    transcode_entries, transcode_result,
};
use crate::netmsg::write_netmsg;
use crate::transcode_valid::{frames_stop, lemma_frames_stop_at};
use crate::chain::{ChainFrame, client_data_chain, seq_in_range, walk_frames};
use crate::idem::MAX_INIT_MSG;
use crate::usercmd::UserCmd;

verus! {

/// A source frame, as far as the cut reads it. The times are compared by
/// the caller.
#[derive(Clone, Copy, Debug, PartialEq, Eq, Structural)]
pub struct CutFrame {
    pub is_demo_start: bool,
    pub is_next_section: bool,
    /// Whether the frame's time lies in the window `[start - preroll, end]`.
    pub in_window: bool,
    /// Whether the frame's time is at or after the window's start.
    pub at_or_after_start: bool,
}

/// A frame of the cut section.
#[derive(Clone, Copy, Debug, PartialEq, Eq, Structural)]
pub enum FrameSource {
    /// The source frame of this index.
    Source(usize),
    /// A synthetic baseline frame; with a client-data sequence byte when it
    /// stands for a pre-cut frame of the chain.
    Synthetic(Option<u8>),
    /// A `NextSection` frame added at the end of a section that kept none.
    Stop,
}

pub open spec fn kept(f: CutFrame) -> bool {
    f.is_demo_start || f.is_next_section || f.in_window
}

/// The kept frames of `frames[0..n]`, in order.
pub open spec fn kept_frames(frames: Seq<CutFrame>, n: int) -> Seq<FrameSource>
    decreases n,
{
    if n <= 0 {
        Seq::empty()
    } else {
        let prev = kept_frames(frames, n - 1);
        if kept(frames[n - 1]) {
            prev.push(FrameSource::Source((n - 1) as usize))
        } else {
            prev
        }
    }
}

/// The synthetic frames: none without a baseline; one plain one when the
/// chain is empty; else one per byte of the chain.
pub open spec fn synthetic_frames(baseline: bool, chain: Seq<u8>) -> Seq<FrameSource> {
    if !baseline {
        Seq::empty()
    } else if chain.len() == 0 {
        seq![FrameSource::Synthetic(None)]
    } else {
        chain.map_values(|b: u8| FrameSource::Synthetic(Some(b)))
    }
}

/// Where the synthetic frames go: before the first kept frame at or after
/// the window's start, or first when there is none.
pub open spec fn splice_at(frames: Seq<CutFrame>, k: Seq<FrameSource>, p: int) -> int
    decreases k.len() - p,
{
    if p < 0 || p >= k.len() {
        0
    } else if starts_window(frames, k[p]) {
        p
    } else {
        splice_at(frames, k, p + 1)
    }
}

/// Whether a frame of the cut is a `NextSection`: a source one, or the one
/// the cut adds.
pub open spec fn is_stop(frames: Seq<CutFrame>, s: FrameSource) -> bool {
    match s {
        FrameSource::Source(i) => i < frames.len() && frames[i as int].is_next_section,
        FrameSource::Synthetic(_) => false,
        FrameSource::Stop => true,
    }
}

/// Whether a frame of the cut is a source frame at or after the window's
/// start.
pub open spec fn starts_window(frames: Seq<CutFrame>, s: FrameSource) -> bool {
    match s {
        FrameSource::Source(i) => i < frames.len() && frames[i as int].at_or_after_start,
        _ => false,
    }
}

/// Whether some kept frame is a `NextSection`.
pub open spec fn keeps_terminator(frames: Seq<CutFrame>, k: Seq<FrameSource>) -> bool {
    exists|p: int| 0 <= p < k.len() && is_stop(frames, #[trigger] k[p])
}

/// The frames of a cut playback section: the kept frames with the
/// synthetic ones spliced in, and a `NextSection` added at the end when no
/// kept frame is one.
pub open spec fn cut_section_spec(frames: Seq<CutFrame>, baseline: bool, chain: Seq<u8>) -> Seq<
    FrameSource,
> {
    let k = kept_frames(frames, frames.len() as int);
    let p = splice_at(frames, k, 0);
    let spliced = k.take(p) + synthetic_frames(baseline, chain) + k.skip(p);
    if keeps_terminator(frames, k) {
        spliced
    } else {
        spliced.push(FrameSource::Stop)
    }
}

/// All the frames of a section, in order.
pub open spec fn whole_section(n: int) -> Seq<FrameSource> {
    Seq::new(n as nat, |i: int| FrameSource::Source(i as usize))
}

proof fn lemma_kept_frames(frames: Seq<CutFrame>, n: int)
    requires
        0 <= n <= frames.len(),
        n <= usize::MAX,
    ensures
        forall|p: int|
            0 <= p < kept_frames(frames, n).len() ==> (#[trigger] kept_frames(frames, n)[p] matches FrameSource::Source(
                i,
            ) && 0 <= i < n && kept(frames[i as int])),
    decreases n,
{
    if n > 0 {
        lemma_kept_frames(frames, n - 1);
        let prev = kept_frames(frames, n - 1);
        assert forall|p: int| 0 <= p < kept_frames(frames, n).len() implies (
        #[trigger] kept_frames(frames, n)[p] matches FrameSource::Source(i) && 0 <= i < n && kept(
            frames[i as int],
        )) by {
            if p < prev.len() {
                assert(kept_frames(frames, n)[p] == prev[p]);
            }
        }
    }
}

/// A cut section always has a terminator: every cut of a playback section
/// holds a `NextSection` frame, kept or added.
pub proof fn law_cut_keeps_terminator(frames: Seq<CutFrame>, baseline: bool, chain: Seq<u8>)
    requires
        frames.len() <= usize::MAX,
    ensures
        exists|p: int|
            0 <= p < cut_section_spec(frames, baseline, chain).len() && is_stop(
                frames,
                #[trigger] cut_section_spec(frames, baseline, chain)[p],
            ),
{
    let n = frames.len() as int;
    let k = kept_frames(frames, n);
    let cs = cut_section_spec(frames, baseline, chain);
    if !keeps_terminator(frames, k) {
        assert(is_stop(frames, cs[cs.len() - 1]));
        return;
    }
    let q = choose|p: int| 0 <= p < k.len() && is_stop(frames, #[trigger] k[p]);
    let at = splice_at(frames, k, 0);
    lemma_splice_at_bounds(frames, k, 0);
    let syn = synthetic_frames(baseline, chain);
    let r = k.take(at) + syn + k.skip(at);
    assert(r == cut_section_spec(frames, baseline, chain));
    if q < at {
        assert(r[q] == k[q]);
        assert(is_stop(frames, r[q]));
    } else {
        assert(r[q + syn.len()] == k[q]);
        assert(is_stop(frames, r[q + syn.len()]));
    }
}

proof fn lemma_splice_at_bounds(frames: Seq<CutFrame>, k: Seq<FrameSource>, p: int)
    requires
        0 <= p,
    ensures
        0 <= splice_at(frames, k, p) <= k.len(),
    decreases k.len() - p,
{
    if p < k.len() && !starts_window(frames, k[p]) {
        lemma_splice_at_bounds(frames, k, p + 1);
    }
}

/// The frames that a cut section holds, in order. `keep_whole` is set for
/// the signon section, which a cut keeps whole; `baseline` when a synthetic
/// baseline was built for the section, and `chain` the client-data bytes it
/// has to stand for.
pub fn cut_section(frames: &Vec<CutFrame>, keep_whole: bool, baseline: bool, chain: &Vec<u8>) -> (r:
    Vec<FrameSource>)
    ensures
        keep_whole ==> r@ == whole_section(frames@.len() as int),
        !keep_whole ==> r@ == cut_section_spec(frames@, baseline, chain@),
{
    let n = frames.len();
    let mut out: Vec<FrameSource> = Vec::new();
    if keep_whole {
        let mut i: usize = 0;
        while i < n
            invariant
                i <= n == frames@.len(),
                out@ == whole_section(i as int),
            decreases n - i,
        {
            out.push(FrameSource::Source(i));
            proof {
                assert(out@ =~= whole_section(i + 1));
            }
            i = i + 1;
        }
        return out;
    }
    // The kept frames, and whether one of them is a terminator.
    let mut k: Vec<FrameSource> = Vec::new();
    let mut has_stop = false;
    let mut i: usize = 0;
    while i < n
        invariant
            i <= n == frames@.len(),
            k@ == kept_frames(frames@, i as int),
            has_stop == keeps_terminator(frames@, k@),
        decreases n - i,
    {
        let f = frames[i];
        if f.is_demo_start || f.is_next_section || f.in_window {
            let ghost before = k@;
            k.push(FrameSource::Source(i));
            proof {
                if keeps_terminator(frames@, before) {
                    let p = choose|p: int| 0 <= p < before.len() && is_stop(frames@, #[trigger] before[p]);
                    assert(k@[p] == before[p]);
                }
                if keeps_terminator(frames@, k@) && !f.is_next_section {
                    let p = choose|p: int| 0 <= p < k@.len() && is_stop(frames@, #[trigger] k@[p]);
                    assert(before[p] == k@[p]);
                }
                if f.is_next_section {
                    assert(k@[before.len() as int] == FrameSource::Source(i));
                }
            }
            has_stop = has_stop || f.is_next_section;
        }
        i = i + 1;
    }
    // Where the synthetic frames go.
    proof {
        lemma_kept_frames(frames@, frames@.len() as int);
    }
    let mut p: usize = 0;
    while p < k.len()
        invariant
            p <= k@.len(),
            k@ == kept_frames(frames@, frames@.len() as int),
            forall|q: int|
                0 <= q < k@.len() ==> (#[trigger] k@[q] matches FrameSource::Source(j) && 0 <= j
                    < frames@.len()),
            splice_at(frames@, k@, 0) == splice_at(frames@, k@, p as int),
        ensures
            p <= k@.len(),
            splice_at(frames@, k@, 0) == splice_at(frames@, k@, p as int),
            p < k@.len() ==> splice_at(frames@, k@, p as int) == p as int,
        decreases k@.len() - p,
    {
        if let FrameSource::Source(j) = k[p] {
            if frames[j].at_or_after_start {
                break;
            }
        }
        p = p + 1;
    }
    let at: usize = if p < k.len() {
        p
    } else {
        0
    };
    let mut q: usize = 0;
    while q < at
        invariant
            q <= at <= k@.len(),
            out@ == k@.take(q as int),
        decreases at - q,
    {
        out.push(k[q]);
        proof {
            assert(out@ =~= k@.take(q + 1));
        }
        q = q + 1;
    }
    let ghost before_synth = out@;
    if baseline {
        if chain.len() == 0 {
            out.push(FrameSource::Synthetic(None));
        } else {
            let mut c: usize = 0;
            while c < chain.len()
                invariant
                    c <= chain@.len(),
                    out@ == before_synth + chain@.take(c as int).map_values(
                        |b: u8| FrameSource::Synthetic(Some(b)),
                    ),
                decreases chain@.len() - c,
            {
                out.push(FrameSource::Synthetic(Some(chain[c])));
                proof {
                    assert(out@ =~= before_synth + chain@.take(c + 1).map_values(
                        |b: u8| FrameSource::Synthetic(Some(b)),
                    ));
                }
                c = c + 1;
            }
            proof {
                assert(chain@.take(chain@.len() as int) =~= chain@);
            }
        }
    }
    proof {
        assert(out@ =~= k@.take(at as int) + synthetic_frames(baseline, chain@));
    }
    let ghost before_rest = out@;
    let mut q: usize = at;
    while q < k.len()
        invariant
            at <= q <= k@.len(),
            out@ == before_rest + k@.subrange(at as int, q as int),
        decreases k@.len() - q,
    {
        out.push(k[q]);
        proof {
            assert(out@ =~= before_rest + k@.subrange(at as int, q + 1));
        }
        q = q + 1;
    }
    proof {
        assert(k@.subrange(at as int, k@.len() as int) =~= k@.skip(at as int));
    }
    if !has_stop {
        out.push(FrameSource::Stop);
    }
    out
}

/// Whether `b` holds what `a` holds.
pub open spec fn same_cmd(a: UserCmd, b: UserCmd) -> bool {
    &&& a.lerp_msec == b.lerp_msec
    &&& a.msec == b.msec
    &&& a.view_angles@ == b.view_angles@
    &&& a.buttons == b.buttons
    &&& a.light_level == b.light_level
    &&& a.impulse == b.impulse
}

fn copy_cmd(c: &UserCmd) -> (r: UserCmd)
    ensures
        same_cmd(r, *c),
{
    let mut angles: Vec<u32> = Vec::new();
    let mut i: usize = 0;
    while i < c.view_angles.len()
        invariant
            i <= c.view_angles@.len(),
            angles@ == c.view_angles@.take(i as int),
        decreases c.view_angles@.len() - i,
    {
        angles.push(c.view_angles[i]);
        proof {
            assert(angles@ =~= c.view_angles@.take(i + 1));
        }
        i = i + 1;
    }
    proof {
        assert(angles@ =~= c.view_angles@);
    }
    UserCmd {
        lerp_msec: c.lerp_msec,
        msec: c.msec,
        view_angles: angles,
        buttons: c.buttons,
        light_level: c.light_level,
        impulse: c.impulse,
    }
}

/// `s` with its `incoming_sequence` replaced by the sequence byte, when
/// there is one.
pub open spec fn with_client_data_sequence(s: SequenceInfo, seq: Option<u8>) -> SequenceInfo {
    match seq {
        Some(b) => SequenceInfo {
            incoming_sequence: b as i32,
            incoming_acknowledged: s.incoming_acknowledged,
            incoming_reliable_acknowledged: s.incoming_reliable_acknowledged,
            incoming_reliable_sequence: s.incoming_reliable_sequence,
            outgoing_sequence: s.outgoing_sequence,
            reliable_sequence: s.reliable_sequence,
            last_reliable_sequence: s.last_reliable_sequence,
        },
        None => s,
    }
}

/// Whether `r` is the synthetic frame for `anchor` carrying `payload`.
pub open spec fn is_baseline_frame(
    r: Frame,
    anchor: Frame,
    payload: Seq<u8>,
    seq: Option<u8>,
) -> bool {
    &&& r.dt_bits == anchor.dt_bits
    &&& r.frame == anchor.frame
    &&& match (r.frame_data, anchor.frame_data) {
        (
            FrameData::NetworkMessage { kind, sequence_info, usercmd, messages: m },
            FrameData::NetworkMessage { sequence_info: s0, usercmd: u0, .. },
        ) => {
            &&& kind == NetworkMessageType::Normal
            &&& sequence_info == with_client_data_sequence(s0, seq)
            &&& same_cmd(usercmd, u0)
            &&& message_payload(m) == Some(payload)
        },
        _ => false,
    }
}

/// A synthetic network message frame carrying `payload`, at the instant of
/// `anchor` (the first kept network message frame): its time, frame number,
/// recorded input and sequence numbers. With a client-data sequence byte,
/// that byte becomes the frame's `incoming_sequence`, which is what the
/// client looks the referenced frame up by.
pub fn synthetic_baseline_frame(
    anchor: &Frame,
    payload: Vec<u8>,
    client_data_sequence: Option<u8>,
) -> (r: Frame)
    requires
        anchor.frame_data is NetworkMessage,
    ensures
        is_baseline_frame(r, *anchor, payload@, client_data_sequence),
{
    match &anchor.frame_data {
        FrameData::NetworkMessage { sequence_info, usercmd, .. } => {
            let mut s = *sequence_info;
            if let Some(b) = client_data_sequence {
                s.incoming_sequence = b as i32;
            }
            let r = Frame {
                dt_bits: anchor.dt_bits,
                frame: anchor.frame,
                frame_data: FrameData::NetworkMessage {
                    kind: NetworkMessageType::Normal,
                    sequence_info: s,
                    usercmd: copy_cmd(usercmd),
                    messages: MessageData::Raw(payload),
                },
            };
            r
        },
        _ => {
            proof {
                assert(false);
            }
            Frame { dt_bits: 0, frame: 0, frame_data: FrameData::DemoStart }
        },
    }
}

// ---------------------------------------------------------------------------
// Cutting a demo
// ---------------------------------------------------------------------------

/// Where a source frame's time lies against the window, worked out by the
/// caller (frame times are floats).
#[derive(Clone, Copy, Debug, PartialEq, Eq, Structural)]
pub struct FrameWindow {
    /// Whether the frame's time lies in the window `[start - preroll, end]`.
    pub in_window: bool,
    /// Whether the frame's time is at or after the window's start.
    pub at_or_after_start: bool,
}

/// What the cut reads of each source frame: its kind, from the frame
/// itself, and where its time lies, from the caller.
pub open spec fn cut_flags(frames: Seq<Frame>, windows: Seq<FrameWindow>) -> Seq<CutFrame> {
    Seq::new(
        windows.len(),
        |i: int|
            CutFrame {
                is_demo_start: frames[i].frame_data is DemoStart,
                is_next_section: frames[i].frame_data is NextSection,
                in_window: windows[i].in_window,
                at_or_after_start: windows[i].at_or_after_start,
            },
    )
}

/// The cut's reading of the frames of section `src`.
pub open spec fn section_flags(src: DirectoryEntry, sc: SectionCut) -> Seq<CutFrame> {
    cut_flags(src.frames@, sc.frames@)
}

/// Marks each frame of a section with its kind and where its time lies.
fn mark_frames(frames: &Vec<Frame>, windows: &Vec<FrameWindow>) -> (r: Vec<CutFrame>)
    requires
        windows@.len() == frames@.len(),
    ensures
        r@ == cut_flags(frames@, windows@),
{
    let mut r: Vec<CutFrame> = Vec::new();
    let mut i: usize = 0;
    while i < windows.len()
        invariant
            windows@.len() == frames@.len(),
            i <= windows@.len(),
            r@ == cut_flags(frames@, windows@).take(i as int),
        decreases windows@.len() - i,
    {
        let w = windows[i];
        let f = CutFrame {
            is_demo_start: matches!(frames[i].frame_data, FrameData::DemoStart),
            is_next_section: matches!(frames[i].frame_data, FrameData::NextSection),
            in_window: w.in_window,
            at_or_after_start: w.at_or_after_start,
        };
        r.push(f);
        proof {
            assert(r@ =~= cut_flags(frames@, windows@).take(i + 1));
        }
        i = i + 1;
    }
    proof {
        assert(r@ =~= cut_flags(frames@, windows@));
    }
    r
}

/// How to cut one section, worked out by the caller from the frame times
/// (and, for the baseline, from the state replayed up to the cut).
pub struct SectionCut {
    /// Per source frame: where its time lies against the window.
    pub frames: Vec<FrameWindow>,
    /// The cut section's playback time, as 32-bit float bits.
    pub track_time_bits: u32,
    /// The encoded synthetic baseline, when one was built.
    pub baseline: Option<Vec<u8>>,
    /// The section's frames, as the client-data chain reads them.
    pub chain_frames: Vec<ChainFrame>,
}

/// Why a demo could not be cut.
#[derive(Clone, Copy, Debug, PartialEq, Eq, Structural)]
pub enum CutError {
    Transcode(TranscodeError),
    /// The cut sections hold more frames than transcoding can count.
    TooManyFrames,
}

/// The first kept network message frame at or after `j`: the anchor the
/// synthetic frames copy their instant from.
pub open spec fn first_anchor(frames: Seq<Frame>, flags: Seq<CutFrame>, j: int) -> Option<int>
    decreases frames.len() - j,
{
    if j < 0 || j >= frames.len() || j >= flags.len() {
        None
    } else if kept(flags[j]) && frames[j].frame_data is NetworkMessage {
        Some(j)
    } else {
        first_anchor(frames, flags, j + 1)
    }
}

/// A network message frame's `incoming_sequence`.
pub open spec fn incoming_sequence_of(f: Frame) -> i32 {
    match f.frame_data {
        FrameData::NetworkMessage { sequence_info, .. } => sequence_info.incoming_sequence,
        _ => 0,
    }
}

/// Whether the section gets a synthetic baseline: one was built, it fits a
/// message, and there is a kept network message frame to anchor it.
pub open spec fn has_baseline(frames: Seq<Frame>, sc: SectionCut) -> bool {
    &&& sc.baseline matches Some(p) && p@.len() <= MAX_INIT_MSG
    &&& first_anchor(frames, cut_flags(frames, sc.frames@), 0) is Some
}

/// The chain the section's synthetic frames stand for.
pub open spec fn section_chain(frames: Seq<Frame>, sc: SectionCut) -> Seq<u8> {
    if has_baseline(frames, sc) {
        walk_frames(
            sc.chain_frames@,
            incoming_sequence_of(frames[first_anchor(frames, cut_flags(frames, sc.frames@), 0)->0]) as int,
            Seq::empty(),
        )
    } else {
        Seq::empty()
    }
}

/// The frames of the cut section, by source.
pub open spec fn section_plan(src: DirectoryEntry, sc: SectionCut) -> Seq<FrameSource> {
    if src.type_ == 0 {
        whole_section(src.frames@.len() as int)
    } else {
        cut_section_spec(
            section_flags(src, sc),
            has_baseline(src.frames@, sc),
            section_chain(src.frames@, sc),
        )
    }
}

/// Whether `a` holds what `b` holds; a network message's messages count
/// as the bytes they are written as.
pub open spec fn same_frame(a: Frame, b: Frame) -> bool {
    &&& a.dt_bits == b.dt_bits
    &&& a.frame == b.frame
    &&& match (a.frame_data, b.frame_data) {
        (
            FrameData::NetworkMessage { kind: k1, sequence_info: s1, usercmd: u1, messages: m1 },
            FrameData::NetworkMessage { kind: k2, sequence_info: s2, usercmd: u2, messages: m2 },
        ) => {
            &&& k1 == k2
            &&& s1 == s2
            &&& same_cmd(u1, u2)
            &&& message_payload(m1) == message_payload(m2)
        },
        (FrameData::DemoBuffer(x), FrameData::DemoBuffer(y)) => x@ == y@,
        (FrameData::DemoStart, FrameData::DemoStart) => true,
        (FrameData::ConsoleCommand, FrameData::ConsoleCommand) => true,
        (FrameData::ClientData, FrameData::ClientData) => true,
        (FrameData::NextSection, FrameData::NextSection) => true,
        (FrameData::Event, FrameData::Event) => true,
        (FrameData::WeaponAnimation, FrameData::WeaponAnimation) => true,
        (FrameData::Sound, FrameData::Sound) => true,
        _ => false,
    }
}

/// Whether `f` is the frame that `s` names in a cut of `src`.
pub open spec fn cut_frame_ok(f: Frame, src: DirectoryEntry, sc: SectionCut, s: FrameSource) -> bool {
    match s {
        FrameSource::Source(i) => i < src.frames@.len() && same_frame(f, src.frames@[i as int]),
        FrameSource::Synthetic(q) => {
            &&& has_baseline(src.frames@, sc)
            &&& is_baseline_frame(
                f,
                src.frames@[first_anchor(src.frames@, section_flags(src, sc), 0)->0],
                sc.baseline->0@,
                q,
            )
        },
        FrameSource::Stop => is_added_stop(f, src.frames@),
    }
}

/// Whether `f` is the terminator a cut adds to a section of `frames`: a
/// `NextSection` at the time and frame number of the section's last frame,
/// or at 0 for an empty section.
pub open spec fn is_added_stop(f: Frame, frames: Seq<Frame>) -> bool {
    &&& f.frame_data is NextSection
    &&& if frames.len() == 0 {
        f.dt_bits == 0 && f.frame == 0
    } else {
        f.dt_bits == frames.last().dt_bits && f.frame == frames.last().frame
    }
}

/// The terminator a cut adds to a section of `frames`.
fn added_stop(frames: &Vec<Frame>) -> (r: Frame)
    ensures
        is_added_stop(r, frames@),
{
    let n = frames.len();
    if n == 0 {
        Frame { dt_bits: 0, frame: 0, frame_data: FrameData::NextSection }
    } else {
        Frame { dt_bits: frames[n - 1].dt_bits, frame: frames[n - 1].frame, frame_data: FrameData::NextSection }
    }
}

/// Whether `e` is the cut of section `src`: the signon section whole, a
/// playback section's frames as its plan says, with the new playback time.
pub open spec fn cut_entry_ok(e: DirectoryEntry, src: DirectoryEntry, sc: SectionCut) -> bool {
    let plan = section_plan(src, sc);
    &&& e.type_ == src.type_
    &&& e.description@ == src.description@
    &&& e.track_time_bits == if src.type_ == 0 {
        src.track_time_bits
    } else {
        sc.track_time_bits
    }
    &&& e.frames@.len() == plan.len()
    &&& forall|k: int| 0 <= k < plan.len() ==> cut_frame_ok(#[trigger] e.frames@[k], src, sc, plan[k])
}

/// What the cut of a demo gives: the transcoding of its cut sections.
pub open spec fn cut_result(
    demo: Demo,
    kept: Seq<DirectoryEntry>,
    opts: Options,
    r: Result<Output, CutError>,
) -> bool {
    if fits_transcode(kept, opts.keep_userdata) {
        match r {
            Ok(o) => transcode_result(demo.header, kept, opts, Ok(o)),
            Err(CutError::Transcode(e)) => transcode_result(demo.header, kept, opts, Err(e)),
            Err(CutError::TooManyFrames) => false,
        }
    } else {
        r == Err::<Output, CutError>(CutError::TooManyFrames)
    }
}

fn copy_bytes(v: &Vec<u8>) -> (r: Vec<u8>)
    ensures
        r@ == v@,
{
    let mut r: Vec<u8> = Vec::new();
    let mut i: usize = 0;
    while i < v.len()
        invariant
            i <= v@.len(),
            r@ == v@.take(i as int),
        decreases v@.len() - i,
    {
        r.push(v[i]);
        proof {
            assert(r@ =~= v@.take(i + 1));
        }
        i = i + 1;
    }
    assert(r@ =~= v@);
    r
}

fn copy_frame(f: &Frame) -> (r: Frame)
    ensures
        same_frame(r, *f),
{
    let frame_data = match &f.frame_data {
        FrameData::NetworkMessage { kind, sequence_info, usercmd, messages } => {
            // Decoded messages are carried on as the bytes they are written as.
            let m = match messages {
                MessageData::Raw(b) => MessageData::Raw(copy_bytes(b)),
                MessageData::Parsed(ms) => MessageData::Raw(write_netmsg(ms)),
                MessageData::Absent => MessageData::Absent,
            };
            FrameData::NetworkMessage {
                kind: *kind,
                sequence_info: *sequence_info,
                usercmd: copy_cmd(usercmd),
                messages: m,
            }
        },
        FrameData::DemoStart => FrameData::DemoStart,
        FrameData::ConsoleCommand => FrameData::ConsoleCommand,
        FrameData::ClientData => FrameData::ClientData,
        FrameData::NextSection => FrameData::NextSection,
        FrameData::Event => FrameData::Event,
        FrameData::WeaponAnimation => FrameData::WeaponAnimation,
        FrameData::Sound => FrameData::Sound,
        FrameData::DemoBuffer(b) => FrameData::DemoBuffer(copy_bytes(b)),
    };
    Frame { dt_bits: f.dt_bits, frame: f.frame, frame_data }
}

/// The first kept network message frame.
fn find_anchor(frames: &Vec<Frame>, flags: &Vec<CutFrame>) -> (r: Option<usize>)
    ensures
        match r {
            Some(j) => first_anchor(frames@, flags@, 0) == Some(j as int) && j < frames@.len(),
            None => first_anchor(frames@, flags@, 0) is None,
        },
{
    let mut j: usize = 0;
    while j < frames.len() && j < flags.len()
        invariant
            first_anchor(frames@, flags@, 0) == first_anchor(frames@, flags@, j as int),
        decreases frames@.len() - j,
    {
        let f = flags[j];
        if (f.is_demo_start || f.is_next_section || f.in_window) && matches!(frames[j].frame_data, FrameData::NetworkMessage { .. }) {
            return Some(j);
        }
        j = j + 1;
    }
    None
}

proof fn lemma_first_anchor(frames: Seq<Frame>, flags: Seq<CutFrame>, j: int)
    requires
        0 <= j,
    ensures
        first_anchor(frames, flags, j) matches Some(a) ==> j <= a < frames.len() && a < flags.len()
            && kept(flags[a]) && frames[a].frame_data is NetworkMessage,
    decreases frames.len() - j,
{
    if j < frames.len() && j < flags.len() && !(kept(flags[j]) && frames[j].frame_data is NetworkMessage) {
        lemma_first_anchor(frames, flags, j + 1);
    }
}

/// Without a baseline, a cut holds no synthetic frame.
proof fn lemma_plan_without_baseline(src: DirectoryEntry, sc: SectionCut)
    requires
        sc.frames@.len() == src.frames@.len(),
        src.frames@.len() <= usize::MAX,
        !(src.type_ != 0 && has_baseline(src.frames@, sc)),
    ensures
        forall|k: int| 0 <= k < section_plan(src, sc).len() ==> !(#[trigger] section_plan(src, sc)[k] is Synthetic),
{
    let n = src.frames@.len() as int;
    if src.type_ != 0 {
        let flags = section_flags(src, sc);
        let k = kept_frames(flags, n);
        lemma_kept_frames(flags, n);
        let at = splice_at(flags, k, 0);
        lemma_splice_at_bounds(flags, k, 0);
        let syn = synthetic_frames(false, section_chain(src.frames@, sc));
        assert(syn.len() == 0);
        let sp = k.take(at) + syn + k.skip(at);
        assert forall|q: int| 0 <= q < sp.len() implies #[trigger] sp[q] is Source by {
            if q < at {
                assert(sp[q] == k[q]);
            } else {
                assert(sp[q] == k[q]);
            }
        }
        let plan = section_plan(src, sc);
        assert forall|q: int| 0 <= q < plan.len() implies !(#[trigger] plan[q] is Synthetic) by {
            if q < sp.len() {
                assert(plan[q] == sp[q]);
            }
        }
    }
}

proof fn lemma_plan_indices(src: DirectoryEntry, sc: SectionCut)
    requires
        sc.frames@.len() == src.frames@.len(),
        src.frames@.len() <= usize::MAX,
    ensures
        forall|k: int|
            0 <= k < section_plan(src, sc).len() ==> (#[trigger] section_plan(src, sc)[k] matches FrameSource::Source(
                i,
            ) ==> i < src.frames@.len()),
        keeps_window(src, sc),
{
    let n = src.frames@.len() as int;
    if src.type_ != 0 {
        let flags = section_flags(src, sc);
        let k = kept_frames(flags, n);
        lemma_kept_frames(flags, n);
        let at = splice_at(flags, k, 0);
        lemma_splice_at_bounds(flags, k, 0);
        let syn = synthetic_frames(has_baseline(src.frames@, sc), section_chain(src.frames@, sc));
        let sp = k.take(at) + syn + k.skip(at);
        assert forall|q: int| 0 <= q < sp.len() implies (#[trigger] sp[q] matches FrameSource::Source(i)
            ==> i < n && kept(flags[i as int])) by {
            if q < at {
                assert(sp[q] == k[q]);
            } else if q < at + syn.len() {
                assert(sp[q] == syn[q - at]);
            } else {
                assert(sp[q] == k[q - syn.len()]);
            }
        }
        let plan = section_plan(src, sc);
        assert forall|q: int| 0 <= q < plan.len() implies (#[trigger] plan[q] matches FrameSource::Source(i)
            ==> i < n && kept(flags[i as int])) by {
            if q < sp.len() {
                assert(plan[q] == sp[q]);
            }
        }
    }
}

/// Whether every source frame that the cut of playback section `src`
/// keeps is a `DemoStart` or `NextSection` frame or lies in the window (the
/// signon section is kept whole).
pub open spec fn keeps_window(src: DirectoryEntry, sc: SectionCut) -> bool {
    src.type_ != 0 ==> forall|k: int|
        0 <= k < section_plan(src, sc).len() ==> (#[trigger] section_plan(src, sc)[k] matches FrameSource::Source(
            j,
        ) ==> j < src.frames@.len() && (src.frames@[j as int].frame_data is DemoStart
            || src.frames@[j as int].frame_data is NextSection || sc.frames@[j as int].in_window))
}

/// A cut playback section holds a `NextSection` frame: the one it keeps, or
/// the one it adds.
pub(crate) proof fn lemma_cut_entry_stops(e: DirectoryEntry, src: DirectoryEntry, sc: SectionCut)
    requires
        cut_entry_ok(e, src, sc),
        src.type_ != 0,
        sc.frames@.len() == src.frames@.len(),
        src.frames@.len() <= usize::MAX,
    ensures
        frames_stop(e.frames@),
{
    let flags = section_flags(src, sc);
    law_cut_keeps_terminator(flags, has_baseline(src.frames@, sc), section_chain(src.frames@, sc));
    let cs = section_plan(src, sc);
    let p = choose|p: int| 0 <= p < cs.len() && is_stop(flags, #[trigger] cs[p]);
    assert(cut_frame_ok(e.frames@[p], src, sc, cs[p]));
    lemma_frames_stop_at(e.frames@, p);
}

/// Transcodes a time window of a demo: the window is what `cuts` marks
/// (`[start - preroll, end]` of each playback section). The signon section
/// is kept whole, as it carries the map name, resource list and entity
/// baselines. Each playback section keeps its `DemoStart` and `NextSection`
/// frames (known from the frames themselves) and the frames inside the
/// window, with the synthetic baseline frames spliced in front of the
/// window (when a baseline was built, fits a message, and a kept network
/// message frame anchors it), and always ends up with a `NextSection`.
pub fn cut(demo: &Demo, cuts: &Vec<SectionCut>, opts: &Options) -> (r: Result<Output, CutError>)
    requires
        cuts@.len() == demo.entries@.len(),
        forall|i: int|
            0 <= i < cuts@.len() ==> (#[trigger] cuts@[i]).frames@.len()
                == demo.entries@[i].frames@.len(),
        forall|i: int, k: int|
            0 <= i < cuts@.len() && 0 <= k < cuts@[i].chain_frames@.len() ==> seq_in_range(
                #[trigger] cuts@[i].chain_frames@[k],
            ),
    ensures
        exists|kept: Seq<DirectoryEntry>|
            {
                &&& kept.len() == demo.entries@.len()
                &&& forall|i: int|
                    0 <= i < kept.len() ==> cut_entry_ok(
                        #[trigger] kept[i],
                        demo.entries@[i],
                        cuts@[i],
                    )
                &&& forall|i: int|
                    0 <= i < kept.len() && demo.entries@[i].type_ != 0 ==> frames_stop(
                        #[trigger] kept[i].frames@,
                    )
                &&& forall|i: int|
                    0 <= i < kept.len() ==> keeps_window(#[trigger] demo.entries@[i], cuts@[i])
                &&& cut_result(*demo, kept, *opts, r)
            },
{
    let mut kept: Vec<DirectoryEntry> = Vec::new();
    let mut i: usize = 0;
    while i < demo.entries.len()
        invariant
            i <= demo.entries@.len(),
            cuts@.len() == demo.entries@.len(),
            forall|j: int|
                0 <= j < cuts@.len() ==> (#[trigger] cuts@[j]).frames@.len()
                    == demo.entries@[j].frames@.len(),
            forall|j: int, k: int|
                0 <= j < cuts@.len() && 0 <= k < cuts@[j].chain_frames@.len() ==> seq_in_range(
                    #[trigger] cuts@[j].chain_frames@[k],
                ),
            kept@.len() == i,
            forall|j: int| 0 <= j < i ==> cut_entry_ok(#[trigger] kept@[j], demo.entries@[j], cuts@[j]),
            forall|j: int|
                0 <= j < i && demo.entries@[j].type_ != 0 ==> frames_stop(#[trigger] kept@[j].frames@),
            forall|j: int| 0 <= j < i ==> keeps_window(#[trigger] demo.entries@[j], cuts@[j]),
        decreases demo.entries@.len() - i,
    {
        let src = &demo.entries[i];
        let sc = &cuts[i];
        let n = src.frames.len();
        proof {
            assert(sc.frames@.len() == src.frames@.len());
            lemma_plan_indices(*src, *sc);
            lemma_first_anchor(src.frames@, section_flags(*src, *sc), 0);
        }
        let flags = mark_frames(&src.frames, &sc.frames);
        let mut anchor: usize = 0;
        let mut baseline = false;
        let mut chain: Vec<u8> = Vec::new();
        if src.type_ != 0 {
            if let Some(a) = find_anchor(&src.frames, &flags) {
                if let Some(p) = &sc.baseline {
                    if p.len() as u64 <= MAX_INIT_MSG as u64 {
                        baseline = true;
                        anchor = a;
                    }
                }
            }
            if baseline {
                proof {
                    assert forall|k: int| 0 <= k < sc.chain_frames@.len() implies seq_in_range(
                        #[trigger] sc.chain_frames@[k],
                    ) by {
                        assert(seq_in_range(cuts@[i as int].chain_frames@[k]));
                    }
                }
                let seq = match &src.frames[anchor].frame_data {
                    FrameData::NetworkMessage { sequence_info, .. } => sequence_info.incoming_sequence,
                    _ => 0,
                };
                chain = client_data_chain(&sc.chain_frames, seq);
            }
        }
        proof {
            assert(baseline == (src.type_ != 0 && has_baseline(src.frames@, *sc)));
            if baseline {
                assert(chain@ == section_chain(src.frames@, *sc));
            } else if src.type_ != 0 {
                assert(chain@ =~= section_chain(src.frames@, *sc));
            }
        }
        let plan = cut_section(&flags, src.type_ == 0, baseline, &chain);
        proof {
            assert(plan@ == section_plan(*src, *sc));
            if !baseline {
                lemma_plan_without_baseline(*src, *sc);
            }
        }
        let mut frames: Vec<Frame> = Vec::new();
        let mut k: usize = 0;
        while k < plan.len()
            invariant
                k <= plan@.len(),
                plan@ == section_plan(*src, *sc),
                forall|q: int|
                    0 <= q < plan@.len() ==> (#[trigger] plan@[q] matches FrameSource::Source(j)
                        ==> j < src.frames@.len()),
                baseline ==> has_baseline(src.frames@, *sc) && first_anchor(
                    src.frames@,
                    section_flags(*src, *sc),
                    0,
                ) == Some(anchor as int) && anchor < src.frames@.len()
                    && src.frames@[anchor as int].frame_data is NetworkMessage,
                !baseline ==> forall|q: int| 0 <= q < plan@.len() ==> !(#[trigger] plan@[q] is Synthetic),
                frames@.len() == k,
                forall|q: int| 0 <= q < k ==> cut_frame_ok(#[trigger] frames@[q], *src, *sc, plan@[q]),
            decreases plan@.len() - k,
        {
            match plan[k] {
                FrameSource::Source(j) => {
                    frames.push(copy_frame(&src.frames[j]));
                },
                FrameSource::Synthetic(q) => {
                    let payload = match &sc.baseline {
                        Some(p) => copy_bytes(p),
                        None => Vec::new(),
                    };
                    frames.push(synthetic_baseline_frame(&src.frames[anchor], payload, q));
                },
                FrameSource::Stop => {
                    frames.push(added_stop(&src.frames));
                },
            }
            k = k + 1;
        }
        let description = copy_bytes(&src.description);
        let track_time_bits = if src.type_ == 0 {
            src.track_time_bits
        } else {
            sc.track_time_bits
        };
        kept.push(DirectoryEntry { type_: src.type_, description, track_time_bits, frames });
        proof {
            assert(cut_entry_ok(kept@[i as int], *src, *sc));
            if src.type_ != 0 {
                lemma_cut_entry_stops(kept@[i as int], *src, *sc);
            }
        }
        i = i + 1;
    }
    if !total_frames_fit(&kept, opts.keep_userdata) {
        let r = Err(CutError::TooManyFrames);
        assert(cut_result(*demo, kept@, *opts, r));
        return r;
    }
    let t = transcode_entries(&demo.header, &kept, opts);
    let r = match t {
        Ok(o) => Ok(o),
        Err(e) => Err(CutError::Transcode(e)),
    };
    assert(cut_result(*demo, kept@, *opts, r));
    r
}

} // verus!

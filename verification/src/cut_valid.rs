//! A cut demo validates: what `cut` transcodes has a terminator in every
//! section and keeps every message, so the validator accepts it as it
//! accepts any transcoded demo.
use vstd::prelude::*;
use crate::transcode::{
    Demo, DirectoryEntry, Frame, Options, first_missing, first_missing_entries,
    idem_bytes, missing_payload,
};
use crate::transcode_valid::{frames_stop, lemma_frames_stop_at, law_transcoded_output_validates};
use crate::validate::{ValidationError, validate_spec};
use crate::cut::{
    FrameSource, SectionCut, cut_entry_ok, cut_frame_ok, lemma_cut_entry_stops, section_plan,
};

verus! {

proof fn lemma_frames_stop_has(frames: Seq<Frame>) -> (j: int)
    requires
        frames_stop(frames),
    ensures
        0 <= j < frames.len(),
        frames[j].frame_data is NextSection,
    decreases frames.len(),
{
    if frames.last().frame_data is NextSection {
        frames.len() - 1
    } else {
        lemma_frames_stop_has(frames.drop_last())
    }
}

proof fn lemma_first_missing_none(frames: Seq<Frame>)
    ensures
        first_missing(frames) is None <==> forall|j: int|
            0 <= j < frames.len() ==> !missing_payload(#[trigger] frames[j]),
    decreases frames.len(),
{
    if frames.len() > 0 {
        lemma_first_missing_none(frames.drop_last());
        if first_missing(frames.drop_last()) is None && !missing_payload(frames.last()) {
            assert forall|j: int| 0 <= j < frames.len() implies !missing_payload(
                #[trigger] frames[j],
            ) by {
                if j < frames.len() - 1 {
                    assert(frames[j] == frames.drop_last()[j]);
                }
            }
        }
        if first_missing(frames.drop_last()) is Some {
            let k = choose|j: int| 0 <= j < frames.drop_last().len() && #[trigger] missing_payload(frames.drop_last()[j]);
            assert(frames[k] == frames.drop_last()[k]);
        }
    }
}

proof fn lemma_first_missing_entries_none(entries: Seq<DirectoryEntry>)
    ensures
        first_missing_entries(entries) is None <==> forall|i: int|
            0 <= i < entries.len() ==> first_missing(#[trigger] entries[i].frames@) is None,
    decreases entries.len(),
{
    if entries.len() > 0 {
        lemma_first_missing_entries_none(entries.drop_last());
        if first_missing_entries(entries.drop_last()) is None && first_missing(entries.last().frames@) is None {
            assert forall|i: int| 0 <= i < entries.len() implies first_missing(
                #[trigger] entries[i].frames@,
            ) is None by {
                if i < entries.len() - 1 {
                    assert(entries[i] == entries.drop_last()[i]);
                }
            }
        }
        if first_missing_entries(entries.drop_last()) is Some {
            let k = choose|i: int| 0 <= i < entries.drop_last().len() && first_missing(#[trigger] entries.drop_last()[i].frames@) is Some;
            assert(entries[k] == entries.drop_last()[k]);
        }
    }
}

/// A kept section's frames carry their messages and a terminator.
proof fn lemma_cut_entry_clean(e: DirectoryEntry, src: DirectoryEntry, sc: SectionCut)
    requires
        cut_entry_ok(e, src, sc),
        sc.frames@.len() == src.frames@.len(),
        src.frames@.len() <= usize::MAX,
        first_missing(src.frames@) is None,
        src.type_ == 0 ==> frames_stop(src.frames@),
    ensures
        first_missing(e.frames@) is None,
        frames_stop(e.frames@),
{
    let plan = section_plan(src, sc);
    lemma_first_missing_none(src.frames@);
    lemma_first_missing_none(e.frames@);
    assert forall|k: int| 0 <= k < e.frames@.len() implies !missing_payload(#[trigger] e.frames@[k]) by {
        assert(cut_frame_ok(e.frames@[k], src, sc, plan[k]));
        match plan[k] {
            FrameSource::Source(i) => {
                assert(!missing_payload(src.frames@[i as int]));
            },
            _ => {},
        }
    }
    if src.type_ == 0 {
        let j = lemma_frames_stop_has(src.frames@);
        assert(plan[j] == FrameSource::Source(j as usize));
        assert(cut_frame_ok(e.frames@[j], src, sc, plan[j]));
        lemma_frames_stop_at(e.frames@, j);
    } else {
        lemma_cut_entry_stops(e, src, sc);
    }
}

/// What `cut` transcodes validates without a single error, when the demo
/// has between 1 and 1024 sections whose network messages were all kept,
/// its signon section holds a `NextSection` frame (a cut keeps that section
/// whole; every other section gets a terminator from the cut), and the
/// file stays within `i32` offsets.
pub proof fn law_cut_output_validates(
    demo: Demo,
    cuts: Seq<SectionCut>,
    opts: Options,
    kept: Seq<DirectoryEntry>,
)
    requires
        1 <= demo.entries@.len() <= 1024,
        cuts.len() == demo.entries@.len(),
        kept.len() == demo.entries@.len(),
        first_missing_entries(demo.entries@) is None,
        forall|i: int|
            0 <= i < demo.entries@.len() && (#[trigger] demo.entries@[i]).type_ == 0 ==> frames_stop(
                demo.entries@[i].frames@,
            ),
        forall|i: int|
            0 <= i < demo.entries@.len() ==> (#[trigger] demo.entries@[i]).frames@.len()
                == cuts[i].frames@.len() <= usize::MAX,
        forall|i: int|
            0 <= i < kept.len() ==> cut_entry_ok(#[trigger] kept[i], demo.entries@[i], cuts[i]),
        idem_bytes(demo.header, kept, opts).len() <= i32::MAX,
    ensures
        validate_spec(idem_bytes(demo.header, kept, opts)) == Seq::<ValidationError>::empty(),
{
    lemma_first_missing_entries_none(demo.entries@);
    lemma_first_missing_entries_none(kept);
    assert forall|i: int| 0 <= i < kept.len() implies first_missing(#[trigger] kept[i].frames@) is None
        && frames_stop(kept[i].frames@) by {
        assert(first_missing(demo.entries@[i].frames@) is None);
        lemma_cut_entry_clean(kept[i], demo.entries@[i], cuts[i]);
    }
    law_transcoded_output_validates(demo.header, kept, opts);
}

} // verus!

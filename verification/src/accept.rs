//! What it means for validation to pass, said without the walk: a file the
//! validator accepts has the right header, a directory inside the file with
//! 1 to 1024 entries, and every entry inside the file, made of well-formed
//! frames that end exactly at its end, one of them a `dem_stop`.
use vstd::prelude::*;
use crate::idem::{
    IDEMOHEADER, DEMO_PROTOCOL, PROTOCOL_GOLDSRC_VERSION_DEMO, MAX_INIT_MSG, HEADER_SIZE,
    ENTRY_SIZE, DEM_NOREWIND, DEM_READ, DEM_USERDATA, DEM_USERCMD, DEM_STOP,
};
use crate::validate::{
    ValidationError, WalkEnd, entries_walk, entry_step, frame_walk, rd_i32, validate_spec,
};

verus! {

/// The size of the frame at `q` when it is well formed, `None` when it is
/// not: a known command (at most `dem_stop`) and a 32-bit time, then for
/// `dem_norewind` and `dem_read` 28 bytes of sequence numbers and a message
/// whose length lies in `0..=MAX_INIT_MSG`; for `dem_userdata` a length and
/// that many bytes (none for a negative length); for `dem_usercmd` 8 bytes
/// and a 16-bit length and that many bytes; nothing more for the others.
/// The length fields must lie inside the file.
pub open spec fn frame_size(data: Seq<u8>, q: int) -> Option<int> {
    if q < 0 || q >= data.len() {
        None
    } else {
        let cmd = data[q];
        if cmd > DEM_STOP {
            None
        } else if cmd == DEM_NOREWIND || cmd == DEM_READ {
            if q + 37 > data.len() {
                None
            } else {
                let mlen = rd_i32(data, q + 33);
                if mlen < 0 || mlen > MAX_INIT_MSG {
                    None
                } else {
                    Some(37 + mlen)
                }
            }
        } else if cmd == DEM_USERDATA {
            if q + 9 > data.len() {
                None
            } else {
                let sz = rd_i32(data, q + 5);
                Some(
                    9 + if sz < 0 {
                        0
                    } else {
                        sz as int
                    },
                )
            }
        } else if cmd == DEM_USERCMD {
            if q + 15 > data.len() {
                None
            } else {
                Some(15 + data[q + 13] as int + 256 * data[q + 14] as int)
            }
        } else {
            Some(5)
        }
    }
}

/// Whether the frames starting at `bounds[0..len-1]` follow one another
/// from `off`, each well formed, the last one ending exactly at `end`.
pub open spec fn frames_split(data: Seq<u8>, bounds: Seq<int>, off: int, end: int) -> bool {
    &&& bounds.len() >= 1
    &&& bounds[0] == off
    &&& bounds.last() == end
    &&& forall|k: int|
        0 <= k < bounds.len() - 1 ==> frame_size(data, #[trigger] bounds[k]) == Some(
            bounds[k + 1] - bounds[k],
        )
}

/// Whether one of the frames is a `dem_stop`.
pub open spec fn has_stop(data: Seq<u8>, bounds: Seq<int>) -> bool {
    exists|k: int| 0 <= k < bounds.len() - 1 && data[#[trigger] bounds[k]] == DEM_STOP
}

/// Whether directory entry `i` is acceptable: its record lies inside the
/// file, and so do its frames, which split its bytes exactly and hold a
/// `dem_stop`.
pub open spec fn entry_acceptable(data: Seq<u8>, dir_off: int, i: int) -> bool {
    let p = dir_off + 4 + i * ENTRY_SIZE;
    let off = rd_i32(data, p + 12) as usize as int;
    let end = off + rd_i32(data, p + 16) as usize as int;
    &&& p + ENTRY_SIZE <= data.len()
    &&& end <= data.len()
    &&& exists|bounds: Seq<int>| frames_split(data, bounds, off, end) && has_stop(data, bounds)
}

/// Whether `data` is an IDEM file as Xash3D's demo player reads it: the
/// header's magic and protocols, a directory offset inside the file with
/// room for the entry count, between 1 and 1024 entries, and every entry
/// acceptable.
pub open spec fn idem_acceptable(data: Seq<u8>) -> bool {
    let dir_off = rd_i32(data, 212);
    let n = rd_i32(data, dir_off as int);
    &&& data.len() >= HEADER_SIZE
    &&& rd_i32(data, 0) == IDEMOHEADER
    &&& rd_i32(data, 4) == DEMO_PROTOCOL
    &&& rd_i32(data, 8) == PROTOCOL_GOLDSRC_VERSION_DEMO
    &&& 0 < dir_off
    &&& dir_off + 4 <= data.len()
    &&& 1 <= n <= 1024
    &&& forall|i: int| 0 <= i < n ==> #[trigger] entry_acceptable(data, dir_off as int, i)
}

/// A walk over an entry's frames that ends exactly at `end`, without an
/// error and with a `dem_stop` seen, splits the bytes into well-formed
/// frames.
proof fn lemma_walk_splits(data: Seq<u8>, entry: usize, q: int, end: int, s: bool) -> (bounds: Seq<
    int,
>)
    requires
        0 <= q <= end <= data.len(),
        data.len() <= isize::MAX,
        frame_walk(data, entry, q, end, s) == WalkEnd::Ended(end as u64, true, None),
    ensures
        frames_split(data, bounds, q, end),
        s || has_stop(data, bounds),
    decreases end - q,
{
    if q >= end {
        seq![q]
    } else {
        let cmd = data[q];
        let q2 = q + 5;
        let next: int = if cmd == DEM_NOREWIND || cmd == DEM_READ {
            q + 37 + rd_i32(data, q + 33)
        } else if cmd == DEM_USERDATA {
            let sz = rd_i32(data, q + 5);
            q + 9 + if sz < 0 {
                0
            } else {
                sz as int
            }
        } else if cmd == DEM_USERCMD {
            q + 15 + data[q + 13] as int + 256 * data[q + 14] as int
        } else {
            q2
        };
        let s2 = s || cmd == DEM_STOP;
        assert(frame_size(data, q) == Some(next - q));
        assert(frame_walk(data, entry, q, end, s) == frame_walk(data, entry, next, end, s2));
        if next > end {
            assert(frame_walk(data, entry, next, end, s2) == WalkEnd::Ended(
                next as u64,
                s2,
                None,
            ));
            assert(next < 0x1_0000_0000_0000_0000);
            assert(false);
        }
        let rest = lemma_walk_splits(data, entry, next, end, s2);
        let bounds = seq![q] + rest;
        assert forall|k: int| 0 <= k < bounds.len() - 1 implies frame_size(
            data,
            #[trigger] bounds[k],
        ) == Some(bounds[k + 1] - bounds[k]) by {
            if k > 0 {
                assert(bounds[k] == rest[k - 1]);
                assert(bounds[k + 1] == rest[k]);
                assert(frame_size(data, rest[k - 1]) == Some(rest[k] - rest[k - 1]));
            }
        }
        assert(bounds.last() == rest.last());
        if !s {
            if cmd == DEM_STOP {
                assert(data[bounds[0]] == DEM_STOP);
            } else {
                let k = choose|k: int| 0 <= k < rest.len() - 1 && data[#[trigger] rest[k]] == DEM_STOP;
                assert(bounds[k + 1] == rest[k]);
            }
        }
        bounds
    }
}

/// An entry that checking finds nothing wrong with, and that does not stop
/// the validation, is acceptable.
proof fn lemma_entry_step_clean(data: Seq<u8>, dir_off: int, i: int)
    requires
        0 <= dir_off,
        0 <= i,
        data.len() <= isize::MAX,
        entry_step(data, dir_off, i) == (Seq::<ValidationError>::empty(), false),
    ensures
        entry_acceptable(data, dir_off, i),
{
    let p = dir_off + 4 + i * ENTRY_SIZE;
    let off = rd_i32(data, p + 12) as usize as int;
    let end = off + rd_i32(data, p + 16) as usize as int;
    let (errs, _stop) = entry_step(data, dir_off, i);
    assert(errs.len() == 0);
    assert(p + ENTRY_SIZE <= data.len()) by {
        if p + ENTRY_SIZE > data.len() {
            assert(errs == seq![ValidationError::EntryTruncated(i as usize)]);
        }
    }
    assert(end <= data.len()) by {
        if end > data.len() {
            assert(errs == seq![ValidationError::EntryPastEof(i as usize)]);
        }
    }
    match frame_walk(data, i as usize, off, end, false) {
        WalkEnd::Ended(q, saw, err) => {
            let e1: Seq<ValidationError> = match err {
                Some(e) => seq![e],
                None => Seq::empty(),
            };
            let drift = q as int - end;
            let e2 = if q != end {
                e1.push(ValidationError::FrameWalkDrift(i as usize, q, end as usize, drift as i64))
            } else {
                e1
            };
            let e3 = if !saw {
                e2.push(ValidationError::NoStop(i as usize))
            } else {
                e2
            };
            assert(errs == e3);
            assert(e2.len() <= e3.len());
            assert(e1.len() <= e2.len());
            assert(err is None);
            assert(q == end);
            assert(saw);
            let bounds = lemma_walk_splits(data, i as usize, off, end, false);
            assert(frames_split(data, bounds, off, end) && has_stop(data, bounds));
        },
        WalkEnd::Truncated(at) => {
            assert(errs == seq![ValidationError::TruncatedRead(at)]);
        },
    }
}

/// Checking the entries from `i` on finds nothing only when each of them is
/// acceptable.
proof fn lemma_entries_clean(data: Seq<u8>, dir_off: int, n: int, i: int)
    requires
        0 <= dir_off,
        0 <= i,
        data.len() <= isize::MAX,
        entries_walk(data, dir_off, n, i) == Seq::<ValidationError>::empty(),
    ensures
        forall|j: int| i <= j < n ==> #[trigger] entry_acceptable(data, dir_off, j),
    decreases n - i,
{
    if i < n {
        let (errs, stop) = entry_step(data, dir_off, i);
        if stop {
            assert(errs.len() == 0);
            assert(errs =~= Seq::<ValidationError>::empty());
        } else {
            let rest = entries_walk(data, dir_off, n, i + 1);
            assert(errs + rest == Seq::<ValidationError>::empty());
            assert(errs.len() == 0 && rest.len() == 0);
            assert(errs =~= Seq::<ValidationError>::empty());
            assert(rest =~= Seq::<ValidationError>::empty());
            lemma_entries_clean(data, dir_off, n, i + 1);
        }
        lemma_entry_step_clean(data, dir_off, i);
        if stop {
            assert(false);
        }
    }
}

/// What validation accepts, said without the walk: a file on which
/// validation finds no error at all has the IDEM magic and protocols, a
/// directory offset inside the file with room for the entry count, between
/// 1 and 1024 entries, and every entry inside the file and made of
/// well-formed frames (known commands, message lengths within
/// `MAX_INIT_MSG`) that end exactly at its end, one of them a `dem_stop`.
/// It holds of the contents of any byte slice, which never exceeds
/// `isize::MAX` bytes.
pub proof fn law_accepted_files(data: Seq<u8>)
    requires
        data.len() <= isize::MAX,
        validate_spec(data) == Seq::<ValidationError>::empty(),
    ensures
        idem_acceptable(data),
{
    let r = validate_spec(data);
    assert(r.len() == 0);
    if data.len() < HEADER_SIZE {
        assert(r == seq![ValidationError::ShortHeader]);
        assert(false);
    }
    let dir_off = rd_i32(data, 212);
    let e1: Seq<ValidationError> = if rd_i32(data, 0) != IDEMOHEADER {
        seq![ValidationError::BadMagic]
    } else {
        Seq::empty()
    };
    let e2 = if rd_i32(data, 4) != DEMO_PROTOCOL {
        e1.push(ValidationError::DemProtocol(rd_i32(data, 4)))
    } else {
        e1
    };
    let e3 = if rd_i32(data, 8) != PROTOCOL_GOLDSRC_VERSION_DEMO {
        e2.push(ValidationError::NetProtocol(rd_i32(data, 8)))
    } else {
        e2
    };
    assert(e1.len() <= e2.len() <= e3.len());
    if dir_off <= 0 || dir_off >= data.len() {
        assert(r == e3.push(ValidationError::DirectoryOffset(dir_off)));
        assert(false);
    }
    if dir_off + 4 > data.len() {
        assert(r == e3.push(ValidationError::TruncatedRead(dir_off as usize)));
        assert(false);
    }
    let n = rd_i32(data, dir_off as int);
    if n < 1 || n > 1024 {
        assert(r == e3.push(ValidationError::EntryCount(n)));
        assert(false);
    }
    let rest = entries_walk(data, dir_off as int, n as int, 0);
    assert(r == e3 + rest);
    assert(e3.len() == 0 && rest.len() == 0);
    assert(e1.len() == 0 && e2.len() == 0);
    assert(rest =~= Seq::<ValidationError>::empty());
    lemma_entries_clean(data, dir_off as int, n as int, 0);
}


/// Walking over a well-formed frame that ends by `end` moves the walk to
/// its end, noting a `dem_stop`.
proof fn lemma_walk_step(data: Seq<u8>, entry: usize, q: int, end: int, s: bool)
    requires
        0 <= q < end <= data.len(),
        frame_size(data, q) matches Some(z) && q + z <= end,
    ensures
        frame_walk(data, entry, q, end, s) == frame_walk(
            data,
            entry,
            q + frame_size(data, q)->0,
            end,
            s || data[q] == DEM_STOP,
        ),
{
}

/// Walking frames that split the bytes from `bounds[k]` to `end` ends
/// exactly at `end`, without an error, having seen a `dem_stop` when one of
/// those frames is one.
proof fn lemma_split_walks(data: Seq<u8>, entry: usize, bounds: Seq<int>, k: int, end: int, s: bool)
    requires
        frames_split(data, bounds, bounds[0], end),
        0 <= k < bounds.len(),
        0 <= end <= data.len(),
    ensures
        bounds[k] <= end,
        frame_walk(data, entry, bounds[k], end, s) == WalkEnd::Ended(
            end as u64,
            s || exists|j: int| k <= j < bounds.len() - 1 && data[#[trigger] bounds[j]] == DEM_STOP,
            None,
        ),
    decreases bounds.len() - k,
{
    let stop_from = exists|j: int| k <= j < bounds.len() - 1 && data[#[trigger] bounds[j]] == DEM_STOP;
    if k == bounds.len() - 1 {
        assert(!stop_from);
    } else {
        let q = bounds[k];
        let cmd = data[q];
        let s2 = s || cmd == DEM_STOP;
        assert(frame_size(data, q) == Some(bounds[k + 1] - q));
        lemma_split_walks(data, entry, bounds, k + 1, end, s2);
        let stop_next = exists|j: int| k + 1 <= j < bounds.len() - 1 && data[#[trigger] bounds[j]] == DEM_STOP;
        lemma_walk_step(data, entry, q, end, s);
        assert((s2 || stop_next) == (s || stop_from)) by {
            if stop_from && !s2 {
                let j = choose|j: int| k <= j < bounds.len() - 1 && data[#[trigger] bounds[j]] == DEM_STOP;
                assert(j != k);
            }
            if cmd == DEM_STOP {
                assert(data[bounds[k]] == DEM_STOP);
            }
        }
    }
}

/// An acceptable entry is checked without an error, and checking goes on.
proof fn lemma_entry_acceptable_step(data: Seq<u8>, dir_off: int, i: int)
    requires
        0 <= dir_off,
        0 <= i,
        data.len() <= isize::MAX,
        entry_acceptable(data, dir_off, i),
    ensures
        entry_step(data, dir_off, i) == (Seq::<ValidationError>::empty(), false),
{
    let p = dir_off + 4 + i * ENTRY_SIZE;
    let off = rd_i32(data, p + 12) as usize as int;
    let end = off + rd_i32(data, p + 16) as usize as int;
    let bounds = choose|bounds: Seq<int>| frames_split(data, bounds, off, end) && has_stop(data, bounds);
    lemma_split_walks(data, i as usize, bounds, 0, end, false);
    let k = choose|k: int| 0 <= k < bounds.len() - 1 && data[#[trigger] bounds[k]] == DEM_STOP;
    assert(exists|j: int| 0 <= j < bounds.len() - 1 && data[#[trigger] bounds[j]] == DEM_STOP);
    assert(frame_walk(data, i as usize, off, end, false) == WalkEnd::Ended(end as u64, true, None));
    let e1: Seq<ValidationError> = Seq::empty();
    assert(entry_step(data, dir_off, i) == (e1, false));
}

/// Checking acceptable entries from `i` on finds nothing.
proof fn lemma_acceptable_entries(data: Seq<u8>, dir_off: int, n: int, i: int)
    requires
        0 <= dir_off,
        0 <= i,
        data.len() <= isize::MAX,
        forall|j: int| 0 <= j < n ==> #[trigger] entry_acceptable(data, dir_off, j),
    ensures
        entries_walk(data, dir_off, n, i) == Seq::<ValidationError>::empty(),
    decreases n - i,
{
    if i < n {
        lemma_entry_acceptable_step(data, dir_off, i);
        lemma_acceptable_entries(data, dir_off, n, i + 1);
        assert(Seq::<ValidationError>::empty() + Seq::<ValidationError>::empty() =~= Seq::<
            ValidationError,
        >::empty());
    }
}

/// And the other way round: validation finds no error at all in an
/// acceptable file (the contents of a byte slice). So validation passes
/// exactly on the files `idem_acceptable` describes.
pub proof fn law_acceptable_files_pass(data: Seq<u8>)
    requires
        idem_acceptable(data),
        data.len() <= isize::MAX,
    ensures
        validate_spec(data) == Seq::<ValidationError>::empty(),
{
    let dir_off = rd_i32(data, 212);
    let n = rd_i32(data, dir_off as int);
    lemma_acceptable_entries(data, dir_off as int, n as int, 0);
    assert(Seq::<ValidationError>::empty() + Seq::<ValidationError>::empty() =~= Seq::<
        ValidationError,
    >::empty());
}

} // verus!

//! Which pre-cut client-data frames a cut demo has to synthesize.
//!
//! `svc_clientdata` deltas against one earlier frame, named by the low byte
//! of that frame's sequence number (`cl.frames[delta_sequence &
//! CL_UPDATE_MASK]`). Right after a cut, the first messages of the kept
//! window still reference frames from before the cut; each of those frames
//! has to be put back, as a synthetic frame with that sequence byte, before
//! the chain catches up with frames that the window itself carries.
use vstd::prelude::*;
use vstd::arithmetic::div_mod::lemma_mod_multiples_vanish;
use crate::bitvec_model::{BitVec, bits_value};
use crate::bit::{BitSliceCast, clamp_bits};

verus! {

/// GoldSrc's client-data ring buffer size for a multiplayer session
/// (`MULTIPLAYER_BACKUP`); `CL_UPDATE_MASK` is this minus one.
pub const CL_UPDATE_BACKUP: i32 = 64;

/// A `svc_clientdata` message, as far as the chain reads it.
pub struct ClientDataRef {
    pub has_delta_update_mask: bool,
    /// The sequence byte the message deltas against (8 bits), when present.
    pub delta_update_mask: Option<BitVec>,
}

/// A frame of the section after the cut point, as far as the chain reads it.
pub struct ChainFrame {
    /// Whether the frame's time lies before the cut point.
    pub before_cut: bool,
    /// The frame's `incoming_sequence`, when it is a network message.
    pub incoming_sequence: Option<i32>,
    /// Its `svc_clientdata` messages in order, when its messages were
    /// decoded.
    pub client_data: Option<Vec<ClientDataRef>>,
}

/// The byte a message deltas against; `None` for a full update, which
/// needs no earlier frame.
pub open spec fn delta_byte(m: ClientDataRef) -> Option<u8> {
    if m.has_delta_update_mask {
        match m.delta_update_mask {
            Some(v) => Some(bits_value(clamp_bits(v@, 8)) as u8),
            None => None,
        }
    } else {
        None
    }
}

/// The sequence number of the frame that byte `b` names for a message of
/// sequence `seq`: the latest one at or before `seq` whose low bits are
/// `b`'s, within the last `CL_UPDATE_BACKUP` frames.
pub open spec fn referenced(seq: int, b: int) -> int {
    seq - ((seq % 64) - b) % 64
}

/// The walk over one frame's messages: the bytes needed so far, and
/// whether the walk stops here (a full update, or a reference that reaches
/// the kept window).
pub open spec fn walk_messages(
    msgs: Seq<ClientDataRef>,
    seq: int,
    anchor: int,
    needed: Seq<u8>,
) -> (Seq<u8>, bool)
    decreases msgs.len(),
{
    if msgs.len() == 0 {
        (needed, false)
    } else {
        match delta_byte(msgs[0]) {
            None => (needed, true),
            Some(b) => if referenced(seq, b as int) >= anchor {
                (needed, true)
            } else {
                walk_messages(
                    msgs.drop_first(),
                    seq,
                    anchor,
                    if needed.contains(b) {
                        needed
                    } else {
                        needed.push(b)
                    },
                )
            },
        }
    }
}

/// Whether the walk reads a frame's messages: a decoded network message at
/// or after the cut.
pub open spec fn walked(f: ChainFrame) -> bool {
    !f.before_cut && f.incoming_sequence is Some && f.client_data is Some
}

/// The distinct bytes the leading post-cut messages reference before the
/// kept window, in first-seen order.
pub open spec fn walk_frames(frames: Seq<ChainFrame>, anchor: int, needed: Seq<u8>) -> Seq<u8>
    decreases frames.len(),
{
    if frames.len() == 0 {
        needed
    } else {
        let f = frames[0];
        if !walked(f) {
            walk_frames(frames.drop_first(), anchor, needed)
        } else {
            let (n2, stop) = walk_messages(
                f.client_data->0@,
                f.incoming_sequence->0 as int,
                anchor,
                needed,
            );
            if stop {
                n2
            } else {
                walk_frames(frames.drop_first(), anchor, n2)
            }
        }
    }
}

/// No byte occurs twice.
pub open spec fn no_repeats(s: Seq<u8>) -> bool {
    forall|i: int, j: int| 0 <= i < j < s.len() ==> s[i] != s[j]
}

proof fn lemma_walk_messages_no_repeats(
    msgs: Seq<ClientDataRef>,
    seq: int,
    anchor: int,
    needed: Seq<u8>,
)
    requires
        no_repeats(needed),
    ensures
        no_repeats(walk_messages(msgs, seq, anchor, needed).0),
    decreases msgs.len(),
{
    if msgs.len() > 0 {
        if let Some(b) = delta_byte(msgs[0]) {
            if referenced(seq, b as int) < anchor {
                let n2 = if needed.contains(b) {
                    needed
                } else {
                    needed.push(b)
                };
                assert(no_repeats(n2)) by {
                    if !needed.contains(b) {
                        assert forall|i: int, j: int| 0 <= i < j < n2.len() implies n2[i]
                            != n2[j] by {
                            if j == needed.len() {
                                assert(n2[i] == needed[i]);
                            }
                        }
                    }
                }
                lemma_walk_messages_no_repeats(msgs.drop_first(), seq, anchor, n2);
            }
        }
    }
}

/// The bytes of the chain are distinct: each pre-cut frame is synthesized
/// once, however many messages reference it.
pub proof fn law_chain_bytes_distinct(frames: Seq<ChainFrame>, anchor: int, needed: Seq<u8>)
    requires
        no_repeats(needed),
    ensures
        no_repeats(walk_frames(frames, anchor, needed)),
    decreases frames.len(),
{
    if frames.len() > 0 {
        let f = frames[0];
        if !walked(f) {
            law_chain_bytes_distinct(frames.drop_first(), anchor, needed);
        } else {
            let msgs = f.client_data->0@;
            let seq = f.incoming_sequence->0 as int;
            lemma_walk_messages_no_repeats(msgs, seq, anchor, needed);
            let (n2, stop) = walk_messages(msgs, seq, anchor, needed);
            if !stop {
                law_chain_bytes_distinct(frames.drop_first(), anchor, n2);
            }
        }
    }
}

/// The byte a message deltas against, as `walk_messages` reads it.
fn delta_byte_exec(m: &ClientDataRef) -> (r: Option<u8>)
    ensures
        r == delta_byte(*m),
{
    if m.has_delta_update_mask {
        match &m.delta_update_mask {
            Some(v) => Some(v.to_u8()),
            None => None,
        }
    } else {
        None
    }
}

/// `referenced`, on a sequence number far enough from `i32::MIN`.
fn referenced_exec(seq: i32, b: u8) -> (r: i32)
    requires
        seq >= i32::MIN + 63,
    ensures
        r == referenced(seq as int, b as int),
{
    let u: u64 = (seq as i64 + 2147483648i64) as u64;
    let m: u64 = u % 64;
    proof {
        lemma_mod_multiples_vanish(33554432, seq as int, 64);
        assert(m == (seq as int) % 64);
    }
    let d: u64 = m + 256 - b as u64;
    let lag: u64 = d % 64;
    proof {
        lemma_mod_multiples_vanish(4, m as int - b as int, 64);
        assert(lag == (m as int - b as int) % 64);
    }
    seq - lag as i32
}

/// Whether a sequence number stays clear of `i32::MIN` by more than a ring
/// buffer's length, so that going back one buffer cannot overflow.
pub open spec fn seq_in_range(f: ChainFrame) -> bool {
    walked(f) ==> f.incoming_sequence->0 >= i32::MIN + 63
}

/// Whether every frame the walk could read has a sequence number it can go
/// back from (what `client_data_chain` asks of its input).
pub fn sequences_in_range(frames: &Vec<ChainFrame>) -> (r: bool)
    ensures
        r == forall|i: int| 0 <= i < frames@.len() ==> seq_in_range(#[trigger] frames@[i]),
{
    let mut i: usize = 0;
    while i < frames.len()
        invariant
            i <= frames@.len(),
            forall|k: int| 0 <= k < i ==> seq_in_range(#[trigger] frames@[k]),
        decreases frames@.len() - i,
    {
        let f = &frames[i];
        if !f.before_cut && f.client_data.is_some() {
            if let Some(s) = f.incoming_sequence {
                if s < i32::MIN + 63 {
                    assert(!seq_in_range(frames@[i as int]));
                    return false;
                }
            }
        }
        i = i + 1;
    }
    true
}

/// Walks the post-cut `svc_clientdata` stream and returns every distinct
/// sequence byte its leading messages reference before the kept window, in
/// first-seen order. The walk stops at the first full update, and at the
/// first message whose reference reaches `anchor_seq` (the sequence of the
/// first kept network frame): from there on the stream resolves itself.
pub fn client_data_chain(frames: &Vec<ChainFrame>, anchor_seq: i32) -> (r: Vec<u8>)
    requires
        forall|i: int| 0 <= i < frames@.len() ==> seq_in_range(#[trigger] frames@[i]),
    ensures
        r@ == walk_frames(frames@, anchor_seq as int, Seq::empty()),
        no_repeats(r@),
{
    proof {
        law_chain_bytes_distinct(frames@, anchor_seq as int, Seq::empty());
    }
    let mut needed: Vec<u8> = Vec::new();
    let mut i: usize = 0;
    proof {
        assert(frames@.skip(0) =~= frames@);
    }
    while i < frames.len()
        invariant
            i <= frames@.len(),
            forall|k: int| 0 <= k < frames@.len() ==> seq_in_range(#[trigger] frames@[k]),
            no_repeats(walk_frames(frames@, anchor_seq as int, Seq::empty())),
            walk_frames(frames@, anchor_seq as int, Seq::empty()) == walk_frames(
                frames@.skip(i as int),
                anchor_seq as int,
                needed@,
            ),
        decreases frames@.len() - i,
    {
        let f = &frames[i];
        proof {
            assert(frames@.skip(i as int)[0] == frames@[i as int]);
            assert(frames@.skip(i as int).drop_first() =~= frames@.skip(i + 1));
            assert(seq_in_range(frames@[i as int]));
        }
        if f.before_cut {
            i = i + 1;
            continue;
        }
        let seq = match f.incoming_sequence {
            Some(s) => s,
            None => {
                i = i + 1;
                continue;
            },
        };
        let msgs = match &f.client_data {
            Some(m) => m,
            None => {
                i = i + 1;
                continue;
            },
        };
        let ghost before = needed@;
        let mut j: usize = 0;
        let mut stop = false;
        proof {
            assert(msgs@.skip(0) =~= msgs@);
            if msgs@.len() == 0 {
                assert(msgs@.skip(0) =~= Seq::<ClientDataRef>::empty());
            }
        }
        while j < msgs.len()
            invariant_except_break
                !stop,
            invariant
                j <= msgs@.len(),
                seq >= i32::MIN + 63,
                walk_messages(msgs@, seq as int, anchor_seq as int, before) == walk_messages(
                    msgs@.skip(j as int),
                    seq as int,
                    anchor_seq as int,
                    needed@,
                ),
            ensures
                stop ==> walk_messages(msgs@, seq as int, anchor_seq as int, before) == (
                    needed@,
                    true,
                ),
                !stop ==> walk_messages(msgs@, seq as int, anchor_seq as int, before) == (
                    needed@,
                    false,
                ),
            decreases msgs@.len() - j,
        {
            proof {
                assert(msgs@.skip(j as int)[0] == msgs@[j as int]);
                assert(msgs@.skip(j as int).drop_first() =~= msgs@.skip(j + 1));
            }
            let ghost rest = msgs@.skip(j as int);
            let b = match delta_byte_exec(&msgs[j]) {
                Some(b) => b,
                None => {
                    assert(delta_byte(rest[0]) is None);
                    assert(walk_messages(rest, seq as int, anchor_seq as int, needed@) == (
                        needed@,
                        true,
                    ));
                    stop = true;
                    break;
                },
            };
            if referenced_exec(seq, b) >= anchor_seq {
                assert(walk_messages(rest, seq as int, anchor_seq as int, needed@) == (
                    needed@,
                    true,
                ));
                stop = true;
                break;
            }
            if !contains_byte(&needed, b) {
                needed.push(b);
            }
            j = j + 1;
            proof {
                if j == msgs@.len() {
                    assert(msgs@.skip(j as int) =~= Seq::<ClientDataRef>::empty());
                }
            }
        }
        if stop {
            return needed;
        }
        i = i + 1;
    }
    needed
}

fn contains_byte(v: &Vec<u8>, b: u8) -> (r: bool)
    ensures
        r == v@.contains(b),
{
    let mut i: usize = 0;
    while i < v.len()
        invariant
            i <= v@.len(),
            forall|k: int| 0 <= k < i ==> v@[k] != b,
        decreases v@.len() - i,
    {
        if v[i] == b {
            return true;
        }
        i = i + 1;
    }
    false
}

} // verus!

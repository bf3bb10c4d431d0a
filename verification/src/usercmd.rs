//! Xash's `dem_usercmd` frames, built from the input GoldSrc records with
//! every network message.
//!
//! The wire format is Xash's generic delta-field encoder over the
//! `usercmd_t` field table of `delta.lst`, always against an all-zero
//! baseline: per field one "changed" bit, then, if set, the value in the
//! field's width. An unset bit means "copy from the baseline", that is zero.
//! Bits are packed least significant first within each byte, with padding
//! only at the very end.
use vstd::prelude::*;
use crate::bitvec_model::{bit_of, bits_value, u64_bit, u64_low_bits};

verus! {

/// The bytes of a bit sequence packed least significant bit first, the
/// last byte padded with zero bits.
pub open spec fn pack_bits(bits: Seq<bool>) -> Seq<u8> {
    Seq::new(
        (bits.len() + 7) / 8,
        |k: int|
            bits_value(
                bits.subrange(8 * k, if 8 * k + 8 <= bits.len() { 8 * k + 8 } else { bits.len() as int }),
            ) as u8,
    )
}

/// A changed field: the set flag bit, then the low `bits` bits of `value`.
pub open spec fn changed_field(value: u32, bits: nat) -> Seq<bool> {
    seq![true] + u64_low_bits(value as u64, bits)
}

/// An unchanged field: just the clear flag bit.
pub open spec fn unchanged_field() -> Seq<bool> {
    seq![false]
}

/// Packs bits least significant first into bytes.
struct BitWriter {
    out: Vec<u8>,
    acc: u64,
    nbits: u32,
}

impl BitWriter {
    /// The writer has packed `written`: the whole bytes are out, the
    /// remaining `nbits` bits wait in the low end of `acc`.
    spec fn holds(&self, written: Seq<bool>) -> bool {
        &&& self.nbits < 8
        &&& self.out@.len() * 8 + self.nbits == written.len()
        &&& forall|i: int|
            0 <= i < self.out@.len() * 8 ==> #[trigger] bit_of(self.out@[i / 8], i % 8)
                == written[i]
        &&& forall|j: int|
            0 <= j < self.nbits ==> #[trigger] u64_bit(self.acc, j) == written[self.out@.len() * 8
                + j]
        &&& self.acc >> (self.nbits as u64) == 0
    }

    fn new() -> (r: Self)
        ensures
            r.holds(Seq::empty()),
    {
        let r = Self { out: Vec::new(), acc: 0, nbits: 0 };
        assert(0u64 >> 0u64 == 0) by (bit_vector);
        r
    }

    /// Write the low `bits` bits of `value`, LSB first.
    fn write_bits(&mut self, value: u32, bits: u32, Ghost(written): Ghost<Seq<bool>>)
        requires
            1 <= bits <= 32,
            old(self).holds(written),
        ensures
            final(self).holds(written + u64_low_bits(value as u64, bits as nat)),
    {
        proof {
            assert(1u64 << (bits as u64) >= 1) by (bit_vector)
                requires
                    bits < 64,
            ;
        }
        let masked: u64 = if bits == 32 {
            value as u64
        } else {
            (value as u64) & ((1u64 << (bits as u64)) - 1)
        };
        let ghost old_acc = self.acc;
        let ghost n = self.nbits;
        let ghost target = written + u64_low_bits(value as u64, bits as nat);
        proof {
            assert(masked >> (bits as u64) == 0 && forall|j: u64|
                j < bits ==> (#[trigger] ((masked >> j) & 1u64)) == ((value as u64) >> j) & 1u64)
                by (bit_vector)
                requires
                    1 <= bits <= 32,
                    masked == if bits == 32 {
                        value as u64
                    } else {
                        (value as u64) & (((1u64 << (bits as u64)) - 1) as u64)
                    },
            ;
        }
        let acc2: u64 = self.acc | (masked << (self.nbits as u64));
        proof {
            let nn = n as u64;
            let bb = bits as u64;
            assert(acc2 >> (nn + bb) == 0 && (forall|j: u64|
                j < nn ==> (#[trigger] ((acc2 >> j) & 1u64)) == (old_acc >> j) & 1u64) && (forall|
                j: u64,
            |
                nn <= j < nn + bb ==> (#[trigger] ((acc2 >> j) & 1u64)) == (masked >> ((j - nn) as u64))
                    & 1u64)) by (bit_vector)
                requires
                    nn < 8,
                    1 <= bb <= 32,
                    old_acc >> nn == 0,
                    masked >> bb == 0,
                    acc2 == old_acc | (masked << nn),
            ;
            let base = self.out@.len() * 8;
            assert forall|j: int| 0 <= j < n + bits implies #[trigger] u64_bit(acc2, j)
                == target[base + j] by {
                if j < n {
                    assert(((acc2 >> (j as u64)) & 1u64) == (old_acc >> (j as u64)) & 1u64);
                    assert(u64_bit(old_acc, j) == written[base + j]);
                    assert(target[base + j] == written[base + j]);
                } else {
                    let jj = (j - n) as u64;
                    assert(((acc2 >> (j as u64)) & 1u64) == (masked >> jj) & 1u64);
                    assert(((masked >> jj) & 1u64) == ((value as u64) >> jj) & 1u64);
                    assert(base + j == written.len() + (j - n));
                    assert(target[base + j] == u64_low_bits(value as u64, bits as nat)[j - n]);
                    assert(u64_low_bits(value as u64, bits as nat)[j - n] == u64_bit(
                        value as u64,
                        j - n,
                    ));
                }
            }
        }
        self.acc = acc2;
        self.nbits = self.nbits + bits;
        while self.nbits >= 8
            invariant
                self.nbits < 40,
                self.out@.len() * 8 + self.nbits == target.len(),
                forall|i: int|
                    0 <= i < self.out@.len() * 8 ==> #[trigger] bit_of(self.out@[i / 8], i % 8)
                        == target[i],
                forall|j: int|
                    0 <= j < self.nbits ==> #[trigger] u64_bit(self.acc, j) == target[self.out@.len()
                        * 8 + j],
                self.acc >> (self.nbits as u64) == 0,
            decreases self.nbits,
        {
            let a = self.acc;
            let nb = self.nbits;
            let byte: u8 = (a & 0xFF) as u8;
            let ghost old_len = self.out@.len();
            proof {
                assert(forall|j: u8|
                    j < 8 ==> (#[trigger] ((byte >> j) & 1u8) == 1u8) == (((a >> (j as u64)) & 1u64)
                        == 1u64)) by (bit_vector)
                    requires
                        byte == (a & 0xFF) as u8,
                ;
                assert(forall|j: u64|
                    j < 56 ==> (#[trigger] (((a >> 8u64) >> j) & 1u64)) == (a >> (j + 8)) & 1u64)
                    by (bit_vector);
                assert((a >> 8u64) >> ((nb - 8) as u64) == 0) by (bit_vector)
                    requires
                        8 <= nb < 40,
                        a >> (nb as u64) == 0,
                ;
            }
            self.out.push(byte);
            self.acc = a >> 8u64;
            self.nbits = nb - 8;
            proof {
                assert forall|i: int| 0 <= i < self.out@.len() * 8 implies #[trigger] bit_of(
                    self.out@[i / 8],
                    i % 8,
                ) == target[i] by {
                    if i >= old_len * 8 {
                        let j = i - old_len * 8;
                        assert(i / 8 == old_len);
                        assert(i % 8 == j);
                        assert(((byte >> (j as u8)) & 1u8 == 1u8) == (((a >> (j as u64)) & 1u64)
                            == 1u64));
                        assert(u64_bit(a, j) == target[old_len * 8 + j]);
                    }
                }
                assert forall|j: int| 0 <= j < self.nbits implies #[trigger] u64_bit(self.acc, j)
                    == target[self.out@.len() * 8 + j] by {
                    assert((((a >> 8u64) >> (j as u64)) & 1u64) == (a >> ((j + 8) as u64)) & 1u64);
                    assert(u64_bit(a, j + 8) == target[old_len * 8 + (j + 8)]);
                }
            }
        }
    }

    fn write_bit(&mut self, bit: bool, Ghost(written): Ghost<Seq<bool>>)
        requires
            old(self).holds(written),
        ensures
            final(self).holds(written.push(bit)),
    {
        let v: u32 = if bit { 1 } else { 0 };
        self.write_bits(v, 1, Ghost(written));
        proof {
            assert(u64_low_bits(v as u64, 1) =~= seq![bit]) by {
                assert(((v as u64) >> 0u64) & 1u64 == v as u64) by (bit_vector)
                    requires
                        v <= 1,
                ;
            }
            assert(written + seq![bit] =~= written.push(bit));
        }
    }

    /// "Unchanged" field: just the zero flag bit, which decodes as a copy
    /// from the all-zero baseline.
    fn skip_field(&mut self, Ghost(written): Ghost<Seq<bool>>)
        requires
            old(self).holds(written),
        ensures
            final(self).holds(written + unchanged_field()),
    {
        self.write_bit(false, Ghost(written));
        assert(written.push(false) =~= written + unchanged_field());
    }

    /// "Changed" field carrying an explicit value of `bits` bits.
    fn write_field_raw(&mut self, value: u32, bits: u32, Ghost(written): Ghost<Seq<bool>>)
        requires
            1 <= bits <= 32,
            old(self).holds(written),
        ensures
            final(self).holds(written + changed_field(value, bits as nat)),
    {
        self.write_bit(true, Ghost(written));
        self.write_bits(value, bits, Ghost(written.push(true)));
        assert(written.push(true) + u64_low_bits(value as u64, bits as nat) =~= written
            + changed_field(value, bits as nat));
    }

    /// The packed bytes, the last one padded with zero bits.
    fn finish(self, Ghost(written): Ghost<Seq<bool>>) -> (r: Vec<u8>)
        requires
            self.holds(written),
        ensures
            r@ == pack_bits(written),
    {
        let mut out = self.out;
        let ghost full = out@.len();
        if self.nbits > 0 {
            let a = self.acc;
            let byte: u8 = (a & 0xFF) as u8;
            proof {
                assert(forall|j: u8|
                    j < 8 ==> (#[trigger] ((byte >> j) & 1u8) == 1u8) == (((a >> (j as u64)) & 1u64)
                        == 1u64)) by (bit_vector)
                    requires
                        byte == (a & 0xFF) as u8,
                ;
            }
            out.push(byte);
        }
        proof {
            lemma_packed_bytes(out@, written, self.acc, self.nbits as nat, full);
        }
        out
    }
}

/// Bytes whose bits are those of `written`, with zero bits past its end,
/// are its packing.
proof fn lemma_packed_bytes(out: Seq<u8>, written: Seq<bool>, acc: u64, nbits: nat, full: nat)
    requires
        nbits < 8,
        full * 8 + nbits == written.len(),
        out.len() == if nbits > 0 { full + 1 } else { full },
        forall|i: int| 0 <= i < full * 8 ==> #[trigger] bit_of(out[i / 8], i % 8) == written[i],
        nbits > 0 ==> out[full as int] == (acc & 0xFF) as u8,
        forall|j: int| 0 <= j < nbits ==> #[trigger] u64_bit(acc, j) == written[full * 8 + j],
        acc >> (nbits as u64) == 0,
    ensures
        out == pack_bits(written),
{
    assert forall|k: int| 0 <= k < out.len() implies #[trigger] out[k] == pack_bits(written)[k] by {
        let hi = if 8 * k + 8 <= written.len() { 8 * k + 8 } else { written.len() as int };
        let chunk = written.subrange(8 * k, hi);
        crate::bitvec_model::lemma_byte_bits_value(out[k]);
        let bb = crate::bitvec_model::byte_bits(out[k]);
        if k < full {
            assert(chunk =~= bb) by {
                assert forall|j: int| 0 <= j < 8 implies chunk[j] == bb[j] by {
                    assert((8 * k + j) / 8 == k);
                    assert((8 * k + j) % 8 == j);
                }
            }
        } else {
            // the last, partial byte: its high bits are zero
            let b = out[k];
            assert forall|j: int| 0 <= j < nbits implies chunk[j] == bb[j] by {
                assert(bit_of(b, j) == u64_bit(acc, j)) by {
                    let jj = j as u64;
                    assert(((((acc & 0xFF) as u8) >> (jj as u8)) & 1u8 == 1u8) == ((acc >> jj)
                        & 1u64 == 1u64)) by (bit_vector)
                        requires
                            jj < 8,
                    ;
                }
            }
            assert forall|j: int| nbits <= j < 8 implies !bb[j] by {
                let jj = j as u64;
                let nn = nbits as u64;
                assert(((((acc & 0xFF) as u8) >> (jj as u8)) & 1u8) == 0u8) by (bit_vector)
                    requires
                        nn <= jj < 8,
                        acc >> nn == 0,
                ;
            }
            lemma_value_of_padded(chunk, bb, nbits);
        }
    }
    assert(out =~= pack_bits(written));
}

/// A byte whose first `n` bits are `chunk` and whose other bits are clear
/// has the value of `chunk`.
proof fn lemma_value_of_padded(chunk: Seq<bool>, bb: Seq<bool>, n: nat)
    requires
        chunk.len() == n,
        n <= bb.len(),
        forall|j: int| 0 <= j < n ==> chunk[j] == bb[j],
        forall|j: int| n <= j < bb.len() ==> !bb[j],
    ensures
        bits_value(chunk) == bits_value(bb),
    decreases n,
{
    if n == 0 {
        lemma_zero_bits_value(bb);
    } else {
        lemma_value_of_padded(chunk.drop_first(), bb.drop_first(), (n - 1) as nat);
    }
}

/// Clear bits read as zero.
proof fn lemma_zero_bits_value(s: Seq<bool>)
    requires
        forall|j: int| 0 <= j < s.len() ==> !s[j],
    ensures
        bits_value(s) == 0,
    decreases s.len(),
{
    if s.len() > 0 {
        lemma_zero_bits_value(s.drop_first());
    }
}

/// The recorded input a `dem_usercmd` frame carries.
///
/// The view angles are 16-bit angle codes, as `MSG_WriteBitAngle` makes
/// them: the angle in degrees reduced into `[0, 360)`, scaled by
/// `65536 / 360` and truncated.
pub struct UserCmd {
    pub lerp_msec: i16,
    pub msec: u8,
    /// Pitch, yaw and roll; a missing one counts as zero.
    pub view_angles: Vec<u32>,
    pub buttons: u16,
    pub light_level: i8,
    pub impulse: i8,
}

/// Angle code `idx` of `v`, zero when there is none.
pub open spec fn angle_spec(v: Seq<u32>, idx: int) -> u32 {
    if 0 <= idx < v.len() {
        v[idx]
    } else {
        0
    }
}

fn angle(v: &Vec<u32>, idx: usize) -> (r: u32)
    ensures
        r == angle_spec(v@, idx as int),
{
    if idx < v.len() {
        v[idx]
    } else {
        0
    }
}

/// The fields of `usercmd_t` in `delta.lst` order, each as the encoder
/// writes it against an all-zero baseline.
pub open spec fn usercmd_bits(cmd: UserCmd) -> Seq<bool> {
    changed_field(cmd.lerp_msec as u16 as u32, 9) + changed_field(cmd.msec as u32, 8)
        + changed_field(angle_spec(cmd.view_angles@, 1), 16) + changed_field(
        angle_spec(cmd.view_angles@, 0),
        16,
    ) + changed_field(cmd.buttons as u32, 16) + unchanged_field() + changed_field(
        cmd.light_level as u8 as u32,
        8,
    ) + unchanged_field() + unchanged_field() + changed_field(cmd.impulse as u8 as u32, 8)
        + changed_field(angle_spec(cmd.view_angles@, 2), 16) + unchanged_field()
        + unchanged_field() + unchanged_field() + unchanged_field()
}

/// A `usercmd_t` is always 112 bits, 14 bytes.
pub proof fn lemma_usercmd_bits_len(cmd: UserCmd)
    ensures
        usercmd_bits(cmd).len() == 112,
        pack_bits(usercmd_bits(cmd)).len() == 14,
{
}

/// Encode `cmd` as a delta-vs-zero `usercmd_t`, the way the engine reads it
/// back with an all-zero baseline. The encoding is always 112 bits, 14 bytes.
pub fn encode_usercmd(cmd: &UserCmd) -> (r: Vec<u8>)
    ensures
        r@ == pack_bits(usercmd_bits(*cmd)),
        r@.len() == 14,
{
    let mut w = BitWriter::new();
    let ghost mut b: Seq<bool> = Seq::empty();
    // lerp_msec: 9 bits (raw bit-reinterpret, unsigned on the wire)
    w.write_field_raw(cmd.lerp_msec as u16 as u32, 9, Ghost(b));
    proof { b = b + changed_field(cmd.lerp_msec as u16 as u32, 9); }
    // msec: 8 bits
    w.write_field_raw(cmd.msec as u32, 8, Ghost(b));
    proof { b = b + changed_field(cmd.msec as u32, 8); }
    // viewangles[1] (yaw): 16 bits
    let yaw = angle(&cmd.view_angles, 1);
    w.write_field_raw(yaw, 16, Ghost(b));
    proof { b = b + changed_field(yaw, 16); }
    // viewangles[0] (pitch): 16 bits
    let pitch = angle(&cmd.view_angles, 0);
    w.write_field_raw(pitch, 16, Ghost(b));
    proof { b = b + changed_field(pitch, 16); }
    // buttons: 16 bits
    w.write_field_raw(cmd.buttons as u32, 16, Ghost(b));
    proof { b = b + changed_field(cmd.buttons as u32, 16); }
    // forwardmove: left unchanged
    w.skip_field(Ghost(b));
    proof { b = b + unchanged_field(); }
    // lightlevel: 8 bits (raw bit-reinterpret)
    w.write_field_raw(cmd.light_level as u8 as u32, 8, Ghost(b));
    proof { b = b + changed_field(cmd.light_level as u8 as u32, 8); }
    // sidemove, upmove: left unchanged
    w.skip_field(Ghost(b));
    proof { b = b + unchanged_field(); }
    w.skip_field(Ghost(b));
    proof { b = b + unchanged_field(); }
    // impulse: 8 bits (raw bit-reinterpret)
    w.write_field_raw(cmd.impulse as u8 as u32, 8, Ghost(b));
    proof { b = b + changed_field(cmd.impulse as u8 as u32, 8); }
    // viewangles[2] (roll): 16 bits
    let roll = angle(&cmd.view_angles, 2);
    w.write_field_raw(roll, 16, Ghost(b));
    proof { b = b + changed_field(roll, 16); }
    // impact_index, impact_position[0..3]: left unchanged
    w.skip_field(Ghost(b));
    proof { b = b + unchanged_field(); }
    w.skip_field(Ghost(b));
    proof { b = b + unchanged_field(); }
    w.skip_field(Ghost(b));
    proof { b = b + unchanged_field(); }
    w.skip_field(Ghost(b));
    proof { b = b + unchanged_field(); }
    proof {
        assert(b =~= usercmd_bits(*cmd));
    }
    w.finish(Ghost(b))
}

} // verus!

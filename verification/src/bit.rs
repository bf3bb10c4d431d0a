//! Reading and writing the bit-packed parts of a GoldSrc demo.
//!
//! Both directions pack bits least significant first within each byte, the
//! order of [`BitVec`].
use vstd::prelude::*;
use vstd::arithmetic::power2::pow2;
use crate::bitvec_model::{
    BitVec, bits_value, lemma_max_bits_room, u64_low_bits, lemma_low_bits_value, byte_bits, packs_bits, bv_new, bv_from_element,
    bv_push, bv_insert, bv_extend, bv_clone, bv_into_aligned_bytes, signed_bits_value, max_bits, bytes_to_bits, bv_from_slice, bv_len, bv_get,
    bv_slice, bv_load_u8, bv_load_i8, bv_load_u16, bv_load_i16, bv_load_u32, bv_load_i32,
};

verus! {

/// The value of eight bits starting at `pos`.
pub open spec fn byte_at(bits: Seq<bool>, pos: int) -> nat {
    bits_value(bits.subrange(pos, pos + 8))
}

/// Where a null-terminated string read from `pos` ends: just past the first
/// whole byte that reads as zero, or `None` when the bits run out first.
pub open spec fn string_end(bits: Seq<bool>, pos: nat) -> Option<nat>
    decreases bits.len() - pos,
{
    if pos + 8 > bits.len() {
        None
    } else if byte_at(bits, pos as int) == 0 {
        Some(pos + 8)
    } else {
        string_end(bits, pos + 8)
    }
}

/// At most the first `width` bits of `s`.
pub open spec fn clamp_bits(s: Seq<bool>, width: nat) -> Seq<bool> {
    if s.len() > width {
        s.take(width as int)
    } else {
        s
    }
}

/// The byte that a chunk of at most eight bits turns into: its
/// two's-complement value, reinterpreted as unsigned.
pub open spec fn chunk_byte(c: Seq<bool>) -> u8 {
    (signed_bits_value(c) as i8) as u8
}

/// The bytes of a bit sequence taken eight bits at a time, the last chunk
/// possibly shorter.
pub open spec fn chunk_bytes(s: Seq<bool>) -> Seq<u8> {
    Seq::new(
        (s.len() + 7) / 8,
        |k: int| chunk_byte(s.subrange(8 * k, if 8 * k + 8 <= s.len() { 8 * k + 8 } else { s.len() as int })),
    )
}

/// What a string read from the lossy UTF-8 decoding of `bytes` holds.
pub uninterp spec fn utf8_lossy(bytes: Seq<u8>) -> Seq<char>;

/// `bytes` are all ASCII.
pub open spec fn is_ascii_bytes(bytes: Seq<u8>) -> bool {
    forall|i: int| 0 <= i < bytes.len() ==> #[trigger] bytes[i] < 128
}

/// `String::from_utf8_lossy(..).into_owned()`: the text the bytes encode,
/// invalid sequences replaced. On ASCII input every byte becomes the
/// character of that code.
#[verifier::external_body]
pub(crate) fn string_from_utf8_lossy(bytes: &[u8]) -> (r: String)
    ensures
        r@ == utf8_lossy(bytes@),
        is_ascii_bytes(bytes@) ==> r@ == bytes@.map_values(|b: u8| b as char),
{
    String::from_utf8_lossy(bytes).into_owned()
}

/// Reads bits off a byte buffer, least significant bit of each byte first.
///
/// A read past the end of the buffer returns zero bits instead of failing,
/// and marks the reader (see [`BitReader::is_bad_read`]); the reader keeps
/// that mark from then on.
pub struct BitReader {
    bytes: BitVec,
    // Bit offset, from the start of `bytes`.
    offset: usize,
    // Set once any read has run past the end of `bytes`.
    bad_read: bool,
}

impl BitReader {
    #[verifier::type_invariant]
    spec fn inv(self) -> bool {
        &&& self.offset <= self.bytes@.len()
        &&& self.bytes@.len() <= max_bits()
    }

    /// The bits the reader reads from.
    pub closed spec fn bits(&self) -> Seq<bool> {
        self.bytes@
    }

    /// The position of the next bit to read.
    pub closed spec fn pos(&self) -> nat {
        self.offset as nat
    }

    /// Whether a read has run past the end.
    pub closed spec fn bad(&self) -> bool {
        self.bad_read
    }

    pub fn new(bytes: &[u8]) -> (r: Self)
        requires
            bytes@.len() * 8 <= max_bits(),
        ensures
            r.bits() == bytes_to_bits(bytes@),
            r.pos() == 0,
            !r.bad(),
    {
        BitReader { bytes: bv_from_slice(bytes), offset: 0, bad_read: false }
    }

    /// The bits the reader reads from.
    pub fn bytes(&self) -> (r: &BitVec)
        ensures
            r@ == self.bits(),
    {
        &self.bytes
    }

    /// Whether any read so far ran past the end of the buffer.
    ///
    /// Reads past the end return zero rather than panicking, and set this.
    /// Callers that build a `BitReader` check this before returning a parsed
    /// message, so a truncated demo produces a parse error instead of an
    /// out-of-bounds index.
    pub fn is_bad_read(&self) -> (r: bool)
        ensures
            r == self.bad(),
    {
        self.bad_read
    }

    /// Marks the read as bad from outside, for a caller that has decoded
    /// something structurally impossible rather than run off the end.
    pub fn flag_bad_read(&mut self)
        ensures
            final(self).bad(),
            final(self).bits() == old(self).bits(),
            final(self).pos() == old(self).pos(),
    {
        proof {
            use_type_invariant(&*self);
        }
        self.bad_read = true;
    }

    pub fn read_1_bit(&mut self) -> (r: bool)
        ensures
            final(self).bits() == old(self).bits(),
            old(self).pos() < old(self).bits().len() ==> {
                &&& r == old(self).bits()[old(self).pos() as int]
                &&& final(self).pos() == old(self).pos() + 1
                &&& final(self).bad() == old(self).bad()
            },
            old(self).pos() >= old(self).bits().len() ==> {
                &&& !r
                &&& final(self).pos() == old(self).pos()
                &&& final(self).bad()
            },
    {
        proof {
            use_type_invariant(&*self);
        }
        let len = bv_len(&self.bytes);
        if self.offset >= len {
            self.bad_read = true;
            return false;
        }
        let res = bv_get(&self.bytes, self.offset);
        self.offset = self.offset + 1;
        res
    }

    /// The next `n` bits. When fewer than `n` are left (or `n` is so large
    /// that the end position overflows), the result is empty, the reader
    /// moves to the end and the read is marked bad.
    pub fn read_n_bit(&mut self, n: usize) -> (r: BitVec)
        ensures
            final(self).bits() == old(self).bits(),
            old(self).pos() + n <= old(self).bits().len() ==> {
                &&& r@ == old(self).bits().subrange(
                    old(self).pos() as int,
                    old(self).pos() + n,
                )
                &&& final(self).pos() == old(self).pos() + n
                &&& final(self).bad() == old(self).bad()
            },
            old(self).pos() + n > old(self).bits().len() ==> {
                &&& r@ == Seq::<bool>::empty()
                &&& final(self).pos() == old(self).bits().len()
                &&& final(self).bad()
            },
    {
        proof {
            use_type_invariant(&*self);
        }
        let len = bv_len(&self.bytes);
        match self.offset.checked_add(n) {
            Some(end) => {
                if end <= len {
                    let res = bv_slice(&self.bytes, self.offset, end);
                    self.offset = end;
                    return res;
                }
            },
            None => {},
        }
        self.bad_read = true;
        self.offset = len;
        bv_slice(&self.bytes, len, len)
    }

    /// A null-terminated string: the bytes up to and including the first
    /// zero byte. When the bits run out before a zero byte, the result is
    /// what is left, the reader moves to the end and the read is marked bad.
    pub fn read_string(&mut self) -> (r: BitVec)
        ensures
            final(self).bits() == old(self).bits(),
            match string_end(old(self).bits(), old(self).pos()) {
                Some(end) => {
                    &&& r@ == old(self).bits().subrange(old(self).pos() as int, end as int)
                    &&& final(self).pos() == end
                    &&& final(self).bad() == old(self).bad()
                },
                None => {
                    &&& r@ == old(self).bits().subrange(
                        old(self).pos() as int,
                        old(self).bits().len() as int,
                    )
                    &&& final(self).pos() == old(self).bits().len()
                    &&& final(self).bad()
                },
            },
    {
        proof {
            use_type_invariant(&*self);
        }
        let start = self.offset;
        let len = bv_len(&self.bytes);
        let ghost bits = self.bytes@;
        proof {
            lemma_max_bits_room();
        }
        loop
            invariant_except_break
                string_end(bits, start as nat) == string_end(bits, self.offset as nat),
            invariant
                self.bytes@ == bits,
                bits.len() == len,
                len <= max_bits(),
                start <= self.offset <= len,
                self.bad_read == old(self).bad(),
                start == old(self).pos(),
                bits == old(self).bits(),
            ensures
                string_end(bits, start as nat) == Some(self.offset as nat),
            decreases len - self.offset,
        {
            if self.offset + 8 > len {
                self.bad_read = true;
                self.offset = len;
                return bv_slice(&self.bytes, start, len);
            }
            let chunk = bv_slice(&self.bytes, self.offset, self.offset + 8);
            let byte = chunk.to_u8();
            proof {
                assert(chunk@ =~= bits.subrange(self.offset as int, self.offset + 8));
            }
            self.offset = self.offset + 8;
            if byte == 0 {
                break;
            }
        }
        bv_slice(&self.bytes, start, self.offset)
    }

    /// Whether `n` more bits can be read without going past the end.
    pub fn has_bits(&self, n: usize) -> (r: bool)
        ensures
            r == (self.pos() + n <= self.bits().len()),
    {
        let len = bv_len(&self.bytes);
        match self.offset.checked_add(n) {
            Some(end) => end <= len,
            None => false,
        }
    }

    /// The next `n` bits without moving; empty when fewer than `n` are left.
    pub fn peek_n_bits(&self, n: usize) -> (r: BitVec)
        ensures
            self.pos() + n <= self.bits().len() ==> r@ == self.bits().subrange(
                self.pos() as int,
                self.pos() + n,
            ),
            self.pos() + n > self.bits().len() ==> r@ == Seq::<bool>::empty(),
    {
        proof {
            use_type_invariant(self);
        }
        let len = bv_len(&self.bytes);
        match self.offset.checked_add(n) {
            Some(end) => {
                if end <= len {
                    return bv_slice(&self.bytes, self.offset, end);
                }
            },
            None => {},
        }
        bv_slice(&self.bytes, len, len)
    }

    pub fn get_offset(&self) -> (r: usize)
        ensures
            r == self.pos(),
    {
        self.offset
    }

    /// The number of bytes the bits read so far touch.
    pub fn get_consumed_bytes(&self) -> (r: usize)
        ensures
            r == (self.pos() + 7) / 8,
    {
        proof {
            use_type_invariant(self);
            lemma_max_bits_room();
        }
        (self.offset + 7) / 8
    }
}

/// Conversions of a run of bits into numbers and text.
///
/// A conversion never panics: an empty run reads as zero, and a run wider
/// than the target type is cut to its first bits.
pub trait BitSliceCast {
    fn to_u8(&self) -> u8;

    fn to_i8(&self) -> i8;

    fn to_u16(&self) -> u16;

    fn to_i16(&self) -> i16;

    fn to_u32(&self) -> u32;

    fn to_i32(&self) -> i32;

    fn get_string(&self) -> String;
}

impl BitSliceCast for BitVec {
    fn to_u8(&self) -> (r: u8)
        ensures
            r as nat == bits_value(clamp_bits(self@, 8)),
    {
        let n = bv_len(self);
        if n == 0 {
            0
        } else if n > 8 {
            bv_load_u8(&bv_slice(self, 0, 8))
        } else {
            bv_load_u8(self)
        }
    }

    fn to_i8(&self) -> (r: i8)
        ensures
            r as int == signed_bits_value(clamp_bits(self@, 8)),
    {
        let n = bv_len(self);
        if n == 0 {
            0
        } else if n > 8 {
            bv_load_i8(&bv_slice(self, 0, 8))
        } else {
            bv_load_i8(self)
        }
    }

    fn to_u16(&self) -> (r: u16)
        ensures
            r as nat == bits_value(clamp_bits(self@, 16)),
    {
        let n = bv_len(self);
        if n == 0 {
            0
        } else if n > 16 {
            bv_load_u16(&bv_slice(self, 0, 16))
        } else {
            bv_load_u16(self)
        }
    }

    fn to_i16(&self) -> (r: i16)
        ensures
            r as int == signed_bits_value(clamp_bits(self@, 16)),
    {
        let n = bv_len(self);
        if n == 0 {
            0
        } else if n > 16 {
            bv_load_i16(&bv_slice(self, 0, 16))
        } else {
            bv_load_i16(self)
        }
    }

    fn to_u32(&self) -> (r: u32)
        ensures
            r as nat == bits_value(clamp_bits(self@, 32)),
    {
        let n = bv_len(self);
        if n == 0 {
            0
        } else if n > 32 {
            bv_load_u32(&bv_slice(self, 0, 32))
        } else {
            bv_load_u32(self)
        }
    }

    fn to_i32(&self) -> (r: i32)
        ensures
            r as int == signed_bits_value(clamp_bits(self@, 32)),
    {
        let n = bv_len(self);
        if n == 0 {
            0
        } else if n > 32 {
            bv_load_i32(&bv_slice(self, 0, 32))
        } else {
            bv_load_i32(self)
        }
    }

    /// The bits eight at a time as bytes, decoded as UTF-8 with invalid
    /// sequences replaced.
    fn get_string(&self) -> (r: String)
        ensures
            r@ == utf8_lossy(chunk_bytes(self@)),
    {
        let n = bv_len(self);
        let mut out: Vec<u8> = Vec::new();
        let mut pos: usize = 0;
        while pos < n
            invariant
                n == self@.len(),
                n <= max_bits(),
                pos <= n,
                pos < n ==> pos % 8 == 0,
                out@.len() == (pos + 7) / 8,
                forall|k: int| 0 <= k < out@.len() ==> #[trigger] out@[k] == chunk_bytes(self@)[k],
            decreases n - pos,
        {
            let end = if n - pos >= 8 { pos + 8 } else { n };
            let chunk = bv_slice(self, pos, end);
            let b = #[verifier::truncate] (chunk.to_i8() as u8);
            proof {
                assert(clamp_bits(chunk@, 8) == chunk@);
                assert(out@.len() < (n + 7) / 8);
            }
            out.push(b);
            pos = end;
        }
        proof {
            assert(out@ =~= chunk_bytes(self@));
        }
        string_from_utf8_lossy(out.as_slice())
    }
}


/// The 32 bits of a `u32` as its little-endian bytes hold them, least
/// significant bit first.
pub open spec fn u32_bits(v: u32) -> Seq<bool> {
    bytes_to_bits(le_bytes_u32_spec(v))
}

/// The little-endian bytes of a `u32`.
pub open spec fn le_bytes_u32_spec(v: u32) -> Seq<u8> {
    seq![v as u8, (v >> 8u32) as u8, (v >> 16u32) as u8, (v >> 24u32) as u8]
}

/// `u32::to_le_bytes`.
pub fn le_bytes_u32(v: u32) -> (r: [u8; 4])
    ensures
        r@ == le_bytes_u32_spec(v),
{
    let r = [
        #[verifier::truncate] (v as u8),
        #[verifier::truncate] ((v >> 8u32) as u8),
        #[verifier::truncate] ((v >> 16u32) as u8),
        #[verifier::truncate] ((v >> 24u32) as u8),
    ];
    proof {
        assert(r@ =~= le_bytes_u32_spec(v));
    }
    r
}


/// The bits of a `u32` as the writer appends them are its low bits, least
/// significant first.
pub proof fn lemma_u32_bits_low_bits(v: u32)
    ensures
        u32_bits(v) == u64_low_bits(v as u64, 32),
{
    assert forall|i: int| 0 <= i < 32 implies #[trigger] u32_bits(v)[i] == u64_low_bits(
        v as u64,
        32,
    )[i] by {
        let ii = i as u32;
        let k = i / 8;
        assert(le_bytes_u32_spec(v)[k] == (v >> (8 * (ii / 8))) as u8) by {
            if k == 0 {
                assert(v >> (8 * (ii / 8)) == v) by (bit_vector)
                    requires
                        ii < 8,
                ;
            } else if k == 1 {
                assert(v >> (8 * (ii / 8)) == v >> 8u32) by (bit_vector)
                    requires
                        8 <= ii < 16,
                ;
            } else if k == 2 {
                assert(v >> (8 * (ii / 8)) == v >> 16u32) by (bit_vector)
                    requires
                        16 <= ii < 24,
                ;
            } else {
                assert(v >> (8 * (ii / 8)) == v >> 24u32) by (bit_vector)
                    requires
                        24 <= ii < 32,
                ;
            }
        }
        let sh: u32 = (8 * (ii / 8)) as u32;
        let j: u32 = (ii % 8) as u32;
        let w: u32 = v >> sh;
        let byte: u8 = w as u8;
        assert(sh + j == ii);
        assert(((w >> j) & 1u32) == ((v >> ii) & 1u32)) by (bit_vector)
            requires
                w == v >> sh,
                sh + j == ii,
                ii < 32,
        ;
        assert((((w as u8) >> (j as u8)) & 1u8) as u32 == ((w >> j) & 1u32)) by (bit_vector)
            requires
                j < 8,
        ;
        assert(((v >> ii) & 1u32) as u64 == (((v as u64) >> (ii as u64)) & 1u64)) by (bit_vector)
            requires
                ii < 32,
        ;
    }
    assert(u32_bits(v) =~= u64_low_bits(v as u64, 32));
}

/// Appending the first `end` bits of a `u32` and reading them back as an
/// unsigned number gives the value modulo `2^end`; all 32 give it whole.
pub proof fn law_u32_range_round_trip(v: u32, end: nat)
    requires
        end <= 32,
    ensures
        bits_value(u32_bits(v).take(end as int)) == (v as nat) % pow2(end),
        bits_value(u32_bits(v)) == v,
{
    lemma_u32_bits_low_bits(v);
    assert(u32_bits(v).take(end as int) =~= u64_low_bits(v as u64, end));
    lemma_low_bits_value(v as u64, end);
    lemma_low_bits_value(v as u64, 32);
    assert(u32_bits(v).take(32) =~= u32_bits(v));
    vstd::arithmetic::power2::lemma2_to64();
}

/// Appends bits to a growing bit vector and keeps count of them.
///
/// `offset` grows by one for every bit appended or inserted.
pub struct BitWriter {
    pub data: BitVec,
    pub offset: usize,
}

/// Whether `b` holds as many more bits than `a` as its offset is past
/// `a`'s: what every append and insert keeps.
pub open spec fn grows_alike(a: BitWriter, b: BitWriter) -> bool {
    b.data@.len() - a.data@.len() == b.offset - a.offset
}

/// A writer's offset is the number of bits it holds: along any run of
/// writers that starts from a fresh one (as `new` and `default` make it)
/// and takes each next writer from the one before by an append or an
/// insert (each of which grows data and offset alike), every writer's
/// offset equals its length.
pub proof fn law_offset_is_length(run: Seq<BitWriter>)
    requires
        run.len() >= 1,
        run[0].data@.len() == 0,
        run[0].offset == 0,
        forall|i: int| 0 <= i < run.len() - 1 ==> grows_alike(#[trigger] run[i], run[i + 1]),
    ensures
        forall|i: int| 0 <= i < run.len() ==> (#[trigger] run[i]).offset == run[i].data@.len(),
    decreases run.len(),
{
    if run.len() > 1 {
        let prev = run.drop_last();
        assert forall|i: int| 0 <= i < prev.len() - 1 implies grows_alike(#[trigger] prev[i], prev[i + 1]) by {
            assert(grows_alike(run[i], run[i + 1]));
        }
        law_offset_is_length(prev);
        assert forall|i: int| 0 <= i < run.len() implies (#[trigger] run[i]).offset == run[i].data@.len() by {
            if i < run.len() - 1 {
                assert(run[i] == prev[i]);
            } else {
                assert(prev[i - 1] == run[i - 1]);
                assert(grows_alike(run[i - 1], run[i]));
            }
        }
    }
}

impl Default for BitWriter {
    fn default() -> (r: Self)
        ensures
            r.data@ == Seq::<bool>::empty(),
            r.offset == 0,
    {
        Self::new()
    }
}

/// The bits of a `u32`, little-endian bytes each least significant bit
/// first, as one bit vector.
fn u32_bitvec(i: u32) -> (r: BitVec)
    ensures
        r@ == u32_bits(i),
{
    let bytes = le_bytes_u32(i);
    let mut bits = bv_new();
    let mut k: usize = 0;
    while k < 4
        invariant
            k <= 4,
            bytes@ == le_bytes_u32_spec(i),
            bits@ == bytes_to_bits(bytes@.take(k as int)),
        decreases 4 - k,
    {
        let one = bv_from_element(bytes[k]);
        proof {
            lemma_max_bits_room();
        }
        bv_extend(&mut bits, &one);
        proof {
            assert(bytes_to_bits(bytes@.take(k as int)) + byte_bits(bytes@[k as int])
                =~= bytes_to_bits(bytes@.take(k + 1)));
        }
        k = k + 1;
    }
    proof {
        assert(bytes@.take(4) =~= bytes@);
    }
    bits
}

impl BitWriter {
    pub fn new() -> (r: Self)
        ensures
            r.data@ == Seq::<bool>::empty(),
            r.offset == 0,
    {
        Self { data: bv_new(), offset: 0 }
    }

    fn offset(&mut self, i: usize)
        requires
            old(self).offset + i <= usize::MAX,
        ensures
            final(self).offset == old(self).offset + i,
            final(self).data == old(self).data,
    {
        self.offset = self.offset + i;
    }

    pub fn append_bit(&mut self, i: bool)
        requires
            old(self).data@.len() + 1 <= max_bits(),
            old(self).offset + 1 <= usize::MAX,
        ensures
            final(self).data@ == old(self).data@.push(i),
            final(self).offset == old(self).offset + 1,
            grows_alike(*old(self), *final(self)),
    {
        bv_push(&mut self.data, i);
        self.offset(1);
    }

    pub fn append_slice(&mut self, i: &BitVec)
        requires
            old(self).data@.len() + i@.len() <= max_bits(),
            old(self).offset + i@.len() <= usize::MAX,
        ensures
            final(self).data@ == old(self).data@ + i@,
            final(self).offset == old(self).offset + i@.len(),
            grows_alike(*old(self), *final(self)),
    {
        bv_extend(&mut self.data, i);
        let n = bv_len(i);
        self.offset(n);
    }

    pub fn append_vec(&mut self, i: &BitVec)
        requires
            old(self).data@.len() + i@.len() <= max_bits(),
            old(self).offset + i@.len() <= usize::MAX,
        ensures
            final(self).data@ == old(self).data@ + i@,
            final(self).offset == old(self).offset + i@.len(),
            grows_alike(*old(self), *final(self)),
    {
        self.append_slice(i)
    }

    /// Appends the eight bits of a byte, least significant first.
    pub fn append_u8(&mut self, i: u8)
        requires
            old(self).data@.len() + 8 <= max_bits(),
            old(self).offset + 8 <= usize::MAX,
        ensures
            final(self).data@ == old(self).data@ + byte_bits(i),
            final(self).offset == old(self).offset + 8,
            grows_alike(*old(self), *final(self)),
    {
        let bits = bv_from_element(i);
        self.append_vec(&bits);
    }

    /// Appends the first `end` bits of a `u32`, least significant first;
    /// `end == 31` leaves out the top bit.
    pub fn append_u32_range(&mut self, i: u32, end: u32)
        requires
            end <= 32,
            old(self).data@.len() + end <= max_bits(),
            old(self).offset + end <= usize::MAX,
        ensures
            final(self).data@ == old(self).data@ + u32_bits(i).take(end as int),
            final(self).offset == old(self).offset + end,
            grows_alike(*old(self), *final(self)),
    {
        let bits = u32_bitvec(i);
        let part = bv_slice(&bits, 0, end as usize);
        self.append_slice(&part);
    }

    /// Appends the first `end` bits of an `i32` in two's complement, least
    /// significant first.
    pub fn append_i32_range(&mut self, i: i32, end: u32)
        requires
            end <= 32,
            old(self).data@.len() + end <= max_bits(),
            old(self).offset + end <= usize::MAX,
        ensures
            final(self).data@ == old(self).data@ + u32_bits(i as u32).take(end as int),
            final(self).offset == old(self).offset + end,
            grows_alike(*old(self), *final(self)),
    {
        let bits = u32_bitvec(i as u32);
        let part = bv_slice(&bits, 0, end as usize);
        self.append_slice(&part);
    }

    pub fn insert_bit(&mut self, i: bool, pos: usize)
        requires
            pos <= old(self).data@.len(),
            old(self).data@.len() + 1 <= max_bits(),
            old(self).offset + 1 <= usize::MAX,
        ensures
            final(self).data@ == old(self).data@.insert(pos as int, i),
            final(self).offset == old(self).offset + 1,
            grows_alike(*old(self), *final(self)),
    {
        bv_insert(&mut self.data, pos, i);
        self.offset(1);
    }

    /// Places the bits of `i` at `pos`, in order, moving the bits from `pos`
    /// on behind them.
    pub fn insert_slice(&mut self, i: &BitVec, pos: usize)
        requires
            pos <= old(self).data@.len(),
            old(self).data@.len() + i@.len() <= max_bits(),
            old(self).offset + i@.len() <= usize::MAX,
        ensures
            final(self).data@ == old(self).data@.take(pos as int) + i@ + old(self).data@.skip(
                pos as int,
            ),
            final(self).offset == old(self).offset + i@.len(),
            grows_alike(*old(self), *final(self)),
    {
        let n = bv_len(i);
        let ghost old_data = self.data@;
        let ghost old_offset = self.offset;
        let mut k: usize = 0;
        while k < n
            invariant
                n == i@.len(),
                k <= n,
                pos <= old_data.len(),
                old_data.len() + n <= max_bits(),
                old_offset + n <= usize::MAX,
                self.data@ == old_data.take(pos as int) + i@.take(k as int) + old_data.skip(
                    pos as int,
                ),
                self.offset == old_offset + k,
            decreases n - k,
        {
            let b = bv_get(i, k);
            self.insert_bit(b, pos + k);
            proof {
                assert(self.data@ =~= old_data.take(pos as int) + i@.take(k + 1) + old_data.skip(
                    pos as int,
                ));
            }
            k = k + 1;
        }
        proof {
            assert(i@.take(n as int) =~= i@);
        }
    }

    pub fn insert_vec(&mut self, i: BitVec, pos: usize)
        requires
            pos <= old(self).data@.len(),
            old(self).data@.len() + i@.len() <= max_bits(),
            old(self).offset + i@.len() <= usize::MAX,
        ensures
            final(self).data@ == old(self).data@.take(pos as int) + i@ + old(self).data@.skip(
                pos as int,
            ),
            final(self).offset == old(self).offset + i@.len(),
            grows_alike(*old(self), *final(self)),
    {
        self.insert_slice(&i, pos);
    }

    pub fn insert_u8(&mut self, i: u8, pos: usize)
        requires
            pos <= old(self).data@.len(),
            old(self).data@.len() + 8 <= max_bits(),
            old(self).offset + 8 <= usize::MAX,
        ensures
            final(self).data@ == old(self).data@.take(pos as int) + byte_bits(i) + old(
                self,
            ).data@.skip(pos as int),
            final(self).offset == old(self).offset + 8,
            grows_alike(*old(self), *final(self)),
    {
        let bits = bv_from_element(i);
        self.insert_slice(&bits, pos);
    }

    pub fn insert_u32_range(&mut self, i: u32, end: u32, pos: usize)
        requires
            end <= 32,
            pos <= old(self).data@.len(),
            old(self).data@.len() + end <= max_bits(),
            old(self).offset + end <= usize::MAX,
        ensures
            final(self).data@ == old(self).data@.take(pos as int) + u32_bits(i).take(end as int)
                + old(self).data@.skip(pos as int),
            final(self).offset == old(self).offset + end,
            grows_alike(*old(self), *final(self)),
    {
        let bits = u32_bitvec(i);
        let part = bv_slice(&bits, 0, end as usize);
        self.insert_slice(&part, pos);
    }

    /// The bits as bytes, least significant bit first; the bits past the end
    /// in the last byte are left unspecified.
    pub fn get_u8_vec(&mut self) -> (r: Vec<u8>)
        ensures
            packs_bits(r@, old(self).data@),
            final(self).data@ == old(self).data@,
            final(self).offset == old(self).offset,
            grows_alike(*old(self), *final(self)),
    {
        let what = bv_clone(&self.data);
        bv_into_aligned_bytes(what)
    }

    pub fn get_offset(&self) -> (r: usize)
        ensures
            r == self.offset,
    {
        self.offset
    }
}

} // verus!

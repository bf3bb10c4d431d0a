//! The bit vectors of the `bitvec` crate (`BitVec<u8, Lsb0>`), as this
//! library sees them: a sequence of bits, where bit `8 * k + j` of a vector
//! made from bytes is bit `j` (counted from the least significant end) of
//! byte `k`.
use vstd::prelude::*;
use bitvec::field::BitField;
use bitvec::order::Lsb0;
use vstd::arithmetic::power2::{pow2, lemma_pow2_unfold, lemma_pow2_pos, lemma2_to64};
use vstd::arithmetic::div_mod::lemma_mod_breakdown;

verus! {

/// Bit vectors as the demo format packs them: bytes split into bits,
/// least significant bit first.
#[verifier::external_body]
pub struct BitVec {
    inner: bitvec::vec::BitVec<u8, Lsb0>,
}

/// The bits that a bit vector holds, first bit first.
pub uninterp spec fn bitvec_bits(v: BitVec) -> Seq<bool>;

impl View for BitVec {
    type V = Seq<bool>;

    open spec fn view(&self) -> Seq<bool> {
        bitvec_bits(*self)
    }
}

impl BitVec {
    /// The bits of `bytes`, each byte least significant bit first.
    pub fn from_slice(bytes: &[u8]) -> (r: Self)
        requires
            bytes@.len() * 8 <= max_bits(),
        ensures
            r@ == bytes_to_bits(bytes@),
    {
        bv_from_slice(bytes)
    }

    /// No bits.
    pub fn new() -> (r: Self)
        ensures
            r@ == Seq::<bool>::empty(),
    {
        bv_new()
    }

    /// The number of bits.
    pub fn len(&self) -> (r: usize)
        ensures
            r == self@.len(),
    {
        bv_len(self)
    }

    /// Bit `i`.
    pub fn get(&self, i: usize) -> (r: bool)
        requires
            i < self@.len(),
        ensures
            r == self@[i as int],
    {
        bv_get(self, i)
    }
}

/// The most bits one bit vector can hold (`BitSlice::MAX_BITS`, all ones
/// shifted right by three).
pub open spec fn max_bits() -> nat {
    (usize::MAX / 8) as nat
}

/// A bit count within the limit of one bit vector leaves room to add a
/// byte's worth without overflowing a `usize`.
pub proof fn lemma_max_bits_room()
    ensures
        max_bits() + 8 <= usize::MAX,
{
    assert(usize::MAX == 0xffff_ffff || usize::MAX == 0xffff_ffff_ffff_ffff);
}

/// Bit `j` of byte `b`, counted from the least significant end.
pub open spec fn bit_of(b: u8, j: int) -> bool {
    (b >> (j as u8)) & 1u8 == 1u8
}

/// The eight bits of a byte, least significant first.
pub open spec fn byte_bits(b: u8) -> Seq<bool> {
    Seq::new(8, |j: int| bit_of(b, j))
}

/// Bytes as a bit sequence, each byte least significant bit first.
pub open spec fn bytes_to_bits(bytes: Seq<u8>) -> Seq<bool> {
    Seq::new(bytes.len() * 8, |i: int| bit_of(bytes[i / 8], i % 8))
}

/// The unsigned value of a bit sequence read least significant bit first.
pub open spec fn bits_value(s: Seq<bool>) -> nat
    decreases s.len(),
{
    if s.len() == 0 {
        0
    } else {
        (if s[0] { 1nat } else { 0nat }) + 2 * bits_value(s.drop_first())
    }
}

/// The two's-complement value of a bit sequence read least significant bit
/// first: the last bit is the sign.
pub open spec fn signed_bits_value(s: Seq<bool>) -> int {
    if s.len() > 0 && s.last() {
        bits_value(s) - pow2(s.len())
    } else {
        bits_value(s) as int
    }
}

/// `bytes` hold `bits` packed least significant bit first: one byte per
/// started group of eight bits, and the bits past the end of `bits` in the
/// last byte left open.
pub open spec fn packs_bits(bytes: Seq<u8>, bits: Seq<bool>) -> bool {
    &&& bytes.len() == (bits.len() + 7) / 8
    &&& forall|i: int| 0 <= i < bits.len() ==> #[trigger] bits[i] == bit_of(bytes[i / 8], i % 8)
}


/// Bit `j` of a 64-bit value, counted from the least significant end.
pub open spec fn u64_bit(v: u64, j: int) -> bool {
    (v >> (j as u64)) & 1u64 == 1u64
}

/// The low `k` bits of a 64-bit value, least significant first.
pub open spec fn u64_low_bits(v: u64, k: nat) -> Seq<bool> {
    Seq::new(k, |j: int| u64_bit(v, j))
}

/// Read back least significant bit first, the low `k` bits of `v` give `v`
/// modulo `2^k`.
pub proof fn lemma_low_bits_value(v: u64, k: nat)
    requires
        k <= 64,
    ensures
        bits_value(u64_low_bits(v, k)) == (v as nat) % pow2(k),
    decreases k,
{
    if k == 0 {
        lemma2_to64();
    } else {
        let h = v >> 1u64;
        lemma_low_bits_value(h, (k - 1) as nat);
        assert(u64_low_bits(v, k).drop_first() =~= u64_low_bits(h, (k - 1) as nat)) by {
            assert forall|j: int| 0 <= j < k - 1 implies #[trigger] u64_low_bits(v, k).drop_first()[j]
                == u64_low_bits(h, (k - 1) as nat)[j] by {
                let jj = j as u64;
                assert(((v >> 1u64) >> jj) & 1u64 == (v >> (jj + 1)) & 1u64) by (bit_vector)
                    requires
                        jj < 63,
                ;
            }
        }
        assert(h as nat == v as nat / 2) by {
            assert(v >> 1u64 == v / 2) by (bit_vector);
        }
        assert(u64_bit(v, 0) == (v as nat % 2 == 1)) by {
            assert((v >> 0u64) & 1u64 == v % 2) by (bit_vector);
        }
        lemma_pow2_unfold(k);
        lemma_pow2_pos((k - 1) as nat);
        lemma_mod_breakdown(v as int, 2, pow2((k - 1) as nat) as int);
    }
}

/// The eight bits of a byte read back as the byte.
pub proof fn lemma_byte_bits_value(b: u8)
    ensures
        bits_value(byte_bits(b)) == b,
{
    lemma_low_bits_value(b as u64, 8);
    assert(byte_bits(b) =~= u64_low_bits(b as u64, 8)) by {
        assert forall|j: int| 0 <= j < 8 implies #[trigger] byte_bits(b)[j] == u64_low_bits(
            b as u64,
            8,
        )[j] by {
            let jj = j as u8;
            assert(((b >> jj) & 1u8 == 1u8) == (((b as u64) >> (jj as u64)) & 1u64 == 1u64))
                by (bit_vector)
                requires
                    jj < 8,
            ;
        }
    }
    lemma2_to64();
}

/// What a bit writer packs reads back: the bits of the packed bytes, as a
/// bit reader sees them, start with the bits written.
pub proof fn law_written_bits_read_back(bytes: Seq<u8>, bits: Seq<bool>)
    requires
        packs_bits(bytes, bits),
    ensures
        bits.len() <= bytes_to_bits(bytes).len(),
        bytes_to_bits(bytes).take(bits.len() as int) == bits,
{
    assert(bytes_to_bits(bytes).take(bits.len() as int) =~= bits);
}

/// `BitVec::<u8, Lsb0>::from_slice`: the bits of `bytes`, each byte least
/// significant bit first. It panics past `BitSlice::MAX_ELTS` elements, which
/// the `requires` rules out.
#[verifier::external_body]
pub(crate) fn bv_from_slice(bytes: &[u8]) -> (r: BitVec)
    requires
        bytes@.len() * 8 <= max_bits(),
    ensures
        bitvec_bits(r) == bytes_to_bits(bytes@),
{
    BitVec { inner: bitvec::vec::BitVec::from_slice(bytes) }
}

/// `BitVec::<u8, Lsb0>::new`: no bits.
#[verifier::external_body]
pub(crate) fn bv_new() -> (r: BitVec)
    ensures
        bitvec_bits(r) == Seq::<bool>::empty(),
{
    BitVec { inner: bitvec::vec::BitVec::new() }
}

/// `BitVec::<u8, Lsb0>::from_element`: the eight bits of one byte.
#[verifier::external_body]
pub(crate) fn bv_from_element(b: u8) -> (r: BitVec)
    ensures
        bitvec_bits(r) == byte_bits(b),
{
    BitVec { inner: bitvec::vec::BitVec::from_element(b) }
}

/// `BitVec::len`: the number of bits, which never exceeds `MAX_BITS`.
#[verifier::external_body]
pub(crate) fn bv_len(v: &BitVec) -> (r: usize)
    ensures
        r == bitvec_bits(*v).len(),
        r <= max_bits(),
{
    v.inner.len()
}

/// Indexing a `BitVec` by one position; it panics out of bounds.
#[verifier::external_body]
pub(crate) fn bv_get(v: &BitVec, i: usize) -> (r: bool)
    requires
        i < bitvec_bits(*v).len(),
    ensures
        r == bitvec_bits(*v)[i as int],
{
    v.inner[i]
}

/// `BitVec::push`: one more bit at the end. It panics past `MAX_BITS`.
#[verifier::external_body]
pub(crate) fn bv_push(v: &mut BitVec, b: bool)
    requires
        bitvec_bits(*old(v)).len() + 1 <= max_bits(),
    ensures
        bitvec_bits(*final(v)) == bitvec_bits(*old(v)).push(b),
{
    v.inner.push(b)
}

/// `BitVec::insert`: one bit placed at `pos`, the later bits shifted up. It
/// panics when `pos` is past the end or the vector would exceed `MAX_BITS`.
#[verifier::external_body]
pub(crate) fn bv_insert(v: &mut BitVec, pos: usize, b: bool)
    requires
        pos <= bitvec_bits(*old(v)).len(),
        bitvec_bits(*old(v)).len() + 1 <= max_bits(),
    ensures
        bitvec_bits(*final(v)) == bitvec_bits(*old(v)).insert(pos as int, b),
{
    v.inner.insert(pos, b)
}

/// `Extend` of a `BitVec` with the bits of another: they are pushed in order.
#[verifier::external_body]
pub(crate) fn bv_extend(v: &mut BitVec, other: &BitVec)
    requires
        bitvec_bits(*old(v)).len() + bitvec_bits(*other).len() <= max_bits(),
    ensures
        bitvec_bits(*final(v)) == bitvec_bits(*old(v)) + bitvec_bits(*other),
{
    v.inner.extend(other.inner.as_bitslice())
}

/// Range indexing of a `BitVec`, copied out with `BitSlice::to_bitvec`.
#[verifier::external_body]
pub(crate) fn bv_slice(v: &BitVec, start: usize, end: usize) -> (r: BitVec)
    requires
        start <= end <= bitvec_bits(*v).len(),
    ensures
        bitvec_bits(r) == bitvec_bits(*v).subrange(start as int, end as int),
{
    BitVec { inner: v.inner[start..end].to_bitvec() }
}

/// `Clone` of a `BitVec` (what `to_owned` calls): the same bits.
#[verifier::external_body]
pub(crate) fn bv_clone(v: &BitVec) -> (r: BitVec)
    ensures
        bitvec_bits(r) == bitvec_bits(*v),
{
    BitVec { inner: v.inner.clone() }
}

/// `BitVec::into_vec` after `BitVec::force_align`: the storage bytes, the
/// first bit in bit 0 of the first byte. The crate leaves the bits past the
/// end in the last byte unspecified, and so does this contract.
#[verifier::external_body]
pub(crate) fn bv_into_aligned_bytes(v: BitVec) -> (r: Vec<u8>)
    ensures
        packs_bits(r@, bitvec_bits(v)),
{
    let mut inner = v.inner;
    inner.force_align();
    inner.into_vec()
}

/// `BitField::load_le::<u8>` (what `load` is on little-endian targets): the bits read least
/// significant first. It panics on zero bits or more than eight.
#[verifier::external_body]
pub(crate) fn bv_load_u8(v: &BitVec) -> (r: u8)
    requires
        1 <= bitvec_bits(*v).len() <= 8,
    ensures
        r as nat == bits_value(bitvec_bits(*v)),
{
    v.inner.load_le::<u8>()
}

/// `BitField::load_le::<i8>` (what `load` is on little-endian targets): the bits read least
/// significant first, sign-extended from the last one.
#[verifier::external_body]
pub(crate) fn bv_load_i8(v: &BitVec) -> (r: i8)
    requires
        1 <= bitvec_bits(*v).len() <= 8,
    ensures
        r as int == signed_bits_value(bitvec_bits(*v)),
{
    v.inner.load_le::<i8>()
}

/// `BitField::load_le::<u16>` (what `load` is on little-endian targets).
#[verifier::external_body]
pub(crate) fn bv_load_u16(v: &BitVec) -> (r: u16)
    requires
        1 <= bitvec_bits(*v).len() <= 16,
    ensures
        r as nat == bits_value(bitvec_bits(*v)),
{
    v.inner.load_le::<u16>()
}

/// `BitField::load_le::<i16>` (what `load` is on little-endian targets), sign-extended.
#[verifier::external_body]
pub(crate) fn bv_load_i16(v: &BitVec) -> (r: i16)
    requires
        1 <= bitvec_bits(*v).len() <= 16,
    ensures
        r as int == signed_bits_value(bitvec_bits(*v)),
{
    v.inner.load_le::<i16>()
}

/// `BitField::load_le::<u32>` (what `load` is on little-endian targets).
#[verifier::external_body]
pub(crate) fn bv_load_u32(v: &BitVec) -> (r: u32)
    requires
        1 <= bitvec_bits(*v).len() <= 32,
    ensures
        r as nat == bits_value(bitvec_bits(*v)),
{
    v.inner.load_le::<u32>()
}

/// `BitField::load_le::<i32>` (what `load` is on little-endian targets), sign-extended.
#[verifier::external_body]
pub(crate) fn bv_load_i32(v: &BitVec) -> (r: i32)
    requires
        1 <= bitvec_bits(*v).len() <= 32,
    ensures
        r as int == signed_bits_value(bitvec_bits(*v)),
{
    v.inner.load_le::<i32>()
}

} // verus!

//! Minimal little-endian byte writer.
use vstd::prelude::*;
use crate::bit::{le_bytes_u32, le_bytes_u32_spec};

verus! {

/// The little-endian bytes of a `u16`.
pub open spec fn le_bytes_u16_spec(v: u16) -> Seq<u8> {
    seq![v as u8, (v >> 8u16) as u8]
}

/// The little-endian bytes of a `u64`.
pub open spec fn le_bytes_u64_spec(v: u64) -> Seq<u8> {
    le_bytes_u32_spec(v as u32) + le_bytes_u32_spec((v >> 32u64) as u32)
}

/// `u16::to_le_bytes`.
pub fn le_bytes_u16(v: u16) -> (r: [u8; 2])
    ensures
        r@ == le_bytes_u16_spec(v),
{
    let r = [#[verifier::truncate] (v as u8), #[verifier::truncate] ((v >> 8u16) as u8)];
    proof {
        assert(r@ =~= le_bytes_u16_spec(v));
    }
    r
}

/// How many bytes of `s` come before its first zero byte (all of them when
/// there is none): the length of the C string it holds.
pub open spec fn c_str_len(s: Seq<u8>) -> nat
    decreases s.len(),
{
    if s.len() == 0 {
        0
    } else if s[0] == 0 {
        0
    } else {
        1 + c_str_len(s.drop_first())
    }
}

/// A position with no zero byte before it, at the end or at a zero byte, is
/// where the C string ends.
pub proof fn lemma_c_str_len(s: Seq<u8>, p: nat)
    requires
        p <= s.len(),
        forall|j: int| 0 <= j < p ==> s[j] != 0,
        p < s.len() ==> s[p as int] == 0,
    ensures
        c_str_len(s) == p,
    decreases p,
{
    if p > 0 {
        lemma_c_str_len(s.drop_first(), (p - 1) as nat);
    }
}

/// What [`ByteWriter::fixed_str`] writes: the C string in `src`, cut to
/// leave room for a terminator, then zeros up to `width` bytes.
pub open spec fn fixed_str_bytes(src: Seq<u8>, width: nat) -> Seq<u8> {
    let room: nat = if width >= 1 { (width - 1) as nat } else { 0 };
    let take: nat = if c_str_len(src) < room { c_str_len(src) } else { room };
    src.take(take as int) + Seq::new((width - take) as nat, |i: int| 0u8)
}

/// A fixed-width field is exactly as wide as asked, and when it has room
/// for anything it ends in a NUL.
pub proof fn law_fixed_str_width(src: Seq<u8>, width: nat)
    ensures
        fixed_str_bytes(src, width).len() == width,
        width >= 1 ==> fixed_str_bytes(src, width)[width - 1] == 0,
{
    lemma_c_str_len_bound(src);
}

/// A C string is no longer than the bytes holding it.
pub proof fn lemma_c_str_len_bound(s: Seq<u8>)
    ensures
        c_str_len(s) <= s.len(),
    decreases s.len(),
{
    if s.len() > 0 {
        lemma_c_str_len_bound(s.drop_first());
    }
}

/// Appends little-endian values to a growing buffer.
pub struct ByteWriter {
    data: Vec<u8>,
}

impl View for ByteWriter {
    type V = Seq<u8>;

    closed spec fn view(&self) -> Seq<u8> {
        self.data@
    }
}

impl Default for ByteWriter {
    fn default() -> (r: Self)
        ensures
            r@ == Seq::<u8>::empty(),
    {
        Self::new()
    }
}

impl ByteWriter {
    pub fn new() -> (r: Self)
        ensures
            r@ == Seq::<u8>::empty(),
    {
        Self { data: Vec::new() }
    }

    /// An empty writer with room for `n` bytes before it reallocates.
    pub fn with_capacity(n: usize) -> (r: Self)
        ensures
            r@ == Seq::<u8>::empty(),
    {
        Self { data: Vec::with_capacity(n) }
    }

    /// The number of bytes written so far.
    pub fn offset(&self) -> (r: usize)
        ensures
            r == self@.len(),
    {
        self.data.len()
    }

    pub fn u8(&mut self, v: u8)
        ensures
            final(self)@ == old(self)@.push(v),
    {
        self.data.push(v);
    }

    /// Appends the bytes of `v` one by one.
    fn extend_from(&mut self, v: &[u8])
        ensures
            final(self)@ == old(self)@ + v@,
    {
        let ghost start = self.data@;
        let mut i: usize = 0;
        while i < v.len()
            invariant
                i <= v@.len(),
                self.data@ == start + v@.take(i as int),
            decreases v@.len() - i,
        {
            self.data.push(v[i]);
            proof {
                assert(start + v@.take(i + 1) =~= (start + v@.take(i as int)).push(v@[i as int]));
            }
            i = i + 1;
        }
        proof {
            assert(v@.take(v@.len() as int) =~= v@);
        }
    }

    pub fn i32(&mut self, v: i32)
        ensures
            final(self)@ == old(self)@ + le_bytes_u32_spec(v as u32),
    {
        let b = le_bytes_u32(v as u32);
        self.extend_from(&b);
    }

    pub fn u16(&mut self, v: u16)
        ensures
            final(self)@ == old(self)@ + le_bytes_u16_spec(v),
    {
        let b = le_bytes_u16(v);
        self.extend_from(&b);
    }

    pub fn u32(&mut self, v: u32)
        ensures
            final(self)@ == old(self)@ + le_bytes_u32_spec(v),
    {
        let b = le_bytes_u32(v);
        self.extend_from(&b);
    }

    /// Appends a 32-bit float given by its bit pattern: the little-endian
    /// bytes of a float are those of its bits.
    pub fn f32_bits(&mut self, v_bits: u32)
        ensures
            final(self)@ == old(self)@ + le_bytes_u32_spec(v_bits),
    {
        self.u32(v_bits)
    }

    /// Appends a 64-bit float given by its bit pattern.
    pub fn f64_bits(&mut self, v_bits: u64)
        ensures
            final(self)@ == old(self)@ + le_bytes_u64_spec(v_bits),
    {
        self.u32(#[verifier::truncate] (v_bits as u32));
        self.u32(#[verifier::truncate] ((v_bits >> 32u64) as u32));
        proof {
            assert(old(self)@ + le_bytes_u32_spec(v_bits as u32) + le_bytes_u32_spec(
                (v_bits >> 32u64) as u32,
            ) =~= old(self)@ + le_bytes_u64_spec(v_bits));
        }
    }

    pub fn bytes(&mut self, v: &[u8])
        ensures
            final(self)@ == old(self)@ + v@,
    {
        self.extend_from(v);
    }

    /// Write `src` into a fixed-width NUL-padded field, always NUL-terminated.
    pub fn fixed_str(&mut self, src: &[u8], width: usize)
        ensures
            final(self)@ == old(self)@ + fixed_str_bytes(src@, width as nat),
    {
        let mut end: usize = 0;
        while end < src.len() && src[end] != 0
            invariant
                end <= src@.len(),
                forall|j: int| 0 <= j < end ==> src@[j] != 0,
            decreases src@.len() - end,
        {
            end = end + 1;
        }
        proof {
            lemma_c_str_len(src@, end as nat);
        }
        let room = width.saturating_sub(1);
        let take = if end < room { end } else { room };
        let ghost mid = old(self)@ + src@.take(take as int);
        self.extend_from(&src[0..take]);
        let ghost before_pad = self.data@;
        let mut k: usize = 0;
        while k < width - take
            invariant
                take <= width,
                k <= width - take,
                self.data@ == before_pad + Seq::new(k as nat, |i: int| 0u8),
            decreases width - take - k,
        {
            self.data.push(0u8);
            proof {
                assert(before_pad + Seq::new((k + 1) as nat, |i: int| 0u8) =~= (before_pad
                    + Seq::new(k as nat, |i: int| 0u8)).push(0u8));
            }
            k = k + 1;
        }
        proof {
            assert(self.data@ =~= old(self)@ + fixed_str_bytes(src@, width as nat));
        }
    }

    /// Backpatch a previously reserved i32 slot.
    pub fn patch_i32(&mut self, at: usize, v: i32)
        requires
            at + 4 <= old(self)@.len(),
        ensures
            final(self)@ == old(self)@.take(at as int) + le_bytes_u32_spec(v as u32) + old(
                self,
            )@.skip(at + 4),
    {
        let b = le_bytes_u32(#[verifier::truncate] (v as u32));
        let ghost start = self.data@;
        let mut k: usize = 0;
        while k < 4
            invariant
                at + 4 <= start.len(),
                b@ == le_bytes_u32_spec(v as u32),
                k <= 4,
                self.data@.len() == start.len(),
                self.data.len() == start.len(),
                forall|j: int| 0 <= j < at || at + 4 <= j < start.len() ==> #[trigger] self.data@[j]
                    == start[j],
                forall|j: int| at <= j < at + k ==> #[trigger] self.data@[j] == b@[j - at],
                forall|j: int| at + k <= j < at + 4 ==> #[trigger] self.data@[j] == start[j],
            decreases 4 - k,
        {
            self.data.set(at + k, b[k]);
            k = k + 1;
        }
        proof {
            assert(self.data@ =~= start.take(at as int) + le_bytes_u32_spec(v as u32) + start.skip(
                at + 4,
            ));
        }
    }

    pub fn into_vec(self) -> (r: Vec<u8>)
        ensures
            r@ == self@,
    {
        self.data
    }
}

} // verus!

//! Bit sequences, most significant bit first, and the growable bit buffer
//! that the QIM codec writes to and reads from.

use vstd::arithmetic::div_mod::lemma_div_denominator;
use vstd::arithmetic::power2::{lemma2_to64, lemma_pow2_unfold, pow2};
use vstd::prelude::*;

verus! {

/// The lowest `width` bits of `value`, the most significant of them first.
pub open spec fn bits_msb(value: nat, width: nat) -> Seq<bool>
    decreases width,
{
    if width == 0 {
        Seq::empty()
    } else {
        bits_msb(value / 2, (width - 1) as nat).push(value % 2 == 1)
    }
}

/// The number that `bits` spell, the most significant bit first.
pub open spec fn value_msb(bits: Seq<bool>) -> nat
    decreases bits.len(),
{
    if bits.len() == 0 {
        0
    } else {
        2 * value_msb(bits.drop_last()) + if bits.last() {
            1nat
        } else {
            0nat
        }
    }
}

/// The bits of a sequence of bytes: eight for each byte, the byte's most
/// significant bit first.
pub open spec fn unpack(bytes: Seq<u8>) -> Seq<bool> {
    Seq::new(8 * bytes.len(), |i: int| bits_msb(bytes[i / 8] as nat, 8)[i % 8])
}

/// The eight bits from bit `8 * j` of `bits` on, with `false` for what lies
/// behind the end of `bits`.
pub open spec fn octet(bits: Seq<bool>, j: int) -> Seq<bool> {
    Seq::new(8, |k: int| 8 * j + k < bits.len() && bits[8 * j + k])
}

/// The bytes that hold `bits`, eight to a byte and the first bit in the
/// most significant place; the last byte is filled up with zero bits.
pub open spec fn pack(bits: Seq<bool>) -> Seq<u8> {
    Seq::new(((bits.len() + 7) / 8) as nat, |j: int| value_msb(octet(bits, j)) as u8)
}

/// The largest number of bits that a bit buffer holds.
pub open spec fn max_bits() -> int {
    usize::MAX as int / 8
}

/// The largest number of bytes that a bit buffer is made from.
pub open spec fn max_bytes() -> int {
    usize::MAX as int / 64
}

/// A growable sequence of bits, stored eight to a byte with the first bit
/// in the most significant place of its byte.
#[verifier::external_body]
pub struct BitBuffer {
    bits: bitvec::vec::BitVec<u8, bitvec::order::Msb0>,
}

/// The bits that a buffer holds, in order.
pub uninterp spec fn bit_seq(b: BitBuffer) -> Seq<bool>;

/// `BitVec::new`: the result holds no bit.
#[verifier::external_body]
pub(crate) fn bitvec_new() -> (b: BitBuffer)
    ensures
        bit_seq(b) == Seq::<bool>::empty(),
{
    BitBuffer { bits: bitvec::vec::BitVec::new() }
}

/// `BitVec::push`: appends one bit. It panics when the length would pass
/// `BitSlice::MAX_BITS`, which is `usize::MAX >> 3` and so the bound
/// required here.
#[verifier::external_body]
pub(crate) fn bitvec_push(b: &mut BitBuffer, bit: bool)
    requires
        bit_seq(*old(b)).len() < max_bits(),
    ensures
        bit_seq(*final(b)) == bit_seq(*old(b)).push(bit),
{
    b.bits.push(bit)
}

/// `BitVec::len`: the number of bits held.
#[verifier::external_body]
pub(crate) fn bitvec_len(b: &BitBuffer) -> (n: usize)
    ensures
        n == bit_seq(*b).len(),
{
    b.bits.len()
}

/// Indexing a `BitSlice` with a `usize`: the bit at `i`. It panics when
/// `i` is not below the length.
#[verifier::external_body]
pub(crate) fn bitvec_index(b: &BitBuffer, i: usize) -> (bit: bool)
    requires
        i < bit_seq(*b).len(),
    ensures
        bit == bit_seq(*b)[i as int],
{
    b.bits[i]
}

/// `BitVec::from_slice` with the order `Msb0`: the buffer spans every bit
/// of a copy of `bytes`, and bit `i` is bit `i % 8`, counted from the
/// most significant, of byte `i / 8`. It panics when the slice has
/// `BitSlice::MAX_ELTS` elements or more, which the bound required here
/// keeps it under.
#[verifier::external_body]
pub(crate) fn bitvec_from_slice(bytes: &[u8]) -> (b: BitBuffer)
    requires
        bytes@.len() <= max_bytes(),
    ensures
        bit_seq(b) == unpack(bytes@),
{
    BitBuffer { bits: bitvec::vec::BitVec::from_slice(bytes) }
}

/// `BitVec::as_raw_slice`, copied into a vector: the bytes that hold the
/// bits, bit `i` in place `i % 8`, counted from the most significant, of
/// byte `i / 8`. The places of the last byte behind the last bit are
/// zero: a buffer is made only by `bitvec_new` and `bitvec_from_slice`
/// and changed only by `bitvec_push`, which starts each new byte as zero
/// and then sets single bits.
#[verifier::external_body]
pub(crate) fn bitvec_as_raw_slice(b: &BitBuffer) -> (bytes: Vec<u8>)
    ensures
        bytes@ == pack(bit_seq(*b)),
{
    b.bits.as_raw_slice().to_vec()
}

impl BitBuffer {
    /// An empty buffer.
    pub fn new() -> (b: BitBuffer)
        ensures
            bit_seq(b) == Seq::<bool>::empty(),
    {
        bitvec_new()
    }

    /// The buffer of the bits of `bytes`, or `None` where they are more
    /// than a buffer holds.
    pub fn from_bytes(bytes: &[u8]) -> (b: Option<BitBuffer>)
        ensures
            b is Some <==> bytes@.len() <= max_bytes(),
            b matches Some(buffer) ==> bit_seq(buffer) == unpack(bytes@),
    {
        if bytes.len() <= usize::MAX / 64 {
            Some(bitvec_from_slice(bytes))
        } else {
            None
        }
    }

    /// The largest number of bits that a buffer holds.
    pub fn limit() -> (n: usize)
        ensures
            n == max_bits(),
    {
        usize::MAX / 8
    }

    /// The number of bits that can still be appended.
    pub fn room(&self) -> (n: usize)
        ensures
            n == if bit_seq(*self).len() <= max_bits() {
                max_bits() - bit_seq(*self).len()
            } else {
                0
            },
    {
        let len: usize = bitvec_len(self);
        if len <= usize::MAX / 8 {
            usize::MAX / 8 - len
        } else {
            0
        }
    }

    /// The number of bits held.
    pub fn len(&self) -> (n: usize)
        ensures
            n == bit_seq(*self).len(),
    {
        bitvec_len(self)
    }

    /// The bit at `i`, or `None` behind the end.
    pub fn get(&self, i: usize) -> (bit: Option<bool>)
        ensures
            bit == if i < bit_seq(*self).len() {
                Some(bit_seq(*self)[i as int])
            } else {
                None
            },
    {
        if i < bitvec_len(self) {
            Some(bitvec_index(self, i))
        } else {
            None
        }
    }

    /// Appends `bit`, and says whether there was room for it.
    pub fn push(&mut self, bit: bool) -> (pushed: bool)
        ensures
            pushed == (bit_seq(*old(self)).len() < max_bits()),
            bit_seq(*final(self)) == if pushed {
                bit_seq(*old(self)).push(bit)
            } else {
                bit_seq(*old(self))
            },
    {
        if bitvec_len(self) < usize::MAX / 8 {
            bitvec_push(self, bit);
            true
        } else {
            false
        }
    }

    /// The bytes that hold the bits, the last one filled up with zero bits.
    pub fn to_bytes(&self) -> (bytes: Vec<u8>)
        ensures
            bytes@ == pack(bit_seq(*self)),
    {
        bitvec_as_raw_slice(self)
    }
}


/// `bits_msb` gives as many bits as asked for.
pub proof fn lemma_bits_len(value: nat, width: nat)
    ensures
        bits_msb(value, width).len() == width,
    decreases width,
{
    if width > 0 {
        lemma_bits_len(value / 2, (width - 1) as nat);
    }
}

/// The bit at place `k` of `bits_msb` is the binary digit of `value` that
/// weighs `2^(width - 1 - k)`.
pub proof fn lemma_bit_at(value: nat, width: nat, k: int)
    requires
        0 <= k < width,
    ensures
        bits_msb(value, width).len() == width,
        bits_msb(value, width)[k] == ((value / pow2((width - 1 - k) as nat)) % 2 == 1),
    decreases width,
{
    lemma_bits_len(value, width);
    lemma_bits_len(value / 2, (width - 1) as nat);
    lemma2_to64();
    let rest = bits_msb(value / 2, (width - 1) as nat);
    assert(bits_msb(value, width) == rest.push(value % 2 == 1));
    if k < width - 1 {
        lemma_bit_at(value / 2, (width - 1) as nat, k);
        let e = (width - 2 - k) as nat;
        let d = pow2(e);
        assert(((width - 1) as nat - 1 - k) as nat == e);
        assert(rest[k] == (((value / 2) / d) % 2 == 1));
        lemma_pow2_unfold((width - 1 - k) as nat);
        assert(((width - 1 - k) as nat - 1) as nat == e);
        vstd::arithmetic::power2::lemma_pow2_pos(e);
        lemma_div_denominator(value as int, 2, d as int);
        assert(2 * d == pow2((width - 1 - k) as nat));
        assert((value as int / 2) / (d as int) == value as int / (2 * d as int));
        assert(bits_msb(value, width)[k] == rest[k]);
    } else {
        assert(bits_msb(value, width)[k] == (value % 2 == 1));
        assert(pow2(0) == 1);
        assert((width - 1 - k) as nat == 0);
    }
}

/// A number spelt by `n` bits is below `2^n`.
pub proof fn lemma_value_bound(bits: Seq<bool>)
    ensures
        value_msb(bits) < pow2(bits.len()),
    decreases bits.len(),
{
    lemma2_to64();
    if bits.len() > 0 {
        lemma_value_bound(bits.drop_last());
        lemma_pow2_unfold(bits.len());
    }
}

/// The bits of a number spell the number, as far as the width reaches.
pub proof fn lemma_value_of_bits(value: nat, width: nat)
    ensures
        value_msb(bits_msb(value, width)) == value % pow2(width),
    decreases width,
{
    lemma2_to64();
    if width > 0 {
        let rest = bits_msb(value / 2, (width - 1) as nat);
        lemma_value_of_bits(value / 2, (width - 1) as nat);
        lemma_bits_len(value / 2, (width - 1) as nat);
        assert(bits_msb(value, width).drop_last() =~= rest);
        lemma_pow2_unfold(width);
        let h = pow2((width - 1) as nat);
        vstd::arithmetic::power2::lemma_pow2_pos((width - 1) as nat);
        lemma_mod_halves(value as int, h as int);
    }
}

/// The remainder by `2 * h` from the remainder of the half by `h`.
pub proof fn lemma_mod_halves(v: int, h: int)
    requires
        v >= 0,
        h > 0,
    ensures
        v % (2 * h) == 2 * ((v / 2) % h) + v % 2,
{
    let q = (v / 2) / h;
    let r = (v / 2) % h;
    assert(v / 2 == q * h + r) by {
        vstd::arithmetic::div_mod::lemma_fundamental_div_mod(v / 2, h);
        assert(h * q == q * h) by (nonlinear_arith);
    }
    assert(v == 2 * (v / 2) + v % 2);
    assert(v == (2 * h) * q + (2 * r + v % 2)) by (nonlinear_arith)
        requires
            v == 2 * (v / 2) + v % 2,
            v / 2 == q * h + r,
    ;
    assert(0 <= r < h) by {
        vstd::arithmetic::div_mod::lemma_mod_bound(v / 2, h);
    }
    vstd::arithmetic::div_mod::lemma_fundamental_div_mod_converse(v, 2 * h, q, 2 * r + v % 2);
}

/// Bits that spell a number are the bits of that number.
pub proof fn lemma_bits_of_value(bits: Seq<bool>)
    ensures
        bits_msb(value_msb(bits), bits.len()) == bits,
    decreases bits.len(),
{
    if bits.len() > 0 {
        lemma_bits_of_value(bits.drop_last());
        let v = value_msb(bits);
        assert(v / 2 == value_msb(bits.drop_last()));
        assert((v % 2 == 1) == bits.last());
        assert(bits_msb(v, bits.len()) =~= bits);
    } else {
        assert(bits_msb(value_msb(bits), bits.len()) =~= bits);
    }
}

/// Unpacking packed bits gives the bits back, followed by zero bits up to
/// the next multiple of eight.
pub proof fn lemma_unpack_pack(bits: Seq<bool>)
    ensures
        unpack(pack(bits)).len() == 8 * ((bits.len() + 7) / 8),
        forall|i: int|
            0 <= i < unpack(pack(bits)).len() ==> #[trigger] unpack(pack(bits))[i] == (i
                < bits.len() && bits[i]),
{
    lemma2_to64();
    assert forall|i: int| 0 <= i < unpack(pack(bits)).len() implies #[trigger] unpack(
        pack(bits),
    )[i] == (i < bits.len() && bits[i]) by {
        let j = i / 8;
        let o = octet(bits, j);
        lemma_value_bound(o);
        lemma_bits_of_value(o);
        assert(pack(bits)[j] == value_msb(o) as u8);
        assert(o[i % 8] == (8 * j + i % 8 < bits.len() && bits[8 * j + i % 8]));
    }
}

/// Packing the bits of bytes gives the bytes back.
pub proof fn lemma_pack_unpack(bytes: Seq<u8>)
    ensures
        pack(unpack(bytes)) == bytes,
{
    lemma2_to64();
    assert(pack(unpack(bytes)).len() == bytes.len());
    assert forall|j: int| 0 <= j < bytes.len() implies pack(unpack(bytes))[j] == bytes[j] by {
        let o = octet(unpack(bytes), j);
        lemma_bits_len(bytes[j] as nat, 8);
        assert forall|k: int| 0 <= k < 8 implies o[k] == bits_msb(bytes[j] as nat, 8)[k] by {
            assert((8 * j + k) / 8 == j);
            assert((8 * j + k) % 8 == k);
        }
        assert(o =~= bits_msb(bytes[j] as nat, 8));
        lemma_value_of_bits(bytes[j] as nat, 8);
    }
    assert(pack(unpack(bytes)) =~= bytes);
}

} // verus!

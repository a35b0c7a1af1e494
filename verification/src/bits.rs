//! The bit container used for every bitstream in this crate: `bitvec`'s
//! `BitVec` over `u8` storage in least-significant-bit-first (`Lsb0`) order,
//! seen by the verifier as a sequence of booleans.
use vstd::prelude::*;
use bitvec::view::BitView;

verus! {

/// An ordered sequence of bits, stored as `bitvec`'s `BitVec<u8, Lsb0>`.
/// Verus sees it only through `bit_seq` and the trusted wrappers below.
#[verifier::external_body]
pub struct Bits {
    inner: bitvec::vec::BitVec<u8, bitvec::order::Lsb0>,
}

/// The bits that a `BitVec` holds, in index order.
pub uninterp spec fn bit_seq(v: Bits) -> Seq<bool>;

/// The eight bits of a byte, least significant first.
pub open spec fn byte_bits(b: u8) -> Seq<bool> {
    seq![
        b & 1 == 1,
        (b >> 1) & 1 == 1,
        (b >> 2) & 1 == 1,
        (b >> 3) & 1 == 1,
        (b >> 4) & 1 == 1,
        (b >> 5) & 1 == 1,
        (b >> 6) & 1 == 1,
        (b >> 7) & 1 == 1,
    ]
}

/// A byte buffer seen as a bit sequence, least significant bit of each byte
/// first: bit `i` of the stream is bit `i % 8` of byte `i / 8`.
pub open spec fn bytes_to_bits(s: Seq<u8>) -> Seq<bool> {
    Seq::new(s.len() * 8, |i: int| byte_bits(s[i / 8])[i % 8])
}

pub open spec fn bit_int(b: bool) -> int {
    if b { 1 } else { 0 }
}

/// The byte whose least-significant-first bits stand at `s[q .. q + 8]`.
pub open spec fn bits_to_byte8(s: Seq<bool>, q: int) -> u8 {
    (bit_int(s[q]) + 2 * bit_int(s[q + 1]) + 4 * bit_int(s[q + 2]) + 8 * bit_int(s[q + 3])
        + 16 * bit_int(s[q + 4]) + 32 * bit_int(s[q + 5]) + 64 * bit_int(s[q + 6])
        + 128 * bit_int(s[q + 7])) as u8
}

/// The largest bit length a `BitVec<u8, Lsb0>` can hold
/// (`BitSlice::<u8, Lsb0>::MAX_BITS`, which is `usize::MAX >> 3`).
pub open spec fn max_bits() -> int {
    usize::MAX as int / 8
}

/// Relies on bitvec's `BitVec::new`: a new bit-vector is empty.
#[verifier::external_body]
pub(crate) fn bits_new() -> (r: Bits)
    ensures
        bit_seq(r) == Seq::<bool>::empty(),
{
    Bits { inner: bitvec::vec::BitVec::new() }
}

/// Relies on bitvec's `BitVec::push`: appends one bit at the back; it panics
/// only when the length would pass `MAX_BITS`, which the precondition rules
/// out.
#[verifier::external_body]
pub(crate) fn bits_push(v: &mut Bits, b: bool)
    requires
        bit_seq(*old(v)).len() < max_bits(),
    ensures
        bit_seq(*final(v)) == bit_seq(*old(v)).push(b),
{
    v.inner.push(b);
}

/// Relies on bitvec's `BitVec::pop`: removes the last bit when one exists.
#[verifier::external_body]
pub(crate) fn bits_pop(v: &mut Bits)
    requires
        bit_seq(*old(v)).len() > 0,
    ensures
        bit_seq(*final(v)) == bit_seq(*old(v)).drop_last(),
{
    v.inner.pop();
}

/// Relies on bitvec's `BitVec::len`: the number of live bits.
#[verifier::external_body]
pub(crate) fn bits_len(v: &Bits) -> (r: usize)
    ensures
        r == bit_seq(*v).len(),
{
    v.inner.len()
}

/// Relies on bitvec's `Index<usize>` on the underlying bit-slice: reads the
/// bit at `i`; it panics only out of bounds, which the precondition rules
/// out.
#[verifier::external_body]
pub(crate) fn bits_get(v: &Bits, i: usize) -> (r: bool)
    requires
        i < bit_seq(*v).len(),
    ensures
        r == bit_seq(*v)[i as int],
{
    v.inner[i]
}

/// Relies on bitvec's `Clone` for `BitVec`: an equal copy.
#[verifier::external_body]
pub(crate) fn bits_clone(v: &Bits) -> (r: Bits)
    ensures
        bit_seq(r) == bit_seq(*v),
{
    Bits { inner: v.inner.clone() }
}

/// Relies on bitvec's `BitVec::extend_from_bitslice`: appends all of `src`
/// behind `dst`; it panics only when the combined length would pass
/// `MAX_BITS`, which the precondition rules out.
#[verifier::external_body]
pub(crate) fn bits_extend(dst: &mut Bits, src: &Bits)
    requires
        bit_seq(*old(dst)).len() + bit_seq(*src).len() <= max_bits(),
    ensures
        bit_seq(*final(dst)) == bit_seq(*old(dst)) + bit_seq(*src),
{
    dst.inner.extend_from_bitslice(src.inner.as_bitslice());
}

/// Relies on bitvec's `BitVec::into_vec`: hands back the underlying `u8`
/// storage. With a bit length that is a whole number of bytes, every bit of
/// every returned byte was written by a push or an extend, in `Lsb0` order.
#[verifier::external_body]
pub(crate) fn bits_into_bytes(v: Bits) -> (r: Vec<u8>)
    requires
        bit_seq(v).len() % 8 == 0,
    ensures
        r@.len() * 8 == bit_seq(v).len(),
        forall|i: int|
            0 <= i < bit_seq(v).len() ==> bit_seq(v)[i] == byte_bits(r@[i / 8])[i % 8],
{
    v.inner.into_vec()
}

/// Relies on bitvec's `view_bits::<Lsb0>` on `&[u8]` (with `to_bitvec` to own
/// the result): bit `i` of the view is bit `i % 8` of byte `i / 8`. The
/// slice-length precondition rules out the only panic.
#[verifier::external_body]
pub(crate) fn bits_from_bytes(bytes: &[u8]) -> (r: Bits)
    requires
        bytes@.len() * 8 <= max_bits(),
    ensures
        bit_seq(r).len() == bytes@.len() * 8,
        forall|i: int|
            0 <= i < bit_seq(r).len() ==> bit_seq(r)[i] == byte_bits(bytes@[i / 8])[i % 8],
{
    Bits { inner: bytes.view_bits::<bitvec::order::Lsb0>().to_bitvec() }
}

/// Appends the eight bits of `b`, least significant first.
pub(crate) fn push_byte(v: &mut Bits, b: u8)
    requires
        bit_seq(*old(v)).len() + 8 <= max_bits(),
    ensures
        bit_seq(*final(v)) == bit_seq(*old(v)) + byte_bits(b),
{
    bits_push(v, b & 1 == 1);
    bits_push(v, (b >> 1) & 1 == 1);
    bits_push(v, (b >> 2) & 1 == 1);
    bits_push(v, (b >> 3) & 1 == 1);
    bits_push(v, (b >> 4) & 1 == 1);
    bits_push(v, (b >> 5) & 1 == 1);
    bits_push(v, (b >> 6) & 1 == 1);
    bits_push(v, (b >> 7) & 1 == 1);
    proof {
        assert(bit_seq(*v) =~= bit_seq(*old(v)) + byte_bits(b));
    }
}

/// Reads the byte whose bits stand at `v[q .. q + 8]`, least significant
/// first.
pub(crate) fn read_byte(v: &Bits, q: usize) -> (r: u8)
    requires
        q + 8 <= bit_seq(*v).len(),
        q + 8 <= usize::MAX,
    ensures
        r == bits_to_byte8(bit_seq(*v), q as int),
{
    let b0: u8 = if bits_get(v, q) { 1 } else { 0 };
    let b1: u8 = if bits_get(v, q + 1) { 2 } else { 0 };
    let b2: u8 = if bits_get(v, q + 2) { 4 } else { 0 };
    let b3: u8 = if bits_get(v, q + 3) { 8 } else { 0 };
    let b4: u8 = if bits_get(v, q + 4) { 16 } else { 0 };
    let b5: u8 = if bits_get(v, q + 5) { 32 } else { 0 };
    let b6: u8 = if bits_get(v, q + 6) { 64 } else { 0 };
    let b7: u8 = if bits_get(v, q + 7) { 128 } else { 0 };
    b0 + b1 + b2 + b3 + b4 + b5 + b6 + b7
}

/// A byte is recovered from its own bits.
pub proof fn lemma_byte_bits_inverse(s: Seq<bool>, q: int, b: u8)
    requires
        0 <= q,
        q + 8 <= s.len(),
        forall|k: int| 0 <= k < 8 ==> s[q + k] == byte_bits(b)[k],
    ensures
        bits_to_byte8(s, q) == b,
{
    assert(s[q + 0] == byte_bits(b)[0]);
    assert(s[q + 1] == byte_bits(b)[1]);
    assert(s[q + 2] == byte_bits(b)[2]);
    assert(s[q + 3] == byte_bits(b)[3]);
    assert(s[q + 4] == byte_bits(b)[4]);
    assert(s[q + 5] == byte_bits(b)[5]);
    assert(s[q + 6] == byte_bits(b)[6]);
    assert(s[q + 7] == byte_bits(b)[7]);
    assert((if b & 1 == 1 { 1int } else { 0 }) + 2 * (if (b >> 1) & 1 == 1 { 1int } else { 0 })
        + 4 * (if (b >> 2) & 1 == 1 { 1int } else { 0 }) + 8 * (if (b >> 3) & 1 == 1 {
        1int
    } else {
        0
    }) + 16 * (if (b >> 4) & 1 == 1 { 1int } else { 0 }) + 32 * (if (b >> 5) & 1 == 1 {
        1int
    } else {
        0
    }) + 64 * (if (b >> 6) & 1 == 1 { 1int } else { 0 }) + 128 * (if (b >> 7) & 1 == 1 {
        1int
    } else {
        0
    }) == b) by (bit_vector);
}

} // verus!

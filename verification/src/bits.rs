use bitvec::access::BitSafeU8;
use bitvec::order::Lsb0;
use bitvec::store::BitStore;
use bitvec::vec::BitVec;
use vstd::prelude::*;

verus! {

/// Bit `pos` of a byte string, counting from the least significant bit of
/// the first byte.
#[verifier::opaque]
pub open spec fn bit_at(data: Seq<u8>, pos: int) -> bool {
    (data[pos / 8] >> ((pos % 8) as u8)) & 1 == 1
}

/// Reads bit `pos` of `data`.
pub fn get_bit(data: &[u8], pos: usize) -> (bit: bool)
    requires
        pos / 8 < data.len(),
    ensures
        bit == bit_at(data@, pos as int),
{
    reveal(bit_at);
    (data[pos / 8] >> ((pos % 8) as u8)) & 1 == 1
}

/// Bit `k` of a bit string that is followed by zeros without end.
pub open spec fn bit_or_zero(bits: Seq<bool>, k: int) -> bool {
    0 <= k < bits.len() && bits[k]
}

/// The byte whose bit `i` is `b_i`, bit 0 being the least significant.
pub open spec fn byte_of(
    b0: bool,
    b1: bool,
    b2: bool,
    b3: bool,
    b4: bool,
    b5: bool,
    b6: bool,
    b7: bool,
) -> u8 {
    (if b0 { 1u8 } else { 0u8 }) | (if b1 { 2u8 } else { 0u8 }) | (if b2 { 4u8 } else { 0u8 }) | (if b3 {
        8u8
    } else {
        0u8
    }) | (if b4 { 16u8 } else { 0u8 }) | (if b5 { 32u8 } else { 0u8 }) | (if b6 { 64u8 } else { 0u8 })
        | (if b7 { 128u8 } else { 0u8 })
}

/// Byte `j` of the packed form of a bit string.
pub open spec fn packed_byte(bits: Seq<bool>, j: int) -> u8 {
    byte_of(
        bit_or_zero(bits, 8 * j),
        bit_or_zero(bits, 8 * j + 1),
        bit_or_zero(bits, 8 * j + 2),
        bit_or_zero(bits, 8 * j + 3),
        bit_or_zero(bits, 8 * j + 4),
        bit_or_zero(bits, 8 * j + 5),
        bit_or_zero(bits, 8 * j + 6),
        bit_or_zero(bits, 8 * j + 7),
    )
}

/// The packed form of a bit string: eight bits to a byte, the first bit in
/// the least significant place, the last byte filled up with zeros.
pub open spec fn packed(bits: Seq<bool>) -> Seq<u8> {
    Seq::new(((bits.len() + 7) / 8) as nat, |j: int| packed_byte(bits, j))
}

proof fn lemma_byte_of_bits(
    b0: bool,
    b1: bool,
    b2: bool,
    b3: bool,
    b4: bool,
    b5: bool,
    b6: bool,
    b7: bool,
)
    by (bit_vector)
    ensures
        ((byte_of(b0, b1, b2, b3, b4, b5, b6, b7) >> 0u8) & 1 == 1) == b0,
        ((byte_of(b0, b1, b2, b3, b4, b5, b6, b7) >> 1u8) & 1 == 1) == b1,
        ((byte_of(b0, b1, b2, b3, b4, b5, b6, b7) >> 2u8) & 1 == 1) == b2,
        ((byte_of(b0, b1, b2, b3, b4, b5, b6, b7) >> 3u8) & 1 == 1) == b3,
        ((byte_of(b0, b1, b2, b3, b4, b5, b6, b7) >> 4u8) & 1 == 1) == b4,
        ((byte_of(b0, b1, b2, b3, b4, b5, b6, b7) >> 5u8) & 1 == 1) == b5,
        ((byte_of(b0, b1, b2, b3, b4, b5, b6, b7) >> 6u8) & 1 == 1) == b6,
        ((byte_of(b0, b1, b2, b3, b4, b5, b6, b7) >> 7u8) & 1 == 1) == b7,
{
}

proof fn lemma_byte_by_bits(a: u8, b: u8)
    by (bit_vector)
    requires
        ((a >> 0u8) & 1 == 1) == ((b >> 0u8) & 1 == 1),
        ((a >> 1u8) & 1 == 1) == ((b >> 1u8) & 1 == 1),
        ((a >> 2u8) & 1 == 1) == ((b >> 2u8) & 1 == 1),
        ((a >> 3u8) & 1 == 1) == ((b >> 3u8) & 1 == 1),
        ((a >> 4u8) & 1 == 1) == ((b >> 4u8) & 1 == 1),
        ((a >> 5u8) & 1 == 1) == ((b >> 5u8) & 1 == 1),
        ((a >> 6u8) & 1 == 1) == ((b >> 6u8) & 1 == 1),
        ((a >> 7u8) & 1 == 1) == ((b >> 7u8) & 1 == 1),
    ensures
        a == b,
{
}

/// Bit `8 * j + i` of a byte string is bit `i` of its byte `j`.
proof fn lemma_bit_at_byte(data: Seq<u8>, j: int, i: int)
    requires
        0 <= j,
        0 <= i < 8,
    ensures
        bit_at(data, 8 * j + i) == ((data[j] >> (i as u8)) & 1 == 1),
{
    reveal(bit_at);
    assert((8 * j + i) / 8 == j);
    assert((8 * j + i) % 8 == i);
}

/// Reading the packed form bit by bit gives the bit string back, and zeros
/// after its end.
pub proof fn lemma_packed_bits(bits: Seq<bool>, k: int)
    requires
        0 <= k < 8 * packed(bits).len(),
    ensures
        bit_at(packed(bits), k) == bit_or_zero(bits, k),
{
    let j = k / 8;
    let i = k % 8;
    lemma_bit_at_byte(packed(bits), j, i);
    lemma_byte_of_bits(
        bit_or_zero(bits, 8 * j),
        bit_or_zero(bits, 8 * j + 1),
        bit_or_zero(bits, 8 * j + 2),
        bit_or_zero(bits, 8 * j + 3),
        bit_or_zero(bits, 8 * j + 4),
        bit_or_zero(bits, 8 * j + 5),
        bit_or_zero(bits, 8 * j + 6),
        bit_or_zero(bits, 8 * j + 7),
    );
    assert(packed(bits)[j] == packed_byte(bits, j));
    assert(k == 8 * j + i);
}

/// A byte string is the packed form of a bit string if it has the packed
/// form's length and the same bits.
pub proof fn lemma_packed_unique(bits: Seq<bool>, bytes: Seq<u8>)
    requires
        bytes.len() == (bits.len() + 7) / 8,
        forall|k: int| 0 <= k < 8 * bytes.len() ==> bit_at(bytes, k) == bit_or_zero(bits, k),
    ensures
        bytes == packed(bits),
{
    assert forall|j: int| 0 <= j < bytes.len() implies bytes[j] == packed(bits)[j] by {
        lemma_same_byte(bits, bytes, j);
    }
    assert(bytes =~= packed(bits));
}

proof fn lemma_same_bit(bits: Seq<bool>, bytes: Seq<u8>, j: int, i: int)
    requires
        bytes.len() == (bits.len() + 7) / 8,
        0 <= j < bytes.len(),
        0 <= i < 8,
        bit_at(bytes, 8 * j + i) == bit_or_zero(bits, 8 * j + i),
    ensures
        ((bytes[j] >> (i as u8)) & 1 == 1) == ((packed(bits)[j] >> (i as u8)) & 1 == 1),
{
    lemma_bit_at_byte(bytes, j, i);
    lemma_bit_at_byte(packed(bits), j, i);
    lemma_packed_bits(bits, 8 * j + i);
}

proof fn lemma_same_byte(bits: Seq<bool>, bytes: Seq<u8>, j: int)
    requires
        bytes.len() == (bits.len() + 7) / 8,
        0 <= j < bytes.len(),
        forall|k: int| 0 <= k < 8 * bytes.len() ==> bit_at(bytes, k) == bit_or_zero(bits, k),
    ensures
        bytes[j] == packed(bits)[j],
{
    lemma_same_bit(bits, bytes, j, 0);
    lemma_same_bit(bits, bytes, j, 1);
    lemma_same_bit(bits, bytes, j, 2);
    lemma_same_bit(bits, bytes, j, 3);
    lemma_same_bit(bits, bytes, j, 4);
    lemma_same_bit(bits, bytes, j, 5);
    lemma_same_bit(bits, bytes, j, 6);
    lemma_same_bit(bits, bytes, j, 7);
    lemma_byte_by_bits(bytes[j], packed(bits)[j]);
}

/// The largest number of bits that an accumulator holds.
pub open spec fn max_bits() -> nat {
    (usize::MAX / 8) as nat
}

/// Accumulator of a bit stream, kept in a `bitvec` bit vector with the first
/// bit of each byte in the least significant place.
#[verifier::external_body]
pub struct BitAccumulator {
    bits: BitVec<BitSafeU8, Lsb0>,
}

/// The bits that the accumulator holds, in the order in which they came.
pub uninterp spec fn accumulated_bits(acc: BitAccumulator) -> Seq<bool>;

/// The unused bits of the accumulator's last byte, in storage order.
pub uninterp spec fn spare_bits(acc: BitAccumulator) -> Seq<bool>;

impl View for BitAccumulator {
    type V = Seq<bool>;

    open spec fn view(&self) -> Seq<bool> {
        accumulated_bits(*self)
    }
}

/// `BitVec::new`: a bit vector without bits.
#[verifier::external_body]
fn bitvec_new() -> (acc: BitAccumulator)
    ensures
        accumulated_bits(acc) == Seq::<bool>::empty(),
{
    BitAccumulator { bits: BitVec::new() }
}

/// `BitVec::len`: the number of bits held.
#[verifier::external_body]
fn bitvec_len(acc: &BitAccumulator) -> (n: usize)
    ensures
        n == accumulated_bits(*acc).len(),
{
    acc.bits.len()
}

/// `BitVec::extend` with an iterator of `&bool`: the bits are added at the
/// end, in order. It panics when the length would pass `usize::MAX >> 3`,
/// which the precondition excludes.
#[verifier::external_body]
fn bitvec_extend(acc: &mut BitAccumulator, bits: &[bool])
    requires
        accumulated_bits(*old(acc)).len() + bits@.len() <= max_bits(),
    ensures
        accumulated_bits(*final(acc)) == accumulated_bits(*old(acc)) + bits@,
{
    acc.bits.extend(bits.iter())
}

/// `BitVec::set_uninitialized`: the bits held stay, every unused bit of the
/// storage takes the given value.
#[verifier::external_body]
fn bitvec_set_uninitialized(acc: &mut BitAccumulator, value: bool)
    ensures
        accumulated_bits(*final(acc)) == accumulated_bits(*old(acc)),
        forall|i: int| 0 <= i < spare_bits(*final(acc)).len() ==> spare_bits(*final(acc))[i] == value,
{
    acc.bits.set_uninitialized(value)
}

/// `BitVec::into_vec`, each storage element read with `load_value`: as many
/// bytes as hold the bits; bit `k` of the vector is bit `k % 8` of byte
/// `k / 8`, and the rest of the last byte holds the unused bits.
#[verifier::external_body]
fn bitvec_into_vec(acc: BitAccumulator) -> (bytes: Vec<u8>)
    ensures
        bytes@.len() == (accumulated_bits(acc).len() + 7) / 8,
        spare_bits(acc).len() == 8 * bytes@.len() - accumulated_bits(acc).len(),
        forall|k: int|
            0 <= k < accumulated_bits(acc).len() ==> bit_at(bytes@, k) == accumulated_bits(acc)[k],
        forall|k: int|
            accumulated_bits(acc).len() <= k < 8 * bytes@.len() ==> bit_at(bytes@, k) == spare_bits(
                acc,
            )[k - accumulated_bits(acc).len()],
{
    acc.bits.into_vec().into_iter().map(|element| element.load_value()).collect()
}

impl BitAccumulator {
    /// An accumulator without bits.
    pub fn new() -> (acc: BitAccumulator)
        ensures
            acc@ == Seq::<bool>::empty(),
    {
        bitvec_new()
    }

    /// The number of bits held.
    pub fn len(&self) -> (n: usize)
        ensures
            n == self@.len(),
    {
        bitvec_len(self)
    }

    /// Adds `bits` at the end.
    pub fn append(&mut self, bits: &[bool])
        requires
            old(self)@.len() + bits@.len() <= max_bits(),
        ensures
            final(self)@ == old(self)@ + bits@,
    {
        bitvec_extend(self, bits)
    }

    /// Adds `bits` at the end if the accumulator can hold them; tells
    /// whether it did.
    pub fn try_append(&mut self, bits: &[bool]) -> (done: bool)
        ensures
            done == (old(self)@.len() + bits@.len() <= max_bits()),
            done ==> final(self)@ == old(self)@ + bits@,
            !done ==> final(self)@ == old(self)@,
    {
        let held = bitvec_len(self);
        let limit = usize::MAX / 8;
        if held <= limit && bits.len() <= limit - held {
            bitvec_extend(self, bits);
            true
        } else {
            false
        }
    }
}

/// Ends a bit stream: fills the last byte up with zeros and returns the
/// packed bytes.
pub fn bit_to_bytes(bits: BitAccumulator) -> (bytes: Vec<u8>)
    ensures
        bytes@ == packed(bits@),
{
    let mut bits = bits;
    let ghost held = bits@;
    bitvec_set_uninitialized(&mut bits, false);
    let bytes = bitvec_into_vec(bits);
    proof {
        assert forall|k: int| 0 <= k < 8 * bytes@.len() implies bit_at(bytes@, k) == bit_or_zero(
            held,
            k,
        ) by {
            if k >= held.len() {
                assert(spare_bits(bits)[k - held.len()] == false);
            }
        }
        lemma_packed_unique(held, bytes@);
    }
    bytes
}

} // verus!

//! 64-bit identifiers and the XOR metric on them.

use vstd::prelude::*;
use vstd::std_specs::bits::u64_leading_zeros;
use vstd::std_specs::bits::axiom_u64_leading_zeros;

verus! {

/// 64-bit unsigned integer used as a unique identifier of a peer or a room.
#[derive(Debug, PartialEq, Eq, PartialOrd, Ord, Clone, Copy, Hash, Structural)]
pub struct Id(pub u64);

impl View for Id {
    type V = u64;

    open spec fn view(&self) -> u64 {
        self.0
    }
}

/// The XOR distance between two identifier values.
pub open spec fn xor_distance(a: u64, b: u64) -> u64 {
    a ^ b
}

/// The number of leading bits that two identifier values share, from 0 to 64.
pub open spec fn common_prefix(a: u64, b: u64) -> int {
    u64_leading_zeros(a ^ b)
}

impl Id {
    /// Creates a new `Id` with value `x`.
    pub fn from_u64(x: u64) -> (id: Id)
        ensures
            id@ == x,
    {
        Id(x)
    }

    /// Creates a new `Id` whose value is random.
    pub fn new_random() -> Id {
        Id(super::next_u64())
    }

    /// The distance between this `Id` and another one in the XOR metric.
    pub open spec fn spec_distance(self, other: Id) -> u64 {
        xor_distance(self@, other@)
    }

    /// The number of leading bits this `Id` shares with another one.
    pub open spec fn spec_common_bits(self, other: Id) -> int {
        common_prefix(self@, other@)
    }

    /// Computes the "distance" between this `Id` and another one.
    pub fn distance(&self, other: &Id) -> (d: u64)
        ensures
            d == self.spec_distance(*other),
    {
        self.0 ^ other.0
    }

    /// Consumes this `Id` and returns its value.
    pub fn into_u64(self) -> (x: u64)
        ensures
            x == self@,
    {
        self.0
    }

    /// The eight bytes that stand for this `Id` in a room file: its value,
    /// least significant byte first.
    pub fn to_bytes(&self) -> (bytes: Vec<u8>)
        ensures
            bytes@ == vstd::bytes::spec_u64_to_le_bytes(self@),
            bytes@.len() == 8,
    {
        proof {
            vstd::bytes::lemma_auto_spec_u64_to_from_le_bytes();
        }
        vstd::bytes::u64_to_le_bytes(self.0)
    }

    /// The `Id` that the first eight bytes of a room file stand for; `None`
    /// where the file is shorter.
    pub fn from_bytes(bytes: &Vec<u8>) -> (id: Option<Id>)
        ensures
            bytes@.len() < 8 ==> id is None,
            bytes@.len() >= 8 ==> id == Some(
                Id(vstd::bytes::spec_u64_from_le_bytes(bytes@.subrange(0, 8))),
            ),
    {
        if bytes.len() < 8 {
            return None;
        }
        let mut head: Vec<u8> = Vec::new();
        let mut i: usize = 0;
        while i < 8
            invariant
                i <= 8 <= bytes@.len(),
                head@ == bytes@.subrange(0, i as int),
            decreases 8 - i,
        {
            head.push(bytes[i]);
            assert(bytes@.subrange(0, i + 1) =~= bytes@.subrange(0, i as int).push(bytes@[i as int]));
            i += 1;
        }
        Some(Id(vstd::bytes::u64_from_le_bytes(head.as_slice())))
    }

    /// Returns the number of leading common bits between this `Id` and
    /// another one.
    pub fn common_bits(&self, other: &Id) -> (n: u32)
        ensures
            n == self.spec_common_bits(*other),
            n <= 64,
            n == 64 <==> *self == *other,
    {
        let x: u64 = self.0 ^ other.0;
        proof {
            axiom_u64_leading_zeros(x);
            lemma_xor_zero_iff_equal(self.0, other.0);
        }
        x.leading_zeros()
    }
}

/// An `Id` that is written to a room file is read back from it.
pub proof fn lemma_room_file_roundtrip(id: Id)
    ensures
        vstd::bytes::spec_u64_from_le_bytes(
            vstd::bytes::spec_u64_to_le_bytes(id@).subrange(0, 8),
        ) == id@,
{
    vstd::bytes::lemma_auto_spec_u64_to_from_le_bytes();
    let b = vstd::bytes::spec_u64_to_le_bytes(id@);
    assert(b.subrange(0, 8) =~= b);
}

/// Two values are equal exactly when their XOR is zero.
pub proof fn lemma_xor_zero_iff_equal(a: u64, b: u64)
    ensures
        (a ^ b == 0) <==> a == b,
{
    assert((a ^ b == 0) <==> a == b) by (bit_vector);
}

/// An identifier is at distance zero from itself, and from no other.
pub proof fn lemma_distance_identity(a: Id, b: Id)
    ensures
        a.spec_distance(a) == 0,
        a.spec_distance(b) == 0 <==> a == b,
{
    let x = a.0;
    let y = b.0;
    assert(x ^ x == 0) by (bit_vector);
    assert((x ^ y == 0) <==> x == y) by (bit_vector);
}

/// The distance is symmetric.
pub proof fn lemma_distance_symmetric(a: Id, b: Id)
    ensures
        a.spec_distance(b) == b.spec_distance(a),
{
    let x = a.0;
    let y = b.0;
    assert(x ^ y == y ^ x) by (bit_vector);
}

/// For a fixed centre, the distance determines the identifier.
pub proof fn lemma_distance_injective(c: Id, a: Id, b: Id)
    ensures
        c.spec_distance(a) == c.spec_distance(b) <==> a == b,
{
    let z = c.0;
    let x = a.0;
    let y = b.0;
    assert((z ^ x == z ^ y) <==> x == y) by (bit_vector);
}

/// Who shares the longer prefix is nearer: an identifier that has more leading
/// bits in common with the centre than another one is at a smaller distance
/// from it.
pub proof fn lemma_longer_prefix_is_nearer(c: Id, a: Id, b: Id)
    requires
        c.spec_common_bits(a) > c.spec_common_bits(b),
    ensures
        c.spec_distance(a) < c.spec_distance(b),
{
    let x: u64 = c.0 ^ a.0;
    let y: u64 = c.0 ^ b.0;
    axiom_u64_leading_zeros(x);
    axiom_u64_leading_zeros(y);
    let p = u64_leading_zeros(x);
    let q = u64_leading_zeros(y);
    let low: u64 = (64 - p) as u64;
    let k: u64 = (63 - q) as u64;
    assert((y >> k) & 1 != 0);
    assert(x >> low == 0);
    assert(x >> k == 0) by (bit_vector)
        requires
            x >> low == 0,
            low <= k,
            k < 64,
    ;
    assert(x < y) by (bit_vector)
        requires
            x >> k == 0,
            (y >> k) & 1 != 0,
            k < 64,
    ;
}

/// The shared prefix of two identifiers has between 0 and 64 bits, and all 64
/// exactly when the two are equal.
pub proof fn lemma_common_bits_range(a: Id, b: Id)
    ensures
        0 <= a.spec_common_bits(b) <= 64,
        a.spec_common_bits(b) == 64 <==> a == b,
        a.spec_common_bits(b) == b.spec_common_bits(a),
{
    let x = a.0;
    let y = b.0;
    axiom_u64_leading_zeros(x ^ y);
    lemma_xor_zero_iff_equal(x, y);
    assert(x ^ y == y ^ x) by (bit_vector);
}

} // verus!

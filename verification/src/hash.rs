//! Fingerprints: fixed-width values that address the tree, read as 64 nibbles.

use vstd::prelude::*;

verus! {

/// Number of bytes in a fingerprint.
pub const HASH_LENGTH: usize = 32;

/// Number of nibbles in a fingerprint, which is also the greatest depth of a node.
pub const NIBBLE_LENGTH: usize = 64;

/// The nibble at position `i` of a byte string: the high half of a byte comes first.
pub open spec fn nibble_of(bytes: Seq<u8>, i: int) -> u8 {
    if i % 2 == 0 {
        bytes[i / 2] >> 4
    } else {
        bytes[i / 2] & 0x0f
    }
}

/// Strict lexicographic order on nibble strings: `a` and `b` agree up to some
/// position at which `a` holds the smaller nibble.
pub open spec fn fp_lt(a: Seq<u8>, b: Seq<u8>) -> bool {
    exists|i: int|
        #![trigger a[i]]
        0 <= i < a.len() && i < b.len() && a[i] < b[i] && forall|j: int|
            0 <= j < i ==> a[j] == b[j]
}

/// `prefix` is an initial segment of `s`.
pub open spec fn has_prefix(s: Seq<u8>, prefix: Seq<u8>) -> bool {
    prefix.len() <= s.len() && forall|j: int| 0 <= j < prefix.len() ==> s[j] == prefix[j]
}

/// A 256-bit fingerprint. It names a node in the store, and it is the path
/// under which a key is filed in the tree.
#[derive(Clone, Copy, Debug)]
pub struct HashValue {
    hash: [u8; HASH_LENGTH],
}

impl HashValue {
    /// The bytes of the fingerprint.
    pub closed spec fn bytes(self) -> Seq<u8> {
        self.hash@
    }

    /// The fingerprint as 64 nibbles, most significant first.
    pub open spec fn nibbles(self) -> Seq<u8> {
        Seq::new(64, |i: int| nibble_of(self.bytes(), i))
    }

    /// The order of fingerprints: lexicographic on their nibbles.
    pub open spec fn spec_lt(self, other: Self) -> bool {
        fp_lt(self.nibbles(), other.nibbles())
    }

    /// A fingerprint is its bytes: two fingerprints with the same bytes are equal.
    pub proof fn lemma_bytes_injective(self, other: Self)
        requires
            self.bytes() == other.bytes(),
        ensures
            self == other,
    {
        assert(self.hash =~= other.hash);
    }

    /// The fingerprint with the given bytes.
    pub fn new(hash: [u8; HASH_LENGTH]) -> (h: Self)
        ensures
            h.bytes() == hash@,
    {
        HashValue { hash }
    }

    /// The fingerprint whose bytes are all zero: the least of all.
    pub fn zero() -> (h: Self)
        ensures
            h.bytes() == Seq::new(32, |i: int| 0u8),
            forall|other: HashValue| !other.spec_lt(h),
    {
        let h = HashValue { hash: [0u8; HASH_LENGTH] };
        assert(h.bytes() =~= Seq::new(32, |i: int| 0u8));
        assert forall|other: HashValue| !other.spec_lt(h) by {
            if other.spec_lt(h) {
                let a = other.nibbles();
                let b = h.nibbles();
                let i = choose|i: int|
                    #![trigger a[i]]
                    0 <= i < a.len() && i < b.len() && a[i] < b[i] && forall|j: int|
                        0 <= j < i ==> a[j] == b[j];
                assert(0u8 >> 4 == 0u8) by (bit_vector);
                assert(0u8 & 0x0f == 0u8) by (bit_vector);
                assert(b[i] == 0);
            }
        }
        h
    }

    /// The bytes of the fingerprint.
    pub fn to_bytes(&self) -> (bytes: [u8; HASH_LENGTH])
        ensures
            bytes@ == self.bytes(),
    {
        self.hash
    }

    /// The nibble at position `index`, counted from the most significant one.
    pub fn nibble(&self, index: usize) -> (n: u8)
        requires
            index < NIBBLE_LENGTH,
        ensures
            n == self.nibbles()[index as int],
            n < 16,
    {
        let byte = self.hash[index / 2];
        assert(byte >> 4 < 16) by (bit_vector);
        assert(byte & 0x0f < 16) by (bit_vector);
        if index % 2 == 0 {
            byte >> 4
        } else {
            byte & 0x0f
        }
    }

    /// Whether `self` comes strictly before `other` in the order of fingerprints.
    pub fn lt(&self, other: &HashValue) -> (less: bool)
        ensures
            less == self.spec_lt(*other),
    {
        let mut i: usize = 0;
        while i < HASH_LENGTH
            invariant
                i <= HASH_LENGTH,
                forall|j: int| 0 <= j < i ==> self.hash@[j] == other.hash@[j],
            decreases HASH_LENGTH - i,
        {
            let x = self.hash[i];
            let y = other.hash[i];
            if x != y {
                proof {
                    lemma_first_difference(*self, *other, i as int);
                }
                return x < y;
            }
            i += 1;
        }
        proof {
            lemma_equal_not_lt(self.nibbles(), other.nibbles());
        }
        false
    }
}

impl PartialEq for HashValue {
    /// Whether two fingerprints are the same.
    fn eq(&self, other: &HashValue) -> (same: bool) {
        let mut i: usize = 0;
        while i < HASH_LENGTH
            invariant
                i <= HASH_LENGTH,
                forall|j: int| 0 <= j < i ==> self.hash@[j] == other.hash@[j],
            decreases HASH_LENGTH - i,
        {
            if self.hash[i] != other.hash[i] {
                return false;
            }
            i += 1;
        }
        proof {
            assert(self.bytes() =~= other.bytes());
            self.lemma_bytes_injective(*other);
        }
        true
    }
}

impl Eq for HashValue {

}

impl vstd::std_specs::cmp::PartialEqSpecImpl for HashValue {
    open spec fn obeys_eq_spec() -> bool {
        true
    }

    open spec fn eq_spec(&self, other: &HashValue) -> bool {
        *self == *other
    }
}

/// Nothing is below a string that it agrees with everywhere.
pub proof fn lemma_equal_not_lt(a: Seq<u8>, b: Seq<u8>)
    requires
        a.len() == b.len(),
        forall|j: int| 0 <= j < a.len() ==> a[j] == b[j],
    ensures
        !fp_lt(a, b),
{
}

/// The lexicographic order is irreflexive and asymmetric.
pub proof fn lemma_lt_asymmetric(a: Seq<u8>, b: Seq<u8>)
    requires
        fp_lt(a, b),
    ensures
        !fp_lt(b, a),
{
    let i = choose|i: int|
        #![trigger a[i]]
        0 <= i < a.len() && i < b.len() && a[i] < b[i] && forall|j: int|
            0 <= j < i ==> a[j] == b[j];
    if fp_lt(b, a) {
        let k = choose|k: int|
            #![trigger b[k]]
            0 <= k < b.len() && k < a.len() && b[k] < a[k] && forall|j: int|
                0 <= j < k ==> b[j] == a[j];
        if k < i {
            assert(a[k] == b[k]);
        } else if i < k {
            assert(b[i] == a[i]);
        }
    }
}

/// Two strings that agree before position `i` are ordered as their nibbles at `i` are.
pub proof fn lemma_lt_at(a: Seq<u8>, b: Seq<u8>, i: int)
    requires
        0 <= i < a.len(),
        i < b.len(),
        forall|j: int| 0 <= j < i ==> a[j] == b[j],
        a[i] < b[i],
    ensures
        fp_lt(a, b),
        !fp_lt(b, a),
{
    lemma_lt_asymmetric(a, b);
}

/// Every nibble of a fingerprint is below sixteen.
pub proof fn lemma_nibbles_small(h: HashValue, i: int)
    requires
        0 <= i < 64,
    ensures
        h.nibbles()[i] < 16,
{
    let byte = h.bytes()[i / 2];
    assert(byte >> 4 < 16) by (bit_vector);
    assert(byte & 0x0f < 16) by (bit_vector);
}

/// The first byte at which two fingerprints differ decides their order.
proof fn lemma_first_difference(a: HashValue, b: HashValue, i: int)
    requires
        0 <= i < 32,
        forall|j: int| 0 <= j < i ==> a.bytes()[j] == b.bytes()[j],
        a.bytes()[i] != b.bytes()[i],
    ensures
        a.spec_lt(b) == (a.bytes()[i] < b.bytes()[i]),
{
    let x = a.bytes()[i];
    let y = b.bytes()[i];
    let an = a.nibbles();
    let bn = b.nibbles();
    assert(x < y ==> (x >> 4 < y >> 4) || (x >> 4 == y >> 4 && x & 0x0f < y & 0x0f))
        by (bit_vector);
    assert(y < x ==> (y >> 4 < x >> 4) || (y >> 4 == x >> 4 && y & 0x0f < x & 0x0f))
        by (bit_vector);
    assert forall|j: int| 0 <= j < 2 * i implies an[j] == bn[j] by {
        assert(a.bytes()[j / 2] == b.bytes()[j / 2]);
    }
    assert(an[2 * i] == x >> 4);
    assert(an[2 * i + 1] == x & 0x0f);
    assert(bn[2 * i] == y >> 4);
    assert(bn[2 * i + 1] == y & 0x0f);
    if x < y {
        if x >> 4 < y >> 4 {
            lemma_lt_at(an, bn, 2 * i);
        } else {
            lemma_lt_at(an, bn, 2 * i + 1);
        }
    } else {
        if y >> 4 < x >> 4 {
            lemma_lt_at(bn, an, 2 * i);
        } else {
            lemma_lt_at(bn, an, 2 * i + 1);
        }
    }
}

} // verus!

//! Facts about 16-bit bitmaps that record which of sixteen slots are taken.

use vstd::prelude::*;
use vstd::std_specs::bits::{
    axiom_u16_leading_zeros, axiom_u16_trailing_zeros, u16_leading_zeros, u16_trailing_zeros,
};

verus! {

/// Bit `k` of `bitmap` is set. No bit is set outside `0..16`.
pub open spec fn bit_is_set(bitmap: u16, k: int) -> bool {
    0 <= k < 16 && (bitmap >> (k as u16)) & 1u16 == 1u16
}

/// The bitmap with only bit `k` set.
pub open spec fn single_bit(k: int) -> u16 {
    1u16 << (k as u16)
}

/// No bit is set in the empty bitmap, and a bitmap with a set bit is not empty.
pub proof fn lemma_empty_bitmap(bitmap: u16)
    ensures
        bitmap == 0 <==> forall|k: int| 0 <= k < 16 ==> !bit_is_set(bitmap, k),
{
    if bitmap == 0 {
        assert forall|k: int| 0 <= k < 16 implies !bit_is_set(bitmap, k) by {
            let s = k as u16;
            assert((0u16 >> s) & 1u16 == 0u16) by (bit_vector);
        }
    } else {
        lemma_lowest_bit(bitmap);
        assert(bit_is_set(bitmap, u16_trailing_zeros(bitmap) as int));
    }
}

/// The number of trailing zeros of a bitmap that is not empty is its lowest set bit.
pub proof fn lemma_lowest_bit(bitmap: u16)
    requires
        bitmap != 0,
    ensures
        u16_trailing_zeros(bitmap) < 16,
        bit_is_set(bitmap, u16_trailing_zeros(bitmap) as int),
        forall|k: int| 0 <= k < u16_trailing_zeros(bitmap) ==> !bit_is_set(bitmap, k),
{
    axiom_u16_trailing_zeros(bitmap);
    let t = u16_trailing_zeros(bitmap);
    assert forall|k: int| 0 <= k < t implies !bit_is_set(bitmap, k) by {
        let j = k as u16;
        assert((bitmap >> j) & 1u16 == 0u16);
    }
}

/// Fifteen less the number of leading zeros of a bitmap that is not empty is
/// its highest set bit.
pub proof fn lemma_highest_bit(bitmap: u16)
    requires
        bitmap != 0,
    ensures
        u16_leading_zeros(bitmap) < 16,
        bit_is_set(bitmap, 15 - u16_leading_zeros(bitmap)),
        forall|k: int| 15 - u16_leading_zeros(bitmap) < k < 16 ==> !bit_is_set(bitmap, k),
{
    axiom_u16_leading_zeros(bitmap);
    let l = u16_leading_zeros(bitmap);
    let h = (15 - l) as u16;
    let top = (bitmap >> h) & 1u16;
    assert(top != 0u16 ==> top == 1u16) by (bit_vector)
        requires
            top == (bitmap >> h) & 1u16,
    ;
    assert forall|k: int| 15 - l < k < 16 implies !bit_is_set(bitmap, k) by {
        let j = k as u16;
        assert((bitmap >> j) & 1u16 == 0u16);
    }
}

/// A bitmap with a single bit set: which bit it is, and how the machine counts its zeros.
pub proof fn lemma_single_bit(c: int)
    requires
        0 <= c < 16,
    ensures
        single_bit(c) != 0,
        u16_trailing_zeros(single_bit(c)) == c,
        u16_leading_zeros(single_bit(c)) == 15 - c,
        forall|k: int| bit_is_set(single_bit(c), k) <==> k == c,
{
    let s = c as u16;
    let x = single_bit(c);
    assert(x != 0) by (bit_vector)
        requires
            s < 16,
            x == 1u16 << s,
    ;
    assert forall|k: int| bit_is_set(x, k) <==> k == c by {
        if 0 <= k < 16 {
            let j = k as u16;
            assert(((x >> j) & 1u16 == 1u16) <==> j == s) by (bit_vector)
                requires
                    s < 16,
                    j < 16,
                    x == 1u16 << s,
            ;
        }
    }
    lemma_lowest_bit(x);
    lemma_highest_bit(x);
}

/// Setting bit `i` changes bit `i` and no other.
pub proof fn lemma_set_bit(bitmap: u16, i: int, x: u16)
    requires
        0 <= i < 16,
        x == bitmap | single_bit(i),
    ensures
        forall|k: int| bit_is_set(x, k) <==> (k == i || bit_is_set(bitmap, k)),
{
    let s = i as u16;
    assert forall|k: int| bit_is_set(x, k) <==> (k == i || bit_is_set(bitmap, k)) by {
        if 0 <= k < 16 {
            let j = k as u16;
            assert(((x >> j) & 1u16 == 1u16) <==> (j == s || (bitmap >> j) & 1u16 == 1u16))
                by (bit_vector)
                requires
                    s < 16,
                    j < 16,
                    x == bitmap | (1u16 << s),
            ;
        }
    }
}

/// Masking a bitmap with a single bit tells whether that bit is set.
pub proof fn lemma_test_bit(bitmap: u16, i: int)
    requires
        0 <= i < 16,
    ensures
        (single_bit(i) & bitmap == 0) <==> !bit_is_set(bitmap, i),
{
    let s = i as u16;
    let x = single_bit(i);
    assert((x & bitmap == 0) <==> !((bitmap >> s) & 1u16 == 1u16)) by (bit_vector)
        requires
            s < 16,
            x == 1u16 << s,
    ;
}

/// Shifting a single bit left by one moves it to the next position.
pub proof fn lemma_shift_single_bit(i: int)
    requires
        0 <= i < 15,
    ensures
        single_bit(i) << 1u16 == single_bit(i + 1),
        single_bit(i) < 0x8000,
{
    let s = i as u16;
    let t = (i + 1) as u16;
    let x = single_bit(i);
    assert(x << 1u16 == 1u16 << t && x < 0x8000) by (bit_vector)
        requires
            s < 15,
            t == s + 1,
            x == 1u16 << s,
    ;
}

} // verus!

use jellyfish_iterator::hash::{HASH_LENGTH, NIBBLE_LENGTH};
use jellyfish_iterator::HashValue;

fn bytes_from(first: &[u8]) -> [u8; 32] {
    let mut bytes = [0u8; 32];
    bytes[..first.len()].copy_from_slice(first);
    bytes
}

#[test]
fn lengths_of_a_fingerprint() {
    assert_eq!(HASH_LENGTH, 32);
    assert_eq!(NIBBLE_LENGTH, 64);
    assert_eq!(NIBBLE_LENGTH, 2 * HASH_LENGTH);
}

#[test]
fn bytes_round_trip() {
    let mut bytes = [0u8; 32];
    for (i, byte) in bytes.iter_mut().enumerate() {
        *byte = (i as u8).wrapping_mul(7).wrapping_add(3);
    }
    assert_eq!(HashValue::new(bytes).to_bytes(), bytes);
}

#[test]
fn zero_is_all_zero_bytes() {
    assert_eq!(HashValue::zero().to_bytes(), [0u8; 32]);
    assert_eq!(HashValue::zero(), HashValue::new([0u8; 32]));
}

#[test]
fn nibbles_are_read_high_half_first() {
    let h = HashValue::new(bytes_from(&[0xab, 0x0c, 0xf0]));
    assert_eq!(h.nibble(0), 0xa);
    assert_eq!(h.nibble(1), 0xb);
    assert_eq!(h.nibble(2), 0x0);
    assert_eq!(h.nibble(3), 0xc);
    assert_eq!(h.nibble(4), 0xf);
    assert_eq!(h.nibble(5), 0x0);
    assert_eq!(h.nibble(6), 0x0);
}

#[test]
fn last_nibble_is_low_half_of_last_byte() {
    let mut bytes = [0u8; 32];
    bytes[31] = 0x9e;
    let h = HashValue::new(bytes);
    assert_eq!(h.nibble(62), 0x9);
    assert_eq!(h.nibble(63), 0xe);
}

#[test]
fn equality_is_equality_of_bytes() {
    let a = HashValue::new(bytes_from(&[1, 2, 3]));
    let b = HashValue::new(bytes_from(&[1, 2, 3]));
    let mut other = bytes_from(&[1, 2, 3]);
    other[31] = 1;
    assert_eq!(a, b);
    assert_ne!(a, HashValue::new(other));
    assert_ne!(a, HashValue::new(bytes_from(&[1, 2, 4])));
}

#[test]
fn order_is_decided_by_first_differing_nibble() {
    let low = HashValue::new(bytes_from(&[0x12, 0x34]));
    let high_half = HashValue::new(bytes_from(&[0x22, 0x00]));
    let low_half = HashValue::new(bytes_from(&[0x13, 0x00]));
    assert!(low.lt(&high_half));
    assert!(!high_half.lt(&low));
    assert!(low.lt(&low_half));
    assert!(!low_half.lt(&low));
    assert!(low_half.lt(&high_half));
}

#[test]
fn order_looks_past_equal_bytes() {
    let mut a = [0x55u8; 32];
    let mut b = [0x55u8; 32];
    a[31] = 0x54;
    assert!(HashValue::new(a).lt(&HashValue::new(b)));
    assert!(!HashValue::new(b).lt(&HashValue::new(a)));
    b[30] = 0x45;
    assert!(HashValue::new(b).lt(&HashValue::new(a)));
}

#[test]
fn nothing_is_before_itself() {
    let a = HashValue::new([0x7fu8; 32]);
    assert!(!a.lt(&a));
    assert!(!HashValue::zero().lt(&HashValue::zero()));
}

#[test]
fn zero_is_least_and_all_ones_greatest() {
    let most = HashValue::new([0xffu8; 32]);
    let some = HashValue::new(bytes_from(&[0x00, 0x01]));
    assert!(HashValue::zero().lt(&some));
    assert!(!some.lt(&HashValue::zero()));
    assert!(some.lt(&most));
    assert!(!most.lt(&some));
}

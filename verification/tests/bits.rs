use garbled_circuits::blocks::{eq, get_lsb, set_lsb, xor_blocks};
use garbled_circuits::util::{bits_to_u64, bits_to_u8, u64_to_bits, u8_to_bits};
use rand::RngCore;

#[test]
fn test_u64_conversion() {
    assert_eq!(bits_to_u64(&u64_to_bits(3248)), 3248);
}

#[test]
fn test_u8_conversion() {
    assert_eq!(bits_to_u8(&u8_to_bits(123)), 123);
}

#[test]
fn test_u64_bit_order() {
    // Little-endian bit order: bit 0 first.
    let bits = u64_to_bits(1);
    assert!(bits[0]);
    for i in 1..64 {
        assert!(!bits[i]);
    }
    let bits = u64_to_bits(6);
    assert!(!bits[0] && bits[1] && bits[2] && !bits[3]);
}

#[test]
fn test_u8_bit_order() {
    // Big-endian bit order: bit 7 first.
    let bits = u8_to_bits(1);
    for i in 0..7 {
        assert!(!bits[i]);
    }
    assert!(bits[7]);
    assert_eq!(bits_to_u8(&vec![true, false, false, false, false, false, false, false]), 128);
}

#[test]
fn test_lsb() {
    let mut s = vec![8, 9, 10];
    set_lsb(&mut s, true);
    assert_eq!(get_lsb(&s), true);
    set_lsb(&mut s, false);
    assert_eq!(get_lsb(&s), false);
}

#[test]
fn test_set_lsb_preserves_other_bits() {
    // Clearing the low bit must keep bits 1..7 of byte 0 and all other bytes.
    let mut s = vec![0xabu8, 0xcd, 0xef];
    set_lsb(&mut s, false);
    assert_eq!(s, vec![0xaau8, 0xcd, 0xef]);
    set_lsb(&mut s, true);
    assert_eq!(s, vec![0xabu8, 0xcd, 0xef]);
}

#[test]
fn test_xor_blocks() {
    let mut a = [0u8; 16];
    let mut b = [0u8; 16];

    rand::thread_rng().fill_bytes(&mut a);
    rand::thread_rng().fill_bytes(&mut b);

    let av = a.to_vec();
    let bv = b.to_vec();
    let c = xor_blocks(&av, &bv);

    for i in 0..av.len() {
        assert_eq!(av[i] ^ bv[i], c[i]);
    }
}

#[test]
fn test_eq_bytes() {
    assert!(eq(&vec![1, 2, 3], &vec![1, 2, 3]));
    assert!(!eq(&vec![1, 2, 3], &vec![1, 2, 4]));
    assert!(!eq(&vec![1, 2], &vec![1, 2, 3]));
    assert!(eq(&vec![], &vec![]));
}

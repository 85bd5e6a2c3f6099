use kh940::nibble::Nibble;
use kh940::util::{bits_to_bytes, from_bcd, from_nibbles, nibble_bits, padding, to_bcd, to_nibbles};

#[test]
fn divide_byte() {
    let byte = 0x3d;
    let (n1, n2) = Nibble::divide_byte(byte);

    assert_eq!(n1, Nibble::new(0x3));
    assert_eq!(n2, Nibble::new(0xd));
}

#[test]
fn combine_nibbles() {
    let n1 = Nibble::new(0x3);
    let n2 = Nibble::new(0xd);

    let byte = Nibble::combine_nibbles(n1, n2);
    assert_eq!(byte, 0x3d);
}

#[test]
fn test_nibble_bits() {
    assert_eq!(
        nibble_bits(&vec![Nibble::new(1), Nibble::new(2)]),
        vec![false, false, false, true, false, false, true, false]
    );
}

#[test]
fn test_to_nibbles() {
    assert_eq!(to_nibbles(&vec![0x3d]), vec![Nibble::new(3), Nibble::new(13)]);
}

#[test]
fn test_from_nibbles() {
    assert_eq!(from_nibbles(&vec![Nibble::new(3), Nibble::new(13)]), vec![0x3d]);
}

#[test]
fn test_from_bcd() {
    assert_eq!(
        from_bcd(&vec![Nibble::new(1), Nibble::new(2), Nibble::new(3)]),
        123
    );
}

#[test]
fn test_to_bcd() {
    assert_eq!(
        to_bcd(123, 0),
        vec![Nibble::new(1), Nibble::new(2), Nibble::new(3)]
    );
    assert_eq!(
        to_bcd(12, 5),
        vec![
            Nibble::new(0),
            Nibble::new(0),
            Nibble::new(0),
            Nibble::new(1),
            Nibble::new(2),
        ]
    );
}

#[test]
fn test_bits_to_bytes() {
    assert_eq!(
        bits_to_bytes(&vec![false, false, true, false, false, true, false, true]),
        vec![0x25]
    );
}

#[test]
fn test_padding() {
    assert_eq!(padding(3, 4), 1);
    assert_eq!(padding(4, 4), 0);
}

#[test]
fn nibble_round_trip_all_bytes() {
    for b in 0..=255u8 {
        let (hi, lo) = Nibble::divide_byte(b);
        assert_eq!(Nibble::combine_nibbles(hi, lo), b);
    }
}

#[test]
fn nibbles_round_trip_bytes() {
    let bytes = vec![0x00, 0x13, 0x7f, 0x80, 0xff, 0xa5];
    assert_eq!(from_nibbles(&to_nibbles(&bytes)), bytes);
}

#[test]
fn bcd_round_trip_with_padding() {
    for n in [0u16, 1, 9, 10, 42, 900, 999, 9999] {
        for w in [0u16, 1, 3, 4, 6] {
            assert_eq!(from_bcd(&to_bcd(n, w)), n);
        }
    }
}

#[test]
fn bits_to_bytes_round_trip() {
    let bytes = vec![0x00, 0xff, 0x25, 0x80, 0x01];
    let mut bits = Vec::new();
    for b in &bytes {
        for k in 0..8 {
            bits.push((b >> (7 - k)) & 1 == 1);
        }
    }
    assert_eq!(bits_to_bytes(&bits), bytes);
}

#[test]
fn padding_is_remainder_to_alignment() {
    for n in 0..40usize {
        for a in 1..8usize {
            let p = padding(n, a);
            assert!(p < a);
            assert_eq!((n + p) % a, 0);
        }
    }
}

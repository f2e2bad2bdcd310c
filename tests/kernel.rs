use mhd_mem::{
    align_to, align_to_at, distance, distance_aligned, distance_fast, get_bit, naive, put_bit,
    truncated_distance, weight, DistanceError,
};

#[test]
fn test_get_and_put_bit() {
    let mut buncha_bits = vec![0u8; 8]; // 64 bits
    assert!(!get_bit(&buncha_bits, 0));
    assert!(!get_bit(&buncha_bits, 7));
    assert!(!get_bit(&buncha_bits, 21));
    assert!(!get_bit(&buncha_bits, 28));
    assert!(!get_bit(&buncha_bits, 63));

    put_bit(&mut buncha_bits, 0, true);
    put_bit(&mut buncha_bits, 42, true);
    put_bit(&mut buncha_bits, 63, true);
    assert!(get_bit(&buncha_bits, 0));
    assert!(get_bit(&buncha_bits, 42));
    assert!(get_bit(&buncha_bits, 63));

    put_bit(&mut buncha_bits, 0, false);
    put_bit(&mut buncha_bits, 42, false);
    put_bit(&mut buncha_bits, 63, false);
    assert!(!get_bit(&buncha_bits, 0));
    assert!(!get_bit(&buncha_bits, 42));
    assert!(!get_bit(&buncha_bits, 63));
}

#[test]
fn bits_are_most_significant_first() {
    let mut bytes = vec![0u8; 2];
    put_bit(&mut bytes, 0, true);
    assert_eq!(bytes, vec![0x80, 0x00]);
    put_bit(&mut bytes, 9, true);
    assert_eq!(bytes, vec![0x80, 0x40]);
    assert!(get_bit(&[0x01], 7));
    assert!(!get_bit(&[0x01], 0));
}

fn align_to_test(
    from: usize,
    to: usize,
    true_head: &[u8],
    true_le_middle: &[u32],
    true_tail: &[u8],
) {
    let true_middle = true_le_middle
        .iter()
        .map(|x| u32::from_le(*x))
        .collect::<Vec<_>>();

    let array_and_tuple = (0u64, [0u8, 1, 2, 3, 4, 5, 6, 7, 8, 9]);
    let array = &array_and_tuple.1;
    // the array should be aligned appropriately
    assert!((array.as_ptr() as usize) % 4 == 0);

    let (head, middle, tail) = align_to(&array[from..to]);
    assert_eq!(head, true_head);
    assert_eq!(middle, true_middle);
    assert_eq!(tail, true_tail);
}

#[test]
fn align_to_empty() {
    align_to_test(0, 0, &[], &[], &[]);
    align_to_test(1, 1, &[], &[], &[]);
    align_to_test(2, 2, &[], &[], &[]);
    align_to_test(3, 3, &[], &[], &[]);
}

#[test]
fn align_to_short() {
    align_to_test(0, 1, &[0], &[], &[]);
    align_to_test(1, 2, &[1], &[], &[]);
    align_to_test(2, 3, &[2], &[], &[]);
    align_to_test(3, 4, &[3], &[], &[]);

    align_to_test(0, 2, &[0, 1], &[], &[]);
    align_to_test(1, 3, &[1, 2], &[], &[]);
    align_to_test(2, 4, &[2, 3], &[], &[]);
    align_to_test(3, 5, &[3, 4], &[], &[]);

    align_to_test(0, 3, &[0, 1, 2], &[], &[]);
    align_to_test(1, 4, &[1, 2, 3], &[], &[]);
    align_to_test(2, 5, &[2, 3, 4], &[], &[]);
    align_to_test(3, 6, &[3, 4, 5], &[], &[]);
}

#[test]
fn align_to_exact() {
    align_to_test(0, 4, &[], &[0x03020100], &[]);
    align_to_test(0, 8, &[], &[0x03020100, 0x07060504], &[]);
}

#[test]
fn align_to_offset() {
    align_to_test(1, 5, &[1, 2, 3, 4], &[], &[]);
    align_to_test(2, 6, &[2, 3, 4, 5], &[], &[]);
    align_to_test(3, 7, &[3, 4, 5, 6], &[], &[]);
    align_to_test(1, 7, &[1, 2, 3, 4, 5, 6], &[], &[]);
}

#[test]
fn align_to_overlap() {
    align_to_test(0, 10, &[], &[0x03020100, 0x07060504], &[8, 9]);
    align_to_test(0, 5, &[], &[0x03020100], &[4]);

    align_to_test(1, 8, &[1, 2, 3], &[0x07060504], &[]);
    align_to_test(3, 9, &[3], &[0x07060504], &[8]);
}

#[test]
fn align_to_at_given_address() {
    let bytes = [0u8, 1, 2, 3, 4, 5, 6, 7, 8, 9];
    let (head, middle, tail) = align_to_at(&bytes, 2);
    assert_eq!(head, &[0u8, 1][..]);
    assert_eq!(middle, vec![0x05040302u32, 0x09080706]);
    assert_eq!(tail, &[] as &[u8]);
    let (head, middle, tail) = align_to_at(&bytes[..9], 1);
    assert_eq!(head, &[0u8, 1, 2][..]);
    assert_eq!(middle, vec![0x06050403u32]);
    assert_eq!(tail, &[7u8, 8][..]);
}

#[test]
fn distance__naive_smoke() {
    let tests: &[(&[u8], &[u8], &[u8], u64)] = &[
        (&[], &[], &[], 0),
        (&[0], &[0], &[0], 0),
        (&[0x0F], &[0], &[0xFF], 4),
        (&[0b11111111], &[0b10101010], &[0b01010101], 8),
        (&[0b11111111], &[0b11111010], &[0b11110101], 4),
        (&[0b00001111], &[0b11111010], &[0b11110101], 4),
        (&[0; 10], &[0; 10], &[0; 10], 0),
        (&[0xFF; 10], &[0xFF; 10], &[0x0F; 10], 4 * 10),
        (&[0x0F; 10], &[0xFF; 10], &[0x0F; 10], 0),
        (&[0xFF; 10000], &[0x3B; 10000], &[0x3B; 10000], 0),
        (&[0xFF; 10000], &[0x77; 10000], &[0x3B; 10000], 3 * 10000),
        (&[0x00; 10000], &[0x77; 10000], &[0x3B; 10000], 0),
    ];
    for &(mask, x, y, expected) in tests {
        assert_eq!(naive(mask, x, y), expected);
        assert_eq!(distance(mask, x, y), expected);
    }
}

#[test]
fn distance_fast_smoke_huge() {
    let m = vec![0b1111_1111; 10234567];
    let v = vec![0b1001_1101; 10234567];
    let w = vec![0b1111_1111; v.len()];

    assert_eq!(distance_fast(&m, &v, &v).unwrap(), 0);
    assert_eq!(distance_fast(&m, &v, &w).unwrap(), 3 * w.len() as u64);
}

#[test]
fn distance_smoke() {
    let m = vec![0xFF; 10000];
    let v = vec![0; m.len()];
    let w = vec![0xFF; v.len()];
    for len_ in 0..99 {
        let len = len_ * 10;
        for i in 0..8 {
            for j in 0..8 {
                assert_eq!(
                    distance(&m[i..i + len], &v[i..i + len], &w[j..j + len]),
                    len as u64 * 8
                )
            }
        }
    }
}

#[test]
fn truncate_distance_smoke() {
    let size = 4 * 1024 * 1024; // number of bytes in vectors
    let v1 = vec![0xF0; size];
    let v2 = vec![0xFF; size]; // so, v1 ^ v2 = 0x0F = 4 bits / byte

    let num_bytes = (size - 2048) + 512 + 3;
    let num_bits = (8 * num_bytes) + 6;
    let d0 = (num_bits / 2) - 1; // -1 because of incomplete last byte
    let d1 = truncated_distance(num_bits, &v1, &v2);
    assert_eq!(d0, d1);

    let other_bits = (8 * (size - 1)) + 6;
    let d2 = (other_bits / 2) - 1; // -1 because of incomplete last byte
    let d3 = truncated_distance(other_bits, &v1, &v2);
    assert_eq!(d2, d3);

    // simple comparison using ALL bits
    let d4 = size * 4;
    let d5 = truncated_distance(8 * size, &v1, &v2);
    assert_eq!(d4, d5);
}

#[test]
fn weight_and_distance_examples() {
    assert_eq!(weight(&[0x01, 0xFF, 0x01, 0xFF]), 18);
    assert_eq!(distance(&[0xFF, 0xFF], &[0x01, 0xFF], &[0xFF, 0x01]), 14);
    assert_eq!(weight(&[]), 0);
}

#[test]
fn distance_to_self_is_zero_and_full_mask_is_hamming() {
    let a = [0x12u8, 0x34, 0x56, 0x78, 0x9A];
    let b = [0xFFu8, 0x00, 0x0F, 0xF0, 0x55];
    let mask = [0xA5u8, 0x5A, 0xFF, 0x00, 0x3C];
    assert_eq!(distance(&mask, &a, &a), 0);
    let xor: Vec<u8> = a.iter().zip(b.iter()).map(|(x, y)| x ^ y).collect();
    assert_eq!(distance(&[0xFF; 5], &a, &b), weight(&xor));
    assert_eq!(distance(&[0xFF; 5], &a, &b), 21);
}

#[test]
fn truncated_distance_is_prefix_masked_distance() {
    let l = vec![0xF0u8; 2];
    let r = vec![0x0Fu8; 2];
    assert_eq!(truncated_distance(14, &l, &r), 14);
    assert_eq!(truncated_distance(14, &l, &r) as u64, distance(&[0xFF, 0xFC], &l, &r));
    assert_eq!(truncated_distance(0, &l, &r), 0);
    assert_eq!(truncated_distance(3, &[0b1010_0000], &[0]), 2);
}

#[test]
fn distance_fast_errors() {
    assert_eq!(
        distance_fast(&[0xFF], &[0xFF, 0], &[0xFF]),
        Err(DistanceError::ArgumentMismatch)
    );
    // the same buffer lengths at offsets 1, 1 and 2 from a word boundary
    let m = [0xFFu8; 40];
    assert_eq!(
        distance_aligned(&m, &m, &m, 1, 1, 2),
        Err(DistanceError::AlignmentMismatch)
    );
    assert_eq!(distance_aligned(&m, &m, &[0u8; 40], 3, 3, 3), Ok(320));
}

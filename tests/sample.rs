use mhd_mem::{Sample, ScoreType, ZERO_SCORE};

#[test]
fn test_for_evcxr() {
    pub struct TestArray<T, const LENGTH: usize> {
        pub list: [T; LENGTH],
    }

    let test_array = TestArray::<u8, 42> { list: [0u8; 42] };

    assert_eq!(test_array.list.len(), 42);
}

#[test]
fn sample_test_constructors() {
    const NUM_TEST_BITS: usize = 64;
    let r = Sample::new(NUM_TEST_BITS, ZERO_SCORE);
    assert_eq!(r.bytes[0], 0); // should be 0
    assert_eq!(r.bytes[7], 0); // should be 0
    assert_eq!(r.score, ZERO_SCORE); // should be 0
    assert_eq!(r.size(), NUM_TEST_BITS);

    let s = Sample::new(NUM_TEST_BITS, 42);
    assert_eq!(s.score, 42 as ScoreType); // should NOT be 0
    assert!(r.score != s.score);
    assert!(r.bytes.eq(&s.bytes));

    let q = Sample::random(NUM_TEST_BITS);
    assert_ne!(q, r); // with very high probability

    let t = Sample::new_ones(NUM_TEST_BITS, ZERO_SCORE);
    assert_eq!(t.bytes[0], 0xFF);
    assert_eq!(t.bytes[3], 0xff);
    assert_eq!(t.bytes[7], 0xFF);

    const MORE_TEST_BITS: usize = NUM_TEST_BITS + 4; // = 68
    const MORE_TEST_BYTES: usize = (MORE_TEST_BITS / 8) + 1; // = 9
    let u = Sample::new_ones(MORE_TEST_BITS, ZERO_SCORE);
    assert_eq!(MORE_TEST_BITS, u.size());
    assert_eq!(MORE_TEST_BYTES, u.size_in_bytes());

    let d = Sample::default();
    assert_eq!(d.score, ZERO_SCORE);
    assert_eq!(d.size(), 0);
    assert_eq!(Sample::new(120, 42).get_bit(7), false);
}

#[test]
fn sample_test_methods() {
    const NUM_TEST_BITS: usize = 64;
    let mut row1 = Sample::new(NUM_TEST_BITS, ZERO_SCORE);
    assert_eq!(row1.get_bit(62), false); // should be 0
    row1.set_bit(62, true);
    assert!(row1.get_bit(62));
    assert_eq!(row1.bytes[7], 0x02);
    row1.set_bit(62, false);
    assert!(!row1.get_bit(62));
    assert_eq!(Sample::byte_index(62), 7);
}

#[test]
fn sample_test_randomization() {
    const NUM_TEST_BITS: usize = 1000; // not always a power of two...
    let starting_point = Sample::new(NUM_TEST_BITS, ZERO_SCORE);
    let mut one_step = starting_point.clone();
    one_step.randomize();
    assert_ne!(starting_point, one_step);
    assert!(one_step.score <= 1000);

    let mut two_steps = one_step.clone();
    two_steps.randomize();
    assert_ne!(one_step, two_steps);

    let three_steps = Sample::random(NUM_TEST_BITS);
    assert_ne!(three_steps, starting_point);
    assert_ne!(two_steps, three_steps);

    let final_point = Sample::random(NUM_TEST_BITS);
    assert_ne!(three_steps, final_point);
}

#[test]
fn samples_compare_by_bytes_only() {
    let a = Sample::new(16, 1);
    let b = Sample::new(16, 2);
    assert_eq!(a, b);
    assert_eq!(Sample::bits_to_bytes(17), 3);
    assert_eq!(Sample::bits_to_bytes(16), 2);
}

#[test]
fn random_bits_beyond_the_width_are_zero() {
    for _ in 0..20 {
        let s = Sample::random(10);
        assert_eq!(s.bytes.len(), 2);
        assert_eq!(s.bytes[1] & 0x3F, 0);
        let t = Sample::random(16);
        assert_eq!(t.bytes.len(), 2);
    }
}

use mhd_mem::memory::{decide, ramp_of, PRIORITY_ONE};
use mhd_mem::{Exploration, MemoryError, MhdMemory, Sample, ScoreType, ZERO_SCORE};

#[test]
fn mhdmemory_test_one_random_write() {
    const NUM_BITS: usize = 256;
    let mut memory = MhdMemory::new(NUM_BITS);

    assert!(memory.is_empty());
    assert_eq!(0, memory.num_samples());
    assert_eq!(memory.width(), NUM_BITS);
    assert_eq!(ZERO_SCORE, memory.avg_score());

    memory.write_random_sample().unwrap();

    assert!(!memory.is_empty());
    assert_eq!(1, memory.num_samples());
    assert_eq!(memory.samples[0].size(), NUM_BITS);

    assert_eq!(memory.min_score, memory.max_score);
    assert_eq!(memory.min_score as u64, memory.total_score);
}

#[test]
fn mhdmemory_test_random_writes() {
    const NUM_BITS: usize = 64;
    const NUM_ROWS: usize = 64; // Must be at least four!!!
    const LOG_NUM_ROWS: usize = 6;

    assert!(4 < NUM_ROWS);

    let mut memory = MhdMemory::new(NUM_BITS);

    assert!(memory.is_empty());
    assert_eq!(memory.width(), NUM_BITS);

    memory.write_n_random_samples(NUM_ROWS).unwrap();

    assert!(!memory.is_empty());
    assert_eq!(NUM_ROWS, memory.num_samples());
    assert_eq!(memory.samples[0].size(), NUM_BITS);

    assert_ne!(memory.samples[0], memory.samples[1]);
    assert_ne!(memory.samples[1], memory.samples[2]);
    assert_ne!(memory.samples[2], memory.samples[3]);
    assert_ne!(memory.samples[NUM_ROWS - 1], memory.samples[NUM_ROWS - 2]);

    assert!(memory.min_score <= memory.avg_score());
    assert!(memory.avg_score() <= memory.max_score);
    assert_ne!(memory.min_score, memory.max_score);

    let avg_score = memory.avg_score();

    // Now, test reading!!!
    let zero_mask = &Sample::new(NUM_BITS, ZERO_SCORE);
    let ones_mask = &Sample::new_ones(NUM_BITS, ZERO_SCORE);

    let mut lucky_hits: usize = 0;
    for row in 0..NUM_ROWS {
        let zero_mask_score: ScoreType =
            memory.masked_read(&zero_mask.bytes, &memory.samples[row].bytes).unwrap();
        let ones_mask_score: ScoreType =
            memory.masked_read(&ones_mask.bytes, &memory.samples[row].bytes).unwrap();
        if zero_mask_score == ones_mask_score {
            lucky_hits += 1;
        };
        // Zero mask means everything is masked out, so distance is always zero, so we read the avg!
        assert_eq!(zero_mask_score, avg_score);
        assert!(memory.min_score <= ones_mask_score && ones_mask_score <= memory.max_score);
    }
    assert!(lucky_hits <= LOG_NUM_ROWS);
}

#[test]
fn mhdmemory_test_identical_writes() {
    const NUM_BITS: usize = 64;
    const NUM_ROWS: usize = 64; // Must be at least four!!!

    assert!(8 <= NUM_ROWS);

    let mut memory = MhdMemory::new(NUM_BITS);

    memory.write_n_random_samples(NUM_ROWS).unwrap();

    assert!(!memory.is_empty());
    assert_eq!(NUM_ROWS, memory.num_samples());

    let redundant_a = memory.samples[4].clone();
    let redundant_b = memory.samples[6].clone();

    assert_eq!(memory.write_sample(&redundant_a), Ok(false));
    assert_eq!(NUM_ROWS, memory.num_samples());

    assert_eq!(memory.write_sample(&redundant_b), Ok(false));
    assert_eq!(NUM_ROWS, memory.num_samples());

    memory.write_n_random_samples(NUM_ROWS).unwrap();
    assert_eq!(2 * NUM_ROWS, memory.num_samples());
}

#[test]
fn mhdmemory_test_read_for_decision() {
    const NUM_BITS: usize = 16;
    const NUM_ROWS: usize = 32; // Must be at least four!!!

    assert!(4 < NUM_ROWS);

    let mut memory = MhdMemory::new(NUM_BITS);

    memory.write_n_random_samples(NUM_ROWS).unwrap();

    assert!(memory.min_score <= memory.avg_score());
    assert!(memory.avg_score() <= memory.max_score);
    assert_ne!(memory.min_score, memory.max_score);

    // Now, test reading!!!
    let mut true_decisions = 0;
    let mut false_decisions = 0;
    let mut index: usize = 0;
    for row in 0..NUM_ROWS {
        let random_mask = &Sample::random(NUM_BITS);
        index = (index + 1) % NUM_BITS;
        let decision =
            memory.read_and_decide(&random_mask.bytes, &memory.samples[row].bytes, index, true).unwrap();
        if decision {
            true_decisions += 1
        } else {
            false_decisions += 1
        };
    }
    assert!(0 < true_decisions);
    assert!(0 < false_decisions);
    assert!(true_decisions < NUM_ROWS);
    assert!(false_decisions < NUM_ROWS);
}

fn sample_with(width: usize, bytes: &[u8], score: ScoreType) -> Sample {
    let mut s = Sample::new(width, score);
    s.bytes.copy_from_slice(bytes);
    s
}

#[test]
fn memory_summary_after_three_writes() {
    const NUM_BITS: usize = 356;
    let mut memory = MhdMemory::new(NUM_BITS);
    let mut row0 = Sample::random(NUM_BITS);
    row0.score = 3;
    let mut row1 = Sample::random(NUM_BITS);
    row1.score = 33;
    let mut row2 = Sample::random(NUM_BITS);
    row2.score = 333;
    assert_eq!(row0.size(), NUM_BITS);
    assert_eq!(row0.size_in_bytes(), 45);

    assert_eq!(memory.write_sample(&row2), Ok(true));
    assert_eq!(memory.write_sample(&row1), Ok(true));
    assert_eq!(memory.write_sample(&row0), Ok(true));
    assert_eq!(memory.write_sample(&row0), Ok(false));

    assert_eq!(memory.num_samples(), 3);
    assert_eq!(memory.total_score, 369);
    assert_eq!(memory.min_score, 3);
    assert_eq!(memory.max_score, 333);
    assert_eq!(memory.avg_score(), 123);

    // the same octets with another score are refused and change nothing
    let mut clash = row1.clone();
    clash.score = 3;
    assert_eq!(memory.write_sample(&clash), Err(MemoryError::InconsistentScore));
    assert_eq!(memory.num_samples(), 3);
    assert_eq!(memory.total_score, 369);

    // another width is refused
    assert_eq!(
        memory.write_sample(&Sample::new(8, 1)),
        Err(MemoryError::WidthMismatch)
    );
    assert_eq!(memory.num_samples(), 3);
}

#[test]
fn written_sample_is_found() {
    let mut memory = MhdMemory::new(16);
    let s = sample_with(16, &[0xAB, 0xCD], 7);
    assert!(memory.search(&s).is_none());
    memory.write_sample(&s).unwrap();
    let found = memory.search(&s).expect("just written");
    assert_eq!(found.bytes, vec![0xAB, 0xCD]);
    assert_eq!(found.score, 7);
    assert_eq!(memory.write_sample(&s), Ok(false));
    assert_eq!(memory.num_samples(), 1);
    memory.clear();
    assert!(memory.is_empty());
    assert_eq!(memory.width(), 16);
}

#[test]
fn masked_read_weights_by_distance() {
    let mut memory = MhdMemory::new(8);
    memory.write_sample(&sample_with(8, &[0b0000_0000], 10)).unwrap();
    memory.write_sample(&sample_with(8, &[0b1111_1111], 40)).unwrap();
    // zero mask: every distance is zero, the read is the average
    assert_eq!(memory.masked_read(&[0x00], &[0xFF]).unwrap(), 25);
    // full mask, query equal to the second sample: weights 1/9 and 1/1
    // (10 * 1/9 + 40) / (1/9 + 1) = 370 / 10 = 37
    assert_eq!(memory.masked_read(&[0xFF], &[0xFF]).unwrap(), 37);
    // query equal to the first sample: (10 + 40/9) / (10/9) is 13 in exact arithmetic;
    // the fixed-point weight 1/9 rounds down, which puts the mean just below 13
    assert_eq!(memory.masked_read(&[0xFF], &[0x00]).unwrap(), 12);
    let empty = MhdMemory::new(8);
    assert_eq!(empty.masked_read(&[0xFF], &[0x00]).unwrap(), 0);
}

#[test]
fn priorities_follow_hits() {
    let mut memory = MhdMemory::new(8);
    // two samples agree on the first seven bits with the query, differ in the last bit
    memory.write_sample(&sample_with(8, &[0b1010_1010], 100)).unwrap();
    memory.write_sample(&sample_with(8, &[0b1010_1011], 50)).unwrap();
    let mask = [0b1111_1110u8];
    let query = [0b1010_1010u8];
    let (p_false, p_true) = memory.read_2_priorities(&mask, &query, 7).unwrap();
    // both sides have one exact hit: exploitation only, no exploration bonus
    assert_eq!(p_false, PRIORITY_ONE);
    assert_eq!(p_true, PRIORITY_ONE / 2);
    assert!(memory.read_and_decide(&mask, &query, 7, false).unwrap() == false);
    assert!(memory.read_and_decide(&mask, &query, 7, false).unwrap() == false);

    // a side without exact hits gets the sentinel
    let far = [0b0101_0101u8];
    let (pf, pt) = memory.read_2_priorities(&[0xFF], &far, 0).unwrap();
    assert_eq!(pf, 100 * 1024 * PRIORITY_ONE);
    assert_eq!(pt, 100 * 1024 * PRIORITY_ONE);
}

#[test]
fn decide_is_deterministic_without_ties() {
    for draw in 0..10 {
        assert!(decide(1, 2, false, draw, false));
        assert!(!decide(3, 2, false, draw, true));
    }
    assert!(decide(5, 5, false, 0, true));
    assert!(!decide(5, 5, false, 0, false));
    assert!(decide(3, 2, true, 4, false) == false);
    assert!(decide(3, 2, true, 1, false));
    assert!(decide(0, 0, true, 0, true));
    assert!(!decide(0, 7, true, 7, false));
}

#[test]
fn exploration_choices() {
    let mut memory = MhdMemory::new(8);
    // one exact hit on each side
    memory.write_sample(&sample_with(8, &[0b1010_1010], 100)).unwrap();
    memory.write_sample(&sample_with(8, &[0b1010_1011], 100)).unwrap();
    let mask = [0b1111_1110u8];
    let query = [0b1010_1010u8];

    memory.exploration = Exploration::HitImbalance;
    assert_eq!(memory.read_2_priorities(&mask, &query, 7).unwrap(), (PRIORITY_ONE, PRIORITY_ONE));

    memory.exploration = Exploration::Ucb1;
    // ln 2 taken as floor(log2 2) ln 2; sqrt(ln 2 / 1) = 0.8326 in fixed point, times 113.14
    let root = mhd_mem::fixed::isqrt(726_817 * PRIORITY_ONE);
    let bonus = root * 113_137_085 / 1_000_000;
    assert_eq!(
        memory.read_2_priorities(&mask, &query, 7).unwrap(),
        (PRIORITY_ONE + bonus, PRIORITY_ONE + bonus)
    );

    memory.exploration = Exploration::WeightImbalance;
    memory.write_sample(&sample_with(8, &[0b1010_1000], 100)).unwrap(); // distance 1 on the false side
    let (p_false, p_true) = memory.read_2_priorities(&mask, &query, 7).unwrap();
    assert_eq!(p_false, PRIORITY_ONE);
    assert!(p_true > PRIORITY_ONE);
}

#[test]
fn reads_refuse_probes_of_another_width() {
    let mut memory = MhdMemory::new(16);
    memory.write_n_random_samples(4).unwrap();
    assert_eq!(memory.masked_read(&[0xFF], &[0x00]), Err(MemoryError::WidthMismatch));
    assert_eq!(
        memory.read_2_priorities(&[0xFF, 0xFF], &[0x00], 3),
        Err(MemoryError::WidthMismatch)
    );
    assert_eq!(
        memory.read_and_decide(&[0xFF, 0xFF, 0xFF], &[0, 0, 0], 3, false),
        Err(MemoryError::WidthMismatch)
    );
    assert!(memory.masked_read(&[0xFF, 0xFF], &[0x00, 0x00]).is_ok());
}

#[test]
fn ramp_weights_are_the_fixed_point_root() {
    // (1 - 1/2)^(1/2) = 0.7071..., in units of 2^20
    let r = ramp_of(1, 2);
    assert!(r * r / 0x10_0000 <= 0x10_0000 / 2);
    assert!((r + 1) * (r + 1) / 0x10_0000 > 0x10_0000 / 2);
    assert_eq!(r, 741455);
    // d == T gives zero; far from T the weight approaches one
    assert_eq!(ramp_of(3, 3), 0);
    assert!(ramp_of(1, 1000) > 0x10_0000 * 99 / 100);
    assert!(ramp_of(1, 4) > ramp_of(2, 4) && ramp_of(2, 4) > ramp_of(3, 4));
    assert_eq!(MhdMemory::new(8).multiplier, mhd_mem::DistanceMultiplier::Ramp);
}

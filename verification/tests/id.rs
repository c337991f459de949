use arky::id::{decode_id, IdError, IdGenerator, EdgeID, NodeID};

#[test]
fn generated_ids_increase_and_never_repeat() {
    let mut generator = IdGenerator::new(3);
    let ticks: [u64; 8] = [5, 5, 5, 6, 4, 4, 6, 7];
    let mut ids: Vec<u64> = Vec::new();
    for t in ticks.iter() {
        ids.push(generator.generate(*t).unwrap());
    }
    for i in 1..ids.len() {
        assert!(ids[i - 1] < ids[i]);
    }
    for i in 0..ids.len() {
        assert_ne!(ids[i], 0);
        for j in (i + 1)..ids.len() {
            assert_ne!(ids[i], ids[j]);
        }
    }
}

#[test]
fn same_tick_ids_differ_only_in_sequence() {
    let mut generator = IdGenerator::new(3);
    let a = generator.generate(5).unwrap();
    let b = generator.generate(5).unwrap();
    let (ts_a, inst_a, seq_a) = decode_id(a);
    let (ts_b, inst_b, seq_b) = decode_id(b);
    assert_eq!(ts_a, ts_b);
    assert_eq!(inst_a, inst_b);
    assert_eq!(inst_a, 3);
    assert_ne!(seq_a, seq_b);
}

#[test]
fn exhausted_tick_fails_with_clock_regression() {
    let mut generator = IdGenerator::new(0);
    // Fill the whole sequence space of one tick.
    for _ in 0..4096 {
        generator.generate(1).unwrap();
    }
    assert_eq!(generator.generate(1).unwrap_err(), IdError::ClockRegression);
    // A later tick recovers.
    assert!(generator.generate(2).is_ok());
}

#[test]
fn sentinel_is_reserved() {
    assert_eq!(NodeID::none(), NodeID(0));
    assert_eq!(EdgeID::none(), EdgeID(0));
    assert_eq!(NodeID::from(7u64), NodeID(7));
    assert_eq!(EdgeID::from(7u64), EdgeID(7));
}

#[test]
fn decode_id_splits_fields() {
    // 5 * 2^22 + 3 * 2^12 + 9
    let id: u64 = 5 * 4194304 + 3 * 4096 + 9;
    assert_eq!(decode_id(id), (5, 3, 9));
}

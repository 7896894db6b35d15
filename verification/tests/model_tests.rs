use ml::Error;
use ml::Model;

fn bits_rows(rows: &[&[f32]]) -> Vec<Vec<u32>> {
    rows.iter().map(|r| r.iter().map(|x| x.to_bits()).collect()).collect()
}

fn bits_vec(v: &[f32]) -> Vec<u32> {
    v.iter().map(|x| x.to_bits()).collect()
}

#[test]
fn checkpoint_round_trip() {
    let w = bits_rows(&[&[0.5, -1.25], &[3.75, 0.0]]);
    let b = bits_vec(&[1.0, -2.0]);
    let m = Model::from_parts(w.clone(), b.clone(), 2).unwrap();
    let encoded = m.serialize();
    let m2 = Model::deserialize(&encoded).unwrap();
    assert_eq!(m2.output_count(), 2);
    assert_eq!(m2.input_count(), 2);
    assert_eq!(m2.weights(), &w);
    assert_eq!(m2.biases(), &b);
    for (row, row2) in w.iter().zip(m2.weights().iter()) {
        for (x, y) in row.iter().zip(row2.iter()) {
            assert_eq!(f32::from_bits(*x), f32::from_bits(*y));
        }
    }
}

#[test]
fn serialize_exact_bytes() {
    let m = Model::from_parts(vec![vec![1.0f32.to_bits()]], vec![2.0f32.to_bits()], 1).unwrap();
    let encoded = m.serialize();
    assert_eq!(
        encoded,
        vec![0, 0, 0, 1, 0, 0, 0, 1, 0x3f, 0x80, 0, 0, 0x40, 0, 0, 0]
    );
}

#[test]
fn deserialize_exact_bytes() {
    let bytes = vec![
        0, 0, 0, 1, // one row
        0, 0, 0, 2, // two columns
        0x3f, 0x80, 0, 0, // 1.0
        0xbf, 0x80, 0, 0, // -1.0
        0x40, 0x40, 0, 0, // 3.0
    ];
    let m = Model::deserialize(&bytes).unwrap();
    assert_eq!(m.output_count(), 1);
    assert_eq!(m.input_count(), 2);
    assert_eq!(f32::from_bits(m.weights()[0][0]), 1.0);
    assert_eq!(f32::from_bits(m.weights()[0][1]), -1.0);
    assert_eq!(f32::from_bits(m.biases()[0]), 3.0);
}

#[test]
fn deserialize_rejects_corrupt_streams() {
    assert!(matches!(Model::deserialize(&[]), Err(Error::CorruptCheckpoint)));
    assert!(matches!(Model::deserialize(&[0, 0, 0, 1]), Err(Error::CorruptCheckpoint)));
    // Header demands one 1x1 row (16 bytes in all); stream is one byte short.
    let short = vec![0, 0, 0, 1, 0, 0, 0, 1, 0x3f, 0x80, 0, 0, 0x40, 0, 0];
    assert!(matches!(Model::deserialize(&short), Err(Error::CorruptCheckpoint)));
    // One trailing byte too many.
    let long = vec![0, 0, 0, 1, 0, 0, 0, 1, 0x3f, 0x80, 0, 0, 0x40, 0, 0, 0, 9];
    assert!(matches!(Model::deserialize(&long), Err(Error::CorruptCheckpoint)));
}

#[test]
fn empty_model_round_trips() {
    let m = Model::from_parts(vec![], vec![], 5).unwrap();
    let encoded = m.serialize();
    assert_eq!(encoded, vec![0, 0, 0, 0, 0, 0, 0, 5]);
    let m2 = Model::deserialize(&encoded).unwrap();
    assert_eq!(m2.output_count(), 0);
    assert_eq!(m2.input_count(), 5);
}

#[test]
fn from_parts_rejects_bad_shapes() {
    // Ragged row.
    let w = vec![vec![0u32, 0], vec![0u32]];
    assert!(matches!(
        Model::from_parts(w, vec![0, 0], 2),
        Err(Error::DimensionMismatch)
    ));
    // Bias count disagrees with the row count.
    let w = vec![vec![0u32, 0], vec![0u32, 0]];
    assert!(matches!(
        Model::from_parts(w, vec![0], 2),
        Err(Error::DimensionMismatch)
    ));
    // Row width disagrees with the declared input count.
    let w = vec![vec![0u32, 0]];
    assert!(matches!(
        Model::from_parts(w, vec![0], 3),
        Err(Error::DimensionMismatch)
    ));
}

#[test]
fn validate_input_len_checks_width() {
    let m = Model::from_parts(vec![vec![0u32, 0, 0]], vec![0], 3).unwrap();
    assert!(m.validate_input_len(3).is_ok());
    assert!(matches!(m.validate_input_len(2), Err(Error::DimensionMismatch)));
    assert!(matches!(m.validate_input_len(784), Err(Error::DimensionMismatch)));
}

#[test]
fn argmax_takes_first_of_ties() {
    assert_eq!(ml::argmax(&[1, 3, 3, 2]), 1);
    assert_eq!(ml::argmax(&[5]), 0);
    assert_eq!(ml::argmax(&[0, 0, 0]), 0);
    assert_eq!(ml::argmax(&[2, 1, 7, 7]), 2);
}

#[test]
fn argmax_on_bits_of_exact_one_hot_prediction_matches_label() {
    // Positive finite floats order as their bit patterns do, so a prediction
    // that reproduces the one-hot vector exactly is classified as its label.
    for label in 0u8..=9 {
        let prediction: Vec<f32> = ml::one_hot(label).iter().map(|&e| e as f32).collect();
        let bits: Vec<u32> = prediction.iter().map(|x| x.to_bits()).collect();
        assert_eq!(ml::argmax(&bits), label as usize);
    }
}

#[test]
fn batch_size_zero_or_oversized_is_invalid() {
    assert!(matches!(
        ml::choose_batch_indices(10, 0),
        Err(Error::InvalidBatchSize)
    ));
    assert!(matches!(
        ml::choose_batch_indices(10, 11),
        Err(Error::InvalidBatchSize)
    ));
    assert!(matches!(
        ml::choose_batch_indices(0, 0),
        Err(Error::InvalidBatchSize)
    ));
}

#[test]
fn batch_indices_are_distinct_and_in_range() {
    let v = ml::choose_batch_indices(50, 20).unwrap();
    assert_eq!(v.len(), 20);
    let mut seen = vec![false; 50];
    for &i in &v {
        assert!(i < 50);
        assert!(!seen[i]);
        seen[i] = true;
    }
}

#[test]
fn full_batch_of_indices_is_a_permutation() {
    let mut v = ml::choose_batch_indices(10, 10).unwrap();
    v.sort();
    assert_eq!(v, (0..10).collect::<Vec<usize>>());
}

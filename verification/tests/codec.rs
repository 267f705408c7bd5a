use tabletop_atlas::db::codec::{decode_vector, encode_vector, COMPONENT_BYTES};

#[test]
fn encode_writes_the_low_byte_first() {
    assert_eq!(encode_vector(&[0x0403_0201]), vec![1, 2, 3, 4]);
    assert_eq!(encode_vector(&[1.0f32.to_bits()]), 1.0f32.to_le_bytes().to_vec());
    assert_eq!(encode_vector(&[]), Vec::<u8>::new());
    assert_eq!(COMPONENT_BYTES, 4);
}

#[test]
fn decode_reads_the_low_byte_first() {
    assert_eq!(decode_vector(&[1, 2, 3, 4]), Some(vec![0x0403_0201]));
    assert_eq!(decode_vector(&[]), Some(Vec::new()));
    assert_eq!(decode_vector(&[0xff, 0xff, 0xff, 0xff]), Some(vec![u32::MAX]));
}

#[test]
fn decode_rejects_a_broken_length() {
    assert_eq!(decode_vector(&[1]), None);
    assert_eq!(decode_vector(&[1, 2, 3]), None);
    assert_eq!(decode_vector(&[1, 2, 3, 4, 5]), None);
}

#[test]
fn vectors_round_trip_bit_for_bit() {
    // a fixed walk over many bit patterns
    let mut state: u32 = 0x1234_5678;
    let mut values: Vec<f32> = vec![
        0.0,
        -0.0,
        1.0,
        -1.0,
        0.5,
        f32::MIN_POSITIVE,
        f32::MAX,
        f32::MIN,
        f32::EPSILON,
        f32::INFINITY,
        f32::NEG_INFINITY,
    ];
    for _ in 0..2000 {
        state = state.wrapping_mul(1664525).wrapping_add(1013904223);
        values.push(f32::from_bits(state));
    }
    let bits: Vec<u32> = values.iter().map(|v| v.to_bits()).collect();
    let bytes = encode_vector(&bits);
    assert_eq!(bytes.len(), 4 * bits.len());
    let back = decode_vector(&bytes).unwrap();
    assert_eq!(back, bits);
    for (v, b) in values.iter().zip(back.iter()) {
        let w = f32::from_bits(*b);
        if v.is_finite() {
            assert_eq!(*v, w);
        }
        assert_eq!(v.to_bits(), w.to_bits());
    }
}

use asn1_aper::codec::{AperCodecData, CodecError};
use asn1_aper::generator::{decode_value, encode_value, AperType, AperValue};

#[test]
fn cwn_round_trip_small_range() {
    // Range [0, 7] has eight values: three bits, no alignment.
    let mut data = AperCodecData::new();
    data.encode_constrained_whole_number(0, 7, 5).unwrap();
    assert_eq!(data.length_in_bits(), 3);
    let v = data.decode_constrained_whole_number(0, 7).unwrap();
    assert_eq!(v, 5);
    assert_eq!(data.position(), 3);
}

#[test]
fn cwn_round_trip_negative_bounds() {
    let mut data = AperCodecData::new();
    data.encode_constrained_whole_number(-10, 10, -3).unwrap();
    let v = data.decode_constrained_whole_number(-10, 10).unwrap();
    assert_eq!(v, -3);
}

#[test]
fn cwn_single_value_range_takes_no_bits() {
    let mut data = AperCodecData::new();
    data.encode_constrained_whole_number(42, 42, 42).unwrap();
    assert_eq!(data.length_in_bits(), 0);
    let v = data.decode_constrained_whole_number(42, 42).unwrap();
    assert_eq!(v, 42);
    assert_eq!(data.position(), 0);
}

#[test]
fn cwn_large_range_is_octet_aligned() {
    // Range [0, 1000] passes the small-range threshold: the field is
    // octet-aligned and two octets wide.
    let mut data = AperCodecData::new();
    data.encode_bool(true); // one bit of payload before the field
    data.encode_constrained_whole_number(0, 1000, 77).unwrap();
    assert_eq!(data.length_in_bits(), 8 + 16);
    let mut pos_data = data;
    let b = pos_data.decode_bool().unwrap();
    assert!(b);
    let v = pos_data.decode_constrained_whole_number(0, 1000).unwrap();
    assert_eq!(v, 77);
    assert_eq!(pos_data.position(), 24);
}

#[test]
fn cwn_boundary_values_succeed() {
    let mut data = AperCodecData::new();
    data.encode_constrained_whole_number(3, 9, 3).unwrap();
    data.encode_constrained_whole_number(3, 9, 9).unwrap();
    assert_eq!(data.decode_constrained_whole_number(3, 9).unwrap(), 3);
    assert_eq!(data.decode_constrained_whole_number(3, 9).unwrap(), 9);
}

#[test]
fn cwn_encode_out_of_bounds_fails() {
    let mut data = AperCodecData::new();
    assert_eq!(
        data.encode_constrained_whole_number(3, 9, 2),
        Err(CodecError::ValueOutsideConstraint)
    );
    assert_eq!(
        data.encode_constrained_whole_number(3, 9, 10),
        Err(CodecError::ValueOutsideConstraint)
    );
    assert_eq!(data.length_in_bits(), 0);
}

#[test]
fn cwn_decode_out_of_range_fails() {
    // Range [0, 2] uses two bits; the raw pattern 3 maps past the upper
    // bound and must be rejected.
    let mut data = AperCodecData::new();
    data.encode_bits_of_u64(2, 3);
    assert_eq!(
        data.decode_constrained_whole_number(0, 2),
        Err(CodecError::ValueOutOfRange)
    );
}

#[test]
fn cwn_decode_too_short_fails() {
    let mut data = AperCodecData::new();
    data.encode_bool(true);
    assert_eq!(
        data.decode_constrained_whole_number(0, 7),
        Err(CodecError::BufferTooShort)
    );
    assert_eq!(data.position(), 0);
}

#[test]
fn choice_idx_round_trip() {
    let mut data = AperCodecData::new();
    data.encode_choice_idx(0, 2, true, 1).unwrap();
    let (idx, extended) = data.decode_choice_idx(0, 2, true).unwrap();
    assert_eq!(idx, 1);
    assert!(!extended);
}

#[test]
fn choice_idx_extension_bit_reports_extended() {
    let mut data = AperCodecData::new();
    data.encode_bool(true); // the extension bit is set
    data.encode_bits_of_u64(7, 0x55); // arbitrary bits follow
    let (idx, extended) = data.decode_choice_idx(0, 2, true).unwrap();
    assert!(extended);
    assert_eq!(idx, 0);
    assert_eq!(data.position(), 1); // nothing past the extension bit is read
}

#[test]
fn bitstring_fixed_size_round_trip() {
    let payload = vec![true, false, true, true, false, false, true, false];
    let mut data = AperCodecData::new();
    data.encode_bitstring(8, 8, false, &payload).unwrap();
    assert_eq!(data.length_in_bits(), 8); // no length determinant
    let out = data.decode_bitstring(8, 8, false).unwrap();
    assert_eq!(out, payload);
}

#[test]
fn bitstring_variable_size_round_trip() {
    let payload = vec![true, true, false];
    let mut data = AperCodecData::new();
    data.encode_bitstring(0, 7, false, &payload).unwrap();
    let out = data.decode_bitstring(0, 7, false).unwrap();
    assert_eq!(out, payload);
}

#[test]
fn bitstring_wrong_length_fails() {
    let payload = vec![true, true];
    let mut data = AperCodecData::new();
    assert_eq!(
        data.encode_bitstring(3, 7, false, &payload),
        Err(CodecError::ValueOutsideConstraint)
    );
}

#[test]
fn bitstring_extensible_round_trip() {
    let payload = vec![false, true];
    let mut data = AperCodecData::new();
    data.encode_bitstring(0, 7, true, &payload).unwrap();
    let out = data.decode_bitstring(0, 7, true).unwrap();
    assert_eq!(out, payload);
}

#[test]
fn bitstring_extension_bit_set_fails_unsupported() {
    let mut data = AperCodecData::new();
    data.encode_bool(true);
    data.encode_bits_of_u64(8, 0xFF);
    assert_eq!(
        data.decode_bitstring(0, 7, true),
        Err(CodecError::UnsupportedExtension)
    );
}

#[test]
fn bitstring_too_short_buffer_fails() {
    let mut data = AperCodecData::new();
    assert_eq!(
        data.decode_bitstring(8, 8, false),
        Err(CodecError::BufferTooShort)
    );
}

fn three_variant_choice(ext: bool) -> AperType {
    AperType::Choice {
        lb: 0,
        ub: 2,
        ext,
        variants: vec![
            (0, Box::new(AperType::Integer { lb: 0, ub: 255, ext: false })),
            (1, Box::new(AperType::Integer { lb: -5, ub: 5, ext: false })),
            (2, Box::new(AperType::BitString { lb: 4, ub: 4, ext: false })),
        ],
    }
}

#[test]
fn choice_dispatches_to_second_variant() {
    // A CHOICE with bounds [0, 2], three variants keyed 0, 1 and 2, no
    // extension: raw index bits for 1 dispatch to the second variant.
    let t = three_variant_choice(false);
    let v = AperValue::Choice(1, Box::new(AperValue::Integer(-5)));
    let mut data = AperCodecData::new();
    encode_value(&t, &v, &mut data).unwrap();
    let out = decode_value(&t, &mut data).unwrap();
    assert_eq!(out, v);
    assert_eq!(data.position(), data.length_in_bits());
}

#[test]
fn choice_extension_bit_fails_unsupported() {
    // With the extension bit set, decoding always fails as unsupported,
    // whatever discriminant bits follow.
    let t = three_variant_choice(true);
    let mut data = AperCodecData::new();
    data.encode_bool(true);
    data.encode_bits_of_u64(10, 0x2A5);
    assert_eq!(
        decode_value(&t, &mut data),
        Err(CodecError::UnsupportedExtension)
    );
}

#[test]
fn choice_invalid_index_fails() {
    // Bounds [0, 2] but only variants keyed 0 and 2: a decoded index of 1
    // names no variant.
    let t = AperType::Choice {
        lb: 0,
        ub: 2,
        ext: false,
        variants: vec![
            (0, Box::new(AperType::Integer { lb: 0, ub: 1, ext: false })),
            (2, Box::new(AperType::Integer { lb: 0, ub: 1, ext: false })),
        ],
    };
    let mut data = AperCodecData::new();
    data.encode_constrained_whole_number(0, 2, 1).unwrap();
    data.encode_bool(false);
    assert_eq!(decode_value(&t, &mut data), Err(CodecError::InvalidChoiceIndex(1)));
}

#[test]
fn nested_choice_round_trip() {
    let inner = AperType::Choice {
        lb: 0,
        ub: 1,
        ext: false,
        variants: vec![
            (0, Box::new(AperType::Integer { lb: 0, ub: 1000, ext: false })),
            (1, Box::new(AperType::BitString { lb: 0, ub: 20, ext: false })),
        ],
    };
    let t = AperType::Choice {
        lb: 0,
        ub: 1,
        ext: true,
        variants: vec![
            (0, Box::new(AperType::Integer { lb: 0, ub: 7, ext: false })),
            (1, Box::new(inner)),
        ],
    };
    let v = AperValue::Choice(
        1,
        Box::new(AperValue::Choice(
            1,
            Box::new(AperValue::BitString(vec![true, false, true])),
        )),
    );
    let mut data = AperCodecData::new();
    encode_value(&t, &v, &mut data).unwrap();
    let out = decode_value(&t, &mut data).unwrap();
    assert_eq!(out, v);
    assert_eq!(data.position(), data.length_in_bits());
}

#[test]
fn encode_value_out_of_bounds_fails() {
    let t = AperType::Integer { lb: 0, ub: 7, ext: false };
    let v = AperValue::Integer(8);
    let mut data = AperCodecData::new();
    assert_eq!(
        encode_value(&t, &v, &mut data),
        Err(CodecError::ValueOutsideConstraint)
    );
    assert_eq!(data.length_in_bits(), 0);
}

#[test]
fn into_bytes_exact_layout() {
    // Range [0, 255] passes the small-range threshold: one aligned octet,
    // so the buffer is exactly the raw value.
    let mut data = AperCodecData::new();
    data.encode_constrained_whole_number(0, 255, 0xAB).unwrap();
    assert_eq!(data.into_bytes(), vec![0xABu8]);
}

#[test]
fn into_bytes_pads_last_octet_with_zeros() {
    let mut data = AperCodecData::new();
    data.encode_bool(true);
    data.encode_bool(false);
    data.encode_bool(true);
    // 101 followed by five pad bits: 1010_0000.
    assert_eq!(data.into_bytes(), vec![0xA0u8]);
}

#[test]
fn from_bytes_reads_msb_first() {
    let mut data = AperCodecData::from_bytes(&vec![0x80u8, 0x01]);
    assert_eq!(data.length_in_bits(), 16);
    assert!(data.decode_bool().unwrap());
    let rest = data.decode_bits_as_u64(15).unwrap();
    assert_eq!(rest, 1);
}

#[test]
fn bytes_round_trip_through_cursor() {
    let bytes = vec![0x12u8, 0x34, 0x56, 0xFF, 0x00];
    let data = AperCodecData::from_bytes(&bytes);
    assert_eq!(data.into_bytes(), bytes);
}

#[test]
fn choice_extension_from_byte_stream_fails() {
    // A stream whose first bit (the extension bit) is set, built from raw
    // octets as a decoder would receive them.
    let t = three_variant_choice(true);
    let mut data = AperCodecData::from_bytes(&vec![0xC7u8]);
    assert_eq!(
        decode_value(&t, &mut data),
        Err(CodecError::UnsupportedExtension)
    );
}

#[test]
fn codec_errors_describe_themselves() {
    assert_eq!(
        CodecError::UnsupportedExtension.describe(),
        "CHOICE Additions not supported yet."
    );
    assert_eq!(
        CodecError::InvalidChoiceIndex(5).describe(),
        "decoded index is not a valid Choice Index"
    );
    assert_eq!(
        CodecError::BufferTooShort.describe(),
        "insufficient bits remain in the buffer"
    );
}

#[test]
fn integer_value_round_trip_aligned() {
    let t = AperType::Integer { lb: -1000, ub: 1000, ext: false };
    let v = AperValue::Integer(999);
    let mut data = AperCodecData::new();
    encode_value(&t, &v, &mut data).unwrap();
    let out = decode_value(&t, &mut data).unwrap();
    assert_eq!(out, v);
    assert_eq!(data.position(), data.length_in_bits());
}

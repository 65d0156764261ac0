use gmsf2midi::vlq::{var_len_from, var_len_value};

#[test]
fn vlq_encodes_single_byte_values() {
    assert_eq!(var_len_from(0x00), vec![0x00]);
    assert_eq!(var_len_from(0x40), vec![0x40]);
    assert_eq!(var_len_from(0x7F), vec![0x7F]);
}

#[test]
fn vlq_encodes_two_byte_values() {
    assert_eq!(var_len_from(0x80), vec![0x81, 0x00]);
    assert_eq!(var_len_from(0x2000), vec![0xC0, 0x00]);
    assert_eq!(var_len_from(0x3FFF), vec![0xFF, 0x7F]);
}

#[test]
fn vlq_encodes_three_byte_values() {
    assert_eq!(var_len_from(0x4000), vec![0x81, 0x80, 0x00]);
    assert_eq!(var_len_from(0x10_0000), vec![0xC0, 0x80, 0x00]);
    assert_eq!(var_len_from(0x1F_FFFF), vec![0xFF, 0xFF, 0x7F]);
}

#[test]
fn vlq_encodes_four_byte_values() {
    assert_eq!(var_len_from(0x20_0000), vec![0x81, 0x80, 0x80, 0x00]);
    assert_eq!(var_len_from(0x800_0000), vec![0xC0, 0x80, 0x80, 0x00]);
    assert_eq!(var_len_from(0x0FFF_FFFF), vec![0xFF, 0xFF, 0xFF, 0x7F]);
}

#[test]
fn vlq_encodes_five_byte_values() {
    assert_eq!(var_len_from(0x1000_0000), vec![0x81, 0x80, 0x80, 0x80, 0x00]);
    assert_eq!(var_len_from(u32::MAX), vec![0x8F, 0xFF, 0xFF, 0xFF, 0x7F]);
}

#[test]
fn vlq_round_trip_on_boundaries() {
    let values: [u32; 18] = [
        0,
        1,
        0x7F,
        0x80,
        0x81,
        0x3FFF,
        0x4000,
        0x1F_FFFF,
        0x20_0000,
        0x0FFF_FFFE,
        0x0FFF_FFFF,
        0x1000_0000,
        24,
        96,
        178_956_970,
        0x1234_5678,
        u32::MAX - 1,
        u32::MAX,
    ];
    for value in values {
        assert_eq!(var_len_value(&var_len_from(value)), Some(value));
    }
}

#[test]
fn vlq_round_trip_on_a_sweep() {
    let mut value: u32 = 0;
    while value <= 0x0FFF_FFFF {
        let bytes = var_len_from(value);
        assert!(bytes.len() >= 1 && bytes.len() <= 4);
        assert_eq!(var_len_value(&bytes), Some(value));
        value += 7919;
    }
}

#[test]
fn vlq_decoder_reads_known_encodings() {
    assert_eq!(var_len_value(&[0x00]), Some(0));
    assert_eq!(var_len_value(&[0x81, 0x00]), Some(128));
    assert_eq!(var_len_value(&[0xFF, 0xFF, 0xFF, 0x7F]), Some(0x0FFF_FFFF));
    assert_eq!(var_len_value(&[0x8F, 0xFF, 0xFF, 0xFF, 0x7F]), Some(u32::MAX));
    assert_eq!(var_len_value(&[0x80, 0x00]), Some(0));
}

#[test]
fn vlq_decoder_rejects_malformed_input() {
    assert_eq!(var_len_value(&[]), None);
    assert_eq!(var_len_value(&[0x80]), None);
    assert_eq!(var_len_value(&[0x00, 0x00]), None);
    assert_eq!(var_len_value(&[0x81, 0x00, 0x00]), None);
    assert_eq!(var_len_value(&[0x81, 0x80]), None);
}

#[test]
fn vlq_decoder_rejects_values_beyond_32_bits() {
    assert_eq!(var_len_value(&[0x90, 0x80, 0x80, 0x80, 0x00]), None);
    assert_eq!(var_len_value(&[0xFF, 0xFF, 0xFF, 0xFF, 0xFF, 0x7F]), None);
}

use glyph_cipher::algorithm::{Algorithm, Extended, Standard};

#[test]
fn standard_pair_unit() {
    // a = 0110_0001, d = 0110_0100: both seventh bits set
    assert_eq!(Standard::encrypt_char_pair(b'a', b'd'), [0xe3, 0xa1, 0xa4]);
    // space = 0010_0000, ! = 0010_0001: both seventh bits clear
    assert_eq!(Standard::encrypt_char_pair(b' ', b'!'), [0xe0, 0xa0, 0xa1]);
    // A = 0100_0001, 1 = 0011_0001
    assert_eq!(Standard::encrypt_char_pair(b'A', b'1'), [0xe2, 0x81, 0xb1]);
    assert_eq!(Standard::encrypt_char_pair(b'1', b'A'), [0xe1, 0xb1, 0x81]);
}

#[test]
fn standard_single_unit() {
    // x = 0111_1000
    assert_eq!(Standard::encrypt_single_char(b'x'), [0xe5, 0xb8, 0x80]);
    // 0 = 0011_0000
    assert_eq!(Standard::encrypt_single_char(b'0'), [0xe4, 0xb0, 0x80]);
}

#[test]
fn standard_decrypt_units() {
    assert_eq!(Standard::decrypt_char_pair([0xe3, 0xa1, 0xa4]), (b'a', b'd'));
    assert_eq!(Standard::decrypt_char_pair([0xe2, 0x81, 0xb1]), (b'A', b'1'));
    assert_eq!(Standard::decrypt_single_char([0xe5, 0xb8, 0x80]), b'x');
    assert_eq!(Standard::decrypt_single_char([0xe4, 0xb0, 0x80]), b'0');
}

#[test]
fn standard_chars_pick_the_shape() {
    let standard = Standard {};
    assert_eq!(standard.encrypt_chars(b'a', Some(b'd')), [0xe3, 0xa1, 0xa4]);
    assert_eq!(standard.encrypt_chars(b'x', None), [0xe5, 0xb8, 0x80]);
    assert_eq!(
        standard.decrypt_chars([0xe3, 0xa1, 0xa4]),
        (b'a', Some(b'd'))
    );
    assert_eq!(standard.decrypt_chars([0xe5, 0xb8, 0x80]), (b'x', None));
}

#[test]
fn extended_pair_unit() {
    assert_eq!(
        Extended::encrypt_char_pair(b'a', b'd'),
        [0xf0, 0x93, 0xa1, 0xa4]
    );
    assert_eq!(
        Extended::encrypt_char_pair(b' ', b'!'),
        [0xf0, 0x90, 0xa0, 0xa1]
    );
}

#[test]
fn extended_single_unit() {
    assert_eq!(Extended::encrypt_single_char(b'x'), [0xf0, 0x95, 0xb8, 0x80]);
    assert_eq!(Extended::encrypt_single_char(b'b'), [0xf0, 0x95, 0xa2, 0x80]);
}

#[test]
fn extended_decrypt_units() {
    assert_eq!(
        Extended::decrypt_char_pair([0xf0, 0x93, 0xa1, 0xa4]),
        (b'a', b'd')
    );
    assert_eq!(Extended::decrypt_single_char([0xf0, 0x95, 0xb8, 0x80]), b'x');
    let extended = Extended {};
    assert_eq!(
        extended.decrypt_chars([0xf0, 0x93, 0xa1, 0xa4]),
        (b'a', Some(b'd'))
    );
    assert_eq!(
        extended.decrypt_chars([0xf0, 0x95, 0xb8, 0x80]),
        (b'x', None)
    );
}

#[test]
fn every_pair_of_seven_bit_bytes_comes_back() {
    let standard = Standard {};
    let extended = Extended {};
    for c0 in 0u8..128 {
        for c1 in 0u8..128 {
            assert_eq!(
                standard.decrypt_chars(standard.encrypt_chars(c0, Some(c1))),
                (c0, Some(c1))
            );
            assert_eq!(
                extended.decrypt_chars(extended.encrypt_chars(c0, Some(c1))),
                (c0, Some(c1))
            );
        }
        assert_eq!(
            standard.decrypt_chars(standard.encrypt_chars(c0, None)),
            (c0, None)
        );
        assert_eq!(
            extended.decrypt_chars(extended.encrypt_chars(c0, None)),
            (c0, None)
        );
    }
}

#[test]
fn the_eighth_bit_is_dropped() {
    let standard = Standard {};
    assert_eq!(
        standard.encrypt_chars(0xe1, Some(0xe4)),
        standard.encrypt_chars(b'a', Some(b'd'))
    );
    assert_eq!(
        standard.decrypt_chars(standard.encrypt_chars(0xe1, Some(0xe4))),
        (b'a', Some(b'd'))
    );
    let extended = Extended {};
    assert_eq!(
        extended.decrypt_chars(extended.encrypt_chars(0xf8, None)),
        (b'x', None)
    );
}

#[test]
fn units_that_nothing_packs_are_unpacked_by_their_bits() {
    let standard = Standard {};
    assert_eq!(standard.decrypt_chars([0x00, 0x00, 0x00]), (0, Some(0)));
    assert_eq!(
        standard.decrypt_chars([0xff, 0xff, 0xff]),
        (0x7f, None)
    );
    assert_eq!(
        standard.decrypt_chars([0x03, 0x7f, 0x41]),
        (0x7f, Some(0x41))
    );
}

use glyph_cipher::cipherv2::{CipherV2, Simple};
use glyph_cipher::error::CipherError;

fn encrypt_string<C>(to_encrypt: &str, cipher: &C) -> Result<String, CipherError>
where
    C: CipherV2,
{
    let mut result = Vec::new();
    cipher.encrypt(to_encrypt.as_bytes(), &mut result)?;
    Ok(String::from_utf8(result).expect("not utf-8"))
}

fn decrypt_string<C>(to_decrypt: &str, cipher: &C) -> Result<String, CipherError>
where
    C: CipherV2,
{
    let mut result = Vec::new();
    cipher.decrypt(to_decrypt.as_bytes(), &mut result)?;
    Ok(String::from_utf8(result).expect("not utf-8"))
}

fn round_trip(test_case: &str) {
    let encrypted = encrypt_string(test_case, &Simple).expect("encryption failed");
    let decrypted = decrypt_string(&encrypted, &Simple).expect("decryption failed");
    assert_eq!(test_case, decrypted);
}

#[test]
fn v2_single_pair() {
    round_trip("ad");
}

#[test]
fn v2_two_pair() {
    round_trip("adgc");
}

#[test]
fn v2_odd_length_string() {
    round_trip("bbb");
}

#[test]
fn v2_single_character() {
    round_trip("x");
}

#[test]
fn v2_another() {
    round_trip("another");
}

#[test]
fn v2_with_space() {
    round_trip("hello there");
}

#[test]
fn v2_long_string() {
    round_trip("a longer string than most of the others");
}

#[test]
fn v2_all_caps() {
    round_trip("CAPITIALIZED STRING");
}

#[test]
fn v2_mixed_caps() {
    round_trip("MiXeD cApS");
}

#[test]
fn v2_special_chars() {
    round_trip("!@#$%^&*()-_=+|~`,./<>?;':\"[]{}\\");
}

#[test]
fn v2_numbers() {
    round_trip("12345567890");
}

#[test]
fn v2_numbers_and_letters() {
    round_trip("120 mokneys on 40 barrels");
}

#[test]
fn v2_ascii_pairs() {
    for c0 in 0b0010_0000..0b0111_1111 {
        for c1 in 0b0010_0000..0b0111_1111 {
            let byte_pair = (c0, c1);
            let encrypted = Simple.encrypt_char_pair(byte_pair);
            let decrypted = Simple.decrypt_char_pair(encrypted);
            assert_eq!(byte_pair, decrypted);
        }
    }

    for c0 in 0b0010_0000..0b0111_1111 {
        let byte_pair = (c0, 0b0000_0000);
        let encrypted = Simple.encrypt_char_pair(byte_pair);
        let decrypted = Simple.decrypt_char_pair(encrypted);
        assert_eq!(byte_pair, decrypted);
    }
}

#[test]
fn v2_code_points() {
    // a = 0x61, d = 0x64: 0x61 * 128 + 0x64
    assert_eq!(Simple.encrypt_char_pair((b'a', b'd')), '\u{30e4}');
    assert_eq!(Simple.encrypt_char_pair((b'x', 0)), '\u{3c00}');
    assert_eq!(Simple.encrypt_char_pair((0, b'x')), 'x');
    assert_eq!(Simple.encrypt_char_pair((0xff, 0xff)), '\u{7fff}');
    assert_eq!(Simple.decrypt_char_pair('\u{30e4}'), (b'a', b'd'));
    assert_eq!(Simple.decrypt_char_pair('\u{3c00}'), (b'x', 0));
    assert_eq!(Simple.decrypt_char_pair('\u{10ffff}'), (0x7f, 0x7f));
}

#[test]
fn v2_fixed_strings() {
    assert_eq!(encrypt_string("ad", &Simple).unwrap(), "\u{30e4}");
    assert_eq!(encrypt_string("adx", &Simple).unwrap(), "\u{30e4}\u{3c00}");
    assert_eq!(encrypt_string("", &Simple).unwrap(), "");
    assert_eq!(decrypt_string("", &Simple).unwrap(), "");
    let mut out = vec![0u8];
    Simple.encrypt(b"adx", &mut out).unwrap();
    assert_eq!(out, vec![0, 0xe3, 0x83, 0xa4, 0xe3, 0xb0, 0x80]);
    // a character of two bytes: 0x01 * 128 + 0x41
    let mut out = Vec::new();
    Simple.encrypt(&[0x01, 0x41], &mut out).unwrap();
    assert_eq!(out, vec![0xc3, 0x81]);
}

#[test]
fn v2_a_zero_byte_in_second_place_is_dropped() {
    let mut packed = Vec::new();
    Simple.encrypt(&[b'a', 0, b'b', b'c'], &mut packed).unwrap();
    let mut back = Vec::new();
    Simple.decrypt(&packed, &mut back).unwrap();
    assert_eq!(back, b"abc".to_vec());
}

#[test]
fn v2_input_that_holds_no_character() {
    let mut out = Vec::new();
    assert_eq!(
        Simple.decrypt(&[0xe3, 0x83, 0xa4, 0xe3, 0xb0], &mut out),
        Err(CipherError::TruncatedCharacter {
            expected: 3,
            found: 2
        })
    );
    assert_eq!(out, b"ad".to_vec());
    let mut out = Vec::new();
    assert_eq!(
        Simple.decrypt(&[0xe3, 0x83, 0xa4, 0xff], &mut out),
        Err(CipherError::InvalidFirstByte { first_byte: 0xff })
    );
    assert_eq!(out, b"ad".to_vec());
    let mut out = Vec::new();
    assert_eq!(
        Simple.decrypt(&[0xc3, 0x28], &mut out),
        Err(CipherError::InvalidCharacter)
    );
    assert!(out.is_empty());
}

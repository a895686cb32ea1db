use glyph_cipher::cipher::{Cipher, Extended, Standard};
use glyph_cipher::error::CipherError;

fn encrypt_string<C, const N: usize>(to_encrypt: &str, cipher: C) -> Result<String, CipherError>
where
    C: Cipher<N>,
{
    let buf_size = encrypt_size::<N>(to_encrypt);
    let mut result = Vec::with_capacity(buf_size);
    cipher.encrypt(to_encrypt.as_bytes(), &mut result)?;
    Ok(String::from_utf8(result).expect("not utf-8"))
}

fn encrypt_size<const N: usize>(to_encrypt: &str) -> usize {
    let num_bytes = to_encrypt.bytes().len();
    let num_encrypted_chars_needed = if num_bytes % 2 == 0 {
        num_bytes / 2
    } else {
        (num_bytes / 2) + 1
    };
    num_encrypted_chars_needed * N
}

fn decrypt_string<C, const N: usize>(to_decrypt: &str, cipher: C) -> Result<String, CipherError>
where
    C: Cipher<N>,
{
    let buf_size = decrypt_size::<N>(to_decrypt);
    let mut result = Vec::with_capacity(buf_size);
    cipher.decrypt(to_decrypt.as_bytes(), &mut result)?;
    Ok(String::from_utf8(result).expect("not utf-8"))
}

fn decrypt_size<const N: usize>(to_decrypt: &str) -> usize {
    let num_bytes = to_decrypt.bytes().len();
    let num_encrypted_chars = num_bytes / N;
    num_encrypted_chars * 2
}

fn round_trip<C: Cipher<N>, const N: usize>(cipher: C, test_case: &str) {
    let encrypted = encrypt_string(test_case, &cipher).expect("encryption failed");
    assert_eq!(encrypted.len(), encrypt_size::<N>(test_case));
    let decrypted = decrypt_string(&encrypted, &cipher).expect("decryption failed");
    assert_eq!(test_case, decrypted);
}

fn all_ascii_pairs<C: Cipher<N>, const N: usize>(cipher: C) {
    for c0 in 0b0010_0000..0b0111_1111 {
        for c1 in 0b0010_0000..0b0111_1111 {
            let byte_pair = (c0, Some(c1));
            let encrypted = cipher.encrypt_char_pair(byte_pair);
            let decrypted = cipher.decrypt_char_pair(encrypted);
            assert_eq!(byte_pair, decrypted);
        }
    }

    for c0 in 0b0010_0000..0b0111_1111 {
        let byte_pair = (c0, None);
        let encrypted = cipher.encrypt_char_pair(byte_pair);
        let decrypted = cipher.decrypt_char_pair(encrypted);
        assert_eq!(byte_pair, decrypted);
    }
}

#[test]
fn standard_single_pair() {
    round_trip(Standard, "ad");
}

#[test]
fn standard_two_pair() {
    round_trip(Standard, "adgc");
}

#[test]
fn standard_odd_length_string() {
    round_trip(Standard, "bbb");
}

#[test]
fn standard_single_character() {
    round_trip(Standard, "x");
}

#[test]
fn standard_another() {
    round_trip(Standard, "another");
}

#[test]
fn standard_with_space() {
    round_trip(Standard, "hello there");
}

#[test]
fn standard_ascii_pairs() {
    all_ascii_pairs(Standard);
}

#[test]
fn extended_single_pair() {
    round_trip(Extended, "ad");
}

#[test]
fn extended_two_pair() {
    round_trip(Extended, "adgc");
}

#[test]
fn extended_odd_length_string() {
    round_trip(Extended, "bbb");
}

#[test]
fn extended_single_character() {
    round_trip(Extended, "x");
}

#[test]
fn extended_another() {
    round_trip(Extended, "another");
}

#[test]
fn extended_with_space() {
    round_trip(Extended, "hello there");
}

#[test]
fn extended_ascii_pairs() {
    all_ascii_pairs(Extended);
}

#[test]
fn standard_units() {
    assert_eq!(
        Standard.encrypt_char_pair((b'a', Some(b'd'))),
        [0xe3, 0xa1, 0xa4]
    );
    assert_eq!(
        Standard.encrypt_char_pair((b' ', Some(b'!'))),
        [0xe0, 0xa0, 0xa1]
    );
    // the seventh bit of the first byte keeps its place without a second byte
    assert_eq!(Standard.encrypt_char_pair((b'x', None)), [0xe6, 0xb8, 0x80]);
    assert_eq!(Standard.encrypt_char_pair((b'0', None)), [0xe4, 0xb0, 0x80]);
    assert_eq!(
        Standard.decrypt_char_pair([0xe3, 0xa1, 0xa4]),
        (b'a', Some(b'd'))
    );
    assert_eq!(Standard.decrypt_char_pair([0xe6, 0xb8, 0x80]), (b'x', None));
}

#[test]
fn extended_units() {
    assert_eq!(
        Extended.encrypt_char_pair((b'a', Some(b'd'))),
        [0xf0, 0x93, 0xa1, 0xa4]
    );
    assert_eq!(
        Extended.encrypt_char_pair((b'x', None)),
        [0xf0, 0x96, 0xb8, 0x80]
    );
    assert_eq!(
        Extended.decrypt_char_pair([0xf0, 0x93, 0xa1, 0xa4]),
        (b'a', Some(b'd'))
    );
    assert_eq!(
        Extended.decrypt_char_pair([0xf0, 0x96, 0xb8, 0x80]),
        (b'x', None)
    );
}

#[test]
fn trait_fixed_strings() {
    assert_eq!(encrypt_string("ad", Standard).unwrap(), "㡤");
    assert_eq!(encrypt_string("adgc", Standard).unwrap(), "㡤㧣");
    assert_eq!(encrypt_string("x", Standard).unwrap(), "\u{6e00}");
    assert_eq!(encrypt_string("ad", Extended).unwrap(), "\u{13864}");
    assert_eq!(encrypt_string("x", Extended).unwrap(), "\u{16e00}");
    assert_eq!(encrypt_string("", Standard).unwrap(), "");
    assert_eq!(decrypt_string("", Extended).unwrap(), "");
}

#[test]
fn trait_truncated_input() {
    let mut out = Vec::new();
    assert_eq!(
        Standard.decrypt(&[0xe3, 0xa1, 0xa4, 0xe6, 0xb8], &mut out),
        Err(CipherError::TruncatedCharacter {
            expected: 3,
            found: 2
        })
    );
    assert_eq!(out, b"ad".to_vec());
    let mut out = Vec::new();
    assert_eq!(
        Extended.decrypt(&[0xf0], &mut out),
        Err(CipherError::TruncatedCharacter {
            expected: 4,
            found: 1
        })
    );
    assert!(out.is_empty());
}

#[test]
fn trait_sink_keeps_what_it_held() {
    let mut out = b"> ".to_vec();
    (&Standard).encrypt(b"ad", &mut out).unwrap();
    assert_eq!(out, vec![b'>', b' ', 0xe3, 0xa1, 0xa4]);
    let mut back = b"< ".to_vec();
    Standard.decrypt(&out[2..], &mut back).unwrap();
    assert_eq!(back, b"< ad".to_vec());
}

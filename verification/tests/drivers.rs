use glyph_cipher::algorithm::{Extended, Standard};
use glyph_cipher::decrypt::{checked_decrypt_size, decrypt_size, decrypt_string, Decrypter};
use glyph_cipher::encrypt::{checked_encrypt_size, encrypt_size, encrypt_string, Encrypter};
use glyph_cipher::error::CipherError;

#[test]
fn simple_single_char_pair() {
    let res = encrypt_string("ad", Standard {}).expect("must succeed");
    assert_eq!(res, "㡤");
    let decrypted = decrypt_string(&res, Standard {}).expect("must succeed");
    assert_eq!(decrypted, "ad");
}

#[test]
fn simple_even_length_string() {
    let res = encrypt_string("adgc", Standard {}).expect("must succeed");
    assert_eq!(res, "㡤㧣");
    let decrypted = decrypt_string(&res, Standard {}).expect("must succeed");
    assert_eq!(decrypted, "adgc");
}

#[test]
fn simple_odd_length_string() {
    let res = encrypt_string("bbb", Standard {}).expect("must succeed");
    assert_eq!(res, "㢢墀");
    let decrypted = decrypt_string(&res, Standard {}).expect("must succeed");
    assert_eq!(decrypted, "bbb");
}

#[test]
fn simple_single_char_string() {
    let res = encrypt_string("x", Standard {}).expect("must succeed");
    assert_eq!(res, "帀");
    let decrypted = decrypt_string(&res, Standard {}).expect("must succeed");
    assert_eq!(decrypted, "x");
}

#[test]
fn extended_strings() {
    let res = encrypt_string("bbb", Extended {}).expect("must succeed");
    assert_eq!(res, "\u{138a2}\u{15880}");
    let decrypted = decrypt_string(&res, Extended {}).expect("must succeed");
    assert_eq!(decrypted, "bbb");
}

#[test]
fn encrypter_packs_input_after_input() {
    let mut encrypter = Encrypter::new(vec![b'#'], Standard {});
    assert_eq!(encrypter.encrypt(b"ad"), Ok(()));
    assert_eq!(encrypter.encrypt(b""), Ok(()));
    assert_eq!(encrypter.encrypt(b"x"), Ok(()));
    assert_eq!(
        encrypter.into_inner(),
        vec![b'#', 0xe3, 0xa1, 0xa4, 0xe5, 0xb8, 0x80]
    );
}

#[test]
fn decrypter_unpacks_input_after_input() {
    let mut decrypter = Decrypter::new(vec![b'#'], Standard {});
    assert_eq!(decrypter.decrypt(&[0xe3, 0xa1, 0xa4]), Ok(()));
    assert_eq!(decrypter.decrypt(&[]), Ok(()));
    assert_eq!(decrypter.decrypt(&[0xe5, 0xb8, 0x80]), Ok(()));
    assert_eq!(decrypter.into_inner(), b"#adx".to_vec());
}

#[test]
fn decrypter_truncated_input() {
    let mut decrypter = Decrypter::new(Vec::new(), Extended {});
    assert_eq!(
        decrypter.decrypt(&[0xf0, 0x93, 0xa1, 0xa4, 0xf0, 0x95, 0xb8]),
        Err(CipherError::TruncatedCharacter {
            expected: 4,
            found: 3
        })
    );
    assert_eq!(decrypter.into_inner(), b"ad".to_vec());
    assert_eq!(
        decrypt_string("ab", Standard {}),
        Err(CipherError::TruncatedCharacter {
            expected: 3,
            found: 2
        })
    );
}

#[test]
fn strings_that_are_not_utf8() {
    assert_eq!(
        encrypt_string("\t ", Standard {}),
        Err(CipherError::InvalidUtf8Output)
    );
}

#[test]
fn driver_sizes() {
    assert_eq!(encrypt_size::<3>(0), 0);
    assert_eq!(encrypt_size::<3>(5), 9);
    assert_eq!(encrypt_size::<4>(5), 12);
    assert_eq!(encrypt_size::<4>(6), 12);
    assert_eq!(decrypt_size::<3>(9), 6);
    assert_eq!(decrypt_size::<4>(12), 6);
    assert_eq!(decrypt_size::<4>(3), 0);
}

#[test]
fn driver_empty_strings() {
    assert_eq!(encrypt_string("", Standard {}), Ok(String::new()));
    assert_eq!(decrypt_string("", Standard {}), Ok(String::new()));
    assert_eq!(encrypt_string("", Extended {}), Ok(String::new()));
    assert_eq!(decrypt_string("", Extended {}), Ok(String::new()));
}

#[test]
fn driver_sizes_that_do_not_fit() {
    assert_eq!(checked_encrypt_size::<3>(5), Some(9));
    assert_eq!(checked_encrypt_size::<4>(0), Some(0));
    assert_eq!(checked_encrypt_size::<4>(usize::MAX), None);
    assert_eq!(checked_encrypt_size::<3>(usize::MAX), None);
    assert_eq!(
        checked_encrypt_size::<1>(usize::MAX),
        Some(usize::MAX / 2 + 1)
    );
    assert_eq!(checked_encrypt_size::<0>(usize::MAX), Some(0));
    assert_eq!(checked_decrypt_size::<3>(9), Some(6));
    assert_eq!(checked_decrypt_size::<4>(usize::MAX), Some(usize::MAX / 4 * 2));
    assert_eq!(checked_decrypt_size::<1>(usize::MAX), None);
    assert_eq!(checked_decrypt_size::<2>(usize::MAX), Some(usize::MAX - 1));
}

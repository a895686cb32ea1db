use glyph_cipher::algorithm::{Cipher, Extended, Standard};
use glyph_cipher::error::CipherError;
use glyph_cipher::source::ByteSource;

#[test]
fn cipher_single_char_pair() {
    let cipher = Cipher::new(Standard {});
    let res = cipher.encrypt_string("ad").expect("must succeed");
    assert_eq!(res, "㡤");
    let decrypted = cipher.decrypt_string(&res).expect("must succeed");
    assert_eq!(decrypted, "ad");
}

#[test]
fn cipher_even_length_string() {
    let cipher = Cipher::new(Standard {});
    let res = cipher.encrypt_string("adgc").expect("must succeed");
    assert_eq!(&res, "㡤㧣");
    let decrypted = cipher.decrypt_string(&res).expect("must succeed");
    assert_eq!(decrypted, "adgc");
}

#[test]
fn cipher_odd_length_string() {
    let cipher = Cipher::new(Standard {});
    let res = cipher.encrypt_string("bbb").expect("must succeed");
    assert_eq!(&res, "㢢墀");
    let decrypted = cipher.decrypt_string(&res).expect("must succeed");
    assert_eq!(decrypted, "bbb");
}

#[test]
fn cipher_single_char_string() {
    let cipher = Cipher::new(Standard {});
    let res = cipher.encrypt_string("x").expect("must succeed");
    assert_eq!(&res, "帀");
    let decrypted = cipher.decrypt_string(&res).expect("must succeed");
    assert_eq!(decrypted, "x");
}

#[test]
fn cipher_extended_single_char_pair() {
    let cipher = Cipher::new(Extended {});
    let res = cipher.encrypt_string("ad").expect("must succeed");
    assert_eq!(res, "\u{13864}");
    let decrypted = cipher.decrypt_string(&res).expect("must succeed");
    assert_eq!(decrypted, "ad");
}

#[test]
fn cipher_extended_even_length_string() {
    let cipher = Cipher::new(Extended {});
    let res = cipher.encrypt_string("adgc").expect("must succeed");
    assert_eq!(res, "\u{13864}\u{139e3}");
    let decrypted = cipher.decrypt_string(&res).expect("must succeed");
    assert_eq!(decrypted, "adgc");
}

#[test]
fn cipher_extended_odd_length_string() {
    let cipher = Cipher::new(Extended {});
    let res = cipher.encrypt_string("bbb").expect("must succeed");
    assert_eq!(res, "\u{138a2}\u{15880}");
    let decrypted = cipher.decrypt_string(&res).expect("must succeed");
    assert_eq!(decrypted, "bbb");
}

#[test]
fn cipher_extended_single_char_string() {
    let cipher = Cipher::new(Extended {});
    let res = cipher.encrypt_string("x").expect("must succeed");
    assert_eq!(res, "\u{15e00}");
    let decrypted = cipher.decrypt_string(&res).expect("must succeed");
    assert_eq!(decrypted, "x");
}

#[test]
fn cipher_encrypt_bytes() {
    let cipher = Cipher::new(Standard {});
    let mut out = vec![0x01];
    assert_eq!(cipher.encrypt(b"adx", &mut out), Ok(()));
    assert_eq!(out, vec![0x01, 0xe3, 0xa1, 0xa4, 0xe5, 0xb8, 0x80]);
}

#[test]
fn cipher_decrypt_bytes() {
    let cipher = Cipher::new(Standard {});
    let mut out = vec![0x01];
    assert_eq!(
        cipher.decrypt(&[0xe3, 0xa1, 0xa4, 0xe5, 0xb8, 0x80], &mut out),
        Ok(())
    );
    assert_eq!(out, vec![0x01, b'a', b'd', b'x']);
}

#[test]
fn cipher_empty_input() {
    let standard = Cipher::new(Standard {});
    assert_eq!(standard.encrypt_string(""), Ok(String::new()));
    assert_eq!(standard.decrypt_string(""), Ok(String::new()));
    let extended = Cipher::new(Extended {});
    assert_eq!(extended.encrypt_string(""), Ok(String::new()));
    assert_eq!(extended.decrypt_string(""), Ok(String::new()));
    let mut out = Vec::new();
    assert_eq!(standard.encrypt(&[], &mut out), Ok(()));
    assert_eq!(standard.decrypt(&[], &mut out), Ok(()));
    assert!(out.is_empty());
}

#[test]
fn cipher_truncated_input() {
    let standard = Cipher::new(Standard {});
    let mut out = Vec::new();
    assert_eq!(
        standard.decrypt(&[0xe3, 0xa1, 0xa4, 0xe3], &mut out),
        Err(CipherError::TruncatedCharacter {
            expected: 3,
            found: 1
        })
    );
    assert_eq!(out, b"ad".to_vec());
    let mut out = Vec::new();
    assert_eq!(
        standard.decrypt(&[0xe3, 0xa1], &mut out),
        Err(CipherError::TruncatedCharacter {
            expected: 3,
            found: 2
        })
    );
    assert!(out.is_empty());
    let extended = Cipher::new(Extended {});
    for found in 1..4 {
        let mut input = vec![0xf0, 0x93, 0xa1, 0xa4];
        input.extend_from_slice(&[0xf0, 0x93, 0xa1][..found]);
        let mut out = Vec::new();
        assert_eq!(
            extended.decrypt(&input, &mut out),
            Err(CipherError::TruncatedCharacter { expected: 4, found })
        );
        assert_eq!(out, b"ad".to_vec());
    }
}

#[test]
fn cipher_truncated_string() {
    // one unit of four bytes, read as units of three
    let standard = Cipher::new(Standard {});
    assert_eq!(
        standard.decrypt_string("\u{13864}"),
        Err(CipherError::TruncatedCharacter {
            expected: 3,
            found: 1
        })
    );
    let extended = Cipher::new(Extended {});
    assert_eq!(
        extended.decrypt_string("㡤"),
        Err(CipherError::TruncatedCharacter {
            expected: 4,
            found: 3
        })
    );
}

#[test]
fn cipher_output_that_is_not_utf8() {
    // a control character in first place gives an overlong form
    let standard = Cipher::new(Standard {});
    assert_eq!(
        standard.encrypt_string("\n1"),
        Err(CipherError::InvalidUtf8Output)
    );
    let mut out = Vec::new();
    assert_eq!(standard.encrypt(b"\n1", &mut out), Ok(()));
    assert_eq!(out, vec![0xe0, 0x8a, 0xb1]);
    let mut back = Vec::new();
    assert_eq!(standard.decrypt(&out, &mut back), Ok(()));
    assert_eq!(back, b"\n1".to_vec());
    // alone, or behind a byte that is none, it does no harm
    assert_eq!(
        standard
            .decrypt_string(&standard.encrypt_string("\n").unwrap())
            .unwrap(),
        "\n"
    );
    assert_eq!(
        standard
            .decrypt_string(&standard.encrypt_string("a\n").unwrap())
            .unwrap(),
        "a\n"
    );
    // with four bytes to a unit there is no such input
    let extended = Cipher::new(Extended {});
    let packed = extended.encrypt_string("\n1\0\t").unwrap();
    assert_eq!(extended.decrypt_string(&packed).unwrap(), "\n1\0\t");
}

#[test]
fn cipher_text_outside_ascii_does_not_come_back() {
    let standard = Cipher::new(Standard {});
    let packed = standard.encrypt_string("é").unwrap();
    // é is 0xc3 0xa9; without the eighth bits that is 0x43 0x29
    assert_eq!(standard.decrypt_string(&packed).unwrap(), "C)");
}

#[test]
fn cipher_sizes() {
    assert_eq!(Cipher::<Standard, 3>::encrypt_size(0), 0);
    assert_eq!(Cipher::<Standard, 3>::encrypt_size(1), 3);
    assert_eq!(Cipher::<Standard, 3>::encrypt_size(2), 3);
    assert_eq!(Cipher::<Standard, 3>::encrypt_size(7), 12);
    assert_eq!(Cipher::<Extended, 4>::encrypt_size(7), 16);
    assert_eq!(Cipher::<Standard, 3>::decrypt_size(0), 0);
    assert_eq!(Cipher::<Standard, 3>::decrypt_size(2), 0);
    assert_eq!(Cipher::<Standard, 3>::decrypt_size(12), 8);
    assert_eq!(Cipher::<Standard, 3>::decrypt_size(14), 8);
    assert_eq!(Cipher::<Extended, 4>::decrypt_size(16), 8);
}

#[test]
fn cipher_sizes_are_the_sizes_that_come_out() {
    let standard = Cipher::new(Standard {});
    let extended = Cipher::new(Extended {});
    let text = b"a longer string than most of the others";
    for n in 0..text.len() {
        let mut packed = Vec::new();
        standard.encrypt(&text[..n], &mut packed).unwrap();
        assert_eq!(packed.len(), Cipher::<Standard, 3>::encrypt_size(n));
        let mut back = Vec::new();
        standard.decrypt(&packed, &mut back).unwrap();
        assert_eq!(
            back.len() + n % 2,
            Cipher::<Standard, 3>::decrypt_size(packed.len())
        );
        assert_eq!(back, text[..n].to_vec());
        let mut packed = Vec::new();
        extended.encrypt(&text[..n], &mut packed).unwrap();
        assert_eq!(packed.len(), Cipher::<Extended, 4>::encrypt_size(n));
        let mut back = Vec::new();
        extended.decrypt(&packed, &mut back).unwrap();
        assert_eq!(
            back.len() + n % 2,
            Cipher::<Extended, 4>::decrypt_size(packed.len())
        );
        assert_eq!(back, text[..n].to_vec());
    }
}

#[test]
fn cipher_every_printable_pair_comes_back() {
    let standard = Cipher::new(Standard {});
    let extended = Cipher::new(Extended {});
    for a in 0x20u8..=0x7e {
        for b in 0x20u8..=0x7e {
            let text = String::from_utf8(vec![a, b]).unwrap();
            let packed = standard.encrypt_string(&text).expect("must succeed");
            assert_eq!(packed.chars().count(), 1);
            assert_eq!(standard.decrypt_string(&packed), Ok(text.clone()));
            let packed = extended.encrypt_string(&text).expect("must succeed");
            assert_eq!(packed.chars().count(), 1);
            assert_eq!(extended.decrypt_string(&packed), Ok(text));
        }
    }
}

#[test]
fn cipher_odd_length_ends_in_a_single_unit() {
    let standard = Cipher::new(Standard {});
    let mut whole = Vec::new();
    standard.encrypt(b"hello", &mut whole).unwrap();
    let mut front = Vec::new();
    standard.encrypt(b"hell", &mut front).unwrap();
    assert_eq!(whole[..6], front[..]);
    assert_eq!(whole[6..], Standard::encrypt_single_char(b'o'));
}

#[test]
fn cipher_read_n_bytes() {
    let data = [1u8, 2, 3, 4, 5];
    let mut source = ByteSource::new(&data);
    assert_eq!(
        Cipher::<Standard, 3>::read_n_bytes(&mut source),
        Ok(Some([1, 2, 3]))
    );
    assert_eq!(
        Cipher::<Standard, 3>::read_n_bytes(&mut source),
        Err(CipherError::TruncatedCharacter {
            expected: 3,
            found: 2
        })
    );
    assert_eq!(Cipher::<Standard, 3>::read_n_bytes(&mut source), Ok(None));
    assert_eq!(
        Cipher::<Extended, 4>::insufficent_bytes(3),
        Err(CipherError::TruncatedCharacter {
            expected: 4,
            found: 3
        })
    );
}

#[test]
fn cipher_strings_that_pack_to_utf8() {
    let standard = Cipher::new(Standard {});
    // a control character in first place needs a seventh bit behind it
    assert!(standard.encrypt_string("\tA").is_ok());
    assert!(standard.encrypt_string("\t~").is_ok());
    assert_eq!(
        standard.encrypt_string("\t?"),
        Err(CipherError::InvalidUtf8Output)
    );
    assert_eq!(
        standard.encrypt_string("ab\0\0"),
        Err(CipherError::InvalidUtf8Output)
    );
    // in second place, and in a unit by itself, it does no harm
    assert!(standard.encrypt_string("?\t").is_ok());
    assert!(standard.encrypt_string("ab\t").is_ok());
    for c0 in 0u8..128 {
        for c1 in 0u8..128 {
            let text = String::from_utf8(vec![c0, c1]).unwrap();
            let fits = c0 & 0x60 != 0 || c1 & 0x40 != 0;
            assert_eq!(standard.encrypt_string(&text).is_ok(), fits);
        }
    }
}

#[test]
fn cipher_unpacked_strings_are_ascii() {
    let standard = Cipher::new(Standard {});
    // units that nothing packs still stand for seven-bit bytes
    assert_eq!(standard.decrypt_string("\u{ffff}"), Ok("\u{7f}".to_string()));
    // lead 0x61: flag clear, seventh bits 0 and 1; then 0x22 and 0x23
    assert_eq!(standard.decrypt_string("abc"), Ok("\"c".to_string()));
    let extended = Cipher::new(Extended {});
    assert_eq!(
        extended.decrypt_string("\u{10ffff}"),
        Ok("\u{7f}".to_string())
    );
}

use glyph_cipher::cipher::chars::{char_len, Chars};
use glyph_cipher::error::CipherError;

#[test]
fn chars_char_test() {
    let reader = "h💯❤⭐k".to_string();
    let mut chars = Chars::new(reader.as_bytes());
    let res = chars.next().unwrap().expect("got error");
    assert_eq!('h', res);
    let res = chars.next().unwrap().expect("got error");
    assert_eq!('💯', res);
    let res = chars.next().unwrap().expect("got error");
    assert_eq!('❤', res);
    let res = chars.next().unwrap().expect("got error");
    assert_eq!('⭐', res);
    let res = chars.next().unwrap().expect("got error");
    assert_eq!('k', res);
}

#[test]
fn decrypt_char_test() {
    let reader = "h💯❤⭐k".to_string();
    let mut chars = glyph_cipher::decrypt::Chars::new(reader.as_bytes());
    let res = chars.next().unwrap().expect("got error");
    assert_eq!('h', res);
    let res = chars.next().unwrap().expect("got error");
    assert_eq!('💯', res);
    let res = chars.next().unwrap().expect("got error");
    assert_eq!('❤', res);
    let res = chars.next().unwrap().expect("got error");
    assert_eq!('⭐', res);
    let res = chars.next().unwrap().expect("got error");
    assert_eq!('k', res);
}

#[test]
fn chars_end_is_reported_again() {
    let mut chars = Chars::new("k".as_bytes());
    assert_eq!(chars.next(), Some(Ok('k')));
    assert_eq!(chars.next(), None);
    assert_eq!(chars.next(), None);
    assert_eq!(chars.next_char(), Ok(None));
}

#[test]
fn chars_empty_source() {
    let mut chars = Chars::new(&[]);
    assert_eq!(chars.next(), None);
}

#[test]
fn chars_two_byte_character() {
    let mut chars = Chars::new("é!".as_bytes());
    assert_eq!(chars.next(), Some(Ok('é')));
    assert_eq!(chars.next(), Some(Ok('!')));
    assert_eq!(chars.next(), None);
}

#[test]
fn chars_invalid_first_byte() {
    let mut chars = Chars::new(&[0xff, b'a']);
    assert_eq!(
        chars.next(),
        Some(Err(CipherError::InvalidFirstByte { first_byte: 0xff }))
    );
    assert_eq!(chars.next(), Some(Ok('a')));
    assert_eq!(chars.next(), None);
}

#[test]
fn chars_truncated_character() {
    let mut chars = Chars::new(&[0xe2, 0x9d]);
    assert_eq!(
        chars.next(),
        Some(Err(CipherError::TruncatedCharacter {
            expected: 3,
            found: 2
        }))
    );
    assert_eq!(chars.next(), None);
}

#[test]
fn chars_bytes_that_are_no_character() {
    let mut chars = Chars::new(&[0xc3, 0x28, b'a']);
    assert_eq!(chars.next(), Some(Err(CipherError::InvalidCharacter)));
    assert_eq!(chars.next(), Some(Ok('a')));
    let mut chars = Chars::new(&[0x80, 0x80]);
    assert_eq!(chars.next(), Some(Err(CipherError::InvalidCharacter)));
    assert_eq!(chars.next(), None);
}

#[test]
fn char_len_ranges() {
    assert_eq!(char_len(0x00), Ok(1));
    assert_eq!(char_len(0x70), Ok(1));
    assert_eq!(
        char_len(0x71),
        Err(CipherError::InvalidFirstByte { first_byte: 0x71 })
    );
    assert_eq!(
        char_len(0x7f),
        Err(CipherError::InvalidFirstByte { first_byte: 0x7f })
    );
    assert_eq!(char_len(0x80), Ok(2));
    assert_eq!(char_len(0xdf), Ok(2));
    assert_eq!(char_len(0xe0), Ok(3));
    assert_eq!(char_len(0xef), Ok(3));
    assert_eq!(char_len(0xf0), Ok(4));
    assert_eq!(char_len(0xf7), Ok(4));
    assert_eq!(
        char_len(0xf8),
        Err(CipherError::InvalidFirstByte { first_byte: 0xf8 })
    );
}

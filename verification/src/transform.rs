//! What the transforms compute, stated over sequences of bytes, and what
//! holds of it for every layout that gives its pairs back.

use crate::error::CipherError;
use vstd::prelude::*;
use vstd::utf8::{
    decode_utf8, decode_utf8_encode_utf8, encode_utf8, encode_utf8_decode_utf8,
    encode_utf8_valid_utf8, is_ascii_chars, is_ascii_chars_encode_utf8, length_of_first_scalar,
    pop_first_scalar, valid_first_scalar, valid_utf8, valid_utf8_concat,
};

verus! {

/// The seven bits of `c` that a unit keeps.
pub open spec fn low7(c: u8) -> u8 {
    c & 0x7f
}

/// What comes back for a pair after packing and unpacking: each byte
/// without its eighth bit.
pub open spec fn masked_pair(c0: u8, c1: Option<u8>) -> (u8, Option<u8>) {
    (
        low7(c0),
        match c1 {
            Some(c) => Some(low7(c)),
            None => None,
        },
    )
}

/// The bytes that an unpacked pair stands for: two, or one where the second
/// is absent.
pub open spec fn pair_bytes(pair: (u8, Option<u8>)) -> Seq<u8> {
    match pair.1 {
        Some(c1) => seq![pair.0, c1],
        None => seq![pair.0],
    }
}

/// The units for `input`, one after the other: the bytes are taken two at a
/// time, and a last byte without a partner is packed alone.
pub open spec fn encrypted_bytes(
    pack: spec_fn(u8, Option<u8>) -> Seq<u8>,
    input: Seq<u8>,
) -> Seq<u8>
    decreases input.len(),
{
    if input.len() == 0 {
        Seq::empty()
    } else if input.len() == 1 {
        pack(input[0], None)
    } else {
        pack(input[0], Some(input[1])) + encrypted_bytes(pack, input.skip(2))
    }
}

/// The bytes that the whole units of `input` stand for, `width` bytes to a
/// unit. Bytes behind the last whole unit stand for nothing.
pub open spec fn decrypted_bytes(
    unpack: spec_fn(Seq<u8>) -> (u8, Option<u8>),
    width: nat,
    input: Seq<u8>,
) -> Seq<u8>
    decreases input.len(),
{
    if width == 0 || input.len() < width {
        Seq::empty()
    } else {
        pair_bytes(unpack(input.take(width as int))) + decrypted_bytes(
            unpack,
            width,
            input.skip(width as int),
        )
    }
}

/// How unpacking `len` bytes ends: well where they are whole units, and
/// else with the size of the piece that is left over.
pub open spec fn decrypt_outcome(width: nat, len: nat) -> Result<(), CipherError> {
    if len % width == 0 {
        Ok(())
    } else {
        Err(
            CipherError::TruncatedCharacter {
                expected: width as usize,
                found: (len % width) as usize,
            },
        )
    }
}

/// The number of bytes that packing `num_bytes` bytes gives: one unit for
/// every two bytes, rounded up.
pub open spec fn encrypt_size_spec(width: nat, num_bytes: nat) -> nat {
    ((num_bytes + 1) / 2) * width
}

/// The most bytes that unpacking `num_bytes` bytes can give: two for every
/// whole unit.
pub open spec fn decrypt_size_spec(width: nat, num_bytes: nat) -> nat {
    (num_bytes / width) * 2
}

/// The text that the packed form of `text` is, where that form is UTF-8.
pub open spec fn encrypted_text(
    pack: spec_fn(u8, Option<u8>) -> Seq<u8>,
    text: Seq<char>,
) -> Result<Seq<char>, CipherError> {
    let bytes = encrypted_bytes(pack, encode_utf8(text));
    if valid_utf8(bytes) {
        Ok(decode_utf8(bytes))
    } else {
        Err(CipherError::InvalidUtf8Output)
    }
}

/// The text that `text` is the packed form of, where `text` is made of
/// whole units and what they stand for is UTF-8.
pub open spec fn decrypted_text(
    unpack: spec_fn(Seq<u8>) -> (u8, Option<u8>),
    width: nat,
    text: Seq<char>,
) -> Result<Seq<char>, CipherError> {
    let input = encode_utf8(text);
    let bytes = decrypted_bytes(unpack, width, input);
    match decrypt_outcome(width, input.len()) {
        Err(e) => Err(e),
        Ok(_) => if valid_utf8(bytes) {
            Ok(decode_utf8(bytes))
        } else {
            Err(CipherError::InvalidUtf8Output)
        },
    }
}

/// The characters of a string that a transform gave, or its failure.
pub open spec fn text_of(result: Result<String, CipherError>) -> Result<Seq<char>, CipherError> {
    match result {
        Ok(text) => Ok(text@),
        Err(e) => Err(e),
    }
}

/// Every unit of `pack` is `width` bytes wide.
pub open spec fn has_width(pack: spec_fn(u8, Option<u8>) -> Seq<u8>, width: nat) -> bool {
    forall|c0: u8, c1: Option<u8>| #[trigger] pack(c0, c1).len() == width
}

/// `unpack` undoes `pack`, up to the eighth bit of each byte.
pub open spec fn inverts(
    unpack: spec_fn(Seq<u8>) -> (u8, Option<u8>),
    pack: spec_fn(u8, Option<u8>) -> Seq<u8>,
) -> bool {
    forall|c0: u8, c1: Option<u8>| unpack(#[trigger] pack(c0, c1)) == masked_pair(c0, c1)
}

/// Whatever `unpack` is given, the bytes that it gives have the eighth bit
/// clear.
pub open spec fn gives_seven_bit(unpack: spec_fn(Seq<u8>) -> (u8, Option<u8>)) -> bool {
    forall|encrypted: Seq<u8>|
        {
            let pair = #[trigger] unpack(encrypted);
            pair.0 < 128 && (pair.1 matches Some(c1) ==> c1 < 128)
        }
}

/// None of the bytes is a control character once its eighth bit is
/// dropped: of its sixth and seventh bit, one is set.
pub open spec fn has_no_control_bytes(input: Seq<u8>) -> bool {
    forall|i: int| 0 <= i < input.len() ==> #[trigger] input[i] & 0x60 != 0
}

/// Every byte has its eighth bit clear.
pub open spec fn is_seven_bit(input: Seq<u8>) -> bool {
    forall|i: int| 0 <= i < input.len() ==> #[trigger] input[i] < 128
}

/// The unit that starts at position `i` of `input`: it holds the byte there
/// and the next one, where there is one.
pub open spec fn unit_at(pack: spec_fn(u8, Option<u8>) -> Seq<u8>, input: Seq<u8>, i: int) -> Seq<
    u8,
> {
    pack(
        input[i],
        if i + 1 < input.len() {
            Some(input[i + 1])
        } else {
            None
        },
    )
}

/// The first byte of `unit` is of the kind that starts a character of as
/// many bytes as `unit` has.
pub open spec fn announces_own_length(unit: Seq<u8>) -> bool {
    unit.len() > 0 && length_of_first_scalar(unit) == unit.len()
}

/// Every unit of `pack` starts with a byte that announces the length of
/// the unit.
pub open spec fn units_announce_length(pack: spec_fn(u8, Option<u8>) -> Seq<u8>) -> bool {
    forall|c0: u8, c1: Option<u8>| announces_own_length(#[trigger] pack(c0, c1))
}

/// Every unit of `input` is UTF-8.
pub open spec fn every_unit_is_utf8(pack: spec_fn(u8, Option<u8>) -> Seq<u8>, input: Seq<u8>) -> bool {
    forall|i: int| 0 <= i < input.len() && i % 2 == 0 ==> valid_utf8(#[trigger] unit_at(pack, input, i))
}

/// Packing nothing gives nothing, and so does unpacking.
pub proof fn lemma_empty(
    pack: spec_fn(u8, Option<u8>) -> Seq<u8>,
    unpack: spec_fn(Seq<u8>) -> (u8, Option<u8>),
    width: nat,
)
    requires
        width > 0,
    ensures
        encrypted_bytes(pack, Seq::empty()) == Seq::<u8>::empty(),
        decrypted_bytes(unpack, width, Seq::empty()) == Seq::<u8>::empty(),
        decrypt_outcome(width, 0) == Ok::<(), CipherError>(()),
{
}

/// Packing gives one unit for every two bytes, rounded up.
pub proof fn lemma_encrypted_len(
    pack: spec_fn(u8, Option<u8>) -> Seq<u8>,
    width: nat,
    input: Seq<u8>,
)
    requires
        has_width(pack, width),
    ensures
        encrypted_bytes(pack, input).len() == encrypt_size_spec(width, input.len()),
    decreases input.len(),
{
    if input.len() == 0 {
    } else if input.len() == 1 {
        assert(pack(input[0], None).len() == width);
    } else {
        let rest = input.skip(2);
        lemma_encrypted_len(pack, width, rest);
        assert(pack(input[0], Some(input[1])).len() == width);
        let k = (rest.len() + 1) / 2;
        assert((input.len() + 1) / 2 == k + 1);
        assert((k + 1) * width == k * width + width) by (nonlinear_arith);
    }
}

/// What packing gives is made of whole units.
pub proof fn lemma_encrypted_whole_units(
    pack: spec_fn(u8, Option<u8>) -> Seq<u8>,
    width: nat,
    input: Seq<u8>,
)
    requires
        width > 0,
        has_width(pack, width),
    ensures
        decrypt_outcome(width, encrypted_bytes(pack, input).len()) == Ok::<(), CipherError>(()),
{
    lemma_encrypted_len(pack, width, input);
    let k = (input.len() + 1) / 2;
    assert((k * width) % width == 0) by (nonlinear_arith)
        requires
            width > 0,
            k >= 0,
    ;
}

/// Unpacking never gives more than two bytes for each whole unit.
pub proof fn lemma_decrypted_len(
    unpack: spec_fn(Seq<u8>) -> (u8, Option<u8>),
    width: nat,
    input: Seq<u8>,
)
    requires
        width > 0,
    ensures
        decrypted_bytes(unpack, width, input).len() <= decrypt_size_spec(width, input.len()),
    decreases input.len(),
{
    if input.len() < width {
        assert(input.len() / width == 0) by (nonlinear_arith)
            requires
                0 <= input.len() < width,
        ;
    } else {
        let rest = input.skip(width as int);
        lemma_decrypted_len(unpack, width, rest);
        assert(input.len() / width == rest.len() / width + 1) by (nonlinear_arith)
            requires
                width > 0,
                input.len() == rest.len() + width,
        ;
    }
}

/// Unpacking what was packed gives the input back, each byte without its
/// eighth bit.
pub proof fn lemma_round_trip(
    pack: spec_fn(u8, Option<u8>) -> Seq<u8>,
    unpack: spec_fn(Seq<u8>) -> (u8, Option<u8>),
    width: nat,
    input: Seq<u8>,
)
    requires
        width > 0,
        has_width(pack, width),
        inverts(unpack, pack),
    ensures
        decrypted_bytes(unpack, width, encrypted_bytes(pack, input)) == input.map_values(
            |b: u8| low7(b),
        ),
    decreases input.len(),
{
    let masked = input.map_values(|b: u8| low7(b));
    if input.len() == 0 {
        assert(masked =~= Seq::empty());
    } else if input.len() == 1 {
        let unit = pack(input[0], None);
        assert(unit.len() == width);
        assert(unit.take(width as int) =~= unit);
        assert(unpack(unit) == masked_pair(input[0], None));
        assert(decrypted_bytes(unpack, width, unit.skip(width as int)) =~= Seq::empty());
        assert(decrypted_bytes(unpack, width, unit) =~= masked);
    } else {
        let unit = pack(input[0], Some(input[1]));
        let rest = encrypted_bytes(pack, input.skip(2));
        assert(unit.len() == width);
        assert((unit + rest).take(width as int) =~= unit);
        assert((unit + rest).skip(width as int) =~= rest);
        assert(unpack(unit) == masked_pair(input[0], Some(input[1])));
        lemma_round_trip(pack, unpack, width, input.skip(2));
        assert(decrypted_bytes(unpack, width, unit + rest) =~= masked);
    }
}

/// Bytes with the eighth bit clear come back as they were.
pub proof fn lemma_round_trip_seven_bit(
    pack: spec_fn(u8, Option<u8>) -> Seq<u8>,
    unpack: spec_fn(Seq<u8>) -> (u8, Option<u8>),
    width: nat,
    input: Seq<u8>,
)
    requires
        width > 0,
        has_width(pack, width),
        inverts(unpack, pack),
        is_seven_bit(input),
    ensures
        decrypted_bytes(unpack, width, encrypted_bytes(pack, input)) == input,
{
    lemma_round_trip(pack, unpack, width, input);
    assert forall|i: int| 0 <= i < input.len() implies low7(#[trigger] input[i]) == input[i] by {
        let b = input[i];
        assert(b < 128 ==> b & 0x7f == b) by (bit_vector);
    }
    assert(input.map_values(|b: u8| low7(b)) =~= input);
}

/// Bytes with the eighth bit clear are UTF-8.
pub proof fn lemma_seven_bit_is_utf8(bytes: Seq<u8>)
    requires
        is_seven_bit(bytes),
    ensures
        valid_utf8(bytes),
    decreases bytes.len(),
{
    if bytes.len() > 0 {
        let first = bytes[0];
        assert(first < 128);
        assert((first & 0x7f) as u32 <= 0x7f) by (bit_vector);
        assert(valid_first_scalar(bytes));
        let rest = pop_first_scalar(bytes);
        assert(rest =~= bytes.skip(1));
        assert forall|i: int| 0 <= i < rest.len() implies #[trigger] rest[i] < 128 by {
            assert(rest[i] == bytes[i + 1]);
        }
        lemma_seven_bit_is_utf8(rest);
    }
}

/// Where unpacking a unit gives bytes with the eighth bit clear, so does
/// unpacking a whole input, and what it gives is UTF-8.
pub proof fn lemma_decrypted_is_utf8(
    unpack: spec_fn(Seq<u8>) -> (u8, Option<u8>),
    width: nat,
    input: Seq<u8>,
)
    requires
        gives_seven_bit(unpack),
    ensures
        is_seven_bit(decrypted_bytes(unpack, width, input)),
        valid_utf8(decrypted_bytes(unpack, width, input)),
    decreases input.len(),
{
    if width == 0 || input.len() < width {
    } else {
        let pair = unpack(input.take(width as int));
        lemma_decrypted_is_utf8(unpack, width, input.skip(width as int));
        let rest = decrypted_bytes(unpack, width, input.skip(width as int));
        let all = decrypted_bytes(unpack, width, input);
        assert forall|i: int| 0 <= i < all.len() implies #[trigger] all[i] < 128 by {
            if i >= pair_bytes(pair).len() {
                assert(all[i] == rest[i - pair_bytes(pair).len()]);
            }
        }
    }
    lemma_seven_bit_is_utf8(decrypted_bytes(unpack, width, input));
}

/// An input of odd length ends in a unit that holds its last byte alone.
pub proof fn lemma_odd_length_ends_single(
    pack: spec_fn(u8, Option<u8>) -> Seq<u8>,
    input: Seq<u8>,
)
    requires
        input.len() % 2 == 1,
    ensures
        encrypted_bytes(pack, input) == encrypted_bytes(pack, input.drop_last()) + pack(
            input.last(),
            None,
        ),
    decreases input.len(),
{
    if input.len() == 1 {
        assert(encrypted_bytes(pack, input.drop_last()) + pack(input.last(), None) =~= pack(
            input[0],
            None,
        ));
    } else {
        let rest = input.skip(2);
        lemma_odd_length_ends_single(pack, rest);
        assert(input.drop_last().skip(2) =~= rest.drop_last());
        assert(encrypted_bytes(pack, input) =~= encrypted_bytes(pack, input.drop_last()) + pack(
            input.last(),
            None,
        ));
    }
}

/// Where every unit is UTF-8, so is all that packing gives.
pub proof fn lemma_encrypted_valid_utf8(pack: spec_fn(u8, Option<u8>) -> Seq<u8>, input: Seq<u8>)
    requires
        every_unit_is_utf8(pack, input),
    ensures
        valid_utf8(encrypted_bytes(pack, input)),
    decreases input.len(),
{
    if input.len() == 0 {
    } else if input.len() == 1 {
        assert(valid_utf8(unit_at(pack, input, 0)));
    } else {
        let rest = input.skip(2);
        assert forall|i: int| 0 <= i < rest.len() && i % 2 == 0 implies valid_utf8(
            #[trigger] unit_at(pack, rest, i),
        ) by {
            assert(unit_at(pack, rest, i) == unit_at(pack, input, i + 2));
        }
        lemma_encrypted_valid_utf8(pack, rest);
        assert(valid_utf8(unit_at(pack, input, 0)));
        valid_utf8_concat(pack(input[0], Some(input[1])), encrypted_bytes(pack, rest));
    }
}

/// Bytes behind a unit that announces its length are UTF-8 together with
/// it where the unit is UTF-8 and they are, and only there.
pub proof fn lemma_unit_then_rest(unit: Seq<u8>, rest: Seq<u8>)
    requires
        announces_own_length(unit),
    ensures
        valid_utf8(unit + rest) <==> valid_utf8(unit) && valid_utf8(rest),
{
    let all = unit + rest;
    assert(all[0] == unit[0]);
    assert(unit.len() >= 2 ==> all[1] == unit[1]);
    assert(unit.len() >= 3 ==> all[2] == unit[2]);
    assert(unit.len() >= 4 ==> all[3] == unit[3]);
    assert(valid_first_scalar(all) <==> valid_first_scalar(unit));
    assert(pop_first_scalar(all) =~= rest);
    assert(pop_first_scalar(unit) =~= Seq::<u8>::empty());
    assert(valid_utf8(Seq::<u8>::empty()));
}

/// Where every unit announces its length, what packing gives is UTF-8
/// where every unit of it is, and only there.
pub proof fn lemma_encrypted_valid_utf8_iff(
    pack: spec_fn(u8, Option<u8>) -> Seq<u8>,
    input: Seq<u8>,
)
    requires
        units_announce_length(pack),
    ensures
        valid_utf8(encrypted_bytes(pack, input)) <==> every_unit_is_utf8(pack, input),
    decreases input.len(),
{
    if every_unit_is_utf8(pack, input) {
        lemma_encrypted_valid_utf8(pack, input);
    }
    if valid_utf8(encrypted_bytes(pack, input)) {
        if input.len() == 0 {
        } else if input.len() == 1 {
            assert forall|i: int| 0 <= i < input.len() && i % 2 == 0 implies valid_utf8(
                #[trigger] unit_at(pack, input, i),
            ) by {
                assert(unit_at(pack, input, i) == pack(input[0], None));
            }
        } else {
            let unit = pack(input[0], Some(input[1]));
            let rest = input.skip(2);
            assert(announces_own_length(unit));
            lemma_unit_then_rest(unit, encrypted_bytes(pack, rest));
            lemma_encrypted_valid_utf8_iff(pack, rest);
            assert forall|i: int| 0 <= i < input.len() && i % 2 == 0 implies valid_utf8(
                #[trigger] unit_at(pack, input, i),
            ) by {
                if i == 0 {
                    assert(unit_at(pack, input, 0) == unit);
                } else {
                    assert(unit_at(pack, rest, i - 2) == unit_at(pack, input, i));
                }
            }
        }
    }
}

/// ASCII text whose packed form is UTF-8 comes back from that form as it
/// was.
pub proof fn lemma_text_round_trip(
    pack: spec_fn(u8, Option<u8>) -> Seq<u8>,
    unpack: spec_fn(Seq<u8>) -> (u8, Option<u8>),
    width: nat,
    text: Seq<char>,
)
    requires
        width > 0,
        has_width(pack, width),
        inverts(unpack, pack),
        is_ascii_chars(text),
        valid_utf8(encrypted_bytes(pack, encode_utf8(text))),
    ensures
        encrypted_text(pack, text) is Ok,
        decrypted_text(unpack, width, encrypted_text(pack, text)->Ok_0) == Ok::<
            Seq<char>,
            CipherError,
        >(text),
{
    let input = encode_utf8(text);
    let packed = encrypted_bytes(pack, input);
    decode_utf8_encode_utf8(packed);
    lemma_encrypted_whole_units(pack, width, input);
    is_ascii_chars_encode_utf8(text);
    assert forall|i: int| 0 <= i < input.len() implies #[trigger] input[i] < 128 by {
        assert(text[i] as u8 == input[i]);
    }
    lemma_round_trip_seven_bit(pack, unpack, width, input);
    encode_utf8_valid_utf8(text);
    encode_utf8_decode_utf8(text);
}

} // verus!

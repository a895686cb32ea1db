//! The ways in which a transform can fail, and what each is called.

use vstd::prelude::*;
use vstd::string::StringExecFns;

verus! {

/// Why a transform stopped.
#[derive(Debug, Clone, Copy, PartialEq, Eq, Structural)]
pub enum CipherError {
    /// The input ended inside a unit: `expected` bytes make up one unit, and
    /// only `found` of them were there, with `0 < found < expected`.
    TruncatedCharacter { expected: usize, found: usize },
    /// The bytes that came out are not UTF-8, so no string can hold them.
    InvalidUtf8Output,
    /// No character starts with this byte.
    InvalidFirstByte { first_byte: u8 },
    /// The bytes of one character are not the UTF-8 form of any character.
    InvalidCharacter,
}

/// The decimal digit for `d`.
pub open spec fn digit(d: nat) -> char
    recommends
        d < 10,
{
    if d == 0 {
        '0'
    } else if d == 1 {
        '1'
    } else if d == 2 {
        '2'
    } else if d == 3 {
        '3'
    } else if d == 4 {
        '4'
    } else if d == 5 {
        '5'
    } else if d == 6 {
        '6'
    } else if d == 7 {
        '7'
    } else if d == 8 {
        '8'
    } else {
        '9'
    }
}

/// The decimal numeral for `n`, without leading zeros.
pub open spec fn decimal(n: nat) -> Seq<char>
    decreases n,
{
    if n < 10 {
        seq![digit(n)]
    } else {
        decimal(n / 10).push(digit(n % 10))
    }
}

/// The message for an error.
pub open spec fn message_spec(e: CipherError) -> Seq<char> {
    match e {
        CipherError::TruncatedCharacter { expected, found } => "expected utf-8 character of "@
            + decimal(expected as nat) + " bytes but found character with only "@ + decimal(
            found as nat,
        ) + " byte(s)"@,
        CipherError::InvalidUtf8Output => "output is not valid utf-8"@,
        CipherError::InvalidFirstByte { first_byte } => "invalid first byte: "@ + decimal(
            first_byte as nat,
        ),
        CipherError::InvalidCharacter => "invalid utf-8 sequence"@,
    }
}

/// The one-digit numeral for `d`.
fn digit_str(d: usize) -> (s: &'static str)
    requires
        d < 10,
    ensures
        s@ == seq![digit(d as nat)],
{
    proof {
        reveal_strlit("0");
        reveal_strlit("1");
        reveal_strlit("2");
        reveal_strlit("3");
        reveal_strlit("4");
        reveal_strlit("5");
        reveal_strlit("6");
        reveal_strlit("7");
        reveal_strlit("8");
        reveal_strlit("9");
    }
    let s = if d == 0 {
        "0"
    } else if d == 1 {
        "1"
    } else if d == 2 {
        "2"
    } else if d == 3 {
        "3"
    } else if d == 4 {
        "4"
    } else if d == 5 {
        "5"
    } else if d == 6 {
        "6"
    } else if d == 7 {
        "7"
    } else if d == 8 {
        "8"
    } else {
        "9"
    };
    assert(s@ =~= seq![digit(d as nat)]);
    s
}

/// Puts the decimal numeral for `n` behind what `text` holds.
pub fn push_decimal(text: &mut String, n: usize)
    ensures
        final(text)@ == old(text)@ + decimal(n as nat),
    decreases n,
{
    if n >= 10 {
        push_decimal(text, n / 10);
    }
    text.append(digit_str(n % 10));
    assert(final(text)@ =~= old(text)@ + decimal(n as nat));
}

impl CipherError {
    /// The message for this error.
    pub fn message(&self) -> (text: String)
        ensures
            text@ == message_spec(*self),
    {
        match self {
            CipherError::TruncatedCharacter { expected, found } => {
                let mut text = String::from_str("expected utf-8 character of ");
                push_decimal(&mut text, *expected);
                text.append(" bytes but found character with only ");
                push_decimal(&mut text, *found);
                text.append(" byte(s)");
                text
            },
            CipherError::InvalidUtf8Output => String::from_str("output is not valid utf-8"),
            CipherError::InvalidFirstByte { first_byte } => {
                let mut text = String::from_str("invalid first byte: ");
                push_decimal(&mut text, *first_byte as usize);
                text
            },
            CipherError::InvalidCharacter => String::from_str("invalid utf-8 sequence"),
        }
    }
}

} // verus!

//! Text for tokens: the decimal spelling of a number, and strings from bytes.

use std::string::FromUtf8Error;
use vstd::prelude::*;
use vstd::utf8::{
    decode_utf8, encode_utf8, encode_utf8_decode_utf8, encode_utf8_valid_utf8, is_ascii_chars,
    is_ascii_chars_encode_utf8, valid_utf8,
};

verus! {

/// The error of `String::from_utf8`; nothing is read from it.
#[verifier::external_type_specification]
#[verifier::external_body]
pub struct ExFromUtf8Error(FromUtf8Error);

/// `String::from_utf8` of std. It succeeds exactly on the byte vectors that are
/// valid UTF-8, and the string it gives is the text that the bytes encode.
pub assume_specification[ String::from_utf8 ](vec: Vec<u8>) -> (r: Result<String, FromUtf8Error>)
    ensures
        r is Ok <==> valid_utf8(vec@),
        r matches Ok(s) ==> s@ == decode_utf8(vec@),
;

/// The characters that ASCII bytes stand for, one for each byte.
pub open spec fn ascii_text(bytes: Seq<u8>) -> Seq<char> {
    Seq::new(bytes.len(), |i: int| bytes[i] as char)
}

/// Every byte is in the 7-bit ASCII range.
pub open spec fn all_ascii(bytes: Seq<u8>) -> bool {
    forall|i: int| 0 <= i < bytes.len() ==> #[trigger] bytes[i] <= 0x7f
}

/// The character of the decimal digit `d`.
pub open spec fn digit_char(d: int) -> char {
    ((0x30 + d) as u8) as char
}

/// The decimal spelling of a natural number, without leading zeros.
pub open spec fn digits_text(n: nat) -> Seq<char>
    decreases n,
{
    if n < 10 {
        seq![digit_char(n as int)]
    } else {
        digits_text(n / 10).push(digit_char((n % 10) as int))
    }
}

/// The decimal spelling of an integer: a minus sign before the digits of a
/// negative one.
pub open spec fn decimal_text(n: int) -> Seq<char> {
    if n < 0 {
        seq!['-'] + digits_text((-n) as nat)
    } else {
        digits_text(n as nat)
    }
}

/// ASCII bytes are valid UTF-8, and the text they encode holds one character
/// for each byte.
pub proof fn lemma_ascii_is_utf8(bytes: Seq<u8>)
    requires
        all_ascii(bytes),
    ensures
        valid_utf8(bytes),
        decode_utf8(bytes) == ascii_text(bytes),
{
    let chars = ascii_text(bytes);
    assert(is_ascii_chars(chars)) by {
        assert forall|i: int| 0 <= i < chars.len() implies '\0' <= #[trigger] chars[i]
            <= '\u{7f}' by {
            assert(bytes[i] <= 0x7f);
        }
    }
    is_ascii_chars_encode_utf8(chars);
    assert(encode_utf8(chars) =~= bytes) by {
        assert forall|i: int| 0 <= i < bytes.len() implies encode_utf8(chars)[i] == bytes[i] by {
            assert(bytes[i] <= 0x7f);
            assert(chars[i] as u8 == bytes[i]);
        }
    }
    encode_utf8_valid_utf8(chars);
    encode_utf8_decode_utf8(chars);
}

/// The decimal spelling of `n` in ASCII bytes.
pub fn decimal_bytes(n: i64) -> (bytes: Vec<u8>)
    ensures
        all_ascii(bytes@),
        ascii_text(bytes@) == decimal_text(n as int),
{
    let negative = n < 0;
    let magnitude: u64 = if negative {
        (-(n as i128)) as u64
    } else {
        n as u64
    };
    // The digits, the last one first.
    let mut backwards: Vec<u8> = Vec::new();
    let mut rest: u64 = magnitude;
    loop
        invariant_except_break
            digits_text(magnitude as nat) == digits_text(rest as nat) + ascii_text(
                backwards@,
            ).reverse(),
        invariant
            all_ascii(backwards@),
        ensures
            digits_text(magnitude as nat) == ascii_text(backwards@).reverse(),
        decreases rest,
    {
        let ghost before = ascii_text(backwards@);
        let digit: u8 = (rest % 10) as u8;
        backwards.push(0x30 + digit);
        assert(ascii_text(backwards@) =~= before.push(digit_char(digit as int)));
        if rest < 10 {
            assert(seq![digit_char(digit as int)] + before.reverse() =~= ascii_text(
                backwards@,
            ).reverse());
            break ;
        }
        assert(digits_text((rest / 10) as nat).push(digit_char(digit as int)) + before.reverse()
            =~= digits_text((rest / 10) as nat) + ascii_text(backwards@).reverse());
        rest = rest / 10;
    }
    if negative {
        let ghost before = ascii_text(backwards@);
        backwards.push(0x2d);
        assert(ascii_text(backwards@) =~= before.push('-'));
        assert(ascii_text(backwards@).reverse() =~= seq!['-'] + before.reverse());
    }
    let ghost goal = ascii_text(backwards@).reverse();
    let mut bytes: Vec<u8> = Vec::new();
    assert(ascii_text(bytes@) + ascii_text(backwards@).reverse() =~= goal);
    while backwards.len() > 0
        invariant
            all_ascii(backwards@),
            all_ascii(bytes@),
            ascii_text(bytes@) + ascii_text(backwards@).reverse() == goal,
        decreases backwards.len(),
    {
        let ghost done = ascii_text(bytes@);
        let ghost left = ascii_text(backwards@);
        let ghost old_back = backwards@;
        let b = backwards.pop().unwrap();
        assert(b == old_back[old_back.len() - 1]);
        bytes.push(b);
        assert(ascii_text(bytes@) + ascii_text(backwards@).reverse() =~= done + left.reverse());
    }
    assert(ascii_text(bytes@) + ascii_text(backwards@).reverse() =~= ascii_text(bytes@));
    bytes
}

/// The string that ASCII bytes spell.
pub fn ascii_string(bytes: Vec<u8>) -> (s: String)
    requires
        all_ascii(bytes@),
    ensures
        s@ == ascii_text(bytes@),
{
    proof {
        lemma_ascii_is_utf8(bytes@);
    }
    match String::from_utf8(bytes) {
        Ok(s) => s,
        Err(_) => unreached(),
    }
}

} // verus!

//! Bytes written as pairs of hexadecimal digits.

use vstd::prelude::*;

verus! {

/// The small hexadecimal digit for a value below sixteen.
pub open spec fn digit(value: int) -> char {
    if 0 <= value < 10 {
        (('0' as int) + value) as char
    } else {
        (('a' as int) + (value - 10)) as char
    }
}

/// The value of a hexadecimal digit, capital or small.
pub open spec fn digit_value(c: char) -> Option<int> {
    if '0' <= c && c <= '9' {
        Some((c as int) - ('0' as int))
    } else if 'a' <= c && c <= 'f' {
        Some((c as int) - ('a' as int) + 10)
    } else if 'A' <= c && c <= 'F' {
        Some((c as int) - ('A' as int) + 10)
    } else {
        None
    }
}

/// `bytes` as text, two small digits for each.
pub open spec fn encoded(bytes: Seq<u8>) -> Seq<char> {
    Seq::new(
        2 * bytes.len(),
        |i: int|
            if i % 2 == 0 {
                digit(bytes[i / 2] as int / 16)
            } else {
                digit(bytes[i / 2] as int % 16)
            },
    )
}

/// Whether `text` is made of pairs of hexadecimal digits.
pub open spec fn is_encoding(text: Seq<char>) -> bool {
    &&& text.len() % 2 == 0
    &&& forall|i: int| 0 <= i < text.len() ==> digit_value(#[trigger] text[i]) is Some
}

/// The bytes that `text` stands for, if it is made of pairs of hexadecimal digits.
pub open spec fn decoded(text: Seq<char>) -> Option<Seq<u8>> {
    if is_encoding(text) {
        Some(
            Seq::new(
                text.len() / 2,
                |i: int|
                    (16 * digit_value(text[2 * i])->0 + digit_value(text[2 * i + 1])->0) as u8,
            ),
        )
    } else {
        None
    }
}

/// The bytes that a vector may hold.
pub open spec fn optional_bytes(bytes: Option<Vec<u8>>) -> Option<Seq<u8>> {
    match bytes {
        Some(bytes) => Some(bytes@),
        None => None,
    }
}

/// Calls `hex::encode`: each byte becomes two small digits.
#[verifier::external_body]
pub(crate) fn encode(bytes: &[u8]) -> (text: String)
    ensures
        text@ == encoded(bytes@),
{
    hex::encode(bytes)
}

/// Calls `hex::decode`: the bytes are there exactly where the text is made of pairs of digits,
/// capital or small.
#[verifier::external_body]
pub(crate) fn decode(text: &str) -> (bytes: Option<Vec<u8>>)
    ensures
        optional_bytes(bytes) == decoded(text@),
{
    hex::decode(text).ok()
}

/// Decoding gives back what was encoded.
pub proof fn law_decode_undoes_encode(bytes: Seq<u8>)
    ensures
        decoded(encoded(bytes)) == Some(bytes),
{
    let text = encoded(bytes);
    assert forall|i: int| 0 <= i < text.len() implies digit_value(#[trigger] text[i]) is Some by {
        lemma_digit_value(bytes[i / 2] as int / 16);
        lemma_digit_value(bytes[i / 2] as int % 16);
    }
    assert(is_encoding(text));
    assert forall|i: int| 0 <= i < bytes.len() implies #[trigger] decoded(text)->0[i] == bytes[i] by {
        assert((2 * i) % 2 == 0 && (2 * i) / 2 == i);
        assert((2 * i + 1) % 2 == 1 && (2 * i + 1) / 2 == i);
        lemma_digit_value(bytes[i] as int / 16);
        lemma_digit_value(bytes[i] as int % 16);
        assert(text[2 * i] == digit(bytes[i] as int / 16));
        assert(text[2 * i + 1] == digit(bytes[i] as int % 16));
    }
    assert(decoded(text)->0 =~= bytes);
}

/// A digit stands for its value.
pub proof fn lemma_digit_value(value: int)
    requires
        0 <= value < 16,
    ensures
        digit_value(digit(value)) == Some(value),
{
}

/// The lowest `count` digits of `number`, the highest of them first.
pub open spec fn digits(number: nat, count: nat) -> Seq<char>
    decreases count,
{
    if count == 0 {
        Seq::empty()
    } else {
        digits(number / 16, (count - 1) as nat).push(digit((number % 16) as int))
    }
}

/// There are as many digits as were asked for.
pub proof fn lemma_digit_count(number: nat, count: nat)
    ensures
        digits(number, count).len() == count,
    decreases count,
{
    if count > 0 {
        lemma_digit_count(number / 16, (count - 1) as nat);
    }
}

fn digit_of(value: u8) -> (c: char)
    requires
        value < 16,
    ensures
        c == digit(value as int),
{
    if value < 10 {
        (48 + value) as char
    } else {
        (87 + value) as char
    }
}

/// Appends the lowest `count` digits of `number` to `out`.
pub fn push_digits(out: &mut String, number: u64, count: u8)
    ensures
        final(out)@ == old(out)@ + digits(number as nat, count as nat),
    decreases count,
{
    if count > 0 {
        push_digits(out, number / 16, count - 1);
        out.push(digit_of((number % 16) as u8));
    }
    assert(out@ =~= old(out)@ + digits(number as nat, count as nat));
}

spec fn power_of_sixteen(count: nat) -> nat
    decreases count,
{
    if count == 0 {
        1
    } else {
        16 * power_of_sixteen((count - 1) as nat)
    }
}

proof fn lemma_digits_tell_numbers_apart(a: nat, b: nat, count: nat)
    requires
        a < power_of_sixteen(count),
        b < power_of_sixteen(count),
        digits(a, count) == digits(b, count),
    ensures
        a == b,
    decreases count,
{
    if count > 0 {
        let less = (count - 1) as nat;
        assert(digits(a, count).drop_last() =~= digits(a / 16, less));
        assert(digits(b, count).drop_last() =~= digits(b / 16, less));
        assert(digits(a, count).last() == digit((a % 16) as int));
        assert(digits(b, count).last() == digit((b % 16) as int));
        lemma_digit_value((a % 16) as int);
        lemma_digit_value((b % 16) as int);
        assert(a % 16 == b % 16);
        lemma_digits_tell_numbers_apart(a / 16, b / 16, less);
    }
}

/// Sixteen digits tell any two 64-bit numbers apart.
pub proof fn law_sixteen_digits_are_unique(a: u64, b: u64)
    requires
        digits(a as nat, 16) == digits(b as nat, 16),
    ensures
        a == b,
{
    assert(power_of_sixteen(16) == 0x1_0000_0000_0000_0000) by {
        reveal_with_fuel(power_of_sixteen, 17);
    }
    lemma_digits_tell_numbers_apart(a as nat, b as nat, 16);
}

/// The digits are the ten numerals and the first six small letters, in order of their values.
pub proof fn law_digits_are_numerals_and_small_letters(value: int)
    requires
        0 <= value < 16,
    ensures
        digit(value) == seq![
            '0',
            '1',
            '2',
            '3',
            '4',
            '5',
            '6',
            '7',
            '8',
            '9',
            'a',
            'b',
            'c',
            'd',
            'e',
            'f',
        ][value],
{
}

/// A digit is read by its value in either case, and no other character is.
pub proof fn law_digits_are_read_in_either_case(c: char, value: int)
    ensures
        digit_value(c) == Some(value) <==> 0 <= value < 16 && (c == digit(value) || value >= 10
            && c as int == digit(value) as int - 32),
{
}

/// Each byte stands at its own two places, the higher half in front.
pub proof fn law_each_byte_becomes_two_digits(bytes: Seq<u8>, i: int)
    requires
        0 <= i < bytes.len(),
    ensures
        encoded(bytes).len() == 2 * bytes.len(),
        encoded(bytes)[2 * i] == digit(bytes[i] as int / 16),
        encoded(bytes)[2 * i + 1] == digit(bytes[i] as int % 16),
{
    assert((2 * i) % 2 == 0 && (2 * i) / 2 == i);
    assert((2 * i + 1) % 2 == 1 && (2 * i + 1) / 2 == i);
}

/// Just the encodings are decoded, with digits in either case: text stands for `bytes` exactly where
/// it has two digits for each of them, one for its higher and one for its lower half.
pub proof fn law_just_pairs_of_digits_are_decoded(text: Seq<char>, bytes: Seq<u8>)
    ensures
        decoded(text) == Some(bytes) <==> text.len() == 2 * bytes.len() && forall|i: int|
            0 <= i < bytes.len() ==> digit_value(text[2 * i]) == Some(
                #[trigger] bytes[i] as int / 16,
            ) && digit_value(text[2 * i + 1]) == Some(bytes[i] as int % 16),
{
    if decoded(text) == Some(bytes) {
        assert forall|i: int| 0 <= i < bytes.len() implies digit_value(text[2 * i]) == Some(
            #[trigger] bytes[i] as int / 16,
        ) && digit_value(text[2 * i + 1]) == Some(bytes[i] as int % 16) by {
            assert(digit_value(text[2 * i]) is Some);
            assert(digit_value(text[2 * i + 1]) is Some);
            let high = digit_value(text[2 * i])->0;
            let low = digit_value(text[2 * i + 1])->0;
            law_digits_are_read_in_either_case(text[2 * i], high);
            law_digits_are_read_in_either_case(text[2 * i + 1], low);
            assert(bytes[i] == (16 * high + low) as u8);
        }
    }
    if text.len() == 2 * bytes.len() && forall|i: int|
        0 <= i < bytes.len() ==> digit_value(text[2 * i]) == Some(#[trigger] bytes[i] as int / 16)
            && digit_value(text[2 * i + 1]) == Some(bytes[i] as int % 16) {
        assert forall|k: int| 0 <= k < text.len() implies digit_value(#[trigger] text[k]) is Some by {
            let i = k / 2;
            assert(digit_value(text[2 * i]) == Some(bytes[i] as int / 16));
            assert(k == 2 * i || k == 2 * i + 1);
        }
        assert(is_encoding(text));
        assert(decoded(text)->0 =~= bytes) by {
            assert forall|i: int| 0 <= i < bytes.len() implies #[trigger] decoded(text)->0[i]
                == bytes[i] by {
                assert(digit_value(text[2 * i]) == Some(bytes[i] as int / 16));
            }
        }
    }
}

/// Digits stand by their places: the last is the one of the units, and each one in front of another
/// counts sixteen times as much.
pub proof fn law_digits_stand_by_their_places(number: nat, count: nat, i: int)
    requires
        0 <= i < count,
    ensures
        digits(number, count).len() == count,
        digits(number, count)[count - 1 - i] == digit(
            ((number as int) / vstd::arithmetic::power::pow(16, i as nat)) % 16,
        ),
    decreases count,
{
    lemma_digit_count(number, count);
    let less = (count - 1) as nat;
    lemma_digit_count(number / 16, less);
    if i == 0 {
        vstd::arithmetic::power::lemma_pow0(16);
    } else {
        law_digits_stand_by_their_places(number / 16, less, i - 1);
        let place = vstd::arithmetic::power::pow(16, (i - 1) as nat);
        vstd::arithmetic::power::lemma_pow_positive(16, (i - 1) as nat);
        assert(vstd::arithmetic::power::pow(16, i as nat) == 16 * place) by {
            reveal(vstd::arithmetic::power::pow);
        }
        vstd::arithmetic::div_mod::lemma_div_denominator(number as int, 16, place);
    }
}

} // verus!

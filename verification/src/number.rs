//! Hexadecimal numbers: how a chunk size is written and how it is read.
use vstd::prelude::*;

verus! {

/// The value of a hexadecimal digit, in either case; `None` for any other
/// character.
pub open spec fn digit_value(c: char) -> Option<nat> {
    if '0' <= c <= '9' {
        Some((c as nat - '0' as nat) as nat)
    } else if 'a' <= c <= 'f' {
        Some((c as nat - 'a' as nat + 10) as nat)
    } else if 'A' <= c <= 'F' {
        Some((c as nat - 'A' as nat + 10) as nat)
    } else {
        None
    }
}

/// `text` is made of hexadecimal digits alone.
pub open spec fn all_digits(text: Seq<char>) -> bool {
    forall|i: int| 0 <= i < text.len() ==> digit_value(#[trigger] text[i]) is Some
}

/// The number that the digits of `text` stand for, the most significant first.
pub open spec fn digits_value(text: Seq<char>) -> nat
    recommends
        all_digits(text),
    decreases text.len(),
{
    if text.len() == 0 {
        0
    } else {
        digits_value(text.drop_last()) * 16 + digit_value(text.last())->0
    }
}

/// `text` without the plus sign that it may start with.
pub open spec fn without_sign(text: Seq<char>) -> Seq<char> {
    if text.len() > 0 && text[0] == '+' {
        text.skip(1)
    } else {
        text
    }
}

/// The number that `text` denotes: an optional plus sign, then one or more
/// hexadecimal digits whose value fits in a `usize`.
pub open spec fn hex_number(text: Seq<char>) -> Option<usize> {
    let digits = without_sign(text);
    if digits.len() > 0 && all_digits(digits) && digits_value(digits) <= usize::MAX {
        Some(digits_value(digits) as usize)
    } else {
        None
    }
}

/// The value of a hexadecimal digit.
pub fn parse_digit(c: char) -> (r: Option<usize>)
    ensures
        r is Some <==> digit_value(c) is Some,
        r matches Some(v) ==> v == digit_value(c)->0 && v < 16,
{
    if '0' <= c && c <= '9' {
        Some(c as usize - '0' as usize)
    } else if 'a' <= c && c <= 'f' {
        Some(c as usize - 'a' as usize + 10)
    } else if 'A' <= c && c <= 'F' {
        Some(c as usize - 'A' as usize + 10)
    } else {
        None
    }
}

proof fn lemma_digits_value_grows(text: Seq<char>, i: int)
    requires
        0 <= i <= text.len(),
    ensures
        digits_value(text.take(i)) <= digits_value(text),
    decreases text.len() - i,
{
    if i < text.len() {
        lemma_digits_value_grows(text, i + 1);
        assert(text.take(i + 1).drop_last() =~= text.take(i));
    } else {
        assert(text.take(i) =~= text);
    }
}

/// Reads a hexadecimal number that fits in a `usize`.
pub fn parse_hex(text: &[char]) -> (r: Option<usize>)
    ensures
        r == hex_number(text@),
{
    let start: usize = if text.len() > 0 && text[0] == '+' {
        1
    } else {
        0
    };
    let ghost digits = text@.skip(start as int);
    assert(digits =~= without_sign(text@));
    if start == text.len() {
        return None;
    }
    let mut value: usize = 0;
    let mut i: usize = start;
    assert(digits.take(0).len() == 0);
    while i < text.len()
        invariant
            start <= i <= text.len(),
            start < text.len(),
            digits == text@.skip(start as int),
            digits == without_sign(text@),
            forall|j: int| 0 <= j < i - start ==> digit_value(#[trigger] digits[j]) is Some,
            value == digits_value(digits.take(i - start)),
        decreases text.len() - i,
    {
        assert(digits[i - start] == text@[i as int]);
        match parse_digit(text[i]) {
            None => {
                return None;
            },
            Some(d) => {
                proof {
                    assert(digits.take(i - start + 1).drop_last() =~= digits.take(i - start));
                    lemma_digits_value_grows(digits, i - start + 1);
                }
                if value > (usize::MAX - d) / 16 {
                    return None;
                }
                value = value * 16 + d;
            },
        }
        i = i + 1;
    }
    assert(digits.take(i - start) =~= digits);
    Some(value)
}

/// The lower case digit for a value below sixteen.
pub open spec fn digit_byte(value: nat) -> u8 {
    if value < 10 {
        (value + 48) as u8
    } else {
        (value + 87) as u8
    }
}

/// `n` in lower case hexadecimal, without leading zeros.
pub open spec fn hex(n: nat) -> Seq<u8>
    decreases n,
{
    if n < 16 {
        seq![digit_byte(n)]
    } else {
        hex(n / 16).push(digit_byte(n % 16))
    }
}

/// Up to eight digits stand for the numbers that fit in 32 bits.
pub proof fn lemma_hex_length(n: nat)
    requires
        n <= 0xffff_ffff,
    ensures
        0 < hex(n).len() <= 8,
{
    lemma_hex_not_empty(n);
    reveal_with_fuel(hex, 8);
}

proof fn lemma_hex_not_empty(n: nat)
    ensures
        hex(n).len() > 0,
    decreases n,
{
    if n >= 16 {
        lemma_hex_not_empty(n / 16);
    }
}

/// Writes `n` in lower case hexadecimal.
pub fn write_hex(n: usize) -> (r: Vec<u8>)
    ensures
        r@ == hex(n as nat),
    decreases n,
{
    let digit: u8 = (n % 16) as u8;
    let byte: u8 = if digit < 10 {
        digit + 48
    } else {
        digit + 87
    };
    if n < 16 {
        vec![byte]
    } else {
        let mut r = write_hex(n / 16);
        r.push(byte);
        r
    }
}

/// `bytes`, all of them ASCII, as characters.
pub open spec fn ascii_text(bytes: Seq<u8>) -> Seq<char> {
    Seq::new(bytes.len(), |i: int| bytes[i] as char)
}

/// What is written in hexadecimal consists of digits and reads as the number
/// that was written.
pub proof fn lemma_hex_reads_back(n: nat)
    ensures
        hex(n).len() > 0,
        all_digits(ascii_text(hex(n))),
        digits_value(ascii_text(hex(n))) == n,
        forall|i: int|
            0 <= i < hex(n).len() ==> (48 <= #[trigger] hex(n)[i] <= 57 || 97 <= hex(n)[i] <= 102),
    decreases n,
{
    let text = ascii_text(hex(n));
    if n < 16 {
        assert(digits_value(text.drop_last()) == 0);
    } else {
        lemma_hex_reads_back(n / 16);
        assert(text.drop_last() =~= ascii_text(hex(n / 16)));
        assert forall|i: int| 0 <= i < text.len() implies digit_value(#[trigger] text[i]) is Some by {
            if i < text.len() - 1 {
                assert(text[i] == ascii_text(hex(n / 16))[i]);
            }
        }
    }
}

} // verus!

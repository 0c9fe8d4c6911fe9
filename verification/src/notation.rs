//! What a hexadecimal number and a size field mean: how the digits stand for the
//! number, which characters count, and what may stand around them.
use vstd::arithmetic::div_mod::{lemma_div_denominator, lemma_fundamental_div_mod_converse};
use vstd::arithmetic::power::{lemma_pow0, lemma_pow_adds, lemma_pow_positive, pow};
use vstd::prelude::*;

use vstd::utf8::{
    encode_utf8, encode_utf8_decode_utf8, encode_utf8_valid_utf8, is_ascii_chars,
    is_ascii_chars_encode_utf8, valid_utf8,
};

use crate::number::{
    all_digits, ascii_text, digit_value, digits_value, hex, hex_number, without_sign,
};
use crate::text::{is_white_space, size_field, trim, trim_end, trim_start};

verus! {

/// The ten digits stand for zero to nine, and the letters from A to F, in either
/// case, for ten to fifteen. No other character stands for anything.
pub proof fn law_digit(c: char)
    ensures
        forall|d: nat|
            digit_value(c) == Some(d) <==> ((d < 10 && c as nat == 48 + d) || (10 <= d < 16 && (
            c as nat == 97 + (d - 10) || c as nat == 65 + (d - 10)))),
{
}

/// Powers of sixteen grow by the factor sixteen.
proof fn lemma_pow_step(k: nat)
    ensures
        pow(16, k + 1) == 16 * pow(16, k),
        pow(16, k) > 0,
        pow(16, 0) == 1,
{
    lemma_pow0(16);
    vstd::arithmetic::power::lemma_pow1(16);
    lemma_pow_adds(16, 1, k);
    lemma_pow_positive(16, k);
}

/// Without its last digit a number has the other digits one place further to the
/// right.
proof fn lemma_place(v: nat, k: nat)
    ensures
        v as int / pow(16, k + 1) == (v / 16) as int / pow(16, k),
{
    lemma_pow_step(k);
    lemma_div_denominator(v as int, 16, pow(16, k));
}

/// The digits of a text stand at their places in its value.
proof fn lemma_digits_stand(digits: Seq<char>)
    requires
        all_digits(digits),
    ensures
        digits_value(digits) < pow(16, digits.len()),
        forall|j: int|
            0 <= j < digits.len() ==> digit_value(#[trigger] digits[j])->0 == (digits_value(
                digits,
            ) as int / pow(16, (digits.len() - 1 - j) as nat)) % 16,
    decreases digits.len(),
{
    lemma_pow0(16);
    if digits.len() > 0 {
        let n = digits.len();
        let v = digits_value(digits);
        let rest = digits.drop_last();
        let d = digit_value(digits.last())->0;
        assert(digits[n - 1] == digits.last());
        assert forall|j: int| 0 <= j < rest.len() implies digit_value(#[trigger] rest[j]) is Some by {
            assert(rest[j] == digits[j]);
        }
        lemma_digits_stand(rest);
        lemma_pow_step((n - 1) as nat);
        lemma_fundamental_div_mod_converse(v as int, 16, digits_value(rest) as int, d as int);
        assert forall|j: int| 0 <= j < n implies digit_value(#[trigger] digits[j])->0 == (v as int
            / pow(16, (n - 1 - j) as nat)) % 16 by {
            if j < n - 1 {
                lemma_place(v, (n - 2 - j) as nat);
                assert(rest[j] == digits[j]);
            } else {
                assert(v as int / 1 == v);
            }
        }
    }
}

/// A number whose digits stand in a text is the value of the text.
proof fn lemma_digits_determine(digits: Seq<char>, v: nat)
    requires
        v < pow(16, digits.len()),
        forall|j: int|
            0 <= j < digits.len() ==> digit_value(#[trigger] digits[j]) == Some(
                ((v as int / pow(16, (digits.len() - 1 - j) as nat)) % 16) as nat,
            ),
    ensures
        all_digits(digits),
        digits_value(digits) == v,
    decreases digits.len(),
{
    lemma_pow0(16);
    if digits.len() > 0 {
        let n = digits.len();
        let rest = digits.drop_last();
        lemma_pow_step((n - 1) as nat);
        assert forall|j: int| 0 <= j < rest.len() implies digit_value(#[trigger] rest[j]) == Some(
            (((v / 16) as int / pow(16, (rest.len() - 1 - j) as nat)) % 16) as nat,
        ) by {
            lemma_place(v, (n - 2 - j) as nat);
            assert(rest[j] == digits[j]);
        }
        lemma_digits_determine(rest, v / 16);
        assert(digits[n - 1] == digits.last());
        assert(v as int / 1 == v);
    }
}

/// A text of digits denotes a number in base sixteen exactly if there is at least
/// one of them and the digit at each place is what the number has at that place.
/// One plus sign may stand before them, and nothing else. A text that denotes no
/// number that fits is refused.
pub proof fn law_number(digits: Seq<char>, v: usize)
    ensures
        ({
            let n = digits.len();
            let stands = n > 0 && v < pow(16, n) && forall|j: int|
                0 <= j < n ==> ({
                    let d = (v as int / pow(16, (n - 1 - j) as nat)) % 16;
                    let c = #[trigger] digits[j] as int;
                    (d < 10 && c == 48 + d) || (d >= 10 && (c == 97 + (d - 10) || c == 65 + (d
                        - 10)))
                });
            &&& n == 0 || digits[0] != '+' ==> (hex_number(digits) == Some(v) <==> stands)
            &&& hex_number(seq!['+'] + digits) == Some(v) <==> stands
        }),
{
    let n = digits.len();
    let stands = n > 0 && v < pow(16, n) && forall|j: int|
        0 <= j < n ==> ({
            let d = (v as int / pow(16, (n - 1 - j) as nat)) % 16;
            let c = #[trigger] digits[j] as int;
            (d < 10 && c == 48 + d) || (d >= 10 && (c == 97 + (d - 10) || c == 65 + (d - 10)))
        });
    assert((seq!['+'] + digits).skip(1) =~= digits);
    if n > 0 && all_digits(digits) && digits_value(digits) == v {
        lemma_digits_stand(digits);
        assert(stands);
    }
    if stands {
        assert forall|j: int| 0 <= j < n implies digit_value(#[trigger] digits[j]) == Some(
            ((v as int / pow(16, (n - 1 - j) as nat)) % 16) as nat,
        ) by {
            let d = (v as int / pow(16, (n - 1 - j) as nat)) % 16;
            let c = digits[j] as int;
            assert((d < 10 && c == 48 + d) || (d >= 10 && (c == 97 + (d - 10) || c == 65 + (d
                - 10))));
        }
        lemma_digits_determine(digits, v as nat);
    }
}

/// A number is written with its digits in base sixteen, the letters in lower
/// case, each at its place, and without leading zeros.
pub proof fn law_number_written(n: nat)
    ensures
        ({
            let k = hex(n).len();
            &&& k > 0
            &&& n < pow(16, k)
            &&& k > 1 ==> n >= pow(16, (k - 1) as nat)
            &&& forall|j: int|
                0 <= j < k ==> ({
                    let d = (n as int / pow(16, (k - 1 - j) as nat)) % 16;
                    #[trigger] hex(n)[j] == if d < 10 {
                        48 + d
                    } else {
                        97 + (d - 10)
                    }
                })
        }),
    decreases n,
{
    lemma_pow_step(0);
    if n >= 16 {
        let m = n / 16;
        law_number_written(m);
        let k = hex(n).len();
        assert(hex(n).drop_last() =~= hex(m));
        lemma_pow_step((k - 1) as nat);
        if k > 2 {
            lemma_pow_step((k - 2) as nat);
        }
        assert forall|j: int| 0 <= j < k implies ({
            let d = (n as int / pow(16, (k - 1 - j) as nat)) % 16;
            #[trigger] hex(n)[j] == if d < 10 {
                48 + d
            } else {
                97 + (d - 10)
            }
        }) by {
            if j < k - 1 {
                lemma_place(n, (k - 2 - j) as nat);
                assert(hex(n)[j] == hex(m)[j]);
            } else {
                assert(n as int / 1 == n);
            }
        }
    } else {
        assert(n as int / 1 == n);
    }
}

/// The value of a text of digits is the sum of its digits, each times sixteen to
/// the power of its place.
pub proof fn law_number_is_sum(digits: Seq<char>, v: usize)
    requires
        hex_number(seq!['+'] + digits) == Some(v) || (hex_number(digits) == Some(v) && digits[0]
            != '+'),
    ensures
        ({
            let n = digits.len();
            let terms = Seq::new(
                n,
                |j: int|
                    {
                        let c = digits[j] as int;
                        (if c <= 57 {
                            c - 48
                        } else if c >= 97 {
                            c - 97 + 10
                        } else {
                            c - 65 + 10
                        }) * pow(16, (n - 1 - j) as nat)
                    },
            );
            v == terms.fold_left(0int, |sum: int, term: int| sum + term)
        }),
{
    assert((seq!['+'] + digits).skip(1) =~= digits);
    lemma_sum(digits);
}

proof fn lemma_scaled_sum(a: Seq<int>, b: Seq<int>)
    requires
        a.len() == b.len(),
        forall|i: int| 0 <= i < a.len() ==> #[trigger] a[i] == 16 * b[i],
    ensures
        a.fold_left(0int, |sum: int, term: int| sum + term) == 16 * b.fold_left(
            0int,
            |sum: int, term: int| sum + term,
        ),
    decreases a.len(),
{
    if a.len() > 0 {
        lemma_scaled_sum(a.drop_last(), b.drop_last());
    }
}

proof fn lemma_sum(digits: Seq<char>)
    requires
        all_digits(digits),
    ensures
        ({
            let n = digits.len();
            let terms = Seq::new(
                n,
                |j: int|
                    {
                        let c = digits[j] as int;
                        (if c <= 57 {
                            c - 48
                        } else if c >= 97 {
                            c - 97 + 10
                        } else {
                            c - 65 + 10
                        }) * pow(16, (n - 1 - j) as nat)
                    },
            );
            digits_value(digits) == terms.fold_left(0int, |sum: int, term: int| sum + term)
        }),
    decreases digits.len(),
{
    let n = digits.len();
    let value = |c: int|
        if c <= 57 {
            c - 48
        } else if c >= 97 {
            c - 97 + 10
        } else {
            c - 65 + 10
        };
    let terms = Seq::new(
        n,
        |j: int|
            {
                let c = digits[j] as int;
                (if c <= 57 {
                    c - 48
                } else if c >= 97 {
                    c - 97 + 10
                } else {
                    c - 65 + 10
                }) * pow(16, (n - 1 - j) as nat)
            },
    );
    if n > 0 {
        let rest = digits.drop_last();
        let m = rest.len();
        let later = Seq::new(
            m,
            |j: int|
                {
                    let c = rest[j] as int;
                    (if c <= 57 {
                        c - 48
                    } else if c >= 97 {
                        c - 97 + 10
                    } else {
                        c - 65 + 10
                    }) * pow(16, (m - 1 - j) as nat)
                },
        );
        assert forall|j: int| 0 <= j < rest.len() implies digit_value(#[trigger] rest[j]) is Some by {
            assert(rest[j] == digits[j]);
        }
        lemma_sum(rest);
        assert forall|i: int| 0 <= i < terms.drop_last().len() implies #[trigger] terms.drop_last()[i]
            == 16 * later[i] by {
            lemma_pow_step((n - 2 - i) as nat);
            assert(rest[i] == digits[i]);
            let d = value(digits[i] as int);
            let p = pow(16, (n - 2 - i) as nat);
            assert(d * (16 * p) == 16 * (d * p)) by (nonlinear_arith);
        }
        lemma_scaled_sum(terms.drop_last(), later);
        lemma_pow0(16);
        assert(digit_value(digits[n - 1]) is Some);
        let d = value(digits[n - 1] as int);
        assert(d * 1 == d);
        assert(terms.last() == d);
    }
}

/// The characters with the Unicode property `White_Space`.
pub proof fn law_white_space(c: char)
    ensures
        is_white_space(c) <==> ({
            let p = c as int;
            ||| 9 <= p <= 13
            ||| p == 32
            ||| p == 133
            ||| p == 160
            ||| p == 5760
            ||| 8192 <= p <= 8202
            ||| p == 8232
            ||| p == 8233
            ||| p == 8239
            ||| p == 8287
            ||| p == 12288
        }),
{
}

/// White space around a text does not count, and nothing else is left out.
pub proof fn law_trim(before: Seq<char>, text: Seq<char>, after: Seq<char>)
    requires
        forall|i: int| 0 <= i < before.len() ==> is_white_space(#[trigger] before[i]),
        forall|i: int| 0 <= i < after.len() ==> is_white_space(#[trigger] after[i]),
        text.len() > 0 ==> !is_white_space(text.first()) && !is_white_space(text.last()),
    ensures
        trim(before + text + after) == text,
{
    let all = before + text + after;
    if text.len() > 0 {
        lemma_trim_start(before, text + after);
        assert(all =~= before + (text + after));
        assert((text + after).first() == text.first());
        lemma_trim_end(text, after);
    } else {
        let none = Seq::<char>::empty();
        assert forall|i: int| 0 <= i < all.len() implies is_white_space(#[trigger] all[i]) by {
            if i < before.len() {
                assert(all[i] == before[i]);
            } else {
                assert(all[i] == after[i - before.len()]);
            }
        }
        lemma_trim_start(all, none);
        assert(all + none =~= all);
        assert(text =~= none);
    }
}

proof fn lemma_trim_start(before: Seq<char>, rest: Seq<char>)
    requires
        forall|i: int| 0 <= i < before.len() ==> is_white_space(#[trigger] before[i]),
        rest.len() > 0 ==> !is_white_space(rest.first()),
    ensures
        trim_start(before + rest) == rest,
    decreases before.len(),
{
    let all = before + rest;
    if before.len() == 0 {
        assert(all =~= rest);
    } else {
        let later = before.drop_first();
        assert(is_white_space(before[0]));
        assert forall|i: int| 0 <= i < later.len() implies is_white_space(#[trigger] later[i]) by {
            assert(later[i] == before[i + 1]);
        }
        lemma_trim_start(later, rest);
        assert(all.drop_first() =~= later + rest);
    }
}

proof fn lemma_trim_end(text: Seq<char>, after: Seq<char>)
    requires
        forall|i: int| 0 <= i < after.len() ==> is_white_space(#[trigger] after[i]),
        text.len() > 0 ==> !is_white_space(text.last()),
    ensures
        trim_end(text + after) == text,
    decreases after.len(),
{
    let all = text + after;
    if after.len() == 0 {
        assert(all =~= text);
    } else {
        let later = after.drop_last();
        assert(is_white_space(after[after.len() - 1]));
        assert forall|i: int| 0 <= i < later.len() implies is_white_space(#[trigger] later[i]) by {
            assert(later[i] == after[i]);
        }
        lemma_trim_end(text, later);
        assert(all.drop_last() =~= text + later);
    }
}

/// A size field gives the number that stands in it, whatever white space stands
/// around the number.
pub proof fn law_size_field(before: Seq<char>, number: Seq<char>, after: Seq<char>)
    requires
        forall|i: int| 0 <= i < before.len() ==> is_white_space(#[trigger] before[i]),
        forall|i: int| 0 <= i < after.len() ==> is_white_space(#[trigger] after[i]),
        number.len() > 0 ==> !is_white_space(number.first()) && !is_white_space(number.last()),
    ensures
        size_field(encode_utf8(before + number + after)) == hex_number(number),
{
    let text = before + number + after;
    encode_utf8_valid_utf8(text);
    encode_utf8_decode_utf8(text);
    law_trim(before, number, after);
}

/// A size field that is no text gives no size.
pub proof fn law_size_field_is_text(field: Seq<u8>)
    ensures
        size_field(field) is Some ==> valid_utf8(field),
{
}

/// A size field that holds the digits of a number, each at its place and in
/// either case, with or without leading zeros, gives that number.
pub proof fn law_size_field_in_any_case(field: Seq<u8>, n: usize)
    requires
        field.len() > 0,
        n < pow(16, field.len()),
        forall|j: int|
            0 <= j < field.len() ==> ({
                let d = (n as int / pow(16, (field.len() - 1 - j) as nat)) % 16;
                let b = #[trigger] field[j] as int;
                (d < 10 && b == 48 + d) || (d >= 10 && (b == 97 + (d - 10) || b == 65 + (d - 10)))
            }),
    ensures
        size_field(field) == Some(n),
{
    let text = ascii_text(field);
    let none = Seq::<char>::empty();
    assert forall|j: int| 0 <= j < text.len() implies 48 <= #[trigger] text[j] as int <= 102
        && text[j] as int == field[j] && digit_value(text[j]) == Some(
        ((n as int / pow(16, (text.len() - 1 - j) as nat)) % 16) as nat,
    ) by {
        let d = (n as int / pow(16, (field.len() - 1 - j) as nat)) % 16;
        let b = field[j] as int;
        assert((d < 10 && b == 48 + d) || (d >= 10 && (b == 97 + (d - 10) || b == 65 + (d - 10))));
    }
    assert(is_ascii_chars(text)) by {
        assert forall|i: int| 0 <= i < text.len() implies '\0' <= #[trigger] text[i]
            <= '\u{7f}' by {
            assert(48 <= text[i] as int <= 102);
        }
    }
    is_ascii_chars_encode_utf8(text);
    assert forall|i: int| 0 <= i < text.len() implies encode_utf8(text)[i] == field[i] by {
        assert(text[i] as u8 == encode_utf8(text)[i]);
    }
    assert(encode_utf8(text) =~= field);
    lemma_digits_determine(text, n as nat);
    assert(digit_value(text[0]) is Some);
    assert(digit_value(text[text.len() - 1]) is Some);
    law_size_field(none, text, none);
    assert(none + text + none =~= text);
}

/// Where the white space around a text ends.
proof fn lemma_trim_range(text: Seq<char>) -> (r: (int, int))
    ensures
        0 <= r.0 <= r.1 <= text.len(),
        trim(text) == text.subrange(r.0, r.1),
        forall|i: int| 0 <= i < r.0 ==> is_white_space(#[trigger] text[i]),
        forall|i: int| r.1 <= i < text.len() ==> is_white_space(#[trigger] text[i]),
    decreases text.len(),
{
    if text.len() > 0 && is_white_space(text.first()) {
        let rest = text.drop_first();
        let (a, b) = lemma_trim_range(rest);
        assert(text.subrange(a + 1, b + 1) =~= rest.subrange(a, b));
        assert forall|i: int| 0 <= i < a + 1 implies is_white_space(#[trigger] text[i]) by {
            if i > 0 {
                assert(text[i] == rest[i - 1]);
            }
        }
        assert forall|i: int| b + 1 <= i < text.len() implies is_white_space(#[trigger] text[i]) by {
            assert(text[i] == rest[i - 1]);
        }
        (a + 1, b + 1)
    } else {
        let b = lemma_trim_end_at(text);
        (0, b)
    }
}

proof fn lemma_trim_end_at(text: Seq<char>) -> (b: int)
    ensures
        0 <= b <= text.len(),
        trim_end(text) == text.subrange(0, b),
        forall|i: int| b <= i < text.len() ==> is_white_space(#[trigger] text[i]),
    decreases text.len(),
{
    if text.len() > 0 && is_white_space(text.last()) {
        let rest = text.drop_last();
        let b = lemma_trim_end_at(rest);
        assert(text.subrange(0, b) =~= rest.subrange(0, b));
        assert forall|i: int| b <= i < text.len() implies is_white_space(#[trigger] text[i]) by {
            if i < text.len() - 1 {
                assert(text[i] == rest[i]);
            }
        }
        b
    } else {
        assert(text.subrange(0, text.len() as int) =~= text);
        text.len() as int
    }
}

/// A size field is refused that has, at any place, a character other than the
/// digits, the letters from A to F in either case, the plus sign and white space.
pub proof fn law_size_field_refused(text: Seq<char>, i: int)
    requires
        0 <= i < text.len(),
        !is_white_space(text[i]),
        text[i] != '+',
        !('0' <= text[i] <= '9'),
        !('a' <= text[i] <= 'f'),
        !('A' <= text[i] <= 'F'),
    ensures
        size_field(encode_utf8(text)) is None,
{
    encode_utf8_valid_utf8(text);
    encode_utf8_decode_utf8(text);
    let (a, b) = lemma_trim_range(text);
    assert(a <= i < b);
    let number = trim(text);
    assert(number[i - a] == text[i]);
    let digits = without_sign(number);
    if number[0] == '+' {
        assert(digits[i - a - 1] == text[i]);
    }
}

/// A size field is refused that has white space or a plus sign behind a digit and
/// anything but white space behind that.
pub proof fn law_size_field_is_one_number(text: Seq<char>, i: int, j: int, k: int)
    requires
        0 <= i < j < k < text.len(),
        !is_white_space(text[i]),
        is_white_space(text[j]) || text[j] == '+',
        !is_white_space(text[k]),
    ensures
        size_field(encode_utf8(text)) is None,
{
    encode_utf8_valid_utf8(text);
    encode_utf8_decode_utf8(text);
    let (a, b) = lemma_trim_range(text);
    assert(a <= i && k < b);
    let number = trim(text);
    assert(number[j - a] == text[j]);
    let digits = without_sign(number);
    if number[0] == '+' {
        assert(digits[j - a - 1] == text[j]);
    }
}

/// The two texts differ in the case of letters at most.
spec fn same_but_case(a: Seq<char>, b: Seq<char>) -> bool {
    &&& a.len() == b.len()
    &&& forall|i: int|
        #![trigger a[i]]
        #![trigger b[i]]
        0 <= i < a.len() ==> (a[i] == b[i] || (65 <= a[i] as int <= 90 && b[i] as int == a[i] as int
            + 32) || (65 <= b[i] as int <= 90 && a[i] as int == b[i] as int + 32))
}

proof fn lemma_case_trim(a: Seq<char>, b: Seq<char>)
    requires
        same_but_case(a, b),
    ensures
        same_but_case(trim_start(a), trim_start(b)),
        same_but_case(trim_end(a), trim_end(b)),
    decreases a.len(),
{
    if a.len() > 0 {
        assert(is_white_space(a[0]) == is_white_space(b[0]));
        assert(is_white_space(a[a.len() - 1]) == is_white_space(b[b.len() - 1]));
        assert(same_but_case(a.drop_first(), b.drop_first())) by {
            assert forall|i: int| 0 <= i < a.len() - 1 implies a.drop_first()[i] == a[i + 1]
                && b.drop_first()[i] == b[i + 1] by {}
        }
        assert(same_but_case(a.drop_last(), b.drop_last()));
        lemma_case_trim(a.drop_first(), b.drop_first());
        lemma_case_trim(a.drop_last(), b.drop_last());
    }
}

proof fn lemma_case_value(a: Seq<char>, b: Seq<char>)
    requires
        same_but_case(a, b),
    ensures
        all_digits(a) == all_digits(b),
        all_digits(a) ==> digits_value(a) == digits_value(b),
    decreases a.len(),
{
    assert forall|i: int| 0 <= i < a.len() implies digit_value(#[trigger] a[i]) == digit_value(
        b[i],
    ) by {}
    if all_digits(b) {
        assert forall|i: int| 0 <= i < a.len() implies digit_value(#[trigger] a[i]) is Some by {
            assert(digit_value(b[i]) is Some);
        }
    }
    if all_digits(a) {
        assert forall|i: int| 0 <= i < b.len() implies digit_value(#[trigger] b[i]) is Some by {
            assert(digit_value(a[i]) is Some);
        }
    }
    if a.len() > 0 && all_digits(a) {
        assert(digit_value(a[a.len() - 1]) == digit_value(b[b.len() - 1]));
        assert(same_but_case(a.drop_last(), b.drop_last()));
        lemma_case_value(a.drop_last(), b.drop_last());
        assert forall|i: int| 0 <= i < a.drop_last().len() implies digit_value(
            #[trigger] a.drop_last()[i],
        ) is Some by {
            assert(a.drop_last()[i] == a[i]);
        }
    }
}

/// Case does not matter: size fields that differ in the case of their letters
/// alone give the same size, or are both refused.
pub proof fn law_case(a: Seq<char>, b: Seq<char>)
    requires
        a.len() == b.len(),
        forall|i: int|
            0 <= i < a.len() ==> ({
                let x = #[trigger] a[i] as int;
                let y = b[i] as int;
                x == y || (65 <= x <= 90 && y == x + 32) || (65 <= y <= 90 && x == y + 32)
            }),
    ensures
        hex_number(a) == hex_number(b),
        size_field(encode_utf8(a)) == size_field(encode_utf8(b)),
{
    assert(same_but_case(a, b)) by {
        assert forall|i: int| 0 <= i < a.len() implies (a[i] == b[i] || (65 <= a[i] as int <= 90
            && b[i] as int == a[i] as int + 32) || (65 <= b[i] as int <= 90 && a[i] as int
            == b[i] as int + 32)) by {
            let x = a[i] as int;
        }
    }
    lemma_case_number(a, b);
    encode_utf8_valid_utf8(a);
    encode_utf8_valid_utf8(b);
    encode_utf8_decode_utf8(a);
    encode_utf8_decode_utf8(b);
    lemma_case_trim(a, b);
    lemma_case_trim(trim_start(a), trim_start(b));
    lemma_case_number(trim(a), trim(b));
}

proof fn lemma_case_number(a: Seq<char>, b: Seq<char>)
    requires
        same_but_case(a, b),
    ensures
        hex_number(a) == hex_number(b),
{
    if a.len() > 0 {
        assert((a[0] == '+') == (b[0] == '+'));
        assert(same_but_case(without_sign(a), without_sign(b))) by {
            if a[0] == '+' {
                assert forall|i: int| 0 <= i < a.len() - 1 implies a.skip(1)[i] == a[i + 1]
                    && b.skip(1)[i] == b[i + 1] by {}
            }
        }
    }
    lemma_case_value(without_sign(a), without_sign(b));
}

} // verus!

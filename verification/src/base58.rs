//! The base58 text encoding of strings: the bytes of a string, read as one
//! big-endian number, written out in base 58.

use crate::text::{ascii_chars, ascii_string, string_from_utf8};
use num_bigint::BigUint;
use num_integer::Integer;
use num_traits::{ToPrimitive, Zero};
use vstd::prelude::*;
use vstd::utf8::{decode_utf8, encode_utf8, valid_utf8};

verus! {

/// `num_bigint::BigUint`, an unsigned integer of any size. Nothing is
/// known of a value but the number that it holds, [`natural`].
#[verifier::external_type_specification]
#[verifier::external_body]
pub struct ExBigUint(num_bigint::BigUint);

/// The natural number that a `BigUint` holds.
pub uninterp spec fn natural(n: BigUint) -> nat;

/// `Zero::zero` of `BigUint`: the number 0.
#[verifier::external_body]
fn big_zero() -> (n: BigUint)
    ensures
        natural(n) == 0,
{
    Zero::zero()
}

/// `BigUint * usize`: the product of the two numbers.
#[verifier::external_body]
fn big_times(n: BigUint, factor: usize) -> (product: BigUint)
    ensures
        natural(product) == natural(n) * factor,
{
    n * factor
}

/// `BigUint + usize`: the sum of the two numbers.
#[verifier::external_body]
fn big_plus(n: BigUint, term: usize) -> (sum: BigUint)
    ensures
        natural(sum) == natural(n) + term,
{
    n + term
}

/// `Zero::is_zero` of `BigUint`: whether the number is 0.
#[verifier::external_body]
fn big_is_zero(n: &BigUint) -> (zero: bool)
    ensures
        zero == (natural(*n) == 0),
{
    n.is_zero()
}

/// `&BigUint % usize`, brought back to a `usize`: the remainder of the
/// division by a positive divisor, which is below the divisor.
#[verifier::external_body]
fn big_remainder(n: &BigUint, divisor: usize) -> (remainder: usize)
    requires
        divisor > 0,
    ensures
        remainder == natural(*n) % (divisor as nat),
{
    (n % divisor).to_usize().unwrap()
}

/// `Integer::div_floor` of `BigUint`, by a positive `usize`: the quotient,
/// rounded down.
#[verifier::external_body]
fn big_quotient(n: &BigUint, divisor: usize) -> (quotient: BigUint)
    requires
        divisor > 0,
    ensures
        natural(quotient) == natural(*n) / (divisor as nat),
{
    n.div_floor(&BigUint::from(divisor))
}

/// The number that `digits` write in base `base`, most significant digit first.
pub open spec fn number_of(digits: Seq<u8>, base: nat) -> nat
    decreases digits.len(),
{
    if digits.len() == 0 {
        0
    } else {
        number_of(digits.drop_last(), base) * base + digits.last() as nat
    }
}

/// The digits of `n` in base `base`, most significant first and without
/// leading zeros: none at all for 0.
pub open spec fn digits_of(n: nat, base: nat) -> Seq<u8>
    decreases n,
{
    if n == 0 || base < 2 {
        Seq::empty()
    } else {
        proof {
            lemma_quotient_is_less(n, base);
        }
        digits_of(n / base, base).push(#[verifier::truncate] ((n % base) as u8))
    }
}

/// Dividing a positive number by a base of at least 2 makes it smaller,
/// and leaves a remainder below the base.
pub proof fn lemma_quotient_is_less(n: nat, base: nat)
    requires
        n > 0,
        base >= 2,
    ensures
        n / base < n,
        n % base < base,
{
    assert(n / base < n && n % base < base) by (nonlinear_arith)
        requires
            n > 0,
            base >= 2,
    ;
}

/// The character for a base58 digit: the digits `1` to `9` and the
/// letters, without `I`, `O` and `l`.
pub open spec fn symbol_of(digit: u8) -> u8 {
    if digit < 9 {
        (49 + digit) as u8
    } else if digit < 17 {
        (65 + (digit - 9)) as u8
    } else if digit < 22 {
        (74 + (digit - 17)) as u8
    } else if digit < 33 {
        (80 + (digit - 22)) as u8
    } else if digit < 44 {
        (97 + (digit - 33)) as u8
    } else {
        (109 + (digit - 44)) as u8
    }
}

/// The base58 digit that a character stands for, if it is one of the alphabet.
pub open spec fn digit_of(symbol: u8) -> Option<u8> {
    if 49 <= symbol <= 57 {
        Some((symbol - 49) as u8)
    } else if 65 <= symbol <= 72 {
        Some((symbol - 65 + 9) as u8)
    } else if 74 <= symbol <= 78 {
        Some((symbol - 74 + 17) as u8)
    } else if 80 <= symbol <= 90 {
        Some((symbol - 80 + 22) as u8)
    } else if 97 <= symbol <= 107 {
        Some((symbol - 97 + 33) as u8)
    } else if 109 <= symbol <= 122 {
        Some((symbol - 109 + 44) as u8)
    } else {
        None
    }
}

/// The base58 text of `bytes`: nothing for no bytes, the digit for 0 where
/// the bytes are all zero, else the base58 digits of the number that the
/// bytes write in base 256.
pub open spec fn encoded(bytes: Seq<u8>) -> Seq<u8> {
    if bytes.len() == 0 {
        Seq::empty()
    } else if number_of(bytes, 256) == 0 {
        seq![symbol_of(0)]
    } else {
        digits_of(number_of(bytes, 256), 58).map_values(|digit: u8| symbol_of(digit))
    }
}

/// Every character of the text is one of the alphabet.
pub open spec fn all_symbols(text: Seq<u8>) -> bool {
    forall|i: int| 0 <= i < text.len() ==> (#[trigger] digit_of(text[i])).is_some()
}

/// The bytes that base58 text decodes to, if all its characters are of
/// the alphabet: nothing for no text, one zero byte for the number 0, else
/// the base-256 digits of the number that the text writes.
pub open spec fn decoded(text: Seq<u8>) -> Option<Seq<u8>> {
    let number = number_of(text.map_values(|symbol: u8| digit_of(symbol).unwrap()), 58);
    if text.len() == 0 {
        Some(Seq::empty())
    } else if !all_symbols(text) {
        None
    } else if number == 0 {
        Some(seq![0u8])
    } else {
        Some(digits_of(number, 256))
    }
}

/// The character for a base58 digit.
pub fn encode_digit(digit: u8) -> (symbol: u8)
    requires
        digit < 58,
    ensures
        symbol == symbol_of(digit),
        symbol < 128,
        digit_of(symbol) == Some(digit),
{
    if digit < 9 {
        49 + digit
    } else if digit < 17 {
        65 + (digit - 9)
    } else if digit < 22 {
        74 + (digit - 17)
    } else if digit < 33 {
        80 + (digit - 22)
    } else if digit < 44 {
        97 + (digit - 33)
    } else {
        109 + (digit - 44)
    }
}

/// The base58 digit of a character, or `None` for one outside the alphabet.
pub fn decode_symbol(symbol: u8) -> (digit: Option<u8>)
    ensures
        digit == digit_of(symbol),
        digit matches Some(d) ==> d < 58 && symbol_of(d) == symbol,
{
    if 49 <= symbol && symbol <= 57 {
        Some(symbol - 49)
    } else if 65 <= symbol && symbol <= 72 {
        Some(symbol - 65 + 9)
    } else if 74 <= symbol && symbol <= 78 {
        Some(symbol - 74 + 17)
    } else if 80 <= symbol && symbol <= 90 {
        Some(symbol - 80 + 22)
    } else if 97 <= symbol && symbol <= 107 {
        Some(symbol - 97 + 33)
    } else if 109 <= symbol && symbol <= 122 {
        Some(symbol - 109 + 44)
    } else {
        None
    }
}

/// The number that `digits` write in base `base`, most significant digit first.
fn number_from(digits: &[u8], base: usize) -> (number: BigUint)
    ensures
        natural(number) == number_of(digits@, base as nat),
{
    let mut number = big_zero();
    let mut at: usize = 0;
    while at < digits.len()
        invariant
            at <= digits.len(),
            natural(number) == number_of(digits@.take(at as int), base as nat),
        decreases digits.len() - at,
    {
        proof {
            assert(digits@.take(at + 1).drop_last() =~= digits@.take(at as int));
        }
        number = big_plus(big_times(number, base), digits[at] as usize);
        at += 1;
    }
    proof {
        assert(digits@.take(at as int) =~= digits@);
    }
    number
}

/// The digits of `number` in base `base`, most significant first.
fn digits_from(number: BigUint, base: usize) -> (digits: Vec<u8>)
    requires
        2 <= base <= 256,
    ensures
        digits@ == digits_of(natural(number), base as nat),
{
    let ghost whole = natural(number);
    let mut value = number;
    let mut coefficients: Vec<u8> = Vec::new();

    while !big_is_zero(&value)
        invariant
            2 <= base <= 256,
            digits_of(whole, base as nat) == digits_of(natural(value), base as nat)
                + coefficients@.reverse(),
        decreases natural(value),
    {
        let ghost before = natural(value);
        let ghost low = coefficients@;
        let remainder = big_remainder(&value, base);
        proof {
            lemma_quotient_is_less(before, base as nat);
        }
        coefficients.push(remainder as u8);
        value = big_quotient(&value, base);
        proof {
            assert(coefficients@.reverse() =~= seq![remainder as u8] + low.reverse());
            assert(digits_of(before, base as nat) + low.reverse() =~= digits_of(
                natural(value),
                base as nat,
            ) + coefficients@.reverse());
        }
    }
    proof {
        assert(digits_of(whole, base as nat) =~= coefficients@.reverse());
    }

    let mut digits: Vec<u8> = Vec::new();
    let mut left: usize = coefficients.len();
    while left > 0
        invariant
            left <= coefficients.len(),
            digits@ == coefficients@.reverse().take(coefficients.len() - left),
        decreases left,
    {
        left -= 1;
        digits.push(coefficients[left]);
        proof {
            assert(digits@ =~= coefficients@.reverse().take(coefficients.len() - left));
        }
    }
    proof {
        assert(digits@ =~= coefficients@.reverse());
    }
    digits
}

/// The base58 text of a string.
pub fn encode(plain_text: &String) -> (encoded_text: String)
    ensures
        encoded_text@ == ascii_chars(encoded(encode_utf8(plain_text@))),
{
    let bytes = plain_text.as_str().as_bytes();
    let mut symbols: Vec<u8> = Vec::new();
    if bytes.len() == 0 {
        return ascii_string(symbols);
    }
    let value_256 = number_from(bytes, 256);

    if big_is_zero(&value_256) {
        symbols.push(encode_digit(0));
        proof {
            assert(symbols@ =~= encoded(bytes@));
        }
        return ascii_string(symbols);
    }
    let coefficients_58 = digits_from(value_256, 58);
    proof {
        lemma_digits_below(number_of(bytes@, 256), 58);
    }
    let mut at: usize = 0;
    while at < coefficients_58.len()
        invariant
            at <= coefficients_58.len(),
            forall|i: int| 0 <= i < coefficients_58.len() ==> #[trigger] coefficients_58[i] < 58,
            symbols@ == coefficients_58@.take(at as int).map_values(|digit: u8| symbol_of(digit)),
            forall|i: int| 0 <= i < symbols.len() ==> #[trigger] symbols[i] < 128,
        decreases coefficients_58.len() - at,
    {
        symbols.push(encode_digit(coefficients_58[at]));
        at += 1;
        proof {
            assert(symbols@ =~= coefficients_58@.take(at as int).map_values(
                |digit: u8| symbol_of(digit),
            ));
        }
    }
    proof {
        assert(coefficients_58@.take(at as int) =~= coefficients_58@);
    }
    ascii_string(symbols)
}

/// Every digit of a number in a base of at most 256 is below the base.
pub proof fn lemma_digits_below(n: nat, base: nat)
    requires
        2 <= base <= 256,
    ensures
        forall|i: int| 0 <= i < digits_of(n, base).len() ==> #[trigger] digits_of(n, base)[i] < base,
    decreases n,
{
    if n > 0 {
        lemma_quotient_is_less(n, base);
        lemma_digits_below(n / base, base);
        let front = digits_of(n / base, base);
        assert forall|i: int| 0 <= i < digits_of(n, base).len() implies #[trigger] digits_of(
            n,
            base,
        )[i] < base by {
            if i < front.len() {
                assert(digits_of(n, base)[i] == front[i]);
            }
        }
    }
}

/// The digits of a number write that number.
pub proof fn lemma_number_of_digits(n: nat, base: nat)
    requires
        2 <= base <= 256,
    ensures
        number_of(digits_of(n, base), base) == n,
    decreases n,
{
    if n > 0 {
        lemma_quotient_is_less(n, base);
        lemma_number_of_digits(n / base, base);
        let front = digits_of(n / base, base);
        let last = (n % base) as u8;
        assert(digits_of(n, base).drop_last() =~= front);
        assert(digits_of(n, base).last() == last);
        vstd::arithmetic::div_mod::lemma_fundamental_div_mod(n as int, base as int);
        assert((n / base) * base == base * (n / base)) by (nonlinear_arith);
    }
}

/// Digits without a leading zero are the digits of the number that they write.
pub proof fn lemma_digits_of_number(digits: Seq<u8>, base: nat)
    requires
        2 <= base <= 256,
        forall|i: int| 0 <= i < digits.len() ==> #[trigger] digits[i] < base,
        digits.len() > 0 ==> digits[0] != 0,
    ensures
        digits_of(number_of(digits, base), base) == digits,
        digits.len() > 0 ==> number_of(digits, base) > 0,
    decreases digits.len(),
{
    if digits.len() > 0 {
        let front = digits.drop_last();
        let last = digits.last();
        let number = number_of(digits, base);
        assert forall|i: int| 0 <= i < front.len() implies #[trigger] front[i] < base by {
            assert(front[i] == digits[i]);
        }
        if front.len() > 0 {
            assert(front[0] == digits[0]);
        }
        lemma_digits_of_number(front, base);
        assert(number_of(front, base) * base >= 0) by (nonlinear_arith);
        if front.len() > 0 {
            assert(number_of(front, base) * base >= base) by (nonlinear_arith)
                requires
                    number_of(front, base) > 0,
                    base >= 2,
            ;
        } else {
            assert(last == digits[0]);
        }
        vstd::arithmetic::div_mod::lemma_fundamental_div_mod_converse(
            number as int,
            base as int,
            number_of(front, base) as int,
            last as int,
        );
        assert(digits_of(number, base) =~= front.push(last));
        assert(front.push(last) =~= digits);
    }
}

/// The base58 text of bytes that do not start with a zero byte decodes to
/// those bytes.
pub proof fn lemma_decode_encoded(bytes: Seq<u8>)
    requires
        bytes.len() > 0,
        bytes[0] != 0,
    ensures
        decoded(encoded(bytes)) == Some(bytes),
{
    lemma_digits_of_number(bytes, 256);
    let number = number_of(bytes, 256);
    let digits = digits_of(number, 58);
    let text = encoded(bytes);
    lemma_digits_below(number, 58);
    lemma_number_of_digits(number, 58);
    assert(digits.len() > 0);
    assert forall|i: int| 0 <= i < text.len() implies (#[trigger] digit_of(text[i])) == Some(
        digits[i],
    ) by {
        assert(digits[i] < 58);
    }
    assert(text.map_values(|symbol: u8| digit_of(symbol).unwrap()) =~= digits);
}

/// The string whose base58 text is given; `None` where the text has a
/// character outside the alphabet or does not stand for a string.
pub fn decode(encoded_text: &String) -> (plain_text: Option<String>)
    ensures
        match decoded(encode_utf8(encoded_text@)) {
            Some(bytes) => if valid_utf8(bytes) {
                plain_text matches Some(text) && text@ == decode_utf8(bytes)
            } else {
                plain_text is None
            },
            None => plain_text is None,
        },
{
    let text = encoded_text.as_str().as_bytes();
    let mut digits: Vec<u8> = Vec::new();
    if text.len() == 0 {
        return string_from_utf8(digits);
    }
    let mut at: usize = 0;
    while at < text.len()
        invariant
            at <= text.len(),
            text@ == encode_utf8(encoded_text@),
            text@.len() > 0,
            all_symbols(text@.take(at as int)),
            digits@ == text@.take(at as int).map_values(|symbol: u8| digit_of(symbol).unwrap()),
        decreases text.len() - at,
    {
        match decode_symbol(text[at]) {
            None => {
                proof {
                    assert(digit_of(text@[at as int]).is_none());
                }
                return None;
            },
            Some(digit) => {
                digits.push(digit);
            },
        }
        at += 1;
        proof {
            let ahead = text@.take(at as int);
            assert forall|i: int| 0 <= i < ahead.len() implies (#[trigger] digit_of(
                ahead[i],
            )).is_some() by {
                if i < at - 1 {
                    assert(ahead[i] == text@.take(at - 1)[i]);
                }
            }
            assert(digits@ =~= ahead.map_values(|symbol: u8| digit_of(symbol).unwrap()));
        }
    }
    proof {
        assert(text@.take(at as int) =~= text@);
    }
    let value_58 = number_from(digits.as_slice(), 58);
    let coefficients_256 = if big_is_zero(&value_58) {
        let mut zero: Vec<u8> = Vec::new();
        zero.push(0);
        proof {
            assert(zero@ =~= seq![0u8]);
        }
        zero
    } else {
        digits_from(value_58, 256)
    };
    string_from_utf8(coefficients_256)
}

} // verus!

//! Numbers as text: decimal numerals, zero-padded keys and hexadecimal digits.

use vstd::prelude::*;

use crate::text::{append, rest};

verus! {

/// The decimal or hexadecimal digit for a value below sixteen.
pub open spec fn digit_char(value: int) -> char {
    if value < 10 {
        (48 + value) as char
    } else {
        (87 + value) as char
    }
}

/// The decimal numeral for `n`.
pub open spec fn decimal(n: nat) -> Seq<char>
    decreases n,
{
    if n < 10 {
        seq![digit_char(n as int)]
    } else {
        decimal(n / 10).push(digit_char((n % 10) as int))
    }
}

/// `count` zeros.
pub open spec fn zeros(count: int) -> Seq<char> {
    Seq::new(
        if count > 0 {
            count as nat
        } else {
            0
        },
        |i: int| '0',
    )
}

/// The decimal numeral for `n`, filled up with leading zeros to eight digits.
pub open spec fn padded_key(n: nat) -> Seq<char> {
    zeros(8 - decimal(n).len()) + decimal(n)
}

/// Whether `c` is a decimal digit.
pub open spec fn is_digit(c: char) -> bool {
    '0' <= c <= '9'
}

/// Whether `text` consists of decimal digits.
pub open spec fn all_digits(text: Seq<char>) -> bool {
    forall|i: int| 0 <= i < text.len() ==> is_digit(#[trigger] text[i])
}

/// The number that a sequence of decimal digits stands for.
pub open spec fn digits_value(text: Seq<char>) -> nat
    decreases text.len(),
{
    if text.len() == 0 {
        0
    } else {
        10 * digits_value(text.drop_last()) + (text.last() as u32 - 48) as nat
    }
}

/// A numeral without its optional plus sign.
pub open spec fn unsigned_digits(text: Seq<char>) -> Seq<char> {
    if text.len() > 0 && text[0] == '+' {
        text.drop_first()
    } else {
        text
    }
}

/// The number that `text` denotes: an optional plus sign and at least one
/// decimal digit, with a value of at most `limit`.
pub open spec fn number_up_to(text: Seq<char>, limit: nat) -> Option<nat> {
    let digits = unsigned_digits(text);
    if digits.len() > 0 && all_digits(digits) && digits_value(digits) <= limit {
        Some(digits_value(digits))
    } else {
        None
    }
}

/// The two lowercase hexadecimal digits of a byte.
pub open spec fn hex_byte(byte: u8) -> Seq<char> {
    seq![digit_char(byte as int / 16), digit_char(byte as int % 16)]
}

/// The lowercase hexadecimal digits of a sequence of bytes.
pub open spec fn hex(bytes: Seq<u8>) -> Seq<char>
    decreases bytes.len(),
{
    if bytes.len() == 0 {
        Seq::empty()
    } else {
        hex(bytes.drop_last()) + hex_byte(bytes.last())
    }
}

/// Whether `c` is a hexadecimal digit of either case.
pub open spec fn is_hex_digit(c: char) -> bool {
    '0' <= c <= '9' || 'a' <= c <= 'f' || 'A' <= c <= 'F'
}

/// The value of a hexadecimal digit.
pub open spec fn hex_digit_value(c: char) -> nat {
    if '0' <= c <= '9' {
        (c as u32 - 48) as nat
    } else if 'a' <= c <= 'f' {
        (c as u32 - 87) as nat
    } else {
        (c as u32 - 55) as nat
    }
}

/// The number that a sequence of hexadecimal digits stands for.
pub open spec fn hex_value(text: Seq<char>) -> nat
    decreases text.len(),
{
    if text.len() == 0 {
        0
    } else {
        16 * hex_value(text.drop_last()) + hex_digit_value(text.last())
    }
}

/// The last `count` lowercase hexadecimal digits of `value`.
pub open spec fn hex_digits(value: nat, count: nat) -> Seq<char>
    decreases count,
{
    if count == 0 {
        Seq::empty()
    } else {
        hex_digits(value / 16, (count - 1) as nat).push(digit_char((value % 16) as int))
    }
}

/// Reading a decimal numeral gives back the number it was made from.
pub proof fn law_decimal_reads_back(n: nat, limit: nat)
    requires
        n <= limit,
    ensures
        number_up_to(decimal(n), limit) == Some(n),
{
    lemma_decimal(n);
}

/// A decimal numeral is made of digits, is not empty and has the value of its
/// number.
pub proof fn lemma_decimal(n: nat)
    ensures
        decimal(n).len() > 0,
        all_digits(decimal(n)),
        digits_value(decimal(n)) == n,
        unsigned_digits(decimal(n)) == decimal(n),
    decreases n,
{
    if n < 10 {
        assert(decimal(n).drop_last() =~= Seq::<char>::empty());
        assert(digits_value(decimal(n).drop_last()) == 0);
    } else {
        lemma_decimal(n / 10);
        assert(decimal(n).drop_last() =~= decimal(n / 10));
        assert(decimal(n)[0] == decimal(n / 10)[0]);
        assert(is_digit(decimal(n / 10)[0]));
        assert forall|i: int| 0 <= i < decimal(n).len() implies is_digit(
            #[trigger] decimal(n)[i],
        ) by {
            if i < decimal(n / 10).len() {
                assert(decimal(n)[i] == decimal(n / 10)[i]);
            }
        }
    }
}

/// Leading zeros do not change a value.
pub proof fn lemma_zeros_value(count: int, digits: Seq<char>)
    requires
        all_digits(digits),
    ensures
        all_digits(zeros(count) + digits),
        digits_value(zeros(count) + digits) == digits_value(digits),
    decreases digits.len(), count,
{
    let text = zeros(count) + digits;
    if digits.len() > 0 {
        assert(text.drop_last() =~= zeros(count) + digits.drop_last());
        assert(all_digits(digits.drop_last()));
        lemma_zeros_value(count, digits.drop_last());
    } else if count > 0 {
        assert(text =~= zeros(count));
        assert(text.drop_last() =~= zeros(count - 1) + digits);
        lemma_zeros_value(count - 1, digits);
        assert(text.last() == '0');
    } else {
        assert(text =~= digits);
    }
}

/// Different numbers have different padded keys.
pub proof fn lemma_padded_key_injective(left: nat, right: nat)
    requires
        padded_key(left) == padded_key(right),
    ensures
        left == right,
{
    lemma_decimal(left);
    lemma_decimal(right);
    lemma_zeros_value(8 - decimal(left).len(), decimal(left));
    lemma_zeros_value(8 - decimal(right).len(), decimal(right));
}

/// The value of a prefix of digits is no larger than that of the whole.
proof fn lemma_prefix_value(text: Seq<char>, count: int)
    requires
        0 <= count <= text.len(),
        all_digits(text.take(count)),
    ensures
        digits_value(text.take(count)) <= digits_value(text),
    decreases text.len() - count,
{
    if count == text.len() {
        assert(text.take(count) == text);
    } else {
        assert(text.drop_last().take(count) == text.take(count));
        lemma_prefix_value(text.drop_last(), count);
    }
}

/// Digits of a value below a power of sixteen have that value.
pub proof fn lemma_hex_digits(value: nat, count: nat)
    requires
        value < vstd::arithmetic::power::pow(16, count),
    ensures
        hex_digits(value, count).len() == count,
        forall|i: int|
            0 <= i < count ==> is_hex_digit(#[trigger] hex_digits(value, count)[i]),
        hex_value(hex_digits(value, count)) == value,
    decreases count,
{
    reveal(vstd::arithmetic::power::pow);
    if count > 0 {
        let front = hex_digits(value / 16, (count - 1) as nat);
        lemma_hex_digits(value / 16, (count - 1) as nat);
        assert(hex_digits(value, count).drop_last() =~= front);
        assert forall|i: int| 0 <= i < count implies is_hex_digit(
            #[trigger] hex_digits(value, count)[i],
        ) by {
            if i < count - 1 {
                assert(hex_digits(value, count)[i] == front[i]);
            }
        }
    }
}

/// The digits of a fixed width are hexadecimal digits, whatever the value.
pub proof fn lemma_hex_digits_shape(value: nat, count: nat)
    ensures
        hex_digits(value, count).len() == count,
        forall|i: int|
            0 <= i < count ==> is_hex_digit(#[trigger] hex_digits(value, count)[i]),
    decreases count,
{
    if count > 0 {
        let front = hex_digits(value / 16, (count - 1) as nat);
        lemma_hex_digits_shape(value / 16, (count - 1) as nat);
        assert forall|i: int| 0 <= i < count implies is_hex_digit(
            #[trigger] hex_digits(value, count)[i],
        ) by {
            if i < count - 1 {
                assert(hex_digits(value, count)[i] == front[i]);
            }
        }
    }
}

/// Hexadecimal text has two digits for each byte, all of them hexadecimal.
pub proof fn lemma_hex(bytes: Seq<u8>)
    ensures
        hex(bytes).len() == 2 * bytes.len(),
        forall|i: int| 0 <= i < hex(bytes).len() ==> is_hex_digit(#[trigger] hex(bytes)[i]),
    decreases bytes.len(),
{
    if bytes.len() > 0 {
        lemma_hex(bytes.drop_last());
        assert forall|i: int| 0 <= i < hex(bytes).len() implies is_hex_digit(
            #[trigger] hex(bytes)[i],
        ) by {
            if i < hex(bytes.drop_last()).len() {
                assert(hex(bytes)[i] == hex(bytes.drop_last())[i]);
            }
        }
    }
}

/// The digit for a value below sixteen.
pub fn digit(value: u8) -> (c: char)
    requires
        value < 16,
    ensures
        c == digit_char(value as int),
{
    if value < 10 {
        (48 + value) as char
    } else {
        (87 + value) as char
    }
}

/// Appends the decimal numeral for `n`.
pub fn append_decimal(out: &mut Vec<char>, n: u64)
    ensures
        final(out)@ == old(out)@ + decimal(n as nat),
    decreases n,
{
    if n >= 10 {
        append_decimal(out, n / 10);
    }
    let low: u8 = (n % 10) as u8;
    out.push(digit(low));
}

/// Appends the decimal numeral for `n` with leading zeros to eight digits.
pub fn append_padded_key(out: &mut Vec<char>, n: u32)
    ensures
        final(out)@ == old(out)@ + padded_key(n as nat),
{
    let mut numeral: Vec<char> = Vec::new();
    append_decimal(&mut numeral, n as u64);
    let mut width: usize = numeral.len();
    assert(zeros(0) =~= Seq::<char>::empty());
    while width < 8
        invariant
            numeral@ == decimal(n as nat),
            numeral@.len() <= width,
            width <= 8 || width == numeral@.len(),
            out@ == old(out)@ + zeros(width - decimal(n as nat).len()),
        decreases 8 - width,
    {
        out.push('0');
        width += 1;
        assert(zeros(width - decimal(n as nat).len()) =~= zeros(
            width - 1 - decimal(n as nat).len(),
        ).push('0'));
    }
    assert(zeros(width - decimal(n as nat).len()) =~= zeros(8 - decimal(n as nat).len()));
    append(out, numeral.as_slice());
}

/// Appends the two hexadecimal digits of a byte.
pub fn append_hex_byte(out: &mut Vec<char>, byte: u8)
    ensures
        final(out)@ == old(out)@ + hex_byte(byte),
{
    out.push(digit(byte / 16));
    out.push(digit(byte % 16));
}

/// Appends the hexadecimal digits of the bytes.
pub fn append_hex(out: &mut Vec<char>, bytes: &[u8])
    ensures
        final(out)@ == old(out)@ + hex(bytes@),
{
    let mut i: usize = 0;
    while i < bytes.len()
        invariant
            i <= bytes@.len(),
            out@ == old(out)@ + hex(bytes@.take(i as int)),
        decreases bytes@.len() - i,
    {
        append_hex_byte(out, bytes[i]);
        assert(bytes@.take(i + 1).drop_last() == bytes@.take(i as int));
        i += 1;
    }
    assert(bytes@.take(bytes@.len() as int) == bytes@);
}

/// Reads an unsigned number of at most `limit`.
pub fn read_number(text: &[char], limit: u64) -> (res: Option<u64>)
    ensures
        match res {
            Some(n) => number_up_to(text@, limit as nat) == Some(n as nat),
            None => number_up_to(text@, limit as nat) is None,
        },
{
    let digits = if text.len() > 0 && text[0] == '+' {
        rest(text, 1)
    } else {
        text
    };
    assert(digits@ == unsigned_digits(text@));
    if digits.len() == 0 {
        return None;
    }
    let mut value: u64 = 0;
    let mut i: usize = 0;
    while i < digits.len()
        invariant
            digits@ == unsigned_digits(text@),
            i <= digits@.len(),
            all_digits(digits@.take(i as int)),
            value == digits_value(digits@.take(i as int)),
            value <= limit,
        decreases digits@.len() - i,
    {
        let c = digits[i];
        proof {
            assert(digits@.take(i + 1).drop_last() == digits@.take(i as int));
            assert(digits@.take(i + 1).last() == c);
        }
        if !('0' <= c && c <= '9') {
            assert(!is_digit(digits@[i as int]));
            return None;
        }
        let next: u128 = value as u128 * 10 + (c as u32 - 48) as u128;
        assert(next == digits_value(digits@.take(i + 1)));
        assert(all_digits(digits@.take(i + 1))) by {
            assert forall|j: int| 0 <= j < i + 1 implies is_digit(
                #[trigger] digits@.take(i + 1)[j],
            ) by {
                if j < i {
                    assert(digits@.take(i + 1)[j] == digits@.take(i as int)[j]);
                }
            }
        }
        if next > limit as u128 {
            proof {
                lemma_prefix_value(digits@, i + 1);
            }
            return None;
        }
        value = next as u64;
        i += 1;
    }
    assert(digits@.take(digits@.len() as int) == digits@);
    Some(value)
}

} // verus!

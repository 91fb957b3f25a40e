//! Numbers written out and read back in decimal.
use crate::chars::chars_of;
use vstd::prelude::*;

verus! {

/// The decimal digit of a number below ten.
pub open spec fn digit_char(digit: int) -> char {
    (48 + digit) as u8 as char
}

/// A number in decimal, without leading zeros.
pub open spec fn decimal_spec(number: nat) -> Seq<char>
    decreases number,
{
    if number < 10 {
        seq![digit_char(number as int)]
    } else {
        decimal_spec(number / 10).push(digit_char((number % 10) as int))
    }
}

/// An integer in decimal, with a minus sign when it is negative.
pub open spec fn signed_spec(number: int) -> Seq<char> {
    if number < 0 {
        seq!['-'] + decimal_spec((-number) as nat)
    } else {
        decimal_spec(number as nat)
    }
}

fn digit_of(digit: u128) -> (c: char)
    requires
        digit < 10,
    ensures
        c == digit_char(digit as int),
{
    (48 + digit as u8) as char
}

pub fn decimal_u128(number: u128) -> (text: String)
    ensures
        text@ == decimal_spec(number as nat),
    decreases number,
{
    if number < 10 {
        let mut text = String::new();
        text.push(digit_of(number));
        assert(text@ =~= seq![digit_char(number as int)]);
        text
    } else {
        let mut text = decimal_u128(number / 10);
        text.push(digit_of(number % 10));
        text
    }
}

pub fn decimal(number: u64) -> (text: String)
    ensures
        text@ == decimal_spec(number as nat),
{
    decimal_u128(number as u128)
}

pub fn decimal_usize(number: usize) -> (text: String)
    ensures
        text@ == decimal_spec(number as nat),
{
    decimal(number as u64)
}

pub fn decimal_u32(number: u32) -> (text: String)
    ensures
        text@ == decimal_spec(number as nat),
{
    decimal(number as u64)
}

pub fn decimal_i128(number: i128) -> (text: String)
    ensures
        text@ == signed_spec(number as int),
{
    if number < 0 {
        let size: u128 = ((-(number + 1)) as u128) + 1;
        let digits = decimal_u128(size);
        let mut text = String::new();
        text.push('-');
        assert(text@ =~= seq!['-']);
        text.append(digits.as_str());
        text
    } else {
        decimal_u128(number as u128)
    }
}

pub fn decimal_i64(number: i64) -> (text: String)
    ensures
        text@ == signed_spec(number as int),
{
    decimal_i128(number as i128)
}

/// The text with zeros put in front until it is this long.
pub open spec fn zero_padded(text: Seq<char>, width: nat) -> Seq<char>
    decreases width - text.len(),
{
    if text.len() < width {
        zero_padded(seq!['0'] + text, width)
    } else {
        text
    }
}

pub fn pad_zeros(text: String, width: usize) -> (out: String)
    ensures
        out@ == zero_padded(text@, width as nat),
{
    let mut out = text;
    let ghost start = out@;
    let mut count: usize = chars_of(out.as_str()).len();
    while count < width
        invariant
            count == out@.len(),
            zero_padded(start, width as nat) == zero_padded(out@, width as nat),
        decreases width - count,
    {
        let mut longer = String::new();
        longer.push('0');
        assert(longer@ =~= seq!['0']);
        longer.append(out.as_str());
        out = longer;
        count += 1;
    }
    out
}

/// The character is an ASCII digit.
pub open spec fn is_digit(c: char) -> bool {
    '0' <= c <= '9'
}

/// The characters are all ASCII digits, and there is at least one.
pub open spec fn all_digits(text: Seq<char>) -> bool {
    text.len() > 0 && forall|i: int| 0 <= i < text.len() ==> is_digit(#[trigger] text[i])
}

/// The number that a run of digits stands for.
pub open spec fn digits_value(text: Seq<char>) -> nat
    decreases text.len(),
{
    if text.len() == 0 {
        0
    } else {
        digits_value(text.drop_last()) * 10 + (text.last() as u32 - 48) as nat
    }
}

/// The text after one leading plus sign.
pub open spec fn without_plus(text: Seq<char>) -> Seq<char> {
    if text.len() > 0 && text[0] == '+' {
        text.skip(1)
    } else {
        text
    }
}

/// The number, at most `max`, that a text of digits with an optional plus sign stands for.
pub open spec fn unsigned_value(text: Seq<char>, max: nat) -> Option<nat> {
    let digits = without_plus(text);
    if all_digits(digits) && digits_value(digits) <= max {
        Some(digits_value(digits))
    } else {
        None
    }
}

/// The integer that a text of digits with an optional sign stands for, if it fits an `i64`.
pub open spec fn signed_value(text: Seq<char>) -> Option<int> {
    if text.len() > 0 && text[0] == '-' {
        let digits = text.skip(1);
        if all_digits(digits) && digits_value(digits) <= 0x8000_0000_0000_0000 {
            Some(-digits_value(digits))
        } else {
            None
        }
    } else {
        match unsigned_value(text, 0x7fff_ffff_ffff_ffff) {
            Some(value) => Some(value as int),
            None => None,
        }
    }
}

pub proof fn lemma_digits_value_grows(text: Seq<char>, count: int)
    requires
        0 <= count <= text.len(),
        forall|i: int| 0 <= i < text.len() ==> is_digit(#[trigger] text[i]),
    ensures
        digits_value(text.take(count)) <= digits_value(text),
    decreases text.len() - count,
{
    if count < text.len() {
        lemma_digits_value_grows(text, count + 1);
        assert(text.take(count + 1).drop_last() =~= text.take(count));
        assert(text.take(count + 1).last() == text[count]);
    } else {
        assert(text.take(count) =~= text);
    }
}

fn parse_digits(chars: &[char], from: usize) -> (value: Option<u64>)
    requires
        from <= chars@.len(),
    ensures
        match value {
            Some(value) => all_digits(chars@.skip(from as int)) && digits_value(
                chars@.skip(from as int),
            ) == value,
            None => !all_digits(chars@.skip(from as int)) || digits_value(chars@.skip(from as int))
                > u64::MAX,
        },
{
    let ghost digits = chars@.skip(from as int);
    if from >= chars.len() {
        return None;
    }
    let mut value: u64 = 0;
    let mut i: usize = from;
    assert(digits.take(0) =~= Seq::empty());
    while i < chars.len()
        invariant
            from <= i <= chars@.len(),
            digits == chars@.skip(from as int),
            value == digits_value(digits.take(i - from)),
            forall|j: int| 0 <= j < i - from ==> is_digit(#[trigger] digits[j]),
        decreases chars@.len() - i,
    {
        let c = chars[i];
        assert(digits[i - from] == c);
        if !('0' <= c && c <= '9') {
            return None;
        }
        let ghost longer = digits.take(i - from + 1);
        assert(longer.drop_last() =~= digits.take(i - from));
        assert(longer.last() == c);
        let digit: u64 = (c as u32 - 48) as u64;
        assert(digits_value(longer) == value * 10 + digit);
        let more = value.checked_mul(10);
        if more.is_none() {
            proof {
                if all_digits(digits) {
                    lemma_digits_value_grows(digits, i - from + 1);
                }
            }
            return None;
        }
        let sum = more.unwrap().checked_add(digit);
        if sum.is_none() {
            proof {
                if all_digits(digits) {
                    lemma_digits_value_grows(digits, i - from + 1);
                }
            }
            return None;
        }
        value = sum.unwrap();
        i += 1;
    }
    assert(digits.take(i - from) =~= digits);
    Some(value)
}

pub open spec fn as_number(value: Option<u64>) -> Option<nat> {
    match value {
        Some(value) => Some(value as nat),
        None => None,
    }
}

pub fn parse_u64(text: &str) -> (value: Option<u64>)
    ensures
        as_number(value) == unsigned_value(text@, u64::MAX as nat),
{
    let chars = chars_of(text);
    assert(text@.skip(0) =~= text@);
    if chars.len() > 0 && chars[0] == '+' {
        parse_digits(chars.as_slice(), 1)
    } else {
        parse_digits(chars.as_slice(), 0)
    }
}

/// Whether a text is a number: digits with an optional plus sign, of whatever size.
pub fn is_number(text: &str) -> (found: bool)
    ensures
        found == all_digits(without_plus(text@)),
{
    let chars = chars_of(text);
    assert(text@.skip(0) =~= text@);
    let from: usize = if chars.len() > 0 && chars[0] == '+' {
        1
    } else {
        0
    };
    digits_only(chars.as_slice(), from)
}

/// Whether what stands from `from` on is all digits, and at least one.
pub fn digits_only(chars: &[char], from: usize) -> (found: bool)
    requires
        from <= chars@.len(),
    ensures
        found == all_digits(chars@.skip(from as int)),
{
    let ghost digits = chars@.skip(from as int);
    if from >= chars.len() {
        return false;
    }
    for i in from..chars.len()
        invariant
            digits == chars@.skip(from as int),
            from <= i,
            forall|k: int| 0 <= k < i - from ==> is_digit(#[trigger] digits[k]),
    {
        let c = chars[i];
        assert(digits[i - from] == c);
        if !('0' <= c && c <= '9') {
            return false;
        }
    }
    true
}

pub fn parse_u32(text: &str) -> (value: Option<u32>)
    ensures
        match value {
            Some(value) => unsigned_value(text@, u32::MAX as nat) == Some(value as nat),
            None => unsigned_value(text@, u32::MAX as nat) is None,
        },
{
    match parse_u64(text) {
        Some(value) => if value <= u32::MAX as u64 {
            Some(value as u32)
        } else {
            None
        },
        None => None,
    }
}

pub fn parse_usize(text: &str) -> (value: Option<usize>)
    ensures
        match value {
            Some(value) => unsigned_value(text@, usize::MAX as nat) == Some(value as nat),
            None => unsigned_value(text@, usize::MAX as nat) is None,
        },
{
    match parse_u64(text) {
        Some(value) => if value <= usize::MAX as u64 {
            Some(value as usize)
        } else {
            None
        },
        None => None,
    }
}

pub fn parse_i64(text: &str) -> (value: Option<i64>)
    ensures
        match value {
            Some(value) => signed_value(text@) == Some(value as int),
            None => signed_value(text@) is None,
        },
{
    let chars = chars_of(text);
    if chars.len() > 0 && chars[0] == '-' {
        match parse_digits(chars.as_slice(), 1) {
            Some(size) => if size < 0x8000_0000_0000_0000u64 {
                Some(-(size as i64))
            } else if size == 0x8000_0000_0000_0000u64 {
                Some(i64::MIN)
            } else {
                None
            },
            None => None,
        }
    } else {
        match parse_u64(text) {
            Some(value) => if value <= 0x7fff_ffff_ffff_ffffu64 {
                Some(value as i64)
            } else {
                None
            },
            None => None,
        }
    }
}

/// A written number holds only digits and reads back as itself.
pub proof fn lemma_decimal_reads_back(number: nat)
    ensures
        all_digits(decimal_spec(number)),
        digits_value(decimal_spec(number)) == number,
    decreases number,
{
    let text = decimal_spec(number);
    if number < 10 {
        assert(text.drop_last() =~= Seq::empty());
        assert(digits_value(text.drop_last()) == 0);
    } else {
        lemma_decimal_reads_back(number / 10);
        assert(text.drop_last() =~= decimal_spec(number / 10));
    }
}

// ---------------------------------------------------------------------------
// Counting

/// The indices below `count` of which something holds.
pub open spec fn indices(count: int, holds: spec_fn(int) -> bool) -> Set<int> {
    Set::new(|i: int| 0 <= i < count && holds(i))
}

/// The indices grow by one at a time.
pub proof fn lemma_indices(count: int, holds: spec_fn(int) -> bool)
    ensures
        indices(count, holds).finite(),
        count <= 0 ==> indices(count, holds).len() == 0,
        count > 0 ==> indices(count, holds).len() == indices(count - 1, holds).len() + if holds(
            count - 1,
        ) {
            1nat
        } else {
            0
        },
    decreases count,
{
    let all = indices(count, holds);
    if count <= 0 {
        assert(all =~= Set::empty());
    } else {
        lemma_indices(count - 1, holds);
        let before = indices(count - 1, holds);
        if holds(count - 1) {
            assert(all =~= before.insert(count - 1));
        } else {
            assert(all =~= before);
        }
    }
}

} // verus!

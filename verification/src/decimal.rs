//! Unsigned decimal notation: reading a number from text and writing one.

use vstd::prelude::*;
use vstd::string::*;

verus! {

/// The ASCII code of the plus sign.
const PLUS: u8 = 43;

/// The ASCII code of the digit zero.
const ZERO: u8 = 48;

/// The ASCII code of the digit nine.
const NINE: u8 = 57;

/// Whether `c` is one of the ten ASCII digits.
pub open spec fn is_digit(c: char) -> bool {
    '0' <= c <= '9'
}

/// The number that the digit `c` stands for.
pub open spec fn digit_value(c: char) -> nat
    recommends
        is_digit(c),
{
    (c as nat - '0' as nat) as nat
}

/// Whether `s` holds digits only.
pub open spec fn all_digits(s: Seq<char>) -> bool {
    forall|i: int| 0 <= i < s.len() ==> is_digit(#[trigger] s[i])
}

/// The number that a run of digits denotes, the most significant digit
/// first. The empty run denotes zero.
pub open spec fn digits_value(s: Seq<char>) -> nat
    recommends
        all_digits(s),
    decreases s.len(),
{
    if s.len() == 0 {
        0
    } else {
        digits_value(s.drop_last()) * 10 + digit_value(s.last())
    }
}

/// `s` without its leading plus sign, if it has one.
pub open spec fn without_sign(s: Seq<char>) -> Seq<char> {
    if s.len() > 0 && s[0] == '+' {
        s.drop_first()
    } else {
        s
    }
}

/// The 16-bit number that `s` denotes: an optional plus sign, then one or
/// more digits and nothing else, with a value of at most 65535. Leading
/// zeros are allowed. Any other text denotes nothing.
pub open spec fn decimal_u16(s: Seq<char>) -> Option<u16> {
    let digits = without_sign(s);
    if digits.len() > 0 && all_digits(digits) && digits_value(digits) <= u16::MAX {
        Some(digits_value(digits) as u16)
    } else {
        None
    }
}

/// A longer run of digits denotes at least as much as any of its prefixes.
proof fn lemma_prefix_value(s: Seq<char>, k: int)
    requires
        0 <= k <= s.len(),
    ensures
        digits_value(s.take(k)) <= digits_value(s),
    decreases s.len(),
{
    if k < s.len() {
        assert(s.drop_last().take(k) == s.take(k));
        lemma_prefix_value(s.drop_last(), k);
    } else {
        assert(s.take(k) == s);
    }
}

/// Reads a 16-bit unsigned number in decimal notation.
pub fn parse_u16(text: &str) -> (number: Option<u16>)
    ensures
        number == decimal_u16(text@),
{
    if !text.is_ascii() {
        proof {
            let i = choose|i: int| 0 <= i < text@.len() && !('\0' <= #[trigger] text@[i] <= '\u{7f}');
            if i == 0 {
                assert(!is_digit(without_sign(text@)[0]));
            } else {
                assert(!is_digit(without_sign(text@)[i - 1]) || !is_digit(without_sign(text@)[i]));
            }
        }
        return None;
    }
    let bytes = text.as_bytes();
    proof {
        is_ascii_spec_bytes(text);
    }
    let n = bytes.len();
    let first: usize = if n > 0 && bytes[0] == PLUS {
        1
    } else {
        0
    };
    let ghost digits = without_sign(text@);
    assert(digits == text@.subrange(first as int, n as int));
    if first == n {
        return None;
    }
    let mut value: u32 = 0;
    let mut i: usize = first;
    while i < n
        invariant
            first <= i <= n,
            n == text@.len(),
            n == bytes@.len(),
            forall|j: int| 0 <= j < n ==> bytes@[j] == text@[j] as u8,
            is_ascii(text),
            digits == without_sign(text@),
            digits == text@.subrange(first as int, n as int),
            all_digits(digits.take(i - first)),
            value == digits_value(digits.take(i - first)),
            value <= u16::MAX,
        decreases n - i,
    {
        let b = bytes[i];
        let ghost c = text@[i as int];
        assert(c == digits[i - first]);
        assert('\0' <= c <= '\u{7f}');
        if b < ZERO || b > NINE {
            assert(!is_digit(c));
            return None;
        }
        assert(is_digit(c));
        let ghost longer = digits.take(i - first + 1);
        assert(longer.drop_last() == digits.take(i - first));
        assert(longer.last() == c);
        value = value * 10 + (b - ZERO) as u32;
        assert(value == digits_value(longer));
        if value > 65535 {
            proof {
                lemma_prefix_value(digits, i - first + 1);
            }
            return None;
        }
        i += 1;
    }
    assert(digits.take(n - first) == digits);
    Some(value as u16)
}

/// The digit that stands for `d`.
pub open spec fn digit_char(d: nat) -> char
    recommends
        d < 10,
{
    ('0' as nat + d) as char
}

/// The decimal notation of `n`: its digits, the most significant first,
/// with no sign and no leading zero. Zero is written as one digit.
pub open spec fn decimal_text(n: nat) -> Seq<char>
    decreases n,
{
    if n < 10 {
        seq![digit_char(n)]
    } else {
        decimal_text(n / 10).push(digit_char(n % 10))
    }
}

/// The text of one digit.
fn digit_text(d: u16) -> (text: &'static str)
    requires
        d < 10,
    ensures
        text@ == seq![digit_char(d as nat)],
{
    proof {
        reveal_strlit("0");
        reveal_strlit("1");
        reveal_strlit("2");
        reveal_strlit("3");
        reveal_strlit("4");
        reveal_strlit("5");
        reveal_strlit("6");
        reveal_strlit("7");
        reveal_strlit("8");
        reveal_strlit("9");
    }
    let text = match d {
        0 => "0",
        1 => "1",
        2 => "2",
        3 => "3",
        4 => "4",
        5 => "5",
        6 => "6",
        7 => "7",
        8 => "8",
        _ => "9",
    };
    assert(text@ =~= seq![digit_char(d as nat)]);
    text
}

/// Writes a 16-bit unsigned number in decimal notation.
pub fn format_u16(number: u16) -> (text: String)
    ensures
        text@ == decimal_text(number as nat),
    decreases number,
{
    if number < 10 {
        String::from_str(digit_text(number))
    } else {
        let mut text = format_u16(number / 10);
        text.append(digit_text(number % 10));
        assert(text@ =~= decimal_text(number as nat));
        text
    }
}

} // verus!

//! Decimal numbers: reading them from a text and writing them.

use vstd::prelude::*;

use crate::text::{is_digit, skip};

verus! {

/// The number that a digit stands for.
pub open spec fn digit_value(c: char) -> nat {
    (c as u32 - '0' as u32) as nat
}

/// The digit for a number below ten.
pub open spec fn digit_char(n: nat) -> char {
    ('0' as u32 + n) as char
}

/// Whether the text consists of decimal digits.
pub open spec fn all_digits(s: Seq<char>) -> bool {
    forall|i: int| 0 <= i < s.len() ==> is_digit(#[trigger] s[i])
}

/// The number that a text of digits denotes.
pub open spec fn digits_value(s: Seq<char>) -> nat
    decreases s.len(),
{
    if s.len() == 0 {
        0
    } else {
        digits_value(s.drop_last()) * 10 + digit_value(s.last())
    }
}

/// The number that a text denotes: at least one digit, which may follow a plus
/// sign, and nothing else.
pub open spec fn unsigned_value(s: Seq<char>) -> Option<nat> {
    let d = if s.len() > 0 && s[0] == '+' {
        s.drop_first()
    } else {
        s
    };
    if d.len() > 0 && all_digits(d) {
        Some(digits_value(d))
    } else {
        None
    }
}

/// The number that a text denotes, where a minus sign may take the place of
/// the plus sign.
pub open spec fn signed_value(s: Seq<char>) -> Option<int> {
    if s.len() > 0 && s[0] == '-' {
        let d = s.drop_first();
        if d.len() > 0 && all_digits(d) {
            Some(-digits_value(d))
        } else {
            None
        }
    } else {
        match unsigned_value(s) {
            Some(n) => Some(n as int),
            None => None,
        }
    }
}

/// What reading an unsigned number of at most `max` from a text gives.
pub open spec fn unsigned_up_to(s: Seq<char>, max: nat) -> Option<nat> {
    match unsigned_value(s) {
        Some(n) => if n <= max {
            Some(n)
        } else {
            None
        },
        None => None,
    }
}

/// What reading a `u64` from a text gives.
pub open spec fn u64_value(s: Seq<char>) -> Option<nat> {
    unsigned_up_to(s, u64::MAX as nat)
}

/// What reading a `u32` from a text gives.
pub open spec fn u32_value(s: Seq<char>) -> Option<nat> {
    unsigned_up_to(s, u32::MAX as nat)
}

/// What reading an `i32` from a text gives.
pub open spec fn i32_value(s: Seq<char>) -> Option<int> {
    match signed_value(s) {
        Some(n) => if i32::MIN <= n <= i32::MAX {
            Some(n)
        } else {
            None
        },
        None => None,
    }
}

/// The decimal digits of a number, without leading zeros.
pub open spec fn decimal(n: nat) -> Seq<char>
    decreases n,
{
    if n < 10 {
        seq![digit_char(n)]
    } else {
        decimal(n / 10).push(digit_char(n % 10))
    }
}

/// The text, with zeros in front of it up to this width.
pub open spec fn zero_padded(s: Seq<char>, width: nat) -> Seq<char>
    decreases width - s.len(),
{
    if s.len() < width {
        zero_padded(seq!['0'] + s, width)
    } else {
        s
    }
}

/// A number's digits denote the number.
pub proof fn lemma_decimal(n: nat)
    ensures
        decimal(n).len() > 0,
        all_digits(decimal(n)),
        digits_value(decimal(n)) == n,
    decreases n,
{
    if n < 10 {
        assert(decimal(n).drop_last() =~= Seq::<char>::empty());
        assert(digits_value(decimal(n).drop_last()) == 0);
    } else {
        lemma_decimal(n / 10);
        assert(decimal(n).drop_last() =~= decimal(n / 10));
    }
}

/// Zeros in front change nothing.
pub proof fn lemma_zero_padded(s: Seq<char>, width: nat)
    requires
        all_digits(s),
    ensures
        all_digits(zero_padded(s, width)),
        digits_value(zero_padded(s, width)) == digits_value(s),
        zero_padded(s, width).len() == if s.len() < width { width } else { s.len() },
    decreases width - s.len(),
{
    if s.len() < width {
        let t = seq!['0'] + s;
        lemma_zero_in_front(s);
        assert(all_digits(t));
        lemma_zero_padded(t, width);
    }
}

/// What a number is written as reads as that number up to the greatest that the
/// type holds, with zeros or a plus sign before it too, and with a minus sign
/// before it as its negative where the type has one; beyond, nothing is read.
pub proof fn numbers_are_read_up_to_their_limits(n: nat, width: nat)
    ensures
        ({
            let s = zero_padded(decimal(n), width);
            let plus = seq!['+'] + s;
            let minus = seq!['-'] + s;
            &&& n <= 18446744073709551615 ==> u64_value(s) == Some(n) && u64_value(plus) == Some(n)
            &&& n > 18446744073709551615 ==> u64_value(s) is None && u64_value(plus) is None
            &&& n <= 4294967295 ==> u32_value(s) == Some(n) && u32_value(plus) == Some(n)
            &&& n > 4294967295 ==> u32_value(s) is None && u32_value(plus) is None
            &&& n <= 2147483647 ==> i32_value(s) == Some(n as int) && i32_value(plus) == Some(
                n as int,
            )
            &&& n > 2147483647 ==> i32_value(s) is None && i32_value(plus) is None
            &&& n <= 2147483648 ==> i32_value(minus) == Some(-n)
            &&& n > 2147483648 ==> i32_value(minus) is None
            &&& u64_value(minus) is None && u32_value(minus) is None
        }),
{
    let s = zero_padded(decimal(n), width);
    lemma_decimal(n);
    lemma_zero_padded(decimal(n), width);
    assert(is_digit(s[0]));
    let plus = seq!['+'] + s;
    let minus = seq!['-'] + s;
    assert(plus.drop_first() =~= s);
    assert(minus.drop_first() =~= s);
    assert(!is_digit(minus[0]));
    assert(!all_digits(minus));
}

/// A text with anything but digits behind its first character is no number, and
/// neither is one whose first character is neither a digit nor a sign, nor the
/// empty text.
pub proof fn other_texts_are_no_numbers(s: Seq<char>, i: int)
    requires
        s.len() == 0 || (0 < i < s.len() && !is_digit(s[i])) || (!is_digit(s[0]) && s[0] != '+'
            && s[0] != '-'),
    ensures
        u64_value(s) is None,
        u32_value(s) is None,
        i32_value(s) is None,
{
    if s.len() > 0 {
        let d = s.drop_first();
        if 0 < i < s.len() && !is_digit(s[i]) {
            assert(d[i - 1] == s[i]);
            assert(!all_digits(d));
            assert(!all_digits(s));
        } else {
            assert(!all_digits(s));
        }
    }
}

/// The digits of a number are worth ten times as much with each digit behind
/// them.
pub proof fn digits_are_worth_their_place(s: Seq<char>, c: char)
    requires
        is_digit(c),
    ensures
        digits_value(s.push(c)) == 10 * digits_value(s) + (c as u32 - '0' as u32),
        digits_value(Seq::empty()) == 0,
{
    assert(s.push(c).drop_last() =~= s);
}

proof fn lemma_zero_in_front(s: Seq<char>)
    ensures
        digits_value(seq!['0'] + s) == digits_value(s),
    decreases s.len(),
{
    let t = seq!['0'] + s;
    if s.len() == 0 {
        assert(t.drop_last() =~= Seq::<char>::empty());
        assert(digits_value(t.drop_last()) == 0);
        assert(t.last() == '0');
    } else {
        lemma_zero_in_front(s.drop_last());
        assert(t.drop_last() =~= seq!['0'] + s.drop_last());
        assert(t.last() == s.last());
    }
}

/// Reading back what was written gives the number.
pub proof fn decimal_reads_back(n: nat)
    ensures
        unsigned_value(decimal(n)) == Some(n),
        signed_value(decimal(n)) == Some(n as int),
{
    lemma_decimal(n);
    assert(is_digit(decimal(n)[0]));
}

/// More digits never make the number smaller.
proof fn lemma_digits_value_grows(s: Seq<char>, n: int)
    requires
        0 <= n <= s.len(),
    ensures
        digits_value(s.take(n)) <= digits_value(s),
    decreases s.len(),
{
    if n < s.len() {
        lemma_digits_value_grows(s.drop_last(), n);
        assert(s.drop_last().take(n) =~= s.take(n));
    } else {
        assert(s.take(n) =~= s);
    }
}

/// The number that these digits denote, if they are digits and it is at most
/// `max`.
fn read_digits(s: &[char], max: u64) -> (r: Option<u64>)
    ensures
        match r {
            Some(n) => s@.len() > 0 && all_digits(s@) && n == digits_value(s@) && n <= max,
            None => !(s@.len() > 0 && all_digits(s@) && digits_value(s@) <= max),
        },
{
    if s.len() == 0 {
        return None;
    }
    let mut n: u64 = 0;
    let mut i: usize = 0;
    while i < s.len()
        invariant
            i <= s@.len(),
            all_digits(s@.take(i as int)),
            n == digits_value(s@.take(i as int)),
            n <= max,
        decreases s@.len() - i,
    {
        let c: char = s[i];
        if !('0' as u32 <= c as u32 && c as u32 <= '9' as u32) {
            assert(!is_digit(s@[i as int]));
            return None;
        }
        let d: u64 = (c as u32 - '0' as u32) as u64;
        let wide: u128 = n as u128 * 10 + d as u128;
        proof {
            let t = s@.take(i + 1);
            assert(t.drop_last() =~= s@.take(i as int));
            assert(t.last() == c);
            assert(digits_value(t) == wide);
            lemma_digits_value_grows(s@, i + 1);
        }
        if wide > max as u128 {
            return None;
        }
        n = wide as u64;
        i = i + 1;
        assert forall|k: int| 0 <= k < i implies is_digit(#[trigger] s@.take(i as int)[k]) by {
            if k < i - 1 {
                assert(is_digit(s@.take(i - 1)[k]));
            }
        }
    }
    assert(s@.take(i as int) =~= s@);
    Some(n)
}

fn read_unsigned(s: &[char], max: u64) -> (r: Option<u64>)
    ensures
        match r {
            Some(n) => unsigned_up_to(s@, max as nat) == Some(n as nat),
            None => unsigned_up_to(s@, max as nat) is None,
        },
{
    if s.len() > 0 && s[0] == '+' {
        read_digits(skip(s, 1), max)
    } else {
        read_digits(s, max)
    }
}

/// Reads a `u64`.
pub fn parse_u64(s: &[char]) -> (r: Option<u64>)
    ensures
        match r {
            Some(n) => u64_value(s@) == Some(n as nat),
            None => u64_value(s@) is None,
        },
{
    read_unsigned(s, u64::MAX)
}

/// Reads a `u32`.
pub fn parse_u32(s: &[char]) -> (r: Option<u32>)
    ensures
        match r {
            Some(n) => u32_value(s@) == Some(n as nat),
            None => u32_value(s@) is None,
        },
{
    match read_unsigned(s, u32::MAX as u64) {
        Some(n) => Some(n as u32),
        None => None,
    }
}

/// Reads an `i32`.
pub fn parse_i32(s: &[char]) -> (r: Option<i32>)
    ensures
        match r {
            Some(n) => i32_value(s@) == Some(n as int),
            None => i32_value(s@) is None,
        },
{
    if s.len() > 0 && s[0] == '-' {
        match read_digits(skip(s, 1), 0x8000_0000) {
            Some(n) => {
                let m: i64 = 0 - n as i64;
                Some(m as i32)
            },
            None => None,
        }
    } else {
        match read_unsigned(s, i32::MAX as u64) {
            Some(n) => Some(n as i32),
            None => None,
        }
    }
}

/// Writes a number.
pub fn decimal_text(n: u64) -> (r: String)
    ensures
        r@ == decimal(n as nat),
    decreases n,
{
    let c: char = (48 + (n % 10) as u8) as char;
    assert(c == digit_char(n as nat % 10));
    if n < 10 {
        let mut r = String::new();
        r.push(c);
        assert(r@ =~= decimal(n as nat));
        r
    } else {
        let mut r = decimal_text(n / 10);
        r.push(c);
        r
    }
}

} // verus!

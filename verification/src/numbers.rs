//! Numbers written as text: decimal and hexadecimal.
use vstd::prelude::*;

use crate::text;
use crate::text::chars_of;

verus! {

/// The decimal digit with value `d`.
pub open spec fn digit_char(d: nat) -> char {
    (48 + d) as char
}

/// The decimal digits of `n`, without leading zeros.
pub open spec fn decimal_text(n: nat) -> Seq<char>
    decreases n,
{
    if n < 10 {
        seq![digit_char(n)]
    } else {
        decimal_text(n / 10).push(digit_char(n % 10))
    }
}

/// `s` with zeros in front up to `width` characters.
pub open spec fn zero_padded(s: Seq<char>, width: nat) -> Seq<char> {
    if s.len() >= width {
        s
    } else {
        Seq::new((width - s.len()) as nat, |i: int| '0') + s
    }
}

/// The decimal digit with value `d`.
fn decimal_digit(d: u64) -> (r: char)
    requires
        d < 10,
    ensures
        r == digit_char(d as nat),
{
    match d {
        0 => '0',
        1 => '1',
        2 => '2',
        3 => '3',
        4 => '4',
        5 => '5',
        6 => '6',
        7 => '7',
        8 => '8',
        _ => '9',
    }
}

/// The decimal digits of `n`.
pub fn decimal(n: u64) -> (r: String)
    ensures
        r@ == decimal_text(n as nat),
    decreases n,
{
    if n < 10 {
        let mut r = String::new();
        r.push(decimal_digit(n));
        assert(r@ =~= seq![digit_char(n as nat)]);
        r
    } else {
        let mut r = decimal(n / 10);
        r.push(decimal_digit(n % 10));
        r
    }
}

/// The decimal digits of `n`, with zeros in front up to `width` characters.
pub fn padded_decimal(n: u64, width: usize) -> (r: String)
    ensures
        r@ == zero_padded(decimal_text(n as nat), width as nat),
{
    let digits = decimal(n);
    let chars = chars_of(digits.as_str());
    let count: usize = chars.len();
    if count >= width {
        return digits;
    }
    let mut r = String::new();
    let mut i: usize = 0;
    while i < width - count
        invariant
            i <= width - count,
            count < width,
            r@ == Seq::new(i as nat, |j: int| '0'),
        decreases width - count - i,
    {
        r.push('0');
        i = i + 1;
        assert(r@ =~= Seq::new(i as nat, |j: int| '0'));
    }
    r.append(digits.as_str());
    r
}

/// Whether `c` is an ASCII decimal digit.
pub open spec fn is_digit(c: char) -> bool {
    '0' <= c <= '9'
}

/// The number that a sequence of decimal digits stands for.
pub open spec fn digits_value(s: Seq<char>) -> nat
    decreases s.len(),
{
    if s.len() == 0 {
        0
    } else {
        digits_value(s.drop_last()) * 10 + (s.last() as nat - 48) as nat
    }
}

/// The digits of a number text: a leading plus sign is allowed and dropped.
pub open spec fn number_digits(s: Seq<char>) -> Seq<char> {
    if s.len() > 1 && s[0] == '+' {
        s.drop_first()
    } else {
        s
    }
}

/// The number that a text stands for: at least one digit, an optional plus sign in front, and no
/// more than `max`.
pub open spec fn parsed_number(s: Seq<char>, max: nat) -> Option<nat> {
    let digits = number_digits(s);
    if digits.len() > 0 && (forall|i: int| 0 <= i < digits.len() ==> is_digit(#[trigger] digits[i])) && digits_value(digits) <= max {
        Some(digits_value(digits))
    } else {
        None
    }
}

/// A longer run of digits never stands for less than one of its prefixes.
pub proof fn lemma_digits_value_grows(s: Seq<char>, n: int)
    requires
        0 <= n <= s.len(),
        forall|i: int| 0 <= i < s.len() ==> is_digit(#[trigger] s[i]),
    ensures
        digits_value(s.subrange(0, n)) <= digits_value(s),
    decreases s.len() - n,
{
    if n == s.len() {
        assert(s.subrange(0, n) =~= s);
    } else {
        lemma_digits_value_grows(s, n + 1);
        assert(s.subrange(0, n + 1).drop_last() =~= s.subrange(0, n));
        assert(is_digit(s[n]));
    }
}

/// Reads a `u64` in decimal, as `str::parse` does.
pub fn parse_u64(s: &str) -> (r: Option<u64>)
    ensures
        match r {
            Some(n) => parsed_number(s@, u64::MAX as nat) == Some(n as nat),
            None => parsed_number(s@, u64::MAX as nat) is None,
        },
{
    let chars = chars_of(s);
    let n: usize = chars.len();
    let start: usize = if n > 1 && chars[0] == '+' { 1 } else { 0 };
    let ghost digits = number_digits(s@);
    assert(digits =~= chars@.subrange(start as int, n as int));
    if start == n {
        return None;
    }
    let mut value: u64 = 0;
    let mut i: usize = start;
    assert(digits.subrange(0, 0) =~= Seq::<char>::empty());
    while i < n
        invariant
            start <= i <= n == chars@.len(),
            digits == chars@.subrange(start as int, n as int),
            digits == number_digits(s@),
            value == digits_value(digits.subrange(0, i - start)),
            forall|j: int| 0 <= j < i - start ==> is_digit(#[trigger] digits[j]),
        decreases n - i,
    {
        let c = chars[i];
        assert(digits[i - start] == c);
        if !('0' <= c && c <= '9') {
            assert(!is_digit(digits[i - start]));
            return None;
        }
        let d: u64 = (c as u32 - 48) as u64;
        let ghost next = digits.subrange(0, i - start + 1);
        assert(next.drop_last() =~= digits.subrange(0, i - start));
        assert(digits_value(next) == value * 10 + d);
        if value > (u64::MAX - d) / 10 {
            proof {
                assert(digits_value(next) > u64::MAX);
                if forall|j: int| 0 <= j < digits.len() ==> is_digit(#[trigger] digits[j]) {
                    lemma_digits_value_grows(digits, i - start + 1);
                }
            }
            return None;
        }
        value = value * 10 + d;
        i = i + 1;
    }
    assert(digits.subrange(0, i - start) =~= digits);
    Some(value)
}

/// Reading back the digits of a number gives the number.
pub proof fn lemma_decimal_round_trip(n: nat, max: nat)
    requires
        n <= max,
    ensures
        parsed_number(decimal_text(n), max) == Some(n),
{
    lemma_decimal_digits(n);
    let s = decimal_text(n);
    assert(is_digit(s[0]));
    assert(number_digits(s) == s);
}

/// Texts of as many digits are in the order of the numbers they stand for.
pub proof fn lemma_digits_order(a: Seq<char>, b: Seq<char>)
    requires
        a.len() == b.len(),
        forall|i: int| 0 <= i < a.len() ==> is_digit(#[trigger] a[i]),
        forall|i: int| 0 <= i < b.len() ==> is_digit(#[trigger] b[i]),
    ensures
        digits_value(a) < digits_value(b) ==> text::text_lt(a, b),
        digits_value(a) == digits_value(b) ==> a == b,
    decreases a.len(),
{
    if a.len() == 0 {
        assert(a =~= b);
    } else {
        let a1 = a.drop_last();
        let b1 = b.drop_last();
        let x = seq![a.last()];
        let y = seq![b.last()];
        assert(is_digit(a[a.len() - 1]) && is_digit(b[b.len() - 1]));
        lemma_digits_order(a1, b1);
        assert(a =~= a1 + x);
        assert(b =~= b1 + y);
        if digits_value(a1) < digits_value(b1) {
            text::lemma_text_lt_irreflexive(a1);
            assert(b1.subrange(0, a1.len() as int) =~= b1);
            text::lemma_text_lt_extends(a1, b1, x, y);
        } else if digits_value(a1) == digits_value(b1) && a.last() < b.last() {
            assert(text::text_lt(x, y));
            text::lemma_text_lt_behind(a1, x, y);
        }
    }
}

/// Zeros in front of digits do not change the number.
proof fn lemma_zeros_in_front(zeros: Seq<char>, s: Seq<char>)
    requires
        forall|i: int| 0 <= i < zeros.len() ==> #[trigger] zeros[i] == '0',
    ensures
        digits_value(zeros + s) == digits_value(s),
    decreases zeros.len() + s.len(),
{
    if s.len() > 0 {
        assert((zeros + s).drop_last() =~= zeros + s.drop_last());
        lemma_zeros_in_front(zeros, s.drop_last());
    } else {
        assert(zeros + s =~= zeros);
        if zeros.len() > 0 {
            assert(zeros.drop_last() + s =~= zeros.drop_last());
            assert(zeros[zeros.len() - 1] == '0');
            lemma_zeros_in_front(zeros.drop_last(), s);
        }
    }
}

/// A power of ten.
pub open spec fn ten_to(k: nat) -> nat
    decreases k,
{
    if k == 0 {
        1
    } else {
        10 * ten_to((k - 1) as nat)
    }
}

/// A number below a power of ten has no more digits than the power has zeros.
proof fn lemma_decimal_len(n: nat, k: nat)
    requires
        n < ten_to(k),
        k > 0,
    ensures
        decimal_text(n).len() <= k,
    decreases n,
{
    if n >= 10 {
        assert(ten_to(k) == 10 * ten_to((k - 1) as nat));
        assert(k != 1) by {
            reveal_with_fuel(ten_to, 2);
        }
        lemma_decimal_len(n / 10, (k - 1) as nat);
    }
}

/// The digits of a number, with zeros in front, are as many as the largest number has.
pub proof fn lemma_padded_len(n: nat)
    requires
        n <= u64::MAX,
    ensures
        zero_padded(decimal_text(n), 20).len() == 20,
{
    assert(ten_to(20) > u64::MAX) by {
        reveal_with_fuel(ten_to, 21);
    }
    lemma_decimal_len(n, 20);
}

/// Numbers with zeros in front are in the order of the numbers.
pub proof fn lemma_padded_order(m: nat, n: nat)
    requires
        m < n <= u64::MAX,
    ensures
        text::text_lt(zero_padded(decimal_text(m), 20), zero_padded(decimal_text(n), 20)),
{
    let a = zero_padded(decimal_text(m), 20);
    let b = zero_padded(decimal_text(n), 20);
    lemma_padded_len(m);
    lemma_padded_len(n);
    lemma_padded_value(m);
    lemma_padded_value(n);
    lemma_digits_order(a, b);
}

/// Zeros in front of the digits of a number leave digits that stand for it.
proof fn lemma_padded_value(n: nat)
    ensures
        digits_value(zero_padded(decimal_text(n), 20)) == n,
        forall|i: int|
            0 <= i < zero_padded(decimal_text(n), 20).len() ==> is_digit(
                #[trigger] zero_padded(decimal_text(n), 20)[i],
            ),
{
    let s = decimal_text(n);
    lemma_decimal_digits(n);
    if s.len() < 20 {
        let zeros = Seq::new((20 - s.len()) as nat, |i: int| '0');
        lemma_zeros_in_front(zeros, s);
        assert forall|i: int| 0 <= i < (zeros + s).len() implies is_digit(#[trigger] (zeros + s)[i]) by {
            if i >= zeros.len() {
                assert(is_digit(s[i - zeros.len()]));
            }
        }
    }
}

/// The digits of a number are digits, at least one, and stand for it.
pub proof fn lemma_decimal_digits(n: nat)
    ensures
        decimal_text(n).len() >= 1,
        forall|i: int| 0 <= i < decimal_text(n).len() ==> is_digit(#[trigger] decimal_text(n)[i]),
        digits_value(decimal_text(n)) == n,
    decreases n,
{
    if n < 10 {
        reveal_with_fuel(digits_value, 2);
        assert(decimal_text(n).drop_last() =~= Seq::<char>::empty());
    } else {
        lemma_decimal_digits(n / 10);
        assert(decimal_text(n).drop_last() =~= decimal_text(n / 10));
    }
}

/// The hexadecimal digit with value `d`, in lower case.
pub open spec fn hex_char(d: nat) -> char {
    if d < 10 {
        (48 + d) as char
    } else {
        (87 + d) as char
    }
}

/// Two hexadecimal digits for each byte.
pub open spec fn hex_text(bytes: Seq<u8>) -> Seq<char>
    decreases bytes.len(),
{
    if bytes.len() == 0 {
        Seq::empty()
    } else {
        hex_text(bytes.drop_last()).push(hex_char(bytes.last() as nat / 16)).push(
            hex_char(bytes.last() as nat % 16),
        )
    }
}

fn hex_digit_char(d: u8) -> (r: char)
    requires
        d < 16,
    ensures
        r == hex_char(d as nat),
{
    match d {
        0 => '0',
        1 => '1',
        2 => '2',
        3 => '3',
        4 => '4',
        5 => '5',
        6 => '6',
        7 => '7',
        8 => '8',
        9 => '9',
        10 => 'a',
        11 => 'b',
        12 => 'c',
        13 => 'd',
        14 => 'e',
        _ => 'f',
    }
}

/// Writes each byte as two lower-case hexadecimal digits.
pub fn hex(bytes: &[u8]) -> (r: String)
    ensures
        r@ == hex_text(bytes@),
{
    let mut r = String::new();
    let mut i: usize = 0;
    assert(bytes@.subrange(0, 0) =~= Seq::<u8>::empty());
    while i < bytes.len()
        invariant
            i <= bytes@.len(),
            r@ == hex_text(bytes@.subrange(0, i as int)),
        decreases bytes@.len() - i,
    {
        let b = bytes[i];
        let ghost seen = bytes@.subrange(0, i + 1);
        assert(seen.drop_last() =~= bytes@.subrange(0, i as int));
        r.push(hex_digit_char(b / 16));
        r.push(hex_digit_char(b % 16));
        i = i + 1;
    }
    assert(bytes@.subrange(0, i as int) =~= bytes@);
    r
}

/// The value of a hexadecimal digit of either case.
pub open spec fn hex_value(c: char) -> Option<nat> {
    if '0' <= c <= '9' {
        Some((c as nat - 48) as nat)
    } else if 'a' <= c <= 'f' {
        Some((c as nat - 87) as nat)
    } else if 'A' <= c <= 'F' {
        Some((c as nat - 55) as nat)
    } else {
        None
    }
}

/// The value of a hexadecimal digit of either case.
pub fn hex_digit(c: char) -> (r: Option<u8>)
    ensures
        match r {
            Some(d) => hex_value(c) == Some(d as nat) && d < 16,
            None => hex_value(c) is None,
        },
{
    if '0' <= c && c <= '9' {
        Some((c as u32 - 48) as u8)
    } else if 'a' <= c && c <= 'f' {
        Some((c as u32 - 87) as u8)
    } else if 'A' <= c && c <= 'F' {
        Some((c as u32 - 55) as u8)
    } else {
        None
    }
}

/// The digit with value `d` has value `d`.
pub proof fn lemma_hex_char_value(d: nat)
    requires
        d < 16,
    ensures
        hex_value(hex_char(d)) == Some(d),
{
}

/// Each byte takes two characters.
pub proof fn lemma_hex_text_at(bytes: Seq<u8>)
    ensures
        hex_text(bytes).len() == 2 * bytes.len(),
        forall|i: int|
            0 <= i < bytes.len() ==> {
                &&& hex_text(bytes)[2 * i] == hex_char(#[trigger] bytes[i] as nat / 16)
                &&& hex_text(bytes)[2 * i + 1] == hex_char(bytes[i] as nat % 16)
            },
    decreases bytes.len(),
{
    if bytes.len() > 0 {
        lemma_hex_text_at(bytes.drop_last());
        assert forall|i: int| 0 <= i < bytes.len() implies {
            &&& hex_text(bytes)[2 * i] == hex_char(#[trigger] bytes[i] as nat / 16)
            &&& hex_text(bytes)[2 * i + 1] == hex_char(bytes[i] as nat % 16)
        } by {
            if i < bytes.len() - 1 {
                assert(bytes.drop_last()[i] == bytes[i]);
            }
        }
    }
}

/// A number in decimal, with a sign where it is negative.
pub open spec fn signed_text(n: int) -> Seq<char> {
    if n < 0 {
        "-"@ + decimal_text((-n) as nat)
    } else {
        decimal_text(n as nat)
    }
}

/// A number in decimal, with a sign where it is negative.
pub fn signed_decimal(n: i32) -> (r: String)
    ensures
        r@ == signed_text(n as int),
{
    if n < 0 {
        let wide: i64 = n as i64;
        "-".to_owned().concat(decimal((-wide) as u64).as_str())
    } else {
        decimal(n as u64)
    }
}

/// A number in hexadecimal, without leading zeros.
pub open spec fn hex_number(n: nat) -> Seq<char>
    decreases n,
{
    if n < 16 {
        seq![hex_char(n)]
    } else {
        hex_number(n / 16).push(hex_char(n % 16))
    }
}

/// A number in hexadecimal, without leading zeros.
pub fn hex_of(n: u32) -> (r: String)
    ensures
        r@ == hex_number(n as nat),
    decreases n,
{
    if n < 16 {
        let mut r = String::new();
        r.push(hex_digit_char(n as u8));
        assert(r@ =~= seq![hex_char(n as nat)]);
        r
    } else {
        let mut r = hex_of(n / 16);
        r.push(hex_digit_char((n % 16) as u8));
        r
    }
}

} // verus!

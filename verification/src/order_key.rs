//! Order keys: texts between which another text always fits.
use vstd::prelude::*;

use crate::text;
use crate::text::chars_of;

verus! {

/// Characters of order keys, from the lowest digit to the highest.
pub open spec fn is_key_char(c: char) -> bool {
    '0' <= c <= '9' || 'A' <= c <= 'Z' || 'a' <= c <= 'z'
}

/// The number of digits that order keys are written with.
pub const ORDER_BASE: usize = 62;

/// The value of an order key character.
pub open spec fn key_digit(c: char) -> nat {
    if c <= '9' {
        (c as nat - 48) as nat
    } else if c <= 'Z' {
        (c as nat - 55) as nat
    } else {
        (c as nat - 61) as nat
    }
}

/// The order key character with value `d`.
pub open spec fn key_char(d: nat) -> char {
    if d < 10 {
        (d + 48) as char
    } else if d < 36 {
        (d + 55) as char
    } else {
        (d + 61) as char
    }
}

/// Whether a text is an order key.
pub open spec fn valid_key(key: Seq<char>) -> bool {
    key.len() > 0 && forall|i: int| 0 <= i < key.len() ==> is_key_char(#[trigger] key[i])
}

/// The digit of a key at a position, or `default` past its end.
pub open spec fn digit_at(key: Seq<char>, index: int, default: nat) -> nat {
    if 0 <= index < key.len() {
        key_digit(key[index])
    } else {
        default
    }
}

/// The key between two keys from position `index` on: where the right digit leaves room above the
/// left digit the middle is taken; up to there the left digits are repeated. A missing left digit
/// counts as the lowest and a missing right digit as the highest.
pub open spec fn key_between(left: Seq<char>, right: Seq<char>, index: int) -> Seq<char>
    decreases (if left.len() > right.len() { left.len() } else { right.len() }) - index,
{
    let l = digit_at(left, index, 0);
    let r = digit_at(right, index, 61);
    if r > l + 1 {
        seq![key_char((l + r) / 2)]
    } else if index < left.len() || index < right.len() {
        seq![key_char(l)] + key_between(left, right, index + 1)
    } else {
        Seq::empty()
    }
}

/// The key that follows another, or the first key.
pub open spec fn next_key(left: Option<Seq<char>>) -> Seq<char> {
    key_between(
        match left {
            Some(key) => key,
            None => Seq::empty(),
        },
        Seq::empty(),
        0,
    )
}

/// The value of an order key character.
fn order_digit(c: char) -> (r: usize)
    requires
        is_key_char(c),
    ensures
        r == key_digit(c),
        r < ORDER_BASE,
{
    if c <= '9' {
        (c as u32 - 48) as usize
    } else if c <= 'Z' {
        (c as u32 - 55) as usize
    } else {
        (c as u32 - 61) as usize
    }
}

/// The digits of an order key.
pub fn order_key_digits(key: &str) -> (r: Vec<usize>)
    requires
        forall|i: int| 0 <= i < key@.len() ==> is_key_char(#[trigger] key@[i]),
    ensures
        r@.len() == key@.len(),
        forall|i: int| 0 <= i < r@.len() ==> #[trigger] r@[i] == key_digit(key@[i]) && r@[i] < ORDER_BASE,
{
    let chars = chars_of(key);
    let mut r: Vec<usize> = Vec::new();
    let mut i: usize = 0;
    while i < chars.len()
        invariant
            i <= chars@.len(),
            chars@ == key@,
            forall|k: int| 0 <= k < key@.len() ==> is_key_char(#[trigger] key@[k]),
            r@.len() == i,
            forall|k: int| 0 <= k < i ==> #[trigger] r@[k] == key_digit(key@[k]) && r@[k] < ORDER_BASE,
        decreases chars@.len() - i,
    {
        assert(is_key_char(key@[i as int]));
        r.push(order_digit(chars[i]));
        i = i + 1;
    }
    r
}

/// The order key character with value `d`.
fn order_char(d: usize) -> (r: char)
    requires
        d < ORDER_BASE,
    ensures
        r == key_char(d as nat),
{
    let code: u8 = if d < 10 {
        d as u8 + 48
    } else if d < 36 {
        d as u8 + 55
    } else {
        d as u8 + 61
    };
    code as char
}

/// The order key between two keys; a missing one leaves that side open.
pub fn fractional_key_between(left: Option<&str>, right: Option<&str>) -> (r: String)
    requires
        left matches Some(key) ==> valid_key(key@),
        right matches Some(key) ==> valid_key(key@),
    ensures
        r@ == key_between(opt_key(left), opt_key(right), 0),
{
    let left_digits: Vec<usize> = match left {
        Some(key) => order_key_digits(key),
        None => Vec::new(),
    };
    let right_digits: Vec<usize> = match right {
        Some(key) => order_key_digits(key),
        None => Vec::new(),
    };
    let ghost l = opt_key(left);
    let ghost r = opt_key(right);
    let mut out = String::new();
    let mut index: usize = 0;
    assert(out@ + key_between(l, r, 0) =~= key_between(l, r, 0));
    loop
        invariant
            l == opt_key(left),
            r == opt_key(right),
            left_digits@.len() == l.len(),
            right_digits@.len() == r.len(),
            forall|i: int|
                0 <= i < l.len() ==> #[trigger] left_digits@[i] == key_digit(l[i]) && left_digits@[i]
                    < ORDER_BASE,
            forall|i: int|
                0 <= i < r.len() ==> #[trigger] right_digits@[i] == key_digit(r[i])
                    && right_digits@[i] < ORDER_BASE,
            index <= l.len() || index <= r.len(),
            out@ + key_between(l, r, index as int) == key_between(l, r, 0),
        decreases (if l.len() > r.len() { l.len() } else { r.len() }) - index,
    {
        let left_digit: usize = if index < left_digits.len() { left_digits[index] } else { 0 };
        let right_digit: usize = if index < right_digits.len() {
            right_digits[index]
        } else {
            ORDER_BASE - 1
        };
        let ghost before = out@;
        if right_digit > left_digit + 1 {
            out.push(order_char((left_digit + right_digit) / 2));
            assert(out@ =~= before + key_between(l, r, index as int));
            return out;
        }
        out.push(order_char(left_digit));
        assert(index < l.len() || index < r.len());
        assert(out@ + key_between(l, r, index + 1) =~= before + key_between(l, r, index as int));
        index = index + 1;
    }
}

/// The characters of an optional key.
pub open spec fn opt_key(key: Option<&str>) -> Seq<char> {
    match key {
        Some(k) => k@,
        None => Seq::empty(),
    }
}

/// The first order key.
pub fn first_fractional_key() -> (r: String)
    ensures
        r@ == next_key(None),
{
    fractional_key_between(None, None)
}

/// The order key after `left`.
pub fn next_fractional_key(left: Option<&str>) -> (r: String)
    requires
        left matches Some(key) ==> valid_key(key@),
    ensures
        r@ == next_key(
            match left {
                Some(key) => Some(key@),
                None => None,
            },
        ),
{
    fractional_key_between(left, None)
}

/// Whether a text can be an order key.
pub fn is_valid_order_key(key: &str) -> (r: bool)
    ensures
        r == valid_key(key@),
{
    let chars = chars_of(key);
    if chars.len() == 0 {
        return false;
    }
    let mut i: usize = 0;
    while i < chars.len()
        invariant
            i <= chars@.len(),
            chars@ == key@,
            forall|k: int| 0 <= k < i ==> is_key_char(#[trigger] key@[k]),
        decreases chars@.len() - i,
    {
        let c = chars[i];
        if !(('0' <= c && c <= '9') || ('A' <= c && c <= 'Z') || ('a' <= c && c <= 'z')) {
            assert(!is_key_char(key@[i as int]));
            return false;
        }
        i = i + 1;
    }
    true
}

/// Characters with a lower value stand earlier.
proof fn lemma_key_char_order(a: nat, b: nat)
    requires
        a < b < 62,
    ensures
        key_char(a) < key_char(b),
        is_key_char(key_char(a)),
        is_key_char(key_char(b)),
        key_digit(key_char(a)) == a,
        key_digit(key_char(b)) == b,
{
}

/// The key after `left` follows it, and is a key.
pub proof fn lemma_next_key(left: Seq<char>)
    requires
        forall|i: int| 0 <= i < left.len() ==> is_key_char(#[trigger] left[i]),
    ensures
        text::text_lt(left, next_key(Some(left))),
        text::text_lt(left.push(':'), next_key(Some(left))),
        valid_key(next_key(Some(left))),
        left.len() == 0 ==> next_key(Some(left)) == next_key(None),
{
    lemma_key_from(left, 0);
    assert(left.subrange(0, left.len() as int) =~= left);
    if left.len() == 0 {
        assert(left =~= Seq::<char>::empty());
    }
}

proof fn lemma_key_from(left: Seq<char>, index: int)
    requires
        0 <= index <= left.len(),
        forall|i: int| 0 <= i < left.len() ==> is_key_char(#[trigger] left[i]),
    ensures
        ({
            let tail = key_between(left, Seq::empty(), index);
            &&& valid_key(tail)
            &&& text::text_lt(left.subrange(index, left.len() as int), tail)
            &&& text::text_lt(left.subrange(index, left.len() as int).push(':'), tail)
        }),
    decreases left.len() - index,
{
    let none = Seq::<char>::empty();
    let rest = left.subrange(index, left.len() as int);
    let tail = key_between(left, none, index);
    let l = digit_at(left, index, 0);
    if index == left.len() {
        assert(l == 0);
        lemma_key_char_order(0, 30);
        assert(tail =~= seq![key_char(30)]);
        assert(rest.push(':') =~= seq![':']);
    } else {
        assert(is_key_char(left[index]));
        assert(rest[0] == left[index]);
        assert(l < 62);
        assert(key_char(l) == left[index]);
        if 61 > l + 1 {
            lemma_key_char_order(l, (l + 61) / 2);
            assert(tail =~= seq![key_char((l + 61) / 2)]);
            assert(rest[0] != tail[0]);
        } else {
            lemma_key_from(left, index + 1);
            let more = key_between(left, none, index + 1);
            assert(tail =~= seq![key_char(l)] + more);
            assert(tail.drop_first() =~= more);
            assert(rest.drop_first() =~= left.subrange(index + 1, left.len() as int));
            assert(rest.push(':').drop_first() =~= rest.drop_first().push(':'));
            assert forall|i: int| 0 <= i < tail.len() implies is_key_char(#[trigger] tail[i]) by {
                if i > 0 {
                    assert(tail[i] == more[i - 1]);
                }
            }
        }
    }
}

} // verus!

//! Text as a sequence of characters: comparison, searching, splitting and building.
use vstd::prelude::*;

verus! {

/// `std::string::String::push` appends one character.
pub assume_specification[ String::push ](s: &mut String, c: char)
    ensures
        final(s)@ == old(s)@.push(c),
;

/// Where one text stands relative to another in code point order.
#[derive(Clone, Copy, Debug, PartialEq, Eq, Structural)]
pub enum TextOrder {
    Before,
    Same,
    After,
}

/// Code point order on texts: the first differing character decides, and a proper prefix comes
/// first.
pub open spec fn text_lt(a: Seq<char>, b: Seq<char>) -> bool
    decreases a.len(),
{
    if b.len() == 0 {
        false
    } else if a.len() == 0 {
        true
    } else if a[0] != b[0] {
        a[0] < b[0]
    } else {
        text_lt(a.drop_first(), b.drop_first())
    }
}

/// The relation that a [`TextOrder`] stands for.
pub open spec fn text_order_of(a: Seq<char>, b: Seq<char>) -> TextOrder {
    if a == b {
        TextOrder::Same
    } else if text_lt(a, b) {
        TextOrder::Before
    } else {
        TextOrder::After
    }
}

pub proof fn lemma_text_lt_irreflexive(a: Seq<char>)
    ensures
        !text_lt(a, a),
    decreases a.len(),
{
    if a.len() > 0 {
        lemma_text_lt_irreflexive(a.drop_first());
    }
}

pub proof fn lemma_text_lt_transitive(a: Seq<char>, b: Seq<char>, c: Seq<char>)
    requires
        text_lt(a, b),
        text_lt(b, c),
    ensures
        text_lt(a, c),
    decreases a.len(),
{
    if a.len() > 0 && a[0] == b[0] && b[0] == c[0] {
        lemma_text_lt_transitive(a.drop_first(), b.drop_first(), c.drop_first());
    }
}

/// What follows does not matter where two texts differ already.
pub proof fn lemma_text_lt_extends(a: Seq<char>, b: Seq<char>, x: Seq<char>, y: Seq<char>)
    requires
        text_lt(a, b),
        !begins_with(b, a),
    ensures
        text_lt(a + x, b + y),
    decreases a.len(),
{
    if a.len() == 0 {
        assert(b.subrange(0, 0) =~= a);
    } else if a[0] == b[0] {
        let a1 = a.drop_first();
        let b1 = b.drop_first();
        if begins_with(b1, a1) {
            assert(b.subrange(0, a.len() as int) =~= seq![b[0]] + b1.subrange(0, a1.len() as int));
            assert(a =~= seq![a[0]] + a1);
        }
        lemma_text_lt_extends(a1, b1, x, y);
        assert((a + x).drop_first() =~= a1 + x);
        assert((b + y).drop_first() =~= b1 + y);
    }
}

/// What stands in front of both texts does not matter.
pub proof fn lemma_text_lt_behind(front: Seq<char>, a: Seq<char>, b: Seq<char>)
    requires
        text_lt(a, b),
    ensures
        text_lt(front + a, front + b),
    decreases front.len(),
{
    if front.len() == 0 {
        assert(front + a =~= a);
        assert(front + b =~= b);
    } else {
        lemma_text_lt_behind(front.drop_first(), a, b);
        assert((front + a).drop_first() =~= front.drop_first() + a);
        assert((front + b).drop_first() =~= front.drop_first() + b);
    }
}

pub proof fn lemma_text_lt_total(a: Seq<char>, b: Seq<char>)
    ensures
        text_lt(a, b) || a == b || text_lt(b, a),
    decreases a.len(),
{
    if a.len() == 0 || b.len() == 0 {
        if a.len() == 0 && b.len() == 0 {
            assert(a =~= b);
        }
    } else if a[0] == b[0] {
        lemma_text_lt_total(a.drop_first(), b.drop_first());
        if a.drop_first() == b.drop_first() {
            assert(a =~= seq![a[0]] + a.drop_first());
            assert(b =~= seq![b[0]] + b.drop_first());
        }
    }
}

/// Compares two texts in code point order, which for UTF-8 is also byte order.
pub fn text_order(a: &str, b: &str) -> (r: TextOrder)
    ensures
        r == text_order_of(a@, b@),
{
    let mut left = a.chars();
    let mut right = b.chars();
    assert(vstd::std_specs::iter::IteratorSpec::remaining(&left) == a@);
    loop
        invariant
            vstd::std_specs::iter::IteratorSpec::obeys_prophetic_iter_laws(&left),
            vstd::std_specs::iter::IteratorSpec::obeys_prophetic_iter_laws(&right),
            vstd::std_specs::iter::IteratorSpec::decrease(&left) is Some,
            text_order_of(a@, b@) == text_order_of(vstd::std_specs::iter::IteratorSpec::remaining(&left), vstd::std_specs::iter::IteratorSpec::remaining(&right)),
        decreases vstd::std_specs::iter::IteratorSpec::decrease(&left)->0,
    {
        let ghost l = vstd::std_specs::iter::IteratorSpec::remaining(&left);
        let ghost r = vstd::std_specs::iter::IteratorSpec::remaining(&right);
        match (left.next(), right.next()) {
            (None, None) => {
                assert(l =~= r);
                return TextOrder::Same;
            },
            (None, Some(_)) => {
                return TextOrder::Before;
            },
            (Some(_), None) => {
                return TextOrder::After;
            },
            (Some(x), Some(y)) => {
                if x < y {
                    return TextOrder::Before;
                }
                if y < x {
                    return TextOrder::After;
                }
                proof {
                    assert(l =~= seq![x] + l.drop_first());
                    assert(r =~= seq![y] + r.drop_first());
                }
            },
        }
    }
}

/// The character sequences of a list of texts.
pub open spec fn texts(list: Seq<String>) -> Seq<Seq<char>> {
    list.map_values(|s: String| s@)
}

/// Whether two texts hold the same characters.
pub fn text_eq(a: &str, b: &str) -> (r: bool)
    ensures
        r == (a@ == b@),
{
    text_order(a, b) == TextOrder::Same
}

/// The characters of a text.
pub fn chars_of(s: &str) -> (r: Vec<char>)
    ensures
        r@ == s@,
{
    let mut r: Vec<char> = Vec::new();
    let mut rest = s.chars();
    assert(r@ + vstd::std_specs::iter::IteratorSpec::remaining(&rest) =~= s@);
    loop
        invariant
            vstd::std_specs::iter::IteratorSpec::obeys_prophetic_iter_laws(&rest),
            vstd::std_specs::iter::IteratorSpec::decrease(&rest) is Some,
            r@ + vstd::std_specs::iter::IteratorSpec::remaining(&rest) == s@,
        decreases vstd::std_specs::iter::IteratorSpec::decrease(&rest)->0,
    {
        let ghost before = vstd::std_specs::iter::IteratorSpec::remaining(&rest);
        match rest.next() {
            Some(c) => {
                r.push(c);
                assert(r@ + vstd::std_specs::iter::IteratorSpec::remaining(&rest) =~= s@);
            },
            None => {
                assert(r@ =~= s@);
                return r;
            },
        }
    }
}

/// The text made of the characters of `chars` from `start` up to `end`.
pub fn text_between(chars: &Vec<char>, start: usize, end: usize) -> (r: String)
    requires
        start <= end <= chars@.len(),
    ensures
        r@ == chars@.subrange(start as int, end as int),
{
    let mut r = String::new();
    let mut i: usize = start;
    assert(chars@.subrange(start as int, start as int) =~= Seq::<char>::empty());
    while i < end
        invariant
            start <= i <= end <= chars@.len(),
            r@ == chars@.subrange(start as int, i as int),
        decreases end - i,
    {
        r.push(chars[i]);
        assert(chars@.subrange(start as int, i + 1) =~= chars@.subrange(start as int, i as int).push(
            chars@[i as int],
        ));
        i = i + 1;
    }
    r
}

/// A copy of a list of texts.
pub fn copy_texts(list: &Vec<String>) -> (r: Vec<String>)
    ensures
        texts(r@) == texts(list@),
        r@.len() == list@.len(),
{
    let mut r: Vec<String> = Vec::new();
    let mut i: usize = 0;
    while i < list.len()
        invariant
            i <= list@.len(),
            r@.len() == i,
            forall|j: int| 0 <= j < i ==> (#[trigger] r@[j])@ == list@[j]@,
        decreases list@.len() - i,
    {
        r.push(list[i].clone());
        i = i + 1;
    }
    assert(texts(r@) =~= texts(list@));
    r
}

/// Whether `list` holds a text equal to `s`.
pub fn contains_text(list: &Vec<String>, s: &str) -> (r: bool)
    ensures
        r == texts(list@).contains(s@),
{
    let mut i: usize = 0;
    while i < list.len()
        invariant
            i <= list@.len(),
            forall|j: int| 0 <= j < i ==> texts(list@)[j] != s@,
        decreases list@.len() - i,
    {
        if text_eq(list[i].as_str(), s) {
            assert(texts(list@)[i as int] == s@);
            return true;
        }
        assert(texts(list@)[i as int] == list@[i as int]@);
        i = i + 1;
    }
    false
}

/// Whether `s` begins with `prefix`.
pub open spec fn begins_with(s: Seq<char>, prefix: Seq<char>) -> bool {
    prefix.len() <= s.len() && s.subrange(0, prefix.len() as int) == prefix
}

/// Whether `s` ends with `suffix`.
pub open spec fn ends_with(s: Seq<char>, suffix: Seq<char>) -> bool {
    suffix.len() <= s.len() && s.subrange(s.len() - suffix.len(), s.len() as int) == suffix
}

/// The part of `s` after `prefix`, if `s` begins with it.
pub open spec fn after_prefix(s: Seq<char>, prefix: Seq<char>) -> Option<Seq<char>> {
    if begins_with(s, prefix) {
        Some(s.subrange(prefix.len() as int, s.len() as int))
    } else {
        None
    }
}

/// The view of an optional text.
pub open spec fn opt_text(s: Option<String>) -> Option<Seq<char>> {
    match s {
        Some(t) => Some(t@),
        None => None,
    }
}

/// Whether the characters of `chars` from `at` on begin with those of `part`.
fn matches_at(chars: &Vec<char>, at: usize, part: &Vec<char>) -> (r: bool)
    requires
        at <= chars@.len(),
    ensures
        r == (at + part@.len() <= chars@.len() && chars@.subrange(at as int, at + part@.len())
            == part@),
{
    if part.len() > chars.len() - at {
        return false;
    }
    let n: usize = chars.len();
    let mut i: usize = 0;
    while i < part.len()
        invariant
            i <= part@.len(),
            at + part@.len() <= chars@.len() == n,
            forall|j: int| 0 <= j < i ==> chars@[at + j] == #[trigger] part@[j],
        decreases part@.len() - i,
    {
        if chars[at + i] != part[i] {
            assert(chars@.subrange(at as int, at + part@.len())[i as int] != part@[i as int]);
            return false;
        }
        i = i + 1;
    }
    assert(chars@.subrange(at as int, at + part@.len()) =~= part@);
    true
}

/// Whether `s` begins with `prefix`.
pub fn text_begins_with(s: &str, prefix: &str) -> (r: bool)
    ensures
        r == begins_with(s@, prefix@),
{
    matches_at(&chars_of(s), 0, &chars_of(prefix))
}

/// Whether `s` ends with `suffix`.
pub fn text_ends_with(s: &str, suffix: &str) -> (r: bool)
    ensures
        r == ends_with(s@, suffix@),
{
    let chars = chars_of(s);
    let part = chars_of(suffix);
    if part.len() > chars.len() {
        return false;
    }
    matches_at(&chars, chars.len() - part.len(), &part)
}

/// The part of `s` after `prefix`, if `s` begins with it.
pub fn strip_prefix(s: &str, prefix: &str) -> (r: Option<String>)
    ensures
        opt_text(r) == after_prefix(s@, prefix@),
{
    let chars = chars_of(s);
    let part = chars_of(prefix);
    if matches_at(&chars, 0, &part) {
        Some(text_between(&chars, part.len(), chars.len()))
    } else {
        None
    }
}

/// The pieces of `s` between the occurrences of `c`: one more than there are occurrences.
pub open spec fn split_text(s: Seq<char>, c: char) -> Seq<Seq<char>>
    decreases s.len(),
{
    if s.len() == 0 {
        seq![Seq::<char>::empty()]
    } else {
        let before = split_text(s.drop_last(), c);
        if s.last() == c {
            before.push(Seq::<char>::empty())
        } else {
            before.update(before.len() - 1, before.last().push(s.last()))
        }
    }
}

pub proof fn lemma_split_text_nonempty(s: Seq<char>, c: char)
    ensures
        split_text(s, c).len() >= 1,
    decreases s.len(),
{
    if s.len() > 0 {
        lemma_split_text_nonempty(s.drop_last(), c);
    }
}

/// Splits `s` at every `c`.
pub fn split(s: &str, c: char) -> (r: Vec<String>)
    ensures
        texts(r@) == split_text(s@, c),
        r@.len() >= 1,
{
    let chars = chars_of(s);
    let mut r: Vec<String> = Vec::new();
    let mut piece = String::new();
    let mut i: usize = 0;
    assert(chars@.subrange(0, 0) =~= Seq::<char>::empty());
    assert(texts(r@).push(piece@) =~= split_text(chars@.subrange(0, 0), c));
    while i < chars.len()
        invariant
            i <= chars@.len(),
            texts(r@).push(piece@) == split_text(chars@.subrange(0, i as int), c),
        decreases chars@.len() - i,
    {
        let ghost seen = chars@.subrange(0, i + 1);
        let ghost before = texts(r@).push(piece@);
        assert(seen.drop_last() =~= chars@.subrange(0, i as int));
        if chars[i] == c {
            r.push(piece);
            piece = String::new();
            assert(texts(r@) =~= before);
            assert(texts(r@).push(piece@) =~= split_text(seen, c));
        } else {
            piece.push(chars[i]);
            assert(texts(r@).push(piece@) =~= split_text(seen, c));
        }
        i = i + 1;
    }
    assert(chars@.subrange(0, i as int) =~= s@);
    let ghost before = texts(r@).push(piece@);
    r.push(piece);
    assert(texts(r@) =~= before);
    r
}

/// `parts` with `sep` between neighbours.
pub open spec fn join_texts(parts: Seq<Seq<char>>, sep: Seq<char>) -> Seq<char>
    decreases parts.len(),
{
    if parts.len() == 0 {
        Seq::empty()
    } else if parts.len() == 1 {
        parts[0]
    } else {
        join_texts(parts.drop_last(), sep) + sep + parts.last()
    }
}

/// Joins `parts` with `sep` between neighbours.
pub fn join(parts: &Vec<String>, sep: &str) -> (r: String)
    ensures
        r@ == join_texts(texts(parts@), sep@),
{
    let mut r = String::new();
    let mut i: usize = 0;
    let ghost all = texts(parts@);
    assert(all.subrange(0, 0) =~= Seq::<Seq<char>>::empty());
    while i < parts.len()
        invariant
            i <= parts@.len(),
            all == texts(parts@),
            r@ == join_texts(all.subrange(0, i as int), sep@),
        decreases parts@.len() - i,
    {
        let ghost seen = all.subrange(0, i + 1);
        assert(seen.drop_last() =~= all.subrange(0, i as int));
        if i > 0 {
            r.append(sep);
        } else {
            assert(r@ =~= Seq::<char>::empty());
        }
        let ghost before = r@;
        r.append(parts[i].as_str());
        assert(seen.last() == parts@[i as int]@);
        if i == 0 {
            assert(r@ =~= seen[0]);
        }
        i = i + 1;
    }
    assert(all.subrange(0, i as int) =~= all);
    r
}

/// `s` with every `from` turned into `to`.
pub open spec fn with_char_replaced(s: Seq<char>, from: char, to: char) -> Seq<char> {
    s.map_values(|c: char| if c == from { to } else { c })
}

/// Turns every `from` in `s` into `to`.
pub fn replace_char(s: &str, from: char, to: char) -> (r: String)
    ensures
        r@ == with_char_replaced(s@, from, to),
{
    let chars = chars_of(s);
    let mut r = String::new();
    let mut i: usize = 0;
    while i < chars.len()
        invariant
            i <= chars@.len(),
            chars@ == s@,
            r@ == with_char_replaced(s@.subrange(0, i as int), from, to),
        decreases chars@.len() - i,
    {
        let c = chars[i];
        r.push(if c == from { to } else { c });
        assert(r@ =~= with_char_replaced(s@.subrange(0, i + 1), from, to));
        i = i + 1;
    }
    assert(s@.subrange(0, i as int) =~= s@);
    r
}

/// Whether `c` occurs in `s`.
pub fn contains_char(s: &str, c: char) -> (r: bool)
    ensures
        r == s@.contains(c),
{
    let chars = chars_of(s);
    let mut i: usize = 0;
    while i < chars.len()
        invariant
            i <= chars@.len(),
            chars@ == s@,
            forall|j: int| 0 <= j < i ==> s@[j] != c,
        decreases chars@.len() - i,
    {
        if chars[i] == c {
            assert(s@[i as int] == c);
            return true;
        }
        i = i + 1;
    }
    false
}

/// The lower-case form of an ASCII letter; any other character is itself.
pub open spec fn ascii_lower(c: char) -> char {
    if 'A' <= c <= 'Z' {
        (c as u32 + 32) as char
    } else {
        c
    }
}

/// Two texts that differ at most in the case of ASCII letters.
pub open spec fn same_ignoring_ascii_case(a: Seq<char>, b: Seq<char>) -> bool {
    a.len() == b.len() && forall|i: int| 0 <= i < a.len() ==> ascii_lower(#[trigger] a[i]) == ascii_lower(b[i])
}

/// `s` with its ASCII letters in lower case.
pub open spec fn lower_text(s: Seq<char>) -> Seq<char> {
    s.map_values(|c: char| ascii_lower(c))
}

/// `s` with its ASCII letters in lower case.
pub fn to_ascii_lowercase(s: &str) -> (r: String)
    ensures
        r@ == lower_text(s@),
{
    let chars = chars_of(s);
    let mut lower = String::new();
    let mut i: usize = 0;
    while i < chars.len()
        invariant
            i <= chars@.len(),
            lower@.len() == i,
            forall|k: int| 0 <= k < i ==> #[trigger] lower@[k] == ascii_lower(chars@[k]),
        decreases chars@.len() - i,
    {
        let c = chars[i];
        if 'A' <= c && c <= 'Z' {
            lower.push((c as u8 + 32) as char);
        } else {
            lower.push(c);
        }
        i = i + 1;
    }
    assert(lower@ =~= lower_text(s@));
    lower
}

/// The number by which a character is compared when ASCII case is ignored.
fn lower_code(c: char) -> (r: u32)
    ensures
        r == ascii_lower(c) as u32,
{
    if 'A' <= c && c <= 'Z' {
        c as u32 + 32
    } else {
        c as u32
    }
}

/// Whether two texts differ at most in the case of ASCII letters.
pub fn eq_ignore_ascii_case(a: &str, b: &str) -> (r: bool)
    ensures
        r == same_ignoring_ascii_case(a@, b@),
{
    let left = chars_of(a);
    let right = chars_of(b);
    if left.len() != right.len() {
        return false;
    }
    let mut i: usize = 0;
    while i < left.len()
        invariant
            i <= left@.len() == right@.len(),
            left@ == a@,
            right@ == b@,
            forall|j: int| 0 <= j < i ==> ascii_lower(#[trigger] left@[j]) == ascii_lower(right@[j]),
        decreases left@.len() - i,
    {
        if lower_code(left[i]) != lower_code(right[i]) {
            assert(ascii_lower(a@[i as int]) != ascii_lower(b@[i as int]));
            return false;
        }
        i = i + 1;
    }
    true
}

/// The characters of the Unicode property `White_Space`.
pub open spec fn is_whitespace(c: char) -> bool {
    ||| '\u{9}' <= c <= '\u{d}'
    ||| c == ' '
    ||| c == '\u{85}'
    ||| c == '\u{a0}'
    ||| c == '\u{1680}'
    ||| '\u{2000}' <= c <= '\u{200a}'
    ||| c == '\u{2028}'
    ||| c == '\u{2029}'
    ||| c == '\u{202f}'
    ||| c == '\u{205f}'
    ||| c == '\u{3000}'
}

/// Whether `c` is a white space character.
pub fn char_is_whitespace(c: char) -> (r: bool)
    ensures
        r == is_whitespace(c),
{
    ('\u{9}' <= c && c <= '\u{d}') || c == ' ' || c == '\u{85}' || c == '\u{a0}' || c == '\u{1680}'
        || ('\u{2000}' <= c && c <= '\u{200a}') || c == '\u{2028}' || c == '\u{2029}' || c
        == '\u{202f}' || c == '\u{205f}' || c == '\u{3000}'
}

/// `s` without its leading white space.
pub open spec fn trim_start_text(s: Seq<char>) -> Seq<char>
    decreases s.len(),
{
    if s.len() > 0 && is_whitespace(s[0]) {
        trim_start_text(s.drop_first())
    } else {
        s
    }
}

/// `s` without its trailing white space.
pub open spec fn trim_end_text(s: Seq<char>) -> Seq<char>
    decreases s.len(),
{
    if s.len() > 0 && is_whitespace(s.last()) {
        trim_end_text(s.drop_last())
    } else {
        s
    }
}

/// `s` without its leading and trailing white space.
pub open spec fn trim_text(s: Seq<char>) -> Seq<char> {
    trim_end_text(trim_start_text(s))
}

/// Removes leading and trailing white space.
pub fn trim(s: &str) -> (r: String)
    ensures
        r@ == trim_text(s@),
{
    let chars = chars_of(s);
    let mut start: usize = 0;
    let n: usize = chars.len();
    assert(chars@.subrange(0, n as int) =~= s@);
    while start < n && char_is_whitespace(chars[start])
        invariant
            start <= n == chars@.len(),
            trim_start_text(s@) == trim_start_text(chars@.subrange(start as int, n as int)),
        decreases n - start,
    {
        assert(chars@.subrange(start as int, n as int).drop_first() =~= chars@.subrange(
            start + 1,
            n as int,
        ));
        start = start + 1;
    }
    let mut end: usize = n;
    while start < end && char_is_whitespace(chars[end - 1])
        invariant
            start <= end <= n == chars@.len(),
            trim_text(s@) == trim_end_text(chars@.subrange(start as int, end as int)),
        decreases end - start,
    {
        assert(chars@.subrange(start as int, end as int).drop_last() =~= chars@.subrange(
            start as int,
            end - 1,
        ));
        end = end - 1;
    }
    text_between(&chars, start, end)
}

/// `at` is the last position of `c` in `s`.
pub open spec fn is_last_index(s: Seq<char>, c: char, at: int) -> bool {
    &&& 0 <= at < s.len()
    &&& s[at] == c
    &&& forall|j: int| at < j < s.len() ==> s[j] != c
}

/// The two parts of `s` around its last `c`, if there is one.
pub open spec fn split_last(s: Seq<char>, c: char) -> Option<(Seq<char>, Seq<char>)> {
    if s.contains(c) {
        let at = choose|at: int| is_last_index(s, c, at);
        Some((s.subrange(0, at), s.subrange(at + 1, s.len() as int)))
    } else {
        None
    }
}

/// There is at most one last position, so a known one gives the split.
pub proof fn lemma_split_last(s: Seq<char>, c: char, at: int)
    requires
        is_last_index(s, c, at),
    ensures
        split_last(s, c) == Some((s.subrange(0, at), s.subrange(at + 1, s.len() as int))),
{
    let other = choose|other: int| is_last_index(s, c, other);
    assert(is_last_index(s, c, other));
    assert(other == at);
}

/// Splits `s` around its last `c`.
pub fn rsplit_once(s: &str, c: char) -> (r: Option<(String, String)>)
    ensures
        match r {
            Some((left, right)) => split_last(s@, c) == Some((left@, right@)),
            None => split_last(s@, c) is None,
        },
{
    let chars = chars_of(s);
    let mut i: usize = chars.len();
    while i > 0
        invariant
            i <= chars@.len(),
            chars@ == s@,
            forall|j: int| i <= j < chars@.len() ==> s@[j] != c,
        decreases i,
    {
        if chars[i - 1] == c {
            proof {
                assert(is_last_index(s@, c, i - 1));
                lemma_split_last(s@, c, i - 1);
            }
            return Some((text_between(&chars, 0, i - 1), text_between(&chars, i, chars.len())));
        }
        i = i - 1;
    }
    None
}

/// Texts one after another.
pub open spec fn flat(parts: Seq<Seq<char>>) -> Seq<char>
    decreases parts.len(),
{
    if parts.len() == 0 {
        Seq::empty()
    } else {
        flat(parts.drop_last()) + parts.last()
    }
}

/// The character sequences of a list of string slices.
pub open spec fn strs(list: Seq<&str>) -> Seq<Seq<char>> {
    list.map_values(|s: &str| s@)
}

/// Puts texts one after another.
pub fn cat(parts: Vec<&str>) -> (r: String)
    ensures
        r@ == flat(strs(parts@)),
{
    let mut out = String::new();
    let mut i: usize = 0;
    let ghost all = strs(parts@);
    assert(all.subrange(0, 0) =~= Seq::<Seq<char>>::empty());
    while i < parts.len()
        invariant
            i <= parts@.len(),
            all == strs(parts@),
            out@ == flat(all.subrange(0, i as int)),
        decreases parts@.len() - i,
    {
        out.append(parts[i]);
        i = i + 1;
        assert(all.subrange(0, i as int).drop_last() =~= all.subrange(0, i - 1));
    }
    assert(all.subrange(0, i as int) =~= all);
    out
}

/// Adds texts to a list.
pub fn append_texts(list: &mut Vec<String>, more: &Vec<String>)
    ensures
        texts(final(list)@) == texts(old(list)@) + texts(more@),
{
    let ghost start = texts(list@);
    let ghost added = texts(more@);
    let mut i: usize = 0;
    assert(start =~= start + added.subrange(0, 0));
    while i < more.len()
        invariant
            i <= more@.len(),
            added == texts(more@),
            texts(list@) == start + added.subrange(0, i as int),
        decreases more@.len() - i,
    {
        let part = more[i].clone();
        let ghost before = texts(list@);
        let ghost label = part@;
        list.push(part);
        assert(texts(list@) =~= before.push(label));
        assert(added.subrange(0, i + 1) =~= added.subrange(0, i as int).push(label));
        assert(texts(list@) =~= start + added.subrange(0, i + 1));
        i = i + 1;
    }
    assert(added.subrange(0, i as int) =~= added);
}

} // verus!

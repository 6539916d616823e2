//! Stored values as texts: numbers, digests and references to blobs.
use vstd::prelude::*;

use crate::fingerprint;
use crate::fingerprint::sha256_hex;
use crate::numbers;
use crate::numbers::{decimal, hex, hex_digit};
use crate::text;
use crate::text::{chars_of, strip_prefix, text_eq};
use crate::types;
use crate::types::{debug_quoted, BaseFingerprint, BaseStorageSnapshot};

verus! {

/// The version of the storage.
pub const STORE_VERSION: u32 = 3;

/// The number of hexadecimal digits of a SHA-256 digest.
pub const SHA256_HEX_LEN: usize = 64;

/// Why a text is no number, if it is none. Digits are read from the left: the first character
/// that is no digit, or at which the number gets too large, decides.
pub open spec fn digits_fault(digits: Seq<char>, value: nat, max: nat) -> Option<Seq<char>>
    decreases digits.len(),
{
    if digits.len() == 0 {
        None
    } else if !numbers::is_digit(digits[0]) {
        Some("invalid digit found in string"@)
    } else {
        let next = value * 10 + (digits[0] as nat - 48) as nat;
        if next > max {
            Some("number too large to fit in target type"@)
        } else {
            digits_fault(digits.drop_first(), next, max)
        }
    }
}

/// Why a text is no number, if it is none.
pub open spec fn number_fault(s: Seq<char>, max: nat) -> Option<Seq<char>> {
    if s.len() == 0 {
        Some("cannot parse integer from empty string"@)
    } else {
        digits_fault(numbers::number_digits(s), 0, max)
    }
}

/// Reads a number of at most `max`, or says why the text is none.
pub fn scan_number(s: &str, max: u64) -> (r: Result<u64, String>)
    ensures
        match r {
            Ok(n) => number_fault(s@, max as nat) is None && numbers::parsed_number(s@, max as nat)
                == Some(n as nat),
            Err(reason) => number_fault(s@, max as nat) == Some(reason@),
        },
{
    let chars = chars_of(s);
    let n: usize = chars.len();
    if n == 0 {
        return Err("cannot parse integer from empty string".to_owned());
    }
    let start: usize = if n > 1 && chars[0] == '+' {
        1
    } else {
        0
    };
    let ghost digits = numbers::number_digits(s@);
    let mut value: u64 = 0;
    let mut i: usize = start;
    proof {
        assert(digits =~= chars@.subrange(start as int, n as int));
        assert(digits.subrange(0, 0) =~= Seq::empty());
        assert(digits.subrange(0, digits.len() as int) =~= digits);
    }
    while i < n
        invariant
            start <= i <= n == chars@.len(),
            start < n,
            digits == chars@.subrange(start as int, n as int),
            digits == numbers::number_digits(s@),
            s@.len() > 0,
            value == numbers::digits_value(digits.subrange(0, i - start)),
            value <= max,
            forall|j: int| 0 <= j < i - start ==> numbers::is_digit(#[trigger] digits[j]),
            number_fault(s@, max as nat) == digits_fault(
                digits.subrange(i - start, digits.len() as int),
                value as nat,
                max as nat,
            ),
        decreases n - i,
    {
        let c = chars[i];
        let ghost rest = digits.subrange(i - start, digits.len() as int);
        proof {
            assert(digits[i - start] == c);
            assert(rest[0] == c);
            assert(rest.drop_first() =~= digits.subrange(i - start + 1, digits.len() as int));
            assert(digits.subrange(0, i - start + 1).drop_last() =~= digits.subrange(0, i - start));
        }
        if !('0' <= c && c <= '9') {
            return Err("invalid digit found in string".to_owned());
        }
        let next: u128 = value as u128 * 10 + (c as u32 - 48) as u128;
        if next > max as u128 {
            return Err("number too large to fit in target type".to_owned());
        }
        value = next as u64;
        i = i + 1;
    }
    assert(digits.subrange(0, i - start) =~= digits);
    Ok(value)
}

proof fn lemma_no_digits_fault(digits: Seq<char>, i: int, max: nat)
    requires
        0 <= i <= digits.len(),
        forall|j: int| 0 <= j < digits.len() ==> numbers::is_digit(#[trigger] digits[j]),
        numbers::digits_value(digits) <= max,
    ensures
        digits_fault(
            digits.subrange(i, digits.len() as int),
            numbers::digits_value(digits.subrange(0, i)),
            max,
        ) is None,
    decreases digits.len() - i,
{
    let rest = digits.subrange(i, digits.len() as int);
    if i < digits.len() {
        lemma_no_digits_fault(digits, i + 1, max);
        numbers::lemma_digits_value_grows(digits, i + 1);
        assert(digits.subrange(0, i + 1).drop_last() =~= digits.subrange(0, i));
        assert(rest.drop_first() =~= digits.subrange(i + 1, digits.len() as int));
        assert(numbers::is_digit(digits[i]));
    }
}

/// A text that stands for a number has no fault.
pub proof fn lemma_no_number_fault(s: Seq<char>, max: nat)
    requires
        numbers::parsed_number(s, max) is Some,
    ensures
        number_fault(s, max) is None,
{
    let digits = numbers::number_digits(s);
    lemma_no_digits_fault(digits, 0, max);
    assert(digits.subrange(0, digits.len() as int) =~= digits);
    assert(digits.subrange(0, 0) =~= Seq::empty());
}

/// What a stored field holds, or what is told where it is no number.
pub open spec fn stored_number(value: Seq<char>, field: Seq<char>) -> Result<nat, Seq<char>> {
    match number_fault(value, u64::MAX as nat) {
        None => Ok(numbers::parsed_number(value, u64::MAX as nat)->0),
        Some(reason) => Err(
            text::flat(
                seq![
                    "database field "@,
                    field,
                    " value "@,
                    types::debug_text(value),
                    " is not a u64: "@,
                    reason,
                ],
            ),
        ),
    }
}

/// Reads a stored field.
pub fn parse_u64(value: &str, field: &str) -> (r: Result<u64, String>)
    ensures
        match r {
            Ok(n) => stored_number(value@, field@) == Ok::<nat, Seq<char>>(n as nat),
            Err(message) => stored_number(value@, field@) == Err::<nat, Seq<char>>(message@),
        },
{
    match scan_number(value, u64::MAX) {
        Ok(n) => Ok(n),
        Err(reason) => {
            let quoted = debug_quoted(value);
            let parts: Vec<&str> = vec![
                "database field ",
                field,
                " value ",
                quoted.as_str(),
                " is not a u64: ",
                reason.as_str(),
            ];
            assert(text::strs(parts@) =~= seq![
                "database field "@,
                field@,
                " value "@,
                types::debug_text(value@),
                " is not a u64: "@,
                reason@,
            ]);
            Err(text::cat(parts))
        },
    }
}

/// Whether the version of a stored repo is the known one, or what is told where it is not.
pub open spec fn stored_version(value: Seq<char>) -> Result<nat, Seq<char>> {
    match number_fault(value, u32::MAX as nat) {
        Some(reason) => Err(
            text::flat(
                seq![
                    "schema_version "@,
                    types::debug_text(value),
                    " is not a u32: "@,
                    reason,
                ],
            ),
        ),
        None => {
            let version = numbers::parsed_number(value, u32::MAX as nat)->0;
            if version == STORE_VERSION {
                Ok(version)
            } else {
                Err(
                    text::flat(
                        seq![
                            "unsupported lane storage version "@,
                            numbers::decimal_text(version),
                            "; expected "@,
                            numbers::decimal_text(STORE_VERSION as nat),
                        ],
                    ),
                )
            }
        },
    }
}

/// Reads the version of a stored repo.
pub fn parse_version(value: &str) -> (r: Result<u32, String>)
    ensures
        match r {
            Ok(version) => stored_version(value@) == Ok::<nat, Seq<char>>(version as nat),
            Err(message) => stored_version(value@) == Err::<nat, Seq<char>>(message@),
        },
{
    match scan_number(value, u32::MAX as u64) {
        Err(reason) => {
            let quoted = debug_quoted(value);
            let parts: Vec<&str> = vec![
                "schema_version ",
                quoted.as_str(),
                " is not a u32: ",
                reason.as_str(),
            ];
            assert(text::strs(parts@) =~= seq![
                "schema_version "@,
                types::debug_text(value@),
                " is not a u32: "@,
                reason@,
            ]);
            Err(text::cat(parts))
        },
        Ok(version) => if version == STORE_VERSION as u64 {
            Ok(STORE_VERSION)
        } else {
            let found = decimal(version);
            let known = decimal(STORE_VERSION as u64);
            let parts: Vec<&str> = vec![
                "unsupported lane storage version ",
                found.as_str(),
                "; expected ",
                known.as_str(),
            ];
            assert(text::strs(parts@) =~= seq![
                "unsupported lane storage version "@,
                numbers::decimal_text(version as nat),
                "; expected "@,
                numbers::decimal_text(STORE_VERSION as nat),
            ]);
            Err(text::cat(parts))
        },
    }
}

/// The bytes that pairs of hexadecimal digits stand for, or why they stand for none.
pub open spec fn hex_pairs(digits: Seq<u8>) -> Result<Seq<u8>, Seq<char>>
    decreases digits.len(),
{
    if digits.len() < 2 {
        Ok(Seq::empty())
    } else {
        let n = digits.len() as int;
        match hex_pairs(digits.subrange(0, n - 2)) {
            Err(message) => Err(message),
            Ok(bytes) => match (byte_hex_value(digits[n - 2]), byte_hex_value(digits[n - 1])) {
                (Some(hi), Some(lo)) => Ok(bytes.push((hi * 16 + lo) as u8)),
                _ => Err("hex value contains a non-hex digit"@),
            },
        }
    }
}

/// The value of a hexadecimal digit that is given as a byte.
pub open spec fn byte_hex_value(byte: u8) -> Option<nat> {
    numbers::hex_value(byte as char)
}

/// The bytes that a text in hexadecimal stands for, or why it stands for none.
pub open spec fn parsed_hex(value: Seq<char>) -> Result<Seq<u8>, Seq<char>> {
    let digits = vstd::utf8::encode_utf8(value);
    if digits.len() % 2 != 0 {
        Err("hex value must have an even length"@)
    } else {
        hex_pairs(digits)
    }
}

proof fn lemma_hex_error(digits: Seq<u8>, n: int)
    requires
        0 <= n <= digits.len(),
        n % 2 == 0,
        digits.len() % 2 == 0,
        hex_pairs(digits.subrange(0, n)) is Err,
    ensures
        hex_pairs(digits) == hex_pairs(digits.subrange(0, n)),
    decreases digits.len(),
{
    if n == digits.len() {
        assert(digits.subrange(0, n) =~= digits);
    } else {
        let rest = digits.subrange(0, digits.len() - 2);
        assert(rest.subrange(0, n) =~= digits.subrange(0, n));
        lemma_hex_error(rest, n);
    }
}

/// Reads bytes in hexadecimal.
pub fn parse_hex(value: &str) -> (r: Result<Vec<u8>, String>)
    ensures
        match r {
            Ok(bytes) => parsed_hex(value@) == Ok::<Seq<u8>, Seq<char>>(bytes@),
            Err(message) => parsed_hex(value@) == Err::<Seq<u8>, Seq<char>>(message@),
        },
{
    let digits = value.as_bytes();
    let n: usize = digits.len();
    if n % 2 != 0 {
        return Err("hex value must have an even length".to_owned());
    }
    let mut bytes: Vec<u8> = Vec::new();
    let mut i: usize = 0;
    assert(digits@.subrange(0, 0) =~= Seq::empty());
    assert(bytes@ =~= Seq::empty());
    while i < n
        invariant
            i <= n == digits@.len(),
            i % 2 == 0,
            n % 2 == 0,
            digits@ == vstd::utf8::encode_utf8(value@),
            hex_pairs(digits@.subrange(0, i as int)) == Ok::<Seq<u8>, Seq<char>>(bytes@),
        decreases n - i,
    {
        let ghost longer = digits@.subrange(0, i + 2);
        assert(longer.subrange(0, i as int) =~= digits@.subrange(0, i as int));
        assert(longer[i as int] == digits@[i as int] && longer[i + 1] == digits@[i + 1]);
        let hi = hex_digit(digits[i] as char);
        let lo = hex_digit(digits[i + 1] as char);
        match (hi, lo) {
            (Some(hi), Some(lo)) => {
                bytes.push(hi * 16 + lo);
            },
            _ => {
                proof {
                    lemma_hex_error(digits@, i + 2);
                }
                return Err("hex value contains a non-hex digit".to_owned());
            },
        }
        i = i + 2;
    }
    assert(digits@.subrange(0, i as int) =~= digits@);
    Ok(bytes)
}

/// The digest that a text stands for, or why it stands for none.
pub open spec fn parsed_fingerprint(value: Seq<char>) -> Result<Seq<u8>, Seq<char>> {
    match parsed_hex(value) {
        Err(message) => Err(message),
        Ok(bytes) => if bytes.len() != 32 {
            Err("base fingerprint must be 32 bytes"@)
        } else {
            Ok(bytes)
        },
    }
}

/// Reads a digest.
pub fn parse_fingerprint(value: &str) -> (r: Result<BaseFingerprint, String>)
    ensures
        match r {
            Ok(fingerprint) => parsed_fingerprint(value@) == Ok::<Seq<u8>, Seq<char>>(fingerprint@),
            Err(message) => parsed_fingerprint(value@) == Err::<Seq<u8>, Seq<char>>(message@),
        },
{
    let bytes = match parse_hex(value) {
        Err(message) => {
            return Err(message);
        },
        Ok(bytes) => bytes,
    };
    if bytes.len() != 32 {
        return Err("base fingerprint must be 32 bytes".to_owned());
    }
    let mut fingerprint: BaseFingerprint = [0u8; 32];
    let mut i: usize = 0;
    while i < 32
        invariant
            i <= 32,
            bytes@.len() == 32,
            forall|k: int| 0 <= k < i ==> #[trigger] fingerprint@[k] == bytes@[k],
        decreases 32 - i,
    {
        fingerprint[i] = bytes[i];
        i = i + 1;
    }
    assert(fingerprint@ =~= bytes@);
    Ok(fingerprint)
}

/// The stored form of a base: its state and its digest.
pub open spec fn base_texts(base: Option<Seq<u8>>) -> (Seq<char>, Option<Seq<char>>) {
    match base {
        Some(fingerprint) => ("present"@, Some(numbers::hex_text(fingerprint))),
        None => ("missing"@, None),
    }
}

/// The stored form of a base.
pub fn stored_base(base: &BaseStorageSnapshot) -> (r: (&'static str, Option<String>))
    ensures
        (r.0@, text::opt_text(r.1)) == base_texts(base@),
{
    match base {
        BaseStorageSnapshot::Present(fingerprint) => ("present", Some(hex(fingerprint.as_slice()))),
        BaseStorageSnapshot::Missing => ("missing", None),
    }
}

/// The base that stored texts stand for, or why they stand for none.
pub open spec fn parsed_base(state: Seq<char>, fingerprint: Option<Seq<char>>) -> Result<
    Option<Seq<u8>>,
    Seq<char>,
> {
    if state == "present"@ {
        match fingerprint {
            None => Err("present database base is missing fingerprint"@),
            Some(value) => match parsed_fingerprint(value) {
                Ok(bytes) => Ok(Some(bytes)),
                Err(message) => Err(message),
            },
        }
    } else if state == "missing"@ {
        match fingerprint {
            None => Ok(None),
            Some(_) => Err("missing database base must not have a fingerprint"@),
        }
    } else {
        Err("database file has invalid base state "@ + types::debug_text(state))
    }
}

/// Reads the base of a stored file.
pub fn parse_base(state: &str, fingerprint: &Option<String>) -> (r: Result<
    BaseStorageSnapshot,
    String,
>)
    ensures
        match r {
            Ok(base) => parsed_base(state@, text::opt_text(*fingerprint)) == Ok::<
                Option<Seq<u8>>,
                Seq<char>,
            >(base@),
            Err(message) => parsed_base(state@, text::opt_text(*fingerprint)) == Err::<
                Option<Seq<u8>>,
                Seq<char>,
            >(message@),
        },
{
    if text_eq(state, "present") {
        match fingerprint {
            None => Err("present database base is missing fingerprint".to_owned()),
            Some(value) => match parse_fingerprint(value.as_str()) {
                Ok(bytes) => Ok(BaseStorageSnapshot::Present(bytes)),
                Err(message) => Err(message),
            },
        }
    } else if text_eq(state, "missing") {
        match fingerprint {
            None => Ok(BaseStorageSnapshot::Missing),
            Some(_) => Err("missing database base must not have a fingerprint".to_owned()),
        }
    } else {
        Err(
            "database file has invalid base state ".to_owned().concat(
                debug_quoted(state).as_str(),
            ),
        )
    }
}

/// The name under which bytes are stored.
pub open spec fn blob_name(bytes: Seq<u8>) -> Seq<char> {
    "sha256/"@ + numbers::hex_text(fingerprint::sha256(bytes))
}

/// The name under which bytes are stored.
pub fn blob_reference(bytes: &[u8]) -> (r: String)
    ensures
        r@ == blob_name(bytes@),
{
    "sha256/".to_owned().concat(sha256_hex(bytes).as_str())
}

/// Whether a character is a hexadecimal digit.
pub open spec fn is_hex(c: char) -> bool {
    numbers::hex_value(c) is Some
}

/// Why a text is no name of stored bytes, if it is none.
pub open spec fn blob_fault(reference: Seq<char>) -> Option<Seq<char>> {
    match text::after_prefix(reference, "sha256/"@) {
        None => Some("blob reference must start with sha256/"@),
        Some(hash) => if hash.len() != SHA256_HEX_LEN || exists|i: int|
            0 <= i < hash.len() && !is_hex(#[trigger] hash[i]) {
            Some("blob reference must contain a 64-character hex sha256"@)
        } else {
            None
        },
    }
}

/// Accepts the name of stored bytes.
pub fn validate_blob_reference(reference: &str) -> (r: Result<(), String>)
    ensures
        match r {
            Ok(()) => blob_fault(reference@) is None,
            Err(message) => blob_fault(reference@) == Some(message@),
        },
{
    match strip_prefix(reference, "sha256/") {
        None => Err("blob reference must start with sha256/".to_owned()),
        Some(hash) => {
            let chars = chars_of(hash.as_str());
            if chars.len() != SHA256_HEX_LEN {
                return Err("blob reference must contain a 64-character hex sha256".to_owned());
            }
            let mut i: usize = 0;
            while i < chars.len()
                invariant
                    i <= chars@.len(),
                    chars@ == hash@,
                    forall|k: int| 0 <= k < i ==> is_hex(#[trigger] hash@[k]),
                    text::after_prefix(reference@, "sha256/"@) == Some(hash@),
                decreases chars@.len() - i,
            {
                if hex_digit(chars[i]).is_none() {
                    assert(!is_hex(hash@[i as int]));
                    return Err("blob reference must contain a 64-character hex sha256".to_owned());
                }
                i = i + 1;
            }
            Ok(())
        },
    }
}

/// The name of the file that holds stored bytes.
pub fn blob_file_name(reference: &str) -> (r: Result<String, String>)
    ensures
        match r {
            Ok(name) => blob_fault(reference@) is None && text::after_prefix(
                reference@,
                "sha256/"@,
            ) == Some(name@),
            Err(message) => blob_fault(reference@) == Some(message@),
        },
{
    match validate_blob_reference(reference) {
        Err(message) => Err(message),
        Ok(()) => match strip_prefix(reference, "sha256/") {
            Some(name) => Ok(name),
            None => Ok(String::new()),
        },
    }
}

} // verus!

//! Names of stored files.
use vstd::prelude::*;

use crate::numbers;
use crate::numbers::hex;

verus! {

/// The file that keeps others from changing a repo's storage.
pub const REPO_LOCK_FILE: &'static str = "repo.lock";

/// Whether a byte stands for itself in a file name.
pub open spec fn plain_byte(b: u8) -> bool {
    ('a' as u8 <= b <= 'z' as u8) || ('A' as u8 <= b <= 'Z' as u8) || ('0' as u8 <= b <= '9' as u8)
        || b == '-' as u8 || b == '_' as u8 || b == '.' as u8
}

/// A byte in a file name.
pub open spec fn encoded_byte(b: u8) -> Seq<char> {
    if plain_byte(b) {
        seq![b as char]
    } else {
        seq!['~', numbers::hex_char(b as nat / 16), numbers::hex_char(b as nat % 16)]
    }
}

/// Bytes in a file name.
pub open spec fn encoded_bytes(bytes: Seq<u8>) -> Seq<char>
    decreases bytes.len(),
{
    if bytes.len() == 0 {
        Seq::empty()
    } else {
        encoded_byte(bytes[0]) + encoded_bytes(bytes.drop_first())
    }
}

/// A text as a file name: its UTF-8 bytes, with those that could mean something else in a path
/// written as a tilde and two digits.
pub open spec fn encoded_component(value: Seq<char>) -> Seq<char> {
    encoded_bytes(vstd::utf8::encode_utf8(value))
}

/// A text as a file name.
pub fn encode_path_component(value: &str) -> (r: String)
    ensures
        r@ == encoded_component(value@),
{
    let bytes = value.as_bytes();
    let mut encoded = String::new();
    let mut i: usize = 0;
    let n: usize = bytes.len();
    assert(bytes@.subrange(0, n as int) =~= bytes@);
    assert(encoded@ + encoded_bytes(bytes@) =~= encoded_bytes(bytes@));
    while i < n
        invariant
            i <= n == bytes@.len(),
            encoded_bytes(bytes@) == encoded@ + encoded_bytes(
                bytes@.subrange(i as int, n as int),
            ),
        decreases n - i,
    {
        let byte = bytes[i];
        let ghost before = encoded@;
        let ghost rest = bytes@.subrange(i as int, n as int);
        assert(rest.drop_first() =~= bytes@.subrange(i + 1, n as int));
        let plain = (97 <= byte && byte <= 122) || (65 <= byte && byte <= 90) || (48 <= byte && byte
            <= 57) || byte == 45 || byte == 95 || byte == 46;
        if plain {
            encoded.push(byte as char);
            assert(encoded@ =~= before + encoded_byte(byte));
        } else {
            encoded.push('~');
            let one: Vec<u8> = vec![byte];
            encoded.append(hex(one.as_slice()).as_str());
            proof {
                reveal_with_fuel(numbers::hex_text, 2);
                assert(one@.drop_last() =~= Seq::empty());
                assert(encoded@ =~= before + encoded_byte(byte));
            }
        }
        i = i + 1;
        assert(before + (encoded_byte(byte) + encoded_bytes(rest.drop_first())) =~= encoded@
            + encoded_bytes(rest.drop_first()));
    }
    assert(encoded@ + encoded_bytes(bytes@.subrange(n as int, n as int)) =~= encoded@);
    encoded
}

/// The name of the file that holds how the last command of a lane ended.
pub fn last_exec_file_name(lane: &str) -> (r: String)
    ensures
        r@ == encoded_component(lane@) + ".json"@,
{
    encode_path_component(lane).concat(".json")
}

proof fn lemma_hex_chars(b: u8, c: u8)
    requires
        numbers::hex_char(b as nat / 16) == numbers::hex_char(c as nat / 16),
        numbers::hex_char(b as nat % 16) == numbers::hex_char(c as nat % 16),
    ensures
        b == c,
{
    numbers::lemma_hex_char_value(b as nat / 16);
    numbers::lemma_hex_char_value(c as nat / 16);
    numbers::lemma_hex_char_value(b as nat % 16);
    numbers::lemma_hex_char_value(c as nat % 16);
}

proof fn lemma_encoded_injective(a: Seq<u8>, b: Seq<u8>)
    requires
        encoded_bytes(a) == encoded_bytes(b),
    ensures
        a == b,
    decreases a.len(),
{
    if a.len() == 0 {
        if b.len() > 0 {
            assert(encoded_bytes(b).len() >= encoded_byte(b[0]).len());
        }
        assert(a =~= b);
    } else {
        let whole = encoded_bytes(a);
        if b.len() == 0 {
            assert(whole.len() >= encoded_byte(a[0]).len());
        }
        let a0 = encoded_byte(a[0]);
        let b0 = encoded_byte(b[0]);
        let a1 = encoded_bytes(a.drop_first());
        let b1 = encoded_bytes(b.drop_first());
        assert(whole == a0 + a1);
        assert(whole == b0 + b1);
        assert(whole[0] == a0[0]);
        assert(whole[0] == b0[0]);
        if plain_byte(a[0]) {
            assert(a0[0] == a[0] as char);
            assert(a[0] as char != '~');
            assert(plain_byte(b[0]));
            assert(a[0] == b[0]);
            assert(a1 =~= whole.subrange(1, whole.len() as int));
            assert(b1 =~= whole.subrange(1, whole.len() as int));
        } else {
            assert(!plain_byte(b[0]));
            assert(whole[1] == a0[1] && whole[1] == b0[1]);
            assert(whole[2] == a0[2] && whole[2] == b0[2]);
            lemma_hex_chars(a[0], b[0]);
            assert(a1 =~= whole.subrange(3, whole.len() as int));
            assert(b1 =~= whole.subrange(3, whole.len() as int));
        }
        lemma_encoded_injective(a.drop_first(), b.drop_first());
        assert(a =~= seq![a[0]] + a.drop_first());
        assert(b =~= seq![b[0]] + b.drop_first());
    }
}

/// Different texts have different file names.
pub proof fn law_encoded_components_differ(a: Seq<char>, b: Seq<char>)
    requires
        encoded_component(a) == encoded_component(b),
    ensures
        a == b,
{
    lemma_encoded_injective(vstd::utf8::encode_utf8(a), vstd::utf8::encode_utf8(b));
    vstd::utf8::encode_utf8_decode_utf8(a);
    vstd::utf8::encode_utf8_decode_utf8(b);
}

/// Whether a character may stand in an encoded name.
pub open spec fn name_char(c: char) -> bool {
    ('a' <= c <= 'z') || ('A' <= c <= 'Z') || ('0' <= c <= '9') || c == '-' || c == '_' || c == '.'
        || c == '~'
}

proof fn lemma_encoded_chars(bytes: Seq<u8>)
    ensures
        forall|i: int| 0 <= i < encoded_bytes(bytes).len() ==> name_char(#[trigger] encoded_bytes(bytes)[i]),
    decreases bytes.len(),
{
    if bytes.len() > 0 {
        let rest = encoded_bytes(bytes.drop_first());
        let first = encoded_byte(bytes[0]);
        lemma_encoded_chars(bytes.drop_first());
        assert forall|i: int| 0 <= i < encoded_bytes(bytes).len() implies name_char(
            #[trigger] encoded_bytes(bytes)[i],
        ) by {
            if i < first.len() {
                assert(encoded_bytes(bytes)[i] == first[i]);
            } else {
                assert(encoded_bytes(bytes)[i] == rest[i - first.len()]);
            }
        }
    }
}

/// An encoded name holds no separator: it stays one component of a path.
pub proof fn law_encoded_is_one_component(value: Seq<char>, i: int)
    requires
        0 <= i < encoded_component(value).len(),
    ensures
        name_char(encoded_component(value)[i]),
{
    lemma_encoded_chars(vstd::utf8::encode_utf8(value));
}

} // verus!

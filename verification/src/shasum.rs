//! SHA-256 digests of strings, written as lower-case hexadecimal.

use sha2::Digest;
use vstd::prelude::*;
use vstd::string::StringSliceAdditionalSpecFns;

verus! {

/// What SHA-256 yields for the given bytes.
pub uninterp spec fn sha256(data: Seq<u8>) -> Seq<u8>;

/// Calls `sha2::Sha256::digest`: the contract claims that the digest is the
/// SHA-256 of `data` and, as the hasher's output size is `U32`, that it has
/// 32 bytes.
#[verifier::external_body]
fn sha256_digest(data: &[u8]) -> (digest: Vec<u8>)
    ensures
        digest@ == sha256(data@),
        digest@.len() == 32,
{
    sha2::Sha256::digest(data).to_vec()
}

/// Appends one character to a string (`String::push`).
#[verifier::external_body]
pub(crate) fn push_char(s: &mut String, c: char)
    ensures
        final(s)@ == old(s)@.push(c),
{
    s.push(c)
}

/// The lower-case hexadecimal digit for a value below 16.
pub open spec fn hex_digit(n: int) -> char
    recommends
        0 <= n < 16,
{
    if n < 10 {
        (n + 48) as char
    } else {
        (n + 87) as char
    }
}

/// Each byte written as two lower-case hexadecimal digits, high nibble first.
pub open spec fn lower_hex(bytes: Seq<u8>) -> Seq<char>
    decreases bytes.len(),
{
    if bytes.len() == 0 {
        Seq::empty()
    } else {
        seq![hex_digit((bytes[0] / 16) as int), hex_digit((bytes[0] % 16) as int)] + lower_hex(bytes.drop_first())
    }
}

/// Whether a character is one of `0-9a-f`.
pub open spec fn is_lower_hex_char(c: char) -> bool {
    ('0' <= c && c <= '9') || ('a' <= c && c <= 'f')
}

proof fn lemma_lower_hex_shape(bytes: Seq<u8>)
    ensures
        lower_hex(bytes).len() == 2 * bytes.len(),
        forall|i: int| 0 <= i < lower_hex(bytes).len() ==> is_lower_hex_char(#[trigger] lower_hex(bytes)[i]),
    decreases bytes.len(),
{
    if bytes.len() > 0 {
        lemma_lower_hex_shape(bytes.drop_first());
        let head = seq![hex_digit((bytes[0] / 16) as int), hex_digit((bytes[0] % 16) as int)];
        assert(lower_hex(bytes) == head + lower_hex(bytes.drop_first()));
        assert forall|i: int| 0 <= i < lower_hex(bytes).len() implies is_lower_hex_char(#[trigger] lower_hex(bytes)[i]) by {
            if i >= 2 {
                assert(lower_hex(bytes)[i] == lower_hex(bytes.drop_first())[i - 2]);
            }
        }
    }
}

/// Hexadecimal writing goes byte by byte: the digits of two byte strings one
/// after the other are the digits of the first followed by those of the
/// second.
pub proof fn lemma_lower_hex_append(a: Seq<u8>, b: Seq<u8>)
    ensures
        lower_hex(a + b) == lower_hex(a) + lower_hex(b),
    decreases a.len(),
{
    if a.len() == 0 {
        assert(a + b =~= b);
        assert(lower_hex(a) + lower_hex(b) =~= lower_hex(b));
    } else {
        lemma_lower_hex_append(a.drop_first(), b);
        assert((a + b).drop_first() =~= a.drop_first() + b);
        assert((a + b)[0] == a[0]);
        assert(lower_hex(a + b) =~= lower_hex(a) + lower_hex(b));
    }
}

/// Each byte `b` is written at positions `2i` and `2i + 1` as the ASCII
/// codes of the digits of `b / 16` and `b % 16`: `0`-`9` for values below
/// ten (codes 48 on) and `a`-`f` for the others (codes 97 on).
pub proof fn lemma_lower_hex_digits(bytes: Seq<u8>)
    ensures
        lower_hex(bytes).len() == 2 * bytes.len(),
        forall|i: int| #![trigger bytes[i]] 0 <= i < bytes.len() ==> {
            let hi = bytes[i] / 16;
            let lo = bytes[i] % 16;
            &&& (lower_hex(bytes)[2 * i] as int) == (if hi < 10 { 48 + hi } else { 87 + hi })
            &&& (lower_hex(bytes)[2 * i + 1] as int) == (if lo < 10 { 48 + lo } else { 87 + lo })
        },
    decreases bytes.len(),
{
    lemma_lower_hex_shape(bytes);
    if bytes.len() > 0 {
        lemma_lower_hex_digits(bytes.drop_first());
        let rest = lower_hex(bytes.drop_first());
        assert(lower_hex(bytes) == seq![hex_digit((bytes[0] / 16) as int), hex_digit((bytes[0] % 16) as int)] + rest);
        assert forall|i: int| #![trigger bytes[i]] 0 <= i < bytes.len() implies {
            let hi = bytes[i] / 16;
            let lo = bytes[i] % 16;
            &&& (lower_hex(bytes)[2 * i] as int) == (if hi < 10 { 48 + hi } else { 87 + hi })
            &&& (lower_hex(bytes)[2 * i + 1] as int) == (if lo < 10 { 48 + lo } else { 87 + lo })
        } by {
            if i > 0 {
                assert(bytes[i] == bytes.drop_first()[i - 1]);
                assert(lower_hex(bytes)[2 * i] == rest[2 * (i - 1)]);
                assert(lower_hex(bytes)[2 * i + 1] == rest[2 * (i - 1) + 1]);
            }
        }
    }
}

/// The sum of a string is the hexadecimal writing of SHA-256 of exactly its
/// UTF-8 bytes, all of them, a trailing newline included.
pub proof fn lemma_shasum_of_all_bytes(input: &str)
    ensures
        spec_shasum(input) == lower_hex(sha256(input.spec_bytes())),
{
}

/// The SHA-256 digest of a string's UTF-8 bytes, as a string of lower-case
/// hexadecimal digits.
pub open spec fn spec_shasum(input: &str) -> Seq<char> {
    lower_hex(sha256(input.spec_bytes()))
}

fn hex_digit_exec(n: u8) -> (c: char)
    requires
        n < 16,
    ensures
        c == hex_digit(n as int),
{
    if n < 10 {
        (n + 48) as char
    } else {
        (n + 87) as char
    }
}

/// Each byte written as two lower-case hexadecimal digits, high nibble
/// first, as `{:x}` formats a digest.
pub fn lower_hex_string(bytes: &[u8]) -> (hex: String)
    ensures
        hex@ == lower_hex(bytes@),
        hex@.len() == 2 * bytes@.len(),
        forall|i: int| 0 <= i < hex@.len() ==> is_lower_hex_char(#[trigger] hex@[i]),
{
    let mut hex = String::new();
    let n = bytes.len();
    assert(bytes@.skip(0) == bytes@);
    assert(hex@ + lower_hex(bytes@) == lower_hex(bytes@));
    for i in 0..n
        invariant
            n == bytes@.len(),
            hex@ + lower_hex(bytes@.skip(i as int)) == lower_hex(bytes@),
    {
        let b = bytes[i];
        assert(bytes@.skip(i as int) == seq![b] + bytes@.skip(i + 1));
        assert(bytes@.skip(i as int).drop_first() == bytes@.skip(i + 1));
        push_char(&mut hex, hex_digit_exec(b / 16));
        push_char(&mut hex, hex_digit_exec(b % 16));
        assert(hex@ + lower_hex(bytes@.skip(i + 1)) == lower_hex(bytes@));
    }
    assert(bytes@.skip(n as int) == Seq::<u8>::empty());
    assert(hex@ == lower_hex(bytes@));
    proof {
        lemma_lower_hex_shape(bytes@);
    }
    hex
}

/// Gets a SHA256 hash for a given input, written as 64 lower-case
/// hexadecimal digits.
pub fn get_str_shasum(input: &str) -> (sum: String)
    ensures
        sum@ == spec_shasum(input),
        sum@ == lower_hex(sha256(input.spec_bytes())),
        sum@.len() == 64,
        forall|i: int| 0 <= i < sum@.len() ==> is_lower_hex_char(#[trigger] sum@[i]),
{
    let digest = sha256_digest(input.as_bytes());
    lower_hex_string(digest.as_slice())
}

} // verus!

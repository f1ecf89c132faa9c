//! Digests, and how they are written.

use vstd::prelude::*;

verus! {

/// The SHA-256 digest of some bytes.
pub uninterp spec fn sha256(bytes: Seq<u8>) -> Seq<u8>;

/// `sha2::Sha256::digest`: the digest of the bytes, which depends on them alone
/// and is 32 bytes long.
#[verifier::external_body]
fn sha256_of(bytes: &[u8]) -> (r: Vec<u8>)
    ensures
        r@ == sha256(bytes@),
        r@.len() == 32,
{
    <sha2::Sha256 as sha2::Digest>::digest(bytes).to_vec()
}

/// The hexadecimal digit `d`, in lower case.
pub open spec fn hex_digit(d: int) -> char {
    if d < 10 {
        (48 + d) as char
    } else {
        (87 + d) as char
    }
}

/// Some bytes, each as two hexadecimal digits.
pub open spec fn hex_chars(bytes: Seq<u8>) -> Seq<char>
    decreases bytes.len(),
{
    if bytes.len() == 0 {
        seq![]
    } else {
        hex_chars(bytes.drop_last()).push(hex_digit(bytes.last() as int / 16)).push(
            hex_digit(bytes.last() as int % 16),
        )
    }
}

/// Hexadecimal digits are digits and the letters from `a` to `f`, two to a byte.
pub proof fn lemma_hex(bytes: Seq<u8>)
    ensures
        hex_chars(bytes).len() == 2 * bytes.len(),
        forall|i: int|
            0 <= i < hex_chars(bytes).len() ==> ('0' <= #[trigger] hex_chars(bytes)[i] <= '9' || 'a'
                <= hex_chars(bytes)[i] <= 'f'),
    decreases bytes.len(),
{
    if bytes.len() > 0 {
        lemma_hex(bytes.drop_last());
    }
}

fn digit(d: u8) -> (r: char)
    requires
        d < 16,
    ensures
        r == hex_digit(d as int),
{
    if d < 10 {
        (48 + d) as char
    } else {
        (87 + d) as char
    }
}

/// The first `count` bytes of the SHA-256 digest of `bytes`, in hexadecimal.
pub fn digest_hex(bytes: &[u8], count: usize) -> (r: String)
    requires
        count <= 32,
    ensures
        r@ == hex_chars(sha256(bytes@).take(count as int)),
        sha256(bytes@).len() == 32,
{
    let d = sha256_of(bytes);
    let mut out = String::new();
    let mut i: usize = 0;
    assert(d@.take(0) =~= seq![]);
    while i < count
        invariant
            i <= count <= 32,
            d@.len() == 32,
            out@ == hex_chars(d@.take(i as int)),
        decreases count - i,
    {
        let b: u8 = d[i];
        out.push(digit(b / 16));
        out.push(digit(b % 16));
        assert(d@.take(i + 1).drop_last() =~= d@.take(i as int));
        i = i + 1;
    }
    out
}

/// Every byte is written as two digits, in order, the higher half first.
pub proof fn a_byte_is_two_digits(bytes: Seq<u8>, i: int)
    requires
        0 <= i < bytes.len(),
    ensures
        hex_chars(bytes).len() == 2 * bytes.len(),
        hex_chars(bytes)[2 * i] == "0123456789abcdef"@[bytes[i] as int / 16],
        hex_chars(bytes)[2 * i + 1] == "0123456789abcdef"@[bytes[i] as int % 16],
    decreases bytes.len(),
{
    reveal_strlit("0123456789abcdef");
    lemma_hex(bytes);
    let less = bytes.drop_last();
    lemma_hex(less);
    if i < bytes.len() - 1 {
        a_byte_is_two_digits(less, i);
        assert(less[i] == bytes[i]);
    } else {
        assert(bytes.last() == bytes[i]);
        lemma_hex_digit(bytes[i] as int / 16);
        lemma_hex_digit(bytes[i] as int % 16);
    }
}

proof fn lemma_hex_digit(d: int)
    requires
        0 <= d < 16,
    ensures
        hex_digit(d) == "0123456789abcdef"@[d],
{
    reveal_strlit("0123456789abcdef");
}

} // verus!

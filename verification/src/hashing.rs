//! Hash functions of the ring, and their textual form.
use vstd::prelude::*;
use vstd::utf8::encode_utf8;

verus! {

/// XXH3 in its 64-bit form.
pub uninterp spec fn xxh3_64(bytes: Seq<u8>, seed: u64) -> u64;

/// `xxhash_rust::xxh3::xxh3_64_with_seed`: the 64-bit hash depends on the bytes and the
/// seed alone.
#[verifier::external_body]
pub(crate) fn xxh3_of(bytes: &[u8], seed: u64) -> (h: u64)
    ensures
        h == xxh3_64(bytes@, seed),
{
    xxhash_rust::xxh3::xxh3_64_with_seed(bytes, seed)
}

/// The BLAKE3 digest of a byte string.
pub uninterp spec fn blake3_digest(bytes: Seq<u8>) -> Seq<u8>;

/// `blake3::hash`: thirty-two bytes that depend on the input alone.
#[verifier::external_body]
pub(crate) fn blake3_of(bytes: &[u8]) -> (d: Vec<u8>)
    ensures
        d@ == blake3_digest(bytes@),
        d@.len() == 32,
{
    blake3::hash(bytes).as_bytes().to_vec()
}

/// What stands for one byte of a text in a JSON string.
pub open spec fn json_byte(b: u8) -> Seq<u8> {
    if b == 34 || b == 92 {
        seq![92u8, b]
    } else if b == 8 {
        seq![92u8, 98u8]
    } else if b == 9 {
        seq![92u8, 116u8]
    } else if b == 10 {
        seq![92u8, 110u8]
    } else if b == 12 {
        seq![92u8, 102u8]
    } else if b == 13 {
        seq![92u8, 114u8]
    } else if b < 32 {
        seq![92u8, 117u8, 48u8, 48u8, hex_digit(b / 16) as u8, hex_digit(b % 16) as u8]
    } else {
        seq![b]
    }
}

/// The inside of a JSON string: quotes, backslashes and control characters are escaped, and
/// everything else stands for itself.
pub open spec fn json_bytes(bytes: Seq<u8>) -> Seq<u8>
    decreases bytes.len(),
{
    if bytes.len() == 0 {
        Seq::empty()
    } else {
        json_bytes(bytes.drop_last()) + json_byte(bytes.last())
    }
}

/// A text as a JSON string, quotes and escapes included.
pub open spec fn json_text(text: Seq<char>) -> Seq<u8> {
    seq![34u8] + json_bytes(encode_utf8(text)) + seq![34u8]
}

/// `serde_json::to_vec` on a text: its bytes between quotes, with quotes, backslashes and control
/// characters escaped. Writing a text to memory cannot fail.
#[verifier::external_body]
pub(crate) fn json_of(text: &str) -> (r: Vec<u8>)
    ensures
        r@ == json_text(text@),
{
    serde_json::to_vec(text).expect("a text always has a JSON form")
}

/// The lower-case hexadecimal digit of a number below sixteen.
pub open spec fn hex_digit(n: u8) -> char {
    if n < 10 {
        (48 + n) as char
    } else {
        (87 + n) as char
    }
}

/// Two hexadecimal digits per byte.
pub open spec fn hex_text(bytes: Seq<u8>) -> Seq<char>
    decreases bytes.len(),
{
    if bytes.len() == 0 {
        Seq::empty()
    } else {
        hex_text(bytes.drop_last()).push(hex_digit(bytes.last() / 16)).push(
            hex_digit(bytes.last() % 16),
        )
    }
}

pub proof fn lemma_hex_length(bytes: Seq<u8>)
    ensures
        hex_text(bytes).len() == 2 * bytes.len(),
    decreases bytes.len(),
{
    if bytes.len() > 0 {
        lemma_hex_length(bytes.drop_last());
    }
}

fn hex_char(n: u8) -> (c: char)
    requires
        n < 16,
    ensures
        c == hex_digit(n),
{
    if n < 10 {
        (48 + n) as char
    } else {
        (87 + n) as char
    }
}

/// Writes bytes in lower-case hexadecimal.
pub fn to_hex(bytes: &[u8]) -> (r: String)
    ensures
        r@ == hex_text(bytes@),
{
    let mut r = String::new();
    let mut i: usize = 0;
    proof {
        assert(bytes@.subrange(0, 0) =~= Seq::<u8>::empty());
    }
    while i < bytes.len()
        invariant
            i <= bytes.len(),
            r@ == hex_text(bytes@.subrange(0, i as int)),
        decreases bytes.len() - i,
    {
        r.push(hex_char(bytes[i] / 16));
        r.push(hex_char(bytes[i] % 16));
        proof {
            assert(bytes@.subrange(0, i + 1).drop_last() =~= bytes@.subrange(0, i as int));
        }
        i = i + 1;
    }
    proof {
        assert(bytes@.subrange(0, bytes@.len() as int) =~= bytes@);
    }
    r
}

/// The hexadecimal BLAKE3 digest of a byte string.
pub open spec fn blake3_hex(bytes: Seq<u8>) -> Seq<char> {
    hex_text(blake3_digest(bytes))
}

/// The hexadecimal BLAKE3 digest of a byte string.
pub fn blake3_hex_of(bytes: &[u8]) -> (r: String)
    ensures
        r@ == blake3_hex(bytes@),
        r@.len() == 64,
{
    let digest = blake3_of(bytes);
    proof {
        lemma_hex_length(digest@);
    }
    to_hex(digest.as_slice())
}

} // verus!

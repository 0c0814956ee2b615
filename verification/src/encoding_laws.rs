//! What is hashed tells apart what it stands for: no two different things have one encoding.
use crate::bytes::{be32, be64, framed};
use crate::hashing::{blake3_digest, blake3_hex, hex_digit, hex_text};
use vstd::prelude::*;
use vstd::utf8::encode_utf8;

verus! {

/// Two different byte strings have one BLAKE3 digest.
pub open spec fn collide(a: Seq<u8>, b: Seq<u8>) -> bool {
    a != b && blake3_digest(a) == blake3_digest(b)
}

/// Heads of one length part two byte strings in the same place.
pub proof fn lemma_cut(a: Seq<u8>, s: Seq<u8>, b: Seq<u8>, t: Seq<u8>)
    requires
        a.len() == b.len(),
        a + s == b + t,
    ensures
        a == b,
        s == t,
{
    assert(a =~= (a + s).subrange(0, a.len() as int));
    assert(b =~= (b + t).subrange(0, b.len() as int));
    assert(s =~= (a + s).subrange(a.len() as int, (a + s).len() as int));
    assert(t =~= (b + t).subrange(b.len() as int, (b + t).len() as int));
}

/// A number is that of its bytes.
proof fn lemma_bytes_of(x: int)
    requires
        0 <= x <= u64::MAX,
    ensures
        x == x / 0x100_0000_0000_0000 % 256 * 0x100_0000_0000_0000 + x / 0x1_0000_0000_0000 % 256
            * 0x1_0000_0000_0000 + x / 0x100_0000_0000 % 256 * 0x100_0000_0000 + x / 0x1_0000_0000
            % 256 * 0x1_0000_0000 + x / 0x100_0000 % 256 * 0x100_0000 + x / 0x1_0000 % 256
            * 0x1_0000 + x / 0x100 % 256 * 0x100 + x % 256,
{
    let a = x / 0x100;
    let b = x / 0x1_0000;
    let c = x / 0x100_0000;
    let d = x / 0x1_0000_0000;
    let e = x / 0x100_0000_0000;
    let f = x / 0x1_0000_0000_0000;
    let g = x / 0x100_0000_0000_0000;
    assert(b == a / 256 && c == b / 256 && d == c / 256 && e == d / 256 && f == e / 256 && g == f
        / 256);
    assert(x == a * 256 + x % 256);
    assert(a == b * 256 + a % 256);
    assert(b == c * 256 + b % 256);
    assert(c == d * 256 + c % 256);
    assert(d == e * 256 + d % 256);
    assert(e == f * 256 + e % 256);
    assert(f == g * 256 + f % 256);
    assert(g % 256 == g);
}

pub proof fn lemma_be64_tells(x: u64, y: u64)
    requires
        be64(x) == be64(y),
    ensures
        x == y,
{
    let a = be64(x);
    let b = be64(y);
    assert(a[0] == b[0] && a[1] == b[1] && a[2] == b[2] && a[3] == b[3]);
    assert(a[4] == b[4] && a[5] == b[5] && a[6] == b[6] && a[7] == b[7]);
    lemma_bytes_of(x as int);
    lemma_bytes_of(y as int);
}

pub proof fn lemma_be32_tells(x: u32, y: u32)
    requires
        be32(x) == be32(y),
    ensures
        x == y,
{
    let a = be32(x);
    let b = be32(y);
    assert(a[0] == b[0] && a[1] == b[1] && a[2] == b[2] && a[3] == b[3]);
    lemma_bytes_of(x as int);
    lemma_bytes_of(y as int);
}

/// A number in eight bytes in front of something.
pub proof fn lemma_read_be64(x: u64, s: Seq<u8>, y: u64, t: Seq<u8>)
    requires
        be64(x) + s == be64(y) + t,
    ensures
        x == y,
        s == t,
{
    lemma_cut(be64(x), s, be64(y), t);
    lemma_be64_tells(x, y);
}

/// A byte string that can be written behind its length.
pub open spec fn fits(a: Seq<u8>) -> bool {
    a.len() <= u64::MAX
}

/// A byte string behind its length in front of something.
pub proof fn lemma_read_framed(a: Seq<u8>, s: Seq<u8>, b: Seq<u8>, t: Seq<u8>)
    requires
        fits(a),
        fits(b),
        framed(a) + s == framed(b) + t,
    ensures
        a == b,
        s == t,
{
    assert(framed(a) + s =~= be64(a.len() as u64) + (a + s));
    assert(framed(b) + t =~= be64(b.len() as u64) + (b + t));
    lemma_read_be64(a.len() as u64, a + s, b.len() as u64, b + t);
    lemma_cut(a, s, b, t);
}

/// One byte in front of something.
pub proof fn lemma_read_byte(a: u8, s: Seq<u8>, b: u8, t: Seq<u8>)
    requires
        seq![a] + s == seq![b] + t,
    ensures
        a == b,
        s == t,
{
    lemma_cut(seq![a], s, seq![b], t);
    assert(seq![a][0] == a && seq![b][0] == b);
}

pub proof fn lemma_utf8_tells(a: Seq<char>, b: Seq<char>)
    requires
        encode_utf8(a) == encode_utf8(b),
    ensures
        a == b,
{
    vstd::utf8::encode_utf8_decode_utf8(a);
    vstd::utf8::encode_utf8_decode_utf8(b);
}

proof fn lemma_hex_digit_tells(a: u8, b: u8)
    requires
        a < 16,
        b < 16,
        hex_digit(a) == hex_digit(b),
    ensures
        a == b,
{
}

proof fn lemma_byte_halves(a: u8, b: u8)
    requires
        a / 16 == b / 16,
        a % 16 == b % 16,
    ensures
        a == b,
{
}

pub proof fn lemma_hex_tells(a: Seq<u8>, b: Seq<u8>)
    requires
        hex_text(a) == hex_text(b),
    ensures
        a == b,
    decreases a.len(),
{
    crate::hashing::lemma_hex_length(a);
    crate::hashing::lemma_hex_length(b);
    assert(a.len() == b.len());
    if a.len() > 0 {
        let x = hex_text(a);
        let y = hex_text(b);
        let n = x.len();
        assert(x[n - 1] == y[n - 1] && x[n - 2] == y[n - 2]);
        lemma_hex_digit_tells(a.last() / 16, b.last() / 16);
        lemma_hex_digit_tells(a.last() % 16, b.last() % 16);
        lemma_byte_halves(a.last(), b.last());
        assert(hex_text(a.drop_last()) =~= x.subrange(0, n - 2));
        assert(hex_text(b.drop_last()) =~= y.subrange(0, n - 2));
        lemma_hex_tells(a.drop_last(), b.drop_last());
        assert(a =~= a.drop_last().push(a.last()));
        assert(b =~= b.drop_last().push(b.last()));
    } else {
        assert(a =~= b);
    }
}

/// What is joined from the left can be read from the left.
pub proof fn lemma_group2(
    a: Seq<u8>,
    b: Seq<u8>,
    s: Seq<u8>,
)
    ensures
        a + b + s == a + (b + s),
{
    assert(a + b + s =~= a + (b + s));
}

pub proof fn lemma_group3(
    a: Seq<u8>,
    b: Seq<u8>,
    c: Seq<u8>,
    s: Seq<u8>,
)
    ensures
        a + b + c + s == a + (b + (c + s)),
{
    assert(a + b + c + s =~= a + (b + (c + s)));
}

pub proof fn lemma_group4(
    a: Seq<u8>,
    b: Seq<u8>,
    c: Seq<u8>,
    d: Seq<u8>,
    s: Seq<u8>,
)
    ensures
        a + b + c + d + s == a + (b + (c + (d + s))),
{
    assert(a + b + c + d + s =~= a + (b + (c + (d + s))));
}

pub proof fn lemma_group5(
    a: Seq<u8>,
    b: Seq<u8>,
    c: Seq<u8>,
    d: Seq<u8>,
    e: Seq<u8>,
    s: Seq<u8>,
)
    ensures
        a + b + c + d + e + s == a + (b + (c + (d + (e + s)))),
{
    assert(a + b + c + d + e + s =~= a + (b + (c + (d + (e + s)))));
}

pub proof fn lemma_group6(
    a: Seq<u8>,
    b: Seq<u8>,
    c: Seq<u8>,
    d: Seq<u8>,
    e: Seq<u8>,
    f: Seq<u8>,
    s: Seq<u8>,
)
    ensures
        a + b + c + d + e + f + s == a + (b + (c + (d + (e + (f + s))))),
{
    assert(a + b + c + d + e + f + s =~= a + (b + (c + (d + (e + (f + s))))));
}

pub proof fn lemma_group9(
    a: Seq<u8>,
    b: Seq<u8>,
    c: Seq<u8>,
    d: Seq<u8>,
    e: Seq<u8>,
    f: Seq<u8>,
    g: Seq<u8>,
    h: Seq<u8>,
    i: Seq<u8>,
    s: Seq<u8>,
)
    ensures
        a + b + c + d + e + f + g + h + i + s == a + (b + (c + (d + (e + (f + (g + (h + (i + s)))))))),
{
    assert(a + b + c + d + e + f + g + h + i + s =~= a + (b + (c + (d + (e + (f + (g + (h + (i + s)))))))));
}

/// Equal digests are of equal bytes, unless the hash function itself fails.
pub proof fn lemma_digest_tells(a: Seq<u8>, b: Seq<u8>)
    requires
        blake3_hex(a) == blake3_hex(b),
    ensures
        a == b || collide(a, b),
{
    lemma_hex_tells(blake3_digest(a), blake3_digest(b));
}

} // verus!

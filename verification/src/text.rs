//! Texts: equality, byte order, digits.
use crate::order::{
    byte_rank, lemma_byte_rank_injective, lex_position, order_bytes, same_bytes, Position,
};
use vstd::prelude::*;
use vstd::string::*;
use vstd::utf8::{encode_utf8, encode_utf8_decode_utf8};

verus! {

/// `String::push` appends one character.
pub assume_specification[ String::push ](s: &mut String, c: char)
    ensures
        final(s)@ == old(s)@.push(c),
;

/// Number of bytes of a text.
pub open spec fn byte_count(s: Seq<char>) -> nat {
    encode_utf8(s).len()
}

/// The bytes of a text as integers: texts are ordered by their bytes.
pub open spec fn text_rank(s: Seq<char>) -> Seq<int> {
    byte_rank(encode_utf8(s))
}

pub proof fn lemma_utf8_injective(a: Seq<char>, b: Seq<char>)
    requires
        encode_utf8(a) == encode_utf8(b),
    ensures
        a == b,
{
    encode_utf8_decode_utf8(a);
    encode_utf8_decode_utf8(b);
}

pub proof fn lemma_text_rank_injective(a: Seq<char>, b: Seq<char>)
    requires
        text_rank(a) == text_rank(b),
    ensures
        a == b,
{
    lemma_byte_rank_injective(encode_utf8(a), encode_utf8(b));
    lemma_utf8_injective(a, b);
}

/// Tells whether two texts are equal.
pub fn same_text(a: &str, b: &str) -> (r: bool)
    ensures
        r == (a@ == b@),
{
    let r = same_bytes(a.as_bytes(), b.as_bytes());
    proof {
        if r {
            lemma_utf8_injective(a@, b@);
        }
    }
    r
}

/// Compares two texts by their bytes.
pub fn order_text(a: &str, b: &str) -> (r: Position)
    ensures
        r == lex_position(text_rank(a@), text_rank(b@)),
        r is Same <==> a@ == b@,
{
    let r = order_bytes(a.as_bytes(), b.as_bytes());
    proof {
        if text_rank(a@) == text_rank(b@) {
            lemma_text_rank_injective(a@, b@);
        }
    }
    r
}

/// Number of bytes of a text.
pub fn text_len(s: &str) -> (n: usize)
    ensures
        n == byte_count(s@),
{
    s.as_bytes().len()
}

/// An owned copy of a text.
pub fn owned(s: &str) -> (r: String)
    ensures
        r@ == s@,
{
    s.to_owned()
}

/// The texts of a list.
pub open spec fn texts(list: Seq<String>) -> Seq<Seq<char>> {
    Seq::new(list.len(), |i: int| list[i]@)
}

/// The texts of a list of borrowed texts.
pub open spec fn strs(list: Seq<&str>) -> Seq<Seq<char>> {
    Seq::new(list.len(), |i: int| list[i]@)
}

/// Tells whether a list of borrowed texts holds a text.
pub fn strs_have(list: &Vec<&str>, text: &str) -> (r: bool)
    ensures
        r == strs(list@).contains(text@),
{
    let mut i: usize = 0;
    while i < list.len()
        invariant
            i <= list.len(),
            forall|j: int| 0 <= j < i ==> strs(list@)[j] != text@,
        decreases list.len() - i,
    {
        if same_text(list[i], text) {
            proof {
                assert(strs(list@)[i as int] == text@);
            }
            return true;
        }
        i = i + 1;
    }
    false
}

/// Owned copies of borrowed texts from index `from` on.
pub fn own_from(list: &Vec<&str>, from: usize) -> (r: Vec<String>)
    requires
        from <= list@.len(),
    ensures
        texts(r@) == strs(list@).subrange(from as int, list@.len() as int),
{
    let mut r: Vec<String> = Vec::new();
    let mut i: usize = from;
    while i < list.len()
        invariant
            from <= i <= list@.len(),
            texts(r@) == strs(list@).subrange(from as int, i as int),
        decreases list.len() - i,
    {
        let ghost before = r@;
        r.push(list[i].to_owned());
        proof {
            assert(texts(r@) =~= texts(before).push(strs(list@)[i as int]));
            assert(texts(r@) =~= strs(list@).subrange(from as int, i + 1));
        }
        i = i + 1;
    }
    r
}

/// Copies a list of texts.
pub fn copy_texts(list: &Vec<String>) -> (r: Vec<String>)
    ensures
        r@ == list@,
{
    let mut r: Vec<String> = Vec::new();
    let mut i: usize = 0;
    while i < list.len()
        invariant
            i <= list.len(),
            r@ == list@.subrange(0, i as int),
        decreases list.len() - i,
    {
        r.push(list[i].clone());
        i = i + 1;
        proof {
            assert(r@ =~= list@.subrange(0, i as int));
        }
    }
    proof {
        assert(r@ =~= list@);
    }
    r
}

/// Tells whether a list holds a text.
pub fn list_has(list: &Vec<String>, text: &str) -> (r: bool)
    ensures
        r == texts(list@).contains(text@),
{
    let mut i: usize = 0;
    while i < list.len()
        invariant
            i <= list.len(),
            forall|j: int| 0 <= j < i ==> texts(list@)[j] != text@,
        decreases list.len() - i,
    {
        if same_text(list[i].as_str(), text) {
            proof {
                assert(texts(list@)[i as int] == text@);
            }
            return true;
        }
        i = i + 1;
    }
    false
}

/// The decimal digits of `n`.
pub open spec fn decimal_text(n: nat) -> Seq<char>
    decreases n,
{
    if n < 10 {
        seq![digit_char(n)]
    } else {
        decimal_text(n / 10).push(digit_char(n % 10))
    }
}

/// The character of a decimal digit.
pub open spec fn digit_char(d: nat) -> char {
    if d == 0 {
        '0'
    } else if d == 1 {
        '1'
    } else if d == 2 {
        '2'
    } else if d == 3 {
        '3'
    } else if d == 4 {
        '4'
    } else if d == 5 {
        '5'
    } else if d == 6 {
        '6'
    } else if d == 7 {
        '7'
    } else if d == 8 {
        '8'
    } else {
        '9'
    }
}

fn digit(d: u64) -> (c: char)
    requires
        d < 10,
    ensures
        c == digit_char(d as nat),
{
    if d == 0 {
        '0'
    } else if d == 1 {
        '1'
    } else if d == 2 {
        '2'
    } else if d == 3 {
        '3'
    } else if d == 4 {
        '4'
    } else if d == 5 {
        '5'
    } else if d == 6 {
        '6'
    } else if d == 7 {
        '7'
    } else if d == 8 {
        '8'
    } else {
        '9'
    }
}

/// Appends the decimal digits of `n`.
pub fn append_decimal(out: &mut String, n: u64)
    ensures
        final(out)@ == old(out)@ + decimal_text(n as nat),
    decreases n,
{
    if n < 10 {
        out.push(digit(n));
        proof {
            assert(out@ =~= old(out)@ + decimal_text(n as nat));
        }
    } else {
        append_decimal(out, n / 10);
        out.push(digit(n % 10));
        proof {
            assert(out@ =~= old(out)@ + decimal_text(n as nat));
        }
    }
}

/// A number between two texts.
pub fn around_number(before: &str, n: u64, after: &str) -> (r: String)
    ensures
        r@ == before@ + decimal_text(n as nat) + after@,
{
    let mut r = before.to_owned();
    append_decimal(&mut r, n);
    r.append(after);
    r
}

/// A text behind another.
pub fn joined(before: &str, after: &str) -> (r: String)
    ensures
        r@ == before@ + after@,
{
    let mut r = before.to_owned();
    r.append(after);
    r
}

/// The decimal digits of a number, behind a minus sign where it is negative.
pub open spec fn signed_text(n: int) -> Seq<char> {
    if n < 0 {
        "-"@ + decimal_text((-n) as nat)
    } else {
        decimal_text(n as nat)
    }
}

/// The decimal digits of a number, behind a minus sign where it is negative.
pub fn signed_decimal(n: i32) -> (r: String)
    ensures
        r@ == signed_text(n as int),
{
    let mut r = String::new();
    if n < 0 {
        r.append("-");
        append_decimal(&mut r, (-(n as i64)) as u64);
        proof {
            assert(r@ =~= signed_text(n as int));
        }
    } else {
        append_decimal(&mut r, n as u64);
        proof {
            assert(r@ =~= signed_text(n as int));
        }
    }
    r
}

} // verus!

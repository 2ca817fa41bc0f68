//! Character classes and small `Vec<char>` helpers shared by the pipeline.

use vstd::prelude::*;

verus! {

/// ASCII decimal digit, as matched by the segmenter's number rules.
pub open spec fn is_digit(c: char) -> bool {
    48 <= c as u32 <= 57
}

/// ASCII upper-case letter.
pub open spec fn is_upper(c: char) -> bool {
    65 <= c as u32 <= 90
}

/// ASCII lower-case letter.
pub open spec fn is_lower(c: char) -> bool {
    97 <= c as u32 <= 122
}

/// ASCII letter.
pub open spec fn is_letter(c: char) -> bool {
    is_upper(c) || is_lower(c)
}

/// A sentence terminator.
pub open spec fn is_term(c: char) -> bool {
    c == '.' || c == '!' || c == '?'
}

/// A white-space character: the Unicode `White_Space` set.
pub open spec fn is_space(c: char) -> bool {
    let u = c as u32;
    (9 <= u <= 13) || u == 32 || u == 0x85 || u == 0xA0 || u == 0x1680 || (0x2000 <= u <= 0x200A)
        || u == 0x2028 || u == 0x2029 || u == 0x202F || u == 0x205F || u == 0x3000
}

pub fn digit(c: char) -> (r: bool)
    ensures
        r == is_digit(c),
{
    let u = c as u32;
    48 <= u && u <= 57
}

pub fn upper(c: char) -> (r: bool)
    ensures
        r == is_upper(c),
{
    let u = c as u32;
    65 <= u && u <= 90
}

pub fn lower(c: char) -> (r: bool)
    ensures
        r == is_lower(c),
{
    let u = c as u32;
    97 <= u && u <= 122
}

pub fn letter(c: char) -> (r: bool)
    ensures
        r == is_letter(c),
{
    upper(c) || lower(c)
}

pub fn term(c: char) -> (r: bool)
    ensures
        r == is_term(c),
{
    c == '.' || c == '!' || c == '?'
}

pub fn space(c: char) -> (r: bool)
    ensures
        r == is_space(c),
{
    let u = c as u32;
    (9 <= u && u <= 13) || u == 32 || u == 0x85 || u == 0xA0 || u == 0x1680 || (0x2000 <= u
        && u <= 0x200A) || u == 0x2028 || u == 0x2029 || u == 0x202F || u == 0x205F || u == 0x3000
}

/// Character-wise equality of two character vectors.
pub fn chars_eq(a: &Vec<char>, b: &Vec<char>) -> (r: bool)
    ensures
        r == (a@ == b@),
{
    if a.len() != b.len() {
        return false;
    }
    let mut i: usize = 0;
    while i < a.len()
        invariant
            i <= a.len(),
            a.len() == b.len(),
            forall|k: int| 0 <= k < i ==> a@[k] == b@[k],
        decreases a.len() - i,
    {
        if a[i] != b[i] {
            return false;
        }
        i = i + 1;
    }
    proof {
        assert(a@ =~= b@);
    }
    true
}

/// Appends `v[a..b]` to `out`.
pub fn push_range(out: &mut Vec<char>, v: &Vec<char>, a: usize, b: usize)
    requires
        a <= b <= v.len(),
    ensures
        final(out)@ == old(out)@ + v@.subrange(a as int, b as int),
{
    let ghost out0 = old(out)@;
    let mut i: usize = a;
    while i < b
        invariant
            a <= i <= b <= v.len(),
            out@ == out0 + v@.subrange(a as int, i as int),
        decreases b - i,
    {
        out.push(v[i]);
        proof {
            assert(out0 + v@.subrange(a as int, i + 1) =~= (out0 + v@.subrange(a as int, i as int)).push(v@[i as int]));
        }
        i = i + 1;
    }
    proof {
        assert(out@ =~= out0 + v@.subrange(a as int, b as int));
    }
}

/// A fresh vector holding the same characters.
pub fn copy_chars(v: &Vec<char>) -> (r: Vec<char>)
    ensures
        r@ == v@,
{
    let mut out: Vec<char> = Vec::new();
    push_range(&mut out, v, 0, v.len());
    proof {
        assert(out@ =~= v@);
    }
    out
}

/// The number of bytes of the UTF-8 encoding of `c`.
pub open spec fn char_utf8_len(c: char) -> int {
    let u = c as u32;
    if u < 0x80 {
        1
    } else if u < 0x800 {
        2
    } else if u < 0x10000 {
        3
    } else {
        4
    }
}

/// The number of bytes of the UTF-8 encoding of `s[..i]`.
pub open spec fn utf8_len_upto(s: Seq<char>, i: int) -> int
    decreases i,
{
    if i <= 0 || i > s.len() {
        0
    } else {
        utf8_len_upto(s, i - 1) + char_utf8_len(s[i - 1])
    }
}

/// The number of bytes of the UTF-8 encoding of `s`.
pub open spec fn utf8_len(s: Seq<char>) -> int {
    utf8_len_upto(s, s.len() as int)
}

/// Whether the UTF-8 encoding of `v` is longer than one byte.
pub fn utf8_longer_than_one(v: &Vec<char>) -> (r: bool)
    ensures
        r == (utf8_len(v@) > 1),
{
    let mut i: usize = 0;
    let mut acc: usize = 0;
    while i < v.len()
        invariant
            i <= v.len(),
            acc as int == if utf8_len_upto(v@, i as int) > 2 {
                2int
            } else {
                utf8_len_upto(v@, i as int)
            },
        decreases v.len() - i,
    {
        let u = v[i] as u32;
        let clen: usize = if u < 0x80 {
            1
        } else if u < 0x800 {
            2
        } else if u < 0x10000 {
            3
        } else {
            4
        };
        proof {
            assert(utf8_len_upto(v@, i + 1) == utf8_len_upto(v@, i as int) + char_utf8_len(v@[i as int]));
            lemma_utf8_len_upto_nonneg(v@, i as int);
        }
        let total = acc + clen;
        acc = if total > 2 {
            2
        } else {
            total
        };
        i = i + 1;
    }
    acc >= 2
}

pub proof fn lemma_utf8_len_upto_nonneg(s: Seq<char>, i: int)
    ensures
        utf8_len_upto(s, i) >= 0,
    decreases i,
{
    if 0 < i <= s.len() {
        lemma_utf8_len_upto_nonneg(s, i - 1);
    }
}

} // verus!

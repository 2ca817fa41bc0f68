//! Sentence segmentation.
//!
//! `cut` splits raw text into sentences. Periods that do not end a sentence
//! (abbreviations, decimals, initials, titles, suspension points) are first
//! protected by distinctive placeholder markers, the text is split on the
//! sentence terminators `!`, `?` and `.`, and the markers are then reversed,
//! restoring the original punctuation. The encoding passes run in a fixed
//! order, because later patterns must not re-match text already protected by
//! earlier ones; each pass scans left to right and rewrites the leftmost,
//! non-overlapping matches, exactly as specified by its spec function.

use vstd::prelude::*;
use crate::chars::{
    is_digit, is_upper, is_lower, is_letter, is_term, is_space, digit, upper, lower, letter, term,
    space, push_range, utf8_len, utf8_longer_than_one,
};
use crate::strings::{chars_of, string_of};

verus! {

/// `pat` occurs in `s` at position `i`.
pub open spec fn starts_with_at(s: Seq<char>, pat: Seq<char>, i: int) -> bool {
    &&& 0 <= i
    &&& i + pat.len() <= s.len()
    &&& forall|k: int| 0 <= k < pat.len() ==> s[i + k] == pat[k]
}

/// `s[i..]` with every occurrence of `pat` replaced by `rep`, scanning left
/// to right without overlap.
pub open spec fn replace_from(s: Seq<char>, pat: Seq<char>, rep: Seq<char>, i: int) -> Seq<char>
    decreases s.len() - i,
{
    if pat.len() == 0 || i < 0 || i >= s.len() {
        Seq::empty()
    } else if starts_with_at(s, pat, i) {
        rep + replace_from(s, pat, rep, i + pat.len() as int)
    } else {
        seq![s[i]] + replace_from(s, pat, rep, i + 1)
    }
}

/// `s` with every occurrence of `pat` replaced by `rep`.
pub open spec fn replace_all(s: Seq<char>, pat: Seq<char>, rep: Seq<char>) -> Seq<char> {
    replace_from(s, pat, rep, 0)
}

pub fn match_at(v: &Vec<char>, pat: &Vec<char>, i: usize) -> (r: bool)
    requires
        i <= v.len(),
    ensures
        r == starts_with_at(v@, pat@, i as int),
{
    if pat.len() > v.len() - i {
        return false;
    }
    let mut k: usize = 0;
    while k < pat.len()
        invariant
            i + pat@.len() <= v@.len(),
            v@.len() <= usize::MAX,
            k <= pat@.len(),
            forall|m: int| 0 <= m < k ==> v@[i + m] == pat@[m],
        decreases pat.len() - k,
    {
        if v[i + k] != pat[k] {
            assert(!starts_with_at(v@, pat@, i as int));
            return false;
        }
        k = k + 1;
    }
    true
}

/// Replaces every occurrence of `pat` in `v` by `rep`.
pub fn replace_lit(v: &Vec<char>, pat: &Vec<char>, rep: &Vec<char>) -> (r: Vec<char>)
    requires
        pat@.len() > 0,
    ensures
        r@ == replace_all(v@, pat@, rep@),
{
    let mut out: Vec<char> = Vec::new();
    let mut i: usize = 0;
    while i < v.len()
        invariant
            pat@.len() > 0,
            i <= v.len(),
            out@ + replace_from(v@, pat@, rep@, i as int) == replace_all(v@, pat@, rep@),
        decreases v.len() - i,
    {
        let ghost out0 = out@;
        if match_at(v, pat, i) {
            push_range(&mut out, rep, 0, rep.len());
            proof {
                assert(rep@.subrange(0, rep@.len() as int) =~= rep@);
                assert(out0 + (rep@ + replace_from(v@, pat@, rep@, i + pat@.len())) =~= (out0
                    + rep@) + replace_from(v@, pat@, rep@, i + pat@.len()));
            }
            i = i + pat.len();
        } else {
            out.push(v[i]);
            proof {
                assert(out0 + (seq![v@[i as int]] + replace_from(v@, pat@, rep@, i + 1)) =~= out0.push(
                    v@[i as int]) + replace_from(v@, pat@, rep@, i + 1));
            }
            i = i + 1;
        }
    }
    proof {
        assert(out@ + replace_from(v@, pat@, rep@, i as int) =~= out@);
    }
    out
}

} // verus!

verus! {

/// End of the run of ASCII digits starting at `i`.
pub open spec fn digit_run_end(s: Seq<char>, i: int) -> int
    decreases s.len() - i,
{
    if 0 <= i < s.len() && is_digit(s[i]) {
        digit_run_end(s, i + 1)
    } else {
        i
    }
}

pub proof fn lemma_digit_run_end(s: Seq<char>, i: int)
    requires
        0 <= i <= s.len(),
    ensures
        i <= digit_run_end(s, i) <= s.len(),
    decreases s.len() - i,
{
    if i < s.len() && is_digit(s[i]) {
        lemma_digit_run_end(s, i + 1);
    }
}

fn scan_digit_run(v: &Vec<char>, i: usize) -> (r: usize)
    requires
        i <= v.len(),
    ensures
        r as int == digit_run_end(v@, i as int),
        i <= r <= v.len(),
{
    let mut j: usize = i;
    while j < v.len() && digit(v[j])
        invariant
            i <= j <= v.len(),
            digit_run_end(v@, i as int) == digit_run_end(v@, j as int),
        decreases v.len() - j,
    {
        j = j + 1;
    }
    proof {
        lemma_digit_run_end(v@, i as int);
    }
    j
}

/// End of the run of ASCII lower-case letters starting at `i`.
pub open spec fn lower_run_end(s: Seq<char>, i: int) -> int
    decreases s.len() - i,
{
    if 0 <= i < s.len() && is_lower(s[i]) {
        lower_run_end(s, i + 1)
    } else {
        i
    }
}

pub proof fn lemma_lower_run_end(s: Seq<char>, i: int)
    requires
        0 <= i <= s.len(),
    ensures
        i <= lower_run_end(s, i) <= s.len(),
    decreases s.len() - i,
{
    if i < s.len() && is_lower(s[i]) {
        lemma_lower_run_end(s, i + 1);
    }
}

fn scan_lower_run(v: &Vec<char>, i: usize) -> (r: usize)
    requires
        i <= v.len(),
    ensures
        r as int == lower_run_end(v@, i as int),
        i <= r <= v.len(),
{
    let mut j: usize = i;
    while j < v.len() && lower(v[j])
        invariant
            i <= j <= v.len(),
            lower_run_end(v@, i as int) == lower_run_end(v@, j as int),
        decreases v.len() - j,
    {
        j = j + 1;
    }
    proof {
        lemma_lower_run_end(v@, i as int);
    }
    j
}

/// End of the run of letter-period pairs starting at `i`.
pub open spec fn pair_run_end(s: Seq<char>, i: int) -> int
    decreases s.len() - i,
{
    if 0 <= i && i + 1 < s.len() && is_letter(s[i]) && s[i + 1] == '.' {
        pair_run_end(s, i + 2)
    } else {
        i
    }
}

pub proof fn lemma_pair_run_end(s: Seq<char>, i: int)
    requires
        0 <= i <= s.len(),
    ensures
        i <= pair_run_end(s, i) <= s.len(),
    decreases s.len() - i,
{
    if i + 1 < s.len() && is_letter(s[i]) && s[i + 1] == '.' {
        lemma_pair_run_end(s, i + 2);
    }
}

fn scan_pair_run(v: &Vec<char>, i: usize) -> (r: usize)
    requires
        i <= v.len(),
    ensures
        r as int == pair_run_end(v@, i as int),
        i <= r <= v.len(),
{
    let mut j: usize = i;
    while j < v.len() && j + 1 < v.len() && letter(v[j]) && v[j + 1] == '.'
        invariant
            i <= j <= v.len(),
            pair_run_end(v@, i as int) == pair_run_end(v@, j as int),
        decreases v.len() - j,
    {
        j = j + 2;
    }
    proof {
        lemma_pair_run_end(v@, i as int);
    }
    j
}

/// The decimal-number pass: the period of `digits.digits` is replaced by a
/// marker, keeping both digit runs.
pub open spec fn enc_float_from(s: Seq<char>, i: int) -> Seq<char>
    decreases s.len() - i,
    via enc_float_from_dec
{
    if i < 0 || i >= s.len() {
        Seq::empty()
    } else if is_digit(s[i]) {
        let a = digit_run_end(s, i);
        if a < s.len() && s[a] == '.' && a + 1 < s.len() && is_digit(s[a + 1]) {
            let b = digit_run_end(s, a + 1);
            s.subrange(i, a) + seq!['&', '@', '&'] + s.subrange(a + 1, b) + enc_float_from(s, b)
        } else {
            s.subrange(i, a) + enc_float_from(s, a)
        }
    } else {
        seq![s[i]] + enc_float_from(s, i + 1)
    }
}

#[via_fn]
proof fn enc_float_from_dec(s: Seq<char>, i: int) {
    if 0 <= i < s.len() && is_digit(s[i]) {
        lemma_digit_run_end(s, i + 1);
        let a = digit_run_end(s, i);
        if a < s.len() && s[a] == '.' && a + 1 < s.len() && is_digit(s[a + 1]) {
            lemma_digit_run_end(s, a + 2);
        }
    }
}

pub fn enc_float(v: &Vec<char>) -> (r: Vec<char>)
    ensures
        r@ == enc_float_from(v@, 0),
{
    let mut out: Vec<char> = Vec::new();
    let mut i: usize = 0;
    while i < v.len()
        invariant
            i <= v.len(),
            out@ + enc_float_from(v@, i as int) == enc_float_from(v@, 0),
        decreases v.len() - i,
    {
        let ghost out0 = out@;
        if digit(v[i]) {
            let a = scan_digit_run(v, i);
            proof {
                lemma_digit_run_end(v@, i + 1);
            }
            if a < v.len() && v[a] == '.' && a + 1 < v.len() && digit(v[a + 1]) {
                let b = scan_digit_run(v, a + 1);
                push_range(&mut out, v, i, a);
                out.push('&');
                out.push('@');
                out.push('&');
                push_range(&mut out, v, a + 1, b);
                proof {
                    assert(out@ =~= out0 + (v@.subrange(i as int, a as int) + seq!['&', '@', '&']
                        + v@.subrange(a + 1, b as int)));
                    assert(out0 + (v@.subrange(i as int, a as int) + seq!['&', '@', '&']
                        + v@.subrange(a + 1, b as int) + enc_float_from(v@, b as int)) =~= out@
                        + enc_float_from(v@, b as int));
                }
                i = b;
            } else {
                push_range(&mut out, v, i, a);
                proof {
                    assert(out0 + (v@.subrange(i as int, a as int) + enc_float_from(v@, a as int))
                        =~= out@ + enc_float_from(v@, a as int));
                }
                i = a;
            }
        } else {
            out.push(v[i]);
            proof {
                assert(out0 + (seq![v@[i as int]] + enc_float_from(v@, i + 1)) =~= out@
                    + enc_float_from(v@, i + 1));
            }
            i = i + 1;
        }
    }
    proof {
        assert(out@ + enc_float_from(v@, i as int) =~= out@);
    }
    out
}

/// The zero-less-decimal pass: a period after white space and before digits
/// is replaced by a marker; the white-space character becomes a plain space.
pub open spec fn enc_float_nz_from(s: Seq<char>, i: int) -> Seq<char>
    decreases s.len() - i,
    via enc_float_nz_from_dec
{
    if i < 0 || i >= s.len() {
        Seq::empty()
    } else if is_space(s[i]) && i + 2 < s.len() && s[i + 1] == '.' && is_digit(s[i + 2]) {
        let b = digit_run_end(s, i + 2);
        seq![' ', '&', '#', '&'] + s.subrange(i + 2, b) + enc_float_nz_from(s, b)
    } else {
        seq![s[i]] + enc_float_nz_from(s, i + 1)
    }
}

#[via_fn]
proof fn enc_float_nz_from_dec(s: Seq<char>, i: int) {
    if 0 <= i < s.len() && is_space(s[i]) && i + 2 < s.len() && s[i + 1] == '.' && is_digit(
        s[i + 2],
    ) {
        lemma_digit_run_end(s, i + 3);
    }
}

pub fn enc_float_nz(v: &Vec<char>) -> (r: Vec<char>)
    ensures
        r@ == enc_float_nz_from(v@, 0),
{
    let mut out: Vec<char> = Vec::new();
    let mut i: usize = 0;
    while i < v.len()
        invariant
            i <= v.len(),
            out@ + enc_float_nz_from(v@, i as int) == enc_float_nz_from(v@, 0),
        decreases v.len() - i,
    {
        let ghost out0 = out@;
        if space(v[i]) && v.len() - i > 2 && v[i + 1] == '.' && digit(v[i + 2]) {
            let b = scan_digit_run(v, i + 2);
            proof {
                lemma_digit_run_end(v@, i + 3);
            }
            out.push(' ');
            out.push('&');
            out.push('#');
            out.push('&');
            push_range(&mut out, v, i + 2, b);
            proof {
                assert(out@ =~= out0 + (seq![' ', '&', '#', '&'] + v@.subrange(i + 2, b as int)));
                assert(out0 + (seq![' ', '&', '#', '&'] + v@.subrange(i + 2, b as int)
                    + enc_float_nz_from(v@, b as int)) =~= out@ + enc_float_nz_from(v@, b as int));
            }
            i = b;
        } else {
            out.push(v[i]);
            proof {
                assert(out0 + (seq![v@[i as int]] + enc_float_nz_from(v@, i + 1)) =~= out@
                    + enc_float_nz_from(v@, i + 1));
            }
            i = i + 1;
        }
    }
    proof {
        assert(out@ + enc_float_nz_from(v@, i as int) =~= out@);
    }
    out
}

} // verus!

verus! {

/// The letter-period pairs of `s[i..e]`, each period replaced by a marker.
pub open spec fn abbrev_emit(s: Seq<char>, i: int, e: int) -> Seq<char>
    decreases e - i,
{
    if 0 <= i && i + 2 <= e <= s.len() {
        seq![s[i], '&', '-', '&'] + abbrev_emit(s, i + 2, e)
    } else {
        Seq::empty()
    }
}

/// The multi-dot-abbreviation pass: in a run of two or more letter-period
/// pairs, every period is replaced by a marker.
pub open spec fn enc_abbrev_from(s: Seq<char>, i: int) -> Seq<char>
    decreases s.len() - i,
    via enc_abbrev_from_dec
{
    if i < 0 || i >= s.len() {
        Seq::empty()
    } else {
        let e = pair_run_end(s, i);
        if e - i >= 4 {
            abbrev_emit(s, i, e) + enc_abbrev_from(s, e)
        } else {
            seq![s[i]] + enc_abbrev_from(s, i + 1)
        }
    }
}

#[via_fn]
proof fn enc_abbrev_from_dec(s: Seq<char>, i: int) {
    if 0 <= i < s.len() {
        lemma_pair_run_end(s, i);
    }
}

pub fn enc_abbrev(v: &Vec<char>) -> (r: Vec<char>)
    ensures
        r@ == enc_abbrev_from(v@, 0),
{
    let mut out: Vec<char> = Vec::new();
    let mut i: usize = 0;
    while i < v.len()
        invariant
            i <= v.len(),
            out@ + enc_abbrev_from(v@, i as int) == enc_abbrev_from(v@, 0),
        decreases v.len() - i,
    {
        let ghost out0 = out@;
        let e = scan_pair_run(v, i);
        if e - i >= 4 {
            let mut k: usize = i;
            while e - k >= 2
                invariant
                    i <= k <= e <= v.len(),
                    out0 + abbrev_emit(v@, i as int, e as int) == out@ + abbrev_emit(
                        v@,
                        k as int,
                        e as int,
                    ),
                decreases e - k,
            {
                let ghost outk = out@;
                out.push(v[k]);
                out.push('&');
                out.push('-');
                out.push('&');
                proof {
                    assert(out@ =~= outk + seq![v@[k as int], '&', '-', '&']);
                    assert(outk + (seq![v@[k as int], '&', '-', '&'] + abbrev_emit(
                        v@,
                        k + 2,
                        e as int,
                    )) =~= out@ + abbrev_emit(v@, k + 2, e as int));
                }
                k = k + 2;
            }
            proof {
                assert(out@ + abbrev_emit(v@, k as int, e as int) =~= out@);
                assert(out0 + (abbrev_emit(v@, i as int, e as int) + enc_abbrev_from(v@, e as int))
                    =~= (out0 + abbrev_emit(v@, i as int, e as int)) + enc_abbrev_from(
                    v@,
                    e as int,
                ));
            }
            i = e;
        } else {
            out.push(v[i]);
            proof {
                assert(out0 + (seq![v@[i as int]] + enc_abbrev_from(v@, i + 1)) =~= out@
                    + enc_abbrev_from(v@, i + 1));
            }
            i = i + 1;
        }
    }
    proof {
        assert(out@ + enc_abbrev_from(v@, i as int) =~= out@);
    }
    out
}

/// The initials pass: the period after a single upper-case letter is
/// replaced by a marker.
pub open spec fn enc_initial_from(s: Seq<char>, i: int) -> Seq<char>
    decreases s.len() - i,
{
    if i < 0 || i >= s.len() {
        Seq::empty()
    } else if is_upper(s[i]) && i + 1 < s.len() && s[i + 1] == '.' {
        seq![s[i], '&', '_', '&'] + enc_initial_from(s, i + 2)
    } else {
        seq![s[i]] + enc_initial_from(s, i + 1)
    }
}

pub fn enc_initial(v: &Vec<char>) -> (r: Vec<char>)
    ensures
        r@ == enc_initial_from(v@, 0),
{
    let mut out: Vec<char> = Vec::new();
    let mut i: usize = 0;
    while i < v.len()
        invariant
            i <= v.len(),
            out@ + enc_initial_from(v@, i as int) == enc_initial_from(v@, 0),
        decreases v.len() - i,
    {
        let ghost out0 = out@;
        if upper(v[i]) && v.len() - i > 1 && v[i + 1] == '.' {
            out.push(v[i]);
            out.push('&');
            out.push('_');
            out.push('&');
            proof {
                assert(out0 + (seq![v@[i as int], '&', '_', '&'] + enc_initial_from(v@, i + 2))
                    =~= out@ + enc_initial_from(v@, i + 2));
            }
            i = i + 2;
        } else {
            out.push(v[i]);
            proof {
                assert(out0 + (seq![v@[i as int]] + enc_initial_from(v@, i + 1)) =~= out@
                    + enc_initial_from(v@, i + 1));
            }
            i = i + 1;
        }
    }
    proof {
        assert(out@ + enc_initial_from(v@, i as int) =~= out@);
    }
    out
}

/// The short-title pass: the period after an upper-case letter followed by
/// one to three lower-case letters is replaced by a marker.
pub open spec fn enc_title_from(s: Seq<char>, i: int) -> Seq<char>
    decreases s.len() - i,
    via enc_title_from_dec
{
    if i < 0 || i >= s.len() {
        Seq::empty()
    } else if is_upper(s[i]) {
        let e = lower_run_end(s, i + 1);
        if 1 <= e - i - 1 <= 3 && e < s.len() && s[e] == '.' {
            s.subrange(i, e) + seq!['&', '*', '&'] + enc_title_from(s, e + 1)
        } else {
            seq![s[i]] + enc_title_from(s, i + 1)
        }
    } else {
        seq![s[i]] + enc_title_from(s, i + 1)
    }
}

#[via_fn]
proof fn enc_title_from_dec(s: Seq<char>, i: int) {
    if 0 <= i < s.len() && is_upper(s[i]) {
        lemma_lower_run_end(s, i + 1);
    }
}

pub fn enc_title(v: &Vec<char>) -> (r: Vec<char>)
    ensures
        r@ == enc_title_from(v@, 0),
{
    let mut out: Vec<char> = Vec::new();
    let mut i: usize = 0;
    while i < v.len()
        invariant
            i <= v.len(),
            out@ + enc_title_from(v@, i as int) == enc_title_from(v@, 0),
        decreases v.len() - i,
    {
        let ghost out0 = out@;
        if upper(v[i]) {
            let e = scan_lower_run(v, i + 1);
            if 1 <= e - i - 1 && e - i - 1 <= 3 && e < v.len() && v[e] == '.' {
                push_range(&mut out, v, i, e);
                out.push('&');
                out.push('*');
                out.push('&');
                proof {
                    assert(out@ =~= out0 + (v@.subrange(i as int, e as int) + seq!['&', '*', '&']));
                    assert(out0 + (v@.subrange(i as int, e as int) + seq!['&', '*', '&']
                        + enc_title_from(v@, e + 1)) =~= out@ + enc_title_from(v@, e + 1));
                }
                i = e + 1;
            } else {
                out.push(v[i]);
                proof {
                    assert(out0 + (seq![v@[i as int]] + enc_title_from(v@, i + 1)) =~= out@
                        + enc_title_from(v@, i + 1));
                }
                i = i + 1;
            }
        } else {
            out.push(v[i]);
            proof {
                assert(out0 + (seq![v@[i as int]] + enc_title_from(v@, i + 1)) =~= out@
                    + enc_title_from(v@, i + 1));
            }
            i = i + 1;
        }
    }
    proof {
        assert(out@ + enc_title_from(v@, i as int) =~= out@);
    }
    out
}

/// Length of the separator matched at `i` by the de-sticking pass: a lone
/// `!` or `?`, or a period preceded by a non-terminator character.
pub open spec fn unstick_left_len(s: Seq<char>, i: int) -> int {
    if s[i] == '!' || s[i] == '?' {
        1
    } else if !is_term(s[i]) && i + 1 < s.len() && s[i + 1] == '.' {
        2
    } else {
        0
    }
}

/// The de-sticking pass: a space is inserted between a sentence terminator
/// and a directly following character that is neither white space nor a
/// straight quote.
pub open spec fn enc_unstick_from(s: Seq<char>, i: int) -> Seq<char>
    decreases s.len() - i,
{
    if i < 0 || i >= s.len() {
        Seq::empty()
    } else {
        let l = unstick_left_len(s, i);
        if l > 0 && i + l < s.len() && !is_space(s[i + l]) && s[i + l] != '"' && s[i + l] != '\'' {
            s.subrange(i, i + l) + seq![' ', s[i + l]] + enc_unstick_from(s, i + l + 1)
        } else {
            seq![s[i]] + enc_unstick_from(s, i + 1)
        }
    }
}

pub fn enc_unstick(v: &Vec<char>) -> (r: Vec<char>)
    ensures
        r@ == enc_unstick_from(v@, 0),
{
    let mut out: Vec<char> = Vec::new();
    let mut i: usize = 0;
    while i < v.len()
        invariant
            i <= v.len(),
            out@ + enc_unstick_from(v@, i as int) == enc_unstick_from(v@, 0),
        decreases v.len() - i,
    {
        let ghost out0 = out@;
        let l: usize = if v[i] == '!' || v[i] == '?' {
            1
        } else if !term(v[i]) && v.len() - i > 1 && v[i + 1] == '.' {
            2
        } else {
            0
        };
        proof {
            assert(l as int == unstick_left_len(v@, i as int));
        }
        if l > 0 && v.len() - i > l && !space(v[i + l]) && v[i + l] != '"' && v[i + l] != '\'' {
            push_range(&mut out, v, i, i + l);
            out.push(' ');
            out.push(v[i + l]);
            proof {
                assert(out@ =~= out0 + (v@.subrange(i as int, i + l) + seq![' ', v@[i + l]]));
                assert(out0 + (v@.subrange(i as int, i + l) + seq![' ', v@[i + l]]
                    + enc_unstick_from(v@, i + l + 1)) =~= out@ + enc_unstick_from(v@, i + l + 1));
            }
            i = i + l + 1;
        } else {
            out.push(v[i]);
            proof {
                assert(out0 + (seq![v@[i as int]] + enc_unstick_from(v@, i + 1)) =~= out@
                    + enc_unstick_from(v@, i + 1));
            }
            i = i + 1;
        }
    }
    proof {
        assert(out@ + enc_unstick_from(v@, i as int) =~= out@);
    }
    out
}

} // verus!

verus! {

/// Length of the match of a quote-protection rule at `i`: an optional
/// leading character `pre`, a sentence terminator, optionally one
/// white-space character, then the closing sequence `trail`. Zero if the
/// rule does not match at `i`.
pub open spec fn quote_match_len(s: Seq<char>, i: int, pre: Option<char>, trail: Seq<char>) -> int {
    let p: int = if pre is Some {
        1
    } else {
        0
    };
    if 0 <= i && (pre is Some ==> i < s.len() && s[i] == pre->0) && i + p < s.len() && is_term(
        s[i + p],
    ) {
        if starts_with_at(s, trail, i + p + 1) {
            p + 1 + trail.len()
        } else if i + p + 1 < s.len() && is_space(s[i + p + 1]) && starts_with_at(
            s,
            trail,
            i + p + 2,
        ) {
            p + 2 + trail.len()
        } else {
            0
        }
    } else {
        0
    }
}

/// A quote-protection pass: where the rule matches, the whole match is
/// replaced by `marker` followed by the terminator.
pub open spec fn enc_quote_from(
    s: Seq<char>,
    i: int,
    pre: Option<char>,
    trail: Seq<char>,
    marker: Seq<char>,
) -> Seq<char>
    decreases s.len() - i,
{
    if i < 0 || i >= s.len() {
        Seq::empty()
    } else {
        let m = quote_match_len(s, i, pre, trail);
        let p: int = if pre is Some {
            1
        } else {
            0
        };
        if m > 0 {
            marker + seq![s[i + p]] + enc_quote_from(s, i + m, pre, trail, marker)
        } else {
            seq![s[i]] + enc_quote_from(s, i + 1, pre, trail, marker)
        }
    }
}

pub fn enc_quote(v: &Vec<char>, pre: Option<char>, trail: &Vec<char>, marker: &Vec<char>) -> (r:
    Vec<char>)
    ensures
        r@ == enc_quote_from(v@, 0, pre, trail@, marker@),
{
    let mut out: Vec<char> = Vec::new();
    let mut i: usize = 0;
    while i < v.len()
        invariant
            i <= v.len(),
            out@ + enc_quote_from(v@, i as int, pre, trail@, marker@) == enc_quote_from(
                v@,
                0,
                pre,
                trail@,
                marker@,
            ),
        decreases v.len() - i,
    {
        let ghost out0 = out@;
        let p: usize = match pre {
            Some(_) => 1,
            None => 0,
        };
        let pre_ok = match pre {
            Some(c) => v[i] == c,
            None => true,
        };
        let mut m: usize = 0;
        if pre_ok && v.len() - i > p && term(v[i + p]) {
            if match_at(v, trail, i + p + 1) {
                m = p + 1 + trail.len();
            } else if v.len() - i > p + 1 && space(v[i + p + 1]) && match_at(v, trail, i + p + 2) {
                m = p + 2 + trail.len();
            }
        }
        proof {
            assert(m as int == quote_match_len(v@, i as int, pre, trail@));
        }
        if m > 0 {
            push_range(&mut out, marker, 0, marker.len());
            out.push(v[i + p]);
            proof {
                assert(marker@.subrange(0, marker@.len() as int) =~= marker@);
                assert(out@ =~= out0 + (marker@ + seq![v@[i + p]]));
                assert(out0 + (marker@ + seq![v@[i + p]] + enc_quote_from(
                    v@,
                    i + m,
                    pre,
                    trail@,
                    marker@,
                )) =~= out@ + enc_quote_from(v@, i + m, pre, trail@, marker@));
            }
            i = i + m;
        } else {
            out.push(v[i]);
            proof {
                assert(out0 + (seq![v@[i as int]] + enc_quote_from(v@, i + 1, pre, trail@, marker@))
                    =~= out@ + enc_quote_from(v@, i + 1, pre, trail@, marker@));
            }
            i = i + 1;
        }
    }
    proof {
        assert(out@ + enc_quote_from(v@, i as int, pre, trail@, marker@) =~= out@);
    }
    out
}

/// A marker-repair pass: `marker` followed by a sentence terminator becomes
/// `prefix`, the terminator itself, then `suffix`.
pub open spec fn dec_from(
    s: Seq<char>,
    i: int,
    marker: Seq<char>,
    prefix: Seq<char>,
    suffix: Seq<char>,
) -> Seq<char>
    decreases s.len() - i,
{
    if marker.len() == 0 || i < 0 || i >= s.len() {
        Seq::empty()
    } else if starts_with_at(s, marker, i) && i + marker.len() < s.len() && is_term(
        s[i + marker.len()],
    ) {
        prefix + seq![s[i + marker.len()]] + suffix + dec_from(
            s,
            i + marker.len() + 1,
            marker,
            prefix,
            suffix,
        )
    } else {
        seq![s[i]] + dec_from(s, i + 1, marker, prefix, suffix)
    }
}

pub fn dec_marker(v: &Vec<char>, marker: &Vec<char>, prefix: &Vec<char>, suffix: &Vec<char>) -> (r:
    Vec<char>)
    requires
        marker@.len() > 0,
    ensures
        r@ == dec_from(v@, 0, marker@, prefix@, suffix@),
{
    let mut out: Vec<char> = Vec::new();
    let mut i: usize = 0;
    while i < v.len()
        invariant
            marker@.len() > 0,
            i <= v.len(),
            out@ + dec_from(v@, i as int, marker@, prefix@, suffix@) == dec_from(
                v@,
                0,
                marker@,
                prefix@,
                suffix@,
            ),
        decreases v.len() - i,
    {
        let ghost out0 = out@;
        if match_at(v, marker, i) && v.len() - i > marker.len() && term(v[i + marker.len()]) {
            push_range(&mut out, prefix, 0, prefix.len());
            out.push(v[i + marker.len()]);
            push_range(&mut out, suffix, 0, suffix.len());
            proof {
                assert(prefix@.subrange(0, prefix@.len() as int) =~= prefix@);
                assert(suffix@.subrange(0, suffix@.len() as int) =~= suffix@);
                assert(out@ =~= out0 + (prefix@ + seq![v@[i + marker@.len()]] + suffix@));
                assert(out0 + (prefix@ + seq![v@[i + marker@.len()]] + suffix@ + dec_from(
                    v@,
                    i + marker@.len() + 1,
                    marker@,
                    prefix@,
                    suffix@,
                )) =~= out@ + dec_from(v@, i + marker@.len() + 1, marker@, prefix@, suffix@));
            }
            i = i + marker.len() + 1;
        } else {
            out.push(v[i]);
            proof {
                assert(out0 + (seq![v@[i as int]] + dec_from(v@, i + 1, marker@, prefix@, suffix@))
                    =~= out@ + dec_from(v@, i + 1, marker@, prefix@, suffix@));
            }
            i = i + 1;
        }
    }
    proof {
        assert(out@ + dec_from(v@, i as int, marker@, prefix@, suffix@) =~= out@);
    }
    out
}

} // verus!

verus! {

/// The hard split: the text is cut after every sentence terminator; the
/// final fragment (possibly empty) is kept too.
pub open spec fn split_from(s: Seq<char>, start: int, i: int) -> Seq<Seq<char>>
    decreases s.len() - i,
{
    if !(0 <= start <= i <= s.len()) {
        Seq::empty()
    } else if i == s.len() {
        seq![s.subrange(start, i)]
    } else if is_term(s[i]) {
        seq![s.subrange(start, i + 1)] + split_from(s, i + 1, i + 1)
    } else {
        split_from(s, start, i + 1)
    }
}

pub fn split_terms(v: &Vec<char>) -> (r: Vec<Vec<char>>)
    ensures
        crate::strings::views_of(r@) == split_from(v@, 0, 0),
{
    let mut frags: Vec<Vec<char>> = Vec::new();
    let mut start: usize = 0;
    let mut i: usize = 0;
    while i < v.len()
        invariant
            start <= i <= v.len(),
            crate::strings::views_of(frags@) + split_from(v@, start as int, i as int) == split_from(
                v@,
                0,
                0,
            ),
        decreases v.len() - i,
    {
        if term(v[i]) {
            let ghost frags0 = frags@;
            let mut f: Vec<char> = Vec::new();
            push_range(&mut f, v, start, i + 1);
            proof {
                assert(f@ =~= v@.subrange(start as int, i + 1));
            }
            frags.push(f);
            proof {
                assert(crate::strings::views_of(frags@) =~= crate::strings::views_of(frags0).push(
                    f@,
                ));
                assert(crate::strings::views_of(frags0) + (seq![v@.subrange(start as int, i + 1)]
                    + split_from(v@, i + 1, i + 1)) =~= crate::strings::views_of(frags@)
                    + split_from(v@, i + 1, i + 1));
            }
            start = i + 1;
        }
        i = i + 1;
    }
    let ghost frags0 = frags@;
    let mut f: Vec<char> = Vec::new();
    push_range(&mut f, v, start, v.len());
    proof {
        assert(f@ =~= v@.subrange(start as int, v@.len() as int));
    }
    frags.push(f);
    proof {
        assert(crate::strings::views_of(frags@) =~= crate::strings::views_of(frags0).push(f@));
        assert(crate::strings::views_of(frags0) + seq![v@.subrange(start as int, v@.len() as int)]
            =~= crate::strings::views_of(frags@));
    }
    frags
}

/// First index from the left that is not white space.
pub open spec fn lead_ws_end(s: Seq<char>, i: int) -> int
    decreases s.len() - i,
{
    if 0 <= i < s.len() && is_space(s[i]) {
        lead_ws_end(s, i + 1)
    } else {
        i
    }
}

/// One past the last index from the right that is not white space.
pub open spec fn trail_ws_start(s: Seq<char>, i: int) -> int
    decreases i,
{
    if 0 < i <= s.len() && is_space(s[i - 1]) {
        trail_ws_start(s, i - 1)
    } else {
        i
    }
}

/// `s` with leading and trailing white space removed.
pub open spec fn trim_spec(s: Seq<char>) -> Seq<char> {
    let a = lead_ws_end(s, 0);
    let b = trail_ws_start(s, s.len() as int);
    if a < b {
        s.subrange(a, b)
    } else {
        Seq::empty()
    }
}

pub fn trim(v: &Vec<char>) -> (r: Vec<char>)
    ensures
        r@ == trim_spec(v@),
{
    let mut a: usize = 0;
    while a < v.len() && space(v[a])
        invariant
            a <= v.len(),
            lead_ws_end(v@, 0) == lead_ws_end(v@, a as int),
        decreases v.len() - a,
    {
        a = a + 1;
    }
    let mut b: usize = v.len();
    while b > 0 && space(v[b - 1])
        invariant
            b <= v.len(),
            trail_ws_start(v@, v@.len() as int) == trail_ws_start(v@, b as int),
        decreases b,
    {
        b = b - 1;
    }
    let mut out: Vec<char> = Vec::new();
    if a < b {
        push_range(&mut out, v, a, b);
    }
    proof {
        assert(out@ =~= trim_spec(v@));
    }
    out
}

} // verus!

verus! {

/// All protection passes, in their fixed order: composite abbreviation,
/// suspension points, decimals, zero-less decimals, multi-dot
/// abbreviations, initials, short titles, de-sticking, terminator before a
/// closing parenthesis, and the six terminator-next-to-quote rules.
pub open spec fn encode_spec(s: Seq<char>) -> Seq<char> {
    let s1 = replace_all(s, "et al.."@, "et al&;&."@);
    let s2 = replace_all(s1, "..."@, "&&&."@);
    let s3 = enc_float_from(s2, 0);
    let s4 = enc_float_nz_from(s3, 0);
    let s5 = enc_abbrev_from(s4, 0);
    let s6 = enc_initial_from(s5, 0);
    let s7 = enc_title_from(s6, 0);
    let s8 = enc_unstick_from(s7, 0);
    let s9 = enc_quote_from(s8, 0, None, ")"@, "&==&"@);
    let s10 = enc_quote_from(s9, 0, Some('\''), "\""@, "&^&"@);
    let s11 = enc_quote_from(s10, 0, Some('\''), "\u{201d}"@, "&**&"@);
    let s12 = enc_quote_from(s11, 0, None, "\u{201d}"@, "&=&"@);
    let s13 = enc_quote_from(s12, 0, None, "'\""@, "&,&"@);
    let s14 = enc_quote_from(s13, 0, None, "'"@, "&##&"@);
    enc_quote_from(s14, 0, None, "\""@, "&$&"@)
}

/// What one fragment becomes after the split: white space is trimmed, the
/// simple markers are replaced by the punctuation they protected, and the
/// parenthesis and quote markers are repaired.
pub open spec fn restore_spec(f: Seq<char>) -> Seq<char> {
    let t = trim_spec(f);
    let r1 = replace_all(t, "&;&"@, "."@);
    let r2 = replace_all(r1, "&&&"@, ".."@);
    let r3 = replace_all(r2, "&@&"@, "."@);
    let r4 = replace_all(r3, "&#&"@, "."@);
    let r5 = replace_all(r4, "&-&"@, "."@);
    let r6 = replace_all(r5, "&_&"@, "."@);
    let r7 = replace_all(r6, "&*&"@, "."@);
    let d1 = dec_from(r7, 0, "&==&"@, Seq::empty(), ")"@);
    let d2 = dec_from(d1, 0, "&^&"@, "'"@, "\""@);
    let d3 = dec_from(d2, 0, "&**&"@, "'"@, "\u{201d}"@);
    let d4 = dec_from(d3, 0, "&=&"@, Seq::empty(), "\u{201d}"@);
    let d5 = dec_from(d4, 0, "&,&"@, Seq::empty(), "'\""@);
    let d6 = dec_from(d5, 0, "&##&"@, Seq::empty(), "'"@);
    dec_from(d6, 0, "&$&"@, Seq::empty(), "\""@)
}

/// The restored fragments whose UTF-8 encoding is longer than one byte, in
/// order.
pub open spec fn restore_filter(frags: Seq<Seq<char>>, i: int) -> Seq<Seq<char>>
    decreases frags.len() - i,
{
    if i < 0 || i >= frags.len() {
        Seq::empty()
    } else {
        let r = restore_spec(frags[i]);
        (if utf8_len(r) > 1 {
            seq![r]
        } else {
            Seq::empty()
        }) + restore_filter(frags, i + 1)
    }
}

/// The sentences of `text`: the text is encoded, split after every sentence
/// terminator, and each fragment is restored; fragments of at most one byte
/// are dropped.
pub open spec fn cut_spec(text: Seq<char>) -> Seq<Seq<char>> {
    restore_filter(split_from(encode_spec(text), 0, 0), 0)
}

fn encode(v: &Vec<char>) -> (r: Vec<char>)
    ensures
        r@ == encode_spec(v@),
{
    proof {
        reveal_strlit("et al..");
        reveal_strlit("...");
    }
    let s1 = replace_lit(v, &chars_of("et al.."), &chars_of("et al&;&."));
    let s2 = replace_lit(&s1, &chars_of("..."), &chars_of("&&&."));
    let s3 = enc_float(&s2);
    let s4 = enc_float_nz(&s3);
    let s5 = enc_abbrev(&s4);
    let s6 = enc_initial(&s5);
    let s7 = enc_title(&s6);
    let s8 = enc_unstick(&s7);
    let s9 = enc_quote(&s8, None, &chars_of(")"), &chars_of("&==&"));
    let s10 = enc_quote(&s9, Some('\''), &chars_of("\""), &chars_of("&^&"));
    let s11 = enc_quote(&s10, Some('\''), &chars_of("\u{201d}"), &chars_of("&**&"));
    let s12 = enc_quote(&s11, None, &chars_of("\u{201d}"), &chars_of("&=&"));
    let s13 = enc_quote(&s12, None, &chars_of("'\""), &chars_of("&,&"));
    let s14 = enc_quote(&s13, None, &chars_of("'"), &chars_of("&##&"));
    enc_quote(&s14, None, &chars_of("\""), &chars_of("&$&"))
}

fn restore(f: &Vec<char>) -> (r: Vec<char>)
    ensures
        r@ == restore_spec(f@),
{
    proof {
        reveal_strlit("&;&");
        reveal_strlit("&&&");
        reveal_strlit("&@&");
        reveal_strlit("&#&");
        reveal_strlit("&-&");
        reveal_strlit("&_&");
        reveal_strlit("&*&");
        reveal_strlit("&==&");
        reveal_strlit("&^&");
        reveal_strlit("&**&");
        reveal_strlit("&=&");
        reveal_strlit("&,&");
        reveal_strlit("&##&");
        reveal_strlit("&$&");
    }
    let none: Vec<char> = Vec::new();
    let t = trim(f);
    let r1 = replace_lit(&t, &chars_of("&;&"), &chars_of("."));
    let r2 = replace_lit(&r1, &chars_of("&&&"), &chars_of(".."));
    let r3 = replace_lit(&r2, &chars_of("&@&"), &chars_of("."));
    let r4 = replace_lit(&r3, &chars_of("&#&"), &chars_of("."));
    let r5 = replace_lit(&r4, &chars_of("&-&"), &chars_of("."));
    let r6 = replace_lit(&r5, &chars_of("&_&"), &chars_of("."));
    let r7 = replace_lit(&r6, &chars_of("&*&"), &chars_of("."));
    let d1 = dec_marker(&r7, &chars_of("&==&"), &none, &chars_of(")"));
    let d2 = dec_marker(&d1, &chars_of("&^&"), &chars_of("'"), &chars_of("\""));
    let d3 = dec_marker(&d2, &chars_of("&**&"), &chars_of("'"), &chars_of("\u{201d}"));
    let d4 = dec_marker(&d3, &chars_of("&=&"), &none, &chars_of("\u{201d}"));
    let d5 = dec_marker(&d4, &chars_of("&,&"), &none, &chars_of("'\""));
    let d6 = dec_marker(&d5, &chars_of("&##&"), &none, &chars_of("'"));
    dec_marker(&d6, &chars_of("&$&"), &none, &chars_of("\""))
}

/// Splits `origin_text` into its sentences, each trimmed and with its
/// protected punctuation restored; fragments of at most one byte are
/// dropped.
pub fn cut(origin_text: &String) -> (r: Vec<String>)
    ensures
        crate::strings::str_views(r@) == cut_spec(origin_text@),
{
    let v = chars_of(origin_text.as_str());
    let e = encode(&v);
    let frags = split_terms(&e);
    let ghost fviews = crate::strings::views_of(frags@);
    let mut out: Vec<String> = Vec::new();
    let mut i: usize = 0;
    while i < frags.len()
        invariant
            i <= frags.len(),
            fviews == crate::strings::views_of(frags@),
            fviews == split_from(encode_spec(v@), 0, 0),
            crate::strings::str_views(out@) + restore_filter(fviews, i as int) == restore_filter(
                fviews,
                0,
            ),
        decreases frags.len() - i,
    {
        let ghost out0 = out@;
        let rf = restore(&frags[i]);
        proof {
            assert(frags@[i as int]@ == fviews[i as int]);
        }
        if utf8_longer_than_one(&rf) {
            let s = string_of(&rf);
            out.push(s);
            proof {
                assert(crate::strings::str_views(out@) =~= crate::strings::str_views(out0).push(
                    rf@,
                ));
                assert(crate::strings::str_views(out0) + (seq![restore_spec(fviews[i as int])]
                    + restore_filter(fviews, i + 1)) =~= crate::strings::str_views(out@)
                    + restore_filter(fviews, i + 1));
            }
        } else {
            proof {
                assert(crate::strings::str_views(out0) + (Seq::<Seq<char>>::empty()
                    + restore_filter(fviews, i + 1)) =~= crate::strings::str_views(out@)
                    + restore_filter(fviews, i + 1));
            }
        }
        i = i + 1;
    }
    proof {
        assert(crate::strings::str_views(out@) + restore_filter(fviews, i as int)
            =~= crate::strings::str_views(out@));
    }
    out
}

} // verus!

//! White-space tokenization: splitting a character sequence into words and
//! joining words back with single spaces.

use vstd::prelude::*;
use crate::chars::{is_space, space, push_range};
use crate::strings::views_of;

verus! {

/// End of the run of non-white-space characters starting at `i`.
pub open spec fn word_run_end(s: Seq<char>, i: int) -> int
    decreases s.len() - i,
{
    if 0 <= i < s.len() && !is_space(s[i]) {
        word_run_end(s, i + 1)
    } else {
        i
    }
}

pub proof fn lemma_word_run_end(s: Seq<char>, i: int)
    requires
        0 <= i <= s.len(),
    ensures
        i <= word_run_end(s, i) <= s.len(),
    decreases s.len() - i,
{
    if i < s.len() && !is_space(s[i]) {
        lemma_word_run_end(s, i + 1);
    }
}

/// The maximal white-space-free words of `s[i..]`, in order.
pub open spec fn split_ws_from(s: Seq<char>, i: int) -> Seq<Seq<char>>
    decreases s.len() - i,
    via split_ws_from_dec
{
    if i < 0 || i >= s.len() {
        Seq::empty()
    } else if is_space(s[i]) {
        split_ws_from(s, i + 1)
    } else {
        let e = word_run_end(s, i);
        seq![s.subrange(i, e)] + split_ws_from(s, e)
    }
}

#[via_fn]
proof fn split_ws_from_dec(s: Seq<char>, i: int) {
    if 0 <= i < s.len() && !is_space(s[i]) {
        lemma_word_run_end(s, i + 1);
    }
}

/// The white-space-separated words of `s`.
pub open spec fn split_ws(s: Seq<char>) -> Seq<Seq<char>> {
    split_ws_from(s, 0)
}

fn scan_word_run(v: &Vec<char>, i: usize) -> (r: usize)
    requires
        i <= v.len(),
    ensures
        r as int == word_run_end(v@, i as int),
        i <= r <= v.len(),
{
    let mut j: usize = i;
    while j < v.len() && !space(v[j])
        invariant
            i <= j <= v.len(),
            word_run_end(v@, i as int) == word_run_end(v@, j as int),
        decreases v.len() - j,
    {
        j = j + 1;
    }
    proof {
        lemma_word_run_end(v@, i as int);
    }
    j
}

pub fn split_whitespace(v: &Vec<char>) -> (r: Vec<Vec<char>>)
    ensures
        views_of(r@) == split_ws(v@),
{
    let mut out: Vec<Vec<char>> = Vec::new();
    let mut i: usize = 0;
    while i < v.len()
        invariant
            i <= v.len(),
            views_of(out@) + split_ws_from(v@, i as int) == split_ws(v@),
        decreases v.len() - i,
    {
        if space(v[i]) {
            i = i + 1;
        } else {
            let ghost out0 = out@;
            let e = scan_word_run(v, i);
            proof {
                lemma_word_run_end(v@, i + 1);
            }
            let mut w: Vec<char> = Vec::new();
            push_range(&mut w, v, i, e);
            proof {
                assert(w@ =~= v@.subrange(i as int, e as int));
            }
            out.push(w);
            proof {
                assert(views_of(out@) =~= views_of(out0).push(w@));
                assert(views_of(out0) + (seq![v@.subrange(i as int, e as int)] + split_ws_from(
                    v@,
                    e as int,
                )) =~= views_of(out@) + split_ws_from(v@, e as int));
            }
            i = e;
        }
    }
    proof {
        assert(views_of(out@) + split_ws_from(v@, i as int) =~= views_of(out@));
    }
    out
}

/// The words of `parts` joined by single spaces.
pub open spec fn join_ws(parts: Seq<Seq<char>>) -> Seq<char>
    decreases parts.len(),
{
    if parts.len() == 0 {
        Seq::empty()
    } else if parts.len() == 1 {
        parts[0]
    } else {
        join_ws(parts.drop_last()) + seq![' '] + parts.last()
    }
}

pub fn join_whitespace(parts: &Vec<Vec<char>>) -> (r: Vec<char>)
    ensures
        r@ == join_ws(views_of(parts@)),
{
    let mut out: Vec<char> = Vec::new();
    let mut i: usize = 0;
    while i < parts.len()
        invariant
            i <= parts.len(),
            out@ == join_ws(views_of(parts@).subrange(0, i as int)),
        decreases parts.len() - i,
    {
        let ghost out0 = out@;
        let ghost pviews = views_of(parts@);
        if i > 0 {
            out.push(' ');
        }
        let p = &parts[i];
        push_range(&mut out, p, 0, p.len());
        proof {
            assert(p@.subrange(0, p@.len() as int) =~= p@);
            assert(p@ == pviews[i as int]);
            if i == 0 {
                assert(pviews.subrange(0, 1).len() == 1);
                assert(pviews.subrange(0, 1)[0] == pviews[0]);
                assert(out@ =~= join_ws(pviews.subrange(0, 1)));
            } else {
                assert(pviews.subrange(0, i + 1).drop_last() =~= pviews.subrange(0, i as int));
                assert(pviews.subrange(0, i + 1).last() == pviews[i as int]);
                assert(out@ =~= join_ws(pviews.subrange(0, i as int)) + seq![' ']
                    + pviews[i as int]);
                assert(out@ == join_ws(pviews.subrange(0, i + 1)));
            }
        }
        i = i + 1;
    }
    proof {
        assert(views_of(parts@).subrange(0, parts@.len() as int) =~= views_of(parts@));
    }
    out
}

} // verus!

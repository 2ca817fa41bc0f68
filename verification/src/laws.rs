//! Properties of the pipeline, stated and proved once for all inputs.

use vstd::prelude::*;
use crate::chars::is_term;
use crate::segmenter::split_from;
use crate::lemmatizer::{attested, Category};
use crate::ranker::{
    count_occ, multiplier_spec, sentence_weight, weight_upto, sat_cap, noun_only, keywords_from,
    keywords_spec, sort_by_count, pairs_of, is_top_selection, better,
};
use crate::summary::select_by_flags;

verus! {

/// The concatenation of a sequence of fragments.
pub open spec fn concat_frags(fs: Seq<Seq<char>>) -> Seq<char>
    decreases fs.len(),
{
    if fs.len() == 0 {
        Seq::empty()
    } else {
        fs[0] + concat_frags(fs.drop_first())
    }
}

proof fn lemma_split_concat_from(s: Seq<char>, start: int, i: int)
    requires
        0 <= start <= i <= s.len(),
    ensures
        concat_frags(split_from(s, start, i)) == s.subrange(start, s.len() as int),
    decreases s.len() - i,
{
    if i == s.len() {
        let fs = split_from(s, start, i);
        assert(fs =~= seq![s.subrange(start, i)]);
        assert(fs[0] == s.subrange(start, i));
        assert(fs.drop_first() =~= Seq::<Seq<char>>::empty());
        assert(concat_frags(fs) == fs[0] + concat_frags(fs.drop_first()));
        assert(concat_frags(fs) =~= s.subrange(start, s.len() as int));
    } else if is_term(s[i]) {
        lemma_split_concat_from(s, i + 1, i + 1);
        let rest = split_from(s, i + 1, i + 1);
        let fs = split_from(s, start, i);
        assert(fs =~= seq![s.subrange(start, i + 1)] + rest);
        assert(fs[0] == s.subrange(start, i + 1));
        assert(fs.drop_first() =~= rest);
        assert(s.subrange(start, i + 1) + s.subrange(i + 1, s.len() as int) =~= s.subrange(
            start,
            s.len() as int,
        ));
    } else {
        lemma_split_concat_from(s, start, i + 1);
    }
}

/// No characters are lost by the hard split: concatenating the split
/// fragments of the encoded text gives back the whole text. This is the
/// content-preservation half of the restoration property; the marker
/// substitutions themselves are reversed pass by pass.
pub proof fn lemma_split_preserves_content(s: Seq<char>)
    ensures
        concat_frags(split_from(s, 0, 0)) == s,
{
    lemma_split_concat_from(s, 0, 0);
    assert(s.subrange(0, s.len() as int) =~= s);
}

/// The positions marked by `flags`, from `i` on, in increasing order.
pub open spec fn selected_indices(flags: Seq<bool>, i: int) -> Seq<int>
    decreases flags.len() - i,
{
    if i < 0 || i >= flags.len() {
        Seq::empty()
    } else {
        (if flags[i] {
            seq![i]
        } else {
            Seq::empty()
        }) + selected_indices(flags, i + 1)
    }
}

proof fn lemma_selection_order_from(xs: Seq<Seq<char>>, flags: Seq<bool>, i: int)
    requires
        flags.len() == xs.len(),
        0 <= i,
    ensures
        select_by_flags(xs, flags, i) == selected_indices(flags, i).map_values(
            |k: int| xs[k],
        ),
        forall|a: int|
            0 <= a < selected_indices(flags, i).len() ==> i <= #[trigger] selected_indices(
                flags,
                i,
            )[a] < flags.len(),
        forall|a: int, b: int|
            0 <= a < b < selected_indices(flags, i).len() ==> selected_indices(flags, i)[a]
                < selected_indices(flags, i)[b],
    decreases flags.len() - i,
{
    if i >= flags.len() {
        assert(select_by_flags(xs, flags, i) =~= selected_indices(flags, i).map_values(
            |k: int| xs[k],
        ));
    } else {
        lemma_selection_order_from(xs, flags, i + 1);
        let rest = selected_indices(flags, i + 1);
        let cur = selected_indices(flags, i);
        if flags[i] {
            assert(cur =~= seq![i] + rest);
            assert(cur.map_values(|k: int| xs[k]) =~= seq![xs[i]] + rest.map_values(
                |k: int| xs[k],
            ));
        } else {
            assert(cur =~= rest);
            assert(select_by_flags(xs, flags, i) == select_by_flags(xs, flags, i + 1));
        }
    }
}

/// Order preservation under selection: the selected sentences are exactly
/// the flagged sentences, read off at strictly increasing sentence
/// indices — the summary keeps document order.
pub proof fn lemma_selection_preserves_order(xs: Seq<Seq<char>>, flags: Seq<bool>)
    requires
        flags.len() == xs.len(),
    ensures
        select_by_flags(xs, flags, 0) == selected_indices(flags, 0).map_values(|k: int| xs[k]),
        forall|a: int, b: int|
            0 <= a < b < selected_indices(flags, 0).len() ==> selected_indices(flags, 0)[a]
                < selected_indices(flags, 0)[b],
{
    lemma_selection_order_from(xs, flags, 0);
}

/// Tie-break determinism: of two sentences with the same weight, whenever
/// the later one is selected, so is the earlier one; a quota with room for
/// only one of them therefore takes the sentence with the smaller index.
pub proof fn lemma_tie_break(ws: Seq<usize>, k: int, flags: Seq<bool>, i: int, j: int)
    requires
        is_top_selection(ws, k, flags),
        0 <= i < j < ws.len(),
        ws[i] == ws[j],
        flags[j],
    ensures
        flags[i],
{
    if !flags[i] {
        assert(better(ws, j, i));
        assert(false);
    }
}

/// Noun dominance: a one-token sentence whose lemma is noun-only with
/// document frequency two weighs 12, while one whose lemma is verb-only
/// with frequency five weighs 10 — the noun sentence outranks the more
/// frequent verb sentence.
pub proof fn lemma_noun_dominance(
    rows: Seq<(Seq<char>, Category, Seq<char>)>,
    ts: Seq<Seq<char>>,
    wn: Seq<char>,
    wv: Seq<char>,
)
    requires
        noun_only(rows, wn),
        attested(rows, wv, Category::Verb),
        !attested(rows, wv, Category::Noun),
        !attested(rows, wv, Category::Adjective),
        !attested(rows, wv, Category::Adverb),
        count_occ(ts, wn) == 2,
        count_occ(ts, wv) == 5,
    ensures
        sentence_weight(rows, ts, seq![wn]) == 12,
        sentence_weight(rows, ts, seq![wv]) == 10,
        sentence_weight(rows, ts, seq![wn]) > sentence_weight(rows, ts, seq![wv]),
{
    assert(multiplier_spec(rows, wn) == 6);
    assert(multiplier_spec(rows, wv) == 2);
    assert(weight_upto(rows, ts, seq![wn], 0) == 0);
    assert(weight_upto(rows, ts, seq![wv], 0) == 0);
    assert(seq![wn][0] == wn);
    assert(seq![wv][0] == wv);
    assert(sentence_weight(rows, ts, seq![wn]) == sat_cap(0 + sat_cap(12int)));
    assert(sentence_weight(rows, ts, seq![wv]) == sat_cap(0 + sat_cap(10int)));
}

proof fn lemma_keywords_from_noun_only(
    rows: Seq<(Seq<char>, Category, Seq<char>)>,
    pairs: Seq<(Seq<char>, int)>,
    i: int,
    w: Seq<char>,
)
    requires
        keywords_from(rows, pairs, i).contains(w),
    ensures
        noun_only(rows, w),
    decreases pairs.len() - i,
{
    if i < 0 || i >= pairs.len() {
        assert(false);
    } else {
        let head: Seq<Seq<char>> = if noun_only(rows, pairs[i].0) {
            seq![pairs[i].0]
        } else {
            Seq::empty()
        };
        let rest = keywords_from(rows, pairs, i + 1);
        let k = choose|k: int|
            0 <= k < (head + rest).len() && (head + rest)[k] == w;
        if k < head.len() {
            assert(w == pairs[i].0);
        } else {
            assert(rest[k - head.len()] == w);
            assert(rest.contains(w));
            lemma_keywords_from_noun_only(rows, pairs, i + 1, w);
        }
    }
}

/// Keyword exclusivity: every keyword is attested as a noun and under no
/// other category. A lemma attested as both noun and verb never appears
/// in the keyword list.
pub proof fn lemma_keyword_exclusivity(
    rows: Seq<(Seq<char>, Category, Seq<char>)>,
    ts: Seq<Seq<char>>,
    w: Seq<char>,
)
    requires
        keywords_spec(rows, ts).contains(w),
    ensures
        noun_only(rows, w),
        !attested(rows, w, Category::Verb),
{
    lemma_keywords_from_noun_only(rows, sort_by_count(pairs_of(ts)), 0, w);
}

} // verus!

verus! {

use crate::ranker::count_true;
use crate::segmenter::{replace_all, replace_from, enc_initial_from, starts_with_at};
use crate::chars::is_upper;

proof fn lemma_count_true_strict(f1: Seq<bool>, f2: Seq<bool>, i: int)
    requires
        f1.len() == f2.len(),
        forall|m: int| 0 <= m < f2.len() && f2[m] ==> f1[m],
        0 <= i < f1.len(),
        f1[i],
        !f2[i],
    ensures
        count_true(f2) < count_true(f1),
    decreases f1.len(),
{
    let d1 = f1.drop_last();
    let d2 = f2.drop_last();
    assert(forall|m: int| 0 <= m < d2.len() && d2[m] ==> d1[m]);
    if i == f1.len() - 1 {
        lemma_count_true_mono(d1, d2);
    } else {
        lemma_count_true_strict(d1, d2, i);
    }
}

proof fn lemma_count_true_mono(f1: Seq<bool>, f2: Seq<bool>)
    requires
        f1.len() == f2.len(),
        forall|m: int| 0 <= m < f2.len() && f2[m] ==> f1[m],
    ensures
        count_true(f2) <= count_true(f1),
    decreases f1.len(),
{
    if f1.len() > 0 {
        let d1 = f1.drop_last();
        let d2 = f2.drop_last();
        assert(forall|m: int| 0 <= m < d2.len() && d2[m] ==> d1[m]);
        lemma_count_true_mono(d1, d2);
    }
}

/// Determinism of the selection: two flag sequences that both mark a top
/// selection of the same weights and quota are equal, so the set of
/// selected sentences is fully determined by the weights, the quota and
/// the tie-break rule.
pub proof fn lemma_top_selection_unique(ws: Seq<usize>, k: int, f1: Seq<bool>, f2: Seq<bool>)
    requires
        is_top_selection(ws, k, f1),
        is_top_selection(ws, k, f2),
    ensures
        f1 == f2,
{
    if f1 != f2 {
        assert(!(forall|m: int| 0 <= m < f1.len() ==> f1[m] == f2[m])) by {
            if forall|m: int| 0 <= m < f1.len() ==> f1[m] == f2[m] {
                assert(f1 =~= f2);
            }
        }
        let i = choose|m: int| 0 <= m < f1.len() && f1[m] != f2[m];
        if f1[i] {
            if forall|j: int| 0 <= j < ws.len() && #[trigger] f2[j] ==> f1[j] {
                lemma_count_true_strict(f1, f2, i);
            } else {
                let j = choose|j: int| 0 <= j < ws.len() && f2[j] && !f1[j];
                assert(better(ws, i, j));
                assert(better(ws, j, i));
            }
        } else {
            if forall|j: int| 0 <= j < ws.len() && #[trigger] f1[j] ==> f2[j] {
                lemma_count_true_strict(f2, f1, i);
            } else {
                let j = choose|j: int| 0 <= j < ws.len() && f1[j] && !f2[j];
                assert(better(ws, i, j));
                assert(better(ws, j, i));
            }
        }
        assert(false);
    }
}

proof fn lemma_replace_from_shift(a: Seq<char>, b: Seq<char>, pat: Seq<char>, rep: Seq<char>, j: int)
    requires
        pat.len() > 0,
        0 <= j,
    ensures
        replace_from(a + b, pat, rep, a.len() + j) == replace_from(b, pat, rep, j),
    decreases b.len() - j,
{
    let u = a + b;
    if j >= b.len() {
        assert(replace_from(u, pat, rep, a.len() + j) =~= replace_from(b, pat, rep, j));
    } else {
        assert(u[a.len() + j] == b[j]);
        assert(starts_with_at(u, pat, a.len() + j) == starts_with_at(b, pat, j)) by {
            if starts_with_at(u, pat, a.len() + j) {
                assert(forall|m: int|
                    0 <= m < pat.len() ==> b[j + m] == u[a.len() + j + m] && u[a.len() + j + m]
                        == pat[m]);
            }
            if starts_with_at(b, pat, j) {
                assert(forall|m: int|
                    0 <= m < pat.len() ==> u[a.len() + j + m] == b[j + m] && b[j + m] == pat[m]);
            }
        }
        if starts_with_at(b, pat, j) {
            lemma_replace_from_shift(a, b, pat, rep, j + pat.len() as int);
        } else {
            lemma_replace_from_shift(a, b, pat, rep, j + 1);
        }
    }
}

proof fn lemma_initials_restore_from(s: Seq<char>, i: int)
    requires
        forall|m: int| 0 <= m < s.len() ==> s[m] != '&',
        0 <= i <= s.len(),
    ensures
        replace_all(enc_initial_from(s, i), "&_&"@, "."@) == s.subrange(i, s.len() as int),
    decreases s.len() - i,
{
    reveal_strlit("&_&");
    reveal_strlit(".");
    let pat = "&_&"@;
    let rep = "."@;
    assert(pat.len() == 3 && pat[0] == '&' && pat[1] == '_' && pat[2] == '&');
    if i >= s.len() {
        assert(replace_all(enc_initial_from(s, i), pat, rep) =~= s.subrange(i, s.len() as int));
    } else if is_upper(s[i]) && i + 1 < s.len() && s[i + 1] == '.' {
        lemma_initials_restore_from(s, i + 2);
        let head = seq![s[i], '&', '_', '&'];
        let rest = enc_initial_from(s, i + 2);
        let u = head + rest;
        assert(enc_initial_from(s, i) == u);
        assert(u[0] == s[i] && s[i] != '&');
        assert(!starts_with_at(u, pat, 0)) by {
            if starts_with_at(u, pat, 0) {
                assert(u[0] == pat[0]);
            }
        }
        assert(starts_with_at(u, pat, 1)) by {
            assert(u[1] == '&' && u[2] == '_' && u[3] == '&');
        }
        assert(replace_from(u, pat, rep, 0) == seq![u[0]] + replace_from(u, pat, rep, 1));
        assert(replace_from(u, pat, rep, 1) == rep + replace_from(u, pat, rep, 4));
        lemma_replace_from_shift(head, rest, pat, rep, 0);
        assert(replace_from(u, pat, rep, 4) == replace_all(rest, pat, rep));
        assert(seq![u[0]] + (rep + s.subrange(i + 2, s.len() as int)) =~= s.subrange(
            i,
            s.len() as int,
        ));
        assert(replace_all(u, pat, rep) =~= s.subrange(i, s.len() as int));
    } else {
        lemma_initials_restore_from(s, i + 1);
        let head = seq![s[i]];
        let rest = enc_initial_from(s, i + 1);
        let u = head + rest;
        assert(enc_initial_from(s, i) == u);
        assert(u[0] == s[i] && s[i] != '&');
        assert(!starts_with_at(u, pat, 0)) by {
            if starts_with_at(u, pat, 0) {
                assert(u[0] == pat[0]);
            }
        }
        assert(replace_from(u, pat, rep, 0) == seq![u[0]] + replace_from(u, pat, rep, 1));
        lemma_replace_from_shift(head, rest, pat, rep, 0);
        assert(replace_from(u, pat, rep, 1) == replace_all(rest, pat, rep));
        assert(seq![u[0]] + s.subrange(i + 1, s.len() as int) =~= s.subrange(i, s.len() as int));
        assert(replace_all(u, pat, rep) =~= s.subrange(i, s.len() as int));
    }
}

/// Restoration undoes the initials protection: on text free of the marker
/// character, replacing every initials marker of the encoded text by a
/// period gives the text back unchanged.
pub proof fn lemma_initials_restore(s: Seq<char>)
    requires
        forall|m: int| 0 <= m < s.len() ==> s[m] != '&',
    ensures
        replace_all(enc_initial_from(s, 0), "&_&"@, "."@) == s,
{
    lemma_initials_restore_from(s, 0);
    assert(s.subrange(0, s.len() as int) =~= s);
}

} // verus!

verus! {

proof fn lemma_suspension_restore_from(s: Seq<char>, i: int)
    requires
        forall|m: int| 0 <= m < s.len() ==> s[m] != '&',
        0 <= i <= s.len(),
    ensures
        replace_all(replace_from(s, "..."@, "&&&."@, i), "&&&"@, ".."@) == s.subrange(
            i,
            s.len() as int,
        ),
    decreases s.len() - i,
{
    reveal_strlit("...");
    reveal_strlit("&&&.");
    reveal_strlit("&&&");
    reveal_strlit("..");
    let dots = "..."@;
    let mark = "&&&."@;
    let pat = "&&&"@;
    let rep = ".."@;
    assert(dots.len() == 3 && dots[0] == '.' && dots[1] == '.' && dots[2] == '.');
    assert(mark.len() == 4 && mark[0] == '&' && mark[1] == '&' && mark[2] == '&' && mark[3]
        == '.');
    assert(pat.len() == 3 && pat[0] == '&' && pat[1] == '&' && pat[2] == '&');
    assert(rep.len() == 2 && rep[0] == '.' && rep[1] == '.');
    if i >= s.len() {
        assert(replace_all(replace_from(s, dots, mark, i), pat, rep) =~= s.subrange(
            i,
            s.len() as int,
        ));
    } else if starts_with_at(s, dots, i) {
        lemma_suspension_restore_from(s, i + 3);
        let rest = replace_from(s, dots, mark, i + 3);
        let u = mark + rest;
        assert(replace_from(s, dots, mark, i) == u);
        assert(starts_with_at(u, pat, 0)) by {
            assert(u[0] == '&' && u[1] == '&' && u[2] == '&');
        }
        assert(replace_from(u, pat, rep, 0) == rep + replace_from(u, pat, rep, 3));
        assert(u[3] == '.');
        assert(!starts_with_at(u, pat, 3)) by {
            if starts_with_at(u, pat, 3) {
                assert(u[3] == pat[0]);
            }
        }
        assert(replace_from(u, pat, rep, 3) == seq![u[3]] + replace_from(u, pat, rep, 4));
        lemma_replace_from_shift(mark, rest, pat, rep, 0);
        assert(replace_from(u, pat, rep, 4) == replace_all(rest, pat, rep));
        assert(s[i] == '.' && s[i + 1] == '.' && s[i + 2] == '.');
        assert(rep + (seq![u[3]] + s.subrange(i + 3, s.len() as int)) =~= s.subrange(
            i,
            s.len() as int,
        ));
        assert(replace_all(u, pat, rep) =~= s.subrange(i, s.len() as int));
    } else {
        lemma_suspension_restore_from(s, i + 1);
        let rest = replace_from(s, dots, mark, i + 1);
        let head = seq![s[i]];
        let u = head + rest;
        assert(replace_from(s, dots, mark, i) == u);
        assert(u[0] == s[i] && s[i] != '&');
        assert(!starts_with_at(u, pat, 0)) by {
            if starts_with_at(u, pat, 0) {
                assert(u[0] == pat[0]);
            }
        }
        assert(replace_from(u, pat, rep, 0) == seq![u[0]] + replace_from(u, pat, rep, 1));
        lemma_replace_from_shift(head, rest, pat, rep, 0);
        assert(replace_from(u, pat, rep, 1) == replace_all(rest, pat, rep));
        assert(seq![u[0]] + s.subrange(i + 1, s.len() as int) =~= s.subrange(i, s.len() as int));
        assert(replace_all(u, pat, rep) =~= s.subrange(i, s.len() as int));
    }
}

/// Restoration undoes the suspension-points protection: on text free of
/// the marker character, replacing every suspension marker of the encoded
/// text by its two periods gives the text back unchanged.
pub proof fn lemma_suspension_restore(s: Seq<char>)
    requires
        forall|m: int| 0 <= m < s.len() ==> s[m] != '&',
    ensures
        replace_all(replace_all(s, "..."@, "&&&."@), "&&&"@, ".."@) == s,
{
    lemma_suspension_restore_from(s, 0);
    assert(s.subrange(0, s.len() as int) =~= s);
}

} // verus!

verus! {

use crate::segmenter::{dec_from, trim_spec, restore_spec, lead_ws_end, trail_ws_start};

proof fn lemma_replace_identity(s: Seq<char>, pat: Seq<char>, rep: Seq<char>, i: int)
    requires
        forall|m: int| 0 <= m < s.len() ==> s[m] != '&',
        pat.len() > 0,
        pat[0] == '&',
        0 <= i <= s.len(),
    ensures
        replace_from(s, pat, rep, i) == s.subrange(i, s.len() as int),
    decreases s.len() - i,
{
    if i >= s.len() {
        assert(replace_from(s, pat, rep, i) =~= s.subrange(i, s.len() as int));
    } else {
        assert(!starts_with_at(s, pat, i)) by {
            if starts_with_at(s, pat, i) {
                assert(s[i] == pat[0]);
            }
        }
        lemma_replace_identity(s, pat, rep, i + 1);
        assert(seq![s[i]] + s.subrange(i + 1, s.len() as int) =~= s.subrange(i, s.len() as int));
    }
}

proof fn lemma_dec_identity(
    s: Seq<char>,
    marker: Seq<char>,
    prefix: Seq<char>,
    suffix: Seq<char>,
    i: int,
)
    requires
        forall|m: int| 0 <= m < s.len() ==> s[m] != '&',
        marker.len() > 0,
        marker[0] == '&',
        0 <= i <= s.len(),
    ensures
        dec_from(s, i, marker, prefix, suffix) == s.subrange(i, s.len() as int),
    decreases s.len() - i,
{
    if i >= s.len() {
        assert(dec_from(s, i, marker, prefix, suffix) =~= s.subrange(i, s.len() as int));
    } else {
        assert(!starts_with_at(s, marker, i)) by {
            if starts_with_at(s, marker, i) {
                assert(s[i] == marker[0]);
            }
        }
        lemma_dec_identity(s, marker, prefix, suffix, i + 1);
        assert(seq![s[i]] + s.subrange(i + 1, s.len() as int) =~= s.subrange(i, s.len() as int));
    }
}

proof fn lemma_lead_ws_bounds(s: Seq<char>, i: int)
    requires
        0 <= i <= s.len(),
    ensures
        i <= lead_ws_end(s, i) <= s.len(),
    decreases s.len() - i,
{
    if i < s.len() && crate::chars::is_space(s[i]) {
        lemma_lead_ws_bounds(s, i + 1);
    }
}

proof fn lemma_trail_ws_bounds(s: Seq<char>, i: int)
    requires
        0 <= i <= s.len(),
    ensures
        0 <= trail_ws_start(s, i) <= i,
    decreases i,
{
    if 0 < i && crate::chars::is_space(s[i - 1]) {
        lemma_trail_ws_bounds(s, i - 1);
    }
}

/// Idempotence of restoration on clean fragments: a fragment that holds no
/// marker character passes through every restoration pass unchanged; only
/// the surrounding white space is trimmed.
pub proof fn lemma_restore_marker_free(f: Seq<char>)
    requires
        forall|m: int| 0 <= m < f.len() ==> f[m] != '&',
    ensures
        restore_spec(f) == trim_spec(f),
{
    reveal_strlit("&;&");
    reveal_strlit("&&&");
    reveal_strlit("&@&");
    reveal_strlit("&#&");
    reveal_strlit("&-&");
    reveal_strlit("&_&");
    reveal_strlit("&*&");
    reveal_strlit("&==&");
    reveal_strlit("&^&");
    reveal_strlit("&**&");
    reveal_strlit("&=&");
    reveal_strlit("&,&");
    reveal_strlit("&##&");
    reveal_strlit("&$&");
    let t = trim_spec(f);
    assert(forall|m: int| 0 <= m < t.len() ==> t[m] != '&') by {
        let a = lead_ws_end(f, 0);
        let b = trail_ws_start(f, f.len() as int);
        lemma_lead_ws_bounds(f, 0);
        lemma_trail_ws_bounds(f, f.len() as int);
        if a < b {
            assert(forall|m: int| 0 <= m < t.len() ==> t[m] == f[a + m]);
        }
    }
    assert(t.subrange(0, t.len() as int) =~= t);
    lemma_replace_identity(t, "&;&"@, "."@, 0);
    lemma_replace_identity(t, "&&&"@, ".."@, 0);
    lemma_replace_identity(t, "&@&"@, "."@, 0);
    lemma_replace_identity(t, "&#&"@, "."@, 0);
    lemma_replace_identity(t, "&-&"@, "."@, 0);
    lemma_replace_identity(t, "&_&"@, "."@, 0);
    lemma_replace_identity(t, "&*&"@, "."@, 0);
    lemma_dec_identity(t, "&==&"@, Seq::empty(), ")"@, 0);
    lemma_dec_identity(t, "&^&"@, "'"@, "\""@, 0);
    lemma_dec_identity(t, "&**&"@, "'"@, "\u{201d}"@, 0);
    lemma_dec_identity(t, "&=&"@, Seq::empty(), "\u{201d}"@, 0);
    lemma_dec_identity(t, "&,&"@, Seq::empty(), "'\""@, 0);
    lemma_dec_identity(t, "&##&"@, Seq::empty(), "'"@, 0);
    lemma_dec_identity(t, "&$&"@, Seq::empty(), "\""@, 0);
}

} // verus!

verus! {

use crate::segmenter::{enc_title_from, lower_run_end, lemma_lower_run_end};
use crate::chars::is_lower;

proof fn lemma_replace_passthrough(u: Seq<char>, pat: Seq<char>, rep: Seq<char>, j: int, k: int)
    requires
        pat.len() > 0,
        pat[0] == '&',
        0 <= j <= k <= u.len(),
        forall|m: int| j <= m < k ==> u[m] != '&',
    ensures
        replace_from(u, pat, rep, j) == u.subrange(j, k) + replace_from(u, pat, rep, k),
    decreases k - j,
{
    if j == k {
        assert(u.subrange(j, k) + replace_from(u, pat, rep, k) =~= replace_from(u, pat, rep, k));
    } else {
        assert(!starts_with_at(u, pat, j)) by {
            if starts_with_at(u, pat, j) {
                assert(u[j] == pat[0]);
            }
        }
        lemma_replace_passthrough(u, pat, rep, j + 1, k);
        assert(seq![u[j]] + (u.subrange(j + 1, k) + replace_from(u, pat, rep, k)) =~= u.subrange(
            j,
            k,
        ) + replace_from(u, pat, rep, k));
    }
}

proof fn lemma_titles_restore_from(s: Seq<char>, i: int)
    requires
        forall|m: int| 0 <= m < s.len() ==> s[m] != '&',
        0 <= i <= s.len(),
    ensures
        replace_all(enc_title_from(s, i), "&*&"@, "."@) == s.subrange(i, s.len() as int),
    decreases s.len() - i,
{
    reveal_strlit("&*&");
    reveal_strlit(".");
    let pat = "&*&"@;
    let rep = "."@;
    assert(pat.len() == 3 && pat[0] == '&' && pat[1] == '*' && pat[2] == '&');
    assert(rep.len() == 1 && rep[0] == '.');
    if i >= s.len() {
        assert(replace_all(enc_title_from(s, i), pat, rep) =~= s.subrange(i, s.len() as int));
    } else {
        let e = lower_run_end(s, i + 1);
        lemma_lower_run_end(s, i + 1);
        if crate::chars::is_upper(s[i]) && 1 <= e - i - 1 <= 3 && e < s.len() && s[e] == '.' {
            lemma_titles_restore_from(s, e + 1);
            let head = s.subrange(i, e) + seq!['&', '*', '&'];
            let rest = enc_title_from(s, e + 1);
            let u = head + rest;
            assert(enc_title_from(s, i) == u);
            assert(forall|m: int| 0 <= m < e - i ==> u[m] == s[i + m] && s[i + m] != '&');
            lemma_replace_passthrough(u, pat, rep, 0, e - i);
            assert(starts_with_at(u, pat, e - i)) by {
                assert(u[e - i] == '&' && u[e - i + 1] == '*' && u[e - i + 2] == '&');
            }
            assert(replace_from(u, pat, rep, e - i) == rep + replace_from(u, pat, rep, e - i + 3));
            lemma_replace_from_shift(head, rest, pat, rep, 0);
            assert(replace_from(u, pat, rep, e - i + 3) == replace_all(rest, pat, rep));
            assert(u.subrange(0, e - i) =~= s.subrange(i, e));
            assert(s.subrange(i, e) + (rep + s.subrange(e + 1, s.len() as int)) =~= s.subrange(
                i,
                s.len() as int,
            ));
            assert(replace_all(u, pat, rep) =~= s.subrange(i, s.len() as int));
        } else {
            lemma_titles_restore_from(s, i + 1);
            let head = seq![s[i]];
            let rest = enc_title_from(s, i + 1);
            let u = head + rest;
            assert(enc_title_from(s, i) == u);
            assert(!starts_with_at(u, pat, 0)) by {
                if starts_with_at(u, pat, 0) {
                    assert(u[0] == pat[0]);
                }
            }
            assert(replace_from(u, pat, rep, 0) == seq![u[0]] + replace_from(u, pat, rep, 1));
            lemma_replace_from_shift(head, rest, pat, rep, 0);
            assert(seq![u[0]] + s.subrange(i + 1, s.len() as int) =~= s.subrange(
                i,
                s.len() as int,
            ));
            assert(replace_all(u, pat, rep) =~= s.subrange(i, s.len() as int));
        }
    }
}

/// Restoration undoes the short-title protection: on text free of the
/// marker character, replacing every title marker of the encoded text by a
/// period gives the text back unchanged.
pub proof fn lemma_titles_restore(s: Seq<char>)
    requires
        forall|m: int| 0 <= m < s.len() ==> s[m] != '&',
    ensures
        replace_all(enc_title_from(s, 0), "&*&"@, "."@) == s,
{
    lemma_titles_restore_from(s, 0);
    assert(s.subrange(0, s.len() as int) =~= s);
}

} // verus!

verus! {

use crate::segmenter::{enc_float_from, digit_run_end, lemma_digit_run_end};
use crate::chars::is_digit;

proof fn lemma_float_restore_from(s: Seq<char>, i: int)
    requires
        forall|m: int| 0 <= m < s.len() ==> s[m] != '&',
        0 <= i <= s.len(),
    ensures
        replace_all(enc_float_from(s, i), "&@&"@, "."@) == s.subrange(i, s.len() as int),
    decreases s.len() - i,
{
    reveal_strlit("&@&");
    reveal_strlit(".");
    let pat = "&@&"@;
    let rep = "."@;
    assert(pat.len() == 3 && pat[0] == '&' && pat[1] == '@' && pat[2] == '&');
    assert(rep.len() == 1 && rep[0] == '.');
    if i >= s.len() {
        assert(replace_all(enc_float_from(s, i), pat, rep) =~= s.subrange(i, s.len() as int));
    } else if is_digit(s[i]) {
        let a = digit_run_end(s, i);
        lemma_digit_run_end(s, i + 1);
        if a < s.len() && s[a] == '.' && a + 1 < s.len() && is_digit(s[a + 1]) {
            let b = digit_run_end(s, a + 1);
            lemma_digit_run_end(s, a + 2);
            lemma_float_restore_from(s, b);
            let head = s.subrange(i, a) + seq!['&', '@', '&'] + s.subrange(a + 1, b);
            let rest = enc_float_from(s, b);
            let u = head + rest;
            assert(enc_float_from(s, i) == u);
            let p = a - i;
            let hl = head.len() as int;
            assert(forall|m: int| 0 <= m < p ==> u[m] == s[i + m] && s[i + m] != '&');
            lemma_replace_passthrough(u, pat, rep, 0, p);
            assert(starts_with_at(u, pat, p)) by {
                assert(u[p] == '&' && u[p + 1] == '@' && u[p + 2] == '&');
            }
            assert(replace_from(u, pat, rep, p) == rep + replace_from(u, pat, rep, p + 3));
            assert(forall|m: int|
                p + 3 <= m < hl ==> u[m] == s[a + 1 + (m - p - 3)] && s[a + 1 + (m - p - 3)]
                    != '&');
            lemma_replace_passthrough(u, pat, rep, p + 3, hl);
            lemma_replace_from_shift(head, rest, pat, rep, 0);
            assert(replace_from(u, pat, rep, hl) == replace_all(rest, pat, rep));
            assert(u.subrange(0, p) =~= s.subrange(i, a));
            assert(u.subrange(p + 3, hl) =~= s.subrange(a + 1, b));
            assert(s.subrange(i, a) + (rep + (s.subrange(a + 1, b) + s.subrange(
                b,
                s.len() as int,
            ))) =~= s.subrange(i, s.len() as int));
            assert(replace_all(u, pat, rep) =~= s.subrange(i, s.len() as int));
        } else {
            lemma_float_restore_from(s, a);
            let head = s.subrange(i, a);
            let rest = enc_float_from(s, a);
            let u = head + rest;
            assert(enc_float_from(s, i) == u);
            assert(forall|m: int| 0 <= m < a - i ==> u[m] == s[i + m] && s[i + m] != '&');
            lemma_replace_passthrough(u, pat, rep, 0, a - i);
            lemma_replace_from_shift(head, rest, pat, rep, 0);
            assert(u.subrange(0, a - i) =~= s.subrange(i, a));
            assert(s.subrange(i, a) + s.subrange(a, s.len() as int) =~= s.subrange(
                i,
                s.len() as int,
            ));
            assert(replace_all(u, pat, rep) =~= s.subrange(i, s.len() as int));
        }
    } else {
        lemma_float_restore_from(s, i + 1);
        let head = seq![s[i]];
        let rest = enc_float_from(s, i + 1);
        let u = head + rest;
        assert(enc_float_from(s, i) == u);
        assert(!starts_with_at(u, pat, 0)) by {
            if starts_with_at(u, pat, 0) {
                assert(u[0] == pat[0]);
            }
        }
        assert(replace_from(u, pat, rep, 0) == seq![u[0]] + replace_from(u, pat, rep, 1));
        lemma_replace_from_shift(head, rest, pat, rep, 0);
        assert(seq![u[0]] + s.subrange(i + 1, s.len() as int) =~= s.subrange(i, s.len() as int));
        assert(replace_all(u, pat, rep) =~= s.subrange(i, s.len() as int));
    }
}

/// Restoration undoes the decimal-number protection: on text free of the
/// marker character, replacing every decimal marker of the encoded text by
/// a period gives the text back unchanged.
pub proof fn lemma_decimals_restore(s: Seq<char>)
    requires
        forall|m: int| 0 <= m < s.len() ==> s[m] != '&',
    ensures
        replace_all(enc_float_from(s, 0), "&@&"@, "."@) == s,
{
    lemma_float_restore_from(s, 0);
    assert(s.subrange(0, s.len() as int) =~= s);
}

} // verus!

verus! {

use crate::segmenter::{enc_abbrev_from, abbrev_emit, pair_run_end, lemma_pair_run_end};

proof fn lemma_composite_restore_from(s: Seq<char>, i: int)
    requires
        forall|m: int| 0 <= m < s.len() ==> s[m] != '&',
        0 <= i <= s.len(),
    ensures
        replace_all(replace_from(s, "et al.."@, "et al&;&."@, i), "&;&"@, "."@) == s.subrange(
            i,
            s.len() as int,
        ),
    decreases s.len() - i,
{
    reveal_strlit("et al..");
    reveal_strlit("et al&;&.");
    reveal_strlit("&;&");
    reveal_strlit(".");
    let comp = "et al.."@;
    let mark = "et al&;&."@;
    let pat = "&;&"@;
    let rep = "."@;
    assert(comp.len() == 7 && comp[0] == 'e' && comp[1] == 't' && comp[2] == ' ' && comp[3] == 'a'
        && comp[4] == 'l' && comp[5] == '.' && comp[6] == '.');
    assert(mark.len() == 9 && mark[0] == 'e' && mark[1] == 't' && mark[2] == ' ' && mark[3] == 'a'
        && mark[4] == 'l' && mark[5] == '&' && mark[6] == ';' && mark[7] == '&' && mark[8] == '.');
    assert(pat.len() == 3 && pat[0] == '&' && pat[1] == ';' && pat[2] == '&');
    assert(rep.len() == 1 && rep[0] == '.');
    if i >= s.len() {
        assert(replace_all(replace_from(s, comp, mark, i), pat, rep) =~= s.subrange(
            i,
            s.len() as int,
        ));
    } else if starts_with_at(s, comp, i) {
        lemma_composite_restore_from(s, i + 7);
        let rest = replace_from(s, comp, mark, i + 7);
        let u = mark + rest;
        assert(replace_from(s, comp, mark, i) == u);
        assert(forall|m: int| 0 <= m < 5 ==> u[m] == mark[m] && mark[m] != '&');
        lemma_replace_passthrough(u, pat, rep, 0, 5);
        assert(starts_with_at(u, pat, 5)) by {
            assert(u[5] == '&' && u[6] == ';' && u[7] == '&');
        }
        assert(replace_from(u, pat, rep, 5) == rep + replace_from(u, pat, rep, 8));
        assert(u[8] == '.');
        assert(!starts_with_at(u, pat, 8)) by {
            if starts_with_at(u, pat, 8) {
                assert(u[8] == pat[0]);
            }
        }
        assert(replace_from(u, pat, rep, 8) == seq![u[8]] + replace_from(u, pat, rep, 9));
        lemma_replace_from_shift(mark, rest, pat, rep, 0);
        assert(replace_from(u, pat, rep, 9) == replace_all(rest, pat, rep));
        assert(u.subrange(0, 5) =~= s.subrange(i, i + 5));
        assert(s[i + 5] == '.' && s[i + 6] == '.');
        assert(s.subrange(i, i + 5) + (rep + (seq![u[8]] + s.subrange(i + 7, s.len() as int)))
            =~= s.subrange(i, s.len() as int));
        assert(replace_all(u, pat, rep) =~= s.subrange(i, s.len() as int));
    } else {
        lemma_composite_restore_from(s, i + 1);
        let head = seq![s[i]];
        let rest = replace_from(s, comp, mark, i + 1);
        let u = head + rest;
        assert(replace_from(s, comp, mark, i) == u);
        assert(!starts_with_at(u, pat, 0)) by {
            if starts_with_at(u, pat, 0) {
                assert(u[0] == pat[0]);
            }
        }
        assert(replace_from(u, pat, rep, 0) == seq![u[0]] + replace_from(u, pat, rep, 1));
        lemma_replace_from_shift(head, rest, pat, rep, 0);
        assert(seq![u[0]] + s.subrange(i + 1, s.len() as int) =~= s.subrange(i, s.len() as int));
        assert(replace_all(u, pat, rep) =~= s.subrange(i, s.len() as int));
    }
}

/// Restoration undoes the composite-abbreviation protection: on text free
/// of the marker character, replacing every composite marker of the
/// encoded text by a period gives the text back unchanged.
pub proof fn lemma_composite_restore(s: Seq<char>)
    requires
        forall|m: int| 0 <= m < s.len() ==> s[m] != '&',
    ensures
        replace_all(replace_all(s, "et al.."@, "et al&;&."@), "&;&"@, "."@) == s,
{
    lemma_composite_restore_from(s, 0);
    assert(s.subrange(0, s.len() as int) =~= s);
}

proof fn lemma_abbrev_emit_restore(s: Seq<char>, j: int, e: int, tail: Seq<char>)
    requires
        forall|m: int| 0 <= m < s.len() ==> s[m] != '&',
        0 <= j <= e <= s.len(),
        pair_run_end(s, j) == e,
    ensures
        replace_all(abbrev_emit(s, j, e) + tail, "&-&"@, "."@) == s.subrange(j, e) + replace_all(
            tail,
            "&-&"@,
            "."@,
        ),
    decreases e - j,
{
    reveal_strlit("&-&");
    reveal_strlit(".");
    let pat = "&-&"@;
    let rep = "."@;
    assert(pat.len() == 3 && pat[0] == '&' && pat[1] == '-' && pat[2] == '&');
    assert(rep.len() == 1 && rep[0] == '.');
    if j == e {
        assert(abbrev_emit(s, j, e) + tail =~= tail);
        assert(s.subrange(j, e) + replace_all(tail, pat, rep) =~= replace_all(tail, pat, rep));
    } else {
        lemma_pair_run_end(s, j + 2);
        lemma_abbrev_emit_restore(s, j + 2, e, tail);
        let head = seq![s[j], '&', '-', '&'];
        let rest = abbrev_emit(s, j + 2, e) + tail;
        let u = head + rest;
        assert(abbrev_emit(s, j, e) + tail =~= u);
        assert(u[0] == s[j] && s[j] != '&');
        assert(!starts_with_at(u, pat, 0)) by {
            if starts_with_at(u, pat, 0) {
                assert(u[0] == pat[0]);
            }
        }
        assert(starts_with_at(u, pat, 1)) by {
            assert(u[1] == '&' && u[2] == '-' && u[3] == '&');
        }
        assert(replace_from(u, pat, rep, 0) == seq![u[0]] + replace_from(u, pat, rep, 1));
        assert(replace_from(u, pat, rep, 1) == rep + replace_from(u, pat, rep, 4));
        lemma_replace_from_shift(head, rest, pat, rep, 0);
        assert(replace_from(u, pat, rep, 4) == replace_all(rest, pat, rep));
        assert(s[j + 1] == '.');
        assert(seq![u[0]] + (rep + (s.subrange(j + 2, e) + replace_all(tail, pat, rep)))
            =~= s.subrange(j, e) + replace_all(tail, pat, rep));
        assert(replace_all(u, pat, rep) =~= s.subrange(j, e) + replace_all(tail, pat, rep));
    }
}

proof fn lemma_abbrev_restore_from(s: Seq<char>, i: int)
    requires
        forall|m: int| 0 <= m < s.len() ==> s[m] != '&',
        0 <= i <= s.len(),
    ensures
        replace_all(enc_abbrev_from(s, i), "&-&"@, "."@) == s.subrange(i, s.len() as int),
    decreases s.len() - i,
{
    reveal_strlit("&-&");
    reveal_strlit(".");
    let pat = "&-&"@;
    let rep = "."@;
    if i >= s.len() {
        assert(replace_all(enc_abbrev_from(s, i), pat, rep) =~= s.subrange(i, s.len() as int));
    } else {
        let e = pair_run_end(s, i);
        lemma_pair_run_end(s, i);
        if e - i >= 4 {
            lemma_abbrev_restore_from(s, e);
            lemma_abbrev_emit_restore(s, i, e, enc_abbrev_from(s, e));
            assert(s.subrange(i, e) + s.subrange(e, s.len() as int) =~= s.subrange(
                i,
                s.len() as int,
            ));
        } else {
            lemma_abbrev_restore_from(s, i + 1);
            let head = seq![s[i]];
            let rest = enc_abbrev_from(s, i + 1);
            let u = head + rest;
            assert(enc_abbrev_from(s, i) == u);
            assert(pat.len() == 3 && pat[0] == '&');
            assert(!starts_with_at(u, pat, 0)) by {
                if starts_with_at(u, pat, 0) {
                    assert(u[0] == pat[0]);
                }
            }
            assert(replace_from(u, pat, rep, 0) == seq![u[0]] + replace_from(u, pat, rep, 1));
            lemma_replace_from_shift(head, rest, pat, rep, 0);
            assert(seq![u[0]] + s.subrange(i + 1, s.len() as int) =~= s.subrange(
                i,
                s.len() as int,
            ));
            assert(replace_all(u, pat, rep) =~= s.subrange(i, s.len() as int));
        }
    }
}

/// Restoration undoes the multi-dot-abbreviation protection: on text free
/// of the marker character, replacing every abbreviation marker of the
/// encoded text by a period gives the text back unchanged.
pub proof fn lemma_abbrev_restore(s: Seq<char>)
    requires
        forall|m: int| 0 <= m < s.len() ==> s[m] != '&',
    ensures
        replace_all(enc_abbrev_from(s, 0), "&-&"@, "."@) == s,
{
    lemma_abbrev_restore_from(s, 0);
    assert(s.subrange(0, s.len() as int) =~= s);
}

} // verus!

verus! {


proof fn lemma_count_true_some(flags: Seq<bool>)
    requires
        count_true(flags) > 0,
    ensures
        exists|m: int| 0 <= m < flags.len() && flags[m],
    decreases flags.len(),
{
    if flags.len() > 0 {
        if flags.last() {
            assert(flags[flags.len() - 1]);
        } else {
            lemma_count_true_some(flags.drop_last());
            let m = choose|m: int| 0 <= m < flags.len() - 1 && flags.drop_last()[m];
            assert(flags[m]);
        }
    }
}

proof fn lemma_count_true_pair(flags: Seq<bool>, i: int, j: int)
    requires
        0 <= i < j < flags.len(),
        flags[i],
        flags[j],
    ensures
        count_true(flags) >= 2,
    decreases flags.len(),
{
    let d = flags.drop_last();
    if j == flags.len() - 1 {
        assert(d[i]);
        assert(count_true(d) >= 1) by {
            lemma_count_true_one(d, i);
        }
    } else {
        lemma_count_true_pair(d, i, j);
    }
}

proof fn lemma_count_true_nonneg(flags: Seq<bool>)
    ensures
        count_true(flags) >= 0,
    decreases flags.len(),
{
    if flags.len() > 0 {
        lemma_count_true_nonneg(flags.drop_last());
    }
}

proof fn lemma_count_true_one(flags: Seq<bool>, i: int)
    requires
        0 <= i < flags.len(),
        flags[i],
    ensures
        count_true(flags) >= 1,
    decreases flags.len(),
{
    lemma_count_true_nonneg(flags.drop_last());
    if i < flags.len() - 1 {
        assert(flags.drop_last()[i] == flags[i]);
        lemma_count_true_one(flags.drop_last(), i);
    }
}

/// Noun dominance carried into the selection: with a quota of one, the
/// sentence holding only the noun-only lemma (document frequency two,
/// weight 12) is selected and the sentence holding only the verb-only
/// lemma (frequency five, weight 10) is not — provided no sentence other
/// than the noun sentence weighs more than the verb sentence. The last
/// bound is needed: a document with a third, heavier sentence hands the
/// one slot to that sentence instead.
pub proof fn lemma_noun_dominance_selected(
    rows: Seq<(Seq<char>, Category, Seq<char>)>,
    ts: Seq<Seq<char>>,
    wn: Seq<char>,
    wv: Seq<char>,
    ws: Seq<usize>,
    flags: Seq<bool>,
    a: int,
    b: int,
)
    requires
        noun_only(rows, wn),
        attested(rows, wv, Category::Verb),
        !attested(rows, wv, Category::Noun),
        !attested(rows, wv, Category::Adjective),
        !attested(rows, wv, Category::Adverb),
        count_occ(ts, wn) == 2,
        count_occ(ts, wv) == 5,
        0 <= a < ws.len(),
        0 <= b < ws.len(),
        a != b,
        ws[a] as int == sentence_weight(rows, ts, seq![wn]),
        ws[b] as int == sentence_weight(rows, ts, seq![wv]),
        forall|m: int| 0 <= m < ws.len() && m != a ==> ws[m] <= 10,
        is_top_selection(ws, 1, flags),
    ensures
        flags[a],
        !flags[b],
{
    lemma_noun_dominance(rows, ts, wn, wv);
    assert(ws[a] == 12 && ws[b] == 10);
    if !flags[a] {
        lemma_count_true_some(flags);
        let j = choose|m: int| 0 <= m < flags.len() && flags[m];
        assert(better(ws, j, a));
        assert(false);
    }
    if flags[b] {
        if a < b {
            lemma_count_true_pair(flags, a, b);
        } else {
            lemma_count_true_pair(flags, b, a);
        }
        assert(false);
    }
}

} // verus!

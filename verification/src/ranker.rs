//! Frequency counting, sentence weighting, top-`N` selection and keyword
//! extraction.

use vstd::prelude::*;
use crate::chars::{chars_eq, copy_chars};
use crate::strings::views_of;
use crate::lemmatizer::{attested, Category, Lemmatizer};

verus! {

/// Number of occurrences of `w` among `tokens`.
pub open spec fn count_occ(tokens: Seq<Seq<char>>, w: Seq<char>) -> int
    decreases tokens.len(),
{
    if tokens.len() == 0 {
        0
    } else {
        count_occ(tokens.drop_last(), w) + if tokens.last() == w {
            1int
        } else {
            0int
        }
    }
}

/// The distinct words of `tokens`, in first-occurrence order.
pub open spec fn uniq_words(tokens: Seq<Seq<char>>) -> Seq<Seq<char>>
    decreases tokens.len(),
{
    if tokens.len() == 0 {
        Seq::empty()
    } else {
        let u = uniq_words(tokens.drop_last());
        if u.contains(tokens.last()) {
            u
        } else {
            u.push(tokens.last())
        }
    }
}

pub proof fn lemma_count_occ_bounds(tokens: Seq<Seq<char>>, w: Seq<char>)
    ensures
        0 <= count_occ(tokens, w) <= tokens.len(),
    decreases tokens.len(),
{
    if tokens.len() > 0 {
        lemma_count_occ_bounds(tokens.drop_last(), w);
    }
}

pub proof fn lemma_count_occ_zero(tokens: Seq<Seq<char>>, w: Seq<char>)
    requires
        !tokens.contains(w),
    ensures
        count_occ(tokens, w) == 0,
    decreases tokens.len(),
{
    if tokens.len() > 0 {
        assert(tokens.last() != w);
        assert(forall|k: int| 0 <= k < tokens.len() - 1 ==> tokens.drop_last()[k] == tokens[k]);
        lemma_count_occ_zero(tokens.drop_last(), w);
    }
}

pub proof fn lemma_uniq_complete(tokens: Seq<Seq<char>>, w: Seq<char>)
    ensures
        tokens.contains(w) <==> uniq_words(tokens).contains(w),
    decreases tokens.len(),
{
    if tokens.len() > 0 {
        let d = tokens.drop_last();
        let last = tokens.last();
        let u = uniq_words(d);
        lemma_uniq_complete(d, w);
        lemma_uniq_complete(d, last);
        assert(forall|k: int| 0 <= k < d.len() ==> d[k] == tokens[k]);
        if tokens.contains(w) {
            let k = choose|k: int| 0 <= k < tokens.len() && tokens[k] == w;
            if k < tokens.len() - 1 {
                assert(d.contains(w)) by {
                    assert(d[k] == w);
                }
                if !u.contains(last) {
                    let m = choose|m: int| 0 <= m < u.len() && u[m] == w;
                    assert(u.push(last)[m] == w);
                    assert(uniq_words(tokens).contains(w));
                }
            } else {
                assert(w == last);
                if u.contains(last) {
                    assert(uniq_words(tokens).contains(w));
                } else {
                    assert(u.push(last)[u.len() as int] == last);
                    assert(uniq_words(tokens).contains(w));
                }
            }
        }
        if uniq_words(tokens).contains(w) {
            if u.contains(last) {
                assert(u.contains(w));
                assert(d.contains(w));
                let k = choose|k: int| 0 <= k < d.len() && d[k] == w;
                assert(tokens[k] == w);
            } else {
                let k = choose|k: int|
                    0 <= k < u.push(last).len() && u.push(last)[k] == w;
                if k < u.len() {
                    assert(u.contains(w)) by {
                        assert(u[k] == w);
                    }
                    assert(d.contains(w));
                    let m = choose|m: int| 0 <= m < d.len() && d[m] == w;
                    assert(tokens[m] == w);
                } else {
                    assert(w == last);
                    assert(tokens[tokens.len() - 1] == w);
                }
            }
            assert(tokens.contains(w));
        }
    }
}

pub proof fn lemma_uniq_distinct(tokens: Seq<Seq<char>>)
    ensures
        forall|k1: int, k2: int|
            0 <= k1 < k2 < uniq_words(tokens).len() ==> uniq_words(tokens)[k1] != uniq_words(
                tokens,
            )[k2],
    decreases tokens.len(),
{
    if tokens.len() > 0 {
        lemma_uniq_distinct(tokens.drop_last());
        let u = uniq_words(tokens.drop_last());
        if !u.contains(tokens.last()) {
            assert forall|k1: int, k2: int|
                0 <= k1 < k2 < u.push(tokens.last()).len() implies u.push(tokens.last())[k1]
                != u.push(tokens.last())[k2] by {
                if k2 == u.len() {
                    assert(u.push(tokens.last())[k2] == tokens.last());
                    assert(u[k1] == u.push(tokens.last())[k1]);
                    if u.push(tokens.last())[k1] == tokens.last() {
                        assert(u.contains(tokens.last())) by {
                            assert(u[k1] == tokens.last());
                        }
                    }
                }
            }
        }
    }
}

/// The document frequency table: the distinct normalized tokens of the
/// document, each with its occurrence count.
pub struct FreqTable {
    pub words: Vec<Vec<char>>,
    pub counts: Vec<usize>,
}

impl FreqTable {
    /// The table holds exactly the distinct words of `tokens`, in
    /// first-occurrence order, each with its occurrence count.
    pub open spec fn matches(&self, tokens: Seq<Seq<char>>) -> bool {
        &&& self.words@.len() == uniq_words(tokens).len()
        &&& self.counts@.len() == uniq_words(tokens).len()
        &&& forall|k: int|
            0 <= k < uniq_words(tokens).len() ==> self.words@[k]@ == uniq_words(tokens)[k]
        &&& forall|k: int|
            0 <= k < uniq_words(tokens).len() ==> self.counts@[k] as int == count_occ(
                tokens,
                uniq_words(tokens)[k],
            )
    }
}

fn find_word(words: &Vec<Vec<char>>, w: &Vec<char>) -> (r: Option<usize>)
    ensures
        match r {
            Some(k) => k < words@.len() && words@[k as int]@ == w@,
            None => forall|k: int| 0 <= k < words@.len() ==> words@[k]@ != w@,
        },
{
    let mut k: usize = 0;
    while k < words.len()
        invariant
            k <= words.len(),
            forall|m: int| 0 <= m < k ==> words@[m]@ != w@,
        decreases words.len() - k,
    {
        if chars_eq(&words[k], w) {
            return Some(k);
        }
        k = k + 1;
    }
    None
}

/// Counts every token of the document.
pub fn build_table(tokens: &Vec<Vec<char>>) -> (t: FreqTable)
    ensures
        t.matches(views_of(tokens@)),
{
    let ghost ts = views_of(tokens@);
    let mut t = FreqTable { words: Vec::new(), counts: Vec::new() };
    let mut j: usize = 0;
    while j < tokens.len()
        invariant
            j <= tokens.len(),
            ts == views_of(tokens@),
            t.matches(ts.subrange(0, j as int)),
            t.words@.len() == t.counts@.len(),
        decreases tokens.len() - j,
    {
        let ghost pre = ts.subrange(0, j as int);
        let ghost post = ts.subrange(0, j + 1);
        proof {
            assert(post.drop_last() =~= pre);
            assert(post.last() == ts[j as int]);
            lemma_uniq_distinct(pre);
            lemma_uniq_complete(pre, ts[j as int]);
            lemma_count_occ_bounds(pre, ts[j as int]);
        }
        match find_word(&t.words, &tokens[j]) {
            Some(idx) => {
                proof {
                    assert(uniq_words(pre).contains(ts[j as int])) by {
                        assert(uniq_words(pre)[idx as int] == ts[j as int]);
                    }
                    assert(uniq_words(post) =~= uniq_words(pre));
                    assert forall|k: int| 0 <= k < uniq_words(post).len() implies count_occ(
                        post,
                        uniq_words(post)[k],
                    ) == count_occ(pre, uniq_words(pre)[k]) + (if k == idx {
                        1int
                    } else {
                        0int
                    }) by {
                        if k != idx {
                            assert(uniq_words(pre)[k] != uniq_words(pre)[idx as int]);
                        }
                    }
                }
                let c = t.counts[idx];
                t.counts[idx] = c + 1;
            },
            None => {
                proof {
                    if uniq_words(pre).contains(ts[j as int]) {
                        let k = choose|k: int|
                            0 <= k < uniq_words(pre).len() && uniq_words(pre)[k] == ts[j as int];
                        assert(t.words@[k]@ == ts[j as int]);
                    }
                    assert(!pre.contains(ts[j as int]));
                    lemma_count_occ_zero(pre, ts[j as int]);
                    assert(uniq_words(post) =~= uniq_words(pre).push(ts[j as int]));
                    assert forall|k: int| 0 <= k < uniq_words(pre).len() implies count_occ(
                        post,
                        uniq_words(pre)[k],
                    ) == count_occ(pre, uniq_words(pre)[k]) by {
                        assert(uniq_words(pre).contains(uniq_words(pre)[k]));
                        lemma_uniq_complete(pre, uniq_words(pre)[k]);
                        if uniq_words(pre)[k] == ts[j as int] {
                            assert(pre.contains(ts[j as int]));
                        }
                    }
                }
                let w = copy_chars(&tokens[j]);
                t.words.push(w);
                t.counts.push(1);
            },
        }
        j = j + 1;
    }
    proof {
        assert(ts.subrange(0, ts.len() as int) =~= ts);
    }
    t
}

/// Occurrence count of a token that appears in the document.
fn freq_of(t: &FreqTable, w: &Vec<char>, Ghost(ts): Ghost<Seq<Seq<char>>>) -> (r: usize)
    requires
        t.matches(ts),
        ts.contains(w@),
    ensures
        r as int == count_occ(ts, w@),
{
    proof {
        lemma_uniq_complete(ts, w@);
    }
    match find_word(&t.words, w) {
        Some(k) => t.counts[k],
        None => {
            proof {
                let k = choose|k: int|
                    0 <= k < uniq_words(ts).len() && uniq_words(ts)[k] == w@;
                assert(t.words@[k]@ == w@);
                assert(false);
            }
            0
        },
    }
}

/// The part-of-speech multiplier of a word: six for a noun attested under
/// no other category, three for a noun also attested as verb, adjective or
/// adverb, two for a pure verb, one otherwise.
pub open spec fn multiplier_spec(
    rows: Seq<(Seq<char>, Category, Seq<char>)>,
    w: Seq<char>,
) -> int {
    if attested(rows, w, Category::Noun) {
        if attested(rows, w, Category::Verb) || attested(rows, w, Category::Adjective) || attested(
            rows,
            w,
            Category::Adverb,
        ) {
            3
        } else {
            6
        }
    } else if attested(rows, w, Category::Verb) {
        if !(attested(rows, w, Category::Adjective) || attested(rows, w, Category::Adverb)) {
            2
        } else {
            1
        }
    } else {
        1
    }
}

/// `x` capped at `usize::MAX`.
pub open spec fn sat_cap(x: int) -> int {
    if x > usize::MAX as int {
        usize::MAX as int
    } else {
        x
    }
}

/// The weight of the first `j` tokens of a sentence: the sum over the
/// tokens of document frequency times part-of-speech multiplier, each
/// product and each partial sum saturating at `usize::MAX`.
pub open spec fn weight_upto(
    rows: Seq<(Seq<char>, Category, Seq<char>)>,
    ts: Seq<Seq<char>>,
    toks: Seq<Seq<char>>,
    j: int,
) -> int
    decreases j,
{
    if j <= 0 || j > toks.len() {
        0
    } else {
        sat_cap(
            weight_upto(rows, ts, toks, j - 1) + sat_cap(
                count_occ(ts, toks[j - 1]) * multiplier_spec(rows, toks[j - 1]),
            ),
        )
    }
}

/// The weight of a sentence whose normalized tokens are `toks`, with
/// document tokens `ts`.
pub open spec fn sentence_weight(
    rows: Seq<(Seq<char>, Category, Seq<char>)>,
    ts: Seq<Seq<char>>,
    toks: Seq<Seq<char>>,
) -> int {
    weight_upto(rows, ts, toks, toks.len() as int)
}

/// Computes the weight of one sentence.
pub fn phrase_weight(
    lem: &Lemmatizer,
    t: &FreqTable,
    toks: &Vec<Vec<char>>,
    Ghost(ts): Ghost<Seq<Seq<char>>>,
) -> (r: usize)
    requires
        t.matches(ts),
        forall|k: int| 0 <= k < toks@.len() ==> ts.contains(#[trigger] toks@[k]@),
    ensures
        r as int == sentence_weight(lem@, ts, views_of(toks@)),
{
    let ghost tv = views_of(toks@);
    let mut acc: usize = 0;
    let mut j: usize = 0;
    while j < toks.len()
        invariant
            j <= toks.len(),
            t.matches(ts),
            tv == views_of(toks@),
            forall|k: int| 0 <= k < toks@.len() ==> ts.contains(#[trigger] toks@[k]@),
            acc as int == weight_upto(lem@, ts, tv, j as int),
        decreases toks.len() - j,
    {
        let f = freq_of(t, &toks[j], Ghost(ts));
        let (n, v, a, d) = lem.classify_chars(&toks[j]);
        let m: usize = if n {
            if v || a || d {
                3
            } else {
                6
            }
        } else if v {
            if !(a || d) {
                2
            } else {
                1
            }
        } else {
            1
        };
        proof {
            assert(m as int == multiplier_spec(lem@, tv[j as int]));
        }
        let p: usize = match f.checked_mul(m) {
            Some(p) => p,
            None => usize::MAX,
        };
        proof {
            assert(p as int == sat_cap(count_occ(ts, tv[j as int]) * multiplier_spec(
                lem@,
                tv[j as int],
            )));
        }
        acc = acc.saturating_add(p);
        j = j + 1;
    }
    acc
}

} // verus!

verus! {

/// The smaller of two integers.
pub open spec fn min_int(a: int, b: int) -> int {
    if a <= b {
        a
    } else {
        b
    }
}

/// Selection priority: `i` beats `j` where its weight is higher, or equal
/// with the smaller sentence index.
pub open spec fn better(ws: Seq<usize>, i: int, j: int) -> bool {
    ws[i] > ws[j] || (ws[i] == ws[j] && i < j)
}

/// How many flags are set.
pub open spec fn count_true(flags: Seq<bool>) -> int
    decreases flags.len(),
{
    if flags.len() == 0 {
        0
    } else {
        count_true(flags.drop_last()) + if flags.last() {
            1int
        } else {
            0int
        }
    }
}

/// `flags` marks exactly `k` sentences, and every marked sentence beats
/// every unmarked one.
pub open spec fn is_top_selection(ws: Seq<usize>, k: int, flags: Seq<bool>) -> bool {
    &&& flags.len() == ws.len()
    &&& count_true(flags) == k
    &&& forall|i: int, j: int|
        0 <= i < flags.len() && 0 <= j < flags.len() && flags[i] && !flags[j] ==> better(ws, i, j)
}

pub proof fn lemma_count_true_all(flags: Seq<bool>)
    requires
        forall|m: int| 0 <= m < flags.len() ==> flags[m],
    ensures
        count_true(flags) == flags.len(),
    decreases flags.len(),
{
    if flags.len() > 0 {
        assert(forall|m: int| 0 <= m < flags.len() - 1 ==> flags.drop_last()[m] == flags[m]);
        lemma_count_true_all(flags.drop_last());
    }
}

pub proof fn lemma_count_true_update(flags: Seq<bool>, i: int)
    requires
        0 <= i < flags.len(),
        !flags[i],
    ensures
        count_true(flags.update(i, true)) == count_true(flags) + 1,
    decreases flags.len(),
{
    let u = flags.update(i, true);
    if i == flags.len() - 1 {
        assert(u.drop_last() =~= flags.drop_last());
        assert(u.last());
    } else {
        assert(u.drop_last() =~= flags.drop_last().update(i, true));
        assert(u.last() == flags.last());
        lemma_count_true_update(flags.drop_last(), i);
    }
}

/// Marks the `min(max_count, n)` best sentences under the priority order:
/// highest weight first, ties resolved toward the smaller index.
pub fn select_top(ws: &Vec<usize>, max_count: usize) -> (flags: Vec<bool>)
    ensures
        is_top_selection(ws@, min_int(max_count as int, ws@.len() as int), flags@),
{
    let n = ws.len();
    let k: usize = if max_count < n {
        max_count
    } else {
        n
    };
    let mut flags: Vec<bool> = Vec::new();
    let mut i: usize = 0;
    while i < n
        invariant
            i <= n,
            flags@.len() == i,
            count_true(flags@) == 0,
            forall|m: int| 0 <= m < i ==> !flags@[m],
        decreases n - i,
    {
        let ghost f0 = flags@;
        flags.push(false);
        proof {
            assert(flags@.drop_last() =~= f0);
        }
        i = i + 1;
    }
    let mut chosen: usize = 0;
    while chosen < k
        invariant
            chosen <= k <= n,
            n == ws@.len(),
            flags@.len() == n,
            count_true(flags@) == chosen,
            forall|a: int, b: int|
                0 <= a < n && 0 <= b < n && flags@[a] && !flags@[b] ==> better(ws@, a, b),
        decreases k - chosen,
    {
        let mut f: usize = 0;
        while f < n && flags[f]
            invariant
                f <= n,
                n == flags@.len(),
                forall|m: int| 0 <= m < f ==> flags@[m],
            decreases n - f,
        {
            f = f + 1;
        }
        proof {
            if f == n {
                lemma_count_true_all(flags@);
                assert(false);
            }
        }
        let mut best: usize = f;
        let mut j: usize = f + 1;
        while j < n
            invariant
                f <= best < n,
                f + 1 <= j <= n,
                n == ws@.len() == flags@.len(),
                !flags@[best as int],
                forall|m: int| 0 <= m < f ==> flags@[m],
                forall|m: int|
                    0 <= m < j && !flags@[m] && m != best ==> better(ws@, best as int, m),
            decreases n - j,
        {
            if !flags[j] && (ws[j] > ws[best] || (ws[j] == ws[best] && j < best)) {
                best = j;
            }
            j = j + 1;
        }
        let ghost fl0 = flags@;
        flags[best] = true;
        proof {
            assert(flags@ =~= fl0.update(best as int, true));
            lemma_count_true_update(fl0, best as int);
        }
        chosen = chosen + 1;
    }
    flags
}

} // verus!

verus! {

/// One row of the sortable frequency list.
pub struct FreqPair {
    pub word: Vec<char>,
    pub count: usize,
}

/// The word-count pairs held by a sequence of rows.
pub open spec fn pview(s: Seq<FreqPair>) -> Seq<(Seq<char>, int)> {
    s.map_values(|p: FreqPair| (p.word@, p.count as int))
}

/// The frequency table of `ts` as word-count pairs, in first-occurrence
/// order.
pub open spec fn pairs_of(ts: Seq<Seq<char>>) -> Seq<(Seq<char>, int)> {
    uniq_words(ts).map_values(|w: Seq<char>| (w, count_occ(ts, w)))
}

/// `x` inserted after every entry whose count is at most `x`'s: the
/// insertion step of a stable ascending sort.
pub open spec fn insert_by_count(s: Seq<(Seq<char>, int)>, x: (Seq<char>, int)) -> Seq<
    (Seq<char>, int),
>
    decreases s.len(),
{
    if s.len() == 0 || s.last().1 <= x.1 {
        s.push(x)
    } else {
        insert_by_count(s.drop_last(), x).push(s.last())
    }
}

/// `s` sorted by ascending count; entries of equal count keep their order.
pub open spec fn sort_by_count(s: Seq<(Seq<char>, int)>) -> Seq<(Seq<char>, int)>
    decreases s.len(),
{
    if s.len() == 0 {
        Seq::empty()
    } else {
        insert_by_count(sort_by_count(s.drop_last()), s.last())
    }
}

fn insert_pair(sorted: &mut Vec<FreqPair>, x: FreqPair)
    ensures
        pview(final(sorted)@) == insert_by_count(pview(old(sorted)@), (x.word@, x.count as int)),
{
    let ghost xv = (x.word@, x.count as int);
    let ghost p = pview(old(sorted)@);
    let mut k: usize = sorted.len();
    proof {
        assert(p.subrange(0, p.len() as int) =~= p);
        assert(p.subrange(p.len() as int, p.len() as int) =~= Seq::<(Seq<char>, int)>::empty());
        assert(insert_by_count(p, xv) + Seq::<(Seq<char>, int)>::empty() =~= insert_by_count(
            p,
            xv,
        ));
    }
    while k > 0 && sorted[k - 1].count > x.count
        invariant
            k <= sorted@.len(),
            sorted@.len() == p.len(),
            p == pview(sorted@),
            x.word@ == xv.0 && x.count as int == xv.1,
            insert_by_count(p, xv) == insert_by_count(p.subrange(0, k as int), xv) + p.subrange(
                k as int,
                p.len() as int,
            ),
        decreases k,
    {
        proof {
            let pk = p.subrange(0, k as int);
            assert(pk.last() == p[k - 1]);
            assert(p[k - 1].1 == sorted@[k - 1].count as int);
            assert(pk.drop_last() =~= p.subrange(0, k - 1));
            assert(insert_by_count(pk, xv) == insert_by_count(p.subrange(0, k - 1), xv).push(
                p[k - 1],
            ));
            assert(insert_by_count(p.subrange(0, k - 1), xv).push(p[k - 1]) + p.subrange(
                k as int,
                p.len() as int,
            ) =~= insert_by_count(p.subrange(0, k - 1), xv) + p.subrange(k - 1, p.len() as int));
        }
        k = k - 1;
    }
    proof {
        let pk = p.subrange(0, k as int);
        if k > 0 {
            assert(pk.last() == p[k - 1]);
            assert(p[k - 1].1 == sorted@[k - 1].count as int);
        }
        assert(insert_by_count(pk, xv) == pk.push(xv));
    }
    sorted.insert(k, x);
    proof {
        assert(pview(sorted@) =~~= p.subrange(0, k as int).push(xv) + p.subrange(
            k as int,
            p.len() as int,
        ));
    }
}

/// The frequency table as rows sorted by ascending count, entries of equal
/// count in first-occurrence order.
pub fn sorted_pairs(t: &FreqTable, Ghost(ts): Ghost<Seq<Seq<char>>>) -> (r: Vec<FreqPair>)
    requires
        t.matches(ts),
    ensures
        pview(r@) == sort_by_count(pairs_of(ts)),
{
    let ghost p = pairs_of(ts);
    let mut out: Vec<FreqPair> = Vec::new();
    let mut i: usize = 0;
    proof {
        assert(p.subrange(0, 0) =~= Seq::<(Seq<char>, int)>::empty());
        assert(pview(out@) =~= Seq::<(Seq<char>, int)>::empty());
    }
    while i < t.words.len()
        invariant
            i <= t.words@.len(),
            t.matches(ts),
            p == pairs_of(ts),
            t.words@.len() == p.len(),
            pview(out@) == sort_by_count(p.subrange(0, i as int)),
        decreases t.words@.len() - i,
    {
        let x = FreqPair { word: copy_chars(&t.words[i]), count: t.counts[i] };
        proof {
            assert((x.word@, x.count as int) == p[i as int]);
            assert(p.subrange(0, i + 1).drop_last() =~= p.subrange(0, i as int));
            assert(p.subrange(0, i + 1).last() == p[i as int]);
        }
        insert_pair(&mut out, x);
        i = i + 1;
    }
    proof {
        assert(p.subrange(0, p.len() as int) =~= p);
    }
    out
}

/// `w` is attested as a noun and under no other category.
pub open spec fn noun_only(rows: Seq<(Seq<char>, Category, Seq<char>)>, w: Seq<char>) -> bool {
    &&& attested(rows, w, Category::Noun)
    &&& !attested(rows, w, Category::Verb)
    &&& !attested(rows, w, Category::Adjective)
    &&& !attested(rows, w, Category::Adverb)
}

/// The words of `pairs[i..]` that are nouns and nothing else, in order.
pub open spec fn keywords_from(
    rows: Seq<(Seq<char>, Category, Seq<char>)>,
    pairs: Seq<(Seq<char>, int)>,
    i: int,
) -> Seq<Seq<char>>
    decreases pairs.len() - i,
{
    if i < 0 || i >= pairs.len() {
        Seq::empty()
    } else {
        (if noun_only(rows, pairs[i].0) {
            seq![pairs[i].0]
        } else {
            Seq::empty()
        }) + keywords_from(rows, pairs, i + 1)
    }
}

/// The document keywords: the frequency table sorted by ascending count,
/// restricted to words that are exclusively nouns.
pub open spec fn keywords_spec(
    rows: Seq<(Seq<char>, Category, Seq<char>)>,
    ts: Seq<Seq<char>>,
) -> Seq<Seq<char>> {
    keywords_from(rows, sort_by_count(pairs_of(ts)), 0)
}

/// Extracts the keywords of the document whose frequency table is `t`.
pub fn extract_keywords(lem: &Lemmatizer, t: &FreqTable, Ghost(ts): Ghost<Seq<Seq<char>>>) -> (r:
    Vec<Vec<char>>)
    requires
        t.matches(ts),
    ensures
        views_of(r@) == keywords_spec(lem@, ts),
{
    let sorted = sorted_pairs(t, Ghost(ts));
    let ghost p = pview(sorted@);
    let mut out: Vec<Vec<char>> = Vec::new();
    let mut i: usize = 0;
    while i < sorted.len()
        invariant
            i <= sorted@.len(),
            p == pview(sorted@),
            p == sort_by_count(pairs_of(ts)),
            views_of(out@) + keywords_from(lem@, p, i as int) == keywords_from(lem@, p, 0),
        decreases sorted@.len() - i,
    {
        let ghost out0 = out@;
        let (n, v, a, d) = lem.classify_chars(&sorted[i].word);
        if n && !v && !a && !d {
            let w = copy_chars(&sorted[i].word);
            out.push(w);
            proof {
                assert(views_of(out@) =~= views_of(out0).push(p[i as int].0));
                assert(views_of(out0) + (seq![p[i as int].0] + keywords_from(lem@, p, i + 1))
                    =~= views_of(out@) + keywords_from(lem@, p, i + 1));
            }
        } else {
            proof {
                assert(views_of(out0) + (Seq::<Seq<char>>::empty() + keywords_from(
                    lem@,
                    p,
                    i + 1,
                )) =~= views_of(out0) + keywords_from(lem@, p, i + 1));
            }
        }
        i = i + 1;
    }
    proof {
        assert(views_of(out@) + keywords_from(lem@, p, sorted@.len() as int) =~= views_of(out@));
    }
    out
}

} // verus!

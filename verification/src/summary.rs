//! The summarization pipeline.
//!
//! A `Summary` holds the lemma dictionary and the stop-word set. Its
//! `summarize` operation segments the text into sentences, normalizes each
//! sentence into lemma tokens, counts lemma frequencies over the document,
//! selects the highest-weighted sentences, and extracts the noun-only
//! keywords.

use vstd::prelude::*;
use crate::chars::{copy_chars, chars_eq};
use crate::strings::{chars_of, string_of, to_lower, lower_of, views_of, str_views};
use crate::tokens::{split_ws, join_ws, split_whitespace, join_whitespace};
use crate::lemmatizer::{Category, DictEntry, Lemmatizer, dict_view, lemma_phrase_spec};
use crate::segmenter::cut_spec;
use crate::ranker::{
    FreqTable, build_table, phrase_weight, select_top, extract_keywords, sentence_weight,
    keywords_spec, is_top_selection, min_int, weight_upto,
};
use vstd::string::StringExecFns;

verus! {

/// A character stripped before normalization: the period, the comma, the
/// straight quotes and the curly quote variants.
pub open spec fn is_stripped(c: char) -> bool {
    c == '.' || c == ',' || c == '"' || c == '\u{201d}' || c == '\u{2019}' || c == '\u{2018}'
        || c == '\u{201c}' || c == '\''
}

/// `s[i..]` with every stripped character removed.
pub open spec fn strip_punct(s: Seq<char>, i: int) -> Seq<char>
    decreases s.len() - i,
{
    if i < 0 || i >= s.len() {
        Seq::empty()
    } else {
        (if is_stripped(s[i]) {
            Seq::empty()
        } else {
            seq![s[i]]
        }) + strip_punct(s, i + 1)
    }
}

fn strip_punctuation(v: &Vec<char>) -> (r: Vec<char>)
    ensures
        r@ == strip_punct(v@, 0),
{
    let mut out: Vec<char> = Vec::new();
    let mut i: usize = 0;
    while i < v.len()
        invariant
            i <= v.len(),
            out@ + strip_punct(v@, i as int) == strip_punct(v@, 0),
        decreases v.len() - i,
    {
        let ghost out0 = out@;
        let c = v[i];
        if c == '.' || c == ',' || c == '"' || c == '\u{201d}' || c == '\u{2019}'
            || c == '\u{2018}' || c == '\u{201c}' || c == '\'' {
            proof {
                assert(out0 + (Seq::<char>::empty() + strip_punct(v@, i + 1)) =~= out0
                    + strip_punct(v@, i + 1));
            }
        } else {
            out.push(c);
            proof {
                assert(out0 + (seq![v@[i as int]] + strip_punct(v@, i + 1)) =~= out@ + strip_punct(
                    v@,
                    i + 1,
                ));
            }
        }
        i = i + 1;
    }
    proof {
        assert(out@ + strip_punct(v@, i as int) =~= out@);
    }
    out
}

/// The words of `parts[i..]` that are not stop words, in order.
pub open spec fn drop_stops(parts: Seq<Seq<char>>, stops: Seq<Seq<char>>, i: int) -> Seq<
    Seq<char>,
>
    decreases parts.len() - i,
{
    if i < 0 || i >= parts.len() {
        Seq::empty()
    } else {
        (if stops.contains(parts[i]) {
            Seq::empty()
        } else {
            seq![parts[i]]
        }) + drop_stops(parts, stops, i + 1)
    }
}

fn contains_word(stops: &Vec<Vec<char>>, w: &Vec<char>) -> (r: bool)
    ensures
        r == views_of(stops@).contains(w@),
{
    let mut k: usize = 0;
    while k < stops.len()
        invariant
            k <= stops.len(),
            forall|m: int| 0 <= m < k ==> views_of(stops@)[m] != w@,
        decreases stops.len() - k,
    {
        if chars_eq(&stops[k], w) {
            assert(views_of(stops@)[k as int] == w@);
            return true;
        }
        k = k + 1;
    }
    false
}

fn remove_stop_words(parts: &Vec<Vec<char>>, stops: &Vec<Vec<char>>) -> (r: Vec<Vec<char>>)
    ensures
        views_of(r@) == drop_stops(views_of(parts@), views_of(stops@), 0),
{
    let ghost pv = views_of(parts@);
    let ghost sv = views_of(stops@);
    let mut out: Vec<Vec<char>> = Vec::new();
    let mut i: usize = 0;
    while i < parts.len()
        invariant
            i <= parts.len(),
            pv == views_of(parts@),
            sv == views_of(stops@),
            views_of(out@) + drop_stops(pv, sv, i as int) == drop_stops(pv, sv, 0),
        decreases parts.len() - i,
    {
        let ghost out0 = out@;
        if contains_word(stops, &parts[i]) {
            proof {
                assert(views_of(out0) + (Seq::<Seq<char>>::empty() + drop_stops(pv, sv, i + 1))
                    =~= views_of(out0) + drop_stops(pv, sv, i + 1));
            }
        } else {
            let w = copy_chars(&parts[i]);
            out.push(w);
            proof {
                assert(views_of(out@) =~= views_of(out0).push(pv[i as int]));
                assert(views_of(out0) + (seq![pv[i as int]] + drop_stops(pv, sv, i + 1))
                    =~= views_of(out@) + drop_stops(pv, sv, i + 1));
            }
        }
        i = i + 1;
    }
    proof {
        assert(views_of(out@) + drop_stops(pv, sv, parts@.len() as int) =~= views_of(out@));
    }
    out
}

/// The lower-cased, stop-word-free form of a phrase, words joined by
/// single spaces.
pub open spec fn process_words_spec(stops: Seq<Seq<char>>, s: Seq<char>) -> Seq<char> {
    join_ws(drop_stops(split_ws(lower_of(s)), stops, 0))
}

/// A phrase lemmatized toward its noun forms, then its verb, adjective and
/// adverb forms, each pass consuming the previous pass's output.
pub open spec fn cut4_spec(rows: Seq<(Seq<char>, Category, Seq<char>)>, s: Seq<char>) -> Seq<
    char,
> {
    lemma_phrase_spec(
        rows,
        Category::Adverb,
        lemma_phrase_spec(
            rows,
            Category::Adjective,
            lemma_phrase_spec(rows, Category::Verb, lemma_phrase_spec(rows, Category::Noun, s)),
        ),
    )
}

/// The fully normalized form of one sentence: punctuation stripped, case
/// folded, stop words removed, lemmatized under the four categories.
pub open spec fn normalized_sentence_spec(
    rows: Seq<(Seq<char>, Category, Seq<char>)>,
    stops: Seq<Seq<char>>,
    s: Seq<char>,
) -> Seq<char> {
    cut4_spec(rows, process_words_spec(stops, strip_punct(s, 0)))
}

/// The normalized tokens of one sentence.
pub open spec fn sentence_tokens_spec(
    rows: Seq<(Seq<char>, Category, Seq<char>)>,
    stops: Seq<Seq<char>>,
    s: Seq<char>,
) -> Seq<Seq<char>> {
    split_ws(normalized_sentence_spec(rows, stops, s))
}

/// The normalized token list of every sentence of the document.
pub open spec fn doc_token_lists(
    rows: Seq<(Seq<char>, Category, Seq<char>)>,
    stops: Seq<Seq<char>>,
    text: Seq<char>,
) -> Seq<Seq<Seq<char>>> {
    cut_spec(text).map_values(|s: Seq<char>| sentence_tokens_spec(rows, stops, s))
}

/// The tokens of the first `i` token lists, flattened in order.
pub open spec fn flat_prefix(tls: Seq<Seq<Seq<char>>>, i: int) -> Seq<Seq<char>>
    decreases i,
{
    if i <= 0 || i > tls.len() {
        Seq::empty()
    } else {
        flat_prefix(tls, i - 1) + tls[i - 1]
    }
}

/// Every normalized token of the document, in order.
pub open spec fn doc_tokens(
    rows: Seq<(Seq<char>, Category, Seq<char>)>,
    stops: Seq<Seq<char>>,
    text: Seq<char>,
) -> Seq<Seq<char>> {
    flat_prefix(doc_token_lists(rows, stops, text), doc_token_lists(rows, stops, text).len() as int)
}

/// The weight of every sentence of the document.
pub open spec fn doc_weights(
    rows: Seq<(Seq<char>, Category, Seq<char>)>,
    stops: Seq<Seq<char>>,
    text: Seq<char>,
) -> Seq<usize> {
    Seq::new(
        doc_token_lists(rows, stops, text).len(),
        |i: int|
            sentence_weight(
                rows,
                doc_tokens(rows, stops, text),
                doc_token_lists(rows, stops, text)[i],
            ) as usize,
    )
}

/// The sentences marked by `flags`, in document order.
pub open spec fn select_by_flags(xs: Seq<Seq<char>>, flags: Seq<bool>, i: int) -> Seq<Seq<char>>
    decreases xs.len() - i,
{
    if i < 0 || i >= xs.len() {
        Seq::empty()
    } else {
        (if 0 <= i < flags.len() && flags[i] {
            seq![xs[i]]
        } else {
            Seq::empty()
        }) + select_by_flags(xs, flags, i + 1)
    }
}

pub proof fn lemma_weight_in_range(
    rows: Seq<(Seq<char>, Category, Seq<char>)>,
    ts: Seq<Seq<char>>,
    toks: Seq<Seq<char>>,
    j: int,
)
    ensures
        0 <= weight_upto(rows, ts, toks, j) <= usize::MAX,
    decreases j,
{
    if 0 < j <= toks.len() {
        lemma_weight_in_range(rows, ts, toks, j - 1);
        crate::ranker::lemma_count_occ_bounds(ts, toks[j - 1]);
    }
}

proof fn lemma_flat_contains(tls: Seq<Seq<Seq<char>>>, n: int, i: int, k: int)
    requires
        0 <= i < n <= tls.len(),
        0 <= k < tls[i].len(),
    ensures
        flat_prefix(tls, n).contains(tls[i][k]),
    decreases n,
{
    if i == n - 1 {
        assert(flat_prefix(tls, n)[flat_prefix(tls, n - 1).len() + k] == tls[i][k]);
    } else {
        lemma_flat_contains(tls, n - 1, i, k);
        let m = choose|m: int|
            0 <= m < flat_prefix(tls, n - 1).len() && #[trigger] flat_prefix(tls, n - 1)[m]
                == tls[i][k];
        assert(flat_prefix(tls, n)[m] == tls[i][k]);
    }
}

/// Part of the stop-word set.
pub open spec fn stop_words_1() -> Seq<Seq<char>> {
    seq!["a"@, "able"@, "about"@, "across"@, "after"@, "all"@, "almost"@, "also"@, "am"@, "among"@, "an"@, "and"@, "any"@, "are"@, "as"@]
}

/// Part of the stop-word set.
pub open spec fn stop_words_2() -> Seq<Seq<char>> {
    seq!["at"@, "be"@, "because"@, "been"@, "but"@, "by"@, "can"@, "cannot"@, "could"@, "dear"@, "did"@, "do"@, "does"@, "either"@, "else"@]
}

/// Part of the stop-word set.
pub open spec fn stop_words_3() -> Seq<Seq<char>> {
    seq!["ever"@, "every"@, "for"@, "from"@, "get"@, "got"@, "had"@, "has"@, "have"@, "he"@, "her"@, "hers"@, "him"@, "his"@, "how"@]
}

/// Part of the stop-word set.
pub open spec fn stop_words_4() -> Seq<Seq<char>> {
    seq!["however"@, "i"@, "if"@, "in"@, "into"@, "is"@, "it"@, "its"@, "just"@, "least"@, "let"@, "like"@, "likely"@, "may"@, "me"@]
}

/// Part of the stop-word set.
pub open spec fn stop_words_5() -> Seq<Seq<char>> {
    seq!["might"@, "most"@, "must"@, "my"@, "neither"@, "no"@, "nor"@, "not"@, "of"@, "off"@, "often"@, "on"@, "only"@, "or"@, "other"@]
}

/// Part of the stop-word set.
pub open spec fn stop_words_6() -> Seq<Seq<char>> {
    seq!["our"@, "own"@, "rather"@, "said"@, "say"@, "says"@, "she"@, "should"@, "since"@, "so"@, "some"@, "than"@, "that"@, "the"@, "their"@]
}

/// Part of the stop-word set.
pub open spec fn stop_words_7() -> Seq<Seq<char>> {
    seq!["them"@, "then"@, "there"@, "these"@, "they"@, "this"@, "tis"@, "to"@, "too"@, "twas"@, "us"@, "wants"@, "was"@, "we"@, "were"@]
}

/// Part of the stop-word set.
pub open spec fn stop_words_8() -> Seq<Seq<char>> {
    seq!["what"@, "when"@, "where"@, "which"@, "while"@, "who"@, "whom"@, "why"@, "will"@, "with"@, "would"@, "yet"@, "you"@, "your"@]
}

/// The built-in stop-word set: common English function words.
pub open spec fn stop_words_spec() -> Seq<Seq<char>> {
    stop_words_1() + stop_words_2() + stop_words_3() + stop_words_4() + stop_words_5() + stop_words_6() + stop_words_7() + stop_words_8()
}

fn push_stop_words_1(v: &mut Vec<Vec<char>>)
    ensures
        views_of(final(v)@) == views_of(old(v)@) + stop_words_1(),
{
    let ghost v0 = views_of(v@);
    v.push(chars_of("a"));
    v.push(chars_of("able"));
    v.push(chars_of("about"));
    v.push(chars_of("across"));
    v.push(chars_of("after"));
    v.push(chars_of("all"));
    v.push(chars_of("almost"));
    v.push(chars_of("also"));
    v.push(chars_of("am"));
    v.push(chars_of("among"));
    v.push(chars_of("an"));
    v.push(chars_of("and"));
    v.push(chars_of("any"));
    v.push(chars_of("are"));
    v.push(chars_of("as"));
    proof {
        assert(views_of(v@) =~= v0 + stop_words_1());
    }
}

fn push_stop_words_2(v: &mut Vec<Vec<char>>)
    ensures
        views_of(final(v)@) == views_of(old(v)@) + stop_words_2(),
{
    let ghost v0 = views_of(v@);
    v.push(chars_of("at"));
    v.push(chars_of("be"));
    v.push(chars_of("because"));
    v.push(chars_of("been"));
    v.push(chars_of("but"));
    v.push(chars_of("by"));
    v.push(chars_of("can"));
    v.push(chars_of("cannot"));
    v.push(chars_of("could"));
    v.push(chars_of("dear"));
    v.push(chars_of("did"));
    v.push(chars_of("do"));
    v.push(chars_of("does"));
    v.push(chars_of("either"));
    v.push(chars_of("else"));
    proof {
        assert(views_of(v@) =~= v0 + stop_words_2());
    }
}

fn push_stop_words_3(v: &mut Vec<Vec<char>>)
    ensures
        views_of(final(v)@) == views_of(old(v)@) + stop_words_3(),
{
    let ghost v0 = views_of(v@);
    v.push(chars_of("ever"));
    v.push(chars_of("every"));
    v.push(chars_of("for"));
    v.push(chars_of("from"));
    v.push(chars_of("get"));
    v.push(chars_of("got"));
    v.push(chars_of("had"));
    v.push(chars_of("has"));
    v.push(chars_of("have"));
    v.push(chars_of("he"));
    v.push(chars_of("her"));
    v.push(chars_of("hers"));
    v.push(chars_of("him"));
    v.push(chars_of("his"));
    v.push(chars_of("how"));
    proof {
        assert(views_of(v@) =~= v0 + stop_words_3());
    }
}

fn push_stop_words_4(v: &mut Vec<Vec<char>>)
    ensures
        views_of(final(v)@) == views_of(old(v)@) + stop_words_4(),
{
    let ghost v0 = views_of(v@);
    v.push(chars_of("however"));
    v.push(chars_of("i"));
    v.push(chars_of("if"));
    v.push(chars_of("in"));
    v.push(chars_of("into"));
    v.push(chars_of("is"));
    v.push(chars_of("it"));
    v.push(chars_of("its"));
    v.push(chars_of("just"));
    v.push(chars_of("least"));
    v.push(chars_of("let"));
    v.push(chars_of("like"));
    v.push(chars_of("likely"));
    v.push(chars_of("may"));
    v.push(chars_of("me"));
    proof {
        assert(views_of(v@) =~= v0 + stop_words_4());
    }
}

fn push_stop_words_5(v: &mut Vec<Vec<char>>)
    ensures
        views_of(final(v)@) == views_of(old(v)@) + stop_words_5(),
{
    let ghost v0 = views_of(v@);
    v.push(chars_of("might"));
    v.push(chars_of("most"));
    v.push(chars_of("must"));
    v.push(chars_of("my"));
    v.push(chars_of("neither"));
    v.push(chars_of("no"));
    v.push(chars_of("nor"));
    v.push(chars_of("not"));
    v.push(chars_of("of"));
    v.push(chars_of("off"));
    v.push(chars_of("often"));
    v.push(chars_of("on"));
    v.push(chars_of("only"));
    v.push(chars_of("or"));
    v.push(chars_of("other"));
    proof {
        assert(views_of(v@) =~= v0 + stop_words_5());
    }
}

fn push_stop_words_6(v: &mut Vec<Vec<char>>)
    ensures
        views_of(final(v)@) == views_of(old(v)@) + stop_words_6(),
{
    let ghost v0 = views_of(v@);
    v.push(chars_of("our"));
    v.push(chars_of("own"));
    v.push(chars_of("rather"));
    v.push(chars_of("said"));
    v.push(chars_of("say"));
    v.push(chars_of("says"));
    v.push(chars_of("she"));
    v.push(chars_of("should"));
    v.push(chars_of("since"));
    v.push(chars_of("so"));
    v.push(chars_of("some"));
    v.push(chars_of("than"));
    v.push(chars_of("that"));
    v.push(chars_of("the"));
    v.push(chars_of("their"));
    proof {
        assert(views_of(v@) =~= v0 + stop_words_6());
    }
}

fn push_stop_words_7(v: &mut Vec<Vec<char>>)
    ensures
        views_of(final(v)@) == views_of(old(v)@) + stop_words_7(),
{
    let ghost v0 = views_of(v@);
    v.push(chars_of("them"));
    v.push(chars_of("then"));
    v.push(chars_of("there"));
    v.push(chars_of("these"));
    v.push(chars_of("they"));
    v.push(chars_of("this"));
    v.push(chars_of("tis"));
    v.push(chars_of("to"));
    v.push(chars_of("too"));
    v.push(chars_of("twas"));
    v.push(chars_of("us"));
    v.push(chars_of("wants"));
    v.push(chars_of("was"));
    v.push(chars_of("we"));
    v.push(chars_of("were"));
    proof {
        assert(views_of(v@) =~= v0 + stop_words_7());
    }
}

fn push_stop_words_8(v: &mut Vec<Vec<char>>)
    ensures
        views_of(final(v)@) == views_of(old(v)@) + stop_words_8(),
{
    let ghost v0 = views_of(v@);
    v.push(chars_of("what"));
    v.push(chars_of("when"));
    v.push(chars_of("where"));
    v.push(chars_of("which"));
    v.push(chars_of("while"));
    v.push(chars_of("who"));
    v.push(chars_of("whom"));
    v.push(chars_of("why"));
    v.push(chars_of("will"));
    v.push(chars_of("with"));
    v.push(chars_of("would"));
    v.push(chars_of("yet"));
    v.push(chars_of("you"));
    v.push(chars_of("your"));
    proof {
        assert(views_of(v@) =~= v0 + stop_words_8());
    }
}

fn stop_word_list() -> (r: Vec<Vec<char>>)
    ensures
        views_of(r@) == stop_words_spec(),
{
    let mut v: Vec<Vec<char>> = Vec::new();
    proof {
        assert(views_of(v@) =~= Seq::<Seq<char>>::empty());
    }
    push_stop_words_1(&mut v);
    push_stop_words_2(&mut v);
    push_stop_words_3(&mut v);
    push_stop_words_4(&mut v);
    push_stop_words_5(&mut v);
    push_stop_words_6(&mut v);
    push_stop_words_7(&mut v);
    push_stop_words_8(&mut v);
    proof {
        assert(views_of(v@) =~= stop_words_spec());
    }
    v
}

/// The summarization pipeline: the lemma dictionary and the stop-word set.
pub struct Summary {
    lemmatizer: Lemmatizer,
    stop_words: Vec<Vec<char>>,
}

impl Summary {
    /// The dictionary rows.
    pub closed spec fn rows(&self) -> Seq<(Seq<char>, Category, Seq<char>)> {
        self.lemmatizer@
    }

    /// The stop-word set.
    pub closed spec fn stops(&self) -> Seq<Seq<char>> {
        views_of(self.stop_words@)
    }

    /// Builds the pipeline around a lemma dictionary, with the built-in
    /// stop-word set.
    pub fn new(dictionary: &Vec<DictEntry>) -> (r: Summary)
        ensures
            r.rows() == dict_view(dictionary@),
            r.stops() == stop_words_spec(),
    {
        Summary { lemmatizer: Lemmatizer::new(dictionary), stop_words: stop_word_list() }
    }

    /// Lower-cases the phrase, splits it on white space, and drops the
    /// stop words; the surviving words are joined by single spaces.
    pub fn process_words(&self, phrase: &str) -> (r: String)
        ensures
            r@ == process_words_spec(self.stops(), phrase@),
    {
        let low = to_lower(phrase);
        let lowv = chars_of(low.as_str());
        let parts = split_whitespace(&lowv);
        let kept = remove_stop_words(&parts, &self.stop_words);
        let joined = join_whitespace(&kept);
        string_of(&joined)
    }

    /// Lemmatizes the phrase toward noun, verb, adjective and adverb base
    /// forms, in that order.
    pub fn cut(&self, phrase: &str) -> (r: String)
        ensures
            r@ == cut4_spec(self.rows(), phrase@),
    {
        let v = chars_of(phrase);
        let out = self.cut_chars(&v);
        string_of(&out)
    }

    fn cut_chars(&self, v: &Vec<char>) -> (r: Vec<char>)
        ensures
            r@ == cut4_spec(self.rows(), v@),
    {
        let a = self.lemmatizer.lemmatize_chars(Category::Noun, v);
        let b = self.lemmatizer.lemmatize_chars(Category::Verb, &a);
        let c = self.lemmatizer.lemmatize_chars(Category::Adjective, &b);
        self.lemmatizer.lemmatize_chars(Category::Adverb, &c)
    }

    /// The fully normalized form of one sentence, as characters.
    fn normalize_chars(&self, sent: &Vec<char>) -> (r: Vec<char>)
        ensures
            r@ == normalized_sentence_spec(self.rows(), self.stops(), sent@),
    {
        let stripped = strip_punctuation(sent);
        let sstr = string_of(&stripped);
        let low = to_lower(sstr.as_str());
        let lowv = chars_of(low.as_str());
        let parts = split_whitespace(&lowv);
        let kept = remove_stop_words(&parts, &self.stop_words);
        let joined = join_whitespace(&kept);
        self.cut_chars(&joined)
    }

    /// The normalized tokens of one sentence.
    fn sentence_tokens(&self, sent: &Vec<char>) -> (r: Vec<Vec<char>>)
        ensures
            views_of(r@) == sentence_tokens_spec(self.rows(), self.stops(), sent@),
    {
        let n = self.normalize_chars(sent);
        split_whitespace(&n)
    }

    /// Segments the text and pairs each sentence's normalized form with
    /// its raw text.
    pub fn process_phrases(&self, phrases: &str) -> (r: Vec<Vec<String>>)
        ensures
            r@.len() == cut_spec(phrases@).len(),
            forall|i: int|
                0 <= i < r@.len() ==> #[trigger] r@[i]@.len() == 2 && r@[i]@[0]@
                    == normalized_sentence_spec(self.rows(), self.stops(), cut_spec(phrases@)[i])
                    && r@[i]@[1]@ == cut_spec(phrases@)[i],
    {
        let text = String::from_str(phrases);
        let sentences = crate::segmenter::cut(&text);
        let ghost sv = str_views(sentences@);
        let mut out: Vec<Vec<String>> = Vec::new();
        let mut i: usize = 0;
        while i < sentences.len()
            invariant
                i <= sentences.len(),
                sv == str_views(sentences@),
                sv == cut_spec(phrases@),
                out@.len() == i,
                forall|m: int|
                    0 <= m < i ==> #[trigger] out@[m]@.len() == 2 && out@[m]@[0]@
                        == normalized_sentence_spec(self.rows(), self.stops(), sv[m]) && out@[m]@[1]@
                        == sv[m],
            decreases sentences.len() - i,
        {
            let ghost out0 = out@;
            let sent = chars_of(sentences[i].as_str());
            let norm = self.normalize_chars(&sent);
            let mut pair: Vec<String> = Vec::new();
            pair.push(string_of(&norm));
            pair.push(sentences[i].clone());
            proof {
                assert(pair@.len() == 2);
                assert(pair@[0]@ == normalized_sentence_spec(self.rows(), self.stops(), sv[i as int]));
                assert(pair@[1]@ == sv[i as int]);
            }
            out.push(pair);
            proof {
                assert(forall|m: int| 0 <= m < i ==> out@[m] == out0[m]);
                assert(out@[i as int] == pair);
            }
            i = i + 1;
        }
        out
    }

    /// Summarizes `phrases`: returns the raw text of the `max_phrases`
    /// highest-weighted sentences in document order, and the keyword list.
    ///
    /// The selected sentences are exactly a top selection of the sentence
    /// weights: as many sentences as the quota and the sentence count
    /// allow, every selected sentence beating every unselected one by
    /// higher weight or, at equal weight, smaller index.
    pub fn summarize(&mut self, phrases: &str, max_phrases: u32) -> (r: (Vec<String>, Vec<String>))
        ensures
            final(self).rows() == old(self).rows(),
            final(self).stops() == old(self).stops(),
            exists|flags: Seq<bool>|
                is_top_selection(
                    doc_weights(old(self).rows(), old(self).stops(), phrases@),
                    min_int(max_phrases as int, cut_spec(phrases@).len() as int),
                    flags,
                ) && str_views(r.0@) == select_by_flags(cut_spec(phrases@), flags, 0),
            str_views(r.1@) == keywords_spec(
                old(self).rows(),
                doc_tokens(old(self).rows(), old(self).stops(), phrases@),
            ),
    {
        let ghost rows = self.rows();
        let ghost stops = self.stops();
        let text = String::from_str(phrases);
        let sentences = crate::segmenter::cut(&text);
        let ghost sv = str_views(sentences@);
        let ghost tls = doc_token_lists(rows, stops, phrases@);

        // Normalized tokens of every sentence.
        let mut token_lists: Vec<Vec<Vec<char>>> = Vec::new();
        let mut i: usize = 0;
        while i < sentences.len()
            invariant
                i <= sentences.len(),
                sv == str_views(sentences@),
                sv == cut_spec(phrases@),
                rows == self.rows(),
                stops == self.stops(),
                tls == doc_token_lists(rows, stops, phrases@),
                token_lists@.len() == i,
                forall|m: int|
                    0 <= m < i ==> views_of(#[trigger] token_lists@[m]@) == tls[m],
            decreases sentences.len() - i,
        {
            let sent = chars_of(sentences[i].as_str());
            let toks = self.sentence_tokens(&sent);
            token_lists.push(toks);
            i = i + 1;
        }

        // All tokens of the document, flattened.
        let ghost ts = doc_tokens(rows, stops, phrases@);
        let mut all_tokens: Vec<Vec<char>> = Vec::new();
        let mut i2: usize = 0;
        while i2 < token_lists.len()
            invariant
                i2 <= token_lists@.len(),
                token_lists@.len() == tls.len(),
                forall|m: int|
                    0 <= m < tls.len() ==> views_of(#[trigger] token_lists@[m]@) == tls[m],
                views_of(all_tokens@) == flat_prefix(tls, i2 as int),
            decreases token_lists@.len() - i2,
        {
            let mut j: usize = 0;
            while j < token_lists[i2].len()
                invariant
                    i2 < token_lists@.len(),
                    token_lists@.len() == tls.len(),
                    forall|m: int|
                        0 <= m < tls.len() ==> views_of(#[trigger] token_lists@[m]@) == tls[m],
                    j <= token_lists@[i2 as int]@.len(),
                    views_of(all_tokens@) == flat_prefix(tls, i2 as int) + tls[i2 as int].subrange(
                        0,
                        j as int,
                    ),
                decreases token_lists@[i2 as int]@.len() - j,
            {
                let ghost a0 = all_tokens@;
                let w = copy_chars(&token_lists[i2][j]);
                all_tokens.push(w);
                proof {
                    assert(views_of(all_tokens@) =~= views_of(a0).push(tls[i2 as int][j as int]));
                    assert(views_of(a0).push(tls[i2 as int][j as int]) =~= flat_prefix(
                        tls,
                        i2 as int,
                    ) + tls[i2 as int].subrange(0, j + 1));
                }
                j = j + 1;
            }
            proof {
                assert(tls[i2 as int].subrange(0, tls[i2 as int].len() as int) =~= tls[i2 as int]);
                assert(flat_prefix(tls, i2 + 1) == flat_prefix(tls, i2 as int) + tls[i2 as int]);
            }
            i2 = i2 + 1;
        }
        proof {
            assert(views_of(all_tokens@) == flat_prefix(tls, tls.len() as int));
            assert(views_of(all_tokens@) == ts);
        }

        // Document frequency table.
        let table = build_table(&all_tokens);

        // Sentence weights.
        let mut weights: Vec<usize> = Vec::new();
        let mut i3: usize = 0;
        while i3 < token_lists.len()
            invariant
                i3 <= token_lists@.len(),
                token_lists@.len() == tls.len(),
                rows == self.rows(),
                stops == self.stops(),
                forall|m: int|
                    0 <= m < tls.len() ==> views_of(#[trigger] token_lists@[m]@) == tls[m],
                table.matches(ts),
                ts == doc_tokens(rows, stops, phrases@),
                tls == doc_token_lists(rows, stops, phrases@),
                weights@.len() == i3,
                forall|m: int|
                    0 <= m < i3 ==> (#[trigger] weights@[m]) as int == sentence_weight(
                        rows,
                        ts,
                        tls[m],
                    ),
            decreases token_lists@.len() - i3,
        {
            proof {
                assert forall|k: int|
                    0 <= k < token_lists@[i3 as int]@.len() implies ts.contains(
                    #[trigger] token_lists@[i3 as int]@[k]@,
                ) by {
                    assert(token_lists@[i3 as int]@[k]@ == tls[i3 as int][k]);
                    lemma_flat_contains(tls, tls.len() as int, i3 as int, k);
                }
            }
            let w = phrase_weight(&self.lemmatizer, &table, &token_lists[i3], Ghost(ts));
            weights.push(w);
            i3 = i3 + 1;
        }
        proof {
            assert forall|m: int| 0 <= m < tls.len() implies (#[trigger] weights@[m])
                == doc_weights(rows, stops, phrases@)[m] by {
                lemma_weight_in_range(rows, ts, tls[m], tls[m].len() as int);
            }
            assert(weights@ =~= doc_weights(rows, stops, phrases@));
        }

        // Selection.
        let max_usize: usize = max_phrases as usize;
        let flags = select_top(&weights, max_usize);
        let mut selected: Vec<String> = Vec::new();
        let mut i4: usize = 0;
        proof {
            assert(weights@.len() == sv.len());
        }
        while i4 < sentences.len()
            invariant
                i4 <= sentences.len(),
                sv == str_views(sentences@),
                flags@.len() == sv.len(),
                str_views(selected@) + select_by_flags(sv, flags@, i4 as int) == select_by_flags(
                    sv,
                    flags@,
                    0,
                ),
            decreases sentences.len() - i4,
        {
            let ghost s0 = selected@;
            if flags[i4] {
                selected.push(sentences[i4].clone());
                proof {
                    assert(str_views(selected@) =~= str_views(s0).push(sv[i4 as int]));
                    assert(str_views(s0) + (seq![sv[i4 as int]] + select_by_flags(
                        sv,
                        flags@,
                        i4 + 1,
                    )) =~= str_views(selected@) + select_by_flags(sv, flags@, i4 + 1));
                }
            } else {
                proof {
                    assert(str_views(s0) + (Seq::<Seq<char>>::empty() + select_by_flags(
                        sv,
                        flags@,
                        i4 + 1,
                    )) =~= str_views(s0) + select_by_flags(sv, flags@, i4 + 1));
                }
            }
            i4 = i4 + 1;
        }
        proof {
            assert(str_views(selected@) + select_by_flags(sv, flags@, sv.len() as int)
                =~= str_views(selected@));
        }

        // Keywords.
        let kw = extract_keywords(&self.lemmatizer, &table, Ghost(ts));
        let ghost kv = views_of(kw@);
        let mut keywords: Vec<String> = Vec::new();
        let mut i5: usize = 0;
        while i5 < kw.len()
            invariant
                i5 <= kw@.len(),
                kv == views_of(kw@),
                str_views(keywords@) =~= kv.subrange(0, i5 as int),
            decreases kw@.len() - i5,
        {
            let ghost k0 = keywords@;
            keywords.push(string_of(&kw[i5]));
            proof {
                assert(str_views(keywords@) =~= str_views(k0).push(kv[i5 as int]));
                assert(kv.subrange(0, i5 + 1) =~= kv.subrange(0, i5 as int).push(kv[i5 as int]));
            }
            i5 = i5 + 1;
        }
        proof {
            assert(kv.subrange(0, kv.len() as int) =~= kv);
            assert(is_top_selection(
                doc_weights(rows, stops, phrases@),
                min_int(max_phrases as int, cut_spec(phrases@).len() as int),
                flags@,
            ));
        }
        (selected, keywords)
    }
}

} // verus!

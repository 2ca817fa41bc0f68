//! The morphological dictionary.
//!
//! A `Lemmatizer` holds plain dictionary rows: under a grammatical
//! category, a word has a base form. `lemmatize` rewrites each word of a
//! phrase to its base form for one category, and `classify` reports every
//! category a word is attested under.

use vstd::prelude::*;
use crate::chars::{chars_eq, push_range};
use crate::strings::{chars_of, string_of, views_of};
use crate::tokens::{split_ws, join_ws, split_whitespace, join_whitespace};

verus! {

/// A grammatical category of the dictionary.
#[derive(Clone, Copy, PartialEq, Eq, Structural, Debug)]
pub enum Category {
    Noun,
    Verb,
    Adjective,
    Adverb,
}

/// One dictionary row: under `category`, `word` has base form `lemma`.
pub struct DictEntry {
    pub word: String,
    pub category: Category,
    pub lemma: String,
}

struct Row {
    word: Vec<char>,
    category: Category,
    lemma: Vec<char>,
}

/// The dictionary, ready for lookup.
pub struct Lemmatizer {
    rows: Vec<Row>,
}

impl View for Lemmatizer {
    type V = Seq<(Seq<char>, Category, Seq<char>)>;

    closed spec fn view(&self) -> Seq<(Seq<char>, Category, Seq<char>)> {
        self.rows@.map_values(|r: Row| (r.word@, r.category, r.lemma@))
    }
}

/// The rows described by a sequence of dictionary entries.
pub open spec fn dict_view(entries: Seq<DictEntry>) -> Seq<(Seq<char>, Category, Seq<char>)> {
    entries.map_values(|e: DictEntry| (e.word@, e.category, e.lemma@))
}

/// The base form of `w` under `cat`: the lemma of the first matching row,
/// or `w` itself where no row matches.
pub open spec fn lookup_lemma(
    rows: Seq<(Seq<char>, Category, Seq<char>)>,
    cat: Category,
    w: Seq<char>,
) -> Seq<char>
    decreases rows.len(),
{
    if rows.len() == 0 {
        w
    } else if rows[0].0 == w && rows[0].1 == cat {
        rows[0].2
    } else {
        lookup_lemma(rows.drop_first(), cat, w)
    }
}

/// `w` is attested under `cat`.
pub open spec fn attested(
    rows: Seq<(Seq<char>, Category, Seq<char>)>,
    w: Seq<char>,
    cat: Category,
) -> bool {
    exists|k: int| 0 <= k < rows.len() && rows[k].0 == w && rows[k].1 == cat
}

/// Each word of the phrase replaced by its base form under `cat`.
pub open spec fn lemma_phrase_spec(
    rows: Seq<(Seq<char>, Category, Seq<char>)>,
    cat: Category,
    s: Seq<char>,
) -> Seq<char> {
    join_ws(split_ws(s).map_values(|w: Seq<char>| lookup_lemma(rows, cat, w)))
}

impl Lemmatizer {
    /// Builds the dictionary from plain entries.
    pub fn new(entries: &Vec<DictEntry>) -> (r: Lemmatizer)
        ensures
            r@ == dict_view(entries@),
    {
        let mut rows: Vec<Row> = Vec::new();
        let mut i: usize = 0;
        while i < entries.len()
            invariant
                i <= entries.len(),
                rows@.len() == i,
                forall|m: int|
                    0 <= m < i ==> rows@[m].word@ == entries@[m].word@ && rows@[m].category
                        == entries@[m].category && rows@[m].lemma@ == entries@[m].lemma@,
            decreases entries.len() - i,
        {
            let e = &entries[i];
            let row = Row {
                word: chars_of(e.word.as_str()),
                category: e.category,
                lemma: chars_of(e.lemma.as_str()),
            };
            rows.push(row);
            i = i + 1;
        }
        let r = Lemmatizer { rows };
        proof {
            assert(r@ =~~= dict_view(entries@));
        }
        r
    }

    /// The base form of one word under `cat`.
    fn lemma_word(&self, cat: Category, w: &Vec<char>) -> (r: Vec<char>)
        ensures
            r@ == lookup_lemma(self@, cat, w@),
    {
        proof {
            assert(self@.skip(0) =~= self@);
        }
        let mut k: usize = 0;
        while k < self.rows.len()
            invariant
                k <= self.rows.len(),
                lookup_lemma(self@, cat, w@) == lookup_lemma(self@.skip(k as int), cat, w@),
            decreases self.rows.len() - k,
        {
            let row = &self.rows[k];
            proof {
                assert(self@.skip(k as int)[0] == self@[k as int]);
                assert(self@.skip(k as int).drop_first() =~= self@.skip(k + 1));
            }
            if chars_eq(&row.word, w) && row.category == cat {
                let mut out: Vec<char> = Vec::new();
                push_range(&mut out, &row.lemma, 0, row.lemma.len());
                proof {
                    assert(out@ =~= row.lemma@);
                }
                return out;
            }
            k = k + 1;
        }
        proof {
            assert(self@.skip(k as int) =~= Seq::<(Seq<char>, Category, Seq<char>)>::empty());
        }
        let mut out: Vec<char> = Vec::new();
        push_range(&mut out, w, 0, w.len());
        proof {
            assert(out@ =~= w@);
        }
        out
    }

    /// `w` is attested under `cat`.
    fn attested_word(&self, w: &Vec<char>, cat: Category) -> (r: bool)
        ensures
            r == attested(self@, w@, cat),
    {
        let mut k: usize = 0;
        while k < self.rows.len()
            invariant
                k <= self.rows.len(),
                forall|m: int|
                    0 <= m < k ==> !(self@[m].0 == w@ && self@[m].1 == cat),
            decreases self.rows.len() - k,
        {
            let row = &self.rows[k];
            if chars_eq(&row.word, w) && row.category == cat {
                assert(self@[k as int].0 == w@ && self@[k as int].1 == cat);
                return true;
            }
            k = k + 1;
        }
        false
    }

    /// Each word of `v` replaced by its base form under `cat`.
    pub fn lemmatize_chars(&self, cat: Category, v: &Vec<char>) -> (r: Vec<char>)
        ensures
            r@ == lemma_phrase_spec(self@, cat, v@),
    {
        let parts = split_whitespace(v);
        let mut mapped: Vec<Vec<char>> = Vec::new();
        let mut i: usize = 0;
        while i < parts.len()
            invariant
                i <= parts.len(),
                views_of(parts@) == split_ws(v@),
                views_of(mapped@) =~= split_ws(v@).subrange(0, i as int).map_values(
                    |w: Seq<char>| lookup_lemma(self@, cat, w),
                ),
            decreases parts.len() - i,
        {
            let ghost mapped0 = mapped@;
            let m = self.lemma_word(cat, &parts[i]);
            mapped.push(m);
            proof {
                assert(views_of(mapped@) =~= views_of(mapped0).push(m@));
                assert(views_of(mapped@) =~= split_ws(v@).subrange(0, i + 1).map_values(
                    |w: Seq<char>| lookup_lemma(self@, cat, w),
                ));
            }
            i = i + 1;
        }
        proof {
            assert(split_ws(v@).subrange(0, parts@.len() as int) =~= split_ws(v@));
        }
        join_whitespace(&mapped)
    }

    /// Each word of the phrase replaced by its base form under `cat`;
    /// words without a dictionary row are kept unchanged.
    pub fn lemmatize(&self, cat: Category, phrase: &str) -> (r: String)
        ensures
            r@ == lemma_phrase_spec(self@, cat, phrase@),
    {
        let v = chars_of(phrase);
        let out = self.lemmatize_chars(cat, &v);
        string_of(&out)
    }

    /// Every category `w` is attested under: noun, verb, adjective, adverb.
    pub fn classify_chars(&self, w: &Vec<char>) -> (r: (bool, bool, bool, bool))
        ensures
            r.0 == attested(self@, w@, Category::Noun),
            r.1 == attested(self@, w@, Category::Verb),
            r.2 == attested(self@, w@, Category::Adjective),
            r.3 == attested(self@, w@, Category::Adverb),
    {
        (
            self.attested_word(w, Category::Noun),
            self.attested_word(w, Category::Verb),
            self.attested_word(w, Category::Adjective),
            self.attested_word(w, Category::Adverb),
        )
    }

    /// Every category the word is attested under.
    pub fn classify(&self, word: &str) -> (r: (bool, bool, bool, bool))
        ensures
            r.0 == attested(self@, word@, Category::Noun),
            r.1 == attested(self@, word@, Category::Verb),
            r.2 == attested(self@, word@, Category::Adjective),
            r.3 == attested(self@, word@, Category::Adverb),
    {
        let v = chars_of(word);
        self.classify_chars(&v)
    }
}

} // verus!

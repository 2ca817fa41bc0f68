use summarizer::lemmatizer::{Category, DictEntry, Lemmatizer};
use summarizer::summary::Summary;

fn entry(word: &str, category: Category, lemma: &str) -> DictEntry {
    DictEntry { word: String::from(word), category, lemma: String::from(lemma) }
}

#[test]
fn stop_word_removal() {
    let s = Summary::new(&Vec::new());
    assert_eq!(s.process_words("The cat sat"), "cat sat".to_string());
}

#[test]
fn case_folding_feeds_stop_word_removal() {
    // Upper-case input must be folded before stop words are matched and
    // before lemma lookup.
    let s = Summary::new(&Vec::new());
    assert_eq!(s.process_words("The CAT"), "cat".to_string());
}

#[test]
fn lemmatization_order_noun_first() {
    let dict = vec![entry("running", Category::Verb, "run"), entry("cats", Category::Noun, "cat")];
    let s = Summary::new(&dict);
    assert_eq!(s.cut("cats running"), "cat run".to_string());
}

#[test]
fn unknown_words_pass_through() {
    let s = Summary::new(&Vec::new());
    assert_eq!(s.cut("zebra"), "zebra".to_string());
}

#[test]
fn classify_reports_all_categories() {
    let dict = vec![entry("duck", Category::Noun, "duck"), entry("duck", Category::Verb, "duck")];
    let lem = Lemmatizer::new(&dict);
    assert_eq!(lem.classify("duck"), (true, true, false, false));
    assert_eq!(lem.classify("zebra"), (false, false, false, false));
}

#[test]
fn lemmatize_one_category() {
    let dict = vec![entry("geese", Category::Noun, "goose")];
    let lem = Lemmatizer::new(&dict);
    assert_eq!(lem.lemmatize(Category::Noun, "geese fly"), "goose fly".to_string());
    assert_eq!(lem.lemmatize(Category::Verb, "geese fly"), "geese fly".to_string());
}

#[test]
fn process_phrases_pairs_normalized_and_raw() {
    let s = Summary::new(&Vec::new());
    let pairs = s.process_phrases("Red fox. Blue fox.");
    assert_eq!(pairs.len(), 2);
    assert_eq!(pairs[0], vec!["red fox".to_string(), "Red fox.".to_string()]);
    assert_eq!(pairs[1], vec!["blue fox".to_string(), "Blue fox.".to_string()]);
}

#[test]
fn tie_break_picks_earlier_sentence() {
    let mut s = Summary::new(&Vec::new());
    let (selected, _) = s.summarize("Alpha beta one. Alpha beta two.", 1);
    assert_eq!(selected, vec!["Alpha beta one.".to_string()]);
}

#[test]
fn noun_dominance_over_frequency() {
    // "horse" is noun-only with frequency 2; "sprint" is verb-only with
    // frequency 5. The horse sentences weigh 12, each sprint sentence 10.
    let dict = vec![
        entry("horse", Category::Noun, "horse"),
        entry("sprint", Category::Verb, "sprint"),
    ];
    let mut s = Summary::new(&dict);
    let (selected, keywords) = s.summarize(
        "Horse. Horse. Sprint. Sprint. Sprint. Sprint. Sprint.",
        1,
    );
    assert_eq!(selected, vec!["Horse.".to_string()]);
    assert_eq!(keywords, vec!["horse".to_string()]);
}

#[test]
fn selection_keeps_document_order() {
    let mut s = Summary::new(&Vec::new());
    let (selected, _) = s.summarize("Red fox. Blue fox jumps. Blue fox leaps.", 2);
    assert_eq!(selected, vec!["Blue fox jumps.".to_string(), "Blue fox leaps.".to_string()]);
}

#[test]
fn keywords_sorted_by_ascending_count() {
    let dict = vec![
        entry("apple", Category::Noun, "apple"),
        entry("banana", Category::Noun, "banana"),
    ];
    let mut s = Summary::new(&dict);
    let (_, keywords) = s.summarize("Apple. Banana. Banana.", 3);
    assert_eq!(keywords, vec!["apple".to_string(), "banana".to_string()]);
}

#[test]
fn keyword_excludes_noun_verb_lemma() {
    let dict = vec![entry("duck", Category::Noun, "duck"), entry("duck", Category::Verb, "duck")];
    let mut s = Summary::new(&dict);
    let (_, keywords) = s.summarize("Duck. Duck.", 1);
    assert_eq!(keywords, Vec::<String>::new());
}

#[test]
fn empty_input_is_not_an_error() {
    let mut s = Summary::new(&Vec::new());
    let (selected, keywords) = s.summarize("", 5);
    assert_eq!(selected, Vec::<String>::new());
    assert_eq!(keywords, Vec::<String>::new());
}

#[test]
fn zero_quota_selects_nothing() {
    let mut s = Summary::new(&Vec::new());
    let (selected, keywords) = s.summarize("Red fox. Blue fox.", 0);
    assert_eq!(selected, Vec::<String>::new());
    assert_eq!(keywords, Vec::<String>::new());
}

#[test]
fn quota_above_sentence_count_selects_all() {
    let mut s = Summary::new(&Vec::new());
    let (selected, _) = s.summarize("Red fox. Blue fox.", 10);
    assert_eq!(selected, vec!["Red fox.".to_string(), "Blue fox.".to_string()]);
}

#[test]
fn selection_is_ordered_subsequence_of_sentences() {
    let text = "The probe reached orbit in March. Dr. Vega called the data remarkable. \
Sensors measured a pressure of 6.1 millibars at the surface. \
The team plans a deeper survey next year. Results arrive slowly. Patience pays.";
    let sentences = summarizer::segmenter::cut(&String::from(text));
    assert!(sentences.len() >= 4);
    let mut s = Summary::new(&Vec::new());
    let (selected, _) = s.summarize(text, 3);
    assert_eq!(selected.len(), 3);
    let mut pos = 0;
    for sel in &selected {
        while pos < sentences.len() && &sentences[pos] != sel {
            pos += 1;
        }
        assert!(pos < sentences.len(), "selected sentence out of document order");
        pos += 1;
    }
}

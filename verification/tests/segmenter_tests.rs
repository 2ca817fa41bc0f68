use summarizer::segmenter::cut;

fn cut_str(text: &str) -> Vec<String> {
    cut(&String::from(text))
}

#[test]
fn abbreviation_survival() {
    let r = cut_str("Dr. Smith went home. He left.");
    assert_eq!(r, vec!["Dr. Smith went home.".to_string(), "He left.".to_string()]);
}

#[test]
fn decimal_survival() {
    let r = cut_str("The value is 3.14. Done.");
    assert_eq!(r, vec!["The value is 3.14.".to_string(), "Done.".to_string()]);
}

#[test]
fn suspension_points_kept() {
    let r = cut_str("Wait... Then go.");
    assert_eq!(r, vec!["Wait...".to_string(), "Then go.".to_string()]);
}

#[test]
fn initials_do_not_split() {
    let r = cut_str("J. K. Rowling wrote it. Done.");
    assert_eq!(r, vec!["J. K. Rowling wrote it.".to_string(), "Done.".to_string()]);
}

#[test]
fn multi_dot_abbreviation_kept() {
    let r = cut_str("I work for the U.S.A. government. It is big.");
    assert_eq!(r, vec![
        "I work for the U.S.A. government.".to_string(),
        "It is big.".to_string(),
    ]);
}

#[test]
fn stuck_sentences_are_separated() {
    let r = cut_str("Ended.Next one.");
    assert_eq!(r, vec!["Ended.".to_string(), "Next one.".to_string()]);
}

#[test]
fn float_without_leading_zero() {
    let r = cut_str("Pi is about .5 here. Done.");
    assert_eq!(r, vec!["Pi is about .5 here.".to_string(), "Done.".to_string()]);
}

#[test]
fn terminator_inside_single_quotes() {
    let r = cut_str("He said 'Stopped.' Then he left.");
    assert_eq!(r, vec!["He said 'Stopped.'".to_string(), "Then he left.".to_string()]);
}

#[test]
fn terminator_before_closing_paren() {
    let r = cut_str("It works (see above.) Next.");
    assert_eq!(r, vec!["It works (see above.)".to_string(), "Next.".to_string()]);
}

#[test]
fn question_and_exclamation_split() {
    let r = cut_str("Really? Yes! Fine.");
    assert_eq!(r, vec!["Really?".to_string(), "Yes!".to_string(), "Fine.".to_string()]);
}

#[test]
fn empty_input_gives_no_sentences() {
    let r = cut_str("");
    assert_eq!(r, Vec::<String>::new());
}

#[test]
fn whitespace_only_gives_no_sentences() {
    let r = cut_str("   \n\t  ");
    assert_eq!(r, Vec::<String>::new());
}

#[test]
fn short_fragments_are_dropped() {
    // The lone terminator after the first sentence forms a fragment of one
    // byte, which is dropped.
    let r = cut_str("Great. . Bad.");
    assert_eq!(r, vec!["Great.".to_string(), "Bad.".to_string()]);
}

#[test]
fn terminator_inside_curly_quotes() {
    let r = cut_str("She said \u{201c}Agreed.\u{201d} Then left.");
    assert_eq!(r, vec![
        "She said \u{201c}Agreed.\u{201d}".to_string(),
        "Then left.".to_string(),
    ]);
}

#[test]
fn terminator_inside_double_quotes() {
    let r = cut_str("He said \"Agreed.\" Then left.");
    assert_eq!(r, vec!["He said \"Agreed.\"".to_string(), "Then left.".to_string()]);
}

#[test]
fn composite_abbreviation_keeps_sentence_end() {
    // The inner period of "et al.." is protected; the second period still
    // ends the sentence.
    let r = cut_str("See Smith et al.. Next point.");
    assert_eq!(r, vec!["See Smith et al..".to_string(), "Next point.".to_string()]);
}

#[test]
fn terminator_before_single_then_double_quote_is_kept() {
    let r = cut_str("He said \"'Agreed.'\" Then left.");
    assert_eq!(r, vec![
        "He said \"'Agreed.'\"".to_string(),
        "Then left.".to_string(),
    ]);
}

use summarizer::string_utils::{capitalized, StringCase};

#[test]
fn capitalizes_first_letter() {
    assert_eq!("hello world".to_capitalized(), "Hello world".to_string());
}

#[test]
fn leaves_capitalized_text_alone() {
    assert_eq!("Hello".to_capitalized(), "Hello".to_string());
}

#[test]
fn empty_string_stays_empty() {
    assert_eq!("".to_capitalized(), "".to_string());
}

#[test]
fn non_letter_first_character_unchanged() {
    assert_eq!(capitalized("1st place"), "1st place".to_string());
}

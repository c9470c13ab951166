use markov_text::model::Model;
use markov_text::reply::{append_spaced, is_wordlike, render, reply, REPLY_TOKENS};
use rand::rngs::OsRng;

fn strings(words: &[&str]) -> Vec<String> {
    words.iter().map(|w| w.to_string()).collect()
}

#[test]
fn a_token_is_wordlike_where_it_holds_a_letter_or_digit() {
    assert!(is_wordlike("word"));
    assert!(is_wordlike("42"));
    assert!(is_wordlike("-x-"));
    assert!(is_wordlike("é"));
    assert!(!is_wordlike(""));
    assert!(!is_wordlike(","));
    assert!(!is_wordlike(" "));
    assert!(!is_wordlike("?!"));
}

#[test]
fn wordlike_tokens_are_appended_behind_a_space() {
    let mut line = String::from("so");
    append_spaced(&mut line, "far");
    assert_eq!(line, "so far");
    append_spaced(&mut line, ",");
    assert_eq!(line, "so far,");
    append_spaced(&mut line, "");
    assert_eq!(line, "so far,");
}

#[test]
fn render_sets_the_tokens_out_as_a_line() {
    let tokens = strings(&["Hello", ",", "world", "!", " ", "42"]);
    let borrowed: Vec<&String> = tokens.iter().collect();
    assert_eq!(render(&borrowed), " Hello, world!  42");
    assert_eq!(render(&Vec::new()), "");
}

#[test]
fn a_reply_has_ten_tokens() {
    assert_eq!(REPLY_TOKENS, 10);
    let model = Model::build(strings(&["a", ".", "b"]));
    assert_eq!(reply(&model, &mut OsRng), " a. b a. b a. b a");
}

#[test]
fn a_reply_from_an_empty_model_is_empty() {
    let model: Model<String> = Model::build(Vec::new());
    assert_eq!(reply(&model, &mut OsRng), "");
}

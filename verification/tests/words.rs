use markov_text::words::{corpus, tokenize, Word, Words};

fn text(s: &str) -> Word {
    Word::Text(s.to_string())
}

fn joined(words: Vec<Word>) -> String {
    let mut all = String::new();
    for word in words {
        all.push_str(&word.into_string());
    }
    all
}

#[test]
fn tokenize_splits_words_symbols_and_line_breaks() {
    let words = tokenize("Hello, world!\nBye");
    assert_eq!(
        words,
        vec![
            text("Hello"),
            Word::Symbol(','),
            Word::Symbol(' '),
            text("world"),
            Word::Symbol('!'),
            Word::Newline,
            text("Bye"),
        ]
    );
}

#[test]
fn tokenize_empty_input_gives_no_words() {
    assert_eq!(tokenize(""), Vec::<Word>::new());
}

#[test]
fn tokenize_gives_one_word_per_symbol_or_space() {
    assert_eq!(
        tokenize(" \t..\n\n-"),
        vec![
            Word::Symbol(' '),
            Word::Symbol('\t'),
            Word::Symbol('.'),
            Word::Symbol('.'),
            Word::Newline,
            Word::Newline,
            Word::Symbol('-'),
        ]
    );
}

#[test]
fn tokenize_keeps_a_run_in_one_word() {
    assert_eq!(tokenize("abc123"), vec![text("abc123")]);
    assert_eq!(tokenize("x"), vec![text("x")]);
    assert_eq!(
        tokenize("don't"),
        vec![text("don"), Word::Symbol('\''), text("t")]
    );
}

#[test]
fn tokenize_knows_letters_and_digits_of_other_scripts() {
    assert_eq!(
        tokenize("naïve café №5 日本語。"),
        vec![
            text("naïve"),
            Word::Symbol(' '),
            text("café"),
            Word::Symbol(' '),
            Word::Symbol('№'),
            text("5"),
            Word::Symbol(' '),
            text("日本語"),
            Word::Symbol('。'),
        ]
    );
}

#[test]
fn tokenize_takes_a_carriage_return_for_a_symbol() {
    assert_eq!(
        tokenize("a\r\nb"),
        vec![text("a"), Word::Symbol('\r'), Word::Newline, text("b")]
    );
}

#[test]
fn words_laid_end_to_end_give_the_text_back() {
    let samples = [
        "",
        "one",
        "one two",
        "  leading and trailing  ",
        "line one\nline two\n",
        "a,b;c.d!e?f",
        "über-straße 42\t№7\r\n",
        "\n\n\n",
    ];
    for sample in samples {
        assert_eq!(joined(tokenize(sample)), sample);
    }
}

#[test]
fn no_word_is_empty() {
    for sample in ["a  b", "...", "x\ny", "42 is the answer."] {
        for word in tokenize(sample) {
            assert!(!word.into_string().is_empty());
        }
    }
}

#[test]
fn no_two_neighbours_are_both_runs() {
    for sample in ["ab cd", "abcd", "a1b2 c3", "one,two", "end\nstart"] {
        let words = tokenize(sample);
        for pair in words.windows(2) {
            assert!(!(matches!(pair[0], Word::Text(_)) && matches!(pair[1], Word::Text(_))));
        }
    }
}

#[test]
fn tokenizing_twice_gives_the_same_words() {
    let sample = "To be, or not to be:\nthat is the question.";
    assert_eq!(tokenize(sample), tokenize(sample));
}

#[test]
fn words_are_handed_out_one_at_a_time() {
    let mut words = Words::new("ab c");
    assert_eq!(words.next_word(), Some(text("ab")));
    assert_eq!(words.next_word(), Some(Word::Symbol(' ')));
    assert_eq!(words.next_word(), Some(text("c")));
    assert_eq!(words.next_word(), None);
    assert_eq!(words.next_word(), None);
}

#[test]
fn a_word_knows_whether_it_is_a_line_break() {
    assert!(Word::Newline.is_newline());
    assert!(!Word::Symbol(' ').is_newline());
    assert!(!text("n").is_newline());
}

#[test]
fn a_word_turns_into_its_characters() {
    assert_eq!(text("word").into_string(), "word");
    assert_eq!(Word::Symbol('!').into_string(), "!");
    assert_eq!(Word::Symbol('é').into_string(), "é");
    assert_eq!(Word::Newline.into_string(), "\n");
}

#[test]
fn corpus_drops_line_breaks_and_keeps_the_rest() {
    assert_eq!(corpus("a b\nc"), vec!["a", " ", "b", "c"]);
    assert_eq!(corpus("\n\n"), Vec::<String>::new());
    assert_eq!(corpus(""), Vec::<String>::new());
    assert_eq!(corpus("Hi!\n"), vec!["Hi", "!"]);
}

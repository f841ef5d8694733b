use robbot::text::as_string;
use robbot::tokenizer::{tokenize_line, Token, token_eq, is_punctuation};

fn word(s: &str) -> Token {
    Token::Word(String::from(s))
}

#[test]
fn empty_line_yields_start_end() {
    let tokens = tokenize_line("");
    assert_eq!(tokens.len(), 2);
    assert!(matches!(tokens[0], Token::Start));
    assert!(matches!(tokens[1], Token::End));
}

#[test]
fn every_line_starts_and_ends_with_markers() {
    for line in ["hello", "  ", "a b c", "...", "http", "x?y"] {
        let tokens = tokenize_line(line);
        assert!(tokens.len() >= 2);
        assert!(matches!(tokens[0], Token::Start));
        assert!(matches!(tokens[tokens.len() - 1], Token::End));
    }
}

#[test]
fn hello_world_example() {
    let tokens = tokenize_line("hello, world");
    assert_eq!(tokens.len(), 5);
    assert!(matches!(tokens[0], Token::Start));
    assert!(token_eq(&tokens[1], &word("hello")));
    assert!(token_eq(&tokens[2], &Token::Punctuation(String::from(","), true)));
    assert!(token_eq(&tokens[3], &word("world")));
    assert!(matches!(tokens[4], Token::End));
}

#[test]
fn link_lookahead_keeps_url_whole() {
    let tokens = tokenize_line("see http://x.com now");
    assert!(token_eq(&tokens[2], &Token::Link(String::from("http://x.com"))));
    assert_eq!(tokens.len(), 5);
    assert!(token_eq(&tokens[1], &word("see")));
    assert!(token_eq(&tokens[3], &word("now")));
}

#[test]
fn www_prefix_is_a_link_too() {
    let tokens = tokenize_line("www.example.org");
    assert!(token_eq(&tokens[1], &Token::Link(String::from("www.example.org"))));
}

#[test]
fn adjacent_punctuation_accumulates() {
    let tokens = tokenize_line("wait...");
    assert!(token_eq(&tokens[1], &word("wait")));
    assert!(token_eq(&tokens[2], &Token::Punctuation(String::from("..."), true)));
}

#[test]
fn apostrophes_continue_words() {
    let tokens = tokenize_line("don't stop");
    assert!(token_eq(&tokens[1], &word("don't")));
    assert!(token_eq(&tokens[2], &word("stop")));
}

#[test]
fn punctuation_predicate() {
    assert!(is_punctuation(&Token::Punctuation(String::from(","), false)));
    assert!(!is_punctuation(&Token::Start));
    assert!(!is_punctuation(&word("x")));
}

#[test]
fn one_char_string() {
    assert_eq!(as_string('q'), "q");
}

#[test]
fn trailing_link_prefix_stays_a_word() {
    // The lookahead only reclassifies when another character follows.
    let tokens = tokenize_line("http");
    assert_eq!(tokens.len(), 3);
    assert!(token_eq(&tokens[1], &word("http")));
}

#[test]
fn tight_punctuation_records_no_trailing_space() {
    let tokens = tokenize_line("a-b");
    assert!(token_eq(&tokens[2], &Token::Punctuation(String::from("-"), false)));
    let tokens = tokenize_line("a- b");
    assert!(token_eq(&tokens[2], &Token::Punctuation(String::from("-"), true)));
}

#[test]
fn underscores_and_digits_continue_words() {
    let tokens = tokenize_line("snake_case2");
    assert_eq!(tokens.len(), 3);
    assert!(token_eq(&tokens[1], &word("snake_case2")));
}

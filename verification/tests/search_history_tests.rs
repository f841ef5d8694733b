use robbot::history::{clean_message, message_from_fields};
use robbot::search::{pretty_search_result, terms_for_search, SearchResult};
use robbot::text::{parse_u64, u64_to_string};

#[test]
fn terms_are_lowercased_words() {
    let terms = terms_for_search("Hello  WORLD");
    assert_eq!(terms, vec![String::from("hello"), String::from("world")]);
    let terms = terms_for_search("  one\ttwo \n three ");
    assert_eq!(
        terms,
        vec![String::from("one"), String::from("two"), String::from("three")]
    );
    assert_eq!(terms_for_search(""), Vec::<String>::new());
}

#[test]
fn search_results_are_bolded() {
    let terms = vec![String::from("b")];
    assert_eq!(pretty_search_result("abc", &terms), "a<b>b</b>c");
    let terms = vec![String::from("aa"), String::from("x")];
    assert_eq!(pretty_search_result("aaa x", &terms), "<b>aa</b>a <b>x</b>");
    let result = SearchResult { user_id: 5, full_text: String::from("abc") };
    assert_eq!(pretty_search_result(&result.full_text, &vec![]), "abc");
    assert_eq!(result.user_id, 5);
}

#[test]
fn cleaning_replaces_line_breaks() {
    assert_eq!(clean_message("a\nb\nc"), "a b c");
    assert_eq!(clean_message("plain"), "plain");
}

#[test]
fn message_fields_require_a_message_event() {
    let m = message_from_fields("message", Some(7), Some("hi\nthere")).unwrap();
    assert_eq!(m.user_id(), 7);
    assert_eq!(m.message(), "hi there");
    assert!(message_from_fields("join", Some(7), Some("hi")).is_none());
    assert!(message_from_fields("message", None, Some("hi")).is_none());
    assert!(message_from_fields("message", Some(7), None).is_none());
}

#[test]
fn decimal_parsing_and_printing() {
    assert_eq!(parse_u64("0"), Some(0));
    assert_eq!(parse_u64("18446744073709551615"), Some(u64::MAX));
    assert_eq!(parse_u64("18446744073709551616"), None);
    assert_eq!(parse_u64("+25"), Some(25));
    assert_eq!(parse_u64(""), None);
    assert_eq!(parse_u64("1a"), None);
    assert_eq!(parse_u64("-3"), None);
    assert_eq!(u64_to_string(0), "0");
    assert_eq!(u64_to_string(907), "907");
    assert_eq!(u64_to_string(u64::MAX), "18446744073709551615");
}

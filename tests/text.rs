use chat_search::encoder::retry_text;
use chat_search::text::{bare_url, blank, keyword_features, lower_terms, query_term_list, utf8_len_below};

fn strings(v: &[&str]) -> Vec<String> {
    v.iter().map(|s| s.to_string()).collect()
}

#[test]
fn query_terms_drop_stop_words_and_punctuation() {
    assert_eq!(query_term_list("The Cat, sat!"), strings(&["cat", "sat"]));
    assert_eq!(query_term_list("  ...  "), Vec::<String>::new());
    assert_eq!(lower_terms("The Cat, sat!"), strings(&["the", "cat", "sat"]));
}

#[test]
fn stop_word_query_scores_no_keyword() {
    let q = query_term_list("the and of to");
    assert_eq!(q, strings(&["of"]));
    let q = query_term_list("the and to");
    assert!(q.is_empty());
    let f = keyword_features(&q, "the and to");
    assert_eq!(f.matches, 0);
    assert_eq!(f.query_terms, 0);
}

#[test]
fn ranker_with_stop_words() {
    let q = query_term_list("the cat");
    assert_eq!(q, strings(&["cat"]));
    let a = keyword_features(&q, "a cat sat");
    assert_eq!((a.matches, a.query_terms), (1, 1));
    let b = keyword_features(&q, "the the the");
    assert_eq!((b.matches, b.query_terms), (0, 1));
}

#[test]
fn keyword_matching_is_case_insensitive() {
    let q = query_term_list("MEETING");
    let f = keyword_features(&q, "Meeting at noon");
    assert_eq!(f.matches, 1);
}

#[test]
fn repeated_query_terms_count_each_time() {
    let q = query_term_list("cat cat dog");
    let f = keyword_features(&q, "cat");
    assert_eq!((f.matches, f.query_terms), (2, 3));
}

#[test]
fn url_penalty_flags() {
    let q = query_term_list("meeting");
    let a = keyword_features(&q, "meeting at noon");
    let b = keyword_features(&q, "https://example.com");
    assert!(!a.url_penalty);
    assert!(b.url_penalty);
    assert!(bare_url("  http://x.org \n"));
    assert!(!bare_url("see http://x.org"));
    assert!(!bare_url("http://x.org\tnow"));
    assert!(!bare_url("htt"));
}

#[test]
fn short_penalty_needs_short_text_and_low_keyword() {
    let q = query_term_list("meeting");
    let a = keyword_features(&q, "meeting at noon");
    assert!(!a.short_penalty);
    let b = keyword_features(&q, "https://example.com");
    assert!(b.short_penalty);
    let c = keyword_features(&q, "a much longer text without the word");
    assert!(!c.short_penalty);
    let none = query_term_list("");
    let d = keyword_features(&none, "hi");
    assert!(d.short_penalty);
}

#[test]
fn byte_length_counts_utf8() {
    let cs: Vec<char> = "ééééééééé".chars().collect();
    assert!(utf8_len_below(&cs, 19));
    assert!(!utf8_len_below(&cs, 18));
    assert!(!utf8_len_below(&cs, 0));
}

#[test]
fn blank_detects_whitespace_only() {
    assert!(blank(" \t\n\u{3000}"));
    assert!(blank(""));
    assert!(!blank(" x "));
}

#[test]
fn long_encodings_are_retried_on_a_prefix() {
    assert_eq!(retry_text("short", 512), None);
    assert_eq!(retry_text("short", 513), Some("short".to_string()));
    let long = "é".repeat(2500);
    let r = retry_text(&long, 900).unwrap();
    assert_eq!(r.chars().count(), 2000);
    assert!(long.starts_with(&r));
}

use rust_book_translator::terminology::{
    build_terminology_prompt, extract_base_term, extract_relevant_terms, sort_terms, to_lowercase,
};
use rust_book_translator::types::Principle;

#[test]
fn test_extract_base_term() {
    assert_eq!(extract_base_term("acquire (lockの)"), "acquire");
    assert_eq!(extract_base_term("simple term"), "simple term");
    assert_eq!(extract_base_term("term with (note)"), "term with");
}

#[test]
fn base_term_removes_only_the_first_note() {
    assert_eq!(extract_base_term("a (x) b (y)"), "ab (y)");
}

fn pair(k: &str, v: &str) -> (String, String) {
    (k.to_string(), v.to_string())
}

#[test]
fn relevant_terms_match_whole_words_case_insensitively() {
    let glossary = vec![
        pair("crate", "クレート"),
        pair("Cargo", "カーゴ"),
        pair("trait", "トレイト"),
        pair("acquire (lockの)", "獲得する"),
    ];
    let found = extract_relevant_terms("Cargo builds each CRATE and may acquire a lock.", &glossary);
    let keys: Vec<&str> = found.iter().map(|(k, _)| k.as_str()).collect();
    assert_eq!(keys, vec!["acquire (lockの)", "crate", "Cargo"]);
    assert_eq!(found[0].1, "獲得する");
}

#[test]
fn relevant_terms_ignore_partial_words() {
    let glossary = vec![pair("trait", "トレイト")];
    assert!(extract_relevant_terms("The traits module", &glossary).is_empty());
}

#[test]
fn relevant_terms_are_limited_to_fifteen() {
    let glossary: Vec<(String, String)> =
        (0..20).map(|i| pair(&format!("term{:02}", i), "x")).collect();
    let chunk: String = (0..20).map(|i| format!("term{:02} ", i)).collect();
    let found = extract_relevant_terms(&chunk, &glossary);
    assert_eq!(found.len(), 15);
    assert_eq!(found[0].0, "term00");
    assert_eq!(found[14].0, "term14");
}

#[test]
fn sorting_by_length_keeps_ties_in_order() {
    let terms = vec![pair("bb", "1"), pair("a", "2"), pair("ccc", "3"), pair("dd", "4")];
    let sorted = sort_terms(&terms, true);
    let keys: Vec<&str> = sorted.iter().map(|(k, _)| k.as_str()).collect();
    assert_eq!(keys, vec!["ccc", "bb", "dd", "a"]);
}

#[test]
fn sorting_alphabetically_uses_byte_order() {
    let terms = vec![pair("beta", "1"), pair("Alpha", "2"), pair("alpha", "3"), pair("é", "4")];
    let sorted = sort_terms(&terms, false);
    let keys: Vec<&str> = sorted.iter().map(|(k, _)| k.as_str()).collect();
    assert_eq!(keys, vec!["Alpha", "alpha", "beta", "é"]);
}

#[test]
fn terminology_prompt_lists_principles_then_sorted_terms() {
    let principles = vec![
        Principle {
            text: String::from("Use katakana"),
            notes: vec![String::from("note one"), String::from("note two")],
            reference: Some(String::from("JIS Z 8301")),
        },
        Principle { text: String::from("Keep keywords"), notes: vec![], reference: None },
    ];
    let terms = vec![pair("trait", "トレイト"), pair("crate", "クレート")];
    let prompt = build_terminology_prompt(&terms, &principles);
    assert_eq!(
        prompt,
        "Translation Principles:\n- Use katakana\n  - note one\n  - note two\n  (Reference: JIS Z 8301)\n- Keep keywords\n\nRelevant Terminology:\n- \"crate\" -> \"クレート\"\n- \"trait\" -> \"トレイト\"\n"
    );
}

#[test]
fn terminology_prompt_without_terms_or_principles() {
    assert_eq!(
        build_terminology_prompt(&vec![], &[]),
        "Translation Principles:\n\nRelevant Terminology:\n"
    );
}

#[test]
fn meta_characters_in_terms_match_literally() {
    let glossary = vec![pair("a.b", "x")];
    assert!(extract_relevant_terms("see axb here", &glossary).is_empty());
    assert_eq!(extract_relevant_terms("see a.b here", &glossary).len(), 1);
}

#[test]
fn lowercasing_follows_unicode() {
    assert_eq!(to_lowercase("CRATE Ölfass"), "crate ölfass");
}

#[test]
fn base_term_trims_spaces_around_the_note() {
    assert_eq!(extract_base_term("move (semantics) rules"), "moverules");
}

#[test]
fn terminology_prompt_ignores_term_order() {
    let principles = vec![Principle { text: String::from("Be consistent"), notes: vec![], reference: None }];
    let a = vec![pair("trait", "トレイト"), pair("crate", "クレート"), pair("borrow", "借用")];
    let b = vec![pair("crate", "クレート"), pair("borrow", "借用"), pair("trait", "トレイト")];
    assert_eq!(build_terminology_prompt(&a, &principles), build_terminology_prompt(&b, &principles));
}

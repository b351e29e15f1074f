use rust_book_translator::translator::{after_failed_attempt, RetryAction, Translator};
use rust_book_translator::types::MarkdownChunk;

#[test]
fn backoff_doubles_until_the_last_attempt() {
    assert_eq!(after_failed_attempt(0, 3), RetryAction::Wait(100));
    assert_eq!(after_failed_attempt(1, 3), RetryAction::Wait(200));
    assert_eq!(after_failed_attempt(2, 3), RetryAction::GiveUp);
    assert_eq!(after_failed_attempt(0, 1), RetryAction::GiveUp);
    assert_eq!(after_failed_attempt(5, 10), RetryAction::Wait(3200));
    assert_eq!(after_failed_attempt(57, 100), RetryAction::Wait(100 * (1u64 << 57)));
}

#[test]
fn post_processing_removes_backticks_around_italics_and_links() {
    assert_eq!(
        Translator::post_process_translation(String::from("これは`_word_`です")),
        "これは_word_です"
    );
    assert_eq!(
        Translator::post_process_translation(String::from("`[rand]: https://crates.io/crates/rand`")),
        "[rand]: https://crates.io/crates/rand"
    );
    assert_eq!(
        Translator::post_process_translation(String::from("`code` stays")),
        "`code` stays"
    );
}

#[test]
fn prompt_holds_terminology_rules_and_text() {
    let t = Translator::new("model-x", "http://localhost:11434");
    let chunk = MarkdownChunk::new(String::from("Hello, world!"), false, 4);
    let prompt = t.build_prompt(&chunk, "TERMS");
    assert!(prompt.starts_with("You are a professional technical translator.\n\nTranslate the following English Rust documentation into natural Japanese.\n\nTERMS\n\nRules:\n"));
    assert!(prompt.contains("- Do NOT translate code blocks (preserve ```language ... ``` blocks exactly)\n"));
    assert!(prompt.ends_with("\n\nText to translate:\nHello, world!"));
}

#[test]
fn generate_url_and_model() {
    let t = Translator::new("translategemma:12b-it-q4_K_M", "http://localhost:11434");
    assert_eq!(t.generate_url(), "http://localhost:11434/api/generate");
    assert_eq!(t.model(), "translategemma:12b-it-q4_K_M");
}

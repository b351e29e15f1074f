use rust_book_translator::markdown::{chunk_markdown, estimate_tokens, ChunkError};

#[test]
fn tokenizer_failure_is_reported() {
    let text = format!("a{}b", " ".repeat(2_000_000));
    assert_eq!(estimate_tokens(&text), None);
    assert_eq!(chunk_markdown(&text, 100).unwrap_err(), ChunkError::TokenizerFailed);
}

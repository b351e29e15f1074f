use rust_book_translator::markdown::{
    chunk_markdown, estimate_tokens, find_break_point, identify_code_blocks, is_inside_code_block,
    split_large_paragraph, ChunkError,
};

#[test]
fn test_identify_code_blocks() {
    let text = r#"
Some text

```rust
let x = 5;
```

More text
"#;
    let blocks = identify_code_blocks(text);
    assert_eq!(blocks.len(), 1);
    assert_eq!(blocks[0].2, "rust");
}

#[test]
fn test_estimate_tokens() {
    let text = "This is a simple test.";
    let tokens = estimate_tokens(text).unwrap();
    assert!(tokens > 0);
}

#[test]
fn test_chunk_markdown() {
    let content = r#"
First paragraph.

Second paragraph.

```rust
let x = 5;
```

Third paragraph.
"#;
    let chunks = chunk_markdown(content, 100).unwrap();
    assert!(!chunks.is_empty());
}

#[test]
fn code_block_spans_and_languages() {
    let text = "intro\n```python\nprint(1)\n```\nmid\n```\nplain\n```\n";
    let blocks = identify_code_blocks(text);
    assert_eq!(blocks.len(), 2);
    assert_eq!(blocks[0].0, 6);
    assert_eq!(&text[blocks[0].0..blocks[0].1], "```python\nprint(1)\n```");
    assert_eq!(blocks[0].2, "python");
    assert_eq!(&text[blocks[1].0..blocks[1].1], "```\nplain\n```");
    assert_eq!(blocks[1].2, "");
}

#[test]
fn no_code_blocks_in_plain_text() {
    assert!(identify_code_blocks("just text, no fences").is_empty());
}

#[test]
fn inside_code_block_is_half_open() {
    let blocks = vec![(2usize, 5usize, String::new()), (10usize, 12usize, String::new())];
    assert!(!is_inside_code_block(1, &blocks));
    assert!(is_inside_code_block(2, &blocks));
    assert!(is_inside_code_block(4, &blocks));
    assert!(!is_inside_code_block(5, &blocks));
    assert!(is_inside_code_block(11, &blocks));
    assert!(!is_inside_code_block(12, &blocks));
}

#[test]
fn break_prefers_paragraph_break() {
    let text = "One, two. Three\n\nFour five";
    assert_eq!(find_break_point(text, 0, text.len(), &[]), Some(17));
}

#[test]
fn break_before_header() {
    let text = "Intro text\n# Title\nmore";
    assert_eq!(find_break_point(text, 0, text.len(), &[]), Some(10));
}

#[test]
fn break_after_sentence_end() {
    let text = "A sentence.\nNext line";
    assert_eq!(find_break_point(text, 0, text.len(), &[]), Some(12));
}

#[test]
fn break_after_last_clause() {
    let text = "alpha beta, gamma; delta";
    assert_eq!(find_break_point(text, 0, text.len(), &[]), Some(18));
}

#[test]
fn break_after_last_space() {
    let text = "alpha beta gamma";
    assert_eq!(find_break_point(text, 0, text.len(), &[]), Some(11));
}

#[test]
fn word_break_nearest_the_target_end() {
    assert_eq!(find_break_point("a b c", 0, 5, &[]), Some(4));
}

#[test]
fn sentence_end_followed_by_space() {
    assert_eq!(find_break_point("Aa bb. Cc dd", 0, 12, &[]), Some(7));
}

#[test]
fn sentence_end_outranks_clause() {
    let text = "One. Two, three";
    assert_eq!(find_break_point(text, 0, text.len(), &[]), Some(5));
}

#[test]
fn header_at_window_start_is_a_break() {
    let text = "ab\n# x y";
    assert_eq!(find_break_point(text, 2, text.len(), &[]), Some(2));
    assert_eq!(find_break_point("\n#a", 0, 3, &[]), Some(0));
}

#[test]
fn chunk_error_messages() {
    assert_eq!(ChunkError::NoChunks.message(), "No chunks were created from content");
    assert_eq!(ChunkError::TokenizerFailed.message(), "The tokenizer could not encode the text");
}

#[test]
fn window_end_moves_back_to_a_character_boundary() {
    let text = "a \u{3000}b";
    assert_eq!(find_break_point(text, 0, 3, &[]), Some(2));
}

#[test]
fn break_after_multibyte_space() {
    let text = "ab\u{3000}cd";
    assert_eq!(find_break_point(text, 0, text.len(), &[]), Some(5));
}

#[test]
fn no_break_point_found() {
    let text = "abcdefgh";
    assert_eq!(find_break_point(text, 0, text.len(), &[]), None);
}

#[test]
fn break_extends_past_code_block() {
    let text = "abc def ghi jkl";
    let blocks = vec![(2usize, 9usize, String::from("rust"))];
    assert_eq!(find_break_point(text, 0, 5, &blocks), Some(9));
}

#[test]
fn breaks_inside_code_block_are_skipped() {
    let text = "ab cd ef gh";
    let blocks = vec![(0usize, 6usize, String::new())];
    assert_eq!(find_break_point(text, 0, 20, &blocks), Some(9));
}

#[test]
fn split_pieces_join_to_paragraph() {
    let para = "word ".repeat(60);
    let para = para.trim();
    let pieces = split_large_paragraph(para, 8, &[]).unwrap();
    assert!(pieces.len() > 1);
    assert!(pieces.iter().all(|p| !p.is_empty()));
    assert_eq!(pieces.concat(), para);
}

#[test]
fn split_small_paragraph_is_one_piece() {
    let pieces = split_large_paragraph("short text", 100, &[]).unwrap();
    assert_eq!(pieces, vec![String::from("short text")]);
}

#[test]
fn split_with_zero_target_cuts_every_character() {
    let pieces = split_large_paragraph("abc def", 0, &[]).unwrap();
    assert_eq!(pieces, vec!["a", "b", "c", " ", "d", "e", "f"]);
}

#[test]
fn forced_cut_rounds_to_character_boundary() {
    let para = "ああああああ";
    let pieces = split_large_paragraph(para, 1, &[]).unwrap();
    assert!(pieces.len() > 1);
    assert!(pieces.iter().all(|p| !p.is_empty()));
    assert_eq!(pieces.concat(), para);
}

#[test]
fn split_keeps_code_span_whole() {
    let para = "aaaa bbbb cccc dddd eeee ffff gggg hhhh iiii jjjj";
    let blocks = vec![(10usize, 30usize, String::new())];
    let pieces = split_large_paragraph(para, 4, &blocks).unwrap();
    assert_eq!(pieces.concat(), para);
    let mut at = 0;
    for p in &pieces {
        at += p.len();
        assert!(!(10 < at && at < 30));
    }
}

#[test]
fn header_at_piece_start_still_splits() {
    let chunks = chunk_markdown("ab\n# x y z w v", 4).unwrap();
    assert!(chunks.iter().all(|c| !c.content.is_empty() && c.token_count <= 4));
    let joined: String = chunks
        .iter()
        .map(|c| c.content.as_str())
        .collect::<String>()
        .chars()
        .filter(|c| !c.is_whitespace())
        .collect();
    assert_eq!(joined, "ab#xyzwv");
}

#[test]
fn whitespace_only_content_gives_no_chunks() {
    assert_eq!(chunk_markdown("  \n\n \t \n\n", 100).unwrap_err(), ChunkError::NoChunks);
    assert_eq!(chunk_markdown("", 100).unwrap_err(), ChunkError::NoChunks);
}

#[test]
fn small_paragraphs_are_gathered_into_one_chunk() {
    let content = "First paragraph.\n\n\n  Second paragraph.  \n\n```rust\nlet x = 5;\n```";
    let chunks = chunk_markdown(content, 100).unwrap();
    assert_eq!(chunks.len(), 1);
    assert_eq!(
        chunks[0].content,
        "First paragraph.\n\nSecond paragraph.\n\n```rust\nlet x = 5;\n```"
    );
    assert!(chunks[0].contains_code);
    assert_eq!(chunks[0].token_count, estimate_tokens(&chunks[0].content).unwrap());
}

#[test]
fn paragraphs_over_the_target_start_new_chunks() {
    let content = "Alpha beta gamma delta.\n\nEpsilon zeta eta theta.";
    let first = estimate_tokens("Alpha beta gamma delta.").unwrap();
    let both = estimate_tokens("Alpha beta gamma delta.\n\nEpsilon zeta eta theta.").unwrap();
    let target = first.max(estimate_tokens("Epsilon zeta eta theta.").unwrap());
    assert!(both > target);
    let chunks = chunk_markdown(content, target).unwrap();
    assert_eq!(chunks.len(), 2);
    assert_eq!(chunks[0].content, "Alpha beta gamma delta.");
    assert_eq!(chunks[1].content, "Epsilon zeta eta theta.");
    assert!(!chunks[0].contains_code);
    assert!(chunks.iter().all(|c| c.token_count <= target));
}

#[test]
fn large_paragraph_is_split_into_chunks() {
    let para = "word ".repeat(80);
    let content = format!("Intro.\n\n{}", para.trim());
    let chunks = chunk_markdown(&content, 10).unwrap();
    assert!(chunks.len() > 2);
    assert_eq!(chunks[0].content, "Intro.");
    let rest: String = chunks[1..].iter().map(|c| c.content.as_str()).collect();
    assert_eq!(rest, para.trim());
}

#[test]
fn zero_target_still_chunks() {
    let chunks = chunk_markdown("abc def", 0).unwrap();
    let joined: String = chunks.iter().map(|c| c.content.as_str()).collect();
    assert_eq!(joined, "abc def");
}

#[test]
fn blank_line_inside_code_block_keeps_block_whole() {
    let block = "```rust\nlet a = 1;\n\nlet b = 2;\n```";
    let content = format!("Intro paragraph here.\n\n{}\n\nOutro paragraph here.", block);
    let target = estimate_tokens(block).unwrap();
    let chunks = chunk_markdown(&content, target).unwrap();
    assert!(chunks.iter().any(|c| c.content == block));
    assert!(chunks.iter().filter(|c| c.contains_code).count() == 1);
}

#[test]
fn token_counts_are_zero_only_for_empty_text() {
    assert_eq!(estimate_tokens(""), Some(0));
    let text = "héllo wörld";
    let n = estimate_tokens(text).unwrap();
    assert!(n > 0 && n <= text.len());
}

#[test]
fn split_pieces_stay_within_the_target() {
    let para = "alpha beta gamma delta epsilon zeta eta theta iota kappa lambda mu";
    let target = 6;
    let pieces = split_large_paragraph(para, target, &[]).unwrap();
    assert_eq!(pieces.concat(), para);
    for p in &pieces {
        assert!(p.len() <= target || estimate_tokens(p).unwrap() <= target);
    }
}

#[test]
fn code_free_chunks_stay_within_the_target() {
    let words = "word ".repeat(200);
    let content = format!("```\ncode here\n```\n\n{}", words.trim());
    let target = 10;
    let chunks = chunk_markdown(&content, target).unwrap();
    assert!(chunks.len() > 2);
    assert!(chunks.iter().filter(|c| !c.contains_code).all(|c| c.token_count <= target));
}

#[test]
fn chunk_token_counts_are_at_most_their_bytes() {
    let words = "λόγος word ".repeat(60);
    let content = format!("Intro.\n\n```rust\nfn main() {{}}\n```\n\n{}", words.trim());
    let chunks = chunk_markdown(&content, 12).unwrap();
    assert!(chunks.iter().all(|c| c.token_count <= c.content.len()));
    assert!(chunks
        .iter()
        .all(|c| c.token_count <= 12 || c.contains_code || c.content.chars().count() == 1));
}

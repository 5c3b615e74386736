use nomai_core::chunking::{chunk_text, hard_split, split_sentences};

#[test]
fn empty_returns_empty() {
    assert!(chunk_text("", 1024).is_empty());
}

#[test]
fn short_text_single_chunk() {
    let result = chunk_text("Hello world.", 1024);
    assert_eq!(result, vec!["Hello world.".to_string()]);
}

#[test]
fn paragraph_boundary_preferred() {
    let text = "para one\n\npara two\n\npara three";
    let result = chunk_text(text, 100);
    assert_eq!(result.len(), 1);
    assert_eq!(result[0], text);
}

#[test]
fn paragraph_split_when_overflows() {
    let text = "a\n\nb\n\nc";
    // target between "a\n\nb" (3) and "a\n\nb\n\nc" (7)
    let result = chunk_text(text, 4);
    assert_eq!(result.len(), 2);
    assert_eq!(result[0], "a\n\nb");
    assert_eq!(result[1], "c");
}

#[test]
fn long_paragraph_uses_sentence_boundary() {
    // 3 sentences each ~10 chars
    let text = "Sentence one. Sentence two. Sentence three.";
    let result = chunk_text(text, 25);
    // Should split on ". "
    assert!(result.iter().all(|c| c.len() <= 25));
    // Should preserve all text content
    let joined: String = result.join(" ");
    assert!(joined.contains("Sentence one."));
    assert!(joined.contains("Sentence two."));
    assert!(joined.contains("Sentence three."));
}

#[test]
fn very_long_sentence_hard_cuts() {
    let text: String = "x".repeat(50);
    let result = chunk_text(&text, 10);
    assert!(result.iter().all(|c| c.len() <= 10));
    let total: usize = result.iter().map(|s| s.len()).sum();
    assert_eq!(total, 50);
}

#[test]
fn utf8_safe_hard_cut() {
    let text: String = "é".repeat(50); // each é is 2 bytes
    let result = chunk_text(&text, 5);
    // Each chunk should have at most 5 chars (≤ 10 bytes for é)
    assert!(result.iter().all(|c| c.chars().count() <= 5));
    let total_chars: usize = result.iter().map(|s| s.chars().count()).sum();
    assert_eq!(total_chars, 50);
}

#[test]
fn utf8_boundary_no_panic_on_multibyte() {
    // Multi-byte chars at the boundary should not produce invalid UTF-8
    let text = "中".repeat(100);
    let result = chunk_text(&text, 7); // 7 bytes is 2 full 中 (6 bytes) + partial
    for c in &result {
        assert!(std::str::from_utf8(c.as_bytes()).is_ok(), "chunk not valid UTF-8");
    }
}

#[test]
fn sentences_end_with_their_stop() {
    assert_eq!(split_sentences("One. Two. Three"), vec!["One.", "Two.", "Three"]);
}

#[test]
fn a_hard_cut_keeps_every_character() {
    let parts = hard_split("añbñcñ", 3);
    assert_eq!(parts.concat(), "añbñcñ");
    assert!(parts.iter().all(|p| p.len() <= 3));
}

use rastraq::llm::{DeterministicMockProvider, ProcessedText, EMBEDDING_DIMENSIONS, EXCERPT_CHARS};
use sha2::{Digest, Sha256};

fn process(title: &str, content: &str) -> ProcessedText {
    DeterministicMockProvider::default().summarize_and_embed(title, content)
}

#[test]
fn mock_provider_returns_stable_summary_and_embedding() {
    let provider = DeterministicMockProvider::default();
    let first = provider.summarize_and_embed(
        "Rust 1.90 release notes",
        "Rust 1.90 shipped a small standard library improvement and compiler fixes.",
    );
    let second = provider.summarize_and_embed(
        "Rust 1.90 release notes",
        "Rust 1.90 shipped a small standard library improvement and compiler fixes.",
    );

    assert_eq!(first.provider, "deterministic-mock");
    assert_eq!(first.summary, second.summary);
    assert_eq!(first.embedding_units, second.embedding_units);
    assert_eq!(first.embedding_units.len(), 16);
    assert!(first.summary.contains("Rust 1.90 release notes"));
}

#[test]
fn mock_summary_compacts_whitespace_and_quotes_excerpt() {
    let p = process("Title", "  first\tline \n\n second   line  ");
    assert_eq!(p.summary, "Title: first line second line");
    assert_eq!(p.key_points, vec!["first line second line".to_string()]);
    assert_eq!(p.model, "mock-summary-embedding-v1");
    let empty = process("Only title", " \u{3000}\u{a0} ");
    assert_eq!(empty.summary, "Only title: ");
    assert_eq!(empty.key_points, vec![String::new()]);
}

#[test]
fn mock_excerpt_is_cut_to_limit() {
    let long = "word ".repeat(100);
    let p = process("T", &long);
    assert_eq!(EXCERPT_CHARS, 180);
    assert_eq!(p.key_points[0].chars().count(), 180);
    let expected: String = long.trim().chars().take(180).collect();
    assert_eq!(p.key_points[0], expected);
    let accented = "é".repeat(200);
    let q = process("T", &accented);
    assert_eq!(q.key_points[0], "é".repeat(180));
}

#[test]
fn mock_embedding_comes_from_title_and_content_digest() {
    let p = process("Rust 1.90 release notes", "Some content");
    let digest = Sha256::digest("Rust 1.90 release notes\nSome content".as_bytes());
    let expected: Vec<u16> = digest.chunks_exact(2).take(16).map(|pair| u16::from_be_bytes([pair[0], pair[1]])).collect();
    assert_eq!(EMBEDDING_DIMENSIONS, 16);
    assert_eq!(p.embedding_units, expected);
    let other = process("Rust 1.90 release notes", "Other content");
    assert_ne!(p.embedding_units, other.embedding_units);
}

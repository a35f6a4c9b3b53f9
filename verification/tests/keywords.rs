use rastraq::keywords::{feedback_refreshes_interest, merge_interest_keywords, refreshed_interest_profile, tokenize_keywords};

fn strings(items: &[&str]) -> Vec<String> {
    items.iter().map(|s| s.to_string()).collect()
}

#[test]
fn tokenize_splits_on_non_alphanumerics_and_drops_short_pieces() {
    assert_eq!(tokenize_keywords("Rust security advisory"), strings(&["rust", "security", "advisory"]));
    assert_eq!(tokenize_keywords("Tokio 1.40: async-io, and AI"), strings(&["tokio", "async"]));
    assert_eq!(tokenize_keywords(""), Vec::<String>::new());
    assert_eq!(tokenize_keywords("--Kubernetes!!"), strings(&["kubernetes"]));
    // four bytes, not four characters
    assert_eq!(tokenize_keywords("Müde éé ab"), strings(&["müde", "éé"]));
    assert_eq!(tokenize_keywords("ÀB"), Vec::<String>::new());
}

#[test]
fn merge_appends_new_tokens_once() {
    let base = strings(&["rust", "security"]);
    let titles = strings(&["Rust compiler release", "Compiler security notes", "Release notes"]);
    let merged = merge_interest_keywords(base.clone(), &titles);
    assert_eq!(merged, strings(&["rust", "security", "compiler", "release", "notes"]));
    let again = merge_interest_keywords(merged.clone(), &titles);
    assert_eq!(again, merged);
    assert_eq!(merge_interest_keywords(base.clone(), &Vec::new()), base);
}

#[test]
fn refreshed_profile_starts_from_defaults() {
    let p = refreshed_interest_profile(&strings(&["Rust security advisory", "Postgres internals"]));
    assert_eq!(p.keywords, strings(&["rust", "security", "ai", "infrastructure", "advisory", "postgres", "internals"]));
    assert!(p.negative_keywords.is_empty());
}

#[test]
fn only_interested_feedback_refreshes() {
    assert!(feedback_refreshes_interest("interested"));
    assert!(!feedback_refreshes_interest("dismissed"));
    assert!(!feedback_refreshes_interest("Interested"));
    assert!(!feedback_refreshes_interest(""));
}

#[test]
fn retokenizing_ascii_tokens_is_stable() {
    for title in ["Rust 1.90: async-closures, Tokio & AXUM", "", "a b c", "Zero-Copy PARSERS in Rust!!", "x1234 y5678"] {
        let tokens = tokenize_keywords(title);
        assert_eq!(tokenize_keywords(&tokens.join(" ")), tokens, "{title}");
    }
}

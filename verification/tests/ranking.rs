use chrono::{TimeZone, Utc};
use rastraq::ranking::{
    interest_signals, rank_order, ranking_reason, score_order_key, source_bonus_tenths, InterestProfile,
    RankEntry,
};

fn profile(keywords: &[&str], negative: &[&str]) -> InterestProfile {
    InterestProfile {
        keywords: keywords.iter().map(|k| k.to_string()).collect(),
        negative_keywords: negative.iter().map(|k| k.to_string()).collect(),
    }
}

#[test]
fn default_profile_lists_four_keywords() {
    let p = InterestProfile::default();
    assert_eq!(p.keywords, vec!["rust", "security", "ai", "infrastructure"]);
    assert!(p.negative_keywords.is_empty());
}

#[test]
fn source_bonus_by_type() {
    assert_eq!(source_bonus_tenths("security_advisory"), 12);
    assert_eq!(source_bonus_tenths("release_note"), 8);
    assert_eq!(source_bonus_tenths("github_release"), 8);
    assert_eq!(source_bonus_tenths("technical_blog"), 6);
    assert_eq!(source_bonus_tenths("paper"), 6);
    assert_eq!(source_bonus_tenths("news"), 0);
    assert_eq!(source_bonus_tenths("Security_Advisory"), 0);
}

#[test]
fn reason_names_keyword_hits() {
    assert_eq!(ranking_reason(0), "ranked by source and embedding signals");
    assert_eq!(ranking_reason(1), "matched 1 interest keyword(s)");
    assert_eq!(ranking_reason(12), "matched 12 interest keyword(s)");
}

#[test]
fn signals_count_keywords_case_insensitively() {
    let p = profile(&["Rust", "security", "go"], &["sports"]);
    let s = interest_signals("RUST Security advisory", "A rust crate published a fix", "security_advisory", &p);
    assert_eq!(s.keyword_hits, 2);
    assert_eq!(s.negative_hits, 0);
    assert_eq!(s.source_bonus_tenths, 12);
    assert_eq!(s.reason, "matched 2 interest keyword(s)");
    let t = interest_signals("Football result", "sports update", "news", &p);
    assert_eq!(t.keyword_hits, 0);
    assert_eq!(t.negative_hits, 1);
    assert_eq!(t.reason, "ranked by source and embedding signals");
    // a keyword counts once however often it occurs
    let r = interest_signals("rust rust", "RUST", "news", &profile(&["rust"], &["rust"]));
    assert_eq!(r.keyword_hits, 1);
    assert_eq!(r.negative_hits, 1);
    // the title and summary are joined by a space before the search
    let u = interest_signals("big", "data", "paper", &profile(&["g d", "gda"], &[]));
    assert_eq!(u.keyword_hits, 1);
}

#[test]
fn score_key_orders_like_total_cmp() {
    let values = [
        f64::NEG_INFINITY, -3.5, -1.0, -0.0, 0.0, 1e-300, 0.5, 1.0, 7.25, f64::INFINITY, f64::NAN, -f64::NAN,
    ];
    for a in values {
        for b in values {
            let ka = score_order_key(a.to_bits());
            let kb = score_order_key(b.to_bits());
            assert_eq!(ka.cmp(&kb), a.total_cmp(&b), "{a} vs {b}");
        }
    }
}

fn entry(item_id: i64, score: f64) -> RankEntry {
    RankEntry { item_id, score_bits: score.to_bits() }
}

#[test]
fn rank_order_sorts_by_score_then_id_and_truncates() {
    let entries = vec![entry(5, 1.0), entry(3, 2.5), entry(4, 1.0), entry(9, -1.0), entry(1, 2.5)];
    assert_eq!(rank_order(&entries, 10), vec![4, 1, 2, 0, 3]);
    assert_eq!(rank_order(&entries, 3), vec![4, 1, 2]);
    let full = rank_order(&entries, 10);
    for limit in 0..=6 {
        let cut = rank_order(&entries, limit);
        assert_eq!(cut[..], full[..cut.len()]);
        assert_eq!(cut.len(), limit.min(entries.len()));
    }
    assert_eq!(rank_order(&entries, 0), Vec::<usize>::new());
    assert_eq!(rank_order(&Vec::new(), 5), Vec::<usize>::new());
    // equal score and id keep their given order
    let same = vec![entry(7, 0.5), entry(7, 0.5), entry(2, 0.1)];
    assert_eq!(rank_order(&same, 3), vec![0, 1, 2]);
}

#[test]
fn ranked_order_prefers_interest_matches_and_limits_daily_count() {
    let profile = profile(&["rust", "security"], &["sports"]);
    let candidates = [
        (1, "Football result", "sports update", "news", Utc.with_ymd_and_hms(2026, 4, 23, 1, 0, 0).unwrap(), 0.2f32),
        (2, "Rust security advisory", "A rust crate published a security fix", "security_advisory", Utc.with_ymd_and_hms(2026, 4, 23, 3, 0, 0).unwrap(), 0.8f32),
        (3, "Database release", "Release notes for storage internals", "release_note", Utc.with_ymd_and_hms(2026, 4, 23, 2, 0, 0).unwrap(), 0.3f32),
    ];
    let mut entries = Vec::new();
    let mut hits = Vec::new();
    for (id, title, summary, source, published, component) in candidates {
        let s = interest_signals(title, summary, source, &profile);
        let embedding = vec![component; 16];
        let embedding_signal = embedding.iter().map(|v| *v as f64).sum::<f64>() / embedding.len() as f64;
        let score = s.keyword_hits as f64 * 3.0 - s.negative_hits as f64 * 4.0
            + s.source_bonus_tenths as f64 / 10.0
            + embedding_signal
            + published.timestamp() as f64 / 100_000_000_000.0;
        entries.push(RankEntry { item_id: id, score_bits: score.to_bits() });
        hits.push(s.keyword_hits);
    }
    let order = rank_order(&entries, 2);
    let ids: Vec<i64> = order.iter().map(|i| entries[*i].item_id).collect();
    assert_eq!(ids, vec![2, 3]);
    assert!(f64::from_bits(entries[order[0]].score_bits) > f64::from_bits(entries[order[1]].score_bits));
    assert!(hits[order[0]] >= 2);
}

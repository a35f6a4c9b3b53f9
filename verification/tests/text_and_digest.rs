use rastraq::digest::content_hash;
use rastraq::edition::{plan_edition_slots, EditionSlot};
use rastraq::text::{chars_of, compact_whitespace, push_decimal, string_from_chars, text_contains, to_hex, white_space};
use sha2::{Digest, Sha256};

#[test]
fn white_space_agrees_with_std() {
    for code in 0u32..0x11_0000 {
        if let Some(c) = char::from_u32(code) {
            assert_eq!(white_space(c), c.is_whitespace(), "U+{code:04X}");
        }
    }
}

#[test]
fn compact_whitespace_joins_words_with_one_space() {
    let out: String = compact_whitespace("  a \t\n b\u{2003}c  ").into_iter().collect();
    assert_eq!(out, "a b c");
    let none: String = compact_whitespace("   ").into_iter().collect();
    assert_eq!(none, "");
}

#[test]
fn text_contains_finds_substrings() {
    let hay = chars_of("rust security advisory");
    assert!(text_contains(&hay, &chars_of("security")));
    assert!(text_contains(&hay, &chars_of("")));
    assert!(text_contains(&hay, &chars_of("advisory")));
    assert!(!text_contains(&hay, &chars_of("advisoryx")));
    assert!(!text_contains(&chars_of(""), &chars_of("a")));
    assert_eq!(string_from_chars(&hay), "rust security advisory");
}

#[test]
fn decimal_and_hex_rendering() {
    let mut s = String::from("n=");
    push_decimal(&mut s, 0);
    push_decimal(&mut s, 907);
    assert_eq!(s, "n=0907");
    let mut big = String::new();
    push_decimal(&mut big, usize::MAX);
    assert_eq!(big, usize::MAX.to_string());
    assert_eq!(to_hex(&vec![0x00, 0x0f, 0xa0, 0xff]), "000fa0ff");
}

#[test]
fn content_hash_is_hex_sha256_of_url_and_content() {
    let hash = content_hash("https://example.com/rust-security", "Rust crate maintainers published a security fix.");
    let expected = format!("{:x}", Sha256::digest("https://example.com/rust-security\nRust crate maintainers published a security fix.".as_bytes()));
    assert_eq!(hash, expected);
    assert_eq!(hash.len(), 64);
    assert!(hash.chars().all(|c| c.is_ascii_digit() || ('a'..='f').contains(&c)));
    assert_ne!(content_hash("a", "b"), content_hash("a\nb", ""));
    assert_eq!(content_hash("a\nb", ""), content_hash("a", "b\n"));
}

#[test]
fn edition_slots_are_written_once() {
    let slots = plan_edition_slots(0, &vec![7, 3, 9]);
    assert_eq!(
        slots,
        vec![
            EditionSlot { item_id: 7, rank: 1 },
            EditionSlot { item_id: 3, rank: 2 },
            EditionSlot { item_id: 9, rank: 3 },
        ]
    );
    assert!(plan_edition_slots(3, &vec![1, 2]).is_empty());
    assert!(plan_edition_slots(0, &Vec::new()).is_empty());
}

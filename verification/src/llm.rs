//! The deterministic mock language-model provider: it summarises an item by
//! its title and the first characters of its compacted content, and draws an
//! embedding from the SHA-256 digest of title and content.
use vstd::prelude::*;
use crate::digest::{sha256_of, two_line_bytes, two_line_digest};
use crate::text::{compact_text, compact_whitespace, string_from_chars, texts_of};

verus! {

broadcast use vstd::string::group_string_axioms;

/// The most characters of content that a mock summary quotes.
pub const EXCERPT_CHARS: usize = 180;

/// The number of embedding components.
pub const EMBEDDING_DIMENSIONS: usize = 16;

/// The provider that answers without a model: the same title and content
/// always give the same summary and embedding.
#[derive(Debug)]
pub struct DeterministicMockProvider;

impl Default for DeterministicMockProvider {
    fn default() -> (provider: Self)
        ensures
            provider == (DeterministicMockProvider {}),
    {
        DeterministicMockProvider
    }
}

/// What a provider returns for an item. Each embedding component is given as
/// a 16-bit unit `u`; the component is `u / 65535 * 2 - 1`, in `[-1, 1]`.
#[derive(Debug, Clone)]
pub struct ProcessedText {
    pub provider: String,
    pub model: String,
    pub summary: String,
    pub key_points: Vec<String>,
    pub embedding_units: Vec<u16>,
}

/// The excerpt of a content: its compacted text, cut to 180 characters.
pub open spec fn excerpt_of(content: Seq<char>) -> Seq<char> {
    let compact = compact_text(content);
    if compact.len() <= EXCERPT_CHARS {
        compact
    } else {
        compact.take(EXCERPT_CHARS as int)
    }
}

/// The excerpt is the start of the compacted content: all of it when it is
/// at most 180 characters long, its first 180 characters otherwise; it holds
/// white space only as single spaces between words.
pub proof fn law_excerpt_is_head_of_compacted_content(content: Seq<char>)
    ensures
        excerpt_of(content).len() == if compact_text(content).len() <= 180 { compact_text(content).len() } else { 180 },
        forall|i: int| 0 <= i < excerpt_of(content).len() ==> #[trigger] excerpt_of(content)[i] == compact_text(content)[i],
        crate::text::single_spaced(compact_text(content)),
{
    crate::text::law_compact_text_single_spaced(content);
}

/// The embedding units drawn from a digest: its first 16 pairs of bytes, each
/// read as a big-endian 16-bit number.
pub open spec fn embedding_units_of(digest: Seq<u8>) -> Seq<u16> {
    Seq::new(EMBEDDING_DIMENSIONS as nat, |i: int| (digest[2 * i] as int * 256 + digest[2 * i + 1] as int) as u16)
}

/// The 16 big-endian byte pairs at the start of `digest`.
fn embedding_units(digest: &Vec<u8>) -> (units: Vec<u16>)
    requires
        digest@.len() == 32,
    ensures
        units@ == embedding_units_of(digest@),
{
    let mut units: Vec<u16> = Vec::new();
    for i in 0..EMBEDDING_DIMENSIONS
        invariant
            digest@.len() == 32,
            units@.len() == i,
            forall|k: int| 0 <= k < i ==> units@[k] == (digest@[2 * k] as int * 256 + digest@[2 * k + 1] as int) as u16,
    {
        let hi = digest[2 * i] as u16;
        let lo = digest[2 * i + 1] as u16;
        units.push(hi * 256 + lo);
    }
    assert(units@ =~= embedding_units_of(digest@));
    units
}

impl DeterministicMockProvider {
    /// Summarises and embeds an item: the summary is the title, a colon, a
    /// space and the excerpt of the content; the one key point is the
    /// excerpt; the embedding comes from the digest of title and content.
    pub fn summarize_and_embed(&self, title: &str, content: &str) -> (processed: ProcessedText)
        ensures
            processed.provider@ == "deterministic-mock"@,
            processed.model@ == "mock-summary-embedding-v1"@,
            processed.summary@ == title@ + ": "@ + excerpt_of(content@),
            texts_of(processed.key_points@) == seq![excerpt_of(content@)],
            processed.embedding_units@ == embedding_units_of(sha256_of(two_line_bytes(title@, content@))),
    {
        let compact = compact_whitespace(content);
        let mut excerpt_chars: Vec<char> = Vec::new();
        let n = if compact.len() <= EXCERPT_CHARS { compact.len() } else { EXCERPT_CHARS };
        for i in 0..n
            invariant
                n <= compact@.len(),
                excerpt_chars@ == compact@.take(i as int),
        {
            excerpt_chars.push(compact[i]);
            assert(compact@.take(i + 1) =~= compact@.take(i as int).push(compact@[i as int]));
        }
        assert(compact@.len() <= EXCERPT_CHARS ==> compact@.take(n as int) =~= compact@);
        let excerpt = string_from_chars(&excerpt_chars);
        let mut summary = title.to_owned();
        summary.append(": ");
        summary.append(excerpt.as_str());
        let digest = two_line_digest(title, content);
        let key_points = vec![excerpt];
        assert(texts_of(key_points@) =~= seq![excerpt_of(content@)]);
        ProcessedText {
            provider: "deterministic-mock".to_owned(),
            model: "mock-summary-embedding-v1".to_owned(),
            summary,
            key_points,
            embedding_units: embedding_units(&digest),
        }
    }
}

} // verus!

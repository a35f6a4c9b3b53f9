//! Explicit ranking: the interest profile, the integer interest signals of a
//! candidate, and the order in which scored candidates enter a daily edition.
//!
//! The score itself mixes these signals with floating-point embedding and
//! recency signals; the library receives it as the bit pattern of an `f64`
//! and orders by the total order that `f64::total_cmp` documents.
use vstd::prelude::*;
use crate::text::{
    chars_of, contains_text, decimal_text, lowercase, push_decimal, texts_of, text_contains,
    to_lowercase,
};

verus! {

broadcast use vstd::string::group_string_axioms;

/// The keywords a reader cares about and the keywords that push an item down.
#[derive(Debug, Clone)]
pub struct InterestProfile {
    pub keywords: Vec<String>,
    pub negative_keywords: Vec<String>,
}

/// The keywords of a profile that has learned nothing yet.
pub open spec fn default_interest_keywords() -> Seq<Seq<char>> {
    seq!["rust"@, "security"@, "ai"@, "infrastructure"@]
}

impl Default for InterestProfile {
    /// The starting profile: four keywords and no negative keywords.
    fn default() -> (profile: Self)
        ensures
            texts_of(profile.keywords@) == default_interest_keywords(),
            profile.negative_keywords@.len() == 0,
    {
        let keywords = vec![
            "rust".to_owned(),
            "security".to_owned(),
            "ai".to_owned(),
            "infrastructure".to_owned(),
        ];
        assert(texts_of(keywords@) =~= default_interest_keywords());
        InterestProfile { keywords, negative_keywords: Vec::new() }
    }
}

/// The lower-cased text in which keywords are looked for: title, one space,
/// summary.
pub open spec fn haystack_of(title: Seq<char>, summary: Seq<char>) -> Seq<char> {
    lowercase(title + " "@ + summary)
}

/// How many of `keywords` occur, lower-cased, in `haystack`.
pub open spec fn count_hits(haystack: Seq<char>, keywords: Seq<Seq<char>>) -> nat
    decreases keywords.len(),
{
    if keywords.len() == 0 {
        0
    } else {
        count_hits(haystack, keywords.drop_last()) + if contains_text(
            haystack,
            lowercase(keywords.last()),
        ) {
            1nat
        } else {
            0nat
        }
    }
}

/// Each keyword counts at most once, however often it occurs.
pub proof fn law_hits_at_most_keywords(haystack: Seq<char>, keywords: Seq<Seq<char>>)
    ensures
        count_hits(haystack, keywords) <= keywords.len(),
    decreases keywords.len(),
{
    if keywords.len() > 0 {
        law_hits_at_most_keywords(haystack, keywords.drop_last());
    }
}

/// The bonus of a source type, in tenths of a point.
pub open spec fn source_bonus_of(source_type: Seq<char>) -> u32 {
    if source_type == "security_advisory"@ {
        12
    } else if source_type == "release_note"@ || source_type == "github_release"@ {
        8
    } else if source_type == "technical_blog"@ || source_type == "paper"@ {
        6
    } else {
        0
    }
}

/// The reason shown beside a ranked item.
pub open spec fn reason_text(keyword_hits: nat) -> Seq<char> {
    if keyword_hits > 0 {
        "matched "@ + decimal_text(keyword_hits) + " interest keyword(s)"@
    } else {
        "ranked by source and embedding signals"@
    }
}

/// The integer signals of one candidate.
#[derive(Debug, Clone)]
pub struct InterestSignals {
    /// Profile keywords found in the candidate's title and summary.
    pub keyword_hits: usize,
    /// Negative keywords found there.
    pub negative_hits: usize,
    /// The source-type bonus, in tenths of a point.
    pub source_bonus_tenths: u32,
    /// Why the candidate ranks where it does.
    pub reason: String,
}

/// The bonus that the source type earns, in tenths of a point: a security
/// advisory 12, a release note or GitHub release 8, a technical blog or paper
/// 6, anything else 0.
pub fn source_bonus_tenths(source_type: &str) -> (bonus: u32)
    ensures
        bonus == source_bonus_of(source_type@),
{
    let s = source_type.to_owned();
    if s == "security_advisory".to_owned() {
        12
    } else if s == "release_note".to_owned() || s == "github_release".to_owned() {
        8
    } else if s == "technical_blog".to_owned() || s == "paper".to_owned() {
        6
    } else {
        0
    }
}

/// The reason for a candidate with `keyword_hits` profile keywords.
pub fn ranking_reason(keyword_hits: usize) -> (reason: String)
    ensures
        reason@ == reason_text(keyword_hits as nat),
{
    if keyword_hits > 0 {
        let mut s = "matched ".to_owned();
        push_decimal(&mut s, keyword_hits);
        s.append(" interest keyword(s)");
        s
    } else {
        "ranked by source and embedding signals".to_owned()
    }
}

/// How many of `keywords` occur, lower-cased, in `haystack`.
fn count_keyword_hits(haystack: &Vec<char>, keywords: &Vec<String>) -> (hits: usize)
    ensures
        hits == count_hits(haystack@, texts_of(keywords@)),
{
    let n = keywords.len();
    let mut hits: usize = 0;
    proof {
        assert(texts_of(keywords@).take(0) =~= Seq::<Seq<char>>::empty());
    }
    for i in 0..n
        invariant
            n == keywords@.len(),
            hits == count_hits(haystack@, texts_of(keywords@).take(i as int)),
            hits <= i,
    {
        let lower = to_lowercase(keywords[i].as_str());
        let needle = chars_of(lower.as_str());
        proof {
            assert(texts_of(keywords@).take(i + 1).drop_last() =~= texts_of(keywords@).take(i as int));
            assert(texts_of(keywords@).take(i + 1).last() == keywords@[i as int]@);
        }
        if text_contains(haystack, &needle) {
            hits = hits + 1;
        }
    }
    assert(texts_of(keywords@).take(n as int) =~= texts_of(keywords@));
    hits
}

/// The integer signals of a candidate under `profile`: how many profile
/// keywords and negative keywords occur in the lower-cased "title summary"
/// text, the source bonus, and the reason text.
pub fn interest_signals(title: &str, summary: &str, source_type: &str, profile: &InterestProfile) -> (signals: InterestSignals)
    ensures
        signals.keyword_hits == count_hits(haystack_of(title@, summary@), texts_of(profile.keywords@)),
        signals.negative_hits == count_hits(haystack_of(title@, summary@), texts_of(profile.negative_keywords@)),
        signals.keyword_hits == texts_of(profile.keywords@).filter(
            |k: Seq<char>| contains_text(lowercase(title@ + " "@ + summary@), lowercase(k)),
        ).len(),
        signals.negative_hits == texts_of(profile.negative_keywords@).filter(
            |k: Seq<char>| contains_text(lowercase(title@ + " "@ + summary@), lowercase(k)),
        ).len(),
        signals.source_bonus_tenths == source_bonus_of(source_type@),
        signals.reason@ == reason_text(signals.keyword_hits as nat),
{
    let mut text = title.to_owned();
    text.append(" ");
    text.append(summary);
    let lower = to_lowercase(text.as_str());
    let haystack = chars_of(lower.as_str());
    let keyword_hits = count_keyword_hits(&haystack, &profile.keywords);
    let negative_hits = count_keyword_hits(&haystack, &profile.negative_keywords);
    proof {
        law_signals_search_the_lowercased_whole_text(title@, summary@, texts_of(profile.keywords@));
        law_signals_search_the_lowercased_whole_text(title@, summary@, texts_of(profile.negative_keywords@));
    }
    InterestSignals {
        keyword_hits,
        negative_hits,
        source_bonus_tenths: source_bonus_tenths(source_type),
        reason: ranking_reason(keyword_hits),
    }
}

/// The number of hits is the number of keywords whose lower-cased form
/// occurs in the text searched, one per keyword.
pub proof fn law_hits_count_matching_keywords(haystack: Seq<char>, keywords: Seq<Seq<char>>)
    ensures
        count_hits(haystack, keywords) == keywords.filter(|k: Seq<char>| contains_text(haystack, lowercase(k))).len(),
    decreases keywords.len(),
{
    if keywords.len() > 0 {
        law_hits_count_matching_keywords(haystack, keywords.drop_last());
        assert(keywords.drop_last().push(keywords.last()) =~= keywords);
        keywords.drop_last().lemma_filter_len_push(|k: Seq<char>| contains_text(haystack, lowercase(k)), keywords.last());
    }
}

/// Keywords are searched in the lower-cased whole text: title, one space,
/// summary.
pub proof fn law_signals_search_the_lowercased_whole_text(title: Seq<char>, summary: Seq<char>, keywords: Seq<Seq<char>>)
    ensures
        count_hits(haystack_of(title, summary), keywords) == keywords.filter(
            |k: Seq<char>| contains_text(lowercase(title + " "@ + summary), lowercase(k)),
        ).len(),
{
    law_hits_count_matching_keywords(haystack_of(title, summary), keywords);
}

/// The total-order key of an `f64` given by its bits, as `f64::total_cmp`
/// documents it: the bits read as a signed integer, with the magnitude bits
/// flipped when the sign bit is set. Comparing keys compares the floats.
pub open spec fn score_key(bits: u64) -> int {
    if bits < 0x8000_0000_0000_0000 {
        bits as int
    } else {
        0x7fff_ffff_ffff_ffff - bits as int
    }
}

/// The order `f64::total_cmp` puts on bit patterns: patterns with the sign
/// bit clear by their value, patterns with the sign bit set by reversed value,
/// and every pattern with the sign bit set below every pattern without it.
pub open spec fn float_order_below(a: u64, b: u64) -> bool {
    if a < 0x8000_0000_0000_0000 && b < 0x8000_0000_0000_0000 {
        a < b
    } else if a >= 0x8000_0000_0000_0000 && b >= 0x8000_0000_0000_0000 {
        a > b
    } else {
        a >= 0x8000_0000_0000_0000
    }
}

/// Comparing keys compares the floats: a key is below another exactly when
/// its float comes first in the total order, and keys are equal only for
/// equal bit patterns.
pub proof fn law_score_key_follows_float_order(a: u64, b: u64)
    ensures
        (score_key(a) < score_key(b)) <==> float_order_below(a, b),
        (score_key(a) == score_key(b)) <==> a == b,
{
}

/// The total-order key of the `f64` whose bits are `bits`.
pub fn score_order_key(bits: u64) -> (key: i64)
    ensures
        key == score_key(bits),
{
    if bits < 0x8000_0000_0000_0000 {
        bits as i64
    } else {
        let magnitude = bits - 0x8000_0000_0000_0000;
        -(magnitude as i64) - 1
    }
}

/// A scored candidate: its item id and the bits of its `f64` score.
#[derive(Debug, Clone, Copy)]
pub struct RankEntry {
    pub item_id: i64,
    pub score_bits: u64,
}

/// Entry `i` of `entries` is placed before entry `j`: a higher score first,
/// then the lower item id, then the earlier position.
pub open spec fn placed_before(entries: Seq<RankEntry>, i: int, j: int) -> bool {
    let ki = score_key(entries[i].score_bits);
    let kj = score_key(entries[j].score_bits);
    ||| ki > kj
    ||| ki == kj && entries[i].item_id < entries[j].item_id
    ||| ki == kj && entries[i].item_id == entries[j].item_id && i < j
}

/// `order` is the ranking of `entries` cut to `limit`: it lists
/// `min(limit, entries.len())` positions of `entries`, each placed before
/// the next, and every position it lists is placed before every position it
/// leaves out.
pub open spec fn is_ranking(entries: Seq<RankEntry>, limit: nat, order: Seq<usize>) -> bool {
    &&& order.len() == if limit < entries.len() { limit } else { entries.len() }
    &&& forall|k: int| 0 <= k < order.len() ==> #[trigger] order[k] < entries.len()
    &&& forall|a: int, b: int|
        0 <= a < b < order.len() ==> placed_before(entries, #[trigger] order[a] as int, #[trigger] order[b] as int)
    &&& forall|k: int, j: int|
        0 <= k < order.len() && 0 <= j < entries.len() && !order.contains(j as usize)
            ==> #[trigger] placed_before(entries, order[k] as int, j)
}

/// The position, among those not taken yet, that is placed before all others.
fn best_remaining(entries: &Vec<RankEntry>, taken: &Vec<bool>) -> (best: usize)
    requires
        taken@.len() == entries@.len(),
        exists|j: int| 0 <= j < taken@.len() && !taken@[j],
    ensures
        best < entries@.len(),
        !taken@[best as int],
        forall|j: int|
            0 <= j < entries@.len() && !taken@[j] && j != best ==> placed_before(entries@, best as int, j),
{
    let n = entries.len();
    let mut best: usize = 0;
    while taken[best]
        invariant
            n == entries@.len(),
            taken@.len() == n,
            best < n,
            exists|j: int| 0 <= j < n && !taken@[j],
            forall|j: int| 0 <= j < best ==> taken@[j],
        decreases n - best,
    {
        best = best + 1;
        if best == n {
            assert(false);
        }
    }
    let best_key0 = score_order_key(entries[best].score_bits);
    let mut best_key = best_key0;
    let mut k: usize = best + 1;
    while k < n
        invariant
            n == entries@.len(),
            taken@.len() == n,
            best < k <= n,
            !taken@[best as int],
            best_key == score_key(entries@[best as int].score_bits),
            forall|j: int| 0 <= j < k && !taken@[j] && j != best ==> placed_before(entries@, best as int, j),
        decreases n - k,
    {
        if !taken[k] {
            let key = score_order_key(entries[k].score_bits);
            if key > best_key || (key == best_key && entries[k].item_id < entries[best].item_id) {
                best = k;
                best_key = key;
            }
        }
        k = k + 1;
    }
    best
}

/// Orders scored candidates for an edition and keeps the first `limit`: a
/// higher score first (by `f64::total_cmp`), equal scores by ascending item
/// id, and equal pairs in their given order, as a stable sort followed by a
/// truncation gives them. Returns positions into `entries`.
pub fn rank_order(entries: &Vec<RankEntry>, limit: usize) -> (order: Vec<usize>)
    ensures
        is_ranking(entries@, limit as nat, order@),
        forall|x: int, y: int|
            #![trigger order@[x], order@[y]]
            0 <= x < y < order@.len() ==> !float_order_below(
                entries@[order@[x] as int].score_bits,
                entries@[order@[y] as int].score_bits,
            ),
        forall|k: int, j: int|
            #![trigger float_order_below(entries@[order@[k] as int].score_bits, entries@[j].score_bits)]
            0 <= k < order@.len() && 0 <= j < entries@.len() && !order@.contains(j as usize)
                ==> !float_order_below(entries@[order@[k] as int].score_bits, entries@[j].score_bits),
{
    let n = entries.len();
    let m = if limit < n { limit } else { n };
    let mut taken: Vec<bool> = Vec::new();
    for i in 0..n
        invariant
            taken@.len() == i,
            forall|j: int| 0 <= j < i ==> !taken@[j],
    {
        taken.push(false);
    }
    let mut order: Vec<usize> = Vec::new();
    for r in 0..m
        invariant
            n == entries@.len(),
            m <= n,
            taken@.len() == n,
            order@.len() == r,
            forall|k: int| 0 <= k < r ==> #[trigger] order@[k] < n,
            forall|j: int| 0 <= j < n ==> (taken@[j] <==> order@.contains(j as usize)),
            forall|a: int, b: int|
                0 <= a < b < r ==> placed_before(entries@, #[trigger] order@[a] as int, #[trigger] order@[b] as int),
            forall|k: int, j: int|
                0 <= k < r && 0 <= j < n && !taken@[j] ==> #[trigger] placed_before(entries@, order@[k] as int, j),
    {
        proof {
            // fewer than n positions are taken, so one is left
            lemma_taken_count(order@, n as int);
            let j = choose|j: int| 0 <= j < n && !#[trigger] listed(order@, j);
            assert(!taken@[j]);
        }
        let best = best_remaining(entries, &taken);
        let ghost old_order = order@;
        let ghost old_taken = taken@;
        order.push(best);
        taken.set(best, true);
        proof {
            assert forall|j: int| 0 <= j < n implies (taken@[j] <==> order@.contains(j as usize)) by {
                if j == best {
                    assert(order@[r as int] == best);
                } else {
                    if old_order.contains(j as usize) {
                        let w = choose|w: int| 0 <= w < old_order.len() && old_order[w] == j as usize;
                        assert(order@[w] == j as usize);
                    }
                    if order@.contains(j as usize) {
                        let w = choose|w: int| 0 <= w < order@.len() && order@[w] == j as usize;
                        assert(w != r);
                        assert(old_order[w] == j as usize);
                    }
                }
            }
            assert forall|a: int, b: int|
                0 <= a < b < r + 1 implies placed_before(entries@, #[trigger] order@[a] as int, #[trigger] order@[b] as int) by {
                if b == r {
                    assert(!old_taken[best as int]);
                    assert(order@[a] == old_order[a]);
                } else {
                    assert(order@[a] == old_order[a]);
                    assert(order@[b] == old_order[b]);
                }
            }
            assert forall|k: int, j: int|
                0 <= k < r + 1 && 0 <= j < n && !taken@[j] implies #[trigger] placed_before(entries@, order@[k] as int, j) by {
                assert(j != best);
                assert(!old_taken[j]);
                if k < r {
                    assert(order@[k] == old_order[k]);
                }
            }
        }
    }
    proof {
        assert forall|k: int, j: int|
            0 <= k < order@.len() && 0 <= j < n && !order@.contains(j as usize)
            implies #[trigger] placed_before(entries@, order@[k] as int, j) by {
            assert(!taken@[j]);
        }
        lemma_ranking_float_facts(entries@, limit as nat, order@);
    }
    order
}

/// Position `j` is in `order`.
spec fn listed(order: Seq<usize>, j: int) -> bool {
    order.contains(j as usize)
}

/// A list of `r` positions below `n`, each placed before the next, cannot
/// hold every position below `n` when `r < n`.
proof fn lemma_taken_count(order: Seq<usize>, n: int)
    requires
        order.len() < n <= usize::MAX,
        forall|k: int| 0 <= k < order.len() ==> #[trigger] order[k] < n,
    ensures
        exists|j: int| 0 <= j < n && !#[trigger] listed(order, j),
{
    let ints = order.map_values(|u: usize| u as int);
    if forall|j: int| 0 <= j < n ==> #[trigger] listed(order, j) {
        vstd::set_lib::lemma_int_range(0, n);
        ints.lemma_cardinality_of_set();
        vstd::seq_lib::seq_to_set_is_finite(ints);
        assert forall|j: int| vstd::set_lib::set_int_range(0, n).contains(j) implies ints.to_set().contains(j) by {
            assert(listed(order, j));
            let w = choose|w: int| 0 <= w < order.len() && order[w] == j as usize;
            assert(ints[w] == j);
        }
        vstd::set_lib::lemma_len_subset(vstd::set_lib::set_int_range(0, n), ints.to_set());
        assert(false);
    }
}

/// The first `k` positions of two rankings of the same entries agree.
proof fn lemma_rankings_agree_upto(
    entries: Seq<RankEntry>,
    l1: nat,
    o1: Seq<usize>,
    l2: nat,
    o2: Seq<usize>,
    k: int,
)
    requires
        is_ranking(entries, l1, o1),
        is_ranking(entries, l2, o2),
        l1 <= l2,
        0 <= k <= o1.len(),
    ensures
        forall|t: int| 0 <= t < k ==> o1[t] == o2[t],
    decreases k,
{
    if k > 0 {
        lemma_rankings_agree_upto(entries, l1, o1, l2, o2, k - 1);
        let t = k - 1;
        let x = o1[t];
        let y = o2[t];
        assert(o1.len() <= o2.len());
        if x != y {
            // where does x sit in o2?
            if o2.contains(x) {
                let w = choose|w: int| 0 <= w < o2.len() && o2[w] == x;
                if w < t {
                    assert(o1[w] == x);
                    assert(placed_before(entries, o1[w] as int, o1[t] as int));
                }
                assert(w > t);
                assert(placed_before(entries, o2[t] as int, o2[w] as int));
            } else {
                assert(placed_before(entries, o2[t] as int, x as int));
            }
            // and y in o1?
            if o1.contains(y) {
                let w = choose|w: int| 0 <= w < o1.len() && o1[w] == y;
                if w < t {
                    assert(o2[w] == y);
                    assert(placed_before(entries, o2[w] as int, o2[t] as int));
                }
                assert(w > t);
                assert(placed_before(entries, o1[t] as int, o1[w] as int));
            } else {
                assert(placed_before(entries, o1[t] as int, y as int));
            }
            assert(false);
        }
    }
}

/// A ranking is determined by the entries and the limit, and cutting to a
/// smaller limit keeps the head of the longer ranking: with `l1 <= l2`, the
/// ranking cut to `l1` is the first `l1` places of the ranking cut to `l2`.
pub proof fn law_smaller_limit_keeps_head(
    entries: Seq<RankEntry>,
    l1: nat,
    o1: Seq<usize>,
    l2: nat,
    o2: Seq<usize>,
)
    requires
        is_ranking(entries, l1, o1),
        is_ranking(entries, l2, o2),
        l1 <= l2,
    ensures
        o1 == o2.take(o1.len() as int),
{
    lemma_rankings_agree_upto(entries, l1, o1, l2, o2, o1.len() as int);
    assert(o1 =~= o2.take(o1.len() as int));
}

/// In a ranking, an earlier place never holds a lower score than a later
/// one, and equal scores come by ascending item id.
pub proof fn law_ranking_puts_higher_scores_first(
    entries: Seq<RankEntry>,
    limit: nat,
    order: Seq<usize>,
    x: int,
    y: int,
)
    requires
        is_ranking(entries, limit, order),
        0 <= x < y < order.len(),
    ensures
        !float_order_below(entries[order[x] as int].score_bits, entries[order[y] as int].score_bits),
        entries[order[x] as int].score_bits == entries[order[y] as int].score_bits
            ==> entries[order[x] as int].item_id <= entries[order[y] as int].item_id,
{
    let a = entries[order[x] as int].score_bits;
    let b = entries[order[y] as int].score_bits;
    assert(placed_before(entries, order[x] as int, order[y] as int));
    law_score_key_follows_float_order(a, b);
    law_score_key_follows_float_order(b, a);
}

/// A ranking keeps the best entries: no entry left out has a higher score
/// than one kept, nor an equal score and a lower item id.
pub proof fn law_ranking_keeps_the_best(
    entries: Seq<RankEntry>,
    limit: nat,
    order: Seq<usize>,
    k: int,
    j: int,
)
    requires
        is_ranking(entries, limit, order),
        0 <= k < order.len(),
        0 <= j < entries.len(),
        !order.contains(j as usize),
    ensures
        !float_order_below(entries[order[k] as int].score_bits, entries[j].score_bits),
        entries[order[k] as int].score_bits == entries[j].score_bits
            ==> entries[order[k] as int].item_id <= entries[j].item_id,
{
    let a = entries[order[k] as int].score_bits;
    let b = entries[j].score_bits;
    assert(placed_before(entries, order[k] as int, j));
    law_score_key_follows_float_order(a, b);
    law_score_key_follows_float_order(b, a);
}

/// The float-order facts of a whole ranking.
proof fn lemma_ranking_float_facts(entries: Seq<RankEntry>, limit: nat, order: Seq<usize>)
    requires
        is_ranking(entries, limit, order),
    ensures
        forall|x: int, y: int|
            #![trigger order[x], order[y]]
            0 <= x < y < order.len() ==> !float_order_below(
                entries[order[x] as int].score_bits,
                entries[order[y] as int].score_bits,
            ),
        forall|k: int, j: int|
            #![trigger float_order_below(entries[order[k] as int].score_bits, entries[j].score_bits)]
            0 <= k < order.len() && 0 <= j < entries.len() && !order.contains(j as usize)
                ==> !float_order_below(entries[order[k] as int].score_bits, entries[j].score_bits),
{
    assert forall|x: int, y: int|
        #![trigger order[x], order[y]]
        0 <= x < y < order.len() implies !float_order_below(
            entries[order[x] as int].score_bits,
            entries[order[y] as int].score_bits,
        ) by {
        law_ranking_puts_higher_scores_first(entries, limit, order, x, y);
    }
    assert forall|k: int, j: int|
        #![trigger float_order_below(entries[order[k] as int].score_bits, entries[j].score_bits)]
        0 <= k < order.len() && 0 <= j < entries.len() && !order.contains(j as usize)
        implies !float_order_below(entries[order[k] as int].score_bits, entries[j].score_bits) by {
        law_ranking_keeps_the_best(entries, limit, order, k, j);
    }
}

/// No position is listed twice in a ranking.
pub proof fn law_ranking_lists_each_once(entries: Seq<RankEntry>, limit: nat, order: Seq<usize>)
    requires
        is_ranking(entries, limit, order),
    ensures
        order.no_duplicates(),
{
    assert forall|a: int, b: int| 0 <= a < order.len() && 0 <= b < order.len() && a != b implies order[a] != order[b] by {
        if a < b {
            assert(placed_before(entries, order[a] as int, order[b] as int));
        } else {
            assert(placed_before(entries, order[b] as int, order[a] as int));
        }
    }
}

} // verus!

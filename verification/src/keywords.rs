//! Interest keywords learned from feedback: the titles of items a reader
//! marked as interesting are cut into keyword tokens, and new tokens are
//! appended to the default keywords.
use vstd::prelude::*;
use vstd::utf8::{encode_utf8, is_ascii_chars};
use crate::ranking::{default_interest_keywords, InterestProfile};
use crate::text::{
    alphanumeric, ascii_lower, ascii_lowercase, join_words, lemma_ascii_lower_char, chars_of, is_alphanumeric, is_ascii_alphanumeric, lowercase,
    lemma_split_joined_words, split_pieces, string_from_chars, texts_of, to_lowercase,
    utf8_len_at_least,
};

verus! {

broadcast use vstd::string::group_string_axioms;

/// Characters that end a keyword: everything that is not alphanumeric.
pub open spec fn keyword_separator(c: char) -> bool {
    !alphanumeric(c)
}

/// The pieces of a title between non-alphanumeric characters.
pub open spec fn keyword_pieces(title: Seq<char>) -> Seq<Seq<char>> {
    split_pieces(title, |c: char| keyword_separator(c))
}

/// A piece is kept as a keyword when its UTF-8 encoding has at least four bytes.
pub open spec fn long_enough(piece: Seq<char>) -> bool {
    encode_utf8(piece).len() >= 4
}

/// The kept pieces, lower-cased, in order.
pub open spec fn tokens_from_pieces(pieces: Seq<Seq<char>>) -> Seq<Seq<char>>
    decreases pieces.len(),
{
    if pieces.len() == 0 {
        Seq::empty()
    } else {
        let rest = tokens_from_pieces(pieces.drop_last());
        if long_enough(pieces.last()) {
            rest.push(lowercase(pieces.last()))
        } else {
            rest
        }
    }
}

/// The keyword tokens of a title.
pub open spec fn keyword_tokens(title: Seq<char>) -> Seq<Seq<char>> {
    tokens_from_pieces(keyword_pieces(title))
}

/// The pieces of an ASCII title between characters that are not ASCII
/// letters or digits.
pub open spec fn ascii_keyword_pieces(title: Seq<char>) -> Seq<Seq<char>> {
    split_pieces(title, |c: char| !is_ascii_alphanumeric(c))
}

/// The pieces of at least four characters, in ASCII lower case, in order.
pub open spec fn ascii_tokens_from_pieces(pieces: Seq<Seq<char>>) -> Seq<Seq<char>>
    decreases pieces.len(),
{
    if pieces.len() == 0 {
        Seq::empty()
    } else {
        let rest = ascii_tokens_from_pieces(pieces.drop_last());
        if pieces.last().len() >= 4 {
            rest.push(ascii_lowercase(pieces.last()))
        } else {
            rest
        }
    }
}

/// The keyword tokens of an ASCII title, spelled out in ASCII terms.
pub open spec fn ascii_keyword_tokens(title: Seq<char>) -> Seq<Seq<char>> {
    ascii_tokens_from_pieces(ascii_keyword_pieces(title))
}

/// The position of the piece from which token `k` comes.
spec fn token_source(pieces: Seq<Seq<char>>, k: int) -> int
    decreases pieces.len(),
{
    if pieces.len() == 0 {
        0
    } else if k < tokens_from_pieces(pieces.drop_last()).len() {
        token_source(pieces.drop_last(), k)
    } else {
        pieces.len() - 1
    }
}

/// Each token is the lower-cased form of one of the pieces, a long enough one.
proof fn lemma_token_source(pieces: Seq<Seq<char>>, k: int)
    requires
        0 <= k < tokens_from_pieces(pieces).len(),
    ensures
        0 <= token_source(pieces, k) < pieces.len(),
        long_enough(pieces[token_source(pieces, k)]),
        tokens_from_pieces(pieces)[k] == lowercase(pieces[token_source(pieces, k)]),
    decreases pieces.len(),
{
    let front = pieces.drop_last();
    if k < tokens_from_pieces(front).len() {
        lemma_token_source(front, k);
        assert(pieces[token_source(front, k)] == front[token_source(front, k)]);
    }
}

/// Every keyword token of a title is the lower-cased form of a run of
/// alphanumeric characters of the title whose UTF-8 encoding has at least
/// four bytes.
pub proof fn law_tokens_are_long_alphanumeric_runs(title: Seq<char>, k: int)
    requires
        0 <= k < keyword_tokens(title).len(),
    ensures
        exists|m: int| {
            &&& 0 <= m < keyword_pieces(title).len()
            &&& long_enough(#[trigger] keyword_pieces(title)[m])
            &&& forall|j: int| 0 <= j < keyword_pieces(title)[m].len() ==> alphanumeric(#[trigger] keyword_pieces(title)[m][j])
            &&& keyword_tokens(title)[k] == lowercase(keyword_pieces(title)[m])
        },
{
    let pieces = keyword_pieces(title);
    lemma_token_source(pieces, k);
    crate::text::lemma_split_pieces_avoid_separators(title, |c: char| keyword_separator(c));
    let m = token_source(pieces, k);
    assert forall|j: int| 0 <= j < pieces[m].len() implies alphanumeric(#[trigger] pieces[m][j]) by {
        assert(!keyword_separator(pieces[m][j]));
    }
    assert(long_enough(pieces[m]));
}

/// Appends the lower-cased `piece` to `tokens` when it is long enough.
fn finish_piece(tokens: &mut Vec<String>, piece: &Vec<char>)
    ensures
        texts_of(final(tokens)@) == if long_enough(piece@) {
            texts_of(old(tokens)@).push(lowercase(piece@))
        } else {
            texts_of(old(tokens)@)
        },
        is_ascii_chars(piece@) ==> texts_of(final(tokens)@) == if piece@.len() >= 4 {
            texts_of(old(tokens)@).push(ascii_lowercase(piece@))
        } else {
            texts_of(old(tokens)@)
        },
{
    proof {
        if is_ascii_chars(piece@) {
            vstd::utf8::is_ascii_chars_encode_utf8(piece@);
        }
    }
    if utf8_len_at_least(piece, 4) {
        let text = string_from_chars(piece);
        let lower = to_lowercase(text.as_str());
        tokens.push(lower);
        assert(texts_of(tokens@) =~= texts_of(old(tokens)@).push(lowercase(piece@)));
    }
}

/// Cuts a title into keyword tokens: the title is split at every character
/// that is not alphanumeric, pieces shorter than four bytes are dropped, and
/// the rest are lower-cased.
pub fn tokenize_keywords(title: &str) -> (tokens: Vec<String>)
    ensures
        texts_of(tokens@) == keyword_tokens(title@),
        is_ascii_chars(title@) ==> texts_of(tokens@) == ascii_keyword_tokens(title@),
{
    let cs = chars_of(title);
    let n = cs.len();
    let mut tokens: Vec<String> = Vec::new();
    let mut current: Vec<char> = Vec::new();
    proof {
        assert(cs@.take(0) =~= Seq::<char>::empty());
        assert(texts_of(tokens@) =~= Seq::<Seq<char>>::empty());
    }
    for i in 0..n
        invariant
            n == cs@.len(),
            cs@ == title@,
            texts_of(tokens@) == tokens_from_pieces(keyword_pieces(cs@.take(i as int)).drop_last()),
            current@ == keyword_pieces(cs@.take(i as int)).last(),
            is_ascii_chars(cs@) ==> texts_of(tokens@) == ascii_tokens_from_pieces(
                ascii_keyword_pieces(cs@.take(i as int)).drop_last(),
            ),
            is_ascii_chars(cs@) ==> current@ == ascii_keyword_pieces(cs@.take(i as int)).last(),
            is_ascii_chars(cs@) ==> is_ascii_chars(current@),
    {
        let c = cs[i];
        let ghost prev = keyword_pieces(cs@.take(i as int));
        let ghost aprev = ascii_keyword_pieces(cs@.take(i as int));
        proof {
            assert(cs@.take(i + 1).drop_last() =~= cs@.take(i as int));
            assert(cs@.take(i + 1).last() == c);
            crate::text::lemma_split_pieces_nonempty(cs@.take(i as int), |c: char| keyword_separator(c));
            crate::text::lemma_split_pieces_nonempty(cs@.take(i as int), |c: char| !is_ascii_alphanumeric(c));
            if is_ascii_chars(cs@) {
                assert('\0' <= cs@[i as int] <= '\u{7f}');
            }
        }
        if !is_alphanumeric(c) {
            finish_piece(&mut tokens, &current);
            current = Vec::new();
            proof {
                let next = keyword_pieces(cs@.take(i + 1));
                assert(next == prev.push(Seq::<char>::empty()));
                assert(next.drop_last() =~= prev);
                assert(prev =~= prev.drop_last().push(prev.last()));
                if is_ascii_chars(cs@) {
                    let anext = ascii_keyword_pieces(cs@.take(i + 1));
                    assert(anext == aprev.push(Seq::<char>::empty()));
                    assert(anext.drop_last() =~= aprev);
                    assert(aprev =~= aprev.drop_last().push(aprev.last()));
                    assert(current@ =~= Seq::<char>::empty());
                }
            }
        } else {
            let ghost before = current@;
            current.push(c);
            proof {
                let next = keyword_pieces(cs@.take(i + 1));
                assert(next == prev.update(prev.len() - 1, prev.last().push(c)));
                assert(next.drop_last() =~= prev.drop_last());
                if is_ascii_chars(cs@) {
                    let anext = ascii_keyword_pieces(cs@.take(i + 1));
                    assert(anext == aprev.update(aprev.len() - 1, aprev.last().push(c)));
                    assert(anext.drop_last() =~= aprev.drop_last());
                    assert forall|k: int| 0 <= k < current@.len() implies '\0' <= #[trigger] current@[k] <= '\u{7f}' by {
                        if k < current@.len() - 1 {
                            assert(current@[k] == before[k]);
                        }
                    }
                }
            }
        }
    }
    proof {
        assert(cs@.take(n as int) =~= cs@);
        crate::text::lemma_split_pieces_nonempty(cs@, |c: char| keyword_separator(c));
        crate::text::lemma_split_pieces_nonempty(cs@, |c: char| !is_ascii_alphanumeric(c));
        let ps = keyword_pieces(cs@);
        assert(ps =~= ps.drop_last().push(ps.last()));
        assert(ps.drop_last() =~= ps.drop_last().push(ps.last()).drop_last());
        let aps = ascii_keyword_pieces(cs@);
        assert(aps =~= aps.drop_last().push(aps.last()));
        assert(aps.drop_last() =~= aps.drop_last().push(aps.last()).drop_last());
    }
    finish_piece(&mut tokens, &current);
    tokens
}

/// Appends each token of `toks` that `keys` does not hold yet, in order.
pub open spec fn absorb_tokens(keys: Seq<Seq<char>>, toks: Seq<Seq<char>>) -> Seq<Seq<char>>
    decreases toks.len(),
{
    if toks.len() == 0 {
        keys
    } else {
        let k = absorb_tokens(keys, toks.drop_last());
        if k.contains(toks.last()) {
            k
        } else {
            k.push(toks.last())
        }
    }
}

/// The keyword tokens of several titles, title after title.
pub open spec fn title_tokens(titles: Seq<Seq<char>>) -> Seq<Seq<char>>
    decreases titles.len(),
{
    if titles.len() == 0 {
        Seq::empty()
    } else {
        title_tokens(titles.drop_last()) + keyword_tokens(titles.last())
    }
}

/// The keyword list after learning from `titles`: `base`, then every new
/// token of the titles in the order met.
pub open spec fn merged_keywords(base: Seq<Seq<char>>, titles: Seq<Seq<char>>) -> Seq<Seq<char>> {
    absorb_tokens(base, title_tokens(titles))
}

/// Absorbing `a + b` is absorbing `a`, then `b`.
pub proof fn lemma_absorb_concat(keys: Seq<Seq<char>>, a: Seq<Seq<char>>, b: Seq<Seq<char>>)
    ensures
        absorb_tokens(keys, a + b) == absorb_tokens(absorb_tokens(keys, a), b),
    decreases b.len(),
{
    if b.len() == 0 {
        assert(a + b =~= a);
    } else {
        lemma_absorb_concat(keys, a, b.drop_last());
        assert((a + b).drop_last() =~= a + b.drop_last());
        assert((a + b).last() == b.last());
    }
}

/// Whether `v` holds a string equal to `s`.
fn holds_text(v: &Vec<String>, s: &String) -> (b: bool)
    ensures
        b == texts_of(v@).contains(s@),
{
    let n = v.len();
    for i in 0..n
        invariant
            n == v@.len(),
            forall|k: int| 0 <= k < i ==> v@[k]@ != s@,
    {
        if v[i] == *s {
            assert(texts_of(v@)[i as int] == s@);
            return true;
        }
    }
    proof {
        if texts_of(v@).contains(s@) {
            let k = choose|k: int| 0 <= k < texts_of(v@).len() && texts_of(v@)[k] == s@;
            assert(v@[k]@ == s@);
        }
    }
    false
}

/// Appends to `keys` each token that it does not hold yet.
fn absorb(keys: &mut Vec<String>, toks: Vec<String>)
    ensures
        texts_of(final(keys)@) == absorb_tokens(texts_of(old(keys)@), texts_of(toks@)),
{
    let n = toks.len();
    let ghost start = texts_of(keys@);
    proof {
        assert(texts_of(toks@).take(0) =~= Seq::<Seq<char>>::empty());
    }
    for i in 0..n
        invariant
            n == toks@.len(),
            start == texts_of(old(keys)@),
            texts_of(keys@) == absorb_tokens(start, texts_of(toks@).take(i as int)),
    {
        let t = &toks[i];
        proof {
            assert(texts_of(toks@).take(i + 1).drop_last() =~= texts_of(toks@).take(i as int));
            assert(texts_of(toks@).take(i + 1).last() == t@);
        }
        if !holds_text(keys, t) {
            keys.push(t.clone());
            assert(texts_of(keys@) =~= absorb_tokens(start, texts_of(toks@).take(i as int)).push(t@));
        }
    }
    assert(texts_of(toks@).take(n as int) =~= texts_of(toks@));
}

/// Learns keywords from the titles of items a reader found interesting: every
/// keyword token of every title, in order, is appended to `base` unless the
/// list already holds it.
pub fn merge_interest_keywords(base: Vec<String>, titles: &Vec<String>) -> (keys: Vec<String>)
    ensures
        texts_of(keys@) == merged_keywords(texts_of(base@), texts_of(titles@)),
        texts_of(keys@).take(base@.len() as int) == texts_of(base@),
        forall|i: int, x: Seq<char>|
            0 <= i < titles@.len() && #[trigger] keyword_tokens(titles@[i]@).contains(x)
                ==> texts_of(keys@).contains(x),
        forall|x: Seq<char>| texts_of(keys@).contains(x) ==> texts_of(base@).contains(x) || exists|i: int|
            0 <= i < titles@.len() && #[trigger] keyword_tokens(titles@[i]@).contains(x),
{
    let mut keys = base;
    let ghost start = texts_of(keys@);
    let n = titles.len();
    proof {
        assert(texts_of(titles@).take(0) =~= Seq::<Seq<char>>::empty());
    }
    for i in 0..n
        invariant
            n == titles@.len(),
            texts_of(keys@) == absorb_tokens(start, title_tokens(texts_of(titles@).take(i as int))),
    {
        let toks = tokenize_keywords(titles[i].as_str());
        proof {
            let before = texts_of(titles@).take(i as int);
            assert(texts_of(titles@).take(i + 1).drop_last() =~= before);
            assert(texts_of(titles@).take(i + 1).last() == titles@[i as int]@);
            lemma_absorb_concat(start, title_tokens(before), texts_of(toks@));
        }
        absorb(&mut keys, toks);
    }
    assert(texts_of(titles@).take(n as int) =~= texts_of(titles@));
    proof {
        let b = texts_of(base@);
        let ts = texts_of(titles@);
        law_learning_learns_each_title_token(b, ts);
        law_learning_keeps_base_first(b, ts);
        assert forall|i: int, x: Seq<char>|
            0 <= i < titles@.len() && #[trigger] keyword_tokens(titles@[i]@).contains(x)
            implies texts_of(keys@).contains(x) by {
            assert(ts[i] == titles@[i]@);
            assert(keyword_tokens(ts[i]).contains(x));
        }
        assert forall|x: Seq<char>| texts_of(keys@).contains(x) implies texts_of(base@).contains(x) || exists|i: int|
            0 <= i < titles@.len() && #[trigger] keyword_tokens(titles@[i]@).contains(x) by {
            if !b.contains(x) {
                let i = choose|i: int| 0 <= i < ts.len() && #[trigger] keyword_tokens(ts[i]).contains(x);
                assert(ts[i] == titles@[i]@);
            }
        }
    }
    keys
}

/// Absorbing tokens never changes or reorders the keywords already held.
pub proof fn lemma_absorb_keeps_prefix(keys: Seq<Seq<char>>, toks: Seq<Seq<char>>)
    ensures
        absorb_tokens(keys, toks).len() >= keys.len(),
        absorb_tokens(keys, toks).take(keys.len() as int) == keys,
    decreases toks.len(),
{
    if toks.len() == 0 {
        assert(keys.take(keys.len() as int) =~= keys);
    } else {
        lemma_absorb_keeps_prefix(keys, toks.drop_last());
        let k = absorb_tokens(keys, toks.drop_last());
        assert(k.push(toks.last()).take(keys.len() as int) =~= k.take(keys.len() as int));
    }
}

/// After absorbing, the list holds every absorbed token, and holds nothing
/// that was neither a keyword before nor one of the tokens.
pub proof fn lemma_absorb_members(keys: Seq<Seq<char>>, toks: Seq<Seq<char>>)
    ensures
        forall|j: int| 0 <= j < toks.len() ==> absorb_tokens(keys, toks).contains(#[trigger] toks[j]),
        forall|x: Seq<char>| absorb_tokens(keys, toks).contains(x) ==> keys.contains(x) || toks.contains(x),
    decreases toks.len(),
{
    if toks.len() > 0 {
        let prev = toks.drop_last();
        lemma_absorb_members(keys, prev);
        let k = absorb_tokens(keys, prev);
        assert forall|j: int| 0 <= j < toks.len() implies absorb_tokens(keys, toks).contains(#[trigger] toks[j]) by {
            if j < toks.len() - 1 {
                assert(toks[j] == prev[j]);
                assert(k.contains(prev[j]));
                if !k.contains(toks.last()) {
                    let w = choose|w: int| 0 <= w < k.len() && k[w] == prev[j];
                    assert(k.push(toks.last())[w] == prev[j]);
                }
            } else {
                if !k.contains(toks.last()) {
                    assert(k.push(toks.last())[k.len() as int] == toks.last());
                }
            }
        }
        assert forall|x: Seq<char>| absorb_tokens(keys, toks).contains(x) implies keys.contains(x) || toks.contains(x) by {
            if k.contains(x) {
                if !keys.contains(x) {
                    let w = choose|w: int| 0 <= w < prev.len() && prev[w] == x;
                    assert(toks[w] == x);
                }
            } else {
                assert(x == toks.last());
                assert(toks[toks.len() - 1] == x);
            }
        }
    }
}

/// Absorbing keeps a list free of repeats.
pub proof fn lemma_absorb_no_duplicates(keys: Seq<Seq<char>>, toks: Seq<Seq<char>>)
    requires
        keys.no_duplicates(),
    ensures
        absorb_tokens(keys, toks).no_duplicates(),
    decreases toks.len(),
{
    if toks.len() > 0 {
        lemma_absorb_no_duplicates(keys, toks.drop_last());
        let k = absorb_tokens(keys, toks.drop_last());
        if !k.contains(toks.last()) {
            let r = k.push(toks.last());
            assert forall|i: int, j: int| 0 <= i < r.len() && 0 <= j < r.len() && i != j implies r[i] != r[j] by {
                if i < k.len() && j < k.len() {
                } else if i == k.len() {
                    assert(r[j] == k[j]);
                } else {
                    assert(r[i] == k[i]);
                }
            }
        }
    }
}

/// Absorbing tokens that the list already holds changes nothing.
pub proof fn lemma_absorb_held_tokens(keys: Seq<Seq<char>>, toks: Seq<Seq<char>>)
    requires
        forall|j: int| 0 <= j < toks.len() ==> keys.contains(#[trigger] toks[j]),
    ensures
        absorb_tokens(keys, toks) == keys,
    decreases toks.len(),
{
    if toks.len() > 0 {
        let prev = toks.drop_last();
        assert forall|j: int| 0 <= j < prev.len() implies keys.contains(#[trigger] prev[j]) by {
            assert(prev[j] == toks[j]);
        }
        lemma_absorb_held_tokens(keys, prev);
        assert(keys.contains(toks[toks.len() - 1]));
    }
}

/// The tokens of several titles are exactly the tokens of each title.
proof fn lemma_title_tokens_members(titles: Seq<Seq<char>>)
    ensures
        forall|i: int, x: Seq<char>|
            0 <= i < titles.len() && #[trigger] keyword_tokens(titles[i]).contains(x)
                ==> title_tokens(titles).contains(x),
        forall|x: Seq<char>| title_tokens(titles).contains(x)
            ==> exists|i: int| 0 <= i < titles.len() && #[trigger] keyword_tokens(titles[i]).contains(x),
    decreases titles.len(),
{
    if titles.len() > 0 {
        let front = titles.drop_last();
        lemma_title_tokens_members(front);
        let a = title_tokens(front);
        let b = keyword_tokens(titles.last());
        let all = title_tokens(titles);
        assert(all == a + b);
        assert forall|i: int, x: Seq<char>|
            0 <= i < titles.len() && #[trigger] keyword_tokens(titles[i]).contains(x) implies all.contains(x) by {
            if i < front.len() {
                assert(front[i] == titles[i]);
                assert(keyword_tokens(front[i]).contains(x));
                let w = choose|w: int| 0 <= w < a.len() && a[w] == x;
                assert(all[w] == x);
            } else {
                assert(titles[i] == titles.last());
                let w = choose|w: int| 0 <= w < b.len() && b[w] == x;
                assert(all[a.len() + w] == x);
            }
        }
        assert forall|x: Seq<char>| all.contains(x) implies exists|i: int|
            0 <= i < titles.len() && #[trigger] keyword_tokens(titles[i]).contains(x) by {
            let w = choose|w: int| 0 <= w < all.len() && all[w] == x;
            if w < a.len() {
                assert(a[w] == x);
                assert(a.contains(x));
                let i = choose|i: int| 0 <= i < front.len() && #[trigger] keyword_tokens(front[i]).contains(x);
                assert(titles[i] == front[i]);
            } else {
                assert(b[w - a.len()] == x);
                assert(b.contains(x));
                assert(titles[titles.len() - 1] == titles.last());
            }
        }
    }
}

/// Every keyword token of every title is learned, and nothing is learned but
/// the starting keywords and such tokens.
pub proof fn law_learning_learns_each_title_token(base: Seq<Seq<char>>, titles: Seq<Seq<char>>)
    ensures
        forall|i: int, x: Seq<char>|
            0 <= i < titles.len() && #[trigger] keyword_tokens(titles[i]).contains(x)
                ==> merged_keywords(base, titles).contains(x),
        forall|x: Seq<char>| merged_keywords(base, titles).contains(x) ==> base.contains(x) || exists|i: int|
            0 <= i < titles.len() && #[trigger] keyword_tokens(titles[i]).contains(x),
{
    lemma_title_tokens_members(titles);
    let toks = title_tokens(titles);
    lemma_absorb_members(base, toks);
    assert forall|i: int, x: Seq<char>|
        0 <= i < titles.len() && #[trigger] keyword_tokens(titles[i]).contains(x)
        implies merged_keywords(base, titles).contains(x) by {
        assert(toks.contains(x));
        let w = choose|w: int| 0 <= w < toks.len() && toks[w] == x;
        assert(absorb_tokens(base, toks).contains(toks[w]));
    }
}

/// Learning keeps the starting keywords first and in their order: the result
/// begins with `base`.
pub proof fn law_learning_keeps_base_first(base: Seq<Seq<char>>, titles: Seq<Seq<char>>)
    ensures
        merged_keywords(base, titles).len() >= base.len(),
        merged_keywords(base, titles).take(base.len() as int) == base,
{
    lemma_absorb_keeps_prefix(base, title_tokens(titles));
}

/// After learning, every keyword token of every title is in the list, and the
/// list holds nothing else but the starting keywords.
pub proof fn law_learning_covers_title_tokens(base: Seq<Seq<char>>, titles: Seq<Seq<char>>)
    ensures
        forall|j: int| 0 <= j < title_tokens(titles).len()
            ==> merged_keywords(base, titles).contains(#[trigger] title_tokens(titles)[j]),
        forall|x: Seq<char>| merged_keywords(base, titles).contains(x)
            ==> base.contains(x) || title_tokens(titles).contains(x),
{
    lemma_absorb_members(base, title_tokens(titles));
}

/// Learning never lists a keyword twice when the starting list does not.
pub proof fn law_learning_no_repeats(base: Seq<Seq<char>>, titles: Seq<Seq<char>>)
    requires
        base.no_duplicates(),
    ensures
        merged_keywords(base, titles).no_duplicates(),
{
    lemma_absorb_no_duplicates(base, title_tokens(titles));
}

/// Learning from the same titles a second time changes nothing.
pub proof fn law_learning_idempotent(base: Seq<Seq<char>>, titles: Seq<Seq<char>>)
    ensures
        merged_keywords(merged_keywords(base, titles), titles) == merged_keywords(base, titles),
{
    let toks = title_tokens(titles);
    lemma_absorb_members(base, toks);
    lemma_absorb_held_tokens(absorb_tokens(base, toks), toks);
}

/// The interest profile learned from the titles of the items most recently
/// marked as interesting: the default keywords followed by every new keyword
/// token of the titles, and no negative keywords.
pub fn refreshed_interest_profile(titles: &Vec<String>) -> (profile: InterestProfile)
    ensures
        texts_of(profile.keywords@) == merged_keywords(default_interest_keywords(), texts_of(titles@)),
        profile.negative_keywords@.len() == 0,
{
    let base = InterestProfile::default().keywords;
    InterestProfile { keywords: merge_interest_keywords(base, titles), negative_keywords: Vec::new() }
}

/// Whether a feedback event of this type makes the profile learn again: only
/// "interested" does.
pub fn feedback_refreshes_interest(event_type: &str) -> (refresh: bool)
    ensures
        refresh == (event_type@ == "interested"@),
{
    event_type.to_owned() == "interested".to_owned()
}

/// The default keywords are four distinct words, so a learned profile never
/// lists a keyword twice, and it always starts with them.
pub proof fn law_learned_profile_starts_with_defaults(titles: Seq<Seq<char>>)
    ensures
        merged_keywords(default_interest_keywords(), titles).take(4) == default_interest_keywords(),
        merged_keywords(default_interest_keywords(), titles).no_duplicates(),
{
    reveal_strlit("rust");
    reveal_strlit("security");
    reveal_strlit("ai");
    reveal_strlit("infrastructure");
    let d = default_interest_keywords();
    assert(d.len() == 4);
    assert(d[0].len() == 4 && d[1].len() == 8 && d[2].len() == 2 && d[3].len() == 14);
    assert(d[0][0] == 'r' && d[1][0] == 's');
    assert(d.no_duplicates());
    law_learning_keeps_base_first(d, titles);
    law_learning_no_repeats(d, titles);
}

/// A token of ASCII keyword rules: at least four characters, all ASCII
/// letters or digits, already in ASCII lower case.
pub open spec fn is_ascii_token(t: Seq<char>) -> bool {
    &&& t.len() >= 4
    &&& forall|j: int| 0 <= j < t.len() ==> is_ascii_alphanumeric(#[trigger] t[j])
    &&& ascii_lowercase(t) == t
}

/// Pieces of ASCII letters and digits give ASCII tokens.
proof fn lemma_ascii_tokens_shape(pieces: Seq<Seq<char>>)
    requires
        forall|k: int, j: int| 0 <= k < pieces.len() && 0 <= j < pieces[k].len() ==> is_ascii_alphanumeric(#[trigger] pieces[k][j]),
    ensures
        forall|k: int| 0 <= k < ascii_tokens_from_pieces(pieces).len() ==> is_ascii_token(#[trigger] ascii_tokens_from_pieces(pieces)[k]),
    decreases pieces.len(),
{
    if pieces.len() > 0 {
        let front = pieces.drop_last();
        assert forall|k: int, j: int| 0 <= k < front.len() && 0 <= j < front[k].len() implies is_ascii_alphanumeric(#[trigger] front[k][j]) by {
            assert(front[k] == pieces[k]);
        }
        lemma_ascii_tokens_shape(front);
        let p = pieces.last();
        let t = ascii_lowercase(p);
        if p.len() >= 4 {
            assert forall|j: int| 0 <= j < t.len() implies is_ascii_alphanumeric(#[trigger] t[j]) by {
                assert(p[j] == pieces[pieces.len() - 1][j]);
                lemma_ascii_lower_char(p[j]);
            }
            assert(ascii_lowercase(t) =~= t) by {
                assert forall|j: int| 0 <= j < t.len() implies #[trigger] ascii_lower(t[j]) == t[j] by {
                    lemma_ascii_lower_char(p[j]);
                }
            }
            let rest = ascii_tokens_from_pieces(front);
            let all = ascii_tokens_from_pieces(pieces);
            assert forall|k: int| 0 <= k < all.len() implies is_ascii_token(#[trigger] all[k]) by {
                if k < rest.len() {
                    assert(all[k] == rest[k]);
                }
            }
        }
    }
}

/// ASCII tokens are their own tokens.
proof fn lemma_ascii_tokens_fixed(tokens: Seq<Seq<char>>)
    requires
        forall|k: int| 0 <= k < tokens.len() ==> is_ascii_token(#[trigger] tokens[k]),
    ensures
        ascii_tokens_from_pieces(tokens) == tokens,
    decreases tokens.len(),
{
    if tokens.len() > 0 {
        let front = tokens.drop_last();
        assert forall|k: int| 0 <= k < front.len() implies is_ascii_token(#[trigger] front[k]) by {
            assert(front[k] == tokens[k]);
        }
        lemma_ascii_tokens_fixed(front);
        assert(is_ascii_token(tokens[tokens.len() - 1]));
        assert(front.push(tokens.last()) =~= tokens);
    }
}

/// Words of ASCII characters joined by spaces are ASCII text.
proof fn lemma_join_ascii(words: Seq<Seq<char>>)
    requires
        forall|k: int| 0 <= k < words.len() ==> is_ascii_chars(#[trigger] words[k]),
    ensures
        is_ascii_chars(join_words(words)),
    decreases words.len(),
{
    if words.len() == 1 {
        assert(is_ascii_chars(words[0]));
    } else if words.len() > 1 {
        let front = words.drop_last();
        assert forall|k: int| 0 <= k < front.len() implies is_ascii_chars(#[trigger] front[k]) by {
            assert(front[k] == words[k]);
        }
        lemma_join_ascii(front);
        let w = words.last();
        assert(is_ascii_chars(words[words.len() - 1]));
        reveal_strlit(" ");
        let t = join_words(words);
        let jf = join_words(front);
        assert(t =~= jf + " "@ + w);
        assert forall|i: int| 0 <= i < t.len() implies '\0' <= #[trigger] t[i] <= '\u{7f}' by {
            if i < jf.len() {
                assert(t[i] == jf[i]);
            } else if i > jf.len() {
                assert(t[i] == w[i - jf.len() - 1]);
            }
        }
    }
}

/// Cutting an ASCII title into tokens, joining the tokens with spaces and
/// cutting again gives the same tokens: tokenizing is stable.
pub proof fn law_ascii_retokenizing_is_stable(title: Seq<char>)
    requires
        is_ascii_chars(title),
    ensures
        is_ascii_chars(join_words(ascii_keyword_tokens(title))),
        ascii_keyword_tokens(join_words(ascii_keyword_tokens(title))) == ascii_keyword_tokens(title),
{
    let sep = |c: char| !is_ascii_alphanumeric(c);
    let pieces = ascii_keyword_pieces(title);
    crate::text::lemma_split_pieces_avoid_separators(title, sep);
    assert forall|k: int, j: int| 0 <= k < pieces.len() && 0 <= j < pieces[k].len() implies is_ascii_alphanumeric(#[trigger] pieces[k][j]) by {
        assert(!sep(pieces[k][j]));
    }
    lemma_ascii_tokens_shape(pieces);
    let tokens = ascii_keyword_tokens(title);
    assert forall|k: int| 0 <= k < tokens.len() implies is_ascii_chars(#[trigger] tokens[k]) by {
        assert(is_ascii_token(tokens[k]));
        assert forall|j: int| 0 <= j < tokens[k].len() implies '\0' <= #[trigger] tokens[k][j] <= '\u{7f}' by {
            assert(is_ascii_alphanumeric(tokens[k][j]));
        }
    }
    lemma_join_ascii(tokens);
    if tokens.len() == 0 {
        let e = Seq::<char>::empty();
        assert(join_words(tokens) == e);
        assert(split_pieces(e, sep) == seq![e]);
        assert(seq![e].drop_last() =~= Seq::<Seq<char>>::empty());
        assert(ascii_tokens_from_pieces(seq![e]) == ascii_tokens_from_pieces(Seq::<Seq<char>>::empty()));
    } else {
        assert forall|k: int, j: int| 0 <= k < tokens.len() && 0 <= j < tokens[k].len() implies !sep(#[trigger] tokens[k][j]) by {
            assert(is_ascii_token(tokens[k]));
            assert(is_ascii_alphanumeric(tokens[k][j]));
        }
        lemma_split_joined_words(tokens, sep);
        lemma_ascii_tokens_fixed(tokens);
    }
}

} // verus!

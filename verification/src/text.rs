//! Character-level helpers shared by the rest of the library: splitting text
//! at separator characters, Unicode white space, decimal and hexadecimal
//! rendering, substring search, and the character facts that only std knows.
use vstd::prelude::*;
use vstd::utf8::{encode_scalar, encode_utf8};

verus! {

broadcast use vstd::string::group_string_axioms;

/// The texts of a sequence of strings.
pub open spec fn texts_of(v: Seq<String>) -> Seq<Seq<char>> {
    v.map_values(|s: String| s@)
}

/// The pieces of `s` between the characters for which `sep` holds, as
/// `str::split` with a character predicate yields them: always one piece more
/// than there are separators, empty pieces included.
pub open spec fn split_pieces(s: Seq<char>, sep: spec_fn(char) -> bool) -> Seq<Seq<char>>
    decreases s.len(),
{
    if s.len() == 0 {
        seq![Seq::<char>::empty()]
    } else {
        let prev = split_pieces(s.drop_last(), sep);
        if sep(s.last()) {
            prev.push(Seq::<char>::empty())
        } else {
            prev.update(prev.len() - 1, prev.last().push(s.last()))
        }
    }
}

/// `split_pieces` never yields an empty list of pieces.
pub proof fn lemma_split_pieces_nonempty(s: Seq<char>, sep: spec_fn(char) -> bool)
    ensures
        split_pieces(s, sep).len() >= 1,
    decreases s.len(),
{
    if s.len() > 0 {
        lemma_split_pieces_nonempty(s.drop_last(), sep);
    }
}

/// No piece holds a separator character.
pub proof fn lemma_split_pieces_avoid_separators(s: Seq<char>, sep: spec_fn(char) -> bool)
    ensures
        forall|k: int, j: int|
            0 <= k < split_pieces(s, sep).len() && 0 <= j < split_pieces(s, sep)[k].len()
                ==> !sep(#[trigger] split_pieces(s, sep)[k][j]),
    decreases s.len(),
{
    if s.len() > 0 {
        lemma_split_pieces_avoid_separators(s.drop_last(), sep);
        lemma_split_pieces_nonempty(s.drop_last(), sep);
        let prev = split_pieces(s.drop_last(), sep);
        let cur = split_pieces(s, sep);
        assert forall|k: int, j: int| 0 <= k < cur.len() && 0 <= j < cur[k].len() implies !sep(#[trigger] cur[k][j]) by {
            if sep(s.last()) {
                if k < prev.len() {
                    assert(cur[k] == prev[k]);
                    assert(cur[k][j] == prev[k][j]);
                }
            } else {
                if k < prev.len() - 1 {
                    assert(cur[k] == prev[k]);
                    assert(cur[k][j] == prev[k][j]);
                } else {
                    assert(cur[k] == prev.last().push(s.last()));
                    if j < prev.last().len() {
                        assert(cur[k][j] == prev[k][j]);
                    }
                }
            }
        }
    }
}

/// Appending characters that are not separators extends the last piece.
pub proof fn lemma_split_append_plain(s: Seq<char>, u: Seq<char>, sep: spec_fn(char) -> bool)
    requires
        forall|j: int| 0 <= j < u.len() ==> !sep(#[trigger] u[j]),
    ensures
        split_pieces(s + u, sep) == split_pieces(s, sep).update(
            split_pieces(s, sep).len() - 1,
            split_pieces(s, sep).last() + u,
        ),
    decreases u.len(),
{
    lemma_split_pieces_nonempty(s, sep);
    let ps = split_pieces(s, sep);
    if u.len() == 0 {
        assert(s + u =~= s);
        assert(ps.last() + u =~= ps.last());
        assert(ps.update(ps.len() - 1, ps.last()) =~= ps);
    } else {
        let u0 = u.drop_last();
        assert forall|j: int| 0 <= j < u0.len() implies !sep(#[trigger] u0[j]) by {
            assert(u0[j] == u[j]);
        }
        lemma_split_append_plain(s, u0, sep);
        assert((s + u).drop_last() =~= s + u0);
        assert((s + u).last() == u.last());
        assert(!sep(u[u.len() - 1]));
        let prev = split_pieces(s + u0, sep);
        assert(prev.last() == ps.last() + u0);
        assert((ps.last() + u0).push(u.last()) =~= ps.last() + u);
        assert(prev.update(prev.len() - 1, prev.last().push(u.last())) =~= ps.update(ps.len() - 1, ps.last() + u));
    }
}

/// Splitting words joined by spaces at separators that include the space
/// and none of the words' characters gives the words back.
pub proof fn lemma_split_joined_words(words: Seq<Seq<char>>, sep: spec_fn(char) -> bool)
    requires
        words.len() >= 1,
        sep(' '),
        forall|k: int, j: int| 0 <= k < words.len() && 0 <= j < words[k].len() ==> !sep(#[trigger] words[k][j]),
    ensures
        split_pieces(join_words(words), sep) == words,
    decreases words.len(),
{
    let w = words.last();
    assert forall|j: int| 0 <= j < w.len() implies !sep(#[trigger] w[j]) by {
        assert(w[j] == words[words.len() - 1][j]);
    }
    if words.len() == 1 {
        let e = Seq::<char>::empty();
        lemma_split_append_plain(e, w, sep);
        assert(e + w =~= w);
        assert(split_pieces(e, sep) == seq![e]);
        assert(seq![e].update(0, e + w) =~= words);
    } else {
        let front = words.drop_last();
        assert forall|k: int, j: int| 0 <= k < front.len() && 0 <= j < front[k].len() implies !sep(#[trigger] front[k][j]) by {
            assert(front[k] == words[k]);
        }
        lemma_split_joined_words(front, sep);
        let jf = join_words(front);
        reveal_strlit(" ");
        assert(join_words(words) =~= jf.push(' ') + w);
        assert(jf.push(' ').drop_last() =~= jf);
        assert(jf.push(' ').last() == ' ');
        let sp = split_pieces(jf.push(' '), sep);
        assert(sp == front.push(Seq::<char>::empty()));
        lemma_split_append_plain(jf.push(' '), w, sep);
        assert(Seq::<char>::empty() + w =~= w);
        assert(sp.update(sp.len() - 1, sp.last() + w) =~= words);
    }
}

/// Unicode white space, as `char::is_whitespace` decides it: the characters
/// with the `White_Space` property.
pub open spec fn is_white_space(c: char) -> bool {
    let u = c as u32;
    ||| u == 0x20
    ||| 0x09 <= u <= 0x0d
    ||| u == 0x85
    ||| u == 0xa0
    ||| u == 0x1680
    ||| 0x2000 <= u <= 0x200a
    ||| u == 0x2028
    ||| u == 0x2029
    ||| u == 0x202f
    ||| u == 0x205f
    ||| u == 0x3000
}

/// Whether `c` is Unicode white space.
pub fn white_space(c: char) -> (b: bool)
    ensures
        b == is_white_space(c),
{
    let u = c as u32;
    u == 0x20 || (0x09 <= u && u <= 0x0d) || u == 0x85 || u == 0xa0 || u == 0x1680 || (0x2000
        <= u && u <= 0x200a) || u == 0x2028 || u == 0x2029 || u == 0x202f || u == 0x205f || u
        == 0x3000
}

/// An ASCII letter or digit.
pub open spec fn is_ascii_alphanumeric(c: char) -> bool {
    ('0' <= c && c <= '9') || ('a' <= c && c <= 'z') || ('A' <= c && c <= 'Z')
}

/// The ASCII lower-case form of a character: `A` to `Z` become `a` to `z`,
/// every other character stays.
pub open spec fn ascii_lower(c: char) -> char {
    if 'A' <= c && c <= 'Z' {
        ((c as u32) + 32) as char
    } else {
        c
    }
}

/// The ASCII lower-case form of a text.
pub open spec fn ascii_lowercase(text: Seq<char>) -> Seq<char> {
    text.map_values(|c: char| ascii_lower(c))
}

/// Lower-casing ASCII twice is lower-casing once, and keeps ASCII letters and
/// digits what they are.
pub proof fn lemma_ascii_lower_char(c: char)
    ensures
        ascii_lower(ascii_lower(c)) == ascii_lower(c),
        is_ascii_alphanumeric(c) ==> is_ascii_alphanumeric(ascii_lower(c)),
        '\0' <= c <= '\u{7f}' ==> '\0' <= ascii_lower(c) <= '\u{7f}',
        c == ' ' ==> ascii_lower(c) == ' ',
{
    if 'A' <= c && c <= 'Z' {
        let u = (c as u32) + 32;
        assert(0x61 <= u <= 0x7a);
        assert((u as char) as u32 == u);
    }
}

/// What `char::is_alphanumeric` answers for `c` (the Unicode `Alphabetic`
/// and numeric properties).
pub uninterp spec fn alphanumeric(c: char) -> bool;

/// Calls `char::is_alphanumeric`; the answer is named `alphanumeric(c)`.
/// Among ASCII characters exactly the letters and digits are alphabetic or
/// numeric.
#[verifier::external_body]
pub(crate) fn is_alphanumeric(c: char) -> (b: bool)
    ensures
        b == alphanumeric(c),
        '\0' <= c <= '\u{7f}' ==> (b == is_ascii_alphanumeric(c)),
{
    c.is_alphanumeric()
}

/// What `str::to_lowercase` returns for a text: the Unicode lower-case
/// mapping, applied with the context rules that std documents.
pub uninterp spec fn lowercase(text: Seq<char>) -> Seq<char>;

/// Calls `str::to_lowercase`; the result is named `lowercase(text@)`. On
/// ASCII text the Unicode lower-case mapping turns `A` to `Z` into `a` to `z`
/// and keeps every other character.
#[verifier::external_body]
pub(crate) fn to_lowercase(text: &str) -> (lower: String)
    ensures
        lower@ == lowercase(text@),
        vstd::utf8::is_ascii_chars(text@) ==> lower@ == ascii_lowercase(text@),
{
    text.to_lowercase()
}

/// Calls `String::push`, which appends one character.
#[verifier::external_body]
pub(crate) fn push_char(s: &mut String, c: char)
    ensures
        final(s)@ == old(s)@.push(c),
{
    s.push(c)
}

/// Encoding one more character appends that character's encoding.
pub proof fn lemma_encode_utf8_push(s: Seq<char>, c: char)
    ensures
        encode_utf8(s.push(c)) == encode_utf8(s) + encode_scalar(c as u32),
    decreases s.len(),
{
    if s.len() == 0 {
        assert(s.push(c).drop_first() =~= Seq::<char>::empty());
        assert(encode_utf8(s) =~= Seq::<u8>::empty());
        assert(encode_utf8(s.push(c).drop_first()) =~= Seq::<u8>::empty());
        assert(s.push(c)[0] == c);
        assert(encode_utf8(s.push(c)) =~= encode_scalar(c as u32) + Seq::<u8>::empty());
        assert(encode_scalar(c as u32) + Seq::<u8>::empty() =~= encode_scalar(c as u32));
    } else {
        lemma_encode_utf8_push(s.drop_first(), c);
        assert(s.push(c).drop_first() =~= s.drop_first().push(c));
        assert(s.push(c)[0] == s[0]);
        let a = encode_scalar(s[0] as u32);
        let b = encode_utf8(s.drop_first());
        let d = encode_scalar(c as u32);
        assert(a + (b + d) =~= (a + b) + d);
    }
}

/// The number of bytes in the UTF-8 encoding of `c`.
pub fn utf8_width(c: char) -> (w: usize)
    ensures
        w == encode_scalar(c as u32).len(),
        1 <= w <= 4,
{
    broadcast use vstd::utf8::char_is_scalar;

    let u = c as u32;
    if u <= 0x7f {
        1
    } else if u <= 0x7ff {
        2
    } else if u <= 0xffff {
        3
    } else {
        4
    }
}

/// Whether the UTF-8 encoding of `cs` has at least `min` bytes.
pub fn utf8_len_at_least(cs: &Vec<char>, min: usize) -> (b: bool)
    requires
        min <= 1024,
    ensures
        b == (encode_utf8(cs@).len() >= min),
{
    if min == 0 {
        return true;
    }
    let n = cs.len();
    let mut total: usize = 0;
    proof {
        assert(cs@.take(0) =~= Seq::<char>::empty());
        assert(encode_utf8(Seq::<char>::empty()) =~= Seq::<u8>::empty());
    }
    for i in 0..n
        invariant
            n == cs@.len(),
            min <= 1024,
            total == encode_utf8(cs@.take(i as int)).len(),
            total < min,
    {
        let w = utf8_width(cs[i]);
        proof {
            assert(cs@.take(i + 1) =~= cs@.take(i as int).push(cs@[i as int]));
            lemma_encode_utf8_push(cs@.take(i as int), cs@[i as int]);
        }
        total = total + w;
        if total >= min {
            proof {
                lemma_encode_utf8_prefix_len(cs@, i + 1);
            }
            return true;
        }
    }
    proof {
        assert(cs@.take(n as int) =~= cs@);
    }
    total >= min
}

/// A prefix never encodes to more bytes than the whole.
pub proof fn lemma_encode_utf8_prefix_len(s: Seq<char>, k: int)
    requires
        0 <= k <= s.len(),
    ensures
        encode_utf8(s.take(k)).len() <= encode_utf8(s).len(),
    decreases s.len() - k,
{
    if k < s.len() {
        lemma_encode_utf8_prefix_len(s, k + 1);
        assert(s.take(k + 1) =~= s.take(k).push(s[k]));
        lemma_encode_utf8_push(s.take(k), s[k]);
    } else {
        assert(s.take(k) =~= s);
    }
}

/// The characters of `s`, in order.
pub fn chars_of(s: &str) -> (out: Vec<char>)
    ensures
        out@ == s@,
{
    let mut out: Vec<char> = Vec::new();
    for c in it: s.chars()
        invariant
            out@ == it.seq().take(it.index()),
    {
        out.push(c);
    }
    out
}

/// A string holding exactly the characters of `cs`.
pub fn string_from_chars(cs: &Vec<char>) -> (s: String)
    ensures
        s@ == cs@,
{
    let mut s = String::new();
    let n = cs.len();
    for i in 0..n
        invariant
            n == cs@.len(),
            s@ == cs@.take(i as int),
    {
        push_char(&mut s, cs[i]);
        assert(cs@.take(i + 1) == cs@.take(i as int).push(cs@[i as int]));
    }
    assert(cs@.take(n as int) == cs@);
    s
}

/// `needle` occurs in `hay` starting at position `i`.
pub open spec fn occurs_at(hay: Seq<char>, needle: Seq<char>, i: int) -> bool {
    &&& 0 <= i
    &&& i + needle.len() <= hay.len()
    &&& hay.subrange(i, i + needle.len()) == needle
}

/// `needle` occurs somewhere in `hay` (the empty text occurs everywhere), as
/// `str::contains` with a string pattern decides it.
pub open spec fn contains_text(hay: Seq<char>, needle: Seq<char>) -> bool {
    exists|i: int| occurs_at(hay, needle, i)
}

/// Whether `needle` occurs in `hay` at position `i`.
fn matches_at(hay: &Vec<char>, needle: &Vec<char>, i: usize) -> (b: bool)
    requires
        i + needle@.len() <= hay@.len(),
    ensures
        b == occurs_at(hay@, needle@, i as int),
{
    let n = needle.len();
    let mut j: usize = 0;
    while j < n
        invariant
            n == needle@.len(),
            i + n <= hay.len(),
            j <= n,
            forall|k: int| 0 <= k < j ==> hay@[i + k] == needle@[k],
        decreases n - j,
    {
        if hay[i + j] != needle[j] {
            assert(hay@.subrange(i as int, i + n)[j as int] != needle@[j as int]);
            return false;
        }
        j = j + 1;
    }
    assert(hay@.subrange(i as int, i + n) =~= needle@);
    true
}

/// Whether `needle` occurs somewhere in `hay`.
pub fn text_contains(hay: &Vec<char>, needle: &Vec<char>) -> (b: bool)
    ensures
        b == contains_text(hay@, needle@),
{
    if needle.len() > hay.len() {
        return false;
    }
    let last = hay.len() - needle.len();
    let mut i: usize = 0;
    loop
        invariant
            last + needle@.len() == hay@.len(),
            i <= last,
            forall|k: int| 0 <= k < i ==> !occurs_at(hay@, needle@, k),
        decreases last - i,
    {
        if matches_at(hay, needle, i) {
            return true;
        }
        if i == last {
            return false;
        }
        i = i + 1;
    }
}

/// The character of a decimal digit.
pub open spec fn decimal_digit(d: nat) -> char {
    ((48 + d) as u8) as char
}

/// The decimal rendering of `n`, without leading zeros.
pub open spec fn decimal_text(n: nat) -> Seq<char>
    decreases n,
{
    if n < 10 {
        seq![decimal_digit(n)]
    } else {
        decimal_text(n / 10).push(decimal_digit(n % 10))
    }
}

/// The number that a text of decimal digits denotes.
pub open spec fn decimal_value(digits: Seq<char>) -> int
    decreases digits.len(),
{
    if digits.len() == 0 {
        0
    } else {
        decimal_value(digits.drop_last()) * 10 + (digits.last() as int - 48)
    }
}

/// The decimal rendering of `n` consists of digits `0` to `9`, denotes `n`,
/// and starts with `0` only when it is `0` itself.
pub proof fn law_decimal_text_denotes_n(n: nat)
    ensures
        decimal_value(decimal_text(n)) == n,
        forall|i: int| 0 <= i < decimal_text(n).len() ==> '0' <= #[trigger] decimal_text(n)[i] <= '9',
        decimal_text(n).len() >= 1,
        decimal_text(n)[0] == '0' ==> n == 0,
    decreases n,
{
    let d = (n % 10) as nat;
    let c = decimal_digit(d);
    assert((c as int) == 48 + d) by {
        assert(((48 + d) as u8) as char as u32 == 48 + d);
    }
    if n >= 10 {
        law_decimal_text_denotes_n(n / 10);
        let front = decimal_text(n / 10);
        let t = decimal_text(n);
        assert(t == front.push(c));
        assert(t.drop_last() =~= front);
        assert forall|i: int| 0 <= i < t.len() implies '0' <= #[trigger] t[i] <= '9' by {
            if i < front.len() {
                assert(t[i] == front[i]);
            }
        }
        assert(t[0] == front[0]);
        assert(n / 10 > 0);
        assert(t.last() == c);
        assert(decimal_value(t) == decimal_value(front) * 10 + (c as int - 48));
        assert(n == (n / 10) * 10 + n % 10);
    } else {
        let t = decimal_text(n);
        assert(t.drop_last() =~= Seq::<char>::empty());
        assert(t.last() == c);
        assert(decimal_value(t) == decimal_value(t.drop_last()) * 10 + (c as int - 48));
        assert(decimal_value(Seq::<char>::empty()) == 0);
    }
}

/// Appends the decimal rendering of `n` to `s`.
pub fn push_decimal(s: &mut String, n: usize)
    ensures
        final(s)@ == old(s)@ + decimal_text(n as nat),
    decreases n,
{
    if n >= 10 {
        push_decimal(s, n / 10);
    }
    let d = (n % 10) as u8;
    push_char(s, (48 + d) as char);
    proof {
        if n >= 10 {
            assert(old(s)@ + decimal_text((n / 10) as nat) + seq![decimal_digit((n % 10) as nat)]
                =~= old(s)@ + decimal_text(n as nat));
        } else {
            assert(old(s)@.push(decimal_digit(n as nat)) =~= old(s)@ + decimal_text(n as nat));
        }
    }
}

/// The character of a lower-case hexadecimal digit.
pub open spec fn hex_digit(d: nat) -> char {
    if d < 10 {
        ((48 + d) as u8) as char
    } else {
        ((87 + d) as u8) as char
    }
}

/// The lower-case hexadecimal rendering of bytes, two digits per byte, high
/// digit first.
pub open spec fn hex_text(bytes: Seq<u8>) -> Seq<char>
    decreases bytes.len(),
{
    if bytes.len() == 0 {
        Seq::empty()
    } else {
        hex_text(bytes.drop_last()) + seq![
            hex_digit((bytes.last() / 16) as nat),
            hex_digit((bytes.last() % 16) as nat),
        ]
    }
}

/// A lower-case hexadecimal digit character.
pub open spec fn is_lower_hex_digit(c: char) -> bool {
    ('0' <= c && c <= '9') || ('a' <= c && c <= 'f')
}

/// Hexadecimal text holds only lower-case hexadecimal digits, two per byte.
pub proof fn law_hex_text_digits(bytes: Seq<u8>)
    ensures
        hex_text(bytes).len() == 2 * bytes.len(),
        forall|i: int| 0 <= i < hex_text(bytes).len() ==> is_lower_hex_digit(#[trigger] hex_text(bytes)[i]),
    decreases bytes.len(),
{
    if bytes.len() > 0 {
        law_hex_text_digits(bytes.drop_last());
        let front = hex_text(bytes.drop_last());
        let b = bytes.last();
        let hi = hex_digit((b / 16) as nat);
        let lo = hex_digit((b % 16) as nat);
        assert(is_lower_hex_digit(hi) && is_lower_hex_digit(lo)) by {
            assert(b / 16 < 16 && b % 16 < 16);
        }
        let t = hex_text(bytes);
        assert forall|i: int| 0 <= i < t.len() implies is_lower_hex_digit(#[trigger] t[i]) by {
            if i < front.len() {
                assert(t[i] == front[i]);
            } else if i == front.len() {
                assert(t[i] == hi);
            } else {
                assert(t[i] == lo);
            }
        }
    }
}

/// The number a lower-case hexadecimal digit stands for.
pub open spec fn hex_digit_value(c: char) -> int {
    if c <= '9' {
        c as int - 48
    } else {
        c as int - 87
    }
}

/// Each pair of hexadecimal digits denotes the byte at that place, high digit
/// first.
pub proof fn law_hex_text_denotes_bytes(bytes: Seq<u8>)
    ensures
        hex_text(bytes).len() == 2 * bytes.len(),
        forall|i: int| 0 <= i < bytes.len() ==> hex_digit_value(hex_text(bytes)[2 * i]) * 16
            + hex_digit_value(hex_text(bytes)[2 * i + 1]) == #[trigger] bytes[i],
    decreases bytes.len(),
{
    if bytes.len() > 0 {
        let front = bytes.drop_last();
        law_hex_text_denotes_bytes(front);
        let b = bytes.last();
        let hi = (b / 16) as nat;
        let lo = (b % 16) as nat;
        assert(hex_digit_value(hex_digit(hi)) == hi) by {
            if hi < 10 {
                assert(((48 + hi) as u8) as char as u32 == 48 + hi);
            } else {
                assert(((87 + hi) as u8) as char as u32 == 87 + hi);
            }
        }
        assert(hex_digit_value(hex_digit(lo)) == lo) by {
            if lo < 10 {
                assert(((48 + lo) as u8) as char as u32 == 48 + lo);
            } else {
                assert(((87 + lo) as u8) as char as u32 == 87 + lo);
            }
        }
        let t = hex_text(bytes);
        let ft = hex_text(front);
        assert forall|i: int| 0 <= i < bytes.len() implies hex_digit_value(t[2 * i]) * 16
            + hex_digit_value(t[2 * i + 1]) == #[trigger] bytes[i] by {
            if i < front.len() {
                assert(t[2 * i] == ft[2 * i]);
                assert(t[2 * i + 1] == ft[2 * i + 1]);
                assert(bytes[i] == front[i]);
            } else {
                assert(t[2 * i] == hex_digit(hi));
                assert(t[2 * i + 1] == hex_digit(lo));
                assert(b == hi * 16 + lo);
            }
        }
    }
}

/// The character of the hexadecimal digit `d`.
fn hex_char(d: u8) -> (c: char)
    requires
        d < 16,
    ensures
        c == hex_digit(d as nat),
{
    if d < 10 {
        (48 + d) as char
    } else {
        (87 + d) as char
    }
}

/// The lower-case hexadecimal rendering of `bytes`.
pub fn to_hex(bytes: &Vec<u8>) -> (s: String)
    ensures
        s@ == hex_text(bytes@),
        s@.len() == 2 * bytes@.len(),
{
    let mut s = String::new();
    let n = bytes.len();
    proof {
        assert(bytes@.take(0) =~= Seq::<u8>::empty());
    }
    for i in 0..n
        invariant
            n == bytes@.len(),
            s@ == hex_text(bytes@.take(i as int)),
            s@.len() == 2 * i,
    {
        let b = bytes[i];
        push_char(&mut s, hex_char(b / 16));
        push_char(&mut s, hex_char(b % 16));
        proof {
            assert(bytes@.take(i + 1).drop_last() =~= bytes@.take(i as int));
            assert(bytes@.take(i + 1).last() == b);
            assert(hex_text(bytes@.take(i as int)).push(hex_digit((b / 16) as nat)).push(
                hex_digit((b % 16) as nat),
            ) =~= hex_text(bytes@.take(i + 1)));
        }
    }
    assert(bytes@.take(n as int) =~= bytes@);
    s
}

/// The non-empty pieces among `pieces`, in order.
pub open spec fn nonempty_pieces(pieces: Seq<Seq<char>>) -> Seq<Seq<char>>
    decreases pieces.len(),
{
    if pieces.len() == 0 {
        Seq::empty()
    } else {
        let rest = nonempty_pieces(pieces.drop_last());
        if pieces.last().len() > 0 {
            rest.push(pieces.last())
        } else {
            rest
        }
    }
}

/// The words of a text, as `str::split_whitespace` yields them: the
/// non-empty pieces between white-space characters.
pub open spec fn words_of(s: Seq<char>) -> Seq<Seq<char>> {
    nonempty_pieces(split_pieces(s, |c: char| is_white_space(c)))
}

/// Words joined with one space between neighbours.
pub open spec fn join_words(words: Seq<Seq<char>>) -> Seq<char>
    decreases words.len(),
{
    if words.len() == 0 {
        Seq::empty()
    } else if words.len() == 1 {
        words[0]
    } else {
        join_words(words.drop_last()) + " "@ + words.last()
    }
}

/// A text with every run of white space cut out at its ends and replaced by
/// one space inside.
pub open spec fn compact_text(s: Seq<char>) -> Seq<char> {
    join_words(words_of(s))
}

/// White space in `t` is only single spaces between two other characters.
pub open spec fn single_spaced(t: Seq<char>) -> bool {
    forall|i: int|
        0 <= i < t.len() && #[trigger] is_white_space(t[i]) ==> {
            &&& t[i] == ' '
            &&& 0 < i < t.len() - 1
            &&& !is_white_space(t[i - 1])
            &&& !is_white_space(t[i + 1])
        }
}

/// A text without white space.
pub open spec fn no_white_space(w: Seq<char>) -> bool {
    forall|j: int| 0 <= j < w.len() ==> !is_white_space(#[trigger] w[j])
}

/// The non-empty pieces are non-empty and come from the pieces.
proof fn lemma_nonempty_pieces(pieces: Seq<Seq<char>>)
    ensures
        forall|k: int| 0 <= k < nonempty_pieces(pieces).len() ==> #[trigger] nonempty_pieces(pieces)[k].len() > 0
            && pieces.contains(nonempty_pieces(pieces)[k]),
    decreases pieces.len(),
{
    if pieces.len() > 0 {
        lemma_nonempty_pieces(pieces.drop_last());
        let rest = nonempty_pieces(pieces.drop_last());
        let cur = nonempty_pieces(pieces);
        assert forall|k: int| 0 <= k < cur.len() implies #[trigger] cur[k].len() > 0 && pieces.contains(cur[k]) by {
            if k < rest.len() {
                assert(cur[k] == rest[k]);
                let m = choose|m: int| 0 <= m < pieces.drop_last().len() && pieces.drop_last()[m] == rest[k];
                assert(pieces[m] == rest[k]);
            } else {
                assert(cur[k] == pieces.last());
                assert(pieces[pieces.len() - 1] == cur[k]);
            }
        }
    }
}

/// Joining non-empty words without white space gives a single-spaced text,
/// non-empty when there are words.
proof fn lemma_join_single_spaced(words: Seq<Seq<char>>)
    requires
        forall|k: int| 0 <= k < words.len() ==> #[trigger] words[k].len() > 0 && no_white_space(words[k]),
    ensures
        single_spaced(join_words(words)),
        words.len() > 0 ==> join_words(words).len() > 0,
    decreases words.len(),
{
    if words.len() == 1 {
        assert(words[0].len() > 0 && no_white_space(words[0]));
    } else if words.len() > 1 {
        let front = words.drop_last();
        assert forall|k: int| 0 <= k < front.len() implies #[trigger] front[k].len() > 0 && no_white_space(front[k]) by {
            assert(front[k] == words[k]);
        }
        lemma_join_single_spaced(front);
        let j = join_words(front);
        let w = words.last();
        assert(w.len() > 0 && no_white_space(w)) by {
            assert(words[words.len() - 1] == w);
        }
        let t = join_words(words);
        reveal_strlit(" ");
        assert(t =~= j + " "@ + w);
        let l = j.len() as int;
        assert(!is_white_space(j[l - 1])) by {
            if is_white_space(j[l - 1]) {
                assert(l - 1 < l - 1);
            }
        }
        assert forall|i: int| 0 <= i < t.len() && #[trigger] is_white_space(t[i]) implies {
            &&& t[i] == ' '
            &&& 0 < i < t.len() - 1
            &&& !is_white_space(t[i - 1])
            &&& !is_white_space(t[i + 1])
        } by {
            if i < l {
                assert(t[i] == j[i]);
                assert(is_white_space(j[i]));
                assert(t[i - 1] == j[i - 1]);
                assert(t[i + 1] == j[i + 1]);
            } else if i == l {
                assert(t[i - 1] == j[l - 1]);
                assert(t[i + 1] == w[0]);
            } else {
                assert(t[i] == w[i - l - 1]);
            }
        }
    }
}

/// The compacted text has no white space but single spaces between words,
/// none at either end.
pub proof fn law_compact_text_single_spaced(s: Seq<char>)
    ensures
        single_spaced(compact_text(s)),
{
    let sep = |c: char| is_white_space(c);
    let pieces = split_pieces(s, sep);
    lemma_split_pieces_avoid_separators(s, sep);
    lemma_nonempty_pieces(pieces);
    let words = words_of(s);
    assert forall|k: int| 0 <= k < words.len() implies #[trigger] words[k].len() > 0 && no_white_space(words[k]) by {
        let m = choose|m: int| 0 <= m < pieces.len() && pieces[m] == words[k];
        assert forall|j: int| 0 <= j < words[k].len() implies !is_white_space(#[trigger] words[k][j]) by {
            assert(!sep(pieces[m][j]));
        }
    }
    lemma_join_single_spaced(words);
}

/// Ends the current piece: a non-empty piece joins the words, after one
/// space when words came before it.
fn finish_word(out: &mut Vec<char>, any_word: bool, piece: &Vec<char>, Ghost(words): Ghost<Seq<Seq<char>>>) -> (now_any: bool)
    requires
        old(out)@ == join_words(words),
        any_word == (words.len() > 0),
    ensures
        final(out)@ == join_words(if piece@.len() > 0 { words.push(piece@) } else { words }),
        now_any == (words.len() > 0 || piece@.len() > 0),
{
    if piece.len() == 0 {
        return any_word;
    }
    let ghost before = out@;
    if any_word {
        out.push(' ');
    }
    let n = piece.len();
    let ghost base = out@;
    for i in 0..n
        invariant
            n == piece@.len(),
            out@ == base + piece@.take(i as int),
    {
        out.push(piece[i]);
        assert(piece@.take(i + 1) =~= piece@.take(i as int).push(piece@[i as int]));
        assert(base + piece@.take(i + 1) =~= (base + piece@.take(i as int)).push(piece@[i as int]));
    }
    proof {
        assert(piece@.take(n as int) =~= piece@);
        let ws = words.push(piece@);
        assert(ws.drop_last() =~= words);
        if words.len() == 0 {
            assert(before =~= Seq::<char>::empty());
            assert(out@ =~= piece@);
        } else {
            assert(out@ =~= before + " "@ + piece@) by {
                reveal_strlit(" ");
            }
        }
    }
    true
}

/// Collapses white space as `split_whitespace` followed by joining with one
/// space does.
pub fn compact_whitespace(s: &str) -> (out: Vec<char>)
    ensures
        out@ == compact_text(s@),
{
    let cs = chars_of(s);
    let n = cs.len();
    let mut out: Vec<char> = Vec::new();
    let mut current: Vec<char> = Vec::new();
    let mut any_word = false;
    proof {
        assert(cs@.take(0) =~= Seq::<char>::empty());
    }
    for i in 0..n
        invariant
            n == cs@.len(),
            cs@ == s@,
            out@ == join_words(nonempty_pieces(split_pieces(cs@.take(i as int), |c: char| is_white_space(c)).drop_last())),
            any_word == (nonempty_pieces(split_pieces(cs@.take(i as int), |c: char| is_white_space(c)).drop_last()).len() > 0),
            current@ == split_pieces(cs@.take(i as int), |c: char| is_white_space(c)).last(),
    {
        let c = cs[i];
        let ghost prev = split_pieces(cs@.take(i as int), |c: char| is_white_space(c));
        proof {
            assert(cs@.take(i + 1).drop_last() =~= cs@.take(i as int));
            lemma_split_pieces_nonempty(cs@.take(i as int), |c: char| is_white_space(c));
        }
        if white_space(c) {
            any_word = finish_word(&mut out, any_word, &current, Ghost(nonempty_pieces(prev.drop_last())));
            current = Vec::new();
            proof {
                let next = split_pieces(cs@.take(i + 1), |c: char| is_white_space(c));
                assert(next == prev.push(Seq::<char>::empty()));
                assert(next.drop_last() =~= prev);
                assert(prev =~= prev.drop_last().push(prev.last()));
            }
        } else {
            current.push(c);
            proof {
                let next = split_pieces(cs@.take(i + 1), |c: char| is_white_space(c));
                assert(next == prev.update(prev.len() - 1, prev.last().push(c)));
                assert(next.drop_last() =~= prev.drop_last());
            }
        }
    }
    proof {
        assert(cs@.take(n as int) =~= cs@);
        lemma_split_pieces_nonempty(cs@, |c: char| is_white_space(c));
        let ps = split_pieces(cs@, |c: char| is_white_space(c));
        assert(ps =~= ps.drop_last().push(ps.last()));
        assert(ps.drop_last() =~= ps.drop_last().push(ps.last()).drop_last());
    }
    let ghost words = nonempty_pieces(split_pieces(cs@, |c: char| is_white_space(c)).drop_last());
    finish_word(&mut out, any_word, &current, Ghost(words));
    out
}

} // verus!

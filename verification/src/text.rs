//! Text as sequences of characters.
//!
//! The view of a string is a `Seq<char>`; the functions here are the string operations the rest
//! of the library is written with, each with its meaning over those sequences.

use vstd::prelude::*;
use vstd::string::*;

verus! {

/// `String::push` appends one character.
pub assume_specification[ String::push ](s: &mut String, ch: char)
    ensures
        final(s)@ == old(s)@.push(ch),
;

/// The characters of a string, in order.
pub fn chars_of(s: &str) -> (r: Vec<char>)
    ensures
        r@ == s@,
{
    let mut out: Vec<char> = Vec::new();
    for c in iter: s.chars()
        invariant
            out@ == iter.seq().take(iter.index()),
            iter.seq() == s@,
    {
        out.push(c);
    }
    out
}

/// The string made of the characters `from..to` of `v`.
pub fn text_of_range(v: &Vec<char>, from: usize, to: usize) -> (r: String)
    requires
        from <= to <= v@.len(),
    ensures
        r@ == v@.subrange(from as int, to as int),
{
    let mut out = String::new();
    let mut i: usize = from;
    while i < to
        invariant
            from <= i <= to <= v@.len(),
            out@ == v@.subrange(from as int, i as int),
        decreases to - i,
    {
        out.push(v[i]);
        i = i + 1;
        assert(out@ =~= v@.subrange(from as int, i as int));
    }
    out
}

/// Whether two strings hold the same characters.
pub fn same_text(a: &str, b: &str) -> (r: bool)
    ensures
        r == (a@ == b@),
{
    a.len() == b.len() && a.to_owned() == b.to_owned()
}

/// The two strings one after the other.
pub fn joined(a: &str, b: &str) -> (r: String)
    ensures
        r@ == a@ + b@,
{
    let mut out = a.to_owned();
    out.append(b);
    out
}

/// The views of the strings of a vector.
pub open spec fn views(v: Seq<String>) -> Seq<Seq<char>> {
    v.map_values(|s: String| s@)
}

/// The same strings once more.
pub fn copies(v: &Vec<String>) -> (r: Vec<String>)
    ensures
        r@ == v@,
{
    let mut out: Vec<String> = Vec::new();
    let mut i: usize = 0;
    while i < v.len()
        invariant
            i <= v@.len(),
            out@ == v@.take(i as int),
        decreases v@.len() - i,
    {
        out.push(v[i].clone());
        assert(out@ =~= v@.take(i + 1));
        i = i + 1;
    }
    assert(v@.take(i as int) =~= v@);
    out
}

/// Whether `word` is among the strings of `v`.
pub fn contains_text(v: &Vec<String>, word: &str) -> (r: bool)
    ensures
        r == views(v@).contains(word@),
{
    let mut i: usize = 0;
    while i < v.len()
        invariant
            i <= v@.len(),
            forall|j: int| 0 <= j < i ==> (#[trigger] v@[j])@ != word@,
        decreases v@.len() - i,
    {
        if same_text(v[i].as_str(), word) {
            assert(views(v@)[i as int] == word@);
            return true;
        }
        i = i + 1;
    }
    assert(!views(v@).contains(word@)) by {
        if views(v@).contains(word@) {
            let j = choose|j: int| 0 <= j < views(v@).len() && views(v@)[j] == word@;
            assert(v@[j]@ == word@);
        }
    }
    false
}

// --- order ----------------------------------------------------------------

/// Text order: by the first character that differs, a proper prefix before what it begins.
pub open spec fn text_less(a: Seq<char>, b: Seq<char>) -> bool
    decreases a.len(),
{
    if b.len() == 0 {
        false
    } else if a.len() == 0 {
        true
    } else if a[0] != b[0] {
        a[0] < b[0]
    } else {
        text_less(a.drop_first(), b.drop_first())
    }
}

/// Text order is irreflexive.
pub proof fn lemma_text_less_irreflexive(a: Seq<char>)
    ensures
        !text_less(a, a),
    decreases a.len(),
{
    if a.len() > 0 {
        lemma_text_less_irreflexive(a.drop_first());
    }
}

/// Text order is transitive.
pub proof fn lemma_text_less_transitive(a: Seq<char>, b: Seq<char>, c: Seq<char>)
    requires
        text_less(a, b),
        text_less(b, c),
    ensures
        text_less(a, c),
    decreases a.len(),
{
    if a.len() > 0 && b.len() > 0 && c.len() > 0 && a[0] == b[0] && b[0] == c[0] {
        lemma_text_less_transitive(a.drop_first(), b.drop_first(), c.drop_first());
    }
}

/// Of two different texts one comes before the other.
pub proof fn lemma_text_less_total(a: Seq<char>, b: Seq<char>)
    ensures
        text_less(a, b) || text_less(b, a) || a == b,
    decreases a.len(),
{
    if a.len() > 0 && b.len() > 0 && a[0] == b[0] {
        lemma_text_less_total(a.drop_first(), b.drop_first());
        if a.drop_first() == b.drop_first() {
            assert(a =~= seq![a[0]] + a.drop_first());
            assert(b =~= seq![b[0]] + b.drop_first());
        }
    } else if a.len() == 0 && b.len() == 0 {
        assert(a =~= b);
    }
}

/// Whether `a` comes before `b`.
pub fn comes_before(a: &str, b: &str) -> (r: bool)
    ensures
        r == text_less(a@, b@),
{
    let av = chars_of(a);
    let bv = chars_of(b);
    let mut i: usize = 0;
    assert(av@.skip(0) =~= a@);
    assert(bv@.skip(0) =~= b@);
    while i < av.len() && i < bv.len() && av[i] == bv[i]
        invariant
            i <= av@.len(),
            i <= bv@.len(),
            text_less(a@, b@) == text_less(av@.skip(i as int), bv@.skip(i as int)),
        decreases av@.len() - i,
    {
        assert(av@.skip(i as int).drop_first() =~= av@.skip(i + 1));
        assert(bv@.skip(i as int).drop_first() =~= bv@.skip(i + 1));
        i = i + 1;
    }
    if i >= bv.len() {
        false
    } else if i >= av.len() {
        true
    } else {
        av[i] < bv[i]
    }
}

/// The words in ascending order, each as often as it is there.
pub open spec fn sorted_words(words: Seq<Seq<char>>) -> Seq<Seq<char>>
    decreases words.len(),
{
    if words.len() == 0 {
        Seq::empty()
    } else {
        let before = sorted_words(words.drop_last());
        before.insert(rank_in(before, words.last()) as int, words.last())
    }
}

/// Sorting words keeps how many there are, and which.
pub proof fn lemma_sorted_words(words: Seq<Seq<char>>)
    ensures
        sorted_words(words).len() == words.len(),
        sorted_words(words).to_multiset() == words.to_multiset(),
        forall|i: int, j: int|
            0 <= i < j < sorted_words(words).len() ==> !text_less(
                #[trigger] sorted_words(words)[j],
                #[trigger] sorted_words(words)[i],
            ),
    decreases words.len(),
{
    if words.len() > 0 {
        let before = sorted_words(words.drop_last());
        let w = words.last();
        let k = rank_in(before, w) as int;
        let r = before.insert(k, w);
        lemma_sorted_words(words.drop_last());
        lemma_rank_in(before, w);
        broadcast use vstd::seq_lib::group_to_multiset_ensures;

        assert(words =~= words.drop_last().push(w));
        assert(r.to_multiset() =~= words.to_multiset());
        assert forall|i: int, j: int| 0 <= i < j < r.len() implies !text_less(
            #[trigger] r[j],
            #[trigger] r[i],
        ) by {
            if j < k {
                assert(r[i] == before[i] && r[j] == before[j]);
            } else if j == k {
                assert(r[i] == before[i]);
                lemma_text_less_asymmetric(before[i], w);
            } else if i < k {
                assert(r[i] == before[i] && r[j] == before[j - 1]);
            } else if i == k {
                assert(r[j] == before[j - 1]);
                if text_less(before[j - 1], w) {
                    lemma_text_less_total(before[k], w);
                    if j - 1 > k {
                        assert(!text_less(before[j - 1], before[k]));
                        lemma_text_less_total(before[j - 1], before[k]);
                        if text_less(w, before[k]) {
                            lemma_text_less_transitive(before[j - 1], w, before[k]);
                        }
                    }
                }
            } else {
                assert(r[i] == before[i - 1] && r[j] == before[j - 1]);
            }
        }
    } else {
        assert(sorted_words(words) =~= words);
    }
}

/// Text order is asymmetric.
pub proof fn lemma_text_less_asymmetric(a: Seq<char>, b: Seq<char>)
    requires
        text_less(a, b),
    ensures
        !text_less(b, a),
{
    if text_less(b, a) {
        lemma_text_less_transitive(a, b, a);
        lemma_text_less_irreflexive(a);
    }
}

/// The words in ascending order.
pub fn sort_words(words: &Vec<String>) -> (r: Vec<String>)
    ensures
        views(r@) == sorted_words(views(words@)),
{
    let ghost all = views(words@);
    let mut out: Vec<String> = Vec::new();
    let mut i: usize = 0;
    assert(views(out@) =~= sorted_words(all.take(0)));
    while i < words.len()
        invariant
            i <= words@.len(),
            all == views(words@),
            views(out@) == sorted_words(all.take(i as int)),
        decreases words@.len() - i,
    {
        let w = words[i].clone();
        let k = rank_of(&out, w.as_str());
        let ghost before = views(out@);
        proof {
            lemma_rank_in(before, w@);
            assert(all.take(i + 1).drop_last() =~= all.take(i as int));
            assert(all.take(i + 1).last() == w@);
        }
        out.insert(k, w);
        assert(views(out@) =~= before.insert(k as int, w@));
        i = i + 1;
    }
    assert(all.take(i as int) =~= all);
    out
}

/// How many words at the front come before `w`.
fn rank_of(v: &Vec<String>, w: &str) -> (k: usize)
    ensures
        k == rank_in(views(v@), w@),
        k <= v@.len(),
{
    let ghost t = views(v@);
    let mut k: usize = 0;
    assert(t.skip(0) =~= t);
    while k < v.len() && comes_before(v[k].as_str(), w)
        invariant
            k <= v@.len(),
            t == views(v@),
            rank_in(t, w@) == k + rank_in(t.skip(k as int), w@),
        decreases v@.len() - k,
    {
        assert(t.skip(k as int)[0] == v@[k as int]@);
        assert(t.skip(k as int).drop_first() =~= t.skip(k + 1));
        k = k + 1;
    }
    proof {
        if k < v@.len() {
            assert(t.skip(k as int)[0] == v@[k as int]@);
        }
    }
    k
}

/// Strictly ascending.
pub open spec fn ascending(t: Seq<Seq<char>>) -> bool {
    forall|i: int, j: int| 0 <= i < j < t.len() ==> text_less(#[trigger] t[i], #[trigger] t[j])
}

/// How many texts at the front of `t` come before `w`.
pub open spec fn rank_in(t: Seq<Seq<char>>, w: Seq<char>) -> nat
    decreases t.len(),
{
    if t.len() == 0 || !text_less(t[0], w) {
        0
    } else {
        1 + rank_in(t.drop_first(), w)
    }
}

/// `t` with `w` at its place, where it is not there already.
pub open spec fn with_word(t: Seq<Seq<char>>, w: Seq<char>) -> Seq<Seq<char>> {
    let k = rank_in(t, w) as int;
    if k < t.len() && t[k] == w {
        t
    } else {
        t.insert(k, w)
    }
}

/// The different texts among `words`, ascending.
pub open spec fn sorted_set(words: Seq<Seq<char>>) -> Seq<Seq<char>>
    decreases words.len(),
{
    if words.len() == 0 {
        Seq::empty()
    } else {
        with_word(sorted_set(words.drop_last()), words.last())
    }
}

/// `rank_in` is where the texts before `w` end.
pub proof fn lemma_rank_in(t: Seq<Seq<char>>, w: Seq<char>)
    ensures
        rank_in(t, w) <= t.len(),
        forall|i: int| 0 <= i < rank_in(t, w) ==> text_less(#[trigger] t[i], w),
        rank_in(t, w) < t.len() ==> !text_less(t[rank_in(t, w) as int], w),
    decreases t.len(),
{
    if t.len() > 0 && text_less(t[0], w) {
        let u = t.drop_first();
        lemma_rank_in(u, w);
        assert forall|i: int| 0 <= i < rank_in(t, w) implies text_less(#[trigger] t[i], w) by {
            if i > 0 {
                assert(u[i - 1] == t[i]);
            }
        }
    }
}

/// Putting a text at its place keeps the order, and adds that text and no other.
pub proof fn lemma_with_word(t: Seq<Seq<char>>, w: Seq<char>)
    requires
        ascending(t),
    ensures
        ascending(with_word(t, w)),
        forall|x: Seq<char>|
            #[trigger] with_word(t, w).contains(x) <==> t.contains(x) || x == w,
{
    lemma_rank_in(t, w);
    let k = rank_in(t, w) as int;
    let r = with_word(t, w);
    if k < t.len() && t[k] == w {
    } else {
        if k < t.len() {
            lemma_text_less_total(t[k], w);
        }
        assert forall|i: int, j: int| 0 <= i < j < r.len() implies text_less(
            #[trigger] r[i],
            #[trigger] r[j],
        ) by {
            if i < k && j < k {
                assert(r[i] == t[i] && r[j] == t[j]);
            } else if i < k && j == k {
                assert(r[i] == t[i]);
            } else if i < k {
                assert(r[i] == t[i] && r[j] == t[j - 1]);
            } else if i == k {
                assert(r[j] == t[j - 1]);
                if j - 1 > k {
                    assert(text_less(t[k], t[j - 1]));
                    lemma_text_less_transitive(w, t[k], t[j - 1]);
                }
            } else {
                assert(r[i] == t[i - 1] && r[j] == t[j - 1]);
            }
        }
        assert forall|x: Seq<char>| #[trigger] r.contains(x) <==> t.contains(x) || x == w by {
            if r.contains(x) {
                let p = choose|p: int| 0 <= p < r.len() && r[p] == x;
                if p < k {
                    assert(t[p] == x);
                } else if p > k {
                    assert(t[p - 1] == x);
                }
            }
            if t.contains(x) {
                let p = choose|p: int| 0 <= p < t.len() && t[p] == x;
                if p < k {
                    assert(r[p] == x);
                } else {
                    assert(r[p + 1] == x);
                }
            }
            if x == w {
                assert(r[k] == x);
            }
        }
    }
}

/// The sorted set of some words is strictly ascending and holds exactly those words.
pub proof fn lemma_sorted_set(words: Seq<Seq<char>>)
    ensures
        ascending(sorted_set(words)),
        forall|x: Seq<char>| #[trigger] sorted_set(words).contains(x) <==> words.contains(x),
    decreases words.len(),
{
    if words.len() > 0 {
        let before = words.drop_last();
        lemma_sorted_set(before);
        lemma_with_word(sorted_set(before), words.last());
        assert forall|x: Seq<char>| #[trigger]
            sorted_set(words).contains(x) <==> words.contains(x) by {
            if words.contains(x) {
                let p = choose|p: int| 0 <= p < words.len() && words[p] == x;
                if p < before.len() {
                    assert(before[p] == x);
                    assert(sorted_set(before).contains(x));
                }
            }
            if before.contains(x) {
                let p = choose|p: int| 0 <= p < before.len() && before[p] == x;
                assert(words[p] == x);
            }
            if sorted_set(words).contains(x) {
                assert(with_word(sorted_set(before), words.last()).contains(x));
                if x == words.last() {
                    assert(words[words.len() - 1] == x);
                } else {
                    assert(sorted_set(before).contains(x));
                }
            }
            if x == words.last() {
                assert(with_word(sorted_set(before), words.last()).contains(x));
            }
        }
    }
}

/// Puts a word at its place among ascending words, where it is not there already.
pub fn add_word(v: &mut Vec<String>, w: &str)
    ensures
        views(final(v)@) == with_word(views(old(v)@), w@),
{
    let ghost t = views(v@);
    let k = rank_of(v, w);
    proof {
        if k < v@.len() {
            assert(t[k as int] == v@[k as int]@);
        }
    }
    if k < v.len() && same_text(v[k].as_str(), w) {
        return ;
    }
    v.insert(k, w.to_owned());
    assert(views(v@) =~= t.insert(k as int, w@));
}

// --- classes of characters ------------------------------------------------

/// Whether `c` is an ASCII letter.
pub open spec fn is_ascii_letter(c: char) -> bool {
    ('a' <= c <= 'z') || ('A' <= c <= 'Z')
}

/// Whether a character outside ASCII has the Unicode property Alphabetic.
pub uninterp spec fn unicode_alphabetic(c: char) -> bool;

/// Whether a character outside ASCII is alphabetic or numeric in Unicode.
pub uninterp spec fn unicode_alphanumeric(c: char) -> bool;

/// Whether `c` is alphabetic.
pub open spec fn is_alphabetic(c: char) -> bool {
    if c <= '\u{7f}' {
        is_ascii_letter(c)
    } else {
        unicode_alphabetic(c)
    }
}

/// Whether `c` is alphabetic or numeric.
pub open spec fn is_alphanumeric(c: char) -> bool {
    if c <= '\u{7f}' {
        is_ascii_letter(c) || is_digit(c)
    } else {
        unicode_alphanumeric(c)
    }
}

/// `char::is_alphabetic`: of the ASCII characters the letters are alphabetic; of the others,
/// those with the Unicode property Alphabetic.
#[verifier::external_body]
pub(crate) fn alphabetic(c: char) -> (r: bool)
    ensures
        r == (if c <= '\u{7f}' {
            is_ascii_letter(c)
        } else {
            unicode_alphabetic(c)
        }),
{
    c.is_alphabetic()
}

/// `char::is_alphanumeric`: of the ASCII characters the letters and digits are alphanumeric; of
/// the others, those that are alphabetic or numeric in Unicode.
#[verifier::external_body]
pub(crate) fn alphanumeric(c: char) -> (r: bool)
    ensures
        r == (if c <= '\u{7f}' {
            is_ascii_letter(c) || is_digit(c)
        } else {
            unicode_alphanumeric(c)
        }),
{
    c.is_alphanumeric()
}

/// A letter `A` to `Z` in lower case; any other character as it is.
pub open spec fn ascii_lower(c: char) -> char {
    if 'A' <= c <= 'Z' {
        ((c as u32) + 32) as char
    } else {
        c
    }
}

/// The lower-case form of a text with characters outside ASCII, as Unicode defines it. No letter
/// `A` to `Z` is left in it.
pub uninterp spec fn unicode_lowercase(s: Seq<char>) -> Seq<char>;

/// Whether all characters are ASCII.
pub open spec fn all_ascii(s: Seq<char>) -> bool {
    forall|i: int| 0 <= i < s.len() ==> #[trigger] s[i] <= '\u{7f}'
}

/// The lower-case form of a text.
pub open spec fn lowercase_of(s: Seq<char>) -> Seq<char> {
    if all_ascii(s) {
        s.map_values(|c: char| ascii_lower(c))
    } else {
        unicode_lowercase(s).map_values(|c: char| ascii_lower(c))
    }
}

/// Whether a text stands in another.
pub open spec fn is_part(part: Seq<char>, whole: Seq<char>) -> bool {
    exists|a: int, b: int|
        0 <= a <= b <= whole.len() && #[trigger] whole.subrange(a, b) == part
}

/// Whether a character is an ASCII letter or digit.
pub open spec fn is_ascii_alphanumeric(c: char) -> bool {
    is_ascii_letter(c) || is_digit(c)
}

/// Whether a text holds an ASCII letter or digit.
pub open spec fn holds_ascii_alphanumeric(s: Seq<char>) -> bool {
    exists|i: int| 0 <= i < s.len() && is_ascii_alphanumeric(#[trigger] s[i])
}

/// `str::to_lowercase`: in an ASCII text the letters `A` to `Z` become `a` to `z`; any other text
/// becomes what Unicode defines. Either way no letter `A` to `Z` is left, so that lowering those
/// once more changes nothing. Each character is lowered by itself, but for the capital sigma, which
/// becomes one of two Greek letters; so the lower case of a part of a text holds no ASCII letter or
/// digit that the lower case of the whole text does not hold.
#[verifier::external_body]
pub(crate) fn lowercase(s: &str) -> (r: String)
    ensures
        r@ == (if all_ascii(s@) {
            s@.map_values(|c: char| ascii_lower(c))
        } else {
            unicode_lowercase(s@).map_values(|c: char| ascii_lower(c))
        }),
        forall|whole: Seq<char>, c: char|
            #![trigger is_part(s@, whole), r@.contains(c)]
            is_part(s@, whole) && r@.contains(c) && is_ascii_alphanumeric(c) ==> lowercase_of(
                whole,
            ).contains(c),
{
    s.to_lowercase()
}

// --- parts ----------------------------------------------------------------

/// Whether `s` begins with `prefix`.
pub fn starts_with(s: &str, prefix: &str) -> (r: bool)
    ensures
        r == prefix@.is_prefix_of(s@),
{
    let n = prefix.unicode_len();
    if s.unicode_len() < n {
        return false;
    }
    let head = s.substring_char(0, n);
    let r = same_text(head, prefix);
    assert(s@.subrange(0, n as int) =~= s@.take(n as int));
    r
}

/// Whether `s` ends with `suffix`.
pub fn ends_with(s: &str, suffix: &str) -> (r: bool)
    ensures
        r == suffix@.is_suffix_of(s@),
{
    let n = suffix.unicode_len();
    let m = s.unicode_len();
    if m < n {
        return false;
    }
    let tail = s.substring_char(m - n, m);
    let r = same_text(tail, suffix);
    assert(s@.subrange(m - n, m as int) =~= s@.skip(m - n));
    r
}

/// What is left of `s` behind `prefix`, where `s` begins with it.
pub open spec fn without_prefix(s: Seq<char>, prefix: Seq<char>) -> Option<Seq<char>> {
    if prefix.is_prefix_of(s) {
        Some(s.skip(prefix.len() as int))
    } else {
        None
    }
}

/// What is left of `s` before `suffix`, where `s` ends with it.
pub open spec fn without_suffix(s: Seq<char>, suffix: Seq<char>) -> Option<Seq<char>> {
    if suffix.is_suffix_of(s) {
        Some(s.take(s.len() - suffix.len()))
    } else {
        None
    }
}

/// The view of an optional string.
pub open spec fn opt_view(o: Option<String>) -> Option<Seq<char>> {
    match o {
        Some(s) => Some(s@),
        None => None,
    }
}

/// `s` without the leading `prefix`.
pub fn strip_prefix(s: &str, prefix: &str) -> (r: Option<String>)
    ensures
        opt_view(r) == without_prefix(s@, prefix@),
{
    if starts_with(s, prefix) {
        let n = prefix.unicode_len();
        let m = s.unicode_len();
        let rest = s.substring_char(n, m).to_owned();
        assert(rest@ =~= s@.skip(n as int));
        Some(rest)
    } else {
        None
    }
}

/// `s` without the trailing `suffix`.
pub fn strip_suffix(s: &str, suffix: &str) -> (r: Option<String>)
    ensures
        opt_view(r) == without_suffix(s@, suffix@),
{
    if ends_with(s, suffix) {
        let n = suffix.unicode_len();
        let m = s.unicode_len();
        let rest = s.substring_char(0, m - n).to_owned();
        assert(rest@ =~= s@.take(m - n));
        Some(rest)
    } else {
        None
    }
}

/// Where `c` first stands in `s`; the length of `s` where it does not.
pub open spec fn first_at(s: Seq<char>, c: char) -> nat
    decreases s.len(),
{
    if s.len() == 0 || s[0] == c {
        0
    } else {
        1 + first_at(s.drop_first(), c)
    }
}

/// `first_at` is the first position that holds `c`.
pub proof fn lemma_first_at(s: Seq<char>, c: char)
    ensures
        first_at(s, c) <= s.len(),
        first_at(s, c) < s.len() ==> s[first_at(s, c) as int] == c,
        forall|i: int| 0 <= i < first_at(s, c) ==> s[i] != c,
        first_at(s, c) == s.len() <==> !s.contains(c),
    decreases s.len(),
{
    if s.len() > 0 && s[0] != c {
        let t = s.drop_first();
        lemma_first_at(t, c);
        assert forall|i: int| 0 <= i < first_at(s, c) implies s[i] != c by {
            if i > 0 {
                assert(t[i - 1] == s[i]);
            }
        }
        if t.contains(c) {
            let j = choose|j: int| 0 <= j < t.len() && t[j] == c;
            assert(s[j + 1] == c);
        }
        if s.contains(c) {
            let j = choose|j: int| 0 <= j < s.len() && s[j] == c;
            assert(t[j - 1] == c);
        }
    } else if s.len() > 0 {
        assert(s.contains(s[0]));
    }
}

/// A position that holds `c`, with no `c` before it, is `first_at`.
pub proof fn lemma_first_at_is(s: Seq<char>, c: char, k: int)
    requires
        0 <= k <= s.len(),
        forall|i: int| 0 <= i < k ==> s[i] != c,
        k < s.len() ==> s[k] == c,
    ensures
        first_at(s, c) == k,
{
    lemma_first_at(s, c);
    let f = first_at(s, c) as int;
    if f < k {
        assert(s[f] != c);
    } else if k < f {
        assert(s[k] != c);
    }
}

/// Where `c` first stands in `v` at or behind `from`; the length of `v` where it does not.
pub fn find_from(v: &Vec<char>, c: char, from: usize) -> (r: usize)
    requires
        from <= v@.len(),
    ensures
        from <= r <= v@.len(),
        r - from == first_at(v@.skip(from as int), c),
{
    let mut i: usize = from;
    while i < v.len() && v[i] != c
        invariant
            from <= i <= v@.len(),
            forall|j: int| from <= j < i ==> v@[j] != c,
        decreases v@.len() - i,
    {
        i = i + 1;
    }
    proof {
        lemma_first_at_is(v@.skip(from as int), c, i - from);
    }
    i
}

/// What stands in `s` before the first `c`: all of `s` where there is none.
pub open spec fn before_first(s: Seq<char>, c: char) -> Seq<char> {
    s.take(first_at(s, c) as int)
}

/// The part of `s` before the first `c`.
pub fn part_before(s: &str, c: char) -> (r: String)
    ensures
        r@ == before_first(s@, c),
{
    let v = chars_of(s);
    assert(v@.skip(0) =~= s@);
    let n = find_from(&v, c, 0);
    proof {
        lemma_first_at(s@, c);
        assert(v@.subrange(0, n as int) =~= s@.take(n as int));
    }
    text_of_range(&v, 0, n)
}

/// The pieces of `s` between the occurrences of `c`: one more than there are occurrences.
pub open spec fn split_on(s: Seq<char>, c: char) -> Seq<Seq<char>>
    decreases s.len(),
{
    let n = first_at(s, c);
    if n >= s.len() {
        seq![s]
    } else {
        seq![s.take(n as int)] + split_on(s.skip(n as int + 1), c)
    }
}

/// There is always a piece.
pub proof fn lemma_split_has_a_piece(s: Seq<char>, c: char)
    ensures
        split_on(s, c).len() > 0,
{
}

/// What stands before a `c` and what stands behind it are split apart from each other.
pub proof fn lemma_split_at(s: Seq<char>, c: char, t: Seq<char>)
    ensures
        split_on(s + seq![c] + t, c) == split_on(s, c) + split_on(t, c),
    decreases s.len(),
{
    let whole = s + seq![c] + t;
    let n = first_at(s, c) as int;
    lemma_first_at(s, c);
    assert forall|i: int| 0 <= i < n implies whole[i] != c by {
        assert(whole[i] == s[i]);
    }
    assert(whole[n] == c) by {
        if n < s.len() {
            assert(whole[n] == s[n]);
        }
    }
    lemma_first_at_is(whole, c, n);
    assert(whole.take(n) =~= s.take(n));
    if n < s.len() {
        let rest = s.skip(n + 1);
        lemma_split_at(rest, c, t);
        assert(whole.skip(n + 1) =~= rest + seq![c] + t);
        assert(split_on(whole, c) =~= split_on(s, c) + split_on(t, c));
    } else {
        assert(s.take(n) =~= s);
        assert(whole.skip(n + 1) =~= t);
        assert(split_on(whole, c) =~= split_on(s, c) + split_on(t, c));
    }
}

/// The pieces of `s` between the occurrences of `c`.
pub fn split(s: &str, c: char) -> (r: Vec<String>)
    ensures
        views(r@) == split_on(s@, c),
{
    let v = chars_of(s);
    let mut out: Vec<String> = Vec::new();
    let mut from: usize = 0;
    assert(v@.skip(0) =~= s@);
    assert(views(out@) + split_on(s@, c) =~= split_on(s@, c));
    loop
        invariant_except_break
            from <= v@.len(),
            views(out@) + split_on(v@.skip(from as int), c) == split_on(s@, c),
        ensures
            views(out@) == split_on(s@, c),
        decreases v@.len() - from,
    {
        let n = find_from(&v, c, from);
        let piece = text_of_range(&v, from, n);
        let ghost rest = v@.skip(from as int);
        proof {
            lemma_first_at(rest, c);
            assert(piece@ =~= rest.take(n - from));
        }
        let ghost before = views(out@);
        out.push(piece);
        assert(views(out@) =~= before.push(piece@));
        if n >= v.len() {
            assert(rest.take(n - from) =~= rest);
            assert(views(out@) =~= before + split_on(rest, c));
            break;
        }
        assert(rest.skip(n - from + 1) =~= v@.skip(n + 1));
        assert(views(out@) + split_on(v@.skip(n + 1), c) =~= before + split_on(rest, c));
        from = n + 1;
    }
    out
}

/// The parts with `sep` between each two.
pub open spec fn joined_with(parts: Seq<Seq<char>>, sep: Seq<char>) -> Seq<char>
    decreases parts.len(),
{
    if parts.len() == 0 {
        Seq::empty()
    } else if parts.len() == 1 {
        parts[0]
    } else {
        joined_with(parts.drop_last(), sep) + sep + parts.last()
    }
}

/// The strings with `sep` between each two.
pub fn join(parts: &Vec<String>, sep: &str) -> (r: String)
    ensures
        r@ == joined_with(views(parts@), sep@),
{
    let mut out = String::new();
    let mut i: usize = 0;
    while i < parts.len()
        invariant
            i <= parts@.len(),
            out@ == joined_with(views(parts@.take(i as int)), sep@),
        decreases parts@.len() - i,
    {
        if i > 0 {
            out.append(sep);
        }
        out.append(parts[i].as_str());
        proof {
            let now = views(parts@.take(i + 1));
            assert(now.drop_last() =~= views(parts@.take(i as int)));
            assert(now.last() == parts@[i as int]@);
            if i == 0 {
                assert(out@ =~= now[0]);
            }
        }
        i = i + 1;
    }
    assert(parts@.take(parts@.len() as int) =~= parts@);
    out
}

/// Whether `needle` stands somewhere in `s`.
pub open spec fn has_part(s: Seq<char>, needle: Seq<char>) -> bool {
    exists|i: int|
        0 <= i <= s.len() - needle.len() && #[trigger] s.subrange(i, i + needle.len()) == needle
}

/// Whether `needle` stands somewhere in `s`.
pub fn contains_part(s: &str, needle: &str) -> (r: bool)
    ensures
        r == has_part(s@, needle@),
{
    let n = s.unicode_len();
    let m = needle.unicode_len();
    if m > n {
        return false;
    }
    let mut i: usize = 0;
    while i <= n - m
        invariant
            n == s@.len(),
            m == needle@.len(),
            m <= n,
            i <= n - m + 1,
            forall|j: int| 0 <= j < i ==> #[trigger] s@.subrange(j, j + m) != needle@,
        decreases n - i,
    {
        if same_text(s.substring_char(i, i + m), needle) {
            return true;
        }
        if i == n - m {
            return false;
        }
        i = i + 1;
    }
    false
}

// --- white space ----------------------------------------------------------

/// The characters with the Unicode property White_Space.
pub open spec fn is_white(c: char) -> bool {
    ||| '\u{9}' <= c <= '\u{d}'
    ||| c == '\u{20}'
    ||| c == '\u{85}'
    ||| c == '\u{a0}'
    ||| c == '\u{1680}'
    ||| '\u{2000}' <= c <= '\u{200a}'
    ||| c == '\u{2028}'
    ||| c == '\u{2029}'
    ||| c == '\u{202f}'
    ||| c == '\u{205f}'
    ||| c == '\u{3000}'
}

/// Whether `c` is white space.
pub fn white(c: char) -> (r: bool)
    ensures
        r == is_white(c),
{
    ('\u{9}' <= c && c <= '\u{d}') || c == '\u{20}' || c == '\u{85}' || c == '\u{a0}' || c
        == '\u{1680}' || ('\u{2000}' <= c && c <= '\u{200a}') || c == '\u{2028}' || c == '\u{2029}'
        || c == '\u{202f}' || c == '\u{205f}' || c == '\u{3000}'
}

/// `s` without its leading white space.
pub open spec fn trim_start(s: Seq<char>) -> Seq<char>
    decreases s.len(),
{
    if s.len() > 0 && is_white(s[0]) {
        trim_start(s.drop_first())
    } else {
        s
    }
}

/// `s` without its trailing white space.
pub open spec fn trim_end(s: Seq<char>) -> Seq<char>
    decreases s.len(),
{
    if s.len() > 0 && is_white(s.last()) {
        trim_end(s.drop_last())
    } else {
        s
    }
}

/// `s` without white space at either end.
pub open spec fn trimmed(s: Seq<char>) -> Seq<char> {
    trim_end(trim_start(s))
}

/// What is left without white space at either end is a part of the text.
pub proof fn lemma_trimmed_is_a_part(s: Seq<char>)
    ensures
        is_part(trimmed(s), s),
{
    let n = lemma_trim_start_skips(s);
    let begun = trim_start(s);
    let m = lemma_trim_end_takes(begun);
    assert(s.subrange(n, n + m) =~= trimmed(s));
}

proof fn lemma_trim_start_skips(s: Seq<char>) -> (n: int)
    ensures
        0 <= n <= s.len(),
        trim_start(s) == s.skip(n),
    decreases s.len(),
{
    if s.len() > 0 && is_white(s[0]) {
        let n = lemma_trim_start_skips(s.drop_first());
        assert(s.drop_first().skip(n) =~= s.skip(n + 1));
        n + 1
    } else {
        assert(s.skip(0) =~= s);
        0
    }
}

proof fn lemma_trim_end_takes(s: Seq<char>) -> (m: int)
    ensures
        0 <= m <= s.len(),
        trim_end(s) == s.take(m),
    decreases s.len(),
{
    if s.len() > 0 && is_white(s.last()) {
        let m = lemma_trim_end_takes(s.drop_last());
        assert(s.drop_last().take(m) =~= s.take(m));
        m
    } else {
        assert(s.take(s.len() as int) =~= s);
        s.len() as int
    }
}

/// `s` without white space at either end.
pub fn trim(s: &str) -> (r: String)
    ensures
        r@ == trimmed(s@),
{
    let v = chars_of(s);
    let mut a: usize = 0;
    assert(v@.skip(0) =~= s@);
    while a < v.len() && white(v[a])
        invariant
            a <= v@.len(),
            trim_start(s@) == trim_start(v@.skip(a as int)),
        decreases v@.len() - a,
    {
        assert(v@.skip(a as int).drop_first() =~= v@.skip(a + 1));
        a = a + 1;
    }
    let mut b: usize = v.len();
    assert(trim_start(s@) == v@.skip(a as int));
    assert(v@.subrange(a as int, b as int) =~= v@.skip(a as int));
    while b > a && white(v[b - 1])
        invariant
            a <= b <= v@.len(),
            trimmed(s@) == trim_end(v@.subrange(a as int, b as int)),
        decreases b,
    {
        assert(v@.subrange(a as int, b as int).drop_last() =~= v@.subrange(a as int, b - 1));
        b = b - 1;
    }
    text_of_range(&v, a, b)
}

/// `s` without any `c` at its beginning.
pub open spec fn trim_start_char(s: Seq<char>, c: char) -> Seq<char>
    decreases s.len(),
{
    if s.len() > 0 && s[0] == c {
        trim_start_char(s.drop_first(), c)
    } else {
        s
    }
}

/// `s` without any `c` at its end.
pub open spec fn trim_end_char(s: Seq<char>, c: char) -> Seq<char>
    decreases s.len(),
{
    if s.len() > 0 && s.last() == c {
        trim_end_char(s.drop_last(), c)
    } else {
        s
    }
}

/// `s` without any `c` at either end.
pub open spec fn trimmed_char(s: Seq<char>, c: char) -> Seq<char> {
    trim_end_char(trim_start_char(s, c), c)
}

/// `s` without any `c` at its beginning.
pub fn trim_start_of(s: &str, c: char) -> (r: String)
    ensures
        r@ == trim_start_char(s@, c),
{
    let v = chars_of(s);
    let mut a: usize = 0;
    assert(v@.skip(0) =~= s@);
    while a < v.len() && v[a] == c
        invariant
            a <= v@.len(),
            trim_start_char(s@, c) == trim_start_char(v@.skip(a as int), c),
        decreases v@.len() - a,
    {
        assert(v@.skip(a as int).drop_first() =~= v@.skip(a + 1));
        a = a + 1;
    }
    assert(v@.subrange(a as int, v@.len() as int) =~= v@.skip(a as int));
    text_of_range(&v, a, v.len())
}

/// `s` without any `c` at its end.
pub fn trim_end_of(s: &str, c: char) -> (r: String)
    ensures
        r@ == trim_end_char(s@, c),
{
    let v = chars_of(s);
    let mut b: usize = v.len();
    assert(v@.take(b as int) =~= s@);
    while b > 0 && v[b - 1] == c
        invariant
            b <= v@.len(),
            trim_end_char(s@, c) == trim_end_char(v@.take(b as int), c),
        decreases b,
    {
        assert(v@.take(b as int).drop_last() =~= v@.take(b - 1));
        b = b - 1;
    }
    assert(v@.subrange(0, b as int) =~= v@.take(b as int));
    text_of_range(&v, 0, b)
}

/// `s` without any `c` at either end.
pub fn trim_char(s: &str, c: char) -> (r: String)
    ensures
        r@ == trimmed_char(s@, c),
{
    trim_end_of(trim_start_of(s, c).as_str(), c)
}

/// Where the last `c` in `s` is; -1 where there is none.
pub open spec fn last_at(s: Seq<char>, c: char) -> int
    decreases s.len(),
{
    if s.len() == 0 {
        -1
    } else if s.last() == c {
        s.len() - 1
    } else {
        last_at(s.drop_last(), c)
    }
}

/// What stands before and behind the last `c` in `s`, where there is one.
pub open spec fn around_last(s: Seq<char>, c: char) -> Option<(Seq<char>, Seq<char>)> {
    let k = last_at(s, c);
    if k < 0 {
        None
    } else {
        Some((s.take(k), s.skip(k + 1)))
    }
}

/// The last `c` is where it stands and none stands behind.
pub proof fn lemma_last_at_is(s: Seq<char>, c: char, k: int)
    requires
        0 <= k < s.len(),
        s[k] == c,
        forall|i: int| k < i < s.len() ==> #[trigger] s[i] != c,
    ensures
        last_at(s, c) == k,
    decreases s.len(),
{
    if k < s.len() - 1 {
        assert(s[s.len() - 1] != c);
        assert forall|i: int| k < i < s.drop_last().len() implies #[trigger] s.drop_last()[i]
            != c by {
            assert(s.drop_last()[i] == s[i]);
        }
        lemma_last_at_is(s.drop_last(), c, k);
    }
}

/// What stands before and behind the last `c` in `s`, where there is one.
pub fn split_last(s: &str, c: char) -> (r: Option<(String, String)>)
    ensures
        match r {
            Some((a, b)) => around_last(s@, c) == Some((a@, b@)),
            None => around_last(s@, c) is None,
        },
{
    let v = chars_of(s);
    let mut k: usize = v.len();
    assert(v@.take(k as int) =~= s@);
    while k > 0
        invariant
            k <= v@.len(),
            v@ == s@,
            last_at(s@, c) == last_at(v@.take(k as int), c),
        decreases k,
    {
        assert(v@.take(k as int).last() == v@[k - 1]);
        assert(v@.take(k as int).drop_last() =~= v@.take(k - 1));
        k = k - 1;
        if v[k] == c {
            let before = text_of_range(&v, 0, k);
            let behind = text_of_range(&v, k + 1, v.len());
            assert(before@ =~= s@.take(k as int));
            assert(behind@ =~= s@.skip(k + 1));
            return Some((before, behind));
        }
    }
    None
}

/// What stands in `s` behind the first `c`, where there is one.
pub open spec fn after_first(s: Seq<char>, c: char) -> Option<Seq<char>> {
    let n = first_at(s, c);
    if n >= s.len() {
        None
    } else {
        Some(s.skip(n as int + 1))
    }
}

/// The part of `s` behind the first `c`.
pub fn part_after(s: &str, c: char) -> (r: Option<String>)
    ensures
        opt_view(r) == after_first(s@, c),
{
    let v = chars_of(s);
    assert(v@.skip(0) =~= s@);
    let n = find_from(&v, c, 0);
    proof {
        lemma_first_at(s@, c);
    }
    if n >= v.len() {
        None
    } else {
        let rest = text_of_range(&v, n + 1, v.len());
        assert(rest@ =~= s@.skip(n + 1));
        Some(rest)
    }
}

/// The lines of `s`: what stands before each line feed, without a carriage return at its end, and
/// what stands behind the last line feed, where that is not empty.
pub open spec fn lines_of(s: Seq<char>) -> Seq<Seq<char>> {
    let pieces = split_on(s, '\n');
    let ended = pieces.drop_last().map_values(|p: Seq<char>| without_return(p));
    if pieces.last().len() == 0 {
        ended
    } else {
        ended.push(pieces.last())
    }
}

/// A line without a carriage return at its end.
pub open spec fn without_return(p: Seq<char>) -> Seq<char> {
    if p.len() > 0 && p.last() == '\r' {
        p.drop_last()
    } else {
        p
    }
}

/// There is always at least one piece.
pub proof fn lemma_split_on_nonempty(s: Seq<char>, c: char)
    ensures
        split_on(s, c).len() > 0,
{
}

/// The lines of a text.
pub fn lines(s: &str) -> (r: Vec<String>)
    ensures
        views(r@) == lines_of(s@),
{
    let pieces = split(s, '\n');
    let ghost all = views(pieces@);
    let mut out: Vec<String> = Vec::new();
    let mut i: usize = 0;
    assert(all.len() == pieces@.len());
    assert(pieces@.len() > 0) by {
        lemma_split_on_nonempty(s@, '\n');
    }
    while i < pieces.len() - 1
        invariant
            pieces@.len() > 0,
            i <= pieces@.len() - 1,
            all == views(pieces@),
            views(out@) == all.take(i as int).map_values(|p: Seq<char>| without_return(p)),
        decreases pieces@.len() - i,
    {
        let ghost before = views(out@);
        let line = match strip_suffix(pieces[i].as_str(), "\r") {
            Some(rest) => rest,
            None => pieces[i].clone(),
        };
        proof {
            reveal_strlit("\r");
            let p = pieces@[i as int]@;
            assert(all[i as int] == p);
            if p.len() > 0 {
                assert(p.subrange(p.len() - 1, p.len() as int) =~= seq![p.last()]);
                assert(seq![p.last()][0] == p.last());
                assert(seq!['\r'][0] == '\r');
                assert("\r"@ =~= seq!['\r']);
                assert(p.take(p.len() - 1) =~= p.drop_last());
            }
            assert(line@ == without_return(p));
        }
        out.push(line);
        proof {
            assert(views(out@) =~= before.push(line@));
            assert(views(out@) =~= all.take(i + 1).map_values(|p: Seq<char>| without_return(p)));
        }
        i = i + 1;
    }
    assert(all.take(i as int) =~= all.drop_last());
    let last = pieces[i].clone();
    assert(all.last() == last@);
    if !last.as_str().is_empty() {
        let ghost before = views(out@);
        out.push(last);
        assert(views(out@) =~= before.push(last@));
    }
    out
}

// --- numbers --------------------------------------------------------------

/// The character of a decimal digit.
pub open spec fn digit_char(d: nat) -> char {
    (('0' as nat) + d % 10) as char
}

/// A number in decimal digits, without leading zeros.
pub open spec fn decimal_of(n: nat) -> Seq<char>
    decreases n,
{
    if n < 10 {
        seq![digit_char(n)]
    } else {
        decimal_of(n / 10).push(digit_char(n % 10))
    }
}

/// The digit characters are '0' to '9'.
fn digit(d: u64) -> (r: char)
    requires
        d < 10,
    ensures
        r == digit_char(d as nat),
{
    match d {
        0 => '0',
        1 => '1',
        2 => '2',
        3 => '3',
        4 => '4',
        5 => '5',
        6 => '6',
        7 => '7',
        8 => '8',
        _ => '9',
    }
}

/// A number written in decimal.
pub fn decimal(n: u64) -> (r: String)
    ensures
        r@ == decimal_of(n as nat),
    decreases n,
{
    if n < 10 {
        let mut out = String::new();
        out.push(digit(n));
        assert(out@ =~= seq![digit_char(n as nat)]);
        out
    } else {
        let mut out = decimal(n / 10);
        out.push(digit(n % 10));
        out
    }
}

/// A signed number in decimal digits.
pub open spec fn signed_decimal_of(n: int) -> Seq<char> {
    if n < 0 {
        "-"@ + decimal_of((-n) as nat)
    } else {
        decimal_of(n as nat)
    }
}

/// A signed number written in decimal.
pub fn signed_decimal(n: i64) -> (r: String)
    ensures
        r@ == signed_decimal_of(n as int),
{
    if n >= 0 {
        decimal(n as u64)
    } else {
        let size: u64 = if n == i64::MIN {
            0x8000_0000_0000_0000
        } else {
            (-n) as u64
        };
        joined("-", decimal(size).as_str())
    }
}

/// How a string is shown for debugging: in double quotes, with escapes.
pub uninterp spec fn quoted_debug(s: Seq<char>) -> Seq<char>;

/// The `Debug` form of a `str`, which the name stands for.
#[verifier::external_body]
pub(crate) fn debug_quoted(s: &str) -> (r: String)
    ensures
        r@ == quoted_debug(s@),
{
    format!("{:?}", s)
}

/// Whether `c` is an ASCII decimal digit.
pub open spec fn is_digit(c: char) -> bool {
    '0' <= c <= '9'
}

/// The number that a string of ASCII digits writes.
pub open spec fn number_of(s: Seq<char>) -> nat
    decreases s.len(),
{
    if s.len() == 0 {
        0
    } else {
        number_of(s.drop_last()) * 10 + (s.last() as nat - '0' as nat) as nat
    }
}

/// Whether `s` is one or more ASCII digits.
pub open spec fn all_digits(s: Seq<char>) -> bool {
    s.len() > 0 && forall|i: int| 0 <= i < s.len() ==> is_digit(#[trigger] s[i])
}

/// More digits never write a smaller number.
pub proof fn lemma_number_of_grows(s: Seq<char>, k: int)
    requires
        0 <= k <= s.len(),
        forall|i: int| 0 <= i < s.len() ==> is_digit(#[trigger] s[i]),
    ensures
        number_of(s.take(k)) <= number_of(s),
    decreases s.len(),
{
    if k == s.len() {
        assert(s.take(k) =~= s);
    } else {
        let t = s.drop_last();
        assert forall|i: int| 0 <= i < t.len() implies is_digit(#[trigger] t[i]) by {
            assert(t[i] == s[i]);
        }
        lemma_number_of_grows(t, k);
        assert(t.take(k) =~= s.take(k));
    }
}

/// The unsigned number that `s` writes: an optional plus sign, then decimal digits, and nothing
/// where it is larger than `max`.
pub open spec fn unsigned_of(s: Seq<char>, max: nat) -> Option<nat> {
    let digits = if s.len() > 0 && s[0] == '+' {
        s.drop_first()
    } else {
        s
    };
    if all_digits(digits) && number_of(digits) <= max {
        Some(number_of(digits))
    } else {
        None
    }
}

/// The value of an ASCII digit.
fn digit_value(c: char) -> (r: u64)
    requires
        is_digit(c),
    ensures
        r == c as nat - '0' as nat,
{
    (c as u32 - '0' as u32) as u64
}

/// Reads an unsigned number no larger than `max`.
pub fn parse_unsigned(s: &str, max: u64) -> (r: Option<u64>)
    ensures
        match r {
            Some(n) => unsigned_of(s@, max as nat) == Some(n as nat),
            None => unsigned_of(s@, max as nat) is None,
        },
{
    let v = chars_of(s);
    let mut from: usize = 0;
    if v.len() > 0 && v[0] == '+' {
        from = 1;
    }
    let ghost digits = v@.skip(from as int);
    proof {
        if from == 0 {
            assert(digits =~= s@);
        } else {
            assert(digits =~= s@.drop_first());
        }
    }
    if from >= v.len() {
        return None;
    }
    let mut total: u64 = 0;
    let mut i: usize = from;
    assert(digits.take(0) =~= Seq::<char>::empty());
    while i < v.len()
        invariant
            from <= i <= v@.len(),
            v@ == s@,
            digits == v@.skip(from as int),
            digits == (if s@.len() > 0 && s@[0] == '+' {
                s@.drop_first()
            } else {
                s@
            }),
            forall|j: int| 0 <= j < i - from ==> is_digit(#[trigger] digits[j]),
            total == number_of(digits.take(i - from)),
            total <= max,
        decreases v@.len() - i,
    {
        let c = v[i];
        assert(digits[i - from] == c);
        if !(c >= '0' && c <= '9') {
            return None;
        }
        let d = digit_value(c);
        proof {
            let k = i - from;
            assert(digits.take(k + 1).drop_last() =~= digits.take(k));
            assert(number_of(digits.take(k + 1)) == total * 10 + d);
        }
        let ghost next = number_of(digits.take(i - from + 1));
        let shifted = match total.checked_mul(10) {
            Some(t) => t.checked_add(d),
            None => None,
        };
        match shifted {
            Some(t) => {
                if t > max {
                    proof {
                        lemma_too_large(digits, i - from + 1, max as nat);
                    }
                    return None;
                }
                total = t;
            },
            None => {
                proof {
                    lemma_too_large(digits, i - from + 1, max as nat);
                }
                return None;
            },
        }
        i = i + 1;
    }
    assert(digits.take(i - from) =~= digits);
    Some(total)
}

/// The 64-bit signed number that `s` writes: decimal digits behind an optional minus sign.
pub open spec fn signed_of(s: Seq<char>) -> Option<int> {
    if s.len() > 0 && s[0] == '-' {
        let digits = s.drop_first();
        if all_digits(digits) && number_of(digits) <= 0x8000_0000_0000_0000 {
            Some(-(number_of(digits) as int))
        } else {
            None
        }
    } else if all_digits(s) && number_of(s) <= 0x7fff_ffff_ffff_ffff {
        Some(number_of(s) as int)
    } else {
        None
    }
}

/// Reads a 64-bit signed number: decimal digits behind an optional minus sign.
pub fn parse_signed(s: &str) -> (r: Option<i64>)
    requires
        s@.len() > 0,
        s@[0] != '+',
        s@[0] == '-' ==> s@.len() > 1 && s@[1] != '+',
    ensures
        match r {
            Some(n) => signed_of(s@) == Some(n as int),
            None => signed_of(s@) is None,
        },
{
    match strip_prefix(s, "-") {
        Some(digits) => {
            proof {
                reveal_strlit("-");
                assert("-"@.is_prefix_of(s@));
                assert(s@.subrange(0, 1)[0] == s@[0]);
                assert(digits@ =~= s@.drop_first());
            }
            match parse_unsigned(digits.as_str(), 0x8000_0000_0000_0000) {
                Some(n) => {
                    if n == 0x8000_0000_0000_0000 {
                        Some(i64::MIN)
                    } else {
                        Some(-(n as i64))
                    }
                },
                None => None,
            }
        },
        None => {
            proof {
                reveal_strlit("-");
                if s@[0] == '-' {
                    assert("-"@ =~= s@.subrange(0, 1));
                }
            }
            match parse_unsigned(s, 0x7fff_ffff_ffff_ffff) {
                Some(n) => Some(n as i64),
                None => None,
            }
        },
    }
}

/// A number is too large once the digits read so far write one that is.
proof fn lemma_too_large(digits: Seq<char>, k: int, max: nat)
    requires
        0 <= k <= digits.len(),
        number_of(digits.take(k)) > max,
    ensures
        !(all_digits(digits) && number_of(digits) <= max),
{
    if all_digits(digits) {
        lemma_number_of_grows(digits, k);
    }
}

// --- what the operations mean together ------------------------------------
pub proof fn lemma_last_at_holds(s: Seq<char>, c: char)
    ensures
        -1 <= last_at(s, c) < s.len(),
        last_at(s, c) >= 0 ==> s[last_at(s, c)] == c,
        forall|i: int| last_at(s, c) < i < s.len() ==> #[trigger] s[i] != c,
    decreases s.len(),
{
    if s.len() > 0 && s.last() != c {
        let rest = s.drop_last();
        lemma_last_at_holds(rest, c);
        assert forall|i: int| last_at(s, c) < i < s.len() implies #[trigger] s[i] != c by {
            if i < rest.len() {
                assert(rest[i] == s[i]);
            }
        }
    }
}

/// Text is ordered like a dictionary: the first difference decides, and a beginning comes before
/// the whole.
pub proof fn law_text_is_ordered_by_its_first_difference(a: Seq<char>, b: Seq<char>, k: int)
    requires
        0 <= k <= a.len(),
        k < b.len(),
        a.take(k) == b.take(k),
    ensures
        k == a.len() ==> text_less(a, b),
        k < a.len() && a[k] < b[k] ==> text_less(a, b),
        k < a.len() && b[k] < a[k] ==> !text_less(a, b),
    decreases k,
{
    if k > 0 {
        assert(a.take(k)[0] == a[0] && b.take(k)[0] == b[0]);
        assert(a.drop_first().take(k - 1) =~= a.take(k).drop_first());
        assert(b.drop_first().take(k - 1) =~= b.take(k).drop_first());
        law_text_is_ordered_by_its_first_difference(a.drop_first(), b.drop_first(), k - 1);
    }
}

/// A capital letter becomes the small letter at its place in the alphabet; everything else stays.
pub proof fn law_capitals_become_small(c: char)
    ensures
        'A' <= c <= 'Z' ==> 'a' <= ascii_lower(c) <= 'z' && ascii_lower(c) as int - 'a' as int
            == c as int - 'A' as int,
        !('A' <= c <= 'Z') ==> ascii_lower(c) == c,
        ascii_lower(ascii_lower(c)) == ascii_lower(c),
{
}

/// A beginning or an end that is taken off can be put back.
pub proof fn law_what_is_taken_off_can_be_put_back(s: Seq<char>, part: Seq<char>)
    ensures
        without_prefix(part + s, part) == Some(s),
        without_suffix(s + part, part) == Some(s),
        without_prefix(s, part) matches Some(rest) ==> part + rest == s,
        without_suffix(s, part) matches Some(rest) ==> rest + part == s,
{
    assert((part + s).take(part.len() as int) =~= part);
    assert(part.is_prefix_of(part + s)) by {
        assert((part + s).subrange(0, part.len() as int) =~= part);
    }
    assert((part + s).skip(part.len() as int) =~= s);
    assert(part.is_suffix_of(s + part)) by {
        assert((s + part).subrange(s.len() as int, (s + part).len() as int) =~= part);
    }
    assert((s + part).take(s.len() as int) =~= s);
    if let Some(rest) = without_prefix(s, part) {
        assert(part + rest =~= s);
    }
    if let Some(rest) = without_suffix(s, part) {
        assert(rest + part =~= s);
    }
}

/// Text falls apart at the first mark into what stands before it and what stands behind it; text
/// without the mark is all before.
pub proof fn law_text_parts_at_the_first_mark(a: Seq<char>, b: Seq<char>, c: char)
    requires
        !a.contains(c),
    ensures
        before_first(a.push(c) + b, c) == a,
        after_first(a.push(c) + b, c) == Some(b),
        before_first(a, c) == a,
        after_first(a, c) is None,
{
    let whole = a.push(c) + b;
    let n = a.len() as int;
    assert forall|i: int| 0 <= i < n implies #[trigger] whole[i] != c by {
        assert(whole[i] == a[i]);
        assert(a.contains(a[i]));
    }
    assert(whole[n] == c);
    lemma_first_at_is(whole, c, n);
    assert(whole.take(n) =~= a);
    assert(whole.skip(n + 1) =~= b);
    lemma_first_at(a, c);
    if first_at(a, c) < a.len() {
        assert(a.contains(a[first_at(a, c) as int]));
    }
    assert(a.take(n) =~= a);
}

/// Text falls apart at the last mark into what stands before it and what stands behind it.
pub proof fn law_text_parts_at_the_last_mark(a: Seq<char>, b: Seq<char>, c: char)
    requires
        !b.contains(c),
    ensures
        around_last(a.push(c) + b, c) == Some((a, b)),
        around_last(b, c) is None,
{
    let whole = a.push(c) + b;
    let n = a.len() as int;
    assert forall|i: int| n < i < whole.len() implies #[trigger] whole[i] != c by {
        assert(whole[i] == b[i - n - 1]);
        assert(b.contains(b[i - n - 1]));
    }
    assert(whole[n] == c);
    lemma_last_at_is(whole, c, n);
    assert(whole.take(n) =~= a);
    assert(whole.skip(n + 1) =~= b);
    lemma_last_at_holds(b, c);
    if last_at(b, c) >= 0 {
        assert(b.contains(b[last_at(b, c)]));
    }
}

/// Splitting takes a piece off at the first mark and goes on behind it; what holds no mark is one
/// piece.
pub proof fn law_splitting_goes_from_mark_to_mark(a: Seq<char>, b: Seq<char>, c: char)
    requires
        !a.contains(c),
    ensures
        split_on(a.push(c) + b, c) == seq![a] + split_on(b, c),
        split_on(a, c) == seq![a],
{
    law_text_parts_at_the_first_mark(a, b, c);
    let whole = a.push(c) + b;
    let n = first_at(whole, c) as int;
    lemma_first_at(whole, c);
    assert(whole[a.len() as int] == c);
    assert(n < whole.len()) by {
        if n >= whole.len() {
            assert(whole[a.len() as int] != c);
        }
    }
    assert(whole.take(n) == a);
    assert(whole.skip(n + 1) == b);
    lemma_first_at(a, c);
    if first_at(a, c) < a.len() {
        assert(a.contains(a[first_at(a, c) as int]));
    }
}

/// What was split can be joined again, and no piece holds the mark.
pub proof fn law_pieces_join_to_the_whole(s: Seq<char>, c: char, i: int)
    ensures
        joined_with(split_on(s, c), seq![c]) == s,
        split_on(s, c).len() > 0,
        0 <= i < split_on(s, c).len() ==> !split_on(s, c)[i].contains(c),
    decreases s.len(),
{
    let n = first_at(s, c) as int;
    lemma_first_at(s, c);
    if n >= s.len() {
        assert(split_on(s, c) =~= seq![s]);
    } else {
        let head = s.take(n);
        let rest = s.skip(n + 1);
        law_pieces_join_to_the_whole(rest, c, i - 1);
        lemma_joined_first(head, split_on(rest, c), seq![c]);
        assert(head + seq![c] + rest =~= s);
        if i > 0 && i < split_on(s, c).len() {
            assert(split_on(s, c)[i] == split_on(rest, c)[i - 1]);
        }
    }
}

proof fn lemma_joined_first(head: Seq<char>, parts: Seq<Seq<char>>, sep: Seq<char>)
    requires
        parts.len() > 0,
    ensures
        joined_with(seq![head] + parts, sep) == head + sep + joined_with(parts, sep),
    decreases parts.len(),
{
    let all = seq![head] + parts;
    assert(all.drop_last() =~= seq![head] + parts.drop_last());
    if parts.len() > 1 {
        lemma_joined_first(head, parts.drop_last(), sep);
        assert(joined_with(all, sep) =~= head + sep + joined_with(parts, sep));
    } else {
        assert(parts.drop_last() =~= Seq::<Seq<char>>::empty());
        assert(all.drop_last() =~= seq![head]);
        assert(joined_with(all.drop_last(), sep) == head);
    }
}

/// Joining puts the separator between the parts and nowhere else.
pub proof fn law_joining_puts_the_separator_between(head: Seq<char>, parts: Seq<Seq<char>>, sep: Seq<char>)
    ensures
        joined_with(Seq::<Seq<char>>::empty(), sep).len() == 0,
        joined_with(seq![head], sep) == head,
        parts.len() > 0 ==> joined_with(seq![head] + parts, sep) == head + sep + joined_with(
            parts,
            sep,
        ),
{
    if parts.len() > 0 {
        lemma_joined_first(head, parts, sep);
    }
}

/// Trimming takes off the white space at both ends and nothing else.
pub proof fn law_trimming_takes_off_white_space(a: Seq<char>, s: Seq<char>, b: Seq<char>)
    requires
        forall|i: int| 0 <= i < a.len() ==> is_white(#[trigger] a[i]),
        forall|i: int| 0 <= i < b.len() ==> is_white(#[trigger] b[i]),
        s.len() > 0 ==> !is_white(s[0]) && !is_white(s.last()),
    ensures
        trimmed(a + s + b) == s,
    decreases a.len() + b.len(),
{
    let whole = a + s + b;
    if a.len() > 0 {
        assert(whole[0] == a[0]);
        assert(whole.drop_first() =~= a.drop_first() + s + b);
        assert forall|i: int| 0 <= i < a.drop_first().len() implies is_white(
            #[trigger] a.drop_first()[i],
        ) by {
            assert(a.drop_first()[i] == a[i + 1]);
        }
        law_trimming_takes_off_white_space(a.drop_first(), s, b);
    } else if s.len() == 0 {
        assert(whole =~= b);
        lemma_all_white(b);
        assert(trim_end(Seq::<char>::empty()) =~= s);
    } else {
        assert(whole =~= s + b);
        assert(whole[0] == s[0]);
        assert(trim_start(whole) == whole);
        lemma_white_end(s, b);
    }
}

proof fn lemma_all_white(b: Seq<char>)
    requires
        forall|i: int| 0 <= i < b.len() ==> is_white(#[trigger] b[i]),
    ensures
        trim_start(b) == Seq::<char>::empty(),
    decreases b.len(),
{
    if b.len() > 0 {
        assert(is_white(b[0]));
        assert forall|i: int| 0 <= i < b.drop_first().len() implies is_white(
            #[trigger] b.drop_first()[i],
        ) by {
            assert(b.drop_first()[i] == b[i + 1]);
        }
        lemma_all_white(b.drop_first());
    } else {
        assert(b =~= Seq::<char>::empty());
    }
}

proof fn lemma_white_end(s: Seq<char>, b: Seq<char>)
    requires
        forall|i: int| 0 <= i < b.len() ==> is_white(#[trigger] b[i]),
        s.len() > 0 && !is_white(s.last()),
    ensures
        trim_end(s + b) == s,
    decreases b.len(),
{
    if b.len() > 0 {
        assert((s + b).last() == b[b.len() - 1]);
        assert((s + b).drop_last() =~= s + b.drop_last());
        assert forall|i: int| 0 <= i < b.drop_last().len() implies is_white(
            #[trigger] b.drop_last()[i],
        ) by {
            assert(b.drop_last()[i] == b[i]);
        }
        lemma_white_end(s, b.drop_last());
    } else {
        assert(s + b =~= s);
    }
}

/// A line ends at a line feed, with or without a carriage return before it; what stands behind
/// the last line feed is a line where it is not empty.
pub proof fn law_lines_end_at_line_feeds(line: Seq<char>, rest: Seq<char>)
    requires
        !line.contains('\n'),
    ensures
        line.len() == 0 || line.last() != '\r' ==> lines_of(line.push('\n') + rest) == seq![line]
            + lines_of(rest),
        lines_of(line.push('\r').push('\n') + rest) == seq![line] + lines_of(rest),
        line.len() > 0 ==> lines_of(line) == seq![line],
        lines_of(Seq::<char>::empty()).len() == 0,
{
    lemma_one_line(line, rest);
    let marked = line.push('\r');
    assert(!marked.contains('\n')) by {
        if marked.contains('\n') {
            let i = choose|i: int| 0 <= i < marked.len() && marked[i] == '\n';
            assert(line[i] == '\n');
        }
    }
    lemma_one_line(marked, rest);
    assert(marked.drop_last() =~= line);
    law_splitting_goes_from_mark_to_mark(line, rest, '\n');
    let alone = split_on(line, '\n');
    assert(alone.drop_last().map_values(|p: Seq<char>| without_return(p)) =~= Seq::<Seq<char>>::empty());
    if line.len() > 0 {
        assert(lines_of(line) =~= seq![line]);
    }
    let none = Seq::<char>::empty();
    assert(split_on(none, '\n') =~= seq![none]);
    assert(lines_of(none) =~= Seq::<Seq<char>>::empty());
}

proof fn lemma_one_line(line: Seq<char>, rest: Seq<char>)
    requires
        !line.contains('\n'),
    ensures
        lines_of(line.push('\n') + rest) == seq![without_return(line)] + lines_of(rest),
{
    let whole = line.push('\n') + rest;
    law_splitting_goes_from_mark_to_mark(line, rest, '\n');
    law_pieces_join_to_the_whole(rest, '\n', 0);
    let pieces = split_on(whole, '\n');
    let behind = split_on(rest, '\n');
    assert(pieces.drop_last() =~= seq![line] + behind.drop_last());
    assert(pieces.last() == behind.last());
    let all = pieces.drop_last().map_values(|p: Seq<char>| without_return(p));
    let others = behind.drop_last().map_values(|p: Seq<char>| without_return(p));
    assert(all =~= seq![without_return(line)] + others);
    assert(lines_of(whole) =~= seq![without_return(line)] + lines_of(rest));
}

proof fn lemma_decimal(n: nat)
    ensures
        all_digits(decimal_of(n)),
        number_of(decimal_of(n)) == n,
        n > 0 ==> decimal_of(n)[0] != '0',
    decreases n,
{
    if n < 10 {
        assert(decimal_of(n).drop_last() =~= Seq::<char>::empty());
        assert(number_of(decimal_of(n).drop_last()) == 0);
    } else {
        lemma_decimal(n / 10);
        let head = decimal_of(n / 10);
        assert(decimal_of(n).drop_last() =~= head);
        assert(decimal_of(n)[0] == head[0]);
        assert forall|i: int| 0 <= i < decimal_of(n).len() implies is_digit(
            #[trigger] decimal_of(n)[i],
        ) by {
            if i < head.len() {
                assert(decimal_of(n)[i] == head[i]);
            }
        }
    }
}

/// A number is written in digits, without zeros before it, and is read again as itself.
pub proof fn law_a_written_number_is_read_again(n: nat, max: nat)
    ensures
        all_digits(decimal_of(n)),
        n > 0 ==> decimal_of(n)[0] != '0',
        n <= max ==> unsigned_of(decimal_of(n), max) == Some(n),
        n > max ==> unsigned_of(decimal_of(n), max) is None,
        n <= i64::MAX ==> signed_of(signed_decimal_of(n as int)) == Some(n as int),
        n <= 0x8000_0000_0000_0000 ==> signed_of(signed_decimal_of(-(n as int))) == Some(
            -(n as int),
        ),
{
    lemma_decimal(n);
    assert(is_digit(decimal_of(n)[0]));
    reveal_strlit("-");
    let negative = "-"@ + decimal_of(n);
    assert(negative[0] == '-');
    assert(negative.drop_first() =~= decimal_of(n));
}

/// Each digit counts ten times what the digit behind it counts, and a leading plus sign counts
/// nothing.
pub proof fn law_digits_count_by_ten(digits: Seq<char>, d: char, max: nat)
    requires
        is_digit(d),
        digits.len() > 0 ==> all_digits(digits),
    ensures
        number_of(seq![d]) == d as int - '0' as int,
        number_of(digits.push(d)) == 10 * number_of(digits) + number_of(seq![d]),
        digits.len() > 0 ==> unsigned_of(seq!['+'] + digits, max) == unsigned_of(digits, max),
        unsigned_of(Seq::<char>::empty(), max) is None,
{
    assert(seq![d].drop_last() =~= Seq::<char>::empty());
    assert(number_of(seq![d].drop_last()) == 0);
    assert(seq![d].last() == d);
    assert(digits.push(d).drop_last() =~= digits);
    assert(digits.push(d).last() == d);
    if digits.len() > 0 {
        assert((seq!['+'] + digits).drop_first() =~= digits);
        assert(is_digit(digits[0]));
    }
}

} // verus!

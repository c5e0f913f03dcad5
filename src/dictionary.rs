use vstd::prelude::*;

use crate::letters::{all_upper, is_upper};
use crate::scoring::upper_char;
use crate::text::{chars_of, string_of, split_lines, sort_words, trimmed, text_lines, trim_text, views_of, is_ascii_text};

verus! {

/// Strict lexicographic order on character sequences, by code point.
pub open spec fn lex_lt(a: Seq<char>, b: Seq<char>) -> bool
    decreases a.len(),
{
    if b.len() == 0 {
        false
    } else if a.len() == 0 {
        true
    } else if a[0] < b[0] {
        true
    } else if a[0] == b[0] {
        lex_lt(a.drop_first(), b.drop_first())
    } else {
        false
    }
}

pub proof fn lemma_lex_asymmetric(a: Seq<char>, b: Seq<char>)
    ensures
        !(lex_lt(a, b) && lex_lt(b, a)),
    decreases a.len(),
{
    if a.len() > 0 && b.len() > 0 && a[0] == b[0] {
        lemma_lex_asymmetric(a.drop_first(), b.drop_first());
    }
}

/// Sorted with repeats: each entry equals or precedes every later one.
pub open spec fn sorted_words(v: Seq<Seq<char>>) -> bool {
    forall|a: int, b: int| 0 <= a < b < v.len() ==> #[trigger] v[a] == #[trigger] v[b] || lex_lt(v[a], v[b])
}

/// -1, 0 or 1 as `a` comes before, equals or comes after `b`.
fn compare_words(a: &Vec<char>, b: &Vec<char>) -> (r: i8)
    ensures
        (r < 0) == lex_lt(a@, b@),
        (r == 0) == (a@ == b@),
        (r > 0) == lex_lt(b@, a@),
{
    let mut i: usize = 0;
    assert(a@.skip(0) =~= a@);
    assert(b@.skip(0) =~= b@);
    while i < a.len() && i < b.len()
        invariant
            i <= a@.len(),
            i <= b@.len(),
            a@.subrange(0, i as int) == b@.subrange(0, i as int),
            lex_lt(a@, b@) == lex_lt(a@.skip(i as int), b@.skip(i as int)),
            lex_lt(b@, a@) == lex_lt(b@.skip(i as int), a@.skip(i as int)),
        decreases a@.len() - i,
    {
        let x = a[i];
        let y = b[i];
        let ghost sa = a@.skip(i as int);
        let ghost sb = b@.skip(i as int);
        assert(sa[0] == x && sb[0] == y);
        if x < y {
            return -1;
        }
        if y < x {
            return 1;
        }
        assert(x == y);
        assert(sa.drop_first() =~= a@.skip(i as int + 1));
        assert(sb.drop_first() =~= b@.skip(i as int + 1));
        assert(a@.subrange(0, i as int + 1) =~= a@.subrange(0, i as int).push(x));
        assert(b@.subrange(0, i as int + 1) =~= b@.subrange(0, i as int).push(y));
        i = i + 1;
    }
    if a.len() < b.len() {
        assert(a@.skip(i as int).len() == 0);
        return -1;
    }
    if b.len() < a.len() {
        assert(b@.skip(i as int).len() == 0);
        return 1;
    }
    assert(a@ =~= a@.subrange(0, i as int));
    assert(b@ =~= b@.subrange(0, i as int));
    proof {
        lemma_lex_irreflexive(a@);
    }
    0
}

/// Whether a sorted list holds this word.
fn sorted_contains(v: &Vec<String>, w: &Vec<char>) -> (r: bool)
    requires
        sorted_words(views_of(v@)),
    ensures
        r == views_of(v@).contains(w@),
{
    let ghost s = views_of(v@);
    let mut lo: usize = 0;
    let mut hi: usize = v.len();
    while lo < hi
        invariant
            s == views_of(v@),
            sorted_words(s),
            lo <= hi <= s.len(),
            forall|k: int| 0 <= k < lo ==> #[trigger] s[k] != w@,
            forall|k: int| hi <= k < s.len() ==> #[trigger] s[k] != w@,
        decreases hi - lo,
    {
        let mid = lo + (hi - lo) / 2;
        let m = chars_of(v[mid].as_str());
        assert(m@ == s[mid as int]);
        let c = compare_words(&m, w);
        if c == 0 {
            return true;
        }
        if c < 0 {
            assert forall|k: int| 0 <= k < mid + 1 implies #[trigger] s[k] != w@ by {
                if k < mid {
                    assert(s[k] == s[mid as int] || lex_lt(s[k], s[mid as int]));
                    if s[k] == w@ {
                        lemma_lex_asymmetric(w@, m@);
                        if lex_lt(s[k], s[mid as int]) {
                            lemma_lex_asymmetric(s[k], s[mid as int]);
                        }
                    }
                }
            }
            lo = mid + 1;
        } else {
            assert forall|k: int| mid <= k < s.len() implies #[trigger] s[k] != w@ by {
                if k > mid {
                    assert(s[mid as int] == s[k] || lex_lt(s[mid as int], s[k]));
                    if s[k] == w@ {
                        lemma_lex_asymmetric(w@, m@);
                    }
                }
            }
            hi = mid;
        }
    }
    assert(!s.contains(w@)) by {
        if s.contains(w@) {
            let k = choose|k: int| 0 <= k < s.len() && s[k] == w@;
        }
    }
    false
}

/// The ASCII entries of a word list, sorted; no other entry can match a
/// dictionary word.
fn ascii_sorted(list: &Vec<String>) -> (r: Vec<String>)
    ensures
        sorted_words(views_of(r@)),
        forall|w: Seq<char>| is_ascii_text(w) ==> (#[trigger] views_of(r@).contains(w) <==> views_of(list@).contains(w)),
{
    let mut out: Vec<String> = Vec::new();
    let mut i: usize = 0;
    while i < list.len()
        invariant
            i <= list@.len(),
            forall|k: int| 0 <= k < out@.len() ==> is_ascii_text(#[trigger] out@[k]@),
            forall|w: Seq<char>| is_ascii_text(w) ==> (#[trigger] views_of(out@).contains(w) <==> views_of(list@).subrange(0, i as int).contains(w)),
        decreases list@.len() - i,
    {
        let cs = chars_of(list[i].as_str());
        let mut ascii = true;
        let mut j: usize = 0;
        while j < cs.len()
            invariant
                j <= cs@.len(),
                ascii == is_ascii_text(cs@.subrange(0, j as int)),
            decreases cs@.len() - j,
        {
            let ghost pre = cs@.subrange(0, j as int);
            let ghost nxt = cs@.subrange(0, j as int + 1);
            assert(nxt =~= pre.push(cs@[j as int]));
            assert(is_ascii_text(nxt) == (is_ascii_text(pre) && (cs@[j as int] as u32) < 128)) by {
                if is_ascii_text(pre) && (cs@[j as int] as u32) < 128 {
                    assert forall|t: int| 0 <= t < nxt.len() implies (#[trigger] nxt[t] as u32) < 128 by {
                        if t < j {
                            assert(nxt[t] == pre[t]);
                        }
                    }
                }
                if is_ascii_text(nxt) {
                    assert(nxt[j as int] == cs@[j as int]);
                    assert forall|t: int| 0 <= t < pre.len() implies (#[trigger] pre[t] as u32) < 128 by {
                        assert(nxt[t] == pre[t]);
                    }
                }
            }
            if (cs[j] as u32) >= 128 {
                ascii = false;
            }
            j = j + 1;
        }
        assert(cs@.subrange(0, j as int) =~= cs@);
        let ghost old_v = views_of(out@);
        let ghost prefix = views_of(list@).subrange(0, i as int);
        let ghost next = views_of(list@).subrange(0, i as int + 1);
        assert(next =~= prefix.push(cs@));
        if ascii {
            out.push(list[i].clone());
            assert(views_of(out@) =~= old_v.push(cs@));
        }
        assert forall|w: Seq<char>| is_ascii_text(w) implies (#[trigger] views_of(out@).contains(w) <==> next.contains(w)) by {
            lemma_contains_push(prefix, cs@, w);
            lemma_contains_push(old_v, cs@, w);
        }
        i = i + 1;
    }
    assert(views_of(list@).subrange(0, i as int) =~= views_of(list@));
    let ghost before = views_of(out@);
    sort_words(&mut out);
    assert(sorted_words(views_of(out@))) by {
        assert forall|a: int, b: int| 0 <= a < b < views_of(out@).len() implies #[trigger] views_of(out@)[a] == #[trigger] views_of(out@)[b]
            || lex_lt(views_of(out@)[a], views_of(out@)[b]) by {
            assert(views_of(out@)[a] == out@[a]@ && views_of(out@)[b] == out@[b]@);
        }
    }
    out
}

pub proof fn lemma_lex_irreflexive(a: Seq<char>)
    ensures
        !lex_lt(a, a),
{
    lemma_lex_asymmetric(a, a);
}

/// A well-formed dictionary holds no entry twice, and each entry has 2 to
/// 15 upper-case letters, a vowel, and more than one distinct letter.
pub proof fn lemma_dictionary_entries(d: Dictionary)
    requires
        d.wf(),
    ensures
        forall|i: int, j: int| 0 <= i < j < d@.len() ==> #[trigger] d@[i] != #[trigger] d@[j],
        forall|i: int| 0 <= i < d@.len() ==> entry_shape(#[trigger] d@[i]),
{
    assert forall|i: int, j: int| 0 <= i < j < d@.len() implies #[trigger] d@[i] != #[trigger] d@[j] by {
        lemma_lex_irreflexive(d@[i]);
    }
}

/// ASCII lower-casing of one character; other characters are unchanged.
pub open spec fn lower_char(c: char) -> char {
    if 'A' <= c && c <= 'Z' {
        ((c as u32 + 32) as u8) as char
    } else {
        c
    }
}

pub open spec fn upper_text(s: Seq<char>) -> Seq<char> {
    s.map_values(|c: char| upper_char(c))
}

pub open spec fn lower_text(s: Seq<char>) -> Seq<char> {
    s.map_values(|c: char| lower_char(c))
}

/// A word-list line holds a word: not blank, and not a `#` comment where
/// comments are allowed.
pub open spec fn line_holds_word(l: Seq<char>, comments: bool) -> bool {
    let t = trimmed(l);
    t.len() > 0 && !(comments && t[0] == '#')
}

/// The word that a word-list line holds, in the list's letter case.
pub open spec fn line_word(l: Seq<char>, lower: bool) -> Seq<char> {
    if lower {
        lower_text(trimmed(l))
    } else {
        upper_text(trimmed(l))
    }
}

/// The words of a word-list text, as a set.
pub open spec fn listed(text: Seq<char>, lower: bool, comments: bool, w: Seq<char>) -> bool {
    let lines = text_lines(text);
    exists|i: int|
        0 <= i < lines.len() && line_holds_word(#[trigger] lines[i], comments) && w == line_word(
            lines[i],
            lower,
        )
}

/// A raw candidate line makes it into the dictionary.
pub open spec fn accepted(
    l: Seq<char>,
    core: Seq<String>,
    spelling: Seq<String>,
    blocked: Seq<String>,
) -> bool {
    let t = trimmed(l);
    let u = upper_text(t);
    &&& t.len() > 0
    &&& views_of(core).contains(lower_text(t))
    &&& entry_shape(u)
    &&& views_of(spelling).contains(u)
    &&& !views_of(blocked).contains(u)
}

/// A, E, I, O, U or Y occurs in the word.
pub open spec fn has_vowel(w: Seq<char>) -> bool {
    exists|i: int|
        0 <= i < w.len() && (#[trigger] w[i] == 'A' || w[i] == 'E' || w[i] == 'I' || w[i] == 'O'
            || w[i] == 'U' || w[i] == 'Y')
}

/// The word is non-empty and every character equals the first.
pub open spec fn is_uniform(w: Seq<char>) -> bool {
    w.len() > 0 && forall|i: int| 0 <= i < w.len() ==> #[trigger] w[i] == w[0]
}

/// The shape every dictionary entry has: 2 to 15 upper-case letters, at
/// least one vowel, and not one letter repeated.
pub open spec fn entry_shape(w: Seq<char>) -> bool {
    &&& 2 <= w.len() <= 15
    &&& all_upper(w)
    &&& has_vowel(w)
    &&& !is_uniform(w)
}

/// The playable word list: entries of the right shape, strictly ascending.
pub struct Dictionary {
    words: Vec<String>,
}

impl View for Dictionary {
    type V = Seq<Seq<char>>;

    closed spec fn view(&self) -> Seq<Seq<char>> {
        self.words@.map_values(|w: String| w@)
    }
}

impl Dictionary {
    pub open spec fn wf(&self) -> bool {
        &&& forall|i: int| 0 <= i < self@.len() ==> entry_shape(#[trigger] self@[i])
        &&& forall|i: int, j: int|
            0 <= i < j < self@.len() ==> lex_lt(#[trigger] self@[i], #[trigger] self@[j])
    }

    /// The entries, ascending.
    pub fn words(&self) -> (r: &Vec<String>)
        ensures
            r@.map_values(|w: String| w@) == self@,
    {
        &self.words
    }

    pub fn len(&self) -> (r: usize)
        ensures
            r == self@.len(),
    {
        self.words.len()
    }
}

fn upper_string(s: &str) -> (r: String)
    ensures
        r@ == upper_text(s@),
{
    let cs = chars_of(s);
    let mut out: Vec<char> = Vec::new();
    let mut i: usize = 0;
    while i < cs.len()
        invariant
            i <= cs.len(),
            out@ == upper_text(cs@.subrange(0, i as int)),
        decreases cs.len() - i,
    {
        let c = cs[i];
        let u = if 'a' <= c && c <= 'z' {
            ((c as u32 - 32) as u8) as char
        } else {
            c
        };
        out.push(u);
        assert(upper_text(cs@.subrange(0, i as int + 1)) =~= upper_text(cs@.subrange(0, i as int)).push(u));
        i = i + 1;
    }
    assert(cs@.subrange(0, cs.len() as int) =~= cs@);
    string_of(&out)
}

fn lower_string(s: &str) -> (r: String)
    ensures
        r@ == lower_text(s@),
{
    let cs = chars_of(s);
    let mut out: Vec<char> = Vec::new();
    let mut i: usize = 0;
    while i < cs.len()
        invariant
            i <= cs.len(),
            out@ == lower_text(cs@.subrange(0, i as int)),
        decreases cs.len() - i,
    {
        let c = cs[i];
        let u = if 'A' <= c && c <= 'Z' {
            ((c as u32 + 32) as u8) as char
        } else {
            c
        };
        out.push(u);
        assert(lower_text(cs@.subrange(0, i as int + 1)) =~= lower_text(cs@.subrange(0, i as int)).push(u));
        i = i + 1;
    }
    assert(cs@.subrange(0, cs.len() as int) =~= cs@);
    string_of(&out)
}

/// Whether the word holds a vowel (Y counts).
pub fn contains_vowel(word: &[char]) -> (r: bool)
    ensures
        r == has_vowel(word@),
{
    let mut i: usize = 0;
    while i < word.len()
        invariant
            i <= word.len(),
            forall|j: int| 0 <= j < i ==> !(#[trigger] word@[j] == 'A' || word@[j] == 'E' || word@[j] == 'I'
                || word@[j] == 'O' || word@[j] == 'U' || word@[j] == 'Y'),
        decreases word.len() - i,
    {
        let c = word[i];
        if c == 'A' || c == 'E' || c == 'I' || c == 'O' || c == 'U' || c == 'Y' {
            return true;
        }
        i = i + 1;
    }
    false
}

/// Whether the word is one character repeated (false for the empty word).
pub fn is_uniform_character(word: &[char]) -> (r: bool)
    ensures
        r == is_uniform(word@),
{
    if word.len() == 0 {
        return false;
    }
    let first = word[0];
    let mut i: usize = 1;
    while i < word.len()
        invariant
            1 <= i <= word.len(),
            first == word@[0],
            forall|j: int| 0 <= j < i ==> #[trigger] word@[j] == first,
        decreases word.len() - i,
    {
        if word[i] != first {
            return false;
        }
        i = i + 1;
    }
    true
}

/// The words of a word-list text: its lines without surrounding space,
/// blank lines (and, where `comments` is set, lines starting with `#`)
/// skipped, in lower case where `lower` is set and upper case otherwise.
fn collect_words(text: &str, lower: bool, comments: bool) -> (r: Vec<String>)
    ensures
        forall|w: Seq<char>| #[trigger] views_of(r@).contains(w) <==> listed(text@, lower, comments, w),
{
    let lines = split_lines(text);
    let ghost ls = text_lines(text@);
    assert(lines@.len() == ls.len());
    let mut out: Vec<String> = Vec::new();
    let mut i: usize = 0;
    while i < lines.len()
        invariant
            i <= lines@.len(),
            lines@.map_values(|l: String| l@) == ls,
            ls == text_lines(text@),
            forall|w: Seq<char>| #[trigger] views_of(out@).contains(w) <==> exists|k: int|
                0 <= k < i && line_holds_word(#[trigger] ls[k], comments) && w == line_word(ls[k], lower),
        decreases lines@.len() - i,
    {
        assert(lines@[i as int]@ == ls[i as int]);
        let t = trim_text(lines[i].as_str());
        let cs = chars_of(t);
        let keep = cs.len() > 0 && !(comments && cs[0] == '#');
        assert(keep == line_holds_word(ls[i as int], comments));
        let ghost old_out = views_of(out@);
        if keep {
            let w = if lower {
                lower_string(t)
            } else {
                upper_string(t)
            };
            assert(w@ == line_word(ls[i as int], lower));
            out.push(w);
        }
        assert forall|w: Seq<char>| #[trigger] views_of(out@).contains(w) <==> exists|k: int|
            0 <= k < i + 1 && line_holds_word(#[trigger] ls[k], comments) && w == line_word(ls[k], lower) by {
            if keep {
                assert(views_of(out@) =~= old_out.push(line_word(ls[i as int], lower)));
            } else {
                assert(views_of(out@) =~= old_out);
            }
            if exists|k: int|
                0 <= k < i + 1 && line_holds_word(#[trigger] ls[k], comments) && w == line_word(ls[k], lower) {
                let k = choose|k: int|
                    0 <= k < i + 1 && line_holds_word(#[trigger] ls[k], comments) && w == line_word(ls[k], lower);
                if k < i {
                    assert(old_out.contains(w));
                    let j = choose|j: int| 0 <= j < old_out.len() && old_out[j] == w;
                    assert(views_of(out@)[j] == w);
                } else {
                    assert(views_of(out@)[views_of(out@).len() - 1] == w);
                }
            }
            if views_of(out@).contains(w) {
                let j = choose|j: int| 0 <= j < views_of(out@).len() && views_of(out@)[j] == w;
                if j < old_out.len() {
                    assert(old_out[j] == w);
                    assert(old_out.contains(w));
                }
            }
        }
        i = i + 1;
    }
    out
}

/// A raw word is in the dictionary built from these lists.
pub open spec fn in_dictionary(
    raw: Seq<char>,
    core: Seq<String>,
    spelling: Seq<String>,
    blocked: Seq<String>,
    w: Seq<char>,
) -> bool {
    let lines = text_lines(raw);
    exists|k: int|
        0 <= k < lines.len() && accepted(#[trigger] lines[k], core, spelling, blocked) && w
            == upper_text(trimmed(lines[k]))
}

fn all_upper_letters(cs: &Vec<char>) -> (r: bool)
    ensures
        r == all_upper(cs@),
{
    let mut i: usize = 0;
    while i < cs.len()
        invariant
            i <= cs.len(),
            forall|j: int| 0 <= j < i ==> #[trigger] is_upper(cs@[j]),
        decreases cs.len() - i,
    {
        if !('A' <= cs[i] && cs[i] <= 'Z') {
            assert(!is_upper(cs@[i as int]));
            return false;
        }
        i = i + 1;
    }
    true
}

/// The accepted raw words, trimmed and in upper case, in line order.
fn accepted_words(
    raw: &str,
    core: &Vec<String>,
    spelling: &Vec<String>,
    blocked: &Vec<String>,
    core_sorted: &Vec<String>,
    spelling_sorted: &Vec<String>,
    blocked_sorted: &Vec<String>,
) -> (r: Vec<String>)
    requires
        sorted_words(views_of(core_sorted@)),
        sorted_words(views_of(spelling_sorted@)),
        sorted_words(views_of(blocked_sorted@)),
        forall|w: Seq<char>| is_ascii_text(w) ==> (#[trigger] views_of(core_sorted@).contains(w) <==> views_of(core@).contains(w)),
        forall|w: Seq<char>| is_ascii_text(w) ==> (#[trigger] views_of(spelling_sorted@).contains(w) <==> views_of(spelling@).contains(w)),
        forall|w: Seq<char>| is_ascii_text(w) ==> (#[trigger] views_of(blocked_sorted@).contains(w) <==> views_of(blocked@).contains(w)),
    ensures
        forall|k: int| 0 <= k < r@.len() ==> entry_shape(#[trigger] r@[k]@),
        forall|w: Seq<char>| #[trigger] views_of(r@).contains(w) <==> in_dictionary(raw@, core@, spelling@, blocked@, w),
{
    let lines = split_lines(raw);
    let ghost ls = text_lines(raw@);
    assert(lines@.len() == ls.len());
    let mut cand: Vec<String> = Vec::new();
    let mut i: usize = 0;
    while i < lines.len()
        invariant
            i <= lines@.len(),
            lines@.map_values(|l: String| l@) == ls,
            ls == text_lines(raw@),
            sorted_words(views_of(core_sorted@)),
            sorted_words(views_of(spelling_sorted@)),
            sorted_words(views_of(blocked_sorted@)),
            forall|w: Seq<char>| is_ascii_text(w) ==> (#[trigger] views_of(core_sorted@).contains(w) <==> views_of(core@).contains(w)),
            forall|w: Seq<char>| is_ascii_text(w) ==> (#[trigger] views_of(spelling_sorted@).contains(w) <==> views_of(spelling@).contains(w)),
            forall|w: Seq<char>| is_ascii_text(w) ==> (#[trigger] views_of(blocked_sorted@).contains(w) <==> views_of(blocked@).contains(w)),
            forall|k: int| 0 <= k < cand@.len() ==> entry_shape(#[trigger] cand@[k]@),
            forall|w: Seq<char>| #[trigger] views_of(cand@).contains(w) <==> exists|k: int|
                0 <= k < i && accepted(#[trigger] ls[k], core@, spelling@, blocked@) && w
                    == upper_text(trimmed(ls[k])),
        decreases lines@.len() - i,
    {
        assert(lines@[i as int]@ == ls[i as int]);
        let t = trim_text(lines[i].as_str());
        let cs = chars_of(t);
        let up = upper_string(t);
        let ucs = chars_of(up.as_str());
        let mut keep = cs.len() > 0 && 2 <= ucs.len() && ucs.len() <= 15 && all_upper_letters(&ucs)
            && contains_vowel(&ucs) && !is_uniform_character(&ucs);
        if keep {
            proof {
                assert forall|t: int| 0 <= t < ucs@.len() implies (#[trigger] ucs@[t] as u32) < 128 by {
                    assert(is_upper(ucs@[t]));
                }
            }
            let low = lower_string(t);
            let lcs = chars_of(low.as_str());
            proof {
                assert forall|q: int| 0 <= q < lcs@.len() implies (#[trigger] lcs@[q] as u32) < 128 by {
                    assert(ucs@[q] == upper_char(cs@[q]));
                    assert(is_upper(ucs@[q]));
                    assert(lcs@[q] == lower_char(cs@[q]));
                }
            }
            keep = sorted_contains(core_sorted, &lcs);
            if keep {
                keep = sorted_contains(spelling_sorted, &ucs);
            }
            if keep {
                keep = !sorted_contains(blocked_sorted, &ucs);
            }
        }
        assert(keep == accepted(ls[i as int], core@, spelling@, blocked@));
        let ghost old_c = views_of(cand@);
        if keep {
            cand.push(up);
        }
        assert forall|w: Seq<char>| #[trigger] views_of(cand@).contains(w) <==> exists|k: int|
            0 <= k < i + 1 && accepted(#[trigger] ls[k], core@, spelling@, blocked@) && w
                == upper_text(trimmed(ls[k])) by {
            if keep {
                assert(views_of(cand@) =~= old_c.push(upper_text(trimmed(ls[i as int]))));
            } else {
                assert(views_of(cand@) =~= old_c);
            }
            if exists|k: int|
                0 <= k < i + 1 && accepted(#[trigger] ls[k], core@, spelling@, blocked@) && w
                    == upper_text(trimmed(ls[k])) {
                let k = choose|k: int|
                    0 <= k < i + 1 && accepted(#[trigger] ls[k], core@, spelling@, blocked@) && w
                        == upper_text(trimmed(ls[k]));
                if k < i {
                    assert(old_c.contains(w));
                    let j = choose|j: int| 0 <= j < old_c.len() && old_c[j] == w;
                    assert(views_of(cand@)[j] == w);
                } else {
                    assert(views_of(cand@)[views_of(cand@).len() - 1] == w);
                }
            }
            if views_of(cand@).contains(w) {
                let j = choose|j: int| 0 <= j < views_of(cand@).len() && views_of(cand@)[j] == w;
                if j < old_c.len() {
                    assert(old_c[j] == w);
                    assert(old_c.contains(w));
                }
            }
        }
        i = i + 1;
    }
    assert forall|w: Seq<char>| #[trigger] views_of(cand@).contains(w) <==> in_dictionary(raw@, core@, spelling@, blocked@, w) by {
        if in_dictionary(raw@, core@, spelling@, blocked@, w) {
            let k = choose|k: int|
                0 <= k < ls.len() && accepted(#[trigger] ls[k], core@, spelling@, blocked@) && w
                    == upper_text(trimmed(ls[k]));
        }
    }
    cand
}

/// A sequence with one more entry holds what it held, and that entry.
proof fn lemma_contains_push(s: Seq<Seq<char>>, x: Seq<char>, w: Seq<char>)
    ensures
        s.push(x).contains(w) <==> (s.contains(w) || w == x),
{
    if s.push(x).contains(w) {
        let j = choose|j: int| 0 <= j < s.push(x).len() && s.push(x)[j] == w;
        if j < s.len() {
            assert(s[j] == w);
        }
    }
    if s.contains(w) {
        let j = choose|j: int| 0 <= j < s.len() && s[j] == w;
        assert(s.push(x)[j] == w);
    }
    if w == x {
        assert(s.push(x)[s.len() as int] == w);
    }
}

/// In a list sorted with repeats, an entry that differs from the one before
/// it comes strictly after every earlier entry.
proof fn lemma_fresh_after(c: Seq<Seq<char>>, j: int, i: int)
    requires
        forall|a: int, b: int| 0 <= a < b < c.len() ==> #[trigger] c[a] == #[trigger] c[b] || lex_lt(c[a], c[b]),
        0 <= j < i < c.len(),
        c[i - 1] != c[i],
    ensures
        lex_lt(c[j], c[i]),
{
    if c[j] == c[i] {
        if j < i - 1 {
            assert(c[j] == c[i - 1] || lex_lt(c[j], c[i - 1]));
        }
        assert(c[i - 1] == c[i] || lex_lt(c[i - 1], c[i]));
        lemma_lex_asymmetric(c[i - 1], c[i]);
    } else {
        assert(c[j] == c[i] || lex_lt(c[j], c[i]));
    }
}

/// A sorted list without its repeats.
fn dedup_sorted(cand: &Vec<String>) -> (r: Vec<String>)
    requires
        forall|a: int, b: int|
            0 <= a < b < cand@.len() ==> (#[trigger] cand@[a])@ == (#[trigger] cand@[b])@
                || lex_lt(cand@[a]@, cand@[b]@),
    ensures
        forall|a: int, b: int|
            0 <= a < b < r@.len() ==> lex_lt((#[trigger] r@[a])@, (#[trigger] r@[b])@),
        forall|w: Seq<char>| #[trigger] views_of(r@).contains(w) <==> views_of(cand@).contains(w),
{
    let ghost c = views_of(cand@);
    assert forall|a: int, b: int| 0 <= a < b < c.len() implies #[trigger] c[a] == #[trigger] c[b] || lex_lt(c[a], c[b]) by {
        assert(c[a] == cand@[a]@ && c[b] == cand@[b]@);
    }
    let mut out: Vec<String> = Vec::new();
    let mut i: usize = 0;
    while i < cand.len()
        invariant
            c == views_of(cand@),
            i <= c.len(),
            forall|a: int, b: int| 0 <= a < b < c.len() ==> #[trigger] c[a] == #[trigger] c[b] || lex_lt(c[a], c[b]),
            forall|a: int, b: int|
                0 <= a < b < out@.len() ==> lex_lt((#[trigger] out@[a])@, (#[trigger] out@[b])@),
            i > 0 ==> out@.len() > 0 && out@[out@.len() - 1]@ == c[i - 1],
            i == 0 ==> out@.len() == 0,
            forall|w: Seq<char>| #[trigger] views_of(out@).contains(w) <==> c.subrange(0, i as int).contains(w),
        decreases c.len() - i,
    {
        let ghost o = views_of(out@);
        assert(c.subrange(0, i as int + 1) =~= c.subrange(0, i as int).push(c[i as int]));
        let dup = out.len() > 0 && out[out.len() - 1] == cand[i];
        if !dup {
            proof {
                assert forall|k: int| 0 <= k < out@.len() implies lex_lt(out@[k]@, c[i as int]) by {
                    assert(o[k] == out@[k]@);
                    assert(o.contains(out@[k]@));
                    let j = choose|j: int| 0 <= j < i && c.subrange(0, i as int)[j] == out@[k]@;
                    assert(c[j] == out@[k]@);
                    lemma_fresh_after(c, j, i as int);
                }
            }
            out.push(cand[i].clone());
            assert(views_of(out@) =~= o.push(c[i as int]));
        } else {
            assert(o[o.len() - 1] == c[i as int]);
        }
        assert forall|w: Seq<char>| #[trigger] views_of(out@).contains(w) <==> c.subrange(0, i as int + 1).contains(w) by {
            lemma_contains_push(c.subrange(0, i as int), c[i as int], w);
            lemma_contains_push(o, c[i as int], w);
            if dup && w == c[i as int] {
                assert(o[o.len() - 1] == w);
            }
        }
        i = i + 1;
    }
    assert(c.subrange(0, c.len() as int) =~= c);
    out
}

/// Builds the dictionary from the raw candidate text and the three lists:
/// a raw line is kept, trimmed and in upper case, when its lower-case form
/// is a core word and its upper-case form has the entry shape, is spelt
/// correctly and is not blocked. The entries come out sorted, once each.
pub fn load_dictionary(
    raw: &str,
    core: &Vec<String>,
    spelling: &Vec<String>,
    blocked: &Vec<String>,
) -> (r: Dictionary)
    ensures
        r.wf(),
        forall|w: Seq<char>| #[trigger] r@.contains(w) <==> in_dictionary(raw@, core@, spelling@, blocked@, w),
{
    let core_sorted = ascii_sorted(core);
    let spelling_sorted = ascii_sorted(spelling);
    let blocked_sorted = ascii_sorted(blocked);
    let mut cand = accepted_words(
        raw,
        core,
        spelling,
        blocked,
        &core_sorted,
        &spelling_sorted,
        &blocked_sorted,
    );
    let ghost unsorted = views_of(cand@);
    assert forall|k: int| 0 <= k < cand@.len() implies is_ascii_text(#[trigger] cand@[k]@) by {
        assert(entry_shape(cand@[k]@));
        assert forall|t: int| 0 <= t < cand@[k]@.len() implies (#[trigger] cand@[k]@[t] as u32) < 128 by {
            assert(is_upper(cand@[k]@[t]));
        }
    }
    sort_words(&mut cand);
    assert forall|k: int| 0 <= k < cand@.len() implies entry_shape(#[trigger] cand@[k]@) by {
        assert(views_of(cand@)[k] == cand@[k]@);
        assert(views_of(cand@).contains(cand@[k]@));
        assert(unsorted.contains(cand@[k]@));
        let j = choose|j: int| 0 <= j < unsorted.len() && unsorted[j] == cand@[k]@;
    }
    let out = dedup_sorted(&cand);
    let r = Dictionary { words: out };
    assert forall|w: Seq<char>| #[trigger] r@.contains(w) <==> in_dictionary(raw@, core@, spelling@, blocked@, w) by {
        assert(r@ == views_of(out@));
        assert(views_of(out@).contains(w) == views_of(cand@).contains(w));
        assert(views_of(cand@).contains(w) == unsorted.contains(w));
    }
    assert forall|k: int| 0 <= k < r@.len() implies entry_shape(#[trigger] r@[k]) by {
        assert(r@[k] == out@[k]@);
        assert(views_of(out@)[k] == r@[k]);
        assert(views_of(out@).contains(r@[k]));
        let j = choose|j: int| 0 <= j < views_of(cand@).len() && views_of(cand@)[j] == r@[k];
        assert(cand@[j]@ == r@[k]);
    }
    assert forall|a: int, b: int| 0 <= a < b < r@.len() implies lex_lt(#[trigger] r@[a], #[trigger] r@[b]) by {
        assert(r@[a] == out@[a]@);
        assert(r@[b] == out@[b]@);
    }
    r
}

/// The acceptable roots, lower case, from the core word-list text.
pub fn load_core_words(text: &str) -> (r: Vec<String>)
    ensures
        forall|w: Seq<char>| #[trigger] views_of(r@).contains(w) <==> listed(text@, true, false, w),
{
    collect_words(text, true, false)
}

/// The correctly spelt words, upper case, from the spelling word-list text.
pub fn load_cspell_words(text: &str) -> (r: Vec<String>)
    ensures
        forall|w: Seq<char>| #[trigger] views_of(r@).contains(w) <==> listed(text@, false, false, w),
{
    collect_words(text, false, false)
}

/// The blocked words, upper case, from the blocklist text; lines starting
/// with `#` are comments.
pub fn load_blocklist(text: &str) -> (r: Vec<String>)
    ensures
        forall|w: Seq<char>| #[trigger] views_of(r@).contains(w) <==> listed(text@, false, true, w),
{
    collect_words(text, false, true)
}

} // verus!

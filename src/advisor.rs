use vstd::prelude::*;

use crate::dictionary::upper_text;
use crate::letters::{
    all_upper, is_upper, count_of, counts_match, letter_at, slot_of, letter_counts, char_to_index,
    index_to_char, is_vowel, spec_is_vowel, spec_is_glue, spec_is_lengthener, spec_is_tl_hitter, lemma_letter_slot,
    consonant_drop_priority, is_glue_consonant, is_lengthener_letter, is_tl_candidate,
};
use crate::probability::{DrawChance, approximate_draw_probability, chance_of, has_upper, proper};
use crate::scoring::upper_char;
use crate::text::{chars_of, string_of, views_of};

verus! {

/// The letters at the positions whose flag equals `want`, in rack order.
pub open spec fn select(l: Seq<char>, f: Seq<bool>, want: bool) -> Seq<char>
    decreases l.len(),
{
    if l.len() == 0 {
        Seq::empty()
    } else {
        let s = select(l.drop_last(), f.drop_last(), want);
        if f.last() == want {
            s.push(l.last())
        } else {
            s
        }
    }
}

/// How many vowels (A, E, I, O, U) a sequence holds.
pub open spec fn vowels_in(s: Seq<char>) -> nat
    decreases s.len(),
{
    if s.len() == 0 {
        0
    } else {
        vowels_in(s.drop_last()) + if spec_is_vowel(s.last()) {
            1nat
        } else {
            0nat
        }
    }
}

/// The letters that the best known word needs in slot `i`; an empty table
/// stands for no such word.
pub open spec fn required(baseline: Seq<usize>, i: int) -> int {
    if 0 <= i < baseline.len() {
        baseline[i] as int
    } else {
        0
    }
}

/// Dropping one more of the letter in slot `i` would leave no more of it
/// than the best known word needs.
pub open spec fn violates(l: Seq<char>, f: Seq<bool>, baseline: Seq<usize>, i: int) -> bool {
    required(baseline, i) > 0 && count_of(select(l, f, true), letter_at(i)) <= required(baseline, i)
}

/// Every letter is kept at least as often as the best known word needs it,
/// or as often as the rack holds it, whichever is fewer.
pub open spec fn protects(l: Seq<char>, f: Seq<bool>, baseline: Seq<usize>) -> bool {
    forall|i: int|
        0 <= i < 26 ==> #[trigger] count_of(select(l, f, true), letter_at(i)) >= required(baseline, i)
            || count_of(select(l, f, true), letter_at(i)) == count_of(l, letter_at(i))
}

pub proof fn lemma_select_len(l: Seq<char>, f: Seq<bool>)
    requires
        l.len() == f.len(),
    ensures
        select(l, f, true).len() + select(l, f, false).len() == l.len(),
    decreases l.len(),
{
    if l.len() > 0 {
        lemma_select_len(l.drop_last(), f.drop_last());
    }
}

proof fn lemma_select_all(l: Seq<char>, f: Seq<bool>)
    requires
        l.len() == f.len(),
        forall|i: int| 0 <= i < f.len() ==> #[trigger] f[i],
    ensures
        select(l, f, true) == l,
    decreases l.len(),
{
    if l.len() > 0 {
        lemma_select_all(l.drop_last(), f.drop_last());
        assert(l.drop_last().push(l.last()) =~= l);
    }
}

/// Clearing the flag of position `p` takes one of its letter out of the
/// kept letters, if it was kept.
proof fn lemma_drop_one(l: Seq<char>, f: Seq<bool>, p: int, c: char)
    requires
        l.len() == f.len(),
        0 <= p < l.len(),
    ensures
        count_of(select(l, f.update(p, false), true), c) + (if f[p] && l[p] == c {
            1int
        } else {
            0int
        }) == count_of(select(l, f, true), c),
    decreases l.len(),
{
    let g = f.update(p, false);
    if p == l.len() - 1 {
        assert(g.drop_last() =~= f.drop_last());
        let s = select(l.drop_last(), f.drop_last(), true);
        if f[p] {
            assert(select(l, f, true) == s.push(l.last()));
            assert(s.push(l.last()).drop_last() =~= s);
        }
    } else {
        assert(g.drop_last() =~= f.drop_last().update(p, false));
        lemma_drop_one(l.drop_last(), f.drop_last(), p, c);
        let s = select(l.drop_last(), f.drop_last(), true);
        let t = select(l.drop_last(), g.drop_last(), true);
        if f.last() {
            assert(s.push(l.last()).drop_last() =~= s);
            assert(t.push(l.last()).drop_last() =~= t);
        }
    }
}

/// The kept (or thrown back) letters of the rack.
fn selected(letters: &[char], flags: &Vec<bool>, want: bool) -> (r: Vec<char>)
    requires
        letters@.len() == flags@.len(),
    ensures
        r@ == select(letters@, flags@, want),
{
    let mut out: Vec<char> = Vec::new();
    let mut i: usize = 0;
    while i < letters.len()
        invariant
            i <= letters@.len(),
            letters@.len() == flags@.len(),
            out@ == select(letters@.subrange(0, i as int), flags@.subrange(0, i as int), want),
        decreases letters@.len() - i,
    {
        assert(letters@.subrange(0, i as int + 1).drop_last() =~= letters@.subrange(0, i as int));
        assert(flags@.subrange(0, i as int + 1).drop_last() =~= flags@.subrange(0, i as int));
        if flags[i] == want {
            out.push(letters[i]);
        }
        i = i + 1;
    }
    assert(letters@.subrange(0, i as int) =~= letters@);
    assert(flags@.subrange(0, i as int) =~= flags@);
    out
}

/// Per-letter counts of the kept letters.
fn compute_kept_counts(letters: &[char], keep_flags: &Vec<bool>) -> (r: Vec<usize>)
    requires
        letters@.len() == keep_flags@.len(),
    ensures
        counts_match(r@, select(letters@, keep_flags@, true)),
        forall|i: int| 0 <= i < 26 ==> #[trigger] r@[i] <= letters@.len(),
{
    let kept = selected(letters, keep_flags, true);
    let r = letter_counts(&kept);
    proof {
        lemma_select_len(letters@, keep_flags@);
        assert forall|i: int| 0 <= i < 26 implies #[trigger] r@[i] <= letters@.len() by {
            crate::letters::lemma_count_le_len(kept@, letter_at(i));
        }
    }
    r
}

fn vowel_count(s: &Vec<char>) -> (r: usize)
    ensures
        r == vowels_in(s@),
{
    let mut n: usize = 0;
    let mut i: usize = 0;
    while i < s.len()
        invariant
            i <= s@.len(),
            n == vowels_in(s@.subrange(0, i as int)),
            n <= i,
        decreases s@.len() - i,
    {
        assert(s@.subrange(0, i as int + 1).drop_last() =~= s@.subrange(0, i as int));
        if is_vowel(s[i]) {
            n = n + 1;
        }
        i = i + 1;
    }
    assert(s@.subrange(0, i as int) =~= s@);
    n
}

/// How many kept letters are vowels.
fn count_kept_vowels(letters: &[char], keep_flags: &Vec<bool>) -> (r: usize)
    requires
        letters@.len() == keep_flags@.len(),
    ensures
        r == vowels_in(select(letters@, keep_flags@, true)),
{
    let kept = selected(letters, keep_flags, true);
    vowel_count(&kept)
}

/// A, E, I or O.
pub open spec fn is_core(c: char) -> bool {
    c == 'A' || c == 'E' || c == 'I' || c == 'O'
}

/// A, E, I or O occurs in `s`.
pub open spec fn has_core(s: Seq<char>) -> bool {
    exists|j: int| 0 <= j < s.len() && is_core(#[trigger] s[j])
}

/// Whether A, E, I or O is among the kept letters.
fn has_core_vowel(letters: &[char], keep_flags: &Vec<bool>) -> (r: bool)
    requires
        letters@.len() == keep_flags@.len(),
    ensures
        r == has_core(select(letters@, keep_flags@, true)),
{
    let kept = selected(letters, keep_flags, true);
    let mut i: usize = 0;
    while i < kept.len()
        invariant
            kept@ == select(letters@, keep_flags@, true),
            i <= kept@.len(),
            forall|j: int| 0 <= j < i ==> !is_core(#[trigger] kept@[j]),
        decreases kept@.len() - i,
    {
        let c = kept[i];
        if c == 'A' || c == 'E' || c == 'I' || c == 'O' {
            assert(is_core(kept@[i as int]));
            assert(has_core(kept@));
            return true;
        }
        i = i + 1;
    }
    false
}

/// Whether dropping one more of the letter in slot `letter_idx` would go
/// below what the best known word needs.
fn would_violate_baseline(
    letter_idx: usize,
    keep_flags: &Vec<bool>,
    letters: &[char],
    baseline_counts: &Vec<usize>,
) -> (r: bool)
    requires
        letter_idx < 26,
        letters@.len() == keep_flags@.len(),
    ensures
        r == violates(letters@, keep_flags@, baseline_counts@, letter_idx as int),
{
    let needed: usize = if letter_idx < baseline_counts.len() {
        baseline_counts[letter_idx]
    } else {
        0
    };
    if needed == 0 {
        return false;
    }
    let counts = compute_kept_counts(letters, keep_flags);
    counts[letter_idx] <= needed
}

/// Throws back position `p` unless that would go below what the best known
/// word needs; says whether it did.
fn try_drop(
    keep_flags: &mut Vec<bool>,
    p: usize,
    letters: &[char],
    baseline_counts: &Vec<usize>,
) -> (dropped: bool)
    requires
        p < letters@.len(),
        letters@.len() == old(keep_flags)@.len(),
        all_upper(letters@),
        protects(letters@, old(keep_flags)@, baseline_counts@),
    ensures
        final(keep_flags)@.len() == letters@.len(),
        protects(letters@, final(keep_flags)@, baseline_counts@),
        dropped ==> final(keep_flags)@ == old(keep_flags)@.update(p as int, false),
        !dropped ==> final(keep_flags)@ == old(keep_flags)@,
        dropped == !violates(letters@, old(keep_flags)@, baseline_counts@, slot_of(letters@[p as int])),
        capped(letters@, old(keep_flags)@, baseline_counts@) ==> capped(letters@, final(keep_flags)@, baseline_counts@),
{
    let ghost base = baseline_counts@;
    let ghost l = letters@;
    let ghost f = keep_flags@;
    assert(is_upper(letters@[p as int]));
    let idx = char_to_index(letters[p]);
    if would_violate_baseline(idx, keep_flags, letters, baseline_counts) {
        return false;
    }
    keep_flags.set(p, false);
    proof {
        assert forall|i: int| 0 <= i < 26 && capped(l, f, base) implies #[trigger] cap_at(l, keep_flags@, base, i) by {
            lemma_drop_one(l, f, p as int, letter_at(i));
            assert(cap_at(l, f, base, i));
        }
        assert forall|i: int| 0 <= i < 26 implies #[trigger] count_of(select(l, keep_flags@, true), letter_at(i)) >= required(base, i)
            || count_of(select(l, keep_flags@, true), letter_at(i)) == count_of(l, letter_at(i)) by {
            lemma_drop_one(l, f, p as int, letter_at(i));
            lemma_letter_slot(i);
            assert(count_of(select(l, f, true), letter_at(i)) >= required(base, i)
                || count_of(select(l, f, true), letter_at(i)) == count_of(l, letter_at(i)));
            if f[p as int] && l[p as int] == letter_at(i) {
                assert(slot_of(l[p as int]) == i);
                lemma_count_select_le(l, f, letter_at(i));
                lemma_count_kept_pos(l, f, p as int);
            }
        }
    }
    true
}

/// The letters in slot order of the protected two-letter blends.
pub open spec fn spec_pair(k: int) -> (char, char) {
    if k == 0 { ('C', 'H') } else if k == 1 { ('S', 'H') } else if k == 2 { ('T', 'H') }
    else if k == 3 { ('P', 'H') } else if k == 4 { ('S', 'T') } else if k == 5 { ('T', 'R') }
    else if k == 6 { ('P', 'R') } else if k == 7 { ('C', 'R') } else if k == 8 { ('B', 'R') }
    else if k == 9 { ('D', 'R') } else if k == 10 { ('C', 'L') } else if k == 11 { ('G', 'L') }
    else if k == 12 { ('P', 'L') } else if k == 13 { ('F', 'R') } else if k == 14 { ('G', 'R') }
    else if k == 15 { ('S', 'L') } else if k == 16 { ('S', 'N') } else if k == 17 { ('S', 'P') }
    else { ('Q', 'U') }
}

pub const PAIR_COUNT: usize = 19;

fn protected_pair(k: usize) -> (r: (char, char))
    requires
        k < PAIR_COUNT,
    ensures
        r == spec_pair(k as int),
        is_upper(r.0) && is_upper(r.1),
{
    match k {
        0 => ('C', 'H'), 1 => ('S', 'H'), 2 => ('T', 'H'), 3 => ('P', 'H'), 4 => ('S', 'T'),
        5 => ('T', 'R'), 6 => ('P', 'R'), 7 => ('C', 'R'), 8 => ('B', 'R'), 9 => ('D', 'R'),
        10 => ('C', 'L'), 11 => ('G', 'L'), 12 => ('P', 'L'), 13 => ('F', 'R'), 14 => ('G', 'R'),
        15 => ('S', 'L'), 16 => ('S', 'N'), 17 => ('S', 'P'), _ => ('Q', 'U'),
    }
}

/// Dropping one `ch` would leave a protected blend half gone: `ch` is one
/// letter of a blend, kept at most once, while its partner is kept.
pub open spec fn breaks_pair(ch: char, counts: Seq<usize>, k: int) -> bool {
    let (a, b) = spec_pair(k);
    if ch == a {
        counts[slot_of(a)] <= 1 && counts[slot_of(b)] > 0
    } else if ch == b {
        counts[slot_of(b)] <= 1 && counts[slot_of(a)] > 0
    } else {
        false
    }
}

fn would_break_protected_pair(ch: char, keep_counts: &Vec<usize>) -> (r: bool)
    requires
        keep_counts@.len() == 26,
    ensures
        r == exists|k: int| 0 <= k < PAIR_COUNT && #[trigger] breaks_pair(ch, keep_counts@, k),
{
    let mut k: usize = 0;
    while k < PAIR_COUNT
        invariant
            k <= PAIR_COUNT,
            keep_counts@.len() == 26,
            forall|j: int| 0 <= j < k ==> !#[trigger] breaks_pair(ch, keep_counts@, j),
        decreases PAIR_COUNT - k,
    {
        let (a, b) = protected_pair(k);
        let ac = keep_counts[char_to_index(a)];
        let bc = keep_counts[char_to_index(b)];
        if ch == a {
            if ac <= 1 && bc > 0 {
                assert(breaks_pair(ch, keep_counts@, k as int));
                return true;
            }
        } else if ch == b {
            if bc <= 1 && ac > 0 {
                assert(breaks_pair(ch, keep_counts@, k as int));
                return true;
            }
        }
        k = k + 1;
    }
    false
}

/// The two letters of a blend as text.
pub open spec fn pair_text(k: int) -> Seq<char> {
    seq![spec_pair(k).0, spec_pair(k).1]
}

/// The blends whose two letters are both kept, as text.
fn collect_protected_pairs(keep_counts: &Vec<usize>) -> (r: Vec<String>)
    requires
        keep_counts@.len() == 26,
    ensures
        forall|w: Seq<char>| #[trigger] views_of(r@).contains(w) <==> exists|k: int|
            0 <= k < PAIR_COUNT && keep_counts@[slot_of(spec_pair(k).0)] > 0
                && keep_counts@[slot_of(spec_pair(k).1)] > 0 && w == #[trigger] pair_text(k),
{
    let mut pairs: Vec<String> = Vec::new();
    let mut k: usize = 0;
    while k < PAIR_COUNT
        invariant
            k <= PAIR_COUNT,
            keep_counts@.len() == 26,
            forall|w: Seq<char>| #[trigger] views_of(pairs@).contains(w) <==> exists|j: int|
                0 <= j < k && keep_counts@[slot_of(spec_pair(j).0)] > 0
                    && keep_counts@[slot_of(spec_pair(j).1)] > 0 && w == #[trigger] pair_text(j),
        decreases PAIR_COUNT - k,
    {
        let (a, b) = protected_pair(k);
        let ghost old_v = views_of(pairs@);
        if keep_counts[char_to_index(a)] > 0 && keep_counts[char_to_index(b)] > 0 {
            let text = string_of(&vec![a, b]);
            assert(text@ =~= pair_text(k as int));
            push_note(&mut pairs, text);
        }
        assert forall|w: Seq<char>| #[trigger] views_of(pairs@).contains(w) <==> exists|j: int|
            0 <= j < k + 1 && keep_counts@[slot_of(spec_pair(j).0)] > 0
                && keep_counts@[slot_of(spec_pair(j).1)] > 0 && w == #[trigger] pair_text(j) by {
            if exists|j: int|
                0 <= j < k + 1 && keep_counts@[slot_of(spec_pair(j).0)] > 0
                    && keep_counts@[slot_of(spec_pair(j).1)] > 0 && w == #[trigger] pair_text(j) {
                let j = choose|j: int|
                    0 <= j < k + 1 && keep_counts@[slot_of(spec_pair(j).0)] > 0
                        && keep_counts@[slot_of(spec_pair(j).1)] > 0 && w == #[trigger] pair_text(j);
                if j < k {
                    assert(old_v.contains(w));
                }
            }
        }
        k = k + 1;
    }
    pairs
}

/// Adds a letter unless it is already there.
fn push_unique_char(target: &mut Vec<char>, ch: char)
    ensures
        old(target)@.contains(ch) ==> final(target)@ == old(target)@,
        !old(target)@.contains(ch) ==> final(target)@ == old(target)@.push(ch),
        final(target)@.contains(ch),
        final(target)@.len() <= old(target)@.len() + 1,
        final(target)@.subrange(0, old(target)@.len() as int) == old(target)@,
        distinct(old(target)@) ==> distinct(final(target)@),
{
    let mut i: usize = 0;
    while i < target.len()
        invariant
            i <= target@.len(),
            forall|j: int| 0 <= j < i ==> target@[j] != ch,
        decreases target@.len() - i,
    {
        if target[i] == ch {
            assert(target@.subrange(0, target@.len() as int) =~= target@);
            return;
        }
        i = i + 1;
    }
    let ghost before = target@;
    target.push(ch);
    assert(target@[target@.len() - 1] == ch);
    assert(target@.subrange(0, before.len() as int) =~= before);
}

/// Adds a text unless an equal one is already there.
fn push_note(notes: &mut Vec<String>, note: String)
    ensures
        views_of(old(notes)@).contains(note@) ==> final(notes)@ == old(notes)@,
        !views_of(old(notes)@).contains(note@) ==> final(notes)@ == old(notes)@.push(note),
        views_of(final(notes)@).contains(note@),
        forall|w: Seq<char>| #[trigger] views_of(final(notes)@).contains(w) <==> (views_of(old(notes)@).contains(w) || w == note@),
{
    let ghost v = views_of(notes@);
    let mut i: usize = 0;
    while i < notes.len()
        invariant
            i <= notes@.len(),
            v == views_of(notes@),
            forall|j: int| 0 <= j < i ==> (#[trigger] notes@[j])@ != note@,
        decreases notes@.len() - i,
    {
        if notes[i] == note {
            assert(v[i as int] == note@);
            return;
        }
        i = i + 1;
    }
    assert(!v.contains(note@)) by {
        if v.contains(note@) {
            let j = choose|j: int| 0 <= j < v.len() && v[j] == note@;
            assert(notes@[j]@ == note@);
        }
    }
    notes.push(note);
    assert forall|w: Seq<char>| #[trigger] views_of(notes@).contains(w) <==> (v.contains(w) || w == note@) by {
        assert(views_of(notes@) =~= v.push(note@));
        if views_of(notes@).contains(w) {
            let j = choose|j: int| 0 <= j < views_of(notes@).len() && views_of(notes@)[j] == w;
            if j < v.len() {
                assert(v[j] == w);
            }
        }
        if v.contains(w) {
            let j = choose|j: int| 0 <= j < v.len() && v[j] == w;
            assert(views_of(notes@)[j] == w);
        }
        if w == note@ {
            assert(views_of(notes@)[v.len() as int] == w);
        }
    }
}

/// Two texts are equal up to ASCII letter case.
fn same_ignoring_case(a: &String, b: &String) -> (r: bool)
    ensures
        r == (upper_text(a@) == upper_text(b@)),
{
    let x = chars_of(a.as_str());
    let y = chars_of(b.as_str());
    if x.len() != y.len() {
        assert(upper_text(a@).len() != upper_text(b@).len());
        return false;
    }
    let mut i: usize = 0;
    while i < x.len()
        invariant
            i <= x@.len(),
            x@.len() == y@.len(),
            x@ == a@,
            y@ == b@,
            forall|j: int| 0 <= j < i ==> upper_char(#[trigger] x@[j]) == upper_char(y@[j]),
        decreases x@.len() - i,
    {
        let p = x[i];
        let q = y[i];
        let pu = if 'a' <= p && p <= 'z' { ((p as u32 - 32) as u8) as char } else { p };
        let qu = if 'a' <= q && q <= 'z' { ((q as u32 - 32) as u8) as char } else { q };
        if pu != qu {
            assert(upper_text(a@)[i as int] != upper_text(b@)[i as int]);
            return false;
        }
        i = i + 1;
    }
    assert(upper_text(a@) =~= upper_text(b@));
    true
}

/// A tag equal to `t` up to letter case is present.
pub open spec fn has_tag(tags: Seq<String>, t: Seq<char>) -> bool {
    exists|j: int| 0 <= j < tags.len() && upper_text((#[trigger] tags[j])@) == upper_text(t)
}

/// No two tags are equal up to letter case.
pub open spec fn tags_distinct(tags: Seq<String>) -> bool {
    forall|i: int, j: int| 0 <= i < j < tags.len() ==> upper_text((#[trigger] tags[i])@) != upper_text((#[trigger] tags[j])@)
}

/// No note starts with S, as the swap note does.
pub open spec fn no_s_first(notes: Seq<String>) -> bool {
    forall|i: int| 0 <= i < notes.len() ==> (#[trigger] notes[i])@.len() == 0 || notes[i]@[0] != 'S'
}

/// Adds a tag unless one equal up to letter case is already there.
fn push_focus_tag(tags: &mut Vec<String>, tag: String)
    ensures
        has_tag(final(tags)@, tag@),
        tags_distinct(old(tags)@) ==> tags_distinct(final(tags)@),
        forall|t: Seq<char>| has_tag(old(tags)@, t) ==> #[trigger] has_tag(final(tags)@, t),
        (exists|j: int| 0 <= j < old(tags)@.len() && upper_text((#[trigger] old(tags)@[j])@) == upper_text(tag@))
            ==> final(tags)@ == old(tags)@,
        !(exists|j: int| 0 <= j < old(tags)@.len() && upper_text((#[trigger] old(tags)@[j])@) == upper_text(tag@))
            ==> final(tags)@ == old(tags)@.push(tag),
{
    let mut i: usize = 0;
    while i < tags.len()
        invariant
            i <= tags@.len(),
            forall|j: int| 0 <= j < i ==> upper_text((#[trigger] tags@[j])@) != upper_text(tag@),
        decreases tags@.len() - i,
    {
        if same_ignoring_case(&tags[i], &tag) {
            return;
        }
        i = i + 1;
    }
    let ghost before = tags@;
    tags.push(tag);
    assert(tags@[before.len() as int] == tag);
    assert forall|t: Seq<char>| has_tag(before, t) implies #[trigger] has_tag(tags@, t) by {
        let j = choose|j: int| 0 <= j < before.len() && upper_text((#[trigger] before[j])@) == upper_text(t);
        assert(tags@[j] == before[j]);
    }
}

/// The text of a literal.
fn text(s: &str) -> (r: String)
    ensures
        r@ == s@,
{
    String::from_str(s)
}

/// The letters, separated by a comma and a space.
pub open spec fn joined(s: Seq<char>) -> Seq<char>
    decreases s.len(),
{
    if s.len() == 0 {
        Seq::empty()
    } else if s.len() == 1 {
        seq![s[0]]
    } else {
        joined(s.drop_last()) + seq![',', ' ', s.last()]
    }
}

fn format_letters(letters: &Vec<char>) -> (r: String)
    ensures
        r@ == joined(letters@),
{
    let mut out: Vec<char> = Vec::new();
    let mut i: usize = 0;
    while i < letters.len()
        invariant
            i <= letters@.len(),
            out@ == joined(letters@.subrange(0, i as int)),
        decreases letters@.len() - i,
    {
        let ghost next = letters@.subrange(0, i as int + 1);
        assert(next.drop_last() =~= letters@.subrange(0, i as int));
        if i > 0 {
            out.push(',');
            out.push(' ');
        }
        out.push(letters[i]);
        if i > 0 {
            assert(out@ =~= joined(next));
        } else {
            assert(out@ =~= joined(next));
        }
        i = i + 1;
    }
    assert(letters@.subrange(0, i as int) =~= letters@);
    string_of(&out)
}

/// Counts of the letters of a word, case-insensitively.
fn letter_counts_str(word: &str) -> (r: Vec<usize>)
    ensures
        counts_match(r@, upper_text(word@)),
{
    let cs = chars_of(word);
    let mut up: Vec<char> = Vec::new();
    let mut i: usize = 0;
    while i < cs.len()
        invariant
            i <= cs@.len(),
            cs@ == word@,
            up@ == upper_text(cs@.subrange(0, i as int)),
        decreases cs@.len() - i,
    {
        let c = cs[i];
        let u = if 'a' <= c && c <= 'z' { ((c as u32 - 32) as u8) as char } else { c };
        up.push(u);
        assert(upper_text(cs@.subrange(0, i as int + 1)) =~= upper_text(cs@.subrange(0, i as int)).push(u));
        i = i + 1;
    }
    assert(cs@.subrange(0, i as int) =~= cs@);
    letter_counts(&up)
}

/// The fewest and most vowels to keep, by rack size and target length.
pub open spec fn vowel_range(rack_len: int, target: int) -> (int, int) {
    let lo = |x: int| if x < rack_len { x } else { rack_len };
    if rack_len == 0 {
        (0, 0)
    } else if rack_len <= 4 {
        (lo(1), lo(2))
    } else if rack_len == 5 || target <= 5 {
        (lo(2), lo(2))
    } else {
        (lo(2), lo(3))
    }
}

fn desired_vowel_range(rack_len: usize, target_length: usize) -> (r: (usize, usize))
    ensures
        (r.0 as int, r.1 as int) == vowel_range(rack_len as int, target_length as int),
{
    if rack_len == 0 {
        return (0, 0);
    }
    let lo1: usize = if 1 < rack_len { 1 } else { rack_len };
    let lo2: usize = if 2 < rack_len { 2 } else { rack_len };
    let lo3: usize = if 3 < rack_len { 3 } else { rack_len };
    if rack_len <= 4 {
        (lo1, lo2)
    } else if rack_len == 5 || target_length <= 5 {
        (lo2, lo2)
    } else {
        (lo2, lo3)
    }
}

/// Positions in the order in which they are considered for throwing back:
/// higher weight first, earlier position first among equal weights. Only
/// positions marked in `eligible` are listed.
fn rank_positions(weights: &Vec<i128>, eligible: &Vec<bool>) -> (r: Vec<usize>)
    requires
        weights@.len() == eligible@.len(),
    ensures
        forall|k: int| 0 <= k < r@.len() ==> #[trigger] r@[k] < eligible@.len() && eligible@[r@[k] as int],
        forall|a: int, b: int| 0 <= a < b < r@.len() ==> weights@[#[trigger] r@[a] as int] > weights@[#[trigger] r@[b] as int]
            || (weights@[r@[a] as int] == weights@[r@[b] as int] && r@[a] < r@[b]),
        forall|i: int| 0 <= i < eligible@.len() && #[trigger] eligible@[i] ==> exists|k: int| 0 <= k < r@.len() && r@[k] == i,
        forall|a: int, b: int| 0 <= a < b < r@.len() ==> #[trigger] r@[a] != #[trigger] r@[b],
{
    let n = eligible.len();
    let mut taken: Vec<bool> = vec![false; n];
    let mut order: Vec<usize> = Vec::new();
    let mut done = false;
    while !done
        invariant
            done ==> forall|t: int| 0 <= t < n ==> !eligible@[t] || #[trigger] taken@[t],
            n == eligible@.len(),
            weights@.len() == n,
            taken@.len() == n,
            order@.len() <= n,
            forall|k: int| 0 <= k < order@.len() ==> #[trigger] order@[k] < n && eligible@[order@[k] as int] && taken@[order@[k] as int],
            forall|i: int| 0 <= i < n && #[trigger] taken@[i] ==> exists|k: int| 0 <= k < order@.len() && order@[k] == i,
            forall|k: int, i: int| 0 <= k < order@.len() && 0 <= i < n && eligible@[i] && !#[trigger] taken@[i] ==>
                weights@[#[trigger] order@[k] as int] > weights@[i] || (weights@[order@[k] as int] == weights@[i] && order@[k] < i),
            forall|a: int, b: int| 0 <= a < b < order@.len() ==> weights@[#[trigger] order@[a] as int] > weights@[#[trigger] order@[b] as int]
                || (weights@[order@[a] as int] == weights@[order@[b] as int] && order@[a] < order@[b]),
            forall|a: int, b: int| 0 <= a < b < order@.len() ==> #[trigger] order@[a] != #[trigger] order@[b],
        decreases n - order@.len() + if done { 0int } else { 1int },
    {
        let mut found = false;
        let mut best: usize = 0;
        let mut i: usize = 0;
        while i < n
            invariant
                n == eligible@.len(),
                weights@.len() == n,
                taken@.len() == n,
                i <= n,
                found ==> best < i && eligible@[best as int] && !taken@[best as int],
                found ==> forall|t: int| 0 <= t < i && eligible@[t] && !taken@[t] && t != best ==>
                    weights@[best as int] > #[trigger] weights@[t] || (weights@[best as int] == weights@[t] && best < t),
                !found ==> forall|t: int| 0 <= t < i ==> !eligible@[t] || #[trigger] taken@[t],
            decreases n - i,
        {
            if eligible[i] && !taken[i] && (!found || weights[i] > weights[best]) {
                best = i;
                found = true;
            }
            i = i + 1;
        }
        assert(i == n);
        if !found {
            done = true;
        } else {
            proof {
                // every listed position is taken, so `best` is not listed yet
                assert forall|k: int| 0 <= k < order@.len() implies #[trigger] order@[k] != best by {
                    assert(taken@[order@[k] as int]);
                }
                if order@.len() >= n {
                    lemma_distinct_bound(order@, n as int, best as int);
                }
            }
            let ghost old_taken = taken@;
            let ghost old_order = order@;
            taken.set(best, true);
            order.push(best);
            proof {
                assert forall|t: int| 0 <= t < n && #[trigger] taken@[t] implies exists|k: int| 0 <= k < order@.len() && order@[k] == t by {
                    if t == best {
                        assert(order@[order@.len() - 1] == t);
                    } else {
                        assert(old_taken[t]);
                        let k = choose|k: int| 0 <= k < old_order.len() && old_order[k] == t;
                        assert(order@[k] == t);
                    }
                }
            }
        }
    }
    assert forall|i: int| 0 <= i < eligible@.len() && #[trigger] eligible@[i] implies exists|k: int| 0 <= k < order@.len() && order@[k] == i by {
        assert(taken@[i]);
    }
    order
}

/// Distinct positions below `n`, none equal to `x < n`, number fewer than `n`.
proof fn lemma_distinct_bound(s: Seq<usize>, n: int, x: int)
    requires
        0 <= x < n,
        forall|k: int| 0 <= k < s.len() ==> #[trigger] s[k] < n && s[k] != x,
        forall|a: int, b: int| 0 <= a < b < s.len() ==> #[trigger] s[a] != #[trigger] s[b],
    ensures
        s.len() < n,
{
    let full = vstd::set_lib::set_int_range(0, n);
    let listed = Set::<int>::new(|i: int| exists|k: int| 0 <= k < s.len() && s[k] as int == i);
    vstd::set_lib::lemma_int_range(0, n);
    lemma_listed_len(s, n);
    assert(full.contains(x));
    assert(full.remove(x).len() == n - 1);
    assert(listed.subset_of(full.remove(x))) by {
        assert forall|i: int| listed.contains(i) implies full.remove(x).contains(i) by {
            let k = choose|k: int| 0 <= k < s.len() && s[k] as int == i;
        }
    }
    vstd::set_lib::lemma_len_subset(listed, full.remove(x));
}

proof fn lemma_listed_len(s: Seq<usize>, n: int)
    requires
        forall|k: int| 0 <= k < s.len() ==> #[trigger] s[k] < n,
        forall|a: int, b: int| 0 <= a < b < s.len() ==> #[trigger] s[a] != #[trigger] s[b],
    ensures
        Set::<int>::new(|i: int| exists|k: int| 0 <= k < s.len() && s[k] as int == i).finite(),
        Set::<int>::new(|i: int| exists|k: int| 0 <= k < s.len() && s[k] as int == i).len() == s.len(),
    decreases s.len(),
{
    let cur = Set::<int>::new(|i: int| exists|k: int| 0 <= k < s.len() && s[k] as int == i);
    if s.len() == 0 {
        assert(cur =~= Set::empty());
    } else {
        let t = s.drop_last();
        lemma_listed_len(t, n);
        let prev = Set::<int>::new(|i: int| exists|k: int| 0 <= k < t.len() && t[k] as int == i);
        assert(cur =~= prev.insert(s.last() as int)) by {
            assert forall|i: int| cur.contains(i) implies prev.insert(s.last() as int).contains(i) by {
                let k = choose|k: int| 0 <= k < s.len() && s[k] as int == i;
                if k < t.len() {
                    assert(t[k] as int == i);
                }
            }
            assert forall|i: int| prev.insert(s.last() as int).contains(i) implies cur.contains(i) by {
                if i != s.last() as int {
                    let k = choose|k: int| 0 <= k < t.len() && t[k] as int == i;
                    assert(s[k] as int == i);
                } else {
                    assert(s[s.len() - 1] as int == i);
                }
            }
        }
        assert(!prev.contains(s.last() as int)) by {
            if prev.contains(s.last() as int) {
                let k = choose|k: int| 0 <= k < t.len() && t[k] as int == s.last() as int;
                assert(s[k] != s[s.len() - 1]);
            }
        }
    }
}

/// One piece of reroll advice.
#[derive(Debug, Clone)]
pub struct RerollAdvice {
    pub target_word: String,
    pub missing_letters: Vec<char>,
    pub reroll_letters: Vec<char>,
    pub keep_letters: Vec<char>,
    pub estimated_score: Option<u32>,
    /// The chance of drawing a wanted letter, as exact tile counts.
    pub success_probability: Option<DrawChance>,
    pub phase: String,
    pub notes: Vec<String>,
    pub focus_tags: Vec<String>,
}

/// What balancing the rack decided.
pub struct PassOneOutcome {
    pub keep_flags: Vec<bool>,
    pub keep_letters: Vec<char>,
    pub reroll_letters: Vec<char>,
    pub desired_letters: Vec<char>,
    pub notes: Vec<String>,
    pub vowel_min: usize,
    pub focus_tags: Vec<String>,
}

/// The letters that balancing may ask for.
pub open spec fn balance_letter(c: char) -> bool {
    c == 'U' || c == 'E' || c == 'A' || c == 'I'
}

impl PassOneOutcome {
    /// The outcome describes a split of `letters`.
    pub open spec fn splits(&self, letters: Seq<char>) -> bool {
        &&& self.keep_flags@.len() == letters.len()
        &&& self.keep_letters@ == select(letters, self.keep_flags@, true)
        &&& self.reroll_letters@ == select(letters, self.keep_flags@, false)
    }

    fn to_advice(&self) -> (r: RerollAdvice)
        ensures
            r.missing_letters@ == self.desired_letters@,
            r.reroll_letters@ == self.reroll_letters@,
            r.keep_letters@ == self.keep_letters@,
            r.notes@ == self.notes@,
            r.focus_tags@ == self.focus_tags@,
            r.estimated_score is None,
            r.phase@ == "foundation"@,
            r.target_word@ == "Pass 1 – Balance rack"@,
            proper(r.success_probability),
            r.success_probability == approximate_draw_probability_spec(
                self.keep_letters@,
                self.reroll_letters@,
                self.desired_letters@,
            ),
    {
        let probability = approximate_draw_probability(
            self.keep_letters.as_slice(),
            self.reroll_letters.as_slice(),
            self.desired_letters.as_slice(),
        );
        RerollAdvice {
            target_word: text("Pass 1 – Balance rack"),
            missing_letters: self.desired_letters.clone(),
            reroll_letters: self.reroll_letters.clone(),
            keep_letters: self.keep_letters.clone(),
            estimated_score: None,
            success_probability: probability,
            phase: text("foundation"),
            notes: self.notes.clone(),
            focus_tags: self.focus_tags.clone(),
        }
    }
}

/// What `approximate_draw_probability` gives on these letters.
pub open spec fn approximate_draw_probability_spec(
    keep: Seq<char>,
    reroll: Seq<char>,
    desired: Seq<char>,
) -> Option<DrawChance> {
    if reroll.len() == 0 || !has_upper(desired) {
        None
    } else {
        Some(chance_of(keep, desired, reroll.len()))
    }
}

/// The note that repeats of a letter were trimmed.
pub open spec fn trim_note(c: char) -> Seq<char> {
    "Trim extra "@ + joined(seq![c]) + ""@
}

/// The note that a rack needs no reroll.
pub open spec fn balanced_note() -> Seq<char> {
    "Rack already balanced — optional reroll"@
}

/// No note has `a` as its second character, as the balanced note does.
pub open spec fn no_balanced_like(notes: Seq<String>) -> bool {
    forall|i: int| 0 <= i < notes.len() ==> (#[trigger] notes[i])@.len() < 2 || notes[i]@[1] != 'a'
}

proof fn lemma_no_balanced(notes: Seq<String>)
    requires
        no_balanced_like(notes),
    ensures
        !views_of(notes).contains(balanced_note()),
{
    reveal_strlit("Rack already balanced — optional reroll");
    if views_of(notes).contains(balanced_note()) {
        let j = choose|j: int| 0 <= j < views_of(notes).len() && views_of(notes)[j] == balanced_note();
        assert(notes[j]@ == balanced_note());
    }
}

/// Adds a fixed note, one that is not the balanced note.
fn add_note(notes: &mut Vec<String>, note: &str)
    requires
        note@.len() > 1 && note@[1] != 'a',
    ensures
        forall|w: Seq<char>| #[trigger] views_of(final(notes)@).contains(w) <==> (views_of(old(notes)@).contains(w)
            || w == note@),
        no_balanced_like(old(notes)@) ==> no_balanced_like(final(notes)@),
        no_s_first(old(notes)@) && note@[0] != 'S' ==> no_s_first(final(notes)@),
{
    push_note(notes, text(note));
}

/// Adds the text `prefix`, the letters joined, then `suffix`, as a note.
fn letters_note(notes: &mut Vec<String>, prefix: &str, letters: &Vec<char>, suffix: &str)
    requires
        prefix@.len() > 1 && prefix@[1] != 'a',
    ensures
        forall|w: Seq<char>| #[trigger] views_of(final(notes)@).contains(w) <==> (views_of(old(notes)@).contains(w)
            || w == prefix@ + joined(letters@) + suffix@),
        no_balanced_like(old(notes)@) ==> no_balanced_like(final(notes)@),
{
    let mut t = text(prefix);
    let joined = format_letters(letters);
    t.append(joined.as_str());
    t.append(suffix);
    assert(t@[1] == prefix@[1]);
    push_note(notes, t);
}

/// Pass one: trims duplicates, fixes a Q without U, drops a V without core
/// vowels, and brings the kept vowels into range, never throwing back a
/// letter the best known word still needs.
#[verifier::rlimit(50)]
fn analyze_pass_one(letters: &[char], target_length: usize, baseline_counts: &Vec<usize>) -> (o:
    PassOneOutcome)
    requires
        all_upper(letters@),
    ensures
        o.splits(letters@),
        protects(letters@, o.keep_flags@, baseline_counts@),
        glue_floor(letters@, o.keep_flags@),
        capped(letters@, o.keep_flags@, baseline_counts@),
        rack_balanced(letters@, target_length as int) ==> forall|q: int| 0 <= q < letters@.len() ==> #[trigger] o.keep_flags@[q],
        vowels_in(o.keep_letters@) >= if vowels_in(letters@) < o.vowel_min {
            vowels_in(letters@) as int
        } else {
            o.vowel_min as int
        },
        (vowels_in(letters@) < o.vowel_min) == o.desired_letters@.contains('E'),
        distinct(o.desired_letters@),
        drops_explained(letters@, target_length as int, o.keep_flags@),
        tags_distinct(o.focus_tags@),
        o.reroll_letters@.len() == 0 ==> has_tag(o.focus_tags@, "Fine-tune only"@),
        required(baseline_counts@, 0) == 0 && required(baseline_counts@, 4) == 0 && required(baseline_counts@, 8) == 0
            && required(baseline_counts@, 14) == 0 && required(baseline_counts@, 20) == 0 ==> vowels_in(o.keep_letters@)
            <= vowel_range(letters@.len() as int, target_length as int).1,
        o.vowel_min as int == vowel_range(letters@.len() as int, target_length as int).0,
        o.desired_letters@.len() <= 8,
        forall|k: int| 0 <= k < o.desired_letters@.len() ==> balance_letter(#[trigger] o.desired_letters@[k]),
        (o.reroll_letters@.len() == 0) == views_of(o.notes@).contains(balanced_note()),
        (vowels_in(o.keep_letters@) < o.vowel_min) == o.desired_letters@.contains('E'),
        (vowels_in(o.keep_letters@) < o.vowel_min) == o.desired_letters@.contains('A'),
        (vowels_in(o.keep_letters@) < o.vowel_min) == o.desired_letters@.contains('I'),
        required(baseline_counts@, 16) == 0 && count_of(letters@, 'Q') > 0 && count_of(letters@, 'U') == 0
            ==> {
            &&& count_of(o.keep_letters@, 'Q') == 0
            &&& views_of(o.notes@).contains("Dump Q (no U)"@)
            &&& !o.desired_letters@.contains('U')
        },
        required(baseline_counts@, 21) == 0 && count_of(letters@, 'V') > 0 && count_of(letters@, 'A') == 0
            && count_of(letters@, 'E') == 0 && count_of(letters@, 'I') == 0 && count_of(letters@, 'O') == 0
            ==> {
            &&& count_of(o.keep_letters@, 'V') == 0
            &&& views_of(o.notes@).contains("Drop V until you secure A/E/I/O"@)
        },
        forall|i: int|
            0 <= i < 26 && count_of(letters@, letter_at(i)) > 2 ==> views_of(o.notes@).contains(
                #[trigger] trim_note(letter_at(i)),
            ),
{
    let ghost l = letters@;
    let ghost base = baseline_counts@;
    let rack_len = letters.len();
    let mut keep_flags: Vec<bool> = vec![true; rack_len];
    let mut notes: Vec<String> = Vec::new();
    let mut focus_tags: Vec<String> = Vec::new();
    let mut desired_letters: Vec<char> = Vec::new();
    proof {
        lemma_select_all(l, keep_flags@);
        assert forall|i: int| 0 <= i < 26 implies #[trigger] count_of(select(l, keep_flags@, true), letter_at(i)) >= required(base, i)
            || count_of(select(l, keep_flags@, true), letter_at(i)) == count_of(l, letter_at(i)) by {}
    }
    let rack_counts = letter_counts(letters);
    let ghost fine = rack_balanced(l, target_length as int);
    let ghost f_init = keep_flags@;
    let ghost lb: int = if vowels_in(l) < vowel_range(l.len() as int, target_length as int).0 {
        vowels_in(l) as int
    } else {
        vowel_range(l.len() as int, target_length as int).0
    };
    let ghost hq = required(base, 16) == 0 && count_of(l, 'Q') > 0 && count_of(l, 'U') == 0;
    let ghost hv = required(base, 21) == 0 && count_of(l, 'V') > 0 && count_of(l, 'A') == 0
        && count_of(l, 'E') == 0 && count_of(l, 'I') == 0 && count_of(l, 'O') == 0;
    assert(letter_at(16) == 'Q' && letter_at(20) == 'U' && letter_at(21) == 'V');

    // trim letters held more than twice, from the back
    let mut letter_idx: usize = 0;
    while letter_idx < 26
        invariant
            drops_explained(l, target_length as int, keep_flags@),
            l == letters@,
            all_upper(l),
            counts_match(rack_counts@, l),
            keep_flags@.len() == l.len(),
            forall|i: int| letter_idx <= i < 26 ==> #[trigger] count_of(select(l, keep_flags@, true), letter_at(i)) == count_of(l, letter_at(i)),
            forall|i: int| 0 <= i < letter_idx ==> #[trigger] floor_two(l, keep_flags@, i),
            forall|i: int| 0 <= i < letter_idx ==> #[trigger] cap_at(l, keep_flags@, base, i),
            no_balanced_like(notes@),
            tags_distinct(focus_tags@),
            forall|i: int| 0 <= i < letter_idx && count_of(l, letter_at(i)) > 2 ==> views_of(notes@).contains(
                #[trigger] trim_note(letter_at(i)),
            ),
            protects(l, keep_flags@, base),
            base == baseline_counts@,
            desired_letters@.len() == 0,
            fine == rack_balanced(l, target_length as int),
            fine ==> keep_flags@ == f_init,
            rack_len == l.len(),
            letter_idx <= 26,
        decreases 26 - letter_idx,
    {
        let total = rack_counts[letter_idx];
        let ghost f0 = keep_flags@;
        if total > 2 {
            let letter = index_to_char(letter_idx);
            let mut extras = total - 2;
            let mut p: usize = rack_len;
            let mut refused = false;
            assert(l.subrange(0, p as int) =~= l);
            proof {
                assert forall|q: int| 0 <= q < p && l[q] == letter implies #[trigger] keep_flags@[q] by {
                    if !keep_flags@[q] {
                        lemma_unkept_fewer(l, keep_flags@, q);
                        lemma_letter_slot(letter_idx as int);
                        assert(count_of(select(l, keep_flags@, true), letter_at(letter_idx as int))
                            == count_of(l, letter_at(letter_idx as int)));
                    }
                }
            }
            while p > 0
                invariant
                    drops_explained(l, target_length as int, keep_flags@),
                    l == letters@,
                    all_upper(l),
                    p <= l.len(),
                    rack_len == l.len(),
                    keep_flags@.len() == l.len(),
                    f0.len() == l.len(),
                    protects(l, keep_flags@, base),
                    base == baseline_counts@,
                    letter == letter_at(letter_idx as int),
                    count_of(l, letter) > 2,
                    letter_idx < 26,
                    forall|q: int| 0 <= q < p && l[q] == letter ==> #[trigger] keep_flags@[q],
                    count_of(select(l, keep_flags@, true), letter) == 2 + extras,
                    refused ==> count_of(select(l, keep_flags@, true), letter) <= required(base, letter_idx as int),
                    !refused && extras > 0 ==> count_of(select(l, keep_flags@, true), letter) == count_of(
                        l.subrange(0, p as int),
                        letter,
                    ),
                    forall|i: int| 0 <= i < 26 && i != letter_idx ==> #[trigger] count_of(select(l, keep_flags@, true), letter_at(i))
                        == count_of(select(l, f0, true), letter_at(i)),
                decreases p,
            {
                p = p - 1;
                assert(l.subrange(0, p as int + 1).drop_last() =~= l.subrange(0, p as int));
                proof {
                    lemma_letter_slot(letter_idx as int);
                }
                if letters[p] == letter && extras == 0 {
                    // nothing left to trim
                    p = 0;
                } else if letters[p] == letter {
                    let ghost before = keep_flags@;
                    assert(drop_reason(l, target_length as int, p as int));
                    if !try_drop(&mut keep_flags, p, letters, baseline_counts) {
                        refused = true;
                    } else {
                        proof {
                            lemma_explained_drop(l, target_length as int, before, p as int);
                        }
                        extras = extras - 1;
                        proof {
                            lemma_drop_one(l, before, p as int, letter);
                            assert forall|i: int| 0 <= i < 26 && i != letter_idx implies #[trigger] count_of(select(l, keep_flags@, true), letter_at(i))
                                == count_of(select(l, f0, true), letter_at(i)) by {
                                lemma_drop_one(l, before, p as int, letter_at(i));
                                lemma_letter_slot(i);
                                lemma_letter_slot(letter_idx as int);
                            }
                        }
                    }
                }
            }
            proof {
                assert forall|i: int| 0 <= i < letter_idx + 1 implies #[trigger] floor_two(l, keep_flags@, i) by {
                    if i < letter_idx {
                        assert(floor_two(l, f0, i));
                    }
                }
                assert(l.subrange(0, 0) =~= Seq::<char>::empty());
                assert forall|i: int| 0 <= i < letter_idx + 1 implies #[trigger] cap_at(l, keep_flags@, base, i) by {
                    if i < letter_idx {
                        assert(cap_at(l, f0, base, i));
                    } else {
                        if extras > 0 && !refused {
                            assert(p == 0);
                            assert(count_of(l.subrange(0, p as int), letter) == 0);
                        }
                    }
                }
            }
            proof {
                reveal_strlit("Trim extra ");
            }
            let one = vec![letter];
            assert(one@ =~= seq![letter]);
            letters_note(&mut notes, "Trim extra ", &one, "");
            assert(views_of(notes@).contains(trim_note(letter)));
            push_focus_tag(&mut focus_tags, text("Trim duplicates"));
        } else {
            assert(rack_counts@[letter_idx as int] == count_of(l, letter_at(letter_idx as int)));
            assert(floor_two(l, keep_flags@, letter_idx as int));
            assert(cap_at(l, keep_flags@, base, letter_idx as int));
        }
        letter_idx = letter_idx + 1;
    }
    assert(glue_floor(l, keep_flags@));
    assert(capped(l, keep_flags@, base));

    let mut kept_counts = compute_kept_counts(letters, &keep_flags);
    let mut kept_vowels = count_kept_vowels(letters, &keep_flags);
    proof {
        lemma_vowels_sum(select(l, keep_flags@, true));
        lemma_vowels_sum(l);
        assert(floor_two(l, keep_flags@, 0) && floor_two(l, keep_flags@, 4) && floor_two(l, keep_flags@, 8)
            && floor_two(l, keep_flags@, 14) && floor_two(l, keep_flags@, 20));
        assert(letter_at(0) == 'A' && letter_at(4) == 'E' && letter_at(8) == 'I' && letter_at(14) == 'O');
        assert(kept_vowels >= lb);
        if fine {
            lemma_select_all(l, keep_flags@);
        }
    }
    proof {
        assert(floor_two(l, keep_flags@, 16));
        assert(floor_two(l, keep_flags@, 21));
        lemma_count_select_le(l, keep_flags@, 'U');
    }
    assert(hq ==> kept_counts[16] > 0 && kept_counts[20] == 0);
    assert(hv ==> count_of(select(l, keep_flags@, true), 'V') > 0);
    assert(desired_letters@.len() == 0);

    // a Q without a U
    let ghost fd = keep_flags@;
    proof {
        assert(floor_two(l, keep_flags@, 20));
    }
    if kept_counts[16] > 0 && kept_counts[20] == 0 {
        assert(count_of(l, 'U') == 0);
        let mut dropped_q = false;
        let mut p: usize = 0;
        let ghost fq0 = keep_flags@;
        while p < rack_len
            invariant
                drops_explained(l, target_length as int, keep_flags@),
                hq == (required(base, 16) == 0 && count_of(l, 'Q') > 0 && count_of(l, 'U') == 0),
                hq ==> (dropped_q || count_of(l.subrange(0, p as int), 'Q') == 0),
                hq ==> forall|q: int| 0 <= q < p && l[q] == 'Q' ==> !#[trigger] keep_flags@[q],
                count_of(select(l, keep_flags@, true), 'V') == count_of(select(l, fq0, true), 'V'),
                fq0.len() == l.len(),
                vowels_in(select(l, keep_flags@, true)) == vowels_in(select(l, fq0, true)),
                count_of(l, 'U') == 0,
                forall|i: int| 0 <= i < 26 && i != 16 ==> #[trigger] count_of(select(l, keep_flags@, true), letter_at(i))
                    == count_of(select(l, fq0, true), letter_at(i)),
                l == letters@,
                all_upper(l),
                p <= l.len(),
                rack_len == l.len(),
                keep_flags@.len() == l.len(),
                protects(l, keep_flags@, base),
                glue_floor(l, keep_flags@),
                capped(l, keep_flags@, base),
                base == baseline_counts@,
            decreases rack_len - p,
        {
            assert(l.subrange(0, p as int + 1).drop_last() =~= l.subrange(0, p as int));
            assert(slot_of('Q') == 16);
            let ghost before = keep_flags@;
            if letters[p] == 'Q' {
                assert(hq ==> !violates(l, keep_flags@, base, slot_of(l[p as int])));
                if try_drop(&mut keep_flags, p, letters, baseline_counts) {
                    dropped_q = true;
                    proof {
                        lemma_glue_floor_drop(l, before, p as int);
                        lemma_drop_one(l, before, p as int, 'V');
                        lemma_vowels_drop(l, before, p as int);
                        lemma_explained_drop(l, target_length as int, before, p as int);
                        assert forall|i: int| 0 <= i < 26 && i != 16 implies #[trigger] count_of(select(l, keep_flags@, true), letter_at(i))
                            == count_of(select(l, fq0, true), letter_at(i)) by {
                            lemma_drop_one(l, before, p as int, letter_at(i));
                            lemma_letter_slot(i);
                        }
                    }
                }
            }
            assert(hq ==> forall|q: int| 0 <= q < p + 1 && l[q] == 'Q' ==> !#[trigger] keep_flags@[q]) by {
                if hq {
                    assert forall|q: int| 0 <= q < p + 1 && l[q] == 'Q' implies !#[trigger] keep_flags@[q] by {
                        if q < p {
                            assert(!before[q]);
                        }
                    }
                }
            }
            p = p + 1;
        }
        assert(l.subrange(0, p as int) =~= l);
        if dropped_q {
            proof {
                reveal_strlit("Dump Q (no U)");
            }
            add_note(&mut notes, "Dump Q (no U)");
            push_focus_tag(&mut focus_tags, text("Fix Q support"));
        } else {
            push_unique_char(&mut desired_letters, 'U');
            proof {
                reveal_strlit("Need U to unlock your Q for TL/DL plays");
            }
            add_note(&mut notes, "Need U to unlock your Q for TL/DL plays");
            push_focus_tag(&mut focus_tags, text("Fix Q support"));
        }
        kept_counts = compute_kept_counts(letters, &keep_flags);
        kept_vowels = count_kept_vowels(letters, &keep_flags);
    }

    assert(hq ==> forall|q: int| 0 <= q < l.len() && l[q] == 'Q' ==> !#[trigger] keep_flags@[q]);
    assert(hv ==> count_of(select(l, keep_flags@, true), 'V') > 0);
    assert(!desired_letters@.contains('E') && !desired_letters@.contains('A') && !desired_letters@.contains('I'));
    assert(desired_letters@.len() <= 1);
    assert(hq ==> !desired_letters@.contains('U'));
    proof {
        if hv {
            lemma_no_core(l, keep_flags@);
        }
    }
    assert(kept_vowels >= lb);
    assert(fine ==> keep_flags@ == f_init);
    let ghost fv0 = keep_flags@;
    assert(floor_two(l, fd, 0) && floor_two(l, fd, 4) && floor_two(l, fd, 8) && floor_two(l, fd, 14));
    assert(count_of(select(l, keep_flags@, true), 'A') >= count_of(select(l, fd, true), 'A'));
    assert(count_of(select(l, keep_flags@, true), 'E') >= count_of(select(l, fd, true), 'E'));
    assert(count_of(select(l, keep_flags@, true), 'I') >= count_of(select(l, fd, true), 'I'));
    assert(count_of(select(l, keep_flags@, true), 'O') >= count_of(select(l, fd, true), 'O'));

    // a V with no core vowel
    if !has_core_vowel(letters, &keep_flags) {
        proof {
            let k = select(l, keep_flags@, true);
            if count_of(k, 'A') > 0 { lemma_count_witness(k, 'A'); let j = choose|j: int| 0 <= j < k.len() && k[j] == 'A'; assert(is_core(k[j])); }
            if count_of(k, 'E') > 0 { lemma_count_witness(k, 'E'); let j = choose|j: int| 0 <= j < k.len() && k[j] == 'E'; assert(is_core(k[j])); }
            if count_of(k, 'I') > 0 { lemma_count_witness(k, 'I'); let j = choose|j: int| 0 <= j < k.len() && k[j] == 'I'; assert(is_core(k[j])); }
            if count_of(k, 'O') > 0 { lemma_count_witness(k, 'O'); let j = choose|j: int| 0 <= j < k.len() && k[j] == 'O'; assert(is_core(k[j])); }
        }
        assert(count_of(l, 'A') == 0 && count_of(l, 'E') == 0 && count_of(l, 'I') == 0 && count_of(l, 'O') == 0);
        if kept_counts[21] > 0 {
            let mut p: usize = 0;
            while p < rack_len
                invariant
                    drops_explained(l, target_length as int, keep_flags@),
                    hq ==> forall|q: int| 0 <= q < l.len() && l[q] == 'Q' ==> !#[trigger] keep_flags@[q],
                    hv == (required(base, 21) == 0 && count_of(l, 'V') > 0 && count_of(l, 'A') == 0
                        && count_of(l, 'E') == 0 && count_of(l, 'I') == 0 && count_of(l, 'O') == 0),
                    hv ==> forall|q: int| 0 <= q < p && l[q] == 'V' ==> !#[trigger] keep_flags@[q],
                    fv0.len() == l.len(),
                    count_of(l, 'A') == 0 && count_of(l, 'E') == 0 && count_of(l, 'I') == 0 && count_of(l, 'O') == 0,
                    vowels_in(select(l, keep_flags@, true)) == vowels_in(select(l, fv0, true)),
                    l == letters@,
                    all_upper(l),
                    p <= l.len(),
                    rack_len == l.len(),
                    keep_flags@.len() == l.len(),
                    protects(l, keep_flags@, base),
                    glue_floor(l, keep_flags@),
                    capped(l, keep_flags@, base),
                    base == baseline_counts@,
                decreases rack_len - p,
            {
                assert(slot_of('V') == 21);
                assert(hv && l[p as int] == 'V' ==> !violates(l, keep_flags@, base, slot_of(l[p as int])));
                if letters[p] == 'V' {
                    let ghost before = keep_flags@;
                    if try_drop(&mut keep_flags, p, letters, baseline_counts) {
                        proof {
                            lemma_glue_floor_drop(l, before, p as int);
                            lemma_vowels_drop(l, before, p as int);
                            lemma_explained_drop(l, target_length as int, before, p as int);
                        }
                    }
                }
                p = p + 1;
            }
            proof {
                reveal_strlit("Drop V until you secure A/E/I/O");
            }
            add_note(&mut notes, "Drop V until you secure A/E/I/O");
            push_focus_tag(&mut focus_tags, text("Balance vowels"));
            kept_counts = compute_kept_counts(letters, &keep_flags);
            kept_vowels = count_kept_vowels(letters, &keep_flags);
        }
    }

    assert(hv ==> forall|q: int| 0 <= q < l.len() && l[q] == 'V' ==> !#[trigger] keep_flags@[q]);
    let (vowel_min, vowel_max) = desired_vowel_range(rack_len, target_length);

    // too many vowels
    assert(kept_vowels >= lb);
    assert(fine ==> keep_flags@ == f_init);
    let ghost hvw = required(base, 0) == 0 && required(base, 4) == 0 && required(base, 8) == 0
        && required(base, 14) == 0 && required(base, 20) == 0;
    assert(kept_vowels == vowels_in(select(l, keep_flags@, true)));
    if kept_vowels > vowel_max {
        let excess = kept_vowels - vowel_max;
        proof {
            lemma_vowels_select_le(l, keep_flags@);
        }
        assert(vowels_in(l) > vowel_max);
        let ghost fs = keep_flags@;
        let mut weights: Vec<i128> = Vec::new();
        let mut eligible: Vec<bool> = Vec::new();
        let mut p: usize = 0;
        while p < rack_len
            invariant
                l == letters@,
                all_upper(l),
                p <= l.len(),
                rack_len == l.len(),
                keep_flags@.len() == l.len(),
                weights@.len() == p,
                eligible@.len() == p,
                forall|q: int| 0 <= q < p && #[trigger] eligible@[q] ==> spec_is_vowel(l[q]),
                forall|q: int| 0 <= q < p ==> #[trigger] eligible@[q] == (keep_flags@[q] && spec_is_vowel(l[q])),
                keep_flags@ == fs,
                kept_counts@.len() == 26,
            decreases rack_len - p,
        {
            let ch = letters[p];
            assert(is_upper(l[p as int]));
            let base_weight: i128 = match ch {
                'U' => 70,
                'O' => 55,
                'A' => 45,
                'I' => 35,
                'E' => 25,
                _ => 30,
            };
            let kc = kept_counts[char_to_index(ch)] as i128;
            let dups: i128 = if kc > 1 { kc - 1 } else { 0 };
            weights.push(base_weight + dups * 12);
            eligible.push(keep_flags[p] && is_vowel(ch));
            p = p + 1;
        }
        let order = rank_positions(&weights, &eligible);
        let mut trimmed: Vec<char> = Vec::new();
        let mut removed: usize = 0;
        let mut k: usize = 0;
        while k < order.len() && removed < excess
            invariant
                drops_explained(l, target_length as int, keep_flags@),
                hvw == (required(base, 0) == 0 && required(base, 4) == 0 && required(base, 8) == 0
                    && required(base, 14) == 0 && required(base, 20) == 0),
                fs.len() == l.len(),
                forall|q: int| 0 <= q < l.len() && #[trigger] keep_flags@[q] ==> fs[q],
                forall|q: int| 0 <= q < l.len() ==> #[trigger] eligible@[q] == (fs[q] && spec_is_vowel(l[q])),
                forall|i: int| 0 <= i < eligible@.len() && #[trigger] eligible@[i] ==> exists|j: int| 0 <= j < order@.len() && order@[j] == i,
                forall|a: int, b: int| 0 <= a < b < order@.len() ==> #[trigger] order@[a] != #[trigger] order@[b],
                k <= order@.len(),
                forall|j: int| k <= j < order@.len() ==> keep_flags@[#[trigger] order@[j] as int],
                hvw ==> forall|j: int| 0 <= j < k ==> !keep_flags@[#[trigger] order@[j] as int],
                hvw ==> removed == k,
                vowels_in(select(l, keep_flags@, true)) + removed == kept_vowels,
                removed <= excess,
                vowels_in(l) > vowel_max,
                vowel_max as int == vowel_range(l.len() as int, target_length as int).1,
                l == letters@,
                all_upper(l),
                rack_len == l.len(),
                keep_flags@.len() == l.len(),
                protects(l, keep_flags@, base),
                base == baseline_counts@,
                eligible@.len() == l.len(),
                forall|j: int| 0 <= j < order@.len() ==> #[trigger] order@[j] < eligible@.len() && eligible@[order@[j] as int],
                forall|q: int| 0 <= q < eligible@.len() && #[trigger] eligible@[q] ==> spec_is_vowel(l[q]),
                glue_floor(l, keep_flags@),
                capped(l, keep_flags@, base),
                hq ==> forall|q: int| 0 <= q < l.len() && l[q] == 'Q' ==> !#[trigger] keep_flags@[q],
                hv ==> forall|q: int| 0 <= q < l.len() && l[q] == 'V' ==> !#[trigger] keep_flags@[q],
                removed <= k,
            decreases order@.len() - k,
        {
            let idx = order[k];
            let ch = letters[idx];
            let ghost before = keep_flags@;
            assert(spec_is_vowel(l[idx as int]));
            assert(hvw ==> !violates(l, keep_flags@, base, slot_of(l[idx as int])));
            if try_drop(&mut keep_flags, idx, letters, baseline_counts) {
                proof {
                    lemma_glue_floor_drop(l, before, idx as int);
                    lemma_vowels_drop(l, before, idx as int);
                    lemma_explained_drop(l, target_length as int, before, idx as int);
                }
                trimmed.push(ch);
                removed = removed + 1;
            }
            proof {
                assert forall|j: int| k + 1 <= j < order@.len() implies keep_flags@[#[trigger] order@[j] as int] by {
                    assert(order@[j] != order@[k as int]);
                }
                assert forall|j: int| 0 <= j < k + 1 && hvw implies !keep_flags@[#[trigger] order@[j] as int] by {
                    if j < k {
                        assert(order@[j] != order@[k as int]);
                    }
                }
            }
            k = k + 1;
        }
        proof {
            if hvw && removed < excess {
                assert forall|q: int| 0 <= q < l.len() && #[trigger] keep_flags@[q] implies !spec_is_vowel(l[q]) by {
                    if spec_is_vowel(l[q]) {
                        assert(eligible@[q]);
                        let j = choose|j: int| 0 <= j < order@.len() && order@[j] == q;
                    }
                }
                lemma_no_vowels_kept(l, keep_flags@);
            }
        }
        if trimmed.len() > 0 {
            proof {
                reveal_strlit("Trim excess vowels (");
            }
            letters_note(&mut notes, "Trim excess vowels (", &trimmed, ")");
            push_focus_tag(&mut focus_tags, text("Balance vowels"));
        }
        kept_counts = compute_kept_counts(letters, &keep_flags);
        kept_vowels = count_kept_vowels(letters, &keep_flags);
    }
    assert(hvw ==> kept_vowels <= vowel_max);

    // too few vowels
    assert(kept_vowels >= lb);
    assert(fine ==> keep_flags@ == f_init);
    let ghost short = kept_vowels < vowel_min;
    assert(kept_vowels == vowels_in(select(l, keep_flags@, true)));
    if kept_vowels < vowel_min {
        assert(vowels_in(l) < vowel_min);
        let mut needed = vowel_min - kept_vowels;
        let mut weights: Vec<i128> = Vec::new();
        let mut eligible: Vec<bool> = Vec::new();
        let mut p: usize = 0;
        while p < rack_len
            invariant
                l == letters@,
                all_upper(l),
                p <= l.len(),
                rack_len == l.len(),
                keep_flags@.len() == l.len(),
                weights@.len() == p,
                forall|q: int| 0 <= q < p && #[trigger] eligible@[q] ==> !spec_is_vowel(l[q]),
                eligible@.len() == p,
                kept_counts@.len() == 26,
            decreases rack_len - p,
        {
            let ch = letters[p];
            assert(is_upper(l[p as int]));
            let base_weight = consonant_drop_priority(ch) as i128;
            let kc = kept_counts[char_to_index(ch)] as i128;
            let dups: i128 = if kc > 1 { kc - 1 } else { 0 };
            weights.push(base_weight + dups * 8);
            eligible.push(keep_flags[p] && !is_vowel(ch));
            p = p + 1;
        }
        let order = rank_positions(&weights, &eligible);
        let mut dropped_letters: Vec<char> = Vec::new();
        let mut k: usize = 0;
        while k < order.len()
            invariant
                drops_explained(l, target_length as int, keep_flags@),
                l == letters@,
                all_upper(l),
                rack_len == l.len(),
                keep_flags@.len() == l.len(),
                protects(l, keep_flags@, base),
                base == baseline_counts@,
                eligible@.len() == l.len(),
                forall|j: int| 0 <= j < order@.len() ==> #[trigger] order@[j] < eligible@.len(),
                kept_counts@.len() == 26,
                glue_floor(l, keep_flags@),
                capped(l, keep_flags@, base),
                hq ==> forall|q: int| 0 <= q < l.len() && l[q] == 'Q' ==> !#[trigger] keep_flags@[q],
                hv ==> forall|q: int| 0 <= q < l.len() && l[q] == 'V' ==> !#[trigger] keep_flags@[q],
                forall|j: int| 0 <= j < order@.len() ==> eligible@[#[trigger] order@[j] as int],
                forall|q: int| 0 <= q < eligible@.len() && #[trigger] eligible@[q] ==> !spec_is_vowel(l[q]),
                vowels_in(select(l, keep_flags@, true)) == kept_vowels,
                vowels_in(l) < vowel_min,
                vowel_min as int == vowel_range(l.len() as int, target_length as int).0,
            decreases order@.len() - k,
        {
            if needed == 0 {
                break;
            }
            let idx = order[k];
            let ch = letters[idx];
            assert(is_upper(l[idx as int]));
            k = k + 1;
            if ch == 'S' || is_glue_consonant(ch) {
                continue;
            }
            if would_break_protected_pair(ch, &kept_counts) {
                continue;
            }
            let ghost before = keep_flags@;
            if try_drop(&mut keep_flags, idx, letters, baseline_counts) {
                proof {
                    lemma_glue_floor_drop(l, before, idx as int);
                    lemma_vowels_drop(l, before, idx as int);
                    lemma_explained_drop(l, target_length as int, before, idx as int);
                }
                dropped_letters.push(ch);
                needed = needed - 1;
                let li = char_to_index(ch);
                if kept_counts[li] > 0 {
                    kept_counts.set(li, kept_counts[li] - 1);
                }
            }
        }
        if dropped_letters.len() > 0 {
            proof {
                reveal_strlit("Reroll ");
            }
            letters_note(&mut notes, "Reroll ", &dropped_letters, " to fish for stronger vowels");
            push_focus_tag(&mut focus_tags, text("Add vowels"));
        }
        push_unique_char(&mut desired_letters, 'E');
        push_unique_char(&mut desired_letters, 'A');
        push_unique_char(&mut desired_letters, 'I');
        proof {
            reveal_strlit("Aim for two reliable vowels (E/A/I)");
        }
        add_note(&mut notes, "Aim for two reliable vowels (E/A/I)");
        push_focus_tag(&mut focus_tags, text("Add vowels"));
    }

    kept_counts = compute_kept_counts(letters, &keep_flags);
    let preserved = collect_protected_pairs(&kept_counts);
    if preserved.len() > 0 {
        let mut t = text("Preserve blends (");
        proof {
            reveal_strlit("Preserve blends (");
        }
        let mut k: usize = 0;
        while k < preserved.len()
            invariant
                t@.len() > 1 && t@[1] == 'r',
            decreases preserved@.len() - k,
        {
            if k > 0 {
                t.append(", ");
            }
            t.append(preserved[k].as_str());
            k = k + 1;
        }
        t.append(")");
        assert(t@.len() > 1 && t@[1] == 'r');
        push_note(&mut notes, t);
        push_focus_tag(&mut focus_tags, text("Protect blends"));
    }

    let keep_letters = selected(letters, &keep_flags, true);
    let reroll_letters = selected(letters, &keep_flags, false);

    if kept_counts[18] > 0 {
        proof {
            reveal_strlit("Keep S for easy hooks");
        }
        add_note(&mut notes, "Keep S for easy hooks");
        push_focus_tag(&mut focus_tags, text("Keep S hot"));
    }
    if kept_counts[17] > 0 || kept_counts[19] > 0 || kept_counts[11] > 0 || kept_counts[13] > 0
        || kept_counts[3] > 0 || kept_counts[12] > 0 || kept_counts[15] > 0 || kept_counts[2] > 0
        || kept_counts[7] > 0 {
        proof {
            reveal_strlit("Hold glue consonants (R, T, L, N, D, M, P, C, H)");
        }
        add_note(&mut notes, "Hold glue consonants (R, T, L, N, D, M, P, C, H)");
        push_focus_tag(&mut focus_tags, text("Keep glue consonants"));
    }
    if kept_counts[9] > 0 || kept_counts[23] > 0 || kept_counts[25] > 0 || kept_counts[10] > 0 {
        proof {
            reveal_strlit("Keep one premium hitter ready for TL");
        }
        add_note(&mut notes, "Keep one premium hitter ready for TL");
        push_focus_tag(&mut focus_tags, text("Prep TL hitter"));
    }
    proof {
        lemma_no_balanced(notes@);
    }
    if reroll_letters.len() == 0 {
        push_note(&mut notes, text("Rack already balanced — optional reroll"));
        push_focus_tag(&mut focus_tags, text("Fine-tune only"));
    }

    assert(short == (vowels_in(select(l, keep_flags@, true)) < vowel_min));
    assert(vowels_in(select(l, keep_flags@, true)) == kept_vowels);
    assert(short == desired_letters@.contains('E'));
    assert(short == desired_letters@.contains('A'));
    assert(short == desired_letters@.contains('I'));
    assert(desired_letters@.len() <= 4);
    assert(fine ==> keep_flags@ == f_init);
    proof {
        lemma_vowels_select_le(l, keep_flags@);
    }
    proof {
        if hq {
            lemma_none_kept(l, keep_flags@, 'Q');
        }
        if hv {
            lemma_none_kept(l, keep_flags@, 'V');
        }
    }
    let mut desired: Vec<char> = Vec::new();
    let mut k: usize = 0;
    while k < desired_letters.len() && k < 8
        invariant
            k <= desired_letters@.len(),
            desired@ == desired_letters@.subrange(0, k as int),
        decreases desired_letters@.len() - k,
    {
        desired.push(desired_letters[k]);
        k = k + 1;
    }

    assert(desired@ =~= desired_letters@);
    PassOneOutcome {
        keep_flags,
        keep_letters,
        reroll_letters,
        desired_letters: desired,
        notes,
        vowel_min,
        focus_tags,
    }
}

/// Kept lengthener letters (E, R, I, N, G, L, Y, D, S), counted with repeats.
pub open spec fn lengthener_total(kept: Seq<char>) -> nat {
    count_of(kept, 'E') + count_of(kept, 'R') + count_of(kept, 'I') + count_of(kept, 'N')
        + count_of(kept, 'G') + count_of(kept, 'L') + count_of(kept, 'Y') + count_of(kept, 'D')
        + count_of(kept, 'S')
}

pub open spec fn present(kept: Seq<char>, c: char) -> int {
    if count_of(kept, c) > 0 {
        1
    } else {
        0
    }
}

/// Different lengthener letters kept.
pub open spec fn lengthener_kinds(kept: Seq<char>) -> int {
    present(kept, 'E') + present(kept, 'R') + present(kept, 'I') + present(kept, 'N') + present(
        kept,
        'G',
    ) + present(kept, 'L') + present(kept, 'Y') + present(kept, 'D') + present(kept, 'S')
}

/// A letter of the lengthener triads I-N-G and E-R-S.
pub open spec fn triad_letter(c: char) -> bool {
    c == 'I' || c == 'N' || c == 'G' || c == 'E' || c == 'R' || c == 'S'
}

/// Both lengthener triads, I-N-G and E-R-S, are kept whole.
pub open spec fn triads_whole(kept: Seq<char>) -> bool {
    count_of(kept, 'I') > 0 && count_of(kept, 'N') > 0 && count_of(kept, 'G') > 0 && count_of(kept, 'E')
        > 0 && count_of(kept, 'R') > 0 && count_of(kept, 'S') > 0
}

/// The kept letters can stretch to the target length.
pub open spec fn lengtheners_ready(kept: Seq<char>, target: int) -> bool {
    if target >= 7 {
        lengthener_kinds(kept) >= 3 && triads_whole(kept)
    } else {
        lengthener_total(kept) >= 2
    }
}

/// A letter worth a triple-letter square is kept.
pub open spec fn tl_ready(kept: Seq<char>) -> bool {
    count_of(kept, 'J') > 0 || count_of(kept, 'X') > 0 || count_of(kept, 'Z') > 0 || count_of(kept, 'K') > 0
        || count_of(kept, 'H') > 0 || count_of(kept, 'F') > 0 || count_of(kept, 'W') > 0 || count_of(kept, 'Y')
        > 0 || count_of(kept, 'V') > 0 || count_of(kept, 'M') > 0 || count_of(kept, 'P') > 0 || count_of(kept, 'C')
        > 0
}

/// The kept letters already serve the board: an S, lengtheners enough for
/// the target, and a triple-letter hitter.
pub open spec fn board_ready(kept: Seq<char>, target: int) -> bool {
    count_of(kept, 'S') > 0 && lengtheners_ready(kept, target) && tl_ready(kept)
}

/// Adds each letter not already there.
fn push_unique_chars(target: &mut Vec<char>, chars: &[char])
    ensures
        final(target)@.len() >= old(target)@.len(),
        chars@.len() > 0 ==> final(target)@.len() > 0,
        old(target)@.len() > 0 ==> final(target)@.len() > 0,
        final(target)@.subrange(0, old(target)@.len() as int) == old(target)@,
        final(target)@ == add_all(old(target)@, chars@),
        distinct(old(target)@) ==> distinct(final(target)@),
{
    let mut i: usize = 0;
    assert(target@.subrange(0, target@.len() as int) =~= target@);
    assert(chars@.subrange(0, 0) =~= Seq::<char>::empty());
    while i < chars.len()
        invariant
            target@ == add_all(old(target)@, chars@.subrange(0, i as int)),
            distinct(old(target)@) ==> distinct(target@),
            i <= chars@.len(),
            target@.len() >= old(target)@.len(),
            i > 0 ==> target@.len() > 0,
            target@.subrange(0, old(target)@.len() as int) == old(target)@,
        decreases chars@.len() - i,
    {
        let ghost before = target@;
        push_unique_char(target, chars[i]);
        assert(target@.subrange(0, old(target)@.len() as int) =~= before.subrange(0, old(target)@.len() as int));
        assert(chars@.subrange(0, i as int + 1).drop_last() =~= chars@.subrange(0, i as int));
        i = i + 1;
    }
    assert(chars@.subrange(0, i as int) =~= chars@);
}

/// What the board still wants from a rack with these kept-letter counts:
/// an S, lengtheners (and whether to hold those kept), a triple-letter
/// hitter.
fn board_gaps(
    keep_counts: &Vec<usize>,
    target_length: usize,
    Ghost(kept): Ghost<Seq<char>>,
) -> (r: (bool, bool, bool, bool))
    requires
        keep_counts@.len() == 26,
        forall|i: int| 0 <= i < 26 ==> #[trigger] keep_counts@[i] == count_of(kept, letter_at(i)),
    ensures
        r.0 == (count_of(kept, 'S') == 0),
        r.1 == !lengtheners_ready(kept, target_length as int),
        r.2 == r.1,
        r.3 == !tl_ready(kept),
{
    assert(letter_at(4) == 'E' && letter_at(17) == 'R' && letter_at(8) == 'I' && letter_at(13) == 'N'
        && letter_at(6) == 'G' && letter_at(11) == 'L' && letter_at(24) == 'Y' && letter_at(3) == 'D'
        && letter_at(18) == 'S');
    assert(letter_at(9) == 'J' && letter_at(23) == 'X' && letter_at(25) == 'Z' && letter_at(10) == 'K'
        && letter_at(7) == 'H' && letter_at(5) == 'F' && letter_at(22) == 'W' && letter_at(21) == 'V'
        && letter_at(12) == 'M' && letter_at(15) == 'P' && letter_at(2) == 'C');
    let e = keep_counts[4];
    let rr = keep_counts[17];
    let i = keep_counts[8];
    let n = keep_counts[13];
    let g = keep_counts[6];
    let ll = keep_counts[11];
    let y = keep_counts[24];
    let d = keep_counts[3];
    let s = keep_counts[18];
    let total: u128 = e as u128 + rr as u128 + i as u128 + n as u128 + g as u128 + ll as u128
        + y as u128 + d as u128 + s as u128;
    let kinds: usize = (if e > 0 { 1usize } else { 0 }) + (if rr > 0 { 1usize } else { 0 })
        + (if i > 0 { 1usize } else { 0 }) + (if n > 0 { 1usize } else { 0 })
        + (if g > 0 { 1usize } else { 0 }) + (if ll > 0 { 1usize } else { 0 })
        + (if y > 0 { 1usize } else { 0 }) + (if d > 0 { 1usize } else { 0 })
        + (if s > 0 { 1usize } else { 0 });
    let tl = keep_counts[9] > 0 || keep_counts[23] > 0 || keep_counts[25] > 0 || keep_counts[10] > 0
        || keep_counts[7] > 0 || keep_counts[5] > 0 || keep_counts[22] > 0 || y > 0
        || keep_counts[21] > 0 || keep_counts[12] > 0 || keep_counts[15] > 0 || keep_counts[2] > 0;
    let mut chase = false;
    let mut protect = false;
    if target_length >= 7 {
        if kinds < 3 || g == 0 || i == 0 || n == 0 || e == 0 || rr == 0 || s == 0 {
            chase = true;
            protect = true;
        }
    } else if total < 2 {
        chase = true;
        protect = true;
    }
    (s == 0, chase, protect, !tl)
}

/// `s` with `c` added at the end unless it is already there.
pub open spec fn add_unique(s: Seq<char>, c: char) -> Seq<char> {
    if s.contains(c) {
        s
    } else {
        s.push(c)
    }
}

/// `s` with each of `cs` added in turn unless already there.
pub open spec fn add_all(s: Seq<char>, cs: Seq<char>) -> Seq<char>
    decreases cs.len(),
{
    if cs.len() == 0 {
        s
    } else {
        add_unique(add_all(s, cs.drop_last()), cs.last())
    }
}

/// The alphabet slots of the triad letters in the order they are asked
/// for: G, I, N, then E, R, S.
pub open spec fn triad_slot(k: int) -> int {
    if k == 0 { 6 } else if k == 1 { 8 } else if k == 2 { 13 } else if k == 3 { 4 } else if k == 4 { 17 } else { 18 }
}

/// `s` with the first `k` triad letters that are not kept added.
pub open spec fn triad_wishes(s: Seq<char>, kept: Seq<char>, k: int) -> Seq<char>
    decreases k,
{
    if k <= 0 {
        s
    } else {
        let prev = triad_wishes(s, kept, k - 1);
        let c = letter_at(triad_slot(k - 1));
        if count_of(kept, c) == 0 {
            add_unique(prev, c)
        } else {
            prev
        }
    }
}

/// What the targeting pass fishes for, given the kept letters: an S if none
/// is kept, the missing triad letters for long targets, the lengtheners
/// when short of them, and the triple-letter hitters when none is kept;
/// each letter once, in that order.
pub open spec fn wish_list(kept: Seq<char>, target: int) -> Seq<char> {
    let s0 = if count_of(kept, 'S') == 0 {
        seq!['S']
    } else {
        Seq::empty()
    };
    let s1 = if target >= 7 {
        triad_wishes(s0, kept, 6)
    } else {
        s0
    };
    let s2 = if !lengtheners_ready(kept, target) {
        add_all(s1, seq!['E', 'R', 'I', 'N', 'G', 'L', 'Y', 'D', 'S'])
    } else {
        s1
    };
    if !tl_ready(kept) {
        add_all(s2, seq!['J', 'X', 'Z', 'K', 'H', 'F', 'W', 'Y', 'V', 'M', 'P', 'C'])
    } else {
        s2
    }
}

/// The first `n` entries of `s`, or all of them if there are fewer.
pub open spec fn first_n(s: Seq<char>, n: int) -> Seq<char> {
    if s.len() <= n {
        s
    } else {
        s.subrange(0, n)
    }
}

/// Adds the I-N-G and E-R-S letters that are not kept, each triad in
/// alphabetical order.
fn push_missing_triads(target: &mut Vec<char>, keep_counts: &Vec<usize>, Ghost(kept): Ghost<Seq<char>>)
    requires
        keep_counts@.len() == 26,
        forall|i: int| 0 <= i < 26 ==> #[trigger] keep_counts@[i] == count_of(kept, letter_at(i)),
    ensures
        old(target)@.len() <= final(target)@.len() <= old(target)@.len() + 6,
        final(target)@.subrange(0, old(target)@.len() as int) == old(target)@,
        forall|c: char| triad_letter(c) && count_of(kept, c) == 0 ==> #[trigger] final(target)@.contains(c),
        triads_whole(kept) ==> final(target)@ == old(target)@,
        final(target)@ == triad_wishes(old(target)@, kept, 6),
        distinct(old(target)@) ==> distinct(final(target)@),
{
    assert(letter_at(4) == 'E' && letter_at(17) == 'R' && letter_at(8) == 'I' && letter_at(13) == 'N'
        && letter_at(6) == 'G' && letter_at(18) == 'S');
    let ghost t0 = target@;
    let ghost mut marks: Seq<char> = Seq::empty();
    let order: [usize; 6] = [6, 8, 13, 4, 17, 18];
    let mut k: usize = 0;
    assert(target@.subrange(0, t0.len() as int) =~= t0);
    while k < 6
        invariant
            k <= 6,
            order@ == seq![6usize, 8, 13, 4, 17, 18],
            target@ == triad_wishes(t0, kept, k as int),
            distinct(t0) ==> distinct(target@),
            forall|i: int| 0 <= i < 26 ==> #[trigger] keep_counts@[i] == count_of(kept, letter_at(i)),
            keep_counts@.len() == 26,
            t0.len() <= target@.len() <= t0.len() + k,
            target@.subrange(0, t0.len() as int) == t0,
            (forall|j: int| 0 <= j < k ==> keep_counts@[#[trigger] order@[j] as int] > 0) ==> target@ == t0,
            forall|j: int| 0 <= j < k && keep_counts@[order@[j] as int] == 0 ==> #[trigger] target@.contains(letter_at(order@[j] as int)),
        decreases 6 - k,
    {
        let slot = order[k];
        assert(slot == order@[k as int]);
        assert(slot == triad_slot(k as int));
        let ghost before = target@;
        assert(forall|j: int| 0 <= j < k && keep_counts@[order@[j] as int] == 0 ==> #[trigger] before.contains(letter_at(order@[j] as int)));
        if keep_counts[slot] == 0 {
            push_unique_char(target, index_to_char(slot));
            assert(target@.subrange(0, t0.len() as int) =~= before.subrange(0, t0.len() as int));
            assert forall|j: int| 0 <= j < k && keep_counts@[order@[j] as int] == 0 implies #[trigger] target@.contains(letter_at(order@[j] as int)) by {
                let x = letter_at(order@[j] as int);
                assert(before.contains(x));
                let q = choose|q: int| 0 <= q < before.len() && before[q] == x;
                assert(target@.subrange(0, before.len() as int)[q] == x);
                assert(target@[q] == x);
            }
        }
        k = k + 1;
    }
    proof {
        if triads_whole(kept) {
            assert(forall|j: int| 0 <= j < 6 ==> keep_counts@[#[trigger] order@[j] as int] > 0);
        }
    }
    assert forall|c: char| triad_letter(c) && count_of(kept, c) == 0 implies #[trigger] target@.contains(c) by {
        if c == 'G' { assert(order@[0] == 6); }
        else if c == 'I' { assert(order@[1] == 8); }
        else if c == 'N' { assert(order@[2] == 13); }
        else if c == 'E' { assert(order@[3] == 4); }
        else if c == 'R' { assert(order@[4] == 17); }
        else { assert(order@[5] == 18); }
    }
}

/// The letters to fish for: an S, the missing triad letters for long
/// targets, the lengtheners, the triple-letter hitters, as needed.
fn board_wishes(
    keep_counts: &Vec<usize>,
    target_length: usize,
    needs_s: bool,
    chase_lengtheners: bool,
    needs_tl: bool,
    Ghost(kept): Ghost<Seq<char>>,
) -> (r: Vec<char>)
    requires
        keep_counts@.len() == 26,
        forall|i: int| 0 <= i < 26 ==> #[trigger] keep_counts@[i] == count_of(kept, letter_at(i)),
        chase_lengtheners == !lengtheners_ready(kept, target_length as int),
        needs_s == (count_of(kept, 'S') == 0),
        needs_tl == !tl_ready(kept),
    ensures
        r@ == wish_list(kept, target_length as int),
        distinct(r@),
        (r@.len() == 0) == !(needs_s || chase_lengtheners || needs_tl),
        needs_s ==> r@.len() > 0 && r@[0] == 'S',
        target_length >= 7 ==> forall|c: char|
            triad_letter(c) && count_of(kept, c) == 0 ==> exists|j: int|
                0 <= j < 10 && j < r@.len() && #[trigger] r@[j] == c,
{
    let mut desired_letters: Vec<char> = Vec::new();
    if needs_s {
        push_unique_char(&mut desired_letters, 'S');
        assert(desired_letters@ =~= seq!['S']);
    } else {
        assert(desired_letters@ =~= Seq::<char>::empty());
    }
    assert(desired_letters@.len() <= 1);
    let ghost first = desired_letters@;
    assert(needs_s ==> first =~= seq!['S']);
    if target_length >= 7 {
        push_missing_triads(&mut desired_letters, keep_counts, Ghost(kept));
    }
    let ghost stage = desired_letters@;
    proof {
        if target_length >= 7 && !chase_lengtheners {
            assert(triads_whole(kept));
            assert(letter_at(4) == 'E' && letter_at(17) == 'R' && letter_at(8) == 'I' && letter_at(13) == 'N'
                && letter_at(6) == 'G' && letter_at(18) == 'S');
        }
    }
    if chase_lengtheners {
        let lengtheners = ['E', 'R', 'I', 'N', 'G', 'L', 'Y', 'D', 'S'];
        assert(lengtheners@ =~= seq!['E', 'R', 'I', 'N', 'G', 'L', 'Y', 'D', 'S']);
        push_unique_chars(&mut desired_letters, &lengtheners);
    }
    if needs_tl {
        let hitters = ['J', 'X', 'Z', 'K', 'H', 'F', 'W', 'Y', 'V', 'M', 'P', 'C'];
        assert(hitters@ =~= seq!['J', 'X', 'Z', 'K', 'H', 'F', 'W', 'Y', 'V', 'M', 'P', 'C']);
        push_unique_chars(&mut desired_letters, &hitters);
    }
    proof {
        if target_length >= 7 {
            assert forall|c: char| triad_letter(c) && count_of(kept, c) == 0 implies exists|j: int|
                0 <= j < 10 && j < desired_letters@.len() && #[trigger] desired_letters@[j] == c by {
                assert(stage.contains(c));
                let j = choose|j: int| 0 <= j < stage.len() && stage[j] == c;
                assert(desired_letters@.subrange(0, stage.len() as int)[j] == c);
                assert(desired_letters@[j] == c);
            }
        }
    }
    assert(desired_letters@.subrange(0, first.len() as int) == first);
    assert(needs_s ==> desired_letters@[0] == desired_letters@.subrange(0, first.len() as int)[0]);
    desired_letters
}

/// Throws back at most two more kept letters, highest drop weight first,
/// sparing S and glue consonants, blends, needed lengtheners, the last
/// triple-letter hitter, vowels at the floor and the best known word.
#[verifier::rlimit(100)]
fn drop_for_board(
    letters: &[char],
    keep_flags: &mut Vec<bool>,
    keep_counts: &mut Vec<usize>,
    target_length: usize,
    protect_lengtheners: bool,
    vowel_min: usize,
    baseline_counts: &Vec<usize>,
    reroll_letters: &mut Vec<char>,
) -> (dropped: Vec<char>)
    requires
        all_upper(letters@),
        old(keep_flags)@.len() == letters@.len(),
        protects(letters@, old(keep_flags)@, baseline_counts@),
        glue_floor(letters@, old(keep_flags)@),
        old(keep_counts)@.len() == 26,
        counts_match(old(keep_counts)@, select(letters@, old(keep_flags)@, true)),
        protect_lengtheners == !lengtheners_ready(select(letters@, old(keep_flags)@, true), target_length as int),
    ensures
        forall|q: int| 0 <= q < letters@.len() && #[trigger] final(keep_flags)@[q] ==> old(keep_flags)@[q],
        !lengtheners_ready(select(letters@, old(keep_flags)@, true), target_length as int) ==> forall|k: int|
            0 <= k < dropped@.len() ==> !spec_is_lengthener(#[trigger] dropped@[k]),
        tl_ready(select(letters@, old(keep_flags)@, true)) ==> tl_ready(select(letters@, final(keep_flags)@, true)),
        forall|pk: int|
            0 <= pk < PAIR_COUNT && count_of(select(letters@, old(keep_flags)@, true), spec_pair(pk).0) > 0
                && count_of(select(letters@, old(keep_flags)@, true), spec_pair(pk).1) > 0 ==> count_of(
                select(letters@, final(keep_flags)@, true),
                #[trigger] spec_pair(pk).0,
            ) > 0 && count_of(select(letters@, final(keep_flags)@, true), spec_pair(pk).1) > 0,
        final(keep_flags)@.len() == letters@.len(),
        protects(letters@, final(keep_flags)@, baseline_counts@),
        glue_floor(letters@, final(keep_flags)@),
        dropped@.len() <= 2,
        final(reroll_letters)@ == old(reroll_letters)@ + dropped@,
        forall|c: char| #[trigger] count_of(select(letters@, final(keep_flags)@, true), c) + count_of(dropped@, c)
            == count_of(select(letters@, old(keep_flags)@, true), c),
        forall|k: int| 0 <= k < dropped@.len() ==> !spec_is_glue(#[trigger] dropped@[k]),
        vowels_in(select(letters@, final(keep_flags)@, true)) >= vowel_min || vowels_in(select(letters@, final(keep_flags)@, true))
            == vowels_in(select(letters@, old(keep_flags)@, true)),
{
    let ghost l = letters@;
    let ghost base = baseline_counts@;
    let rack_len = letters.len();
    let mut current_vowels = count_kept_vowels(letters, keep_flags);
    let mut current_lengtheners: u128 = keep_counts[4] as u128 + keep_counts[17] as u128
        + keep_counts[8] as u128 + keep_counts[13] as u128 + keep_counts[6] as u128
        + keep_counts[11] as u128 + keep_counts[24] as u128 + keep_counts[3] as u128
        + keep_counts[18] as u128;
    let mut current_unique_lengtheners: usize = (if keep_counts[4] > 0 { 1usize } else { 0 })
        + (if keep_counts[17] > 0 { 1usize } else { 0 }) + (if keep_counts[8] > 0 { 1usize } else { 0 })
        + (if keep_counts[13] > 0 { 1usize } else { 0 }) + (if keep_counts[6] > 0 { 1usize } else { 0 })
        + (if keep_counts[11] > 0 { 1usize } else { 0 }) + (if keep_counts[24] > 0 { 1usize } else { 0 })
        + (if keep_counts[3] > 0 { 1usize } else { 0 }) + (if keep_counts[18] > 0 { 1usize } else { 0 });
    let mut current_tl_hitters: u128 = keep_counts[9] as u128 + keep_counts[23] as u128
        + keep_counts[25] as u128 + keep_counts[10] as u128 + keep_counts[7] as u128
        + keep_counts[5] as u128 + keep_counts[22] as u128 + keep_counts[24] as u128
        + keep_counts[21] as u128 + keep_counts[12] as u128 + keep_counts[15] as u128
        + keep_counts[2] as u128;
    let mut protect_lengtheners = protect_lengtheners;
    let ghost kept0 = select(l, keep_flags@, true);
    let ghost short = !lengtheners_ready(kept0, target_length as int);
    proof {
        assert(letter_at(4) == 'E' && letter_at(17) == 'R' && letter_at(8) == 'I' && letter_at(13) == 'N'
            && letter_at(6) == 'G' && letter_at(11) == 'L' && letter_at(24) == 'Y' && letter_at(3) == 'D'
            && letter_at(18) == 'S');
        assert(letter_at(9) == 'J' && letter_at(23) == 'X' && letter_at(25) == 'Z' && letter_at(10) == 'K'
            && letter_at(7) == 'H' && letter_at(5) == 'F' && letter_at(22) == 'W' && letter_at(21) == 'V'
            && letter_at(12) == 'M' && letter_at(15) == 'P' && letter_at(2) == 'C');
        assert(current_lengtheners == lengthener_total(kept0));
        assert(tl_ready(kept0) == (current_tl_hitters > 0));
    }

    let mut weights: Vec<i128> = Vec::new();
    let mut eligible: Vec<bool> = Vec::new();
    let mut p: usize = 0;
    while p < rack_len
        invariant
            l == letters@,
            all_upper(l),
            p <= l.len(),
            rack_len == l.len(),
            keep_flags@.len() == l.len(),
            weights@.len() == p,
            eligible@.len() == p,
            keep_counts@.len() == 26,
        decreases rack_len - p,
    {
        let ch = letters[p];
        assert(is_upper(l[p as int]));
        let base_weight: i128 = if is_vowel(ch) {
            40
        } else {
            consonant_drop_priority(ch) as i128
        };
        let kc = keep_counts[char_to_index(ch)] as i128;
        let dups: i128 = if kc > 1 { kc - 1 } else { 0 };
        weights.push(base_weight + dups * 10);
        eligible.push(keep_flags[p]);
        p = p + 1;
    }
    let order = rank_positions(&weights, &eligible);

    let mut dropped: Vec<char> = Vec::new();
    let ghost f0 = keep_flags@;
    let ghost first = reroll_letters@;
    let mut k: usize = 0;
    while k < order.len()
        invariant
            l == letters@,
            all_upper(l),
            rack_len == l.len(),
            keep_flags@.len() == l.len(),
            protects(l, keep_flags@, base),
            base == baseline_counts@,
            eligible@.len() == l.len(),
            forall|j: int| 0 <= j < order@.len() ==> #[trigger] order@[j] < eligible@.len(),
            keep_counts@.len() == 26,
            glue_floor(l, keep_flags@),
            dropped@.len() <= 2,
            reroll_letters@ == first + dropped@,
            f0.len() == l.len(),
            forall|c: char| #[trigger] count_of(select(l, keep_flags@, true), c) + count_of(dropped@, c)
                == count_of(select(l, f0, true), c),
            current_vowels as int == vowels_in(select(l, keep_flags@, true)),
            vowels_in(select(l, keep_flags@, true)) >= vowel_min || vowels_in(select(l, keep_flags@, true))
                == vowels_in(select(l, f0, true)),
            forall|k: int| 0 <= k < dropped@.len() ==> !spec_is_glue(#[trigger] dropped@[k]),
            kept0 == select(l, f0, true),
            short == !lengtheners_ready(kept0, target_length as int),
            counts_match(keep_counts@, select(l, keep_flags@, true)),
            forall|q: int| 0 <= q < l.len() && #[trigger] keep_flags@[q] ==> f0[q],
            short && target_length >= 7 ==> protect_lengtheners,
            short && target_length < 7 ==> current_lengtheners <= 1,
            short ==> forall|k: int| 0 <= k < dropped@.len() ==> !spec_is_lengthener(#[trigger] dropped@[k]),
            current_tl_hitters as int == keep_counts@[9] + keep_counts@[23] + keep_counts@[25] + keep_counts@[10]
                + keep_counts@[7] + keep_counts@[5] + keep_counts@[22] + keep_counts@[24] + keep_counts@[21]
                + keep_counts@[12] + keep_counts@[15] + keep_counts@[2],
            tl_ready(kept0) ==> current_tl_hitters >= 1,
            forall|pk: int|
                0 <= pk < PAIR_COUNT && count_of(kept0, spec_pair(pk).0) > 0 && count_of(kept0, spec_pair(pk).1) > 0
                    ==> keep_counts@[slot_of(#[trigger] spec_pair(pk).0)] > 0 && keep_counts@[slot_of(spec_pair(pk).1)] > 0,
        decreases order@.len() - k,
    {
        if dropped.len() >= 2 {
            break;
        }
        let idx = order[k];
        let ch = letters[idx];
        assert(is_upper(l[idx as int]));
        k = k + 1;
        if !keep_flags[idx] {
            continue;
        }
        if ch == 'S' || is_glue_consonant(ch) {
            continue;
        }
        if would_break_protected_pair(ch, keep_counts) {
            continue;
        }
        if is_lengthener_letter(ch) {
            if target_length >= 7 {
                if protect_lengtheners || current_unique_lengtheners <= 3 {
                    continue;
                }
            } else if current_lengtheners <= 2 {
                continue;
            }
        }
        if is_tl_candidate(ch) && current_tl_hitters <= 1 {
            continue;
        }
        if is_vowel(ch) && current_vowels <= vowel_min {
            continue;
        }
        let ghost before = keep_flags@;
        if !try_drop(keep_flags, idx, letters, baseline_counts) {
            continue;
        }
        proof {
            lemma_glue_floor_drop(l, before, idx as int);
        }
        let ghost old_dropped = dropped@;
        let ghost counts_before = keep_counts@;
        proof {
            lemma_count_kept_pos(l, before, idx as int);
            lemma_slot_letter_upper(ch);
        }
        reroll_letters.push(ch);
        dropped.push(ch);
        assert(reroll_letters@ =~= first + dropped@);
        proof {
            assert(dropped@.drop_last() =~= old_dropped);
            lemma_vowels_drop(l, before, idx as int);
            assert forall|c: char| #[trigger] count_of(select(l, keep_flags@, true), c) + count_of(dropped@, c)
                == count_of(select(l, f0, true), c) by {
                lemma_drop_one(l, before, idx as int, c);
            }
        }
        let li = char_to_index(ch);
        assert(counts_before[li as int] >= 1);
        keep_counts.set(li, keep_counts[li] - 1);
        proof {
            assert forall|i: int| 0 <= i < 26 implies #[trigger] keep_counts@[i] == count_of(select(l, keep_flags@, true), letter_at(i)) by {
                lemma_drop_one(l, before, idx as int, letter_at(i));
                lemma_letter_slot(i);
            }
            assert forall|pk: int|
                0 <= pk < PAIR_COUNT && count_of(kept0, spec_pair(pk).0) > 0 && count_of(kept0, spec_pair(pk).1) > 0
                    implies keep_counts@[slot_of(#[trigger] spec_pair(pk).0)] > 0 && keep_counts@[slot_of(spec_pair(pk).1)] > 0 by {
                assert(!breaks_pair(ch, counts_before, pk));
                lemma_slot_letter_upper(spec_pair(pk).0);
                lemma_slot_letter_upper(spec_pair(pk).1);
            }
        }
        if is_vowel(ch) && current_vowels > 0 {
            current_vowels = current_vowels - 1;
        }
        if is_lengthener_letter(ch) {
            if current_lengtheners > 0 {
                current_lengtheners = current_lengtheners - 1;
            }
            if keep_counts[li] == 0 && current_unique_lengtheners > 0 {
                current_unique_lengtheners = current_unique_lengtheners - 1;
            }
            if target_length >= 7 {
                if current_unique_lengtheners <= 3 {
                    protect_lengtheners = true;
                }
                if keep_counts[8] == 0 || keep_counts[13] == 0 || keep_counts[6] == 0
                    || keep_counts[4] == 0 || keep_counts[17] == 0 || keep_counts[18] == 0 {
                    protect_lengtheners = true;
                }
            }
        }
        if is_tl_candidate(ch) && current_tl_hitters > 0 {
            current_tl_hitters = current_tl_hitters - 1;
        }
    }
    dropped
}

/// Pass two: asks for an S, lengtheners and a triple-letter hitter, and
/// throws back at most two more letters. `None` when the rack needs
/// nothing and pass one threw nothing back.
fn analyze_pass_two(
    letters: &[char],
    target_length: usize,
    pass_one: &PassOneOutcome,
    baseline_counts: &Vec<usize>,
) -> (r: Option<RerollAdvice>)
    requires
        all_upper(letters@),
        pass_one.splits(letters@),
        protects(letters@, pass_one.keep_flags@, baseline_counts@),
        glue_floor(letters@, pass_one.keep_flags@),
    ensures
        r is None <==> (pass_one.reroll_letters@.len() == 0 && board_ready(
            pass_one.keep_letters@,
            target_length as int,
        )),
        r matches Some(a) ==> {
            &&& a.phase@ == "target"@
            &&& a.target_word@ == "Pass 2 – Target the board"@
            &&& a.estimated_score is None
            &&& !views_of(a.notes@).contains(balanced_note())
            &&& proper(a.success_probability)
            &&& a.missing_letters@ == first_n(wish_list(pass_one.keep_letters@, target_length as int), 10)
            &&& a.success_probability == approximate_draw_probability_spec(
                a.keep_letters@,
                a.reroll_letters@,
                wish_list(pass_one.keep_letters@, target_length as int),
            )
            &&& !lengtheners_ready(pass_one.keep_letters@, target_length as int) ==> views_of(a.notes@).contains(
                "Chase lengtheners (-ER/-ED/-ING/-LY) to stretch onto DW/TW"@,
            )
            &&& !tl_ready(pass_one.keep_letters@) ==> views_of(a.notes@).contains(
                "Fish for a TL hitter (J/X/Z/K/H/F/W/Y)"@,
            )
            &&& vowels_in(a.keep_letters@) >= pass_one.vowel_min || vowels_in(a.keep_letters@) == vowels_in(
                pass_one.keep_letters@,
            )
            &&& a.missing_letters@.len() <= 10
            &&& count_of(pass_one.keep_letters@, 'S') == 0 ==> a.missing_letters@.len() > 0
                && a.missing_letters@[0] == 'S' && views_of(a.notes@).contains("Look for an S to extend words"@)
            &&& forall|c: char| #[trigger] count_of(a.keep_letters@, c) + count_of(
                a.reroll_letters@.subrange(pass_one.reroll_letters@.len() as int, a.reroll_letters@.len() as int),
                c,
            ) == count_of(pass_one.keep_letters@, c)
            &&& forall|k: int|
                pass_one.reroll_letters@.len() <= k < a.reroll_letters@.len() ==> !spec_is_glue(
                    #[trigger] a.reroll_letters@[k],
                )
            &&& target_length >= 7 ==> forall|c: char|
                triad_letter(c) && count_of(pass_one.keep_letters@, c) == 0 ==> #[trigger] a.missing_letters@.contains(c)
            &&& a.reroll_letters@.len() <= pass_one.reroll_letters@.len() + 2
            &&& a.reroll_letters@.subrange(0, pass_one.reroll_letters@.len() as int)
                == pass_one.reroll_letters@
            &&& exists|f: Seq<bool>|
                f.len() == letters@.len() && #[trigger] select(letters@, f, true) == a.keep_letters@
                    && protects(letters@, f, baseline_counts@) && glue_floor(letters@, f) && (forall|q: int|
                    0 <= q < letters@.len() && #[trigger] f[q] ==> pass_one.keep_flags@[q])
            &&& board_kept(target_length as int, pass_one.keep_letters@, pass_one.reroll_letters@.len() as int, a)
            &&& swap_noted(pass_one.reroll_letters@.len() as int, a)
        },
{
    let mut keep_flags = pass_one.keep_flags.clone();
    assert(keep_flags@ == pass_one.keep_flags@);
    let mut notes: Vec<String> = Vec::new();
    let mut focus_tags: Vec<String> = Vec::new();
    let mut keep_counts = compute_kept_counts(letters, &keep_flags);
    let (needs_s, chase_lengtheners, protect_lengtheners, needs_tl) = board_gaps(
        &keep_counts,
        target_length,
        Ghost(pass_one.keep_letters@),
    );
    let desired_letters = board_wishes(
        &keep_counts,
        target_length,
        needs_s,
        chase_lengtheners,
        needs_tl,
        Ghost(pass_one.keep_letters@),
    );
    if needs_s {
        proof {
            reveal_strlit("Look for an S to extend words");
        }
        add_note(&mut notes, "Look for an S to extend words");
        push_focus_tag(&mut focus_tags, text("Find S hook"));
    }
    if chase_lengtheners {
        proof {
            reveal_strlit("Chase lengtheners (-ER/-ED/-ING/-LY) to stretch onto DW/TW");
        }
        add_note(&mut notes, "Chase lengtheners (-ER/-ED/-ING/-LY) to stretch onto DW/TW");
        push_focus_tag(&mut focus_tags, text("Chase lengtheners"));
    }
    if needs_tl {
        proof {
            reveal_strlit("Fish for a TL hitter (J/X/Z/K/H/F/W/Y)");
        }
        add_note(&mut notes, "Fish for a TL hitter (J/X/Z/K/H/F/W/Y)");
        push_focus_tag(&mut focus_tags, text("Find TL hitter"));
    }
    let mut reroll_letters: Vec<char> = pass_one.reroll_letters.clone();
    if desired_letters.len() == 0 && reroll_letters.len() == 0 {
        return None;
    }
    let ghost first = reroll_letters@;
    let dropped = drop_for_board(
        letters,
        &mut keep_flags,
        &mut keep_counts,
        target_length,
        protect_lengtheners,
        pass_one.vowel_min,
        baseline_counts,
        &mut reroll_letters,
    );
    assert(reroll_letters@.subrange(0, first.len() as int) =~= first);
    assert(reroll_letters@.subrange(first.len() as int, reroll_letters@.len() as int) =~= dropped@);
    assert(no_s_first(notes@)) by {
        reveal_strlit("Look for an S to extend words");
        reveal_strlit("Chase lengtheners (-ER/-ED/-ING/-LY) to stretch onto DW/TW");
        reveal_strlit("Fish for a TL hitter (J/X/Z/K/H/F/W/Y)");
    }
    if dropped.len() > 0 {
        proof {
            reveal_strlit("Swap ");
        }
        letters_note(&mut notes, "Swap ", &dropped, " to upgrade your multiplier letters");
        push_focus_tag(&mut focus_tags, text("Upgrade multipliers"));
    }
    let keep_letters = selected(letters, &keep_flags, true);
    let mut missing_letters: Vec<char> = Vec::new();
    let mut m: usize = 0;
    while m < desired_letters.len() && m < 10
        invariant
            m <= desired_letters@.len(),
            missing_letters@ == desired_letters@.subrange(0, m as int),
            m <= 10,
        decreases desired_letters@.len() - m,
    {
        missing_letters.push(desired_letters[m]);
        m = m + 1;
    }
    assert(missing_letters@ =~= first_n(desired_letters@, 10));
    assert(target_length >= 7 ==> forall|c: char|
        triad_letter(c) && count_of(pass_one.keep_letters@, c) == 0 ==> #[trigger] missing_letters@.contains(c)) by {
        if target_length >= 7 {
            assert forall|c: char| triad_letter(c) && count_of(pass_one.keep_letters@, c) == 0 implies #[trigger] missing_letters@.contains(c) by {
                let j = choose|j: int| 0 <= j < 10 && j < desired_letters@.len() && desired_letters@[j] == c;
                assert(missing_letters@[j] == c);
            }
        }
    }
    let probability = approximate_draw_probability(
        keep_letters.as_slice(),
        reroll_letters.as_slice(),
        desired_letters.as_slice(),
    );
    proof {
        lemma_no_balanced(notes@);
    }
    let r = RerollAdvice {
        target_word: text("Pass 2 – Target the board"),
        missing_letters,
        reroll_letters,
        keep_letters,
        estimated_score: None,
        success_probability: probability,
        phase: text("target"),
        notes,
        focus_tags,
    };
    assert(select(letters@, keep_flags@, true) == r.keep_letters@);
    Some(r)
}

/// The text of an optional word.
pub open spec fn word_view(w: Option<&str>) -> Option<Seq<char>> {
    match w {
        Some(t) => Some(t@),
        None => None,
    }
}

/// How many of letter `c` the best known word needs.
pub open spec fn need(baseline: Option<Seq<char>>, c: char) -> nat {
    match baseline {
        Some(w) => count_of(upper_text(w), c),
        None => 0,
    }
}

/// `a` is the balancing pass for this rack.
pub open spec fn first_pass(letters: Seq<char>, target: int, baseline: Option<Seq<char>>, a: RerollAdvice) -> bool {
    let vowel_min = vowel_range(letters.len() as int, target).0;
    &&& a.phase@ == "foundation"@
    &&& a.success_probability == approximate_draw_probability_spec(
        a.keep_letters@,
        a.reroll_letters@,
        a.missing_letters@,
    )
    &&& a.target_word@ == "Pass 1 – Balance rack"@
    &&& a.missing_letters@.len() <= 8
    &&& exists|f: Seq<bool>|
        f.len() == letters.len() && #[trigger] select(letters, f, true) == a.keep_letters@ && select(
            letters,
            f,
            false,
        ) == a.reroll_letters@ && drops_explained(letters, target, f)
    &&& (a.reroll_letters@.len() == 0) == views_of(a.notes@).contains(balanced_note())
    &&& need(baseline, 'A') == 0 && need(baseline, 'E') == 0 && need(baseline, 'I') == 0 && need(baseline, 'O')
        == 0 && need(baseline, 'U') == 0 ==> vowels_in(a.keep_letters@) <= vowel_range(letters.len() as int, target).1
    &&& rack_balanced(letters, target) ==> a.keep_letters@ == letters && a.reroll_letters@.len() == 0
    &&& vowels_in(a.keep_letters@) >= if vowels_in(letters) < vowel_min {
        vowels_in(letters) as int
    } else {
        vowel_min
    }
    &&& (vowels_in(letters) < vowel_min) == a.missing_letters@.contains('E')
    &&& distinct(a.missing_letters@)
    &&& tags_distinct(a.focus_tags@)
    &&& a.reroll_letters@.len() == 0 ==> has_tag(a.focus_tags@, "Fine-tune only"@)
    &&& (vowels_in(a.keep_letters@) < vowel_min) == a.missing_letters@.contains('E')
    &&& (vowels_in(a.keep_letters@) < vowel_min) == a.missing_letters@.contains('A')
    &&& (vowels_in(a.keep_letters@) < vowel_min) == a.missing_letters@.contains('I')
    &&& need(baseline, 'Q') == 0 && count_of(letters, 'Q') > 0 && count_of(letters, 'U') == 0 ==> {
        &&& count_of(a.keep_letters@, 'Q') == 0
        &&& views_of(a.notes@).contains("Dump Q (no U)"@)
        &&& !a.missing_letters@.contains('U')
    }
    &&& need(baseline, 'V') == 0 && count_of(letters, 'V') > 0 && count_of(letters, 'A') == 0 && count_of(
        letters,
        'E',
    ) == 0 && count_of(letters, 'I') == 0 && count_of(letters, 'O') == 0 ==> {
        &&& count_of(a.keep_letters@, 'V') == 0
        &&& views_of(a.notes@).contains("Drop V until you secure A/E/I/O"@)
    }
    &&& forall|i: int|
        0 <= i < 26 && count_of(letters, letter_at(i)) > 2 ==> views_of(a.notes@).contains(
            #[trigger] trim_note(letter_at(i)),
        )
}

/// `a` is the targeting pass that follows the balancing pass `p`.
pub open spec fn second_pass(vowel_min: int, target: int, p: RerollAdvice, a: RerollAdvice) -> bool {
    &&& swap_noted(p.reroll_letters@.len() as int, a)
    &&& board_kept(target, p.keep_letters@, p.reroll_letters@.len() as int, a)
    &&& !views_of(a.notes@).contains(balanced_note())
    &&& a.missing_letters@ == first_n(wish_list(p.keep_letters@, target), 10)
    &&& a.success_probability == approximate_draw_probability_spec(
        a.keep_letters@,
        a.reroll_letters@,
        wish_list(p.keep_letters@, target),
    )
    &&& vowels_in(a.keep_letters@) >= vowel_min || vowels_in(a.keep_letters@) == vowels_in(p.keep_letters@)
    &&& !lengtheners_ready(p.keep_letters@, target) ==> views_of(a.notes@).contains(
        "Chase lengtheners (-ER/-ED/-ING/-LY) to stretch onto DW/TW"@,
    )
    &&& !tl_ready(p.keep_letters@) ==> views_of(a.notes@).contains("Fish for a TL hitter (J/X/Z/K/H/F/W/Y)"@)
    &&& a.phase@ == "target"@
    &&& a.target_word@ == "Pass 2 – Target the board"@
    &&& a.missing_letters@.len() <= 10
    &&& a.reroll_letters@.len() <= p.reroll_letters@.len() + 2
    &&& a.reroll_letters@.subrange(0, p.reroll_letters@.len() as int) == p.reroll_letters@
    &&& forall|c: char| #[trigger] count_of(a.keep_letters@, c) + count_of(
        a.reroll_letters@.subrange(p.reroll_letters@.len() as int, a.reroll_letters@.len() as int),
        c,
    ) == count_of(p.keep_letters@, c)
    &&& forall|k: int|
        p.reroll_letters@.len() <= k < a.reroll_letters@.len() ==> !spec_is_glue(#[trigger] a.reroll_letters@[k])
    &&& count_of(p.keep_letters@, 'S') == 0 ==> a.missing_letters@.len() > 0 && a.missing_letters@[0] == 'S'
        && views_of(a.notes@).contains("Look for an S to extend words"@)
    &&& target >= 7 ==> forall|c: char|
        triad_letter(c) && count_of(p.keep_letters@, c) == 0 ==> #[trigger] a.missing_letters@.contains(c)
}

/// The swap note and its tag appear exactly when the targeting pass `a`
/// threw back letters after the `n` of the balancing pass; its tags never
/// repeat.
pub open spec fn swap_noted(n: int, a: RerollAdvice) -> bool {
    let x = a.reroll_letters@.subrange(n, a.reroll_letters@.len() as int);
    &&& tags_distinct(a.focus_tags@)
    &&& x.len() > 0 ==> views_of(a.notes@).contains("Swap "@ + joined(x) + " to upgrade your multiplier letters"@)
        && has_tag(a.focus_tags@, "Upgrade multipliers"@)
    &&& x.len() == 0 ==> no_s_first(a.notes@)
}

/// What the targeting pass `a` keeps of the letters `kept` that the
/// balancing pass kept (after `n` letters it threw back): still-needed
/// lengtheners, a triple-letter hitter, and both letters of every blend.
pub open spec fn board_kept(target: int, kept: Seq<char>, n: int, a: RerollAdvice) -> bool {
    &&& !lengtheners_ready(kept, target) ==> forall|k: int|
        n <= k < a.reroll_letters@.len() ==> !spec_is_lengthener(#[trigger] a.reroll_letters@[k])
    &&& tl_ready(kept) ==> tl_ready(a.keep_letters@)
    &&& forall|pk: int|
        0 <= pk < PAIR_COUNT && count_of(kept, spec_pair(pk).0) > 0 && count_of(kept, spec_pair(pk).1) > 0
            ==> count_of(a.keep_letters@, #[trigger] spec_pair(pk).0) > 0 && count_of(a.keep_letters@, spec_pair(pk).1)
            > 0
}

/// `r` is the reroll advice for this rack, target length, entry limit and
/// best known word.
pub open spec fn advised(
    letters: Seq<char>,
    target: int,
    limit: usize,
    baseline: Option<Seq<char>>,
    r: Seq<RerollAdvice>,
) -> bool {
    &&& letters.len() == 0 ==> r.len() == 0
    &&& r.len() <= limit && r.len() <= 2
    &&& forall|k: int| 0 <= k < r.len() ==> (#[trigger] r[k]).estimated_score is None
    &&& forall|k: int| 0 <= k < r.len() ==> proper((#[trigger] r[k]).success_probability)
    &&& letters.len() > 0 && limit >= 1 ==> r.len() >= 1 && first_pass(letters, target, baseline, r[0])
    &&& letters.len() > 0 && limit >= 2 ==> (r.len() == 1 <==> (r[0].reroll_letters@.len() == 0
        && board_ready(r[0].keep_letters@, target)))
    &&& letters.len() > 0 && limit >= 2 && rack_balanced(letters, target) && board_ready(letters, target)
        ==> r.len() == 1
    &&& r.len() == 2 ==> exists|f1: Seq<bool>, f2: Seq<bool>|
        f1.len() == letters.len() && f2.len() == letters.len() && #[trigger] select(letters, f1, true)
            == r[0].keep_letters@ && select(letters, f1, false) == r[0].reroll_letters@ && #[trigger] select(
            letters,
            f2,
            true,
        ) == r[1].keep_letters@ && forall|q: int| 0 <= q < letters.len() && #[trigger] f2[q] ==> f1[q]
    &&& r.len() == 2 ==> second_pass(vowel_range(letters.len() as int, target).0, target, r[0], r[1])
    &&& forall|k: int| 0 <= k < r.len() ==> glue_kept(#[trigger] r[k].keep_letters@, letters)
    &&& forall|k: int, i: int|
        0 <= k < r.len() && 0 <= i < 26 ==> #[trigger] count_of(r[k].keep_letters@, letter_at(i)) <= if need(
            baseline,
            letter_at(i),
        ) > 2 {
            need(baseline, letter_at(i))
        } else {
            2
        }
    &&& forall|k: int, i: int|
        0 <= k < r.len() && 0 <= i < 26 ==> #[trigger] count_of(r[k].keep_letters@, letter_at(i)) >= need(
            baseline,
            letter_at(i),
        ) || count_of(r[k].keep_letters@, letter_at(i)) == count_of(letters, letter_at(i))
}

/// Reroll advice for a rack: the balancing pass first, then, when the rack
/// still lacks something for the board, the targeting pass; at most `limit`
/// entries. The best known word, when given, is never broken up.
pub fn suggest_rerolls(
    letters: &[char],
    target_length: usize,
    _invalid: &Vec<String>,
    limit: usize,
    baseline_word: Option<&str>,
) -> (r: Vec<RerollAdvice>)
    requires
        all_upper(letters@),
    ensures
        advised(
            letters@,
            if target_length == 0 {
                letters@.len() as int
            } else {
                target_length as int
            },
            limit,
            word_view(baseline_word),
            r@,
        ),
{
    let mut advice: Vec<RerollAdvice> = Vec::new();
    if letters.len() == 0 {
        return advice;
    }
    let effective_target = if target_length == 0 {
        letters.len()
    } else {
        target_length
    };
    let baseline_counts: Vec<usize> = match baseline_word {
        Some(word) => letter_counts_str(word),
        None => Vec::new(),
    };
    let ghost needs = baseline_counts@;
    assert(baseline_word matches Some(w) ==> forall|i: int|
        0 <= i < 26 ==> #[trigger] required(needs, i) == count_of(upper_text(w@), letter_at(i)));
    assert(forall|i: int| 0 <= i < 26 ==> #[trigger] required(needs, i) == need(word_view(baseline_word), letter_at(i)));
    assert(letter_at(0) == 'A' && letter_at(4) == 'E' && letter_at(8) == 'I' && letter_at(14) == 'O' && letter_at(20) == 'U'
        && letter_at(16) == 'Q' && letter_at(21) == 'V');
    assert(required(needs, 0) == need(word_view(baseline_word), 'A'));
    assert(required(needs, 4) == need(word_view(baseline_word), 'E'));
    assert(required(needs, 8) == need(word_view(baseline_word), 'I'));
    assert(required(needs, 14) == need(word_view(baseline_word), 'O'));
    assert(required(needs, 20) == need(word_view(baseline_word), 'U'));
    let pass_one = analyze_pass_one(letters, effective_target, &baseline_counts);
    proof {
        lemma_select_len(letters@, pass_one.keep_flags@);
        lemma_glue_kept(letters@, pass_one.keep_flags@);
        if rack_balanced(letters@, effective_target as int) {
            lemma_select_all(letters@, pass_one.keep_flags@);
        }
        assert forall|i: int| 0 <= i < 26 implies #[trigger] count_of(pass_one.keep_letters@, letter_at(i)) <= if need(
            word_view(baseline_word),
            letter_at(i),
        ) > 2 {
            need(word_view(baseline_word), letter_at(i))
        } else {
            2
        } by {
            assert(cap_at(letters@, pass_one.keep_flags@, needs, i));
        }
    }
    if limit == 0 {
        return advice;
    }
    advice.push(pass_one.to_advice());
    if limit == 1 {
        return advice;
    }
    match analyze_pass_two(letters, effective_target, &pass_one, &baseline_counts) {
        Some(second) => {
            proof {
                let f = choose|f: Seq<bool>|
                    f.len() == letters@.len() && #[trigger] select(letters@, f, true) == second.keep_letters@
                        && protects(letters@, f, baseline_counts@) && glue_floor(letters@, f) && (forall|q: int|
                        0 <= q < letters@.len() && #[trigger] f[q] ==> pass_one.keep_flags@[q]);
                assert(select(letters@, pass_one.keep_flags@, true) == advice@[0].keep_letters@);
                lemma_glue_kept(letters@, f);
                assert forall|i: int| 0 <= i < 26 implies #[trigger] count_of(second.keep_letters@, letter_at(i)) <= if need(
                    word_view(baseline_word),
                    letter_at(i),
                ) > 2 {
                    need(word_view(baseline_word), letter_at(i))
                } else {
                    2
                } by {
                    assert(count_of(second.keep_letters@, letter_at(i)) <= count_of(pass_one.keep_letters@, letter_at(i)));
                }
            }
            advice.push(second);
        },
        None => {},
    }
    advice
}

/// A position that is thrown back leaves its letter kept fewer times than
/// the rack holds it.
proof fn lemma_unkept_fewer(l: Seq<char>, f: Seq<bool>, q: int)
    requires
        l.len() == f.len(),
        0 <= q < l.len(),
        !f[q],
    ensures
        count_of(select(l, f, true), l[q]) < count_of(l, l[q]),
    decreases l.len(),
{
    let s = select(l.drop_last(), f.drop_last(), true);
    if q == l.len() - 1 {
        lemma_count_select_le(l.drop_last(), f.drop_last(), l[q]);
    } else {
        lemma_unkept_fewer(l.drop_last(), f.drop_last(), q);
        if f.last() {
            assert(s.push(l.last()).drop_last() =~= s);
        }
    }
}

/// The letter in slot `i` is kept at most twice, or as often as the best
/// known word needs it if that is more.
pub open spec fn cap_at(l: Seq<char>, f: Seq<bool>, baseline: Seq<usize>, i: int) -> bool {
    count_of(select(l, f, true), letter_at(i)) <= if required(baseline, i) > 2 {
        required(baseline, i)
    } else {
        2
    }
}

/// Every letter is within its cap.
pub open spec fn capped(l: Seq<char>, f: Seq<bool>, baseline: Seq<usize>) -> bool {
    forall|i: int| 0 <= i < 26 ==> #[trigger] cap_at(l, f, baseline, i)
}

/// The letter in slot `i` is kept at least twice, or as often as the rack
/// holds it if that is fewer.
pub open spec fn floor_two(l: Seq<char>, f: Seq<bool>, i: int) -> bool {
    let have = count_of(l, letter_at(i));
    count_of(select(l, f, true), letter_at(i)) >= if have < 2 {
        have
    } else {
        2
    }
}

/// S and the glue consonants are thrown back only as repeats beyond two.
pub open spec fn glue_floor(l: Seq<char>, f: Seq<bool>) -> bool {
    forall|i: int| 0 <= i < 26 && spec_is_glue(letter_at(i)) ==> #[trigger] floor_two(l, f, i)
}

/// The glue floor, spelt out over the kept letters.
pub open spec fn glue_kept(kept: Seq<char>, rack: Seq<char>) -> bool {
    forall|i: int|
        0 <= i < 26 && spec_is_glue(letter_at(i)) ==> #[trigger] count_of(kept, letter_at(i)) >= if count_of(
            rack,
            letter_at(i),
        ) < 2 {
            count_of(rack, letter_at(i))
        } else {
            2
        }
}

proof fn lemma_glue_kept(l: Seq<char>, f: Seq<bool>)
    requires
        glue_floor(l, f),
    ensures
        glue_kept(select(l, f, true), l),
{
    assert forall|i: int| 0 <= i < 26 && spec_is_glue(letter_at(i)) implies #[trigger] count_of(select(l, f, true), letter_at(i)) >= if count_of(
        l,
        letter_at(i),
    ) < 2 {
        count_of(l, letter_at(i))
    } else {
        2
    } by {
        assert(floor_two(l, f, i));
    }
}

/// Throwing back a letter that is no glue consonant keeps the glue floor.
proof fn lemma_glue_floor_drop(l: Seq<char>, f: Seq<bool>, p: int)
    requires
        l.len() == f.len(),
        0 <= p < l.len(),
        glue_floor(l, f),
        !spec_is_glue(l[p]),
    ensures
        glue_floor(l, f.update(p, false)),
{
    assert forall|i: int| 0 <= i < 26 && spec_is_glue(letter_at(i)) implies #[trigger] floor_two(l, f.update(p, false), i) by {
        lemma_drop_one(l, f, p, letter_at(i));
        assert(floor_two(l, f, i));
    }
}

/// Clearing the flag of position `p` takes its letter out of the kept
/// vowel count, if it was a kept vowel.
proof fn lemma_vowels_drop(l: Seq<char>, f: Seq<bool>, p: int)
    requires
        l.len() == f.len(),
        0 <= p < l.len(),
    ensures
        vowels_in(select(l, f.update(p, false), true)) + (if f[p] && spec_is_vowel(l[p]) {
            1int
        } else {
            0int
        }) == vowels_in(select(l, f, true)),
    decreases l.len(),
{
    let g = f.update(p, false);
    let s = select(l.drop_last(), f.drop_last(), true);
    if p == l.len() - 1 {
        assert(g.drop_last() =~= f.drop_last());
        if f[p] {
            assert(s.push(l.last()).drop_last() =~= s);
        }
    } else {
        assert(g.drop_last() =~= f.drop_last().update(p, false));
        lemma_vowels_drop(l.drop_last(), f.drop_last(), p);
        let t = select(l.drop_last(), g.drop_last(), true);
        if f.last() {
            assert(s.push(l.last()).drop_last() =~= s);
            assert(t.push(l.last()).drop_last() =~= t);
        }
    }
}

/// The vowels of a sequence, letter by letter.
proof fn lemma_vowels_sum(s: Seq<char>)
    ensures
        vowels_in(s) == count_of(s, 'A') + count_of(s, 'E') + count_of(s, 'I') + count_of(s, 'O') + count_of(
            s,
            'U',
        ),
    decreases s.len(),
{
    if s.len() > 0 {
        lemma_vowels_sum(s.drop_last());
    }
}

/// Kept vowels never outnumber the rack's.
proof fn lemma_vowels_select_le(l: Seq<char>, f: Seq<bool>)
    requires
        l.len() == f.len(),
    ensures
        vowels_in(select(l, f, true)) <= vowels_in(l),
    decreases l.len(),
{
    if l.len() > 0 {
        lemma_vowels_select_le(l.drop_last(), f.drop_last());
        let s = select(l.drop_last(), f.drop_last(), true);
        if f.last() {
            assert(s.push(l.last()).drop_last() =~= s);
        }
    }
}

/// A sequence without repeats.
pub open spec fn distinct(s: Seq<char>) -> bool {
    forall|i: int, j: int| 0 <= i < j < s.len() ==> s[i] != s[j]
}

/// The balancing rules that a rack already meets: no letter more than
/// twice, no Q without U, no V without a core vowel, and vowels in range.
pub open spec fn rack_balanced(l: Seq<char>, target: int) -> bool {
    &&& forall|i: int| 0 <= i < 26 ==> #[trigger] count_of(l, letter_at(i)) <= 2
    &&& count_of(l, 'Q') > 0 ==> count_of(l, 'U') > 0
    &&& count_of(l, 'V') > 0 ==> has_core(l)
    &&& vowel_range(l.len() as int, target).0 <= vowels_in(l) <= vowel_range(l.len() as int, target).1
}

/// Why the balancing pass may throw back position `q`: its letter is held
/// more than twice; it is a Q with no U on the rack; it is a V with no A,
/// E, I or O on the rack; it is a vowel on a rack with too many vowels; or
/// it is a consonant other than S and the glue consonants on a rack with
/// too few vowels.
pub open spec fn drop_reason(l: Seq<char>, target: int, q: int) -> bool {
    ||| count_of(l, l[q]) > 2
    ||| l[q] == 'Q' && count_of(l, 'U') == 0
    ||| l[q] == 'V' && count_of(l, 'A') == 0 && count_of(l, 'E') == 0 && count_of(l, 'I') == 0 && count_of(l, 'O') == 0
    ||| spec_is_vowel(l[q]) && vowels_in(l) > vowel_range(l.len() as int, target).1
    ||| !spec_is_vowel(l[q]) && !spec_is_glue(l[q]) && vowels_in(l) < vowel_range(l.len() as int, target).0
}

/// Every thrown-back position has a reason.
pub open spec fn drops_explained(l: Seq<char>, target: int, f: Seq<bool>) -> bool {
    forall|q: int| 0 <= q < l.len() && !#[trigger] f[q] ==> drop_reason(l, target, q)
}

proof fn lemma_explained_drop(l: Seq<char>, target: int, f: Seq<bool>, p: int)
    requires
        f.len() == l.len(),
        0 <= p < l.len(),
        drops_explained(l, target, f),
        drop_reason(l, target, p),
    ensures
        drops_explained(l, target, f.update(p, false)),
{
    assert forall|q: int| 0 <= q < l.len() && !#[trigger] f.update(p, false)[q] implies drop_reason(l, target, q) by {
        if q != p {
            assert(!f[q]);
        }
    }
}

/// A letter counted in a sequence occurs in it.
proof fn lemma_count_witness(s: Seq<char>, c: char)
    requires
        count_of(s, c) > 0,
    ensures
        exists|j: int| 0 <= j < s.len() && s[j] == c,
    decreases s.len(),
{
    if s.last() != c {
        lemma_count_witness(s.drop_last(), c);
        let j = choose|j: int| 0 <= j < s.drop_last().len() && s.drop_last()[j] == c;
        assert(s[j] == c);
    } else {
        assert(s[s.len() - 1] == c);
    }
}

/// With no kept position holding a vowel, no vowel is kept.
proof fn lemma_no_vowels_kept(l: Seq<char>, f: Seq<bool>)
    requires
        l.len() == f.len(),
        forall|q: int| 0 <= q < l.len() && #[trigger] f[q] ==> !spec_is_vowel(l[q]),
    ensures
        vowels_in(select(l, f, true)) == 0,
    decreases l.len(),
{
    if l.len() > 0 {
        lemma_no_vowels_kept(l.drop_last(), f.drop_last());
        let s = select(l.drop_last(), f.drop_last(), true);
        if f.last() {
            assert(s.push(l.last()).drop_last() =~= s);
        }
    }
}

/// A letter none of whose positions is kept is not among the kept letters.
proof fn lemma_none_kept(l: Seq<char>, f: Seq<bool>, c: char)
    requires
        l.len() == f.len(),
        forall|q: int| 0 <= q < l.len() && l[q] == c ==> !f[q],
    ensures
        count_of(select(l, f, true), c) == 0,
    decreases l.len(),
{
    if l.len() > 0 {
        lemma_none_kept(l.drop_last(), f.drop_last(), c);
        let s = select(l.drop_last(), f.drop_last(), true);
        if f.last() {
            assert(s.push(l.last()).drop_last() =~= s);
        }
    }
}

/// An entry of a sequence is counted in it.
proof fn lemma_count_pos(s: Seq<char>, j: int)
    requires
        0 <= j < s.len(),
    ensures
        count_of(s, s[j]) >= 1,
    decreases s.len(),
{
    if j < s.len() - 1 {
        lemma_count_pos(s.drop_last(), j);
    }
}

/// Without A, E, I or O on the rack, none is kept.
proof fn lemma_no_core(l: Seq<char>, f: Seq<bool>)
    requires
        l.len() == f.len(),
        count_of(l, 'A') == 0 && count_of(l, 'E') == 0 && count_of(l, 'I') == 0 && count_of(l, 'O') == 0,
    ensures
        !has_core(select(l, f, true)),
{
    let k = select(l, f, true);
    if has_core(k) {
        let j = choose|j: int| 0 <= j < k.len() && is_core(#[trigger] k[j]);
        lemma_count_pos(k, j);
        lemma_count_select_le(l, f, k[j]);
    }
}

/// Distinct upper-case letters have distinct slots.
proof fn lemma_slot_letter_upper(c: char)
    requires
        is_upper(c),
    ensures
        0 <= slot_of(c) < 26,
        letter_at(slot_of(c)) == c,
{
}

/// Kept letters never outnumber the rack's.
proof fn lemma_count_select_le(l: Seq<char>, f: Seq<bool>, c: char)
    requires
        l.len() == f.len(),
    ensures
        count_of(select(l, f, true), c) <= count_of(l, c),
    decreases l.len(),
{
    if l.len() > 0 {
        lemma_count_select_le(l.drop_last(), f.drop_last(), c);
        let s = select(l.drop_last(), f.drop_last(), true);
        if f.last() {
            assert(s.push(l.last()).drop_last() =~= s);
        }
    }
}

/// The letter of a kept position is among the kept letters.
proof fn lemma_count_kept_pos(l: Seq<char>, f: Seq<bool>, p: int)
    requires
        l.len() == f.len(),
        0 <= p < l.len(),
        f[p],
    ensures
        count_of(select(l, f, true), l[p]) >= 1,
    decreases l.len(),
{
    let s = select(l.drop_last(), f.drop_last(), true);
    if p == l.len() - 1 {
        assert(s.push(l.last()).drop_last() =~= s);
    } else {
        lemma_count_kept_pos(l.drop_last(), f.drop_last(), p);
        if f.last() {
            assert(s.push(l.last()).drop_last() =~= s);
        }
    }
}

} // verus!

use vstd::prelude::*;

verus! {

/// An upper-case ASCII letter.
pub open spec fn is_upper(c: char) -> bool {
    'A' <= c && c <= 'Z'
}

/// Every character of `s` is an upper-case ASCII letter.
pub open spec fn all_upper(s: Seq<char>) -> bool {
    forall|i: int| 0 <= i < s.len() ==> #[trigger] is_upper(s[i])
}

/// The alphabet slot of an upper-case letter.
pub open spec fn slot_of(c: char) -> int {
    c as int - 'A' as int
}

/// The upper-case letter in alphabet slot `i`.
pub open spec fn letter_at(i: int) -> char {
    (('A' as int + i) as u8) as char
}

/// How many times `c` occurs in `s`.
pub open spec fn count_of(s: Seq<char>, c: char) -> nat
    decreases s.len(),
{
    if s.len() == 0 {
        0
    } else {
        count_of(s.drop_last(), c) + if s.last() == c {
            1nat
        } else {
            0nat
        }
    }
}

/// A 26-slot count table holds the letter counts of `s`.
pub open spec fn counts_match(counts: Seq<usize>, s: Seq<char>) -> bool {
    &&& counts.len() == 26
    &&& forall|i: int| 0 <= i < 26 ==> #[trigger] counts[i] == count_of(s, letter_at(i))
}

pub open spec fn spec_is_vowel(c: char) -> bool {
    c == 'A' || c == 'E' || c == 'I' || c == 'O' || c == 'U'
}

pub open spec fn spec_is_glue(c: char) -> bool {
    c == 'R' || c == 'S' || c == 'T' || c == 'L' || c == 'N' || c == 'D' || c == 'M' || c == 'P'
        || c == 'C' || c == 'H'
}

pub open spec fn spec_is_lengthener(c: char) -> bool {
    c == 'E' || c == 'R' || c == 'I' || c == 'N' || c == 'G' || c == 'L' || c == 'Y' || c == 'D'
        || c == 'S'
}

pub open spec fn spec_is_tl_hitter(c: char) -> bool {
    c == 'J' || c == 'X' || c == 'Z' || c == 'K' || c == 'H' || c == 'F' || c == 'W' || c == 'Y'
        || c == 'V' || c == 'M' || c == 'P' || c == 'C'
}

pub open spec fn spec_consonant_priority(c: char) -> i32 {
    if c == 'Q' {
        110
    } else if c == 'V' {
        95
    } else if c == 'W' {
        85
    } else if c == 'Y' {
        80
    } else if c == 'F' || c == 'H' {
        70
    } else if c == 'B' || c == 'G' {
        65
    } else if c == 'K' {
        60
    } else if c == 'J' || c == 'X' || c == 'Z' {
        55
    } else if c == 'P' || c == 'C' || c == 'M' {
        50
    } else if c == 'D' {
        40
    } else if c == 'R' || c == 'T' || c == 'L' || c == 'N' || c == 'S' {
        15
    } else {
        45
    }
}

pub proof fn lemma_letter_slot(i: int)
    requires
        0 <= i < 26,
    ensures
        is_upper(letter_at(i)),
        slot_of(letter_at(i)) == i,
{
}

pub fn char_to_index(ch: char) -> (r: usize)
    requires
        is_upper(ch),
    ensures
        r == slot_of(ch),
        r < 26,
        letter_at(r as int) == ch,
{
    (ch as u32 - 'A' as u32) as usize
}

pub fn index_to_char(idx: usize) -> (r: char)
    requires
        idx < 26,
    ensures
        r == letter_at(idx as int),
        is_upper(r),
        slot_of(r) == idx,
{
    (('A' as u8) + idx as u8) as char
}

pub fn is_vowel(ch: char) -> (r: bool)
    ensures
        r == spec_is_vowel(ch),
{
    ch == 'A' || ch == 'E' || ch == 'I' || ch == 'O' || ch == 'U'
}

pub fn is_glue_consonant(ch: char) -> (r: bool)
    ensures
        r == spec_is_glue(ch),
{
    ch == 'R' || ch == 'S' || ch == 'T' || ch == 'L' || ch == 'N' || ch == 'D' || ch == 'M'
        || ch == 'P' || ch == 'C' || ch == 'H'
}

pub fn is_lengthener_letter(ch: char) -> (r: bool)
    ensures
        r == spec_is_lengthener(ch),
{
    ch == 'E' || ch == 'R' || ch == 'I' || ch == 'N' || ch == 'G' || ch == 'L' || ch == 'Y'
        || ch == 'D' || ch == 'S'
}

pub fn is_tl_candidate(ch: char) -> (r: bool)
    ensures
        r == spec_is_tl_hitter(ch),
{
    ch == 'J' || ch == 'X' || ch == 'Z' || ch == 'K' || ch == 'H' || ch == 'F' || ch == 'W'
        || ch == 'Y' || ch == 'V' || ch == 'M' || ch == 'P' || ch == 'C'
}

/// How eagerly a consonant is thrown back: higher goes first.
pub fn consonant_drop_priority(ch: char) -> (r: i32)
    ensures
        r == spec_consonant_priority(ch),
{
    match ch {
        'Q' => 110,
        'V' => 95,
        'W' => 85,
        'Y' => 80,
        'F' | 'H' => 70,
        'B' | 'G' => 65,
        'K' => 60,
        'J' | 'X' | 'Z' => 55,
        'P' | 'C' | 'M' => 50,
        'D' => 40,
        'R' | 'T' | 'L' | 'N' | 'S' => 15,
        _ => 45,
    }
}

/// Per-letter counts of the upper-case letters in a sequence; other
/// characters are not counted.
pub fn letter_counts(letters: &[char]) -> (r: Vec<usize>)
    ensures
        counts_match(r@, letters@),
{
    let mut counts: Vec<usize> = vec![0usize; 26];
    let mut k: usize = 0;
    while k < letters.len()
        invariant
            k <= letters.len(),
            counts_match(counts@, letters@.subrange(0, k as int)),
        decreases letters.len() - k,
    {
        let ch = letters[k];
        let ghost prev = letters@.subrange(0, k as int);
        let ghost next = letters@.subrange(0, k as int + 1);
        assert(next.drop_last() =~= prev);
        if 'A' <= ch && ch <= 'Z' {
            let idx = char_to_index(ch);
            assert forall|i: int| 0 <= i < 26 implies counts[i] <= k by {
                lemma_count_le_len(prev, letter_at(i));
            }
            counts.set(idx, counts[idx] + 1);
        }
        assert forall|i: int| 0 <= i < 26 implies #[trigger] counts@[i] == count_of(
            next,
            letter_at(i),
        ) by {
            lemma_letter_slot(i);
        }
        k = k + 1;
    }
    assert(letters@.subrange(0, letters.len() as int) =~= letters@);
    counts
}

pub proof fn lemma_count_le_len(s: Seq<char>, c: char)
    ensures
        count_of(s, c) <= s.len(),
    decreases s.len(),
{
    if s.len() > 0 {
        lemma_count_le_len(s.drop_last(), c);
    }
}

} // verus!

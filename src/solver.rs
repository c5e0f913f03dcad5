use vstd::prelude::*;

use crate::dictionary::{Dictionary, lex_lt};
use crate::letters::{all_upper, is_upper, count_of, counts_match, letter_at, letter_counts, char_to_index, lemma_letter_slot};
use crate::scoring::{letter_value, value_of, upper_char};
use crate::text::{chars_of, trimmed, trim_text};

verus! {

/// A board bonus on one position of the word being played.
#[derive(Debug, Clone, Copy, PartialEq, Eq, Structural)]
pub enum Bonus {
    Plain,
    DoubleLetter,
    TripleLetter,
    DoubleWord,
    TripleWord,
}

pub open spec fn letter_factor(b: Bonus) -> int {
    match b {
        Bonus::DoubleLetter => 2,
        Bonus::TripleLetter => 3,
        _ => 1,
    }
}

pub open spec fn word_factor(b: Bonus) -> int {
    match b {
        Bonus::DoubleWord => 2,
        Bonus::TripleWord => 3,
        _ => 1,
    }
}

/// The bonus on word position `i`; positions past the list have none.
pub open spec fn bonus_at(bonuses: Seq<Bonus>, i: int) -> Bonus {
    if 0 <= i < bonuses.len() {
        bonuses[i]
    } else {
        Bonus::Plain
    }
}

/// The code of a bonus, as written in requests.
pub open spec fn code_of(b: Bonus) -> Seq<char> {
    match b {
        Bonus::Plain => seq!['N', 'O', 'N', 'E'],
        Bonus::DoubleLetter => seq!['D', 'L'],
        Bonus::TripleLetter => seq!['T', 'L'],
        Bonus::DoubleWord => seq!['D', 'W'],
        Bonus::TripleWord => seq!['T', 'W'],
    }
}

/// The bonus named by a code, ignoring case; anything else is no bonus.
pub open spec fn bonus_named(t: Seq<char>) -> Bonus {
    let u = t.map_values(|c: char| upper_char(c));
    if u == seq!['D', 'L'] {
        Bonus::DoubleLetter
    } else if u == seq!['T', 'L'] {
        Bonus::TripleLetter
    } else if u == seq!['D', 'W'] {
        Bonus::DoubleWord
    } else if u == seq!['T', 'W'] {
        Bonus::TripleWord
    } else {
        Bonus::Plain
    }
}

impl Bonus {
    /// Reads a bonus code, ignoring surrounding space and case; an unknown
    /// code is no bonus.
    pub fn from_str_raw(value: &str) -> (r: Bonus)
        ensures
            r == bonus_named(trimmed(value@)),
    {
        let t = chars_of(trim_text(value));
        let ghost u = t@.map_values(|c: char| upper_char(c));
        if t.len() != 2 {
            assert(u.len() != 2);
            return Bonus::Plain;
        }
        let a = upper_ascii(t[0]);
        let b = upper_ascii(t[1]);
        assert(u[0] == a && u[1] == b);
        if a == 'D' && b == 'L' {
            assert(u =~= seq!['D', 'L']);
            Bonus::DoubleLetter
        } else if a == 'T' && b == 'L' {
            assert(u =~= seq!['T', 'L']);
            Bonus::TripleLetter
        } else if a == 'D' && b == 'W' {
            assert(u =~= seq!['D', 'W']);
            Bonus::DoubleWord
        } else if a == 'T' && b == 'W' {
            assert(u =~= seq!['T', 'W']);
            Bonus::TripleWord
        } else {
            assert(u[0] != seq!['D', 'L'][0] || u[1] != seq!['D', 'L'][1]);
            assert(u[0] != seq!['T', 'L'][0] || u[1] != seq!['T', 'L'][1]);
            assert(u[0] != seq!['D', 'W'][0] || u[1] != seq!['D', 'W'][1]);
            assert(u[0] != seq!['T', 'W'][0] || u[1] != seq!['T', 'W'][1]);
            Bonus::Plain
        }
    }

    /// The code of the bonus: NONE, DL, TL, DW or TW.
    pub fn as_code(self) -> (r: &'static str)
        ensures
            r@ == code_of(self),
    {
        match self {
            Bonus::Plain => {
                proof { reveal_strlit("NONE"); }
                "NONE"
            },
            Bonus::DoubleLetter => {
                proof { reveal_strlit("DL"); }
                "DL"
            },
            Bonus::TripleLetter => {
                proof { reveal_strlit("TL"); }
                "TL"
            },
            Bonus::DoubleWord => {
                proof { reveal_strlit("DW"); }
                "DW"
            },
            Bonus::TripleWord => {
                proof { reveal_strlit("TW"); }
                "TW"
            },
        }
    }

    pub fn letter_multiplier(self) -> (r: u32)
        ensures
            r == letter_factor(self),
    {
        match self {
            Bonus::DoubleLetter => 2,
            Bonus::TripleLetter => 3,
            _ => 1,
        }
    }

    pub fn word_multiplier(self) -> (r: u32)
        ensures
            r == word_factor(self),
    {
        match self {
            Bonus::DoubleWord => 2,
            Bonus::TripleWord => 3,
            _ => 1,
        }
    }
}

/// Points of one tile, zero for a character that is no letter.
pub open spec fn points(c: char) -> int {
    match value_of(upper_char(c)) {
        Some(v) => v as int,
        None => 0,
    }
}

/// Every character of the word is a letter with a point value.
pub open spec fn all_valued(w: Seq<char>) -> bool {
    forall|i: int| 0 <= i < w.len() ==> (#[trigger] value_of(upper_char(w[i]))) is Some
}

/// Sum of the tile points of a word, each times its position's letter bonus.
pub open spec fn face_sum(w: Seq<char>, bonuses: Seq<Bonus>) -> int
    decreases w.len(),
{
    if w.len() == 0 {
        0
    } else {
        face_sum(w.drop_last(), bonuses) + points(w.last()) * letter_factor(
            bonus_at(bonuses, w.len() - 1),
        )
    }
}

/// Product of the word bonuses on the first `n` positions.
pub open spec fn word_product(n: int, bonuses: Seq<Bonus>) -> int
    decreases n,
{
    if n <= 0 {
        1
    } else {
        word_product(n - 1, bonuses) * word_factor(bonus_at(bonuses, n - 1))
    }
}

/// `x`, capped at the largest `u32`.
pub open spec fn saturate(x: int) -> int {
    if x > u32::MAX {
        u32::MAX as int
    } else {
        x
    }
}

/// The score of a word: round multiplier times word bonuses times the
/// letter-bonus sum, capped at the largest `u32`.
pub open spec fn word_score(w: Seq<char>, bonuses: Seq<Bonus>, round: int) -> int {
    saturate(round * word_product(w.len() as int, bonuses) * face_sum(w, bonuses))
}

/// Every letter of `w` is upper case and occurs in `w` no more often than
/// on the rack.
pub open spec fn fits(w: Seq<char>, rack: Seq<char>) -> bool {
    &&& all_upper(w)
    &&& forall|i: int| 0 <= i < 26 ==> #[trigger] count_of(w, letter_at(i)) <= count_of(rack, letter_at(i))
}

/// The word is one of the excluded words.
pub open spec fn excluded(invalid: Seq<String>, w: Seq<char>) -> bool {
    exists|i: int| 0 <= i < invalid.len() && (#[trigger] invalid[i])@ == w
}

/// A dictionary word that the solver may offer for this request.
pub open spec fn eligible(
    w: Seq<char>,
    rack: Seq<char>,
    target: Option<usize>,
    invalid: Seq<String>,
) -> bool {
    &&& (target matches Some(t) ==> w.len() == t)
    &&& w.len() <= rack.len()
    &&& !excluded(invalid, w)
    &&& fits(w, rack)
}

/// Recommendation order: higher score first, then alphabetical.
pub open spec fn ranks_before(s1: int, w1: Seq<char>, s2: int, w2: Seq<char>) -> bool {
    s1 > s2 || (s1 == s2 && lex_lt(w1, w2))
}

/// A playable word and its score.
#[derive(Debug, Clone)]
pub struct RackCandidate {
    pub word: String,
    pub score: u32,
}

proof fn lemma_saturate_mul(a: int, b: int)
    requires
        a >= 0,
        b >= 0,
    ensures
        saturate(saturate(a) * b) == saturate(a * b),
{
    if a > u32::MAX && b >= 1 {
        assert(u32::MAX * b >= u32::MAX) by (nonlinear_arith)
            requires
                b >= 1,
        ;
        assert(a * b >= a) by (nonlinear_arith)
            requires
                b >= 1,
                a >= 0,
        ;
    }
}

proof fn lemma_word_product_pos(n: int, bonuses: Seq<Bonus>)
    ensures
        word_product(n, bonuses) >= 1,
    decreases n,
{
    if n > 0 {
        lemma_word_product_pos(n - 1, bonuses);
        let p = word_product(n - 1, bonuses);
        let f = word_factor(bonus_at(bonuses, n - 1));
        assert(p * f >= 1) by (nonlinear_arith)
            requires
                p >= 1,
                f >= 1,
        ;
    }
}

proof fn lemma_face_sum_nonneg(w: Seq<char>, bonuses: Seq<Bonus>)
    ensures
        face_sum(w, bonuses) >= 0,
    decreases w.len(),
{
    if w.len() > 0 {
        lemma_face_sum_nonneg(w.drop_last(), bonuses);
    }
}

proof fn lemma_upper_valued(c: char)
    requires
        is_upper(c),
    ensures
        value_of(upper_char(c)) is Some,
{
}

fn sat_mul(a: u32, b: u32) -> (r: u32)
    ensures
        r == saturate(a * b),
{
    proof {
        assert(a * b <= 0xffff_ffff * 0xffff_ffff) by (nonlinear_arith)
            requires
                a <= 0xffff_ffff,
                b <= 0xffff_ffff,
        ;
    }
    let p: u64 = a as u64 * b as u64;
    if p > u32::MAX as u64 {
        u32::MAX
    } else {
        p as u32
    }
}

/// The score of a word on these bonuses in this round, or `None` when a
/// character of it has no point value.
pub fn score_word_with_bonuses(word: &[char], bonuses: &[Bonus], round_multiplier: u32) -> (r:
    Option<u32>)
    ensures
        r is Some <==> all_valued(word@),
        r matches Some(s) ==> s == word_score(word@, bonuses@, round_multiplier as int),
{
    let mut sum: u32 = 0;
    let mut product: u32 = 1;
    let mut i: usize = 0;
    while i < word.len()
        invariant
            i <= word.len(),
            all_valued(word@.subrange(0, i as int)),
            sum == saturate(face_sum(word@.subrange(0, i as int), bonuses@)),
            product == saturate(word_product(i as int, bonuses@)),
        decreases word.len() - i,
    {
        let ghost prev = word@.subrange(0, i as int);
        let ghost next = word@.subrange(0, i as int + 1);
        assert(next.drop_last() =~= prev);
        let base = match letter_value(word[i]) {
            Some(v) => v as u32,
            None => {
                assert(!all_valued(word@)) by {
                    assert(value_of(upper_char(word@[i as int])) is None);
                }
                return None;
            },
        };
        let bonus = if i < bonuses.len() {
            bonuses[i]
        } else {
            Bonus::Plain
        };
        let add = base * bonus.letter_multiplier();
        proof {
            lemma_face_sum_nonneg(prev, bonuses@);
            lemma_word_product_pos(i as int, bonuses@);
            lemma_saturate_mul(word_product(i as int, bonuses@), word_factor(bonus));
        }
        sum = if sum as u64 + add as u64 > u32::MAX as u64 {
            u32::MAX
        } else {
            sum + add
        };
        product = sat_mul(product, bonus.word_multiplier());
        assert(all_valued(next)) by {
            assert forall|j: int| 0 <= j < next.len() implies (#[trigger] value_of(
                upper_char(next[j]),
            )) is Some by {
                if j < i {
                    assert(next[j] == prev[j]);
                }
            }
        }
        i = i + 1;
    }
    assert(word@.subrange(0, word.len() as int) =~= word@);
    let ghost f = face_sum(word@, bonuses@);
    let ghost p = word_product(word.len() as int, bonuses@);
    proof {
        lemma_face_sum_nonneg(word@, bonuses@);
        lemma_word_product_pos(word.len() as int, bonuses@);
        lemma_saturate_mul(f, saturate(p));
        lemma_saturate_mul(p, f);
        assert(f * saturate(p) == saturate(p) * f) by (nonlinear_arith);
        assert(p * f >= 0) by (nonlinear_arith)
            requires
                p >= 1,
                f >= 0,
        ;
        lemma_saturate_mul(p * f, round_multiplier as int);
        assert(p * f * round_multiplier == round_multiplier * p * f) by (nonlinear_arith);
    }
    let scaled = sat_mul(sum, product);
    Some(sat_mul(scaled, round_multiplier))
}

/// Whether a word can be laid from a rack with these letter counts.
pub fn word_fits(word: &[char], rack_counts: &Vec<usize>) -> (r: bool)
    requires
        rack_counts@.len() == 26,
    ensures
        r == (all_upper(word@) && forall|i: int|
            0 <= i < 26 ==> #[trigger] count_of(word@, letter_at(i)) <= rack_counts@[i]),
{
    let mut need: Vec<usize> = vec![0usize; 26];
    let mut k: usize = 0;
    while k < word.len()
        invariant
            k <= word.len(),
            rack_counts@.len() == 26,
            all_upper(word@.subrange(0, k as int)),
            counts_match(need@, word@.subrange(0, k as int)),
            forall|i: int| 0 <= i < 26 ==> #[trigger] need@[i] <= rack_counts@[i],
        decreases word.len() - k,
    {
        let ch = word[k];
        let ghost prev = word@.subrange(0, k as int);
        let ghost next = word@.subrange(0, k as int + 1);
        assert(next.drop_last() =~= prev);
        if !('A' <= ch && ch <= 'Z') {
            assert(!all_upper(word@)) by {
                assert(!is_upper(word@[k as int]));
            }
            return false;
        }
        let idx = char_to_index(ch);
        if need[idx] >= rack_counts[idx] {
            proof {
                lemma_count_prefix(word@, k as int + 1, ch);
                assert(count_of(next, ch) == need@[idx as int] + 1);
            }
            return false;
        }
        need.set(idx, need[idx] + 1);
        assert forall|i: int| 0 <= i < 26 implies #[trigger] need@[i] == count_of(next, letter_at(i)) by {
            lemma_letter_slot(i);
        }
        assert(all_upper(next)) by {
            assert forall|j: int| 0 <= j < next.len() implies #[trigger] is_upper(next[j]) by {
                if j < k {
                    assert(next[j] == prev[j]);
                }
            }
        }
        k = k + 1;
    }
    assert(word@.subrange(0, word.len() as int) =~= word@);
    assert forall|i: int| 0 <= i < 26 implies #[trigger] count_of(word@, letter_at(i))
        <= rack_counts@[i] by {
        assert(need@[i] == count_of(word@, letter_at(i)));
    }
    true
}

/// `r` is the recommendation list for this request: words of `dict` that
/// the rack can lay under the filters, exactly scored, strictly ranked, at
/// most `max(limit, 1)` of them, and any word left out ranks after a full
/// list.
pub open spec fn recommended(
    dict: Seq<Seq<char>>,
    rack: Seq<char>,
    target: Option<usize>,
    invalid: Seq<String>,
    limit: usize,
    bonuses: Seq<Bonus>,
    round: int,
    r: Seq<RackCandidate>,
) -> bool {
    let cap: int = if limit > 0 {
        limit as int
    } else {
        1
    };
    &&& rack.len() == 0 ==> r.len() == 0
    &&& r.len() <= cap
    &&& forall|k: int|
        0 <= k < r.len() ==> {
            &&& dict.contains(#[trigger] r[k].word@)
            &&& eligible(r[k].word@, rack, target, invalid)
            &&& r[k].score == word_score(r[k].word@, bonuses, round)
        }
    &&& forall|j: int, k: int|
        0 <= j < k < r.len() ==> ranks_before(
            #[trigger] r[j].score as int,
            r[j].word@,
            #[trigger] r[k].score as int,
            r[k].word@,
        )
    &&& rack.len() > 0 ==> forall|d: int|
        0 <= d < dict.len() && eligible(#[trigger] dict[d], rack, target, invalid) ==> (exists|k: int|
            0 <= k < r.len() && r[k].word@ == dict[d]) || (r.len() == cap && forall|k: int|
            0 <= k < r.len() ==> ranks_before(
                #[trigger] r[k].score as int,
                r[k].word@,
                word_score(dict[d], bonuses, round),
                dict[d],
            ))
}

/// Candidate `i` goes before candidate `j`: higher score, then earlier entry.
spec fn better(scores: Seq<u32>, idx: Seq<usize>, i: int, j: int) -> bool {
    scores[i] > scores[j] || (scores[i] == scores[j] && idx[i] < idx[j])
}

fn is_excluded(invalid: &Vec<String>, w: &String) -> (r: bool)
    ensures
        r == excluded(invalid@, w@),
{
    let mut i: usize = 0;
    while i < invalid.len()
        invariant
            i <= invalid.len(),
            forall|j: int| 0 <= j < i ==> (#[trigger] invalid@[j])@ != w@,
        decreases invalid.len() - i,
    {
        if invalid[i] == *w {
            return true;
        }
        i = i + 1;
    }
    false
}

/// The best-scoring dictionary words that the rack can lay, at most
/// `max(limit, 1)` of them, highest score first and alphabetical among
/// equal scores. A word is offered when it has the target length (if one is
/// given), is no longer than the rack, is not excluded, and uses no letter
/// more often than the rack holds it.
pub fn solve_rack(
    dictionary: &Dictionary,
    letters: &[char],
    target_length: Option<usize>,
    invalid: &Vec<String>,
    limit: usize,
    bonuses: &[Bonus],
    round_multiplier: u32,
) -> (r: Vec<RackCandidate>)
    requires
        dictionary.wf(),
    ensures
        recommended(
            dictionary@,
            letters@,
            target_length,
            invalid@,
            limit,
            bonuses@,
            round_multiplier as int,
            r@,
        ),
{
    let mut out: Vec<RackCandidate> = Vec::new();
    if letters.len() == 0 {
        return out;
    }
    let rack_counts = letter_counts(letters);
    let words = dictionary.words();
    let ghost dict = dictionary@;
    let mut scores: Vec<u32> = Vec::new();
    let mut idx: Vec<usize> = Vec::new();
    let mut d: usize = 0;
    while d < words.len()
        invariant
            dictionary.wf(),
            words@.map_values(|w: String| w@) == dict,
            dict == dictionary@,
            d <= words@.len(),
            counts_match(rack_counts@, letters@),
            scores@.len() == idx@.len(),
            forall|i: int|
                0 <= i < idx@.len() ==> {
                    &&& #[trigger] idx@[i] < d
                    &&& eligible(dict[idx@[i] as int], letters@, target_length, invalid@)
                    &&& scores@[i] == word_score(
                        dict[idx@[i] as int],
                        bonuses@,
                        round_multiplier as int,
                    )
                },
            forall|i: int, j: int| 0 <= i < j < idx@.len() ==> #[trigger] idx@[i] < #[trigger] idx@[j],
            forall|e: int|
                0 <= e < d && eligible(#[trigger] dict[e], letters@, target_length, invalid@)
                    ==> exists|i: int| 0 <= i < idx@.len() && idx@[i] == e,
        decreases words@.len() - d,
    {
        let w = chars_of(&words[d]);
        assert(w@ == dict[d as int]);
        let mut ok = match target_length {
            Some(t) => w.len() == t,
            None => true,
        };
        ok = ok && w.len() <= letters.len();
        ok = ok && !is_excluded(invalid, &words[d]);
        if ok {
            let f = word_fits(&w, &rack_counts);
            assert(f == fits(w@, letters@)) by {
                if f {
                    assert forall|i: int| 0 <= i < 26 implies #[trigger] count_of(w@, letter_at(i))
                        <= count_of(letters@, letter_at(i)) by {
                        assert(rack_counts@[i] == count_of(letters@, letter_at(i)));
                    }
                }
                if fits(w@, letters@) {
                    assert forall|i: int| 0 <= i < 26 implies #[trigger] count_of(w@, letter_at(i))
                        <= rack_counts@[i] by {
                        assert(rack_counts@[i] == count_of(letters@, letter_at(i)));
                    }
                }
            }
            ok = f;
        }
        assert(ok == eligible(dict[d as int], letters@, target_length, invalid@));
        if ok {
            assert(all_valued(w@)) by {
                assert forall|j: int| 0 <= j < w@.len() implies (#[trigger] value_of(
                    upper_char(w@[j]),
                )) is Some by {
                    lemma_upper_valued(w@[j]);
                }
            }
            let ghost old_idx = idx@;
            let sc = score_word_with_bonuses(&w, bonuses, round_multiplier);
            match sc {
                Some(v) => {
                    scores.push(v);
                    idx.push(d);
                },
                None => {},
            }
            proof {
                assert forall|e: int|
                    0 <= e < d + 1 && eligible(#[trigger] dict[e], letters@, target_length, invalid@)
                    implies exists|i: int| 0 <= i < idx@.len() && idx@[i] == e by {
                    if e == d {
                        assert(idx@[idx@.len() - 1] == e);
                    } else {
                        let i = choose|i: int| 0 <= i < old_idx.len() && old_idx[i] == e;
                        assert(idx@[i] == e);
                    }
                }
            }
        }
        d = d + 1;
    }
    let m = idx.len();
    let cap: usize = if limit > 0 {
        limit
    } else {
        1
    };
    let mut taken: Vec<bool> = vec![false; m];
    let ghost mut picked: Seq<int> = Seq::empty();
    let mut exhausted = false;
    while !exhausted && out.len() < cap
        invariant
            exhausted ==> forall|t: int| 0 <= t < m ==> #[trigger] taken@[t],
            dictionary.wf(),
            words@.map_values(|w: String| w@) == dict,
            dict == dictionary@,
            m == idx@.len(),
            scores@.len() == m,
            taken@.len() == m,
            out@.len() <= cap,
            picked.len() == out@.len(),
            forall|i: int|
                0 <= i < m ==> {
                    &&& #[trigger] idx@[i] < dict.len()
                    &&& eligible(dict[idx@[i] as int], letters@, target_length, invalid@)
                    &&& scores@[i] == word_score(
                        dict[idx@[i] as int],
                        bonuses@,
                        round_multiplier as int,
                    )
                },
            forall|i: int, j: int| 0 <= i < j < m ==> #[trigger] idx@[i] < #[trigger] idx@[j],
            forall|e: int|
                0 <= e < dict.len() && eligible(#[trigger] dict[e], letters@, target_length, invalid@)
                    ==> exists|i: int| 0 <= i < idx@.len() && idx@[i] == e,
            forall|k: int|
                0 <= k < picked.len() ==> {
                    &&& 0 <= #[trigger] picked[k] < m
                    &&& taken@[picked[k]]
                    &&& out@[k].word@ == dict[idx@[picked[k]] as int]
                    &&& out@[k].score == scores@[picked[k]]
                },
            forall|i: int| 0 <= i < m && #[trigger] taken@[i] ==> exists|k: int| 0 <= k < picked.len() && picked[k] == i,
            forall|k: int, i: int|
                0 <= k < picked.len() && 0 <= i < m && !#[trigger] taken@[i] ==> better(
                    scores@,
                    idx@,
                    #[trigger] picked[k],
                    i,
                ),
            forall|j: int, k: int|
                0 <= j < k < picked.len() ==> better(scores@, idx@, #[trigger] picked[j], #[trigger] picked[k]),
        decreases cap - out@.len() + if exhausted {
            0int
        } else {
            1int
        },
    {
        let mut found = false;
        let mut best: usize = 0;
        let mut i: usize = 0;
        while i < m
            invariant
                m == idx@.len(),
                scores@.len() == m,
                taken@.len() == m,
                i <= m,
                found ==> best < i && !taken@[best as int],
                found ==> forall|t: int| 0 <= t < i && !taken@[t] && t != best ==> #[trigger] better(scores@, idx@, best as int, t),
                !found ==> forall|t: int| 0 <= t < i ==> #[trigger] taken@[t],
                forall|a: int, b: int| 0 <= a < b < m ==> #[trigger] idx@[a] < #[trigger] idx@[b],
            decreases m - i,
        {
            if !taken[i] {
                if !found || scores[i] > scores[best] || (scores[i] == scores[best] && idx[i]
                    < idx[best]) {
                    let ghost prev_best = best as int;
                    let ghost prev_found = found;
                    best = i;
                    found = true;
                    assert forall|t: int| 0 <= t < i + 1 && !taken@[t] && t != best implies #[trigger] better(
                        scores@,
                        idx@,
                        best as int,
                        t,
                    ) by {
                        if t != prev_best {
                            assert(prev_found);
                            assert(better(scores@, idx@, prev_best, t));
                        }
                    }
                } else {
                    assert(better(scores@, idx@, best as int, i as int));
                }
            }
            i = i + 1;
        }
        if !found {
            exhausted = true;
            continue;
        }
        let ghost old_taken = taken@;
        let ghost old_picked = picked;
        taken.set(best, true);
        let pos = idx[best];
        let word = words[pos].clone();
        assert(word@ == dict[pos as int]);
        out.push(RackCandidate { word, score: scores[best] });
        proof {
            picked = picked.push(best as int);
            assert forall|t: int| 0 <= t < m && #[trigger] taken@[t] implies exists|k: int|
                0 <= k < picked.len() && picked[k] == t by {
                if t == best {
                    assert(picked[picked.len() - 1] == t);
                } else {
                    assert(old_taken[t]);
                    let k = choose|k: int| 0 <= k < old_picked.len() && old_picked[k] == t;
                    assert(picked[k] == t);
                }
            }
        }
    }
    proof {
        assert forall|j: int, k: int| 0 <= j < k < out@.len() implies ranks_before(
            #[trigger] out@[j].score as int,
            out@[j].word@,
            #[trigger] out@[k].score as int,
            out@[k].word@,
        ) by {
            assert(better(scores@, idx@, picked[j], picked[k]));
            if idx@[picked[j]] < idx@[picked[k]] {
                assert(lex_lt(dict[idx@[picked[j]] as int], dict[idx@[picked[k]] as int]));
            }
        }
        assert forall|k: int| 0 <= k < out@.len() implies {
            &&& dictionary@.contains(#[trigger] out@[k].word@)
            &&& eligible(out@[k].word@, letters@, target_length, invalid@)
            &&& out@[k].score == word_score(out@[k].word@, bonuses@, round_multiplier as int)
        } by {
            let i = picked[k];
            assert(0 <= i < m);
            assert(idx@[i] < dict.len());
            assert(dict[idx@[i] as int] == out@[k].word@);
        }
        assert forall|e: int|
            0 <= e < dict.len() && eligible(#[trigger] dict[e], letters@, target_length, invalid@)
            implies (exists|k: int| 0 <= k < out@.len() && out@[k].word@ == dict[e]) || (out@.len()
                == cap && forall|k: int|
                0 <= k < out@.len() ==> ranks_before(
                    #[trigger] out@[k].score as int,
                    out@[k].word@,
                    word_score(dict[e], bonuses@, round_multiplier as int),
                    dict[e],
                )) by {
            let i = choose|i: int| 0 <= i < idx@.len() && idx@[i] == e;
            if taken@[i] {
                let k = choose|k: int| 0 <= k < picked.len() && picked[k] == i;
                assert(out@[k].word@ == dict[e]);
            } else {
                assert forall|k: int| 0 <= k < out@.len() implies ranks_before(
                    #[trigger] out@[k].score as int,
                    out@[k].word@,
                    word_score(dict[e], bonuses@, round_multiplier as int),
                    dict[e],
                ) by {
                    assert(better(scores@, idx@, picked[k], i));
                    if idx@[picked[k]] < idx@[i] {
                        assert(lex_lt(dict[idx@[picked[k]] as int], dict[idx@[i] as int]));
                    }
                }
            }
        }
    }
    out
}

/// Sum of the tile points of a word, with no bonuses.
pub open spec fn letter_total(w: Seq<char>) -> int
    decreases w.len(),
{
    if w.len() == 0 {
        0
    } else {
        letter_total(w.drop_last()) + points(w.last())
    }
}

/// No position of the list carries a bonus.
pub open spec fn all_plain(bonuses: Seq<Bonus>) -> bool {
    forall|i: int| 0 <= i < bonuses.len() ==> #[trigger] bonuses[i] == Bonus::Plain
}

proof fn lemma_plain_parts(w: Seq<char>, bonuses: Seq<Bonus>, n: int)
    requires
        all_plain(bonuses),
    ensures
        face_sum(w, bonuses) == letter_total(w),
        word_product(n, bonuses) == 1,
    decreases w.len() + if n > 0 { n } else { 0 },
{
    if w.len() > 0 {
        lemma_plain_parts(w.drop_last(), bonuses, 0);
    }
    if n > 0 {
        lemma_plain_parts(Seq::empty(), bonuses, n - 1);
    }
}

/// Without bonuses a word scores its letter points times the round
/// multiplier (capped at the largest `u32`).
pub proof fn lemma_plain_score(w: Seq<char>, bonuses: Seq<Bonus>, round: int)
    requires
        all_plain(bonuses),
    ensures
        word_score(w, bonuses, round) == saturate(round * letter_total(w)),
{
    lemma_plain_parts(w, bonuses, w.len() as int);
}

/// Round two scores exactly double round one, for the same word and
/// bonuses, whenever the doubled score fits in a `u32`.
pub proof fn lemma_round_two_doubles(w: Seq<char>, bonuses: Seq<Bonus>)
    requires
        2 * word_score(w, bonuses, 1) <= u32::MAX,
    ensures
        word_score(w, bonuses, 2) == 2 * word_score(w, bonuses, 1),
{
    let p = word_product(w.len() as int, bonuses);
    let f = face_sum(w, bonuses);
    lemma_word_product_pos(w.len() as int, bonuses);
    lemma_face_sum_nonneg(w, bonuses);
    assert(1 * p * f == p * f) by (nonlinear_arith);
    assert(2 * p * f == 2 * (p * f)) by (nonlinear_arith);
}

/// Counting in a prefix never gives more than counting in the whole.
proof fn lemma_count_prefix(s: Seq<char>, n: int, c: char)
    requires
        0 <= n <= s.len(),
    ensures
        count_of(s.subrange(0, n), c) <= count_of(s, c),
    decreases s.len(),
{
    if n < s.len() {
        assert(s.drop_last().subrange(0, n) =~= s.subrange(0, n));
        lemma_count_prefix(s.drop_last(), n, c);
    } else {
        assert(s.subrange(0, n) =~= s);
    }
}

fn upper_ascii(c: char) -> (r: char)
    ensures
        r == upper_char(c),
{
    if 'a' <= c && c <= 'z' {
        ((c as u32 - 32) as u8) as char
    } else {
        c
    }
}

} // verus!

use vstd::prelude::*;
use vstd::arithmetic::power2::{pow2, lemma_pow2_unfold, lemma_pow2_strictly_increases, lemma_pow2_adds, lemma2_to64, lemma2_to64_rest};

use crate::letters::{count_of, letter_at, is_upper, counts_match, letter_counts, char_to_index, lemma_letter_slot};

verus! {

/// The chance of drawing at least one wanted tile, as exact tile counts.
#[derive(Debug, Clone, Copy, PartialEq, Eq)]
pub enum DrawChance {
    /// No wanted tile is left in the bag.
    Impossible,
    /// Every possible draw holds a wanted tile.
    Certain,
    /// The chance is `1 - miss / total`: `miss` draws hold no wanted tile
    /// out of `total` equally likely draws.
    Odds { miss: u128, total: u128 },
}

/// Tiles of each letter in a full bag.
pub open spec fn bag_of(i: int) -> nat {
    if i == 0 { 9 } else if i == 1 { 2 } else if i == 2 { 2 } else if i == 3 { 4 }
    else if i == 4 { 12 } else if i == 5 { 2 } else if i == 6 { 3 } else if i == 7 { 2 }
    else if i == 8 { 9 } else if i == 9 { 1 } else if i == 10 { 1 } else if i == 11 { 4 }
    else if i == 12 { 2 } else if i == 13 { 6 } else if i == 14 { 8 } else if i == 15 { 2 }
    else if i == 16 { 1 } else if i == 17 { 6 } else if i == 18 { 4 } else if i == 19 { 6 }
    else if i == 20 { 4 } else if i == 21 { 2 } else if i == 22 { 2 } else if i == 23 { 1 }
    else if i == 24 { 2 } else if i == 25 { 1 } else { 0 }
}

/// Tiles of the letter in slot `i` left in the bag once `kept` is taken out,
/// never below zero.
pub open spec fn remaining(kept: Seq<char>, i: int) -> nat {
    let c = count_of(kept, letter_at(i));
    if bag_of(i) > c { (bag_of(i) - c) as nat } else { 0 }
}

/// Tiles left in the first `n` letter slots.
pub open spec fn remaining_total(kept: Seq<char>, n: int) -> nat
    decreases n,
{
    if n <= 0 { 0 } else { remaining_total(kept, n - 1) + remaining(kept, n - 1) }
}

/// Tiles left in the first `n` letter slots whose letter is wanted.
pub open spec fn remaining_wanted(kept: Seq<char>, wanted: Seq<char>, n: int) -> nat
    decreases n,
{
    if n <= 0 {
        0
    } else {
        remaining_wanted(kept, wanted, n - 1) + if wanted.contains(letter_at(n - 1)) {
            remaining(kept, n - 1)
        } else {
            0
        }
    }
}

/// Full-bag tiles in the first `n` letter slots.
pub open spec fn bag_prefix(n: int) -> nat
    decreases n,
{
    if n <= 0 { 0 } else { bag_prefix(n - 1) + bag_of(n - 1) }
}

/// The number of ways to pick `k` of `n` items.
pub open spec fn combinations(n: nat, k: nat) -> nat
    decreases n,
{
    if k == 0 {
        1
    } else if n == 0 {
        0
    } else {
        combinations((n - 1) as nat, (k - 1) as nat) + combinations((n - 1) as nat, k)
    }
}

/// Some upper-case letter occurs in `s`.
pub open spec fn has_upper(s: Seq<char>) -> bool {
    exists|j: int| 0 <= j < s.len() && is_upper(#[trigger] s[j])
}

/// What drawing `draws` tiles from the bag without `kept` gives, when at
/// least one upper-case letter is wanted.
pub open spec fn chance_of(kept: Seq<char>, wanted: Seq<char>, draws: nat) -> DrawChance {
    let hit = remaining_wanted(kept, wanted, 26);
    let all = remaining_total(kept, 26);
    if hit == 0 {
        DrawChance::Impossible
    } else if all - hit < draws {
        DrawChance::Certain
    } else {
        DrawChance::Odds {
            miss: combinations((all - hit) as nat, draws) as u128,
            total: combinations(all, draws) as u128,
        }
    }
}

pub proof fn lemma_choose_bound(n: nat, k: nat)
    ensures
        combinations(n, k) <= pow2(n),
    decreases n,
{
    if k != 0 && n != 0 {
        lemma_choose_bound((n - 1) as nat, (k - 1) as nat);
        lemma_choose_bound((n - 1) as nat, k);
        lemma_pow2_unfold(n);
    } else if k == 0 {
        vstd::arithmetic::power2::lemma_pow2_pos(n);
    }
}

/// Picking from more items never gives fewer ways.
pub proof fn lemma_combinations_grow(n: nat, m: nat, k: nat)
    requires
        n <= m,
    ensures
        combinations(n, k) <= combinations(m, k),
    decreases m,
{
    if n < m {
        lemma_combinations_grow(n, (m - 1) as nat, k);
        if k > 0 {
            assert(combinations(m, k) == combinations((m - 1) as nat, (k - 1) as nat) + combinations((m - 1) as nat, k));
        }
    }
}

/// There is at least one way to pick no more items than there are.
pub proof fn lemma_combinations_pos(n: nat, k: nat)
    requires
        k <= n,
    ensures
        combinations(n, k) >= 1,
    decreases n,
{
    if k > 0 {
        lemma_combinations_pos((n - 1) as nat, (k - 1) as nat);
    }
}

/// An exact chance is a proper fraction: no more misses than draws, and
/// at least one draw.
pub open spec fn proper(c: Option<DrawChance>) -> bool {
    c matches Some(DrawChance::Odds { miss, total }) ==> miss <= total && total > 0
}

proof fn lemma_choose_fits(n: nat, k: nat)
    requires
        n <= 100,
    ensures
        combinations(n, k) < 0x1_0000_0000_0000_0000_0000_0000_0000,
{
    lemma_choose_bound(n, k);
    lemma2_to64();
    lemma2_to64_rest();
    lemma_pow2_adds(64, 36);
    if n < 100 {
        lemma_pow2_strictly_increases(n, 100);
    }
}

proof fn lemma_choose_beyond(n: nat, k: nat)
    requires
        k > n,
    ensures
        combinations(n, k) == 0,
    decreases n,
{
    if n > 0 {
        lemma_choose_beyond((n - 1) as nat, (k - 1) as nat);
        lemma_choose_beyond((n - 1) as nat, k);
    }
}

proof fn lemma_bag_size()
    ensures
        bag_prefix(26) == 98,
{
    assert(bag_prefix(0) == 0);
    assert(bag_prefix(1) == 9);
    assert(bag_prefix(2) == 11);
    assert(bag_prefix(3) == 13);
    assert(bag_prefix(4) == 17);
    assert(bag_prefix(5) == 29);
    assert(bag_prefix(6) == 31);
    assert(bag_prefix(7) == 34);
    assert(bag_prefix(8) == 36);
    assert(bag_prefix(9) == 45);
    assert(bag_prefix(10) == 46);
    assert(bag_prefix(11) == 47);
    assert(bag_prefix(12) == 51);
    assert(bag_prefix(13) == 53);
    assert(bag_prefix(14) == 59);
    assert(bag_prefix(15) == 67);
    assert(bag_prefix(16) == 69);
    assert(bag_prefix(17) == 70);
    assert(bag_prefix(18) == 76);
    assert(bag_prefix(19) == 80);
    assert(bag_prefix(20) == 86);
    assert(bag_prefix(21) == 90);
    assert(bag_prefix(22) == 92);
    assert(bag_prefix(23) == 94);
    assert(bag_prefix(24) == 95);
    assert(bag_prefix(25) == 97);
    assert(bag_prefix(26) == 98);
}

/// Full-bag tiles of the letter in slot `idx`.
fn bag_count(idx: usize) -> (r: usize)
    requires
        idx < 26,
    ensures
        r == bag_of(idx as int),
{
    match idx {
        0 => 9, 1 => 2, 2 => 2, 3 => 4, 4 => 12, 5 => 2, 6 => 3, 7 => 2, 8 => 9,
        9 => 1, 10 => 1, 11 => 4, 12 => 2, 13 => 6, 14 => 8, 15 => 2, 16 => 1,
        17 => 6, 18 => 4, 19 => 6, 20 => 4, 21 => 2, 22 => 2, 23 => 1, 24 => 2,
        _ => 1,
    }
}

/// The number of ways to pick `k` of `n` items, by rows of Pascal's triangle.
pub fn binomial(n: u32, k: u32) -> (r: u128)
    requires
        n <= 100,
    ensures
        r == combinations(n as nat, k as nat),
{
    if k > n {
        proof { lemma_choose_beyond(n as nat, k as nat); }
        return 0;
    }
    let kk: usize = k as usize;
    let mut row: Vec<u128> = vec![0u128; kk + 1];
    row.set(0, 1);
    assert forall|j: int| 0 <= j <= kk implies #[trigger] row@[j] == combinations(0, j as nat) by {}
    let mut i: u32 = 0;
    while i < n
        invariant
            i <= n <= 100,
            kk == k,
            row@.len() == kk + 1,
            forall|j: int| 0 <= j <= kk ==> #[trigger] row@[j] == combinations(i as nat, j as nat),
        decreases n - i,
    {
        let mut j: usize = kk;
        while j > 0
            invariant
                i < n <= 100,
                j <= kk,
                row@.len() == kk + 1,
                forall|t: int| 0 <= t <= j ==> #[trigger] row@[t] == combinations(i as nat, t as nat),
                forall|t: int| j < t <= kk ==> #[trigger] row@[t] == combinations(
                    (i + 1) as nat,
                    t as nat,
                ),
            decreases j,
        {
            proof {
                lemma_choose_fits((i + 1) as nat, j as nat);
            }
            let v = row[j] + row[j - 1];
            row.set(j, v);
            j = j - 1;
        }
        i = i + 1;
    }
    row[kk]
}

/// The chance of drawing at least one of `desired` when `reroll` is thrown
/// back and as many tiles are drawn from a full bag without `keep`.
/// `None` when nothing is thrown back or no letter is wanted.
pub fn approximate_draw_probability(keep: &[char], reroll: &[char], desired: &[char]) -> (r:
    Option<DrawChance>)
    ensures
        reroll@.len() == 0 || !has_upper(desired@) ==> r is None,
        reroll@.len() > 0 && has_upper(desired@) ==> r == Some(
            chance_of(keep@, desired@, reroll@.len()),
        ),
        proper(r),
{
    if reroll.len() == 0 || desired.len() == 0 {
        return None;
    }
    let kept = letter_counts(keep);
    // which letter slots are wanted
    let mut wanted: Vec<bool> = vec![false; 26];
    let mut any = false;
    let mut d: usize = 0;
    while d < desired.len()
        invariant
            d <= desired.len(),
            wanted@.len() == 26,
            forall|i: int| 0 <= i < 26 ==> #[trigger] wanted@[i] == desired@.subrange(
                0,
                d as int,
            ).contains(letter_at(i)),
            any == has_upper(desired@.subrange(0, d as int)),
        decreases desired.len() - d,
    {
        let ch = desired[d];
        let ghost prev = desired@.subrange(0, d as int);
        let ghost next = desired@.subrange(0, d as int + 1);
        if 'A' <= ch && ch <= 'Z' {
            let idx = char_to_index(ch);
            wanted.set(idx, true);
            any = true;
            assert(next[d as int] == ch);
        }
        assert forall|i: int| 0 <= i < 26 implies #[trigger] wanted@[i] == next.contains(
            letter_at(i),
        ) by {
            lemma_letter_slot(i);
            if next.contains(letter_at(i)) {
                let w = choose|w: int| 0 <= w < next.len() && next[w] == letter_at(i);
                if w < d {
                    assert(prev[w] == letter_at(i));
                }
            }
            if prev.contains(letter_at(i)) {
                let w = choose|w: int| 0 <= w < prev.len() && prev[w] == letter_at(i);
                assert(next[w] == letter_at(i));
            }
        }
        assert(any == has_upper(next)) by {
            if has_upper(next) {
                let w = choose|w: int| 0 <= w < next.len() && is_upper(#[trigger] next[w]);
                if w < d {
                    assert(prev[w] == next[w]);
                }
            }
            if has_upper(prev) {
                let w = choose|w: int| 0 <= w < prev.len() && is_upper(#[trigger] prev[w]);
                assert(prev[w] == next[w]);
            }
        }
        d = d + 1;
    }
    assert(desired@.subrange(0, desired.len() as int) =~= desired@);
    if !any {
        return None;
    }
    let mut hit: u32 = 0;
    let mut all: u32 = 0;
    let mut s: usize = 0;
    while s < 26
        invariant
            s <= 26,
            counts_match(kept@, keep@),
            wanted@.len() == 26,
            forall|i: int| 0 <= i < 26 ==> #[trigger] wanted@[i] == desired@.contains(letter_at(i)),
            all == remaining_total(keep@, s as int),
            hit == remaining_wanted(keep@, desired@, s as int),
            hit <= all <= bag_prefix(s as int),
            bag_prefix(s as int) <= 12 * s,
        decreases 26 - s,
    {
        let full = bag_count(s);
        let left: usize = if full > kept[s] { full - kept[s] } else { 0 };
        all = all + left as u32;
        if wanted[s] {
            hit = hit + left as u32;
        }
        s = s + 1;
    }
    proof {
        lemma_bag_size();
    }
    if hit == 0 {
        return Some(DrawChance::Impossible);
    }
    let draws: usize = reroll.len();
    let missable = all - hit;
    if (missable as usize) < draws {
        return Some(DrawChance::Certain);
    }
    let miss = binomial(missable, draws as u32);
    let total = binomial(all, draws as u32);
    proof {
        lemma_combinations_grow(missable as nat, all as nat, draws as nat);
        lemma_combinations_pos(all as nat, draws as nat);
    }
    Some(DrawChance::Odds { miss, total })
}

} // verus!

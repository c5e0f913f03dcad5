use vstd::prelude::*;

use crate::advisor::{RerollAdvice, advised, suggest_rerolls};
use crate::dictionary::{Dictionary, upper_text};
use crate::letters::all_upper;
use crate::scoring::upper_char;
use crate::solver::{Bonus, RackCandidate, bonus_named, recommended, solve_rack};
use crate::text::{chars_of, string_of, trim_text, trimmed, views_of};

verus! {

/// Recommendations returned per request.
pub const DEFAULT_LIMIT: usize = 40;

/// Reroll advice entries returned per request.
pub const REROLL_SUGGESTION_LIMIT: usize = 6;

/// A solve request as the command boundary hands it over.
#[derive(Debug, Clone)]
pub struct SolveRackRequest {
    pub rack_letters: Vec<String>,
    pub target_word_length: Option<u8>,
    pub invalid_words: Vec<String>,
    pub rack_bonuses: Vec<String>,
    pub round: Option<u8>,
}

/// Why a request was rejected.
#[derive(Debug, Clone, Copy, PartialEq, Eq, Structural)]
pub enum RequestError {
    EmptyRack,
    TargetOutOfRange,
    RoundOutOfRange,
}

impl RequestError {
    /// The message shown to the user.
    pub fn message(&self) -> (r: String)
        ensures
            *self == RequestError::EmptyRack ==> r@ == "Add at least one rack letter before solving."@,
            *self == RequestError::TargetOutOfRange ==> r@ == "Target word length must be between 2 and 15."@,
            *self == RequestError::RoundOutOfRange ==> r@ == "Round must be between 1 and 5."@,
    {
        match self {
            RequestError::EmptyRack => String::from_str("Add at least one rack letter before solving."),
            RequestError::TargetOutOfRange => String::from_str("Target word length must be between 2 and 15."),
            RequestError::RoundOutOfRange => String::from_str("Round must be between 1 and 5."),
        }
    }
}

/// The answer to a valid request.
#[derive(Debug, Clone)]
pub struct SolvedRack {
    pub rack_letters: Vec<char>,
    pub target_word_length: Option<u8>,
    pub rack_bonuses: Vec<Bonus>,
    pub round: u8,
    /// The excluded words, trimmed and in upper case.
    pub excluded_words: Vec<String>,
    pub recommendations: Vec<RackCandidate>,
    pub reroll_advice: Vec<RerollAdvice>,
}

/// An ASCII letter of either case.
pub open spec fn is_ascii_letter(c: char) -> bool {
    ('A' <= c && c <= 'Z') || ('a' <= c && c <= 'z')
}

/// The target length a request names, as a length.
pub open spec fn target_of(t: Option<u8>) -> Option<usize> {
    match t {
        Some(v) => Some(v as usize),
        None => None,
    }
}

/// The rack a request names: of each entry its first character, when that
/// is an ASCII letter, in upper case.
pub open spec fn rack_of(entries: Seq<Seq<char>>) -> Seq<char>
    decreases entries.len(),
{
    if entries.len() == 0 {
        Seq::empty()
    } else {
        let rest = rack_of(entries.drop_last());
        let e = entries.last();
        if e.len() > 0 && is_ascii_letter(e[0]) {
            rest.push(upper_char(e[0]))
        } else {
            rest
        }
    }
}

/// The exclusion list a request names: each word trimmed and in upper case,
/// blank ones skipped.
pub open spec fn excludes(words: Seq<String>, w: Seq<char>) -> bool {
    exists|i: int|
        0 <= i < words.len() && w.len() > 0 && w == upper_text(trimmed(#[trigger] words[i]@))
}

proof fn lemma_rack_upper(entries: Seq<Seq<char>>)
    ensures
        all_upper(rack_of(entries)),
        rack_of(entries).len() <= entries.len(),
    decreases entries.len(),
{
    if entries.len() > 0 {
        lemma_rack_upper(entries.drop_last());
    }
}

/// The rack letters of a request.
pub fn normalize_rack(entries: &Vec<String>) -> (r: Vec<char>)
    ensures
        r@ == rack_of(views_of(entries@)),
        all_upper(r@),
{
    let mut out: Vec<char> = Vec::new();
    let mut i: usize = 0;
    while i < entries.len()
        invariant
            i <= entries@.len(),
            out@ == rack_of(views_of(entries@).subrange(0, i as int)),
        decreases entries@.len() - i,
    {
        let cs = chars_of(entries[i].as_str());
        assert(views_of(entries@).subrange(0, i as int + 1).drop_last() =~= views_of(entries@).subrange(0, i as int));
        assert(views_of(entries@).subrange(0, i as int + 1).last() == cs@);
        if cs.len() > 0 {
            let c = cs[0];
            if ('A' <= c && c <= 'Z') || ('a' <= c && c <= 'z') {
                let u = if 'a' <= c && c <= 'z' { ((c as u32 - 32) as u8) as char } else { c };
                out.push(u);
            }
        }
        i = i + 1;
    }
    assert(views_of(entries@).subrange(0, i as int) =~= views_of(entries@));
    proof {
        lemma_rack_upper(views_of(entries@));
    }
    out
}

/// The excluded words of a request, trimmed and in upper case.
pub fn normalize_invalid(words: &Vec<String>) -> (r: Vec<String>)
    ensures
        forall|w: Seq<char>| #[trigger] views_of(r@).contains(w) <==> excludes(words@, w),
{
    let mut out: Vec<String> = Vec::new();
    let mut i: usize = 0;
    while i < words.len()
        invariant
            i <= words@.len(),
            forall|w: Seq<char>| #[trigger] views_of(out@).contains(w) <==> exists|k: int|
                0 <= k < i && w.len() > 0 && w == upper_text(trimmed(#[trigger] words@[k]@)),
        decreases words@.len() - i,
    {
        let t = trim_text(words[i].as_str());
        let cs = chars_of(t);
        let mut up: Vec<char> = Vec::new();
        let mut j: usize = 0;
        while j < cs.len()
            invariant
                j <= cs@.len(),
                up@ == upper_text(cs@.subrange(0, j as int)),
            decreases cs@.len() - j,
        {
            let c = cs[j];
            let u = if 'a' <= c && c <= 'z' { ((c as u32 - 32) as u8) as char } else { c };
            up.push(u);
            assert(upper_text(cs@.subrange(0, j as int + 1)) =~= upper_text(cs@.subrange(0, j as int)).push(u));
            j = j + 1;
        }
        assert(cs@.subrange(0, j as int) =~= cs@);
        let ghost old_v = views_of(out@);
        let ghost word = upper_text(trimmed(words@[i as int]@));
        if up.len() > 0 {
            out.push(string_of(&up));
            assert(views_of(out@) =~= old_v.push(word));
        }
        assert forall|w: Seq<char>| #[trigger] views_of(out@).contains(w) <==> exists|k: int|
            0 <= k < i + 1 && w.len() > 0 && w == upper_text(trimmed(#[trigger] words@[k]@)) by {
            if exists|k: int| 0 <= k < i + 1 && w.len() > 0 && w == upper_text(trimmed(#[trigger] words@[k]@)) {
                let k = choose|k: int| 0 <= k < i + 1 && w.len() > 0 && w == upper_text(trimmed(#[trigger] words@[k]@));
                if k < i {
                    assert(old_v.contains(w));
                    let q = choose|q: int| 0 <= q < old_v.len() && old_v[q] == w;
                    assert(views_of(out@)[q] == w);
                } else {
                    assert(views_of(out@)[views_of(out@).len() - 1] == w);
                }
            }
            if views_of(out@).contains(w) {
                let q = choose|q: int| 0 <= q < views_of(out@).len() && views_of(out@)[q] == w;
                if q < old_v.len() {
                    assert(old_v[q] == w);
                    assert(old_v.contains(w));
                }
            }
        }
        i = i + 1;
    }
    out
}

/// The bonus codes of a request.
pub fn normalize_bonuses(codes: &Vec<String>) -> (r: Vec<Bonus>)
    ensures
        r@.len() == codes@.len(),
        forall|i: int| 0 <= i < codes@.len() ==> #[trigger] r@[i] == bonus_named(trimmed(codes@[i]@)),
{
    let mut out: Vec<Bonus> = Vec::new();
    let mut i: usize = 0;
    while i < codes.len()
        invariant
            i <= codes@.len(),
            out@.len() == i,
            forall|k: int| 0 <= k < i ==> #[trigger] out@[k] == bonus_named(trimmed(codes@[k]@)),
        decreases codes@.len() - i,
    {
        out.push(Bonus::from_str_raw(codes[i].as_str()));
        i = i + 1;
    }
    out
}

/// Validates a request and solves it: the ranked recommendations for the
/// rack, and reroll advice around the best of them.
pub fn solve_request(dictionary: &Dictionary, request: &SolveRackRequest) -> (r: Result<
    SolvedRack,
    RequestError,
>)
    requires
        dictionary.wf(),
    ensures
        ({
            let rack = rack_of(views_of(request.rack_letters@));
            let round = match request.round {
                Some(v) => v,
                None => 1u8,
            };
            &&& rack.len() == 0 ==> r == Err::<SolvedRack, RequestError>(RequestError::EmptyRack)
            &&& rack.len() > 0 && (request.target_word_length matches Some(t) && (t < 2 || t > 15))
                ==> r == Err::<SolvedRack, RequestError>(RequestError::TargetOutOfRange)
            &&& rack.len() > 0 && !(request.target_word_length matches Some(t) && (t < 2 || t > 15))
                && (round < 1 || round > 5) ==> r == Err::<SolvedRack, RequestError>(
                RequestError::RoundOutOfRange,
            )
            &&& 0 < rack.len() && !(request.target_word_length matches Some(t) && (t < 2 || t
                > 15)) && 1 <= round <= 5 ==> r is Ok
            &&& r matches Ok(s) ==> {
                &&& s.rack_letters@ == rack
                &&& s.round == round
                &&& s.target_word_length == request.target_word_length
                &&& s.rack_bonuses@.len() == request.rack_bonuses@.len()
                &&& forall|i: int|
                    0 <= i < s.rack_bonuses@.len() ==> #[trigger] s.rack_bonuses@[i] == bonus_named(
                        trimmed(request.rack_bonuses@[i]@),
                    )
                &&& forall|w: Seq<char>| #[trigger] views_of(s.excluded_words@).contains(w) <==> excludes(
                    request.invalid_words@,
                    w,
                )
                &&& recommended(
                    dictionary@,
                    rack,
                    target_of(request.target_word_length),
                    s.excluded_words@,
                    DEFAULT_LIMIT,
                    s.rack_bonuses@,
                    round as int,
                    s.recommendations@,
                )
                &&& advised(
                    rack,
                    match request.target_word_length {
                        Some(t) => t as int,
                        None => rack.len() as int,
                    },
                    REROLL_SUGGESTION_LIMIT,
                    if s.recommendations@.len() > 0 {
                        Some(s.recommendations@[0].word@)
                    } else {
                        None
                    },
                    s.reroll_advice@,
                )
            }
        }),
{
    let letters = normalize_rack(&request.rack_letters);
    if letters.len() == 0 {
        return Err(RequestError::EmptyRack);
    }
    match request.target_word_length {
        Some(t) => {
            if t < 2 || t > 15 {
                return Err(RequestError::TargetOutOfRange);
            }
        },
        None => {},
    }
    let round: u8 = match request.round {
        Some(v) => v,
        None => 1,
    };
    if round < 1 || round > 5 {
        return Err(RequestError::RoundOutOfRange);
    }
    let invalid = normalize_invalid(&request.invalid_words);
    let bonuses = normalize_bonuses(&request.rack_bonuses);
    let target: Option<usize> = match request.target_word_length {
        Some(t) => Some(t as usize),
        None => None,
    };
    let recommendations = solve_rack(
        dictionary,
        letters.as_slice(),
        target,
        &invalid,
        DEFAULT_LIMIT,
        bonuses.as_slice(),
        round as u32,
    );
    let reroll_target: usize = match target {
        Some(t) => t,
        None => letters.len(),
    };
    let reroll_advice = if recommendations.len() > 0 {
        suggest_rerolls(
            letters.as_slice(),
            reroll_target,
            &invalid,
            REROLL_SUGGESTION_LIMIT,
            Some(recommendations[0].word.as_str()),
        )
    } else {
        suggest_rerolls(letters.as_slice(), reroll_target, &invalid, REROLL_SUGGESTION_LIMIT, None)
    };
    Ok(SolvedRack {
        rack_letters: letters,
        target_word_length: request.target_word_length,
        rack_bonuses: bonuses,
        round,
        excluded_words: invalid,
        recommendations,
        reroll_advice,
    })
}

} // verus!

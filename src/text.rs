use vstd::prelude::*;

use crate::dictionary::lex_lt;

verus! {

/// What `str::trim` leaves of a text: its characters without leading and
/// trailing white space.
pub uninterp spec fn trimmed(s: Seq<char>) -> Seq<char>;

/// The lines of a text as `str::lines` splits it.
pub uninterp spec fn text_lines(s: Seq<char>) -> Seq<Seq<char>>;

/// Relies on `str::lines`: the text split at line ends.
#[verifier::external_body]
pub(crate) fn split_lines(text: &str) -> (r: Vec<String>)
    ensures
        r@.map_values(|l: String| l@) == text_lines(text@),
{
    text.lines().map(|l| l.to_string()).collect()
}

/// Every character is ASCII.
pub open spec fn is_ascii_text(s: Seq<char>) -> bool {
    forall|i: int| 0 <= i < s.len() ==> (#[trigger] s[i] as u32) < 128
}

/// Relies on `slice::sort` of `String`s, which orders by bytes; on ASCII
/// text that is the order of the characters.
#[verifier::external_body]
pub(crate) fn sort_words(v: &mut Vec<String>)
    requires
        forall|i: int| 0 <= i < old(v)@.len() ==> is_ascii_text(#[trigger] old(v)@[i]@),
    ensures
        final(v)@.len() == old(v)@.len(),
        forall|w: Seq<char>| #[trigger] views_of(final(v)@).contains(w) <==> views_of(old(v)@).contains(w),
        forall|i: int, j: int|
            0 <= i < j < final(v)@.len() ==> (#[trigger] final(v)@[i])@ == (#[trigger] final(v)@[j])@
                || lex_lt(final(v)@[i]@, final(v)@[j]@),
{
    v.sort();
}

/// The texts of a list of strings.
pub open spec fn views_of(v: Seq<String>) -> Seq<Seq<char>> {
    v.map_values(|s: String| s@)
}

/// Relies on `str::chars`: the characters of a text, in order.
#[verifier::external_body]
pub(crate) fn chars_of(s: &str) -> (r: Vec<char>)
    ensures
        r@ == s@,
{
    s.chars().collect()
}

/// Relies on `String: FromIterator<char>`: the text made of these characters.
#[verifier::external_body]
pub(crate) fn string_of(cs: &[char]) -> (r: String)
    ensures
        r@ == cs@,
{
    cs.iter().collect()
}

/// Relies on `str::trim`: the text without leading and trailing white space.
#[verifier::external_body]
pub(crate) fn trim_text(s: &str) -> (r: &str)
    ensures
        r@ == trimmed(s@),
{
    s.trim()
}

} // verus!

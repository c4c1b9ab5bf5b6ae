//! Fuzzy subsequence matching, from an outside matcher. The outcome is a
//! function of the two texts alone; the library's filtering and ordering
//! logic is verified on top of it.

use vstd::prelude::*;

verus! {

/// What the fuzzy matcher returns for a choice text and a search pattern:
/// a score and the matched character positions, or nothing.
pub uninterp spec fn fuzzy_match_of(choice: Seq<char>, pattern: Seq<char>) -> Option<
    (i64, Seq<usize>),
>;

/// Relies on fuzzy_matcher's `SkimMatcherV2` in its default configuration:
/// the outcome depends on the choice and pattern texts alone, and matched
/// positions index characters of the choice.
#[verifier::external_body]
pub fn fuzzy_indices(choice: &str, pattern: &str) -> (r: Option<(i64, Vec<usize>)>)
    ensures
        match r {
            Some(p) => fuzzy_match_of(choice@, pattern@) matches Some(q) && q.0 == p.0 && q.1
                == p.1@ && forall|k: int| 0 <= k < p.1@.len() ==> p.1@[k] < choice@.len(),
            None => fuzzy_match_of(choice@, pattern@) is None,
        },
{
    let matcher = fuzzy_matcher::skim::SkimMatcherV2::default();
    fuzzy_matcher::FuzzyMatcher::fuzzy_indices(&matcher, choice, pattern)
}

} // verus!

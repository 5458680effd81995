//! The judgement of a pattern against what a scan observed.

use crate::observed::{is_observed, ObservedTerms};
use crate::pattern::{Pattern, PatternModel};
use vstd::prelude::*;
use vstd::utf8::encode_utf8;

verus! {

/// Every one of `terms` is observed.
pub open spec fn all_observed(terms: Seq<Seq<char>>, observed: Set<Seq<u8>>) -> bool {
    forall|i: int| 0 <= i < terms.len() ==> is_observed(#[trigger] terms[i], observed)
}

/// One of `groups` fires: all of its terms are observed.
pub open spec fn some_group_fires(groups: Seq<Seq<Seq<char>>>, observed: Set<Seq<u8>>) -> bool {
    exists|g: int| 0 <= g < groups.len() && all_observed(#[trigger] groups[g], observed)
}

/// The formula of a pattern: all positive terms are observed, and no negative
/// group fires.
pub open spec fn satisfied(pattern: PatternModel, observed: Set<Seq<u8>>) -> bool {
    all_observed(pattern.positive_terms, observed) && !some_group_fires(
        pattern.negative_groups,
        observed,
    )
}

/// Tells whether every one of `terms` was observed.
pub fn all_terms_observed(terms: &Vec<String>, observed: &ObservedTerms) -> (all: bool)
    ensures
        all == all_observed(terms.deep_view(), observed@),
{
    let mut i: usize = 0;
    while i < terms.len()
        invariant
            i <= terms.len(),
            forall|j: int| 0 <= j < i ==> is_observed(#[trigger] terms.deep_view()[j], observed@),
        decreases terms.len() - i,
    {
        if !observed.contains(terms[i].as_str()) {
            proof {
                assert(terms.deep_view()[i as int] == terms[i as int]@);
            }
            return false;
        }
        proof {
            assert(terms.deep_view()[i as int] == terms[i as int]@);
        }
        i = i + 1;
    }
    true
}

/// Judges one pattern against what a scan observed.
pub fn evaluate(pattern: &Pattern, observed: &ObservedTerms) -> (matched: bool)
    ensures
        matched == satisfied(pattern@, observed@),
{
    if !all_terms_observed(&pattern.positive_terms, observed) {
        return false;
    }
    let mut g: usize = 0;
    while g < pattern.negative_groups.len()
        invariant
            g <= pattern.negative_groups.len(),
            forall|j: int|
                0 <= j < g ==> !all_observed(
                    #[trigger] pattern.negative_groups.deep_view()[j],
                    observed@,
                ),
        decreases pattern.negative_groups.len() - g,
    {
        proof {
            assert(pattern.negative_groups.deep_view()[g as int]
                == pattern.negative_groups[g as int].deep_view());
        }
        if all_terms_observed(&pattern.negative_groups[g], observed) {
            return false;
        }
        g = g + 1;
    }
    true
}

} // verus!

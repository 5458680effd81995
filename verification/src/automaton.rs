//! The term automaton: one index over every term, and the leftmost-longest
//! scan that it answers.

use crate::error::MatcherError;
use crate::observed::ObservedTerms;
use aho_corasick::{AhoCorasick, AhoCorasickBuilder, BuildError, MatchKind};
use vstd::prelude::*;
use vstd::slice::slice_subrange;
use vstd::utf8::encode_utf8;

verus! {

/// Declares `aho_corasick::AhoCorasick`, the automaton itself, as a type of
/// which nothing is known but what the items below state.
#[verifier::external_type_specification]
#[verifier::external_body]
pub struct ExAhoCorasick(AhoCorasick);

/// Declares `aho_corasick::BuildError`, with which the builder refuses, as a
/// type of which nothing is known.
#[verifier::external_type_specification]
#[verifier::external_body]
pub struct ExBuildError(BuildError);

/// The terms that an automaton indexes, as byte strings, in the order in
/// which they were handed to its builder.
pub uninterp spec fn automaton_terms(automaton: AhoCorasick) -> Seq<Seq<u8>>;

/// Whether an automaton was made by a builder on which nothing but the
/// leftmost-longest match kind was set.
pub uninterp spec fn resolves_leftmost_longest(automaton: AhoCorasick) -> bool;

/// Whether the automaton's builder accepts a vocabulary, given as the byte
/// strings of its terms in order. It refuses one that is too large for its
/// identifiers: too many terms, a term that is too long, or too many states.
pub uninterp spec fn builder_accepts(terms: Seq<Seq<u8>>) -> bool;

/// `term` stands in `hay` at offset `at`.
pub open spec fn occurs_at(hay: Seq<u8>, at: int, term: Seq<u8>) -> bool {
    &&& 0 <= at
    &&& at + term.len() <= hay.len()
    &&& hay.subrange(at, at + term.len()) == term
}

/// The length of the longest of `terms` that stands in `hay` at `at`, or zero
/// where none of them does.
pub open spec fn longest_at(terms: Seq<Seq<u8>>, hay: Seq<u8>, at: int) -> nat
    decreases terms.len(),
{
    if terms.len() == 0 {
        0
    } else {
        let rest = longest_at(terms.drop_last(), hay, at);
        if occurs_at(hay, at, terms.last()) && terms.last().len() > rest {
            terms.last().len()
        } else {
            rest
        }
    }
}

/// A longest term that stands at `at` ends inside `hay`, and is one of the
/// terms.
pub proof fn lemma_longest_at_is_a_term(terms: Seq<Seq<u8>>, hay: Seq<u8>, at: int)
    ensures
        longest_at(terms, hay, at) > 0 ==> exists|k: int|
            0 <= k < terms.len() && occurs_at(hay, at, #[trigger] terms[k]) && terms[k].len()
                == longest_at(terms, hay, at),
        longest_at(terms, hay, at) > 0 ==> 0 <= at && at + longest_at(terms, hay, at) <= hay.len(),
        forall|k: int|
            0 <= k < terms.len() && occurs_at(hay, at, #[trigger] terms[k]) ==> terms[k].len()
                <= longest_at(terms, hay, at),
    decreases terms.len(),
{
    if terms.len() > 0 {
        let init = terms.drop_last();
        lemma_longest_at_is_a_term(init, hay, at);
        let rest = longest_at(init, hay, at);
        if occurs_at(hay, at, terms.last()) && terms.last().len() > rest {
            assert(terms[terms.len() - 1] == terms.last());
        } else if rest > 0 {
            let k = choose|k: int|
                0 <= k < init.len() && occurs_at(hay, at, #[trigger] init[k]) && init[k].len()
                    == rest;
            assert(terms[k] == init[k]);
        }
        assert forall|k: int|
            0 <= k < terms.len() && occurs_at(hay, at, #[trigger] terms[k]) implies terms[k].len()
            <= longest_at(terms, hay, at) by {
            if k < init.len() {
                assert(terms[k] == init[k]);
            }
        }
    }
}

/// The matches of a scan of `hay` that starts at `from`, as pairs of start and
/// end offset: the leftmost match comes first, of the terms that stand at its
/// start the longest is taken, and the scan goes on where the match ends.
pub open spec fn leftmost_longest(terms: Seq<Seq<u8>>, hay: Seq<u8>, from: int) -> Seq<(int, int)>
    decreases hay.len() - from,
{
    if from < 0 || from >= hay.len() {
        Seq::empty()
    } else {
        let n = longest_at(terms, hay, from);
        if n == 0 {
            leftmost_longest(terms, hay, from + 1)
        } else {
            proof {
                lemma_longest_at_is_a_term(terms, hay, from);
            }
            seq![(from, from + n)] + leftmost_longest(terms, hay, from + n)
        }
    }
}

/// Every match of a scan lies inside `hay`, at or after `from`, and is not
/// empty.
pub proof fn lemma_matches_lie_inside(terms: Seq<Seq<u8>>, hay: Seq<u8>, from: int)
    ensures
        forall|k: int|
            0 <= k < leftmost_longest(terms, hay, from).len() ==> {
                let m = #[trigger] leftmost_longest(terms, hay, from)[k];
                0 <= from <= m.0 < m.1 <= hay.len()
            },
    decreases hay.len() - from,
{
    if 0 <= from < hay.len() {
        let n = longest_at(terms, hay, from);
        lemma_longest_at_is_a_term(terms, hay, from);
        let all = leftmost_longest(terms, hay, from);
        if n == 0 {
            lemma_matches_lie_inside(terms, hay, from + 1);
            assert(all == leftmost_longest(terms, hay, from + 1));
        } else {
            lemma_matches_lie_inside(terms, hay, from + n);
            let rest = leftmost_longest(terms, hay, from + n);
            assert(all == seq![(from, from + n)] + rest);
            assert forall|k: int| 0 <= k < all.len() implies {
                let m = #[trigger] all[k];
                0 <= from <= m.0 < m.1 <= hay.len()
            } by {
                if k > 0 {
                    assert(all[k] == rest[k - 1]);
                }
            }
        }
    }
}

/// The texts that a scan of `hay` observes: what stands between the offsets
/// of each match.
pub open spec fn observed_texts(terms: Seq<Seq<u8>>, hay: Seq<u8>) -> Set<Seq<u8>> {
    Set::new(
        |text: Seq<u8>|
            exists|k: int|
                0 <= k < leftmost_longest(terms, hay, 0).len() && hay.subrange(
                    (#[trigger] leftmost_longest(terms, hay, 0)[k]).0,
                    leftmost_longest(terms, hay, 0)[k].1,
                ) == text,
    )
}

/// The UTF-8 encoding of each term.
pub open spec fn encoded(terms: Seq<Seq<char>>) -> Seq<Seq<u8>> {
    terms.map_values(|term: Seq<char>| encode_utf8(term))
}

/// Indexes `terms` for leftmost-longest scanning.
///
/// Trusted: `AhoCorasickBuilder::build`, on a new builder whose match kind is
/// set to `MatchKind::LeftmostLongest`. The contract claims that an automaton
/// that comes back indexes the bytes of exactly these terms, in this order,
/// and that whether one comes back depends on those bytes alone, which
/// `builder_accepts` names.
#[verifier::external_body]
pub(crate) fn build_automaton(terms: &Vec<String>) -> (built: Result<AhoCorasick, BuildError>)
    ensures
        built is Ok <==> builder_accepts(encoded(terms.deep_view())),
        built matches Ok(automaton) ==> {
            &&& resolves_leftmost_longest(automaton)
            &&& automaton_terms(automaton) == encoded(terms.deep_view())
        },
{
    AhoCorasickBuilder::new().match_kind(MatchKind::LeftmostLongest).build(terms)
}

/// Scans `hay` once and returns the offsets of each match.
///
/// Trusted: `AhoCorasick::find_iter`. The contract claims that, for an
/// automaton over non-empty terms, the iterator yields the non-overlapping
/// leftmost-longest matches in the order of `leftmost_longest`.
#[verifier::external_body]
pub(crate) fn match_spans(automaton: &AhoCorasick, hay: &[u8]) -> (spans: Vec<(usize, usize)>)
    requires
        resolves_leftmost_longest(*automaton),
        forall|k: int|
            0 <= k < automaton_terms(*automaton).len() ==> (#[trigger] automaton_terms(
                *automaton,
            )[k]).len() > 0,
    ensures
        spans.len() == leftmost_longest(automaton_terms(*automaton), hay@, 0).len(),
        forall|k: int|
            0 <= k < spans.len() ==> (#[trigger] spans[k]).0 == leftmost_longest(
                automaton_terms(*automaton),
                hay@,
                0,
            )[k].0 && spans[k].1 == leftmost_longest(automaton_terms(*automaton), hay@, 0)[k].1,
{
    automaton.find_iter(hay).map(|m| (m.start(), m.end())).collect()
}

/// The builder's own account of why it refused.
///
/// Trusted: `BuildError`'s `Display`, through `to_string`. Nothing is claimed
/// of the text.
#[verifier::external_body]
pub(crate) fn refusal_text(error: &BuildError) -> String {
    error.to_string()
}

/// A text that is not empty has an encoding that is not empty.
pub proof fn lemma_encoding_is_not_empty(text: Seq<char>)
    requires
        text.len() > 0,
    ensures
        encode_utf8(text).len() > 0,
{
}

/// One of `terms` is empty.
pub open spec fn has_empty_term(terms: Seq<Seq<char>>) -> bool {
    exists|k: int| 0 <= k < terms.len() && (#[trigger] terms[k]).len() == 0
}

/// Gathers what stands between the offsets of each match of a scan.
fn observe(
    hay: &[u8],
    spans: &Vec<(usize, usize)>,
    expected: usize,
    Ghost(terms): Ghost<Seq<Seq<u8>>>,
) -> (observed: ObservedTerms)
    requires
        spans.len() == leftmost_longest(terms, hay@, 0).len(),
        forall|k: int|
            0 <= k < spans.len() ==> (#[trigger] spans[k]).0 == leftmost_longest(terms, hay@, 0)[k].0
                && spans[k].1 == leftmost_longest(terms, hay@, 0)[k].1,
    ensures
        observed@ == observed_texts(terms, hay@),
{
    let ghost all = leftmost_longest(terms, hay@, 0);
    let mut observed = ObservedTerms::with_capacity(expected);
    let mut k: usize = 0;
    proof {
        lemma_matches_lie_inside(terms, hay@, 0);
    }
    while k < spans.len()
        invariant
            k <= spans.len() == all.len(),
            forall|j: int|
                0 <= j < spans.len() ==> (#[trigger] spans[j]).0 == all[j].0 && spans[j].1
                    == all[j].1,
            forall|j: int|
                0 <= j < all.len() ==> 0 <= (#[trigger] all[j]).0 < all[j].1 <= hay@.len(),
            observed@ == Set::new(
                |text: Seq<u8>|
                    exists|j: int|
                        0 <= j < k && hay@.subrange((#[trigger] all[j]).0, all[j].1) == text,
            ),
        decreases spans.len() - k,
    {
        let span = spans[k];
        proof {
            assert(0 <= all[k as int].0 < all[k as int].1 <= hay@.len());
        }
        observed.insert(slice_subrange(hay, span.0, span.1));
        proof {
            assert(observed@ =~= Set::new(
                |text: Seq<u8>|
                    exists|j: int|
                        0 <= j < k + 1 && hay@.subrange((#[trigger] all[j]).0, all[j].1) == text,
            ));
        }
        k = k + 1;
    }
    proof {
        assert(observed@ =~= observed_texts(terms, hay@));
    }
    observed
}

/// An index over a vocabulary of terms that answers leftmost-longest scans.
pub struct TermAutomaton {
    inner: AhoCorasick,
    /// How many terms were handed in; more than that a scan cannot observe.
    count: usize,
    terms: Ghost<Seq<Seq<char>>>,
}

impl TermAutomaton {
    /// The vocabulary that the automaton indexes.
    pub closed spec fn terms(&self) -> Seq<Seq<char>> {
        self.terms@
    }

    #[verifier::type_invariant]
    spec fn inv(&self) -> bool {
        &&& resolves_leftmost_longest(self.inner)
        &&& automaton_terms(self.inner) == encoded(self.terms@)
        &&& !has_empty_term(self.terms@)
    }

    /// Makes of the builder's answer an automaton over `terms`, or the error
    /// that reports the builder's refusal.
    fn adopt(terms: &Vec<String>, built: Result<AhoCorasick, BuildError>) -> (outcome: Result<
        TermAutomaton,
        MatcherError,
    >)
        requires
            !has_empty_term(terms.deep_view()),
            built matches Ok(automaton) ==> {
                &&& resolves_leftmost_longest(automaton)
                &&& automaton_terms(automaton) == encoded(terms.deep_view())
            },
        ensures
            match built {
                Ok(_) => outcome is Ok && outcome->Ok_0.terms() == terms.deep_view(),
                Err(_) => outcome is Err && outcome->Err_0 is Automaton,
            },
    {
        match built {
            Ok(inner) => Ok(
                TermAutomaton { inner, count: terms.len(), terms: Ghost(terms.deep_view()) },
            ),
            Err(error) => Err(MatcherError::Automaton(refusal_text(&error))),
        }
    }

    /// Indexes `terms`.
    ///
    /// An empty vocabulary is refused, and so is one that holds an empty
    /// term. Past that, the automaton is made exactly where its builder
    /// accepts the terms.
    pub fn build(terms: &Vec<String>) -> (outcome: Result<TermAutomaton, MatcherError>)
        ensures
            terms.len() == 0 ==> outcome is Err && outcome->Err_0 == MatcherError::EmptyVocabulary,
            terms.len() > 0 && has_empty_term(terms.deep_view()) ==> outcome is Err
                && outcome->Err_0 == MatcherError::EmptyPattern,
            terms.len() > 0 && !has_empty_term(terms.deep_view()) ==> {
                &&& outcome is Ok <==> builder_accepts(encoded(terms.deep_view()))
                &&& match outcome {
                    Ok(automaton) => automaton.terms() == terms.deep_view(),
                    Err(error) => error is Automaton,
                }
            },
    {
        if terms.len() == 0 {
            return Err(MatcherError::EmptyVocabulary);
        }
        let mut k: usize = 0;
        while k < terms.len()
            invariant
                k <= terms.len(),
                forall|j: int| 0 <= j < k ==> (#[trigger] terms.deep_view()[j]).len() > 0,
            decreases terms.len() - k,
        {
            proof {
                assert(terms.deep_view()[k as int] == terms[k as int]@);
            }
            if terms[k].as_str().is_empty() {
                return Err(MatcherError::EmptyPattern);
            }
            k = k + 1;
        }
        let built = build_automaton(terms);
        TermAutomaton::adopt(terms, built)
    }

    /// Scans `haystack` once, from left to right, and gathers the texts of the
    /// matches: at each place the longest term that stands there, and nothing
    /// that begins inside a match.
    pub fn scan(&self, haystack: &str) -> (observed: ObservedTerms)
        ensures
            observed@ == observed_texts(encoded(self.terms()), encode_utf8(haystack@)),
    {
        proof {
            use_type_invariant(self);
            assert forall|k: int| 0 <= k < encoded(self.terms@).len() implies (#[trigger] encoded(
                self.terms@,
            )[k]).len() > 0 by {
                lemma_encoding_is_not_empty(self.terms@[k]);
            }
        }
        let hay = haystack.as_bytes();
        let spans = match_spans(&self.inner, hay);
        let expected = if spans.len() < self.count {
            spans.len()
        } else {
            self.count
        };
        observe(hay, &spans, expected, Ghost(automaton_terms(self.inner)))
    }
}

} // verus!

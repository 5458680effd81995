//! The matcher: compiled patterns and their automaton, built once and then
//! queried.

use crate::automaton::{builder_accepts, encoded, has_empty_term, observed_texts, TermAutomaton};
use crate::error::MatcherError;
use crate::evaluator::{evaluate, satisfied};
use crate::observed::lemma_encoding_tells_texts_apart;
use crate::parallel::par_map;
use crate::pattern::{compile, compiled, lemma_compiled_is_well_formed, Pattern, PatternModel};
use crate::textset::TextSet;
use vstd::prelude::*;
use vstd::utf8::encode_utf8;

verus! {

/// Every term of every pattern, in order: what the automaton indexes.
pub open spec fn vocabulary(patterns: Seq<PatternModel>) -> Seq<Seq<char>> {
    patterns.map_values(|pattern: PatternModel| pattern.terms()).flatten()
}

/// The raw texts of the patterns that a scan of `haystack` satisfies.
pub open spec fn matching(patterns: Seq<PatternModel>, haystack: Seq<char>) -> Set<Seq<char>> {
    let observed = observed_texts(encoded(vocabulary(patterns)), encode_utf8(haystack));
    Set::new(
        |raw: Seq<char>|
            exists|i: int|
                0 <= i < patterns.len() && (#[trigger] patterns[i]).raw_text == raw && satisfied(
                    patterns[i],
                    observed,
                ),
    )
}

/// The raw texts of the patterns whose verdict is true, each of them once.
fn select(patterns: &Vec<Pattern>, verdicts: &Vec<bool>) -> (chosen: Vec<String>)
    requires
        verdicts.len() == patterns.len(),
    ensures
        chosen.deep_view().no_duplicates(),
        chosen.deep_view().to_set() == Set::new(
            |raw: Seq<char>|
                exists|i: int|
                    0 <= i < patterns.len() && (#[trigger] patterns.deep_view()[i]).raw_text == raw
                        && verdicts[i],
        ),
{
    let mut chosen: Vec<String> = Vec::new();
    let mut seen = TextSet::with_capacity(patterns.len());
    let mut k: usize = 0;
    proof {
        assert(chosen.deep_view() =~= Seq::<Seq<char>>::empty());
    }
    while k < patterns.len()
        invariant
            k <= patterns.len() == verdicts.len(),
            chosen.deep_view().no_duplicates(),
            forall|raw: Seq<char>|
                seen@.contains(encode_utf8(raw)) <==> chosen.deep_view().contains(raw),
            forall|raw: Seq<char>|
                chosen.deep_view().contains(raw) <==> exists|i: int|
                    0 <= i < k && (#[trigger] patterns.deep_view()[i]).raw_text == raw
                        && verdicts[i],
        decreases patterns.len() - k,
    {
        let ghost before = chosen.deep_view();
        let ghost raw_k = patterns.deep_view()[k as int].raw_text;
        proof {
            assert(raw_k == patterns[k as int].raw_text@);
        }
        if verdicts[k] {
            let ghost seen_before = seen@;
            let added = seen.insert(patterns[k].raw_text.as_str().as_bytes());
            if added {
                chosen.push(patterns[k].raw_text.clone());
            }
            proof {
                assert(seen@ == seen_before.insert(encode_utf8(raw_k)));
                assert(added == !before.contains(raw_k));
                if added {
                    assert(chosen.deep_view() =~= before.push(raw_k));
                    assert forall|i: int, j: int|
                        0 <= i < chosen.deep_view().len() && 0 <= j < chosen.deep_view().len() && i
                            != j implies chosen.deep_view()[i] != chosen.deep_view()[j] by {
                        if i < before.len() {
                            assert(before.contains(before[i]));
                        }
                        if j < before.len() {
                            assert(before.contains(before[j]));
                        }
                    }
                }
                assert forall|raw: Seq<char>| chosen.deep_view().contains(raw) <==> before.contains(
                    raw,
                ) || raw == raw_k by {
                    if added {
                        if chosen.deep_view().contains(raw) {
                            let j = choose|j: int|
                                0 <= j < chosen.deep_view().len() && chosen.deep_view()[j] == raw;
                            if j < before.len() {
                                assert(before[j] == raw);
                            }
                        }
                        if before.contains(raw) {
                            let j = choose|j: int| 0 <= j < before.len() && before[j] == raw;
                            assert(chosen.deep_view()[j] == raw);
                        }
                        if raw == raw_k {
                            assert(chosen.deep_view()[before.len() as int] == raw);
                        }
                    }
                }
                assert forall|raw: Seq<char>| seen@.contains(encode_utf8(raw))
                    <==> chosen.deep_view().contains(raw) by {
                    if encode_utf8(raw) == encode_utf8(raw_k) {
                        lemma_encoding_tells_texts_apart(raw, raw_k);
                    }
                    assert(seen_before.contains(encode_utf8(raw)) <==> before.contains(raw));
                }
            }
        }
        proof {
            assert forall|raw: Seq<char>| chosen.deep_view().contains(raw) <==> exists|i: int|
                0 <= i < k + 1 && (#[trigger] patterns.deep_view()[i]).raw_text == raw
                    && verdicts[i] by {
                if exists|i: int|
                    0 <= i < k + 1 && (#[trigger] patterns.deep_view()[i]).raw_text == raw
                        && verdicts[i] {
                    let i = choose|i: int|
                        0 <= i < k + 1 && (#[trigger] patterns.deep_view()[i]).raw_text == raw
                            && verdicts[i];
                    if i < k {
                        assert(before.contains(raw));
                    }
                }
                if before.contains(raw) {
                    let i = choose|i: int|
                        0 <= i < k && (#[trigger] patterns.deep_view()[i]).raw_text == raw
                            && verdicts[i];
                    assert(0 <= i < k + 1);
                }
                if verdicts[k as int] && raw == raw_k {
                    assert(patterns.deep_view()[k as int].raw_text == raw);
                }
            }
        }
        k = k + 1;
    }
    proof {
        assert(chosen.deep_view().to_set() =~= Set::new(
            |raw: Seq<char>|
                exists|i: int|
                    0 <= i < patterns.len() && (#[trigger] patterns.deep_view()[i]).raw_text == raw
                        && verdicts[i],
        ));
    }
    chosen
}

/// The models of `raws` where every one of them compiles.
pub open spec fn compiled_models(raws: Seq<Seq<char>>, logic_enabled: bool) -> Seq<PatternModel> {
    Seq::new(raws.len(), |i: int| compiled(raws[i], logic_enabled)->Ok_0)
}

/// `i` is the place of the first of `raws` that does not compile.
pub open spec fn is_first_failure(raws: Seq<Seq<char>>, logic_enabled: bool, i: int) -> bool {
    &&& 0 <= i < raws.len()
    &&& compiled(raws[i], logic_enabled) is Err
    &&& forall|j: int| 0 <= j < i ==> (#[trigger] compiled(raws[j], logic_enabled)) is Ok
}

/// What a build makes of `raws` before the automaton is made: the models of
/// the patterns, or the error that refuses them. An empty collection is
/// refused; otherwise the first pattern that does not compile decides.
pub open spec fn validated(raws: Seq<Seq<char>>, logic_enabled: bool) -> Result<
    Seq<PatternModel>,
    MatcherError,
> {
    if raws.len() == 0 {
        Err(MatcherError::EmptyVocabulary)
    } else if exists|i: int| is_first_failure(raws, logic_enabled, i) {
        let first = choose|i: int| is_first_failure(raws, logic_enabled, i);
        Err(compiled(raws[first], logic_enabled)->Err_0)
    } else {
        Ok(compiled_models(raws, logic_enabled))
    }
}

/// A build from `raws` succeeds: the collection is accepted, and the
/// automaton's builder accepts the vocabulary of its patterns.
pub open spec fn build_succeeds(raws: Seq<Seq<char>>, logic_enabled: bool) -> bool {
    validated(raws, logic_enabled) matches Ok(models) && builder_accepts(
        encoded(vocabulary(models)),
    )
}

/// The compiled patterns, or the error of the first that failed.
fn gather(outcomes: Vec<Result<Pattern, MatcherError>>) -> (gathered: Result<
    Vec<Pattern>,
    MatcherError,
>)
    ensures
        match gathered {
            Ok(patterns) => {
                &&& patterns.len() == outcomes.len()
                &&& forall|i: int|
                    0 <= i < outcomes.len() ==> (#[trigger] outcomes[i]) == Ok::<
                        Pattern,
                        MatcherError,
                    >(patterns[i])
            },
            Err(error) => exists|i: int|
                {
                    &&& 0 <= i < outcomes.len()
                    &&& (#[trigger] outcomes[i]) == Err::<Pattern, MatcherError>(error)
                    &&& forall|j: int| 0 <= j < i ==> (#[trigger] outcomes[j]) is Ok
                },
        },
{
    let mut patterns: Vec<Pattern> = Vec::new();
    for outcome in it: outcomes
        invariant
            it.seq() == outcomes@,
            patterns.len() == it.index(),
            forall|i: int|
                0 <= i < it.index() ==> (#[trigger] outcomes[i]) == Ok::<Pattern, MatcherError>(
                    patterns[i],
                ),
    {
        match outcome {
            Ok(pattern) => {
                patterns.push(pattern);
            },
            Err(error) => {
                proof {
                    assert(outcomes[it.index() as int] == Err::<Pattern, MatcherError>(error));
                }
                return Err(error);
            },
        }
    }
    Ok(patterns)
}

/// The flattened term list of the compiled patterns.
fn vocabulary_of(patterns: &Vec<Pattern>) -> (terms: Vec<String>)
    ensures
        terms.deep_view() == vocabulary(patterns.deep_view()),
{
    let ghost models = patterns.deep_view();
    let mut terms: Vec<String> = Vec::new();
    let mut k: usize = 0;
    proof {
        assert(models.take(0).map_values(|pattern: PatternModel| pattern.terms()) =~= Seq::empty());
        assert(terms.deep_view() =~= vocabulary(models.take(0)));
    }
    while k < patterns.len()
        invariant
            k <= patterns.len() == models.len(),
            models == patterns.deep_view(),
            terms.deep_view() == vocabulary(models.take(k as int)),
        decreases patterns.len() - k,
    {
        proof {
            assert(models[k as int] == patterns[k as int]@);
            assert(models.take(k + 1) =~= models.take(k as int).push(models[k as int]));
            lemma_vocabulary_push(models.take(k as int), models[k as int]);
        }
        patterns[k].push_terms(&mut terms);
        k = k + 1;
    }
    proof {
        assert(models.take(k as int) =~= models);
    }
    terms
}

/// A keyword matcher over boolean term formulas.
pub struct AhoMatcher {
    ac_impl: Option<TermAutomaton>,
    patterns: Vec<Pattern>,
    use_logic: bool,
}

impl AhoMatcher {
    /// A build has succeeded.
    pub closed spec fn is_built(&self) -> bool {
        self.ac_impl is Some
    }

    /// Patterns are read as formulas, not as plain literals.
    pub closed spec fn logic_enabled(&self) -> bool {
        self.use_logic
    }

    /// The patterns of the last successful build.
    pub closed spec fn patterns(&self) -> Seq<PatternModel> {
        self.patterns.deep_view()
    }

    #[verifier::type_invariant]
    spec fn inv(&self) -> bool {
        match self.ac_impl {
            None => self.patterns@.len() == 0,
            Some(automaton) => {
                &&& automaton.terms() == vocabulary(self.patterns.deep_view())
                &&& forall|i: int|
                    0 <= i < self.patterns@.len() ==> (#[trigger] self.patterns.deep_view()[i]).well_formed()
            },
        }
    }

    /// A matcher on which nothing is built yet. Logic is enabled unless it is
    /// switched off here.
    pub fn new(use_logic: Option<bool>) -> (matcher: AhoMatcher)
        ensures
            !matcher.is_built(),
            matcher.logic_enabled() == (use_logic != Some(false)),
            matcher.patterns() == Seq::<PatternModel>::empty(),
    {
        let use_logic_value = match use_logic {
            Some(value) => value,
            None => true,
        };
        let matcher = AhoMatcher { ac_impl: None, patterns: Vec::new(), use_logic: use_logic_value };
        proof {
            assert(matcher.patterns.deep_view() =~= Seq::<PatternModel>::empty());
        }
        matcher
    }

    /// Compiles `patterns`, indexes all their terms, and replaces whatever was
    /// built before.
    ///
    /// Nothing is replaced unless everything succeeds. An empty collection is
    /// refused; so is a collection with a pattern that does not compile, with
    /// the error of the first such pattern. Past that, the build succeeds
    /// exactly where the automaton's builder accepts the vocabulary. So
    /// whether a build succeeds depends on the patterns and on the logic flag,
    /// not on what was built before.
    pub fn build(&mut self, patterns: &Vec<String>) -> (outcome: Result<(), MatcherError>)
        ensures
            final(self).logic_enabled() == old(self).logic_enabled(),
            outcome is Err ==> *final(self) == *old(self),
            outcome is Ok <==> build_succeeds(patterns.deep_view(), old(self).logic_enabled()),
            match validated(patterns.deep_view(), old(self).logic_enabled()) {
                Err(error) => outcome == Err::<(), MatcherError>(error),
                Ok(models) => match outcome {
                    Ok(_) => final(self).is_built() && final(self).patterns() == models,
                    Err(error) => error is Automaton,
                },
            },
    {
        if patterns.len() == 0 {
            return Err(MatcherError::EmptyVocabulary);
        }
        let ghost raws = patterns.deep_view();
        let logic = self.use_logic;
        let compile_one = |raw: &String| -> (compiled_one: Result<Pattern, MatcherError>)
            ensures
                match compiled(raw@, logic) {
                    Ok(model) => compiled_one is Ok && compiled_one->Ok_0@ == model,
                    Err(error) => compiled_one == Err::<Pattern, MatcherError>(error),
                },
            { compile(raw.as_str(), logic) };
        let outcomes = par_map(patterns, compile_one);
        proof {
            assert forall|i: int| 0 <= i < raws.len() implies match compiled(raws[i], logic) {
                Ok(model) => (#[trigger] outcomes[i]) is Ok && outcomes[i]->Ok_0@ == model,
                Err(error) => outcomes[i] == Err::<Pattern, MatcherError>(error),
            } by {
                assert(raws[i] == patterns[i]@);
                assert(call_ensures(compile_one, (&patterns[i],), outcomes[i]));
            }
        }
        let compiled_patterns = match gather(outcomes) {
            Ok(compiled_patterns) => compiled_patterns,
            Err(error) => {
                proof {
                    let first = choose|i: int|
                        {
                            &&& 0 <= i < outcomes.len()
                            &&& (#[trigger] outcomes[i]) == Err::<Pattern, MatcherError>(error)
                            &&& forall|j: int| 0 <= j < i ==> (#[trigger] outcomes[j]) is Ok
                        };
                    assert(compiled(raws[first], logic) is Err);
                    assert forall|j: int| 0 <= j < first implies (#[trigger] compiled(
                        raws[j],
                        logic,
                    )) is Ok by {
                        assert(outcomes[j] is Ok);
                    }
                    assert(is_first_failure(raws, logic, first));
                    lemma_first_failure_is_unique(
                        raws,
                        logic,
                        first,
                        choose|i: int| is_first_failure(raws, logic, i),
                    );
                }
                return Err(error);
            },
        };
        proof {
            assert forall|i: int| 0 <= i < raws.len() implies (#[trigger] compiled(
                raws[i],
                logic,
            )) is Ok && compiled_patterns.deep_view()[i] == compiled(raws[i], logic)->Ok_0 by {
                assert(outcomes[i] == Ok::<Pattern, MatcherError>(compiled_patterns[i]));
            }
            assert(compiled_patterns.deep_view() =~= compiled_models(raws, logic));
            assert forall|i: int| 0 <= i < compiled_patterns.len() implies (
            #[trigger] compiled_patterns.deep_view()[i]).well_formed() by {
                lemma_compiled_is_well_formed(raws[i], logic);
            }
        }
        let terms = vocabulary_of(&compiled_patterns);
        proof {
            lemma_vocabulary_terms_are_not_empty(compiled_patterns.deep_view());
            lemma_vocabulary_is_not_empty(compiled_patterns.deep_view());
        }
        match TermAutomaton::build(&terms) {
            Ok(automaton) => {
                *self = AhoMatcher {
                    ac_impl: Some(automaton),
                    patterns: compiled_patterns,
                    use_logic: logic,
                };
                Ok(())
            },
            Err(error) => Err(error),
        }
    }

    /// Scans `haystack` once and reports the raw text of every pattern whose
    /// formula the observed terms satisfy, each text once.
    ///
    /// Fails with `NotBuilt` until a build has succeeded, and never
    /// afterwards.
    pub fn find(&self, haystack: &str) -> (outcome: Result<Vec<String>, MatcherError>)
        ensures
            !self.is_built() ==> outcome == Err::<Vec<String>, MatcherError>(MatcherError::NotBuilt),
            self.is_built() ==> {
                &&& outcome is Ok
                &&& outcome->Ok_0.deep_view().no_duplicates()
                &&& outcome->Ok_0.deep_view().to_set() == matching(self.patterns(), haystack@)
                &&& haystack@.len() == 0 ==> outcome->Ok_0.len() == 0
            },
    {
        proof {
            use_type_invariant(self);
        }
        let automaton = match &self.ac_impl {
            Some(automaton) => automaton,
            None => {
                return Err(MatcherError::NotBuilt);
            },
        };
        let ghost models = self.patterns.deep_view();
        let observed = automaton.scan(haystack);
        let judge = |pattern: &Pattern| -> (matched: bool)
            ensures
                matched == satisfied(pattern@, observed@),
            { evaluate(pattern, &observed) };
        let verdicts = par_map(&self.patterns, judge);
        let chosen = select(&self.patterns, &verdicts);
        proof {
            assert(chosen.deep_view().to_set() =~= matching(models, haystack@));
            if haystack@.len() == 0 {
                assert(haystack@ =~= Seq::<char>::empty());
                crate::laws::lemma_empty_text_matches_nothing(models);
                if chosen.len() > 0 {
                    assert(chosen.deep_view().to_set().contains(chosen.deep_view()[0]));
                }
            }
        }
        Ok(chosen)
    }
}

/// Only one pattern can be the first to fail.
pub proof fn lemma_first_failure_is_unique(
    raws: Seq<Seq<char>>,
    logic_enabled: bool,
    i: int,
    j: int,
)
    requires
        is_first_failure(raws, logic_enabled, i),
        is_first_failure(raws, logic_enabled, j),
    ensures
        i == j,
{
    if i < j {
        assert(compiled(raws[i], logic_enabled) is Ok);
    } else if j < i {
        assert(compiled(raws[j], logic_enabled) is Ok);
    }
}

/// Well-formed patterns, of which there is at least one, have a vocabulary
/// that is not empty.
pub proof fn lemma_vocabulary_is_not_empty(patterns: Seq<PatternModel>)
    requires
        patterns.len() > 0,
        forall|i: int| 0 <= i < patterns.len() ==> (#[trigger] patterns[i]).well_formed(),
    ensures
        vocabulary(patterns).len() > 0,
{
    let init = patterns.drop_last();
    let last = patterns.last();
    assert(patterns =~= init.push(last));
    lemma_vocabulary_push(init, last);
    assert(last.well_formed());
}

/// The vocabulary is made of the terms of its patterns, so where those are
/// well formed no entry of it is empty.
pub proof fn lemma_vocabulary_terms_are_not_empty(patterns: Seq<PatternModel>)
    requires
        forall|i: int| 0 <= i < patterns.len() ==> (#[trigger] patterns[i]).well_formed(),
    ensures
        !has_empty_term(vocabulary(patterns)),
    decreases patterns.len(),
{
    if patterns.len() == 0 {
        assert(patterns.map_values(|pattern: PatternModel| pattern.terms()) =~= Seq::empty());
    } else {
        let init = patterns.drop_last();
        let last = patterns.last();
        lemma_vocabulary_terms_are_not_empty(init);
        lemma_vocabulary_push(init, last);
        assert(patterns =~= init.push(last));
        lemma_pattern_terms_are_not_empty(last);
    }
}

/// One more pattern adds its terms at the end of the vocabulary.
pub proof fn lemma_vocabulary_push(patterns: Seq<PatternModel>, pattern: PatternModel)
    ensures
        vocabulary(patterns.push(pattern)) == vocabulary(patterns) + pattern.terms(),
{
    let terms_of = |pattern: PatternModel| pattern.terms();
    assert(patterns.push(pattern).map_values(terms_of) =~= patterns.map_values(terms_of).push(
        pattern.terms(),
    ));
    patterns.map_values(terms_of).lemma_flatten_push(pattern.terms());
}

/// No term of a well-formed pattern is empty.
pub proof fn lemma_pattern_terms_are_not_empty(pattern: PatternModel)
    requires
        pattern.well_formed(),
    ensures
        forall|k: int| 0 <= k < pattern.terms().len() ==> (#[trigger] pattern.terms()[k]).len() > 0,
{
    lemma_flatten_keeps(pattern.negative_groups);
}

/// What holds of every item of every part holds of every item of the whole.
proof fn lemma_flatten_keeps(groups: Seq<Seq<Seq<char>>>)
    requires
        forall|g: int, i: int|
            0 <= g < groups.len() && 0 <= i < groups[g].len() ==> (#[trigger] groups[g][i]).len()
                > 0,
    ensures
        forall|k: int| 0 <= k < groups.flatten().len() ==> (#[trigger] groups.flatten()[k]).len() > 0,
    decreases groups.len(),
{
    if groups.len() > 0 {
        let init = groups.drop_last();
        assert forall|g: int, i: int| 0 <= g < init.len() && 0 <= i < init[g].len() implies (
        #[trigger] init[g][i]).len() > 0 by {
            assert(init[g][i] == groups[g][i]);
        }
        lemma_flatten_keeps(init);
        init.lemma_flatten_push(groups.last());
        assert(groups =~= init.push(groups.last()));
        assert forall|k: int| 0 <= k < groups.flatten().len() implies (#[trigger] groups.flatten()[k]).len()
            > 0 by {
            if k >= init.flatten().len() {
                assert(groups.flatten()[k] == groups[groups.len() - 1][k - init.flatten().len()]);
            }
        }
    }
}

} // verus!

//! What holds of the matcher whatever the patterns and the text.

use crate::automaton::{
    encoded, leftmost_longest, lemma_longest_at_is_a_term, longest_at, observed_texts, occurs_at,
};
use crate::error::MatcherError;
use crate::evaluator::{satisfied, some_group_fires};
use crate::matcher::{
    compiled_models, is_first_failure, lemma_first_failure_is_unique, lemma_vocabulary_push,
    matching, validated, vocabulary, AhoMatcher,
};
use crate::observed::is_observed;
use crate::pattern::{compiled, PatternModel};
use vstd::prelude::*;
use vstd::utf8::encode_utf8;

verus! {

/// Building twice from the same patterns and then searching the same text
/// gives the same answer both times.
pub proof fn lemma_rebuild_changes_no_answer(
    first: AhoMatcher,
    second: AhoMatcher,
    raws: Seq<Seq<char>>,
    haystack: Seq<char>,
)
    requires
        first.logic_enabled() == second.logic_enabled(),
        validated(raws, first.logic_enabled()) is Ok,
        first.patterns() == validated(raws, first.logic_enabled())->Ok_0,
        second.patterns() == validated(raws, second.logic_enabled())->Ok_0,
    ensures
        matching(first.patterns(), haystack) == matching(second.patterns(), haystack),
{
}

/// Which term is the longest at an offset depends on which terms there are,
/// not on their order nor on how often each is listed.
pub proof fn lemma_longest_at_ignores_order(
    first: Seq<Seq<u8>>,
    second: Seq<Seq<u8>>,
    hay: Seq<u8>,
    at: int,
)
    requires
        first.to_set() == second.to_set(),
    ensures
        longest_at(first, hay, at) == longest_at(second, hay, at),
{
    lemma_longest_at_is_a_term(first, hay, at);
    lemma_longest_at_is_a_term(second, hay, at);
    if longest_at(first, hay, at) > 0 {
        let k = choose|k: int|
            0 <= k < first.len() && occurs_at(hay, at, #[trigger] first[k]) && first[k].len()
                == longest_at(first, hay, at);
        assert(first.contains(first[k]));
        assert(second.to_set().contains(first[k]));
        let j = choose|j: int| 0 <= j < second.len() && second[j] == first[k];
        assert(occurs_at(hay, at, second[j]));
    }
    if longest_at(second, hay, at) > 0 {
        let k = choose|k: int|
            0 <= k < second.len() && occurs_at(hay, at, #[trigger] second[k]) && second[k].len()
                == longest_at(second, hay, at);
        assert(second.contains(second[k]));
        assert(first.to_set().contains(second[k]));
        let j = choose|j: int| 0 <= j < first.len() && first[j] == second[k];
        assert(occurs_at(hay, at, first[j]));
    }
}

/// A scan depends on which terms there are, not on their order nor on how
/// often each is listed.
pub proof fn lemma_scan_ignores_order(
    first: Seq<Seq<u8>>,
    second: Seq<Seq<u8>>,
    hay: Seq<u8>,
    from: int,
)
    requires
        first.to_set() == second.to_set(),
    ensures
        leftmost_longest(first, hay, from) == leftmost_longest(second, hay, from),
    decreases hay.len() - from,
{
    if 0 <= from < hay.len() {
        lemma_longest_at_ignores_order(first, second, hay, from);
        lemma_longest_at_is_a_term(first, hay, from);
        let n = longest_at(first, hay, from);
        if n == 0 {
            lemma_scan_ignores_order(first, second, hay, from + 1);
        } else {
            lemma_scan_ignores_order(first, second, hay, from + n);
        }
    }
}

/// The vocabulary holds a term exactly where one of the patterns has it.
pub proof fn lemma_vocabulary_holds_the_terms(patterns: Seq<PatternModel>, term: Seq<char>)
    ensures
        vocabulary(patterns).contains(term) <==> exists|i: int|
            0 <= i < patterns.len() && (#[trigger] patterns[i]).terms().contains(term),
    decreases patterns.len(),
{
    if patterns.len() == 0 {
        assert(patterns.map_values(|pattern: PatternModel| pattern.terms()) =~= Seq::empty());
        assert(vocabulary(patterns) =~= Seq::<Seq<char>>::empty());
    } else {
        let init = patterns.drop_last();
        let last = patterns.last();
        lemma_vocabulary_holds_the_terms(init, term);
        lemma_vocabulary_push(init, last);
        assert(patterns =~= init.push(last));
        let whole = vocabulary(patterns);
        let head = vocabulary(init);
        if whole.contains(term) {
            let k = choose|k: int| 0 <= k < whole.len() && whole[k] == term;
            if k < head.len() {
                assert(head[k] == term);
                let i = choose|i: int|
                    0 <= i < init.len() && (#[trigger] init[i]).terms().contains(term);
                assert(patterns[i] == init[i]);
            } else {
                assert(last.terms()[k - head.len()] == term);
                assert(patterns[patterns.len() - 1].terms().contains(term));
            }
        }
        if exists|i: int| 0 <= i < patterns.len() && (#[trigger] patterns[i]).terms().contains(term) {
            let i = choose|i: int|
                0 <= i < patterns.len() && (#[trigger] patterns[i]).terms().contains(term);
            if i < init.len() {
                assert(init[i] == patterns[i]);
                assert(head.contains(term));
                let k = choose|k: int| 0 <= k < head.len() && head[k] == term;
                assert(whole[k] == term);
            } else {
                let k = choose|k: int| 0 <= k < last.terms().len() && last.terms()[k] == term;
                assert(whole[head.len() + k] == term);
            }
        }
    }
}

/// The patterns form a set: in whatever order they are handed to a build, and
/// however often each of them is repeated, every text gets the same answer.
pub proof fn lemma_patterns_form_a_set(
    first: Seq<Seq<char>>,
    second: Seq<Seq<char>>,
    logic_enabled: bool,
    haystack: Seq<char>,
)
    requires
        first.to_set() == second.to_set(),
    ensures
        matching(compiled_models(first, logic_enabled), haystack) == matching(
            compiled_models(second, logic_enabled),
            haystack,
        ),
{
    let one = compiled_models(first, logic_enabled);
    let two = compiled_models(second, logic_enabled);
    lemma_models_of_same_patterns(first, second, logic_enabled);
    lemma_models_of_same_patterns(second, first, logic_enabled);
    lemma_terms_of_same_models(one, two);
    lemma_terms_of_same_models(two, one);
    let hay = encode_utf8(haystack);
    let terms_one = encoded(vocabulary(one));
    let terms_two = encoded(vocabulary(two));
    assert(terms_one.to_set() =~= terms_two.to_set());
    lemma_scan_ignores_order(terms_one, terms_two, hay, 0);
    assert(observed_texts(terms_one, hay) == observed_texts(terms_two, hay));
    lemma_answers_of_same_models(one, two, haystack);
    lemma_answers_of_same_models(two, one, haystack);
    assert(matching(one, haystack) =~= matching(two, haystack));
}

/// Each model of patterns that are all among `second` is a model of
/// `second`.
proof fn lemma_models_of_same_patterns(
    first: Seq<Seq<char>>,
    second: Seq<Seq<char>>,
    logic_enabled: bool,
)
    requires
        first.to_set() == second.to_set(),
    ensures
        forall|i: int|
            0 <= i < first.len() ==> compiled_models(second, logic_enabled).contains(
                #[trigger] compiled_models(first, logic_enabled)[i],
            ),
{
    assert forall|i: int| 0 <= i < first.len() implies compiled_models(
        second,
        logic_enabled,
    ).contains(#[trigger] compiled_models(first, logic_enabled)[i]) by {
        assert(first.contains(first[i]));
        assert(second.to_set().contains(first[i]));
        let j = choose|j: int| 0 <= j < second.len() && second[j] == first[i];
        assert(compiled_models(second, logic_enabled)[j] == compiled_models(
            first,
            logic_enabled,
        )[i]);
    }
}

/// Where every model of `one` is among `two`, every encoded term of `one` is
/// an encoded term of `two`.
proof fn lemma_terms_of_same_models(one: Seq<PatternModel>, two: Seq<PatternModel>)
    requires
        forall|i: int| 0 <= i < one.len() ==> two.contains(#[trigger] one[i]),
    ensures
        forall|text: Seq<u8>|
            encoded(vocabulary(one)).contains(text) ==> encoded(vocabulary(two)).contains(text),
{
    assert forall|text: Seq<u8>| encoded(vocabulary(one)).contains(text) implies encoded(
        vocabulary(two),
    ).contains(text) by {
        let k = choose|k: int|
            0 <= k < encoded(vocabulary(one)).len() && encoded(vocabulary(one))[k] == text;
        let term = vocabulary(one)[k];
        assert(vocabulary(one).contains(term));
        lemma_vocabulary_holds_the_terms(one, term);
        let i = choose|i: int| 0 <= i < one.len() && (#[trigger] one[i]).terms().contains(term);
        let j = choose|j: int| 0 <= j < two.len() && two[j] == one[i];
        assert(two[j].terms().contains(term));
        lemma_vocabulary_holds_the_terms(two, term);
        let m = choose|m: int| 0 <= m < vocabulary(two).len() && vocabulary(two)[m] == term;
        assert(encoded(vocabulary(two))[m] == text);
    }
}

/// Where every model of `one` is among `two` and both observe the same texts,
/// every answer of `one` is an answer of `two`.
proof fn lemma_answers_of_same_models(
    one: Seq<PatternModel>,
    two: Seq<PatternModel>,
    haystack: Seq<char>,
)
    requires
        forall|i: int| 0 <= i < one.len() ==> two.contains(#[trigger] one[i]),
        observed_texts(encoded(vocabulary(one)), encode_utf8(haystack)) == observed_texts(
            encoded(vocabulary(two)),
            encode_utf8(haystack),
        ),
    ensures
        forall|raw: Seq<char>|
            matching(one, haystack).contains(raw) ==> matching(two, haystack).contains(raw),
{
    let observed = observed_texts(encoded(vocabulary(one)), encode_utf8(haystack));
    assert forall|raw: Seq<char>| matching(one, haystack).contains(raw) implies matching(
        two,
        haystack,
    ).contains(raw) by {
        let i = choose|i: int|
            0 <= i < one.len() && (#[trigger] one[i]).raw_text == raw && satisfied(
                one[i],
                observed,
            );
        let j = choose|j: int| 0 <= j < two.len() && two[j] == one[i];
        assert(two[j].raw_text == raw && satisfied(two[j], observed));
    }
}

/// What a scan observes is one of the terms, and stands in the text.
pub proof fn lemma_observed_text_is_a_term_that_occurs(
    terms: Seq<Seq<u8>>,
    hay: Seq<u8>,
    text: Seq<u8>,
)
    requires
        observed_texts(terms, hay).contains(text),
    ensures
        terms.contains(text),
        text.len() > 0,
        exists|at: int| occurs_at(hay, at, text),
{
    lemma_matches_are_longest_terms(terms, hay, 0);
    let all = leftmost_longest(terms, hay, 0);
    let k = choose|k: int| 0 <= k < all.len() && hay.subrange((#[trigger] all[k]).0, all[k].1) == text;
    lemma_longest_at_is_a_term(terms, hay, all[k].0);
    let j = choose|j: int|
        0 <= j < terms.len() && occurs_at(hay, all[k].0, #[trigger] terms[j]) && terms[j].len()
            == longest_at(terms, hay, all[k].0);
    assert(terms[j] == text);
    assert(occurs_at(hay, all[k].0, text));
}

/// Each match of a scan spans the longest term that stands at its start.
pub proof fn lemma_matches_are_longest_terms(terms: Seq<Seq<u8>>, hay: Seq<u8>, from: int)
    ensures
        forall|k: int|
            0 <= k < leftmost_longest(terms, hay, from).len() ==> {
                let m = #[trigger] leftmost_longest(terms, hay, from)[k];
                m.1 - m.0 == longest_at(terms, hay, m.0) && m.1 > m.0
            },
    decreases hay.len() - from,
{
    if 0 <= from < hay.len() {
        let n = longest_at(terms, hay, from);
        lemma_longest_at_is_a_term(terms, hay, from);
        let all = leftmost_longest(terms, hay, from);
        if n == 0 {
            lemma_matches_are_longest_terms(terms, hay, from + 1);
            assert(all == leftmost_longest(terms, hay, from + 1));
        } else {
            lemma_matches_are_longest_terms(terms, hay, from + n);
            let rest = leftmost_longest(terms, hay, from + n);
            assert(all == seq![(from, from + n)] + rest);
            assert forall|k: int| 0 <= k < all.len() implies {
                let m = #[trigger] all[k];
                m.1 - m.0 == longest_at(terms, hay, m.0) && m.1 > m.0
            } by {
                if k > 0 {
                    assert(all[k] == rest[k - 1]);
                }
            }
        }
    }
}

/// A scan of the empty text observes nothing.
pub proof fn lemma_empty_text_shows_nothing(terms: Seq<Seq<u8>>)
    ensures
        observed_texts(terms, Seq::empty()) == Set::<Seq<u8>>::empty(),
{
    assert(leftmost_longest(terms, Seq::<u8>::empty(), 0).len() == 0);
    assert(observed_texts(terms, Seq::empty()) =~= Set::<Seq<u8>>::empty());
}

/// In the empty text no pattern is satisfied.
pub proof fn lemma_empty_text_matches_nothing(patterns: Seq<PatternModel>)
    requires
        forall|i: int| 0 <= i < patterns.len() ==> (#[trigger] patterns[i]).well_formed(),
    ensures
        matching(patterns, Seq::empty()) == Set::<Seq<char>>::empty(),
{
    let terms = encoded(vocabulary(patterns));
    lemma_empty_text_shows_nothing(terms);
    assert(encode_utf8(Seq::<char>::empty()) =~= Seq::<u8>::empty());
    let observed = observed_texts(terms, encode_utf8(Seq::empty()));
    assert forall|raw: Seq<char>| !matching(patterns, Seq::empty()).contains(raw) by {
        assert forall|i: int| 0 <= i < patterns.len() implies !satisfied(
            #[trigger] patterns[i],
            observed,
        ) by {
            assert(!is_observed(patterns[i].positive_terms[0], observed));
        }
    }
    assert(matching(patterns, Seq::empty()) =~= Set::<Seq<char>>::empty());
}

/// An empty pattern string does not compile, with or without logic.
pub proof fn lemma_empty_pattern_is_refused(logic_enabled: bool)
    ensures
        compiled(Seq::empty(), logic_enabled) == Err::<PatternModel, MatcherError>(
            MatcherError::EmptyPattern,
        ),
{
}

/// Where a pattern fails to compile, one pattern is the first to fail.
pub proof fn lemma_some_failure_is_first(raws: Seq<Seq<char>>, logic_enabled: bool, at: int)
    requires
        0 <= at < raws.len(),
        compiled(raws[at], logic_enabled) is Err,
    ensures
        exists|first: int| 0 <= first <= at && is_first_failure(raws, logic_enabled, first),
    decreases at,
{
    if forall|j: int| 0 <= j < at ==> (#[trigger] compiled(raws[j], logic_enabled)) is Ok {
        assert(is_first_failure(raws, logic_enabled, at));
    } else {
        let j = choose|j: int| 0 <= j < at && !((#[trigger] compiled(raws[j], logic_enabled)) is Ok);
        lemma_some_failure_is_first(raws, logic_enabled, j);
    }
}

/// A collection is accepted exactly where it is not empty and every pattern
/// in it compiles; the models are then those of the patterns, in order.
pub proof fn lemma_validated_where_all_compile(raws: Seq<Seq<char>>, logic_enabled: bool)
    ensures
        validated(raws, logic_enabled) is Ok <==> raws.len() > 0 && forall|i: int|
            0 <= i < raws.len() ==> (#[trigger] compiled(raws[i], logic_enabled)) is Ok,
        validated(raws, logic_enabled) is Ok ==> validated(raws, logic_enabled)->Ok_0
            == compiled_models(raws, logic_enabled),
{
    if raws.len() > 0 {
        if exists|i: int| is_first_failure(raws, logic_enabled, i) {
            let first = choose|i: int| is_first_failure(raws, logic_enabled, i);
            assert(!(compiled(raws[first], logic_enabled) is Ok));
        } else {
            assert forall|i: int| 0 <= i < raws.len() implies (#[trigger] compiled(
                raws[i],
                logic_enabled,
            )) is Ok by {
                if compiled(raws[i], logic_enabled) is Err {
                    lemma_some_failure_is_first(raws, logic_enabled, i);
                }
            }
        }
    }
}

/// The first pattern that fails to compile decides the error of the build.
pub proof fn lemma_first_failure_decides(raws: Seq<Seq<char>>, logic_enabled: bool, first: int)
    requires
        is_first_failure(raws, logic_enabled, first),
    ensures
        validated(raws, logic_enabled) == Err::<Seq<PatternModel>, MatcherError>(
            compiled(raws[first], logic_enabled)->Err_0,
        ),
{
    lemma_first_failure_is_unique(
        raws,
        logic_enabled,
        first,
        choose|i: int| is_first_failure(raws, logic_enabled, i),
    );
}

/// A collection with an empty string in it is refused. The error is
/// `EmptyPattern`, unless a pattern before the empty string is not empty and
/// still does not compile.
pub proof fn lemma_empty_pattern_fails_build(raws: Seq<Seq<char>>, logic_enabled: bool, at: int)
    requires
        0 <= at < raws.len(),
        raws[at].len() == 0,
    ensures
        validated(raws, logic_enabled) is Err,
        (forall|j: int|
            0 <= j < at && raws[j].len() > 0 ==> (#[trigger] compiled(raws[j], logic_enabled)) is Ok)
            ==> validated(raws, logic_enabled) == Err::<Seq<PatternModel>, MatcherError>(
            MatcherError::EmptyPattern,
        ),
{
    assert(raws[at] =~= Seq::<char>::empty());
    lemma_some_failure_is_first(raws, logic_enabled, at);
    let first = choose|first: int| 0 <= first <= at && is_first_failure(raws, logic_enabled, first);
    lemma_first_failure_decides(raws, logic_enabled, first);
}

/// Without logic, a collection with an empty string in it is refused with
/// `EmptyPattern`.
pub proof fn lemma_empty_pattern_fails_plain_build(raws: Seq<Seq<char>>, at: int)
    requires
        0 <= at < raws.len(),
        raws[at].len() == 0,
    ensures
        validated(raws, false) == Err::<Seq<PatternModel>, MatcherError>(
            MatcherError::EmptyPattern,
        ),
{
    assert forall|j: int| 0 <= j < at && raws[j].len() > 0 implies (#[trigger] compiled(
        raws[j],
        false,
    )) is Ok by {
        lemma_plain_pattern_fails_only_when_empty(raws[j]);
    }
    lemma_empty_pattern_fails_build(raws, false, at);
}

/// Without logic a pattern fails to compile only by being empty.
pub proof fn lemma_plain_pattern_fails_only_when_empty(raw: Seq<char>)
    ensures
        compiled(raw, false) is Err <==> raw.len() == 0,
        compiled(raw, false) is Err ==> compiled(raw, false) == Err::<PatternModel, MatcherError>(
            MatcherError::EmptyPattern,
        ),
        compiled(raw, false) is Ok ==> compiled(raw, false)->Ok_0 == (PatternModel {
            raw_text: raw,
            positive_terms: seq![raw],
            negative_groups: Seq::empty(),
        }),
{
}

/// Without logic the vocabulary is the list of patterns itself.
pub proof fn lemma_plain_vocabulary(raws: Seq<Seq<char>>)
    requires
        forall|i: int| 0 <= i < raws.len() ==> (#[trigger] raws[i]).len() > 0,
    ensures
        vocabulary(compiled_models(raws, false)) == raws,
    decreases raws.len(),
{
    let models = compiled_models(raws, false);
    if raws.len() == 0 {
        assert(models.map_values(|pattern: PatternModel| pattern.terms()) =~= Seq::empty());
        assert(vocabulary(models) =~= raws);
    } else {
        let init = raws.drop_last();
        lemma_plain_vocabulary(init);
        let last = models.last();
        assert(models.drop_last() =~= compiled_models(init, false));
        assert(models =~= compiled_models(init, false).push(last));
        lemma_vocabulary_push(compiled_models(init, false), last);
        lemma_plain_pattern_fails_only_when_empty(raws.last());
        assert(last.negative_groups.flatten() =~= Seq::<Seq<char>>::empty());
        assert(last.terms() =~= seq![raws.last()]);
        assert(vocabulary(models) =~= raws);
    }
}

/// Without logic, a search reports exactly those of the built patterns whose
/// whole text the leftmost-longest scan of the text observes; `~` and `&` in
/// them are characters like any other.
pub proof fn lemma_plain_patterns_match_where_observed(raws: Seq<Seq<char>>, haystack: Seq<char>)
    requires
        forall|i: int| 0 <= i < raws.len() ==> (#[trigger] raws[i]).len() > 0,
    ensures
        raws.len() > 0 ==> validated(raws, false) == Ok::<Seq<PatternModel>, MatcherError>(
            compiled_models(raws, false),
        ),
        matching(compiled_models(raws, false), haystack) == Set::new(
            |raw: Seq<char>|
                raws.contains(raw) && is_observed(
                    raw,
                    observed_texts(encoded(raws), encode_utf8(haystack)),
                ),
        ),
{
    let models = compiled_models(raws, false);
    lemma_plain_vocabulary(raws);
    lemma_validated_where_all_compile(raws, false);
    let observed = observed_texts(encoded(raws), encode_utf8(haystack));
    assert forall|i: int| 0 <= i < raws.len() implies (#[trigger] compiled(raws[i], false)) is Ok
        && models[i].raw_text == raws[i] && (satisfied(models[i], observed) <==> is_observed(
        raws[i],
        observed,
    )) by {
        lemma_plain_pattern_fails_only_when_empty(raws[i]);
        let model = models[i];
        assert(model.positive_terms[0] == raws[i]);
        assert(!some_group_fires(model.negative_groups, observed));
    }
    let wanted = Set::new(|raw: Seq<char>| raws.contains(raw) && is_observed(raw, observed));
    assert forall|raw: Seq<char>| matching(models, haystack).contains(raw) <==> wanted.contains(
        raw,
    ) by {
        if matching(models, haystack).contains(raw) {
            let i = choose|i: int|
                0 <= i < models.len() && (#[trigger] models[i]).raw_text == raw && satisfied(
                    models[i],
                    observed,
                );
            assert(raws[i] == raw);
        }
        if wanted.contains(raw) {
            let i = choose|i: int| 0 <= i < raws.len() && raws[i] == raw;
            assert(models[i].raw_text == raw && satisfied(models[i], observed));
        }
    }
    assert(matching(models, haystack) =~= wanted);
}

/// Where the text as a whole is one of the terms, it is the one thing that a
/// scan observes: a shorter term that only begins it goes unreported.
pub proof fn lemma_text_that_is_a_term_is_all_that_shows(terms: Seq<Seq<u8>>, hay: Seq<u8>)
    requires
        hay.len() > 0,
        terms.contains(hay),
    ensures
        observed_texts(terms, hay) == set![hay],
{
    let k = choose|k: int| 0 <= k < terms.len() && terms[k] == hay;
    assert(hay.subrange(0, hay.len() as int) =~= hay);
    assert(occurs_at(hay, 0, terms[k]));
    lemma_longest_at_is_a_term(terms, hay, 0);
    let n = longest_at(terms, hay, 0);
    assert(n == hay.len());
    let all = leftmost_longest(terms, hay, 0);
    assert(leftmost_longest(terms, hay, n as int).len() == 0);
    assert(all =~= seq![(0int, n as int)]);
    assert(all[0] == (0int, n as int));
    assert(observed_texts(terms, hay) =~= set![hay]);
}

} // verus!

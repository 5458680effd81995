//! Patterns: their model, their grammar, and the compiler from text.

use crate::error::MatcherError;
use crate::text::{split_on, split_spans, trim, trim_span};
use vstd::prelude::*;

verus! {

/// The two separators of the pattern grammar.
pub const SEP_NEG: char = '~';

pub const SEP_AND: char = '&';

/// One compiled pattern.
#[derive(Debug)]
pub struct Pattern {
    /// The text as it was registered; it is what a match reports.
    pub raw_text: String,
    /// The terms that must all be observed.
    pub positive_terms: Vec<String>,
    /// The groups of terms of which none may be observed in full.
    pub negative_groups: Vec<Vec<String>>,
}

/// What a pattern is, as mathematics.
pub struct PatternModel {
    pub raw_text: Seq<char>,
    pub positive_terms: Seq<Seq<char>>,
    pub negative_groups: Seq<Seq<Seq<char>>>,
}

impl View for Pattern {
    type V = PatternModel;

    open spec fn view(&self) -> PatternModel {
        PatternModel {
            raw_text: self.raw_text@,
            positive_terms: self.positive_terms.deep_view(),
            negative_groups: self.negative_groups.deep_view(),
        }
    }
}

impl DeepView for Pattern {
    type V = PatternModel;

    open spec fn deep_view(&self) -> PatternModel {
        self.view()
    }
}

impl Pattern {
    /// Adds a copy of every term of the pattern at the end of `out`: the
    /// positive terms first, then those of each negative group.
    pub fn push_terms(&self, out: &mut Vec<String>)
        ensures
            final(out).deep_view() == old(out).deep_view() + self@.terms(),
    {
        let ghost start = out.deep_view();
        let ghost model = self@;
        append_terms(out, &self.positive_terms);
        let mut g: usize = 0;
        proof {
            assert(model.negative_groups.take(0).flatten() =~= Seq::<Seq<char>>::empty());
            assert(out.deep_view() =~= start + model.positive_terms + Seq::<Seq<char>>::empty());
        }
        while g < self.negative_groups.len()
            invariant
                g <= self.negative_groups.len(),
                model == self@,
                out.deep_view() == start + model.positive_terms + model.negative_groups.take(
                    g as int,
                ).flatten(),
            decreases self.negative_groups.len() - g,
        {
            let ghost seen = model.negative_groups.take(g as int);
            proof {
                assert(model.negative_groups[g as int] == self.negative_groups[g as int].deep_view());
                assert(model.negative_groups.take(g + 1) =~= seen.push(
                    model.negative_groups[g as int],
                ));
                seen.lemma_flatten_push(model.negative_groups[g as int]);
            }
            append_terms(out, &self.negative_groups[g]);
            proof {
                assert(out.deep_view() =~= start + model.positive_terms
                    + model.negative_groups.take(g + 1).flatten());
            }
            g = g + 1;
        }
        proof {
            assert(model.negative_groups.take(g as int) =~= model.negative_groups);
            assert(out.deep_view() =~= start + model.terms());
        }
    }

    /// Every term of the pattern, in order.
    pub fn terms(&self) -> (terms: Vec<String>)
        ensures
            terms.deep_view() == self@.terms(),
    {
        let mut terms: Vec<String> = Vec::new();
        proof {
            assert(terms.deep_view() =~= Seq::<Seq<char>>::empty());
        }
        self.push_terms(&mut terms);
        proof {
            assert(Seq::<Seq<char>>::empty() + self@.terms() =~= self@.terms());
        }
        terms
    }
}

/// Adds a copy of each of `terms` at the end of `out`.
fn append_terms(out: &mut Vec<String>, terms: &Vec<String>)
    ensures
        final(out).deep_view() == old(out).deep_view() + terms.deep_view(),
{
    let mut i: usize = 0;
    proof {
        assert(out.deep_view() =~= old(out).deep_view() + terms.deep_view().take(0));
    }
    while i < terms.len()
        invariant
            i <= terms.len(),
            out.deep_view() == old(out).deep_view() + terms.deep_view().take(i as int),
        decreases terms.len() - i,
    {
        let ghost before = out.deep_view();
        out.push(terms[i].clone());
        proof {
            assert(out.deep_view() =~= before.push(terms[i as int]@));
            assert(terms.deep_view().take(i + 1) =~= terms.deep_view().take(i as int).push(
                terms[i as int]@,
            ));
            assert(out.deep_view() =~= old(out).deep_view() + terms.deep_view().take(i + 1));
        }
        i = i + 1;
    }
    proof {
        assert(terms.deep_view().take(i as int) =~= terms.deep_view());
    }
}

impl PatternModel {
    /// There is a positive term, no group is empty, and no term is empty.
    pub open spec fn well_formed(self) -> bool {
        &&& self.positive_terms.len() > 0
        &&& forall|i: int|
            0 <= i < self.positive_terms.len() ==> (#[trigger] self.positive_terms[i]).len() > 0
        &&& forall|g: int|
            0 <= g < self.negative_groups.len() ==> (#[trigger] self.negative_groups[g]).len() > 0
        &&& forall|g: int, i: int|
            0 <= g < self.negative_groups.len() && 0 <= i < self.negative_groups[g].len() ==> (
            #[trigger] self.negative_groups[g][i]).len() > 0
    }

    /// Every term of the pattern: the positive ones, then each group's.
    pub open spec fn terms(self) -> Seq<Seq<char>> {
        self.positive_terms + self.negative_groups.flatten()
    }
}

/// The terms that a list of pieces holds: each piece trimmed, the blank ones
/// left out.
pub open spec fn piece_terms(pieces: Seq<Seq<char>>) -> Seq<Seq<char>> {
    pieces.map_values(|piece: Seq<char>| trim(piece)).filter(|term: Seq<char>| term.len() > 0)
}

/// The terms of one clause: those of its pieces between `&`.
pub open spec fn clause_terms(clause: Seq<char>) -> Seq<Seq<char>> {
    piece_terms(split_on(clause, SEP_AND))
}

/// The groups of a run of negative clauses: each clause's terms, the clauses
/// without a term left out.
pub open spec fn clause_groups(clauses: Seq<Seq<char>>) -> Seq<Seq<Seq<char>>> {
    clauses.map_values(|clause: Seq<char>| clause_terms(clause)).filter(
        |group: Seq<Seq<char>>| group.len() > 0,
    )
}

/// What compiling `raw` yields.
///
/// Without logic the whole text is the one positive term. With logic the text
/// is cut at every `~`; the first clause gives the positive terms, the others
/// the negative groups.
pub open spec fn compiled(raw: Seq<char>, logic_enabled: bool) -> Result<PatternModel, MatcherError> {
    if raw.len() == 0 {
        Err(MatcherError::EmptyPattern)
    } else if !logic_enabled {
        Ok(PatternModel { raw_text: raw, positive_terms: seq![raw], negative_groups: Seq::empty() })
    } else {
        let clauses = split_on(raw, SEP_NEG);
        let positive = clause_terms(clauses.first());
        if positive.len() == 0 {
            Err(MatcherError::MissingPositiveTerm)
        } else {
            Ok(
                PatternModel {
                    raw_text: raw,
                    positive_terms: positive,
                    negative_groups: clause_groups(clauses.skip(1)),
                },
            )
        }
    }
}

/// No piece, no term.
proof fn lemma_piece_terms_empty()
    ensures
        piece_terms(Seq::empty()) == Seq::<Seq<char>>::empty(),
{
    reveal(Seq::filter);
    assert(Seq::<Seq<char>>::empty().map_values(|piece: Seq<char>| trim(piece)) =~= Seq::empty());
}

/// One more piece adds its trimmed text as the last term, unless that is
/// blank.
proof fn lemma_piece_terms_push(pieces: Seq<Seq<char>>, piece: Seq<char>)
    ensures
        piece_terms(pieces.push(piece)) == if trim(piece).len() > 0 {
            piece_terms(pieces).push(trim(piece))
        } else {
            piece_terms(pieces)
        },
{
    let trimmed = |piece: Seq<char>| trim(piece);
    let kept = |term: Seq<char>| term.len() > 0;
    assert(pieces.push(piece).map_values(trimmed) =~= pieces.map_values(trimmed).push(trim(piece)));
    pieces.map_values(trimmed).lemma_filter_push(trim(piece), kept);
}

/// No clause, no group.
proof fn lemma_clause_groups_empty()
    ensures
        clause_groups(Seq::empty()) == Seq::<Seq<Seq<char>>>::empty(),
{
    reveal(Seq::filter);
    assert(Seq::<Seq<char>>::empty().map_values(|clause: Seq<char>| clause_terms(clause))
        =~= Seq::empty());
}

/// One more clause adds its terms as the last group, unless it has none.
proof fn lemma_clause_groups_push(clauses: Seq<Seq<char>>, clause: Seq<char>)
    ensures
        clause_groups(clauses.push(clause)) == if clause_terms(clause).len() > 0 {
            clause_groups(clauses).push(clause_terms(clause))
        } else {
            clause_groups(clauses)
        },
{
    let termed = |clause: Seq<char>| clause_terms(clause);
    let kept = |group: Seq<Seq<char>>| group.len() > 0;
    assert(clauses.push(clause).map_values(termed) =~= clauses.map_values(termed).push(
        clause_terms(clause),
    ));
    clauses.map_values(termed).lemma_filter_push(clause_terms(clause), kept);
}

/// What compiles is well formed, and keeps its text.
pub proof fn lemma_compiled_is_well_formed(raw: Seq<char>, logic_enabled: bool)
    ensures
        compiled(raw, logic_enabled) matches Ok(model) ==> model.well_formed() && model.raw_text
            == raw,
{
    if raw.len() > 0 && logic_enabled {
        let clauses = split_on(raw, SEP_NEG);
        lemma_clause_terms_are_not_empty(clauses.first());
        let termed = |clause: Seq<char>| clause_terms(clause);
        let kept = |group: Seq<Seq<char>>| group.len() > 0;
        let groups = clause_groups(clauses.skip(1));
        assert forall|g: int| 0 <= g < groups.len() implies (#[trigger] groups[g]).len() > 0 && (
        forall|i: int| 0 <= i < groups[g].len() ==> (#[trigger] groups[g][i]).len() > 0) by {
            let candidates = clauses.skip(1).map_values(termed);
            candidates.lemma_filter_pred(kept, g);
            assert(candidates.filter(kept).contains(groups[g]));
            candidates.lemma_filter_contains_rev(kept, groups[g]);
            let j = choose|j: int| 0 <= j < candidates.len() && candidates[j] == groups[g];
            lemma_clause_terms_are_not_empty(clauses.skip(1)[j]);
        }
    }
}

/// No term of a clause is empty.
pub proof fn lemma_clause_terms_are_not_empty(clause: Seq<char>)
    ensures
        forall|i: int|
            0 <= i < clause_terms(clause).len() ==> (#[trigger] clause_terms(clause)[i]).len() > 0,
{
    let trimmed = |piece: Seq<char>| trim(piece);
    let kept = |term: Seq<char>| term.len() > 0;
    let pieces = split_on(clause, SEP_AND);
    assert forall|i: int| 0 <= i < clause_terms(clause).len() implies (#[trigger] clause_terms(
        clause,
    )[i]).len() > 0 by {
        pieces.map_values(trimmed).lemma_filter_pred(kept, i);
    }
}

/// The characters of `s`, one by one.
pub fn chars_of(s: &str) -> (text: Vec<char>)
    ensures
        text@ == s@,
{
    let mut text: Vec<char> = Vec::new();
    for c in it: s.chars()
        invariant
            it.seq() == s@,
            text@ == it.seq().take(it.index() as int),
    {
        text.push(c);
    }
    text
}

/// The terms of the clause that `text` holds between `lo` and `hi`.
fn clause_terms_of(raw: &str, text: &Vec<char>, lo: usize, hi: usize) -> (terms: Vec<String>)
    requires
        text@ == raw@,
        lo <= hi <= text.len(),
    ensures
        terms.deep_view() == clause_terms(text@.subrange(lo as int, hi as int)),
{
    let pieces = split_spans(text, lo, hi, SEP_AND);
    let ghost all = split_on(text@.subrange(lo as int, hi as int), SEP_AND);
    let mut terms: Vec<String> = Vec::new();
    let mut k: usize = 0;
    proof {
        lemma_piece_terms_empty();
        assert(all.take(0) =~= Seq::<Seq<char>>::empty());
        assert(terms.deep_view() =~= Seq::<Seq<char>>::empty());
    }
    while k < pieces.len()
        invariant
            k <= pieces.len() == all.len(),
            text@ == raw@,
            forall|j: int|
                0 <= j < pieces.len() ==> {
                    &&& (#[trigger] pieces[j]).0 <= pieces[j].1 <= text.len()
                    &&& text@.subrange(pieces[j].0 as int, pieces[j].1 as int) == all[j]
                },
            terms.deep_view() == piece_terms(all.take(k as int)),
        decreases pieces.len() - k,
    {
        let piece = pieces[k];
        let (a, b) = trim_span(text, piece.0, piece.1);
        let ghost before = terms.deep_view();
        proof {
            assert(all.take(k + 1) =~= all.take(k as int).push(all[k as int]));
            lemma_piece_terms_push(all.take(k as int), all[k as int]);
        }
        if a < b {
            let term = raw.substring_char(a, b).to_owned();
            terms.push(term);
            proof {
                assert(terms.deep_view() =~= before.push(trim(all[k as int])));
            }
        } else {
            proof {
                assert(trim(all[k as int]).len() == 0);
            }
        }
        k = k + 1;
    }
    proof {
        assert(all.take(k as int) =~= all);
    }
    terms
}

/// Compiles one pattern string.
///
/// An empty string is refused. Without logic the string is kept whole as the
/// one term to look for. With logic it is read by the grammar of `compiled`,
/// and refused where the clause before the first `~` holds no term.
pub fn compile(raw: &str, logic_enabled: bool) -> (outcome: Result<Pattern, MatcherError>)
    ensures
        match compiled(raw@, logic_enabled) {
            Ok(model) => outcome is Ok && outcome->Ok_0@ == model,
            Err(error) => outcome == Err::<Pattern, MatcherError>(error),
        },
{
    if raw.is_empty() {
        return Err(MatcherError::EmptyPattern);
    }
    if !logic_enabled {
        let mut positive: Vec<String> = Vec::new();
        positive.push(raw.to_owned());
        let negative: Vec<Vec<String>> = Vec::new();
        proof {
            assert(positive.deep_view() =~= seq![raw@]);
            assert(negative.deep_view() =~= Seq::<Seq<Seq<char>>>::empty());
        }
        return Ok(
            Pattern { raw_text: raw.to_owned(), positive_terms: positive, negative_groups: negative },
        );
    }
    let text = chars_of(raw);
    let clauses = split_spans(&text, 0, text.len(), SEP_NEG);
    let ghost all = split_on(raw@, SEP_NEG);
    proof {
        assert(text@.subrange(0, text.len() as int) =~= raw@);
        crate::text::lemma_split_nonempty(raw@, SEP_NEG);
    }
    let positive = clause_terms_of(raw, &text, clauses[0].0, clauses[0].1);
    if positive.len() == 0 {
        return Err(MatcherError::MissingPositiveTerm);
    }
    let mut negative: Vec<Vec<String>> = Vec::new();
    let mut k: usize = 1;
    proof {
        lemma_clause_groups_empty();
        assert(all.subrange(1, 1) =~= Seq::<Seq<char>>::empty());
        assert(negative.deep_view() =~= Seq::<Seq<Seq<char>>>::empty());
    }
    while k < clauses.len()
        invariant
            1 <= k <= clauses.len() == all.len(),
            text@ == raw@,
            forall|j: int|
                0 <= j < clauses.len() ==> {
                    &&& (#[trigger] clauses[j]).0 <= clauses[j].1 <= text.len()
                    &&& text@.subrange(clauses[j].0 as int, clauses[j].1 as int) == all[j]
                },
            negative.deep_view() == clause_groups(all.subrange(1, k as int)),
        decreases clauses.len() - k,
    {
        let clause = clauses[k];
        let group = clause_terms_of(raw, &text, clause.0, clause.1);
        let ghost before = negative.deep_view();
        proof {
            let seen = all.subrange(1, k as int);
            assert(all.subrange(1, k + 1) =~= seen.push(all[k as int]));
            lemma_clause_groups_push(seen, all[k as int]);
        }
        if group.len() > 0 {
            negative.push(group);
            proof {
                assert(negative.deep_view() =~= before.push(clause_terms(all[k as int])));
            }
        }
        k = k + 1;
    }
    proof {
        assert(all.subrange(1, k as int) =~= all.skip(1));
    }
    Ok(Pattern { raw_text: raw.to_owned(), positive_terms: positive, negative_groups: negative })
}

} // verus!

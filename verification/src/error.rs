//! What can go wrong while building or querying a matcher.

use vstd::prelude::*;

verus! {

/// The ways in which a call on a matcher fails.
#[derive(Debug, PartialEq, Eq)]
pub enum MatcherError {
    /// A pattern string was empty.
    EmptyPattern,
    /// The clause before the first `~` of a pattern held no term.
    MissingPositiveTerm,
    /// No pattern was given, so there is nothing to index.
    EmptyVocabulary,
    /// A text was to be searched before any build had succeeded.
    NotBuilt,
    /// The automaton could not be made; the text is the builder's own.
    Automaton(String),
}

impl MatcherError {
    /// The words in which the error is reported.
    pub open spec fn message_text(self) -> Seq<char> {
        match self {
            MatcherError::EmptyPattern => "Pattern cannot be empty"@,
            MatcherError::MissingPositiveTerm => "Pattern must contain at least one positive term before '~'"@,
            MatcherError::EmptyVocabulary => "At least one pattern is required"@,
            MatcherError::NotBuilt => "AhoCorasick not built. Call build() first."@,
            MatcherError::Automaton(text) => text@,
        }
    }

    /// The words in which the error is reported.
    pub fn message(&self) -> (text: String)
        ensures
            text@ == self.message_text(),
    {
        match self {
            MatcherError::EmptyPattern => "Pattern cannot be empty".to_owned(),
            MatcherError::MissingPositiveTerm => "Pattern must contain at least one positive term before '~'".to_owned(),
            MatcherError::EmptyVocabulary => "At least one pattern is required".to_owned(),
            MatcherError::NotBuilt => "AhoCorasick not built. Call build() first.".to_owned(),
            MatcherError::Automaton(text) => text.clone(),
        }
    }
}

} // verus!

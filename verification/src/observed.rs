//! The observed-term set: the texts that one scan of one text has matched.

use crate::textset::{slots_for, TextSet};
use vstd::prelude::*;
use vstd::utf8::encode_utf8;

verus! {

/// `term` is among the observed texts. Texts are compared as the bytes of
/// their UTF-8 encoding, which is how the automaton sees them.
pub open spec fn is_observed(term: Seq<char>, observed: Set<Seq<u8>>) -> bool {
    observed.contains(encode_utf8(term))
}

/// Two texts with the same encoding are the same text.
pub proof fn lemma_encoding_tells_texts_apart(a: Seq<char>, b: Seq<char>)
    requires
        encode_utf8(a) == encode_utf8(b),
    ensures
        a == b,
{
    vstd::utf8::encode_utf8_decode_utf8(a);
    vstd::utf8::encode_utf8_decode_utf8(b);
}

/// The texts that one scan has matched, as a set of byte strings.
#[derive(Debug)]
pub struct ObservedTerms {
    texts: TextSet,
}

impl View for ObservedTerms {
    type V = Set<Seq<u8>>;

    closed spec fn view(&self) -> Set<Seq<u8>> {
        self.texts@
    }
}

impl ObservedTerms {
    /// The number of slots over which the observed texts are spread.
    pub closed spec fn slots(&self) -> int {
        self.texts.slots()
    }

    /// The set in which nothing was observed, kept in a single slot.
    pub fn new() -> (observed: ObservedTerms)
        ensures
            observed@ == Set::<Seq<u8>>::empty(),
            observed.slots() == 1,
    {
        ObservedTerms { texts: TextSet::with_capacity(0) }
    }

    /// The set in which nothing was observed, laid out for about `expected`
    /// texts.
    pub fn with_capacity(expected: usize) -> (observed: ObservedTerms)
        ensures
            observed@ == Set::<Seq<u8>>::empty(),
            observed.slots() == slots_for(expected),
    {
        ObservedTerms { texts: TextSet::with_capacity(expected) }
    }

    /// Tells whether `text` was observed.
    pub fn holds(&self, text: &[u8]) -> (found: bool)
        ensures
            found == self@.contains(text@),
    {
        self.texts.holds(text)
    }

    /// Records `text` as observed.
    pub fn insert(&mut self, text: &[u8])
        ensures
            final(self)@ == old(self)@.insert(text@),
            final(self).slots() == old(self).slots(),
    {
        let _ = self.texts.insert(text);
    }

    /// Tells whether the bytes of `term` were observed.
    pub fn contains(&self, term: &str) -> (found: bool)
        ensures
            found == is_observed(term@, self@),
    {
        self.texts.holds(term.as_bytes())
    }
}

} // verus!

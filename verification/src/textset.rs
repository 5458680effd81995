//! A hashed set of byte strings.

use vstd::prelude::*;
use vstd::wrapping::u64_specs::wrapping_mul;

verus! {

/// The value from which the hash of a text starts.
pub const HASH_SEED: u64 = 0xcbf2_9ce4_8422_2325;

/// The factor by which the hash is multiplied for each byte.
pub const HASH_PRIME: u64 = 0x0000_0100_0000_01b3;

/// The most slots that a set is given.
pub const MAX_SLOTS: usize = 0x10_0000;

/// The hash of a text: each byte in turn is folded in, then the whole is
/// multiplied, with wrap-around.
pub open spec fn text_hash(text: Seq<u8>) -> u64
    decreases text.len(),
{
    if text.len() == 0 {
        HASH_SEED
    } else {
        wrapping_mul(text_hash(text.drop_last()) ^ (text.last() as u64), HASH_PRIME)
    }
}

/// The number of slots that a set laid out for about `expected` texts is
/// given: one for each text, but at least one and at most `MAX_SLOTS`.
pub open spec fn slots_for(expected: usize) -> int {
    if expected < 1 {
        1
    } else if expected > MAX_SLOTS {
        MAX_SLOTS as int
    } else {
        expected as int
    }
}

/// The slot, of `slots` many, in which a text is kept.
pub open spec fn slot_of(text: Seq<u8>, slots: int) -> int {
    text_hash(text) as int % slots
}

/// Tells whether two byte strings are the same.
pub fn bytes_eq(a: &[u8], b: &[u8]) -> (same: bool)
    ensures
        same == (a@ == b@),
{
    if a.len() != b.len() {
        return false;
    }
    let mut i: usize = 0;
    while i < a.len()
        invariant
            i <= a.len() == b.len(),
            a@.take(i as int) == b@.take(i as int),
        decreases a.len() - i,
    {
        if a[i] != b[i] {
            return false;
        }
        proof {
            assert(a@.take(i + 1) =~= a@.take(i as int).push(a@[i as int]));
            assert(b@.take(i + 1) =~= b@.take(i as int).push(b@[i as int]));
        }
        i = i + 1;
    }
    proof {
        assert(a@.take(i as int) =~= a@);
        assert(b@.take(i as int) =~= b@);
    }
    true
}

/// Computes the hash of `text`.
pub fn hash_bytes(text: &[u8]) -> (hash: u64)
    ensures
        hash == text_hash(text@),
{
    let mut hash: u64 = HASH_SEED;
    let mut i: usize = 0;
    proof {
        assert(text@.take(0) =~= Seq::<u8>::empty());
    }
    while i < text.len()
        invariant
            i <= text.len(),
            hash == text_hash(text@.take(i as int)),
        decreases text.len() - i,
    {
        proof {
            assert(text@.take(i + 1).drop_last() =~= text@.take(i as int));
        }
        hash = (hash ^ (text[i] as u64)).wrapping_mul(HASH_PRIME);
        i = i + 1;
    }
    proof {
        assert(text@.take(i as int) =~= text@);
    }
    hash
}

/// A copy of `text` that owns its bytes.
pub fn copy_bytes(text: &[u8]) -> (copy: Vec<u8>)
    ensures
        copy@ == text@,
{
    let mut copy: Vec<u8> = Vec::new();
    let mut i: usize = 0;
    while i < text.len()
        invariant
            i <= text.len(),
            copy@ == text@.take(i as int),
        decreases text.len() - i,
    {
        copy.push(text[i]);
        proof {
            assert(text@.take(i + 1) =~= text@.take(i as int).push(text@[i as int]));
        }
        i = i + 1;
    }
    proof {
        assert(text@.take(i as int) =~= text@);
    }
    copy
}

/// Tells whether `text` is one of the texts of `bucket`.
fn bucket_holds(bucket: &Vec<Vec<u8>>, text: &[u8]) -> (found: bool)
    ensures
        found == bucket.deep_view().contains(text@),
{
    let mut i: usize = 0;
    while i < bucket.len()
        invariant
            i <= bucket.len(),
            forall|j: int| 0 <= j < i ==> bucket.deep_view()[j] != text@,
        decreases bucket.len() - i,
    {
        proof {
            assert(bucket.deep_view()[i as int] =~= bucket[i as int]@);
        }
        if bytes_eq(bucket[i].as_slice(), text) {
            return true;
        }
        i = i + 1;
    }
    false
}

/// A set of byte strings. Each text is kept in the slot that its hash
/// assigns, so a look-up reads one slot only.
#[derive(Debug)]
pub struct TextSet {
    buckets: Vec<Vec<Vec<u8>>>,
}

impl View for TextSet {
    type V = Set<Seq<u8>>;

    closed spec fn view(&self) -> Set<Seq<u8>> {
        Set::new(
            |text: Seq<u8>|
                self.buckets.deep_view()[slot_of(text, self.buckets.len() as int)].contains(text),
        )
    }
}

impl TextSet {
    /// The number of slots over which the texts are spread.
    pub closed spec fn slots(&self) -> int {
        self.buckets.len() as int
    }

    #[verifier::type_invariant]
    spec fn inv(&self) -> bool {
        self.buckets.len() > 0
    }

    /// The empty set, laid out for about `expected` texts.
    pub fn with_capacity(expected: usize) -> (set: TextSet)
        ensures
            set@ == Set::<Seq<u8>>::empty(),
            set.slots() == slots_for(expected),
    {
        let slots: usize = if expected < 1 {
            1
        } else if expected > MAX_SLOTS {
            MAX_SLOTS
        } else {
            expected
        };
        let mut buckets: Vec<Vec<Vec<u8>>> = Vec::new();
        let mut i: usize = 0;
        while i < slots
            invariant
                i <= slots,
                buckets.len() == i,
                forall|b: int| 0 <= b < i ==> (#[trigger] buckets[b]).len() == 0,
            decreases slots - i,
        {
            buckets.push(Vec::new());
            i = i + 1;
        }
        let set = TextSet { buckets };
        proof {
            assert forall|text: Seq<u8>| !set@.contains(text) by {
                let b = slot_of(text, set.buckets.len() as int);
                assert(set.buckets.deep_view()[b] =~= Seq::<Seq<u8>>::empty());
            }
            assert(set@ =~= Set::<Seq<u8>>::empty());
        }
        set
    }

    /// The slot in which `text` is kept.
    fn slot(&self, text: &[u8]) -> (slot: usize)
        ensures
            slot == slot_of(text@, self.buckets.len() as int),
            slot < self.buckets.len(),
    {
        proof {
            use_type_invariant(self);
        }
        let slots: u64 = self.buckets.len() as u64;
        (hash_bytes(text) % slots) as usize
    }

    /// Tells whether `text` is in the set.
    pub fn holds(&self, text: &[u8]) -> (found: bool)
        ensures
            found == self@.contains(text@),
    {
        let slot = self.slot(text);
        proof {
            assert(self.buckets.deep_view()[slot as int] == self.buckets[slot as int].deep_view());
        }
        bucket_holds(&self.buckets[slot], text)
    }

    /// Puts `text` into the set, and tells whether it was new.
    pub fn insert(&mut self, text: &[u8]) -> (added: bool)
        ensures
            final(self)@ == old(self)@.insert(text@),
            final(self).slots() == old(self).slots(),
            added == !old(self)@.contains(text@),
    {
        proof {
            use_type_invariant(&*self);
        }
        if self.holds(text) {
            proof {
                assert(self@.insert(text@) =~= self@);
            }
            return false;
        }
        let slot = self.slot(text);
        let ghost before = self.buckets.deep_view();
        let ghost plain = self.buckets@;
        let copy = copy_bytes(text);
        self.buckets[slot].push(copy);
        proof {
            let after = self.buckets.deep_view();
            assert(self.buckets@[slot as int]@ == plain[slot as int]@.push(copy));
            assert(copy.deep_view() =~= text@);
            assert(after[slot as int] =~= before[slot as int].push(text@));
            assert(forall|b: int| 0 <= b < plain.len() && b != slot ==> self.buckets@[b] == plain[b]);
            assert forall|other: Seq<u8>| self@.contains(other) <==> old(self)@.insert(
                text@,
            ).contains(other) by {
                let b = slot_of(other, before.len() as int);
                if b != slot {
                    assert(after[b] =~= before[b]);
                } else {
                    if before[b].contains(other) {
                        let j = choose|j: int| 0 <= j < before[b].len() && before[b][j] == other;
                        assert(after[b][j] == other);
                    }
                    if other == text@ {
                        assert(after[b][before[b].len() as int] == other);
                    }
                }
            }
            assert(self@ =~= old(self)@.insert(text@));
        }
        true
    }
}

} // verus!

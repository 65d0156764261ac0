//! Sets of MIDI pitches.

use vstd::prelude::*;

verus! {

/// Pitches run from 0 to 127.
pub const PITCH_LIMIT: u8 = 128;

/// A set of pitches, kept as one bit per pitch.
#[derive(Clone, Copy, Debug)]
pub struct PitchSet {
    bits: u128,
}

/// Whether bit `key` of `bits` is set.
pub open spec fn bit_set(bits: u128, key: u8) -> bool {
    bits & (1u128 << (key as u128)) != 0
}

impl View for PitchSet {
    type V = Set<u8>;

    closed spec fn view(&self) -> Set<u8> {
        Set::new(|key: u8| key < PITCH_LIMIT && bit_set(self.bits, key))
    }
}

/// The members of `pitches` below `limit`, in ascending order.
pub open spec fn ascending_below(pitches: Set<u8>, limit: nat) -> Seq<u8>
    decreases limit,
{
    if limit == 0 {
        Seq::empty()
    } else {
        let lower = ascending_below(pitches, (limit - 1) as nat);
        if pitches.contains((limit - 1) as u8) {
            lower.push((limit - 1) as u8)
        } else {
            lower
        }
    }
}

/// The members of `pitches` in ascending order.
pub open spec fn ascending(pitches: Set<u8>) -> Seq<u8> {
    ascending_below(pitches, 256)
}

/// Raising the limit past every member changes nothing.
pub proof fn lemma_ascending_saturates(pitches: Set<u8>, bound: nat, limit: nat)
    requires
        bound <= limit <= 256,
        forall|key: u8| pitches.contains(key) ==> key < bound,
    ensures
        ascending_below(pitches, limit) == ascending_below(pitches, bound),
    decreases limit,
{
    if bound < limit {
        lemma_ascending_saturates(pitches, bound, (limit - 1) as nat);
    }
}

/// The empty set has no members to list.
pub proof fn lemma_ascending_of_empty(limit: nat)
    ensures
        ascending_below(Set::<u8>::empty(), limit) == Seq::<u8>::empty(),
    decreases limit,
{
    if limit > 0 {
        lemma_ascending_of_empty((limit - 1) as nat);
    }
}

impl PitchSet {
    /// The empty set.
    pub fn new() -> (set: Self)
        ensures
            set@ == Set::<u8>::empty(),
    {
        let set = PitchSet { bits: 0 };
        proof {
            assert forall|key: u8| !set@.contains(key) by {
                assert(0u128 & (1u128 << (key as u128)) == 0) by (bit_vector);
            }
            assert(set@ =~= Set::<u8>::empty());
        }
        set
    }

    /// Every member is a pitch.
    pub proof fn lemma_bounded(self)
        ensures
            forall|key: u8| self@.contains(key) ==> key < PITCH_LIMIT,
    {
    }

    /// Adds `key` to the set.
    pub fn insert(&mut self, key: u8)
        requires
            key < PITCH_LIMIT,
        ensures
            final(self)@ == old(self)@.insert(key),
    {
        let ghost before = self.bits;
        self.bits = self.bits | (1u128 << (key as u128));
        proof {
            let after = self.bits;
            assert forall|other: u8| other < PITCH_LIMIT implies bit_set(after, other) == (bit_set(
                before,
                other,
            ) || other == key) by {
                assert(((before | (1u128 << (key as u128))) & (1u128 << (other as u128)) != 0) == ((
                before & (1u128 << (other as u128)) != 0) || other == key)) by (bit_vector)
                    requires
                        key < 128,
                        other < 128,
                ;
            }
            assert(self@ =~= old(self)@.insert(key));
        }
    }

    /// Whether `key` is in the set.
    pub fn contains(&self, key: u8) -> (found: bool)
        ensures
            found == self@.contains(key),
    {
        key < PITCH_LIMIT && self.bits & (1u128 << (key as u128)) != 0
    }

    /// The members in ascending order.
    pub fn to_vec(&self) -> (keys: Vec<u8>)
        ensures
            keys@ == ascending(self@),
    {
        let mut keys: Vec<u8> = Vec::new();
        if self.bits == 0 {
            proof {
                assert forall|key: u8| !self@.contains(key) by {
                    assert(0u128 & (1u128 << (key as u128)) == 0) by (bit_vector);
                }
                assert(self@ =~= Set::<u8>::empty());
                lemma_ascending_of_empty(256);
            }
            return keys;
        }
        let mut key: u8 = 0;
        while key < PITCH_LIMIT
            invariant
                key <= PITCH_LIMIT,
                keys@ == ascending_below(self@, key as nat),
            decreases PITCH_LIMIT - key,
        {
            if self.bits & (1u128 << (key as u128)) != 0 {
                keys.push(key);
            }
            key += 1;
        }
        proof {
            lemma_ascending_saturates(self@, PITCH_LIMIT as nat, 256);
        }
        keys
    }
}

} // verus!

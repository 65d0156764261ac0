//! The piano roll: which pitches sound on which channel at which column.

use crate::pitch::{PitchSet, PITCH_LIMIT};
use vstd::prelude::*;

verus! {

/// Number of channels that a sheet can name.
pub const CHANNELS: usize = 256;

/// One sounding pitch: channel, column and pitch.
pub type Note = (u8, int, u8);

/// A piano roll of fixed width.
///
/// A channel owns a lane, one pitch set per column, from the moment its
/// first pitch is placed.
#[derive(Debug)]
pub struct PianoRoll {
    width: usize,
    lanes: Vec<Option<Vec<PitchSet>>>,
}

/// Whether any of `notes` sounds on `channel`.
pub open spec fn sounds_on(notes: Set<Note>, channel: u8) -> bool {
    exists|x: int, key: u8| notes.contains((channel, x, key))
}

/// The pitches among `notes` that sound on `channel` at column `x`.
pub open spec fn pitches_at(notes: Set<Note>, channel: u8, x: int) -> Set<u8> {
    Set::new(|key: u8| notes.contains((channel, x, key)))
}

/// The lane of `channel` in a roll of `width` columns: the pitches among
/// `notes` that sound on it, column by column.
pub open spec fn lane_in(notes: Set<Note>, width: nat, channel: u8) -> Seq<Set<u8>> {
    Seq::new(width, |x: int| pitches_at(notes, channel, x))
}

/// The pitch sets of a lane as mathematical sets.
pub open spec fn lane_view(lane: Seq<PitchSet>) -> Seq<Set<u8>> {
    Seq::new(lane.len(), |x: int| lane[x]@)
}

impl View for PianoRoll {
    type V = Set<Note>;

    /// The notes that have been placed.
    closed spec fn view(&self) -> Set<Note> {
        Set::new(
            |note: Note|
                self.lanes[note.0 as int] matches Some(lane) && 0 <= note.1 < lane.len()
                    && lane[note.1]@.contains(note.2),
        )
    }
}

impl PianoRoll {
    /// The internal invariant: there is a slot for every channel, every
    /// lane spans the whole width and holds at least one pitch.
    pub closed spec fn wf(&self) -> bool {
        &&& self.lanes.len() == CHANNELS
        &&& forall|channel: int|
            0 <= channel < CHANNELS ==> (#[trigger] self.lanes[channel] matches Some(lane)
                ==> lane.len() == self.width && exists|x: int|
                0 <= x < lane.len() && !(#[trigger] lane[x]@.is_empty()))
    }

    /// Number of columns.
    pub closed spec fn spec_width(&self) -> nat {
        self.width as nat
    }

    /// Every note lies within the width and is a pitch.
    pub proof fn lemma_notes_in_range(&self)
        requires
            self.wf(),
        ensures
            forall|note: Note| #[trigger]
                self@.contains(note) ==> 0 <= note.1 < self.spec_width() && note.2 < PITCH_LIMIT,
    {
        assert forall|note: Note| #[trigger] self@.contains(note) implies 0 <= note.1
            < self.spec_width() && note.2 < PITCH_LIMIT by {
            let lane = self.lanes[note.0 as int]->0;
            lane[note.1].lemma_bounded();
        }
    }

    /// An empty roll of `width` columns.
    pub fn new(width: usize) -> (roll: Self)
        ensures
            roll.wf(),
            roll.spec_width() == width,
            roll@ == Set::<Note>::empty(),
    {
        let mut lanes: Vec<Option<Vec<PitchSet>>> = Vec::new();
        let mut channel: usize = 0;
        while channel < CHANNELS
            invariant
                channel <= CHANNELS,
                lanes.len() == channel,
                forall|c: int| 0 <= c < channel ==> lanes[c] is None,
            decreases CHANNELS - channel,
        {
            lanes.push(None);
            channel += 1;
        }
        let roll = PianoRoll { width, lanes };
        assert(roll@ =~= Set::<Note>::empty());
        roll
    }

    /// Number of columns.
    pub fn width(&self) -> (width: usize)
        ensures
            width == self.spec_width(),
    {
        self.width
    }

    /// Places pitch `key` on `channel` at column `x`.
    pub fn insert(&mut self, channel: u8, x: usize, key: u8)
        requires
            old(self).wf(),
            x < old(self).spec_width(),
            key < PITCH_LIMIT,
        ensures
            final(self).wf(),
            final(self).spec_width() == old(self).spec_width(),
            final(self)@ == old(self)@.insert((channel, x as int, key)),
    {
        let c = channel as usize;
        if self.lanes[c].is_none() {
            let mut lane: Vec<PitchSet> = Vec::new();
            let mut i: usize = 0;
            while i < self.width
                invariant
                    i <= self.width,
                    lane.len() == i,
                    forall|j: int| 0 <= j < i ==> lane[j]@ == Set::<u8>::empty(),
                decreases self.width - i,
            {
                lane.push(PitchSet::new());
                i += 1;
            }
            let mut set = PitchSet::new();
            set.insert(key);
            lane.set(x, set);
            self.lanes.set(c, Some(lane));
            proof {
                let lane = self.lanes[c as int]->0;
                assert(lane[x as int]@.contains(key));
                assert(!lane[x as int]@.is_empty());
                assert(self@ =~= old(self)@.insert((channel, x as int, key)));
            }
        } else {
            let ghost before = self.lanes[c as int]->0;
            match &mut self.lanes[c] {
                Some(lane) => {
                    lane[x].insert(key);
                },
                None => {},
            }
            proof {
                let lane = self.lanes[c as int]->0;
                assert(lane@ == before@.update(x as int, lane[x as int]));
                assert(lane[x as int]@ == before[x as int]@.insert(key));
                let w = choose|w: int| 0 <= w < before.len() && !(#[trigger] before[w]@.is_empty());
                let k = choose|k: u8| before[w]@.contains(k);
                assert(lane[w]@.contains(k));
                assert(!lane[w]@.is_empty());
                assert(self@ =~= old(self)@.insert((channel, x as int, key)));
            }
        }
    }

    /// Whether pitch `key` sounds on `channel` at column `x`.
    pub fn contains(&self, channel: u8, x: usize, key: u8) -> (found: bool)
        requires
            self.wf(),
        ensures
            found == self@.contains((channel, x as int, key)),
    {
        match &self.lanes[channel as usize] {
            Some(lane) => x < lane.len() && lane[x].contains(key),
            None => false,
        }
    }

    /// The lane of `channel`, if any pitch sounds on it.
    pub fn lane(&self, channel: u8) -> (lane: Option<&Vec<PitchSet>>)
        requires
            self.wf(),
        ensures
            lane is Some <==> sounds_on(self@, channel),
            lane matches Some(sets) ==> sets.len() == self.spec_width() && lane_view(sets@)
                == lane_in(self@, self.spec_width(), channel),
    {
        let found = self.lanes[channel as usize].as_ref();
        proof {
            match found {
                Some(sets) => {
                    let w = choose|w: int| 0 <= w < sets.len() && !(#[trigger] sets[w]@.is_empty());
                    let k = choose|k: u8| sets[w]@.contains(k);
                    assert(self@.contains((channel, w, k)));
                    assert(lane_view(sets@) =~~= lane_in(self@, self.spec_width(), channel));
                },
                None => {
                    assert forall|x: int, key: u8| !self@.contains((channel, x, key)) by {}
                },
            }
        }
        found
    }
}

} // verus!

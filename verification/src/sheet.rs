//! Sheet symbols and the configuration that gives them musical meaning.

use std::collections::HashMap;
use vstd::prelude::*;

verus! {

/// Number of grid rows that carry a pitch.
pub const PITCH_ROWS: usize = 14;

/// Pitch of each grid row for note symbols: a diatonic run that descends
/// from B4.
pub const GMSF_KEY_LOOKUP: [u8; 14] = [71, 69, 67, 65, 64, 62, 60, 59, 57, 55, 53, 52, 50, 48];

/// Percussion instrument of each grid row for drum symbols.
pub const GMSF_DRUMS_LOOKUP: [u8; 14] = [36, 39, 59, 38, 43, 45, 49, 36, 39, 59, 38, 43, 45, 49];

/// The MIDI channel reserved for percussion.
pub const DRUM_CHANNEL: u8 = 9;

/// Semitones between a note and the low note of the same row.
pub const LOW_NOTE_DROP: u8 = 24;

#[derive(Clone, Copy, PartialEq, Eq, Structural, Debug)]
pub enum Accidental {
    Natural,
    Flat,
    Sharp,
}

#[derive(Clone, Copy, PartialEq, Eq, Structural, Debug)]
pub enum GMSFSheetType {
    Note(u8, Accidental),
    LowNote(u8, Accidental),
    Drums,
    RepeatBegin,
    RepeatEnd,
    Other,
}

/// What a track of the output is announced with.
#[derive(Debug)]
pub struct TrackInfo {
    /// MIDI program number.
    pub patch: u8,
    /// Track name.
    pub name: String,
}

/// The meaning of channels and of grid symbols.
#[derive(Debug)]
pub struct Config {
    /// For each channel that may be written out, how its track is announced.
    pub midi_track_map: HashMap<u8, TrackInfo>,
    /// For each symbol identifier, what it stands for.
    pub gmsf_sheet_map: HashMap<u8, GMSFSheetType>,
}

/// Semitones by which an accidental moves a pitch.
pub open spec fn semitones(accidental: Accidental) -> int {
    match accidental {
        Accidental::Natural => 0,
        Accidental::Flat => -1,
        Accidental::Sharp => 1,
    }
}

impl GMSFSheetType {
    /// Whether the symbol sounds, that is, stands for a note or a drum hit.
    pub open spec fn is_pitched(self) -> bool {
        self is Note || self is LowNote || self is Drums
    }
}

/// The channel and pitch that a symbol in row `y` sounds, if it sounds.
///
/// Notes take the pitch of their row, low notes lie two octaves below, and
/// an accidental moves either by a semitone.  Drums always play on the
/// percussion channel.
pub open spec fn channel_and_key(sheet_type: GMSFSheetType, y: int) -> Option<(u8, u8)> {
    match sheet_type {
        GMSFSheetType::Note(channel_id, accidental) => Some(
            (channel_id, (GMSF_KEY_LOOKUP[y] + semitones(accidental)) as u8),
        ),
        GMSFSheetType::LowNote(channel_id, accidental) => Some(
            (channel_id, (GMSF_KEY_LOOKUP[y] - LOW_NOTE_DROP + semitones(accidental)) as u8),
        ),
        GMSFSheetType::Drums => Some((DRUM_CHANNEL, GMSF_DRUMS_LOOKUP[y])),
        _ => None,
    }
}

/// Every pitch that a symbol can sound lies between 23 and 72.
pub proof fn lemma_key_range(sheet_type: GMSFSheetType, y: int)
    requires
        0 <= y < PITCH_ROWS,
    ensures
        channel_and_key(sheet_type, y) matches Some((_, key)) ==> 23 <= key <= 72,
{
}

/// Computes the channel and pitch of a symbol placed in row `y`.
///
/// A symbol that sounds must lie in one of the fourteen pitch rows; for the
/// other symbols the row is irrelevant and the result is `None`.
pub fn channel_and_key_from_gmsf_sheet(sheet_type: GMSFSheetType, y: usize) -> (sound: Option<
    (u8, u8),
>)
    requires
        sheet_type.is_pitched() ==> y < PITCH_ROWS,
    ensures
        sound == channel_and_key(sheet_type, y as int),
        sound is Some <==> sheet_type.is_pitched(),
{
    match sheet_type {
        GMSFSheetType::Note(channel_id, accidental) => {
            let mut key: u8 = GMSF_KEY_LOOKUP[y];
            if let Accidental::Flat = accidental {
                key -= 1;
            }
            if let Accidental::Sharp = accidental {
                key += 1;
            }
            Some((channel_id, key))
        },
        GMSFSheetType::LowNote(channel_id, accidental) => {
            let mut key: u8 = GMSF_KEY_LOOKUP[y] - LOW_NOTE_DROP;
            if let Accidental::Flat = accidental {
                key -= 1;
            }
            if let Accidental::Sharp = accidental {
                key += 1;
            }
            Some((channel_id, key))
        },
        GMSFSheetType::Drums => Some((DRUM_CHANNEL, GMSF_DRUMS_LOOKUP[y])),
        _ => None,
    }
}

impl Config {
    /// The meaning of symbol `id`, if the configuration gives it one.
    pub open spec fn symbol(&self, id: u8) -> Option<GMSFSheetType> {
        if self.gmsf_sheet_map@.contains_key(id) {
            Some(self.gmsf_sheet_map@[id])
        } else {
            None
        }
    }

    /// The announcement of channel `channel`, if it has one.
    pub open spec fn track(&self, channel: u8) -> Option<TrackInfo> {
        if self.midi_track_map@.contains_key(channel) {
            Some(self.midi_track_map@[channel])
        } else {
            None
        }
    }

    /// Looks up the meaning of symbol `id`.
    pub fn symbol_of(&self, id: u8) -> (found: Option<GMSFSheetType>)
        ensures
            found == self.symbol(id),
    {
        broadcast use vstd::std_specs::hash::group_hash_axioms;

        match self.gmsf_sheet_map.get(&id) {
            Some(sheet) => Some(*sheet),
            None => None,
        }
    }

    /// Looks up the announcement of channel `channel`.
    pub fn track_of(&self, channel: u8) -> (found: Option<&TrackInfo>)
        ensures
            found matches Some(info) ==> self.track(channel) == Some(*info),
            found is None ==> self.track(channel) is None,
    {
        broadcast use vstd::std_specs::hash::group_hash_axioms;

        self.midi_track_map.get(&channel)
    }
}

} // verus!

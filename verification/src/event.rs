//! Serialized MIDI events.
//!
//! Every event is written as the variable-length delta time since the
//! previous event of its track, followed by the bytes of the event.

use crate::vlq::{var_len_from, vlq};
use vstd::prelude::*;
use vstd::string::*;

verus! {

/// Velocity of every note-on.
pub const NOTE_ON_VELOCITY: u8 = 64;

/// Microseconds in a minute, which a tempo in beats per minute divides.
pub const MICROSECONDS_PER_MINUTE: u32 = 60_000_000;

/// A channel voice event.
pub enum MidiEventType {
    /// Release of the given pitch.
    NoteOff(u8),
    /// Attack of the given pitch.
    NoteOn(u8),
    /// Selection of the given program.
    ProgramChange(u8),
}

/// A meta event.
pub enum MidiMetaEventType {
    /// Name of the track.
    TrackName(String),
    /// Channel that the following meta events refer to.
    ChannelPrefix(u8),
    /// Tempo, in beats per minute.
    SetTempo(u32),
    /// End of the track.
    EndOfTrack,
}

/// The bytes of a text: its UTF-8 encoding.
pub open spec fn text_bytes(text: String) -> Seq<u8> {
    vstd::utf8::encode_utf8(text@)
}

/// The low three bytes of `micros`, most significant first.
pub open spec fn tempo_bytes(micros: int) -> Seq<u8> {
    seq![(micros / 65536 % 256) as u8, (micros / 256 % 256) as u8, (micros % 256) as u8]
}

impl MidiEventType {
    /// The bytes of the event on channel `channel_id`, without delta time.
    pub open spec fn body(self, channel_id: u8) -> Seq<u8> {
        match self {
            MidiEventType::NoteOff(key) => seq![0x80u8 | channel_id, key, 0u8],
            MidiEventType::NoteOn(key) => seq![0x90u8 | channel_id, key, NOTE_ON_VELOCITY],
            MidiEventType::ProgramChange(patch) => seq![0xC0u8 | channel_id, patch],
        }
    }

    /// The event as it stands in a track: delta time, then the event.
    pub open spec fn encoding(self, delta: u32, channel_id: u8) -> Seq<u8> {
        vlq(delta as nat) + self.body(channel_id)
    }

    /// Serializes the event on channel `channel_id`, `delta` ticks after the
    /// previous event.
    pub fn as_vec(&self, delta: u32, channel_id: u8) -> (bytes: Vec<u8>)
        ensures
            bytes@ == self.encoding(delta, channel_id),
    {
        let mut bytes = var_len_from(delta);
        match self {
            MidiEventType::NoteOff(key) => {
                bytes.push(0x80 | channel_id);
                bytes.push(*key);
                bytes.push(0);
            },
            MidiEventType::NoteOn(key) => {
                bytes.push(0x90 | channel_id);
                bytes.push(*key);
                bytes.push(NOTE_ON_VELOCITY);
            },
            MidiEventType::ProgramChange(patch) => {
                bytes.push(0xC0 | channel_id);
                bytes.push(*patch);
            },
        }
        assert(bytes@ =~= self.encoding(delta, channel_id));
        bytes
    }
}

impl MidiMetaEventType {
    /// Whether the event can be written: a track name must be shorter than
    /// 256 bytes, and a tempo must not be zero.
    pub open spec fn encodable(self) -> bool {
        match self {
            MidiMetaEventType::TrackName(name) => text_bytes(name).len() < 256,
            MidiMetaEventType::SetTempo(bpm) => bpm != 0,
            _ => true,
        }
    }

    /// The bytes of the event, without delta time.
    pub open spec fn body(self) -> Seq<u8> {
        match self {
            MidiMetaEventType::TrackName(name) => seq![
                0xFFu8,
                0x03u8,
                text_bytes(name).len() as u8,
            ] + text_bytes(name),
            MidiMetaEventType::ChannelPrefix(channel) => seq![0xFFu8, 0x20u8, 0x01u8, channel],
            MidiMetaEventType::SetTempo(bpm) => seq![0xFFu8, 0x51u8, 0x03u8] + tempo_bytes(
                MICROSECONDS_PER_MINUTE as int / bpm as int,
            ),
            MidiMetaEventType::EndOfTrack => seq![0xFFu8, 0x2Fu8, 0x00u8],
        }
    }

    /// The event as it stands in a track: delta time, then the event.
    pub open spec fn encoding(self, delta: u32) -> Seq<u8> {
        vlq(delta as nat) + self.body()
    }

    /// Serializes the event, `delta` ticks after the previous event.
    pub fn as_vec(&self, delta: u32) -> (bytes: Vec<u8>)
        requires
            self.encodable(),
        ensures
            bytes@ == self.encoding(delta),
    {
        let mut bytes = var_len_from(delta);
        match self {
            MidiMetaEventType::TrackName(name) => {
                let mut text = name.as_str().as_bytes_vec();
                bytes.push(0xFF);
                bytes.push(0x03);
                bytes.push(text.len() as u8);
                bytes.append(&mut text);
            },
            MidiMetaEventType::ChannelPrefix(channel) => {
                bytes.push(0xFF);
                bytes.push(0x20);
                bytes.push(0x01);
                bytes.push(*channel);
            },
            MidiMetaEventType::SetTempo(bpm) => {
                let micros: u32 = MICROSECONDS_PER_MINUTE / *bpm;
                bytes.push(0xFF);
                bytes.push(0x51);
                bytes.push(0x03);
                bytes.push((micros / 65536 % 256) as u8);
                bytes.push((micros / 256 % 256) as u8);
                bytes.push((micros % 256) as u8);
            },
            MidiMetaEventType::EndOfTrack => {
                bytes.push(0xFF);
                bytes.push(0x2F);
                bytes.push(0x00);
            },
        }
        assert(bytes@ =~= self.encoding(delta));
        bytes
    }
}

} // verus!

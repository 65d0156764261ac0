//! Conversion of GMSF grid music sheets into Standard MIDI Files.
//!
//! A GMSF document is a grid of symbol cells: columns are time steps, rows
//! are pitch lanes.  The crate decodes the grid into a per-channel piano
//! roll, resolves the repeat markers found in it, unrolls every channel
//! into a linear timeline of note events and assembles the tracks into a
//! format 1 MIDI file.  Every function is verified against a mathematical
//! model of its result.

pub mod vlq;
pub mod sheet;
pub mod event;
pub mod pitch;
pub mod roll;
pub mod error;
pub mod grid;
pub mod decode;
pub mod repeat;
pub mod track;
pub mod smf;
pub mod convert;

pub use convert::{convert_gmsf_to_midi, convert_sheet, Conversion};
pub use decode::{decode_sheet, Sheet};
pub use error::ConvertError;
pub use event::{MidiEventType, MidiMetaEventType};
pub use repeat::{resolve_repeats, RepeatEnd};
pub use sheet::{channel_and_key_from_gmsf_sheet, Accidental, Config, GMSFSheetType, TrackInfo};
pub use smf::write_midi;
pub use track::sequence_track;
pub use vlq::var_len_from;

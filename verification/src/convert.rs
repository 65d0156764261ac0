//! The conversion from document to MIDI file.

use crate::decode::{decode_failure, decode_sheet, Sheet};
use crate::error::ConvertError;
use crate::event::MidiMetaEventType;
use crate::grid::{
    header_of, lemma_column_markers_bound, lemma_parse_rows_shape, markers_of, notes_of,
    parse_grid, HEADER_LEN,
};
use crate::repeat::{markers_view, plan_of, plan_view, resolve_repeats, RepeatEnd};
use crate::roll::{lane_in, sounds_on, Note, CHANNELS};
use crate::sheet::Config;
use crate::smf::{midi_file, tracks_view, write_midi};
use crate::track::{sequence_track, track_of};
use vstd::prelude::*;
use vstd::string::*;

verus! {

/// The highest channel that MIDI has.
pub const MAX_CHANNEL: u8 = 15;

/// What a conversion yields.
#[derive(Debug)]
pub struct Conversion {
    /// The MIDI file.
    pub midi: Vec<u8>,
    /// The channels that sound and are announced but lie above the highest
    /// MIDI channel, in ascending order.  They have no track in the file.
    pub skipped: Vec<u8>,
}

impl Config {
    /// Whether every track that can be written has a name that fits: fewer
    /// than 256 bytes.
    pub open spec fn wf(&self) -> bool {
        forall|channel: u8|
            channel <= MAX_CHANNEL ==> ((#[trigger] self.track(channel)) matches Some(info)
                ==> MidiMetaEventType::TrackName(info.name).encodable())
    }

    /// Checks the names of the tracks that can be written.
    pub fn well_formed(&self) -> (ok: bool)
        ensures
            ok == self.wf(),
    {
        let mut channel: u8 = 0;
        while channel <= MAX_CHANNEL
            invariant
                channel <= MAX_CHANNEL + 1,
                forall|c: u8|
                    c < channel ==> ((#[trigger] self.track(c)) matches Some(info)
                        ==> MidiMetaEventType::TrackName(info.name).encodable()),
            decreases MAX_CHANNEL + 1 - channel,
        {
            match self.track_of(channel) {
                Some(info) => {
                    if info.name.as_str().as_bytes().len() >= 256 {
                        return false;
                    }
                },
                None => {},
            }
            channel += 1;
        }
        true
    }
}

impl Sheet {
    /// Whether the sheet is consistent: the roll is, every column has its
    /// list of markers, and no list is longer than can be counted.
    pub open spec fn wf(&self) -> bool {
        &&& self.roll.wf()
        &&& self.repeat_ends.len() == self.roll.spec_width()
        &&& forall|x: int|
            0 <= x < self.repeat_ends.len() ==> (#[trigger] self.repeat_ends[x]).len() <= i32::MAX
    }
}

/// Whether `channel` gets a track: it sounds, it is announced, and it is a
/// MIDI channel.
pub open spec fn emits(notes: Set<Note>, config: &Config, channel: u8) -> bool {
    sounds_on(notes, channel) && config.track(channel) is Some && channel <= MAX_CHANNEL
}

/// Whether `channel` is passed over: it sounds and is announced, but is no
/// MIDI channel.
pub open spec fn skips(notes: Set<Note>, config: &Config, channel: u8) -> bool {
    sounds_on(notes, channel) && config.track(channel) is Some && channel > MAX_CHANNEL
}

/// The channels below `limit` that get a track, in ascending order.
pub open spec fn emitted_below(notes: Set<Note>, config: &Config, limit: nat) -> Seq<u8>
    decreases limit,
{
    if limit == 0 {
        Seq::empty()
    } else {
        let lower = emitted_below(notes, config, (limit - 1) as nat);
        if emits(notes, config, (limit - 1) as u8) {
            lower.push((limit - 1) as u8)
        } else {
            lower
        }
    }
}

/// The channels below `limit` that are passed over, in ascending order.
pub open spec fn skipped_below(notes: Set<Note>, config: &Config, limit: nat) -> Seq<u8>
    decreases limit,
{
    if limit == 0 {
        Seq::empty()
    } else {
        let lower = skipped_below(notes, config, (limit - 1) as nat);
        if skips(notes, config, (limit - 1) as u8) {
            lower.push((limit - 1) as u8)
        } else {
            lower
        }
    }
}

/// The track of `channel` in a sheet of `width` columns.
pub open spec fn channel_track(
    notes: Set<Note>,
    width: nat,
    plan: Seq<Seq<RepeatEnd>>,
    config: &Config,
    channel: u8,
) -> Option<Seq<u8>> {
    track_of(lane_in(notes, width, channel), plan, channel, config.track(channel)->0)
}

/// The tracks of the channels below `limit` that get one, in ascending
/// order of channel, or `None` if one of them is too long.
pub open spec fn tracks_below(
    notes: Set<Note>,
    width: nat,
    plan: Seq<Seq<RepeatEnd>>,
    config: &Config,
    limit: nat,
) -> Option<Seq<Seq<u8>>>
    decreases limit,
{
    if limit == 0 {
        Some(Seq::empty())
    } else {
        match tracks_below(notes, width, plan, config, (limit - 1) as nat) {
            None => None,
            Some(lower) => if emits(notes, config, (limit - 1) as u8) {
                match channel_track(notes, width, plan, config, (limit - 1) as u8) {
                    Some(track) => Some(lower.push(track)),
                    None => None,
                }
            } else {
                Some(lower)
            },
        }
    }
}

/// What a sheet converts to: the file and the channels passed over.
pub open spec fn sheet_conversion(
    bpm: u16,
    notes: Set<Note>,
    width: nat,
    markers: Seq<Seq<usize>>,
    config: &Config,
) -> Result<(Seq<u8>, Seq<u8>), ConvertError> {
    if bpm == 0 {
        Err(ConvertError::ZeroTempo)
    } else {
        match tracks_below(notes, width, plan_of(markers), config, CHANNELS as nat) {
            Some(tracks) => Ok(
                (
                    midi_file(bpm as u32, tracks),
                    skipped_below(notes, config, CHANNELS as nat),
                ),
            ),
            None => Err(ConvertError::TrackTooLong),
        }
    }
}

/// What a document converts to.
pub open spec fn conversion(data: Seq<u8>, config: &Config) -> Result<
    (Seq<u8>, Seq<u8>),
    ConvertError,
> {
    match decode_failure(data, config) {
        Some(error) => Err(error),
        None => {
            let header = header_of(data);
            let rows = parse_grid(data)->0;
            sheet_conversion(
                header.bpm,
                notes_of(config, rows),
                header.width as nat,
                markers_of(config, rows, header.width as nat),
                config,
            )
        },
    }
}

/// Whether `result` is what `expected` describes.
pub open spec fn yields(
    result: Result<Conversion, ConvertError>,
    expected: Result<(Seq<u8>, Seq<u8>), ConvertError>,
) -> bool {
    match expected {
        Ok(output) => result matches Ok(done) && done.midi@ == output.0 && done.skipped@
            == output.1,
        Err(error) => result matches Err(e) && e == error,
    }
}

/// Tracks that cannot be written for some channels cannot be written for
/// more.
proof fn lemma_tracks_fail(
    notes: Set<Note>,
    width: nat,
    plan: Seq<Seq<RepeatEnd>>,
    config: &Config,
    limit: nat,
    more: nat,
)
    requires
        tracks_below(notes, width, plan, config, limit) is None,
        limit <= more,
    ensures
        tracks_below(notes, width, plan, config, more) is None,
    decreases more,
{
    if limit < more {
        lemma_tracks_fail(notes, width, plan, config, limit, (more - 1) as nat);
    }
}

/// Converts a decoded sheet: resolves its repeat markers, writes the track
/// of every channel that gets one and assembles the file.
pub fn convert_sheet(sheet: &Sheet, config: &Config) -> (result: Result<Conversion, ConvertError>)
    requires
        sheet.wf(),
        config.wf(),
    ensures
        yields(
            result,
            sheet_conversion(
                sheet.bpm,
                sheet.roll@,
                sheet.roll.spec_width(),
                markers_view(sheet.repeat_ends@),
                config,
            ),
        ),
{
    if sheet.bpm == 0 {
        return Err(ConvertError::ZeroTempo);
    }
    let plan = resolve_repeats(&sheet.repeat_ends);
    let ghost notes = sheet.roll@;
    let ghost width = sheet.roll.spec_width();
    let ghost actions = plan_view(plan@);
    let mut tracks: Vec<Vec<u8>> = Vec::new();
    let mut skipped: Vec<u8> = Vec::new();
    let mut next: usize = 0;
    assert(tracks_view(tracks@) =~= Seq::<Seq<u8>>::empty());
    while next < CHANNELS
        invariant
            next <= CHANNELS,
            sheet.wf(),
            config.wf(),
            notes == sheet.roll@,
            width == sheet.roll.spec_width(),
            actions == plan_view(plan@),
            actions == plan_of(markers_view(sheet.repeat_ends@)),
            sheet.bpm != 0,
            plan.len() == sheet.repeat_ends.len(),
            tracks.len() <= next,
            tracks.len() <= MAX_CHANNEL + 1,
            forall|i: int| 0 <= i < tracks.len() ==> (#[trigger] tracks[i]).len() <= u32::MAX,
            tracks_below(notes, width, actions, config, next as nat) == Some(
                tracks_view(tracks@),
            ),
            skipped@ == skipped_below(notes, config, next as nat),
        decreases CHANNELS - next,
    {
        let channel = next as u8;
        let ghost before = tracks_view(tracks@);
        match sheet.roll.lane(channel) {
            Some(lane) => match config.track_of(channel) {
                Some(info) => {
                    if channel > MAX_CHANNEL {
                        skipped.push(channel);
                    } else {
                        match sequence_track(lane, &plan, channel, info) {
                            Ok(track) => {
                                tracks.push(track);
                                assert(tracks_view(tracks@) =~= before.push(
                                    tracks[tracks.len() - 1]@,
                                ));
                            },
                            Err(error) => {
                                proof {
                                    lemma_tracks_fail(
                                        notes,
                                        width,
                                        actions,
                                        config,
                                        (next + 1) as nat,
                                        CHANNELS as nat,
                                    );
                                }
                                return Err(error);
                            },
                        }
                    }
                },
                None => {},
            },
            None => {},
        }
        next += 1;
    }
    let midi = write_midi(sheet.bpm as u32, &tracks);
    Ok(Conversion { midi, skipped })
}

/// Converts a GMSF document into a MIDI file.
pub fn convert_gmsf_to_midi(data: &[u8], config: &Config) -> (result: Result<
    Conversion,
    ConvertError,
>)
    requires
        config.wf(),
    ensures
        yields(result, conversion(data@, config)),
{
    let sheet = match decode_sheet(data, config) {
        Ok(sheet) => sheet,
        Err(error) => {
            return Err(error);
        },
    };
    proof {
        let header = header_of(data@);
        let rows = parse_grid(data@)->0;
        lemma_parse_rows_shape(
            data@,
            header.audiogear_id,
            header.width as nat,
            HEADER_LEN as int,
            header.height as nat,
        );
        assert forall|x: int| 0 <= x < sheet.repeat_ends.len() implies (
        #[trigger] sheet.repeat_ends[x]).len() <= i32::MAX by {
            lemma_column_markers_bound(config, rows, x);
            assert(markers_view(sheet.repeat_ends@)[x] == sheet.repeat_ends[x]@);
        }
    }
    convert_sheet(&sheet, config)
}

/// The tracks of `channels`, in the order given.
pub open spec fn tracks_for(
    notes: Set<Note>,
    width: nat,
    plan: Seq<Seq<RepeatEnd>>,
    config: &Config,
    channels: Seq<u8>,
) -> Seq<Seq<u8>> {
    Seq::new(channels.len(), |i: int| channel_track(notes, width, plan, config, channels[i])->0)
}

/// The channels that get a track are MIDI channels that sound and are
/// announced, and there are at most as many as the limit.
proof fn lemma_emitted_channels(notes: Set<Note>, config: &Config, limit: nat)
    requires
        limit <= CHANNELS,
    ensures
        emitted_below(notes, config, limit).len() <= limit,
        emitted_below(notes, config, limit).len() <= MAX_CHANNEL + 1,
        forall|i: int|
            0 <= i < emitted_below(notes, config, limit).len() ==> {
                &&& (#[trigger] emitted_below(notes, config, limit)[i]) < limit
                &&& emits(notes, config, emitted_below(notes, config, limit)[i])
            },
    decreases limit,
{
    if limit > 0 {
        lemma_emitted_channels(notes, config, (limit - 1) as nat);
        if limit > MAX_CHANNEL + 1 {
            lemma_emitted_channels(notes, config, (MAX_CHANNEL + 1) as nat);
            lemma_emitted_saturate(notes, config, limit);
        }
    }
}

/// No channel above the MIDI channels gets a track.
proof fn lemma_emitted_saturate(notes: Set<Note>, config: &Config, limit: nat)
    requires
        MAX_CHANNEL + 1 <= limit <= CHANNELS,
    ensures
        emitted_below(notes, config, limit) == emitted_below(
            notes,
            config,
            (MAX_CHANNEL + 1) as nat,
        ),
    decreases limit,
{
    if limit > MAX_CHANNEL + 1 {
        lemma_emitted_saturate(notes, config, (limit - 1) as nat);
    }
}

/// The tracks that are written are those of the channels that get one.
proof fn lemma_tracks_of_emitted(
    notes: Set<Note>,
    width: nat,
    plan: Seq<Seq<RepeatEnd>>,
    config: &Config,
    limit: nat,
)
    requires
        tracks_below(notes, width, plan, config, limit) is Some,
    ensures
        tracks_below(notes, width, plan, config, limit)->0 == tracks_for(
            notes,
            width,
            plan,
            config,
            emitted_below(notes, config, limit),
        ),
    decreases limit,
{
    if limit > 0 {
        lemma_tracks_of_emitted(notes, width, plan, config, (limit - 1) as nat);
    }
    assert(tracks_below(notes, width, plan, config, limit)->0 =~= tracks_for(
        notes,
        width,
        plan,
        config,
        emitted_below(notes, config, limit),
    ));
}

/// Channel filtering.  The file of a converted document holds, after the
/// tempo track, exactly the tracks of the channels that sound, are
/// announced and are MIDI channels, in ascending order of channel; no
/// channel above 15 is among them, and the track count of the header is
/// their number plus one.
pub proof fn lemma_channel_filtering(data: Seq<u8>, config: &Config)
    requires
        conversion(data, config) is Ok,
    ensures
        ({
            let header = header_of(data);
            let rows = parse_grid(data)->0;
            let notes = notes_of(config, rows);
            let plan = plan_of(markers_of(config, rows, header.width as nat));
            let channels = emitted_below(notes, config, CHANNELS as nat);
            let tracks = tracks_for(notes, header.width as nat, plan, config, channels);
            let file = conversion(data, config)->Ok_0.0;
            &&& forall|i: int|
                0 <= i < channels.len() ==> emits(notes, config, #[trigger] channels[i])
            &&& forall|i: int|
                0 <= i < channels.len() ==> (#[trigger] channels[i]) <= MAX_CHANNEL
            &&& channels.len() <= MAX_CHANNEL + 1
            &&& file == midi_file(header.bpm as u32, tracks)
            &&& file[10] == 0
            &&& file[11] == 1 + channels.len()
        }),
{
    let header = header_of(data);
    let rows = parse_grid(data)->0;
    let notes = notes_of(config, rows);
    let plan = plan_of(markers_of(config, rows, header.width as nat));
    lemma_emitted_channels(notes, config, CHANNELS as nat);
    lemma_tracks_of_emitted(notes, header.width as nat, plan, config, CHANNELS as nat);
}

/// Idempotence.  Two conversions of the same document under the same
/// configuration end alike: with the same file and the same channels
/// passed over, or with the same error.
pub proof fn lemma_conversion_repeatable(
    data: Seq<u8>,
    config: &Config,
    first: Result<Conversion, ConvertError>,
    second: Result<Conversion, ConvertError>,
)
    requires
        yields(first, conversion(data, config)),
        yields(second, conversion(data, config)),
    ensures
        match (first, second) {
            (Ok(one), Ok(other)) => one.midi@ == other.midi@ && one.skipped@ == other.skipped@,
            (Err(one), Err(other)) => one == other,
            _ => false,
        },
{
}

} // verus!

//! The Standard MIDI File: a header chunk and one chunk per track.

use crate::event::MidiMetaEventType;
use crate::track::DELTATIME;
use vstd::prelude::*;

verus! {

/// The MIDI file format with simultaneous tracks.
pub const FORMAT: u16 = 1;

/// The most tracks that can follow the tempo track.
pub const MAX_TRACKS: usize = 0xFFFE;

/// The bytes of `value`, most significant first.
pub open spec fn be16(value: u16) -> Seq<u8> {
    seq![(value / 256) as u8, (value % 256) as u8]
}

/// The bytes of `value`, most significant first.
pub open spec fn be32(value: u32) -> Seq<u8> {
    seq![
        (value / 0x100_0000) as u8,
        (value / 0x1_0000 % 256) as u8,
        (value / 0x100 % 256) as u8,
        (value % 256) as u8,
    ]
}

/// The header chunk of a file of `track_count` tracks: `MThd`, the length
/// of what follows, the format, the number of tracks and the division.
pub open spec fn header_chunk(track_count: u16) -> Seq<u8> {
    seq![0x4Du8, 0x54u8, 0x68u8, 0x64u8] + be32(6) + be16(FORMAT) + be16(track_count) + be16(
        DELTATIME as u16,
    )
}

/// A track as a chunk: `MTrk`, the length of the track, the track.
pub open spec fn track_chunk(track: Seq<u8>) -> Seq<u8> {
    seq![0x4Du8, 0x54u8, 0x72u8, 0x6Bu8] + be32(track.len() as u32) + track
}

/// The chunks of `tracks`, one after the other.
pub open spec fn track_chunks(tracks: Seq<Seq<u8>>) -> Seq<u8>
    decreases tracks.len(),
{
    if tracks.len() == 0 {
        Seq::empty()
    } else {
        track_chunks(tracks.drop_last()) + track_chunk(tracks.last())
    }
}

/// The track that sets the tempo and holds nothing else.
pub open spec fn tempo_track(bpm: u32) -> Seq<u8> {
    MidiMetaEventType::SetTempo(bpm).encoding(0) + MidiMetaEventType::EndOfTrack.encoding(0)
}

/// The file: header chunk, tempo track, then the given tracks.
pub open spec fn midi_file(bpm: u32, tracks: Seq<Seq<u8>>) -> Seq<u8> {
    header_chunk((1 + tracks.len()) as u16) + track_chunk(tempo_track(bpm)) + track_chunks(tracks)
}

/// The tracks as mathematical sequences.
pub open spec fn tracks_view(tracks: Seq<Vec<u8>>) -> Seq<Seq<u8>> {
    Seq::new(tracks.len(), |i: int| tracks[i]@)
}

/// Appends `value` to `out`, most significant byte first.
fn push_be16(out: &mut Vec<u8>, value: u16)
    ensures
        final(out)@ == old(out)@ + be16(value),
{
    out.push((value / 256) as u8);
    out.push((value % 256) as u8);
    assert(out@ =~= old(out)@ + be16(value));
}

/// Appends `value` to `out`, most significant byte first.
fn push_be32(out: &mut Vec<u8>, value: u32)
    ensures
        final(out)@ == old(out)@ + be32(value),
{
    out.push((value / 0x100_0000) as u8);
    out.push((value / 0x1_0000 % 256) as u8);
    out.push((value / 0x100 % 256) as u8);
    out.push((value % 256) as u8);
    assert(out@ =~= old(out)@ + be32(value));
}

/// Appends `track` to `out` as a chunk.
fn push_chunk(out: &mut Vec<u8>, track: &Vec<u8>)
    requires
        track.len() <= u32::MAX,
    ensures
        final(out)@ == old(out)@ + track_chunk(track@),
{
    out.push(0x4D);
    out.push(0x54);
    out.push(0x72);
    out.push(0x6B);
    push_be32(out, track.len() as u32);
    let ghost head = out@;
    let mut i: usize = 0;
    while i < track.len()
        invariant
            i <= track.len(),
            out@ == head + track@.take(i as int),
        decreases track.len() - i,
    {
        out.push(track[i]);
        assert(out@ =~= head + track@.take(i + 1));
        i += 1;
    }
    assert(track@.take(track.len() as int) =~= track@);
    assert(out@ =~= old(out)@ + track_chunk(track@));
}

/// Assembles the file of a piece at `bpm` beats per minute from its
/// tracks.
pub fn write_midi(bpm: u32, tracks: &Vec<Vec<u8>>) -> (file: Vec<u8>)
    requires
        bpm != 0,
        tracks.len() <= MAX_TRACKS,
        forall|i: int| 0 <= i < tracks.len() ==> (#[trigger] tracks[i]).len() <= u32::MAX,
    ensures
        file@ == midi_file(bpm, tracks_view(tracks@)),
{
    let mut file: Vec<u8> = Vec::new();
    file.push(0x4D);
    file.push(0x54);
    file.push(0x68);
    file.push(0x64);
    push_be32(&mut file, 6);
    push_be16(&mut file, FORMAT);
    push_be16(&mut file, (tracks.len() + 1) as u16);
    push_be16(&mut file, DELTATIME as u16);
    assert(file@ =~= header_chunk((1 + tracks.len()) as u16));
    let mut tempo = MidiMetaEventType::SetTempo(bpm).as_vec(0);
    let mut end = MidiMetaEventType::EndOfTrack.as_vec(0);
    tempo.append(&mut end);
    proof {
        crate::vlq::lemma_vlq_len(0);
    }
    push_chunk(&mut file, &tempo);
    let ghost head = file@;
    let ghost all = tracks_view(tracks@);
    let mut i: usize = 0;
    assert(all.take(0) =~= Seq::<Seq<u8>>::empty());
    assert(file@ =~= head + track_chunks(all.take(0)));
    while i < tracks.len()
        invariant
            i <= tracks.len(),
            all == tracks_view(tracks@),
            forall|j: int| 0 <= j < tracks.len() ==> (#[trigger] tracks[j]).len() <= u32::MAX,
            file@ == head + track_chunks(all.take(i as int)),
        decreases tracks.len() - i,
    {
        push_chunk(&mut file, &tracks[i]);
        proof {
            assert(all.take(i + 1).drop_last() =~= all.take(i as int));
            assert(all.take(i + 1).last() == tracks[i as int]@);
            assert(file@ =~= head + track_chunks(all.take(i + 1)));
        }
        i += 1;
    }
    assert(all.take(tracks.len() as int) =~= all);
    file
}

} // verus!

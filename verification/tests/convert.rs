use gmsf2midi::convert::{convert_gmsf_to_midi, convert_sheet};
use gmsf2midi::decode::Sheet;
use gmsf2midi::error::ConvertError;
use gmsf2midi::roll::PianoRoll;
use gmsf2midi::sheet::{Accidental, Config, GMSFSheetType, TrackInfo};
use std::collections::HashMap;

const NOTE: u8 = 1;
const END: u8 = 2;
const BEGIN: u8 = 3;
const DRUMS: u8 = 4;
const LOW: u8 = 5;
const FAR: u8 = 7;
const STRAY: u8 = 8;
const GEAR: u8 = 0xEE;

fn convert_config() -> Config {
    let mut midi_track_map = HashMap::new();
    midi_track_map.insert(0, TrackInfo { patch: 5, name: String::from("Lead") });
    midi_track_map.insert(3, TrackInfo { patch: 33, name: String::from("Bass") });
    midi_track_map.insert(9, TrackInfo { patch: 0, name: String::from("Kit") });
    midi_track_map.insert(16, TrackInfo { patch: 1, name: String::from("Far") });
    midi_track_map.insert(200, TrackInfo { patch: 2, name: String::from("Farther") });
    let mut gmsf_sheet_map = HashMap::new();
    gmsf_sheet_map.insert(NOTE, GMSFSheetType::Note(0, Accidental::Natural));
    gmsf_sheet_map.insert(END, GMSFSheetType::RepeatEnd);
    gmsf_sheet_map.insert(BEGIN, GMSFSheetType::RepeatBegin);
    gmsf_sheet_map.insert(DRUMS, GMSFSheetType::Drums);
    gmsf_sheet_map.insert(LOW, GMSFSheetType::LowNote(3, Accidental::Sharp));
    gmsf_sheet_map.insert(FAR, GMSFSheetType::Note(16, Accidental::Flat));
    gmsf_sheet_map.insert(STRAY, GMSFSheetType::Note(20, Accidental::Natural));
    gmsf_sheet_map.insert(9, GMSFSheetType::Note(200, Accidental::Natural));
    Config { midi_track_map, gmsf_sheet_map }
}

fn convert_document(bpm: u16, width: u16, height: u16, cells: &[u8]) -> Vec<u8> {
    let mut data = vec![b'G', b'M', b'S', b'F', 1, GEAR];
    data.extend_from_slice(&bpm.to_le_bytes());
    data.extend_from_slice(&width.to_le_bytes());
    data.extend_from_slice(&height.to_le_bytes());
    data.extend_from_slice(cells);
    data
}

const HEAD_OF_TWO: [u8; 33] = [
    b'M', b'T', b'h', b'd', 0, 0, 0, 6, 0, 1, 0, 2, 0, 96, // header chunk
    b'M', b'T', b'r', b'k', 0, 0, 0, 11, // tempo track
    0x00, 0xFF, 0x51, 0x03, 0x07, 0xA1, 0x20, 0x00, 0xFF, 0x2F, 0x00,
];

fn chunks_in(file: &[u8]) -> Vec<Vec<u8>> {
    let mut chunks = vec![];
    let mut at = 14;
    while at < file.len() {
        assert_eq!(&file[at..at + 4], b"MTrk");
        let len = u32::from_be_bytes([file[at + 4], file[at + 5], file[at + 6], file[at + 7]]);
        let end = at + 8 + len as usize;
        chunks.push(file[at + 8..end].to_vec());
        at = end;
    }
    assert_eq!(at, file.len());
    chunks
}

#[test]
fn single_note_becomes_one_note_on_and_one_note_off() {
    let data = convert_document(120, 4, 1, &[0, 0, NOTE, 0]);
    let done = convert_gmsf_to_midi(&data, &convert_config()).unwrap();
    let mut expected = HEAD_OF_TWO.to_vec();
    expected.extend_from_slice(&[
        b'M', b'T', b'r', b'k', 0, 0, 0, 23, // track chunk
        0x00, 0xFF, 0x03, 0x04, b'L', b'e', b'a', b'd', // track name
        0x00, 0xC0, 0x05, // program change
        0x30, 0x90, 71, 64, // note on after two columns
        0x18, 0x80, 71, 0, // note off one column later
        0x00, 0xFF, 0x2F, 0x00, // end of track
    ]);
    assert_eq!(done.midi, expected);
    assert!(done.skipped.is_empty());
}

#[test]
fn stacked_repeat_ends_play_their_span_three_times() {
    let cells = [
        NOTE, END, 0, // row 0
        0, END, 0, // row 1
    ];
    let data = convert_document(120, 3, 2, &cells);
    let done = convert_gmsf_to_midi(&data, &convert_config()).unwrap();
    let mut expected = HEAD_OF_TWO.to_vec();
    expected.extend_from_slice(&[
        b'M', b'T', b'r', b'k', 0, 0, 0, 39, // track chunk
        0x00, 0xFF, 0x03, 0x04, b'L', b'e', b'a', b'd', 0x00, 0xC0, 0x05, // frame
        0x00, 0x90, 71, 64, 0x18, 0x80, 71, 0, // first pass
        0x18, 0x90, 71, 64, 0x18, 0x80, 71, 0, // first repeat
        0x18, 0x90, 71, 64, 0x18, 0x80, 71, 0, // second repeat
        0x00, 0xFF, 0x2F, 0x00,
    ]);
    assert_eq!(done.midi, expected);
}

#[test]
fn repeat_goes_back_to_the_begin_marker() {
    let cells = [
        NOTE, BEGIN, END, // row 0
        0, NOTE, 0, // row 1
    ];
    let data = convert_document(120, 3, 2, &cells);
    let done = convert_gmsf_to_midi(&data, &convert_config()).unwrap();
    let tracks = chunks_in(&done.midi);
    assert_eq!(
        tracks[1],
        vec![
            0x00, 0xFF, 0x03, 0x04, b'L', b'e', b'a', b'd', 0x00, 0xC0, 0x05, // frame
            0x00, 0x90, 71, 64, // column 0
            0x18, 0x80, 71, 0, 0x00, 0x90, 69, 64, // column 1
            0x18, 0x80, 69, 0, // column 2, then back to column 1
            0x18, 0x90, 69, 64, // column 1
            0x18, 0x80, 69, 0, // column 2
            0x00, 0xFF, 0x2F, 0x00,
        ]
    );
}

#[test]
fn channels_above_fifteen_get_no_track() {
    let cells = [
        FAR, NOTE, // row 0
        9, LOW, // row 1
    ];
    let data = convert_document(120, 2, 2, &cells);
    let done = convert_gmsf_to_midi(&data, &convert_config()).unwrap();
    assert_eq!(done.skipped, vec![16, 200]);
    assert_eq!(&done.midi[10..12], &[0, 3]);
    let tracks = chunks_in(&done.midi);
    assert_eq!(tracks.len(), 3);
    assert_eq!(&tracks[1][..11], &[0x00, 0xFF, 0x03, 0x04, b'L', b'e', b'a', b'd', 0x00, 0xC0, 5]);
    assert_eq!(&tracks[2][..11], &[0x00, 0xFF, 0x03, 0x04, b'B', b'a', b's', b's', 0x00, 0xC3, 33]);
    for track in &tracks[1..] {
        for window in track.windows(3) {
            assert_ne!(window, &[b'F', b'a', b'r'][..]);
        }
    }
}

#[test]
fn only_channels_above_fifteen_leave_the_tempo_track_alone() {
    let data = convert_document(120, 1, 1, &[FAR]);
    let done = convert_gmsf_to_midi(&data, &convert_config()).unwrap();
    assert_eq!(done.skipped, vec![16]);
    let mut expected = HEAD_OF_TWO.to_vec();
    expected[11] = 1;
    assert_eq!(done.midi, expected);
}

#[test]
fn channel_without_track_info_is_passed_over_in_silence() {
    let data = convert_document(120, 2, 1, &[STRAY, NOTE]);
    let done = convert_gmsf_to_midi(&data, &convert_config()).unwrap();
    assert!(done.skipped.is_empty());
    assert_eq!(&done.midi[10..12], &[0, 2]);
    assert_eq!(chunks_in(&done.midi).len(), 2);
}

#[test]
fn announced_channel_without_notes_gets_no_track() {
    let data = convert_document(120, 2, 1, &[0, 0]);
    let done = convert_gmsf_to_midi(&data, &convert_config()).unwrap();
    let mut expected = HEAD_OF_TWO.to_vec();
    expected[11] = 1;
    assert_eq!(done.midi, expected);
}

#[test]
fn tracks_follow_in_ascending_order_of_channel() {
    let cells = [DRUMS, LOW, NOTE];
    let data = convert_document(120, 3, 1, &cells);
    let done = convert_gmsf_to_midi(&data, &convert_config()).unwrap();
    let tracks = chunks_in(&done.midi);
    assert_eq!(&done.midi[10..12], &[0, 4]);
    assert_eq!(tracks.len(), 4);
    assert_eq!(tracks[1][9], 0xC0);
    assert_eq!(tracks[2][9], 0xC3);
    assert_eq!(tracks[3][8], 0xC9);
    assert_eq!(
        tracks[3],
        vec![
            0x00, 0xFF, 0x03, 0x03, b'K', b'i', b't', 0x00, 0xC9, 0x00, // frame
            0x00, 0x99, 36, 64, 0x18, 0x89, 36, 0, // bass drum
            0x00, 0xFF, 0x2F, 0x00,
        ]
    );
}

#[test]
fn tempo_comes_from_the_header() {
    let data = convert_document(40000, 0, 0, &[]);
    let done = convert_gmsf_to_midi(&data, &convert_config()).unwrap();
    assert_eq!(&done.midi[22..33], &[0x00, 0xFF, 0x51, 0x03, 0x00, 0x05, 0xDC, 0x00, 0xFF, 0x2F, 0x00]);
}

#[test]
fn converting_twice_gives_the_same_bytes() {
    let cells = [
        NOTE, BEGIN, END, DRUMS, // row 0
        LOW, NOTE, END, FAR, // row 1
        GEAR, NOTE, 3, NOTE, 5, DRUMS, 2, LOW, 8, NOTE, 9, 77, DRUMS, 0, NOTE, // row 2
    ];
    let data = convert_document(95, 4, 3, &cells);
    let first = convert_gmsf_to_midi(&data, &convert_config()).unwrap();
    let second = convert_gmsf_to_midi(&data, &convert_config()).unwrap();
    assert_eq!(first.midi, second.midi);
    assert_eq!(first.skipped, second.skipped);
    let lead = &chunks_in(&first.midi)[1];
    assert_eq!(
        &lead[11..27],
        &[0x00, 0x90, 55, 64, 0x00, 0x90, 62, 64, 0x00, 0x90, 65, 64, 0x00, 0x90, 71, 64]
    );
}

#[test]
fn malformed_header_fails_and_the_next_document_still_converts() {
    let config = convert_config();
    let mut bad = convert_document(120, 4, 1, &[0, 0, NOTE, 0]);
    bad[..4].copy_from_slice(b"XXXX");
    let good = convert_document(120, 4, 1, &[0, 0, NOTE, 0]);
    assert_eq!(convert_gmsf_to_midi(&bad, &config).unwrap_err(), ConvertError::MalformedHeader);
    assert!(convert_gmsf_to_midi(&good, &config).is_ok());
}

#[test]
fn truncated_document_fails() {
    let data = convert_document(120, 4, 1, &[0, 0, NOTE]);
    assert_eq!(
        convert_gmsf_to_midi(&data, &convert_config()).unwrap_err(),
        ConvertError::TruncatedInput
    );
}

#[test]
fn row_out_of_range_fails() {
    let mut cells = vec![0u8; 15];
    cells[14] = NOTE;
    let data = convert_document(120, 1, 15, &cells);
    assert_eq!(
        convert_gmsf_to_midi(&data, &convert_config()).unwrap_err(),
        ConvertError::RowOutOfRange
    );
}

#[test]
fn zero_tempo_fails() {
    let data = convert_document(0, 4, 1, &[0, 0, NOTE, 0]);
    assert_eq!(convert_gmsf_to_midi(&data, &convert_config()).unwrap_err(), ConvertError::ZeroTempo);
}

#[test]
fn decoding_errors_come_before_zero_tempo() {
    let data = convert_document(0, 4, 1, &[0, 0, NOTE]);
    assert_eq!(
        convert_gmsf_to_midi(&data, &convert_config()).unwrap_err(),
        ConvertError::TruncatedInput
    );
}

#[test]
fn repeats_that_multiply_beyond_the_tick_range_fail() {
    let mut cells = vec![END; 14 * 3];
    cells[13] = NOTE;
    let data = convert_document(120, 14, 3, &cells);
    assert_eq!(
        convert_gmsf_to_midi(&data, &convert_config()).unwrap_err(),
        ConvertError::TrackTooLong
    );
}

#[test]
fn hand_made_sheet_converts_like_a_decoded_one() {
    let mut roll = PianoRoll::new(4);
    roll.insert(0, 2, 71);
    let sheet = Sheet { bpm: 120, roll, repeat_ends: vec![vec![]; 4] };
    let data = convert_document(120, 4, 1, &[0, 0, NOTE, 0]);
    let config = convert_config();
    assert_eq!(
        convert_sheet(&sheet, &config).unwrap().midi,
        convert_gmsf_to_midi(&data, &config).unwrap().midi
    );
}

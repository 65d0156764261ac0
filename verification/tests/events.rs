use gmsf2midi::event::{MidiEventType, MidiMetaEventType};

#[test]
fn note_off_has_velocity_zero() {
    assert_eq!(MidiEventType::NoteOff(60).as_vec(0, 0), vec![0x00, 0x80, 60, 0]);
    assert_eq!(MidiEventType::NoteOff(71).as_vec(24, 5), vec![0x18, 0x85, 71, 0]);
}

#[test]
fn note_on_has_velocity_sixty_four() {
    assert_eq!(MidiEventType::NoteOn(60).as_vec(0, 0), vec![0x00, 0x90, 60, 64]);
    assert_eq!(MidiEventType::NoteOn(36).as_vec(48, 9), vec![0x30, 0x99, 36, 64]);
}

#[test]
fn program_change_has_two_bytes() {
    assert_eq!(MidiEventType::ProgramChange(5).as_vec(0, 3), vec![0x00, 0xC3, 5]);
    assert_eq!(MidiEventType::ProgramChange(127).as_vec(0, 15), vec![0x00, 0xCF, 127]);
}

#[test]
fn long_delta_is_a_variable_length_quantity() {
    assert_eq!(MidiEventType::NoteOn(1).as_vec(200, 0), vec![0x81, 0x48, 0x90, 1, 64]);
    assert_eq!(
        MidiEventType::NoteOff(1).as_vec(0x0FFF_FFFF, 1),
        vec![0xFF, 0xFF, 0xFF, 0x7F, 0x81, 1, 0]
    );
    assert_eq!(MidiMetaEventType::EndOfTrack.as_vec(128), vec![0x81, 0x00, 0xFF, 0x2F, 0x00]);
}

#[test]
fn track_name_carries_length_and_text() {
    assert_eq!(
        MidiMetaEventType::TrackName(String::from("Lead")).as_vec(0),
        vec![0x00, 0xFF, 0x03, 0x04, b'L', b'e', b'a', b'd']
    );
    assert_eq!(
        MidiMetaEventType::TrackName(String::new()).as_vec(0),
        vec![0x00, 0xFF, 0x03, 0x00]
    );
}

#[test]
fn track_name_counts_bytes_not_characters() {
    assert_eq!(
        MidiMetaEventType::TrackName(String::from("n\u{e9}")).as_vec(0),
        vec![0x00, 0xFF, 0x03, 0x03, b'n', 0xC3, 0xA9]
    );
}

#[test]
fn track_name_of_255_bytes_fits() {
    let name = "x".repeat(255);
    let bytes = MidiMetaEventType::TrackName(name).as_vec(0);
    assert_eq!(bytes.len(), 4 + 255);
    assert_eq!(&bytes[..4], &[0x00, 0xFF, 0x03, 0xFF]);
    assert!(bytes[4..].iter().all(|b| *b == b'x'));
}

#[test]
fn channel_prefix_names_the_channel() {
    assert_eq!(
        MidiMetaEventType::ChannelPrefix(2).as_vec(0),
        vec![0x00, 0xFF, 0x20, 0x01, 0x02]
    );
}

#[test]
fn set_tempo_holds_microseconds_per_quarter() {
    assert_eq!(
        MidiMetaEventType::SetTempo(120).as_vec(0),
        vec![0x00, 0xFF, 0x51, 0x03, 0x07, 0xA1, 0x20]
    );
    assert_eq!(
        MidiMetaEventType::SetTempo(60).as_vec(0),
        vec![0x00, 0xFF, 0x51, 0x03, 0x0F, 0x42, 0x40]
    );
    assert_eq!(
        MidiMetaEventType::SetTempo(7).as_vec(0),
        vec![0x00, 0xFF, 0x51, 0x03, 0x82, 0xCA, 0x24]
    );
}

#[test]
fn set_tempo_keeps_the_low_three_bytes() {
    assert_eq!(
        MidiMetaEventType::SetTempo(1).as_vec(0),
        vec![0x00, 0xFF, 0x51, 0x03, 0x93, 0x87, 0x00]
    );
    assert_eq!(
        MidiMetaEventType::SetTempo(3).as_vec(0),
        vec![0x00, 0xFF, 0x51, 0x03, 0x31, 0x2D, 0x00]
    );
    assert_eq!(
        MidiMetaEventType::SetTempo(u32::MAX).as_vec(0),
        vec![0x00, 0xFF, 0x51, 0x03, 0x00, 0x00, 0x00]
    );
}

#[test]
fn end_of_track_is_fixed() {
    assert_eq!(MidiMetaEventType::EndOfTrack.as_vec(0), vec![0x00, 0xFF, 0x2F, 0x00]);
}

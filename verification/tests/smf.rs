use gmsf2midi::smf::write_midi;

#[test]
fn file_without_tracks_holds_header_and_tempo_track() {
    assert_eq!(
        write_midi(120, &vec![]),
        vec![
            b'M', b'T', b'h', b'd', 0, 0, 0, 6, 0, 1, 0, 1, 0, 96, // header chunk
            b'M', b'T', b'r', b'k', 0, 0, 0, 11, // tempo track
            0x00, 0xFF, 0x51, 0x03, 0x07, 0xA1, 0x20, 0x00, 0xFF, 0x2F, 0x00,
        ]
    );
}

#[test]
fn every_track_is_wrapped_in_a_chunk_with_its_length() {
    let tracks = vec![vec![1, 2, 3], vec![], vec![9; 300]];
    let file = write_midi(60, &tracks);
    let mut expected = vec![
        b'M', b'T', b'h', b'd', 0, 0, 0, 6, 0, 1, 0, 4, 0, 96, // header chunk
        b'M', b'T', b'r', b'k', 0, 0, 0, 11, // tempo track
        0x00, 0xFF, 0x51, 0x03, 0x0F, 0x42, 0x40, 0x00, 0xFF, 0x2F, 0x00, // its events
        b'M', b'T', b'r', b'k', 0, 0, 0, 3, 1, 2, 3, // first track
        b'M', b'T', b'r', b'k', 0, 0, 0, 0, // second track
        b'M', b'T', b'r', b'k', 0, 0, 1, 44, // third track
    ];
    expected.extend_from_slice(&[9; 300]);
    assert_eq!(file, expected);
}

#[test]
fn track_count_uses_both_bytes() {
    let tracks = vec![vec![]; 299];
    let file = write_midi(120, &tracks);
    assert_eq!(&file[10..12], &[0x01, 0x2C]);
    assert_eq!(file.len(), 14 + 19 + 299 * 8);
}

#[test]
fn chunk_length_is_big_endian() {
    let tracks = vec![vec![7; 0x01_02_03]];
    let file = write_midi(120, &tracks);
    assert_eq!(&file[33..41], &[b'M', b'T', b'r', b'k', 0x00, 0x01, 0x02, 0x03]);
    assert_eq!(file.len(), 41 + 0x01_02_03);
}

use gmsf2midi::pitch::PitchSet;
use gmsf2midi::roll::PianoRoll;

#[test]
fn pitch_set_starts_empty() {
    let set = PitchSet::new();
    assert_eq!(set.to_vec(), Vec::<u8>::new());
    assert!(!set.contains(0));
    assert!(!set.contains(127));
    assert!(!set.contains(128));
    assert!(!set.contains(255));
}

#[test]
fn pitch_set_lists_members_in_ascending_order() {
    let mut set = PitchSet::new();
    for key in [67u8, 60, 127, 0, 64, 60] {
        set.insert(key);
    }
    assert_eq!(set.to_vec(), vec![0, 60, 64, 67, 127]);
    assert!(set.contains(64));
    assert!(!set.contains(65));
}

#[test]
fn pitch_set_insert_is_idempotent() {
    let mut set = PitchSet::new();
    set.insert(71);
    set.insert(71);
    assert_eq!(set.to_vec(), vec![71]);
}

#[test]
fn roll_starts_without_lanes() {
    let roll = PianoRoll::new(4);
    assert_eq!(roll.width(), 4);
    for channel in 0..=255u8 {
        assert!(roll.lane(channel).is_none());
    }
    assert!(!roll.contains(0, 0, 60));
}

#[test]
fn roll_gives_a_channel_its_lane_on_first_insert() {
    let mut roll = PianoRoll::new(3);
    roll.insert(9, 1, 36);
    roll.insert(9, 1, 49);
    roll.insert(255, 2, 60);
    let lane = roll.lane(9).unwrap();
    assert_eq!(lane.len(), 3);
    assert_eq!(lane[0].to_vec(), Vec::<u8>::new());
    assert_eq!(lane[1].to_vec(), vec![36, 49]);
    assert_eq!(lane[2].to_vec(), Vec::<u8>::new());
    assert_eq!(roll.lane(255).unwrap()[2].to_vec(), vec![60]);
    assert!(roll.lane(0).is_none());
    assert!(roll.contains(9, 1, 49));
    assert!(!roll.contains(9, 0, 49));
    assert!(!roll.contains(9, 3, 49));
    assert!(!roll.contains(8, 1, 49));
}

#[test]
fn roll_of_width_zero_holds_nothing() {
    let roll = PianoRoll::new(0);
    assert_eq!(roll.width(), 0);
    assert!(!roll.contains(0, 0, 0));
}

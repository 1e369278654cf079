use rust_rocket::Interpolation;
use rust_rocket::Key;
use rust_rocket::RocketEngine;
use rust_rocket::RocketPlayer;
use rust_rocket::Track;

fn get_test_tracks() -> Vec<Track> {
    vec![
        {
            let mut track = Track::new("test1");
            track.set_key(Key::new(0, 1.0f32.to_bits(), Interpolation::Step));
            track.set_key(Key::new(5, 0.0f32.to_bits(), Interpolation::Step));
            track.set_key(Key::new(10, 1.0f32.to_bits(), Interpolation::Step));
            track
        },
        {
            let mut track = Track::new("test2");
            track.set_key(Key::new(0, 2.0f32.to_bits(), Interpolation::Step));
            track.set_key(Key::new(5, 0.0f32.to_bits(), Interpolation::Step));
            track.set_key(Key::new(10, 2.0f32.to_bits(), Interpolation::Step));
            track
        },
    ]
}

#[test]
fn finds_all_tracks() {
    let tracks = get_test_tracks();
    let player = RocketPlayer::new(tracks);

    // Ugly repeated calls to get_track to reflect average use case :)

    assert_eq!(
        f32::from_bits(
            player
                .get_track(player.get_track_index("test1").unwrap())
                .get_value(0.0f32.to_bits())
        ),
        1.0
    );
    assert_eq!(
        f32::from_bits(
            player
                .get_track(player.get_track_index("test2").unwrap())
                .get_value(0.0f32.to_bits())
        ),
        2.0
    );
}

#[test]
fn missing_track_is_not_found() {
    let player = RocketPlayer::new(get_test_tracks());
    assert!(player.get_track_index("test3").is_none());
    assert_eq!(player.track_count(), 2);
}

#[test]
fn serialize_deserialize_round_trip() {
    let mut blob: Vec<u8> = Vec::new();
    let tracks = get_test_tracks();
    blob.extend_from_slice(&(tracks.len() as u64).to_le_bytes());
    for t in &tracks {
        t.serialize(&mut blob);
    }

    let player = RocketPlayer::deserialize(&blob).unwrap();
    assert_eq!(player.track_count(), 2);
    for (i, name) in ["test1", "test2"].iter().enumerate() {
        let idx = player.get_track_index(name).unwrap();
        assert_eq!(idx, i);
        let restored = player.get_track(idx);
        let original = &tracks[i];
        assert_eq!(restored.get_name(), *name);
        assert_eq!(restored.key_count(), original.key_count());
        for k in 0..restored.key_count() {
            assert_eq!(restored.key_at(k), original.key_at(k));
        }
    }
}

#[test]
fn deserialize_rejects_truncated_blob() {
    let mut blob: Vec<u8> = Vec::new();
    let tracks = get_test_tracks();
    blob.extend_from_slice(&(tracks.len() as u64).to_le_bytes());
    for t in &tracks {
        t.serialize(&mut blob);
    }
    blob.truncate(blob.len() - 1);
    assert!(RocketPlayer::deserialize(&blob).is_none());
    assert!(RocketPlayer::deserialize(&[1, 2, 3]).is_none());
}

#[test]
fn deserialize_rejects_invalid_utf8_name() {
    let mut blob: Vec<u8> = Vec::new();
    blob.extend_from_slice(&1u64.to_le_bytes());
    blob.extend_from_slice(&2u64.to_le_bytes());
    blob.extend_from_slice(&[0xff, 0xfe]);
    blob.extend_from_slice(&0u64.to_le_bytes());
    assert!(RocketPlayer::deserialize(&blob).is_none());
}

#[test]
fn deserialize_ignores_trailing_bytes() {
    let mut blob: Vec<u8> = Vec::new();
    blob.extend_from_slice(&0u64.to_le_bytes());
    blob.extend_from_slice(&[9, 9, 9]);
    let player = RocketPlayer::deserialize(&blob).unwrap();
    assert_eq!(player.track_count(), 0);
}

#[test]
fn deserialize_sorts_and_dedupes_keys() {
    // A blob whose keys arrive out of order and with a duplicate row: the
    // restored track applies them in order, keeping one key per row,
    // sorted ascending.
    let mut blob: Vec<u8> = Vec::new();
    blob.extend_from_slice(&1u64.to_le_bytes());
    blob.extend_from_slice(&1u64.to_le_bytes());
    blob.extend_from_slice(b"t");
    blob.extend_from_slice(&3u64.to_le_bytes());
    for (row, value, code) in [(5u32, 1.0f32, 0u32), (2, 2.0, 1), (5, 3.0, 2)] {
        blob.extend_from_slice(&row.to_le_bytes());
        blob.extend_from_slice(&value.to_bits().to_le_bytes());
        blob.extend_from_slice(&code.to_le_bytes());
    }
    let player = RocketPlayer::deserialize(&blob).unwrap();
    let track = player.get_track(0);
    assert_eq!(track.key_count(), 2);
    assert_eq!(track.key_at(0).row, 2);
    assert_eq!(track.key_at(1).row, 5);
    assert_eq!(f32::from_bits(track.key_at(1).value), 3.0);
    assert_eq!(track.key_at(1).interpolation, Interpolation::Smooth);
}

#[test]
fn deserialize_defaults_unknown_interpolation_code_to_step() {
    let mut blob: Vec<u8> = Vec::new();
    blob.extend_from_slice(&1u64.to_le_bytes());
    blob.extend_from_slice(&1u64.to_le_bytes());
    blob.extend_from_slice(b"t");
    blob.extend_from_slice(&1u64.to_le_bytes());
    blob.extend_from_slice(&0u32.to_le_bytes());
    blob.extend_from_slice(&1.0f32.to_bits().to_le_bytes());
    blob.extend_from_slice(&77u32.to_le_bytes());
    let player = RocketPlayer::deserialize(&blob).unwrap();
    assert_eq!(player.get_track(0).key_at(0).interpolation, Interpolation::Step);
}

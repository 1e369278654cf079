use rust_rocket::Interpolation;
use rust_rocket::Key;
use rust_rocket::Track;

fn val(track: &Track, row: f32) -> f32 {
    f32::from_bits(track.get_value(row.to_bits()))
}

fn key(row: u32, value: f32, interp: Interpolation) -> Key {
    Key::new(row, value.to_bits(), interp)
}

#[test]
fn test_three_keys() {
    let mut track = Track::new("test");
    track.set_key(key(0, 1.0, Interpolation::Step));
    track.set_key(key(5, 0.0, Interpolation::Step));
    track.set_key(key(10, 1.0, Interpolation::Step));

    assert_eq!(val(&track, -1.), 1.0);
    assert_eq!(val(&track, 0.), 1.0);
    assert_eq!(val(&track, 1.), 1.0);

    assert_eq!(val(&track, 4.), 1.0);
    assert_eq!(val(&track, 5.), 0.0);
    assert_eq!(val(&track, 6.), 0.0);

    assert_eq!(val(&track, 9.), 0.0);
    assert_eq!(val(&track, 10.), 1.0);
    assert_eq!(val(&track, 11.), 1.0);
}

#[test]
fn empty_track_is_zero() {
    let track = Track::new("empty");
    assert_eq!(val(&track, 0.), 0.0);
    assert_eq!(val(&track, 42.5), 0.0);
}

#[test]
fn value_at_control_points_is_exact() {
    let mut track = Track::new("exact");
    track.set_key(key(0, 1.25, Interpolation::Linear));
    track.set_key(key(3, -2.5, Interpolation::Smooth));
    track.set_key(key(7, 0.75, Interpolation::Ramp));
    track.set_key(key(9, 4.0, Interpolation::Step));

    assert_eq!(val(&track, 0.), 1.25);
    assert_eq!(val(&track, 3.), -2.5);
    assert_eq!(val(&track, 7.), 0.75);
    assert_eq!(val(&track, 9.), 4.0);
}

#[test]
fn linear_interpolation_between_keys() {
    let mut track = Track::new("linear");
    track.set_key(key(0, 0.0, Interpolation::Linear));
    track.set_key(key(2, 2.0, Interpolation::Linear));

    assert_eq!(val(&track, 1.), 1.0);
    // A fractional row between two integer keyframes must land in the
    // correct floor segment.
    assert_eq!(val(&track, 1.5), 1.5);
    // The boundary test floors the row first, so a fractional row whose
    // floor is the first key's row still extrapolates flat.
    assert_eq!(val(&track, 0.5), 0.0);
}

#[test]
fn fractional_row_uses_floor_segment() {
    let mut track = Track::new("floor");
    track.set_key(key(0, 0.0, Interpolation::Linear));
    track.set_key(key(1, 1.0, Interpolation::Step));
    track.set_key(key(2, 5.0, Interpolation::Linear));

    // Row 1.5 sits in the [1, 2) segment, whose lower key is Step: hold.
    assert_eq!(val(&track, 1.5), 1.0);
    // Row 2.5 floors to the last key's row: flat extrapolation.
    assert_eq!(val(&track, 2.5), 5.0);
}

#[test]
fn set_key_replaces_at_existing_row() {
    let mut track = Track::new("replace");
    track.set_key(key(0, 1.0, Interpolation::Step));
    track.set_key(key(5, 2.0, Interpolation::Step));
    assert_eq!(track.key_count(), 2);

    track.set_key(key(5, 9.0, Interpolation::Linear));
    assert_eq!(track.key_count(), 2);
    assert_eq!(val(&track, 5.), 9.0);
    // Order stays sorted.
    assert!(track.key_at(0).row < track.key_at(1).row);
}

#[test]
fn set_key_keeps_rows_sorted_whatever_the_insertion_order() {
    let mut track = Track::new("sorted");
    for row in [7u32, 1, 9, 3, 0, 8, 2] {
        track.set_key(key(row, row as f32, Interpolation::Linear));
    }
    assert_eq!(track.key_count(), 7);
    for i in 1..track.key_count() {
        assert!(track.key_at(i - 1).row < track.key_at(i).row);
    }
}

#[test]
fn delete_key_on_missing_row_is_noop() {
    let mut track = Track::new("delete");
    track.set_key(key(0, 1.0, Interpolation::Step));
    track.set_key(key(5, 2.0, Interpolation::Step));

    track.delete_key(3);
    assert_eq!(track.key_count(), 2);
    assert_eq!(val(&track, 0.), 1.0);
    assert_eq!(val(&track, 5.), 2.0);

    let empty = &mut Track::new("none");
    empty.delete_key(0);
    assert_eq!(empty.key_count(), 0);
}

#[test]
fn delete_key_removes_existing_row() {
    let mut track = Track::new("delete2");
    track.set_key(key(0, 1.0, Interpolation::Step));
    track.set_key(key(5, 2.0, Interpolation::Step));
    track.delete_key(5);
    assert_eq!(track.key_count(), 1);
    assert_eq!(val(&track, 5.), 1.0);
}

#[test]
fn serialize_layout_is_exact() {
    let mut track = Track::new("A");
    track.set_key(Key::new(1, 2.0f32.to_bits(), Interpolation::Ramp));
    let mut blob: Vec<u8> = Vec::new();
    track.serialize(&mut blob);

    let mut expected: Vec<u8> = Vec::new();
    expected.extend_from_slice(&1u64.to_le_bytes());
    expected.push(b'A');
    expected.extend_from_slice(&1u64.to_le_bytes());
    expected.extend_from_slice(&1u32.to_le_bytes());
    expected.extend_from_slice(&2.0f32.to_bits().to_le_bytes());
    expected.extend_from_slice(&3u32.to_le_bytes());
    assert_eq!(blob, expected);
}

#[test]
fn get_name_returns_the_name() {
    let track = Track::new("a name");
    assert_eq!(track.get_name(), "a name");
    let track = Track::with_capacity("roomy", 16);
    assert_eq!(track.get_name(), "roomy");
    assert_eq!(track.key_count(), 0);
}

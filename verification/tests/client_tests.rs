use rust_rocket::ClientCore;
use rust_rocket::ClientState;
use rust_rocket::Event;
use rust_rocket::Interpolation;
use rust_rocket::RocketEngine;
use rust_rocket::RocketPlayer;
use rust_rocket::encode_get_track;
use rust_rocket::encode_set_row;

/// Feed a complete message byte stream to the core, split at the given
/// chunk sizes, and collect the events produced.
fn feed(core: &mut ClientCore, bytes: &[u8], chunks: &[usize]) -> Vec<Event> {
    let mut events = Vec::new();
    let mut pos = 0usize;
    let mut chunk_iter = 0usize;
    while pos < bytes.len() || matches!(core.state(), ClientState::Complete) {
        match core.state() {
            ClientState::New => {
                core.on_tag(bytes[pos]);
                pos += 1;
            }
            ClientState::Incomplete(rem) => {
                let want = if chunk_iter < chunks.len() {
                    chunks[chunk_iter].min(rem)
                } else {
                    rem
                };
                chunk_iter += 1;
                let take = want.min(bytes.len() - pos);
                core.on_payload(&bytes[pos..pos + take]);
                pos += take;
            }
            ClientState::Complete => {
                if let Some(e) = core.process() {
                    events.push(e);
                }
            }
        }
    }
    events
}

fn set_key_message(track: u32, row: u32, value: f32, interp: u8) -> Vec<u8> {
    let mut m = vec![0u8];
    m.extend_from_slice(&track.to_be_bytes());
    m.extend_from_slice(&row.to_be_bytes());
    m.extend_from_slice(&value.to_bits().to_be_bytes());
    m.push(interp);
    m
}

#[test]
fn set_row_event_is_surfaced() {
    let mut core = ClientCore::new();
    let mut bytes = vec![3u8];
    bytes.extend_from_slice(&77u32.to_be_bytes());
    let events = feed(&mut core, &bytes, &[]);
    assert_eq!(events, vec![Event::SetRow(77)]);
}

#[test]
fn pause_events_are_surfaced() {
    let mut core = ClientCore::new();
    let events = feed(&mut core, &[4, 1, 4, 0, 5], &[]);
    assert_eq!(
        events,
        vec![Event::Pause(true), Event::Pause(false), Event::SaveTracks]
    );
}

#[test]
fn set_key_mutates_track_and_yields_no_event() {
    let mut core = ClientCore::new();
    let idx = core.create_track("cam:x");
    assert_eq!(idx, 0);
    let events = feed(&mut core, &set_key_message(0, 10, 2.5, 1), &[]);
    assert!(events.is_empty());
    let track = core.get_track(core.get_track_index("cam:x").unwrap());
    assert_eq!(track.key_count(), 1);
    assert_eq!(f32::from_bits(track.get_value(10.0f32.to_bits())), 2.5);
}

#[test]
fn delete_key_message_removes_key() {
    let mut core = ClientCore::new();
    core.create_track("t");
    feed(&mut core, &set_key_message(0, 4, 1.0, 0), &[]);
    let mut msg = vec![1u8];
    msg.extend_from_slice(&0u32.to_be_bytes());
    msg.extend_from_slice(&4u32.to_be_bytes());
    let events = feed(&mut core, &msg, &[]);
    assert!(events.is_empty());
    assert_eq!(core.get_track(0).key_count(), 0);
}

#[test]
fn chunked_delivery_matches_whole_delivery() {
    // The same byte stream, split at arbitrary chunk boundaries as a
    // non-blocking socket would yield it, produces the same mutations and
    // events as arriving at once.
    let mut stream = set_key_message(0, 3, 4.25, 2);
    stream.extend_from_slice(&encode_set_row_bytes(9));
    stream.push(4);
    stream.push(1);

    let mut whole = ClientCore::new();
    whole.create_track("a");
    let whole_events = feed(&mut whole, &stream, &[]);

    for chunks in [&[1usize, 1, 1, 1, 1, 1, 1][..], &[2, 3, 1][..], &[5][..]] {
        let mut split = ClientCore::new();
        split.create_track("a");
        let split_events = feed(&mut split, &stream, chunks);
        assert_eq!(split_events, whole_events);
        let a = split.get_track(0);
        let b = whole.get_track(0);
        assert_eq!(a.key_count(), b.key_count());
        for k in 0..a.key_count() {
            assert_eq!(a.key_at(k), b.key_at(k));
        }
    }
}

fn encode_set_row_bytes(row: u32) -> Vec<u8> {
    let mut m = vec![3u8];
    m.extend_from_slice(&row.to_be_bytes());
    m
}

#[test]
fn zero_length_payload_read_defers_completion() {
    let mut core = ClientCore::new();
    core.on_tag(3);
    assert!(matches!(core.state(), ClientState::Incomplete(4)));
    core.on_payload(&[]);
    assert!(matches!(core.state(), ClientState::Incomplete(4)));
    core.on_payload(&7u32.to_be_bytes());
    assert!(matches!(core.state(), ClientState::Complete));
    assert_eq!(core.process(), Some(Event::SetRow(7)));
    assert!(matches!(core.state(), ClientState::New));
}

#[test]
fn unknown_tag_is_consumed_without_event_or_mutation() {
    let mut core = ClientCore::new();
    core.create_track("t");
    feed(&mut core, &set_key_message(0, 1, 1.0, 0), &[]);

    core.on_tag(99);
    assert!(matches!(core.state(), ClientState::Complete));
    assert_eq!(core.process(), None);
    assert!(matches!(core.state(), ClientState::New));
    assert_eq!(core.track_count(), 1);
    assert_eq!(core.get_track(0).key_count(), 1);
}

#[test]
fn set_key_for_unknown_track_is_ignored() {
    let mut core = ClientCore::new();
    core.create_track("only");
    let events = feed(&mut core, &set_key_message(5, 1, 1.0, 0), &[]);
    assert!(events.is_empty());
    assert_eq!(core.get_track(0).key_count(), 0);
}

#[test]
fn unknown_interpolation_code_on_wire_defaults_to_step() {
    let mut core = ClientCore::new();
    core.create_track("t");
    feed(&mut core, &set_key_message(0, 0, 1.0, 9), &[]);
    feed(&mut core, &set_key_message(0, 2, 0.0, 9), &[]);
    // A Step segment holds the lower key's value all the way to the next key.
    assert_eq!(f32::from_bits(core.get_track(0).get_value(1.5f32.to_bits())), 1.0);
}

#[test]
fn encode_set_row_layout() {
    assert_eq!(encode_set_row(0x01020304), vec![3, 1, 2, 3, 4]);
}

#[test]
fn encode_get_track_layout() {
    assert_eq!(encode_get_track("ab"), vec![2, 0, 0, 0, 2, b'a', b'b']);
}

#[test]
fn core_serialize_feeds_player() {
    let mut core = ClientCore::new();
    core.create_track("x");
    core.create_track("y");
    feed(&mut core, &set_key_message(0, 0, 1.5, 1), &[]);
    feed(&mut core, &set_key_message(1, 2, -4.0, 3), &[]);

    let blob = core.serialize();
    let player = RocketPlayer::deserialize(&blob).unwrap();
    assert_eq!(player.track_count(), 2);
    let x = player.get_track(player.get_track_index("x").unwrap());
    assert_eq!(f32::from_bits(x.get_value(0.0f32.to_bits())), 1.5);
    assert_eq!(x.key_at(0).interpolation, Interpolation::Linear);
    let y = player.get_track(player.get_track_index("y").unwrap());
    assert_eq!(f32::from_bits(y.get_value(2.0f32.to_bits())), -4.0);
    assert_eq!(y.key_at(0).interpolation, Interpolation::Ramp);
}

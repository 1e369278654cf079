//! The wire codec: byte-level encodings shared by the live protocol
//! (big-endian fields) and the persistence blob (little-endian fields),
//! the tagged wire message set, and the blob layout.
use vstd::prelude::*;

use crate::interpolation::Interpolation;
use crate::interpolation::spec_interpolation_code;
use crate::interpolation::spec_interpolation_from;
use crate::interpolation::spec_interpolation_from_u32;
use crate::track::Key;
use crate::track::TrackData;
use crate::track::spec_set_key;
use crate::track::lemma_fold_sorted_keys;
use crate::track::sorted_keys;
use vstd::utf8::encode_utf8;
use vstd::utf8::encode_utf8_decode_utf8;
use vstd::utf8::encode_utf8_valid_utf8;
use vstd::utf8::valid_utf8;
use vstd::utf8::decode_utf8;

verus! {

/// The little-endian bytes of a `u32`.
pub open spec fn u32_le_bytes(x: u32) -> Seq<u8> {
    seq![
        (x & 0xff) as u8,
        ((x >> 8) & 0xff) as u8,
        ((x >> 16) & 0xff) as u8,
        ((x >> 24) & 0xff) as u8,
    ]
}

/// The `u32` held by four little-endian bytes.
pub open spec fn le_u32(b: Seq<u8>) -> u32
    recommends
        b.len() == 4,
{
    ((b[0] as u32) | ((b[1] as u32) << 8) | ((b[2] as u32) << 16) | ((b[3] as u32) << 24)) as u32
}

/// The little-endian bytes of a `u64`.
pub open spec fn u64_le_bytes(x: u64) -> Seq<u8> {
    seq![
        (x & 0xff) as u8,
        ((x >> 8) & 0xff) as u8,
        ((x >> 16) & 0xff) as u8,
        ((x >> 24) & 0xff) as u8,
        ((x >> 32) & 0xff) as u8,
        ((x >> 40) & 0xff) as u8,
        ((x >> 48) & 0xff) as u8,
        ((x >> 56) & 0xff) as u8,
    ]
}

/// The `u64` held by eight little-endian bytes.
pub open spec fn le_u64(b: Seq<u8>) -> u64
    recommends
        b.len() == 8,
{
    ((b[0] as u64) | ((b[1] as u64) << 8) | ((b[2] as u64) << 16) | ((b[3] as u64) << 24) | (
    (b[4] as u64) << 32) | ((b[5] as u64) << 40) | ((b[6] as u64) << 48) | ((b[7] as u64)
        << 56)) as u64
}

/// The big-endian bytes of a `u32`, as the live protocol carries its fields.
pub open spec fn u32_be_bytes(x: u32) -> Seq<u8> {
    seq![
        ((x >> 24) & 0xff) as u8,
        ((x >> 16) & 0xff) as u8,
        ((x >> 8) & 0xff) as u8,
        (x & 0xff) as u8,
    ]
}

/// The `u32` held by four big-endian bytes.
pub open spec fn be_u32(b: Seq<u8>) -> u32
    recommends
        b.len() == 4,
{
    (((b[0] as u32) << 24) | ((b[1] as u32) << 16) | ((b[2] as u32) << 8) | (b[3] as u32)) as u32
}

/// Reading back the little-endian bytes of a `u32` yields the number.
pub proof fn lemma_u32_le_round_trip(x: u32)
    ensures
        le_u32(u32_le_bytes(x)) == x,
{
    assert((((x & 0xff) as u8 as u32) | (((x >> 8) & 0xff) as u8 as u32) << 8 | (((x >> 16)
        & 0xff) as u8 as u32) << 16 | (((x >> 24) & 0xff) as u8 as u32) << 24) as u32 == x)
        by (bit_vector);
}

/// Reading back the little-endian bytes of a `u64` yields the number.
pub proof fn lemma_u64_le_round_trip(x: u64)
    ensures
        le_u64(u64_le_bytes(x)) == x,
{
    assert((((x & 0xff) as u8 as u64) | (((x >> 8) & 0xff) as u8 as u64) << 8 | (((x >> 16)
        & 0xff) as u8 as u64) << 16 | (((x >> 24) & 0xff) as u8 as u64) << 24 | (((x >> 32)
        & 0xff) as u8 as u64) << 32 | (((x >> 40) & 0xff) as u8 as u64) << 40 | (((x >> 48)
        & 0xff) as u8 as u64) << 48 | (((x >> 56) & 0xff) as u8 as u64) << 56) as u64 == x)
        by (bit_vector);
}

/// Append the little-endian bytes of a `u32` to a buffer.
pub fn push_u32_le(out: &mut Vec<u8>, x: u32)
    ensures
        final(out)@ == old(out)@ + u32_le_bytes(x),
{
    out.push((x & 0xff) as u8);
    out.push(((x >> 8) & 0xff) as u8);
    out.push(((x >> 16) & 0xff) as u8);
    out.push(((x >> 24) & 0xff) as u8);
    assert(out@ =~= old(out)@ + u32_le_bytes(x));
}

/// Append the little-endian bytes of a `u64` to a buffer.
pub fn push_u64_le(out: &mut Vec<u8>, x: u64)
    ensures
        final(out)@ == old(out)@ + u64_le_bytes(x),
{
    out.push((x & 0xff) as u8);
    out.push(((x >> 8) & 0xff) as u8);
    out.push(((x >> 16) & 0xff) as u8);
    out.push(((x >> 24) & 0xff) as u8);
    out.push(((x >> 32) & 0xff) as u8);
    out.push(((x >> 40) & 0xff) as u8);
    out.push(((x >> 48) & 0xff) as u8);
    out.push(((x >> 56) & 0xff) as u8);
    assert(out@ =~= old(out)@ + u64_le_bytes(x));
}

/// Append the big-endian bytes of a `u32` to a buffer.
pub fn push_u32_be(out: &mut Vec<u8>, x: u32)
    ensures
        final(out)@ == old(out)@ + u32_be_bytes(x),
{
    out.push(((x >> 24) & 0xff) as u8);
    out.push(((x >> 16) & 0xff) as u8);
    out.push(((x >> 8) & 0xff) as u8);
    out.push((x & 0xff) as u8);
    assert(out@ =~= old(out)@ + u32_be_bytes(x));
}

/// Read the `u32` held little-endian at a position of a buffer.
pub fn read_u32_le(data: &[u8], pos: usize) -> (r: u32)
    requires
        pos + 4 <= data.len(),
    ensures
        r == le_u32(data@.subrange(pos as int, pos as int + 4)),
{
    let ghost b = data@.subrange(pos as int, pos as int + 4);
    proof {
        assert(b[0] == data@[pos as int]);
        assert(b[1] == data@[pos as int + 1]);
        assert(b[2] == data@[pos as int + 2]);
        assert(b[3] == data@[pos as int + 3]);
    }
    (data[pos] as u32) | ((data[pos + 1] as u32) << 8) | ((data[pos + 2] as u32) << 16) | ((data[pos
        + 3] as u32) << 24)
}

/// Read the `u64` held little-endian at a position of a buffer.
pub fn read_u64_le(data: &[u8], pos: usize) -> (r: u64)
    requires
        pos + 8 <= data.len(),
    ensures
        r == le_u64(data@.subrange(pos as int, pos as int + 8)),
{
    let ghost b = data@.subrange(pos as int, pos as int + 8);
    proof {
        assert forall|i: int| 0 <= i < 8 implies b[i] == data@[pos + i] by {}
    }
    (data[pos] as u64) | ((data[pos + 1] as u64) << 8) | ((data[pos + 2] as u64) << 16) | ((data[pos
        + 3] as u64) << 24) | ((data[pos + 4] as u64) << 32) | ((data[pos + 5] as u64) << 40) | ((
    data[pos + 6] as u64) << 48) | ((data[pos + 7] as u64) << 56)
}

/// Read the `u32` held big-endian at a position of a buffer.
pub fn read_u32_be(data: &[u8], pos: usize) -> (r: u32)
    requires
        pos + 4 <= data.len(),
    ensures
        r == be_u32(data@.subrange(pos as int, pos as int + 4)),
{
    let ghost b = data@.subrange(pos as int, pos as int + 4);
    proof {
        assert(b[0] == data@[pos as int]);
        assert(b[1] == data@[pos as int + 1]);
        assert(b[2] == data@[pos as int + 2]);
        assert(b[3] == data@[pos as int + 3]);
    }
    ((data[pos] as u32) << 24) | ((data[pos + 1] as u32) << 16) | ((data[pos + 2] as u32) << 8) | (
    data[pos + 3] as u32)
}

/// One decoded wire message. Messages that mutate track data carry the
/// mutation; user-relevant messages carry their payload; a tag outside the
/// known set decodes to `Ignored` rather than failing.
#[derive(Clone, Copy, PartialEq, Eq, Structural, Debug)]
pub enum Command {
    /// Insert or replace a key of a track (tag 0).
    SetKey { track: u32, row: u32, value: u32, interpolation: Interpolation },
    /// Delete a key of a track (tag 1).
    DeleteKey { track: u32, row: u32 },
    /// The tracker changed row (tag 3).
    SetRow { row: u32 },
    /// The tracker paused or unpaused (tag 4).
    Pause { flag: bool },
    /// The tracker asks for the track data to be persisted (tag 5).
    SaveTracks,
    /// An unknown tag; consumed as a no-op.
    Ignored,
}

/// The number of payload bytes that follow a tag byte on the wire.
pub open spec fn spec_payload_len(tag: u8) -> nat {
    if tag == 0 {
        13
    } else if tag == 1 {
        8
    } else if tag == 3 {
        4
    } else if tag == 4 {
        1
    } else {
        0
    }
}

/// The message held by one complete command buffer: a tag byte followed by
/// exactly the payload the tag calls for.
pub open spec fn spec_decode_command(cmd: Seq<u8>) -> Command
    recommends
        cmd.len() == 1 + spec_payload_len(cmd[0]),
{
    let tag = cmd[0];
    if tag == 0 {
        Command::SetKey {
            track: be_u32(cmd.subrange(1, 5)),
            row: be_u32(cmd.subrange(5, 9)),
            value: be_u32(cmd.subrange(9, 13)),
            interpolation: spec_interpolation_from(cmd[13]),
        }
    } else if tag == 1 {
        Command::DeleteKey { track: be_u32(cmd.subrange(1, 5)), row: be_u32(cmd.subrange(5, 9)) }
    } else if tag == 3 {
        Command::SetRow { row: be_u32(cmd.subrange(1, 5)) }
    } else if tag == 4 {
        Command::Pause { flag: cmd[1] == 1 }
    } else if tag == 5 {
        Command::SaveTracks
    } else {
        Command::Ignored
    }
}

/// Decode one complete command buffer into the message it holds.
pub fn decode_command(cmd: &Vec<u8>) -> (c: Command)
    requires
        cmd@.len() == 1 + spec_payload_len(cmd@[0]),
    ensures
        c == spec_decode_command(cmd@),
{
    let tag = cmd[0];
    if tag == 0 {
        let track = read_u32_be(cmd.as_slice(), 1);
        let row = read_u32_be(cmd.as_slice(), 5);
        let value = read_u32_be(cmd.as_slice(), 9);
        let interpolation = Interpolation::from(cmd[13]);
        Command::SetKey { track, row, value, interpolation }
    } else if tag == 1 {
        let track = read_u32_be(cmd.as_slice(), 1);
        let row = read_u32_be(cmd.as_slice(), 5);
        Command::DeleteKey { track, row }
    } else if tag == 3 {
        let row = read_u32_be(cmd.as_slice(), 1);
        Command::SetRow { row }
    } else if tag == 4 {
        Command::Pause { flag: cmd[1] == 1 }
    } else if tag == 5 {
        Command::SaveTracks
    } else {
        Command::Ignored
    }
}

/// The bytes of a row-change message: tag 3, then the row big-endian.
pub open spec fn spec_encode_set_row(row: u32) -> Seq<u8> {
    seq![3u8] + u32_be_bytes(row)
}

/// Encode a row-change message for sending.
pub fn encode_set_row(row: u32) -> (r: Vec<u8>)
    ensures
        r@ == spec_encode_set_row(row),
{
    let mut buf: Vec<u8> = Vec::new();
    buf.push(3);
    push_u32_be(&mut buf, row);
    proof {
        assert(buf@ =~= spec_encode_set_row(row));
    }
    buf
}

/// The bytes of a track request: tag 2, the name's byte length big-endian,
/// then the name's UTF-8 bytes.
pub open spec fn spec_encode_get_track(name: Seq<char>) -> Seq<u8> {
    seq![2u8] + u32_be_bytes(encode_utf8(name).len() as u32) + encode_utf8(name)
}

/// Encode a track request for sending. The name's byte length must fit the
/// wire's 32-bit length field.
pub fn encode_get_track(name: &str) -> (r: Vec<u8>)
    requires
        encode_utf8(name@).len() <= u32::MAX,
    ensures
        r@ == spec_encode_get_track(name@),
{
    let bytes = name.as_bytes();
    let mut buf: Vec<u8> = Vec::new();
    buf.push(2);
    push_u32_be(&mut buf, bytes.len() as u32);
    buf.extend_from_slice(bytes);
    proof {
        assert(buf@ =~= spec_encode_get_track(name@));
    }
    buf
}


/// The persisted form of one key: row, value bits and interpolation code,
/// each a little-endian 32-bit field.
pub open spec fn spec_serialize_key(k: Key) -> Seq<u8> {
    u32_le_bytes(k.row) + u32_le_bytes(k.value) + u32_le_bytes(
        spec_interpolation_code(k.interpolation),
    )
}

/// The persisted form of a key sequence, in order.
pub open spec fn spec_serialize_keys(keys: Seq<Key>) -> Seq<u8>
    decreases keys.len(),
{
    if keys.len() == 0 {
        Seq::empty()
    } else {
        spec_serialize_key(keys[0]) + spec_serialize_keys(keys.drop_first())
    }
}

/// The persisted form of one track: the name's byte length (u64), the
/// name's UTF-8 bytes, the key count (u64), then each key.
pub open spec fn spec_serialize_track(t: TrackData) -> Seq<u8> {
    u64_le_bytes(encode_utf8(t.name).len() as u64) + encode_utf8(t.name) + u64_le_bytes(
        t.keys.len() as u64,
    ) + spec_serialize_keys(t.keys)
}

/// The persisted form of a track sequence, in order.
pub open spec fn spec_serialize_tracks(tracks: Seq<TrackData>) -> Seq<u8>
    decreases tracks.len(),
{
    if tracks.len() == 0 {
        Seq::empty()
    } else {
        spec_serialize_track(tracks[0]) + spec_serialize_tracks(tracks.drop_first())
    }
}

/// The whole persistence blob: the track count (u64), then each track.
pub open spec fn spec_serialize(tracks: Seq<TrackData>) -> Seq<u8> {
    u64_le_bytes(tracks.len() as u64) + spec_serialize_tracks(tracks)
}

/// The persisted form of a concatenation of key sequences is the
/// concatenation of their persisted forms.
pub proof fn lemma_serialize_keys_concat(a: Seq<Key>, b: Seq<Key>)
    ensures
        spec_serialize_keys(a + b) == spec_serialize_keys(a) + spec_serialize_keys(b),
    decreases a.len(),
{
    if a.len() == 0 {
        assert(a + b =~= b);
        assert(spec_serialize_keys(a) + spec_serialize_keys(b) =~= spec_serialize_keys(b));
    } else {
        assert((a + b).drop_first() =~= a.drop_first() + b);
        lemma_serialize_keys_concat(a.drop_first(), b);
        assert((a + b)[0] == a[0]);
        assert(spec_serialize_key(a[0]) + (spec_serialize_keys(a.drop_first())
            + spec_serialize_keys(b)) =~= (spec_serialize_key(a[0]) + spec_serialize_keys(
            a.drop_first(),
        )) + spec_serialize_keys(b));
    }
}

/// Serializing one more key appends exactly that key's persisted form.
pub proof fn lemma_serialize_keys_snoc(keys: Seq<Key>, i: int)
    requires
        0 <= i < keys.len(),
    ensures
        spec_serialize_keys(keys.take(i + 1)) == spec_serialize_keys(keys.take(i))
            + spec_serialize_key(keys[i]),
{
    assert(keys.take(i + 1) =~= keys.take(i) + seq![keys[i]]);
    lemma_serialize_keys_concat(keys.take(i), seq![keys[i]]);
    assert(seq![keys[i]].drop_first() =~= Seq::<Key>::empty());
    assert(spec_serialize_keys(Seq::<Key>::empty()) == Seq::<u8>::empty());
    assert(spec_serialize_keys(seq![keys[i]]) =~= spec_serialize_key(keys[i]));
}

/// The persisted form of a concatenation of track sequences is the
/// concatenation of their persisted forms.
pub proof fn lemma_serialize_tracks_concat(a: Seq<TrackData>, b: Seq<TrackData>)
    ensures
        spec_serialize_tracks(a + b) == spec_serialize_tracks(a) + spec_serialize_tracks(b),
    decreases a.len(),
{
    if a.len() == 0 {
        assert(a + b =~= b);
        assert(spec_serialize_tracks(a) + spec_serialize_tracks(b) =~= spec_serialize_tracks(b));
    } else {
        assert((a + b).drop_first() =~= a.drop_first() + b);
        lemma_serialize_tracks_concat(a.drop_first(), b);
        assert((a + b)[0] == a[0]);
        assert(spec_serialize_track(a[0]) + (spec_serialize_tracks(a.drop_first())
            + spec_serialize_tracks(b)) =~= (spec_serialize_track(a[0]) + spec_serialize_tracks(
            a.drop_first(),
        )) + spec_serialize_tracks(b));
    }
}

/// Serializing one more track appends exactly that track's persisted form.
pub proof fn lemma_serialize_tracks_snoc(tracks: Seq<TrackData>, i: int)
    requires
        0 <= i < tracks.len(),
    ensures
        spec_serialize_tracks(tracks.take(i + 1)) == spec_serialize_tracks(tracks.take(i))
            + spec_serialize_track(tracks[i]),
{
    assert(tracks.take(i + 1) =~= tracks.take(i) + seq![tracks[i]]);
    lemma_serialize_tracks_concat(tracks.take(i), seq![tracks[i]]);
    assert(seq![tracks[i]].drop_first() =~= Seq::<TrackData>::empty());
    assert(spec_serialize_tracks(Seq::<TrackData>::empty()) == Seq::<u8>::empty());
    assert(spec_serialize_tracks(seq![tracks[i]]) =~= spec_serialize_track(tracks[i]));
}

/// The key held at a position of a blob.
pub open spec fn spec_parse_key(data: Seq<u8>, pos: int) -> Key
    recommends
        0 <= pos,
        pos + 12 <= data.len(),
{
    Key {
        row: le_u32(data.subrange(pos, pos + 4)),
        value: le_u32(data.subrange(pos + 4, pos + 8)),
        interpolation: spec_interpolation_from_u32(le_u32(data.subrange(pos + 8, pos + 12))),
    }
}

/// The `n` keys held back to back at a position of a blob, in blob order.
pub open spec fn spec_parse_keys(data: Seq<u8>, pos: int, n: nat) -> Seq<Key>
    decreases n,
{
    if n == 0 {
        Seq::empty()
    } else {
        seq![spec_parse_key(data, pos)] + spec_parse_keys(data, pos + 12, (n - 1) as nat)
    }
}

/// The keys a parsed track ends with: each raw key applied in order with
/// `set_key`, so the keys come out strictly sorted with at most one per row
/// whatever the blob held.
pub open spec fn spec_fold_keys(keys: Seq<Key>) -> Seq<Key>
    decreases keys.len(),
{
    if keys.len() == 0 {
        Seq::empty()
    } else {
        spec_set_key(spec_fold_keys(keys.drop_last()), keys.last())
    }
}

/// One track parsed at a position of a blob, with the position just past
/// it; `None` when a declared length runs past the end of the buffer or the
/// name is not valid UTF-8.
pub open spec fn spec_parse_track(data: Seq<u8>, pos: int) -> Option<(TrackData, int)> {
    if pos + 8 > data.len() {
        None
    } else {
        let name_len = le_u64(data.subrange(pos, pos + 8)) as int;
        if pos + 8 + name_len > data.len() {
            None
        } else {
            let name_bytes = data.subrange(pos + 8, pos + 8 + name_len);
            if !valid_utf8(name_bytes) {
                None
            } else {
                let p2 = pos + 8 + name_len;
                if p2 + 8 > data.len() {
                    None
                } else {
                    let key_count = le_u64(data.subrange(p2, p2 + 8)) as int;
                    let p3 = p2 + 8;
                    if p3 + 12 * key_count > data.len() {
                        None
                    } else {
                        Some(
                            (
                                TrackData {
                                    name: decode_utf8(name_bytes),
                                    keys: spec_fold_keys(spec_parse_keys(data, p3, key_count as nat)),
                                },
                                p3 + 12 * key_count,
                            ),
                        )
                    }
                }
            }
        }
    }
}

/// `n` tracks parsed back to back from a position of a blob.
pub open spec fn spec_parse_tracks(data: Seq<u8>, pos: int, n: nat) -> Option<
    (Seq<TrackData>, int),
>
    decreases n,
{
    if n == 0 {
        Some((Seq::empty(), pos))
    } else {
        match spec_parse_track(data, pos) {
            Option::None => None,
            Option::Some(tp) => match spec_parse_tracks(data, tp.1, (n - 1) as nat) {
                Option::None => None,
                Option::Some(rest) => Some((seq![tp.0] + rest.0, rest.1)),
            },
        }
    }
}

/// What deserializing a blob yields: a track count, then that many tracks;
/// trailing bytes are ignored. `None` when a declared length runs past the
/// end of the buffer or a name is not valid UTF-8.
pub open spec fn spec_deserialize(data: Seq<u8>) -> Option<Seq<TrackData>> {
    if data.len() < 8 {
        None
    } else {
        match spec_parse_tracks(data, 8, le_u64(data.subrange(0, 8)) as nat) {
            Option::None => None,
            Option::Some(rest) => Some(rest.0),
        }
    }
}


/// The persisted form of a key sequence is twelve bytes per key.
pub proof fn lemma_serialize_keys_len(keys: Seq<Key>)
    ensures
        spec_serialize_keys(keys).len() == 12 * keys.len(),
    decreases keys.len(),
{
    if keys.len() > 0 {
        lemma_serialize_keys_len(keys.drop_first());
    }
}

proof fn lemma_concat_parts(a: Seq<u8>, b: Seq<u8>)
    ensures
        (a + b).subrange(0, a.len() as int) == a,
        (a + b).subrange(a.len() as int, (a + b).len() as int) == b,
{
    assert((a + b).subrange(0, a.len() as int) =~= a);
    assert((a + b).subrange(a.len() as int, (a + b).len() as int) =~= b);
}

proof fn lemma_subsub(s: Seq<u8>, a: int, b: int, c: int, d: int)
    requires
        0 <= a <= b <= s.len(),
        0 <= c <= d <= b - a,
    ensures
        s.subrange(a, b).subrange(c, d) == s.subrange(a + c, a + d),
{
    assert(s.subrange(a, b).subrange(c, d) =~= s.subrange(a + c, a + d));
}

proof fn lemma_subrange_of_matching(data: Seq<u8>, pos: int, s: Seq<u8>, a: int, b: int)
    requires
        0 <= pos,
        pos + s.len() <= data.len(),
        data.subrange(pos, pos + s.len() as int) == s,
        0 <= a <= b <= s.len(),
    ensures
        data.subrange(pos + a, pos + b) == s.subrange(a, b),
{
    lemma_subsub(data, pos, pos + s.len() as int, a, b);
}

/// Parsing the persisted form of a key sequence yields it back.
proof fn lemma_parse_serialized_keys(data: Seq<u8>, pos: int, keys: Seq<Key>)
    requires
        0 <= pos,
        pos + 12 * keys.len() <= data.len(),
        data.subrange(pos, pos + 12 * keys.len()) == spec_serialize_keys(keys),
    ensures
        spec_parse_keys(data, pos, keys.len()) == keys,
    decreases keys.len(),
{
    lemma_serialize_keys_len(keys);
    if keys.len() == 0 {
        assert(spec_parse_keys(data, pos, 0) =~= keys);
    } else {
        let k = keys[0];
        let rest = keys.drop_first();
        let s = spec_serialize_keys(keys);
        let sk = spec_serialize_key(k);
        let wr = u32_le_bytes(k.row);
        let wv = u32_le_bytes(k.value);
        let wc = u32_le_bytes(spec_interpolation_code(k.interpolation));
        lemma_serialize_keys_len(rest);
        lemma_concat_parts(sk, spec_serialize_keys(rest));
        lemma_concat_parts(wr + wv, wc);
        lemma_concat_parts(wr, wv);
        lemma_subrange_of_matching(data, pos, s, 0, 12);
        lemma_subrange_of_matching(data, pos, s, 12, s.len() as int);
        assert(data.subrange(pos, pos + 12) == sk);
        assert(data.subrange(pos + 12, pos + 12 * keys.len()) == spec_serialize_keys(rest));
        lemma_subrange_of_matching(data, pos, sk, 0, 8);
        lemma_subrange_of_matching(data, pos, sk, 8, 12);
        assert(data.subrange(pos, pos + 8) == wr + wv);
        assert(data.subrange(pos + 8, pos + 12) == wc);
        lemma_subrange_of_matching(data, pos, wr + wv, 0, 4);
        lemma_subrange_of_matching(data, pos, wr + wv, 4, 8);
        assert(data.subrange(pos, pos + 4) == wr);
        assert(data.subrange(pos + 4, pos + 8) == wv);
        lemma_u32_le_round_trip(k.row);
        lemma_u32_le_round_trip(k.value);
        lemma_u32_le_round_trip(spec_interpolation_code(k.interpolation));
        assert(spec_parse_key(data, pos) == k);
        lemma_parse_serialized_keys(data, pos + 12, rest);
        assert(spec_parse_keys(data, pos, keys.len()) =~= keys);
    }
}

/// Parsing at the position of a track's persisted form yields that track
/// and stops just past it.
proof fn lemma_parse_serialized_track(data: Seq<u8>, pos: int, t: TrackData)
    requires
        0 <= pos,
        pos + spec_serialize_track(t).len() <= data.len(),
        data.subrange(pos, pos + spec_serialize_track(t).len()) == spec_serialize_track(t),
        sorted_keys(t.keys),
        t.keys.len() <= u64::MAX,
        encode_utf8(t.name).len() <= u64::MAX,
    ensures
        spec_parse_track(data, pos) == Some((t, pos + spec_serialize_track(t).len())),
{
    let nb = encode_utf8(t.name);
    let nl = nb.len() as int;
    let kc = t.keys.len() as int;
    let s = spec_serialize_track(t);
    let w1 = u64_le_bytes(nl as u64);
    let w2 = u64_le_bytes(kc as u64);
    let ks = spec_serialize_keys(t.keys);
    lemma_serialize_keys_len(t.keys);
    assert(s.len() == 8 + nl + 8 + 12 * kc);
    lemma_concat_parts((w1 + nb) + w2, ks);
    lemma_concat_parts(w1 + nb, w2);
    lemma_concat_parts(w1, nb);
    lemma_subrange_of_matching(data, pos, s, 0, 8 + nl + 8);
    lemma_subrange_of_matching(data, pos, s, 8 + nl + 8, s.len() as int);
    assert(data.subrange(pos, pos + (8 + nl + 8)) == (w1 + nb) + w2);
    let p3 = pos + 8 + nl + 8;
    assert(data.subrange(p3, p3 + 12 * kc) == ks);
    lemma_subrange_of_matching(data, pos, (w1 + nb) + w2, 0, 8 + nl);
    lemma_subrange_of_matching(data, pos, (w1 + nb) + w2, 8 + nl, 8 + nl + 8);
    assert(data.subrange(pos, pos + (8 + nl)) == w1 + nb);
    let p2 = pos + 8 + nl;
    assert(data.subrange(p2, p2 + 8) == w2);
    lemma_subrange_of_matching(data, pos, w1 + nb, 0, 8);
    lemma_subrange_of_matching(data, pos, w1 + nb, 8, 8 + nl);
    assert(data.subrange(pos, pos + 8) == w1);
    assert(data.subrange(pos + 8, pos + 8 + nl) == nb);
    lemma_u64_le_round_trip(nl as u64);
    lemma_u64_le_round_trip(kc as u64);
    encode_utf8_valid_utf8(t.name);
    encode_utf8_decode_utf8(t.name);
    lemma_parse_serialized_keys(data, p3, t.keys);
    lemma_fold_sorted_keys(t.keys);
    assert(spec_parse_track(data, pos) == Some((t, pos + s.len())));
}

/// Parsing at the position of a track sequence's persisted form yields the
/// sequence and stops just past it.
proof fn lemma_parse_serialized_tracks(data: Seq<u8>, pos: int, tracks: Seq<TrackData>)
    requires
        0 <= pos,
        pos + spec_serialize_tracks(tracks).len() <= data.len(),
        data.subrange(pos, pos + spec_serialize_tracks(tracks).len()) == spec_serialize_tracks(
            tracks,
        ),
        forall|i: int| 0 <= i < tracks.len() ==> sorted_keys((#[trigger] tracks[i]).keys),
        forall|i: int| 0 <= i < tracks.len() ==> (#[trigger] tracks[i]).keys.len() <= u64::MAX,
        forall|i: int|
            0 <= i < tracks.len() ==> encode_utf8((#[trigger] tracks[i]).name).len() <= u64::MAX,
    ensures
        spec_parse_tracks(data, pos, tracks.len()) == Some(
            (tracks, pos + spec_serialize_tracks(tracks).len()),
        ),
    decreases tracks.len(),
{
    let s = spec_serialize_tracks(tracks);
    if tracks.len() == 0 {
        assert(spec_parse_tracks(data, pos, 0) == Some((Seq::<TrackData>::empty(), pos)));
        assert(tracks =~= Seq::<TrackData>::empty());
    } else {
        let t = tracks[0];
        let st = spec_serialize_track(t);
        let rest = tracks.drop_first();
        let sr = spec_serialize_tracks(rest);
        lemma_concat_parts(st, sr);
        lemma_subrange_of_matching(data, pos, s, 0, st.len() as int);
        lemma_subrange_of_matching(data, pos, s, st.len() as int, s.len() as int);
        assert(data.subrange(pos, pos + st.len() as int) == st);
        lemma_parse_serialized_track(data, pos, t);
        let p2 = pos + st.len() as int;
        assert(data.subrange(p2, p2 + sr.len() as int) == sr);
        lemma_parse_serialized_tracks(data, p2, rest);
        assert(seq![t] + rest =~= tracks);
    }
}

/// The round-trip law: a track collection whose tracks are strictly
/// row-sorted and machine-sized deserializes from its own serialization to
/// exactly itself — same names, key counts, rows, values and interpolation
/// kinds.
pub proof fn lemma_serialize_round_trip(tracks: Seq<TrackData>)
    requires
        tracks.len() <= u64::MAX,
        forall|i: int| 0 <= i < tracks.len() ==> sorted_keys((#[trigger] tracks[i]).keys),
        forall|i: int| 0 <= i < tracks.len() ==> (#[trigger] tracks[i]).keys.len() <= u64::MAX,
        forall|i: int|
            0 <= i < tracks.len() ==> encode_utf8((#[trigger] tracks[i]).name).len() <= u64::MAX,
    ensures
        spec_deserialize(spec_serialize(tracks)) == Some(tracks),
{
    let data = spec_serialize(tracks);
    let st = spec_serialize_tracks(tracks);
    assert(data.len() == 8 + st.len());
    assert(data.subrange(0, 8) =~= u64_le_bytes(tracks.len() as u64));
    lemma_u64_le_round_trip(tracks.len() as u64);
    assert(data.subrange(8, 8 + st.len() as int) =~= st);
    lemma_parse_serialized_tracks(data, 8, tracks);
}


} // verus!

//! The offline player: a read-only track collection restored from a
//! persistence blob.
use vstd::prelude::*;

use crate::codec::le_u64;
use crate::codec::read_u32_le;
use crate::codec::read_u64_le;
use crate::codec::spec_deserialize;
use crate::codec::spec_fold_keys;
use crate::codec::spec_parse_key;
use crate::codec::spec_parse_keys;
use crate::codec::spec_parse_track;
use crate::codec::spec_parse_tracks;
use crate::client::tracks_data;
use crate::interpolation::interpolation_from_u32;
use crate::track::Key;
use crate::track::RocketEngine;
use crate::track::Track;
use vstd::arithmetic::div_mod::lemma_fundamental_div_mod;
use vstd::utf8::decode_utf8;
use vstd::utf8::encode_utf8_decode_utf8;
use vstd::utf8::valid_utf8;
use vstd::string::StringSliceAdditionalSpecFns;

verus! {

broadcast use vstd::slice::axiom_spec_len;

/// Relies on `core::str::from_utf8`: it returns `Ok` exactly on valid
/// UTF-8 input, and the string it returns holds exactly the input bytes.
#[verifier::external_body]
fn utf8_to_str(b: &[u8]) -> (r: Option<&str>)
    ensures
        r is Some <==> valid_utf8(b@),
        r matches Some(s) ==> s.spec_bytes() == b@,
{
    core::str::from_utf8(b).ok()
}

/// Parsing one more key appends exactly the key held twelve bytes further.
proof fn lemma_parse_keys_snoc(data: Seq<u8>, pos: int, k: nat)
    ensures
        spec_parse_keys(data, pos, (k + 1) as nat) == spec_parse_keys(data, pos, k).push(
            spec_parse_key(data, pos + 12 * k),
        ),
    decreases k,
{
    if k == 0 {
        assert(spec_parse_keys(data, pos + 12, 0) =~= Seq::<Key>::empty());
        assert(seq![spec_parse_key(data, pos)] + Seq::<Key>::empty() =~= Seq::<
            Key,
        >::empty().push(spec_parse_key(data, pos)));
    } else {
        lemma_parse_keys_snoc(data, pos + 12, (k - 1) as nat);
        assert(pos + 12 + 12 * (k - 1) == pos + 12 * k);
        assert(seq![spec_parse_key(data, pos)] + spec_parse_keys(data, pos + 12, (k - 1) as nat).push(
            spec_parse_key(data, pos + 12 * k),
        ) =~= (seq![spec_parse_key(data, pos)] + spec_parse_keys(data, pos + 12, (k - 1) as nat)).push(
            spec_parse_key(data, pos + 12 * k),
        ));
    }
}

/// Folding one more key applies `set_key` to the fold so far.
proof fn lemma_fold_keys_push(keys: Seq<Key>, k: Key)
    ensures
        spec_fold_keys(keys.push(k)) == crate::track::spec_set_key(spec_fold_keys(keys), k),
{
    assert(keys.push(k).drop_last() =~= keys);
}

/// Parse one track at a position of a blob: the name, then the keys,
/// applied in arrival order so the track comes out well-formed.
fn parse_track(data: &[u8], pos: usize) -> (r: Option<(Track, usize)>)
    requires
        pos <= data.len(),
    ensures
        match r {
            Some(tp) => {
                &&& spec_parse_track(data@, pos as int) == Some((tp.0.data(), tp.1 as int))
                &&& tp.0.wf()
                &&& pos <= tp.1 <= data@.len()
            },
            None => spec_parse_track(data@, pos as int) is None,
        },
{
    if data.len() - pos < 8 {
        return None;
    }
    let name_len64 = read_u64_le(data, pos);
    let rest = data.len() - (pos + 8);
    if name_len64 > rest as u64 {
        return None;
    }
    let name_len = name_len64 as usize;
    let name_bytes: &[u8] = &data[pos + 8..pos + 8 + name_len];
    let name = match utf8_to_str(name_bytes) {
        Some(s) => s,
        None => {
            return None;
        },
    };
    proof {
        encode_utf8_decode_utf8(name@);
        assert(decode_utf8(name_bytes@) == name@);
    }
    let p2 = pos + 8 + name_len;
    if data.len() - p2 < 8 {
        return None;
    }
    let key_count64 = read_u64_le(data, p2);
    let p3 = p2 + 8;
    let remaining = data.len() - p3;
    let quot = remaining / 12;
    proof {
        lemma_fundamental_div_mod(remaining as int, 12);
    }
    if key_count64 > quot as u64 {
        proof {
            assert(p3 + 12 * (key_count64 as int) > data@.len());
        }
        return None;
    }
    let key_count = key_count64 as usize;
    let mut t = Track::with_capacity(name, key_count);
    let mut k: usize = 0;
    let mut kpos: usize = p3;
    while k < key_count
        invariant
            k <= key_count,
            kpos == p3 + 12 * k,
            p3 + 12 * key_count <= data@.len(),
            data@.len() <= usize::MAX,
            t.wf(),
            t.spec_name() == name@,
            t.spec_keys() == spec_fold_keys(spec_parse_keys(data@, p3 as int, k as nat)),
        decreases key_count - k,
    {
        proof {
            assert(kpos + 12 <= data@.len());
        }
        let row = read_u32_le(data, kpos);
        let value = read_u32_le(data, kpos + 4);
        let code = read_u32_le(data, kpos + 8);
        let key = Key::new(row, value, interpolation_from_u32(code));
        proof {
            assert(key == spec_parse_key(data@, kpos as int));
            lemma_parse_keys_snoc(data@, p3 as int, k as nat);
            lemma_fold_keys_push(spec_parse_keys(data@, p3 as int, k as nat), key);
        }
        t.set_key(key);
        k = k + 1;
        kpos = kpos + 12;
    }
    proof {
        assert(spec_parse_track(data@, pos as int) == Some((t.data(), kpos as int)));
    }
    Some((t, kpos))
}

/// A player for tracks frozen by the live client's `serialize`: the same
/// read interface over a collection that is fixed once restored.
pub struct RocketPlayer {
    tracks: Vec<Track>,
}

impl RocketPlayer {
    /// Construct a `RocketPlayer` holding the given tracks.
    pub fn new(tracks: Vec<Track>) -> (p: RocketPlayer)
        ensures
            p.spec_tracks() == tracks@,
    {
        RocketPlayer { tracks }
    }

    /// The number of tracks the player holds.
    pub fn track_count(&self) -> (r: usize)
        ensures
            r == self.spec_tracks().len(),
    {
        self.tracks.len()
    }

    /// Restore a track collection from a persistence blob: the track
    /// count, then each track. Yields `None` exactly when a declared
    /// length runs past the end of the buffer or a name is not valid
    /// UTF-8; bytes after the declared tracks are ignored.
    pub fn deserialize(data: &[u8]) -> (r: Option<RocketPlayer>)
        ensures
            match r {
                Some(p) => {
                    &&& spec_deserialize(data@) == Some(tracks_data(p.spec_tracks()))
                    &&& forall|i: int|
                        0 <= i < p.spec_tracks().len() ==> (#[trigger] p.spec_tracks()[i]).wf()
                },
                None => spec_deserialize(data@) is None,
            },
    {
        if data.len() < 8 {
            return None;
        }
        let track_count = read_u64_le(data, 0);
        let mut tracks: Vec<Track> = Vec::new();
        let mut pos: usize = 8;
        let mut ti: u64 = 0;
        while ti < track_count
            invariant
                8 <= pos <= data@.len(),
                ti <= track_count,
                track_count == le_u64(data@.subrange(0, 8)),
                forall|i: int| 0 <= i < tracks@.len() ==> (#[trigger] tracks@[i]).wf(),
                ({
                    let whole = spec_parse_tracks(data@, 8, track_count as nat);
                    let rem = spec_parse_tracks(data@, pos as int, (track_count - ti) as nat);
                    match rem {
                        Option::None => whole is None,
                        Option::Some(rp) => whole == Some((tracks_data(tracks@) + rp.0, rp.1)),
                    }
                }),
        decreases track_count - ti,
        {
            let parsed = parse_track(data, pos);
            match parsed {
                Some(tp) => {
                    let ghost old_tracks = tracks@;
                    let (t, p) = tp;
                    let ghost gt = t;
                    tracks.push(t);
                    proof {
                        let m = (track_count - ti) as nat;
                        let rem = spec_parse_tracks(data@, pos as int, m);
                        let rem2 = spec_parse_tracks(data@, p as int, (m - 1) as nat);
                        assert(rem == match rem2 {
                            Option::None => Option::<(Seq<crate::track::TrackData>, int)>::None,
                            Option::Some(rp2) => Option::Some(
                                (seq![gt.data()] + rp2.0, rp2.1),
                            ),
                        });
                        if rem2 is Some {
                            let rp2 = rem2->0;
                            assert(tracks_data(old_tracks.push(gt)) + rp2.0 =~= tracks_data(
                                old_tracks,
                            ) + (seq![gt.data()] + rp2.0));
                        }
                        assert forall|i: int| 0 <= i < tracks@.len() implies (
                        #[trigger] tracks@[i]).wf() by {
                            if i < old_tracks.len() {
                                assert(tracks@[i] == old_tracks[i]);
                                assert(old_tracks[i].wf());
                            }
                        }
                    }
                    pos = p;
                    ti = ti + 1;
                },
                None => {
                    proof {
                        let m = (track_count - ti) as nat;
                        assert(spec_parse_tracks(data@, pos as int, m) is None);
                        assert(spec_parse_tracks(data@, 8, track_count as nat) is None);
                        assert(le_u64(data@.subrange(0, 8)) == track_count);
                    }
                    return None;
                },
            }
        }
        proof {
            assert(spec_parse_tracks(data@, pos as int, 0) == Some((Seq::<
                crate::track::TrackData,
            >::empty(), pos as int)));
            assert(tracks_data(tracks@) + Seq::<crate::track::TrackData>::empty() =~= tracks_data(
                tracks@,
            ));
        }
        Some(RocketPlayer { tracks })
    }
}

impl RocketEngine for RocketPlayer {
    closed spec fn spec_tracks(&self) -> Seq<Track> {
        self.tracks@
    }

    fn get_track_index(&self, name: &str) -> (r: Option<usize>) {
        let mut i: usize = 0;
        while i < self.tracks.len()
            invariant
                i <= self.spec_tracks().len(),
                forall|j: int| 0 <= j < i ==> self.spec_tracks()[j].spec_name() != name@,
            decreases self.spec_tracks().len() - i,
        {
            if self.tracks[i].name_is(name) {
                return Some(i);
            }
            i = i + 1;
        }
        None
    }

    fn get_track(&self, index: usize) -> (t: &Track) {
        &self.tracks[index]
    }
}

} // verus!

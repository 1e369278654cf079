//! The live client's protocol core: the error taxonomy, the events the
//! tracker can raise, and the incremental connection state machine that
//! turns a raw byte stream into track mutations and events.
//!
//! The core never touches a socket. The surrounding I/O layer reads bytes
//! and feeds them in exactly as received: one tag byte while the core waits
//! for a message, then payload chunks of any size up to what is missing.
use vstd::prelude::*;

use crate::codec::Command;
use crate::codec::decode_command;
use crate::codec::spec_decode_command;
use crate::codec::spec_payload_len;
use crate::codec::lemma_serialize_tracks_snoc;
use crate::codec::push_u64_le;
use crate::codec::spec_serialize;
use crate::codec::spec_serialize_tracks;
use crate::codec::u64_le_bytes;
use crate::track::Key;
use crate::track::RocketEngine;
use crate::track::Track;
use crate::track::TrackData;
use crate::track::spec_delete_key;
use crate::track::spec_set_key;

verus! {

/// The `Error` type: the distinct failures a connection can report. All
/// carry no further payload here but the wrong greeting's bytes; the I/O
/// layer pairs them with the underlying socket error where one exists.
#[derive(Clone, Copy, PartialEq, Eq, Debug)]
pub enum Error {
    /// Failure to establish a TCP connection with the tracker.
    Connect,
    /// Failure to transmit or receive greetings with the tracker.
    Handshake,
    /// The handshake completed but the received greeting was not the
    /// expected one; holds the twelve bytes that arrived.
    HandshakeGreetingMismatch([u8; 12]),
    /// The socket could not be switched to non-blocking mode.
    SetNonblocking,
    /// Network failure during steady-state operation (disconnection).
    IOError,
}

/// The `Event` type: the user-relevant messages of the tracker.
#[derive(Clone, Copy, PartialEq, Eq, Structural, Debug)]
pub enum Event {
    /// The tracker changes row.
    SetRow(u32),
    /// The tracker pauses or unpauses.
    Pause(bool),
    /// The tracker asks us to save our track data.
    SaveTracks,
}

/// The connection state: waiting for the next tag byte, waiting for that
/// many more payload bytes, or holding one complete message.
#[derive(Clone, Copy, PartialEq, Eq, Structural, Debug)]
pub enum ClientState {
    New,
    Incomplete(usize),
    Complete,
}

/// The state after `got` payload bytes arrive: still incomplete with the
/// missing count reduced, or complete once nothing is missing.
pub open spec fn spec_after_payload(s: ClientState, got: int) -> ClientState {
    match s {
        ClientState::Incomplete(rem) => if got < rem {
            ClientState::Incomplete((rem - got) as usize)
        } else {
            ClientState::Complete
        },
        _ => s,
    }
}

/// The content of a track sequence, track by track.
pub open spec fn tracks_data(tracks: Seq<Track>) -> Seq<TrackData> {
    Seq::new(tracks.len(), |i: int| tracks[i].data())
}

/// What a decoded message does to the track store: a set-key or delete-key
/// whose track index is in range performs that mutation on that track; any
/// other message, and a mutation aimed past the stored tracks, leaves the
/// store unchanged.
pub open spec fn spec_apply(tracks: Seq<TrackData>, c: Command) -> Seq<TrackData> {
    match c {
        Command::SetKey { track, row, value, interpolation } => if track < tracks.len() {
            tracks.update(
                track as int,
                TrackData {
                    name: tracks[track as int].name,
                    keys: spec_set_key(
                        tracks[track as int].keys,
                        Key { row, value, interpolation },
                    ),
                },
            )
        } else {
            tracks
        },
        Command::DeleteKey { track, row } => if track < tracks.len() {
            tracks.update(
                track as int,
                TrackData {
                    name: tracks[track as int].name,
                    keys: spec_delete_key(tracks[track as int].keys, row),
                },
            )
        } else {
            tracks
        },
        _ => tracks,
    }
}

/// The event a decoded message surfaces to the caller: exactly one for a
/// row change, a pause toggle or a save request, and none for a mutation or
/// an ignored message.
pub open spec fn spec_event_of(c: Command) -> Option<Event> {
    match c {
        Command::SetRow { row } => Some(Event::SetRow(row)),
        Command::Pause { flag } => Some(Event::Pause(flag)),
        Command::SaveTracks => Some(Event::SaveTracks),
        _ => None,
    }
}

/// The connection's protocol core: the three-state incremental reader, the
/// accumulated command buffer, and the owned track store.
pub struct ClientCore {
    state: ClientState,
    cmd: Vec<u8>,
    tracks: Vec<Track>,
}

impl ClientCore {
    /// The current state, as a mathematical value.
    pub closed spec fn spec_state(&self) -> ClientState {
        self.state
    }

    /// The accumulated command buffer, as a mathematical value.
    pub closed spec fn spec_cmd(&self) -> Seq<u8> {
        self.cmd@
    }

    /// Well-formedness: every track is sorted, and the buffer agrees with
    /// the state — empty while a tag is awaited; the tag plus part of its
    /// payload, with a positive missing count, while incomplete; exactly
    /// one whole message when complete.
    pub open spec fn wf(&self) -> bool {
        &&& forall|i: int|
            0 <= i < self.spec_tracks().len() ==> (#[trigger] self.spec_tracks()[i]).wf()
        &&& match self.spec_state() {
            ClientState::New => self.spec_cmd().len() == 0,
            ClientState::Incomplete(rem) => {
                &&& self.spec_cmd().len() >= 1
                &&& rem >= 1
                &&& self.spec_cmd().len() + rem == 1 + spec_payload_len(self.spec_cmd()[0])
            },
            ClientState::Complete => self.spec_cmd().len() == 1 + spec_payload_len(
                self.spec_cmd()[0],
            ),
        }
    }

    /// A fresh core: waiting for a tag byte, nothing buffered, no tracks.
    pub fn new() -> (c: ClientCore)
        ensures
            c.wf(),
            c.spec_state() == ClientState::New,
            c.spec_tracks() == Seq::<Track>::empty(),
    {
        ClientCore { state: ClientState::New, cmd: Vec::new(), tracks: Vec::new() }
    }

    /// The current state, for the I/O layer's read scheduling.
    pub fn state(&self) -> (s: ClientState)
        ensures
            s == self.spec_state(),
    {
        self.state
    }

    /// Take in the tag byte of the next message: buffer it and wait for as
    /// many payload bytes as its kind calls for — or hold a complete
    /// message at once when the tag carries none, an unknown tag included.
    pub fn on_tag(&mut self, tag: u8)
        requires
            old(self).wf(),
            old(self).spec_state() == ClientState::New,
        ensures
            final(self).wf(),
            final(self).spec_tracks() == old(self).spec_tracks(),
            final(self).spec_cmd() == seq![tag],
            final(self).spec_state() == (if spec_payload_len(tag) == 0 {
                ClientState::Complete
            } else {
                ClientState::Incomplete(spec_payload_len(tag) as usize)
            }),
    {
        self.cmd.push(tag);
        if tag == 0 {
            self.state = ClientState::Incomplete(13);
        } else if tag == 1 {
            self.state = ClientState::Incomplete(8);
        } else if tag == 3 {
            self.state = ClientState::Incomplete(4);
        } else if tag == 4 {
            self.state = ClientState::Incomplete(1);
        } else {
            self.state = ClientState::Complete;
        }
        proof {
            assert(self.cmd@ =~= seq![tag]);
            lemma_tracks_wf_unchanged(old(self).spec_tracks(), self.spec_tracks());
        }
    }

    /// Take in a chunk of payload bytes — as few as none, as many as are
    /// missing. A short chunk is a normal partial read: it only defers
    /// completion; the buffer grows by exactly the bytes received.
    pub fn on_payload(&mut self, chunk: &[u8])
        requires
            old(self).wf(),
            old(self).spec_state() matches ClientState::Incomplete(rem) && chunk@.len() <= rem,
        ensures
            final(self).wf(),
            final(self).spec_tracks() == old(self).spec_tracks(),
            final(self).spec_cmd() == old(self).spec_cmd() + chunk@,
            final(self).spec_state() == spec_after_payload(
                old(self).spec_state(),
                chunk@.len() as int,
            ),
    {
        let rem: usize = match self.state {
            ClientState::Incomplete(r) => r,
            _ => {
                proof {
                    assert(false);
                }
                0
            },
        };
        self.cmd.extend_from_slice(chunk);
        if chunk.len() < rem {
            self.state = ClientState::Incomplete(rem - chunk.len());
        } else {
            self.state = ClientState::Complete;
        }
        proof {
            lemma_tracks_wf_unchanged(old(self).spec_tracks(), self.spec_tracks());
        }
    }

    /// Process the one complete message in the buffer: apply a set-key or
    /// delete-key directly to the track store (and surface nothing), or
    /// surface the decoded event; then clear the buffer and wait for the
    /// next tag. A mutation aimed at a track index that is not in the
    /// store, like an unknown tag, is consumed as a no-op.
    pub fn process(&mut self) -> (r: Option<Event>)
        requires
            old(self).wf(),
            old(self).spec_state() == ClientState::Complete,
        ensures
            final(self).wf(),
            final(self).spec_state() == ClientState::New,
            final(self).spec_cmd() == Seq::<u8>::empty(),
            tracks_data(final(self).spec_tracks()) == spec_apply(
                tracks_data(old(self).spec_tracks()),
                spec_decode_command(old(self).spec_cmd()),
            ),
            r == spec_event_of(spec_decode_command(old(self).spec_cmd())),
    {
        let c = decode_command(&self.cmd);
        let mut result: Option<Event> = None;
        match c {
            Command::SetKey { track, row, value, interpolation } => {
                let ti = track as usize;
                if ti < self.tracks.len() {
                    proof {
                        assert(old(self).spec_tracks()[ti as int].wf());
                    }
                    let mut t = self.tracks.remove(ti);
                    t.set_key(Key::new(row, value, interpolation));
                    let ghost gt = t;
                    self.tracks.insert(ti, t);
                    proof {
                        assert(self.tracks@ =~= old(self).spec_tracks().update(ti as int, gt));
                        lemma_tracks_wf_update(old(self).spec_tracks(), self.tracks@, ti as int, gt);
                        lemma_tracks_data_update(
                            old(self).spec_tracks(),
                            self.tracks@,
                            ti as int,
                            gt,
                        );
                        assert(gt.data() == (TrackData {
                            name: tracks_data(old(self).spec_tracks())[ti as int].name,
                            keys: spec_set_key(
                                tracks_data(old(self).spec_tracks())[ti as int].keys,
                                Key { row, value, interpolation },
                            ),
                        }));
                    }
                }
            },
            Command::DeleteKey { track, row } => {
                let ti = track as usize;
                if ti < self.tracks.len() {
                    proof {
                        assert(old(self).spec_tracks()[ti as int].wf());
                    }
                    let mut t = self.tracks.remove(ti);
                    t.delete_key(row);
                    let ghost gt = t;
                    self.tracks.insert(ti, t);
                    proof {
                        assert(self.tracks@ =~= old(self).spec_tracks().update(ti as int, gt));
                        lemma_tracks_wf_update(old(self).spec_tracks(), self.tracks@, ti as int, gt);
                        lemma_tracks_data_update(
                            old(self).spec_tracks(),
                            self.tracks@,
                            ti as int,
                            gt,
                        );
                        assert(gt.data() == (TrackData {
                            name: tracks_data(old(self).spec_tracks())[ti as int].name,
                            keys: spec_delete_key(
                                tracks_data(old(self).spec_tracks())[ti as int].keys,
                                row,
                            ),
                        }));
                    }
                }
            },
            Command::SetRow { row } => {
                result = Some(Event::SetRow(row));
            },
            Command::Pause { flag } => {
                result = Some(Event::Pause(flag));
            },
            Command::SaveTracks => {
                result = Some(Event::SaveTracks);
            },
            Command::Ignored => {},
        }
        self.cmd.clear();
        self.state = ClientState::New;
        proof {
            assert(tracks_data(self.tracks@) =~= spec_apply(
                tracks_data(old(self).tracks@),
                spec_decode_command(old(self).spec_cmd()),
            ));
        }
        result
    }

    /// Append a new, empty track under a name and hand back its index. The
    /// I/O layer announces the name to the tracker before calling this.
    pub fn create_track(&mut self, name: &str) -> (i: usize)
        requires
            old(self).wf(),
        ensures
            final(self).wf(),
            final(self).spec_state() == old(self).spec_state(),
            final(self).spec_cmd() == old(self).spec_cmd(),
            i == old(self).spec_tracks().len(),
            tracks_data(final(self).spec_tracks()) == tracks_data(old(self).spec_tracks()).push(
                TrackData { name: name@, keys: Seq::<Key>::empty() },
            ),
    {
        self.tracks.push(Track::new(name));
        proof {
            assert(tracks_data(self.tracks@) =~= tracks_data(old(self).tracks@).push(
                TrackData { name: name@, keys: Seq::<Key>::empty() },
            ));
            assert forall|i: int| 0 <= i < self.tracks@.len() implies (
            #[trigger] self.tracks@[i]).wf() by {
                if i < old(self).spec_tracks().len() {
                    assert(self.tracks@[i] == old(self).spec_tracks()[i]);
                    assert(old(self).spec_tracks()[i].wf());
                }
            }
        }
        self.tracks.len() - 1
    }

    /// The number of tracks in the store.
    pub fn track_count(&self) -> (r: usize)
        ensures
            r == self.spec_tracks().len(),
    {
        self.tracks.len()
    }

    /// Serialize the whole track store as a persistence blob: the track
    /// count, then each track's persisted form, in store order.
    pub fn serialize(&self) -> (r: Vec<u8>)
        ensures
            r@ == spec_serialize(tracks_data(self.spec_tracks())),
    {
        let mut wtr: Vec<u8> = Vec::new();
        let n = self.tracks.len();
        push_u64_le(&mut wtr, n as u64);
        let mut i: usize = 0;
        while i < n
            invariant
                n == self.spec_tracks().len(),
                i <= n,
                wtr@ == u64_le_bytes(n as u64) + spec_serialize_tracks(
                    tracks_data(self.spec_tracks()).take(i as int),
                ),
            decreases n - i,
        {
            self.tracks[i].serialize(&mut wtr);
            proof {
                lemma_serialize_tracks_snoc(tracks_data(self.spec_tracks()), i as int);
            }
            i = i + 1;
        }
        proof {
            assert(tracks_data(self.spec_tracks()).take(n as int) =~= tracks_data(
                self.spec_tracks(),
            ));
        }
        wtr
    }
}

impl RocketEngine for ClientCore {
    closed spec fn spec_tracks(&self) -> Seq<Track> {
        self.tracks@
    }

    fn get_track_index(&self, name: &str) -> (r: Option<usize>) {
        let mut i: usize = 0;
        while i < self.tracks.len()
            invariant
                i <= self.spec_tracks().len(),
                forall|j: int| 0 <= j < i ==> self.spec_tracks()[j].spec_name() != name@,
            decreases self.spec_tracks().len() - i,
        {
            if self.tracks[i].name_is(name) {
                return Some(i);
            }
            i = i + 1;
        }
        None
    }

    fn get_track(&self, index: usize) -> (t: &Track) {
        &self.tracks[index]
    }
}

proof fn lemma_tracks_wf_unchanged(a: Seq<Track>, b: Seq<Track>)
    requires
        forall|i: int| 0 <= i < a.len() ==> (#[trigger] a[i]).wf(),
        a == b,
    ensures
        forall|i: int| 0 <= i < b.len() ==> (#[trigger] b[i]).wf(),
{
    assert forall|i: int| 0 <= i < b.len() implies (#[trigger] b[i]).wf() by {
        assert(b[i] == a[i]);
        assert(a[i].wf());
    }
}

proof fn lemma_tracks_wf_update(a: Seq<Track>, b: Seq<Track>, ti: int, t: Track)
    requires
        forall|i: int| 0 <= i < a.len() ==> (#[trigger] a[i]).wf(),
        0 <= ti < a.len(),
        b == a.update(ti, t),
        t.wf(),
    ensures
        forall|i: int| 0 <= i < b.len() ==> (#[trigger] b[i]).wf(),
{
    assert forall|i: int| 0 <= i < b.len() implies (#[trigger] b[i]).wf() by {
        if i != ti {
            assert(b[i] == a[i]);
            assert(a[i].wf());
        }
    }
}

proof fn lemma_tracks_data_update(a: Seq<Track>, b: Seq<Track>, ti: int, t: Track)
    requires
        0 <= ti < a.len(),
        b == a.update(ti, t),
    ensures
        tracks_data(b) == tracks_data(a).update(ti, t.data()),
{
    assert(tracks_data(b) =~= tracks_data(a).update(ti, t.data()));
}

/// All the bytes of a sequence of chunks, in arrival order.
pub open spec fn chunks_flat(chunks: Seq<Seq<u8>>) -> Seq<u8>
    decreases chunks.len(),
{
    if chunks.len() == 0 {
        Seq::empty()
    } else {
        chunks[0] + chunks_flat(chunks.drop_first())
    }
}

/// The state and buffer the connection reaches after taking in a sequence
/// of payload chunks, one `on_payload` call each.
pub open spec fn spec_feed_chunks(s: ClientState, cmd: Seq<u8>, chunks: Seq<Seq<u8>>) -> (
    ClientState,
    Seq<u8>,
)
    decreases chunks.len(),
{
    if chunks.len() == 0 {
        (s, cmd)
    } else {
        spec_feed_chunks(
            spec_after_payload(s, chunks[0].len() as int),
            cmd + chunks[0],
            chunks.drop_first(),
        )
    }
}

proof fn lemma_feed_complete(cmd: Seq<u8>, chunks: Seq<Seq<u8>>)
    requires
        chunks_flat(chunks).len() == 0,
    ensures
        spec_feed_chunks(ClientState::Complete, cmd, chunks) == (
            ClientState::Complete,
            cmd + chunks_flat(chunks),
        ),
    decreases chunks.len(),
{
    if chunks.len() == 0 {
        assert(cmd + chunks_flat(chunks) =~= cmd);
    } else {
        assert(chunks[0] =~= Seq::<u8>::empty());
        lemma_feed_complete(cmd + chunks[0], chunks.drop_first());
        assert((cmd + chunks[0]) + chunks_flat(chunks.drop_first()) =~= cmd + chunks_flat(chunks));
    }
}

/// Chunk-boundary independence: however a message's payload is split into
/// successive chunks — simulating arbitrary partial reads from the socket —
/// the connection ends with the same buffered bytes, the concatenation, and
/// in the same state as if the whole payload had arrived at once; `process`
/// then applies the same mutation or yields the same event.
pub proof fn lemma_chunked_feed(rem: usize, cmd: Seq<u8>, chunks: Seq<Seq<u8>>)
    requires
        rem >= 1,
        chunks_flat(chunks).len() <= rem,
    ensures
        spec_feed_chunks(ClientState::Incomplete(rem), cmd, chunks) == (
            spec_after_payload(ClientState::Incomplete(rem), chunks_flat(chunks).len() as int),
            cmd + chunks_flat(chunks),
        ),
    decreases chunks.len(),
{
    if chunks.len() == 0 {
        assert(cmd + chunks_flat(chunks) =~= cmd);
    } else {
        let a = chunks[0];
        let rest = chunks.drop_first();
        assert(chunks_flat(chunks) == a + chunks_flat(rest));
        if a.len() < rem {
            lemma_chunked_feed((rem - a.len()) as usize, cmd + a, rest);
            assert((cmd + a) + chunks_flat(rest) =~= cmd + chunks_flat(chunks));
        } else {
            assert(a.len() == rem);
            assert(chunks_flat(rest).len() == 0);
            lemma_feed_complete(cmd + a, rest);
            assert((cmd + a) + chunks_flat(rest) =~= cmd + chunks_flat(chunks));
        }
    }
}

/// A tag outside the known set is consumed whole as a no-op: it asks for no
/// payload, decodes to `Ignored`, mutates no track and yields no event.
pub proof fn lemma_unknown_tag_is_noop(tag: u8, tracks: Seq<TrackData>)
    requires
        tag != 0,
        tag != 1,
        tag != 3,
        tag != 4,
        tag != 5,
    ensures
        spec_payload_len(tag) == 0,
        spec_decode_command(seq![tag]) == Command::Ignored,
        spec_apply(tracks, Command::Ignored) == tracks,
        spec_event_of(Command::Ignored) == None::<Event>,
{
    assert(seq![tag][0] == tag);
}

} // verus!

//! Client library for the GNU Rocket sync tracker protocol: keyframe tracks
//! with interpolated lookup, the binary wire and persistence codecs, and the
//! incremental connection state machine.
use vstd::prelude::*;

mod client;
mod codec;
mod player;
mod fp;
mod interpolation;
mod track;

pub use client::ClientCore;
pub use client::ClientState;
pub use client::Error;
pub use client::Event;
pub use codec::Command;
pub use codec::encode_get_track;
pub use codec::encode_set_row;
pub use interpolation::Interpolation;
pub use player::RocketPlayer;
pub use track::Key;
pub use track::RocketEngine;
pub use track::Track;

//! Playlist, programme-guide and browsing logic of a terminal IPTV player.
use vstd::prelude::*;

pub mod text;
pub mod m3u;
pub mod xmltv_time;
pub mod epg;
pub mod body;
pub mod cache;
pub mod ui;
pub mod chromecast;

verus! {
}

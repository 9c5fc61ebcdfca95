//! The saved form of tracks and animations. Keyframes are not saved: after
//! loading they are taken from the resource again.

use vstd::prelude::*;
use std::sync::Arc;
use crate::handle::Handle;
use crate::resource::Model;
use crate::signal::AnimationSignal;

verus! {

/// What is saved of a track: everything but its frames.
#[derive(Clone, Copy, PartialEq, Eq, Structural, Debug)]
pub struct TrackRecord {
    pub enabled: bool,
    pub max_time: i64,
    pub node: Handle,
}

/// What is saved of an animation: its tracks without their frames, its
/// playback state, its resource and its signals. The pose and the events are
/// not saved.
pub struct AnimationRecord {
    pub tracks: Vec<TrackRecord>,
    pub speed: i64,
    pub length: i64,
    pub time_position: i64,
    pub resource: Option<Arc<Model>>,
    pub looped: bool,
    pub enabled: bool,
    pub signals: Vec<AnimationSignal>,
}

} // verus!

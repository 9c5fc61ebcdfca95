//! A keyframe animation engine over fixed-point arithmetic.
//!
//! Tracks of keyframes are sampled into poses, poses are blended, and
//! animations advance along a timeline that loops or clamps, raising events
//! when playback crosses a signal. Every scalar (a time, a coordinate, a
//! weight, a speed) is a fixed-point number with sixteen fractional bits,
//! held in an `i64`. Rotations are carried as plain quaternions; the two
//! rotation interpolations are supplied by the caller.

pub mod container;
pub mod graph;
pub mod handle;
pub mod playback;
pub mod pool;
pub mod pose;
pub mod record;
pub mod resource;
pub mod scalar;
pub mod signal;
pub mod state;
pub mod track;
pub mod vector;

pub use container::{AnimationContainer, LoadError};
pub use graph::{Graph, Node};
pub use handle::Handle;
pub use playback::Animation;
pub use pool::Pool;
pub use pose::{AnimationPose, LocalPose};
pub use record::{AnimationRecord, TrackRecord};
pub use resource::Model;
pub use scalar::ONE;
pub use signal::{AnimationEvent, AnimationSignal, EVENT_CAPACITY};
pub use state::{AnimationHandleWrapper, State, StateAction, StateActionWrapper};
pub use track::{KeyFrame, Track};
pub use vector::{Quat, Vec2, Vec3};

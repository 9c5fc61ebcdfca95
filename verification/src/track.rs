//! Keyframes and tracks: the sequence of keyframes bound to one node, and
//! its transform at any time.

use vstd::prelude::*;
use crate::handle::Handle;
use crate::pose::{takes_any_fraction, LocalPose};
use crate::record::TrackRecord;
use crate::scalar::{clamp, clamped, fraction, interpolator, ONE};
use crate::vector::{Quat, Vec3};

verus! {

/// One sample of a node's transform, at one time.
#[derive(Clone, Copy, PartialEq, Eq, Structural, Debug)]
pub struct KeyFrame {
    pub position: Vec3,
    pub scale: Vec3,
    pub rotation: Quat,
    pub time: i64,
}

impl KeyFrame {
    /// The frame at `time` with the given transform.
    pub fn new(time: i64, position: Vec3, scale: Vec3, rotation: Quat) -> (r: KeyFrame)
        ensures
            r == (KeyFrame { position, scale, rotation, time }),
    {
        KeyFrame { time, position, scale, rotation }
    }

    /// The pose that holds this frame's transform unchanged.
    pub open spec fn held(self, node: Handle) -> LocalPose {
        LocalPose {
            node,
            position: self.position,
            scale: self.scale,
            rotation: self.rotation,
        }
    }
}

impl Default for KeyFrame {
    /// The frame at time zero that moves nothing and scales to nothing.
    fn default() -> (r: KeyFrame)
        ensures
            r == (KeyFrame {
                position: Vec3::spec_zero(),
                scale: Vec3::spec_zero(),
                rotation: Quat::spec_identity(),
                time: 0,
            }),
    {
        KeyFrame {
            position: Vec3::zero(),
            scale: Vec3::zero(),
            rotation: Quat::identity(),
            time: 0,
        }
    }
}

/// The greatest time among `frames`, and zero at least.
pub open spec fn peak(frames: Seq<KeyFrame>) -> int
    decreases frames.len(),
{
    if frames.len() == 0 {
        0
    } else {
        let rest = peak(frames.drop_last());
        if frames.last().time > rest {
            frames.last().time as int
        } else {
            rest
        }
    }
}

/// The times of `frames` never decrease.
pub open spec fn ordered(frames: Seq<KeyFrame>) -> bool {
    forall|i: int, j: int| 0 <= i <= j < frames.len() ==> frames[i].time <= frames[j].time
}

/// The first index from `start` on whose frame lies after `time` (`strict`),
/// or at or after `time` (not `strict`); the length where there is none.
pub open spec fn first_from(frames: Seq<KeyFrame>, time: int, strict: bool, start: int) -> int
    decreases frames.len() - start,
{
    if start < 0 || start >= frames.len() {
        frames.len() as int
    } else if frames[start].time > time || (!strict && frames[start].time == time) {
        start
    } else {
        first_from(frames, time, strict, start + 1)
    }
}

/// What a track is: its frames, whether it takes part in a pose, the end of
/// its time span and the node it is bound to.
pub struct TrackView {
    pub frames: Seq<KeyFrame>,
    pub enabled: bool,
    pub max_time: i64,
    pub node: Handle,
}

impl TrackView {
    /// The end of the time span is the greatest frame time, and zero at least.
    pub open spec fn wf(self) -> bool {
        self.max_time == peak(self.frames)
    }

    /// The frames with `key_frame` added: appended where it lies after the
    /// end of the span, else put before the first frame that lies after it,
    /// and last where no frame does.
    pub open spec fn with_key_frame(self, key_frame: KeyFrame) -> TrackView {
        if key_frame.time > self.max_time {
            TrackView { frames: self.frames.push(key_frame), max_time: key_frame.time, ..self }
        } else {
            TrackView {
                frames: self.frames.insert(
                    first_from(self.frames, key_frame.time as int, true, 0),
                    key_frame,
                ),
                ..self
            }
        }
    }

    /// What is saved of the track.
    pub open spec fn record(self) -> TrackRecord {
        TrackRecord { enabled: self.enabled, max_time: self.max_time, node: self.node }
    }

    /// `r` is the transform of the track at `time`: nothing for a track
    /// without frames; the last frame from the end of the span on; the first
    /// frame where no frame lies before the time; else the two frames around
    /// the time, mixed by how far the time lies between them, the rotation
    /// by `slerp`.
    pub open spec fn samples_to<F: Fn(Quat, Quat, i64) -> Quat>(
        self,
        time: i64,
        slerp: &F,
        r: Option<LocalPose>,
    ) -> bool {
        if self.frames.len() == 0 {
            r is None
        } else if time >= self.max_time {
            r == Some(self.frames.last().held(self.node))
        } else {
            let at = clamped(time as int, 0, self.max_time as int);
            let right = first_from(self.frames, at, false, 0);
            if right == 0 || right == self.frames.len() {
                r == Some(self.frames[0].held(self.node))
            } else {
                let a = self.frames[right - 1];
                let b = self.frames[right];
                let t = fraction(a.time as int, b.time as int, at) as i64;
                &&& r is Some
                &&& r->0.node == self.node
                &&& r->0.position == a.position.spec_lerp(b.position, t)
                &&& r->0.scale == a.scale.spec_lerp(b.scale, t)
                &&& slerp.ensures((a.rotation, b.rotation, t), r->0.rotation)
            }
        }
    }
}

/// The keyframes of one node, in the order of their times.
#[derive(Debug)]
pub struct Track {
    frames: Vec<KeyFrame>,
    enabled: bool,
    max_time: i64,
    node: Handle,
}

impl View for Track {
    type V = TrackView;

    closed spec fn view(&self) -> TrackView {
        TrackView {
            frames: self.frames@,
            enabled: self.enabled,
            max_time: self.max_time,
            node: self.node,
        }
    }
}

impl Default for Track {
    /// An enabled track without frames, bound to no node.
    fn default() -> (r: Track)
        ensures
            r@ == Track::empty(),
    {
        Track { frames: Vec::new(), enabled: true, max_time: 0, node: Handle::none() }
    }
}

impl Clone for Track {
    fn clone(&self) -> (r: Track)
        ensures
            r@ == self@,
    {
        let mut frames: Vec<KeyFrame> = Vec::new();
        let mut i: usize = 0;
        while i < self.frames.len()
            invariant
                i <= self.frames.len(),
                frames@ == self.frames@.take(i as int),
            decreases self.frames.len() - i,
        {
            frames.push(self.frames[i]);
            i += 1;
            assert(frames@ =~= self.frames@.take(i as int));
        }
        assert(self.frames@.take(i as int) =~= self.frames@);
        Track { frames, enabled: self.enabled, max_time: self.max_time, node: self.node }
    }
}

impl Track {
    /// The view of a new track.
    pub open spec fn empty() -> TrackView {
        TrackView { frames: Seq::empty(), enabled: true, max_time: 0, node: Handle::spec_none() }
    }

    /// An enabled track without frames, bound to no node.
    pub fn new() -> (r: Track)
        ensures
            r@ == Track::empty(),
            r@.wf(),
    {
        Track { frames: Vec::new(), enabled: true, max_time: 0, node: Handle::none() }
    }

    /// Binds the track to `node`.
    pub fn set_node(&mut self, node: Handle)
        ensures
            final(self)@ == (TrackView { node, ..old(self)@ }),
            old(self)@.wf() ==> final(self)@.wf(),
    {
        self.node = node;
    }

    /// The node the track is bound to.
    pub fn get_node(&self) -> (r: Handle)
        ensures
            r == self@.node,
    {
        self.node
    }

    /// The end of the track's time span.
    pub fn max_time(&self) -> (r: i64)
        ensures
            r == self@.max_time,
    {
        self.max_time
    }

    /// Adds a frame, keeping frames that were in the order of their times in
    /// that order. A frame at the time of others goes behind them.
    pub fn add_key_frame(&mut self, key_frame: KeyFrame)
        ensures
            final(self)@ == old(self)@.with_key_frame(key_frame),
            old(self)@.wf() ==> final(self)@.wf(),
            old(self)@.wf() && ordered(old(self)@.frames) ==> ordered(final(self)@.frames),
    {
        proof {
            lemma_with_key_frame(self@, key_frame);
        }
        if key_frame.time > self.max_time {
            self.frames.push(key_frame);
            self.max_time = key_frame.time;
        } else {
            let mut index: usize = 0;
            while index < self.frames.len() && !(key_frame.time < self.frames[index].time)
                invariant
                    index <= self.frames.len(),
                    first_from(self.frames@, key_frame.time as int, true, 0) == first_from(
                        self.frames@,
                        key_frame.time as int,
                        true,
                        index as int,
                    ),
                decreases self.frames.len() - index,
            {
                index += 1;
            }
            self.frames.insert(index, key_frame);
        }
    }

    /// Lets the track take part in poses, or keeps it out of them.
    pub fn enable(&mut self, enabled: bool)
        ensures
            final(self)@ == (TrackView { enabled, ..old(self)@ }),
            old(self)@.wf() ==> final(self)@.wf(),
    {
        self.enabled = enabled;
    }

    /// Whether the track takes part in poses.
    pub fn is_enabled(&self) -> (r: bool)
        ensures
            r == self@.enabled,
    {
        self.enabled
    }

    /// Replaces all frames, and sets the end of the span to their peak.
    pub fn set_key_frames(&mut self, key_frames: &[KeyFrame])
        ensures
            final(self)@ == (TrackView {
                frames: key_frames@,
                max_time: peak(key_frames@) as i64,
                ..old(self)@
            }),
            final(self)@.wf(),
    {
        let mut frames: Vec<KeyFrame> = Vec::new();
        let mut max_time: i64 = 0;
        let mut i: usize = 0;
        while i < key_frames.len()
            invariant
                i <= key_frames.len(),
                frames@ == key_frames@.take(i as int),
                max_time == peak(key_frames@.take(i as int)),
            decreases key_frames.len() - i,
        {
            let key_frame = key_frames[i];
            frames.push(key_frame);
            if key_frame.time > max_time {
                max_time = key_frame.time;
            }
            i += 1;
            proof {
                let now = key_frames@.take(i as int);
                assert(now.drop_last() =~= key_frames@.take(i - 1));
                assert(frames@ =~= now);
            }
        }
        assert(key_frames@.take(i as int) =~= key_frames@);
        self.frames = frames;
        self.max_time = max_time;
    }

    /// The frames, in the order the track holds them.
    pub fn get_key_frames(&self) -> (r: &[KeyFrame])
        ensures
            r@ == self@.frames,
    {
        self.frames.as_slice()
    }

    /// What is to be saved of the track.
    pub fn save(&self) -> (r: TrackRecord)
        ensures
            r == self@.record(),
    {
        TrackRecord { enabled: self.enabled, max_time: self.max_time, node: self.node }
    }

    /// The track that `record` was saved of, without frames. It keeps the
    /// end of the span that it had when it was saved.
    pub fn restore(record: &TrackRecord) -> (r: Track)
        ensures
            r@ == (TrackView {
                frames: Seq::empty(),
                enabled: record.enabled,
                max_time: record.max_time,
                node: record.node,
            }),
            r@.record() == *record,
    {
        Track {
            frames: Vec::new(),
            enabled: record.enabled,
            max_time: record.max_time,
            node: record.node,
        }
    }

    /// The transform of the track at `time`, or nothing for a track without
    /// frames. Outside the span the nearest end is held; inside it the two
    /// frames around the time are mixed, the rotation by `slerp`.
    pub fn get_local_pose<F: Fn(Quat, Quat, i64) -> Quat>(&self, time: i64, slerp: &F) -> (r:
        Option<LocalPose>)
        requires
            takes_any_fraction(slerp),
        ensures
            self@.samples_to(time, slerp, r),
    {
        let n = self.frames.len();
        if n == 0 {
            return None;
        }
        if time >= self.max_time {
            let k = &self.frames[n - 1];
            return Some(
                LocalPose {
                    node: self.node,
                    position: k.position,
                    scale: k.scale,
                    rotation: k.rotation,
                },
            );
        }
        let at = clamp(time, 0, self.max_time);
        let mut right: usize = 0;
        while right < n && !(self.frames[right].time >= at)
            invariant
                n == self.frames.len(),
                right <= n,
                first_from(self.frames@, at as int, false, 0) == first_from(
                    self.frames@,
                    at as int,
                    false,
                    right as int,
                ),
            decreases n - right,
        {
            right += 1;
        }
        if right == 0 || right == n {
            let k = &self.frames[0];
            return Some(
                LocalPose {
                    node: self.node,
                    position: k.position,
                    scale: k.scale,
                    rotation: k.rotation,
                },
            );
        }
        let a = &self.frames[right - 1];
        let b = &self.frames[right];
        proof {
            lemma_first_from(self.frames@, at as int, false, 0);
        }
        let t = interpolator(a.time, b.time, at);
        Some(
            LocalPose {
                node: self.node,
                position: a.position.lerp(b.position, t),
                scale: a.scale.lerp(b.scale, t),
                rotation: slerp(a.rotation, b.rotation, t),
            },
        )
    }
}

/// Adding a frame keeps the end of the span at the peak, and keeps ordered
/// frames ordered.
pub proof fn lemma_with_key_frame(track: TrackView, key_frame: KeyFrame)
    ensures
        track.wf() ==> track.with_key_frame(key_frame).wf(),
        track.wf() && ordered(track.frames) ==> ordered(track.with_key_frame(key_frame).frames),
{
    let frames = track.frames;
    let after = track.with_key_frame(key_frame);
    if track.wf() {
        lemma_peak_bounds(frames);
        if key_frame.time > track.max_time {
            assert(after.frames.drop_last() =~= frames);
            if ordered(frames) {
                assert(ordered(after.frames));
            }
        } else {
            let at = first_from(frames, key_frame.time as int, true, 0);
            lemma_first_from(frames, key_frame.time as int, true, 0);
            lemma_peak_insert(frames, at, key_frame);
            if ordered(frames) {
                assert forall|i: int, j: int| 0 <= i <= j < after.frames.len() implies after.frames[i].time
                    <= after.frames[j].time by {
                    if j < at {
                        assert(after.frames[i] == frames[i] && after.frames[j] == frames[j]);
                    } else if j == at {
                        if i < at {
                            assert(after.frames[i] == frames[i]);
                        }
                    } else {
                        assert(after.frames[j] == frames[j - 1]);
                        if i < at {
                            assert(after.frames[i] == frames[i]);
                        } else if i > at {
                            assert(after.frames[i] == frames[i - 1]);
                        } else {
                            assert(frames[at].time > key_frame.time);
                            assert(frames[at].time <= frames[j - 1].time);
                        }
                    }
                }
            }
        }
    }
}

/// The peak of frames with one more frame is the greater of the old peak and
/// the new frame's time, wherever the frame is put.
proof fn lemma_peak_insert(frames: Seq<KeyFrame>, at: int, key_frame: KeyFrame)
    requires
        0 <= at <= frames.len(),
    ensures
        peak(frames.insert(at, key_frame)) == if key_frame.time > peak(frames) {
            key_frame.time as int
        } else {
            peak(frames)
        },
    decreases frames.len(),
{
    let after = frames.insert(at, key_frame);
    if at == frames.len() {
        assert(after.drop_last() =~= frames);
    } else {
        assert(after.drop_last() =~= frames.drop_last().insert(at, key_frame));
        assert(after.last() == frames.last());
        lemma_peak_insert(frames.drop_last(), at, key_frame);
    }
}

/// `first_from` finds the first frame that reaches the time: no frame before
/// the index does, and the frame at the index, where there is one, does.
pub proof fn lemma_first_from(frames: Seq<KeyFrame>, time: int, strict: bool, start: int)
    requires
        0 <= start <= frames.len(),
    ensures
        start <= first_from(frames, time, strict, start) <= frames.len(),
        forall|j: int|
            start <= j < first_from(frames, time, strict, start) ==> if strict {
                (#[trigger] frames[j]).time <= time
            } else {
                frames[j].time < time
            },
        first_from(frames, time, strict, start) < frames.len() ==> if strict {
            frames[first_from(frames, time, strict, start)].time > time
        } else {
            frames[first_from(frames, time, strict, start)].time >= time
        },
    decreases frames.len() - start,
{
    if start < frames.len() && !(frames[start].time > time || (!strict && frames[start].time
        == time)) {
        lemma_first_from(frames, time, strict, start + 1);
    }
}

/// No frame lies after the peak, and the peak is never negative.
pub proof fn lemma_peak_bounds(frames: Seq<KeyFrame>)
    ensures
        peak(frames) >= 0,
        forall|i: int| 0 <= i < frames.len() ==> (#[trigger] frames[i]).time <= peak(frames),
        peak(frames) > 0 ==> exists|i: int| 0 <= i < frames.len() && frames[i].time == peak(frames),
    decreases frames.len(),
{
    if frames.len() > 0 {
        let rest = frames.drop_last();
        lemma_peak_bounds(rest);
        assert forall|i: int| 0 <= i < frames.len() implies (#[trigger] frames[i]).time <= peak(
            frames,
        ) by {
            if i < frames.len() - 1 {
                assert(rest[i] == frames[i]);
            }
        }
        if peak(frames) > 0 {
            if frames.last().time > peak(rest) {
                assert(frames[frames.len() - 1].time == peak(frames));
            } else {
                let i = choose|i: int| 0 <= i < rest.len() && rest[i].time == peak(rest);
                assert(frames[i] == rest[i]);
            }
        }
    }
}

} // verus!

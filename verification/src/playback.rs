//! Animations: tracks on a timeline, with playback state, signals and events.

use vstd::prelude::*;
use std::collections::VecDeque;
use std::sync::Arc;
use crate::graph::{
    lemma_reaches_child, lemma_reaches_itself, lemma_reaches_within, lemma_unmarked_set, reaches,
    unmarked, Graph, Node,
};
use crate::handle::Handle;
use crate::pose::{filed, takes_any_fraction, AnimationPose, LocalPose};
use crate::record::{AnimationRecord, TrackRecord};
use crate::resource::{share, Model};
use crate::scalar::{clamp, clamped, floor_div, lemma_product_bound, scaled, wrap, wrapped, ONE};
use crate::signal::{
    crossings, enqueued, lemma_enqueued_bound, lemma_enqueued_push, AnimationEvent,
    AnimationSignal, EVENT_CAPACITY,
};
use crate::track::{peak, Track, TrackView};
use crate::vector::Quat;

verus! {

/// What an animation is.
pub struct AnimationView {
    pub tracks: Seq<Track>,
    pub length: i64,
    pub time_position: i64,
    pub speed: i64,
    pub looped: bool,
    pub enabled: bool,
    pub resource: Option<Arc<Model>>,
    pub pose: Map<Handle, LocalPose>,
    pub signals: Seq<AnimationSignal>,
    pub events: Seq<AnimationEvent>,
}

/// The greatest time span among `tracks`, and `floor` at least.
pub open spec fn span(tracks: Seq<Track>, floor: int) -> int
    decreases tracks.len(),
{
    if tracks.len() == 0 {
        floor
    } else {
        let rest = span(tracks.drop_last(), floor);
        if tracks.last()@.max_time > rest {
            tracks.last()@.max_time as int
        } else {
            rest
        }
    }
}

/// A span is its floor or the span of one of the tracks, and none of these
/// is greater; a higher floor under a span that reaches it changes nothing.
pub proof fn lemma_span(tracks: Seq<Track>, floor: int)
    ensures
        span(tracks, floor) >= floor,
        forall|i: int| 0 <= i < tracks.len() ==> (#[trigger] tracks[i])@.max_time <= span(tracks, floor),
        span(tracks, floor) == floor || exists|i: int|
            0 <= i < tracks.len() && (#[trigger] tracks[i])@.max_time == span(tracks, floor),
        forall|base: int|
            base <= floor <= span(tracks, base) ==> span(tracks, floor) == span(tracks, base),
    decreases tracks.len(),
{
    if tracks.len() > 0 {
        let rest = tracks.drop_last();
        lemma_span(rest, floor);
        assert forall|i: int| 0 <= i < tracks.len() implies (#[trigger] tracks[i])@.max_time <= span(
            tracks,
            floor,
        ) by {
            if i < rest.len() {
                assert(rest[i] == tracks[i]);
            }
        }
        if span(tracks, floor) != floor {
            if tracks.last()@.max_time > span(rest, floor) {
                assert(tracks[tracks.len() - 1]@.max_time == span(tracks, floor));
            } else {
                let i = choose|i: int|
                    0 <= i < rest.len() && (#[trigger] rest[i])@.max_time == span(rest, floor);
                assert(tracks[i] == rest[i]);
            }
        }
        assert forall|base: int| base <= floor <= span(tracks, base) implies span(tracks, floor)
            == span(tracks, base) by {
            lemma_span(rest, base);
        }
    }
}

/// The track at `index` gives the pose of `node`: it is enabled, has frames
/// and is bound to the node.
pub open spec fn poses(tracks: Seq<Track>, index: int, node: Handle) -> bool {
    &&& 0 <= index < tracks.len()
    &&& tracks[index]@.enabled
    &&& tracks[index]@.frames.len() > 0
    &&& tracks[index]@.node == node
}

/// `pose` holds, for each node that an enabled track with frames is bound
/// to, the transform of the last such track at `time`, and nothing else.
pub open spec fn sampled<F: Fn(Quat, Quat, i64) -> Quat>(
    tracks: Seq<Track>,
    time: i64,
    slerp: &F,
    pose: Map<Handle, LocalPose>,
) -> bool {
    &&& forall|h: Handle| #[trigger]
        pose.contains_key(h) <==> exists|i: int| poses(tracks, i, h)
    &&& forall|i: int, h: Handle|
        #![trigger poses(tracks, i, h)]
        poses(tracks, i, h) && (forall|j: int| i < j < tracks.len() ==> !poses(tracks, j, h))
            ==> tracks[i]@.samples_to(time, slerp, Some(pose[h]))
}

/// Without tracks there is no pose to hold.
proof fn lemma_sampled_none<F: Fn(Quat, Quat, i64) -> Quat>(
    tracks: Seq<Track>,
    time: i64,
    slerp: &F,
)
    requires
        tracks.len() == 0,
    ensures
        sampled(tracks, time, slerp, Map::empty()),
{
}

/// Taking one more track into a pose: where the track is enabled and `sample`,
/// its transform, is there, the transform replaces what the node had; else
/// the pose stays.
proof fn lemma_sampled_step<F: Fn(Quat, Quat, i64) -> Quat>(
    tracks: Seq<Track>,
    i: int,
    time: i64,
    slerp: &F,
    pose: Map<Handle, LocalPose>,
    sample: Option<LocalPose>,
)
    requires
        0 <= i < tracks.len(),
        sampled(tracks.take(i), time, slerp, pose),
        tracks[i]@.enabled ==> tracks[i]@.samples_to(time, slerp, sample),
    ensures
        sampled(
            tracks.take(i + 1),
            time,
            slerp,
            if tracks[i]@.enabled && sample is Some {
                pose.insert(sample->0.node, sample->0)
            } else {
                pose
            },
        ),
{
    let done = tracks.take(i);
    let next = tracks.take(i + 1);
    let node = tracks[i]@.node;
    let after = if tracks[i]@.enabled && sample is Some {
        pose.insert(sample->0.node, sample->0)
    } else {
        pose
    };
    assert(next[i] == tracks[i]);
    assert forall|j: int, h: Handle| j != i implies poses(next, j, h) == poses(done, j, h) by {
        if 0 <= j < i {
            assert(next[j] == done[j]);
        }
    }
    if tracks[i]@.enabled && sample is Some {
        assert(sample->0.node == node);
        assert(poses(next, i, node));
    } else {
        assert forall|h: Handle| !poses(next, i, h) by {}
    }
    assert forall|h: Handle| #[trigger] after.contains_key(h) <==> exists|j: int|
        poses(next, j, h) by {
        if after.contains_key(h) {
            if pose.contains_key(h) {
                let j = choose|j: int| poses(done, j, h);
                assert(poses(next, j, h));
            } else {
                assert(poses(next, i, h));
            }
        }
        if exists|j: int| poses(next, j, h) {
            let j = choose|j: int| poses(next, j, h);
            if j != i {
                assert(poses(done, j, h));
            }
        }
    }
    assert forall|j: int, h: Handle|
        #![trigger poses(next, j, h)]
        poses(next, j, h) && (forall|k: int| j < k < next.len() ==> !poses(next, k, h))
            implies next[j]@.samples_to(time, slerp, Some(after[h])) by {
        if j < i {
            assert(!poses(next, i, h));
            assert(poses(done, j, h));
            assert forall|k: int| j < k < done.len() implies !poses(done, k, h) by {
                assert(!poses(next, k, h));
            }
            assert(next[j] == done[j]);
            assert(after[h] == pose[h]);
        }
    }
}

/// `graph` has `node`, `other_graph` has `other`, and the two nodes have the
/// same name.
pub open spec fn same_name(
    graph: Map<Handle, Node>,
    node: Handle,
    other_graph: Map<Handle, Node>,
    other: Handle,
) -> bool {
    &&& graph.contains_key(node)
    &&& other_graph.contains_key(other)
    &&& graph[node].name@ == other_graph[other].name@
}

/// The first index from `start` on of a track among `references` whose node,
/// looked up in `reference_graph`, has the name that `node` has in `graph`;
/// the number of the tracks where there is none.
pub open spec fn first_match(
    graph: Map<Handle, Node>,
    node: Handle,
    reference_graph: Map<Handle, Node>,
    references: Seq<Track>,
    start: int,
) -> int
    decreases references.len() - start,
{
    if start < 0 || start >= references.len() {
        references.len() as int
    } else if same_name(graph, node, reference_graph, references[start]@.node) {
        start
    } else {
        first_match(graph, node, reference_graph, references, start + 1)
    }
}

/// `track` with the frames of the first reference track that matches it by
/// name, or `track` as it is where none matches.
pub open spec fn retargeted(
    track: TrackView,
    graph: Map<Handle, Node>,
    reference_graph: Map<Handle, Node>,
    references: Seq<Track>,
) -> TrackView {
    let found = first_match(graph, track.node, reference_graph, references, 0);
    if found < references.len() {
        TrackView {
            frames: references[found]@.frames,
            max_time: peak(references[found]@.frames) as i64,
            ..track
        }
    } else {
        track
    }
}

/// A node that `graph` does not have matches no reference track.
proof fn lemma_no_match(
    graph: Map<Handle, Node>,
    node: Handle,
    reference_graph: Map<Handle, Node>,
    references: Seq<Track>,
    start: int,
)
    requires
        !graph.contains_key(node),
        0 <= start <= references.len(),
    ensures
        first_match(graph, node, reference_graph, references, start) == references.len(),
    decreases references.len() - start,
{
    if start < references.len() {
        lemma_no_match(graph, node, reference_graph, references, start + 1);
    }
}

/// Retargeting goes by name, not by handle: two tracks whose nodes have the
/// same name, each in its own graph, match the same reference track, and so
/// take the same frames.
pub proof fn lemma_retargeting_by_name(
    one: TrackView,
    graph: Map<Handle, Node>,
    other: TrackView,
    other_graph: Map<Handle, Node>,
    reference_graph: Map<Handle, Node>,
    references: Seq<Track>,
    start: int,
)
    requires
        graph.contains_key(one.node),
        other_graph.contains_key(other.node),
        graph[one.node].name@ == other_graph[other.node].name@,
        0 <= start <= references.len(),
    ensures
        first_match(graph, one.node, reference_graph, references, start) == first_match(
            other_graph,
            other.node,
            reference_graph,
            references,
            start,
        ),
        start == 0 && first_match(graph, one.node, reference_graph, references, 0)
            < references.len() ==> retargeted(one, graph, reference_graph, references).frames
            == retargeted(other, other_graph, reference_graph, references).frames,
    decreases references.len() - start,
{
    if start < references.len() && !same_name(
        graph,
        one.node,
        reference_graph,
        references[start]@.node,
    ) {
        lemma_retargeting_by_name(
            one,
            graph,
            other,
            other_graph,
            reference_graph,
            references,
            start + 1,
        );
    }
}

/// `first_match` finds the first reference track of the same name: none
/// before the index matches, and the one at the index, if there is one, does.
pub proof fn lemma_first_match(
    graph: Map<Handle, Node>,
    node: Handle,
    reference_graph: Map<Handle, Node>,
    references: Seq<Track>,
    start: int,
)
    requires
        0 <= start <= references.len(),
    ensures
        start <= first_match(graph, node, reference_graph, references, start) <= references.len(),
        forall|j: int|
            start <= j < first_match(graph, node, reference_graph, references, start) ==> !same_name(
                graph,
                node,
                reference_graph,
                (#[trigger] references[j])@.node,
            ),
        first_match(graph, node, reference_graph, references, start) < references.len()
            ==> same_name(
            graph,
            node,
            reference_graph,
            references[first_match(graph, node, reference_graph, references, start)]@.node,
        ),
    decreases references.len() - start,
{
    if start < references.len() && !same_name(
        graph,
        node,
        reference_graph,
        references[start]@.node,
    ) {
        lemma_first_match(graph, node, reference_graph, references, start + 1);
    }
}

/// No track before the one at `index` is bound to the node that it is bound
/// to.
pub open spec fn first_bound(tracks: Seq<Track>, index: int) -> bool {
    forall|j: int| 0 <= j < index ==> (#[trigger] tracks[j])@.node != tracks[index]@.node
}

/// `after` is `before` with the first track of each node in `nodes` enabled
/// or disabled, and every other track as it was.
pub open spec fn toggled(
    before: Seq<Track>,
    nodes: Set<Handle>,
    enabled: bool,
    after: Seq<Track>,
) -> bool {
    &&& after.len() == before.len()
    &&& forall|i: int|
        0 <= i < before.len() ==> (#[trigger] after[i])@ == if nodes.contains(before[i]@.node)
            && first_bound(before, i) {
            TrackView { enabled, ..before[i]@ }
        } else {
            before[i]@
        }
}

/// A looping animation with a timeline keeps playback inside the timeline,
/// short of its end: it moves playback by whole lengths of the timeline, and
/// not at all where playback lies inside already.
pub proof fn lemma_looping_wraps(animation: AnimationView, time: int)
    requires
        animation.looped,
        animation.length > 0,
    ensures
        0 <= animation.committed(time) < animation.length,
        (time - animation.committed(time)) % (animation.length as int) == 0,
        0 <= time < animation.length ==> animation.committed(time) == time,
{
    let length = animation.length as int;
    assert(0 <= time % length < length && (time - time % length) % length == 0 && (0 <= time
        < length ==> time % length == time)) by (nonlinear_arith)
        requires
            length > 0,
    ;
}

/// An animation that does not loop holds playback within its timeline: at
/// the start for a time before it, at the end, where it has ended, for a
/// time at or after it, and at the time itself between the two.
pub proof fn lemma_clamping_holds(animation: AnimationView, time: int)
    requires
        !animation.looped,
        animation.length >= 0,
    ensures
        0 <= animation.committed(time) <= animation.length,
        time <= 0 ==> animation.committed(time) == 0,
        time >= animation.length ==> animation.committed(time) == animation.length && (
        AnimationView { time_position: animation.committed(time), ..animation }).ended(),
        0 <= time <= animation.length ==> animation.committed(time) == time,
{
}

impl AnimationView {
    /// Playback lies within the timeline, and the queue of events within its
    /// capacity.
    pub open spec fn wf(self) -> bool {
        &&& 0 <= self.time_position <= self.length
        &&& self.events.len() <= EVENT_CAPACITY
    }

    /// Where playback comes to rest when it is sent to `time`: wrapped into
    /// the timeline by a looping animation, held within it by any other.
    pub open spec fn committed(self, time: int) -> i64 {
        if self.looped {
            wrapped(time, self.length as int) as i64
        } else {
            clamped(time, 0, self.length as int) as i64
        }
    }

    /// Where a tick of `dt` sends playback, before it comes to rest.
    pub open spec fn advanced(self, dt: i64) -> int {
        self.time_position + scaled(dt as int, self.speed as int)
    }

    /// The tracks that this animation is retargeted from, and the graph that
    /// they are bound to: those of the first animation of its resource.
    pub open spec fn reference(self) -> Option<(Seq<Track>, Map<Handle, Node>)> {
        match self.resource {
            Some(model) => match model.animations.first() {
                Some(animation) => Some((animation@.tracks, model.graph@)),
                None => None,
            },
            None => None,
        }
    }

    /// `after` is this animation one tick of `dt` later: its pose is that of
    /// the tracks at the time the tick started from, its queue has taken the
    /// events of the signals that playback passed, and playback has come to
    /// rest where the tick sent it. Nothing else has changed.
    pub open spec fn ticks_to<F: Fn(Quat, Quat, i64) -> Quat>(
        self,
        dt: i64,
        slerp: &F,
        after: AnimationView,
    ) -> bool {
        &&& sampled(self.tracks, self.time_position, slerp, after.pose)
        &&& filed(after.pose)
        &&& after == (AnimationView {
            pose: after.pose,
            events: enqueued(
                self.events,
                crossings(self.signals, self.time_position as int, self.advanced(dt)),
            ),
            time_position: self.committed(self.advanced(dt)),
            ..self
        })
    }

    /// `after` is this animation retargeted in `graph`: each track has the
    /// frames of the reference track of the same name, or its own where
    /// there is none, and `unresolved` lists the indices of the tracks that
    /// found none, in rising order. Without a reference nothing has changed
    /// and nothing is listed.
    pub open spec fn resolves_to(
        self,
        graph: Map<Handle, Node>,
        after: AnimationView,
        unresolved: Seq<usize>,
    ) -> bool {
        &&& after == (AnimationView { tracks: after.tracks, ..self })
        &&& after.tracks.len() == self.tracks.len()
        &&& self.reference() is None ==> after.tracks == self.tracks && unresolved.len() == 0
        &&& self.reference() matches Some(reference) ==> {
            &&& forall|i: int|
                0 <= i < self.tracks.len() ==> (#[trigger] after.tracks[i])@ == retargeted(
                    self.tracks[i]@,
                    graph,
                    reference.1,
                    reference.0,
                )
            &&& forall|i: usize|
                unresolved.contains(i) <==> i < self.tracks.len() && first_match(
                    graph,
                    self.tracks[i as int]@.node,
                    reference.1,
                    reference.0,
                    0,
                ) == reference.0.len()
            &&& forall|a: int, b: int|
                0 <= a < b < unresolved.len() ==> unresolved[a] < unresolved[b]
        }
    }

    /// `record` holds what is saved of this animation.
    pub open spec fn saved_as(self, record: AnimationRecord) -> bool {
        &&& record.tracks@.len() == self.tracks.len()
        &&& forall|i: int|
            0 <= i < self.tracks.len() ==> (#[trigger] record.tracks@[i]) == self.tracks[i]@.record()
        &&& record.speed == self.speed
        &&& record.length == self.length
        &&& record.time_position == self.time_position
        &&& record.resource == self.resource
        &&& record.looped == self.looped
        &&& record.enabled == self.enabled
        &&& record.signals@ == self.signals
    }

    /// Playback has come to the end of a timeline that does not loop.
    pub open spec fn ended(self) -> bool {
        !self.looped && self.time_position == self.length
    }
}

/// Tracks on a timeline, played back at some speed, once or in a loop.
pub struct Animation {
    tracks: Vec<Track>,
    length: i64,
    time_position: i64,
    speed: i64,
    looped: bool,
    enabled: bool,
    resource: Option<Arc<Model>>,
    pose: AnimationPose,
    signals: Vec<AnimationSignal>,
    events: VecDeque<AnimationEvent>,
}

impl View for Animation {
    type V = AnimationView;

    closed spec fn view(&self) -> AnimationView {
        AnimationView {
            tracks: self.tracks@,
            length: self.length,
            time_position: self.time_position,
            speed: self.speed,
            looped: self.looped,
            enabled: self.enabled,
            resource: self.resource,
            pose: self.pose@,
            signals: self.signals@,
            events: self.events@,
        }
    }
}

impl Default for Animation {
    /// An enabled, looping animation of unit speed, without tracks.
    fn default() -> (r: Animation)
        ensures
            r@ == Animation::initial(),
            r@.wf(),
    {
        Animation {
            tracks: Vec::new(),
            speed: ONE,
            length: 0,
            time_position: 0,
            enabled: true,
            looped: true,
            resource: None,
            pose: AnimationPose::new(),
            signals: Vec::new(),
            events: VecDeque::new(),
        }
    }
}

impl Clone for Animation {
    /// A copy with the same tracks, signals, resource and playback state,
    /// and with no pose and no events yet.
    fn clone(&self) -> (r: Animation)
        ensures
            r@.tracks.len() == self@.tracks.len(),
            forall|i: int|
                0 <= i < self@.tracks.len() ==> (#[trigger] r@.tracks[i])@ == self@.tracks[i]@,
            r@ == (AnimationView {
                tracks: r@.tracks,
                pose: Map::empty(),
                events: Seq::empty(),
                ..self@
            }),
            self@.wf() ==> r@.wf(),
    {
        let mut tracks: Vec<Track> = Vec::new();
        let mut i: usize = 0;
        while i < self.tracks.len()
            invariant
                i <= self.tracks.len(),
                tracks.len() == i,
                forall|k: int| 0 <= k < i ==> (#[trigger] tracks[k])@ == self.tracks[k]@,
            decreases self.tracks.len() - i,
        {
            tracks.push(self.tracks[i].clone());
            i += 1;
        }
        let mut signals: Vec<AnimationSignal> = Vec::new();
        let mut j: usize = 0;
        while j < self.signals.len()
            invariant
                j <= self.signals.len(),
                signals@ == self.signals@.take(j as int),
            decreases self.signals.len() - j,
        {
            signals.push(self.signals[j]);
            j += 1;
            assert(signals@ =~= self.signals@.take(j as int));
        }
        assert(self.signals@.take(j as int) =~= self.signals@);
        Animation {
            tracks,
            speed: self.speed,
            length: self.length,
            time_position: self.time_position,
            looped: self.looped,
            enabled: self.enabled,
            resource: self.get_resource(),
            pose: AnimationPose::new(),
            signals,
            events: VecDeque::new(),
        }
    }
}

impl Animation {
    /// The view of a new animation.
    pub open spec fn initial() -> AnimationView {
        AnimationView {
            tracks: Seq::empty(),
            length: 0,
            time_position: 0,
            speed: ONE,
            looped: true,
            enabled: true,
            resource: None,
            pose: Map::empty(),
            signals: Seq::empty(),
            events: Seq::empty(),
        }
    }

    /// Sends playback to `time`: a looping animation wraps it into the
    /// timeline, any other holds it within.
    pub fn set_time_position(&mut self, time: i64) -> (r: &mut Self)
        ensures
            r@ == (AnimationView {
                time_position: old(self)@.committed(time as int),
                ..old(self)@
            }),
            old(self)@.wf() ==> r@.wf(),
            *final(self) == *final(r),
    {
        if self.looped {
            self.time_position = wrap(time as i128, self.length);
        } else {
            self.time_position = clamp(time, 0, self.length);
        }
        self
    }

    /// Sends playback to the start of the timeline.
    pub fn rewind(&mut self) -> (r: &mut Self)
        ensures
            r@ == (AnimationView { time_position: old(self)@.committed(0), ..old(self)@ }),
            old(self)@.wf() ==> r@.wf(),
            *final(self) == *final(r),
    {
        self.set_time_position(0)
    }

    /// Where playback stands on the timeline.
    pub fn get_time_position(&self) -> (r: i64)
        ensures
            r == self@.time_position,
    {
        self.time_position
    }

    /// The speed of playback.
    pub fn get_speed(&self) -> (r: i64)
        ensures
            r == self@.speed,
    {
        self.speed
    }

    /// The end of the timeline.
    pub fn get_length(&self) -> (r: i64)
        ensures
            r == self@.length,
    {
        self.length
    }

    /// Makes playback loop, or end at the end of the timeline.
    pub fn set_loop(&mut self, state: bool) -> (r: &mut Self)
        ensures
            r@ == (AnimationView { looped: state, ..old(self)@ }),
            old(self)@.wf() ==> r@.wf(),
            *final(self) == *final(r),
    {
        self.looped = state;
        self
    }

    /// Whether playback loops.
    pub fn is_loop(&self) -> (r: bool)
        ensures
            r == self@.looped,
    {
        self.looped
    }

    /// Whether playback has come to the end of a timeline that does not loop.
    pub fn has_ended(&self) -> (r: bool)
        ensures
            r == self@.ended(),
    {
        !self.looped && self.time_position == self.length
    }

    /// Lets the animation take part in updates, or keeps it out of them.
    pub fn set_enabled(&mut self, enabled: bool) -> (r: &mut Self)
        ensures
            r@ == (AnimationView { enabled, ..old(self)@ }),
            old(self)@.wf() ==> r@.wf(),
            *final(self) == *final(r),
    {
        self.enabled = enabled;
        self
    }

    /// Whether the animation takes part in updates.
    pub fn is_enabled(&self) -> (r: bool)
        ensures
            r == self@.enabled,
    {
        self.enabled
    }

    /// Sets the speed of playback; a negative speed plays backwards.
    pub fn set_speed(&mut self, speed: i64) -> (r: &mut Self)
        ensures
            r@ == (AnimationView { speed, ..old(self)@ }),
            old(self)@.wf() ==> r@.wf(),
            *final(self) == *final(r),
    {
        self.speed = speed;
        self
    }

    /// Adds a track, and lengthens the timeline to the longest span among
    /// the tracks where it was shorter.
    pub fn add_track(&mut self, track: Track)
        ensures
            final(self)@ == (AnimationView {
                tracks: old(self)@.tracks.push(track),
                length: span(old(self)@.tracks.push(track), old(self)@.length as int) as i64,
                ..old(self)@
            }),
            old(self)@.length == span(old(self)@.tracks, 0) ==> final(self)@.length == span(
                final(self)@.tracks,
                0,
            ),
            old(self)@.wf() ==> final(self)@.wf(),
    {
        self.tracks.push(track);
        let ghost start = self.length;
        let mut i: usize = 0;
        while i < self.tracks.len()
            invariant
                i <= self.tracks.len(),
                self.tracks@ == old(self)@.tracks.push(track),
                self.length == span(self.tracks@.take(i as int), start as int),
                self@ == (AnimationView {
                    tracks: self.tracks@,
                    length: self.length,
                    ..old(self)@
                }),
                start == old(self)@.length,
            decreases self.tracks.len() - i,
        {
            let max_time = self.tracks[i].max_time();
            if max_time > self.length {
                self.length = max_time;
            }
            i += 1;
            proof {
                assert(self.tracks@.take(i as int).drop_last() =~= self.tracks@.take(i - 1));
            }
        }
        proof {
            assert(self.tracks@.take(i as int) =~= self.tracks@);
            assert(self.tracks@.drop_last() =~= old(self)@.tracks);
            lemma_span(self.tracks@, start as int);
            lemma_span(self.tracks@, 0);
            lemma_span(old(self)@.tracks, 0);
            lemma_span(old(self)@.tracks, start as int);
        }
    }

    /// The tracks, in the order they were added.
    pub fn get_tracks(&self) -> (r: &[Track])
        ensures
            r@ == self@.tracks,
    {
        self.tracks.as_slice()
    }

    /// The tracks, for change. The timeline keeps its length whatever
    /// becomes of them.
    pub fn get_tracks_mut(&mut self) -> (r: &mut [Track])
        ensures
            r@ == old(self)@.tracks,
            final(self)@ == (AnimationView { tracks: final(r)@, ..old(self)@ }),
            old(self)@.wf() ==> final(self)@.wf(),
    {
        self.tracks.as_mut_slice()
    }

    /// The resource that the keyframes are taken from, if one is set.
    pub fn get_resource(&self) -> (r: Option<Arc<Model>>)
        ensures
            r == self@.resource,
    {
        match &self.resource {
            Some(resource) => Some(share(resource)),
            None => None,
        }
    }

    /// Names the resource that the keyframes are to be taken from.
    pub fn set_resource(&mut self, resource: Option<Arc<Model>>)
        ensures
            final(self)@ == (AnimationView { resource, ..old(self)@ }),
            old(self)@.wf() ==> final(self)@.wf(),
    {
        self.resource = resource;
    }

    /// Adds a signal behind those that are there.
    pub fn add_signal(&mut self, signal: AnimationSignal) -> (r: &mut Self)
        ensures
            r@ == (AnimationView { signals: old(self)@.signals.push(signal), ..old(self)@ }),
            old(self)@.wf() ==> r@.wf(),
            *final(self) == *final(r),
    {
        self.signals.push(signal);
        self
    }

    /// Takes the oldest event out of the queue, if there is one.
    pub fn pop_event(&mut self) -> (r: Option<AnimationEvent>)
        ensures
            old(self)@.events.len() == 0 ==> r is None && final(self)@ == old(self)@,
            old(self)@.events.len() > 0 ==> r == Some(old(self)@.events[0]) && final(self)@ == (
            AnimationView { events: old(self)@.events.drop_first(), ..old(self)@ }),
            old(self)@.wf() ==> final(self)@.wf(),
    {
        let r = self.events.pop_front();
        proof {
            if old(self)@.events.len() > 0 {
                assert(self.events@ =~= old(self)@.events.drop_first());
            }
        }
        r
    }

    /// Takes the pose of the enabled tracks at the current time.
    pub fn update_pose<F: Fn(Quat, Quat, i64) -> Quat>(&mut self, slerp: &F)
        requires
            takes_any_fraction(slerp),
        ensures
            sampled(old(self)@.tracks, old(self)@.time_position, slerp, final(self)@.pose),
            filed(final(self)@.pose),
            final(self)@ == (AnimationView { pose: final(self)@.pose, ..old(self)@ }),
            old(self)@.wf() ==> final(self)@.wf(),
    {
        self.pose.reset();
        proof {
            lemma_sampled_none(self.tracks@.take(0), self.time_position, slerp);
        }
        let mut i: usize = 0;
        while i < self.tracks.len()
            invariant
                takes_any_fraction(slerp),
                i <= self.tracks.len(),
                sampled(self.tracks@.take(i as int), self.time_position, slerp, self.pose@),
                filed(self.pose@),
                self@ == (AnimationView { pose: self.pose@, ..old(self)@ }),
            decreases self.tracks.len() - i,
        {
            let ghost before = self.pose@;
            if self.tracks[i].is_enabled() {
                let sample = self.tracks[i].get_local_pose(self.time_position, slerp);
                proof {
                    lemma_sampled_step(
                        self.tracks@,
                        i as int,
                        self.time_position,
                        slerp,
                        before,
                        sample,
                    );
                }
                if let Some(local_pose) = sample {
                    self.pose.add_local_pose(local_pose);
                }
            } else {
                proof {
                    lemma_sampled_step(
                        self.tracks@,
                        i as int,
                        self.time_position,
                        slerp,
                        before,
                        None,
                    );
                }
            }
            i += 1;
        }
        assert(self.tracks@.take(i as int) =~= self.tracks@);
    }

    /// Advances the animation by `dt`: takes the pose at the current time,
    /// raises an event for each signal that playback passes on its way
    /// forward, as far as the queue has room, and moves playback on.
    pub fn tick<F: Fn(Quat, Quat, i64) -> Quat>(&mut self, dt: i64, slerp: &F)
        requires
            takes_any_fraction(slerp),
        ensures
            old(self)@.ticks_to(dt, slerp, final(self)@),
            old(self)@.wf() ==> final(self)@.wf(),
    {
        self.update_pose(slerp);
        let ghost mid = self@;
        let current: i128 = self.time_position as i128;
        proof {
            lemma_product_bound(
                dt as int,
                self.speed as int,
                0x8000_0000_0000_0000,
                0x8000_0000_0000_0000,
            );
            crate::scalar::lemma_floor_div_range((dt as int) * (self.speed as int), ONE as int);
        }
        let step: i128 = floor_div((dt as i128) * (self.speed as i128), ONE as i128);
        let target: i128 = current + step;
        let ghost queue = self.events@;
        let mut i: usize = 0;
        while i < self.signals.len()
            invariant
                i <= self.signals.len(),
                current == self.time_position,
                self.events@ == enqueued(
                    queue,
                    crossings(self.signals@.take(i as int), current as int, target as int),
                ),
                self@ == (AnimationView { events: self.events@, ..mid }),
            decreases self.signals.len() - i,
        {
            let time = self.signals[i].time() as i128;
            let ghost raised = crossings(self.signals@.take(i as int), current as int, target as int);
            proof {
                assert(self.signals@.take(i + 1).drop_last() =~= self.signals@.take(i as int));
                lemma_enqueued_push(
                    queue,
                    raised,
                    AnimationEvent { signal_id: self.signals[i as int]@.id },
                );
            }
            if current < time && target >= time {
                if self.events.len() < EVENT_CAPACITY {
                    self.events.push_back(AnimationEvent { signal_id: self.signals[i].id() });
                }
            }
            i += 1;
        }
        proof {
            assert(self.signals@.take(i as int) =~= self.signals@);
            lemma_enqueued_push(queue, Seq::empty(), AnimationEvent { signal_id: 0 });
            let raised = crossings(self.signals@, current as int, target as int);
            lemma_enqueued_bound(queue, raised);
        }
        if self.looped {
            self.time_position = wrap(target, self.length);
        } else if target < 0 {
            self.time_position = 0;
        } else if target > self.length as i128 {
            self.time_position = self.length;
        } else {
            self.time_position = target as i64;
        }
    }

    /// Takes the keyframes of every track from the first track of the same
    /// name in the first animation of the resource, and returns the indices of the
    /// tracks that found none there; those keep their frames. Names decide,
    /// not handles: a track's node is looked up in `graph`, a reference
    /// track's node in the resource's own graph. Without a resource, or with
    /// one that holds no animation, nothing changes.
    pub fn resolve(&mut self, graph: &Graph) -> (unresolved: Vec<usize>)
        ensures
            old(self)@.resolves_to(graph@, final(self)@, unresolved@),
            old(self)@.wf() ==> final(self)@.wf(),
    {
        let mut unresolved: Vec<usize> = Vec::new();
        let resource = match &self.resource {
            Some(resource) => share(resource),
            None => {
                return unresolved;
            },
        };
        let ref_animation = match resource.animations.at(0) {
            Some(animation) => animation,
            None => {
                return unresolved;
            },
        };
        let references = ref_animation.get_tracks();
        let ghost reference_graph = resource.graph@;
        let mut i: usize = 0;
        while i < self.tracks.len()
            invariant
                i <= self.tracks.len(),
                self.tracks.len() == old(self).tracks.len(),
                self@ == (AnimationView { tracks: self.tracks@, ..old(self)@ }),
                old(self)@.reference() == Some((references@, reference_graph)),
                reference_graph == resource.graph@,
                forall|k: int|
                    0 <= k < self.tracks.len() ==> (#[trigger] self.tracks[k])@ == if k < i {
                        retargeted(old(self).tracks[k]@, graph@, reference_graph, references@)
                    } else {
                        old(self).tracks[k]@
                    },
                forall|k: usize|
                    unresolved@.contains(k) <==> k < i && first_match(
                        graph@,
                        old(self).tracks[k as int]@.node,
                        reference_graph,
                        references@,
                        0,
                    ) == references@.len(),
                forall|a: int, b: int|
                    0 <= a < b < unresolved@.len() ==> unresolved@[a] < unresolved@[b],
            decreases self.tracks.len() - i,
        {
            let node = self.tracks[i].get_node();
            let mut found: usize = references.len();
            match graph.try_borrow(node) {
                Some(track_node) => {
                    let mut j: usize = 0;
                    while j < references.len() && found == references.len()
                        invariant
                            j <= references.len(),
                            found <= references.len(),
                            graph@.contains_key(node),
                            *track_node == graph@[node],
                            reference_graph == resource.graph@,
                            found == references.len() ==> first_match(
                                graph@,
                                node,
                                reference_graph,
                                references@,
                                0,
                            ) == first_match(
                                graph@,
                                node,
                                reference_graph,
                                references@,
                                j as int,
                            ),
                            found < references.len() ==> found == first_match(
                                graph@,
                                node,
                                reference_graph,
                                references@,
                                0,
                            ),
                        decreases references.len() - j + (if found == references.len() {
                            1int
                        } else {
                            0int
                        }),
                    {
                        let matches = match resource.graph.try_borrow(references[j].get_node()) {
                            Some(ref_node) => track_node.name == ref_node.name,
                            None => false,
                        };
                        if matches {
                            found = j;
                        } else {
                            j += 1;
                        }
                    }
                },
                None => {
                    proof {
                        lemma_no_match(graph@, node, reference_graph, references@, 0);
                    }
                },
            }
            let ghost listed = unresolved@;
            assert(found == first_match(graph@, node, reference_graph, references@, 0));
            assert(node == old(self).tracks[i as int]@.node);
            if found < references.len() {
                self.tracks[i].set_key_frames(references[found].get_key_frames());
            } else {
                unresolved.push(i);
            }
            proof {
                assert forall|k: usize|
                    unresolved@.contains(k) <==> k < i + 1 && first_match(
                        graph@,
                        old(self).tracks[k as int]@.node,
                        reference_graph,
                        references@,
                        0,
                    ) == references@.len() by {
                    if unresolved@.contains(k) {
                        let at = choose|at: int| 0 <= at < unresolved@.len() && unresolved@[at] == k;
                        if at < listed.len() {
                            assert(listed[at] == k);
                            assert(listed.contains(k));
                        }
                    }
                    if k < i && first_match(
                        graph@,
                        old(self).tracks[k as int]@.node,
                        reference_graph,
                        references@,
                        0,
                    ) == references@.len() {
                        assert(listed.contains(k));
                        let at = choose|at: int| 0 <= at < listed.len() && listed[at] == k;
                        assert(unresolved@[at] == k);
                    }
                    if k == i && found == references.len() {
                        assert(unresolved@[listed.len() as int] == i);
                    }
                }
                assert forall|a: int, b: int| 0 <= a < b < unresolved@.len() implies unresolved@[a]
                    < unresolved@[b] by {
                    if b == listed.len() {
                        assert(listed.contains(listed[a]));
                    } else {
                        assert(unresolved@[a] == listed[a] && unresolved@[b] == listed[b]);
                    }
                }
            }
            i += 1;
        }
        unresolved
    }

    /// What is to be saved of the animation.
    pub fn save(&self) -> (r: AnimationRecord)
        ensures
            self@.saved_as(r),
    {
        let mut tracks: Vec<TrackRecord> = Vec::new();
        let mut i: usize = 0;
        while i < self.tracks.len()
            invariant
                i <= self.tracks.len(),
                tracks.len() == i,
                forall|k: int| 0 <= k < i ==> (#[trigger] tracks@[k]) == self.tracks[k]@.record(),
            decreases self.tracks.len() - i,
        {
            tracks.push(self.tracks[i].save());
            i += 1;
        }
        let mut signals: Vec<AnimationSignal> = Vec::new();
        let mut j: usize = 0;
        while j < self.signals.len()
            invariant
                j <= self.signals.len(),
                signals@ == self.signals@.take(j as int),
            decreases self.signals.len() - j,
        {
            signals.push(self.signals[j]);
            j += 1;
            assert(signals@ =~= self.signals@.take(j as int));
        }
        assert(self.signals@.take(j as int) =~= self.signals@);
        AnimationRecord {
            tracks,
            speed: self.speed,
            length: self.length,
            time_position: self.time_position,
            resource: self.get_resource(),
            looped: self.looped,
            enabled: self.enabled,
            signals,
        }
    }

    /// The animation that `record` was saved of: its tracks without frames,
    /// no pose and no events. Saved again it gives the same record.
    pub fn restore(record: &AnimationRecord) -> (r: Animation)
        ensures
            r@.saved_as(*record),
            forall|i: int|
                0 <= i < r@.tracks.len() ==> (#[trigger] r@.tracks[i])@.frames.len() == 0,
            r@.pose == Map::<Handle, LocalPose>::empty(),
            r@.events == Seq::<AnimationEvent>::empty(),
    {
        let mut tracks: Vec<Track> = Vec::new();
        let mut i: usize = 0;
        while i < record.tracks.len()
            invariant
                i <= record.tracks.len(),
                tracks.len() == i,
                forall|k: int|
                    0 <= k < i ==> (#[trigger] tracks@[k])@.record() == record.tracks@[k]
                        && tracks@[k]@.frames.len() == 0,
            decreases record.tracks.len() - i,
        {
            tracks.push(Track::restore(&record.tracks[i]));
            i += 1;
        }
        let mut signals: Vec<AnimationSignal> = Vec::new();
        let mut j: usize = 0;
        while j < record.signals.len()
            invariant
                j <= record.signals.len(),
                signals@ == record.signals@.take(j as int),
            decreases record.signals.len() - j,
        {
            signals.push(record.signals[j]);
            j += 1;
            assert(signals@ =~= record.signals@.take(j as int));
        }
        assert(record.signals@.take(j as int) =~= record.signals@);
        let resource = match &record.resource {
            Some(resource) => Some(share(resource)),
            None => None,
        };
        Animation {
            tracks,
            speed: record.speed,
            length: record.length,
            time_position: record.time_position,
            looped: record.looped,
            enabled: record.enabled,
            resource,
            pose: AnimationPose::new(),
            signals,
            events: VecDeque::new(),
        }
    }

    /// The pose that the last tick has left.
    pub fn get_pose(&self) -> (r: &AnimationPose)
        ensures
            r@ == self@.pose,
    {
        &self.pose
    }

    /// Enables or disables the first track that is bound to `node`.
    fn enable_first_track(&mut self, node: Handle, enabled: bool)
        ensures
            final(self)@ == (AnimationView { tracks: final(self)@.tracks, ..old(self)@ }),
            final(self)@.tracks.len() == old(self)@.tracks.len(),
            forall|i: int|
                0 <= i < old(self)@.tracks.len() ==> (#[trigger] final(self)@.tracks[i])@ == if old(
                    self,
                )@.tracks[i]@.node == node && first_bound(old(self)@.tracks, i) {
                    TrackView { enabled, ..old(self)@.tracks[i]@ }
                } else {
                    old(self)@.tracks[i]@
                },
    {
        let mut i: usize = 0;
        while i < self.tracks.len()
            invariant
                i <= self.tracks.len(),
                self.tracks@ == old(self).tracks@,
                self@ == old(self)@,
                forall|j: int| 0 <= j < i ==> (#[trigger] self.tracks[j])@.node != node,
            decreases self.tracks.len() - i,
        {
            if self.tracks[i].get_node() == node {
                self.tracks[i].enable(enabled);
                return ;
            }
            i += 1;
        }
    }

    /// Enables or disables the tracks of `handle` and of every node below it
    /// in `graph`: for each such node the first track that is bound to it.
    /// A node that `graph` does not have counts as one without children.
    pub fn set_tracks_enabled_from(&mut self, handle: Handle, enabled: bool, graph: &Graph)
        requires
            graph.wf(),
        ensures
            final(self)@ == (AnimationView { tracks: final(self)@.tracks, ..old(self)@ }),
            toggled(
                old(self)@.tracks,
                Set::new(|node: Handle| reaches(graph@, handle, node)),
                enabled,
                final(self)@.tracks,
            ),
            old(self)@.wf() ==> final(self)@.wf(),
    {
        proof {
            graph.lemma_handles();
            lemma_reaches_itself(graph@, handle);
        }
        let capacity = graph.get_capacity() as usize;
        let mut visited: Vec<bool> = Vec::new();
        while visited.len() < capacity
            invariant
                visited.len() <= capacity,
                forall|k: int| 0 <= k < visited.len() ==> !visited[k],
            decreases capacity - visited.len(),
        {
            visited.push(false);
        }
        let mut stack: Vec<Handle> = Vec::new();
        stack.push(handle);
        assert(stack@[0] == handle);
        let ghost mut popped: Set<Handle> = Set::empty();
        while stack.len() > 0
            invariant
                graph.wf(),
                visited.len() == graph.capacity(),
                self@ == (AnimationView { tracks: self.tracks@, ..old(self)@ }),
                toggled(old(self)@.tracks, popped, enabled, self.tracks@),
                forall|k: int| 0 <= k < stack.len() ==> reaches(graph@, handle, #[trigger] stack[k]),
                forall|node: Handle| popped.contains(node) ==> reaches(graph@, handle, node),
                popped.contains(handle) || stack@.contains(handle),
                forall|node: Handle|
                    popped.contains(node) && #[trigger] graph@.contains_key(node) ==> node.index
                        < visited.len() && visited[node.index as int],
                forall|node: Handle, child: Handle|
                    graph@.contains_key(node) && node.index < visited.len()
                        && visited[node.index as int]
                        && #[trigger] graph@[node].children@.contains(child) ==> popped.contains(
                        child,
                    ) || stack@.contains(child),
            decreases unmarked(visited@), stack.len(),
        {
            let ghost stacked = stack@;
            let ghost tracks_before = self.tracks@;
            let ghost popped_before = popped;
            let node = stack.pop().unwrap();
            self.enable_first_track(node, enabled);
            proof {
                graph.lemma_handles();
                popped = popped.insert(node);
                assert(stacked.last() == node);
                assert(reaches(graph@, handle, stacked[stacked.len() - 1]));
                assert forall|i: int| 0 <= i < tracks_before.len() implies (
                #[trigger] tracks_before[i])@.node == old(self)@.tracks[i]@.node by {}
                assert forall|i: int| 0 <= i < tracks_before.len() implies first_bound(
                    tracks_before,
                    i,
                ) == first_bound(old(self)@.tracks, i) by {
                    if first_bound(tracks_before, i) {
                        assert forall|j: int| 0 <= j < i implies (#[trigger] old(
                            self,
                        )@.tracks[j])@.node != old(self)@.tracks[i]@.node by {
                            assert(tracks_before[j]@.node == old(self)@.tracks[j]@.node);
                        }
                    }
                    if first_bound(old(self)@.tracks, i) {
                        assert forall|j: int| 0 <= j < i implies (
                        #[trigger] tracks_before[j])@.node != tracks_before[i]@.node by {
                            assert(tracks_before[j]@.node == old(self)@.tracks[j]@.node);
                        }
                    }
                }
                assert(toggled(old(self)@.tracks, popped, enabled, self.tracks@));
                assert forall|other: Handle| stacked.contains(other) implies stack@.contains(other)
                    || other == node by {
                    let k = choose|k: int| 0 <= k < stacked.len() && stacked[k] == other;
                    if k < stack@.len() {
                        assert(stack@[k] == other);
                    }
                }
            }
            match graph.try_borrow(node) {
                Some(scene_node) => {
                    let index = node.index as usize;
                    if !visited[index] {
                        let ghost marks = visited@;
                        visited[index] = true;
                        proof {
                            lemma_unmarked_set(marks, index as int);
                        }
                        let ghost below = stack@;
                        let mut c: usize = 0;
                        while c < scene_node.children.len()
                            invariant
                                c <= scene_node.children.len(),
                                graph@.contains_key(node),
                                *scene_node == graph@[node],
                                reaches(graph@, handle, node),
                                forall|k: int|
                                    0 <= k < stack.len() ==> reaches(
                                        graph@,
                                        handle,
                                        #[trigger] stack[k],
                                    ),
                                forall|other: Handle|
                                    below.contains(other) ==> stack@.contains(other),
                                forall|k: int|
                                    0 <= k < c ==> stack@.contains(
                                        #[trigger] scene_node.children[k],
                                    ),
                            decreases scene_node.children.len() - c,
                        {
                            let ghost under = stack@;
                            let child = scene_node.children[c];
                            proof {
                                assert(scene_node.children@.contains(child));
                                lemma_reaches_child(graph@, handle, node, child);
                            }
                            stack.push(child);
                            proof {
                                assert(stack@[under.len() as int] == child);
                                assert forall|other: Handle|
                                    under.contains(other) implies stack@.contains(other) by {
                                    let k = choose|k: int| 0 <= k < under.len() && under[k] == other;
                                    assert(stack@[k] == other);
                                }
                            }
                            c += 1;
                        }
                        proof {
                            assert forall|other: Handle, child: Handle|
                                graph@.contains_key(other) && other.index < visited.len()
                                    && visited[other.index as int]
                                    && #[trigger] graph@[other].children@.contains(child)
                                    implies popped.contains(child) || stack@.contains(child) by {
                                if other == node {
                                    let k = choose|k: int|
                                        0 <= k < scene_node.children@.len()
                                            && scene_node.children@[k] == child;
                                    assert(stack@.contains(scene_node.children[k]));
                                } else {
                                    assert(other.index != node.index);
                                    assert(marks[other.index as int]);
                                    if !popped_before.contains(child) {
                                        assert(stacked.contains(child));
                                    }
                                }
                            }
                        }
                    }
                },
                None => {},
            }
        }
        proof {
            assert(!stack@.contains(handle));
            lemma_reaches_within(graph@, handle, popped);
            let reached = Set::new(|node: Handle| reaches(graph@, handle, node));
            assert(reached =~= popped);
        }
    }

    /// Enables or disables every track that is bound to `handle`.
    pub fn set_node_track_enabled(&mut self, handle: Handle, enabled: bool)
        ensures
            final(self)@.tracks.len() == old(self)@.tracks.len(),
            forall|i: int|
                0 <= i < old(self)@.tracks.len() ==> (#[trigger] final(self)@.tracks[i])@ == if old(
                    self,
                )@.tracks[i]@.node == handle {
                    TrackView { enabled, ..old(self)@.tracks[i]@ }
                } else {
                    old(self)@.tracks[i]@
                },
            final(self)@ == (AnimationView { tracks: final(self)@.tracks, ..old(self)@ }),
            old(self)@.wf() ==> final(self)@.wf(),
    {
        let mut i: usize = 0;
        while i < self.tracks.len()
            invariant
                i <= self.tracks.len(),
                self.tracks.len() == old(self).tracks.len(),
                forall|k: int|
                    0 <= k < self.tracks.len() ==> (#[trigger] self.tracks[k])@ == if k < i && old(
                        self,
                    ).tracks[k]@.node == handle {
                        TrackView { enabled, ..old(self).tracks[k]@ }
                    } else {
                        old(self).tracks[k]@
                    },
                self@ == (AnimationView { tracks: self.tracks@, ..old(self)@ }),
            decreases self.tracks.len() - i,
        {
            if self.tracks[i].get_node() == handle {
                self.tracks[i].enable(enabled);
            }
            i += 1;
        }
    }
}

} // verus!

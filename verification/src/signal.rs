//! Signals: marks on an animation's timeline, and the events that playback
//! raises when it crosses one.

use vstd::prelude::*;

verus! {

/// The most events an animation holds for its owner to pick up.
pub const EVENT_CAPACITY: usize = 32;

/// The notice that playback has crossed the signal with this id.
#[derive(Clone, Copy, PartialEq, Eq, Structural, Debug)]
pub struct AnimationEvent {
    pub signal_id: u64,
}

/// What a signal is: its id, its place on the timeline, and whether it is on.
pub struct AnimationSignalView {
    pub id: u64,
    pub time: i64,
    pub enabled: bool,
}

/// A mark on the timeline of an animation.
#[derive(Clone, Copy, Debug)]
pub struct AnimationSignal {
    id: u64,
    time: i64,
    enabled: bool,
}

impl View for AnimationSignal {
    type V = AnimationSignalView;

    closed spec fn view(&self) -> AnimationSignalView {
        AnimationSignalView { id: self.id, time: self.time, enabled: self.enabled }
    }
}

impl Default for AnimationSignal {
    fn default() -> (r: AnimationSignal)
        ensures
            r@ == (AnimationSignalView { id: 0, time: 0, enabled: true }),
    {
        AnimationSignal { id: 0, time: 0, enabled: true }
    }
}

impl AnimationSignal {
    /// An enabled signal at `time`.
    pub fn new(id: u64, time: i64) -> (r: AnimationSignal)
        ensures
            r@ == (AnimationSignalView { id, time, enabled: true }),
    {
        AnimationSignal { id, time, enabled: true }
    }

    /// Switches the signal on or off.
    pub fn set_enabled(&mut self, value: bool)
        ensures
            final(self)@ == (AnimationSignalView { enabled: value, ..old(self)@ }),
    {
        self.enabled = value;
    }

    /// Whether the signal is on.
    pub fn is_enabled(&self) -> (r: bool)
        ensures
            r == self@.enabled,
    {
        self.enabled
    }

    /// The id that the events of the signal carry.
    pub fn id(&self) -> (r: u64)
        ensures
            r == self@.id,
    {
        self.id
    }

    /// The place of the signal on the timeline.
    pub fn time(&self) -> (r: i64)
        ensures
            r == self@.time,
    {
        self.time
    }
}

/// The events of the signals that lie after `from` and not after `to`, in the
/// order of the signals.
pub open spec fn crossings(signals: Seq<AnimationSignal>, from: int, to: int) -> Seq<
    AnimationEvent,
>
    decreases signals.len(),
{
    if signals.len() == 0 {
        Seq::empty()
    } else {
        let before = crossings(signals.drop_last(), from, to);
        let last = signals.last()@;
        if from < last.time <= to {
            before.push(AnimationEvent { signal_id: last.id })
        } else {
            before
        }
    }
}

/// The queue `events` with as many of `raised` behind it as the capacity
/// leaves room for, oldest first.
pub open spec fn enqueued(events: Seq<AnimationEvent>, raised: Seq<AnimationEvent>) -> Seq<
    AnimationEvent,
> {
    let room = if events.len() >= EVENT_CAPACITY {
        0
    } else {
        EVENT_CAPACITY - events.len()
    };
    if raised.len() <= room {
        events + raised
    } else {
        events + raised.take(room)
    }
}

/// Raising one more event behind others adds it where there is room left.
pub(crate) proof fn lemma_enqueued_push(
    events: Seq<AnimationEvent>,
    raised: Seq<AnimationEvent>,
    event: AnimationEvent,
)
    ensures
        enqueued(events, raised.push(event)) == if enqueued(events, raised).len()
            < EVENT_CAPACITY {
            enqueued(events, raised).push(event)
        } else {
            enqueued(events, raised)
        },
        enqueued(events, Seq::empty()) == events,
{
    let room = if events.len() >= EVENT_CAPACITY {
        0
    } else {
        EVENT_CAPACITY - events.len()
    };
    let more = raised.push(event);
    if more.len() <= room {
        assert(events + more =~= (events + raised).push(event));
    } else if raised.len() <= room {
        assert(more.take(room) =~= raised);
    } else {
        assert(more.take(room) =~= raised.take(room));
    }
    assert(events + Seq::<AnimationEvent>::empty() =~= events);
}

/// The queue keeps what it held, in its order and in front, takes the events
/// raised in theirs, and grows to its capacity and no further.
pub proof fn lemma_enqueued_bound(events: Seq<AnimationEvent>, raised: Seq<AnimationEvent>)
    ensures
        events.is_prefix_of(enqueued(events, raised)),
        enqueued(events, raised).is_prefix_of(events + raised),
        events.len() <= EVENT_CAPACITY ==> enqueued(events, raised).len() == if events.len()
            + raised.len() <= EVENT_CAPACITY {
            events.len() + raised.len()
        } else {
            EVENT_CAPACITY as nat
        },
{
}

/// A signal raises its event in a tick exactly when it lies after the time
/// that the tick starts from and not after the time that it advances to:
/// once when playback passes it, and not again from beyond it.
pub proof fn lemma_crossing_one(signal: AnimationSignal, from: int, to: int)
    ensures
        crossings(seq![signal], from, to) == if from < signal@.time <= to {
            seq![AnimationEvent { signal_id: signal@.id }]
        } else {
            Seq::<AnimationEvent>::empty()
        },
{
    let one = seq![signal];
    assert(one.drop_last() =~= Seq::<AnimationSignal>::empty());
    assert(crossings(one.drop_last(), from, to) =~= Seq::<AnimationEvent>::empty());
    assert(Seq::<AnimationEvent>::empty().push(AnimationEvent { signal_id: signal@.id })
        =~= seq![AnimationEvent { signal_id: signal@.id }]);
}

/// The events of signals in a row are the events of the first of them
/// followed by the events of the rest.
pub proof fn lemma_crossings_concat(
    first: Seq<AnimationSignal>,
    rest: Seq<AnimationSignal>,
    from: int,
    to: int,
)
    ensures
        crossings(first + rest, from, to) == crossings(first, from, to) + crossings(rest, from, to),
    decreases rest.len(),
{
    if rest.len() == 0 {
        assert(first + rest =~= first);
        assert(crossings(first, from, to) + crossings(rest, from, to) =~= crossings(
            first,
            from,
            to,
        ));
    } else {
        assert((first + rest).drop_last() =~= first + rest.drop_last());
        lemma_crossings_concat(first, rest.drop_last(), from, to);
        let before = crossings(first, from, to) + crossings(rest.drop_last(), from, to);
        let last = rest.last()@;
        if from < last.time <= to {
            assert(before.push(AnimationEvent { signal_id: last.id }) =~= crossings(
                first,
                from,
                to,
            ) + crossings(rest, from, to));
        }
    }
}

} // verus!

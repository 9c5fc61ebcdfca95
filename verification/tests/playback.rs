use animation::{
    Animation, AnimationContainer, AnimationEvent, AnimationSignal, Graph, Handle, KeyFrame, Model,
    Node, Pool, Quat, Track, Vec3, EVENT_CAPACITY, ONE,
};
use std::sync::Arc;

fn first(a: Quat, _b: Quat, _t: i64) -> Quat {
    a
}

fn frame(time: i64, x: i64) -> KeyFrame {
    KeyFrame::new(time, Vec3::new(x, 0, 0), Vec3::unit(), Quat::identity())
}

fn track_to(end: i64) -> Track {
    let mut track = Track::new();
    track.add_key_frame(frame(0, 0));
    track.add_key_frame(frame(end, end));
    track
}

fn track_on(node: Handle, end: i64) -> Track {
    let mut track = track_to(end);
    track.set_node(node);
    track
}

fn of_length(length: i64) -> Animation {
    let mut animation = Animation::default();
    animation.add_track(track_to(length));
    animation
}

fn events(animation: &mut Animation) -> Vec<u64> {
    let mut ids = Vec::new();
    while let Some(event) = animation.pop_event() {
        ids.push(event.signal_id);
    }
    ids
}

#[test]
fn default_animation_loops_at_unit_speed() {
    let mut animation = Animation::default();
    assert!(animation.is_loop());
    assert!(animation.is_enabled());
    assert_eq!(animation.get_speed(), ONE);
    assert_eq!(animation.get_length(), 0);
    assert_eq!(animation.get_time_position(), 0);
    assert_eq!(animation.get_tracks().len(), 0);
    assert!(animation.get_resource().is_none());
    assert!(!animation.has_ended());
    assert_eq!(animation.pop_event(), None);
}

#[test]
fn length_invariant_is_the_longest_track() {
    let mut animation = Animation::default();
    animation.add_track(track_to(3 * ONE));
    assert_eq!(animation.get_length(), 3 * ONE);
    animation.add_track(track_to(7 * ONE));
    assert_eq!(animation.get_length(), 7 * ONE);
    animation.add_track(track_to(2 * ONE));
    assert_eq!(animation.get_length(), 7 * ONE);
    assert_eq!(animation.get_tracks().len(), 3);
    assert_eq!(animation.get_tracks()[1].max_time(), 7 * ONE);
}

#[test]
fn add_track_with_an_empty_track_keeps_the_length() {
    let mut animation = of_length(4 * ONE);
    animation.add_track(Track::new());
    assert_eq!(animation.get_length(), 4 * ONE);
    let mut empty = Animation::default();
    empty.add_track(Track::new());
    assert_eq!(empty.get_length(), 0);
}

#[test]
fn looping_wraps_the_time() {
    let mut animation = of_length(10 * ONE);
    animation.set_loop(true).set_speed(ONE).set_time_position(9 * ONE);
    assert_eq!(animation.get_time_position(), 9 * ONE);
    animation.tick(2 * ONE, &first);
    assert_eq!(animation.get_time_position(), ONE);
    assert!(!animation.has_ended());
}

#[test]
fn looping_wraps_backwards() {
    let mut animation = of_length(10 * ONE);
    animation.set_speed(-ONE).set_time_position(ONE);
    animation.tick(3 * ONE, &first);
    assert_eq!(animation.get_time_position(), 8 * ONE);
}

#[test]
fn looping_from_the_end_starts_over() {
    let mut animation = of_length(10 * ONE);
    animation.set_time_position(10 * ONE);
    assert_eq!(animation.get_time_position(), 0);
    animation.set_time_position(35 * ONE);
    assert_eq!(animation.get_time_position(), 5 * ONE);
    animation.set_time_position(-ONE);
    assert_eq!(animation.get_time_position(), 9 * ONE);
}

#[test]
fn looping_without_a_timeline_stays_at_zero() {
    let mut animation = Animation::default();
    animation.set_time_position(5 * ONE);
    assert_eq!(animation.get_time_position(), 0);
    animation.tick(ONE, &first);
    assert_eq!(animation.get_time_position(), 0);
}

#[test]
fn clamping_holds_at_the_end() {
    let mut animation = of_length(10 * ONE);
    animation.set_loop(false).set_time_position(9 * ONE);
    assert!(!animation.has_ended());
    animation.tick(5 * ONE, &first);
    assert_eq!(animation.get_time_position(), 10 * ONE);
    assert!(animation.has_ended());
}

#[test]
fn clamping_holds_at_the_start() {
    let mut animation = of_length(10 * ONE);
    animation.set_loop(false).set_speed(-2 * ONE).set_time_position(3 * ONE);
    animation.tick(4 * ONE, &first);
    assert_eq!(animation.get_time_position(), 0);
    assert!(!animation.has_ended());
    animation.set_time_position(-5 * ONE);
    assert_eq!(animation.get_time_position(), 0);
    animation.set_time_position(50 * ONE);
    assert_eq!(animation.get_time_position(), 10 * ONE);
}

#[test]
fn has_ended_needs_the_exact_end_and_no_loop() {
    let mut animation = of_length(10 * ONE);
    animation.set_loop(false).set_time_position(10 * ONE - 1);
    assert!(!animation.has_ended());
    animation.set_time_position(10 * ONE);
    assert!(animation.has_ended());
    animation.set_loop(true);
    assert!(!animation.has_ended());
}

#[test]
fn rewind_goes_back_to_the_start() {
    let mut animation = of_length(10 * ONE);
    animation.set_loop(false).set_time_position(6 * ONE);
    animation.rewind();
    assert_eq!(animation.get_time_position(), 0);
}

#[test]
fn tick_moves_by_the_speed() {
    let mut animation = of_length(10 * ONE);
    animation.set_speed(ONE / 2);
    animation.tick(3 * ONE, &first);
    assert_eq!(animation.get_time_position(), ONE + ONE / 2);
    animation.set_speed(2 * ONE);
    animation.tick(ONE, &first);
    assert_eq!(animation.get_time_position(), 3 * ONE + ONE / 2);
    animation.set_speed(0);
    animation.tick(ONE, &first);
    assert_eq!(animation.get_time_position(), 3 * ONE + ONE / 2);
}

#[test]
fn tick_takes_the_pose_before_it_moves() {
    let node = Handle::new(1, 1);
    let mut animation = Animation::default();
    animation.add_track(track_on(node, 8 * ONE));
    animation.set_time_position(4 * ONE);
    animation.tick(ONE, &first);
    assert_eq!(animation.get_time_position(), 5 * ONE);
    let pose = animation.get_pose().get(node).unwrap();
    assert_eq!(pose.position, Vec3::new(4 * ONE, 0, 0));
    animation.tick(ONE, &first);
    assert_eq!(animation.get_pose().get(node).unwrap().position, Vec3::new(5 * ONE, 0, 0));
}

#[test]
fn tick_leaves_disabled_and_empty_tracks_out_of_the_pose() {
    let a = Handle::new(1, 1);
    let b = Handle::new(2, 1);
    let c = Handle::new(3, 1);
    let mut animation = Animation::default();
    animation.add_track(track_on(a, 10 * ONE));
    animation.add_track(track_on(b, 10 * ONE));
    let mut empty = Track::new();
    empty.set_node(c);
    animation.add_track(empty);
    animation.set_node_track_enabled(b, false);
    animation.tick(ONE, &first);
    assert!(animation.get_pose().get(a).is_some());
    assert!(animation.get_pose().get(b).is_none());
    assert!(animation.get_pose().get(c).is_none());
    // the data of a disabled track is kept
    assert_eq!(animation.get_tracks()[1].get_key_frames().len(), 2);
    animation.set_node_track_enabled(b, true);
    animation.set_node_track_enabled(a, false);
    animation.tick(ONE, &first);
    assert!(animation.get_pose().get(a).is_none());
    assert!(animation.get_pose().get(b).is_some());
}

#[test]
fn the_last_track_of_a_node_gives_its_pose() {
    let node = Handle::new(1, 1);
    let mut animation = Animation::default();
    let mut early = Track::new();
    early.set_node(node);
    early.add_key_frame(frame(0, 5));
    let mut late = Track::new();
    late.set_node(node);
    late.add_key_frame(frame(0, 6));
    animation.add_track(early);
    animation.add_track(late);
    animation.tick(0, &first);
    assert_eq!(animation.get_pose().get(node).unwrap().position.x, 6);
}

#[test]
fn signal_crossing_raises_one_event() {
    let mut animation = of_length(10 * ONE);
    animation.add_signal(AnimationSignal::new(42, 5 * ONE));
    animation.set_time_position(4 * ONE);
    animation.tick(2 * ONE, &first);
    assert_eq!(animation.get_time_position(), 6 * ONE);
    assert_eq!(animation.pop_event(), Some(AnimationEvent { signal_id: 42 }));
    assert_eq!(animation.pop_event(), None);
    animation.tick(ONE, &first);
    assert_eq!(animation.get_time_position(), 7 * ONE);
    assert_eq!(animation.pop_event(), None);
}

#[test]
fn signal_at_the_start_of_a_tick_is_not_crossed() {
    let mut animation = of_length(10 * ONE);
    animation.add_signal(AnimationSignal::new(1, 5 * ONE));
    animation.set_time_position(5 * ONE);
    animation.tick(ONE, &first);
    assert_eq!(animation.pop_event(), None);
}

#[test]
fn signal_at_the_end_of_a_tick_is_crossed() {
    let mut animation = of_length(10 * ONE);
    animation.add_signal(AnimationSignal::new(1, 5 * ONE));
    animation.set_time_position(4 * ONE);
    animation.tick(ONE, &first);
    assert_eq!(events(&mut animation), vec![1]);
}

#[test]
fn signals_are_not_crossed_backwards() {
    let mut animation = of_length(10 * ONE);
    animation.add_signal(AnimationSignal::new(1, 5 * ONE));
    animation.set_speed(-ONE).set_time_position(6 * ONE);
    animation.tick(2 * ONE, &first);
    assert_eq!(animation.get_time_position(), 4 * ONE);
    assert_eq!(animation.pop_event(), None);
}

#[test]
fn signals_raise_their_events_in_their_order() {
    let mut animation = of_length(10 * ONE);
    animation
        .add_signal(AnimationSignal::new(3, 3 * ONE))
        .add_signal(AnimationSignal::new(1, ONE))
        .add_signal(AnimationSignal::new(9, 9 * ONE))
        .add_signal(AnimationSignal::new(2, 2 * ONE));
    animation.tick(4 * ONE, &first);
    assert_eq!(events(&mut animation), vec![3, 1, 2]);
}

#[test]
fn a_signal_beyond_the_end_is_crossed_by_a_tick_that_goes_past_it() {
    let mut animation = of_length(10 * ONE);
    animation.set_loop(false);
    animation.add_signal(AnimationSignal::new(7, 12 * ONE));
    animation.set_time_position(9 * ONE);
    animation.tick(5 * ONE, &first);
    assert_eq!(animation.get_time_position(), 10 * ONE);
    assert_eq!(events(&mut animation), vec![7]);
}

#[test]
fn event_overflow_keeps_the_oldest() {
    let mut animation = of_length(100 * ONE);
    for id in 0..40u64 {
        animation.add_signal(AnimationSignal::new(id, (id as i64 + 1) * ONE));
    }
    for _ in 0..40 {
        animation.tick(ONE, &first);
    }
    let ids = events(&mut animation);
    assert_eq!(ids.len(), EVENT_CAPACITY);
    assert_eq!(ids.len(), 32);
    assert_eq!(ids, (0..32u64).collect::<Vec<u64>>());
    assert_eq!(animation.pop_event(), None);
}

#[test]
fn event_overflow_within_one_tick_drops_the_rest() {
    let mut animation = of_length(100 * ONE);
    for id in 0..40u64 {
        animation.add_signal(AnimationSignal::new(id, (id as i64 + 1) * ONE));
    }
    animation.tick(50 * ONE, &first);
    assert_eq!(events(&mut animation), (0..32u64).collect::<Vec<u64>>());
}

#[test]
fn a_popped_event_makes_room_for_the_next() {
    let mut animation = of_length(100 * ONE);
    for id in 0..33u64 {
        animation.add_signal(AnimationSignal::new(id, ONE));
    }
    animation.tick(2 * ONE, &first);
    assert_eq!(animation.pop_event(), Some(AnimationEvent { signal_id: 0 }));
    animation.set_time_position(0);
    animation.tick(2 * ONE, &first);
    let ids = events(&mut animation);
    assert_eq!(ids.len(), 32);
    assert_eq!(ids[0], 1);
    assert_eq!(ids[30], 31);
    assert_eq!(ids[31], 0);
}

#[test]
fn signal_new_is_enabled() {
    let mut signal = AnimationSignal::new(5, 3 * ONE);
    assert!(signal.is_enabled());
    assert_eq!(signal.id(), 5);
    assert_eq!(signal.time(), 3 * ONE);
    signal.set_enabled(false);
    assert!(!signal.is_enabled());
    let other = AnimationSignal::default();
    assert_eq!(other.id(), 0);
    assert_eq!(other.time(), 0);
    assert!(other.is_enabled());
}

#[test]
fn set_enabled_switches_the_animation() {
    let mut animation = Animation::default();
    animation.set_enabled(false);
    assert!(!animation.is_enabled());
    animation.set_enabled(true);
    assert!(animation.is_enabled());
}

#[test]
fn get_tracks_mut_leaves_the_length_alone() {
    let mut animation = of_length(10 * ONE);
    animation.get_tracks_mut()[0].set_key_frames(&[frame(2 * ONE, 1)]);
    assert_eq!(animation.get_tracks()[0].max_time(), 2 * ONE);
    assert_eq!(animation.get_length(), 10 * ONE);
}

#[test]
fn set_node_track_enabled_switches_every_track_of_the_node() {
    let a = Handle::new(1, 1);
    let b = Handle::new(2, 1);
    let mut animation = Animation::default();
    animation.add_track(track_on(a, ONE));
    animation.add_track(track_on(b, ONE));
    animation.add_track(track_on(a, ONE));
    animation.set_node_track_enabled(a, false);
    let enabled: Vec<bool> = animation.get_tracks().iter().map(|t| t.is_enabled()).collect();
    assert_eq!(enabled, vec![false, true, false]);
}

fn skeleton() -> (Graph, Handle, Handle, Handle, Handle, Handle) {
    // root -> (torso -> (arm -> hand), leg)
    let mut graph: Graph = Pool::new();
    let hand = graph.spawn(Node::new("Hand"));
    let mut arm_node = Node::new("Arm");
    arm_node.children.push(hand);
    let arm = graph.spawn(arm_node);
    let mut torso_node = Node::new("Torso");
    torso_node.children.push(arm);
    let torso = graph.spawn(torso_node);
    let leg = graph.spawn(Node::new("Leg"));
    let mut root_node = Node::new("Root");
    root_node.children.push(torso);
    root_node.children.push(leg);
    let root = graph.spawn(root_node);
    (graph, root, torso, arm, hand, leg)
}

#[test]
fn set_tracks_enabled_from_reaches_the_whole_branch() {
    let (graph, root, torso, arm, hand, leg) = skeleton();
    let mut animation = Animation::default();
    for node in [root, torso, arm, hand, leg] {
        animation.add_track(track_on(node, ONE));
    }
    animation.set_tracks_enabled_from(torso, false, &graph);
    let enabled: Vec<bool> = animation.get_tracks().iter().map(|t| t.is_enabled()).collect();
    assert_eq!(enabled, vec![true, false, false, false, true]);
    animation.set_tracks_enabled_from(arm, true, &graph);
    let enabled: Vec<bool> = animation.get_tracks().iter().map(|t| t.is_enabled()).collect();
    assert_eq!(enabled, vec![true, false, true, true, true]);
    animation.set_tracks_enabled_from(root, false, &graph);
    let enabled: Vec<bool> = animation.get_tracks().iter().map(|t| t.is_enabled()).collect();
    assert_eq!(enabled, vec![false, false, false, false, false]);
}

#[test]
fn set_tracks_enabled_from_switches_the_first_track_of_a_node() {
    let (graph, _root, _torso, arm, hand, _leg) = skeleton();
    let mut animation = Animation::default();
    animation.add_track(track_on(hand, ONE));
    animation.add_track(track_on(hand, ONE));
    animation.add_track(track_on(arm, ONE));
    animation.set_tracks_enabled_from(arm, false, &graph);
    let enabled: Vec<bool> = animation.get_tracks().iter().map(|t| t.is_enabled()).collect();
    assert_eq!(enabled, vec![false, true, false]);
}

#[test]
fn set_tracks_enabled_from_a_node_that_is_gone_switches_its_own_track() {
    let (mut graph, _root, _torso, _arm, hand, leg) = skeleton();
    graph.free(leg);
    let mut animation = Animation::default();
    animation.add_track(track_on(leg, ONE));
    animation.add_track(track_on(hand, ONE));
    animation.set_tracks_enabled_from(leg, false, &graph);
    let enabled: Vec<bool> = animation.get_tracks().iter().map(|t| t.is_enabled()).collect();
    assert_eq!(enabled, vec![false, true]);
}

#[test]
fn set_tracks_enabled_from_ends_on_a_graph_with_a_cycle() {
    let mut graph: Graph = Pool::new();
    let a = graph.spawn(Node::new("A"));
    let mut b_node = Node::new("B");
    b_node.children.push(a);
    b_node.children.push(a);
    let b = graph.spawn(b_node);
    graph.borrow_mut(a).children.push(b);
    let c = graph.spawn(Node::new("C"));
    let mut animation = Animation::default();
    animation.add_track(track_on(a, ONE));
    animation.add_track(track_on(b, ONE));
    animation.add_track(track_on(c, ONE));
    animation.set_tracks_enabled_from(a, false, &graph);
    let enabled: Vec<bool> = animation.get_tracks().iter().map(|t| t.is_enabled()).collect();
    assert_eq!(enabled, vec![false, false, true]);
}

fn resource() -> Arc<Model> {
    // in the resource "Hand" is the second node and "Foot" the first
    let mut graph: Graph = Pool::new();
    let foot = graph.spawn(Node::new("Foot"));
    let hand = graph.spawn(Node::new("Hand"));
    let mut reference = Animation::default();
    let mut hand_track = Track::new();
    hand_track.set_node(hand);
    hand_track.add_key_frame(frame(0, 1));
    hand_track.add_key_frame(frame(ONE, 2));
    hand_track.add_key_frame(frame(6 * ONE, 3));
    let mut foot_track = Track::new();
    foot_track.set_node(foot);
    foot_track.add_key_frame(frame(2 * ONE, 9));
    reference.add_track(foot_track);
    reference.add_track(hand_track);
    let mut animations = AnimationContainer::new();
    animations.add(reference);
    Arc::new(Model { graph, animations })
}

#[test]
fn retargeting_by_name_copies_the_frames() {
    let model = resource();
    // in the scene "Hand" has another handle than in the resource
    let mut graph: Graph = Pool::new();
    let _pad0 = graph.spawn(Node::new("Pad"));
    let _pad1 = graph.spawn(Node::new("Pad"));
    let _pad2 = graph.spawn(Node::new("Pad"));
    let hand = graph.spawn(Node::new("Hand"));
    let tail = graph.spawn(Node::new("Tail"));
    assert_ne!(hand, Handle::new(1, 1));

    let mut animation = Animation::default();
    let mut hand_track = Track::new();
    hand_track.set_node(hand);
    let mut tail_track = Track::new();
    tail_track.set_node(tail);
    tail_track.add_key_frame(frame(ONE, 77));
    animation.add_track(hand_track);
    animation.add_track(tail_track);
    animation.set_resource(Some(model));

    let unresolved = animation.resolve(&graph);
    assert_eq!(unresolved, vec![1]);
    let tracks = animation.get_tracks();
    let xs: Vec<i64> = tracks[0].get_key_frames().iter().map(|k| k.position.x).collect();
    assert_eq!(xs, vec![1, 2, 3]);
    assert_eq!(tracks[0].max_time(), 6 * ONE);
    assert_eq!(tracks[0].get_node(), hand);
    // the track without a counterpart keeps what it had
    let kept: Vec<i64> = tracks[1].get_key_frames().iter().map(|k| k.position.x).collect();
    assert_eq!(kept, vec![77]);
    assert_eq!(tracks[1].max_time(), ONE);
    // the length is left to the next track that is added
    assert_eq!(animation.get_length(), ONE);
}

#[test]
fn retargeting_replaces_frames_that_a_track_had() {
    let model = resource();
    let mut graph: Graph = Pool::new();
    let foot = graph.spawn(Node::new("Foot"));
    let mut animation = Animation::default();
    let mut track = Track::new();
    track.set_node(foot);
    track.add_key_frame(frame(9 * ONE, 5));
    track.enable(false);
    animation.add_track(track);
    animation.set_resource(Some(model));
    assert!(animation.resolve(&graph).is_empty());
    let track = &animation.get_tracks()[0];
    let xs: Vec<i64> = track.get_key_frames().iter().map(|k| k.position.x).collect();
    assert_eq!(xs, vec![9]);
    assert_eq!(track.max_time(), 2 * ONE);
    assert!(!track.is_enabled());
}

#[test]
fn retargeting_without_a_resource_does_nothing() {
    let mut graph: Graph = Pool::new();
    let hand = graph.spawn(Node::new("Hand"));
    let mut animation = Animation::default();
    animation.add_track(track_on(hand, ONE));
    assert!(animation.resolve(&graph).is_empty());
    assert_eq!(animation.get_tracks()[0].get_key_frames().len(), 2);
}

#[test]
fn retargeting_from_a_resource_without_animation_does_nothing() {
    let mut model_graph: Graph = Pool::new();
    model_graph.spawn(Node::new("Hand"));
    let model = Arc::new(Model { graph: model_graph, animations: AnimationContainer::new() });
    let mut graph: Graph = Pool::new();
    let hand = graph.spawn(Node::new("Hand"));
    let mut animation = Animation::default();
    animation.add_track(track_on(hand, ONE));
    animation.set_resource(Some(model));
    assert!(animation.resolve(&graph).is_empty());
    assert_eq!(animation.get_tracks()[0].get_key_frames().len(), 2);
}

#[test]
fn retargeting_a_track_whose_node_is_gone_leaves_it() {
    let model = resource();
    let mut graph: Graph = Pool::new();
    let hand = graph.spawn(Node::new("Hand"));
    graph.free(hand);
    let mut animation = Animation::default();
    animation.add_track(track_on(hand, ONE));
    animation.add_track(track_on(Handle::none(), ONE));
    animation.set_resource(Some(model));
    assert_eq!(animation.resolve(&graph), vec![0, 1]);
    assert_eq!(animation.get_tracks()[0].get_key_frames().len(), 2);
}

#[test]
fn retargeting_takes_the_first_reference_track_of_the_name() {
    let mut model_graph: Graph = Pool::new();
    let one = model_graph.spawn(Node::new("Hand"));
    let two = model_graph.spawn(Node::new("Hand"));
    let mut reference = Animation::default();
    let mut gone = Track::new();
    gone.set_node(Handle::new(50, 1));
    gone.add_key_frame(frame(0, 1));
    let mut second = Track::new();
    second.set_node(two);
    second.add_key_frame(frame(0, 2));
    let mut third = Track::new();
    third.set_node(one);
    third.add_key_frame(frame(0, 3));
    reference.add_track(gone);
    reference.add_track(second);
    reference.add_track(third);
    let mut animations = AnimationContainer::new();
    animations.add(reference);
    let model = Arc::new(Model { graph: model_graph, animations });

    let mut graph: Graph = Pool::new();
    let hand = graph.spawn(Node::new("Hand"));
    let mut animation = Animation::default();
    animation.add_track(track_on(hand, ONE));
    animation.set_resource(Some(model));
    assert!(animation.resolve(&graph).is_empty());
    assert_eq!(animation.get_tracks()[0].get_key_frames()[0].position.x, 2);
}

#[test]
fn get_resource_shares_the_resource() {
    let model = resource();
    let mut animation = Animation::default();
    animation.set_resource(Some(model.clone()));
    let got = animation.get_resource().unwrap();
    assert!(Arc::ptr_eq(&got, &model));
    assert_eq!(Arc::strong_count(&model), 3);
    drop(got);
    drop(animation);
    assert_eq!(Arc::strong_count(&model), 1);
}

#[test]
fn clone_starts_without_pose_and_events() {
    let node = Handle::new(1, 1);
    let model = resource();
    let mut animation = Animation::default();
    animation.add_track(track_on(node, 10 * ONE));
    animation.add_signal(AnimationSignal::new(1, ONE));
    animation.set_resource(Some(model.clone()));
    animation.set_loop(false).set_speed(2 * ONE).set_enabled(false);
    animation.tick(ONE, &first);
    assert!(animation.get_pose().get(node).is_some());
    let mut copy = animation.clone();
    assert_eq!(copy.get_time_position(), 2 * ONE);
    assert_eq!(copy.get_length(), 10 * ONE);
    assert_eq!(copy.get_speed(), 2 * ONE);
    assert!(!copy.is_loop());
    assert!(!copy.is_enabled());
    assert_eq!(copy.get_tracks().len(), 1);
    assert_eq!(copy.get_tracks()[0].get_key_frames().len(), 2);
    assert!(Arc::ptr_eq(&copy.get_resource().unwrap(), &model));
    assert!(copy.get_pose().get(node).is_none());
    assert_eq!(copy.pop_event(), None);
    assert_eq!(animation.pop_event(), Some(AnimationEvent { signal_id: 1 }));
    // the signals came along
    copy.set_time_position(0);
    copy.tick(ONE, &first);
    assert_eq!(copy.pop_event(), Some(AnimationEvent { signal_id: 1 }));
}

#[test]
fn save_and_restore_leave_frames_pose_and_events_out() {
    let node = Handle::new(1, 1);
    let model = resource();
    let mut animation = Animation::default();
    animation.add_track(track_on(node, 10 * ONE));
    animation.add_signal(AnimationSignal::new(4, ONE));
    animation.set_resource(Some(model.clone()));
    animation.set_loop(false).set_speed(3 * ONE);
    animation.tick(ONE, &first);
    let record = animation.save();
    assert_eq!(record.tracks.len(), 1);
    assert_eq!(record.tracks[0].node, node);
    assert_eq!(record.tracks[0].max_time, 10 * ONE);
    assert!(record.tracks[0].enabled);
    assert_eq!(record.speed, 3 * ONE);
    assert_eq!(record.length, 10 * ONE);
    assert_eq!(record.time_position, 3 * ONE);
    assert!(!record.looped);
    assert!(record.enabled);
    assert_eq!(record.signals.len(), 1);
    assert_eq!(record.signals[0].id(), 4);
    let mut back = Animation::restore(&record);
    assert_eq!(back.get_time_position(), 3 * ONE);
    assert_eq!(back.get_length(), 10 * ONE);
    assert_eq!(back.get_speed(), 3 * ONE);
    assert!(!back.is_loop());
    assert_eq!(back.get_tracks().len(), 1);
    assert_eq!(back.get_tracks()[0].get_key_frames().len(), 0);
    assert_eq!(back.get_tracks()[0].max_time(), 10 * ONE);
    assert!(Arc::ptr_eq(&back.get_resource().unwrap(), &model));
    assert!(back.get_pose().get(node).is_none());
    assert_eq!(back.pop_event(), None);
}

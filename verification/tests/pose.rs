use animation::{AnimationPose, Graph, Handle, LocalPose, Node, Pool, Quat, Vec3, ONE};

fn to_floats(q: Quat) -> [f64; 4] {
    let one = ONE as f64;
    [q.x as f64 / one, q.y as f64 / one, q.z as f64 / one, q.w as f64 / one]
}

fn nlerp(a: Quat, b: Quat, w: i64) -> Quat {
    let (p, q) = (to_floats(a), to_floats(b));
    let t = w as f64 / ONE as f64;
    let dot = p[0] * q[0] + p[1] * q[1] + p[2] * q[2] + p[3] * q[3];
    let s = if dot < 0.0 { -t } else { t };
    let k = 1.0 - t;
    let v = [p[0] * k + q[0] * s, p[1] * k + q[1] * s, p[2] * k + q[2] * s, p[3] * k + q[3] * s];
    let len = (v[0] * v[0] + v[1] * v[1] + v[2] * v[2] + v[3] * v[3]).sqrt();
    let one = ONE as f64;
    Quat::new(
        (v[0] / len * one).round() as i64,
        (v[1] / len * one).round() as i64,
        (v[2] / len * one).round() as i64,
        (v[3] / len * one).round() as i64,
    )
}

fn tagged(a: Quat, b: Quat, w: i64) -> Quat {
    // tells the three arguments apart in the result
    Quat::new(a.w, b.x, w, 0)
}

fn half_turn() -> Quat {
    Quat::new(0, 0, ONE, 0)
}

fn pose_of(node: Handle, x: i64) -> LocalPose {
    LocalPose::new(node, Vec3::new(x, 0, 0), Vec3::new(2 * ONE, 2 * ONE, 2 * ONE), Quat::identity())
}

#[test]
fn default_local_pose_is_neutral() {
    let pose = LocalPose::default();
    assert!(pose.node.is_none());
    assert_eq!(pose.position, Vec3::new(0, 0, 0));
    assert_eq!(pose.scale, Vec3::new(ONE, ONE, ONE));
    assert_eq!(pose.rotation, Quat::new(0, 0, 0, ONE));
}

#[test]
fn weighted_clone_scales_the_position_and_resets_the_scale() {
    let node = Handle::new(1, 1);
    let pose = LocalPose::new(
        node,
        Vec3::new(2 * ONE, -4 * ONE, 6 * ONE),
        Vec3::new(5 * ONE, 5 * ONE, 5 * ONE),
        Quat::new(7, 0, 0, 0),
    );
    let clone = pose.weighted_clone(ONE / 2, &tagged);
    assert_eq!(clone.node, node);
    assert_eq!(clone.position, Vec3::new(ONE, -2 * ONE, 3 * ONE));
    assert_eq!(clone.scale, Vec3::new(ONE, ONE, ONE));
    // the rotation goes from the identity towards the pose's own
    assert_eq!(clone.rotation, Quat::new(ONE, 7, ONE / 2, 0));
}

#[test]
fn weighted_clone_turns_part_of_the_way() {
    let pose = LocalPose::new(Handle::new(1, 1), Vec3::zero(), Vec3::unit(), half_turn());
    let clone = pose.weighted_clone(ONE / 2, &nlerp);
    let q = to_floats(clone.rotation);
    assert!((q[2] - (0.5f64).sqrt()).abs() < 1e-4);
    assert!((q[3] - (0.5f64).sqrt()).abs() < 1e-4);
    let whole = pose.weighted_clone(ONE, &nlerp);
    assert_eq!(whole.rotation, half_turn());
    let none = pose.weighted_clone(0, &nlerp);
    assert_eq!(none.rotation, Quat::identity());
}

#[test]
fn local_blend_adds_the_weighted_position_and_keeps_the_scale() {
    let node = Handle::new(1, 1);
    let mut pose = LocalPose::new(
        node,
        Vec3::new(ONE, ONE, ONE),
        Vec3::new(3 * ONE, 3 * ONE, 3 * ONE),
        Quat::new(0, 0, 0, 5),
    );
    let other = LocalPose::new(
        Handle::new(9, 9),
        Vec3::new(4 * ONE, 0, -4 * ONE),
        Vec3::new(7 * ONE, 7 * ONE, 7 * ONE),
        Quat::new(11, 0, 0, 0),
    );
    pose.blend_with(&other, ONE / 4, &tagged);
    assert_eq!(pose.node, node);
    assert_eq!(pose.position, Vec3::new(2 * ONE, ONE, 0));
    assert_eq!(pose.scale, Vec3::new(3 * ONE, 3 * ONE, 3 * ONE));
    assert_eq!(pose.rotation, Quat::new(5, 11, ONE / 4, 0));
}

#[test]
fn local_blend_saturates_the_position() {
    let mut pose =
        LocalPose::new(Handle::new(1, 1), Vec3::new(i64::MAX, i64::MIN, 0), Vec3::unit(), Quat::identity());
    let other =
        LocalPose::new(Handle::new(1, 1), Vec3::new(i64::MAX, i64::MIN, 0), Vec3::unit(), Quat::identity());
    pose.blend_with(&other, ONE, &tagged);
    assert_eq!(pose.position, Vec3::new(i64::MAX, i64::MIN, 0));
}

#[test]
fn new_animation_pose_is_empty() {
    let pose = AnimationPose::new();
    assert_eq!(pose.get(Handle::new(0, 1)), None);
    let other = AnimationPose::default();
    assert_eq!(other.get(Handle::none()), None);
}

#[test]
fn add_local_pose_files_under_the_node() {
    let mut pose = AnimationPose::new();
    let a = Handle::new(1, 1);
    let b = Handle::new(1, 2);
    pose.add_local_pose(pose_of(a, 10));
    pose.add_local_pose(pose_of(b, 20));
    assert_eq!(pose.get(a), Some(pose_of(a, 10)));
    assert_eq!(pose.get(b), Some(pose_of(b, 20)));
    assert_eq!(pose.get(Handle::new(2, 1)), None);
    pose.add_local_pose(pose_of(a, 30));
    assert_eq!(pose.get(a), Some(pose_of(a, 30)));
    assert_eq!(pose.get(b), Some(pose_of(b, 20)));
}

#[test]
fn reset_removes_every_pose() {
    let mut pose = AnimationPose::new();
    pose.add_local_pose(pose_of(Handle::new(1, 1), 10));
    pose.add_local_pose(pose_of(Handle::new(2, 1), 20));
    pose.reset();
    assert_eq!(pose.get(Handle::new(1, 1)), None);
    assert_eq!(pose.get(Handle::new(2, 1)), None);
}

#[test]
fn clone_into_replaces_the_destination() {
    let a = Handle::new(1, 1);
    let b = Handle::new(2, 1);
    let c = Handle::new(3, 1);
    let mut source = AnimationPose::new();
    source.add_local_pose(pose_of(a, 10));
    source.add_local_pose(pose_of(b, 20));
    let mut dest = AnimationPose::new();
    dest.add_local_pose(pose_of(a, 99));
    dest.add_local_pose(pose_of(c, 30));
    source.clone_into(&mut dest);
    assert_eq!(dest.get(a), Some(pose_of(a, 10)));
    assert_eq!(dest.get(b), Some(pose_of(b, 20)));
    assert_eq!(dest.get(c), None);
    assert_eq!(source.get(a), Some(pose_of(a, 10)));
}

#[test]
fn blend_asymmetry_a_missing_node_takes_the_weighted_clone() {
    let x = Handle::new(4, 1);
    let mut a = AnimationPose::new();
    let mut b = AnimationPose::new();
    let entry = LocalPose::new(x, Vec3::new(2 * ONE, 0, 0), Vec3::unit(), Quat::identity());
    b.add_local_pose(entry);
    a.blend_with(&b, ONE / 2, &nlerp);
    let got = a.get(x).unwrap();
    assert_eq!(got, entry.weighted_clone(ONE / 2, &nlerp));
    assert_eq!(got.position, Vec3::new(ONE, 0, 0));
    assert_eq!(got.rotation, Quat::identity());
    assert_eq!(got.scale, Vec3::new(ONE, ONE, ONE));
}

#[test]
fn blend_of_a_shared_node_blends_in_place() {
    let x = Handle::new(4, 1);
    let mut a = AnimationPose::new();
    let mut b = AnimationPose::new();
    let mine = LocalPose::new(
        x,
        Vec3::new(ONE, ONE, ONE),
        Vec3::new(3 * ONE, 3 * ONE, 3 * ONE),
        Quat::new(0, 0, 0, 5),
    );
    let other = LocalPose::new(x, Vec3::new(2 * ONE, 0, 0), Vec3::unit(), Quat::new(11, 0, 0, 0));
    a.add_local_pose(mine);
    b.add_local_pose(other);
    a.blend_with(&b, ONE / 2, &tagged);
    let mut expected = mine;
    expected.blend_with(&other, ONE / 2, &tagged);
    assert_eq!(a.get(x), Some(expected));
    assert_eq!(expected.position, Vec3::new(2 * ONE, ONE, ONE));
    assert_eq!(expected.scale, Vec3::new(3 * ONE, 3 * ONE, 3 * ONE));
    assert_eq!(expected.rotation, Quat::new(5, 11, ONE / 2, 0));
}

#[test]
fn blend_of_overlapping_poses_treats_each_node_by_itself() {
    let only_a = Handle::new(1, 1);
    let both = Handle::new(2, 1);
    let only_b = Handle::new(3, 1);
    let mut a = AnimationPose::new();
    a.add_local_pose(pose_of(only_a, 10 * ONE));
    a.add_local_pose(pose_of(both, 20 * ONE));
    let mut b = AnimationPose::new();
    b.add_local_pose(pose_of(both, 4 * ONE));
    b.add_local_pose(pose_of(only_b, 8 * ONE));
    a.blend_with(&b, ONE / 4, &tagged);
    assert_eq!(a.get(only_a), Some(pose_of(only_a, 10 * ONE)));
    let shared = a.get(both).unwrap();
    assert_eq!(shared.position, Vec3::new(21 * ONE, 0, 0));
    assert_eq!(shared.scale, Vec3::new(2 * ONE, 2 * ONE, 2 * ONE));
    let fresh = a.get(only_b).unwrap();
    assert_eq!(fresh.position, Vec3::new(2 * ONE, 0, 0));
    assert_eq!(fresh.scale, Vec3::new(ONE, ONE, ONE));
    assert_eq!(fresh.node, only_b);
    // the other pose is left as it was
    assert_eq!(b.get(both), Some(pose_of(both, 4 * ONE)));
    assert_eq!(b.get(only_a), None);
}

#[test]
fn blend_with_an_empty_pose_changes_nothing() {
    let x = Handle::new(1, 1);
    let mut a = AnimationPose::new();
    a.add_local_pose(pose_of(x, 10));
    let b = AnimationPose::new();
    a.blend_with(&b, ONE, &tagged);
    assert_eq!(a.get(x), Some(pose_of(x, 10)));
}

#[test]
fn apply_writes_the_transforms_into_the_graph() {
    let mut graph: Graph = Pool::new();
    let root = graph.spawn(Node::new("Root"));
    let hand = graph.spawn(Node::new("Hand"));
    let foot = graph.spawn(Node::new("Foot"));
    let mut pose = AnimationPose::new();
    pose.add_local_pose(LocalPose::new(
        hand,
        Vec3::new(ONE, 2 * ONE, 3 * ONE),
        Vec3::new(2 * ONE, 2 * ONE, 2 * ONE),
        half_turn(),
    ));
    pose.add_local_pose(LocalPose::new(
        root,
        Vec3::new(-ONE, 0, 0),
        Vec3::new(ONE, ONE, ONE),
        Quat::identity(),
    ));
    let missing = pose.apply(&mut graph);
    assert!(missing.is_empty());
    let node = graph.borrow(hand);
    assert_eq!(node.position, Vec3::new(ONE, 2 * ONE, 3 * ONE));
    assert_eq!(node.scale, Vec3::new(2 * ONE, 2 * ONE, 2 * ONE));
    assert_eq!(node.rotation, half_turn());
    assert_eq!(node.name, "Hand");
    assert_eq!(graph.borrow(root).position, Vec3::new(-ONE, 0, 0));
    // a node without a pose stays at rest
    let rest = graph.borrow(foot);
    assert_eq!(rest.position, Vec3::zero());
    assert_eq!(rest.scale, Vec3::unit());
    assert_eq!(rest.rotation, Quat::identity());
}

#[test]
fn apply_passes_over_nodes_that_the_graph_does_not_have() {
    let mut graph: Graph = Pool::new();
    let hand = graph.spawn(Node::new("Hand"));
    let gone = graph.spawn(Node::new("Gone"));
    graph.free(gone);
    let mut pose = AnimationPose::new();
    pose.add_local_pose(pose_of(Handle::none(), ONE));
    pose.add_local_pose(pose_of(gone, 2 * ONE));
    pose.add_local_pose(pose_of(hand, 3 * ONE));
    pose.add_local_pose(pose_of(Handle::new(77, 1), 4 * ONE));
    let mut missing = pose.apply(&mut graph);
    missing.sort_by_key(|h| h.index);
    assert_eq!(missing, vec![Handle::none(), gone, Handle::new(77, 1)]);
    assert_eq!(graph.borrow(hand).position, Vec3::new(3 * ONE, 0, 0));
}

#[test]
fn apply_of_an_empty_pose_changes_nothing() {
    let mut graph: Graph = Pool::new();
    let hand = graph.spawn(Node::new("Hand"));
    let pose = AnimationPose::new();
    assert!(pose.apply(&mut graph).is_empty());
    assert_eq!(graph.borrow(hand).position, Vec3::zero());
}

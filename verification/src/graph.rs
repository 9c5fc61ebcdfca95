//! The part of a scene that animations read and write: named nodes in a
//! hierarchy, each with a local transform.

use vstd::prelude::*;
use crate::handle::Handle;
use crate::pool::Pool;
use crate::vector::{Quat, Vec3};

verus! {

/// A node of a scene, as far as animations are concerned.
pub struct Node {
    pub name: String,
    pub children: Vec<Handle>,
    pub position: Vec3,
    pub rotation: Quat,
    pub scale: Vec3,
}

/// The nodes of one scene.
pub type Graph = Pool<Node>;

impl Node {
    /// A node without children, at rest: no offset, no rotation, unit
    /// scale.
    pub fn new(name: &str) -> (r: Node)
        ensures
            r.name@ == name@,
            r.children@ == Seq::<Handle>::empty(),
            r.position == Vec3::spec_zero(),
            r.rotation == Quat::spec_identity(),
            r.scale == Vec3::spec_unit(),
    {
        Node {
            name: name.to_owned(),
            children: Vec::new(),
            position: Vec3::zero(),
            rotation: Quat::identity(),
            scale: Vec3::unit(),
        }
    }

    /// This node with the given local transform.
    pub open spec fn moved(self, position: Vec3, rotation: Quat, scale: Vec3) -> Node {
        Node { position, rotation, scale, ..self }
    }
}

/// `path` leads from node to node, each step from a node of `graph` to one
/// of its children.
pub open spec fn is_path(graph: Map<Handle, Node>, path: Seq<Handle>) -> bool {
    &&& path.len() > 0
    &&& forall|i: int|
        0 <= i < path.len() - 1 ==> graph.contains_key(#[trigger] path[i])
            && graph[path[i]].children@.contains(path[i + 1])
}

/// `to` is `from` or lies below it in the hierarchy of `graph`.
pub open spec fn reaches(graph: Map<Handle, Node>, from: Handle, to: Handle) -> bool {
    exists|path: Seq<Handle>| #[trigger]
        is_path(graph, path) && path.first() == from && path.last() == to
}

/// Every node reaches itself.
pub proof fn lemma_reaches_itself(graph: Map<Handle, Node>, node: Handle)
    ensures
        reaches(graph, node, node),
{
    let path = seq![node];
    assert(is_path(graph, path) && path.first() == node && path.last() == node);
}

/// What reaches a node of the graph reaches the node's children.
pub proof fn lemma_reaches_child(graph: Map<Handle, Node>, from: Handle, node: Handle, child: Handle)
    requires
        reaches(graph, from, node),
        graph.contains_key(node),
        graph[node].children@.contains(child),
    ensures
        reaches(graph, from, child),
{
    let path = choose|path: Seq<Handle>| #[trigger]
        is_path(graph, path) && path.first() == from && path.last() == node;
    let longer = path.push(child);
    assert forall|i: int| 0 <= i < longer.len() - 1 implies graph.contains_key(
        #[trigger] longer[i],
    ) && graph[longer[i]].children@.contains(longer[i + 1]) by {
        if i < path.len() - 1 {
            assert(longer[i] == path[i] && longer[i + 1] == path[i + 1]);
        } else {
            assert(longer[i] == node && longer[i + 1] == child);
        }
    }
    assert(is_path(graph, longer) && longer.first() == from && longer.last() == child);
}

/// A set that holds a node, and with each node of the graph in it the
/// node's children, holds all that the node reaches.
pub proof fn lemma_reaches_within(graph: Map<Handle, Node>, from: Handle, set: Set<Handle>)
    requires
        set.contains(from),
        forall|node: Handle, child: Handle|
            set.contains(node) && graph.contains_key(node) && #[trigger] graph[node].children@.contains(
                child,
            ) ==> set.contains(child),
    ensures
        forall|to: Handle| reaches(graph, from, to) ==> set.contains(to),
{
    assert forall|to: Handle| reaches(graph, from, to) implies set.contains(to) by {
        let path = choose|path: Seq<Handle>| #[trigger]
            is_path(graph, path) && path.first() == from && path.last() == to;
        lemma_path_within(graph, path, set, path.len() - 1);
    }
}

proof fn lemma_path_within(graph: Map<Handle, Node>, path: Seq<Handle>, set: Set<Handle>, upto: int)
    requires
        is_path(graph, path),
        set.contains(path.first()),
        0 <= upto < path.len(),
        forall|node: Handle, child: Handle|
            set.contains(node) && graph.contains_key(node) && #[trigger] graph[node].children@.contains(
                child,
            ) ==> set.contains(child),
    ensures
        set.contains(path[upto]),
    decreases upto,
{
    if upto > 0 {
        lemma_path_within(graph, path, set, upto - 1);
        assert(graph.contains_key(path[upto - 1]));
        assert(graph[path[upto - 1]].children@.contains(path[upto - 1 + 1]));
    }
}

/// How many of `marks` are not set.
pub(crate) open spec fn unmarked(marks: Seq<bool>) -> nat
    decreases marks.len(),
{
    if marks.len() == 0 {
        0
    } else {
        unmarked(marks.drop_last()) + if marks.last() {
            0nat
        } else {
            1nat
        }
    }
}

/// Setting a mark that was not set leaves one unmarked less.
pub(crate) proof fn lemma_unmarked_set(marks: Seq<bool>, at: int)
    requires
        0 <= at < marks.len(),
        !marks[at],
    ensures
        unmarked(marks.update(at, true)) + 1 == unmarked(marks),
    decreases marks.len(),
{
    let after = marks.update(at, true);
    if at == marks.len() - 1 {
        assert(after.drop_last() =~= marks.drop_last());
    } else {
        assert(after.drop_last() =~= marks.drop_last().update(at, true));
        lemma_unmarked_set(marks.drop_last(), at);
    }
}

} // verus!

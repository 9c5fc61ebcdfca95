//! Poses: the transform of one node at one instant, and the set of them that
//! an animation yields.

use vstd::prelude::*;
use std::collections::HashMap;
use vstd::std_specs::iter::IteratorSpec;
use crate::graph::Graph;
use crate::handle::Handle;
use crate::scalar::ONE;
use crate::vector::{Quat, Vec3};

verus! {

/// A rotation interpolation that may be called with every pair of rotations
/// and every weight.
pub open spec fn takes_any_weight<F: Fn(Quat, Quat, i64) -> Quat>(f: &F) -> bool {
    forall|a: Quat, b: Quat, w: i64| f.requires((a, b, w))
}

/// A rotation interpolation that may be called with every pair of rotations
/// and every fraction between zero and `ONE`.
pub open spec fn takes_any_fraction<F: Fn(Quat, Quat, i64) -> Quat>(f: &F) -> bool {
    forall|a: Quat, b: Quat, t: i64| 0 <= t <= ONE ==> f.requires((a, b, t))
}

/// The transform of one node at one instant.
#[derive(Clone, Copy, PartialEq, Eq, Structural, Debug)]
pub struct LocalPose {
    pub node: Handle,
    pub position: Vec3,
    pub scale: Vec3,
    pub rotation: Quat,
}

impl Default for LocalPose {
    /// The pose of no node: no offset, unit scale, no rotation.
    fn default() -> (r: LocalPose)
        ensures
            r == LocalPose::neutral(),
    {
        LocalPose {
            node: Handle::none(),
            position: Vec3::zero(),
            scale: Vec3::unit(),
            rotation: Quat::identity(),
        }
    }
}

impl LocalPose {
    /// The pose of no node: no offset, unit scale, no rotation.
    pub open spec fn neutral() -> LocalPose {
        LocalPose {
            node: Handle::spec_none(),
            position: Vec3::spec_zero(),
            scale: Vec3::spec_unit(),
            rotation: Quat::spec_identity(),
        }
    }

    /// `r` is this pose blended with weight `weight` against the pose that
    /// moves nothing: the position scaled by the weight, the rotation one
    /// that `nlerp` gives from the identity towards this rotation, and the
    /// scale left at the unit factor.
    pub open spec fn weighs_to<F: Fn(Quat, Quat, i64) -> Quat>(
        self,
        weight: i64,
        nlerp: &F,
        r: LocalPose,
    ) -> bool {
        &&& r.node == self.node
        &&& r.position == self.position.spec_scale(weight)
        &&& r.scale == Vec3::spec_unit()
        &&& nlerp.ensures((Quat::spec_identity(), self.rotation, weight), r.rotation)
    }

    /// `r` is this pose with `other` blended into it: the position moved by
    /// `other`'s position times the weight, the rotation one that `nlerp`
    /// gives from this rotation towards `other`'s, the scale and the node kept.
    pub open spec fn blends_to<F: Fn(Quat, Quat, i64) -> Quat>(
        self,
        other: LocalPose,
        weight: i64,
        nlerp: &F,
        r: LocalPose,
    ) -> bool {
        &&& r.node == self.node
        &&& r.position == self.position.spec_plus(other.position.spec_scale(weight))
        &&& r.scale == self.scale
        &&& nlerp.ensures((self.rotation, other.rotation, weight), r.rotation)
    }

    /// The pose of `node` with the given transform.
    pub fn new(node: Handle, position: Vec3, scale: Vec3, rotation: Quat) -> (r: LocalPose)
        ensures
            r == (LocalPose { node, position, scale, rotation }),
    {
        LocalPose { node, position, scale, rotation }
    }

    /// A copy of this pose weighted for insertion into a pose that has no
    /// entry for the node yet.
    pub fn weighted_clone<F: Fn(Quat, Quat, i64) -> Quat>(&self, weight: i64, nlerp: &F) -> (r:
        LocalPose)
        requires
            takes_any_weight(nlerp),
        ensures
            self.weighs_to(weight, nlerp, r),
    {
        LocalPose {
            node: self.node,
            position: self.position.scale(weight),
            rotation: nlerp(Quat::identity(), self.rotation, weight),
            scale: Vec3::unit(),
        }
    }

    /// Blends `other` into this pose with the given weight.
    pub fn blend_with<F: Fn(Quat, Quat, i64) -> Quat>(
        &mut self,
        other: &LocalPose,
        weight: i64,
        nlerp: &F,
    )
        requires
            takes_any_weight(nlerp),
        ensures
            old(self).blends_to(*other, weight, nlerp, *final(self)),
    {
        self.position = self.position.plus(other.position.scale(weight));
        self.rotation = nlerp(self.rotation, other.rotation, weight);
    }
}

/// Every pose is filed under the node it is for.
pub open spec fn filed(poses: Map<Handle, LocalPose>) -> bool {
    forall|h: Handle| #[trigger] poses.contains_key(h) ==> poses[h].node == h
}

/// `after` is `before` with `other` blended into it: a node that both have is
/// blended in place, a node that only `other` has comes in as its weighted
/// copy, and a node that only `before` has stays as it is.
pub open spec fn blended<F: Fn(Quat, Quat, i64) -> Quat>(
    before: Map<Handle, LocalPose>,
    other: Map<Handle, LocalPose>,
    weight: i64,
    nlerp: &F,
    after: Map<Handle, LocalPose>,
) -> bool {
    &&& forall|h: Handle| #[trigger]
        after.contains_key(h) <==> before.contains_key(h) || other.contains_key(h)
    &&& forall|h: Handle| #[trigger]
        other.contains_key(h) ==> if before.contains_key(h) {
            before[h].blends_to(other[h], weight, nlerp, after[h])
        } else {
            other[h].weighs_to(weight, nlerp, after[h])
        }
    &&& forall|h: Handle| #[trigger]
        before.contains_key(h) && !other.contains_key(h) ==> after[h] == before[h]
}

/// The poses of the nodes that one animation moves, at one instant.
pub struct AnimationPose {
    local_poses: HashMap<u64, LocalPose>,
}

impl View for AnimationPose {
    type V = Map<Handle, LocalPose>;

    closed spec fn view(&self) -> Map<Handle, LocalPose> {
        Map::new(
            |h: Handle| self.local_poses@.contains_key(h.spec_key()),
            |h: Handle| self.local_poses@[h.spec_key()],
        )
    }
}

impl Default for AnimationPose {
    fn default() -> (r: AnimationPose)
        ensures
            r@ == Map::<Handle, LocalPose>::empty(),
    {
        AnimationPose::new()
    }
}

impl AnimationPose {
    /// A pose of no node.
    pub fn new() -> (r: AnimationPose)
        ensures
            r@ == Map::<Handle, LocalPose>::empty(),
            filed(r@),
    {
        let r = AnimationPose { local_poses: HashMap::new() };
        assert(r@ =~= Map::<Handle, LocalPose>::empty());
        r
    }

    /// Makes `dest` hold what this pose holds, and nothing else.
    pub fn clone_into(&self, dest: &mut AnimationPose)
        ensures
            final(dest)@ == self@,
            filed(self@) ==> filed(final(dest)@),
    {
        dest.local_poses.clear();
        let ghost all = self.local_poses.iter().remaining();
        for pair in it: self.local_poses.iter()
            invariant
                it.seq() == all,
                all == self.local_poses.iter().remaining(),
                all.no_duplicates(),
                forall|j: int|
                    0 <= j < it.index() ==> dest.local_poses@.contains_key(*(#[trigger] all[j]).0)
                        && dest.local_poses@[*all[j].0] == *all[j].1,
                forall|k: u64|
                    dest.local_poses@.contains_key(k) ==> exists|j: int|
                        0 <= j < it.index() && *(#[trigger] all[j]).0 == k,
        {
            let (handle, local_pose) = pair;
            assert(pair == all[it.index()]);
            assert forall|j: int| 0 <= j < it.index() implies *(#[trigger] all[j]).0
                != *handle by {
                assert(self.local_poses@[*all[j].0] == *all[j].1);
                assert(self.local_poses@[*handle] == *local_pose);
            }
            dest.local_poses.insert(*handle, *local_pose);
        }
        assert(dest.local_poses@ =~= self.local_poses@);
        assert(dest@ =~= self@);
    }

    /// Blends `other` into this pose with the given weight. A node that this
    /// pose has no entry for takes `other`'s entry weighted against the pose
    /// that moves nothing.
    pub fn blend_with<F: Fn(Quat, Quat, i64) -> Quat>(
        &mut self,
        other: &AnimationPose,
        weight: i64,
        nlerp: &F,
    )
        requires
            takes_any_weight(nlerp),
        ensures
            blended(old(self)@, other@, weight, nlerp, final(self)@),
            filed(old(self)@) && filed(other@) ==> filed(final(self)@),
    {
        let ghost before = self.local_poses@;
        let ghost all = other.local_poses.iter().remaining();
        for pair in it: other.local_poses.iter()
            invariant
                takes_any_weight(nlerp),
                it.seq() == all,
                all == other.local_poses.iter().remaining(),
                all.no_duplicates(),
                before == old(self).local_poses@,
                forall|j: int|
                    0 <= j < it.index() ==> self.local_poses@.contains_key(*(#[trigger] all[j]).0)
                        && if before.contains_key(*all[j].0) {
                        before[*all[j].0].blends_to(
                            *all[j].1,
                            weight,
                            nlerp,
                            self.local_poses@[*all[j].0],
                        )
                    } else {
                        all[j].1.weighs_to(weight, nlerp, self.local_poses@[*all[j].0])
                    },
                forall|k: u64| #[trigger]
                    self.local_poses@.contains_key(k) ==> before.contains_key(k) || exists|j: int|
                        0 <= j < it.index() && *(#[trigger] all[j]).0 == k,
                forall|k: u64| #[trigger]
                    before.contains_key(k) ==> self.local_poses@.contains_key(k) && ((forall|
                        j: int,
                    |
                        0 <= j < it.index() ==> *(#[trigger] all[j]).0 != k)
                        ==> self.local_poses@[k] == before[k]),
        {
            let (handle, other_pose) = pair;
            assert(pair == all[it.index()]);
            assert forall|j: int| 0 <= j < it.index() implies *(#[trigger] all[j]).0
                != *handle by {
                assert(other.local_poses@[*all[j].0] == *all[j].1);
                assert(other.local_poses@[*handle] == *other_pose);
            }
            let blended = match self.local_poses.get(handle) {
                Some(current_pose) => {
                    let mut pose = *current_pose;
                    pose.blend_with(other_pose, weight, nlerp);
                    pose
                },
                None => other_pose.weighted_clone(weight, nlerp),
            };
            self.local_poses.insert(*handle, blended);
        }
        proof {
            let after = self@;
            assert forall|h: Handle| #[trigger]
                other@.contains_key(h) implies self.local_poses@.contains_key(h.spec_key()) && if old(
                self,
            )@.contains_key(h) {
                old(self)@[h].blends_to(other@[h], weight, nlerp, after[h])
            } else {
                other@[h].weighs_to(weight, nlerp, after[h])
            } by {
                let k = h.spec_key();
                assert(other.local_poses@.contains_key(k));
                assert(all.contains((&k, &other.local_poses@[k])));
                let j = choose|j: int| 0 <= j < all.len() && all[j] == (&k, &other.local_poses@[k]);
                assert(*all[j].0 == k);
            }
            assert forall|h: Handle| #[trigger]
                old(self)@.contains_key(h) && !other@.contains_key(h) implies after[h] == old(
                self,
            )@[h] by {
                let k = h.spec_key();
                assert forall|j: int| 0 <= j < all.len() implies *(#[trigger] all[j]).0 != k by {
                    assert(other.local_poses@.contains_key(*all[j].0));
                }
            }
            assert forall|h: Handle| #[trigger]
                after.contains_key(h) implies old(self)@.contains_key(h) || other@.contains_key(
                h,
            ) by {
                let k = h.spec_key();
                if !before.contains_key(k) {
                    let j = choose|j: int| 0 <= j < all.len() && *(#[trigger] all[j]).0 == k;
                    assert(other.local_poses@.contains_key(*all[j].0));
                }
            }
        }
    }

    /// Files `local_pose` under its node, in place of any pose the node had.
    pub fn add_local_pose(&mut self, local_pose: LocalPose)
        ensures
            final(self)@ == old(self)@.insert(local_pose.node, local_pose),
            filed(old(self)@) ==> filed(final(self)@),
    {
        self.local_poses.insert(local_pose.node.key(), local_pose);
        proof {
            let target = old(self)@.insert(local_pose.node, local_pose);
            assert forall|h: Handle|
                self@.contains_key(h) == #[trigger] target.contains_key(h) && (target.contains_key(
                    h,
                ) ==> self@[h] == target[h]) by {
                Handle::lemma_key_bijective(h, 0);
                Handle::lemma_key_bijective(local_pose.node, 0);
            }
            assert(self@ =~= old(self)@.insert(local_pose.node, local_pose));
        }
    }

    /// Removes every pose.
    pub fn reset(&mut self)
        ensures
            final(self)@ == Map::<Handle, LocalPose>::empty(),
            filed(final(self)@),
    {
        self.local_poses.clear();
        assert(self@ =~= Map::<Handle, LocalPose>::empty());
    }

    /// Writes every pose into the local transform of its node in `graph`, and
    /// returns the nodes that `graph` does not have. Such a node is passed
    /// over; the others are written all the same.
    pub fn apply(&self, graph: &mut Graph) -> (missing: Vec<Handle>)
        requires
            old(graph).wf(),
        ensures
            final(graph).wf(),
            final(graph)@.dom() == old(graph)@.dom(),
            forall|h: Handle| #[trigger]
                old(graph)@.contains_key(h) ==> final(graph)@[h] == if self@.contains_key(h) {
                    old(graph)@[h].moved(self@[h].position, self@[h].rotation, self@[h].scale)
                } else {
                    old(graph)@[h]
                },
            missing@.no_duplicates(),
            forall|h: Handle|
                missing@.contains(h) <==> self@.contains_key(h) && !old(graph)@.contains_key(h),
    {
        let mut missing: Vec<Handle> = Vec::new();
        let ghost all = self.local_poses.iter().remaining();
        for pair in it: self.local_poses.iter()
            invariant
                it.seq() == all,
                all == self.local_poses.iter().remaining(),
                all.no_duplicates(),
                graph.wf(),
                graph@.dom() == old(graph)@.dom(),
                forall|h: Handle| #[trigger]
                    old(graph)@.contains_key(h) ==> graph@[h] == if exists|j: int|
                        0 <= j < it.index() && *(#[trigger] all[j]).0 == h.spec_key() {
                        old(graph)@[h].moved(self@[h].position, self@[h].rotation, self@[h].scale)
                    } else {
                        old(graph)@[h]
                    },
                missing@.no_duplicates(),
                forall|h: Handle|
                    missing@.contains(h) <==> !old(graph)@.contains_key(h) && exists|j: int|
                        0 <= j < it.index() && *(#[trigger] all[j]).0 == h.spec_key(),
        {
            let (key, local_pose) = pair;
            assert(pair == all[it.index()]);
            assert forall|j: int| 0 <= j < it.index() implies *(#[trigger] all[j]).0 != *key by {
                assert(self.local_poses@[*all[j].0] == *all[j].1);
                assert(self.local_poses@[*key] == *local_pose);
            }
            let node = Handle::from_key(*key);
            assert(self@[node] == *local_pose);
            let ghost before = graph@;
            let ghost missed = missing@;
            if graph.is_valid_handle(node) {
                let target = graph.borrow_mut(node);
                target.position = local_pose.position;
                target.rotation = local_pose.rotation;
                target.scale = local_pose.scale;
                assert(graph@.dom() =~= old(graph)@.dom());
            } else {
                missing.push(node);
                assert forall|h: Handle|
                    missing@.contains(h) <==> !old(graph)@.contains_key(h) && exists|j: int|
                        0 <= j < it.index() + 1 && *(#[trigger] all[j]).0 == h.spec_key() by {
                    Handle::lemma_key_bijective(h, *key);
                    if missing@.contains(h) {
                        let i = choose|i: int| 0 <= i < missing@.len() && missing@[i] == h;
                        if i < missed.len() {
                            assert(missed.contains(h));
                        } else {
                            assert(*all[it.index()].0 == h.spec_key());
                        }
                    }
                    if !old(graph)@.contains_key(h) && exists|j: int|
                        0 <= j < it.index() + 1 && *(#[trigger] all[j]).0 == h.spec_key() {
                        let j = choose|j: int|
                            0 <= j < it.index() + 1 && *(#[trigger] all[j]).0 == h.spec_key();
                        if j < it.index() {
                            assert(missed.contains(h));
                            let i = choose|i: int| 0 <= i < missed.len() && missed[i] == h;
                            assert(missing@[i] == h);
                        } else {
                            assert(missing@[missed.len() as int] == h);
                        }
                    }
                }
                assert(missing@.no_duplicates()) by {
                    assert(!missed.contains(node));
                    assert(missing@ =~= missed.push(node));
                }
            }
            assert forall|h: Handle| #[trigger] old(graph)@.contains_key(h) implies graph@[h]
                == if exists|j: int|
                0 <= j < it.index() + 1 && *(#[trigger] all[j]).0 == h.spec_key() {
                old(graph)@[h].moved(self@[h].position, self@[h].rotation, self@[h].scale)
            } else {
                old(graph)@[h]
            } by {
                Handle::lemma_key_bijective(h, *key);
                if h == node {
                    assert(*all[it.index()].0 == h.spec_key());
                } else {
                    assert(graph@[h] == before[h]);
                    if exists|j: int|
                        0 <= j < it.index() + 1 && *(#[trigger] all[j]).0 == h.spec_key() {
                        let j = choose|j: int|
                            0 <= j < it.index() + 1 && *(#[trigger] all[j]).0 == h.spec_key();
                        assert(j < it.index());
                    }
                }
            }
        }
        proof {
            assert forall|h: Handle| self@.contains_key(h) <==> exists|j: int|
                0 <= j < all.len() && *(#[trigger] all[j]).0 == h.spec_key() by {
                let k = h.spec_key();
                if self@.contains_key(h) {
                    assert(all.contains((&k, &self.local_poses@[k])));
                    let j = choose|j: int|
                        0 <= j < all.len() && all[j] == (&k, &self.local_poses@[k]);
                    assert(*all[j].0 == k);
                }
                if exists|j: int| 0 <= j < all.len() && *(#[trigger] all[j]).0 == k {
                    let j = choose|j: int| 0 <= j < all.len() && *(#[trigger] all[j]).0 == k;
                    assert(self.local_poses@.contains_key(*all[j].0));
                }
            }
        }
        missing
    }

    /// The pose filed under `node`, if there is one.
    pub fn get(&self, node: Handle) -> (r: Option<LocalPose>)
        ensures
            r == if self@.contains_key(node) {
                Some(self@[node])
            } else {
                None
            },
    {
        match self.local_poses.get(&node.key()) {
            Some(local_pose) => Some(*local_pose),
            None => None,
        }
    }
}

} // verus!

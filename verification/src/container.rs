//! The animations of one scene.

use vstd::prelude::*;
use crate::playback::Animation;
use crate::graph::Graph;
use crate::handle::Handle;
use crate::pool::Pool;
use crate::pose::takes_any_fraction;
use crate::vector::Quat;

verus! {

/// Why a container did not take what was saved.
#[derive(Clone, Copy, PartialEq, Eq, Structural, Debug)]
pub enum LoadError {
    /// The container held an animation: loading would mix two unrelated
    /// sets of handles.
    NotEmpty,
}

/// The arena that owns the animations of one scene.
pub struct AnimationContainer {
    pool: Pool<Animation>,
}

impl View for AnimationContainer {
    type V = Map<Handle, Animation>;

    closed spec fn view(&self) -> Map<Handle, Animation> {
        self.pool@
    }
}

impl Default for AnimationContainer {
    fn default() -> (r: AnimationContainer)
        ensures
            r.wf(),
            r@ == Map::<Handle, Animation>::empty(),
            r.capacity() == 0,
    {
        AnimationContainer::new()
    }
}

impl AnimationContainer {
    /// The pool's own validity.
    pub closed spec fn wf(&self) -> bool {
        self.pool.wf()
    }

    /// The number of slots, free ones included.
    pub closed spec fn capacity(&self) -> nat {
        self.pool.capacity()
    }

    /// Whether a free slot waits for the next animation.
    pub closed spec fn has_free_slot(&self) -> bool {
        self.pool.has_free_slot()
    }

    /// There is room for one more animation: a free slot, or a slot number
    /// left.
    pub open spec fn has_room(&self) -> bool {
        self.has_free_slot() || self.capacity() < u32::MAX
    }

    /// The handle of the animation in slot `index`, if the slot is in use.
    pub closed spec fn handle_of(&self, index: int) -> Option<Handle> {
        self.pool.handle_of(index)
    }

    /// Whether the container has ever given out `handle`, since it was last
    /// cleared.
    pub closed spec fn issued(&self, handle: Handle) -> bool {
        self.pool.issued(handle)
    }

    /// The handles of all animations, in the order of their slots.
    pub closed spec fn handles(&self) -> Seq<Handle> {
        self.pool.handles()
    }

    /// The animation in the first slot, if that slot is in use.
    pub open spec fn first(&self) -> Option<Animation> {
        match self.handle_of(0) {
            Some(h) => Some(self@[h]),
            None => None,
        }
    }

    /// Every handle of the container names a slot of it, no two name the same
    /// slot, none is the handle that refers to nothing, and a container
    /// without slots holds nothing.
    pub proof fn lemma_handles(&self)
        requires
            self.wf(),
        ensures
            forall|h: Handle| #[trigger]
                self@.contains_key(h) ==> h.index < self.capacity() && self.handle_of(
                    h.index as int,
                ) == Some(h) && h != Handle::spec_none() && self.issued(h),
            forall|i: int|
                (#[trigger] self.handle_of(i)) is Some ==> 0 <= i < self.capacity()
                    && self@.contains_key(self.handle_of(i)->0) && self.handle_of(i)->0.index
                    == i,
            self.capacity() <= u32::MAX,
    {
        self.pool.lemma_handles();
    }

    /// The handles list every animation of the container once, in the order
    /// of the slots, and nothing else.
    pub proof fn lemma_handles_listed(&self)
        requires
            self.wf(),
        ensures
            forall|h: Handle| self.handles().contains(h) <==> self@.contains_key(h),
            self.handles().no_duplicates(),
            forall|a: int, b: int|
                0 <= a < b < self.handles().len() ==> self.handles()[a].index
                    < self.handles()[b].index,
    {
        self.pool.lemma_handles();
        self.pool.lemma_handles_upto(self.pool.capacity() as int);
    }

    /// Two containers with the same number of slots, and the same slots in
    /// use under the same handles, list the same handles.
    pub proof fn lemma_handles_same(&self, other: &AnimationContainer)
        requires
            self.capacity() == other.capacity(),
            forall|i: int| #![trigger self.handle_of(i)] self.handle_of(i) == other.handle_of(i),
        ensures
            self.handles() == other.handles(),
    {
        assert forall|i: int| #![trigger self.pool.handle_of(i)] self.pool.handle_of(i)
            == other.pool.handle_of(i) by {
            assert(self.handle_of(i) == other.handle_of(i));
        }
        self.pool.lemma_handles_same(&other.pool);
    }

    /// A container without animations.
    pub fn new() -> (r: AnimationContainer)
        ensures
            r.wf(),
            r@ == Map::<Handle, Animation>::empty(),
            r.capacity() == 0,
    {
        AnimationContainer { pool: Pool::new() }
    }

    /// The number of slots, free ones included.
    pub fn get_capacity(&self) -> (r: u32)
        requires
            self.wf(),
        ensures
            r == self.capacity(),
    {
        self.pool.get_capacity()
    }

    /// The handles of all animations, in the order of their slots.
    pub fn get_handles(&self) -> (r: Vec<Handle>)
        requires
            self.wf(),
        ensures
            r@ == self.handles(),
    {
        let n = self.pool.get_capacity();
        let mut r: Vec<Handle> = Vec::new();
        let mut i: u32 = 0;
        while i < n
            invariant
                i <= n,
                n == self.capacity(),
                r@ == self.pool.handles_upto(i as int),
            decreases n - i,
        {
            match self.pool.handle_at(i) {
                Some(h) => {
                    r.push(h);
                },
                None => {},
            }
            i += 1;
        }
        r
    }

    /// All animations, in the order of their slots.
    pub fn iter(&self) -> (r: Vec<&Animation>)
        requires
            self.wf(),
        ensures
            r@.len() == self.handles().len(),
            forall|k: int|
                #![trigger r@[k]]
                0 <= k < r@.len() ==> *r@[k] == self@[self.handles()[k]] && self@.contains_key(
                    self.handles()[k],
                ),
    {
        let n = self.pool.get_capacity();
        let mut r: Vec<&Animation> = Vec::new();
        let mut i: u32 = 0;
        while i < n
            invariant
                i <= n,
                n == self.capacity(),
                self.wf(),
                r@.len() == self.pool.handles_upto(i as int).len(),
                forall|k: int|
                    #![trigger r@[k]]
                    0 <= k < r@.len() ==> *r@[k] == self@[self.pool.handles_upto(i as int)[k]]
                        && self@.contains_key(self.pool.handles_upto(i as int)[k]),
            decreases n - i,
        {
            proof {
                self.pool.lemma_handles();
            }
            match self.pool.at(i) {
                Some(animation) => {
                    r.push(animation);
                },
                None => {},
            }
            i += 1;
        }
        r
    }

    /// All animations with their handles, in the order of their slots.
    pub fn pair_iter(&self) -> (r: Vec<(Handle, &Animation)>)
        requires
            self.wf(),
        ensures
            r@.len() == self.handles().len(),
            forall|k: int|
                0 <= k < r@.len() ==> (#[trigger] r@[k]).0 == self.handles()[k]
                    && self@.contains_key(self.handles()[k]) && *r@[k].1
                    == self@[self.handles()[k]],
    {
        let n = self.pool.get_capacity();
        let mut r: Vec<(Handle, &Animation)> = Vec::new();
        let mut i: u32 = 0;
        while i < n
            invariant
                i <= n,
                n == self.capacity(),
                self.wf(),
                r@.len() == self.pool.handles_upto(i as int).len(),
                forall|k: int|
                    0 <= k < r@.len() ==> (#[trigger] r@[k]).0 == self.pool.handles_upto(i as int)[k]
                        && self@.contains_key(self.pool.handles_upto(i as int)[k]) && *r@[k].1
                        == self@[self.pool.handles_upto(i as int)[k]],
            decreases n - i,
        {
            proof {
                self.pool.lemma_handles();
            }
            match self.pool.handle_at(i) {
                Some(h) => {
                    r.push((h, self.pool.borrow(h)));
                },
                None => {},
            }
            i += 1;
        }
        r
    }

    /// All animations, for change, in the order of their slots. The container
    /// ends up with what the references are left with, and is otherwise as
    /// it was.
    pub fn iter_mut(&mut self) -> (r: Vec<&mut Animation>)
        requires
            old(self).wf(),
        ensures
            r@.len() == old(self).handles().len(),
            forall|k: int|
                #![trigger r@[k]]
                0 <= k < r@.len() ==> *r@[k] == old(self)@[old(self).handles()[k]] && old(
                    self,
                )@.contains_key(old(self).handles()[k]),
            forall|k: int|
                #![trigger r@[k]]
                0 <= k < r@.len() ==> *final(r@[k]) == final(self)@[old(self).handles()[k]],
            final(self).wf(),
            final(self).capacity() == old(self).capacity(),
            final(self)@.dom() == old(self)@.dom(),
            forall|i: int|
                #![trigger final(self).handle_of(i)]
                final(self).handle_of(i) == old(self).handle_of(i),
            forall|h: Handle|
                #![trigger final(self).issued(h)]
                final(self).issued(h) == old(self).issued(h),
    {
        self.pool.iter_mut()
    }

    /// All animations with their handles, for change, in the order of their
    /// slots. The container ends up with what the references are left with,
    /// and is otherwise as it was.
    pub fn pair_iter_mut(&mut self) -> (r: Vec<(Handle, &mut Animation)>)
        requires
            old(self).wf(),
        ensures
            r@.len() == old(self).handles().len(),
            forall|k: int|
                #![trigger r@[k]]
                0 <= k < r@.len() ==> r@[k].0 == old(self).handles()[k] && old(self)@.contains_key(
                    r@[k].0,
                ) && *r@[k].1 == old(self)@[r@[k].0] && final(self)@[r@[k].0] == *final(r@[k].1),
            final(self).wf(),
            final(self).capacity() == old(self).capacity(),
            final(self)@.dom() == old(self)@.dom(),
            forall|i: int|
                #![trigger final(self).handle_of(i)]
                final(self).handle_of(i) == old(self).handle_of(i),
            forall|h: Handle|
                #![trigger final(self).issued(h)]
                final(self).issued(h) == old(self).issued(h),
    {
        self.pool.pair_iter_mut()
    }

    /// Takes `animation` in and gives out its handle. The handle is new: the
    /// container has not given it out before, and every other handle reaches
    /// what it reached.
    pub fn add(&mut self, animation: Animation) -> (r: Handle)
        requires
            old(self).wf(),
            old(self).has_room(),
        ensures
            final(self).wf(),
            !old(self)@.contains_key(r),
            !old(self).issued(r),
            r != Handle::spec_none(),
            final(self)@ == old(self)@.insert(r, animation),
            forall|h: Handle|
                #![trigger final(self).issued(h)]
                final(self).issued(h) <==> old(self).issued(h) || h == r,
            old(self).capacity() <= final(self).capacity() <= old(self).capacity() + 1,
    {
        self.pool.spawn(animation)
    }

    /// Whether the container holds no animation. Slots that were left free
    /// do not count.
    pub fn is_empty(&self) -> (r: bool)
        requires
            self.wf(),
        ensures
            r == (self@.dom() == Set::<Handle>::empty()),
            r == (forall|h: Handle| !self@.contains_key(h)),
    {
        let r = self.pool.is_empty();
        assert(r == (forall|h: Handle| !self.pool@.contains_key(h)));
        r
    }

    /// Whether one more animation can be taken in.
    pub fn can_add(&self) -> (r: bool)
        requires
            self.wf(),
        ensures
            r == self.has_room(),
    {
        self.pool.can_spawn()
    }

    /// Removes the animation that `handle` reaches, if there is one. The
    /// handle reaches nothing from then on.
    pub fn remove(&mut self, handle: Handle)
        requires
            old(self).wf(),
        ensures
            final(self).wf(),
            final(self)@ == old(self)@.remove(handle),
            final(self).capacity() == old(self).capacity(),
            forall|h: Handle|
                #![trigger final(self).issued(h)]
                final(self).issued(h) == old(self).issued(h),
    {
        let _ = self.pool.free(handle);
    }

    /// Removes all animations and all slots.
    pub fn clear(&mut self)
        ensures
            final(self).wf(),
            final(self)@ == Map::<Handle, Animation>::empty(),
            final(self).capacity() == 0,
    {
        self.pool.clear()
    }

    /// Whether `handle` reaches an animation.
    pub fn is_valid_handle(&self, handle: Handle) -> (r: bool)
        ensures
            r == self@.contains_key(handle),
    {
        self.pool.is_valid_handle(handle)
    }

    /// The animation that `handle` reaches.
    pub fn get(&self, handle: Handle) -> (r: &Animation)
        requires
            self@.contains_key(handle),
        ensures
            *r == self@[handle],
    {
        self.pool.borrow(handle)
    }

    /// The animation that `handle` reaches, if there is one.
    pub fn try_get(&self, handle: Handle) -> (r: Option<&Animation>)
        ensures
            r == if self@.contains_key(handle) {
                Some(&self@[handle])
            } else {
                None
            },
    {
        self.pool.try_borrow(handle)
    }

    /// The animation that `handle` reaches, for change. No other animation
    /// changes.
    pub fn get_mut(&mut self, handle: Handle) -> (r: &mut Animation)
        requires
            old(self).wf(),
            old(self)@.contains_key(handle),
        ensures
            *r == old(self)@[handle],
            final(self).wf(),
            final(self)@ == old(self)@.insert(handle, *final(r)),
            final(self).capacity() == old(self).capacity(),
            forall|i: int|
                #![trigger final(self).handle_of(i)]
                final(self).handle_of(i) == old(self).handle_of(i),
            forall|h: Handle|
                #![trigger final(self).issued(h)]
                final(self).issued(h) == old(self).issued(h),
    {
        self.pool.borrow_mut(handle)
    }

    /// The animation in slot `index`, if the slot is in use.
    pub fn at(&self, index: u32) -> (r: Option<&Animation>)
        ensures
            r == match self.handle_of(index as int) {
                Some(h) => Some(&self@[h]),
                None => None,
            },
    {
        self.pool.at(index)
    }

    /// Keeps the animations that `pred` accepts and removes the others.
    pub fn retain<P: Fn(&Animation) -> bool>(&mut self, pred: P)
        requires
            old(self).wf(),
            forall|animation: &Animation| pred.requires((animation,)),
        ensures
            final(self).wf(),
            final(self).capacity() == old(self).capacity(),
            forall|h: Handle|
                #![trigger final(self).issued(h)]
                final(self).issued(h) == old(self).issued(h),
            forall|h: Handle| #[trigger]
                final(self)@.contains_key(h) ==> old(self)@.contains_key(h) && final(self)@[h]
                    == old(self)@[h] && pred.ensures((&old(self)@[h],), true),
            forall|h: Handle| #[trigger]
                old(self)@.contains_key(h) && !final(self)@.contains_key(h) ==> pred.ensures(
                    (&old(self)@[h],),
                    false,
                ),
    {
        let n = self.pool.get_capacity();
        let mut i: u32 = 0;
        while i < n
            invariant
                i <= n,
                n == self.pool.capacity(),
                self.pool.wf(),
                self.pool.capacity() == old(self).pool.capacity(),
                old(self).pool.wf(),
                forall|h: Handle|
                    #![trigger self.pool.issued(h)]
                    self.pool.issued(h) == old(self).pool.issued(h),
                forall|animation: &Animation| pred.requires((animation,)),
                forall|k: int|
                    #![trigger self.pool.handle_of(k)]
                    k >= i ==> self.pool.handle_of(k) == old(self).pool.handle_of(k),
                forall|h: Handle| #[trigger]
                    self.pool@.contains_key(h) ==> old(self).pool@.contains_key(h) && self.pool@[h]
                        == old(self).pool@[h] && (h.index < i ==> pred.ensures(
                        (&old(self).pool@[h],),
                        true,
                    )),
                forall|h: Handle| #[trigger]
                    old(self).pool@.contains_key(h) && !self.pool@.contains_key(h) ==> h.index < i
                        && pred.ensures((&old(self).pool@[h],), false),
            decreases n - i,
        {
            proof {
                self.pool.lemma_handles();
                old(self).pool.lemma_handles();
            }
            let ghost before = self.pool;
            match self.pool.handle_at(i) {
                Some(h) => {
                    let keep = pred(self.pool.borrow(h));
                    if !keep {
                        let _ = self.pool.free(h);
                        proof {
                            assert forall|k: int|
                                #![trigger self.pool.handle_of(k)]
                                k >= i + 1 implies self.pool.handle_of(k) == before.handle_of(k) by {
                                self.pool.lemma_handles();
                                if self.pool.handle_of(k) is Some {
                                    assert(before@.contains_key(self.pool.handle_of(k)->0));
                                }
                                if before.handle_of(k) is Some {
                                    assert(self.pool@.contains_key(before.handle_of(k)->0));
                                }
                            }
                        }
                    }
                },
                None => {},
            }
            i += 1;
        }
        proof {
            self.pool.lemma_handles();
        }
    }

    /// Retargets every animation in `graph`, and returns for each, in the
    /// order of the slots, its handle and the indices of its tracks that
    /// found no reference track of their name.
    pub fn resolve(&mut self, graph: &Graph) -> (r: Vec<(Handle, Vec<usize>)>)
        requires
            old(self).wf(),
        ensures
            final(self).wf(),
            final(self).capacity() == old(self).capacity(),
            final(self)@.dom() == old(self)@.dom(),
            forall|i: int|
                #![trigger final(self).handle_of(i)]
                final(self).handle_of(i) == old(self).handle_of(i),
            forall|h: Handle|
                #![trigger final(self).issued(h)]
                final(self).issued(h) == old(self).issued(h),
            r@.len() == old(self).handles().len(),
            forall|k: int|
                #![trigger r@[k]]
                0 <= k < r@.len() ==> r@[k].0 == old(self).handles()[k] && old(self)@.contains_key(
                    r@[k].0,
                ) && old(self)@[r@[k].0]@.resolves_to(graph@, final(self)@[r@[k].0]@, r@[k].1@),
    {
        let n = self.pool.get_capacity();
        let mut r: Vec<(Handle, Vec<usize>)> = Vec::new();
        let mut i: u32 = 0;
        while i < n
            invariant
                i <= n,
                n == self.pool.capacity(),
                self.pool.wf(),
                self.pool.capacity() == old(self).pool.capacity(),
                self.pool@.dom() == old(self).pool@.dom(),
                forall|h: Handle|
                    #![trigger self.pool.issued(h)]
                    self.pool.issued(h) == old(self).pool.issued(h),
                forall|k: int|
                    #![trigger self.pool.handle_of(k)]
                    self.pool.handle_of(k) == old(self).pool.handle_of(k),
                forall|h: Handle| #[trigger]
                    self.pool@.contains_key(h) && h.index >= i ==> self.pool@[h] == old(
                        self,
                    ).pool@[h],
                r@.len() == old(self).pool.handles_upto(i as int).len(),
                forall|k: int|
                    #![trigger r@[k]]
                    0 <= k < r@.len() ==> r@[k].0 == old(self).pool.handles_upto(i as int)[k] && r@[k].0.index
                        < i && old(self).pool@.contains_key(r@[k].0) && old(
                        self,
                    ).pool@[r@[k].0]@.resolves_to(graph@, self.pool@[r@[k].0]@, r@[k].1@),
            decreases n - i,
        {
            proof {
                self.pool.lemma_handles();
            }
            let ghost before = self.pool;
            let ghost listed = r@;
            let ghost upto = old(self).pool.handles_upto(i as int);
            assert(old(self).pool.handle_of(i as int) == self.pool.handle_of(i as int));
            match self.pool.handle_at(i) {
                Some(h) => {
                    let animation = self.pool.borrow_mut(h);
                    let unresolved = animation.resolve(graph);
                    r.push((h, unresolved));
                    proof {
                        assert(self.pool@ == before@.insert(h, self.pool@[h]));
                        assert(self.pool@.dom() =~= old(self).pool@.dom());
                        assert(old(self).pool.handles_upto(i + 1) == upto.push(h));
                        assert forall|k: int|
                            #![trigger r@[k]]
                            0 <= k < r@.len() implies r@[k].0 == old(self).pool.handles_upto(i + 1)[k]
                            && r@[k].0.index < i + 1 && old(self).pool@.contains_key(r@[k].0) && old(
                            self,
                        ).pool@[r@[k].0]@.resolves_to(graph@, self.pool@[r@[k].0]@, r@[k].1@) by {
                            if k < listed.len() {
                                assert(r@[k] == listed[k]);
                                assert(listed[k].0 != h);
                                assert(self.pool@[listed[k].0] == before@[listed[k].0]);
                            } else {
                                assert(r@[k] == (h, unresolved));
                            }
                        }
                    }
                },
                None => {
                    assert(old(self).pool.handles_upto(i + 1) == upto);
                },
            }
            i += 1;
        }
        r
    }

    /// Advances every enabled animation by `dt`. A disabled animation is
    /// passed over: it gets no pose, raises no event and stays where it is.
    pub fn update_animations<F: Fn(Quat, Quat, i64) -> Quat>(&mut self, dt: i64, slerp: &F)
        requires
            old(self).wf(),
            takes_any_fraction(slerp),
        ensures
            final(self).wf(),
            final(self).capacity() == old(self).capacity(),
            final(self)@.dom() == old(self)@.dom(),
            forall|i: int|
                #![trigger final(self).handle_of(i)]
                final(self).handle_of(i) == old(self).handle_of(i),
            forall|h: Handle|
                #![trigger final(self).issued(h)]
                final(self).issued(h) == old(self).issued(h),
            forall|h: Handle| #[trigger]
                old(self)@.contains_key(h) ==> if old(self)@[h]@.enabled {
                    old(self)@[h]@.ticks_to(dt, slerp, final(self)@[h]@)
                } else {
                    final(self)@[h] == old(self)@[h]
                },
    {
        let n = self.pool.get_capacity();
        let mut i: u32 = 0;
        while i < n
            invariant
                i <= n,
                n == self.pool.capacity(),
                self.pool.wf(),
                takes_any_fraction(slerp),
                self.pool.capacity() == old(self).pool.capacity(),
                self.pool@.dom() == old(self).pool@.dom(),
                forall|h: Handle|
                    #![trigger self.pool.issued(h)]
                    self.pool.issued(h) == old(self).pool.issued(h),
                forall|k: int|
                    #![trigger self.pool.handle_of(k)]
                    self.pool.handle_of(k) == old(self).pool.handle_of(k),
                forall|h: Handle| #[trigger]
                    old(self).pool@.contains_key(h) ==> if h.index < i && old(
                        self,
                    ).pool@[h]@.enabled {
                        old(self).pool@[h]@.ticks_to(dt, slerp, self.pool@[h]@)
                    } else {
                        self.pool@[h] == old(self).pool@[h]
                    },
            decreases n - i,
        {
            proof {
                self.pool.lemma_handles();
            }
            let ghost before = self.pool;
            match self.pool.handle_at(i) {
                Some(h) => {
                    let animation = self.pool.borrow_mut(h);
                    if animation.is_enabled() {
                        animation.tick(dt, slerp);
                    }
                    proof {
                        assert(self.pool@ == before@.insert(h, self.pool@[h]));
                        assert(self.pool@.dom() =~= old(self).pool@.dom());
                    }
                },
                None => {},
            }
            i += 1;
        }
        proof {
            old(self).pool.lemma_handles();
        }
    }

    /// Takes over what was saved, slots and handles as they were. Only a
    /// container that holds no animation does so, whether it has never held
    /// one, was cleared, or has had every animation removed; one that holds
    /// an animation refuses and stays as it is.
    pub fn load(&mut self, saved: AnimationContainer) -> (r: Result<(), LoadError>)
        requires
            old(self).wf(),
        ensures
            r is Ok <==> old(self)@.dom() == Set::<Handle>::empty(),
            r is Err <==> exists|h: Handle| old(self)@.contains_key(h),
            r is Err ==> r == Err::<(), LoadError>(LoadError::NotEmpty),
            r is Ok ==> *final(self) == saved,
            r is Err ==> *final(self) == *old(self),
    {
        if !self.pool.is_empty() {
            return Err(LoadError::NotEmpty);
        }
        *self = saved;
        Ok(())
    }
}

} // verus!

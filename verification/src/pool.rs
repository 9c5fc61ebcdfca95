//! A generational arena: values behind handles that stay put when other
//! values leave, and that go stale when their own value leaves.

use vstd::prelude::*;
use crate::handle::Handle;

verus! {

struct Record<T> {
    generation: u32,
    payload: Option<T>,
}

/// An arena of values of one type. A handle reaches the value it was given
/// out for, as long as that value is in the pool, and nothing else.
pub struct Pool<T> {
    records: Vec<Record<T>>,
    free_stack: Vec<u32>,
}

impl<T> View for Pool<T> {
    type V = Map<Handle, T>;

    closed spec fn view(&self) -> Map<Handle, T> {
        Map::new(
            |h: Handle|
                h.index < self.records.len() && self.records[h.index as int].generation
                    == h.generation && self.records[h.index as int].payload is Some,
            |h: Handle| self.records[h.index as int].payload->0,
        )
    }
}

impl<T> Pool<T> {
    /// The number of slots, free ones included.
    pub closed spec fn capacity(&self) -> nat {
        self.records.len() as nat
    }

    /// Whether a free slot waits for the next value.
    pub closed spec fn has_free_slot(&self) -> bool {
        self.free_stack.len() > 0
    }

    /// The slots are numbered by a `u32`; a slot in use has a generation above
    /// zero; the free list names free slots only, each once, and none whose
    /// generation is spent.
    pub closed spec fn wf(&self) -> bool {
        &&& self.records.len() <= u32::MAX
        &&& forall|i: int|
            0 <= i < self.records.len() && (#[trigger] self.records[i]).payload is Some
                ==> self.records[i].generation >= 1
        &&& forall|j: int|
            0 <= j < self.free_stack.len() ==> {
                &&& (#[trigger] self.free_stack[j]) < self.records.len()
                &&& self.records[self.free_stack[j] as int].payload is None
                &&& self.records[self.free_stack[j] as int].generation < u32::MAX
            }
        &&& forall|j: int, k: int|
            0 <= j < k < self.free_stack.len() ==> self.free_stack[j] != self.free_stack[k]
    }

    /// There is room for one more value: a free slot, or a slot number left.
    pub open spec fn has_room(&self) -> bool {
        self.has_free_slot() || self.capacity() < u32::MAX
    }

    /// The handle of the value in slot `index`, if the slot is in use.
    pub closed spec fn handle_of(&self, index: int) -> Option<Handle> {
        if 0 <= index < self.records.len() && self.records[index].payload is Some {
            Some(Handle { index: index as u32, generation: self.records[index].generation })
        } else {
            None
        }
    }

    /// The handles of the values in the first `n` slots, in the order of the
    /// slots.
    pub open spec fn handles_upto(&self, n: int) -> Seq<Handle>
        decreases n,
    {
        if n <= 0 {
            Seq::empty()
        } else {
            match self.handle_of(n - 1) {
                Some(h) => self.handles_upto(n - 1).push(h),
                None => self.handles_upto(n - 1),
            }
        }
    }

    /// The handles of all values, in the order of their slots.
    pub open spec fn handles(&self) -> Seq<Handle> {
        self.handles_upto(self.capacity() as int)
    }

    /// The handles up to a slot are those of the pool whose slot comes before
    /// it, each once, in the order of the slots.
    pub proof fn lemma_handles_upto(&self, n: int)
        requires
            self.wf(),
            0 <= n <= self.capacity(),
        ensures
            forall|h: Handle|
                self.handles_upto(n).contains(h) <==> self@.contains_key(h) && h.index < n,
            self.handles_upto(n).no_duplicates(),
            forall|a: int, b: int|
                0 <= a < b < self.handles_upto(n).len() ==> self.handles_upto(n)[a].index
                    < self.handles_upto(n)[b].index,
        decreases n,
    {
        self.lemma_handles();
        if n > 0 {
            self.lemma_handles_upto(n - 1);
            let before = self.handles_upto(n - 1);
            let now = self.handles_upto(n);
            assert forall|h: Handle| now.contains(h) <==> self@.contains_key(h) && h.index
                < n by {
                if now.contains(h) {
                    let k = choose|k: int| 0 <= k < now.len() && now[k] == h;
                    if k < before.len() {
                        assert(before[k] == h);
                        assert(before.contains(h));
                    }
                }
                if self@.contains_key(h) && h.index < n {
                    if h.index < n - 1 {
                        assert(before.contains(h));
                        let k = choose|k: int| 0 <= k < before.len() && before[k] == h;
                        assert(now[k] == h);
                    } else {
                        assert(self.handle_of(n - 1) == Some(h));
                        assert(now[before.len() as int] == h);
                    }
                }
            }
            if self.handle_of(n - 1) is Some {
                assert(!before.contains(self.handle_of(n - 1)->0));
                assert forall|a: int, b: int| 0 <= a < b < now.len() implies now[a].index
                    < now[b].index by {
                    if b == before.len() {
                        assert(before.contains(before[a]));
                    }
                }
            }
        }
    }

    /// Two pools with the same number of slots, and the same slots in use
    /// under the same handles, list the same handles.
    pub proof fn lemma_handles_same(&self, other: &Pool<T>)
        requires
            self.capacity() == other.capacity(),
            forall|i: int| #![trigger self.handle_of(i)] self.handle_of(i) == other.handle_of(i),
        ensures
            self.handles() == other.handles(),
    {
        self.lemma_handles_upto_same(other, self.capacity() as int);
    }

    proof fn lemma_handles_upto_same(&self, other: &Pool<T>, n: int)
        requires
            forall|i: int| #![trigger self.handle_of(i)] self.handle_of(i) == other.handle_of(i),
        ensures
            self.handles_upto(n) == other.handles_upto(n),
        decreases n,
    {
        if n > 0 {
            self.lemma_handles_upto_same(other, n - 1);
        }
    }

    /// The handle of a slot in use stands among the handles up to any later
    /// slot, at the place that the number of handles before it gives.
    proof fn lemma_handles_upto_place(&self, j: int, n: int)
        requires
            0 <= j < n,
        ensures
            self.handles_upto(j).len() <= self.handles_upto(n).len(),
            self.handle_of(j) is Some ==> self.handles_upto(j).len() < self.handles_upto(n).len()
                && self.handles_upto(n)[self.handles_upto(j).len() as int] == self.handle_of(j)->0,
        decreases n,
    {
        if j < n - 1 {
            self.lemma_handles_upto_place(j, n - 1);
        }
    }

    /// Whether the pool has ever given out `handle`, since it was last
    /// cleared. A handle that was given out and reaches nothing is stale.
    pub closed spec fn issued(&self, handle: Handle) -> bool {
        handle.index < self.records.len() && 1 <= handle.generation
            <= self.records[handle.index as int].generation
    }

    /// Every handle of the pool names a slot of it, no two name the same
    /// slot, and none is the handle that refers to nothing.
    pub proof fn lemma_handles(&self)
        requires
            self.wf(),
        ensures
            forall|h: Handle| #[trigger]
                self@.contains_key(h) ==> h.index < self.capacity() && self.handle_of(
                    h.index as int,
                ) == Some(h) && h != Handle::spec_none(),
            forall|i: int|
                (#[trigger] self.handle_of(i)) is Some ==> 0 <= i < self.capacity()
                    && self@.contains_key(self.handle_of(i)->0) && self.handle_of(i)->0.index
                    == i,
            forall|h: Handle| #[trigger] self@.contains_key(h) ==> self.issued(h),
            self.capacity() <= u32::MAX,
    {
    }

    /// A pool without slots.
    pub fn new() -> (r: Pool<T>)
        ensures
            r.wf(),
            r@ == Map::<Handle, T>::empty(),
            r.capacity() == 0,
    {
        let r = Pool { records: Vec::new(), free_stack: Vec::new() };
        assert(r@ =~= Map::<Handle, T>::empty());
        r
    }

    /// Puts `value` into the pool and gives out its handle. The handle is new:
    /// it reached nothing before, and every other handle reaches what it
    /// reached.
    pub fn spawn(&mut self, value: T) -> (r: Handle)
        requires
            old(self).wf(),
            old(self).has_room(),
        ensures
            final(self).wf(),
            !old(self)@.contains_key(r),
            r != Handle::spec_none(),
            final(self)@ == old(self)@.insert(r, value),
            old(self).capacity() <= final(self).capacity() <= old(self).capacity() + 1,
            !old(self).issued(r),
            forall|h: Handle|
                #![trigger final(self).issued(h)]
                final(self).issued(h) <==> old(self).issued(h) || h == r,
    {
        match self.free_stack.pop() {
            Some(index) => {
                let i = index as usize;
                let generation = self.records[i].generation + 1;
                self.records[i] = Record { generation, payload: Some(value) };
                let r = Handle { index, generation };
                assert(self@ =~= old(self)@.insert(r, value));
                r
            },
            None => {
                let index = self.records.len() as u32;
                self.records.push(Record { generation: 1, payload: Some(value) });
                let r = Handle { index, generation: 1 };
                assert(self@ =~= old(self)@.insert(r, value));
                r
            },
        }
    }

    /// Whether the pool holds no value. Slots that were left free do not
    /// count.
    pub fn is_empty(&self) -> (r: bool)
        requires
            self.wf(),
        ensures
            r == (self@.dom() == Set::<Handle>::empty()),
            r == (forall|h: Handle| !self@.contains_key(h)),
    {
        let mut i: usize = 0;
        while i < self.records.len()
            invariant
                self.wf(),
                i <= self.records.len(),
                forall|k: int| 0 <= k < i ==> (#[trigger] self.records[k]).payload is None,
            decreases self.records.len() - i,
        {
            if self.records[i].payload.is_some() {
                proof {
                    let h = Handle {
                        index: i as u32,
                        generation: self.records[i as int].generation,
                    };
                    assert(self@.contains_key(h));
                    assert(self@.dom().contains(h));
                }
                return false;
            }
            i += 1;
        }
        assert(self@.dom() =~= Set::<Handle>::empty());
        true
    }

    /// Whether there is room for one more value.
    pub fn can_spawn(&self) -> (r: bool)
        requires
            self.wf(),
        ensures
            r == self.has_room(),
    {
        self.free_stack.len() > 0 || self.records.len() < u32::MAX as usize
    }

    /// Takes the value that `handle` reaches out of the pool, if there is one.
    /// The handle, and every copy of it, reaches nothing from then on.
    pub fn free(&mut self, handle: Handle) -> (r: Option<T>)
        requires
            old(self).wf(),
        ensures
            final(self).wf(),
            r == if old(self)@.contains_key(handle) {
                Some(old(self)@[handle])
            } else {
                None
            },
            final(self)@ == old(self)@.remove(handle),
            final(self).capacity() == old(self).capacity(),
            forall|h: Handle|
                #![trigger final(self).issued(h)]
                final(self).issued(h) == old(self).issued(h),
    {
        let i = handle.index as usize;
        if i < self.records.len() && self.records[i].generation == handle.generation
            && self.records[i].payload.is_some() {
            let r = self.records[i].payload.take();
            if handle.generation < u32::MAX {
                self.free_stack.push(handle.index);
            }
            assert(self@ =~= old(self)@.remove(handle));
            r
        } else {
            assert(self@ =~= old(self)@.remove(handle));
            None
        }
    }

    /// Empties the pool of values and of slots.
    pub fn clear(&mut self)
        ensures
            final(self).wf(),
            final(self)@ == Map::<Handle, T>::empty(),
            final(self).capacity() == 0,
    {
        self.records.clear();
        self.free_stack.clear();
        assert(self@ =~= Map::<Handle, T>::empty());
    }

    /// The number of slots, free ones included.
    pub fn get_capacity(&self) -> (r: u32)
        requires
            self.wf(),
        ensures
            r == self.capacity(),
    {
        self.records.len() as u32
    }

    /// Whether `handle` reaches a value of the pool.
    pub fn is_valid_handle(&self, handle: Handle) -> (r: bool)
        ensures
            r == self@.contains_key(handle),
    {
        let i = handle.index as usize;
        i < self.records.len() && self.records[i].generation == handle.generation
            && self.records[i].payload.is_some()
    }

    /// The handle of the value in slot `index`, if the slot is in use.
    pub fn handle_at(&self, index: u32) -> (r: Option<Handle>)
        ensures
            r == self.handle_of(index as int),
    {
        let i = index as usize;
        if i < self.records.len() && self.records[i].payload.is_some() {
            Some(Handle { index, generation: self.records[i].generation })
        } else {
            None
        }
    }

    /// The value in slot `index`, if the slot is in use.
    pub fn at(&self, index: u32) -> (r: Option<&T>)
        ensures
            r == match self.handle_of(index as int) {
                Some(h) => Some(&self@[h]),
                None => None,
            },
    {
        let i = index as usize;
        if i < self.records.len() {
            self.records[i].payload.as_ref()
        } else {
            None
        }
    }

    /// The value that `handle` reaches, if there is one.
    pub fn try_borrow(&self, handle: Handle) -> (r: Option<&T>)
        ensures
            r == if self@.contains_key(handle) {
                Some(&self@[handle])
            } else {
                None
            },
    {
        let i = handle.index as usize;
        if i < self.records.len() && self.records[i].generation == handle.generation {
            self.records[i].payload.as_ref()
        } else {
            None
        }
    }

    /// The value that `handle` reaches.
    pub fn borrow(&self, handle: Handle) -> (r: &T)
        requires
            self@.contains_key(handle),
        ensures
            *r == self@[handle],
    {
        match &self.records[handle.index as usize].payload {
            Some(value) => value,
            None => vstd::pervasive::unreached(),
        }
    }

    /// All values with their handles, for change, in the order of their
    /// slots. The pool ends up with what the references are left with, and is
    /// otherwise as it was.
    pub fn pair_iter_mut(&mut self) -> (r: Vec<(Handle, &mut T)>)
        requires
            old(self).wf(),
        ensures
            r@.len() == old(self).handles().len(),
            forall|k: int|
                #![trigger r@[k]]
                0 <= k < r@.len() ==> r@[k].0 == old(self).handles()[k] && old(self)@.contains_key(
                    r@[k].0,
                ) && *r@[k].1 == old(self)@[r@[k].0] && final(self)@[r@[k].0] == *final(r@[k].1),
            final(self).wf(),
            final(self).capacity() == old(self).capacity(),
            final(self)@.dom() == old(self)@.dom(),
            forall|i: int|
                #![trigger final(self).handle_of(i)]
                final(self).handle_of(i) == old(self).handle_of(i),
            forall|h: Handle|
                #![trigger final(self).issued(h)]
                final(self).issued(h) == old(self).issued(h),
    {
        let mut out: Vec<(Handle, &mut T)> = Vec::new();
        let ghost goal = final(self).records@;
        let ghost start = self.records@;
        let ghost whole = *self;
        let total = self.records.len();
        let mut rest: &mut [Record<T>] = self.records.as_mut_slice();
        let mut i: usize = 0;
        while rest.len() > 0
            invariant
                whole == *old(self),
                whole.wf(),
                start == whole.records@,
                total == start.len(),
                0 <= i <= start.len(),
                rest@ == start.subrange(i as int, start.len() as int),
                out@.len() == whole.handles_upto(i as int).len(),
                forall|k: int|
                    #![trigger out@[k]]
                    0 <= k < out@.len() ==> out@[k].0 == whole.handles_upto(i as int)[k]
                        && out@[k].0.index < i && *out@[k].1 == start[out@[k].0.index as int].payload->0
                        && start[out@[k].0.index as int].payload is Some && out@[k].0.generation
                        == start[out@[k].0.index as int].generation && whole.handles_upto(
                        out@[k].0.index as int,
                    ).len() == k,
                goal == Seq::new(
                    i as nat,
                    |j: int|
                        Record {
                            generation: start[j].generation,
                            payload: if start[j].payload is Some {
                                Some(*final(out@[whole.handles_upto(j).len() as int].1))
                            } else {
                                None
                            },
                        },
                ) + final(rest)@,
            decreases rest@.len(),
        {
            let ghost fin = final(rest)@;
            let ghost listed = out@;
            let ghost upto = whole.handles_upto(i as int);
            let (head, tail) = rest.split_at_mut(1);
            let ghost fin_head = final(head)@;
            let ghost fin_tail = final(tail)@;
            assert(fin == fin_head + fin_tail);
            assert(head@ =~= seq![start[i as int]]);
            match head.first_mut() {
                Some(slot) => {
                    let generation = slot.generation;
                    match &mut slot.payload {
                        Some(value) => {
                            assert(fin_head =~= seq![
                                Record { generation, payload: Some(*final(value)) },
                            ]);
                            out.push((Handle { index: i as u32, generation }, value));
                            assert(whole.handles_upto(i + 1) == upto.push(
                                Handle { index: i as u32, generation },
                            ));
                        },
                        None => {
                            assert(fin_head =~= seq![
                                Record { generation, payload: None::<T> },
                            ]);
                            assert(whole.handles_upto(i + 1) == upto);
                        },
                    }
                },
                None => {},
            }
            rest = tail;
            i += 1;
            proof {
                assert(forall|k: int| 0 <= k < listed.len() ==> out@[k] == listed[k]);
                assert(rest@ =~= start.subrange(i as int, start.len() as int));
                assert forall|j: int| 0 <= j < i - 1 && start[j].payload is Some implies whole.handles_upto(
                    j,
                ).len() < listed.len() by {
                    whole.lemma_handles_upto_place(j, i - 1);
                }
                assert(goal =~= Seq::new(
                    i as nat,
                    |j: int|
                        Record {
                            generation: start[j].generation,
                            payload: if start[j].payload is Some {
                                Some(*final(out@[whole.handles_upto(j).len() as int].1))
                            } else {
                                None
                            },
                        },
                ) + final(rest)@);
            }
        }
        proof {
            whole.lemma_handles();
            assert(final(rest)@ =~= rest@);
            assert(goal =~= Seq::new(
                i as nat,
                |j: int|
                    Record {
                        generation: start[j].generation,
                        payload: if start[j].payload is Some {
                            Some(*final(out@[whole.handles_upto(j).len() as int].1))
                        } else {
                            None
                        },
                    },
            ));
        }
        out
    }

    /// All values, for change, in the order of their slots. The pool ends up
    /// with what the references are left with, and is otherwise as it was.
    pub fn iter_mut(&mut self) -> (r: Vec<&mut T>)
        requires
            old(self).wf(),
        ensures
            r@.len() == old(self).handles().len(),
            forall|k: int|
                #![trigger r@[k]]
                0 <= k < r@.len() ==> *r@[k] == old(self)@[old(self).handles()[k]] && old(
                    self,
                )@.contains_key(old(self).handles()[k]),
            forall|k: int|
                #![trigger r@[k]]
                0 <= k < r@.len() ==> *final(r@[k]) == final(self)@[old(self).handles()[k]],
            final(self).wf(),
            final(self).capacity() == old(self).capacity(),
            final(self)@.dom() == old(self)@.dom(),
            forall|i: int|
                #![trigger final(self).handle_of(i)]
                final(self).handle_of(i) == old(self).handle_of(i),
            forall|h: Handle|
                #![trigger final(self).issued(h)]
                final(self).issued(h) == old(self).issued(h),
    {
        let pairs = self.pair_iter_mut();
        let ghost listed = pairs@;
        let mut out: Vec<&mut T> = Vec::new();
        for pair in it: pairs
            invariant
                it.seq() == listed,
                out@.len() == it.index(),
                forall|k: int|
                    #![trigger out@[k]]
                    0 <= k < out@.len() ==> *out@[k] == *listed[k].1 && *final(out@[k])
                        == *final(listed[k].1),
        {
            let ghost before = out@;
            assert(pair == listed[it.index()]);
            out.push(pair.1);
            assert(forall|k: int| 0 <= k < before.len() ==> out@[k] == before[k]);
        }
        out
    }

    /// The value that `handle` reaches, for change. Nothing else in the pool
    /// changes.
    pub fn borrow_mut(&mut self, handle: Handle) -> (r: &mut T)
        requires
            old(self).wf(),
            old(self)@.contains_key(handle),
        ensures
            *r == old(self)@[handle],
            final(self).wf(),
            final(self)@ == old(self)@.insert(handle, *final(r)),
            final(self).capacity() == old(self).capacity(),
            forall|i: int|
                #![trigger final(self).handle_of(i)]
                final(self).handle_of(i) == old(self).handle_of(i),
            forall|h: Handle|
                #![trigger final(self).issued(h)]
                final(self).issued(h) == old(self).issued(h),
    {
        match &mut self.records[handle.index as usize].payload {
            Some(value) => value,
            None => vstd::pervasive::unreached(),
        }
    }
}

} // verus!

//! Generational handles.

use vstd::prelude::*;

verus! {

/// A reference to a slot of a pool: the slot's index and the generation the
/// slot had when the handle was given out. It owns nothing.
#[derive(Clone, Copy, PartialEq, Eq, Structural, Debug, Hash)]
pub struct Handle {
    pub index: u32,
    pub generation: u32,
}

impl Handle {
    /// The handle that refers to nothing. No pool ever gives it out.
    pub open spec fn spec_none() -> Handle {
        Handle { index: 0, generation: 0 }
    }

    /// The handle as one number: the generation in the upper half, the index
    /// in the lower. Distinct handles have distinct keys.
    pub open spec fn spec_key(self) -> u64 {
        (self.generation as u64 * 0x1_0000_0000 + self.index as u64) as u64
    }

    /// The handle that a key stands for.
    pub open spec fn spec_from_key(key: u64) -> Handle {
        Handle { index: (key % 0x1_0000_0000) as u32, generation: (key / 0x1_0000_0000) as u32 }
    }

    /// Whether this is the handle that refers to nothing.
    pub open spec fn spec_is_none(&self) -> bool {
        self.index == 0 && self.generation == 0
    }

    /// The handle of slot `index` in its generation `generation`.
    pub fn new(index: u32, generation: u32) -> (r: Handle)
        ensures
            r == (Handle { index, generation }),
    {
        Handle { index, generation }
    }

    /// The handle that refers to nothing.
    #[verifier::when_used_as_spec(spec_none)]
    pub fn none() -> (r: Handle)
        ensures
            r == Handle::spec_none(),
    {
        Handle { index: 0, generation: 0 }
    }

    /// Whether this is the handle that refers to nothing.
    #[verifier::when_used_as_spec(spec_is_none)]
    pub fn is_none(&self) -> (r: bool)
        ensures
            r == self.spec_is_none(),
            r == (*self == Handle::spec_none()),
    {
        self.index == 0 && self.generation == 0
    }

    /// Whether this is any other handle than the one that refers to nothing.
    pub fn is_some(&self) -> (r: bool)
        ensures
            r == !self.spec_is_none(),
    {
        !self.is_none()
    }

    /// The handle as one number.
    #[verifier::when_used_as_spec(spec_key)]
    pub fn key(self) -> (r: u64)
        ensures
            r == self.spec_key(),
            Handle::spec_from_key(r) == self,
    {
        (self.generation as u64) * 0x1_0000_0000 + (self.index as u64)
    }

    /// The handle that `key` stands for.
    #[verifier::when_used_as_spec(spec_from_key)]
    pub fn from_key(key: u64) -> (r: Handle)
        ensures
            r == Handle::spec_from_key(key),
            r.spec_key() == key,
    {
        Handle { index: (key % 0x1_0000_0000) as u32, generation: (key / 0x1_0000_0000) as u32 }
    }

    /// Handles and keys correspond one to one.
    pub proof fn lemma_key_bijective(h: Handle, key: u64)
        ensures
            Handle::spec_from_key(h.spec_key()) == h,
            Handle::spec_from_key(key).spec_key() == key,
    {
    }
}

} // verus!

//! Resources: loaded scenes that animations take their keyframes from.

use vstd::prelude::*;
use std::sync::Arc;
use crate::container::AnimationContainer;
use crate::graph::Graph;

verus! {

/// A loaded scene: its nodes, and its animations, of which the first is the
/// one that others are retargeted from. Once loaded it is shared and never
/// changed.
pub struct Model {
    pub graph: Graph,
    pub animations: AnimationContainer,
}

/// Another owner of the resource that `resource` owns: `Arc::clone` of std,
/// which hands back a pointer to the same value.
#[verifier::external_body]
pub(crate) fn share(resource: &Arc<Model>) -> (r: Arc<Model>)
    ensures
        r == *resource,
{
    Arc::clone(resource)
}

} // verus!

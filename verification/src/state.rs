//! States of an animation blending machine, and the actions that a state
//! runs on the animations when it is entered or left.

use vstd::prelude::*;
use rand::seq::IteratorRandom;
use crate::playback::{Animation, AnimationView};
use crate::container::AnimationContainer;
use crate::handle::Handle;
use crate::pool::Pool;
use crate::pose::AnimationPose;
use crate::vector::Vec2;

verus! {

/// The handle of an animation, as an item of a list.
#[derive(Clone, Copy, PartialEq, Eq, Structural, Debug)]
pub struct AnimationHandleWrapper(pub Handle);

/// An action, as an item of a list.
#[derive(Clone, Debug)]
pub struct StateActionWrapper(pub StateAction);

/// What a state does to the animations when it is entered or left.
#[derive(Clone, Debug)]
pub enum StateAction {
    /// Nothing.
    NoAction,
    /// Sends the animation back to the start of its timeline.
    RewindAnimation(Handle),
    /// Enables the animation.
    EnableAnimation(Handle),
    /// Disables the animation.
    DisableAnimation(Handle),
    /// Enables one of the animations, picked at random.
    EnableRandomAnimation(Vec<AnimationHandleWrapper>),
}

impl Default for StateAction {
    fn default() -> (r: StateAction)
        ensures
            r is NoAction,
    {
        StateAction::NoAction
    }
}

/// `after` is `before` with the animation that `handle` reaches changed to
/// `changed`, as far as its view tells; every other animation is as it was.
/// Where `handle` reaches nothing, nothing has changed.
pub open spec fn changes_one(
    before: Map<Handle, Animation>,
    handle: Handle,
    changed: spec_fn(AnimationView) -> AnimationView,
    after: Map<Handle, Animation>,
) -> bool {
    &&& after.dom() == before.dom()
    &&& forall|h: Handle| #[trigger]
        before.contains_key(h) ==> if h == handle {
            after[h]@ == changed(before[h]@)
        } else {
            after[h] == before[h]
        }
}

impl StateAction {
    /// The picks that the action leaves open: an index into the list of an
    /// action that picks at random, and nothing for a list without items or
    /// for any other action.
    pub open spec fn offers(&self, choice: Option<usize>) -> bool {
        match self {
            StateAction::EnableRandomAnimation(handles) => if handles@.len() == 0 {
                choice is None
            } else {
                choice is Some && choice->0 < handles@.len()
            },
            _ => choice is None,
        }
    }

    /// `after` is what the action makes of `before`, with `choice` as the
    /// pick of an action that picks at random. A handle that reaches nothing
    /// makes the action do nothing, and so does a pick outside the list.
    pub open spec fn applies(
        &self,
        choice: Option<usize>,
        before: Map<Handle, Animation>,
        after: Map<Handle, Animation>,
    ) -> bool {
        match self {
            StateAction::NoAction => after == before,
            StateAction::RewindAnimation(handle) => changes_one(
                before,
                *handle,
                |a: AnimationView| AnimationView { time_position: a.committed(0), ..a },
                after,
            ),
            StateAction::EnableAnimation(handle) => changes_one(
                before,
                *handle,
                |a: AnimationView| AnimationView { enabled: true, ..a },
                after,
            ),
            StateAction::DisableAnimation(handle) => changes_one(
                before,
                *handle,
                |a: AnimationView| AnimationView { enabled: false, ..a },
                after,
            ),
            StateAction::EnableRandomAnimation(handles) => match choice {
                Some(index) => if index < handles@.len() {
                    changes_one(
                        before,
                        handles@[index as int].0,
                        |a: AnimationView| AnimationView { enabled: true, ..a },
                        after,
                    )
                } else {
                    after == before
                },
                None => after == before,
            },
        }
    }

    /// Applies the action to `animations`. An action that picks at random
    /// picks any item of its list.
    pub fn apply(&self, animations: &mut AnimationContainer)
        requires
            old(animations).wf(),
        ensures
            final(animations).wf(),
            final(animations).capacity() == old(animations).capacity(),
            forall|i: int|
                #![trigger final(animations).handle_of(i)]
                final(animations).handle_of(i) == old(animations).handle_of(i),
            forall|h: Handle|
                #![trigger final(animations).issued(h)]
                final(animations).issued(h) == old(animations).issued(h),
            exists|choice: Option<usize>|
                self.offers(choice) && #[trigger] self.applies(
                    choice,
                    old(animations)@,
                    final(animations)@,
                ),
    {
        let choice = match self {
            StateAction::EnableRandomAnimation(handles) => choose_index(handles.len()),
            _ => None,
        };
        self.apply_chosen(animations, choice);
    }

    /// Applies the action to `animations`, with `choice` as the pick of an
    /// action that picks at random.
    pub fn apply_chosen(&self, animations: &mut AnimationContainer, choice: Option<usize>)
        requires
            old(animations).wf(),
        ensures
            final(animations).wf(),
            final(animations).capacity() == old(animations).capacity(),
            forall|i: int|
                #![trigger final(animations).handle_of(i)]
                final(animations).handle_of(i) == old(animations).handle_of(i),
            forall|h: Handle|
                #![trigger final(animations).issued(h)]
                final(animations).issued(h) == old(animations).issued(h),
            self.applies(choice, old(animations)@, final(animations)@),
    {
        match self {
            StateAction::NoAction => {},
            StateAction::RewindAnimation(handle) => {
                if animations.is_valid_handle(*handle) {
                    let animation = animations.get_mut(*handle);
                    animation.rewind();
                    assert(animations@.dom() =~= old(animations)@.dom());
                }
            },
            StateAction::EnableAnimation(handle) => {
                set_enabled(animations, *handle, true);
            },
            StateAction::DisableAnimation(handle) => {
                set_enabled(animations, *handle, false);
            },
            StateAction::EnableRandomAnimation(handles) => {
                match choice {
                    Some(index) => {
                        if index < handles.len() {
                            set_enabled(animations, handles[index].0, true);
                        }
                    },
                    None => {},
                }
            },
        }
    }
}

/// Enables or disables the animation that `handle` reaches, if there is one.
fn set_enabled(animations: &mut AnimationContainer, handle: Handle, enabled: bool)
    requires
        old(animations).wf(),
    ensures
        final(animations).wf(),
        final(animations).capacity() == old(animations).capacity(),
        forall|i: int|
            #![trigger final(animations).handle_of(i)]
            final(animations).handle_of(i) == old(animations).handle_of(i),
        forall|h: Handle|
            #![trigger final(animations).issued(h)]
            final(animations).issued(h) == old(animations).issued(h),
        changes_one(
            old(animations)@,
            handle,
            |a: AnimationView| AnimationView { enabled, ..a },
            final(animations)@,
        ),
{
    if animations.is_valid_handle(handle) {
        let animation = animations.get_mut(handle);
        animation.set_enabled(enabled);
        assert(animations@.dom() =~= old(animations)@.dom());
    }
}

/// One index below `len`, picked at random: `IteratorRandom::choose` of rand
/// on the range from zero to `len`, with `thread_rng` as the generator. It
/// gives nothing exactly when the range is empty, and else an item of it;
/// which item is not stated. Where the system has no seed for the generator,
/// `thread_rng` stops the program.
#[verifier::external_body]
fn choose_index(len: usize) -> (r: Option<usize>)
    ensures
        len == 0 ==> r is None,
        len > 0 ==> r is Some && r->0 < len,
{
    (0..len).choose(&mut rand::thread_rng())
}

/// A state of a blending machine: a name, the node that gives the state its
/// pose, and the actions to run when the machine enters or leaves the state.
#[derive(Clone, Debug)]
pub struct State {
    /// Where an editor draws the state.
    pub position: Vec2,
    pub name: String,
    pub on_enter_actions: Vec<StateActionWrapper>,
    pub on_leave_actions: Vec<StateActionWrapper>,
    /// The node that gives the state its pose.
    pub root: Handle,
}

impl State {
    /// A state without actions.
    pub fn new(name: &str, root: Handle) -> (r: State)
        ensures
            r.name@ == name@,
            r.root == root,
            r.position == (Vec2 { x: 0, y: 0 }),
            r.on_enter_actions@.len() == 0,
            r.on_leave_actions@.len() == 0,
    {
        State {
            position: Vec2 { x: 0, y: 0 },
            name: name.to_owned(),
            on_enter_actions: Vec::new(),
            on_leave_actions: Vec::new(),
            root,
        }
    }

    /// The name of the state.
    pub fn name(&self) -> (r: &str)
        ensures
            r@ == self.name@,
    {
        self.name.as_str()
    }

    /// The pose of the state: that of its root among `nodes`, or nothing
    /// where the root is not among them.
    pub fn pose<'a>(&self, nodes: &'a Pool<AnimationPose>) -> (r: Option<&'a AnimationPose>)
        ensures
            r == if nodes@.contains_key(self.root) {
                Some(&nodes@[self.root])
            } else {
                None
            },
    {
        nodes.try_borrow(self.root)
    }

    /// The node that is to be evaluated for this state in a tick: its root,
    /// where the root is among `nodes`.
    pub fn update(&self, nodes: &Pool<AnimationPose>) -> (r: Option<Handle>)
        ensures
            r == if nodes@.contains_key(self.root) {
                Some(self.root)
            } else {
                None
            },
    {
        if nodes.is_valid_handle(self.root) {
            Some(self.root)
        } else {
            None
        }
    }
}

} // verus!

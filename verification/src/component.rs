//! Component status and lifecycle.
//!
//! A component instance keeps its mutable state, together with two dirty
//! flags, in a [`Status`] cell that outlives any single render pass. The
//! engine reads and clears the flags to decide whether a component's cached
//! subtree must be re-rendered; a component mutates its own state through
//! [`Status::set_state`], which marks the state dirty exactly when the new
//! value differs from the previously observed one and then requests a
//! re-render from the application root.

use vstd::prelude::*;

verus! {

use crate::bump;
use vstd::std_specs::cmp::PartialEqSpec;

/// The ghost model of a [`Status`] cell: the held state, the two dirty
/// flags, and how many re-render requests have been sent to the root
/// scheduler.
pub ghost struct StatusView<T> {
    /// The state value held in the cell.
    pub state: T,
    /// Whether the state changed since the flag was last taken.
    pub state_dirty: bool,
    /// Whether the props changed since the flag was last taken.
    pub props_dirty: bool,
    /// How many re-render requests have been sent (saturating count).
    pub react_requests: u64,
}

/// What [`Status::take_state_dirty`] returns and leaves behind.
pub open spec fn spec_take_state_dirty<T>(v: StatusView<T>) -> (bool, StatusView<T>) {
    (v.state_dirty, StatusView { state_dirty: false, ..v })
}

/// What [`Status::take_props_dirty`] returns and leaves behind.
pub open spec fn spec_take_props_dirty<T>(v: StatusView<T>) -> (bool, StatusView<T>) {
    (v.props_dirty, StatusView { props_dirty: false, ..v })
}

/// What [`Status::set_state`] leaves behind: the new state is stored, the
/// state-dirty flag is raised exactly when the new value differs from the
/// value the component last observed, and one re-render request is sent.
pub open spec fn spec_set_state<T>(v: StatusView<T>, new_state: T, differs: bool) -> StatusView<
    T,
> {
    StatusView {
        state: new_state,
        state_dirty: v.state_dirty || differs,
        react_requests: bump(v.react_requests),
        ..v
    }
}

/// A channel-like handle on which a component requests that the application
/// root schedule a re-render pass. The root scheduler is outside this
/// engine; the handle records how many requests were sent.
pub struct MessageSender {
    requests: u64,
}

impl MessageSender {
    /// How many re-render requests have been sent on this handle.
    pub closed spec fn spec_requests(&self) -> u64 {
        self.requests
    }

    /// A fresh handle with no requests sent.
    pub fn new() -> (s: MessageSender)
        ensures
            s.spec_requests() == 0,
    {
        MessageSender { requests: 0 }
    }

    /// Sends one re-render request.
    pub fn do_react(&mut self)
        ensures
            final(self).spec_requests() == bump(old(self).spec_requests()),
    {
        if self.requests < u64::MAX {
            self.requests = self.requests + 1;
        }
    }

    /// How many re-render requests have been sent, for the root scheduler.
    pub fn requests(&self) -> (n: u64)
        ensures
            n == self.spec_requests(),
    {
        self.requests
    }
}

/// Stores the state of the component along with the flags to identify whether
/// the props and state are dirty. Also provides a mechanism to notify the app
/// of state changes.
pub struct Status<T> {
    state: T,
    state_dirty: bool,
    props_dirty: bool,
    rx_sender: MessageSender,
}

impl<T> View for Status<T> {
    type V = StatusView<T>;

    closed spec fn view(&self) -> StatusView<T> {
        StatusView {
            state: self.state,
            state_dirty: self.state_dirty,
            props_dirty: self.props_dirty,
            react_requests: self.rx_sender.spec_requests(),
        }
    }
}

impl<T> Status<T> {
    /// Creates a new status with a given state and message sender, with both
    /// dirty flags clear.
    pub fn new(state: T, rx_sender: MessageSender) -> (s: Status<T>)
        ensures
            s@.state == state,
            !s@.state_dirty,
            !s@.props_dirty,
            s@.react_requests == rx_sender.spec_requests(),
    {
        Status { state, state_dirty: false, props_dirty: false, rx_sender }
    }

    /// Marks state as dirty.
    pub fn mark_state_dirty(&mut self)
        ensures
            final(self)@ == (StatusView { state_dirty: true, ..old(self)@ }),
    {
        self.state_dirty = true;
    }

    /// Gets and resets `state_dirty` flag.
    pub fn take_state_dirty(&mut self) -> (r: bool)
        ensures
            (r, final(self)@) == spec_take_state_dirty(old(self)@),
    {
        if self.state_dirty {
            self.state_dirty = false;
            true
        } else {
            false
        }
    }

    /// Marks props as dirty.
    pub fn mark_props_dirty(&mut self)
        ensures
            final(self)@ == (StatusView { props_dirty: true, ..old(self)@ }),
    {
        self.props_dirty = true;
    }

    /// Gets and resets `props_dirty` flag.
    pub fn take_props_dirty(&mut self) -> (r: bool)
        ensures
            (r, final(self)@) == spec_take_props_dirty(old(self)@),
    {
        if self.props_dirty {
            self.props_dirty = false;
            true
        } else {
            false
        }
    }

    /// Gets the state immutably.
    pub fn state_as_ref(&self) -> (r: &T)
        ensures
            *r == self@.state,
    {
        &self.state
    }

    /// Gets the state mutably. The caller is expected to mark the state
    /// dirty itself when it changes the value through this reference.
    pub fn state_as_mut(&mut self) -> (r: &mut T)
        ensures
            *r == old(self)@.state,
            final(self)@ == (StatusView { state: *final(r), ..old(self)@ }),
    {
        &mut self.state
    }

    /// Sends a request to the App to react to the state changes.
    pub fn do_react(&mut self)
        ensures
            final(self)@ == (StatusView {
                react_requests: bump(old(self)@.react_requests),
                ..old(self)@
            }),
    {
        self.rx_sender.do_react();
    }

    /// How many re-render requests this cell has sent to the root scheduler.
    pub fn react_requests(&self) -> (n: u64)
        ensures
            n == self@.react_requests,
    {
        self.rx_sender.requests()
    }
}

impl<T: PartialEq> Status<T> {
    /// Stores a mutated state value in the cell. The state-dirty flag is
    /// raised exactly when the stored value differs from `observed`, the
    /// state the component last copied out; a re-render request is then sent
    /// either way.
    pub fn set_state(&mut self, new_state: T, observed: &T)
        ensures
            T::obeys_eq_spec() ==> final(self)@ == spec_set_state(
                old(self)@,
                new_state,
                !new_state.eq_spec(observed),
            ),
            final(self)@.state == new_state,
            final(self)@.props_dirty == old(self)@.props_dirty,
            old(self)@.state_dirty ==> final(self)@.state_dirty,
    {
        let differs = !(new_state.eq(observed));
        self.state = new_state;
        if differs {
            self.state_dirty = true;
        }
        self.rx_sender.do_react();
    }

    /// Updates a component's current props with newer ones, field-for-field:
    /// when the new props equal the current ones nothing changes and `None`
    /// comes back; when they differ the new props replace the current ones,
    /// the props-dirty flag is raised, and the previous props come back so a
    /// lifecycle hook can observe the change.
    pub fn update_props<P: PartialEq>(&mut self, current: &mut P, new: P) -> (prev: Option<P>)
        ensures
            P::obeys_eq_spec() ==> if new.eq_spec(&*old(current)) {
                &&& prev is None
                &&& *final(current) == *old(current)
                &&& final(self)@ == old(self)@
            } else {
                &&& prev == Some(*old(current))
                &&& *final(current) == new
                &&& final(self)@ == (StatusView { props_dirty: true, ..old(self)@ })
            },
            final(self)@.state == old(self)@.state,
            final(self)@.state_dirty == old(self)@.state_dirty,
            final(self)@.react_requests == old(self)@.react_requests,
    {
        if new.eq(&*current) {
            None
        } else {
            let mut prev = new;
            core::mem::swap(current, &mut prev);
            self.props_dirty = true;
            Some(prev)
        }
    }
}

/// Trait to define a component: the capability the engine needs from a
/// value that behaves like a component. Per-component code supplies the
/// prop, event and state types and wires its [`Status`] cell in.
pub trait Component: Sized {
    /// The prop type of a Component.
    type Props;

    /// The event type of a Component.
    type Events;

    /// The state type of a Component.
    type State;

    /// Creates a new component with the props, events and status passed to
    /// it.
    fn init(props: Self::Props, events: Self::Events, status: Status<Self::State>) -> Self;

    /// Updates the component with newer props and returns older props (if
    /// changed). Events are replaced without comparison.
    fn update(&mut self, props: Self::Props, events: Self::Events) -> Option<Self::Props>;

    /// Updates the state fields if the status is mutated.
    fn refresh_state(&mut self);

    /// Finds whether the component state has been altered; if altered,
    /// resets it to an undirtied state.
    fn take_state_dirty(&mut self) -> bool;

    /// Finds whether the component has been updated with newer props; if
    /// updated, resets it to an undirtied state.
    fn take_props_dirty(&mut self) -> bool;

    /// Mutates the state of the component to the given value, raising the
    /// state-dirty flag when the value differs from the current state.
    fn set_state(&mut self, state: Self::State);
}

/// The lifecycle of a stateful component: hooks the engine invokes at the
/// corresponding transition points. Implementations may override any of
/// them; by default they do nothing.
pub trait Lifecycle: Component {
    /// Invoked when the component is first created.
    fn created(&self) {
    }

    /// Invoked when the component props are updated, with the previous
    /// props.
    fn updated(&self, old_props: Self::Props) {
        let _ = old_props;
    }

    /// Invoked when the component is mounted onto the live tree.
    fn mounted(&self) {
    }

    /// Invoked when the component is removed from the live tree.
    fn destroyed(&self) {
    }
}

/// Trait to render a view for the component.
pub trait Render: Lifecycle {
    /// Produces the markup of the component for the current props and
    /// state.
    fn render(&self) -> crate::KeyedVNodes;
}

/// A void component to be used as a render context for a root component:
/// simply the parent of the root. It holds no props, no events and no
/// state, and renders an empty list. Its methods are deliberately inert
/// no-ops rather than panics: nothing should ever invoke them, but a
/// verified library promises that its functions do not panic, so misuse
/// answers blandly instead of aborting.
pub type RootParent = ();

impl Component for RootParent {
    type Props = ();

    type Events = ();

    type State = ();

    fn init(_props: (), _events: (), _status: Status<()>) -> RootParent {
        ()
    }

    fn update(&mut self, _props: (), _events: ()) -> Option<()> {
        None
    }

    fn refresh_state(&mut self) {
    }

    fn take_state_dirty(&mut self) -> bool {
        false
    }

    fn take_props_dirty(&mut self) -> bool {
        false
    }

    fn set_state(&mut self, _state: ()) {
    }
}

impl Lifecycle for RootParent {

}

impl Render for RootParent {
    fn render(&self) -> crate::KeyedVNodes {
        crate::KeyedVNodes::unkeyed(
            crate::VNode::List(crate::vlist::VList { children: Vec::new(), node: None }),
        )
    }
}

/// Dirty-flag round trip: after the state is mutated to a different value,
/// taking the state-dirty flag yields `true` exactly once; taking it again
/// without an intervening mutation yields `false`.
pub proof fn lemma_state_dirty_round_trip<T>(v: StatusView<T>, new_state: T)
    ensures
        ({
            let v1 = spec_set_state(v, new_state, true);
            let (first, v2) = spec_take_state_dirty(v1);
            let (second, v3) = spec_take_state_dirty(v2);
            first && !second && !v3.state_dirty
        }),
{
}

/// Props round trip: taking the props-dirty flag yields `true` exactly once
/// after props were marked dirty, and `false` on a second take.
pub proof fn lemma_props_dirty_round_trip<T>(v: StatusView<T>)
    ensures
        ({
            let v1 = StatusView { props_dirty: true, ..v };
            let (first, v2) = spec_take_props_dirty(v1);
            let (second, v3) = spec_take_props_dirty(v2);
            first && !second && !v3.props_dirty
        }),
{
}

} // verus!

//! [`Handler`]: a function that a reactor calls for one type of event, with
//! the dependencies it declares.

pub use crate::ecs::dependency::Dependency;
use crate::ecs::event::EventId;
use vstd::prelude::*;

verus! {

/// A function called for events of one type, together with the states and
/// topics it depends on.
pub struct Handler<F> {
    event_id: EventId,
    dependencies: Vec<Dependency>,
    fn_box: F,
}

impl<F> Handler<F> {
    /// The id of the events this handler is called for.
    pub closed spec fn event(&self) -> EventId {
        self.event_id
    }

    /// The dependencies this handler declares, in order.
    pub closed spec fn deps(&self) -> Seq<Dependency> {
        self.dependencies@
    }

    /// The function this handler calls.
    pub closed spec fn func(&self) -> F {
        self.fn_box
    }

    /// A handler for events with id `event_id` that calls `f` and declares
    /// `dependencies`.
    pub fn new(event_id: EventId, dependencies: Vec<Dependency>, f: F) -> (r: Handler<F>)
        ensures
            r.event() == event_id,
            r.deps() == dependencies@,
            r.func() == f,
    {
        Handler { event_id, dependencies, fn_box: f }
    }

    /// Returns the id of the events this handler is called for.
    pub fn event_id(&self) -> (r: EventId)
        ensures
            r == self.event(),
    {
        self.event_id
    }

    /// Returns the dependencies this handler declares.
    pub fn dependencies(&self) -> (r: &[Dependency])
        ensures
            r@ == self.deps(),
    {
        self.dependencies.as_slice()
    }

    /// Calls the handler's function on `context` and returns what it returns.
    pub fn call<C, R>(&self, context: C) -> (r: R)
        where
            F: Fn(C) -> R,
        requires
            call_requires(self.func(), (context,)),
        ensures
            call_ensures(self.func(), (context,), r),
    {
        (self.fn_box)(context)
    }
}

} // verus!

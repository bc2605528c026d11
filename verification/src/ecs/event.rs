//! [`EventId`], [`AnyEvent`], the FIFO [`EventQueue`] and the handler
//! argument [`EventWriter`].

use std::collections::VecDeque;
use vstd::prelude::*;

verus! {

/// Identifies a type that implements [`Event`]: a number unique to the type,
/// and the type's name for messages.
#[derive(Clone, Copy, Debug)]
pub struct EventId {
    pub id: u64,
    pub name: &'static str,
}

/// A type of event that a reactor dispatches to its handlers.
pub trait Event {
    /// The id of this type.
    fn id() -> EventId;
}

/// An event value tagged with the id of its type.
pub struct AnyEvent<E> {
    id: EventId,
    event: E,
}

impl<E> AnyEvent<E> {
    /// The id the value is tagged with.
    pub closed spec fn tag(&self) -> EventId {
        self.id
    }

    /// The tagged value.
    pub closed spec fn value(&self) -> E {
        self.event
    }

    /// Tags `ev` with `id`.
    pub fn new(id: EventId, ev: E) -> (r: AnyEvent<E>)
        ensures
            r.tag() == id,
            r.value() == ev,
    {
        AnyEvent { id, event: ev }
    }

    /// Returns the id the value is tagged with.
    pub fn id(&self) -> (r: EventId)
        ensures
            r == self.tag(),
    {
        self.id
    }

    /// Returns the value if it is tagged with an event id equal to `id`.
    pub fn downcast(&self, id: EventId) -> (r: Option<&E>)
        ensures
            match r {
                Some(v) => self.tag().id == id.id && *v == self.value(),
                None => self.tag().id != id.id,
            },
    {
        if self.id.id == id.id {
            Some(&self.event)
        } else {
            None
        }
    }
}

/// Events waiting to be dispatched, oldest first.
pub struct EventQueue<E> {
    queue: VecDeque<AnyEvent<E>>,
}

impl<E> View for EventQueue<E> {
    type V = Seq<AnyEvent<E>>;

    closed spec fn view(&self) -> Seq<AnyEvent<E>> {
        self.queue@
    }
}

impl<E> EventQueue<E> {
    /// Creates an empty queue.
    pub fn new() -> (r: EventQueue<E>)
        ensures
            r@ == Seq::<AnyEvent<E>>::empty(),
    {
        EventQueue { queue: VecDeque::new() }
    }

    /// Removes and returns the oldest event, if there is one.
    pub fn pop(&mut self) -> (r: Option<AnyEvent<E>>)
        ensures
            match r {
                Some(ev) => old(self)@.len() > 0 && ev == old(self)@[0] && final(self)@ == old(self)@.drop_first(),
                None => old(self)@.len() == 0 && final(self)@ == old(self)@,
            },
    {
        self.queue.pop_front()
    }

    /// Appends `ev` after every event already queued.
    pub fn push(&mut self, ev: AnyEvent<E>)
        ensures
            final(self)@ == old(self)@.push(ev),
    {
        self.queue.push_back(ev);
    }
}

/// A first-in first-out queue hands events back in the order they were pushed:
/// pushing `a` and then `b` onto an empty queue and popping twice yields `a`,
/// then `b`, and leaves the queue empty.
pub proof fn lemma_event_queue_fifo<E>(a: AnyEvent<E>, b: AnyEvent<E>)
    ensures
        Seq::<AnyEvent<E>>::empty().push(a).push(b)[0] == a,
        Seq::<AnyEvent<E>>::empty().push(a).push(b).drop_first()[0] == b,
        Seq::<AnyEvent<E>>::empty().push(a).push(b).drop_first().drop_first() == Seq::<AnyEvent<E>>::empty(),
{
    assert(Seq::<AnyEvent<E>>::empty().push(a).push(b).drop_first().drop_first() =~= Seq::<AnyEvent<E>>::empty());
}

/// Handler argument used to queue further events.
pub struct EventWriter<'e, E> {
    pub queue: &'e mut EventQueue<E>,
}

impl<'e, E> EventWriter<'e, E> {
    /// A writer into `queue`.
    pub fn new(queue: &'e mut EventQueue<E>) -> (r: EventWriter<'e, E>)
        ensures
            r.queued() == old(queue)@,
            *final(queue) == *final(r.queue),
    {
        EventWriter { queue }
    }

    /// The events queued so far.
    pub open spec fn queued(&self) -> Seq<AnyEvent<E>> {
        self.queue@
    }

    /// Queues `ev`, tagged with `id`, after the events already queued.
    pub fn write(&mut self, id: EventId, ev: E)
        ensures
            final(self).queued().len() == old(self).queued().len() + 1,
            final(self).queued().drop_last() == old(self).queued(),
            final(self).queued().last().tag() == id,
            final(self).queued().last().value() == ev,
            *final(final(self).queue) == *final(old(self).queue),
    {
        self.queue.push(AnyEvent::new(id, ev));
        assert(self.queued().drop_last() =~= old(self).queued());
    }
}

/// Builds the handler argument that queues events; it adds no dependency.
pub struct EventWriterBuilder;

impl EventWriterBuilder {
    /// A writer into `queue`.
    pub fn build<'c, E>(queue: &'c mut EventQueue<E>) -> (r: EventWriter<'c, E>)
        ensures
            r.queued() == old(queue)@,
            *final(queue) == *final(r.queue),
    {
        EventWriter::new(queue)
    }
}

} // verus!

//! Calls posted to a system, to run on it later: [`CallQueue`], the [`Call`]
//! handle that posts them, and the [`CallQueueMap`] of queues by system.

use crate::ecs::system::SystemId;
use crate::maps::map_get_mut;
use std::collections::HashMap;
use vstd::prelude::*;

verus! {

broadcast use vstd::std_specs::hash::group_hash_axioms;

/// Calls waiting to run on a value, in the order they were posted.
pub struct CallQueue<F> {
    calls: Vec<F>,
}

impl<F> View for CallQueue<F> {
    type V = Seq<F>;

    closed spec fn view(&self) -> Seq<F> {
        self.calls@
    }
}

/// The call `f` can be made on any value.
pub open spec fn callable<T, F: FnOnce(&mut T)>(f: F) -> bool {
    forall|x: &mut T| #[trigger] call_requires(f, (x,))
}

/// The call `k` places from the newest of `calls`, made on `x`, can return.
#[verifier::inline]
pub open spec fn newest_call_ensures<T, F: FnOnce(&mut T)>(calls: Seq<F>, k: int, x: &mut T) -> bool {
    call_ensures(calls[calls.len() - 1 - k], (x,), ())
}

/// Every call in `calls` can be made on any value.
pub open spec fn all_callable<T, F: FnOnce(&mut T)>(calls: Seq<F>) -> bool {
    forall|i: int| 0 <= i < calls.len() ==> #[trigger] callable::<T, F>(calls[i])
}

impl<F> CallQueue<F> {
    /// An empty queue.
    pub fn new() -> (r: CallQueue<F>)
        ensures
            r@ == Seq::<F>::empty(),
    {
        CallQueue { calls: Vec::new() }
    }

    /// Adds `func` at the end of the queue.
    pub fn post(&mut self, func: F)
        ensures
            final(self)@ == old(self)@.push(func),
    {
        self.calls.push(func);
    }

    /// Whether no call is waiting.
    pub fn is_empty(&self) -> (r: bool)
        ensures
            r == (self@.len() == 0),
    {
        self.calls.len() == 0
    }

    /// Runs the waiting calls on `val`, the last posted first, until none is
    /// left: there is a sequence of values, from `val` as it was to `val` as
    /// it is left, each the result of a call on the one before.
    pub fn run<T>(&mut self, val: &mut T)
        where
            F: FnOnce(&mut T),
        requires
            all_callable::<T, F>(old(self)@),
        ensures
            final(self)@ == Seq::<F>::empty(),
            exists|vals: Seq<T>|
                vals.len() == old(self)@.len() + 1 && vals[0] == *old(val) && vals.last() == *final(val) && forall|k: int|
                    0 <= k < old(self)@.len() ==> exists|x: &mut T|
                        *x == #[trigger] vals[k] && *final(x) == vals[k + 1] && newest_call_ensures(old(self)@, k, x),
    {
        let ghost orig = self@;
        let ghost start = *val;
        let ghost mut vals: Seq<T> = seq![*val];
        while self.calls.len() > 0
            invariant
                all_callable::<T, F>(self@),
                self@ == orig.subrange(0, self@.len() as int),
                self@.len() <= orig.len(),
                vals.len() == orig.len() - self@.len() + 1,
                vals[0] == start,
                vals.last() == *val,
                forall|k: int|
                    0 <= k < vals.len() - 1 ==> exists|x: &mut T|
                        *x == #[trigger] vals[k] && *final(x) == vals[k + 1] && call_ensures(orig[orig.len() - 1 - k], (x,), ()),
            decreases self@.len(),
        {
            let ghost before = self@;
            let func = self.calls.pop().unwrap();
            proof {
                assert(func == before[before.len() - 1]);
                assert(func == orig[orig.len() - 1 - (vals.len() - 1)]);
                assert(callable::<T, F>(before[before.len() - 1]));
                assert forall|i: int| 0 <= i < self@.len() implies #[trigger] callable::<T, F>(self@[i]) by {
                    assert(self@[i] == before[i]);
                    assert(callable::<T, F>(before[i]));
                }
            }
            let ghost prev = *val;
            let ghost old_vals = vals;
            func(val);
            proof {
                vals = vals.push(*val);
                assert forall|k: int| 0 <= k < vals.len() - 1 implies exists|x: &mut T|
                    *x == #[trigger] vals[k] && *final(x) == vals[k + 1] && call_ensures(orig[orig.len() - 1 - k], (x,), ()) by {
                    if k < old_vals.len() - 1 {
                        assert(vals[k] == old_vals[k] && vals[k + 1] == old_vals[k + 1]);
                    } else {
                        assert(vals[k] == prev);
                    }
                }
            }
        }
    }
}

/// Runs the calls waiting in a queue, of type `C`, on a value of type `T`.
pub trait AnyCallQueue<T, C: FnOnce(&mut T)> {
    /// The waiting calls, oldest first.
    spec fn calls(&self) -> Seq<C>;

    /// Runs the waiting calls, if there are any, on `val`, the newest first:
    /// there is a sequence of values, from `val` as it was to `val` as it is
    /// left, each the result of a call on the one before. Every waiting call
    /// must be one that can be made on any value.
    fn run_any(&mut self, val: &mut T)
        requires
            forall|i: int, x: &mut T| 0 <= i < old(self).calls().len() ==> #[trigger] call_requires(old(self).calls()[i], (x,)),
        ensures
            final(self).calls().len() == 0,
            exists|vals: Seq<T>|
                vals.len() == old(self).calls().len() + 1 && vals[0] == *old(val) && vals.last() == *final(val) && forall|k: int|
                    0 <= k < old(self).calls().len() ==> exists|x: &mut T|
                        *x == #[trigger] vals[k] && *final(x) == vals[k + 1] && call_ensures(
                            old(self).calls()[old(self).calls().len() - 1 - k],
                            (x,),
                            (),
                        ),
    ;
}

impl<T, F: FnOnce(&mut T)> AnyCallQueue<T, F> for CallQueue<F> {
    open spec fn calls(&self) -> Seq<F> {
        self@
    }

    fn run_any(&mut self, val: &mut T) {
        if !self.is_empty() {
            assert forall|i: int| 0 <= i < self@.len() implies #[trigger] callable::<T, F>(self@[i]) by {
                assert forall|x: &mut T| #[trigger] call_requires(self@[i], (x,)) by {
                    assert(old(self).calls() == self@);
                    assert(call_requires(old(self).calls()[i], (x,)));
                }
            }
            self.run(val);
        } else {
            let ghost vals = seq![*val];
            assert(vals.len() == 1 && vals[0] == *val && vals.last() == *val);
        }
    }
}

/// Posts calls to one queue.
pub struct Call<'a, F> {
    pub queue: &'a mut CallQueue<F>,
}

impl<'a, F> Call<'a, F> {
    /// A handle that posts to `queue`.
    pub fn new(queue: &'a mut CallQueue<F>) -> (r: Call<'a, F>)
        ensures
            r.queued() == old(queue)@,
            *final(queue) == *final(r.queue),
    {
        Call { queue }
    }

    /// The calls waiting in the queue.
    pub open spec fn queued(&self) -> Seq<F> {
        self.queue@
    }

    /// Adds `func` at the end of the queue.
    pub fn post(&mut self, func: F)
        ensures
            final(self).queued() == old(self).queued().push(func),
            *final(final(self).queue) == *final(old(self).queue),
    {
        self.queue.post(func);
    }
}

/// A queue of calls for each registered system.
pub struct CallQueueMap<F> {
    queues: HashMap<u64, CallQueue<F>>,
}

impl<F> View for CallQueueMap<F> {
    type V = Map<u64, Seq<F>>;

    closed spec fn view(&self) -> Map<u64, Seq<F>> {
        self.queues@.map_values(|q: CallQueue<F>| q@)
    }
}

impl<F> CallQueueMap<F> {
    /// A map with no queues.
    pub fn new() -> (r: CallQueueMap<F>)
        ensures
            r@ == Map::<u64, Seq<F>>::empty(),
    {
        let r = CallQueueMap { queues: HashMap::new() };
        assert(r@ =~= Map::<u64, Seq<F>>::empty());
        r
    }

    /// Gives the system `id` an empty queue, in place of the one it had.
    pub fn register(&mut self, id: SystemId)
        ensures
            final(self)@ == old(self)@.insert(id@, Seq::<F>::empty()),
    {
        self.queues.insert(id.type_id(), CallQueue::new());
        assert(self@ =~= old(self)@.insert(id@, Seq::<F>::empty()));
    }

    /// Drops the queue of the system `id`, if it has one.
    pub fn unregister(&mut self, id: SystemId)
        ensures
            final(self)@ == old(self)@.remove(id@),
    {
        self.queues.remove(&id.type_id());
        assert(self@ =~= old(self)@.remove(id@));
    }

    /// The queue of the system `id`, which must be registered.
    pub fn get(&self, id: SystemId) -> (r: &CallQueue<F>)
        requires
            self@.contains_key(id@),
        ensures
            r@ == self@[id@],
    {
        match self.queues.get(&id.type_id()) {
            Some(q) => q,
            None => vstd::pervasive::unreached(),
        }
    }

    /// The queue of the system `id`, which must be registered, to post to
    /// or run; what is done to it is kept.
    pub fn get_mut(&mut self, id: SystemId) -> (r: &mut CallQueue<F>)
        requires
            old(self)@.contains_key(id@),
        ensures
            r@ == old(self)@[id@],
            final(self)@ == old(self)@.insert(id@, final(r)@),
    {
        match map_get_mut(&mut self.queues, id.type_id()) {
            Some(q) => q,
            None => vstd::pervasive::unreached(),
        }
    }

    /// The queue of the system `id`, which must be registered, whatever the
    /// type of the system, to run its calls.
    pub fn get_any(&mut self, id: SystemId) -> (r: &mut CallQueue<F>)
        requires
            old(self)@.contains_key(id@),
        ensures
            r@ == old(self)@[id@],
            final(self)@ == old(self)@.insert(id@, final(r)@),
    {
        self.get_mut(id)
    }
}

/// A call posted to a queue is the newest one waiting, and the calls waiting
/// before stay as they were; a later run makes it first, on the value as it
/// was before the run.
pub proof fn lemma_posted_call_runs_first<F>(calls: Seq<F>, f: F)
    ensures
        calls.push(f).len() == calls.len() + 1,
        calls.push(f)[calls.push(f).len() - 1 - 0] == f,
        forall|i: int| 0 <= i < calls.len() ==> #[trigger] calls.push(f)[i] == calls[i],
{
}

/// A call posted through the queue that `get_mut` or `get_any` hands out for
/// a registered system stays in the map: `get` then gives that system's queue
/// with the call as its newest entry, after the calls posted before it, and
/// the queues of the other systems are untouched.
pub proof fn lemma_posted_call_is_pending<F>(m: Map<u64, Seq<F>>, id: u64, f: F, other: u64)
    requires
        m.contains_key(id),
        other != id,
    ensures
        m.insert(id, m[id].push(f)).contains_key(id),
        m.insert(id, m[id].push(f))[id] == m[id].push(f),
        m.insert(id, m[id].push(f))[id].last() == f,
        m.insert(id, m[id].push(f)).contains_key(other) == m.contains_key(other),
        m.contains_key(other) ==> m.insert(id, m[id].push(f))[other] == m[other],
{
}

} // verus!

//! [`StateId`], [`AnyState`] and [`StateContainer`].

use crate::ecs::dependency::Dependency;
use crate::maps::map_get_mut;
use std::collections::HashMap;
use vstd::prelude::*;

verus! {

/// Identifies a type that implements [`State`]: a number unique to the type,
/// and the type's name for messages.
#[derive(Clone, Copy, Debug)]
pub struct StateId {
    pub id: u64,
    pub name: &'static str,
}

/// A type whose values are kept in a [`StateContainer`].
pub trait State {
    /// The id of this type.
    fn id() -> StateId;
}

/// A `State` value tagged with the id of its type.
pub struct AnyState<S> {
    id: StateId,
    state: S,
}

impl<S> AnyState<S> {
    /// The id the value is tagged with.
    pub closed spec fn tag(&self) -> StateId {
        self.id
    }

    /// The tagged value.
    pub closed spec fn value(&self) -> S {
        self.state
    }

    /// Tags `s` with `id`.
    pub fn new(id: StateId, s: S) -> (r: AnyState<S>)
        ensures
            r.tag() == id,
            r.value() == s,
    {
        AnyState { id, state: s }
    }

    /// Returns the id the value is tagged with.
    pub fn id(&self) -> (r: StateId)
        ensures
            r == self.tag(),
    {
        self.id
    }

    /// Returns the value if it is tagged with a state id equal to `id`.
    pub fn downcast(&self, id: StateId) -> (r: Option<&S>)
        ensures
            match r {
                Some(v) => self.tag().id == id.id && *v == self.value(),
                None => self.tag().id != id.id,
            },
    {
        if self.id.id == id.id {
            Some(&self.state)
        } else {
            None
        }
    }

    /// Returns the value mutably if it is tagged with a state id equal to `id`.
    pub fn downcast_mut(&mut self, id: StateId) -> (r: Option<&mut S>)
        ensures
            match r {
                Some(v) => {
                    &&& old(self).tag().id == id.id
                    &&& *v == old(self).value()
                    &&& final(self).tag() == old(self).tag()
                    &&& final(self).value() == *final(v)
                },
                None => old(self).tag().id != id.id && *final(self) == *old(self),
            },
    {
        if self.id.id == id.id {
            Some(&mut self.state)
        } else {
            None
        }
    }
}

/// Holds one value for each of a set of state ids.
pub struct StateContainer<S> {
    states: HashMap<u64, AnyState<S>>,
}

impl<S> View for StateContainer<S> {
    type V = Map<u64, AnyState<S>>;

    closed spec fn view(&self) -> Map<u64, AnyState<S>> {
        self.states@
    }
}

impl<S> StateContainer<S> {
    /// Creates a container with one state for each of `ids`, made by
    /// `default_fn` and tagged with its id.
    pub fn new<F: Fn(StateId) -> S>(ids: &[StateId], default_fn: F) -> (r: StateContainer<S>)
        requires
            forall|id: StateId| call_requires(default_fn, (id,)),
        ensures
            forall|k: u64| r@.contains_key(k) <==> exists|i: int| 0 <= i < ids@.len() && (#[trigger] ids@[i]).id == k,
            forall|k: u64|
                #[trigger] r@.contains_key(k) ==> {
                    &&& r@[k].tag().id == k
                    &&& exists|i: int| 0 <= i < ids@.len() && ids@[i] == r@[k].tag()
                    &&& call_ensures(default_fn, (r@[k].tag(),), r@[k].value())
                },
    {
        let mut states: HashMap<u64, AnyState<S>> = HashMap::new();
        let mut i: usize = 0;
        while i < ids.len()
            invariant
                i <= ids@.len(),
                forall|id: StateId| call_requires(default_fn, (id,)),
                forall|k: u64| states@.contains_key(k) <==> exists|j: int| 0 <= j < i && (#[trigger] ids@[j]).id == k,
                forall|k: u64|
                    #[trigger] states@.contains_key(k) ==> {
                        &&& states@[k].tag().id == k
                        &&& exists|j: int| 0 <= j < i && ids@[j] == states@[k].tag()
                        &&& call_ensures(default_fn, (states@[k].tag(),), states@[k].value())
                    },
            decreases ids@.len() - i,
        {
            let id = ids[i];
            let state = default_fn(id);
            states.insert(id.id, AnyState::new(id, state));
            proof {
                assert forall|k: u64| states@.contains_key(k) <==> exists|j: int| 0 <= j < i + 1 && (#[trigger] ids@[j]).id == k by {
                    if k == id.id {
                        assert(ids@[i as int].id == k);
                    }
                }
                assert forall|k: u64| #[trigger] states@.contains_key(k) implies {
                    &&& states@[k].tag().id == k
                    &&& exists|j: int| 0 <= j < i + 1 && ids@[j] == states@[k].tag()
                    &&& call_ensures(default_fn, (states@[k].tag(),), states@[k].value())
                } by {
                    if k == id.id {
                        assert(ids@[i as int] == states@[k].tag());
                    }
                }
            }
            i += 1;
        }
        StateContainer { states }
    }

    /// Returns the state kept for `id`, if any.
    pub fn get(&self, id: StateId) -> (r: Option<&S>)
        ensures
            match r {
                Some(v) => self@.contains_key(id.id) && *v == self@[id.id].value(),
                None => !self@.contains_key(id.id),
            },
    {
        match self.states.get(&id.id) {
            Some(any) => Some(&any.state),
            None => None,
        }
    }
    /// Returns the state kept for `id` mutably, if any; what is written
    /// through it is kept.
    pub fn get_mut(&mut self, id: StateId) -> (r: Option<&mut S>)
        ensures
            match r {
                Some(v) => {
                    &&& old(self)@.contains_key(id.id)
                    &&& *v == old(self)@[id.id].value()
                    &&& final(self)@.dom() == old(self)@.dom()
                    &&& final(self)@[id.id].tag() == old(self)@[id.id].tag()
                    &&& final(self)@[id.id].value() == *final(v)
                    &&& forall|k: u64| k != id.id && #[trigger] old(self)@.contains_key(k) ==> final(self)@[k] == old(self)@[k]
                },
                None => !old(self)@.contains_key(id.id) && final(self)@ == old(self)@,
            },
    {
        match map_get_mut(&mut self.states, id.id) {
            Some(any) => Some(&mut any.state),
            None => None,
        }
    }
}

/// The message of the error for a missing state, asked for by `arg`.
pub open spec fn missing_state_text(id: StateId, arg: Seq<char>) -> Seq<char> {
    "Missing state `"@ + id.name@ + "` for "@ + arg
}

fn missing_state(id: StateId, arg: &str) -> (r: String)
    ensures
        r@ == missing_state_text(id, arg@),
{
    let mut t = String::from_str("Missing state `");
    t.append(id.name);
    t.append("` for ");
    t.append(arg);
    t
}

/// Builds the handler argument that reads a state.
pub struct ReaderBuilder;

impl ReaderBuilder {
    /// Records that the handler reads the state `id`.
    pub fn dependencies(id: StateId, out: &mut Vec<Dependency>)
        ensures
            final(out)@ == old(out)@.push(Dependency::ReadState(id)),
    {
        out.push(Dependency::ReadState(id));
    }

    /// The state `id` to read, or the error saying it is missing.
    pub fn build<'c, S>(states: &'c StateContainer<S>, id: StateId) -> (r: Result<&'c S, String>)
        ensures
            match r {
                Ok(v) => states@.contains_key(id.id) && *v == states@[id.id].value(),
                Err(e) => !states@.contains_key(id.id) && e@ == missing_state_text(id, "Reader"@),
            },
    {
        match states.get(id) {
            Some(s) => Ok(s),
            None => Err(missing_state(id, "Reader")),
        }
    }
}

/// Builds the handler argument that reads a state as it was one cycle
/// earlier.
pub struct DelayedReaderBuilder;

impl DelayedReaderBuilder {
    /// Records that the handler reads the state `id` with a delay.
    pub fn dependencies(id: StateId, out: &mut Vec<Dependency>)
        ensures
            final(out)@ == old(out)@.push(Dependency::ReadStateDelayed(id)),
    {
        out.push(Dependency::ReadStateDelayed(id));
    }

    /// The state `id` to read, or the error saying it is missing.
    pub fn build<'c, S>(states: &'c StateContainer<S>, id: StateId) -> (r: Result<&'c S, String>)
        ensures
            match r {
                Ok(v) => states@.contains_key(id.id) && *v == states@[id.id].value(),
                Err(e) => !states@.contains_key(id.id) && e@ == missing_state_text(id, "ReaderDelayed"@),
            },
    {
        match states.get(id) {
            Some(s) => Ok(s),
            None => Err(missing_state(id, "ReaderDelayed")),
        }
    }
}

/// Builds the handler argument that writes a state.
pub struct WriterBuilder;

impl WriterBuilder {
    /// Records that the handler writes the state `id`.
    pub fn dependencies(id: StateId, out: &mut Vec<Dependency>)
        ensures
            final(out)@ == old(out)@.push(Dependency::WriteState(id)),
    {
        out.push(Dependency::WriteState(id));
    }

    /// The state `id` to write, or the error saying it is missing; what is
    /// written through it is kept.
    pub fn build<'c, S>(states: &'c mut StateContainer<S>, id: StateId) -> (r: Result<&'c mut S, String>)
        ensures
            match r {
                Ok(v) => {
                    &&& old(states)@.contains_key(id.id)
                    &&& *v == old(states)@[id.id].value()
                    &&& final(states)@.dom() == old(states)@.dom()
                    &&& final(states)@[id.id].tag() == old(states)@[id.id].tag()
                    &&& final(states)@[id.id].value() == *final(v)
                    &&& forall|k: u64| k != id.id && #[trigger] old(states)@.contains_key(k) ==> final(states)@[k] == old(states)@[k]
                },
                Err(e) => {
                    &&& !old(states)@.contains_key(id.id)
                    &&& final(states)@ == old(states)@
                    &&& e@ == missing_state_text(id, "Writer"@)
                },
            },
    {
        match states.get_mut(id) {
            Some(s) => Ok(s),
            None => Err(missing_state(id, "Writer")),
        }
    }
}

} // verus!

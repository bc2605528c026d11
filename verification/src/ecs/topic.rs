//! [`TopicId`], [`AnyTopic`], [`TopicContainer`] and the handler arguments
//! [`Publisher`] and [`Subscriber`].

use crate::ecs::dependency::Dependency;
use crate::maps::map_keys;
use std::collections::HashMap;
use vstd::prelude::*;

verus! {

broadcast use vstd::std_specs::hash::group_hash_axioms;

/// Identifies a type that implements [`Topic`]: a number unique to the type,
/// and the type's name for messages.
#[derive(Clone, Copy, Debug)]
pub struct TopicId {
    pub id: u64,
    pub name: &'static str,
}

/// A type of message that handlers publish and subscribe to while one event
/// is dispatched.
pub trait Topic {
    /// The id of this type.
    fn id() -> TopicId;
}

/// A topic value tagged with the id of its type.
pub struct AnyTopic<T> {
    id: TopicId,
    topic: T,
}

impl<T> AnyTopic<T> {
    /// The id the value is tagged with.
    pub closed spec fn tag(&self) -> TopicId {
        self.id
    }

    /// The tagged value.
    pub closed spec fn value(&self) -> T {
        self.topic
    }

    /// Tags `t` with `id`.
    pub fn new(id: TopicId, t: T) -> (r: AnyTopic<T>)
        ensures
            r.tag() == id,
            r.value() == t,
    {
        AnyTopic { id, topic: t }
    }

    /// Returns the id the value is tagged with.
    pub fn id(&self) -> (r: TopicId)
        ensures
            r == self.tag(),
    {
        self.id
    }

    /// Returns the value if it is tagged with a topic id equal to `id`.
    pub fn downcast(&self, id: TopicId) -> (r: Option<&T>)
        ensures
            match r {
                Some(v) => self.tag().id == id.id && *v == self.value(),
                None => self.tag().id != id.id,
            },
    {
        if self.id.id == id.id {
            Some(&self.topic)
        } else {
            None
        }
    }
}

/// The topics published so far, in publication order, for each topic id.
pub struct TopicContainer<T> {
    topics: HashMap<u64, Vec<T>>,
}

/// The list kept for `k`, or the empty list when there is none.
pub open spec fn published<T>(m: Map<u64, Seq<T>>, k: u64) -> Seq<T> {
    if m.contains_key(k) {
        m[k]
    } else {
        Seq::empty()
    }
}

impl<T> View for TopicContainer<T> {
    type V = Map<u64, Seq<T>>;

    closed spec fn view(&self) -> Map<u64, Seq<T>> {
        self.topics@.map_values(|v: Vec<T>| v@)
    }
}

impl<T> TopicContainer<T> {
    /// Creates a container with no topics.
    pub fn new() -> (r: TopicContainer<T>)
        ensures
            r@ == Map::<u64, Seq<T>>::empty(),
    {
        let r = TopicContainer { topics: HashMap::new() };
        assert(r@ =~= Map::<u64, Seq<T>>::empty());
        r
    }

    /// Appends `t` to the topics published under `id`.
    pub fn publish(&mut self, id: TopicId, t: T)
        ensures
            final(self)@ == old(self)@.insert(id.id, published(old(self)@, id.id).push(t)),
    {
        let mut list = match self.topics.remove(&id.id) {
            Some(v) => v,
            None => Vec::new(),
        };
        list.push(t);
        self.topics.insert(id.id, list);
        assert(self@ =~= old(self)@.insert(id.id, published(old(self)@, id.id).push(t)));
    }

    /// Returns the topic published under `id` at position `idx`, if there is one.
    pub fn get(&self, id: TopicId, idx: usize) -> (r: Option<&T>)
        ensures
            match r {
                Some(v) => idx < published(self@, id.id).len() && *v == published(self@, id.id)[idx as int],
                None => idx >= published(self@, id.id).len(),
            },
    {
        match self.topics.get(&id.id) {
            Some(list) => {
                if idx < list.len() {
                    Some(&list[idx])
                } else {
                    None
                }
            },
            None => None,
        }
    }

    /// Forgets every published topic; the topic ids seen so far stay, with
    /// empty lists.
    pub fn clear(&mut self)
        ensures
            final(self)@.dom() == old(self)@.dom(),
            forall|k: u64| #[trigger] final(self)@.contains_key(k) ==> final(self)@[k] == Seq::<T>::empty(),
    {
        let keys = map_keys(&self.topics);
        let mut i: usize = 0;
        while i < keys.len()
            invariant
                i <= keys@.len(),
                forall|k: u64| keys@.contains(k) <==> old(self)@.contains_key(k),
                self@.dom() == old(self)@.dom(),
                forall|j: int| 0 <= j < i ==> self@[#[trigger] keys@[j]] == Seq::<T>::empty(),
            decreases keys@.len() - i,
        {
            let k = keys[i];
            let ghost prev = self@;
            self.topics.insert(k, Vec::new());
            proof {
                assert(self@ =~= prev.insert(k, Seq::<T>::empty()));
                assert(self@.dom() =~= old(self)@.dom()) by {
                    assert(keys@.contains(k));
                }
                assert forall|j: int| 0 <= j < i + 1 implies self@[#[trigger] keys@[j]] == Seq::<T>::empty() by {
                    if keys@[j] != k {
                        assert(j < i);
                    }
                }
            }
            i += 1;
        }
        proof {
            assert forall|k: u64| #[trigger] self@.contains_key(k) implies self@[k] == Seq::<T>::empty() by {
                assert(keys@.contains(k));
                let j = choose|j: int| 0 <= j < keys@.len() && keys@[j] == k;
                assert(self@[keys@[j]] == Seq::<T>::empty());
            }
        }
    }
}

/// Handler argument used to publish topics of one type.
pub struct Publisher<'t, T> {
    pub topics: &'t mut TopicContainer<T>,
    pub id: TopicId,
}

impl<'t, T> Publisher<'t, T> {
    /// A publisher of topics with id `id` into `topics`.
    pub fn new(topics: &'t mut TopicContainer<T>, id: TopicId) -> (r: Publisher<'t, T>)
        ensures
            r.container() == *old(topics),
            r.topic_id() == id,
            *final(topics) == *final(r.topics),
    {
        Publisher { topics, id }
    }

    /// The topics the publisher writes into.
    pub open spec fn container(&self) -> TopicContainer<T> {
        *self.topics
    }

    /// The id of the topics it publishes.
    pub open spec fn topic_id(&self) -> TopicId {
        self.id
    }

    /// Publishes `t`.
    pub fn publish(&mut self, t: T)
        ensures
            final(self).topic_id() == old(self).topic_id(),
            final(self).container()@ == old(self).container()@.insert(
                old(self).topic_id().id,
                published(old(self).container()@, old(self).topic_id().id).push(t),
            ),
            *final(final(self).topics) == *final(old(self).topics),
    {
        let id = self.id;
        self.topics.publish(id, t);
    }
}

/// Handler argument used to read the topics of one type.
pub struct Subscriber<'t, T> {
    topics: &'t TopicContainer<T>,
    id: TopicId,
}

impl<'t, T> Subscriber<'t, T> {
    /// A subscriber to topics with id `id` in `topics`.
    pub fn new(topics: &'t TopicContainer<T>, id: TopicId) -> (r: Subscriber<'t, T>)
        ensures
            r.container() == *topics,
            r.topic_id() == id,
    {
        Subscriber { topics, id }
    }

    /// The topics the subscriber reads.
    pub closed spec fn container(&self) -> TopicContainer<T> {
        *self.topics
    }

    /// The id of the topics it reads.
    pub closed spec fn topic_id(&self) -> TopicId {
        self.id
    }

    /// The topics published so far under the subscriber's id, in order.
    pub fn iter(&self) -> (r: Vec<&T>)
        ensures
            r@.len() == published(self.container()@, self.topic_id().id).len(),
            forall|i: int| 0 <= i < r@.len() ==> *r@[i] == published(self.container()@, self.topic_id().id)[i],
    {
        let mut r: Vec<&T> = Vec::new();
        match self.topics.topics.get(&self.id.id) {
            Some(list) => {
                let mut i: usize = 0;
                while i < list.len()
                    invariant
                        list@ == published(self.topics@, self.id.id),
                        i <= list@.len(),
                        r@.len() == i,
                        forall|j: int| 0 <= j < i ==> *r@[j] == list@[j],
                    decreases list@.len() - i,
                {
                    r.push(&list[i]);
                    i += 1;
                }
            },
            None => {},
        }
        r
    }
}

/// Builds the handler argument that publishes topics.
pub struct PublisherBuilder;

impl PublisherBuilder {
    /// Records that the handler publishes topics with id `id`.
    pub fn dependencies(id: TopicId, out: &mut Vec<Dependency>)
        ensures
            final(out)@ == old(out)@.push(Dependency::PublishTopic(id)),
    {
        out.push(Dependency::PublishTopic(id));
    }

    /// A publisher of topics with id `id` into `topics`.
    pub fn build<'c, T>(topics: &'c mut TopicContainer<T>, id: TopicId) -> (r: Publisher<'c, T>)
        ensures
            r.container() == *old(topics),
            r.topic_id() == id,
            *final(topics) == *final(r.topics),
    {
        Publisher::new(topics, id)
    }
}

/// Builds the handler argument that reads topics.
pub struct SubscriberBuilder;

impl SubscriberBuilder {
    /// Records that the handler subscribes to topics with id `id`.
    pub fn dependencies(id: TopicId, out: &mut Vec<Dependency>)
        ensures
            final(out)@ == old(out)@.push(Dependency::SubscribeTopic(id)),
    {
        out.push(Dependency::SubscribeTopic(id));
    }

    /// A subscriber to topics with id `id` in `topics`.
    pub fn build<'c, T>(topics: &'c TopicContainer<T>, id: TopicId) -> (r: Subscriber<'c, T>)
        ensures
            r.container() == *topics,
            r.topic_id() == id,
    {
        Subscriber::new(topics, id)
    }
}

/// The topics map after publishing each of `ts` under `k`, in order.
pub open spec fn after_publishing<T>(m: Map<u64, Seq<T>>, k: u64, ts: Seq<T>) -> Map<u64, Seq<T>>
    decreases ts.len(),
{
    if ts.len() == 0 {
        m
    } else {
        let before = after_publishing(m, k, ts.drop_last());
        before.insert(k, published(before, k).push(ts.last()))
    }
}

/// Topics published one after another under one id are read back, by `get`
/// and by a subscriber's `iter`, in the order they were published, after
/// those published before them; the topics of other ids are untouched.
pub proof fn lemma_publishes_read_in_order<T>(m: Map<u64, Seq<T>>, k: u64, ts: Seq<T>, other: u64)
    requires
        other != k,
    ensures
        published(after_publishing(m, k, ts), k) == published(m, k) + ts,
        published(after_publishing(m, k, ts), other) == published(m, other),
    decreases ts.len(),
{
    if ts.len() > 0 {
        lemma_publishes_read_in_order(m, k, ts.drop_last(), other);
        assert(published(m, k) + ts =~= (published(m, k) + ts.drop_last()).push(ts.last()));
    } else {
        assert(published(m, k) + ts =~= published(m, k));
    }
}

} // verus!

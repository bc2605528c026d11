use space_game::ecs::call::{AnyCallQueue, Call, CallQueue, CallQueueMap};
use space_game::ecs::dependency::Dependency;
use space_game::ecs::event::{AnyEvent, EventId, EventQueue, EventWriter, EventWriterBuilder};
use space_game::ecs::state::{AnyState, DelayedReaderBuilder, ReaderBuilder, StateContainer, StateId, WriterBuilder};
use space_game::ecs::system::SystemId;
use space_game::ecs::topic::{AnyTopic, Publisher, PublisherBuilder, Subscriber, SubscriberBuilder, TopicContainer, TopicId};
use space_game::world::World;

const POS: StateId = StateId { id: 1, name: "Position" };
const VEL: StateId = StateId { id: 2, name: "Velocity" };
const HIT: TopicId = TopicId { id: 9, name: "Hit" };
const TICK: EventId = EventId { id: 4, name: "Tick" };

#[test]
fn any_state_downcasts_by_id() {
    let mut s = AnyState::new(POS, 5u32);
    assert_eq!(s.id().id, 1);
    assert_eq!(s.downcast(POS), Some(&5));
    assert_eq!(s.downcast(VEL), None);
    *s.downcast_mut(POS).unwrap() = 8;
    assert_eq!(s.downcast(POS), Some(&8));
    assert!(s.downcast_mut(VEL).is_none());
}

#[test]
fn state_container_starts_with_defaults() {
    let mut states = StateContainer::new(&[POS, VEL], |id| id.id * 10);
    assert_eq!(states.get(POS), Some(&10));
    assert_eq!(states.get(VEL), Some(&20));
    assert_eq!(states.get(StateId { id: 3, name: "Other" }), None);
    *states.get_mut(VEL).unwrap() += 1;
    assert_eq!(states.get(VEL), Some(&21));
    assert_eq!(states.get(POS), Some(&10));
}

#[test]
fn builders_report_missing_states() {
    let mut states = StateContainer::new(&[POS], |_| 0u8);
    let missing = StateId { id: 3, name: "Score" };
    assert_eq!(ReaderBuilder::build(&states, POS), Ok(&0));
    assert_eq!(ReaderBuilder::build(&states, missing).err().unwrap(), "Missing state `Score` for Reader");
    assert_eq!(DelayedReaderBuilder::build(&states, missing).err().unwrap(), "Missing state `Score` for ReaderDelayed");
    assert_eq!(WriterBuilder::build(&mut states, missing).err().unwrap(), "Missing state `Score` for Writer");
    *WriterBuilder::build(&mut states, POS).ok().unwrap() = 3;
    assert_eq!(states.get(POS), Some(&3));
}

#[test]
fn builders_record_dependencies() {
    let mut deps = Vec::new();
    ReaderBuilder::dependencies(POS, &mut deps);
    DelayedReaderBuilder::dependencies(VEL, &mut deps);
    WriterBuilder::dependencies(POS, &mut deps);
    PublisherBuilder::dependencies(HIT, &mut deps);
    SubscriberBuilder::dependencies(HIT, &mut deps);
    assert_eq!(deps.len(), 5);
    assert!(matches!(deps[0], Dependency::ReadState(s) if s.id == 1));
    assert!(matches!(deps[1], Dependency::ReadStateDelayed(s) if s.id == 2));
    assert!(matches!(deps[2], Dependency::WriteState(s) if s.id == 1));
    assert!(matches!(deps[3], Dependency::PublishTopic(t) if t.id == 9));
    assert!(matches!(deps[4], Dependency::SubscribeTopic(t) if t.id == 9));
}

#[test]
fn topics_are_kept_in_publish_order_until_cleared() {
    let mut topics = TopicContainer::new();
    {
        let mut p = Publisher::new(&mut topics, HIT);
        p.publish("a");
        p.publish("b");
    }
    {
        let mut p = PublisherBuilder::build(&mut topics, HIT);
        p.publish("c");
    }
    assert_eq!(topics.get(HIT, 0), Some(&"a"));
    assert_eq!(topics.get(HIT, 2), Some(&"c"));
    assert_eq!(topics.get(HIT, 3), None);
    let seen: Vec<&str> = Subscriber::new(&topics, HIT).iter().into_iter().copied().collect();
    assert_eq!(seen, vec!["a", "b", "c"]);
    assert_eq!(SubscriberBuilder::build(&topics, HIT).iter().len(), 3);
    topics.clear();
    assert_eq!(topics.get(HIT, 0), None);
    assert!(Subscriber::new(&topics, HIT).iter().is_empty());
}

#[test]
fn any_topic_downcasts_by_id() {
    let t = AnyTopic::new(HIT, 1.5f32);
    assert_eq!(t.id().name, "Hit");
    assert_eq!(t.downcast(HIT), Some(&1.5));
    assert_eq!(t.downcast(TopicId { id: 10, name: "Miss" }), None);
}

#[test]
fn event_queue_is_first_in_first_out() {
    let mut queue = EventQueue::new();
    queue.push(AnyEvent::new(TICK, 1));
    {
        let mut w = EventWriter::new(&mut queue);
        w.write(TICK, 2);
    }
    {
        let mut w = EventWriterBuilder::build(&mut queue);
        w.write(EventId { id: 5, name: "Other" }, 3);
    }
    let first = queue.pop().unwrap();
    assert_eq!(first.downcast(TICK), Some(&1));
    assert_eq!(queue.pop().unwrap().downcast(TICK), Some(&2));
    let third = queue.pop().unwrap();
    assert_eq!(third.id().id, 5);
    assert_eq!(third.downcast(TICK), None);
    assert!(queue.pop().is_none());
}

#[test]
fn world_reads_back_what_was_written() {
    let mut world = World::new();
    assert_eq!(world.insert(1, Box::new(10)), None);
    assert_eq!(world.insert(2, Box::new(20)), None);
    assert_eq!(world.insert(1, Box::new(11)), Some(10));
    assert_eq!(world.get(1), Some(&11));
    *world.get_mut(2).unwrap() += 1;
    assert_eq!(world.get(2), Some(&21));
    assert_eq!(world.remove(1), Some(Box::new(11)));
    assert_eq!(world.get(1), None);
    assert!(world.get_mut(1).is_none());
    assert_eq!(world.remove(1), None);
}

#[test]
fn world_orders_no_systems() {
    let all: [&[space_game::world::Dependency]; 0] = [];
    assert!(space_game::world::Dependency::execution_order(&all).is_empty());
}

#[test]
fn call_queue_runs_last_posted_first() {
    let mut queue: CallQueue<Box<dyn FnOnce(&mut Vec<u32>)>> = CallQueue::new();
    assert!(queue.is_empty());
    queue.post(Box::new(|v: &mut Vec<u32>| v.push(1)));
    {
        let mut call = Call::new(&mut queue);
        call.post(Box::new(|v: &mut Vec<u32>| v.push(2)));
    }
    assert!(!queue.is_empty());
    let mut log = Vec::new();
    queue.run(&mut log);
    assert_eq!(log, vec![2, 1]);
    assert!(queue.is_empty());
}

#[test]
fn call_queue_map_registers_empty_queues() {
    let id = SystemId::of(3);
    assert_eq!(id.type_id(), 3);
    let mut map: CallQueueMap<Box<dyn FnOnce(&mut u32)>> = CallQueueMap::new();
    map.register(id);
    assert!(map.get(id).is_empty());
    map.get_mut(id).post(Box::new(|x: &mut u32| *x += 5));
    assert!(!map.get(id).is_empty());
    let mut x = 1;
    map.get_any(id).run(&mut x);
    assert_eq!(x, 6);
    map.get_mut(id).post(Box::new(|x: &mut u32| *x += 5));
    map.register(id);
    assert!(map.get(id).is_empty());
    map.unregister(id);
}

#[test]
fn any_call_queue_runs_only_when_calls_wait() {
    let mut queue: CallQueue<Box<dyn FnOnce(&mut i32)>> = CallQueue::new();
    let mut x = 3;
    queue.run_any(&mut x);
    assert_eq!(x, 3);
    queue.post(Box::new(|v: &mut i32| *v *= 2));
    queue.post(Box::new(|v: &mut i32| *v += 1));
    queue.run_any(&mut x);
    assert_eq!(x, 8);
    assert!(queue.is_empty());
}

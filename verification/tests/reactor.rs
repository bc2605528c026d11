use space_game::ecs::dependency::Dependency;
use space_game::ecs::event::EventId;
use space_game::ecs::handler::Handler;
use space_game::ecs::event::{AnyEvent, EventQueue};
use space_game::ecs::reactor::{BuildReactorError, InitEvent, Reactor, ReactorBuilder};
use space_game::ecs::state::StateId;

fn state(id: u64, name: &'static str) -> StateId {
    StateId { id, name }
}

fn event(id: u64, name: &'static str) -> EventId {
    EventId { id, name }
}

type Func = fn(u32) -> u32;

fn plus_one(x: u32) -> u32 {
    x + 1
}

fn times_ten(x: u32) -> u32 {
    x * 10
}

#[test]
fn handler_keeps_what_it_was_made_with() {
    let s = state(1, "Score");
    let h: Handler<Func> = Handler::new(event(7, "Tick"), vec![Dependency::WriteState(s)], plus_one);
    assert_eq!(h.event_id().id, 7);
    assert_eq!(h.dependencies().len(), 1);
    assert_eq!(h.call(4), 5);
}

#[test]
fn builder_groups_handlers_by_event() {
    let tick = event(1, "Tick");
    let key = event(2, "Key");
    let builder: ReactorBuilder<Func> = Reactor::builder()
        .add(Handler::<Func>::new(tick, vec![], plus_one))
        .add(Handler::<Func>::new(key, vec![], times_ten))
        .add(Handler::<Func>::new(tick, vec![], times_ten));
    let reactor = builder.build().ok().unwrap();
    // The handlers are kept group after group: both of Tick, then Key.
    assert_eq!(reactor.handler(0).call(1), 2);
    assert_eq!(reactor.handler(1).call(1), 10);
    assert_eq!(reactor.handler(2).call(1), 10);
    assert_eq!(reactor.handler(2).event_id().id, 2);
}

#[test]
fn build_orders_writers_before_readers() {
    let s = state(1, "Position");
    let tick = event(1, "Tick");
    let reader: Handler<Func> = Handler::new(tick, vec![Dependency::ReadState(s)], plus_one);
    let writer: Handler<Func> = Handler::new(tick, vec![Dependency::WriteState(s)], times_ten);
    let reactor = ReactorBuilder::default().add(reader).add(writer).build().ok().unwrap();
    // The writer (index 1) runs before the reader (index 0).
    assert_eq!(reactor.dispatch_order(tick).unwrap(), &vec![1, 0]);
    assert!(reactor.dispatch_order(event(9, "Other")).is_none());
}

#[test]
fn build_reports_the_cyclic_event() {
    let a = state(1, "A");
    let b = state(2, "B");
    let tick = event(4, "Tick");
    let h0: Handler<Func> = Handler::new(tick, vec![Dependency::ReadState(a), Dependency::WriteState(b)], plus_one);
    let h1: Handler<Func> = Handler::new(tick, vec![Dependency::ReadState(b), Dependency::WriteState(a)], plus_one);
    let err = match Reactor::builder().add(h0).add(h1).build() {
        Ok(_) => panic!("a cycle was not reported"),
        Err(e) => e,
    };
    match &err {
        BuildReactorError::Cycle(id, e) => {
            assert_eq!(id.id, 4);
            assert_eq!(e.0.len(), 4);
        }
    }
    let text = err.message();
    assert!(text.starts_with("While analyzing handlers for Tick: Cyclic dependency between: "));
    assert!(text.contains("Handler 0"));
    assert!(text.contains("Handler 1"));
    assert!(text.contains("State A"));
    assert!(text.contains("State B"));
}

#[test]
fn run_handlers_calls_the_kept_order() {
    let tick = event(1, "Tick");
    let key = event(2, "Key");
    let reactor = Reactor::builder()
        .add(Handler::<Func>::new(tick, vec![], plus_one))
        .add(Handler::<Func>::new(key, vec![], times_ten))
        .build()
        .ok()
        .unwrap();
    // Each event runs its own handler.
    assert_eq!(reactor.dispatch_order(tick).unwrap(), &vec![0]);
    assert_eq!(reactor.dispatch_order(key).unwrap(), &vec![1]);
    assert_eq!(reactor.run_handlers(tick, 3), vec![4]);
    assert_eq!(reactor.run_handlers(key, 3), vec![30]);
    assert_eq!(reactor.run_handlers(event(3, "None"), 3), Vec::<u32>::new());
}

#[test]
fn state_ids_lists_each_state_once() {
    let s = state(1, "S");
    let t = state(2, "T");
    let tick = event(1, "Tick");
    let reactor = Reactor::builder()
        .add(Handler::<Func>::new(tick, vec![Dependency::ReadState(s), Dependency::WriteState(t)], plus_one))
        .add(Handler::<Func>::new(event(2, "Key"), vec![Dependency::ReadStateDelayed(s)], plus_one))
        .build()
        .ok()
        .unwrap();
    let ids: Vec<u64> = reactor.state_ids().iter().map(|s| s.id).collect();
    assert_eq!(ids, vec![1, 2]);
    let (container, mut queue) = reactor.new_state_container(|id: StateId| id.id * 100, 'i');
    let init = queue.pop().unwrap();
    assert_eq!(init.id().id, InitEvent::event_id().id);
    assert_eq!(init.id().name, "InitEvent");
    assert_eq!(init.downcast(InitEvent::event_id()), Some(&'i'));
    assert!(queue.pop().is_none());
    assert_eq!(container.get(s), Some(&100));
    assert_eq!(container.get(t), Some(&200));
    assert_eq!(container.get(state(3, "U")), None);
}

#[test]
fn later_groups_index_their_own_handlers() {
    let s = state(1, "S");
    let tick = event(1, "Tick");
    let key = event(2, "Key");
    let reactor = Reactor::builder()
        .add(Handler::<Func>::new(tick, vec![], plus_one))
        .add(Handler::<Func>::new(key, vec![Dependency::ReadState(s)], times_ten))
        .add(Handler::<Func>::new(key, vec![Dependency::WriteState(s)], plus_one))
        .build()
        .ok()
        .unwrap();
    // Key's handlers stand at 1 and 2; the writer (2) runs first.
    assert_eq!(reactor.dispatch_order(key).unwrap(), &vec![2, 1]);
    assert_eq!(reactor.run_handlers(key, 5), vec![6, 50]);
}

#[test]
fn next_dispatch_pops_events_with_their_order() {
    let tick = event(1, "Tick");
    let key = event(2, "Key");
    let reactor = Reactor::builder()
        .add(Handler::<Func>::new(tick, vec![], plus_one))
        .add(Handler::<Func>::new(key, vec![], times_ten))
        .build()
        .ok()
        .unwrap();
    let mut queue = EventQueue::new();
    queue.push(AnyEvent::new(key, 1u8));
    queue.push(AnyEvent::new(event(7, "Other"), 2u8));
    queue.push(AnyEvent::new(tick, 3u8));
    let (first, order) = reactor.next_dispatch(&mut queue).unwrap();
    assert_eq!(first.id().id, 2);
    assert_eq!(order, vec![1]);
    let (second, none) = reactor.next_dispatch(&mut queue).unwrap();
    assert_eq!(second.id().id, 7);
    assert!(none.is_empty());
    let (third, order) = reactor.next_dispatch(&mut queue).unwrap();
    assert_eq!(third.downcast(tick), Some(&3u8));
    assert_eq!(order, vec![0]);
    assert!(reactor.next_dispatch(&mut queue).is_none());
}

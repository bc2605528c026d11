use space_game::ecs::system::{Delay, Dependency, System, SystemId, SystemMap};
use space_game::systems::{run_updates, topological_sort, SystemContainer, SystemDependency, SystemDependencyType};

struct Sys {
    id: u64,
    deps: Vec<Dependency>,
    value: u32,
}

impl System for Sys {
    fn id(&self) -> SystemId {
        SystemId::of(self.id)
    }

    fn dependencies(&self) -> Vec<Dependency> {
        self.deps.clone()
    }
}

fn add(map: &mut SystemMap<Sys>, id: u64, deps: Vec<Dependency>) {
    let sys = Sys { id, deps, value: 0 };
    map.insert(sys.id(), sys.dependencies(), sys);
}

fn pos(order: &[SystemId], id: u64) -> usize {
    order.iter().position(|s| s.type_id() == id).unwrap()
}

#[test]
fn system_map_orders_read_dependencies_first() {
    let mut map = SystemMap::new();
    add(&mut map, 1, vec![Dependency::Read(SystemId::of(2))]);
    add(&mut map, 2, vec![]);
    add(&mut map, 3, vec![Dependency::Call(SystemId::of(1)), Dependency::Read(SystemId::of(42))]);
    let order = map.topological_order().unwrap();
    assert_eq!(order.len(), 3);
    assert!(pos(&order, 2) < pos(&order, 1));
    assert!(pos(&order, 3) < pos(&order, 1));
}

#[test]
fn system_map_delayed_reads_run_first() {
    let mut map = SystemMap::new();
    add(&mut map, 1, vec![Dependency::ReadDelay(SystemId::of(2))]);
    add(&mut map, 2, vec![]);
    let order = map.topological_order().unwrap();
    assert!(pos(&order, 1) < pos(&order, 2));
}

#[test]
fn system_map_tolerates_cycles() {
    let mut map = SystemMap::new();
    add(&mut map, 1, vec![Dependency::Read(SystemId::of(2))]);
    add(&mut map, 2, vec![Dependency::ReadDelay(SystemId::of(1)), Dependency::Read(SystemId::of(1))]);
    let order = map.topological_order().unwrap();
    let mut ids: Vec<u64> = order.iter().map(|s| s.type_id()).collect();
    ids.sort();
    assert_eq!(ids, vec![1, 2]);
}

#[test]
fn system_map_take_and_untake() {
    let mut map = SystemMap::new();
    add(&mut map, 5, vec![]);
    let id = SystemId::of(5);
    map.get_mut(id).value = 7;
    assert_eq!(map.get(id).value, 7);
    let taken = map.take_any(id);
    assert_eq!(taken.value, 7);
    map.untake_any(id, taken);
    assert_eq!(map.remove(id).value, 7);
}

#[test]
fn delay_gives_the_system() {
    let s = Sys { id: 1, deps: vec![], value: 3 };
    let d = Delay(&s);
    assert_eq!(d.get().value, 3);
}

struct Node {
    id: u64,
    deps: Vec<SystemDependency>,
    updates: u32,
}

impl space_game::systems::System for Node {
    fn type_id(&self) -> u64 {
        self.id
    }

    fn dependencies(&self) -> Vec<SystemDependency> {
        self.deps.clone()
    }

    fn update(&mut self, systems: &SystemContainer<Self>) {
        self.updates += systems.len() as u32;
    }
}

fn node(id: u64, deps: Vec<SystemDependency>) -> Node {
    Node { id, deps, updates: 0 }
}

fn container(nodes: Vec<Node>) -> SystemContainer<Node> {
    let mut c = SystemContainer::new();
    for n in nodes {
        c.insert(n.id, n.deps.clone(), n);
    }
    c
}

fn before(id: u64) -> SystemDependency {
    SystemDependency { id, type_: SystemDependencyType::Before }
}

fn after(id: u64) -> SystemDependency {
    SystemDependency { id, type_: SystemDependencyType::After }
}

#[test]
fn container_keeps_systems_by_type_id() {
    let mut c = SystemContainer::new();
    assert!(c.is_empty());
    assert!(c.insert(1, vec![], node(1, vec![])).is_none());
    assert!(c.insert_with_box(2, vec![], Box::new(node(2, vec![]))).is_none());
    assert!(c.insert(1, vec![], Node { id: 1, deps: vec![], updates: 4 }).is_some());
    assert_eq!(c.len(), 2);
    assert!(c.contains(1) && c.contains_id(2) && !c.contains(3));
    assert_eq!(c.get(1).unwrap().updates, 4);
    c.get_mut_with_id(2).unwrap().updates = 9;
    assert_eq!(c.get_with_id(2).unwrap().updates, 9);
    c.get_mut(1).unwrap().updates = 5;
    let mut ids = c.ids();
    ids.sort();
    assert_eq!(ids, vec![1, 2]);
    assert_eq!(c.systems().len(), 2);
    assert_eq!(c.remove(1), Some(()));
    assert_eq!(c.remove(1), None);
    assert_eq!(c.remove_with_id(2).unwrap().updates, 9);
    assert!(c.is_empty());
}

#[test]
fn remove_with_ids_moves_the_present_systems() {
    let mut c = container(vec![node(1, vec![]), node(2, vec![]), node(3, vec![])]);
    let moved = c.remove_with_ids(&[3, 1, 7]);
    assert_eq!(c.len(), 1);
    assert!(c.contains(2));
    assert_eq!(moved.len(), 2);
    assert!(moved.contains(1) && moved.contains(3));
    let mut back = moved.into_systems();
    back.sort_by_key(|n| n.id);
    assert_eq!(back.iter().map(|n| n.id).collect::<Vec<_>>(), vec![1, 3]);
}

#[test]
fn topological_sort_lists_after_before_before() {
    // 1 comes before 2; 3 comes after 2.
    let c = container(vec![node(1, vec![before(2)]), node(2, vec![]), node(3, vec![after(2)])]);
    let order = topological_sort(&c);
    let p = |id: u64| order.iter().position(|&x| x == id).unwrap();
    assert_eq!(order.len(), 3);
    assert!(p(2) < p(1));
    assert!(p(3) < p(2));
}

#[test]
fn run_updates_lends_dependencies_and_drops_the_updated() {
    let mut c = container(vec![node(1, vec![before(2), after(3)]), node(2, vec![]), node(3, vec![])]);
    run_updates(&mut c, &[1]);
    assert_eq!(c.len(), 2);
    assert!(!c.contains(1));
    assert!(c.contains(2) && c.contains(3));
    assert_eq!(c.get(2).unwrap().updates, 0);
    run_updates(&mut c, &[2, 3]);
    assert!(c.is_empty());
}

fn entry(id: u64, updates: u32) -> (u64, Vec<SystemDependency>, Box<Node>) {
    (id, vec![], Box::new(Node { id, deps: vec![], updates }))
}

#[test]
fn from_systems_keeps_the_last_of_each_id() {
    let c = SystemContainer::from_systems(vec![entry(1, 10), entry(2, 20), entry(1, 30)]);
    assert_eq!(c.len(), 2);
    assert_eq!(c.get(1).unwrap().updates, 30);
    assert_eq!(c.get(2).unwrap().updates, 20);
}

#[test]
fn extend_adds_to_what_is_there() {
    let mut c = container(vec![node(1, vec![])]);
    c.extend(vec![entry(2, 5), entry(3, 6)]);
    assert_eq!(c.len(), 3);
    assert_eq!(c.get(1).unwrap().updates, 0);
    assert_eq!(c.get(3).unwrap().updates, 6);
    c.extend(vec![]);
    assert_eq!(c.len(), 3);
}

#[test]
fn system_ids_list_every_system_once() {
    let mut map = SystemMap::new();
    add(&mut map, 4, vec![]);
    add(&mut map, 9, vec![]);
    let mut ids: Vec<u64> = map.system_ids().iter().map(|s| s.type_id()).collect();
    ids.sort();
    assert_eq!(ids, vec![4, 9]);
    for id in map.system_ids() {
        map.get_mut(id).value += 1;
    }
    assert_eq!(map.get(SystemId::of(4)).value, 1);
    assert_eq!(map.get(SystemId::of(9)).value, 1);
}

#[test]
fn system_map_iter_systems_mut_updates_every_system() {
    let mut map = SystemMap::new();
    add(&mut map, 1, vec![]);
    add(&mut map, 2, vec![Dependency::Read(SystemId::of(1))]);
    let mut seen = Vec::new();
    for (id, sys) in map.iter_systems_mut() {
        seen.push(id.type_id());
        sys.value = 10 * id.type_id() as u32;
    }
    seen.sort();
    assert_eq!(seen, vec![1, 2]);
    assert_eq!(map.get(SystemId::of(1)).value, 10);
    assert_eq!(map.get(SystemId::of(2)).value, 20);
}

#[test]
fn system_map_insert_then_get_gives_the_system() {
    let mut map = SystemMap::new();
    add(&mut map, 8, vec![]);
    map.get_mut(SystemId::of(8)).value = 3;
    add(&mut map, 9, vec![]);
    assert_eq!(map.get(SystemId::of(8)).value, 3);
    assert_eq!(map.get(SystemId::of(9)).value, 0);
}

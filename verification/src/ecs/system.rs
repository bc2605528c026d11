//! Systems, their ids and dependencies, and the [`SystemMap`] that holds
//! them and orders them by their dependencies.

use crate::ecs::entity::{ArchetypeId, EntityId};
use crate::graph::{children_first, order_nodes, pair_edges, same_nodes};
use crate::maps::{map_get_mut, map_iter_mut, map_keys};
use std::collections::HashMap;
use vstd::prelude::*;

verus! {

broadcast use vstd::std_specs::hash::group_hash_axioms;

/// Identifies a system type by a number unique to the type.
#[derive(Clone, Copy, Debug, PartialEq, Eq, Hash, Structural)]
pub struct SystemId(u64);

impl View for SystemId {
    type V = u64;

    closed spec fn view(&self) -> u64 {
        self.0
    }
}

impl SystemId {
    /// The id of the system type whose type id is `type_id`.
    pub fn of(type_id: u64) -> (r: SystemId)
        ensures
            r@ == type_id,
    {
        SystemId(type_id)
    }

    /// The type id this system id stands for.
    pub fn type_id(self) -> (r: u64)
        ensures
            r == self@,
    {
        self.0
    }
}

/// A dependency of a system on another system.
#[derive(Clone, Copy, Debug)]
pub enum Dependency {
    /// Reads the other system: the other system updates first.
    Read(SystemId),
    /// Reads the other system as it was one cycle earlier: this system
    /// updates first.
    ReadDelay(SystemId),
    /// Posts calls to the other system: this system updates first.
    Call(SystemId),
}

/// A system: it has an id and a list of dependencies on other systems, and
/// is told about the entities that are created and destroyed. A
/// [`SystemMap`] keeps a system under the id and dependencies it is given
/// with it.
pub trait System {
    /// The id of this system.
    fn id(&self) -> SystemId;

    /// The dependencies of this system.
    fn dependencies(&self) -> Vec<Dependency>;

    /// Called when the entity `id` of archetype `arch_id` is created.
    fn create_entity(&mut self, id: EntityId, arch_id: ArchetypeId) {
    }

    /// Called when the entity `id` is destroyed.
    fn destroy_entity(&mut self, id: EntityId) {
    }
}

/// A system as it was one cycle earlier.
pub struct Delay<'a, S>(pub &'a S);

impl<'a, S> Delay<'a, S> {
    /// The system this refers to.
    pub fn get(&self) -> (r: &'a S)
        ensures
            r == self.0,
    {
        self.0
    }
}

/// A system's dependencies, and the system unless it is taken.
struct Slot<Sys> {
    deps: Vec<Dependency>,
    sys: Option<Box<Sys>>,
}

/// The systems, by id, each with its dependencies; a system that is taken
/// out for an update leaves its slot empty until it is put back.
pub struct SystemMap<Sys> {
    systems: HashMap<u64, Slot<Sys>>,
}

/// The dependencies and the system of a slot.
spec fn slot_view<Sys>(s: Slot<Sys>) -> (Seq<Dependency>, Option<Sys>) {
    (
        s.deps@,
        match s.sys {
            Some(b) => Some(*b),
            None => None,
        },
    )
}

impl<Sys> View for SystemMap<Sys> {
    type V = Map<u64, (Seq<Dependency>, Option<Sys>)>;

    closed spec fn view(&self) -> Map<u64, (Seq<Dependency>, Option<Sys>)> {
        self.systems@.map_values(|s: Slot<Sys>| slot_view(s))
    }
}

/// The system kept under `k` in `m` has a dependency at position `j` that
/// requires system `c` to update before system `p`.
pub open spec fn dep_edge<Sys>(m: Map<u64, (Seq<Dependency>, Option<Sys>)>, k: u64, j: int, p: int, c: int) -> bool {
    &&& m.contains_key(k)
    &&& 0 <= j < m[k].0.len()
    &&& match m[k].0[j] {
        Dependency::Read(d) => p == k && c == d@,
        Dependency::ReadDelay(d) => p == d@ && c == k,
        Dependency::Call(d) => p == d@ && c == k,
    }
}

/// System `c` has to update before system `p`; both are in `m`.
pub open spec fn system_edge<Sys>(m: Map<u64, (Seq<Dependency>, Option<Sys>)>, p: int, c: int) -> bool {
    &&& 0 <= p <= u64::MAX
    &&& 0 <= c <= u64::MAX
    &&& m.contains_key(p as u64)
    &&& m.contains_key(c as u64)
    &&& exists|k: u64, j: int| #[trigger] dep_edge(m, k, j, p, c)
}

/// The relation "has to update after" between the systems of `m`.
pub open spec fn system_edges<Sys>(m: Map<u64, (Seq<Dependency>, Option<Sys>)>) -> spec_fn(int, int) -> bool {
    |p: int, c: int| system_edge(m, p, c)
}

/// `order` lists each key of `m` exactly once.
pub open spec fn lists_keys<V>(order: Seq<u64>, m: Map<u64, V>) -> bool {
    &&& order.no_duplicates()
    &&& forall|x: u64| #[trigger] order.contains(x) <==> m.contains_key(x)
}

/// The numbers of a list of system ids.
pub open spec fn ids_of(s: Seq<SystemId>) -> Seq<u64> {
    s.map_values(|x: SystemId| x@)
}

/// The pair `(a, b)` is in `s`.
spec fn has_pair(s: Seq<(u64, u64)>, a: u64, b: u64) -> bool {
    s.contains((a, b))
}

/// Position `(i, j)` comes before `(i0, j0)` in the scan of `rows`.
spec fn scanned(rows: Seq<Seq<Dependency>>, i0: int, j0: int, i: int, j: int) -> bool {
    0 <= i < rows.len() && 0 <= j < rows[i].len() && (i < i0 || (i == i0 && j < j0))
}

/// Dependency `rows[i][j]` of system `keys[i]` requires `c` before `p`.
spec fn row_edge(keys: Seq<u64>, rows: Seq<Seq<Dependency>>, i: int, j: int, p: int, c: int) -> bool {
    match rows[i][j] {
        Dependency::Read(d) => p == keys[i] && c == d@,
        Dependency::ReadDelay(d) => p == d@ && c == keys[i],
        Dependency::Call(d) => p == d@ && c == keys[i],
    }
}

/// Some dependency scanned before `(i0, j0)` requires `c` before `p`.
spec fn row_edge_upto(keys: Seq<u64>, rows: Seq<Seq<Dependency>>, i0: int, j0: int, p: int, c: int) -> bool {
    exists|i: int, j: int| scanned(rows, i0, j0, i, j) && #[trigger] row_edge(keys, rows, i, j, p, c)
}

proof fn lemma_row_edge_step(keys: Seq<u64>, rows: Seq<Seq<Dependency>>, i0: int, j0: int, p: int, c: int)
    requires
        0 <= i0 < rows.len(),
        0 <= j0 < rows[i0].len(),
    ensures
        row_edge_upto(keys, rows, i0, j0 + 1, p, c) <==> (row_edge_upto(keys, rows, i0, j0, p, c)
            || row_edge(keys, rows, i0, j0, p, c)),
{
    if row_edge_upto(keys, rows, i0, j0 + 1, p, c) {
        let (i, j) = choose|i: int, j: int| scanned(rows, i0, j0 + 1, i, j) && #[trigger] row_edge(keys, rows, i, j, p, c);
        if !(i == i0 && j == j0) {
            assert(scanned(rows, i0, j0, i, j));
        }
    }
    if row_edge_upto(keys, rows, i0, j0, p, c) {
        let (i, j) = choose|i: int, j: int| scanned(rows, i0, j0, i, j) && #[trigger] row_edge(keys, rows, i, j, p, c);
        assert(scanned(rows, i0, j0 + 1, i, j));
    }
    if row_edge(keys, rows, i0, j0, p, c) {
        assert(scanned(rows, i0, j0 + 1, i0, j0));
    }
}

proof fn lemma_row_edge_row(keys: Seq<u64>, rows: Seq<Seq<Dependency>>, i0: int, p: int, c: int)
    requires
        0 <= i0 < rows.len(),
    ensures
        row_edge_upto(keys, rows, i0 + 1, 0, p, c) <==> row_edge_upto(keys, rows, i0, rows[i0].len() as int, p, c),
{
    if row_edge_upto(keys, rows, i0 + 1, 0, p, c) {
        let (i, j) = choose|i: int, j: int| scanned(rows, i0 + 1, 0, i, j) && #[trigger] row_edge(keys, rows, i, j, p, c);
        assert(scanned(rows, i0, rows[i0].len() as int, i, j));
    }
    if row_edge_upto(keys, rows, i0, rows[i0].len() as int, p, c) {
        let (i, j) = choose|i: int, j: int| scanned(rows, i0, rows[i0].len() as int, i, j) && #[trigger] row_edge(keys, rows, i, j, p, c);
        assert(scanned(rows, i0 + 1, 0, i, j));
    }
}

/// Lists every pair `(p, c)` such that a dependency in `rows[i]` of system
/// `keys[i]` requires `c` to update before `p`.
fn edge_pairs(keys: &Vec<u64>, rows: &Vec<Vec<Dependency>>) -> (r: Vec<(u64, u64)>)
    requires
        keys@.len() == rows@.len(),
    ensures
        forall|a: u64, b: u64| #[trigger] has_pair(r@, a, b) <==> row_edge_upto(
            keys@,
            rows@.map_values(|v: Vec<Dependency>| v@),
            rows@.len() as int,
            0,
            a as int,
            b as int,
        ),
{
    let ghost rs = rows@.map_values(|v: Vec<Dependency>| v@);
    let ghost ks = keys@;
    let n = rows.len();
    let mut edges: Vec<(u64, u64)> = Vec::new();
    let mut i: usize = 0;
    while i < n
        invariant
            n == rs.len(),
            ks.len() == n,
            ks == keys@,
            rs == rows@.map_values(|v: Vec<Dependency>| v@),
            i <= n,
            forall|a: u64, b: u64| #[trigger] has_pair(edges@, a, b) <==> row_edge_upto(ks, rs, i as int, 0, a as int, b as int),
        decreases n - i,
    {
        let row = &rows[i];
        assert(row@ == rs[i as int]);
        let k = keys[i];
        let mut j: usize = 0;
        while j < row.len()
            invariant
                n == rs.len(),
                ks.len() == n,
                ks == keys@,
                i < n,
                k == ks[i as int],
                row@ == rs[i as int],
                j <= row@.len(),
                forall|a: u64, b: u64| #[trigger] has_pair(edges@, a, b) <==> row_edge_upto(ks, rs, i as int, j as int, a as int, b as int),
            decreases row@.len() - j,
        {
            let ghost before = edges@;
            let d = row[j];
            let pair = match d {
                Dependency::Read(t) => (k, t.0),
                Dependency::ReadDelay(t) => (t.0, k),
                Dependency::Call(t) => (t.0, k),
            };
            edges.push(pair);
            proof {
                assert forall|a: u64, b: u64| #[trigger] has_pair(edges@, a, b) <==> row_edge_upto(ks, rs, i as int, j + 1, a as int, b as int) by {
                    lemma_row_edge_step(ks, rs, i as int, j as int, a as int, b as int);
                    assert(has_pair(before, a, b) <==> row_edge_upto(ks, rs, i as int, j as int, a as int, b as int));
                    assert(row_edge(ks, rs, i as int, j as int, a as int, b as int) <==> pair == (a, b));
                    if has_pair(edges@, a, b) && !has_pair(before, a, b) {
                        let m = choose|m: int| 0 <= m < edges@.len() && edges@[m] == (a, b);
                        if m < before.len() {
                            assert(before[m] == (a, b));
                        }
                    }
                    if has_pair(before, a, b) {
                        let m = choose|m: int| 0 <= m < before.len() && before[m] == (a, b);
                        assert(edges@[m] == (a, b));
                    }
                    if pair == (a, b) {
                        assert(edges@[before.len() as int] == (a, b));
                    }
                }
            }
            j += 1;
        }
        proof {
            assert forall|a: u64, b: u64| #[trigger] has_pair(edges@, a, b) <==> row_edge_upto(ks, rs, i + 1, 0, a as int, b as int) by {
                lemma_row_edge_row(ks, rs, i as int, a as int, b as int);
            }
        }
        i += 1;
    }
    edges
}

/// A copy of a list of dependencies.
fn copy_deps(v: &Vec<Dependency>) -> (r: Vec<Dependency>)
    ensures
        r@ == v@,
{
    let mut r: Vec<Dependency> = Vec::new();
    let mut i: usize = 0;
    while i < v.len()
        invariant
            i <= v@.len(),
            r@ == v@.subrange(0, i as int),
        decreases v@.len() - i,
    {
        r.push(v[i]);
        proof {
            assert(v@.subrange(0, i + 1) =~= v@.subrange(0, i as int).push(v@[i as int]));
        }
        i += 1;
    }
    assert(v@.subrange(0, v@.len() as int) =~= v@);
    r
}

impl<Sys> SystemMap<Sys> {
    /// Creates a map with no systems.
    pub fn new() -> (r: SystemMap<Sys>)
        ensures
            r@ == Map::<u64, (Seq<Dependency>, Option<Sys>)>::empty(),
    {
        let r = SystemMap { systems: HashMap::new() };
        assert(r@ =~= Map::<u64, (Seq<Dependency>, Option<Sys>)>::empty());
        r
    }

    /// Adds `sys` under the id `id` with the dependencies `deps`; there must
    /// be no system with that id yet.
    pub fn insert(&mut self, id: SystemId, deps: Vec<Dependency>, sys: Sys)
        requires
            !old(self)@.contains_key(id@),
        ensures
            final(self)@ == old(self)@.insert(id@, (deps@, Some(sys))),
    {
        self.systems.insert(id.0, Slot { deps, sys: Some(Box::new(sys)) });
        assert(self@ =~= old(self)@.insert(id@, (deps@, Some(sys))));
    }

    /// Removes and returns the system with the given id, which must be
    /// present and not taken.
    pub fn remove(&mut self, id: SystemId) -> (r: Sys)
        requires
            old(self)@.contains_key(id@),
            old(self)@[id@].1 is Some,
        ensures
            r == old(self)@[id@].1->Some_0,
            final(self)@ == old(self)@.remove(id@),
    {
        let slot = self.systems.remove(&id.0);
        assert(self@ =~= old(self)@.remove(id@));
        match slot {
            Some(Slot { deps: _, sys: Some(b) }) => *b,
            _ => vstd::pervasive::unreached(),
        }
    }

    /// Returns the system with the given id, which must be present and not
    /// taken.
    pub fn get(&self, id: SystemId) -> (r: &Sys)
        requires
            self@.contains_key(id@),
            self@[id@].1 is Some,
        ensures
            *r == self@[id@].1->Some_0,
    {
        match self.systems.get(&id.0) {
            Some(slot) => match &slot.sys {
                Some(b) => &**b,
                None => vstd::pervasive::unreached(),
            },
            None => vstd::pervasive::unreached(),
        }
    }

    /// Returns the system with the given id mutably; it must be present and
    /// not taken. What is written through the reference is kept.
    pub fn get_mut(&mut self, id: SystemId) -> (r: &mut Sys)
        requires
            old(self)@.contains_key(id@),
            old(self)@[id@].1 is Some,
        ensures
            *r == old(self)@[id@].1->Some_0,
            final(self)@ == old(self)@.insert(id@, (old(self)@[id@].0, Some(*final(r)))),
    {
        match map_get_mut(&mut self.systems, id.0) {
            Some(slot) => match &mut slot.sys {
                Some(b) => &mut **b,
                None => vstd::pervasive::unreached(),
            },
            None => vstd::pervasive::unreached(),
        }
    }

    /// The ids of the systems kept, each once: with [`SystemMap::get_mut`],
    /// what reaches every system to update it.
    pub fn system_ids(&self) -> (r: Vec<SystemId>)
        ensures
            lists_keys(ids_of(r@), self@),
    {
        let keys = map_keys(&self.systems);
        let mut ids: Vec<SystemId> = Vec::new();
        let mut i: usize = 0;
        while i < keys.len()
            invariant
                i <= keys@.len(),
                ids_of(ids@) == keys@.subrange(0, i as int),
            decreases keys@.len() - i,
        {
            let ghost before = ids@;
            let id = SystemId::of(keys[i]);
            ids.push(id);
            proof {
                assert(ids@ == before.push(id));
                assert(ids_of(ids@) =~= ids_of(before).push(keys@[i as int]));
                assert(keys@.subrange(0, i + 1) =~= keys@.subrange(0, i as int).push(keys@[i as int]));
            }
            i += 1;
        }
        proof {
            assert(keys@.subrange(0, keys@.len() as int) =~= keys@);
            assert(self@.dom() =~= self.systems@.dom());
        }
        ids
    }

    /// Every system, each once with its id, to update in place; whatever is
    /// written through a reference becomes the system kept under its id. No
    /// system may be taken out.
    pub fn iter_systems_mut(&mut self) -> (r: Vec<(SystemId, &mut Sys)>)
        requires
            forall|k: u64| #[trigger] old(self)@.contains_key(k) ==> old(self)@[k].1 is Some,
        ensures
            r@.len() == old(self)@.len(),
            forall|i: int, j: int| 0 <= i < j < r@.len() ==> r@[i].0@ != r@[j].0@,
            forall|i: int|
                0 <= i < r@.len() ==> old(self)@.contains_key(#[trigger] r@[i].0@) && *r@[i].1 == old(self)@[r@[i].0@].1->Some_0,
            final(self)@.dom() == old(self)@.dom(),
            forall|i: int|
                0 <= i < r@.len() ==> final(self)@[#[trigger] r@[i].0@] == (old(self)@[r@[i].0@].0, Some(*final(r@[i].1))),
    {
        let ghost before = self.systems@;
        proof {
            assert forall|k: u64| #[trigger] before.contains_key(k) implies before[k].sys is Some by {
                assert(old(self)@.contains_key(k));
                assert(old(self)@[k] == slot_view(before[k]));
            }
            assert(old(self)@.dom() =~= before.dom());
        }
        let mut entries = map_iter_mut(&mut self.systems);
        let ghost all = entries@;
        let mut r: Vec<(SystemId, &mut Sys)> = Vec::new();
        while entries.len() > 0
            invariant
                all.len() == before.len(),
                entries@.len() + r@.len() == all.len(),
                forall|i: int| 0 <= i < entries@.len() ==> entries@[i] == all[i],
                forall|i: int, j: int| 0 <= i < j < all.len() ==> all[i].0 != all[j].0,
                forall|i: int| 0 <= i < all.len() ==> before.contains_key(#[trigger] all[i].0) && *all[i].1 == before[all[i].0],
                forall|k: u64| #[trigger] before.contains_key(k) ==> before[k].sys is Some,
                forall|i: int| #![trigger r@[i]] 0 <= i < r@.len() ==> {
                    let e = all[all.len() - 1 - i];
                    &&& r@[i].0@ == e.0
                    &&& *r@[i].1 == (*e.1).sys->Some_0
                    &&& *final(e.1) == (Slot { deps: (*e.1).deps, sys: Some(Box::new(*final(r@[i].1))) })
                },
            decreases entries@.len(),
        {
            let ghost n = entries@.len();
            let (k, slot) = match entries.pop() {
                Some(e) => e,
                None => vstd::pervasive::unreached(),
            };
            assert(before.contains_key(all[n - 1].0));
            let sys: &mut Sys = match &mut slot.sys {
                Some(b) => &mut **b,
                None => vstd::pervasive::unreached(),
            };
            r.push((SystemId(k), sys));
        }
        proof {
            assert forall|i: int|
                0 <= i < r@.len() implies old(self)@.contains_key(#[trigger] r@[i].0@) && *r@[i].1 == old(self)@[r@[i].0@].1->Some_0 by {
                let e = all[all.len() - 1 - i];
                assert(r@[i].0@ == e.0);
                assert(old(self)@[e.0] == slot_view(before[e.0]));
            }
            assert forall|i: int, j: int| 0 <= i < j < r@.len() implies r@[i].0@ != r@[j].0@ by {
                assert(r@[i].0@ == all[all.len() - 1 - i].0);
                assert(r@[j].0@ == all[all.len() - 1 - j].0);
            }
        }
        r
    }

    /// Takes the system with the given id out for an update, leaving its
    /// slot empty; it must be present and not taken.
    pub fn take_any(&mut self, id: SystemId) -> (r: Box<Sys>)
        requires
            old(self)@.contains_key(id@),
            old(self)@[id@].1 is Some,
        ensures
            *r == old(self)@[id@].1->Some_0,
            final(self)@ == old(self)@.insert(id@, (old(self)@[id@].0, None)),
    {
        match map_get_mut(&mut self.systems, id.0) {
            Some(slot) => {
                let taken = slot.sys.take();
                match taken {
                    Some(b) => {
                        proof {
                            assert(self@ =~= old(self)@.insert(id@, (old(self)@[id@].0, None)));
                        }
                        b
                    },
                    None => vstd::pervasive::unreached(),
                }
            },
            None => vstd::pervasive::unreached(),
        }
    }

    /// Puts the taken system `sys` back into the empty slot of `id`, which
    /// must exist.
    pub fn untake_any(&mut self, id: SystemId, sys: Box<Sys>)
        requires
            old(self)@.contains_key(id@),
            old(self)@[id@].1 is None,
        ensures
            final(self)@ == old(self)@.insert(id@, (old(self)@[id@].0, Some(*sys))),
    {
        match map_get_mut(&mut self.systems, id.0) {
            Some(slot) => {
                if slot.sys.is_some() {
                    vstd::pervasive::unreached()
                } else {
                    slot.sys = Some(sys);
                    proof {
                        assert(self@ =~= old(self)@.insert(id@, (old(self)@[id@].0, Some(*sys))));
                    }
                }
            },
            None => vstd::pervasive::unreached(),
        }
    }

    /// Orders the systems so that every system comes after the systems it
    /// has to wait for, except where two systems wait for each other through
    /// a cycle; no system may be taken. Cycles do not make it fail: the
    /// result is always `Ok`.
    pub fn topological_order(&self) -> (r: Result<Vec<SystemId>, ()>)
        requires
            forall|k: u64| #[trigger] self@.contains_key(k) ==> self@[k].1 is Some,
        ensures
            match r {
                Ok(order) => {
                    &&& lists_keys(ids_of(order@), self@)
                    &&& children_first(system_edges(self@), ids_of(order@))
                },
                Err(_) => false,
            },
    {
        let ghost m = self@;
        let keys = map_keys(&self.systems);
        let n = keys.len();
        let mut rows: Vec<Vec<Dependency>> = Vec::new();
        let mut i: usize = 0;
        while i < n
            invariant
                m == self@,
                n == keys@.len(),
                forall|k: u64| keys@.contains(k) <==> m.contains_key(k),
                i <= n,
                rows@.len() == i,
                forall|q: int| 0 <= q < i ==> (#[trigger] rows@[q])@ == m[keys@[q]].0,
            decreases n - i,
        {
            let k = keys[i];
            assert(keys@.contains(k));
            match self.systems.get(&k) {
                Some(slot) => {
                    rows.push(copy_deps(&slot.deps));
                },
                None => vstd::pervasive::unreached(),
            }
            i += 1;
        }
        let edges = edge_pairs(&keys, &rows);
        let order = order_nodes(&keys, &edges);
        let ghost o = order@;
        let mut result: Vec<SystemId> = Vec::new();
        let mut q: usize = 0;
        while q < order.len()
            invariant
                o == order@,
                q <= o.len(),
                result@.len() == q,
                forall|t: int| 0 <= t < q ==> (#[trigger] result@[t])@ == o[t],
            decreases o.len() - q,
        {
            result.push(SystemId(order[q]));
            q += 1;
        }
        proof {
            let rs = rows@.map_values(|v: Vec<Dependency>| v@);
            let ks = keys@;
            assert(ids_of(result@) =~= o);
            let pe = pair_edges(ks, edges@);
            let se = system_edges(m);
            assert forall|a: int, b: int| #[trigger] pe(a, b) == se(a, b) by {
                if pe(a, b) {
                    assert(has_pair(edges@, a as u64, b as u64));
                    let (i, j) = choose|i: int, j: int| scanned(rs, n as int, 0, i, j) && #[trigger] row_edge(ks, rs, i, j, a, b);
                    assert(rs[i] == rows@[i]@);
                    assert(ks.contains(ks[i]));
                    assert(dep_edge(m, ks[i], j, a, b));
                }
                if se(a, b) {
                    let (k, j) = choose|k: u64, j: int| #[trigger] dep_edge(m, k, j, a, b);
                    assert(ks.contains(k));
                    let i = choose|i: int| 0 <= i < ks.len() && ks[i] == k;
                    assert(rs[i] == rows@[i]@);
                    assert(scanned(rs, n as int, 0, i, j));
                    assert(row_edge(ks, rs, i, j, a, b));
                    assert(has_pair(edges@, a as u64, b as u64));
                }
            }
            assert(pe =~= se);
        }
        Ok(result)
    }
}

/// Taking a system out and putting it back leaves the map as it was.
pub proof fn lemma_take_untake<Sys>(m: Map<u64, (Seq<Dependency>, Option<Sys>)>, id: u64)
    requires
        m.contains_key(id),
        m[id].1 is Some,
    ensures
        m.insert(id, (m[id].0, None)).insert(id, (m[id].0, m[id].1)) == m,
{
    assert(m.insert(id, (m[id].0, None)).insert(id, (m[id].0, m[id].1)) =~= m);
}

/// A removed system is gone: its id is no longer kept, and a list of the
/// ids kept, such as [`SystemMap::topological_order`] gives, does not name it.
pub proof fn lemma_removed_system_is_gone<Sys>(m: Map<u64, (Seq<Dependency>, Option<Sys>)>, id: u64, order: Seq<u64>)
    requires
        lists_keys(order, m.remove(id)),
    ensures
        !m.remove(id).contains_key(id),
        !order.contains(id),
        forall|k: u64| k != id && m.contains_key(k) ==> #[trigger] m.remove(id).contains_key(k) && m.remove(id)[k] == m[k],
{
}

/// While a system is taken it cannot be taken, fetched or removed again (its
/// slot is empty); putting it back makes its slot hold it again, as it was
/// before it was taken.
pub proof fn lemma_taken_until_put_back<Sys>(m: Map<u64, (Seq<Dependency>, Option<Sys>)>, id: u64)
    requires
        m.contains_key(id),
        m[id].1 is Some,
    ensures
        m.insert(id, (m[id].0, None))[id].1 is None,
        m.insert(id, (m[id].0, None)).insert(id, (m[id].0, m[id].1))[id].1 == m[id].1,
        m.insert(id, (m[id].0, None)).insert(id, (m[id].0, m[id].1)) == m,
{
    lemma_take_untake(m, id);
}

/// A system inserted under an id that was free is found there: its slot
/// holds it (so `get`, `get_mut`, `remove` and `take_any` may be called and
/// give it), with the dependencies it was inserted with, and the other
/// systems stay as they were.
pub proof fn lemma_inserted_system_is_found<Sys>(
    m: Map<u64, (Seq<Dependency>, Option<Sys>)>,
    id: u64,
    deps: Seq<Dependency>,
    sys: Sys,
    other: u64,
)
    requires
        !m.contains_key(id),
        other != id,
    ensures
        m.insert(id, (deps, Some(sys))).contains_key(id),
        m.insert(id, (deps, Some(sys)))[id].1 == Some(sys),
        m.insert(id, (deps, Some(sys)))[id].0 == deps,
        m.insert(id, (deps, Some(sys))).contains_key(other) == m.contains_key(other),
        m.contains_key(other) ==> m.insert(id, (deps, Some(sys)))[other] == m[other],
{
}

} // verus!

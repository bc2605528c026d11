//! [`SystemContainer`]: systems kept by type id, ordered by the constraints
//! they declare on one another, and updated in a given schedule.

use crate::graph::{children_first, order_nodes, pair_edges};
use crate::maps::{map_get_mut, map_keys};
use std::collections::HashMap;
use vstd::prelude::*;

verus! {

broadcast use vstd::std_specs::hash::group_hash_axioms;

/// Which side of a constraint the other system is on.
#[derive(Clone, Copy, Debug)]
pub enum SystemDependencyType {
    /// The declaring system is recorded on the `before` side of the pair;
    /// the topological order lists the other system ahead of it.
    Before,
    /// The other system is recorded on the `before` side of the pair; the
    /// topological order lists the declaring system ahead of it.
    After,
}

/// A constraint a system declares on the system with type id `id`.
#[derive(Clone, Copy, Debug)]
pub struct SystemDependency {
    pub id: u64,
    pub type_: SystemDependencyType,
}

/// A system: it has a type id, declares constraints on other systems, and
/// is updated with the systems it depends on at hand. A
/// [`SystemContainer`] keeps a system under the type id and constraints it
/// is given with it.
pub trait System: Sized {
    /// The type id of this system.
    fn type_id(&self) -> u64;

    /// The constraints this system declares.
    fn dependencies(&self) -> Vec<SystemDependency>;

    /// `after` is what updating `before` gives when the systems at hand are
    /// `systems`. A system type that states what its update does overrides
    /// this; by default nothing is said of the result.
    open spec fn updated(after: Self, before: Self, systems: Map<u64, (Seq<SystemDependency>, Self)>) -> bool {
        true
    }

    /// Updates this system; `systems` holds the systems it depends on.
    fn update(&mut self, systems: &SystemContainer<Self>)
        ensures
            Self::updated(*final(self), *old(self), systems@),
    ;
}

/// A system and its constraints.
struct Entry<Sys> {
    deps: Vec<SystemDependency>,
    sys: Box<Sys>,
}

/// Systems by type id, each with its constraints.
pub struct SystemContainer<Sys> {
    systems: HashMap<u64, Entry<Sys>>,
}

/// The constraints and the system of an entry.
spec fn entry_view<Sys>(e: Entry<Sys>) -> (Seq<SystemDependency>, Sys) {
    (e.deps@, *e.sys)
}

impl<Sys> View for SystemContainer<Sys> {
    type V = Map<u64, (Seq<SystemDependency>, Sys)>;

    closed spec fn view(&self) -> Map<u64, (Seq<SystemDependency>, Sys)> {
        self.systems@.map_values(|e: Entry<Sys>| entry_view(e))
    }
}

/// `m` with `entries` inserted in order, each under its type id.
pub open spec fn insert_all<Sys>(
    m: Map<u64, (Seq<SystemDependency>, Sys)>,
    entries: Seq<(u64, Vec<SystemDependency>, Box<Sys>)>,
) -> Map<u64, (Seq<SystemDependency>, Sys)>
    decreases entries.len(),
{
    if entries.len() == 0 {
        m
    } else {
        insert_all(m, entries.drop_last()).insert(entries.last().0, (entries.last().1@, *entries.last().2))
    }
}

/// What a container holds is finite: it has finitely many type ids.
pub proof fn lemma_container_finite<Sys>(c: &SystemContainer<Sys>)
    ensures
        c@.dom().finite(),
{
    assert(c@.dom() =~= c.systems@.dom());
    vstd::std_specs::hash::axiom_hashmap_view_finite_dom(c.systems);
}

/// `order` lists each key of `m` exactly once.
pub open spec fn lists_all_keys<V>(order: Seq<u64>, m: Map<u64, V>) -> bool {
    &&& order.no_duplicates()
    &&& forall|x: u64| #[trigger] order.contains(x) <==> m.contains_key(x)
}

/// The keys in the first `n` entries of `ids`.
pub open spec fn first_ids(ids: Seq<u64>, n: int) -> Set<u64> {
    ids.subrange(0, n).to_set()
}

impl<Sys> SystemContainer<Sys> {
    /// Creates a container with no systems.
    pub fn new() -> (r: SystemContainer<Sys>)
        ensures
            r@ == Map::<u64, (Seq<SystemDependency>, Sys)>::empty(),
    {
        let r = SystemContainer { systems: HashMap::new() };
        assert(r@ =~= Map::<u64, (Seq<SystemDependency>, Sys)>::empty());
        r
    }

    /// The number of systems.
    pub fn len(&self) -> (r: usize)
        ensures
            r == self@.len(),
            self@.dom().finite(),
    {
        proof {
            assert(self@.dom() =~= self.systems@.dom());
            vstd::std_specs::hash::axiom_hashmap_view_finite_dom(self.systems);
        }
        self.systems.len()
    }

    /// Whether there are no systems.
    pub fn is_empty(&self) -> (r: bool)
        ensures
            r == (self@.len() == 0),
    {
        proof {
            assert(self@.dom() =~= self.systems@.dom());
            if self@.len() == 0 {
                self.systems@.dom().lemma_len0_is_empty();
                assert(self.systems@ =~= Map::<u64, Entry<Sys>>::empty());
            }
        }
        self.systems.is_empty()
    }

    /// Adds `sys` with its constraints `deps` under the type id `id`;
    /// `Some(())` if it replaced a system.
    pub fn insert(&mut self, id: u64, deps: Vec<SystemDependency>, sys: Sys) -> (r: Option<()>)
        ensures
            final(self)@ == old(self)@.insert(id, (deps@, sys)),
            r is Some <==> old(self)@.contains_key(id),
    {
        match self.insert_with_box(id, deps, Box::new(sys)) {
            Some(_) => Some(()),
            None => None,
        }
    }

    /// Adds each of `entries`, a type id, constraints and a system, in
    /// order; a later entry replaces an earlier one with its type id.
    pub fn extend(&mut self, entries: Vec<(u64, Vec<SystemDependency>, Box<Sys>)>)
        ensures
            final(self)@ == insert_all(old(self)@, entries@),
    {
        let ghost start = self@;
        let ghost all = entries@;
        assert(all.len() == entries.len());
        let mut rest = entries;
        let mut done: usize = 0;
        proof {
            assert(all.take(0) =~= Seq::<(u64, Vec<SystemDependency>, Box<Sys>)>::empty());
        }
        while rest.len() > 0
            invariant
                done + rest@.len() == all.len(),
                all.len() <= usize::MAX,
                rest@ == all.skip(done as int),
                self@ == insert_all(start, all.take(done as int)),
            decreases rest@.len(),
        {
            let (id, deps, sys) = rest.remove(0);
            let ghost e = all[done as int];
            proof {
                assert(e == (id, deps, sys));
            }
            self.insert_with_box(id, deps, sys);
            proof {
                assert(all.take(done + 1).drop_last() =~= all.take(done as int));
                assert(all.take(done + 1).last() == e);
                assert(rest@ =~= all.skip(done + 1));
            }
            done += 1;
        }
        proof {
            assert(all.take(done as int) =~= all);
        }
    }

    /// A container holding `entries`, added in order.
    pub fn from_systems(entries: Vec<(u64, Vec<SystemDependency>, Box<Sys>)>) -> (r: SystemContainer<Sys>)
        ensures
            r@ == insert_all(Map::<u64, (Seq<SystemDependency>, Sys)>::empty(), entries@),
    {
        let mut r = SystemContainer::new();
        r.extend(entries);
        r
    }

    /// Adds `sys` with its constraints `deps` under the type id `id`, and
    /// returns the system it replaced.
    pub fn insert_with_box(&mut self, id: u64, deps: Vec<SystemDependency>, sys: Box<Sys>) -> (r: Option<Box<Sys>>)
        ensures
            final(self)@ == old(self)@.insert(id, (deps@, *sys)),
            match r {
                Some(prev) => old(self)@.contains_key(id) && *prev == old(self)@[id].1,
                None => !old(self)@.contains_key(id),
            },
    {
        let prev = self.systems.insert(id, Entry { deps, sys });
        assert(self@ =~= old(self)@.insert(id, (deps@, *sys)));
        match prev {
            Some(e) => Some(e.sys),
            None => None,
        }
    }

    /// Removes the system with type id `id`; `Some(())` if there was one.
    pub fn remove(&mut self, id: u64) -> (r: Option<()>)
        ensures
            final(self)@ == old(self)@.remove(id),
            r is Some <==> old(self)@.contains_key(id),
    {
        match self.remove_with_id(id) {
            Some(_) => Some(()),
            None => None,
        }
    }

    /// Removes and returns the system with type id `id`, if any.
    pub fn remove_with_id(&mut self, id: u64) -> (r: Option<Box<Sys>>)
        ensures
            final(self)@ == old(self)@.remove(id),
            match r {
                Some(b) => old(self)@.contains_key(id) && *b == old(self)@[id].1,
                None => !old(self)@.contains_key(id),
            },
    {
        let r = self.systems.remove(&id);
        assert(self@ =~= old(self)@.remove(id));
        match r {
            Some(e) => Some(e.sys),
            None => None,
        }
    }

    /// Moves the systems with the given type ids, those that are present,
    /// with their constraints, into a new container.
    pub fn remove_with_ids(&mut self, ids: &[u64]) -> (r: SystemContainer<Sys>)
        ensures
            final(self)@ == old(self)@.remove_keys(ids@.to_set()),
            r@ == old(self)@.restrict(ids@.to_set()),
    {
        let mut r = SystemContainer::new();
        let mut i: usize = 0;
        while i < ids.len()
            invariant
                i <= ids@.len(),
                self@ == old(self)@.remove_keys(first_ids(ids@, i as int)),
                r@ == old(self)@.restrict(first_ids(ids@, i as int)),
            decreases ids@.len() - i,
        {
            let id = ids[i];
            let ghost r_before = r@;
            let ghost before = self@;
            let ghost raw = self.systems@;
            match self.systems.remove(&id) {
                Some(e) => {
                    assert(e == raw[id]);
                    assert(before[id] == entry_view(raw[id]));
                    r.systems.insert(id, e);
                    assert(r@ =~= r_before.insert(id, entry_view(e)));
                },
                None => {
                    assert(!before.contains_key(id));
                },
            }
            proof {
                assert(self@ =~= before.remove(id));
                let s0 = first_ids(ids@, i as int);
                let s1 = first_ids(ids@, i + 1);
                lemma_first_ids_step(ids@, i as int);
                assert(self@ =~= old(self)@.remove_keys(s1));
                if before.contains_key(id) {
                    assert(!s0.contains(id));
                    assert(before[id] == old(self)@[id]);
                    assert(r@ == r_before.insert(id, old(self)@[id]));
                } else {
                    assert(r@ == r_before);
                }
                assert(r@ =~= old(self)@.restrict(s1));
            }
            i += 1;
        }
        proof {
            assert(ids@.subrange(0, ids@.len() as int) =~= ids@);
        }
        r
    }

    /// Returns the system with type id `id`, if any.
    pub fn get(&self, id: u64) -> (r: Option<&Sys>)
        ensures
            match r {
                Some(s) => self@.contains_key(id) && *s == self@[id].1,
                None => !self@.contains_key(id),
            },
    {
        self.get_with_id(id)
    }

    /// Returns the system with type id `id`, if any.
    pub fn get_with_id(&self, id: u64) -> (r: Option<&Sys>)
        ensures
            match r {
                Some(s) => self@.contains_key(id) && *s == self@[id].1,
                None => !self@.contains_key(id),
            },
    {
        match self.systems.get(&id) {
            Some(e) => Some(&*e.sys),
            None => None,
        }
    }

    /// Returns the system with type id `id` mutably, if any; what is written
    /// through it is kept.
    pub fn get_mut(&mut self, id: u64) -> (r: Option<&mut Sys>)
        ensures
            match r {
                Some(s) => {
                    &&& old(self)@.contains_key(id)
                    &&& *s == old(self)@[id].1
                    &&& final(self)@ == old(self)@.insert(id, (old(self)@[id].0, *final(s)))
                },
                None => !old(self)@.contains_key(id) && final(self)@ == old(self)@,
            },
    {
        self.get_mut_with_id(id)
    }

    /// Returns the system with type id `id` mutably, if any; what is written
    /// through it is kept.
    pub fn get_mut_with_id(&mut self, id: u64) -> (r: Option<&mut Sys>)
        ensures
            match r {
                Some(s) => {
                    &&& old(self)@.contains_key(id)
                    &&& *s == old(self)@[id].1
                    &&& final(self)@ == old(self)@.insert(id, (old(self)@[id].0, *final(s)))
                },
                None => !old(self)@.contains_key(id) && final(self)@ == old(self)@,
            },
    {
        match map_get_mut(&mut self.systems, id) {
            Some(e) => Some(&mut *e.sys),
            None => None,
        }
    }

    /// Whether there is a system with type id `id`.
    pub fn contains(&self, id: u64) -> (r: bool)
        ensures
            r == self@.contains_key(id),
    {
        self.contains_id(id)
    }

    /// Whether there is a system with type id `id`.
    pub fn contains_id(&self, id: u64) -> (r: bool)
        ensures
            r == self@.contains_key(id),
    {
        self.systems.contains_key(&id)
    }

    /// The type ids of the systems, each once.
    pub fn ids(&self) -> (r: Vec<u64>)
        ensures
            lists_all_keys(r@, self@),
    {
        proof {
            assert(self@.dom() =~= self.systems@.dom());
        }
        map_keys(&self.systems)
    }

    /// The systems, each once, in the order of `ids`.
    pub fn systems(&self) -> (r: Vec<&Sys>)
        ensures
            exists|ks: Seq<u64>| #[trigger] lists_all_keys(ks, self@) && ks.len() == r@.len() && forall|i: int|
                0 <= i < ks.len() ==> *r@[i] == self@[ks[i]].1,
    {
        let keys = self.ids();
        let mut r: Vec<&Sys> = Vec::new();
        let mut i: usize = 0;
        while i < keys.len()
            invariant
                lists_all_keys(keys@, self@),
                i <= keys@.len(),
                r@.len() == i,
                forall|q: int| 0 <= q < i ==> *r@[q] == self@[keys@[q]].1,
            decreases keys@.len() - i,
        {
            let k = keys[i];
            assert(keys@.contains(k));
            match self.get_with_id(k) {
                Some(s) => r.push(s),
                None => vstd::pervasive::unreached(),
            }
            i += 1;
        }
        r
    }

    /// Consumes the container, giving out its systems, each once.
    pub fn into_systems(self) -> (r: Vec<Box<Sys>>)
        ensures
            exists|ks: Seq<u64>| #[trigger] lists_all_keys(ks, self@) && ks.len() == r@.len() && forall|i: int|
                0 <= i < ks.len() ==> *r@[i] == self@[ks[i]].1,
    {
        let ghost m = self@;
        let keys = self.ids();
        let mut this = self;
        proof {
            assert forall|q: int| 0 <= q < keys@.len() implies this@.contains_key(#[trigger] keys@[q]) by {
                assert(keys@.contains(keys@[q]));
            }
        }
        let mut r: Vec<Box<Sys>> = Vec::new();
        let mut i: usize = 0;
        while i < keys.len()
            invariant
                lists_all_keys(keys@, m),
                i <= keys@.len(),
                r@.len() == i,
                forall|q: int| 0 <= q < i ==> *r@[q] == m[keys@[q]].1,
                forall|q: int| i <= q < keys@.len() ==> this@.contains_key(#[trigger] keys@[q]),
                forall|k: u64| #[trigger] this@.contains_key(k) ==> m.contains_key(k) && this@[k] == m[k],
            decreases keys@.len() - i,
        {
            let k = keys[i];
            match this.remove_with_id(k) {
                Some(b) => {
                    r.push(b);
                    proof {
                        assert forall|q: int| i + 1 <= q < keys@.len() implies this@.contains_key(#[trigger] keys@[q]) by {
                            assert(keys@[q] != keys@[i as int]);
                        }
                    }
                },
                None => vstd::pervasive::unreached(),
            }
            i += 1;
        }
        r
    }
}

proof fn lemma_first_ids_step(ids: Seq<u64>, i: int)
    requires
        0 <= i < ids.len(),
    ensures
        first_ids(ids, i + 1) == first_ids(ids, i).insert(ids[i]),
{
    let s0 = first_ids(ids, i);
    let s1 = first_ids(ids, i + 1);
    let sub0 = ids.subrange(0, i);
    let sub1 = ids.subrange(0, i + 1);
    assert(sub1 =~= sub0.push(ids[i]));
    assert forall|x: u64| s1.contains(x) <==> s0.insert(ids[i]).contains(x) by {
        if s1.contains(x) {
            let q = choose|q: int| 0 <= q < sub1.len() && #[trigger] sub1[q] == x;
            if q < i {
                assert(sub0[q] == x);
            }
        }
        if s0.contains(x) {
            let q = choose|q: int| 0 <= q < sub0.len() && #[trigger] sub0[q] == x;
            assert(sub1[q] == x);
        }
        if x == ids[i] {
            assert(sub1[i] == x);
        }
    }
    assert(s1 =~= s0.insert(ids[i]));
}

/// Constraint `j` of the system kept under `k` in `m` requires system `c`
/// to be listed before system `p`: a system that comes before another is
/// listed after it.
pub open spec fn constraint_edge<Sys>(m: Map<u64, (Seq<SystemDependency>, Sys)>, k: u64, j: int, p: int, c: int) -> bool {
    &&& m.contains_key(k)
    &&& 0 <= j < m[k].0.len()
    &&& match m[k].0[j].type_ {
        SystemDependencyType::Before => p == k && c == m[k].0[j].id,
        SystemDependencyType::After => p == m[k].0[j].id && c == k,
    }
}

/// System `c` has to be listed before system `p`; both are in `m`.
pub open spec fn sort_edge<Sys>(m: Map<u64, (Seq<SystemDependency>, Sys)>, p: int, c: int) -> bool {
    &&& 0 <= p <= u64::MAX
    &&& 0 <= c <= u64::MAX
    &&& m.contains_key(p as u64)
    &&& m.contains_key(c as u64)
    &&& exists|k: u64, j: int| #[trigger] constraint_edge(m, k, j, p, c)
}

/// The relation "has to be listed after" between the systems of `m`.
pub open spec fn sort_edges<Sys>(m: Map<u64, (Seq<SystemDependency>, Sys)>) -> spec_fn(int, int) -> bool {
    |p: int, c: int| sort_edge(m, p, c)
}

/// The pair `(a, b)` is in `s`.
spec fn has_pair(s: Seq<(u64, u64)>, a: u64, b: u64) -> bool {
    s.contains((a, b))
}

/// Position `(i, j)` comes before `(i0, j0)` in the scan of `rows`.
spec fn scanned(rows: Seq<Seq<SystemDependency>>, i0: int, j0: int, i: int, j: int) -> bool {
    0 <= i < rows.len() && 0 <= j < rows[i].len() && (i < i0 || (i == i0 && j < j0))
}

/// Constraint `rows[i][j]` of system `keys[i]` lists `c` before `p`.
spec fn row_edge(keys: Seq<u64>, rows: Seq<Seq<SystemDependency>>, i: int, j: int, p: int, c: int) -> bool {
    match rows[i][j].type_ {
        SystemDependencyType::Before => p == keys[i] && c == rows[i][j].id,
        SystemDependencyType::After => p == rows[i][j].id && c == keys[i],
    }
}

/// Some constraint scanned before `(i0, j0)` lists `c` before `p`.
spec fn row_edge_upto(keys: Seq<u64>, rows: Seq<Seq<SystemDependency>>, i0: int, j0: int, p: int, c: int) -> bool {
    exists|i: int, j: int| scanned(rows, i0, j0, i, j) && #[trigger] row_edge(keys, rows, i, j, p, c)
}

proof fn lemma_row_edge_step(keys: Seq<u64>, rows: Seq<Seq<SystemDependency>>, i0: int, j0: int, p: int, c: int)
    requires
        0 <= i0 < rows.len(),
        0 <= j0 < rows[i0].len(),
    ensures
        row_edge_upto(keys, rows, i0, j0 + 1, p, c) <==> (row_edge_upto(keys, rows, i0, j0, p, c)
            || row_edge(keys, rows, i0, j0, p, c)),
{
    if row_edge_upto(keys, rows, i0, j0 + 1, p, c) {
        let (i, j) = choose|i: int, j: int| scanned(rows, i0, j0 + 1, i, j) && #[trigger] row_edge(keys, rows, i, j, p, c);
        if !(i == i0 && j == j0) {
            assert(scanned(rows, i0, j0, i, j));
        }
    }
    if row_edge_upto(keys, rows, i0, j0, p, c) {
        let (i, j) = choose|i: int, j: int| scanned(rows, i0, j0, i, j) && #[trigger] row_edge(keys, rows, i, j, p, c);
        assert(scanned(rows, i0, j0 + 1, i, j));
    }
    if row_edge(keys, rows, i0, j0, p, c) {
        assert(scanned(rows, i0, j0 + 1, i0, j0));
    }
}

proof fn lemma_row_edge_row(keys: Seq<u64>, rows: Seq<Seq<SystemDependency>>, i0: int, p: int, c: int)
    requires
        0 <= i0 < rows.len(),
    ensures
        row_edge_upto(keys, rows, i0 + 1, 0, p, c) <==> row_edge_upto(keys, rows, i0, rows[i0].len() as int, p, c),
{
    if row_edge_upto(keys, rows, i0 + 1, 0, p, c) {
        let (i, j) = choose|i: int, j: int| scanned(rows, i0 + 1, 0, i, j) && #[trigger] row_edge(keys, rows, i, j, p, c);
        assert(scanned(rows, i0, rows[i0].len() as int, i, j));
    }
    if row_edge_upto(keys, rows, i0, rows[i0].len() as int, p, c) {
        let (i, j) = choose|i: int, j: int| scanned(rows, i0, rows[i0].len() as int, i, j) && #[trigger] row_edge(keys, rows, i, j, p, c);
        assert(scanned(rows, i0 + 1, 0, i, j));
    }
}

/// A copy of a list of constraints.
fn copy_constraints(v: &Vec<SystemDependency>) -> (r: Vec<SystemDependency>)
    ensures
        r@ == v@,
{
    let mut r: Vec<SystemDependency> = Vec::new();
    let mut i: usize = 0;
    while i < v.len()
        invariant
            i <= v@.len(),
            r@ == v@.subrange(0, i as int),
        decreases v@.len() - i,
    {
        r.push(v[i]);
        proof {
            assert(v@.subrange(0, i + 1) =~= v@.subrange(0, i as int).push(v@[i as int]));
        }
        i += 1;
    }
    assert(v@.subrange(0, v@.len() as int) =~= v@);
    r
}

/// Lists the pairs `(before, after)` of every constraint of every system:
/// `after` has to be listed before `before`.
fn build_dependency_map<Sys>(systems: &SystemContainer<Sys>) -> (r: Vec<(u64, u64)>)
    ensures
        forall|a: u64, b: u64| #[trigger] has_pair(r@, a, b) <==> exists|k: u64, j: int| #[trigger] constraint_edge(
            systems@,
            k,
            j,
            a as int,
            b as int,
        ),
{
    let ghost m = systems@;
    let keys = systems.ids();
    let n = keys.len();
    let mut rows: Vec<Vec<SystemDependency>> = Vec::new();
    let mut i: usize = 0;
    while i < n
        invariant
            m == systems@,
            n == keys@.len(),
            lists_all_keys(keys@, m),
            i <= n,
            rows@.len() == i,
            forall|q: int| 0 <= q < i ==> (#[trigger] rows@[q])@ == m[keys@[q]].0,
        decreases n - i,
    {
        let k = keys[i];
        assert(keys@.contains(k));
        match systems.systems.get(&k) {
            Some(e) => rows.push(copy_constraints(&e.deps)),
            None => vstd::pervasive::unreached(),
        }
        i += 1;
    }
    let ghost rs = rows@.map_values(|v: Vec<SystemDependency>| v@);
    let ghost ks = keys@;
    let mut edges: Vec<(u64, u64)> = Vec::new();
    let mut i: usize = 0;
    while i < n
        invariant
            n == rs.len(),
            ks.len() == n,
            ks == keys@,
            rs == rows@.map_values(|v: Vec<SystemDependency>| v@),
            i <= n,
            forall|a: u64, b: u64| #[trigger] has_pair(edges@, a, b) <==> row_edge_upto(ks, rs, i as int, 0, a as int, b as int),
        decreases n - i,
    {
        let row = &rows[i];
        assert(row@ == rs[i as int]);
        let k = keys[i];
        let mut j: usize = 0;
        while j < row.len()
            invariant
                n == rs.len(),
                ks.len() == n,
                ks == keys@,
                i < n,
                k == ks[i as int],
                row@ == rs[i as int],
                j <= row@.len(),
                forall|a: u64, b: u64| #[trigger] has_pair(edges@, a, b) <==> row_edge_upto(ks, rs, i as int, j as int, a as int, b as int),
            decreases row@.len() - j,
        {
            let ghost before = edges@;
            let d = row[j];
            let pair = match d.type_ {
                SystemDependencyType::Before => (k, d.id),
                SystemDependencyType::After => (d.id, k),
            };
            edges.push(pair);
            proof {
                assert forall|a: u64, b: u64| #[trigger] has_pair(edges@, a, b) <==> row_edge_upto(ks, rs, i as int, j + 1, a as int, b as int) by {
                    lemma_row_edge_step(ks, rs, i as int, j as int, a as int, b as int);
                    assert(has_pair(before, a, b) <==> row_edge_upto(ks, rs, i as int, j as int, a as int, b as int));
                    assert(row_edge(ks, rs, i as int, j as int, a as int, b as int) <==> pair == (a, b));
                    if has_pair(edges@, a, b) && !has_pair(before, a, b) {
                        let q = choose|q: int| 0 <= q < edges@.len() && edges@[q] == (a, b);
                        if q < before.len() {
                            assert(before[q] == (a, b));
                        }
                    }
                    if has_pair(before, a, b) {
                        let q = choose|q: int| 0 <= q < before.len() && before[q] == (a, b);
                        assert(edges@[q] == (a, b));
                    }
                    if pair == (a, b) {
                        assert(edges@[before.len() as int] == (a, b));
                    }
                }
            }
            j += 1;
        }
        proof {
            assert forall|a: u64, b: u64| #[trigger] has_pair(edges@, a, b) <==> row_edge_upto(ks, rs, i + 1, 0, a as int, b as int) by {
                lemma_row_edge_row(ks, rs, i as int, a as int, b as int);
            }
        }
        i += 1;
    }
    proof {
        assert forall|a: u64, b: u64| #[trigger] has_pair(edges@, a, b) <==> exists|k: u64, j: int| #[trigger] constraint_edge(m, k, j, a as int, b as int) by {
            if has_pair(edges@, a, b) {
                let (i, j) = choose|i: int, j: int| scanned(rs, n as int, 0, i, j) && #[trigger] row_edge(ks, rs, i, j, a as int, b as int);
                assert(rs[i] == rows@[i]@);
                assert(rows@[i]@ == m[keys@[i]].0);
                assert(ks.contains(ks[i]));
                assert(constraint_edge(m, ks[i], j, a as int, b as int));
            }
            if exists|k: u64, j: int| #[trigger] constraint_edge(m, k, j, a as int, b as int) {
                let (k, j) = choose|k: u64, j: int| #[trigger] constraint_edge(m, k, j, a as int, b as int);
                assert(ks.contains(k));
                let i = choose|i: int| 0 <= i < ks.len() && ks[i] == k;
                assert(rs[i] == rows@[i]@);
                assert(rows@[i]@ == m[keys@[i]].0);
                assert(scanned(rs, n as int, 0, i, j));
                assert(row_edge(ks, rs, i, j, a as int, b as int));
            }
        }
    }
    edges
}

/// Lists the type ids of all systems, each once, every system after the
/// systems it has to come after, except where constraints form a cycle.
/// A constraint "`a` before `b`" lists `b` first.
pub fn topological_sort<Sys>(systems: &SystemContainer<Sys>) -> (r: Vec<u64>)
    ensures
        lists_all_keys(r@, systems@),
        children_first(sort_edges(systems@), r@),
{
    let ghost m = systems@;
    let edges = build_dependency_map(systems);
    let keys = systems.ids();
    let order = order_nodes(&keys, &edges);
    proof {
        let pe = pair_edges(keys@, edges@);
        let se = sort_edges(m);
        assert forall|a: int, b: int| #[trigger] pe(a, b) == se(a, b) by {
            if pe(a, b) {
                assert(has_pair(edges@, a as u64, b as u64));
            }
            if se(a, b) {
                assert(keys@.contains(a as u64));
                assert(keys@.contains(b as u64));
                let (k, j) = choose|k: u64, j: int| #[trigger] constraint_edge(m, k, j, a, b);
                assert(constraint_edge(m, k, j, (a as u64) as int, (b as u64) as int));
                assert(has_pair(edges@, a as u64, b as u64));
            }
        }
        assert(pe =~= se);
        assert forall|x: u64| #[trigger] order@.contains(x) <==> m.contains_key(x) by {
            assert(keys@.contains(x) <==> m.contains_key(x));
        }
    }
    order
}

/// The systems of `deps`, from position `lo` up to `hi`, include `k`.
pub open spec fn among(deps: Seq<SystemDependency>, lo: int, hi: int, k: u64) -> bool {
    exists|q: int| lo <= q < hi && #[trigger] deps[q].id == k
}

/// The ids of the systems that the constraints `deps` name.
pub open spec fn named_ids(deps: Seq<SystemDependency>) -> Set<u64> {
    Set::new(|k: u64| among(deps, 0, deps.len() as int, k))
}

/// The constraints name pairwise distinct systems, all present in `m`.
pub open spec fn deps_available<Sys>(m: Map<u64, Sys>, deps: Seq<SystemDependency>) -> bool {
    &&& forall|a: int, b: int| 0 <= a < b < deps.len() ==> deps[a].id != deps[b].id
    &&& forall|a: int| 0 <= a < deps.len() ==> m.contains_key(#[trigger] deps[a].id)
}

/// Each system of `schedule` in turn is present, and the systems it names
/// in its constraints are present too, pairwise distinct, and distinct from
/// it; a system that was updated is gone for the rest of the schedule.
pub open spec fn runnable<Sys>(m: Map<u64, (Seq<SystemDependency>, Sys)>, schedule: Seq<u64>) -> bool
    decreases schedule.len(),
{
    if schedule.len() == 0 {
        true
    } else {
        &&& m.contains_key(schedule[0])
        &&& deps_available(m.remove(schedule[0]), m[schedule[0]].0)
        &&& runnable(m.remove(schedule[0]), schedule.drop_first())
    }
}

proof fn lemma_among_grow(deps: Seq<SystemDependency>, lo: int, hi: int, k: u64)
    requires
        0 <= lo <= hi < deps.len(),
    ensures
        among(deps, lo, hi + 1, k) <==> (among(deps, lo, hi, k) || deps[hi].id == k),
{
    if among(deps, lo, hi + 1, k) {
        let q = choose|q: int| lo <= q < hi + 1 && #[trigger] deps[q].id == k;
        if q < hi {
            assert(among(deps, lo, hi, k));
        }
    }
    if among(deps, lo, hi, k) {
        let q = choose|q: int| lo <= q < hi && #[trigger] deps[q].id == k;
        assert(lo <= q < hi + 1);
    }
}

proof fn lemma_among_shrink(deps: Seq<SystemDependency>, lo: int, hi: int, k: u64)
    requires
        0 <= lo < hi <= deps.len(),
        forall|a: int, b: int| 0 <= a < b < deps.len() ==> deps[a].id != deps[b].id,
    ensures
        among(deps, lo + 1, hi, k) <==> (among(deps, lo, hi, k) && deps[lo].id != k),
{
    if among(deps, lo + 1, hi, k) {
        let q = choose|q: int| lo + 1 <= q < hi && #[trigger] deps[q].id == k;
        assert(lo <= q < hi);
        assert(deps[lo].id != deps[q].id);
    }
    if among(deps, lo, hi, k) && deps[lo].id != k {
        let q = choose|q: int| lo <= q < hi && #[trigger] deps[q].id == k;
        assert(lo + 1 <= q < hi);
    }
}

/// Updates the systems of `schedule` in turn. For each, the systems it
/// names in its constraints are lent to it in a container of their own
/// while it updates, and then put back. The updated system itself is not
/// put back: after the call, the systems of the schedule are gone from the
/// container, and they are handed back, updated once each, in schedule
/// order.
pub fn run_updates<Sys: System>(all_systems: &mut SystemContainer<Sys>, schedule: &[u64]) -> (r: Vec<Sys>)
    requires
        runnable(old(all_systems)@, schedule@),
    ensures
        final(all_systems)@ == old(all_systems)@.remove_keys(schedule@.to_set()),
        r@.len() == schedule@.len(),
        forall|i: int|
            0 <= i < schedule@.len() ==> Sys::updated(
                #[trigger] r@[i],
                old(all_systems)@[schedule@[i]].1,
                old(all_systems)@.restrict(named_ids(old(all_systems)@[schedule@[i]].0)),
            ),
{
    let mut done: Vec<Sys> = Vec::new();
    proof {
        assert(schedule@.skip(0) =~= schedule@);
        assert(first_ids(schedule@, 0) =~= Set::<u64>::empty());
        assert(old(all_systems)@.remove_keys(Set::<u64>::empty()) =~= old(all_systems)@);
    }
    let mut i: usize = 0;
    while i < schedule.len()
        invariant
            i <= schedule@.len(),
            all_systems@ == old(all_systems)@.remove_keys(first_ids(schedule@, i as int)),
            runnable(all_systems@, schedule@.skip(i as int)),
            done@.len() == i,
            forall|t: int|
                0 <= t < i ==> Sys::updated(
                    #[trigger] done@[t],
                    old(all_systems)@[schedule@[t]].1,
                    old(all_systems)@.restrict(named_ids(old(all_systems)@[schedule@[t]].0)),
                ),
        decreases schedule@.len() - i,
    {
        let id = schedule[i];
        let ghost mi = all_systems@;
        let ghost raw0 = all_systems.systems@;
        proof {
            assert(schedule@.skip(i as int)[0] == id);
            assert(schedule@.skip(i as int).drop_first() =~= schedule@.skip(i + 1));
        }
        let entry = match all_systems.systems.remove(&id) {
            Some(e) => e,
            None => vstd::pervasive::unreached(),
        };
        assert(all_systems@ =~= mi.remove(id));
        assert(entry == raw0[id]);
        assert(mi[id] == entry_view(entry));
        let ghost base = all_systems@;
        let deps = entry.deps;
        let n = deps.len();
        let mut system_deps: SystemContainer<Sys> = SystemContainer::new();
        let mut j: usize = 0;
        while j < n
            invariant
                n == deps@.len(),
                j <= n,
                deps_available(base, deps@),
                forall|k: u64| #[trigger] all_systems@.contains_key(k) <==> (base.contains_key(k) && !among(deps@, 0, j as int, k)),
                forall|k: u64| #[trigger] all_systems@.contains_key(k) ==> all_systems@[k] == base[k],
                forall|k: u64| #[trigger] system_deps@.contains_key(k) <==> (base.contains_key(k) && among(deps@, 0, j as int, k)),
                forall|k: u64| #[trigger] system_deps@.contains_key(k) ==> system_deps@[k] == base[k],
            decreases n - j,
        {
            let d = deps[j].id;
            proof {
                assert(base.contains_key(deps@[j as int].id));
                if among(deps@, 0, j as int, d) {
                    let q = choose|q: int| 0 <= q < j && #[trigger] deps@[q].id == d;
                    assert(deps@[q].id != deps@[j as int].id);
                }
            }
            let ghost all_before = all_systems@;
            let ghost raw = all_systems.systems@;
            assert(all_before.contains_key(d));
            assert(raw.contains_key(d));
            let e = match all_systems.systems.remove(&d) {
                Some(e) => e,
                None => vstd::pervasive::unreached(),
            };
            assert(e == raw[d]);
            assert(all_before[d] == entry_view(e));
            assert(all_systems@ =~= all_before.remove(d));
            let ghost sd_before = system_deps@;
            system_deps.systems.insert(d, e);
            proof {
                assert(system_deps@ =~= sd_before.insert(d, entry_view(e)));
                assert forall|k: u64| among(deps@, 0, j + 1, k) <==> (among(deps@, 0, j as int, k) || k == d) by {
                    lemma_among_grow(deps@, 0, j as int, k);
                }
            }
            j += 1;
        }
        let mut system = *entry.sys;
        proof {
            let ob = old(all_systems)@;
            assert(ob[id] == mi[id]);
            assert(system_deps@ =~= ob.restrict(named_ids(ob[id].0))) by {
                assert forall|k: u64| #[trigger] system_deps@.contains_key(k) <==> ob.restrict(named_ids(ob[id].0)).contains_key(k) by {
                    if among(deps@, 0, n as int, k) {
                        let q = choose|q: int| 0 <= q < n && #[trigger] deps@[q].id == k;
                        assert(base.contains_key(deps@[q].id));
                    }
                }
            }
        }
        system.update(&system_deps);
        done.push(system);
        let mut j: usize = 0;
        while j < n
            invariant
                n == deps@.len(),
                j <= n,
                deps_available(base, deps@),
                forall|k: u64| #[trigger] all_systems@.contains_key(k) <==> (base.contains_key(k) && !among(deps@, j as int, n as int, k)),
                forall|k: u64| #[trigger] all_systems@.contains_key(k) ==> all_systems@[k] == base[k],
                forall|k: u64| #[trigger] system_deps@.contains_key(k) <==> (base.contains_key(k) && among(deps@, j as int, n as int, k)),
                forall|k: u64| #[trigger] system_deps@.contains_key(k) ==> system_deps@[k] == base[k],
            decreases n - j,
        {
            let d = deps[j].id;
            proof {
                assert(base.contains_key(deps@[j as int].id));
                assert(among(deps@, j as int, n as int, d));
            }
            let ghost sd_before = system_deps@;
            let ghost raw = system_deps.systems@;
            assert(sd_before.contains_key(d));
            assert(raw.contains_key(d));
            let e = match system_deps.systems.remove(&d) {
                Some(e) => e,
                None => vstd::pervasive::unreached(),
            };
            assert(e == raw[d]);
            assert(sd_before[d] == entry_view(e));
            assert(system_deps@ =~= sd_before.remove(d));
            let ghost all_before = all_systems@;
            all_systems.systems.insert(d, e);
            proof {
                assert(all_systems@ =~= all_before.insert(d, entry_view(e)));
                assert forall|k: u64| among(deps@, j + 1, n as int, k) <==> (among(deps@, j as int, n as int, k) && k != d) by {
                    lemma_among_shrink(deps@, j as int, n as int, k);
                }
            }
            j += 1;
        }
        proof {
            assert(all_systems@ =~= base);
            let s0 = first_ids(schedule@, i as int);
            let s1 = first_ids(schedule@, i + 1);
            let sub0 = schedule@.subrange(0, i as int);
            let sub1 = schedule@.subrange(0, i + 1);
            assert(sub1 =~= sub0.push(id));
            assert(s1 =~= s0.insert(id)) by {
                assert forall|x: u64| s1.contains(x) <==> s0.insert(id).contains(x) by {
                    if s1.contains(x) {
                        let q = choose|q: int| 0 <= q < sub1.len() && #[trigger] sub1[q] == x;
                        if q < i {
                            assert(sub0[q] == x);
                        }
                    }
                    if s0.contains(x) {
                        let q = choose|q: int| 0 <= q < sub0.len() && #[trigger] sub0[q] == x;
                        assert(sub1[q] == x);
                    }
                    if x == id {
                        assert(sub1[i as int] == x);
                    }
                }
            }
            assert(base =~= old(all_systems)@.remove_keys(s1));
        }
        i += 1;
    }
    proof {
        assert(schedule@.subrange(0, schedule@.len() as int) =~= schedule@);
    }
    done
}

/// Moving the systems with some ids into a new container splits the
/// systems in two: each system ends up in exactly one of the two
/// containers, unchanged.
pub proof fn lemma_remove_with_ids_splits<Sys>(m: Map<u64, (Seq<SystemDependency>, Sys)>, ids: Set<u64>)
    ensures
        forall|k: u64|
            #[trigger] m.contains_key(k) <==> (m.remove_keys(ids).contains_key(k) || m.restrict(ids).contains_key(k)),
        forall|k: u64| !(m.remove_keys(ids).contains_key(k) && #[trigger] m.restrict(ids).contains_key(k)),
        forall|k: u64| #[trigger] m.remove_keys(ids).contains_key(k) ==> m.remove_keys(ids)[k] == m[k],
        forall|k: u64| #[trigger] m.restrict(ids).contains_key(k) ==> m.restrict(ids)[k] == m[k],
{
}

/// The systems left after running the schedule `a` and then the schedule
/// `b` are those left after running `a + b`.
pub proof fn lemma_run_updates_split<Sys>(m: Map<u64, (Seq<SystemDependency>, Sys)>, a: Seq<u64>, b: Seq<u64>)
    ensures
        m.remove_keys(a.to_set()).remove_keys(b.to_set()) == m.remove_keys((a + b).to_set()),
{
    assert forall|x: u64| (a + b).to_set().contains(x) <==> (a.to_set().contains(x) || b.to_set().contains(x)) by {
        if (a + b).to_set().contains(x) {
            let i = choose|i: int| 0 <= i < (a + b).len() && #[trigger] (a + b)[i] == x;
            if i < a.len() {
                assert(a[i] == x);
            } else {
                assert(b[i - a.len()] == x);
            }
        }
        if a.to_set().contains(x) {
            let i = choose|i: int| 0 <= i < a.len() && #[trigger] a[i] == x;
            assert((a + b)[i] == x);
        }
        if b.to_set().contains(x) {
            let i = choose|i: int| 0 <= i < b.len() && #[trigger] b[i] == x;
            assert((a + b)[a.len() + i] == x);
        }
    }
    assert(m.remove_keys(a.to_set()).remove_keys(b.to_set()) =~= m.remove_keys((a + b).to_set()));
}

/// The systems of a schedule that `run_updates` accepts are present and
/// named once each; as `run_updates` hands back one updated system for
/// each entry of the schedule, every one of them is updated exactly once.
pub proof fn lemma_scheduled_systems_updated_once<Sys>(m: Map<u64, (Seq<SystemDependency>, Sys)>, schedule: Seq<u64>)
    requires
        runnable(m, schedule),
    ensures
        schedule.no_duplicates(),
        forall|i: int| 0 <= i < schedule.len() ==> m.contains_key(#[trigger] schedule[i]),
    decreases schedule.len(),
{
    if schedule.len() > 0 {
        let rest = schedule.drop_first();
        lemma_scheduled_systems_updated_once(m.remove(schedule[0]), rest);
        assert forall|i: int| 0 <= i < schedule.len() implies m.contains_key(#[trigger] schedule[i]) by {
            if i > 0 {
                assert(schedule[i] == rest[i - 1]);
            }
        }
        assert forall|a: int, b: int| 0 <= a < b < schedule.len() implies schedule[a] != schedule[b] by {
            assert(schedule[b] == rest[b - 1]);
            if a > 0 {
                assert(schedule[a] == rest[a - 1]);
            } else {
                assert(m.remove(schedule[0]).contains_key(rest[b - 1]));
            }
        }
    }
}

} // verus!

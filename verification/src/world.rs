//! [`World`], a store of states keyed by the id of their type, and the
//! scheduling of systems by their dependencies on those states.

use crate::graph::{acyclic, children_first, is_permutation, order_nodes, pair_edges, reaches, same_nodes};
use crate::maps::map_get_mut;
use std::collections::HashMap;
use vstd::prelude::*;

verus! {

broadcast use vstd::std_specs::hash::group_hash_axioms;

/// Holds one boxed state per type id.
pub struct World<S> {
    states: HashMap<u64, Box<S>>,
}

impl<S> View for World<S> {
    type V = Map<u64, S>;

    closed spec fn view(&self) -> Map<u64, S> {
        self.states@.map_values(|b: Box<S>| *b)
    }
}

impl<S> World<S> {
    /// Creates a world with no states.
    pub fn new() -> (r: World<S>)
        ensures
            r@ == Map::<u64, S>::empty(),
    {
        let r = World { states: HashMap::new() };
        assert(r@ =~= Map::<u64, S>::empty());
        r
    }

    /// Stores `state` under `id`, returning the state it replaces, if any.
    pub fn insert(&mut self, id: u64, state: Box<S>) -> (r: Option<S>)
        ensures
            final(self)@ == old(self)@.insert(id, *state),
            match r {
                Some(prev) => old(self)@.contains_key(id) && prev == old(self)@[id],
                None => !old(self)@.contains_key(id),
            },
    {
        let prev = self.states.insert(id, state);
        assert(self@ =~= old(self)@.insert(id, *state));
        match prev {
            Some(b) => Some(*b),
            None => None,
        }
    }

    /// Removes and returns the state stored under `id`, if any.
    pub fn remove(&mut self, id: u64) -> (r: Option<Box<S>>)
        ensures
            final(self)@ == old(self)@.remove(id),
            match r {
                Some(b) => old(self)@.contains_key(id) && *b == old(self)@[id],
                None => !old(self)@.contains_key(id),
            },
    {
        let r = self.states.remove(&id);
        assert(self@ =~= old(self)@.remove(id));
        r
    }

    /// Returns the state stored under `id`, if any.
    pub fn get(&self, id: u64) -> (r: Option<&S>)
        ensures
            match r {
                Some(v) => self@.contains_key(id) && *v == self@[id],
                None => !self@.contains_key(id),
            },
    {
        match self.states.get(&id) {
            Some(b) => Some(&**b),
            None => None,
        }
    }

    /// Returns the state stored under `id` mutably, if any; what is written
    /// through it becomes the state stored under `id`.
    pub fn get_mut(&mut self, id: u64) -> (r: Option<&mut S>)
        ensures
            match r {
                Some(v) => {
                    &&& old(self)@.contains_key(id)
                    &&& *v == old(self)@[id]
                    &&& final(self)@ == old(self)@.insert(id, *final(v))
                },
                None => !old(self)@.contains_key(id) && final(self)@ == old(self)@,
            },
    {
        match map_get_mut(&mut self.states, id) {
            Some(b) => Some(&mut **b),
            None => None,
        }
    }
}

/// A value read after it is stored under an id is the value stored, and
/// storing does not disturb the values stored under other ids.
pub proof fn lemma_world_read_after_write<S>(m: Map<u64, S>, id: u64, other: u64, s: S)
    requires
        other != id,
    ensures
        m.insert(id, s).contains_key(id),
        m.insert(id, s)[id] == s,
        m.insert(id, s).contains_key(other) == m.contains_key(other),
        m.contains_key(other) ==> m.insert(id, s)[other] == m[other],
        !m.insert(id, s).remove(id).contains_key(id),
{
}

/// A dependency of a system on the state with the given type id.
#[derive(Clone, Copy, Debug)]
pub enum Dependency {
    /// Reads the state.
    Read(u64),
    /// Reads the state as it was one cycle earlier.
    ReadDelayed(u64),
    /// Writes the state.
    Write(u64),
}

/// The dependency lists of all systems, as sequences.
pub open spec fn world_deps_view(all_deps: &[&[Dependency]]) -> Seq<Seq<Dependency>> {
    Seq::new(all_deps@.len(), |i: int| all_deps@[i]@)
}

/// System `w` writes the state with type id `t`.
pub open spec fn writes(deps: Seq<Seq<Dependency>>, w: int, t: u64) -> bool {
    0 <= w < deps.len() && exists|j: int| 0 <= j < deps[w].len() && #[trigger] deps[w][j] == Dependency::Write(t)
}

/// No state is written at two places of the dependency lists.
pub open spec fn no_write_conflict(deps: Seq<Seq<Dependency>>) -> bool {
    forall|i1: int, j1: int, i2: int, j2: int|
        0 <= i1 < deps.len() && 0 <= j1 < deps[i1].len() && 0 <= i2 < deps.len() && 0 <= j2 < deps[i2].len()
            && #[trigger] deps[i1][j1] == #[trigger] deps[i2][j2] && deps[i1][j1] is Write ==> i1 == i2 && j1 == j2
}

/// Every state that some system reads is written by some system.
pub open spec fn reads_are_written(deps: Seq<Seq<Dependency>>) -> bool {
    forall|i: int, j: int| 0 <= i < deps.len() && 0 <= j < deps[i].len() ==> match #[trigger] deps[i][j] {
        Dependency::Read(t) => exists|w: int| writes(deps, w, t),
        Dependency::ReadDelayed(t) => exists|w: int| writes(deps, w, t),
        Dependency::Write(t) => true,
    }
}

/// The dependency `deps[i][j]` requires system `c` to run before system `p`:
/// a reader after the writer of what it reads, the writer after a delayed
/// reader, and a writer after itself.
pub open spec fn world_edge_from(deps: Seq<Seq<Dependency>>, i: int, j: int, p: int, c: int) -> bool {
    match deps[i][j] {
        Dependency::Read(t) => p == i && writes(deps, c, t),
        Dependency::ReadDelayed(t) => c == i && writes(deps, p, t),
        Dependency::Write(t) => c == i && writes(deps, p, t),
    }
}

/// System `c` has to run before system `p`.
pub open spec fn world_edges(deps: Seq<Seq<Dependency>>) -> spec_fn(int, int) -> bool {
    |p: int, c: int| exists|i: int, j: int| 0 <= i < deps.len() && 0 <= j < deps[i].len() && #[trigger] world_edge_from(deps, i, j, p, c)
}

/// System `p` has to wait for some system.
pub open spec fn waits(deps: Seq<Seq<Dependency>>, p: int) -> bool {
    exists|c: int| #[trigger] world_edges(deps)(p, c)
}

/// Every system has to wait for some system.
pub open spec fn every_system_waits(deps: Seq<Seq<Dependency>>) -> bool {
    forall|p: int| 0 <= p < deps.len() ==> #[trigger] waits(deps, p)
}

/// Systems with these dependencies can be ordered without failing: no state
/// has two writers, every state read is written, every system waits for
/// some system, and no dependency lies on a cycle.
pub open spec fn world_schedulable(deps: Seq<Seq<Dependency>>) -> bool {
    &&& no_write_conflict(deps)
    &&& reads_are_written(deps)
    &&& every_system_waits(deps)
    &&& acyclic(world_edges(deps))
}

/// The pair `(a, b)` is in `s`.
spec fn has_pair(s: Seq<(u64, u64)>, a: u64, b: u64) -> bool {
    s.contains((a, b))
}

impl Dependency {
    /// Orders the systems whose dependency lists are `all_deps` so that every
    /// system comes after the systems it has to wait for. Its precondition
    /// is met by the empty list alone: every system has to wait for some
    /// other system, so a non-empty list always contains a cycle.
    pub fn execution_order(all_deps: &[&[Dependency]]) -> (r: Vec<usize>)
        requires
            world_schedulable(world_deps_view(all_deps)),
        ensures
            is_permutation(r@, all_deps@.len()),
            forall|a: int, b: int|
                0 <= a < r@.len() && 0 <= b < r@.len() && #[trigger] world_edges(world_deps_view(all_deps))(
                    r@[a] as int,
                    r@[b] as int,
                ) ==> b < a,
    {
        let ghost deps = world_deps_view(all_deps);
        let n = all_deps.len();
        // The writer of each state.
        let mut writer: HashMap<u64, usize> = HashMap::new();
        let mut i: usize = 0;
        while i < n
            invariant
                deps == world_deps_view(all_deps),
                n == deps.len(),
                i <= n,
                no_write_conflict(deps),
                forall|t: u64| #[trigger] writer@.contains_key(t) ==> writes(deps, writer@[t] as int, t),
                forall|ii: int, jj: int| 0 <= ii < i && 0 <= jj < deps[ii].len() && #[trigger] deps[ii][jj] is Write
                    ==> writer@.contains_key(deps[ii][jj]->Write_0),
            decreases n - i,
        {
            let row: &[Dependency] = all_deps[i];
            assert(row@ == deps[i as int]);
            let mut j: usize = 0;
            while j < row.len()
                invariant
                    deps == world_deps_view(all_deps),
                    n == deps.len(),
                    i < n,
                    row@ == deps[i as int],
                    j <= row@.len(),
                    forall|t: u64| #[trigger] writer@.contains_key(t) ==> writes(deps, writer@[t] as int, t),
                    forall|ii: int, jj: int| 0 <= ii < i && 0 <= jj < deps[ii].len() && #[trigger] deps[ii][jj] is Write
                        ==> writer@.contains_key(deps[ii][jj]->Write_0),
                    forall|jj: int| 0 <= jj < j && #[trigger] deps[i as int][jj] is Write
                        ==> writer@.contains_key(deps[i as int][jj]->Write_0),
                decreases row@.len() - j,
            {
                match row[j] {
                    Dependency::Write(t) => {
                        assert(deps[i as int][j as int] == Dependency::Write(t));
                        writer.insert(t, i);
                    },
                    _ => {},
                }
                j += 1;
            }
            i += 1;
        }
        // The pairs `(p, c)` such that `c` runs before `p`.
        let mut edges: Vec<(u64, u64)> = Vec::new();
        let mut i: usize = 0;
        while i < n
            invariant
                deps == world_deps_view(all_deps),
                n == deps.len(),
                i <= n,
                reads_are_written(deps),
                no_write_conflict(deps),
                forall|t: u64| #[trigger] writer@.contains_key(t) ==> writes(deps, writer@[t] as int, t),
                forall|ii: int, jj: int| 0 <= ii < n && 0 <= jj < deps[ii].len() && #[trigger] deps[ii][jj] is Write
                    ==> writer@.contains_key(deps[ii][jj]->Write_0),
                forall|a: u64, b: u64| #[trigger] has_pair(edges@, a, b) <==> exists|ii: int, jj: int|
                    0 <= ii < i && 0 <= jj < deps[ii].len() && #[trigger] world_edge_from(deps, ii, jj, a as int, b as int),
            decreases n - i,
        {
            let row: &[Dependency] = all_deps[i];
            assert(row@ == deps[i as int]);
            let mut j: usize = 0;
            while j < row.len()
                invariant
                    deps == world_deps_view(all_deps),
                    n == deps.len(),
                    i < n,
                    row@ == deps[i as int],
                    j <= row@.len(),
                    reads_are_written(deps),
                    no_write_conflict(deps),
                    forall|t: u64| #[trigger] writer@.contains_key(t) ==> writes(deps, writer@[t] as int, t),
                    forall|ii: int, jj: int| 0 <= ii < n && 0 <= jj < deps[ii].len() && #[trigger] deps[ii][jj] is Write
                        ==> writer@.contains_key(deps[ii][jj]->Write_0),
                    forall|a: u64, b: u64| #[trigger] has_pair(edges@, a, b) <==> exists|ii: int, jj: int|
                        ((0 <= ii < i && 0 <= jj < deps[ii].len()) || (ii == i && 0 <= jj < j)) && #[trigger] world_edge_from(deps, ii, jj, a as int, b as int),
                decreases row@.len() - j,
            {
                let d = row[j];
                assert(deps[i as int][j as int] == d);
                let ghost before = edges@;
                let t = match d {
                    Dependency::Read(t) | Dependency::ReadDelayed(t) | Dependency::Write(t) => t,
                };
                proof {
                    // The state is written, so its writer is in the table.
                    let w = choose|w: int| writes(deps, w, t);
                    let jw = choose|jw: int| 0 <= jw < deps[w].len() && #[trigger] deps[w][jw] == Dependency::Write(t);
                    assert(deps[w][jw] is Write);
                }
                let w = *writer.get(&t).unwrap();
                let pair = match d {
                    Dependency::Read(_) => (i as u64, w as u64),
                    _ => (w as u64, i as u64),
                };
                edges.push(pair);
                proof {
                    // Writers are unique.
                    assert forall|x: int| #[trigger] writes(deps, x, t) implies x == w as int by {
                        let j1 = choose|j1: int| 0 <= j1 < deps[x].len() && #[trigger] deps[x][j1] == Dependency::Write(t);
                        let j2 = choose|j2: int| 0 <= j2 < deps[w as int].len() && #[trigger] deps[w as int][j2] == Dependency::Write(t);
                        assert(deps[x][j1] == deps[w as int][j2]);
                    }
                    assert forall|a: u64, b: u64| #[trigger] has_pair(edges@, a, b) <==> exists|ii: int, jj: int|
                        ((0 <= ii < i && 0 <= jj < deps[ii].len()) || (ii == i && 0 <= jj < j + 1)) && #[trigger] world_edge_from(deps, ii, jj, a as int, b as int) by {
                        assert(has_pair(before, a, b) <==> exists|ii: int, jj: int|
                            ((0 <= ii < i && 0 <= jj < deps[ii].len()) || (ii == i && 0 <= jj < j)) && #[trigger] world_edge_from(deps, ii, jj, a as int, b as int));
                        if has_pair(edges@, a, b) {
                            let m = choose|m: int| 0 <= m < edges@.len() && edges@[m] == (a, b);
                            if m < before.len() {
                                assert(has_pair(before, a, b));
                            } else {
                                assert(world_edge_from(deps, i as int, j as int, a as int, b as int));
                            }
                        }
                        if exists|ii: int, jj: int| ((0 <= ii < i && 0 <= jj < deps[ii].len()) || (ii == i && 0 <= jj < j + 1)) && #[trigger] world_edge_from(deps, ii, jj, a as int, b as int) {
                            let (ii, jj) = choose|ii: int, jj: int| ((0 <= ii < i && 0 <= jj < deps[ii].len()) || (ii == i && 0 <= jj < j + 1)) && #[trigger] world_edge_from(deps, ii, jj, a as int, b as int);
                            if ii == i && jj == j {
                                assert(edges@[before.len() as int] == (a, b));
                            } else {
                                assert(has_pair(before, a, b));
                                let m = choose|m: int| 0 <= m < before.len() && before[m] == (a, b);
                                assert(edges@[m] == (a, b));
                            }
                        }
                    }
                }
                j += 1;
            }
            proof {
                assert forall|a: u64, b: u64| #[trigger] has_pair(edges@, a, b) <==> exists|ii: int, jj: int|
                    0 <= ii < i + 1 && 0 <= jj < deps[ii].len() && #[trigger] world_edge_from(deps, ii, jj, a as int, b as int) by {
                    if exists|ii: int, jj: int| 0 <= ii < i + 1 && 0 <= jj < deps[ii].len() && #[trigger] world_edge_from(deps, ii, jj, a as int, b as int) {
                        let (ii, jj) = choose|ii: int, jj: int| 0 <= ii < i + 1 && 0 <= jj < deps[ii].len() && #[trigger] world_edge_from(deps, ii, jj, a as int, b as int);
                        assert((0 <= ii < i && 0 <= jj < deps[ii].len()) || (ii == i && 0 <= jj < row@.len()));
                    }
                }
            }
            i += 1;
        }
        let mut nodes: Vec<u64> = Vec::new();
        let mut k: usize = 0;
        while k < n
            invariant
                k <= n,
                nodes@.len() == k,
                forall|m: int| 0 <= m < k ==> nodes@[m] == m,
            decreases n - k,
        {
            nodes.push(k as u64);
            k += 1;
        }
        let order64 = order_nodes(&nodes, &edges);
        let ghost o64 = order64@;
        let mut order: Vec<usize> = Vec::new();
        let mut k: usize = 0;
        while k < order64.len()
            invariant
                same_nodes(o64, nodes@),
                o64 == order64@,
                nodes@.len() == n,
                forall|m: int| 0 <= m < n ==> nodes@[m] == m,
                k <= o64.len(),
                order@.len() == k,
                forall|m: int| 0 <= m < k ==> order@[m] as int == o64[m] as int,
            decreases o64.len() - k,
        {
            let x = order64[k];
            proof {
                assert(o64.contains(x));
                assert(nodes@.contains(x));
            }
            order.push(x as usize);
            k += 1;
        }
        proof {
            let ns = nodes@;
            let es = edges@;
            let o = order@;
            let pe = pair_edges(ns, es);
            let we = world_edges(deps);
            assert forall|a: int, b: int| #[trigger] pe(a, b) == we(a, b) by {
                if pe(a, b) {
                    assert(has_pair(es, a as u64, b as u64));
                }
                if we(a, b) {
                    let (i, j) = choose|i: int, j: int| 0 <= i < deps.len() && 0 <= j < deps[i].len() && #[trigger] world_edge_from(deps, i, j, a, b);
                    assert(0 <= a < n && 0 <= b < n);
                    assert(has_pair(es, a as u64, b as u64));
                    assert(ns[a] == a as u64);
                    assert(ns[b] == b as u64);
                }
            }
            assert(pe =~= we);
            assert forall|x: usize| x < n implies #[trigger] o.contains(x) by {
                assert(ns[x as int] == x as u64);
                assert(o64.contains(x as u64));
                let m = choose|m: int| 0 <= m < o64.len() && o64[m] == x as u64;
                assert(o[m] == x);
            }
            assert forall|m: int| 0 <= m < o.len() implies (#[trigger] o[m]) < n by {
                assert(o64.contains(o64[m]));
                assert(ns.contains(o64[m]));
            }
            assert(o.no_duplicates()) by {
                assert forall|a: int, b: int| 0 <= a < b < o.len() implies o[a] != o[b] by {
                    assert(o64[a] != o64[b]);
                }
            }
            assert forall|a: int, b: int|
                0 <= a < o.len() && 0 <= b < o.len() && #[trigger] we(o[a] as int, o[b] as int) implies b < a by {
                assert(pe(o64[a] as int, o64[b] as int));
                assert(!reaches(we, o[b] as int, o[a] as int));
            }
        }
        order
    }
}

} // verus!

//! Dependencies of handlers on `State`s and `Topic`s, and the execution order
//! they imply.

use crate::ecs::state::StateId;
use crate::ecs::topic::TopicId;
use crate::graph::{
    acyclic, children_first, closed_walk, find_path, is_path, is_permutation, lemma_path_edge,
    lemma_ranked_acyclic, lemma_reaches_refl, order_nodes, pair_edges, reaches, same_nodes,
};
use std::collections::HashMap;
use vstd::prelude::*;

verus! {

broadcast use vstd::std_specs::hash::group_hash_axioms;

/// A dependency that a handler can have.
#[derive(Clone, Copy, Debug)]
pub enum Dependency {
    /// Reads a `State`.
    ReadState(StateId),
    /// Reads a `State` as it was one cycle earlier.
    ReadStateDelayed(StateId),
    /// Writes a `State`.
    WriteState(StateId),
    /// Subscribes to a `Topic`.
    SubscribeTopic(TopicId),
    /// Publishes to a `Topic`.
    PublishTopic(TopicId),
}

impl Dependency {
    /// Returns the `StateId` this dependency is about, or `None` when it is
    /// about a `Topic`.
    pub fn state_id(&self) -> (r: Option<&StateId>)
        ensures
            match *self {
                Dependency::ReadState(id) => r == Some(&id),
                Dependency::ReadStateDelayed(id) => r == Some(&id),
                Dependency::WriteState(id) => r == Some(&id),
                _ => r.is_none(),
            },
    {
        match self {
            Dependency::ReadState(id) | Dependency::ReadStateDelayed(id) | Dependency::WriteState(
                id,
            ) => Some(id),
            Dependency::SubscribeTopic(_) | Dependency::PublishTopic(_) => None,
        }
    }
}

/// The dependency lists of all handlers, as sequences.
pub open spec fn deps_view(all_deps: &[&[Dependency]]) -> Seq<Seq<Dependency>> {
    Seq::new(all_deps@.len(), |i: int| all_deps@[i]@)
}

/// `d` writes the state with id `sid`.
pub open spec fn dep_writes(d: Dependency, sid: u64) -> bool {
    match d {
        Dependency::WriteState(s) => s.id == sid,
        _ => false,
    }
}

/// `d` subscribes to the topic with id `tid`.
pub open spec fn dep_subscribes(d: Dependency, tid: u64) -> bool {
    match d {
        Dependency::SubscribeTopic(t) => t.id == tid,
        _ => false,
    }
}

/// Handler `i` writes the state with id `sid`.
pub open spec fn writes_state(deps: Seq<Seq<Dependency>>, i: int, sid: u64) -> bool {
    exists|j: int| 0 <= j < deps[i].len() && #[trigger] dep_writes(deps[i][j], sid)
}

/// Handler `w` is the first handler that writes the state with id `sid`.
pub open spec fn first_writer(deps: Seq<Seq<Dependency>>, w: int, sid: u64) -> bool {
    &&& 0 <= w < deps.len()
    &&& writes_state(deps, w, sid)
    &&& forall|i: int| 0 <= i < w ==> !#[trigger] writes_state(deps, i, sid)
}

/// Handler `p` subscribes to the topic with id `tid`.
pub open spec fn subscribes(deps: Seq<Seq<Dependency>>, p: int, tid: u64) -> bool {
    exists|j: int| 0 <= j < deps[p].len() && #[trigger] dep_subscribes(deps[p][j], tid)
}

/// The dependency `deps[i][j]` requires handler `c` to run before handler `p`:
/// a reader runs after the first writer of the state it reads, a delayed
/// reader runs before it, and a publisher runs before every subscriber.
pub open spec fn edge_from(deps: Seq<Seq<Dependency>>, i: int, j: int, p: int, c: int) -> bool {
    match deps[i][j] {
        Dependency::ReadState(s) => p == i && first_writer(deps, c, s.id),
        Dependency::ReadStateDelayed(s) => c == i && first_writer(deps, p, s.id),
        Dependency::PublishTopic(t) => c == i && 0 <= p < deps.len() && subscribes(deps, p, t.id),
        _ => false,
    }
}

/// Handler `c` has to run before handler `p`.
pub open spec fn order_edge(deps: Seq<Seq<Dependency>>) -> spec_fn(int, int) -> bool {
    |p: int, c: int|
        exists|i: int, j: int|
            0 <= i < deps.len() && 0 <= j < deps[i].len() && #[trigger] edge_from(deps, i, j, p, c)
}

/// The position `(i, j)` comes before `(i0, j0)` in the order the handlers'
/// dependencies are scanned.
pub open spec fn scanned(deps: Seq<Seq<Dependency>>, i0: int, j0: int, i: int, j: int) -> bool {
    0 <= i && 0 <= j < deps[i].len() && (i < i0 || (i == i0 && j < j0))
}

/// Some dependency scanned before `(i0, j0)` writes the state with id `sid`.
pub open spec fn written_before(deps: Seq<Seq<Dependency>>, i0: int, j0: int, sid: u64) -> bool {
    exists|i: int, j: int| scanned(deps, i0, j0, i, j) && #[trigger] dep_writes(deps[i][j], sid)
}

/// The write conflict raised by the dependency `deps[i][j]`, if any: it writes
/// a state that an earlier dependency already writes, and is reported with the
/// handler that writes that state first.
pub open spec fn conflict_at(deps: Seq<Seq<Dependency>>, i: int, j: int) -> Seq<ExecutionOrderError> {
    match deps[i][j] {
        Dependency::WriteState(s) => if written_before(deps, i, j, s.id) {
            seq![ExecutionOrderError::WriteConflict(s, i as usize, (choose|w: int| first_writer(deps, w, s.id)) as usize)]
        } else {
            Seq::empty()
        },
        _ => Seq::empty(),
    }
}

/// The write conflicts raised by the first `j` dependencies of handler `i`.
pub open spec fn row_conflicts(deps: Seq<Seq<Dependency>>, i: int, j: int) -> Seq<ExecutionOrderError>
    decreases j,
{
    if j <= 0 {
        Seq::empty()
    } else {
        row_conflicts(deps, i, j - 1) + conflict_at(deps, i, j - 1)
    }
}

/// The write conflicts raised by the handlers `0..i`, in scan order.
pub open spec fn conflicts_upto(deps: Seq<Seq<Dependency>>, i: int) -> Seq<ExecutionOrderError>
    decreases i,
{
    if i <= 0 {
        Seq::empty()
    } else {
        conflicts_upto(deps, i - 1) + row_conflicts(deps, i - 1, deps[i - 1].len() as int)
    }
}

/// Every write conflict among the handlers, in scan order.
pub open spec fn write_conflicts(deps: Seq<Seq<Dependency>>) -> Seq<ExecutionOrderError> {
    conflicts_upto(deps, deps.len() as int)
}

/// An error found while determining the handler execution order.
pub enum ExecutionOrderError {
    /// The two handler indices both write to the given state.
    WriteConflict(StateId, usize, usize),
    /// The given handler indices form a dependency cycle.
    Cyclic(Vec<usize>),
}

/// `names` joined with `", "` between consecutive names.
pub open spec fn joined(names: Seq<Seq<char>>) -> Seq<char>
    decreases names.len(),
{
    if names.len() == 0 {
        Seq::empty()
    } else if names.len() == 1 {
        names[0]
    } else {
        joined(names.drop_last()) + ", "@ + names.last()
    }
}

/// The character sequences of `names`.
pub open spec fn names_view(names: Seq<String>) -> Seq<Seq<char>> {
    names.map_values(|s: String| s@)
}

impl ExecutionOrderError {
    /// Describes the error, naming each handler index through `get_name`.
    pub fn error_message<F: Fn(usize) -> String>(&self, get_name: F) -> (r: String)
        requires
            forall|i: usize| call_requires(get_name, (i,)),
        ensures
            match self {
                ExecutionOrderError::WriteConflict(id, a, b) => exists|an: String, bn: String|
                    call_ensures(get_name, (*a,), an) && call_ensures(get_name, (*b,), bn) && r@
                        == "Write conflict on "@ + id.name@ + ". Writers are "@ + an@ + " and "@
                        + bn@ + "."@,
                ExecutionOrderError::Cyclic(ids) => exists|names: Seq<String>|
                    #![trigger names_view(names)]
                    names.len() == ids@.len() && (forall|i: int|
                        0 <= i < names.len() ==> call_ensures(get_name, (ids@[i],), #[trigger] names[i]))
                        && r@ == "Cyclic dependency between "@ + joined(names_view(names))
                        + "."@,
            },
    {
        match self {
            ExecutionOrderError::WriteConflict(id, a, b) => {
                let a_name = get_name(*a);
                let b_name = get_name(*b);
                let mut r = String::from_str("Write conflict on ");
                r.append(id.name);
                r.append(". Writers are ");
                r.append(a_name.as_str());
                r.append(" and ");
                r.append(b_name.as_str());
                r.append(".");
                r
            },
            ExecutionOrderError::Cyclic(ids) => {
                let mut r = String::from_str("Cyclic dependency between ");
                let mut joined_names = String::new();
                let ghost mut names: Seq<String> = Seq::empty();
                let mut i: usize = 0;
                while i < ids.len()
                    invariant
                        forall|k: usize| call_requires(get_name, (k,)),
                        i <= ids@.len(),
                        names.len() == i,
                        forall|k: int| 0 <= k < i ==> call_ensures(get_name, (ids@[k],), #[trigger] names[k]),
                        joined_names@ == joined(names_view(names)),
                    decreases ids@.len() - i,
                {
                    let name = get_name(ids[i]);
                    if i > 0 {
                        joined_names.append(", ");
                    }
                    joined_names.append(name.as_str());
                    proof {
                        let old_names = names;
                        names = names.push(name);
                        assert(names_view(names).drop_last() =~= names_view(old_names));
                        if i == 0 {
                            assert(joined_names@ =~= name@);
                        }
                    }
                    i += 1;
                }
                r.append(joined_names.as_str());
                r.append(".");
                r
            },
        }
    }
}

/// Scans the dependencies once and returns, for each state id that some
/// handler writes, the first handler that writes it, together with the write
/// conflicts met on the way.
fn first_writers(all_deps: &[&[Dependency]]) -> (r: (HashMap<u64, usize>, Vec<ExecutionOrderError>))
    ensures
        forall|sid: u64| #[trigger] r.0@.contains_key(sid) ==> first_writer(deps_view(all_deps), r.0@[sid] as int, sid),
        forall|sid: u64, w: int| 0 <= w < all_deps@.len() && #[trigger] writes_state(deps_view(all_deps), w, sid) ==> r.0@.contains_key(sid),
        r.1@ == write_conflicts(deps_view(all_deps)),
{
    let ghost deps = deps_view(all_deps);
    let mut writers: HashMap<u64, usize> = HashMap::new();
    let mut conflicts: Vec<ExecutionOrderError> = Vec::new();
    let mut i: usize = 0;
    while i < all_deps.len()
        invariant
            deps == deps_view(all_deps),
            i <= deps.len(),
            forall|sid: u64| #[trigger] writers@.contains_key(sid) ==> first_writer(deps, writers@[sid] as int, sid),
            forall|sid: u64, w: int| 0 <= w < i && #[trigger] writes_state(deps, w, sid) ==> writers@.contains_key(sid),
            forall|sid: u64| #[trigger] writers@.contains_key(sid) ==> writers@[sid] < i,
            forall|sid: u64| #[trigger] writers@.contains_key(sid) ==> written_before(deps, i as int, 0, sid),
            conflicts@ == conflicts_upto(deps, i as int),
        decreases deps.len() - i,
    {
        let row: &[Dependency] = all_deps[i];
        assert(row@ == deps[i as int]);
        let mut j: usize = 0;
        while j < row.len()
            invariant
                deps == deps_view(all_deps),
                i < deps.len(),
                row@ == deps[i as int],
                j <= row@.len(),
                forall|sid: u64| #[trigger] writers@.contains_key(sid) ==> first_writer(deps, writers@[sid] as int, sid),
                forall|sid: u64, w: int| 0 <= w < i && #[trigger] writes_state(deps, w, sid) ==> writers@.contains_key(sid),
                forall|sid: u64, jj: int| 0 <= jj < j && #[trigger] dep_writes(deps[i as int][jj], sid) ==> writers@.contains_key(sid),
                forall|sid: u64| #[trigger] writers@.contains_key(sid) ==> writers@[sid] <= i,
                forall|sid: u64| #[trigger] writers@.contains_key(sid) ==> written_before(deps, i as int, j as int, sid),
                conflicts@ == conflicts_upto(deps, i as int) + row_conflicts(deps, i as int, j as int),
            decreases row@.len() - j,
        {
            let ghost before = writers@;
            assert(deps[i as int][j as int] == row@[j as int]);
            match row[j] {
                Dependency::WriteState(s) => {
                    if !writers.contains_key(&s.id) {
                        proof {
                            assert(dep_writes(deps[i as int][j as int], s.id));
                            assert(writes_state(deps, i as int, s.id));
                            assert forall|w: int| 0 <= w < i implies !#[trigger] writes_state(deps, w, s.id) by {}
                            if written_before(deps, i as int, j as int, s.id) {
                                let (a, b) = choose|a: int, b: int| scanned(deps, i as int, j as int, a, b) && #[trigger] dep_writes(deps[a][b], s.id);
                                if a < i {
                                    assert(writes_state(deps, a, s.id));
                                }
                            }
                        }
                        writers.insert(s.id, i);
                    } else {
                        let w = *writers.get(&s.id).unwrap();
                        proof {
                            let cw = choose|w: int| first_writer(deps, w, s.id);
                            lemma_first_writer_unique(deps, cw, w as int, s.id);
                        }
                        conflicts.push(ExecutionOrderError::WriteConflict(s, i, w));
                    }
                },
                _ => {},
            }
            proof {
                assert(row_conflicts(deps, i as int, j + 1) == row_conflicts(deps, i as int, j as int) + conflict_at(deps, i as int, j as int));
                assert forall|sid: u64| #[trigger] writers@.contains_key(sid) implies written_before(deps, i as int, j + 1, sid) by {
                    if before.contains_key(sid) {
                        let (a, b) = choose|a: int, b: int| scanned(deps, i as int, j as int, a, b) && #[trigger] dep_writes(deps[a][b], sid);
                        assert(scanned(deps, i as int, j + 1, a, b));
                    } else {
                        assert(scanned(deps, i as int, j + 1, i as int, j as int));
                        assert(dep_writes(deps[i as int][j as int], sid));
                    }
                }
            }
            j += 1;
        }
        proof {
            assert forall|sid: u64, w: int| 0 <= w < i + 1 && #[trigger] writes_state(deps, w, sid) implies writers@.contains_key(sid) by {
                if w == i {
                    let jj = choose|jj: int| 0 <= jj < deps[w].len() && #[trigger] dep_writes(deps[w][jj], sid);
                    assert(dep_writes(deps[i as int][jj], sid));
                }
            }
            assert forall|sid: u64| #[trigger] writers@.contains_key(sid) implies written_before(deps, i + 1, 0, sid) by {
                let (a, b) = choose|a: int, b: int| scanned(deps, i as int, row@.len() as int, a, b) && #[trigger] dep_writes(deps[a][b], sid);
                assert(scanned(deps, i + 1, 0, a, b));
            }
            assert(conflicts_upto(deps, i + 1) == conflicts_upto(deps, i as int) + row_conflicts(deps, i as int, deps[i as int].len() as int));
        }
        i += 1;
    }
    (writers, conflicts)
}

/// `p` is in the list kept for `tid`.
spec fn listed(m: Map<u64, Vec<usize>>, tid: u64, p: usize) -> bool {
    m.contains_key(tid) && m[tid]@.contains(p)
}

/// Among its first `n` dependencies, handler `p` subscribes to the topic `tid`.
spec fn subscribes_upto(deps: Seq<Seq<Dependency>>, p: int, tid: u64, n: int) -> bool {
    exists|jj: int| 0 <= jj < n && #[trigger] dep_subscribes(deps[p][jj], tid)
}

proof fn lemma_subscribes_upto_step(deps: Seq<Seq<Dependency>>, p: int, tid: u64, n: int)
    requires
        0 <= n,
    ensures
        subscribes_upto(deps, p, tid, n + 1) == (subscribes_upto(deps, p, tid, n) || dep_subscribes(deps[p][n], tid)),
{
    if subscribes_upto(deps, p, tid, n + 1) {
        let jj = choose|jj: int| 0 <= jj < n + 1 && #[trigger] dep_subscribes(deps[p][jj], tid);
        if jj < n {
            assert(subscribes_upto(deps, p, tid, n));
        }
    }
    if subscribes_upto(deps, p, tid, n) {
        let jj = choose|jj: int| 0 <= jj < n && #[trigger] dep_subscribes(deps[p][jj], tid);
        assert(0 <= jj < n + 1);
    }
}

/// Scans the dependencies once and returns, for each topic id that some
/// handler subscribes to, the handlers that subscribe to it.
fn topic_subscribers(all_deps: &[&[Dependency]]) -> (r: HashMap<u64, Vec<usize>>)
    ensures
        forall|tid: u64, p: usize|
            #[trigger] listed(r@, tid, p) <==> (p < all_deps@.len()
                && subscribes(deps_view(all_deps), p as int, tid)),
{
    let ghost deps = deps_view(all_deps);
    let mut subs: HashMap<u64, Vec<usize>> = HashMap::new();
    let mut i: usize = 0;
    while i < all_deps.len()
        invariant
            deps == deps_view(all_deps),
            i <= deps.len(),
            forall|tid: u64, p: usize|
                #[trigger] listed(subs@, tid, p) <==> (p < i
                    && subscribes(deps, p as int, tid)),
        decreases deps.len() - i,
    {
        let row: &[Dependency] = all_deps[i];
        assert(row@ == deps[i as int]);
        let mut j: usize = 0;
        assert forall|tid: u64, p: usize|
            #[trigger] listed(subs@, tid, p) <==> ((p < i
                && subscribes(deps, p as int, tid)) || (p == i && subscribes_upto(deps, i as int, tid, 0))) by {
            assert(!subscribes_upto(deps, i as int, tid, 0));
        }
        while j < row.len()
            invariant
                deps == deps_view(all_deps),
                i < deps.len(),
                row@ == deps[i as int],
                j <= row@.len(),
                forall|tid: u64, p: usize|
                    #[trigger] listed(subs@, tid, p) <==> ((p < i
                        && subscribes(deps, p as int, tid)) || (p == i && subscribes_upto(deps, i as int, tid, j as int))),
            decreases row@.len() - j,
        {
            let ghost before = subs@;
            let d = row[j];
            match d {
                Dependency::SubscribeTopic(t) => {
                    let mut list = match subs.remove(&t.id) {
                        Some(v) => v,
                        None => Vec::new(),
                    };
                    let ghost old_list = list@;
                    list.push(i);
                    subs.insert(t.id, list);
                    proof {
                        assert(old_list == if before.contains_key(t.id) { before[t.id]@ } else { Seq::<usize>::empty() });
                    }
                },
                _ => {},
            }
            proof {
                assert forall|tid: u64, p: usize|
                    #[trigger] listed(subs@, tid, p) <==> ((p < i
                        && subscribes(deps, p as int, tid)) || (p == i && subscribes_upto(deps, i as int, tid, j + 1))) by {
                    lemma_subscribes_upto_step(deps, i as int, tid, j as int);
                    assert(deps[i as int][j as int] == d);
                    assert(listed(before, tid, p) <==> ((p < i && subscribes(deps, p as int, tid)) || (p == i && subscribes_upto(deps, i as int, tid, j as int))));
                    match d {
                        Dependency::SubscribeTopic(t) => {
                            if tid == t.id {
                                let l = subs@[tid]@;
                                let ol = if before.contains_key(tid) { before[tid]@ } else { Seq::<usize>::empty() };
                                assert(l == ol.push(i));
                                if l.contains(p) && p != i {
                                    let m = choose|m: int| 0 <= m < l.len() && l[m] == p;
                                    assert(ol[m] == p);
                                }
                                if ol.contains(p) {
                                    let m = choose|m: int| 0 <= m < ol.len() && ol[m] == p;
                                    assert(l[m] == p);
                                }
                                if p == i {
                                    assert(l[l.len() - 1] == i);
                                }
                                assert(listed(subs@, tid, p) <==> (listed(before, tid, p) || p == i));
                            } else {
                                assert(subs@.contains_key(tid) == before.contains_key(tid));
                                if before.contains_key(tid) {
                                    assert(subs@[tid] == before[tid]);
                                }
                                assert(listed(subs@, tid, p) == listed(before, tid, p));
                            }
                        },
                        _ => {
                            assert(listed(subs@, tid, p) == listed(before, tid, p));
                        },
                    }
                }
            }
            j += 1;
        }
        proof {
            assert forall|tid: u64, p: usize|
                #[trigger] listed(subs@, tid, p) <==> (p < i + 1
                    && subscribes(deps, p as int, tid)) by {
                if p == i {
                    assert(subscribes(deps, p as int, tid) == subscribes_upto(deps, i as int, tid, deps[i as int].len() as int));
                }
            }
        }
        i += 1;
    }
    subs
}

/// Some dependency scanned before `(i0, j0)` requires `b` to run before `a`.
spec fn edge_upto(deps: Seq<Seq<Dependency>>, i0: int, j0: int, a: int, b: int) -> bool {
    exists|i: int, j: int| scanned(deps, i0, j0, i, j) && #[trigger] edge_from(deps, i, j, a, b)
}

proof fn lemma_edge_upto_step(deps: Seq<Seq<Dependency>>, i0: int, j0: int, a: int, b: int)
    requires
        0 <= i0 < deps.len(),
        0 <= j0 < deps[i0].len(),
    ensures
        edge_upto(deps, i0, j0 + 1, a, b) == (edge_upto(deps, i0, j0, a, b) || edge_from(deps, i0, j0, a, b)),
{
    if edge_upto(deps, i0, j0 + 1, a, b) {
        let (i, j) = choose|i: int, j: int| scanned(deps, i0, j0 + 1, i, j) && #[trigger] edge_from(deps, i, j, a, b);
        if !(i == i0 && j == j0) {
            assert(scanned(deps, i0, j0, i, j));
        }
    }
    if edge_upto(deps, i0, j0, a, b) {
        let (i, j) = choose|i: int, j: int| scanned(deps, i0, j0, i, j) && #[trigger] edge_from(deps, i, j, a, b);
        assert(scanned(deps, i0, j0 + 1, i, j));
    }
    if edge_from(deps, i0, j0, a, b) {
        assert(scanned(deps, i0, j0 + 1, i0, j0));
    }
}

proof fn lemma_edge_upto_row(deps: Seq<Seq<Dependency>>, i0: int, a: int, b: int)
    requires
        0 <= i0 < deps.len(),
    ensures
        edge_upto(deps, i0 + 1, 0, a, b) == edge_upto(deps, i0, deps[i0].len() as int, a, b),
{
    if edge_upto(deps, i0 + 1, 0, a, b) {
        let (i, j) = choose|i: int, j: int| scanned(deps, i0 + 1, 0, i, j) && #[trigger] edge_from(deps, i, j, a, b);
        assert(scanned(deps, i0, deps[i0].len() as int, i, j));
    }
    if edge_upto(deps, i0, deps[i0].len() as int, a, b) {
        let (i, j) = choose|i: int, j: int| scanned(deps, i0, deps[i0].len() as int, i, j) && #[trigger] edge_from(deps, i, j, a, b);
        assert(scanned(deps, i0 + 1, 0, i, j));
    }
}

proof fn lemma_first_writer_unique(deps: Seq<Seq<Dependency>>, w1: int, w2: int, sid: u64)
    requires
        first_writer(deps, w1, sid),
        first_writer(deps, w2, sid),
    ensures
        w1 == w2,
{
    if w1 < w2 {
        assert(!writes_state(deps, w1, sid));
    } else if w2 < w1 {
        assert(!writes_state(deps, w2, sid));
    }
}

/// The pair `(a, b)` is in `s`.
spec fn has_pair(s: Seq<(u64, u64)>, a: u64, b: u64) -> bool {
    s.contains((a, b))
}

/// Lists every pair `(p, c)` such that handler `c` has to run before handler `p`.
fn order_edge_list(
    all_deps: &[&[Dependency]],
    writers: &HashMap<u64, usize>,
    subs: &HashMap<u64, Vec<usize>>,
) -> (r: Vec<(u64, u64)>)
    requires
        forall|sid: u64| #[trigger] writers@.contains_key(sid) ==> first_writer(deps_view(all_deps), writers@[sid] as int, sid),
        forall|sid: u64, w: int| 0 <= w < all_deps@.len() && #[trigger] writes_state(deps_view(all_deps), w, sid) ==> writers@.contains_key(sid),
        forall|tid: u64, p: usize| #[trigger] listed(subs@, tid, p) <==> (p < all_deps@.len()
            && subscribes(deps_view(all_deps), p as int, tid)),
    ensures
        forall|a: u64, b: u64| #[trigger] has_pair(r@, a, b) <==> order_edge(deps_view(all_deps))(a as int, b as int),
{
    let ghost deps = deps_view(all_deps);
    let n = all_deps.len();
    let mut edges: Vec<(u64, u64)> = Vec::new();
    let mut i: usize = 0;
    while i < n
        invariant
            deps == deps_view(all_deps),
            n == deps.len(),
            i <= n,
            forall|sid: u64| #[trigger] writers@.contains_key(sid) ==> first_writer(deps, writers@[sid] as int, sid),
            forall|sid: u64, w: int| 0 <= w < n && #[trigger] writes_state(deps, w, sid) ==> writers@.contains_key(sid),
            forall|tid: u64, p: usize| #[trigger] listed(subs@, tid, p) <==> (p < n && subscribes(deps, p as int, tid)),
            forall|a: u64, b: u64| #[trigger] has_pair(edges@, a, b) <==> edge_upto(deps, i as int, 0, a as int, b as int),
        decreases n - i,
    {
        let row: &[Dependency] = all_deps[i];
        assert(row@ == deps[i as int]);
        let mut j: usize = 0;
        while j < row.len()
            invariant
                deps == deps_view(all_deps),
                n == deps.len(),
                i < n,
                row@ == deps[i as int],
                j <= row@.len(),
                forall|sid: u64| #[trigger] writers@.contains_key(sid) ==> first_writer(deps, writers@[sid] as int, sid),
                forall|sid: u64, w: int| 0 <= w < n && #[trigger] writes_state(deps, w, sid) ==> writers@.contains_key(sid),
                forall|tid: u64, p: usize| #[trigger] listed(subs@, tid, p) <==> (p < n && subscribes(deps, p as int, tid)),
                forall|a: u64, b: u64| #[trigger] has_pair(edges@, a, b) <==> edge_upto(deps, i as int, j as int, a as int, b as int),
            decreases row@.len() - j,
        {
            let ghost before = edges@;
            let d = row[j];
            assert(deps[i as int][j as int] == d);
            match d {
                Dependency::ReadState(s) => {
                    match writers.get(&s.id) {
                        Some(w) => {
                            edges.push((i as u64, *w as u64));
                        },
                        None => {},
                    }
                },
                Dependency::ReadStateDelayed(s) => {
                    match writers.get(&s.id) {
                        Some(w) => {
                            edges.push((*w as u64, i as u64));
                        },
                        None => {},
                    }
                },
                Dependency::PublishTopic(t) => {
                    match subs.get(&t.id) {
                        Some(list) => {
                            let mut k: usize = 0;
                            while k < list.len()
                                invariant
                                    n == deps.len(),
                                    i < n,
                                    k <= list@.len(),
                                    subs@.contains_key(t.id),
                                    list@ == subs@[t.id]@,
                                    edges@.len() == before.len() + k,
                                    forall|m: int| 0 <= m < before.len() ==> edges@[m] == before[m],
                                    forall|m: int| 0 <= m < k ==> edges@[before.len() + m] == (list@[m] as u64, i as u64),
                                decreases list@.len() - k,
                            {
                                edges.push((list[k] as u64, i as u64));
                                k += 1;
                            }
                        },
                        None => {},
                    }
                },
                _ => {},
            }
            proof {
                assert forall|a: u64, b: u64| #[trigger] has_pair(edges@, a, b) <==> edge_upto(deps, i as int, j + 1, a as int, b as int) by {
                    lemma_edge_upto_step(deps, i as int, j as int, a as int, b as int);
                    assert(has_pair(before, a, b) <==> edge_upto(deps, i as int, j as int, a as int, b as int));
                    match d {
                        Dependency::ReadState(s) => {
                            if writers@.contains_key(s.id) {
                                let w = writers@[s.id];
                                assert(edges@ == before.push((i as u64, w as u64)));
                                if edge_from(deps, i as int, j as int, a as int, b as int) {
                                    lemma_first_writer_unique(deps, b as int, w as int, s.id);
                                    assert(edges@[before.len() as int] == (a, b));
                                }
                                if has_pair(edges@, a, b) && !has_pair(before, a, b) {
                                    let m = choose|m: int| 0 <= m < edges@.len() && edges@[m] == (a, b);
                                    if m < before.len() {
                                        assert(before[m] == (a, b));
                                    }
                                }
                                if has_pair(before, a, b) {
                                    let m = choose|m: int| 0 <= m < before.len() && before[m] == (a, b);
                                    assert(edges@[m] == (a, b));
                                }
                            } else {
                                if edge_from(deps, i as int, j as int, a as int, b as int) {
                                    assert(writes_state(deps, b as int, s.id));
                                }
                            }
                        },
                        Dependency::ReadStateDelayed(s) => {
                            if writers@.contains_key(s.id) {
                                let w = writers@[s.id];
                                assert(edges@ == before.push((w as u64, i as u64)));
                                if edge_from(deps, i as int, j as int, a as int, b as int) {
                                    lemma_first_writer_unique(deps, a as int, w as int, s.id);
                                    assert(edges@[before.len() as int] == (a, b));
                                }
                                if has_pair(edges@, a, b) && !has_pair(before, a, b) {
                                    let m = choose|m: int| 0 <= m < edges@.len() && edges@[m] == (a, b);
                                    if m < before.len() {
                                        assert(before[m] == (a, b));
                                    }
                                }
                                if has_pair(before, a, b) {
                                    let m = choose|m: int| 0 <= m < before.len() && before[m] == (a, b);
                                    assert(edges@[m] == (a, b));
                                }
                            } else {
                                if edge_from(deps, i as int, j as int, a as int, b as int) {
                                    assert(writes_state(deps, a as int, s.id));
                                }
                            }
                        },
                        Dependency::PublishTopic(t) => {
                            if has_pair(before, a, b) {
                                let m = choose|m: int| 0 <= m < before.len() && before[m] == (a, b);
                                assert(edges@[m] == (a, b));
                            }
                            if subs@.contains_key(t.id) {
                                let list = subs@[t.id]@;
                                if has_pair(edges@, a, b) && !has_pair(before, a, b) {
                                    let m = choose|m: int| 0 <= m < edges@.len() && edges@[m] == (a, b);
                                    if m < before.len() {
                                        assert(before[m] == (a, b));
                                    } else {
                                        let q = list[m - before.len()];
                                        assert(edges@[m] == (q as u64, i as u64));
                                        assert(listed(subs@, t.id, q)) by {
                                            assert(list[m - before.len()] == q);
                                        }
                                        assert(q < n && subscribes(deps, q as int, t.id));
                                        assert(edge_from(deps, i as int, j as int, a as int, b as int));
                                    }
                                }
                                if edge_from(deps, i as int, j as int, a as int, b as int) {
                                    let q = a as usize;
                                    assert(listed(subs@, t.id, q));
                                    let m = choose|m: int| 0 <= m < list.len() && list[m] == q;
                                    assert(edges@[before.len() + m] == (a, b));
                                }
                            } else {
                                assert(edges@ == before);
                                if edge_from(deps, i as int, j as int, a as int, b as int) {
                                    assert(listed(subs@, t.id, a as usize));
                                }
                            }
                        },
                        _ => {
                            assert(edges@ == before);
                        },
                    }
                }
            }
            j += 1;
        }
        proof {
            assert forall|a: u64, b: u64| #[trigger] has_pair(edges@, a, b) <==> edge_upto(deps, i + 1, 0, a as int, b as int) by {
                lemma_edge_upto_row(deps, i as int, a as int, b as int);
            }
        }
        i += 1;
    }
    proof {
        assert forall|a: u64, b: u64| #[trigger] has_pair(edges@, a, b) <==> order_edge(deps)(a as int, b as int) by {
            if edge_upto(deps, n as int, 0, a as int, b as int) {
                let (i, j) = choose|i: int, j: int| scanned(deps, n as int, 0, i, j) && #[trigger] edge_from(deps, i, j, a as int, b as int);
                assert(0 <= i < deps.len() && 0 <= j < deps[i].len());
            }
            if order_edge(deps)(a as int, b as int) {
                let (i, j) = choose|i: int, j: int| 0 <= i < deps.len() && 0 <= j < deps[i].len() && #[trigger] edge_from(deps, i, j, a as int, b as int);
                assert(scanned(deps, n as int, 0, i, j));
            }
        }
    }
    edges
}

/// Lists the nodes `0..n`.
fn node_range(n: usize) -> (r: Vec<u64>)
    ensures
        r@.len() == n,
        forall|i: int| 0 <= i < n ==> r@[i] == i,
        r@.no_duplicates(),
{
    let mut r: Vec<u64> = Vec::new();
    let mut i: usize = 0;
    while i < n
        invariant
            i <= n,
            r@.len() == i,
            forall|k: int| 0 <= k < i ==> r@[k] == k,
        decreases n - i,
    {
        r.push(i as u64);
        i += 1;
    }
    r
}

/// `e` reports a cycle of `edge`: it lists the handlers of a closed walk,
/// each handler followed by one it has to wait for.
pub open spec fn is_cycle_report(edge: spec_fn(int, int) -> bool, e: ExecutionOrderError) -> bool {
    match e {
        ExecutionOrderError::Cyclic(v) => closed_walk(edge, v@.map_values(|x: usize| x as int)),
        _ => false,
    }
}

proof fn lemma_order_edge_bounds(deps: Seq<Seq<Dependency>>, a: int, b: int)
    requires
        order_edge(deps)(a, b),
    ensures
        0 <= a < deps.len(),
        0 <= b < deps.len(),
{
    let (i, j) = choose|i: int, j: int| 0 <= i < deps.len() && 0 <= j < deps[i].len() && #[trigger] edge_from(deps, i, j, a, b);
}

/// Computes the order in which to run the handlers whose dependencies are
/// `all_deps`. The order lists every handler once, each after the handlers
/// it has to wait for. It is returned only when no state has two writers and
/// no handler waits for itself through a cycle; otherwise the errors are
/// returned: first one `WriteConflict` for every write of a state that an
/// earlier dependency already writes, naming the later and the first writer,
/// then, when there is a cycle, `Cyclic` reports that each list the handlers
/// of one cycle.
pub fn execution_order(all_deps: &[&[Dependency]]) -> (r: Result<Vec<usize>, Vec<ExecutionOrderError>>)
    ensures
        match r {
            Ok(order) => {
                &&& write_conflicts(deps_view(all_deps)).len() == 0
                &&& acyclic(order_edge(deps_view(all_deps)))
                &&& is_permutation(order@, all_deps@.len())
                &&& children_first(order_edge(deps_view(all_deps)), order@)
            },
            Err(errors) => {
                let conflicts = write_conflicts(deps_view(all_deps));
                &&& conflicts.len() > 0 || !acyclic(order_edge(deps_view(all_deps)))
                &&& conflicts.len() <= errors@.len()
                &&& errors@.subrange(0, conflicts.len() as int) == conflicts
                &&& (errors@.len() > conflicts.len() <==> !acyclic(order_edge(deps_view(all_deps))))
                &&& forall|k: int|
                    conflicts.len() <= k < errors@.len() ==> is_cycle_report(
                        order_edge(deps_view(all_deps)),
                        #[trigger] errors@[k],
                    )
            },
        },
{
    let ghost deps = deps_view(all_deps);
    let ghost oe = order_edge(deps);
    let n = all_deps.len();
    let (writers, conflicts) = first_writers(all_deps);
    let subs = topic_subscribers(all_deps);
    let edges = order_edge_list(all_deps, &writers, &subs);
    let ghost es = edges@;
    let nodes = node_range(n);
    let order64 = order_nodes(&nodes, &edges);
    let ghost o64 = order64@;
    let mut order: Vec<usize> = Vec::new();
    let mut k: usize = 0;
    while k < order64.len()
        invariant
            same_nodes(o64, nodes@),
            o64 == order64@,
            nodes@.len() == n,
            forall|i: int| 0 <= i < n ==> nodes@[i] == i,
            k <= o64.len(),
            order@.len() == k,
            forall|m: int| 0 <= m < k ==> order@[m] as int == o64[m] as int,
        decreases o64.len() - k,
    {
        let x = order64[k];
        proof {
            assert(o64.contains(x));
            assert(nodes@.contains(x));
        }
        order.push(x as usize);
        k += 1;
    }
    let ghost o = order@;
    proof {
        let ns = nodes@;
        let pe = pair_edges(ns, es);
        assert forall|a: int, b: int| #[trigger] pe(a, b) == oe(a, b) by {
            if pe(a, b) {
                assert(has_pair(es, a as u64, b as u64));
            }
            if oe(a, b) {
                lemma_order_edge_bounds(deps, a, b);
                assert(has_pair(es, a as u64, b as u64));
                assert(ns[a] == a as u64);
                assert(ns[b] == b as u64);
            }
        }
        assert(pe =~= oe);
        assert forall|x: usize| x < n implies #[trigger] o.contains(x) by {
            assert(ns[x as int] == x as u64);
            assert(o64.contains(x as u64));
            let m = choose|m: int| 0 <= m < o64.len() && o64[m] == x as u64;
            assert(o[m] == x);
        }
        assert forall|m: int| 0 <= m < o.len() implies (#[trigger] o[m]) < n by {
            assert(o64.contains(o64[m]));
            assert(ns.contains(o64[m]));
        }
        assert(o.no_duplicates()) by {
            assert forall|a: int, b: int| 0 <= a < b < o.len() implies o[a] != o[b] by {
                assert(o64[a] != o64[b]);
            }
        }
        assert forall|a: int, b: int|
            0 <= a < o.len() && 0 <= b < o.len() && #[trigger] oe(o[a] as int, o[b] as int)
            implies b < a || reaches(oe, o[b] as int, o[a] as int) by {
            assert(pe(o64[a] as int, o64[b] as int));
        }
        assert(is_permutation(o, n as nat));
        assert forall|k: int| 0 <= k < es.len() implies (#[trigger] es[k]).0 < n && es[k].1 < n && oe(es[k].0 as int, es[k].1 as int) by {
            assert(has_pair(es, es[k].0, es[k].1));
            lemma_order_edge_bounds(deps, es[k].0 as int, es[k].1 as int);
        }
        assert forall|a: int, b: int| #[trigger] oe(a, b) implies 0 <= a <= u64::MAX && 0 <= b <= u64::MAX && es.contains((a as u64, b as u64)) by {
            lemma_order_edge_bounds(deps, a, b);
            assert(has_pair(es, a as u64, b as u64));
        }
    }
    let mut pos: Vec<usize> = Vec::new();
    let mut m: usize = 0;
    while m < n
        invariant
            m <= n,
            pos@.len() == m,
        decreases n - m,
    {
        pos.push(0);
        m += 1;
    }
    let mut m: usize = 0;
    while m < n
        invariant
            o == order@,
            is_permutation(o, n as nat),
            m <= n,
            pos@.len() == n,
            forall|t: int| 0 <= t < m ==> pos@[o[t] as int] == t,
        decreases n - m,
    {
        pos.set(order[m], m);
        m += 1;
    }
    let mut errors = conflicts;
    let ghost cl = errors@.len();
    let mut k: usize = 0;
    while k < edges.len()
        invariant
            es == edges@,
            deps.len() == n,
            oe == order_edge(deps),
            is_permutation(o, n as nat),
            children_first(oe, o),
            pos@.len() == n,
            forall|t: int| 0 <= t < n ==> pos@[o[t] as int] == t,
            forall|k: int| 0 <= k < es.len() ==> (#[trigger] es[k]).0 < n && es[k].1 < n && oe(es[k].0 as int, es[k].1 as int),
            forall|a: int, b: int| #[trigger] oe(a, b) ==> 0 <= a <= u64::MAX && 0 <= b <= u64::MAX && es.contains((a as u64, b as u64)),
            k <= es.len(),
            cl <= errors@.len(),
            errors@.subrange(0, cl as int) == write_conflicts(deps),
            forall|c: int| cl <= c < errors@.len() ==> is_cycle_report(oe, #[trigger] errors@[c]),
            errors@.len() == cl <==> forall|t: int| #![trigger es[t]] 0 <= t < k ==> pos@[es[t].1 as int] < pos@[es[t].0 as int],
            errors@.len() > cl ==> !acyclic(oe),
        decreases es.len() - k,
    {
        let (a, b) = edges[k];
        assert(es[k as int] == (a, b));
        if pos[b as usize] >= pos[a as usize] {
            let ghost i = pos@[a as int] as int;
            let ghost j = pos@[b as int] as int;
            proof {
                assert(o.contains(a as usize));
                let ta = choose|t: int| 0 <= t < o.len() && o[t] == a as usize;
                assert(pos@[o[ta] as int] == ta);
                assert(o.contains(b as usize));
                let tb = choose|t: int| 0 <= t < o.len() && o[t] == b as usize;
                assert(pos@[o[tb] as int] == tb);
                assert(oe(o[ta] as int, o[tb] as int));
                if tb == ta {
                    lemma_reaches_refl(oe, b as int);
                }
                assert(reaches(oe, b as int, a as int));
            }
            let path = find_path(n, &edges, b, a, Ghost(oe));
            let mut v: Vec<usize> = Vec::new();
            let mut t: usize = 0;
            while t < path.len()
                invariant
                    t <= path@.len(),
                    v@.len() == t,
                    path@.len() >= 1,
                    path@[0] == b,
                    b < n,
                    deps.len() == n,
                    oe == order_edge(deps),
                    is_path(oe, path@.map_values(|x: u64| x as int)),
                    forall|u: int| 0 <= u < t ==> v@[u] as int == path@[u] as int,
                decreases path@.len() - t,
            {
                proof {
                    if t > 0 {
                        let q = path@.map_values(|x: u64| x as int);
                        lemma_path_edge(oe, q, t - 1);
                        lemma_order_edge_bounds(deps, q[t - 1], q[t as int]);
                    }
                }
                v.push(path[t] as usize);
                t += 1;
            }
            proof {
                let q = path@.map_values(|x: u64| x as int);
                assert(v@.map_values(|x: usize| x as int) =~= q);
                assert(q.last() == a as int);
                assert(q[0] == b as int);
                assert(closed_walk(oe, q));
            }
            let ghost prev = errors@;
            errors.push(ExecutionOrderError::Cyclic(v));
            proof {
                assert(errors@.subrange(0, cl as int) =~= prev.subrange(0, cl as int));
                assert(errors@[prev.len() as int] == errors@.last());
            }
        }
        k += 1;
    }
    proof {
        if errors@.len() == cl {
            let posv = pos@;
            let rank = |x: int| posv[x] as int;
            assert forall|a: int, b: int| #[trigger] oe(a, b) implies rank(b) < rank(a) by {
                let t = choose|t: int| 0 <= t < es.len() && es[t] == (a as u64, b as u64);
                assert(es[t].0 as int == a && es[t].1 as int == b);
            }
            lemma_ranked_acyclic(oe, rank);
        }
    }
    if errors.len() == 0 {
        proof {
            assert(errors@.subrange(0, cl as int) =~= errors@);
        }
        Ok(order)
    } else {
        Err(errors)
    }
}

} // verus!

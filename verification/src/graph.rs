//! Depth-first ordering of a directed graph given as adjacency lists.
//!
//! Every scheduler in this crate reduces its dependencies to a graph whose
//! nodes are `0..n` and whose edge `p -> c` means "`c` must run before `p`".
//! [`dfs_postorder`] lists every node once, children before parents, except
//! where an edge lies on a cycle.

use vstd::prelude::*;

verus! {

/// `adj[p]` lists the children of `p`; every child is itself a node.
pub open spec fn graph_wf(adj: Seq<Seq<usize>>) -> bool {
    forall|p: int, k: int|
        0 <= p < adj.len() && 0 <= k < adj[p].len() ==> (#[trigger] adj[p][k]) < adj.len()
}

/// There is an edge from `p` to `c` in the adjacency lists `adj`.
pub open spec fn is_edge(adj: Seq<Seq<usize>>, p: int, c: int) -> bool {
    0 <= p < adj.len() && 0 <= c < adj.len() && adj[p].contains(c as usize)
}

/// The edge relation of the adjacency lists `adj`.
pub open spec fn edges_of(adj: Seq<Seq<usize>>) -> spec_fn(int, int) -> bool {
    |p: int, c: int| is_edge(adj, p, c)
}

/// `path` is a non-empty walk along `edge`.
pub open spec fn is_path(edge: spec_fn(int, int) -> bool, path: Seq<int>) -> bool {
    &&& path.len() >= 1
    &&& forall|i: int| 0 <= i < path.len() - 1 ==> #[trigger] edge(path[i], path[i + 1])
}

/// `b` can be reached from `a` by following zero or more edges.
pub open spec fn reaches(edge: spec_fn(int, int) -> bool, a: int, b: int) -> bool {
    exists|path: Seq<int>| #[trigger] is_path(edge, path) && path[0] == a && path.last() == b
}

/// No edge lies on a cycle.
pub open spec fn acyclic(edge: spec_fn(int, int) -> bool) -> bool {
    forall|p: int, c: int| #[trigger] edge(p, c) ==> !reaches(edge, c, p)
}

/// `order` lists each of the nodes `0..n` exactly once.
pub open spec fn is_permutation(order: Seq<usize>, n: nat) -> bool {
    &&& order.len() == n
    &&& order.no_duplicates()
    &&& forall|i: int| 0 <= i < order.len() ==> (#[trigger] order[i]) < n
    &&& forall|x: usize| x < n ==> #[trigger] order.contains(x)
}

/// Whenever `order[i]` has an edge to `order[j]`, `order[j]` comes first,
/// unless the edge lies on a cycle.
pub open spec fn children_first<T: Integer>(edge: spec_fn(int, int) -> bool, order: Seq<T>) -> bool {
    forall|i: int, j: int|
        0 <= i < order.len() && 0 <= j < order.len() && #[trigger] edge(
            order[i] as int,
            order[j] as int,
        ) ==> j < i || reaches(edge, order[j] as int, order[i] as int)
}

/// Every edge out of `u` leads to a node already in `done`, or to a node from
/// which `u` can be reached.
spec fn settled(adj: Seq<Seq<usize>>, done: Seq<usize>, u: usize) -> bool {
    forall|k: int|
        0 <= k < adj[u as int].len() ==> done.contains(#[trigger] adj[u as int][k]) || reaches(
            edges_of(adj),
            adj[u as int][k] as int,
            u as int,
        )
}

/// The state of the traversal: `done` holds the finished nodes in the order
/// they finished, `stack` the nodes being visited, outermost first.
spec fn dfs_inv(adj: Seq<Seq<usize>>, visited: Seq<bool>, done: Seq<usize>, stack: Seq<int>) -> bool {
    &&& visited.len() == adj.len()
    &&& done.no_duplicates()
    &&& stack.no_duplicates()
    &&& forall|i: int| 0 <= i < done.len() ==> (#[trigger] done[i]) < adj.len()
    &&& forall|i: int| 0 <= i < stack.len() ==> 0 <= #[trigger] stack[i] < adj.len()
    &&& forall|x: int|
        0 <= x < adj.len() ==> (#[trigger] visited[x] <==> (done.contains(x as usize)
            || stack.contains(x)))
    &&& forall|i: int| 0 <= i < done.len() ==> !stack.contains(#[trigger] done[i] as int)
    &&& forall|i: int| 0 <= i < stack.len() - 1 ==> #[trigger] is_edge(adj, stack[i], stack[i + 1])
    &&& forall|i: int| 0 <= i < done.len() ==> #[trigger] settled(adj, done.take(i), done[i])
}

spec fn count_unvisited(v: Seq<bool>) -> nat
    decreases v.len(),
{
    if v.len() == 0 {
        0
    } else {
        count_unvisited(v.drop_last()) + if v.last() {
            0nat
        } else {
            1nat
        }
    }
}

proof fn lemma_count_monotone(a: Seq<bool>, b: Seq<bool>)
    requires
        a.len() == b.len(),
        forall|i: int| 0 <= i < a.len() && #[trigger] a[i] ==> b[i],
    ensures
        count_unvisited(b) <= count_unvisited(a),
    decreases a.len(),
{
    if a.len() > 0 {
        lemma_count_monotone(a.drop_last(), b.drop_last());
    }
}

proof fn lemma_count_set(a: Seq<bool>, u: int)
    requires
        0 <= u < a.len(),
        !a[u],
    ensures
        count_unvisited(a.update(u, true)) + 1 == count_unvisited(a),
    decreases a.len(),
{
    let b = a.update(u, true);
    if u < a.len() - 1 {
        assert(b.drop_last() =~= a.drop_last().update(u, true));
        lemma_count_set(a.drop_last(), u);
    } else {
        assert(b.drop_last() =~= a.drop_last());
    }
}

/// A suffix of the traversal stack is a path from its first node to the top.
proof fn lemma_stack_reaches(adj: Seq<Seq<usize>>, stack: Seq<int>, m: int)
    requires
        0 <= m < stack.len(),
        forall|i: int| 0 <= i < stack.len() - 1 ==> #[trigger] is_edge(adj, stack[i], stack[i + 1]),
    ensures
        reaches(edges_of(adj), stack[m], stack.last()),
{
    let path = stack.subrange(m, stack.len() as int);
    assert forall|i: int| 0 <= i < path.len() - 1 implies #[trigger] is_edge(
        adj,
        path[i],
        path[i + 1],
    ) by {
        assert(is_edge(adj, stack[m + i], stack[m + i + 1]));
    }
    assert(is_path(edges_of(adj), path));
}

proof fn lemma_range_set_len(n: usize)
    ensures
        Set::new(|x: usize| x < n).finite(),
        Set::new(|x: usize| x < n).len() == n,
    decreases n,
{
    if n == 0 {
        assert(Set::new(|x: usize| x < n) =~= Set::<usize>::empty());
    } else {
        let m = (n - 1) as usize;
        lemma_range_set_len(m);
        assert(Set::new(|x: usize| x < n) =~= Set::new(|x: usize| x < m).insert(m));
    }
}

/// A duplicate-free list of nodes that contains every node of `0..n` and
/// nothing else has length `n`.
pub proof fn lemma_permutation_len(order: Seq<usize>, n: usize)
    requires
        order.no_duplicates(),
        forall|i: int| 0 <= i < order.len() ==> (#[trigger] order[i]) < n,
        forall|x: usize| x < n ==> #[trigger] order.contains(x),
    ensures
        order.len() == n,
{
    order.unique_seq_to_set();
    assert(order.to_set() =~= Set::new(|x: usize| x < n));
    lemma_range_set_len(n);
}

fn visit(
    adj: &Vec<Vec<usize>>,
    visited: &mut Vec<bool>,
    done: &mut Vec<usize>,
    Ghost(stack): Ghost<Seq<int>>,
    u: usize,
)
    requires
        graph_wf(adj.deep_view()),
        u < adj.len(),
        dfs_inv(adj.deep_view(), old(visited)@, old(done)@, stack),
        stack.len() > 0 ==> is_edge(adj.deep_view(), stack.last(), u as int),
    ensures
        dfs_inv(adj.deep_view(), final(visited)@, final(done)@, stack),
        final(done)@.take(old(done)@.len() as int) == old(done)@,
        old(done)@.len() <= final(done)@.len(),
        forall|x: int| 0 <= x < old(visited)@.len() && #[trigger] old(visited)@[x] ==> final(visited)@[x],
        final(done)@.contains(u) || stack.contains(u as int),
    decreases count_unvisited(old(visited)@),
{
    let ghost g = adj.deep_view();
    if visited[u] {
        assert(done@.take(done@.len() as int) =~= done@);
        return;
    }
    let ghost v0 = visited@;
    visited.set(u, true);
    proof {
        lemma_count_set(v0, u as int);
    }
    let ghost inner = stack.push(u as int);
    assert(dfs_inv(g, visited@, done@, inner)) by {
        assert forall|x: int| 0 <= x < g.len() implies (#[trigger] visited@[x] <==> (
        done@.contains(x as usize) || inner.contains(x))) by {
            if x == u as int {
                assert(inner[inner.len() - 1] == x);
            } else {
                if stack.contains(x) {
                    let k = choose|k: int| 0 <= k < stack.len() && stack[k] == x;
                    assert(inner[k] == x);
                }
                if inner.contains(x) {
                    let k = choose|k: int| 0 <= k < inner.len() && inner[k] == x;
                    assert(stack[k] == x);
                }
            }
        }
        assert forall|i: int| 0 <= i < done@.len() implies !inner.contains(
            #[trigger] done@[i] as int,
        ) by {
            if inner.contains(done@[i] as int) {
                let k = choose|k: int| 0 <= k < inner.len() && inner[k] == done@[i] as int;
                if k < stack.len() {
                    assert(stack[k] == done@[i] as int);
                } else {
                    assert(v0[u as int]);
                }
            }
        }
        assert forall|i: int| 0 <= i < inner.len() - 1 implies #[trigger] is_edge(
            g,
            inner[i],
            inner[i + 1],
        ) by {
            if i < stack.len() - 1 {
                assert(is_edge(g, stack[i], stack[i + 1]));
            }
        }
        assert forall|i: int, j: int| 0 <= i < j < inner.len() implies inner[i] != inner[j] by {
            if j < stack.len() {
                assert(stack[i] != stack[j]);
            } else {
                assert(stack.contains(stack[i]));
            }
        }
    }
    let ghost done_at_start = done@;
    let children = &adj[u];
    let n_children = children.len();
    let mut k: usize = 0;
    while k < n_children
        invariant
            graph_wf(g),
            g == adj.deep_view(),
            u < adj.len(),
            children@ == g[u as int],
            n_children == children@.len(),
            k <= n_children,
            inner == stack.push(u as int),
            visited@[u as int],
            dfs_inv(g, visited@, done@, inner),
            done@.take(done_at_start.len() as int) == done_at_start,
            done_at_start.len() <= done@.len(),
            forall|x: int| 0 <= x < v0.len() && #[trigger] v0[x] ==> visited@[x],
            count_unvisited(visited@) < count_unvisited(v0),
            v0.len() == g.len(),
            v0 == old(visited)@,
            forall|j: int| 0 <= j < k ==> done@.contains(#[trigger] children@[j]) || inner.contains(
                children@[j] as int,
            ),
        decreases n_children - k,
    {
        let c = children[k];
        assert(g[u as int][k as int] == c);
        assert(is_edge(g, inner.last(), c as int));
        let ghost before = done@;
        let ghost vis_before = visited@;
        visit(adj, visited, done, Ghost(inner), c);
        proof {
            assert forall|j: int| 0 <= j < k + 1 implies done@.contains(#[trigger] children@[j])
                || inner.contains(children@[j] as int) by {
                if j < k && before.contains(children@[j]) {
                    let m = choose|m: int| 0 <= m < before.len() && before[m] == children@[j];
                    assert(done@.take(before.len() as int)[m] == children@[j]);
                }
            }
            assert forall|x: int| 0 <= x < v0.len() && #[trigger] v0[x] implies visited@[x] by {
                assert(vis_before[x]);
            }
            lemma_count_monotone(vis_before, visited@);
            assert(done@.take(done_at_start.len() as int) =~= done_at_start) by {
                assert forall|m: int| 0 <= m < done_at_start.len() implies done@[m]
                    == done_at_start[m] by {
                    assert(done@.take(before.len() as int)[m] == before[m]);
                    assert(before.take(done_at_start.len() as int)[m] == done_at_start[m]);
                }
            }
        }
        k += 1;
    }
    let ghost pre = done@;
    // `u` is no longer on the stack once all of its children are finished.
    assert(settled(g, pre, u)) by {
        assert forall|kk: int| 0 <= kk < g[u as int].len() implies pre.contains(
            #[trigger] g[u as int][kk],
        ) || reaches(edges_of(g), g[u as int][kk] as int, u as int) by {
            let c = children@[kk];
            if !pre.contains(c) {
                assert(inner.contains(c as int));
                let m = choose|m: int| 0 <= m < inner.len() && inner[m] == c as int;
                lemma_stack_reaches(g, inner, m);
            }
        }
    }
    done.push(u);
    proof {
        let post = done@;
        assert(post.take(pre.len() as int) =~= pre);
        assert forall|i: int| 0 <= i < post.len() implies #[trigger] settled(
            g,
            post.take(i),
            post[i],
        ) by {
            if i < pre.len() {
                assert(post.take(i) =~= pre.take(i));
                assert(settled(g, pre.take(i), pre[i]));
            }
        }
        assert forall|x: int| 0 <= x < g.len() implies (#[trigger] visited@[x] <==> (
        post.contains(x as usize) || stack.contains(x))) by {
            if x == u as int {
                assert(post[post.len() - 1] == u);
            } else {
                if post.contains(x as usize) {
                    let m = choose|m: int| 0 <= m < post.len() && post[m] == x as usize;
                    assert(pre[m] == x as usize);
                }
                if pre.contains(x as usize) {
                    let m = choose|m: int| 0 <= m < pre.len() && pre[m] == x as usize;
                    assert(post[m] == x as usize);
                }
                if inner.contains(x) {
                    let m = choose|m: int| 0 <= m < inner.len() && inner[m] == x;
                    assert(stack[m] == x);
                }
                if stack.contains(x) {
                    let m = choose|m: int| 0 <= m < stack.len() && stack[m] == x;
                    assert(inner[m] == x);
                }
            }
        }
        assert forall|i: int| 0 <= i < post.len() implies !stack.contains(
            #[trigger] post[i] as int,
        ) by {
            if i < pre.len() {
                assert(!inner.contains(pre[i] as int));
                if stack.contains(pre[i] as int) {
                    let m = choose|m: int| 0 <= m < stack.len() && stack[m] == pre[i] as int;
                    assert(inner[m] == pre[i] as int);
                }
            } else {
                assert(!stack.contains(u as int));
            }
        }
        assert(post.no_duplicates()) by {
            assert forall|i: int, j: int| 0 <= i < j < post.len() implies post[i] != post[j] by {
                if j == pre.len() {
                    assert(!inner.contains(pre[i] as int));
                    assert(inner[inner.len() - 1] == u as int);
                }
            }
        }
        assert(post.take(done_at_start.len() as int) =~= done_at_start) by {
            assert forall|m: int| 0 <= m < done_at_start.len() implies post[m]
                == done_at_start[m] by {
                assert(pre.take(done_at_start.len() as int)[m] == done_at_start[m]);
            }
        }
        assert(post.contains(u)) by {
            assert(post[post.len() - 1] == u);
        }
    }
}

/// Lists every node of `adj` once, each after the children it has edges to,
/// except where such an edge lies on a cycle.
pub fn dfs_postorder(adj: &Vec<Vec<usize>>) -> (order: Vec<usize>)
    requires
        graph_wf(adj.deep_view()),
    ensures
        is_permutation(order@, adj@.len()),
        children_first(edges_of(adj.deep_view()), order@),
{
    let ghost g = adj.deep_view();
    let n = adj.len();
    let mut visited: Vec<bool> = Vec::new();
    let mut i: usize = 0;
    while i < n
        invariant
            i <= n,
            visited@.len() == i,
            forall|x: int| 0 <= x < i ==> !(#[trigger] visited@[x]),
        decreases n - i,
    {
        visited.push(false);
        i += 1;
    }
    let mut done: Vec<usize> = Vec::new();
    assert(dfs_inv(g, visited@, done@, Seq::empty()));
    let mut u: usize = 0;
    while u < n
        invariant
            graph_wf(g),
            g == adj.deep_view(),
            n == g.len(),
            u <= n,
            dfs_inv(g, visited@, done@, Seq::empty()),
            forall|x: int| 0 <= x < u ==> #[trigger] visited@[x],
        decreases n - u,
    {
        let ghost vis_before = visited@;
        visit(adj, &mut visited, &mut done, Ghost(Seq::empty()), u);
        assert forall|x: int| 0 <= x < u + 1 implies #[trigger] visited@[x] by {
            if x < u {
                assert(vis_before[x]);
            }
        }
        u += 1;
    }
    proof {
        let d = done@;
        assert forall|x: usize| x < n implies #[trigger] d.contains(x) by {
            assert(visited@[x as int]);
            assert(!Seq::<int>::empty().contains(x as int));
        }
        lemma_permutation_len(d, n);
        assert forall|i: int, j: int|
            0 <= i < d.len() && 0 <= j < d.len() && #[trigger] edges_of(g)(
                d[i] as int,
                d[j] as int,
            ) implies j < i || reaches(edges_of(g), d[j] as int, d[i] as int) by {
            assert(settled(g, d.take(i), d[i]));
            let kk = choose|kk: int| 0 <= kk < g[d[i] as int].len() && g[d[i] as int][kk] == d[j];
            assert(d.take(i).contains(g[d[i] as int][kk]) || reaches(
                edges_of(g),
                g[d[i] as int][kk] as int,
                d[i] as int,
            ));
            if d.take(i).contains(d[j]) {
                let m = choose|m: int| 0 <= m < i && d.take(i)[m] == d[j];
                assert(d[m] == d[j]);
            }
        }
    }
    done
}

/// In an acyclic graph an order that puts children first, up to cycles,
/// places every node after all the nodes it has an edge to.
pub proof fn lemma_acyclic_order_is_topological<T: Integer>(
    edge: spec_fn(int, int) -> bool,
    order: Seq<T>,
)
    requires
        acyclic(edge),
        children_first(edge, order),
    ensures
        forall|i: int, j: int|
            0 <= i < order.len() && 0 <= j < order.len() && #[trigger] edge(
                order[i] as int,
                order[j] as int,
            ) ==> j < i,
{
}

/// The edge relation on node ids given by a list of `(from, to)` pairs,
/// restricted to the listed nodes.
pub open spec fn pair_edges(nodes: Seq<u64>, edges: Seq<(u64, u64)>) -> spec_fn(int, int) -> bool {
    |a: int, b: int|
        0 <= a <= u64::MAX && 0 <= b <= u64::MAX && nodes.contains(a as u64) && nodes.contains(
            b as u64,
        ) && edges.contains((a as u64, b as u64))
}

/// `order` lists the same nodes as `nodes`, each once.
pub open spec fn same_nodes(order: Seq<u64>, nodes: Seq<u64>) -> bool {
    &&& order.len() == nodes.len()
    &&& order.no_duplicates()
    &&& forall|x: u64| order.contains(x) <==> nodes.contains(x)
}

/// Mapping the nodes of a path through `f` gives a path, provided every edge
/// is carried to an edge.
pub proof fn lemma_map_path(
    e1: spec_fn(int, int) -> bool,
    e2: spec_fn(int, int) -> bool,
    f: spec_fn(int) -> int,
    path: Seq<int>,
)
    requires
        is_path(e1, path),
        forall|i: int| 0 <= i < path.len() - 1 ==> #[trigger] e2(f(path[i]), f(path[i + 1])),
    ensures
        is_path(e2, path.map_values(f)),
{
    let q = path.map_values(f);
    assert forall|i: int| 0 <= i < q.len() - 1 implies #[trigger] e2(q[i], q[i + 1]) by {
        assert(e2(f(path[i]), f(path[i + 1])));
    }
}

fn position(nodes: &Vec<u64>, x: u64) -> (r: Option<usize>)
    ensures
        match r {
            Some(i) => i < nodes@.len() && nodes@[i as int] == x,
            None => !nodes@.contains(x),
        },
{
    let mut i: usize = 0;
    while i < nodes.len()
        invariant
            i <= nodes@.len(),
            forall|j: int| 0 <= j < i ==> nodes@[j] != x,
        decreases nodes@.len() - i,
    {
        if nodes[i] == x {
            return Some(i);
        }
        i += 1;
    }
    None
}

/// Lists each of `nodes` once, every node after the nodes it has an edge to,
/// except where the edge lies on a cycle.
pub fn order_nodes(nodes: &Vec<u64>, edges: &Vec<(u64, u64)>) -> (order: Vec<u64>)
    requires
        nodes@.no_duplicates(),
    ensures
        same_nodes(order@, nodes@),
        children_first(pair_edges(nodes@, edges@), order@),
{
    let n = nodes.len();
    let ghost ns = nodes@;
    let ghost es = edges@;
    let mut adj: Vec<Vec<usize>> = Vec::new();
    let mut p: usize = 0;
    while p < n
        invariant
            n == ns.len(),
            ns == nodes@,
            ns.no_duplicates(),
            es == edges@,
            p <= n,
            adj@.len() == p,
            forall|q: int, k: int|
                0 <= q < p && 0 <= k < adj@[q]@.len() ==> (#[trigger] adj@[q]@[k]) < n,
            forall|q: int, c: int|
                0 <= q < p && 0 <= c < n ==> (adj@[q]@.contains(c as usize) <==> es.contains(
                    (ns[q], ns[c]),
                )),
        decreases n - p,
    {
        let mut row: Vec<usize> = Vec::new();
        let mut k: usize = 0;
        while k < edges.len()
            invariant
                n == ns.len(),
                ns == nodes@,
                ns.no_duplicates(),
                es == edges@,
                p < n,
                k <= es.len(),
                forall|j: int| 0 <= j < row@.len() ==> (#[trigger] row@[j]) < n,
                forall|c: int|
                    #![trigger ns[c]]
                    0 <= c < n ==> (row@.contains(c as usize) <==> exists|j: int|
                        0 <= j < k && #[trigger] es[j] == (ns[p as int], ns[c])),
            decreases es.len() - k,
        {
            let (a, b) = edges[k];
            let ghost old_row = row@;
            if a == nodes[p] {
                match position(nodes, b) {
                    Some(ib) => {
                        row.push(ib);
                    },
                    None => {},
                }
            }
            proof {
                assert forall|c: int|
                    #![trigger ns[c]]
                    0 <= c < n implies (row@.contains(c as usize) <==> exists|j: int|
                    0 <= j < k + 1 && #[trigger] es[j] == (ns[p as int], ns[c])) by {
                    let target = (ns[p as int], ns[c]);
                    if row@.contains(c as usize) {
                        if old_row.contains(c as usize) {
                            let j = choose|j: int| 0 <= j < k && #[trigger] es[j] == target;
                            assert(0 <= j < k + 1 && es[j] == target);
                        } else {
                            assert(row@.len() == old_row.len() + 1);
                            let j0 = choose|j0: int| 0 <= j0 < row@.len() && row@[j0] == c as usize;
                            if j0 < old_row.len() {
                                assert(old_row[j0] == c as usize);
                            }
                            assert(es[k as int] == target);
                        }
                    }
                    if exists|j: int| 0 <= j < k + 1 && #[trigger] es[j] == target {
                        let j = choose|j: int| 0 <= j < k + 1 && #[trigger] es[j] == target;
                        if j < k {
                            assert(old_row.contains(c as usize));
                            let m = choose|m: int| 0 <= m < old_row.len() && old_row[m] == c as usize;
                            assert(row@[m] == c as usize);
                        } else {
                            assert(a == ns[p as int] && b == ns[c]);
                            assert(ns.contains(b));
                            let ib = row@.last();
                            assert(row@ == old_row.push(ib));
                            assert(ns[ib as int] == b);
                            assert(ib as int == c) by {
                                if ib as int != c {
                                    assert(ns[ib as int] != ns[c]);
                                }
                            }
                            assert(row@[row@.len() - 1] == c as usize);
                        }
                    }
                }
            }
            k += 1;
        }
        proof {
            assert forall|c: int| 0 <= c < n implies (row@.contains(c as usize) <==> es.contains(
                (ns[p as int], ns[c]),
            )) by {
                if es.contains((ns[p as int], ns[c])) {
                    let j = choose|j: int| 0 <= j < es.len() && es[j] == (ns[p as int], ns[c]);
                    assert(es[j] == (ns[p as int], ns[c]));
                }
            }
        }
        adj.push(row);
        p += 1;
    }
    let ghost g = adj.deep_view();
    assert(graph_wf(g)) by {
        assert forall|q: int, k: int| 0 <= q < g.len() && 0 <= k < g[q].len() implies (
        #[trigger] g[q][k]) < g.len() by {
            assert(adj@[q]@[k] < n);
        }
    }
    let idx_order = dfs_postorder(&adj);
    let ghost io = idx_order@;
    let mut order: Vec<u64> = Vec::new();
    let mut i: usize = 0;
    while i < idx_order.len()
        invariant
            is_permutation(io, n as nat),
            io == idx_order@,
            ns == nodes@,
            n == ns.len(),
            i <= io.len(),
            order@.len() == i,
            forall|j: int| 0 <= j < i ==> order@[j] == ns[io[j] as int],
        decreases io.len() - i,
    {
        order.push(nodes[idx_order[i]]);
        i += 1;
    }
    proof {
        let o = order@;
        let f = |x: int| ns[x] as int;
        let pe = pair_edges(ns, es);
        // Edges of the adjacency lists are exactly the listed edges between listed nodes.
        assert forall|x: int, y: int| 0 <= x < n && 0 <= y < n implies (#[trigger] edges_of(g)(x, y)
            <==> es.contains((ns[x], ns[y]))) by {
            assert(g[x] == adj@[x]@);
            assert(adj@[x]@.contains(y as usize) <==> es.contains((ns[x], ns[y])));
        }
        assert forall|x: int, y: int| #[trigger] edges_of(g)(x, y) implies pe(f(x), f(y)) by {
            assert(ns.contains(ns[x]));
            assert(ns.contains(ns[y]));
        }
        assert(o.no_duplicates()) by {
            assert forall|a: int, b: int| 0 <= a < b < o.len() implies o[a] != o[b] by {
                assert(io[a] != io[b]);
                assert(io[a] < n && io[b] < n);
            }
        }
        assert forall|x: u64| o.contains(x) <==> ns.contains(x) by {
            if o.contains(x) {
                let a = choose|a: int| 0 <= a < o.len() && o[a] == x;
                assert(io[a] < n);
            }
            if ns.contains(x) {
                let c = choose|c: int| 0 <= c < ns.len() && ns[c] == x;
                assert(io.contains(c as usize));
                let a = choose|a: int| 0 <= a < io.len() && io[a] == c as usize;
                assert(o[a] == x);
            }
        }
        assert forall|a: int, b: int|
            0 <= a < o.len() && 0 <= b < o.len() && #[trigger] pe(
                o[a] as int,
                o[b] as int,
            ) implies b < a || reaches(pe, o[b] as int, o[a] as int) by {
            assert(io[a] < n && io[b] < n);
            assert(o[a] == ns[io[a] as int] && o[b] == ns[io[b] as int]);
            assert(edges_of(g)(io[a] as int, io[b] as int));
            if !(b < a) {
                assert(reaches(edges_of(g), io[b] as int, io[a] as int));
                let path = choose|path: Seq<int>| #[trigger] is_path(edges_of(g), path)
                    && path[0] == io[b] as int && path.last() == io[a] as int;
                assert forall|i: int| 0 <= i < path.len() - 1 implies #[trigger] pe(f(path[i]), f(path[i + 1])) by {
                    assert(edges_of(g)(path[i], path[i + 1]));
                }
                lemma_map_path(edges_of(g), pe, f, path);
                assert(is_path(pe, path.map_values(f)));
            }
        }
    }
    order
}

/// Every node reaches itself.
pub proof fn lemma_reaches_refl(edge: spec_fn(int, int) -> bool, a: int)
    ensures
        reaches(edge, a, a),
{
    let path = seq![a];
    assert(is_path(edge, path));
}

/// An edge is a path of one step.
pub proof fn lemma_reaches_edge(edge: spec_fn(int, int) -> bool, a: int, b: int)
    requires
        edge(a, b),
    ensures
        reaches(edge, a, b),
{
    let path = seq![a, b];
    assert(is_path(edge, path)) by {
        assert(edge(path[0], path[1]));
    }
}

/// Reachability is transitive.
pub proof fn lemma_reaches_trans(edge: spec_fn(int, int) -> bool, a: int, b: int, c: int)
    requires
        reaches(edge, a, b),
        reaches(edge, b, c),
    ensures
        reaches(edge, a, c),
{
    let p1 = choose|p: Seq<int>| #[trigger] is_path(edge, p) && p[0] == a && p.last() == b;
    let p2 = choose|p: Seq<int>| #[trigger] is_path(edge, p) && p[0] == b && p.last() == c;
    let p = p1 + p2.drop_first();
    assert forall|i: int| 0 <= i < p.len() - 1 implies #[trigger] edge(p[i], p[i + 1]) by {
        if i < p1.len() - 1 {
            assert(edge(p1[i], p1[i + 1]));
        } else if i == p1.len() - 1 {
            assert(p[i] == b && p[i + 1] == p2[1]);
            assert(edge(p2[0], p2[1]));
        } else {
            let m = i - p1.len() + 1;
            assert(p[i] == p2[m] && p[i + 1] == p2[m + 1]);
            assert(edge(p2[m], p2[m + 1]));
        }
    }
    if p2.len() == 1 {
        assert(p =~= p1);
    }
    assert(is_path(edge, p));
}

/// Consecutive nodes of a path are joined by an edge.
pub proof fn lemma_path_edge(edge: spec_fn(int, int) -> bool, p: Seq<int>, i: int)
    requires
        is_path(edge, p),
        0 <= i < p.len() - 1,
    ensures
        edge(p[i], p[i + 1]),
{
}

/// When two distinct nodes reach each other, some edge lies on a cycle.
pub proof fn lemma_mutual_reach_not_acyclic(edge: spec_fn(int, int) -> bool, a: int, b: int)
    requires
        a != b,
        reaches(edge, a, b),
        reaches(edge, b, a),
    ensures
        !acyclic(edge),
{
    let p = choose|p: Seq<int>| #[trigger] is_path(edge, p) && p[0] == a && p.last() == b;
    assert(p.len() >= 2);
    lemma_path_edge(edge, p, 0);
    let rest = p.drop_first();
    assert forall|i: int| 0 <= i < rest.len() - 1 implies #[trigger] edge(rest[i], rest[i + 1]) by {
        lemma_path_edge(edge, p, i + 1);
    }
    assert(is_path(edge, rest));
    lemma_reaches_trans(edge, p[1], b, a);
    assert(edge(a, p[1]) && reaches(edge, p[1], a));
}


/// A closed walk along `edge`: consecutive nodes are joined by an edge, and so
/// are the last node and the first.
pub open spec fn closed_walk(edge: spec_fn(int, int) -> bool, walk: Seq<int>) -> bool {
    &&& is_path(edge, walk)
    &&& edge(walk.last(), walk[0])
}

/// When every edge leads to a node of lower rank, no edge lies on a cycle.
pub proof fn lemma_ranked_acyclic(edge: spec_fn(int, int) -> bool, rank: spec_fn(int) -> int)
    requires
        forall|a: int, b: int| #[trigger] edge(a, b) ==> rank(b) < rank(a),
    ensures
        acyclic(edge),
{
    assert forall|p: int, c: int| #[trigger] edge(p, c) implies !reaches(edge, c, p) by {
        if reaches(edge, c, p) {
            let path = choose|path: Seq<int>| #[trigger] is_path(edge, path) && path[0] == c && path.last() == p;
            lemma_rank_along_path(edge, rank, path);
        }
    }
}

proof fn lemma_rank_along_path(edge: spec_fn(int, int) -> bool, rank: spec_fn(int) -> int, path: Seq<int>)
    requires
        forall|a: int, b: int| #[trigger] edge(a, b) ==> rank(b) < rank(a),
        is_path(edge, path),
    ensures
        rank(path.last()) <= rank(path[0]),
    decreases path.len(),
{
    if path.len() > 1 {
        let rest = path.drop_first();
        assert forall|i: int| 0 <= i < rest.len() - 1 implies #[trigger] edge(rest[i], rest[i + 1]) by {
            lemma_path_edge(edge, path, i + 1);
        }
        lemma_path_edge(edge, path, 0);
        lemma_rank_along_path(edge, rank, rest);
    }
}

/// Every listed pair whose first node is marked has its second node marked.
spec fn closed_under(es: Seq<(u64, u64)>, marked: Seq<bool>) -> bool {
    forall|k: int| #![trigger es[k]] 0 <= k < es.len() && marked[es[k].0 as int] ==> marked[es[k].1 as int]
}

/// The marked nodes form a tree rooted at `from`: each other marked node
/// has a marked parent one level up, joined to it by an edge.
spec fn search_tree(
    edge: spec_fn(int, int) -> bool,
    n: int,
    from: int,
    marked: Seq<bool>,
    parent: Seq<u64>,
    depth: Seq<int>,
) -> bool {
    &&& marked.len() == n
    &&& parent.len() == n
    &&& depth.len() == n
    &&& 0 <= from < n
    &&& marked[from]
    &&& depth[from] == 0
    &&& forall|v: int|
        #![trigger marked[v]]
        0 <= v < n && marked[v] ==> {
            &&& depth[v] >= 0
            &&& (depth[v] == 0 ==> v == from)
            &&& (depth[v] > 0 ==> {
                &&& parent[v] < n
                &&& marked[parent[v] as int]
                &&& depth[parent[v] as int] == depth[v] - 1
                &&& edge(parent[v] as int, v)
            })
        }
}

/// A marked set closed under the listed pairs contains every node that a
/// marked node reaches.
proof fn lemma_closed_reaches(
    edge: spec_fn(int, int) -> bool,
    es: Seq<(u64, u64)>,
    marked: Seq<bool>,
    path: Seq<int>,
)
    requires
        is_path(edge, path),
        0 <= path[0] < marked.len(),
        marked[path[0]],
        closed_under(es, marked),
        forall|a: int, b: int| #[trigger] edge(a, b) ==> 0 <= a <= u64::MAX && 0 <= b <= u64::MAX && es.contains((a as u64, b as u64)),
        forall|k: int| 0 <= k < es.len() ==> (#[trigger] es[k]).1 < marked.len(),
    ensures
        0 <= path.last() < marked.len(),
        marked[path.last()],
    decreases path.len(),
{
    if path.len() > 1 {
        let a = path[0];
        let b = path[1];
        lemma_path_edge(edge, path, 0);
        let k = choose|k: int| 0 <= k < es.len() && es[k] == (a as u64, b as u64);
        assert(es[k].0 as int == a && es[k].1 as int == b);
        let rest = path.drop_first();
        assert forall|i: int| 0 <= i < rest.len() - 1 implies #[trigger] edge(rest[i], rest[i + 1]) by {
            lemma_path_edge(edge, path, i + 1);
        }
        lemma_closed_reaches(edge, es, marked, rest);
    }
}

/// Finds a path from `from` to `to` along the listed pairs `edges`, given
/// that one exists.
pub(crate) fn find_path(
    n: usize,
    edges: &Vec<(u64, u64)>,
    from: u64,
    to: u64,
    Ghost(edge): Ghost<spec_fn(int, int) -> bool>,
) -> (path: Vec<u64>)
    requires
        from < n,
        to < n,
        forall|k: int| 0 <= k < edges@.len() ==> (#[trigger] edges@[k]).0 < n && edges@[k].1 < n && edge(edges@[k].0 as int, edges@[k].1 as int),
        forall|a: int, b: int| #[trigger] edge(a, b) ==> 0 <= a <= u64::MAX && 0 <= b <= u64::MAX && edges@.contains((a as u64, b as u64)),
        reaches(edge, from as int, to as int),
    ensures
        is_path(edge, path@.map_values(|x: u64| x as int)),
        path@.len() >= 1,
        path@[0] == from,
        path@.last() == to,
{
    let ghost es = edges@;
    let mut marked: Vec<bool> = Vec::new();
    let mut parent: Vec<u64> = Vec::new();
    let mut i: usize = 0;
    while i < n
        invariant
            i <= n,
            marked@.len() == i,
            parent@.len() == i,
            forall|v: int| 0 <= v < i ==> !marked@[v],
        decreases n - i,
    {
        marked.push(false);
        parent.push(0);
        i += 1;
    }
    marked.set(from as usize, true);
    let ghost mut depth: Seq<int> = Seq::new(n as nat, |v: int| 0int);
    let mut changed = true;
    while changed
        invariant
            es == edges@,
            search_tree(edge, n as int, from as int, marked@, parent@, depth),
            forall|k: int| 0 <= k < es.len() ==> (#[trigger] es[k]).0 < n && es[k].1 < n && edge(es[k].0 as int, es[k].1 as int),
            !changed ==> closed_under(es, marked@),
        decreases count_unvisited(marked@) + if changed { 1nat } else { 0nat },
    {
        changed = false;
        let ghost start = marked@;
        let mut k: usize = 0;
        while k < edges.len()
            invariant
                es == edges@,
                search_tree(edge, n as int, from as int, marked@, parent@, depth),
                forall|k: int| 0 <= k < es.len() ==> (#[trigger] es[k]).0 < n && es[k].1 < n && edge(es[k].0 as int, es[k].1 as int),
                k <= es.len(),
                start.len() == n,
                changed ==> count_unvisited(marked@) < count_unvisited(start),
                !changed ==> marked@ == start,
                !changed ==> forall|m: int| #![trigger es[m]] 0 <= m < k && marked@[es[m].0 as int] ==> marked@[es[m].1 as int],
            decreases es.len() - k,
        {
            let (x, y) = edges[k];
            assert(es[k as int] == (x, y));
            if marked[x as usize] && !marked[y as usize] {
                proof {
                    lemma_count_set(marked@, y as int);
                }
                marked.set(y as usize, true);
                parent.set(y as usize, x);
                proof {
                    depth = depth.update(y as int, depth[x as int] + 1);
                    assert(edge(x as int, y as int));
                }
                changed = true;
            }
            k += 1;
        }
    }
    proof {
        let p = choose|p: Seq<int>| #[trigger] is_path(edge, p) && p[0] == from as int && p.last() == to as int;
        lemma_closed_reaches(edge, es, marked@, p);
    }
    let mut rev: Vec<u64> = Vec::new();
    rev.push(to);
    let mut cur = to;
    while cur != from
        invariant
            search_tree(edge, n as int, from as int, marked@, parent@, depth),
            cur < n,
            marked@[cur as int],
            rev@.len() >= 1,
            rev@[0] == to,
            rev@.last() == cur,
            forall|m: int| 0 <= m < rev@.len() - 1 ==> #[trigger] edge(rev@[m + 1] as int, rev@[m] as int),
        decreases depth[cur as int],
    {
        assert(marked@[cur as int]);
        cur = parent[cur as usize];
        rev.push(cur);
    }
    let mut path: Vec<u64> = Vec::new();
    let mut j: usize = rev.len();
    while j > 0
        invariant
            j <= rev@.len(),
            rev@.len() >= 1,
            path@.len() == rev@.len() - j,
            forall|m: int| 0 <= m < path@.len() ==> path@[m] == rev@[rev@.len() - 1 - m],
        decreases j,
    {
        j -= 1;
        path.push(rev[j]);
    }
    proof {
        let q = path@.map_values(|x: u64| x as int);
        let r = rev@;
        assert forall|m: int| 0 <= m < q.len() - 1 implies #[trigger] edge(q[m], q[m + 1]) by {
            let t = r.len() - 2 - m;
            assert(edge(r[t + 1] as int, r[t] as int));
            assert(q[m] == r[t + 1] as int);
            assert(q[m + 1] == r[t] as int);
        }
    }
    path
}

} // verus!

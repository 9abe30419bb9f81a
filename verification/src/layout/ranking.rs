//! Topological ranking of a directed graph (Kahn's algorithm): the rank of a
//! node is one more than the highest rank among the nodes that point to it,
//! counting only nodes that are not held up by a cycle.

use vstd::prelude::*;

verus! {

/// Number of edges into `v` whose source is not among `done`.
pub open spec fn pending_in(edges: Seq<(usize, usize)>, v: usize, done: Seq<usize>) -> nat
    decreases edges.len(),
{
    if edges.len() == 0 {
        0
    } else {
        pending_in(edges.drop_last(), v, done) + if edges.last().1 == v && !done.contains(edges.last().0) {
            1nat
        } else {
            0nat
        }
    }
}

/// Targets of the edges leaving `u`, in edge order.
pub open spec fn targets_of(edges: Seq<(usize, usize)>, u: usize) -> Seq<usize>
    decreases edges.len(),
{
    if edges.len() == 0 {
        Seq::empty()
    } else if edges.last().0 == u {
        targets_of(edges.drop_last(), u).push(edges.last().1)
    } else {
        targets_of(edges.drop_last(), u)
    }
}

/// How often `v` occurs in `s`.
pub open spec fn occurrences(s: Seq<usize>, v: usize) -> nat
    decreases s.len(),
{
    if s.len() == 0 {
        0
    } else {
        occurrences(s.drop_last(), v) + if s.last() == v {
            1nat
        } else {
            0nat
        }
    }
}

/// Every edge joins two of the `n` nodes.
pub open spec fn edges_within(edges: Seq<(usize, usize)>, n: nat) -> bool {
    forall|e: int| 0 <= e < edges.len() ==> (#[trigger] edges[e]).0 < n && edges[e].1 < n
}

/// What the ranking promises, with `order` the nodes in the order they were
/// settled:
/// - `order` lists distinct nodes, each after every node pointing to it;
/// - a node left out has an edge from another node left out (it waits on a
///   cycle);
/// - a node's rank is at least one more than that of every settled node
///   pointing to it, and a positive rank is one more than that of some such
///   node (so it is 0 where there is none).
pub open spec fn is_ranking(n: nat, edges: Seq<(usize, usize)>, rank: Seq<usize>, order: Seq<usize>) -> bool {
    &&& rank.len() == n
    &&& order.len() <= n
    &&& forall|x: usize| x < n ==> #[trigger] rank[x as int] < n
    &&& forall|i: int| 0 <= i < order.len() ==> (#[trigger] order[i]) < n
    &&& forall|i: int, j: int| 0 <= i < j < order.len() ==> order[i] != order[j]
    &&& forall|i: int, e: int|
        0 <= i < order.len() && 0 <= e < edges.len() && (#[trigger] edges[e]).1 == #[trigger] order[i]
            ==> order.take(i).contains(edges[e].0)
    &&& forall|v: usize| v < n && !order.contains(v) ==> exists|e: int|
        0 <= e < edges.len() && (#[trigger] edges[e]).1 == v && !order.contains(edges[e].0)
    &&& forall|e: int|
        0 <= e < edges.len() && order.contains((#[trigger] edges[e]).0) ==> rank[edges[e].1 as int] >= rank[edges[e].0 as int] + 1
    &&& forall|v: usize| v < n && rank[v as int] > 0 ==> exists|e: int|
        0 <= e < edges.len() && (#[trigger] edges[e]).1 == v && order.contains(edges[e].0)
            && rank[v as int] == rank[edges[e].0 as int] + 1
}

proof fn lemma_pending_zero(edges: Seq<(usize, usize)>, v: usize, done: Seq<usize>)
    requires
        pending_in(edges, v, done) == 0,
    ensures
        forall|e: int| 0 <= e < edges.len() && (#[trigger] edges[e]).1 == v ==> done.contains(edges[e].0),
    decreases edges.len(),
{
    if edges.len() > 0 {
        lemma_pending_zero(edges.drop_last(), v, done);
        assert forall|e: int| 0 <= e < edges.len() && (#[trigger] edges[e]).1 == v implies done.contains(edges[e].0) by {
            if e < edges.len() - 1 {
                assert(edges.drop_last()[e] == edges[e]);
            }
        }
    }
}

proof fn lemma_pending_positive(edges: Seq<(usize, usize)>, v: usize, done: Seq<usize>)
    requires
        pending_in(edges, v, done) > 0,
    ensures
        exists|e: int| 0 <= e < edges.len() && (#[trigger] edges[e]).1 == v && !done.contains(edges[e].0),
    decreases edges.len(),
{
    if edges.len() > 0 {
        if edges.last().1 == v && !done.contains(edges.last().0) {
            assert(edges[edges.len() - 1] == edges.last());
        } else {
            lemma_pending_positive(edges.drop_last(), v, done);
            let e = choose|e: int| 0 <= e < edges.drop_last().len() && (#[trigger] edges.drop_last()[e]).1 == v
                && !done.contains(edges.drop_last()[e].0);
            assert(edges[e] == edges.drop_last()[e]);
        }
    }
}

proof fn lemma_pending_settle(edges: Seq<(usize, usize)>, v: usize, done: Seq<usize>, u: usize)
    requires
        !done.contains(u),
    ensures
        pending_in(edges, v, done) == pending_in(edges, v, done.push(u)) + occurrences(targets_of(edges, u), v),
    decreases edges.len(),
{
    if edges.len() > 0 {
        lemma_pending_settle(edges.drop_last(), v, done, u);
        let l = edges.last();
        assert(done.push(u).contains(l.0) <==> done.contains(l.0) || l.0 == u) by {
            if done.push(u).contains(l.0) {
                let i = choose|i: int| 0 <= i < done.push(u).len() && done.push(u)[i] == l.0;
                if i < done.len() {
                    assert(done[i] == l.0);
                }
            }
            if done.contains(l.0) {
                let i = choose|i: int| 0 <= i < done.len() && done[i] == l.0;
                assert(done.push(u)[i] == l.0);
            }
            if l.0 == u {
                assert(done.push(u)[done.len() as int] == u);
            }
        }
        if l.0 == u {
            let t = targets_of(edges.drop_last(), u);
            assert(targets_of(edges, u) == t.push(l.1));
            assert(t.push(l.1).drop_last() == t);
        }
    }
}

proof fn lemma_pending_bound(edges: Seq<(usize, usize)>, v: usize, done: Seq<usize>)
    ensures
        pending_in(edges, v, done) <= edges.len(),
    decreases edges.len(),
{
    if edges.len() > 0 {
        lemma_pending_bound(edges.drop_last(), v, done);
    }
}

proof fn lemma_targets_are_edges(edges: Seq<(usize, usize)>, u: usize)
    ensures
        forall|k: int| #![trigger targets_of(edges, u)[k]] 0 <= k < targets_of(edges, u).len() ==> exists|e: int|
            0 <= e < edges.len() && (#[trigger] edges[e]).0 == u && edges[e].1 == targets_of(edges, u)[k],
    decreases edges.len(),
{
    if edges.len() > 0 {
        let t = edges.drop_last();
        lemma_targets_are_edges(t, u);
        assert forall|k: int| #![trigger targets_of(edges, u)[k]] 0 <= k < targets_of(edges, u).len() implies exists|e: int|
            0 <= e < edges.len() && (#[trigger] edges[e]).0 == u && edges[e].1 == targets_of(edges, u)[k] by {
            if k < targets_of(t, u).len() {
                let e = choose|e: int| 0 <= e < t.len() && (#[trigger] t[e]).0 == u && t[e].1 == targets_of(t, u)[k];
                assert(edges[e] == t[e]);
                if edges.last().0 == u {
                    assert(targets_of(edges, u)[k] == targets_of(t, u)[k]);
                }
            } else {
                assert(edges[edges.len() - 1] == edges.last());
            }
        }
    }
}

proof fn lemma_edge_is_target(edges: Seq<(usize, usize)>, e: int)
    requires
        0 <= e < edges.len(),
    ensures
        occurrences(targets_of(edges, edges[e].0), edges[e].1) > 0,
    decreases edges.len(),
{
    let u = edges[e].0;
    let t = edges.drop_last();
    if e < edges.len() - 1 {
        assert(t[e] == edges[e]);
        lemma_edge_is_target(t, e);
        if edges.last().0 == u {
            assert(targets_of(edges, u).drop_last() == targets_of(t, u));
        }
    } else {
        assert(targets_of(edges, u).drop_last() == targets_of(t, u));
    }
}

proof fn lemma_occurrences_take(s: Seq<usize>, k: int, v: usize)
    requires
        0 <= k < s.len(),
    ensures
        occurrences(s.take((k + 1) as int), v) == occurrences(s.take(k), v) + if s[k] == v { 1nat } else { 0nat },
{
    assert(s.take((k + 1) as int).drop_last() == s.take(k));
}

proof fn lemma_occurrences_bound(s: Seq<usize>, v: usize)
    ensures
        occurrences(s, v) <= s.len(),
    decreases s.len(),
{
    if s.len() > 0 {
        lemma_occurrences_bound(s.drop_last(), v);
    }
}

proof fn lemma_occurrences_in(s: Seq<usize>, v: usize)
    requires
        !s.contains(v),
    ensures
        occurrences(s, v) == 0,
    decreases s.len(),
{
    if s.len() > 0 {
        assert(!s.drop_last().contains(v)) by {
            if s.drop_last().contains(v) {
                let i = choose|i: int| 0 <= i < s.drop_last().len() && s.drop_last()[i] == v;
                assert(s[i] == v);
            }
        }
        lemma_occurrences_in(s.drop_last(), v);
        assert(s[s.len() - 1] == s.last());
    }
}

/// Ranks every node of a graph of `n` nodes by Kahn's algorithm, and returns
/// the ranks with the order in which nodes were settled.
#[verifier::spinoff_prover]
#[verifier::rlimit(60)]
pub fn topological_ranks(n: usize, edges: &Vec<(usize, usize)>) -> (r: (Vec<usize>, Vec<usize>))
    requires
        edges_within(edges@, n as nat),
    ensures
        is_ranking(n as nat, edges@, r.0@, r.1@),
{
    // In-degrees and adjacency.
    let mut in_degree: Vec<usize> = Vec::new();
    let mut adj: Vec<Vec<usize>> = Vec::new();
    let mut i: usize = 0;
    while i < n
        invariant
            i <= n,
            in_degree@.len() == i,
            adj@.len() == i,
            forall|v: int| 0 <= v < i ==> #[trigger] in_degree@[v] == 0,
            forall|v: int| 0 <= v < i ==> #[trigger] adj@[v]@ == Seq::<usize>::empty(),
        decreases n - i,
    {
        in_degree.push(0);
        adj.push(Vec::new());
        i = i + 1;
    }
    let ghost no_one: Seq<usize> = Seq::empty();
    proof {
        assert forall|v: usize| v < n implies #[trigger] in_degree@[v as int] == pending_in(edges@.take(0), v, no_one)
            && adj@[v as int]@ == targets_of(edges@.take(0), v) by {}
    }
    let mut k: usize = 0;
    while k < edges.len()
        invariant
            k <= edges@.len(),
            edges_within(edges@, n as nat),
            no_one == Seq::<usize>::empty(),
            in_degree@.len() == n,
            adj@.len() == n,
            forall|v: usize| v < n ==> #[trigger] in_degree@[v as int] == pending_in(edges@.take(k as int), v, no_one),
            forall|v: usize| v < n ==> #[trigger] adj@[v as int]@ == targets_of(edges@.take(k as int), v),
        decreases edges@.len() - k,
    {
        let (from, to) = edges[k];
        proof {
            assert(edges@[k as int] == (from, to));
            lemma_pending_bound(edges@.take(k as int), to, no_one);
        }
        let d = in_degree[to];
        in_degree.set(to, d + 1);
        adj[from].push(to);
        proof {
            let t = edges@.take((k + 1) as int);
            assert(t.drop_last() == edges@.take(k as int));
            assert(t.last() == (from, to));
            assert(!no_one.contains(from)) by {
                if no_one.contains(from) {
                    let j = choose|j: int| 0 <= j < no_one.len() && no_one[j] == from;
                }
            }
            assert forall|v: usize| v < n implies #[trigger] in_degree@[v as int] == pending_in(t, v, no_one) by {}
            assert forall|v: usize| v < n implies #[trigger] adj@[v as int]@ == targets_of(t, v) by {}
        }
        k = k + 1;
    }
    proof {
        assert(edges@.take(edges@.len() as int) == edges@);
    }
    // Kahn's algorithm: the queue holds settled nodes before `head`.
    let mut rank: Vec<usize> = Vec::new();
    let mut queue: Vec<usize> = Vec::new();
    let mut v: usize = 0;
    while v < n
        invariant
            v <= n,
            no_one == Seq::<usize>::empty(),
            in_degree@.len() == n,
            rank@.len() == v,
            forall|x: int| 0 <= x < v ==> #[trigger] rank@[x] == 0,
            forall|i: int| 0 <= i < queue@.len() ==> #[trigger] queue@[i] < v,
            forall|i: int, j: int| 0 <= i < j < queue@.len() ==> queue@[i] < queue@[j],
            forall|x: usize| x < v ==> (queue@.contains(x) <==> #[trigger] in_degree@[x as int] == 0),
            forall|x: usize| x < n ==> #[trigger] in_degree@[x as int] == pending_in(edges@, x, no_one),
        decreases n - v,
    {
        rank.push(0);
        let ghost q0 = queue@;
        if in_degree[v] == 0 {
            queue.push(v);
        }
        proof {
            assert forall|x: usize| x < v + 1 implies (queue@.contains(x) <==> #[trigger] in_degree@[x as int] == 0) by {
                lemma_push_contains(q0, v, x);
                if x == v && q0.contains(x) {
                    let i = choose|i: int| 0 <= i < q0.len() && q0[i] == x;
                    assert(q0[i] < v);
                }
            }
        }
        v = v + 1;
    }
    let mut head: usize = 0;
    proof {
        lemma_distinct_bound(queue@, n as nat);
        assert(queue@.take(0) == no_one);
        assert forall|i: int, e: int|
            0 <= i < queue@.len() && 0 <= e < edges@.len() && (#[trigger] edges@[e]).1 == #[trigger] queue@[i]
                implies queue@.take(i).contains(edges@[e].0) && queue@.take(head as int).contains(edges@[e].0) by {
            let x = queue@[i];
            assert(queue@.contains(x));
            assert(in_degree@[x as int] == 0);
            lemma_pending_zero(edges@, x, no_one);
            assert(no_one.contains(edges@[e].0));
            let j = choose|j: int| 0 <= j < no_one.len() && no_one[j] == edges@[e].0;
        }
        assert(outer_inv(n as nat, edges@, head as nat, rank@, in_degree@, queue@)) by {
            reveal(outer_inv);
        }
    }
    while head < queue.len()
        invariant
            edges_within(edges@, n as nat),
            in_degree@.len() == n,
            adj@.len() == n,
            rank@.len() == n,
            head <= queue@.len() <= n,
            forall|v: usize| v < n ==> #[trigger] adj@[v as int]@ == targets_of(edges@, v),
            outer_inv(n as nat, edges@, head as nat, rank@, in_degree@, queue@),
        decreases n - head,
    {
        let u = queue[head];
        let ghost done = queue@.take(head as int);
        let ghost queue_before = queue@;
        proof {
            lemma_enter(n as nat, edges@, head as nat, rank@, in_degree@, queue@);
        }
        head = head + 1;
        let ru = rank[u];
        let mut k: usize = 0;
        while k < adj[u].len()
            invariant
                edges_within(edges@, n as nat),
                u < n,
                in_degree@.len() == n,
                adj@.len() == n,
                rank@.len() == n,
                1 <= head <= queue_before.len() <= queue@.len() <= n,
                k <= adj@[u as int]@.len(),
                forall|v: usize| v < n ==> #[trigger] adj@[v as int]@ == targets_of(edges@, v),
                done == queue_before.take(head - 1),
                u == queue_before[head - 1],
                inner_inv(n as nat, edges@, u, k as nat, done, head as nat, queue_before, ru as nat, rank@, in_degree@, queue@),
            decreases adj@[u as int]@.len() - k,
        {
            let v = adj[u][k];
            proof {
                lemma_step_pre(n as nat, edges@, u, k as nat, done, head as nat, queue_before, ru as nat, rank@, in_degree@, queue@);
            }
            let ghost r0 = rank@;
            let ghost d0 = in_degree@;
            let ghost q0 = queue@;
            let rv = rank[v];
            if rv < ru + 1 {
                rank.set(v, ru + 1);
            }
            let d = in_degree[v];
            in_degree.set(v, d - 1);
            if d - 1 == 0 {
                queue.push(v);
            }
            proof {
                lemma_step(n as nat, edges@, u, k as nat, done, head as nat, queue_before, ru as nat, r0, d0, q0, rank@, in_degree@, queue@);
            }
            k = k + 1;
        }
        proof {
            lemma_leave(n as nat, edges@, u, done, head as nat, queue_before, ru as nat, rank@, in_degree@, queue@);
        }
    }
    proof {
        lemma_finish(n as nat, edges@, head as nat, rank@, in_degree@, queue@);
    }
    (rank, queue)
}

/// The state of Kahn's algorithm between two settled nodes: the nodes
/// before `head` in `queue` are settled, the rest wait; in-degrees count the
/// edges from unsettled nodes; ranks obey the ranking rules over the settled
/// nodes.
#[verifier::opaque]
spec fn outer_inv(n: nat, edges: Seq<(usize, usize)>, head: nat, rank: Seq<usize>, indeg: Seq<usize>, queue: Seq<usize>) -> bool {
    let settled = queue.take(head as int);
    &&& indeg.len() == n
    &&& rank.len() == n
    &&& head <= queue.len() <= n
    &&& forall|i: int| 0 <= i < queue.len() ==> (#[trigger] queue[i]) < n
    &&& forall|i: int, j: int| 0 <= i < j < queue.len() ==> queue[i] != queue[j]
    &&& forall|x: usize| x < n ==> #[trigger] indeg[x as int] == pending_in(edges, x, settled)
    &&& forall|x: usize| x < n ==> (queue.contains(x) <==> #[trigger] indeg[x as int] == 0)
    &&& forall|i: int, e: int|
        0 <= i < queue.len() && 0 <= e < edges.len() && (#[trigger] edges[e]).1 == #[trigger] queue[i]
            ==> queue.take(i).contains(edges[e].0) && settled.contains(edges[e].0)
    &&& forall|i: int| 0 <= i < queue.len() ==> rank[(#[trigger] queue[i]) as int] <= i
    &&& forall|x: usize| x < n ==> #[trigger] rank[x as int] <= head
    &&& forall|e: int|
        0 <= e < edges.len() && settled.contains((#[trigger] edges[e]).0)
            ==> rank[edges[e].1 as int] >= rank[edges[e].0 as int] + 1
    &&& forall|x: usize| x < n && rank[x as int] > 0 ==> exists|e: int|
        0 <= e < edges.len() && (#[trigger] edges[e]).1 == x && settled.contains(edges[e].0)
            && rank[x as int] == rank[edges[e].0 as int] + 1
}

/// Queued nodes are distinct nodes.
#[verifier::opaque]
spec fn queue_shape(n: nat, queue: Seq<usize>) -> bool {
    &&& forall|i: int| 0 <= i < queue.len() ==> (#[trigger] queue[i]) < n
    &&& forall|i: int, j: int| 0 <= i < j < queue.len() ==> queue[i] != queue[j]
}

/// In-degrees count the edges from unsettled nodes, less the first `k`
/// edges leaving `u`; a node is queued exactly when its count is zero.
#[verifier::opaque]
spec fn degrees_ok(n: nat, edges: Seq<(usize, usize)>, u: usize, k: nat, done: Seq<usize>, indeg: Seq<usize>, queue: Seq<usize>) -> bool {
    &&& forall|x: usize| x < n ==> #[trigger] indeg[x as int] + occurrences(targets_of(edges, u).take(k as int), x) == pending_in(edges, x, done)
    &&& forall|x: usize| x < n ==> (queue.contains(x) <==> #[trigger] indeg[x as int] == 0)
}

/// Every edge into a queued node starts at an earlier queued node, and at a
/// settled one.
#[verifier::opaque]
spec fn topo_ok(edges: Seq<(usize, usize)>, settled: Seq<usize>, queue: Seq<usize>) -> bool {
    forall|i: int, e: int|
        0 <= i < queue.len() && 0 <= e < edges.len() && (#[trigger] edges[e]).1 == #[trigger] queue[i]
            ==> queue.take(i).contains(edges[e].0) && settled.contains(edges[e].0)
}

/// The ranking rules hold over the settled nodes, the edges from `u`
/// included up to the `k`-th.
#[verifier::opaque]
spec fn ranks_ok(n: nat, edges: Seq<(usize, usize)>, u: usize, k: nat, done: Seq<usize>, head: nat, ru: nat, rank: Seq<usize>, queue: Seq<usize>) -> bool {
    let settled = done.push(u);
    let ts = targets_of(edges, u);
    &&& forall|i: int| 0 <= i < queue.len() ==> rank[(#[trigger] queue[i]) as int] <= i
    &&& forall|x: usize| x < n ==> #[trigger] rank[x as int] <= head
    &&& forall|e: int|
        0 <= e < edges.len() && done.contains((#[trigger] edges[e]).0)
            ==> rank[edges[e].1 as int] >= rank[edges[e].0 as int] + 1
    &&& forall|j: int| 0 <= j < k ==> rank[(#[trigger] ts[j]) as int] >= ru + 1
    &&& forall|x: usize| x < n && rank[x as int] > 0 ==> exists|e: int|
        0 <= e < edges.len() && (#[trigger] edges[e]).1 == x && settled.contains(edges[e].0)
            && rank[x as int] == rank[edges[e].0 as int] + 1
}

/// The state while the edges leaving `u` (the node settled last) are
/// relaxed: the first `k` of them have been taken into account.
spec fn inner_inv(
    n: nat,
    edges: Seq<(usize, usize)>,
    u: usize,
    k: nat,
    done: Seq<usize>,
    head: nat,
    queue_before: Seq<usize>,
    ru: nat,
    rank: Seq<usize>,
    indeg: Seq<usize>,
    queue: Seq<usize>,
) -> bool {
    &&& indeg.len() == n
    &&& rank.len() == n
    &&& u < n
    &&& k <= targets_of(edges, u).len()
    &&& 1 <= head <= queue_before.len() <= queue.len() <= n
    &&& queue.take(queue_before.len() as int) == queue_before
    &&& done.push(u) == queue.take(head as int)
    &&& !done.contains(u)
    &&& ru == rank[u as int]
    &&& ru < head
    &&& queue_shape(n, queue)
    &&& degrees_ok(n, edges, u, k, done, indeg, queue)
    &&& topo_ok(edges, done.push(u), queue)
    &&& ranks_ok(n, edges, u, k, done, head, ru, rank, queue)
}

proof fn lemma_take_contains(s: Seq<usize>, a: int, b: int, x: usize)
    requires
        0 <= a <= b <= s.len(),
        s.take(a).contains(x),
    ensures
        s.take(b).contains(x),
{
    let i = choose|i: int| 0 <= i < s.take(a).len() && s.take(a)[i] == x;
    assert(s.take(b)[i] == x);
}

proof fn lemma_enter(n: nat, edges: Seq<(usize, usize)>, head: nat, rank: Seq<usize>, indeg: Seq<usize>, queue: Seq<usize>)
    requires
        outer_inv(n, edges, head, rank, indeg, queue),
        head < queue.len(),
    ensures
        queue[head as int] < n,
        inner_inv(n, edges, queue[head as int], 0, queue.take(head as int), head + 1, queue, rank[queue[head as int] as int] as nat, rank, indeg, queue),
{
    reveal(outer_inv);
    reveal(queue_shape);
    reveal(degrees_ok);
    reveal(topo_ok);
    reveal(ranks_ok);
    let u = queue[head as int];
    let done = queue.take(head as int);
    assert(!done.contains(u)) by {
        if done.contains(u) {
            let i = choose|i: int| 0 <= i < done.len() && done[i] == u;
            assert(queue[i] == u);
        }
    }
    assert(queue.take((head + 1) as int) == done.push(u));
    assert(queue.take(queue.len() as int) == queue);
    assert(targets_of(edges, u).take(0) =~= Seq::<usize>::empty());
    assert forall|i: int, e: int|
        0 <= i < queue.len() && 0 <= e < edges.len() && (#[trigger] edges[e]).1 == #[trigger] queue[i]
            implies queue.take(i).contains(edges[e].0) && done.push(u).contains(edges[e].0) by {
        lemma_take_contains(queue, head as int, (head + 1) as int, edges[e].0);
    }
    assert forall|x: usize| x < n && rank[x as int] > 0 implies exists|e: int|
        0 <= e < edges.len() && (#[trigger] edges[e]).1 == x && done.push(u).contains(edges[e].0)
            && rank[x as int] == rank[edges[e].0 as int] + 1 by {
        let e = choose|e: int| 0 <= e < edges.len() && (#[trigger] edges[e]).1 == x && done.contains(edges[e].0)
            && rank[x as int] == rank[edges[e].0 as int] + 1;
        lemma_take_contains(queue, head as int, (head + 1) as int, edges[e].0);
    }
    assert(rank[queue[head as int] as int] <= head);
}

proof fn lemma_step_pre(
    n: nat,
    edges: Seq<(usize, usize)>,
    u: usize,
    k: nat,
    done: Seq<usize>,
    head: nat,
    queue_before: Seq<usize>,
    ru: nat,
    rank: Seq<usize>,
    indeg: Seq<usize>,
    queue: Seq<usize>,
)
    requires
        edges_within(edges, n),
        inner_inv(n, edges, u, k, done, head, queue_before, ru, rank, indeg, queue),
        k < targets_of(edges, u).len(),
    ensures
        targets_of(edges, u)[k as int] < n,
        indeg[targets_of(edges, u)[k as int] as int] > 0,
        ru + 1 <= n,
{
    reveal(degrees_ok);
    let ts = targets_of(edges, u);
    let v = ts[k as int];
    lemma_targets_are_edges(edges, u);
    let e0 = choose|e: int| 0 <= e < edges.len() && (#[trigger] edges[e]).0 == u && edges[e].1 == ts[k as int];
    assert(edges[e0] == (u, v));
    assert(v < n);
    lemma_occurrences_take(ts, k as int, v);
    lemma_pending_settle(edges, v, done, u);
    assert(ts == ts.take((k + 1) as int) + ts.skip((k + 1) as int));
    lemma_occurrences_split(ts.take((k + 1) as int), ts.skip((k + 1) as int), v);
}

/// What relaxing the edge from `u` to `v` changes: `v` neither waits in the
/// queue nor is settled, and differs from `u`.
proof fn lemma_step_facts(
    n: nat,
    edges: Seq<(usize, usize)>,
    u: usize,
    k: nat,
    done: Seq<usize>,
    head: nat,
    queue_before: Seq<usize>,
    ru: nat,
    r0: Seq<usize>,
    d0: Seq<usize>,
    q0: Seq<usize>,
)
    requires
        edges_within(edges, n),
        inner_inv(n, edges, u, k, done, head, queue_before, ru, r0, d0, q0),
        k < targets_of(edges, u).len(),
        targets_of(edges, u)[k as int] < n,
        d0[targets_of(edges, u)[k as int] as int] > 0,
    ensures
        !q0.contains(targets_of(edges, u)[k as int]),
        !done.contains(targets_of(edges, u)[k as int]),
        targets_of(edges, u)[k as int] != u,
        exists|e: int| 0 <= e < edges.len() && edges[e] == (u, targets_of(edges, u)[k as int]),
{
    reveal(degrees_ok);
    let ts = targets_of(edges, u);
    let v = ts[k as int];
    let settled = done.push(u);
    lemma_targets_are_edges(edges, u);
    let e0 = choose|e: int| 0 <= e < edges.len() && (#[trigger] edges[e]).0 == u && edges[e].1 == ts[k as int];
    assert(edges[e0] == (u, v));
    assert(!q0.contains(v));
    assert(settled.len() == done.len() + 1);
    assert(q0.take(head as int).len() == head);
    assert(done.len() + 1 == head);
    assert(!done.contains(v)) by {
        if done.contains(v) {
            let j = choose|j: int| 0 <= j < done.len() && done[j] == v;
            assert(settled[j] == v);
            assert(q0.take(head as int)[j] == v);
            assert(q0[j] == v);
        }
    }
    assert(v != u) by {
        assert(settled[done.len() as int] == u);
        assert(q0.take(head as int)[done.len() as int] == u);
        assert(q0[done.len() as int] == u);
    }
}

proof fn lemma_step_shape(n: nat, q0: Seq<usize>, queue: Seq<usize>, v: usize, pushed: bool)
    requires
        queue_shape(n, q0),
        v < n,
        !q0.contains(v),
        queue == (if pushed { q0.push(v) } else { q0 }),
    ensures
        queue_shape(n, queue),
        queue.len() <= n,
{
    reveal(queue_shape);
    assert forall|i: int, j: int| 0 <= i < j < queue.len() implies queue[i] != queue[j] by {
        if j == queue.len() - 1 && pushed {
            assert(q0[i] == queue[i]);
            assert(q0.contains(q0[i]));
        }
    }
    lemma_distinct_bound(queue, n);
}

proof fn lemma_step_degrees(
    n: nat,
    edges: Seq<(usize, usize)>,
    u: usize,
    k: nat,
    done: Seq<usize>,
    d0: Seq<usize>,
    q0: Seq<usize>,
    indeg: Seq<usize>,
    queue: Seq<usize>,
)
    requires
        degrees_ok(n, edges, u, k, done, d0, q0),
        k < targets_of(edges, u).len(),
        targets_of(edges, u)[k as int] < n,
        d0.len() == n,
        d0[targets_of(edges, u)[k as int] as int] > 0,
        indeg == d0.update(targets_of(edges, u)[k as int] as int, (d0[targets_of(edges, u)[k as int] as int] - 1) as usize),
        queue == (if d0[targets_of(edges, u)[k as int] as int] - 1 == 0 { q0.push(targets_of(edges, u)[k as int]) } else { q0 }),
    ensures
        degrees_ok(n, edges, u, k + 1, done, indeg, queue),
{
    reveal(degrees_ok);
    let ts = targets_of(edges, u);
    let v = ts[k as int];
    assert forall|x: usize| x < n implies #[trigger] indeg[x as int] + occurrences(ts.take((k + 1) as int), x) == pending_in(edges, x, done) by {
        lemma_occurrences_take(ts, k as int, x);
    }
    assert forall|x: usize| x < n implies (queue.contains(x) <==> #[trigger] indeg[x as int] == 0) by {
        lemma_push_contains(q0, v, x);
    }
}

proof fn lemma_step_topo(
    edges: Seq<(usize, usize)>,
    u: usize,
    k: nat,
    done: Seq<usize>,
    head: nat,
    q0: Seq<usize>,
    queue: Seq<usize>,
    v: usize,
    pushed: bool,
)
    requires
        topo_ok(edges, done.push(u), q0),
        done.push(u) == q0.take(head as int),
        head <= q0.len(),
        queue == (if pushed { q0.push(v) } else { q0 }),
        pushed ==> pending_in(edges, v, done.push(u)) == 0,
    ensures
        topo_ok(edges, done.push(u), queue),
{
    reveal(topo_ok);
    let settled = done.push(u);
    if pushed {
        lemma_pending_zero(edges, v, settled);
    }
    assert forall|i: int, e: int|
        0 <= i < queue.len() && 0 <= e < edges.len() && (#[trigger] edges[e]).1 == #[trigger] queue[i]
            implies queue.take(i).contains(edges[e].0) && settled.contains(edges[e].0) by {
        if i < q0.len() {
            assert(queue[i] == q0[i]);
            assert(queue.take(i) == q0.take(i));
        } else {
            let w = edges[e].0;
            assert(settled.contains(w));
            let j = choose|j: int| 0 <= j < settled.len() && settled[j] == w;
            assert(q0.take(head as int)[j] == w);
            assert(queue.take(i)[j] == w);
        }
    }
}

proof fn lemma_step_ranks(
    n: nat,
    edges: Seq<(usize, usize)>,
    u: usize,
    k: nat,
    done: Seq<usize>,
    head: nat,
    ru: nat,
    r0: Seq<usize>,
    q0: Seq<usize>,
    rank: Seq<usize>,
    queue: Seq<usize>,
    pushed: bool,
)
    requires
        edges_within(edges, n),
        n <= usize::MAX,
        queue_shape(n, q0),
        q0.len() <= n,
        u < n,
        ru == r0[u as int],
        ranks_ok(n, edges, u, k, done, head, ru, r0, q0),
        r0.len() == n,
        ru < head <= q0.len(),
        k < targets_of(edges, u).len(),
        targets_of(edges, u)[k as int] < n,
        !q0.contains(targets_of(edges, u)[k as int]),
        !done.contains(targets_of(edges, u)[k as int]),
        targets_of(edges, u)[k as int] != u,
        exists|e: int| 0 <= e < edges.len() && edges[e] == (u, targets_of(edges, u)[k as int]),
        rank == (if r0[targets_of(edges, u)[k as int] as int] < ru + 1 {
            r0.update(targets_of(edges, u)[k as int] as int, (ru + 1) as usize)
        } else {
            r0
        }),
        queue == (if pushed { q0.push(targets_of(edges, u)[k as int]) } else { q0 }),
    ensures
        ranks_ok(n, edges, u, k + 1, done, head, ru, rank, queue),
{
    reveal(ranks_ok);
    reveal(queue_shape);
    let ts = targets_of(edges, u);
    let v = ts[k as int];
    let settled = done.push(u);
    let e0 = choose|e: int| 0 <= e < edges.len() && edges[e] == (u, v);
    assert forall|i: int| 0 <= i < queue.len() implies rank[(#[trigger] queue[i]) as int] <= i by {
        if i < q0.len() {
            assert(queue[i] == q0[i]);
            if q0[i] == v {
                assert(q0.contains(v));
            }
            assert(r0[q0[i] as int] <= i);
        } else {
            assert(queue[i] == v);
            assert(r0[v as int] <= head);
        }
    }
    assert forall|e: int|
        0 <= e < edges.len() && done.contains((#[trigger] edges[e]).0)
            implies rank[edges[e].1 as int] >= rank[edges[e].0 as int] + 1 by {
        assert(edges[e].0 != v);
        assert(edges[e].0 < n && edges[e].1 < n);
    }
    assert forall|j: int| 0 <= j < k + 1 implies rank[(#[trigger] ts[j]) as int] >= ru + 1 by {
        lemma_targets_are_edges(edges, u);
        let e = choose|e: int| 0 <= e < edges.len() && (#[trigger] edges[e]).0 == u && edges[e].1 == ts[j];
        assert(ts[j] < n);
        if j < k {
            assert(r0[ts[j] as int] >= ru + 1);
        }
    }
    assert forall|x: usize| x < n && rank[x as int] > 0 implies exists|e: int|
        0 <= e < edges.len() && (#[trigger] edges[e]).1 == x && settled.contains(edges[e].0)
            && rank[x as int] == rank[edges[e].0 as int] + 1 by {
        if x == v && r0[v as int] < ru + 1 {
            assert(edges[e0].1 == x);
            assert(settled[done.len() as int] == u);
            assert(settled.contains(u));
            assert(rank[u as int] == ru);
            assert(rank[x as int] == rank[edges[e0].0 as int] + 1);
        } else {
            let e = choose|e: int| 0 <= e < edges.len() && (#[trigger] edges[e]).1 == x && settled.contains(edges[e].0)
                && r0[x as int] == r0[edges[e].0 as int] + 1;
            assert(edges[e].0 != v) by {
                if edges[e].0 == v {
                    let j = choose|j: int| 0 <= j < settled.len() && settled[j] == v;
                    if j < done.len() {
                        assert(done[j] == v);
                        assert(done.contains(v));
                    } else {
                        assert(settled[done.len() as int] == u);
                    }
                }
            }
            assert(edges[e].0 < n);
            assert(rank[x as int] == r0[x as int]);
            assert(rank[edges[e].0 as int] == r0[edges[e].0 as int]);
        }
    }
}

proof fn lemma_step(
    n: nat,
    edges: Seq<(usize, usize)>,
    u: usize,
    k: nat,
    done: Seq<usize>,
    head: nat,
    queue_before: Seq<usize>,
    ru: nat,
    r0: Seq<usize>,
    d0: Seq<usize>,
    q0: Seq<usize>,
    rank: Seq<usize>,
    indeg: Seq<usize>,
    queue: Seq<usize>,
)
    requires
        edges_within(edges, n),
        n <= usize::MAX,
        inner_inv(n, edges, u, k, done, head, queue_before, ru, r0, d0, q0),
        k < targets_of(edges, u).len(),
        ({
            let v = targets_of(edges, u)[k as int];
            &&& v < n
            &&& d0[v as int] > 0
            &&& rank == (if r0[v as int] < ru + 1 { r0.update(v as int, (ru + 1) as usize) } else { r0 })
            &&& indeg == d0.update(v as int, (d0[v as int] - 1) as usize)
            &&& queue == (if d0[v as int] - 1 == 0 { q0.push(v) } else { q0 })
        }),
    ensures
        inner_inv(n, edges, u, k + 1, done, head, queue_before, ru, rank, indeg, queue),
        queue_before.len() <= queue.len() <= n,
{
    let ts = targets_of(edges, u);
    let v = ts[k as int];
    let settled = done.push(u);
    let pushed = d0[v as int] - 1 == 0;
    lemma_step_facts(n, edges, u, k, done, head, queue_before, ru, r0, d0, q0);
    lemma_step_shape(n, q0, queue, v, pushed);
    lemma_step_degrees(n, edges, u, k, done, d0, q0, indeg, queue);
    if pushed {
        reveal(degrees_ok);
        lemma_pending_settle(edges, v, done, u);
        assert(indeg[v as int] == 0);
        assert(ts == ts.take((k + 1) as int) + ts.skip((k + 1) as int));
        lemma_occurrences_split(ts.take((k + 1) as int), ts.skip((k + 1) as int), v);
        assert(pending_in(edges, v, settled) == 0);
    }
    lemma_step_topo(edges, u, k, done, head, q0, queue, v, pushed);
    assert(ru < head <= q0.len());
    lemma_step_ranks(n, edges, u, k, done, head, ru, r0, q0, rank, queue, pushed);
    assert(queue.take(queue_before.len() as int) == queue_before) by {
        if pushed {
            assert(q0.push(v).take(queue_before.len() as int) == q0.take(queue_before.len() as int));
        }
    }
    assert(settled == queue.take(head as int)) by {
        if pushed {
            assert(q0.push(v).take(head as int) == q0.take(head as int));
        }
    }
}

proof fn lemma_leave(
    n: nat,
    edges: Seq<(usize, usize)>,
    u: usize,
    done: Seq<usize>,
    head: nat,
    queue_before: Seq<usize>,
    ru: nat,
    rank: Seq<usize>,
    indeg: Seq<usize>,
    queue: Seq<usize>,
)
    requires
        inner_inv(n, edges, u, targets_of(edges, u).len(), done, head, queue_before, ru, rank, indeg, queue),
    ensures
        outer_inv(n, edges, head, rank, indeg, queue),
{
    reveal(outer_inv);
    reveal(queue_shape);
    reveal(degrees_ok);
    reveal(topo_ok);
    reveal(ranks_ok);
    let ts = targets_of(edges, u);
    let settled = done.push(u);
    assert(ts.take(ts.len() as int) == ts);
    assert forall|x: usize| x < n implies #[trigger] indeg[x as int] == pending_in(edges, x, settled) by {
        lemma_pending_settle(edges, x, done, u);
    }
    assert forall|e: int|
        0 <= e < edges.len() && settled.contains((#[trigger] edges[e]).0)
            implies rank[edges[e].1 as int] >= rank[edges[e].0 as int] + 1 by {
        if !done.contains(edges[e].0) {
            assert(edges[e].0 == u) by {
                let j = choose|j: int| 0 <= j < settled.len() && settled[j] == edges[e].0;
                if j < done.len() {
                    assert(done[j] == settled[j]);
                }
            }
            lemma_edge_is_target(edges, e);
            assert(ts.contains(edges[e].1)) by {
                if !ts.contains(edges[e].1) {
                    lemma_occurrences_in(ts, edges[e].1);
                }
            }
        }
    }
}

proof fn lemma_finish(n: nat, edges: Seq<(usize, usize)>, head: nat, rank: Seq<usize>, indeg: Seq<usize>, queue: Seq<usize>)
    requires
        outer_inv(n, edges, head, rank, indeg, queue),
        head >= queue.len(),
    ensures
        is_ranking(n, edges, rank, queue),
{
    reveal(outer_inv);
    assert(queue.take(head as int) == queue);
    assert forall|x: usize| x < n implies #[trigger] rank[x as int] < n by {
        if queue.contains(x) {
            let i = choose|i: int| 0 <= i < queue.len() && queue[i] == x;
            assert(rank[queue[i] as int] <= i);
        } else {
            lemma_distinct_bound_missing(queue, n, x);
        }
    }
    assert forall|v: usize| v < n && !queue.contains(v) implies exists|e: int|
        0 <= e < edges.len() && (#[trigger] edges[e]).1 == v && !queue.contains(edges[e].0) by {
        assert(indeg[v as int] != 0);
        lemma_pending_positive(edges, v, queue);
    }
}

/// Distinct values below `n` number at most `n`.
proof fn lemma_distinct_bound(s: Seq<usize>, n: nat)
    requires
        forall|i: int| 0 <= i < s.len() ==> (#[trigger] s[i]) < n,
        forall|i: int, j: int| 0 <= i < j < s.len() ==> s[i] != s[j],
    ensures
        s.len() <= n,
    decreases n,
{
    if n == 0 {
        if s.len() > 0 {
            assert(s[0] < n);
        }
    } else {
        let m = (n - 1) as usize;
        if s.contains(m) {
            let i = choose|i: int| 0 <= i < s.len() && s[i] == m;
            let r = s.remove(i);
            assert forall|a: int| 0 <= a < r.len() implies (#[trigger] r[a]) < (n - 1) as nat by {
                let a2 = if a < i { a } else { a + 1 };
                assert(r[a] == s[a2]);
            }
            assert forall|a: int, b: int| 0 <= a < b < r.len() implies r[a] != r[b] by {
                let a2 = if a < i { a } else { a + 1 };
                let b2 = if b < i { b } else { b + 1 };
                assert(r[a] == s[a2]);
                assert(r[b] == s[b2]);
            }
            lemma_distinct_bound(r, (n - 1) as nat);
        } else {
            assert forall|a: int| 0 <= a < s.len() implies (#[trigger] s[a]) < (n - 1) as nat by {
                if s[a] == m {
                    assert(s.contains(m));
                }
            }
            lemma_distinct_bound(s, (n - 1) as nat);
        }
    }
}

/// Distinct values below `n`, none of them `x`, number fewer than `n`.
proof fn lemma_distinct_bound_missing(s: Seq<usize>, n: nat, x: usize)
    requires
        x < n,
        !s.contains(x),
        forall|i: int| 0 <= i < s.len() ==> (#[trigger] s[i]) < n,
        forall|i: int, j: int| 0 <= i < j < s.len() ==> s[i] != s[j],
    ensures
        s.len() < n,
{
    let t = s.map_values(|v: usize| if v > x { (v - 1) as usize } else { v });
    assert forall|i: int| 0 <= i < t.len() implies (#[trigger] t[i]) < (n - 1) as nat by {
        assert(s[i] != x) by {
            if s[i] == x {
                assert(s.contains(x));
            }
        }
    }
    assert forall|i: int, j: int| 0 <= i < j < t.len() implies t[i] != t[j] by {
        assert(s[i] != x) by {
            if s[i] == x {
                assert(s.contains(x));
            }
        }
        assert(s[j] != x) by {
            if s[j] == x {
                assert(s.contains(x));
            }
        }
    }
    lemma_distinct_bound(t, (n - 1) as nat);
}

proof fn lemma_push_contains(s: Seq<usize>, a: usize, x: usize)
    ensures
        s.push(a).contains(x) <==> s.contains(x) || x == a,
{
    if s.push(a).contains(x) {
        let i = choose|i: int| 0 <= i < s.push(a).len() && s.push(a)[i] == x;
        if i < s.len() {
            assert(s[i] == x);
        }
    }
    if s.contains(x) {
        let i = choose|i: int| 0 <= i < s.len() && s[i] == x;
        assert(s.push(a)[i] == x);
    }
    if x == a {
        assert(s.push(a)[s.len() as int] == x);
    }
}

proof fn lemma_occurrences_split(a: Seq<usize>, b: Seq<usize>, v: usize)
    ensures
        occurrences(a + b, v) == occurrences(a, v) + occurrences(b, v),
    decreases b.len(),
{
    if b.len() == 0 {
        assert(a + b == a);
    } else {
        lemma_occurrences_split(a, b.drop_last(), v);
        assert((a + b).drop_last() == a + b.drop_last());
    }
}

} // verus!

//! Breadth-first search: the unweighted shortest-path distance between two
//! vertices, specified through walks of the graph and proved minimal.

use vstd::prelude::*;
use std::collections::VecDeque;
use vstd::seq_lib::*;
use vstd::set_lib::*;
use crate::graph::Graph;
use crate::graph::has_edge;
use crate::graph::symmetric;
use crate::graph::lemma_adj_map_dom;

verus! {

/// `p` is a walk of `g`: nonempty, and each element is followed by one of
/// its neighbors.
pub open spec fn is_path(g: Map<i32, Seq<i32>>, p: Seq<i32>) -> bool {
    &&& p.len() >= 1
    &&& forall|i: int| 0 <= i < p.len() - 1 ==> has_edge(g, #[trigger] p[i], p[i + 1])
}

/// `p` is a walk of `g` from `a` to `b`.
pub open spec fn connects(g: Map<i32, Seq<i32>>, a: i32, b: i32, p: Seq<i32>) -> bool {
    is_path(g, p) && p.first() == a && p.last() == b
}

/// Some walk of exactly `n` edges joins `a` to `b`. A walk of zero edges
/// joins every vertex to itself, whether or not it is in the graph.
pub open spec fn has_path_of_len(g: Map<i32, Seq<i32>>, a: i32, b: i32, n: nat) -> bool {
    exists|p: Seq<i32>| connects(g, a, b, p) && p.len() == n + 1
}

/// Some walk joins `a` to `b`.
pub open spec fn connected(g: Map<i32, Seq<i32>>, a: i32, b: i32) -> bool {
    exists|n: nat| has_path_of_len(g, a, b, n)
}

/// `n` is the length of a shortest walk from `a` to `b`.
pub open spec fn is_min_dist(g: Map<i32, Seq<i32>>, a: i32, b: i32, n: nat) -> bool {
    &&& has_path_of_len(g, a, b, n)
    &&& forall|m: nat| m < n ==> !has_path_of_len(g, a, b, m)
}

/// Some entry of the queue carries the vertex `v`.
pub open spec fn in_queue(q: Seq<(i32, usize)>, v: i32) -> bool {
    exists|i: int| 0 <= i < q.len() && q[i].0 == v
}

/// A walk to `x` extends along an edge to a walk one longer.
proof fn lemma_extend_path(g: Map<i32, Seq<i32>>, a: i32, x: i32, w: i32, n: nat)
    requires
        has_path_of_len(g, a, x, n),
        has_edge(g, x, w),
    ensures
        has_path_of_len(g, a, w, n + 1),
{
    let p = choose|p: Seq<i32>| connects(g, a, x, p) && p.len() == n + 1;
    let q = p.push(w);
    assert forall|i: int| 0 <= i < q.len() - 1 implies has_edge(g, #[trigger] q[i], q[i + 1]) by {
        if i < p.len() - 1 {
            assert(q[i] == p[i]);
            assert(q[i + 1] == p[i + 1]);
        } else {
            assert(q[i] == p.last());
            assert(q[i + 1] == w);
        }
    }
    assert(q.first() == a);
    assert(q.last() == w);
    assert(connects(g, a, w, q) && q.len() == n + 2);
}

/// Wherever some walk exists, a shortest one exists.
proof fn lemma_min_dist_exists(g: Map<i32, Seq<i32>>, a: i32, b: i32, n: nat)
    requires
        has_path_of_len(g, a, b, n),
    ensures
        exists|m: nat| m <= n && is_min_dist(g, a, b, m),
    decreases n,
{
    if exists|m: nat| m < n && has_path_of_len(g, a, b, m) {
        let m = choose|m: nat| m < n && has_path_of_len(g, a, b, m);
        lemma_min_dist_exists(g, a, b, m);
        let m2 = choose|m2: nat| m2 <= m && is_min_dist(g, a, b, m2);
        assert(m2 <= n && is_min_dist(g, a, b, m2));
    } else {
        assert(is_min_dist(g, a, b, n));
    }
}

/// Two shortest-walk lengths for the same pair agree.
pub proof fn lemma_min_dist_unique(g: Map<i32, Seq<i32>>, a: i32, b: i32, n1: nat, n2: nat)
    requires
        is_min_dist(g, a, b, n1),
        is_min_dist(g, a, b, n2),
    ensures
        n1 == n2,
{
    if n1 < n2 {
        assert(!has_path_of_len(g, a, b, n1));
    }
    if n2 < n1 {
        assert(!has_path_of_len(g, a, b, n2));
    }
}

/// A zero-length walk stays put.
proof fn lemma_min_dist_zero_self(g: Map<i32, Seq<i32>>, a: i32, b: i32)
    requires
        has_path_of_len(g, a, b, 0),
    ensures
        a == b,
{
    let p = choose|p: Seq<i32>| connects(g, a, b, p) && p.len() == 1;
    assert(p.first() == p.last());
}

/// Distinct vertices are at least one step apart.
pub proof fn lemma_min_dist_positive(g: Map<i32, Seq<i32>>, a: i32, b: i32, n: nat)
    requires
        is_min_dist(g, a, b, n),
        a != b,
    ensures
        n >= 1,
{
    if n == 0 {
        lemma_min_dist_zero_self(g, a, b);
    }
}

/// Every vertex is connected to itself by the empty walk, at distance zero.
pub proof fn lemma_self_distance_zero(g: Map<i32, Seq<i32>>, a: i32)
    ensures
        connected(g, a, a),
        is_min_dist(g, a, a, 0),
{
    let p = seq![a];
    assert(p.len() == 1);
    assert(p.first() == a && p.last() == a);
    assert(connects(g, a, a, p) && p.len() == 0 + 1);
    assert(has_path_of_len(g, a, a, 0));
}

/// A shortest walk of positive length reaches its end across an edge from
/// a vertex one step nearer the start.
proof fn lemma_min_dist_pred(g: Map<i32, Seq<i32>>, s: i32, w: i32, n: nat)
    requires
        is_min_dist(g, s, w, n),
        n >= 1,
    ensures
        exists|p: i32| #[trigger] has_edge(g, p, w) && is_min_dist(g, s, p, (n - 1) as nat),
{
    let path = choose|path: Seq<i32>| connects(g, s, w, path) && path.len() == n + 1;
    let pred = path[n - 1];
    let stem = path.drop_last();
    assert(stem.len() == n);
    assert forall|i: int| 0 <= i < stem.len() - 1 implies has_edge(g, #[trigger] stem[i], stem[i + 1]) by {
        assert(stem[i] == path[i]);
        assert(stem[i + 1] == path[i + 1]);
    }
    assert(stem.first() == s);
    assert(stem.last() == pred);
    assert(connects(g, s, pred, stem) && stem.len() == (n - 1) + 1);
    assert(has_path_of_len(g, s, pred, (n - 1) as nat));
    lemma_min_dist_exists(g, s, pred, (n - 1) as nat);
    let m = choose|m: nat| m <= n - 1 && is_min_dist(g, s, pred, m);
    assert(has_edge(g, path[n - 1], path[n as int])) by {
        assert(0 <= n - 1 < path.len() - 1);
    }
    assert(path[n as int] == path.last());
    if m < n - 1 {
        lemma_extend_path(g, s, pred, w, m);
        assert(!has_path_of_len(g, s, w, m + 1));
        assert(false);
    }
    assert(is_min_dist(g, s, pred, (n - 1) as nat));
    assert(has_edge(g, pred, w) && is_min_dist(g, s, pred, (n - 1) as nat));
}

/// In a symmetric graph, a walk runs as well backwards.
proof fn lemma_path_symmetry(g: Map<i32, Seq<i32>>, a: i32, b: i32, n: nat)
    requires
        symmetric(g),
        has_path_of_len(g, a, b, n),
    ensures
        has_path_of_len(g, b, a, n),
{
    let p = choose|p: Seq<i32>| connects(g, a, b, p) && p.len() == n + 1;
    let len = p.len();
    let q = Seq::new(len, |i: int| p[len - 1 - i]);
    assert forall|i: int| 0 <= i < q.len() - 1 implies has_edge(g, #[trigger] q[i], q[i + 1]) by {
        let j = len - 2 - i;
        assert(has_edge(g, p[j], p[j + 1]));
        assert(has_edge(g, p[j + 1], p[j]));
        assert(q[i] == p[j + 1]);
        assert(q[i + 1] == p[j]);
    }
    assert(q.first() == p.last());
    assert(q.last() == p.first());
    assert(connects(g, b, a, q) && q.len() == n + 1);
}

/// Shortest-path search is symmetric on an undirected graph: `a` reaches
/// `b` exactly when `b` reaches `a`, and the shortest distances agree.
pub proof fn lemma_bfs_symmetric(g: Map<i32, Seq<i32>>, a: i32, b: i32)
    requires
        symmetric(g),
    ensures
        connected(g, a, b) <==> connected(g, b, a),
        forall|n: nat| is_min_dist(g, a, b, n) <==> is_min_dist(g, b, a, n),
{
    assert forall|n: nat| is_min_dist(g, a, b, n) implies is_min_dist(g, b, a, n) by {
        lemma_path_symmetry(g, a, b, n);
        assert forall|m: nat| m < n implies !has_path_of_len(g, b, a, m) by {
            if has_path_of_len(g, b, a, m) {
                lemma_path_symmetry(g, b, a, m);
            }
        }
    }
    assert forall|n: nat| is_min_dist(g, b, a, n) implies is_min_dist(g, a, b, n) by {
        lemma_path_symmetry(g, b, a, n);
        assert forall|m: nat| m < n implies !has_path_of_len(g, a, b, m) by {
            if has_path_of_len(g, a, b, m) {
                lemma_path_symmetry(g, a, b, m);
            }
        }
    }
    if connected(g, a, b) {
        let n = choose|n: nat| has_path_of_len(g, a, b, n);
        lemma_path_symmetry(g, a, b, n);
    }
    if connected(g, b, a) {
        let n = choose|n: nat| has_path_of_len(g, b, a, n);
        lemma_path_symmetry(g, b, a, n);
    }
}

/// A walk that starts inside an edge-closed set ends inside it.
proof fn lemma_path_stays_in_closed(g: Map<i32, Seq<i32>>, c: Set<i32>, a: i32, b: i32, n: nat)
    requires
        c.contains(a),
        forall|v: i32, w: i32| c.contains(v) && #[trigger] has_edge(g, v, w) ==> c.contains(w),
        has_path_of_len(g, a, b, n),
    ensures
        c.contains(b),
    decreases n,
{
    if n > 0 {
        let path = choose|path: Seq<i32>| connects(g, a, b, path) && path.len() == n + 1;
        let pred = path[n - 1];
        let stem = path.drop_last();
        assert forall|i: int| 0 <= i < stem.len() - 1 implies has_edge(g, #[trigger] stem[i], stem[i + 1]) by {
            assert(stem[i] == path[i]);
            assert(stem[i + 1] == path[i + 1]);
        }
        assert(connects(g, a, pred, stem) && stem.len() == (n - 1) + 1);
        assert(has_path_of_len(g, a, pred, (n - 1) as nat));
        lemma_path_stays_in_closed(g, c, a, pred, (n - 1) as nat);
        assert(has_edge(g, path[n - 1], path[n as int])) by {
            assert(0 <= n - 1 < path.len() - 1);
        }
        assert(path[n as int] == b);
    } else {
        lemma_min_dist_zero_self(g, a, b);
    }
}

/// A sequence of distinct elements drawn from a finite set is no longer
/// than the set.
proof fn lemma_distinct_within_set(s: Seq<i32>, c: Set<i32>)
    requires
        s.no_duplicates(),
        forall|i: int| 0 <= i < s.len() ==> c.contains(#[trigger] s[i]),
        c.finite(),
    ensures
        s.len() <= c.len(),
{
    s.unique_seq_to_set();
    assert forall|x: i32| s.to_set().contains(x) implies c.contains(x) by {
        let i = choose|i: int| 0 <= i < s.len() && s[i] == x;
    }
    lemma_len_subset(s.to_set(), c);
}


/// When the head of the queue moves one level down, every vertex of the new
/// level is already visited: its shortest walk enters it from a vertex one
/// step nearer, which is visited, fully processed, and edge-closed.
proof fn lemma_advance_frontier(
    g: Map<i32, Seq<i32>>,
    start: i32,
    d: usize,
    vs: Seq<i32>,
    q: Seq<(i32, usize)>,
)
    requires
        forall|w: i32, n: nat| is_min_dist(g, start, w, n) && n <= d as nat ==> vs.contains(w),
        forall|v: i32, w: i32|
            vs.contains(v) && !in_queue(q, v) && #[trigger] has_edge(g, v, w) ==> vs.contains(w),
        forall|i: int|
            0 <= i < q.len() ==> is_min_dist(g, start, (#[trigger] q[i]).0, q[i].1 as nat),
        q.len() > 0,
        forall|i: int| 0 <= i < q.len() ==> q[0].1 <= (#[trigger] q[i]).1,
        q[0].1 == d || q[0].1 == d + 1,
    ensures
        forall|w: i32, n: nat| is_min_dist(g, start, w, n) && n <= q[0].1 as nat ==> vs.contains(w),
{
    if q[0].1 == d + 1 {
        assert forall|w: i32, n: nat| is_min_dist(g, start, w, n) && n <= q[0].1 as nat implies vs
            .contains(w) by {
            if n > d as nat {
                assert(n == d as nat + 1);
                lemma_min_dist_pred(g, start, w, n);
                let p = choose|p: i32|
                    #[trigger] has_edge(g, p, w) && is_min_dist(g, start, p, (n - 1) as nat);
                assert(vs.contains(p));
                assert(!in_queue(q, p)) by {
                    if in_queue(q, p) {
                        let i = choose|i: int| 0 <= i < q.len() && q[i].0 == p;
                        assert(is_min_dist(g, start, p, q[i].1 as nat));
                        lemma_min_dist_unique(g, start, p, q[i].1 as nat, (n - 1) as nat);
                        assert(q[i].1 >= q[0].1);
                        assert(false);
                    }
                }
                assert(vs.contains(w));
            }
        }
    }
}

/// Linear scan membership test.
fn vec_contains(s: &Vec<i32>, x: i32) -> (b: bool)
    ensures
        b == s@.contains(x),
{
    let n = s.len();
    for i in 0..n
        invariant
            n == s@.len(),
            forall|k: int| 0 <= k < i ==> s@[k] != x,
    {
        if s[i] == x {
            assert(s@[i as int] == x);
            return true;
        }
    }
    false
}

/// Level-order breadth-first search: the number of edges on a shortest walk
/// from `start` to `end`, or nothing when no walk joins them. Neither vertex
/// needs to be in the graph; a vertex reaches itself at distance zero.
#[verifier::loop_isolation(false)]
pub fn bfs(graph: &Graph, start: i32, end: i32) -> (r: Option<usize>)
    requires
        graph.wf(),
    ensures
        match r {
            Some(d) => is_min_dist(graph@, start, end, d as nat),
            None => !connected(graph@, start, end),
        },
{
    let ghost g = graph@;
    let ghost cand = g.dom().insert(start);
    proof {
        lemma_adj_map_dom(graph.adjacency_list@);
        assert(cand.finite());
        lemma_self_distance_zero(g, start);
    }
    let mut queue: VecDeque<(i32, usize)> = VecDeque::new();
    let mut visited: Vec<i32> = Vec::new();
    queue.push_back((start, 0));
    visited.push(start);
    proof {
        assert(queue@ =~= seq![(start, 0usize)]);
        assert(visited@ =~= seq![start]);
        assert(visited@[0] == start);
        assert(in_queue(queue@, start)) by {
            assert(queue@[0].0 == start);
        }
        lemma_distinct_within_set(visited@, cand);
        assert forall|w: i32, n: nat| is_min_dist(g, start, w, n) && n <= queue@[0].1 as nat
            implies visited@.contains(w) by {
            lemma_min_dist_zero_self(g, start, w);
        }
    }
    while queue.len() != 0
        invariant
            visited@.no_duplicates(),
            visited@.contains(start),
            forall|i: int| 0 <= i < visited@.len() ==> cand.contains(#[trigger] visited@[i]),
            visited@.len() <= cand.len(),
            forall|i: int| 0 <= i < queue@.len() ==> visited@.contains((#[trigger] queue@[i]).0),
            forall|i: int|
                0 <= i < queue@.len() ==> is_min_dist(
                    g,
                    start,
                    (#[trigger] queue@[i]).0,
                    queue@[i].1 as nat,
                ),
            forall|i: int, j: int|
                0 <= i <= j < queue@.len() ==> (#[trigger] queue@[i]).1 <= (#[trigger] queue@[j]).1
                    && queue@[j].1 <= queue@[i].1 + 1,
            forall|i: int, j: int|
                0 <= i < j < queue@.len() ==> (#[trigger] queue@[i]).0 != (#[trigger] queue@[j]).0,
            forall|i: int| 0 <= i < queue@.len() ==> (#[trigger] queue@[i]).1 < visited@.len(),
            forall|v: i32, w: i32|
                visited@.contains(v) && !in_queue(queue@, v) && #[trigger] has_edge(g, v, w)
                    ==> visited@.contains(w),
            queue@.len() > 0 ==> (forall|w: i32, n: nat|
                is_min_dist(g, start, w, n) && n <= queue@[0].1 as nat ==> visited@.contains(w)),
            visited@.contains(end) ==> in_queue(queue@, end),
        decreases cand.len() - visited@.len(), queue@.len(),
    {
        let ghost q_full = queue@;
        let popped = queue.pop_front().unwrap();
        let (node, distance) = popped;
        proof {
            assert(popped == q_full[0]);
            assert(is_min_dist(g, start, node, distance as nat));
        }
        if node == end {
            return Some(distance);
        }
        let ghost q_pre = queue@;
        let ghost vs_pre = visited@;
        proof {
            assert(q_pre =~= q_full.subrange(1, q_full.len() as int));
            assert forall|i: int| 0 <= i < q_pre.len() implies q_pre[i] == q_full[i + 1] by {}
            assert forall|v: i32| in_queue(q_pre, v) implies in_queue(q_full, v) by {
                let i = choose|i: int| 0 <= i < q_pre.len() && q_pre[i].0 == v;
                assert(q_full[i + 1].0 == v);
            }
            assert forall|v: i32| in_queue(q_full, v) && v != node implies in_queue(q_pre, v) by {
                let i = choose|i: int| 0 <= i < q_full.len() && q_full[i].0 == v;
                assert(i >= 1);
                assert(q_pre[i - 1].0 == v);
            }
            assert forall|v: i32, w: i32|
                vs_pre.contains(v) && !in_queue(q_pre, v) && v != node && #[trigger] has_edge(
                    g,
                    v,
                    w,
                ) implies vs_pre.contains(w) by {
                assert(!in_queue(q_full, v));
            }
            assert(in_queue(q_full, node)) by {
                assert(q_full[0].0 == node);
            }
        }
        match graph.neighbors_of(node) {
            None => {
                proof {
                    assert forall|v: i32, w: i32|
                        visited@.contains(v) && !in_queue(queue@, v) && #[trigger] has_edge(
                            g,
                            v,
                            w,
                        ) implies visited@.contains(w) by {
                        if v == node {
                            assert(!g.dom().contains(node));
                        }
                    }
                    if queue@.len() > 0 {
                        lemma_advance_frontier(g, start, distance, visited@, queue@);
                    }
                }
            },
            Some(nbs) => {
                let m = nbs.len();
                for k in 0..m
                    invariant
                        m == nbs@.len(),
                        nbs@ == g[node],
                        g.dom().contains(node),
                        node != end,
                        visited@.no_duplicates(),
                        visited@.contains(start),
                        forall|i: int|
                            0 <= i < visited@.len() ==> cand.contains(#[trigger] visited@[i]),
                        visited@.len() <= cand.len(),
                        forall|w: i32| vs_pre.contains(w) ==> visited@.contains(w),
                        q_pre.is_prefix_of(queue@),
                        forall|i: int|
                            q_pre.len() <= i < queue@.len() ==> (#[trigger] queue@[i]).1
                                == distance + 1,
                        queue@.len() - q_pre.len() == visited@.len() - vs_pre.len(),
                        vs_pre.len() <= visited@.len(),
                        forall|i: int|
                            0 <= i < queue@.len() ==> visited@.contains((#[trigger] queue@[i]).0),
                        forall|i: int|
                            0 <= i < queue@.len() ==> is_min_dist(
                                g,
                                start,
                                (#[trigger] queue@[i]).0,
                                queue@[i].1 as nat,
                            ),
                        forall|i: int|
                            0 <= i < queue@.len() ==> distance <= (#[trigger] queue@[i]).1
                                <= distance + 1,
                        forall|i: int, j: int|
                            0 <= i <= j < queue@.len() ==> (#[trigger] queue@[i]).1 <= (
                            #[trigger] queue@[j]).1,
                        forall|i: int, j: int|
                            0 <= i < j < queue@.len() ==> (#[trigger] queue@[i]).0 != (
                            #[trigger] queue@[j]).0,
                        forall|i: int|
                            0 <= i < queue@.len() ==> (#[trigger] queue@[i]).1 < visited@.len(),
                        forall|v: i32, w: i32|
                            visited@.contains(v) && !in_queue(queue@, v) && v != node
                                && #[trigger] has_edge(g, v, w) ==> visited@.contains(w),
                        forall|j: int| 0 <= j < k ==> visited@.contains(#[trigger] nbs@[j]),
                        forall|w: i32, n: nat|
                            is_min_dist(g, start, w, n) && n <= distance as nat
                                ==> visited@.contains(w),
                        visited@.contains(end) ==> in_queue(queue@, end),
                        distance < visited@.len(),
                {
                    let w = nbs[k];
                    proof {
                        assert(nbs@[k as int] == w);
                        assert(g[node].contains(w)) by {
                            assert(g[node][k as int] == w);
                        }
                        assert(has_edge(g, node, w));
                        assert(has_edge(g, w, node));
                    }
                    if !vec_contains(&visited, w) {
                        proof {
                            assert(has_path_of_len(g, start, w, distance as nat + 1)) by {
                                lemma_extend_path(g, start, node, w, distance as nat);
                            }
                            assert forall|mm: nat| mm < distance as nat + 1 implies
                                !has_path_of_len(g, start, w, mm) by {
                                if has_path_of_len(g, start, w, mm) {
                                    lemma_min_dist_exists(g, start, w, mm);
                                    let m2 = choose|m2: nat|
                                        m2 <= mm && is_min_dist(g, start, w, m2);
                                    assert(visited@.contains(w));
                                    assert(false);
                                }
                            }
                        }
                        let ghost vs_old = visited@;
                        let ghost q_old = queue@;
                        let vl = visited.len();
                        assert(distance < vl);
                        visited.push(w);
                        queue.push_back((w, distance + 1));
                        proof {
                            assert(is_min_dist(g, start, w, (distance + 1) as nat));
                            assert(visited@ == vs_old.push(w));
                            assert(queue@ == q_old.push((w, (distance + 1) as usize)));
                            assert(visited@.no_duplicates()) by {
                                assert forall|i: int, j: int| 0 <= i < j < visited@.len() implies
                                    visited@[i] != visited@[j] by {
                                    if j == visited@.len() - 1 {
                                        assert(visited@[i] == vs_old[i]);
                                        assert(!vs_old.contains(w));
                                    }
                                }
                            }
                            assert(cand.contains(w)) by {
                                assert(g.dom().contains(w));
                            }
                            lemma_distinct_within_set(visited@, cand);
                            assert forall|x: i32| vs_old.contains(x) implies visited@.contains(
                                x,
                            ) by {
                                let i = choose|i: int| 0 <= i < vs_old.len() && vs_old[i] == x;
                                assert(visited@[i] == x);
                            }
                            assert(visited@.contains(w)) by {
                                assert(visited@[visited@.len() - 1] == w);
                            }
                            assert forall|v: i32| in_queue(q_old, v) implies in_queue(
                                queue@,
                                v,
                            ) by {
                                let i = choose|i: int| 0 <= i < q_old.len() && q_old[i].0 == v;
                                assert(queue@[i].0 == v);
                            }
                            assert(in_queue(queue@, w)) by {
                                assert(queue@[queue@.len() - 1].0 == w);
                            }
                            assert forall|v: i32| in_queue(queue@, v) && v != w implies in_queue(
                                q_old,
                                v,
                            ) by {
                                let i = choose|i: int| 0 <= i < queue@.len() && queue@[i].0 == v;
                                assert(i < q_old.len());
                            }
                        }
                    }
                }
                proof {
                    assert forall|v: i32, w2: i32|
                        visited@.contains(v) && !in_queue(queue@, v) && #[trigger] has_edge(
                            g,
                            v,
                            w2,
                        ) implies visited@.contains(w2) by {
                        if v == node {
                            assert(g[node].contains(w2));
                            let j = choose|j: int| 0 <= j < g[node].len() && g[node][j] == w2;
                            assert(nbs@[j] == w2);
                        }
                    }
                    if queue@.len() > 0 {
                        lemma_advance_frontier(g, start, distance, visited@, queue@);
                    }
                }
            },
        }
    }
    proof {
        assert(!visited@.contains(end));
        if connected(g, start, end) {
            let n = choose|n: nat| has_path_of_len(g, start, end, n);
            let c = visited@.to_set();
            assert(c.contains(start)) by {
                assert(visited@.contains(start));
            }
            assert forall|v: i32, w: i32| c.contains(v) && #[trigger] has_edge(g, v, w) implies c
                .contains(w) by {
                assert(visited@.contains(v));
                assert(!in_queue(queue@, v));
                assert(visited@.contains(w));
            }
            lemma_path_stays_in_closed(g, c, start, end, n);
            assert(false);
        }
    }
    None
}

} // verus!

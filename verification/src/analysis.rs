//! Degree statistics: the degree-frequency distribution of a graph, and the
//! per-source edge counts and trust-weight sums behind the trust-correlation
//! report.

use vstd::prelude::*;
use crate::graph::Graph;
use crate::graph::lemma_adj_map_len;

verus! {

/// How many adjacency-list entries have a neighbor list of length `d`.
pub open spec fn degree_count(s: Seq<(i32, Vec<i32>)>, d: nat) -> nat
    decreases s.len(),
{
    if s.len() == 0 {
        0
    } else {
        degree_count(s.drop_last(), d) + (if s.last().1@.len() == d {
            1nat
        } else {
            0nat
        })
    }
}

/// The total of the counts of a degree distribution.
pub open spec fn count_sum(s: Seq<(usize, usize)>) -> int
    decreases s.len(),
{
    if s.len() == 0 {
        0
    } else {
        count_sum(s.drop_last()) + s.last().1
    }
}

/// Some entry of the distribution carries the degree `d`.
pub open spec fn has_degree_entry(r: Seq<(usize, usize)>, d: usize) -> bool {
    exists|k: int| 0 <= k < r.len() && (#[trigger] r[k]).0 == d
}

/// Some entry of the accumulated sums carries the source vertex `v`.
pub open spec fn has_source_entry(r: Seq<(i32, usize, i128)>, v: i32) -> bool {
    exists|k: int| 0 <= k < r.len() && (#[trigger] r[k]).0 == v
}

/// How many edges of the list have `v` as their source.
pub open spec fn source_count(edges: Seq<(i32, i32, i32)>, v: i32) -> nat
    decreases edges.len(),
{
    if edges.len() == 0 {
        0
    } else {
        source_count(edges.drop_last(), v) + (if edges.last().0 == v {
            1nat
        } else {
            0nat
        })
    }
}

/// The sum of the weights of the edges with source `v`.
pub open spec fn source_weight_sum(edges: Seq<(i32, i32, i32)>, v: i32) -> int
    decreases edges.len(),
{
    if edges.len() == 0 {
        0
    } else {
        source_weight_sum(edges.drop_last(), v) + (if edges.last().0 == v {
            edges.last().2 as int
        } else {
            0
        })
    }
}

/// No degree is shared by more entries than there are.
proof fn lemma_degree_count_le(s: Seq<(i32, Vec<i32>)>, d: nat)
    ensures
        degree_count(s, d) <= s.len(),
    decreases s.len(),
{
    if s.len() > 0 {
        lemma_degree_count_le(s.drop_last(), d);
    }
}

/// A vertex that sources no edge contributes no weight.
proof fn lemma_source_sum_zero(edges: Seq<(i32, i32, i32)>, v: i32)
    requires
        source_count(edges, v) == 0,
    ensures
        source_weight_sum(edges, v) == 0,
    decreases edges.len(),
{
    if edges.len() > 0 {
        lemma_source_sum_zero(edges.drop_last(), v);
    }
}

/// No source occurs in more edges than there are.
proof fn lemma_source_count_le(edges: Seq<(i32, i32, i32)>, v: i32)
    ensures
        source_count(edges, v) <= edges.len(),
    decreases edges.len(),
{
    if edges.len() > 0 {
        lemma_source_count_le(edges.drop_last(), v);
    }
}

/// Scan a distribution for a degree, left to right.
fn find_count(r: &Vec<(usize, usize)>, key: usize) -> (res: Option<usize>)
    ensures
        match res {
            Some(j) => j < r@.len() && r@[j as int].0 == key,
            None => forall|i: int| 0 <= i < r@.len() ==> r@[i].0 != key,
        },
{
    let n = r.len();
    for j in 0..n
        invariant
            n == r@.len(),
            forall|i: int| 0 <= i < j ==> r@[i].0 != key,
    {
        if r[j].0 == key {
            return Some(j);
        }
    }
    None
}

/// Scan the accumulated sums for a source vertex, left to right.
fn find_source(r: &Vec<(i32, usize, i128)>, key: i32) -> (res: Option<usize>)
    ensures
        match res {
            Some(j) => j < r@.len() && r@[j as int].0 == key,
            None => forall|i: int| 0 <= i < r@.len() ==> r@[i].0 != key,
        },
{
    let n = r.len();
    for j in 0..n
        invariant
            n == r@.len(),
            forall|i: int| 0 <= i < j ==> r@[i].0 != key,
    {
        if r[j].0 == key {
            return Some(j);
        }
    }
    None
}

/// The degree-frequency distribution of the graph: one entry per observed
/// degree, pairing the degree with the number of vertices that have it.
/// A vertex's degree is the raw length of its neighbor list. The order of
/// the entries is left open; the counts sum to the number of vertices.
#[verifier::loop_isolation(false)]
pub fn degree_distribution(graph: &Graph) -> (r: Vec<(usize, usize)>)
    requires
        graph.wf(),
    ensures
        forall|i: int, j: int| 0 <= i < j < r@.len() ==> (#[trigger] r@[i]).0 != (#[trigger] r@[j]).0,
        forall|i: int|
            0 <= i < r@.len() ==> (#[trigger] r@[i]).1 == degree_count(
                graph.adjacency_list@,
                r@[i].0 as nat,
            ) && r@[i].1 >= 1,
        forall|d: usize|
            degree_count(graph.adjacency_list@, d as nat) > 0 <==> #[trigger] has_degree_entry(
                r@,
                d,
            ),
        count_sum(r@) == graph@.dom().len(),
{
    let s = &graph.adjacency_list;
    let n = s.len();
    let mut r: Vec<(usize, usize)> = Vec::new();
    for i in 0..n
        invariant
            n == s@.len(),
            forall|k: int, l: int|
                0 <= k < l < r@.len() ==> (#[trigger] r@[k]).0 != (#[trigger] r@[l]).0,
            forall|k: int|
                0 <= k < r@.len() ==> (#[trigger] r@[k]).1 == degree_count(
                    s@.take(i as int),
                    r@[k].0 as nat,
                ) && r@[k].1 >= 1,
            forall|d: usize|
                degree_count(s@.take(i as int), d as nat) > 0 ==> #[trigger] has_degree_entry(
                    r@,
                    d,
                ),
            count_sum(r@) == i,
    {
        let deg = s[i].1.len();
        proof {
            assert(s@.take(i as int + 1).drop_last() =~= s@.take(i as int));
            assert(s@.take(i as int + 1).last() == s@[i as int]);
            assert forall|d: nat|
                degree_count(s@.take(i as int + 1), d) == degree_count(s@.take(i as int), d) + (
                if s@[i as int].1@.len() == d {
                    1nat
                } else {
                    0nat
                }) by {}
            lemma_degree_count_le(s@.take(i as int), deg as nat);
        }
        match find_count(&r, deg) {
            Some(j) => {
                let c = r[j].1;
                let ghost r_old = r@;
                r[j].1 = c + 1;
                proof {
                    assert(r@ =~= r_old.update(j as int, (deg, (c + 1) as usize)));
                    assert(count_sum(r@) == i + 1) by {
                        lemma_count_sum_update(r_old, j as int, (c + 1) as usize);
                    }
                    assert forall|k: int| 0 <= k < r@.len() implies (#[trigger] r@[k]).1
                        == degree_count(s@.take(i as int + 1), r@[k].0 as nat) && r@[k].1 >= 1 by {
                        if k != j {
                            assert(r@[k] == r_old[k]);
                            assert(r@[k].0 as nat != deg as nat);
                        }
                    }
                    assert forall|d: usize| degree_count(s@.take(i as int + 1), d as nat) > 0
                        implies #[trigger] has_degree_entry(r@, d) by {
                        if d == deg {
                            assert(r@[j as int].0 == d);
                        } else {
                            assert(degree_count(s@.take(i as int), d as nat) > 0);
                            assert(has_degree_entry(r_old, d));
                            let k0 = choose|k0: int|
                                0 <= k0 < r_old.len() && (#[trigger] r_old[k0]).0 == d;
                            assert(r@[k0].0 == d);
                        }
                    }
                }
            },
            None => {
                let ghost r_old = r@;
                r.push((deg, 1));
                proof {
                    assert(r@.drop_last() =~= r_old);
                    assert(r@.last() == (deg, 1usize));
                    assert(degree_count(s@.take(i as int), deg as nat) == 0) by {
                        if degree_count(s@.take(i as int), deg as nat) > 0 {
                            assert(has_degree_entry(r_old, deg));
                            let k0 = choose|k0: int|
                                0 <= k0 < r_old.len() && (#[trigger] r_old[k0]).0 == deg;
                        }
                    }
                    assert forall|k: int| 0 <= k < r@.len() implies (#[trigger] r@[k]).1
                        == degree_count(s@.take(i as int + 1), r@[k].0 as nat) && r@[k].1 >= 1 by {
                        if k < r@.len() - 1 {
                            assert(r@[k] == r_old[k]);
                            assert(r@[k].0 as nat != deg as nat) by {
                                if r@[k].0 == deg {
                                    assert(r_old[k].0 == deg);
                                }
                            }
                        } else {
                            assert(r@[k] == (deg, 1usize));
                        }
                    }
                    assert forall|d: usize| degree_count(s@.take(i as int + 1), d as nat) > 0
                        implies #[trigger] has_degree_entry(r@, d) by {
                        if d == deg {
                            assert(r@[r@.len() - 1].0 == d);
                        } else {
                            assert(degree_count(s@.take(i as int), d as nat) > 0);
                            assert(has_degree_entry(r_old, d));
                            let k0 = choose|k0: int|
                                0 <= k0 < r_old.len() && (#[trigger] r_old[k0]).0 == d;
                            assert(r@[k0].0 == d);
                        }
                    }
                }
            },
        }
    }
    proof {
        assert(s@.take(n as int) =~= s@);
        lemma_adj_map_len(s@);
        assert forall|d: usize| #[trigger] has_degree_entry(r@, d) implies degree_count(
            s@,
            d as nat,
        ) > 0 by {
            let k = choose|k: int| 0 <= k < r@.len() && (#[trigger] r@[k]).0 == d;
            assert(r@[k].1 == degree_count(s@, d as nat));
        }
    }
    r
}

/// Raising one count by one raises the total by one.
proof fn lemma_count_sum_update(s: Seq<(usize, usize)>, j: int, c: usize)
    requires
        0 <= j < s.len(),
        c == s[j].1 + 1,
    ensures
        count_sum(s.update(j, (s[j].0, c))) == count_sum(s) + 1,
    decreases s.len(),
{
    let t = s.update(j, (s[j].0, c));
    if j == s.len() - 1 {
        assert(t.drop_last() =~= s.drop_last());
        assert(t.last() == (s[j].0, c));
    } else {
        assert(t.drop_last() =~= s.drop_last().update(j, (s.drop_last()[j].0, c)));
        lemma_count_sum_update(s.drop_last(), j, c);
        assert(t.last() == s.last());
    }
}

/// For every vertex that is the source of at least one edge: the number of
/// edges it sources and the sum of their trust weights. One entry per such
/// vertex; the average trust of the report is the sum over the count.
#[verifier::loop_isolation(false)]
pub fn trust_correlation_sums(edges: &[(i32, i32, i32)]) -> (r: Vec<(i32, usize, i128)>)
    ensures
        forall|i: int, j: int| 0 <= i < j < r@.len() ==> (#[trigger] r@[i]).0 != (#[trigger] r@[j]).0,
        forall|i: int|
            0 <= i < r@.len() ==> (#[trigger] r@[i]).1 == source_count(edges@, r@[i].0) && r@[i].2
                == source_weight_sum(edges@, r@[i].0) && r@[i].1 >= 1,
        forall|v: i32|
            source_count(edges@, v) > 0 <==> #[trigger] has_source_entry(r@, v),
{
    let n = edges.len();
    let mut r: Vec<(i32, usize, i128)> = Vec::new();
    for i in 0..n
        invariant
            n == edges@.len(),
            forall|k: int, l: int|
                0 <= k < l < r@.len() ==> (#[trigger] r@[k]).0 != (#[trigger] r@[l]).0,
            forall|k: int|
                0 <= k < r@.len() ==> (#[trigger] r@[k]).1 == source_count(
                    edges@.take(i as int),
                    r@[k].0,
                ) && r@[k].2 == source_weight_sum(edges@.take(i as int), r@[k].0) && r@[k].1 >= 1,
            forall|v: i32|
                source_count(edges@.take(i as int), v) > 0 ==> #[trigger] has_source_entry(r@, v),
            forall|k: int|
                0 <= k < r@.len() ==> -((#[trigger] r@[k]).1 * 0x8000_0000) <= r@[k].2 <= r@[k].1
                    * 0x8000_0000,
    {
        let (source, _target, weight) = edges[i];
        proof {
            assert(edges@.take(i as int + 1).drop_last() =~= edges@.take(i as int));
            assert(edges@.take(i as int + 1).last() == edges@[i as int]);
            assert forall|v: i32|
                source_count(edges@.take(i as int + 1), v) == source_count(
                    edges@.take(i as int),
                    v,
                ) + (if edges@[i as int].0 == v {
                    1nat
                } else {
                    0nat
                }) && source_weight_sum(edges@.take(i as int + 1), v) == source_weight_sum(
                    edges@.take(i as int),
                    v,
                ) + (if edges@[i as int].0 == v {
                    edges@[i as int].2 as int
                } else {
                    0
                }) by {}
            lemma_source_count_le(edges@.take(i as int), source);
        }
        match find_source(&r, source) {
            Some(j) => {
                let c = r[j].1;
                let t = r[j].2;
                let ghost r_old = r@;
                r[j].1 = c + 1;
                r[j].2 = t + weight as i128;
                proof {
                    assert(r@ =~= r_old.update(
                        j as int,
                        (source, (c + 1) as usize, (t + weight as i128) as i128),
                    ));
                    assert forall|k: int| 0 <= k < r@.len() implies (#[trigger] r@[k]).1
                        == source_count(edges@.take(i as int + 1), r@[k].0) && r@[k].2
                        == source_weight_sum(edges@.take(i as int + 1), r@[k].0) && r@[k].1
                        >= 1 by {
                        if k != j {
                            assert(r@[k] == r_old[k]);
                            assert(r@[k].0 != source);
                        }
                    }
                    assert forall|v: i32| source_count(edges@.take(i as int + 1), v) > 0 implies
                        #[trigger] has_source_entry(r@, v) by {
                        if v == source {
                            assert(r@[j as int].0 == v);
                        } else {
                            assert(source_count(edges@.take(i as int), v) > 0);
                            assert(has_source_entry(r_old, v));
                            let k0 = choose|k0: int|
                                0 <= k0 < r_old.len() && (#[trigger] r_old[k0]).0 == v;
                            assert(r@[k0].0 == v);
                        }
                    }
                }
            },
            None => {
                let ghost r_old = r@;
                r.push((source, 1, weight as i128));
                proof {
                    assert(r@.drop_last() =~= r_old);
                    assert(r@.last() == (source, 1usize, weight as i128));
                    assert(source_count(edges@.take(i as int), source) == 0) by {
                        if source_count(edges@.take(i as int), source) > 0 {
                            assert(has_source_entry(r_old, source));
                            let k0 = choose|k0: int|
                                0 <= k0 < r_old.len() && (#[trigger] r_old[k0]).0 == source;
                        }
                    }
                    lemma_source_sum_zero(edges@.take(i as int), source);
                    assert forall|k: int| 0 <= k < r@.len() implies (#[trigger] r@[k]).1
                        == source_count(edges@.take(i as int + 1), r@[k].0) && r@[k].2
                        == source_weight_sum(edges@.take(i as int + 1), r@[k].0) && r@[k].1
                        >= 1 by {
                        if k < r@.len() - 1 {
                            assert(r@[k] == r_old[k]);
                            assert(r@[k].0 != source) by {
                                if r@[k].0 == source {
                                    assert(r_old[k].0 == source);
                                }
                            }
                        } else {
                            assert(r@[k] == (source, 1usize, weight as i128));
                        }
                    }
                    assert forall|v: i32| source_count(edges@.take(i as int + 1), v) > 0 implies
                        #[trigger] has_source_entry(r@, v) by {
                        if v == source {
                            assert(r@[r@.len() - 1].0 == v);
                        } else {
                            assert(source_count(edges@.take(i as int), v) > 0);
                            assert(has_source_entry(r_old, v));
                            let k0 = choose|k0: int|
                                0 <= k0 < r_old.len() && (#[trigger] r_old[k0]).0 == v;
                            assert(r@[k0].0 == v);
                        }
                    }
                }
            },
        }
    }
    proof {
        assert(edges@.take(n as int) =~= edges@);
        assert forall|v: i32| #[trigger] has_source_entry(r@, v) implies source_count(edges@, v)
            > 0 by {
            let k = choose|k: int| 0 <= k < r@.len() && (#[trigger] r@[k]).0 == v;
            assert(r@[k].1 == source_count(edges@, v));
        }
    }
    r
}

} // verus!

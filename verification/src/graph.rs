//! The graph model: an undirected adjacency-list graph built from a list of
//! weighted edges. Every edge occurrence is kept verbatim, so parallel edges
//! contribute one neighbor entry each and a self-loop contributes two entries
//! to its vertex's own list.

use vstd::prelude::*;

verus! {

/// An undirected graph. Each entry of `adjacency_list` pairs a vertex id with
/// the ordered list of its neighbors; vertex ids appear at most once as keys.
pub struct Graph {
    pub adjacency_list: Vec<(i32, Vec<i32>)>,
}

/// The mathematical reading of an adjacency list: a map from vertex id to
/// its neighbor sequence. A later entry for the same key would shadow an
/// earlier one, but well-formed graphs keep their keys distinct.
pub open spec fn adj_map(s: Seq<(i32, Vec<i32>)>) -> Map<i32, Seq<i32>>
    decreases s.len(),
{
    if s.len() == 0 {
        Map::empty()
    } else {
        adj_map(s.drop_last()).insert(s.last().0, s.last().1@)
    }
}

/// Each vertex id occurs at most once as a key of the adjacency list.
pub open spec fn keys_distinct(s: Seq<(i32, Vec<i32>)>) -> bool {
    forall|i: int, j: int| 0 <= i < j < s.len() ==> s[i].0 != s[j].0
}

/// Append `to` to the neighbor list of `from`, creating the list if absent.
pub open spec fn append_neighbor(m: Map<i32, Seq<i32>>, from: i32, to: i32) -> Map<i32, Seq<i32>> {
    if m.dom().contains(from) {
        m.insert(from, m[from].push(to))
    } else {
        m.insert(from, seq![to])
    }
}

/// The graph that a sequence of `(source, target, weight)` edges builds:
/// each edge appends `target` to `source`'s list and `source` to `target`'s
/// list, in input order. A self-loop therefore appends its vertex twice.
pub open spec fn graph_of(edges: Seq<(i32, i32, i32)>) -> Map<i32, Seq<i32>>
    decreases edges.len(),
{
    if edges.len() == 0 {
        Map::empty()
    } else {
        let e = edges.last();
        append_neighbor(append_neighbor(graph_of(edges.drop_last()), e.0, e.1), e.1, e.0)
    }
}

/// `b` occurs in the neighbor list of `a`.
pub open spec fn has_edge(g: Map<i32, Seq<i32>>, a: i32, b: i32) -> bool {
    g.dom().contains(a) && g[a].contains(b)
}

/// Every neighbor relation has its reverse: the graph is undirected.
pub open spec fn symmetric(g: Map<i32, Seq<i32>>) -> bool {
    forall|a: i32, b: i32| has_edge(g, a, b) ==> has_edge(g, b, a)
}

/// Some edge of the list joins `a` and `b`, in either direction.
pub open spec fn edge_occurs(edges: Seq<(i32, i32, i32)>, a: i32, b: i32) -> bool {
    exists|i: int|
        0 <= i < edges.len() && ((edges[i].0 == a && edges[i].1 == b) || (edges[i].0 == b
            && edges[i].1 == a))
}

/// How often `v` stands as an endpoint of an edge, a self-loop counting twice.
pub open spec fn incidence_count(edges: Seq<(i32, i32, i32)>, v: i32) -> nat
    decreases edges.len(),
{
    if edges.len() == 0 {
        0
    } else {
        incidence_count(edges.drop_last(), v) + (if edges.last().0 == v {
            1nat
        } else {
            0nat
        }) + (if edges.last().1 == v {
            1nat
        } else {
            0nat
        })
    }
}

impl View for Graph {
    type V = Map<i32, Seq<i32>>;

    open spec fn view(&self) -> Map<i32, Seq<i32>> {
        adj_map(self.adjacency_list@)
    }
}

/// The domain of `adj_map` is exactly the set of keys, and it is finite.
pub proof fn lemma_adj_map_dom(s: Seq<(i32, Vec<i32>)>)
    ensures
        forall|k: i32|
            adj_map(s).dom().contains(k) <==> (exists|i: int| 0 <= i < s.len() && s[i].0 == k),
        adj_map(s).dom().finite(),
    decreases s.len(),
{
    if s.len() > 0 {
        lemma_adj_map_dom(s.drop_last());
        assert forall|k: i32| adj_map(s).dom().contains(k) implies (exists|i: int|
            0 <= i < s.len() && s[i].0 == k) by {
            if k == s.last().0 {
                assert(s[s.len() - 1].0 == k);
            } else {
                let i = choose|i: int| 0 <= i < s.drop_last().len() && s.drop_last()[i].0 == k;
                assert(s[i].0 == k);
            }
        }
        assert forall|k: i32| (exists|i: int| 0 <= i < s.len() && s[i].0 == k) implies adj_map(
            s,
        ).dom().contains(k) by {
            let i = choose|i: int| 0 <= i < s.len() && s[i].0 == k;
            if i < s.len() - 1 {
                assert(s.drop_last()[i].0 == k);
            }
        }
    }
}

/// With distinct keys, `adj_map` looks each entry up at its own key.
pub proof fn lemma_adj_map_get(s: Seq<(i32, Vec<i32>)>)
    requires
        keys_distinct(s),
    ensures
        forall|i: int| 0 <= i < s.len() ==> adj_map(s).dom().contains(#[trigger] s[i].0),
        forall|i: int| 0 <= i < s.len() ==> adj_map(s)[#[trigger] s[i].0] == s[i].1@,
    decreases s.len(),
{
    if s.len() > 0 {
        assert(keys_distinct(s.drop_last()));
        lemma_adj_map_get(s.drop_last());
        lemma_adj_map_dom(s.drop_last());
        assert forall|i: int| 0 <= i < s.len() implies adj_map(s).dom().contains(#[trigger] s[i].0)
            && adj_map(s)[s[i].0] == s[i].1@ by {
            if i < s.len() - 1 {
                assert(s.drop_last()[i] == s[i]);
                assert(s[i].0 != s.last().0);
            }
        }
    }
}

/// With distinct keys, the map has exactly one element per entry.
pub proof fn lemma_adj_map_len(s: Seq<(i32, Vec<i32>)>)
    requires
        keys_distinct(s),
    ensures
        adj_map(s).dom().len() == s.len(),
    decreases s.len(),
{
    lemma_adj_map_dom(s);
    if s.len() > 0 {
        assert(keys_distinct(s.drop_last()));
        lemma_adj_map_len(s.drop_last());
        lemma_adj_map_dom(s.drop_last());
        assert(!adj_map(s.drop_last()).dom().contains(s.last().0)) by {
            if adj_map(s.drop_last()).dom().contains(s.last().0) {
                let i = choose|i: int|
                    0 <= i < s.drop_last().len() && s.drop_last()[i].0 == s.last().0;
                assert(s[i].0 == s[s.len() - 1].0);
            }
        }
    }
}

/// Appending an entry inserts its key.
proof fn lemma_adj_map_push(s: Seq<(i32, Vec<i32>)>, k: i32, v: Vec<i32>)
    ensures
        adj_map(s.push((k, v))) == adj_map(s).insert(k, v@),
{
    assert(s.push((k, v)).drop_last() =~= s);
    assert(s.push((k, v)).last() == (k, v));
}

/// Updating the neighbor list of one entry re-inserts at that entry's key.
proof fn lemma_adj_map_update(s: Seq<(i32, Vec<i32>)>, j: int, v: Vec<i32>)
    requires
        keys_distinct(s),
        0 <= j < s.len(),
    ensures
        adj_map(s.update(j, (s[j].0, v))) == adj_map(s).insert(s[j].0, v@),
    decreases s.len(),
{
    let t = s.update(j, (s[j].0, v));
    if j == s.len() - 1 {
        assert(t.drop_last() =~= s.drop_last());
        assert(t.last() == (s[j].0, v));
    } else {
        assert(t.drop_last() =~= s.drop_last().update(j, (s.drop_last()[j].0, v)));
        assert(keys_distinct(s.drop_last()));
        lemma_adj_map_update(s.drop_last(), j, v);
        assert(t.last() == s.last());
        assert(s[j].0 != s.last().0);
        assert(adj_map(s.drop_last()).insert(s[j].0, v@).insert(s.last().0, s.last().1@)
            =~= adj_map(s.drop_last()).insert(s.last().0, s.last().1@).insert(s[j].0, v@));
    }
}

/// What `append_neighbor` does to every edge relation and neighbor list.
proof fn lemma_append_neighbor_effect(m: Map<i32, Seq<i32>>, from: i32, to: i32)
    ensures
        forall|a: i32, b: i32|
            #[trigger] has_edge(append_neighbor(m, from, to), a, b) <==> (has_edge(m, a, b) || (a
                == from && b == to)),
        forall|v: i32|
            append_neighbor(m, from, to).dom().contains(v) <==> (m.dom().contains(v) || v == from),
        append_neighbor(m, from, to)[from].len() == (if m.dom().contains(from) {
            m[from].len() + 1
        } else {
            1nat
        }),
        forall|v: i32|
            v != from && m.dom().contains(v) ==> append_neighbor(m, from, to)[v] == m[v],
{
    let m2 = append_neighbor(m, from, to);
    assert forall|a: i32, b: i32| has_edge(m2, a, b) <==> (has_edge(m, a, b) || (a == from && b
        == to)) by {
        if a == from {
            if m.dom().contains(from) {
                assert(m2[from] == m[from].push(to));
                if has_edge(m2, a, b) {
                    let i = choose|i: int| 0 <= i < m2[from].len() && m2[from][i] == b;
                    if i < m[from].len() {
                        assert(m[from][i] == b);
                    } else {
                        assert(b == to);
                    }
                }
                if has_edge(m, a, b) {
                    let i = choose|i: int| 0 <= i < m[from].len() && m[from][i] == b;
                    assert(m2[from][i] == b);
                }
                if b == to {
                    assert(m2[from][m[from].len() as int] == to);
                }
            } else {
                assert(m2[from] =~= seq![to]);
                if has_edge(m2, a, b) {
                    let i = choose|i: int| 0 <= i < m2[from].len() && m2[from][i] == b;
                    assert(b == to);
                }
                assert(m2[from][0] == to);
            }
        }
    }
}

/// The edges of the built graph are exactly the input edges, both ways:
/// the construction is symmetric.
pub proof fn lemma_graph_of_edges(edges: Seq<(i32, i32, i32)>)
    ensures
        forall|a: i32, b: i32| has_edge(graph_of(edges), a, b) <==> edge_occurs(edges, a, b),
        symmetric(graph_of(edges)),
    decreases edges.len(),
{
    if edges.len() == 0 {
    } else {
        let d = edges.drop_last();
        let e = edges.last();
        let g0 = graph_of(d);
        let g1 = append_neighbor(g0, e.0, e.1);
        let g2 = append_neighbor(g1, e.1, e.0);
        lemma_graph_of_edges(d);
        lemma_append_neighbor_effect(g0, e.0, e.1);
        lemma_append_neighbor_effect(g1, e.1, e.0);
        assert forall|a: i32, b: i32| has_edge(g2, a, b) implies edge_occurs(edges, a, b) by {
            if has_edge(g0, a, b) {
                assert(edge_occurs(d, a, b));
                let i = choose|i: int|
                    0 <= i < d.len() && ((d[i].0 == a && d[i].1 == b) || (d[i].0 == b && d[i].1
                        == a));
                assert(d[i] == edges[i]);
            } else {
                assert((edges[edges.len() - 1].0 == a && edges[edges.len() - 1].1 == b) || (
                edges[edges.len() - 1].0 == b && edges[edges.len() - 1].1 == a));
            }
        }
        assert forall|a: i32, b: i32| edge_occurs(edges, a, b) implies has_edge(g2, a, b) by {
            let i = choose|i: int|
                0 <= i < edges.len() && ((edges[i].0 == a && edges[i].1 == b) || (edges[i].0 == b
                    && edges[i].1 == a));
            if i < edges.len() - 1 {
                assert(d[i] == edges[i]);
                assert(edge_occurs(d, a, b));
                assert(has_edge(g0, a, b));
                assert(has_edge(g1, a, b));
            } else {
                assert(edges[i] == e);
                if a == e.0 && b == e.1 {
                    assert(has_edge(g1, a, b));
                } else {
                    assert(a == e.1 && b == e.0);
                }
            }
        }
    }
}

/// A vertex is in the built graph exactly when some edge touches it.
pub proof fn lemma_graph_of_dom(edges: Seq<(i32, i32, i32)>)
    ensures
        forall|v: i32|
            graph_of(edges).dom().contains(v) <==> (exists|i: int|
                0 <= i < edges.len() && (edges[i].0 == v || edges[i].1 == v)),
    decreases edges.len(),
{
    if edges.len() > 0 {
        let d = edges.drop_last();
        let e = edges.last();
        let g0 = graph_of(d);
        let g1 = append_neighbor(g0, e.0, e.1);
        lemma_graph_of_dom(d);
        lemma_append_neighbor_effect(g0, e.0, e.1);
        lemma_append_neighbor_effect(g1, e.1, e.0);
        assert forall|v: i32| graph_of(edges).dom().contains(v) implies (exists|i: int|
            0 <= i < edges.len() && (edges[i].0 == v || edges[i].1 == v)) by {
            if g0.dom().contains(v) {
                let i = choose|i: int| 0 <= i < d.len() && (d[i].0 == v || d[i].1 == v);
                assert(edges[i] == d[i]);
            } else {
                assert(edges[edges.len() - 1] == e);
            }
        }
        assert forall|v: i32| (exists|i: int|
            0 <= i < edges.len() && (edges[i].0 == v || edges[i].1 == v)) implies graph_of(
            edges,
        ).dom().contains(v) by {
            let i = choose|i: int| 0 <= i < edges.len() && (edges[i].0 == v || edges[i].1 == v);
            if i < edges.len() - 1 {
                assert(d[i] == edges[i]);
            }
        }
    }
}

/// The degree of every vertex of the built graph is its raw incidence count:
/// parallel edges count separately and a self-loop counts twice.
pub proof fn lemma_degree_counts_incidence(edges: Seq<(i32, i32, i32)>, v: i32)
    ensures
        graph_of(edges).dom().contains(v) ==> graph_of(edges)[v].len() == incidence_count(
            edges,
            v,
        ),
        !graph_of(edges).dom().contains(v) ==> incidence_count(edges, v) == 0,
    decreases edges.len(),
{
    if edges.len() > 0 {
        let d = edges.drop_last();
        let e = edges.last();
        let g0 = graph_of(d);
        let g1 = append_neighbor(g0, e.0, e.1);
        lemma_degree_counts_incidence(d, v);
        lemma_append_neighbor_effect(g0, e.0, e.1);
        lemma_append_neighbor_effect(g1, e.1, e.0);
    }
}

/// Scan the adjacency list for a key, left to right.
fn find_key(list: &Vec<(i32, Vec<i32>)>, key: i32) -> (r: Option<usize>)
    ensures
        match r {
            Some(j) => j < list@.len() && list@[j as int].0 == key,
            None => forall|i: int| 0 <= i < list@.len() ==> list@[i].0 != key,
        },
{
    let n = list.len();
    for j in 0..n
        invariant
            n == list@.len(),
            forall|i: int| 0 <= i < j ==> list@[i].0 != key,
    {
        if list[j].0 == key {
            return Some(j);
        }
    }
    None
}

/// Append `to` to `from`'s neighbor list, creating the entry if absent.
fn push_dir(list: &mut Vec<(i32, Vec<i32>)>, from: i32, to: i32)
    requires
        keys_distinct(old(list)@),
    ensures
        keys_distinct(final(list)@),
        adj_map(final(list)@) == append_neighbor(adj_map(old(list)@), from, to),
{
    proof {
        lemma_adj_map_dom(list@);
        lemma_adj_map_get(list@);
    }
    match find_key(list, from) {
        Some(j) => {
            let ghost s = list@;
            list[j].1.push(to);
            proof {
                assert(list@ =~= s.update(j as int, (s[j as int].0, list@[j as int].1)));
                lemma_adj_map_update(s, j as int, list@[j as int].1);
            }
        },
        None => {
            let mut nb: Vec<i32> = Vec::new();
            nb.push(to);
            let ghost s = list@;
            list.push((from, nb));
            proof {
                lemma_adj_map_push(s, from, nb);
                assert(nb@ =~= seq![to]);
            }
        },
    }
}

impl Graph {
    /// Well-formedness: keys are distinct and the graph is symmetric.
    pub open spec fn wf(self) -> bool {
        &&& keys_distinct(self.adjacency_list@)
        &&& symmetric(self@)
    }

    /// Build the undirected graph of an edge list: for each edge
    /// `(source, target, weight)` in input order, append `target` to
    /// `source`'s neighbor list and `source` to `target`'s. The weight is
    /// kept out of the adjacency structure.
    pub fn new(edges: &[(i32, i32, i32)]) -> (g: Graph)
        ensures
            g.wf(),
            g@ == graph_of(edges@),
    {
        let mut adjacency_list: Vec<(i32, Vec<i32>)> = Vec::new();
        let n = edges.len();
        for idx in 0..n
            invariant
                n == edges@.len(),
                keys_distinct(adjacency_list@),
                adj_map(adjacency_list@) == graph_of(edges@.take(idx as int)),
        {
            let (source, target, _weight) = edges[idx];
            push_dir(&mut adjacency_list, source, target);
            push_dir(&mut adjacency_list, target, source);
            proof {
                let t = edges@.take(idx as int + 1);
                assert(t.drop_last() =~= edges@.take(idx as int));
                assert(t.last() == edges@[idx as int]);
            }
        }
        proof {
            assert(edges@.take(n as int) =~= edges@);
            lemma_graph_of_edges(edges@);
        }
        Graph { adjacency_list }
    }

    /// The neighbor list of `v`, or nothing when `v` is not a vertex.
    pub fn neighbors_of(&self, v: i32) -> (r: Option<&Vec<i32>>)
        requires
            self.wf(),
        ensures
            match r {
                Some(nb) => self@.dom().contains(v) && nb@ == self@[v],
                None => !self@.dom().contains(v),
            },
    {
        proof {
            lemma_adj_map_dom(self.adjacency_list@);
            lemma_adj_map_get(self.adjacency_list@);
        }
        match find_key(&self.adjacency_list, v) {
            Some(j) => Some(&self.adjacency_list[j].1),
            None => None,
        }
    }

    /// The vertices of the graph, one each, in adjacency-list order.
    pub fn vertex_list(&self) -> (r: Vec<i32>)
        requires
            self.wf(),
        ensures
            r@.len() == self@.dom().len(),
            forall|i: int| 0 <= i < r@.len() ==> self@.dom().contains(#[trigger] r@[i]),
            forall|i: int, j: int| 0 <= i < j < r@.len() ==> r@[i] != r@[j],
    {
        proof {
            lemma_adj_map_dom(self.adjacency_list@);
            lemma_adj_map_len(self.adjacency_list@);
        }
        let n = self.adjacency_list.len();
        let mut r: Vec<i32> = Vec::new();
        for i in 0..n
            invariant
                n == self.adjacency_list@.len(),
                r@.len() == i,
                forall|k: int| 0 <= k < i ==> r@[k] == self.adjacency_list@[k].0,
        {
            r.push(self.adjacency_list[i].0);
        }
        proof {
            lemma_adj_map_dom(self.adjacency_list@);
            assert forall|i: int, j: int| 0 <= i < j < r@.len() implies r@[i] != r@[j] by {
                assert(self.adjacency_list@[i].0 != self.adjacency_list@[j].0);
            }
        }
        r
    }
}

} // verus!

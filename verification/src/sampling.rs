//! The distance sampler: random vertex pairs, the breadth-first distances
//! of the connected ones, and the integer totals behind the approximate
//! average shortest-path length.

use vstd::prelude::*;
use rand::Rng;
use rand::rngs::ThreadRng;
use crate::graph::Graph;
use crate::bfs::bfs;
use crate::bfs::connected;
use crate::bfs::is_min_dist;
use crate::bfs::lemma_min_dist_positive;
use crate::bfs::lemma_min_dist_unique;

verus! {

#[verifier::external_type_specification]
#[verifier::external_body]
pub struct ExThreadRng(ThreadRng);

/// Relies on rand::thread_rng: a fresh handle to the lazily seeded
/// thread-local generator.
#[verifier::external_body]
fn new_rng() -> ThreadRng {
    rand::thread_rng()
}

/// Relies on rand::Rng::gen_range: a sample drawn from the given range,
/// which panics only when the range is empty. Nothing more is assumed of
/// the draw than its bound.
#[verifier::external_body]
fn gen_index(rng: &mut ThreadRng, n: usize) -> (i: usize)
    requires
        n > 0,
    ensures
        i < n,
{
    rng.gen_range(0..n)
}

/// Fold one sampled pair into the running totals: a vertex paired with
/// itself contributes nothing, an unconnected pair contributes nothing,
/// and a connected pair of distinct vertices adds its shortest distance
/// to the total and counts one valid pair.
pub fn accumulate_pair(graph: &Graph, start: i32, end: i32, total: u128, valid: usize) -> (r: (
    u128,
    usize,
))
    requires
        graph.wf(),
        total <= u128::MAX - usize::MAX as u128,
        valid < usize::MAX,
    ensures
        start == end ==> r == ((total, valid)),
        start != end ==> (connected(graph@, start, end) <==> r.1 == valid + 1),
        start != end && !connected(graph@, start, end) ==> r == ((total, valid)),
        forall|n: nat| start != end && is_min_dist(graph@, start, end, n) ==> r.0 == total + n,
        r.0 <= total + usize::MAX as u128,
        r == ((total, valid)) || (r.1 == valid + 1 && total < r.0),
{
    if start == end {
        return (total, valid);
    }
    match bfs(graph, start, end) {
        Some(d) => {
            proof {
                lemma_min_dist_positive(graph@, start, end, d as nat);
                assert forall|n: nat| is_min_dist(graph@, start, end, n) implies n == d as nat by {
                    lemma_min_dist_unique(graph@, start, end, n, d as nat);
                }
            }
            (total + d as u128, valid + 1)
        },
        None => (total, valid),
    }
}

/// Draw `samples` random vertex pairs, uniformly with replacement, and
/// total the shortest distances of the connected, distinct pairs. The
/// average-distance estimate is the first component over the second; a
/// graph with fewer than two vertices, or a zero sample count, yields no
/// valid pairs at all.
pub fn sample_distance_totals(graph: &Graph, samples: usize) -> (r: (u128, usize))
    requires
        graph.wf(),
    ensures
        r.1 <= samples,
        graph@.dom().len() < 2 ==> r == ((0u128, 0usize)),
        samples == 0 ==> r == ((0u128, 0usize)),
        r.1 == 0 ==> r.0 == 0,
        r.1 as int <= r.0 as int,
{
    let vertices = graph.vertex_list();
    let n = vertices.len();
    if n < 2 {
        return (0, 0);
    }
    let mut rng = new_rng();
    let mut total: u128 = 0;
    let mut valid: usize = 0;
    for i in 0..samples
        invariant
            n == vertices@.len(),
            n >= 2,
            graph.wf(),
            valid <= i,
            valid as int <= total as int,
            valid == 0 ==> total == 0,
            total as int <= i * (usize::MAX as int),
    {
        let si = gen_index(&mut rng, n);
        let ei = gen_index(&mut rng, n);
        let s = vertices[si];
        let e = vertices[ei];
        proof {
            let m = usize::MAX as int;
            assert(i < samples);
            assert(samples <= m);
            assert(i as int * m <= (m - 1) * m) by (nonlinear_arith)
                requires
                    0 <= i as int <= m - 1,
                    m >= 0,
            ;
            assert(m <= 0xffff_ffff_ffff_ffff);
            assert((m - 1) * m + m <= u128::MAX as int) by (nonlinear_arith)
                requires
                    0 <= m <= 0xffff_ffff_ffff_ffff,
            ;
            assert(total as int <= u128::MAX as int - m);
        }
        let folded = accumulate_pair(graph, s, e, total, valid);
        proof {
            let m = usize::MAX as int;
            assert(folded.0 as int <= total as int + m);
            assert(i as int * m + m == (i as int + 1) * m) by (nonlinear_arith);
        }
        total = folded.0;
        valid = folded.1;
    }
    (total, valid)
}

} // verus!

//! The Houdayer isoenergetic cluster move: a breadth-first search over
//! the sub-graph of sites where two replicas disagree, followed by a
//! synchronized spin exchange over the discovered cluster.
use vstd::prelude::*;

use rand_xoshiro::Xoshiro256PlusPlus;

use crate::graph::{graph_matches, CsrGraph};
use crate::instance::BqmIsingInstance;
use crate::rng::rng_below;
use crate::spins::{lemma_u64_set_bit, lemma_u64_zero_bit, packed_bit_u64, IsingState};
use crate::sums::{dense_fsum, row_lookup, sv};

verus! {

/// A fixed-capacity bit set keyed by spin index, used as the visited
/// set of the cluster search and as the returned cluster.
pub struct ClusterSet {
    /// The bits, 64 per word, least significant bit lowest index.
    pub words: Vec<u64>,
}

impl ClusterSet {
    /// Membership of index `i`.
    pub open spec fn has(self, i: int) -> bool {
        packed_bit_u64(self.words@, i)
    }

    /// Capacity in bits.
    pub open spec fn cap(self) -> int {
        self.words@.len() * 64int
    }

    /// An empty set able to hold indices below `n`.
    pub fn new(n: usize) -> (r: ClusterSet)
        requires
            n < 0x1000_0000,
        ensures
            r.cap() >= n,
            forall|i: int| 0 <= i < r.cap() ==> !packed_bit_u64(r.words@, i),
    {
        let num_words = n / 64 + (if n % 64 == 0 {
            0
        } else {
            1
        });
        let mut words: Vec<u64> = Vec::new();
        for b in 0..num_words
            invariant
                words@.len() == b,
                forall|j: int| 0 <= j < b ==> words@[j] == 0u64,
        {
            words.push(0u64);
        }
        let r = ClusterSet { words };
        proof {
            assert forall|i: int| 0 <= i < r.cap() implies !packed_bit_u64(r.words@, i) by {
                lemma_u64_zero_bit((i % 64) as u64);
            }
        }
        r
    }

    /// Test a bit.
    pub fn get_bit(&self, i: usize) -> (r: bool)
        requires
            i < self.cap(),
        ensures
            r == self.has(i as int),
    {
        let w = self.words[i / 64];
        (w >> ((i % 64) as u64)) & 1u64 == 1u64
    }

    /// Set a bit; all other bits keep their value.
    pub fn set_bit(&mut self, i: usize)
        requires
            i < old(self).cap(),
        ensures
            final(self).words@.len() == old(self).words@.len(),
            forall|j: int|
                0 <= j < old(self).cap() ==> packed_bit_u64(final(self).words@, j) == (
                packed_bit_u64(old(self).words@, j) || j == i as int),
    {
        let bi = i / 64;
        let k = (i % 64) as u64;
        let w = self.words[bi];
        let ghost prev = self.words@;
        self.words.set(bi, w | (1u64 << k));
        proof {
            assert forall|j: int| 0 <= j < prev.len() * 64 implies packed_bit_u64(
                self.words@,
                j,
            ) == (packed_bit_u64(prev, j) || j == i as int) by {
                if j / 64 == bi as int {
                    lemma_u64_set_bit(w, k, (j % 64) as u64);
                } else {
                    assert(self.words@[j / 64] == prev[j / 64]);
                }
            }
        }
    }
}

/// Number of unset bits below `k`: the potential of the cluster
/// search.
pub open spec fn unset_below(words: Seq<u64>, k: int) -> int
    decreases k,
{
    if k <= 0 {
        0
    } else {
        unset_below(words, k - 1) + if packed_bit_u64(words, k - 1) {
            0int
        } else {
            1int
        }
    }
}

proof fn lemma_unset_below_nonneg(words: Seq<u64>, k: int)
    ensures
        unset_below(words, k) >= 0,
    decreases k,
{
    if k > 0 {
        lemma_unset_below_nonneg(words, k - 1);
    }
}

/// Setting one previously unset bit lowers the potential by one.
proof fn lemma_unset_below_set(wa: Seq<u64>, wb: Seq<u64>, i: int, k: int)
    requires
        forall|j: int| 0 <= j < k ==> packed_bit_u64(wb, j) == (packed_bit_u64(wa, j) || j == i),
        !packed_bit_u64(wa, i),
        0 <= i,
    ensures
        unset_below(wb, k) == unset_below(wa, k) - if i < k {
            1int
        } else {
            0int
        },
    decreases k,
{
    if k > 0 {
        lemma_unset_below_set(wa, wb, i, k - 1);
    }
}

/// A path through the disagreement sub-graph: every site on it has
/// opposite spins in the two replicas, and consecutive sites are
/// neighbours.
pub open spec fn dis_path_ok(g: CsrGraph, r1: Seq<i8>, r2: Seq<i8>, p: Seq<int>) -> bool {
    &&& p.len() >= 1
    &&& forall|u: int| 0 <= u < p.len() ==> 0 <= #[trigger] p[u] < g.n() && r1[p[u]] != r2[p[u]]
    &&& forall|u: int| 0 <= u < p.len() - 1 ==> g.adj(#[trigger] p[u]).contains(p[u + 1] as u32)
}

/// Connectivity within the disagreement sub-graph.
pub open spec fn dis_reaches(g: CsrGraph, r1: Seq<i8>, r2: Seq<i8>, s: int, i: int) -> bool {
    exists|p: Seq<int>|
        dis_path_ok(g, r1, r2, p) && p.first() == s && p.last() == i
}

/// The cluster is closed under disagreement-preserving adjacency,
/// except at sites still on the work list.
pub open spec fn closed_except(
    g: CsrGraph,
    r1: Seq<i8>,
    r2: Seq<i8>,
    words: Seq<u64>,
    q: Seq<u32>,
) -> bool {
    forall|i: int, t: int|
        0 <= i < g.n() && packed_bit_u64(words, i) && !q.contains(i as u32) && 0 <= t < g.adj(
            i,
        ).len() && r1[#[trigger] g.adj(i)[t] as int] != r2[g.adj(i)[t] as int]
            ==> packed_bit_u64(words, g.adj(i)[t] as int)
}

/// A path to `v` extends by one hop to a disagreeing neighbour.
proof fn lemma_reach_extend(g: CsrGraph, r1: Seq<i8>, r2: Seq<i8>, s: int, v: int, w: int)
    requires
        dis_reaches(g, r1, r2, s, v),
        0 <= v < g.n(),
        0 <= w < g.n(),
        g.adj(v).contains(w as u32),
        r1[w] != r2[w],
    ensures
        dis_reaches(g, r1, r2, s, w),
{
    let p = choose|p: Seq<int>|
        dis_path_ok(g, r1, r2, p) && p.first() == s && p.last() == v;
    let p2 = p.push(w);
    assert(dis_path_ok(g, r1, r2, p2)) by {
        assert(forall|u: int| 0 <= u < p.len() ==> p2[u] == p[u]);
        assert(p2.last() == w);
        assert(p2[p2.len() - 2] == p.last());
    }
    assert(p2.first() == s && p2.last() == w);
}

/// Adding a fresh site to both the cluster and the work list keeps
/// the closure property.
proof fn lemma_closed_grow(
    g: CsrGraph,
    r1: Seq<i8>,
    r2: Seq<i8>,
    wprev: Seq<u64>,
    wnew: Seq<u64>,
    qold: Seq<u32>,
    qnew: Seq<u32>,
    tgt: int,
)
    requires
        closed_except(g, r1, r2, wprev, qold),
        forall|j: int|
            0 <= j < wprev.len() * 64int ==> packed_bit_u64(wnew, j) == (packed_bit_u64(
                wprev,
                j,
            ) || j == tgt),
        g.n() <= wprev.len() * 64int,
        forall|v: int, t: int|
            0 <= v < g.n() && 0 <= t < g.adj(v).len() ==> 0 <= (#[trigger] g.adj(v)[t]) < g.n(),
        qnew == qold.push(tgt as u32),
        0 <= tgt < g.n(),
        tgt < 0x1_0000_0000,
    ensures
        closed_except(g, r1, r2, wnew, qnew),
{
    assert forall|i: int, t: int|
        0 <= i < g.n() && packed_bit_u64(wnew, i) && !qnew.contains(i as u32) && 0 <= t < g.adj(
            i,
        ).len() && r1[#[trigger] g.adj(i)[t] as int] != r2[g.adj(i)[t] as int] implies
        packed_bit_u64(wnew, g.adj(i)[t] as int) by {
        if i == tgt {
            assert(qnew[qnew.len() - 1] == tgt as u32);
            assert(qnew.contains(i as u32));
        } else {
            assert(packed_bit_u64(wprev, i));
            assert(!qold.contains(i as u32)) by {
                if qold.contains(i as u32) {
                    let w = choose|w: int| 0 <= w < qold.len() && qold[w] == i as u32;
                    assert(qnew[w] == i as u32);
                }
            }
            assert(packed_bit_u64(wprev, g.adj(i)[t] as int));
            assert(0 <= g.adj(i)[t] < g.n());
        }
    }
}

/// Once every disagreeing neighbour of `v` is in the cluster, `v` may
/// leave the work list.
proof fn lemma_closed_retire(
    g: CsrGraph,
    r1: Seq<i8>,
    r2: Seq<i8>,
    w: Seq<u64>,
    q: Seq<u32>,
    v: u32,
)
    requires
        closed_except(g, r1, r2, w, q.push(v)),
        0 <= (v as int) < g.n(),
        g.n() <= 0x1_0000_0000,
        forall|u: int|
            0 <= u < g.adj(v as int).len() && r1[(#[trigger] g.adj(v as int)[u]) as int] != r2[g.adj(
                v as int,
            )[u] as int] ==> packed_bit_u64(w, g.adj(v as int)[u] as int),
    ensures
        closed_except(g, r1, r2, w, q),
{
    assert forall|i: int, t: int|
        0 <= i < g.n() && packed_bit_u64(w, i) && !q.contains(i as u32) && 0 <= t < g.adj(
            i,
        ).len() && r1[#[trigger] g.adj(i)[t] as int] != r2[g.adj(i)[t] as int] implies
        packed_bit_u64(w, g.adj(i)[t] as int) by {
        if i == v as int {
            assert(r1[g.adj(v as int)[t] as int] != r2[g.adj(v as int)[t] as int]);
        } else {
            assert(!q.push(v).contains(i as u32)) by {
                if q.push(v).contains(i as u32) {
                    let u = choose|u: int|
                        0 <= u < q.push(v).len() && q.push(v)[u] == i as u32;
                    if u < q.len() {
                        assert(q[u] == i as u32);
                    } else {
                        assert(q.push(v)[u] == v);
                    }
                }
            }
        }
    }
}

/// Pushing two elements in either order yields the same membership.
proof fn lemma_push_two_contains<A>(q: Seq<A>, a: A, b: A, x: A)
    ensures
        q.push(a).push(b).contains(x) <==> q.push(b).push(a).contains(x),
{
    if q.push(a).push(b).contains(x) {
        let u = choose|u: int| 0 <= u < q.push(a).push(b).len() && q.push(a).push(b)[u] == x;
        if u < q.len() {
            assert(q.push(b).push(a)[u] == x);
        } else if u == q.len() {
            assert(q.push(b).push(a)[q.len() as int + 1] == x);
        } else {
            assert(q.push(b).push(a)[q.len() as int] == x);
        }
    }
    if q.push(b).push(a).contains(x) {
        let u = choose|u: int| 0 <= u < q.push(b).push(a).len() && q.push(b).push(a)[u] == x;
        if u < q.len() {
            assert(q.push(a).push(b)[u] == x);
        } else if u == q.len() {
            assert(q.push(a).push(b)[q.len() as int + 1] == x);
        } else {
            assert(q.push(a).push(b)[q.len() as int] == x);
        }
    }
}

/// The rolling invariant of the cluster search.
pub open spec fn search_inv(
    g: CsrGraph,
    s1: Seq<i8>,
    s2: Seq<i8>,
    visited: ClusterSet,
    queue: Seq<u32>,
    seed: int,
) -> bool {
    &&& visited.cap() >= g.n()
    &&& 0 <= seed < g.n()
    &&& visited.has(seed)
    &&& forall|t: int| 0 <= t < queue.len() ==> (#[trigger] queue[t]) < g.n()
    &&& forall|t: int| 0 <= t < queue.len() ==> visited.has((#[trigger] queue[t]) as int)
    &&& forall|i: int| 0 <= i < visited.cap() && #[trigger] visited.has(i) ==> i < g.n()
    &&& forall|i: int| 0 <= i < g.n() && #[trigger] visited.has(i) ==> s1[i] != s2[i]
    &&& forall|i: int|
        0 <= i < g.n() && #[trigger] visited.has(i) ==> dis_reaches(g, s1, s2, seed, i)
}

/// Visit every neighbour of `v`: fresh disagreeing neighbours join the
/// cluster and the work list; then `v` itself is retired from the
/// closure exception.
#[verifier::rlimit(100)]
fn process_node(
    graph: &CsrGraph,
    replica1: &IsingState,
    replica2: &IsingState,
    visited: &mut ClusterSet,
    queue: &mut Vec<u32>,
    v: u32,
    Ghost(seed): Ghost<int>,
)
    requires
        replica1.wf(),
        replica2.wf(),
        replica1.arr@.len() == graph.n(),
        replica2.arr@.len() == graph.n(),
        graph.wf(graph.n()),
        1 <= graph.n() < 0x1000_0000,
        (v as int) < graph.n(),
        old(visited).has(v as int),
        search_inv(*graph, replica1.arr@, replica2.arr@, *old(visited), old(queue)@, seed),
        closed_except(
            *graph,
            replica1.arr@,
            replica2.arr@,
            old(visited).words@,
            old(queue)@.push(v),
        ),
    ensures
        final(visited).cap() == old(visited).cap(),
        search_inv(*graph, replica1.arr@, replica2.arr@, *final(visited), final(queue)@, seed),
        closed_except(*graph, replica1.arr@, replica2.arr@, final(visited).words@, final(queue)@),
        (final(visited).words@ == old(visited).words@ && final(queue)@ == old(queue)@)
            || unset_below(final(visited).words@, final(visited).cap()) < unset_below(
            old(visited).words@,
            old(visited).cap(),
        ),
{
    let n = graph.node_count();
    let ghost s1 = replica1.arr@;
    let ghost s2 = replica2.arr@;
    proof {
        assert forall|v2: int, t: int|
            0 <= v2 < graph.n() && 0 <= t < graph.adj(v2).len() implies 0 <= (
        #[trigger] graph.adj(v2)[t]) < graph.n() by {
            crate::graph::lemma_offsets_mono(*graph, n as int, v2 + 1, n as int);
            assert(graph.adj(v2)[t] == graph.targets@[graph.offsets@[v2] + t]);
        }
    }
    let vstart = graph.offsets[v as usize];
    let vend = graph.offsets[v as usize + 1];
    proof {
        crate::graph::lemma_offsets_mono(*graph, n as int, v as int + 1, n as int);
    }
    let mut t = vstart;
    while t < vend
        invariant
            n == graph.n(),
            graph.wf(n as int),
            s1 == replica1.arr@,
            s2 == replica2.arr@,
            replica1.arr@.len() == n,
            replica2.arr@.len() == n,
            1 <= n < 0x1000_0000,
            0 <= (v as int) < n,
            visited.has(v as int),
            visited.cap() == old(visited).cap(),
            visited.words@.len() == old(visited).words@.len(),
            vstart == graph.offsets@[v as int],
            vend == graph.offsets@[v as int + 1],
            vend <= graph.targets@.len(),
            vstart <= t <= vend,
            search_inv(*graph, s1, s2, *visited, queue@, seed),
            closed_except(*graph, s1, s2, visited.words@, queue@.push(v)),
            forall|u: int|
                vstart <= u < t && s1[(#[trigger] graph.targets@[u]) as int]
                    != s2[graph.targets@[u] as int] ==> visited.has(graph.targets@[u] as int),
            (visited.words@ == old(visited).words@ && queue@ == old(queue)@) || unset_below(
                visited.words@,
                visited.cap(),
            ) < unset_below(old(visited).words@, old(visited).cap()),
            unset_below(visited.words@, visited.cap()) <= unset_below(
                old(visited).words@,
                old(visited).cap(),
            ),
            forall|v2: int, u: int|
                0 <= v2 < n && 0 <= u < graph.adj(v2).len() ==> 0 <= (#[trigger] graph.adj(
                    v2,
                )[u]) < n,
        decreases vend - t,
    {
        let tgt = graph.targets[t];
        proof {
            assert(graph.targets@[t as int] < n);
        }
        let dis = replica1.arr[tgt as usize] != replica2.arr[tgt as usize];
        if dis && !visited.get_bit(tgt as usize) {
            let ghost vprev = *visited;
            let ghost wprev = visited.words@;
            let ghost qprev = queue@;
            visited.set_bit(tgt as usize);
            queue.push(tgt);
            proof {
                lemma_unset_below_set(wprev, visited.words@, tgt as int, visited.cap());
                lemma_unset_below_nonneg(wprev, visited.cap());
                assert(graph.adj(v as int).contains(tgt as u32)) by {
                    assert(graph.adj(v as int)[t - vstart] == graph.targets@[t as int]);
                }
                assert(vprev.has(v as int));
                lemma_reach_extend(*graph, s1, s2, seed, v as int, tgt as int);
                assert forall|i: int|
                    0 <= i < n && #[trigger] visited.has(i) implies dis_reaches(
                    *graph,
                    s1,
                    s2,
                    seed,
                    i,
                ) by {
                    if i != tgt as int {
                        assert(packed_bit_u64(wprev, i));
                        assert(vprev.has(i));
                    }
                }
                assert forall|i: int|
                    0 <= i < n && #[trigger] visited.has(i) implies s1[i] != s2[i] by {
                    if i != tgt as int {
                        assert(vprev.has(i));
                    }
                }
                lemma_closed_grow(
                    *graph,
                    s1,
                    s2,
                    wprev,
                    visited.words@,
                    qprev.push(v),
                    qprev.push(v).push(tgt),
                    tgt as int,
                );
                assert forall|x: u32| qprev.push(v).push(tgt).contains(x)
                    <==> queue@.push(v).contains(x) by {
                    assert(queue@.push(v) =~= qprev.push(tgt).push(v));
                    lemma_push_two_contains(qprev, v, tgt, x);
                }
                lemma_closed_requeue(
                    *graph,
                    s1,
                    s2,
                    visited.words@,
                    qprev.push(v).push(tgt),
                    queue@.push(v),
                );
                assert(visited.has(seed)) by {
                    assert(vprev.has(seed));
                }
                assert(visited.has(v as int)) by {
                    assert(vprev.has(v as int));
                }
                assert forall|u2: int| 0 <= u2 < queue@.len() implies visited.has(
                    (#[trigger] queue@[u2]) as int,
                ) by {
                    if u2 < qprev.len() {
                        assert(queue@[u2] == qprev[u2]);
                        assert(vprev.has(qprev[u2] as int));
                    } else {
                        assert(queue@[u2] == tgt);
                    }
                }
                assert forall|u2: int| 0 <= u2 < queue@.len() implies (#[trigger] queue@[u2])
                    < n by {
                    if u2 < qprev.len() {
                        assert(queue@[u2] == qprev[u2]);
                    } else {
                        assert(queue@[u2] == tgt);
                    }
                }
                assert forall|i: int|
                    0 <= i < visited.cap() && #[trigger] visited.has(i) implies i < n by {
                    if i != tgt as int {
                        assert(vprev.has(i));
                    }
                }
            }
        }
        t = t + 1;
    }
    proof {
        assert forall|u: int|
            0 <= u < graph.adj(v as int).len() && s1[(#[trigger] graph.adj(v as int)[u]) as int]
                != s2[graph.adj(v as int)[u] as int] implies packed_bit_u64(
            visited.words@,
            graph.adj(v as int)[u] as int,
        ) by {
            assert(graph.adj(v as int)[u] == graph.targets@[vstart + u]);
            assert(visited.has(graph.targets@[vstart + u] as int));
        }
        lemma_closed_retire(*graph, s1, s2, visited.words@, queue@, v);
    }
}

/// Grow the connected cluster of disagreeing sites around `seed`.
fn grow_cluster(graph: &CsrGraph, replica1: &IsingState, replica2: &IsingState, seed: u32) -> (c:
    ClusterSet)
    requires
        replica1.wf(),
        replica2.wf(),
        replica1.arr@.len() == graph.n(),
        replica2.arr@.len() == graph.n(),
        graph.wf(graph.n()),
        1 <= graph.n() < 0x1000_0000,
        (seed as int) < graph.n(),
        replica1.arr@[seed as int] != replica2.arr@[seed as int],
    ensures
        c.cap() >= graph.n(),
        c.has(seed as int),
        forall|i: int| 0 <= i < c.cap() && #[trigger] c.has(i) ==> 0 <= i < graph.n(),
        forall|i: int|
            0 <= i < graph.n() && #[trigger] c.has(i) ==> replica1.arr@[i] != replica2.arr@[i],
        forall|i: int|
            0 <= i < graph.n() && #[trigger] c.has(i) ==> dis_reaches(
                *graph,
                replica1.arr@,
                replica2.arr@,
                seed as int,
                i,
            ),
        closed_except(*graph, replica1.arr@, replica2.arr@, c.words@, Seq::<u32>::empty()),
{
    let n = graph.node_count();
    let ghost s1 = replica1.arr@;
    let ghost s2 = replica2.arr@;
    let mut visited = ClusterSet::new(n);
    let ghost w_empty = visited.words@;
    let mut queue: Vec<u32> = Vec::new();
    visited.set_bit(seed as usize);
    queue.push(seed);
    proof {
        assert(dis_path_ok(*graph, s1, s2, seq![seed as int]) && seq![seed as int].first()
            == seed as int && seq![seed as int].last() == seed as int);
        assert(dis_reaches(*graph, s1, s2, seed as int, seed as int));
        assert(queue@[0] == seed);
        assert(queue@.contains(seed));
        assert forall|i: int| 0 <= i < visited.cap() && packed_bit_u64(
            visited.words@,
            i,
        ) implies i == seed as int by {
            assert(!packed_bit_u64(w_empty, i));
        }
        assert forall|i: int, t: int|
            0 <= i < graph.n() && packed_bit_u64(visited.words@, i) && !queue@.contains(i as u32)
                && 0 <= t < graph.adj(i).len() && s1[#[trigger] graph.adj(i)[t] as int]
                != s2[graph.adj(i)[t] as int] implies packed_bit_u64(
            visited.words@,
            graph.adj(i)[t] as int,
        ) by {
            assert(i == seed as int);
            assert(queue@.contains(i as u32));
        }
    }
    while queue.len() > 0
        invariant
            n == graph.n(),
            graph.wf(n as int),
            replica1.wf(),
            replica2.wf(),
            s1 == replica1.arr@,
            s2 == replica2.arr@,
            replica1.arr@.len() == n,
            replica2.arr@.len() == n,
            1 <= n < 0x1000_0000,
            0 <= (seed as int) < n,
            search_inv(*graph, s1, s2, visited, queue@, seed as int),
            closed_except(*graph, s1, s2, visited.words@, queue@),
        decreases unset_below(visited.words@, visited.cap()), queue@.len(),
    {
        let ghost qb = queue@;
        let ghost wb = visited.words@;
        let v = queue.pop().unwrap();
        proof {
            assert(queue@ =~= qb.drop_last());
            assert(qb.last() == v);
            assert(queue@.push(v) =~= qb);
            assert(visited.has((qb[qb.len() - 1]) as int));
            assert((qb[qb.len() - 1]) < n);
        }
        process_node(graph, replica1, replica2, &mut visited, &mut queue, v, Ghost(seed as int));
        proof {
            lemma_unset_below_nonneg(visited.words@, visited.cap());
            lemma_unset_below_nonneg(wb, visited.cap());
        }
    }
    proof {
        assert(queue@ =~= Seq::<u32>::empty());
    }
    visited
}

/// The work list may be reordered without affecting the closure
/// property: only membership matters.
proof fn lemma_closed_requeue(
    g: CsrGraph,
    r1: Seq<i8>,
    r2: Seq<i8>,
    w: Seq<u64>,
    qa: Seq<u32>,
    qb: Seq<u32>,
)
    requires
        closed_except(g, r1, r2, w, qa),
        forall|x: u32| qa.contains(x) <==> qb.contains(x),
    ensures
        closed_except(g, r1, r2, w, qb),
{
}

/// Exchange the two replicas' spins over the cluster and invalidate
/// both energy caches.
fn swap_cluster(replica1: &mut IsingState, replica2: &mut IsingState, cluster: &ClusterSet)
    requires
        old(replica1).wf(),
        old(replica2).wf(),
        old(replica1).arr@.len() == old(replica2).arr@.len(),
        cluster.cap() >= old(replica1).arr@.len(),
    ensures
        final(replica1).wf(),
        final(replica2).wf(),
        final(replica1).arr@.len() == old(replica1).arr@.len(),
        final(replica2).arr@.len() == old(replica2).arr@.len(),
        forall|i: int|
            0 <= i < old(replica1).arr@.len() ==> #[trigger] final(replica1).arr@[i] == (
            if cluster.has(i) {
                old(replica2).arr@[i]
            } else {
                old(replica1).arr@[i]
            }),
        forall|i: int|
            0 <= i < old(replica1).arr@.len() ==> #[trigger] final(replica2).arr@[i] == (
            if cluster.has(i) {
                old(replica1).arr@[i]
            } else {
                old(replica2).arr@[i]
            }),
        !final(replica1).energy_init,
        !final(replica2).energy_init,
{
    let n = replica1.arr.len();
    let ghost s1 = replica1.arr@;
    let ghost s2 = replica2.arr@;
    for i in 0..n
        invariant
            replica1.arr@.len() == n,
            replica2.arr@.len() == n,
            replica1.wf(),
            replica2.wf(),
            s1 == old(replica1).arr@,
            s2 == old(replica2).arr@,
            cluster.cap() >= n,
            forall|j: int| i <= j < n ==> #[trigger] replica1.arr@[j] == s1[j],
            forall|j: int| i <= j < n ==> #[trigger] replica2.arr@[j] == s2[j],
            forall|j: int|
                0 <= j < i ==> #[trigger] replica1.arr@[j] == (if cluster.has(j) {
                    s2[j]
                } else {
                    s1[j]
                }),
            forall|j: int|
                0 <= j < i ==> #[trigger] replica2.arr@[j] == (if cluster.has(j) {
                    s1[j]
                } else {
                    s2[j]
                }),
    {
        if cluster.get_bit(i) {
            let a = replica1.arr[i];
            let b = replica2.arr[i];
            proof {
                assert(crate::sums::is_spin(replica1.arr@[i as int]));
                assert(crate::sums::is_spin(replica2.arr@[i as int]));
            }
            replica1.arr.set(i, b);
            replica2.arr.set(i, a);
        }
    }
    replica1.energy_init = false;
    replica2.energy_init = false;
}

/// The Houdayer cluster move on two replicas at a common temperature.
///
/// Computes the site-wise overlap, picks a uniformly random
/// disagreeing site, grows the connected cluster of disagreeing sites
/// around it through the instance's connectivity graph, and exchanges
/// the two replicas' spins on that cluster, invalidating both energy
/// caches. Where the replicas agree everywhere, nothing happens and no
/// cluster is returned.
#[verifier::rlimit(100)]
#[verifier::spinoff_prover]
pub fn houdayer_cluster_move(
    replica1: &mut IsingState,
    replica2: &mut IsingState,
    graph: &CsrGraph,
    rng: &mut Xoshiro256PlusPlus,
) -> (r: Option<ClusterSet>)
    requires
        old(replica1).wf(),
        old(replica2).wf(),
        old(replica1).arr@.len() == graph.n(),
        old(replica2).arr@.len() == graph.n(),
        graph.wf(graph.n()),
        1 <= graph.n() < 0x1000_0000,
    ensures
        final(replica1).wf(),
        final(replica2).wf(),
        final(replica1).arr@.len() == old(replica1).arr@.len(),
        final(replica2).arr@.len() == old(replica2).arr@.len(),
        match r {
            Option::None => {
                &&& *final(replica1) == *old(replica1)
                &&& *final(replica2) == *old(replica2)
                &&& forall|i: int|
                    0 <= i < graph.n() ==> old(replica1).arr@[i] == old(replica2).arr@[i]
            },
            Option::Some(c) => {
                &&& c.cap() >= graph.n()
                &&& exists|s: int|
                    0 <= s < graph.n() && c.has(s) && (forall|i: int|
                        0 <= i < graph.n() && #[trigger] c.has(i) ==> dis_reaches(
                            *graph,
                            old(replica1).arr@,
                            old(replica2).arr@,
                            s,
                            i,
                        ))
                &&& forall|i: int|
                    0 <= i < graph.n() && #[trigger] c.has(i) ==> old(replica1).arr@[i] != old(
                        replica2,
                    ).arr@[i]
                &&& closed_except(
                    *graph,
                    old(replica1).arr@,
                    old(replica2).arr@,
                    c.words@,
                    Seq::<u32>::empty(),
                )
                &&& forall|i: int|
                    0 <= i < graph.n() ==> #[trigger] final(replica1).arr@[i] == (if c.has(i) {
                        old(replica2).arr@[i]
                    } else {
                        old(replica1).arr@[i]
                    })
                &&& forall|i: int|
                    0 <= i < graph.n() ==> #[trigger] final(replica2).arr@[i] == (if c.has(i) {
                        old(replica1).arr@[i]
                    } else {
                        old(replica2).arr@[i]
                    })
                &&& forall|i: int|
                    0 <= i < graph.n() && #[trigger] c.has(i) ==> final(replica1).arr@[i]
                        != final(replica2).arr@[i]
                &&& !final(replica1).energy_init
                &&& !final(replica2).energy_init
            },
        },
{
    let n = graph.node_count();
    let ghost s1 = replica1.arr@;
    let ghost s2 = replica2.arr@;
    // Collect the disagreeing sites.
    let mut idxs: Vec<u32> = Vec::new();
    for i in 0..n
        invariant
            n == graph.n(),
            s1 == replica1.arr@,
            s2 == replica2.arr@,
            replica1.arr@.len() == n,
            replica2.arr@.len() == n,
            n < 0x1000_0000,
            idxs@.len() <= i,
            forall|t: int|
                0 <= t < idxs@.len() ==> 0 <= (#[trigger] idxs@[t]) < i && s1[idxs@[t] as int]
                    != s2[idxs@[t] as int],
            forall|j: int| 0 <= j < i && s1[j] != s2[j] ==> idxs@.contains(j as u32),
    {
        if replica1.arr[i] != replica2.arr[i] {
            let ghost ib = idxs@;
            idxs.push(i as u32);
            proof {
                assert(idxs@.last() == i as u32);
                assert forall|j: int| 0 <= j < i + 1 && s1[j] != s2[j] implies idxs@.contains(
                    j as u32,
                ) by {
                    if j < i {
                        let t = choose|t: int| 0 <= t < ib.len() && ib[t] == j as u32;
                        assert(idxs@[t] == j as u32);
                    } else {
                        assert(idxs@[idxs@.len() - 1] == j as u32);
                    }
                }
            }
        }
    }
    if idxs.len() == 0 {
        proof {
            assert forall|i: int| 0 <= i < n implies s1[i] == s2[i] by {
                if s1[i] != s2[i] {
                    assert(idxs@.contains(i as u32));
                }
            }
        }
        return Option::None;
    }
    // Random seed among the disagreeing sites.
    let pick = rng_below(rng, idxs.len() as u32);
    let seed = idxs[pick as usize];
    proof {
        assert(s1[seed as int] != s2[seed as int]);
    }
    let visited = grow_cluster(graph, replica1, replica2, seed);
    swap_cluster(replica1, replica2, &visited);
    proof {
        assert(visited.has(seed as int));
        assert forall|i: int|
            0 <= i < n && #[trigger] visited.has(i) implies replica1.arr@[i]
            != replica2.arr@[i] by {
            assert(s1[i] != s2[i]);
        }
        assert(0 <= (seed as int) < graph.n() && visited.has(seed as int) && (forall|i: int|
            0 <= i < graph.n() && #[trigger] visited.has(i) ==> dis_reaches(
                *graph,
                s1,
                s2,
                seed as int,
                i,
            )));
    }
    Option::Some(visited)
}

/// `t1`, `t2` are `s1`, `s2` with the sites of a closed cluster
/// exchanged.
pub open spec fn cluster_exchange(
    g: CsrGraph,
    s1: Seq<i8>,
    s2: Seq<i8>,
    t1: Seq<i8>,
    t2: Seq<i8>,
    words: Seq<u64>,
) -> bool {
    &&& s2.len() == s1.len()
    &&& t1.len() == s1.len()
    &&& t2.len() == s1.len()
    &&& forall|u: int|
        0 <= u < s1.len() ==> #[trigger] t1[u] == (if packed_bit_u64(words, u) {
            s2[u]
        } else {
            s1[u]
        })
    &&& forall|u: int|
        0 <= u < s1.len() ==> #[trigger] t2[u] == (if packed_bit_u64(words, u) {
            s1[u]
        } else {
            s2[u]
        })
    &&& closed_except(g, s1, s2, words, Seq::<u32>::empty())
}

/// A nonzero dense reading comes from an actual entry.
proof fn lemma_lookup_nonzero_index(row: Seq<(u32, i64)>, c: int)
    requires
        row_lookup(row, c) != 0,
    ensures
        exists|t: int| 0 <= t < row.len() && (#[trigger] row[t]).0 as int == c,
    decreases row.len(),
{
    if row.len() == 0 {
    } else if row.last().0 as int == c {
        assert(row[row.len() - 1].0 as int == c);
    } else {
        lemma_lookup_nonzero_index(row.drop_last(), c);
        let t = choose|t: int|
            0 <= t < row.drop_last().len() && (#[trigger] row.drop_last()[t]).0 as int == c;
        assert(row[t] == row.drop_last()[t]);
    }
}

/// A site outside the cluster that couples to a site inside it agrees
/// across the replicas: its disagreement would have pulled it in.
proof fn lemma_boundary_agrees(
    inst: BqmIsingInstance,
    g: CsrGraph,
    s1: Seq<i8>,
    s2: Seq<i8>,
    words: Seq<u64>,
    i: int,
    j: int,
)
    requires
        inst.wf(),
        graph_matches(g, inst),
        s2.len() == s1.len(),
        s1.len() == inst.nspins(),
        closed_except(g, s1, s2, words, Seq::<u32>::empty()),
        0 <= i < inst.nspins(),
        0 <= j < inst.nspins(),
        packed_bit_u64(words, i),
        !packed_bit_u64(words, j),
        inst.cpl(i, j) != 0,
    ensures
        s1[j] == s2[j],
{
    lemma_lookup_nonzero_index(inst.row(i), j);
    let t = choose|t: int|
        0 <= t < inst.row(i).len() && (#[trigger] inst.row(i)[t]).0 as int == j;
    assert(g.adj(i)[t] == inst.row(i)[t].0);
    assert(!Seq::<u32>::empty().contains(i as u32));
    if s1[j] != s2[j] {
        assert(s1[g.adj(i)[t] as int] != s2[g.adj(i)[t] as int]);
        assert(packed_bit_u64(words, g.adj(i)[t] as int));
    }
}

/// One edge's contribution to the two replicas' energies, summed over
/// the pair, is unchanged by the cluster exchange.
proof fn lemma_pair_term(
    inst: BqmIsingInstance,
    g: CsrGraph,
    s1: Seq<i8>,
    s2: Seq<i8>,
    t1: Seq<i8>,
    t2: Seq<i8>,
    words: Seq<u64>,
    i: int,
    j: int,
)
    requires
        inst.wf(),
        graph_matches(g, inst),
        s1.len() == inst.nspins(),
        cluster_exchange(g, s1, s2, t1, t2, words),
        0 <= i < inst.nspins(),
        0 <= j < inst.nspins(),
    ensures
        inst.cpl(i, j) * (sv(t1, i) * sv(t1, j)) + inst.cpl(i, j) * (sv(t2, i) * sv(t2, j))
            == inst.cpl(i, j) * (sv(s1, i) * sv(s1, j)) + inst.cpl(i, j) * (sv(s2, i) * sv(
            s2,
            j,
        )),
{
    let c = inst.cpl(i, j);
    if packed_bit_u64(words, i) && packed_bit_u64(words, j) {
        assert(sv(t1, i) == sv(s2, i) && sv(t1, j) == sv(s2, j));
        assert(sv(t2, i) == sv(s1, i) && sv(t2, j) == sv(s1, j));
    } else if !packed_bit_u64(words, i) && !packed_bit_u64(words, j) {
        assert(sv(t1, i) == sv(s1, i) && sv(t1, j) == sv(s1, j));
        assert(sv(t2, i) == sv(s2, i) && sv(t2, j) == sv(s2, j));
    } else if c == 0 {
        assert(c * (sv(t1, i) * sv(t1, j)) == 0 && c * (sv(t2, i) * sv(t2, j)) == 0 && c * (sv(
            s1,
            i,
        ) * sv(s1, j)) == 0 && c * (sv(s2, i) * sv(s2, j)) == 0) by (nonlinear_arith)
            requires
                c == 0,
        ;
    } else if packed_bit_u64(words, i) {
        // i inside, j on the agreeing boundary.
        lemma_boundary_agrees(inst, g, s1, s2, words, i, j);
        let a = sv(s1, j);
        assert(sv(t1, j) == a && sv(t2, j) == a && sv(s2, j) == a);
        assert(sv(t1, i) == sv(s2, i) && sv(t2, i) == sv(s1, i));
        assert(c * (sv(s2, i) * a) + c * (sv(s1, i) * a) == c * (sv(s1, i) * a) + c * (sv(
            s2,
            i,
        ) * a));
    } else {
        // j inside, i on the agreeing boundary; the coupling is
        // symmetric, so the reverse entry is present too.
        assert(inst.cpl(j, i) == c);
        lemma_boundary_agrees(inst, g, s1, s2, words, j, i);
        let a = sv(s1, i);
        assert(sv(t1, i) == a && sv(t2, i) == a && sv(s2, i) == a);
        assert(sv(t1, j) == sv(s2, j) && sv(t2, j) == sv(s1, j));
        assert(c * (a * sv(s2, j)) + c * (a * sv(s1, j)) == c * (a * sv(s1, j)) + c * (a * sv(
            s2,
            j,
        )));
    }
}

/// One coupling row's contribution, summed over the pair, is
/// unchanged by the cluster exchange.
proof fn lemma_row_pair(
    inst: BqmIsingInstance,
    g: CsrGraph,
    s1: Seq<i8>,
    s2: Seq<i8>,
    t1: Seq<i8>,
    t2: Seq<i8>,
    words: Seq<u64>,
    i: int,
    k: int,
)
    requires
        inst.wf(),
        graph_matches(g, inst),
        s1.len() == inst.nspins(),
        cluster_exchange(g, s1, s2, t1, t2, words),
        0 <= i < inst.nspins(),
        k <= inst.nspins(),
    ensures
        sv(t1, i) * dense_fsum(inst.row(i), t1, i, k) + sv(t2, i) * dense_fsum(
            inst.row(i),
            t2,
            i,
            k,
        ) == sv(s1, i) * dense_fsum(inst.row(i), s1, i, k) + sv(s2, i) * dense_fsum(
            inst.row(i),
            s2,
            i,
            k,
        ),
    decreases k,
{
    if k <= 0 {
        assert(sv(t1, i) * 0 + sv(t2, i) * 0 == sv(s1, i) * 0 + sv(s2, i) * 0)
            by (nonlinear_arith);
    } else {
        lemma_row_pair(inst, g, s1, s2, t1, t2, words, i, k - 1);
        if k - 1 > i {
            lemma_pair_term(inst, g, s1, s2, t1, t2, words, i, k - 1);
            let c = inst.cpl(i, k - 1);
            let d1 = dense_fsum(inst.row(i), t1, i, k - 1);
            let d2 = dense_fsum(inst.row(i), t2, i, k - 1);
            let e1 = dense_fsum(inst.row(i), s1, i, k - 1);
            let e2 = dense_fsum(inst.row(i), s2, i, k - 1);
            assert(sv(t1, i) * (d1 + c * sv(t1, k - 1)) + sv(t2, i) * (d2 + c * sv(t2, k - 1))
                == (sv(t1, i) * d1 + sv(t2, i) * d2) + (c * (sv(t1, i) * sv(t1, k - 1)) + c * (
            sv(t2, i) * sv(t2, k - 1)))) by (nonlinear_arith);
            assert(sv(s1, i) * (e1 + c * sv(s1, k - 1)) + sv(s2, i) * (e2 + c * sv(s2, k - 1))
                == (sv(s1, i) * e1 + sv(s2, i) * e2) + (c * (sv(s1, i) * sv(s1, k - 1)) + c * (
            sv(s2, i) * sv(s2, k - 1)))) by (nonlinear_arith);
        }
    }
}

/// The quadratic energy, summed over the pair, is unchanged by the
/// cluster exchange.
proof fn lemma_quad_pair(
    inst: BqmIsingInstance,
    g: CsrGraph,
    s1: Seq<i8>,
    s2: Seq<i8>,
    t1: Seq<i8>,
    t2: Seq<i8>,
    words: Seq<u64>,
    k: int,
)
    requires
        inst.wf(),
        graph_matches(g, inst),
        s1.len() == inst.nspins(),
        cluster_exchange(g, s1, s2, t1, t2, words),
        k <= inst.nspins(),
    ensures
        inst.quad_to(t1, k) + inst.quad_to(t2, k) == inst.quad_to(s1, k) + inst.quad_to(s2, k),
    decreases k,
{
    if k > 0 {
        lemma_quad_pair(inst, g, s1, s2, t1, t2, words, k - 1);
        lemma_row_pair(inst, g, s1, s2, t1, t2, words, k - 1, inst.nspins());
    }
}

/// The linear energy, summed over the pair, is unchanged by the
/// cluster exchange.
proof fn lemma_lin_pair(
    inst: BqmIsingInstance,
    g: CsrGraph,
    s1: Seq<i8>,
    s2: Seq<i8>,
    t1: Seq<i8>,
    t2: Seq<i8>,
    words: Seq<u64>,
    k: int,
)
    requires
        inst.wf(),
        graph_matches(g, inst),
        s1.len() == inst.nspins(),
        cluster_exchange(g, s1, s2, t1, t2, words),
        k <= inst.nspins(),
    ensures
        inst.lin_to(t1, k) + inst.lin_to(t2, k) == inst.lin_to(s1, k) + inst.lin_to(s2, k),
    decreases k,
{
    if k > 0 {
        lemma_lin_pair(inst, g, s1, s2, t1, t2, words, k - 1);
        let h = inst.hb(k - 1);
        assert(sv(t1, k - 1) + sv(t2, k - 1) == sv(s1, k - 1) + sv(s2, k - 1));
        assert(h * sv(t1, k - 1) + h * sv(t2, k - 1) == h * sv(s1, k - 1) + h * sv(s2, k - 1))
            by (nonlinear_arith)
            requires
                sv(t1, k - 1) + sv(t2, k - 1) == sv(s1, k - 1) + sv(s2, k - 1),
        ;
    }
}

/// The Houdayer move is isoenergetic on the pair: exchanging a
/// cluster that is closed under disagreeing adjacency leaves the sum
/// of the two replicas' Hamiltonians unchanged.
pub proof fn lemma_cluster_exchange_isoenergetic(
    inst: BqmIsingInstance,
    g: CsrGraph,
    s1: Seq<i8>,
    s2: Seq<i8>,
    t1: Seq<i8>,
    t2: Seq<i8>,
    words: Seq<u64>,
)
    requires
        inst.wf(),
        graph_matches(g, inst),
        s1.len() == inst.nspins(),
        cluster_exchange(g, s1, s2, t1, t2, words),
    ensures
        inst.espec(t1) + inst.espec(t2) == inst.espec(s1) + inst.espec(s2),
{
    lemma_lin_pair(inst, g, s1, s2, t1, t2, words, inst.nspins());
    lemma_quad_pair(inst, g, s1, s2, t1, t2, words, inst.nspins());
}

} // verus!

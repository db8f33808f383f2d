//! An immutable CSR view of the instance's connectivity, used by the
//! Houdayer cluster move's breadth-first search.
use vstd::prelude::*;

use crate::instance::BqmIsingInstance;
use crate::sums::row_wf;

verus! {

/// Compressed sparse row adjacency: the neighbours of node `v` are
/// `targets[offsets[v] .. offsets[v + 1]]`. Both directions of every
/// edge are present, mirroring the symmetric coupling pattern.
pub struct CsrGraph {
    /// Row starts; one entry per node plus a final total.
    pub offsets: Vec<usize>,
    /// Concatenated neighbour lists.
    pub targets: Vec<u32>,
}

impl CsrGraph {
    /// Number of nodes.
    pub open spec fn n(self) -> int {
        self.offsets@.len() - 1
    }

    /// The neighbour list of node `v`.
    pub open spec fn adj(self, v: int) -> Seq<u32> {
        self.targets@.subrange(self.offsets@[v] as int, self.offsets@[v + 1] as int)
    }

    /// Structural well-formedness over `n` nodes.
    pub open spec fn wf(self, n: int) -> bool {
        &&& self.offsets@.len() == n + 1
        &&& self.offsets@[0] == 0
        &&& forall|v: int|
            0 <= v < n ==> #[trigger] self.offsets@[v] <= self.offsets@[v + 1]
        &&& self.offsets@[n as int] == self.targets@.len()
        &&& forall|t: int| 0 <= t < self.targets@.len() ==> (#[trigger] self.targets@[t]) < n
    }

    /// Number of nodes.
    pub fn node_count(&self) -> (r: usize)
        requires
            self.offsets@.len() >= 1,
        ensures
            r == self.n(),
    {
        self.offsets.len() - 1
    }
}

/// The graph is exactly the instance's coupling pattern: node `v`'s
/// neighbour list is the column list of coupling row `v`.
pub open spec fn graph_matches(g: CsrGraph, inst: BqmIsingInstance) -> bool {
    &&& g.wf(inst.nspins())
    &&& forall|v: int|
        0 <= v < inst.nspins() ==> #[trigger] g.adj(v) == inst.row(v).map_values(
            |e: (u32, i64)| e.0,
        )
}

impl BqmIsingInstance {
    /// Build the CSR connectivity graph from the coupling pattern:
    /// node `v`'s neighbour list is exactly the column list of
    /// coupling row `v`, in row order.
    pub fn to_csr_graph(&self) -> (g: CsrGraph)
        requires
            self.wf(),
        ensures
            g.wf(self.nspins()),
            graph_matches(g, *self),
            forall|v: int|
                0 <= v < self.nspins() ==> #[trigger] g.adj(v) == self.row(v).map_values(
                    |e: (u32, i64)| e.0,
                ),
    {
        let n = self.bias.len();
        let mut offsets: Vec<usize> = Vec::new();
        let mut targets: Vec<u32> = Vec::new();
        offsets.push(0);
        for v in 0..n
            invariant
                n == self.nspins(),
                self.wf(),
                offsets@.len() == v + 1,
                offsets@[0] == 0,
                forall|u: int| 0 <= u < v ==> #[trigger] offsets@[u] <= offsets@[u + 1],
                offsets@[v as int] == targets@.len(),
                forall|u: int| 0 <= u <= v ==> #[trigger] offsets@[u] <= offsets@[v as int],
                forall|t: int| 0 <= t < targets@.len() ==> (#[trigger] targets@[t]) < n,
                forall|u: int|
                    0 <= u < v ==> #[trigger] targets@.subrange(
                        offsets@[u] as int,
                        offsets@[u + 1] as int,
                    ) == self.row(u).map_values(|e: (u32, i64)| e.0),
        {
            let row = &self.coupling_vecs[v];
            let m = row.len();
            proof {
                assert(row@ == self.row(v as int));
                assert(row_wf(self.row(v as int), v as int, n as int));
            }
            let ghost start = targets@.len() as int;
            let ghost tprefix = targets@;
            proof {
                assert(targets@ =~= tprefix + row@.take(0).map_values(|e2: (u32, i64)| e2.0));
            }
            for t in 0..m
                invariant
                    n == self.nspins(),
                    self.wf(),
                    0 <= (v as int) < n,
                    row@ == self.row(v as int),
                    m == row@.len(),
                    start == tprefix.len(),
                    targets@ == tprefix + row@.take(t as int).map_values(|e2: (u32, i64)| e2.0),
                    forall|u: int| 0 <= u < targets@.len() ==> (#[trigger] targets@[u]) < n,
            {
                let (j, _) = row[t];
                targets.push(j);
                proof {
                    assert(targets@ =~= tprefix + row@.take(t as int + 1).map_values(
                        |e2: (u32, i64)| e2.0,
                    ));
                }
            }
            let e = targets.len();
            offsets.push(e);
            proof {
                assert(row@.take(m as int) =~= row@);
                assert(targets@.subrange(start, e as int) =~= self.row(v as int).map_values(
                    |e2: (u32, i64)| e2.0,
                ));
                assert forall|u: int|
                    0 <= u < v implies #[trigger] targets@.subrange(
                    offsets@[u] as int,
                    offsets@[u + 1] as int,
                ) == self.row(u).map_values(|e2: (u32, i64)| e2.0) by {
                    assert(offsets@[u + 1] <= start);
                    assert(targets@.subrange(offsets@[u] as int, offsets@[u + 1] as int)
                        =~= tprefix.subrange(offsets@[u] as int, offsets@[u + 1] as int));
                }
            }
        }
        CsrGraph { offsets, targets }
    }
}

/// Offsets grow (weakly) with the node index.
pub proof fn lemma_offsets_mono(g: CsrGraph, n: int, a: int, b: int)
    requires
        g.wf(n),
        0 <= a <= b <= n,
    ensures
        g.offsets@[a] <= g.offsets@[b],
    decreases b - a,
{
    if a < b {
        lemma_offsets_mono(g, n, a + 1, b);
        assert(g.offsets@[a] <= g.offsets@[a + 1]);
    }
}

} // verus!

//! Deterministic graph topologies for scenarios: a line (the canonical multi-hop relay topology)
//! and a clique (a single dense room).

use vstd::prelude::*;

verus! {

pub struct Graph {
    pub n: usize,
    pub edges: Vec<(usize, usize)>,
}

/// A simple line A—B—C—…: node `i` links to node `i + 1`.
pub fn line(n: usize) -> (g: Graph)
    ensures
        g.n == n,
        g.edges@.len() == (if n == 0 { 0 } else { n - 1 }),
        forall|i: int| 0 <= i < g.edges@.len() ==> #[trigger] g.edges@[i] == (i as usize, (i + 1) as usize),
{
    let mut edges: Vec<(usize, usize)> = Vec::new();
    let mut i: usize = 0;
    while i + 1 < n
        invariant
            edges@.len() == i,
            i <= n,
            n > 0 ==> i <= n - 1,
            forall|j: int| 0 <= j < i ==> #[trigger] edges@[j] == (j as usize, (j + 1) as usize),
        decreases n - i,
    {
        edges.push((i, i + 1));
        i = i + 1;
    }
    Graph { n, edges }
}

/// A fully-connected clique of `n` nodes (a single dense room): every pair `i < j` once.
pub fn clique(n: usize) -> (g: Graph)
    ensures
        g.n == n,
        forall|e: int| 0 <= e < g.edges@.len() ==> (#[trigger] g.edges@[e]).0 < g.edges@[e].1 < n,
        forall|i: usize, j: usize| i < j < n ==> #[trigger] g.edges@.contains((i, j)),
{
    let mut edges: Vec<(usize, usize)> = Vec::new();
    let mut i: usize = 0;
    while i < n
        invariant
            i <= n,
            forall|e: int| 0 <= e < edges@.len() ==> (#[trigger] edges@[e]).0 < edges@[e].1 < n,
            forall|a: usize, b: usize| a < b < n && a < i ==> #[trigger] edges@.contains((a, b)),
        decreases n - i,
    {
        let mut j: usize = i + 1;
        while j < n
            invariant
                i < n,
                i + 1 <= j <= n,
                forall|e: int| 0 <= e < edges@.len() ==> (#[trigger] edges@[e]).0 < edges@[e].1 < n,
                forall|a: usize, b: usize| a < b < n && a < i ==> #[trigger] edges@.contains((a, b)),
                forall|b: usize| i < b < j ==> #[trigger] edges@.contains((i, b)),
            decreases n - j,
        {
            let ghost before = edges@;
            edges.push((i, j));
            proof {
                assert(edges@[edges@.len() - 1] == (i, j));
                assert forall|a: usize, b: usize| a < b < n && a < i implies #[trigger] edges@.contains((a, b)) by {
                    assert(before.contains((a, b)));
                    let k = choose|k: int| 0 <= k < before.len() && before[k] == (a, b);
                    assert(edges@[k] == (a, b));
                }
                assert forall|b: usize| i < b < j + 1 implies #[trigger] edges@.contains((i, b)) by {
                    if b < j {
                        assert(before.contains((i, b)));
                        let k = choose|k: int| 0 <= k < before.len() && before[k] == (i, b);
                        assert(edges@[k] == (i, b));
                    }
                }
            }
            j = j + 1;
        }
        i = i + 1;
    }
    Graph { n, edges }
}

} // verus!

//! Union-find over nodes `0..n`, with path compression: how the topology builder tells whether
//! two nodes already share a component.
//!
//! The model of the structure is the root each node leads to. A ghost rank rises strictly from
//! each node to its parent, which is what makes the walk to the root finite.

use vstd::prelude::*;

verus! {

/// The parent pointers are well formed: in range, and climbing in rank below `bound`.
pub open spec fn forest(parent: Seq<usize>, rank: Seq<nat>, bound: nat) -> bool {
    &&& rank.len() == parent.len()
    &&& forall|i: int| 0 <= i < parent.len() ==> (#[trigger] parent[i]) < parent.len()
    &&& forall|i: int| 0 <= i < parent.len() ==> #[trigger] rank[i] < bound
    &&& forall|i: int|
        0 <= i < parent.len() && parent[i] != i ==> rank[i] < rank[#[trigger] parent[i] as int]
}

/// The root node `i` leads to by following parent pointers.
pub open spec fn root_of(parent: Seq<usize>, rank: Seq<nat>, bound: nat, i: int) -> int
    decreases bound - rank[i],
    when forest(parent, rank, bound) && 0 <= i < parent.len()
{
    if parent[i] == i {
        i
    } else {
        root_of(parent, rank, bound, parent[i] as int)
    }
}

/// A root is in range, is its own parent, and ranks at least as high as the node; strictly
/// higher when the node is not the root itself.
proof fn lemma_root(parent: Seq<usize>, rank: Seq<nat>, bound: nat, i: int)
    requires
        forest(parent, rank, bound),
        0 <= i < parent.len(),
    ensures
        0 <= root_of(parent, rank, bound, i) < parent.len(),
        parent[root_of(parent, rank, bound, i)] == root_of(parent, rank, bound, i),
        root_of(parent, rank, bound, i) != i ==> rank[i] < rank[root_of(parent, rank, bound, i)],
        parent[i] != i ==> root_of(parent, rank, bound, i) == root_of(
            parent,
            rank,
            bound,
            parent[i] as int,
        ),
    decreases bound - rank[i],
{
    if parent[i] != i {
        lemma_root(parent, rank, bound, parent[i] as int);
    }
}

/// Pointing a node straight at its own root changes no node's root.
proof fn lemma_compress(parent: Seq<usize>, rank: Seq<nat>, bound: nat, c: int, j: int)
    requires
        forest(parent, rank, bound),
        0 <= c < parent.len(),
        0 <= j < parent.len(),
        root_of(parent, rank, bound, c) != c,
    ensures
        forest(parent.update(c, root_of(parent, rank, bound, c) as usize), rank, bound),
        root_of(parent.update(c, root_of(parent, rank, bound, c) as usize), rank, bound, j)
            == root_of(parent, rank, bound, j),
    decreases bound - rank[j],
{
    let r = root_of(parent, rank, bound, c);
    let p2 = parent.update(c, r as usize);
    lemma_root(parent, rank, bound, c);
    assert(forest(p2, rank, bound)) by {
        assert forall|i: int| 0 <= i < p2.len() && p2[i] != i implies rank[i] < rank[
            #[trigger] p2[i] as int
        ] by {
            if i != c {
                assert(p2[i] == parent[i]);
            }
        }
    }
    lemma_root(parent, rank, bound, j);
    if j == c {
        lemma_root(p2, rank, bound, r);
        assert(p2[r] == r);
    } else if parent[j] != j {
        lemma_compress(parent, rank, bound, c, parent[j] as int);
        assert(p2[j] == parent[j]);
    } else {
        assert(p2[j] == parent[j]);
    }
}

/// Hanging root `ra` under root `rb` (and lifting `rb`'s rank above `ra`'s) sends every node
/// that led to `ra` to `rb`, and leaves every other root as it was.
proof fn lemma_link(parent: Seq<usize>, rank: Seq<nat>, bound: nat, ra: int, rb: int, j: int)
    requires
        forest(parent, rank, bound),
        0 <= ra < parent.len(),
        0 <= rb < parent.len(),
        ra != rb,
        parent[ra] == ra,
        parent[rb] == rb,
        0 <= j < parent.len(),
    ensures
        ({
            let rank2 = rank.update(rb, if rank[rb] > rank[ra] { rank[rb] } else { rank[ra] + 1 });
            let bound2 = if bound > rank2[rb] { bound } else { rank2[rb] + 1 };
            let p2 = parent.update(ra, rb as usize);
            &&& forest(p2, rank2, bound2)
            &&& root_of(p2, rank2, bound2, j) == (if root_of(parent, rank, bound, j) == ra {
                rb
            } else {
                root_of(parent, rank, bound, j)
            })
        }),
    decreases bound - rank[j],
{
    let rank2 = rank.update(rb, if rank[rb] > rank[ra] { rank[rb] } else { rank[ra] + 1 });
    let bound2 = if bound > rank2[rb] { bound } else { rank2[rb] + 1 };
    let p2 = parent.update(ra, rb as usize);
    assert(forest(p2, rank2, bound2)) by {
        assert forall|i: int| 0 <= i < p2.len() implies #[trigger] rank2[i] < bound2 by {
            if i != rb {
                assert(rank2[i] == rank[i]);
            }
        }
        assert forall|i: int| 0 <= i < p2.len() && p2[i] != i implies rank2[i] < rank2[
            #[trigger] p2[i] as int
        ] by {
            if i == ra {
            } else {
                assert(p2[i] == parent[i]);
                assert(i != rb);
                assert(rank2[i] == rank[i]);
                if parent[i] as int != rb {
                    assert(rank2[parent[i] as int] == rank[parent[i] as int]);
                }
            }
        }
    }
    lemma_root(parent, rank, bound, j);
    if j == ra {
        assert(p2[rb] == rb);
        assert(root_of(p2, rank2, bound2, rb) == rb);
    } else if parent[j] == j {
        assert(p2[j] == j);
    } else {
        lemma_link(parent, rank, bound, ra, rb, parent[j] as int);
        assert(p2[j] == parent[j]);
    }
}

pub struct UnionFind {
    parent: Vec<usize>,
    rank: Ghost<Seq<nat>>,
    bound: Ghost<nat>,
}

impl UnionFind {
    pub closed spec fn wf(&self) -> bool {
        forest(self.parent@, self.rank@, self.bound@)
    }

    /// How many nodes the structure covers.
    pub closed spec fn size(&self) -> nat {
        self.parent@.len()
    }

    /// The root node `i` leads to: two nodes share a component exactly when their roots agree.
    pub closed spec fn root(&self, i: int) -> int {
        root_of(self.parent@, self.rank@, self.bound@, i)
    }

    /// Every node of `0..n` alone in its own component.
    pub fn new(n: usize) -> (uf: Self)
        ensures
            uf.wf(),
            uf.size() == n,
            forall|i: int| 0 <= i < n ==> #[trigger] uf.root(i) == i,
    {
        let mut parent: Vec<usize> = Vec::new();
        let mut i: usize = 0;
        while i < n
            invariant
                i <= n,
                parent@.len() == i,
                forall|j: int| 0 <= j < i ==> #[trigger] parent@[j] == j,
            decreases n - i,
        {
            parent.push(i);
            i = i + 1;
        }
        let uf = UnionFind {
            parent,
            rank: Ghost(Seq::new(n as nat, |j: int| 0nat)),
            bound: Ghost(1nat),
        };
        assert forall|j: int| 0 <= j < n implies #[trigger] uf.root(j) == j by {
            assert(uf.parent@[j] == j);
        }
        uf
    }

    /// The root of `x`'s component. Every node on the way is re-pointed straight at it; no
    /// component changes.
    pub fn find(&mut self, x: usize) -> (r: usize)
        requires
            old(self).wf(),
            x < old(self).size(),
        ensures
            final(self).wf(),
            final(self).size() == old(self).size(),
            r == old(self).root(x as int),
            forall|i: int| 0 <= i < old(self).size() ==> #[trigger] final(self).root(i) == old(self).root(i),
    {
        let ghost rank = self.rank@;
        let ghost bound = self.bound@;
        let ghost p0 = self.parent@;
        let mut root = x;
        while self.parent[root] != root
            invariant
                forest(self.parent@, rank, bound),
                self.parent@ == p0,
                root < self.parent@.len(),
                root_of(p0, rank, bound, root as int) == root_of(p0, rank, bound, x as int),
            decreases bound - rank[root as int],
        {
            proof {
                lemma_root(p0, rank, bound, root as int);
            }
            root = self.parent[root];
        }
        proof {
            lemma_root(p0, rank, bound, root as int);
        }
        let mut cur = x;
        while self.parent[cur] != root
            invariant
                forest(self.parent@, rank, bound),
                self.rank@ == rank,
                self.bound@ == bound,
                self.parent@.len() == p0.len(),
                root < p0.len(),
                self.parent@[root as int] == root,
                root as int == root_of(p0, rank, bound, x as int),
                cur < p0.len(),
                root_of(self.parent@, rank, bound, cur as int) == root as int,
                forall|i: int|
                    0 <= i < p0.len() ==> #[trigger] root_of(self.parent@, rank, bound, i)
                        == root_of(p0, rank, bound, i),
            decreases bound - rank[cur as int],
        {
            let ghost pa = self.parent@;
            proof {
                lemma_root(pa, rank, bound, cur as int);
                lemma_root(pa, rank, bound, root as int);
            }
            let next = self.parent[cur];
            proof {
                assert forall|i: int| 0 <= i < p0.len() implies #[trigger] root_of(
                    pa.update(cur as int, root),
                    rank,
                    bound,
                    i,
                ) == root_of(p0, rank, bound, i) by {
                    lemma_compress(pa, rank, bound, cur as int, i);
                }
                lemma_compress(pa, rank, bound, cur as int, next as int);
            }
            self.parent.set(cur, root);
            proof {
                lemma_root(pa, rank, bound, next as int);
            }
            cur = next;
        }
        root
    }

    /// Merge the components of `a` and `b`: every node that led to `a`'s root now leads to
    /// `b`'s, and no other component changes.
    pub fn union(&mut self, a: usize, b: usize)
        requires
            old(self).wf(),
            a < old(self).size(),
            b < old(self).size(),
        ensures
            final(self).wf(),
            final(self).size() == old(self).size(),
            final(self).root(a as int) == final(self).root(b as int),
            forall|i: int|
                0 <= i < old(self).size() ==> #[trigger] final(self).root(i) == (if old(self).root(i)
                    == old(self).root(a as int) {
                    old(self).root(b as int)
                } else {
                    old(self).root(i)
                }),
    {
        let ra = self.find(a);
        let ghost mid = *self;
        let rb = self.find(b);
        assert(self.root(a as int) == mid.root(a as int));
        assert(mid.root(a as int) == ra);
        assert(self.root(b as int) == rb);
        let ghost fin = *self;
        if ra != rb {
            let ghost parent = self.parent@;
            let ghost rank = self.rank@;
            let ghost bound = self.bound@;
            let ghost rank2 = rank.update(
                rb as int,
                if rank[rb as int] > rank[ra as int] {
                    rank[rb as int]
                } else {
                    rank[ra as int] + 1
                },
            );
            let ghost bound2 = if bound > rank2[rb as int] {
                bound
            } else {
                rank2[rb as int] + 1
            };
            proof {
                lemma_root(parent, rank, bound, a as int);
                lemma_root(parent, rank, bound, b as int);
                assert forall|j: int| 0 <= j < parent.len() implies #[trigger] root_of(
                    parent.update(ra as int, rb),
                    rank2,
                    bound2,
                    j,
                ) == (if root_of(parent, rank, bound, j) == ra {
                    rb as int
                } else {
                    root_of(parent, rank, bound, j)
                }) by {
                    lemma_link(parent, rank, bound, ra as int, rb as int, j);
                }
                lemma_link(parent, rank, bound, ra as int, rb as int, a as int);
            }
            self.parent.set(ra, rb);
            self.rank = Ghost(rank2);
            self.bound = Ghost(bound2);
        }
        assert forall|i: int| 0 <= i < old(self).size() implies #[trigger] self.root(i) == (if old(
            self,
        ).root(i) == old(self).root(a as int) {
            old(self).root(b as int)
        } else {
            old(self).root(i)
        }) by {
            assert(mid.root(i) == old(self).root(i));
            assert(fin.root(i) == mid.root(i));
            assert(mid.root(b as int) == old(self).root(b as int));
            assert(fin.root(b as int) == mid.root(b as int));
        }
    }
}

} // verus!

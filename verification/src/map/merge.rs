//! Grouping of connected cliff lines: a union-find forest over line indices
//! with path compression.

use vstd::prelude::*;

verus! {

/// The forest is well formed: every parent is in range and, away from the
/// roots, a parent has a higher rank than its child; all ranks lie below
/// `bound`.
pub open spec fn forest_wf(parents: Seq<usize>, rank: Seq<nat>, bound: nat) -> bool {
    &&& rank.len() == parents.len()
    &&& forall|i: int| 0 <= i < parents.len() ==> (#[trigger] parents[i]) < parents.len()
    &&& forall|i: int| 0 <= i < parents.len() ==> #[trigger] rank[i] < bound
    &&& forall|i: int| 0 <= i < parents.len() && parents[i] != i ==> rank[i] < #[trigger] rank[parents[i] as int]
}

/// The root of the tree that holds node `i`.
pub open spec fn root_in(parents: Seq<usize>, rank: Seq<nat>, bound: nat, i: int) -> int
    decreases bound - rank[i],
    when forest_wf(parents, rank, bound) && 0 <= i < parents.len()
{
    if parents[i] == i {
        i
    } else {
        root_in(parents, rank, bound, parents[i] as int)
    }
}

/// A forest over the indices `0..len`: two indices are in one component
/// when they have the same root.
pub struct ComponentForest {
    parents: Vec<usize>,
    rank: Ghost<Seq<nat>>,
    bound: Ghost<nat>,
}

/// The root is a root, of rank at least that of the node, higher away from
/// the roots.
pub(crate) proof fn lemma_root_facts(parents: Seq<usize>, rank: Seq<nat>, bound: nat, i: int)
    requires
        forest_wf(parents, rank, bound),
        0 <= i < parents.len(),
    ensures
        0 <= root_in(parents, rank, bound, i) < parents.len(),
        parents[root_in(parents, rank, bound, i)] == root_in(parents, rank, bound, i),
        rank[i] <= rank[root_in(parents, rank, bound, i)],
        parents[i] != i ==> rank[i] < rank[root_in(parents, rank, bound, i)],
        parents[i] != i ==> root_in(parents, rank, bound, i) == root_in(parents, rank, bound, parents[i] as int),
    decreases bound - rank[i],
{
    if parents[i] != i {
        lemma_root_facts(parents, rank, bound, parents[i] as int);
    }
}

/// Pointing node `node` straight at its root, or raising the rank of a
/// root, leaves the root of every node as it was.
proof fn lemma_roots_kept(
    parents: Seq<usize>,
    rank: Seq<nat>,
    bound: nat,
    new_parents: Seq<usize>,
    new_rank: Seq<nat>,
    new_bound: nat,
    j: int,
)
    requires
        forest_wf(parents, rank, bound),
        forest_wf(new_parents, new_rank, new_bound),
        new_parents.len() == parents.len(),
        0 <= j < parents.len(),
        forall|i: int| 0 <= i < parents.len() ==> #[trigger] new_parents[i] == parents[i]
            || new_parents[i] == root_in(parents, rank, bound, i),
    ensures
        root_in(new_parents, new_rank, new_bound, j) == root_in(parents, rank, bound, j),
    decreases new_bound - new_rank[j],
{
    lemma_root_facts(parents, rank, bound, j);
    if new_parents[j] == j {
        if parents[j] != j {
            assert(new_parents[j] == root_in(parents, rank, bound, j));
            assert(root_in(parents, rank, bound, j) != j);
        }
    } else {
        let p = new_parents[j] as int;
        lemma_roots_kept(parents, rank, bound, new_parents, new_rank, new_bound, p);
        if new_parents[j] == parents[j] {
        } else {
            lemma_root_facts(parents, rank, bound, p);
        }
    }
}

impl ComponentForest {
    /// The forest is well formed.
    pub closed spec fn wf(&self) -> bool {
        forest_wf(self.parents@, self.rank@, self.bound@)
    }

    /// The number of nodes.
    pub closed spec fn size(&self) -> nat {
        self.parents@.len()
    }

    /// The root of the component of node `i`.
    pub closed spec fn root_of(&self, i: int) -> int {
        root_in(self.parents@, self.rank@, self.bound@, i)
    }

    /// The ghost ranks that order the forest, and their bound.
    pub closed spec fn ranking(&self) -> (Seq<nat>, nat) {
        (self.rank@, self.bound@)
    }

    /// How far node `i` may still be from its root, measured in rank.
    pub closed spec fn height_left(&self, i: int) -> int {
        self.bound@ - self.rank@[i]
    }

    /// Nodes `i` and `j` are in one component.
    pub open spec fn same_component(&self, i: int, j: int) -> bool {
        self.root_of(i) == self.root_of(j)
    }

    /// A node is a root when it is the root of its own component.
    pub proof fn lemma_root_of_root(&self, i: int)
        requires
            self.wf(),
            0 <= i < self.size(),
        ensures
            0 <= self.root_of(i) < self.size(),
            self.root_of(self.root_of(i)) == self.root_of(i),
    {
        lemma_root_facts(self.parents@, self.rank@, self.bound@, i);
    }

    /// `len` singleton components, one per index.
    pub fn new(len: usize) -> (forest: Self)
        ensures
            forest.wf(),
            forest.size() == len,
            forall|i: int| 0 <= i < len ==> #[trigger] forest.root_of(i) == i,
    {
        let mut parents: Vec<usize> = Vec::with_capacity(len);
        let mut i: usize = 0;
        while i < len
            invariant
                i <= len,
                parents@.len() == i,
                forall|k: int| 0 <= k < i ==> #[trigger] parents@[k] == k,
            decreases len - i,
        {
            parents.push(i);
            i = i + 1;
        }
        let forest = ComponentForest { parents, rank: Ghost(Seq::new(len as nat, |k: int| 0nat)), bound: Ghost(1) };
        proof {
            assert forall|k: int| 0 <= k < len implies #[trigger] forest.root_of(k) == k by {
                assert(forest.parents@[k] == k);
            }
        }
        forest
    }

    /// The root of the component of `index`. Every node on the way is
    /// pointed straight at the root, which changes no component.
    pub fn component_root(&mut self, index: usize) -> (root: usize)
        requires
            old(self).wf(),
            index < old(self).size(),
        ensures
            final(self).wf(),
            final(self).size() == old(self).size(),
            final(self).ranking() == old(self).ranking(),
            root == old(self).root_of(index as int),
            forall|j: int| 0 <= j < old(self).size() ==> #[trigger] final(self).root_of(j) == old(self).root_of(j),
        decreases old(self).height_left(index as int),
    {
        let ghost s0 = *self;
        let ghost parents0 = self.parents@;
        let ghost rank0 = self.rank@;
        let ghost bound0 = self.bound@;
        proof {
            lemma_root_facts(parents0, rank0, bound0, index as int);
        }
        let parent = self.parents[index];
        if parent != index {
            proof {
                lemma_root_facts(parents0, rank0, bound0, parent as int);
            }
            let root = self.component_root(parent);
            let ghost s1 = *self;
            let ghost parents1 = self.parents@;
            proof {
                assert(self.rank@ == rank0 && self.bound@ == bound0);
                assert(s1.root_of(index as int) == s0.root_of(index as int));
                lemma_root_facts(parents1, rank0, bound0, index as int);
            }
            self.parents.set(index, root);
            proof {
                let parents2 = self.parents@;
                assert forall|i: int| 0 <= i < parents2.len() && parents2[i] != i
                    implies rank0[i] < #[trigger] rank0[parents2[i] as int] by {
                    if i == index as int {
                        lemma_root_facts(parents0, rank0, bound0, index as int);
                    }
                }
                assert(forest_wf(parents2, rank0, bound0));
                assert forall|i: int| 0 <= i < parents2.len() implies #[trigger] parents2[i] == parents1[i]
                    || parents2[i] == root_in(parents1, rank0, bound0, i) by {
                    if i == index as int {
                        assert(parents2[i] == root);
                        assert(root_in(parents1, rank0, bound0, i) == s1.root_of(i));
                    }
                }
                assert forall|j: int| 0 <= j < parents2.len() implies #[trigger] self.root_of(j) == s0.root_of(j) by {
                    lemma_roots_kept(parents1, rank0, bound0, parents2, rank0, bound0, j);
                    assert(s1.root_of(j) == s0.root_of(j));
                }
            }
            root
        } else {
            index
        }
    }

    /// Joins the components of `first` and `second`: the root of `second`
    /// is hung below the root of `first`.
    pub fn union_components(&mut self, first: usize, second: usize)
        requires
            old(self).wf(),
            first < old(self).size(),
            second < old(self).size(),
        ensures
            final(self).wf(),
            final(self).size() == old(self).size(),
            forall|j: int| 0 <= j < old(self).size() ==> #[trigger] final(self).root_of(j) == if old(self).root_of(j)
                == old(self).root_of(second as int) {
                old(self).root_of(first as int)
            } else {
                old(self).root_of(j)
            },
    {
        let ghost before = *self;
        let first_root = self.component_root(first);
        let ghost middle = *self;
        let second_root = self.component_root(second);
        let ghost after_roots = *self;
        proof {
            assert(after_roots.root_of(first as int) == middle.root_of(first as int));
            assert(middle.root_of(first as int) == before.root_of(first as int));
            assert(after_roots.root_of(second as int) == middle.root_of(second as int));
            lemma_root_facts(self.parents@, self.rank@, self.bound@, first as int);
            lemma_root_facts(self.parents@, self.rank@, self.bound@, second as int);
            assert forall|j: int| 0 <= j < before.size() implies #[trigger] after_roots.root_of(j) == before.root_of(j) by {
                assert(after_roots.root_of(j) == middle.root_of(j));
                assert(middle.root_of(j) == before.root_of(j));
            }
        }
        if first_root != second_root {
            let ghost parents1 = self.parents@;
            let ghost rank1 = self.rank@;
            let ghost bound1 = self.bound@;
            self.parents.set(second_root, first_root);
            proof {
                let raised = if rank1[first_root as int] > rank1[second_root as int] {
                    rank1[first_root as int]
                } else {
                    rank1[second_root as int] + 1
                };
                self.rank = Ghost(rank1.update(first_root as int, raised));
                self.bound = Ghost(bound1 + 1);
                let parents2 = self.parents@;
                let rank2 = self.rank@;
                let bound2 = self.bound@;
                assert(forest_wf(parents2, rank2, bound2)) by {
                    assert forall|i: int| 0 <= i < parents2.len() && parents2[i] != i
                        implies rank2[i] < #[trigger] rank2[parents2[i] as int] by {
                        if i != second_root as int {
                            assert(parents2[i] == parents1[i]);
                            assert(i != first_root as int);
                        }
                    }
                }
                assert forall|j: int| 0 <= j < parents2.len() implies #[trigger] self.root_of(j)
                    == if before.root_of(j) == before.root_of(second as int) {
                    before.root_of(first as int)
                } else {
                    before.root_of(j)
                } by {
                    lemma_union_roots(parents1, rank1, bound1, parents2, rank2, bound2, first_root as int, second_root as int, j);
                    assert(after_roots.root_of(j) == before.root_of(j));
                }
            }
        } else {
            proof {
                assert forall|j: int| 0 <= j < before.size() implies #[trigger] self.root_of(j)
                    == if before.root_of(j) == before.root_of(second as int) {
                    before.root_of(first as int)
                } else {
                    before.root_of(j)
                } by {
                    assert(after_roots.root_of(j) == before.root_of(j));
                }
            }
        }
    }
}

/// Hanging root `b` below root `a` sends the nodes of `b`'s tree to `a` and
/// leaves every other root alone.
pub(crate) proof fn lemma_union_roots(
    parents: Seq<usize>,
    rank: Seq<nat>,
    bound: nat,
    new_parents: Seq<usize>,
    new_rank: Seq<nat>,
    new_bound: nat,
    a: int,
    b: int,
    j: int,
)
    requires
        forest_wf(parents, rank, bound),
        forest_wf(new_parents, new_rank, new_bound),
        0 <= a < parents.len(),
        0 <= b < parents.len(),
        a != b,
        parents[a] == a,
        parents[b] == b,
        new_parents == parents.update(b, a as usize),
        0 <= j < parents.len(),
    ensures
        root_in(new_parents, new_rank, new_bound, j) == if root_in(parents, rank, bound, j) == b {
            a
        } else {
            root_in(parents, rank, bound, j)
        },
    decreases new_bound - new_rank[j],
{
    lemma_root_facts(parents, rank, bound, j);
    if j == b {
        assert(new_parents[b] == a);
        assert(new_parents[a] == a);
        assert(root_in(new_parents, new_rank, new_bound, a) == a);
    } else if parents[j] == j {
        assert(new_parents[j] == j);
    } else {
        assert(new_parents[j] == parents[j]);
        lemma_union_roots(parents, rank, bound, new_parents, new_rank, new_bound, a, b, parents[j] as int);
    }
}

/// Law: after joining, the two nodes are in one component.
pub proof fn lemma_union_joins(before: ComponentForest, after: ComponentForest, first: int, second: int)
    requires
        before.wf(),
        0 <= first < before.size(),
        0 <= second < before.size(),
        after.size() == before.size(),
        forall|j: int| 0 <= j < before.size() ==> #[trigger] after.root_of(j) == if before.root_of(j)
            == before.root_of(second) {
            before.root_of(first)
        } else {
            before.root_of(j)
        },
    ensures
        after.same_component(first, second),
        forall|i: int, j: int| 0 <= i < before.size() && 0 <= j < before.size()
            && #[trigger] before.same_component(i, j) ==> #[trigger] after.same_component(i, j),
{
    assert(after.root_of(first) == before.root_of(first));
    assert(after.root_of(second) == before.root_of(first));
}

} // verus!

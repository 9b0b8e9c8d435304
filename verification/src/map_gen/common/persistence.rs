//! The union-find forest of the persistence cleanup: union by size, path
//! halving, and for each root the list of the members of its set, so that a
//! whole set can be walked when it is merged away.

use vstd::prelude::*;
use crate::map::merge::{forest_wf, lemma_root_facts, lemma_union_roots, root_in};
use crate::lidar::connectivity::index_set;
use crate::map_gen::common::grid::lemma_index_set_len;

verus! {

/// The end of a member list.
pub const LIST_END: usize = usize::MAX;

/// The member list `list` is threaded through `next`: each member points to
/// the following one.
pub open spec fn threaded(next: Seq<usize>, list: Seq<usize>) -> bool {
    forall|k: int| 0 <= k < list.len() - 1 ==> #[trigger] next[list[k] as int] == list[k + 1]
}

/// The member list of root `r` is well formed: it starts at `head[r]`,
/// ends at `tail[r]` followed by the end mark, is threaded through `next`,
/// has `size[r]` distinct members, and lists exactly the nodes whose root
/// is `r`.
pub open spec fn root_list_wf(
    parent: Seq<usize>,
    rank: Seq<nat>,
    bound: nat,
    size: Seq<usize>,
    head: Seq<usize>,
    tail: Seq<usize>,
    next: Seq<usize>,
    list: Seq<usize>,
    r: int,
) -> bool {
    &&& list.len() > 0
    &&& list.len() == size[r]
    &&& list[0] == head[r]
    &&& list.last() == tail[r]
    &&& next[tail[r] as int] == LIST_END
    &&& threaded(next, list)
    &&& list.no_duplicates()
    &&& forall|k: int| 0 <= k < list.len() ==> (#[trigger] list[k]) < parent.len() && root_in(parent, rank, bound, list[k] as int) == r
    &&& forall|i: int| 0 <= i < parent.len() && root_in(parent, rank, bound, i) == r ==> #[trigger] list.contains(i as usize)
}

/// A forest over the indices `0..len` with the member list of each set.
pub struct PersistenceForest {
    parent: Vec<usize>,
    size: Vec<usize>,
    head: Vec<usize>,
    tail: Vec<usize>,
    next: Vec<usize>,
    rank: Ghost<Seq<nat>>,
    bound: Ghost<nat>,
    lists: Ghost<Seq<Seq<usize>>>,
}

/// Pointing node `node` at another node of its tree with a higher rank
/// leaves the root of every node as it was.
proof fn lemma_reparent_keeps_roots(
    parent: Seq<usize>,
    rank: Seq<nat>,
    bound: nat,
    new_parent: Seq<usize>,
    j: int,
)
    requires
        forest_wf(parent, rank, bound),
        forest_wf(new_parent, rank, bound),
        new_parent.len() == parent.len(),
        0 <= j < parent.len(),
        forall|i: int| 0 <= i < parent.len() && #[trigger] new_parent[i] != parent[i]
            ==> parent[i] != i && new_parent[i] != i
                && root_in(parent, rank, bound, new_parent[i] as int) == root_in(parent, rank, bound, i),
    ensures
        root_in(new_parent, rank, bound, j) == root_in(parent, rank, bound, j),
    decreases bound - rank[j],
{
    lemma_root_facts(parent, rank, bound, j);
    if new_parent[j] != j {
        let p = new_parent[j] as int;
        lemma_reparent_keeps_roots(parent, rank, bound, new_parent, p);
        if new_parent[j] != parent[j] {
            lemma_root_facts(parent, rank, bound, p);
        }
    }
}

/// The member lists of two different roots are disjoint and fit in the
/// node range together.
proof fn lemma_lists_fit(parent: Seq<usize>, rank: Seq<nat>, bound: nat, ls: Seq<usize>, lt: Seq<usize>, s: int, t: int)
    requires
        forest_wf(parent, rank, bound),
        s != t,
        ls.len() > 0,
        lt.len() > 0,
        ls.no_duplicates(),
        lt.no_duplicates(),
        forall|k: int| 0 <= k < ls.len() ==> (#[trigger] ls[k]) < parent.len() && root_in(parent, rank, bound, ls[k] as int) == s,
        forall|k: int| 0 <= k < lt.len() ==> (#[trigger] lt[k]) < parent.len() && root_in(parent, rank, bound, lt[k] as int) == t,
    ensures
        forall|x: usize| ls.contains(x) ==> !lt.contains(x),
        ls.len() + lt.len() <= parent.len(),
        ls.last() != lt.last(),
{
    let n = parent.len();
    // The two lists are disjoint: their members have different roots.
    assert forall|x: usize| ls.contains(x) implies !lt.contains(x) by {
        let k = choose|k: int| 0 <= k < ls.len() && ls[k] == x;
        if lt.contains(x) {
            let m = choose|m: int| 0 <= m < lt.len() && lt[m] == x;
            assert(root_in(parent, rank, bound, ls[k] as int) == s);
            assert(root_in(parent, rank, bound, lt[m] as int) == t);
        }
    }
    // Both lists fit in the node range together.
    lemma_index_set_len(ls);
    lemma_index_set_len(lt);
    let range = vstd::set_lib::set_int_range(0, n as int);
    assert(index_set(ls).disjoint(index_set(lt))) by {
        assert forall|x: int| index_set(ls).contains(x) implies !index_set(lt).contains(x) by {
            let k = choose|k: int| 0 <= k < ls.len() && ls[k] == x;
            assert(ls.contains(ls[k]));
            if index_set(lt).contains(x) {
                let m = choose|m: int| 0 <= m < lt.len() && lt[m] == x;
                assert(lt.contains(lt[m]));
            }
        }
    }
    assert(index_set(ls).union(index_set(lt)).subset_of(range)) by {
        assert forall|x: int| index_set(ls).union(index_set(lt)).contains(x) implies range.contains(x) by {
            if index_set(ls).contains(x) {
                let k = choose|k: int| 0 <= k < ls.len() && ls[k] == x;
                assert(ls[k] < n);
            } else {
                let k = choose|k: int| 0 <= k < lt.len() && lt[k] == x;
                assert(lt[k] < n);
            }
        }
    }
    vstd::set_lib::lemma_int_range(0, n as int);
    vstd::set_lib::lemma_set_disjoint_lens(index_set(ls), index_set(lt));
    vstd::set_lib::lemma_len_subset(index_set(ls).union(index_set(lt)), range);
    assert(ls.len() + lt.len() <= n);
    assert(ls.last() != lt.last()) by {
        assert(ls.contains(ls.last()));
        assert(lt.contains(lt.last()));
    }
}

impl PersistenceForest {
    /// The forest and its member lists are well formed.
    pub closed spec fn wf(&self) -> bool {
        let n = self.parent@.len();
        &&& n < usize::MAX
        &&& self.size@.len() == n
        &&& self.head@.len() == n
        &&& self.tail@.len() == n
        &&& self.next@.len() == n
        &&& self.lists@.len() == n
        &&& forest_wf(self.parent@, self.rank@, self.bound@)
        &&& forall|r: int| 0 <= r < n && #[trigger] self.parent@[r] == r ==> root_list_wf(
            self.parent@,
            self.rank@,
            self.bound@,
            self.size@,
            self.head@,
            self.tail@,
            self.next@,
            self.lists@[r],
            r,
        )
    }

    /// The number of nodes.
    pub closed spec fn len(&self) -> nat {
        self.parent@.len()
    }

    /// The root of the set of node `i`.
    pub closed spec fn root_of(&self, i: int) -> int {
        root_in(self.parent@, self.rank@, self.bound@, i)
    }

    /// The members of the set whose root is `r`, in list order.
    pub closed spec fn members(&self, r: int) -> Seq<usize> {
        self.lists@[r]
    }

    /// How far node `i` may still be from its root, measured in rank.
    pub closed spec fn height_left(&self, i: int) -> int {
        self.bound@ - self.rank@[i]
    }

    /// `len` singleton sets.
    pub fn new(len: usize) -> (forest: Self)
        requires
            len < usize::MAX,
        ensures
            forest.wf(),
            forest.len() == len,
            forall|i: int| 0 <= i < len ==> #[trigger] forest.root_of(i) == i && forest.members(i) == seq![i as usize],
    {
        let mut parent: Vec<usize> = Vec::with_capacity(len);
        let mut size: Vec<usize> = Vec::with_capacity(len);
        let mut next: Vec<usize> = Vec::with_capacity(len);
        let mut i: usize = 0;
        while i < len
            invariant
                i <= len,
                parent@.len() == i,
                size@.len() == i,
                next@.len() == i,
                forall|k: int| 0 <= k < i ==> #[trigger] parent@[k] == k,
                forall|k: int| 0 <= k < i ==> #[trigger] size@[k] == 1,
                forall|k: int| 0 <= k < i ==> #[trigger] next@[k] == LIST_END,
            decreases len - i,
        {
            parent.push(i);
            size.push(1);
            next.push(LIST_END);
            i = i + 1;
        }
        let head = parent.clone();
        let tail = parent.clone();
        let forest = PersistenceForest {
            parent,
            size,
            head,
            tail,
            next,
            rank: Ghost(Seq::new(len as nat, |k: int| 0nat)),
            bound: Ghost(1),
            lists: Ghost(Seq::new(len as nat, |k: int| seq![k as usize])),
        };
        proof {
            assert forall|k: int| 0 <= k < len implies #[trigger] forest.root_of(k) == k by {
                assert(forest.parent@[k] == k);
            }
            assert forall|r: int| 0 <= r < len && #[trigger] forest.parent@[r] == r implies root_list_wf(
                forest.parent@,
                forest.rank@,
                forest.bound@,
                forest.size@,
                forest.head@,
                forest.tail@,
                forest.next@,
                forest.lists@[r],
                r,
            ) by {
                let list = forest.lists@[r];
                assert(list == seq![r as usize]);
                assert(forest.root_of(r) == r);
                assert forall|i: int| 0 <= i < len && root_in(forest.parent@, forest.rank@, forest.bound@, i) == r
                    implies #[trigger] list.contains(i as usize) by {
                    assert(forest.root_of(i) == i);
                    assert(list[0] == i as usize);
                }
            }
        }
        forest
    }

    /// The root of the set of `index`, halving the path on the way: each
    /// node passed is pointed at its grandparent, which changes no set.
    pub fn find(&mut self, index: usize) -> (root: usize)
        requires
            old(self).wf(),
            index < old(self).len(),
        ensures
            final(self).wf(),
            final(self).len() == old(self).len(),
            root == old(self).root_of(index as int),
            forall|j: int| 0 <= j < old(self).len() ==> #[trigger] final(self).root_of(j) == old(self).root_of(j),
            forall|r: int| 0 <= r < old(self).len() ==> #[trigger] final(self).members(r) == old(self).members(r),
    {
        let ghost start = *self;
        let mut i = index;
        while self.parent[i] != i
            invariant
                self.wf(),
                self.len() == start.len(),
                i < self.len(),
                self.rank@ == start.rank@,
                self.bound@ == start.bound@,
                self.lists@ == start.lists@,
                self.size@ == start.size@,
                self.head@ == start.head@,
                self.tail@ == start.tail@,
                self.next@ == start.next@,
                forall|r: int| 0 <= r < start.len() ==> (#[trigger] self.parent@[r] == r <==> start.parent@[r] == r),
                self.root_of(i as int) == start.root_of(index as int),
                forall|j: int| 0 <= j < start.len() ==> #[trigger] self.root_of(j) == start.root_of(j),
            decreases self.height_left(i as int),
        {
            let ghost s0 = *self;
            let ghost before = self.parent@;
            let ghost rank = self.rank@;
            let ghost bound = self.bound@;
            let p = self.parent[i];
            let g = self.parent[p];
            proof {
                lemma_root_facts(before, rank, bound, i as int);
                lemma_root_facts(before, rank, bound, p as int);
            }
            self.parent.set(i, g);
            proof {
                let after = self.parent@;
                assert(forest_wf(after, rank, bound)) by {
                    assert forall|k: int| 0 <= k < after.len() && after[k] != k
                        implies rank[k] < #[trigger] rank[after[k] as int] by {
                        if k == i as int && g != p {
                            assert(rank[i as int] < rank[p as int]);
                        }
                    }
                }
                assert(root_in(before, rank, bound, g as int) == root_in(before, rank, bound, i as int)) by {
                    if g != p {
                        lemma_root_facts(before, rank, bound, g as int);
                    }
                }
                assert forall|j: int| 0 <= j < after.len() implies #[trigger] root_in(after, rank, bound, j)
                    == root_in(before, rank, bound, j) by {
                    lemma_reparent_keeps_roots(before, rank, bound, after, j);
                }
                assert forall|r: int| 0 <= r < after.len() implies (#[trigger] after[r] == r <==> before[r] == r) by {
                    if r == i as int {
                        assert(g != i) by {
                            if g != p {
                                assert(rank[i as int] < rank[p as int] && rank[p as int] < rank[g as int]);
                            }
                        }
                    }
                }
                assert forall|r: int| 0 <= r < after.len() && #[trigger] after[r] == r implies root_list_wf(
                    after,
                    rank,
                    bound,
                    self.size@,
                    self.head@,
                    self.tail@,
                    self.next@,
                    self.lists@[r],
                    r,
                ) by {
                    assert(before[r] == r);
                    let list = self.lists@[r];
                    assert(root_list_wf(before, rank, bound, self.size@, self.head@, self.tail@, self.next@, list, r));
                    assert forall|k: int| 0 <= k < list.len() implies (#[trigger] list[k]) < after.len()
                        && root_in(after, rank, bound, list[k] as int) == r by {
                        assert(root_in(after, rank, bound, list[k] as int) == root_in(before, rank, bound, list[k] as int));
                    }
                    assert forall|x: int| 0 <= x < after.len() && root_in(after, rank, bound, x) == r
                        implies #[trigger] list.contains(x as usize) by {
                        assert(root_in(after, rank, bound, x) == root_in(before, rank, bound, x));
                    }
                }
                assert forall|j: int| 0 <= j < start.len() implies #[trigger] self.root_of(j) == start.root_of(j) by {
                    assert(s0.root_of(j) == start.root_of(j));
                    assert(self.root_of(j) == root_in(after, rank, bound, j));
                }
                assert(self.root_of(g as int) == start.root_of(index as int)) by {
                    assert(self.root_of(g as int) == root_in(before, rank, bound, g as int));
                }
            }
            i = g;
        }
        proof {
            lemma_root_facts(self.parent@, self.rank@, self.bound@, i as int);
        }
        i
    }

    /// Joins the sets of `a` and `b` and returns the root of the joined set:
    /// the root of the larger set survives (the root of `a` when the sizes
    /// are equal), and the members of the other set are appended to its
    /// member list.
    #[verifier::spinoff_prover]
    #[verifier::rlimit(100)]
    pub fn union(&mut self, a: usize, b: usize) -> (root: usize)
        requires
            old(self).wf(),
            a < old(self).len(),
            b < old(self).len(),
        ensures
            final(self).wf(),
            final(self).len() == old(self).len(),
            ({
                let ra = old(self).root_of(a as int);
                let rb = old(self).root_of(b as int);
                let (survivor, absorbed) = if old(self).members(ra).len() < old(self).members(rb).len() {
                    (rb, ra)
                } else {
                    (ra, rb)
                };
                &&& root == survivor
                &&& forall|j: int| 0 <= j < old(self).len() ==> #[trigger] final(self).root_of(j)
                    == if old(self).root_of(j) == ra || old(self).root_of(j) == rb {
                    survivor
                } else {
                    old(self).root_of(j)
                }
                &&& ra != rb ==> final(self).members(survivor) == old(self).members(survivor) + old(self).members(absorbed)
                &&& ra == rb ==> final(self).members(survivor) == old(self).members(survivor)
                &&& forall|r: int| 0 <= r < old(self).len() && old(self).root_of(r) == r && r != ra && r != rb
                    ==> #[trigger] final(self).members(r) == old(self).members(r)
            }),
    {
        let ghost start = *self;
        proof {
            lemma_root_facts(start.parent@, start.rank@, start.bound@, a as int);
            lemma_root_facts(start.parent@, start.rank@, start.bound@, b as int);
        }
        let ra = self.find(a);
        let rb = self.find(b);
        let ghost found = *self;
        proof {
            assert(found.root_of(ra as int) == start.root_of(ra as int));
            assert(found.root_of(rb as int) == start.root_of(rb as int));
            lemma_root_facts(found.parent@, found.rank@, found.bound@, ra as int);
            lemma_root_facts(found.parent@, found.rank@, found.bound@, rb as int);
            assert(found.parent@[ra as int] == ra && found.parent@[rb as int] == rb);
            assert(found.members(ra as int) == start.members(ra as int));
            assert(found.members(rb as int) == start.members(rb as int));
            assert forall|r: int| 0 <= r < start.len() && start.root_of(r) == r && r != ra && r != rb
                implies #[trigger] found.members(r) == start.members(r) by {
                assert(found.members(r) == start.members(r));
            }
        }
        if ra == rb {
            proof {
                assert forall|j: int| 0 <= j < start.len() implies #[trigger] self.root_of(j) == start.root_of(j) by {
                    assert(found.root_of(j) == start.root_of(j));
                }
            }
            return ra;
        }
        let (survivor, absorbed) = if self.size[ra] < self.size[rb] {
            (rb, ra)
        } else {
            (ra, rb)
        };
        let ghost parent1 = self.parent@;
        let ghost rank1 = self.rank@;
        let ghost bound1 = self.bound@;
        let ghost next1 = self.next@;
        let ghost ls = self.lists@[survivor as int];
        let ghost lt = self.lists@[absorbed as int];
        let ghost n = parent1.len();
        proof {
            assert(root_list_wf(parent1, rank1, bound1, self.size@, self.head@, self.tail@, next1, ls, survivor as int));
            assert(root_list_wf(parent1, rank1, bound1, self.size@, self.head@, self.tail@, next1, lt, absorbed as int));
            lemma_lists_fit(parent1, rank1, bound1, ls, lt, survivor as int, absorbed as int);
        }
        self.parent.set(absorbed, survivor);
        let joined = self.size[survivor] + self.size[absorbed];
        self.size.set(survivor, joined);
        let survivor_tail = self.tail[survivor];
        let absorbed_head = self.head[absorbed];
        self.next.set(survivor_tail, absorbed_head);
        let absorbed_tail = self.tail[absorbed];
        self.tail.set(survivor, absorbed_tail);
        proof {
            let raised = if rank1[survivor as int] > rank1[absorbed as int] {
                rank1[survivor as int]
            } else {
                rank1[absorbed as int] + 1
            };
            self.rank = Ghost(rank1.update(survivor as int, raised));
            self.bound = Ghost(bound1 + 1);
            self.lists = Ghost(self.lists@.update(survivor as int, ls + lt));
            let parent2 = self.parent@;
            let rank2 = self.rank@;
            let bound2 = self.bound@;
            let next2 = self.next@;
            assert(forest_wf(parent2, rank2, bound2)) by {
                assert forall|i: int| 0 <= i < parent2.len() && parent2[i] != i
                    implies rank2[i] < #[trigger] rank2[parent2[i] as int] by {
                    if i != absorbed as int {
                        assert(parent2[i] == parent1[i]);
                        assert(i != survivor as int);
                    }
                }
            }
            assert forall|j: int| 0 <= j < n implies #[trigger] root_in(parent2, rank2, bound2, j)
                == if root_in(parent1, rank1, bound1, j) == absorbed as int {
                survivor as int
            } else {
                root_in(parent1, rank1, bound1, j)
            } by {
                lemma_union_roots(parent1, rank1, bound1, parent2, rank2, bound2, survivor as int, absorbed as int, j);
            }
            // The joined list.
            let joined_list = ls + lt;
            assert(threaded(next2, joined_list)) by {
                assert forall|k: int| 0 <= k < joined_list.len() - 1
                    implies #[trigger] next2[joined_list[k] as int] == joined_list[k + 1] by {
                    if k < ls.len() - 1 {
                        assert(joined_list[k] == ls[k]);
                        assert(ls[k] != ls.last());
                        assert(next1[ls[k] as int] == ls[k + 1]);
                    } else if k == ls.len() - 1 {
                        assert(joined_list[k] == survivor_tail);
                        assert(joined_list[k + 1] == lt[0]);
                    } else {
                        let m = k - ls.len();
                        assert(joined_list[k] == lt[m]);
                        assert(lt.contains(lt[m]));
                        assert(lt[m] != survivor_tail) by {
                            assert(ls.contains(ls.last()));
                        }
                        assert(next1[lt[m] as int] == lt[m + 1]);
                    }
                }
            }
            assert(next2[absorbed_tail as int] == LIST_END) by {
                assert(lt.contains(lt.last()));
                assert(ls.contains(ls.last()));
            }
            assert(joined_list.no_duplicates()) by {
                assert forall|i: int, j: int| 0 <= i < joined_list.len() && 0 <= j < joined_list.len() && i != j
                    implies joined_list[i] != joined_list[j] by {
                    if i < ls.len() && j >= ls.len() {
                        assert(ls.contains(joined_list[i]));
                        assert(lt[j - ls.len()] == joined_list[j]);
                        assert(lt.contains(joined_list[j]));
                    } else if j < ls.len() && i >= ls.len() {
                        assert(ls.contains(joined_list[j]));
                        assert(lt[i - ls.len()] == joined_list[i]);
                        assert(lt.contains(joined_list[i]));
                    } else if i < ls.len() {
                        assert(joined_list[i] == ls[i] && joined_list[j] == ls[j]);
                    } else {
                        assert(joined_list[i] == lt[i - ls.len()] && joined_list[j] == lt[j - ls.len()]);
                    }
                }
            }
            assert forall|r: int| 0 <= r < n && #[trigger] parent2[r] == r implies root_list_wf(
                parent2, rank2, bound2, self.size@, self.head@, self.tail@, next2, self.lists@[r], r,
            ) by {
                assert(r != absorbed as int);
                assert(parent1[r] == r);
                if r == survivor as int {
                    assert(self.lists@[r] == joined_list);
                    assert forall|k: int| 0 <= k < joined_list.len() implies (#[trigger] joined_list[k]) < parent2.len()
                        && root_in(parent2, rank2, bound2, joined_list[k] as int) == r by {
                        if k < ls.len() {
                            assert(joined_list[k] == ls[k]);
                        } else {
                            assert(joined_list[k] == lt[k - ls.len()]);
                        }
                    }
                    assert forall|i: int| 0 <= i < parent2.len() && root_in(parent2, rank2, bound2, i) == r
                        implies #[trigger] joined_list.contains(i as usize) by {
                        if root_in(parent1, rank1, bound1, i) == absorbed as int {
                            assert(lt.contains(i as usize));
                            let m = choose|m: int| 0 <= m < lt.len() && lt[m] == i as usize;
                            assert(joined_list[ls.len() + m] == i as usize);
                        } else {
                            assert(ls.contains(i as usize));
                            let m = choose|m: int| 0 <= m < ls.len() && ls[m] == i as usize;
                            assert(joined_list[m] == i as usize);
                        }
                    }
                } else {
                    let list = self.lists@[r];
                    assert(list == found.lists@[r]);
                    assert(root_list_wf(parent1, rank1, bound1, found.size@, found.head@, found.tail@, next1, list, r));
                    assert(!list.contains(survivor_tail)) by {
                        if list.contains(survivor_tail) {
                            let k = choose|k: int| 0 <= k < list.len() && list[k] == survivor_tail;
                            assert(ls.contains(ls.last()));
                            assert(root_in(parent1, rank1, bound1, list[k] as int) == r);
                        }
                    }
                    assert(threaded(next2, list)) by {
                        assert forall|k: int| 0 <= k < list.len() - 1 implies #[trigger] next2[list[k] as int] == list[k + 1] by {
                            assert(list.contains(list[k]));
                            assert(next1[list[k] as int] == list[k + 1]);
                        }
                    }
                    assert(list.contains(list.last()));
                    assert forall|k: int| 0 <= k < list.len() implies (#[trigger] list[k]) < parent2.len()
                        && root_in(parent2, rank2, bound2, list[k] as int) == r by {
                        assert(root_in(parent1, rank1, bound1, list[k] as int) == r);
                    }
                    assert forall|i: int| 0 <= i < parent2.len() && root_in(parent2, rank2, bound2, i) == r
                        implies #[trigger] list.contains(i as usize) by {
                        assert(root_in(parent1, rank1, bound1, i) == r);
                    }
                }
            }
            assert forall|j: int| 0 <= j < start.len() implies #[trigger] self.root_of(j)
                == if start.root_of(j) == ra || start.root_of(j) == rb {
                survivor as int
            } else {
                start.root_of(j)
            } by {
                assert(found.root_of(j) == start.root_of(j));
                assert(root_in(parent2, rank2, bound2, j) == if root_in(parent1, rank1, bound1, j) == absorbed as int {
                    survivor as int
                } else {
                    root_in(parent1, rank1, bound1, j)
                });
            }
            assert forall|r: int| 0 <= r < start.len() && start.root_of(r) == r && r != ra && r != rb
                implies #[trigger] self.members(r) == start.members(r) by {
                assert(found.members(r) == start.members(r));
            }
        }
        survivor
    }

    /// The members of the set whose root is `root`, walked along its member
    /// list.
    pub fn members_of(&self, root: usize) -> (cells: Vec<usize>)
        requires
            self.wf(),
            root < self.len(),
            self.root_of(root as int) == root,
        ensures
            cells@ == self.members(root as int),
    {
        proof {
            lemma_root_facts(self.parent@, self.rank@, self.bound@, root as int);
        }
        let ghost list = self.lists@[root as int];
        let mut cells: Vec<usize> = Vec::new();
        let mut cell = self.head[root];
        cells.push(cell);
        while self.next[cell] != LIST_END
            invariant
                self.wf(),
                self.parent@[root as int] == root,
                root < self.len(),
                list == self.lists@[root as int],
                root_list_wf(self.parent@, self.rank@, self.bound@, self.size@, self.head@, self.tail@, self.next@, list, root as int),
                1 <= cells@.len() <= list.len(),
                cells@ == list.subrange(0, cells@.len() as int),
                cell == list[cells@.len() - 1],
            decreases list.len() - cells@.len(),
        {
            let k = cells.len();
            proof {
                if k == list.len() {
                    assert(cell == list.last());
                }
                assert(k < list.len());
                assert(self.next@[list[k - 1] as int] == list[k as int]);
            }
            cell = self.next[cell];
            cells.push(cell);
            assert(cells@ =~= list.subrange(0, k + 1));
        }
        proof {
            let k = cells@.len();
            if k < list.len() {
                assert(self.next@[list[k - 1] as int] == list[k as int]);
                assert(list[k as int] < self.len());
            }
            assert(cells@ =~= list);
        }
        cells
    }

    /// Law: every node is listed among the members of its root, and the
    /// member lists of different roots share no node.
    pub proof fn lemma_members_partition(&self, i: int, r: int)
        requires
            self.wf(),
            0 <= i < self.len(),
            0 <= r < self.len(),
            self.root_of(r) == r,
        ensures
            self.members(self.root_of(i)).contains(i as usize),
            self.members(r).contains(i as usize) <==> self.root_of(i) == r,
    {
        lemma_root_facts(self.parent@, self.rank@, self.bound@, i);
        lemma_root_facts(self.parent@, self.rank@, self.bound@, r);
        let root = self.root_of(i);
        assert(self.parent@[root] == root);
        assert(self.parent@[r] == r);
        let list = self.lists@[r];
        if list.contains(i as usize) {
            let k = choose|k: int| 0 <= k < list.len() && list[k] == i as usize;
            assert(root_in(self.parent@, self.rank@, self.bound@, list[k] as int) == r);
        }
    }
}

} // verus!

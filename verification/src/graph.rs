//! Paths and reachability in a graph given by an edge relation and a set of
//! admissible nodes. Component searches over LiDAR tiles and raster cells are
//! specified and proved with these definitions.

use vstd::prelude::*;

verus! {

/// `path` is a non-empty walk through admissible nodes in which every step
/// follows an edge.
pub open spec fn is_walk(edge: spec_fn(int, int) -> bool, inside: spec_fn(int) -> bool, path: Seq<int>) -> bool {
    &&& path.len() > 0
    &&& forall|k: int| 0 <= k < path.len() ==> #[trigger] inside(path[k])
    &&& forall|k: int| 0 <= k < path.len() - 1 ==> edge(#[trigger] path[k], path[k + 1])
}

/// `b` can be reached from `a` by a walk through admissible nodes.
pub open spec fn linked(edge: spec_fn(int, int) -> bool, inside: spec_fn(int) -> bool, a: int, b: int) -> bool {
    exists|path: Seq<int>| #[trigger] is_walk(edge, inside, path) && path[0] == a && path.last() == b
}

/// The nodes reachable from `a`.
pub open spec fn component_of(edge: spec_fn(int, int) -> bool, inside: spec_fn(int) -> bool, a: int) -> Set<int> {
    Set::new(|b: int| linked(edge, inside, a, b))
}

/// The edge relation is symmetric.
pub open spec fn symmetric(edge: spec_fn(int, int) -> bool) -> bool {
    forall|a: int, b: int| #[trigger] edge(a, b) ==> edge(b, a)
}

/// Every admissible node adjacent to a node of `set` is in `set`.
pub open spec fn closed_under(edge: spec_fn(int, int) -> bool, inside: spec_fn(int) -> bool, set: Set<int>) -> bool {
    forall|a: int, b: int| set.contains(a) && #[trigger] edge(a, b) && inside(b) ==> set.contains(b)
}

/// An admissible node reaches itself.
pub proof fn lemma_linked_self(edge: spec_fn(int, int) -> bool, inside: spec_fn(int) -> bool, a: int)
    requires
        inside(a),
    ensures
        linked(edge, inside, a, a),
{
    let path = seq![a];
    assert(is_walk(edge, inside, path));
}

/// A walk to `b` followed by an edge to an admissible `c` reaches `c`.
pub proof fn lemma_linked_step(edge: spec_fn(int, int) -> bool, inside: spec_fn(int) -> bool, a: int, b: int, c: int)
    requires
        linked(edge, inside, a, b),
        edge(b, c),
        inside(c),
    ensures
        linked(edge, inside, a, c),
{
    let path = choose|path: Seq<int>| #[trigger] is_walk(edge, inside, path) && path[0] == a && path.last() == b;
    let longer = path.push(c);
    assert forall|k: int| 0 <= k < longer.len() - 1 implies edge(#[trigger] longer[k], longer[k + 1]) by {
        if k < path.len() - 1 {
            assert(longer[k] == path[k] && longer[k + 1] == path[k + 1]);
        }
    }
    assert(is_walk(edge, inside, longer));
}

/// Walks start and end at admissible nodes.
pub proof fn lemma_linked_inside(edge: spec_fn(int, int) -> bool, inside: spec_fn(int) -> bool, a: int, b: int)
    requires
        linked(edge, inside, a, b),
    ensures
        inside(a),
        inside(b),
{
    let path = choose|path: Seq<int>| #[trigger] is_walk(edge, inside, path) && path[0] == a && path.last() == b;
    assert(inside(path[0]));
    assert(inside(path[path.len() - 1]));
}

/// A set that holds `a` and is closed under admissible edges holds every
/// node reachable from `a`.
pub proof fn lemma_closed_holds_linked(edge: spec_fn(int, int) -> bool, inside: spec_fn(int) -> bool, set: Set<int>, a: int, b: int)
    requires
        set.contains(a),
        closed_under(edge, inside, set),
        linked(edge, inside, a, b),
    ensures
        set.contains(b),
{
    let path = choose|path: Seq<int>| #[trigger] is_walk(edge, inside, path) && path[0] == a && path.last() == b;
    lemma_closed_holds_walk_prefix(edge, inside, set, path, path.len() - 1);
}

proof fn lemma_closed_holds_walk_prefix(edge: spec_fn(int, int) -> bool, inside: spec_fn(int) -> bool, set: Set<int>, path: Seq<int>, k: int)
    requires
        is_walk(edge, inside, path),
        set.contains(path[0]),
        closed_under(edge, inside, set),
        0 <= k < path.len(),
    ensures
        set.contains(path[k]),
    decreases k,
{
    if k > 0 {
        lemma_closed_holds_walk_prefix(edge, inside, set, path, k - 1);
        assert(edge(path[k - 1], path[k]));
        assert(inside(path[k]));
    }
}

/// With a symmetric edge relation, reachability is symmetric.
pub proof fn lemma_linked_symmetric(edge: spec_fn(int, int) -> bool, inside: spec_fn(int) -> bool, a: int, b: int)
    requires
        symmetric(edge),
        linked(edge, inside, a, b),
    ensures
        linked(edge, inside, b, a),
{
    let path = choose|path: Seq<int>| #[trigger] is_walk(edge, inside, path) && path[0] == a && path.last() == b;
    let back = path.reverse();
    assert forall|k: int| 0 <= k < back.len() implies #[trigger] inside(back[k]) by {
        assert(back[k] == path[path.len() - 1 - k]);
    }
    assert forall|k: int| 0 <= k < back.len() - 1 implies edge(#[trigger] back[k], back[k + 1]) by {
        let j = path.len() - 2 - k;
        assert(back[k] == path[j + 1]);
        assert(back[k + 1] == path[j]);
        assert(edge(path[j], path[j + 1]));
    }
    assert(back[0] == b);
    assert(back.last() == a);
    assert(is_walk(edge, inside, back));
}

/// Reachability is transitive.
pub proof fn lemma_linked_transitive(edge: spec_fn(int, int) -> bool, inside: spec_fn(int) -> bool, a: int, b: int, c: int)
    requires
        linked(edge, inside, a, b),
        linked(edge, inside, b, c),
    ensures
        linked(edge, inside, a, c),
{
    let first = choose|path: Seq<int>| #[trigger] is_walk(edge, inside, path) && path[0] == a && path.last() == b;
    let second = choose|path: Seq<int>| #[trigger] is_walk(edge, inside, path) && path[0] == b && path.last() == c;
    let joined = first + second.drop_first();
    assert forall|k: int| 0 <= k < joined.len() implies #[trigger] inside(joined[k]) by {
        if k >= first.len() {
            assert(joined[k] == second[k - first.len() + 1]);
        }
    }
    assert forall|k: int| 0 <= k < joined.len() - 1 implies edge(#[trigger] joined[k], joined[k + 1]) by {
        if k < first.len() - 1 {
        } else if k == first.len() - 1 {
            assert(joined[k] == b);
            assert(joined[k + 1] == second[1]);
            assert(edge(second[0], second[1]));
        } else {
            assert(joined[k] == second[k - first.len() + 1]);
            assert(joined[k + 1] == second[k - first.len() + 2]);
            assert(edge(second[k - first.len() + 1], second[k - first.len() + 2]));
        }
    }
    if second.len() == 1 {
        assert(joined =~= first);
    } else {
        assert(joined.last() == second.last());
    }
    assert(is_walk(edge, inside, joined));
}

/// With a symmetric edge relation, every node of a component has that same
/// component.
pub proof fn lemma_component_shared(edge: spec_fn(int, int) -> bool, inside: spec_fn(int) -> bool, a: int, b: int)
    requires
        symmetric(edge),
        linked(edge, inside, a, b),
    ensures
        component_of(edge, inside, a) == component_of(edge, inside, b),
{
    lemma_linked_symmetric(edge, inside, a, b);
    assert forall|c: int| component_of(edge, inside, a).contains(c) <==> component_of(edge, inside, b).contains(c) by {
        if linked(edge, inside, a, c) {
            lemma_linked_transitive(edge, inside, b, a, c);
        }
        if linked(edge, inside, b, c) {
            lemma_linked_transitive(edge, inside, a, b, c);
        }
    }
    assert(component_of(edge, inside, a) =~= component_of(edge, inside, b));
}

} // verus!

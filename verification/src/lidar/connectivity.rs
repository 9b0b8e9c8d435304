//! Connected components of LiDAR tiles. Two tiles are connected when their
//! bounds lie within the shared touching margin of each other; that distance
//! test is made by the caller and handed over as an adjacency matrix.

use vstd::prelude::*;
use crate::filled::filled_bools;
use crate::graph::{closed_under, component_of, lemma_closed_holds_linked, lemma_linked_self, lemma_linked_step, lemma_linked_symmetric, lemma_linked_transitive, linked, symmetric};

verus! {

/// The adjacency matrix is square: row `i` says which tiles touch tile `i`.
pub open spec fn is_square(adjacency: Seq<Vec<bool>>) -> bool {
    forall|i: int| 0 <= i < adjacency.len() ==> #[trigger] adjacency[i]@.len() == adjacency.len()
}

/// Touching is mutual.
pub open spec fn is_mutual(adjacency: Seq<Vec<bool>>) -> bool {
    forall|i: int, j: int|
        0 <= i < adjacency.len() && 0 <= j < adjacency.len() ==> #[trigger] adjacency[i]@[j] == #[trigger] adjacency[j]@[i]
}

/// The touching relation between tile indices.
pub open spec fn touch_edge(adjacency: Seq<Vec<bool>>) -> spec_fn(int, int) -> bool {
    |a: int, b: int| 0 <= a < adjacency.len() && 0 <= b < adjacency.len() && adjacency[a]@[b]
}

/// Every tile index is admissible.
pub open spec fn tile_index(count: nat) -> spec_fn(int) -> bool {
    |a: int| 0 <= a < count
}

/// The tiles reachable from tile `a` through touching tiles.
pub open spec fn tile_component(adjacency: Seq<Vec<bool>>, a: int) -> Set<int> {
    component_of(touch_edge(adjacency), tile_index(adjacency.len()), a)
}

/// The indices are strictly increasing.
pub open spec fn strictly_increasing(indices: Seq<usize>) -> bool {
    forall|i: int, j: int| 0 <= i < j < indices.len() ==> indices[i] < indices[j]
}

/// The indices as a set of integers.
pub open spec fn index_set(indices: Seq<usize>) -> Set<int> {
    Set::new(|a: int| exists|k: int| 0 <= k < indices.len() && indices[k] == a)
}

/// `components` lists the connected components of the touching graph, each
/// once, each in increasing order, ordered by their smallest tile.
pub open spec fn is_component_listing(adjacency: Seq<Vec<bool>>, components: Seq<Vec<usize>>) -> bool {
    &&& forall|c: int| 0 <= c < components.len() ==> (#[trigger] components[c])@.len() > 0
    &&& forall|c: int| 0 <= c < components.len() ==> strictly_increasing((#[trigger] components[c])@)
    &&& forall|c: int| 0 <= c < components.len()
        ==> index_set((#[trigger] components[c])@) == tile_component(adjacency, components[c]@[0] as int)
    &&& forall|c: int, d: int| 0 <= c < d < components.len() ==> (#[trigger] components[c])@[0] < (#[trigger] components[d])@[0]
    &&& forall|t: int| 0 <= t < adjacency.len() ==> #[trigger] listed(components, t)
}

/// Tile `t` belongs to one of the listed components.
pub open spec fn listed(components: Seq<Vec<usize>>, t: int) -> bool {
    exists|c: int| 0 <= c < components.len() && #[trigger] index_set(components[c]@).contains(t)
}

spec fn visited_set(visited: Seq<bool>) -> Set<int> {
    Set::new(|t: int| 0 <= t < visited.len() && visited[t])
}

/// Groups the tiles into connected components of the touching relation.
/// Each component is sorted, and components come in the order of their
/// smallest tile.
pub fn connected_components(adjacency: &Vec<Vec<bool>>) -> (components: Vec<Vec<usize>>)
    requires
        is_square(adjacency@),
        is_mutual(adjacency@),
    ensures
        is_component_listing(adjacency@, components@),
{
    let len = adjacency.len();
    let ghost adj = adjacency@;
    let ghost edge = touch_edge(adj);
    let ghost inside = tile_index(adj.len());
    assert(symmetric(edge)) by {
        assert forall|a: int, b: int| #[trigger] edge(a, b) implies edge(b, a) by {
            assert(adj[a]@[b] == adj[b]@[a]);
        }
    }
    let mut visited = filled_bools(len, false);
    let mut components: Vec<Vec<usize>> = Vec::new();

    let mut start: usize = 0;
    while start < len
        invariant
            len == adj.len(),
            edge == touch_edge(adj),
            inside == tile_index(adj.len()),
            symmetric(edge),
            is_square(adj),
            adjacency@ == adj,
            start <= len,
            visited@.len() == len,
            closed_under(edge, inside, visited_set(visited@)),
            forall|t: int| 0 <= t < start ==> visited@[t],
            forall|t: int| 0 <= t < len ==> (visited@[t] <==> listed(components@, t)),
            forall|c: int| 0 <= c < components@.len() ==> (#[trigger] components@[c])@.len() > 0,
            forall|c: int| 0 <= c < components@.len() ==> strictly_increasing((#[trigger] components@[c])@),
            forall|c: int| 0 <= c < components@.len()
                ==> index_set((#[trigger] components@[c])@) == tile_component(adj, components@[c]@[0] as int),
            forall|c: int| 0 <= c < components@.len() ==> (#[trigger] components@[c])@[0] < start,
            forall|c: int, d: int| 0 <= c < d < components@.len() ==> (#[trigger] components@[c])@[0] < (#[trigger] components@[d])@[0],
        decreases len - start,
    {
        if visited[start] {
            start = start + 1;
            continue;
        }
        let ghost before = visited@;
        let ghost mut remaining = unvisited(visited@);
        proof {
            lemma_unvisited_finite(visited@);
            assert(remaining.contains(start as int));
        }
        visited.set(start, true);
        proof {
            remaining = remaining.remove(start as int);
        }
        let mut pending: Vec<usize> = Vec::new();
        pending.push(start);
        let mut component: Vec<usize> = Vec::new();
        proof {
            lemma_linked_self(edge, inside, start as int);
            assert(index_set(component@) =~= Set::empty());
            assert(index_set(pending@) =~= Set::empty().insert(start as int)) by {
                assert(pending@[0] == start);
            }
        }
        // `marked` holds this search's tiles: the ones already expanded
        // (`component`) followed by the ones still waiting (`pending`).
        while pending.len() > 0
            invariant
                len == adj.len(),
                edge == touch_edge(adj),
                inside == tile_index(adj.len()),
                symmetric(edge),
                is_square(adj),
                adjacency@ == adj,
                start < len,
                !before[start as int],
                before.len() == len,
                visited@.len() == len,
                closed_under(edge, inside, visited_set(before)),
                forall|t: int| 0 <= t < len ==> (visited@[t] <==> (before[t] || index_set(component@).contains(t) || index_set(pending@).contains(t))),
                forall|k: int| 0 <= k < component@.len() ==> !before[component@[k] as int] && component@[k] < len,
                forall|k: int| 0 <= k < pending@.len() ==> !before[pending@[k] as int] && pending@[k] < len,
                forall|k: int| 0 <= k < component@.len() ==> linked(edge, inside, start as int, #[trigger] component@[k] as int),
                forall|k: int| 0 <= k < pending@.len() ==> linked(edge, inside, start as int, #[trigger] pending@[k] as int),
                forall|k: int, t: int| 0 <= k < component@.len() && 0 <= t < len && #[trigger] adj[component@[k] as int]@[t] ==> visited@[t],
                visited@[start as int],
                remaining.finite(),
                remaining =~= unvisited(visited@),
            decreases remaining.len(), pending@.len(),
        {
            let ghost pending_before = pending@;
            let ghost remaining_before = remaining;
            let current = pending.pop().unwrap();
            proof {
                assert(pending_before == pending@.push(current));
                lemma_index_set_push(pending@, current);
            }
            let mut candidate: usize = 0;
            while candidate < len
                invariant
                    len == adj.len(),
                    edge == touch_edge(adj),
                    inside == tile_index(adj.len()),
                    is_square(adj),
                    adjacency@ == adj,
                    current < len,
                    !before[current as int],
                    linked(edge, inside, start as int, current as int),
                    candidate <= len,
                    before.len() == len,
                    visited@.len() == len,
                    visited@[current as int],
                    forall|t: int| 0 <= t < len ==> (visited@[t] <==> (before[t] || index_set(component@).contains(t) || index_set(pending@).contains(t) || t == current)),
                    forall|k: int| 0 <= k < pending@.len() ==> !before[pending@[k] as int] && pending@[k] < len,
                    forall|k: int| 0 <= k < pending@.len() ==> linked(edge, inside, start as int, #[trigger] pending@[k] as int),
                    forall|t: int| 0 <= t < candidate && adj[current as int]@[t] ==> #[trigger] visited@[t],
                    forall|k: int, t: int| 0 <= k < component@.len() && 0 <= t < len && #[trigger] adj[component@[k] as int]@[t] ==> visited@[t],
                    visited@[start as int],
                    remaining.finite(),
                    remaining =~= unvisited(visited@),
                    remaining.subset_of(remaining_before),
                    remaining.len() + pending@.len() + 1 == remaining_before.len() + pending_before.len(),
                decreases len - candidate,
            {
                if !visited[candidate] && adjacency[current][candidate] {
                    proof {
                        lemma_index_set_push(pending@, candidate);
                    }
                    visited.set(candidate, true);
                    pending.push(candidate);
                    proof {
                        assert(remaining.contains(candidate as int));
                        remaining = remaining.remove(candidate as int);
                    }
                    proof {
                        assert(edge(current as int, candidate as int));
                        lemma_linked_step(edge, inside, start as int, current as int, candidate as int);
                    }
                }
                candidate = candidate + 1;
            }
            proof {
                lemma_index_set_push(component@, current);
                vstd::set_lib::lemma_len_subset(remaining, remaining_before);
            }
            component.push(current);
        }
        // The search found exactly the tiles reachable from `start`.
        let ghost found = index_set(component@);
        proof {
            assert forall|a: int, b: int| found.contains(a) && #[trigger] edge(a, b) && inside(b) implies found.contains(b) by {
                let k = choose|k: int| 0 <= k < component@.len() && component@[k] == a;
                assert(visited@[b]);
                if before[b] {
                    assert(visited_set(before).contains(b));
                    assert(edge(b, a));
                    assert(visited_set(before).contains(a));
                    assert(false);
                }
                assert(index_set(component@).contains(b));
            }
            assert forall|b: int| tile_component(adj, start as int).contains(b) implies found.contains(b) by {
                assert(found.contains(start as int)) by {
                    assert(visited@[start as int]);
                    assert(!index_set(pending@).contains(start as int));
                }
                lemma_closed_holds_linked(edge, inside, found, start as int, b);
            }
        }
        let sorted = sorted_members(&component, len);
        proof {
            assert forall|b: int| found.contains(b) implies tile_component(adj, start as int).contains(b) by {
                let k = choose|k: int| 0 <= k < component@.len() && component@[k] == b;
                assert(linked(edge, inside, start as int, component@[k] as int));
            }
            assert(index_set(sorted@) =~= tile_component(adj, start as int));
            assert(index_set(sorted@).contains(start as int));
            // `start` is the smallest tile of its component.
            assert forall|k: int| 0 <= k < sorted@.len() implies sorted@[k] >= start by {
                assert(found.contains(sorted@[k] as int));
                let j = choose|j: int| 0 <= j < component@.len() && component@[j] == sorted@[k];
                if sorted@[k] < start {
                    assert(before[sorted@[k] as int]);
                }
            }
            let s0 = choose|k: int| 0 <= k < sorted@.len() && sorted@[k] == start;
            if s0 > 0 {
                assert(sorted@[0] < sorted@[s0]);
            }
            assert(sorted@[0] == start);
            // The visited tiles are still a union of closed components.
            assert forall|a: int, b: int| visited_set(visited@).contains(a) && #[trigger] edge(a, b) && inside(b)
                implies visited_set(visited@).contains(b) by {
                if before[a] {
                    assert(visited_set(before).contains(a));
                } else {
                    assert(found.contains(a));
                }
            }
        }
        let ghost old_components = components@;
        components.push(sorted);
        proof {
            assert forall|t: int| 0 <= t < len implies (visited@[t] <==> listed(components@, t)) by {
                if visited@[t] {
                    if before[t] {
                        assert(listed(old_components, t));
                        let c = choose|c: int| 0 <= c < old_components.len() && #[trigger] index_set(old_components[c]@).contains(t);
                        assert(components@[c] == old_components[c]);
                    } else {
                        assert(found.contains(t));
                        assert(index_set(components@[old_components.len() as int]@).contains(t));
                    }
                } else {
                    if listed(components@, t) {
                        let c = choose|c: int| 0 <= c < components@.len() && #[trigger] index_set(components@[c]@).contains(t);
                        if c < old_components.len() {
                            assert(components@[c] == old_components[c]);
                            assert(listed(old_components, t));
                        } else {
                            assert(found.contains(t));
                        }
                    }
                }
            }
            assert forall|t: int| 0 <= t < start + 1 implies visited@[t] by {
                if t < start {
                    assert(before[t]);
                }
            }
        }
        start = start + 1;
    }
    components
}

/// Law: in a component listing every tile belongs to exactly one component.
pub proof fn lemma_listing_is_partition(adjacency: Seq<Vec<bool>>, components: Seq<Vec<usize>>, t: int, c: int, d: int)
    requires
        is_square(adjacency),
        is_mutual(adjacency),
        is_component_listing(adjacency, components),
        0 <= c < components.len(),
        0 <= d < components.len(),
        index_set(components[c]@).contains(t),
        index_set(components[d]@).contains(t),
    ensures
        c == d,
{
    let edge = touch_edge(adjacency);
    let inside = tile_index(adjacency.len());
    assert(symmetric(edge)) by {
        assert forall|a: int, b: int| #[trigger] edge(a, b) implies edge(b, a) by {
            assert(adjacency[a]@[b] == adjacency[b]@[a]);
        }
    }
    let sc = components[c]@[0] as int;
    let sd = components[d]@[0] as int;
    assert(tile_component(adjacency, sc).contains(t));
    assert(tile_component(adjacency, sd).contains(t));
    lemma_linked_symmetric(edge, inside, sd, t);
    lemma_linked_transitive(edge, inside, sc, t, sd);
    lemma_linked_symmetric(edge, inside, sc, sd);
    // Each start is the smallest member of its component.
    assert(index_set(components[c]@).contains(sd));
    assert(index_set(components[d]@).contains(sc));
    let kc = choose|k: int| 0 <= k < components[c]@.len() && components[c]@[k] == sd;
    let kd = choose|k: int| 0 <= k < components[d]@.len() && components[d]@[k] == sc;
    if kc > 0 {
        assert(components[c]@[0] < components[c]@[kc]);
    }
    if kd > 0 {
        assert(components[d]@[0] < components[d]@[kd]);
    }
    if c < d {
        assert(components[c]@[0] < components[d]@[0]);
    } else if d < c {
        assert(components[d]@[0] < components[c]@[0]);
    }
}

/// Law: two touching tiles are listed in the same component, so touching is
/// carried transitively through chains of tiles.
pub proof fn lemma_touching_tiles_share_component(adjacency: Seq<Vec<bool>>, components: Seq<Vec<usize>>, i: int, j: int)
    requires
        is_square(adjacency),
        is_mutual(adjacency),
        is_component_listing(adjacency, components),
        0 <= i < adjacency.len(),
        0 <= j < adjacency.len(),
        adjacency[i]@[j],
    ensures
        exists|c: int| 0 <= c < components.len() && index_set(components[c]@).contains(i) && index_set(components[c]@).contains(j),
{
    let edge = touch_edge(adjacency);
    let inside = tile_index(adjacency.len());
    assert(listed(components, i));
    let c = choose|c: int| 0 <= c < components.len() && #[trigger] index_set(components[c]@).contains(i);
    let sc = components[c]@[0] as int;
    assert(tile_component(adjacency, sc).contains(i));
    assert(edge(i, j));
    lemma_linked_step(edge, inside, sc, i, j);
    assert(tile_component(adjacency, sc).contains(j));
}

/// The unmarked positions.
spec fn unvisited(visited: Seq<bool>) -> Set<int> {
    Set::new(|t: int| 0 <= t < visited.len() && !visited[t])
}

proof fn lemma_unvisited_finite(visited: Seq<bool>)
    ensures
        unvisited(visited).finite(),
{
    let range = Set::new(|t: int| 0 <= t < visited.len());
    assert(range =~= vstd::set_lib::set_int_range(0, visited.len() as int));
    vstd::set_lib::lemma_int_range(0, visited.len() as int);
    vstd::set_lib::lemma_len_subset(unvisited(visited), range);
}

/// Appending an index adds it to the index set.
pub proof fn lemma_index_set_push(indices: Seq<usize>, index: usize)
    ensures
        index_set(indices.push(index)) =~= index_set(indices).insert(index as int),
{
    let longer = indices.push(index);
    assert forall|a: int| index_set(longer).contains(a) <==> index_set(indices).contains(a) || a == index by {
        if index_set(longer).contains(a) {
            let k = choose|k: int| 0 <= k < longer.len() && longer[k] == a;
            if k < indices.len() {
                assert(indices[k] == a);
            }
        }
        if index_set(indices).contains(a) {
            let k = choose|k: int| 0 <= k < indices.len() && indices[k] == a;
            assert(longer[k] == a);
        }
        if a == index {
            assert(longer[indices.len() as int] == a);
        }
    }
}

/// The members of `members` in increasing order, found by scanning the
/// tile indices below `len`.
fn sorted_members(members: &Vec<usize>, len: usize) -> (sorted: Vec<usize>)
    requires
        forall|k: int| 0 <= k < members@.len() ==> members@[k] < len,
    ensures
        strictly_increasing(sorted@),
        index_set(sorted@) =~= index_set(members@),
        forall|k: int| 0 <= k < sorted@.len() ==> sorted@[k] < len,
{
    let mut in_members = filled_bools(len, false);
    let mut k: usize = 0;
    while k < members.len()
        invariant
            in_members@.len() == len,
            k <= members@.len(),
            forall|j: int| 0 <= j < members@.len() ==> members@[j] < len,
            forall|t: int| 0 <= t < len ==> (in_members@[t] <==> exists|j: int| 0 <= j < k && members@[j] == t),
        decreases members@.len() - k,
    {
        in_members.set(members[k], true);
        proof {
            assert forall|t: int| 0 <= t < len implies (in_members@[t] <==> exists|j: int| 0 <= j < k + 1 && members@[j] == t) by {
                if t == members@[k as int] {
                    assert(members@[k as int] == t);
                }
            }
        }
        k = k + 1;
    }
    let mut sorted: Vec<usize> = Vec::new();
    let mut t: usize = 0;
    while t < len
        invariant
            in_members@.len() == len,
            t <= len,
            strictly_increasing(sorted@),
            forall|j: int| 0 <= j < sorted@.len() ==> sorted@[j] < t,
            forall|u: int| 0 <= u < len ==> (in_members@[u] <==> index_set(members@).contains(u)),
            forall|u: int| index_set(sorted@).contains(u) <==> (0 <= u < t && in_members@[u]),
        decreases len - t,
    {
        if in_members[t] {
            let ghost old_sorted = sorted@;
            sorted.push(t);
            proof {
                assert forall|u: int| index_set(sorted@).contains(u) <==> (0 <= u < t + 1 && in_members@[u]) by {
                    if index_set(sorted@).contains(u) {
                        let j = choose|j: int| 0 <= j < sorted@.len() && sorted@[j] == u;
                        if j < old_sorted.len() {
                            assert(index_set(old_sorted).contains(u));
                        }
                    }
                    if 0 <= u < t + 1 && in_members@[u] {
                        if u < t {
                            assert(index_set(old_sorted).contains(u));
                            let j = choose|j: int| 0 <= j < old_sorted.len() && old_sorted[j] == u;
                            assert(sorted@[j] == u);
                        } else {
                            assert(sorted@[old_sorted.len() as int] == u);
                        }
                    }
                }
            }
        } else {
            proof {
                assert forall|u: int| index_set(sorted@).contains(u) <==> (0 <= u < t + 1 && in_members@[u]) by {
                }
            }
        }
        t = t + 1;
    }
    proof {
        assert forall|u: int| index_set(sorted@).contains(u) implies index_set(members@).contains(u) by {
            assert(0 <= u < len && in_members@[u]);
        }
        assert forall|u: int| index_set(members@).contains(u) implies index_set(sorted@).contains(u) by {
            let j = choose|j: int| 0 <= j < members@.len() && members@[j] == u;
            assert(u < len);
            assert(in_members@[u]);
        }
    }
    sorted
}

} // verus!

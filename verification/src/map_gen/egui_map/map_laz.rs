//! Connected groups of neighbouring LiDAR tiles for the map overview.

use vstd::prelude::*;

verus! {

/// A tile and the tiles found next to it.
pub struct NeighborList {
    pub center: usize,
    pub neighbors: Vec<usize>,
}

/// The tile sets of a list of components.
pub open spec fn component_sets(components: Seq<Vec<usize>>) -> Seq<Set<usize>> {
    Seq::new(components.len(), |c: int| components[c]@.to_set())
}

/// `b` is the first component that holds tile `tile`.
pub open spec fn is_first_holding(components: Seq<Set<usize>>, tile: usize, b: int) -> bool {
    &&& 0 <= b < components.len()
    &&& components[b].contains(tile)
    &&& forall|k: int| 0 <= k < b ==> !(#[trigger] components[k]).contains(tile)
}

/// The first component that holds `tile`, or -1 when none does.
pub open spec fn first_holding(components: Seq<Set<usize>>, tile: usize) -> int {
    if exists|b: int| is_first_holding(components, tile, b) {
        choose|b: int| is_first_holding(components, tile, b)
    } else {
        -1
    }
}

/// The components after a tile is placed: its neighbours join the first
/// component that holds the tile; a tile that no component holds starts a
/// new last component of itself and its neighbours.
pub open spec fn with_tile(components: Seq<Set<usize>>, center: usize, neighbors: Set<usize>) -> Seq<Set<usize>> {
    let b = first_holding(components, center);
    if b >= 0 {
        components.update(b, components[b].union(neighbors))
    } else {
        components.push(neighbors.insert(center))
    }
}

/// The components after `i` that share a tile with component `i`, among
/// those before `m`, in increasing order.
pub open spec fn overlapping_after(components: Seq<Set<usize>>, i: int, m: int) -> Seq<int>
    decreases m - i,
{
    if m <= i + 1 {
        Seq::empty()
    } else if !components[i].disjoint(components[m - 1]) {
        overlapping_after(components, i, m - 1).push(m - 1)
    } else {
        overlapping_after(components, i, m - 1)
    }
}

/// Component `i` takes in the components at `marks`, the last mark first:
/// each is swap-removed from the list (the last component moves into its
/// place) and its tiles join component `i`.
pub open spec fn absorbed(components: Seq<Set<usize>>, i: int, marks: Seq<int>) -> Seq<Set<usize>>
    decreases marks.len(),
{
    if marks.len() == 0 {
        components
    } else {
        let j = marks.last();
        if 0 <= i < j < components.len() {
            let removed = components.update(j, components.last()).drop_last();
            absorbed(removed.update(i, removed[i].union(components[j])), i, marks.drop_last())
        } else {
            absorbed(components, i, marks.drop_last())
        }
    }
}

/// Absorbing keeps component `i` and never lengthens the list.
pub proof fn lemma_absorbed_len(components: Seq<Set<usize>>, i: int, marks: Seq<int>)
    requires
        0 <= i < components.len(),
    ensures
        i < absorbed(components, i, marks).len() <= components.len(),
    decreases marks.len(),
{
    if marks.len() > 0 {
        let j = marks.last();
        if 0 <= i < j < components.len() {
            let removed = components.update(j, components.last()).drop_last();
            lemma_absorbed_len(removed.update(i, removed[i].union(components[j])), i, marks.drop_last());
        } else {
            lemma_absorbed_len(components, i, marks.drop_last());
        }
    }
}

/// One merging sweep from component `i` on: each component in turn takes in
/// every later component that shares a tile with it at the start of its
/// turn.
pub open spec fn merged_from(components: Seq<Set<usize>>, i: int) -> Seq<Set<usize>>
    decreases components.len() - i,
{
    if 0 <= i < components.len() {
        let next = absorbed(components, i, overlapping_after(components, i, components.len() as int));
        proof {
            lemma_absorbed_len(components, i, overlapping_after(components, i, components.len() as int));
        }
        merged_from(next, i + 1)
    } else {
        components
    }
}

/// The components after the first `k` tiles of the graph are placed, each
/// placement followed by a merging sweep.
pub open spec fn components_after(graph: Seq<NeighborList>, k: int) -> Seq<Set<usize>>
    decreases k,
{
    if k <= 0 {
        Seq::empty()
    } else {
        let placed = components_after(graph, k - 1);
        merged_from(with_tile(placed, graph[k - 1].center, graph[k - 1].neighbors@.to_set()), 0)
    }
}

/// Some component holds tile `tile`.
pub open spec fn grouped(components: Seq<Set<usize>>, tile: usize) -> bool {
    exists|c: int| 0 <= c < components.len() && (#[trigger] components[c]).contains(tile)
}

/// Some of the first `k` tiles of the graph is `tile` or lists it as a
/// neighbour.
pub open spec fn named(graph: Seq<NeighborList>, k: int, tile: usize) -> bool {
    exists|n: int| 0 <= n < k && ((#[trigger] graph[n]).center == tile || graph[n].neighbors@.contains(tile))
}

/// Absorbing neither loses nor adds a tile.
proof fn lemma_absorbed_groups(components: Seq<Set<usize>>, i: int, marks: Seq<int>, tile: usize)
    requires
        0 <= i < components.len(),
    ensures
        grouped(absorbed(components, i, marks), tile) == grouped(components, tile),
    decreases marks.len(),
{
    if marks.len() > 0 {
        let j = marks.last();
        if 0 <= i < j < components.len() {
            let removed = components.update(j, components.last()).drop_last();
            let next = removed.update(i, removed[i].union(components[j]));
            lemma_absorbed_groups(next, i, marks.drop_last(), tile);
            let last = components.len() - 1;
            if grouped(components, tile) {
                let c = choose|c: int| 0 <= c < components.len() && (#[trigger] components[c]).contains(tile);
                if c == j {
                    assert(next[i].contains(tile));
                } else if c == last {
                    assert(next[j].contains(tile));
                } else {
                    assert(next[c].contains(tile));
                }
            }
            if grouped(next, tile) {
                let c = choose|c: int| 0 <= c < next.len() && (#[trigger] next[c]).contains(tile);
                if c == i {
                    if components[i].contains(tile) {
                        assert(components[i].contains(tile));
                    } else {
                        assert(components[j].contains(tile));
                    }
                } else if c == j {
                    assert(components[last].contains(tile));
                } else {
                    assert(components[c].contains(tile));
                }
            }
        } else {
            lemma_absorbed_groups(components, i, marks.drop_last(), tile);
        }
    }
}

/// A merging sweep neither loses nor adds a tile.
proof fn lemma_merged_groups(components: Seq<Set<usize>>, i: int, tile: usize)
    ensures
        grouped(merged_from(components, i), tile) == grouped(components, tile),
    decreases components.len() - i,
{
    if 0 <= i < components.len() {
        let marks = overlapping_after(components, i, components.len() as int);
        let next = absorbed(components, i, marks);
        lemma_absorbed_len(components, i, marks);
        lemma_absorbed_groups(components, i, marks, tile);
        lemma_merged_groups(next, i + 1, tile);
    }
}

/// Law: once the first `k` tiles are placed, a tile is in some group
/// exactly when one of those tiles is it or lists it as a neighbour.
pub proof fn lemma_named_tiles_are_grouped(graph: Seq<NeighborList>, k: int, tile: usize)
    requires
        0 <= k <= graph.len(),
    ensures
        grouped(components_after(graph, k), tile) == named(graph, k, tile),
    decreases k,
{
    if k > 0 {
        let placed = components_after(graph, k - 1);
        let node = graph[k - 1];
        let neighbors = node.neighbors@.to_set();
        let next = with_tile(placed, node.center, neighbors);
        lemma_named_tiles_are_grouped(graph, k - 1, tile);
        lemma_merged_groups(next, 0, tile);
        let b = first_holding(placed, node.center);
        if b >= 0 {
            assert(is_first_holding(placed, node.center, b));
        }
        if grouped(next, tile) {
            let c = choose|c: int| 0 <= c < next.len() && (#[trigger] next[c]).contains(tile);
            if b >= 0 && c == b && !placed[b].contains(tile) {
                assert(node.neighbors@.contains(tile));
                assert(named(graph, k, tile));
            } else if b < 0 && c == placed.len() {
                assert(named(graph, k, tile));
            } else {
                assert(placed[c].contains(tile));
                assert(named(graph, k - 1, tile));
                let n = choose|n: int| 0 <= n < k - 1 && ((#[trigger] graph[n]).center == tile
                    || graph[n].neighbors@.contains(tile));
                assert(named(graph, k, tile));
            }
        }
        if named(graph, k, tile) {
            let n = choose|n: int| 0 <= n < k && ((#[trigger] graph[n]).center == tile
                || graph[n].neighbors@.contains(tile));
            if n < k - 1 {
                assert(named(graph, k - 1, tile));
                let c = choose|c: int| 0 <= c < placed.len() && (#[trigger] placed[c]).contains(tile);
                assert(next[c].contains(tile));
            } else if b >= 0 {
                if node.center == tile {
                    assert(next[b].contains(tile));
                } else {
                    assert(neighbors.contains(tile));
                    assert(next[b].contains(tile));
                }
            } else {
                assert(next[placed.len() as int].contains(tile));
            }
        }
    }
}

/// Some tile of the graph lists `b` as a neighbour of `a`, or `a` as one
/// of `b`.
pub open spec fn tiles_meet(graph: Seq<NeighborList>, a: usize, b: usize) -> bool {
    exists|n: int|
        0 <= n < graph.len() && (((#[trigger] graph[n]).center == a && graph[n].neighbors@.contains(b)) || (
        graph[n].center == b && graph[n].neighbors@.contains(a)))
}

/// Each tile of `chain` meets the next.
pub open spec fn is_chain(graph: Seq<NeighborList>, chain: Seq<usize>) -> bool {
    &&& chain.len() > 0
    &&& forall|s: int| 0 <= s < chain.len() - 1 ==> tiles_meet(graph, #[trigger] chain[s], chain[s + 1])
}

/// A chain of meeting tiles leads from `a` to `b`.
pub open spec fn linked(graph: Seq<NeighborList>, a: usize, b: usize) -> bool {
    exists|chain: Seq<usize>| #[trigger] is_chain(graph, chain) && chain[0] == a && chain.last() == b
}

/// Every two tiles of a component are linked.
pub open spec fn components_linked(graph: Seq<NeighborList>, components: Seq<Set<usize>>) -> bool {
    forall|c: int, a: usize, b: usize|
        0 <= c < components.len() && #[trigger] components[c].contains(a) && #[trigger] components[c].contains(b)
            ==> linked(graph, a, b)
}

/// A tile is linked to itself, and two meeting tiles are linked.
proof fn lemma_linked_step(graph: Seq<NeighborList>, a: usize, b: usize)
    ensures
        linked(graph, a, a),
        tiles_meet(graph, a, b) ==> linked(graph, a, b),
{
    assert(is_chain(graph, seq![a]));
    if tiles_meet(graph, a, b) {
        assert(is_chain(graph, seq![a, b]));
    }
}

/// Being linked is symmetric and transitive.
proof fn lemma_linked_joins(graph: Seq<NeighborList>, a: usize, b: usize, c: usize)
    ensures
        linked(graph, a, b) ==> linked(graph, b, a),
        linked(graph, a, b) && linked(graph, b, c) ==> linked(graph, a, c),
{
    if linked(graph, a, b) {
        let chain = choose|chain: Seq<usize>| #[trigger] is_chain(graph, chain) && chain[0] == a && chain.last() == b;
        let back = chain.reverse();
        assert forall|s: int| 0 <= s < back.len() - 1 implies tiles_meet(graph, #[trigger] back[s], back[s + 1]) by {
            let t = chain.len() - 2 - s;
            assert(tiles_meet(graph, chain[t], chain[t + 1]));
        }
        assert(is_chain(graph, back));
        if linked(graph, b, c) {
            let rest = choose|rest: Seq<usize>| #[trigger] is_chain(graph, rest) && rest[0] == b && rest.last() == c;
            let joined = chain + rest.drop_first();
            assert forall|s: int| 0 <= s < joined.len() - 1 implies tiles_meet(graph, #[trigger] joined[s], joined[s + 1]) by {
                if s < chain.len() - 1 {
                    assert(tiles_meet(graph, chain[s], chain[s + 1]));
                } else {
                    let t = s - chain.len() + 1;
                    assert(tiles_meet(graph, rest[t], rest[t + 1]));
                }
            }
            assert(is_chain(graph, joined));
            if rest.len() == 1 {
                assert(joined.last() == chain.last());
            } else {
                assert(joined.last() == rest.last());
            }
        }
    }
}

/// The marks of a sweep step lie after `i`, before `m`, in increasing
/// order, and each marked component shares a tile with component `i`.
proof fn lemma_overlapping_after(components: Seq<Set<usize>>, i: int, m: int)
    requires
        0 <= i,
        m <= components.len(),
    ensures
        forall|t: int| 0 <= t < overlapping_after(components, i, m).len() ==> {
            let j = #[trigger] overlapping_after(components, i, m)[t];
            &&& i < j < m
            &&& !components[i].disjoint(components[j])
        },
        forall|t: int, u: int| 0 <= t < u < overlapping_after(components, i, m).len()
            ==> #[trigger] overlapping_after(components, i, m)[t] < #[trigger] overlapping_after(components, i, m)[u],
    decreases m - i,
{
    if m > i + 1 {
        lemma_overlapping_after(components, i, m - 1);
        let prev = overlapping_after(components, i, m - 1);
        let cur = overlapping_after(components, i, m);
        if !components[i].disjoint(components[m - 1]) {
            assert(cur == prev.push(m - 1));
            assert forall|t: int| 0 <= t < cur.len() implies {
                let j = #[trigger] cur[t];
                &&& i < j < m
                &&& !components[i].disjoint(components[j])
            } by {
                if t < prev.len() {
                    assert(cur[t] == prev[t]);
                }
            }
            assert forall|t: int, u: int| 0 <= t < u < cur.len() implies #[trigger] cur[t] < #[trigger] cur[u] by {
                assert(cur[t] == prev[t]);
                if u < prev.len() {
                    assert(cur[u] == prev[u]);
                }
            }
        } else {
            assert(cur == prev);
        }
    }
}

/// Absorbing components that share a tile with component `i` keeps every
/// component linked.
proof fn lemma_absorbed_linked(graph: Seq<NeighborList>, components: Seq<Set<usize>>, i: int, marks: Seq<int>)
    requires
        0 <= i < components.len(),
        components_linked(graph, components),
        forall|t: int| 0 <= t < marks.len() ==> i < #[trigger] marks[t] < components.len() && !components[i].disjoint(
            components[marks[t]],
        ),
        forall|t: int, u: int| 0 <= t < u < marks.len() ==> #[trigger] marks[t] < #[trigger] marks[u],
    ensures
        components_linked(graph, absorbed(components, i, marks)),
    decreases marks.len(),
{
    if marks.len() > 0 {
        let j = marks.last();
        let removed = components.update(j, components.last()).drop_last();
        let next = removed.update(i, removed[i].union(components[j]));
        let shared = choose|z: usize| components[i].contains(z) && components[j].contains(z);
        assert forall|c: int, a: usize, b: usize|
            0 <= c < next.len() && #[trigger] next[c].contains(a) && #[trigger] next[c].contains(b) implies linked(graph, a, b) by {
            if c == i {
                if components[i].contains(a) && components[i].contains(b) {
                } else if components[j].contains(a) && components[j].contains(b) {
                } else if components[i].contains(a) {
                    assert(linked(graph, a, shared));
                    assert(linked(graph, shared, b));
                    lemma_linked_joins(graph, a, shared, b);
                } else {
                    assert(linked(graph, a, shared));
                    assert(linked(graph, shared, b));
                    lemma_linked_joins(graph, a, shared, b);
                }
            } else if c == j {
                assert(components[components.len() - 1].contains(a));
            } else {
                assert(components[c].contains(a));
            }
        }
        let rest = marks.drop_last();
        assert forall|t: int| 0 <= t < rest.len() implies i < #[trigger] rest[t] < next.len() && !next[i].disjoint(
            next[rest[t]],
        ) by {
            assert(marks[t] < marks[marks.len() - 1]);
            let z = choose|z: usize| components[i].contains(z) && components[marks[t]].contains(z);
            assert(next[i].contains(z) && next[rest[t]].contains(z));
        }
        lemma_absorbed_linked(graph, next, i, rest);
    }
}

/// A merging sweep keeps every component linked.
proof fn lemma_merged_linked(graph: Seq<NeighborList>, components: Seq<Set<usize>>, i: int)
    requires
        components_linked(graph, components),
    ensures
        components_linked(graph, merged_from(components, i)),
    decreases components.len() - i,
{
    if 0 <= i < components.len() {
        let marks = overlapping_after(components, i, components.len() as int);
        lemma_overlapping_after(components, i, components.len() as int);
        lemma_absorbed_len(components, i, marks);
        lemma_absorbed_linked(graph, components, i, marks);
        lemma_merged_linked(graph, absorbed(components, i, marks), i + 1);
    }
}

/// Law: every two tiles of one group, after any number of tiles are
/// placed, are linked by a chain of tiles each listed as a neighbour of the
/// next or listing it.
pub proof fn lemma_grouped_tiles_are_linked(graph: Seq<NeighborList>, k: int)
    requires
        0 <= k <= graph.len(),
    ensures
        components_linked(graph, components_after(graph, k)),
    decreases k,
{
    if k > 0 {
        lemma_grouped_tiles_are_linked(graph, k - 1);
        let placed = components_after(graph, k - 1);
        let node = graph[k - 1];
        let neighbors = node.neighbors@.to_set();
        let next = with_tile(placed, node.center, neighbors);
        let b = first_holding(placed, node.center);
        if b >= 0 {
            assert(is_first_holding(placed, node.center, b));
        }
        assert forall|c: int, x: usize, y: usize|
            0 <= c < next.len() && #[trigger] next[c].contains(x) && #[trigger] next[c].contains(y) implies linked(graph, x, y) by {
            let center = node.center;
            // Each tile of the changed group is linked to the center.
            assert forall|t: usize| next[c].contains(t) && (b < 0 && c == placed.len() || c == b) implies linked(graph, center, t) by {
                if neighbors.contains(t) {
                    assert(tiles_meet(graph, center, t)) by {
                        assert(graph[k - 1].center == center && graph[k - 1].neighbors@.contains(t));
                    }
                    lemma_linked_step(graph, center, t);
                } else if t == center {
                    lemma_linked_step(graph, center, t);
                } else {
                    assert(placed[c].contains(t) && placed[c].contains(center));
                }
            }
            if (b < 0 && c == placed.len()) || c == b {
                lemma_linked_joins(graph, center, x, x);
                lemma_linked_joins(graph, x, center, y);
            } else {
                assert(placed[c].contains(x) && placed[c].contains(y));
            }
        }
        lemma_merged_linked(graph, next, 0);
    }
}

/// Every component lists each of its tiles once.
pub open spec fn lists_once(components: Seq<Vec<usize>>) -> bool {
    forall|c: int| 0 <= c < components.len() ==> (#[trigger] components[c])@.no_duplicates()
}

/// Whether `value` occurs in `values`.
fn lists(values: &Vec<usize>, value: usize) -> (found: bool)
    ensures
        found == values@.contains(value),
{
    let mut k: usize = 0;
    while k < values.len()
        invariant
            k <= values@.len(),
            forall|j: int| 0 <= j < k ==> values@[j] != value,
        decreases values@.len() - k,
    {
        if values[k] == value {
            return true;
        }
        k = k + 1;
    }
    false
}

/// Adds the tiles of `tiles` that `component` lacks.
fn take_in(component: &mut Vec<usize>, tiles: &Vec<usize>)
    requires
        old(component)@.no_duplicates(),
    ensures
        final(component)@.no_duplicates(),
        final(component)@.to_set() == old(component)@.to_set().union(tiles@.to_set()),
{
    let mut k: usize = 0;
    while k < tiles.len()
        invariant
            k <= tiles@.len(),
            component@.no_duplicates(),
            component@.to_set() == old(component)@.to_set().union(tiles@.subrange(0, k as int).to_set()),
        decreases tiles@.len() - k,
    {
        let tile = tiles[k];
        let ghost held = component@;
        if !lists(component, tile) {
            component.push(tile);
            proof {
                held.lemma_push_to_set_commute(tile);
            }
        } else {
            assert(held.to_set().insert(tile) =~= held.to_set());
        }
        assert(tiles@.subrange(0, k + 1) =~= tiles@.subrange(0, k as int).push(tile));
        proof {
            tiles@.subrange(0, k as int).lemma_push_to_set_commute(tile);
        }
        assert(component@.to_set() =~= old(component)@.to_set().union(tiles@.subrange(0, k + 1).to_set()));
        k = k + 1;
    }
    assert(tiles@.subrange(0, tiles@.len() as int) =~= tiles@);
}

/// Whether the two components share a tile.
fn share_a_tile(a: &Vec<usize>, b: &Vec<usize>) -> (shared: bool)
    ensures
        shared == !a@.to_set().disjoint(b@.to_set()),
{
    let mut k: usize = 0;
    while k < a.len()
        invariant
            k <= a@.len(),
            forall|j: int| 0 <= j < k ==> !b@.contains(#[trigger] a@[j]),
        decreases a@.len() - k,
    {
        if lists(b, a[k]) {
            assert(a@.to_set().contains(a@[k as int]));
            return true;
        }
        k = k + 1;
    }
    assert forall|tile: usize| a@.to_set().contains(tile) implies !b@.to_set().contains(tile) by {
        let j = choose|j: int| 0 <= j < a@.len() && a@[j] == tile;
        assert(!b@.contains(a@[j]));
    }
    false
}

/// The first component that holds `tile`.
fn first_component_holding(components: &Vec<Vec<usize>>, tile: usize) -> (b: Option<usize>)
    ensures
        match b {
            Some(b) => is_first_holding(component_sets(components@), tile, b as int),
            None => first_holding(component_sets(components@), tile) == -1,
        },
{
    let ghost sets = component_sets(components@);
    let mut k: usize = 0;
    while k < components.len()
        invariant
            sets == component_sets(components@),
            k <= components@.len(),
            forall|j: int| 0 <= j < k ==> !(#[trigger] sets[j]).contains(tile),
        decreases components@.len() - k,
    {
        if lists(&components[k], tile) {
            assert(is_first_holding(sets, tile, k as int));
            return Some(k);
        }
        k = k + 1;
    }
    assert(!exists|b: int| is_first_holding(sets, tile, b));
    None
}

/// The components after `i` that share a tile with component `i`.
fn overlapping_components(components: &Vec<Vec<usize>>, i: usize) -> (marks: Vec<usize>)
    requires
        i < components.len(),
    ensures
        marks@.map_values(|j: usize| j as int) == overlapping_after(
            component_sets(components@),
            i as int,
            components@.len() as int,
        ),
{
    let ghost sets = component_sets(components@);
    let mut marks: Vec<usize> = Vec::new();
    let mut m: usize = i + 1;
    while m < components.len()
        invariant
            sets == component_sets(components@),
            i < m <= components@.len(),
            marks@.map_values(|j: usize| j as int) == overlapping_after(sets, i as int, m as int),
        decreases components@.len() - m,
    {
        let ghost before = marks@;
        if share_a_tile(&components[i], &components[m]) {
            marks.push(m);
            assert(marks@.map_values(|j: usize| j as int) =~= before.map_values(|j: usize| j as int).push(
                m as int,
            ));
        }
        m = m + 1;
    }
    marks
}

/// One merging sweep over the components.
fn merge_sweep(components: &mut Vec<Vec<usize>>)
    requires
        lists_once(old(components)@),
    ensures
        lists_once(final(components)@),
        component_sets(final(components)@) == merged_from(component_sets(old(components)@), 0),
{
    let ghost goal = merged_from(component_sets(components@), 0);
    let mut i: usize = 0;
    while i < components.len()
        invariant
            lists_once(components@),
            merged_from(component_sets(components@), i as int) == goal,
        decreases components@.len() - i,
    {
        let ghost start = component_sets(components@);
        let ghost old_len = components@.len();
        let marks = overlapping_components(components, i);
        let ghost all_marks = marks@.map_values(|j: usize| j as int);
        assert(all_marks.take(all_marks.len() as int) =~= all_marks);
        let mut r: usize = marks.len();
        while r > 0
            invariant
                lists_once(components@),
                i < components@.len(),
                components@.len() <= start.len(),
                start.len() == old_len,
                r <= marks@.len(),
                all_marks == marks@.map_values(|j: usize| j as int),
                absorbed(component_sets(components@), i as int, all_marks.take(r as int)) == absorbed(
                    start,
                    i as int,
                    all_marks,
                ),
            decreases r,
        {
            let ghost here = component_sets(components@);
            let ghost before = components@;
            let j = marks[r - 1];
            assert(all_marks.take(r as int).drop_last() =~= all_marks.take(r - 1));
            assert(all_marks.take(r as int).last() == j as int);
            if i < j && j < components.len() {
                let taken = components.swap_remove(j);
                let ghost removed = components@;
                assert(component_sets(removed) =~= here.update(j as int, here.last()).drop_last());
                take_in(&mut components[i], &taken);
                assert(component_sets(components@) =~= component_sets(removed).update(
                    i as int,
                    component_sets(removed)[i as int].union(here[j as int]),
                ));
                assert forall|c: int| 0 <= c < components@.len() implies (#[trigger] components@[c])@.no_duplicates() by {
                    if c != i {
                        assert(components@[c] == removed[c]);
                        if c == j {
                            assert(removed[c] == before.last());
                        } else {
                            assert(removed[c] == before[c]);
                        }
                    }
                }
            }
            r = r - 1;
        }
        assert(all_marks.take(0) =~= Seq::<int>::empty());
        i = i + 1;
    }
}

/// Groups the tiles as the map overview does: tile by tile, the tile's
/// neighbours join the first group that holds the tile, or the tile and its
/// neighbours start a new group; after each tile, one sweep merges every
/// group into an earlier one that shares a tile with it, a merged group
/// leaving its place to the last group. Each group lists its tiles once, in
/// no promised order.
pub fn connected_components(graph: &Vec<NeighborList>) -> (components: Vec<Vec<usize>>)
    ensures
        lists_once(components@),
        component_sets(components@) == components_after(graph@, graph@.len() as int),
{
    let mut components: Vec<Vec<usize>> = Vec::new();
    let mut k: usize = 0;
    while k < graph.len()
        invariant
            k <= graph@.len(),
            lists_once(components@),
            component_sets(components@) == components_after(graph@, k as int),
        decreases graph@.len() - k,
    {
        let node = &graph[k];
        let ghost sets = component_sets(components@);
        match first_component_holding(&components, node.center) {
            Some(b) => {
                let ghost before = components@;
                take_in(&mut components[b], &node.neighbors);
                proof {
                    let s = choose|s: int| is_first_holding(sets, node.center, s);
                    assert(is_first_holding(sets, node.center, b as int));
                    assert(s == b as int) by {
                        if s < b {
                            assert(!sets[s].contains(node.center));
                        } else if s > b {
                            assert(!sets[b as int].contains(node.center));
                        }
                    }
                    assert(component_sets(components@) =~= with_tile(sets, node.center, node.neighbors@.to_set()));
                    assert forall|c: int| 0 <= c < components@.len() implies (#[trigger] components@[c])@.no_duplicates() by {
                        if c != b {
                            assert(components@[c] == before[c]);
                        }
                    }
                }
            },
            None => {
                let mut group: Vec<usize> = Vec::new();
                proof {
                    group@.lemma_push_to_set_commute(node.center);
                    assert(group@.to_set() =~= Set::<usize>::empty());
                }
                group.push(node.center);
                take_in(&mut group, &node.neighbors);
                proof {
                    assert(group@.to_set() =~= node.neighbors@.to_set().insert(node.center));
                }
                components.push(group);
                proof {
                    assert(component_sets(components@) =~= with_tile(sets, node.center, node.neighbors@.to_set()));
                }
            },
        }
        merge_sweep(&mut components);
        k = k + 1;
    }
    components
}

} // verus!

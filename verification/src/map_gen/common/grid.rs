//! Raster cells in row-major order: coordinates, 4- and 8-neighbourhoods and
//! breadth-first search of the connected cells of one mask value.

use vstd::prelude::*;
use std::collections::VecDeque;
use crate::graph::{closed_under, component_of, lemma_closed_holds_linked, lemma_component_shared, lemma_linked_inside, lemma_linked_self, lemma_linked_step, linked, symmetric};
use crate::filled::filled_bools;
use crate::lidar::connectivity::index_set;

verus! {

/// Cells `a` and `b` of a `width` x `height` raster are neighbours: they
/// differ by one step along a row or column, or, with `eight`, also
/// diagonally.
pub open spec fn grid_adjacent(width: int, height: int, eight: bool, a: int, b: int) -> bool {
    &&& width > 0
    &&& 0 <= a < width * height
    &&& 0 <= b < width * height
    &&& a != b
    &&& {
        let dy = a / width - b / width;
        let dx = a % width - b % width;
        if eight {
            -1 <= dy <= 1 && -1 <= dx <= 1
        } else {
            (dy == 0 && (dx == 1 || dx == -1)) || (dx == 0 && (dy == 1 || dy == -1))
        }
    }
}

/// The neighbour relation as an edge relation.
pub open spec fn grid_edge(width: int, height: int, eight: bool) -> spec_fn(int, int) -> bool {
    |a: int, b: int| grid_adjacent(width, height, eight, a, b)
}

/// Cells whose mask value is `target`.
pub open spec fn cell_has(mask: Seq<bool>, target: bool) -> spec_fn(int) -> bool {
    |a: int| 0 <= a < mask.len() && mask[a] == target
}

/// The cells with value `target` connected to `start` through such cells.
pub open spec fn mask_component(mask: Seq<bool>, width: int, height: int, eight: bool, target: bool, start: int) -> Set<int> {
    component_of(grid_edge(width, height, eight), cell_has(mask, target), start)
}

/// The cells marked in `marks`.
pub open spec fn marked(marks: Seq<bool>) -> Set<int> {
    Set::new(|a: int| 0 <= a < marks.len() && marks[a])
}

/// The cells not marked in `marks`.
pub open spec fn unmarked(marks: Seq<bool>) -> Set<int> {
    Set::new(|a: int| 0 <= a < marks.len() && !marks[a])
}

/// Cell `c` lies on the outer border of the raster.
pub open spec fn on_border(width: int, height: int, c: int) -> bool {
    c / width == 0 || c % width == 0 || c / width + 1 == height || c % width + 1 == width
}

/// The row-major index of row `y`, column `x` is in range and gives back
/// the row and column.
pub proof fn lemma_cell_index(width: int, height: int, y: int, x: int)
    requires
        0 <= y < height,
        0 <= x < width,
    ensures
        0 <= y * width + x < width * height,
        (y * width + x) / width == y,
        (y * width + x) % width == x,
{
    assert(0 <= y * width) by (nonlinear_arith)
        requires
            0 <= y,
            0 < width,
    ;
    assert(y * width + x < width * height) by (nonlinear_arith)
        requires
            0 <= y < height,
            0 <= x < width,
    ;
    vstd::arithmetic::div_mod::lemma_fundamental_div_mod_converse(y * width + x, width, y, x);
}

/// A cell index in range splits into a row below `height` and a column
/// below `width`.
pub proof fn lemma_cell_coords(width: int, height: int, c: int)
    requires
        width > 0,
        0 <= c < width * height,
    ensures
        c == (c / width) * width + c % width,
        0 <= c / width < height,
        0 <= c % width < width,
{
    vstd::arithmetic::div_mod::lemma_fundamental_div_mod(c, width);
    vstd::arithmetic::div_mod::lemma_mod_bound(c, width);
    vstd::arithmetic::div_mod::lemma_div_pos_is_pos(c, width);
    let q = c / width;
    let r = c % width;
    assert(width * q == q * width) by (nonlinear_arith);
    if q >= height {
        assert(q * width >= height * width) by (nonlinear_arith)
            requires
                q >= height,
                width > 0,
        ;
        assert(height * width == width * height) by (nonlinear_arith);
    }
}

/// The neighbour relation is symmetric.
pub proof fn lemma_grid_symmetric(width: int, height: int, eight: bool)
    ensures
        symmetric(grid_edge(width, height, eight)),
{
}

/// Appends the index of row `ny`, column `nx`, a neighbour of row `y`,
/// column `x`.
fn push_neighbor(output: &mut Vec<usize>, y: usize, x: usize, ny: usize, nx: usize, width: usize, height: usize, eight: bool)
    requires
        y < height,
        x < width,
        ny < height,
        nx < width,
        width * height <= usize::MAX,
        grid_adjacent(width as int, height as int, eight, y * width + x, ny * width + nx),
        forall|k: int| 0 <= k < old(output)@.len()
            ==> grid_adjacent(width as int, height as int, eight, y * width + x, #[trigger] old(output)@[k] as int),
    ensures
        final(output)@ == old(output)@.push((ny * width + nx) as usize),
        index_set(final(output)@) == index_set(old(output)@).insert(ny * width + nx),
        forall|k: int| 0 <= k < final(output)@.len()
            ==> grid_adjacent(width as int, height as int, eight, y * width + x, #[trigger] final(output)@[k] as int),
{
    proof {
        lemma_cell_index(width as int, height as int, ny as int, nx as int);
        crate::lidar::connectivity::lemma_index_set_push(old(output)@, (ny * width + nx) as usize);
    }
    output.push(ny * width + nx);
    proof {
        assert forall|k: int| 0 <= k < output@.len()
            implies grid_adjacent(width as int, height as int, eight, y * width + x, #[trigger] output@[k] as int) by {
            if k < old(output)@.len() {
                assert(output@[k] == old(output)@[k]);
            }
        }
    }
}

/// Row `ny`, column `nx` is a neighbour of row `y`, column `x` exactly when
/// the coordinates differ by an allowed step.
proof fn lemma_neighbor_step(width: int, height: int, eight: bool, y: int, x: int, ny: int, nx: int)
    requires
        0 <= y < height,
        0 <= x < width,
        0 <= ny < height,
        0 <= nx < width,
        !(ny == y && nx == x),
        if eight {
            -1 <= ny - y <= 1 && -1 <= nx - x <= 1
        } else {
            (ny == y && (nx - x == 1 || nx - x == -1)) || (nx == x && (ny - y == 1 || ny - y == -1))
        },
    ensures
        grid_adjacent(width, height, eight, y * width + x, ny * width + nx),
{
    lemma_cell_index(width, height, y, x);
    lemma_cell_index(width, height, ny, nx);
}

/// A neighbour of row `y`, column `x` lies one allowed step away.
proof fn lemma_neighbor_coords(width: int, height: int, eight: bool, y: int, x: int, b: int)
    requires
        0 <= y < height,
        0 <= x < width,
        grid_adjacent(width, height, eight, y * width + x, b),
    ensures
        b == (b / width) * width + b % width,
        0 <= b / width < height,
        0 <= b % width < width,
        !(b / width == y && b % width == x),
        if eight {
            -1 <= b / width - y <= 1 && -1 <= b % width - x <= 1
        } else {
            (b / width == y && (b % width - x == 1 || b % width - x == -1))
                || (b % width == x && (b / width - y == 1 || b / width - y == -1))
        },
{
    lemma_cell_index(width, height, y, x);
    lemma_cell_coords(width, height, b);
}

/// The index of row `ny`, column `nx` if that cell is on the raster, as a
/// sequence of zero or one index.
pub open spec fn step_cell(width: int, height: int, ny: int, nx: int) -> Seq<usize> {
    if 0 <= ny < height && 0 <= nx < width {
        seq![(ny * width + nx) as usize]
    } else {
        Seq::empty()
    }
}

/// The 4-neighbours of row `y`, column `x` that are on the raster: above,
/// right, below, left.
pub open spec fn neighbors4_seq(width: int, height: int, y: int, x: int) -> Seq<usize> {
    step_cell(width, height, y - 1, x) + step_cell(width, height, y, x + 1) + step_cell(width, height, y + 1, x)
        + step_cell(width, height, y, x - 1)
}

/// The 8-neighbours of row `y`, column `x` that are on the raster, row by
/// row from the row above, left to right within a row.
pub open spec fn neighbors8_seq(width: int, height: int, y: int, x: int) -> Seq<usize> {
    step_cell(width, height, y - 1, x - 1) + step_cell(width, height, y - 1, x) + step_cell(width, height, y - 1, x + 1)
        + step_cell(width, height, y, x - 1) + step_cell(width, height, y, x + 1) + step_cell(width, height, y + 1, x - 1)
        + step_cell(width, height, y + 1, x) + step_cell(width, height, y + 1, x + 1)
}

/// The in-range 4-neighbours of row `y`, column `x`: above, right, below,
/// left.
pub fn neighbors4(y: usize, x: usize, width: usize, height: usize) -> (output: Vec<usize>)
    requires
        y < height,
        x < width,
        width * height <= usize::MAX,
    ensures
        output@ == neighbors4_seq(width as int, height as int, y as int, x as int),
        output@.len() <= 4,
        forall|k: int| 0 <= k < output@.len()
            ==> grid_adjacent(width as int, height as int, false, y * width + x, #[trigger] output@[k] as int),
        forall|b: int| grid_adjacent(width as int, height as int, false, y * width + x, b)
            ==> #[trigger] index_set(output@).contains(b),
{
    let mut output = Vec::with_capacity(4);
    let ghost (w, h) = (width as int, height as int);
    if y > 0 {
        proof { lemma_neighbor_step(w, h, false, y as int, x as int, y - 1, x as int); }
        push_neighbor(&mut output, y, x, y - 1, x, width, height, false);
    }
    if x + 1 < width {
        proof { lemma_neighbor_step(w, h, false, y as int, x as int, y as int, x + 1); }
        push_neighbor(&mut output, y, x, y, x + 1, width, height, false);
    }
    if y + 1 < height {
        proof { lemma_neighbor_step(w, h, false, y as int, x as int, y + 1, x as int); }
        push_neighbor(&mut output, y, x, y + 1, x, width, height, false);
    }
    if x > 0 {
        proof { lemma_neighbor_step(w, h, false, y as int, x as int, y as int, x - 1); }
        push_neighbor(&mut output, y, x, y, x - 1, width, height, false);
    }
    proof {
        assert forall|b: int| grid_adjacent(w, h, false, y * width + x, b)
            implies #[trigger] index_set(output@).contains(b) by {
            lemma_neighbor_coords(w, h, false, y as int, x as int, b);
        }
    }
    assert(output@ =~= neighbors4_seq(w, h, y as int, x as int));
    output
}

/// The in-range 8-neighbours of row `y`, column `x`, row by row from the
/// row above to the row below, left to right within a row.
#[verifier::rlimit(100)]
pub fn neighbors8(y: usize, x: usize, width: usize, height: usize) -> (output: Vec<usize>)
    requires
        y < height,
        x < width,
        width * height <= usize::MAX,
    ensures
        output@ == neighbors8_seq(width as int, height as int, y as int, x as int),
        output@.len() <= 8,
        forall|k: int| 0 <= k < output@.len()
            ==> grid_adjacent(width as int, height as int, true, y * width + x, #[trigger] output@[k] as int),
        forall|b: int| grid_adjacent(width as int, height as int, true, y * width + x, b)
            ==> #[trigger] index_set(output@).contains(b),
{
    let mut output = Vec::with_capacity(8);
    let ghost (w, h) = (width as int, height as int);
    let up = y > 0;
    let down = y + 1 < height;
    let left = x > 0;
    let right = x + 1 < width;
    let ghost mut expected: Seq<usize> = Seq::empty();
    if up && left {
        proof { lemma_neighbor_step(w, h, true, y as int, x as int, y - 1, x - 1); }
        push_neighbor(&mut output, y, x, y - 1, x - 1, width, height, true);
    }
    proof {
        expected = expected + step_cell(w, h, y - 1, x - 1);
        assert(output@ =~= expected);
    }
    if up {
        proof { lemma_neighbor_step(w, h, true, y as int, x as int, y - 1, x as int); }
        push_neighbor(&mut output, y, x, y - 1, x, width, height, true);
    }
    proof {
        expected = expected + step_cell(w, h, y - 1, x as int);
        assert(output@ =~= expected);
    }
    if up && right {
        proof { lemma_neighbor_step(w, h, true, y as int, x as int, y - 1, x + 1); }
        push_neighbor(&mut output, y, x, y - 1, x + 1, width, height, true);
    }
    proof {
        expected = expected + step_cell(w, h, y - 1, x + 1);
        assert(output@ =~= expected);
    }
    if left {
        proof { lemma_neighbor_step(w, h, true, y as int, x as int, y as int, x - 1); }
        push_neighbor(&mut output, y, x, y, x - 1, width, height, true);
    }
    proof {
        expected = expected + step_cell(w, h, y as int, x - 1);
        assert(output@ =~= expected);
    }
    if right {
        proof { lemma_neighbor_step(w, h, true, y as int, x as int, y as int, x + 1); }
        push_neighbor(&mut output, y, x, y, x + 1, width, height, true);
    }
    proof {
        expected = expected + step_cell(w, h, y as int, x + 1);
        assert(output@ =~= expected);
    }
    if down && left {
        proof { lemma_neighbor_step(w, h, true, y as int, x as int, y + 1, x - 1); }
        push_neighbor(&mut output, y, x, y + 1, x - 1, width, height, true);
    }
    proof {
        expected = expected + step_cell(w, h, y + 1, x - 1);
        assert(output@ =~= expected);
    }
    if down {
        proof { lemma_neighbor_step(w, h, true, y as int, x as int, y + 1, x as int); }
        push_neighbor(&mut output, y, x, y + 1, x, width, height, true);
    }
    proof {
        expected = expected + step_cell(w, h, y + 1, x as int);
        assert(output@ =~= expected);
    }
    if down && right {
        proof { lemma_neighbor_step(w, h, true, y as int, x as int, y + 1, x + 1); }
        push_neighbor(&mut output, y, x, y + 1, x + 1, width, height, true);
    }
    proof {
        expected = expected + step_cell(w, h, y + 1, x + 1);
        assert(output@ =~= expected);
    }
    proof {
        assert forall|b: int| grid_adjacent(w, h, true, y * width + x, b)
            implies #[trigger] index_set(output@).contains(b) by {
            lemma_neighbor_coords(w, h, true, y as int, x as int, b);
            let by_ = b / w;
            let bx = b % w;
            assert(b == by_ * w + bx);
        }
    }
    assert(output@ =~= neighbors8_seq(w, h, y as int, x as int));
    output
}

/// The neighbours of `cell` in the chosen neighbourhood.
pub fn neighbors(cell: usize, width: usize, height: usize, eight: bool) -> (output: Vec<usize>)
    requires
        width > 0,
        cell < width * height,
        width * height <= usize::MAX,
    ensures
        output@ == if eight {
            neighbors8_seq(width as int, height as int, (cell / width) as int, (cell % width) as int)
        } else {
            neighbors4_seq(width as int, height as int, (cell / width) as int, (cell % width) as int)
        },
        forall|k: int| 0 <= k < output@.len()
            ==> grid_adjacent(width as int, height as int, eight, cell as int, #[trigger] output@[k] as int),
        forall|b: int| grid_adjacent(width as int, height as int, eight, cell as int, b)
            ==> #[trigger] index_set(output@).contains(b),
{
    proof {
        lemma_cell_coords(width as int, height as int, cell as int);
    }
    let y = cell / width;
    let x = cell % width;
    if eight {
        neighbors8(y, x, width, height)
    } else {
        neighbors4(y, x, width, height)
    }
}

/// The cells of `cells` are distinct, so its index set has as many members
/// as it has entries.
pub proof fn lemma_index_set_len(cells: Seq<usize>)
    requires
        cells.no_duplicates(),
    ensures
        index_set(cells).finite(),
        index_set(cells).len() == cells.len(),
    decreases cells.len(),
{
    if cells.len() == 0 {
        assert(index_set(cells) =~= Set::empty());
    } else {
        let rest = cells.drop_last();
        let last = cells.last();
        assert(rest.no_duplicates()) by {
            assert forall|i: int, j: int| 0 <= i < rest.len() && 0 <= j < rest.len() && i != j implies rest[i] != rest[j] by {
                assert(rest[i] == cells[i] && rest[j] == cells[j]);
            }
        }
        lemma_index_set_len(rest);
        assert(cells == rest.push(last));
        crate::lidar::connectivity::lemma_index_set_push(rest, last);
        assert(!index_set(rest).contains(last as int)) by {
            if index_set(rest).contains(last as int) {
                let k = choose|k: int| 0 <= k < rest.len() && rest[k] == last;
                assert(cells[k] == cells[cells.len() - 1]);
            }
        }
    }
}

/// Finds, breadth first from `start`, every cell of value `target` that is
/// connected to `start` through cells of that value, marking each in
/// `visited`. The cells come in the order the search reaches them.
pub fn grid_component(
    mask: &Vec<bool>,
    target: bool,
    visited: &mut Vec<bool>,
    start: usize,
    width: usize,
    height: usize,
    eight: bool,
) -> (cells: Vec<usize>)
    requires
        width > 0,
        mask@.len() == width * height,
        old(visited)@.len() == mask@.len(),
        start < mask@.len(),
        mask@[start as int] == target,
        !old(visited)@[start as int],
        closed_under(grid_edge(width as int, height as int, eight), cell_has(mask@, target), marked(old(visited)@)),
    ensures
        final(visited)@.len() == old(visited)@.len(),
        marked(final(visited)@) == marked(old(visited)@).union(index_set(cells@)),
        index_set(cells@) == mask_component(mask@, width as int, height as int, eight, target, start as int),
        cells@.no_duplicates(),
        cells@.len() > 0,
        cells@[0] == start,
        forall|k: int| 0 <= k < cells@.len() ==> #[trigger] cells@[k] < mask@.len() && !old(visited)@[cells@[k] as int],
        closed_under(grid_edge(width as int, height as int, eight), cell_has(mask@, target), marked(final(visited)@)),
{
    let ghost edge = grid_edge(width as int, height as int, eight);
    let ghost inside = cell_has(mask@, target);
    let ghost before = visited@;
    let cell_count = mask.len();
    let ghost n = mask@.len();
    let ghost mut remaining = unmarked(visited@);
    proof {
        lemma_grid_symmetric(width as int, height as int, eight);
        lemma_linked_self(edge, inside, start as int);
        lemma_unmarked_finite(visited@);
    }
    visited.set(start, true);
    proof {
        remaining = remaining.remove(start as int);
    }
    let mut queue: VecDeque<usize> = VecDeque::new();
    queue.push_back(start);
    let mut cells: Vec<usize> = Vec::new();
    proof {
        assert(index_set(cells@) =~= Set::empty());
        assert(index_set(queue@) =~= Set::empty().insert(start as int)) by {
            assert(queue@[0] == start);
        }
    }
    while queue.len() > 0
        invariant
            width > 0,
            mask@.len() == width * height,
            n == mask@.len(),
            cell_count == n,
            edge == grid_edge(width as int, height as int, eight),
            inside == cell_has(mask@, target),
            symmetric(edge),
            before.len() == n,
            start < n,
            !before[start as int],
            closed_under(edge, inside, marked(before)),
            visited@.len() == n,
            visited@[start as int],
            forall|t: int| #![trigger visited@[t]] 0 <= t < n ==> (visited@[t] <==> (before[t] || index_set(cells@).contains(t) || index_set(queue@).contains(t))),
            (cells@ + queue@).no_duplicates(),
            cells@.len() > 0 ==> cells@[0] == start,
            cells@.len() == 0 ==> queue@.len() > 0 && queue@[0] == start,
            forall|k: int| 0 <= k < cells@.len() ==> #[trigger] cells@[k] < n && !before[cells@[k] as int] && linked(edge, inside, start as int, cells@[k] as int),
            forall|k: int| 0 <= k < queue@.len() ==> #[trigger] queue@[k] < n && !before[queue@[k] as int] && linked(edge, inside, start as int, queue@[k] as int),
            forall|k: int, b: int| 0 <= k < cells@.len() && #[trigger] edge(cells@[k] as int, b) && inside(b) ==> visited@[b],
            remaining.finite(),
            remaining =~= unmarked(visited@),
        decreases remaining.len(), queue@.len(),
    {
        let ghost queue_before = queue@;
        let ghost remaining_before = remaining;
        let cell = queue.pop_front().unwrap();
        proof {
            assert(queue_before == seq![cell] + queue@);
            assert(index_set(queue_before) =~= index_set(queue@).insert(cell as int)) by {
                assert forall|a: int| index_set(queue_before).contains(a) <==> (index_set(queue@).contains(a) || a == cell) by {
                    if index_set(queue_before).contains(a) {
                        let k = choose|k: int| 0 <= k < queue_before.len() && queue_before[k] == a;
                        if k > 0 {
                            assert(queue@[k - 1] == a);
                        }
                    }
                    if index_set(queue@).contains(a) {
                        let k = choose|k: int| 0 <= k < queue@.len() && queue@[k] == a;
                        assert(queue_before[k + 1] == a);
                    }
                    if a == cell {
                        assert(queue_before[0] == a);
                    }
                }
            }
            assert(linked(edge, inside, start as int, queue_before[0] as int));
            assert(cells@.push(cell) + queue@ =~= cells@ + queue_before);
        }
        let nb = neighbors(cell, width, height, eight);
        let mut j: usize = 0;
        while j < nb.len()
            invariant
                width > 0,
                mask@.len() == width * height,
                n == mask@.len(),
                edge == grid_edge(width as int, height as int, eight),
                inside == cell_has(mask@, target),
                before.len() == n,
                cell < n,
                !before[cell as int],
                linked(edge, inside, start as int, cell as int),
                j <= nb@.len(),
                forall|k: int| 0 <= k < nb@.len() ==> edge(cell as int, #[trigger] nb@[k] as int),
                visited@.len() == n,
                visited@[start as int],
                visited@[cell as int],
                forall|t: int| #![trigger visited@[t]] 0 <= t < n ==> (visited@[t] <==> (before[t] || index_set(cells@).contains(t) || index_set(queue@).contains(t) || t == cell)),
                (cells@.push(cell) + queue@).no_duplicates(),
                forall|k: int| 0 <= k < queue@.len() ==> #[trigger] queue@[k] < n && !before[queue@[k] as int] && linked(edge, inside, start as int, queue@[k] as int),
                forall|k: int, b: int| 0 <= k < cells@.len() && #[trigger] edge(cells@[k] as int, b) && inside(b) ==> visited@[b],
                forall|k: int| 0 <= k < j && #[trigger] inside(nb@[k] as int) ==> visited@[nb@[k] as int],
                remaining.finite(),
                remaining =~= unmarked(visited@),
                remaining.subset_of(remaining_before),
                remaining.len() + queue@.len() + 1 == remaining_before.len() + queue_before.len(),
            decreases nb@.len() - j,
        {
            let neighbor = nb[j];
            assert(edge(cell as int, neighbor as int));
            assert(grid_adjacent(width as int, height as int, eight, cell as int, neighbor as int));
            assert(neighbor < n);
            if mask[neighbor] == target && !visited[neighbor] {
                proof {
                    lemma_linked_step(edge, inside, start as int, cell as int, neighbor as int);
                    crate::lidar::connectivity::lemma_index_set_push(queue@, neighbor);
                    assert(remaining.contains(neighbor as int));
                    let order = cells@.push(cell) + queue@;
                    assert(!order.contains(neighbor)) by {
                        if order.contains(neighbor) {
                            let k = choose|k: int| 0 <= k < order.len() && order[k] == neighbor;
                            if k < cells@.len() {
                                assert(order[k] == cells@.push(cell)[k]);
                                assert(cells@.push(cell)[k] == cells@[k]);
                                assert(cells@[k] == neighbor);
                                assert(index_set(cells@).contains(neighbor as int));
                                assert(visited@[neighbor as int]);
                            } else if k == cells@.len() {
                                assert(neighbor == cell);
                                assert(grid_adjacent(width as int, height as int, eight, cell as int, neighbor as int));
                            } else {
                                assert(queue@[k - cells@.len() - 1] == neighbor);
                                assert(index_set(queue@).contains(neighbor as int));
                                assert(visited@[neighbor as int]);
                            }
                        }
                    }
                    assert(order.push(neighbor) =~= cells@.push(cell) + queue@.push(neighbor));
                }
                visited.set(neighbor, true);
                queue.push_back(neighbor);
                proof {
                    remaining = remaining.remove(neighbor as int);
                }
            }
            j = j + 1;
        }
        proof {
            crate::lidar::connectivity::lemma_index_set_push(cells@, cell);
            vstd::set_lib::lemma_len_subset(remaining, remaining_before);
            assert forall|b: int| #[trigger] edge(cell as int, b) && inside(b) implies visited@[b] by {
                assert(index_set(nb@).contains(b));
                let k = choose|k: int| 0 <= k < nb@.len() && nb@[k] == b;
                assert(inside(nb@[k] as int));
            }
        }
        let ghost cells_before = cells@;
        cells.push(cell);
        proof {
            assert(cells_before.push(cell) == cells@);
            assert forall|k: int, b: int| 0 <= k < cells@.len() && #[trigger] edge(cells@[k] as int, b) && inside(b) implies visited@[b] by {
                if k < cells_before.len() {
                    assert(cells@[k] == cells_before[k]);
                }
            }
        }
    }
    // What the search found is closed, so it holds the whole component.
    let ghost found = index_set(cells@);
    proof {
        assert(cells@ + queue@ =~= cells@);
        assert forall|a: int, b: int| found.contains(a) && #[trigger] edge(a, b) && inside(b) implies found.contains(b) by {
            let k = choose|k: int| 0 <= k < cells@.len() && cells@[k] == a;
            assert(visited@[b]);
            if before[b] {
                assert(marked(before).contains(b));
                assert(edge(b, a));
                assert(marked(before).contains(a));
                assert(false);
            }
        }
        assert(found.contains(start as int)) by {
            assert(cells@[0] == start);
        }
        assert forall|b: int| mask_component(mask@, width as int, height as int, eight, target, start as int).contains(b)
            implies found.contains(b) by {
            lemma_closed_holds_linked(edge, inside, found, start as int, b);
        }
        assert forall|b: int| found.contains(b)
            implies mask_component(mask@, width as int, height as int, eight, target, start as int).contains(b) by {
            let k = choose|k: int| 0 <= k < cells@.len() && cells@[k] == b;
            assert(linked(edge, inside, start as int, cells@[k] as int));
        }
        assert(found =~= mask_component(mask@, width as int, height as int, eight, target, start as int));
        assert(marked(visited@) =~= marked(before).union(found));
        assert forall|a: int, b: int| marked(visited@).contains(a) && #[trigger] edge(a, b) && inside(b)
            implies marked(visited@).contains(b) by {
            if before[a] {
                assert(marked(before).contains(a));
            } else {
                assert(found.contains(a));
            }
        }
    }
    cells
}

/// A component is a finite set that holds its starting cell.
pub proof fn lemma_mask_component_nonempty(mask: Seq<bool>, width: int, height: int, eight: bool, target: bool, i: int)
    requires
        0 <= i < mask.len(),
        mask[i] == target,
    ensures
        mask_component(mask, width, height, eight, target, i).contains(i),
        mask_component(mask, width, height, eight, target, i).finite(),
        mask_component(mask, width, height, eight, target, i).len() >= 1,
{
    let edge = grid_edge(width, height, eight);
    let inside = cell_has(mask, target);
    let component = mask_component(mask, width, height, eight, target, i);
    lemma_linked_self(edge, inside, i);
    let range = vstd::set_lib::set_int_range(0, mask.len() as int);
    assert forall|b: int| component.contains(b) implies range.contains(b) by {
        lemma_linked_inside(edge, inside, i, b);
    }
    vstd::set_lib::lemma_int_range(0, mask.len() as int);
    vstd::set_lib::lemma_len_subset(component, range);
    assert(component.remove(i).len() == component.len() - 1);
}

/// Cell `i` is a background cell whose 4-connected background region stays
/// off the raster border and has at most `maximum_cells` cells.
pub open spec fn enclosed_small_hole(mask: Seq<bool>, width: int, height: int, maximum_cells: int, i: int) -> bool {
    let hole = mask_component(mask, width, height, false, false, i);
    &&& 0 <= i < mask.len()
    &&& !mask[i]
    &&& hole.len() <= maximum_cells
    &&& forall|c: int| #[trigger] hole.contains(c) ==> !on_border(width, height, c)
}

/// Some cell of `cells` lies on the raster border.
fn touches_border(cells: &Vec<usize>, width: usize, height: usize) -> (touches: bool)
    requires
        width > 0,
        width * height <= usize::MAX,
        forall|k: int| 0 <= k < cells@.len() ==> #[trigger] cells@[k] < width * height,
    ensures
        touches == exists|k: int| 0 <= k < cells@.len() && on_border(width as int, height as int, #[trigger] cells@[k] as int),
{
    let mut touches = false;
    let mut k: usize = 0;
    while k < cells.len()
        invariant
            width > 0,
            width * height <= usize::MAX,
            forall|j: int| 0 <= j < cells@.len() ==> #[trigger] cells@[j] < width * height,
            k <= cells@.len(),
            touches == exists|j: int| 0 <= j < k && on_border(width as int, height as int, #[trigger] cells@[j] as int),
        decreases cells@.len() - k,
    {
        let cell = cells[k];
        proof {
            lemma_cell_coords(width as int, height as int, cell as int);
        }
        let y = cell / width;
        let x = cell % width;
        let here = y == 0 || x == 0 || y + 1 == height || x + 1 == width;
        proof {
            assert(here == on_border(width as int, height as int, cells@[k as int] as int));
            if touches {
                let j = choose|j: int| 0 <= j < k && on_border(width as int, height as int, #[trigger] cells@[j] as int);
                assert(0 <= j < k + 1);
            }
            if here {
                assert(on_border(width as int, height as int, cells@[k as int] as int));
            }
        }
        touches = touches || here;
        k = k + 1;
    }
    touches
}

/// Fills every background hole that is 4-connected, does not reach the
/// raster border and has at most `maximum_cells` cells.
pub fn fill_small_holes(mask: &mut Vec<bool>, width: usize, height: usize, maximum_cells: usize)
    requires
        width > 0,
        old(mask)@.len() == width * height,
    ensures
        final(mask)@.len() == old(mask)@.len(),
        forall|i: int| 0 <= i < old(mask)@.len() ==> #[trigger] final(mask)@[i]
            == (old(mask)@[i] || enclosed_small_hole(old(mask)@, width as int, height as int, maximum_cells as int, i)),
{
    let ghost w = width as int;
    let ghost h = height as int;
    if maximum_cells == 0 {
        proof {
            assert forall|i: int| 0 <= i < mask@.len() implies #[trigger] mask@[i]
                == (mask@[i] || enclosed_small_hole(mask@, w, h, 0, i)) by {
                if !mask@[i] {
                    lemma_mask_component_nonempty(mask@, w, h, false, false, i);
                }
            }
        }
        return;
    }
    let n = mask.len();
    assert(width * height <= usize::MAX);
    let ghost edge = grid_edge(w, h, false);
    let ghost inside = cell_has(mask@, false);
    let mut visited = filled_bools(n, false);
    let mut fill = filled_bools(n, false);
    proof {
        assert(marked(visited@) =~= Set::empty());
    }
    let mut start: usize = 0;
    while start < n
        invariant
            width > 0,
            n == mask@.len(),
            mask@.len() == width * height,
            edge == grid_edge(w, h, false),
            inside == cell_has(mask@, false),
            w == width,
            h == height,
            start <= n,
            visited@.len() == n,
            fill@.len() == n,
            closed_under(edge, inside, marked(visited@)),
            forall|t: int| 0 <= t < n && #[trigger] visited@[t] ==> !mask@[t],
            forall|t: int| 0 <= t < start && !mask@[t] ==> #[trigger] visited@[t],
            forall|t: int| 0 <= t < n ==> #[trigger] fill@[t] == (visited@[t] && enclosed_small_hole(mask@, w, h, maximum_cells as int, t)),
        decreases n - start,
    {
        if mask[start] || visited[start] {
            start = start + 1;
            continue;
        }
        let ghost visited_before = visited@;
        let cells = grid_component(mask, false, &mut visited, start, width, height, false);
        let touches = touches_border(&cells, width, height);
        let fills = !touches && cells.len() <= maximum_cells;
        let ghost hole = mask_component(mask@, w, h, false, false, start as int);
        proof {
            lemma_index_set_len(cells@);
            lemma_grid_symmetric(w, h, false);
            assert forall|k: int| 0 <= k < cells@.len() implies
                enclosed_small_hole(mask@, w, h, maximum_cells as int, #[trigger] cells@[k] as int) == fills by {
                let c = cells@[k] as int;
                assert(index_set(cells@).contains(c));
                lemma_component_shared(edge, inside, start as int, c);
                assert(mask_component(mask@, w, h, false, false, c) == hole);
                lemma_linked_inside(edge, inside, start as int, c);
                if touches {
                    let j = choose|j: int| 0 <= j < cells@.len() && on_border(w, h, #[trigger] cells@[j] as int);
                    assert(hole.contains(cells@[j] as int));
                }
                if !touches {
                    assert forall|d: int| #[trigger] hole.contains(d) implies !on_border(w, h, d) by {
                        assert(index_set(cells@).contains(d));
                        let j = choose|j: int| 0 <= j < cells@.len() && cells@[j] == d;
                        assert(!on_border(w, h, cells@[j] as int));
                    }
                }
            }
        }
        if fills {
            let mut k: usize = 0;
            while k < cells.len()
                invariant
                    fills,
                    k <= cells@.len(),
                    fill@.len() == n,
                    forall|j: int| 0 <= j < cells@.len() ==> #[trigger] cells@[j] < n,
                    forall|t: int| 0 <= t < n ==> #[trigger] fill@[t]
                        == ((visited_before[t] && enclosed_small_hole(mask@, w, h, maximum_cells as int, t))
                            || exists|j: int| 0 <= j < k && cells@[j] == t),
                decreases cells@.len() - k,
            {
                fill.set(cells[k], true);
                proof {
                    assert forall|t: int| 0 <= t < n implies #[trigger] fill@[t]
                        == ((visited_before[t] && enclosed_small_hole(mask@, w, h, maximum_cells as int, t))
                            || exists|j: int| 0 <= j < k + 1 && cells@[j] == t) by {
                        if t == cells@[k as int] {
                            assert(cells@[k as int] == t);
                        }
                    }
                }
                k = k + 1;
            }
        }
        proof {
            assert forall|t: int| 0 <= t < n implies #[trigger] fill@[t] == (visited@[t] && enclosed_small_hole(mask@, w, h, maximum_cells as int, t)) by {
                assert(visited@[t] == (visited_before[t] || index_set(cells@).contains(t))) by {
                    assert(marked(visited@).contains(t) == marked(visited_before).union(index_set(cells@)).contains(t));
                }
                if index_set(cells@).contains(t) {
                    let j = choose|j: int| 0 <= j < cells@.len() && cells@[j] == t;
                    assert(enclosed_small_hole(mask@, w, h, maximum_cells as int, cells@[j] as int) == fills);
                    assert(!visited_before[t]);
                }
            }
            assert forall|t: int| 0 <= t < n && #[trigger] visited@[t] implies !mask@[t] by {
                assert(marked(visited@).contains(t));
                if !visited_before[t] {
                    assert(index_set(cells@).contains(t));
                    lemma_linked_inside(edge, inside, start as int, t);
                }
            }
            assert forall|t: int| 0 <= t < start + 1 && !mask@[t] implies #[trigger] visited@[t] by {
                assert(marked(visited@).contains(t) == marked(visited_before).union(index_set(cells@)).contains(t));
                if t == start {
                    assert(index_set(cells@).contains(t)) by {
                        assert(cells@[0] == start);
                    }
                }
            }
        }
        start = start + 1;
    }
    let mut i: usize = 0;
    while i < n
        invariant
            n == mask@.len(),
            n == old(mask)@.len(),
            fill@.len() == n,
            i <= n,
            forall|t: int| 0 <= t < n && !old(mask)@[t] ==> #[trigger] visited@[t],
            forall|t: int| 0 <= t < n ==> #[trigger] fill@[t] == (visited@[t] && enclosed_small_hole(old(mask)@, w, h, maximum_cells as int, t)),
            forall|t: int| 0 <= t < i ==> #[trigger] mask@[t]
                == (old(mask)@[t] || enclosed_small_hole(old(mask)@, w, h, maximum_cells as int, t)),
            forall|t: int| i <= t < n ==> #[trigger] mask@[t] == old(mask)@[t],
        decreases n - i,
    {
        if fill[i] {
            mask.set(i, true);
        }
        i = i + 1;
    }
}

/// A cell of value `true` keeps its value exactly when its 8-connected
/// region of `true` cells has at least `minimum_cells` cells.
pub open spec fn in_large_region(mask: Seq<bool>, width: int, height: int, minimum_cells: int, i: int) -> bool {
    &&& 0 <= i < mask.len()
    &&& mask[i]
    &&& mask_component(mask, width, height, true, true, i).len() >= minimum_cells
}

/// Marks the cells of every 8-connected region of `true` cells that has at
/// least `minimum_cells` cells.
pub fn large_regions(mask: &Vec<bool>, width: usize, height: usize, minimum_cells: usize) -> (retained: Vec<bool>)
    requires
        width > 0,
        mask@.len() == width * height,
    ensures
        retained@.len() == mask@.len(),
        forall|i: int| 0 <= i < mask@.len() ==> #[trigger] retained@[i]
            == in_large_region(mask@, width as int, height as int, minimum_cells as int, i),
{
    let ghost w = width as int;
    let ghost h = height as int;
    let n = mask.len();
    assert(width * height <= usize::MAX);
    let ghost edge = grid_edge(w, h, true);
    let ghost inside = cell_has(mask@, true);
    let mut visited = filled_bools(n, false);
    let mut retained = filled_bools(n, false);
    proof {
        assert(marked(visited@) =~= Set::empty());
    }
    let mut start: usize = 0;
    while start < n
        invariant
            width > 0,
            n == mask@.len(),
            mask@.len() == width * height,
            edge == grid_edge(w, h, true),
            inside == cell_has(mask@, true),
            w == width,
            h == height,
            start <= n,
            visited@.len() == n,
            retained@.len() == n,
            closed_under(edge, inside, marked(visited@)),
            forall|t: int| 0 <= t < n && #[trigger] visited@[t] ==> mask@[t],
            forall|t: int| 0 <= t < start && mask@[t] ==> #[trigger] visited@[t],
            forall|t: int| 0 <= t < n ==> #[trigger] retained@[t] == (visited@[t] && in_large_region(mask@, w, h, minimum_cells as int, t)),
        decreases n - start,
    {
        if !mask[start] || visited[start] {
            start = start + 1;
            continue;
        }
        let ghost visited_before = visited@;
        let cells = grid_component(mask, true, &mut visited, start, width, height, true);
        let keeps = cells.len() >= minimum_cells;
        let ghost region = mask_component(mask@, w, h, true, true, start as int);
        proof {
            lemma_index_set_len(cells@);
            lemma_grid_symmetric(w, h, true);
            assert forall|k: int| 0 <= k < cells@.len() implies
                in_large_region(mask@, w, h, minimum_cells as int, #[trigger] cells@[k] as int) == keeps by {
                let c = cells@[k] as int;
                assert(index_set(cells@).contains(c));
                lemma_component_shared(edge, inside, start as int, c);
                lemma_linked_inside(edge, inside, start as int, c);
            }
        }
        if keeps {
            let mut k: usize = 0;
            while k < cells.len()
                invariant
                    keeps,
                    k <= cells@.len(),
                    retained@.len() == n,
                    forall|j: int| 0 <= j < cells@.len() ==> #[trigger] cells@[j] < n,
                    forall|t: int| 0 <= t < n ==> #[trigger] retained@[t]
                        == ((visited_before[t] && in_large_region(mask@, w, h, minimum_cells as int, t))
                            || exists|j: int| 0 <= j < k && cells@[j] == t),
                decreases cells@.len() - k,
            {
                retained.set(cells[k], true);
                proof {
                    assert forall|t: int| 0 <= t < n implies #[trigger] retained@[t]
                        == ((visited_before[t] && in_large_region(mask@, w, h, minimum_cells as int, t))
                            || exists|j: int| 0 <= j < k + 1 && cells@[j] == t) by {
                        if t == cells@[k as int] {
                            assert(cells@[k as int] == t);
                        }
                    }
                }
                k = k + 1;
            }
        }
        proof {
            assert forall|t: int| 0 <= t < n implies #[trigger] retained@[t] == (visited@[t] && in_large_region(mask@, w, h, minimum_cells as int, t)) by {
                assert(visited@[t] == (visited_before[t] || index_set(cells@).contains(t))) by {
                    assert(marked(visited@).contains(t) == marked(visited_before).union(index_set(cells@)).contains(t));
                }
                if index_set(cells@).contains(t) {
                    let j = choose|j: int| 0 <= j < cells@.len() && cells@[j] == t;
                    assert(in_large_region(mask@, w, h, minimum_cells as int, cells@[j] as int) == keeps);
                    assert(!visited_before[t]);
                }
            }
            assert forall|t: int| 0 <= t < n && #[trigger] visited@[t] implies mask@[t] by {
                assert(marked(visited@).contains(t));
                if !visited_before[t] {
                    assert(index_set(cells@).contains(t));
                    lemma_linked_inside(edge, inside, start as int, t);
                }
            }
            assert forall|t: int| 0 <= t < start + 1 && mask@[t] implies #[trigger] visited@[t] by {
                assert(marked(visited@).contains(t) == marked(visited_before).union(index_set(cells@)).contains(t));
                if t == start {
                    assert(index_set(cells@).contains(t)) by {
                        assert(cells@[0] == start);
                    }
                }
            }
        }
        start = start + 1;
    }
    retained
}

proof fn lemma_unmarked_finite(marks: Seq<bool>)
    ensures
        unmarked(marks).finite(),
{
    let range = Set::new(|t: int| 0 <= t < marks.len());
    assert(range =~= vstd::set_lib::set_int_range(0, marks.len() as int));
    vstd::set_lib::lemma_int_range(0, marks.len() as int);
    vstd::set_lib::lemma_len_subset(unmarked(marks), range);
}

} // verus!

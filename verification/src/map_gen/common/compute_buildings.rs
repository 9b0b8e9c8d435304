//! The integer side of building detection: the seeded random source of the
//! plane sampler, sampling without replacement, candidate labelling, the
//! nearest-candidate search and the box closing of the candidate mask.

use vstd::prelude::*;
use crate::filled::{filled_bools, filled_u32s};
use crate::graph::{closed_under, lemma_linked_inside, lemma_linked_symmetric, symmetric};
use crate::lidar::connectivity::index_set;
use crate::map_gen::common::grid::{cell_has, grid_component, grid_edge, lemma_cell_coords, lemma_cell_index, lemma_grid_symmetric, lemma_index_set_len, in_large_region, large_regions, marked, mask_component, fill_small_holes};
use crate::map_gen::common::compute_marsh::holes_filled;

verus! {

/// The multiplier that spreads a seed over the state space.
pub const SEED_MULTIPLIER: u64 = 0x9e37_79b9_7f4a_7c15u64;

/// The state a seed starts the generator in: the seed times
/// [`SEED_MULTIPLIER`], wrapping, and at least one.
pub open spec fn seeded_state(seed: u64) -> u64 {
    let mixed = ((seed as nat * SEED_MULTIPLIER as nat) % 0x1_0000_0000_0000_0000nat) as u64;
    if mixed == 0 {
        1
    } else {
        mixed
    }
}

/// One xorshift step with shifts 13, 7 and 17.
pub open spec fn xorshift(value: u64) -> u64 {
    let a = value ^ (value << 13u64);
    let b = a ^ (a >> 7u64);
    b ^ (b << 17u64)
}

/// The state after `steps` xorshift steps.
pub open spec fn advanced(state: u64, steps: nat) -> u64
    decreases steps,
{
    if steps == 0 {
        state
    } else {
        xorshift(advanced(state, (steps - 1) as nat))
    }
}

/// The index that a state selects below `upper_bound`: the high 64 bits of
/// the 128-bit product.
pub open spec fn scaled_index(value: u64, upper_bound: int) -> int {
    (value as int * upper_bound) / 0x1_0000_0000_0000_0000int
}

/// A small deterministic generator, so that plane sampling does not depend
/// on thread count or run.
pub struct DeterministicRng(u64);

impl DeterministicRng {
    /// The current state.
    pub closed spec fn state(&self) -> u64 {
        self.0
    }

    /// A generator started from `seed`.
    pub fn new(seed: u64) -> (rng: Self)
        ensures
            rng.state() == seeded_state(seed),
            rng.state() != 0,
    {
        let mixed = seed.wrapping_mul(SEED_MULTIPLIER);
        if mixed == 0 {
            DeterministicRng(1)
        } else {
            DeterministicRng(mixed)
        }
    }

    /// Advances the state one xorshift step and maps it onto
    /// `0..upper_bound`.
    pub fn index(&mut self, upper_bound: usize) -> (index: usize)
        ensures
            final(self).state() == xorshift(old(self).state()),
            index == scaled_index(final(self).state(), upper_bound as int),
            upper_bound > 0 ==> index < upper_bound,
            upper_bound == 0 ==> index == 0,
            old(self).state() != 0 ==> final(self).state() != 0,
    {
        let old_value = self.0;
        let mut value = self.0;
        value = value ^ (value << 13u64);
        value = value ^ (value >> 7u64);
        value = value ^ (value << 17u64);
        proof {
            lemma_xorshift_nonzero(old_value);
        }
        self.0 = value;
        let wide = value as u128;
        let bound = upper_bound as u128;
        proof {
            assert(wide * bound < 0x1_0000_0000_0000_0000_0000_0000_0000_0000int) by (nonlinear_arith)
                requires
                    wide < 0x1_0000_0000_0000_0000int,
                    bound < 0x1_0000_0000_0000_0000int,
            ;
        }
        let product = wide * bound;
        let high = product >> 64u128;
        proof {
            assert(high == product / 0x1_0000_0000_0000_0000u128) by (bit_vector)
                requires
                    high == product >> 64u128,
            ;
            lemma_scaled_index_bound(value, upper_bound as int);
        }
        high as usize
    }
}

/// An xorshift step maps a nonzero state to a nonzero state.
pub proof fn lemma_xorshift_nonzero(value: u64)
    ensures
        value != 0 ==> xorshift(value) != 0,
{
    assert(value != 0 ==> ((value ^ (value << 13u64)) ^ ((value ^ (value << 13u64)) >> 7u64)) ^ (((value ^ (value
        << 13u64)) ^ ((value ^ (value << 13u64)) >> 7u64)) << 17u64) != 0) by (bit_vector);
}

/// The selected index lies below the bound.
pub proof fn lemma_scaled_index_bound(value: u64, upper_bound: int)
    requires
        upper_bound >= 0,
    ensures
        0 <= scaled_index(value, upper_bound),
        upper_bound > 0 ==> scaled_index(value, upper_bound) < upper_bound,
        upper_bound == 0 ==> scaled_index(value, upper_bound) == 0,
{
    let v = value as int;
    let u = upper_bound as int;
    assert(0 <= v * u) by (nonlinear_arith)
        requires
            0 <= v,
            0 <= u,
    ;
    if u > 0 {
        assert(v * u < 0x1_0000_0000_0000_0000int * u) by (nonlinear_arith)
            requires
                0 <= v < 0x1_0000_0000_0000_0000int,
                u > 0,
        ;
        assert((v * u) / 0x1_0000_0000_0000_0000int < u) by (nonlinear_arith)
            requires
                0 <= v * u < 0x1_0000_0000_0000_0000int * u,
        ;
    }
}

/// The positions that sampling `sample_size` of `population` items draws in
/// its first `steps` steps, starting from generator state `state`. Step `s`
/// draws below `current + 1`, where `current` runs from
/// `population - sample_size`; a position drawn before is replaced by
/// `current`.
pub open spec fn floyd_positions(state: u64, population: int, sample_size: int, steps: nat) -> Seq<int>
    decreases steps,
{
    if steps == 0 {
        Seq::empty()
    } else {
        let earlier = floyd_positions(state, population, sample_size, (steps - 1) as nat);
        let current = population - sample_size + steps - 1;
        let draw = scaled_index(advanced(state, steps), current + 1);
        earlier.push(if earlier.contains(draw) { current } else { draw })
    }
}

/// The drawn positions are distinct and lie below
/// `population - sample_size + steps`.
pub proof fn lemma_floyd_positions_distinct(state: u64, population: int, sample_size: int, steps: nat)
    requires
        0 <= sample_size <= population,
        steps <= sample_size,
    ensures
        floyd_positions(state, population, sample_size, steps).len() == steps,
        floyd_positions(state, population, sample_size, steps).no_duplicates(),
        forall|j: int| 0 <= j < steps ==> 0 <= #[trigger] floyd_positions(state, population, sample_size, steps)[j]
            < population - sample_size + steps,
    decreases steps,
{
    if steps > 0 {
        let earlier = floyd_positions(state, population, sample_size, (steps - 1) as nat);
        lemma_floyd_positions_distinct(state, population, sample_size, (steps - 1) as nat);
        let current = population - sample_size + steps - 1;
        let draw = scaled_index(advanced(state, steps), current + 1);
        lemma_scaled_index_bound(advanced(state, steps), current + 1);
        let chosen = if earlier.contains(draw) { current } else { draw };
        assert(!earlier.contains(chosen)) by {
            if earlier.contains(current) {
                let j = choose|j: int| 0 <= j < earlier.len() && earlier[j] == current;
                assert(earlier[j] < current);
            }
        }
        let positions = earlier.push(chosen);
        assert(positions == floyd_positions(state, population, sample_size, steps));
        assert forall|a: int, b: int| 0 <= a < positions.len() && 0 <= b < positions.len() && a != b
            implies positions[a] != positions[b] by {
            if a < earlier.len() && b < earlier.len() {
                assert(positions[a] == earlier[a] && positions[b] == earlier[b]);
            } else if a < earlier.len() {
                assert(positions[a] == earlier[a]);
            } else {
                assert(positions[b] == earlier[b]);
            }
        }
        assert forall|j: int| 0 <= j < steps implies 0 <= #[trigger] positions[j]
            < population - sample_size + steps by {
            if j < earlier.len() {
                assert(positions[j] == earlier[j]);
            }
        }
    }
}

/// Whether `value` occurs in `values`.
fn contains_value(values: &Vec<usize>, value: usize) -> (found: bool)
    ensures
        found == values@.contains(value),
{
    let mut k: usize = 0;
    while k < values.len()
        invariant
            k <= values@.len(),
            forall|j: int| 0 <= j < k ==> values@[j] != value,
        decreases values@.len() - k,
    {
        if values[k] == value {
            return true;
        }
        k = k + 1;
    }
    false
}

/// Draws `sample_size` items of `population` at distinct positions, with
/// Floyd's algorithm, advancing the generator once per item.
pub fn sample_without_replacement(population: &Vec<usize>, sample_size: usize, rng: &mut DeterministicRng) -> (sample: Vec<usize>)
    requires
        sample_size <= population@.len(),
    ensures
        sample@.len() == sample_size,
        forall|j: int| 0 <= j < sample_size ==> #[trigger] sample@[j]
            == population@[floyd_positions(old(rng).state(), population@.len() as int, sample_size as int, sample_size as nat)[j]],
        floyd_positions(old(rng).state(), population@.len() as int, sample_size as int, sample_size as nat).no_duplicates(),
        forall|j: int| 0 <= j < sample_size ==> 0 <= #[trigger] floyd_positions(old(rng).state(), population@.len() as int,
            sample_size as int, sample_size as nat)[j] < population@.len(),
        final(rng).state() == advanced(old(rng).state(), sample_size as nat),
{
    let ghost start = rng.state();
    let ghost n = population@.len() as int;
    let ghost k = sample_size as int;
    let len = population.len();
    let mut positions: Vec<usize> = Vec::with_capacity(sample_size);
    let mut current = len - sample_size;
    while current < len
        invariant
            len == population@.len(),
            n == len,
            k == sample_size,
            sample_size <= len,
            len - sample_size <= current <= len,
            rng.state() == advanced(start, (current - (len - sample_size)) as nat),
            positions@.len() == current - (len - sample_size),
            forall|j: int| 0 <= j < positions@.len() ==> #[trigger] positions@[j] as int
                == floyd_positions(start, n, k, (current - (len - sample_size)) as nat)[j],
        decreases len - current,
    {
        let ghost steps = (current - (len - sample_size) + 1) as nat;
        let ghost earlier = floyd_positions(start, n, k, (steps - 1) as nat);
        proof {
            lemma_floyd_positions_distinct(start, n, k, (steps - 1) as nat);
        }
        let draw = rng.index(current + 1);
        let taken = contains_value(&positions, draw);
        proof {
            assert(positions@.map_values(|p: usize| p as int) =~= earlier);
            if taken {
                let j = choose|j: int| 0 <= j < positions@.len() && positions@[j] == draw;
                assert(earlier[j] == draw as int);
                assert(earlier.contains(draw as int));
            } else if earlier.contains(draw as int) {
                let j = choose|j: int| 0 <= j < earlier.len() && earlier[j] == draw as int;
                assert(positions@[j] == draw);
            }
        }
        let ghost before = positions@;
        if taken {
            positions.push(current);
        } else {
            positions.push(draw);
        }
        proof {
            let later = floyd_positions(start, n, k, steps);
            assert forall|j: int| 0 <= j < positions@.len() implies #[trigger] positions@[j] as int == later[j] by {
                if j < before.len() {
                    assert(positions@[j] == before[j]);
                }
            }
        }
        current = current + 1;
    }
    proof {
        lemma_floyd_positions_distinct(start, n, k, sample_size as nat);
    }
    let mut sample: Vec<usize> = Vec::with_capacity(sample_size);
    let mut j: usize = 0;
    while j < positions.len()
        invariant
            len == population@.len(),
            n == len,
            k == sample_size,
            sample_size <= len,
            positions@.len() == sample_size,
            forall|i: int| 0 <= i < positions@.len() ==> #[trigger] positions@[i] as int == floyd_positions(start, n, k, sample_size as nat)[i],
            forall|i: int| 0 <= i < sample_size ==> 0 <= #[trigger] floyd_positions(start, n, k, sample_size as nat)[i] < n,
            j <= positions@.len(),
            sample@.len() == j,
            forall|i: int| 0 <= i < j ==> #[trigger] sample@[i] == population@[floyd_positions(start, n, k, sample_size as nat)[i]],
        decreases positions@.len() - j,
    {
        assert(positions@[j as int] as int == floyd_positions(start, n, k, sample_size as nat)[j as int]);
        sample.push(population[positions[j]]);
        j = j + 1;
    }
    sample
}

/// The squared distance between cells `a` and `b` of a raster `width`
/// cells wide.
pub open spec fn squared_distance(width: int, a: int, b: int) -> int {
    (a / width - b / width) * (a / width - b / width) + (a % width - b % width) * (a % width - b % width)
}

/// Cell `j` holds a candidate within `radius` of `cell`.
pub open spec fn candidate_near(ids: Seq<u32>, width: int, radius: int, cell: int, j: int) -> bool {
    &&& 0 <= j < ids.len()
    &&& ids[j] != 0
    &&& squared_distance(width, j, cell) <= radius * radius
}

/// `(distance, id)` comes strictly before `(other_distance, other_id)`:
/// nearer first, then the smaller id.
pub open spec fn nearer_first(distance: int, id: int, other_distance: int, other_id: int) -> bool {
    distance < other_distance || (distance == other_distance && id < other_id)
}

/// `id` is the id of the nearest candidate within `radius` of `cell`, ties
/// going to the smaller id.
pub open spec fn is_nearest_candidate(ids: Seq<u32>, width: int, radius: int, cell: int, id: u32) -> bool {
    exists|j: int| #[trigger] candidate_near(ids, width, radius, cell, j) && ids[j] == id
        && forall|k: int| #[trigger] candidate_near(ids, width, radius, cell, k)
            ==> !nearer_first(squared_distance(width, k, cell), ids[k] as int, squared_distance(width, j, cell), id as int)
}

/// The absolute difference of two indices.
fn index_gap(a: usize, b: usize) -> (gap: usize)
    ensures
        gap == if a >= b { a - b } else { b - a },
{
    if a >= b {
        a - b
    } else {
        b - a
    }
}

/// A squared distance within the radius means both offsets are within it.
proof fn lemma_offsets_within_radius(dy: int, dx: int, radius: int)
    requires
        radius >= 0,
        dy * dy + dx * dx <= radius * radius,
    ensures
        -radius <= dy <= radius,
        -radius <= dx <= radius,
{
    assert(0 <= dx * dx && 0 <= dy * dy) by (nonlinear_arith);
    if dy > radius {
        assert(dy * dy > radius * radius) by (nonlinear_arith)
            requires
                dy > radius,
                radius >= 0,
        ;
    }
    if dy < -radius {
        assert(dy * dy > radius * radius) by (nonlinear_arith)
            requires
                dy < -radius,
                radius >= 0,
        ;
    }
    if dx > radius {
        assert(dx * dx > radius * radius) by (nonlinear_arith)
            requires
                dx > radius,
                radius >= 0,
        ;
    }
    if dx < -radius {
        assert(dx * dx > radius * radius) by (nonlinear_arith)
            requires
                dx < -radius,
                radius >= 0,
        ;
    }
}

/// The id of the candidate that covers `cell`, or else of the nearest
/// candidate within `radius` cells, ties going to the smaller id; `None`
/// when no candidate is that near.
pub fn nearest_candidate_id(cell: usize, candidate_ids: &Vec<u32>, width: usize, height: usize, radius: usize) -> (nearest: Option<u32>)
    requires
        width > 0,
        candidate_ids@.len() == width * height,
        cell < candidate_ids@.len(),
        2 * radius * radius <= usize::MAX,
        width * height + radius <= usize::MAX,
    ensures
        candidate_ids@[cell as int] != 0 ==> nearest == Some(candidate_ids@[cell as int]),
        candidate_ids@[cell as int] == 0 ==> match nearest {
            Some(id) => is_nearest_candidate(candidate_ids@, width as int, radius as int, cell as int, id),
            None => forall|j: int| !#[trigger] candidate_near(candidate_ids@, width as int, radius as int, cell as int, j),
        },
{
    if candidate_ids[cell] != 0 {
        return Some(candidate_ids[cell]);
    }
    let ghost ids = candidate_ids@;
    let ghost w = width as int;
    let ghost r = radius as int;
    let ghost c = cell as int;
    proof {
        lemma_cell_coords(w, height as int, c);
        assert(height <= width * height && width <= width * height) by (nonlinear_arith)
            requires
                width > 0,
                0 <= c < width * height,
        ;
        assert(radius * radius <= 2 * radius * radius) by (nonlinear_arith);
    }
    let y = cell / width;
    let x = cell % width;
    let top = if y >= radius { y - radius } else { 0 };
    let bottom = if y + radius < height - 1 { y + radius } else { height - 1 };
    let left = if x >= radius { x - radius } else { 0 };
    let right = if x + radius < width - 1 { x + radius } else { width - 1 };
    let radius2 = radius * radius;
    proof {
        assert forall|k: int| #[trigger] candidate_near(ids, w, r, c, k)
            implies top <= k / w <= bottom && left <= k % w <= right by {
            lemma_cell_coords(w, height as int, k);
            lemma_offsets_within_radius(k / w - c / w, k % w - c % w, r);
        }
    }
    let mut best: Option<u32> = None;
    let mut best_distance: usize = usize::MAX;
    let ghost mut best_cell: int = 0;
    let mut yi = top;
    while yi <= bottom
        invariant
            ids == candidate_ids@,
            w == width,
            r == radius,
            c == cell,
            width > 0,
            ids.len() == width * height,
            y == c / w,
            x == c % w,
            y < height,
            x < width,
            top <= yi <= bottom + 1,
            bottom < height,
            left <= right < width,
            top == (if y >= radius { y - radius } else { 0 }),
            bottom == (if y + radius < height - 1 { y + radius } else { height - 1 }),
            left == (if x >= radius { x - radius } else { 0 }),
            right == (if x + radius < width - 1 { x + radius } else { width - 1 }),
            radius2 == radius * radius,
            2 * radius * radius <= usize::MAX,
            radius * radius <= 2 * radius * radius,
            width * height <= usize::MAX,
            forall|k: int| #[trigger] candidate_near(ids, w, r, c, k) ==> top <= k / w <= bottom && left <= k % w <= right,
            match best {
                Some(id) => {
                    &&& candidate_near(ids, w, r, c, best_cell)
                    &&& ids[best_cell] == id
                    &&& best_distance == squared_distance(w, best_cell, c)
                    &&& best_cell / w < yi
                },
                None => best_distance == usize::MAX,
            },
            forall|k: int| #[trigger] candidate_near(ids, w, r, c, k) && k / w < yi ==> match best {
                Some(id) => !nearer_first(squared_distance(w, k, c), ids[k] as int, best_distance as int, id as int),
                None => false,
            },
        decreases bottom + 1 - yi,
    {
        let mut xi = left;
        while xi <= right
            invariant
                ids == candidate_ids@,
                w == width,
                r == radius,
                c == cell,
                width > 0,
                ids.len() == width * height,
                y == c / w,
                x == c % w,
                y < height,
                x < width,
                top <= yi <= bottom,
                bottom < height,
                left <= xi <= right + 1,
                right < width,
                top == (if y >= radius { y - radius } else { 0 }),
                bottom == (if y + radius < height - 1 { y + radius } else { height - 1 }),
                left == (if x >= radius { x - radius } else { 0 }),
                right == (if x + radius < width - 1 { x + radius } else { width - 1 }),
                radius2 == radius * radius,
                2 * radius * radius <= usize::MAX,
                radius * radius <= 2 * radius * radius,
                width * height <= usize::MAX,
                forall|k: int| #[trigger] candidate_near(ids, w, r, c, k) ==> top <= k / w <= bottom && left <= k % w <= right,
                match best {
                    Some(id) => {
                        &&& candidate_near(ids, w, r, c, best_cell)
                        &&& ids[best_cell] == id
                        &&& best_distance == squared_distance(w, best_cell, c)
                        &&& (best_cell / w < yi || (best_cell / w == yi && best_cell % w < xi))
                    },
                    None => best_distance == usize::MAX,
                },
                forall|k: int| #[trigger] candidate_near(ids, w, r, c, k)
                    && (k / w < yi || (k / w == yi && k % w < xi)) ==> match best {
                    Some(id) => !nearer_first(squared_distance(w, k, c), ids[k] as int, best_distance as int, id as int),
                    None => false,
                },
            decreases right + 1 - xi,
        {
            proof {
                lemma_cell_index(w, height as int, yi as int, xi as int);
            }
            let j = yi * width + xi;
            let id = candidate_ids[j];
            if id != 0 {
                let dy = index_gap(yi, y);
                let dx = index_gap(xi, x);
                proof {
                    assert(dy <= radius && dx <= radius);
                    assert(dy * dy + dx * dx <= 2 * radius * radius) by (nonlinear_arith)
                        requires
                            dy <= radius,
                            dx <= radius,
                    ;
                    assert(dy * dy == (yi - y) * (yi - y)) by (nonlinear_arith)
                        requires
                            dy == (if yi >= y { yi - y } else { y - yi }),
                    ;
                    assert(dx * dx == (xi - x) * (xi - x)) by (nonlinear_arith)
                        requires
                            dx == (if xi >= x { xi - x } else { x - xi }),
                    ;
                }
                let distance = dy * dy + dx * dx;
                proof {
                    assert(distance == squared_distance(w, j as int, c));
                }
                let closer = match best {
                    Some(current) => distance < best_distance || (distance == best_distance && id < current),
                    None => true,
                };
                if distance <= radius2 && closer {
                    best = Some(id);
                    best_distance = distance;
                    proof {
                        best_cell = j as int;
                    }
                }
            }
            proof {
                assert forall|k: int| #[trigger] candidate_near(ids, w, r, c, k)
                    && (k / w < yi || (k / w == yi && k % w < xi + 1)) implies match best {
                    Some(id) => !nearer_first(squared_distance(w, k, c), ids[k] as int, best_distance as int, id as int),
                    None => false,
                } by {
                    if k != j as int {
                        lemma_cell_coords(w, height as int, k);
                        if k / w == yi && k % w == xi {
                            lemma_cell_index(w, height as int, yi as int, xi as int);
                            assert(k == (k / w) * w + k % w);
                        }
                    }
                }
            }
            xi = xi + 1;
        }
        yi = yi + 1;
    }
    proof {
        if best.is_some() {
            assert(candidate_near(ids, w, r, c, best_cell));
        }
    }
    best
}

/// Cell `b` lies on the raster within `radius` rows and `radius` columns
/// of cell `a`.
pub open spec fn in_box(width: int, height: int, radius: int, a: int, b: int) -> bool {
    &&& 0 <= b < width * height
    &&& -radius <= b / width - a / width <= radius
    &&& -radius <= b % width - a % width <= radius
}

/// Some cell of the box around cell `i` is set.
pub open spec fn box_dilated(mask: Seq<bool>, width: int, height: int, radius: int, i: int) -> bool {
    exists|b: int| #[trigger] in_box(width, height, radius, i, b) && mask[b]
}

/// The mask after dilation by the box.
pub open spec fn box_dilation(mask: Seq<bool>, width: int, height: int, radius: int) -> Seq<bool> {
    Seq::new(mask.len(), |i: int| box_dilated(mask, width, height, radius, i))
}

/// Every cell of the box around cell `i` is set.
pub open spec fn box_eroded(mask: Seq<bool>, width: int, height: int, radius: int, i: int) -> bool {
    forall|b: int| #[trigger] in_box(width, height, radius, i, b) ==> mask[b]
}

/// The mask after erosion by the box.
pub open spec fn box_erosion(mask: Seq<bool>, width: int, height: int, radius: int) -> Seq<bool> {
    Seq::new(mask.len(), |i: int| box_eroded(mask, width, height, radius, i))
}

/// The rows and columns of the box around row `y`, column `x`, cut to the
/// raster.
fn box_window(y: usize, x: usize, width: usize, height: usize, radius: usize) -> (window: (usize, usize, usize, usize))
    requires
        y < height,
        x < width,
        height + radius <= usize::MAX,
        width + radius <= usize::MAX,
    ensures
        window.0 == (if y >= radius { y - radius } else { 0 }),
        window.1 == (if y + radius < height - 1 { y + radius } else { height - 1 }),
        window.2 == (if x >= radius { x - radius } else { 0 }),
        window.3 == (if x + radius < width - 1 { x + radius } else { width - 1 }),
{
    let top = if y >= radius { y - radius } else { 0 };
    let bottom = if y + radius < height - 1 { y + radius } else { height - 1 };
    let left = if x >= radius { x - radius } else { 0 };
    let right = if x + radius < width - 1 { x + radius } else { width - 1 };
    (top, bottom, left, right)
}

/// Scans the box around `cell`: with `every`, whether all its cells are
/// set; otherwise whether any is.
fn scan_box(mask: &Vec<bool>, width: usize, height: usize, radius: usize, cell: usize, every: bool) -> (result: bool)
    requires
        width > 0,
        mask@.len() == width * height,
        cell < mask@.len(),
        width * height + radius <= usize::MAX,
    ensures
        every ==> result == box_eroded(mask@, width as int, height as int, radius as int, cell as int),
        !every ==> result == box_dilated(mask@, width as int, height as int, radius as int, cell as int),
{
    let ghost w = width as int;
    let ghost h = height as int;
    let ghost r = radius as int;
    let ghost c = cell as int;
    let ghost m = mask@;
    proof {
        lemma_cell_coords(w, h, c);
        assert(height <= width * height && width <= width * height) by (nonlinear_arith)
            requires
                width > 0,
                0 <= c < width * height,
        ;
    }
    let y = cell / width;
    let x = cell % width;
    let (top, bottom, left, right) = box_window(y, x, width, height, radius);
    proof {
        assert forall|b: int| #[trigger] in_box(w, h, r, c, b) implies top <= b / w <= bottom && left <= b % w <= right by {
            lemma_cell_coords(w, h, b);
        }
    }
    let mut result = every;
    let mut yi = top;
    while yi <= bottom
        invariant
            m == mask@,
            w == width,
            h == height,
            r == radius,
            c == cell,
            width > 0,
            m.len() == width * height,
            width * height <= usize::MAX,
            y == c / w,
            x == c % w,
            top <= yi <= bottom + 1,
            bottom < height,
            left <= right < width,
            top == (if y >= radius { y - radius } else { 0 }),
            bottom == (if y + radius < height - 1 { y + radius } else { height - 1 }),
            left == (if x >= radius { x - radius } else { 0 }),
            right == (if x + radius < width - 1 { x + radius } else { width - 1 }),
            forall|b: int| #[trigger] in_box(w, h, r, c, b) ==> top <= b / w <= bottom && left <= b % w <= right,
            every ==> (result == forall|b: int| #[trigger] in_box(w, h, r, c, b) && b / w < yi ==> m[b]),
            !every ==> (result == exists|b: int| #[trigger] in_box(w, h, r, c, b) && b / w < yi && m[b]),
        decreases bottom + 1 - yi,
    {
        let mut xi = left;
        while xi <= right
            invariant
                m == mask@,
                w == width,
                h == height,
                r == radius,
                c == cell,
                width > 0,
                m.len() == width * height,
                width * height <= usize::MAX,
                y == c / w,
                x == c % w,
                top <= yi <= bottom,
                bottom < height,
                left <= xi <= right + 1,
                right < width,
                top == (if y >= radius { y - radius } else { 0 }),
                bottom == (if y + radius < height - 1 { y + radius } else { height - 1 }),
                left == (if x >= radius { x - radius } else { 0 }),
                right == (if x + radius < width - 1 { x + radius } else { width - 1 }),
                forall|b: int| #[trigger] in_box(w, h, r, c, b) ==> top <= b / w <= bottom && left <= b % w <= right,
                every ==> (result == forall|b: int| #[trigger] in_box(w, h, r, c, b)
                    && (b / w < yi || (b / w == yi && b % w < xi)) ==> m[b]),
                !every ==> (result == exists|b: int| #[trigger] in_box(w, h, r, c, b)
                    && (b / w < yi || (b / w == yi && b % w < xi)) && m[b]),
            decreases right + 1 - xi,
        {
            proof {
                lemma_cell_index(w, h, yi as int, xi as int);
            }
            let j = yi * width + xi;
            let value = mask[j];
            proof {
                let jj = j as int;
                assert(in_box(w, h, r, c, jj));
                assert forall|b: int| #[trigger] in_box(w, h, r, c, b) && b / w == yi && b % w == xi implies b == jj by {
                    lemma_cell_coords(w, h, b);
                }
            }
            if every {
                result = result && value;
            } else {
                result = result || value;
            }
            xi = xi + 1;
        }
        yi = yi + 1;
    }
    result
}

/// Closing by a square box of side `2 * radius + 1`, cut at the raster
/// edge: dilation followed by erosion.
pub fn close_mask(mask: &Vec<bool>, width: usize, height: usize, radius: usize) -> (closed: Vec<bool>)
    requires
        width > 0,
        mask@.len() == width * height,
        width * height + radius <= usize::MAX,
    ensures
        closed@ == box_erosion(box_dilation(mask@, width as int, height as int, radius as int), width as int, height as int, radius as int),
{
    let ghost w = width as int;
    let ghost h = height as int;
    let ghost r = radius as int;
    let n = mask.len();
    if radius == 0 {
        let mut copy: Vec<bool> = Vec::with_capacity(n);
        let mut i: usize = 0;
        while i < n
            invariant
                n == mask@.len(),
                i <= n,
                copy@ == mask@.subrange(0, i as int),
            decreases n - i,
        {
            copy.push(mask[i]);
            i = i + 1;
        }
        proof {
            let dilated = box_dilation(mask@, w, h, r);
            assert forall|i: int| 0 <= i < n implies #[trigger] dilated[i] == mask@[i] by {
                lemma_cell_coords(w, h, i);
                assert(in_box(w, h, r, i, i));
                assert forall|b: int| #[trigger] in_box(w, h, r, i, b) implies b == i by {
                    lemma_cell_coords(w, h, b);
                }
            }
            assert forall|i: int| 0 <= i < n implies #[trigger] box_erosion(dilated, w, h, r)[i] == mask@[i] by {
                lemma_cell_coords(w, h, i);
                assert(in_box(w, h, r, i, i));
                assert forall|b: int| #[trigger] in_box(w, h, r, i, b) implies b == i by {
                    lemma_cell_coords(w, h, b);
                }
            }
            assert(copy@ =~= box_erosion(dilated, w, h, r));
        }
        return copy;
    }
    let mut dilated: Vec<bool> = Vec::with_capacity(n);
    let mut i: usize = 0;
    while i < n
        invariant
            n == mask@.len(),
            width > 0,
            n == width * height,
            width * height + radius <= usize::MAX,
            i <= n,
            dilated@ == box_dilation(mask@, w, h, r).subrange(0, i as int),
            w == width,
            h == height,
            r == radius,
        decreases n - i,
    {
        let hit = scan_box(mask, width, height, radius, i, false);
        dilated.push(hit);
        proof {
            assert(dilated@ =~= box_dilation(mask@, w, h, r).subrange(0, i + 1));
        }
        i = i + 1;
    }
    proof {
        assert(dilated@ =~= box_dilation(mask@, w, h, r));
    }
    let mut closed: Vec<bool> = Vec::with_capacity(n);
    let mut i: usize = 0;
    while i < n
        invariant
            n == dilated@.len(),
            width > 0,
            n == width * height,
            width * height + radius <= usize::MAX,
            i <= n,
            closed@ == box_erosion(dilated@, w, h, r).subrange(0, i as int),
            w == width,
            h == height,
            r == radius,
        decreases n - i,
    {
        let all = scan_box(&dilated, width, height, radius, i, true);
        closed.push(all);
        proof {
            assert(closed@ =~= box_erosion(dilated@, w, h, r).subrange(0, i + 1));
        }
        i = i + 1;
    }
    proof {
        assert(closed@ =~= box_erosion(dilated@, w, h, r));
    }
    closed
}

/// Closing by the box keeps every set cell.
pub proof fn lemma_box_closing_keeps_mask(mask: Seq<bool>, width: int, height: int, radius: int, i: int)
    requires
        width > 0,
        mask.len() == width * height,
        0 <= i < mask.len(),
        mask[i],
    ensures
        box_erosion(box_dilation(mask, width, height, radius), width, height, radius)[i],
{
    let dilated = box_dilation(mask, width, height, radius);
    assert forall|b: int| #[trigger] in_box(width, height, radius, i, b) implies dilated[b] by {
        assert(in_box(width, height, radius, b, i));
    }
}

/// `ids` and `components` label the regions of set cells, 8-connected
/// when `eight` holds and 4-connected otherwise: unset cells have id 0; region `c` is listed as `components[c]`, starts
/// at its smallest cell, has id `c + 1`, and regions come in the order of
/// their smallest cell.
pub open spec fn is_region_labelling(mask: Seq<bool>, width: int, height: int, eight: bool, ids: Seq<u32>, components: Seq<Vec<usize>>) -> bool {
    &&& ids.len() == mask.len()
    &&& forall|t: int| 0 <= t < mask.len() ==> (#[trigger] ids[t] == 0 <==> !mask[t])
    &&& forall|t: int| 0 <= t < mask.len() && mask[t]
        ==> 1 <= #[trigger] ids[t] <= components.len() && index_set(components[ids[t] - 1]@).contains(t)
    &&& forall|c: int| 0 <= c < components.len() ==> (#[trigger] components[c])@.len() > 0 && components[c]@.no_duplicates()
    &&& forall|c: int| 0 <= c < components.len()
        ==> index_set((#[trigger] components[c])@) == mask_component(mask, width, height, eight, true, components[c]@[0] as int)
    &&& forall|c: int, t: int| 0 <= c < components.len() && #[trigger] index_set(components[c]@).contains(t)
        ==> ids[t] == c + 1 && components[c]@[0] <= t
    &&& forall|c: int, d: int| 0 <= c < d < components.len() ==> (#[trigger] components[c])@[0] < (#[trigger] components[d])@[0]
}

/// Labels the regions of set cells in raster order, 8-connected when
/// `eight` holds and 4-connected otherwise: the region holding the first
/// set cell gets id 1, the next unlabelled set cell starts region 2, and so
/// on. Each region's cells are listed in the order a breadth-first search
/// from its first cell reaches them.
pub fn label_regions(mask: &Vec<bool>, width: usize, height: usize, eight: bool) -> (labels: (Vec<u32>, Vec<Vec<usize>>))
    requires
        width > 0,
        mask@.len() == width * height,
        mask@.len() < u32::MAX,
    ensures
        is_region_labelling(mask@, width as int, height as int, eight, labels.0@, labels.1@),
{
    let n = mask.len();
    let ghost m = mask@;
    let ghost edge = grid_edge(width as int, height as int, eight);
    let ghost inside = cell_has(m, true);
    let mut ids = filled_u32s(n, 0);
    let mut visited = filled_bools(n, false);
    let mut components: Vec<Vec<usize>> = Vec::new();
    proof {
        lemma_grid_symmetric(width as int, height as int, eight);
        assert(marked(visited@) =~= Set::empty());
    }
    let mut start: usize = 0;
    while start < n
        invariant
            m == mask@,
            edge == grid_edge(width as int, height as int, eight),
            inside == cell_has(m, true),
            symmetric(edge),
            width > 0,
            n == m.len(),
            n == width * height,
            n < u32::MAX,
            start <= n,
            visited@.len() == n,
            ids@.len() == n,
            closed_under(edge, inside, marked(visited@)),
            forall|t: int| 0 <= t < n && #[trigger] visited@[t] ==> m[t],
            forall|t: int| 0 <= t < n ==> (#[trigger] visited@[t] <==> ids@[t] != 0),
            forall|t: int| 0 <= t < start && m[t] ==> #[trigger] visited@[t],
            components@.len() <= start,
            forall|t: int| 0 <= t < n && #[trigger] ids@[t] != 0
                ==> 1 <= ids@[t] <= components@.len() && index_set(components@[ids@[t] - 1]@).contains(t),
            forall|c: int| 0 <= c < components@.len() ==> (#[trigger] components@[c])@.len() > 0 && components@[c]@.no_duplicates(),
            forall|c: int| 0 <= c < components@.len()
                ==> index_set((#[trigger] components@[c])@) == mask_component(m, width as int, height as int, eight, true, components@[c]@[0] as int),
            forall|c: int, t: int| 0 <= c < components@.len() && #[trigger] index_set(components@[c]@).contains(t)
                ==> 0 <= t < n && ids@[t] == c + 1 && components@[c]@[0] <= t,
            forall|c: int| 0 <= c < components@.len() ==> (#[trigger] components@[c])@[0] < start,
            forall|c: int, d: int| 0 <= c < d < components@.len() ==> (#[trigger] components@[c])@[0] < (#[trigger] components@[d])@[0],
        decreases n - start,
    {
        if !mask[start] || visited[start] {
            start = start + 1;
            continue;
        }
        let ghost visited_before = visited@;
        let ghost ids_before = ids@;
        let ghost old_components = components@;
        let cells = grid_component(mask, true, &mut visited, start, width, height, eight);
        let ghost found = index_set(cells@);
        let id = components.len() as u32 + 1;
        let mut k: usize = 0;
        while k < cells.len()
            invariant
                ids@.len() == n,
                ids_before.len() == n,
                k <= cells@.len(),
                forall|j: int| 0 <= j < cells@.len() ==> #[trigger] cells@[j] < n,
                forall|t: int| 0 <= t < n ==> #[trigger] ids@[t] == (if cells@.subrange(0, k as int).contains(t as usize) {
                    id
                } else {
                    ids_before[t]
                }),
            decreases cells@.len() - k,
        {
            let cell = cells[k];
            ids.set(cell, id);
            proof {
                assert forall|t: int| 0 <= t < n implies #[trigger] ids@[t] == (if cells@.subrange(0, k + 1).contains(t as usize) {
                    id
                } else {
                    ids_before[t]
                }) by {
                    let shorter = cells@.subrange(0, k as int);
                    let longer = cells@.subrange(0, k + 1);
                    if shorter.contains(t as usize) {
                        let j = choose|j: int| 0 <= j < shorter.len() && #[trigger] shorter[j] == t as usize;
                        assert(longer[j] == t as usize);
                    }
                    if longer.contains(t as usize) && t != cell as int {
                        let j = choose|j: int| 0 <= j < longer.len() && #[trigger] longer[j] == t as usize;
                        assert(shorter[j] == t as usize);
                    }
                    if t == cell as int {
                        assert(longer[k as int] == t as usize);
                    }
                }
            }
            k = k + 1;
        }
        proof {
            assert(cells@.subrange(0, cells@.len() as int) =~= cells@);
            assert forall|t: int| 0 <= t < n implies #[trigger] ids@[t] == (if found.contains(t) { id } else { ids_before[t] }) by {
                if found.contains(t) {
                    let j = choose|j: int| 0 <= j < cells@.len() && cells@[j] == t;
                    assert(cells@.contains(t as usize));
                } else if cells@.contains(t as usize) {
                    let j = choose|j: int| 0 <= j < cells@.len() && cells@[j] == t as usize;
                    assert(found.contains(t));
                }
            }
            assert forall|t: int| found.contains(t) implies 0 <= t < n && m[t] && !visited_before[t] && start <= t by {
                let j = choose|j: int| 0 <= j < cells@.len() && cells@[j] == t;
                assert(mask_component(m, width as int, height as int, eight, true, start as int).contains(t));
                lemma_linked_inside(edge, inside, start as int, t);
                if t < start {
                    assert(visited_before[t]);
                }
            }
            assert(found.contains(start as int)) by {
                assert(cells@[0] == start);
            }
            assert forall|t: int| 0 <= t < n implies (#[trigger] visited@[t] <==> visited_before[t] || found.contains(t)) by {
                assert(marked(visited@).contains(t) == visited@[t]);
                assert(marked(visited_before).contains(t) == visited_before[t]);
            }
        }
        components.push(cells);
        proof {
            let c_new = old_components.len() as int;
            assert(components@[c_new]@ == cells@);
            assert forall|c: int, t: int| 0 <= c < components@.len() && #[trigger] index_set(components@[c]@).contains(t)
                implies 0 <= t < n && ids@[t] == c + 1 && components@[c]@[0] <= t by {
                if c < c_new {
                    assert(components@[c] == old_components[c]);
                    assert(index_set(old_components[c]@).contains(t));
                    assert(ids_before[t] != 0);
                    assert(visited_before[t]);
                    assert(!found.contains(t));
                } else {
                    assert(found.contains(t));
                }
            }
            assert forall|t: int| 0 <= t < n && #[trigger] ids@[t] != 0
                implies 1 <= ids@[t] <= components@.len() && index_set(components@[ids@[t] - 1]@).contains(t) by {
                if found.contains(t) {
                    assert(ids@[t] == c_new + 1);
                } else {
                    assert(ids@[t] == ids_before[t]);
                    assert(components@[ids_before[t] - 1] == old_components[ids_before[t] - 1]);
                }
            }
            assert forall|c: int| 0 <= c < components@.len() implies index_set((#[trigger] components@[c])@)
                == mask_component(m, width as int, height as int, eight, true, components@[c]@[0] as int) by {
                if c < c_new {
                    assert(components@[c] == old_components[c]);
                }
            }
            assert forall|c: int| 0 <= c < components@.len() implies (#[trigger] components@[c])@.len() > 0
                && components@[c]@.no_duplicates() by {
                if c < c_new {
                    assert(components@[c] == old_components[c]);
                }
            }
            assert forall|c: int, d: int| 0 <= c < d < components@.len()
                implies (#[trigger] components@[c])@[0] < (#[trigger] components@[d])@[0] by {
                if d < c_new {
                    assert(components@[c] == old_components[c]);
                    assert(components@[d] == old_components[d]);
                } else {
                    assert(components@[c] == old_components[c]);
                }
            }
            assert forall|c: int| 0 <= c < components@.len() implies (#[trigger] components@[c])@[0] < start + 1 by {
                if c < c_new {
                    assert(components@[c] == old_components[c]);
                }
            }
        }
        start = start + 1;
    }
    proof {
        assert forall|t: int| 0 <= t < n && m[t]
            implies 1 <= #[trigger] ids@[t] <= components@.len() && index_set(components@[ids@[t] - 1]@).contains(t) by {
            assert(visited@[t]);
        }
        assert forall|t: int| 0 <= t < n implies (#[trigger] ids@[t] == 0 <==> !m[t]) by {
            assert(visited@[t] <==> ids@[t] != 0);
            if m[t] {
                assert(visited@[t]);
            }
        }
    }
    (ids, components)
}

/// Labels the 8-connected regions of candidate cells in raster order: the
/// region holding the first candidate cell gets id 1, and so on.
pub fn label_candidate_components(mask: &Vec<bool>, width: usize, height: usize) -> (labels: (Vec<u32>, Vec<Vec<usize>>))
    requires
        width > 0,
        mask@.len() == width * height,
        mask@.len() < u32::MAX,
    ensures
        is_region_labelling(mask@, width as int, height as int, true, labels.0@, labels.1@),
{
    label_regions(mask, width, height, true)
}

/// Law: every set cell lies in exactly one labelled region.
pub proof fn lemma_labelled_regions_disjoint(
    mask: Seq<bool>,
    width: int,
    height: int,
    eight: bool,
    ids: Seq<u32>,
    components: Seq<Vec<usize>>,
    t: int,
    c: int,
    d: int,
)
    requires
        is_region_labelling(mask, width, height, eight, ids, components),
        0 <= c < components.len(),
        0 <= d < components.len(),
        index_set(components[c]@).contains(t),
        index_set(components[d]@).contains(t),
    ensures
        c == d,
{
}

/// Keeps the 8-connected regions of seed cells with at least
/// `minimum_cells` cells.
pub fn retain_candidate_components(seeds: &Vec<bool>, width: usize, height: usize, minimum_cells: usize) -> (retained: Vec<bool>)
    requires
        width > 0,
        seeds@.len() == width * height,
    ensures
        retained@.len() == seeds@.len(),
        forall|i: int| 0 <= i < seeds@.len() ==> #[trigger] retained@[i]
            == in_large_region(seeds@, width as int, height as int, minimum_cells as int, i),
{
    large_regions(seeds, width, height, minimum_cells)
}

/// The seed cells in regions of at least `minimum_cells` cells.
pub open spec fn large_seed_regions(seeds: Seq<bool>, width: int, height: int, minimum_cells: int) -> Seq<bool> {
    Seq::new(seeds.len(), |i: int| in_large_region(seeds, width, height, minimum_cells, i))
}

/// The candidate building mask built from the seed cells: regions of at
/// least `minimum_cells` seeds, closed with a box of radius `radius` to
/// join nearby parts, with enclosed holes of at most `maximum_hole_cells`
/// cells filled.
pub fn merge_candidates(
    seeds: &Vec<bool>,
    width: usize,
    height: usize,
    minimum_cells: usize,
    radius: usize,
    maximum_hole_cells: usize,
) -> (merged: Vec<bool>)
    requires
        width > 0,
        seeds@.len() == width * height,
        width * height + radius <= usize::MAX,
    ensures
        merged@ == holes_filled(
            box_erosion(
                box_dilation(large_seed_regions(seeds@, width as int, height as int, minimum_cells as int), width as int,
                    height as int, radius as int),
                width as int, height as int, radius as int),
            width as int, height as int, maximum_hole_cells as int),
        forall|i: int| 0 <= i < seeds@.len() && #[trigger] in_large_region(seeds@, width as int, height as int,
            minimum_cells as int, i) ==> merged@[i],
{
    let retained = retain_candidate_components(seeds, width, height, minimum_cells);
    proof {
        assert(retained@ =~= large_seed_regions(seeds@, width as int, height as int, minimum_cells as int));
    }
    let mut merged = close_mask(&retained, width, height, radius);
    let ghost closed = merged@;
    fill_small_holes(&mut merged, width, height, maximum_hole_cells);
    proof {
        assert(merged@ =~= holes_filled(closed, width as int, height as int, maximum_hole_cells as int));
        assert forall|i: int| 0 <= i < seeds@.len() && #[trigger] in_large_region(seeds@, width as int, height as int,
            minimum_cells as int, i) implies merged@[i] by {
            lemma_box_closing_keeps_mask(retained@, width as int, height as int, radius as int, i);
        }
    }
    merged
}

/// The first cells of the labelled regions, in order.
pub open spec fn region_starts(components: Seq<Vec<usize>>) -> Seq<int> {
    Seq::new(components.len(), |c: int| components[c]@[0] as int)
}

/// Cell `t` is set and is the smallest cell of its region.
pub open spec fn region_minimum(mask: Seq<bool>, width: int, height: int, eight: bool, t: int) -> bool {
    &&& 0 <= t < mask.len()
    &&& mask[t]
    &&& forall|u: int| #[trigger] mask_component(mask, width, height, eight, true, t).contains(u) ==> t <= u
}

/// The starts of a labelling are exactly the region minima.
proof fn lemma_starts_are_minima(mask: Seq<bool>, width: int, height: int, eight: bool, ids: Seq<u32>, components: Seq<Vec<usize>>, t: int)
    requires
        is_region_labelling(mask, width, height, eight, ids, components),
    ensures
        region_starts(components).contains(t) <==> region_minimum(mask, width, height, eight, t),
{
    let edge = grid_edge(width, height, eight);
    let inside = cell_has(mask, true);
    lemma_grid_symmetric(width, height, eight);
    let starts = region_starts(components);
    if starts.contains(t) {
        let c = choose|c: int| 0 <= c < starts.len() && starts[c] == t;
        let cells = components[c]@;
        assert(index_set(cells).contains(t)) by {
            assert(cells[0] == t);
        }
        assert(ids[t] == c + 1);
        assert forall|u: int| #[trigger] mask_component(mask, width, height, eight, true, t).contains(u) implies t <= u by {
            assert(index_set(cells).contains(u));
        }
        assert(0 <= t < mask.len() && mask[t]) by {
            lemma_linked_inside(edge, inside, t, t);
        }
    }
    if region_minimum(mask, width, height, eight, t) {
        assert(1 <= ids[t] <= components.len() && index_set(components[ids[t] - 1]@).contains(t));
        let c = ids[t] - 1;
        let s = components[c]@[0] as int;
        assert(mask_component(mask, width, height, eight, true, s).contains(t));
        lemma_linked_symmetric(edge, inside, s, t);
        assert(mask_component(mask, width, height, eight, true, t).contains(s));
        assert(s <= t);
        assert(starts[c] == s);
    }
}

/// Two strictly increasing sequences with the same members are equal.
proof fn lemma_increasing_same_members(a: Seq<int>, b: Seq<int>)
    requires
        forall|i: int, j: int| 0 <= i < j < a.len() ==> a[i] < a[j],
        forall|i: int, j: int| 0 <= i < j < b.len() ==> b[i] < b[j],
        forall|t: int| a.contains(t) <==> b.contains(t),
    ensures
        a == b,
    decreases a.len() + b.len(),
{
    if a.len() == 0 || b.len() == 0 {
        if a.len() > 0 {
            assert(a.contains(a[0]));
        }
        if b.len() > 0 {
            assert(b.contains(b[0]));
        }
        assert(a =~= b);
    } else {
        assert(a.contains(a[0]));
        assert(b.contains(b[0]));
        let i = choose|i: int| 0 <= i < b.len() && b[i] == a[0];
        let j = choose|j: int| 0 <= j < a.len() && a[j] == b[0];
        if i > 0 {
            assert(b[0] < b[i]);
            if j > 0 {
                assert(a[0] < a[j]);
            }
        }
        if j > 0 {
            assert(a[0] < a[j]);
        }
        assert(a[0] == b[0]);
        let a1 = a.drop_first();
        let b1 = b.drop_first();
        assert forall|t: int| a1.contains(t) <==> b1.contains(t) by {
            if a1.contains(t) {
                let k = choose|k: int| 0 <= k < a1.len() && a1[k] == t;
                assert(a[k + 1] == t && a[0] < t);
                assert(b.contains(t));
                let m = choose|m: int| 0 <= m < b.len() && b[m] == t;
                assert(m != 0);
                assert(b1[m - 1] == t);
            }
            if b1.contains(t) {
                let k = choose|k: int| 0 <= k < b1.len() && b1[k] == t;
                assert(b[k + 1] == t && b[0] < t);
                assert(a.contains(t));
                let m = choose|m: int| 0 <= m < a.len() && a[m] == t;
                assert(m != 0);
                assert(a1[m - 1] == t);
            }
        }
        lemma_increasing_same_members(a1, b1);
        assert(a =~= b) by {
            assert forall|k: int| 0 <= k < a.len() implies a[k] == b[k] by {
                if k > 0 {
                    assert(a[k] == a1[k - 1]);
                    assert(b[k] == b1[k - 1]);
                }
            }
        }
    }
}

/// Law: the labelling of a mask is unique. Ids go by region in the order of
/// each region's smallest cell, so they do not depend on how the work was
/// scheduled.
pub proof fn lemma_labelling_is_unique(
    mask: Seq<bool>,
    width: int,
    height: int,
    eight: bool,
    ids: Seq<u32>,
    components: Seq<Vec<usize>>,
    other_ids: Seq<u32>,
    other_components: Seq<Vec<usize>>,
)
    requires
        is_region_labelling(mask, width, height, eight, ids, components),
        is_region_labelling(mask, width, height, eight, other_ids, other_components),
    ensures
        ids == other_ids,
        components.len() == other_components.len(),
        forall|c: int| 0 <= c < components.len()
            ==> index_set(#[trigger] components[c]@) == index_set(other_components[c]@),
{
    let starts = region_starts(components);
    let other_starts = region_starts(other_components);
    assert forall|t: int| starts.contains(t) <==> other_starts.contains(t) by {
        lemma_starts_are_minima(mask, width, height, eight, ids, components, t);
        lemma_starts_are_minima(mask, width, height, eight, other_ids, other_components, t);
    }
    lemma_increasing_same_members(starts, other_starts);
    assert(components.len() == other_components.len()) by {
        assert(starts.len() == other_starts.len());
    }
    assert forall|c: int| 0 <= c < components.len()
        implies index_set(#[trigger] components[c]@) == index_set(other_components[c]@) by {
        assert(starts[c] == other_starts[c]);
    }
    assert forall|t: int| 0 <= t < ids.len() implies ids[t] == other_ids[t] by {
        if mask[t] {
            let c = ids[t] - 1;
            assert(index_set(components[c]@).contains(t));
            assert(starts[c] == other_starts[c]);
            assert(index_set(other_components[c]@).contains(t));
        } else {
            assert(ids[t] == 0);
            assert(other_ids[t] == 0);
        }
    }
    assert(ids =~= other_ids);
}

/// The side of cell `c` towards row offset `dy`, column offset `dx` borders
/// the raster edge or a clear cell.
pub open spec fn side_exposed(mask: Seq<bool>, width: int, height: int, c: int, dy: int, dx: int) -> bool {
    let ny = c / width + dy;
    let nx = c % width + dx;
    !(0 <= ny < height && 0 <= nx < width) || !mask[ny * width + nx]
}

/// How many of the four sides of cell `c` are exposed.
pub open spec fn exposed_sides(mask: Seq<bool>, width: int, height: int, c: int) -> nat {
    (if side_exposed(mask, width, height, c, -1, 0) { 1nat } else { 0nat })
        + (if side_exposed(mask, width, height, c, 0, 1) { 1nat } else { 0nat })
        + (if side_exposed(mask, width, height, c, 1, 0) { 1nat } else { 0nat })
        + (if side_exposed(mask, width, height, c, 0, -1) { 1nat } else { 0nat })
}

/// The number of exposed cell sides of the cells.
pub open spec fn perimeter_edges(mask: Seq<bool>, width: int, height: int, cells: Seq<usize>) -> nat
    decreases cells.len(),
{
    if cells.len() == 0 {
        0
    } else {
        perimeter_edges(mask, width, height, cells.drop_last()) + exposed_sides(mask, width, height, cells.last() as int)
    }
}

/// The smallest of `values`, or `start` when there is none smaller.
pub open spec fn least(values: Seq<int>, start: int) -> int
    decreases values.len(),
{
    if values.len() == 0 {
        start
    } else {
        let rest = least(values.drop_last(), start);
        if values.last() < rest {
            values.last()
        } else {
            rest
        }
    }
}

/// The largest of `values`, or `start` when there is none larger.
pub open spec fn greatest(values: Seq<int>, start: int) -> int
    decreases values.len(),
{
    if values.len() == 0 {
        start
    } else {
        let rest = greatest(values.drop_last(), start);
        if values.last() > rest {
            values.last()
        } else {
            rest
        }
    }
}

/// The columns of the cells.
pub open spec fn columns(width: int, cells: Seq<usize>) -> Seq<int> {
    Seq::new(cells.len(), |k: int| cells[k] as int % width)
}

/// The rows of the cells.
pub open spec fn rows(width: int, cells: Seq<usize>) -> Seq<int> {
    Seq::new(cells.len(), |k: int| cells[k] as int / width)
}

/// The size, exposed sides and bounding rows and columns of a region.
#[derive(Clone, Copy, Debug, PartialEq, Eq, Structural)]
pub struct RegionShape {
    pub cells: usize,
    pub perimeter_edges: usize,
    pub min_x: usize,
    pub max_x: usize,
    pub min_y: usize,
    pub max_y: usize,
}

/// The shape of the region made of `cells`.
pub open spec fn shape_of(mask: Seq<bool>, width: int, height: int, cells: Seq<usize>) -> RegionShape {
    RegionShape {
        cells: cells.len() as usize,
        perimeter_edges: perimeter_edges(mask, width, height, cells) as usize,
        min_x: least(columns(width, cells), width) as usize,
        max_x: greatest(columns(width, cells), 0) as usize,
        min_y: least(rows(width, cells), height) as usize,
        max_y: greatest(rows(width, cells), 0) as usize,
    }
}

/// Whether the side of row `y`, column `x` towards `(dy, dx)` is exposed.
fn side_is_exposed(mask: &Vec<bool>, width: usize, height: usize, y: usize, x: usize, dy: isize, dx: isize) -> (exposed: bool)
    requires
        mask@.len() == width * height,
        width * height <= isize::MAX,
        y < height,
        x < width,
        -1 <= dy <= 1,
        -1 <= dx <= 1,
    ensures
        exposed == side_exposed(mask@, width as int, height as int, y * width + x, dy as int, dx as int),
{
    proof {
        lemma_cell_index(width as int, height as int, y as int, x as int);
        assert(height <= width * height && width <= width * height) by (nonlinear_arith)
            requires
                y < height,
                x < width,
        ;
    }
    let ny = y as isize + dy;
    let nx = x as isize + dx;
    if ny < 0 || nx < 0 || ny >= height as isize || nx >= width as isize {
        true
    } else {
        proof {
            lemma_cell_index(width as int, height as int, ny as int, nx as int);
        }
        !mask[ny as usize * width + nx as usize]
    }
}

/// The size, exposed sides and bounding rows and columns of the region made
/// of `cells`.
pub fn region_shape(mask: &Vec<bool>, width: usize, height: usize, cells: &Vec<usize>) -> (shape: RegionShape)
    requires
        width > 0,
        mask@.len() == width * height,
        width * height <= isize::MAX,
        forall|k: int| 0 <= k < cells@.len() ==> #[trigger] cells@[k] < mask@.len(),
        4 * cells@.len() <= usize::MAX,
    ensures
        shape == shape_of(mask@, width as int, height as int, cells@),
{
    let ghost w = width as int;
    let ghost h = height as int;
    let mut perimeter: usize = 0;
    let mut min_x = width;
    let mut max_x: usize = 0;
    let mut min_y = height;
    let mut max_y: usize = 0;
    let mut k: usize = 0;
    while k < cells.len()
        invariant
            width > 0,
            w == width,
            h == height,
            mask@.len() == width * height,
            width * height <= isize::MAX,
            forall|j: int| 0 <= j < cells@.len() ==> #[trigger] cells@[j] < mask@.len(),
            4 * cells@.len() <= usize::MAX,
            k <= cells@.len(),
            perimeter == perimeter_edges(mask@, w, h, cells@.subrange(0, k as int)),
            perimeter <= 4 * k,
            min_x == least(columns(w, cells@.subrange(0, k as int)), w),
            max_x == greatest(columns(w, cells@.subrange(0, k as int)), 0),
            min_y == least(rows(w, cells@.subrange(0, k as int)), h),
            max_y == greatest(rows(w, cells@.subrange(0, k as int)), 0),
            min_x <= width,
            min_y <= height,
            max_x < width || max_x == 0,
            max_y < height || max_y == 0,
        decreases cells@.len() - k,
    {
        let cell = cells[k];
        proof {
            lemma_cell_coords(w, h, cell as int);
        }
        let y = cell / width;
        let x = cell % width;
        let mut sides: usize = 0;
        if side_is_exposed(mask, width, height, y, x, -1, 0) {
            sides = sides + 1;
        }
        if side_is_exposed(mask, width, height, y, x, 0, 1) {
            sides = sides + 1;
        }
        if side_is_exposed(mask, width, height, y, x, 1, 0) {
            sides = sides + 1;
        }
        if side_is_exposed(mask, width, height, y, x, 0, -1) {
            sides = sides + 1;
        }
        proof {
            let shorter = cells@.subrange(0, k as int);
            let longer = cells@.subrange(0, k + 1);
            assert(longer.drop_last() =~= shorter);
            assert(columns(w, longer).drop_last() =~= columns(w, shorter));
            assert(rows(w, longer).drop_last() =~= rows(w, shorter));
            assert(y * width + x == cell);
        }
        perimeter = perimeter + sides;
        if x < min_x {
            min_x = x;
        }
        if x > max_x {
            max_x = x;
        }
        if y < min_y {
            min_y = y;
        }
        if y > max_y {
            max_y = y;
        }
        k = k + 1;
    }
    proof {
        assert(cells@.subrange(0, cells@.len() as int) =~= cells@);
    }
    RegionShape { cells: cells.len(), perimeter_edges: perimeter, min_x, max_x, min_y, max_y }
}

/// The 4-connected regions of the merged candidate mask in raster order,
/// with the shape of each: labels as [`label_regions`] gives them, and
/// `shapes[c]` the shape of region `c`.
pub fn candidate_regions(mask: &Vec<bool>, width: usize, height: usize) -> (regions: (Vec<u32>, Vec<Vec<usize>>, Vec<RegionShape>))
    requires
        width > 0,
        mask@.len() == width * height,
        mask@.len() < u32::MAX,
        4 * mask@.len() <= usize::MAX,
        width * height <= isize::MAX,
    ensures
        is_region_labelling(mask@, width as int, height as int, false, regions.0@, regions.1@),
        regions.2@.len() == regions.1@.len(),
        forall|c: int| 0 <= c < regions.1@.len()
            ==> #[trigger] regions.2@[c] == shape_of(mask@, width as int, height as int, regions.1@[c]@),
{
    let (ids, components) = label_regions(mask, width, height, false);
    let ghost edge = grid_edge(width as int, height as int, false);
    let ghost inside = cell_has(mask@, true);
    let mut shapes: Vec<RegionShape> = Vec::with_capacity(components.len());
    let mut c: usize = 0;
    while c < components.len()
        invariant
            width > 0,
            mask@.len() == width * height,
            4 * mask@.len() <= usize::MAX,
            width * height <= isize::MAX,
            edge == grid_edge(width as int, height as int, false),
            inside == cell_has(mask@, true),
            is_region_labelling(mask@, width as int, height as int, false, ids@, components@),
            c <= components@.len(),
            shapes@.len() == c,
            forall|d: int| 0 <= d < c ==> #[trigger] shapes@[d] == shape_of(mask@, width as int, height as int, components@[d]@),
        decreases components@.len() - c,
    {
        let cells = &components[c];
        proof {
            let start = cells@[0] as int;
            assert forall|k: int| 0 <= k < cells@.len() implies #[trigger] cells@[k] < mask@.len() by {
                assert(index_set(cells@).contains(cells@[k] as int));
                assert(mask_component(mask@, width as int, height as int, false, true, start).contains(cells@[k] as int));
                lemma_linked_inside(edge, inside, start, cells@[k] as int);
            }
            lemma_index_set_len(cells@);
            let range = vstd::set_lib::set_int_range(0, mask@.len() as int);
            assert(index_set(cells@).subset_of(range));
            vstd::set_lib::lemma_int_range(0, mask@.len() as int);
            vstd::set_lib::lemma_len_subset(index_set(cells@), range);
        }
        let shape = region_shape(mask, width, height, cells);
        shapes.push(shape);
        c = c + 1;
    }
    (ids, components, shapes)
}

} // verus!

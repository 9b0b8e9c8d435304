//! The integer side of marsh detection: reason codes and the morphology that
//! turns the seeded growth mask into the final marsh mask.

use vstd::prelude::*;
use crate::map_gen::common::grid::{enclosed_small_hole, fill_small_holes, in_large_region, large_regions, lemma_cell_coords, lemma_cell_index};

verus! {

/// Stable codes written into the marsh reason raster. Exclusions take
/// precedence; otherwise the code names the strongest weighted positive
/// evidence family.
#[derive(Clone, Copy, Debug, Eq, PartialEq, Structural)]
pub enum MarshReasonCode {
    NoReason,
    InsufficientObservationSupport,
    OpenWater,
    Building,
    NonPlanarSurface,
    EdgeDependentDrainage,
    Terrain,
    Hydrology,
}

/// The stored value of each reason code.
pub open spec fn reason_value(code: MarshReasonCode) -> u8 {
    match code {
        MarshReasonCode::NoReason => 0,
        MarshReasonCode::InsufficientObservationSupport => 1,
        MarshReasonCode::OpenWater => 2,
        MarshReasonCode::Building => 3,
        MarshReasonCode::NonPlanarSurface => 4,
        MarshReasonCode::EdgeDependentDrainage => 5,
        MarshReasonCode::Terrain => 10,
        MarshReasonCode::Hydrology => 11,
    }
}

impl MarshReasonCode {
    /// The value stored in the reason raster for this code.
    pub fn code(self) -> (value: u8)
        ensures
            value == reason_value(self),
    {
        match self {
            MarshReasonCode::NoReason => 0,
            MarshReasonCode::InsufficientObservationSupport => 1,
            MarshReasonCode::OpenWater => 2,
            MarshReasonCode::Building => 3,
            MarshReasonCode::NonPlanarSurface => 4,
            MarshReasonCode::EdgeDependentDrainage => 5,
            MarshReasonCode::Terrain => 10,
            MarshReasonCode::Hydrology => 11,
        }
    }
}

/// `(dy, dx)` is a cell offset inside the disk of the given radius.
pub open spec fn in_disk(radius: int, dy: int, dx: int) -> bool {
    &&& -radius <= dy <= radius
    &&& -radius <= dx <= radius
    &&& dx * dx + dy * dy <= radius * radius
}

/// Offsets up to `radius` cells fit in `isize` arithmetic on a raster of
/// `cells` cells.
pub open spec fn offsets_fit(cells: int, radius: int) -> bool {
    &&& 2 * radius * radius <= isize::MAX
    &&& cells + radius <= isize::MAX
}

/// The offsets of the disk of the given radius, row by row.
pub fn disk_offsets(radius: usize) -> (offsets: Vec<(isize, isize)>)
    requires
        offsets_fit(0, radius as int),
    ensures
        forall|k: int| 0 <= k < offsets@.len() ==> in_disk(radius as int, #[trigger] offsets@[k].0 as int, offsets@[k].1 as int),
        forall|dy: int, dx: int| #[trigger] in_disk(radius as int, dy, dx)
            ==> exists|k: int| 0 <= k < offsets@.len() && offsets@[k].0 == dy && offsets@[k].1 == dx,
{
    let r = radius as isize;
    proof {
        assert(radius * radius <= 2 * radius * radius) by (nonlinear_arith);
        assert(radius <= radius * radius || radius == 0) by (nonlinear_arith);
        assert(radius < isize::MAX) by (nonlinear_arith)
            requires
                2 * radius * radius <= isize::MAX,
        ;
    }
    let radius2 = r * r;
    let mut offsets: Vec<(isize, isize)> = Vec::new();
    let mut dy: isize = -r;
    while dy <= r
        invariant
            r == radius,
            radius2 == r * r,
            2 * r * r <= isize::MAX,
            r < isize::MAX,
            -r <= dy <= r + 1,
            forall|k: int| 0 <= k < offsets@.len() ==> in_disk(r as int, #[trigger] offsets@[k].0 as int, offsets@[k].1 as int),
            forall|ey: int, ex: int| #[trigger] in_disk(r as int, ey, ex) && ey < dy
                ==> exists|k: int| 0 <= k < offsets@.len() && offsets@[k].0 == ey && offsets@[k].1 == ex,
        decreases r + 1 - dy,
    {
        let mut dx: isize = -r;
        while dx <= r
            invariant
                r == radius,
                radius2 == r * r,
                2 * r * r <= isize::MAX,
                r < isize::MAX,
                -r <= dy <= r,
                -r <= dx <= r + 1,
                forall|k: int| 0 <= k < offsets@.len() ==> in_disk(r as int, #[trigger] offsets@[k].0 as int, offsets@[k].1 as int),
                forall|ey: int, ex: int| #[trigger] in_disk(r as int, ey, ex) && (ey < dy || (ey == dy && ex < dx))
                    ==> exists|k: int| 0 <= k < offsets@.len() && offsets@[k].0 == ey && offsets@[k].1 == ex,
            decreases r + 1 - dx,
        {
            proof {
                assert(dx * dx <= r * r) by (nonlinear_arith)
                    requires
                        -r <= dx <= r,
                ;
                assert(dy * dy <= r * r) by (nonlinear_arith)
                    requires
                        -r <= dy <= r,
                ;
                assert(0 <= dx * dx && 0 <= dy * dy && dx * dx + dy * dy <= isize::MAX) by (nonlinear_arith)
                    requires
                        -r <= dx <= r,
                        -r <= dy <= r,
                        2 * r * r <= isize::MAX,
                ;
            }
            let inside = dx * dx + dy * dy <= radius2;
            let ghost before = offsets@;
            if inside {
                offsets.push((dy, dx));
            }
            proof {
                assert forall|ey: int, ex: int| #[trigger] in_disk(r as int, ey, ex) && (ey < dy || (ey == dy && ex < dx + 1))
                    implies exists|k: int| 0 <= k < offsets@.len() && offsets@[k].0 == ey && offsets@[k].1 == ex by {
                    if ey == dy && ex == dx {
                        assert(offsets@[before.len() as int] == (dy, dx));
                    } else {
                        let k = choose|k: int| 0 <= k < before.len() && before[k].0 == ey && before[k].1 == ex;
                        assert(offsets@[k] == before[k]);
                    }
                }
                assert forall|k: int| 0 <= k < offsets@.len() implies in_disk(r as int, #[trigger] offsets@[k].0 as int, offsets@[k].1 as int) by {
                    if k < before.len() {
                        assert(offsets@[k] == before[k]);
                    }
                }
            }
            dx = dx + 1;
        }
        dy = dy + 1;
    }
    offsets
}

/// The disk offset `(dy, dx)` from row `y`, column `x` lands on a raster
/// cell whose mask value is set.
pub open spec fn disk_hit(mask: Seq<bool>, width: int, height: int, y: int, x: int, dy: int, dx: int) -> bool {
    &&& 0 <= y + dy < height
    &&& 0 <= x + dx < width
    &&& mask[(y + dy) * width + x + dx]
}

/// Dilation by the disk: some disk cell around cell `i` is set.
pub open spec fn dilated(mask: Seq<bool>, width: int, height: int, radius: int, i: int) -> bool {
    exists|dy: int, dx: int| #[trigger] in_disk(radius, dy, dx) && disk_hit(mask, width, height, i / width, i % width, dy, dx)
}

/// Erosion by the disk: every disk cell around cell `i` lies on the raster
/// and is set.
pub open spec fn eroded(mask: Seq<bool>, width: int, height: int, radius: int, i: int) -> bool {
    forall|dy: int, dx: int| #[trigger] in_disk(radius, dy, dx) ==> disk_hit(mask, width, height, i / width, i % width, dy, dx)
}

/// The mask after dilation by the disk.
pub open spec fn dilation(mask: Seq<bool>, width: int, height: int, radius: int) -> Seq<bool> {
    Seq::new(mask.len(), |i: int| dilated(mask, width, height, radius, i))
}

/// The mask after erosion by the disk.
pub open spec fn erosion(mask: Seq<bool>, width: int, height: int, radius: int) -> Seq<bool> {
    Seq::new(mask.len(), |i: int| eroded(mask, width, height, radius, i))
}

/// Whether the offset lands on a set cell.
fn offset_hits(mask: &Vec<bool>, width: usize, height: usize, y: usize, x: usize, offset: (isize, isize)) -> (hit: bool)
    requires
        mask@.len() == width * height,
        y < height,
        x < width,
        width * height <= isize::MAX,
        width * height + offset.0 <= isize::MAX,
        width * height + offset.1 <= isize::MAX,
        offset.0 >= -isize::MAX,
        offset.1 >= -isize::MAX,
    ensures
        hit == disk_hit(mask@, width as int, height as int, y as int, x as int, offset.0 as int, offset.1 as int),
{
    proof {
        assert(y <= width * height && x <= width * height && height <= width * height && width <= width * height) by (nonlinear_arith)
            requires
                y < height,
                x < width,
        ;
    }
    let ny = y as isize + offset.0;
    let nx = x as isize + offset.1;
    if ny >= 0 && nx >= 0 && ny < height as isize && nx < width as isize {
        proof {
            lemma_cell_index(width as int, height as int, ny as int, nx as int);
        }
        mask[ny as usize * width + nx as usize]
    } else {
        false
    }
}

/// A copy of the mask.
fn copy_mask(mask: &Vec<bool>) -> (copy: Vec<bool>)
    ensures
        copy@ == mask@,
{
    let mut copy: Vec<bool> = Vec::with_capacity(mask.len());
    let mut i: usize = 0;
    while i < mask.len()
        invariant
            i <= mask@.len(),
            copy@ == mask@.subrange(0, i as int),
        decreases mask@.len() - i,
    {
        copy.push(mask[i]);
        i = i + 1;
    }
    assert(copy@ =~= mask@);
    copy
}

/// With radius zero the disk is the cell itself.
proof fn lemma_zero_disk(mask: Seq<bool>, width: int, height: int, i: int)
    requires
        width > 0,
        mask.len() == width * height,
        0 <= i < mask.len(),
    ensures
        dilated(mask, width, height, 0, i) == mask[i],
        eroded(mask, width, height, 0, i) == mask[i],
{
    lemma_cell_coords(width, height, i);
    let y = i / width;
    let x = i % width;
    assert(in_disk(0, 0, 0));
    assert(disk_hit(mask, width, height, y, x, 0, 0) == mask[i]);
}

/// Dilation by a disk: a cell is set when some cell within `radius` of it is
/// set.
pub fn dilate(mask: &Vec<bool>, width: usize, height: usize, radius: usize) -> (output: Vec<bool>)
    requires
        width > 0,
        mask@.len() == width * height,
        offsets_fit(mask@.len() as int, radius as int),
    ensures
        output@ == dilation(mask@, width as int, height as int, radius as int),
{
    if radius == 0 {
        let output = copy_mask(mask);
        proof {
            assert forall|i: int| 0 <= i < mask@.len() implies output@[i] == dilated(mask@, width as int, height as int, 0, i) by {
                lemma_zero_disk(mask@, width as int, height as int, i);
            }
            assert(output@ =~= dilation(mask@, width as int, height as int, radius as int));
        }
        return output;
    }
    let offsets = disk_offsets(radius);
    let n = mask.len();
    let mut output: Vec<bool> = Vec::with_capacity(n);
    let mut i: usize = 0;
    while i < n
        invariant
            width > 0,
            n == mask@.len(),
            mask@.len() == width * height,
            offsets_fit(n as int, radius as int),
            i <= n,
            forall|k: int| 0 <= k < offsets@.len() ==> in_disk(radius as int, #[trigger] offsets@[k].0 as int, offsets@[k].1 as int),
            forall|dy: int, dx: int| #[trigger] in_disk(radius as int, dy, dx)
                ==> exists|k: int| 0 <= k < offsets@.len() && offsets@[k].0 == dy && offsets@[k].1 == dx,
            output@ == dilation(mask@, width as int, height as int, radius as int).subrange(0, i as int),
        decreases n - i,
    {
        proof {
            lemma_cell_coords(width as int, height as int, i as int);
        }
        let y = i / width;
        let x = i % width;
        let mut hit = false;
        let mut k: usize = 0;
        while k < offsets.len() && !hit
            invariant
                mask@.len() == width * height,
                offsets_fit(mask@.len() as int, radius as int),
                y < height,
                x < width,
                k <= offsets@.len(),
                forall|j: int| 0 <= j < offsets@.len() ==> in_disk(radius as int, #[trigger] offsets@[j].0 as int, offsets@[j].1 as int),
                hit == exists|j: int| 0 <= j < k && disk_hit(mask@, width as int, height as int, y as int, x as int, #[trigger] offsets@[j].0 as int, offsets@[j].1 as int),
            decreases offsets@.len() - k,
        {
            let offset = offsets[k];
            proof {
                assert(in_disk(radius as int, offset.0 as int, offset.1 as int));
            }
            if offset_hits(mask, width, height, y, x, offset) {
                hit = true;
            }
            k = k + 1;
        }
        proof {
            let cell_dilated = dilated(mask@, width as int, height as int, radius as int, i as int);
            if hit {
                let j = choose|j: int| 0 <= j < k && disk_hit(mask@, width as int, height as int, y as int, x as int, #[trigger] offsets@[j].0 as int, offsets@[j].1 as int);
                assert(in_disk(radius as int, offsets@[j].0 as int, offsets@[j].1 as int));
            } else {
                assert(k == offsets@.len());
                if cell_dilated {
                    let (dy, dx) = choose|dy: int, dx: int| #[trigger] in_disk(radius as int, dy, dx)
                        && disk_hit(mask@, width as int, height as int, y as int, x as int, dy, dx);
                    let j = choose|j: int| 0 <= j < offsets@.len() && offsets@[j].0 == dy && offsets@[j].1 == dx;
                    assert(disk_hit(mask@, width as int, height as int, y as int, x as int, offsets@[j].0 as int, offsets@[j].1 as int));
                }
            }
        }
        output.push(hit);
        proof {
            assert(output@ =~= dilation(mask@, width as int, height as int, radius as int).subrange(0, i + 1));
        }
        i = i + 1;
    }
    proof {
        assert(output@ =~= dilation(mask@, width as int, height as int, radius as int));
    }
    output
}

/// Erosion by a disk: a cell stays set when every cell within `radius` of
/// it lies on the raster and is set.
pub fn erode(mask: &Vec<bool>, width: usize, height: usize, radius: usize) -> (output: Vec<bool>)
    requires
        width > 0,
        mask@.len() == width * height,
        offsets_fit(mask@.len() as int, radius as int),
    ensures
        output@ == erosion(mask@, width as int, height as int, radius as int),
{
    if radius == 0 {
        let output = copy_mask(mask);
        proof {
            assert forall|i: int| 0 <= i < mask@.len() implies output@[i] == eroded(mask@, width as int, height as int, 0, i) by {
                lemma_zero_disk(mask@, width as int, height as int, i);
            }
            assert(output@ =~= erosion(mask@, width as int, height as int, radius as int));
        }
        return output;
    }
    let offsets = disk_offsets(radius);
    let n = mask.len();
    let mut output: Vec<bool> = Vec::with_capacity(n);
    let mut i: usize = 0;
    while i < n
        invariant
            width > 0,
            n == mask@.len(),
            mask@.len() == width * height,
            offsets_fit(n as int, radius as int),
            i <= n,
            forall|k: int| 0 <= k < offsets@.len() ==> in_disk(radius as int, #[trigger] offsets@[k].0 as int, offsets@[k].1 as int),
            forall|dy: int, dx: int| #[trigger] in_disk(radius as int, dy, dx)
                ==> exists|k: int| 0 <= k < offsets@.len() && offsets@[k].0 == dy && offsets@[k].1 == dx,
            output@ == erosion(mask@, width as int, height as int, radius as int).subrange(0, i as int),
        decreases n - i,
    {
        proof {
            lemma_cell_coords(width as int, height as int, i as int);
        }
        let y = i / width;
        let x = i % width;
        let mut all = true;
        let mut k: usize = 0;
        while k < offsets.len() && all
            invariant
                mask@.len() == width * height,
                offsets_fit(mask@.len() as int, radius as int),
                y < height,
                x < width,
                k <= offsets@.len(),
                forall|j: int| 0 <= j < offsets@.len() ==> in_disk(radius as int, #[trigger] offsets@[j].0 as int, offsets@[j].1 as int),
                all == forall|j: int| 0 <= j < k ==> disk_hit(mask@, width as int, height as int, y as int, x as int, #[trigger] offsets@[j].0 as int, offsets@[j].1 as int),
            decreases offsets@.len() - k,
        {
            let offset = offsets[k];
            proof {
                assert(in_disk(radius as int, offset.0 as int, offset.1 as int));
            }
            if !offset_hits(mask, width, height, y, x, offset) {
                all = false;
            }
            k = k + 1;
        }
        proof {
            let cell_eroded = eroded(mask@, width as int, height as int, radius as int, i as int);
            if all {
                assert(k == offsets@.len());
                assert forall|dy: int, dx: int| #[trigger] in_disk(radius as int, dy, dx)
                    implies disk_hit(mask@, width as int, height as int, y as int, x as int, dy, dx) by {
                    let j = choose|j: int| 0 <= j < offsets@.len() && offsets@[j].0 == dy && offsets@[j].1 == dx;
                    assert(disk_hit(mask@, width as int, height as int, y as int, x as int, offsets@[j].0 as int, offsets@[j].1 as int));
                }
            } else {
                let j = choose|j: int| 0 <= j < k && !disk_hit(mask@, width as int, height as int, y as int, x as int, #[trigger] offsets@[j].0 as int, offsets@[j].1 as int);
                assert(in_disk(radius as int, offsets@[j].0 as int, offsets@[j].1 as int));
            }
        }
        output.push(all);
        proof {
            assert(output@ =~= erosion(mask@, width as int, height as int, radius as int).subrange(0, i + 1));
        }
        i = i + 1;
    }
    proof {
        assert(output@ =~= erosion(mask@, width as int, height as int, radius as int));
    }
    output
}

/// Morphological closing: dilation followed by erosion.
pub fn close_mask(mask: &Vec<bool>, width: usize, height: usize, radius: usize) -> (output: Vec<bool>)
    requires
        width > 0,
        mask@.len() == width * height,
        offsets_fit(mask@.len() as int, radius as int),
    ensures
        output@ == erosion(dilation(mask@, width as int, height as int, radius as int), width as int, height as int, radius as int),
{
    erode(&dilate(mask, width, height, radius), width, height, radius)
}

/// Morphological opening: erosion followed by dilation.
pub fn open_mask(mask: &Vec<bool>, width: usize, height: usize, radius: usize) -> (output: Vec<bool>)
    requires
        width > 0,
        mask@.len() == width * height,
        offsets_fit(mask@.len() as int, radius as int),
    ensures
        output@ == dilation(erosion(mask@, width as int, height as int, radius as int), width as int, height as int, radius as int),
{
    dilate(&erode(mask, width, height, radius), width, height, radius)
}

/// The mask with every enclosed small hole filled.
pub open spec fn holes_filled(mask: Seq<bool>, width: int, height: int, maximum_cells: int) -> Seq<bool> {
    Seq::new(mask.len(), |i: int| mask[i] || enclosed_small_hole(mask, width, height, maximum_cells, i))
}

/// Cell `i` is kept by the minimum-area filter: it is set and either the
/// filter is off (`minimum_cells <= 1`) or its 8-connected region has at
/// least `minimum_cells` cells.
pub open spec fn keeps_minimum_area(mask: Seq<bool>, width: int, height: int, minimum_cells: int, i: int) -> bool {
    mask[i] && (minimum_cells <= 1 || in_large_region(mask, width, height, minimum_cells, i))
}

/// The mask after the minimum-area filter.
pub open spec fn minimum_area_kept(mask: Seq<bool>, width: int, height: int, minimum_cells: int) -> Seq<bool> {
    Seq::new(mask.len(), |i: int| keeps_minimum_area(mask, width, height, minimum_cells, i))
}

/// The mask restricted to cells of the growth set that are neither open
/// water nor building.
pub open spec fn restricted_to_growth(mask: Seq<bool>, growth: Seq<bool>, water: Seq<bool>, buildings: Seq<bool>) -> Seq<bool> {
    Seq::new(mask.len(), |i: int| mask[i] && growth[i] && !water[i] && !buildings[i])
}

/// Clears every set 8-connected region with fewer than `minimum_cells`
/// cells; a minimum of one cell or less keeps the mask as it is.
pub fn retain_minimum_area_components(mask: &mut Vec<bool>, width: usize, height: usize, minimum_cells: usize)
    requires
        width > 0,
        old(mask)@.len() == width * height,
    ensures
        final(mask)@ == minimum_area_kept(old(mask)@, width as int, height as int, minimum_cells as int),
{
    if minimum_cells <= 1 {
        proof {
            assert(mask@ =~= minimum_area_kept(mask@, width as int, height as int, minimum_cells as int));
        }
        return;
    }
    let retained = large_regions(mask, width, height, minimum_cells);
    proof {
        assert(retained@ =~= minimum_area_kept(old(mask)@, width as int, height as int, minimum_cells as int));
    }
    *mask = retained;
}

/// Turns the mask grown from the seeds into the final marsh mask: closing,
/// then opening, then filling enclosed holes of at most
/// `maximum_hole_cells` cells, then dropping every cell outside the growth
/// set or on open water or a building, then clearing regions below
/// `minimum_cells` cells.
pub fn finalize_marsh_mask(
    grown: &Vec<bool>,
    growth: &Vec<bool>,
    water: &Vec<bool>,
    buildings: &Vec<bool>,
    width: usize,
    height: usize,
    closing_cells: usize,
    opening_cells: usize,
    maximum_hole_cells: usize,
    minimum_cells: usize,
) -> (mask: Vec<bool>)
    requires
        width > 0,
        grown@.len() == width * height,
        growth@.len() == width * height,
        water@.len() == width * height,
        buildings@.len() == width * height,
        offsets_fit(grown@.len() as int, closing_cells as int),
        offsets_fit(grown@.len() as int, opening_cells as int),
    ensures
        mask@ == minimum_area_kept(
            restricted_to_growth(
                holes_filled(
                    dilation(
                        erosion(
                            erosion(dilation(grown@, width as int, height as int, closing_cells as int), width as int, height as int, closing_cells as int),
                            width as int, height as int, opening_cells as int),
                        width as int, height as int, opening_cells as int),
                    width as int, height as int, maximum_hole_cells as int),
                growth@, water@, buildings@),
            width as int, height as int, minimum_cells as int),
        forall|i: int| 0 <= i < mask@.len() && #[trigger] mask@[i] ==> growth@[i] && !water@[i] && !buildings@[i],
{
    let closed = close_mask(grown, width, height, closing_cells);
    let mut retained = open_mask(&closed, width, height, opening_cells);
    let ghost opened = retained@;
    fill_small_holes(&mut retained, width, height, maximum_hole_cells);
    proof {
        assert(retained@ =~= holes_filled(opened, width as int, height as int, maximum_hole_cells as int));
    }
    let ghost filled = retained@;
    let n = retained.len();
    let mut index: usize = 0;
    while index < n
        invariant
            n == retained@.len(),
            n == filled.len(),
            growth@.len() == n,
            water@.len() == n,
            buildings@.len() == n,
            index <= n,
            forall|j: int| 0 <= j < index ==> #[trigger] retained@[j] == restricted_to_growth(filled, growth@, water@, buildings@)[j],
            forall|j: int| index <= j < n ==> #[trigger] retained@[j] == filled[j],
        decreases n - index,
    {
        let keep = retained[index] && growth[index] && !water[index] && !buildings[index];
        retained.set(index, keep);
        index = index + 1;
    }
    proof {
        assert(retained@ =~= restricted_to_growth(filled, growth@, water@, buildings@));
    }
    retain_minimum_area_components(&mut retained, width, height, minimum_cells);
    retained
}

/// Erosion by a disk never sets a cell that was clear.
pub proof fn lemma_erosion_within_mask(mask: Seq<bool>, width: int, height: int, radius: int, i: int)
    requires
        width > 0,
        radius >= 0,
        mask.len() == width * height,
        0 <= i < mask.len(),
        eroded(mask, width, height, radius, i),
    ensures
        mask[i],
{
    lemma_cell_coords(width, height, i);
    assert(in_disk(radius, 0, 0)) by (nonlinear_arith)
        requires
            radius >= 0,
    ;
    assert(disk_hit(mask, width, height, i / width, i % width, 0, 0));
}

/// Dilation by a disk keeps every set cell.
pub proof fn lemma_mask_within_dilation(mask: Seq<bool>, width: int, height: int, radius: int, i: int)
    requires
        width > 0,
        radius >= 0,
        mask.len() == width * height,
        0 <= i < mask.len(),
        mask[i],
    ensures
        dilated(mask, width, height, radius, i),
{
    lemma_cell_coords(width, height, i);
    assert(in_disk(radius, 0, 0)) by (nonlinear_arith)
        requires
            radius >= 0,
    ;
    assert(disk_hit(mask, width, height, i / width, i % width, 0, 0));
}

/// The disk is symmetric about its centre.
proof fn lemma_disk_symmetric(radius: int, dy: int, dx: int)
    requires
        in_disk(radius, dy, dx),
    ensures
        in_disk(radius, -dy, -dx),
{
    assert((-dx) * (-dx) == dx * dx) by (nonlinear_arith);
    assert((-dy) * (-dy) == dy * dy) by (nonlinear_arith);
}

/// Opening by a disk never sets a cell that was clear: every cell of the
/// opened mask was set in the mask.
pub proof fn lemma_opening_within_mask(mask: Seq<bool>, width: int, height: int, radius: int, i: int)
    requires
        width > 0,
        mask.len() == width * height,
        0 <= i < mask.len(),
        dilation(erosion(mask, width, height, radius), width, height, radius)[i],
    ensures
        mask[i],
{
    let eroded_mask = erosion(mask, width, height, radius);
    lemma_cell_coords(width, height, i);
    let y = i / width;
    let x = i % width;
    assert(dilated(eroded_mask, width, height, radius, i));
    let (dy, dx) = choose|dy: int, dx: int| #[trigger] in_disk(radius, dy, dx) && disk_hit(eroded_mask, width, height, y, x, dy, dx);
    let j = (y + dy) * width + x + dx;
    lemma_cell_index(width, height, y + dy, x + dx);
    assert(eroded(mask, width, height, radius, j));
    lemma_disk_symmetric(radius, dy, dx);
    assert(disk_hit(mask, width, height, y + dy, x + dx, -dy, -dx));
    assert((y + dy + -dy) * width + x + dx + -dx == i);
}

/// Closing by a disk keeps every set cell whose whole disk lies on the
/// raster.
pub proof fn lemma_closing_keeps_interior_cells(mask: Seq<bool>, width: int, height: int, radius: int, i: int)
    requires
        width > 0,
        mask.len() == width * height,
        0 <= i < mask.len(),
        mask[i],
        forall|dy: int, dx: int| #[trigger] in_disk(radius, dy, dx)
            ==> 0 <= i / width + dy < height && 0 <= i % width + dx < width,
    ensures
        erosion(dilation(mask, width, height, radius), width, height, radius)[i],
{
    let dilated_mask = dilation(mask, width, height, radius);
    lemma_cell_coords(width, height, i);
    let y = i / width;
    let x = i % width;
    assert forall|dy: int, dx: int| #[trigger] in_disk(radius, dy, dx)
        implies disk_hit(dilated_mask, width, height, y, x, dy, dx) by {
        let j = (y + dy) * width + x + dx;
        lemma_cell_index(width, height, y + dy, x + dx);
        lemma_disk_symmetric(radius, dy, dx);
        assert((y + dy + -dy) * width + x + dx + -dx == i);
        assert(disk_hit(mask, width, height, y + dy, x + dx, -dy, -dx));
        assert(dilated(mask, width, height, radius, j));
    }
    assert(eroded(dilated_mask, width, height, radius, i));
}

} // verus!

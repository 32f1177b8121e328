use crate::energy::{grid_height, grid_wf, grid_width, EnergyMap};
use crate::error::CarveError;
use vstd::prelude::*;

verus! {

/// The place of one pixel: column `x` of row `y`.
#[derive(Clone, Copy, Debug, Hash, PartialEq, Eq, Structural)]
pub struct PixelLocation {
    pub x: u32,
    pub y: u32,
}

/// A path through a picture from its top row to its bottom row: one pixel
/// of each row, listed top to bottom.
#[derive(Debug)]
pub struct Seam {
    pub locations: Vec<PixelLocation>,
}

impl View for Seam {
    type V = Seq<PixelLocation>;

    open spec fn view(&self) -> Seq<PixelLocation> {
        self.locations@
    }
}

/// One cell of the search: the least total energy of a path from the top row
/// that ends here, the cell's own place, and the cell of the row above that
/// this path comes through (none in the top row).
#[derive(Clone, Copy, Debug)]
pub struct SeamPixel {
    pub energy: u64,
    pub location: PixelLocation,
    pub previous: Option<PixelLocation>,
}

/// The seam names one pixel of each of `height` rows, in order, inside
/// `width` columns.
pub open spec fn seam_fits(seam: Seq<PixelLocation>, width: nat, height: nat) -> bool {
    &&& seam.len() == height
    &&& forall|y: int| 0 <= y < height ==> (#[trigger] seam[y]).y == y && seam[y].x < width
}

/// From each row to the next the seam moves by one column at most.
pub open spec fn seam_connected(seam: Seq<PixelLocation>) -> bool {
    forall|y: int|
        0 <= y < seam.len() - 1 ==> -1 <= (#[trigger] seam[y + 1]).x - seam[y].x <= 1
}

/// The column of the row above through which the cheapest path reaches
/// column `x`, given the row above's totals. The first column is reached
/// from the first column only. Any other looks at the columns `x - 1`, `x`
/// and `x + 1` that exist, left to right, and moves on only to a strictly
/// smaller total, so that among equal totals the leftmost wins.
pub open spec fn predecessor_of(above: Seq<nat>, x: int) -> int {
    if x <= 0 {
        0
    } else {
        let near = if above[x] < above[x - 1] {
            x
        } else {
            x - 1
        };
        if x + 1 < above.len() && above[x + 1] < above[near] {
            x + 1
        } else {
            near
        }
    }
}

/// Row `y` of the totals: for each column the least total energy of a path
/// from the top row that ends there.
pub open spec fn cumulative_row(grid: Seq<Seq<nat>>, y: int) -> Seq<nat>
    decreases y,
{
    if y <= 0 {
        grid[0]
    } else {
        let above = cumulative_row(grid, y - 1);
        Seq::new(grid[y].len(), |x: int| above[predecessor_of(above, x)] + grid[y][x])
    }
}

/// `x` is the leftmost column at which `row` is least.
pub open spec fn is_lowest_at(row: Seq<nat>, x: int) -> bool {
    &&& 0 <= x < row.len()
    &&& forall|c: int| 0 <= c < row.len() ==> row[x] <= #[trigger] row[c]
    &&& forall|c: int| 0 <= c < x ==> row[x] < #[trigger] row[c]
}

/// The leftmost column at which `row` is least.
pub open spec fn lowest_column(row: Seq<nat>) -> int {
    choose|x: int| is_lowest_at(row, x)
}

/// The column in which the cheapest seam crosses row `y`: in the bottom row
/// the leftmost least total, and above it the predecessor of the column
/// crossed one row below.
pub open spec fn seam_column(grid: Seq<Seq<nat>>, y: int) -> int
    decreases grid.len() - y,
{
    if y >= grid.len() - 1 {
        lowest_column(cumulative_row(grid, grid.len() - 1))
    } else {
        predecessor_of(cumulative_row(grid, y), seam_column(grid, y + 1))
    }
}

/// The cheapest seam of a grid of energies.
pub open spec fn lowest_seam(grid: Seq<Seq<nat>>) -> Seq<PixelLocation> {
    Seq::new(
        grid.len(),
        |y: int| PixelLocation { x: seam_column(grid, y) as u32, y: y as u32 },
    )
}

/// Only one column is the leftmost at which a row is least.
pub proof fn lemma_lowest_unique(row: Seq<nat>, x: int)
    requires
        is_lowest_at(row, x),
    ensures
        lowest_column(row) == x,
{
    let other = lowest_column(row);
    assert(is_lowest_at(row, other));
    if other < x {
        assert(row[x] < row[other]);
        assert(row[other] <= row[x]);
    } else if x < other {
        assert(row[other] < row[x]);
        assert(row[x] <= row[other]);
    }
}

/// The predecessor of a column lies beside it or straight above it, inside
/// the row, and no column of that window holds a smaller total, nor one to
/// its left an equal one. The first column looks at itself alone.
pub proof fn lemma_predecessor_window(above: Seq<nat>, x: int)
    requires
        0 <= x < above.len(),
    ensures
        0 <= predecessor_of(above, x) < above.len(),
        x - 1 <= predecessor_of(above, x) <= x + 1,
        x == 0 ==> predecessor_of(above, x) == 0,
        forall|c: int|
            0 < x && x - 1 <= c <= x + 1 && c < above.len() ==> above[predecessor_of(above, x)]
                <= #[trigger] above[c],
        forall|c: int|
            0 < x && x - 1 <= c < predecessor_of(above, x) ==> above[predecessor_of(above, x)]
                < #[trigger] above[c],
{
}

/// Every row of totals is as wide as the grid, and a total in row `y` is at
/// most `y + 1` times the largest energy.
pub proof fn lemma_cumulative_row_bounds(grid: Seq<Seq<nat>>, y: int)
    requires
        grid_wf(grid),
        0 <= y < grid.len(),
    ensures
        cumulative_row(grid, y).len() == grid_width(grid),
        forall|x: int|
            0 <= x < grid_width(grid) ==> #[trigger] cumulative_row(grid, y)[x] <= (y + 1)
                * u32::MAX,
    decreases y,
{
    let width = grid_width(grid);
    assert(grid[y].len() == width);
    if y == 0 {
        assert forall|x: int| 0 <= x < width implies #[trigger] cumulative_row(grid, y)[x] <= (y
            + 1) * u32::MAX by {
            assert(grid[0][x] <= u32::MAX);
        }
    } else {
        lemma_cumulative_row_bounds(grid, y - 1);
        let above = cumulative_row(grid, y - 1);
        assert forall|x: int| 0 <= x < width implies #[trigger] cumulative_row(grid, y)[x] <= (y
            + 1) * u32::MAX by {
            lemma_predecessor_window(above, x);
            let p = predecessor_of(above, x);
            assert(above[p] <= y * u32::MAX);
            assert(grid[y][x] <= u32::MAX);
            assert(y * u32::MAX + u32::MAX == (y + 1) * u32::MAX) by (nonlinear_arith);
        }
    }
}

/// The cheapest seam crosses every row inside the grid, and from each row to
/// the next it moves by one column at most.
pub proof fn lemma_seam_column_connected(grid: Seq<Seq<nat>>, y: int)
    requires
        grid_wf(grid),
        grid_width(grid) > 0,
        0 <= y < grid.len(),
    ensures
        0 <= seam_column(grid, y) < grid_width(grid),
        y + 1 < grid.len() ==> -1 <= seam_column(grid, y + 1) - seam_column(grid, y) <= 1,
    decreases grid.len() - y,
{
    if y >= grid.len() - 1 {
        let last = cumulative_row(grid, grid.len() - 1);
        lemma_cumulative_row_bounds(grid, grid.len() - 1);
        lemma_lowest_exists(last);
    } else {
        lemma_seam_column_connected(grid, y + 1);
        lemma_cumulative_row_bounds(grid, y);
        lemma_predecessor_window(cumulative_row(grid, y), seam_column(grid, y + 1));
    }
}

/// A row that is not empty has a leftmost least column.
pub proof fn lemma_lowest_exists(row: Seq<nat>)
    requires
        row.len() > 0,
    ensures
        is_lowest_at(row, lowest_column(row)),
    decreases row.len(),
{
    if row.len() == 1 {
        assert(is_lowest_at(row, 0));
    } else {
        let front = row.drop_last();
        lemma_lowest_exists(front);
        let best = lowest_column(front);
        let last = row.len() - 1;
        assert(forall|c: int| 0 <= c < front.len() ==> front[c] == row[c]);
        if row[last] < row[best] {
            assert forall|c: int| 0 <= c < row.len() implies row[last] <= #[trigger] row[c] by {
                if c < last {
                    assert(front[best] <= front[c]);
                }
            }
            assert forall|c: int| 0 <= c < last implies row[last] < #[trigger] row[c] by {
                assert(front[best] <= front[c]);
            }
            assert(is_lowest_at(row, last));
        } else {
            assert forall|c: int| 0 <= c < row.len() implies row[best] <= #[trigger] row[c] by {
                if c < last {
                    assert(front[best] <= front[c]);
                }
            }
            assert forall|c: int| 0 <= c < best implies row[best] < #[trigger] row[c] by {
                assert(front[best] < front[c]);
            }
            assert(is_lowest_at(row, best));
        }
    }
}

/// The cheapest seam of a grid that holds a cell names one pixel of every
/// row, top to bottom, and is connected.
pub proof fn lemma_lowest_seam_is_seam(grid: Seq<Seq<nat>>)
    requires
        grid_wf(grid),
        grid_width(grid) > 0,
        grid_height(grid) > 0,
    ensures
        seam_fits(lowest_seam(grid), grid_width(grid), grid_height(grid)),
        seam_connected(lowest_seam(grid)),
{
    let seam = lowest_seam(grid);
    assert forall|y: int| 0 <= y < grid.len() implies (#[trigger] seam[y]).y == y && seam[y].x
        < grid_width(grid) by {
        lemma_seam_column_connected(grid, y);
    }
    assert forall|y: int| 0 <= y < seam.len() - 1 implies -1 <= (#[trigger] seam[y + 1]).x
        - seam[y].x <= 1 by {
        lemma_seam_column_connected(grid, y);
        lemma_seam_column_connected(grid, y + 1);
    }
}

/// Whether a path may go from column `from` in one row to column `to` in the
/// row below: the first column is reached from the first column only, any
/// other from the column above it or one beside that.
pub open spec fn may_step(from: int, to: int) -> bool {
    if to == 0 {
        from == 0
    } else {
        to - 1 <= from <= to + 1
    }
}

/// `columns` is a path from the top row downwards: one column of the grid
/// for each row it crosses, each step one that a path may take.
pub open spec fn is_path(columns: Seq<int>, width: nat) -> bool {
    &&& forall|y: int| 0 <= y < columns.len() ==> 0 <= #[trigger] columns[y] < width
    &&& forall|y: int|
        0 <= y < columns.len() - 1 ==> may_step(columns[y], #[trigger] columns[y + 1])
}

/// The energies along a path from the top row, added up.
pub open spec fn path_energy(grid: Seq<Seq<nat>>, columns: Seq<int>) -> nat
    decreases columns.len(),
{
    if columns.len() == 0 {
        0
    } else {
        path_energy(grid, columns.drop_last()) + grid[columns.len() - 1][columns.last()]
    }
}

/// The columns of the cheapest seam, top to bottom.
pub open spec fn seam_columns(grid: Seq<Seq<nat>>) -> Seq<int> {
    Seq::new(grid.len(), |y: int| seam_column(grid, y))
}

/// No path from the top row to a cell is cheaper than the total that the
/// search holds for that cell.
pub proof fn lemma_total_is_lower_bound(grid: Seq<Seq<nat>>, columns: Seq<int>)
    requires
        grid_wf(grid),
        0 < columns.len() <= grid.len(),
        is_path(columns, grid_width(grid)),
    ensures
        cumulative_row(grid, columns.len() - 1)[columns.last()] <= path_energy(grid, columns),
    decreases columns.len(),
{
    let y = columns.len() - 1;
    let x = columns.last();
    let front = columns.drop_last();
    assert(grid[y].len() == grid_width(grid));
    if y == 0 {
        assert(path_energy(grid, front) == 0);
    } else {
        assert(is_path(front, grid_width(grid))) by {
            assert forall|r: int| 0 <= r < front.len() - 1 implies may_step(
                front[r],
                #[trigger] front[r + 1],
            ) by {
                assert(may_step(columns[r], columns[r + 1]));
            }
        }
        lemma_total_is_lower_bound(grid, front);
        let above = cumulative_row(grid, y - 1);
        lemma_cumulative_row_bounds(grid, y - 1);
        lemma_predecessor_window(above, x);
        assert(front.last() == columns[y - 1]);
        assert(may_step(columns[y - 1], columns[y - 1 + 1]));
        assert(above[predecessor_of(above, x)] <= above[front.last()]);
    }
}

/// The cheapest seam is a path, and down to each row it costs what the
/// search holds for the cell in which it crosses that row.
pub proof fn lemma_seam_costs_its_total(grid: Seq<Seq<nat>>, y: int)
    requires
        grid_wf(grid),
        grid_width(grid) > 0,
        0 <= y < grid.len(),
    ensures
        is_path(seam_columns(grid).take(y + 1), grid_width(grid)),
        path_energy(grid, seam_columns(grid).take(y + 1)) == cumulative_row(
            grid,
            y,
        )[seam_column(grid, y)],
    decreases y,
{
    let columns = seam_columns(grid).take(y + 1);
    lemma_seam_column_connected(grid, y);
    assert(grid[y].len() == grid_width(grid));
    assert(columns.last() == seam_column(grid, y));
    if y == 0 {
        assert(path_energy(grid, columns.drop_last()) == 0);
    } else {
        lemma_seam_costs_its_total(grid, y - 1);
        assert(columns.drop_last() =~= seam_columns(grid).take(y));
        lemma_cumulative_row_bounds(grid, y - 1);
        let above = cumulative_row(grid, y - 1);
        lemma_predecessor_window(above, seam_column(grid, y));
        assert forall|r: int| 0 <= r < columns.len() - 1 implies may_step(
            columns[r],
            #[trigger] columns[r + 1],
        ) by {
            if r + 1 < y {
                assert(may_step(
                    seam_columns(grid).take(y)[r],
                    seam_columns(grid).take(y)[r + 1],
                ));
            }
        }
        assert forall|r: int| 0 <= r < columns.len() implies 0 <= #[trigger] columns[r]
            < grid_width(grid) by {
            if r < y {
                assert(0 <= seam_columns(grid).take(y)[r] < grid_width(grid));
            }
        }
    }
}

/// The cheapest seam is a path from the top row to the bottom row, and no
/// such path has a smaller total energy.
pub proof fn lemma_lowest_seam_is_cheapest(grid: Seq<Seq<nat>>, columns: Seq<int>)
    requires
        grid_wf(grid),
        grid_width(grid) > 0,
        grid_height(grid) > 0,
        columns.len() == grid_height(grid),
        is_path(columns, grid_width(grid)),
    ensures
        is_path(seam_columns(grid), grid_width(grid)),
        path_energy(grid, seam_columns(grid)) <= path_energy(grid, columns),
{
    let last = grid.len() - 1;
    lemma_seam_costs_its_total(grid, last);
    assert(seam_columns(grid).take(last + 1) =~= seam_columns(grid));
    lemma_total_is_lower_bound(grid, columns);
    lemma_cumulative_row_bounds(grid, last);
    lemma_lowest_exists(cumulative_row(grid, last));
}

/// What the search holds for column `x` of row `y`.
pub open spec fn cell_at(grid: Seq<Seq<nat>>, x: int, y: int) -> SeamPixel {
    SeamPixel {
        energy: cumulative_row(grid, y)[x] as u64,
        location: PixelLocation { x: x as u32, y: y as u32 },
        previous: if y <= 0 {
            None
        } else {
            Some(
                PixelLocation {
                    x: predecessor_of(cumulative_row(grid, y - 1), x) as u32,
                    y: (y - 1) as u32,
                },
            )
        },
    }
}

/// The totals that a row of cells holds.
pub open spec fn energies_of(row: Seq<SeamPixel>) -> Seq<nat> {
    Seq::new(row.len(), |x: int| row[x].energy as nat)
}

/// `row` is row `y` of the search over `grid`.
pub open spec fn is_search_row(row: Seq<SeamPixel>, grid: Seq<Seq<nat>>, y: int) -> bool {
    &&& row.len() == grid_width(grid)
    &&& forall|x: int| 0 <= x < row.len() ==> #[trigger] row[x] == cell_at(grid, x, y)
}

/// A row of the search holds the totals of its row.
proof fn lemma_search_row_energies(row: Seq<SeamPixel>, grid: Seq<Seq<nat>>, y: int)
    requires
        grid_wf(grid),
        0 <= y < grid.len(),
        is_search_row(row, grid, y),
    ensures
        energies_of(row) == cumulative_row(grid, y),
{
    lemma_cumulative_row_bounds(grid, y);
    assert((y + 1) * u32::MAX <= 0xFFFF_FFFF * 0xFFFF_FFFF) by (nonlinear_arith)
        requires
            0 <= y < 0xFFFF_FFFF,
    ;
    assert forall|x: int| 0 <= x < row.len() implies energies_of(row)[x] == cumulative_row(
        grid,
        y,
    )[x] by {
        assert(row[x] == cell_at(grid, x, y));
        assert(cumulative_row(grid, y)[x] <= (y + 1) * u32::MAX);
    }
    assert(energies_of(row) =~= cumulative_row(grid, y));
}

/// Picks the cell of the row above through which the cheapest path reaches
/// column `x`.
fn choose_predecessor(above: &Vec<SeamPixel>, x: usize) -> (chosen: usize)
    requires
        x < above@.len(),
    ensures
        chosen == predecessor_of(energies_of(above@), x as int),
        chosen < above@.len(),
{
    if x == 0 {
        0
    } else {
        let width: usize = above.len();
        let mut min_prev_x: usize = x - 1;
        if above[x].energy < above[min_prev_x].energy {
            min_prev_x = x;
        }
        if x + 1 < width && above[x + 1].energy < above[min_prev_x].energy {
            min_prev_x = x + 1;
        }
        min_prev_x
    }
}

/// The top row of the search: each cell's total is its own energy.
fn first_row(energy_map: &EnergyMap) -> (row: Vec<SeamPixel>)
    requires
        grid_height(energy_map@) > 0,
    ensures
        is_search_row(row@, energy_map@, 0),
{
    let width: u32 = energy_map.width();
    let mut row: Vec<SeamPixel> = Vec::new();
    let mut x: u32 = 0;
    while x < width
        invariant
            grid_wf(energy_map@),
            grid_height(energy_map@) > 0,
            width == grid_width(energy_map@),
            x <= width,
            row@.len() == x,
            forall|c: int| 0 <= c < x ==> #[trigger] row@[c] == cell_at(energy_map@, c, 0),
        decreases width - x,
    {
        row.push(
            SeamPixel {
                energy: energy_map.get(x, 0) as u64,
                location: PixelLocation { x, y: 0 },
                previous: None,
            },
        );
        x += 1;
    }
    row
}

/// Row `y` of the search, from the row above it.
fn next_row(energy_map: &EnergyMap, above: &Vec<SeamPixel>, y: u32) -> (row: Vec<SeamPixel>)
    requires
        0 < y < grid_height(energy_map@),
        is_search_row(above@, energy_map@, y - 1),
    ensures
        is_search_row(row@, energy_map@, y as int),
{
    let width: u32 = energy_map.width();
    let mut row: Vec<SeamPixel> = Vec::new();
    let mut x: u32 = 0;
    proof {
        lemma_search_row_energies(above@, energy_map@, y - 1);
        lemma_cumulative_row_bounds(energy_map@, y - 1);
        lemma_cumulative_row_bounds(energy_map@, y as int);
        assert((y + 1) * u32::MAX <= 0xFFFF_FFFF * 0xFFFF_FFFF) by (nonlinear_arith)
            requires
                0 <= y < 0xFFFF_FFFF,
        ;
    }
    while x < width
        invariant
            grid_wf(energy_map@),
            0 < y < grid_height(energy_map@),
            width == grid_width(energy_map@),
            above@.len() == width,
            energies_of(above@) == cumulative_row(energy_map@, y - 1),
            cumulative_row(energy_map@, y as int).len() == width,
            forall|c: int|
                0 <= c < width ==> #[trigger] cumulative_row(energy_map@, y as int)[c] <= (y + 1)
                    * u32::MAX,
            (y + 1) * u32::MAX <= 0xFFFF_FFFF * 0xFFFF_FFFF,
            x <= width,
            row@.len() == x,
            forall|c: int| 0 <= c < x ==> #[trigger] row@[c] == cell_at(energy_map@, c, y as int),
        decreases width - x,
    {
        let min_prev_x: usize = choose_predecessor(above, x as usize);
        let own: u32 = energy_map.get(x, y);
        proof {
            let totals = cumulative_row(energy_map@, y - 1);
            assert(energies_of(above@)[min_prev_x as int] == totals[min_prev_x as int]);
            assert(cumulative_row(energy_map@, y as int)[x as int] == totals[min_prev_x as int]
                + energy_map@[y as int][x as int]);
            assert(cumulative_row(energy_map@, y as int)[x as int] <= (y + 1) * u32::MAX);
        }
        row.push(
            SeamPixel {
                energy: above[min_prev_x].energy + own as u64,
                location: PixelLocation { x, y },
                previous: Some(PixelLocation { x: min_prev_x as u32, y: y - 1 }),
            },
        );
        x += 1;
    }
    row
}

/// The leftmost cell of a row that holds the least total.
fn lowest_tail(row: &Vec<SeamPixel>) -> (min_x: usize)
    requires
        row@.len() > 0,
    ensures
        is_lowest_at(energies_of(row@), min_x as int),
        min_x == lowest_column(energies_of(row@)),
{
    let mut min_x: usize = 0;
    let mut x: usize = 1;
    while x < row.len()
        invariant
            1 <= x <= row@.len(),
            min_x < x,
            forall|c: int| 0 <= c < x ==> row@[min_x as int].energy <= (#[trigger] row@[c]).energy,
            forall|c: int|
                0 <= c < min_x ==> row@[min_x as int].energy < (#[trigger] row@[c]).energy,
        decreases row.len() - x,
    {
        if row[x].energy < row[min_x].energy {
            min_x = x;
        }
        x += 1;
    }
    proof {
        let totals = energies_of(row@);
        assert forall|c: int| 0 <= c < totals.len() implies totals[min_x as int]
            <= #[trigger] totals[c] by {
            assert(row@[min_x as int].energy <= row@[c].energy);
        }
        assert forall|c: int| 0 <= c < min_x implies totals[min_x as int] < #[trigger] totals[c] by {
            assert(row@[min_x as int].energy < row@[c].energy);
        }
        lemma_lowest_unique(totals, min_x as int);
    }
    min_x
}

/// Finds the connected path from the top row to the bottom row whose
/// energies add up to the least total. Among equal totals the leftmost wins,
/// at every step and in the bottom row. A grid without a cell is refused as
/// `EmptyEnergyMap`.
pub fn find_low_energy_seam(energy_map: &EnergyMap) -> (found: Result<Seam, CarveError>)
    ensures
        found.is_ok() <==> grid_width(energy_map@) > 0 && grid_height(energy_map@) > 0,
        found matches Err(e) ==> e == CarveError::EmptyEnergyMap,
        found matches Ok(seam) ==> {
            &&& seam@ == lowest_seam(energy_map@)
            &&& seam_fits(seam@, grid_width(energy_map@), grid_height(energy_map@))
            &&& seam_connected(seam@)
        },
{
    let width: u32 = energy_map.width();
    let height: u32 = energy_map.height();
    if width == 0 || height == 0 {
        return Err(CarveError::EmptyEnergyMap);
    }
    let ghost grid = energy_map@;
    let mut seam_energies: Vec<Vec<SeamPixel>> = Vec::new();
    seam_energies.push(first_row(energy_map));
    let mut y: u32 = 1;
    while y < height
        invariant
            grid == energy_map@,
            grid_wf(grid),
            height == grid_height(grid),
            1 <= y <= height,
            seam_energies@.len() == y,
            forall|r: int| 0 <= r < y ==> is_search_row((#[trigger] seam_energies@[r])@, grid, r),
        decreases height - y,
    {
        let row: Vec<SeamPixel> = next_row(energy_map, &seam_energies[y as usize - 1], y);
        seam_energies.push(row);
        y += 1;
    }
    let min_x: usize = lowest_tail(&seam_energies[height as usize - 1]);
    let mut locations: Vec<PixelLocation> = Vec::new();
    let mut filled: u32 = 0;
    while filled < height
        invariant
            filled <= height,
            locations@.len() == filled,
        decreases height - filled,
    {
        locations.push(PixelLocation { x: 0, y: filled });
        filled += 1;
    }
    let mut current_seam: SeamPixel = seam_energies[height as usize - 1][min_x];
    proof {
        lemma_search_row_energies(seam_energies@[height - 1]@, grid, height - 1);
        lemma_lowest_seam_is_seam(grid);
        assert(seam_energies@[height - 1]@[min_x as int] == cell_at(grid, min_x as int, height - 1));
    }
    let ghost mut row_y: int = height - 1;
    loop
        invariant_except_break
            0 <= row_y < height,
            current_seam == cell_at(grid, seam_column(grid, row_y), row_y),
            forall|r: int| row_y < r < height ==> #[trigger] locations@[r] == lowest_seam(grid)[r],
        invariant
            grid_wf(grid),
            grid_width(grid) == width,
            width > 0,
            height == grid_height(grid),
            seam_energies@.len() == height,
            forall|r: int|
                0 <= r < height ==> is_search_row((#[trigger] seam_energies@[r])@, grid, r),
            locations@.len() == height,
        ensures
            forall|r: int| 0 <= r < height ==> #[trigger] locations@[r] == lowest_seam(grid)[r],
        decreases row_y,
    {
        proof {
            lemma_seam_column_connected(grid, row_y);
        }
        locations.set(current_seam.location.y as usize, current_seam.location);
        match current_seam.previous {
            Some(loc) => {
                proof {
                    lemma_seam_column_connected(grid, row_y - 1);
                    assert(seam_energies@[row_y - 1]@[loc.x as int] == cell_at(
                        grid,
                        loc.x as int,
                        row_y - 1,
                    ));
                    row_y = row_y - 1;
                }
                current_seam = seam_energies[loc.y as usize][loc.x as usize];
            },
            None => {
                break ;
            },
        }
    }
    assert(locations@ =~= lowest_seam(grid));
    Ok(Seam { locations })
}

} // verus!

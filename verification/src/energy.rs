use crate::error::CarveError;
use crate::fixed::{lemma_scaled_root_fits, scaled_root, scaled_sqrt};
use crate::picture::{Color, Picture, PictureView};
use vstd::prelude::*;

verus! {

/// The squared difference of one channel.
pub open spec fn channel_gap(a: u8, b: u8) -> nat {
    ((a - b) * (a - b)) as nat
}

/// The squared distance of two colours: the channels' squared differences,
/// added up.
pub open spec fn color_distance(a: Color, b: Color) -> nat {
    channel_gap(a.red, b.red) + channel_gap(a.green, b.green) + channel_gap(a.blue, b.blue)
}

/// The squared distance to a neighbour; a neighbour that is not there adds
/// nothing.
pub open spec fn neighbor_distance(neighbor: Option<Color>, middle: Color) -> nat {
    match neighbor {
        Some(color) => color_distance(color, middle),
        None => 0,
    }
}

/// The energy of a pixel between two horizontal neighbours: the square root
/// of its squared distances to both, in fixed point.
pub open spec fn pixel_energy(left: Option<Color>, middle: Color, right: Option<Color>) -> nat {
    scaled_root(neighbor_distance(left, middle) + neighbor_distance(right, middle))
}

fn channel_gap_of(a: u8, b: u8) -> (gap: u32)
    ensures
        gap == channel_gap(a, b),
        gap <= 65025,
{
    let difference: i32 = a as i32 - b as i32;
    assert(0 <= difference * difference <= 65025) by (nonlinear_arith)
        requires
            -255 <= difference <= 255,
    ;
    (difference * difference) as u32
}

fn color_distance_of(a: Color, b: Color) -> (distance: u32)
    ensures
        distance == color_distance(a, b),
        distance <= 195075,
{
    channel_gap_of(a.red, b.red) + channel_gap_of(a.green, b.green) + channel_gap_of(
        a.blue,
        b.blue,
    )
}

fn neighbor_distance_of(neighbor: Option<Color>, middle: Color) -> (distance: u32)
    ensures
        distance == neighbor_distance(neighbor, middle),
        distance <= 195075,
{
    match neighbor {
        Some(color) => color_distance_of(color, middle),
        None => 0,
    }
}

/// The energy of `middle` between the neighbours it has.
pub fn get_pixel_energy(left: Option<Color>, middle: Color, right: Option<Color>) -> (energy: u32)
    ensures
        energy == pixel_energy(left, middle, right),
{
    let left_energy: u32 = neighbor_distance_of(left, middle);
    let right_energy: u32 = neighbor_distance_of(right, middle);
    scaled_sqrt(left_energy + right_energy)
}

/// The energy of the pixel in column `x` of row `y`. The first column has
/// energy zero; every other pixel is rated against its left neighbour and,
/// unless it stands in the last column, its right one.
pub open spec fn energy_at(picture: PictureView, x: int, y: int) -> nat {
    if x == 0 {
        0
    } else {
        pixel_energy(
            Some(picture.rows[y][x - 1]),
            picture.rows[y][x],
            if x + 1 < picture.width {
                Some(picture.rows[y][x + 1])
            } else {
                None
            },
        )
    }
}

/// The energy of every pixel of a picture, laid out as the picture is.
pub open spec fn energy_grid(picture: PictureView) -> Seq<Seq<nat>> {
    Seq::new(picture.height, |y: int| Seq::new(picture.width, |x: int| energy_at(picture, x, y)))
}

/// The number of rows of a grid.
pub open spec fn grid_height(grid: Seq<Seq<nat>>) -> nat {
    grid.len()
}

/// The number of columns of a grid: the length of its first row, and zero
/// where it has no row.
pub open spec fn grid_width(grid: Seq<Seq<nat>>) -> nat {
    if grid.len() == 0 {
        0
    } else {
        grid[0].len()
    }
}

/// Every row is as long as the first, and neither side exceeds what a pixel
/// coordinate can count.
pub open spec fn grid_wf(grid: Seq<Seq<nat>>) -> bool {
    &&& grid.len() <= u32::MAX
    &&& grid_width(grid) <= u32::MAX
    &&& forall|y: int| 0 <= y < grid.len() ==> (#[trigger] grid[y]).len() == grid_width(grid)
    &&& forall|y: int, x: int|
        0 <= y < grid.len() && 0 <= x < grid[y].len() ==> #[trigger] grid[y][x] <= u32::MAX
}

/// The grid that rows of machine numbers stand for.
pub open spec fn grid_of(rows: Seq<Vec<u32>>) -> Seq<Seq<nat>> {
    Seq::new(rows.len(), |y: int| Seq::new(rows[y]@.len(), |x: int| rows[y]@[x] as nat))
}

/// Two colours are at most three times the square of 255 apart.
pub proof fn lemma_color_distance_bound(a: Color, b: Color)
    ensures
        color_distance(a, b) <= 195075,
{
    lemma_channel_gap_bound(a.red, b.red);
    lemma_channel_gap_bound(a.green, b.green);
    lemma_channel_gap_bound(a.blue, b.blue);
}

proof fn lemma_channel_gap_bound(a: u8, b: u8)
    ensures
        channel_gap(a, b) <= 65025,
{
    let difference = a - b;
    assert(0 <= difference * difference <= 65025) by (nonlinear_arith)
        requires
            -255 <= difference <= 255,
    ;
}

/// The energy of a pixel fits a machine number.
pub proof fn lemma_pixel_energy_bound(left: Option<Color>, middle: Color, right: Option<Color>)
    ensures
        pixel_energy(left, middle, right) <= u32::MAX,
{
    if let Some(color) = left {
        lemma_color_distance_bound(color, middle);
    }
    if let Some(color) = right {
        lemma_color_distance_bound(color, middle);
    }
    lemma_scaled_root_fits(neighbor_distance(left, middle) + neighbor_distance(right, middle));
}

/// The energies of a picture lie as its pixels do: as many rows, each as wide
/// as the picture, and every energy fits a machine number.
pub proof fn lemma_energy_grid_dimensions(picture: PictureView)
    requires
        picture.wf(),
    ensures
        grid_height(energy_grid(picture)) == picture.height,
        picture.height > 0 ==> grid_width(energy_grid(picture)) == picture.width,
        forall|y: int|
            0 <= y < picture.height ==> (#[trigger] energy_grid(picture)[y]).len()
                == picture.width,
        grid_wf(energy_grid(picture)),
{
    let grid = energy_grid(picture);
    assert forall|y: int, x: int|
        0 <= y < grid.len() && 0 <= x < grid[y].len() implies #[trigger] grid[y][x]
        <= u32::MAX by {
        if x != 0 {
            lemma_pixel_energy_bound(
                Some(picture.rows[y][x - 1]),
                picture.rows[y][x],
                if x + 1 < picture.width {
                    Some(picture.rows[y][x + 1])
                } else {
                    None
                },
            );
        }
    }
}

/// A rectangular grid of energies, one for each pixel of a picture.
pub struct EnergyMap {
    rows: Vec<Vec<u32>>,
}

impl View for EnergyMap {
    type V = Seq<Seq<nat>>;

    closed spec fn view(&self) -> Seq<Seq<nat>> {
        grid_of(self.rows@)
    }
}

impl EnergyMap {
    #[verifier::type_invariant]
    closed spec fn inv(self) -> bool {
        grid_wf(self@)
    }

    /// The map that holds the given rows, top to bottom. Rows of unequal
    /// length, and more rows or columns than a pixel coordinate can count,
    /// are refused as `InvalidDimensions`.
    pub fn from_rows(rows: Vec<Vec<u32>>) -> (made: Result<EnergyMap, CarveError>)
        ensures
            made matches Ok(map) ==> map@ == grid_of(rows@),
            made matches Err(e) ==> e == CarveError::InvalidDimensions,
            made.is_ok() <==> {
                &&& rows@.len() <= u32::MAX
                &&& rows@.len() > 0 ==> rows@[0]@.len() <= u32::MAX
                &&& forall|y: int| 0 <= y < rows@.len() ==> (#[trigger] rows@[y])@.len() == rows@[0]@.len()
            },
    {
        if rows.len() > u32::MAX as usize {
            return Err(CarveError::InvalidDimensions);
        }
        if rows.len() > 0 {
            let width: usize = rows[0].len();
            if width > u32::MAX as usize {
                return Err(CarveError::InvalidDimensions);
            }
            let mut y: usize = 1;
            while y < rows.len()
                invariant
                    1 <= y <= rows@.len(),
                    width == rows@[0]@.len(),
                    forall|r: int| 0 <= r < y ==> (#[trigger] rows@[r])@.len() == width,
                decreases rows.len() - y,
            {
                if rows[y].len() != width {
                    return Err(CarveError::InvalidDimensions);
                }
                y += 1;
            }
        }
        let made = EnergyMap { rows };
        Ok(made)
    }

    /// The number of rows.
    pub fn height(&self) -> (h: u32)
        ensures
            h == grid_height(self@),
            grid_wf(self@),
    {
        proof {
            use_type_invariant(self);
        }
        self.rows.len() as u32
    }

    /// The number of columns.
    pub fn width(&self) -> (w: u32)
        ensures
            w == grid_width(self@),
            grid_wf(self@),
    {
        proof {
            use_type_invariant(self);
        }
        if self.rows.len() == 0 {
            0
        } else {
            self.rows[0].len() as u32
        }
    }

    /// The energy in column `x` of row `y`.
    pub fn get(&self, x: u32, y: u32) -> (energy: u32)
        requires
            y < grid_height(self@),
            x < grid_width(self@),
        ensures
            energy == self@[y as int][x as int],
    {
        proof {
            use_type_invariant(self);
            assert(self@[y as int].len() == grid_width(self@));
        }
        self.rows[y as usize][x as usize]
    }
}

/// Rates every pixel of a picture. A picture without columns or without
/// rows is refused as `InvalidDimensions`.
pub fn calculate_energy_map(img: &Picture) -> (made: Result<EnergyMap, CarveError>)
    ensures
        made.is_ok() <==> img@.width > 0 && img@.height > 0,
        made matches Err(e) ==> e == CarveError::InvalidDimensions,
        made matches Ok(map) ==> {
            &&& map@ == energy_grid(img@)
            &&& grid_width(map@) == img@.width
            &&& grid_height(map@) == img@.height
        },
{
    let (width, height) = img.dimensions();
    if width == 0 || height == 0 {
        return Err(CarveError::InvalidDimensions);
    }
    let mut rows: Vec<Vec<u32>> = Vec::new();
    let mut y: u32 = 0;
    while y < height
        invariant
            0 < width == img@.width,
            height == img@.height,
            img@.wf(),
            y <= height,
            rows@.len() == y,
            forall|r: int| 0 <= r < y ==> (#[trigger] rows@[r])@.len() == width,
            forall|r: int, c: int|
                0 <= r < y && 0 <= c < width ==> #[trigger] rows@[r]@[c] == energy_at(img@, c, r),
        decreases height - y,
    {
        let mut row: Vec<u32> = Vec::new();
        row.push(0);
        let mut x: u32 = 1;
        while x < width
            invariant
                0 < width == img@.width,
                y < height == img@.height,
                img@.wf(),
                1 <= x <= width,
                row@.len() == x,
                forall|c: int| 0 <= c < x ==> #[trigger] row@[c] == energy_at(img@, c, y as int),
            decreases width - x,
        {
            let left: Option<Color> = Some(img.get_pixel(x - 1, y));
            let middle: Color = img.get_pixel(x, y);
            let right: Option<Color> = if x + 1 < width {
                Some(img.get_pixel(x + 1, y))
            } else {
                None
            };
            row.push(get_pixel_energy(left, middle, right));
            x += 1;
        }
        rows.push(row);
        y += 1;
    }
    assert(grid_of(rows@) =~~= energy_grid(img@));
    Ok(EnergyMap { rows })
}

} // verus!

//! Dense two-dimensional grids, stored row by row, and the binary occupancy
//! grid that contour tracing reads.

use vstd::prelude::*;

verus! {

/// A `width` by `height` grid of cells in row-major order.
///
/// The storage always holds exactly one value per cell; the type invariant
/// keeps that true, so no method asks its caller for it.
#[derive(Debug)]
pub struct Grid2D<T> {
    data: Vec<T>,
    width: usize,
    height: usize,
}

/// The occupancy grid: `true` marks a solid pixel.
pub type Grid = Grid2D<bool>;

/// Bytes per pixel of an interleaved red, green, blue, alpha buffer.
pub const RGBA8_BPP: usize = 4;

/// Offset of the alpha byte inside one pixel of such a buffer.
pub const RGBA8_ALPHA_OFFSET: usize = 3;

/// Row-major position of the cell in column `x` of row `y`.
pub open spec fn cell_index(width: nat, x: int, y: int) -> int {
    y * width + x
}

/// A cell inside the grid has a position inside the storage.
pub proof fn lemma_cell_index_in_range(width: nat, height: nat, x: int, y: int)
    requires
        0 <= x < width,
        0 <= y < height,
    ensures
        0 <= cell_index(width, x, y) < width * height,
        cell_index(width, x, y) == y * width + x,
{
    assert(y * width >= 0) by (nonlinear_arith)
        requires
            y >= 0,
            width >= 0,
    ;
    assert(y * width + width <= height * width) by (nonlinear_arith)
        requires
            0 <= y < height,
            width >= 0,
    ;
    assert(height * width == width * height) by (nonlinear_arith);
}

/// Distinct cells of one grid have distinct positions.
pub proof fn lemma_cell_index_injective(width: nat, x1: int, y1: int, x2: int, y2: int)
    requires
        0 <= x1 < width,
        0 <= x2 < width,
        0 <= y1,
        0 <= y2,
        cell_index(width, x1, y1) == cell_index(width, x2, y2),
    ensures
        x1 == x2,
        y1 == y2,
{
    if y1 < y2 {
        assert(y1 * width + width <= y2 * width) by (nonlinear_arith)
            requires
                y1 < y2,
                width >= 0,
        ;
    } else if y2 < y1 {
        assert(y2 * width + width <= y1 * width) by (nonlinear_arith)
            requires
                y2 < y1,
                width >= 0,
        ;
    }
}

impl<T> Grid2D<T> {
    #[verifier::type_invariant]
    spec fn well_formed(&self) -> bool {
        self.data@.len() == self.width * self.height
    }

    /// Number of columns, as a mathematical integer.
    pub closed spec fn spec_width(&self) -> nat {
        self.width as nat
    }

    /// Number of rows, as a mathematical integer.
    pub closed spec fn spec_height(&self) -> nat {
        self.height as nat
    }

    /// Whether `(x, y)` names a cell of the grid.
    pub open spec fn in_bounds(&self, x: int, y: int) -> bool {
        0 <= x < self.spec_width() && 0 <= y < self.spec_height()
    }

    /// The value stored at `(x, y)`; meaningful where `in_bounds(x, y)`.
    pub closed spec fn cell(&self, x: int, y: int) -> T {
        self.data@[cell_index(self.width as nat, x, y)]
    }

    /// Creates a grid with every cell holding `default_value`.
    pub fn new_with_default(width: usize, height: usize, default_value: T) -> (grid: Self) where
        T: Copy,

        requires
            width * height <= usize::MAX,
        ensures
            grid.spec_width() == width,
            grid.spec_height() == height,
            forall|x: int, y: int| #[trigger]
                grid.in_bounds(x, y) ==> grid.cell(x, y) == default_value,
    {
        let total: usize = width * height;
        let mut data: Vec<T> = Vec::with_capacity(total);
        let mut i: usize = 0;
        while i < total
            invariant
                i <= total,
                data@.len() == i,
                forall|k: int| 0 <= k < i ==> data@[k] == default_value,
            decreases total - i,
        {
            data.push(default_value);
            i += 1;
        }
        let grid = Grid2D { data, width, height };
        assert forall|x: int, y: int| #[trigger] grid.in_bounds(x, y) implies grid.cell(x, y)
            == default_value by {
            lemma_cell_index_in_range(width as nat, height as nat, x, y);
        }
        grid
    }

    /// The value at column `x` of row `y`, or `None` outside the grid.
    pub fn get_at(&self, x: usize, y: usize) -> (value: Option<&T>)
        ensures
            value.is_some() == self.in_bounds(x as int, y as int),
            value matches Some(v) ==> *v == self.cell(x as int, y as int),
    {
        proof {
            use_type_invariant(self);
        }
        if x < self.width && y < self.height {
            proof {
                lemma_cell_index_in_range(
                    self.width as nat,
                    self.height as nat,
                    x as int,
                    y as int,
                );
            }
            let len = self.data.len();
            assert(y * self.width + x < len);
            Some(&self.data[y * self.width + x])
        } else {
            None
        }
    }

    /// Stores `value` at column `x` of row `y`. Returns `false`, and changes
    /// nothing, when `(x, y)` lies outside the grid.
    pub fn set(&mut self, x: usize, y: usize, value: T) -> (stored: bool)
        ensures
            stored == old(self).in_bounds(x as int, y as int),
            final(self).spec_width() == old(self).spec_width(),
            final(self).spec_height() == old(self).spec_height(),
            stored ==> final(self).cell(x as int, y as int) == value,
            forall|cx: int, cy: int|
                old(self).in_bounds(cx, cy) && !(stored && cx == x && cy == y) ==> #[trigger]
                final(self).cell(cx, cy) == old(self).cell(cx, cy),
    {
        proof {
            use_type_invariant(&*self);
        }
        if x < self.width && y < self.height {
            proof {
                lemma_cell_index_in_range(
                    self.width as nat,
                    self.height as nat,
                    x as int,
                    y as int,
                );
            }
            let w = self.width;
            let len = self.data.len();
            assert(y * w + x < len);
            self.data[y * w + x] = value;
            proof {
                assert forall|cx: int, cy: int|
                    old(self).in_bounds(cx, cy) && !(cx == x && cy == y) implies #[trigger]
                self.cell(cx, cy) == old(self).cell(cx, cy) by {
                    lemma_cell_index_in_range(w as nat, self.height as nat, cx, cy);
                    if cell_index(w as nat, cx, cy) == cell_index(w as nat, x as int, y as int) {
                        lemma_cell_index_injective(w as nat, cx, cy, x as int, y as int);
                    }
                }
            }
            true
        } else {
            false
        }
    }

    /// Number of columns.
    pub fn width(&self) -> (w: usize)
        ensures
            w == self.spec_width(),
    {
        self.width
    }

    /// Number of rows.
    pub fn height(&self) -> (h: usize)
        ensures
            h == self.spec_height(),
    {
        self.height
    }
}

impl Grid2D<bool> {
    /// Whether the pixel at `(x, y)` is solid. Everything outside the grid,
    /// negative coordinates included, is empty.
    pub open spec fn solid(&self, x: int, y: int) -> bool {
        self.in_bounds(x, y) && self.cell(x, y)
    }

    /// Whether the grid holds no solid pixel at all.
    pub open spec fn is_blank(&self) -> bool {
        forall|x: int, y: int| !#[trigger] self.solid(x, y)
    }

    /// Creates a grid of empty pixels.
    pub fn new(width: usize, height: usize) -> (grid: Self)
        requires
            width * height <= usize::MAX,
        ensures
            grid.spec_width() == width,
            grid.spec_height() == height,
            grid.is_blank(),
    {
        Grid2D::new_with_default(width, height, false)
    }

    /// Builds the occupancy grid of an image from its alpha channel, one byte
    /// per pixel in row-major order: a pixel is solid exactly when its alpha
    /// exceeds `threshold`.
    pub fn from_image(width: usize, height: usize, alpha: &[u8], threshold: u8) -> (grid: Self)
        requires
            alpha@.len() == width * height,
        ensures
            grid.spec_width() == width,
            grid.spec_height() == height,
            forall|x: int, y: int| #[trigger]
                grid.in_bounds(x, y) ==> grid.cell(x, y) == (alpha@[cell_index(
                    width as nat,
                    x,
                    y,
                )] > threshold),
    {
        let total: usize = alpha.len();
        let mut data: Vec<bool> = Vec::with_capacity(total);
        let mut i: usize = 0;
        while i < total
            invariant
                i <= total,
                total == alpha@.len(),
                data@.len() == i,
                forall|k: int| 0 <= k < i ==> data@[k] == (alpha@[k] > threshold),
            decreases total - i,
        {
            data.push(alpha[i] > threshold);
            i += 1;
        }
        let grid = Grid2D { data, width, height };
        assert forall|x: int, y: int| #[trigger] grid.in_bounds(x, y) implies grid.cell(x, y) == (
        alpha@[cell_index(width as nat, x, y)] > threshold) by {
            lemma_cell_index_in_range(width as nat, height as nat, x, y);
        }
        grid
    }

    /// The pixel at signed coordinates, or `None` outside the grid. Tracing
    /// looks one cell past every border, so negative coordinates are ordinary
    /// input here.
    pub fn get(&self, x: i32, y: i32) -> (value: Option<&bool>)
        ensures
            value.is_some() == self.in_bounds(x as int, y as int),
            value matches Some(v) ==> *v == self.cell(x as int, y as int),
    {
        if x < 0 || y < 0 {
            return None;
        }
        self.get_at(x as usize, y as usize)
    }

    /// A grid of the same width and height without a solid pixel.
    pub fn blank_like(&self) -> (grid: Self)
        ensures
            grid.spec_width() == self.spec_width(),
            grid.spec_height() == self.spec_height(),
            grid.is_blank(),
    {
        proof {
            use_type_invariant(self);
        }
        let cells = self.data.len();
        assert(self.width * self.height == cells);
        Grid2D::new(self.width, self.height)
    }

    /// Whether the pixel at column `x` of row `y` is solid.
    pub fn is_solid_at(&self, x: usize, y: usize) -> (s: bool)
        ensures
            s == self.solid(x as int, y as int),
    {
        match self.get_at(x, y) {
            Some(v) => *v,
            None => false,
        }
    }

    /// Whether the pixel at signed coordinates is solid.
    pub fn is_solid(&self, x: i32, y: i32) -> (s: bool)
        ensures
            s == self.solid(x as int, y as int),
    {
        match self.get(x, y) {
            Some(v) => *v,
            None => false,
        }
    }
}

/// Position of the alpha byte of pixel `(x, y)` in an interleaved RGBA buffer
/// of the given width.
pub open spec fn alpha_index(width: nat, x: int, y: int) -> int {
    cell_index(width, x, y) * 4 + 3
}

/// Builds the occupancy grid of an image from its interleaved RGBA bytes: a
/// pixel is solid exactly when its alpha byte exceeds `threshold_byte`.
pub fn create_grid_from_image(width: usize, height: usize, rgba: &[u8], threshold_byte: u8) -> (grid:
    Grid)
    requires
        rgba@.len() == width * height * 4,
    ensures
        grid.spec_width() == width,
        grid.spec_height() == height,
        forall|x: int, y: int| #[trigger]
            grid.in_bounds(x, y) ==> grid.cell(x, y) == (rgba@[alpha_index(width as nat, x, y)]
                > threshold_byte),
{
    let len: usize = rgba.len();
    let total: usize = len / RGBA8_BPP;
    let mut alpha: Vec<u8> = Vec::with_capacity(total);
    let mut i: usize = 0;
    while i < total
        invariant
            i <= total,
            len == rgba@.len(),
            total * 4 == len,
            alpha@.len() == i,
            forall|k: int| 0 <= k < i ==> alpha@[k] == rgba@[k * 4 + 3],
        decreases total - i,
    {
        alpha.push(rgba[i * RGBA8_BPP + RGBA8_ALPHA_OFFSET]);
        i += 1;
    }
    let grid = Grid2D::from_image(width, height, alpha.as_slice(), threshold_byte);
    assert forall|x: int, y: int| #[trigger] grid.in_bounds(x, y) implies grid.cell(x, y) == (rgba@[alpha_index(
        width as nat,
        x,
        y,
    )] > threshold_byte) by {
        lemma_cell_index_in_range(width as nat, height as nat, x, y);
        assert(alpha@[cell_index(width as nat, x, y)] == rgba@[cell_index(width as nat, x, y) * 4
            + 3]);
    }
    grid
}

/// Whether `(x1, y1)` comes before `(x2, y2)` when rows are read top to
/// bottom and each row left to right.
pub open spec fn before_from_top(x1: int, y1: int, x2: int, y2: int) -> bool {
    y1 < y2 || (y1 == y2 && x1 < x2)
}

/// Whether `(x1, y1)` comes before `(x2, y2)` when rows are read bottom to
/// top and each row left to right.
pub open spec fn before_from_bottom(x1: int, y1: int, x2: int, y2: int) -> bool {
    y1 > y2 || (y1 == y2 && x1 < x2)
}

/// The topmost solid pixel, leftmost within its row; `None` exactly when the
/// grid is blank.
pub fn first_top_left_solid_pixel(grid: &Grid) -> (found: Option<(usize, usize)>)
    ensures
        found is None <==> grid.is_blank(),
        found matches Some((x, y)) ==> grid.solid(x as int, y as int) && forall|
            px: int,
            py: int,
        | #[trigger] grid.solid(px, py) ==> !before_from_top(px, py, x as int, y as int),
{
    let width = grid.width();
    let height = grid.height();
    let mut y: usize = 0;
    while y < height
        invariant
            y <= height,
            width == grid.spec_width(),
            height == grid.spec_height(),
            forall|px: int, py: int| #[trigger] grid.solid(px, py) ==> py >= y,
        decreases height - y,
    {
        let mut x: usize = 0;
        while x < width
            invariant
                x <= width,
                y < height,
                width == grid.spec_width(),
                height == grid.spec_height(),
                forall|px: int, py: int| #[trigger]
                    grid.solid(px, py) ==> py > y || (py == y && px >= x),
            decreases width - x,
        {
            if grid.is_solid_at(x, y) {
                return Some((x, y));
            }
            x += 1;
        }
        y += 1;
    }
    None
}

/// The bottommost solid pixel, leftmost within its row; `None` exactly when
/// the grid is blank.
pub fn first_bottom_left_solid_pixel(grid: &Grid) -> (found: Option<(usize, usize)>)
    ensures
        found is None <==> grid.is_blank(),
        found matches Some((x, y)) ==> grid.solid(x as int, y as int) && forall|
            px: int,
            py: int,
        | #[trigger] grid.solid(px, py) ==> !before_from_bottom(px, py, x as int, y as int),
{
    let width = grid.width();
    let height = grid.height();
    let mut remaining: usize = height;
    while remaining > 0
        invariant
            remaining <= height,
            width == grid.spec_width(),
            height == grid.spec_height(),
            forall|px: int, py: int| #[trigger] grid.solid(px, py) ==> py < remaining,
        decreases remaining,
    {
        let y: usize = remaining - 1;
        let mut x: usize = 0;
        while x < width
            invariant
                x <= width,
                y + 1 == remaining,
                remaining <= height,
                width == grid.spec_width(),
                height == grid.spec_height(),
                forall|px: int, py: int| #[trigger]
                    grid.solid(px, py) ==> py < y || (py == y && px >= x),
            decreases width - x,
        {
            if grid.is_solid_at(x, y) {
                return Some((x, y));
            }
            x += 1;
        }
        remaining = y;
    }
    None
}

} // verus!

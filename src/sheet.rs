//! Checking that tiles share one size, and compositing them into a spritesheet.
use vstd::prelude::*;
use crate::grid::{Dims, first_best, lemma_optimal_grid_unique, lemma_rows_needed, optimal_grid, optimal_stacking};
use crate::raster::{in_block, lemma_index_in_bounds, lemma_index_split, replace, transparent, Raster, Rgba};

verus! {

/// Why no spritesheet could be made.
#[derive(Debug, Clone, Copy, PartialEq, Eq, Structural)]
pub enum SheetError {
    /// There are no tiles.
    NoImages,
    /// Some tile's size differs from the first tile's.
    InconsistentSize,
    /// A side of the canvas would not fit a `u32`, or its bytes would not fit a `usize`.
    CanvasTooLarge,
}

/// The pixel size of a raster.
pub open spec fn size_of(r: Raster) -> Dims {
    Dims { x: r.width as usize, y: r.height as usize }
}

/// Every raster of `tiles` is well formed.
pub open spec fn all_wf(tiles: Seq<Raster>) -> bool {
    forall|i: int| 0 <= i < tiles.len() ==> (#[trigger] tiles[i]).wf()
}

/// Every raster of `tiles` is `tile.x` wide and `tile.y` high.
pub open spec fn same_size(tiles: Seq<Raster>, tile: Dims) -> bool {
    forall|i: int| 0 <= i < tiles.len() ==> (#[trigger] tiles[i]).width as int == tile.x as int
        && tiles[i].height as int == tile.y as int
}

/// What the size check gives for `tiles`.
pub open spec fn checked_size(tiles: Seq<Raster>) -> Result<Dims, SheetError> {
    if tiles.len() == 0 {
        Err(SheetError::NoImages)
    } else if same_size(tiles, size_of(tiles[0])) {
        Ok(size_of(tiles[0]))
    } else {
        Err(SheetError::InconsistentSize)
    }
}

/// The grid cell, counted row after row, that pixel `(x, y)` of the canvas falls in.
pub open spec fn cell_of(x: int, y: int, columns: int, tile: Dims) -> int {
    (y / tile.y as int) * columns + x / tile.x as int
}

/// The pixel at `(x, y)` of the spritesheet of `tiles` in `columns` columns:
/// the matching pixel of the tile whose cell it falls in, or transparent where
/// that cell holds no tile.
pub open spec fn sheet_pixel(tiles: Seq<Raster>, columns: int, tile: Dims, x: int, y: int) -> Rgba {
    let i = cell_of(x, y, columns, tile);
    if i < tiles.len() {
        tiles[i].pixel_at(x % tile.x as int, y % tile.y as int)
    } else {
        transparent()
    }
}

/// `canvas` is the spritesheet of `tiles`, each `tile` in size, laid out in `grid`.
pub open spec fn is_sheet(canvas: Raster, tiles: Seq<Raster>, grid: Dims, tile: Dims) -> bool {
    &&& canvas.wf()
    &&& canvas.width as int == grid.x as int * tile.x as int
    &&& canvas.height as int == grid.y as int * tile.y as int
    &&& forall|x: int, y: int|
        0 <= x < canvas.width && 0 <= y < canvas.height ==> #[trigger] canvas.pixel_at(x, y) == sheet_pixel(
            tiles,
            grid.x as int,
            tile,
            x,
            y,
        )
}

/// A canvas of `grid` cells of `tile` pixels has sides that fit a `u32` and
/// bytes that can be counted in a `usize`.
pub open spec fn canvas_fits(grid: Dims, tile: Dims) -> bool {
    let w = grid.x as int * tile.x as int;
    let h = grid.y as int * tile.y as int;
    &&& w <= u32::MAX
    &&& h <= u32::MAX
    &&& w * h * 4 <= usize::MAX
}

/// Checks that there is at least one tile and that every tile has the first
/// tile's size, which it returns.
pub fn dims(images: &Vec<Raster>) -> (r: Result<Dims, SheetError>)
    ensures
        r == checked_size(images@),
{
    if images.len() == 0 {
        return Err(SheetError::NoImages);
    }
    let w = images[0].width;
    let h = images[0].height;
    let mut i: usize = 0;
    while i < images.len()
        invariant
            0 < images@.len(),
            w == images@[0].width,
            h == images@[0].height,
            i <= images@.len(),
            forall|j: int| 0 <= j < i ==> (#[trigger] images@[j]).width == w && images@[j].height == h,
        decreases images@.len() - i,
    {
        if images[i].width != w || images[i].height != h {
            return Err(SheetError::InconsistentSize);
        }
        i = i + 1;
    }
    Ok(Dims { x: w as usize, y: h as usize })
}

/// Along one axis: `x` lies in block `c` of `w` pixels exactly when `x / w == c`,
/// and then its offset in the block is `x % w`.
proof fn lemma_block_1d(x: int, w: int, c: int)
    requires
        w > 0,
        x >= 0,
        c >= 0,
    ensures
        (c * w <= x < c * w + w) <==> x / w == c,
        x / w == c ==> x - c * w == x % w,
{
    vstd::arithmetic::div_mod::lemma_fundamental_div_mod(x, w);
    vstd::arithmetic::div_mod::lemma_mod_bound(x, w);
    let a = x / w;
    let b = x % w;
    if a == c {
        assert(c * w <= x < c * w + w && x - c * w == b) by (nonlinear_arith)
            requires x == w * a + b, 0 <= b < w, a == c;
    }
    if a < c {
        assert(x < c * w) by (nonlinear_arith)
            requires x == w * a + b, b < w, a < c, w > 0;
    }
    if a > c {
        assert(x >= c * w + w) by (nonlinear_arith)
            requires x == w * a + b, b >= 0, a > c, w > 0;
    }
}

/// Two places in a grid of `n` columns are the same exactly when row and column agree.
proof fn lemma_same_cell(row1: int, col1: int, row2: int, col2: int, n: int)
    requires
        0 <= col1 < n,
        0 <= col2 < n,
    ensures
        (row1 * n + col1 == row2 * n + col2) <==> (row1 == row2 && col1 == col2),
{
    if row1 < row2 {
        assert(row1 * n + col1 < row2 * n + col2) by (nonlinear_arith)
            requires row1 < row2, 0 <= col1 < n, 0 <= col2;
    }
    if row1 > row2 {
        assert(row1 * n + col1 > row2 * n + col2) by (nonlinear_arith)
            requires row1 > row2, 0 <= col2 < n, 0 <= col1;
    }
}

/// Pixel `(x, y)` of the canvas lies in the block where tile `i` is pasted
/// exactly when it falls in cell `i`, and its offset there is `(x % w, y % h)`.
proof fn lemma_cell(x: int, y: int, columns: int, tile: Dims, i: int)
    requires
        tile.x > 0,
        tile.y > 0,
        columns > 0,
        0 <= x < columns * tile.x,
        0 <= y,
        0 <= i,
    ensures
        ({
            let left = (i % columns) * tile.x as int;
            let top = (i / columns) * tile.y as int;
            &&& in_block(x, y, left, top, tile.x as int, tile.y as int) <==> cell_of(x, y, columns, tile) == i
            &&& cell_of(x, y, columns, tile) == i ==> x - left == x % tile.x as int && y - top == y % tile.y as int
        }),
{
    let w = tile.x as int;
    let h = tile.y as int;
    vstd::arithmetic::div_mod::lemma_fundamental_div_mod(i, columns);
    vstd::arithmetic::div_mod::lemma_mod_bound(i, columns);
    vstd::arithmetic::div_mod::lemma_fundamental_div_mod(x, w);
    vstd::arithmetic::div_mod::lemma_mod_bound(x, w);
    let col = i % columns;
    let row = i / columns;
    assert(row >= 0) by (nonlinear_arith)
        requires i == columns * row + col, 0 <= col < columns, i >= 0;
    assert(0 <= x / w < columns) by (nonlinear_arith)
        requires x == w * (x / w) + x % w, 0 <= x % w < w, 0 <= x < columns * w;
    lemma_block_1d(x, w, col);
    lemma_block_1d(y, h, row);
    lemma_same_cell(y / h, x / w, row, col, columns);
    assert(i == row * columns + col) by (nonlinear_arith)
        requires i == columns * row + col;
}

/// Pastes each tile, in order, into its cell of a transparent canvas of
/// `grid` cells of `tile` pixels: tile `i` goes to column `i % grid.x` and
/// row `i / grid.x`.
pub fn compose(tiles: &Vec<Raster>, grid: Dims, tile: Dims) -> (canvas: Raster)
    requires
        grid.x >= 1,
        tiles@.len() <= grid.x as int * grid.y as int,
        all_wf(tiles@),
        same_size(tiles@, tile),
        canvas_fits(grid, tile),
    ensures
        is_sheet(canvas, tiles@, grid, tile),
{
    let width: u32 = (grid.x as u64 * tile.x as u64) as u32;
    let height: u32 = (grid.y as u64 * tile.y as u64) as u32;
    let mut canvas = Raster::blank(width, height);
    let ghost columns = grid.x as int;
    proof {
        assert forall|x: int, y: int| 0 <= x < width && 0 <= y < height implies #[trigger] canvas.pixel_at(x, y)
            == transparent() && cell_of(x, y, columns, tile) >= 0 by {
            lemma_index_in_bounds(width as int, height as int, x, y);
            assert(tile.x > 0 && tile.y > 0) by (nonlinear_arith)
                requires 0 <= x < grid.x * tile.x, 0 <= y < grid.y * tile.y, tile.x >= 0, tile.y >= 0;
            assert(0 <= cell_of(x, y, columns, tile)) by (nonlinear_arith)
                requires 0 <= x, 0 <= y, tile.x > 0, tile.y > 0, columns > 0;
        }
    }
    let mut i: usize = 0;
    while i < tiles.len()
        invariant
            canvas.wf(),
            canvas.width == width,
            canvas.height == height,
            width as int == grid.x as int * tile.x as int,
            height as int == grid.y as int * tile.y as int,
            columns == grid.x as int,
            grid.x >= 1,
            tiles@.len() <= grid.x as int * grid.y as int,
            all_wf(tiles@),
            same_size(tiles@, tile),
            canvas_fits(grid, tile),
            i <= tiles@.len(),
            forall|x: int, y: int|
                0 <= x < width && 0 <= y < height ==> #[trigger] canvas.pixel_at(x, y) == if cell_of(x, y, columns, tile) < i {
                    sheet_pixel(tiles@, columns, tile, x, y)
                } else {
                    transparent()
                },
        decreases tiles@.len() - i,
    {
        let col = i % grid.x;
        let row = i / grid.x;
        proof {
            assert(row < grid.y) by (nonlinear_arith)
                requires i < grid.x * grid.y, row == i / grid.x, grid.x >= 1, i >= 0;
            assert((col + 1) * tile.x <= grid.x * tile.x) by (nonlinear_arith)
                requires col < grid.x, tile.x >= 0;
            assert((row + 1) * tile.y <= grid.y * tile.y) by (nonlinear_arith)
                requires row < grid.y, tile.y >= 0;
            assert(tiles@[i as int].wf());
            assert(col * tile.x <= u32::MAX && row * tile.y <= u32::MAX) by (nonlinear_arith)
                requires (col + 1) * tile.x <= grid.x * tile.x, (row + 1) * tile.y <= grid.y * tile.y,
                    grid.x * tile.x <= u32::MAX, grid.y * tile.y <= u32::MAX, tile.x >= 0, tile.y >= 0;
        }
        let left: u32 = (col as u64 * tile.x as u64) as u32;
        let top: u32 = (row as u64 * tile.y as u64) as u32;
        proof {
            assert(tiles@[i as int].width as int == tile.x as int && tiles@[i as int].height as int == tile.y as int);
            assert(left as int + tile.x as int <= width as int) by (nonlinear_arith)
                requires left == col * tile.x, (col + 1) * tile.x <= grid.x * tile.x, width == grid.x * tile.x;
            assert(top as int + tile.y as int <= height as int) by (nonlinear_arith)
                requires top == row * tile.y, (row + 1) * tile.y <= grid.y * tile.y, height == grid.y * tile.y;
        }
        let ghost before = canvas;
        replace(&mut canvas, &tiles[i], left, top);
        proof {
            assert forall|x: int, y: int| 0 <= x < width && 0 <= y < height implies #[trigger] canvas.pixel_at(x, y)
                == if cell_of(x, y, columns, tile) < i + 1 {
                sheet_pixel(tiles@, columns, tile, x, y)
            } else {
                transparent()
            } by {
                assert(tile.x > 0 && tile.y > 0) by (nonlinear_arith)
                    requires 0 <= x < grid.x * tile.x, 0 <= y < grid.y * tile.y, tile.x >= 0, tile.y >= 0;
                lemma_cell(x, y, columns, tile, i as int);
                assert(before.pixel_at(x, y) == if cell_of(x, y, columns, tile) < i {
                    sheet_pixel(tiles@, columns, tile, x, y)
                } else {
                    transparent()
                });
                assert(0 <= cell_of(x, y, columns, tile)) by (nonlinear_arith)
                    requires 0 <= x, 0 <= y, tile.x > 0, tile.y > 0, columns > 0;
            }
        }
        i = i + 1;
    }
    canvas
}

/// `r` is what assembling `tiles` gives: `NoImages` where there are none,
/// `InconsistentSize` where their sizes differ, `CanvasTooLarge` where the
/// optimal grid's canvas cannot be held, and otherwise the tiles composited
/// in that grid.
pub open spec fn is_assembly_of(tiles: Seq<Raster>, r: Result<Raster, SheetError>) -> bool {
    match checked_size(tiles) {
        Err(e) => r == Err::<Raster, SheetError>(e),
        Ok(tile) => {
            let grid = optimal_grid(tiles.len() as int, tile);
            if canvas_fits(grid, tile) {
                r.is_ok() && is_sheet(r->Ok_0, tiles, grid, tile)
            } else {
                r == Err::<Raster, SheetError>(SheetError::CanvasTooLarge)
            }
        },
    }
}

/// Builds the spritesheet of `tiles`, in their order: checks their size,
/// chooses the grid, and composites them into it.
pub fn assemble(tiles: &Vec<Raster>) -> (r: Result<Raster, SheetError>)
    requires
        all_wf(tiles@),
    ensures
        is_assembly_of(tiles@, r),
{
    let tile = match dims(tiles) {
        Ok(d) => d,
        Err(e) => return Err(e),
    };
    let grid = optimal_stacking(tiles.len(), tile);
    proof {
        let m = usize::MAX as int;
        assert(0 <= grid.x as int * tile.x as int <= u128::MAX) by (nonlinear_arith)
            requires 0 <= grid.x <= m, 0 <= tile.x <= m, m <= 0xffff_ffff_ffff_ffff;
        assert(0 <= grid.y as int * tile.y as int <= u128::MAX) by (nonlinear_arith)
            requires 0 <= grid.y <= m, 0 <= tile.y <= m, m <= 0xffff_ffff_ffff_ffff;
    }
    let w: u128 = grid.x as u128 * tile.x as u128;
    let h: u128 = grid.y as u128 * tile.y as u128;
    if w > u32::MAX as u128 || h > u32::MAX as u128 {
        return Err(SheetError::CanvasTooLarge);
    }
    proof {
        assert(0 <= w * h * 4 <= u128::MAX) by (nonlinear_arith)
            requires w <= u32::MAX, h <= u32::MAX;
    }
    if w * h * 4 > usize::MAX as u128 {
        return Err(SheetError::CanvasTooLarge);
    }
    proof {
        lemma_rows_needed(tiles@.len() as int, grid.x as int);
        assert(grid.x as int * grid.y as int >= tiles@.len());
    }
    Ok(compose(tiles, grid, tile))
}

/// The rasters among `candidates`, in their order; the entries that hold none
/// are left out.
pub open spec fn decoded(candidates: Seq<Option<Raster>>) -> Seq<Raster>
    decreases candidates.len(),
{
    if candidates.len() == 0 {
        Seq::empty()
    } else {
        let rest = decoded(candidates.drop_first());
        match candidates[0] {
            Some(t) => seq![t] + rest,
            None => rest,
        }
    }
}

/// Keeps the entries that could be read as rasters, in their order, and
/// drops the others.
pub fn collect_tiles(candidates: Vec<Option<Raster>>) -> (r: Vec<Raster>)
    ensures
        r@ == decoded(candidates@),
{
    let mut rest = candidates;
    let mut tiles: Vec<Raster> = Vec::new();
    while rest.len() > 0
        invariant
            tiles@ + decoded(rest@) == decoded(candidates@),
        decreases rest@.len(),
    {
        let ghost before = rest@;
        let c = rest.remove(0);
        proof {
            assert(rest@ == before.drop_first());
        }
        match c {
            Some(t) => {
                tiles.push(t);
                proof {
                    assert(decoded(before) == seq![t] + decoded(rest@));
                    assert(tiles@ + decoded(rest@) =~= decoded(candidates@));
                }
            },
            None => {},
        }
    }
    proof {
        assert(tiles@ =~= tiles@ + decoded(rest@));
    }
    tiles
}

/// In a spritesheet, tile `i` fills, pixel for pixel, the cell in column
/// `i % grid.x` and row `i / grid.x`: tiles take the cells in their order.
pub proof fn lemma_tile_in_cell(canvas: Raster, tiles: Seq<Raster>, grid: Dims, tile: Dims, i: int, tx: int, ty: int)
    requires
        is_sheet(canvas, tiles, grid, tile),
        grid.x >= 1,
        tiles.len() <= grid.x as int * grid.y as int,
        0 <= i < tiles.len(),
        0 <= tx < tile.x,
        0 <= ty < tile.y,
    ensures
        canvas.pixel_at((i % grid.x as int) * tile.x as int + tx, (i / grid.x as int) * tile.y as int + ty)
            == tiles[i].pixel_at(tx, ty),
{
    let columns = grid.x as int;
    let w = tile.x as int;
    let h = tile.y as int;
    vstd::arithmetic::div_mod::lemma_fundamental_div_mod(i, columns);
    vstd::arithmetic::div_mod::lemma_mod_bound(i, columns);
    let col = i % columns;
    let row = i / columns;
    assert(0 <= row < grid.y) by (nonlinear_arith)
        requires i == columns * row + col, 0 <= col < columns, 0 <= i < columns * grid.y;
    let x = col * w + tx;
    let y = row * h + ty;
    assert(0 <= x < columns * w) by (nonlinear_arith)
        requires x == col * w + tx, 0 <= col < columns, 0 <= tx < w;
    assert(0 <= y < grid.y * h) by (nonlinear_arith)
        requires y == row * h + ty, 0 <= row < grid.y, 0 <= ty < h;
    lemma_cell(x, y, columns, tile, i);
    assert(canvas.pixel_at(x, y) == sheet_pixel(tiles, columns, tile, x, y));
}

/// The spritesheet of a single tile is that tile: same size, same pixels.
pub proof fn lemma_one_tile_round_trip(t: Raster, canvas: Raster)
    requires
        t.wf(),
        is_sheet(canvas, seq![t], optimal_grid(1, size_of(t)), size_of(t)),
    ensures
        canvas.width == t.width,
        canvas.height == t.height,
        canvas.pixels@ == t.pixels@,
{
    let tile = size_of(t);
    lemma_optimal_grid_unique(1, tile, optimal_grid(1, tile));
    let grid = optimal_grid(1, tile);
    assert(first_best(1, tile, 1) == 1);
    lemma_rows_needed(1, 1);
    assert(grid.x == 1 && grid.y == 1);
    let w = t.width as int;
    let h = t.height as int;
    assert(tile.x as int == w && tile.y as int == h);
    assert(canvas.width as int == w && canvas.height as int == h) by (nonlinear_arith)
        requires canvas.height as int == grid.y as int * tile.y as int, grid.y as int == 1, tile.y as int == h,
            canvas.width as int == grid.x as int * tile.x as int, grid.x as int == 1, tile.x as int == w;
    assert(canvas.pixels@.len() == t.pixels@.len());
    if w * h > 0 {
        assert forall|p: int| 0 <= p < w * h implies canvas.pixels@[p] == t.pixels@[p] by {
            assert(w > 0) by (nonlinear_arith)
                requires w * h > 0, w >= 0, h >= 0;
            lemma_index_split(w, h, p);
            let x = p % w;
            let y = p / w;
            assert(x < 1 * tile.x as int);
            assert(tile.y as int > 0) by (nonlinear_arith)
                requires w * h > 0, w >= 0, h >= 0, tile.y as int == h;
            lemma_cell(x, y, 1, tile, 0);
            assert(canvas.pixel_at(x, y) == sheet_pixel(seq![t], grid.x as int, tile, x, y));
            vstd::arithmetic::div_mod::lemma_small_mod(x as nat, w as nat);
            vstd::arithmetic::div_mod::lemma_small_mod(y as nat, h as nat);
        }
    }
    assert(canvas.pixels@ =~= t.pixels@);
}

} // verus!

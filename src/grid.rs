//! Choosing how many columns and rows a spritesheet gets.
use vstd::prelude::*;

verus! {

/// A pair of sizes: either the pixel size of one tile (`x` wide, `y` high)
/// or the number of tiles along each axis of a grid (`x` columns, `y` rows).
#[derive(Debug, Clone, Copy, PartialEq, Eq, Structural)]
pub struct Dims {
    pub x: usize,
    pub y: usize,
}

/// The least number of rows of `columns` cells each that holds `count` cells:
/// `count / columns` rounded up.
pub open spec fn rows_needed(count: int, columns: int) -> int
    recommends
        columns > 0,
{
    count / columns + if count % columns == 0 {
        0int
    } else {
        1int
    }
}

/// The larger side, in pixels, of a canvas of `columns` by `rows` cells of
/// `w` by `h` pixels.
pub open spec fn larger_side(columns: int, rows: int, w: int, h: int) -> int {
    if rows * h >= columns * w {
        rows * h
    } else {
        columns * w
    }
}

/// The score of `columns` columns for `count` tiles of size `tile`: the larger
/// side of the canvas when the rows are as few as will hold every tile.
pub open spec fn score(count: int, tile: Dims, columns: int) -> int {
    larger_side(columns, rows_needed(count, columns), tile.x as int, tile.y as int)
}

/// `columns` is the first column count, from 1 up to `count`, whose score is
/// the least of all column counts from 1 up to `count`.
pub open spec fn is_first_best(count: int, tile: Dims, columns: int) -> bool {
    &&& 1 <= columns <= count
    &&& forall|c: int| 1 <= c <= count ==> score(count, tile, columns) <= #[trigger] score(count, tile, c)
    &&& forall|c: int| 1 <= c < columns ==> score(count, tile, columns) < #[trigger] score(count, tile, c)
}

/// The grid that the optimizer owes for `count` tiles of size `tile`.
pub open spec fn is_optimal_grid(count: int, tile: Dims, grid: Dims) -> bool {
    &&& is_first_best(count, tile, grid.x as int)
    &&& grid.y as int == rows_needed(count, grid.x as int)
}

/// The first column count among 1 up to `k` whose score is the least among them.
pub open spec fn first_best(count: int, tile: Dims, k: int) -> int
    decreases k,
{
    if k <= 1 {
        1
    } else {
        let b = first_best(count, tile, k - 1);
        if score(count, tile, k) < score(count, tile, b) {
            k
        } else {
            b
        }
    }
}

/// The grid for `count` tiles of size `tile`: the first best column count,
/// and as few rows as then hold every tile.
pub open spec fn optimal_grid(count: int, tile: Dims) -> Dims {
    let c = first_best(count, tile, count);
    Dims { x: c as usize, y: rows_needed(count, c) as usize }
}

/// Among the column counts 1 up to `k`, `first_best` has the least score, and
/// every column count before it scores more.
proof fn lemma_first_best_upto(count: int, tile: Dims, k: int)
    requires
        1 <= k,
    ensures
        1 <= first_best(count, tile, k) <= k,
        forall|c: int| 1 <= c <= k ==> score(count, tile, first_best(count, tile, k)) <= #[trigger] score(count, tile, c),
        forall|c: int| 1 <= c < first_best(count, tile, k) ==> score(count, tile, first_best(count, tile, k)) < #[trigger] score(count, tile, c),
    decreases k,
{
    if k > 1 {
        lemma_first_best_upto(count, tile, k - 1);
    }
}

/// A grid that meets `is_optimal_grid` is the one grid `optimal_grid` names,
/// and `optimal_grid` meets it.
pub proof fn lemma_optimal_grid_unique(count: int, tile: Dims, grid: Dims)
    requires
        1 <= count <= usize::MAX,
    ensures
        is_optimal_grid(count, tile, optimal_grid(count, tile)),
        is_optimal_grid(count, tile, grid) ==> grid == optimal_grid(count, tile),
{
    lemma_first_best_upto(count, tile, count);
    let c = first_best(count, tile, count);
    lemma_rows_needed(count, c);
    if is_optimal_grid(count, tile, grid) {
        let g = grid.x as int;
        assert(score(count, tile, c) <= score(count, tile, g));
        assert(score(count, tile, g) <= score(count, tile, c));
        if g < c {
            assert(score(count, tile, c) < score(count, tile, g));
        } else if c < g {
            assert(score(count, tile, g) < score(count, tile, c));
        }
    }
}

/// The optimizer's grid holds every tile, has at most as many columns as
/// tiles, and no layout of `c` columns (1 up to `count`) and `r` rows that
/// holds every tile has a smaller larger side; one with fewer columns than
/// the grid has a strictly larger one.
pub proof fn lemma_optimal_grid_is_minimal(count: int, tile: Dims)
    requires
        1 <= count <= usize::MAX,
    ensures
        ({
            let g = optimal_grid(count, tile);
            &&& g.x as int * g.y as int >= count
            &&& 1 <= g.x <= count
            &&& forall|c: int, r: int|
                1 <= c <= count && #[trigger] (c * r) >= count ==> larger_side(c, r, tile.x as int, tile.y as int)
                    >= larger_side(g.x as int, g.y as int, tile.x as int, tile.y as int)
            &&& forall|c: int, r: int|
                1 <= c < g.x && #[trigger] (c * r) >= count ==> larger_side(c, r, tile.x as int, tile.y as int)
                    > larger_side(g.x as int, g.y as int, tile.x as int, tile.y as int)
        }),
{
    lemma_optimal_grid_unique(count, tile, optimal_grid(count, tile));
    let g = optimal_grid(count, tile);
    lemma_rows_needed(count, g.x as int);
    assert(g.x as int * g.y as int >= count);
    assert forall|c: int, r: int| 1 <= c <= count && #[trigger] (c * r) >= count implies larger_side(c, r, tile.x as int, tile.y as int)
        >= score(count, tile, c) by {
        lemma_rows_needed(count, c);
        let rn = rows_needed(count, c);
        assert(r >= rn);
        assert(r * tile.y as int >= rn * tile.y as int) by (nonlinear_arith)
            requires r >= rn, tile.y >= 0;
    }
}

/// `rows_needed` is the ceiling of the quotient: it covers `count`, one row
/// less does not, and every row count that covers `count` is at least as large.
pub proof fn lemma_rows_needed(count: int, columns: int)
    requires
        count >= 0,
        columns > 0,
    ensures
        columns * rows_needed(count, columns) >= count,
        columns * (rows_needed(count, columns) - 1) < count,
        rows_needed(count, columns) >= 0,
        count > 0 ==> rows_needed(count, columns) >= 1,
        rows_needed(count, columns) <= count,
        forall|r: int| #[trigger] (columns * r) >= count ==> r >= rows_needed(count, columns),
{
    let q = count / columns;
    let m = count % columns;
    vstd::arithmetic::div_mod::lemma_fundamental_div_mod(count, columns);
    vstd::arithmetic::div_mod::lemma_mod_bound(count, columns);
    assert(q >= 0) by (nonlinear_arith)
        requires count == columns * q + m, 0 <= m < columns, count >= 0;
    let rn = rows_needed(count, columns);
    assert(columns * rn >= count) by (nonlinear_arith)
        requires count == columns * q + m, 0 <= m < columns, rn == q + if m == 0 { 0int } else { 1int };
    assert(columns * (rn - 1) < count) by (nonlinear_arith)
        requires count == columns * q + m, 0 <= m < columns, rn == q + if m == 0 { 0int } else { 1int };
    assert(rn <= count) by (nonlinear_arith)
        requires count == columns * q + m, 0 <= m < columns, rn == q + if m == 0 { 0int } else { 1int },
            q >= 0, columns >= 1;
    assert forall|r: int| #[trigger] (columns * r) >= count implies r >= rn by {
        if r < rn {
            assert(columns * r <= columns * (rn - 1)) by (nonlinear_arith)
                requires r <= rn - 1, columns > 0;
        }
    }
}

/// The number of rows that `x` columns need to hold `count` tiles.
pub fn y_from_x(x: usize, count: usize) -> (r: usize)
    requires
        x > 0,
    ensures
        r as int == rows_needed(count as int, x as int),
{
    proof {
        lemma_rows_needed(count as int, x as int);
    }
    let q = count / x;
    if count % x == 0 {
        q
    } else {
        q + 1
    }
}

/// The larger of two scores.
fn larger(a: u128, b: u128) -> (r: u128)
    ensures
        r == if a >= b { a } else { b },
{
    if a >= b {
        a
    } else {
        b
    }
}

/// The score of `x` columns, computed without overflow.
fn score_of(count: usize, tile: Dims, x: usize) -> (r: u128)
    requires
        1 <= x <= count,
    ensures
        r as int == score(count as int, tile, x as int),
{
    let y = y_from_x(x, count);
    proof {
        lemma_rows_needed(count as int, x as int);
        let m = usize::MAX as int;
        assert(0 <= (y as int) * (tile.y as int) <= u128::MAX) by (nonlinear_arith)
            requires 0 <= y <= m, 0 <= tile.y <= m, m <= 0xffff_ffff_ffff_ffff;
        assert(0 <= (x as int) * (tile.x as int) <= u128::MAX) by (nonlinear_arith)
            requires 0 <= x <= m, 0 <= tile.x <= m, m <= 0xffff_ffff_ffff_ffff;
    }
    larger(y as u128 * tile.y as u128, x as u128 * tile.x as u128)
}

/// Chooses the grid for `count` tiles of size `dims`: the first column count,
/// trying 1 up to `count`, whose canvas has the smallest larger side, and the
/// fewest rows that then hold every tile.
pub fn optimal_stacking(count: usize, dims: Dims) -> (grid: Dims)
    requires
        count >= 1,
    ensures
        is_optimal_grid(count as int, dims, grid),
        grid == optimal_grid(count as int, dims),
{
    let mut best_x: usize = 1;
    let mut best_dim: u128 = score_of(count, dims, 1);
    let mut x: usize = 1;
    while x < count
        invariant
            1 <= x <= count,
            1 <= best_x <= x,
            best_dim as int == score(count as int, dims, best_x as int),
            forall|c: int| 1 <= c <= x ==> score(count as int, dims, best_x as int) <= #[trigger] score(count as int, dims, c),
            forall|c: int| 1 <= c < best_x ==> score(count as int, dims, best_x as int) < #[trigger] score(count as int, dims, c),
        decreases count - x,
    {
        x = x + 1;
        let dim = score_of(count, dims, x);
        if dim < best_dim {
            best_x = x;
            best_dim = dim;
        }
    }
    let grid = Dims { x: best_x, y: y_from_x(best_x, count) };
    proof {
        lemma_optimal_grid_unique(count as int, dims, grid);
    }
    grid
}

} // verus!

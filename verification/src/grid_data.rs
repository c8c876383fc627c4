use vstd::prelude::*;

verus! {

/// A flat boolean grid, stored row-major: the cell `(row, col)` of a grid of
/// width `w` lives at index `row * w + col`.
pub type GridData = Vec<bool>;

/// Number of cells of a `width × height` grid (zero when either side is not positive).
pub open spec fn grid_cells(width: int, height: int) -> int {
    if width * height > 0 { width * height } else { 0 }
}

/// Create a new grid of `width × height` cells, all `false` (free).
pub fn grid_data_new(width: i32, height: i32) -> (d: GridData)
    requires
        i32::MIN <= width * height <= i32::MAX,
    ensures
        d@.len() == grid_cells(width as int, height as int),
        forall|i: int| 0 <= i < d@.len() ==> !d@[i],
{
    let prod: i32 = width * height;
    let n: usize = if prod > 0 { prod as usize } else { 0 };
    let mut d: Vec<bool> = Vec::new();
    let mut i: usize = 0;
    while i < n
        invariant
            i <= n,
            d@.len() == i,
            forall|k: int| 0 <= k < i ==> !d@[k],
        decreases n - i,
    {
        d.push(false);
        i = i + 1;
    }
    d
}

/// The flat index of the cell `(row, col)` in a row-major grid of the given width.
pub open spec fn grid_index(row: int, col: int, width: int) -> int {
    row * width + col
}

/// Set the cell at `(row, col)` of a row-major grid of the given `width`.
pub fn grid_data_set(data: &mut GridData, row: i32, col: i32, width: i32, val: bool)
    requires
        0 <= grid_index(row as int, col as int, width as int) < old(data)@.len(),
        i32::MIN <= row * width <= i32::MAX,
        grid_index(row as int, col as int, width as int) <= i32::MAX,
    ensures
        final(data)@ == old(data)@.update(grid_index(row as int, col as int, width as int), val),
{
    let idx: i32 = row * width + col;
    data.set(idx as usize, val);
}

/// The cell at `(row, col)` of a row-major grid of the given `width`.
pub fn grid_data_get(data: &GridData, row: i32, col: i32, width: i32) -> (v: bool)
    requires
        0 <= grid_index(row as int, col as int, width as int) < data@.len(),
        i32::MIN <= row * width <= i32::MAX,
        grid_index(row as int, col as int, width as int) <= i32::MAX,
    ensures
        v == data@[grid_index(row as int, col as int, width as int)],
{
    let idx: i32 = row * width + col;
    data[idx as usize]
}

/// Reading a cell gives the value last written to it, and writing a cell
/// leaves every other cell as it was (cells are given by row and column, the
/// columns within the grid's width).
pub proof fn lemma_grid_set_get(data: Seq<bool>, width: int, row: int, col: int, val: bool, row2: int, col2: int)
    requires
        0 <= col < width,
        0 <= col2 < width,
        0 <= row,
        0 <= row2,
        grid_index(row, col, width) < data.len(),
        grid_index(row2, col2, width) < data.len(),
    ensures
        data.update(grid_index(row, col, width), val)[grid_index(row2, col2, width)] == (if row2 == row && col2
            == col {
            val
        } else {
            data[grid_index(row2, col2, width)]
        }),
{
    if row2 != row || col2 != col {
        assert(row * width + col != row2 * width + col2) by (nonlinear_arith)
            requires
                0 <= col < width,
                0 <= col2 < width,
                0 <= row,
                0 <= row2,
                row2 != row || col2 != col,
        {
            if row < row2 {
                assert((row2 - row) * width >= width);
                assert(row2 * width - row * width == (row2 - row) * width);
            } else if row > row2 {
                assert((row - row2) * width >= width);
                assert(row * width - row2 * width == (row - row2) * width);
            }
        }
    }
}

} // verus!

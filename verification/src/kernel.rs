//! Array primitives used by the decoder.

use vstd::prelude::*;
use crate::error::PipelineError;
use crate::matrix::{copy_matrix, grid, rectangular, row_total, same_shape, set_cell, total, width};

verus! {

/// The index of the first greatest element among the first `n` elements of
/// `row` (0 when `n` is at most 1).
pub open spec fn first_max_upto(row: Seq<u32>, n: int) -> int
    decreases n,
{
    if n <= 1 {
        0
    } else {
        let best = first_max_upto(row, n - 1);
        if row[n - 1] > row[best] {
            n - 1
        } else {
            best
        }
    }
}

/// The index of the first greatest element of `row`.
pub open spec fn first_max(row: Seq<u32>) -> int {
    first_max_upto(row, row.len() as int)
}

/// `first_max_upto` names an element that no other among the first `n`
/// exceeds and that no earlier one equals.
pub proof fn lemma_first_max_upto(row: Seq<u32>, n: int)
    requires
        1 <= n <= row.len(),
    ensures
        0 <= first_max_upto(row, n) < n,
        forall|j: int| 0 <= j < n ==> (#[trigger] row[j]) <= row[first_max_upto(row, n)],
        forall|j: int| 0 <= j < first_max_upto(row, n) ==> (#[trigger] row[j]) < row[first_max_upto(row, n)],
    decreases n,
{
    if n > 1 {
        lemma_first_max_upto(row, n - 1);
    }
}

/// Returns the position of the greatest element, the first one where
/// several are equal, or `None` for an empty row.
pub fn arg_max(arr: &Vec<u32>) -> (result: Option<usize>)
    ensures
        arr@.len() == 0 <==> result is None,
        result matches Some(i) ==> {
            &&& i < arr@.len()
            &&& i == first_max(arr@)
            &&& forall|j: int| 0 <= j < arr@.len() ==> (#[trigger] arr@[j]) <= arr@[i as int]
            &&& forall|j: int| 0 <= j < i ==> (#[trigger] arr@[j]) < arr@[i as int]
        },
{
    if arr.len() == 0 {
        return None;
    }
    let mut best: usize = 0;
    let mut k: usize = 1;
    while k < arr.len()
        invariant
            1 <= k <= arr.len(),
            best == first_max_upto(arr@, k as int),
            best < k,
        decreases arr.len() - k,
    {
        if arr[k] > arr[best] {
            best = k;
        }
        k += 1;
    }
    proof {
        lemma_first_max_upto(arr@, arr@.len() as int);
    }
    Some(best)
}

/// Returns, for every row, the position of its greatest element.
pub fn arg_max_axis1(arr: &Vec<Vec<u32>>) -> (result: Vec<Option<usize>>)
    ensures
        result@.len() == arr@.len(),
        forall|r: int| 0 <= r < arr@.len() ==> (#[trigger] result@[r]) == (if arr@[r]@.len() == 0 {
            None
        } else {
            Some(first_max(arr@[r]@) as usize)
        }),
{
    let mut out: Vec<Option<usize>> = Vec::new();
    let mut r: usize = 0;
    while r < arr.len()
        invariant
            r <= arr.len(),
            out@.len() == r,
            forall|q: int| 0 <= q < r ==> (#[trigger] out@[q]) == (if arr@[q]@.len() == 0 {
                None
            } else {
                Some(first_max(arr@[q]@) as usize)
            }),
        decreases arr.len() - r,
    {
        let m: Option<usize> = arg_max(&arr[r]);
        out.push(m);
        r += 1;
    }
    out
}

/// The greatest element of `row`, and 0 for an empty row.
pub open spec fn row_max(row: Seq<u32>) -> u32 {
    if row.len() == 0 {
        0
    } else {
        row[first_max(row)]
    }
}

/// The greatest cell among the first `n` rows of `g`, and 0 where they hold
/// no cell.
pub open spec fn grid_max_upto(g: Seq<Seq<u32>>, n: int) -> u32
    decreases n,
{
    if n <= 0 {
        0
    } else {
        let before = grid_max_upto(g, n - 1);
        let here = row_max(g[n - 1]);
        if here > before {
            here
        } else {
            before
        }
    }
}

/// The greatest cell of `g`, and 0 for a matrix without cells.
pub open spec fn grid_max(g: Seq<Seq<u32>>) -> u32 {
    grid_max_upto(g, g.len() as int)
}

/// `grid_max_upto` bounds every cell of the first `n` rows, and is one of
/// them unless it is 0.
pub proof fn lemma_grid_max_upto(g: Seq<Seq<u32>>, n: int)
    requires
        0 <= n <= g.len(),
    ensures
        forall|r: int, c: int| 0 <= r < n && 0 <= c < g[r].len() ==> g[r][c] <= grid_max_upto(g, n),
        grid_max_upto(g, n) == 0 || exists|r: int, c: int|
            0 <= r < n && 0 <= c < g[r].len() && g[r][c] == grid_max_upto(g, n),
    decreases n,
{
    if n > 0 {
        lemma_grid_max_upto(g, n - 1);
        let row = g[n - 1];
        if row.len() > 0 {
            lemma_first_max_upto(row, row.len() as int);
            let c = first_max(row);
            assert(g[n - 1][c] == row_max(row));
        }
        if grid_max_upto(g, n) != 0 {
            if row_max(row) > grid_max_upto(g, n - 1) {
                assert(g[n - 1][first_max(row)] == grid_max_upto(g, n));
            } else {
                let (r, c) = choose|r: int, c: int|
                    0 <= r < n - 1 && 0 <= c < g[r].len() && g[r][c] == grid_max_upto(g, n - 1);
                assert(g[r][c] == grid_max_upto(g, n));
            }
        }
    }
}

/// The greatest cell of a matrix bounds every cell, and is one of them
/// unless it is 0.
pub proof fn lemma_grid_max(g: Seq<Seq<u32>>)
    ensures
        forall|r: int, c: int| 0 <= r < g.len() && 0 <= c < g[r].len() ==> g[r][c] <= grid_max(g),
        grid_max(g) == 0 || exists|r: int, c: int|
            0 <= r < g.len() && 0 <= c < g[r].len() && g[r][c] == grid_max(g),
{
    lemma_grid_max_upto(g, g.len() as int);
}

/// A matrix that is nowhere above another has no greater greatest cell.
pub proof fn lemma_grid_max_order(b: Seq<Seq<u32>>, a: Seq<Seq<u32>>)
    requires
        crate::matrix::nowhere_above(b, a),
    ensures
        grid_max(b) <= grid_max(a),
{
    lemma_grid_max(b);
    lemma_grid_max(a);
    if grid_max(b) != 0 {
        let (r, c) = choose|r: int, c: int| 0 <= r < b.len() && 0 <= c < b[r].len() && b[r][c] == grid_max(b);
        assert(a[r].len() == b[r].len());
        assert(b[r][c] <= a[r][c]);
    }
}

/// Returns the greatest cell of the matrix, and 0 for a matrix without cells.
pub fn global_max(array: &Vec<Vec<u32>>) -> (result: u32)
    ensures
        result == grid_max(grid(array@)),
        forall|r: int, c: int| 0 <= r < array@.len() && 0 <= c < array@[r]@.len() ==> array@[r]@[c] <= result,
        result == 0 || exists|r: int, c: int|
            0 <= r < array@.len() && 0 <= c < array@[r]@.len() && array@[r]@[c] == result,
{
    let mut best: u32 = 0;
    let mut r: usize = 0;
    while r < array.len()
        invariant
            r <= array.len(),
            best == grid_max_upto(grid(array@), r as int),
        decreases array.len() - r,
    {
        match arg_max(&array[r]) {
            Some(c) => {
                let v: u32 = array[r][c];
                if v > best {
                    best = v;
                }
            },
            None => {},
        }
        r += 1;
    }
    proof {
        let g = grid(array@);
        lemma_grid_max(g);
        if best != 0 {
            let (wr, wc) = choose|r: int, c: int|
                0 <= r < g.len() && 0 <= c < g[r].len() && g[r][c] == grid_max(g);
            assert(array@[wr]@[wc] == best);
        }
        assert forall|r: int, c: int| 0 <= r < array@.len() && 0 <= c < array@[r]@.len() implies array@[r]@[c] <= best by {
            assert(g[r][c] == array@[r]@[c]);
        }
    }
    best
}

/// The positions `(r, c)` with `c < n` at which `row` exceeds `threshold`,
/// in ascending order of `c`.
pub open spec fn row_above(row: Seq<u32>, threshold: u32, r: int, n: int) -> Seq<(int, int)>
    decreases n,
{
    if n <= 0 {
        Seq::empty()
    } else {
        let before = row_above(row, threshold, r, n - 1);
        if row[n - 1] > threshold {
            before.push((r, n - 1))
        } else {
            before
        }
    }
}

/// The positions in the first `n` rows at which `g` exceeds `threshold`, row
/// by row.
pub open spec fn cells_above_upto(g: Seq<Seq<u32>>, threshold: u32, n: int) -> Seq<(int, int)>
    decreases n,
{
    if n <= 0 {
        Seq::empty()
    } else {
        cells_above_upto(g, threshold, n - 1) + row_above(g[n - 1], threshold, n - 1, g[n - 1].len() as int)
    }
}

/// The positions at which `g` exceeds `threshold`, in row-major order.
pub open spec fn cells_above(g: Seq<Seq<u32>>, threshold: u32) -> Seq<(int, int)> {
    cells_above_upto(g, threshold, g.len() as int)
}

/// `a` comes before `b` when the cells are read row by row.
pub open spec fn row_major_before(a: (int, int), b: (int, int)) -> bool {
    a.0 < b.0 || (a.0 == b.0 && a.1 < b.1)
}

/// Two index vectors read as one sequence of positions.
pub open spec fn positions(rows: Seq<usize>, cols: Seq<usize>) -> Seq<(int, int)> {
    Seq::new(rows.len(), |k: int| (rows[k] as int, cols[k] as int))
}

/// Every position of `row_above` lies in the row, before column `n`, and
/// holds a value above the threshold.
pub proof fn lemma_row_above(row: Seq<u32>, threshold: u32, r: int, n: int)
    requires
        0 <= n <= row.len(),
    ensures
        forall|k: int| 0 <= k < row_above(row, threshold, r, n).len() ==> {
            let p = #[trigger] row_above(row, threshold, r, n)[k];
            p.0 == r && 0 <= p.1 < n && row[p.1] > threshold
        },
        forall|c: int| 0 <= c < n && row[c] > threshold ==> row_above(row, threshold, r, n).contains((r, c)),
    decreases n,
{
    if n > 0 {
        lemma_row_above(row, threshold, r, n - 1);
        let before = row_above(row, threshold, r, n - 1);
        let now = row_above(row, threshold, r, n);
        assert forall|c: int| 0 <= c < n && row[c] > threshold implies now.contains((r, c)) by {
            if c < n - 1 {
                assert(before.contains((r, c)));
                let k = choose|k: int| 0 <= k < before.len() && before[k] == (r, c);
                assert(now[k] == (r, c));
            } else {
                assert(now[now.len() - 1] == (r, c));
            }
        }
    }
}

/// Every position of `cells_above_upto` lies in the first `n` rows and holds
/// a value above the threshold, and every such position is listed.
pub proof fn lemma_cells_above_upto(g: Seq<Seq<u32>>, threshold: u32, n: int)
    requires
        0 <= n <= g.len(),
    ensures
        forall|k: int| 0 <= k < cells_above_upto(g, threshold, n).len() ==> {
            let p = #[trigger] cells_above_upto(g, threshold, n)[k];
            0 <= p.0 < n && 0 <= p.1 < g[p.0].len() && g[p.0][p.1] > threshold
        },
        forall|r: int, c: int| 0 <= r < n && 0 <= c < g[r].len() && g[r][c] > threshold
            ==> cells_above_upto(g, threshold, n).contains((r, c)),
    decreases n,
{
    if n > 0 {
        lemma_cells_above_upto(g, threshold, n - 1);
        lemma_row_above(g[n - 1], threshold, n - 1, g[n - 1].len() as int);
        let before = cells_above_upto(g, threshold, n - 1);
        let here = row_above(g[n - 1], threshold, n - 1, g[n - 1].len() as int);
        let now = cells_above_upto(g, threshold, n);
        assert forall|k: int| 0 <= k < now.len() implies {
            let p = #[trigger] now[k];
            0 <= p.0 < n && 0 <= p.1 < g[p.0].len() && g[p.0][p.1] > threshold
        } by {
            if k < before.len() {
                assert(now[k] == before[k]);
            } else {
                assert(now[k] == here[k - before.len()]);
            }
        }
        assert forall|r: int, c: int| 0 <= r < n && 0 <= c < g[r].len() && g[r][c] > threshold implies now.contains(
            (r, c),
        ) by {
            if r < n - 1 {
                assert(before.contains((r, c)));
                let k = choose|k: int| 0 <= k < before.len() && before[k] == (r, c);
                assert(now[k] == (r, c));
            } else {
                assert(here.contains((r, c)));
                let k = choose|k: int| 0 <= k < here.len() && here[k] == (r, c);
                assert(now[before.len() + k] == (r, c));
            }
        }
    }
}

/// The positions listed by `cells_above` are exactly the cells of the
/// matrix that exceed the threshold.
pub proof fn lemma_cells_above(g: Seq<Seq<u32>>, threshold: u32)
    ensures
        forall|k: int| 0 <= k < cells_above(g, threshold).len() ==> {
            let p = #[trigger] cells_above(g, threshold)[k];
            0 <= p.0 < g.len() && 0 <= p.1 < g[p.0].len() && g[p.0][p.1] > threshold
        },
        forall|r: int, c: int| 0 <= r < g.len() && 0 <= c < g[r].len() && g[r][c] > threshold
            ==> cells_above(g, threshold).contains((r, c)),
{
    lemma_cells_above_upto(g, threshold, g.len() as int);
}

/// The positions listed by `cells_above` stand in row-major order.
pub proof fn lemma_cells_above_ordered(g: Seq<Seq<u32>>, threshold: u32, n: int)
    requires
        0 <= n <= g.len(),
    ensures
        forall|i: int, j: int|
            0 <= i < j < cells_above_upto(g, threshold, n).len() ==> row_major_before(
                cells_above_upto(g, threshold, n)[i],
                cells_above_upto(g, threshold, n)[j],
            ),
    decreases n,
{
    if n > 0 {
        lemma_cells_above_ordered(g, threshold, n - 1);
        lemma_cells_above_upto(g, threshold, n - 1);
        lemma_row_above(g[n - 1], threshold, n - 1, g[n - 1].len() as int);
        lemma_row_above_ordered(g[n - 1], threshold, n - 1, g[n - 1].len() as int);
        let before = cells_above_upto(g, threshold, n - 1);
        let here = row_above(g[n - 1], threshold, n - 1, g[n - 1].len() as int);
        let now = cells_above_upto(g, threshold, n);
        assert forall|i: int, j: int| 0 <= i < j < now.len() implies row_major_before(now[i], now[j]) by {
            if j < before.len() {
                assert(now[i] == before[i] && now[j] == before[j]);
            } else if i < before.len() {
                assert(now[i] == before[i]);
                assert(now[j] == here[j - before.len()]);
            } else {
                assert(now[i] == here[i - before.len()]);
                assert(now[j] == here[j - before.len()]);
            }
        }
    }
}

/// The positions listed by `row_above` stand in the order of their columns.
pub proof fn lemma_row_above_ordered(row: Seq<u32>, threshold: u32, r: int, n: int)
    requires
        0 <= n <= row.len(),
    ensures
        forall|i: int, j: int|
            0 <= i < j < row_above(row, threshold, r, n).len() ==> row_major_before(
                row_above(row, threshold, r, n)[i],
                row_above(row, threshold, r, n)[j],
            ),
    decreases n,
{
    if n > 0 {
        lemma_row_above_ordered(row, threshold, r, n - 1);
        lemma_row_above(row, threshold, r, n - 1);
        let before = row_above(row, threshold, r, n - 1);
        let now = row_above(row, threshold, r, n);
        assert forall|i: int, j: int| 0 <= i < j < now.len() implies row_major_before(now[i], now[j]) by {
            if j < before.len() {
                assert(now[i] == before[i] && now[j] == before[j]);
            } else {
                assert(now[i] == before[i]);
                assert(now[j] == (r, n - 1));
            }
        }
    }
}

/// Returns the positions of the cells that exceed `threshold`, in row-major
/// order: the row indices in the first vector, the column indices in the
/// second.
pub fn where_greater_than_axis1(arr2d: &Vec<Vec<u32>>, threshold: u32) -> (result: (Vec<usize>, Vec<usize>))
    ensures
        result.0@.len() == result.1@.len(),
        positions(result.0@, result.1@) == cells_above(grid(arr2d@), threshold),
        forall|k: int| 0 <= k < result.0@.len() ==> {
            &&& (#[trigger] result.0@[k]) < arr2d@.len()
            &&& result.1@[k] < arr2d@[result.0@[k] as int]@.len()
            &&& arr2d@[result.0@[k] as int]@[result.1@[k] as int] > threshold
        },
{
    let ghost g = grid(arr2d@);
    let mut output_x: Vec<usize> = Vec::new();
    let mut output_y: Vec<usize> = Vec::new();
    let mut i: usize = 0;
    while i < arr2d.len()
        invariant
            i <= arr2d.len(),
            g == grid(arr2d@),
            output_x@.len() == output_y@.len(),
            positions(output_x@, output_y@) == cells_above_upto(g, threshold, i as int),
        decreases arr2d.len() - i,
    {
        let row: &Vec<u32> = &arr2d[i];
        let mut j: usize = 0;
        while j < row.len()
            invariant
                i < arr2d.len(),
                j <= row.len(),
                row@ == g[i as int],
                output_x@.len() == output_y@.len(),
                positions(output_x@, output_y@) == cells_above_upto(g, threshold, i as int) + row_above(
                    g[i as int],
                    threshold,
                    i as int,
                    j as int,
                ),
            decreases row.len() - j,
        {
            if row[j] > threshold {
                let ghost before = positions(output_x@, output_y@);
                output_x.push(i);
                output_y.push(j);
                assert(positions(output_x@, output_y@) =~= before.push((i as int, j as int)));
            }
            j += 1;
        }
        i += 1;
    }
    proof {
        lemma_cells_above(g, threshold);
                assert forall|k: int| 0 <= k < output_x@.len() implies {
            &&& (#[trigger] output_x@[k]) < arr2d@.len()
            &&& output_y@[k] < arr2d@[output_x@[k] as int]@.len()
            &&& arr2d@[output_x@[k] as int]@[output_y@[k] as int] > threshold
        } by {
            let p = cells_above(g, threshold)[k];
            assert(p == positions(output_x@, output_y@)[k]);
        }
    }
    (output_x, output_y)
}

/// `g[r][c]` is strictly greater than every other cell of column `c` that
/// lies within `order` rows of `r`.
pub open spec fn is_rel_max(g: Seq<Seq<u32>>, r: int, c: int, order: int) -> bool {
    forall|q: int| 0 <= q < g.len() && r - order <= q <= r + order && q != r ==> (#[trigger] g[q])[c] < g[r][c]
}

/// `a` comes before `b` when the cells are read column by column.
pub open spec fn column_major_before(a: (usize, usize), b: (usize, usize)) -> bool {
    a.1 < b.1 || (a.1 == b.1 && a.0 < b.0)
}

/// Returns the cells that are strictly greater than all cells of the same
/// column within `order` rows above and below them. At the edges the
/// window is cut, not wrapped. The cells come column by column.
pub fn arg_rel_max(array: &Vec<Vec<u32>>, order: usize) -> (result: Vec<(usize, usize)>)
    requires
        rectangular(grid(array@)),
    ensures
        forall|k: int| 0 <= k < result@.len() ==> {
            let p = #[trigger] result@[k];
            p.0 < array@.len() && p.1 < width(grid(array@)) && is_rel_max(grid(array@), p.0 as int, p.1 as int, order as int)
        },
        forall|r: int, c: int| 0 <= r < array@.len() && 0 <= c < width(grid(array@)) && is_rel_max(grid(array@), r, c, order as int)
            ==> result@.contains((r as usize, c as usize)),
        forall|i: int, j: int| 0 <= i < j < result@.len() ==> column_major_before(result@[i], result@[j]),
{
    let mut result: Vec<(usize, usize)> = Vec::new();
    let rows: usize = array.len();
    if rows == 0 {
        return result;
    }
    let ghost g = grid(array@);
    let cols: usize = array[0].len();
    let mut col: usize = 0;
    while col < cols
        invariant
            col <= cols,
            rows == array@.len(),
            rows > 0,
            cols == width(g),
            g == grid(array@),
            rectangular(g),
            forall|k: int| 0 <= k < result@.len() ==> {
                let p = #[trigger] result@[k];
                p.0 < rows && p.1 < col && is_rel_max(g, p.0 as int, p.1 as int, order as int)
            },
            forall|r: int, c: int| 0 <= r < rows && 0 <= c < col && is_rel_max(g, r, c, order as int)
                ==> result@.contains((r as usize, c as usize)),
            forall|i: int, j: int| 0 <= i < j < result@.len() ==> column_major_before(result@[i], result@[j]),
        decreases cols - col,
    {
        let mut row: usize = 0;
        while row < rows
            invariant
                col < cols,
                row <= rows,
                rows == array@.len(),
                cols == width(g),
                g == grid(array@),
                rectangular(g),
                forall|k: int| 0 <= k < result@.len() ==> {
                    let p = #[trigger] result@[k];
                    p.0 < rows && (p.1 < col || (p.1 == col && p.0 < row)) && is_rel_max(
                        g,
                        p.0 as int,
                        p.1 as int,
                        order as int,
                    )
                },
                forall|r: int, c: int| 0 <= r < rows && (0 <= c < col || (c == col && r < row)) && is_rel_max(g, r, c, order as int)
                    ==> result@.contains((r as usize, c as usize)),
                forall|i: int, j: int| 0 <= i < j < result@.len() ==> column_major_before(result@[i], result@[j]),
            decreases rows - row,
        {
            let low: usize = if order > row { 0 } else { row - order };
            let high: usize = if order >= rows - 1 - row { rows - 1 } else { row + order };
            let mut is_peak: bool = true;
            let mut q: usize = low;
            while q <= high
                invariant
                    row < rows,
                    col < cols,
                    rows == array@.len(),
                    cols == width(g),
                    g == grid(array@),
                    rectangular(g),
                    low <= q <= high + 1,
                    high < rows,
                    low == (if order > row { 0 } else { row - order }),
                    high == (if row + order >= rows { rows - 1 } else { row + order }),
                    is_peak ==> forall|p: int| low <= p < q && p != row ==> (#[trigger] g[p])[col as int] < g[row as int][col as int],
                    !is_peak ==> !is_rel_max(g, row as int, col as int, order as int),
                decreases high + 1 - q,
            {
                assert(g[q as int] == array@[q as int]@);
                assert(g[row as int] == array@[row as int]@);
                assert(g[q as int].len() == cols);
                assert(g[row as int].len() == cols);
                if q != row && array[row][col] <= array[q][col] {
                    is_peak = false;
                    q = high + 1;
                } else {
                    q += 1;
                }
            }
            if is_peak {
                let ghost before = result@;
                result.push((row, col));
                assert forall|r: int, c: int| 0 <= r < rows && (0 <= c < col || (c == col && r < row + 1)) && is_rel_max(
                    g,
                    r,
                    c,
                    order as int,
                ) implies result@.contains((r as usize, c as usize)) by {
                    if c == col && r == row {
                        assert(result@[before.len() as int] == (r as usize, c as usize));
                    } else {
                        assert(before.contains((r as usize, c as usize)));
                        let k = choose|k: int| 0 <= k < before.len() && before[k] == (r as usize, c as usize);
                        assert(result@[k] == (r as usize, c as usize));
                    }
                }
            }
            row += 1;
        }
        col += 1;
    }
    result
}

/// The layers of a stack of matrices.
pub open spec fn stack_of(a: Seq<Vec<Vec<u32>>>) -> Seq<Seq<Seq<u32>>> {
    Seq::new(a.len(), |x: int| grid(a[x]@))
}

/// The smaller of two values where `least` is set, the greater where it is
/// not.
pub open spec fn pick(a: u32, b: u32, least: bool) -> u32 {
    if least {
        if b < a {
            b
        } else {
            a
        }
    } else {
        if b > a {
            b
        } else {
            a
        }
    }
}

/// The matrix of the shape of `a` that holds, cell by cell, the smaller
/// (or the greater) of the cells of `a` and `b`.
pub open spec fn merged(a: Seq<Seq<u32>>, b: Seq<Seq<u32>>, least: bool) -> Seq<Seq<u32>> {
    Seq::new(a.len(), |y: int| Seq::new(a[y].len(), |z: int| pick(a[y][z], b[y][z], least)))
}

/// The cell-wise least (or greatest) of the first `n` layers of a stack.
pub open spec fn across_upto(stack: Seq<Seq<Seq<u32>>>, n: int, least: bool) -> Seq<Seq<u32>>
    decreases n,
{
    if n <= 1 {
        stack[0]
    } else {
        merged(across_upto(stack, n - 1, least), stack[n - 1], least)
    }
}

/// The cell-wise least of the layers of a stack.
pub open spec fn min_across(stack: Seq<Seq<Seq<u32>>>) -> Seq<Seq<u32>> {
    across_upto(stack, stack.len() as int, true)
}

/// The cell-wise greatest of the layers of a stack.
pub open spec fn max_across(stack: Seq<Seq<Seq<u32>>>) -> Seq<Seq<u32>> {
    across_upto(stack, stack.len() as int, false)
}

/// All layers of a stack have the shape of the first.
pub open spec fn equal_shaped(stack: Seq<Seq<Seq<u32>>>) -> bool {
    forall|x: int| 0 <= x < stack.len() ==> same_shape(stack[0], #[trigger] stack[x])
}

/// The cell-wise least (or greatest) of some layers has the shape of the
/// first layer, and each of its cells is the least (or greatest) of the
/// cells at its place.
pub proof fn lemma_across_upto(stack: Seq<Seq<Seq<u32>>>, n: int, least: bool)
    requires
        1 <= n <= stack.len(),
        equal_shaped(stack),
    ensures
        same_shape(stack[0], across_upto(stack, n, least)),
        forall|x: int, y: int, z: int|
            0 <= x < n && 0 <= y < stack[0].len() && 0 <= z < stack[0][y].len() ==> (if least {
                across_upto(stack, n, least)[y][z] <= (#[trigger] stack[x][y][z])
            } else {
                across_upto(stack, n, least)[y][z] >= stack[x][y][z]
            }),
        forall|y: int, z: int|
            0 <= y < stack[0].len() && 0 <= z < stack[0][y].len() ==> exists|x: int|
                0 <= x < n && (#[trigger] across_upto(stack, n, least)[y][z]) == stack[x][y][z],
    decreases n,
{
    if n > 1 {
        lemma_across_upto(stack, n - 1, least);
        let before = across_upto(stack, n - 1, least);
        let now = across_upto(stack, n, least);
        assert(same_shape(stack[0], stack[n - 1]));
        assert forall|y: int| 0 <= y < stack[0].len() implies (#[trigger] stack[0][y]).len() == now[y].len() by {
            assert(stack[0][y].len() == before[y].len());
        }
        assert forall|y: int, z: int| 0 <= y < stack[0].len() && 0 <= z < stack[0][y].len() implies exists|x: int|
            0 <= x < n && (#[trigger] now[y][z]) == stack[x][y][z] by {
            assert(stack[0][y].len() == before[y].len());
            if now[y][z] == stack[n - 1][y][z] {
            } else {
                let x = choose|x: int| 0 <= x < n - 1 && before[y][z] == stack[x][y][z];
                assert(now[y][z] == stack[x][y][z]);
            }
        }
        assert forall|x: int, y: int, z: int|
            0 <= x < n && 0 <= y < stack[0].len() && 0 <= z < stack[0][y].len() implies (if least {
            now[y][z] <= (#[trigger] stack[x][y][z])
        } else {
            now[y][z] >= stack[x][y][z]
        }) by {
            assert(stack[0][y].len() == before[y].len());
            if x < n - 1 {
                assert(if least {
                    before[y][z] <= stack[x][y][z]
                } else {
                    before[y][z] >= stack[x][y][z]
                });
            }
        }
    } else {
        assert forall|y: int, z: int| 0 <= y < stack[0].len() && 0 <= z < stack[0][y].len() implies exists|x: int|
            0 <= x < n && (#[trigger] across_upto(stack, n, least)[y][z]) == stack[x][y][z] by {
            assert(across_upto(stack, n, least)[y][z] == stack[0][y][z]);
        }
    }
}

fn merge_layer(acc: &mut Vec<Vec<u32>>, layer: &Vec<Vec<u32>>, least: bool)
    requires
        same_shape(grid(old(acc)@), grid(layer@)),
    ensures
        grid(final(acc)@) == merged(grid(old(acc)@), grid(layer@), least),
{
    let ghost a0 = grid(acc@);
    let ghost b = grid(layer@);
    let mut y: usize = 0;
    while y < acc.len()
        invariant
            y <= acc@.len(),
            acc@.len() == a0.len(),
            b == grid(layer@),
            same_shape(a0, b),
            forall|i: int| 0 <= i < a0.len() ==> (#[trigger] grid(acc@)[i]).len() == a0[i].len(),
            forall|i: int, j: int|
                0 <= i < a0.len() && 0 <= j < a0[i].len() ==> (#[trigger] grid(acc@)[i][j]) == (if i < y {
                    pick(a0[i][j], b[i][j], least)
                } else {
                    a0[i][j]
                }),
        decreases acc.len() - y,
    {
        let len: usize = acc[y].len();
        assert(grid(acc@)[y as int] == acc@[y as int]@);
        assert(b[y as int] == layer@[y as int]@);
        assert(a0[y as int].len() == b[y as int].len());
        let mut z: usize = 0;
        while z < len
            invariant
                y < acc@.len(),
                z <= len,
                len == a0[y as int].len(),
                acc@.len() == a0.len(),
                b == grid(layer@),
                same_shape(a0, b),
                forall|i: int| 0 <= i < a0.len() ==> (#[trigger] grid(acc@)[i]).len() == a0[i].len(),
                forall|i: int, j: int|
                    0 <= i < a0.len() && 0 <= j < a0[i].len() ==> (#[trigger] grid(acc@)[i][j]) == (if i < y || (i == y && j
                        < z) {
                        pick(a0[i][j], b[i][j], least)
                    } else {
                        a0[i][j]
                    }),
            decreases len - z,
        {
            assert(grid(acc@)[y as int] == acc@[y as int]@);
            assert(b[y as int] == layer@[y as int]@);
            assert(a0[y as int].len() == b[y as int].len());
            assert(grid(acc@)[y as int][z as int] == a0[y as int][z as int]);
            let mine: u32 = acc[y][z];
            let other: u32 = layer[y][z];
            if (least && other < mine) || (!least && other > mine) {
                set_cell(acc, y, z, other);
            }
            z += 1;
        }
        y += 1;
    }
    assert(grid(acc@) =~~= merged(a0, b, least));
}

fn across(array: &Vec<Vec<Vec<u32>>>, least: bool) -> (result: Vec<Vec<u32>>)
    requires
        array@.len() > 0,
        equal_shaped(stack_of(array@)),
    ensures
        grid(result@) == across_upto(stack_of(array@), array@.len() as int, least),
{
    let ghost stack = stack_of(array@);
    let mut result: Vec<Vec<u32>> = copy_matrix(&array[0]);
    let mut x: usize = 1;
    while x < array.len()
        invariant
            1 <= x <= array@.len(),
            stack == stack_of(array@),
            equal_shaped(stack),
            grid(result@) == across_upto(stack, x as int, least),
        decreases array.len() - x,
    {
        proof {
            lemma_across_upto(stack, x as int, least);
            assert(same_shape(stack[0], stack[x as int]));
            assert(stack[x as int] == grid(array@[x as int]@));
            let acc = grid(result@);
            assert forall|i: int| 0 <= i < acc.len() implies (#[trigger] acc[i]).len() == stack[x as int][i].len() by {
                assert(stack[0][i].len() == acc[i].len());
                assert(stack[0][i].len() == stack[x as int][i].len());
            }
        }
        merge_layer(&mut result, &array[x], least);
        x += 1;
    }
    result
}

/// Returns the cell-wise least of a stack of equal-shaped matrices.
pub fn min_3d_for_axis0(array: &Vec<Vec<Vec<u32>>>) -> (result: Vec<Vec<u32>>)
    requires
        array@.len() > 0,
        equal_shaped(stack_of(array@)),
    ensures
        grid(result@) == min_across(stack_of(array@)),
{
    across(array, true)
}

/// Returns the cell-wise greatest of a stack of equal-shaped matrices.
pub fn max_3d_for_axis0(array: &Vec<Vec<Vec<u32>>>) -> (result: Vec<Vec<u32>>)
    requires
        array@.len() > 0,
        equal_shaped(stack_of(array@)),
    ensures
        grid(result@) == max_across(stack_of(array@)),
{
    across(array, false)
}

/// The greatest number whose square does not exceed `v`.
pub open spec fn floor_sqrt(v: nat) -> nat
    decreases v,
{
    if v == 0 {
        0
    } else {
        let r = floor_sqrt((v - 1) as nat);
        if (r + 1) * (r + 1) <= v {
            r + 1
        } else {
            r
        }
    }
}

/// The square of `floor_sqrt(v)` does not exceed `v`, and the next square does.
pub proof fn lemma_floor_sqrt_bounds(v: nat)
    ensures
        floor_sqrt(v) * floor_sqrt(v) <= v,
        v < (floor_sqrt(v) + 1) * (floor_sqrt(v) + 1),
    decreases v,
{
    if v > 0 {
        lemma_floor_sqrt_bounds((v - 1) as nat);
        let p = floor_sqrt((v - 1) as nat);
        let w = floor_sqrt(v);
        assert(p * p <= v - 1);
        assert(v - 1 < (p + 1) * (p + 1));
        if (p + 1) * (p + 1) <= v {
            assert(w == p + 1);
            assert(w * w == (p + 1) * (p + 1));
            assert((p + 1) * (p + 1) < (p + 2) * (p + 2)) by (nonlinear_arith);
            assert((w + 1) * (w + 1) == (p + 2) * (p + 2));
        } else {
            assert(w == p);
            assert((w + 1) * (w + 1) == (p + 1) * (p + 1));
        }
    } else {
        assert(floor_sqrt(0) == 0);
        assert((0 + 1) * (0 + 1) == 1) by (nonlinear_arith);
    }
}

/// `floor_sqrt(v)` is the only number `r` with `r * r <= v < (r + 1) * (r + 1)`.
pub proof fn lemma_floor_sqrt(v: nat, r: nat)
    requires
        r * r <= v < (r + 1) * (r + 1),
    ensures
        r == floor_sqrt(v),
{
    lemma_floor_sqrt_bounds(v);
    let w = floor_sqrt(v);
    if r < w {
        assert((r + 1) * (r + 1) <= w * w) by (nonlinear_arith)
            requires
                r + 1 <= w,
        ;
    }
    if r > w {
        assert((w + 1) * (w + 1) <= r * r) by (nonlinear_arith)
            requires
                w + 1 <= r,
        ;
    }
}

/// Returns the greatest number whose square does not exceed `v`.
pub fn integer_sqrt(v: u128) -> (root: u64)
    ensures
        root == floor_sqrt(v as nat),
{
    let mut low: u128 = 0;
    let mut high: u128 = 0x1_0000_0000_0000_0000;
    assert(0x1_0000_0000_0000_0000int * 0x1_0000_0000_0000_0000int > v) by (nonlinear_arith)
        requires
            v <= 0xFFFF_FFFF_FFFF_FFFF_FFFF_FFFF_FFFF_FFFF,
    ;
    while high - low > 1
        invariant
            low < high <= 0x1_0000_0000_0000_0000,
            low * low <= v,
            v < high * high,
        decreases high - low,
    {
        let mid: u128 = low + (high - low) / 2;
        assert(mid * mid <= 0xFFFF_FFFF_FFFF_FFFF * 0xFFFF_FFFF_FFFF_FFFF) by (nonlinear_arith)
            requires
                mid <= 0xFFFF_FFFF_FFFF_FFFF,
        ;
        if mid * mid <= v {
            low = mid;
        } else {
            high = mid;
        }
    }
    proof {
        lemma_floor_sqrt(v as nat, low as nat);
    }
    low as u64
}

/// The sum of the squares of the elements of `row`.
pub open spec fn row_total_sq(row: Seq<u32>) -> nat
    decreases row.len(),
{
    if row.len() == 0 {
        0
    } else {
        row_total_sq(row.drop_last()) + (row.last() as nat) * (row.last() as nat)
    }
}

/// The sum of the squares of the cells of `g`.
pub open spec fn total_sq(g: Seq<Seq<u32>>) -> nat
    decreases g.len(),
{
    if g.len() == 0 {
        0
    } else {
        total_sq(g.drop_last()) + row_total_sq(g.last())
    }
}

/// The number of cells of `g`.
pub open spec fn cell_count(g: Seq<Seq<u32>>) -> nat
    decreases g.len(),
{
    if g.len() == 0 {
        0
    } else {
        cell_count(g.drop_last()) + g.last().len()
    }
}

/// The number of cells of the first rows of a matrix does not exceed that
/// of the whole.
pub proof fn lemma_cell_count_prefix(g: Seq<Seq<u32>>, n: int)
    requires
        0 <= n <= g.len(),
    ensures
        cell_count(g.take(n)) <= cell_count(g),
    decreases g.len(),
{
    if n < g.len() {
        assert(g.drop_last().take(n) =~= g.take(n));
        lemma_cell_count_prefix(g.drop_last(), n);
    } else {
        assert(g.take(n) =~= g);
    }
}

/// The mean of the cells of `g`, rounded down.
pub open spec fn mean_of(g: Seq<Seq<u32>>) -> nat {
    total(g) / cell_count(g)
}

/// The sample variance of the cells of `g` (divisor `n - 1`), rounded down.
pub open spec fn variance_of(g: Seq<Seq<u32>>) -> nat {
    let n = cell_count(g);
    ((n * total_sq(g) - total(g) * total(g)) / (n * (n - 1))) as nat
}

/// What `mean_std_dev` returns: an error for a matrix of more than
/// `u32::MAX` cells or of fewer than two; otherwise the mean and the sample
/// standard deviation, both rounded down.
pub open spec fn mean_std_result(g: Seq<Seq<u32>>) -> Result<(nat, nat), PipelineError> {
    if cell_count(g) > u32::MAX {
        Err(PipelineError::Shape)
    } else if cell_count(g) < 2 {
        Err(PipelineError::ArithmeticDegeneracy)
    } else {
        Ok((mean_of(g), floor_sqrt(variance_of(g))))
    }
}

/// Returns the mean of the cells of a matrix and their sample standard
/// deviation (divisor `n - 1`).
pub fn mean_std_dev(array: &Vec<Vec<u32>>) -> (result: Result<(u64, u64), PipelineError>)
    ensures
        match result {
            Ok((mean, std_dev)) => mean_std_result(grid(array@)) == Ok::<(nat, nat), PipelineError>(
                (mean as nat, std_dev as nat),
            ),
            Err(e) => mean_std_result(grid(array@)) == Err::<(nat, nat), PipelineError>(e),
        },
{
    let ghost g = grid(array@);
    let mut count: u128 = 0;
    let mut sum: u128 = 0;
    let mut sum_squared: u128 = 0;
    let mut r: usize = 0;
    assert(g.take(0) =~= Seq::<Seq<u32>>::empty());
    while r < array.len()
        invariant
            r <= array@.len(),
            g == grid(array@),
            count == cell_count(g.take(r as int)),
            sum == total(g.take(r as int)),
            sum_squared == total_sq(g.take(r as int)),
            count <= u32::MAX,
            sum <= count * 0xFFFF_FFFF,
            sum_squared <= count * (0xFFFF_FFFF * 0xFFFF_FFFF),
            count * sum_squared >= sum * sum,
            count == 0 ==> sum == 0 && sum_squared == 0,
        decreases array.len() - r,
    {
        let row: &Vec<u32> = &array[r];
        assert(g[r as int] == row@);
        assert(g.take(r + 1).drop_last() =~= g.take(r as int));
        assert(g.take(r + 1).last() == row@);
        if row.len() as u128 > (u32::MAX as u128) - count {
            proof {
                lemma_cell_count_prefix(g, r + 1);
            }
            return Err(PipelineError::Shape);
        }
        let ghost count0 = count;
        let ghost sum0 = sum;
        let ghost sq0 = sum_squared;
        let mut c: usize = 0;
        assert(row@.take(0) =~= Seq::<u32>::empty());
        while c < row.len()
            invariant
                c <= row@.len(),
                count0 + row@.len() <= u32::MAX,
                count == count0 + c,
                sum == sum0 + row_total(row@.take(c as int)),
                sum_squared == sq0 + row_total_sq(row@.take(c as int)),
                sum <= count * 0xFFFF_FFFF,
                sum_squared <= count * (0xFFFF_FFFF * 0xFFFF_FFFF),
                count * sum_squared >= sum * sum,
                count == 0 ==> sum == 0 && sum_squared == 0,
            decreases row.len() - c,
        {
            let x: u128 = row[c] as u128;
            assert(row@.take(c + 1).drop_last() =~= row@.take(c as int));
            assert(row@.take(c + 1).last() == row@[c as int]);
            assert(x * x <= 0xFFFF_FFFF * 0xFFFF_FFFF) by (nonlinear_arith)
                requires
                    x <= 0xFFFF_FFFF,
            ;
            assert(count * 0xFFFF_FFFF <= 0xFFFF_FFFF * 0xFFFF_FFFF && count * (0xFFFF_FFFF * 0xFFFF_FFFF) <= 0xFFFF_FFFF
                * (0xFFFF_FFFF * 0xFFFF_FFFF)) by (nonlinear_arith)
                requires
                    count <= 0xFFFF_FFFF,
            ;
            proof {
                lemma_spread_step(count as int, sum as int, sum_squared as int, x as int);
                assert((count + 1) * (0xFFFF_FFFF * 0xFFFF_FFFF) == count * (0xFFFF_FFFF * 0xFFFF_FFFF) + 0xFFFF_FFFF
                    * 0xFFFF_FFFF) by (nonlinear_arith);
            }
            count = count + 1;
            sum = sum + x;
            sum_squared = sum_squared + x * x;
            c += 1;
        }
        assert(row@.take(row@.len() as int) =~= row@);
        r += 1;
    }
    assert(g.take(g.len() as int) =~= g);
    if count < 2 {
        return Err(PipelineError::ArithmeticDegeneracy);
    }
    assert(count * sum_squared <= 0xFFFF_FFFF * (0xFFFF_FFFF * (0xFFFF_FFFF * 0xFFFF_FFFF))) by (nonlinear_arith)
        requires
            count <= 0xFFFF_FFFF,
            sum_squared <= count * (0xFFFF_FFFF * 0xFFFF_FFFF),
    ;
    assert(sum * sum <= count * sum_squared);
    assert(count * (count - 1) > 0) by (nonlinear_arith)
        requires
            count >= 2,
    ;
    assert(count * (count - 1) <= 0xFFFF_FFFF * 0xFFFF_FFFF) by (nonlinear_arith)
        requires
            2 <= count <= 0xFFFF_FFFF,
    ;
    let mean: u128 = sum / count;
    let spread: u128 = count * sum_squared - sum * sum;
    let variance: u128 = spread / (count * (count - 1));
    let std_dev: u64 = integer_sqrt(variance);
    assert(mean <= sum);
    assert(sum <= 0xFFFF_FFFF * 0xFFFF_FFFF) by (nonlinear_arith)
        requires
            sum <= count * 0xFFFF_FFFF,
            count <= 0xFFFF_FFFF,
    ;
    Ok((mean as u64, std_dev))
}

/// Taking one more value into a count, a sum and a sum of squares keeps the
/// count times the sum of squares from falling below the square of the
/// sum.
proof fn lemma_spread_step(n: int, s: int, q: int, x: int)
    requires
        n >= 0,
        s >= 0,
        q >= 0,
        x >= 0,
        n * q >= s * s,
        n == 0 ==> s == 0 && q == 0,
    ensures
        (n + 1) * (q + x * x) >= (s + x) * (s + x),
{
    if n == 0 {
        assert((n + 1) * (q + x * x) == x * x) by (nonlinear_arith)
            requires
                n == 0,
                q == 0,
        ;
        assert((s + x) * (s + x) == x * x) by (nonlinear_arith)
            requires
                s == 0,
        ;
    } else {
        let d = q + n * x * x - 2 * s * x;
        assert(n * d == n * q - s * s + (s - n * x) * (s - n * x)) by (nonlinear_arith)
            requires
                d == q + n * x * x - 2 * s * x,
        ;
        assert((s - n * x) * (s - n * x) >= 0) by (nonlinear_arith);
        assert(d >= 0) by (nonlinear_arith)
            requires
                n * d >= 0,
                n > 0,
        ;
        assert((n + 1) * (q + x * x) - (s + x) * (s + x) == n * q - s * s + d) by (nonlinear_arith)
            requires
                d == q + n * x * x - 2 * s * x,
        ;
    }
}

} // verus!

//! Activation matrices: rows are time frames, columns are frequency bins.

use vstd::prelude::*;

verus! {

/// The cells of a matrix as a sequence of rows.
pub open spec fn grid(m: Seq<Vec<u32>>) -> Seq<Seq<u32>> {
    Seq::new(m.len(), |i: int| m[i]@)
}

/// Every row of `g` has `cols` cells.
pub open spec fn has_cols(g: Seq<Seq<u32>>, cols: nat) -> bool {
    forall|i: int| 0 <= i < g.len() ==> (#[trigger] g[i]).len() == cols
}

/// The number of columns of a matrix: the length of its first row, and 0
/// for a matrix without rows.
pub open spec fn width(g: Seq<Seq<u32>>) -> nat {
    if g.len() == 0 { 0 } else { g[0].len() }
}

/// All rows of `g` have the same length.
pub open spec fn rectangular(g: Seq<Seq<u32>>) -> bool {
    has_cols(g, width(g))
}

/// Sets one cell of a matrix.
pub fn set_cell(m: &mut Vec<Vec<u32>>, row: usize, col: usize, value: u32)
    requires
        row < old(m).len(),
        col < old(m)[row as int].len(),
    ensures
        final(m)@.len() == old(m)@.len(),
        forall|i: int| 0 <= i < old(m)@.len() ==> (#[trigger] final(m)@[i])@.len() == old(m)@[i]@.len(),
        grid(final(m)@) == grid(old(m)@).update(row as int, grid(old(m)@)[row as int].update(col as int, value)),
{
    let r: &mut Vec<u32> = &mut m[row];
    r[col] = value;
    assert(grid(m@) =~= grid(old(m)@).update(row as int, grid(old(m)@)[row as int].update(col as int, value)));
    assert forall|i: int| 0 <= i < old(m)@.len() implies (#[trigger] m@[i])@.len() == old(m)@[i]@.len() by {
        assert(grid(m@)[i].len() == grid(old(m)@)[i].len());
    }
}

/// A matrix of `rows` rows and `cols` columns that holds 0 everywhere.
pub open spec fn zero_grid(rows: nat, cols: nat) -> Seq<Seq<u32>> {
    Seq::new(rows, |r: int| Seq::new(cols, |c: int| 0u32))
}

/// Two matrices have the same number of rows, and rows of the same length.
pub open spec fn same_shape(a: Seq<Seq<u32>>, b: Seq<Seq<u32>>) -> bool {
    &&& a.len() == b.len()
    &&& forall|i: int| 0 <= i < a.len() ==> (#[trigger] a[i]).len() == b[i].len()
}

/// Returns the numbers of rows and columns of a matrix, or `None` where its
/// rows differ in length. A matrix without rows has no columns.
pub fn shape(m: &Vec<Vec<u32>>) -> (result: Option<(usize, usize)>)
    ensures
        result is Some <==> rectangular(grid(m@)),
        result matches Some((rows, cols)) ==> rows == m@.len() && cols == width(grid(m@)),
{
    let rows: usize = m.len();
    if rows == 0 {
        return Some((0, 0));
    }
    let cols: usize = m[0].len();
    let ghost g = grid(m@);
    let mut i: usize = 1;
    while i < rows
        invariant
            1 <= i <= rows,
            rows == m@.len(),
            g == grid(m@),
            cols == width(g),
            forall|k: int| 0 <= k < i ==> (#[trigger] g[k]).len() == cols,
        decreases rows - i,
    {
        if m[i].len() != cols {
            assert(g[i as int].len() != cols);
            return None;
        }
        i += 1;
    }
    Some((rows, cols))
}

/// Returns a matrix of the given shape that holds 0 everywhere.
pub fn zeros(rows: usize, cols: usize) -> (result: Vec<Vec<u32>>)
    ensures
        result@.len() == rows,
        grid(result@) == zero_grid(rows as nat, cols as nat),
{
    let mut row: Vec<u32> = Vec::new();
    let mut c: usize = 0;
    while c < cols
        invariant
            c <= cols,
            row@ == Seq::new(c as nat, |j: int| 0u32),
        decreases cols - c,
    {
        row.push(0);
        assert(row@ =~= Seq::new((c + 1) as nat, |j: int| 0u32));
        c += 1;
    }
    let mut out: Vec<Vec<u32>> = Vec::new();
    let mut r: usize = 0;
    while r < rows
        invariant
            r <= rows,
            row@ == Seq::new(cols as nat, |j: int| 0u32),
            out@.len() == r,
            grid(out@) == zero_grid(r as nat, cols as nat),
        decreases rows - r,
    {
        let copy: Vec<u32> = row.clone();
        assert(copy@ == row@);
        let ghost before = grid(out@);
        out.push(copy);
        assert(grid(out@) =~= before.push(row@));
        assert(grid(out@) =~= zero_grid((r + 1) as nat, cols as nat));
        r += 1;
    }
    out
}

/// Returns a copy of a matrix.
pub fn copy_matrix(m: &Vec<Vec<u32>>) -> (result: Vec<Vec<u32>>)
    ensures
        grid(result@) == grid(m@),
{
    let mut out: Vec<Vec<u32>> = Vec::new();
    let mut r: usize = 0;
    while r < m.len()
        invariant
            r <= m.len(),
            grid(out@) == grid(m@).take(r as int),
        decreases m.len() - r,
    {
        let copy: Vec<u32> = m[r].clone();
        assert(copy@ == m@[r as int]@);
        let ghost before = grid(out@);
        out.push(copy);
        assert(grid(out@) =~= before.push(m@[r as int]@));
        assert(grid(out@) =~= grid(m@).take(r + 1));
        r += 1;
    }
    assert(grid(m@).take(m@.len() as int) =~= grid(m@));
    out
}

/// The sum of the elements of `row`.
pub open spec fn row_total(row: Seq<u32>) -> nat
    decreases row.len(),
{
    if row.len() == 0 {
        0
    } else {
        row_total(row.drop_last()) + row.last() as nat
    }
}

/// The sum of the cells of `g`.
pub open spec fn total(g: Seq<Seq<u32>>) -> nat
    decreases g.len(),
{
    if g.len() == 0 {
        0
    } else {
        total(g.drop_last()) + row_total(g.last())
    }
}

/// No cell of `b` exceeds the cell of `a` at the same place.
pub open spec fn nowhere_above(b: Seq<Seq<u32>>, a: Seq<Seq<u32>>) -> bool {
    &&& same_shape(a, b)
    &&& forall|r: int, c: int| 0 <= r < a.len() && 0 <= c < a[r].len() ==> (#[trigger] b[r][c]) <= a[r][c]
}

/// A row that is nowhere above another has no greater sum, and a smaller
/// one where it is below it at `at`.
pub proof fn lemma_row_total_order(b: Seq<u32>, a: Seq<u32>, at: int)
    requires
        a.len() == b.len(),
        forall|c: int| 0 <= c < a.len() ==> (#[trigger] b[c]) <= a[c],
    ensures
        row_total(b) <= row_total(a),
        0 <= at < a.len() && b[at] < a[at] ==> row_total(b) < row_total(a),
    decreases a.len(),
{
    if a.len() > 0 {
        assert forall|c: int| 0 <= c < a.drop_last().len() implies (#[trigger] b.drop_last()[c]) <= a.drop_last()[c] by {
            assert(b[c] <= a[c]);
        }
        lemma_row_total_order(b.drop_last(), a.drop_last(), at);
        assert(b[a.len() - 1] <= a[a.len() - 1]);
    }
}

/// A matrix that is nowhere above another has no greater sum, and a smaller
/// one where it is below it at row `r0`, column `c0`.
pub proof fn lemma_total_order(b: Seq<Seq<u32>>, a: Seq<Seq<u32>>, r0: int, c0: int)
    requires
        nowhere_above(b, a),
    ensures
        total(b) <= total(a),
        0 <= r0 < a.len() && 0 <= c0 < a[r0].len() && b[r0][c0] < a[r0][c0] ==> total(b) < total(a),
    decreases a.len(),
{
    if a.len() > 0 {
        let last = a.len() - 1;
        assert(nowhere_above(b.drop_last(), a.drop_last())) by {
            assert forall|i: int| 0 <= i < a.drop_last().len() implies (#[trigger] a.drop_last()[i]).len() == b.drop_last()[i].len() by {
                assert(a[i].len() == b[i].len());
            }
            assert forall|r: int, c: int| 0 <= r < a.drop_last().len() && 0 <= c < a.drop_last()[r].len() implies (#[trigger] b.drop_last()[r][c])
                <= a.drop_last()[r][c] by {
                assert(b[r][c] <= a[r][c]);
            }
        }
        lemma_total_order(b.drop_last(), a.drop_last(), r0, c0);
        assert(a[last].len() == b[last].len());
        assert forall|c: int| 0 <= c < a[last].len() implies (#[trigger] b[last][c]) <= a[last][c] by {
            assert(b[last][c] <= a[last][c]);
        }
        lemma_row_total_order(b[last], a[last], c0);
    }
}

} // verus!

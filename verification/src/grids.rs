//! Mathematical model of the whole grid: shape, transpose, sums, occupancy,
//! directional slides and the legal-move predicate.
use vstd::prelude::*;

use crate::rows::compacted;
use crate::rows::merge_gain;
use crate::rows::row_sum;
use crate::rows::slid_row;
use crate::rows::lemma_compacted_concat_zeros;
use crate::rows::lemma_compacted_len;
use crate::rows::lemma_compacted_len_full;
use crate::rows::lemma_compacted_sum;
use crate::rows::lemma_merge_gain_le_sum;
use crate::rows::lemma_merge_gain_nonneg;
use crate::rows::lemma_row_sum_nonneg;
use crate::rows::lemma_row_sum_push;
use crate::rows::lemma_row_sum_reverse;
use crate::rows::lemma_slide_conserves_sum;
use crate::SIZE;

verus! {

/// A well-formed grid: a square matrix of cells, `SIZE` on a side.
pub open spec fn grid_wf(t: Seq<Seq<u32>>) -> bool {
    t.len() == SIZE && (forall|i: int| 0 <= i < t.len() ==> (#[trigger] t[i]).len() == SIZE)
}

/// The grid with every cell empty.
pub open spec fn empty_grid() -> Seq<Seq<u32>> {
    Seq::new(SIZE as nat, |i: int| Seq::new(SIZE as nat, |j: int| 0u32))
}

/// The grid mirrored across its main diagonal.
pub open spec fn transpose_spec(t: Seq<Seq<u32>>) -> Seq<Seq<u32>> {
    Seq::new(t.len(), |i: int| Seq::new(t.len(), |j: int| t[j][i]))
}

/// Involution law: transposing twice restores the grid.
pub proof fn lemma_transpose_involution(t: Seq<Seq<u32>>)
    requires
        grid_wf(t),
    ensures
        transpose_spec(transpose_spec(t)) == t,
{
    assert(transpose_spec(transpose_spec(t)) =~~= t);
}

/// Some cell of the grid is empty.
pub open spec fn has_empty_cell(t: Seq<Seq<u32>>) -> bool {
    exists|i: int, j: int| 0 <= i < t.len() && 0 <= j < t[i].len() && t[i][j] == 0
}

/// Two horizontally neighbouring cells are equal.
pub open spec fn has_horizontal_pair(t: Seq<Seq<u32>>) -> bool {
    exists|i: int, j: int|
        0 <= i < t.len() && 0 <= j && j + 1 < t[i].len() && #[trigger] t[i][j] == t[i][j + 1]
}

/// Two vertically neighbouring cells are equal.
pub open spec fn has_vertical_pair(t: Seq<Seq<u32>>) -> bool {
    exists|i: int, j: int|
        0 <= i && i + 1 < t.len() && 0 <= j < t[i].len() && #[trigger] t[i][j] == t[i + 1][j]
}

/// A slide in some direction can still change the grid: either some cell is
/// empty, or two orthogonally neighbouring cells can merge.
pub open spec fn has_move(t: Seq<Seq<u32>>) -> bool {
    has_empty_cell(t) || has_horizontal_pair(t) || has_vertical_pair(t)
}

/// `has_move` is false exactly when every row, after zero-compaction, still
/// has `SIZE` entries (no empty cell anywhere) and no orthogonally
/// neighbouring pair of cells is equal.
pub proof fn lemma_no_move_characterization(t: Seq<Seq<u32>>)
    requires
        grid_wf(t),
    ensures
        !has_move(t) <==> ((forall|i: int|
            0 <= i < t.len() ==> compacted(#[trigger] t[i]).len() == SIZE)
            && !has_horizontal_pair(t) && !has_vertical_pair(t)),
{
    if !has_move(t) {
        assert forall|i: int| 0 <= i < t.len() implies compacted(#[trigger] t[i]).len()
            == SIZE by {
            lemma_compacted_len_full(t[i]);
            assert(forall|k: int| 0 <= k < t[i].len() ==> t[i][k] != 0);
        }
    } else {
        if has_empty_cell(t) {
            let (i, j) = choose|i: int, j: int|
                0 <= i < t.len() && 0 <= j < t[i].len() && t[i][j] == 0;
            lemma_compacted_len_full(t[i]);
            assert(compacted(t[i]).len() != SIZE);
        }
    }
}

/// The number of occupied (non-empty) cells of the grid.
pub open spec fn filled_cells(t: Seq<Seq<u32>>) -> int
    decreases t.len(),
{
    if t.len() == 0 {
        0
    } else {
        compacted(t[0]).len() + filled_cells(t.skip(1))
    }
}

pub proof fn lemma_filled_cells_bound(t: Seq<Seq<u32>>, w: int)
    requires
        forall|i: int| 0 <= i < t.len() ==> (#[trigger] t[i]).len() <= w,
        0 <= w,
    ensures
        0 <= filled_cells(t) <= t.len() * w,
    decreases t.len(),
{
    if t.len() > 0 {
        lemma_filled_cells_bound(t.skip(1), w);
        lemma_compacted_len(t[0]);
        assert(t.len() * w == (t.len() - 1) * w + w) by (nonlinear_arith);
    }
}

/// Writing a non-empty value into an empty cell raises the occupancy count
/// by exactly one.
pub proof fn lemma_filled_cells_update(t: Seq<Seq<u32>>, x: int, y: int, v: u32)
    requires
        0 <= x < t.len(),
        0 <= y < t[x].len(),
        t[x][y] == 0,
        v != 0,
    ensures
        filled_cells(t.update(x, t[x].update(y, v))) == filled_cells(t) + 1,
    decreases t.len(),
{
    let t2 = t.update(x, t[x].update(y, v));
    if x == 0 {
        lemma_compacted_update(t[0], y, v);
        assert(t2.skip(1) =~= t.skip(1));
    } else {
        assert(t2.skip(1) =~= t.skip(1).update(x - 1, t.skip(1)[x - 1].update(y, v)));
        lemma_filled_cells_update(t.skip(1), x - 1, y, v);
        assert(t2[0] == t[0]);
    }
}

/// Row-level step of `lemma_filled_cells_update`.
pub proof fn lemma_compacted_update(r: Seq<u32>, y: int, v: u32)
    requires
        0 <= y < r.len(),
        r[y] == 0,
        v != 0,
    ensures
        compacted(r.update(y, v)).len() == compacted(r).len() + 1,
    decreases r.len(),
{
    let r2 = r.update(y, v);
    if y == r.len() - 1 {
        assert(r2.drop_last() =~= r.drop_last());
        assert(r.last() == 0);
        assert(r2.last() == v);
    } else {
        assert(r2.drop_last() =~= r.drop_last().update(y, v));
        lemma_compacted_update(r.drop_last(), y, v);
        assert(r2.last() == r.last());
    }
}

/// The sum of every cell value of the grid.
pub open spec fn grid_sum(t: Seq<Seq<u32>>) -> int
    decreases t.len(),
{
    if t.len() == 0 {
        0
    } else {
        row_sum(t[0]) + grid_sum(t.skip(1))
    }
}

pub proof fn lemma_grid_sum_concat(a: Seq<Seq<u32>>, b: Seq<Seq<u32>>)
    ensures
        grid_sum(a + b) == grid_sum(a) + grid_sum(b),
    decreases a.len(),
{
    if a.len() == 0 {
        assert(a + b =~= b);
    } else {
        assert((a + b).skip(1) =~= a.skip(1) + b);
        lemma_grid_sum_concat(a.skip(1), b);
    }
}

pub proof fn lemma_grid_sum_push(s: Seq<Seq<u32>>, r: Seq<u32>)
    ensures
        grid_sum(s.push(r)) == grid_sum(s) + row_sum(r),
{
    assert(s.push(r) =~= s + seq![r]);
    lemma_grid_sum_concat(s, seq![r]);
    assert(seq![r].skip(1) =~= Seq::<Seq<u32>>::empty());
    assert(grid_sum(Seq::<Seq<u32>>::empty()) == 0);
}

pub proof fn lemma_grid_sum_nonneg(t: Seq<Seq<u32>>)
    ensures
        0 <= grid_sum(t),
    decreases t.len(),
{
    if t.len() > 0 {
        lemma_grid_sum_nonneg(t.skip(1));
        lemma_row_sum_nonneg(t[0]);
    }
}

/// The sum of one row is bounded by the sum of the whole grid.
pub proof fn lemma_row_sum_le_grid(t: Seq<Seq<u32>>, i: int)
    requires
        0 <= i < t.len(),
    ensures
        row_sum(t[i]) <= grid_sum(t),
    decreases t.len(),
{
    lemma_grid_sum_nonneg(t.skip(1));
    lemma_row_sum_nonneg(t[0]);
    if i > 0 {
        lemma_row_sum_le_grid(t.skip(1), i - 1);
    }
}

/// The row slid in the given horizontal orientation: leftward, or (through
/// reversal) rightward.
pub open spec fn slid_row_in(r: Seq<u32>, rev: bool) -> Seq<u32> {
    if rev {
        slid_row(r.reverse()).reverse()
    } else {
        slid_row(r)
    }
}

/// The score gained by sliding one row in the given orientation.
pub open spec fn row_gain(r: Seq<u32>, rev: bool) -> int {
    merge_gain(compacted(if rev {
        r.reverse()
    } else {
        r
    }))
}

/// Every row slid in the given orientation.
pub open spec fn slid_rows(t: Seq<Seq<u32>>, rev: bool) -> Seq<Seq<u32>> {
    Seq::new(t.len(), |i: int| slid_row_in(t[i], rev))
}

/// The total score gained by sliding every row in the given orientation.
pub open spec fn slide_gain(t: Seq<Seq<u32>>, rev: bool) -> int
    decreases t.len(),
{
    if t.len() == 0 {
        0
    } else {
        row_gain(t[0], rev) + slide_gain(t.skip(1), rev)
    }
}

pub proof fn lemma_slide_gain_concat(a: Seq<Seq<u32>>, b: Seq<Seq<u32>>, rev: bool)
    ensures
        slide_gain(a + b, rev) == slide_gain(a, rev) + slide_gain(b, rev),
    decreases a.len(),
{
    if a.len() == 0 {
        assert(a + b =~= b);
    } else {
        assert((a + b).skip(1) =~= a.skip(1) + b);
        lemma_slide_gain_concat(a.skip(1), b, rev);
    }
}

pub proof fn lemma_slide_gain_push(s: Seq<Seq<u32>>, r: Seq<u32>, rev: bool)
    ensures
        slide_gain(s.push(r), rev) == slide_gain(s, rev) + row_gain(r, rev),
{
    assert(s.push(r) =~= s + seq![r]);
    lemma_slide_gain_concat(s, seq![r], rev);
    assert(seq![r].skip(1) =~= Seq::<Seq<u32>>::empty());
    assert(slide_gain(Seq::<Seq<u32>>::empty(), rev) == 0);
}

/// The gain of one row is bounded by the sum of that row.
pub proof fn lemma_row_gain_le_sum(r: Seq<u32>, rev: bool)
    ensures
        0 <= row_gain(r, rev) <= row_sum(r),
{
    let r2 = if rev {
        r.reverse()
    } else {
        r
    };
    lemma_merge_gain_nonneg(compacted(r2));
    lemma_merge_gain_le_sum(compacted(r2));
    lemma_compacted_sum(r2);
    if rev {
        lemma_row_sum_reverse(r);
    }
}

/// The total gain of a slide is bounded by the sum of the whole grid.
pub proof fn lemma_slide_gain_le_grid(t: Seq<Seq<u32>>, rev: bool)
    ensures
        0 <= slide_gain(t, rev) <= grid_sum(t),
    decreases t.len(),
{
    if t.len() > 0 {
        lemma_slide_gain_le_grid(t.skip(1), rev);
        lemma_row_gain_le_sum(t[0], rev);
    }
}

/// The sum of one row is conserved by sliding it in either orientation.
pub proof fn lemma_slid_row_in_sum(r: Seq<u32>, rev: bool)
    requires
        row_sum(r) <= u32::MAX,
    ensures
        row_sum(slid_row_in(r, rev)) == row_sum(r),
{
    if rev {
        lemma_row_sum_reverse(r);
        lemma_slide_conserves_sum(r.reverse());
        lemma_row_sum_reverse(slid_row(r.reverse()));
    } else {
        lemma_slide_conserves_sum(r);
    }
}

/// Conservation law for a whole slide: the sum of all tile values is
/// unchanged by sliding every row, in either orientation.
pub proof fn lemma_slide_conserves_grid_sum(t: Seq<Seq<u32>>, rev: bool)
    requires
        grid_sum(t) <= u32::MAX,
    ensures
        grid_sum(slid_rows(t, rev)) == grid_sum(t),
    decreases t.len(),
{
    if t.len() > 0 {
        assert(slid_rows(t, rev).skip(1) =~= slid_rows(t.skip(1), rev));
        lemma_row_sum_nonneg(t[0]);
        lemma_grid_sum_nonneg(t.skip(1));
        lemma_slide_conserves_grid_sum(t.skip(1), rev);
        lemma_row_sum_le_grid(t, 0);
        lemma_slid_row_in_sum(t[0], rev);
        assert(slid_rows(t, rev)[0] == slid_row_in(t[0], rev));
    }
}


/// One column of the grid, read top to bottom as a row.
pub open spec fn col_seq(t: Seq<Seq<u32>>, j: int) -> Seq<u32> {
    Seq::new(t.len(), |i: int| t[i][j])
}

/// The sum of every cell of the first `n` columns.
pub open spec fn cols_sum(t: Seq<Seq<u32>>, n: int) -> int
    decreases n,
{
    if n <= 0 {
        0
    } else {
        cols_sum(t, n - 1) + row_sum(col_seq(t, n - 1))
    }
}

/// The sum of the first `n` cells of a row.
pub open spec fn row_sum_upto(r: Seq<u32>, n: int) -> int
    decreases n,
{
    if n <= 0 {
        0
    } else {
        row_sum_upto(r, n - 1) + r[n - 1]
    }
}

pub proof fn lemma_row_sum_upto_take(r: Seq<u32>, n: int)
    requires
        0 <= n <= r.len(),
    ensures
        row_sum_upto(r, n) == row_sum(r.take(n)),
    decreases n,
{
    if n > 0 {
        lemma_row_sum_upto_take(r, n - 1);
        assert(r.take(n) =~= r.take(n - 1).push(r[n - 1]));
        lemma_row_sum_push(r.take(n - 1), r[n - 1]);
    }
}

pub proof fn lemma_cols_sum_empty(n: int)
    ensures
        cols_sum(Seq::<Seq<u32>>::empty(), n) == 0,
    decreases n,
{
    if n > 0 {
        lemma_cols_sum_empty(n - 1);
        assert(col_seq(Seq::<Seq<u32>>::empty(), n - 1) =~= Seq::<u32>::empty());
        assert(row_sum(Seq::<u32>::empty()) == 0);
    }
}

/// Splitting the first `n` columns of a grid into its first row's prefix
/// and the columns of the remaining rows.
pub proof fn lemma_cols_sum_step(t: Seq<Seq<u32>>, n: int)
    requires
        t.len() > 0,
    ensures
        cols_sum(t, n) == row_sum_upto(t[0], n) + cols_sum(t.skip(1), n),
    decreases n,
{
    if n > 0 {
        lemma_cols_sum_step(t, n - 1);
        assert(col_seq(t, n - 1).skip(1) =~= col_seq(t.skip(1), n - 1));
        assert(col_seq(t, n - 1)[0] == t[0][n - 1]);
        assert(row_sum(col_seq(t, n - 1)) == t[0][n - 1] + row_sum(col_seq(t.skip(1), n - 1)));
    }
}

/// Summing a grid by columns gives the same total as summing it by rows.
pub proof fn lemma_cols_sum_grid(t: Seq<Seq<u32>>, w: int)
    requires
        0 <= w,
        forall|i: int| 0 <= i < t.len() ==> (#[trigger] t[i]).len() == w,
    ensures
        cols_sum(t, w) == grid_sum(t),
    decreases t.len(),
{
    if t.len() == 0 {
        assert(t =~= Seq::<Seq<u32>>::empty());
        lemma_cols_sum_empty(w);
    } else {
        lemma_cols_sum_step(t, w);
        lemma_row_sum_upto_take(t[0], w);
        assert(t[0].take(w) =~= t[0]);
        lemma_cols_sum_grid(t.skip(1), w);
    }
}

pub proof fn lemma_transpose_prefix_sum(t: Seq<Seq<u32>>, n: int)
    requires
        grid_wf(t),
        0 <= n <= SIZE,
    ensures
        grid_sum(transpose_spec(t).take(n)) == cols_sum(t, n),
    decreases n,
{
    let tr = transpose_spec(t);
    if n == 0 {
        assert(tr.take(0) =~= Seq::<Seq<u32>>::empty());
    } else {
        lemma_transpose_prefix_sum(t, n - 1);
        assert(tr.take(n) =~= tr.take(n - 1).push(tr[n - 1]));
        lemma_grid_sum_push(tr.take(n - 1), tr[n - 1]);
        assert(tr[n - 1] =~= col_seq(t, n - 1));
    }
}

/// Transposing the grid does not change the sum of its cells.
pub proof fn lemma_transpose_grid_sum(t: Seq<Seq<u32>>)
    requires
        grid_wf(t),
    ensures
        grid_sum(transpose_spec(t)) == grid_sum(t),
{
    lemma_transpose_prefix_sum(t, SIZE as int);
    assert(transpose_spec(t).take(SIZE as int) =~= transpose_spec(t));
    lemma_cols_sum_grid(t, SIZE as int);
}


/// `g1` is `g0` with exactly one previously empty cell now holding a newly
/// spawned tile of value 2 or 4.
pub open spec fn spawned_into(g0: Seq<Seq<u32>>, g1: Seq<Seq<u32>>) -> bool {
    exists|x: int, y: int, v: u32|
        0 <= x < SIZE && 0 <= y < SIZE && g0[x][y] == 0 && (v == 2 || v == 4) && g1
            == g0.update(x, #[trigger] g0[x].update(y, v))
}

pub proof fn lemma_filled_cells_concat(a: Seq<Seq<u32>>, b: Seq<Seq<u32>>)
    ensures
        filled_cells(a + b) == filled_cells(a) + filled_cells(b),
    decreases a.len(),
{
    if a.len() == 0 {
        assert(a + b =~= b);
    } else {
        assert((a + b).skip(1) =~= a.skip(1) + b);
        lemma_filled_cells_concat(a.skip(1), b);
    }
}

pub proof fn lemma_filled_cells_push(s: Seq<Seq<u32>>, r: Seq<u32>)
    ensures
        filled_cells(s.push(r)) == filled_cells(s) + compacted(r).len(),
{
    assert(s.push(r) =~= s + seq![r]);
    lemma_filled_cells_concat(s, seq![r]);
    assert(seq![r].skip(1) =~= Seq::<Seq<u32>>::empty());
    assert(filled_cells(Seq::<Seq<u32>>::empty()) == 0);
}

/// A grid whose cells are all empty has no occupied cell.
pub proof fn lemma_filled_cells_zero_rows(t: Seq<Seq<u32>>)
    requires
        forall|i: int, j: int| 0 <= i < t.len() && 0 <= j < t[i].len() ==> #[trigger] t[i][j]
            == 0u32,
    ensures
        filled_cells(t) == 0,
    decreases t.len(),
{
    if t.len() > 0 {
        lemma_filled_cells_zero_rows(t.skip(1));
        lemma_compacted_concat_zeros(Seq::<u32>::empty(), t[0].len());
        assert(Seq::<u32>::empty() + Seq::new(t[0].len(), |i: int| 0u32) =~= t[0]);
        assert(compacted(Seq::<u32>::empty()).len() == 0);
    }
}

} // verus!

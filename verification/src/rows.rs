//! Mathematical model of a single row and of the leftward slide/merge step.
//!
//! A row is a sequence of `u32` cell values; `0` denotes an empty cell.
//! Sliding a row to the left compacts the non-empty cells, performs one
//! left-to-right merge pass (a pair of equal neighbours becomes one doubled
//! cell, which is not compared again in the same pass), compacts once more
//! and pads the row back to its full width with empty cells.
use vstd::prelude::*;

verus! {

/// The row with its empty (zero) cells removed, relative order preserved.
pub open spec fn compacted(r: Seq<u32>) -> Seq<u32>
    decreases r.len(),
{
    if r.len() == 0 {
        Seq::empty()
    } else if r.last() == 0 {
        compacted(r.drop_last())
    } else {
        compacted(r.drop_last()).push(r.last())
    }
}

/// One left-to-right merge pass over a row without empty cells: the first
/// two cells merge into one doubled cell when equal, and the doubled cell
/// takes no further part in the pass.
pub open spec fn merged(r: Seq<u32>) -> Seq<u32>
    decreases r.len(),
{
    if r.len() < 2 {
        r
    } else if r[0] == r[1] {
        seq![(r[0] + r[1]) as u32] + merged(r.skip(2))
    } else {
        seq![r[0]] + merged(r.skip(1))
    }
}

/// The score gained by one merge pass: the sum of the doubled cells it creates.
pub open spec fn merge_gain(r: Seq<u32>) -> int
    decreases r.len(),
{
    if r.len() < 2 {
        0
    } else if r[0] == r[1] {
        r[0] + r[1] + merge_gain(r.skip(2))
    } else {
        merge_gain(r.skip(1))
    }
}

/// `s` padded on the right with empty cells up to length `n`.
pub open spec fn padded(s: Seq<u32>, n: nat) -> Seq<u32> {
    s + Seq::new((n - s.len()) as nat, |i: int| 0u32)
}

/// The row that sliding `r` to the left produces.
pub open spec fn slid_row(r: Seq<u32>) -> Seq<u32> {
    padded(merged(compacted(r)), r.len())
}

/// The sum of the cell values of a row.
pub open spec fn row_sum(r: Seq<u32>) -> int
    decreases r.len(),
{
    if r.len() == 0 {
        0
    } else {
        r[0] + row_sum(r.skip(1))
    }
}

/// No two neighbouring cells of `r` are equal.
pub open spec fn no_adjacent_pair(r: Seq<u32>) -> bool {
    forall|i: int| 0 <= i && i + 1 < r.len() ==> #[trigger] r[i] != r[i + 1]
}

/// Unfolds `row_sum` across the first two cells of a row.
pub proof fn lemma_row_sum_unfold2(r: Seq<u32>)
    requires
        r.len() >= 2,
    ensures
        row_sum(r) == r[0] + r[1] + row_sum(r.skip(2)),
{
    assert(r.skip(1).skip(1) =~= r.skip(2));
    assert(row_sum(r.skip(1)) == r.skip(1)[0] + row_sum(r.skip(1).skip(1)));
}

pub proof fn lemma_row_sum_concat(a: Seq<u32>, b: Seq<u32>)
    ensures
        row_sum(a + b) == row_sum(a) + row_sum(b),
    decreases a.len(),
{
    if a.len() == 0 {
        assert(a + b =~= b);
    } else {
        assert((a + b).skip(1) =~= a.skip(1) + b);
        lemma_row_sum_concat(a.skip(1), b);
    }
}

pub proof fn lemma_row_sum_single(x: u32)
    ensures
        row_sum(seq![x]) == x,
{
    assert(seq![x].skip(1) =~= Seq::<u32>::empty());
    assert(row_sum(Seq::<u32>::empty()) == 0);
}

pub proof fn lemma_row_sum_push(s: Seq<u32>, x: u32)
    ensures
        row_sum(s.push(x)) == row_sum(s) + x,
{
    assert(s.push(x) =~= s + seq![x]);
    lemma_row_sum_concat(s, seq![x]);
    lemma_row_sum_single(x);
}

pub proof fn lemma_row_sum_nonneg(r: Seq<u32>)
    ensures
        0 <= row_sum(r),
    decreases r.len(),
{
    if r.len() > 0 {
        lemma_row_sum_nonneg(r.skip(1));
    }
}

/// Every cell of a row is bounded by the sum of the whole row.
pub proof fn lemma_row_sum_bounds_cell(r: Seq<u32>, i: int)
    requires
        0 <= i < r.len(),
    ensures
        r[i] <= row_sum(r),
    decreases r.len(),
{
    lemma_row_sum_nonneg(r.skip(1));
    if i > 0 {
        lemma_row_sum_bounds_cell(r.skip(1), i - 1);
    }
}

pub proof fn lemma_row_sum_reverse(r: Seq<u32>)
    ensures
        row_sum(r.reverse()) == row_sum(r),
    decreases r.len(),
{
    if r.len() > 0 {
        assert(r.reverse()[0] == r.last());
        assert(r.reverse().skip(1) =~= r.drop_last().reverse());
        lemma_row_sum_reverse(r.drop_last());
        assert(r =~= r.drop_last().push(r.last()));
        lemma_row_sum_push(r.drop_last(), r.last());
    }
}

pub proof fn lemma_compacted_len(r: Seq<u32>)
    ensures
        compacted(r).len() <= r.len(),
    decreases r.len(),
{
    if r.len() > 0 {
        lemma_compacted_len(r.drop_last());
    }
}

/// A compacted row keeps exactly the non-empty cells, so it is as long as
/// the row itself exactly when the row has no empty cell.
pub proof fn lemma_compacted_len_full(r: Seq<u32>)
    ensures
        compacted(r).len() == r.len() <==> (forall|k: int| 0 <= k < r.len() ==> r[k] != 0),
    decreases r.len(),
{
    if r.len() > 0 {
        lemma_compacted_len_full(r.drop_last());
        lemma_compacted_len(r.drop_last());
        if r.last() == 0 {
            assert(r[r.len() - 1] == 0);
        } else {
            if compacted(r).len() == r.len() {
                assert(forall|k: int| 0 <= k < r.len() - 1 ==> r.drop_last()[k] == r[k]);
            }
        }
    }
}

pub proof fn lemma_compacted_nonzero(r: Seq<u32>)
    ensures
        forall|i: int| 0 <= i < compacted(r).len() ==> #[trigger] compacted(r)[i] != 0,
    decreases r.len(),
{
    if r.len() > 0 {
        lemma_compacted_nonzero(r.drop_last());
        if r.last() != 0 {
            let c = compacted(r.drop_last());
            assert forall|i: int| 0 <= i < compacted(r).len() implies #[trigger] compacted(r)[i]
                != 0 by {
                if i < c.len() {
                    assert(compacted(r)[i] == c[i]);
                } else {
                    assert(compacted(r)[i] == r.last());
                }
            }
        }
    }
}

pub proof fn lemma_compacted_sum(r: Seq<u32>)
    ensures
        row_sum(compacted(r)) == row_sum(r),
    decreases r.len(),
{
    if r.len() > 0 {
        lemma_compacted_sum(r.drop_last());
        assert(r =~= r.drop_last().push(r.last()));
        lemma_row_sum_push(r.drop_last(), r.last());
        if r.last() != 0 {
            lemma_row_sum_push(compacted(r.drop_last()), r.last());
        }
    }
}

/// Compacting ignores the identity of the non-empty cells' values, so a row
/// of non-empty cells compacts to itself.
pub proof fn lemma_compacted_of_nonzero(r: Seq<u32>)
    requires
        forall|i: int| 0 <= i < r.len() ==> r[i] != 0,
    ensures
        compacted(r) == r,
    decreases r.len(),
{
    if r.len() > 0 {
        assert(r[r.len() - 1] != 0);
        lemma_compacted_of_nonzero(r.drop_last());
        assert(compacted(r) =~= r);
    }
}

/// Trailing empty cells do not change what a row compacts to.
pub proof fn lemma_compacted_concat_zeros(s: Seq<u32>, k: nat)
    ensures
        compacted(s + Seq::new(k, |i: int| 0u32)) == compacted(s),
    decreases k,
{
    let z = Seq::new(k, |i: int| 0u32);
    if k == 0 {
        assert(s + z =~= s);
    } else {
        assert((s + z).last() == 0);
        assert((s + z).drop_last() =~= s + Seq::new((k - 1) as nat, |i: int| 0u32));
        lemma_compacted_concat_zeros(s, (k - 1) as nat);
    }
}

pub proof fn lemma_merged_len(r: Seq<u32>)
    ensures
        merged(r).len() <= r.len(),
    decreases r.len(),
{
    if r.len() < 2 {
    } else if r[0] == r[1] {
        lemma_merged_len(r.skip(2));
    } else {
        lemma_merged_len(r.skip(1));
    }
}

pub proof fn lemma_merge_gain_nonneg(r: Seq<u32>)
    ensures
        0 <= merge_gain(r),
    decreases r.len(),
{
    if r.len() < 2 {
    } else if r[0] == r[1] {
        lemma_merge_gain_nonneg(r.skip(2));
    } else {
        lemma_merge_gain_nonneg(r.skip(1));
    }
}

/// A merge pass can at most double cells that are present, so its score
/// gain never exceeds the sum of the row.
pub proof fn lemma_merge_gain_le_sum(r: Seq<u32>)
    ensures
        merge_gain(r) <= row_sum(r),
    decreases r.len(),
{
    if r.len() < 2 {
        lemma_row_sum_nonneg(r);
    } else if r[0] == r[1] {
        lemma_merge_gain_le_sum(r.skip(2));
        lemma_row_sum_unfold2(r);
    } else {
        lemma_merge_gain_le_sum(r.skip(1));
        lemma_row_sum_nonneg(r.skip(1));
    }
}

/// A merge pass conserves the sum of the row.
pub proof fn lemma_merged_sum(r: Seq<u32>)
    requires
        row_sum(r) <= u32::MAX,
    ensures
        row_sum(merged(r)) == row_sum(r),
    decreases r.len(),
{
    if r.len() < 2 {
    } else if r[0] == r[1] {
        lemma_row_sum_unfold2(r);
        lemma_row_sum_nonneg(r.skip(2));
        lemma_merged_sum(r.skip(2));
        let m = (r[0] + r[1]) as u32;
        assert(m == r[0] + r[1]);
        lemma_row_sum_concat(seq![m], merged(r.skip(2)));
        lemma_row_sum_single(m);
    } else {
        lemma_row_sum_nonneg(r.skip(1));
        lemma_merged_sum(r.skip(1));
        lemma_row_sum_concat(seq![r[0]], merged(r.skip(1)));
        lemma_row_sum_single(r[0]);
    }
}

/// A merge pass over a row of non-empty cells leaves no empty cell behind.
pub proof fn lemma_merged_nonzero(r: Seq<u32>)
    requires
        row_sum(r) <= u32::MAX,
        forall|i: int| 0 <= i < r.len() ==> r[i] != 0,
    ensures
        forall|i: int| 0 <= i < merged(r).len() ==> #[trigger] merged(r)[i] != 0,
    decreases r.len(),
{
    if r.len() < 2 {
    } else if r[0] == r[1] {
        lemma_row_sum_unfold2(r);
        lemma_row_sum_nonneg(r.skip(2));
        lemma_merged_nonzero(r.skip(2));
        let m = (r[0] + r[1]) as u32;
        assert(m == r[0] + r[1]);
        assert forall|i: int| 0 <= i < merged(r).len() implies #[trigger] merged(r)[i] != 0 by {
            if i == 0 {
                assert(merged(r)[0] == m);
            } else {
                assert(merged(r)[i] == merged(r.skip(2))[i - 1]);
            }
        }
    } else {
        lemma_row_sum_nonneg(r.skip(1));
        lemma_merged_nonzero(r.skip(1));
        assert forall|i: int| 0 <= i < merged(r).len() implies #[trigger] merged(r)[i] != 0 by {
            if i == 0 {
                assert(merged(r)[0] == r[0]);
            } else {
                assert(merged(r)[i] == merged(r.skip(1))[i - 1]);
            }
        }
    }
}

/// A merge pass over a row without equal neighbours merges nothing.
pub proof fn lemma_merged_no_pairs(r: Seq<u32>)
    requires
        no_adjacent_pair(r),
    ensures
        merged(r) == r,
        merge_gain(r) == 0,
    decreases r.len(),
{
    if r.len() < 2 {
    } else {
        assert(r[0] != r[1]);
        lemma_merged_no_pairs(r.skip(1));
        assert(seq![r[0]] + r.skip(1) =~= r);
    }
}

/// Conservation law: sliding a row only redistributes tile mass; the sum of
/// the cell values after the slide equals the sum before it, while the score
/// delta of the slide is accounted separately by `merge_gain`.
pub proof fn lemma_slide_conserves_sum(r: Seq<u32>)
    requires
        row_sum(r) <= u32::MAX,
    ensures
        row_sum(slid_row(r)) == row_sum(r),
{
    lemma_compacted_sum(r);
    lemma_merged_sum(compacted(r));
    lemma_compacted_len(r);
    lemma_merged_len(compacted(r));
    let m = merged(compacted(r));
    let z = Seq::new((r.len() - m.len()) as nat, |i: int| 0u32);
    lemma_row_sum_concat(m, z);
    lemma_row_sum_zeros((r.len() - m.len()) as nat);
}

pub proof fn lemma_row_sum_zeros(k: nat)
    ensures
        row_sum(Seq::new(k, |i: int| 0u32)) == 0,
    decreases k,
{
    if k > 0 {
        assert(Seq::new(k, |i: int| 0u32).skip(1) =~= Seq::new((k - 1) as nat, |i: int| 0u32));
        lemma_row_sum_zeros((k - 1) as nat);
    }
}

/// Idempotence law: sliding a row a second time changes nothing and gains
/// no score, provided the first slide left no equal neighbouring tiles
/// (a row such as `[2, 2, 2, 2]` slides to `[4, 4, 0, 0]`, which a second
/// slide would merge again; such rows are excluded).
pub proof fn lemma_slide_idempotent(r: Seq<u32>)
    requires
        row_sum(r) <= u32::MAX,
        no_adjacent_pair(merged(compacted(r))),
    ensures
        slid_row(slid_row(r)) == slid_row(r),
        merge_gain(compacted(slid_row(r))) == 0,
{
    let c = compacted(r);
    let m = merged(c);
    let s = slid_row(r);
    lemma_compacted_len(r);
    lemma_merged_len(c);
    lemma_compacted_sum(r);
    lemma_compacted_nonzero(r);
    lemma_merged_nonzero(c);
    assert(s.len() == r.len());
    lemma_compacted_concat_zeros(m, (r.len() - m.len()) as nat);
    assert(compacted(s) == compacted(m));
    lemma_compacted_of_nonzero(m);
    assert(compacted(s) == m);
    lemma_merged_no_pairs(m);
    assert(slid_row(s) == padded(m, s.len()));
    assert(slid_row(s) == s);
}

} // verus!

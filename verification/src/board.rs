//! The game board: a square grid of tile values and a counter of occupied
//! cells, with the leftward slide/merge step, transpose and the legal-move
//! test.
use vstd::prelude::*;

use crate::grids::empty_grid;
use crate::grids::grid_wf;
use crate::grids::has_empty_cell;
use crate::grids::has_horizontal_pair;
use crate::grids::has_move;
use crate::grids::has_vertical_pair;
use crate::grids::transpose_spec;
use crate::logic::check_position;
use crate::rows::compacted;
use crate::rows::merge_gain;
use crate::rows::merged;
use crate::rows::padded;
use crate::rows::row_sum;
use crate::rows::slid_row;
use crate::rows::lemma_compacted_len;
use crate::rows::lemma_compacted_sum;
use crate::rows::lemma_merge_gain_le_sum;
use crate::rows::lemma_merge_gain_nonneg;
use crate::SIZE;

verus! {

/// Abstraction of the game board.
pub struct Board {
    tiles: Vec<Vec<u32>>,
    filled: u32,
}

impl View for Board {
    type V = Seq<Seq<u32>>;

    closed spec fn view(&self) -> Seq<Seq<u32>> {
        self.tiles@.map_values(|row: Vec<u32>| row@)
    }
}

/// A row of `SIZE` empty cells.
fn zero_row() -> (r: Vec<u32>)
    ensures
        r@ == Seq::new(SIZE as nat, |j: int| 0u32),
{
    let mut r: Vec<u32> = Vec::new();
    let mut j: usize = 0;
    while j < SIZE
        invariant
            j <= SIZE,
            r@.len() == j,
            forall|k: int| 0 <= k < j ==> r@[k] == 0u32,
        decreases SIZE - j,
    {
        r.push(0);
        j += 1;
    }
    proof {
        assert(r@ =~= Seq::new(SIZE as nat, |j: int| 0u32));
    }
    r
}

/// Relates the board view to the underlying vector of rows.
proof fn lemma_tiles_view(b: &Board)
    ensures
        b@.len() == b.tiles@.len(),
        forall|i: int| 0 <= i < b.tiles@.len() ==> b@[i] == (#[trigger] b.tiles@[i])@,
{
}

/// Neither the rightward nor the downward neighbour of cell (a, b) holds
/// the same value as the cell itself.
spec fn pair_free_at(t: Seq<Seq<u32>>, a: int, b: int) -> bool {
    (b + 1 < SIZE ==> t[a][b] != t[a][b + 1]) && (a + 1 < SIZE ==> t[a][b] != t[a + 1][b])
}

impl Board {
    /// The occupied-cell counter (not recomputed from the grid; the
    /// controller reconciles it after bulk mutation).
    pub closed spec fn filled_count(&self) -> u32 {
        self.filled
    }

    /// Well-formedness: the grid is square of side `SIZE` and the counter
    /// never exceeds the number of cells.
    pub open spec fn wf(&self) -> bool {
        grid_wf(self@) && self.filled_count() <= SIZE * SIZE
    }

    pub fn new() -> (b: Board)
        ensures
            b.wf(),
            b@ == empty_grid(),
            b.filled_count() == 0,
    {
        let mut tiles: Vec<Vec<u32>> = Vec::new();
        let mut i: usize = 0;
        while i < SIZE
            invariant
                i <= SIZE,
                tiles@.len() == i,
                forall|k: int| 0 <= k < i ==> (#[trigger] tiles@[k])@ == Seq::new(
                    SIZE as nat,
                    |j: int| 0u32,
                ),
            decreases SIZE - i,
        {
            tiles.push(zero_row());
            i += 1;
        }
        let b = Board { tiles, filled: 0 };
        proof {
            assert(b@ =~~= empty_grid());
        }
        b
    }

    /// A read-only view of the rows of the grid.
    pub fn get_tiles(&self) -> (r: &Vec<Vec<u32>>)
        ensures
            r@.len() == self@.len(),
            forall|i: int| 0 <= i < self@.len() ==> (#[trigger] r@[i])@ == self@[i],
    {
        &self.tiles
    }

    /// The tile value at (x, y), or `None` when the cell is empty or the
    /// position lies outside the grid.
    pub fn get_tile_at(&self, x: usize, y: usize) -> (r: Option<u32>)
        requires
            self.wf(),
        ensures
            r == (if x < SIZE && y < SIZE && self@[x as int][y as int] != 0 {
                Some(self@[x as int][y as int])
            } else {
                None::<u32>
            }),
    {
        if check_position(x, y) {
            proof {
                lemma_tiles_view(self);
            }
            let v = self.tiles[x][y];
            if v != 0 {
                Some(v)
            } else {
                None
            }
        } else {
            None
        }
    }

    pub fn get_tiles_filled(&self) -> (r: u32)
        ensures
            r == self.filled_count(),
    {
        self.filled
    }

    pub fn set_tiles_filled(&mut self, val: u32)
        requires
            old(self).wf(),
            val <= SIZE * SIZE,
        ensures
            final(self).wf(),
            final(self)@ == old(self)@,
            final(self).filled_count() == val,
    {
        self.filled = val;
    }

    /// Sets the cell at (x, y) unless the board is already completely full
    /// (a full board silently rejects writes) or the position lies outside
    /// the grid.  Filling a previously empty cell with a non-empty value
    /// raises the occupancy counter by one.
    pub fn set_tile_value_at(&mut self, x: usize, y: usize, val: u32)
        requires
            old(self).wf(),
        ensures
            final(self).wf(),
            old(self).filled_count() == SIZE * SIZE ==> final(self)@ == old(self)@
                && final(self).filled_count() == old(self).filled_count(),
            old(self).filled_count() != SIZE * SIZE && x < SIZE && y < SIZE ==> final(self)@
                == old(self)@.update(x as int, old(self)@[x as int].update(y as int, val))
                && final(self).filled_count() == old(self).filled_count() + (
            if old(self)@[x as int][y as int] == 0 && val != 0 {
                1int
            } else {
                0int
            }),
            old(self).filled_count() != SIZE * SIZE && !(x < SIZE && y < SIZE) ==> final(self)@
                == old(self)@ && final(self).filled_count() == old(self).filled_count(),
    {
        if self.filled as usize == SIZE * SIZE {
            return ;
        }
        if check_position(x, y) {
            proof {
                lemma_tiles_view(self);
            }
            if self.tiles[x][y] == 0 && val != 0 {
                self.filled = self.filled + 1;
            }
            self.tiles[x][y] = val;
            proof {
                assert(self@ =~~= old(self)@.update(
                    x as int,
                    old(self)@[x as int].update(y as int, val),
                ));
            }
        }
    }

    /// Empties the whole board and resets the occupancy counter.
    pub fn clear(&mut self)
        requires
            old(self).wf(),
        ensures
            final(self).wf(),
            final(self)@ == empty_grid(),
            final(self).filled_count() == 0,
    {
        proof {
            lemma_tiles_view(self);
        }
        self.filled = 0;
        let mut i: usize = 0;
        while i < SIZE
            invariant
                i <= SIZE,
                self.tiles@.len() == SIZE,
                self.filled == 0,
                forall|k: int| 0 <= k < i ==> (#[trigger] self.tiles@[k])@ == Seq::new(
                    SIZE as nat,
                    |j: int| 0u32,
                ),
                forall|k: int| i <= k < SIZE ==> (#[trigger] self.tiles@[k])@.len() == SIZE,
            decreases SIZE - i,
        {
            self.tiles[i] = zero_row();
            i += 1;
        }
        proof {
            assert(self@ =~~= empty_grid());
        }
    }

    /// Transposes the grid across its main diagonal; together with row
    /// reversal this turns every slide direction into a leftward slide.
    pub fn transpose(&mut self)
        requires
            old(self).wf(),
        ensures
            final(self).wf(),
            final(self)@ == transpose_spec(old(self)@),
            final(self).filled_count() == old(self).filled_count(),
    {
        proof {
            lemma_tiles_view(self);
        }
        let mut out: Vec<Vec<u32>> = Vec::new();
        let mut i: usize = 0;
        while i < SIZE
            invariant
                i <= SIZE,
                self.tiles@ == old(self).tiles@,
                self.filled == old(self).filled,
                self.tiles@.len() == SIZE,
                forall|k: int| 0 <= k < SIZE ==> (#[trigger] self.tiles@[k])@.len() == SIZE,
                out@.len() == i,
                forall|a: int, b: int| 0 <= a < i && 0 <= b < SIZE ==> (#[trigger] out@[a]@[b])
                    == self.tiles@[b]@[a],
                forall|a: int| 0 <= a < i ==> (#[trigger] out@[a])@.len() == SIZE,
            decreases SIZE - i,
        {
            let mut row: Vec<u32> = Vec::new();
            let mut j: usize = 0;
            while j < SIZE
                invariant
                    i < SIZE,
                    j <= SIZE,
                    self.tiles@ == old(self).tiles@,
                    self.tiles@.len() == SIZE,
                    forall|k: int| 0 <= k < SIZE ==> (#[trigger] self.tiles@[k])@.len() == SIZE,
                    row@.len() == j,
                    forall|b: int| 0 <= b < j ==> (#[trigger] row@[b]) == self.tiles@[b]@[i as int],
                decreases SIZE - j,
            {
                row.push(self.tiles[j][i]);
                j += 1;
            }
            out.push(row);
            i += 1;
        }
        self.tiles = out;
        proof {
            lemma_tiles_view(self);
            assert(self@ =~~= transpose_spec(old(self)@));
        }
    }

    /// Slides row `idx` leftward: compacts the non-empty cells, merges each
    /// pair of equal neighbours once (a doubled cell is not merged again in
    /// the same pass), compacts once more and pads the row with empty cells;
    /// returns the score gained.  An index outside the grid changes nothing.
    pub fn slide_line_left(&mut self, idx: usize) -> (gain: u32)
        requires
            old(self).wf(),
            idx < SIZE ==> row_sum(old(self)@[idx as int]) <= u32::MAX,
        ensures
            final(self).wf(),
            final(self).filled_count() == old(self).filled_count(),
            idx < SIZE ==> final(self)@ == old(self)@.update(
                idx as int,
                slid_row(old(self)@[idx as int]),
            ) && gain == merge_gain(compacted(old(self)@[idx as int])),
            idx >= SIZE ==> final(self)@ == old(self)@ && gain == 0,
    {
        if idx >= SIZE {
            return 0;
        }
        proof {
            lemma_tiles_view(self);
        }
        let ghost row: Seq<u32> = self@[idx as int];

        // left-compaction: drop the empty cells, keep the order
        let mut c: Vec<u32> = Vec::new();
        let mut j: usize = 0;
        while j < SIZE
            invariant
                idx < SIZE,
                j <= SIZE,
                self.tiles@ == old(self).tiles@,
                self.filled == old(self).filled,
                self.tiles@.len() == SIZE,
                self.tiles@[idx as int]@.len() == SIZE,
                row == self.tiles@[idx as int]@,
                c@ == compacted(row.take(j as int)),
            decreases SIZE - j,
        {
            let v = self.tiles[idx][j];
            proof {
                assert(row.take(j as int + 1).drop_last() =~= row.take(j as int));
                assert(row.take(j as int + 1).last() == row[j as int]);
            }
            if v != 0 {
                c.push(v);
            }
            j += 1;
        }
        proof {
            assert(row.take(SIZE as int) =~= row);
            lemma_compacted_len(row);
            lemma_compacted_sum(row);
        }

        // one merge pass, writing the merged row directly
        let mut out: Vec<u32> = Vec::new();
        let mut gain: u32 = 0;
        let mut k: usize = 0;
        proof {
            assert(c@.skip(0) =~= c@);
            assert(out@ + merged(c@) =~= merged(c@));
        }
        while k < c.len()
            invariant
                k <= c@.len(),
                c@ == compacted(row),
                c@.len() <= SIZE,
                row_sum(row) <= u32::MAX,
                out@ + merged(c@.skip(k as int)) == merged(c@),
                gain + merge_gain(c@.skip(k as int)) == merge_gain(c@),
                out@.len() + c@.len() - k <= SIZE,
            decreases c.len() - k,
        {
            let ghost rem = c@.skip(k as int);
            let ghost out0 = out@;
            proof {
                lemma_compacted_sum(row);
                lemma_merge_gain_le_sum(c@);
                lemma_merge_gain_nonneg(rem);
                assert(rem[0] == c@[k as int]);
            }
            if k + 1 < c.len() && c[k] == c[k + 1] {
                proof {
                    assert(rem[1] == c@[k as int + 1]);
                    assert(rem.skip(2) =~= c@.skip(k as int + 2));
                    lemma_merge_gain_nonneg(rem.skip(2));
                    assert(merge_gain(rem) == rem[0] + rem[1] + merge_gain(rem.skip(2)));
                }
                let m = c[k] * 2;
                out.push(m);
                gain = gain + m;
                k += 2;
                proof {
                    assert(out@ + merged(rem.skip(2)) =~= out0 + merged(rem));
                }
            } else {
                proof {
                    assert(rem.skip(1) =~= c@.skip(k as int + 1));
                    if rem.len() >= 2 {
                        assert(rem[1] == c@[k as int + 1]);
                    }
                }
                out.push(c[k]);
                k += 1;
                proof {
                    assert(out@ + merged(rem.skip(1)) =~= out0 + merged(rem));
                }
            }
        }
        proof {
            assert(c@.skip(c@.len() as int) =~= Seq::<u32>::empty());
            assert(out@ + Seq::<u32>::empty() =~= out@);
            assert(out@ == merged(c@));
            assert(gain == merge_gain(compacted(row)));
        }

        // pad the row back to full width
        let ghost m0: Seq<u32> = out@;
        while out.len() < SIZE
            invariant
                m0 == merged(compacted(row)),
                m0.len() <= out@.len() <= SIZE,
                out@.take(m0.len() as int) == m0,
                forall|q: int| m0.len() <= q < out@.len() ==> out@[q] == 0u32,
            decreases SIZE - out.len(),
        {
            let ghost b0 = out@;
            out.push(0);
            proof {
                assert(out@.take(m0.len() as int) =~= b0.take(m0.len() as int));
            }
        }
        proof {
            assert(out@ =~= padded(m0, SIZE as nat));
        }

        self.tiles[idx] = out;
        proof {
            lemma_tiles_view(self);
            assert(row.len() == SIZE);
            assert(self@ =~~= old(self)@.update(idx as int, slid_row(row)));
        }
        gain
    }

    /// Reverses row `idx` in place; an index outside the grid changes
    /// nothing.
    pub fn reverse_line(&mut self, idx: usize)
        requires
            old(self).wf(),
        ensures
            final(self).wf(),
            final(self).filled_count() == old(self).filled_count(),
            idx < SIZE ==> final(self)@ == old(self)@.update(
                idx as int,
                old(self)@[idx as int].reverse(),
            ),
            idx >= SIZE ==> final(self)@ == old(self)@,
    {
        if idx >= SIZE {
            return ;
        }
        proof {
            lemma_tiles_view(self);
        }
        let ghost row: Seq<u32> = self@[idx as int];
        let mut out: Vec<u32> = Vec::new();
        let mut j: usize = 0;
        while j < SIZE
            invariant
                idx < SIZE,
                j <= SIZE,
                self.tiles@ == old(self).tiles@,
                self.filled == old(self).filled,
                self.tiles@.len() == SIZE,
                self.tiles@[idx as int]@.len() == SIZE,
                row == self.tiles@[idx as int]@,
                out@.len() == j,
                forall|q: int| 0 <= q < j ==> out@[q] == row[SIZE - 1 - q],
            decreases SIZE - j,
        {
            out.push(self.tiles[idx][SIZE - 1 - j]);
            j += 1;
        }
        self.tiles[idx] = out;
        proof {
            lemma_tiles_view(self);
            assert(out@ =~= row.reverse());
            assert(self@ =~~= old(self)@.update(idx as int, row.reverse()));
        }
    }

    /// A mutable borrow of row `idx`, or `None` when the index lies outside
    /// the grid.
    pub fn get_line_mut(&mut self, idx: usize) -> (r: Option<&mut Vec<u32>>)
        ensures
            idx < old(self)@.len() ==> (r matches Some(line) && line@ == old(self)@[idx as int]
                && final(self)@ == old(self)@.update(idx as int, final(line)@)
                && final(self).filled_count() == old(self).filled_count()),
            idx >= old(self)@.len() ==> (r is None && final(self)@ == old(self)@
                && final(self).filled_count() == old(self).filled_count()),
    {
        proof {
            lemma_tiles_view(self);
        }
        if idx < self.tiles.len() {
            proof {
                let t0 = self.tiles@;
                assert forall|v: Vec<u32>| (#[trigger] t0.update(idx as int, v)).map_values(
                    |row: Vec<u32>| row@,
                ) =~~= t0.map_values(|row: Vec<u32>| row@).update(idx as int, v@) by {}
            }
            let line = &mut self.tiles[idx];
            Some(line)
        } else {
            None
        }
    }

    /// Whether some slide could still change the board: true when some row
    /// is not fully packed (an empty cell remains somewhere) or when two
    /// orthogonally neighbouring cells hold the same value.
    pub fn has_valid_slides(&self) -> (r: bool)
        requires
            self.wf(),
        ensures
            r == has_move(self@),
    {
        proof {
            lemma_tiles_view(self);
        }
        // a row with an empty cell compacts to fewer than SIZE entries
        let mut i: usize = 0;
        while i < SIZE
            invariant
                i <= SIZE,
                self.wf(),
                self.tiles@.len() == SIZE,
                forall|k: int| 0 <= k < SIZE ==> (#[trigger] self.tiles@[k])@.len() == SIZE,
                forall|k: int| 0 <= k < SIZE ==> self@[k] == (#[trigger] self.tiles@[k])@,
                forall|a: int, b: int| 0 <= a < i && 0 <= b < SIZE ==> (#[trigger] self@[a][b])
                    != 0,
            decreases SIZE - i,
        {
            let mut j: usize = 0;
            while j < SIZE
                invariant
                    i < SIZE,
                    j <= SIZE,
                    self.wf(),
                    self.tiles@.len() == SIZE,
                    forall|k: int| 0 <= k < SIZE ==> (#[trigger] self.tiles@[k])@.len() == SIZE,
                    forall|k: int| 0 <= k < SIZE ==> self@[k] == (#[trigger] self.tiles@[k])@,
                    forall|b: int| 0 <= b < j ==> (#[trigger] self@[i as int][b]) != 0,
                decreases SIZE - j,
            {
                if self.tiles[i][j] == 0 {
                    proof {
                        assert(self@[i as int][j as int] == 0);
                        assert(has_empty_cell(self@));
                    }
                    return true;
                }
                j += 1;
            }
            i += 1;
        }
        // no empty cell: only an equal neighbour pair can still move
        let mut i: usize = 0;
        while i < SIZE
            invariant
                i <= SIZE,
                self.wf(),
                self.tiles@.len() == SIZE,
                forall|k: int| 0 <= k < SIZE ==> (#[trigger] self.tiles@[k])@.len() == SIZE,
                forall|k: int| 0 <= k < SIZE ==> self@[k] == (#[trigger] self.tiles@[k])@,
                forall|a: int, b: int| 0 <= a < SIZE && 0 <= b < SIZE ==> (#[trigger] self@[a][b])
                    != 0,
                forall|a: int, b: int| 0 <= a < i && 0 <= b < SIZE ==> #[trigger] pair_free_at(
                    self@,
                    a,
                    b,
                ),
            decreases SIZE - i,
        {
            let mut j: usize = 0;
            while j < SIZE
                invariant
                    i < SIZE,
                    j <= SIZE,
                    self.wf(),
                    self.tiles@.len() == SIZE,
                    forall|k: int| 0 <= k < SIZE ==> (#[trigger] self.tiles@[k])@.len() == SIZE,
                    forall|k: int| 0 <= k < SIZE ==> self@[k] == (#[trigger] self.tiles@[k])@,
                    forall|a: int, b: int| 0 <= a < i && 0 <= b < SIZE ==> #[trigger] pair_free_at(
                        self@,
                        a,
                        b,
                    ),
                    forall|b: int| 0 <= b < j ==> #[trigger] pair_free_at(self@, i as int, b),
                decreases SIZE - j,
            {
                let v = self.tiles[i][j];
                if j + 1 < SIZE && v == self.tiles[i][j + 1] {
                    proof {
                        assert(self@[i as int][j as int] == self@[i as int][j as int + 1]);
                        assert(has_horizontal_pair(self@));
                    }
                    return true;
                }
                if i + 1 < SIZE && v == self.tiles[i + 1][j] {
                    proof {
                        assert(self@[i as int][j as int] == self@[i as int + 1][j as int]);
                        assert(has_vertical_pair(self@));
                    }
                    return true;
                }
                j += 1;
            }
            i += 1;
        }
        proof {
            assert(!has_empty_cell(self@)) by {
                if has_empty_cell(self@) {
                    let (a, b) = choose|a: int, b: int|
                        0 <= a < self@.len() && 0 <= b < self@[a].len() && self@[a][b] == 0;
                    assert(self@[a][b] != 0);
                }
            }
            assert(!has_horizontal_pair(self@)) by {
                if has_horizontal_pair(self@) {
                    let (a, b) = choose|a: int, b: int|
                        0 <= a < self@.len() && 0 <= b && b + 1 < self@[a].len()
                            && #[trigger] self@[a][b] == self@[a][b + 1];
                    assert(pair_free_at(self@, a, b));
                }
            }
            assert(!has_vertical_pair(self@)) by {
                if has_vertical_pair(self@) {
                    let (a, b) = choose|a: int, b: int|
                        0 <= a && a + 1 < self@.len() && 0 <= b < self@[a].len()
                            && #[trigger] self@[a][b] == self@[a + 1][b];
                    assert(pair_free_at(self@, a, b));
                }
            }
        }
        false
    }
}

} // verus!

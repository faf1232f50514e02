//! The game controller: a board and the running score.  Every slide
//! direction is mapped onto leftward row slides through transpose and row
//! reversal; after an accepted move the occupancy count is recomputed and,
//! if room remains, one new tile is spawned.
use vstd::prelude::*;

use crate::board::Board;
use crate::grids::empty_grid;
use crate::grids::filled_cells;
use crate::grids::grid_sum;
use crate::grids::has_move;
use crate::grids::slid_rows;
use crate::grids::slide_gain;
use crate::grids::spawned_into;
use crate::grids::transpose_spec;
use crate::grids::lemma_filled_cells_bound;
use crate::grids::lemma_filled_cells_push;
use crate::grids::lemma_filled_cells_update;
use crate::grids::lemma_filled_cells_zero_rows;
use crate::grids::lemma_row_sum_le_grid;
use crate::grids::lemma_slide_gain_concat;
use crate::grids::lemma_slide_gain_le_grid;
use crate::grids::lemma_slide_gain_push;
use crate::grids::lemma_transpose_grid_sum;
use crate::logic::new_tile;
use crate::logic::random_below;
use crate::rows::compacted;
use crate::rows::lemma_compacted_len;
use crate::rows::lemma_row_sum_reverse;
use crate::SIZE;

verus! {

/// The direction of one slide command.
pub enum Direction {
    Up,
    Down,
    Left,
    Right,
}

/// What the grid becomes under one directional slide.
pub open spec fn slid_grid_dir(t: Seq<Seq<u32>>, dir: Direction) -> Seq<Seq<u32>> {
    match dir {
        Direction::Left => slid_rows(t, false),
        Direction::Right => slid_rows(t, true),
        Direction::Up => transpose_spec(slid_rows(transpose_spec(t), false)),
        Direction::Down => transpose_spec(slid_rows(transpose_spec(t), true)),
    }
}

/// The score gained by one directional slide.
pub open spec fn slide_gain_dir(t: Seq<Seq<u32>>, dir: Direction) -> int {
    match dir {
        Direction::Left => slide_gain(t, false),
        Direction::Right => slide_gain(t, true),
        Direction::Up => slide_gain(transpose_spec(t), false),
        Direction::Down => slide_gain(transpose_spec(t), true),
    }
}

/// Game session state.
pub struct Game {
    board: Board,
    score: u32,
}

impl Game {
    /// The grid of the owned board.
    pub closed spec fn grid(&self) -> Seq<Seq<u32>> {
        self.board@
    }

    /// The running score.
    pub closed spec fn score(&self) -> u32 {
        self.score
    }

    /// The occupied-cell counter of the owned board.
    pub closed spec fn filled(&self) -> u32 {
        self.board.filled_count()
    }

    pub closed spec fn wf(&self) -> bool {
        self.board.wf()
    }

    pub fn new() -> (g: Game)
        ensures
            g.wf(),
            g.grid() == empty_grid(),
            g.score() == 0,
            g.filled() == 0,
    {
        Game { board: Board::new(), score: 0 }
    }

    pub fn get_score(&self) -> (r: u32)
        ensures
            r == self.score(),
    {
        self.score
    }

    /// A read-only borrow of the board, for rendering.
    pub fn get_board(&self) -> (r: &Board)
        ensures
            r@ == self.grid(),
            r.filled_count() == self.filled(),
            r.wf() == self.wf(),
    {
        &self.board
    }

    /// A mutable borrow of the board, for setting a position up.
    pub fn board_mut(&mut self) -> (r: &mut Board)
        ensures
            r@ == old(self).grid(),
            r.filled_count() == old(self).filled(),
            r.wf() == old(self).wf(),
            final(self).grid() == final(r)@,
            final(self).filled() == final(r).filled_count(),
            final(self).wf() == final(r).wf(),
            final(self).score() == old(self).score(),
    {
        &mut self.board
    }

    /// Slides every row leftward — reversed first and after when `rev`
    /// holds, which turns the pass into a rightward slide — and adds the
    /// merge score of each row to the running score.
    fn slide_rows_on_board(&mut self, rev: bool)
        requires
            old(self).wf(),
            old(self).score() + grid_sum(old(self).grid()) <= u32::MAX,
        ensures
            final(self).wf(),
            final(self).grid() == slid_rows(old(self).grid(), rev),
            final(self).score() == old(self).score() + slide_gain(old(self).grid(), rev),
            final(self).filled() == old(self).filled(),
    {
        let ghost t0: Seq<Seq<u32>> = self.board@;
        let mut i: usize = 0;
        while i < SIZE
            invariant
                i <= SIZE,
                self.board.wf(),
                t0 == old(self).board@,
                t0.len() == SIZE,
                forall|k: int| 0 <= k < SIZE ==> (#[trigger] t0[k]).len() == SIZE,
                self.board.filled_count() == old(self).board.filled_count(),
                old(self).score + grid_sum(t0) <= u32::MAX,
                self.score == old(self).score + slide_gain(t0.take(i as int), rev),
                self.board@.len() == SIZE,
                forall|k: int| 0 <= k < SIZE ==> self.board@[k] == (if k < i {
                    crate::grids::slid_row_in(#[trigger] t0[k], rev)
                } else {
                    t0[k]
                }),
            decreases SIZE - i,
        {
            proof {
                lemma_row_sum_le_grid(t0, i as int);
                crate::grids::lemma_grid_sum_nonneg(t0);
                lemma_row_sum_reverse(t0[i as int]);
                assert(t0.take(i as int + 1) =~= t0.take(i as int).push(t0[i as int]));
                lemma_slide_gain_push(t0.take(i as int), t0[i as int], rev);
                assert(t0 =~= t0.take(i as int + 1) + t0.skip(i as int + 1));
                lemma_slide_gain_concat(t0.take(i as int + 1), t0.skip(i as int + 1), rev);
                lemma_slide_gain_le_grid(t0.skip(i as int + 1), rev);
                lemma_slide_gain_le_grid(t0, rev);
                lemma_slide_gain_le_grid(t0.take(i as int), rev);
            }
            let g: u32;
            if rev {
                self.board.reverse_line(i);
                g = self.board.slide_line_left(i);
                self.board.reverse_line(i);
            } else {
                g = self.board.slide_line_left(i);
            }
            self.score = self.score + g;
            i += 1;
        }
        proof {
            assert(t0.take(SIZE as int) =~= t0);
            assert(self.board@ =~~= slid_rows(t0, rev));
        }
    }

    /// Slides the whole board leftward.
    pub fn slide_left(&mut self)
        requires
            old(self).wf(),
            old(self).score() + grid_sum(old(self).grid()) <= u32::MAX,
        ensures
            final(self).wf(),
            final(self).grid() == slid_rows(old(self).grid(), false),
            final(self).score() == old(self).score() + slide_gain(old(self).grid(), false),
            final(self).filled() == old(self).filled(),
    {
        self.slide_rows_on_board(false);
    }

    /// Slides the whole board rightward: each row is reversed, slid
    /// leftward and reversed back.
    pub fn slide_right(&mut self)
        requires
            old(self).wf(),
            old(self).score() + grid_sum(old(self).grid()) <= u32::MAX,
        ensures
            final(self).wf(),
            final(self).grid() == slid_rows(old(self).grid(), true),
            final(self).score() == old(self).score() + slide_gain(old(self).grid(), true),
            final(self).filled() == old(self).filled(),
    {
        self.slide_rows_on_board(true);
    }

    /// Slides the whole board upward: transpose, slide every row leftward,
    /// transpose back.
    pub fn slide_up(&mut self)
        requires
            old(self).wf(),
            old(self).score() + grid_sum(old(self).grid()) <= u32::MAX,
        ensures
            final(self).wf(),
            final(self).grid() == transpose_spec(
                slid_rows(transpose_spec(old(self).grid()), false),
            ),
            final(self).score() == old(self).score() + slide_gain(
                transpose_spec(old(self).grid()),
                false,
            ),
            final(self).filled() == old(self).filled(),
    {
        proof {
            lemma_transpose_grid_sum(self.board@);
        }
        self.board.transpose();
        self.slide_rows_on_board(false);
        self.board.transpose();
    }

    /// Slides the whole board downward: transpose, slide every row
    /// rightward, transpose back.
    pub fn slide_down(&mut self)
        requires
            old(self).wf(),
            old(self).score() + grid_sum(old(self).grid()) <= u32::MAX,
        ensures
            final(self).wf(),
            final(self).grid() == transpose_spec(
                slid_rows(transpose_spec(old(self).grid()), true),
            ),
            final(self).score() == old(self).score() + slide_gain(
                transpose_spec(old(self).grid()),
                true,
            ),
            final(self).filled() == old(self).filled(),
    {
        proof {
            lemma_transpose_grid_sum(self.board@);
        }
        self.board.transpose();
        self.slide_rows_on_board(true);
        self.board.transpose();
    }

    /// Spawns one new tile — 2, or now and then 4 — in a uniformly chosen
    /// empty cell.  The caller guarantees room on the board.
    pub fn generate_tiles_randomly(&mut self)
        requires
            old(self).wf(),
            old(self).filled() < SIZE * SIZE,
            old(self).filled() as int == filled_cells(old(self).grid()),
        ensures
            final(self).wf(),
            final(self).score() == old(self).score(),
            final(self).filled() == old(self).filled() + 1,
            final(self).filled() as int == filled_cells(final(self).grid()),
            spawned_into(old(self).grid(), final(self).grid()),
    {
        let ghost t0: Seq<Seq<u32>> = self.board@;
        let mut empties: Vec<(usize, usize)> = Vec::new();
        let mut x: usize = 0;
        while x < SIZE
            invariant
                x <= SIZE,
                self.board@ == t0,
                self.board.wf(),
                self.score == old(self).score,
                self.board.filled_count() == old(self).board.filled_count(),
                t0.len() == SIZE,
                forall|k: int| 0 <= k < SIZE ==> (#[trigger] t0[k]).len() == SIZE,
                forall|q: int| 0 <= q < empties@.len() ==> ((#[trigger] empties@[q]).0 < SIZE
                    && empties@[q].1 < SIZE && t0[empties@[q].0 as int][empties@[q].1 as int]
                    == 0),
                empties@.len() + filled_cells(t0.take(x as int)) == x * SIZE,
            decreases SIZE - x,
        {
            let mut y: usize = 0;
            while y < SIZE
                invariant
                    x < SIZE,
                    y <= SIZE,
                    self.board@ == t0,
                    self.board.wf(),
                    self.score == old(self).score,
                    self.board.filled_count() == old(self).board.filled_count(),
                    t0.len() == SIZE,
                    forall|k: int| 0 <= k < SIZE ==> (#[trigger] t0[k]).len() == SIZE,
                    forall|q: int| 0 <= q < empties@.len() ==> ((#[trigger] empties@[q]).0 < SIZE
                        && empties@[q].1 < SIZE && t0[empties@[q].0 as int][empties@[q].1 as int]
                        == 0),
                    empties@.len() + filled_cells(t0.take(x as int)) + compacted(
                        t0[x as int].take(y as int),
                    ).len() == x * SIZE + y,
                decreases SIZE - y,
            {
                proof {
                    let r = t0[x as int];
                    assert(r.take(y as int + 1).drop_last() =~= r.take(y as int));
                    assert(r.take(y as int + 1).last() == r[y as int]);
                    lemma_compacted_len(r.take(y as int));
                }
                let v = self.board.get_tile_at(x, y);
                if v.is_none() {
                    empties.push((x, y));
                }
                y += 1;
            }
            proof {
                assert(t0[x as int].take(SIZE as int) =~= t0[x as int]);
                assert(t0.take(x as int + 1) =~= t0.take(x as int).push(t0[x as int]));
                lemma_filled_cells_push(t0.take(x as int), t0[x as int]);
            }
            x += 1;
        }
        proof {
            assert(t0.take(SIZE as int) =~= t0);
        }
        let n = empties.len();
        let pick = random_below(n);
        let pos = empties[pick];
        let v = new_tile();
        self.board.set_tile_value_at(pos.0, pos.1, v);
        proof {
            let gx = pos.0 as int;
            let gy = pos.1 as int;
            lemma_filled_cells_update(t0, gx, gy, v);
            assert(self.board@ == t0.update(gx, t0[gx].update(gy, v)));
            assert(spawned_into(t0, self.board@));
        }
    }

    /// Recomputes the occupied-cell counter by scanning the whole grid.
    pub fn update_board_filled(&mut self)
        requires
            old(self).wf(),
        ensures
            final(self).wf(),
            final(self).grid() == old(self).grid(),
            final(self).score() == old(self).score(),
            final(self).filled() as int == filled_cells(old(self).grid()),
    {
        let ghost t0: Seq<Seq<u32>> = self.board@;
        let mut filled: u32 = 0;
        let mut x: usize = 0;
        while x < SIZE
            invariant
                x <= SIZE,
                self.board@ == t0,
                self.board.wf(),
                self.score == old(self).score,
                t0.len() == SIZE,
                forall|k: int| 0 <= k < SIZE ==> (#[trigger] t0[k]).len() == SIZE,
                filled as int == filled_cells(t0.take(x as int)),
                filled <= x * SIZE,
            decreases SIZE - x,
        {
            let mut y: usize = 0;
            while y < SIZE
                invariant
                    x < SIZE,
                    y <= SIZE,
                    self.board@ == t0,
                    self.board.wf(),
                    self.score == old(self).score,
                    t0.len() == SIZE,
                    forall|k: int| 0 <= k < SIZE ==> (#[trigger] t0[k]).len() == SIZE,
                    filled as int == filled_cells(t0.take(x as int)) + compacted(
                        t0[x as int].take(y as int),
                    ).len(),
                    filled <= x * SIZE + y,
                decreases SIZE - y,
            {
                proof {
                    let r = t0[x as int];
                    assert(r.take(y as int + 1).drop_last() =~= r.take(y as int));
                    assert(r.take(y as int + 1).last() == r[y as int]);
                    lemma_compacted_len(r.take(y as int));
                    lemma_filled_cells_bound(t0.take(x as int), SIZE as int);
                }
                let v = self.board.get_tile_at(x, y);
                if v.is_some() {
                    filled = filled + 1;
                }
                y += 1;
            }
            proof {
                assert(t0[x as int].take(SIZE as int) =~= t0[x as int]);
                assert(t0.take(x as int + 1) =~= t0.take(x as int).push(t0[x as int]));
                lemma_filled_cells_push(t0.take(x as int), t0[x as int]);
            }
            x += 1;
        }
        proof {
            assert(t0.take(SIZE as int) =~= t0);
        }
        self.board.set_tiles_filled(filled);
    }

    /// True when the board is completely full and no merge remains.
    pub fn is_game_over(&mut self) -> (r: bool)
        requires
            old(self).wf(),
        ensures
            *final(self) == *old(self),
            r == (old(self).filled() == SIZE * SIZE && !has_move(old(self).grid())),
    {
        self.board.get_tiles_filled() as usize == SIZE * SIZE && !self.board.has_valid_slides()
    }

    /// Clears the board, zeroes the score and spawns the first tile.
    pub fn reset(&mut self)
        requires
            old(self).wf(),
        ensures
            final(self).wf(),
            final(self).score() == 0,
            final(self).filled() == 1,
            final(self).filled() as int == filled_cells(final(self).grid()),
            spawned_into(empty_grid(), final(self).grid()),
    {
        self.board.clear();
        self.score = 0;
        proof {
            lemma_filled_cells_zero_rows(empty_grid());
        }
        self.generate_tiles_randomly();
    }

    /// Applies one directional command: slides the whole board, adds the
    /// merge score to the running total, recomputes the occupancy count
    /// and, when the board is not completely full, spawns exactly one new
    /// tile.  Returns whether the game is now over.
    pub fn apply_direction(&mut self, dir: Direction) -> (over: bool)
        requires
            old(self).wf(),
            old(self).score() + grid_sum(old(self).grid()) <= u32::MAX,
        ensures
            final(self).wf(),
            final(self).score() == old(self).score() + slide_gain_dir(old(self).grid(), dir),
            final(self).filled() as int == filled_cells(final(self).grid()),
            ({
                let mid = slid_grid_dir(old(self).grid(), dir);
                if filled_cells(mid) < SIZE * SIZE {
                    spawned_into(mid, final(self).grid()) && final(self).filled() == filled_cells(
                        mid,
                    ) + 1
                } else {
                    final(self).grid() == mid && final(self).filled() == SIZE * SIZE
                }
            }),
            over == (final(self).filled() == SIZE * SIZE && !has_move(final(self).grid())),
    {
        match dir {
            Direction::Up => self.slide_up(),
            Direction::Down => self.slide_down(),
            Direction::Left => self.slide_left(),
            Direction::Right => self.slide_right(),
        }
        self.update_board_filled();
        proof {
            lemma_filled_cells_bound(self.board@, SIZE as int);
        }
        if self.board.get_tiles_filled() as usize != SIZE * SIZE {
            self.generate_tiles_randomly();
        }
        self.is_game_over()
    }
}

} // verus!

use twenty48::board::Board;
use twenty48::SIZE;

/// Builds a board whose rows hold the given values (0 = empty cell).
fn board_from(rows: [[u32; 4]; 4]) -> Board {
    let mut b = Board::new();
    for x in 0..SIZE {
        for y in 0..SIZE {
            if rows[x][y] != 0 {
                b.set_tile_value_at(x, y, rows[x][y]);
            }
        }
    }
    b
}

fn row_of(b: &Board, x: usize) -> [u32; 4] {
    let mut out = [0u32; 4];
    for y in 0..SIZE {
        if let Some(v) = b.get_tile_at(x, y) {
            out[y] = v;
        }
    }
    out
}

fn grid_sum_of(b: &Board) -> u64 {
    let mut s: u64 = 0;
    for row in b.get_tiles() {
        for &v in row {
            s += v as u64;
        }
    }
    s
}

#[test]
fn new_board_is_empty() {
    let b = Board::new();
    assert_eq!(b.get_tiles_filled(), 0);
    for x in 0..SIZE {
        for y in 0..SIZE {
            assert_eq!(b.get_tile_at(x, y), None);
        }
    }
}

#[test]
fn get_tile_at_out_of_bounds_is_none() {
    let b = board_from([[2, 0, 0, 0], [0, 0, 0, 0], [0, 0, 0, 0], [0, 0, 0, 0]]);
    assert_eq!(b.get_tile_at(0, 0), Some(2));
    assert_eq!(b.get_tile_at(SIZE, 0), None);
    assert_eq!(b.get_tile_at(0, SIZE), None);
    assert_eq!(b.get_tile_at(17, 17), None);
}

#[test]
fn set_tile_tracks_occupancy() {
    let mut b = Board::new();
    b.set_tile_value_at(1, 2, 8);
    assert_eq!(b.get_tiles_filled(), 1);
    assert_eq!(b.get_tile_at(1, 2), Some(8));
    // overwriting an occupied cell does not raise the counter
    b.set_tile_value_at(1, 2, 16);
    assert_eq!(b.get_tiles_filled(), 1);
    assert_eq!(b.get_tile_at(1, 2), Some(16));
    // out-of-bounds writes change nothing
    b.set_tile_value_at(SIZE, 0, 2);
    assert_eq!(b.get_tiles_filled(), 1);
}

#[test]
fn full_board_rejects_writes() {
    let mut b = board_from([[2, 4, 2, 4], [4, 2, 4, 2], [2, 4, 2, 4], [4, 2, 4, 2]]);
    assert_eq!(b.get_tiles_filled(), 16);
    b.set_tile_value_at(0, 0, 64);
    assert_eq!(b.get_tile_at(0, 0), Some(2));
}

#[test]
fn clear_empties_the_board() {
    let mut b = board_from([[2, 4, 2, 4], [4, 2, 4, 2], [0, 0, 8, 0], [0, 0, 0, 0]]);
    b.clear();
    assert_eq!(b.get_tiles_filled(), 0);
    for x in 0..SIZE {
        for y in 0..SIZE {
            assert_eq!(b.get_tile_at(x, y), None);
        }
    }
}

#[test]
fn set_tiles_filled_overrides_counter() {
    let mut b = Board::new();
    b.set_tiles_filled(5);
    assert_eq!(b.get_tiles_filled(), 5);
}

#[test]
fn slide_merges_pair_once() {
    // row [2,2,4,0] slides to [4,4,0,0] for a delta of 4
    let mut b = board_from([[2, 2, 4, 0], [0, 0, 0, 0], [0, 0, 0, 0], [0, 0, 0, 0]]);
    let gain = b.slide_line_left(0);
    assert_eq!(gain, 4);
    assert_eq!(row_of(&b, 0), [4, 4, 0, 0]);
}

#[test]
fn slide_does_not_chain_merge() {
    // row [2,2,2,2] slides to [4,4,0,0] for a delta of 8; the two new 4s
    // do not merge again in the same pass
    let mut b = board_from([[2, 2, 2, 2], [0, 0, 0, 0], [0, 0, 0, 0], [0, 0, 0, 0]]);
    let gain = b.slide_line_left(0);
    assert_eq!(gain, 8);
    assert_eq!(row_of(&b, 0), [4, 4, 0, 0]);
}

#[test]
fn slide_compacts_across_gaps() {
    let mut b = board_from([[2, 0, 0, 2], [0, 8, 0, 4], [0, 0, 0, 0], [4, 2, 4, 2]]);
    assert_eq!(b.slide_line_left(0), 4);
    assert_eq!(row_of(&b, 0), [4, 0, 0, 0]);
    assert_eq!(b.slide_line_left(1), 0);
    assert_eq!(row_of(&b, 1), [8, 4, 0, 0]);
    assert_eq!(b.slide_line_left(2), 0);
    assert_eq!(row_of(&b, 2), [0, 0, 0, 0]);
    assert_eq!(b.slide_line_left(3), 0);
    assert_eq!(row_of(&b, 3), [4, 2, 4, 2]);
}

#[test]
fn slide_out_of_bounds_changes_nothing() {
    let mut b = board_from([[2, 2, 0, 0], [0, 0, 0, 0], [0, 0, 0, 0], [0, 0, 0, 0]]);
    assert_eq!(b.slide_line_left(SIZE), 0);
    assert_eq!(row_of(&b, 0), [2, 2, 0, 0]);
}

#[test]
fn slide_conserves_tile_mass() {
    let mut b = board_from([[2, 2, 4, 4], [8, 8, 8, 8], [2, 0, 2, 4], [0, 0, 0, 2]]);
    let before = grid_sum_of(&b);
    let mut delta = 0u64;
    for i in 0..SIZE {
        delta += b.slide_line_left(i) as u64;
    }
    assert_eq!(grid_sum_of(&b), before);
    assert_eq!(delta, (4 + 8) + (16 + 16) + 4 + 0);
}

#[test]
fn transpose_mirrors_the_grid() {
    let mut b = board_from([[2, 4, 0, 0], [0, 0, 8, 0], [0, 0, 0, 0], [16, 0, 0, 0]]);
    b.transpose();
    assert_eq!(row_of(&b, 0), [2, 0, 0, 16]);
    assert_eq!(row_of(&b, 1), [4, 0, 0, 0]);
    assert_eq!(row_of(&b, 2), [0, 8, 0, 0]);
    assert_eq!(row_of(&b, 3), [0, 0, 0, 0]);
}

#[test]
fn transpose_twice_restores_the_grid() {
    let rows = [[2, 4, 8, 0], [0, 2, 0, 16], [32, 0, 2, 0], [0, 64, 0, 2]];
    let mut b = board_from(rows);
    b.transpose();
    b.transpose();
    for x in 0..SIZE {
        assert_eq!(row_of(&b, x), rows[x]);
    }
}

#[test]
fn reverse_line_flips_one_row() {
    let mut b = board_from([[2, 4, 8, 16], [0, 0, 0, 0], [0, 0, 0, 0], [0, 0, 0, 0]]);
    b.reverse_line(0);
    assert_eq!(row_of(&b, 0), [16, 8, 4, 2]);
    b.reverse_line(SIZE);
    assert_eq!(row_of(&b, 0), [16, 8, 4, 2]);
}

#[test]
fn get_line_mut_borrows_a_row() {
    let mut b = board_from([[2, 4, 8, 16], [0, 0, 0, 0], [0, 0, 0, 0], [0, 0, 0, 0]]);
    {
        let line = b.get_line_mut(0).unwrap();
        line.reverse();
    }
    assert_eq!(row_of(&b, 0), [16, 8, 4, 2]);
    assert!(b.get_line_mut(SIZE).is_none());
}

#[test]
fn has_valid_slides_on_sparse_board() {
    let b = board_from([[2, 4, 2, 4], [0, 0, 0, 0], [0, 0, 0, 0], [0, 0, 0, 0]]);
    assert!(b.has_valid_slides());
    let empty = Board::new();
    assert!(empty.has_valid_slides());
}

#[test]
fn has_valid_slides_on_checkerboard_is_false() {
    let b = board_from([[2, 4, 2, 4], [4, 2, 4, 2], [2, 4, 2, 4], [4, 2, 4, 2]]);
    assert!(!b.has_valid_slides());
}

#[test]
fn has_valid_slides_sees_mergeable_pair() {
    // full board, but the two 2s in the last row are neighbours
    let b = board_from([[2, 4, 2, 4], [4, 2, 4, 2], [2, 4, 2, 4], [4, 2, 2, 8]]);
    assert!(b.has_valid_slides());
    // full board with a vertical pair only
    let v = board_from([[2, 4, 2, 4], [4, 2, 4, 2], [4, 8, 2, 4], [8, 2, 4, 2]]);
    assert!(v.has_valid_slides());
}

#[test]
fn slide_is_idempotent_without_new_pairs() {
    // a slide that creates no new equal neighbours is idempotent: the
    // second pass gains nothing and changes nothing
    let mut b = board_from([[2, 0, 4, 8], [0, 0, 0, 0], [0, 0, 0, 0], [0, 0, 0, 0]]);
    assert_eq!(b.slide_line_left(0), 0);
    assert_eq!(row_of(&b, 0), [2, 4, 8, 0]);
    assert_eq!(b.slide_line_left(0), 0);
    assert_eq!(row_of(&b, 0), [2, 4, 8, 0]);
    // a slide that leaves a mergeable pair behind is not: [2,2,2,2] gives
    // [4,4,0,0], which a second slide merges again
    let mut c = board_from([[2, 2, 2, 2], [0, 0, 0, 0], [0, 0, 0, 0], [0, 0, 0, 0]]);
    assert_eq!(c.slide_line_left(0), 8);
    assert_eq!(c.slide_line_left(0), 8);
    assert_eq!(row_of(&c, 0), [8, 0, 0, 0]);
}

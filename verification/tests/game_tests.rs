use twenty48::game::Direction;
use twenty48::game::Game;
use twenty48::SIZE;

/// Builds a game whose board holds the given rows (0 = empty cell).
fn game_from(rows: [[u32; 4]; 4]) -> Game {
    let mut g = Game::new();
    {
        let b = g.board_mut();
        for x in 0..SIZE {
            for y in 0..SIZE {
                if rows[x][y] != 0 {
                    b.set_tile_value_at(x, y, rows[x][y]);
                }
            }
        }
    }
    g
}

fn row_of(g: &Game, x: usize) -> [u32; 4] {
    let mut out = [0u32; 4];
    for y in 0..SIZE {
        if let Some(v) = g.get_board().get_tile_at(x, y) {
            out[y] = v;
        }
    }
    out
}

fn count_tiles(g: &Game) -> usize {
    let mut n = 0;
    for x in 0..SIZE {
        for y in 0..SIZE {
            if g.get_board().get_tile_at(x, y).is_some() {
                n += 1;
            }
        }
    }
    n
}

#[test]
fn new_game_is_blank() {
    let g = Game::new();
    assert_eq!(g.get_score(), 0);
    assert_eq!(g.get_board().get_tiles_filled(), 0);
    assert_eq!(count_tiles(&g), 0);
}

#[test]
fn slide_left_moves_every_row() {
    let mut g = game_from([[2, 2, 4, 0], [2, 0, 0, 2], [0, 0, 0, 8], [0, 0, 0, 0]]);
    g.slide_left();
    assert_eq!(g.get_score(), 4 + 4);
    assert_eq!(row_of(&g, 0), [4, 4, 0, 0]);
    assert_eq!(row_of(&g, 1), [4, 0, 0, 0]);
    assert_eq!(row_of(&g, 2), [8, 0, 0, 0]);
    assert_eq!(row_of(&g, 3), [0, 0, 0, 0]);
}

#[test]
fn slide_right_reverses_first() {
    let mut g = game_from([[2, 2, 4, 0], [2, 0, 0, 2], [8, 0, 0, 0], [0, 0, 0, 0]]);
    g.slide_right();
    assert_eq!(g.get_score(), 4 + 4);
    assert_eq!(row_of(&g, 0), [0, 0, 4, 4]);
    assert_eq!(row_of(&g, 1), [0, 0, 0, 4]);
    assert_eq!(row_of(&g, 2), [0, 0, 0, 8]);
    assert_eq!(row_of(&g, 3), [0, 0, 0, 0]);
}

#[test]
fn slide_up_works_on_columns() {
    let mut g = game_from([[2, 0, 0, 0], [2, 4, 0, 0], [0, 4, 8, 0], [4, 0, 0, 0]]);
    g.slide_up();
    assert_eq!(g.get_score(), 4 + 8);
    assert_eq!(row_of(&g, 0), [4, 8, 8, 0]);
    assert_eq!(row_of(&g, 1), [4, 0, 0, 0]);
    assert_eq!(row_of(&g, 2), [0, 0, 0, 0]);
    assert_eq!(row_of(&g, 3), [0, 0, 0, 0]);
}

#[test]
fn slide_down_works_on_columns() {
    let mut g = game_from([[2, 0, 0, 0], [2, 4, 0, 0], [0, 4, 8, 0], [4, 0, 0, 0]]);
    g.slide_down();
    assert_eq!(g.get_score(), 4 + 8);
    assert_eq!(row_of(&g, 0), [0, 0, 0, 0]);
    assert_eq!(row_of(&g, 1), [0, 0, 0, 0]);
    assert_eq!(row_of(&g, 2), [4, 0, 0, 0]);
    assert_eq!(row_of(&g, 3), [4, 8, 8, 0]);
}

#[test]
fn score_accumulates_across_moves() {
    let mut g = game_from([[2, 2, 2, 2], [0, 0, 0, 0], [0, 0, 0, 0], [0, 0, 0, 0]]);
    g.slide_left();
    assert_eq!(g.get_score(), 8);
    g.slide_left();
    assert_eq!(g.get_score(), 16);
}

#[test]
fn update_board_filled_recounts() {
    let mut g = game_from([[2, 0, 4, 0], [0, 8, 0, 0], [0, 0, 0, 0], [0, 0, 0, 16]]);
    g.board_mut().set_tiles_filled(0);
    g.update_board_filled();
    assert_eq!(g.get_board().get_tiles_filled(), 4);
}

#[test]
fn checkerboard_game_is_over() {
    // fully packed checkerboard: no empty cell and no equal neighbours
    let mut g = game_from([[2, 4, 2, 4], [4, 2, 4, 2], [2, 4, 2, 4], [4, 2, 4, 2]]);
    assert_eq!(g.get_board().get_tiles_filled(), 16);
    assert!(g.is_game_over());
}

#[test]
fn game_with_room_is_not_over() {
    let mut g = game_from([[2, 4, 2, 4], [4, 2, 4, 2], [2, 4, 2, 4], [4, 2, 4, 0]]);
    assert!(!g.is_game_over());
    let mut m = game_from([[2, 4, 2, 4], [4, 2, 4, 2], [2, 4, 2, 4], [4, 2, 2, 8]]);
    m.update_board_filled();
    assert!(!m.is_game_over());
}

#[test]
fn apply_direction_on_stuck_board_spawns_nothing() {
    let mut g = game_from([[2, 4, 2, 4], [4, 2, 4, 2], [2, 4, 2, 4], [4, 2, 4, 2]]);
    let over = g.apply_direction(Direction::Left);
    assert!(over);
    assert_eq!(g.get_score(), 0);
    assert_eq!(row_of(&g, 0), [2, 4, 2, 4]);
    assert_eq!(row_of(&g, 3), [4, 2, 4, 2]);
    assert_eq!(count_tiles(&g), 16);
}

#[test]
fn apply_direction_slides_scores_and_spawns() {
    let mut g = game_from([[2, 2, 0, 0], [0, 0, 0, 0], [0, 0, 0, 0], [0, 0, 0, 0]]);
    let over = g.apply_direction(Direction::Left);
    assert!(!over);
    assert_eq!(g.get_score(), 4);
    // the merged tile stands at the left edge; one new tile was spawned in
    // a cell that was empty after the slide
    assert_eq!(g.get_board().get_tile_at(0, 0), Some(4));
    assert_eq!(count_tiles(&g), 2);
    assert_eq!(g.get_board().get_tiles_filled(), 2);
}

#[test]
fn spawn_lands_on_the_single_empty_cell() {
    for _ in 0..50 {
        let mut g = game_from([[2, 4, 2, 4], [4, 2, 4, 2], [2, 4, 2, 4], [4, 2, 0, 8]]);
        g.generate_tiles_randomly();
        let v = g.get_board().get_tile_at(3, 2);
        assert!(v == Some(2) || v == Some(4));
        assert_eq!(g.get_board().get_tiles_filled(), 16);
    }
}

#[test]
fn spawn_mostly_draws_twos() {
    let mut twos = 0;
    let mut fours = 0;
    for _ in 0..400 {
        let mut g = game_from([[2, 4, 2, 4], [4, 2, 4, 2], [2, 4, 2, 4], [4, 2, 0, 8]]);
        g.generate_tiles_randomly();
        match g.get_board().get_tile_at(3, 2) {
            Some(2) => twos += 1,
            Some(4) => fours += 1,
            other => panic!("unexpected spawned value: {:?}", other),
        }
    }
    assert!(twos > fours);
    assert!(fours > 0);
}

#[test]
fn reset_leaves_one_fresh_tile() {
    let mut g = game_from([[2, 2, 4, 8], [16, 2, 0, 0], [0, 0, 0, 0], [0, 0, 0, 0]]);
    g.slide_left();
    assert!(g.get_score() > 0);
    g.reset();
    assert_eq!(g.get_score(), 0);
    assert_eq!(g.get_board().get_tiles_filled(), 1);
    assert_eq!(count_tiles(&g), 1);
    let mut spawned = 0;
    for x in 0..SIZE {
        for y in 0..SIZE {
            if let Some(v) = g.get_board().get_tile_at(x, y) {
                assert!(v == 2 || v == 4);
                spawned += 1;
            }
        }
    }
    assert_eq!(spawned, 1);
}

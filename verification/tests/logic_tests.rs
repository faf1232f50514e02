use twenty48::logic::check_position;
use twenty48::logic::get_random_position;
use twenty48::logic::new_tile;
use twenty48::SIZE;

#[test]
fn check_position_accepts_the_grid_only() {
    assert!(check_position(0, 0));
    assert!(check_position(SIZE - 1, SIZE - 1));
    assert!(!check_position(SIZE, 0));
    assert!(!check_position(0, SIZE));
    assert!(!check_position(SIZE, SIZE));
}

#[test]
fn random_positions_stay_on_the_grid() {
    for _ in 0..500 {
        let (x, y) = get_random_position();
        assert!(x < SIZE);
        assert!(y < SIZE);
    }
}

#[test]
fn new_tiles_are_twos_or_fours() {
    let mut twos = 0;
    let mut fours = 0;
    for _ in 0..500 {
        match new_tile() {
            2 => twos += 1,
            4 => fours += 1,
            other => panic!("unexpected tile value: {}", other),
        }
    }
    assert!(twos > fours);
    assert!(fours > 0);
}

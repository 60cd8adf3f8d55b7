use life::game::Game;

#[test]
fn blinker() {
    let expected_coord_alive_cells: Vec<(usize, usize)> = vec![(1, 2), (2, 2), (3, 2)];

    let mut game: Game = Game::new(5, &expected_coord_alive_cells).unwrap();

    assert_eq!(expected_coord_alive_cells, game.coord_alive_cells());

    game.next();

    let expected_coord_alive_cells: Vec<(usize, usize)> = vec![(2, 1), (2, 2), (2, 3)];
    assert_eq!(expected_coord_alive_cells, game.coord_alive_cells());
}

#[test]
fn blinker_has_period_two() {
    let vertical: Vec<(usize, usize)> = vec![(1, 2), (2, 2), (3, 2)];
    let horizontal: Vec<(usize, usize)> = vec![(2, 1), (2, 2), (2, 3)];
    let mut game = Game::new(5, &vertical).unwrap();
    for _ in 0..3 {
        game.next();
        assert_eq!(horizontal, game.coord_alive_cells());
        game.next();
        assert_eq!(vertical, game.coord_alive_cells());
    }
}

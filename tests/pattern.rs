use life::field::OutOfBounds;
use life::game::{Game, PatternError};
use life::pattern::{parse_pattern, split_bytes, split_lines};

#[test]
fn pattern_marks_x_tokens() {
    let (size, cells) = parse_pattern(b"x . x\n. x .\n. . .\n");
    assert_eq!(3, size);
    assert_eq!(vec![(0, 0), (0, 2), (1, 1)], cells);
}

#[test]
fn pattern_without_final_newline() {
    let (size, cells) = parse_pattern(b". .\n. x");
    assert_eq!(2, size);
    assert_eq!(vec![(1, 1)], cells);
}

#[test]
fn pattern_with_crlf_line_ends() {
    let (size, cells) = parse_pattern(b". x\r\nx .\r\n");
    assert_eq!(2, size);
    assert_eq!(vec![(0, 1), (1, 0)], cells);
}

#[test]
fn pattern_double_space_is_an_empty_column() {
    let (size, cells) = parse_pattern(b"x  x\n");
    assert_eq!(1, size);
    assert_eq!(vec![(0, 0), (0, 2)], cells);
}

#[test]
fn pattern_only_exact_x_is_alive() {
    let (_, cells) = parse_pattern(b"X xx x. x\n");
    assert_eq!(vec![(0, 3)], cells);
}

#[test]
fn empty_lines_are_rows() {
    let (size, cells) = parse_pattern(b"\n\nx\n");
    assert_eq!(3, size);
    assert_eq!(vec![(2, 0)], cells);
}

#[test]
fn split_keeps_empty_pieces() {
    let pieces = split_bytes(b",a,,b,", b',');
    let expected: Vec<Vec<u8>> = vec![vec![], vec![b'a'], vec![], vec![b'b'], vec![]];
    assert_eq!(expected, pieces);
}

#[test]
fn lines_drop_only_a_final_empty_line() {
    let expected: Vec<Vec<u8>> = vec![b"a".to_vec(), vec![], b"b\r".to_vec()];
    assert_eq!(expected, split_lines(b"a\r\n\nb\r"));
    assert!(split_lines(b"").is_empty());
}

#[test]
fn game_from_pattern_blinker() {
    let text = b". . . . .\n. . x . .\n. . x . .\n. . x . .\n. . . . .\n";
    let mut game = Game::from_pattern(text).unwrap();
    assert_eq!(vec![(1, 2), (2, 2), (3, 2)], game.coord_alive_cells());
    game.next();
    assert_eq!(vec![(2, 1), (2, 2), (2, 3)], game.coord_alive_cells());
}

#[test]
fn game_from_empty_pattern_fails() {
    assert_eq!(Some(PatternError::Empty), Game::from_pattern(b"").err());
}

#[test]
fn game_from_too_wide_pattern_fails() {
    assert_eq!(
        Some(PatternError::OutOfBounds(OutOfBounds { row: 0, column: 2 })),
        Game::from_pattern(b"x . x\n. . .\n").err()
    );
}

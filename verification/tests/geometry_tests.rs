use ricochet::geometry::can_move;
use ricochet::geometry::Direction;
use ricochet::geometry::EmptyBoard;
use ricochet::geometry::Geometry;
use ricochet::geometry::Position;
use ricochet::map::MapError;

fn pos(x: i8, y: i8) -> Position {
    Position { x, y }
}

fn text(lines: &[&str]) -> Vec<u8> {
    lines.join("\n").into_bytes()
}

/// Borders closed, the central two-by-two block walled off, a wall under
/// (5,14) and (6,14), a wall under (0,5), and a wall right of (6,5).
fn standard_lines() -> Vec<String> {
    let mut lines = Vec::new();
    lines.push("7111111111111115".to_string());
    for y in 1..15 {
        let mut line = String::new();
        for x in 0..16 {
            let c = if (7..=8).contains(&x) && (7..=8).contains(&y) {
                'F'
            } else if x == 0 && y == 5 {
                'A'
            } else if x == 0 {
                '4'
            } else if x == 15 {
                '2'
            } else if x == 6 && y == 5 {
                '2'
            } else if (x == 5 || x == 6) && y == 14 {
                '3'
            } else {
                '0'
            };
            line.push(c);
        }
        lines.push(line);
    }
    lines.push("A333333333333338".to_string());
    lines
}

fn standard_map() -> Geometry {
    let lines = standard_lines();
    let refs: Vec<&str> = lines.iter().map(|s| s.as_str()).collect();
    Geometry::from_map_text(&text(&refs)).unwrap()
}

fn all_open_with(c: char) -> Vec<u8> {
    let mut lines = Vec::new();
    lines.push("0000000000000000".to_string());
    lines.push(format!("0{}00000000000000", c));
    for _ in 2..16 {
        lines.push("0000000000000000".to_string());
    }
    lines.join("\n").into_bytes()
}

#[test]
fn decode_table_matches_spec() {
    // per character: (up, down, left, right) open sides
    let table = [
        ('0', [true, true, true, true]),
        ('1', [false, true, true, true]),
        ('2', [true, true, true, false]),
        ('3', [true, false, true, true]),
        ('4', [true, true, false, true]),
        ('5', [false, true, true, false]),
        ('6', [false, false, true, true]),
        ('7', [false, true, false, true]),
        ('8', [true, false, true, false]),
        ('9', [true, true, false, false]),
        ('A', [true, false, false, true]),
        ('B', [false, false, true, false]),
        ('C', [false, true, false, false]),
        ('D', [false, false, false, true]),
        ('E', [true, false, false, false]),
    ];
    for (c, flags) in table.iter() {
        let g = Geometry::from_map_text(&all_open_with(*c)).unwrap();
        let board = EmptyBoard::new(&g, pos(0, 0));
        let p = pos(1, 1);
        assert_eq!(board.can_move(p, Direction::UP), flags[0], "{}", c);
        assert_eq!(board.can_move(p, Direction::DOWN), flags[1], "{}", c);
        assert_eq!(board.can_move(p, Direction::LEFT), flags[2], "{}", c);
        assert_eq!(board.can_move(p, Direction::RIGHT), flags[3], "{}", c);
        // the neighbours' sides looking back at the tile agree
        assert_eq!(board.can_move(pos(1, 0), Direction::DOWN), flags[0], "{}", c);
        assert_eq!(board.can_move(pos(1, 2), Direction::UP), flags[1], "{}", c);
        assert_eq!(board.can_move(pos(0, 1), Direction::RIGHT), flags[2], "{}", c);
        assert_eq!(board.can_move(pos(2, 1), Direction::LEFT), flags[3], "{}", c);
    }
}

#[test]
fn unknown_characters_close_every_side() {
    let g = Geometry::from_map_text(&all_open_with('Z')).unwrap();
    let board = EmptyBoard::new(&g, pos(0, 0));
    let p = pos(1, 1);
    assert!(!board.can_move(p, Direction::UP));
    assert!(!board.can_move(p, Direction::DOWN));
    assert!(!board.can_move(p, Direction::LEFT));
    assert!(!board.can_move(p, Direction::RIGHT));
}

#[test]
fn wall_symmetry_across_shared_edges() {
    let g = standard_map();
    let board = EmptyBoard::new(&g, pos(0, 0));
    for x in 0..16i8 {
        for y in 0..16i8 {
            if y + 1 < 16 {
                assert_eq!(
                    board.can_move(pos(x, y), Direction::DOWN),
                    board.can_move(pos(x, y + 1), Direction::UP),
                );
            }
            if x + 1 < 16 {
                assert_eq!(
                    board.can_move(pos(x, y), Direction::RIGHT),
                    board.can_move(pos(x + 1, y), Direction::LEFT),
                );
            }
        }
    }
}

#[test]
fn borders_are_closed() {
    let g = standard_map();
    let board = EmptyBoard::new(&g, pos(0, 0));
    for i in 0..16i8 {
        assert!(!board.can_move(pos(i, 0), Direction::UP));
        assert!(!board.can_move(pos(i, 15), Direction::DOWN));
        assert!(!board.can_move(pos(0, i), Direction::LEFT));
        assert!(!board.can_move(pos(15, i), Direction::RIGHT));
    }
}

#[test]
fn slide_destinations_are_idempotent() {
    let g = standard_map();
    let board = EmptyBoard::new(&g, pos(0, 0));
    let dirs = [Direction::UP, Direction::DOWN, Direction::LEFT, Direction::RIGHT];
    for x in 0..16i8 {
        for y in 0..16i8 {
            let tile = board.get_tile(pos(x, y));
            for d in dirs.iter() {
                let dest = match d {
                    Direction::UP => tile.up_move,
                    Direction::DOWN => tile.down_move,
                    Direction::LEFT => tile.left_move,
                    Direction::RIGHT => tile.right_move,
                };
                let dest_tile = board.get_tile(dest);
                let again = match d {
                    Direction::UP => dest_tile.up_move,
                    Direction::DOWN => dest_tile.down_move,
                    Direction::LEFT => dest_tile.left_move,
                    Direction::RIGHT => dest_tile.right_move,
                };
                assert_eq!(again, dest);
                // a slide rests where the wall flag is closed, or did not move
                assert!(!can_move(dest_tile, *d) || dest == pos(x, y));
            }
        }
    }
}

#[test]
fn adjacent_positions_step_one_tile() {
    let g = standard_map();
    let board = EmptyBoard::new(&g, pos(0, 0));
    let tile = board.get_tile(pos(3, 4));
    assert_eq!(tile.get_adjacent_position(Direction::UP), pos(3, 3));
    assert_eq!(tile.get_adjacent_position(Direction::DOWN), pos(3, 5));
    assert_eq!(tile.get_adjacent_position(Direction::LEFT), pos(2, 4));
    assert_eq!(tile.get_adjacent_position(Direction::RIGHT), pos(4, 4));
}

#[test]
fn map_rejects_a_long_line() {
    let mut lines = vec!["00000000000000000"];
    for _ in 1..16 {
        lines.push("0000000000000000");
    }
    assert_eq!(Geometry::from_map_text(&text(&lines)).unwrap_err(), MapError::LineTooLong);
}

#[test]
fn map_rejects_content_past_sixteen_lines() {
    let mut lines = Vec::new();
    for _ in 0..16 {
        lines.push("0000000000000000");
    }
    lines.push("0");
    assert_eq!(Geometry::from_map_text(&text(&lines)).unwrap_err(), MapError::TooManyLines);
}

#[test]
fn map_accepts_trailing_newline_and_short_input() {
    let mut t = {
        let lines = standard_lines();
        let refs: Vec<&str> = lines.iter().map(|s| s.as_str()).collect();
        text(&refs)
    };
    t.push(b'\n');
    assert!(Geometry::from_map_text(&t).is_ok());
    // fewer lines and shorter lines are tolerated: missing tiles stay closed
    let g = Geometry::from_map_text(&text(&["00", "0"])).unwrap();
    let board = EmptyBoard::new(&g, pos(0, 0));
    assert!(!board.can_move(pos(1, 0), Direction::DOWN));
    assert!(board.can_move(pos(0, 0), Direction::DOWN));
    assert!(!board.can_move(pos(5, 5), Direction::RIGHT));
}

#[test]
fn valid_directions_on_empty_board_follow_walls() {
    let g = standard_map();
    let board = EmptyBoard::new(&g, pos(0, 0));
    assert_eq!(
        board.get_valid_directions(pos(0, 0)),
        vec![Direction::DOWN, Direction::RIGHT],
    );
    assert_eq!(
        board.get_valid_directions(pos(3, 3)),
        vec![Direction::UP, Direction::DOWN, Direction::LEFT, Direction::RIGHT],
    );
    // left side of the central block
    assert_eq!(
        board.get_valid_directions(pos(6, 7)),
        vec![Direction::UP, Direction::DOWN, Direction::LEFT],
    );
}

#[test]
fn trailing_carriage_returns_are_ignored() {
    // two-character line endings decode exactly like plain ones
    let lines = standard_lines();
    let crlf: Vec<u8> = lines
        .iter()
        .map(|l| format!("{}\r", l))
        .collect::<Vec<_>>()
        .join("\n")
        .into_bytes();
    let g1 = Geometry::from_map_text(&crlf).unwrap();
    let g2 = standard_map();
    let b1 = EmptyBoard::new(&g1, pos(0, 0));
    let b2 = EmptyBoard::new(&g2, pos(0, 0));
    let dirs = [Direction::UP, Direction::DOWN, Direction::LEFT, Direction::RIGHT];
    for x in 0..16i8 {
        for y in 0..16i8 {
            for d in dirs.iter() {
                assert_eq!(b1.can_move(pos(x, y), *d), b2.can_move(pos(x, y), *d));
            }
        }
    }
}

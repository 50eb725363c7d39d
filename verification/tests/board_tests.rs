use ricochet::board::Board;
use ricochet::board::Colour;
use ricochet::geometry::Direction;
use ricochet::geometry::Geometry;
use ricochet::geometry::Position;

fn pos(x: i8, y: i8) -> Position {
    Position { x, y }
}

/// Borders closed, the central two-by-two block walled off, a wall under
/// (5,14) and (6,14), a wall under (0,5), and a wall right of (6,5).
fn standard_map() -> Geometry {
    let mut lines = Vec::new();
    lines.push("7111111111111115".to_string());
    for y in 1..15 {
        let mut line = String::new();
        for x in 0..16 {
            let c = if (7..=8).contains(&x) && (7..=8).contains(&y) {
                'F'
            } else if x == 0 && y == 5 {
                'A'
            } else if x == 0 {
                '4'
            } else if x == 15 {
                '2'
            } else if x == 6 && y == 5 {
                '2'
            } else if (x == 5 || x == 6) && y == 14 {
                '3'
            } else {
                '0'
            };
            line.push(c);
        }
        lines.push(line);
    }
    lines.push("A333333333333338".to_string());
    Geometry::from_map_text(&lines.join("\n").into_bytes()).unwrap()
}

#[test]
fn move_robot_slides_to_a_wall() {
    let g = standard_map();
    let mut b = Board::new(&g, pos(3, 3), pos(12, 12), pos(13, 12), pos(14, 12), pos(6, 14));
    let r = b.move_robot(Colour::RED, Direction::UP);
    assert_eq!(r, pos(3, 0));
    assert_eq!(b.red, pos(3, 0));
    assert_eq!(b.green, pos(12, 12));
}

#[test]
fn move_robot_stops_on_the_tile_before_a_robot() {
    let g = standard_map();
    let mut b = Board::new(&g, pos(3, 3), pos(3, 10), pos(13, 12), pos(14, 12), pos(6, 14));
    let r = b.move_robot(Colour::RED, Direction::DOWN);
    assert_eq!(r, pos(3, 9));
}

#[test]
fn move_robot_takes_the_nearest_of_several_blockers() {
    let g = standard_map();
    let mut b = Board::new(&g, pos(0, 5), pos(6, 5), pos(10, 5), pos(14, 12), pos(6, 14));
    // green at (6,5) is nearer than blue at (10,5)
    let r = b.move_robot(Colour::RED, Direction::RIGHT);
    assert_eq!(r, pos(5, 5));
}

#[test]
fn move_robot_without_motion_keeps_the_position() {
    let g = standard_map();
    let mut b = Board::new(&g, pos(0, 0), pos(12, 12), pos(13, 12), pos(14, 12), pos(6, 14));
    assert_eq!(b.move_robot(Colour::RED, Direction::UP), pos(0, 0));
    assert_eq!(b.move_robot(Colour::RED, Direction::LEFT), pos(0, 0));
    // a robot immediately alongside blocks the same way a wall does
    let mut b2 = Board::new(&g, pos(3, 3), pos(4, 3), pos(13, 12), pos(14, 12), pos(6, 14));
    assert_eq!(b2.move_robot(Colour::RED, Direction::RIGHT), pos(3, 3));
}

#[test]
fn move_robot_by_each_colour() {
    let g = standard_map();
    let mut b = Board::new(&g, pos(1, 1), pos(2, 2), pos(3, 3), pos(4, 4), pos(6, 14));
    b.move_robot(Colour::GREEN, Direction::RIGHT);
    assert_eq!(b.green, pos(15, 2));
    b.move_robot(Colour::BLUE, Direction::LEFT);
    assert_eq!(b.blue, pos(0, 3));
    b.move_robot(Colour::YELLOW, Direction::DOWN);
    assert_eq!(b.yellow, pos(4, 15));
    assert_eq!(b.red, pos(1, 1));
}

#[test]
fn valid_directions_follow_walls_and_robots() {
    let g = standard_map();
    let b = Board::new(&g, pos(0, 0), pos(1, 0), pos(10, 5), pos(14, 12), pos(6, 14));
    // red sits in the corner with green on its right
    let dirs = b.get_valid_directions(Colour::RED);
    assert_eq!(dirs.len(), 1);
    assert_eq!(dirs[0], Direction::DOWN);
    // green has the wall above and red on its left
    let dirs = b.get_valid_directions(Colour::GREEN);
    assert_eq!(dirs.len(), 2);
    assert_eq!(dirs[0], Direction::DOWN);
    assert_eq!(dirs[1], Direction::RIGHT);
    // blue is free on all four sides, fixed order up, down, left, right
    let dirs = b.get_valid_directions(Colour::BLUE);
    assert_eq!(dirs.len(), 4);
    assert_eq!(dirs[0], Direction::UP);
    assert_eq!(dirs[1], Direction::DOWN);
    assert_eq!(dirs[2], Direction::LEFT);
    assert_eq!(dirs[3], Direction::RIGHT);
}

#[test]
fn valid_directions_are_exactly_the_moving_ones() {
    let g = standard_map();
    let b = Board::new(&g, pos(0, 0), pos(1, 0), pos(5, 14), pos(14, 12), pos(6, 14));
    let colours = [Colour::RED, Colour::GREEN, Colour::BLUE, Colour::YELLOW];
    let dirs = [Direction::UP, Direction::DOWN, Direction::LEFT, Direction::RIGHT];
    for colour in colours.iter() {
        let valid = b.get_valid_directions(*colour);
        for d in dirs.iter() {
            let mut probe = b;
            let before = probe.get_robot_by_colour(*colour);
            let after = probe.move_robot(*colour, *d);
            let listed = (0..valid.len()).any(|i| valid[i] == *d);
            assert_eq!(listed, after != before);
        }
    }
}

#[test]
fn is_solved_tracks_each_colour() {
    let g = standard_map();
    let b = Board::new(&g, pos(6, 14), pos(1, 0), pos(2, 0), pos(3, 0), pos(6, 14));
    assert!(b.is_solved(Colour::RED));
    assert!(!b.is_solved(Colour::GREEN));
    assert!(!b.is_solved(Colour::BLUE));
    assert!(!b.is_solved(Colour::YELLOW));
    assert_eq!(b.get_goal(), pos(6, 14));
}

#[test]
fn hash_packs_the_eight_nibbles() {
    let g = standard_map();
    let b = Board::new(&g, pos(1, 2), pos(3, 4), pos(5, 6), pos(9, 10), pos(6, 14));
    let expected: u64 = 1
        + 2 * 16
        + 3 * 256
        + 4 * 4096
        + 5 * 65536
        + 6 * 1048576
        + 9 * 16777216
        + 10 * 268435456;
    assert_eq!(b.hash(), expected);
    assert_eq!(b.permuted_hashes()[0], expected);
}

#[test]
fn permuted_hashes_are_shared_by_permuted_states() {
    let g = standard_map();
    let b1 = Board::new(&g, pos(1, 2), pos(3, 4), pos(5, 6), pos(9, 10), pos(6, 14));
    // same red, non-red robots cycled
    let b2 = Board::new(&g, pos(1, 2), pos(5, 6), pos(9, 10), pos(3, 4), pos(6, 14));
    let mut h1 = b1.permuted_hashes();
    let mut h2 = b2.permuted_hashes();
    h1.sort();
    h2.sort();
    assert_eq!(h1, h2);
    assert!(h1.contains(&b2.hash()));
    // moving red changes all six
    let b3 = Board::new(&g, pos(2, 2), pos(3, 4), pos(5, 6), pos(9, 10), pos(6, 14));
    let h3 = b3.permuted_hashes();
    for h in h3.iter() {
        assert!(!h1.contains(h));
    }
}

#[test]
fn get_robots_lists_the_four_positions() {
    let g = standard_map();
    let b = Board::new(&g, pos(1, 2), pos(3, 4), pos(5, 6), pos(9, 10), pos(6, 14));
    assert_eq!(b.get_robots(), vec![pos(1, 2), pos(3, 4), pos(5, 6), pos(9, 10)]);
    assert_eq!(b.get_robot_by_colour(Colour::YELLOW), pos(9, 10));
}

use ricochet::geometry::EmptyBoard;
use ricochet::geometry::Geometry;
use ricochet::geometry::Position;
use ricochet::heuristic::flood_fill;

fn pos(x: i8, y: i8) -> Position {
    Position { x, y }
}

/// Borders closed, the central two-by-two block walled off, a wall under
/// (5,14) and (6,14), a wall under (0,5), and a wall right of (6,5).
fn standard_map() -> Geometry {
    let mut lines = Vec::new();
    lines.push("7111111111111115".to_string());
    for y in 1..15 {
        let mut line = String::new();
        for x in 0..16 {
            let c = if (7..=8).contains(&x) && (7..=8).contains(&y) {
                'F'
            } else if x == 0 && y == 5 {
                'A'
            } else if x == 0 {
                '4'
            } else if x == 15 {
                '2'
            } else if x == 6 && y == 5 {
                '2'
            } else if (x == 5 || x == 6) && y == 14 {
                '3'
            } else {
                '0'
            };
            line.push(c);
        }
        lines.push(line);
    }
    lines.push("A333333333333338".to_string());
    Geometry::from_map_text(&lines.join("\n").into_bytes()).unwrap()
}

#[test]
fn goal_gets_distance_zero() {
    let g = standard_map();
    let goal = pos(6, 14);
    let table = flood_fill(&EmptyBoard::new(&g, goal));
    assert_eq!(table.get(goal), 0);
}

#[test]
fn every_playable_tile_is_reached() {
    let g = standard_map();
    let table = flood_fill(&EmptyBoard::new(&g, pos(6, 14)));
    for x in 0..16i8 {
        for y in 0..16i8 {
            let central = (7..=8).contains(&x) && (7..=8).contains(&y);
            let v = table.get(pos(x, y));
            assert!(v >= 0);
            if central {
                // the walled-off block stays at the unreached sentinel
                assert_eq!(v, 127);
            } else {
                assert!(v < 127, "({}, {})", x, y);
                assert!(v > 0 || (x == 6 && y == 14));
            }
        }
    }
}

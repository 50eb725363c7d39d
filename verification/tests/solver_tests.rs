use ricochet::board::Board;
use ricochet::board::Colour;
use ricochet::cache::DistanceCache;
use ricochet::driver::is_playable;
use ricochet::driver::is_valid_start;
use ricochet::geometry::EmptyBoard;
use ricochet::geometry::Geometry;
use ricochet::geometry::Position;
use ricochet::heuristic::HeuristicTable;
use ricochet::heuristic::flood_fill;
use ricochet::packing::decode_path;
use ricochet::solver::populate_known_solutions;
use ricochet::solver::solve;

fn pos(x: i8, y: i8) -> Position {
    Position { x, y }
}

/// Borders closed, the central two-by-two block walled off, a wall under
/// (5,14) and (6,14), a wall under (0,5), and a wall right of (6,5).
fn standard_map() -> Geometry {
    let mut lines = Vec::new();
    lines.push("7111111111111115".to_string());
    for y in 1..15 {
        let mut line = String::new();
        for x in 0..16 {
            let c = if (7..=8).contains(&x) && (7..=8).contains(&y) {
                'F'
            } else if x == 0 && y == 5 {
                'A'
            } else if x == 0 {
                '4'
            } else if x == 15 {
                '2'
            } else if x == 6 && y == 5 {
                '2'
            } else if (x == 5 || x == 6) && y == 14 {
                '3'
            } else {
                '0'
            };
            line.push(c);
        }
        lines.push(line);
    }
    lines.push("A333333333333338".to_string());
    Geometry::from_map_text(&lines.join("\n").into_bytes()).unwrap()
}

fn heuristic_for(g: &Geometry, goal: Position) -> HeuristicTable {
    flood_fill(&EmptyBoard::new(g, goal))
}

#[test]
fn single_step_solution() {
    let g = standard_map();
    let goal = pos(6, 14);
    let flooded = heuristic_for(&g, goal);
    let cache = DistanceCache::new();
    let board = Board::new(&g, pos(6, 13), pos(1, 1), pos(2, 1), pos(3, 1), goal);
    let sol = solve(board, Colour::RED, &cache, &flooded).unwrap();
    assert_eq!(sol.length, 1);
    let moves = decode_path(sol.path.directions, sol.path.colours, sol.length);
    assert_eq!(moves.len(), 1);
    assert_eq!(moves[0].colour, Colour::RED);
    let mut replayed = board;
    replayed.move_robot(moves[0].colour, moves[0].direction);
    assert_eq!(replayed.red, goal);
}

#[test]
fn two_robot_blocker_solution() {
    let g = standard_map();
    let goal = pos(6, 14);
    let flooded = heuristic_for(&g, goal);
    let cache = DistanceCache::new();
    // red needs another robot dropped onto (5,14) to stop its leftward slide
    let board = Board::new(&g, pos(15, 14), pos(5, 0), pos(10, 2), pos(12, 3), goal);
    let sol = solve(board, Colour::RED, &cache, &flooded).unwrap();
    assert_eq!(sol.length, 2);
    let moves = decode_path(sol.path.directions, sol.path.colours, sol.length);
    let mut replayed = board;
    for m in moves.iter() {
        replayed.move_robot(m.colour, m.direction);
    }
    assert_eq!(replayed.red, goal);
}

#[test]
fn target_already_on_goal_solves_in_zero_moves() {
    let g = standard_map();
    let goal = pos(6, 14);
    let flooded = heuristic_for(&g, goal);
    let cache = DistanceCache::new();
    let board = Board::new(&g, goal, pos(1, 1), pos(2, 1), pos(3, 1), goal);
    let sol = solve(board, Colour::RED, &cache, &flooded).unwrap();
    assert_eq!(sol.length, 0);
    assert_eq!(decode_path(sol.path.directions, sol.path.colours, sol.length), vec![]);
}

#[test]
fn fixture_solution_length() {
    let g = standard_map();
    let goal = pos(6, 14);
    let flooded = heuristic_for(&g, goal);
    let cache = DistanceCache::new();
    let board = Board::new(&g, pos(0, 0), pos(2, 0), pos(3, 0), pos(4, 0), goal);
    let sol = solve(board, Colour::RED, &cache, &flooded).unwrap();
    // golden value on the standard map: down to (0,5), right to (6,5),
    // down to the goal
    assert_eq!(sol.length, 3);
    let moves = decode_path(sol.path.directions, sol.path.colours, sol.length);
    let mut replayed = board;
    for m in moves.iter() {
        replayed.move_robot(m.colour, m.direction);
    }
    assert!(replayed.is_solved(Colour::RED));
}

#[test]
fn solved_length_is_the_same_for_all_six_orderings() {
    let g = standard_map();
    let goal = pos(6, 14);
    let flooded = heuristic_for(&g, goal);
    let a = pos(2, 0);
    let b = pos(3, 0);
    let c = pos(4, 0);
    let orderings = [
        [a, b, c],
        [a, c, b],
        [b, a, c],
        [b, c, a],
        [c, a, b],
        [c, b, a],
    ];
    let mut lengths = Vec::new();
    for o in orderings.iter() {
        let cache = DistanceCache::new();
        let board = Board::new(&g, pos(0, 0), o[0], o[1], o[2], goal);
        let sol = solve(board, Colour::RED, &cache, &flooded).unwrap();
        lengths.push(sol.length);
    }
    for l in lengths.iter() {
        assert_eq!(*l, lengths[0]);
    }
}

#[test]
fn cache_hit_returns_the_recorded_remaining_distance() {
    let g = standard_map();
    let goal = pos(6, 14);
    let flooded = heuristic_for(&g, goal);
    let mut cache = DistanceCache::new();
    let board = Board::new(&g, pos(0, 0), pos(2, 0), pos(3, 0), pos(4, 0), goal);
    let sol = solve(board, Colour::RED, &cache, &flooded).unwrap();
    populate_known_solutions(&board, &sol, &mut cache);

    // every state along the recovered path is cached with its remaining
    // distance, under its own fingerprint and the permuted ones
    let moves = decode_path(sol.path.directions, sol.path.colours, sol.length);
    let mut state = board;
    assert!(cache.contains_key(state.hash()));
    assert_eq!(cache.get(state.hash()), Some(sol.length));
    assert!(!cache.contains_key(u64::MAX));
    for (i, m) in moves.iter().enumerate() {
        state.move_robot(m.colour, m.direction);
        let remaining = sol.length - 1 - i as i16;
        assert_eq!(cache.get(state.hash()), Some(remaining));
        for h in state.permuted_hashes().iter() {
            assert_eq!(cache.get(*h), Some(remaining));
        }
    }

    // solving from a state on the path yields exactly the cached value
    let mut second = board;
    let first_move = moves[0];
    second.move_robot(first_move.colour, first_move.direction);
    let sol2 = solve(second, Colour::RED, &cache, &flooded).unwrap();
    assert_eq!(sol2.length, sol.length - 1);
}

#[test]
fn playable_tiles_exclude_the_central_block() {
    let mut count = 0;
    for x in 0..16i8 {
        for y in 0..16i8 {
            if is_playable(pos(x, y)) {
                count += 1;
            }
        }
    }
    assert_eq!(count, 252);
    assert!(!is_playable(pos(7, 7)));
    assert!(!is_playable(pos(8, 8)));
    assert!(!is_playable(pos(16, 3)));
    assert!(is_playable(pos(6, 7)));
}

#[test]
fn valid_starts_need_distinct_playable_tiles() {
    assert!(is_valid_start(pos(0, 0), pos(2, 0), pos(3, 0), pos(4, 0)));
    assert!(!is_valid_start(pos(0, 0), pos(0, 0), pos(3, 0), pos(4, 0)));
    assert!(!is_valid_start(pos(7, 7), pos(2, 0), pos(3, 0), pos(4, 0)));
    assert!(!is_valid_start(pos(0, 0), pos(2, 0), pos(4, 0), pos(4, 0)));
}

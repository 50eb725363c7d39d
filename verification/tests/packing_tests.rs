use ricochet::board::Colour;
use ricochet::geometry::Direction;
use ricochet::packing::Move;
use ricochet::packing::colour_to_int;
use ricochet::packing::decode_path;
use ricochet::packing::four_pow;
use ricochet::packing::to_colour;
use ricochet::packing::to_direction;
use ricochet::packing::to_int;

/// The packed history words of a move sequence: the codes of move i stand at
/// base-4 digit i, counting from one.
fn encode(moves: &[Move]) -> (u64, u64) {
    let mut dirs: u64 = 0;
    let mut cols: u64 = 0;
    for (i, m) in moves.iter().enumerate() {
        let weight = four_pow(i as u64 + 1);
        dirs += to_int(m.direction) * weight;
        cols += colour_to_int(m.colour) * weight;
    }
    (dirs, cols)
}

#[test]
fn direction_codes_round_trip() {
    let dirs = [Direction::UP, Direction::RIGHT, Direction::DOWN, Direction::LEFT];
    for (i, d) in dirs.iter().enumerate() {
        assert_eq!(to_int(*d), i as u64);
        assert_eq!(to_direction(i as u64), *d);
    }
}

#[test]
fn colour_codes_round_trip() {
    let cols = [Colour::RED, Colour::GREEN, Colour::BLUE, Colour::YELLOW];
    for (i, c) in cols.iter().enumerate() {
        assert_eq!(colour_to_int(*c), i as u64);
        assert_eq!(to_colour(i as u64), *c);
    }
}

#[test]
fn four_pow_matches_powers_of_four() {
    assert_eq!(four_pow(0), 1);
    assert_eq!(four_pow(1), 4);
    assert_eq!(four_pow(5), 1024);
    assert_eq!(four_pow(31), 0x4000_0000_0000_0000);
}

#[test]
fn decode_of_hand_packed_words() {
    // moves: (RIGHT, GREEN), (UP, RED), (DOWN, YELLOW)
    let dirs: u64 = 1 * 4 + 0 * 16 + 2 * 64;
    let cols: u64 = 1 * 4 + 0 * 16 + 3 * 64;
    let moves = decode_path(dirs, cols, 3);
    assert_eq!(
        moves,
        vec![
            Move { direction: Direction::RIGHT, colour: Colour::GREEN },
            Move { direction: Direction::UP, colour: Colour::RED },
            Move { direction: Direction::DOWN, colour: Colour::YELLOW },
        ],
    );
}

#[test]
fn packing_round_trips_through_decode() {
    let sample = vec![
        Move { direction: Direction::DOWN, colour: Colour::RED },
        Move { direction: Direction::UP, colour: Colour::BLUE },
        Move { direction: Direction::LEFT, colour: Colour::YELLOW },
        Move { direction: Direction::RIGHT, colour: Colour::GREEN },
        Move { direction: Direction::UP, colour: Colour::RED },
    ];
    let (dirs, cols) = encode(&sample);
    assert_eq!(decode_path(dirs, cols, sample.len() as i16), sample);
}

#[test]
fn packing_round_trips_at_the_longest_length() {
    // thirty-one moves, the most the packing can carry
    let mut sample = Vec::new();
    let dirs = [Direction::UP, Direction::RIGHT, Direction::DOWN, Direction::LEFT];
    let cols = [Colour::RED, Colour::GREEN, Colour::BLUE, Colour::YELLOW];
    for i in 0..31 {
        sample.push(Move { direction: dirs[(i * 3) % 4], colour: cols[(i * 5) % 4] });
    }
    let (d, c) = encode(&sample);
    assert_eq!(decode_path(d, c, 31), sample);
}

#[test]
fn empty_history_decodes_to_no_moves() {
    assert_eq!(decode_path(0, 0, 0), vec![]);
}

use spatial2d::{Direction, IVec2, Orientation};

const ALL: [Direction; 8] = [
    Direction::North,
    Direction::South,
    Direction::East,
    Direction::West,
    Direction::NorthEast,
    Direction::SouthEast,
    Direction::SouthWest,
    Direction::NorthWest,
];

#[test]
fn all_lists_cardinals_then_diagonals() {
    assert_eq!(Direction::all(), ALL);
    assert_eq!(
        Direction::all_no_diag(),
        [Direction::North, Direction::South, Direction::East, Direction::West]
    );
    assert_eq!(
        Direction::all_diag_only(),
        [
            Direction::NorthEast,
            Direction::SouthEast,
            Direction::SouthWest,
            Direction::NorthWest
        ]
    );
}

#[test]
fn vectors_point_north_towards_smaller_y() {
    assert_eq!(Direction::North.to_vector(), IVec2::new(0, -1));
    assert_eq!(Direction::East.to_vector(), IVec2::new(1, 0));
    assert_eq!(Direction::South.to_vector(), IVec2::new(0, 1));
    assert_eq!(Direction::West.to_vector(), IVec2::new(-1, 0));
    assert_eq!(Direction::NorthEast.to_vector(), IVec2::new(1, -1));
    assert_eq!(Direction::SouthEast.to_vector(), IVec2::new(1, 1));
    assert_eq!(Direction::SouthWest.to_vector(), IVec2::new(-1, 1));
    assert_eq!(Direction::NorthWest.to_vector(), IVec2::new(-1, -1));
}

#[test]
fn all_vectors_follow_the_lists_of_directions() {
    assert_eq!(Direction::all_vectors(), Direction::all().map(|d| d.to_vector()));
    assert_eq!(
        Direction::all_vectors_no_diag(),
        Direction::all_no_diag().map(|d| d.to_vector())
    );
    assert_eq!(
        Direction::all_vectors_diag_only(),
        Direction::all_diag_only().map(|d| d.to_vector())
    );
    assert_eq!(Direction::all_vectors_no_diag()[1], IVec2::new(0, 1));
}

#[test]
fn from_vector_inverts_to_vector() {
    for direction in ALL {
        assert_eq!(Direction::from_vector(direction.to_vector()), direction);
    }
}

#[test]
fn from_index_counts_cardinals_first() {
    let expected = [
        Direction::North,
        Direction::East,
        Direction::South,
        Direction::West,
        Direction::NorthEast,
        Direction::SouthEast,
        Direction::SouthWest,
        Direction::NorthWest,
    ];
    for (idx, direction) in expected.into_iter().enumerate() {
        assert_eq!(Direction::from_index(idx as u32), direction);
    }
}

#[test]
fn cardinal_directions_have_an_orientation() {
    assert!(Direction::North.is_cardinal());
    assert!(Direction::West.is_cardinal());
    assert!(!Direction::SouthEast.is_cardinal());
    assert_eq!(Direction::North.to_orientation(), Orientation::Vertical);
    assert_eq!(Direction::South.to_orientation(), Orientation::Vertical);
    assert_eq!(Direction::East.to_orientation(), Orientation::Horizontal);
    assert_eq!(Direction::West.to_orientation(), Orientation::Horizontal);
}

#[test]
fn opposite_negates_the_vector() {
    for direction in ALL {
        let there = direction.to_vector();
        let back = direction.opposite().to_vector();
        assert_eq!((back.x, back.y), (-there.x, -there.y));
        assert_eq!(direction.opposite().opposite(), direction);
    }
    assert_eq!(Direction::NorthEast.opposite(), Direction::SouthWest);
}

#[test]
fn quarter_turns() {
    assert_eq!(Direction::North.turn_left_90(), Direction::West);
    assert_eq!(Direction::North.turn_right_90(), Direction::East);
    assert_eq!(Direction::SouthEast.turn_left_90(), Direction::NorthEast);
    assert_eq!(Direction::SouthEast.turn_right_90(), Direction::SouthWest);
    for direction in ALL {
        assert_eq!(direction.turn_left_90().turn_right_90(), direction);
        assert_eq!(direction.turn_right_90().turn_right_90(), direction.opposite());
    }
}

#[test]
fn eighth_turns() {
    assert_eq!(Direction::North.turn_left_45(), Direction::NorthWest);
    assert_eq!(Direction::North.turn_right_45(), Direction::NorthEast);
    assert_eq!(Direction::NorthWest.turn_right_45(), Direction::North);
    assert_eq!(Direction::SouthWest.turn_left_45(), Direction::South);
    for direction in ALL {
        assert_eq!(direction.turn_left_45().turn_right_45(), direction);
        assert_eq!(direction.turn_right_45().turn_right_45(), direction.turn_right_90());
        assert_eq!(direction.turn_left_45().turn_left_45(), direction.turn_left_90());
    }
}

#[test]
fn orientation_opposite_and_coin() {
    assert_eq!(Orientation::Vertical.opposite(), Orientation::Horizontal);
    assert_eq!(Orientation::Horizontal.opposite(), Orientation::Vertical);
    assert_eq!(Orientation::from_coin(true), Orientation::Vertical);
    assert_eq!(Orientation::from_coin(false), Orientation::Horizontal);
}

#[test]
fn random_directions_are_of_the_kind_asked_for() {
    let mut seen = std::collections::HashSet::new();
    for _ in 0..400 {
        seen.insert(Direction::random());
        assert!(Direction::random_no_diag().is_cardinal());
        assert!(!Direction::random_diag_only().is_cardinal());
    }
    assert!(seen.len() > 1);
}

#[test]
fn random_orientation_draws_from_the_generator() {
    let mut generator =
        <rng::xorshift::Xorshiftplus128Rng as rand::SeedableRng<[u64; 2]>>::from_seed([7, 11]);
    let mut vertical = 0;
    for _ in 0..200 {
        if Orientation::random(&mut generator) == Orientation::Vertical {
            vertical += 1;
        }
    }
    assert!(vertical > 0 && vertical < 200);
}

#[test]
fn names_are_written_with_a_hyphen() {
    assert_eq!(Direction::North.name(), "North");
    assert_eq!(Direction::East.name(), "East");
    assert_eq!(Direction::South.name(), "South");
    assert_eq!(Direction::West.name(), "West");
    assert_eq!(Direction::NorthEast.name(), "North-East");
    assert_eq!(Direction::SouthEast.name(), "South-East");
    assert_eq!(Direction::SouthWest.name(), "South-West");
    assert_eq!(Direction::NorthWest.name(), "North-West");
}

//! The eight compass directions and the two orientations of an axis.

use vstd::prelude::*;
use crate::vec2::IVec2;

verus! {

/// One of the eight ways from a cell to a neighbour. North is towards
/// smaller `y`, East towards larger `x`.
#[derive(Copy, Clone, Debug, PartialEq, Eq, Hash, Structural)]
pub enum Direction {
    North,
    East,
    South,
    West,
    NorthEast,
    SouthEast,
    SouthWest,
    NorthWest,
}

/// The axis along which something extends.
#[derive(Copy, Clone, Debug, PartialEq, Eq, Hash, Structural)]
pub enum Orientation {
    Vertical,
    Horizontal,
}

/// The offset of one step in the given direction.
pub open spec fn vector_of(direction: Direction) -> IVec2 {
    match direction {
        Direction::North => IVec2 { x: 0, y: (-1) as i32 },
        Direction::East => IVec2 { x: 1, y: 0 },
        Direction::South => IVec2 { x: 0, y: 1 },
        Direction::West => IVec2 { x: (-1) as i32, y: 0 },
        Direction::NorthEast => IVec2 { x: 1, y: (-1) as i32 },
        Direction::SouthEast => IVec2 { x: 1, y: 1 },
        Direction::SouthWest => IVec2 { x: (-1) as i32, y: 1 },
        Direction::NorthWest => IVec2 { x: (-1) as i32, y: (-1) as i32 },
    }
}

/// Whether `v` is the offset of one step in some direction.
pub open spec fn is_unit_step(v: IVec2) -> bool {
    -1 <= v.x <= 1 && -1 <= v.y <= 1 && !(v.x == 0 && v.y == 0)
}

/// The direction reached from `direction` by `eighths` turns of 45 degrees
/// to the right.
pub open spec fn turned(direction: Direction, eighths: int) -> Direction {
    from_compass((compass_of(direction) + eighths) % 8)
}

/// The place of a direction on the compass, counted in eighths of a turn to
/// the right of North.
pub open spec fn compass_of(direction: Direction) -> int {
    match direction {
        Direction::North => 0,
        Direction::NorthEast => 1,
        Direction::East => 2,
        Direction::SouthEast => 3,
        Direction::South => 4,
        Direction::SouthWest => 5,
        Direction::West => 6,
        Direction::NorthWest => 7,
    }
}

/// The direction at a place on the compass.
pub open spec fn from_compass(place: int) -> Direction {
    if place == 0 {
        Direction::North
    } else if place == 1 {
        Direction::NorthEast
    } else if place == 2 {
        Direction::East
    } else if place == 3 {
        Direction::SouthEast
    } else if place == 4 {
        Direction::South
    } else if place == 5 {
        Direction::SouthWest
    } else if place == 6 {
        Direction::West
    } else {
        Direction::NorthWest
    }
}

/// The eight directions in the order in which they are listed.
pub open spec fn listed_directions() -> Seq<Direction> {
    seq![
        Direction::North,
        Direction::South,
        Direction::East,
        Direction::West,
        Direction::NorthEast,
        Direction::SouthEast,
        Direction::SouthWest,
        Direction::NorthWest,
    ]
}

/// The name of a direction as it is written out.
pub open spec fn name_of(direction: Direction) -> Seq<char> {
    match direction {
        Direction::North => "North"@,
        Direction::East => "East"@,
        Direction::South => "South"@,
        Direction::West => "West"@,
        Direction::NorthEast => "North-East"@,
        Direction::SouthEast => "South-East"@,
        Direction::SouthWest => "South-West"@,
        Direction::NorthWest => "North-West"@,
    }
}

impl Direction {
    /// The name of the direction as it is written out.
    pub fn name(&self) -> (name: &'static str)
        ensures
            name@ == name_of(*self),
    {
        match self {
            Direction::North => "North",
            Direction::East => "East",
            Direction::South => "South",
            Direction::West => "West",
            Direction::NorthEast => "North-East",
            Direction::SouthEast => "South-East",
            Direction::SouthWest => "South-West",
            Direction::NorthWest => "North-West",
        }
    }

    /// Whether the direction is one of North, East, South and West.
    pub open spec fn cardinal(self) -> bool {
        self == Direction::North || self == Direction::East || self == Direction::South || self
            == Direction::West
    }

    /// The direction picked by a number below eight: North, East, South,
    /// West, then the diagonals from North-East round to North-West.
    pub fn from_index(idx: u32) -> (direction: Self)
        requires
            idx < 8,
        ensures
            direction == match idx {
                0 => Direction::North,
                1 => Direction::East,
                2 => Direction::South,
                3 => Direction::West,
                4 => Direction::NorthEast,
                5 => Direction::SouthEast,
                6 => Direction::SouthWest,
                _ => Direction::NorthWest,
            },
    {
        match idx {
            0 => Self::North,
            1 => Self::East,
            2 => Self::South,
            3 => Self::West,
            4 => Self::NorthEast,
            5 => Self::SouthEast,
            6 => Self::SouthWest,
            _ => Self::NorthWest,
        }
    }

    /// The axis of a cardinal direction.
    pub fn to_orientation(&self) -> (orientation: Orientation)
        requires
            self.cardinal(),
        ensures
            orientation == if *self == Direction::North || *self == Direction::South {
                Orientation::Vertical
            } else {
                Orientation::Horizontal
            },
    {
        match self {
            Direction::North | Direction::South => Orientation::Vertical,
            _ => Orientation::Horizontal,
        }
    }

    /// Whether the direction is one of North, East, South and West.
    pub fn is_cardinal(&self) -> (b: bool)
        ensures
            b == self.cardinal(),
    {
        match self {
            Direction::North | Direction::East | Direction::South | Direction::West => true,
            _ => false,
        }
    }

    /// All eight directions: the cardinal ones, then the diagonal ones.
    pub fn all() -> (directions: [Self; 8])
        ensures
            directions@ == listed_directions(),
    {
        let directions = [
            Self::North,
            Self::South,
            Self::East,
            Self::West,
            Self::NorthEast,
            Self::SouthEast,
            Self::SouthWest,
            Self::NorthWest,
        ];
        assert(directions@ =~= listed_directions());
        directions
    }

    /// The four cardinal directions.
    pub fn all_no_diag() -> (directions: [Self; 4])
        ensures
            directions@ == listed_directions().subrange(0, 4),
    {
        let directions = [Self::North, Self::South, Self::East, Self::West];
        assert(directions@ =~= listed_directions().subrange(0, 4));
        directions
    }

    /// The four diagonal directions.
    pub fn all_diag_only() -> (directions: [Self; 4])
        ensures
            directions@ == listed_directions().subrange(4, 8),
    {
        let directions = [Self::NorthEast, Self::SouthEast, Self::SouthWest, Self::NorthWest];
        assert(directions@ =~= listed_directions().subrange(4, 8));
        directions
    }

    /// The offsets of all eight directions, in the order of `all`.
    pub fn all_vectors() -> (vectors: [IVec2; 8])
        ensures
            vectors@ == listed_directions().map_values(|d: Direction| vector_of(d)),
    {
        let vectors = [
            Self::North.to_vector(),
            Self::South.to_vector(),
            Self::East.to_vector(),
            Self::West.to_vector(),
            Self::NorthEast.to_vector(),
            Self::SouthEast.to_vector(),
            Self::SouthWest.to_vector(),
            Self::NorthWest.to_vector(),
        ];
        assert(vectors@ =~= listed_directions().map_values(|d: Direction| vector_of(d)));
        vectors
    }

    /// The offsets of the four cardinal directions, in the order of
    /// `all_no_diag`.
    pub fn all_vectors_no_diag() -> (vectors: [IVec2; 4])
        ensures
            vectors@ == listed_directions().subrange(0, 4).map_values(
                |d: Direction| vector_of(d),
            ),
    {
        let vectors = [
            Self::North.to_vector(),
            Self::South.to_vector(),
            Self::East.to_vector(),
            Self::West.to_vector(),
        ];
        assert(vectors@ =~= listed_directions().subrange(0, 4).map_values(
            |d: Direction| vector_of(d),
        ));
        vectors
    }

    /// The offsets of the four diagonal directions, in the order of
    /// `all_diag_only`.
    pub fn all_vectors_diag_only() -> (vectors: [IVec2; 4])
        ensures
            vectors@ == listed_directions().subrange(4, 8).map_values(
                |d: Direction| vector_of(d),
            ),
    {
        let vectors = [
            Self::NorthEast.to_vector(),
            Self::SouthEast.to_vector(),
            Self::SouthWest.to_vector(),
            Self::NorthWest.to_vector(),
        ];
        assert(vectors@ =~= listed_directions().subrange(4, 8).map_values(
            |d: Direction| vector_of(d),
        ));
        vectors
    }

    /// The offset of one step in this direction.
    pub fn to_vector(self) -> (v: IVec2)
        ensures
            v == vector_of(self),
    {
        match self {
            Self::North => IVec2::new(0, -1),
            Self::East => IVec2::new(1, 0),
            Self::South => IVec2::new(0, 1),
            Self::West => IVec2::new(-1, 0),
            Self::NorthEast => IVec2::new(1, -1),
            Self::SouthEast => IVec2::new(1, 1),
            Self::SouthWest => IVec2::new(-1, 1),
            Self::NorthWest => IVec2::new(-1, -1),
        }
    }

    /// The direction whose one-step offset is `vector`.
    pub fn from_vector(vector: IVec2) -> (direction: Self)
        requires
            is_unit_step(vector),
        ensures
            vector_of(direction) == vector,
    {
        if vector.y == -1 {
            if vector.x == 0 {
                Self::North
            } else if vector.x == 1 {
                Self::NorthEast
            } else {
                Self::NorthWest
            }
        } else if vector.y == 0 {
            if vector.x == 1 {
                Self::East
            } else {
                Self::West
            }
        } else {
            if vector.x == 0 {
                Self::South
            } else if vector.x == 1 {
                Self::SouthEast
            } else {
                Self::SouthWest
            }
        }
    }

    /// The direction half a turn away.
    #[must_use]
    pub fn opposite(self) -> (direction: Self)
        ensures
            direction == turned(self, 4),
            vector_of(direction).x == -vector_of(self).x,
            vector_of(direction).y == -vector_of(self).y,
    {
        match self {
            Self::North => Self::South,
            Self::South => Self::North,
            Self::East => Self::West,
            Self::West => Self::East,
            Self::NorthEast => Self::SouthWest,
            Self::SouthEast => Self::NorthWest,
            Self::SouthWest => Self::NorthEast,
            Self::NorthWest => Self::SouthEast,
        }
    }

    /// The direction a quarter turn to the left.
    #[must_use]
    pub fn turn_left_90(self) -> (direction: Self)
        ensures
            direction == turned(self, 6),
    {
        match self {
            Self::North => Self::West,
            Self::East => Self::North,
            Self::South => Self::East,
            Self::West => Self::South,
            Self::NorthEast => Self::NorthWest,
            Self::SouthEast => Self::NorthEast,
            Self::SouthWest => Self::SouthEast,
            Self::NorthWest => Self::SouthWest,
        }
    }

    /// The direction a quarter turn to the right.
    #[must_use]
    pub fn turn_right_90(self) -> (direction: Self)
        ensures
            direction == turned(self, 2),
    {
        match self {
            Self::North => Self::East,
            Self::East => Self::South,
            Self::South => Self::West,
            Self::West => Self::North,
            Self::NorthEast => Self::SouthEast,
            Self::SouthEast => Self::SouthWest,
            Self::SouthWest => Self::NorthWest,
            Self::NorthWest => Self::NorthEast,
        }
    }

    /// The direction an eighth of a turn to the left.
    #[must_use]
    pub fn turn_left_45(self) -> (direction: Self)
        ensures
            direction == turned(self, 7),
    {
        match self {
            Self::North => Self::NorthWest,
            Self::East => Self::NorthEast,
            Self::South => Self::SouthEast,
            Self::West => Self::SouthWest,
            Self::NorthEast => Self::North,
            Self::SouthEast => Self::East,
            Self::SouthWest => Self::South,
            Self::NorthWest => Self::West,
        }
    }

    /// The direction an eighth of a turn to the right.
    #[must_use]
    pub fn turn_right_45(self) -> (direction: Self)
        ensures
            direction == turned(self, 1),
    {
        match self {
            Self::North => Self::NorthEast,
            Self::East => Self::SouthEast,
            Self::South => Self::SouthWest,
            Self::West => Self::NorthWest,
            Self::NorthEast => Self::East,
            Self::SouthEast => Self::South,
            Self::SouthWest => Self::West,
            Self::NorthWest => Self::North,
        }
    }
}

impl Orientation {
    /// The other orientation.
    #[must_use]
    pub fn opposite(self) -> (other: Self)
        ensures
            other != self,
    {
        match self {
            Orientation::Vertical => Orientation::Horizontal,
            Orientation::Horizontal => Orientation::Vertical,
        }
    }

    /// The orientation picked by a coin: vertical on `true`.
    pub fn from_coin(heads: bool) -> (orientation: Self)
        ensures
            orientation == if heads {
                Orientation::Vertical
            } else {
                Orientation::Horizontal
            },
    {
        if heads {
            Self::Vertical
        } else {
            Self::Horizontal
        }
    }
}

} // verus!

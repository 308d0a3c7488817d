//! The six faces of the cube and how each is oriented in space.

use vstd::prelude::*;

verus! {

/// Number of faces of a cube.
pub const FACE_COUNT: usize = 6;

/// A face of the cube.
#[derive(Copy, Clone, Debug, Hash, Eq, PartialEq, Structural)]
pub enum Face {
    Back,
    Down,
    Front,
    Left,
    Right,
    Up,
}

/// What a component of a direction is taken from: the distance of the face
/// from the centre of the cube, or one of the two coordinates of the point
/// on the face.
#[derive(Copy, Clone, Debug, Eq, PartialEq, Structural)]
pub enum Source {
    One,
    X,
    Y,
}

/// One component of a direction: a source, taken as it is or negated.
#[derive(Copy, Clone, Debug, Eq, PartialEq, Structural)]
pub struct Component {
    pub source: Source,
    pub negated: bool,
}

/// How a face lies in space: where each component of the direction of a
/// point on the face comes from.
#[derive(Copy, Clone, Debug, Eq, PartialEq, Structural)]
pub struct Orientation {
    pub x: Component,
    pub y: Component,
    pub z: Component,
}

impl Component {
    /// The value of the component for a point `(x, y)` on a face at
    /// distance `unit`.
    pub open spec fn value(self, unit: int, x: int, y: int) -> int {
        let taken = match self.source {
            Source::One => unit,
            Source::X => x,
            Source::Y => y,
        };
        if self.negated {
            -taken
        } else {
            taken
        }
    }

    /// The value of the component for a point `(x, y)` on a face at
    /// distance `unit`.
    pub fn apply(&self, unit: i64, x: i64, y: i64) -> (value: i64)
        requires
            unit > i64::MIN,
            x > i64::MIN,
            y > i64::MIN,
        ensures
            value == self.value(unit as int, x as int, y as int),
    {
        let taken: i64 = match self.source {
            Source::One => unit,
            Source::X => x,
            Source::Y => y,
        };
        if self.negated {
            -taken
        } else {
            taken
        }
    }
}

impl Orientation {
    /// The direction of the point `(x, y)` on a face at distance
    /// `unit`.
    pub open spec fn direction(self, unit: int, x: int, y: int) -> (int, int, int) {
        (
            self.x.value(unit, x, y),
            self.y.value(unit, x, y),
            self.z.value(unit, x, y),
        )
    }

    /// The direction of the point `(x, y)` on a face at distance
    /// `unit`.
    pub fn apply(&self, unit: i64, x: i64, y: i64) -> (direction: (i64, i64, i64))
        requires
            unit > i64::MIN,
            x > i64::MIN,
            y > i64::MIN,
        ensures
            (direction.0 as int, direction.1 as int, direction.2 as int) == self.direction(
                unit as int,
                x as int,
                y as int,
            ),
    {
        (
            self.x.apply(unit, x, y),
            self.y.apply(unit, x, y),
            self.z.apply(unit, x, y),
        )
    }
}

impl Face {
    /// The one-letter name under which the files of the face are stored.
    pub open spec fn suffix_text(self) -> Seq<char> {
        match self {
            Face::Back => seq!['b'],
            Face::Down => seq!['d'],
            Face::Front => seq!['f'],
            Face::Left => seq!['l'],
            Face::Right => seq!['r'],
            Face::Up => seq!['u'],
        }
    }

    /// The direction of the point `(x, y)` of the face, for a cube whose
    /// faces are at distance `unit` from its centre.
    pub open spec fn direction(self, unit: int, x: int, y: int) -> (int, int, int) {
        match self {
            Face::Front => (-unit, -x, -y),
            Face::Back => (unit, x, -y),
            Face::Left => (-x, unit, -y),
            Face::Right => (x, -unit, -y),
            Face::Down => (y, -x, -unit),
            Face::Up => (-y, -x, unit),
        }
    }

    /// Position of the face in the order in which faces are converted.
    pub open spec fn position(self) -> nat {
        match self {
            Face::Front => 0,
            Face::Back => 1,
            Face::Left => 2,
            Face::Right => 3,
            Face::Down => 4,
            Face::Up => 5,
        }
    }

    /// The face at a position of the order in which faces are converted.
    pub open spec fn at(position: nat) -> Face {
        if position == 0 {
            Face::Front
        } else if position == 1 {
            Face::Back
        } else if position == 2 {
            Face::Left
        } else if position == 3 {
            Face::Right
        } else if position == 4 {
            Face::Down
        } else {
            Face::Up
        }
    }

    /// The one-letter name under which the files of the face are stored.
    pub fn suffix(&self) -> (suffix: &'static str)
        ensures
            suffix@ == self.suffix_text(),
            suffix@.len() == 1,
    {
        proof {
            reveal_strlit("b");
            reveal_strlit("d");
            reveal_strlit("f");
            reveal_strlit("l");
            reveal_strlit("r");
            reveal_strlit("u");
        }
        let suffix = match *self {
            Face::Back => "b",
            Face::Down => "d",
            Face::Front => "f",
            Face::Left => "l",
            Face::Right => "r",
            Face::Up => "u",
        };
        assert(suffix@ =~= self.suffix_text());
        suffix
    }

    /// How the face lies in space.
    pub fn orientation(&self) -> (orientation: Orientation)
        ensures
            forall|unit: int, x: int, y: int| #[trigger]
                orientation.direction(unit, x, y) == self.direction(unit, x, y),
    {
        let plus_one = Component { source: Source::One, negated: false };
        let minus_one = Component { source: Source::One, negated: true };
        let plus_x = Component { source: Source::X, negated: false };
        let minus_x = Component { source: Source::X, negated: true };
        let plus_y = Component { source: Source::Y, negated: false };
        let minus_y = Component { source: Source::Y, negated: true };
        match *self {
            Face::Front => Orientation { x: minus_one, y: minus_x, z: minus_y },
            Face::Back => Orientation { x: plus_one, y: plus_x, z: minus_y },
            Face::Left => Orientation { x: minus_x, y: plus_one, z: minus_y },
            Face::Right => Orientation { x: plus_x, y: minus_one, z: minus_y },
            Face::Down => Orientation { x: plus_y, y: minus_x, z: minus_one },
            Face::Up => Orientation { x: minus_y, y: minus_x, z: plus_one },
        }
    }

    /// Position of the face in the order in which faces are converted.
    pub fn index(&self) -> (position: usize)
        ensures
            position == self.position(),
            position < FACE_COUNT,
    {
        match *self {
            Face::Front => 0,
            Face::Back => 1,
            Face::Left => 2,
            Face::Right => 3,
            Face::Down => 4,
            Face::Up => 5,
        }
    }

    /// The face at a position of the order in which faces are converted.
    pub fn from_index(position: usize) -> (face: Face)
        requires
            position < FACE_COUNT,
        ensures
            face == Face::at(position as nat),
            face.position() == position,
    {
        if position == 0 {
            Face::Front
        } else if position == 1 {
            Face::Back
        } else if position == 2 {
            Face::Left
        } else if position == 3 {
            Face::Right
        } else if position == 4 {
            Face::Down
        } else {
            Face::Up
        }
    }
}

/// Each face has a position below six, and is the face at that position.
pub proof fn lemma_face_positions(face: Face)
    ensures
        face.position() < FACE_COUNT,
        Face::at(face.position()) == face,
{
}

/// Different faces are stored under different names, each of one letter.
pub proof fn lemma_suffixes_distinct(a: Face, b: Face)
    ensures
        a.suffix_text().len() == 1,
        a != b ==> a.suffix_text() != b.suffix_text(),
{
    if a != b {
        assert(a.suffix_text()[0] != b.suffix_text()[0]);
    }
}

/// A point of a face lies on the surface of the cube: one component of its
/// direction has the size of the face's distance and no other is larger.
pub proof fn lemma_direction_on_cube(face: Face, unit: int, x: int, y: int)
    requires
        unit > 0,
        -unit <= x <= unit,
        -unit <= y <= unit,
    ensures
        ({
            let (dx, dy, dz) = face.direction(unit, x, y);
            &&& -unit <= dx <= unit
            &&& -unit <= dy <= unit
            &&& -unit <= dz <= unit
            &&& dx == unit || dx == -unit || dy == unit || dy == -unit || dz == unit || dz == -unit
        }),
{
}

/// The centres of different faces point in different directions, so the six
/// faces are the six sides of the cube.
pub proof fn lemma_face_centres_distinct(a: Face, b: Face, unit: int)
    requires
        unit > 0,
        a != b,
    ensures
        a.direction(unit, 0, 0) != b.direction(unit, 0, 0),
{
}

} // verus!

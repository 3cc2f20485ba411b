//! Grid coordinates, token kinds and the shapes a match can take.

use crate::animate::Animate;
use crate::random::random_in_range;
use vstd::prelude::*;

verus! {

/// A grid coordinate. Its derived order compares the column first, then the
/// row.
#[derive(Clone, Copy, Debug, PartialEq, Eq, PartialOrd, Ord, Structural)]
pub struct Slot {
    pub column: usize,
    pub row: usize,
}

impl Slot {
    pub fn new(row: usize, column: usize) -> (slot: Slot)
        ensures
            slot.row == row,
            slot.column == column,
    {
        Slot { column, row }
    }

    /// Whether a step of `row_delta` rows and `column_delta` columns stays
    /// within the coordinates a slot can have.
    pub open spec fn can_walk(self, row_delta: int, column_delta: int) -> bool {
        &&& 0 <= self.row + row_delta <= usize::MAX
        &&& 0 <= self.column + column_delta <= usize::MAX
    }

    /// Steps to another coordinate. The step may not leave the range of
    /// `usize`.
    pub fn walk(&self, row_delta: i64, column_delta: i64) -> (slot: Slot)
        requires
            self.can_walk(row_delta as int, column_delta as int),
        ensures
            slot.row == self.row + row_delta,
            slot.column == self.column + column_delta,
    {
        Slot {
            row: (self.row as i128 + row_delta as i128) as usize,
            column: (self.column as i128 + column_delta as i128) as usize,
        }
    }

    /// Strict order on slots: by column, then by row.
    pub open spec fn before(self, other: Slot) -> bool {
        self.column < other.column || (self.column == other.column && self.row < other.row)
    }

    /// Decides `before`.
    pub fn precedes(&self, other: &Slot) -> (yes: bool)
        ensures
            yes == self.before(*other),
    {
        self.column < other.column || (self.column == other.column && self.row < other.row)
    }
}

/// The kinds of token.
#[derive(Clone, Copy, Debug, PartialEq, Eq, Hash, Structural)]
pub enum Collectable {
    Eye,
    Tongue,
    Frog,
    Heart,
    Spider,
    Jar,
    Red,
    Yellow,
    Blue,
}

/// How many kinds of token exist.
pub const KIND_COUNT: usize = 9;

impl Collectable {
    /// Position of the kind in the declaration order.
    pub open spec fn index_spec(self) -> nat {
        match self {
            Collectable::Eye => 0,
            Collectable::Tongue => 1,
            Collectable::Frog => 2,
            Collectable::Heart => 3,
            Collectable::Spider => 4,
            Collectable::Jar => 5,
            Collectable::Red => 6,
            Collectable::Yellow => 7,
            Collectable::Blue => 8,
        }
    }

    /// The kind a number stands for: the kind at that position in the
    /// declaration order. Numbers past the last position stand for the last
    /// kind.
    pub open spec fn from_index_spec(index: nat) -> Collectable {
        if index == 0 {
            Collectable::Eye
        } else if index == 1 {
            Collectable::Tongue
        } else if index == 2 {
            Collectable::Frog
        } else if index == 3 {
            Collectable::Heart
        } else if index == 4 {
            Collectable::Spider
        } else if index == 5 {
            Collectable::Jar
        } else if index == 6 {
            Collectable::Red
        } else if index == 7 {
            Collectable::Yellow
        } else {
            Collectable::Blue
        }
    }

    /// Every kind is the kind its own position stands for: numbering the
    /// kinds and reading the numbers back loses nothing.
    pub proof fn lemma_index_round_trip(self)
        ensures
            self.index_spec() < KIND_COUNT,
            Collectable::from_index_spec(self.index_spec()) == self,
    {
    }

    pub fn index(&self) -> (index: usize)
        ensures
            index == self.index_spec(),
            index < KIND_COUNT,
    {
        match self {
            Collectable::Eye => 0,
            Collectable::Tongue => 1,
            Collectable::Frog => 2,
            Collectable::Heart => 3,
            Collectable::Spider => 4,
            Collectable::Jar => 5,
            Collectable::Red => 6,
            Collectable::Yellow => 7,
            Collectable::Blue => 8,
        }
    }

    pub fn from_index(index: usize) -> (kind: Collectable)
        ensures
            kind == Collectable::from_index_spec(index as nat),
            index < KIND_COUNT ==> kind.index_spec() == index,
    {
        match index {
            0 => Collectable::Eye,
            1 => Collectable::Tongue,
            2 => Collectable::Frog,
            3 => Collectable::Heart,
            4 => Collectable::Spider,
            5 => Collectable::Jar,
            6 => Collectable::Red,
            7 => Collectable::Yellow,
            _ => Collectable::Blue,
        }
    }

    /// Draws a kind: one number is drawn below `KIND_COUNT`, and `from_index`
    /// says which kind each number stands for. Which number comes is left to
    /// chance, so every kind is a possible result and nothing holds of the
    /// result that does not hold of every kind.
    pub fn random() -> (kind: Collectable)
        ensures
            kind.index_spec() < KIND_COUNT,
    {
        Collectable::from_index(random_in_range(0, KIND_COUNT))
    }

    pub open spec fn animation_spec(self) -> Animate {
        match self {
            Collectable::Eye => Animate { frames: 6, loop_animation: false },
            Collectable::Tongue => Animate { frames: 6, loop_animation: true },
            Collectable::Frog => Animate { frames: 6, loop_animation: false },
            Collectable::Heart => Animate { frames: 6, loop_animation: true },
            Collectable::Spider => Animate { frames: 6, loop_animation: false },
            Collectable::Jar => Animate { frames: 4, loop_animation: true },
            Collectable::Red => Animate { frames: 6, loop_animation: true },
            Collectable::Yellow => Animate { frames: 6, loop_animation: true },
            Collectable::Blue => Animate { frames: 6, loop_animation: true },
        }
    }

    /// The sprite animation played while a token of this kind is active.
    pub fn get_animation(&self) -> (animation: Animate)
        ensures
            animation == self.animation_spec(),
            animation.frames > 0,
    {
        match self {
            Collectable::Eye => Animate { frames: 6, loop_animation: false },
            Collectable::Tongue => Animate { frames: 6, loop_animation: true },
            Collectable::Frog => Animate { frames: 6, loop_animation: false },
            Collectable::Heart => Animate { frames: 6, loop_animation: true },
            Collectable::Spider => Animate { frames: 6, loop_animation: false },
            Collectable::Jar => Animate { frames: 4, loop_animation: true },
            Collectable::Red => Animate { frames: 6, loop_animation: true },
            Collectable::Yellow => Animate { frames: 6, loop_animation: true },
            Collectable::Blue => Animate { frames: 6, loop_animation: true },
        }
    }
}

/// What a grid cell holds: the identifier under which the renderer knows the
/// token, and the token's kind. The simulation never interprets the
/// identifier.
#[derive(Clone, Copy, Debug, PartialEq, Eq, Structural)]
pub struct SlotContent {
    pub entity: u64,
    pub collectable: Collectable,
}

/// A detected match.
#[derive(Clone, Debug, PartialEq, Eq)]
pub enum Pattern {
    /// Three collinear, contiguous slots of one kind, the last scanned first.
    Line { slots: Vec<Slot> },
}

impl View for Pattern {
    type V = Seq<Slot>;

    open spec fn view(&self) -> Seq<Slot> {
        match self {
            Pattern::Line { slots } => slots@,
        }
    }
}

} // verus!

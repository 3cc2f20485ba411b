//! Instructions for the renderer, and what the simulation does when a token
//! has carried one out.

use crate::cauldron::{random_recipe, Cauldron, Processed, Score};
use crate::matcher::{Collectable, Slot};
use vstd::prelude::*;

verus! {

/// Side length of a grid cell on screen.
pub const TILE: u64 = 64;

/// Distance of the centre of the first cell from the edge of the screen.
pub const MARGIN: u64 = 44;

/// Speed at which tokens travel on the board and are thrown.
pub const TRAVEL_SPEED: u64 = 256;

/// Speed at which matched tokens are carried to the cauldron.
pub const PROCESS_SPEED: u64 = 384;

/// A point on screen.
#[derive(Clone, Copy, Debug, PartialEq, Eq, Structural)]
pub struct Point {
    pub x: u64,
    pub y: u64,
}

/// One motion of a token: where to, how fast, and what the motion is part
/// of.
#[derive(Clone, Copy, Debug, PartialEq, Eq)]
pub struct Move {
    pub goal: Point,
    pub speed: u64,
    pub process_for_cauldron: bool,
    pub throw_in_cauldron: bool,
    pub throw_away: bool,
    pub origin: Option<Point>,
}

/// What a motion is part of.
#[derive(Clone, Copy, Debug, PartialEq, Eq, Structural)]
pub enum Phase {
    /// A matched token is carried to the cauldron.
    Processing,
    /// An accepted token is thrown into the cauldron.
    EnterCauldron,
    /// A refused token is thrown away.
    Discard,
    /// A token travels to its slot on the board.
    Travel,
}

/// What the renderer does with a token that has reached its goal.
#[derive(Clone, Copy, Debug, PartialEq, Eq, Structural)]
pub enum Arrival {
    /// Carry on with the first of the remaining motions.
    Continue,
    /// Nothing is left to do: take the list of motions off the token.
    Settled,
    /// Release the token.
    Despawn,
}

/// The result of an arrival.
#[derive(Clone, Copy, Debug, PartialEq, Eq, Structural)]
pub struct Arrived {
    pub action: Arrival,
    /// A recipe has just been completed: the display of the ingredients is
    /// to be drawn anew.
    pub finished_recipe: bool,
}

/// The centre of a slot on screen.
pub open spec fn slot_centre(slot: Slot) -> (int, int) {
    (slot.column * TILE + MARGIN, slot.row * TILE + MARGIN)
}

impl Move {
    pub open spec fn move_to_spec(goal: Point) -> Move {
        Move {
            goal,
            speed: TRAVEL_SPEED,
            process_for_cauldron: false,
            throw_in_cauldron: false,
            throw_away: false,
            origin: None,
        }
    }

    pub open spec fn process_spec() -> Move {
        Move {
            goal: Point { x: 668, y: 300 },
            speed: PROCESS_SPEED,
            process_for_cauldron: true,
            throw_in_cauldron: false,
            throw_away: false,
            origin: None,
        }
    }

    pub open spec fn throw_in_cauldron_spec() -> Move {
        Move {
            goal: Point { x: 668, y: 136 },
            speed: TRAVEL_SPEED,
            process_for_cauldron: false,
            throw_in_cauldron: true,
            throw_away: false,
            origin: Some(Point { x: 700, y: 300 }),
        }
    }

    pub open spec fn throw_away_spec() -> Move {
        Move {
            goal: Point { x: 850, y: 300 },
            speed: TRAVEL_SPEED,
            process_for_cauldron: false,
            throw_in_cauldron: false,
            throw_away: true,
            origin: Some(Point { x: 700, y: 300 }),
        }
    }

    /// What the motion is part of. Where several marks are set, carrying to
    /// the cauldron goes before throwing in, and that before throwing away.
    pub open spec fn phase_spec(self) -> Phase {
        if self.process_for_cauldron {
            Phase::Processing
        } else if self.throw_in_cauldron {
            Phase::EnterCauldron
        } else if self.throw_away {
            Phase::Discard
        } else {
            Phase::Travel
        }
    }

    /// A plain motion to a point on screen.
    pub fn move_to(goal: Point) -> (motion: Move)
        ensures
            motion == Move::move_to_spec(goal),
    {
        Move {
            goal,
            speed: TRAVEL_SPEED,
            process_for_cauldron: false,
            throw_in_cauldron: false,
            throw_away: false,
            origin: None,
        }
    }

    /// Whether the centre of a slot is a point the screen coordinates can
    /// express.
    pub fn reaches(slot: &Slot) -> (reachable: bool)
        ensures
            reachable == (slot_centre(*slot).0 <= u64::MAX && slot_centre(*slot).1 <= u64::MAX),
    {
        let limit: u64 = (u64::MAX - MARGIN) / TILE;
        slot.column as u64 <= limit && slot.row as u64 <= limit
    }

    /// A plain motion to the centre of a slot. The centre must be a point
    /// the screen coordinates can express.
    pub fn move_to_slot(slot: &Slot) -> (motion: Move)
        requires
            slot_centre(*slot).0 <= u64::MAX,
            slot_centre(*slot).1 <= u64::MAX,
        ensures
            motion == Move::move_to_spec(
                Point { x: slot_centre(*slot).0 as u64, y: slot_centre(*slot).1 as u64 },
            ),
    {
        Move::move_to(
            Point { x: slot.column as u64 * TILE + MARGIN, y: slot.row as u64 * TILE + MARGIN },
        )
    }

    /// The motion that carries a matched token to the cauldron.
    pub fn process() -> (motion: Move)
        ensures
            motion == Move::process_spec(),
    {
        Move {
            goal: Point { x: 800 - 132, y: 300 },
            speed: PROCESS_SPEED,
            process_for_cauldron: true,
            throw_in_cauldron: false,
            throw_away: false,
            origin: None,
        }
    }

    /// The motion that throws an accepted token into the cauldron.
    pub fn throw_in_cauldron() -> (motion: Move)
        ensures
            motion == Move::throw_in_cauldron_spec(),
    {
        Move {
            goal: Point { x: 800 - 132, y: 128 + 8 },
            speed: TRAVEL_SPEED,
            process_for_cauldron: false,
            throw_in_cauldron: true,
            throw_away: false,
            origin: Some(Point { x: 700, y: 300 }),
        }
    }

    /// The motion that throws a refused token away.
    pub fn throw_away() -> (motion: Move)
        ensures
            motion == Move::throw_away_spec(),
    {
        Move {
            goal: Point { x: 850, y: 300 },
            speed: TRAVEL_SPEED,
            process_for_cauldron: false,
            throw_in_cauldron: false,
            throw_away: true,
            origin: Some(Point { x: 700, y: 300 }),
        }
    }

    pub fn phase(&self) -> (phase: Phase)
        ensures
            phase == self.phase_spec(),
    {
        if self.process_for_cauldron {
            Phase::Processing
        } else if self.throw_in_cauldron {
            Phase::EnterCauldron
        } else if self.throw_away {
            Phase::Discard
        } else {
            Phase::Travel
        }
    }
}

/// How many of the first `upto` tokens still have a motion to carry out,
/// whatever it is part of: a token whose list of motions is empty has
/// settled.
pub open spec fn in_motion(animations: Seq<Vec<Move>>, upto: int) -> nat
    decreases upto,
{
    if upto <= 0 {
        0
    } else if animations[upto - 1]@.len() > 0 {
        in_motion(animations, upto - 1) + 1
    } else {
        in_motion(animations, upto - 1)
    }
}

/// No token is in motion exactly when every list of motions is used up.
pub proof fn lemma_none_in_motion(animations: Seq<Vec<Move>>, upto: int)
    requires
        0 <= upto <= animations.len(),
    ensures
        in_motion(animations, upto) <= upto,
        in_motion(animations, upto) == 0 <==> forall|index: int|
            0 <= index < upto ==> (#[trigger] animations[index])@.len() == 0,
    decreases upto,
{
    if upto > 0 {
        lemma_none_in_motion(animations, upto - 1);
    }
}

/// Counts the tokens that still have a motion to carry out, given the list
/// of motions of every token. The board is busy while there is one: a move
/// on the board and a throw count alike.
pub fn count_in_motion(animations: &Vec<Vec<Move>>) -> (count: usize)
    ensures
        count == in_motion(animations@, animations@.len() as int),
        count == 0 <==> forall|index: int|
            0 <= index < animations@.len() ==> (#[trigger] animations@[index])@.len() == 0,
{
    let mut count: usize = 0;
    let mut index: usize = 0;
    while index < animations.len()
        invariant
            index <= animations@.len(),
            count == in_motion(animations@, index as int),
            count <= index,
        decreases animations@.len() - index,
    {
        if animations[index].len() > 0 {
            count = count + 1;
        }
        index = index + 1;
    }
    proof {
        lemma_none_in_motion(animations@, animations@.len() as int);
    }
    count
}

/// What the first motion of a token leads to once the token has reached the
/// goal, given that the cauldron did or did not take the token.
pub open spec fn after_arrival(animations: Seq<Move>, accepted: bool) -> (Arrival, Seq<Move>) {
    match animations[0].phase_spec() {
        Phase::Processing => (
            Arrival::Continue,
            animations.update(
                0,
                if accepted {
                    Move::throw_in_cauldron_spec()
                } else {
                    Move::throw_away_spec()
                },
            ),
        ),
        Phase::EnterCauldron => (Arrival::Despawn, animations),
        Phase::Discard => (Arrival::Despawn, animations),
        Phase::Travel => if animations.len() == 1 {
            (Arrival::Settled, animations)
        } else {
            (Arrival::Continue, animations.remove(0))
        },
    }
}

/// A token has reached the goal of its first motion.
///
/// A token that was carried to the cauldron is offered to it: taken, it is
/// counted and thrown in next; refused, it is thrown away next. A token that
/// was thrown in is released. A token that was thrown away is released and
/// pays one coin. A token that travelled on the board goes on with its next
/// motion, or is settled if it has none.
pub fn on_arrival(
    animations: &mut Vec<Move>,
    collectable: &Collectable,
    cauldron: &mut Cauldron,
    score: &mut Score,
) -> (arrived: Arrived)
    requires
        old(animations)@.len() > 0,
        old(cauldron).wf(),
        old(animations)@[0].phase_spec() == Phase::Processing && old(cauldron).takes(*collectable)
            && old(cauldron).completed_by(*collectable) ==> old(cauldron).finished() < u64::MAX,
        old(animations)@[0].phase_spec() == Phase::Discard ==> old(score).money < u64::MAX,
    ensures
        final(cauldron).wf(),
        arrived.action == after_arrival(
            old(animations)@,
            old(cauldron).takes(*collectable),
        ).0,
        final(animations)@ == after_arrival(
            old(animations)@,
            old(cauldron).takes(*collectable),
        ).1,
        final(score).money == old(score).money + (if old(animations)@[0].phase_spec()
            == Phase::Discard {
            1int
        } else {
            0int
        }),
        arrived.finished_recipe == (old(animations)@[0].phase_spec() == Phase::Processing && old(
            cauldron,
        ).takes(*collectable) && old(cauldron).completed_by(*collectable)),
        !arrived.finished_recipe ==> final(cauldron).grown_from(
            old(cauldron),
            *collectable,
            if old(animations)@[0].phase_spec() == Phase::Processing && old(cauldron).takes(
                *collectable,
            ) {
                1nat
            } else {
                0nat
            },
        ),
        arrived.finished_recipe ==> {
            &&& final(cauldron).finished() == old(cauldron).finished() + 1
            &&& final(cauldron).empty()
            &&& random_recipe(final(cauldron).ingredients())
        },
{
    let animate = animations[0];
    match animate.phase() {
        Phase::Processing => {
            animations.remove(0);
            let Processed { accepted, finished } = cauldron.process(collectable);
            if !accepted {
                animations.insert(0, Move::throw_away());
            } else {
                animations.insert(0, Move::throw_in_cauldron());
            }
            assert(animations@ =~= after_arrival(old(animations)@, accepted).1);
            Arrived { action: Arrival::Continue, finished_recipe: finished }
        },
        Phase::EnterCauldron => Arrived { action: Arrival::Despawn, finished_recipe: false },
        Phase::Discard => {
            score.money = score.money + 1;
            Arrived { action: Arrival::Despawn, finished_recipe: false }
        },
        Phase::Travel => {
            if animations.len() == 1 {
                Arrived { action: Arrival::Settled, finished_recipe: false }
            } else {
                animations.remove(0);
                Arrived { action: Arrival::Continue, finished_recipe: false }
            }
        },
    }
}

/// How a token's sprite sheet is played.
#[derive(Clone, Copy, Debug, PartialEq, Eq, Structural)]
pub struct Animate {
    pub frames: u32,
    pub loop_animation: bool,
}

impl Animate {
    /// The frame that follows `index`: looping sheets wrap to frame 0, the
    /// others stay on their last frame.
    pub open spec fn next_frame_spec(self, index: u32) -> int {
        if self.loop_animation {
            (index + 1) % (self.frames as int)
        } else if index + 1 < self.frames - 1 {
            index + 1
        } else {
            self.frames - 1
        }
    }

    pub fn next_frame(&self, index: u32) -> (next: u32)
        requires
            self.frames > 0,
        ensures
            next == self.next_frame_spec(index),
            next < self.frames,
    {
        let following: u64 = index as u64 + 1;
        if self.loop_animation {
            (following % (self.frames as u64)) as u32
        } else if following < (self.frames as u64) - 1 {
            following as u32
        } else {
            self.frames - 1
        }
    }
}

} // verus!

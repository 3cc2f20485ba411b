//! The input controller: what a click on a slot means.

use crate::board::{contains_slot, switch_moves, Board, Relocation};
use crate::detector::has_pattern;
use crate::grid::{adjacent, content_at, lemma_neighbors_are_adjacent, swapped};
use crate::matcher::Slot;
use vstd::prelude::*;

verus! {

/// The slot the player has picked, if any.
pub type Selected = Option<Slot>;

/// What a click led to, and what the renderer is to show.
#[derive(Clone, Copy, Debug, PartialEq, Eq, Structural)]
pub enum Click {
    /// The click was not taken: the board is busy, or the click missed it.
    Ignored,
    /// The slot is picked; its token is shown as active.
    Picked { active: u64 },
    /// Another slot is picked instead; the token of the former is at rest
    /// again.
    Repicked { idle: u64, active: u64 },
    /// The two slots lie side by side, but exchanging them makes no match:
    /// nothing changes.
    Refused,
    /// The two tokens have been exchanged and are now to move.
    Swapped { idle: u64, first: Relocation, second: Relocation },
}

/// Handles a click on `slot`.
///
/// A busy board takes no input, nor does a slot off the board. With nothing
/// picked, the slot is picked. With a slot picked that does not lie side by
/// side with the clicked one, the pick moves. With the two side by side, they
/// are exchanged if that makes a match, and the pick is dropped; if it makes
/// none, board and pick stay as they are.
pub fn user_selection(board: &mut Board, selection: &mut Selected, slot: Slot) -> (click: Click)
    requires
        old(board).wf(),
        *old(selection) matches Some(picked) ==> old(board).holds(picked),
    ensures
        final(board).wf(),
        final(board).rows() == old(board).rows(),
        final(board).columns() == old(board).columns(),
        final(board).next_id() == old(board).next_id(),
        old(board).tokens_apart() ==> final(board).tokens_apart(),
        *final(selection) matches Some(picked) ==> final(board).holds(picked),
        click == outcome(old(board), *old(selection), slot),
        *final(selection) == match click {
            Click::Ignored => *old(selection),
            Click::Picked { .. } => Some(slot),
            Click::Repicked { .. } => Some(slot),
            Click::Refused => *old(selection),
            Click::Swapped { .. } => None,
        },
        click is Swapped ==> final(board)@ == swapped(
            old(board)@,
            old(selection)->Some_0,
            slot,
        ) && final(board).busy(),
        !(click is Swapped) ==> final(board)@ == old(board)@ && final(board).busy() == old(
            board,
        ).busy(),
{
    if board.animating() {
        return Click::Ignored;
    }
    if slot.row >= board.height() || slot.column >= board.width() {
        return Click::Ignored;
    }
    let tile_two = board.get_content(&slot);
    match *selection {
        Some(one) => {
            let neighbors = board.neighbors(&one);
            let tile_one = board.get_content(&one);
            proof {
                lemma_neighbors_are_adjacent(one, board.columns(), board.rows());
            }
            if !contains_slot(&neighbors, &slot) {
                *selection = Some(slot);
                return Click::Repicked { idle: tile_one.entity, active: tile_two.entity };
            }
            if !board.has_pattern_after_switch(&one, &slot) {
                return Click::Refused;
            }
            let moves = board.switch(&one, &slot);
            *selection = None;
            Click::Swapped { idle: tile_one.entity, first: moves.0, second: moves.1 }
        },
        None => {
            *selection = Some(slot);
            Click::Picked { active: tile_two.entity }
        },
    }
}

/// What a click on `slot` leads to on a board with the given pick.
pub open spec fn outcome(board: &Board, selection: Selected, slot: Slot) -> Click {
    if board.busy() || !board.holds(slot) {
        Click::Ignored
    } else {
        match selection {
            None => Click::Picked { active: content_at(board@, slot).entity },
            Some(one) => if !adjacent(one, slot) {
                Click::Repicked {
                    idle: content_at(board@, one).entity,
                    active: content_at(board@, slot).entity,
                }
            } else if !has_pattern(swapped(board@, one, slot), board.columns(), board.rows()) {
                Click::Refused
            } else {
                Click::Swapped {
                    idle: content_at(board@, one).entity,
                    first: switch_moves(board@, one, slot).0,
                    second: switch_moves(board@, one, slot).1,
                }
            },
        }
    }
}

} // verus!

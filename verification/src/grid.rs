//! The mathematical model of the playing field: a column-major grid of cell
//! contents, and the vocabulary in which the board's contracts are stated.

use crate::matcher::{Collectable, Slot, SlotContent};
use vstd::prelude::*;

verus! {

/// The playing field as a value: `grid[column][row]`, row 0 at the bottom.
pub type Grid = Seq<Seq<SlotContent>>;

/// Every one of the `width` columns holds exactly `height` cells.
pub open spec fn well_shaped(grid: Grid, width: nat, height: nat) -> bool {
    &&& grid.len() == width
    &&& forall|column: int| 0 <= column < width ==> (#[trigger] grid[column]).len() == height
}

/// The slot lies on a field of the given size.
pub open spec fn in_grid(slot: Slot, width: nat, height: nat) -> bool {
    slot.column < width && slot.row < height
}

/// The slot at a mathematical position.
pub open spec fn slot_at(column: int, row: int) -> Slot {
    Slot { column: column as usize, row: row as usize }
}

/// The cell content at a slot.
pub open spec fn content_at(grid: Grid, slot: Slot) -> SlotContent {
    grid[slot.column as int][slot.row as int]
}

/// The kind of token at a position.
pub open spec fn kind_at(grid: Grid, column: int, row: int) -> Collectable {
    grid[column][row].collectable
}

/// The grid with the cell at `slot` replaced.
pub open spec fn with_content(grid: Grid, slot: Slot, content: SlotContent) -> Grid {
    grid.update(slot.column as int, grid[slot.column as int].update(slot.row as int, content))
}

/// The grid with the contents of two slots exchanged.
pub open spec fn swapped(grid: Grid, one: Slot, two: Slot) -> Grid {
    with_content(with_content(grid, one, content_at(grid, two)), two, content_at(grid, one))
}

/// Two slots are side by side: they differ by one step along one axis.
pub open spec fn adjacent(one: Slot, two: Slot) -> bool {
    ||| (one.column == two.column && (one.row + 1 == two.row || two.row + 1 == one.row))
    ||| (one.row == two.row && (one.column + 1 == two.column || two.column + 1 == one.column))
}

/// Exchanging two cells keeps the shape of the grid.
pub proof fn lemma_swapped_shape(grid: Grid, one: Slot, two: Slot, width: nat, height: nat)
    requires
        well_shaped(grid, width, height),
        in_grid(one, width, height),
        in_grid(two, width, height),
    ensures
        well_shaped(swapped(grid, one, two), width, height),
{
    let first = with_content(grid, one, content_at(grid, two));
    assert(well_shaped(first, width, height)) by {
        assert forall|column: int| 0 <= column < width implies (#[trigger] first[column]).len()
            == height by {
            assert(grid[column].len() == height);
        }
    }
    let second = swapped(grid, one, two);
    assert forall|column: int| 0 <= column < width implies (#[trigger] second[column]).len()
        == height by {
        assert(first[column].len() == height);
    }
}

/// Exchanging the same two cells twice gives the grid back.
pub proof fn lemma_swapped_twice(grid: Grid, one: Slot, two: Slot, width: nat, height: nat)
    requires
        well_shaped(grid, width, height),
        in_grid(one, width, height),
        in_grid(two, width, height),
    ensures
        swapped(swapped(grid, one, two), one, two) == grid,
{
    let once = swapped(grid, one, two);
    let twice = swapped(once, one, two);
    lemma_swapped_shape(grid, one, two, width, height);
    lemma_swapped_shape(once, one, two, width, height);
    assert forall|column: int| 0 <= column < width implies #[trigger] twice[column]
        == grid[column] by {
        assert(grid[column].len() == height);
        assert(once[column].len() == height);
        assert(twice[column].len() == height);
        assert(twice[column] =~= grid[column]);
    }
    assert(twice =~= grid);
}

/// What an exchange leaves at each position: the two slots trade contents,
/// every other cell stays.
pub proof fn lemma_swapped_cells(grid: Grid, one: Slot, two: Slot, width: nat, height: nat)
    requires
        well_shaped(grid, width, height),
        in_grid(one, width, height),
        in_grid(two, width, height),
    ensures
        content_at(swapped(grid, one, two), one) == content_at(grid, two),
        content_at(swapped(grid, one, two), two) == content_at(grid, one),
        forall|other: Slot|
            in_grid(other, width, height) && other != one && other != two ==> #[trigger] content_at(
                swapped(grid, one, two),
                other,
            ) == content_at(grid, other),
{
    let result = swapped(grid, one, two);
    assert(grid[one.column as int].len() == height);
    assert(grid[two.column as int].len() == height);
    assert forall|other: Slot|
        in_grid(other, width, height) && other != one && other != two implies #[trigger] content_at(
        result,
        other,
    ) == content_at(grid, other) by {
        assert(grid[other.column as int].len() == height);
    }
}

/// Every token on the grid carries a number below `bound`, and no two
/// cells hold the same number.
pub open spec fn numbered_apart(grid: Grid, bound: int) -> bool {
    &&& forall|column: int, row: int|
        0 <= column < grid.len() && 0 <= row < grid[column].len() ==> (#[trigger] grid[column][row]).entity
            < bound
    &&& forall|column: int, row: int, other_column: int, other_row: int|
        0 <= column < grid.len() && 0 <= row < grid[column].len() && 0 <= other_column < grid.len()
            && 0 <= other_row < grid[other_column].len() && (column != other_column || row
            != other_row) ==> (#[trigger] grid[column][row]).entity
            != (#[trigger] grid[other_column][other_row]).entity
}

/// The cells of one column lie below the cells of the next when the cells
/// are counted column by column.
proof fn lemma_counted_cells(column: int, row: int, other_column: int, height: int)
    requires
        0 <= column < other_column,
        0 <= row < height,
    ensures
        column * height + row < other_column * height,
{
    assert(column * height + height == (column + 1) * height) by (nonlinear_arith);
    assert((column + 1) * height <= other_column * height) by (nonlinear_arith)
        requires
            column + 1 <= other_column,
            0 <= height,
    ;
}

/// A grid whose tokens are numbered column by column, upward within a
/// column, keeps its tokens apart.
pub proof fn lemma_counted_grid_apart(grid: Grid, width: nat, height: nat)
    requires
        well_shaped(grid, width, height),
        forall|column: int, row: int|
            0 <= column < width && 0 <= row < height ==> (#[trigger] grid[column][row]).entity
                == column * height + row,
    ensures
        numbered_apart(grid, (width * height) as int),
{
    assert forall|column: int, row: int|
        0 <= column < grid.len() && 0 <= row < grid[column].len() implies (#[trigger] grid[column][row]).entity
        < width * height by {
        assert(grid[column].len() == height);
        lemma_counted_cells(column, row, width as int, height as int);
    }
    assert forall|column: int, row: int, other_column: int, other_row: int|
        0 <= column < grid.len() && 0 <= row < grid[column].len() && 0 <= other_column < grid.len()
            && 0 <= other_row < grid[other_column].len() && (column != other_column || row
            != other_row) implies (#[trigger] grid[column][row]).entity
        != (#[trigger] grid[other_column][other_row]).entity by {
        assert(grid[column].len() == height && grid[other_column].len() == height);
        if column < other_column {
            lemma_counted_cells(column, row, other_column, height as int);
            assert(other_column * height + other_row >= other_column * height);
        } else if other_column < column {
            lemma_counted_cells(other_column, other_row, column, height as int);
            assert(column * height + row >= column * height);
        }
    }
}

/// Where the content of a slot stood before two slots were exchanged.
pub open spec fn source(one: Slot, two: Slot, here: Slot) -> Slot {
    if here == one {
        two
    } else if here == two {
        one
    } else {
        here
    }
}

/// After an exchange every cell holds what stood at its source.
proof fn lemma_swapped_source(
    grid: Grid,
    one: Slot,
    two: Slot,
    width: nat,
    height: nat,
    column: int,
    row: int,
)
    requires
        well_shaped(grid, width, height),
        in_grid(one, width, height),
        in_grid(two, width, height),
        width <= usize::MAX,
        height <= usize::MAX,
        0 <= column < width,
        0 <= row < height,
    ensures
        in_grid(source(one, two, slot_at(column, row)), width, height),
        swapped(grid, one, two)[column][row] == content_at(
            grid,
            source(one, two, slot_at(column, row)),
        ),
{
    lemma_swapped_cells(grid, one, two, width, height);
    let here = slot_at(column, row);
    assert(in_grid(here, width, height));
    assert(content_at(swapped(grid, one, two), here) == swapped(grid, one, two)[column][row]);
}

/// An exchange keeps the tokens apart.
pub proof fn lemma_swap_keeps_tokens_apart(
    grid: Grid,
    one: Slot,
    two: Slot,
    width: nat,
    height: nat,
    bound: int,
)
    requires
        well_shaped(grid, width, height),
        in_grid(one, width, height),
        in_grid(two, width, height),
        width <= usize::MAX,
        height <= usize::MAX,
        numbered_apart(grid, bound),
    ensures
        numbered_apart(swapped(grid, one, two), bound),
{
    let after = swapped(grid, one, two);
    lemma_swapped_shape(grid, one, two, width, height);
    assert forall|column: int, row: int|
        0 <= column < after.len() && 0 <= row < after[column].len() implies (#[trigger] after[column][row]).entity
        < bound by {
        assert(after[column].len() == height);
        lemma_swapped_source(grid, one, two, width, height, column, row);
        let from = source(one, two, slot_at(column, row));
        assert(grid[from.column as int].len() == height);
        assert(grid[from.column as int][from.row as int].entity < bound);
    }
    assert forall|column: int, row: int, other_column: int, other_row: int|
        0 <= column < after.len() && 0 <= row < after[column].len() && 0 <= other_column
            < after.len() && 0 <= other_row < after[other_column].len() && (column != other_column
            || row != other_row) implies (#[trigger] after[column][row]).entity
        != (#[trigger] after[other_column][other_row]).entity by {
        assert(after[column].len() == height && after[other_column].len() == height);
        lemma_swapped_source(grid, one, two, width, height, column, row);
        lemma_swapped_source(grid, one, two, width, height, other_column, other_row);
        let from = source(one, two, slot_at(column, row));
        let other_from = source(one, two, slot_at(other_column, other_row));
        assert(slot_at(column, row) != slot_at(other_column, other_row));
        assert(from != other_from);
        assert(grid[from.column as int].len() == height);
        assert(grid[other_from.column as int].len() == height);
        assert(grid[from.column as int][from.row as int].entity
            != grid[other_from.column as int][other_from.row as int].entity);
    }
}

/// The steps, as (rows, columns), that lead from a slot to its neighbours,
/// in the order in which the neighbours are listed. The order depends on
/// which borders the slot touches.
pub open spec fn neighbor_steps(slot: Slot, width: nat, height: nat) -> Seq<(int, int)> {
    let bottom = slot.row == 0;
    let top = slot.row == height - 1;
    let left = slot.column == 0;
    let right = slot.column == width - 1;
    if bottom && left {
        seq![(1, 0), (0, 1)]
    } else if bottom && right {
        seq![(1, 0), (0, -1)]
    } else if top && right {
        seq![(-1, 0), (0, -1)]
    } else if top && left {
        seq![(-1, 0), (0, 1)]
    } else if bottom {
        seq![(0, 1), (0, -1), (1, 0)]
    } else if left {
        seq![(1, 0), (0, 1), (-1, 0)]
    } else if top {
        seq![(0, 1), (-1, 0), (0, -1)]
    } else if right {
        seq![(-1, 0), (0, -1), (1, 0)]
    } else {
        seq![(1, 0), (0, 1), (-1, 0), (0, -1)]
    }
}

/// Where a step from `slot` leads, if that is on the grid.
pub open spec fn step_target(slot: Slot, step: (int, int), width: nat, height: nat) -> Option<
    Slot,
> {
    let row = slot.row + step.0;
    let column = slot.column + step.1;
    if 0 <= row < height && 0 <= column < width {
        Some(slot_at(column, row))
    } else {
        None
    }
}

/// The on-grid targets of the first `upto` steps, in order.
pub open spec fn reached(
    slot: Slot,
    steps: Seq<(int, int)>,
    upto: int,
    width: nat,
    height: nat,
) -> Seq<Slot>
    decreases upto,
{
    if upto <= 0 {
        Seq::empty()
    } else {
        let earlier = reached(slot, steps, upto - 1, width, height);
        match step_target(slot, steps[upto - 1], width, height) {
            Some(target) => earlier.push(target),
            None => earlier,
        }
    }
}

/// The neighbours of a slot on a grid of the given size, in listing order.
pub open spec fn neighbors_of(slot: Slot, width: nat, height: nat) -> Seq<Slot> {
    let steps = neighbor_steps(slot, width, height);
    reached(slot, steps, steps.len() as int, width, height)
}

/// A step to one of the four sides.
pub open spec fn unit_step(step: (int, int)) -> bool {
    step == (1int, 0int) || step == (-1int, 0int) || step == (0int, 1int) || step == (0int, -1int)
}

/// What `reached` holds: the target of every step that stays on the grid, and
/// nothing else; each once when no step occurs twice.
pub proof fn lemma_reached(slot: Slot, steps: Seq<(int, int)>, upto: int, width: nat, height: nat)
    requires
        0 <= upto <= steps.len(),
        width <= usize::MAX,
        height <= usize::MAX,
        forall|first: int, second: int|
            0 <= first < second < steps.len() ==> steps[first] != steps[second],
    ensures
        forall|other: Slot|
            reached(slot, steps, upto, width, height).contains(other) <==> exists|index: int|
                0 <= index < upto && #[trigger] step_target(slot, steps[index], width, height)
                    == Some(other),
        reached(slot, steps, upto, width, height).no_duplicates(),
        reached(slot, steps, upto, width, height).len() <= upto,
        (forall|index: int|
            0 <= index < upto ==> (#[trigger] step_target(
                slot,
                steps[index],
                width,
                height,
            )).is_some()) ==> reached(slot, steps, upto, width, height).len() == upto,
    decreases upto,
{
    if upto > 0 {
        lemma_reached(slot, steps, upto - 1, width, height);
        let earlier = reached(slot, steps, upto - 1, width, height);
        let now = reached(slot, steps, upto, width, height);
        let last = step_target(slot, steps[upto - 1], width, height);
        assert forall|other: Slot| now.contains(other) implies exists|index: int|
            0 <= index < upto && #[trigger] step_target(slot, steps[index], width, height) == Some(
                other,
            ) by {
            let place = choose|place: int| 0 <= place < now.len() && now[place] == other;
            if place < earlier.len() {
                assert(earlier[place] == other);
                assert(earlier.contains(other));
                let index = choose|index: int|
                    0 <= index < upto - 1 && #[trigger] step_target(
                        slot,
                        steps[index],
                        width,
                        height,
                    ) == Some(other);
                assert(step_target(slot, steps[index], width, height) == Some(other));
            } else {
                assert(step_target(slot, steps[upto - 1], width, height) == Some(other));
            }
        }
        assert forall|other: Slot|
            (exists|index: int|
                0 <= index < upto && #[trigger] step_target(slot, steps[index], width, height)
                    == Some(other)) implies now.contains(other) by {
            let index = choose|index: int|
                0 <= index < upto && #[trigger] step_target(slot, steps[index], width, height)
                    == Some(other);
            if index < upto - 1 {
                assert(earlier.contains(other));
                let place = choose|place: int| 0 <= place < earlier.len() && earlier[place] == other;
                assert(now[place] == other);
            } else {
                assert(now[now.len() - 1] == other);
            }
        }
        if last.is_some() {
            let target = last.unwrap();
            if earlier.contains(target) {
                let index = choose|index: int|
                    0 <= index < upto - 1 && #[trigger] step_target(
                        slot,
                        steps[index],
                        width,
                        height,
                    ) == Some(target);
                assert(steps[index] != steps[upto - 1]);
                assert(false);
            }
            assert forall|first: int, second: int|
                0 <= first < now.len() && 0 <= second < now.len() && first != second implies now[first]
                != now[second] by {
                if first < earlier.len() && second < earlier.len() {
                } else if first < earlier.len() {
                    assert(earlier.contains(earlier[first]));
                } else {
                    assert(earlier.contains(earlier[second]));
                }
            }
        }
        if forall|index: int|
            0 <= index < upto ==> (#[trigger] step_target(
                slot,
                steps[index],
                width,
                height,
            )).is_some() {
            assert(step_target(slot, steps[upto - 1], width, height).is_some());
        }
    }
}

/// The steps listed for a slot are steps to distinct sides, and they include
/// every side on which the grid continues.
pub proof fn lemma_neighbor_steps(slot: Slot, width: nat, height: nat)
    requires
        in_grid(slot, width, height),
    ensures
        neighbor_steps(slot, width, height).len() <= 4,
        forall|index: int|
            0 <= index < neighbor_steps(slot, width, height).len() ==> unit_step(
                #[trigger] neighbor_steps(slot, width, height)[index],
            ),
        forall|first: int, second: int|
            0 <= first < second < neighbor_steps(slot, width, height).len() ==> neighbor_steps(
                slot,
                width,
                height,
            )[first] != neighbor_steps(slot, width, height)[second],
        forall|step: (int, int)|
            unit_step(step) && (#[trigger] step_target(slot, step, width, height)).is_some()
                ==> neighbor_steps(slot, width, height).contains(step),
        width >= 2 && height >= 2 ==> forall|index: int|
            0 <= index < neighbor_steps(slot, width, height).len() ==> (#[trigger] step_target(
                slot,
                neighbor_steps(slot, width, height)[index],
                width,
                height,
            )).is_some(),
        width >= 2 && height >= 2 ==> neighbor_steps(slot, width, height).len() == 4 - (if slot.row
            == 0 || slot.row == height - 1 {
            1int
        } else {
            0int
        }) - (if slot.column == 0 || slot.column == width - 1 {
            1int
        } else {
            0int
        }),
{
    let steps = neighbor_steps(slot, width, height);
    assert forall|step: (int, int)|
        unit_step(step) && (#[trigger] step_target(
            slot,
            step,
            width,
            height,
        )).is_some() implies steps.contains(step) by {
        if steps.len() > 0 && steps[0] == step {
        } else if steps.len() > 1 && steps[1] == step {
        } else if steps.len() > 2 && steps[2] == step {
        } else if steps.len() > 3 && steps[3] == step {
        } else {
            assert(false);
        }
    }
}

/// The listed neighbours of a slot are exactly the slots of the grid that lie
/// side by side with it, each listed once: two in a corner, three on an edge
/// and four inside, on any grid of at least two rows and two columns.
pub proof fn lemma_neighbors_are_adjacent(slot: Slot, width: nat, height: nat)
    requires
        in_grid(slot, width, height),
        width <= usize::MAX,
        height <= usize::MAX,
    ensures
        forall|other: Slot|
            #![trigger neighbors_of(slot, width, height).contains(other)]
            #![trigger adjacent(slot, other)]
            neighbors_of(slot, width, height).contains(other) <==> in_grid(other, width, height)
                && adjacent(slot, other),
        neighbors_of(slot, width, height).no_duplicates(),
        width >= 2 && height >= 2 ==> neighbors_of(slot, width, height).len() == 4 - (if slot.row
            == 0 || slot.row == height - 1 {
            1int
        } else {
            0int
        }) - (if slot.column == 0 || slot.column == width - 1 {
            1int
        } else {
            0int
        }),
{
    let steps = neighbor_steps(slot, width, height);
    let listed = neighbors_of(slot, width, height);
    lemma_neighbor_steps(slot, width, height);
    lemma_reached(slot, steps, steps.len() as int, width, height);
    assert forall|other: Slot| listed.contains(other) implies in_grid(other, width, height)
        && adjacent(slot, other) by {
        let index = choose|index: int|
            0 <= index < steps.len() && #[trigger] step_target(slot, steps[index], width, height)
                == Some(other);
        assert(unit_step(steps[index]));
    }
    assert forall|other: Slot| in_grid(other, width, height) && adjacent(slot, other) implies listed.contains(
        other,
    ) by {
        let step = (other.row - slot.row, other.column - slot.column);
        assert(unit_step(step));
        assert(step_target(slot, step, width, height) == Some(other));
        assert(steps.contains(step));
        let index = choose|index: int| 0 <= index < steps.len() && steps[index] == step;
        assert(step_target(slot, steps[index], width, height) == Some(other));
    }
}

} // verus!

//! What removal and refill do to a grid: doomed cells leave their column,
//! the cells above them sink, and new tokens fill the column from the top.

use crate::grid::{numbered_apart, slot_at, well_shaped, Grid};
use crate::matcher::{Slot, SlotContent};
use vstd::prelude::*;

verus! {

/// The cells of a column from row `from` upward that are not doomed, bottom
/// first.
pub open spec fn survivors(
    cells: Seq<SlotContent>,
    doomed: Seq<Slot>,
    column: int,
    from: int,
) -> Seq<SlotContent>
    decreases cells.len() - from,
{
    if from >= cells.len() {
        Seq::empty()
    } else {
        let above = survivors(cells, doomed, column, from + 1);
        if doomed.contains(slot_at(column, from)) {
            above
        } else {
            seq![cells[from]] + above
        }
    }
}

/// The lowest doomed row of a column at or above `from`; `height` if there
/// is none.
pub open spec fn lowest_doomed(doomed: Seq<Slot>, column: int, from: int, height: int) -> int
    decreases height - from,
{
    if from >= height {
        height
    } else if doomed.contains(slot_at(column, from)) {
        from
    } else {
        lowest_doomed(doomed, column, from + 1, height)
    }
}

/// How many cells the columns before `column` lose, and so how many new
/// tokens are created before that column is refilled.
pub open spec fn spawned_before(grid: Grid, doomed: Seq<Slot>, column: int) -> int
    decreases column,
{
    if column <= 0 {
        0
    } else {
        spawned_before(grid, doomed, column - 1) + grid[column - 1].len() - survivors(
            grid[column - 1],
            doomed,
            column - 1,
            0,
        ).len()
    }
}

/// `after` is what a column becomes: the survivors in their old order at the
/// bottom, then new tokens up to the old height, numbered
/// upward from `first_entity`.
pub open spec fn column_refilled(
    before: Seq<SlotContent>,
    after: Seq<SlotContent>,
    doomed: Seq<Slot>,
    column: int,
    first_entity: int,
) -> bool {
    let kept = survivors(before, doomed, column, 0);
    &&& after.len() == before.len()
    &&& forall|row: int| 0 <= row < kept.len() ==> #[trigger] after[row] == kept[row]
    &&& forall|row: int|
        kept.len() <= row < after.len() ==> (#[trigger] after[row]).entity == first_entity + (row
            - kept.len())
}

/// `after` is what the grid becomes when the doomed slots are removed and
/// every column is refilled, the new tokens numbered from `first_entity` on,
/// column by column from the left and upward within a column.
pub open spec fn refilled(before: Grid, after: Grid, doomed: Seq<Slot>, first_entity: int) -> bool {
    &&& after.len() == before.len()
    &&& forall|column: int|
        0 <= column < before.len() ==> column_refilled(
            before[column],
            #[trigger] after[column],
            doomed,
            column,
            first_entity + spawned_before(before, doomed, column),
        )
}

/// The slots of a column whose content changes: every row from the lowest
/// doomed one to the top, upward.
pub open spec fn column_changed(doomed: Seq<Slot>, column: int, height: int) -> Seq<Slot> {
    let lowest = lowest_doomed(doomed, column, 0, height);
    Seq::new((height - lowest) as nat, |offset: int| slot_at(column, lowest + offset))
}

/// The slots whose content changes in the first `columns` columns, column by
/// column from the left.
pub open spec fn changed_slots(doomed: Seq<Slot>, columns: int, height: int) -> Seq<Slot>
    decreases columns,
{
    if columns <= 0 {
        Seq::empty()
    } else {
        changed_slots(doomed, columns - 1, height) + column_changed(doomed, columns - 1, height)
    }
}

/// A column keeps at most the cells it has, and all of them exactly when
/// none of its rows is doomed; the cells below the lowest doomed row stay
/// where they are.
pub proof fn lemma_survivors(cells: Seq<SlotContent>, doomed: Seq<Slot>, column: int, from: int)
    requires
        0 <= from <= cells.len(),
    ensures
        survivors(cells, doomed, column, from).len() <= cells.len() - from,
        survivors(cells, doomed, column, from).len() >= lowest_doomed(
            doomed,
            column,
            from,
            cells.len() as int,
        ) - from,
        from <= lowest_doomed(doomed, column, from, cells.len() as int) <= cells.len(),
        survivors(cells, doomed, column, from).len() == cells.len() - from <==> lowest_doomed(
            doomed,
            column,
            from,
            cells.len() as int,
        ) == cells.len(),
        forall|row: int|
            from <= row < lowest_doomed(doomed, column, from, cells.len() as int) ==> survivors(
                cells,
                doomed,
                column,
                from,
            )[row - from] == #[trigger] cells[row],
        forall|row: int|
            from <= row < lowest_doomed(doomed, column, from, cells.len() as int)
                ==> !doomed.contains(#[trigger] slot_at(column, row)),
        lowest_doomed(doomed, column, from, cells.len() as int) < cells.len() ==> doomed.contains(
            slot_at(column, lowest_doomed(doomed, column, from, cells.len() as int)),
        ),
    decreases cells.len() - from,
{
    if from < cells.len() {
        lemma_survivors(cells, doomed, column, from + 1);
        let above = survivors(cells, doomed, column, from + 1);
        if !doomed.contains(slot_at(column, from)) {
            let here = survivors(cells, doomed, column, from);
            assert(here == seq![cells[from]] + above);
            assert forall|row: int|
                from <= row < lowest_doomed(
                    doomed,
                    column,
                    from,
                    cells.len() as int,
                ) implies here[row - from] == #[trigger] cells[row] by {
                if row > from {
                    assert(here[row - from] == above[row - from - 1]);
                }
            }
        }
    }
}

/// The columns before `column` lose at most all their cells.
pub proof fn lemma_spawned_bound(
    grid: Grid,
    doomed: Seq<Slot>,
    column: int,
    width: nat,
    height: nat,
)
    requires
        well_shaped(grid, width, height),
        0 <= column <= width,
    ensures
        0 <= spawned_before(grid, doomed, column) <= column * height,
        column * height <= width * height,
    decreases column,
{
    if column > 0 {
        lemma_spawned_bound(grid, doomed, column - 1, width, height);
        lemma_survivors(grid[column - 1], doomed, column - 1, 0);
        assert((column - 1) * height + height == column * height) by (nonlinear_arith);
    }
    assert(column * height <= width * height) by (nonlinear_arith)
        requires
            0 <= column <= width,
            0 <= height,
    ;
}

/// Removing nothing changes nothing: every column keeps all its cells, no
/// token is created and no slot changes.
pub proof fn lemma_nothing_doomed(grid: Grid, after: Grid, width: nat, height: nat, first_entity: int)
    requires
        well_shaped(grid, width, height),
        refilled(grid, after, Seq::<Slot>::empty(), first_entity),
    ensures
        after == grid,
        spawned_before(grid, Seq::<Slot>::empty(), width as int) == 0,
        changed_slots(Seq::<Slot>::empty(), width as int, height as int).len() == 0,
{
    let none = Seq::<Slot>::empty();
    lemma_untouched_columns(grid, none, width as int, width, height);
    assert forall|column: int| 0 <= column < width implies #[trigger] after[column]
        == grid[column] by {
        lemma_untouched_columns(grid, none, column + 1, width, height);
        let kept = survivors(grid[column], none, column, 0);
        assert(after[column] =~= grid[column]);
    }
    assert(after =~= grid);
}

/// Where none of the first `columns` columns holds a doomed slot of the
/// grid, those columns keep their cells, lose nothing and change nowhere.
pub proof fn lemma_untouched_columns(
    grid: Grid,
    doomed: Seq<Slot>,
    columns: int,
    width: nat,
    height: nat,
)
    requires
        well_shaped(grid, width, height),
        0 <= columns <= width,
        forall|column: int, row: int|
            0 <= column < columns && 0 <= row < height ==> !doomed.contains(
                #[trigger] slot_at(column, row),
            ),
    ensures
        spawned_before(grid, doomed, columns) == 0,
        changed_slots(doomed, columns, height as int).len() == 0,
        forall|column: int|
            0 <= column < columns ==> survivors(#[trigger] grid[column], doomed, column, 0)
                == grid[column],
    decreases columns,
{
    if columns > 0 {
        lemma_untouched_columns(grid, doomed, columns - 1, width, height);
        let column = columns - 1;
        lemma_untouched_column(grid[column], doomed, column, 0);
        assert(survivors(grid[column], doomed, column, 0) =~= grid[column]);
    }
}

/// A column without a doomed row at or above `from` keeps those cells.
proof fn lemma_untouched_column(
    cells: Seq<SlotContent>,
    doomed: Seq<Slot>,
    column: int,
    from: int,
)
    requires
        0 <= from <= cells.len(),
        forall|row: int|
            0 <= row < cells.len() ==> !doomed.contains(#[trigger] slot_at(column, row)),
    ensures
        survivors(cells, doomed, column, from) == cells.subrange(from, cells.len() as int),
        lowest_doomed(doomed, column, from, cells.len() as int) == cells.len(),
    decreases cells.len() - from,
{
    if from < cells.len() {
        lemma_untouched_column(cells, doomed, column, from + 1);
        assert(!doomed.contains(slot_at(column, from)));
        assert(survivors(cells, doomed, column, from) =~= cells.subrange(from, cells.len() as int));
    } else {
        assert(survivors(cells, doomed, column, from) =~= cells.subrange(from, cells.len() as int));
    }
}

/// Removing a slot of the grid changes at least that slot.
pub proof fn lemma_changed_nonempty(doomed: Seq<Slot>, slot: Slot, width: int, height: int)
    requires
        doomed.contains(slot),
        slot.column < width,
        slot.row < height,
    ensures
        changed_slots(doomed, width, height).len() > 0,
    decreases width,
{
    if slot.column == width - 1 {
        lemma_lowest_at_most(doomed, slot, 0, height);
    } else {
        lemma_changed_nonempty(doomed, slot, width - 1, height);
    }
}

/// The lowest doomed row of a column lies at or below every doomed row.
proof fn lemma_lowest_at_most(doomed: Seq<Slot>, slot: Slot, from: int, height: int)
    requires
        doomed.contains(slot),
        0 <= from <= slot.row < height,
    ensures
        lowest_doomed(doomed, slot.column as int, from, height) <= slot.row,
    decreases height - from,
{
    if from < slot.row {
        lemma_lowest_at_most(doomed, slot, from + 1, height);
    } else {
        assert(slot_at(slot.column as int, from) == slot);
    }
}

/// The row from which the survivor at place `index`, counted from row
/// `from`, comes.
pub open spec fn origin(doomed: Seq<Slot>, column: int, from: int, index: int, height: int) -> int
    decreases height - from,
{
    if from >= height {
        height
    } else if doomed.contains(slot_at(column, from)) {
        origin(doomed, column, from + 1, index, height)
    } else if index <= 0 {
        from
    } else {
        origin(doomed, column, from + 1, index - 1, height)
    }
}

/// Every survivor is the cell of the row it comes from.
pub proof fn lemma_origin(
    cells: Seq<SlotContent>,
    doomed: Seq<Slot>,
    column: int,
    from: int,
    index: int,
)
    requires
        0 <= from <= cells.len(),
        0 <= index < survivors(cells, doomed, column, from).len(),
    ensures
        from <= origin(doomed, column, from, index, cells.len() as int) < cells.len(),
        survivors(cells, doomed, column, from)[index] == cells[origin(
            doomed,
            column,
            from,
            index,
            cells.len() as int,
        )],
    decreases cells.len() - from,
{
    if from < cells.len() {
        if doomed.contains(slot_at(column, from)) {
            lemma_origin(cells, doomed, column, from + 1, index);
        } else if index > 0 {
            lemma_origin(cells, doomed, column, from + 1, index - 1);
        }
    }
}

/// Survivors keep their order: a later survivor comes from a higher row.
pub proof fn lemma_origin_rises(
    cells: Seq<SlotContent>,
    doomed: Seq<Slot>,
    column: int,
    from: int,
    lower: int,
    upper: int,
)
    requires
        0 <= from <= cells.len(),
        0 <= lower < upper < survivors(cells, doomed, column, from).len(),
    ensures
        origin(doomed, column, from, lower, cells.len() as int) < origin(
            doomed,
            column,
            from,
            upper,
            cells.len() as int,
        ),
    decreases cells.len() - from,
{
    if from < cells.len() {
        if doomed.contains(slot_at(column, from)) {
            lemma_origin_rises(cells, doomed, column, from + 1, lower, upper);
        } else if lower > 0 {
            lemma_origin_rises(cells, doomed, column, from + 1, lower - 1, upper - 1);
        } else {
            lemma_origin(cells, doomed, column, from + 1, upper - 1);
        }
    }
}

/// Later columns are refilled with later numbers.
pub proof fn lemma_spawned_grows(
    grid: Grid,
    doomed: Seq<Slot>,
    earlier: int,
    later: int,
    width: nat,
    height: nat,
)
    requires
        well_shaped(grid, width, height),
        0 <= earlier <= later <= width,
    ensures
        spawned_before(grid, doomed, earlier) <= spawned_before(grid, doomed, later),
    decreases later - earlier,
{
    if earlier < later {
        lemma_spawned_grows(grid, doomed, earlier, later - 1, width, height);
        lemma_survivors(grid[later - 1], doomed, later - 1, 0);
    }
}

/// Where a cell of the refilled grid comes from: it is a survivor, and then
/// the cell of an old row of its column; or it is new, and then its number
/// lies in the range of numbers given out for its column.
proof fn lemma_refilled_cell(
    before: Grid,
    after: Grid,
    doomed: Seq<Slot>,
    first: int,
    width: nat,
    height: nat,
    column: int,
    row: int,
)
    requires
        well_shaped(before, width, height),
        refilled(before, after, doomed, first),
        0 <= column < width,
        0 <= row < height,
    ensures
        after[column].len() == height,
        row < survivors(before[column], doomed, column, 0).len() ==> {
            &&& 0 <= origin(doomed, column, 0, row, height as int) < height
            &&& after[column][row] == before[column][origin(doomed, column, 0, row, height as int)]
        },
        row >= survivors(before[column], doomed, column, 0).len() ==> {
            &&& first + spawned_before(before, doomed, column) <= after[column][row].entity
            &&& after[column][row].entity < first + spawned_before(before, doomed, column + 1)
            &&& after[column][row].entity == first + spawned_before(before, doomed, column) + (row
                - survivors(before[column], doomed, column, 0).len())
        },
{
    let kept = survivors(before[column], doomed, column, 0);
    assert(before[column].len() == height);
    assert(column_refilled(
        before[column],
        after[column],
        doomed,
        column,
        first + spawned_before(before, doomed, column),
    ));
    lemma_survivors(before[column], doomed, column, 0);
    if row < kept.len() {
        lemma_origin(before[column], doomed, column, 0, row);
        assert(after[column][row] == kept[row]);
    } else {
        assert(after[column][row].entity == first + spawned_before(before, doomed, column) + (row
            - kept.len()));
    }
}

/// Removal and refill keep the tokens apart: if no two cells held the same
/// number and every number lay below the first new one, then afterwards no
/// two cells hold the same number either, and every number lies below the
/// next one to be given out.
pub proof fn lemma_refill_keeps_tokens_apart(
    before: Grid,
    after: Grid,
    doomed: Seq<Slot>,
    first: int,
    width: nat,
    height: nat,
)
    requires
        well_shaped(before, width, height),
        refilled(before, after, doomed, first),
        numbered_apart(before, first),
    ensures
        well_shaped(after, width, height),
        numbered_apart(after, first + spawned_before(before, doomed, width as int)),
{
    let bound = first + spawned_before(before, doomed, width as int);
    assert forall|column: int| 0 <= column < width implies (#[trigger] after[column]).len()
        == height by {
        assert(before[column].len() == height);
        assert(column_refilled(
            before[column],
            after[column],
            doomed,
            column,
            first + spawned_before(before, doomed, column),
        ));
    }
    assert forall|column: int, row: int|
        0 <= column < after.len() && 0 <= row < after[column].len() implies (#[trigger] after[column][row]).entity
        < bound by {
        lemma_refilled_cell(before, after, doomed, first, width, height, column, row);
        lemma_spawned_grows(before, doomed, 0, width as int, width, height);
        lemma_spawned_grows(before, doomed, column + 1, width as int, width, height);
        if row < survivors(before[column], doomed, column, 0).len() {
            let from = origin(doomed, column, 0, row, height as int);
            assert(before[column][from].entity < first);
        }
    }
    assert forall|column: int, row: int, other_column: int, other_row: int|
        0 <= column < after.len() && 0 <= row < after[column].len() && 0 <= other_column
            < after.len() && 0 <= other_row < after[other_column].len() && (column != other_column
            || row != other_row) implies (#[trigger] after[column][row]).entity
        != (#[trigger] after[other_column][other_row]).entity by {
        lemma_refilled_cell(before, after, doomed, first, width, height, column, row);
        lemma_refilled_cell(before, after, doomed, first, width, height, other_column, other_row);
        let kept = survivors(before[column], doomed, column, 0).len();
        let other_kept = survivors(before[other_column], doomed, other_column, 0).len();
        if row < kept && other_row < other_kept {
            let from = origin(doomed, column, 0, row, height as int);
            let other_from = origin(doomed, other_column, 0, other_row, height as int);
            if column == other_column {
                if row < other_row {
                    lemma_origin_rises(before[column], doomed, column, 0, row, other_row);
                } else {
                    lemma_origin_rises(before[column], doomed, column, 0, other_row, row);
                }
            }
            assert(before[column][from].entity != before[other_column][other_from].entity);
        } else if row < kept {
            let from = origin(doomed, column, 0, row, height as int);
            assert(before[column][from].entity < first);
            lemma_spawned_grows(before, doomed, 0, other_column, width, height);
        } else if other_row < other_kept {
            let other_from = origin(doomed, other_column, 0, other_row, height as int);
            assert(before[other_column][other_from].entity < first);
            lemma_spawned_grows(before, doomed, 0, column, width, height);
        } else if column < other_column {
            lemma_spawned_grows(before, doomed, column + 1, other_column, width, height);
        } else if other_column < column {
            lemma_spawned_grows(before, doomed, other_column + 1, column, width, height);
        }
    }
}

} // verus!

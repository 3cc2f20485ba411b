//! The board engine: owner of the grid.

use crate::detector::{
    all_patterns, ascending, cell, closes, column_patterns, covered, flatten_slots, has_pattern,
    is_line, lemma_ascending_holds_three, lemma_patterns_are_lines, lemma_windows, lines_of,
    row_patterns, window, windows, windows_in_line,
};
use crate::gravity::{
    changed_slots, column_changed, column_refilled, lemma_changed_nonempty,
    lemma_refill_keeps_tokens_apart, lemma_spawned_bound, lemma_spawned_grows, lemma_survivors, lowest_doomed, refilled, spawned_before, survivors,
};
use crate::grid::{
    content_at, in_grid, lemma_counted_grid_apart, lemma_swap_keeps_tokens_apart,
    lemma_swapped_twice, neighbor_steps, neighbors_of, numbered_apart, reached, slot_at,
    step_target, swapped, well_shaped, with_content, Grid,
};
use crate::matcher::{Collectable, Pattern, Slot, SlotContent};
use vstd::prelude::*;

verus! {

/// Rows of the board the game is played on.
pub const BOARD_HEIGHT: usize = 9;

/// Columns of the board the game is played on.
pub const BOARD_WIDTH: usize = 8;

/// An instruction to the renderer: bring the token known as `entity` to the
/// place of `target`.
#[derive(Clone, Copy, Debug, PartialEq, Eq, Structural)]
pub struct Relocation {
    pub entity: u64,
    pub target: Slot,
}

/// The instructions that go with an exchange: each of the two tokens is to
/// go to the other's place.
pub open spec fn switch_moves(grid: Grid, one: Slot, two: Slot) -> (Relocation, Relocation) {
    (
        Relocation { entity: content_at(grid, one).entity, target: two },
        Relocation { entity: content_at(grid, two).entity, target: one },
    )
}

/// What one step of a cascade did.
#[derive(Debug)]
pub struct Cascade {
    /// The slots that held a match, each once, in ascending order.
    pub removed: Vec<Slot>,
    /// What those slots held, in the same order: the tokens handed on to the
    /// cauldron.
    pub matched: Vec<SlotContent>,
    /// The slots whose content changed and must be animated into place.
    pub moved: Vec<Slot>,
}

/// Whether `slot` occurs in `slots`.
pub fn contains_slot(slots: &Vec<Slot>, slot: &Slot) -> (found: bool)
    ensures
        found == slots@.contains(*slot),
{
    let mut index: usize = 0;
    while index < slots.len()
        invariant
            index <= slots@.len(),
            forall|before: int| 0 <= before < index ==> slots@[before] != *slot,
        decreases slots@.len() - index,
    {
        if slots[index] == *slot {
            return true;
        }
        index = index + 1;
    }
    false
}

/// The authoritative state of the playing field: a grid of `width` columns
/// with `height` cells each, a flag that is set while tokens are in transit,
/// and the number that the next token created here will carry.
#[derive(Clone, Debug)]
pub struct Board {
    height: usize,
    width: usize,
    animating: bool,
    slots: Vec<Vec<SlotContent>>,
    next_entity: u64,
}

impl View for Board {
    type V = Grid;

    closed spec fn view(&self) -> Grid {
        Seq::new(self.slots@.len(), |column: int| self.slots@[column]@)
    }
}

impl Board {
    /// Number of rows.
    pub closed spec fn rows(&self) -> nat {
        self.height as nat
    }

    /// Number of columns.
    pub closed spec fn columns(&self) -> nat {
        self.width as nat
    }

    /// Tokens are in transit; input is ignored meanwhile.
    pub closed spec fn busy(&self) -> bool {
        self.animating
    }

    /// The identifier the next token created by the board will carry.
    pub closed spec fn next_id(&self) -> nat {
        self.next_entity as nat
    }

    /// The board can still number a whole grid of new tokens.
    pub open spec fn can_refill(&self) -> bool {
        self.next_id() + self.rows() * self.columns() <= u64::MAX
    }

    /// The board can still number the tokens that take the place of the
    /// given slots.
    pub open spec fn can_replace(&self, slots: Seq<Slot>) -> bool {
        self.next_id() + spawned_before(self@, slots, self.columns() as int) <= u64::MAX
    }

    /// A board that can number a whole grid of new tokens can replace any
    /// slots.
    pub proof fn lemma_can_replace(&self, slots: Seq<Slot>)
        requires
            self.wf(),
            self.can_refill(),
        ensures
            self.can_replace(slots),
    {
        lemma_spawned_bound(self@, slots, self.columns() as int, self.columns(), self.rows());
        let tall = self.rows() as int;
        let wide = self.columns() as int;
        assert(tall * wide == wide * tall) by (nonlinear_arith);
    }

    /// No two cells hold the same token, and every token was numbered
    /// before the number the board will give out next.
    pub open spec fn tokens_apart(&self) -> bool {
        numbered_apart(self@, self.next_id() as int)
    }

    /// Every column holds exactly as many cells as the board has rows.
    pub open spec fn wf(&self) -> bool {
        well_shaped(self@, self.columns(), self.rows())
    }

    /// The slot lies on this board.
    pub open spec fn holds(&self, slot: Slot) -> bool {
        in_grid(slot, self.columns(), self.rows())
    }

    /// The stored columns are the columns of the view.
    proof fn lemma_columns(&self)
        requires
            self.wf(),
        ensures
            self.slots@.len() == self.width,
            forall|column: int|
                0 <= column < self.width ==> (#[trigger] self.slots@[column])@ == self@[column],
            forall|column: int|
                0 <= column < self.width ==> (#[trigger] self.slots@[column])@.len() == self.height,
    {
        assert forall|column: int| 0 <= column < self.width implies (#[trigger] self.slots@[column])@.len()
            == self.height by {
            assert(self@[column].len() == self.height);
        }
    }

    /// A board over the given columns, at rest. It is made exactly when
    /// there are `width` columns of `height` cells each. Tokens that the
    /// board creates later are numbered from `next_entity` on.
    pub fn from_columns(
        height: usize,
        width: usize,
        slots: Vec<Vec<SlotContent>>,
        next_entity: u64,
    ) -> (made: Option<Board>)
        ensures
            made.is_some() <==> well_shaped(
                Seq::new(slots@.len(), |column: int| slots@[column]@),
                width as nat,
                height as nat,
            ),
            made matches Some(board) ==> {
                &&& board.wf()
                &&& board@ == Seq::new(slots@.len(), |column: int| slots@[column]@)
                &&& board.rows() == height
                &&& board.columns() == width
                &&& board.next_id() == next_entity
                &&& !board.busy()
            },
    {
        let ghost grid = Seq::new(slots@.len(), |column: int| slots@[column]@);
        if slots.len() != width {
            return None;
        }
        let mut column: usize = 0;
        while column < width
            invariant
                column <= width,
                slots@.len() == width,
                grid == Seq::new(slots@.len(), |column: int| slots@[column]@),
                forall|before: int| 0 <= before < column ==> (#[trigger] grid[before]).len() == height,
            decreases width - column,
        {
            if slots[column].len() != height {
                assert(grid[column as int].len() != height);
                return None;
            }
            column = column + 1;
        }
        Some(Board { height, width, animating: false, slots, next_entity })
    }

    pub fn height(&self) -> (height: usize)
        ensures
            height == self.rows(),
    {
        self.height
    }

    pub fn animating(&self) -> (busy: bool)
        ensures
            busy == self.busy(),
    {
        self.animating
    }

    /// Whether the slot lies on this board.
    pub fn is_on_board(&self, slot: &Slot) -> (on_board: bool)
        ensures
            on_board == self.holds(*slot),
    {
        slot.column < self.width && slot.row < self.height
    }

    /// Whether the board can still number a whole grid of new tokens.
    pub fn refill_fits(&self) -> (fits: bool)
        ensures
            fits == self.can_refill(),
    {
        let cells = (self.height as u64).checked_mul(self.width as u64);
        match cells {
            Some(cells) => self.next_entity.checked_add(cells).is_some(),
            None => {
                assert(self.height * self.width > u64::MAX);
                false
            },
        }
    }

    pub fn next_entity(&self) -> (next: u64)
        ensures
            next == self.next_id(),
    {
        self.next_entity
    }

    pub fn width(&self) -> (width: usize)
        ensures
            width == self.columns(),
    {
        self.width
    }

    pub fn get_content(&self, slot: &Slot) -> (content: SlotContent)
        requires
            self.wf(),
            self.holds(*slot),
        ensures
            content == content_at(self@, *slot),
    {
        self.slots[slot.column][slot.row]
    }

    fn switch_in_slots(&mut self, one: &Slot, tile_one: SlotContent, two: &Slot, tile_two: SlotContent)
        requires
            old(self).wf(),
            old(self).holds(*one),
            old(self).holds(*two),
        ensures
            final(self)@ == with_content(with_content(old(self)@, *one, tile_two), *two, tile_one),
            final(self).wf(),
            final(self).rows() == old(self).rows(),
            final(self).columns() == old(self).columns(),
            final(self).next_id() == old(self).next_id(),
            final(self).busy() == old(self).busy(),
    {
        proof {
            old(self).lemma_columns();
        }
        self.slots[one.column][one.row] = tile_two;
        self.slots[two.column][two.row] = tile_one;
        proof {
            let first = with_content(old(self)@, *one, tile_two);
            let second = with_content(first, *two, tile_one);
            assert forall|column: int| 0 <= column < self.width implies #[trigger] self@[column]
                == second[column] by {
                assert(self@[column] =~= second[column]);
            }
            assert(self@ =~= second);
        }
    }

    /// Walks every line along one axis with a running kind and run length,
    /// and emits a match whenever the run reaches three.
    fn scan(&self, along_rows: bool) -> (patterns: Vec<Pattern>)
        requires
            self.wf(),
        ensures
            along_rows ==> lines_of(patterns@) == row_patterns(self@, self.columns(), self.rows()),
            !along_rows ==> lines_of(patterns@) == column_patterns(
                self@,
                self.columns(),
                self.rows(),
            ),
    {
        let lines = if along_rows {
            self.height
        } else {
            self.width
        };
        let length = if along_rows {
            self.width
        } else {
            self.height
        };
        let mut patterns: Vec<Pattern> = Vec::new();
        let mut line: usize = 0;
        assert(lines_of(patterns@) =~= windows(self@, along_rows, 0, length as int));
        while line < lines
            invariant
                self.wf(),
                line <= lines,
                lines == if along_rows {
                    self.height
                } else {
                    self.width
                },
                length == if along_rows {
                    self.width
                } else {
                    self.height
                },
                lines_of(patterns@) == windows(self@, along_rows, line as int, length as int),
            decreases lines - line,
        {
            let mut count: usize = 0;
            let mut current: Option<Collectable> = None;
            let mut position: usize = 0;
            let ghost before = lines_of(patterns@);
            assert(lines_of(patterns@) =~= before + windows_in_line(
                self@,
                along_rows,
                line as int,
                0,
            ));
            while position < length
                invariant
                    self.wf(),
                    line < lines,
                    position <= length,
                    lines == if along_rows {
                        self.height
                    } else {
                        self.width
                    },
                    length == if along_rows {
                        self.width
                    } else {
                        self.height
                    },
                    before == windows(self@, along_rows, line as int, length as int),
                    lines_of(patterns@) == before + windows_in_line(
                        self@,
                        along_rows,
                        line as int,
                        position as int,
                    ),
                    position == 0 ==> current.is_none() && count == 0,
                    position > 0 ==> current == Some(
                        cell(self@, along_rows, line as int, position - 1),
                    ) && 1 <= count <= position,
                    count >= 2 <==> position >= 2 && cell(
                        self@,
                        along_rows,
                        line as int,
                        position - 1,
                    ) == cell(self@, along_rows, line as int, position - 2),
                    count >= 3 <==> position >= 3 && closes(
                        self@,
                        along_rows,
                        line as int,
                        position - 1,
                    ),
                decreases length - position,
            {
                let slot = if along_rows {
                    Slot { column: position, row: line }
                } else {
                    Slot { column: line, row: position }
                };
                let kind = self.get_content(&slot).collectable;
                assert(kind == cell(
                    self@,
                    along_rows,
                    line as int,
                    position as int,
                ));
                match current {
                    Some(running) => {
                        if running == kind {
                            count = count + 1;
                        } else {
                            current = Some(kind);
                            count = 1;
                        }
                    },
                    None => {
                        current = Some(kind);
                        count = 1;
                    },
                }
                if count >= 3 {
                    let slots = if along_rows {
                        vec![
                            Slot { column: position, row: line },
                            Slot { column: position - 1, row: line },
                            Slot { column: position - 2, row: line },
                        ]
                    } else {
                        vec![
                            Slot { column: line, row: position },
                            Slot { column: line, row: position - 1 },
                            Slot { column: line, row: position - 2 },
                        ]
                    };
                    let ghost earlier = lines_of(patterns@);
                    assert(slots@ =~= window(along_rows, line as int, position as int));
                    patterns.push(Pattern::Line { slots });
                    assert(lines_of(patterns@) =~= earlier.push(
                        window(along_rows, line as int, position as int),
                    ));
                }
                position = position + 1;
            }
            line = line + 1;
        }
        patterns
    }

    /// The matches along the rows, bottom row first, each row scanned from
    /// left to right.
    pub fn find_patterns_in_rows(&self) -> (patterns: Vec<Pattern>)
        requires
            self.wf(),
        ensures
            lines_of(patterns@) == row_patterns(self@, self.columns(), self.rows()),
    {
        self.scan(true)
    }

    /// The matches along the columns, leftmost column first, each column
    /// scanned from the bottom up.
    pub fn find_patterns_in_columns(&self) -> (patterns: Vec<Pattern>)
        requires
            self.wf(),
        ensures
            lines_of(patterns@) == column_patterns(self@, self.columns(), self.rows()),
    {
        self.scan(false)
    }

    /// All matches on the board: those of the row scan, then those of the
    /// column scan. There is none exactly when the grid holds no three equal
    /// tokens side by side.
    pub fn find_patterns(&self) -> (patterns: Vec<Pattern>)
        requires
            self.wf(),
        ensures
            lines_of(patterns@) == all_patterns(self@, self.columns(), self.rows()),
            patterns@.len() == 0 <==> !has_pattern(self@, self.columns(), self.rows()),
    {
        let mut patterns = self.find_patterns_in_rows();
        let mut in_columns = self.find_patterns_in_columns();
        let ghost in_rows = patterns@;
        let ghost upright = in_columns@;
        patterns.append(&mut in_columns);
        proof {
            assert(lines_of(patterns@) =~= lines_of(in_rows) + lines_of(upright));
            lemma_windows(self@, true, self.height as int, self.width as int);
            lemma_windows(self@, false, self.width as int, self.height as int);
        }
        patterns
    }

    /// Exchanges the contents of two slots for good and tells the renderer to
    /// bring each of the two tokens to the other's place. The board is busy
    /// from then on. Matches are neither looked for nor removed.
    pub fn switch(&mut self, one: &Slot, two: &Slot) -> (moves: (Relocation, Relocation))
        requires
            old(self).wf(),
            old(self).holds(*one),
            old(self).holds(*two),
        ensures
            final(self)@ == swapped(old(self)@, *one, *two),
            final(self).wf(),
            final(self).rows() == old(self).rows(),
            final(self).columns() == old(self).columns(),
            final(self).next_id() == old(self).next_id(),
            final(self).busy(),
            old(self).tokens_apart() ==> final(self).tokens_apart(),
            moves == switch_moves(old(self)@, *one, *two),
    {
        proof {
            if self.tokens_apart() {
                lemma_swap_keeps_tokens_apart(
                    self@,
                    *one,
                    *two,
                    self.columns(),
                    self.rows(),
                    self.next_id() as int,
                );
            }
        }
        let tile_one = self.get_content(one);
        let tile_two = self.get_content(two);
        let moves = (
            Relocation { entity: tile_one.entity, target: *two },
            Relocation { entity: tile_two.entity, target: *one },
        );
        self.switch_in_slots(one, tile_one, two, tile_two);
        self.animating = true;
        moves
    }

    /// Whether exchanging the contents of two slots would leave a match on
    /// the board. The exchange is tried and undone: the board is afterwards
    /// what it was before, whatever the answer.
    pub fn has_pattern_after_switch(&mut self, one: &Slot, two: &Slot) -> (found: bool)
        requires
            old(self).wf(),
            old(self).holds(*one),
            old(self).holds(*two),
        ensures
            found == has_pattern(
                swapped(old(self)@, *one, *two),
                old(self).columns(),
                old(self).rows(),
            ),
            final(self)@ == old(self)@,
            final(self).wf(),
            final(self).rows() == old(self).rows(),
            final(self).columns() == old(self).columns(),
            final(self).next_id() == old(self).next_id(),
            final(self).busy() == old(self).busy(),
    {
        let tile_one = self.get_content(one);
        let tile_two = self.get_content(two);
        self.switch_in_slots(one, tile_one, two, tile_two);

        let has_patterns = !self.find_patterns().is_empty();

        let tile_one = self.get_content(one);
        let tile_two = self.get_content(two);
        self.switch_in_slots(one, tile_one, two, tile_two);
        proof {
            lemma_swapped_twice(old(self)@, *one, *two, old(self).columns(), old(self).rows());
        }
        has_patterns
    }

    /// The slot one step away, if it lies on the board.
    fn step(&self, position: &Slot, row_delta: i64, column_delta: i64) -> (target: Option<Slot>)
        requires
            self.wf(),
            self.holds(*position),
        ensures
            target == step_target(
                *position,
                (row_delta as int, column_delta as int),
                self.columns(),
                self.rows(),
            ),
    {
        let row: i128 = position.row as i128 + row_delta as i128;
        let column: i128 = position.column as i128 + column_delta as i128;
        if 0 <= row && row < self.height as i128 && 0 <= column && column < self.width as i128 {
            Some(position.walk(row_delta, column_delta))
        } else {
            None
        }
    }

    /// The slots side by side with `position`, clipped at the borders of the
    /// board.
    pub fn neighbors(&self, position: &Slot) -> (neighbors: Vec<Slot>)
        requires
            self.wf(),
            self.holds(*position),
        ensures
            neighbors@ == neighbors_of(*position, self.columns(), self.rows()),
    {
        let bottom = position.row == 0;
        let top = position.row == self.height - 1;
        let left = position.column == 0;
        let right = position.column == self.width - 1;
        let steps: Vec<(i64, i64)> = if bottom && left {
            vec![(1, 0), (0, 1)]
        } else if bottom && right {
            vec![(1, 0), (0, -1)]
        } else if top && right {
            vec![(-1, 0), (0, -1)]
        } else if top && left {
            vec![(-1, 0), (0, 1)]
        } else if bottom {
            vec![(0, 1), (0, -1), (1, 0)]
        } else if left {
            vec![(1, 0), (0, 1), (-1, 0)]
        } else if top {
            vec![(0, 1), (-1, 0), (0, -1)]
        } else if right {
            vec![(-1, 0), (0, -1), (1, 0)]
        } else {
            vec![(1, 0), (0, 1), (-1, 0), (0, -1)]
        };
        let ghost wanted = neighbor_steps(*position, self.columns(), self.rows());
        assert(wanted.len() == steps@.len());
        assert(forall|index: int|
            0 <= index < steps@.len() ==> wanted[index] == ((#[trigger] steps@[index]).0 as int, steps@[index].1 as int));
        let mut neighbors: Vec<Slot> = Vec::new();
        let mut index: usize = 0;
        while index < steps.len()
            invariant
                self.wf(),
                self.holds(*position),
                index <= steps@.len(),
                wanted.len() == steps@.len(),
                forall|index: int|
                    0 <= index < steps@.len() ==> wanted[index] == (
                        (#[trigger] steps@[index]).0 as int,
                        steps@[index].1 as int,
                    ),
                neighbors@ == reached(*position, wanted, index as int, self.columns(), self.rows()),
            decreases steps@.len() - index,
        {
            let (row_delta, column_delta) = steps[index];
            match self.step(position, row_delta, column_delta) {
                Some(target) => {
                    neighbors.push(target);
                },
                None => {},
            }
            index = index + 1;
        }
        neighbors
    }

    /// Records what the renderer reports: `pending` tokens still have a move
    /// or a throw to finish. The board is busy exactly while there is one.
    pub fn settle(&mut self, pending: usize)
        ensures
            final(self).busy() == (pending > 0),
            final(self)@ == old(self)@,
            final(self).wf() == old(self).wf(),
            final(self).rows() == old(self).rows(),
            final(self).columns() == old(self).columns(),
            final(self).next_id() == old(self).next_id(),
    {
        if self.animating != (pending > 0) {
            self.animating = pending > 0;
        }
    }

    /// Creates a token of a random kind under the next free identifier.
    fn drop_random_collectable(&mut self) -> (content: SlotContent)
        requires
            old(self).next_entity < u64::MAX,
        ensures
            content.entity == old(self).next_entity,
            final(self).next_entity == old(self).next_entity + 1,
            final(self).slots == old(self).slots,
            final(self).height == old(self).height,
            final(self).width == old(self).width,
            final(self).animating == old(self).animating,
    {
        let collectable = Collectable::random();
        let entity = self.next_entity;
        self.next_entity = self.next_entity + 1;
        SlotContent { entity, collectable }
    }

    /// Tops a column up to the height of the board with new random tokens.
    fn fill_column(&mut self, column: usize)
        requires
            column < old(self).slots@.len(),
            old(self).slots@[column as int]@.len() <= old(self).height,
            old(self).next_entity + (old(self).height - old(self).slots@[column as int]@.len())
                <= u64::MAX,
        ensures
            final(self).slots@.len() == old(self).slots@.len(),
            final(self).height == old(self).height,
            final(self).width == old(self).width,
            final(self).animating == old(self).animating,
            forall|other: int|
                0 <= other < old(self).slots@.len() && other != column
                    ==> #[trigger] final(self).slots@[other] == old(self).slots@[other],
            final(self).slots@[column as int]@.len() == old(self).height,
            forall|row: int|
                0 <= row < old(self).slots@[column as int]@.len()
                    ==> #[trigger] final(self).slots@[column as int]@[row]
                    == old(self).slots@[column as int]@[row],
            forall|row: int|
                old(self).slots@[column as int]@.len() <= row < old(self).height
                    ==> (#[trigger] final(self).slots@[column as int]@[row]).entity == old(self).next_entity + (row - old(self).slots@[column as int]@.len()),
            final(self).next_entity == old(self).next_entity + (old(self).height
                - old(self).slots@[column as int]@.len()),
    {
        let full_rows = self.slots[column].len();
        let mut new_content: Vec<SlotContent> = Vec::new();
        let mut row = full_rows;
        while row < self.height
            invariant
                full_rows <= row <= self.height,
                self.slots == old(self).slots,
                self.height == old(self).height,
                self.width == old(self).width,
                self.animating == old(self).animating,
                self.next_entity == old(self).next_entity + (row - full_rows),
                old(self).next_entity + (old(self).height - full_rows) <= u64::MAX,
                new_content@.len() == row - full_rows,
                forall|index: int|
                    0 <= index < new_content@.len() ==> (#[trigger] new_content@[index]).entity
                        == old(self).next_entity + index,
            decreases self.height - row,
        {
            let slot_content = self.drop_random_collectable();
            new_content.push(slot_content);
            row = row + 1;
        }
        self.slots[column].append(&mut new_content);
    }

    /// A board of the given size filled with random tokens that are still
    /// dropping in: the board starts busy. The tokens are numbered from 0,
    /// column by column and upward within a column.
    pub fn random(height: usize, width: usize) -> (board: Board)
        requires
            height * width <= u64::MAX,
        ensures
            board.wf(),
            board.rows() == height,
            board.columns() == width,
            board.busy(),
            board.next_id() == height * width,
            board.tokens_apart(),
            forall|column: int, row: int|
                0 <= column < width && 0 <= row < height ==> (#[trigger] board@[column][row]).entity
                    == column * height + row,
    {
        let mut board = Board { height, width, animating: true, slots: Vec::new(), next_entity: 0 };
        let mut column: usize = 0;
        while column < width
            invariant
                column <= width,
                height * width <= u64::MAX,
                board.height == height,
                board.width == width,
                board.animating,
                board.slots@.len() == column,
                board.next_entity == column * height,
                forall|before: int|
                    0 <= before < column ==> (#[trigger] board.slots@[before])@.len() == height,
                forall|before: int, row: int|
                    0 <= before < column && 0 <= row < height ==> (#[trigger] board.slots@[before]@[row]).entity
                        == before * height + row,
            decreases width - column,
        {
            board.slots.push(Vec::new());
            proof {
                assert(column * height + height == (column + 1) * height) by (nonlinear_arith);
                assert((column + 1) * height <= height * width) by (nonlinear_arith)
                    requires
                        column + 1 <= width,
                        0 <= height,
                ;
            }
            board.fill_column(column);
            column = column + 1;
        }
        proof {
            assert(width * height == height * width) by (nonlinear_arith);
            assert forall|column: int, row: int|
                0 <= column < width && 0 <= row < height implies (#[trigger] board@[column][row]).entity
                == column * height + row by {
                assert(board@[column][row] == board.slots@[column]@[row]);
            }
            assert forall|column: int| 0 <= column < width implies (#[trigger] board@[column]).len()
                == height by {
                assert(board@[column] == board.slots@[column]@);
            }
            lemma_counted_grid_apart(board@, width as nat, height as nat);
        }
        board
    }

    /// Removes the given slots from their columns, lets the cells above them
    /// sink, and fills every column up again with new random tokens. Returns
    /// the slots whose content changed, column by column from the left and
    /// upward within a column. The board is busy afterwards if anything
    /// changed.
    pub fn remove_slots(&mut self, slots: Vec<Slot>) -> (changed: Vec<Slot>)
        requires
            old(self).wf(),
            old(self).can_replace(slots@),
            forall|index: int| 0 <= index < slots@.len() ==> old(self).holds(#[trigger] slots@[index]),
        ensures
            final(self).wf(),
            final(self).rows() == old(self).rows(),
            final(self).columns() == old(self).columns(),
            refilled(old(self)@, final(self)@, slots@, old(self).next_id() as int),
            final(self).next_id() == old(self).next_id() + spawned_before(
                old(self)@,
                slots@,
                old(self).columns() as int,
            ),
            changed@ == changed_slots(slots@, old(self).columns() as int, old(self).rows() as int),
            final(self).busy() == (old(self).busy() || changed@.len() > 0),
            old(self).tokens_apart() ==> final(self).tokens_apart(),
    {
        let ghost before = self@;
        let ghost first = self.next_entity as int;
        let mut changed: Vec<Slot> = Vec::new();
        let mut column: usize = 0;
        proof {
            old(self).lemma_columns();
        }
        while column < self.width
            invariant
                column <= self.width,
                self.width == old(self).width,
                self.height == old(self).height,
                self.animating == old(self).animating,
                old(self).wf(),
                old(self).can_replace(slots@),
                before == old(self)@,
                first == old(self).next_entity,
                self.slots@.len() == self.width,
                forall|later: int|
                    column <= later < self.width ==> (#[trigger] self.slots@[later])@
                        == before[later],
                forall|earlier: int|
                    0 <= earlier < column ==> column_refilled(
                        before[earlier],
                        (#[trigger] self.slots@[earlier])@,
                        slots@,
                        earlier,
                        first + spawned_before(before, slots@, earlier),
                    ),
                self.next_entity == first + spawned_before(before, slots@, column as int),
                changed@ == changed_slots(slots@, column as int, self.height as int),
            decreases self.width - column,
        {
            let ghost cells = before[column as int];
            let mut row = self.height;
            let mut lowest = self.height;
            let ghost entry = self.slots@;
            assert(cells.len() == self.height);
            assert(self.slots@[column as int]@ =~= cells.subrange(0, row as int) + survivors(
                cells,
                slots@,
                column as int,
                row as int,
            ));
            while row > 0
                invariant
                    row <= self.height,
                    column < self.width,
                    self.width == old(self).width,
                    self.height == old(self).height,
                    self.animating == old(self).animating,
                    self.next_entity == first + spawned_before(before, slots@, column as int),
                    cells.len() == self.height,
                    self.slots@.len() == self.width,
                    entry.len() == self.width,
                    forall|other: int|
                        0 <= other < self.width && other != column ==> #[trigger] self.slots@[other]
                            == entry[other],
                    self.slots@[column as int]@ == cells.subrange(0, row as int) + survivors(
                        cells,
                        slots@,
                        column as int,
                        row as int,
                    ),
                    lowest == lowest_doomed(slots@, column as int, row as int, self.height as int),
                decreases row,
            {
                row = row - 1;
                let ghost above = survivors(cells, slots@, column as int, row + 1);
                if contains_slot(&slots, &Slot { row, column }) {
                    self.slots[column].remove(row);
                    lowest = row;
                    assert(self.slots@[column as int]@ =~= cells.subrange(0, row as int) + above);
                } else {
                    assert(self.slots@[column as int]@ =~= cells.subrange(0, row as int) + (
                    seq![cells[row as int]] + above));
                }
            }
            let ghost kept = survivors(cells, slots@, column as int, 0);
            proof {
                assert(self.slots@[column as int]@ =~= kept);
                lemma_survivors(cells, slots@, column as int, 0);
                lemma_spawned_grows(
                    before,
                    slots@,
                    column as int + 1,
                    old(self).columns() as int,
                    old(self).columns(),
                    old(self).rows(),
                );
            }
            let ghost recorded = changed@;
            let mut moved = lowest;
            while moved < self.height
                invariant
                    lowest <= moved <= self.height,
                    changed@ == recorded + Seq::new(
                        (moved - lowest) as nat,
                        |offset: int| slot_at(column as int, lowest + offset),
                    ),
                decreases self.height - moved,
            {
                changed.push(Slot { row: moved, column });
                moved = moved + 1;
            }
            assert(changed@ == recorded + column_changed(slots@, column as int, self.height as int));
            let ghost sunk = self.slots@;
            proof {
                assert(spawned_before(before, slots@, column + 1) == spawned_before(
                    before,
                    slots@,
                    column as int,
                ) + cells.len() - kept.len());
            }
            self.fill_column(column);
            proof {
                let after = self.slots@[column as int]@;
                assert(column_refilled(
                    cells,
                    after,
                    slots@,
                    column as int,
                    first + spawned_before(before, slots@, column as int),
                ));
                assert forall|earlier: int| 0 <= earlier < column + 1 implies column_refilled(
                    before[earlier],
                    (#[trigger] self.slots@[earlier])@,
                    slots@,
                    earlier,
                    first + spawned_before(before, slots@, earlier),
                ) by {
                    if earlier < column {
                        assert(self.slots@[earlier] == sunk[earlier]);
                        assert(sunk[earlier] == entry[earlier]);
                    }
                }
                assert forall|later: int| column + 1 <= later < self.width implies (#[trigger] self.slots@[later])@
                    == before[later] by {
                    assert(self.slots@[later] == sunk[later]);
                    assert(sunk[later] == entry[later]);
                }
            }
            column = column + 1;
        }
        if changed.len() > 0 {
            self.animating = true;
        }
        proof {
            assert forall|column: int| 0 <= column < before.len() implies column_refilled(
                before[column],
                #[trigger] self@[column],
                slots@,
                column,
                first + spawned_before(before, slots@, column),
            ) by {
                assert(self@[column] == self.slots@[column]@);
            }
            assert forall|column: int| 0 <= column < self.width implies (#[trigger] self@[column]).len()
                == self.height by {
                assert(self@[column] == self.slots@[column]@);
                assert(before[column].len() == self.height);
            }
            if old(self).tokens_apart() {
                lemma_refill_keeps_tokens_apart(
                    before,
                    self@,
                    slots@,
                    first,
                    old(self).columns(),
                    old(self).rows(),
                );
            }
        }
        changed
    }

    /// One step of a cascade. While the board is busy, or when it holds no
    /// match, nothing happens. Otherwise every slot that is part of a match
    /// is removed, its token handed out, and the columns are refilled.
    pub fn take_patterns(&mut self) -> (cascade: Cascade)
        requires
            old(self).wf(),
            !old(self).busy() && has_pattern(old(self)@, old(self).columns(), old(self).rows())
                ==> old(self).can_refill(),
        ensures
            final(self).wf(),
            final(self).rows() == old(self).rows(),
            final(self).columns() == old(self).columns(),
            old(self).tokens_apart() ==> final(self).tokens_apart(),
            ascending(cascade.removed@),
            cascade.matched@.len() == cascade.removed@.len(),
            forall|index: int|
                0 <= index < cascade.removed@.len() ==> old(self).holds(
                    #[trigger] cascade.removed@[index],
                ) && cascade.matched@[index] == content_at(old(self)@, cascade.removed@[index]),
            old(self).busy() || !has_pattern(old(self)@, old(self).columns(), old(self).rows()) ==> {
                &&& final(self)@ == old(self)@
                &&& final(self).busy() == old(self).busy()
                &&& final(self).next_id() == old(self).next_id()
                &&& cascade.removed@.len() == 0
                &&& cascade.moved@.len() == 0
            },
            !old(self).busy() && has_pattern(old(self)@, old(self).columns(), old(self).rows()) ==> {
                &&& forall|slot: Slot|
                    cascade.removed@.contains(slot) <==> covered(
                        all_patterns(old(self)@, old(self).columns(), old(self).rows()),
                        slot,
                    )
                &&& refilled(old(self)@, final(self)@, cascade.removed@, old(self).next_id() as int)
                &&& final(self).next_id() == old(self).next_id() + spawned_before(
                    old(self)@,
                    cascade.removed@,
                    old(self).columns() as int,
                )
                &&& cascade.moved@ == changed_slots(
                    cascade.removed@,
                    old(self).columns() as int,
                    old(self).rows() as int,
                )
                &&& cascade.removed@.len() >= 3
                &&& final(self).busy()
            },
    {
        if self.animating {
            return Cascade { removed: Vec::new(), matched: Vec::new(), moved: Vec::new() };
        }
        let patterns = self.find_patterns();
        if patterns.is_empty() {
            return Cascade { removed: Vec::new(), matched: Vec::new(), moved: Vec::new() };
        }
        let pattern_slots = flatten_slots(&patterns);
        let ghost lines = all_patterns(self@, self.columns(), self.rows());
        proof {
            lemma_patterns_are_lines(self@, self.columns(), self.rows());
            assert forall|place: int| 0 <= place < pattern_slots@.len() implies self.holds(
                #[trigger] pattern_slots@[place],
            ) by {
                let slot = pattern_slots@[place];
                assert(pattern_slots@.contains(slot));
                let (line, member) = choose|line: int, member: int|
                    0 <= line < lines.len() && 0 <= member < lines[line].len()
                        && #[trigger] lines[line][member] == slot;
                assert(is_line(self@, self.columns(), self.rows(), lines[line]));
            }
            let first = lines[0];
            assert(is_line(self@, self.columns(), self.rows(), first));
            assert(covered(lines, first[0]) && covered(lines, first[1]) && covered(lines, first[2]));
            lemma_ascending_holds_three(pattern_slots@, first[0], first[1], first[2]);
        }
        let mut removed: Vec<Slot> = Vec::new();
        let mut matched: Vec<SlotContent> = Vec::new();
        let mut index: usize = 0;
        while index < pattern_slots.len()
            invariant
                index <= pattern_slots@.len(),
                self.wf(),
                forall|place: int|
                    0 <= place < pattern_slots@.len() ==> self.holds(#[trigger] pattern_slots@[place]),
                matched@.len() == index,
                removed@ == pattern_slots@.subrange(0, index as int),
                forall|place: int|
                    0 <= place < index ==> #[trigger] matched@[place] == content_at(
                        self@,
                        pattern_slots@[place],
                    ),
            decreases pattern_slots@.len() - index,
        {
            removed.push(pattern_slots[index]);
            matched.push(self.get_content(&pattern_slots[index]));
            index = index + 1;
            assert(removed@ =~= pattern_slots@.subrange(0, index as int));
        }
        assert(removed@ =~= pattern_slots@);
        proof {
            self.lemma_can_replace(pattern_slots@);
        }
        let moved = self.remove_slots(pattern_slots);
        proof {
            lemma_changed_nonempty(
                removed@,
                removed@[0],
                old(self).columns() as int,
                old(self).rows() as int,
            );
        }
        Cascade { removed, matched, moved }
    }
}

/// The board a game starts on: nine rows and eight columns of random
/// tokens, still dropping in.
pub fn prepare_board() -> (board: Board)
    ensures
        board.wf(),
        board.rows() == BOARD_HEIGHT,
        board.columns() == BOARD_WIDTH,
        board.busy(),
        board.next_id() == BOARD_HEIGHT * BOARD_WIDTH,
        board.can_refill(),
        board.tokens_apart(),
        forall|column: int, row: int|
            0 <= column < BOARD_WIDTH && 0 <= row < BOARD_HEIGHT ==> (#[trigger] board@[column][row]).entity
                == column * BOARD_HEIGHT + row,
{
    Board::random(BOARD_HEIGHT, BOARD_WIDTH)
}

} // verus!

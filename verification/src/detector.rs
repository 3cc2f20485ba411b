//! What counts as a match: three equal tokens side by side along a row or a
//! column. A longer run holds one match for every window of three in it.

use crate::grid::{in_grid, kind_at, slot_at, Grid};
use crate::matcher::{Collectable, Pattern, Slot};
use vstd::prelude::*;

verus! {

/// The kind of the cell `position` steps along a line: along row `line` when
/// `along_rows`, along column `line` otherwise.
pub open spec fn cell(grid: Grid, along_rows: bool, line: int, position: int) -> Collectable {
    if along_rows {
        kind_at(grid, position, line)
    } else {
        kind_at(grid, line, position)
    }
}

/// The slot `position` steps along a line.
pub open spec fn slot_on(along_rows: bool, line: int, position: int) -> Slot {
    if along_rows {
        slot_at(position, line)
    } else {
        slot_at(line, position)
    }
}

/// The cell at `position` and the two cells before it on the line hold the
/// same kind.
pub open spec fn closes(grid: Grid, along_rows: bool, line: int, position: int) -> bool {
    &&& position >= 2
    &&& cell(grid, along_rows, line, position) == cell(grid, along_rows, line, position - 1)
    &&& cell(grid, along_rows, line, position - 1) == cell(grid, along_rows, line, position - 2)
}

/// The three slots of the window that closes at `position`, that position
/// first.
pub open spec fn window(along_rows: bool, line: int, position: int) -> Seq<Slot> {
    seq![
        slot_on(along_rows, line, position),
        slot_on(along_rows, line, position - 1),
        slot_on(along_rows, line, position - 2),
    ]
}

/// The windows of one line that close before position `upto`, in the order
/// of their closing positions.
pub open spec fn windows_in_line(grid: Grid, along_rows: bool, line: int, upto: int) -> Seq<
    Seq<Slot>,
>
    decreases upto,
{
    if upto <= 0 {
        Seq::empty()
    } else {
        let earlier = windows_in_line(grid, along_rows, line, upto - 1);
        if closes(grid, along_rows, line, upto - 1) {
            earlier.push(window(along_rows, line, upto - 1))
        } else {
            earlier
        }
    }
}

/// The windows of the first `lines` lines, each line `length` cells long,
/// line by line.
pub open spec fn windows(grid: Grid, along_rows: bool, lines: int, length: int) -> Seq<Seq<Slot>>
    decreases lines,
{
    if lines <= 0 {
        Seq::empty()
    } else {
        windows(grid, along_rows, lines - 1, length) + windows_in_line(
            grid,
            along_rows,
            lines - 1,
            length,
        )
    }
}

/// Some window closes on one of the first `lines` lines.
pub open spec fn has_window(grid: Grid, along_rows: bool, lines: int, length: int) -> bool {
    exists|line: int, position: int|
        0 <= line < lines && 2 <= position < length && #[trigger] closes(
            grid,
            along_rows,
            line,
            position,
        )
}

/// All matches along the rows, bottom row first.
pub open spec fn row_patterns(grid: Grid, width: nat, height: nat) -> Seq<Seq<Slot>> {
    windows(grid, true, height as int, width as int)
}

/// All matches along the columns, leftmost column first.
pub open spec fn column_patterns(grid: Grid, width: nat, height: nat) -> Seq<Seq<Slot>> {
    windows(grid, false, width as int, height as int)
}

/// All matches of a grid: those along the rows, then those along the columns.
pub open spec fn all_patterns(grid: Grid, width: nat, height: nat) -> Seq<Seq<Slot>> {
    row_patterns(grid, width, height) + column_patterns(grid, width, height)
}

/// The grid holds at least one match.
pub open spec fn has_pattern(grid: Grid, width: nat, height: nat) -> bool {
    has_window(grid, true, height as int, width as int) || has_window(
        grid,
        false,
        width as int,
        height as int,
    )
}

/// The slot sequences of a list of patterns.
pub open spec fn lines_of(patterns: Seq<Pattern>) -> Seq<Seq<Slot>> {
    Seq::new(patterns.len(), |index: int| patterns[index]@)
}

/// A sequence of three slots is a proper match on the grid: the slots lie on
/// the grid, follow each other backwards along one row or one column, and
/// hold the same kind.
pub open spec fn is_line(grid: Grid, width: nat, height: nat, slots: Seq<Slot>) -> bool {
    &&& slots.len() == 3
    &&& forall|index: int| 0 <= index < 3 ==> in_grid(#[trigger] slots[index], width, height)
    &&& {
        ||| (slots[0].row == slots[1].row && slots[1].row == slots[2].row && slots[0].column
            == slots[1].column + 1 && slots[1].column == slots[2].column + 1)
        ||| (slots[0].column == slots[1].column && slots[1].column == slots[2].column
            && slots[0].row == slots[1].row + 1 && slots[1].row == slots[2].row + 1)
    }
    &&& kind_at(grid, slots[0].column as int, slots[0].row as int) == kind_at(
        grid,
        slots[1].column as int,
        slots[1].row as int,
    )
    &&& kind_at(grid, slots[1].column as int, slots[1].row as int) == kind_at(
        grid,
        slots[2].column as int,
        slots[2].row as int,
    )
}

/// `slots` is the window of a position before `upto` at which line `line`
/// closes a match.
pub open spec fn closes_in_line(
    grid: Grid,
    along_rows: bool,
    line: int,
    upto: int,
    slots: Seq<Slot>,
) -> bool {
    exists|position: int|
        2 <= position < upto && #[trigger] closes(grid, along_rows, line, position) && slots
            == window(along_rows, line, position)
}

/// `slots` is the window of a closing position on one of the first `lines`
/// lines.
pub open spec fn closes_somewhere(
    grid: Grid,
    along_rows: bool,
    lines: int,
    length: int,
    slots: Seq<Slot>,
) -> bool {
    exists|line: int, position: int|
        0 <= line < lines && 2 <= position < length && #[trigger] closes(
            grid,
            along_rows,
            line,
            position,
        ) && slots == window(along_rows, line, position)
}

/// Every entry of `windows_in_line` is the window of a closing position, and
/// every closing position has its window among the entries.
pub proof fn lemma_windows_in_line(grid: Grid, along_rows: bool, line: int, upto: int)
    ensures
        forall|index: int|
            0 <= index < windows_in_line(grid, along_rows, line, upto).len() ==> closes_in_line(
                grid,
                along_rows,
                line,
                upto,
                #[trigger] windows_in_line(grid, along_rows, line, upto)[index],
            ),
        forall|position: int|
            2 <= position < upto && #[trigger] closes(grid, along_rows, line, position)
                ==> windows_in_line(grid, along_rows, line, upto).contains(
                window(along_rows, line, position),
            ),
    decreases upto,
{
    if upto > 0 {
        lemma_windows_in_line(grid, along_rows, line, upto - 1);
        let earlier = windows_in_line(grid, along_rows, line, upto - 1);
        let now = windows_in_line(grid, along_rows, line, upto);
        assert forall|index: int| 0 <= index < now.len() implies closes_in_line(
            grid,
            along_rows,
            line,
            upto,
            #[trigger] now[index],
        ) by {
            if index < earlier.len() {
                assert(now[index] == earlier[index]);
                assert(closes_in_line(grid, along_rows, line, upto - 1, earlier[index]));
                let position = choose|position: int|
                    2 <= position < upto - 1 && #[trigger] closes(
                        grid,
                        along_rows,
                        line,
                        position,
                    ) && earlier[index] == window(along_rows, line, position);
                assert(closes(grid, along_rows, line, position));
            } else {
                assert(closes(grid, along_rows, line, upto - 1));
                assert(now[index] == window(along_rows, line, upto - 1));
            }
        }
        assert forall|position: int|
            2 <= position < upto && #[trigger] closes(
                grid,
                along_rows,
                line,
                position,
            ) implies now.contains(window(along_rows, line, position)) by {
            if position < upto - 1 {
                assert(earlier.contains(window(along_rows, line, position)));
                let index = choose|index: int|
                    0 <= index < earlier.len() && earlier[index] == window(
                        along_rows,
                        line,
                        position,
                    );
                assert(now[index] == window(along_rows, line, position));
            } else {
                assert(now[now.len() - 1] == window(along_rows, line, position));
            }
        }
    }
}

/// Every entry of `windows` is the window of a closing position on one of the
/// lines, every closing position has its window among the entries, and there
/// is no entry exactly when no position closes.
pub proof fn lemma_windows(grid: Grid, along_rows: bool, lines: int, length: int)
    ensures
        forall|index: int|
            0 <= index < windows(grid, along_rows, lines, length).len() ==> closes_somewhere(
                grid,
                along_rows,
                lines,
                length,
                #[trigger] windows(grid, along_rows, lines, length)[index],
            ),
        forall|line: int, position: int|
            0 <= line < lines && 2 <= position < length && #[trigger] closes(
                grid,
                along_rows,
                line,
                position,
            ) ==> windows(grid, along_rows, lines, length).contains(
                window(along_rows, line, position),
            ),
        windows(grid, along_rows, lines, length).len() == 0 <==> !has_window(
            grid,
            along_rows,
            lines,
            length,
        ),
    decreases lines,
{
    if lines > 0 {
        lemma_windows(grid, along_rows, lines - 1, length);
        lemma_windows_in_line(grid, along_rows, lines - 1, length);
        let earlier = windows(grid, along_rows, lines - 1, length);
        let last = windows_in_line(grid, along_rows, lines - 1, length);
        let now = windows(grid, along_rows, lines, length);
        assert forall|index: int| 0 <= index < now.len() implies closes_somewhere(
            grid,
            along_rows,
            lines,
            length,
            #[trigger] now[index],
        ) by {
            if index < earlier.len() {
                assert(now[index] == earlier[index]);
                assert(closes_somewhere(grid, along_rows, lines - 1, length, earlier[index]));
                let (line, position) = choose|line: int, position: int|
                    0 <= line < lines - 1 && 2 <= position < length && #[trigger] closes(
                        grid,
                        along_rows,
                        line,
                        position,
                    ) && earlier[index] == window(along_rows, line, position);
                assert(closes(grid, along_rows, line, position));
            } else {
                let inner = index - earlier.len();
                assert(now[index] == last[inner]);
                assert(closes_in_line(grid, along_rows, lines - 1, length, last[inner]));
                let position = choose|position: int|
                    2 <= position < length && #[trigger] closes(
                        grid,
                        along_rows,
                        lines - 1,
                        position,
                    ) && last[inner] == window(along_rows, lines - 1, position);
                assert(closes(grid, along_rows, lines - 1, position));
            }
        }
        assert forall|line: int, position: int|
            0 <= line < lines && 2 <= position < length && #[trigger] closes(
                grid,
                along_rows,
                line,
                position,
            ) implies now.contains(window(along_rows, line, position)) by {
            if line < lines - 1 {
                assert(earlier.contains(window(along_rows, line, position)));
                let index = choose|index: int|
                    0 <= index < earlier.len() && earlier[index] == window(
                        along_rows,
                        line,
                        position,
                    );
                assert(now[index] == window(along_rows, line, position));
            } else {
                assert(last.contains(window(along_rows, line, position)));
                let index = choose|index: int|
                    0 <= index < last.len() && last[index] == window(along_rows, line, position);
                assert(now[earlier.len() + index] == window(along_rows, line, position));
            }
        }
        if now.len() == 0 {
            if has_window(grid, along_rows, lines, length) {
                let (line, position) = choose|line: int, position: int|
                    0 <= line < lines && 2 <= position < length && #[trigger] closes(
                        grid,
                        along_rows,
                        line,
                        position,
                    );
                assert(now.contains(window(along_rows, line, position)));
            }
        } else {
            assert(closes_somewhere(grid, along_rows, lines, length, now[0]));
        }
    }
}

/// The slot is part of one of the lines.
pub open spec fn covered(lines: Seq<Seq<Slot>>, slot: Slot) -> bool {
    exists|line: int, place: int|
        0 <= line < lines.len() && 0 <= place < lines[line].len() && #[trigger] lines[line][place]
            == slot
}

/// The slots stand in strictly ascending order, by column and then by row;
/// so none occurs twice.
pub open spec fn ascending(slots: Seq<Slot>) -> bool {
    forall|first: int, second: int|
        0 <= first < second < slots.len() ==> (#[trigger] slots[first]).before(
            #[trigger] slots[second],
        )
}

/// Two ascending sequences with the same members are the same sequence.
pub proof fn lemma_ascending_unique(one: Seq<Slot>, two: Seq<Slot>)
    requires
        ascending(one),
        ascending(two),
        forall|slot: Slot| one.contains(slot) <==> two.contains(slot),
    ensures
        one == two,
    decreases one.len(),
{
    if one.len() == 0 {
        if two.len() > 0 {
            assert(two.contains(two[0]));
        }
        assert(one =~= two);
    } else {
        assert(one.contains(one[0]));
        assert(two.len() > 0);
        assert(two.contains(two[0]));
        let in_two = choose|index: int| 0 <= index < two.len() && two[index] == one[0];
        let in_one = choose|index: int| 0 <= index < one.len() && one[index] == two[0];
        assert(one[0] == two[0]) by {
            if in_two > 0 {
                assert(two[0].before(two[in_two]));
                if in_one > 0 {
                    assert(one[0].before(one[in_one]));
                }
            }
        }
        let rest_one = one.subrange(1, one.len() as int);
        let rest_two = two.subrange(1, two.len() as int);
        assert(ascending(rest_one)) by {
            assert forall|first: int, second: int|
                0 <= first < second < rest_one.len() implies (#[trigger] rest_one[first]).before(
                #[trigger] rest_one[second],
            ) by {
                assert(one[first + 1].before(one[second + 1]));
            }
        }
        assert(ascending(rest_two)) by {
            assert forall|first: int, second: int|
                0 <= first < second < rest_two.len() implies (#[trigger] rest_two[first]).before(
                #[trigger] rest_two[second],
            ) by {
                assert(two[first + 1].before(two[second + 1]));
            }
        }
        assert forall|slot: Slot| rest_one.contains(slot) <==> rest_two.contains(slot) by {
            if rest_one.contains(slot) {
                let index = choose|index: int| 0 <= index < rest_one.len() && rest_one[index] == slot;
                assert(one[index + 1] == slot);
                assert(one[0].before(one[index + 1]));
                assert(one.contains(slot));
                let other = choose|other: int| 0 <= other < two.len() && two[other] == slot;
                assert(other > 0);
                assert(rest_two[other - 1] == slot);
            }
            if rest_two.contains(slot) {
                let index = choose|index: int| 0 <= index < rest_two.len() && rest_two[index] == slot;
                assert(two[index + 1] == slot);
                assert(two[0].before(two[index + 1]));
                assert(two.contains(slot));
                let other = choose|other: int| 0 <= other < one.len() && one[other] == slot;
                assert(other > 0);
                assert(rest_one[other - 1] == slot);
            }
        }
        lemma_ascending_unique(rest_one, rest_two);
        assert(one =~= seq![one[0]] + rest_one);
        assert(two =~= seq![two[0]] + rest_two);
    }
}

/// Every window that closes on the grid is a proper match.
pub proof fn lemma_window_is_line(
    grid: Grid,
    width: nat,
    height: nat,
    along_rows: bool,
    line: int,
    position: int,
)
    requires
        width <= usize::MAX,
        height <= usize::MAX,
        0 <= line < (if along_rows {
            height
        } else {
            width
        }),
        2 <= position < (if along_rows {
            width
        } else {
            height
        }),
        closes(grid, along_rows, line, position),
    ensures
        is_line(grid, width, height, window(along_rows, line, position)),
{
}

/// Every detected pattern is a proper match: three slots of the grid, side
/// by side along one row or one column, holding the same kind.
pub proof fn lemma_patterns_are_lines(grid: Grid, width: nat, height: nat)
    requires
        width <= usize::MAX,
        height <= usize::MAX,
    ensures
        forall|index: int|
            0 <= index < all_patterns(grid, width, height).len() ==> is_line(
                grid,
                width,
                height,
                #[trigger] all_patterns(grid, width, height)[index],
            ),
        all_patterns(grid, width, height).len() == 0 <==> !has_pattern(grid, width, height),
{
    lemma_windows(grid, true, height as int, width as int);
    lemma_windows(grid, false, width as int, height as int);
    let in_rows = row_patterns(grid, width, height);
    let in_columns = column_patterns(grid, width, height);
    let all = all_patterns(grid, width, height);
    assert forall|index: int| 0 <= index < all.len() implies is_line(
        grid,
        width,
        height,
        #[trigger] all[index],
    ) by {
        if index < in_rows.len() {
            assert(all[index] == in_rows[index]);
            assert(closes_somewhere(grid, true, height as int, width as int, in_rows[index]));
            let (line, position) = choose|line: int, position: int|
                0 <= line < height && 2 <= position < width && #[trigger] closes(
                    grid,
                    true,
                    line,
                    position,
                ) && in_rows[index] == window(true, line, position);
            lemma_window_is_line(grid, width, height, true, line, position);
        } else {
            let inner = index - in_rows.len();
            assert(all[index] == in_columns[inner]);
            assert(closes_somewhere(grid, false, width as int, height as int, in_columns[inner]));
            let (line, position) = choose|line: int, position: int|
                0 <= line < width && 2 <= position < height && #[trigger] closes(
                    grid,
                    false,
                    line,
                    position,
                ) && in_columns[inner] == window(false, line, position);
            lemma_window_is_line(grid, width, height, false, line, position);
        }
    }
}

/// Every three equal tokens side by side are detected: the window of each
/// closing position is among the patterns.
pub proof fn lemma_every_window_is_found(
    grid: Grid,
    width: nat,
    height: nat,
    along_rows: bool,
    line: int,
    position: int,
)
    requires
        0 <= line < (if along_rows {
            height
        } else {
            width
        }),
        2 <= position < (if along_rows {
            width
        } else {
            height
        }),
        closes(grid, along_rows, line, position),
    ensures
        all_patterns(grid, width, height).contains(window(along_rows, line, position)),
        has_pattern(grid, width, height),
{
    lemma_windows(grid, true, height as int, width as int);
    lemma_windows(grid, false, width as int, height as int);
    let in_rows = row_patterns(grid, width, height);
    let in_columns = column_patterns(grid, width, height);
    let all = all_patterns(grid, width, height);
    let wanted = window(along_rows, line, position);
    if along_rows {
        assert(in_rows.contains(wanted));
        let index = choose|index: int| 0 <= index < in_rows.len() && in_rows[index] == wanted;
        assert(all[index] == wanted);
    } else {
        assert(in_columns.contains(wanted));
        let index = choose|index: int| 0 <= index < in_columns.len() && in_columns[index] == wanted;
        assert(all[in_rows.len() + index] == wanted);
    }
}

/// An ascending list that holds three different slots is at least three
/// long.
pub proof fn lemma_ascending_holds_three(slots: Seq<Slot>, one: Slot, two: Slot, three: Slot)
    requires
        ascending(slots),
        slots.contains(one),
        slots.contains(two),
        slots.contains(three),
        one != two,
        two != three,
        one != three,
    ensures
        slots.len() >= 3,
{
    let first = choose|index: int| 0 <= index < slots.len() && slots[index] == one;
    let second = choose|index: int| 0 <= index < slots.len() && slots[index] == two;
    let third = choose|index: int| 0 <= index < slots.len() && slots[index] == three;
    assert(first != second && second != third && first != third);
}

/// The slot is one of the first `upto` members.
pub open spec fn among(members: Seq<Slot>, upto: int, slot: Slot) -> bool {
    exists|index: int| 0 <= index < upto && #[trigger] members[index] == slot
}

/// A slot put between the members before it and the members after it keeps
/// the list ascending, and is the only member gained.
pub proof fn lemma_insert_ascending(before: Seq<Slot>, place: int, slot: Slot)
    requires
        ascending(before),
        0 <= place <= before.len(),
        forall|index: int| 0 <= index < place ==> (#[trigger] before[index]).before(slot),
        place < before.len() ==> slot.before(before[place]),
    ensures
        ascending(before.insert(place, slot)),
        forall|other: Slot|
            #[trigger] before.insert(place, slot).contains(other) <==> before.contains(other)
                || other == slot,
{
    let after = before.insert(place, slot);
    assert forall|first: int, second: int| 0 <= first < second < after.len() implies (#[trigger] after[first]).before(
        #[trigger] after[second],
    ) by {
        if second < place {
            assert(after[first] == before[first] && after[second] == before[second]);
            assert(before[first].before(before[second]));
        } else if second == place {
            assert(after[first] == before[first] && after[second] == slot);
            assert(before[first].before(slot));
        } else if first < place {
            assert(after[first] == before[first] && after[second] == before[second - 1]);
            assert(before[first].before(before[second - 1]));
        } else if first == place {
            assert(after[first] == slot && after[second] == before[second - 1]);
            assert(slot.before(before[place]));
            if second - 1 > place {
                assert(before[place].before(before[second - 1]));
            }
        } else {
            assert(after[first] == before[first - 1] && after[second] == before[second - 1]);
            assert(before[first - 1].before(before[second - 1]));
        }
    }
    assert forall|other: Slot| #[trigger]
        after.contains(other) <==> before.contains(other) || other == slot by {
        if after.contains(other) {
            let index = choose|index: int| 0 <= index < after.len() && after[index] == other;
            if index < place {
                assert(before[index] == other);
                assert(before.contains(other));
            } else if index > place {
                assert(before[index - 1] == other);
                assert(before.contains(other));
            } else {
                assert(other == slot);
            }
        }
        if before.contains(other) {
            let index = choose|index: int| 0 <= index < before.len() && before[index] == other;
            if index < place {
                assert(after[index] == other);
            } else {
                assert(after[index + 1] == other);
            }
            assert(after.contains(other));
        }
        if other == slot {
            assert(after[place] == other);
            assert(after.contains(other));
        }
    }
}

/// Puts a slot at its place in an ascending list, unless it is there already.
pub fn insert_ascending(slots: &mut Vec<Slot>, slot: Slot)
    requires
        ascending(old(slots)@),
    ensures
        ascending(final(slots)@),
        forall|other: Slot|
            #[trigger] final(slots)@.contains(other) <==> old(slots)@.contains(other) || other
                == slot,
{
    let mut place: usize = 0;
    while place < slots.len() && slots[place].precedes(&slot)
        invariant
            place <= slots@.len(),
            slots@ == old(slots)@,
            forall|index: int| 0 <= index < place ==> (#[trigger] slots@[index]).before(slot),
        decreases slots@.len() - place,
    {
        place = place + 1;
    }
    if place < slots.len() && slots[place] == slot {
        proof {
            assert(slots@[place as int] == slot);
            assert(slots@.contains(slot));
        }
    } else {
        proof {
            if place < slots@.len() {
                assert(!slots@[place as int].before(slot));
                assert(slots@[place as int] != slot);
                assert(slot.before(slots@[place as int]));
            }
            lemma_insert_ascending(slots@, place as int, slot);
        }
        slots.insert(place, slot);
    }
}

/// The slots that the patterns cover, each once, in ascending order: the
/// removal set of a cascade step.
pub fn flatten_slots(patterns: &Vec<Pattern>) -> (slots: Vec<Slot>)
    ensures
        ascending(slots@),
        forall|slot: Slot| slots@.contains(slot) <==> covered(lines_of(patterns@), slot),
{
    let mut slots: Vec<Slot> = Vec::new();
    let mut line: usize = 0;
    let ghost lines = lines_of(patterns@);
    while line < patterns.len()
        invariant
            line <= patterns@.len(),
            lines == lines_of(patterns@),
            ascending(slots@),
            forall|slot: Slot|
                #[trigger] slots@.contains(slot) <==> covered(lines.subrange(0, line as int), slot),
        decreases patterns@.len() - line,
    {
        let ghost done = lines.subrange(0, line as int);
        match &patterns[line] {
            Pattern::Line { slots: members } => {
                let mut place: usize = 0;
                while place < members.len()
                    invariant
                        place <= members@.len(),
                        line < patterns@.len(),
                        lines == lines_of(patterns@),
                        members@ == lines[line as int],
                        done == lines.subrange(0, line as int),
                        ascending(slots@),
                        forall|slot: Slot|
                            #[trigger] slots@.contains(slot) <==> covered(done, slot) || among(
                                members@,
                                place as int,
                                slot,
                            ),
                    decreases members@.len() - place,
                {
                    let ghost before = slots@;
                    insert_ascending(&mut slots, members[place]);
                    proof {
                        assert forall|slot: Slot|
                            slots@.contains(slot) <==> covered(done, slot) || among(
                                members@,
                                place + 1,
                                slot,
                            ) by {
                            assert(slots@.contains(slot) <==> before.contains(slot) || slot
                                == members@[place as int]);
                            assert(before.contains(slot) <==> covered(done, slot) || among(
                                members@,
                                place as int,
                                slot,
                            ));
                            if among(members@, place as int, slot) {
                                let index = choose|index: int|
                                    0 <= index < place && #[trigger] members@[index] == slot;
                                assert(members@[index] == slot);
                            }
                            if slot == members@[place as int] {
                                assert(among(members@, place + 1, slot));
                            }
                            if among(members@, place + 1, slot) {
                                let index = choose|index: int|
                                    0 <= index < place + 1 && #[trigger] members@[index] == slot;
                                if index < place {
                                    assert(among(members@, place as int, slot));
                                }
                            }
                        }
                    }
                    place = place + 1;
                }
            },
        }
        proof {
            let next = lines.subrange(0, line + 1);
            assert forall|slot: Slot| slots@.contains(slot) <==> covered(next, slot) by {
                if covered(done, slot) {
                    let (row, place) = choose|row: int, place: int|
                        0 <= row < done.len() && 0 <= place < done[row].len()
                            && #[trigger] done[row][place] == slot;
                    assert(next[row][place] == slot);
                }
                if among(lines[line as int], lines[line as int].len() as int, slot) {
                    let index = choose|index: int|
                        0 <= index < lines[line as int].len()
                            && #[trigger] lines[line as int][index] == slot;
                    assert(next[line as int][index] == slot);
                }
                if covered(next, slot) {
                    let (row, place) = choose|row: int, place: int|
                        0 <= row < next.len() && 0 <= place < next[row].len()
                            && #[trigger] next[row][place] == slot;
                    if row < line {
                        assert(done[row][place] == slot);
                    } else {
                        assert(lines[line as int][place] == slot);
                        assert(among(lines[line as int], lines[line as int].len() as int, slot));
                    }
                }
            }
        }
        line = line + 1;
    }
    assert(lines.subrange(0, line as int) =~= lines);
    slots
}

} // verus!

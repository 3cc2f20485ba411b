use match_three::board::{contains_slot, prepare_board, Board, Relocation};
use match_three::detector::flatten_slots;
use match_three::matcher::{Collectable, Pattern, Slot, SlotContent};

fn uniform(height: usize, width: usize, collectable: Collectable) -> Vec<Vec<SlotContent>> {
    vec![vec![SlotContent { entity: 0, collectable }; height]; width]
}

fn numbered(kinds: &[&[Collectable]]) -> Board {
    // kinds[column][row]
    let width = kinds.len();
    let height = kinds[0].len();
    let mut columns = Vec::new();
    let mut entity = 0;
    for column in kinds {
        let mut cells = Vec::new();
        for kind in column.iter() {
            cells.push(SlotContent { entity, collectable: *kind });
            entity += 1;
        }
        columns.push(cells);
    }
    Board::from_columns(height, width, columns, entity).unwrap()
}

fn snapshot(board: &Board) -> Vec<Vec<SlotContent>> {
    let mut columns = Vec::new();
    for column in 0..board.width() {
        let mut cells = Vec::new();
        for row in 0..board.height() {
            cells.push(board.get_content(&Slot::new(row, column)));
        }
        columns.push(cells);
    }
    columns
}

fn line(slots: [(usize, usize); 3]) -> Pattern {
    Pattern::Line {
        slots: slots.iter().map(|(row, column)| Slot::new(*row, *column)).collect(),
    }
}

#[test]
fn finds_lines_in_rows_on_small_board() {
    let mut slots = uniform(3, 3, Collectable::Yellow);
    slots[1][1].collectable = Collectable::Red;
    let board = Board::from_columns(3, 3, slots, 1).unwrap();

    assert_eq!(
        board.find_patterns_in_rows(),
        vec![
            Pattern::Line {
                slots: vec![Slot::new(0, 2), Slot::new(0, 1), Slot::new(0, 0),]
            },
            Pattern::Line {
                slots: vec![Slot::new(2, 2), Slot::new(2, 1), Slot::new(2, 0),]
            }
        ]
    )
}

#[test]
fn finds_lines_in_rows() {
    let size = 5;
    let mut slots = uniform(size, size, Collectable::Yellow);
    for index in 0..size {
        slots[index][index].collectable = Collectable::Red;
    }
    let board = Board::from_columns(size, size, slots, 1).unwrap();

    assert_eq!(
        board.find_patterns_in_rows(),
        vec![
            Pattern::Line {
                slots: vec![Slot::new(0, 3), Slot::new(0, 2), Slot::new(0, 1),]
            },
            Pattern::Line {
                slots: vec![Slot::new(0, 4), Slot::new(0, 3), Slot::new(0, 2),]
            },
            Pattern::Line {
                slots: vec![Slot::new(1, 4), Slot::new(1, 3), Slot::new(1, 2),]
            },
            Pattern::Line {
                slots: vec![Slot::new(3, 2), Slot::new(3, 1), Slot::new(3, 0),]
            },
            Pattern::Line {
                slots: vec![Slot::new(4, 2), Slot::new(4, 1), Slot::new(4, 0),]
            },
            Pattern::Line {
                slots: vec![Slot::new(4, 3), Slot::new(4, 2), Slot::new(4, 1),]
            }
        ]
    )
}

#[test]
fn correctly_gives_neighbors() {
    let board = Board::from_columns(5, 5, uniform(5, 5, Collectable::Yellow), 1).unwrap();
    assert_eq!(
        board.neighbors(&Slot::new(0, 0)),
        vec![Slot::new(1, 0), Slot::new(0, 1)]
    );
    assert_eq!(
        board.neighbors(&Slot::new(0, 3)),
        vec![Slot::new(0, 4), Slot::new(0, 2), Slot::new(1, 3)]
    );
    assert_eq!(
        board.neighbors(&Slot::new(2, 3)),
        vec![
            Slot::new(3, 3),
            Slot::new(2, 4),
            Slot::new(1, 3),
            Slot::new(2, 2)
        ]
    );
}

#[test]
fn finds_lines_in_columns() {
    // column 1 holds four equal tokens from row 1 up
    let yellow = Collectable::Yellow;
    let red = Collectable::Red;
    let eye = Collectable::Eye;
    let board = numbered(&[
        &[yellow, red, yellow, red, yellow],
        &[eye, red, red, red, red],
        &[yellow, eye, yellow, eye, yellow],
    ]);
    assert_eq!(
        board.find_patterns_in_columns(),
        vec![line([(3, 1), (2, 1), (1, 1)]), line([(4, 1), (3, 1), (2, 1)])]
    );
    assert_eq!(board.find_patterns_in_rows(), vec![]);
}

#[test]
fn find_patterns_lists_rows_before_columns() {
    let yellow = Collectable::Yellow;
    let red = Collectable::Red;
    let eye = Collectable::Eye;
    // row 0 is red, red, red; column 0 is red, red, red
    let board = numbered(&[&[red, red, red], &[red, yellow, eye], &[red, eye, yellow]]);
    assert_eq!(
        board.find_patterns(),
        vec![line([(0, 2), (0, 1), (0, 0)]), line([(2, 0), (1, 0), (0, 0)])]
    );
}

#[test]
fn a_run_of_five_holds_three_windows() {
    let red = Collectable::Red;
    let board = numbered(&[&[red], &[red], &[red], &[red], &[red]]);
    assert_eq!(
        board.find_patterns(),
        vec![
            line([(0, 2), (0, 1), (0, 0)]),
            line([(0, 3), (0, 2), (0, 1)]),
            line([(0, 4), (0, 3), (0, 2)]),
        ]
    );
}

#[test]
fn two_equal_tokens_are_no_pattern() {
    let red = Collectable::Red;
    let eye = Collectable::Eye;
    let board = numbered(&[&[red, red], &[red, eye]]);
    assert!(board.find_patterns().is_empty());
    let narrow = numbered(&[&[red, red]]);
    assert!(narrow.find_patterns().is_empty());
}

#[test]
fn an_empty_board_has_no_pattern() {
    let board = Board::from_columns(0, 0, vec![], 0).unwrap();
    assert!(board.find_patterns().is_empty());
    let flat = Board::from_columns(0, 3, vec![vec![], vec![], vec![]], 0).unwrap();
    assert!(flat.find_patterns().is_empty());
}

#[test]
fn from_columns_wants_a_full_rectangle() {
    let cell = SlotContent { entity: 7, collectable: Collectable::Jar };
    assert!(Board::from_columns(2, 2, vec![vec![cell; 2], vec![cell; 2]], 0).is_some());
    assert!(Board::from_columns(2, 2, vec![vec![cell; 2], vec![cell; 1]], 0).is_none());
    assert!(Board::from_columns(2, 2, vec![vec![cell; 2]], 0).is_none());
    assert!(Board::from_columns(2, 3, vec![vec![cell; 3], vec![cell; 3]], 0).is_none());
    let board = Board::from_columns(2, 1, vec![vec![cell; 2]], 5).unwrap();
    assert_eq!(board.height(), 2);
    assert_eq!(board.width(), 1);
    assert_eq!(board.next_entity(), 5);
    assert!(!board.animating());
    assert_eq!(board.get_content(&Slot::new(1, 0)), cell);
}

#[test]
fn neighbors_are_clipped_at_corners_and_edges() {
    let board = Board::from_columns(5, 5, uniform(5, 5, Collectable::Yellow), 1).unwrap();
    assert_eq!(board.neighbors(&Slot::new(0, 4)), vec![Slot::new(1, 4), Slot::new(0, 3)]);
    assert_eq!(board.neighbors(&Slot::new(4, 4)), vec![Slot::new(3, 4), Slot::new(4, 3)]);
    assert_eq!(board.neighbors(&Slot::new(4, 0)), vec![Slot::new(3, 0), Slot::new(4, 1)]);
    assert_eq!(
        board.neighbors(&Slot::new(2, 0)),
        vec![Slot::new(3, 0), Slot::new(2, 1), Slot::new(1, 0)]
    );
    assert_eq!(
        board.neighbors(&Slot::new(4, 2)),
        vec![Slot::new(4, 3), Slot::new(3, 2), Slot::new(4, 1)]
    );
    assert_eq!(
        board.neighbors(&Slot::new(2, 4)),
        vec![Slot::new(1, 4), Slot::new(2, 3), Slot::new(3, 4)]
    );
}

#[test]
fn every_slot_has_as_many_neighbors_as_sides_on_the_board() {
    let board = Board::from_columns(4, 6, uniform(4, 6, Collectable::Yellow), 1).unwrap();
    for column in 0..6usize {
        for row in 0..4usize {
            let slot = Slot::new(row, column);
            let neighbors = board.neighbors(&slot);
            let on_edge = (row == 0 || row == 3) as usize + (column == 0 || column == 5) as usize;
            assert_eq!(neighbors.len(), 4 - on_edge);
            for other in neighbors.iter() {
                assert!(board.is_on_board(other));
                let distance = other.row.abs_diff(row) + other.column.abs_diff(column);
                assert_eq!(distance, 1);
            }
        }
    }
}

#[test]
fn neighbors_on_a_single_column() {
    let board = Board::from_columns(3, 1, uniform(3, 1, Collectable::Yellow), 1).unwrap();
    assert_eq!(board.neighbors(&Slot::new(0, 0)), vec![Slot::new(1, 0)]);
    assert_eq!(board.neighbors(&Slot::new(1, 0)), vec![Slot::new(2, 0), Slot::new(0, 0)]);
    assert_eq!(board.neighbors(&Slot::new(2, 0)), vec![Slot::new(1, 0)]);
    let single = Board::from_columns(1, 1, uniform(1, 1, Collectable::Yellow), 1).unwrap();
    assert_eq!(single.neighbors(&Slot::new(0, 0)), vec![]);
}

#[test]
fn probing_a_switch_leaves_the_board_as_it_was() {
    let yellow = Collectable::Yellow;
    let red = Collectable::Red;
    let eye = Collectable::Eye;
    let mut board = numbered(&[
        &[red, yellow, eye],
        &[red, eye, yellow],
        &[yellow, red, eye],
    ]);
    let before = snapshot(&board);
    // bringing the red token of column 2 down to row 0 completes row 0
    assert!(board.has_pattern_after_switch(&Slot::new(0, 2), &Slot::new(1, 2)));
    assert_eq!(snapshot(&board), before);
    // exchanging within column 0 completes nothing
    assert!(!board.has_pattern_after_switch(&Slot::new(0, 0), &Slot::new(1, 0)));
    assert_eq!(snapshot(&board), before);
    assert!(!board.animating());
    assert_eq!(board.next_entity(), 9);
}

#[test]
fn switch_exchanges_two_slots_and_nothing_else() {
    let yellow = Collectable::Yellow;
    let red = Collectable::Red;
    let eye = Collectable::Eye;
    let mut board = numbered(&[
        &[red, yellow, eye],
        &[yellow, eye, red],
        &[eye, red, yellow],
    ]);
    let before = snapshot(&board);
    let one = Slot::new(0, 0);
    let two = Slot::new(0, 1);
    assert!(!board.has_pattern_after_switch(&one, &two));
    let moves = board.switch(&one, &two);
    assert_eq!(
        moves,
        (Relocation { entity: 0, target: two }, Relocation { entity: 3, target: one })
    );
    let after = snapshot(&board);
    for column in 0..3 {
        for row in 0..3 {
            let slot = Slot::new(row, column);
            if slot == one {
                assert_eq!(after[column][row], before[1][0]);
            } else if slot == two {
                assert_eq!(after[column][row], before[0][0]);
            } else {
                assert_eq!(after[column][row], before[column][row]);
            }
        }
    }
    // the board is busy until the renderer reports that nothing moves
    assert!(board.animating());
    assert!(board.take_patterns().removed.is_empty());
    board.settle(2);
    assert!(board.animating());
    board.settle(0);
    assert!(!board.animating());
    // no cascade fires
    let cascade = board.take_patterns();
    assert!(cascade.removed.is_empty());
    assert!(cascade.matched.is_empty());
    assert!(cascade.moved.is_empty());
    assert_eq!(snapshot(&board), after);
    assert!(!board.animating());
}

#[test]
fn resolving_a_board_without_pattern_changes_nothing() {
    let yellow = Collectable::Yellow;
    let red = Collectable::Red;
    let mut board = numbered(&[&[red, yellow, red], &[yellow, red, yellow], &[red, yellow, red]]);
    let before = snapshot(&board);
    for _ in 0..3 {
        let cascade = board.take_patterns();
        assert!(cascade.removed.is_empty());
        assert!(cascade.moved.is_empty());
        assert_eq!(snapshot(&board), before);
        assert!(!board.animating());
        assert_eq!(board.next_entity(), 9);
    }
}

#[test]
fn remove_slots_lets_tokens_sink_and_refills() {
    let yellow = Collectable::Yellow;
    let red = Collectable::Red;
    let eye = Collectable::Eye;
    let jar = Collectable::Jar;
    let mut board = numbered(&[
        &[red, yellow, eye, jar],
        &[yellow, eye, jar, red],
        &[eye, jar, red, yellow],
    ]);
    let before = snapshot(&board);
    // rows 1 and 2 of column 0, row 3 of column 2; column 1 stays
    let changed = board.remove_slots(vec![Slot::new(2, 0), Slot::new(3, 2), Slot::new(1, 0)]);
    assert_eq!(
        changed,
        vec![Slot::new(1, 0), Slot::new(2, 0), Slot::new(3, 0), Slot::new(3, 2)]
    );
    let after = snapshot(&board);
    assert_eq!(board.height(), 4);
    assert_eq!(board.width(), 3);
    // column 0: rows 0 and 3 survive and sink, two new tokens on top
    assert_eq!(after[0][0], before[0][0]);
    assert_eq!(after[0][1], before[0][3]);
    assert_eq!(after[0][2].entity, 12);
    assert_eq!(after[0][3].entity, 13);
    // column 1 untouched
    assert_eq!(after[1], before[1]);
    // column 2: the top token replaced
    assert_eq!(after[2][..3], before[2][..3]);
    assert_eq!(after[2][3].entity, 14);
    assert_eq!(board.next_entity(), 15);
    assert!(board.animating());
}

#[test]
fn removing_nothing_changes_nothing() {
    let mut board = numbered(&[&[Collectable::Red, Collectable::Eye]]);
    let before = snapshot(&board);
    assert_eq!(board.remove_slots(vec![]), vec![]);
    assert_eq!(snapshot(&board), before);
    assert!(!board.animating());
    assert_eq!(board.next_entity(), 2);
}

#[test]
fn removing_a_whole_column_refills_all_of_it() {
    let red = Collectable::Red;
    let mut board = numbered(&[&[red, red, red], &[Collectable::Eye, Collectable::Jar, red]]);
    let changed =
        board.remove_slots(vec![Slot::new(0, 0), Slot::new(1, 0), Slot::new(2, 0), Slot::new(1, 0)]);
    assert_eq!(changed, vec![Slot::new(0, 0), Slot::new(1, 0), Slot::new(2, 0)]);
    let after = snapshot(&board);
    assert_eq!(after[0].len(), 3);
    assert_eq!(
        after[0].iter().map(|cell| cell.entity).collect::<Vec<_>>(),
        vec![6, 7, 8]
    );
    assert_eq!(after[1][0].entity, 3);
}

#[test]
fn a_cascade_step_hands_out_the_matched_tokens() {
    let yellow = Collectable::Yellow;
    let red = Collectable::Red;
    let eye = Collectable::Eye;
    // row 0 is red across four columns: two overlapping windows, four slots
    let mut board = numbered(&[
        &[red, yellow, eye],
        &[red, eye, yellow],
        &[red, yellow, eye],
        &[red, eye, yellow],
    ]);
    let before = snapshot(&board);
    let cascade = board.take_patterns();
    assert_eq!(
        cascade.removed,
        vec![Slot::new(0, 0), Slot::new(0, 1), Slot::new(0, 2), Slot::new(0, 3)]
    );
    assert_eq!(
        cascade.matched,
        vec![before[0][0], before[1][0], before[2][0], before[3][0]]
    );
    let mut moved = Vec::new();
    for column in 0..4 {
        for row in 0..3 {
            moved.push(Slot::new(row, column));
        }
    }
    assert_eq!(cascade.moved, moved);
    let after = snapshot(&board);
    for column in 0..4 {
        assert_eq!(after[column][0], before[column][1]);
        assert_eq!(after[column][1], before[column][2]);
        assert_eq!(after[column][2].entity, 12 + column as u64);
    }
    assert!(board.animating());
    // busy: the next step waits
    assert!(board.take_patterns().removed.is_empty());
}

#[test]
fn flatten_slots_sorts_and_drops_repeats() {
    let patterns = vec![
        line([(0, 3), (0, 2), (0, 1)]),
        line([(0, 4), (0, 3), (0, 2)]),
        line([(2, 1), (1, 1), (0, 1)]),
    ];
    assert_eq!(
        flatten_slots(&patterns),
        vec![
            Slot::new(0, 1),
            Slot::new(1, 1),
            Slot::new(2, 1),
            Slot::new(0, 2),
            Slot::new(0, 3),
            Slot::new(0, 4),
        ]
    );
    assert_eq!(flatten_slots(&vec![]), vec![]);
}

#[test]
fn contains_slot_finds_members_only() {
    let slots = vec![Slot::new(1, 2), Slot::new(0, 0)];
    assert!(contains_slot(&slots, &Slot::new(0, 0)));
    assert!(contains_slot(&slots, &Slot::new(1, 2)));
    assert!(!contains_slot(&slots, &Slot::new(2, 1)));
}

#[test]
fn a_random_board_is_full_and_busy() {
    let board = Board::random(4, 3);
    assert_eq!(board.height(), 4);
    assert_eq!(board.width(), 3);
    assert!(board.animating());
    assert_eq!(board.next_entity(), 12);
    assert!(board.refill_fits());
    for column in 0..3 {
        for row in 0..4 {
            let cell = board.get_content(&Slot::new(row, column));
            assert_eq!(cell.entity, (column * 4 + row) as u64);
        }
    }
    assert!(board.is_on_board(&Slot::new(3, 2)));
    assert!(!board.is_on_board(&Slot::new(4, 2)));
    assert!(!board.is_on_board(&Slot::new(3, 3)));
}

#[test]
fn the_starting_board_has_nine_rows_and_eight_columns() {
    let board = prepare_board();
    assert_eq!(board.height(), 9);
    assert_eq!(board.width(), 8);
    assert!(board.animating());
    assert_eq!(board.next_entity(), 72);
}

#[test]
fn refill_does_not_fit_when_the_numbers_run_out() {
    let cell = SlotContent { entity: 0, collectable: Collectable::Eye };
    let board = Board::from_columns(2, 2, vec![vec![cell; 2], vec![cell; 2]], u64::MAX - 3).unwrap();
    assert!(!board.refill_fits());
    let board = Board::from_columns(2, 2, vec![vec![cell; 2], vec![cell; 2]], u64::MAX - 4).unwrap();
    assert!(board.refill_fits());
}

#[test]
fn random_boards_hold_more_than_one_kind() {
    let board = Board::random(10, 10);
    let first = board.get_content(&Slot::new(0, 0)).collectable;
    let mut varied = false;
    for column in 0..10 {
        for row in 0..10 {
            if board.get_content(&Slot::new(row, column)).collectable != first {
                varied = true;
            }
        }
    }
    assert!(varied);
}

#[test]
fn cascades_keep_the_board_full_and_the_tokens_apart() {
    let mut board = Board::random(9, 8);
    for _ in 0..50 {
        board.settle(0);
        let cascade = board.take_patterns();
        assert_eq!(board.height(), 9);
        assert_eq!(board.width(), 8);
        let cells = snapshot(&board);
        let mut tokens: Vec<u64> = cells.iter().flatten().map(|cell| cell.entity).collect();
        assert_eq!(tokens.len(), 72);
        tokens.sort();
        tokens.dedup();
        assert_eq!(tokens.len(), 72);
        assert!(tokens.iter().all(|token| *token < board.next_entity()));
        assert_eq!(cascade.matched.len(), cascade.removed.len());
        if cascade.removed.is_empty() {
            assert!(board.find_patterns().is_empty());
            assert!(!board.animating());
            break;
        }
        assert!(cascade.removed.len() >= 3);
        assert!(board.animating());
    }
}

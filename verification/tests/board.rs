use blockfall::playfield::Playfield;

#[test]
fn empty_board_has_no_locked_lines() {
    let pf = Playfield::new(4, 6);
    assert_eq!(pf.width(), 4);
    assert_eq!(pf.height(), 6);
    assert!(pf.locked_lines().is_empty());
    assert_eq!(pf.count_locked_lines(), 0);
    assert_eq!(pf.count_voids(), 0);
}

#[test]
fn locked_lines_reports_exactly_the_full_rows() {
    let mut pf = Playfield::new(3, 4);
    // fill row 1 fully and row 2 partially
    for x in 0..3 {
        pf.set_block(x, 1, 7);
    }
    pf.set_block(0, 2, 5);
    let lines = pf.locked_lines();
    assert_eq!(lines, vec![1]);
    assert!(pf.is_row_full(1));
    assert!(!pf.is_row_full(2));
    assert_eq!(pf.count_locked_lines(), 1);
}

#[test]
fn locked_lines_come_in_increasing_order() {
    let mut pf = Playfield::new(2, 5);
    for x in 0..2 {
        pf.set_block(x, 4, 1);
        pf.set_block(x, 0, 2);
        pf.set_block(x, 2, 3);
    }
    assert_eq!(pf.locked_lines(), vec![0, 2, 4]);
}

#[test]
fn throw_line_keeps_row_count_and_shifts_rows_down() {
    let mut pf = Playfield::new(2, 4);
    // rows: 0 -> (1,0), 1 -> (2,2), 2 -> (3,0), 3 -> (4,4)
    pf.set_block(0, 0, 1);
    pf.set_block(0, 1, 2);
    pf.set_block(1, 1, 2);
    pf.set_block(0, 2, 3);
    pf.set_block(0, 3, 4);
    pf.set_block(1, 3, 4);

    pf.throw_line(1);

    assert_eq!(pf.height(), 4);
    // a fresh empty row on top
    assert_eq!(pf.get_block(0, 0), 0);
    assert_eq!(pf.get_block(1, 0), 0);
    // the row above the removed one shifted down by exactly one
    assert_eq!(pf.get_block(0, 1), 1);
    assert_eq!(pf.get_block(1, 1), 0);
    // rows below the removed one are unchanged
    assert_eq!(pf.get_block(0, 2), 3);
    assert_eq!(pf.get_block(0, 3), 4);
    assert_eq!(pf.get_block(1, 3), 4);
    // the removed row's content is gone
    for y in 0..4 {
        assert!(!(pf.get_block(0, y) == 2 || pf.get_block(1, y) == 2));
    }
}

#[test]
fn a_fully_filled_board_clears_to_empty() {
    let mut pf = Playfield::new(2, 3);
    for y in 0..3 {
        for x in 0..2 {
            pf.set_block(x, y, 1);
        }
    }
    let lines = pf.locked_lines();
    assert_eq!(lines, vec![0, 1, 2]);
    for line in lines {
        pf.throw_line(line);
    }
    for y in 0..3 {
        for x in 0..2 {
            assert_eq!(pf.get_block(x, y), 0);
        }
    }
}

#[test]
fn count_voids_sees_holes_under_blocks() {
    let mut pf = Playfield::new(2, 3);
    pf.set_block(0, 0, 9);
    // column 0: filled at the top, two empty cells below it
    assert_eq!(pf.count_voids(), 2);
    pf.set_block(0, 2, 9);
    assert_eq!(pf.count_voids(), 1);
    pf.set_block(1, 1, 9);
    assert_eq!(pf.count_voids(), 2);
}

#[test]
fn duplicate_copies_every_cell() {
    let mut pf = Playfield::new(3, 3);
    pf.set_block(1, 2, 8);
    pf.set_block(0, 0, 3);
    let copy = pf.duplicate();
    for y in 0..3 {
        for x in 0..3 {
            assert_eq!(copy.get_block(x, y), pf.get_block(x, y));
        }
    }
}

use blockfall::computer_player::ComputerType;
use blockfall::figure::Figure;
use blockfall::init_figures;
use blockfall::jitter_computer::{
    get_pf_col_jitter, get_pf_height_sum, get_pf_max_height, get_pf_row_jitter, JitterComputer,
};
use blockfall::playfield::Playfield;
use blockfall::position::Position;

fn square() -> Figure {
    let mut figs = init_figures();
    figs.remove(3)
}

fn bar() -> Figure {
    let mut figs = init_figures();
    figs.remove(6)
}

#[test]
fn jitter_of_an_empty_board() {
    let pf = Playfield::new(2, 2);
    // rows scan from a filled state: one transition at the start, one for
    // the empty tail, per row
    assert_eq!(get_pf_row_jitter(&pf), 4);
    // columns scan from an empty state: only the empty tail counts
    assert_eq!(get_pf_col_jitter(&pf), 2);
    assert_eq!(get_pf_height_sum(&pf), 0);
    assert_eq!(get_pf_max_height(&pf), 0);
}

#[test]
fn metrics_of_a_single_block() {
    let mut pf = Playfield::new(2, 3);
    pf.set_block(0, 1, 6);
    // column 0 holds its top block at row 1: height 2 of 3
    assert_eq!(get_pf_height_sum(&pf), 2);
    assert_eq!(get_pf_max_height(&pf), 1);
    // column 0: empty, filled, empty: two transitions plus the empty tail
    assert_eq!(get_pf_col_jitter(&pf), 3 + 1);
    // row 1 is (filled, empty): one transition plus the empty tail; empty
    // rows count two each
    assert_eq!(get_pf_row_jitter(&pf), 2 + 2 + 2);
}

#[test]
fn filling_the_whole_board_scores_zero() {
    // the square fills a 2x2 board exactly: a two-line clear with no
    // height left, no jitter change, and no landing depth
    let pf = Playfield::new(2, 2);
    let fig = square();
    let mut ct = JitterComputer::new();
    ct.init_eval(&pf, 1);
    let score = ct.eval_placing(&pf, &fig, Position::new((0, 0, 0)));
    assert_eq!(score, 0);
}

#[test]
fn a_four_line_clear_earns_the_big_bonus() {
    // 3x4 board, outer columns prefilled; the vertical bar drops into the
    // middle column and clears all four rows at once:
    // score = landing depth 1 * area 12 + bonus 10 * area 12 = 132
    let mut pf = Playfield::new(3, 4);
    for y in 0..4 {
        pf.set_block(0, y, 2);
        pf.set_block(2, y, 2);
    }
    let fig = bar();
    let mut ct = JitterComputer::new();
    ct.init_eval(&pf, 1);
    let score = ct.eval_placing(&pf, &fig, Position::new((0, 0, 0)));
    assert_eq!(score, 132);
}

#[test]
fn a_single_line_clear_is_penalized() {
    // same board shape, but only the bottom row's outer cells prefilled:
    // the bar clears one row; the tier is a penalty and the smoothness
    // worsens: score = (1 - 3) * 12 - 2 * 12 = -48
    let mut pf = Playfield::new(3, 4);
    pf.set_block(0, 3, 2);
    pf.set_block(2, 3, 2);
    let fig = bar();
    let mut ct = JitterComputer::new();
    ct.init_eval(&pf, 1);
    let score = ct.eval_placing(&pf, &fig, Position::new((0, 0, 0)));
    assert_eq!(score, -48);
}

#[test]
fn four_lines_beat_one_line() {
    let mut four_pf = Playfield::new(3, 4);
    for y in 0..4 {
        four_pf.set_block(0, y, 2);
        four_pf.set_block(2, y, 2);
    }
    let mut one_pf = Playfield::new(3, 4);
    one_pf.set_block(0, 3, 2);
    one_pf.set_block(2, 3, 2);
    let fig = bar();

    let mut ct = JitterComputer::new();
    ct.init_eval(&four_pf, 1);
    let four = ct.eval_placing(&four_pf, &fig, Position::new((0, 0, 0)));
    ct.init_eval(&one_pf, 1);
    let one = ct.eval_placing(&one_pf, &fig, Position::new((0, 0, 0)));
    assert!(four > one);
}

#[test]
fn init_eval_captures_the_baseline() {
    let mut pf = Playfield::new(3, 3);
    pf.set_block(1, 0, 4);
    let mut ct = JitterComputer::new();
    ct.init_eval(&pf, 0);
    assert_eq!(ct.pre_col_jitter, get_pf_col_jitter(&pf) as i64);
    assert_eq!(ct.pre_row_jitter, get_pf_row_jitter(&pf) as i64);
    assert_eq!(ct.pre_height_sum, get_pf_height_sum(&pf) as i64);
    assert_eq!(ct.pre_max_height, get_pf_max_height(&pf));
    assert_eq!(ct.pre_voids, pf.count_voids() as i64);
    assert_eq!(ct.pre_locked_lines, pf.count_locked_lines() as i64);
}

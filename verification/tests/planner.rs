use blockfall::computer_player::{path_to_moves_per_level, sort_candidates, EvalPosition};
use blockfall::figure::Figure;
use blockfall::find_path::find_path;
use blockfall::find_placement::find_placement;
use blockfall::init_figures;
use blockfall::movement::Movement;
use blockfall::playfield::Playfield;
use blockfall::position::Position;

fn square() -> Figure {
    let mut figs = init_figures();
    figs.remove(3)
}

#[test]
fn stable_sort_keeps_enumeration_order_among_ties() {
    // candidates A, B, C with scores 50, 80, 80: descending and stable
    // means B before C before A; B is the one selected first.
    let a = EvalPosition { pos: Position::new((0, 0, 0)), eval: 50 };
    let b = EvalPosition { pos: Position::new((1, 0, 0)), eval: 80 };
    let c = EvalPosition { pos: Position::new((2, 0, 0)), eval: 80 };
    let mut v = vec![a, b, c];
    sort_candidates(&mut v);
    assert_eq!(v, vec![b, c, a]);
}

#[test]
fn sort_is_descending() {
    let mut v = vec![
        EvalPosition { pos: Position::new((0, 0, 0)), eval: -3 },
        EvalPosition { pos: Position::new((1, 0, 0)), eval: 12 },
        EvalPosition { pos: Position::new((2, 0, 0)), eval: 7 },
        EvalPosition { pos: Position::new((3, 0, 0)), eval: 12 },
    ];
    sort_candidates(&mut v);
    let evals: Vec<i64> = v.iter().map(|e| e.eval).collect();
    assert_eq!(evals, vec![12, 12, 7, -3]);
    assert_eq!(v[0].pos.x(), 1);
    assert_eq!(v[1].pos.x(), 3);
}

#[test]
fn path_buckets_split_on_down_moves() {
    // forward path: two sideways moves at the spawn level, one rotation one
    // level further down, and a trailing descent
    let path = vec![
        Movement::MoveRight,
        Movement::MoveLeft,
        Movement::MoveDown,
        Movement::RotateCW,
        Movement::MoveDown,
    ];
    let mut moves: Vec<(i32, Movement)> = Vec::new();
    path_to_moves_per_level(&mut moves, &path);
    assert_eq!(
        moves,
        vec![
            (0, Movement::MoveRight),
            (0, Movement::MoveLeft),
            (1, Movement::RotateCW),
        ]
    );
}

#[test]
fn an_empty_path_gives_an_empty_schedule() {
    let mut moves: Vec<(i32, Movement)> = vec![(3, Movement::MoveLeft)];
    path_to_moves_per_level(&mut moves, &Vec::new());
    assert!(moves.is_empty());
}

#[test]
fn trailing_descents_schedule_nothing() {
    let path = vec![Movement::MoveDown, Movement::MoveDown];
    let mut moves: Vec<(i32, Movement)> = Vec::new();
    path_to_moves_per_level(&mut moves, &path);
    assert!(moves.is_empty());
}

#[test]
fn bucket_round_trip_keeps_the_movements() {
    // the original path as the path service hands it out: target to source
    let service_path = vec![
        Movement::MoveDown,
        Movement::RotateCW,
        Movement::MoveDown,
        Movement::MoveLeft,
        Movement::MoveRight,
    ];
    // reverse it to spawn-to-target order
    let forward: Vec<Movement> = service_path.iter().rev().cloned().collect();
    // partition on Down movements
    let mut buckets: Vec<Vec<Movement>> = vec![Vec::new()];
    for m in &forward {
        if *m == Movement::MoveDown {
            buckets.push(Vec::new());
        } else {
            buckets.last_mut().unwrap().push(*m);
        }
    }
    // flatten back with one Down between consecutive buckets
    let mut flat: Vec<Movement> = Vec::new();
    for (i, b) in buckets.iter().enumerate() {
        if i > 0 {
            flat.push(Movement::MoveDown);
        }
        flat.extend_from_slice(b);
    }
    // same count of Downs and the same multiset of non-Down movements
    let count = |v: &Vec<Movement>, m: Movement| v.iter().filter(|x| **x == m).count();
    for m in [
        Movement::MoveLeft,
        Movement::MoveRight,
        Movement::MoveDown,
        Movement::MoveUp,
        Movement::RotateCW,
        Movement::RotateCCW,
    ] {
        assert_eq!(count(&flat, m), count(&service_path, m));
    }
}

#[test]
fn square_rests_once_on_a_square_board() {
    let fig = square();
    assert_eq!(fig.num_faces(), 1);
    let pf = Playfield::new(2, 2);
    let mut placings: Vec<Position> = Vec::new();
    find_placement(&mut placings, &pf, &fig);
    assert_eq!(placings.len(), 1);
    assert_eq!(placings[0].x(), 0);
    assert_eq!(placings[0].y(), 0);
    assert_eq!(placings[0].dir(), 0);
}

#[test]
fn placements_enumerate_left_to_right() {
    let fig = square();
    let pf = Playfield::new(3, 2);
    let mut placings: Vec<Position> = Vec::new();
    find_placement(&mut placings, &pf, &fig);
    assert_eq!(placings.len(), 2);
    assert_eq!((placings[0].x(), placings[0].y()), (0, 0));
    assert_eq!((placings[1].x(), placings[1].y()), (1, 0));
}

#[test]
fn straight_path_descends_to_the_target() {
    let fig = square();
    let pf = Playfield::new(2, 4);
    let mut path: Vec<Movement> = Vec::new();
    find_path(
        &mut path,
        &pf,
        &fig,
        Position::new((0, 0, 0)),
        Position::new((0, 2, 0)),
    );
    assert_eq!(path, vec![Movement::MoveDown, Movement::MoveDown]);
}

#[test]
fn blocked_path_comes_back_empty() {
    let fig = square();
    let mut pf = Playfield::new(2, 4);
    pf.set_block(0, 2, 9);
    let mut path: Vec<Movement> = Vec::new();
    find_path(
        &mut path,
        &pf,
        &fig,
        Position::new((0, 0, 0)),
        Position::new((0, 2, 0)),
    );
    assert!(path.is_empty());
}

#[test]
fn upward_targets_are_unreachable() {
    let fig = square();
    let pf = Playfield::new(2, 4);
    let mut path: Vec<Movement> = vec![Movement::MoveLeft];
    find_path(
        &mut path,
        &pf,
        &fig,
        Position::new((0, 2, 0)),
        Position::new((0, 0, 0)),
    );
    assert!(path.is_empty());
}

#[test]
fn the_catalog_holds_seven_figures() {
    let figs = init_figures();
    assert_eq!(figs.len(), 7);
    // the square has a single face, the bar two, the tee all four
    assert_eq!(figs[3].num_faces(), 1);
    assert_eq!(figs[6].num_faces(), 2);
    assert_eq!(figs[0].num_faces(), 4);
}

#[test]
fn the_square_mask_is_two_by_two_fours() {
    let figs = init_figures();
    let face = figs[3].face(0);
    assert_eq!(face.width(), 2);
    assert_eq!(face.height(), 2);
    for ry in 0..2 {
        for cx in 0..2 {
            assert_eq!(face.get(cx, ry), 4);
        }
    }
}

#[test]
fn the_bar_mask_is_a_middle_column_of_sevens() {
    let figs = init_figures();
    let face = figs[6].face(0);
    assert_eq!(face.width(), 3);
    assert_eq!(face.height(), 4);
    for ry in 0..4 {
        assert_eq!(face.get(0, ry), 0);
        assert_eq!(face.get(1, ry), 7);
        assert_eq!(face.get(2, ry), 0);
    }
}

#[test]
fn the_tee_mask_matches_its_literal() {
    let figs = init_figures();
    let face = figs[0].face(0);
    assert_eq!(face.width(), 3);
    assert_eq!(face.height(), 3);
    let expected = [[0u8, 0, 0], [1, 1, 1], [0, 1, 0]];
    for ry in 0..3 {
        for cx in 0..3 {
            assert_eq!(face.get(cx, ry), expected[ry][cx]);
        }
    }
}

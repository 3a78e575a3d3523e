use blockfall::computer_player::ComputerPlayer;
use blockfall::game::Game;
use blockfall::init_figures;
use blockfall::jitter_computer::JitterComputer;
use blockfall::movement::Movement;
use blockfall::playfield::Playfield;

fn square_only() -> Vec<blockfall::figure::Figure> {
    let mut figs = init_figures();
    vec![figs.remove(3)]
}

fn filled_cells(game: &Game) -> usize {
    let pf = game.playfield();
    let mut n = 0;
    for y in 0..pf.height() {
        for x in 0..pf.width() {
            if pf.get_block(x, y) != 0 {
                n += 1;
            }
        }
    }
    n
}

#[test]
fn a_square_spawns_top_center_without_ending_the_game() {
    let mut game = Game::new(Playfield::new(10, 20), square_only(), 10);
    assert!(game.current_figure().is_none());
    game.update(0);
    assert!(!game.game_is_over());
    match game.current_figure() {
        Some((_, pos)) => {
            assert_eq!(pos.x(), 4);
            assert_eq!(pos.y(), 0);
        }
        None => panic!("a figure should have spawned"),
    }
}

#[test]
fn a_resting_square_locks_and_the_next_spawn_succeeds() {
    let mut game = Game::new(Playfield::new(10, 20), square_only(), 10);
    // drive gravity long enough for the first square to fall to the floor,
    // lock there, and for the next square to spawn; the stack is then far
    // below the spawn row, so the game must still be on
    for t in 0..250u64 {
        game.update(t);
    }
    assert!(!game.game_is_over());
    // the first square locked at the floor
    assert!(filled_cells(&game) >= 4);
    assert_eq!(game.playfield().get_block(4, 19), 4);
    assert_eq!(game.playfield().get_block(5, 18), 4);
    // the spawn row stayed clear and a new figure is falling
    assert_eq!(game.playfield().get_block(4, 0), 0);
    assert!(game.current_figure().is_some());
}

#[test]
fn a_blocked_spawn_ends_the_game_and_freezes_the_board() {
    let mut pf = Playfield::new(10, 20);
    // occupy exactly the spawn cells of the square
    pf.set_block(4, 0, 1);
    pf.set_block(5, 0, 1);
    pf.set_block(4, 1, 1);
    pf.set_block(5, 1, 1);
    let mut game = Game::new(pf, square_only(), 10);
    game.update(0);
    assert!(game.game_is_over());
    assert!(game.current_figure().is_none());

    let mut before: Vec<u8> = Vec::new();
    for y in 0..20 {
        for x in 0..10 {
            before.push(game.playfield().get_block(x, y));
        }
    }
    game.update(1);
    game.update(50);
    assert!(game.game_is_over());
    let mut after: Vec<u8> = Vec::new();
    for y in 0..20 {
        for x in 0..10 {
            after.push(game.playfield().get_block(x, y));
        }
    }
    assert_eq!(before, after);
}

#[test]
fn queued_moves_steer_the_figure() {
    let mut game = Game::new(Playfield::new(10, 20), square_only(), 1000);
    game.update(0);
    let x0 = match game.current_figure() {
        Some((_, pos)) => pos.x(),
        None => panic!("no figure"),
    };
    game.add_move(Movement::MoveLeft, 1);
    game.update(1);
    match game.current_figure() {
        Some((_, pos)) => assert_eq!(pos.x(), x0 - 1),
        None => panic!("no figure"),
    }
}

#[test]
fn blocked_sideways_moves_are_discarded() {
    let mut game = Game::new(Playfield::new(10, 20), square_only(), 1000);
    game.update(0);
    // walk the square into the left wall and keep pushing
    for t in 1..=8u64 {
        game.add_move(Movement::MoveLeft, t);
        game.update(t);
    }
    match game.current_figure() {
        Some((_, pos)) => assert_eq!(pos.x(), 0),
        None => panic!("no figure"),
    }
    assert!(!game.game_is_over());
}

#[test]
fn rotations_execute_when_there_is_room() {
    let mut figs = init_figures();
    let bar_only = vec![figs.remove(6)];
    let mut game = Game::new(Playfield::new(10, 20), bar_only, 1000);
    game.update(0);
    game.add_move(Movement::RotateCW, 1);
    game.update(1);
    match game.current_figure() {
        Some((_, pos)) => assert_eq!(pos.dir(), 1),
        None => panic!("no figure"),
    }
}

#[test]
fn the_player_drives_a_full_game_without_stalling() {
    let mut game = Game::new(Playfield::new(10, 20), square_only(), 10);
    let mut player: ComputerPlayer<JitterComputer> = ComputerPlayer::new(JitterComputer::new());
    for t in 0..5000u64 {
        player.act_on_game(&mut game, t);
        game.update(t);
    }
    // squares pile up in full rows of the board; with a 10-wide board the
    // player packs them and keeps clearing lines, so the game is still on
    assert!(!game.game_is_over());
    assert!(filled_cells(&game) % 4 == 0 || filled_cells(&game) % 2 == 0);
}

#[test]
fn the_player_acts_with_the_full_catalog() {
    let mut game = Game::new(Playfield::new(10, 20), init_figures(), 10);
    let mut player: ComputerPlayer<JitterComputer> = ComputerPlayer::new(JitterComputer::new());
    for t in 0..3000u64 {
        player.act_on_game(&mut game, t);
        game.update(t);
    }
    assert_eq!(game.playfield().width(), 10);
    assert_eq!(game.down_step_time(), 10);
}

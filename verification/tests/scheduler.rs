use blockfall::game::MoveQueue;
use blockfall::movement::Movement;

#[test]
fn pop_returns_nothing_when_queue_is_empty() {
    let mut q = MoveQueue::new();
    assert!(q.pop_next_move(100).is_none());
}

#[test]
fn pop_never_returns_a_future_entry() {
    let mut q = MoveQueue::new();
    q.add_move(Movement::MoveLeft, 10);
    assert!(q.pop_next_move(9).is_none());
    let e = q.pop_next_move(10).unwrap();
    assert_eq!(e.movement, Movement::MoveLeft);
    assert_eq!(e.time, 10);
    assert!(e.time <= 10);
}

#[test]
fn pop_takes_the_earliest_entry_first() {
    let mut q = MoveQueue::new();
    q.add_move(Movement::MoveLeft, 5);
    q.add_move(Movement::MoveDown, 3);
    q.add_move(Movement::MoveRight, 4);
    assert_eq!(q.pop_next_move(10).unwrap().movement, Movement::MoveDown);
    assert_eq!(q.pop_next_move(10).unwrap().movement, Movement::MoveRight);
    assert_eq!(q.pop_next_move(10).unwrap().movement, Movement::MoveLeft);
    assert!(q.pop_next_move(10).is_none());
}

#[test]
fn equal_ticks_resolve_in_insertion_order() {
    let mut q = MoveQueue::new();
    q.add_move(Movement::RotateCW, 5);
    q.add_move(Movement::MoveLeft, 5);
    q.add_move(Movement::RotateCCW, 5);
    assert_eq!(q.pop_next_move(5).unwrap().movement, Movement::RotateCW);
    assert_eq!(q.pop_next_move(5).unwrap().movement, Movement::MoveLeft);
    assert_eq!(q.pop_next_move(5).unwrap().movement, Movement::RotateCCW);
}

#[test]
fn time_since_move_counts_from_the_popped_tick() {
    let mut q = MoveQueue::new();
    // the sentinel 0 makes the very first gravity check fire
    assert_eq!(q.time_since_move(7, Movement::MoveDown), 7);
    q.add_move(Movement::MoveDown, 4);
    let e = q.pop_next_move(4).unwrap();
    assert_eq!(e.time, 4);
    assert_eq!(q.time_last_move(Movement::MoveDown), 4);
    // for any now >= 4 the distance is exactly now - 4
    assert_eq!(q.time_since_move(4, Movement::MoveDown), 0);
    assert_eq!(q.time_since_move(9, Movement::MoveDown), 5);
    assert_eq!(q.time_since_move(104, Movement::MoveDown), 100);
}

#[test]
fn clear_discards_pending_entries_but_keeps_history() {
    let mut q = MoveQueue::new();
    q.add_move(Movement::MoveDown, 2);
    let _ = q.pop_next_move(2);
    q.add_move(Movement::MoveLeft, 3);
    q.clear();
    assert!(q.pop_next_move(100).is_none());
    assert_eq!(q.time_last_move(Movement::MoveDown), 2);
}

use tiles_2048::components::{
    Position, QueuedMove, QueuedMoveMessage, Tile, TileId, Tiles, Timer, Value,
};
use tiles_2048::movement::{
    process_queued_move_messages, queued_movement_system, queued_system_finished,
};

fn resting(value: usize, col: usize, row: usize) -> Tile {
    Tile { value: Value(value), position: Position(col, row), queued: None }
}

#[test]
fn timer_counts_up_to_its_duration_and_stops() {
    let mut timer = Timer::new(10);
    assert_eq!(timer, Timer { duration: 10, elapsed: 0, finished: false });
    assert_eq!(timer.remaining(), 10);
    timer.tick(4);
    assert_eq!(timer, Timer { duration: 10, elapsed: 4, finished: false });
    assert_eq!(timer.is_finished(), false);
    assert_eq!(timer.remaining(), 6);
    timer.tick(6);
    assert_eq!(timer, Timer { duration: 10, elapsed: 10, finished: true });
    assert_eq!(timer.is_finished(), true);
    timer.tick(100);
    assert_eq!(timer, Timer { duration: 10, elapsed: 10, finished: true });
    assert_eq!(timer.remaining(), 0);
}

#[test]
fn timer_edges() {
    let mut zero = Timer::new(0);
    assert_eq!(zero.is_finished(), false);
    zero.tick(0);
    assert_eq!(zero.is_finished(), true);
    let mut long = Timer::new(u64::MAX);
    long.tick(u64::MAX - 1);
    assert_eq!(long.is_finished(), false);
    long.tick(u64::MAX);
    assert_eq!(long, Timer { duration: u64::MAX, elapsed: u64::MAX, finished: true });
    let mut over = Timer::new(5);
    over.tick(u64::MAX);
    assert_eq!(over, Timer { duration: 5, elapsed: 5, finished: true });
}

#[test]
fn tiles_are_told_their_moves_and_stale_names_are_reported() {
    let mut tiles = Tiles::new();
    let a = tiles.insert(resting(1, 0, 0));
    let b = tiles.insert(resting(1, 1, 0));
    tiles.remove(a);
    let messages = vec![
        QueuedMoveMessage(a, Position(3, 0), Timer::new(9), None, Position(0, 0)),
        QueuedMoveMessage(b, Position(0, 0), Timer::new(9), Some(a), Position(1, 0)),
        QueuedMoveMessage(TileId(17), Position(0, 0), Timer::new(9), None, Position(1, 1)),
    ];
    let stale = process_queued_move_messages(&mut tiles, &messages);
    assert_eq!(stale, vec![a, TileId(17)]);
    assert_eq!(tiles.get(a), None);
    assert_eq!(
        tiles.get(b),
        Some(Tile {
            value: Value(1),
            position: Position(1, 0),
            queued: Some(QueuedMove(Position(0, 0), Timer::new(9), Some(a))),
        })
    );
    assert_eq!(queued_system_finished(&tiles), false);
}

#[test]
fn move_advances_then_arrives_and_absorbs() {
    let mut tiles = Tiles::new();
    let target = tiles.insert(resting(3, 0, 0));
    let mover = tiles.insert(resting(3, 2, 0));
    let idle = tiles.insert(resting(5, 3, 3));
    process_queued_move_messages(
        &mut tiles,
        &vec![QueuedMoveMessage(mover, Position(0, 0), Timer::new(10), Some(target), Position(2, 0))],
    );
    let gone = queued_movement_system(&mut tiles, 3);
    assert_eq!(gone, vec![]);
    assert_eq!(
        tiles.get(mover),
        Some(Tile {
            value: Value(3),
            position: Position(2, 0),
            queued: Some(QueuedMove(
                Position(0, 0),
                Timer { duration: 10, elapsed: 3, finished: false },
                Some(target)
            )),
        })
    );
    assert_eq!(tiles.get(target), Some(resting(3, 0, 0)));
    assert_eq!(queued_system_finished(&tiles), false);
    let gone = queued_movement_system(&mut tiles, 7);
    assert_eq!(gone, vec![target]);
    assert_eq!(tiles.get(mover), Some(resting(4, 0, 0)));
    assert_eq!(tiles.get(target), None);
    assert_eq!(tiles.get(idle), Some(resting(5, 3, 3)));
    assert_eq!(queued_system_finished(&tiles), true);
    let gone = queued_movement_system(&mut tiles, 7);
    assert_eq!(gone, vec![]);
    assert_eq!(tiles.get(mover), Some(resting(4, 0, 0)));
}

#[test]
fn tile_that_arrives_and_is_absorbed_on_one_tick_is_gone() {
    for absorbed_first in [true, false] {
        let mut tiles = Tiles::new();
        let (absorbed, mover) = if absorbed_first {
            let x = tiles.insert(resting(1, 1, 0));
            let m = tiles.insert(resting(1, 2, 0));
            (x, m)
        } else {
            let m = tiles.insert(resting(1, 2, 0));
            let x = tiles.insert(resting(1, 1, 0));
            (x, m)
        };
        process_queued_move_messages(
            &mut tiles,
            &vec![
                QueuedMoveMessage(absorbed, Position(0, 0), Timer::new(4), None, Position(1, 0)),
                QueuedMoveMessage(mover, Position(0, 0), Timer::new(4), Some(absorbed), Position(2, 0)),
            ],
        );
        let gone = queued_movement_system(&mut tiles, 4);
        assert_eq!(gone, vec![absorbed]);
        assert_eq!(tiles.get(absorbed), None);
        assert_eq!(tiles.get(mover), Some(resting(2, 0, 0)));
        assert_eq!(queued_system_finished(&tiles), true);
    }
}

#[test]
fn plain_move_keeps_the_rank() {
    let mut tiles = Tiles::new();
    let mover = tiles.insert(resting(6, 3, 1));
    process_queued_move_messages(
        &mut tiles,
        &vec![QueuedMoveMessage(mover, Position(0, 1), Timer::new(2), None, Position(3, 1))],
    );
    assert_eq!(queued_movement_system(&mut tiles, 2), vec![]);
    assert_eq!(tiles.get(mover), Some(resting(6, 0, 1)));
}

#[test]
fn store_hands_out_fresh_references() {
    let mut tiles = Tiles::new();
    assert_eq!(tiles.len(), 0);
    assert_eq!(queued_system_finished(&tiles), true);
    let a = tiles.insert(resting(1, 0, 0));
    let b = tiles.insert(resting(2, 1, 0));
    assert_eq!((a, b), (TileId(0), TileId(1)));
    assert_eq!(tiles.contains(a), true);
    assert_eq!(tiles.value_of(b), 2);
    tiles.remove(a);
    tiles.remove(TileId(40));
    assert_eq!(tiles.contains(a), false);
    assert_eq!(tiles.contains(TileId(40)), false);
    assert_eq!(tiles.get(TileId(40)), None);
    let c = tiles.insert(resting(3, 2, 0));
    assert_eq!(c, TileId(2));
    assert_eq!(tiles.len(), 3);
}

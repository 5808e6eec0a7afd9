use tiles_2048::components::{
    Board, BoardStateResource, Direction, DirectionMessage, GameParams, Position, Tile, TileId,
    Tiles, Timer, Value,
};
use tiles_2048::movement::{
    process_queued_move_messages, queued_movement_system, queued_system_finished,
};
use tiles_2048::resolver::{process_direction_messages, resolve};
use tiles_2048::row::{process_row, MoveOp};
use tiles_2048::states::GameState;

fn common_setup(board_vec: Vec<usize>) -> (BoardStateResource<4>, Tiles) {
    let mut tiles = Tiles::new();
    let cells: Vec<Option<TileId>> = board_vec
        .iter()
        .enumerate()
        .map(|(i, &x)| {
            if x != 0 {
                Some(tiles.insert(Tile {
                    value: Value(x),
                    position: Position(i % 4, i / 4),
                    queued: None,
                }))
            } else {
                None
            }
        })
        .collect();
    (BoardStateResource(Board(cells)), tiles)
}

fn live(tiles: &Tiles) -> usize {
    tiles.slots.iter().filter(|slot| slot.is_some()).count()
}

fn values(board: &Board<4, TileId>, tiles: &Tiles) -> Vec<usize> {
    board
        .0
        .iter()
        .map(|cell| match cell {
            Some(id) => tiles.get(*id).unwrap().value.0,
            None => 0,
        })
        .collect()
}

fn instant() -> GameParams {
    GameParams { move_time: 0, ..GameParams::default() }
}

#[test]
fn merge_testing() {
    let (mut board_state, tiles) =
        common_setup(vec![1, 0, 0, 0, 1, 0, 0, 0, 0, 0, 0, 0, 0, 0, 0, 0]);
    let first = board_state.0 .0[0].unwrap();
    let second = board_state.0 .0[4].unwrap();

    let (state, moves) = process_direction_messages(
        &mut board_state,
        &instant(),
        &vec![DirectionMessage(Direction::Up)],
        &tiles,
    );

    let queued_move = moves[0];
    let has_more = moves.len() > 1;

    assert_eq!(has_more, false);
    assert_eq!(queued_move.1, Position(0, 0));
    assert_eq!(queued_move.3.is_some(), true);

    let merge_with_entity = queued_move.3.unwrap();

    let board = board_state.0.clone();
    assert_eq!(live(&tiles), 2);

    let merge_to_entity = board.0[0];
    assert_eq!(tiles.get(merge_to_entity.unwrap()).unwrap().value.0, 1);
    assert_eq!(tiles.get(merge_with_entity).unwrap().value.0, 1);

    assert_eq!(state, Some(GameState::Movement));
    assert_eq!(queued_move.0, second);
    assert_eq!(queued_move.4, Position(0, 1));
    assert_eq!(merge_with_entity, first);
    assert_eq!(merge_to_entity, Some(second));
    assert_eq!(queued_move.2, Timer { duration: 0, elapsed: 0, finished: false });
}

#[test]
fn merge_with_movement() {
    let (mut board_state, mut tiles) =
        common_setup(vec![0, 0, 0, 0, 1, 0, 0, 0, 1, 0, 0, 0, 0, 0, 0, 0]);

    let (_, moves) = process_direction_messages(
        &mut board_state,
        &instant(),
        &vec![DirectionMessage(Direction::Down)],
        &tiles,
    );
    process_queued_move_messages(&mut tiles, &moves);
    queued_movement_system(&mut tiles, 0);
    let finished = queued_system_finished(&tiles);

    let messages_created = moves.len();

    assert_eq!(messages_created, 2);

    let board = board_state.0.clone();
    assert_eq!(live(&tiles), 1);

    let merge_to_entity = board.0[12];
    assert_eq!(tiles.get(merge_to_entity.unwrap()).unwrap().value.0, 2);
    let merge_with_entity = board.0[4];
    assert_eq!(merge_with_entity.is_none(), true);
    let merge_with_entity = board.0[8];
    assert_eq!(merge_with_entity.is_none(), true);

    assert_eq!(finished, true);
    assert_eq!(tiles.get(merge_to_entity.unwrap()).unwrap().position, Position(0, 3));
}

#[test]
fn merge_with_stacks() {
    let (mut board_state, mut tiles) =
        common_setup(vec![1, 0, 0, 0, 1, 0, 0, 0, 1, 0, 0, 0, 0, 0, 0, 0]);

    let (_, moves) = process_direction_messages(
        &mut board_state,
        &instant(),
        &vec![DirectionMessage(Direction::Up)],
        &tiles,
    );
    process_queued_move_messages(&mut tiles, &moves);
    queued_movement_system(&mut tiles, 0);
    queued_system_finished(&tiles);

    let messages_created = moves.len();

    assert_eq!(messages_created, 2);

    let board = board_state.0.clone();
    assert_eq!(live(&tiles), 2);

    let merge_to_entity = board.0[0];
    assert_eq!(tiles.get(merge_to_entity.unwrap()).unwrap().value.0, 2);
    let merge_with_entity = board.0[4];
    assert_eq!(tiles.get(merge_with_entity.unwrap()).unwrap().value.0, 1);
    let no_merge_entity = board.0[8];
    assert_eq!(no_merge_entity.is_none(), true);
}

#[test]
fn stack_of_three_gives_merge_then_plain_move() {
    let (mut board_state, tiles) =
        common_setup(vec![1, 0, 0, 0, 1, 0, 0, 0, 1, 0, 0, 0, 0, 0, 0, 0]);
    let a = board_state.0 .0[0].unwrap();
    let b = board_state.0 .0[4].unwrap();
    let c = board_state.0 .0[8].unwrap();
    let (_, moves) = process_direction_messages(
        &mut board_state,
        &instant(),
        &vec![DirectionMessage(Direction::Up)],
        &tiles,
    );
    assert_eq!(moves.len(), 2);
    assert_eq!((moves[0].0, moves[0].4, moves[0].1, moves[0].3), (b, Position(0, 1), Position(0, 0), Some(a)));
    assert_eq!((moves[1].0, moves[1].4, moves[1].1, moves[1].3), (c, Position(0, 2), Position(0, 1), None));
    assert_eq!(board_state.0 .0[0], Some(b));
    assert_eq!(board_state.0 .0[4], Some(c));
    assert_eq!(board_state.0 .0[8], None);
}

#[test]
fn slide_in_every_direction() {
    let start = vec![0, 1, 0, 0, 0, 0, 0, 0, 0, 0, 2, 0, 0, 0, 0, 0];
    let cases = [
        (Direction::Left, vec![1, 0, 0, 0, 0, 0, 0, 0, 2, 0, 0, 0, 0, 0, 0, 0], 2),
        (Direction::Right, vec![0, 0, 0, 1, 0, 0, 0, 0, 0, 0, 0, 2, 0, 0, 0, 0], 2),
        (Direction::Up, vec![0, 1, 2, 0, 0, 0, 0, 0, 0, 0, 0, 0, 0, 0, 0, 0], 1),
        (Direction::Down, vec![0, 0, 0, 0, 0, 0, 0, 0, 0, 0, 0, 0, 0, 1, 2, 0], 2),
    ];
    for (direction, expected, moved) in cases {
        let (board_state, tiles) = common_setup(start.clone());
        let (board, moves) = resolve(&board_state.0, &direction, &tiles, 5);
        assert_eq!(values(&board, &tiles), expected);
        assert_eq!(moves.len(), moved);
        for m in moves.iter() {
            assert_eq!(m.2, Timer::new(5));
            assert_eq!(m.3, None);
        }
    }
}

#[test]
fn no_move_when_slide_has_no_effect() {
    let (mut board_state, tiles) =
        common_setup(vec![1, 2, 1, 0, 2, 0, 0, 0, 0, 0, 0, 0, 0, 0, 0, 0]);
    let before = board_state.clone();
    let (state, moves) = process_direction_messages(
        &mut board_state,
        &instant(),
        &vec![DirectionMessage(Direction::Left)],
        &tiles,
    );
    assert_eq!(state, Some(GameState::Wait));
    assert_eq!(moves.len(), 0);
    assert_eq!(board_state, before);
    let (board, moves) = resolve(&board_state.0, &Direction::Up, &tiles, 0);
    assert_eq!(moves.len(), 0);
    assert_eq!(board, before.0);
}

#[test]
fn no_intent_changes_nothing() {
    let (mut board_state, tiles) =
        common_setup(vec![0, 1, 0, 0, 0, 0, 0, 0, 0, 0, 0, 0, 0, 0, 0, 0]);
    let before = board_state.clone();
    let (state, moves) =
        process_direction_messages(&mut board_state, &instant(), &vec![], &tiles);
    assert_eq!(state, None);
    assert_eq!(moves.len(), 0);
    assert_eq!(board_state, before);
}

#[test]
fn only_the_first_intent_counts() {
    let (mut board_state, tiles) =
        common_setup(vec![0, 1, 0, 0, 0, 0, 0, 0, 0, 0, 0, 0, 0, 0, 0, 0]);
    let (state, moves) = process_direction_messages(
        &mut board_state,
        &instant(),
        &vec![DirectionMessage(Direction::Down), DirectionMessage(Direction::Left)],
        &tiles,
    );
    assert_eq!(state, Some(GameState::Movement));
    assert_eq!(moves.len(), 1);
    assert_eq!(moves[0].1, Position(1, 3));
    assert_eq!(values(&board_state.0, &tiles), vec![0, 0, 0, 0, 0, 0, 0, 0, 0, 0, 0, 0, 0, 1, 0, 0]);
}

#[test]
fn tile_count_drops_by_the_number_of_merges() {
    let boards = vec![
        vec![1, 1, 1, 1, 2, 2, 0, 2, 0, 3, 3, 3, 4, 0, 0, 4],
        vec![1, 2, 3, 4, 1, 2, 3, 4, 4, 3, 2, 1, 0, 0, 0, 0],
        vec![5, 5, 5, 0, 0, 0, 0, 0, 1, 0, 1, 0, 2, 1, 1, 2],
    ];
    let directions = [Direction::Left, Direction::Right, Direction::Up, Direction::Down];
    for cells in boards.iter() {
        for direction in directions {
            let (board_state, tiles) = common_setup(cells.clone());
            let before = board_state.0 .0.iter().filter(|c| c.is_some()).count();
            let (board, moves) = resolve(&board_state.0, &direction, &tiles, 0);
            let after = board.0.iter().filter(|c| c.is_some()).count();
            let merges = moves.iter().filter(|m| m.3.is_some()).count();
            assert_eq!(after, before - merges);
            let mut merged: Vec<TileId> = Vec::new();
            for m in moves.iter() {
                if let Some(absorbed) = m.3 {
                    assert!(!merged.contains(&absorbed));
                    merged.push(absorbed);
                    assert!(!merged.contains(&m.0));
                    merged.push(m.0);
                }
                assert_ne!(m.1, m.4);
            }
            assert_eq!(moves.is_empty(), board == board_state.0);
        }
    }
}

#[test]
fn run_of_three_merges_once_and_run_of_four_twice() {
    let (board_state, tiles) =
        common_setup(vec![1, 1, 1, 0, 3, 3, 3, 3, 0, 0, 0, 0, 0, 0, 0, 0]);
    let (board, moves) = resolve(&board_state.0, &Direction::Left, &tiles, 0);
    let row0: Vec<&_> = moves.iter().filter(|m| m.4 .1 == 0).collect();
    let row1: Vec<&_> = moves.iter().filter(|m| m.4 .1 == 1).collect();
    assert_eq!(row0.iter().filter(|m| m.3.is_some()).count(), 1);
    assert_eq!(row1.iter().filter(|m| m.3.is_some()).count(), 2);
    assert_eq!(
        board.0.iter().map(|c| c.is_some()).collect::<Vec<bool>>(),
        vec![
            true, true, false, false, true, true, false, false, false, false, false, false,
            false, false, false, false
        ]
    );
}

#[test]
fn process_row_compacts_and_merges() {
    let mut tiles = Tiles::new();
    let mut ids = Vec::new();
    for value in [2usize, 1, 1, 3] {
        ids.push(tiles.insert(Tile { value: Value(value), position: Position(0, 0), queued: None }));
    }
    let mut row = vec![None, Some(ids[0]), None, Some(ids[1]), Some(ids[2]), Some(ids[3])];
    let moves = process_row(&mut row, &tiles);
    assert_eq!(row, vec![Some(ids[0]), Some(ids[2]), Some(ids[3]), None, None, None]);
    assert_eq!(
        moves,
        vec![
            MoveOp { tile: ids[0], to: 0, from: 1, merged: None },
            MoveOp { tile: ids[1], to: 1, from: 3, merged: None },
            MoveOp { tile: ids[2], to: 1, from: 4, merged: Some(ids[1]) },
            MoveOp { tile: ids[3], to: 2, from: 5, merged: None },
        ]
    );
}

#[test]
fn process_row_leaves_short_and_settled_rows_alone() {
    let mut tiles = Tiles::new();
    let a = tiles.insert(Tile { value: Value(1), position: Position(0, 0), queued: None });
    let b = tiles.insert(Tile { value: Value(2), position: Position(0, 0), queued: None });
    let mut empty: Vec<Option<TileId>> = vec![];
    assert_eq!(process_row(&mut empty, &tiles), vec![]);
    let mut single = vec![Some(a)];
    assert_eq!(process_row(&mut single, &tiles), vec![]);
    assert_eq!(single, vec![Some(a)]);
    let mut blank = vec![None, None, None];
    assert_eq!(process_row(&mut blank, &tiles), vec![]);
    let mut settled = vec![Some(a), Some(b), None, None];
    assert_eq!(process_row(&mut settled, &tiles), vec![]);
    assert_eq!(settled, vec![Some(a), Some(b), None, None]);
    let mut lone = vec![None, None, Some(b)];
    assert_eq!(
        process_row(&mut lone, &tiles),
        vec![MoveOp { tile: b, to: 0, from: 2, merged: None }]
    );
    assert_eq!(lone, vec![Some(b), None, None]);
}

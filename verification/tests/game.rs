use rand::SeedableRng;
use rand_chacha::ChaCha8Rng;
use tiles_2048::components::{
    Board, BoardStateResource, Direction, DirectionMessage, GameParams, Position, QueuedMove,
    Tile, TileId, Tiles, Timer, Value,
};
use tiles_2048::game::{Game, Step};
use tiles_2048::input::generate_direction_messages;
use tiles_2048::spawn::SharedRand;
use tiles_2048::states::GameState;

fn seeded(seed: u64) -> SharedRand {
    SharedRand(ChaCha8Rng::seed_from_u64(seed))
}

fn parts_of(values: [usize; 16]) -> (BoardStateResource<4>, Tiles) {
    let mut tiles = Tiles::new();
    let cells: Vec<Option<TileId>> = values
        .iter()
        .enumerate()
        .map(|(i, &x)| {
            if x != 0 {
                Some(tiles.insert(Tile {
                    value: Value(x),
                    position: Position(i % 4, i / 4),
                    queued: None,
                }))
            } else {
                None
            }
        })
        .collect();
    (BoardStateResource(Board(cells)), tiles)
}

fn game_of(values: [usize; 16], params: GameParams) -> Game<4> {
    let (board_state, tiles) = parts_of(values);
    Game::from_parts(board_state, tiles, params).unwrap()
}

fn cells(game: &Game<4>) -> &Vec<Option<TileId>> {
    &game.board().0 .0
}

fn ranks(game: &Game<4>) -> Vec<usize> {
    cells(game)
        .iter()
        .map(|cell| match cell {
            Some(id) => game.tiles().get(*id).unwrap().value.0,
            None => 0,
        })
        .collect()
}

#[test]
fn keys_give_at_most_one_intent() {
    assert_eq!(generate_direction_messages(false, false, false, false), None);
    assert_eq!(
        generate_direction_messages(true, true, true, true),
        Some(DirectionMessage(Direction::Left))
    );
    assert_eq!(
        generate_direction_messages(false, true, true, true),
        Some(DirectionMessage(Direction::Right))
    );
    assert_eq!(
        generate_direction_messages(false, false, true, true),
        Some(DirectionMessage(Direction::Down))
    );
    assert_eq!(
        generate_direction_messages(false, false, false, true),
        Some(DirectionMessage(Direction::Up))
    );
    assert_eq!(DirectionMessage::default(), DirectionMessage(Direction::Right));
}

#[test]
fn parameters_are_checked() {
    let good = GameParams::default();
    assert_eq!(
        good,
        GameParams {
            move_time: 1_000_000_000,
            win_rank: 11,
            high_rank_numerator: 1,
            high_rank_denominator: 5
        }
    );
    assert!(good.is_valid());
    assert!(!GameParams { win_rank: 2, ..good }.is_valid());
    assert!(GameParams { win_rank: 3, ..good }.is_valid());
    assert!(!GameParams { high_rank_denominator: 0, high_rank_numerator: 0, ..good }.is_valid());
    assert!(!GameParams { high_rank_numerator: 6, ..good }.is_valid());
    assert!(Game::<4>::new(GameParams { win_rank: 1, ..good }).is_none());
    assert!(Game::<4>::start(GameParams { win_rank: 1, ..good }, &mut seeded(1)).is_none());
    assert!(Game::<1>::start(good, &mut seeded(1)).is_none());
    assert!(Game::<1>::new(good).is_some());
    assert!(Game::<{ usize::MAX }>::new(good).is_none());
}

#[test]
fn game_starts_waiting_with_two_tiles() {
    let game = Game::<4>::start(GameParams::default(), &mut seeded(7)).unwrap();
    assert_eq!(game.state(), GameState::Wait);
    assert_eq!(cells(&game).len(), 16);
    assert_eq!(cells(&game).iter().filter(|c| c.is_some()).count(), 2);
    assert_eq!(game.tiles().len(), 2);
    for id in cells(&game).iter().flatten() {
        let tile = game.tiles().get(*id).unwrap();
        assert!(tile.value.0 == 1 || tile.value.0 == 2);
        assert_eq!(cells(&game)[tile.position.0 + tile.position.1 * 4], Some(*id));
    }
    let again = Game::<4>::start(GameParams::default(), &mut seeded(7)).unwrap();
    assert_eq!(again.board(), game.board());
    assert_eq!(again.tiles(), game.tiles());
}

#[test]
fn turn_runs_through_its_phases() {
    let params = GameParams { move_time: 10, ..GameParams::default() };
    let mut game = game_of([1, 0, 0, 0, 1, 0, 0, 0, 0, 0, 0, 0, 0, 0, 0, 0], params);
    let mut rand = seeded(3);
    assert!(matches!(game.update(5, &mut rand), Step::Idle));
    assert_eq!(game.state(), GameState::Wait);

    assert_eq!(game.handle_direction(DirectionMessage(Direction::Up)), true);
    assert_eq!(game.state(), GameState::Process);
    assert_eq!(game.handle_direction(DirectionMessage(Direction::Down)), false);
    assert_eq!(game.direction(), Some(DirectionMessage(Direction::Up)));

    match game.update(5, &mut rand) {
        Step::Slid(moves) => {
            assert_eq!(moves.len(), 1);
            assert_eq!(moves[0].0, TileId(1));
            assert_eq!(moves[0].4, Position(0, 1));
            assert_eq!(moves[0].1, Position(0, 0));
            assert_eq!(moves[0].3, Some(TileId(0)));
        }
        _ => panic!("the slide should be accepted"),
    }
    assert_eq!(game.state(), GameState::Movement);
    assert_eq!(cells(&game)[0], Some(TileId(1)));
    assert_eq!(cells(&game)[4], None);
    assert_eq!(game.handle_direction(DirectionMessage(Direction::Left)), false);

    match game.update(4, &mut rand) {
        Step::Moved(gone) => assert_eq!(gone, vec![]),
        _ => panic!("the tiles should move"),
    }
    assert_eq!(game.state(), GameState::Movement);
    match game.update(6, &mut rand) {
        Step::Moved(gone) => assert_eq!(gone, vec![TileId(0)]),
        _ => panic!("the tiles should move"),
    }
    assert_eq!(game.state(), GameState::Decision);
    assert_eq!(ranks(&game)[0], 2);
    assert_eq!(ranks(&game).iter().filter(|r| **r != 0).count(), 1);

    match game.update(0, &mut rand) {
        Step::Spawned(id, tile) => {
            assert_eq!(id, TileId(2));
            assert_eq!(game.tiles().get(id), Some(tile));
            let at = tile.position.0 + tile.position.1 * 4;
            assert_ne!(at, 0);
            assert_eq!(cells(&game)[at], Some(id));
        }
        _ => panic!("a tile should appear"),
    }
    assert_eq!(game.state(), GameState::Wait);
    assert_eq!(ranks(&game).iter().filter(|r| **r != 0).count(), 2);
}

#[test]
fn slide_without_effect_goes_back_to_waiting() {
    let mut game = game_of([1, 2, 0, 0, 0, 0, 0, 0, 0, 0, 0, 0, 0, 0, 0, 0], GameParams::default());
    let before = game.board().clone();
    let mut rand = seeded(3);
    assert!(game.handle_direction(DirectionMessage(Direction::Left)));
    assert_eq!(game.update(0, &mut rand), Step::Rejected);
    assert_eq!(game.state(), GameState::Wait);
    assert_eq!(game.board(), &before);
    assert_eq!(game.tiles().len(), 2);
    assert_eq!(game.direction(), None);
}

#[test]
fn reaching_the_winning_rank_wins() {
    let params = GameParams { move_time: 0, win_rank: 4, ..GameParams::default() };
    let mut game = game_of([3, 3, 0, 0, 0, 0, 0, 0, 0, 0, 0, 0, 0, 0, 0, 0], params);
    let mut rand = seeded(11);
    assert!(game.handle_direction(DirectionMessage(Direction::Left)));
    assert!(matches!(game.update(0, &mut rand), Step::Slid(_)));
    assert!(matches!(game.update(0, &mut rand), Step::Moved(_)));
    assert_eq!(game.state(), GameState::Decision);
    assert!(matches!(game.update(0, &mut rand), Step::Spawned(_, _)));
    assert_eq!(game.state(), GameState::Win);
    assert_eq!(ranks(&game)[0], 4);
    assert_eq!(game.handle_direction(DirectionMessage(Direction::Left)), false);
    assert!(matches!(game.update(0, &mut rand), Step::Idle));
    assert_eq!(game.state(), GameState::Win);
}

#[test]
fn filling_the_last_cell_without_a_move_left_loses() {
    let params = GameParams {
        move_time: 0,
        win_rank: 11,
        high_rank_numerator: 0,
        high_rank_denominator: 1,
    };
    let mut game = game_of([0, 3, 4, 5, 4, 5, 6, 3, 5, 6, 7, 4, 6, 7, 8, 5], params);
    let mut rand = seeded(5);
    assert!(game.handle_direction(DirectionMessage(Direction::Left)));
    assert!(matches!(game.update(0, &mut rand), Step::Slid(_)));
    assert_eq!(ranks(&game), vec![3, 4, 5, 0, 4, 5, 6, 3, 5, 6, 7, 4, 6, 7, 8, 5]);
    assert_eq!(game.update(0, &mut rand), Step::Moved(vec![]));
    assert_eq!(game.state(), GameState::Decision);
    match game.update(0, &mut rand) {
        Step::Spawned(_, tile) => {
            assert_eq!(tile.value, Value(1));
            assert_eq!(tile.position, Position(3, 0));
        }
        _ => panic!("a tile should appear"),
    }
    assert_eq!(ranks(&game), vec![3, 4, 5, 1, 4, 5, 6, 3, 5, 6, 7, 4, 6, 7, 8, 5]);
    assert_eq!(game.state(), GameState::Lose);
    assert_eq!(game.handle_direction(DirectionMessage(Direction::Up)), false);
    assert_eq!(game.update(9, &mut rand), Step::Idle);
    assert_eq!(game.state(), GameState::Lose);
}

#[test]
fn parts_that_do_not_fit_make_no_game() {
    let good = GameParams::default();
    let values = [1, 0, 0, 0, 0, 2, 0, 0, 0, 0, 0, 0, 0, 0, 0, 3];
    let (board_state, tiles) = parts_of(values);
    assert!(Game::from_parts(board_state.clone(), tiles.clone(), good).is_some());
    assert!(Game::from_parts(
        board_state.clone(),
        tiles.clone(),
        GameParams { win_rank: 2, ..good }
    )
    .is_none());
    assert!(Game::from_parts(
        board_state.clone(),
        tiles.clone(),
        GameParams { win_rank: 3, ..good }
    )
    .is_none());
    // a board of the wrong size
    let mut short = board_state.clone();
    short.0 .0.pop();
    assert!(Game::from_parts(short, tiles.clone(), good).is_none());
    // a tile that does not exist
    let mut gone = tiles.clone();
    gone.remove(TileId(1));
    assert!(Game::from_parts(board_state.clone(), gone, good).is_none());
    // a tile in two cells
    let mut twice = board_state.clone();
    twice.0 .0[1] = Some(TileId(0));
    assert!(Game::from_parts(twice, tiles.clone(), good).is_none());
    // a tile that is not on the board
    let mut more = tiles.clone();
    more.insert(Tile { value: Value(1), position: Position(2, 2), queued: None });
    assert!(Game::from_parts(board_state.clone(), more, good).is_none());
    // a tile that rests elsewhere
    let mut moved = board_state.clone();
    moved.0 .0.swap(0, 1);
    assert!(Game::from_parts(moved, tiles.clone(), good).is_none());
    // a tile in the middle of a move
    let mut moving = tiles.clone();
    moving.slots[0].as_mut().unwrap().queued =
        Some(QueuedMove(Position(0, 0), Timer::new(1), None));
    assert!(Game::from_parts(board_state.clone(), moving, good).is_none());
    // a tile out of the grid
    let mut outside = tiles.clone();
    outside.insert(Tile { value: Value(1), position: Position(4, 0), queued: None });
    assert!(Game::from_parts(board_state, outside, good).is_none());
}

#[test]
fn many_turns_keep_the_board_and_the_tiles_in_step() {
    let params = GameParams { move_time: 3, ..GameParams::default() };
    let mut rand = seeded(42);
    let mut game = Game::<4>::start(params, &mut rand).unwrap();
    let directions = [Direction::Left, Direction::Up, Direction::Right, Direction::Down];
    let mut turn = 0;
    while !game.state().is_terminal() && turn < 400 {
        assert_eq!(game.state(), GameState::Wait);
        assert!(game.handle_direction(DirectionMessage(directions[turn % 4])));
        let before = cells(&game).iter().filter(|c| c.is_some()).count();
        match game.update(1, &mut rand) {
            Step::Rejected => assert_eq!(game.state(), GameState::Wait),
            Step::Slid(moves) => {
                let merges = moves.iter().filter(|m| m.3.is_some()).count();
                let after = cells(&game).iter().filter(|c| c.is_some()).count();
                assert_eq!(after, before - merges);
                let mut steps = 0;
                while game.state() == GameState::Movement {
                    assert!(matches!(game.update(2, &mut rand), Step::Moved(_)));
                    steps += 1;
                }
                assert_eq!(steps, 2);
                assert_eq!(game.state(), GameState::Decision);
                let live = game.tiles().slots.iter().filter(|s| s.is_some()).count();
                assert_eq!(game.params(), params);
                assert_eq!(live, after);
                assert!(matches!(game.update(0, &mut rand), Step::Spawned(_, _)));
                for (k, cell) in cells(&game).iter().enumerate() {
                    if let Some(id) = cell {
                        let tile = game.tiles().get(*id).unwrap();
                        assert_eq!(tile.position, Position(k % 4, k / 4));
                        assert_eq!(tile.queued, None);
                    }
                }
            }
            _ => panic!("a slide is accepted or rejected"),
        }
        turn += 1;
    }
    assert!(turn > 10);
}

use tiles_2048::components::{Board, Position, Tile, TileId, Tiles, Value};
use tiles_2048::states::GameState;
use tiles_2048::terminal::{extract_value, is_neighbours_mergeable, the_end_system};

fn board_of(values: [usize; 16]) -> (Board<4, TileId>, Tiles) {
    let mut tiles = Tiles::new();
    let cells: Vec<Option<TileId>> = values
        .iter()
        .enumerate()
        .map(|(i, &x)| {
            if x != 0 {
                Some(tiles.insert(Tile {
                    value: Value(x),
                    position: Position(i % 4, i / 4),
                    queued: None,
                }))
            } else {
                None
            }
        })
        .collect();
    (Board(cells), tiles)
}

const STUCK: [usize; 16] = [1, 2, 1, 2, 2, 1, 2, 1, 1, 2, 1, 2, 2, 1, 2, 1];

#[test]
fn full_board_without_equal_neighbours_is_lost() {
    let (board, tiles) = board_of(STUCK);
    assert_eq!(the_end_system(&board, &tiles, 11), GameState::Lose);
    for c in 0..4 {
        for r in 0..4 {
            assert_eq!(is_neighbours_mergeable(&board, &tiles, c, r), false);
        }
    }
}

#[test]
fn an_empty_cell_keeps_the_game_going() {
    for hole in 0..16 {
        let mut values = STUCK;
        values[hole] = 0;
        let (board, tiles) = board_of(values);
        assert_eq!(the_end_system(&board, &tiles, 11), GameState::Wait);
        assert_eq!(is_neighbours_mergeable(&board, &tiles, hole % 4, hole / 4), true);
    }
}

#[test]
fn equal_neighbours_keep_the_game_going() {
    let mut values = STUCK;
    values[5] = 2;
    let (board, tiles) = board_of(values);
    assert_eq!(the_end_system(&board, &tiles, 11), GameState::Wait);
    assert_eq!(is_neighbours_mergeable(&board, &tiles, 1, 1), true);
    assert_eq!(is_neighbours_mergeable(&board, &tiles, 0, 1), true);
    assert_eq!(is_neighbours_mergeable(&board, &tiles, 2, 1), true);
    assert_eq!(is_neighbours_mergeable(&board, &tiles, 1, 0), true);
    assert_eq!(is_neighbours_mergeable(&board, &tiles, 1, 2), true);
    assert_eq!(is_neighbours_mergeable(&board, &tiles, 3, 3), false);
    assert_eq!(is_neighbours_mergeable(&board, &tiles, 0, 0), false);
}

#[test]
fn equal_tiles_at_the_ends_of_a_row_are_no_neighbours() {
    let mut values = STUCK;
    values[3] = 3;
    values[4] = 3;
    let (board, tiles) = board_of(values);
    assert_eq!(the_end_system(&board, &tiles, 11), GameState::Lose);
}

#[test]
fn winning_rank_wins_whatever_else_holds() {
    let mut values = STUCK;
    values[15] = 11;
    let (board, tiles) = board_of(values);
    assert_eq!(the_end_system(&board, &tiles, 11), GameState::Win);
    assert_eq!(the_end_system(&board, &tiles, 12), GameState::Lose);
    let mut values = [0usize; 16];
    values[9] = 11;
    let (board, tiles) = board_of(values);
    assert_eq!(the_end_system(&board, &tiles, 11), GameState::Win);
    assert_eq!(the_end_system(&board, &tiles, 5), GameState::Wait);
    let (board, tiles) = board_of([0; 16]);
    assert_eq!(the_end_system(&board, &tiles, 0), GameState::Wait);
}

#[test]
fn extract_value_reads_rank_or_zero() {
    let mut values = [0usize; 16];
    values[2] = 7;
    let (board, tiles) = board_of(values);
    assert_eq!(extract_value(&board, &tiles, 2), 7);
    assert_eq!(extract_value(&board, &tiles, 3), 0);
}

#[test]
fn states_know_whether_they_end_the_game() {
    assert_eq!(GameState::default(), GameState::Wait);
    assert!(GameState::Win.is_terminal());
    assert!(GameState::Lose.is_terminal());
    for state in [GameState::Wait, GameState::Process, GameState::Movement, GameState::Decision] {
        assert!(!state.is_terminal());
    }
}

use rand::{RngCore, SeedableRng};
use rand_chacha::rand_core::impls;
use rand_chacha::ChaCha8Rng;
use tiles_2048::components::{
    Board, BoardStateResource, GameParams, Position, Tile, TileId, Tiles, Value,
};
use tiles_2048::spawn::{
    acquire_empty_tile, acquire_empty_tile_weighted, board_setup, place_spawn,
    produce_new_tile_system, SharedRand,
};

struct TestRand {
    seq: Vec<u8>,
    index: usize,
}

impl RngCore for TestRand {
    fn next_u32(&mut self) -> u32 {
        let value = self.seq[self.index];
        self.index += 1;
        if self.index >= self.seq.len() {
            self.index = 0
        }

        value as u32
    }

    fn next_u64(&mut self) -> u64 {
        self.next_u32() as u64
    }

    fn fill_bytes(&mut self, dst: &mut [u8]) {
        impls::fill_bytes_via_next(self, dst)
    }
}

fn seeded(seq: Vec<u8>) -> SharedRand {
    SharedRand(ChaCha8Rng::from_rng(&mut TestRand { seq, index: 0 }))
}

#[test]
fn acquire_empty_tile_test() {
    let mut rand = seeded(vec![0, 1, 2, 3]);
    let board = Board::<2, TileId>(vec![None; 4]);

    assert_eq!(acquire_empty_tile(&mut rand, &board), Some((1, 0, 1)));

    let mut rand = seeded(vec![3, 1, 2, 3]);
    let board = Board::<2, TileId>(vec![None; 4]);

    assert_eq!(acquire_empty_tile(&mut rand, &board), Some((1, 0, 2)));

    let mut rand = seeded(vec![3, 1, 2, 3]);
    let board = Board::<2, TileId>(vec![Some(TileId(rand.0.next_u64() as usize)); 4]);

    assert_eq!(acquire_empty_tile(&mut rand, &board), None);
}

#[test]
fn same_seed_gives_same_spawn() {
    for seq in [vec![0u8, 1, 2, 3], vec![3, 1, 2, 3], vec![9, 9, 9, 9], vec![200, 7, 13, 1]] {
        let board = Board::<2, TileId>(vec![None; 4]);
        let first = acquire_empty_tile(&mut seeded(seq.clone()), &board);
        let second = acquire_empty_tile(&mut seeded(seq.clone()), &board);
        assert_eq!(first, second);
        let (col, row, value) = first.unwrap();
        assert!(col < 2 && row < 2);
        assert!(value == 1 || value == 2);
    }
}

#[test]
fn spawn_lands_only_on_empty_cells() {
    let mut rand = seeded(vec![5, 6, 7, 8]);
    let mut cells: Vec<Option<TileId>> = vec![Some(TileId(0)); 9];
    cells[5] = None;
    let board = Board::<3, TileId>(cells);
    for _ in 0..50 {
        let (col, row, value) = acquire_empty_tile(&mut rand, &board).unwrap();
        assert_eq!((col, row), (2, 1));
        assert!(value == 1 || value == 2);
    }
}

#[test]
fn spawn_rank_follows_the_odds_at_their_ends() {
    let mut rand = seeded(vec![1, 2, 3, 4]);
    let board = Board::<4, TileId>(vec![None; 16]);
    let mut seen = [false; 16];
    for _ in 0..400 {
        let (col, row, value) = acquire_empty_tile_weighted(&mut rand, &board, 0, 5).unwrap();
        assert_eq!(value, 1);
        seen[col + row * 4] = true;
        let (_, _, value) = acquire_empty_tile_weighted(&mut rand, &board, 5, 5).unwrap();
        assert_eq!(value, 2);
    }
    assert!(seen.iter().filter(|s| **s).count() > 1);
    let mut low = 0;
    let mut high = 0;
    for _ in 0..2000 {
        match acquire_empty_tile(&mut rand, &board).unwrap().2 {
            1 => low += 1,
            2 => high += 1,
            other => panic!("rank {}", other),
        }
    }
    assert!(high > 200 && high < 600);
    assert_eq!(low + high, 2000);
}

#[test]
fn place_spawn_splits_the_index() {
    let empty = vec![1usize, 6, 11, 14];
    assert_eq!(place_spawn::<4>(&empty, false, 0), (1, 0, 1));
    assert_eq!(place_spawn::<4>(&empty, true, 1), (2, 1, 2));
    assert_eq!(place_spawn::<4>(&empty, false, 2), (3, 2, 1));
    assert_eq!(place_spawn::<4>(&empty, true, 3), (2, 3, 2));
    assert_eq!(place_spawn::<5>(&empty, true, 3), (4, 2, 2));
}

#[test]
fn empty_indices_lists_empty_cells_in_order() {
    let board = Board::<2, usize>(vec![None, Some(1), None, None]);
    assert_eq!(board.empty_indices(), vec![0, 2, 3]);
    assert_eq!(Board::<2, usize>(vec![Some(1); 4]).empty_indices(), Vec::<usize>::new());
    assert_eq!(Board::<0, usize>(vec![]).empty_indices(), Vec::<usize>::new());
    assert_eq!(Board::<2, usize>::vacant().unwrap().empty_indices(), vec![0, 1, 2, 3]);
}

#[test]
fn new_tile_goes_on_board_and_into_store() {
    let mut rand = seeded(vec![0, 1, 2, 3]);
    let mut tiles = Tiles::new();
    let first = tiles.insert(Tile { value: Value(3), position: Position(0, 0), queued: None });
    let mut board_state = BoardStateResource(Board::<2, TileId>(vec![Some(first), None, None, None]));
    let (id, tile) =
        produce_new_tile_system(&mut tiles, &mut rand, &mut board_state, &GameParams::default());
    assert_eq!(id, TileId(1));
    assert_eq!(tiles.get(id), Some(tile));
    assert_eq!(tile.queued, None);
    assert!(tile.value.0 == 1 || tile.value.0 == 2);
    let at = tile.position.0 + tile.position.1 * 2;
    assert_ne!(at, 0);
    assert_eq!(board_state.0 .0[at], Some(id));
    assert_eq!(board_state.0 .0.iter().filter(|c| c.is_some()).count(), 2);
}

#[test]
fn setup_puts_two_tiles_on_the_board() {
    let mut rand = seeded(vec![4, 3, 2, 1]);
    let mut tiles = Tiles::new();
    let mut board_state = BoardStateResource(Board::<4, TileId>::vacant().unwrap());
    let ((a, ta), (b, tb)) =
        board_setup(&mut tiles, &mut rand, &mut board_state, &GameParams::default());
    assert_eq!((a, b), (TileId(0), TileId(1)));
    assert_ne!(ta.position, tb.position);
    assert_eq!(board_state.0 .0[ta.position.0 + ta.position.1 * 4], Some(a));
    assert_eq!(board_state.0 .0[tb.position.0 + tb.position.1 * 4], Some(b));
    assert_eq!(board_state.0 .0.iter().filter(|c| c.is_some()).count(), 2);
    assert_eq!(tiles.len(), 2);
}

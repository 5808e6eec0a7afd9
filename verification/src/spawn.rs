//! Where the next tile appears, and with which rank.

use rand::Rng;
use rand_chacha::ChaCha8Rng;
use vstd::prelude::*;
use crate::board::{lemma_fewer_tiles_than_cells, lemma_tile_count_fill, tile_count};
use crate::components::{
    Board, BoardStateResource, GameParams, Position, Tile, TileId, Tiles, Value,
};
use crate::grid::{cell_index, lemma_cell_index_bounds, lemma_cell_index_split};

verus! {

/// Rank of most new tiles.
pub const LOW_RANK: usize = 1;

/// Rank of the rarer new tiles.
pub const HIGH_RANK: usize = 2;

/// A new tile has the high rank in `HIGH_RANK_NUMERATOR` of
/// `HIGH_RANK_DENOMINATOR` cases.
pub const HIGH_RANK_NUMERATOR: u32 = 1;

/// See `HIGH_RANK_NUMERATOR`.
pub const HIGH_RANK_DENOMINATOR: u32 = 5;

/// Makes the generator `rand_chacha::ChaCha8Rng` known as a type of which
/// nothing is seen but that a value of it exists.
#[verifier::external_type_specification]
#[verifier::external_body]
pub struct ExChaCha8Rng(rand_chacha::ChaCha8Rng);

/// The one source of randomness of a game.
pub struct SharedRand(pub ChaCha8Rng);

/// Draws a boolean from the generator with `rand::Rng::random_ratio`: true in
/// about `numerator` of `denominator` draws. Not proved: that a ratio of zero
/// always gives `false` and a ratio of one always `true`, as the method's
/// documentation says. The method panics on the ratios that the precondition
/// leaves out.
#[verifier::external_body]
fn random_ratio(rng: &mut ChaCha8Rng, numerator: u32, denominator: u32) -> (hit: bool)
    requires
        denominator > 0,
        numerator <= denominator,
    ensures
        numerator == 0 ==> !hit,
        numerator == denominator ==> hit,
{
    rng.random_ratio(numerator, denominator)
}

/// Draws an index below `bound` from the generator with
/// `rand::Rng::random_range` on the range from 0 up to and without `bound`.
/// Not proved: that the index lies in that range. The method panics on the
/// empty range, which the precondition leaves out.
#[verifier::external_body]
fn random_below(rng: &mut ChaCha8Rng, bound: usize) -> (index: usize)
    requires
        bound > 0,
    ensures
        index < bound,
{
    rng.random_range(0..bound)
}

/// The indices of the empty cells, rising.
pub open spec fn empty_cells<T>(cells: Seq<Option<T>>) -> Seq<usize>
    decreases cells.len(),
{
    if cells.len() == 0 {
        Seq::empty()
    } else if cells.last() is None {
        empty_cells(cells.drop_last()).push((cells.len() - 1) as usize)
    } else {
        empty_cells(cells.drop_last())
    }
}

/// The empty cells are listed, and only they.
pub proof fn lemma_empty_cells<T>(cells: Seq<Option<T>>)
    requires
        cells.len() <= usize::MAX,
    ensures
        forall|i: int|
            0 <= i < empty_cells(cells).len() ==> (#[trigger] empty_cells(cells)[i]) < cells.len()
                && cells[empty_cells(cells)[i] as int] is None,
        forall|k: int|
            0 <= k < cells.len() && (#[trigger] cells[k]) is None ==> empty_cells(cells).contains(
                k as usize,
            ),
        empty_cells(cells).len() + tile_count(cells) == cells.len(),
    decreases cells.len(),
{
    if cells.len() > 0 {
        let shorter = cells.drop_last();
        let before = empty_cells(shorter);
        let all = empty_cells(cells);
        lemma_empty_cells(shorter);
        assert forall|i: int| 0 <= i < all.len() implies (#[trigger] all[i]) < cells.len()
            && cells[all[i] as int] is None by {
            if i < before.len() {
                assert(all[i] == before[i]);
                assert(cells[before[i] as int] == shorter[before[i] as int]);
            }
        }
        assert forall|k: int| 0 <= k < cells.len() && (#[trigger] cells[k]) is None implies all.contains(
            k as usize,
        ) by {
            if k < shorter.len() {
                assert(shorter[k] is None);
                let i = choose|i: int| 0 <= i < before.len() && before[i] == k as usize;
                assert(all[i] == k as usize);
            } else {
                assert(all[all.len() - 1] == k as usize);
            }
        }
    }
}

impl<const N: usize, T> Board<N, T> {
    /// The indices of the empty cells, rising.
    pub fn empty_indices(&self) -> (empty: Vec<usize>)
        ensures
            empty@ == empty_cells(self.cells()),
    {
        let mut empty: Vec<usize> = Vec::new();
        let total = self.0.len();
        let mut k: usize = 0;
        while k < total
            invariant
                k <= total,
                total == self.cells().len(),
                empty@ == empty_cells(self.cells().take(k as int)),
            decreases total - k,
        {
            proof {
                assert(self.cells().take(k + 1).drop_last() =~= self.cells().take(k as int));
            }
            if self.0[k].is_none() {
                empty.push(k);
            }
            k += 1;
        }
        proof {
            assert(self.cells().take(total as int) =~= self.cells());
        }
        empty
    }
}

/// The cell and rank of a new tile, from the empty cells and what was drawn:
/// column and row of the `index_rand`-th empty cell, and the high rank if
/// `big_val`, else the low rank.
pub open spec fn spawn_choice(empty_spaces: Seq<usize>, n: int, big_val: bool, index_rand: int) -> (
    usize,
    usize,
    usize,
) {
    (
        (empty_spaces[index_rand] as int % n) as usize,
        (empty_spaces[index_rand] as int / n) as usize,
        if big_val {
            HIGH_RANK
        } else {
            LOW_RANK
        },
    )
}

/// Turns what was drawn into the cell and rank of the new tile: column, row
/// and rank.
pub fn place_spawn<const N: usize>(empty_spaces: &Vec<usize>, big_val: bool, index_rand: usize) -> (spawn:
    (usize, usize, usize))
    requires
        N > 0,
        index_rand < empty_spaces@.len(),
    ensures
        spawn == spawn_choice(empty_spaces@, N as int, big_val, index_rand as int),
{
    let row: usize = empty_spaces[index_rand] / N;
    let col: usize = empty_spaces[index_rand] % N;
    (
        col,
        row,
        if big_val {
            HIGH_RANK
        } else {
            LOW_RANK
        },
    )
}

/// Picks an empty cell and a rank for a new tile, the rank being high in
/// about `numerator` of `denominator` cases: column, row and rank, or nothing
/// when no cell is empty. The generator is asked first for the rank, then for
/// the cell.
pub fn acquire_empty_tile_weighted<const N: usize>(
    shared_rand: &mut SharedRand,
    board: &Board<N, TileId>,
    numerator: u32,
    denominator: u32,
) -> (spawn: Option<(usize, usize, usize)>)
    requires
        board.wf(),
        denominator > 0,
        numerator <= denominator,
    ensures
        spawn is None <==> forall|k: int|
            0 <= k < board.cells().len() ==> (#[trigger] board.cells()[k]) is Some,
        spawn matches Some((col, row, value)) ==> {
            &&& col < N && row < N
            &&& board.cells()[cell_index(N as int, col as int, row as int)] is None
            &&& value == LOW_RANK || value == HIGH_RANK
            &&& numerator == 0 ==> value == LOW_RANK
            &&& numerator == denominator ==> value == HIGH_RANK
            &&& exists|big_val: bool, index_rand: int|
                0 <= index_rand < empty_cells(board.cells()).len() && (col, row, value)
                    == #[trigger] spawn_choice(
                    empty_cells(board.cells()),
                    N as int,
                    big_val,
                    index_rand,
                )
        },
{
    let empty_spaces = board.empty_indices();
    let total = board.0.len();
    proof {
        assert(board.cells().len() == total);
        lemma_empty_cells(board.cells());
    }
    if empty_spaces.len() == 0 {
        return None;
    }
    let big_val: bool = random_ratio(&mut shared_rand.0, numerator, denominator);
    let index_rand = random_below(&mut shared_rand.0, empty_spaces.len());
    let spawn = place_spawn::<N>(&empty_spaces, big_val, index_rand);
    proof {
        let k = empty_spaces@[index_rand as int] as int;
        assert(board.cells()[k] is None);
        lemma_cell_index_split(N as int, k);
    }
    Some(spawn)
}

/// Picks an empty cell and a rank for a new tile, the rank being high in one
/// of five cases: column, row and rank, or nothing when no cell is empty.
pub fn acquire_empty_tile<const N: usize>(shared_rand: &mut SharedRand, board: &Board<N, TileId>) -> (spawn:
    Option<(usize, usize, usize)>)
    requires
        board.wf(),
    ensures
        spawn is None <==> forall|k: int|
            0 <= k < board.cells().len() ==> (#[trigger] board.cells()[k]) is Some,
        spawn matches Some((col, row, value)) ==> {
            &&& col < N && row < N
            &&& board.cells()[cell_index(N as int, col as int, row as int)] is None
            &&& value == LOW_RANK || value == HIGH_RANK
            &&& exists|big_val: bool, index_rand: int|
                0 <= index_rand < empty_cells(board.cells()).len() && (col, row, value)
                    == #[trigger] spawn_choice(
                    empty_cells(board.cells()),
                    N as int,
                    big_val,
                    index_rand,
                )
        },
{
    acquire_empty_tile_weighted(shared_rand, board, HIGH_RANK_NUMERATOR, HIGH_RANK_DENOMINATOR)
}

/// Makes a new tile and puts it into an empty cell of the board: returns its
/// reference and the tile. The rank is high in about
/// `params.high_rank_numerator` of `params.high_rank_denominator` cases.
pub fn produce_new_tile_system<const N: usize>(
    tiles: &mut Tiles,
    shared_rand: &mut SharedRand,
    board_state: &mut BoardStateResource<N>,
    params: &GameParams,
) -> (spawned: (TileId, Tile))
    requires
        old(board_state).0.wf(),
        params.odds_valid(),
        exists|k: int|
            0 <= k < old(board_state).0.cells().len()
                && (#[trigger] old(board_state).0.cells()[k]) is None,
    ensures
        spawned.0.0 == old(tiles)@.len(),
        final(tiles)@ == old(tiles)@.push(Some(spawned.1)),
        spawned.1.queued is None,
        spawned.1.value.0 == LOW_RANK || spawned.1.value.0 == HIGH_RANK,
        params.high_rank_numerator == 0 ==> spawned.1.value.0 == LOW_RANK,
        params.high_rank_numerator == params.high_rank_denominator ==> spawned.1.value.0
            == HIGH_RANK,
        spawned.1.position.0 < N && spawned.1.position.1 < N,
        ({
            let k = cell_index(
                N as int,
                spawned.1.position.0 as int,
                spawned.1.position.1 as int,
            );
            &&& 0 <= k < N * N
            &&& old(board_state).0.cells()[k] is None
            &&& final(board_state).0.cells() == old(board_state).0.cells().update(
                k,
                Some(spawned.0),
            )
        }),
        final(board_state).0.wf(),
{
    let spawn = acquire_empty_tile_weighted(
        shared_rand,
        &board_state.0,
        params.high_rank_numerator,
        params.high_rank_denominator,
    );
    match spawn {
        Some((col, row, val)) => {
            let tile = Tile { value: Value(val), position: Position(col, row), queued: None };
            let id = tiles.insert(tile);
            let total = board_state.0.0.len();
            proof {
                lemma_cell_index_bounds(N as int, col as int, row as int);
            }
            board_state.0.0.set(col + row * N, Some(id));
            (id, tile)
        },
        None => {
            proof {
                let k = choose|k: int|
                    0 <= k < board_state.0.cells().len() && (
                    #[trigger] board_state.0.cells()[k]) is None;
                assert(board_state.0.cells()[k] is Some);
            }
            unreached()
        },
    }
}

/// Puts the first two tiles on the board: returns their references and the
/// tiles, in the order in which they were made.
pub fn board_setup<const N: usize>(
    tiles: &mut Tiles,
    shared_rand: &mut SharedRand,
    board_state: &mut BoardStateResource<N>,
    params: &GameParams,
) -> (spawned: ((TileId, Tile), (TileId, Tile)))
    requires
        old(board_state).0.wf(),
        params.odds_valid(),
        tile_count(old(board_state).0.cells()) + 2 <= N * N,
    ensures
        final(board_state).0.wf(),
        final(tiles)@ == old(tiles)@.push(Some(spawned.0.1)).push(Some(spawned.1.1)),
        spawned.0.0.0 == old(tiles)@.len(),
        spawned.1.0.0 == old(tiles)@.len() + 1,
        spawned.0.1.queued is None && spawned.1.1.queued is None,
        spawned.0.1.value.0 == LOW_RANK || spawned.0.1.value.0 == HIGH_RANK,
        spawned.1.1.value.0 == LOW_RANK || spawned.1.1.value.0 == HIGH_RANK,
        spawned.0.1.position.0 < N && spawned.0.1.position.1 < N,
        spawned.1.1.position.0 < N && spawned.1.1.position.1 < N,
        spawned.0.1.position != spawned.1.1.position,
        ({
            let first = cell_index(
                N as int,
                spawned.0.1.position.0 as int,
                spawned.0.1.position.1 as int,
            );
            let second = cell_index(
                N as int,
                spawned.1.1.position.0 as int,
                spawned.1.1.position.1 as int,
            );
            &&& 0 <= first < N * N && 0 <= second < N * N
            &&& old(board_state).0.cells()[first] is None
            &&& old(board_state).0.cells()[second] is None
            &&& final(board_state).0.cells() == old(board_state).0.cells().update(
                first,
                Some(spawned.0.0),
            ).update(second, Some(spawned.1.0))
        }),
        tile_count(final(board_state).0.cells()) == tile_count(old(board_state).0.cells()) + 2,
{
    let ghost start = board_state.0.cells();
    proof {
        lemma_fewer_tiles_than_cells(start);
    }
    let one = produce_new_tile_system(tiles, shared_rand, board_state, params);
    let ghost middle = board_state.0.cells();
    proof {
        let first = cell_index(N as int, one.1.position.0 as int, one.1.position.1 as int);
        lemma_tile_count_fill(start, first, one.0);
        lemma_fewer_tiles_than_cells(middle);
    }
    let two = produce_new_tile_system(tiles, shared_rand, board_state, params);
    proof {
        let second = cell_index(N as int, two.1.position.0 as int, two.1.position.1 as int);
        lemma_tile_count_fill(middle, second, two.0);
    }
    (one, two)
}

} // verus!

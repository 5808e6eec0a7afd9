//! Whether the game is won, lost or goes on.

use vstd::prelude::*;
use crate::board::cells_live;
use crate::components::{is_live, rank_of, Board, Tile, TileId, Tiles};
use crate::grid::{cell_index, lemma_cell_index_bounds, lemma_cell_index_split};
use crate::states::GameState;

verus! {

/// Rank of the tile in cell `k`, or 0 where the cell is empty.
pub open spec fn cell_rank(cells: Seq<Option<TileId>>, tiles: Seq<Option<Tile>>, k: int) -> usize {
    match cells[k] {
        Some(tile) => rank_of(tiles, tile),
        None => 0,
    }
}

/// Whether some cell holds a tile of rank `rank`.
pub open spec fn holds_rank(cells: Seq<Option<TileId>>, tiles: Seq<Option<Tile>>, rank: usize)
    -> bool {
    exists|k: int|
        0 <= k < cells.len() && (#[trigger] cells[k]) is Some && rank_of(tiles, cells[k]->0)
            == rank
}

/// Whether the cells `a` and `b` both hold a tile and the two tiles have the
/// same rank.
pub open spec fn same_rank(
    cells: Seq<Option<TileId>>,
    tiles: Seq<Option<Tile>>,
    a: int,
    b: int,
) -> bool {
    cells[a] is Some && cells[b] is Some && rank_of(tiles, cells[a]->0) == rank_of(
        tiles,
        cells[b]->0,
    )
}

/// Whether the cell in column `c` of row `r` is empty or holds a tile of the
/// rank of a tile next to it in its row or its column.
pub open spec fn mergeable_at(
    cells: Seq<Option<TileId>>,
    n: int,
    tiles: Seq<Option<Tile>>,
    c: int,
    r: int,
) -> bool {
    let k = cell_index(n, c, r);
    ||| cells[k] is None
    ||| c + 1 < n && same_rank(cells, tiles, k, cell_index(n, c + 1, r))
    ||| c >= 1 && same_rank(cells, tiles, k, cell_index(n, c - 1, r))
    ||| r + 1 < n && same_rank(cells, tiles, k, cell_index(n, c, r + 1))
    ||| r >= 1 && same_rank(cells, tiles, k, cell_index(n, c, r - 1))
}

/// Whether a move is still possible: some cell is empty or holds a tile of
/// the rank of a tile next to it.
pub open spec fn can_move(cells: Seq<Option<TileId>>, n: int, tiles: Seq<Option<Tile>>) -> bool {
    exists|c: int, r: int| 0 <= c < n && 0 <= r < n && #[trigger] mergeable_at(cells, n, tiles, c, r)
}

/// Every cell holds a tile.
pub open spec fn is_full(cells: Seq<Option<TileId>>) -> bool {
    forall|k: int| 0 <= k < cells.len() ==> (#[trigger] cells[k]) is Some
}

/// No two cells next to each other in a row or a column hold tiles of the
/// same rank.
pub open spec fn no_equal_neighbours(
    cells: Seq<Option<TileId>>,
    n: int,
    tiles: Seq<Option<Tile>>,
) -> bool {
    forall|c: int, r: int|
        0 <= c < n && 0 <= r < n ==> (c + 1 < n ==> !same_rank(
            cells,
            tiles,
            #[trigger] cell_index(n, c, r),
            cell_index(n, c + 1, r),
        )) && (r + 1 < n ==> !same_rank(
            cells,
            tiles,
            cell_index(n, c, r),
            cell_index(n, c, r + 1),
        ))
}

/// How the game stands on a settled board: won when a tile of the winning
/// rank is on it; else going on while a move is possible; else lost.
pub open spec fn outcome(
    cells: Seq<Option<TileId>>,
    n: int,
    tiles: Seq<Option<Tile>>,
    win_rank: usize,
) -> GameState {
    if holds_rank(cells, tiles, win_rank) {
        GameState::Win
    } else if can_move(cells, n, tiles) {
        GameState::Wait
    } else {
        GameState::Lose
    }
}

/// No move is possible exactly when the board is full and no two neighbours
/// have the same rank.
pub proof fn lemma_stuck_iff_full_and_apart(
    cells: Seq<Option<TileId>>,
    n: int,
    tiles: Seq<Option<Tile>>,
)
    requires
        0 <= n,
        cells.len() == n * n,
    ensures
        !can_move(cells, n, tiles) <==> is_full(cells) && no_equal_neighbours(cells, n, tiles),
{
    if !can_move(cells, n, tiles) {
        assert forall|k: int| 0 <= k < cells.len() implies (#[trigger] cells[k]) is Some by {
            assert(n != 0);
            lemma_cell_index_split(n, k);
            assert(!mergeable_at(cells, n, tiles, k % n, k / n));
        }
        assert forall|c: int, r: int| 0 <= c < n && 0 <= r < n implies (c + 1 < n ==> !same_rank(
            cells,
            tiles,
            #[trigger] cell_index(n, c, r),
            cell_index(n, c + 1, r),
        )) && (r + 1 < n ==> !same_rank(
            cells,
            tiles,
            cell_index(n, c, r),
            cell_index(n, c, r + 1),
        )) by {
            assert(!mergeable_at(cells, n, tiles, c, r));
        }
    }
    if is_full(cells) && no_equal_neighbours(cells, n, tiles) {
        assert forall|c: int, r: int| 0 <= c < n && 0 <= r < n implies !#[trigger] mergeable_at(
            cells,
            n,
            tiles,
            c,
            r,
        ) by {
            lemma_cell_index_bounds(n, c, r);
            let k = cell_index(n, c, r);
            assert(cells[k] is Some);
            if c >= 1 {
                let left = cell_index(n, c - 1, r);
                assert(!same_rank(cells, tiles, left, cell_index(n, c - 1 + 1, r)));
            }
            if r >= 1 {
                let up = cell_index(n, c, r - 1);
                assert(!same_rank(cells, tiles, up, cell_index(n, c, r - 1 + 1)));
            }
        }
    }
}

/// Rank of the tile in the cell at `index`, or 0 where the cell is empty.
pub fn extract_value<const N: usize>(board: &Board<N, TileId>, tiles: &Tiles, index: usize) -> (v:
    usize)
    requires
        index < board.cells().len(),
        board.cells()[index as int] is Some ==> is_live(tiles@, board.cells()[index as int]->0),
    ensures
        v == cell_rank(board.cells(), tiles@, index as int),
{
    match board.0[index] {
        None => 0,
        Some(tile) => tiles.value_of(tile),
    }
}

/// Whether the cells at `a` and `b` both hold a tile and the two tiles have
/// the same rank.
fn is_same_rank<const N: usize>(board: &Board<N, TileId>, tiles: &Tiles, a: usize, b: usize) -> (same:
    bool)
    requires
        a < board.cells().len(),
        b < board.cells().len(),
        cells_live(board.cells(), tiles@),
    ensures
        same == same_rank(board.cells(), tiles@, a as int, b as int),
{
    board.0[a].is_some() && board.0[b].is_some() && extract_value(board, tiles, a)
        == extract_value(board, tiles, b)
}

/// Whether the cell in column `col` of row `row` is empty or holds a tile of
/// the rank of a tile next to it in its row or its column.
pub fn is_neighbours_mergeable<const N: usize>(
    board: &Board<N, TileId>,
    tiles: &Tiles,
    col: usize,
    row: usize,
) -> (mergeable: bool)
    requires
        board.wf(),
        cells_live(board.cells(), tiles@),
        col < N,
        row < N,
    ensures
        mergeable == mergeable_at(board.cells(), N as int, tiles@, col as int, row as int),
{
    let total = board.0.len();
    proof {
        lemma_cell_index_bounds(N as int, col as int, row as int);
        if col + 1 < N {
            lemma_cell_index_bounds(N as int, col + 1, row as int);
        }
        if col >= 1 {
            lemma_cell_index_bounds(N as int, col - 1, row as int);
        }
        if row + 1 < N {
            lemma_cell_index_bounds(N as int, col as int, row + 1);
            assert((row + 1) * N == row * N + N) by (nonlinear_arith);
        }
        if row >= 1 {
            lemma_cell_index_bounds(N as int, col as int, row - 1);
            assert((row - 1) * N == row * N - N) by (nonlinear_arith);
        }
    }
    let here = col + row * N;
    if board.0[here].is_none() {
        return true;
    }
    if col + 1 < N && is_same_rank(board, tiles, here, col + 1 + row * N) {
        return true;
    }
    if col >= 1 && is_same_rank(board, tiles, here, col - 1 + row * N) {
        return true;
    }
    if row + 1 < N && is_same_rank(board, tiles, here, col + (row + 1) * N) {
        return true;
    }
    if row >= 1 && is_same_rank(board, tiles, here, col + (row - 1) * N) {
        return true;
    }
    false
}

/// Judges the settled board: `Win` when a tile of rank `win_rank` is on it;
/// else `Wait` while some cell is empty or two neighbours have the same rank;
/// else `Lose`.
pub fn the_end_system<const N: usize>(board: &Board<N, TileId>, tiles: &Tiles, win_rank: usize) -> (state:
    GameState)
    requires
        board.wf(),
        cells_live(board.cells(), tiles@),
    ensures
        state == outcome(board.cells(), N as int, tiles@, win_rank),
        state == GameState::Win <==> holds_rank(board.cells(), tiles@, win_rank),
        state == GameState::Lose <==> !holds_rank(board.cells(), tiles@, win_rank) && is_full(
            board.cells(),
        ) && no_equal_neighbours(board.cells(), N as int, tiles@),
        state == GameState::Win || state == GameState::Lose || state == GameState::Wait,
{
    let total = board.0.len();
    let mut k: usize = 0;
    while k < total
        invariant
            k <= total,
            total == board.cells().len(),
            cells_live(board.cells(), tiles@),
            forall|j: int|
                0 <= j < k ==> !((#[trigger] board.cells()[j]) is Some && rank_of(
                    tiles@,
                    board.cells()[j]->0,
                ) == win_rank),
        decreases total - k,
    {
        match board.0[k] {
            Some(tile) => {
                assert(is_live(tiles@, board.cells()[k as int]->0));
                if tiles.value_of(tile) == win_rank {
                    return GameState::Win;
                }
            },
            None => {},
        }
        k += 1;
    }
    assert(!holds_rank(board.cells(), tiles@, win_rank));
    let mut c: usize = 0;
    while c < N
        invariant
            c <= N,
            board.wf(),
            cells_live(board.cells(), tiles@),
            !holds_rank(board.cells(), tiles@, win_rank),
            forall|i: int, j: int|
                0 <= i < c && 0 <= j < N ==> !#[trigger] mergeable_at(
                    board.cells(),
                    N as int,
                    tiles@,
                    i,
                    j,
                ),
        decreases N - c,
    {
        let mut r: usize = 0;
        while r < N
            invariant
                c < N,
                r <= N,
                board.wf(),
                cells_live(board.cells(), tiles@),
                !holds_rank(board.cells(), tiles@, win_rank),
                forall|i: int, j: int|
                    0 <= i < c && 0 <= j < N ==> !#[trigger] mergeable_at(
                        board.cells(),
                        N as int,
                        tiles@,
                        i,
                        j,
                    ),
                forall|j: int|
                    0 <= j < r ==> !#[trigger] mergeable_at(
                        board.cells(),
                        N as int,
                        tiles@,
                        c as int,
                        j,
                    ),
            decreases N - r,
        {
            if is_neighbours_mergeable(board, tiles, c, r) {
                proof {
                    lemma_stuck_iff_full_and_apart(board.cells(), N as int, tiles@);
                }
                return GameState::Wait;
            }
            r += 1;
        }
        c += 1;
    }
    proof {
        lemma_stuck_iff_full_and_apart(board.cells(), N as int, tiles@);
    }
    GameState::Lose
}

} // verus!

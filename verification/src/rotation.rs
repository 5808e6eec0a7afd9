//! Quarter-turn rotations of the board.

use vstd::prelude::*;
use crate::board::{
    distinct_tiles, has_tile, lemma_occupied_count, occupied, tile_count,
};
use crate::components::{Board, RotateBy, TileId};
use crate::grid::{cell_index, lemma_cell_index_bounds, lemma_cell_index_split, lemma_cell_index_unique};

verus! {

/// Where the cell in column `c` of row `r` lands when a grid of side `n` is
/// rotated.
pub open spec fn rotated_position(n: int, c: int, r: int, by: RotateBy) -> (int, int) {
    match by {
        RotateBy::Identity => (c, r),
        RotateBy::Left => (r, n - 1 - c),
        RotateBy::Right => (n - 1 - r, c),
        RotateBy::Full => (n - 1 - c, n - 1 - r),
    }
}

/// Index of the cell that a rotation carries to index `k`.
pub open spec fn rotation_source(n: int, k: int, by: RotateBy) -> int {
    let p = rotated_position(n, k % n, k / n, by.reverted());
    cell_index(n, p.0, p.1)
}

/// The cells of a grid of side `n` after a rotation: the cell at index `k`
/// holds what the cell that the rotation carries there held.
pub open spec fn rotated_cells<T>(cells: Seq<Option<T>>, n: int, by: RotateBy) -> Seq<Option<T>> {
    Seq::new((n * n) as nat, |k: int| cells[rotation_source(n, k, by)])
}

/// A rotation keeps a position inside the grid, and the reverse rotation
/// carries it back.
pub proof fn lemma_rotated_position_inverse(n: int, c: int, r: int, by: RotateBy)
    requires
        0 <= c < n,
        0 <= r < n,
    ensures
        0 <= rotated_position(n, c, r, by).0 < n,
        0 <= rotated_position(n, c, r, by).1 < n,
        ({
            let p = rotated_position(n, c, r, by);
            rotated_position(n, p.0, p.1, by.reverted()) == (c, r)
        }),
{
}

/// Computes where column `c`, row `r` lands under a rotation of an `N` x `N`
/// grid.
pub fn rotate_index<const N: usize>(c: usize, r: usize, rotate_by: RotateBy) -> (p: (usize, usize))
    requires
        c < N,
        r < N,
    ensures
        (p.0 as int, p.1 as int) == rotated_position(N as int, c as int, r as int, rotate_by),
        p.0 < N,
        p.1 < N,
{
    match rotate_by {
        RotateBy::Identity => (c, r),
        RotateBy::Left => (r, N - 1 - c),
        RotateBy::Right => (N - 1 - r, c),
        RotateBy::Full => (N - 1 - c, N - 1 - r),
    }
}

/// Rotates the board: every cell of the result holds what the cell that the
/// rotation carries there held.
pub fn rotate_board<const N: usize, T: Copy>(board: &Board<N, T>, rotate_by: RotateBy) -> (rotated:
    Board<N, T>)
    requires
        board.wf(),
    ensures
        rotated.wf(),
        rotated.cells() == rotated_cells(board.cells(), N as int, rotate_by),
{
    let back = rotate_by.revert();
    let total = board.0.len();
    let mut cells: Vec<Option<T>> = Vec::new();
    let mut r: usize = 0;
    while r < N
        invariant
            r <= N,
            board.wf(),
            total == N * N,
            back == rotate_by.reverted(),
            cells@.len() == r * N,
            forall|k: int|
                0 <= k < cells@.len() ==> cells@[k] == board.cells()[rotation_source(
                    N as int,
                    k,
                    rotate_by,
                )],
        decreases N - r,
    {
        let mut c: usize = 0;
        while c < N
            invariant
                r < N,
                c <= N,
                board.wf(),
                total == N * N,
                back == rotate_by.reverted(),
                cells@.len() == r * N + c,
                forall|k: int|
                    0 <= k < cells@.len() ==> cells@[k] == board.cells()[rotation_source(
                        N as int,
                        k,
                        rotate_by,
                    )],
            decreases N - c,
        {
            let (i, j) = rotate_index::<N>(c, r, back);
            proof {
                lemma_cell_index_bounds(N as int, i as int, j as int);
                lemma_cell_index_unique(N as int, c as int, r as int);
                assert(j * N + N <= N * N);
            }
            cells.push(board.0[i + j * N]);
            c += 1;
        }
        proof {
            assert((r + 1) * N == r * N + N) by (nonlinear_arith);
        }
        r += 1;
    }
    proof {
        assert(cells@ =~= rotated_cells(board.cells(), N as int, rotate_by));
    }
    Board(cells)
}

/// Rotating a board and then rotating the result by the reverse rotation
/// gives the board back.
pub proof fn lemma_rotate_revert<T>(cells: Seq<Option<T>>, n: int, by: RotateBy)
    requires
        0 <= n,
        cells.len() == n * n,
    ensures
        rotated_cells(rotated_cells(cells, n, by), n, by.reverted()) == cells,
{
    let once = rotated_cells(cells, n, by);
    let twice = rotated_cells(once, n, by.reverted());
    assert forall|k: int| 0 <= k < n * n implies twice[k] == cells[k] by {
        assert(n != 0);
        lemma_rotation_source_inverse(n, k, by.reverted());
    }
    assert(twice =~= cells);
}

/// The source of a cell under a rotation lies inside the grid, and the
/// reverse rotation has the cell as the source of that source.
pub proof fn lemma_rotation_source_inverse(n: int, k: int, by: RotateBy)
    requires
        0 <= k < n * n,
        0 < n,
    ensures
        0 <= rotation_source(n, k, by) < n * n,
        rotation_source(n, rotation_source(n, k, by), by.reverted()) == k,
{
    lemma_cell_index_split(n, k);
    let p = rotated_position(n, k % n, k / n, by.reverted());
    lemma_rotated_position_inverse(n, k % n, k / n, by.reverted());
    lemma_cell_index_bounds(n, p.0, p.1);
    lemma_cell_index_unique(n, p.0, p.1);
}

/// Under a rotation every cell has its source inside the grid, and the
/// reverse rotation has the cell as the source of that source.
pub proof fn lemma_rotation_is_bijection(n: int, by: RotateBy)
    requires
        0 <= n,
    ensures
        by.reverted().reverted() == by,
        forall|k: int|
            0 <= k < n * n ==> 0 <= #[trigger] rotation_source(n, k, by) < n * n && rotation_source(
                n,
                rotation_source(n, k, by),
                by.reverted(),
            ) == k,
{
    assert forall|k: int| 0 <= k < n * n implies 0 <= #[trigger] rotation_source(n, k, by) < n * n
        && rotation_source(n, rotation_source(n, k, by), by.reverted()) == k by {
        assert(n != 0);
        lemma_rotation_source_inverse(n, k, by);
    }
}

/// A rotation moves tiles about and neither adds nor removes one.
pub proof fn lemma_rotation_keeps_tile_count<T>(cells: Seq<Option<T>>, n: int, by: RotateBy)
    requires
        0 <= n,
        cells.len() == n * n,
    ensures
        tile_count(rotated_cells(cells, n, by)) == tile_count(cells),
{
    let rotated = rotated_cells(cells, n, by);
    let source = |k: int| rotation_source(n, k, by);
    lemma_occupied_count(cells);
    lemma_occupied_count(rotated);
    lemma_rotation_is_bijection(n, by);
    lemma_rotation_is_bijection(n, by.reverted());
    assert(vstd::relations::injective_on(source, occupied(rotated))) by {
        assert forall|a: int, b: int|
            occupied(rotated).contains(a) && occupied(rotated).contains(b) && #[trigger] source(a)
                == #[trigger] source(b) implies a == b by {
            assert(rotation_source(n, rotation_source(n, a, by), by.reverted()) == a);
            assert(rotation_source(n, rotation_source(n, b, by), by.reverted()) == b);
        }
    }
    assert(occupied(rotated).map(source) =~= occupied(cells)) by {
        assert forall|k: int| occupied(cells).contains(k) implies occupied(rotated).map(
            source,
        ).contains(k) by {
            let back = rotation_source(n, k, by.reverted());
            assert(rotation_source(n, back, by) == k);
            assert(occupied(rotated).contains(back));
            assert(source(back) == k);
        }
        assert forall|k: int| occupied(rotated).map(source).contains(k) implies occupied(
            cells,
        ).contains(k) by {
            let a = choose|a: int| occupied(rotated).contains(a) && k == source(a);
            assert(rotated[a] == cells[rotation_source(n, a, by)]);
        }
    }
    vstd::set_lib::lemma_map_size(occupied(rotated), occupied(cells), source);
}

/// A rotation holds the tiles that the board held, each as often.
pub proof fn lemma_rotation_keeps_tiles(cells: Seq<Option<TileId>>, n: int, by: RotateBy)
    requires
        0 <= n,
        cells.len() == n * n,
    ensures
        forall|tile: TileId|
            has_tile(rotated_cells(cells, n, by), tile) <==> has_tile(cells, tile),
        distinct_tiles(cells) ==> distinct_tiles(rotated_cells(cells, n, by)),
{
    let rotated = rotated_cells(cells, n, by);
    lemma_rotation_is_bijection(n, by);
    lemma_rotation_is_bijection(n, by.reverted());
    assert forall|tile: TileId| has_tile(rotated, tile) <==> has_tile(cells, tile) by {
        if has_tile(rotated, tile) {
            let k = choose|k: int| 0 <= k < rotated.len() && #[trigger] rotated[k] == Some(tile);
            assert(cells[rotation_source(n, k, by)] == Some(tile));
        }
        if has_tile(cells, tile) {
            let k = choose|k: int| 0 <= k < cells.len() && #[trigger] cells[k] == Some(tile);
            let back = rotation_source(n, k, by.reverted());
            assert(rotation_source(n, back, by) == k);
            assert(rotated[back] == Some(tile));
        }
    }
    if distinct_tiles(cells) {
        assert forall|i: int, j: int|
            0 <= i < rotated.len() && 0 <= j < rotated.len() && i != j && (
            #[trigger] rotated[i]) is Some implies rotated[i] != #[trigger] rotated[j] by {
            let a = rotation_source(n, i, by);
            let b = rotation_source(n, j, by);
            assert(rotation_source(n, a, by.reverted()) == i);
            assert(rotation_source(n, b, by.reverted()) == j);
            assert(cells[a] is Some);
            assert(cells[a] != cells[b]);
        }
    }
}

} // verus!

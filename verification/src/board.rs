//! What can be said of the cells of a board whatever their arrangement.

use vstd::prelude::*;
use crate::components::{is_live, Tile, TileId};

verus! {

/// Number of occupied cells.
pub open spec fn tile_count<T>(cells: Seq<Option<T>>) -> nat
    decreases cells.len(),
{
    if cells.len() == 0 {
        0
    } else {
        tile_count(cells.drop_last()) + if cells.last() is Some {
            1nat
        } else {
            0nat
        }
    }
}

/// Whether some cell holds the tile `tile`.
pub open spec fn has_tile(cells: Seq<Option<TileId>>, tile: TileId) -> bool {
    exists|k: int| 0 <= k < cells.len() && #[trigger] cells[k] == Some(tile)
}

/// No tile is held by two cells.
pub open spec fn distinct_tiles(cells: Seq<Option<TileId>>) -> bool {
    forall|i: int, j: int|
        0 <= i < cells.len() && 0 <= j < cells.len() && i != j && (#[trigger] cells[i]) is Some
            ==> cells[i] != #[trigger] cells[j]
}

/// Every tile that a cell holds exists in `tiles`.
pub open spec fn cells_live(cells: Seq<Option<TileId>>, tiles: Seq<Option<Tile>>) -> bool {
    forall|k: int|
        0 <= k < cells.len() && cells[k] is Some ==> is_live(tiles, #[trigger] cells[k]->0)
}

/// The occupied cells of two sequences laid end to end are those of the one
/// and those of the other.
pub proof fn lemma_tile_count_concat<T>(a: Seq<Option<T>>, b: Seq<Option<T>>)
    ensures
        tile_count(a + b) == tile_count(a) + tile_count(b),
    decreases b.len(),
{
    if b.len() == 0 {
        assert(a + b =~= a);
    } else {
        lemma_tile_count_concat(a, b.drop_last());
        assert((a + b).drop_last() =~= a + b.drop_last());
    }
}

/// A single cell counts as one tile if it is occupied, else as none.
pub proof fn lemma_tile_count_single<T>(cell: Option<T>)
    ensures
        tile_count(seq![cell]) == (if cell is Some {
            1nat
        } else {
            0nat
        }),
{
    assert(seq![cell].drop_last() =~= Seq::<Option<T>>::empty());
    assert(tile_count(Seq::<Option<T>>::empty()) == 0);
}

/// When exactly the first `k` cells are occupied, there are `k` tiles.
pub proof fn lemma_tile_count_filled_prefix<T>(cells: Seq<Option<T>>, k: int)
    requires
        0 <= k <= cells.len(),
        forall|c: int| 0 <= c < cells.len() ==> ((#[trigger] cells[c]) is Some <==> c < k),
    ensures
        tile_count(cells) == k,
    decreases cells.len(),
{
    if cells.len() > 0 {
        let shorter = cells.drop_last();
        if k == cells.len() {
            lemma_tile_count_filled_prefix(shorter, k - 1);
        } else {
            lemma_tile_count_filled_prefix(shorter, k);
        }
    }
}

/// A sequence with a tile count below its length has an empty cell.
pub proof fn lemma_fewer_tiles_than_cells<T>(cells: Seq<Option<T>>)
    requires
        tile_count(cells) < cells.len(),
    ensures
        exists|k: int| 0 <= k < cells.len() && (#[trigger] cells[k]) is None,
    decreases cells.len(),
{
    if cells.last() is Some {
        let shorter = cells.drop_last();
        lemma_fewer_tiles_than_cells(shorter);
        let k = choose|k: int| 0 <= k < shorter.len() && (#[trigger] shorter[k]) is None;
        assert(cells[k] is None);
    }
}

/// The indices of the occupied cells.
pub open spec fn occupied<T>(cells: Seq<Option<T>>) -> Set<int> {
    Set::new(|k: int| 0 <= k < cells.len() && cells[k] is Some)
}

/// The tile count is the number of indices of occupied cells.
pub proof fn lemma_occupied_count<T>(cells: Seq<Option<T>>)
    ensures
        occupied(cells).finite(),
        occupied(cells).len() == tile_count(cells),
    decreases cells.len(),
{
    if cells.len() == 0 {
        assert(occupied(cells) =~= Set::<int>::empty());
    } else {
        let shorter = cells.drop_last();
        lemma_occupied_count(shorter);
        if cells.last() is Some {
            assert(occupied(cells) =~= occupied(shorter).insert(cells.len() - 1));
        } else {
            assert(occupied(cells) =~= occupied(shorter));
        }
    }
}

/// Putting a tile into an empty cell makes one tile more.
pub proof fn lemma_tile_count_fill<T>(cells: Seq<Option<T>>, k: int, tile: T)
    requires
        0 <= k < cells.len(),
        cells[k] is None,
    ensures
        tile_count(cells.update(k, Some(tile))) == tile_count(cells) + 1,
    decreases cells.len(),
{
    let filled = cells.update(k, Some(tile));
    if k == cells.len() - 1 {
        assert(filled.drop_last() =~= cells.drop_last());
    } else {
        lemma_tile_count_fill(cells.drop_last(), k, tile);
        assert(filled.drop_last() =~= cells.drop_last().update(k, Some(tile)));
    }
}

} // verus!

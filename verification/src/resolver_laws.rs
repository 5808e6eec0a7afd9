//! What holds of a slide of the whole board.

use vstd::prelude::*;
use crate::board::{
    cells_live, distinct_tiles, has_tile, lemma_tile_count_concat, tile_count,
};
use crate::components::{Direction, Position, QueuedMoveMessage, RotateBy, Tile, TileId};
use crate::grid::{
    cell_index, lemma_cell_index_bounds, lemma_cell_index_split, lemma_cell_index_unique,
};
use crate::resolver::{
    message_of, messages_upto, resolved_cells, resolved_moves, row_messages, row_of, slid_cells,
};
use crate::movement::moves_name;
use crate::resolver::fresh_timer;
use crate::rotation::{
    lemma_rotate_revert, lemma_rotated_position_inverse, lemma_rotation_is_bijection,
    lemma_rotation_keeps_tile_count, lemma_rotation_keeps_tiles, rotated_cells,
    rotated_position, rotation_source,
};
use crate::row::{slid_ops, slid_row, MoveOp};
use crate::row_laws::{
    lemma_ops_describe_row, lemma_row_fates, lemma_row_keeps_tiles_apart,
    lemma_row_moved_has_room, lemma_row_tile_count, lemma_row_unchanged_iff_no_ops,
    merge_count_ops, merge_tiles_ops, ops_absorb, ops_move,
};

verus! {

/// Number of instructions in `moves` that have the moving tile absorb a
/// tile.
pub open spec fn merge_count(moves: Seq<QueuedMoveMessage>) -> nat
    decreases moves.len(),
{
    if moves.len() == 0 {
        0
    } else {
        merge_count(moves.drop_last()) + if moves.last().3 is Some {
            1nat
        } else {
            0nat
        }
    }
}

/// The tiles that take part in the merges of `moves`: for every instruction
/// that has a tile absorbed, the absorbed tile and then the moving tile.
pub open spec fn merge_tiles(moves: Seq<QueuedMoveMessage>) -> Seq<TileId>
    decreases moves.len(),
{
    if moves.len() == 0 {
        Seq::empty()
    } else {
        merge_tiles(moves.drop_last()) + match moves.last().3 {
            Some(absorbed) => seq![absorbed, moves.last().0],
            None => Seq::empty(),
        }
    }
}

/// Merges are counted, and their tiles listed, part by part.
pub proof fn lemma_merges_of_messages_concat(a: Seq<QueuedMoveMessage>, b: Seq<QueuedMoveMessage>)
    ensures
        merge_count(a + b) == merge_count(a) + merge_count(b),
        merge_tiles(a + b) == merge_tiles(a) + merge_tiles(b),
    decreases b.len(),
{
    if b.len() == 0 {
        assert(a + b =~= a);
        assert(merge_tiles(a) + merge_tiles(b) =~= merge_tiles(a));
    } else {
        lemma_merges_of_messages_concat(a, b.drop_last());
        assert((a + b).drop_last() =~= a + b.drop_last());
        assert((a + b).last() == b.last());
        let tail = match b.last().3 {
            Some(absorbed) => seq![absorbed, b.last().0],
            None => Seq::<TileId>::empty(),
        };
        assert((merge_tiles(a) + merge_tiles(b.drop_last())) + tail =~= merge_tiles(a) + (
        merge_tiles(b.drop_last()) + tail));
    }
}

/// The instructions of a row have the merges of its moves.
pub proof fn lemma_merges_of_row_messages(
    ops: Seq<MoveOp>,
    n: int,
    r: int,
    by: RotateBy,
    move_time: u64,
)
    ensures
        merge_count(row_messages(ops, n, r, by, move_time)) == merge_count_ops(ops),
        merge_tiles(row_messages(ops, n, r, by, move_time)) == merge_tiles_ops(ops),
    decreases ops.len(),
{
    let ms = row_messages(ops, n, r, by, move_time);
    if ops.len() == 0 {
        assert(merge_tiles(ms) =~= merge_tiles_ops(ops));
    } else {
        lemma_merges_of_row_messages(ops.drop_last(), n, r, by, move_time);
        assert(ms.drop_last() =~= row_messages(ops.drop_last(), n, r, by, move_time));
        assert(ms.last() == message_of(ops.last(), n, r, by, move_time));
    }
}

/// The rows of the compacted grid are the compacted rows of the grid.
pub proof fn lemma_row_of_slid(
    cells: Seq<Option<TileId>>,
    n: int,
    r: int,
    tiles: Seq<Option<Tile>>,
)
    requires
        cells.len() == n * n,
        0 <= r < n,
    ensures
        row_of(cells, n, r).len() == n,
        0 <= r * n,
        r * n + n <= n * n,
        row_of(slid_cells(cells, n, tiles), n, r) == slid_row(row_of(cells, n, r), tiles),
{
    lemma_cell_index_bounds(n, 0, r);
    let slid = slid_cells(cells, n, tiles);
    assert forall|c: int| 0 <= c < n implies row_of(slid, n, r)[c] == slid_row(
        row_of(cells, n, r),
        tiles,
    )[c] by {
        lemma_cell_index_unique(n, c, r);
        lemma_cell_index_bounds(n, c, r);
        assert(row_of(slid, n, r)[c] == slid[r * n + c]);
    }
    assert(row_of(slid_cells(cells, n, tiles), n, r) =~= slid_row(row_of(cells, n, r), tiles));
}

/// The first rows of a grid end where the next row begins.
proof fn lemma_rows_prefix<T>(cells: Seq<Option<T>>, n: int, rows: int)
    requires
        cells.len() == n * n,
        0 < rows <= n,
    ensures
        0 <= (rows - 1) * n,
        rows * n == (rows - 1) * n + n,
        rows * n <= n * n,
        cells.take(rows * n) == cells.take((rows - 1) * n) + cells.subrange(
            (rows - 1) * n,
            (rows - 1) * n + n,
        ),
{
    assert(rows * n == (rows - 1) * n + n && 0 <= (rows - 1) * n && rows * n <= n * n)
        by (nonlinear_arith)
        requires
            0 < rows <= n,
    ;
    assert(cells.take(rows * n) =~= cells.take((rows - 1) * n) + cells.subrange(
        (rows - 1) * n,
        (rows - 1) * n + n,
    ));
}

/// Over its first rows, the compacted grid holds as many tiles as the grid,
/// less one for every merge in those rows.
proof fn lemma_slid_tile_count(
    cells: Seq<Option<TileId>>,
    n: int,
    rows: int,
    by: RotateBy,
    tiles: Seq<Option<Tile>>,
    move_time: u64,
)
    requires
        cells.len() == n * n,
        0 <= rows <= n,
    ensures
        tile_count(slid_cells(cells, n, tiles).take(rows * n)) + merge_count(
            messages_upto(cells, n, rows, by, tiles, move_time),
        ) == tile_count(cells.take(rows * n)),
    decreases rows,
{
    let slid = slid_cells(cells, n, tiles);
    if rows == 0 {
        assert(slid.take(0) =~= Seq::<Option<TileId>>::empty());
        assert(cells.take(0) =~= Seq::<Option<TileId>>::empty());
    } else {
        let r = rows - 1;
        lemma_slid_tile_count(cells, n, r, by, tiles, move_time);
        lemma_rows_prefix(cells, n, rows);
        lemma_rows_prefix(slid, n, rows);
        lemma_row_of_slid(cells, n, r, tiles);
        let row = row_of(cells, n, r);
        lemma_tile_count_concat(cells.take(r * n), row);
        lemma_tile_count_concat(slid.take(r * n), slid_row(row, tiles));
        lemma_row_tile_count(row, tiles);
        let ops = slid_ops(row, tiles);
        lemma_merges_of_row_messages(ops, n, r, by, move_time);
        lemma_merges_of_messages_concat(
            messages_upto(cells, n, r, by, tiles, move_time),
            row_messages(ops, n, r, by, move_time),
        );
    }
}

/// A slide leaves as many tiles on the board as it found, less one for every
/// merge that its instructions report.
pub proof fn lemma_resolve_tile_count(
    cells: Seq<Option<TileId>>,
    n: int,
    direction: Direction,
    tiles: Seq<Option<Tile>>,
    move_time: u64,
)
    requires
        0 <= n,
        cells.len() == n * n,
    ensures
        tile_count(resolved_cells(cells, n, direction, tiles)) == tile_count(cells) - merge_count(
            resolved_moves(cells, n, direction, tiles, move_time),
        ),
{
    let by = RotateBy::of_direction(direction);
    let rotated = rotated_cells(cells, n, by);
    let slid = slid_cells(rotated, n, tiles);
    lemma_rotation_keeps_tile_count(cells, n, by);
    lemma_rotation_keeps_tile_count(slid, n, by.reverted());
    lemma_slid_tile_count(rotated, n, n, by, tiles, move_time);
    assert(slid.take(n * n) =~= slid);
    assert(rotated.take(n * n) =~= rotated);
}

/// The first rows give no instruction exactly when none of them has a move.
proof fn lemma_no_messages_iff_no_ops(
    cells: Seq<Option<TileId>>,
    n: int,
    rows: int,
    by: RotateBy,
    tiles: Seq<Option<Tile>>,
    move_time: u64,
)
    requires
        0 <= rows,
    ensures
        messages_upto(cells, n, rows, by, tiles, move_time).len() == 0 <==> forall|r: int|
            0 <= r < rows ==> (#[trigger] slid_ops(row_of(cells, n, r), tiles)).len() == 0,
    decreases rows,
{
    if rows > 0 {
        lemma_no_messages_iff_no_ops(cells, n, rows - 1, by, tiles, move_time);
        let last = slid_ops(row_of(cells, n, rows - 1), tiles);
        assert(row_messages(last, n, rows - 1, by, move_time).len() == last.len());
    }
}

/// Compacting the rows leaves the grid as it was exactly when it leaves every
/// row as it was.
proof fn lemma_slid_unchanged_iff_rows(
    cells: Seq<Option<TileId>>,
    n: int,
    tiles: Seq<Option<Tile>>,
)
    requires
        0 <= n,
        cells.len() == n * n,
    ensures
        slid_cells(cells, n, tiles) == cells <==> forall|r: int|
            0 <= r < n ==> #[trigger] slid_row(row_of(cells, n, r), tiles) == row_of(cells, n, r),
{
    let slid = slid_cells(cells, n, tiles);
    if slid == cells {
        assert forall|r: int| 0 <= r < n implies #[trigger] slid_row(row_of(cells, n, r), tiles)
            == row_of(cells, n, r) by {
            lemma_row_of_slid(cells, n, r, tiles);
        }
    }
    if forall|r: int|
        0 <= r < n ==> #[trigger] slid_row(row_of(cells, n, r), tiles) == row_of(cells, n, r) {
        assert forall|k: int| 0 <= k < n * n implies slid[k] == cells[k] by {
            assert(n != 0);
            lemma_cell_index_split(n, k);
            let r = k / n;
            lemma_row_of_slid(cells, n, r, tiles);
            assert(slid_row(row_of(cells, n, r), tiles) == row_of(cells, n, r));
            assert(row_of(cells, n, r)[k % n] == cells[r * n + k % n]);
        }
        assert(slid =~= cells);
    }
}

/// A slide gives no move instruction exactly when it leaves the board as it
/// was.
pub proof fn lemma_resolve_unchanged_iff_no_moves(
    cells: Seq<Option<TileId>>,
    n: int,
    direction: Direction,
    tiles: Seq<Option<Tile>>,
    move_time: u64,
)
    requires
        0 <= n,
        cells.len() == n * n,
    ensures
        resolved_moves(cells, n, direction, tiles, move_time).len() == 0 <==> resolved_cells(
            cells,
            n,
            direction,
            tiles,
        ) == cells,
{
    let by = RotateBy::of_direction(direction);
    let rotated = rotated_cells(cells, n, by);
    let slid = slid_cells(rotated, n, tiles);
    lemma_rotation_is_bijection(n, by);
    lemma_rotate_revert(cells, n, by);
    lemma_rotate_revert(slid, n, by.reverted());
    lemma_no_messages_iff_no_ops(rotated, n, n, by, tiles, move_time);
    lemma_slid_unchanged_iff_rows(rotated, n, tiles);
    assert forall|r: int| 0 <= r < n implies ((#[trigger] slid_ops(
        row_of(rotated, n, r),
        tiles,
    )).len() == 0 <==> slid_row(row_of(rotated, n, r), tiles) == row_of(rotated, n, r)) by {
        lemma_row_unchanged_iff_no_ops(row_of(rotated, n, r), tiles);
    }
    if resolved_moves(cells, n, direction, tiles, move_time).len() == 0 {
        assert forall|r: int| 0 <= r < n implies #[trigger] slid_row(
            row_of(rotated, n, r),
            tiles,
        ) == row_of(rotated, n, r) by {
            assert(slid_ops(row_of(rotated, n, r), tiles).len() == 0);
        }
        assert(slid == rotated);
    }
    if resolved_cells(cells, n, direction, tiles) == cells {
        assert(slid == rotated);
        assert forall|r: int| 0 <= r < n implies (#[trigger] slid_ops(
            row_of(rotated, n, r),
            tiles,
        )).len() == 0 by {
            assert(slid_row(row_of(rotated, n, r), tiles) == row_of(rotated, n, r));
        }
    }
}

/// A slide that gives a move instruction leaves a cell of the board empty.
pub proof fn lemma_resolve_moved_has_room(
    cells: Seq<Option<TileId>>,
    n: int,
    direction: Direction,
    tiles: Seq<Option<Tile>>,
    move_time: u64,
)
    requires
        0 <= n,
        cells.len() == n * n,
        resolved_moves(cells, n, direction, tiles, move_time).len() > 0,
    ensures
        exists|k: int|
            0 <= k < n * n && (#[trigger] resolved_cells(cells, n, direction, tiles)[k]) is None,
{
    let by = RotateBy::of_direction(direction);
    let rotated = rotated_cells(cells, n, by);
    let slid = slid_cells(rotated, n, tiles);
    lemma_no_messages_iff_no_ops(rotated, n, n, by, tiles, move_time);
    let r = choose|r: int|
        0 <= r < n && (#[trigger] slid_ops(row_of(rotated, n, r), tiles)).len() != 0;
    lemma_row_of_slid(rotated, n, r, tiles);
    lemma_row_moved_has_room(row_of(rotated, n, r), tiles);
    let k = r * n + n - 1;
    lemma_cell_index_bounds(n, n - 1, r);
    assert(row_of(slid, n, r)[n - 1] == slid[k]);
    lemma_rotation_is_bijection(n, by);
    let target = rotation_source(n, k, by);
    assert(resolved_cells(cells, n, direction, tiles)[target] == slid[k]);
}

/// Whether one of the first `rows` rows of the grid holds `tile`.
pub open spec fn rows_have_tile(cells: Seq<Option<TileId>>, n: int, rows: int, tile: TileId)
    -> bool {
    exists|k: int| 0 <= k < rows * n && k < cells.len() && #[trigger] cells[k] == Some(tile)
}

/// A row of a grid without a tile in two cells has no tile in two cells, and
/// its tiles are tiles of the grid.
proof fn lemma_row_of_distinct(cells: Seq<Option<TileId>>, n: int, r: int)
    requires
        cells.len() == n * n,
        0 <= r < n,
    ensures
        distinct_tiles(cells) ==> distinct_tiles(row_of(cells, n, r)),
        forall|tile: TileId| #[trigger]
            has_tile(row_of(cells, n, r), tile) ==> rows_have_tile(cells, n, r + 1, tile),
        forall|tile: TileId|
            distinct_tiles(cells) && #[trigger] has_tile(row_of(cells, n, r), tile)
                ==> !rows_have_tile(cells, n, r, tile),
{
    let row = row_of(cells, n, r);
    lemma_cell_index_bounds(n, 0, r);
    assert((r + 1) * n == r * n + n) by (nonlinear_arith);
    if distinct_tiles(cells) {
        assert forall|i: int, j: int|
            0 <= i < row.len() && 0 <= j < row.len() && i != j && (
            #[trigger] row[i]) is Some implies row[i] != #[trigger] row[j] by {
            assert(cells[r * n + i] is Some);
            assert(cells[r * n + i] != cells[r * n + j]);
        }
    }
    assert forall|tile: TileId| #[trigger] has_tile(row, tile) implies rows_have_tile(
        cells,
        n,
        r + 1,
        tile,
    ) && (distinct_tiles(cells) ==> !rows_have_tile(cells, n, r, tile)) by {
        let c = choose|c: int| 0 <= c < row.len() && #[trigger] row[c] == Some(tile);
        assert(cells[r * n + c] == Some(tile));
        if distinct_tiles(cells) && rows_have_tile(cells, n, r, tile) {
            let k = choose|k: int|
                0 <= k < r * n && k < cells.len() && #[trigger] cells[k] == Some(tile);
            assert(cells[r * n + c] is Some);
            assert(cells[r * n + c] != cells[k]);
        }
    }
}

/// The tiles that take part in the merges of the first rows stand in those
/// rows, and none takes part in two merges when no tile stands in two cells.
proof fn lemma_rows_merge_once(
    cells: Seq<Option<TileId>>,
    n: int,
    rows: int,
    by: RotateBy,
    tiles: Seq<Option<Tile>>,
    move_time: u64,
)
    requires
        cells.len() == n * n,
        0 <= rows <= n,
    ensures
        forall|i: int|
            0 <= i < merge_tiles(messages_upto(cells, n, rows, by, tiles, move_time)).len()
                ==> rows_have_tile(
                cells,
                n,
                rows,
                #[trigger] merge_tiles(messages_upto(cells, n, rows, by, tiles, move_time))[i],
            ),
        distinct_tiles(cells) ==> merge_tiles(
            messages_upto(cells, n, rows, by, tiles, move_time),
        ).no_duplicates(),
    decreases rows,
{
    let all = merge_tiles(messages_upto(cells, n, rows, by, tiles, move_time));
    if rows > 0 {
        let r = rows - 1;
        let row = row_of(cells, n, r);
        let ops = slid_ops(row, tiles);
        let before = merge_tiles(messages_upto(cells, n, r, by, tiles, move_time));
        let added = merge_tiles_ops(ops);
        lemma_rows_merge_once(cells, n, r, by, tiles, move_time);
        lemma_merges_of_row_messages(ops, n, r, by, move_time);
        lemma_merges_of_messages_concat(
            messages_upto(cells, n, r, by, tiles, move_time),
            row_messages(ops, n, r, by, move_time),
        );
        assert(all =~= before + added);
        lemma_row_of_distinct(cells, n, r);
        lemma_row_keeps_tiles_apart(row, tiles);
        assert(r * n <= rows * n) by (nonlinear_arith)
            requires
                r == rows - 1,
                0 <= n,
        ;
        assert forall|i: int| 0 <= i < all.len() implies rows_have_tile(
            cells,
            n,
            rows,
            #[trigger] all[i],
        ) by {
            if i < before.len() {
                assert(rows_have_tile(cells, n, r, before[i]));
                let k = choose|k: int|
                    0 <= k < r * n && k < cells.len() && #[trigger] cells[k] == Some(before[i]);
                assert(cells[k] == Some(all[i]));
            } else {
                assert(has_tile(row, added[i - before.len()]));
            }
        }
        if distinct_tiles(cells) {
            assert forall|i: int, j: int| 0 <= i < all.len() && 0 <= j < all.len() && i != j implies all[i]
                != all[j] by {
                if i < before.len() {
                    assert(rows_have_tile(cells, n, r, before[i]));
                } else {
                    assert(has_tile(row, added[i - before.len()]));
                }
                if j < before.len() {
                    assert(rows_have_tile(cells, n, r, before[j]));
                } else {
                    assert(has_tile(row, added[j - before.len()]));
                }
            }
        }
    } else {
        assert(all =~= Seq::<TileId>::empty());
    }
}

/// When no tile stands in two cells of the board, no tile takes part in two
/// merges of a slide, neither as the tile that moves nor as the tile that is
/// absorbed.
pub proof fn lemma_resolve_merges_once(
    cells: Seq<Option<TileId>>,
    n: int,
    direction: Direction,
    tiles: Seq<Option<Tile>>,
    move_time: u64,
)
    requires
        0 <= n,
        cells.len() == n * n,
        distinct_tiles(cells),
    ensures
        merge_tiles(resolved_moves(cells, n, direction, tiles, move_time)).no_duplicates(),
{
    let by = RotateBy::of_direction(direction);
    lemma_rotation_keeps_tiles(cells, n, by);
    lemma_rows_merge_once(rotated_cells(cells, n, by), n, n, by, tiles, move_time);
}

/// Compacting the rows brings in no tile, and puts no tile in two cells when
/// none stood in two.
proof fn lemma_slid_keeps_tiles(cells: Seq<Option<TileId>>, n: int, tiles: Seq<Option<Tile>>)
    requires
        0 <= n,
        cells.len() == n * n,
    ensures
        forall|k: int|
            0 <= k < n * n && (#[trigger] slid_cells(cells, n, tiles)[k]) is Some
                ==> rows_have_tile(cells, n, k / n + 1, slid_cells(cells, n, tiles)[k]->0) && (
            distinct_tiles(cells) ==> !rows_have_tile(
                cells,
                n,
                k / n,
                slid_cells(cells, n, tiles)[k]->0,
            )),
        forall|tile: TileId| has_tile(slid_cells(cells, n, tiles), tile) ==> has_tile(cells, tile),
        distinct_tiles(cells) ==> distinct_tiles(slid_cells(cells, n, tiles)),
{
    let slid = slid_cells(cells, n, tiles);
    assert forall|k: int| 0 <= k < n * n && (#[trigger] slid[k]) is Some implies rows_have_tile(
        cells,
        n,
        k / n + 1,
        slid[k]->0,
    ) && (distinct_tiles(cells) ==> !rows_have_tile(cells, n, k / n, slid[k]->0)) by {
        assert(n != 0);
        lemma_cell_index_split(n, k);
        let r = k / n;
        lemma_row_of_distinct(cells, n, r);
        lemma_row_keeps_tiles_apart(row_of(cells, n, r), tiles);
        lemma_row_of_slid(cells, n, r, tiles);
        assert(slid_row(row_of(cells, n, r), tiles)[k % n] is Some);
        assert(has_tile(row_of(cells, n, r), slid[k]->0));
    }
    assert forall|tile: TileId| has_tile(slid, tile) implies has_tile(cells, tile) by {
        let k = choose|k: int| 0 <= k < slid.len() && #[trigger] slid[k] == Some(tile);
        assert(rows_have_tile(cells, n, k / n + 1, tile));
    }
    if distinct_tiles(cells) {
        assert forall|i: int, j: int|
            0 <= i < slid.len() && 0 <= j < slid.len() && i != j && (
            #[trigger] slid[i]) is Some implies slid[i] != #[trigger] slid[j] by {
            assert(n != 0);
            lemma_cell_index_split(n, i);
            lemma_cell_index_split(n, j);
            let ri = i / n;
            let rj = j / n;
            if slid[j] is Some {
                if ri == rj {
                    lemma_row_of_distinct(cells, n, ri);
                    lemma_row_keeps_tiles_apart(row_of(cells, n, ri), tiles);
                    lemma_row_of_slid(cells, n, ri, tiles);
                    let after = slid_row(row_of(cells, n, ri), tiles);
                    assert(i % n != j % n);
                    assert(after[i % n] is Some);
                    assert(after[i % n] != after[j % n]);
                } else if ri < rj {
                    lemma_rows_grow(cells, n, ri + 1, rj, slid[i]->0);
                } else {
                    lemma_rows_grow(cells, n, rj + 1, ri, slid[j]->0);
                }
            }
        }
    }
}

/// A tile that stands in the first rows stands in any larger number of first
/// rows.
proof fn lemma_rows_grow(cells: Seq<Option<TileId>>, n: int, few: int, many: int, tile: TileId)
    requires
        0 <= n,
        few <= many,
        rows_have_tile(cells, n, few, tile),
    ensures
        rows_have_tile(cells, n, many, tile),
{
    assert(few * n <= many * n) by (nonlinear_arith)
        requires
            0 <= n,
            few <= many,
    ;
    let k = choose|k: int| 0 <= k < few * n && k < cells.len() && #[trigger] cells[k] == Some(tile);
    assert(cells[k] == Some(tile));
}

/// A slide brings no tile onto the board: the tiles of the board after it are
/// tiles of the board before it, still in existence if those were, and none
/// stands in two cells if none did.
pub proof fn lemma_resolve_keeps_tiles(
    cells: Seq<Option<TileId>>,
    n: int,
    direction: Direction,
    tiles: Seq<Option<Tile>>,
)
    requires
        0 <= n,
        cells.len() == n * n,
    ensures
        forall|tile: TileId|
            has_tile(resolved_cells(cells, n, direction, tiles), tile) ==> has_tile(cells, tile),
        distinct_tiles(cells) ==> distinct_tiles(resolved_cells(cells, n, direction, tiles)),
        cells_live(cells, tiles) ==> cells_live(resolved_cells(cells, n, direction, tiles), tiles),
{
    let by = RotateBy::of_direction(direction);
    let rotated = rotated_cells(cells, n, by);
    let slid = slid_cells(rotated, n, tiles);
    let resolved = resolved_cells(cells, n, direction, tiles);
    lemma_rotation_keeps_tiles(cells, n, by);
    lemma_slid_keeps_tiles(rotated, n, tiles);
    lemma_rotation_keeps_tiles(slid, n, by.reverted());
    if cells_live(cells, tiles) {
        assert forall|k: int| 0 <= k < resolved.len() && resolved[k] is Some implies crate::components::is_live(
            tiles,
            #[trigger] resolved[k]->0,
        ) by {
            let tile = resolved[k]->0;
            assert(has_tile(resolved, tile));
            assert(has_tile(cells, tile));
            let j = choose|j: int| 0 <= j < cells.len() && #[trigger] cells[j] == Some(tile);
            assert(cells[j]->0 == tile);
        }
    }
}

/// Every instruction of the first rows is the instruction for a move of one
/// of those rows; returns the row and the place of the move among the moves
/// of that row.
proof fn lemma_message_origin(
    cells: Seq<Option<TileId>>,
    n: int,
    rows: int,
    by: RotateBy,
    tiles: Seq<Option<Tile>>,
    move_time: u64,
    i: int,
) -> (at: (int, int))
    requires
        0 <= i < messages_upto(cells, n, rows, by, tiles, move_time).len(),
    ensures
        0 <= at.0 < rows,
        0 <= at.1 < slid_ops(row_of(cells, n, at.0), tiles).len(),
        i == messages_upto(cells, n, at.0, by, tiles, move_time).len() + at.1,
        messages_upto(cells, n, rows, by, tiles, move_time)[i] == message_of(
            slid_ops(row_of(cells, n, at.0), tiles)[at.1],
            n,
            at.0,
            by,
            move_time,
        ),
    decreases rows,
{
    let before = messages_upto(cells, n, rows - 1, by, tiles, move_time);
    if i < before.len() {
        lemma_message_origin(cells, n, rows - 1, by, tiles, move_time, i)
    } else {
        (rows - 1, i - before.len())
    }
}

/// What an instruction of a slide says: the tile stood in the cell that the
/// instruction has it leave; both cells lie on the board and differ; the
/// countdown is fresh; a tile that it has absorbed stood on the board, and
/// stands on it no more after the slide when no tile stood in two cells.
pub proof fn lemma_resolve_moves_describe(
    cells: Seq<Option<TileId>>,
    n: int,
    direction: Direction,
    tiles: Seq<Option<Tile>>,
    move_time: u64,
    i: int,
)
    requires
        0 <= n <= usize::MAX,
        cells.len() == n * n,
        0 <= i < resolved_moves(cells, n, direction, tiles, move_time).len(),
    ensures
        ({
            let m = resolved_moves(cells, n, direction, tiles, move_time)[i];
            &&& m.1.0 < n && m.1.1 < n && m.4.0 < n && m.4.1 < n
            &&& m.1 != m.4
            &&& 0 <= cell_index(n, m.4.0 as int, m.4.1 as int) < n * n
            &&& cells[cell_index(n, m.4.0 as int, m.4.1 as int)] == Some(m.0)
            &&& m.2 == fresh_timer(move_time)
            &&& m.3 matches Some(absorbed) ==> has_tile(cells, absorbed) && (distinct_tiles(cells)
                ==> !has_tile(resolved_cells(cells, n, direction, tiles), absorbed))
        }),
{
    let by = RotateBy::of_direction(direction);
    let rotated = rotated_cells(cells, n, by);
    let slid = slid_cells(rotated, n, tiles);
    let m = resolved_moves(cells, n, direction, tiles, move_time)[i];
    let at = lemma_message_origin(rotated, n, n, by, tiles, move_time, i);
    let r = at.0;
    let row = row_of(rotated, n, r);
    let ops = slid_ops(row, tiles);
    let op = ops[at.1];
    lemma_row_of_slid(rotated, n, r, tiles);
    lemma_ops_describe_row(row, tiles);
    let to = rotated_position(n, op.to as int, r, by.reverted());
    let from = rotated_position(n, op.from as int, r, by.reverted());
    lemma_rotated_position_inverse(n, op.to as int, r, by.reverted());
    lemma_rotated_position_inverse(n, op.from as int, r, by.reverted());
    lemma_cell_index_bounds(n, op.from as int, r);
    lemma_cell_index_unique(n, op.from as int, r);
    lemma_cell_index_bounds(n, from.0, from.1);
    assert(row[op.from as int] == rotated[r * n + op.from]);
    assert(rotation_source(n, r * n + op.from, by) == cell_index(n, from.0, from.1));
    lemma_rotation_keeps_tiles(cells, n, by);
    lemma_slid_keeps_tiles(rotated, n, tiles);
    lemma_rotation_keeps_tiles(slid, n, by.reverted());
    match m.3 {
        Some(absorbed) => {
            assert(op.merged == Some(absorbed));
            assert(ops_absorb(ops, absorbed));
            lemma_row_of_distinct(rotated, n, r);
            assert(has_tile(rotated, absorbed)) by {
                let c = choose|c: int| 0 <= c < row.len() && #[trigger] row[c] == Some(absorbed);
                assert(rotated[r * n + c] == Some(absorbed));
            }
            if distinct_tiles(cells) && has_tile(slid, absorbed) {
                let k = choose|k: int| 0 <= k < slid.len() && #[trigger] slid[k] == Some(absorbed);
                lemma_cell_index_split(n, k);
                let rk = k / n;
                assert(rows_have_tile(rotated, n, rk + 1, absorbed));
                assert(!rows_have_tile(rotated, n, rk, absorbed));
                assert(rows_have_tile(rotated, n, r + 1, absorbed));
                assert(!rows_have_tile(rotated, n, r, absorbed));
                if rk < r {
                    lemma_rows_grow(rotated, n, rk + 1, r, absorbed);
                } else if r < rk {
                    lemma_rows_grow(rotated, n, r + 1, rk, absorbed);
                } else {
                    lemma_row_of_slid(rotated, n, r, tiles);
                    assert(slid_row(row, tiles)[k % n] == Some(absorbed));
                    assert(has_tile(slid_row(row, tiles), absorbed));
                }
            }
        },
        None => {},
    }
}

/// Every move of one of the first rows has its instruction among those of
/// the first rows, at the place of the move behind the instructions of the
/// rows before its own.
proof fn lemma_message_of_op(
    cells: Seq<Option<TileId>>,
    n: int,
    rows: int,
    by: RotateBy,
    tiles: Seq<Option<Tile>>,
    move_time: u64,
    r: int,
    a: int,
)
    requires
        0 <= r < rows,
        0 <= a < slid_ops(row_of(cells, n, r), tiles).len(),
    ensures
        ({
            let i = messages_upto(cells, n, r, by, tiles, move_time).len() + a;
            &&& 0 <= i < messages_upto(cells, n, rows, by, tiles, move_time).len()
            &&& messages_upto(cells, n, rows, by, tiles, move_time)[i] == message_of(
                slid_ops(row_of(cells, n, r), tiles)[a],
                n,
                r,
                by,
                move_time,
            )
        }),
    decreases rows,
{
    if r < rows - 1 {
        lemma_message_of_op(cells, n, rows - 1, by, tiles, move_time, r, a);
    }
}

/// On a board without a tile in two cells, a tile stands in one row only.
proof fn lemma_tile_in_one_row(
    cells: Seq<Option<TileId>>,
    n: int,
    r1: int,
    r2: int,
    tile: TileId,
)
    requires
        cells.len() == n * n,
        0 <= r1 < n,
        0 <= r2 < n,
        distinct_tiles(cells),
        has_tile(row_of(cells, n, r1), tile),
        has_tile(row_of(cells, n, r2), tile),
    ensures
        r1 == r2,
{
    lemma_row_of_distinct(cells, n, r1);
    lemma_row_of_distinct(cells, n, r2);
    if r1 < r2 {
        lemma_rows_grow(cells, n, r1 + 1, r2, tile);
    } else if r2 < r1 {
        lemma_rows_grow(cells, n, r2 + 1, r1, tile);
    }
}

/// The cell with index `k`, as column and row.
pub open spec fn cell_position(n: int, k: int) -> Position {
    Position((k % n) as usize, (k / n) as usize)
}

/// A cell of the board after a slide: what it holds stands, in the rotated
/// and compacted grid, in a row and a column to which the cell's column and
/// row are carried back and forth by the rotations.
proof fn lemma_resolved_cell(
    cells: Seq<Option<TileId>>,
    n: int,
    direction: Direction,
    tiles: Seq<Option<Tile>>,
    k: int,
) -> (at: (int, int))
    requires
        0 <= n <= usize::MAX,
        cells.len() == n * n,
        0 <= k < n * n,
    ensures
        0 <= at.0 < n,
        0 <= at.1 < n,
        ({
            let by = RotateBy::of_direction(direction);
            let rotated = rotated_cells(cells, n, by);
            let row = row_of(rotated, n, at.0);
            &&& row.len() == n
            &&& resolved_cells(cells, n, direction, tiles)[k] == slid_row(row, tiles)[at.1]
            &&& row[at.1] == cells[k]
            &&& rotated_position(n, at.1, at.0, by.reverted()) == (k % n, k / n)
        }),
{
    let by = RotateBy::of_direction(direction);
    let rotated = rotated_cells(cells, n, by);
    let slid = slid_cells(rotated, n, tiles);
    lemma_rotation_is_bijection(n, by);
    lemma_rotation_is_bijection(n, by.reverted());
    let m = rotation_source(n, k, by.reverted());
    assert(n != 0);
    lemma_cell_index_split(n, m);
    let r = m / n;
    let c = m % n;
    lemma_row_of_slid(rotated, n, r, tiles);
    assert(row_of(rotated, n, r)[c] == rotated[r * n + c]);
    assert(rotation_source(n, m, by) == k);
    let p = rotated_position(n, c, r, by.reverted());
    lemma_rotated_position_inverse(n, c, r, by.reverted());
    lemma_cell_index_unique(n, p.0, p.1);
    (r, c)
}

/// An instruction of a slide moves a tile of the row that it stems from.
proof fn lemma_message_tile_in_row(
    cells: Seq<Option<TileId>>,
    n: int,
    by: RotateBy,
    tiles: Seq<Option<Tile>>,
    move_time: u64,
    i: int,
) -> (at: (int, int))
    requires
        0 <= n <= usize::MAX,
        cells.len() == n * n,
        0 <= i < messages_upto(cells, n, n, by, tiles, move_time).len(),
    ensures
        0 <= at.0 < n,
        0 <= at.1 < slid_ops(row_of(cells, n, at.0), tiles).len(),
        i == messages_upto(cells, n, at.0, by, tiles, move_time).len() + at.1,
        messages_upto(cells, n, n, by, tiles, move_time)[i] == message_of(
            slid_ops(row_of(cells, n, at.0), tiles)[at.1],
            n,
            at.0,
            by,
            move_time,
        ),
        has_tile(row_of(cells, n, at.0), messages_upto(cells, n, n, by, tiles, move_time)[i].0),
        row_of(cells, n, at.0).len() == n,
{
    let at = lemma_message_origin(cells, n, n, by, tiles, move_time, i);
    let row = row_of(cells, n, at.0);
    lemma_cell_index_bounds(n, 0, at.0);
    lemma_ops_describe_row(row, tiles);
    let op = slid_ops(row, tiles)[at.1];
    assert(row[op.from as int] == Some(op.tile));
    at
}

/// No tile gets two instructions in a slide of a board without a tile in two
/// cells.
pub proof fn lemma_resolve_moves_once(
    cells: Seq<Option<TileId>>,
    n: int,
    direction: Direction,
    tiles: Seq<Option<Tile>>,
    move_time: u64,
)
    requires
        0 <= n <= usize::MAX,
        cells.len() == n * n,
        distinct_tiles(cells),
    ensures
        forall|i: int, j: int|
            0 <= i < j < resolved_moves(cells, n, direction, tiles, move_time).len() ==> (
            #[trigger] resolved_moves(cells, n, direction, tiles, move_time)[i]).0 != (
            #[trigger] resolved_moves(cells, n, direction, tiles, move_time)[j]).0,
{
    let by = RotateBy::of_direction(direction);
    let rotated = rotated_cells(cells, n, by);
    let moves = resolved_moves(cells, n, direction, tiles, move_time);
    lemma_rotation_keeps_tiles(cells, n, by);
    assert forall|i: int, j: int| 0 <= i < j < moves.len() implies (#[trigger] moves[i]).0 != (
    #[trigger] moves[j]).0 by {
        let ai = lemma_message_tile_in_row(rotated, n, by, tiles, move_time, i);
        let aj = lemma_message_tile_in_row(rotated, n, by, tiles, move_time, j);
        if moves[i].0 == moves[j].0 {
            lemma_tile_in_one_row(rotated, n, ai.0, aj.0, moves[i].0);
            lemma_row_of_distinct(rotated, n, ai.0);
            lemma_row_fates(row_of(rotated, n, ai.0), tiles);
            assert(ai.1 < aj.1);
        }
    }
}

/// After a slide of a board without a tile in two cells, a tile on the board
/// is moved to its cell by the instruction for it, and stood in its cell if
/// there is none.
pub proof fn lemma_resolve_destinations(
    cells: Seq<Option<TileId>>,
    n: int,
    direction: Direction,
    tiles: Seq<Option<Tile>>,
    move_time: u64,
)
    requires
        0 <= n <= usize::MAX,
        cells.len() == n * n,
        distinct_tiles(cells),
    ensures
        forall|k: int, i: int|
            0 <= k < n * n && 0 <= i < resolved_moves(cells, n, direction, tiles, move_time).len()
                && #[trigger] resolved_cells(cells, n, direction, tiles)[k] == Some(
                (#[trigger] resolved_moves(cells, n, direction, tiles, move_time)[i]).0,
            ) ==> resolved_moves(cells, n, direction, tiles, move_time)[i].1 == cell_position(
                n,
                k,
            ),
        forall|k: int|
            0 <= k < n * n && (#[trigger] resolved_cells(cells, n, direction, tiles)[k]) is Some
                && !moves_name(
                resolved_moves(cells, n, direction, tiles, move_time),
                resolved_cells(cells, n, direction, tiles)[k]->0,
            ) ==> cells[k] == resolved_cells(cells, n, direction, tiles)[k],
{
    let by = RotateBy::of_direction(direction);
    let rotated = rotated_cells(cells, n, by);
    let moves = resolved_moves(cells, n, direction, tiles, move_time);
    let after = resolved_cells(cells, n, direction, tiles);
    lemma_rotation_keeps_tiles(cells, n, by);
    assert forall|k: int, i: int|
        0 <= k < n * n && 0 <= i < moves.len() && #[trigger] after[k] == Some(
            (#[trigger] moves[i]).0,
        ) implies moves[i].1 == cell_position(n, k) by {
        let at = lemma_resolved_cell(cells, n, direction, tiles, k);
        let from = lemma_message_tile_in_row(rotated, n, by, tiles, move_time, i);
        let row = row_of(rotated, n, at.0);
        lemma_row_of_distinct(rotated, n, at.0);
        lemma_row_keeps_tiles_apart(row, tiles);
        assert(slid_row(row, tiles)[at.1] is Some);
        lemma_tile_in_one_row(rotated, n, at.0, from.0, moves[i].0);
        lemma_row_fates(row, tiles);
        assert(slid_ops(row, tiles)[from.1].to == at.1);
    }
    assert forall|k: int|
        0 <= k < n * n && (#[trigger] after[k]) is Some && !moves_name(
            moves,
            after[k]->0,
        ) implies cells[k] == after[k] by {
        let at = lemma_resolved_cell(cells, n, direction, tiles, k);
        let row = row_of(rotated, n, at.0);
        lemma_row_of_distinct(rotated, n, at.0);
        lemma_row_fates(row, tiles);
        if ops_move(slid_ops(row, tiles), after[k]->0) {
            let a = choose|a: int|
                0 <= a < slid_ops(row, tiles).len() && (#[trigger] slid_ops(row, tiles)[a]).tile
                    == after[k]->0;
            lemma_message_of_op(rotated, n, n, by, tiles, move_time, at.0, a);
            let i = messages_upto(rotated, n, at.0, by, tiles, move_time).len() + a;
            assert(moves[i].0 == after[k]->0);
        }
    }
}

/// After a slide of a board without a tile in two cells, a tile that has
/// left the board was absorbed by a tile that is on the board.
pub proof fn lemma_resolve_absorbers(
    cells: Seq<Option<TileId>>,
    n: int,
    direction: Direction,
    tiles: Seq<Option<Tile>>,
    move_time: u64,
)
    requires
        0 <= n <= usize::MAX,
        cells.len() == n * n,
        distinct_tiles(cells),
    ensures
        forall|tile: TileId|
            has_tile(cells, tile) && !#[trigger] has_tile(
                resolved_cells(cells, n, direction, tiles),
                tile,
            ) ==> exists|i: int|
                0 <= i < resolved_moves(cells, n, direction, tiles, move_time).len() && (
                #[trigger] resolved_moves(cells, n, direction, tiles, move_time)[i]).3 == Some(
                    tile,
                ) && has_tile(
                    resolved_cells(cells, n, direction, tiles),
                    resolved_moves(cells, n, direction, tiles, move_time)[i].0,
                ),
{
    let by = RotateBy::of_direction(direction);
    let rotated = rotated_cells(cells, n, by);
    let slid = slid_cells(rotated, n, tiles);
    let moves = resolved_moves(cells, n, direction, tiles, move_time);
    let after = resolved_cells(cells, n, direction, tiles);
    lemma_rotation_keeps_tiles(cells, n, by);
    lemma_rotation_keeps_tiles(slid, n, by.reverted());
    assert forall|tile: TileId| has_tile(cells, tile) && !#[trigger] has_tile(
        after,
        tile,
    ) implies exists|i: int|
        0 <= i < moves.len() && (#[trigger] moves[i]).3 == Some(tile) && has_tile(
            after,
            moves[i].0,
        ) by {
        assert(has_tile(rotated, tile));
        let m = choose|m: int| 0 <= m < rotated.len() && #[trigger] rotated[m] == Some(tile);
        assert(n != 0);
        lemma_cell_index_split(n, m);
        let r = m / n;
        let row = row_of(rotated, n, r);
        lemma_row_of_slid(rotated, n, r, tiles);
        lemma_row_of_distinct(rotated, n, r);
        assert(row[m % n] == Some(tile));
        assert(has_tile(row, tile));
        let after_row = slid_row(row, tiles);
        if has_tile(after_row, tile) {
            let c = choose|c: int| 0 <= c < after_row.len() && #[trigger] after_row[c] == Some(tile);
            lemma_cell_index_bounds(n, c, r);
            assert(row_of(slid, n, r)[c] == slid[r * n + c]);
            assert(has_tile(slid, tile));
        }
        lemma_row_fates(row, tiles);
        let a = choose|a: int|
            0 <= a < slid_ops(row, tiles).len() && (#[trigger] slid_ops(row, tiles)[a]).merged
                == Some(tile) && has_tile(after_row, slid_ops(row, tiles)[a].tile);
        let absorber = slid_ops(row, tiles)[a].tile;
        let c = choose|c: int| 0 <= c < after_row.len() && #[trigger] after_row[c] == Some(absorber);
        lemma_cell_index_bounds(n, c, r);
        assert(row_of(slid, n, r)[c] == slid[r * n + c]);
        assert(has_tile(slid, absorber));
        lemma_message_of_op(rotated, n, n, by, tiles, move_time, r, a);
        let i = messages_upto(rotated, n, r, by, tiles, move_time).len() + a;
        assert(moves[i].3 == Some(tile) && moves[i].0 == absorber);
    }
}

} // verus!

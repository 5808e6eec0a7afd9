//! What holds of the compaction of one row.

use vstd::prelude::*;
use crate::board::{
    distinct_tiles, has_tile, lemma_tile_count_concat, lemma_tile_count_filled_prefix,
    lemma_tile_count_single, tile_count,
};
use crate::components::{Tile, TileId};
use crate::row::{
    merges_first, ops_after_first, row_tokens, settle_op, slid_ops, slid_row, slide_ops,
    survivors, MoveOp, Token,
};

verus! {

/// Number of moves in `ops` that absorb a tile.
pub open spec fn merge_count_ops(ops: Seq<MoveOp>) -> nat
    decreases ops.len(),
{
    if ops.len() == 0 {
        0
    } else {
        merge_count_ops(ops.drop_last()) + if ops.last().merged is Some {
            1nat
        } else {
            0nat
        }
    }
}

/// The tiles that take part in the merges of `ops`: for every move that
/// absorbs a tile, the absorbed tile and then the moving tile.
pub open spec fn merge_tiles_ops(ops: Seq<MoveOp>) -> Seq<TileId>
    decreases ops.len(),
{
    if ops.len() == 0 {
        Seq::empty()
    } else {
        merge_tiles_ops(ops.drop_last()) + match ops.last().merged {
            Some(absorbed) => seq![absorbed, ops.last().tile],
            None => Seq::empty(),
        }
    }
}

/// The merges of a single move.
pub proof fn lemma_merges_of_single(op: MoveOp)
    ensures
        merge_count_ops(seq![op]) == (if op.merged is Some {
            1nat
        } else {
            0nat
        }),
        merge_tiles_ops(seq![op]) == (match op.merged {
            Some(absorbed) => seq![absorbed, op.tile],
            None => Seq::empty(),
        }),
{
    let one = seq![op];
    assert(one.drop_last() =~= Seq::<MoveOp>::empty());
    assert(merge_count_ops(Seq::<MoveOp>::empty()) == 0);
    assert(merge_tiles_ops(Seq::<MoveOp>::empty()) =~= Seq::<TileId>::empty());
    assert(one.last() == op);
    assert(merge_tiles_ops(one) =~= (match op.merged {
        Some(absorbed) => seq![absorbed, op.tile],
        None => Seq::empty(),
    }));
}

/// Merges are counted, and their tiles listed, part by part.
pub proof fn lemma_merges_of_concat(a: Seq<MoveOp>, b: Seq<MoveOp>)
    ensures
        merge_count_ops(a + b) == merge_count_ops(a) + merge_count_ops(b),
        merge_tiles_ops(a + b) == merge_tiles_ops(a) + merge_tiles_ops(b),
    decreases b.len(),
{
    if b.len() == 0 {
        assert(a + b =~= a);
        assert(merge_tiles_ops(a) + merge_tiles_ops(b) =~= merge_tiles_ops(a));
    } else {
        lemma_merges_of_concat(a, b.drop_last());
        assert((a + b).drop_last() =~= a + b.drop_last());
        assert((a + b).last() == b.last());
        let tail = match b.last().merged {
            Some(absorbed) => seq![absorbed, b.last().tile],
            None => Seq::<TileId>::empty(),
        };
        assert((merge_tiles_ops(a) + merge_tiles_ops(b.drop_last())) + tail =~= merge_tiles_ops(a)
            + (merge_tiles_ops(b.drop_last()) + tail));
    }
}

/// The tiles read off a row stand in the row where they say, in rising
/// columns, and no tile of the row is left out.
pub proof fn lemma_tokens_describe_row(row: Seq<Option<TileId>>, from: int)
    requires
        0 <= from <= row.len(),
    ensures
        row_tokens(row, from).len() <= row.len() - from,
        forall|i: int|
            0 <= i < row_tokens(row, from).len() ==> {
                let t = #[trigger] row_tokens(row, from)[i];
                from + i <= t.col < row.len() && row[t.col] == Some(t.tile)
            },
        forall|i: int, j: int|
            0 <= i < j < row_tokens(row, from).len() ==> (#[trigger] row_tokens(row, from)[i]).col
                < (#[trigger] row_tokens(row, from)[j]).col,
        forall|c: int|
            from <= c < row.len() && (#[trigger] row[c]) is Some ==> exists|i: int|
                0 <= i < row_tokens(row, from).len() && (#[trigger] row_tokens(row, from)[i]).col
                    == c,
    decreases row.len() - from,
{
    let ts = row_tokens(row, from);
    if from < row.len() {
        lemma_tokens_describe_row(row, from + 1);
        let rest = row_tokens(row, from + 1);
        match row[from] {
            Some(tile) => {
                assert(ts == seq![Token { tile, col: from }] + rest);
                assert forall|i: int| 0 < i < ts.len() implies #[trigger] ts[i] == rest[i - 1] by {}
                assert forall|c: int| from <= c < row.len() && (#[trigger] row[c]) is Some implies exists|
                    i: int,
                | 0 <= i < ts.len() && (#[trigger] ts[i]).col == c by {
                    if c == from {
                        assert(ts[0].col == c);
                    } else {
                        let i = choose|i: int| 0 <= i < rest.len() && (#[trigger] rest[i]).col == c;
                        assert(ts[i + 1].col == c);
                    }
                }
            },
            None => {},
        }
    }
}

/// Of the tiles of a pass, as many are left as did not get absorbed.
pub proof fn lemma_survivors_and_merges(ts: Seq<Token>, d: int, tiles: Seq<Option<Tile>>)
    ensures
        survivors(ts, tiles).len() + merge_count_ops(slide_ops(ts, d, tiles)) == ts.len(),
    decreases ts.len(),
{
    if ts.len() > 0 {
        let first = settle_op(ts[0], d);
        assert(merge_count_ops(first) == 0) by {
            if first.len() > 0 {
                lemma_merges_of_single(first[0]);
                assert(first =~= seq![first[0]]);
            }
        }
        lemma_merges_of_concat(first, ops_after_first(ts, d, tiles));
        if merges_first(ts, tiles) {
            let merge = ops_after_first(ts, d, tiles)[0];
            lemma_merges_of_single(merge);
            lemma_merges_of_concat(seq![merge], slide_ops(ts.skip(2), d + 1, tiles));
            lemma_survivors_and_merges(ts.skip(2), d + 1, tiles);
        } else {
            lemma_survivors_and_merges(ts.skip(1), d + 1, tiles);
        }
    }
}

/// A pass makes no move exactly when every tile already stands in the column
/// it is settled into and no tile is absorbed; the tiles left are then the
/// tiles of the pass.
pub proof fn lemma_no_ops_iff_in_place(ts: Seq<Token>, d: int, tiles: Seq<Option<Tile>>)
    ensures
        survivors(ts, tiles).len() <= ts.len(),
        slide_ops(ts, d, tiles).len() == 0 <==> survivors(ts, tiles).len() == ts.len() && forall|
            i: int,
        |
            0 <= i < ts.len() ==> (#[trigger] ts[i]).col == d + i,
        survivors(ts, tiles).len() == ts.len() ==> forall|i: int|
            0 <= i < ts.len() ==> #[trigger] survivors(ts, tiles)[i] == ts[i].tile,
    decreases ts.len(),
{
    if ts.len() > 0 {
        if merges_first(ts, tiles) {
            lemma_no_ops_iff_in_place(ts.skip(2), d + 1, tiles);
        } else {
            let rest = ts.skip(1);
            lemma_no_ops_iff_in_place(rest, d + 1, tiles);
            if slide_ops(ts, d, tiles).len() == 0 {
                assert forall|i: int| 0 <= i < ts.len() implies (#[trigger] ts[i]).col == d + i by {
                    if i > 0 {
                        assert(rest[i - 1] == ts[i]);
                    }
                }
            }
            if survivors(ts, tiles).len() == ts.len() && forall|i: int|
                0 <= i < ts.len() ==> (#[trigger] ts[i]).col == d + i {
                assert forall|i: int| 0 <= i < rest.len() implies (#[trigger] rest[i]).col == d + 1
                    + i by {
                    assert(rest[i] == ts[i + 1]);
                }
            }
            if survivors(ts, tiles).len() == ts.len() {
                assert forall|i: int| 0 <= i < ts.len() implies #[trigger] survivors(ts, tiles)[i]
                    == ts[i].tile by {
                    if i > 0 {
                        assert(survivors(rest, tiles)[i - 1] == rest[i - 1].tile);
                        assert(rest[i - 1] == ts[i]);
                    }
                }
            }
        }
    }
}

/// A row holds as many tiles from a column upward as are read off it there.
pub proof fn lemma_tokens_count(row: Seq<Option<TileId>>, from: int)
    requires
        0 <= from <= row.len(),
    ensures
        tile_count(row.subrange(from, row.len() as int)) == row_tokens(row, from).len(),
    decreases row.len() - from,
{
    let n = row.len() as int;
    if from < n {
        lemma_tokens_count(row, from + 1);
        lemma_tile_count_single(row[from]);
        lemma_tile_count_concat(seq![row[from]], row.subrange(from + 1, n));
        assert(row.subrange(from, n) =~= seq![row[from]] + row.subrange(from + 1, n));
    } else {
        assert(row.subrange(from, n) =~= Seq::<Option<TileId>>::empty());
    }
}

/// Compacting a row leaves as many tiles as it held, less one for every
/// merge.
pub proof fn lemma_row_tile_count(row: Seq<Option<TileId>>, tiles: Seq<Option<Tile>>)
    ensures
        tile_count(slid_row(row, tiles)) + merge_count_ops(slid_ops(row, tiles)) == tile_count(
            row,
        ),
        tile_count(slid_row(row, tiles)) == survivors(row_tokens(row, 0), tiles).len(),
{
    let ts = row_tokens(row, 0);
    lemma_tokens_count(row, 0);
    assert(row.subrange(0, row.len() as int) =~= row);
    lemma_tokens_describe_row(row, 0);
    lemma_no_ops_iff_in_place(ts, 0, tiles);
    lemma_survivors_and_merges(ts, 0, tiles);
    lemma_tile_count_filled_prefix(slid_row(row, tiles), survivors(ts, tiles).len() as int);
}

/// In a strictly rising sequence of columns, a column that runs ahead of its
/// place stays ahead.
proof fn lemma_rising_columns(ts: Seq<Token>, i: int, j: int)
    requires
        0 <= i <= j < ts.len(),
        forall|a: int, b: int|
            0 <= a < b < ts.len() ==> (#[trigger] ts[a]).col < (#[trigger] ts[b]).col,
    ensures
        ts[j].col - j >= ts[i].col - i,
    decreases j - i,
{
    if i < j {
        lemma_rising_columns(ts, i, j - 1);
        assert(ts[j - 1].col < ts[j].col);
    }
}

/// When the tiles of a row fill exactly its first `k` columns, the tile read
/// off at each place stands in the column of that place.
proof fn lemma_tokens_in_place(row: Seq<Option<TileId>>, k: int, i: int)
    requires
        0 <= k <= row.len(),
        forall|c: int| 0 <= c < row.len() ==> ((#[trigger] row[c]) is Some <==> c < k),
        0 <= i < row_tokens(row, 0).len(),
    ensures
        row_tokens(row, 0)[i].col == i,
        i < k,
    decreases i,
{
    let ts = row_tokens(row, 0);
    lemma_tokens_describe_row(row, 0);
    assert(row[ts[i].col] is Some);
    assert(i <= ts[i].col < k);
    assert(row[i] is Some);
    let j = choose|j: int| 0 <= j < ts.len() && (#[trigger] ts[j]).col == i;
    assert(j <= ts[j].col);
    if j < i {
        lemma_tokens_in_place(row, k, j);
    }
}

/// Compacting a row makes no move exactly when it leaves the row as it was.
pub proof fn lemma_row_unchanged_iff_no_ops(row: Seq<Option<TileId>>, tiles: Seq<Option<Tile>>)
    ensures
        slid_ops(row, tiles).len() == 0 <==> slid_row(row, tiles) == row,
{
    let ts = row_tokens(row, 0);
    let s = survivors(ts, tiles);
    lemma_tokens_describe_row(row, 0);
    lemma_no_ops_iff_in_place(ts, 0, tiles);
    if slid_ops(row, tiles).len() == 0 {
        assert forall|c: int| 0 <= c < row.len() implies row[c] == slid_row(row, tiles)[c] by {
            if c < s.len() {
                assert(ts[c].col == c);
            } else if row[c] is Some {
                let i = choose|i: int| 0 <= i < ts.len() && (#[trigger] ts[i]).col == c;
            }
        }
        assert(slid_row(row, tiles) =~= row);
    }
    if slid_row(row, tiles) == row {
        let k = s.len() as int;
        assert forall|c: int| 0 <= c < row.len() implies ((#[trigger] row[c]) is Some <==> c
            < k) by {
            assert(row[c] == slid_row(row, tiles)[c]);
        }
        assert forall|i: int| 0 <= i < ts.len() implies (#[trigger] ts[i]).col == 0 + i by {
            lemma_tokens_in_place(row, k, i);
        }
        if ts.len() > 0 {
            lemma_tokens_in_place(row, k, ts.len() - 1);
        }
        if k > 0 {
            assert(row[k - 1] is Some);
            let j = choose|j: int| 0 <= j < ts.len() && (#[trigger] ts[j]).col == k - 1;
            lemma_tokens_in_place(row, k, j);
        }
        assert(ts.len() == k);
    }
}

/// A compaction that makes a move leaves the last cell of the row empty.
pub proof fn lemma_row_moved_has_room(row: Seq<Option<TileId>>, tiles: Seq<Option<Tile>>)
    requires
        slid_ops(row, tiles).len() > 0,
    ensures
        row.len() > 0,
        slid_row(row, tiles)[row.len() - 1] is None,
{
    let ts = row_tokens(row, 0);
    let s = survivors(ts, tiles);
    lemma_tokens_describe_row(row, 0);
    lemma_no_ops_iff_in_place(ts, 0, tiles);
    if s.len() == ts.len() {
        let i = choose|i: int| 0 <= i < ts.len() && (#[trigger] ts[i]).col != 0 + i;
        lemma_rising_columns(ts, i, ts.len() - 1);
        assert(ts[ts.len() - 1].col < row.len());
    }
}

/// The tiles of two tokens at different places differ.
pub open spec fn distinct_tokens(ts: Seq<Token>) -> bool {
    forall|a: int, b: int|
        0 <= a < ts.len() && 0 <= b < ts.len() && a != b ==> (#[trigger] ts[a]).tile != (
        #[trigger] ts[b]).tile
}

/// Whether `tile` is the tile of one of `ts`.
pub open spec fn among_tokens(ts: Seq<Token>, tile: TileId) -> bool {
    exists|a: int| 0 <= a < ts.len() && (#[trigger] ts[a]).tile == tile
}

/// The tiles that a pass leaves, and the tiles that take part in its merges,
/// are tiles of the pass. When the tiles of the pass differ from one another,
/// so do those that are left, and so do those that take part in merges: no
/// tile takes part in two.
pub proof fn lemma_pass_keeps_tiles_apart(ts: Seq<Token>, d: int, tiles: Seq<Option<Tile>>)
    ensures
        forall|i: int|
            0 <= i < survivors(ts, tiles).len() ==> among_tokens(
                ts,
                #[trigger] survivors(ts, tiles)[i],
            ),
        forall|i: int|
            0 <= i < merge_tiles_ops(slide_ops(ts, d, tiles)).len() ==> among_tokens(
                ts,
                #[trigger] merge_tiles_ops(slide_ops(ts, d, tiles))[i],
            ),
        distinct_tokens(ts) ==> survivors(ts, tiles).no_duplicates(),
        distinct_tokens(ts) ==> merge_tiles_ops(slide_ops(ts, d, tiles)).no_duplicates(),
    decreases ts.len(),
{
    let s = survivors(ts, tiles);
    let ops = slide_ops(ts, d, tiles);
    let m = merge_tiles_ops(ops);
    if ts.len() == 0 {
        assert(m =~= Seq::<TileId>::empty());
    } else {
        let first = settle_op(ts[0], d);
        assert(merge_tiles_ops(first) =~= Seq::<TileId>::empty()) by {
            if first.len() > 0 {
                lemma_merges_of_single(first[0]);
                assert(first =~= seq![first[0]]);
            }
        }
        lemma_merges_of_concat(first, ops_after_first(ts, d, tiles));
        assert(m =~= merge_tiles_ops(ops_after_first(ts, d, tiles)));
        let taken: int = if merges_first(ts, tiles) {
            2
        } else {
            1
        };
        let rest = ts.skip(taken);
        let rest_s = survivors(rest, tiles);
        let rest_m = merge_tiles_ops(slide_ops(rest, d + 1, tiles));
        assert(distinct_tokens(ts) ==> distinct_tokens(rest)) by {
            assert forall|a: int, b: int|
                distinct_tokens(ts) &&
                0 <= a < rest.len() && 0 <= b < rest.len() && a != b implies (#[trigger] rest[a]).tile
                != (#[trigger] rest[b]).tile by {
                assert(rest[a] == ts[a + taken]);
                assert(rest[b] == ts[b + taken]);
            }
        }
        lemma_pass_keeps_tiles_apart(rest, d + 1, tiles);
        assert forall|tile: TileId| among_tokens(rest, tile) implies among_tokens(ts, tile) && (
        distinct_tokens(ts) ==> tile != ts[0].tile && (taken == 2 ==> tile != ts[1].tile)) by {
            let a = choose|a: int| 0 <= a < rest.len() && (#[trigger] rest[a]).tile == tile;
            assert(rest[a] == ts[a + taken]);
            assert(ts[a + taken].tile == tile);
        }
        let kept = s[0];
        assert(s =~= seq![kept] + rest_s);
        assert(among_tokens(ts, kept)) by {
            assert(ts[taken - 1].tile == kept);
        }
        assert forall|i: int| 0 <= i < s.len() implies among_tokens(ts, #[trigger] s[i]) by {
            if i > 0 {
                assert(s[i] == rest_s[i - 1]);
                assert(among_tokens(rest, rest_s[i - 1]));
            }
        }
        assert forall|i: int, j: int|
            distinct_tokens(ts) && 0 <= i < s.len() && 0 <= j < s.len() && i != j implies s[i]
            != s[j] by {
            if i > 0 {
                assert(s[i] == rest_s[i - 1]);
                assert(among_tokens(rest, rest_s[i - 1]));
            }
            if j > 0 {
                assert(s[j] == rest_s[j - 1]);
                assert(among_tokens(rest, rest_s[j - 1]));
            }
        }
        if taken == 2 {
            let merge = ops_after_first(ts, d, tiles)[0];
            lemma_merges_of_single(merge);
            lemma_merges_of_concat(seq![merge], slide_ops(rest, d + 1, tiles));
            let pair = seq![ts[0].tile, ts[1].tile];
            assert(m =~= pair + rest_m);
            assert(among_tokens(ts, ts[0].tile));
            assert(among_tokens(ts, ts[1].tile));
            assert forall|i: int| 0 <= i < m.len() implies among_tokens(ts, #[trigger] m[i]) by {
                if i >= 2 {
                    assert(m[i] == rest_m[i - 2]);
                    assert(among_tokens(rest, rest_m[i - 2]));
                }
            }
            assert forall|i: int, j: int|
                distinct_tokens(ts) && 0 <= i < m.len() && 0 <= j < m.len() && i != j implies m[i]
                != m[j] by {
                if i >= 2 {
                    assert(m[i] == rest_m[i - 2]);
                    assert(among_tokens(rest, rest_m[i - 2]));
                }
                if j >= 2 {
                    assert(m[j] == rest_m[j - 2]);
                    assert(among_tokens(rest, rest_m[j - 2]));
                }
            }
        } else {
            assert(m =~= rest_m);
            assert forall|i: int| 0 <= i < m.len() implies among_tokens(ts, #[trigger] m[i]) by {
                assert(among_tokens(rest, rest_m[i]));
            }
        }
    }
}

/// Compacting a row brings in no tile: the tiles that are left, and the tiles
/// that take part in merges, are tiles of the row. When no tile stands in
/// the row twice, none stands in the compacted row twice and none takes part
/// in two merges.
pub proof fn lemma_row_keeps_tiles_apart(row: Seq<Option<TileId>>, tiles: Seq<Option<Tile>>)
    ensures
        forall|c: int|
            0 <= c < row.len() && (#[trigger] slid_row(row, tiles)[c]) is Some ==> has_tile(
                row,
                slid_row(row, tiles)[c]->0,
            ),
        forall|i: int|
            0 <= i < merge_tiles_ops(slid_ops(row, tiles)).len() ==> has_tile(
                row,
                #[trigger] merge_tiles_ops(slid_ops(row, tiles))[i],
            ),
        distinct_tiles(row) ==> distinct_tiles(slid_row(row, tiles)),
        distinct_tiles(row) ==> merge_tiles_ops(slid_ops(row, tiles)).no_duplicates(),
{
    let ts = row_tokens(row, 0);
    let s = survivors(ts, tiles);
    let m = merge_tiles_ops(slid_ops(row, tiles));
    lemma_tokens_describe_row(row, 0);
    lemma_pass_keeps_tiles_apart(ts, 0, tiles);
    assert forall|tile: TileId| among_tokens(ts, tile) implies has_tile(row, tile) by {
        let a = choose|a: int| 0 <= a < ts.len() && (#[trigger] ts[a]).tile == tile;
        assert(row[ts[a].col] == Some(tile));
    }
    assert forall|c: int|
        0 <= c < row.len() && (#[trigger] slid_row(row, tiles)[c]) is Some implies has_tile(
        row,
        slid_row(row, tiles)[c]->0,
    ) by {
        assert(among_tokens(ts, s[c]));
    }
    assert forall|i: int| 0 <= i < m.len() implies has_tile(row, #[trigger] m[i]) by {
        assert(among_tokens(ts, m[i]));
    }
    if distinct_tiles(row) {
        assert(distinct_tokens(ts)) by {
            assert forall|a: int, b: int|
                0 <= a < ts.len() && 0 <= b < ts.len() && a != b implies (#[trigger] ts[a]).tile != (
            #[trigger] ts[b]).tile by {
                if a < b {
                    assert(ts[a].col < ts[b].col);
                } else {
                    assert(ts[b].col < ts[a].col);
                }
                assert(row[ts[a].col] != row[ts[b].col]);
            }
        }
        let after = slid_row(row, tiles);
        assert forall|i: int, j: int|
            0 <= i < after.len() && 0 <= j < after.len() && i != j && (
            #[trigger] after[i]) is Some implies after[i] != #[trigger] after[j] by {
            if after[j] is Some {
                assert(s[i] != s[j]);
            }
        }
    }
}

/// Whether one of `ops` has `tile` absorbed.
pub open spec fn ops_absorb(ops: Seq<MoveOp>, tile: TileId) -> bool {
    exists|i: int| 0 <= i < ops.len() && (#[trigger] ops[i]).merged == Some(tile)
}

/// The tokens stand in rising columns from `d` upward, below `n`.
pub open spec fn rising_from(ts: Seq<Token>, d: int, n: int) -> bool {
    &&& forall|a: int| 0 <= a < ts.len() ==> d + a <= (#[trigger] ts[a]).col < n
    &&& forall|a: int, b: int|
        0 <= a < b < ts.len() ==> (#[trigger] ts[a]).col < (#[trigger] ts[b]).col
}

/// Every move of a pass takes a tile of the pass from the column it stands
/// in to a lower column, not below the first free one; a tile that a move
/// has absorbed is a tile of the pass, and is not left when the tiles of the
/// pass differ from one another.
pub proof fn lemma_ops_describe_pass(
    ts: Seq<Token>,
    d: int,
    n: int,
    tiles: Seq<Option<Tile>>,
)
    requires
        0 <= d,
        n <= usize::MAX,
        rising_from(ts, d, n),
    ensures
        forall|i: int|
            0 <= i < slide_ops(ts, d, tiles).len() ==> {
                let op = #[trigger] slide_ops(ts, d, tiles)[i];
                &&& d <= op.to < op.from < n
                &&& exists|a: int|
                    0 <= a < ts.len() && (#[trigger] ts[a]).tile == op.tile && ts[a].col
                        == op.from
            },
        forall|tile: TileId| #[trigger]
            ops_absorb(slide_ops(ts, d, tiles), tile) ==> among_tokens(ts, tile) && (
            distinct_tokens(ts) ==> !survivors(ts, tiles).contains(tile)),
    decreases ts.len(),
{
    let ops = slide_ops(ts, d, tiles);
    if ts.len() > 0 {
        let first = settle_op(ts[0], d);
        let after = ops_after_first(ts, d, tiles);
        let taken: int = if merges_first(ts, tiles) {
            2
        } else {
            1
        };
        let rest = ts.skip(taken);
        let rest_ops = slide_ops(rest, d + 1, tiles);
        assert(rising_from(rest, d + 1, n)) by {
            assert forall|a: int| 0 <= a < rest.len() implies d + 1 + a <= (#[trigger] rest[a]).col
                < n by {
                assert(rest[a] == ts[a + taken]);
                assert(ts[a + taken - 1].col < ts[a + taken].col);
            }
            assert forall|a: int, b: int| 0 <= a < b < rest.len() implies (#[trigger] rest[a]).col
                < (#[trigger] rest[b]).col by {
                assert(rest[a] == ts[a + taken]);
                assert(rest[b] == ts[b + taken]);
            }
        }
        lemma_ops_describe_pass(rest, d + 1, n, tiles);
        lemma_pass_keeps_tiles_apart(rest, d + 1, tiles);
        assert(distinct_tokens(ts) ==> distinct_tokens(rest)) by {
            assert forall|a: int, b: int|
                distinct_tokens(ts) && 0 <= a < rest.len() && 0 <= b < rest.len() && a
                    != b implies (#[trigger] rest[a]).tile != (#[trigger] rest[b]).tile by {
                assert(rest[a] == ts[a + taken]);
                assert(rest[b] == ts[b + taken]);
            }
        }
        assert forall|tile: TileId| among_tokens(rest, tile) implies among_tokens(ts, tile) && (
        distinct_tokens(ts) ==> tile != ts[0].tile && (taken == 2 ==> tile != ts[1].tile)) by {
            let a = choose|a: int| 0 <= a < rest.len() && (#[trigger] rest[a]).tile == tile;
            assert(rest[a] == ts[a + taken]);
            assert(ts[a + taken].tile == tile);
        }
        let lead: Seq<MoveOp> = if taken == 2 {
            first + seq![after[0]]
        } else {
            first
        };
        assert(ops =~= lead + rest_ops);
        assert(ts[0].col >= d);
        if taken == 2 {
            assert(ts[0].col < ts[1].col);
        }
        assert forall|i: int| 0 <= i < ops.len() implies {
            let op = #[trigger] ops[i];
            &&& d <= op.to < op.from < n
            &&& exists|a: int|
                0 <= a < ts.len() && (#[trigger] ts[a]).tile == op.tile && ts[a].col == op.from
        } by {
            let op = ops[i];
            if i < first.len() {
                assert(ts[0].tile == op.tile && ts[0].col == op.from);
            } else if i < lead.len() {
                assert(ts[1].tile == op.tile && ts[1].col == op.from);
            } else {
                let inner = rest_ops[i - lead.len()];
                assert(op == inner);
                let a = choose|a: int|
                    0 <= a < rest.len() && (#[trigger] rest[a]).tile == inner.tile && rest[a].col
                        == inner.from;
                assert(rest[a] == ts[a + taken]);
                assert(ts[a + taken].tile == op.tile);
            }
        }
        let s = survivors(ts, tiles);
        let rest_s = survivors(rest, tiles);
        assert(s =~= seq![ts[taken - 1].tile] + rest_s);
        assert forall|tile: TileId| ops_absorb(ops, tile) implies among_tokens(ts, tile) && (
        distinct_tokens(ts) ==> !s.contains(tile)) by {
            let i = choose|i: int| 0 <= i < ops.len() && (#[trigger] ops[i]).merged == Some(tile);
            if i < first.len() {
            } else if i < lead.len() {
                assert(tile == ts[0].tile);
                assert(among_tokens(ts, tile));
                if distinct_tokens(ts) && s.contains(tile) {
                    let c = choose|c: int| 0 <= c < s.len() && s[c] == tile;
                    if c > 0 {
                        assert(rest_s[c - 1] == tile);
                        assert(among_tokens(rest, rest_s[c - 1]));
                    }
                }
            } else {
                assert(rest_ops[i - lead.len()].merged == Some(tile));
                assert(ops_absorb(rest_ops, tile));
                assert(among_tokens(rest, tile));
                if distinct_tokens(ts) && s.contains(tile) {
                    let c = choose|c: int| 0 <= c < s.len() && s[c] == tile;
                    if c > 0 {
                        assert(rest_s[c - 1] == tile);
                        assert(rest_s.contains(tile));
                    }
                }
            }
        }
    }
}

/// Every move of the compaction of a row takes a tile of the row from its
/// column to a lower column; a tile that a move has absorbed is a tile of
/// the row, and is not in the compacted row when no tile stands in the row
/// twice.
pub proof fn lemma_ops_describe_row(row: Seq<Option<TileId>>, tiles: Seq<Option<Tile>>)
    requires
        row.len() <= usize::MAX,
    ensures
        forall|i: int|
            0 <= i < slid_ops(row, tiles).len() ==> {
                let op = #[trigger] slid_ops(row, tiles)[i];
                &&& op.to < op.from < row.len()
                &&& row[op.from as int] == Some(op.tile)
            },
        forall|tile: TileId| #[trigger]
            ops_absorb(slid_ops(row, tiles), tile) ==> has_tile(row, tile) && (distinct_tiles(row)
                ==> !has_tile(slid_row(row, tiles), tile)),
{
    let ts = row_tokens(row, 0);
    let ops = slid_ops(row, tiles);
    let s = survivors(ts, tiles);
    lemma_tokens_describe_row(row, 0);
    lemma_ops_describe_pass(ts, 0, row.len() as int, tiles);
    assert forall|i: int| 0 <= i < ops.len() implies {
        let op = #[trigger] ops[i];
        &&& op.to < op.from < row.len()
        &&& row[op.from as int] == Some(op.tile)
    } by {
        let op = ops[i];
        let a = choose|a: int|
            0 <= a < ts.len() && (#[trigger] ts[a]).tile == op.tile && ts[a].col == op.from;
        assert(row[ts[a].col] == Some(ts[a].tile));
    }
    assert forall|tile: TileId| ops_absorb(ops, tile) implies has_tile(row, tile) && (
    distinct_tiles(row) ==> !has_tile(slid_row(row, tiles), tile)) by {
        assert(ops_absorb(slide_ops(ts, 0, tiles), tile));
        assert(among_tokens(ts, tile));
        let a = choose|a: int| 0 <= a < ts.len() && (#[trigger] ts[a]).tile == tile;
        assert(row[ts[a].col] == Some(tile));
        if distinct_tiles(row) {
            assert(distinct_tokens(ts)) by {
                assert forall|a: int, b: int|
                    0 <= a < ts.len() && 0 <= b < ts.len() && a != b implies (
                #[trigger] ts[a]).tile != (#[trigger] ts[b]).tile by {
                    if a < b {
                        assert(ts[a].col < ts[b].col);
                    } else {
                        assert(ts[b].col < ts[a].col);
                    }
                    assert(row[ts[a].col] != row[ts[b].col]);
                }
            }
            if has_tile(slid_row(row, tiles), tile) {
                let c = choose|c: int|
                    0 <= c < row.len() && #[trigger] slid_row(row, tiles)[c] == Some(tile);
                assert(s[c] == tile);
                assert(s.contains(tile));
            }
        }
    }
}

/// Whether one of `ops` moves `tile`.
pub open spec fn ops_move(ops: Seq<MoveOp>, tile: TileId) -> bool {
    exists|i: int| 0 <= i < ops.len() && (#[trigger] ops[i]).tile == tile
}

/// Number of tiles that the first step of a pass settles: two that merge,
/// or one.
pub open spec fn first_taken(ts: Seq<Token>, tiles: Seq<Option<Tile>>) -> int {
    if merges_first(ts, tiles) {
        2
    } else {
        1
    }
}

/// The moves of the first step of a pass: that of the first tile to the
/// column `d`, if it is not there, and that of the second tile onto it, if
/// the two merge.
pub open spec fn first_ops(ts: Seq<Token>, d: int, tiles: Seq<Option<Tile>>) -> Seq<MoveOp> {
    if merges_first(ts, tiles) {
        settle_op(ts[0], d) + seq![
            MoveOp {
                tile: ts[1].tile,
                to: d as usize,
                from: ts[1].col as usize,
                merged: Some(ts[0].tile),
            },
        ]
    } else {
        settle_op(ts[0], d)
    }
}

/// A pass is its first step followed by the pass over the other tiles, which
/// are tokens of the same kind and share no tile with the first step.
pub proof fn lemma_pass_step(ts: Seq<Token>, d: int, n: int, tiles: Seq<Option<Tile>>)
    requires
        0 <= d,
        n <= usize::MAX,
        rising_from(ts, d, n),
        distinct_tokens(ts),
        ts.len() > 0,
    ensures
        ({
            let taken = first_taken(ts, tiles);
            let rest = ts.skip(taken);
            &&& rising_from(rest, d + 1, n)
            &&& distinct_tokens(rest)
            &&& slide_ops(ts, d, tiles) == first_ops(ts, d, tiles) + slide_ops(rest, d + 1, tiles)
            &&& survivors(ts, tiles) == seq![ts[taken - 1].tile] + survivors(rest, tiles)
            &&& forall|tile: TileId| #[trigger]
                among_tokens(rest, tile) ==> tile != ts[0].tile && (taken == 2 ==> tile
                    != ts[1].tile)
            &&& forall|i: int|
                0 <= i < slide_ops(rest, d + 1, tiles).len() ==> among_tokens(
                    rest,
                    (#[trigger] slide_ops(rest, d + 1, tiles)[i]).tile,
                )
            &&& forall|c: int|
                0 <= c < survivors(rest, tiles).len() ==> among_tokens(
                    rest,
                    #[trigger] survivors(rest, tiles)[c],
                )
            &&& forall|a: int| 0 <= a < rest.len() ==> #[trigger] rest[a] == ts[a + taken]
            &&& ts[0].col >= d
            &&& taken == 2 ==> ts[0].tile != ts[1].tile && ts[1].col > d
        }),
{
    let taken = first_taken(ts, tiles);
    let rest = ts.skip(taken);
    let rest_ops = slide_ops(rest, d + 1, tiles);
    assert(rising_from(rest, d + 1, n)) by {
        assert forall|a: int| 0 <= a < rest.len() implies d + 1 + a <= (#[trigger] rest[a]).col
            < n by {
            assert(rest[a] == ts[a + taken]);
            assert(ts[a + taken - 1].col < ts[a + taken].col);
        }
        assert forall|a: int, b: int| 0 <= a < b < rest.len() implies (#[trigger] rest[a]).col < (
        #[trigger] rest[b]).col by {
            assert(rest[a] == ts[a + taken]);
            assert(rest[b] == ts[b + taken]);
        }
    }
    assert(distinct_tokens(rest)) by {
        assert forall|a: int, b: int|
            0 <= a < rest.len() && 0 <= b < rest.len() && a != b implies (#[trigger] rest[a]).tile
            != (#[trigger] rest[b]).tile by {
            assert(rest[a] == ts[a + taken]);
            assert(rest[b] == ts[b + taken]);
        }
    }
    assert forall|tile: TileId| #[trigger] among_tokens(rest, tile) implies tile != ts[0].tile && (
    taken == 2 ==> tile != ts[1].tile) by {
        let a = choose|a: int| 0 <= a < rest.len() && (#[trigger] rest[a]).tile == tile;
        assert(rest[a] == ts[a + taken]);
        assert(ts[a + taken].tile == tile);
    }
    lemma_ops_describe_pass(rest, d + 1, n, tiles);
    lemma_pass_keeps_tiles_apart(rest, d + 1, tiles);
    assert forall|i: int| 0 <= i < rest_ops.len() implies among_tokens(
        rest,
        (#[trigger] rest_ops[i]).tile,
    ) by {
        let a = choose|a: int|
            0 <= a < rest.len() && (#[trigger] rest[a]).tile == rest_ops[i].tile && rest[a].col
                == rest_ops[i].from;
    }
    assert(slide_ops(ts, d, tiles) =~= first_ops(ts, d, tiles) + rest_ops);
    assert(survivors(ts, tiles) =~= seq![ts[taken - 1].tile] + survivors(rest, tiles));
    if taken == 2 {
        assert(ts[0].col < ts[1].col);
    }
}

/// No tile is moved twice in a pass whose tiles differ from one another.
pub proof fn lemma_pass_moves_once(ts: Seq<Token>, d: int, n: int, tiles: Seq<Option<Tile>>)
    requires
        0 <= d,
        n <= usize::MAX,
        rising_from(ts, d, n),
        distinct_tokens(ts),
    ensures
        forall|i: int, j: int|
            0 <= i < j < slide_ops(ts, d, tiles).len() ==> (#[trigger] slide_ops(
                ts,
                d,
                tiles,
            )[i]).tile != (#[trigger] slide_ops(ts, d, tiles)[j]).tile,
    decreases ts.len(),
{
    let ops = slide_ops(ts, d, tiles);
    if ts.len() > 0 {
        let lead = first_ops(ts, d, tiles);
        let rest = ts.skip(first_taken(ts, tiles));
        let rest_ops = slide_ops(rest, d + 1, tiles);
        lemma_pass_step(ts, d, n, tiles);
        lemma_pass_moves_once(rest, d + 1, n, tiles);
        assert forall|i: int, j: int| 0 <= i < j < ops.len() implies (#[trigger] ops[i]).tile != (
        #[trigger] ops[j]).tile by {
            if lead.len() <= i {
                assert(ops[i] == rest_ops[i - lead.len()]);
                assert(ops[j] == rest_ops[j - lead.len()]);
            } else if lead.len() <= j {
                assert(ops[j] == rest_ops[j - lead.len()]);
                assert(among_tokens(rest, ops[j].tile));
            }
        }
    }
}

/// In a pass whose tiles differ from one another, a tile that is left in the
/// column `d + c` is moved there by the move that moves it, and stood there
/// if none does.
pub proof fn lemma_pass_destinations(ts: Seq<Token>, d: int, n: int, tiles: Seq<Option<Tile>>)
    requires
        0 <= d,
        n <= usize::MAX,
        rising_from(ts, d, n),
        distinct_tokens(ts),
    ensures
        forall|c: int, i: int|
            0 <= c < survivors(ts, tiles).len() && 0 <= i < slide_ops(ts, d, tiles).len() && (
            #[trigger] slide_ops(ts, d, tiles)[i]).tile == #[trigger] survivors(ts, tiles)[c]
                ==> slide_ops(ts, d, tiles)[i].to == d + c,
        forall|c: int|
            0 <= c < survivors(ts, tiles).len() && !ops_move(
                slide_ops(ts, d, tiles),
                #[trigger] survivors(ts, tiles)[c],
            ) ==> exists|a: int|
                0 <= a < ts.len() && (#[trigger] ts[a]).tile == survivors(ts, tiles)[c]
                    && ts[a].col == d + c,
    decreases ts.len(),
{
    let ops = slide_ops(ts, d, tiles);
    let s = survivors(ts, tiles);
    if ts.len() > 0 {
        let taken = first_taken(ts, tiles);
        let lead = first_ops(ts, d, tiles);
        let rest = ts.skip(taken);
        let rest_ops = slide_ops(rest, d + 1, tiles);
        let rest_s = survivors(rest, tiles);
        lemma_pass_step(ts, d, n, tiles);
        lemma_pass_destinations(rest, d + 1, n, tiles);
        assert forall|c: int, i: int|
            0 <= c < s.len() && 0 <= i < ops.len() && (#[trigger] ops[i]).tile
                == #[trigger] s[c] implies ops[i].to == d + c by {
            if c == 0 {
                if lead.len() <= i {
                    assert(ops[i] == rest_ops[i - lead.len()]);
                    assert(among_tokens(rest, ops[i].tile));
                }
            } else {
                assert(s[c] == rest_s[c - 1]);
                assert(among_tokens(rest, rest_s[c - 1]));
                assert(ops[i] == rest_ops[i - lead.len()]);
            }
        }
        assert forall|c: int| 0 <= c < s.len() && !ops_move(ops, #[trigger] s[c]) implies exists|
            a: int,
        | 0 <= a < ts.len() && (#[trigger] ts[a]).tile == s[c] && ts[a].col == d + c by {
            if c == 0 {
                if taken == 2 {
                    assert(ops[lead.len() - 1].tile == s[0]);
                } else {
                    if ts[0].col != d {
                        assert(ops[0].tile == s[0]);
                    }
                    assert(ts[0].tile == s[0] && ts[0].col == d + 0);
                }
            } else {
                assert(s[c] == rest_s[c - 1]);
                if ops_move(rest_ops, rest_s[c - 1]) {
                    let i = choose|i: int|
                        0 <= i < rest_ops.len() && (#[trigger] rest_ops[i]).tile == rest_s[c - 1];
                    assert(ops[i + lead.len()].tile == s[c]);
                }
                let a = choose|a: int|
                    0 <= a < rest.len() && (#[trigger] rest[a]).tile == rest_s[c - 1] && rest[a].col
                        == d + 1 + (c - 1);
                assert(rest[a] == ts[a + taken]);
                assert(ts[a + taken].tile == s[c] && ts[a + taken].col == d + c);
            }
        }
    }
}

/// In a pass whose tiles differ from one another, a tile that is not left
/// was absorbed by a tile that is.
pub proof fn lemma_pass_absorbers(ts: Seq<Token>, d: int, n: int, tiles: Seq<Option<Tile>>)
    requires
        0 <= d,
        n <= usize::MAX,
        rising_from(ts, d, n),
        distinct_tokens(ts),
    ensures
        forall|a: int|
            0 <= a < ts.len() && !survivors(ts, tiles).contains((#[trigger] ts[a]).tile)
                ==> exists|i: int|
                0 <= i < slide_ops(ts, d, tiles).len() && (#[trigger] slide_ops(
                    ts,
                    d,
                    tiles,
                )[i]).merged == Some(ts[a].tile) && survivors(ts, tiles).contains(
                    slide_ops(ts, d, tiles)[i].tile,
                ),
    decreases ts.len(),
{
    let ops = slide_ops(ts, d, tiles);
    let s = survivors(ts, tiles);
    if ts.len() > 0 {
        let taken = first_taken(ts, tiles);
        let lead = first_ops(ts, d, tiles);
        let rest = ts.skip(taken);
        let rest_ops = slide_ops(rest, d + 1, tiles);
        let rest_s = survivors(rest, tiles);
        lemma_pass_step(ts, d, n, tiles);
        lemma_pass_absorbers(rest, d + 1, n, tiles);
        assert forall|a: int| 0 <= a < ts.len() && !s.contains((#[trigger] ts[a]).tile) implies exists|
            i: int,
        |
            0 <= i < ops.len() && (#[trigger] ops[i]).merged == Some(ts[a].tile) && s.contains(
                ops[i].tile,
            ) by {
            if a == taken - 1 {
                assert(s[0] == ts[a].tile);
            } else if a < taken {
                let i = lead.len() - 1;
                assert(ops[i].merged == Some(ts[0].tile));
                assert(s[0] == ops[i].tile);
            } else {
                assert(rest[a - taken] == ts[a]);
                if rest_s.contains(ts[a].tile) {
                    let c = choose|c: int| 0 <= c < rest_s.len() && rest_s[c] == ts[a].tile;
                    assert(s[c + 1] == ts[a].tile);
                }
                let i = choose|i: int|
                    0 <= i < rest_ops.len() && (#[trigger] rest_ops[i]).merged == Some(
                        rest[a - taken].tile,
                    ) && rest_s.contains(rest_ops[i].tile);
                assert(ops[i + lead.len()] == rest_ops[i]);
                let c = choose|c: int| 0 <= c < rest_s.len() && rest_s[c] == rest_ops[i].tile;
                assert(s[c + 1] == rest_ops[i].tile);
            }
        }
    }
}

/// What becomes of every tile of a row in which no tile stands twice. No tile
/// is moved twice. A tile of the compacted row is moved to its column by the
/// move that moves it, and stood there if none does. A tile that is not in
/// the compacted row was absorbed by a tile that is.
pub proof fn lemma_row_fates(row: Seq<Option<TileId>>, tiles: Seq<Option<Tile>>)
    requires
        row.len() <= usize::MAX,
        distinct_tiles(row),
    ensures
        forall|i: int, j: int|
            0 <= i < j < slid_ops(row, tiles).len() ==> (#[trigger] slid_ops(row, tiles)[i]).tile
                != (#[trigger] slid_ops(row, tiles)[j]).tile,
        forall|c: int, i: int|
            0 <= c < row.len() && 0 <= i < slid_ops(row, tiles).len() && #[trigger] slid_row(
                row,
                tiles,
            )[c] == Some((#[trigger] slid_ops(row, tiles)[i]).tile) ==> slid_ops(row, tiles)[i].to
                == c,
        forall|c: int|
            0 <= c < row.len() && (#[trigger] slid_row(row, tiles)[c]) is Some && !ops_move(
                slid_ops(row, tiles),
                slid_row(row, tiles)[c]->0,
            ) ==> row[c] == slid_row(row, tiles)[c],
        forall|tile: TileId|
            has_tile(row, tile) && !has_tile(slid_row(row, tiles), tile) ==> exists|i: int|
                0 <= i < slid_ops(row, tiles).len() && (#[trigger] slid_ops(row, tiles)[i]).merged
                    == Some(tile) && has_tile(slid_row(row, tiles), slid_ops(row, tiles)[i].tile),
{
    let ts = row_tokens(row, 0);
    let ops = slid_ops(row, tiles);
    let s = survivors(ts, tiles);
    let after = slid_row(row, tiles);
    lemma_tokens_describe_row(row, 0);
    lemma_no_ops_iff_in_place(ts, 0, tiles);
    assert(distinct_tokens(ts)) by {
        assert forall|a: int, b: int| 0 <= a < ts.len() && 0 <= b < ts.len() && a != b implies (
        #[trigger] ts[a]).tile != (#[trigger] ts[b]).tile by {
            if a < b {
                assert(ts[a].col < ts[b].col);
            } else {
                assert(ts[b].col < ts[a].col);
            }
            assert(row[ts[a].col] != row[ts[b].col]);
        }
    }
    assert(rising_from(ts, 0, row.len() as int));
    lemma_pass_moves_once(ts, 0, row.len() as int, tiles);
    lemma_pass_destinations(ts, 0, row.len() as int, tiles);
    lemma_pass_absorbers(ts, 0, row.len() as int, tiles);
    assert(ops == slide_ops(ts, 0, tiles));
    assert forall|c: int, i: int|
        0 <= c < row.len() && 0 <= i < ops.len() && #[trigger] after[c] == Some(
            (#[trigger] ops[i]).tile,
        ) implies ops[i].to == c by {
        assert(s[c] == ops[i].tile);
    }
    assert forall|c: int|
        0 <= c < row.len() && (#[trigger] after[c]) is Some && !ops_move(
            ops,
            after[c]->0,
        ) implies row[c] == after[c] by {
        assert(after[c]->0 == s[c]);
        let a = choose|a: int| 0 <= a < ts.len() && (#[trigger] ts[a]).tile == s[c] && ts[a].col
            == 0 + c;
        assert(row[ts[a].col] == Some(ts[a].tile));
    }
    assert forall|tile: TileId| has_tile(row, tile) && !has_tile(after, tile) implies exists|
        i: int,
    |
        0 <= i < ops.len() && (#[trigger] ops[i]).merged == Some(tile) && has_tile(
            after,
            ops[i].tile,
        ) by {
        let col = choose|col: int| 0 <= col < row.len() && #[trigger] row[col] == Some(tile);
        assert(row[col] is Some);
        let a = choose|a: int| 0 <= a < ts.len() && (#[trigger] ts[a]).col == col;
        assert(ts[a].tile == tile);
        if s.contains(tile) {
            let c = choose|c: int| 0 <= c < s.len() && s[c] == tile;
            assert(after[c] == Some(tile));
        }
        let i = choose|i: int|
            0 <= i < ops.len() && (#[trigger] ops[i]).merged == Some(ts[a].tile) && s.contains(
                ops[i].tile,
            );
        let c = choose|c: int| 0 <= c < s.len() && s[c] == ops[i].tile;
        assert(after[c] == Some(ops[i].tile));
    }
}

} // verus!

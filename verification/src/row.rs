//! Compaction of one row toward column 0, with pairwise merges.
//!
//! The tiles of a row, read from column 0 upward, are settled one by one into
//! the lowest free column. A tile that follows a tile of equal rank, which has
//! not itself absorbed a tile in this pass, takes that tile's place and
//! absorbs it.

use vstd::prelude::*;
use crate::components::{is_live, rank_of, Tile, TileId, Tiles};

verus! {

/// A move of one tile along its row: from column `from` to column `to`,
/// absorbing the tile `merged` there, if any.
#[derive(Copy, Clone, Eq, PartialEq, Debug)]
pub struct MoveOp {
    pub tile: TileId,
    pub to: usize,
    pub from: usize,
    pub merged: Option<TileId>,
}

/// A tile met while scanning a row, with the column it stands in.
pub struct Token {
    pub tile: TileId,
    pub col: int,
}

/// The tiles of `row` from column `from` upward, in scan order.
pub open spec fn row_tokens(row: Seq<Option<TileId>>, from: int) -> Seq<Token>
    decreases row.len() - from,
{
    if from < 0 || from >= row.len() {
        Seq::empty()
    } else {
        match row[from] {
            Some(tile) => seq![Token { tile, col: from }] + row_tokens(row, from + 1),
            None => row_tokens(row, from + 1),
        }
    }
}

/// Whether the first two tiles of `ts` merge: they exist and have equal rank.
pub open spec fn merges_first(ts: Seq<Token>, tiles: Seq<Option<Tile>>) -> bool {
    ts.len() >= 2 && rank_of(tiles, ts[0].tile) == rank_of(tiles, ts[1].tile)
}

/// The tiles that are left of `ts` after the pass, in order: of two tiles that
/// merge the second stays, and neither takes part in another merge.
pub open spec fn survivors(ts: Seq<Token>, tiles: Seq<Option<Tile>>) -> Seq<TileId>
    decreases ts.len(),
{
    if ts.len() == 0 {
        Seq::empty()
    } else if merges_first(ts, tiles) {
        seq![ts[1].tile] + survivors(ts.skip(2), tiles)
    } else {
        seq![ts[0].tile] + survivors(ts.skip(1), tiles)
    }
}

/// The move that brings the tile `t` to column `d`, if it is not there.
pub open spec fn settle_op(t: Token, d: int) -> Seq<MoveOp> {
    if t.col != d {
        seq![MoveOp { tile: t.tile, to: d as usize, from: t.col as usize, merged: None }]
    } else {
        Seq::empty()
    }
}

/// The moves of the pass over `ts` once its first tile stands in column `d`,
/// the lowest free column.
pub open spec fn ops_after_first(ts: Seq<Token>, d: int, tiles: Seq<Option<Tile>>) -> Seq<MoveOp>
    decreases ts.len(), 0int,
{
    if ts.len() == 0 {
        Seq::empty()
    } else if merges_first(ts, tiles) {
        seq![
            MoveOp {
                tile: ts[1].tile,
                to: d as usize,
                from: ts[1].col as usize,
                merged: Some(ts[0].tile),
            },
        ] + slide_ops(ts.skip(2), d + 1, tiles)
    } else {
        slide_ops(ts.skip(1), d + 1, tiles)
    }
}

/// The moves of the pass over `ts` into the columns from `d` upward, in scan
/// order of the tiles that move.
pub open spec fn slide_ops(ts: Seq<Token>, d: int, tiles: Seq<Option<Tile>>) -> Seq<MoveOp>
    decreases ts.len(), 1int,
{
    if ts.len() == 0 {
        Seq::empty()
    } else {
        settle_op(ts[0], d) + ops_after_first(ts, d, tiles)
    }
}

/// The row after the pass: the surviving tiles in the lowest columns, the
/// other cells empty.
pub open spec fn slid_row(row: Seq<Option<TileId>>, tiles: Seq<Option<Tile>>) -> Seq<
    Option<TileId>,
> {
    let s = survivors(row_tokens(row, 0), tiles);
    Seq::new(
        row.len(),
        |c: int|
            if c < s.len() {
                Some(s[c])
            } else {
                None
            },
    )
}

/// The moves of the pass over `row`.
pub open spec fn slid_ops(row: Seq<Option<TileId>>, tiles: Seq<Option<Tile>>) -> Seq<MoveOp> {
    slide_ops(row_tokens(row, 0), 0, tiles)
}

/// Every tile of `row` exists in `tiles`.
pub open spec fn row_live(row: Seq<Option<TileId>>, tiles: Seq<Option<Tile>>) -> bool {
    forall|c: int| 0 <= c < row.len() && row[c] is Some ==> is_live(tiles, #[trigger] row[c]->0)
}

/// Empty cells contribute no tiles.
pub proof fn lemma_tokens_skip_empty(row: Seq<Option<TileId>>, a: int, b: int)
    requires
        0 <= a <= b <= row.len(),
        forall|c: int| a <= c < b ==> row[c] is None,
    ensures
        row_tokens(row, a) == row_tokens(row, b),
    decreases b - a,
{
    if a < b {
        lemma_tokens_skip_empty(row, a + 1, b);
    }
}

/// The tiles from a column upward depend only on the cells from that column
/// upward.
pub proof fn lemma_tokens_agree(row1: Seq<Option<TileId>>, row2: Seq<Option<TileId>>, from: int)
    requires
        row1.len() == row2.len(),
        0 <= from,
        forall|c: int| from <= c < row1.len() ==> row1[c] == row2[c],
    ensures
        row_tokens(row1, from) == row_tokens(row2, from),
    decreases row1.len() - from,
{
    if from < row1.len() {
        lemma_tokens_agree(row1, row2, from + 1);
    }
}

/// What follows the settling of the first tile does not depend on the column
/// that tile came from.
pub proof fn lemma_first_column_irrelevant(
    a: Token,
    b: Token,
    rest: Seq<Token>,
    d: int,
    tiles: Seq<Option<Tile>>,
)
    requires
        a.tile == b.tile,
    ensures
        ops_after_first(seq![a] + rest, d, tiles) == ops_after_first(seq![b] + rest, d, tiles),
        survivors(seq![a] + rest, tiles) == survivors(seq![b] + rest, tiles),
{
    let ta = seq![a] + rest;
    let tb = seq![b] + rest;
    assert(ta.skip(1) =~= rest);
    assert(tb.skip(1) =~= rest);
    if rest.len() >= 1 {
        assert(ta[1] == rest[0]);
        assert(tb[1] == rest[0]);
        assert(ta.skip(2) =~= rest.skip(1));
        assert(tb.skip(2) =~= rest.skip(1));
    }
}

/// The tiles that stand in the columns below `next`, all of them occupied.
pub open spec fn settled_prefix(row: Seq<Option<TileId>>, next: int) -> Seq<TileId> {
    Seq::new(next as nat, |c: int| row[c]->0)
}

/// The tiles of a row from an occupied or empty column `next` upward, when
/// the columns between `next` and `cur` are empty.
proof fn lemma_tokens_across_gap(row: Seq<Option<TileId>>, next: int, cur: int)
    requires
        0 <= next < cur <= row.len(),
        forall|c: int| next < c < cur ==> row[c] is None,
    ensures
        row_tokens(row, next) == (match row[next] {
            Some(tile) => seq![Token { tile, col: next }],
            None => Seq::empty(),
        }) + row_tokens(row, cur),
{
    lemma_tokens_skip_empty(row, next + 1, cur);
    match row[next] {
        Some(tile) => {},
        None => {
            assert(Seq::<Token>::empty() + row_tokens(row, cur) =~= row_tokens(row, cur));
        },
    }
}

/// Compacts `row` toward column 0 and returns the moves that were made, in
/// scan order of the tiles that moved.
///
/// A tile that meets a tile of equal rank in the column it would stop
/// behind takes that tile's column and absorbs it; the column then counts as
/// finished, so that no tile takes part in two merges.
pub fn process_row(row: &mut Vec<Option<TileId>>, tiles: &Tiles) -> (moves: Vec<MoveOp>)
    requires
        row_live(old(row)@, tiles@),
    ensures
        final(row)@ == slid_row(old(row)@, tiles@),
        moves@ == slid_ops(old(row)@, tiles@),
        forall|i: int| 0 <= i < moves@.len() ==> (#[trigger] moves@[i]).to < moves@[i].from < old(
            row,
        )@.len(),
{
    let mut moves: Vec<MoveOp> = Vec::new();
    let n = row.len();
    let ghost orig = row@;
    if n == 0 {
        proof {
            assert(row@ =~= slid_row(orig, tiles@));
        }
        return moves;
    }
    let mut next: usize = 0;
    let mut cur: usize = 1;
    proof {
        assert(settled_prefix(row@, 0) + survivors(row_tokens(row@, 0), tiles@) =~= survivors(
            row_tokens(orig, 0),
            tiles@,
        ));
        assert(moves@ + slide_ops(row_tokens(row@, 0), 0, tiles@) =~= slide_ops(
            row_tokens(orig, 0),
            0,
            tiles@,
        ));
    }
    while cur < n
        invariant
            n == orig.len(),
            row@.len() == n,
            next < cur <= n,
            row_live(row@, tiles@),
            forall|i: int| 0 <= i < moves@.len() ==> (#[trigger] moves@[i]).to < moves@[i].from < n,
            forall|c: int| next < c < cur ==> row@[c] is None,
            forall|c: int| cur <= c < n ==> row@[c] == orig[c],
            forall|c: int| 0 <= c < next ==> row@[c] is Some,
            settled_prefix(row@, next as int) + survivors(row_tokens(row@, next as int), tiles@)
                == survivors(row_tokens(orig, 0), tiles@),
            moves@ + slide_ops(row_tokens(row@, next as int), next as int, tiles@) == slide_ops(
                row_tokens(orig, 0),
                0,
                tiles@,
            ),
        decreases n - cur,
    {
        let ghost before = row@;
        let ghost rest = row_tokens(before, cur + 1);
        proof {
            lemma_tokens_across_gap(before, next as int, cur as int);
        }
        match row[cur] {
            None => {},
            Some(current) => {
                let ghost arriving = Token { tile: current, col: cur as int };
                let ghost arrived = Token { tile: current, col: next as int };
                assert(row_tokens(before, cur as int) == seq![arriving] + rest);
                row.set(cur, None);
                match row[next] {
                    Some(target) => {
                        let ghost waiting = Token { tile: target, col: next as int };
                        let ghost pair = seq![waiting] + (seq![arriving] + rest);
                        assert(row_tokens(before, next as int) == pair);
                        assert(pair[0] == waiting);
                        assert(pair[1] == arriving);
                        assert(pair.skip(1) =~= seq![arriving] + rest);
                        assert(pair.skip(2) =~= rest);
                        assert(is_live(tiles@, before[cur as int]->0));
                        assert(is_live(tiles@, before[next as int]->0));
                        let current_value = tiles.value_of(current);
                        let target_value = tiles.value_of(target);
                        if current_value == target_value {
                            row.set(next, Some(current));
                            moves.push(
                                MoveOp { tile: current, to: next, from: cur, merged: Some(target) },
                            );
                            proof {
                                assert(merges_first(pair, tiles@));
                                lemma_tokens_skip_empty(row@, next + 1, cur + 1);
                                lemma_tokens_agree(row@, before, cur + 1);
                                assert(settled_prefix(row@, next + 1) =~= settled_prefix(
                                    before,
                                    next as int,
                                ) + seq![current]);
                                assert(settled_prefix(row@, next + 1) + survivors(rest, tiles@)
                                    =~= settled_prefix(before, next as int) + survivors(
                                    pair,
                                    tiles@,
                                ));
                                assert(moves@ + slide_ops(rest, next + 1, tiles@) =~= moves@.drop_last()
                                    + slide_ops(pair, next as int, tiles@));
                            }
                        } else {
                            row.set(next + 1, Some(current));
                            if cur != next + 1 {
                                moves.push(
                                    MoveOp { tile: current, to: next + 1, from: cur, merged: None },
                                );
                            }
                            proof {
                                let placed = Token { tile: current, col: next + 1 };
                                assert(!merges_first(pair, tiles@));
                                lemma_tokens_across_gap(row@, next + 1, cur + 1);
                                lemma_tokens_agree(row@, before, cur + 1);
                                assert(row_tokens(row@, next + 1) == seq![placed] + rest);
                                lemma_first_column_irrelevant(
                                    arriving,
                                    placed,
                                    rest,
                                    next + 1,
                                    tiles@,
                                );
                                assert(settled_prefix(row@, next + 1) =~= settled_prefix(
                                    before,
                                    next as int,
                                ) + seq![target]);
                                assert(settled_prefix(row@, next + 1) + survivors(
                                    seq![placed] + rest,
                                    tiles@,
                                ) =~= settled_prefix(before, next as int) + survivors(
                                    pair,
                                    tiles@,
                                ));
                                let ghost shown = if cur != next + 1 {
                                    moves@.drop_last()
                                } else {
                                    moves@
                                };
                                let moved = seq![arriving] + rest;
                                let stays = seq![placed] + rest;
                                assert(moved[0] == arriving);
                                assert(stays[0] == placed);
                                assert(slide_ops(pair, next as int, tiles@) =~= slide_ops(
                                    moved,
                                    next + 1,
                                    tiles@,
                                ));
                                assert(slide_ops(moved, next + 1, tiles@) =~= settle_op(
                                    arriving,
                                    next + 1,
                                ) + ops_after_first(moved, next + 1, tiles@));
                                assert(slide_ops(stays, next + 1, tiles@) =~= ops_after_first(
                                    stays,
                                    next + 1,
                                    tiles@,
                                ));
                                assert(moves@ + slide_ops(seq![placed] + rest, next + 1, tiles@)
                                    =~= shown + slide_ops(pair, next as int, tiles@));
                            }
                        }
                        next += 1;
                    },
                    None => {
                        row.set(next, Some(current));
                        moves.push(MoveOp { tile: current, to: next, from: cur, merged: None });
                        proof {
                            assert(row_tokens(before, next as int) =~= seq![arriving] + rest);
                            lemma_tokens_across_gap(row@, next as int, cur + 1);
                            lemma_tokens_agree(row@, before, cur + 1);
                            assert(row_tokens(row@, next as int) == seq![arrived] + rest);
                            lemma_first_column_irrelevant(
                                arriving,
                                arrived,
                                rest,
                                next as int,
                                tiles@,
                            );
                            assert(settled_prefix(row@, next as int) =~= settled_prefix(
                                before,
                                next as int,
                            ));
                            assert(moves@ + slide_ops(seq![arrived] + rest, next as int, tiles@)
                                =~= moves@.drop_last() + slide_ops(
                                seq![arriving] + rest,
                                next as int,
                                tiles@,
                            ));
                        }
                    },
                }
            },
        }
        cur += 1;
    }
    proof {
        let last = row_tokens(row@, next as int);
        lemma_tokens_across_gap(row@, next as int, n as int);
        assert(row_tokens(row@, n as int) =~= Seq::<Token>::empty());
        match row@[next as int] {
            Some(tile) => {
                let waiting = Token { tile, col: next as int };
                assert(last =~= seq![waiting]);
                assert(last.skip(1) =~= Seq::<Token>::empty());
                assert(survivors(Seq::<Token>::empty(), tiles@) =~= Seq::<TileId>::empty());
                assert(slide_ops(Seq::<Token>::empty(), next + 1, tiles@) =~= Seq::<
                    MoveOp,
                >::empty());
                assert(ops_after_first(last, next as int, tiles@) =~= Seq::<MoveOp>::empty());
                assert(survivors(last, tiles@) =~= seq![tile]);
                assert(slide_ops(last, next as int, tiles@) =~= Seq::<MoveOp>::empty());
            },
            None => {
                assert(last =~= Seq::<Token>::empty());
            },
        }
        assert(row@ =~= slid_row(orig, tiles@));
        assert(moves@ =~= slid_ops(orig, tiles@));
    }
    moves
}

} // verus!

//! A slide of the whole board in one direction.
//!
//! The board is rotated so that the slide runs toward column 0, every row is
//! compacted on its own, and the result is rotated back. The moves of the
//! rows are reported in the coordinates of the board as it was handed in.

use vstd::prelude::*;
use crate::board::cells_live;
use crate::components::{
    is_live, Board, BoardStateResource, Direction, DirectionMessage, GameParams, Position,
    QueuedMoveMessage, RotateBy, Tile, TileId, Tiles, Timer,
};
use crate::states::GameState;
use crate::grid::{lemma_cell_index_bounds, lemma_cell_index_unique};
use crate::rotation::{
    lemma_rotation_source_inverse, rotate_board, rotate_index, rotated_cells, rotated_position,
    rotation_source,
};
use crate::row::{process_row, row_live, slid_ops, slid_row, MoveOp};

verus! {

/// Row `r` of a grid of side `n`.
pub open spec fn row_of(cells: Seq<Option<TileId>>, n: int, r: int) -> Seq<Option<TileId>> {
    cells.subrange(r * n, r * n + n)
}

/// The grid after every row has been compacted toward column 0.
pub open spec fn slid_cells(cells: Seq<Option<TileId>>, n: int, tiles: Seq<Option<Tile>>) -> Seq<
    Option<TileId>,
> {
    Seq::new((n * n) as nat, |k: int| slid_row(row_of(cells, n, k / n), tiles)[k % n])
}

/// A fresh countdown of `move_time` time units.
pub open spec fn fresh_timer(move_time: u64) -> Timer {
    Timer { duration: move_time, elapsed: 0, finished: false }
}

/// The instruction for the move `op` in row `r` of the board rotated by
/// `by`, in the coordinates of the board before that rotation.
pub open spec fn message_of(op: MoveOp, n: int, r: int, by: RotateBy, move_time: u64)
    -> QueuedMoveMessage {
    let to = rotated_position(n, op.to as int, r, by.reverted());
    let from = rotated_position(n, op.from as int, r, by.reverted());
    QueuedMoveMessage(
        op.tile,
        Position(to.0 as usize, to.1 as usize),
        fresh_timer(move_time),
        op.merged,
        Position(from.0 as usize, from.1 as usize),
    )
}

/// The instructions for the moves `ops` of row `r`, in their order.
pub open spec fn row_messages(ops: Seq<MoveOp>, n: int, r: int, by: RotateBy, move_time: u64)
    -> Seq<QueuedMoveMessage> {
    Seq::new(ops.len(), |i: int| message_of(ops[i], n, r, by, move_time))
}

/// The instructions for the first `rows` rows of the rotated board `cells`,
/// row after row.
pub open spec fn messages_upto(
    cells: Seq<Option<TileId>>,
    n: int,
    rows: int,
    by: RotateBy,
    tiles: Seq<Option<Tile>>,
    move_time: u64,
) -> Seq<QueuedMoveMessage>
    decreases rows,
{
    if rows <= 0 {
        Seq::empty()
    } else {
        messages_upto(cells, n, rows - 1, by, tiles, move_time) + row_messages(
            slid_ops(row_of(cells, n, rows - 1), tiles),
            n,
            rows - 1,
            by,
            move_time,
        )
    }
}

/// The board after a slide in `direction`.
pub open spec fn resolved_cells(
    cells: Seq<Option<TileId>>,
    n: int,
    direction: Direction,
    tiles: Seq<Option<Tile>>,
) -> Seq<Option<TileId>> {
    let by = RotateBy::of_direction(direction);
    rotated_cells(slid_cells(rotated_cells(cells, n, by), n, tiles), n, by.reverted())
}

/// The move instructions of a slide in `direction`.
pub open spec fn resolved_moves(
    cells: Seq<Option<TileId>>,
    n: int,
    direction: Direction,
    tiles: Seq<Option<Tile>>,
    move_time: u64,
) -> Seq<QueuedMoveMessage> {
    let by = RotateBy::of_direction(direction);
    messages_upto(rotated_cells(cells, n, by), n, n, by, tiles, move_time)
}

/// A rotation carries live tiles to every row.
proof fn lemma_rotated_row_live(
    cells: Seq<Option<TileId>>,
    n: int,
    by: RotateBy,
    r: int,
    tiles: Seq<Option<Tile>>,
)
    requires
        cells.len() == n * n,
        0 <= r < n,
        cells_live(cells, tiles),
    ensures
        row_live(row_of(rotated_cells(cells, n, by), n, r), tiles),
{
    let rotated = rotated_cells(cells, n, by);
    let row = row_of(rotated, n, r);
    lemma_cell_index_bounds(n, 0, r);
    assert forall|c: int| 0 <= c < row.len() && row[c] is Some implies is_live(
        tiles,
        #[trigger] row[c]->0,
    ) by {
        lemma_cell_index_bounds(n, c, r);
        lemma_rotation_source_inverse(n, r * n + c, by);
        assert(row[c] == cells[rotation_source(n, r * n + c, by)]);
    }
}

/// Slides the board in `direction`: returns the board after the slide and the
/// instructions for the tiles that move, row after row of the rotated board
/// and within a row in scan order.
pub fn resolve<const N: usize>(
    board: &Board<N, TileId>,
    direction: &Direction,
    tiles: &Tiles,
    move_time: u64,
) -> (out: (Board<N, TileId>, Vec<QueuedMoveMessage>))
    requires
        board.wf(),
        cells_live(board.cells(), tiles@),
    ensures
        out.0.wf(),
        out.0.cells() == resolved_cells(board.cells(), N as int, *direction, tiles@),
        out.1@ == resolved_moves(board.cells(), N as int, *direction, tiles@, move_time),
{
    let by = RotateBy::from_direction(direction);
    let back = by.revert();
    let rotated = rotate_board(board, by);
    let total = rotated.0.len();
    let mut slid: Vec<Option<TileId>> = Vec::new();
    let mut messages: Vec<QueuedMoveMessage> = Vec::new();
    let mut r: usize = 0;
    while r < N
        invariant
            r <= N,
            board.wf(),
            cells_live(board.cells(), tiles@),
            rotated.cells() == rotated_cells(board.cells(), N as int, by),
            rotated.wf(),
            total == N * N,
            back == by.reverted(),
            slid@.len() == r * N,
            forall|k: int|
                0 <= k < slid@.len() ==> slid@[k] == #[trigger] slid_cells(
                    rotated.cells(),
                    N as int,
                    tiles@,
                )[k],
            messages@ == messages_upto(rotated.cells(), N as int, r as int, by, tiles@, move_time),
        decreases N - r,
    {
        let ghost source = row_of(rotated.cells(), N as int, r as int);
        proof {
            lemma_cell_index_bounds(N as int, 0, r as int);
            lemma_rotated_row_live(board.cells(), N as int, by, r as int, tiles@);
        }
        let mut line: Vec<Option<TileId>> = Vec::new();
        let mut c: usize = 0;
        while c < N
            invariant
                r < N,
                c <= N,
                rotated.wf(),
                total == N * N,
                r * N + N <= N * N,
                line@ == rotated.cells().subrange(r * N, r * N + c),
            decreases N - c,
        {
            line.push(rotated.0[c + r * N]);
            proof {
                assert(line@ =~= rotated.cells().subrange(r * N, r * N + c + 1));
            }
            c += 1;
        }
        let ops = process_row(&mut line, tiles);
        let ghost before = messages@;
        let mut i: usize = 0;
        while i < ops.len()
            invariant
                r < N,
                i <= ops.len(),
                back == by.reverted(),
                forall|j: int|
                    0 <= j < ops@.len() ==> (#[trigger] ops@[j]).to < ops@[j].from < N,
                messages@ == before + row_messages(ops@, N as int, r as int, by, move_time).take(
                    i as int,
                ),
            decreases ops.len() - i,
        {
            let op = ops[i];
            let (to_col, to_row) = rotate_index::<N>(op.to, r, back);
            let (from_col, from_row) = rotate_index::<N>(op.from, r, back);
            messages.push(
                QueuedMoveMessage(
                    op.tile,
                    Position(to_col, to_row),
                    Timer::new(move_time),
                    op.merged,
                    Position(from_col, from_row),
                ),
            );
            proof {
                let all = row_messages(ops@, N as int, r as int, by, move_time);
                assert(all.take(i + 1) =~= all.take(i as int).push(all[i as int]));
                assert(messages@ =~= before + all.take(i + 1));
            }
            i += 1;
        }
        proof {
            let all = row_messages(ops@, N as int, r as int, by, move_time);
            assert(all.take(i as int) =~= all);
        }
        let ghost settled = slid@;
        let mut c: usize = 0;
        while c < N
            invariant
                c <= N,
                line@.len() == N,
                slid@ == settled + line@.take(c as int),
            decreases N - c,
        {
            slid.push(line[c]);
            proof {
                assert(line@.take(c + 1) =~= line@.take(c as int).push(line@[c as int]));
                assert(slid@ =~= settled + line@.take(c + 1));
            }
            c += 1;
        }
        proof {
            assert((r + 1) * N == r * N + N) by (nonlinear_arith);
            assert forall|k: int| 0 <= k < slid@.len() implies slid@[k] == #[trigger] slid_cells(
                rotated.cells(),
                N as int,
                tiles@,
            )[k] by {
                if k >= r * N {
                    let col = k - r * N;
                    lemma_cell_index_unique(N as int, col, r as int);
                    assert(slid@[k] == line@[col]);
                }
            }
        }
        r += 1;
    }
    proof {
        assert(slid@ =~= slid_cells(rotated.cells(), N as int, tiles@));
    }
    let compacted: Board<N, TileId> = Board(slid);
    let resolved = rotate_board(&compacted, back);
    (resolved, messages)
}

/// Handles the directional intents of one turn. Without an intent nothing
/// happens. Otherwise the first intent is honoured and the others are
/// dropped: the board is slid in that direction; when the slide leaves the
/// board as it was, the game goes back to `Wait`; otherwise the board after
/// the slide becomes the board of the game, and the game goes on to
/// `Movement`. Returns the next phase, if any, and the move instructions of
/// the slide.
pub fn process_direction_messages<const N: usize>(
    board_state: &mut BoardStateResource<N>,
    params: &GameParams,
    direction_message: &Vec<DirectionMessage>,
    tiles: &Tiles,
) -> (out: (Option<GameState>, Vec<QueuedMoveMessage>))
    requires
        old(board_state).0.wf(),
        cells_live(old(board_state).0.cells(), tiles@),
    ensures
        final(board_state).0.wf(),
        direction_message@.len() == 0 ==> out.0 is None && out.1@.len() == 0
            && final(board_state).0.cells() == old(board_state).0.cells(),
        direction_message@.len() > 0 ==> {
            let before = old(board_state).0.cells();
            let after = resolved_cells(before, N as int, direction_message@[0].0, tiles@);
            &&& final(board_state).0.cells() == after
            &&& out.1@ == resolved_moves(
                before,
                N as int,
                direction_message@[0].0,
                tiles@,
                params.move_time,
            )
            &&& out.0 == Some(
                if after == before {
                    GameState::Wait
                } else {
                    GameState::Movement
                },
            )
        },
{
    if direction_message.len() == 0 {
        return (None, Vec::new());
    }
    let message = direction_message[0];
    let (new_board, moves) = resolve(&board_state.0, &message.0, tiles, params.move_time);
    proof {
        crate::resolver_laws::lemma_resolve_unchanged_iff_no_moves(
            board_state.0.cells(),
            N as int,
            message.0,
            tiles@,
            params.move_time,
        );
    }
    if moves.len() == 0 {
        (Some(GameState::Wait), moves)
    } else {
        board_state.0 = new_board;
        (Some(GameState::Movement), moves)
    }
}

} // verus!

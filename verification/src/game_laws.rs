//! What holds of a game between its steps, and why every step keeps it.

use vstd::prelude::*;
use crate::board::{cells_live, distinct_tiles, has_tile};
use crate::components::{
    is_live, rank_of, DirectionMessage, GameParams, Position, Tile, TileId,
};
use crate::grid::{cell_index, lemma_cell_index_bounds, lemma_cell_index_split, lemma_cell_index_unique};
use crate::movement::{
    absorbed_now, advanced, completes, enqueued, lemma_enqueued_keeps_tiles, lemma_enqueued_named,
    merge_target, moved_tiles, moves_name, ranks_can_rise, settled, with_move,
};
use crate::resolver::{resolved_cells, resolved_moves};
use crate::resolver_laws::{
    cell_position, lemma_resolve_absorbers, lemma_resolve_destinations, lemma_resolve_keeps_tiles,
    lemma_resolve_moved_has_room, lemma_resolve_moves_describe, lemma_resolve_moves_once,
    lemma_resolve_unchanged_iff_no_moves,
};
use crate::spawn::HIGH_RANK;
use crate::states::GameState;
use crate::terminal::outcome;

verus! {

/// The rank that a tile has once its move has ended.
pub open spec fn settled_rank(tile: Tile) -> int {
    tile.value.0 + if merge_target(tile) is Some {
        1int
    } else {
        0int
    }
}

/// The cell that a tile rests in or is on its way to.
pub open spec fn heading(tile: Tile) -> Position {
    match tile.queued {
        Some(queued) => queued.0,
        None => tile.position,
    }
}

/// No tile has or will have, once its move has ended, a rank above
/// `win_rank`.
pub open spec fn ranks_within(slots: Seq<Option<Tile>>, win_rank: usize) -> bool {
    forall|i: int|
        0 <= i < slots.len() && (#[trigger] slots[i]) is Some ==> settled_rank(slots[i]->0)
            <= win_rank
}

/// Every tile on the board has a rank below `win_rank`.
pub open spec fn board_ranks_below(
    cells: Seq<Option<TileId>>,
    slots: Seq<Option<Tile>>,
    win_rank: usize,
) -> bool {
    forall|k: int|
        0 <= k < cells.len() && (#[trigger] cells[k]) is Some ==> rank_of(slots, cells[k]->0)
            < win_rank
}

/// No tile on the board is to be absorbed by a tile that is in the middle of
/// a move.
pub open spec fn none_absorbed(cells: Seq<Option<TileId>>, slots: Seq<Option<Tile>>) -> bool {
    forall|i: int|
        0 <= i < slots.len() && (#[trigger] slots[i]) is Some && merge_target(slots[i]->0) is Some
            ==> !has_tile(cells, merge_target(slots[i]->0)->0)
}

/// Whether the tile `id` is to be absorbed by a tile on the board that is in
/// the middle of a move.
pub open spec fn awaits_absorber(
    cells: Seq<Option<TileId>>,
    slots: Seq<Option<Tile>>,
    id: TileId,
) -> bool {
    exists|j: int|
        0 <= j < slots.len() && (#[trigger] slots[j]) is Some && has_tile(cells, TileId(j as usize))
            && merge_target(slots[j]->0) == Some(id)
}

/// Every tile that exists is on the board or is to be absorbed by a tile on
/// the board.
pub open spec fn tiles_accounted(cells: Seq<Option<TileId>>, slots: Seq<Option<Tile>>) -> bool {
    forall|i: int|
        0 <= i < slots.len() && (#[trigger] slots[i]) is Some ==> has_tile(cells, TileId(i as usize))
            || awaits_absorber(cells, slots, TileId(i as usize))
}

/// Every tile on the board rests in its cell or is on its way to it.
pub open spec fn tiles_in_step(cells: Seq<Option<TileId>>, n: int, slots: Seq<Option<Tile>>)
    -> bool {
    forall|k: int|
        0 <= k < cells.len() && (#[trigger] cells[k]) is Some ==> heading(
            slots[(cells[k]->0).0 as int]->0,
        ) == cell_position(n, k)
}

/// Some cell is empty.
pub open spec fn has_room(cells: Seq<Option<TileId>>) -> bool {
    exists|k: int| 0 <= k < cells.len() && (#[trigger] cells[k]) is None
}

/// What holds of a game between steps. The board is square and holds every
/// tile once, and only tiles that exist; every tile that exists is on the
/// board or about to be absorbed by one that is, and none on the board is
/// about to be absorbed; every tile on the board rests in its cell or is on
/// its way to it; ranks stay within the winning rank, and below it on the
/// board while a slide can still come; tiles move only in the `Movement`
/// phase; a cell is empty whenever a tile is about to be put on the board;
/// and a slide has an intent to go by.
pub open spec fn game_wf(
    state: GameState,
    cells: Seq<Option<TileId>>,
    n: int,
    slots: Seq<Option<Tile>>,
    params: GameParams,
    intent: Option<DirectionMessage>,
) -> bool {
    &&& 0 <= n <= usize::MAX
    &&& cells.len() == n * n
    &&& slots.len() <= usize::MAX
    &&& params.valid()
    &&& cells_live(cells, slots)
    &&& distinct_tiles(cells)
    &&& tiles_accounted(cells, slots)
    &&& none_absorbed(cells, slots)
    &&& tiles_in_step(cells, n, slots)
    &&& ranks_within(slots, params.win_rank)
    &&& state != GameState::Movement ==> settled(slots)
    &&& state == GameState::Wait || state == GameState::Process ==> board_ranks_below(
        cells,
        slots,
        params.win_rank,
    )
    &&& state == GameState::Movement || state == GameState::Decision ==> has_room(cells)
    &&& state == GameState::Process ==> intent is Some
}

/// A board and tiles that a game can begin a turn with: the board is square;
/// every tile on it exists, rests in the cell that holds it and has a rank
/// below the winning rank; and every tile that exists rests in a cell of the
/// board that holds it.
pub open spec fn well_set(
    cells: Seq<Option<TileId>>,
    n: int,
    slots: Seq<Option<Tile>>,
    params: GameParams,
) -> bool {
    &&& 0 <= n <= usize::MAX
    &&& cells.len() == n * n
    &&& slots.len() <= usize::MAX
    &&& params.valid()
    &&& forall|k: int|
        0 <= k < cells.len() && (#[trigger] cells[k]) is Some ==> {
            let id = cells[k]->0;
            &&& is_live(slots, id)
            &&& slots[id.0 as int]->0.queued is None
            &&& slots[id.0 as int]->0.position == cell_position(n, k)
            &&& slots[id.0 as int]->0.value.0 < params.win_rank
        }
    &&& forall|i: int|
        0 <= i < slots.len() && (#[trigger] slots[i]) is Some ==> {
            let at = slots[i]->0.position;
            &&& at.0 < n && at.1 < n
            &&& cells[cell_index(n, at.0 as int, at.1 as int)] == Some(TileId(i as usize))
        }
}

/// A board and tiles that are well set make a game that waits.
pub proof fn lemma_well_set_waits(
    cells: Seq<Option<TileId>>,
    n: int,
    slots: Seq<Option<Tile>>,
    params: GameParams,
    intent: Option<DirectionMessage>,
)
    requires
        well_set(cells, n, slots, params),
    ensures
        game_wf(GameState::Wait, cells, n, slots, params, intent),
{
    assert forall|i: int| 0 <= i < slots.len() && (#[trigger] slots[i]) is Some implies has_tile(
        cells,
        TileId(i as usize),
    ) && slots[i]->0.queued is None && slots[i]->0.value.0 < params.win_rank by {
        let at = slots[i]->0.position;
        lemma_cell_index_bounds(n, at.0 as int, at.1 as int);
        let k = cell_index(n, at.0 as int, at.1 as int);
        assert(cells[k] == Some(TileId(i as usize)));
    }
    assert forall|a: int, b: int|
        0 <= a < cells.len() && 0 <= b < cells.len() && a != b && (
        #[trigger] cells[a]) is Some implies cells[a] != #[trigger] cells[b] by {
        if cells[a] == cells[b] {
            assert(n != 0);
            lemma_cell_index_split(n, a);
            lemma_cell_index_split(n, b);
            assert(cell_position(n, a) == cell_position(n, b));
        }
    }
}

/// An accepted slide keeps a game as it should be: with the board after the
/// slide and the tiles told their moves, the game is in order in the
/// `Movement` phase.
pub proof fn lemma_slide_keeps_game(
    cells: Seq<Option<TileId>>,
    n: int,
    slots: Seq<Option<Tile>>,
    params: GameParams,
    message: DirectionMessage,
)
    requires
        game_wf(GameState::Process, cells, n, slots, params, Some(message)),
        resolved_cells(cells, n, message.0, slots) != cells,
    ensures
        game_wf(
            GameState::Movement,
            resolved_cells(cells, n, message.0, slots),
            n,
            enqueued(slots, resolved_moves(cells, n, message.0, slots, params.move_time)),
            params,
            None,
        ),
{
    let direction = message.0;
    let win = params.win_rank;
    let move_time = params.move_time;
    let after = resolved_cells(cells, n, direction, slots);
    let moves = resolved_moves(cells, n, direction, slots, move_time);
    let told = enqueued(slots, moves);
    lemma_resolve_unchanged_iff_no_moves(cells, n, direction, slots, move_time);
    lemma_resolve_keeps_tiles(cells, n, direction, slots);
    lemma_resolve_moved_has_room(cells, n, direction, slots, move_time);
    lemma_resolve_moves_once(cells, n, direction, slots, move_time);
    lemma_resolve_destinations(cells, n, direction, slots, move_time);
    lemma_resolve_absorbers(cells, n, direction, slots, move_time);
    lemma_enqueued_keeps_tiles(slots, moves);
    lemma_enqueued_named(slots, moves);
    assert(cells_live(after, told)) by {
        assert forall|k: int| 0 <= k < after.len() && after[k] is Some implies is_live(
            told,
            #[trigger] after[k]->0,
        ) by {
            let id = after[k]->0;
            assert(is_live(slots, id));
            assert(told[id.0 as int] is Some);
        }
    }
    // what a tile that was told a move is told
    assert forall|i: int|
        0 <= i < told.len() && (#[trigger] told[i]) is Some && told[i]->0.queued is Some implies exists|
        j: int,
    |
        0 <= j < moves.len() && (#[trigger] moves[j]).0 == TileId(i as usize) && told[i] == Some(
            with_move(slots[i]->0, moves[j]),
        ) by {
        assert(slots[i] is Some);
        assert(slots[i]->0.queued is None);
        if !moves_name(moves, TileId(i as usize)) {
            assert(told[i] == slots[i]);
        }
    }
    assert forall|i: int|
        0 <= i < told.len() && (#[trigger] told[i]) is Some implies settled_rank(told[i]->0) <= win
        && (merge_target(told[i]->0) is Some ==> !has_tile(after, merge_target(told[i]->0)->0)) by {
        assert(slots[i] is Some);
        assert(settled_rank(slots[i]->0) <= win);
        if merge_target(told[i]->0) is Some {
            let j = choose|j: int|
                0 <= j < moves.len() && (#[trigger] moves[j]).0 == TileId(i as usize) && told[i]
                    == Some(with_move(slots[i]->0, moves[j]));
            lemma_resolve_moves_describe(cells, n, direction, slots, move_time, j);
            let from = cell_index(n, moves[j].4.0 as int, moves[j].4.1 as int);
            assert(cells[from] == Some(TileId(i as usize)));
            assert(rank_of(slots, cells[from]->0) < win);
        }
    }
    assert(tiles_in_step(after, n, told)) by {
        assert forall|k: int| 0 <= k < after.len() && (#[trigger] after[k]) is Some implies heading(
            told[(after[k]->0).0 as int]->0,
        ) == cell_position(n, k) by {
            let id = after[k]->0;
            let i = id.0 as int;
            assert(is_live(slots, id));
            assert(id == TileId(i as usize));
            if moves_name(moves, id) {
                let j = choose|j: int|
                    0 <= j < moves.len() && (#[trigger] moves[j]).0 == TileId(i as usize)
                        && #[trigger] told[i] == Some(with_move(slots[i]->0, moves[j]));
                assert(after[k] == Some(moves[j].0));
            } else {
                assert(told[i] == slots[i]);
                assert(cells[k] == after[k]);
            }
        }
    }
    assert(tiles_accounted(after, told)) by {
        assert forall|i: int| 0 <= i < told.len() && (#[trigger] told[i]) is Some implies has_tile(
            after,
            TileId(i as usize),
        ) || awaits_absorber(after, told, TileId(i as usize)) by {
            let id = TileId(i as usize);
            assert(slots[i] is Some);
            if !has_tile(cells, id) {
                let j = choose|j: int|
                    0 <= j < slots.len() && (#[trigger] slots[j]) is Some && has_tile(
                        cells,
                        TileId(j as usize),
                    ) && merge_target(slots[j]->0) == Some(id);
                assert(slots[j]->0.queued is None);
            }
            if !has_tile(after, id) {
                let j = choose|j: int|
                    0 <= j < moves.len() && (#[trigger] moves[j]).3 == Some(id) && has_tile(
                        after,
                        moves[j].0,
                    );
                let absorber = moves[j].0;
                let at = choose|at: int|
                    0 <= at < after.len() && #[trigger] after[at] == Some(absorber);
                assert(is_live(told, after[at]->0));
                let a = absorber.0 as int;
                assert(absorber == TileId(a as usize));
                assert(moves_name(moves, absorber));
                let j2 = choose|j2: int|
                    0 <= j2 < moves.len() && (#[trigger] moves[j2]).0 == TileId(a as usize)
                        && #[trigger] told[a] == Some(with_move(slots[a]->0, moves[j2]));
                if j2 < j {
                    assert(moves[j2].0 != moves[j].0);
                } else if j < j2 {
                    assert(moves[j].0 != moves[j2].0);
                }
                assert(merge_target(told[a]->0) == Some(id));
                assert(has_tile(after, TileId(a as usize)));
            }
        }
    }
}

/// The passing of time keeps a game as it should be: no rank runs out of
/// room to rise, and with the tiles advanced the game is in order, in the
/// `Decision` phase once no tile is in the middle of a move.
pub proof fn lemma_tick_keeps_game(
    cells: Seq<Option<TileId>>,
    n: int,
    slots: Seq<Option<Tile>>,
    params: GameParams,
    intent: Option<DirectionMessage>,
    delta: u64,
)
    requires
        game_wf(GameState::Movement, cells, n, slots, params, intent),
    ensures
        ranks_can_rise(slots),
        game_wf(
            if settled(moved_tiles(slots, delta)) {
                GameState::Decision
            } else {
                GameState::Movement
            },
            cells,
            n,
            moved_tiles(slots, delta),
            params,
            intent,
        ),
{
    let win = params.win_rank;
    let moved = moved_tiles(slots, delta);
    assert(ranks_can_rise(slots)) by {
        assert forall|i: int|
            0 <= i < slots.len() && (#[trigger] slots[i]) is Some && merge_target(slots[i]->0) is Some implies slots[i]->0.value.0
            < usize::MAX by {
            assert(settled_rank(slots[i]->0) <= win);
        }
    }
    // a tile on the board is not absorbed
    assert forall|k: int| 0 <= k < cells.len() && (#[trigger] cells[k]) is Some implies is_live(
        moved,
        cells[k]->0,
    ) && moved[(cells[k]->0).0 as int] == Some(
        advanced(slots[(cells[k]->0).0 as int]->0, delta),
    ) by {
        let id = cells[k]->0;
        assert(is_live(slots, id));
        assert(has_tile(cells, id));
        if absorbed_now(slots, id, delta) {
            let j = choose|j: int|
                0 <= j < slots.len() && (#[trigger] slots[j]) is Some && completes(
                    slots[j]->0,
                    delta,
                ) && merge_target(slots[j]->0) == Some(id);
            assert(merge_target(slots[j]->0) is Some);
        }
        assert(id == TileId(id.0));
    }
    assert forall|i: int| 0 <= i < moved.len() && (#[trigger] moved[i]) is Some implies settled_rank(
        moved[i]->0,
    ) <= win && (merge_target(moved[i]->0) is Some ==> !has_tile(
        cells,
        merge_target(moved[i]->0)->0,
    )) by {
        assert(slots[i] is Some);
        assert(settled_rank(slots[i]->0) <= win);
        assert(moved[i]->0 == advanced(slots[i]->0, delta));
    }
    assert(tiles_in_step(cells, n, moved)) by {
        assert forall|k: int| 0 <= k < cells.len() && (#[trigger] cells[k]) is Some implies heading(
            moved[(cells[k]->0).0 as int]->0,
        ) == cell_position(n, k) by {
            let i = (cells[k]->0).0 as int;
            assert(heading(slots[i]->0) == cell_position(n, k));
        }
    }
    assert(tiles_accounted(cells, moved)) by {
        assert forall|i: int| 0 <= i < moved.len() && (#[trigger] moved[i]) is Some implies has_tile(
            cells,
            TileId(i as usize),
        ) || awaits_absorber(cells, moved, TileId(i as usize)) by {
            let id = TileId(i as usize);
            assert(slots[i] is Some);
            if !has_tile(cells, id) {
                let j = choose|j: int|
                    0 <= j < slots.len() && (#[trigger] slots[j]) is Some && has_tile(
                        cells,
                        TileId(j as usize),
                    ) && merge_target(slots[j]->0) == Some(id);
                let at = choose|at: int|
                    0 <= at < cells.len() && #[trigger] cells[at] == Some(TileId(j as usize));
                assert(cells[at] is Some);
                assert(moved[j] == Some(advanced(slots[j]->0, delta)));
                if completes(slots[j]->0, delta) {
                    assert(absorbed_now(slots, id, delta));
                }
                assert(merge_target(moved[j]->0) == Some(id));
            }
        }
    }
}

/// A new tile keeps a game as it should be: with a resting tile of rank 1
/// or 2 put into an empty cell, the game is in order in the phase that the
/// judging of the board gives.
pub proof fn lemma_spawn_keeps_game(
    cells: Seq<Option<TileId>>,
    n: int,
    slots: Seq<Option<Tile>>,
    params: GameParams,
    intent: Option<DirectionMessage>,
    tile: Tile,
)
    requires
        game_wf(GameState::Decision, cells, n, slots, params, intent),
        slots.len() < usize::MAX,
        tile.queued is None,
        tile.value.0 <= HIGH_RANK,
        tile.position.0 < n && tile.position.1 < n,
        cells[cell_index(n, tile.position.0 as int, tile.position.1 as int)] is None,
    ensures
        ({
            let k = cell_index(n, tile.position.0 as int, tile.position.1 as int);
            let after = cells.update(k, Some(TileId(slots.len() as usize)));
            let grown = slots.push(Some(tile));
            game_wf(outcome(after, n, grown, params.win_rank), after, n, grown, params, intent)
        }),
{
    let win = params.win_rank;
    let k = cell_index(n, tile.position.0 as int, tile.position.1 as int);
    let id = TileId(slots.len() as usize);
    let after = cells.update(k, Some(id));
    let grown = slots.push(Some(tile));
    let state = outcome(after, n, grown, win);
    lemma_cell_index_bounds(n, tile.position.0 as int, tile.position.1 as int);
    lemma_cell_index_unique(n, tile.position.0 as int, tile.position.1 as int);
    assert(merge_target(tile) is None);
    assert forall|j: int| 0 <= j < after.len() && after[j] is Some implies is_live(
        grown,
        #[trigger] after[j]->0,
    ) && (j != k ==> (after[j]->0).0 < slots.len()) by {
        if j != k {
            assert(is_live(slots, cells[j]->0));
        }
    }
    assert(distinct_tiles(after)) by {
        assert forall|i: int, j: int|
            0 <= i < after.len() && 0 <= j < after.len() && i != j && (
            #[trigger] after[i]) is Some implies after[i] != #[trigger] after[j] by {
            if i != k && j != k {
                assert(cells[i] is Some);
                assert(cells[i] != cells[j]);
            } else if after[j] is Some {
                assert(is_live(grown, after[i]->0));
                assert(is_live(grown, after[j]->0));
            }
        }
    }
    assert forall|i: int| 0 <= i < grown.len() && (#[trigger] grown[i]) is Some implies settled_rank(
        grown[i]->0,
    ) <= win && merge_target(grown[i]->0) is None && grown[i]->0.queued is None && has_tile(
        after,
        TileId(i as usize),
    ) by {
        if i < slots.len() {
            assert(slots[i] is Some);
            assert(settled_rank(slots[i]->0) <= win);
            if !has_tile(cells, TileId(i as usize)) {
                let j = choose|j: int|
                    0 <= j < slots.len() && (#[trigger] slots[j]) is Some && has_tile(
                        cells,
                        TileId(j as usize),
                    ) && merge_target(slots[j]->0) == Some(TileId(i as usize));
                assert(slots[j]->0.queued is None);
            }
            let at = choose|at: int|
                0 <= at < cells.len() && #[trigger] cells[at] == Some(TileId(i as usize));
            assert(after[at] == Some(TileId(i as usize)));
        } else {
            assert(after[k] == Some(TileId(i as usize)));
        }
    }
    assert(tiles_in_step(after, n, grown)) by {
        assert forall|j: int| 0 <= j < after.len() && (#[trigger] after[j]) is Some implies heading(
            grown[(after[j]->0).0 as int]->0,
        ) == cell_position(n, j) by {
            if j != k {
                assert(cells[j] is Some);
                assert(is_live(slots, cells[j]->0));
            }
        }
    }
    if state == GameState::Wait {
        assert forall|j: int| 0 <= j < after.len() && (#[trigger] after[j]) is Some implies rank_of(
            grown,
            after[j]->0,
        ) < win by {
            let t = after[j]->0;
            assert(is_live(grown, t));
            assert(settled_rank(grown[t.0 as int]->0) <= win);
        }
    }
}

} // verus!

//! The moves of tiles over time.
//!
//! A tile that has been told to move carries a countdown. Every tick advances
//! the countdowns; a tile whose countdown finishes comes to rest in the cell
//! it was sent to, and if it was to absorb a tile, that tile goes out of
//! existence and the rank of the arriving tile rises by one.

use vstd::prelude::*;
use crate::components::{is_live, QueuedMove, QueuedMoveMessage, Tile, TileId, Tiles, Value};

verus! {

/// The tile that `tile` is to absorb at the end of its move, if it is in the
/// middle of a move and is to absorb one.
pub open spec fn merge_target(tile: Tile) -> Option<TileId> {
    match tile.queued {
        Some(queued) => queued.2,
        None => None,
    }
}

/// Whether the move of `tile` ends within the next `delta` time units.
pub open spec fn completes(tile: Tile, delta: u64) -> bool {
    tile.queued matches Some(queued) && queued.1.ticked(delta).finished
}

/// The tile after `delta` more time units: at rest as it was; or further
/// along its move; or arrived, at rest in the cell it was sent to and one
/// rank higher if it absorbed a tile.
pub open spec fn advanced(tile: Tile, delta: u64) -> Tile {
    match tile.queued {
        None => tile,
        Some(queued) => {
            if queued.1.ticked(delta).finished {
                Tile {
                    value: if queued.2 is Some {
                        Value((tile.value.0 + 1) as usize)
                    } else {
                        tile.value
                    },
                    position: queued.0,
                    queued: None,
                }
            } else {
                Tile {
                    value: tile.value,
                    position: tile.position,
                    queued: Some(QueuedMove(queued.0, queued.1.ticked(delta), queued.2)),
                }
            }
        },
    }
}

/// Whether a tile whose move ends within the next `delta` time units
/// absorbs the tile `id`.
pub open spec fn absorbed_now(slots: Seq<Option<Tile>>, id: TileId, delta: u64) -> bool {
    exists|j: int|
        0 <= j < slots.len() && (#[trigger] slots[j]) is Some && completes(slots[j]->0, delta)
            && merge_target(slots[j]->0) == Some(id)
}

/// The tiles after `delta` more time units: every tile advanced, but for
/// those that an arriving tile absorbs, which are gone.
pub open spec fn moved_tiles(slots: Seq<Option<Tile>>, delta: u64) -> Seq<Option<Tile>> {
    Seq::new(
        slots.len(),
        |i: int|
            match slots[i] {
                Some(tile) => if absorbed_now(slots, TileId(i as usize), delta) {
                    None
                } else {
                    Some(advanced(tile, delta))
                },
                None => None,
            },
    )
}

/// The tiles that the tiles in the first `upto` slots absorb on arriving
/// within the next `delta` time units, in the order of those slots.
pub open spec fn absorbed_upto(slots: Seq<Option<Tile>>, delta: u64, upto: int) -> Seq<TileId>
    decreases upto,
{
    if upto <= 0 {
        Seq::empty()
    } else {
        let before = absorbed_upto(slots, delta, upto - 1);
        match slots[upto - 1] {
            Some(tile) => if completes(tile, delta) && merge_target(tile) is Some {
                before.push(merge_target(tile)->0)
            } else {
                before
            },
            None => before,
        }
    }
}

/// No tile is in the middle of a move.
pub open spec fn settled(slots: Seq<Option<Tile>>) -> bool {
    forall|i: int|
        0 <= i < slots.len() && (#[trigger] slots[i]) is Some ==> slots[i]->0.queued is None
}

/// Every tile that is to absorb a tile has a rank that can still rise.
pub open spec fn ranks_can_rise(slots: Seq<Option<Tile>>) -> bool {
    forall|i: int|
        0 <= i < slots.len() && (#[trigger] slots[i]) is Some && merge_target(slots[i]->0) is Some
            ==> slots[i]->0.value.0 < usize::MAX
}

/// The listed tiles are those that an arriving tile of the first slots
/// absorbs.
proof fn lemma_absorbed_upto(slots: Seq<Option<Tile>>, delta: u64, upto: int)
    requires
        0 <= upto <= slots.len(),
    ensures
        forall|id: TileId|
            absorbed_upto(slots, delta, upto).contains(id) <==> exists|j: int|
                0 <= j < upto && (#[trigger] slots[j]) is Some && completes(slots[j]->0, delta)
                    && merge_target(slots[j]->0) == Some(id),
    decreases upto,
{
    if upto > 0 {
        lemma_absorbed_upto(slots, delta, upto - 1);
        let before = absorbed_upto(slots, delta, upto - 1);
        let all = absorbed_upto(slots, delta, upto);
        assert forall|id: TileId| all.contains(id) <==> exists|j: int|
            0 <= j < upto && (#[trigger] slots[j]) is Some && completes(slots[j]->0, delta)
                && merge_target(slots[j]->0) == Some(id) by {
            if all.contains(id) {
                let m = choose|m: int| 0 <= m < all.len() && all[m] == id;
                if m < before.len() {
                    assert(before[m] == id);
                    assert(before.contains(id));
                } else {
                    assert(slots[upto - 1] is Some);
                }
            }
            if exists|j: int|
                0 <= j < upto && (#[trigger] slots[j]) is Some && completes(slots[j]->0, delta)
                    && merge_target(slots[j]->0) == Some(id) {
                let j = choose|j: int|
                    0 <= j < upto && (#[trigger] slots[j]) is Some && completes(
                        slots[j]->0,
                        delta,
                    ) && merge_target(slots[j]->0) == Some(id);
                if j < upto - 1 {
                    assert(before.contains(id));
                    let m = choose|m: int| 0 <= m < before.len() && before[m] == id;
                    assert(all[m] == id);
                } else {
                    assert(all[all.len() - 1] == id);
                }
            }
        }
    }
}

/// Time that the move of `tile` has left to go; none for a tile at rest.
pub open spec fn time_to_rest(tile: Tile) -> int {
    match tile.queued {
        Some(queued) => queued.1.time_left(),
        None => 0,
    }
}

/// A tick that is at least as long as every move has left to go brings
/// every tile to rest.
pub proof fn lemma_long_tick_settles(slots: Seq<Option<Tile>>, delta: u64)
    requires
        forall|i: int|
            0 <= i < slots.len() && (#[trigger] slots[i]) is Some ==> time_to_rest(slots[i]->0)
                <= delta,
    ensures
        settled(moved_tiles(slots, delta)),
{
    let moved = moved_tiles(slots, delta);
    assert forall|i: int| 0 <= i < moved.len() && (#[trigger] moved[i]) is Some implies moved[i]->0.queued is None by {
        assert(slots[i] is Some);
        assert(moved[i]->0 == advanced(slots[i]->0, delta));
    }
}

/// Advances one tile by `delta` time units.
fn advance_tile(tile: Tile, delta: u64) -> (after: Tile)
    requires
        merge_target(tile) is Some ==> tile.value.0 < usize::MAX,
    ensures
        after == advanced(tile, delta),
{
    match tile.queued {
        None => tile,
        Some(QueuedMove(to, timer, merge_entity)) => {
            let mut timer = timer;
            timer.tick(delta);
            if timer.is_finished() {
                let value = match merge_entity {
                    Some(_) => Value(tile.value.0 + 1),
                    None => tile.value,
                };
                Tile { value, position: to, queued: None }
            } else {
                Tile {
                    value: tile.value,
                    position: tile.position,
                    queued: Some(QueuedMove(to, timer, merge_entity)),
                }
            }
        },
    }
}

/// Lets `delta` time units pass for every tile, and returns the tiles that
/// went out of existence because an arriving tile absorbed them, in the
/// order of the slots of the arriving tiles.
///
/// All tiles are advanced before any is removed, so that a tile which
/// arrives and is absorbed on the same tick is dealt with once.
pub fn queued_movement_system(tiles: &mut Tiles, delta: u64) -> (to_delete: Vec<TileId>)
    requires
        ranks_can_rise(old(tiles)@),
    ensures
        final(tiles)@ == moved_tiles(old(tiles)@, delta),
        to_delete@ == absorbed_upto(old(tiles)@, delta, old(tiles)@.len() as int),
{
    let ghost before = tiles@;
    let mut to_delete: Vec<TileId> = Vec::new();
    let total = tiles.slots.len();
    let mut i: usize = 0;
    while i < total
        invariant
            i <= total,
            total == before.len(),
            tiles@.len() == total,
            ranks_can_rise(before),
            forall|j: int|
                0 <= j < i ==> #[trigger] tiles@[j] == (match before[j] {
                    Some(tile) => Some(advanced(tile, delta)),
                    None => None,
                }),
            forall|j: int| i <= j < total ==> #[trigger] tiles@[j] == before[j],
            to_delete@ == absorbed_upto(before, delta, i as int),
        decreases total - i,
    {
        match tiles.slots[i] {
            Some(tile) => {
                assert(before[i as int] is Some);
                let after = advance_tile(tile, delta);
                match tile.queued {
                    Some(QueuedMove(_, _, Some(merge_entity))) => {
                        if after.queued.is_none() {
                            to_delete.push(merge_entity);
                        }
                    },
                    _ => {},
                }
                tiles.slots.set(i, Some(after));
            },
            None => {},
        }
        i += 1;
    }
    let ghost advanced_all = tiles@;
    let mut k: usize = 0;
    while k < to_delete.len()
        invariant
            k <= to_delete.len(),
            tiles@.len() == total,
            advanced_all.len() == total,
            forall|j: int|
                0 <= j < total ==> #[trigger] tiles@[j] == (if exists|m: int|
                    0 <= m < k && to_delete@[m] == TileId(j as usize) {
                    None
                } else {
                    advanced_all[j]
                }),
        decreases to_delete.len() - k,
    {
        let e = to_delete[k];
        let ghost prior = tiles@;
        tiles.remove(e);
        proof {
            assert forall|j: int| 0 <= j < total implies #[trigger] tiles@[j] == (if exists|m: int|
                0 <= m < k + 1 && to_delete@[m] == TileId(j as usize) {
                None
            } else {
                advanced_all[j]
            }) by {
                if exists|m: int| 0 <= m < k && to_delete@[m] == TileId(j as usize) {
                    let m = choose|m: int| 0 <= m < k && to_delete@[m] == TileId(j as usize);
                    assert(0 <= m < k + 1 && to_delete@[m] == TileId(j as usize));
                } else if e == TileId(j as usize) {
                    assert(to_delete@[k as int] == TileId(j as usize));
                } else {
                    assert(tiles@[j] == prior[j]);
                }
            }
        }
        k += 1;
    }
    proof {
        lemma_absorbed_upto(before, delta, total as int);
        assert forall|j: int| 0 <= j < total implies tiles@[j] == moved_tiles(before, delta)[j] by {
            let id = TileId(j as usize);
            if exists|m: int| 0 <= m < k && to_delete@[m] == id {
                let m = choose|m: int| 0 <= m < k && to_delete@[m] == id;
                assert(to_delete@.contains(id));
            }
            if absorbed_now(before, id, delta) {
                assert(to_delete@.contains(id));
                let m = choose|m: int| 0 <= m < to_delete@.len() && to_delete@[m] == id;
                assert(0 <= m < k && to_delete@[m] == TileId(j as usize));
            }
        }
        assert(tiles@ =~= moved_tiles(before, delta));
    }
    to_delete
}

/// Whether every move has ended: no tile is in the middle of one.
pub fn queued_system_finished(tiles: &Tiles) -> (finished: bool)
    ensures
        finished == settled(tiles@),
{
    let total = tiles.slots.len();
    let mut i: usize = 0;
    while i < total
        invariant
            i <= total,
            total == tiles@.len(),
            forall|j: int|
                0 <= j < i && (#[trigger] tiles@[j]) is Some ==> tiles@[j]->0.queued is None,
        decreases total - i,
    {
        match tiles.slots[i] {
            Some(tile) => {
                if tile.queued.is_some() {
                    return false;
                }
            },
            None => {},
        }
        i += 1;
    }
    true
}

/// The tile `tile` told to make the move that `message` describes.
pub open spec fn with_move(tile: Tile, message: QueuedMoveMessage) -> Tile {
    Tile {
        value: tile.value,
        position: tile.position,
        queued: Some(QueuedMove(message.1, message.2, message.3)),
    }
}

/// The tiles after the instructions `messages` have been handed to them in
/// order. An instruction for a tile that does not exist changes nothing.
pub open spec fn enqueued(slots: Seq<Option<Tile>>, messages: Seq<QueuedMoveMessage>) -> Seq<
    Option<Tile>,
>
    decreases messages.len(),
{
    if messages.len() == 0 {
        slots
    } else {
        let before = enqueued(slots, messages.drop_last());
        let message = messages.last();
        if is_live(before, message.0) {
            before.update(message.0.0 as int, Some(with_move(before[message.0.0 as int]->0, message)))
        } else {
            before
        }
    }
}

/// The tiles named by those of `messages` that name a tile which does not
/// exist, in order.
pub open spec fn stale_tiles(slots: Seq<Option<Tile>>, messages: Seq<QueuedMoveMessage>) -> Seq<
    TileId,
>
    decreases messages.len(),
{
    if messages.len() == 0 {
        Seq::empty()
    } else {
        let before = stale_tiles(slots, messages.drop_last());
        if is_live(slots, messages.last().0) {
            before
        } else {
            before.push(messages.last().0)
        }
    }
}

/// Handing out instructions neither makes nor removes a tile, and changes
/// neither rank nor resting cell.
pub proof fn lemma_enqueued_keeps_tiles(slots: Seq<Option<Tile>>, messages: Seq<QueuedMoveMessage>)
    ensures
        enqueued(slots, messages).len() == slots.len(),
        forall|i: int|
            0 <= i < slots.len() ==> ((#[trigger] enqueued(slots, messages)[i]) is Some
                <==> slots[i] is Some),
        forall|i: int|
            0 <= i < slots.len() && slots[i] is Some ==> (#[trigger] enqueued(
                slots,
                messages,
            )[i])->0.value == slots[i]->0.value && enqueued(slots, messages)[i]->0.position
                == slots[i]->0.position,
    decreases messages.len(),
{
    if messages.len() > 0 {
        lemma_enqueued_keeps_tiles(slots, messages.drop_last());
    }
}

/// Whether one of `moves` is an instruction for `tile`.
pub open spec fn moves_name(moves: Seq<QueuedMoveMessage>, tile: TileId) -> bool {
    exists|i: int| 0 <= i < moves.len() && (#[trigger] moves[i]).0 == tile
}

/// After instructions have been handed out, a tile that none of them names
/// is as it was, and a tile that one of them names makes the move that one
/// of those which name it describes.
pub proof fn lemma_enqueued_named(slots: Seq<Option<Tile>>, messages: Seq<QueuedMoveMessage>)
    requires
        slots.len() <= usize::MAX,
    ensures
        forall|i: int|
            0 <= i < slots.len() && slots[i] is Some && !moves_name(messages, TileId(i as usize))
                ==> #[trigger] enqueued(slots, messages)[i] == slots[i],
        forall|i: int|
            0 <= i < slots.len() && slots[i] is Some && moves_name(messages, TileId(i as usize))
                ==> exists|j: int|
                0 <= j < messages.len() && (#[trigger] messages[j]).0 == TileId(i as usize)
                    && #[trigger] enqueued(slots, messages)[i] == Some(
                    with_move(slots[i]->0, messages[j]),
                ),
    decreases messages.len(),
{
    lemma_enqueued_keeps_tiles(slots, messages);
    if messages.len() > 0 {
        let shorter = messages.drop_last();
        lemma_enqueued_named(slots, shorter);
        lemma_enqueued_keeps_tiles(slots, shorter);
        let before = enqueued(slots, shorter);
        let after = enqueued(slots, messages);
        let last = messages.last();
        assert forall|i: int|
            0 <= i < slots.len() && slots[i] is Some && !moves_name(
                messages,
                TileId(i as usize),
            ) implies #[trigger] after[i] == slots[i] by {
            assert(messages[messages.len() - 1].0 != TileId(i as usize));
            if moves_name(shorter, TileId(i as usize)) {
                let j = choose|j: int|
                    0 <= j < shorter.len() && (#[trigger] shorter[j]).0 == TileId(i as usize);
                assert(messages[j] == shorter[j]);
            }
        }
        assert forall|i: int|
            0 <= i < slots.len() && slots[i] is Some && moves_name(
                messages,
                TileId(i as usize),
            ) implies exists|j: int|
            0 <= j < messages.len() && (#[trigger] messages[j]).0 == TileId(i as usize)
                && #[trigger] after[i] == Some(with_move(slots[i]->0, messages[j])) by {
            if last.0 == TileId(i as usize) {
                assert(is_live(before, last.0));
                assert(messages[messages.len() - 1] == last);
            } else {
                let any = choose|j: int|
                    0 <= j < messages.len() && (#[trigger] messages[j]).0 == TileId(i as usize);
                assert(shorter[any] == messages[any]);
                assert(moves_name(shorter, TileId(i as usize)));
                let j = choose|j: int|
                    0 <= j < shorter.len() && (#[trigger] shorter[j]).0 == TileId(i as usize)
                        && #[trigger] before[i] == Some(with_move(slots[i]->0, shorter[j]));
                assert(messages[j] == shorter[j]);
                assert(after[i] == before[i]);
            }
        }
    }
}

/// Hands every instruction to the tile it names, which is from then on in
/// the middle of that move. An instruction that names a tile which does not
/// exist is passed over; the tiles so named are returned, in order.
pub fn process_queued_move_messages(tiles: &mut Tiles, messages: &Vec<QueuedMoveMessage>) -> (stale:
    Vec<TileId>)
    ensures
        final(tiles)@ == enqueued(old(tiles)@, messages@),
        stale@ == stale_tiles(old(tiles)@, messages@),
{
    let ghost before = tiles@;
    let mut stale: Vec<TileId> = Vec::new();
    let mut i: usize = 0;
    proof {
        assert(messages@.take(0) =~= Seq::<QueuedMoveMessage>::empty());
    }
    while i < messages.len()
        invariant
            i <= messages.len(),
            tiles@ == enqueued(before, messages@.take(i as int)),
            stale@ == stale_tiles(before, messages@.take(i as int)),
        decreases messages.len() - i,
    {
        let message = messages[i];
        proof {
            lemma_enqueued_keeps_tiles(before, messages@.take(i as int));
            assert(messages@.take(i + 1).drop_last() =~= messages@.take(i as int));
            assert(messages@.take(i + 1).last() == message);
        }
        match tiles.get(message.0) {
            Some(tile) => {
                let QueuedMoveMessage(entity, to, in_time, to_merge_with, _) = message;
                tiles.slots.set(
                    entity.0,
                    Some(
                        Tile {
                            value: tile.value,
                            position: tile.position,
                            queued: Some(QueuedMove(to, in_time, to_merge_with)),
                        },
                    ),
                );
            },
            None => {
                stale.push(message.0);
            },
        }
        i += 1;
    }
    proof {
        assert(messages@.take(i as int) =~= messages@);
    }
    stale
}

} // verus!

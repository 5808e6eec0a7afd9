//! The turn state machine: one game, advanced phase by phase.
//!
//! A turn waits for a directional intent, slides the board, lets the tiles
//! move until all are at rest, puts a new tile on the board and judges the
//! board. The board of the game is the board after the slide from the moment
//! the slide is accepted; the tiles catch up with it while they move.

use vstd::prelude::*;
use crate::board::{lemma_tile_count_filled_prefix, tile_count};
use crate::components::{
    Board, BoardStateResource, Direction, DirectionMessage, GameParams, QueuedMoveMessage, Tile,
    TileId, Tiles,
};
use crate::game_laws::{
    game_wf, lemma_slide_keeps_game, lemma_spawn_keeps_game, lemma_tick_keeps_game,
    lemma_well_set_waits, well_set,
};
use crate::grid::{
    cell_index, lemma_cell_index_bounds, lemma_cell_index_split, lemma_cell_index_unique,
};
use crate::movement::{
    absorbed_upto, enqueued, moved_tiles, process_queued_move_messages, queued_movement_system,
    queued_system_finished, settled,
};
use crate::resolver::{process_direction_messages, resolved_cells, resolved_moves};
use crate::resolver_laws::cell_position;
use crate::spawn::{board_setup, produce_new_tile_system, SharedRand, HIGH_RANK, LOW_RANK};
use crate::states::GameState;
use crate::terminal::{outcome, the_end_system};

verus! {

/// A game: its phase, its board, its tiles, its parameters and the intent
/// that the current turn honours. A game is made by `new`, `start` or
/// `from_parts` and changed by `handle_direction` and `update` only, which
/// keep it in order.
pub struct Game<const N: usize> {
    state: GameState,
    board_state: BoardStateResource<N>,
    tiles: Tiles,
    params: GameParams,
    direction: Option<DirectionMessage>,
}

/// What one step of the game did.
#[derive(Clone, PartialEq, Eq, Debug)]
pub enum Step {
    /// Nothing: the game waits for an intent or is over.
    Idle,
    /// The slide left the board as it was and is dropped.
    Rejected,
    /// The slide was accepted: the tiles named by these instructions move.
    Slid(Vec<QueuedMoveMessage>),
    /// Time passed: these tiles were absorbed.
    Moved(Vec<TileId>),
    /// This tile was put on the board.
    Spawned(TileId, Tile),
}

impl<const N: usize> Game<N> {
    /// The phase of the game.
    pub closed spec fn phase(&self) -> GameState {
        self.state
    }

    /// The cells of the board of the game.
    pub closed spec fn cells(&self) -> Seq<Option<TileId>> {
        self.board_state.0.cells()
    }

    /// The tiles of the game, each in its slot.
    pub closed spec fn slots(&self) -> Seq<Option<Tile>> {
        self.tiles@
    }

    /// The parameters of the game.
    pub closed spec fn settings(&self) -> GameParams {
        self.params
    }

    /// The intent that the current turn honours, if it has one.
    pub closed spec fn intent(&self) -> Option<DirectionMessage> {
        self.direction
    }

    /// The direction of the intent that the current turn honours.
    pub open spec fn intended(&self) -> Direction {
        match self.intent() {
            Some(message) => message.0,
            None => Direction::Right,
        }
    }

    /// The game is in order.
    pub open spec fn wf(&self) -> bool {
        game_wf(
            self.phase(),
            self.cells(),
            N as int,
            self.slots(),
            self.settings(),
            self.intent(),
        )
    }

    /// The phase of the game.
    pub fn state(&self) -> (state: GameState)
        ensures
            state == self.phase(),
    {
        self.state
    }

    /// The board of the game.
    pub fn board(&self) -> (board_state: &BoardStateResource<N>)
        ensures
            board_state.0.cells() == self.cells(),
    {
        &self.board_state
    }

    /// The tiles of the game.
    pub fn tiles(&self) -> (tiles: &Tiles)
        ensures
            tiles@ == self.slots(),
    {
        &self.tiles
    }

    /// The parameters of the game.
    pub fn params(&self) -> (params: GameParams)
        ensures
            params == self.settings(),
    {
        self.params
    }

    /// The intent that the current turn honours, if it has one.
    pub fn direction(&self) -> (direction: Option<DirectionMessage>)
        ensures
            direction == self.intent(),
    {
        self.direction
    }

    /// A game on an empty board, waiting; nothing when the parameters are
    /// not valid or the board is too large to be counted.
    pub fn new(params: GameParams) -> (game: Option<Self>)
        ensures
            game is Some <==> params.valid() && N * N <= usize::MAX,
            game matches Some(g) ==> {
                &&& g.wf()
                &&& g.phase() == GameState::Wait
                &&& g.settings() == params
                &&& g.slots().len() == 0
                &&& g.intent() is None
                &&& g.cells().len() == N * N
                &&& forall|k: int| 0 <= k < N * N ==> (#[trigger] g.cells()[k]) is None
            },
    {
        if !params.is_valid() {
            return None;
        }
        match Board::<N, TileId>::vacant() {
            None => None,
            Some(board) => {
                let game = Game {
                    state: GameState::Wait,
                    board_state: BoardStateResource(board),
                    tiles: Tiles::new(),
                    params,
                    direction: None,
                };
                proof {
                    lemma_well_set_waits(game.cells(), N as int, game.slots(), params, None);
                }
                Some(game)
            },
        }
    }

    /// A game at its start: two tiles on an otherwise empty board, waiting;
    /// nothing when the parameters are not valid or the board is too large
    /// to be counted or too small for two tiles.
    pub fn start(params: GameParams, shared_rand: &mut SharedRand) -> (game: Option<Self>)
        ensures
            game is Some <==> params.valid() && 2 <= N * N <= usize::MAX,
            game matches Some(g) ==> {
                &&& g.wf()
                &&& g.phase() == GameState::Wait
                &&& g.settings() == params
                &&& g.intent() is None
                &&& g.slots().len() == 2
                &&& tile_count(g.cells()) == 2
            },
    {
        match Self::new(params) {
            None => None,
            Some(game) => {
                let mut game = game;
                proof {
                    lemma_tile_count_filled_prefix(game.cells(), 0);
                }
                if game.board_state.0.0.len() < 2 {
                    return None;
                }
                let ghost vacant = game.cells();
                let spawned = board_setup(
                    &mut game.tiles,
                    shared_rand,
                    &mut game.board_state,
                    &params,
                );
                proof {
                    let n = N as int;
                    let one = spawned.0.1;
                    let two = spawned.1.1;
                    let first = cell_index(n, one.position.0 as int, one.position.1 as int);
                    let second = cell_index(n, two.position.0 as int, two.position.1 as int);
                    lemma_cell_index_unique(n, one.position.0 as int, one.position.1 as int);
                    lemma_cell_index_unique(n, two.position.0 as int, two.position.1 as int);
                    let cells = game.cells();
                    assert forall|k: int| 0 <= k < cells.len() implies (#[trigger] cells[k] == if k
                        == second {
                        Some(spawned.1.0)
                    } else if k == first {
                        Some(spawned.0.0)
                    } else {
                        None
                    }) by {
                        assert(vacant[k] is None);
                    }
                    assert(game.slots()[0] == Some(one));
                    assert(game.slots()[1] == Some(two));
                    assert(well_set(cells, n, game.slots(), params));
                    lemma_well_set_waits(cells, n, game.slots(), params, None);
                }
                Some(game)
            },
        }
    }

    /// A game that waits, with the board and the tiles handed in; nothing
    /// unless they are well set: the parameters are valid, the board is
    /// square, every tile on it exists, rests in the cell that holds it and
    /// has a rank below the winning rank, and every tile that exists rests
    /// in a cell of the board that holds it.
    pub fn from_parts(board_state: BoardStateResource<N>, tiles: Tiles, params: GameParams) -> (game:
        Option<Self>)
        ensures
            game is Some <==> well_set(board_state.0.cells(), N as int, tiles@, params),
            game matches Some(g) ==> {
                &&& g.wf()
                &&& g.phase() == GameState::Wait
                &&& g.settings() == params
                &&& g.intent() is None
                &&& g.cells() == board_state.0.cells()
                &&& g.slots() == tiles@
            },
    {
        let ghost cells = board_state.0.cells();
        let ghost slots = tiles@;
        let ghost n = N as int;
        if !params.is_valid() {
            return None;
        }
        let total = board_state.0.0.len();
        match N.checked_mul(N) {
            None => {
                return None;
            },
            Some(square) => {
                if total != square {
                    return None;
                }
            },
        }
        let mut k: usize = 0;
        while k < total
            invariant
                k <= total,
                n == N as int,
                total == N * N,
                cells == board_state.0.cells(),
                cells.len() == total,
                slots == tiles@,
                forall|j: int|
                    0 <= j < k && (#[trigger] cells[j]) is Some ==> {
                        let id = cells[j]->0;
                        &&& crate::components::is_live(slots, id)
                        &&& slots[id.0 as int]->0.queued is None
                        &&& slots[id.0 as int]->0.position == cell_position(n, j)
                        &&& slots[id.0 as int]->0.value.0 < params.win_rank
                    },
            decreases total - k,
        {
            proof {
                assert(N != 0);
                lemma_cell_index_split(n, k as int);
            }
            match board_state.0.0[k] {
                Some(id) => {
                    assert(cells[k as int] is Some);
                    match tiles.get(id) {
                        None => {
                            return None;
                        },
                        Some(tile) => {
                            if tile.queued.is_some() || tile.position.0 != k % N || tile.position.1
                                != k / N || tile.value.0 >= params.win_rank {
                                return None;
                            }
                        },
                    }
                },
                None => {},
            }
            k += 1;
        }
        let count = tiles.len();
        let mut i: usize = 0;
        while i < count
            invariant
                i <= count,
                n == N as int,
                count == slots.len(),
                total == N * N,
                cells == board_state.0.cells(),
                cells.len() == total,
                slots == tiles@,
                forall|j: int|
                    0 <= j < i && (#[trigger] slots[j]) is Some ==> {
                        let at = slots[j]->0.position;
                        &&& at.0 < n && at.1 < n
                        &&& cells[cell_index(n, at.0 as int, at.1 as int)] == Some(
                            TileId(j as usize),
                        )
                    },
            decreases count - i,
        {
            match tiles.get(TileId(i)) {
                Some(tile) => {
                    assert(slots[i as int] == Some(tile));
                    let at = tile.position;
                    if at.0 >= N || at.1 >= N {
                        return None;
                    }
                    proof {
                        lemma_cell_index_bounds(n, at.0 as int, at.1 as int);
                    }
                    match board_state.0.0[at.0 + at.1 * N] {
                        Some(id) => {
                            if id.0 != i {
                                return None;
                            }
                        },
                        None => {
                            return None;
                        },
                    }
                },
                None => {},
            }
            i += 1;
        }
        proof {
            lemma_well_set_waits(cells, n, slots, params, None);
        }
        Some(Game { state: GameState::Wait, board_state, tiles, params, direction: None })
    }

    /// Takes a directional intent: while the game waits, the intent is
    /// accepted and the game goes on to `Process`; in every other phase the
    /// intent is dropped. Returns whether the intent was accepted.
    pub fn handle_direction(&mut self, message: DirectionMessage) -> (accepted: bool)
        requires
            old(self).wf(),
        ensures
            final(self).wf(),
            accepted == (old(self).phase() == GameState::Wait),
            accepted ==> final(self).phase() == GameState::Process && final(self).intent() == Some(
                message,
            ),
            !accepted ==> final(self).phase() == old(self).phase() && final(self).intent() == old(
                self,
            ).intent(),
            final(self).cells() == old(self).cells(),
            final(self).slots() == old(self).slots(),
            final(self).settings() == old(self).settings(),
    {
        match self.state {
            GameState::Wait => {
                self.direction = Some(message);
                self.state = GameState::Process;
                true
            },
            _ => false,
        }
    }

    /// The `Process` phase: slides the board in the direction of the intent.
    /// A slide that leaves the board as it was is dropped and the game waits
    /// again; otherwise the board after the slide becomes the board of the
    /// game, the tiles are told their moves, and the game goes on to
    /// `Movement`.
    fn process_phase(&mut self) -> (step: Step)
        requires
            old(self).wf(),
            old(self).phase() == GameState::Process,
        ensures
            final(self).wf(),
            final(self).settings() == old(self).settings(),
            final(self).intent() is None,
            ({
                let before = old(self).cells();
                let direction = old(self).intended();
                let after = resolved_cells(before, N as int, direction, old(self).slots());
                let moves = resolved_moves(
                    before,
                    N as int,
                    direction,
                    old(self).slots(),
                    old(self).settings().move_time,
                );
                if after == before {
                    &&& final(self).phase() == GameState::Wait
                    &&& final(self).cells() == before
                    &&& final(self).slots() == old(self).slots()
                    &&& step is Rejected
                } else {
                    &&& final(self).phase() == GameState::Movement
                    &&& final(self).cells() == after
                    &&& final(self).slots() == enqueued(old(self).slots(), moves)
                    &&& step matches Step::Slid(told) && told@ == moves
                }
            }),
    {
        let ghost before = self.cells();
        let ghost slots = self.slots();
        let ghost intent = self.intent();
        let mut messages: Vec<DirectionMessage> = Vec::new();
        match self.direction {
            Some(message) => {
                messages.push(message);
            },
            None => {},
        }
        let out = process_direction_messages(
            &mut self.board_state,
            &self.params,
            &messages,
            &self.tiles,
        );
        self.direction = None;
        match out.0 {
            Some(GameState::Movement) => {
                let moves = out.1;
                let _stale = process_queued_move_messages(&mut self.tiles, &moves);
                self.state = GameState::Movement;
                proof {
                    lemma_slide_keeps_game(before, N as int, slots, self.params, intent->0);
                }
                Step::Slid(moves)
            },
            _ => {
                self.state = GameState::Wait;
                Step::Rejected
            },
        }
    }

    /// The `Movement` phase: lets `delta` time units pass for the tiles;
    /// when none is in the middle of a move any more, the game goes on to
    /// `Decision`.
    fn movement_phase(&mut self, delta: u64) -> (step: Step)
        requires
            old(self).wf(),
            old(self).phase() == GameState::Movement,
        ensures
            final(self).wf(),
            final(self).settings() == old(self).settings(),
            final(self).intent() == old(self).intent(),
            final(self).cells() == old(self).cells(),
            final(self).slots() == moved_tiles(old(self).slots(), delta),
            final(self).phase() == (if settled(final(self).slots()) {
                GameState::Decision
            } else {
                GameState::Movement
            }),
            step matches Step::Moved(gone) && gone@ == absorbed_upto(
                old(self).slots(),
                delta,
                old(self).slots().len() as int,
            ),
    {
        proof {
            lemma_tick_keeps_game(
                self.cells(),
                N as int,
                self.slots(),
                self.params,
                self.intent(),
                delta,
            );
        }
        let gone = queued_movement_system(&mut self.tiles, delta);
        if queued_system_finished(&self.tiles) {
            self.state = GameState::Decision;
        }
        Step::Moved(gone)
    }

    /// The `Decision` phase: puts a new tile on the board and judges the
    /// board: the game is won, lost, or waits for the next intent.
    fn decision_phase(&mut self, shared_rand: &mut SharedRand) -> (step: Step)
        requires
            old(self).wf(),
            old(self).phase() == GameState::Decision,
        ensures
            final(self).wf(),
            final(self).settings() == old(self).settings(),
            final(self).intent() == old(self).intent(),
            step matches Step::Spawned(id, tile) && {
                let k = cell_index(N as int, tile.position.0 as int, tile.position.1 as int);
                &&& id.0 == old(self).slots().len()
                &&& tile.queued is None
                &&& tile.value.0 == LOW_RANK || tile.value.0 == HIGH_RANK
                &&& tile.position.0 < N && tile.position.1 < N
                &&& old(self).cells()[k] is None
                &&& final(self).cells() == old(self).cells().update(k, Some(id))
                &&& final(self).slots() == old(self).slots().push(Some(tile))
            },
            final(self).phase() == outcome(
                final(self).cells(),
                N as int,
                final(self).slots(),
                old(self).settings().win_rank,
            ),
    {
        let ghost slots = self.slots();
        let ghost cells = self.cells();
        let spawned = produce_new_tile_system(
            &mut self.tiles,
            shared_rand,
            &mut self.board_state,
            &self.params,
        );
        proof {
            assert(self.tiles@.len() == self.tiles.slots.len());
            lemma_spawn_keeps_game(
                cells,
                N as int,
                slots,
                self.params,
                self.intent(),
                spawned.1,
            );
            assert(spawned.0 == TileId(slots.len() as usize));
        }
        let state = the_end_system(&self.board_state.0, &self.tiles, self.params.win_rank);
        self.state = state;
        Step::Spawned(spawned.0, spawned.1)
    }

    /// Advances the game by one step of its current phase. `delta` is the
    /// time that has passed since the last step; only the `Movement` phase
    /// uses it, and only the `Decision` phase draws from `shared_rand`. While
    /// the game waits for an intent, and once it is won or lost, nothing
    /// happens.
    pub fn update(&mut self, delta: u64, shared_rand: &mut SharedRand) -> (step: Step)
        requires
            old(self).wf(),
        ensures
            final(self).wf(),
            final(self).settings() == old(self).settings(),
            match old(self).phase() {
                GameState::Process => {
                    let before = old(self).cells();
                    let direction = old(self).intended();
                    let after = resolved_cells(before, N as int, direction, old(self).slots());
                    let moves = resolved_moves(
                        before,
                        N as int,
                        direction,
                        old(self).slots(),
                        old(self).settings().move_time,
                    );
                    if after == before {
                        &&& final(self).phase() == GameState::Wait
                        &&& final(self).cells() == before
                        &&& final(self).slots() == old(self).slots()
                        &&& step is Rejected
                    } else {
                        &&& final(self).phase() == GameState::Movement
                        &&& final(self).cells() == after
                        &&& final(self).slots() == enqueued(old(self).slots(), moves)
                        &&& step matches Step::Slid(told) && told@ == moves
                    }
                },
                GameState::Movement => {
                    &&& final(self).cells() == old(self).cells()
                    &&& final(self).slots() == moved_tiles(old(self).slots(), delta)
                    &&& final(self).phase() == (if settled(final(self).slots()) {
                        GameState::Decision
                    } else {
                        GameState::Movement
                    })
                    &&& step matches Step::Moved(gone) && gone@ == absorbed_upto(
                        old(self).slots(),
                        delta,
                        old(self).slots().len() as int,
                    )
                },
                GameState::Decision => {
                    &&& step matches Step::Spawned(id, tile) && {
                        let k = cell_index(
                            N as int,
                            tile.position.0 as int,
                            tile.position.1 as int,
                        );
                        &&& id.0 == old(self).slots().len()
                        &&& tile.queued is None
                        &&& tile.value.0 == LOW_RANK || tile.value.0 == HIGH_RANK
                        &&& tile.position.0 < N && tile.position.1 < N
                        &&& old(self).cells()[k] is None
                        &&& final(self).cells() == old(self).cells().update(k, Some(id))
                        &&& final(self).slots() == old(self).slots().push(Some(tile))
                    }
                    &&& final(self).phase() == outcome(
                        final(self).cells(),
                        N as int,
                        final(self).slots(),
                        old(self).settings().win_rank,
                    )
                },
                _ => {
                    &&& step is Idle
                    &&& final(self).phase() == old(self).phase()
                    &&& final(self).cells() == old(self).cells()
                    &&& final(self).slots() == old(self).slots()
                    &&& final(self).intent() == old(self).intent()
                },
            },
    {
        match self.state {
            GameState::Process => self.process_phase(),
            GameState::Movement => self.movement_phase(delta),
            GameState::Decision => self.decision_phase(shared_rand),
            _ => Step::Idle,
        }
    }
}

} // verus!

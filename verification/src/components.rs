//! Plain data of the game: the board, tile references, directions and
//! rotations.

use vstd::prelude::*;

verus! {

/// Square board of `N` x `N` cells in row-major order: the cell in column
/// `col` of row `row` has index `col + row * N`. A cell is empty or holds a
/// reference to a tile.
#[derive(Eq, PartialEq, Debug, Clone)]
pub struct Board<const N: usize, T>(pub Vec<Option<T>>);

impl<const N: usize, T> Board<N, T> {
    /// The cells of the board as a sequence.
    pub open spec fn cells(&self) -> Seq<Option<T>> {
        self.0@
    }

    /// The board has exactly `N * N` cells.
    pub open spec fn wf(&self) -> bool {
        self.0@.len() == N * N
    }

    /// A board without tiles, or nothing when `N * N` cells cannot be
    /// counted in a `usize`.
    pub fn vacant() -> (board: Option<Self>)
        ensures
            board is Some <==> N * N <= usize::MAX,
            board matches Some(b) ==> b.wf() && forall|k: int|
                0 <= k < N * N ==> (#[trigger] b.cells()[k]) is None,
    {
        match N.checked_mul(N) {
            None => None,
            Some(total) => {
                let mut cells: Vec<Option<T>> = Vec::new();
                let mut k: usize = 0;
                while k < total
                    invariant
                        k <= total,
                        cells@.len() == k,
                        forall|j: int| 0 <= j < k ==> (#[trigger] cells@[j]) is None,
                    decreases total - k,
                {
                    cells.push(None);
                    k += 1;
                }
                Some(Board(cells))
            },
        }
    }
}

/// Column and row of a cell.
#[derive(Copy, Clone, Eq, PartialEq, Structural, Debug)]
pub struct Position(pub usize, pub usize);

/// Rank of a tile.
#[derive(Copy, Clone, Eq, PartialEq, Structural, Debug)]
pub struct Value(pub usize);

/// Direction of a slide.
#[derive(Copy, Clone, Eq, PartialEq, Structural, Debug)]
pub enum Direction {
    Left,
    Right,
    Up,
    Down,
}

impl Default for Direction {
    fn default() -> (d: Direction)
        ensures
            d == Direction::Right,
    {
        Direction::Right
    }
}

/// Rotation of the board by a multiple of a quarter turn.
#[derive(Clone, Copy, Eq, PartialEq, Structural, Debug)]
pub enum RotateBy {
    Identity,
    Left,
    Right,
    Full,
}

impl RotateBy {
    /// The rotation that undoes `self`.
    pub open spec fn reverted(self) -> RotateBy {
        match self {
            RotateBy::Identity => RotateBy::Identity,
            RotateBy::Left => RotateBy::Right,
            RotateBy::Right => RotateBy::Left,
            RotateBy::Full => RotateBy::Full,
        }
    }

    /// The rotation that turns a slide in `direction` into a slide toward
    /// column 0.
    pub open spec fn of_direction(direction: Direction) -> RotateBy {
        match direction {
            Direction::Left => RotateBy::Identity,
            Direction::Right => RotateBy::Full,
            Direction::Up => RotateBy::Left,
            Direction::Down => RotateBy::Right,
        }
    }

    /// Chooses the rotation under which sliding in `direction` becomes
    /// compacting every row toward column 0.
    pub fn from_direction(direction: &Direction) -> (by: RotateBy)
        ensures
            by == Self::of_direction(*direction),
    {
        match direction {
            Direction::Left => RotateBy::Identity,
            Direction::Right => RotateBy::Full,
            Direction::Up => RotateBy::Left,
            Direction::Down => RotateBy::Right,
        }
    }

    /// Returns the rotation that undoes `self`.
    pub fn revert(&self) -> (by: RotateBy)
        ensures
            by == self.reverted(),
    {
        match self {
            RotateBy::Identity => RotateBy::Identity,
            RotateBy::Left => RotateBy::Right,
            RotateBy::Right => RotateBy::Left,
            RotateBy::Full => RotateBy::Full,
        }
    }
}

/// Stable reference to a tile: its slot in the tile store. A slot is never
/// handed out twice, so a reference never comes to denote another tile.
#[derive(Copy, Clone, Eq, PartialEq, Structural, Debug, Hash)]
pub struct TileId(pub usize);

/// One-shot countdown in whole time units (the caller picks the unit and
/// keeps to it).
#[derive(Copy, Clone, Eq, PartialEq, Structural, Debug)]
pub struct Timer {
    /// Time after which the timer is finished.
    pub duration: u64,
    /// Time that has passed, never more than `duration` once ticked.
    pub elapsed: u64,
    /// Set by the tick on which `elapsed` reaches `duration`.
    pub finished: bool,
}

impl Timer {
    /// The timer after `delta` more time units: a finished timer stays as it
    /// is; otherwise the elapsed time grows by `delta`, and the timer finishes
    /// and stops at its duration when that is reached.
    pub open spec fn ticked(self, delta: u64) -> Timer {
        if self.finished {
            self
        } else if self.elapsed + delta >= self.duration {
            Timer { duration: self.duration, elapsed: self.duration, finished: true }
        } else {
            Timer {
                duration: self.duration,
                elapsed: (self.elapsed + delta) as u64,
                finished: false,
            }
        }
    }

    /// Time left until the timer finishes.
    pub open spec fn time_left(self) -> int {
        if self.elapsed >= self.duration {
            0
        } else {
            self.duration - self.elapsed
        }
    }

    /// A fresh timer that finishes after `duration` time units.
    pub fn new(duration: u64) -> (t: Timer)
        ensures
            t == (Timer { duration, elapsed: 0, finished: false }),
    {
        Timer { duration, elapsed: 0, finished: false }
    }

    /// Advances the timer by `delta` time units.
    pub fn tick(&mut self, delta: u64)
        ensures
            *final(self) == old(self).ticked(delta),
    {
        if !self.finished {
            if delta >= self.duration || self.elapsed >= self.duration - delta {
                self.elapsed = self.duration;
                self.finished = true;
            } else {
                self.elapsed = self.elapsed + delta;
            }
        }
    }

    /// Whether a tick has brought the timer to its duration.
    pub fn is_finished(&self) -> (b: bool)
        ensures
            b == self.finished,
    {
        self.finished
    }

    /// Time left until the timer finishes.
    pub fn remaining(&self) -> (left: u64)
        ensures
            left == self.time_left(),
    {
        if self.elapsed >= self.duration {
            0
        } else {
            self.duration - self.elapsed
        }
    }
}

/// A transition that a tile is going through: the cell it moves to, the
/// countdown of the move, and the tile it absorbs on arrival, if any.
#[derive(Copy, Clone, Eq, PartialEq, Debug)]
pub struct QueuedMove(pub Position, pub Timer, pub Option<TileId>);

/// Instruction to move a tile: the tile, the cell it moves to, the countdown
/// of the move, the tile it absorbs on arrival, if any, and the cell it
/// leaves.
#[derive(Copy, Clone, Eq, PartialEq, Debug)]
pub struct QueuedMoveMessage(
    pub TileId,
    pub Position,
    pub Timer,
    pub Option<TileId>,
    pub Position,
);

/// A directional intent of the player.
#[derive(Copy, Clone, Eq, PartialEq, Debug)]
pub struct DirectionMessage(pub Direction);

impl Default for DirectionMessage {
    fn default() -> (m: DirectionMessage)
        ensures
            m.0 == Direction::Right,
    {
        DirectionMessage(Direction::Right)
    }
}

/// A tile: its rank, the cell it rests in or last rested in, and the
/// transition it is going through, if any.
#[derive(Copy, Clone, Eq, PartialEq, Debug)]
pub struct Tile {
    pub value: Value,
    pub position: Position,
    pub queued: Option<QueuedMove>,
}

/// The tiles that exist, each in the slot that its reference names. The slot
/// of a removed tile stays empty for good.
#[derive(Clone, Eq, PartialEq, Debug)]
pub struct Tiles {
    pub slots: Vec<Option<Tile>>,
}

/// Whether `id` names a tile that exists in `slots`.
pub open spec fn is_live(slots: Seq<Option<Tile>>, id: TileId) -> bool {
    id.0 < slots.len() && slots[id.0 as int] is Some
}

/// Rank of the tile that `id` names in `slots`.
pub open spec fn rank_of(slots: Seq<Option<Tile>>, id: TileId) -> usize {
    slots[id.0 as int]->0.value.0
}

impl View for Tiles {
    type V = Seq<Option<Tile>>;

    open spec fn view(&self) -> Seq<Option<Tile>> {
        self.slots@
    }
}

impl Tiles {
    /// A store without tiles.
    pub fn new() -> (tiles: Tiles)
        ensures
            tiles@.len() == 0,
    {
        Tiles { slots: Vec::new() }
    }

    /// Number of slots handed out so far.
    pub fn len(&self) -> (n: usize)
        ensures
            n == self@.len(),
    {
        self.slots.len()
    }

    /// Adds a tile and returns its reference, which no tile had before.
    pub fn insert(&mut self, tile: Tile) -> (id: TileId)
        ensures
            id.0 == old(self)@.len(),
            final(self)@ == old(self)@.push(Some(tile)),
    {
        let id = TileId(self.slots.len());
        self.slots.push(Some(tile));
        id
    }

    /// The tile that `id` names, if it exists.
    pub fn get(&self, id: TileId) -> (tile: Option<Tile>)
        ensures
            tile == (if is_live(self@, id) {
                self@[id.0 as int]
            } else {
                None
            }),
    {
        if id.0 < self.slots.len() {
            self.slots[id.0]
        } else {
            None
        }
    }

    /// Whether `id` names a tile that exists.
    pub fn contains(&self, id: TileId) -> (b: bool)
        ensures
            b == is_live(self@, id),
    {
        id.0 < self.slots.len() && self.slots[id.0].is_some()
    }

    /// Rank of the tile that `id` names.
    pub fn value_of(&self, id: TileId) -> (v: usize)
        requires
            is_live(self@, id),
        ensures
            v == rank_of(self@, id),
    {
        match self.slots[id.0] {
            Some(tile) => tile.value.0,
            None => unreached(),
        }
    }

    /// Removes the tile that `id` names, if it exists; its slot stays empty.
    pub fn remove(&mut self, id: TileId)
        ensures
            final(self)@ == (if id.0 < old(self)@.len() {
                old(self)@.update(id.0 as int, None)
            } else {
                old(self)@
            }),
    {
        if id.0 < self.slots.len() {
            self.slots.set(id.0, None);
        }
    }
}

/// The board that the game is played on.
#[derive(Clone, Eq, PartialEq, Debug)]
pub struct BoardStateResource<const N: usize>(pub Board<N, TileId>);

/// What can be set for a game: the time a move takes, the rank that wins,
/// and in how many of how many cases a new tile has the high rank.
#[derive(Copy, Clone, Eq, PartialEq, Debug)]
pub struct GameParams {
    pub move_time: u64,
    pub win_rank: usize,
    pub high_rank_numerator: u32,
    pub high_rank_denominator: u32,
}

impl GameParams {
    /// The odds of the high rank are a ratio between zero and one.
    pub open spec fn odds_valid(self) -> bool {
        &&& self.high_rank_denominator > 0
        &&& self.high_rank_numerator <= self.high_rank_denominator
    }

    /// The odds are a ratio between zero and one, and the winning rank is
    /// above the ranks 1 and 2 that new tiles have.
    pub open spec fn valid(self) -> bool {
        &&& self.odds_valid()
        &&& self.win_rank > 2
    }

    /// Whether the parameters are valid.
    pub fn is_valid(&self) -> (ok: bool)
        ensures
            ok == self.valid(),
    {
        self.high_rank_denominator > 0 && self.high_rank_numerator <= self.high_rank_denominator
            && self.win_rank > 2
    }
}

impl Default for GameParams {
    /// A move takes 1,000,000,000 time units (one second in nanoseconds),
    /// rank 11 wins, and one new tile in five has the high rank.
    fn default() -> (params: GameParams)
        ensures
            params == (GameParams {
                move_time: 1_000_000_000,
                win_rank: 11,
                high_rank_numerator: 1,
                high_rank_denominator: 5,
            }),
            params.valid(),
    {
        GameParams {
            move_time: 1_000_000_000,
            win_rank: 11,
            high_rank_numerator: 1,
            high_rank_denominator: 5,
        }
    }
}

} // verus!

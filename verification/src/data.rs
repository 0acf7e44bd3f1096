//! Plain values read from a turn's snapshot.

use vstd::prelude::*;
use crate::rank::distinct_ids;
use crate::rank::ids_distinct;
use crate::torus::is_size;
use crate::torus::on_grid;

verus! {

/// Identifier of a player.
pub type PID = u8;

/// Identifier of a unit.
pub type ID = u16;

/// A coordinate, or a distance, along one axis of the grid.
pub type Dist = i8;

/// An absolute turn number, or a number of turns.
pub type Time = i16;

/// An amount of the resource.
pub type Halite = i32;

/// A cell of the grid: column, then row.
#[derive(Copy, Clone, Debug, PartialEq, Eq, PartialOrd, Ord, Hash, Structural)]
pub struct Pos(pub Dist, pub Dist);

/// A unit as the snapshot reports it.
#[derive(Copy, Clone, Debug, PartialEq, Eq, Hash, Structural)]
pub struct Ship {
    pub owner: u8,
    pub id: u16,
    pub x: i8,
    pub y: i8,
    pub halite: Halite,
}

/// A player's base, where units are spawned and unload.
#[derive(Copy, Clone, Debug, PartialEq, Eq, Hash, Structural)]
pub struct Shipyard {
    pub owner: u8,
    pub x: i8,
    pub y: i8,
}

/// A further place where a player's units unload.
#[derive(Copy, Clone, Debug, PartialEq, Eq, Hash, Structural)]
pub struct Dropoff {
    pub owner: u8,
    pub x: i8,
    pub y: i8,
}

impl Ship {
    /// The cell the unit stands on.
    pub open spec fn cell(self) -> Pos {
        Pos(self.x, self.y)
    }

    /// The cell the unit stands on.
    pub fn pos(&self) -> (p: Pos)
        ensures
            p == self.cell(),
    {
        Pos(self.x, self.y)
    }
}

impl Shipyard {
    /// The cell of the base.
    pub open spec fn cell(self) -> Pos {
        Pos(self.x, self.y)
    }

    /// The cell of the base.
    pub fn pos(&self) -> (p: Pos)
        ensures
            p == self.cell(),
    {
        Pos(self.x, self.y)
    }
}

impl Dropoff {
    /// The cell of the dropoff.
    pub open spec fn cell(self) -> Pos {
        Pos(self.x, self.y)
    }
}

/// The units of player `id` (`own`), or those of the other players, in the
/// order in which they are listed.
pub open spec fn fleet(ships: Seq<Ship>, id: PID, own: bool) -> Seq<Ship>
    decreases ships.len(),
{
    if ships.len() == 0 {
        Seq::empty()
    } else {
        let rest = fleet(ships.drop_last(), id, own);
        if (ships.last().owner == id) == own {
            rest.push(ships.last())
        } else {
            rest
        }
    }
}

/// Every unit of a fleet is one of the listed units, and a unit of the
/// player exactly if the fleet is the player's own.
pub proof fn lemma_fleet(ships: Seq<Ship>, id: PID, own: bool, k: int)
    requires
        0 <= k < fleet(ships, id, own).len(),
    ensures
        (fleet(ships, id, own)[k].owner == id) == own,
        exists|i: int| 0 <= i < ships.len() && #[trigger] ships[i] == fleet(ships, id, own)[k],
    decreases ships.len(),
{
    let rest = fleet(ships.drop_last(), id, own);
    if k < rest.len() {
        lemma_fleet(ships.drop_last(), id, own, k);
        let i = choose|i: int| 0 <= i < ships.drop_last().len() && #[trigger] ships.drop_last()[i] == rest[k];
        assert(ships[i] == rest[k]);
    } else {
        assert(ships[ships.len() - 1] == fleet(ships, id, own)[k]);
    }
}

/// One turn's snapshot of the game.
#[derive(Debug, Clone)]
pub struct State {
    /// The player this library plans for.
    pub id: PID,
    /// Width of the grid.
    pub width: Dist,
    /// Height of the grid.
    pub height: Dist,
    /// The turn.
    pub round: Time,
    /// What each player has banked.
    pub scores: Vec<Halite>,
    /// The dropoffs of all players.
    pub drops: Vec<Dropoff>,
    /// The units of all players.
    pub ships: Vec<Ship>,
    /// The base of each player.
    pub yards: Vec<Shipyard>,
    /// The resource on each cell, row by row.
    pub halite: Vec<Halite>,
}

/// A snapshot as plain values: what `State` holds, with lists for vectors.
#[verifier::ext_equal]
pub struct Snapshot {
    pub id: PID,
    pub width: Dist,
    pub height: Dist,
    pub round: Time,
    pub scores: Seq<Halite>,
    pub drops: Seq<Dropoff>,
    pub ships: Seq<Ship>,
    pub yards: Seq<Shipyard>,
    pub halite: Seq<Halite>,
}

impl View for State {
    type V = Snapshot;

    open spec fn view(&self) -> Snapshot {
        Snapshot {
            id: self.id,
            width: self.width,
            height: self.height,
            round: self.round,
            scores: self.scores@,
            drops: self.drops@,
            ships: self.ships@,
            yards: self.yards@,
            halite: self.halite@,
        }
    }
}

impl State {
    /// Whether the snapshot is one a turn can be planned from: the grid has
    /// a size and one resource value per cell, the turn is not the last
    /// that can be numbered, every unit and dropoff lies on the grid, the
    /// player has a score and a base on the grid, and no two of the
    /// player's units share an identifier.
    pub open spec fn valid(&self) -> bool {
        &&& is_size(self.width as int, self.height as int)
        &&& 0 <= self.round < Time::MAX
        &&& self.halite@.len() == self.width * self.height
        &&& forall|i: int|
            0 <= i < self.ships@.len() ==> on_grid(
                self.width as int,
                self.height as int,
                (#[trigger] self.ships@[i]).cell(),
            )
        &&& forall|i: int|
            0 <= i < self.drops@.len() ==> on_grid(
                self.width as int,
                self.height as int,
                (#[trigger] self.drops@[i]).cell(),
            )
        &&& self.id < self.yards@.len()
        &&& self.id < self.scores@.len()
        &&& on_grid(self.width as int, self.height as int, self.yards@[self.id as int].cell())
        &&& distinct_ids(fleet(self.ships@, self.id, true))
    }

    /// Tells whether the snapshot is one a turn can be planned from.
    pub fn is_valid(&self) -> (ok: bool)
        ensures
            ok == self.valid(),
    {
        if !(0 < self.width && 0 < self.height && 0 <= self.round && self.round < Time::MAX) {
            return false;
        }
        let w = self.width;
        let h = self.height;
        assert(0 < w * h <= 127 * 127) by (nonlinear_arith)
            requires
                0 < w <= 127,
                0 < h <= 127,
        ;
        if self.halite.len() != w as usize * h as usize {
            return false;
        }
        let mut i: usize = 0;
        while i < self.ships.len()
            invariant
                w == self.width,
                h == self.height,
                0 <= i <= self.ships@.len(),
                forall|k: int|
                    0 <= k < i ==> on_grid(w as int, h as int, (#[trigger] self.ships@[k]).cell()),
            decreases self.ships@.len() - i,
        {
            let s = self.ships[i];
            if !(0 <= s.x && s.x < w && 0 <= s.y && s.y < h) {
                assert(!on_grid(w as int, h as int, self.ships@[i as int].cell()));
                return false;
            }
            i += 1;
        }
        let mut j: usize = 0;
        while j < self.drops.len()
            invariant
                w == self.width,
                h == self.height,
                0 <= j <= self.drops@.len(),
                forall|k: int|
                    0 <= k < j ==> on_grid(w as int, h as int, (#[trigger] self.drops@[k]).cell()),
            decreases self.drops@.len() - j,
        {
            let d = self.drops[j];
            if !(0 <= d.x && d.x < w && 0 <= d.y && d.y < h) {
                assert(!on_grid(w as int, h as int, self.drops@[j as int].cell()));
                return false;
            }
            j += 1;
        }
        if (self.id as usize) >= self.yards.len() || (self.id as usize) >= self.scores.len() {
            return false;
        }
        let yard = self.yards[self.id as usize];
        if !(0 <= yard.x && yard.x < w && 0 <= yard.y && yard.y < h) {
            return false;
        }
        let own = self.allies();
        ids_distinct(&own)
    }

    /// What the player has banked.
    pub fn halite(&self) -> (banked: Halite)
        requires
            self.id < self.scores@.len(),
        ensures
            banked == self.scores@[self.id as int],
    {
        self.scores[self.id as usize]
    }

    /// The player's own units, in the order of the snapshot.
    pub fn allies(&self) -> (own: Vec<Ship>)
        ensures
            own@ == fleet(self.ships@, self.id, true),
    {
        self.side(true)
    }

    /// The units of the other players, in the order of the snapshot.
    pub fn enemies(&self) -> (others: Vec<Ship>)
        ensures
            others@ == fleet(self.ships@, self.id, false),
    {
        self.side(false)
    }

    /// The units of one side, in the order of the snapshot.
    fn side(&self, own: bool) -> (out: Vec<Ship>)
        ensures
            out@ == fleet(self.ships@, self.id, own),
    {
        let mut out: Vec<Ship> = Vec::new();
        let mut i: usize = 0;
        while i < self.ships.len()
            invariant
                0 <= i <= self.ships@.len(),
                out@ == fleet(self.ships@.take(i as int), self.id, own),
            decreases self.ships@.len() - i,
        {
            let s = self.ships[i];
            proof {
                assert(self.ships@.take(i as int + 1).drop_last() =~= self.ships@.take(i as int));
                assert(self.ships@.take(i as int + 1).last() == s);
            }
            if (s.owner == self.id) == own {
                out.push(s);
            }
            i += 1;
        }
        assert(self.ships@.take(i as int) =~= self.ships@);
        out
    }
}

} // verus!

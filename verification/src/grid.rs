//! One turn's view of the grid: its size, the resource on each cell, who
//! stands where, and the store of reservations and routes that the routes
//! of this turn are planned into.

use vstd::prelude::*;
use std::collections::HashMap;
use std::collections::HashSet;
use std::collections::VecDeque;
use fixedbitset::FixedBitSet;
use crate::bitset::bits;
use crate::command::Command;
use crate::data::Dist;
use crate::data::Dropoff;
use crate::data::Halite;
use crate::data::ID;
use crate::data::PID;
use crate::data::Pos;
use crate::data::Ship;
use crate::data::Shipyard;
use crate::data::Time;
use crate::schedule::Schedule;
use crate::schedule::claim_all;
use crate::schedule::from_turn;
use crate::schedule::is_route;
use crate::schedule::key_of;
use crate::schedule::key_turn;
use crate::schedule::lemma_claim_all;
use crate::schedule::slot_key;
use crate::schedule::without_unit;
use crate::search::Node;
use crate::search::best_of;
use crate::search::is_tree;
use crate::search::lemma_path_entries;
use crate::search::lemma_path_is_route;
use crate::search::linked;
use crate::search::path_to;
use crate::search::pop_best;
use crate::search::precedes;
use crate::search::trace;
use crate::tables::Roster;
use crate::tables::Table;
use crate::tables::roster_contains;
use crate::tables::roster_insert;
use crate::tables::table_get;
use crate::tables::table_insert;
use crate::torus::Dir;
use crate::torus::axis_dist;
use crate::torus::is_size;
use crate::torus::lemma_dir_inverts_step;
use crate::torus::lemma_wrap;
use crate::torus::on_grid;
use crate::torus::torus_dir;
use crate::torus::torus_dist;
use crate::torus::torus_step;

verus! {

/// The four moves that leave a cell, in the order in which they are tried.
pub const DIRS: [Dir; 4] = [Dir::N, Dir::S, Dir::E, Dir::W];

/// Place of a cell in a row-major list of the cells of a grid `w` wide.
pub open spec fn cell_index(w: int, p: Pos) -> int {
    p.1 * w + p.0
}

/// The cell at a place of a row-major list of the cells of a grid `w` wide.
pub open spec fn index_cell(w: int, i: int) -> Pos {
    Pos((i % w) as Dist, (i / w) as Dist)
}

/// A cell of the grid has a place in the list, and no two share one.
pub proof fn lemma_cell_index(w: int, h: int, p: Pos)
    requires
        is_size(w, h),
        on_grid(w, h, p),
    ensures
        0 <= cell_index(w, p) < w * h,
        index_cell(w, cell_index(w, p)) == p,
{
    let x = p.0 as int;
    let y = p.1 as int;
    assert(0 <= y * w + x < w * h) by (nonlinear_arith)
        requires
            0 <= x < w,
            0 <= y < h,
    ;
    vstd::arithmetic::div_mod::lemma_fundamental_div_mod_converse(y * w + x, w, y, x);
}

/// Every place in the list is that of a cell of the grid.
pub proof fn lemma_index_cell(w: int, h: int, i: int)
    requires
        is_size(w, h),
        0 <= i < w * h,
    ensures
        on_grid(w, h, index_cell(w, i)),
        cell_index(w, index_cell(w, i)) == i,
{
    vstd::arithmetic::div_mod::lemma_fundamental_div_mod(i, w);
    vstd::arithmetic::div_mod::lemma_mod_bound(i, w);
    let q = i / w;
    let r = i % w;
    assert(0 <= q < h) by (nonlinear_arith)
        requires
            0 <= i < w * h,
            i == w * q + r,
            0 <= r < w,
            0 < w,
    ;
    assert(w * q == q * w) by (nonlinear_arith);
}

/// Whether every unit stands on the grid.
pub open spec fn ships_on_grid(w: int, h: int, ships: Seq<Ship>) -> bool {
    forall|i: int| 0 <= i < ships.len() ==> on_grid(w, h, (#[trigger] ships[i]).cell())
}

/// Whether every dropoff lies on the grid.
pub open spec fn drops_on_grid(w: int, h: int, drops: Seq<Dropoff>) -> bool {
    forall|i: int| 0 <= i < drops.len() ==> on_grid(w, h, (#[trigger] drops[i]).cell())
}

/// Whether a unit of player `id` (`own`), or of another player, stands on `p`.
pub open spec fn ship_at(ships: Seq<Ship>, id: PID, own: bool, p: Pos) -> bool {
    exists|i: int|
        0 <= i < ships.len() && (#[trigger] ships[i]).cell() == p && (ships[i].owner == id) == own
}

/// Whether a dropoff of player `id` lies on `p`.
pub open spec fn drop_at(drops: Seq<Dropoff>, id: PID, p: Pos) -> bool {
    exists|i: int| 0 <= i < drops.len() && (#[trigger] drops[i]).cell() == p && drops[i].owner == id
}

/// What a move away from a cell with `halite` on it costs the unit.
pub open spec fn move_cost(halite: Halite) -> int {
    if halite <= 0 {
        0
    } else {
        halite as int / 10
    }
}

/// The distance within which a unit of another player is a threat.
pub const THREAT_RADIUS: Dist = 2;

/// What every turn of a route costs.
pub const TIME_COST: u64 = 1;

/// What a move onto a cell that one of the player's own units stands on
/// costs more.
pub const CROWDING_COST: u64 = 1_000;

/// What a move costs more that should all but never be made: onto a
/// threatened cell, or from the base onto a cell that one of the player's
/// own units stands on.
pub const BLOCKING_COST: u64 = 1_000_000_000;

/// How many times the distance to the target counts in a state's estimate.
pub const HEURISTIC_WEIGHT: u64 = 2;

/// More than any single turn of a route costs.
pub const STEP_LIMIT: u64 = 3_000_000_000;

/// The moves in the order in which a unit without a route considers them.
pub open spec fn candidate(k: int) -> Dir {
    if k <= 0 {
        Dir::O
    } else if k == 1 {
        Dir::N
    } else if k == 2 {
        Dir::S
    } else if k == 3 {
        Dir::E
    } else {
        Dir::W
    }
}

/// The moves in the order in which a unit without a route considers them.
pub fn nth_candidate(k: usize) -> (d: Dir)
    ensures
        d == candidate(k as int),
{
    if k == 0 {
        Dir::O
    } else if k == 1 {
        Dir::N
    } else if k == 2 {
        Dir::S
    } else if k == 3 {
        Dir::E
    } else {
        Dir::W
    }
}

/// The moves in the order in which a search tries them: the four that
/// leave the cell, then staying.
pub open spec fn tried(m: int) -> Dir {
    candidate(if 0 <= m < 4 {
        m + 1
    } else {
        0
    })
}

/// The moves in the order in which a search tries them.
pub fn nth_tried(m: usize) -> (d: Dir)
    ensures
        d == tried(m as int),
{
    nth_candidate(if m < 4 {
        m + 1
    } else {
        0
    })
}

/// What a unit still carries after it has gone the way `way` from `start`,
/// which it left with `halite`: every move away from a cell costs what
/// leaving that cell costs, and staying costs nothing. `field` is the
/// resource on the cells of a grid `w` wide.
pub open spec fn fuel_after(
    field: Seq<Halite>,
    w: int,
    start: Pos,
    halite: int,
    way: Seq<(Pos, Time)>,
) -> int
    decreases way.len(),
{
    if way.len() == 0 {
        halite
    } else {
        let from = if way.len() == 1 {
            start
        } else {
            way[way.len() - 2].0
        };
        fuel_after(field, w, start, halite, way.drop_last()) - (if way.last().0 != from {
            move_cost(field[cell_index(w, from)])
        } else {
            0
        })
    }
}

/// Whether a way is one at whose end a search stops: it ends on `target`,
/// or the unit cannot pay for a move away from its last cell, or it is
/// `horizon` turns long.
pub open spec fn ends(
    field: Seq<Halite>,
    w: int,
    start: Pos,
    halite: int,
    way: Seq<(Pos, Time)>,
    target: Pos,
    horizon: int,
) -> bool {
    way.len() > 0 && (way.last().0 == target || fuel_after(field, w, start, halite, way)
        < move_cost(field[cell_index(w, way.last().0)]) || way.len() >= horizon)
}

/// The key of the slot of a state of the search.
pub open spec fn node_key(n: Node) -> u64 {
    slot_key(n.pos, n.round)
}

/// Whether a state for cell `c` at turn `t` is among the states reached.
pub open spec fn has_state(nodes: Seq<Node>, c: Pos, t: int) -> bool {
    exists|i: int| 0 <= i < nodes.len() && (#[trigger] nodes[i]).pos == c && nodes[i].round == t
}

/// Whether a key is that of the slot of a state reached.
pub open spec fn keyed(nodes: Seq<Node>, k: u64) -> bool {
    exists|i: int| 0 <= i < nodes.len() && node_key(#[trigger] nodes[i]) == k
}

/// A finite set of numbers below `m` has at most `m` members.
pub proof fn lemma_small_set(s: Set<u64>, m: nat)
    requires
        s.finite(),
        m <= 0x1_0000_0000_0000_0000,
        forall|k: u64| s.contains(k) ==> k < m,
    ensures
        s.len() <= m,
    decreases m,
{
    broadcast use vstd::set::group_set_axioms;

    if m == 0 {
        assert(s =~= Set::<u64>::empty());
    } else {
        let top = (m - 1) as u64;
        let rest = s.remove(top);
        assert forall|k: u64| rest.contains(k) implies k < m - 1 by {
            assert(s.contains(k));
        }
        lemma_small_set(rest, (m - 1) as nat);
    }
}

/// One turn's view of the grid.
#[derive(Debug)]
pub struct Grid<'round> {
    width: Dist,
    height: Dist,
    round: Time,
    halite: &'round [Halite],
    allies: FixedBitSet,
    enemies: FixedBitSet,
    drops: FixedBitSet,
    spawn: Pos,
    schedule: Schedule,
}

impl<'round> Grid<'round> {
    /// Width of the grid.
    pub closed spec fn width(&self) -> int {
        self.width as int
    }

    /// Height of the grid.
    pub closed spec fn height(&self) -> int {
        self.height as int
    }

    /// The turn this view belongs to.
    pub closed spec fn round(&self) -> Time {
        self.round
    }

    /// The player's base.
    pub closed spec fn spawn(&self) -> Pos {
        self.spawn
    }

    /// The resource on each cell, row by row.
    pub closed spec fn field(&self) -> Seq<Halite> {
        self.halite@
    }

    /// The store of reservations and routes.
    pub closed spec fn schedule(&self) -> Schedule {
        self.schedule
    }

    /// The resource on a cell.
    pub open spec fn resource(&self, p: Pos) -> Halite {
        self.field()[cell_index(self.width(), p)]
    }

    /// Whether one of the player's own units stands on the cell.
    pub closed spec fn ally(&self, p: Pos) -> bool {
        bits(self.allies)[cell_index(self.width(), p)]
    }

    /// Whether a unit of another player stands on the cell.
    pub closed spec fn enemy(&self, p: Pos) -> bool {
        bits(self.enemies)[cell_index(self.width(), p)]
    }

    /// Whether the cell is the player's base or one of its dropoffs.
    pub closed spec fn harbor(&self, p: Pos) -> bool {
        bits(self.drops)[cell_index(self.width(), p)]
    }

    /// Whether `p` is a cell of this grid.
    pub open spec fn has(&self, p: Pos) -> bool {
        on_grid(self.width(), self.height(), p)
    }

    /// Distance between two cells of this grid.
    pub open spec fn spec_dist(&self, a: Pos, b: Pos) -> int {
        torus_dist(self.width(), self.height(), a, b)
    }

    /// The cell one move away from `p` on this grid.
    pub open spec fn spec_step(&self, p: Pos, d: Dir) -> Pos {
        torus_step(self.width(), self.height(), p, d)
    }

    /// The view is consistent: a size, a turn, one resource value and one
    /// mark of each kind per cell, a base on the grid, and a well-formed
    /// store for a grid of this size.
    pub closed spec fn wf(&self) -> bool {
        &&& is_size(self.width as int, self.height as int)
        &&& self.round >= 0
        &&& self.halite@.len() == self.width * self.height
        &&& bits(self.allies).len() == self.width * self.height
        &&& bits(self.enemies).len() == self.width * self.height
        &&& bits(self.drops).len() == self.width * self.height
        &&& on_grid(self.width as int, self.height as int, self.spawn)
        &&& self.schedule.wf()
        &&& self.schedule.width() == self.width
        &&& self.schedule.height() == self.height
    }

    /// What a well-formed view promises of the values that callers see.
    pub proof fn lemma_wf(&self)
        requires
            self.wf(),
        ensures
            is_size(self.width(), self.height()),
            self.round() >= 0,
            self.field().len() == self.width() * self.height(),
            self.has(self.spawn()),
            self.schedule().wf(),
            self.schedule().width() == self.width(),
            self.schedule().height() == self.height(),
    {
    }

    /// Builds the view of a turn from the snapshot: marks the cells on which
    /// the player's units and the others' stand, and the player's base and
    /// dropoffs, and takes over the store.
    pub fn new(
        id: PID,
        width: Dist,
        height: Dist,
        round: Time,
        halite: &'round [Halite],
        ships: &[Ship],
        dropoffs: &[Dropoff],
        yards: &[Shipyard],
        schedule: Schedule,
    ) -> (g: Self)
        requires
            is_size(width as int, height as int),
            round >= 0,
            halite@.len() == width * height,
            ships_on_grid(width as int, height as int, ships@),
            drops_on_grid(width as int, height as int, dropoffs@),
            id < yards@.len(),
            on_grid(width as int, height as int, yards@[id as int].cell()),
            schedule.wf(),
            schedule.width() == width,
            schedule.height() == height,
        ensures
            g.wf(),
            g.width() == width,
            g.height() == height,
            g.round() == round,
            g.field() == halite@,
            g.spawn() == yards@[id as int].cell(),
            g.schedule() == schedule,
            forall|p: Pos| #[trigger] g.has(p) ==> g.ally(p) == ship_at(ships@, id, true, p),
            forall|p: Pos| #[trigger] g.has(p) ==> g.enemy(p) == ship_at(ships@, id, false, p),
            forall|p: Pos| #[trigger]
                g.has(p) ==> g.harbor(p) == (p == g.spawn() || drop_at(dropoffs@, id, p)),
    {
        let ghost w = width as int;
        let ghost h = height as int;
        assert(0 < w * h <= 127 * 127) by (nonlinear_arith)
            requires
                0 < w <= 127,
                0 < h <= 127,
        ;
        let capacity = width as usize * height as usize;
        let mut allies = FixedBitSet::with_capacity(capacity);
        let mut enemies = FixedBitSet::with_capacity(capacity);
        let mut drops = FixedBitSet::with_capacity(capacity);

        assert forall|p: Pos| #[trigger] on_grid(w, h, p) implies 0 <= cell_index(w, p) < w * h
            && !ship_at(ships@.take(0), id, true, p) && !ship_at(ships@.take(0), id, false, p)
            && !drop_at(dropoffs@.take(0), id, p) by {
            lemma_cell_index(w, h, p);
        }
        let mut i: usize = 0;
        while i < ships.len()
            invariant
                is_size(w, h),
                w == width,
                h == height,
                capacity == w * h,
                i <= ships@.len(),
                ships_on_grid(w, h, ships@),
                bits(allies).len() == capacity,
                bits(enemies).len() == capacity,
                forall|p: Pos| #[trigger]
                    on_grid(w, h, p) ==> bits(allies)[cell_index(w, p)] == ship_at(
                        ships@.take(i as int),
                        id,
                        true,
                        p,
                    ),
                forall|p: Pos| #[trigger]
                    on_grid(w, h, p) ==> bits(enemies)[cell_index(w, p)] == ship_at(
                        ships@.take(i as int),
                        id,
                        false,
                        p,
                    ),
            decreases ships@.len() - i,
        {
            let ship = ships[i];
            let ghost here = ship.cell();
            assert(on_grid(w, h, ships@[i as int].cell()));
            proof {
                lemma_cell_index(w, h, here);
            }
            let ship_idx = (ship.y as usize) * (width as usize) + (ship.x as usize);
            let own = ship.owner == id;
            if own {
                allies.put(ship_idx);
            } else {
                enemies.put(ship_idx);
            }
            proof {
                let before = ships@.take(i as int);
                let after = ships@.take(i as int + 1);
                assert(after == before.push(ship));
                assert forall|p: Pos| #[trigger] on_grid(w, h, p) implies bits(allies)[cell_index(
                    w,
                    p,
                )] == ship_at(after, id, true, p) && bits(enemies)[cell_index(w, p)] == ship_at(
                    after,
                    id,
                    false,
                    p,
                ) by {
                    lemma_cell_index(w, h, p);
                    lemma_ship_at_push(before, ship, id, true, p);
                    lemma_ship_at_push(before, ship, id, false, p);
                }
            }
            i += 1;
        }
        assert(ships@.take(i as int) == ships@);

        let mut j: usize = 0;
        while j < dropoffs.len()
            invariant
                is_size(w, h),
                w == width,
                h == height,
                capacity == w * h,
                j <= dropoffs@.len(),
                drops_on_grid(w, h, dropoffs@),
                bits(drops).len() == capacity,
                forall|p: Pos| #[trigger]
                    on_grid(w, h, p) ==> bits(drops)[cell_index(w, p)] == drop_at(
                        dropoffs@.take(j as int),
                        id,
                        p,
                    ),
            decreases dropoffs@.len() - j,
        {
            let drop = dropoffs[j];
            assert(on_grid(w, h, dropoffs@[j as int].cell()));
            proof {
                lemma_cell_index(w, h, drop.cell());
            }
            if drop.owner == id {
                let drop_idx = (drop.y as usize) * (width as usize) + (drop.x as usize);
                drops.put(drop_idx);
            }
            proof {
                let before = dropoffs@.take(j as int);
                let after = dropoffs@.take(j as int + 1);
                assert(after == before.push(drop));
                assert forall|p: Pos| #[trigger] on_grid(w, h, p) implies bits(drops)[cell_index(
                    w,
                    p,
                )] == drop_at(after, id, p) by {
                    lemma_cell_index(w, h, p);
                    lemma_drop_at_push(before, drop, id, p);
                }
            }
            j += 1;
        }
        assert(dropoffs@.take(j as int) == dropoffs@);

        let yard = yards[id as usize];
        let spawn = Pos(yard.x, yard.y);
        proof {
            lemma_cell_index(w, h, spawn);
        }
        let spawn_idx = (yard.y as usize) * (width as usize) + (yard.x as usize);
        drops.put(spawn_idx);
        let g = Grid { width, height, round, halite, allies, enemies, spawn, drops, schedule };
        assert forall|p: Pos| #[trigger] g.has(p) implies g.harbor(p) == (p == g.spawn() || drop_at(
            dropoffs@,
            id,
            p,
        )) by {
            lemma_cell_index(w, h, p);
            assert(on_grid(w, h, p));
        }
        assert forall|p: Pos| #[trigger] g.has(p) implies g.ally(p) == ship_at(
            ships@,
            id,
            true,
            p,
        ) && g.enemy(p) == ship_at(ships@, id, false, p) by {
            assert(on_grid(w, h, p));
        }
        g
    }

    /// Gives the store back, with what this turn planned into it.
    pub fn into_schedule(self) -> (s: Schedule)
        ensures
            s == self.schedule(),
    {
        self.schedule
    }

    /// The player's base.
    pub fn yard(&self) -> (p: Pos)
        ensures
            p == self.spawn(),
    {
        self.spawn
    }

    /// The turn this view belongs to.
    pub fn turn(&self) -> (t: Time)
        ensures
            t == self.round(),
    {
        self.round
    }

    /// The number of cells of the grid.
    pub fn cells(&self) -> (n: usize)
        requires
            self.wf(),
        ensures
            n == self.width() * self.height(),
    {
        let ghost w = self.width();
        let ghost h = self.height();
        assert(0 < w * h <= 127 * 127) by (nonlinear_arith)
            requires
                0 < w <= 127,
                0 < h <= 127,
        ;
        self.width as usize * self.height as usize
    }

    /// Whether two views show the same grid at the same turn; their
    /// stores may differ.
    pub closed spec fn same_view(&self, other: Self) -> bool {
        &&& self.width == other.width
        &&& self.height == other.height
        &&& self.round == other.round
        &&& self.halite@ == other.halite@
        &&& self.allies == other.allies
        &&& self.enemies == other.enemies
        &&& self.drops == other.drops
        &&& self.spawn == other.spawn
    }

    /// Views of the same grid agree on everything but the store.
    pub proof fn lemma_same_view(&self, other: Self)
        requires
            self.same_view(other),
        ensures
            self.width() == other.width(),
            self.height() == other.height(),
            self.round() == other.round(),
            self.spawn() == other.spawn(),
            self.field() == other.field(),
            forall|p: Pos| self.ally(p) == other.ally(p),
            forall|p: Pos| self.enemy(p) == other.enemy(p),
            forall|p: Pos| self.harbor(p) == other.harbor(p),
            forall|foe: bool, p: Pos, radius: Dist| #[trigger]
                self.near(foe, p, radius) == other.near(foe, p, radius),
    {
        assert forall|foe: bool, p: Pos, radius: Dist| #[trigger]
            self.near(foe, p, radius) == other.near(foe, p, radius) by {
            assert(self.near(foe, p, radius) =~= other.near(foe, p, radius));
        }
    }

    /// A view shows the same grid as itself.
    pub proof fn lemma_same_view_refl(&self)
        ensures
            self.same_view(*self),
    {
    }

    /// Showing the same grid carries over from view to view.
    pub proof fn lemma_same_view_trans(&self, mid: Self, other: Self)
        requires
            self.same_view(mid),
            mid.same_view(other),
        ensures
            self.same_view(other),
    {
    }

    /// Place of a cell in the row-major lists of this grid.
    pub fn idx(&self, p: Pos) -> (i: usize)
        requires
            self.wf(),
            self.has(p),
        ensures
            i == cell_index(self.width(), p),
            i < self.width() * self.height(),
    {
        proof {
            lemma_cell_index(self.width(), self.height(), p);
            let (w, h, x, y) = (self.width(), self.height(), p.0 as int, p.1 as int);
            assert(0 <= y * w <= y * w + x < w * h <= 127 * 127) by (nonlinear_arith)
                requires
                    0 <= x < w <= 127,
                    0 <= y < h <= 127,
            ;
        }
        p.1 as usize * self.width as usize + p.0 as usize
    }

    /// The cell at a place of the row-major lists of this grid.
    pub fn inv_idx(&self, idx: usize) -> (p: Pos)
        requires
            self.wf(),
            idx < self.width() * self.height(),
        ensures
            p == index_cell(self.width(), idx as int),
            self.has(p),
            cell_index(self.width(), p) == idx,
    {
        proof {
            lemma_index_cell(self.width(), self.height(), idx as int);
        }
        let x = (idx % (self.width as usize)) as Dist;
        let y = (idx / (self.width as usize)) as Dist;
        Pos(x, y)
    }

    /// Distance between two columns, the shorter way round.
    pub fn dx(&self, x1: Dist, x2: Dist) -> (d: Dist)
        requires
            self.wf(),
            0 <= x1 < self.width(),
            0 <= x2 < self.width(),
        ensures
            d == axis_dist(self.width(), x1 as int, x2 as int),
            0 <= d <= 63,
    {
        let direct = if x1 <= x2 {
            x2 - x1
        } else {
            x1 - x2
        };
        if direct <= self.width - direct {
            direct
        } else {
            self.width - direct
        }
    }

    /// Distance between two rows, the shorter way round.
    pub fn dy(&self, y1: Dist, y2: Dist) -> (d: Dist)
        requires
            self.wf(),
            0 <= y1 < self.height(),
            0 <= y2 < self.height(),
        ensures
            d == axis_dist(self.height(), y1 as int, y2 as int),
            0 <= d <= 63,
    {
        let direct = if y1 <= y2 {
            y2 - y1
        } else {
            y1 - y2
        };
        if direct <= self.height - direct {
            direct
        } else {
            self.height - direct
        }
    }

    /// Distance between two cells: the columns' distance plus the rows'.
    pub fn dist(&self, a: Pos, b: Pos) -> (d: Dist)
        requires
            self.wf(),
            self.has(a),
            self.has(b),
        ensures
            d == self.spec_dist(a, b),
            0 <= d <= 126,
    {
        self.dx(a.0, b.0) + self.dy(a.1, b.1)
    }

    /// Distance from a unit to the player's base.
    pub fn dist_from_yard(&self, ship: &Ship) -> (d: Dist)
        requires
            self.wf(),
            self.has(ship.cell()),
        ensures
            d == self.spec_dist(ship.cell(), self.spawn()),
            0 <= d <= 126,
    {
        self.dist(Pos(ship.x, ship.y), self.spawn)
    }

    /// Distance from a cell to the player's base.
    pub fn dist_to_yard(&self, p: Pos) -> (d: Dist)
        requires
            self.wf(),
            self.has(p),
        ensures
            d == self.spec_dist(p, self.spawn()),
            0 <= d <= 126,
    {
        self.dist(p, self.spawn)
    }

    /// Whether the cell is the player's base.
    pub fn is_yard(&self, p: Pos) -> (b: bool)
        ensures
            b == (p == self.spawn()),
    {
        p == self.spawn
    }

    /// The cell one move away from `p`; the grid wraps around at its edges.
    pub fn step(&self, p: Pos, d: Dir) -> (q: Pos)
        requires
            self.wf(),
            self.has(p),
        ensures
            q == self.spec_step(p, d),
            self.has(q),
            self.spec_dist(p, q) <= 1,
    {
        proof {
            lemma_wrap(self.width(), p.0 as int);
            lemma_wrap(self.height(), p.1 as int);
        }
        let Pos(x, y) = p;
        match d {
            Dir::N => Pos(
                x,
                if y == 0 {
                    self.height - 1
                } else {
                    y - 1
                },
            ),
            Dir::S => Pos(
                x,
                if y == self.height - 1 {
                    0
                } else {
                    y + 1
                },
            ),
            Dir::E => Pos(
                if x == self.width - 1 {
                    0
                } else {
                    x + 1
                },
                y,
            ),
            Dir::W => Pos(
                if x == 0 {
                    self.width - 1
                } else {
                    x - 1
                },
                y,
            ),
            Dir::O => Pos(x, y),
        }
    }

    /// The move that leads from `a` to `b`, two cells at most one step apart.
    pub fn inv_step(&self, a: Pos, b: Pos) -> (d: Dir)
        requires
            self.wf(),
            self.has(a),
            self.has(b),
            self.spec_dist(a, b) <= 1,
        ensures
            torus_dir(self.width(), self.height(), a, b) == Some(d),
            self.spec_step(a, d) == b,
    {
        proof {
            lemma_dir_inverts_step(self.width(), self.height(), a, b);
        }
        let dx: i16 = b.0 as i16 - a.0 as i16;
        let dy: i16 = b.1 as i16 - a.1 as i16;
        let w: i16 = self.width as i16;
        let h: i16 = self.height as i16;
        if dx == 0 && dy == 0 {
            Dir::O
        } else if dx == 0 && (dy == -1 || dy == h - 1) {
            Dir::N
        } else if dx == 0 && (dy == 1 || dy == 1 - h) {
            Dir::S
        } else if dy == 0 && (dx == -1 || dx == w - 1) {
            Dir::W
        } else {
            Dir::E
        }
    }

    /// The resource on a cell.
    pub fn resource_at(&self, p: Pos) -> (r: Halite)
        requires
            self.wf(),
            self.has(p),
        ensures
            r == self.resource(p),
    {
        let i = self.idx(p);
        self.halite[i]
    }

    /// Whether one of the player's own units stands on the cell.
    pub fn is_ally(&self, p: Pos) -> (b: bool)
        requires
            self.wf(),
            self.has(p),
        ensures
            b == self.ally(p),
    {
        let i = self.idx(p);
        self.allies.contains(i)
    }

    /// Whether a unit of another player stands on the cell.
    pub fn is_enemy(&self, p: Pos) -> (b: bool)
        requires
            self.wf(),
            self.has(p),
        ensures
            b == self.enemy(p),
    {
        let i = self.idx(p);
        self.enemies.contains(i)
    }

    /// Whether the cell is the player's base or one of its dropoffs.
    pub fn is_safe_harbor(&self, p: Pos) -> (b: bool)
        requires
            self.wf(),
            self.has(p),
        ensures
            b == self.harbor(p),
    {
        let i = self.idx(p);
        self.drops.contains(i)
    }

    /// Whether a unit stands on the cell: one of the others' (`foe`) or one
    /// of the player's own.
    pub open spec fn marked(&self, foe: bool, q: Pos) -> bool {
        if foe {
            self.enemy(q)
        } else {
            self.ally(q)
        }
    }

    /// The marked cells of the grid within `radius` steps of `p`.
    pub open spec fn near(&self, foe: bool, p: Pos, radius: Dist) -> Set<Pos> {
        Set::new(|q: Pos| self.has(q) && self.marked(foe, q) && self.spec_dist(p, q) <= radius)
    }

    /// Number of cells within `radius` steps of `p` on which a unit of
    /// another player stands.
    pub open spec fn spec_enemies_around(&self, p: Pos, radius: Dist) -> nat {
        self.near(true, p, radius).len()
    }

    /// Number of cells within `radius` steps of `p` on which one of the
    /// player's own units stands.
    pub open spec fn spec_allies_around(&self, p: Pos, radius: Dist) -> nat {
        self.near(false, p, radius).len()
    }

    /// The marked cells within `radius` steps of `p` among the first `i`
    /// cells of the grid, row by row.
    pub open spec fn near_among(&self, foe: bool, p: Pos, radius: Dist, i: int) -> Set<Pos> {
        Set::new(
            |q: Pos|
                self.has(q) && cell_index(self.width(), q) < i && self.marked(foe, q)
                    && self.spec_dist(p, q) <= radius,
        )
    }

    /// One more cell adds itself to the marked cells near `p` if it is one,
    /// and nothing else.
    proof fn lemma_near_step(&self, foe: bool, p: Pos, radius: Dist, i: int)
        requires
            is_size(self.width(), self.height()),
            0 <= i < self.width() * self.height(),
        ensures
            ({
                let q = index_cell(self.width(), i);
                let before = self.near_among(foe, p, radius, i);
                let after = self.near_among(foe, p, radius, i + 1);
                &&& self.has(q)
                &&& !before.contains(q)
                &&& after == (if self.marked(foe, q) && self.spec_dist(p, q) <= radius {
                    before.insert(q)
                } else {
                    before
                })
            }),
    {
        let w = self.width();
        let q = index_cell(w, i);
        lemma_index_cell(w, self.height(), i);
        let before = self.near_among(foe, p, radius, i);
        let after = self.near_among(foe, p, radius, i + 1);
        let grown = if self.marked(foe, q) && self.spec_dist(p, q) <= radius {
            before.insert(q)
        } else {
            before
        };
        assert forall|c: Pos| after.contains(c) == grown.contains(c) by {
            if self.has(c) {
                lemma_cell_index(w, self.height(), c);
            }
        }
        assert(after =~= grown);
    }

    /// The marked cells near `p` among the first cells of the grid are
    /// finitely many, and no more than those cells.
    proof fn lemma_near_among(&self, foe: bool, p: Pos, radius: Dist, i: int)
        requires
            is_size(self.width(), self.height()),
            0 <= i <= self.width() * self.height(),
        ensures
            self.near_among(foe, p, radius, i).finite(),
            self.near_among(foe, p, radius, i).len() <= i,
        decreases i,
    {
        broadcast use vstd::set::group_set_axioms;

        if i == 0 {
            assert(self.near_among(foe, p, radius, 0) =~= Set::<Pos>::empty());
        } else {
            self.lemma_near_among(foe, p, radius, i - 1);
            self.lemma_near_step(foe, p, radius, i - 1);
        }
    }

    /// The marked cells near `p` are those among all cells of the grid:
    /// finitely many, and no more than the grid has cells.
    pub proof fn lemma_near(&self, foe: bool, p: Pos, radius: Dist)
        requires
            is_size(self.width(), self.height()),
        ensures
            self.near(foe, p, radius) == self.near_among(
                foe,
                p,
                radius,
                self.width() * self.height(),
            ),
            self.near(foe, p, radius).finite(),
            self.near(foe, p, radius).len() <= self.width() * self.height(),
    {
        let w = self.width();
        let h = self.height();
        assert(0 <= w * h) by (nonlinear_arith)
            requires
                0 < w,
                0 < h,
        ;
        self.lemma_near_among(foe, p, radius, w * h);
        assert forall|c: Pos|
            self.near(foe, p, radius).contains(c) == self.near_among(foe, p, radius, w * h).contains(
                c,
            ) by {
            if self.has(c) {
                lemma_cell_index(w, h, c);
            }
        }
        assert(self.near(foe, p, radius) =~= self.near_among(foe, p, radius, w * h));
    }

    /// A row of the grid that is more than `radius` rows from `p` holds no
    /// cell near `p`.
    proof fn lemma_near_far_row(&self, foe: bool, p: Pos, radius: Dist, y: int)
        requires
            is_size(self.width(), self.height()),
            self.has(p),
            0 <= y < self.height(),
            axis_dist(self.height(), p.1 as int, y) > radius,
        ensures
            self.near_among(foe, p, radius, (y + 1) * self.width()) == self.near_among(
                foe,
                p,
                radius,
                y * self.width(),
            ),
    {
        let w = self.width();
        let a = self.near_among(foe, p, radius, (y + 1) * w);
        let b = self.near_among(foe, p, radius, y * w);
        assert((y + 1) * w == y * w + w) by (nonlinear_arith);
        assert forall|c: Pos| a.contains(c) == b.contains(c) by {
            if self.has(c) && self.spec_dist(p, c) <= radius {
                let cy = c.1 as int;
                let cx = c.0 as int;
                if y * w <= cy * w + cx < y * w + w {
                    assert(cy == y) by (nonlinear_arith)
                        requires
                            y * w <= cy * w + cx < y * w + w,
                            0 <= cx < w,
                    ;
                }
                assert(cy * w + cx < y * w || cy * w + cx >= y * w + w);
                if cy * w + cx >= y * w + w {
                } else {
                }
            }
        }
        assert(a =~= b);
    }

    /// Counts the marked cells within `radius` steps of `p`.
    fn around(&self, foe: bool, p: Pos, radius: Dist) -> (n: usize)
        requires
            self.wf(),
            self.has(p),
        ensures
            n == self.near(foe, p, radius).len(),
    {
        let ghost w = self.width();
        let ghost h = self.height();
        proof {
            self.lemma_near(foe, p, radius);
            self.lemma_near_among(foe, p, radius, 0);
            assert(0 * w == 0);
            assert(0 < w * h <= 127 * 127) by (nonlinear_arith)
                requires
                    0 < w <= 127,
                    0 < h <= 127,
            ;
        }
        let mut n: usize = 0;
        let mut y: Dist = 0;
        while y < self.height
            invariant
                self.wf(),
                self.has(p),
                w == self.width(),
                h == self.height(),
                0 < w * h <= 127 * 127,
                0 <= y <= h,
                n == self.near_among(foe, p, radius, y * w).len(),
                n <= y * w,
            decreases h - y,
        {
            proof {
                assert(0 <= y * w && (y + 1) * w == y * w + w && (y + 1) * w <= w * h)
                    by (nonlinear_arith)
                    requires
                        0 <= y < h,
                        0 < w,
                ;
            }
            if self.dy(p.1, y) > radius {
                proof {
                    self.lemma_near_far_row(foe, p, radius, y as int);
                }
            } else {
                let mut x: Dist = 0;
                while x < self.width
                    invariant
                        self.wf(),
                        self.has(p),
                        w == self.width(),
                        h == self.height(),
                        0 < w * h <= 127 * 127,
                        0 <= y < h,
                        0 <= x <= w,
                        0 <= y * w,
                        y * w + w <= w * h,
                        n == self.near_among(foe, p, radius, y * w + x).len(),
                        n <= y * w + x,
                    decreases w - x,
                {
                    let q = Pos(x, y);
                    proof {
                        broadcast use vstd::set::group_set_axioms;

                        lemma_cell_index(w, h, q);
                        self.lemma_near_among(foe, p, radius, y * w + x);
                        self.lemma_near_step(foe, p, radius, y * w + x);
                    }
                    let marked = if foe {
                        self.is_enemy(q)
                    } else {
                        self.is_ally(q)
                    };
                    if marked && self.dist(p, q) <= radius {
                        n += 1;
                    }
                    x += 1;
                }
            }
            y += 1;
        }
        proof {
            self.lemma_near(foe, p, radius);
            assert(h * w == w * h) by (nonlinear_arith);
        }
        n
    }

    /// Counts the cells within `radius` steps of `p` on which a unit of
    /// another player stands: each cell once, `p` itself among them.
    pub fn enemies_around(&self, p: Pos, radius: Dist) -> (n: usize)
        requires
            self.wf(),
            self.has(p),
        ensures
            n == self.spec_enemies_around(p, radius),
    {
        self.around(true, p, radius)
    }

    /// Counts the cells within `radius` steps of `p` on which one of the
    /// player's own units stands: each cell once, `p` itself among them.
    pub fn allies_around(&self, p: Pos, radius: Dist) -> (n: usize)
        requires
            self.wf(),
            self.has(p),
        ensures
            n == self.spec_allies_around(p, radius),
    {
        self.around(false, p, radius)
    }

    /// The count of marked cells near `p` is positive exactly if there is
    /// one.
    pub proof fn lemma_near_some(&self, foe: bool, p: Pos, radius: Dist)
        requires
            is_size(self.width(), self.height()),
        ensures
            self.near(foe, p, radius).len() > 0 <==> exists|q: Pos|
                self.has(q) && #[trigger] self.marked(foe, q) && self.spec_dist(p, q) <= radius,
    {
        broadcast use vstd::set::group_set_axioms;

        let s = self.near(foe, p, radius);
        self.lemma_near(foe, p, radius);
        if s.len() > 0 {
            let q = s.choose();
            assert(s.contains(q));
            assert(self.has(q) && self.marked(foe, q) && self.spec_dist(p, q) <= radius);
        }
        if exists|q: Pos|
            self.has(q) && #[trigger] self.marked(foe, q) && self.spec_dist(p, q) <= radius {
            let q = choose|q: Pos|
                self.has(q) && #[trigger] self.marked(foe, q) && self.spec_dist(p, q) <= radius;
            assert(s.contains(q));
            if s.len() == 0 {
                s.lemma_len0_is_empty();
            }
        }
    }

    /// A cell is threatened exactly if it is no safe harbor and a unit of
    /// another player stands within the threat radius of it.
    pub proof fn lemma_threatened(&self, q: Pos)
        requires
            is_size(self.width(), self.height()),
        ensures
            self.threatened(q) <==> !self.harbor(q) && exists|c: Pos|
                self.has(c) && #[trigger] self.enemy(c) && self.spec_dist(q, c) <= THREAT_RADIUS,
    {
        self.lemma_near_some(true, q, THREAT_RADIUS);
        if exists|c: Pos|
            self.has(c) && #[trigger] self.enemy(c) && self.spec_dist(q, c) <= THREAT_RADIUS {
            let c = choose|c: Pos|
                self.has(c) && #[trigger] self.enemy(c) && self.spec_dist(q, c) <= THREAT_RADIUS;
            assert(self.marked(true, c));
        }
        if exists|c: Pos|
            self.has(c) && #[trigger] self.marked(true, c) && self.spec_dist(q, c) <= THREAT_RADIUS {
            let c = choose|c: Pos|
                self.has(c) && #[trigger] self.marked(true, c) && self.spec_dist(q, c)
                    <= THREAT_RADIUS;
            assert(self.enemy(c));
        }
    }

    /// Where no marked cell is on the grid, none is near any cell.
    pub proof fn lemma_none_near(&self, foe: bool, p: Pos, radius: Dist)
        requires
            forall|q: Pos| self.has(q) ==> !(#[trigger] self.marked(foe, q)),
        ensures
            self.near(foe, p, radius).len() == 0,
    {
        broadcast use vstd::set::group_set_axioms;

        assert(self.near(foe, p, radius) =~= Set::<Pos>::empty());
    }

    /// Adds to `costs` one value per cell, row by row: what `f` makes of
    /// the view, the cell and the resource on it.
    pub fn fill_cost<F>(&self, costs: &mut Vec<Halite>, f: F) where
        F: Fn(&Self, Pos, Halite) -> Halite,

        requires
            self.wf(),
            forall|p: Pos| self.has(p) ==> call_requires(f, (self, p, #[trigger] self.resource(p))),
        ensures
            final(costs)@.len() == old(costs)@.len() + self.width() * self.height(),
            final(costs)@.take(old(costs)@.len() as int) == old(costs)@,
            forall|i: int|
                0 <= i < self.width() * self.height() ==> call_ensures(
                    f,
                    (
                        self,
                        index_cell(self.width(), i),
                        self.resource(index_cell(self.width(), i)),
                    ),
                    #[trigger] final(costs)@[old(costs)@.len() + i],
                ),
    {
        let ghost w = self.width();
        let ghost h = self.height();
        let ghost before = costs@;
        assert(0 < w * h <= 127 * 127) by (nonlinear_arith)
            requires
                0 < w <= 127,
                0 < h <= 127,
        ;
        let cells = self.width as usize * self.height as usize;
        let mut n: usize = 0;
        while n < cells
            invariant
                self.wf(),
                w == self.width(),
                h == self.height(),
                cells == w * h,
                0 <= n <= cells,
                costs@.len() == before.len() + n,
                costs@.take(before.len() as int) == before,
                forall|p: Pos|
                    self.has(p) ==> call_requires(f, (self, p, #[trigger] self.resource(p))),
                forall|i: int|
                    0 <= i < n ==> call_ensures(
                        f,
                        (self, index_cell(w, i), self.resource(index_cell(w, i))),
                        #[trigger] costs@[before.len() + i],
                    ),
            decreases cells - n,
        {
            let pos = self.inv_idx(n);
            let halite = self.resource_at(pos);
            let ghost so_far = costs@;
            let cost = f(self, pos, halite);
            costs.push(cost);
            proof {
                assert(costs@.take(before.len() as int) =~= so_far.take(before.len() as int));
                assert forall|i: int| 0 <= i < n + 1 implies call_ensures(
                    f,
                    (self, index_cell(w, i), self.resource(index_cell(w, i))),
                    #[trigger] costs@[before.len() + i],
                ) by {
                    if i < n {
                        assert(costs@[before.len() + i] == so_far[before.len() + i]);
                    }
                }
            }
            n += 1;
        }
    }

    /// Whether a new unit can be spawned: not while the base is reserved
    /// for the next turn.
    pub fn can_spawn(&self) -> (free: bool)
        requires
            self.wf(),
            self.round() < Time::MAX,
        ensures
            free == self.schedule().holder(self.spawn(), (self.round() + 1) as Time).is_none(),
    {
        self.schedule.claimant(self.spawn, self.round + 1).is_none()
    }

    /// Forgets a unit's route and gives up every slot it holds.
    pub fn clear_route(&mut self, id: ID)
        requires
            old(self).wf(),
        ensures
            final(self).wf(),
            final(self).same_view(*old(self)),
            final(self).schedule().routes() == old(self).schedule().routes().remove(id),
            final(self).schedule().slots() == without_unit(old(self).schedule().slots(), id),
    {
        self.schedule.invalidate(id);
    }

    /// Drops the reservations for the turns before `round`; those for
    /// `round` and later stay as they are.
    pub fn clear_round(&mut self, round: Time)
        requires
            old(self).wf(),
        ensures
            final(self).wf(),
            final(self).same_view(*old(self)),
            final(self).schedule().routes() == old(self).schedule().routes(),
            final(self).schedule().slots() == from_turn(old(self).schedule().slots(), round),
    {
        self.schedule.clear_past(round);
    }

    /// What a move away from the cell costs the unit: a tenth of the
    /// resource on the cell.
    pub fn fare(&self, p: Pos) -> (c: Halite)
        requires
            self.wf(),
            self.has(p),
        ensures
            c == move_cost(self.resource(p)),
            0 <= c,
    {
        let on_cell = self.resource_at(p);
        if on_cell <= 0 {
            0
        } else {
            on_cell / 10
        }
    }

    /// Number of cells within the threat radius of the cell on which a
    /// unit of another player stands.
    pub open spec fn threat(&self, q: Pos) -> nat {
        self.spec_enemies_around(q, THREAT_RADIUS)
    }

    /// Whether the cell is threatened: a unit of another player is within
    /// the threat radius, and the cell is no safe harbor.
    pub open spec fn threatened(&self, q: Pos) -> bool {
        self.threat(q) > 0 && !self.harbor(q)
    }

    /// Whether the cell is threatened.
    pub fn is_threatened(&self, q: Pos) -> (b: bool)
        requires
            self.wf(),
            self.has(q),
        ensures
            b == self.threatened(q),
    {
        self.enemies_around(q, THREAT_RADIUS) > 0 && !self.is_safe_harbor(q)
    }

    /// Cost of one turn of a route: the turn itself; for a move, what
    /// leaving the cell costs the unit; for a move onto a cell where one of
    /// the player's own units stands, the crowding cost, or the blocking
    /// cost if the move leaves the base; and the blocking cost for ending
    /// the turn on a threatened cell.
    pub open spec fn spec_edge_cost(&self, from: Pos, d: Dir) -> int {
        let to = self.spec_step(from, d);
        TIME_COST + (if d == Dir::O {
            0
        } else {
            move_cost(self.resource(from))
        }) + (if d != Dir::O && self.ally(to) {
            if from == self.spawn() {
                BLOCKING_COST as int
            } else {
                CROWDING_COST as int
            }
        } else {
            0
        }) + (if self.threatened(to) {
            BLOCKING_COST as int
        } else {
            0
        })
    }

    /// Cost of one turn of a route that begins on `from` and makes move `d`.
    pub fn edge_cost(&self, from: Pos, d: Dir) -> (c: u64)
        requires
            self.wf(),
            self.has(from),
        ensures
            c == self.spec_edge_cost(from, d),
            1 <= c < STEP_LIMIT,
    {
        let to = self.step(from, d);
        let moving = d != Dir::O;
        let mut c: u64 = TIME_COST;
        if moving {
            c = c + self.fare(from) as u64;
            if self.is_ally(to) {
                if from == self.spawn {
                    c = c + BLOCKING_COST;
                } else {
                    c = c + CROWDING_COST;
                }
            }
        }
        if self.is_threatened(to) {
            c = c + BLOCKING_COST;
        }
        c
    }

    /// The estimate of what is left of a route from `q` to `target`.
    pub open spec fn spec_estimate(&self, q: Pos, target: Pos) -> int {
        HEURISTIC_WEIGHT * self.spec_dist(q, target)
    }

    /// Whether `unit` may plan to be on cell `q` at turn `t`: the slot is
    /// free or its own, or the unit is to end on `target` whoever is there
    /// (`crash`) and `q` is that cell.
    pub open spec fn passable(&self, q: Pos, t: Time, unit: ID, crash: bool, target: Pos) -> bool {
        match self.schedule().holder(q, t) {
            None => true,
            Some(u) => u == unit || (crash && q == target),
        }
    }

    /// Whether `unit` may plan to be on cell `q` at turn `t`.
    pub fn is_passable(&self, q: Pos, t: Time, unit: ID, crash: bool, target: Pos) -> (b: bool)
        requires
            self.wf(),
            self.has(q),
            t >= 0,
        ensures
            b == self.passable(q, t, unit, crash, target),
    {
        match self.schedule.claimant(q, t) {
            None => true,
            Some(u) => u == unit || (crash && q == target),
        }
    }

    /// Whether no other unit holds cell `q` for the next turn.
    pub open spec fn free_next(&self, q: Pos, unit: ID) -> bool {
        match self.schedule().holder(q, (self.round() + 1) as Time) {
            None => true,
            Some(u) => u == unit,
        }
    }

    /// The best of the first `n` candidate moves from `start`: among those
    /// that end on a cell no other unit holds for the next turn, the one
    /// with the fewest threats, and of several such the earliest. `None`
    /// if none of them ends on such a cell.
    pub open spec fn pick(&self, start: Pos, unit: ID, n: int) -> Option<Dir>
        decreases n,
    {
        if n <= 0 {
            None
        } else {
            let prev = self.pick(start, unit, n - 1);
            let d = candidate(n - 1);
            let q = self.spec_step(start, d);
            if !self.free_next(q, unit) {
                prev
            } else {
                match prev {
                    None => Some(d),
                    Some(b) => if self.threat(q) < self.threat(self.spec_step(start, b)) {
                        Some(d)
                    } else {
                        Some(b)
                    },
                }
            }
        }
    }

    /// The move of a unit that has no route to follow and finds none:
    /// the best of the five candidates, and staying if there is none.
    pub open spec fn spec_fallback(&self, start: Pos, unit: ID) -> Dir {
        match self.pick(start, unit, 5) {
            Some(d) => d,
            None => Dir::O,
        }
    }

    /// Chooses the move of a unit that has no route to follow and finds
    /// none: to the neighbouring cell, its own included, that no other
    /// unit holds for the next turn and that has the fewest threats. Where
    /// every such cell is held, the unit stays.
    pub fn fallback_dir(&self, start: Pos, unit: ID) -> (d: Dir)
        requires
            self.wf(),
            self.has(start),
            self.round() < Time::MAX,
        ensures
            d == self.spec_fallback(start, unit),
    {
        let next = self.round + 1;
        let mut best: Option<Dir> = None;
        let mut fewest: usize = 0;
        let mut k: usize = 0;
        while k < 5
            invariant
                self.wf(),
                self.has(start),
                self.round() < Time::MAX,
                next == self.round() + 1,
                0 <= k <= 5,
                best == self.pick(start, unit, k as int),
                best matches Some(b) ==> fewest == self.threat(self.spec_step(start, b)),
            decreases 5 - k,
        {
            let d = nth_candidate(k);
            let q = self.step(start, d);
            let free = match self.schedule.claimant(q, next) {
                None => true,
                Some(u) => u == unit,
            };
            if free {
                let threats = self.enemies_around(q, THREAT_RADIUS);
                let better = match best {
                    None => true,
                    Some(_) => threats < fewest,
                };
                if better {
                    best = Some(d);
                    fewest = threats;
                }
            }
            k += 1;
        }
        match best {
            Some(d) => d,
            None => Dir::O,
        }
    }

    /// A unit that finds every cell round it held by others stays.
    pub proof fn lemma_fallback_blocked(&self, start: Pos, unit: ID)
        requires
            forall|d: Dir| d != Dir::O ==> !self.free_next(#[trigger] self.spec_step(start, d), unit),
        ensures
            self.spec_fallback(start, unit) == Dir::O,
    {
        assert(self.pick(start, unit, 0) is None);
        assert(self.pick(start, unit, 1) is None || self.pick(start, unit, 1) == Some(Dir::O));
        assert(!self.free_next(self.spec_step(start, candidate(1)), unit));
        assert(self.pick(start, unit, 2) == self.pick(start, unit, 1));
        assert(!self.free_next(self.spec_step(start, candidate(2)), unit));
        assert(self.pick(start, unit, 3) == self.pick(start, unit, 2));
        assert(!self.free_next(self.spec_step(start, candidate(3)), unit));
        assert(self.pick(start, unit, 4) == self.pick(start, unit, 3));
        assert(!self.free_next(self.spec_step(start, candidate(4)), unit));
        assert(self.pick(start, unit, 5) == self.pick(start, unit, 4));
    }

    /// The fallback move ends on a cell that no other unit holds for the
    /// next turn, unless every candidate ends on a held cell; and no
    /// candidate that ends on such a cell has fewer threats.
    pub proof fn lemma_fallback_best(&self, start: Pos, unit: ID, k: int)
        requires
            0 <= k < 5,
            self.free_next(self.spec_step(start, candidate(k)), unit),
        ensures
            self.free_next(self.spec_step(start, self.spec_fallback(start, unit)), unit),
            self.threat(self.spec_step(start, self.spec_fallback(start, unit))) <= self.threat(
                self.spec_step(start, candidate(k)),
            ),
    {
        self.lemma_pick(start, unit, 5, k);
    }

    /// Among the first `n` candidates, the pick ends on a free cell with no
    /// more threats than any other that does.
    proof fn lemma_pick(&self, start: Pos, unit: ID, n: int, k: int)
        requires
            0 <= k < n <= 5,
            self.free_next(self.spec_step(start, candidate(k)), unit),
        ensures
            self.pick(start, unit, n) matches Some(d) && self.free_next(
                self.spec_step(start, d),
                unit,
            ) && self.threat(self.spec_step(start, d)) <= self.threat(
                self.spec_step(start, candidate(k)),
            ),
        decreases n,
    {
        if k < n - 1 {
            self.lemma_pick(start, unit, n - 1, k);
        } else {
            self.lemma_pick_free(start, unit, n - 1);
        }
    }

    /// Whatever is picked ends on a free cell.
    proof fn lemma_pick_free(&self, start: Pos, unit: ID, n: int)
        ensures
            self.pick(start, unit, n) matches Some(d) ==> self.free_next(
                self.spec_step(start, d),
                unit,
            ),
        decreases n,
    {
        if n > 0 {
            self.lemma_pick_free(start, unit, n - 1);
        }
    }

    /// Two views of the same grid whose stores agree on which slots other
    /// units hold make the same pick.
    proof fn lemma_fallback_same(&self, other: Self, start: Pos, unit: ID, n: int)
        requires
            self.same_view(other),
            self.schedule().slots() == without_unit(other.schedule().slots(), unit),
        ensures
            self.pick(start, unit, n) == other.pick(start, unit, n),
        decreases n,
    {
        self.lemma_same_view(other);
        if n > 0 {
            self.lemma_fallback_same(other, start, unit, n - 1);
        }
    }

    /// How many turns a search of the given depth may plan: as many as the
    /// depth, and no more than there are turns left to number.
    pub open spec fn horizon(&self, depth: Time) -> int {
        if self.round() + depth > Time::MAX {
            Time::MAX - self.round()
        } else {
            depth as int
        }
    }

    /// Whether a search stops at the end of the way `way` of the unit.
    pub open spec fn way_ends(&self, ship: Ship, way: Seq<(Pos, Time)>, target: Pos, depth: Time) -> bool {
        ends(self.field(), self.width(), ship.cell(), ship.halite as int, way, target, self.horizon(depth))
    }

    /// What the unit still carries at the end of the way `way`.
    pub open spec fn way_fuel(&self, ship: Ship, way: Seq<(Pos, Time)>) -> int {
        fuel_after(self.field(), self.width(), ship.cell(), ship.halite as int, way)
    }

    /// Whether the grid is an open field for the unit: leaving a cell costs
    /// nothing, no unit of another player is about, none of the player's
    /// own stands anywhere but on the unit's cell, and no other unit holds
    /// a slot.
    pub open spec fn open_field(&self, ship: Ship) -> bool {
        &&& forall|p: Pos| self.has(p) ==> move_cost(#[trigger] self.resource(p)) == 0
        &&& forall|p: Pos| self.has(p) ==> !(#[trigger] self.enemy(p))
        &&& forall|p: Pos| self.has(p) && p != ship.cell() ==> !(#[trigger] self.ally(p))
        &&& forall|k: u64| #[trigger]
            self.schedule().slots().contains_key(k) ==> self.schedule().slots()[k] == ship.id
    }

    /// Whether the search stops at a state.
    spec fn terminal(&self, n: Node, target: Pos, limit: Time) -> bool {
        n.pos == target || n.halite < move_cost(self.resource(n.pos)) || n.round >= limit
    }

    /// Whether the state at place `i` carries what its parent carried less
    /// what the move cost, and its parent was no state to stop at.
    spec fn fed(&self, nodes: Seq<Node>, i: int, target: Pos, limit: Time) -> bool {
        let n = nodes[i];
        let p = nodes[n.parent as int];
        &&& n.halite == p.halite - (if n.pos != p.pos {
            move_cost(self.resource(p.pos))
        } else {
            0
        })
        &&& n.halite >= 0
        &&& !self.terminal(p, target, limit)
    }

    /// Whether the state at place `i` is valued as the search values
    /// states: its estimate is the cost of the way to it plus the estimate
    /// of what is left; the way costs at least one per turn; and the state
    /// is no further from the unit's cell than it is turns away.
    spec fn scored(&self, nodes: Seq<Node>, i: int, ship: Ship, target: Pos) -> bool {
        let n = nodes[i];
        &&& self.has(n.pos)
        &&& n.round >= self.round()
        &&& n.heuristic == n.cost + self.spec_estimate(n.pos, target)
        &&& n.cost >= n.round - self.round()
        &&& self.spec_dist(ship.cell(), n.pos) <= n.round - self.round()
    }

    /// What the search keeps true of the states it has reached: they form
    /// a tree of moves from the unit's cell at this turn; the unit may
    /// plan to be at each of them but the first; each carries what is
    /// left after the moves that lead to it, and was reached from a state
    /// at which the search does not stop; none lies beyond the last turn
    /// of the search, and the cost of the way to each is bounded by the
    /// number of its turns; and every open state is one of them.
    spec fn reached(
        &self,
        nodes: Seq<Node>,
        open: Seq<usize>,
        ship: Ship,
        target: Pos,
        limit: Time,
        crash: bool,
    ) -> bool {
        &&& is_tree(nodes, self.width(), self.height(), ship.cell(), self.round())
        &&& nodes[0].halite == ship.halite
        &&& !self.terminal(nodes[0], target, limit)
        &&& forall|i: int| 0 < i < nodes.len() ==> #[trigger] self.fed(nodes, i, target, limit)
        &&& forall|i: int| 0 <= i < nodes.len() ==> #[trigger] self.scored(nodes, i, ship, target)
        &&& forall|i: int|
            0 < i < nodes.len() ==> self.passable(
                (#[trigger] nodes[i]).pos,
                nodes[i].round,
                ship.id,
                crash,
                target,
            )
        &&& forall|i: int|
            0 <= i < nodes.len() ==> self.round() <= (#[trigger] nodes[i]).round <= limit
                && nodes[i].cost <= (nodes[i].round - self.round()) * 3_000_000_000
        &&& forall|j: int| 0 <= j < open.len() ==> (#[trigger] open[j]) < nodes.len()
    }

    /// The way to a state reached is one the unit can pay for; the unit
    /// arrives with what the state carries; and the search stops at none
    /// of the states that the way passes before its end.
    proof fn lemma_way(
        &self,
        nodes: Seq<Node>,
        open: Seq<usize>,
        ship: Ship,
        target: Pos,
        limit: Time,
        crash: bool,
        i: int,
    )
        requires
            self.wf(),
            self.has(ship.cell()),
            self.reached(nodes, open, ship, target, limit, crash),
            0 < i < nodes.len(),
        ensures
            ({
                let way = path_to(nodes, i);
                let (f, w) = (self.field(), self.width());
                let (c, h) = (ship.cell(), ship.halite as int);
                &&& way.len() == nodes[i].round - self.round()
                &&& way.len() > 0
                &&& way.last() == (nodes[i].pos, nodes[i].round)
                &&& fuel_after(f, w, c, h, way) == nodes[i].halite
                &&& forall|k: int|
                    1 <= k < way.len() ==> !ends(
                        f,
                        w,
                        c,
                        h,
                        #[trigger] way.take(k),
                        target,
                        limit - self.round(),
                    )
                &&& forall|k: int|
                    0 <= k <= way.len() ==> fuel_after(f, w, c, h, #[trigger] way.take(k)) >= 0
            }),
        decreases i,
    {
        let way = path_to(nodes, i);
        let (f, w) = (self.field(), self.width());
        let (c, h) = (ship.cell(), ship.halite as int);
        let n = nodes[i];
        let p = n.parent as int;
        assert(linked(nodes, self.width(), self.height(), i));
        assert(self.fed(nodes, i, target, limit));
        lemma_path_is_route(nodes, self.width(), self.height(), c, self.round(), i);
        let up = path_to(nodes, p);
        assert(way == up.push((n.pos, n.round)));
        assert(way.drop_last() =~= up);
        assert(way.take(way.len() as int) =~= way);
        assert(way.take(0) =~= Seq::<(Pos, Time)>::empty());
        if p == 0 {
            assert(up =~= Seq::<(Pos, Time)>::empty());
            assert(way.len() == 1);
            assert(fuel_after(f, w, c, h, up) == h);
            assert(nodes[0].pos == c && nodes[0].halite == h);
            assert(h >= 0) by {
                assert(!self.terminal(nodes[0], target, limit));
            }
            assert(fuel_after(f, w, c, h, way) == n.halite);
            assert forall|k: int| 0 <= k <= way.len() implies fuel_after(
                f,
                w,
                c,
                h,
                #[trigger] way.take(k),
            ) >= 0 by {
                if k == 1 {
                    assert(way.take(k) =~= way);
                } else {
                    assert(way.take(k) =~= Seq::<(Pos, Time)>::empty());
                }
            }
        } else {
            self.lemma_way(nodes, open, ship, target, limit, crash, p);
            assert(way[way.len() - 2] == up.last());
            assert forall|k: int| 1 <= k < way.len() implies !ends(
                f,
                w,
                c,
                h,
                #[trigger] way.take(k),
                target,
                limit - self.round(),
            ) by {
                if k < up.len() {
                    assert(way.take(k) =~= up.take(k));
                } else {
                    assert(way.take(k) =~= up);
                }
            }
            assert forall|k: int| 0 <= k <= way.len() implies fuel_after(
                f,
                w,
                c,
                h,
                #[trigger] way.take(k),
            ) >= 0 by {
                if k < up.len() {
                    assert(way.take(k) =~= up.take(k));
                } else if k == up.len() {
                    assert(way.take(k) =~= up);
                    assert(up.take(up.len() as int) =~= up);
                } else {
                    assert(way.take(k) =~= way);
                }
            }
        }
    }

    /// The state that a move from `node`, the state at place `at`, leads to.
    spec fn child(&self, node: Node, at: usize, dir: Dir, target: Pos) -> Node {
        let to = self.spec_step(node.pos, dir);
        let cost = (node.cost + self.spec_edge_cost(node.pos, dir)) as u64;
        Node {
            pos: to,
            halite: if dir == Dir::O {
                node.halite
            } else {
                (node.halite - move_cost(self.resource(node.pos))) as Halite
            },
            heuristic: (cost + self.spec_estimate(to, target)) as u64,
            round: (node.round + 1) as Time,
            cost,
            parent: at,
        }
    }

    /// Whether the move from `node` that leads to the state `kid` adds
    /// that state: it leaves the cell or is no move, the unit may plan to
    /// be where it leads, that cell has not been served at that turn, and
    /// no way to it that is as cheap is known.
    spec fn wanted(
        &self,
        node: Node,
        kid: Node,
        dir: Dir,
        seen: Set<u64>,
        costs: Map<u64, u64>,
        ship: Ship,
        target: Pos,
        crash: bool,
    ) -> bool {
        let key = slot_key(kid.pos, kid.round);
        &&& !(dir != Dir::O && kid.pos == node.pos)
        &&& self.passable(kid.pos, kid.round, ship.id, crash, target)
        &&& !seen.contains(key)
        &&& (costs.contains_key(key) ==> kid.cost < costs[key])
    }

    /// Whether a state lies on a shortest way to `target`, `k` turns on:
    /// the way to it cost one per turn, and it is `k` steps closer than
    /// the unit's cell.
    spec fn on_track(&self, n: Node, ship: Ship, target: Pos, k: int) -> bool {
        &&& n.round - self.round() == k
        &&& n.cost == k
        &&& self.spec_dist(n.pos, target) == self.spec_dist(ship.cell(), target) - k
    }

    /// Whether the cheapest known way to the slot of a key is that to an
    /// open state.
    spec fn backed(&self, nodes: Seq<Node>, open: Seq<usize>, costs: Map<u64, u64>, key: u64) -> bool {
        exists|j: int|
            0 <= j < open.len() && slot_key(
                nodes[(#[trigger] open[j]) as int].pos,
                nodes[open[j] as int].round,
            ) == key && nodes[open[j] as int].cost == costs[key]
    }

    /// In an open field, between two states served: no open state is more
    /// than `k` turns on, one that is `k` turns on lies on a shortest way,
    /// and nothing has been served or priced beyond.
    spec fn front(
        &self,
        nodes: Seq<Node>,
        open: Seq<usize>,
        seen: Set<u64>,
        costs: Map<u64, u64>,
        ship: Ship,
        target: Pos,
        k: int,
    ) -> bool {
        &&& 0 <= k <= self.spec_dist(ship.cell(), target)
        &&& forall|j: int|
            0 <= j < open.len() ==> nodes[(#[trigger] open[j]) as int].round - self.round() <= k
        &&& exists|j: int|
            0 <= j < open.len() && self.on_track(nodes[(#[trigger] open[j]) as int], ship, target, k)
        &&& forall|key: u64| #[trigger] seen.contains(key) ==> key_turn(key) < self.round() + k
        &&& forall|key: u64| #[trigger] costs.contains_key(key) ==> key_turn(key) <= self.round() + k
    }

    /// In an open field, while the moves from a state `k` turns on are
    /// tried: no open state is more than one turn further, every way
    /// priced for that turn is that to an open state, and once the move
    /// that leads closer has been tried (`hit`), an open state of that
    /// turn lies on a shortest way.
    spec fn growing(
        &self,
        nodes: Seq<Node>,
        open: Seq<usize>,
        costs: Map<u64, u64>,
        ship: Ship,
        target: Pos,
        k: int,
        hit: bool,
    ) -> bool {
        &&& forall|j: int|
            0 <= j < open.len() ==> nodes[(#[trigger] open[j]) as int].round - self.round() <= k + 1
        &&& hit ==> exists|j: int|
            0 <= j < open.len() && self.on_track(
                nodes[(#[trigger] open[j]) as int],
                ship,
                target,
                k + 1,
            )
        &&& forall|key: u64| #[trigger]
            costs.contains_key(key) ==> key_turn(key) <= self.round() + k + 1
        &&& forall|key: u64| #[trigger]
            costs.contains_key(key) && key_turn(key) == self.round() + k + 1 ==> self.backed(
                nodes,
                open,
                costs,
                key,
            )
    }

    /// In an open field, the state that is served next lies on a shortest
    /// way.
    proof fn lemma_front_pick(
        &self,
        nodes: Seq<Node>,
        open: Seq<usize>,
        seen: Set<u64>,
        costs: Map<u64, u64>,
        ship: Ship,
        target: Pos,
        limit: Time,
        crash: bool,
        k: int,
        b: int,
    )
        requires
            self.wf(),
            self.has(ship.cell()),
            self.has(target),
            self.reached(nodes, open, ship, target, limit, crash),
            self.front(nodes, open, seen, costs, ship, target, k),
            0 <= b < open.len(),
            forall|j: int|
                0 <= j < open.len() ==> !precedes(
                    nodes[(#[trigger] open[j]) as int],
                    nodes[open[b] as int],
                ),
        ensures
            self.on_track(nodes[open[b] as int], ship, target, k),
    {
        let j = choose|j: int|
            0 <= j < open.len() && self.on_track(nodes[(#[trigger] open[j]) as int], ship, target, k);
        let best = nodes[open[j] as int];
        let n = nodes[open[b] as int];
        assert(open[b] < nodes.len());
        assert(open[j] < nodes.len());
        assert(self.scored(nodes, open[j] as int, ship, target));
        assert(self.scored(nodes, open[b] as int, ship, target));
        assert(!precedes(best, n));
        crate::torus::lemma_dist_triangle(self.width(), self.height(), ship.cell(), n.pos, target);
    }

    /// In an open field, what a move from a state on a shortest way leads
    /// to: a cell of the grid that has not been served at that turn and
    /// that the unit may plan to be on, one turn on, at a cost of one more
    /// or above; and at one more exactly, one step closer, by the move
    /// that leads closer.
    proof fn lemma_kid(
        &self,
        node: Node,
        at: usize,
        dir: Dir,
        seen: Set<u64>,
        ship: Ship,
        target: Pos,
        crash: bool,
        k: int,
        aim: Dir,
    )
        requires
            is_size(self.width(), self.height()),
            self.has(ship.cell()),
            self.has(target),
            self.has(node.pos),
            0 <= self.round() <= node.round < Time::MAX,
            self.open_field(ship),
            self.on_track(node, ship, target, k),
            aim != Dir::O,
            self.spec_dist(self.spec_step(node.pos, aim), target) == self.spec_dist(
                ship.cell(),
                target,
            ) - k - 1,
            forall|key: u64| #[trigger] seen.contains(key) ==> key_turn(key) < self.round() + k + 1,
        ensures
            ({
                let kid = self.child(node, at, dir, target);
                let key = slot_key(kid.pos, kid.round);
                &&& self.has(kid.pos)
                &&& kid.round == node.round + 1
                &&& kid.round - self.round() == k + 1
                &&& kid.cost >= k + 1
                &&& key_turn(key) == self.round() + k + 1
                &&& !seen.contains(key)
                &&& self.passable(kid.pos, kid.round, ship.id, crash, target)
                &&& dir == aim ==> kid.pos != node.pos && self.on_track(kid, ship, target, k + 1)
            }),
    {
        let kid = self.child(node, at, dir, target);
        let far = self.spec_dist(ship.cell(), target);
        crate::torus::lemma_step_near(self.width(), self.height(), node.pos, dir);
        self.lemma_none_near(true, kid.pos, THREAT_RADIUS);
        crate::schedule::lemma_key_turn(kid.pos, kid.round);
        assert(self.spec_edge_cost(node.pos, dir) >= 1);
        if dir == aim {
            assert(kid.pos != ship.cell()) by {
                if kid.pos == ship.cell() {
                    assert(self.spec_dist(kid.pos, target) == far);
                }
            }
            assert(!self.ally(kid.pos));
            assert(self.spec_edge_cost(node.pos, dir) == 1);
        }
    }

    /// In an open field, trying a move from a state on a shortest way
    /// keeps what holds while moves are tried; and the move that leads
    /// closer leaves an open state on a shortest way. `kid` is the state
    /// that the move leads to.
    proof fn lemma_grow(
        &self,
        nodes: Seq<Node>,
        open: Seq<usize>,
        costs: Map<u64, u64>,
        seen: Set<u64>,
        node: Node,
        kid: Node,
        dir: Dir,
        ship: Ship,
        target: Pos,
        crash: bool,
        k: int,
        aim: Dir,
        hit: bool,
    )
        requires
            self.round() >= 0,
            nodes.len() <= usize::MAX,
            forall|i: int| 0 <= i < nodes.len() ==> #[trigger] self.scored(nodes, i, ship, target),
            forall|j: int| 0 <= j < open.len() ==> (#[trigger] open[j]) < nodes.len(),
            self.growing(nodes, open, costs, ship, target, k, hit),
            kid.round >= 0,
            kid.pos.0 >= 0,
            kid.pos.1 >= 0,
            kid.round - self.round() == k + 1,
            kid.cost >= k + 1,
            key_turn(slot_key(kid.pos, kid.round)) == self.round() + k + 1,
            !seen.contains(slot_key(kid.pos, kid.round)),
            self.passable(kid.pos, kid.round, ship.id, crash, target),
            dir == aim ==> kid.pos != node.pos && self.on_track(kid, ship, target, k + 1),
        ensures
            if self.wanted(node, kid, dir, seen, costs, ship, target, crash) {
                self.growing(
                    nodes.push(kid),
                    open.push(nodes.len() as usize),
                    costs.insert(slot_key(kid.pos, kid.round), kid.cost),
                    ship,
                    target,
                    k,
                    hit || dir == aim,
                )
            } else {
                self.growing(nodes, open, costs, ship, target, k, hit || dir == aim)
            },
    {
        let key = slot_key(kid.pos, kid.round);
        if self.wanted(node, kid, dir, seen, costs, ship, target, crash) {
            let nodes2 = nodes.push(kid);
            let open2 = open.push(nodes.len() as usize);
            let costs2 = costs.insert(key, kid.cost);
            let last = open.len() as int;
            assert(open2[last] == nodes.len());
            assert(nodes2[open2[last] as int] == kid);
            assert forall|j: int| 0 <= j < open2.len() implies nodes2[(#[trigger] open2[j]) as int].round
                - self.round() <= k + 1 by {
                if j < last {
                    assert(open2[j] == open[j]);
                    assert(nodes2[open[j] as int] == nodes[open[j] as int]);
                }
            }
            assert((hit || dir == aim) ==> exists|j: int|
                0 <= j < open2.len() && self.on_track(
                    nodes2[(#[trigger] open2[j]) as int],
                    ship,
                    target,
                    k + 1,
                )) by {
                if dir == aim {
                    assert(self.on_track(nodes2[open2[last] as int], ship, target, k + 1));
                } else if hit {
                    let j = choose|j: int|
                        0 <= j < open.len() && self.on_track(
                            nodes[(#[trigger] open[j]) as int],
                            ship,
                            target,
                            k + 1,
                        );
                    assert(open2[j] == open[j]);
                    assert(nodes2[open2[j] as int] == nodes[open[j] as int]);
                }
            }
            assert forall|other: u64| #[trigger]
                costs2.contains_key(other) && key_turn(other) == self.round() + k + 1 implies self.backed(
                nodes2,
                open2,
                costs2,
                other,
            ) by {
                if other == key {
                    assert(slot_key(nodes2[open2[last] as int].pos, nodes2[open2[last] as int].round)
                        == other);
                } else {
                    assert(costs.contains_key(other));
                    assert(self.backed(nodes, open, costs, other));
                    let j = choose|j: int|
                        0 <= j < open.len() && slot_key(
                            nodes[(#[trigger] open[j]) as int].pos,
                            nodes[open[j] as int].round,
                        ) == other && nodes[open[j] as int].cost == costs[other];
                    assert(open2[j] == open[j]);
                    assert(nodes2[open2[j] as int] == nodes[open[j] as int]);
                }
            }
        } else {
            if dir == aim && !hit {
                assert(costs.contains_key(key));
                assert(self.backed(nodes, open, costs, key));
                let j = choose|j: int|
                    0 <= j < open.len() && slot_key(
                        nodes[(#[trigger] open[j]) as int].pos,
                        nodes[open[j] as int].round,
                    ) == key && nodes[open[j] as int].cost == costs[key];
                let n = nodes[open[j] as int];
                assert(self.scored(nodes, open[j] as int, ship, target));
                crate::schedule::lemma_slot_key_injective(n.pos, n.round, kid.pos, kid.round);
                assert(self.on_track(n, ship, target, k + 1));
            }
        }
    }

    /// Whether a way is open to the unit: a route on the grid that begins
    /// at the next turn at most one step from the unit's cell, is as long
    /// as a search of the given depth may plan, and passes only slots that
    /// the unit may plan to be on.
    pub open spec fn is_open_way(
        &self,
        ship: Ship,
        way: Seq<(Pos, Time)>,
        target: Pos,
        depth: Time,
        crash: bool,
    ) -> bool {
        &&& is_route(self.width(), self.height(), way)
        &&& way.len() == self.horizon(depth)
        &&& way[0].1 == self.round() + 1
        &&& self.spec_dist(ship.cell(), way[0].0) <= 1
        &&& forall|i: int|
            0 <= i < way.len() ==> self.passable(
                (#[trigger] way[i]).0,
                way[i].1,
                ship.id,
                crash,
                target,
            )
    }

    /// Whether some way is open to the unit.
    pub open spec fn way_open(&self, ship: Ship, target: Pos, depth: Time, crash: bool) -> bool {
        exists|way: Seq<(Pos, Time)>| #[trigger] self.is_open_way(ship, way, target, depth, crash)
    }

    /// Whether a move from cell `c` at turn `t`, if it leaves the cell or is
    /// no move and leads to a slot the unit may plan to be on, leads to a
    /// state that has been reached.
    spec fn leads(
        &self,
        nodes: Seq<Node>,
        c: Pos,
        t: Time,
        d: Dir,
        ship: Ship,
        target: Pos,
        crash: bool,
    ) -> bool {
        let to = self.spec_step(c, d);
        (d == Dir::O || to != c) && self.passable(to, (t + 1) as Time, ship.id, crash, target)
            ==> has_state(nodes, to, t + 1)
    }

    /// Whether the first `m` moves that a search tries from cell `c` at
    /// turn `t` lead to states that have been reached.
    spec fn tried_from(
        &self,
        nodes: Seq<Node>,
        c: Pos,
        t: Time,
        ship: Ship,
        target: Pos,
        crash: bool,
        m: int,
    ) -> bool {
        forall|k: int| 0 <= k < m ==> self.leads(nodes, c, t, #[trigger] tried(k), ship, target, crash)
    }

    /// Whether the state at place `i` is open or has been served, and is
    /// open if the search stops at it.
    spec fn placed(
        &self,
        nodes: Seq<Node>,
        open: Seq<usize>,
        seen: Set<u64>,
        target: Pos,
        limit: Time,
        i: int,
    ) -> bool {
        &&& open.contains(i as usize) || seen.contains(node_key(nodes[i]))
        &&& open.contains(i as usize) || !self.terminal(nodes[i], target, limit)
    }

    /// What a search keeps true of what it has served: every state but the
    /// one at place `skip` is open or served, and open if the search stops
    /// at it; from every served state all moves have been tried, but from
    /// the one with the key `hot`, from which the first `m` have; and every
    /// key that is served or priced is that of a state reached.
    spec fn sifted(
        &self,
        nodes: Seq<Node>,
        open: Seq<usize>,
        seen: Set<u64>,
        costs: Map<u64, u64>,
        ship: Ship,
        target: Pos,
        limit: Time,
        crash: bool,
        skip: int,
        hot: Option<u64>,
        m: int,
    ) -> bool {
        &&& forall|i: int|
            0 <= i < nodes.len() && i != skip ==> #[trigger] self.placed(
                nodes,
                open,
                seen,
                target,
                limit,
                i,
            )
        &&& forall|i: int|
            0 <= i < nodes.len() && seen.contains(node_key(#[trigger] nodes[i])) ==> self.tried_from(
                nodes,
                nodes[i].pos,
                nodes[i].round,
                ship,
                target,
                crash,
                if hot == Some(node_key(nodes[i])) {
                    m
                } else {
                    5
                },
            )
        &&& forall|k: u64| #[trigger] seen.contains(k) ==> keyed(nodes, k)
        &&& forall|k: u64| #[trigger] costs.contains_key(k) ==> keyed(nodes, k)
    }

    /// Taking a state out of the open ones leaves the others where they
    /// were.
    proof fn lemma_sift_pop(
        &self,
        nodes: Seq<Node>,
        open: Seq<usize>,
        seen: Set<u64>,
        costs: Map<u64, u64>,
        ship: Ship,
        target: Pos,
        limit: Time,
        crash: bool,
        b: int,
    )
        requires
            0 <= b < open.len(),
            nodes.len() <= usize::MAX,
            self.sifted(nodes, open, seen, costs, ship, target, limit, crash, -1, None, 5),
        ensures
            self.sifted(
                nodes,
                open.update(b, open.last()).drop_last(),
                seen,
                costs,
                ship,
                target,
                limit,
                crash,
                open[b] as int,
                None,
                5,
            ),
    {
        let open2 = open.update(b, open.last()).drop_last();
        assert forall|i: int| 0 <= i < nodes.len() && i != open[b] implies #[trigger] self.placed(
            nodes,
            open2,
            seen,
            target,
            limit,
            i,
        ) by {
            assert(self.placed(nodes, open, seen, target, limit, i));
            if open.contains(i as usize) {
                let j = choose|j: int| 0 <= j < open.len() && open[j] == i as usize;
                assert(j != b);
                if j == open.len() - 1 {
                    assert(open.update(b, open.last())[b] == open.last());
                    assert(open2[b] == i as usize);
                } else {
                    assert(open.update(b, open.last())[j] == open[j]);
                    assert(open2[j] == i as usize);
                }
            }
        }
    }

    /// One more state reached leaves every move tried leading where it
    /// led.
    proof fn lemma_tried_more(
        &self,
        nodes: Seq<Node>,
        kid: Node,
        c: Pos,
        t: Time,
        ship: Ship,
        target: Pos,
        crash: bool,
        m: int,
    )
        requires
            self.tried_from(nodes, c, t, ship, target, crash, m),
        ensures
            self.tried_from(nodes.push(kid), c, t, ship, target, crash, m),
    {
        let more = nodes.push(kid);
        assert forall|k: int| 0 <= k < m implies self.leads(
            more,
            c,
            t,
            #[trigger] tried(k),
            ship,
            target,
            crash,
        ) by {
            assert(self.leads(nodes, c, t, tried(k), ship, target, crash));
            let to = self.spec_step(c, tried(k));
            if has_state(nodes, to, t + 1) {
                let i = choose|i: int|
                    0 <= i < nodes.len() && (#[trigger] nodes[i]).pos == to && nodes[i].round == t + 1;
                assert(more[i] == nodes[i]);
            }
        }
    }

    /// Trying one more move from the state that is being served keeps what
    /// holds of what has been served. `kid` is the state the move leads
    /// to, and it has joined the states reached and the open ones if it was
    /// wanted.
    proof fn lemma_sift_step(
        &self,
        nodes: Seq<Node>,
        open: Seq<usize>,
        seen: Set<u64>,
        costs: Map<u64, u64>,
        ship: Ship,
        target: Pos,
        limit: Time,
        crash: bool,
        node: Node,
        kid: Node,
        k: int,
    )
        requires
            is_size(self.width(), self.height()),
            0 <= k < 5,
            nodes.len() <= usize::MAX,
            forall|i: int| 0 <= i < nodes.len() ==> #[trigger] self.scored(nodes, i, ship, target),
            self.round() >= 0,
            self.has(node.pos),
            0 <= node.round < Time::MAX,
            seen.contains(node_key(node)),
            kid.pos == self.spec_step(node.pos, tried(k)),
            kid.round == node.round + 1,
            self.sifted(
                nodes,
                open,
                seen,
                costs,
                ship,
                target,
                limit,
                crash,
                -1,
                Some(node_key(node)),
                k,
            ),
        ensures
            if self.wanted(node, kid, tried(k), seen, costs, ship, target, crash) {
                self.sifted(
                    nodes.push(kid),
                    open.push(nodes.len() as usize),
                    seen,
                    costs.insert(node_key(kid), kid.cost),
                    ship,
                    target,
                    limit,
                    crash,
                    -1,
                    Some(node_key(node)),
                    k + 1,
                )
            } else {
                self.sifted(
                    nodes,
                    open,
                    seen,
                    costs,
                    ship,
                    target,
                    limit,
                    crash,
                    -1,
                    Some(node_key(node)),
                    k + 1,
                )
            },
    {
        let dir = tried(k);
        let hot = Some(node_key(node));
        crate::torus::lemma_step_near(self.width(), self.height(), node.pos, dir);
        if self.wanted(node, kid, dir, seen, costs, ship, target, crash) {
            let nodes2 = nodes.push(kid);
            let open2 = open.push(nodes.len() as usize);
            let costs2 = costs.insert(node_key(kid), kid.cost);
            let last = nodes.len() as int;
            assert(nodes2[last] == kid);
            assert(open2[open.len() as int] == last);
            assert forall|i: int| 0 <= i < nodes2.len() implies #[trigger] self.placed(
                nodes2,
                open2,
                seen,
                target,
                limit,
                i,
            ) by {
                if i < last {
                    assert(self.placed(nodes, open, seen, target, limit, i));
                    assert(nodes2[i] == nodes[i]);
                    if open.contains(i as usize) {
                        let j = choose|j: int| 0 <= j < open.len() && open[j] == i as usize;
                        assert(open2[j] == i as usize);
                    }
                }
            }
            assert forall|i: int|
                0 <= i < nodes2.len() && seen.contains(
                    node_key(#[trigger] nodes2[i]),
                ) implies self.tried_from(
                nodes2,
                nodes2[i].pos,
                nodes2[i].round,
                ship,
                target,
                crash,
                if hot == Some(node_key(nodes2[i])) {
                    k + 1
                } else {
                    5
                },
            ) by {
                let n = nodes2[i];
                assert(keyed(nodes, node_key(n)));
                let j = choose|j: int| 0 <= j < nodes.len() && node_key(#[trigger] nodes[j]) == node_key(n);
                assert(self.scored(nodes, j, ship, target));
                if i < last {
                    assert(self.scored(nodes, i, ship, target));
                    assert(nodes2[i] == nodes[i]);
                } else {
                    crate::schedule::lemma_slot_key_injective(
                        nodes[j].pos,
                        nodes[j].round,
                        n.pos,
                        n.round,
                    );
                }
                crate::schedule::lemma_slot_key_injective(nodes[j].pos, nodes[j].round, n.pos, n.round);
                let m0 = if hot == Some(node_key(n)) {
                    k
                } else {
                    5
                };
                assert(self.tried_from(nodes, nodes[j].pos, nodes[j].round, ship, target, crash, m0));
                self.lemma_tried_more(nodes, kid, n.pos, n.round, ship, target, crash, m0);
                if hot == Some(node_key(n)) {
                    crate::schedule::lemma_slot_key_injective(node.pos, node.round, n.pos, n.round);
                    assert(has_state(nodes2, kid.pos, kid.round as int));
                }
            }
            assert forall|q: u64| #[trigger] seen.contains(q) implies keyed(nodes2, q) by {
                assert(keyed(nodes, q));
                let j = choose|j: int| 0 <= j < nodes.len() && node_key(#[trigger] nodes[j]) == q;
                assert(nodes2[j] == nodes[j]);
            }
            assert forall|q: u64| #[trigger] costs2.contains_key(q) implies keyed(nodes2, q) by {
                if q == node_key(kid) {
                    assert(node_key(nodes2[last]) == q);
                } else {
                    assert(keyed(nodes, q));
                    let j = choose|j: int| 0 <= j < nodes.len() && node_key(#[trigger] nodes[j]) == q;
                    assert(nodes2[j] == nodes[j]);
                }
            }
        } else {
            assert forall|i: int|
                0 <= i < nodes.len() && seen.contains(
                    node_key(#[trigger] nodes[i]),
                ) implies self.tried_from(
                nodes,
                nodes[i].pos,
                nodes[i].round,
                ship,
                target,
                crash,
                if hot == Some(node_key(nodes[i])) {
                    k + 1
                } else {
                    5
                },
            ) by {
                let n = nodes[i];
                assert(self.scored(nodes, i, ship, target));
                if hot == Some(node_key(n)) {
                    crate::schedule::lemma_slot_key_injective(node.pos, node.round, n.pos, n.round);
                    assert(self.tried_from(nodes, n.pos, n.round, ship, target, crash, k));
                    let q = node_key(kid);
                    if (dir == Dir::O || kid.pos != node.pos) && self.passable(
                        kid.pos,
                        kid.round,
                        ship.id,
                        crash,
                        target,
                    ) {
                        assert(seen.contains(q) || costs.contains_key(q));
                        assert(keyed(nodes, q));
                        let j = choose|j: int| 0 <= j < nodes.len() && node_key(#[trigger] nodes[j]) == q;
                        assert(self.scored(nodes, j, ship, target));
                        crate::schedule::lemma_slot_key_injective(
                            nodes[j].pos,
                            nodes[j].round,
                            kid.pos,
                            kid.round,
                        );
                        assert(has_state(nodes, kid.pos, kid.round as int));
                    }
                }
            }
        }
    }

    /// Where every state reached has been served and the search stops at
    /// none of them, no way is open: the states of an open way would have
    /// been reached one after the other, and the search stops at the last.
    proof fn lemma_way_reached(
        &self,
        nodes: Seq<Node>,
        seen: Set<u64>,
        costs: Map<u64, u64>,
        ship: Ship,
        target: Pos,
        depth: Time,
        limit: Time,
        crash: bool,
        way: Seq<(Pos, Time)>,
        k: int,
    )
        requires
            is_size(self.width(), self.height()),
            self.has(ship.cell()),
            0 <= self.round() < Time::MAX,
            nodes.len() > 0,
            nodes[0].pos == ship.cell(),
            nodes[0].round == self.round(),
            forall|i: int| 0 <= i < nodes.len() ==> #[trigger] self.scored(nodes, i, ship, target),
            self.sifted(
                nodes,
                Seq::<usize>::empty(),
                seen,
                costs,
                ship,
                target,
                limit,
                crash,
                -1,
                None,
                5,
            ),
            self.is_open_way(ship, way, target, depth, crash),
            0 <= k < way.len(),
        ensures
            has_state(nodes, way[k].0, way[k].1 as int),
        decreases k,
    {
        let w = self.width();
        let h = self.height();
        let (from, at) = if k == 0 {
            (ship.cell(), self.round())
        } else {
            way[k - 1]
        };
        let i = if k == 0 {
            0int
        } else {
            self.lemma_way_reached(nodes, seen, costs, ship, target, depth, limit, crash, way, k - 1);
            choose|i: int|
                0 <= i < nodes.len() && (#[trigger] nodes[i]).pos == way[k - 1].0 && nodes[i].round
                    == way[k - 1].1
        };
        assert(nodes[i].pos == from && nodes[i].round == at);
        assert(self.placed(nodes, Seq::<usize>::empty(), seen, target, limit, i));
        assert(seen.contains(node_key(nodes[i])));
        assert(self.tried_from(nodes, from, at, ship, target, crash, 5));
        if k > 0 {
            assert(way[(k - 1) + 1].1 == way[k - 1].1 + 1);
        }
        let to = way[k].0;
        assert(self.spec_dist(from, to) <= 1);
        assert(self.has(from));
        lemma_dir_inverts_step(w, h, from, to);
        let d = torus_dir(w, h, from, to).unwrap();
        assert(tried(0) == Dir::N && tried(1) == Dir::S && tried(2) == Dir::E && tried(3) == Dir::W
            && tried(4) == Dir::O);
        assert(self.leads(nodes, from, at, d, ship, target, crash));
        assert(self.passable(way[k].0, way[k].1, ship.id, crash, target));
    }

    /// Tries one move from the state at place `at`: where the unit may plan
    /// to be on the cell it leads to, that cell has not been served at that
    /// turn, and no cheaper way to it is known, the state it leads to joins
    /// the states reached and the open ones.
    fn expand(
        &self,
        nodes: &mut Vec<Node>,
        open: &mut Vec<usize>,
        costs: &mut Table<u64, u64>,
        seen: &Roster<u64>,
        at: usize,
        dir: Dir,
        ship: &Ship,
        target: Pos,
        limit: Time,
        crash: bool,
    )
        requires
            self.wf(),
            self.has(ship.cell()),
            self.has(target),
            self.reached(old(nodes)@, old(open)@, *ship, target, limit, crash),
            at < old(nodes)@.len(),
            old(nodes)@[at as int].round < limit,
            old(nodes)@[at as int].halite >= move_cost(self.resource(old(nodes)@[at as int].pos)),
            old(nodes)@[at as int].pos != target,
        ensures
            self.reached(final(nodes)@, final(open)@, *ship, target, limit, crash),
            final(nodes)@.len() >= old(nodes)@.len(),
            forall|i: int| 0 <= i < old(nodes)@.len() ==> final(nodes)@[i] == old(nodes)@[i],
            ({
                let node = old(nodes)@[at as int];
                let kid = self.child(node, at, dir, target);
                if self.wanted(node, kid, dir, seen@, old(costs)@, *ship, target, crash) {
                    &&& final(nodes)@ == old(nodes)@.push(kid)
                    &&& final(open)@ == old(open)@.push(old(nodes)@.len() as usize)
                    &&& final(costs)@ == old(costs)@.insert(slot_key(kid.pos, kid.round), kid.cost)
                } else {
                    &&& final(nodes)@ == old(nodes)@
                    &&& final(open)@ == old(open)@
                    &&& final(costs)@ == old(costs)@
                }
            }),
    {
        broadcast use vstd::std_specs::hash::group_hash_axioms;

        let node = nodes[at];
        assert(self.scored(nodes@, at as int, *ship, target));
        assert(self.has(node.pos)) by {
            if at > 0 {
                assert(linked(nodes@, self.width(), self.height(), at as int));
            }
        }
        let next_pos = self.step(node.pos, dir);
        let next_round = node.round + 1;
        let idle = dir != Dir::O && next_pos == node.pos;
        if !idle && self.is_passable(next_pos, next_round, ship.id, crash, target) {
            let key = key_of(next_pos, next_round);
            if !roster_contains(seen, &key) {
                let next_cost = node.cost + self.edge_cost(node.pos, dir);
                let better = match table_get(costs, &key) {
                    Some(prev) => next_cost < *prev,
                    None => true,
                };
                if better {
                    let fare = self.fare(node.pos);
                    let next_halite = if dir == Dir::O {
                        node.halite
                    } else {
                        node.halite - fare
                    };
                    let estimate = HEURISTIC_WEIGHT * (self.dist(next_pos, target) as u64);
                    let child = Node {
                        pos: next_pos,
                        halite: next_halite,
                        heuristic: next_cost + estimate,
                        round: next_round,
                        cost: next_cost,
                        parent: at,
                    };
                    let ghost before = nodes@;
                    nodes.push(child);
                    open.push(nodes.len() - 1);
                    let _ = table_insert(costs, key, next_cost);
                    proof {
                        let after = nodes@;
                        assert forall|i: int| 0 < i < after.len() implies #[trigger] linked(
                            after,
                            self.width(),
                            self.height(),
                            i,
                        ) by {
                            if i < before.len() {
                                assert(linked(before, self.width(), self.height(), i));
                                assert(after[i] == before[i]);
                                assert(after[before[i].parent as int] == before[before[i].parent as int]);
                            }
                        }
                        assert forall|i: int| 0 <= i < after.len() implies #[trigger] self.scored(
                            after,
                            i,
                            *ship,
                            target,
                        ) by {
                            if i < before.len() {
                                assert(self.scored(before, i, *ship, target));
                                assert(after[i] == before[i]);
                            } else {
                                assert(after[i] == child);
                                assert(self.scored(before, at as int, *ship, target));
                                crate::torus::lemma_dist_triangle(
                                    self.width(),
                                    self.height(),
                                    ship.cell(),
                                    node.pos,
                                    next_pos,
                                );
                            }
                        }
                        assert forall|i: int| 0 < i < after.len() implies #[trigger] self.fed(
                            after,
                            i,
                            target,
                            limit,
                        ) by {
                            if i < before.len() {
                                assert(self.fed(before, i, target, limit));
                                assert(linked(before, self.width(), self.height(), i));
                                assert(after[i] == before[i]);
                                assert(after[before[i].parent as int] == before[before[i].parent as int]);
                            } else {
                                assert(after[i] == child);
                                assert(after[at as int] == node);
                            }
                        }
                    }
                }
            }
        }
    }

    /// Searches a route for the unit from its cell towards `target`, at
    /// most `depth` turns long. A state ends the search when it is served
    /// if it lies on `target`, if the unit could not pay for a move away
    /// from it, or if it is `depth` turns away. The states are served in
    /// the order of their estimates. `None` if the open states run out.
    #[verifier::rlimit(40)]
    fn search(&self, ship: &Ship, target: Pos, depth: Time, crash: bool) -> (found: Option<
        VecDeque<(Pos, Time)>,
    >)
        requires
            self.wf(),
            self.has(ship.cell()),
            self.has(target),
            self.round() < Time::MAX,
            depth >= 1,
            ship.halite >= move_cost(self.resource(ship.cell())),
            ship.cell() != target,
        ensures
            found matches Some(way) ==> {
                &&& is_route(self.width(), self.height(), way@)
                &&& way@[0].1 == self.round() + 1
                &&& self.spec_dist(ship.cell(), way@[0].0) <= 1
                &&& way@.len() <= depth
                &&& forall|i: int|
                    0 <= i < way@.len() ==> self.passable(
                        (#[trigger] way@[i]).0,
                        way@[i].1,
                        ship.id,
                        crash,
                        target,
                    )
                &&& self.way_ends(*ship, way@, target, depth)
                &&& forall|k: int|
                    1 <= k < way@.len() ==> !self.way_ends(
                        *ship,
                        #[trigger] way@.take(k),
                        target,
                        depth,
                    )
                &&& forall|k: int|
                    0 <= k <= way@.len() ==> self.way_fuel(*ship, #[trigger] way@.take(k)) >= 0
            },
            self.open_field(*ship) && self.spec_dist(ship.cell(), target) <= self.horizon(depth)
                ==> (found matches Some(way) && way@.len() == self.spec_dist(ship.cell(), target)
                && way@.last().0 == target),
            self.way_open(*ship, target, depth, crash) ==> found.is_some(),
    {
        broadcast use vstd::std_specs::hash::group_hash_axioms;

        let start = ship.pos();
        let round = self.round;
        let limit: Time = if depth as i32 + round as i32 > Time::MAX as i32 {
            Time::MAX
        } else {
            round + depth
        };
        let mut nodes: Vec<Node> = Vec::new();
        let mut open: Vec<usize> = Vec::new();
        let mut costs: Table<u64, u64> = HashMap::default();
        let mut seen: Roster<u64> = HashSet::default();
        let whole = self.dist(start, target);
        let estimate: u64 = HEURISTIC_WEIGHT * (whole as u64);
        nodes.push(
            Node { pos: start, halite: ship.halite, heuristic: estimate, round, cost: 0, parent: 0 },
        );
        open.push(0);
        let _ = table_insert(&mut costs, key_of(start, round), 0);
        let ghost w = self.width();
        let ghost h = self.height();
        let ghost far = self.spec_dist(ship.cell(), target);
        let ghost calm = self.open_field(*ship) && far <= self.horizon(depth);
        let ghost mut lv: int = 0;
        assert(0 < w * h <= 127 * 127) by (nonlinear_arith)
            requires
                0 < w <= 127,
                0 < h <= 127,
        ;
        // One more than there are slots: a search serves a slot at most once.
        let mut budget: u64 = 0x2000_0001;
        proof {
            broadcast use vstd::set::group_set_axioms;

            crate::schedule::lemma_key_turn(start, round);
            assert(open@[0] == 0);
            assert(self.on_track(nodes@[open@[0] as int], *ship, target, 0));
            assert(self.placed(nodes@, open@, seen@, target, limit, 0));
            assert forall|k: u64| #[trigger] costs@.contains_key(k) implies keyed(nodes@, k) by {
                assert(node_key(nodes@[0]) == k);
            }
            assert(self.sifted(nodes@, open@, seen@, costs@, *ship, target, limit, crash, -1, None, 5));
        }
        while open.len() > 0 && budget > 0
            invariant
                self.wf(),
                w == self.width(),
                h == self.height(),
                far == self.spec_dist(ship.cell(), target),
                self.has(ship.cell()),
                self.has(target),
                round == self.round(),
                round < limit,
                limit - round <= depth,
                limit - round == self.horizon(depth),
                ship.halite >= move_cost(self.resource(ship.cell())),
                ship.cell() != target,
                nodes@.len() > 0,
                self.reached(nodes@, open@, *ship, target, limit, crash),
                calm == (self.open_field(*ship) && far <= self.horizon(depth)),
                calm ==> self.front(nodes@, open@, seen@, costs@, *ship, target, lv),
                calm ==> budget + lv >= far + 1,
                seen@.finite(),
                forall|k: u64| seen@.contains(k) ==> k < 0x2000_0000,
                budget + seen@.len() == 0x2000_0001,
                self.sifted(nodes@, open@, seen@, costs@, *ship, target, limit, crash, -1, None, 5),
            decreases budget, open@.len(),
        {
            let ghost was_open = open@;
            let count = nodes.len();
            let at = pop_best(&nodes, &mut open);
            let node = nodes[at];
            proof {
                crate::search::lemma_best_of(nodes@, was_open, was_open.len() as int);
                self.lemma_sift_pop(
                    nodes@,
                    was_open,
                    seen@,
                    costs@,
                    *ship,
                    target,
                    limit,
                    crash,
                    best_of(nodes@, was_open, was_open.len() as int),
                );
                assert(self.scored(nodes@, at as int, *ship, target));
            }
            assert(self.has(node.pos)) by {
                if at > 0 {
                    assert(linked(nodes@, w, h, at as int));
                }
            }
            proof {
                if calm {
                    let b = best_of(nodes@, was_open, was_open.len() as int);
                    crate::search::lemma_best_of(nodes@, was_open, was_open.len() as int);
                    assert(self.reached(nodes@, was_open, *ship, target, limit, crash));
                    self.lemma_front_pick(
                        nodes@,
                        was_open,
                        seen@,
                        costs@,
                        *ship,
                        target,
                        limit,
                        crash,
                        lv,
                        b,
                    );
                    assert(self.on_track(node, *ship, target, lv));
                    crate::torus::lemma_dist_zero(w, h, node.pos, target);
                    if at > 0 {
                        assert(self.fed(nodes@, at as int, target, limit));
                    }
                }
            }
            let fare = self.fare(node.pos);
            if at > 0 && (node.halite < fare || node.pos == target || node.round >= limit) {
                proof {
                    assert forall|i: int| 0 < i < nodes@.len() implies (#[trigger] nodes@[i]).parent
                        < i by {
                        assert(linked(nodes@, w, h, i));
                    }
                }
                let way = trace(&nodes, at);
                proof {
                    lemma_path_is_route(nodes@, w, h, ship.cell(), round, at as int);
                    self.lemma_way(nodes@, open@, *ship, target, limit, crash, at as int);
                    assert forall|i: int| 0 <= i < way@.len() implies self.passable(
                        (#[trigger] way@[i]).0,
                        way@[i].1,
                        ship.id,
                        crash,
                        target,
                    ) by {
                        lemma_path_entries(nodes@, at as int, i);
                    }
                    if calm {
                        assert(self.on_track(node, *ship, target, lv));
                        assert(way@.len() == lv);
                        assert(0 <= lv <= far);
                        assert(move_cost(self.resource(node.pos)) == 0);
                        assert(node.halite >= 0);
                        assert(lv == far);
                        assert(node.pos == target);
                        assert(way@.last() == (node.pos, node.round));
                    }
                }
                return Some(way);
            }
            let here = key_of(node.pos, node.round);
            proof {
                crate::schedule::lemma_key_turn(node.pos, node.round);
            }
            if !roster_contains(&seen, &here) {
                let ghost seen_before = seen@;
                let _ = roster_insert(&mut seen, here);
                budget = budget - 1;
                proof {
                    broadcast use vstd::set::group_set_axioms;

                    assert(here == node_key(node));
                    assert(here < 0x2000_0000);
                    assert(self.placed(nodes@, open@, seen@, target, limit, at as int));
                    assert forall|i: int|
                        0 <= i < nodes@.len() implies #[trigger] self.placed(
                        nodes@,
                        open@,
                        seen@,
                        target,
                        limit,
                        i,
                    ) by {
                        if i != at {
                            assert(self.placed(nodes@, open@, seen_before, target, limit, i));
                        }
                    }
                    assert forall|k: u64| #[trigger] seen@.contains(k) implies keyed(nodes@, k) by {
                        if k == here {
                            assert(node_key(nodes@[at as int]) == k);
                        } else {
                            assert(seen_before.contains(k));
                        }
                    }
                    assert forall|i: int|
                        0 <= i < nodes@.len() && seen@.contains(
                            node_key(#[trigger] nodes@[i]),
                        ) implies self.tried_from(
                        nodes@,
                        nodes@[i].pos,
                        nodes@[i].round,
                        *ship,
                        target,
                        crash,
                        if Some(here) == Some(node_key(nodes@[i])) {
                            0
                        } else {
                            5
                        },
                    ) by {
                        if node_key(nodes@[i]) != here {
                            assert(seen_before.contains(node_key(nodes@[i])));
                        }
                    }
                    assert(self.sifted(
                        nodes@,
                        open@,
                        seen@,
                        costs@,
                        *ship,
                        target,
                        limit,
                        crash,
                        -1,
                        Some(here),
                        0,
                    ));
                }
                let ghost aim: Dir = Dir::N;
                let ghost mut hit = false;
                proof {
                    if calm {
                        crate::torus::lemma_step_closer(w, h, node.pos, target);
                        aim = choose|d: Dir|
                            d != Dir::O && torus_dist(w, h, #[trigger] torus_step(w, h, node.pos, d), target)
                                == torus_dist(w, h, node.pos, target) - 1;
                        assert forall|j: int| 0 <= j < open@.len() implies nodes@[(
                        #[trigger] open@[j]) as int].round - round <= lv + 1 by {
                            let b = best_of(nodes@, was_open, was_open.len() as int);
                            if j == b {
                                assert(open@[j] == was_open[was_open.len() - 1]);
                            } else {
                                assert(open@[j] == was_open[j]);
                            }
                        }
                        assert(self.growing(nodes@, open@, costs@, *ship, target, lv, false));
                    }
                }
                let mut k: usize = 0;
                while k < 5
                    invariant
                        self.wf(),
                        w == self.width(),
                        h == self.height(),
                        round == self.round(),
                        far == self.spec_dist(ship.cell(), target),
                        self.has(ship.cell()),
                        self.has(target),
                        self.has(node.pos),
                        0 <= k <= 5,
                        at < nodes@.len(),
                        nodes@[at as int] == node,
                        node.round < limit,
                        node.halite >= move_cost(self.resource(node.pos)),
                        node.pos != target,
                        self.reached(nodes@, open@, *ship, target, limit, crash),
                        calm ==> self.open_field(*ship),
                        calm ==> self.on_track(node, *ship, target, lv),
                        calm ==> aim != Dir::O && self.spec_dist(self.spec_step(node.pos, aim), target)
                            == far - lv - 1,
                        calm ==> forall|key: u64| #[trigger]
                            seen@.contains(key) ==> key_turn(key) < round + lv + 1,
                        calm ==> self.growing(nodes@, open@, costs@, *ship, target, lv, hit),
                        calm ==> forall|m: int| 0 <= m < k && #[trigger] tried(m) == aim ==> hit,
                        here == node_key(node),
                        seen@.contains(here),
                        self.sifted(
                            nodes@,
                            open@,
                            seen@,
                            costs@,
                            *ship,
                            target,
                            limit,
                            crash,
                            -1,
                            Some(here),
                            k as int,
                        ),
                    decreases 5 - k,
                {
                    let dir = nth_tried(k);
                    let count = nodes.len();
                    let ghost pre_nodes = nodes@;
                    let ghost pre_open = open@;
                    let ghost pre_costs = costs@;
                    self.expand(
                        &mut nodes,
                        &mut open,
                        &mut costs,
                        &seen,
                        at,
                        dir,
                        ship,
                        target,
                        limit,
                        crash,
                    );
                    proof {
                        let kid = self.child(node, at, dir, target);
                        assert(pre_nodes.len() == count);
                        self.lemma_sift_step(
                            pre_nodes,
                            pre_open,
                            seen@,
                            pre_costs,
                            *ship,
                            target,
                            limit,
                            crash,
                            node,
                            kid,
                            k as int,
                        );
                        if calm {
                            let kid = self.child(node, at, dir, target);
                            assert(pre_nodes.len() == count);
                            self.lemma_kid(node, at, dir, seen@, *ship, target, crash, lv, aim);
                            self.lemma_grow(
                                pre_nodes,
                                pre_open,
                                pre_costs,
                                seen@,
                                node,
                                kid,
                                dir,
                                *ship,
                                target,
                                crash,
                                lv,
                                aim,
                                hit,
                            );
                            hit = hit || dir == aim;
                        }
                    }
                    k += 1;
                }
                proof {
                    if calm {
                        assert(hit) by {
                            assert(tried(0) == Dir::N && tried(1) == Dir::S && tried(2) == Dir::E
                                && tried(3) == Dir::W);
                        }
                        lv = lv + 1;
                        assert(self.front(nodes@, open@, seen@, costs@, *ship, target, lv));
                    }
                }
                proof {
                    assert(self.sifted(
                        nodes@,
                        open@,
                        seen@,
                        costs@,
                        *ship,
                        target,
                        limit,
                        crash,
                        -1,
                        None,
                        5,
                    ));
                }
            } else {
                assert(!calm);
                proof {
                    assert(self.placed(nodes@, open@, seen@, target, limit, at as int));
                }
            }
        }
        proof {
            lemma_small_set(seen@, 0x2000_0000);
            assert(open@ =~= Seq::<usize>::empty());
            assert(!calm);
            if self.way_open(*ship, target, depth, crash) {
                let way = choose|way: Seq<(Pos, Time)>| #[trigger]
                    self.is_open_way(*ship, way, target, depth, crash);
                let last = way.len() - 1;
                self.lemma_way_reached(
                    nodes@,
                    seen@,
                    costs@,
                    *ship,
                    target,
                    depth,
                    limit,
                    crash,
                    way,
                    last,
                );
                crate::schedule::lemma_route_turns(w, h, way, last);
                let i = choose|i: int|
                    0 <= i < nodes@.len() && (#[trigger] nodes@[i]).pos == way[last].0 && nodes@[i].round
                        == way[last].1;
                assert(self.placed(nodes@, open@, seen@, target, limit, i));
                assert(self.terminal(nodes@[i], target, limit));
            }
        }
        None
    }

    /// The cell that the unit's stored route leads to next, where the unit
    /// can follow it: the route begins with the unit's cell at this turn and
    /// goes on, the next cell is not threatened, and the unit still holds
    /// it for the next turn.
    pub open spec fn cached_step(&self, ship: Ship) -> Option<Pos> {
        let way = self.schedule().route(ship.id);
        if way.len() >= 2 && way[0] == (ship.cell(), self.round()) && !self.threatened(way[1].0)
            && self.schedule().holds(way[1].0, way[1].1, ship.id) {
            Some(way[1].0)
        } else {
            None
        }
    }

    /// Whether the unit cannot set out: it cannot pay for a move away from
    /// its cell, or it is given no turn to plan.
    pub open spec fn stuck(&self, ship: Ship, depth: Time) -> bool {
        ship.halite < move_cost(self.resource(ship.cell())) || depth < 1
    }

    /// Takes the next step of the unit's stored route, where the unit can
    /// follow it: the step comes off the route, the slot that the unit
    /// leaves is given up, and the cell it leads to is returned. Where
    /// the unit cannot follow its route, at most the route changes.
    fn follow(&mut self, ship: &Ship) -> (to: Option<Pos>)
        requires
            old(self).wf(),
            old(self).has(ship.cell()),
            old(self).round() < Time::MAX,
        ensures
            final(self).wf(),
            final(self).same_view(*old(self)),
            to == old(self).cached_step(*ship),
            match to {
                Some(c) => {
                    &&& old(self).has(c)
                    &&& old(self).spec_dist(ship.cell(), c) <= 1
                    &&& old(self).schedule().route(ship.id)[1] == (
                        c,
                        (old(self).round() + 1) as Time,
                    )
                    &&& final(self).schedule().routes() == old(self).schedule().routes().insert(
                        ship.id,
                        old(self).schedule().route(ship.id).skip(1),
                    )
                    &&& final(self).schedule().slots() == old(self).schedule().slots().remove(
                        slot_key(ship.cell(), old(self).round()),
                    )
                },
                None => {
                    &&& final(self).schedule().routes().remove(ship.id) == old(
                        self,
                    ).schedule().routes().remove(ship.id)
                    &&& final(self).schedule().slots() == old(self).schedule().slots()
                },
            },
    {
        let start = ship.pos();
        let round = self.round;
        let id = ship.id;
        let ghost before = self.schedule;
        let ghost was = *self;
        let ghost way = before.route(id);

        let head = self.schedule.pop_next(id);
        let mut to: Option<Pos> = None;
        if let Some((c0, t0)) = head {
            if c0 == start && t0 == round {
                if let Some((c1, t1)) = self.schedule.peek_next(id) {
                    proof {
                        assert(before.has_route(id));
                        assert(way.skip(1)[0] == way[1]);
                        assert(is_route(before.width(), before.height(), way));
                        assert(way[0int + 1].1 == way[0].1 + 1);
                    }
                    let mine = match self.schedule.claimant(c1, t1) {
                        Some(u) => u == id,
                        None => false,
                    };
                    if mine && !self.is_threatened(c1) {
                        to = Some(c1);
                    }
                }
            }
        }
        proof {
            self.lemma_same_view(was);
            if way.len() >= 2 {
                assert(way.skip(1)[0] == way[1]);
            }
            assert(self.schedule.routes().remove(id) =~= before.routes().remove(id));
        }
        if to.is_some() {
            self.schedule.release(start, round);
            proof {
                let after = self.schedule;
                assert forall|u: ID| #[trigger] after.has_route(u) implies is_route(
                    after.width(),
                    after.height(),
                    after.routes()[u],
                ) by {
                    assert(u == id || before.has_route(u));
                }
            }
        }
        to
    }

    /// Plans anew for a unit that has no route and holds no slot: a unit
    /// that is stuck stays; one that stands on `end_pos` makes the
    /// fallback move; every other unit searches a route, claims its slots
    /// and takes its first step, or makes the fallback move if the search
    /// finds none.
    #[verifier::rlimit(40)]
    fn replan(&mut self, ship: &Ship, end_pos: Pos, depth: Time, crash: bool) -> (r: (
        Option<ID>,
        Dir,
    ))
        requires
            old(self).wf(),
            old(self).has(ship.cell()),
            old(self).has(end_pos),
            old(self).round() < Time::MAX,
            !old(self).schedule().has_route(ship.id),
        ensures
            final(self).wf(),
            final(self).same_view(*old(self)),
            ({
                let d = r.1;
                let start = ship.cell();
                let next = (old(self).round() + 1) as Time;
                let dest = old(self).spec_step(start, d);
                let before = old(self).schedule();
                let after = final(self).schedule();
                &&& r.0 == before.loser(dest, next, ship.id)
                &&& after.routes().remove(ship.id) == before.routes()
                &&& forall|c: Pos|
                    old(self).has(c) && c != dest ==> #[trigger] after.holder(c, next) == before.holder(
                        c,
                        next,
                    )
                &&& forall|c: Pos, t: Time, u: ID|
                    old(self).has(c) && t >= 0 && u != ship.id && #[trigger] before.holds(c, t, u)
                        ==> after.holds(c, t, u) || (after.holds(c, t, ship.id) && ((c == dest && t
                        == next) || (crash && c == end_pos)))
                &&& if after.has_route(ship.id) {
                    let way = after.route(ship.id);
                    &&& !old(self).stuck(*ship, depth)
                    &&& start != end_pos
                    &&& way.len() <= depth
                    &&& way[0] == (dest, next)
                    &&& after.slots() == claim_all(before.slots(), way, ship.id)
                    &&& forall|i: int|
                        0 <= i < way.len() ==> old(self).passable(
                            (#[trigger] way[i]).0,
                            way[i].1,
                            ship.id,
                            crash,
                            end_pos,
                        )
                    &&& old(self).way_ends(*ship, way, end_pos, depth)
                    &&& forall|k: int|
                        1 <= k < way.len() ==> !old(self).way_ends(
                            *ship,
                            #[trigger] way.take(k),
                            end_pos,
                            depth,
                        )
                    &&& forall|k: int|
                        0 <= k <= way.len() ==> old(self).way_fuel(*ship, #[trigger] way.take(k))
                            >= 0
                } else {
                    &&& after.slots() == before.slots().insert(slot_key(dest, next), ship.id)
                    &&& d == (if old(self).stuck(*ship, depth) {
                        Dir::O
                    } else {
                        old(self).spec_fallback(start, ship.id)
                    })
                }
            }),
            old(self).open_field(*ship) && ship.cell() != end_pos && ship.halite >= 0 && old(
                self,
            ).spec_dist(ship.cell(), end_pos) <= old(self).horizon(depth) ==> {
                let way = final(self).schedule().route(ship.id);
                &&& final(self).schedule().has_route(ship.id)
                &&& way.len() == old(self).spec_dist(ship.cell(), end_pos)
                &&& way.last().0 == end_pos
            },
            !old(self).stuck(*ship, depth) && ship.cell() != end_pos && old(self).way_open(
                *ship,
                end_pos,
                depth,
                crash,
            ) ==> final(self).schedule().has_route(ship.id),
    {
        let start = ship.pos();
        let next = self.round + 1;
        let id = ship.id;
        let ghost before = self.schedule;
        let ghost was = *self;
        proof {
            assert(before.routes().remove(id) =~= before.routes());
            crate::torus::lemma_dist_zero(self.width(), self.height(), ship.cell(), end_pos);
        }
        let stuck = ship.halite < self.fare(start) || depth < 1;
        if !stuck && start != end_pos {
            if let Some(way) = self.search(ship, end_pos, depth, crash) {
                let first = way[0].0;
                let ghost found = way@;
                let displaced = self.schedule.adopt(id, way);
                proof {
                    assert(self.schedule.routes().remove(id) =~= before.routes());
                    self.lemma_same_view(was);
                    assert forall|c: Pos| was.has(c) && c != first implies #[trigger] self.schedule.holder(
                        c,
                        next,
                    ) == before.holder(c, next) by {
                        crate::schedule::lemma_claim_all_first_turn(
                            before.slots(),
                            self.width(),
                            self.height(),
                            found,
                            id,
                            c,
                        );
                    }
                    lemma_claim_all(before.slots(), found, id);
                    assert forall|c: Pos, t: Time, u: ID|
                        was.has(c) && t >= 0 && u != id && #[trigger] before.holds(
                            c,
                            t,
                            u,
                        ) implies self.schedule.holds(c, t, u) || (self.schedule.holds(c, t, id) && ((c
                        == first && t == next) || (crash && c == end_pos))) by {
                        let k = slot_key(c, t);
                        assert(self.schedule.slots().contains_key(k));
                        if self.schedule.slots()[k] == id {
                            crate::schedule::lemma_claim_all_taken(before.slots(), found, id, k);
                            let i = choose|i: int|
                                0 <= i < found.len() && slot_key((#[trigger] found[i]).0, found[i].1)
                                    == k;
                            crate::schedule::lemma_slot_key_injective(found[i].0, found[i].1, c, t);
                            assert(self.passable(found[i].0, found[i].1, id, crash, end_pos));
                        }
                    }
                }
                let d = self.inv_step(start, first);
                return (displaced, d);
            }
        }
        let d = if stuck {
            Dir::O
        } else {
            self.fallback_dir(start, id)
        };
        let dest = self.step(start, d);
        let displaced = self.schedule.reserve(dest, next, id);
        proof {
            let after = self.schedule;
            assert forall|u: ID| #[trigger] after.has_route(u) implies is_route(
                after.width(),
                after.height(),
                after.routes()[u],
            ) by {
                assert(before.has_route(u));
            }
            assert(after.routes().remove(id) =~= before.routes());
            assert forall|c: Pos| was.has(c) && c != dest implies #[trigger] after.holder(c, next)
                == before.holder(c, next) by {
                if slot_key(c, next) == slot_key(dest, next) {
                    crate::schedule::lemma_slot_key_injective(c, next, dest, next);
                }
            }
            assert forall|c: Pos, t: Time, u: ID|
                was.has(c) && t >= 0 && u != id && #[trigger] before.holds(c, t, u) implies after.holds(
                c,
                t,
                u,
            ) || (after.holds(c, t, id) && ((c == dest && t == next) || (crash && c == end_pos))) by {
                if slot_key(c, t) == slot_key(dest, next) {
                    crate::schedule::lemma_slot_key_injective(c, t, dest, next);
                }
            }
        }
        (displaced, d)
    }

    /// What `navigate` decides for a unit, from the view and the store
    /// before to the store `after` and the result `r`: the unit that lost
    /// its claim, and the order.
    ///
    /// The order is a move of the unit. The unit holds, for the next
    /// turn, the cell the move leads to, and a stored route begins there.
    /// A move that leaves the cell leads to a cell the unit may plan to be
    /// on, so that a unit with every neighbouring cell barred stays. The
    /// unit named as the loser is the one that held that cell. The routes
    /// of other units are as they were; of the slots of the next turn only
    /// that of the cell moved to changes its holder; a later slot of
    /// another unit is lost only to a crashing unit on its target; and no
    /// other unit gains a slot. A unit that can follow its stored route
    /// takes its next step. Any other unit first gives up its route and its
    /// slots; then it stores a searched route, whose slots it claims, which
    /// it can pay for and pass, and which stops at the first state to stop
    /// at; or it stays, if it is stuck, or makes the fallback move. In an
    /// open field the route is as long as the distance and ends on the
    /// target; and a unit that is not stuck and is off its target stores a
    /// route wherever a way is open to it.
    pub open spec fn decided(
        &self,
        after: Schedule,
        ship: Ship,
        end_pos: Pos,
        depth: Time,
        crash: bool,
        r: (Option<ID>, Command),
    ) -> bool {
        &&& r.1 matches Command::Move(id, d) && id == ship.id && ({
            let start = ship.cell();
            let next = (self.round() + 1) as Time;
            let dest = self.spec_step(start, d);
            let before = self.schedule();
            let cleared = without_unit(before.slots(), ship.id);
            &&& after.holds(dest, next, ship.id)
            &&& after.has_route(ship.id) ==> after.route(ship.id)[0] == (dest, next)
            &&& d != Dir::O ==> self.passable(dest, next, ship.id, crash, end_pos)
            &&& (forall|e: Dir|
                e != Dir::O ==> !self.passable(
                    #[trigger] self.spec_step(start, e),
                    next,
                    ship.id,
                    crash,
                    end_pos,
                )) ==> d == Dir::O
            &&& r.0 == before.loser(dest, next, ship.id)
            &&& after.routes().remove(ship.id) == before.routes().remove(ship.id)
            &&& forall|c: Pos|
                self.has(c) && c != dest ==> #[trigger] after.holder(c, next) == before.holder(
                    c,
                    next,
                ) || before.holder(c, next) == Some(ship.id)
            &&& forall|k: u64|
                #![trigger after.slots().contains_key(k)]
                after.slots().contains_key(k) && after.slots()[k] != ship.id
                    ==> before.slots().contains_key(k) && before.slots()[k] == after.slots()[k]
            &&& forall|c: Pos, t: Time, u: ID|
                self.has(c) && t > self.round() && u != ship.id && #[trigger] before.holds(c, t, u)
                    ==> after.holds(c, t, u) || (after.holds(c, t, ship.id) && ((c == dest && t
                    == next) || (crash && c == end_pos)))
            &&& match self.cached_step(ship) {
                Some(to) => {
                    &&& dest == to
                    &&& after.routes() == before.routes().insert(
                        ship.id,
                        before.route(ship.id).skip(1),
                    )
                    &&& after.slots() == before.slots().remove(
                        slot_key(start, self.round()),
                    )
                },
                None => if after.has_route(ship.id) {
                    let way = after.route(ship.id);
                    &&& !self.stuck(ship, depth)
                    &&& start != end_pos
                    &&& way.len() <= depth
                    &&& after.slots() == claim_all(cleared, way, ship.id)
                    &&& forall|i: int|
                        0 <= i < way.len() ==> self.passable(
                            (#[trigger] way[i]).0,
                            way[i].1,
                            ship.id,
                            crash,
                            end_pos,
                        )
                    &&& self.way_ends(ship, way, end_pos, depth)
                    &&& forall|k: int|
                        1 <= k < way.len() ==> !self.way_ends(
                            ship,
                            #[trigger] way.take(k),
                            end_pos,
                            depth,
                        )
                    &&& forall|k: int|
                        0 <= k <= way.len() ==> self.way_fuel(
                            ship,
                            #[trigger] way.take(k),
                        ) >= 0
                } else {
                    &&& after.slots() == cleared.insert(slot_key(dest, next), ship.id)
                    &&& d == (if self.stuck(ship, depth) {
                        Dir::O
                    } else {
                        self.spec_fallback(start, ship.id)
                    })
                },
            }
        })
        &&& self.open_field(ship) && self.cached_step(ship).is_none() && ship.cell()
            != end_pos && ship.halite >= 0 && self.spec_dist(ship.cell(), end_pos) <= self.horizon(depth) ==> {
            let way = after.route(ship.id);
            &&& after.has_route(ship.id)
            &&& way.len() == self.spec_dist(ship.cell(), end_pos)
            &&& way.last().0 == end_pos
        }
        &&& self.cached_step(ship).is_none() && !self.stuck(ship, depth) && ship.cell() != end_pos
            && self.way_open(ship, end_pos, depth, crash) ==> after.has_route(ship.id)
    }

    /// Decides the unit's move for this turn, and returns it with the unit,
    /// if any, that lost its claim on the cell the move leads to.
    ///
    /// A unit whose stored route can be followed takes its next step and
    /// gives up the slot it leaves. Any other unit first loses its route
    /// and all its slots. A unit that is stuck then stays; one that
    /// stands on `end_pos` makes the fallback move; every other unit
    /// searches a route of at most `depth` turns towards `end_pos`, claims
    /// its slots and takes its first step, or makes the fallback move if
    /// the search finds none. In each case the unit holds, for the next
    /// turn, the cell its move leads to.
    #[verifier::rlimit(40)]
    pub fn navigate(&mut self, ship: &Ship, end_pos: Pos, depth: Time, crash: bool) -> (r: (
        Option<ID>,
        Command,
    ))
        requires
            old(self).wf(),
            old(self).has(ship.cell()),
            old(self).has(end_pos),
            old(self).round() < Time::MAX,
        ensures
            final(self).wf(),
            final(self).same_view(*old(self)),
            old(self).decided(final(self).schedule(), *ship, end_pos, depth, crash, r),
    {
        let start = ship.pos();
        let round = self.round;
        let next = round + 1;
        let id = ship.id;
        let ghost before = self.schedule;
        let ghost was = *self;

        if let Some(c1) = self.follow(ship) {
            let d = self.inv_step(start, c1);
            proof {
                let after = self.schedule;
                assert(after.routes().remove(id) =~= before.routes().remove(id));
                if slot_key(start, round) == slot_key(c1, next) {
                    crate::schedule::lemma_slot_key_injective(start, round, c1, next);
                }
                assert(before.has_route(id));
                assert forall|c: Pos| was.has(c) && c != c1 implies #[trigger] after.holder(c, next)
                    == before.holder(c, next) by {
                    if slot_key(start, round) == slot_key(c, next) {
                        crate::schedule::lemma_slot_key_injective(start, round, c, next);
                    }
                }
                assert forall|c: Pos, t: Time, u: ID|
                    was.has(c) && t > round && u != id && #[trigger] before.holds(
                        c,
                        t,
                        u,
                    ) implies after.holds(c, t, u) by {
                    if slot_key(start, round) == slot_key(c, t) {
                        crate::schedule::lemma_slot_key_injective(start, round, c, t);
                    }
                }
            }
            return (None, Command::Move(id as usize, d));
        }
        self.schedule.invalidate(id);
        let ghost cleared = *self;
        proof {
            cleared.lemma_same_view(was);
            if was.open_field(*ship) {
                assert forall|p: Pos| cleared.has(p) implies move_cost(
                    #[trigger] cleared.resource(p),
                ) == 0 by {
                    assert(was.has(p));
                    assert(cleared.resource(p) == was.resource(p));
                }
                assert forall|p: Pos| cleared.has(p) implies !(#[trigger] cleared.enemy(p)) by {
                    assert(was.has(p));
                    assert(!was.enemy(p));
                }
                assert forall|p: Pos| cleared.has(p) && p != ship.cell() implies !(
                #[trigger] cleared.ally(p)) by {
                    assert(was.has(p));
                    assert(!was.ally(p));
                }
                assert(cleared.open_field(*ship));
            }
        }
        proof {
            if was.way_open(*ship, end_pos, depth, crash) {
                let way = choose|way: Seq<(Pos, Time)>| #[trigger]
                    was.is_open_way(*ship, way, end_pos, depth, crash);
                assert forall|i: int| 0 <= i < way.len() implies cleared.passable(
                    (#[trigger] way[i]).0,
                    way[i].1,
                    id,
                    crash,
                    end_pos,
                ) by {
                    assert(was.passable(way[i].0, way[i].1, id, crash, end_pos));
                }
                assert(cleared.is_open_way(*ship, way, end_pos, depth, crash));
            }
        }
        let (displaced, d) = self.replan(ship, end_pos, depth, crash);
        proof {
            let after = self.schedule;
            let dest = was.spec_step(start, d);
            cleared.lemma_same_view(was);
            self.lemma_same_view(was);
            assert(after.routes().remove(id) =~= before.routes().remove(id));
            cleared.lemma_fallback_same(was, start, id, 5);
            was.lemma_pick_free(start, id, 5);
            assert forall|c: Pos, t: Time, u: ID|
                was.has(c) && t > round && u != id && #[trigger] before.holds(c, t, u) implies after.holds(
                c,
                t,
                u,
            ) || (after.holds(c, t, id) && ((c == dest && t == next) || (crash && c == end_pos))) by {
                assert(cleared.schedule.holds(c, t, u));
            }
            if after.has_route(id) {
                let way = after.route(id);
                lemma_claim_all(cleared.schedule.slots(), way, id);
                assert(way[0] == (dest, next));
                assert forall|i: int| 0 <= i < way.len() implies was.passable(
                    (#[trigger] way[i]).0,
                    way[i].1,
                    id,
                    crash,
                    end_pos,
                ) by {
                    assert(cleared.passable(way[i].0, way[i].1, id, crash, end_pos));
                }
            }
        }
        (displaced, Command::Move(id as usize, d))
    }
}

/// A unit stands on `p` after one more unit is listed exactly if one did
/// before or the new one does.
proof fn lemma_ship_at_push(ships: Seq<Ship>, ship: Ship, id: PID, own: bool, p: Pos)
    ensures
        ship_at(ships.push(ship), id, own, p) == (ship_at(ships, id, own, p) || (ship.cell() == p
            && (ship.owner == id) == own)),
{
    let more = ships.push(ship);
    if ship_at(ships, id, own, p) {
        let i = choose|i: int|
            0 <= i < ships.len() && (#[trigger] ships[i]).cell() == p && (ships[i].owner == id)
                == own;
        assert(more[i] == ships[i]);
    }
    if ship.cell() == p && (ship.owner == id) == own {
        assert(more[ships.len() as int] == ship);
    }
    if ship_at(more, id, own, p) {
        let i = choose|i: int|
            0 <= i < more.len() && (#[trigger] more[i]).cell() == p && (more[i].owner == id) == own;
        if i < ships.len() {
            assert(more[i] == ships[i]);
        }
    }
}

/// A dropoff lies on `p` after one more is listed exactly if one did before
/// or the new one does.
proof fn lemma_drop_at_push(drops: Seq<Dropoff>, drop: Dropoff, id: PID, p: Pos)
    ensures
        drop_at(drops.push(drop), id, p) == (drop_at(drops, id, p) || (drop.cell() == p
            && drop.owner == id)),
{
    let more = drops.push(drop);
    if drop_at(drops, id, p) {
        let i = choose|i: int|
            0 <= i < drops.len() && (#[trigger] drops[i]).cell() == p && drops[i].owner == id;
        assert(more[i] == drops[i]);
    }
    if drop.cell() == p && drop.owner == id {
        assert(more[drops.len() as int] == drop);
    }
    if drop_at(more, id, p) {
        let i = choose|i: int|
            0 <= i < more.len() && (#[trigger] more[i]).cell() == p && more[i].owner == id;
        if i < drops.len() {
            assert(more[i] == drops[i]);
        }
    }
}

} // verus!

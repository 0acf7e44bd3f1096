//! A turn of the fleet: what each unit is for, where it is sent, and the
//! orders that come of it.

use vstd::prelude::*;
use std::collections::HashSet;
use crate::assign::INFEASIBLE;
use crate::assign::hungarian_minimize;
use crate::assign::padded;
use crate::assign::padded_width;
use crate::assign::solve;
use crate::assign::spec_destinations;
use crate::command::Command;
use crate::constants::Constants;
use crate::data::Dist;
use crate::data::Halite;
use crate::data::ID;
use crate::data::Pos;
use crate::data::Ship;
use crate::data::State;
use crate::data::Time;
use crate::data::fleet;
use crate::data::lemma_fleet;
use crate::grid::Grid;
use crate::grid::drop_at;
use crate::grid::ship_at;
use crate::grid::ships_on_grid;
use crate::grid::index_cell;
use crate::grid::lemma_index_cell;
use crate::rank::distinct_ids;
use crate::rank::lemma_rank;
use crate::rank::lemma_rank_distinct;
use crate::rank::rank;
use crate::rank::spec_rank;
use crate::schedule::Schedule;
use crate::schedule::from_turn;
use crate::schedule::is_route;
use crate::schedule::lemma_claim_all;
use crate::schedule::slot_key;
use crate::schedule::without_unit;
use crate::tables::Roster;
use crate::tables::roster_contains;
use crate::tables::roster_insert;
use crate::tables::roster_remove;
use crate::torus::Dir;
use crate::torus::is_size;
use crate::torus::on_grid;
use crate::torus::torus_dist;
use crate::torus::torus_step;

verus! {

/// The load from which a unit turns back to the base.
pub const FULL: Halite = 950;

/// How many turns before the last a unit sets out for the base at the
/// latest, beyond those it needs to get there.
pub const MARGIN: i64 = 10;

/// The resource from which a cell is worth a visit.
pub const RICH: Halite = 100;

/// The resource below which a cell is no destination.
pub const POOR: Halite = 12;

/// What a cell that is neither rich nor poor costs more.
pub const MEAGRE_COST: Halite = 100_000;

/// How many turns of a way to a destination are left unplanned.
pub const APPROACH: Dist = 5;

/// What a unit is for in a turn.
#[derive(Copy, Clone, Debug, PartialEq, Eq, Structural)]
pub enum Role {
    /// To reach the base before the game ends, whoever stands there.
    Crash,
    /// To unload at the base.
    Return,
    /// To collect from the cell it is assigned.
    Gather,
}

/// What a unit is for in a turn, with what changes for it.
#[derive(Copy, Clone, Debug, PartialEq, Eq, Structural)]
pub struct Duty {
    /// What the unit is for.
    pub role: Role,
    /// Whether the unit gives up its route, to plan afresh.
    pub renew: bool,
    /// Whether the unit has arrived where it was returning to.
    pub landed: bool,
}

/// What a unit is for: with `home` steps to the base at turn `round` of
/// `max_turns`, it crashes home if it would otherwise be late; else it
/// returns if it is full; else, on the base, it has landed and gathers;
/// else it goes on crashing or returning if it was; else it gathers.
pub open spec fn spec_duty(
    halite: Halite,
    home: Dist,
    round: Time,
    max_turns: usize,
    at_yard: bool,
    returning: bool,
    crashing: bool,
) -> Duty {
    if home + round + MARGIN >= max_turns {
        Duty { role: Role::Crash, renew: true, landed: false }
    } else if halite >= FULL {
        Duty { role: Role::Return, renew: true, landed: false }
    } else if at_yard {
        Duty { role: Role::Gather, renew: false, landed: true }
    } else if crashing {
        Duty { role: Role::Crash, renew: false, landed: false }
    } else if returning {
        Duty { role: Role::Return, renew: false, landed: false }
    } else {
        Duty { role: Role::Gather, renew: false, landed: false }
    }
}

/// Decides what a unit is for.
pub fn duty_of(
    halite: Halite,
    home: Dist,
    round: Time,
    max_turns: usize,
    at_yard: bool,
    returning: bool,
    crashing: bool,
) -> (duty: Duty)
    ensures
        duty == spec_duty(halite, home, round, max_turns, at_yard, returning, crashing),
{
    let due: i64 = home as i64 + round as i64 + MARGIN;
    let late = due >= 0 && (max_turns as u64 <= i64::MAX as u64) && due >= max_turns as i64;
    if late {
        Duty { role: Role::Crash, renew: true, landed: false }
    } else if halite >= FULL {
        Duty { role: Role::Return, renew: true, landed: false }
    } else if at_yard {
        Duty { role: Role::Gather, renew: false, landed: true }
    } else if crashing {
        Duty { role: Role::Crash, renew: false, landed: false }
    } else if returning {
        Duty { role: Role::Return, renew: false, landed: false }
    } else {
        Duty { role: Role::Gather, renew: false, landed: false }
    }
}

/// What a cell costs a gathering unit as a destination: nothing can be
/// had from the base or from a poor cell; any other cell costs what it
/// lacks of the richest cell's resource, counted in two hundreds, plus
/// its distance to the base and to the unit, and more if it is not rich.
pub open spec fn spec_cell_cost(
    richest: Halite,
    halite: Halite,
    to_yard: Dist,
    to_ship: Dist,
    is_yard: bool,
) -> int {
    let lacking = if halite < richest {
        richest - halite
    } else {
        0
    };
    let base = lacking / 200 + to_yard + to_ship;
    if is_yard || halite < POOR {
        INFEASIBLE as int
    } else if halite >= RICH {
        base
    } else {
        base + MEAGRE_COST
    }
}

/// Computes what a cell costs a gathering unit as a destination.
pub fn cell_cost(richest: Halite, halite: Halite, to_yard: Dist, to_ship: Dist, is_yard: bool) -> (cost:
    Halite)
    ensures
        cost == spec_cell_cost(richest, halite, to_yard, to_ship, is_yard),
{
    if is_yard || halite < POOR {
        INFEASIBLE
    } else {
        let lacking: Halite = if halite < richest {
            richest - halite
        } else {
            0
        };
        let base: Halite = lacking / 200 + to_yard as Halite + to_ship as Halite;
        if halite >= RICH {
            base
        } else {
            base + MEAGRE_COST
        }
    }
}

/// How many turns a unit plans on a way of `dist` steps: all but the last
/// few, and at least one.
pub open spec fn spec_depth(dist: Dist) -> Time {
    if dist <= APPROACH {
        1
    } else {
        (dist - APPROACH) as Time
    }
}

/// Decides how many turns a unit plans on a way of `dist` steps.
pub fn depth_for(dist: Dist) -> (depth: Time)
    ensures
        depth == spec_depth(dist),
{
    if dist <= APPROACH {
        1
    } else {
        (dist - APPROACH) as Time
    }
}

/// The resource of all cells together.
pub open spec fn field_total(field: Seq<Halite>) -> int
    decreases field.len(),
{
    if field.len() == 0 {
        0
    } else {
        field_total(field.drop_last()) + field.last()
    }
}

/// The total of a field lies within as many times the range of one cell
/// as the field has cells.
pub proof fn lemma_field_total_bound(field: Seq<Halite>)
    ensures
        -field.len() * 0x8000_0000 <= field_total(field) <= field.len() * 0x8000_0000,
    decreases field.len(),
{
    if field.len() > 0 {
        lemma_field_total_bound(field.drop_last());
    }
}

/// Adds up the resource of all cells.
pub fn sum_field(field: &Vec<Halite>) -> (total: i64)
    requires
        field@.len() <= 0x7fff_ffff,
    ensures
        total == field_total(field@),
{
    let mut total: i64 = 0;
    let mut i: usize = 0;
    while i < field.len()
        invariant
            0 <= i <= field@.len() <= 0x7fff_ffff,
            total == field_total(field@.take(i as int)),
        decreases field@.len() - i,
    {
        proof {
            lemma_field_total_bound(field@.take(i as int));
            assert(field@.take(i as int + 1).drop_last() =~= field@.take(i as int));
            assert(field@.take(i as int + 1).last() == field@[i as int]);
        }
        total = total + field[i] as i64;
        i += 1;
    }
    assert(field@.take(i as int) =~= field@);
    total
}

/// Whether a new unit is spawned: the base is free for the next turn, the
/// field still holds more than half of `total`, the player can pay the
/// price, and the game is not past its middle.
pub open spec fn spec_should_spawn(
    free: bool,
    field: int,
    total: Halite,
    banked: Halite,
    price: usize,
    round: Time,
    max_turns: usize,
) -> bool {
    free && field * 2 > total && banked >= price && round <= max_turns / 2
}

/// Decides whether a new unit is spawned.
pub fn should_spawn(
    free: bool,
    field: i64,
    total: Halite,
    banked: Halite,
    price: usize,
    round: Time,
    max_turns: usize,
) -> (spawn: bool)
    requires
        -0x4000_0000_0000_0000 <= field <= 0x3fff_ffff_ffff_ffff,
    ensures
        spawn == spec_should_spawn(free, field as int, total, banked, price, round, max_turns),
{
    free && field * 2 > total as i64 && banked >= 0 && banked as u64 >= price as u64 && (round < 0
        || round as u64 <= (max_turns / 2) as u64)
}

/// Where a unit is sent, how far it plans, and whether it ends its way on
/// the target whoever stands there.
#[derive(Copy, Clone, Debug, PartialEq, Eq, Structural)]
pub struct Task {
    /// The cell the unit is sent to.
    pub target: Pos,
    /// How many turns it plans.
    pub depth: Time,
    /// Whether it ends its way on the target whoever stands there.
    pub crash: bool,
}

/// What the duties of a turn depend on besides the units: the size of the
/// grid, the base, the turn, and the number of turns of the game.
pub struct Setting {
    pub w: int,
    pub h: int,
    pub home: Pos,
    pub round: Time,
    pub max_turns: usize,
}

/// The units that are crashing home, and those that are returning.
pub struct Rosters {
    pub crashing: Set<ID>,
    pub returning: Set<ID>,
}

/// The duty of a unit, given who is crashing and who is returning.
pub open spec fn duty_in(s: Setting, ship: Ship, r: Rosters) -> Duty {
    spec_duty(
        ship.halite,
        torus_dist(s.w, s.h, ship.cell(), s.home) as Dist,
        s.round,
        s.max_turns,
        ship.cell() == s.home,
        r.returning.contains(ship.id),
        r.crashing.contains(ship.id),
    )
}

/// The rosters once a unit has its duty: a unit that sets out to crash or
/// to return is entered, and one that has landed is no longer returning.
pub open spec fn enter(r: Rosters, duty: Duty, id: ID) -> Rosters {
    let crashing = if duty.renew && duty.role == Role::Crash {
        r.crashing.insert(id)
    } else {
        r.crashing
    };
    let returning = if duty.renew && duty.role == Role::Return {
        r.returning.insert(id)
    } else {
        r.returning
    };
    Rosters {
        crashing,
        returning: if duty.landed {
            returning.remove(id)
        } else {
            returning
        },
    }
}

/// The rosters once the first `i` units, in the order of their rank, have
/// their duties.
pub open spec fn rosters_after(s: Setting, ranked: Seq<Ship>, r: Rosters, i: int) -> Rosters
    decreases i,
{
    if i <= 0 {
        r
    } else {
        let before = rosters_after(s, ranked, r, i - 1);
        enter(before, duty_in(s, ranked[i - 1], before), ranked[i - 1].id)
    }
}

/// The duty of the unit at place `i` of the ranked units.
pub open spec fn duty_at(s: Setting, ranked: Seq<Ship>, r: Rosters, i: int) -> Duty {
    duty_in(s, ranked[i], rosters_after(s, ranked, r, i))
}

/// The units, among the first `i`, that give up their routes to plan
/// afresh.
pub open spec fn renewed(s: Setting, ranked: Seq<Ship>, r: Rosters, i: int) -> Set<ID>
    decreases i,
{
    if i <= 0 {
        Set::empty()
    } else if duty_at(s, ranked, r, i - 1).renew {
        renewed(s, ranked, r, i - 1).insert(ranked[i - 1].id)
    } else {
        renewed(s, ranked, r, i - 1)
    }
}

/// The reservations that remain when the given units give up all of theirs.
pub open spec fn without_units(slots: Map<u64, ID>, units: Set<ID>) -> Map<u64, ID> {
    Map::new(|k: u64| slots.contains_key(k) && !units.contains(slots[k]), |k: u64| slots[k])
}

/// The number of gatherers among the first `i` roles.
pub open spec fn gather_rank(roles: Seq<Role>, i: int) -> int
    decreases i,
{
    if i <= 0 {
        0
    } else {
        gather_rank(roles, i - 1) + (if roles[i - 1] == Role::Gather {
            1int
        } else {
            0int
        })
    }
}

/// There are no more gatherers than units.
pub proof fn lemma_gather_rank(roles: Seq<Role>, i: int)
    requires
        0 <= i,
    ensures
        0 <= gather_rank(roles, i) <= i,
    decreases i,
{
    if i > 0 {
        lemma_gather_rank(roles, i - 1);
    }
}

/// What every cell of the field costs one gatherer, row by row.
pub open spec fn price_row(
    field: Seq<Halite>,
    w: int,
    h: int,
    home: Pos,
    richest: Halite,
    ship: Ship,
) -> Seq<Halite> {
    Seq::new(
        (w * h) as nat,
        |c: int|
            spec_cell_cost(
                richest,
                field[c],
                torus_dist(w, h, index_cell(w, c), home) as Dist,
                torus_dist(w, h, ship.cell(), index_cell(w, c)) as Dist,
                index_cell(w, c) == home,
            ) as Halite,
    )
}

/// What every cell costs each gatherer among the first `i` units: one row
/// of the field after the other, gatherer by gatherer.
pub open spec fn prices(
    field: Seq<Halite>,
    w: int,
    h: int,
    home: Pos,
    richest: Halite,
    ranked: Seq<Ship>,
    roles: Seq<Role>,
    i: int,
) -> Seq<Halite>
    decreases i,
{
    if i <= 0 {
        Seq::empty()
    } else if roles[i - 1] == Role::Gather {
        prices(field, w, h, home, richest, ranked, roles, i - 1) + price_row(
            field,
            w,
            h,
            home,
            richest,
            ranked[i - 1],
        )
    } else {
        prices(field, w, h, home, richest, ranked, roles, i - 1)
    }
}

/// The task of the unit at place `i`: to the base for a unit that crashes
/// or returns; for a gatherer to the cell it is assigned, planned for all
/// but the last steps of the way, or to stay where it is if it is
/// assigned none.
pub open spec fn task_at(
    w: int,
    h: int,
    home: Pos,
    ranked: Seq<Ship>,
    roles: Seq<Role>,
    dest: Seq<Option<usize>>,
    i: int,
) -> Task {
    match roles[i] {
        Role::Crash => Task { target: home, depth: Time::MAX, crash: true },
        Role::Return => Task { target: home, depth: Time::MAX, crash: false },
        Role::Gather => {
            let g = gather_rank(roles, i);
            if g < dest.len() && dest[g].is_some() && dest[g].unwrap() < w * h {
                let target = index_cell(w, dest[g].unwrap() as int);
                Task {
                    target,
                    depth: spec_depth(torus_dist(w, h, ranked[i].cell(), target) as Dist),
                    crash: false,
                }
            } else {
                Task { target: ranked[i].cell(), depth: 1, crash: false }
            }
        },
    }
}

/// Works out what every cell costs each gatherer.
pub fn price(grid: &Grid, ranked: &Vec<Ship>, roles: &Vec<Role>, richest: Halite) -> (costs: Vec<
    Halite,
>)
    requires
        grid.wf(),
        ships_on_grid(grid.width(), grid.height(), ranked@),
        roles@.len() == ranked@.len(),
    ensures
        costs@ == prices(
            grid.field(),
            grid.width(),
            grid.height(),
            grid.spawn(),
            richest,
            ranked@,
            roles@,
            ranked@.len() as int,
        ),
        costs@.len() == gather_rank(roles@, ranked@.len() as int) * (grid.width() * grid.height()),
{
    let ghost field = grid.field();
    let ghost w = grid.width();
    let ghost h = grid.height();
    let ghost home = grid.spawn();
    proof {
        grid.lemma_wf();
    }
    let mut costs: Vec<Halite> = Vec::new();
    let mut i: usize = 0;
    while i < ranked.len()
        invariant
            0 <= i <= ranked@.len(),
            roles@.len() == ranked@.len(),
            grid.wf(),
            field == grid.field(),
            w == grid.width(),
            h == grid.height(),
            home == grid.spawn(),
            is_size(w, h),
            field.len() == w * h,
            on_grid(w, h, home),
            ships_on_grid(w, h, ranked@),
            costs@ == prices(field, w, h, home, richest, ranked@, roles@, i as int),
            costs@.len() == gather_rank(roles@, i as int) * (w * h),
        decreases ranked@.len() - i,
    {
        let ship = ranked[i];
        assert(on_grid(w, h, ranked@[i as int].cell()));
        if roles[i] == Role::Gather {
            let from = ship.pos();
            let ghost so_far = costs@;
            let cost = |g: &Grid, pos: Pos, halite: Halite| -> (c: Halite)
                requires
                    g.wf(),
                    g.has(pos),
                    g.has(from),
                ensures
                    c == spec_cell_cost(
                        richest,
                        halite,
                        g.spec_dist(pos, g.spawn()) as Dist,
                        g.spec_dist(from, pos) as Dist,
                        pos == g.spawn(),
                    ),
                {
                    proof {
                        g.lemma_wf();
                    }
                    cell_cost(
                        richest,
                        halite,
                        g.dist_to_yard(pos),
                        g.dist(from, pos),
                        g.is_yard(pos),
                    )
                };
            grid.fill_cost(&mut costs, cost);
            proof {
                let row = price_row(field, w, h, home, richest, ship);
                assert(costs@.len() == so_far.len() + w * h);
                assert forall|c: int| 0 <= c < w * h implies costs@[so_far.len() + c] == row[c] by {
                    lemma_index_cell(w, h, c);
                }
                assert(costs@ =~= so_far + row) by {
                    assert forall|k: int| 0 <= k < costs@.len() implies costs@[k] == (so_far + row)[k] by {
                        if k < so_far.len() {
                            assert(costs@.take(so_far.len() as int)[k] == so_far[k]);
                        } else {
                            assert(costs@[so_far.len() + (k - so_far.len())] == row[k - so_far.len()]);
                        }
                    }
                }
                assert((gather_rank(roles@, i as int) + 1) * (w * h) == gather_rank(roles@, i as int)
                    * (w * h) + w * h) by (nonlinear_arith);
            }
        }
        i += 1;
    }
    costs
}

/// Gives every unit its task, from its role and, for a gatherer, the
/// destination it is assigned.
pub fn tasks_for(grid: &Grid, ranked: &Vec<Ship>, roles: &Vec<Role>, dest: &Vec<Option<usize>>) -> (tasks:
    Vec<Task>)
    requires
        grid.wf(),
        ships_on_grid(grid.width(), grid.height(), ranked@),
        roles@.len() == ranked@.len(),
    ensures
        tasks@.len() == ranked@.len(),
        forall|i: int|
            0 <= i < ranked@.len() ==> #[trigger] tasks@[i] == task_at(
                grid.width(),
                grid.height(),
                grid.spawn(),
                ranked@,
                roles@,
                dest@,
                i,
            ),
        forall|i: int| 0 <= i < ranked@.len() ==> grid.has((#[trigger] tasks@[i]).target),
{
    let ghost w = grid.width();
    let ghost h = grid.height();
    proof {
        grid.lemma_wf();
        assert(0 < w * h <= 127 * 127) by (nonlinear_arith)
            requires
                0 < w <= 127,
                0 < h <= 127,
        ;
    }
    let cells = grid.cells();
    let home = grid.yard();
    let mut tasks: Vec<Task> = Vec::new();
    let mut gatherer: usize = 0;
    let mut i: usize = 0;
    while i < ranked.len()
        invariant
            0 <= i <= ranked@.len(),
            roles@.len() == ranked@.len(),
            grid.wf(),
            w == grid.width(),
            h == grid.height(),
            home == grid.spawn(),
            on_grid(w, h, home),
            cells == w * h,
            ships_on_grid(w, h, ranked@),
            gatherer == gather_rank(roles@, i as int),
            tasks@.len() == i,
            forall|k: int|
                0 <= k < i ==> #[trigger] tasks@[k] == task_at(w, h, home, ranked@, roles@, dest@, k),
            forall|k: int| 0 <= k < i ==> on_grid(w, h, (#[trigger] tasks@[k]).target),
        decreases ranked@.len() - i,
    {
        let ship = ranked[i];
        assert(on_grid(w, h, ranked@[i as int].cell()));
        proof {
            lemma_gather_rank(roles@, i as int);
        }
        let task = match roles[i] {
            Role::Crash => Task { target: home, depth: Time::MAX, crash: true },
            Role::Return => Task { target: home, depth: Time::MAX, crash: false },
            Role::Gather => {
                let cell = if gatherer < dest.len() {
                    dest[gatherer]
                } else {
                    None
                };
                gatherer += 1;
                match cell {
                    Some(c) => if c < cells {
                        let target = grid.inv_idx(c);
                        Task { target, depth: depth_for(grid.dist(ship.pos(), target)), crash: false }
                    } else {
                        Task { target: ship.pos(), depth: 1, crash: false }
                    },
                    None => Task { target: ship.pos(), depth: 1, crash: false },
                }
            },
        };
        tasks.push(task);
        i += 1;
    }
    tasks
}

/// The cell that an order moves a unit to; an order that is no move leaves
/// the unit where it is.
pub open spec fn lands(w: int, h: int, ship: Ship, cmd: Command) -> Pos {
    match cmd {
        Command::Move(_, d) => torus_step(w, h, ship.cell(), d),
        _ => ship.cell(),
    }
}

/// Whether a unit's order is settled: the unit holds, for turn `next`, the
/// cell the order moves it to; or the unit is listed as unsettled.
pub open spec fn settled(
    s: Schedule,
    w: int,
    h: int,
    next: Time,
    ship: Ship,
    cmd: Command,
    unsettled: Seq<ID>,
) -> bool {
    s.holds(lands(w, h, ship, cmd), next, ship.id) || unsettled.contains(ship.id)
}

/// Of units whose orders are settled, no two that are not listed as
/// unsettled are moved to the same cell.
pub proof fn lemma_settled_apart(
    s: Schedule,
    w: int,
    h: int,
    next: Time,
    a: Ship,
    to_a: Command,
    b: Ship,
    to_b: Command,
    unsettled: Seq<ID>,
)
    requires
        a.id != b.id,
        settled(s, w, h, next, a, to_a, unsettled),
        settled(s, w, h, next, b, to_b, unsettled),
        !unsettled.contains(a.id),
        !unsettled.contains(b.id),
    ensures
        lands(w, h, a, to_a) != lands(w, h, b, to_b),
{
}

/// An order moves a unit on the grid to a cell of the grid.
pub proof fn lemma_lands_on_grid(w: int, h: int, ship: Ship, cmd: Command)
    requires
        is_size(w, h),
        on_grid(w, h, ship.cell()),
    ensures
        on_grid(w, h, lands(w, h, ship, cmd)),
{
    match cmd {
        Command::Move(_, d) => {
            crate::torus::lemma_step_near(w, h, ship.cell(), d);
        },
        _ => {},
    }
}

/// What one call of `Grid::navigate` makes of a view: the view `after` shows
/// the same grid, with the store as the call for the unit and its task
/// leaves it, and `r` is what the call returns.
pub open spec fn steers(before: Grid, after: Grid, ship: Ship, task: Task, r: (Option<ID>, Command)) -> bool {
    &&& after.wf()
    &&& after.same_view(before)
    &&& before.decided(after.schedule(), ship, task.target, task.depth, task.crash, r)
}

/// What `Grid::clear_route` makes of a view: the unit has lost its route
/// and its slots, and nothing else has changed.
pub open spec fn clears(before: Grid, after: Grid, unit: ID) -> bool {
    &&& after.wf()
    &&& after.same_view(before)
    &&& after.schedule().routes() == before.schedule().routes().remove(unit)
    &&& after.schedule().slots() == without_unit(before.schedule().slots(), unit)
}

/// Whether a unit is among the first `n` of the ranked units.
pub open spec fn served_before(ranked: Seq<Ship>, n: int, unit: ID) -> bool {
    exists|j: int| 0 <= j < n && (#[trigger] ranked[j]).id == unit
}

/// The place of a unit among the first `n` of the ranked units.
pub open spec fn place_of(ranked: Seq<Ship>, n: int, unit: ID) -> int {
    choose|j: int| 0 <= j < n && (#[trigger] ranked[j]).id == unit
}

/// What follows the move of the unit at place `i`, which left the view
/// `mid` and returned `ra`, up to the view `after`, the orders `c1` and the
/// unsettled units `u1`. The move is added to the orders. Where no unit
/// lost its cell, that is all. A unit that lost its cell and has been
/// served plans once more, from its own task, and its order is replaced;
/// a unit that loses its cell by that loses its route and its slots, and
/// is listed as unsettled if it has been served. A unit that lost its cell
/// and has not been served loses its route and its slots.
pub open spec fn settles(
    mid: Grid,
    after: Grid,
    ranked: Seq<Ship>,
    tasks: Seq<Task>,
    i: int,
    ra: (Option<ID>, Command),
    c0: Seq<Command>,
    c1: Seq<Command>,
    u0: Seq<ID>,
    u1: Seq<ID>,
) -> bool {
    match ra.0 {
        None => after == mid && c1 == c0.push(ra.1) && u1 == u0,
        Some(unit) => if served_before(ranked, i, unit) {
            let j = place_of(ranked, i, unit);
            exists|gb: Grid, rb: (Option<ID>, Command)|
                #[trigger] steers(mid, gb, ranked[j], tasks[j], rb) && c1 == c0.push(ra.1).update(
                    j,
                    rb.1,
                ) && (match rb.0 {
                    None => after == gb && u1 == u0,
                    Some(unit2) => clears(gb, after, unit2) && u1 == (if served_before(
                        ranked,
                        i + 1,
                        unit2,
                    ) {
                        u0.push(unit2)
                    } else {
                        u0
                    }),
                })
        } else {
            clears(mid, after, unit) && c1 == c0.push(ra.1) && u1 == u0
        },
    }
}

/// What serving the unit at place `i` makes of the view `before`, the
/// orders `c0` and the unsettled units `u0`: the unit is steered by its
/// task, and what follows is settled.
pub open spec fn serves(
    before: Grid,
    after: Grid,
    ranked: Seq<Ship>,
    tasks: Seq<Task>,
    i: int,
    c0: Seq<Command>,
    c1: Seq<Command>,
    u0: Seq<ID>,
    u1: Seq<ID>,
) -> bool {
    exists|mid: Grid, ra: (Option<ID>, Command)|
        #[trigger] steers(before, mid, ranked[i], tasks[i], ra) && settles(
            mid,
            after,
            ranked,
            tasks,
            i,
            ra,
            c0,
            c1,
            u0,
            u1,
        )
}

/// Whether the unit at place `i` is served from the `i`-th to the next of
/// the listed views, orders and unsettled units.
pub open spec fn link(
    gs: Seq<Grid>,
    cs: Seq<Seq<Command>>,
    us: Seq<Seq<ID>>,
    ranked: Seq<Ship>,
    tasks: Seq<Task>,
    i: int,
) -> bool {
    serves(gs[i], gs[i + 1], ranked, tasks, i, cs[i], cs[i + 1], us[i], us[i + 1])
}

/// Whether the listed views, orders and unsettled units are those before
/// and after each of the first `n` units is served, in order, from the
/// view `start` with no order and no unsettled unit.
pub open spec fn chain(
    start: Grid,
    ranked: Seq<Ship>,
    tasks: Seq<Task>,
    n: int,
    gs: Seq<Grid>,
    cs: Seq<Seq<Command>>,
    us: Seq<Seq<ID>>,
) -> bool {
    &&& gs.len() == n + 1
    &&& cs.len() == n + 1
    &&& us.len() == n + 1
    &&& gs[0] == start
    &&& cs[0] == Seq::<Command>::empty()
    &&& us[0] == Seq::<ID>::empty()
    &&& forall|i: int| 0 <= i < n ==> #[trigger] link(gs, cs, us, ranked, tasks, i)
}

/// What serving the first `n` units, one after the other, makes of the
/// view `start`: the view `end`, the orders and the unsettled units.
pub open spec fn served(
    start: Grid,
    ranked: Seq<Ship>,
    tasks: Seq<Task>,
    n: int,
    end: Grid,
    cmds: Seq<Command>,
    unsettled: Seq<ID>,
) -> bool {
    exists|gs: Seq<Grid>, cs: Seq<Seq<Command>>, us: Seq<Seq<ID>>|
        #[trigger] chain(start, ranked, tasks, n, gs, cs, us) && gs[n] == end && cs[n] == cmds
            && us[n] == unsettled
}

/// With no unit to serve, nothing changes: the view is as it was, and there
/// is no order and no unsettled unit.
pub proof fn lemma_served_none(
    start: Grid,
    ranked: Seq<Ship>,
    tasks: Seq<Task>,
    end: Grid,
    cmds: Seq<Command>,
    unsettled: Seq<ID>,
)
    requires
        served(start, ranked, tasks, 0, end, cmds, unsettled),
    ensures
        end == start,
        cmds == Seq::<Command>::empty(),
        unsettled == Seq::<ID>::empty(),
{
    let (gs, cs, us) = choose|gs: Seq<Grid>, cs: Seq<Seq<Command>>, us: Seq<Seq<ID>>|
        #[trigger] chain(start, ranked, tasks, 0, gs, cs, us) && gs[0] == end && cs[0] == cmds
            && us[0] == unsettled;
}

/// A unit that is steered is not moved onto a cell that another unit holds
/// for the next turn, unless it is to end on that cell whoever is there:
/// of two units bound for one cell, the one served first keeps it.
pub proof fn lemma_first_served_keeps(
    before: Grid,
    after: Grid,
    ship: Ship,
    task: Task,
    r: (Option<ID>, Command),
    c: Pos,
    other: ID,
)
    requires
        steers(before, after, ship, task, r),
        before.round() < Time::MAX,
        other != ship.id,
        before.schedule().holds(c, (before.round() + 1) as Time, other),
        !(task.crash && c == task.target),
        c != ship.cell(),
    ensures
        lands(before.width(), before.height(), ship, r.1) != c,
{
}

/// A unit that is steered while every cell round it is barred to it is
/// ordered to stay.
pub proof fn lemma_hemmed_stays(
    before: Grid,
    after: Grid,
    ship: Ship,
    task: Task,
    r: (Option<ID>, Command),
)
    requires
        steers(before, after, ship, task, r),
        forall|e: Dir|
            e != Dir::O ==> !before.passable(
                #[trigger] before.spec_step(ship.cell(), e),
                (before.round() + 1) as Time,
                ship.id,
                task.crash,
                task.target,
            ),
    ensures
        r.1 == Command::Move(ship.id as usize, Dir::O),
{
}

/// A unit that is steered leaves every route covered that was, but for
/// that of the unit that lost its cell to it: the routes of other units
/// keep their slots after this turn, but for slots on the base taken by a
/// unit that crashes there; and the unit's own route is followed with its
/// slots, or is new with all its slots claimed.
pub proof fn lemma_steer_covers(
    before: Grid,
    after: Grid,
    ship: Ship,
    task: Task,
    r: (Option<ID>, Command),
    except: Option<ID>,
)
    requires
        before.wf(),
        steers(before, after, ship, task, r),
        task.crash ==> task.target == before.spawn(),
        before.schedule().covered_but(before.round(), before.spawn(), except),
        except.is_none() || (except == Some(ship.id) && before.cached_step(ship).is_none()),
    ensures
        after.schedule().covered_but(before.round(), before.spawn(), r.0),
{
    before.lemma_wf();
    let s0 = before.schedule();
    let s1 = after.schedule();
    let round = before.round();
    let home = before.spawn();
    let id = ship.id;
    assert forall|u: ID| #[trigger] s1.has_route(u) && Some(u) != r.0 implies s1.covered(
        u,
        round,
        home,
    ) by {
        if u == id {
            let way = s1.route(id);
            match before.cached_step(ship) {
                Some(to) => {
                    let old_way = s0.route(id);
                    assert(s0.has_route(id));
                    assert(s0.covered(id, round, home));
                    assert(is_route(s0.width(), s0.height(), s0.routes()[id]));
                    assert forall|i: int|
                        0 <= i < way.len() && (#[trigger] way[i]).1 > round implies s1.holds(
                        way[i].0,
                        way[i].1,
                        id,
                    ) || way[i].0 == home by {
                        assert(way[i] == old_way[i + 1]);
                        if slot_key(ship.cell(), round) == slot_key(way[i].0, way[i].1) {
                            crate::schedule::lemma_slot_key_injective(
                                ship.cell(),
                                round,
                                way[i].0,
                                way[i].1,
                            );
                        }
                    }
                },
                None => {
                    lemma_claim_all(without_unit(s0.slots(), id), way, id);
                },
            }
        } else {
            assert(s1.routes().remove(id).contains_key(u));
            assert(s0.routes().remove(id).contains_key(u));
            assert(s0.has_route(u));
            assert(s1.routes().remove(id)[u] == s0.routes().remove(id)[u]);
            assert(s1.route(u) == s0.route(u));
            assert(s0.covered(u, round, home));
            assert(is_route(s0.width(), s0.height(), s0.routes()[u]));
            let way = s1.route(u);
            assert forall|i: int|
                0 <= i < way.len() && (#[trigger] way[i]).1 > round implies s1.holds(
                way[i].0,
                way[i].1,
                u,
            ) || way[i].0 == home by {
                if s0.holds(way[i].0, way[i].1, u) {
                    assert(before.has(way[i].0));
                }
            }
        }
    }
}

/// After a unit is steered, a stored route of its own begins at the next
/// turn, and every other route is as it was.
pub proof fn lemma_route_kept(
    before: Grid,
    after: Grid,
    ship: Ship,
    task: Task,
    r: (Option<ID>, Command),
    unit: ID,
)
    requires
        before.round() < Time::MAX,
        steers(before, after, ship, task, r),
        after.schedule().has_route(unit),
        unit == ship.id || (before.schedule().has_route(unit) ==> before.schedule().route(unit)[0].1
            == before.round() + 1),
    ensures
        after.schedule().route(unit)[0].1 == before.round() + 1,
{
    let s0 = before.schedule();
    let s1 = after.schedule();
    if unit != ship.id {
        assert(s1.routes().remove(ship.id).contains_key(unit));
        assert(s0.routes().remove(ship.id).contains_key(unit));
        assert(s1.routes().remove(ship.id)[unit] == s0.routes().remove(ship.id)[unit]);
        assert(s0.has_route(unit));
        assert(s1.routes()[unit] == s0.routes()[unit]);
        assert(s1.route(unit) == s0.route(unit));
    }
}

/// A unit that loses its route and its slots leaves every other route
/// covered that was.
pub proof fn lemma_clear_covers(before: Grid, after: Grid, unit: ID, round: Time, home: Pos)
    requires
        clears(before, after, unit),
        before.schedule().covered_but(round, home, Some(unit)),
    ensures
        after.schedule().covered_but(round, home, None),
{
    let s0 = before.schedule();
    let s1 = after.schedule();
    assert forall|u: ID| #[trigger] s1.has_route(u) implies s1.covered(u, round, home) by {
        assert(s0.has_route(u) && u != unit);
        assert(s1.route(u) == s0.route(u));
        assert(s0.covered(u, round, home));
    }
}

/// The place of a unit among the first `n` of a list, by its identifier.
fn find_unit(ranked: &Vec<Ship>, n: usize, unit: ID) -> (at: Option<usize>)
    requires
        n <= ranked@.len(),
    ensures
        match at {
            Some(j) => j < n && ranked@[j as int].id == unit,
            None => forall|k: int| 0 <= k < n ==> (#[trigger] ranked@[k]).id != unit,
        },
{
    let mut j: usize = 0;
    while j < n
        invariant
            0 <= j <= n <= ranked@.len(),
            forall|k: int| 0 <= k < j ==> (#[trigger] ranked@[k]).id != unit,
        decreases n - j,
    {
        if ranked[j].id == unit {
            return Some(j);
        }
        j += 1;
    }
    None
}

/// Sends every unit on its way, in the order of rank, and gathers the
/// moves. A unit that has moved and then loses the cell it moves to
/// plans once more, and its move is replaced. A unit that loses its cell
/// to a unit that plans once more is listed as unsettled: its move
/// stands, though another unit moves to the same cell. Every unit that
/// loses a cell without planning once more loses its route, to plan
/// afresh when it is next served.
#[verifier::rlimit(40)]
pub fn dispatch(grid: &mut Grid, ranked: &Vec<Ship>, tasks: &Vec<Task>) -> (r: (
    Vec<Command>,
    Vec<ID>,
))
    requires
        old(grid).wf(),
        old(grid).round() < Time::MAX,
        ships_on_grid(old(grid).width(), old(grid).height(), ranked@),
        distinct_ids(ranked@),
        tasks@.len() == ranked@.len(),
        forall|i: int| 0 <= i < tasks@.len() ==> old(grid).has((#[trigger] tasks@[i]).target),
    ensures
        final(grid).wf(),
        final(grid).same_view(*old(grid)),
        r.0@.len() == ranked@.len(),
        forall|i: int|
            0 <= i < ranked@.len() ==> (#[trigger] r.0@[i] matches Command::Move(id, _) && id
                == ranked@[i].id),
        forall|i: int|
            0 <= i < ranked@.len() ==> settled(
                final(grid).schedule(),
                old(grid).width(),
                old(grid).height(),
                (old(grid).round() + 1) as Time,
                #[trigger] ranked@[i],
                r.0@[i],
                r.1@,
            ),
        served(*old(grid), ranked@, tasks@, ranked@.len() as int, *final(grid), r.0@, r.1@),
        (forall|j: int| 0 <= j < tasks@.len() && (#[trigger] tasks@[j]).crash ==> tasks@[j].target
            == old(grid).spawn()) && old(grid).schedule().covered_but(
            old(grid).round(),
            old(grid).spawn(),
            None,
        ) ==> final(grid).schedule().covered_but(old(grid).round(), old(grid).spawn(), None),
{
    let ghost first = *grid;
    let ghost w = grid.width();
    let ghost h = grid.height();
    let ghost next = (grid.round() + 1) as Time;
    let ghost round = grid.round();
    let ghost home = grid.spawn();
    let ghost keeps = (forall|j: int|
        0 <= j < tasks@.len() && (#[trigger] tasks@[j]).crash ==> tasks@[j].target == home)
        && grid.schedule().covered_but(round, home, None);
    let n = ranked.len();
    let mut cmds: Vec<Command> = Vec::new();
    let mut unsettled: Vec<ID> = Vec::new();
    let mut i: usize = 0;
    let ghost mut gs: Seq<Grid> = seq![first];
    let ghost mut cs: Seq<Seq<Command>> = seq![Seq::<Command>::empty()];
    let ghost mut us: Seq<Seq<ID>> = seq![Seq::<ID>::empty()];
    proof {
        first.lemma_same_view_refl();
        grid.lemma_wf();
        assert(cmds@ =~= Seq::<Command>::empty());
        assert(unsettled@ =~= Seq::<ID>::empty());
    }
    while i < n
        invariant
            0 <= i <= n,
            n == ranked@.len(),
            n == tasks@.len(),
            is_size(w, h),
            ships_on_grid(w, h, ranked@),
            distinct_ids(ranked@),
            forall|k: int| 0 <= k < n ==> on_grid(w, h, (#[trigger] tasks@[k]).target),
            grid.wf(),
            grid.same_view(first),
            grid.width() == w,
            grid.height() == h,
            grid.round() < Time::MAX,
            next == grid.round() + 1,
            round == grid.round(),
            home == grid.spawn(),
            keeps ==> forall|j: int|
                0 <= j < tasks@.len() && (#[trigger] tasks@[j]).crash ==> tasks@[j].target == home,
            keeps ==> grid.schedule().covered_but(round, home, None),
            chain(first, ranked@, tasks@, i as int, gs, cs, us),
            gs[i as int] == *grid,
            cs[i as int] == cmds@,
            us[i as int] == unsettled@,
            forall|k: int|
                0 <= k < i && grid.schedule().has_route((#[trigger] ranked@[k]).id)
                    ==> grid.schedule().route(ranked@[k].id)[0].1 == next,
            cmds@.len() == i,
            forall|k: int|
                0 <= k < i ==> (#[trigger] cmds@[k] matches Command::Move(id, _) && id
                    == ranked@[k].id),
            forall|k: int|
                0 <= k < i ==> settled(
                    grid.schedule(),
                    w,
                    h,
                    next,
                    #[trigger] ranked@[k],
                    cmds@[k],
                    unsettled@,
                ),
        decreases n - i,
    {
        let ship = ranked[i];
        let task = tasks[i];
        assert(on_grid(w, h, ranked@[i as int].cell()));
        assert(on_grid(w, h, tasks@[i as int].target));
        let ghost prev = *grid;
        let ghost start_grid = *grid;
        let ghost start_cmds = cmds@;
        let ghost start_unsettled = unsettled@;
        let ghost old_cmds = cmds@;
        let (displaced, cmd) = grid.navigate(&ship, task.target, task.depth, task.crash);
        cmds.push(cmd);
        let ghost mid = *grid;
        let ghost ra = (displaced, cmd);
        proof {
            grid.lemma_same_view(prev);
            grid.lemma_same_view_trans(prev, first);
            grid.lemma_wf();
            assert(steers(prev, mid, ship, task, ra));
            if keeps {
                lemma_steer_covers(prev, mid, ship, task, ra, None);
            }
            assert forall|k: int|
                0 <= k < i + 1 && mid.schedule().has_route((#[trigger] ranked@[k]).id)
                    implies mid.schedule().route(ranked@[k].id)[0].1 == next by {
                lemma_route_kept(prev, mid, ship, task, ra, ranked@[k].id);
            }
            let here = lands(w, h, ship, cmd);
            assert forall|k: int| 0 <= k < i && Some(ranked@[k].id) != displaced implies settled(
                grid.schedule(),
                w,
                h,
                next,
                #[trigger] ranked@[k],
                cmds@[k],
                unsettled@,
            ) by {
                assert(cmds@[k] == old_cmds[k]);
                assert(settled(prev.schedule(), w, h, next, ranked@[k], old_cmds[k], unsettled@));
                let there = lands(w, h, ranked@[k], cmds@[k]);
                assert(on_grid(w, h, ranked@[k].cell()));
                lemma_lands_on_grid(w, h, ranked@[k], cmds@[k]);
                assert(ranked@[k].id != ship.id);
                if !unsettled@.contains(ranked@[k].id) {
                    assert(prev.schedule().holds(there, next, ranked@[k].id));
                    if there != here {
                        assert(grid.schedule().holder(there, next) == prev.schedule().holder(
                            there,
                            next,
                        ) || prev.schedule().holder(there, next) == Some(ship.id));
                    }
                }
            }
            assert(settled(grid.schedule(), w, h, next, ranked@[i as int], cmds@[i as int], unsettled@));
        }
        if let Some(unit) = displaced {
            match find_unit(ranked, i, unit) {
                Some(j) => {
                    let other = ranked[j];
                    let again = tasks[j];
                    assert(on_grid(w, h, ranked@[j as int].cell()));
                    assert(on_grid(w, h, tasks@[j as int].target));
                    let ghost prev = *grid;
                    let ghost old_cmds = cmds@;
                    let ghost old_unsettled = unsettled@;
                    proof {
                        assert(served_before(ranked@, i as int, unit));
                        let p = place_of(ranked@, i as int, unit);
                        assert(p == j) by {
                            if p < j {
                                assert(ranked@[p].id != ranked@[j as int].id);
                            } else if j < p {
                                assert(ranked@[j as int].id != ranked@[p].id);
                            }
                        }
                        assert(prev.cached_step(other).is_none()) by {
                            if prev.schedule().has_route(other.id) {
                                assert(prev.schedule().route(ranked@[j as int].id)[0].1 == next);
                            }
                        }
                    }
                    let (second, cmd2) = grid.navigate(&other, again.target, again.depth, again.crash);
                    cmds.set(j, cmd2);
                    let ghost mid = *grid;
                    let ghost rb = (second, cmd2);
                    proof {
                        assert(steers(prev, mid, other, again, rb));
                        if keeps {
                            lemma_steer_covers(prev, mid, other, again, rb, Some(unit));
                        }
                        assert forall|k: int|
                            0 <= k < i + 1 && mid.schedule().has_route((#[trigger] ranked@[k]).id)
                                implies mid.schedule().route(ranked@[k].id)[0].1 == next by {
                            lemma_route_kept(prev, mid, other, again, rb, ranked@[k].id);
                        }
                    }
                    if let Some(unit2) = second {
                        grid.clear_route(unit2);
                        proof {
                            assert(clears(mid, *grid, unit2));
                            if keeps {
                                lemma_clear_covers(mid, *grid, unit2, round, home);
                            }
                        }
                        if find_unit(ranked, i + 1, unit2).is_some() {
                            unsettled.push(unit2);
                            proof {
                                assert(unsettled@[unsettled@.len() - 1] == unit2);
                                assert forall|x: ID| old_unsettled.contains(x) implies unsettled@.contains(
                                    x,
                                ) by {
                                    let q = choose|q: int|
                                        0 <= q < old_unsettled.len() && old_unsettled[q] == x;
                                    assert(unsettled@[q] == x);
                                }
                            }
                        }
                    }
                    proof {
                        assert(cmds@ =~= old_cmds.update(j as int, cmd2));
                        assert(unsettled@ =~= (if second.is_some() && served_before(
                            ranked@,
                            i + 1,
                            second.unwrap(),
                        ) {
                            old_unsettled.push(second.unwrap())
                        } else {
                            old_unsettled
                        }));
                        mid.lemma_same_view(prev);
                        mid.lemma_same_view_refl();
                        grid.lemma_same_view(mid);
                        grid.lemma_same_view_trans(mid, prev);
                        grid.lemma_same_view_trans(prev, first);
                        grid.lemma_wf();
                        let here = lands(w, h, other, cmd2);
                        assert forall|k: int| 0 <= k < i + 1 implies settled(
                            grid.schedule(),
                            w,
                            h,
                            next,
                            #[trigger] ranked@[k],
                            cmds@[k],
                            unsettled@,
                        ) by {
                            let there = lands(w, h, ranked@[k], cmds@[k]);
                            assert(on_grid(w, h, ranked@[k].cell()));
                            lemma_lands_on_grid(w, h, ranked@[k], cmds@[k]);
                            if k != j {
                                assert(cmds@[k] == old_cmds[k]);
                                assert(ranked@[k].id != other.id);
                                assert(Some(ranked@[k].id) != displaced);
                                assert(settled(
                                    prev.schedule(),
                                    w,
                                    h,
                                    next,
                                    ranked@[k],
                                    old_cmds[k],
                                    old_unsettled,
                                ));
                                if old_unsettled.contains(ranked@[k].id) {
                                    assert(unsettled@.contains(ranked@[k].id));
                                } else if Some(ranked@[k].id) == second {
                                    assert(unsettled@.contains(ranked@[k].id));
                                } else {
                                    assert(prev.schedule().holds(there, next, ranked@[k].id));
                                    assert(mid.schedule().holds(there, next, ranked@[k].id));
                                }
                            } else {
                                assert(mid.schedule().holds(here, next, other.id));
                            }
                        }
                    }
                },
                None => {
                    let ghost prev = *grid;
                    grid.clear_route(unit);
                    proof {
                        grid.lemma_same_view(prev);
                        grid.lemma_same_view_trans(prev, first);
                        grid.lemma_wf();
                        assert(!served_before(ranked@, i as int, unit));
                        assert(clears(prev, *grid, unit));
                        if keeps {
                            lemma_clear_covers(prev, *grid, unit, round, home);
                        }
                    }
                },
            }
        }
        proof {
            assert(settles(
                mid,
                *grid,
                ranked@,
                tasks@,
                i as int,
                ra,
                start_cmds,
                cmds@,
                start_unsettled,
                unsettled@,
            ));
            assert(serves(
                start_grid,
                *grid,
                ranked@,
                tasks@,
                i as int,
                start_cmds,
                cmds@,
                start_unsettled,
                unsettled@,
            ));
            let (gs0, cs0, us0) = (gs, cs, us);
            gs = gs0.push(*grid);
            cs = cs0.push(cmds@);
            us = us0.push(unsettled@);
            assert forall|k: int| 0 <= k < i + 1 implies #[trigger] link(
                gs,
                cs,
                us,
                ranked@,
                tasks@,
                k,
            ) by {
                if k < i {
                    assert(link(gs0, cs0, us0, ranked@, tasks@, k));
                    assert(gs[k] == gs0[k] && gs[k + 1] == gs0[k + 1]);
                    assert(cs[k] == cs0[k] && cs[k + 1] == cs0[k + 1]);
                    assert(us[k] == us0[k] && us[k + 1] == us0[k + 1]);
                }
            }
        }
        i += 1;
    }
    proof {
        assert(chain(first, ranked@, tasks@, n as int, gs, cs, us));
    }
    (cmds, unsettled)
}

/// Whether a view shows a snapshot: its grid, its turn, its field, the
/// player's base, and who stands where.
pub open spec fn shows(g: Grid, state: State) -> bool {
    &&& g.wf()
    &&& g.width() == state.width
    &&& g.height() == state.height
    &&& g.round() == state.round
    &&& g.field() == state.halite@
    &&& g.spawn() == state.yards@[state.id as int].cell()
    &&& forall|p: Pos| #[trigger] g.has(p) ==> g.ally(p) == ship_at(state.ships@, state.id, true, p)
    &&& forall|p: Pos| #[trigger]
        g.has(p) ==> g.enemy(p) == ship_at(state.ships@, state.id, false, p)
    &&& forall|p: Pos| #[trigger]
        g.has(p) ==> g.harbor(p) == (p == g.spawn() || drop_at(state.drops@, state.id, p))
}

/// The resource of the richest cell as the cost of a cell reads it.
pub open spec fn richest_of(constants: Constants) -> Halite {
    if constants.MAX_CELL_PRODUCTION > 0x7fff_ffff {
        Halite::MAX
    } else {
        constants.MAX_CELL_PRODUCTION as Halite
    }
}

/// The roles of the ranked units.
pub open spec fn roles_of(s: Setting, ranked: Seq<Ship>, r: Rosters) -> Seq<Role> {
    Seq::new(ranked.len(), |i: int| duty_at(s, ranked, r, i).role)
}

/// The destinations of the gatherers: those of the assignment of least
/// total cost that `hungarian::minimize` gives for what the cells cost
/// them; none where the gatherers are more than identifiers can tell
/// apart.
pub open spec fn dest_of(
    s: Setting,
    field: Seq<Halite>,
    richest: Halite,
    ranked: Seq<Ship>,
    roles: Seq<Role>,
) -> Seq<Option<usize>> {
    let cells = s.w * s.h;
    let costs = prices(field, s.w, s.h, s.home, richest, ranked, roles, ranked.len() as int);
    let g = gather_rank(roles, ranked.len() as int);
    if g > 0xffff {
        Seq::empty()
    } else {
        spec_destinations(
            hungarian_minimize(padded(costs, g, cells), g as usize, padded_width(g, cells) as usize),
            costs,
            g,
            cells,
        )
    }
}

/// The tasks of the ranked units for a turn.
pub open spec fn tasks_of(
    s: Setting,
    field: Seq<Halite>,
    richest: Halite,
    ranked: Seq<Ship>,
    r: Rosters,
) -> Seq<Task> {
    let roles = roles_of(s, ranked, r);
    let dest = dest_of(s, field, richest, ranked, roles);
    Seq::new(ranked.len(), |i: int| task_at(s.w, s.h, s.home, ranked, roles, dest, i))
}

/// The reservations that a turn's planning starts from: those of the store
/// for this turn and later, without those of the units that plan afresh;
/// none if the store is not kept.
pub open spec fn opening_slots(old: Schedule, kept: bool, s: Setting, gone: Set<ID>) -> Map<u64, ID> {
    if kept {
        without_units(from_turn(old.slots(), s.round), gone)
    } else {
        Map::empty()
    }
}

/// The routes that a turn's planning starts from: those of the store,
/// without those of the units that plan afresh; none if the store is not
/// kept.
pub open spec fn opening_routes(old: Schedule, kept: bool, s: Setting, gone: Set<ID>) -> Map<
    ID,
    Seq<(Pos, Time)>,
> {
    if kept {
        old.routes().remove_keys(gone)
    } else {
        Map::empty()
    }
}

/// A store whose routes are covered after a turn has them covered after
/// every later turn.
pub proof fn lemma_later_covers(s: Schedule, before: Time, round: Time, home: Pos)
    requires
        before <= round,
        s.covered_but(before, home, None),
    ensures
        s.covered_but(round, home, None),
{
    assert forall|u: ID| #[trigger] s.has_route(u) implies s.covered(u, round, home) by {
        assert(s.covered(u, before, home));
    }
}

/// Dropping the reservations of past turns leaves every route covered
/// that was.
pub proof fn lemma_past_covers(s0: Schedule, s1: Schedule, round: Time, home: Pos)
    requires
        s0.wf(),
        s1.slots() == from_turn(s0.slots(), round),
        s1.routes() == s0.routes(),
        s0.covered_but(round, home, None),
    ensures
        s1.covered_but(round, home, None),
{
    assert forall|u: ID| #[trigger] s1.has_route(u) implies s1.covered(u, round, home) by {
        assert(s0.has_route(u));
        assert(s0.covered(u, round, home));
        assert(is_route(s0.width(), s0.height(), s0.routes()[u]));
        let way = s1.route(u);
        assert forall|i: int|
            0 <= i < way.len() && (#[trigger] way[i]).1 > round implies s1.holds(
            way[i].0,
            way[i].1,
            u,
        ) || way[i].0 == home by {
            assert(way[i] == s0.routes()[u][i]);
            assert(on_grid(s0.width(), s0.height(), s0.routes()[u][i].0));
            crate::schedule::lemma_key_turn(way[i].0, way[i].1);
            assert(s0.route(u)[i] == way[i]);
        }
    }
}

/// Units that give up their routes and slots leave every other route
/// covered that was.
pub proof fn lemma_renewal_covers(s0: Schedule, s1: Schedule, gone: Set<ID>, round: Time, home: Pos)
    requires
        s1.slots() == without_units(s0.slots(), gone),
        s1.routes() == s0.routes().remove_keys(gone),
        s0.covered_but(round, home, None),
    ensures
        s1.covered_but(round, home, None),
{
    assert forall|u: ID| #[trigger] s1.has_route(u) implies s1.covered(u, round, home) by {
        assert(s0.has_route(u) && !gone.contains(u));
        assert(s1.route(u) == s0.route(u));
        assert(s0.covered(u, round, home));
    }
}

/// The planner of a fleet: what lasts from turn to turn.
#[derive(Debug)]
pub struct Executor {
    total: Halite,
    crashing: Roster<ID>,
    returning: Roster<ID>,
    schedule: Schedule,
    unsettled: Vec<ID>,
    home: Pos,
    round: Time,
}

impl Executor {
    /// The store of reservations and routes.
    pub closed spec fn schedule(&self) -> Schedule {
        self.schedule
    }

    /// The resource that the field held at the start of the game.
    pub closed spec fn total(&self) -> Halite {
        self.total
    }

    /// The units that are crashing home, and those that are returning.
    pub closed spec fn rosters(&self) -> Rosters {
        Rosters { crashing: self.crashing@, returning: self.returning@ }
    }

    /// The units whose moves of the last turn planned were left unsettled.
    pub closed spec fn unsettled(&self) -> Seq<ID> {
        self.unsettled@
    }

    /// The base of the last turn planned.
    pub closed spec fn home(&self) -> Pos {
        self.home
    }

    /// The last turn planned.
    pub closed spec fn round(&self) -> Time {
        self.round
    }

    /// Whether the store is kept for a turn: it was made for a grid of
    /// this size and this base, and the turn is not before the last one
    /// planned. Else the turn starts from an empty store.
    pub open spec fn keeps_store(&self, s: Setting) -> bool {
        &&& self.schedule().width() == s.w
        &&& self.schedule().height() == s.h
        &&& self.home() == s.home
        &&& self.round() <= s.round
    }

    /// The store is well-formed, and every unit holds the slots of its
    /// route after the last turn planned, but for those on the base, where
    /// units that crash home take each other's.
    pub open spec fn wf(&self) -> bool {
        &&& self.schedule().wf()
        &&& self.schedule().covered_but(self.round(), self.home(), None)
    }

    /// The units whose moves of the last turn planned were left unsettled:
    /// each lost the cell it moves to after it had moved, to a unit that
    /// had no other cell to go to. The caller may order them to stay.
    pub fn at_risk(&self) -> (units: &Vec<ID>)
        ensures
            units@ == self.unsettled(),
    {
        &self.unsettled
    }

    /// A planner for a game whose field holds `total` at the start: no
    /// unit has a role, a route or a slot yet.
    pub fn new(total: Halite) -> (e: Executor)
        ensures
            e.wf(),
            e.total() == total,
            e.rosters().crashing == Set::<ID>::empty(),
            e.rosters().returning == Set::<ID>::empty(),
            e.schedule().slots() == Map::<u64, ID>::empty(),
            e.schedule().routes() == Map::<ID, Seq<(Pos, Time)>>::empty(),
            e.unsettled() == Seq::<ID>::empty(),
    {
        Executor {
            total,
            crashing: HashSet::default(),
            returning: HashSet::default(),
            schedule: Schedule::new(1, 1),
            unsettled: Vec::new(),
            home: Pos(0, 0),
            round: 0,
        }
    }

    /// Gives every unit its duty, in the order of rank, and keeps the
    /// rosters: a unit that sets out to crash or to return is entered and
    /// gives up its route and its slots, and a unit that has landed is no
    /// longer returning.
    pub fn enlist(&mut self, grid: &mut Grid, ranked: &Vec<Ship>, max_turns: usize) -> (roles: Vec<
        Role,
    >)
        requires
            old(grid).wf(),
            ships_on_grid(old(grid).width(), old(grid).height(), ranked@),
        ensures
            final(grid).wf(),
            final(grid).same_view(*old(grid)),
            final(self).total() == old(self).total(),
            final(self).schedule() == old(self).schedule(),
            final(self).home() == old(self).home(),
            final(self).round() == old(self).round(),
            roles@.len() == ranked@.len(),
            ({
                let s = Setting {
                    w: old(grid).width(),
                    h: old(grid).height(),
                    home: old(grid).spawn(),
                    round: old(grid).round(),
                    max_turns,
                };
                let n = ranked@.len() as int;
                let gone = renewed(s, ranked@, old(self).rosters(), n);
                &&& forall|i: int|
                    0 <= i < n ==> #[trigger] roles@[i] == duty_at(
                        s,
                        ranked@,
                        old(self).rosters(),
                        i,
                    ).role
                &&& final(self).rosters() == rosters_after(s, ranked@, old(self).rosters(), n)
                &&& final(grid).schedule().slots() == without_units(
                    old(grid).schedule().slots(),
                    gone,
                )
                &&& final(grid).schedule().routes() == old(grid).schedule().routes().remove_keys(
                    gone,
                )
            }),
    {
        broadcast use vstd::std_specs::hash::group_hash_axioms;

        let ghost first = *grid;
        let ghost start = self.rosters();
        let ghost s = Setting {
            w: grid.width(),
            h: grid.height(),
            home: grid.spawn(),
            round: grid.round(),
            max_turns,
        };
        proof {
            grid.lemma_wf();
            first.lemma_same_view_refl();
            assert(grid.schedule().slots() =~= without_units(first.schedule().slots(), Set::empty()));
            assert(grid.schedule().routes() =~= first.schedule().routes().remove_keys(Set::empty()));
        }
        let home = grid.yard();
        let round = grid.turn();
        let mut roles: Vec<Role> = Vec::new();
        let mut i: usize = 0;
        while i < ranked.len()
            invariant
                0 <= i <= ranked@.len(),
                ships_on_grid(s.w, s.h, ranked@),
                grid.wf(),
                grid.same_view(first),
                grid.width() == s.w,
                grid.height() == s.h,
                grid.spawn() == s.home,
                grid.round() == s.round,
                home == s.home,
                round == s.round,
                max_turns == s.max_turns,
                self.total() == old(self).total(),
                self.schedule() == old(self).schedule(),
                self.home() == old(self).home(),
                self.round() == old(self).round(),
                roles@.len() == i,
                forall|k: int|
                    0 <= k < i ==> #[trigger] roles@[k] == duty_at(s, ranked@, start, k).role,
                self.rosters() == rosters_after(s, ranked@, start, i as int),
                grid.schedule().slots() == without_units(
                    first.schedule().slots(),
                    renewed(s, ranked@, start, i as int),
                ),
                grid.schedule().routes() == first.schedule().routes().remove_keys(
                    renewed(s, ranked@, start, i as int),
                ),
            decreases ranked@.len() - i,
        {
            let ship = ranked[i];
            assert(on_grid(s.w, s.h, ranked@[i as int].cell()));
            let at_yard = ship.pos() == home;
            let duty = duty_of(
                ship.halite,
                grid.dist_from_yard(&ship),
                round,
                max_turns,
                at_yard,
                roster_contains(&self.returning, &ship.id),
                roster_contains(&self.crashing, &ship.id),
            );
            assert(duty == duty_at(s, ranked@, start, i as int));
            let ghost gone = renewed(s, ranked@, start, i as int);
            if duty.renew {
                let ghost prev = *grid;
                grid.clear_route(ship.id);
                proof {
                    grid.lemma_same_view(prev);
                    grid.lemma_same_view_trans(prev, first);
                    assert(grid.schedule().slots() =~= without_units(
                        first.schedule().slots(),
                        gone.insert(ship.id),
                    ));
                    assert(grid.schedule().routes() =~= first.schedule().routes().remove_keys(
                        gone.insert(ship.id),
                    ));
                }
                match duty.role {
                    Role::Crash => {
                        let _ = roster_insert(&mut self.crashing, ship.id);
                    },
                    Role::Return => {
                        let _ = roster_insert(&mut self.returning, ship.id);
                    },
                    Role::Gather => {},
                }
            }
            if duty.landed {
                let _ = roster_remove(&mut self.returning, &ship.id);
            }
            roles.push(duty.role);
            i += 1;
        }
        roles
    }

    /// Plans a turn. The player's units are served in the order of their
    /// rank. Each gets its duty; the gatherers are assigned destinations
    /// of least total cost; every unit is sent on its way and answers
    /// with one move. Afterwards every unit holds, for the next turn, the
    /// cell its move leads to, but for those listed as unsettled. At the
    /// end comes the order to spawn, if a unit is to be spawned: none is
    /// while the base is held for the next turn.
    #[verifier::rlimit(40)]
    pub fn execute(&mut self, constants: &Constants, state: &State) -> (cmds: Vec<Command>)
        requires
            old(self).wf(),
            state.valid(),
        ensures
            final(self).wf(),
            final(self).total() == old(self).total(),
            ({
                let ranked = spec_rank(fleet(state.ships@, state.id, true));
                let n = ranked.len() as int;
                let yard = state.yards@[state.id as int].cell();
                let s = Setting {
                    w: state.width as int,
                    h: state.height as int,
                    home: yard,
                    round: state.round,
                    max_turns: constants.MAX_TURNS,
                };
                let spawn = spec_should_spawn(
                    final(self).schedule().holder(yard, (state.round + 1) as Time).is_none(),
                    field_total(state.halite@),
                    old(self).total(),
                    state.scores@[state.id as int],
                    constants.NEW_ENTITY_ENERGY_COST,
                    state.round,
                    constants.MAX_TURNS,
                );
                &&& cmds@.len() == n + (if spawn {
                    1int
                } else {
                    0int
                })
                &&& forall|i: int|
                    0 <= i < n ==> (#[trigger] cmds@[i] matches Command::Move(id, _) && id
                        == ranked[i].id)
                &&& spawn ==> cmds@[n] == Command::Spawn
                &&& final(self).rosters() == rosters_after(s, ranked, old(self).rosters(), n)
                &&& forall|i: int|
                    0 <= i < n ==> settled(
                        final(self).schedule(),
                        s.w,
                        s.h,
                        (state.round + 1) as Time,
                        #[trigger] ranked[i],
                        cmds@[i],
                        final(self).unsettled(),
                    )
                &&& exists|g0: Grid, g1: Grid|
                    #[trigger] served(
                        g0,
                        ranked,
                        tasks_of(
                            s,
                            state.halite@,
                            richest_of(*constants),
                            ranked,
                            old(self).rosters(),
                        ),
                        n,
                        g1,
                        cmds@.take(n),
                        final(self).unsettled(),
                    ) && shows(g0, *state) && g0.schedule().slots() == opening_slots(
                        old(self).schedule(),
                        old(self).keeps_store(s),
                        s,
                        renewed(s, ranked, old(self).rosters(), n),
                    ) && g0.schedule().routes() == opening_routes(
                        old(self).schedule(),
                        old(self).keeps_store(s),
                        s,
                        renewed(s, ranked, old(self).rosters(), n),
                    ) && g1.schedule() == final(self).schedule()
                &&& final(self).home() == yard
                &&& final(self).round() == state.round
            }),
    {
        let w = state.width;
        let h = state.height;
        let round = state.round;
        let ghost width = w as int;
        let ghost height = h as int;
        assert(0 < width * height <= 127 * 127) by (nonlinear_arith)
            requires
                0 < width <= 127,
                0 < height <= 127,
        ;
        let ghost kept = self.schedule;
        let ghost start = self.rosters();
        let ghost yard = state.yards@[state.id as int].cell();
        let ghost keeps = true;
        let ghost same = self.schedule.width() == width && self.schedule.height() == height
            && self.home == yard && self.round <= round;
        let home = state.yards[state.id as usize].pos();
        let mut schedule = Schedule::new(w, h);
        if self.schedule.grid_width() == w && self.schedule.grid_height() == h && self.home == home
            && self.round <= round {
            std::mem::swap(&mut self.schedule, &mut schedule);
        }
        let ghost taken = schedule;
        proof {
            if same {
                lemma_later_covers(taken, self.round, round, yard);
            } else {
                assert(!taken.has_route(0)) by {
                    assert(taken.routes() =~= Map::<ID, Seq<(Pos, Time)>>::empty());
                }
                assert forall|u: ID| #[trigger] taken.has_route(u) implies taken.covered(
                    u,
                    round,
                    yard,
                ) by {
                    assert(taken.routes() =~= Map::<ID, Seq<(Pos, Time)>>::empty());
                }
            }
        }
        schedule.clear_past(round);
        proof {
            lemma_past_covers(taken, schedule, round, yard);
        }
        let ghost cleared = schedule;
        let mut grid = Grid::new(
            state.id,
            w,
            h,
            round,
            state.halite.as_slice(),
            state.ships.as_slice(),
            state.drops.as_slice(),
            state.yards.as_slice(),
            schedule,
        );
        let allies = state.allies();
        let ranked = rank(&allies);
        let cells = w as usize * h as usize;
        let richest: Halite = if constants.MAX_CELL_PRODUCTION > 0x7fff_ffff {
            Halite::MAX
        } else {
            constants.MAX_CELL_PRODUCTION as Halite
        };
        proof {
            lemma_rank(allies@);
            lemma_rank_distinct(allies@);
            lemma_ranked_on_grid(state.ships@, state.id, width, height);
            grid.lemma_wf();
        }
        let ghost first = grid;
        let ghost s = Setting {
            w: width,
            h: height,
            home: yard,
            round,
            max_turns: constants.MAX_TURNS,
        };
        let ghost gone = renewed(s, ranked@, start, ranked@.len() as int);
        let roles = self.enlist(&mut grid, &ranked, constants.MAX_TURNS);
        let ghost g0 = grid;
        proof {
            grid.lemma_same_view(first);
            grid.lemma_wf();
            assert(roles@ =~= roles_of(s, ranked@, start));
            assert forall|p: Pos| #[trigger] g0.has(p) implies g0.ally(p) == ship_at(
                state.ships@,
                state.id,
                true,
                p,
            ) && g0.enemy(p) == ship_at(state.ships@, state.id, false, p) && g0.harbor(p) == (p
                == g0.spawn() || drop_at(state.drops@, state.id, p)) by {
                assert(first.has(p));
            }
            assert(shows(g0, *state));
            assert(g0.schedule().slots() == opening_slots(kept, same, s, gone)) by {
                if !same {
                    assert(from_turn(taken.slots(), round) =~= Map::<u64, ID>::empty());
                    assert(without_units(cleared.slots(), gone) =~= Map::<u64, ID>::empty());
                }
            }
            assert(g0.schedule().routes() == opening_routes(kept, same, s, gone)) by {
                if !same {
                    assert(cleared.routes().remove_keys(gone) =~= Map::<ID, Seq<(Pos, Time)>>::empty());
                }
            }
            if keeps {
                lemma_renewal_covers(cleared, g0.schedule(), gone, round, yard);
            }
        }
        let costs = price(&grid, &ranked, &roles, richest);
        let gatherers = costs.len() / cells;
        proof {
            let g = gather_rank(roles@, ranked@.len() as int);
            lemma_gather_rank(roles@, ranked@.len() as int);
            assert(costs@.len() == g * cells);
            vstd::arithmetic::div_mod::lemma_div_by_multiple(g, cells as int);
            assert(gatherers == g);
        }
        let dest: Vec<Option<usize>> = if gatherers > 0xffff {
            Vec::new()
        } else {
            assert(gatherers * gatherers <= 0xffff * 0xffff && gatherers * cells <= 0xffff * (127
                * 127)) by (nonlinear_arith)
                requires
                    0 <= gatherers <= 0xffff,
                    0 <= cells <= 127 * 127,
            ;
            solve(&costs, gatherers, cells)
        };
        let tasks = tasks_for(&grid, &ranked, &roles, &dest);
        proof {
            assert(dest@ =~= dest_of(s, state.halite@, richest, ranked@, roles@));
            assert(tasks@ =~= tasks_of(s, state.halite@, richest, ranked@, start));
        }
        proof {
            assert forall|j: int| 0 <= j < tasks@.len() && (#[trigger] tasks@[j]).crash implies tasks@[j].target
                == grid.spawn() by {
                assert(tasks@[j] == task_at(width, height, grid.spawn(), ranked@, roles@, dest@, j));
            }
        }
        let ghost before = grid;
        let (mut cmds, unsettled) = dispatch(&mut grid, &ranked, &tasks);
        let ghost moves = cmds@;
        let ghost g1 = grid;
        proof {
            assert(keeps ==> g1.schedule().covered_but(round, yard, None));
        }
        proof {
            grid.lemma_same_view(before);
            grid.lemma_wf();
            lemma_field_total_bound(state.halite@);
        }
        let spawn = should_spawn(
            grid.can_spawn(),
            sum_field(&state.halite),
            self.total,
            state.halite(),
            constants.NEW_ENTITY_ENERGY_COST,
            round,
            constants.MAX_TURNS,
        );
        if spawn {
            cmds.push(Command::Spawn);
        }
        proof {
            assert forall|i: int| 0 <= i < ranked@.len() implies cmds@[i] == moves[i] by {}
            assert(cmds@.take(ranked@.len() as int) =~= moves);
            assert(served(
                g0,
                ranked@,
                tasks_of(s, state.halite@, richest_of(*constants), ranked@, start),
                ranked@.len() as int,
                g1,
                cmds@.take(ranked@.len() as int),
                unsettled@,
            ));
        }
        self.schedule = grid.into_schedule();
        self.unsettled = unsettled;
        self.home = home;
        self.round = round;
        proof {
            let n = ranked@.len() as int;
            let tasks_spec = tasks_of(s, state.halite@, richest_of(*constants), ranked@, start);
            assert(served(g0, ranked@, tasks_spec, n, g1, cmds@.take(n), self.unsettled()));
            assert(g0.schedule().slots() == opening_slots(kept, same, s, gone));
            assert(g0.schedule().routes() == opening_routes(kept, same, s, gone));
            assert(g1.schedule() == self.schedule());
            assert(exists|a: Grid, b: Grid|
                #[trigger] served(a, ranked@, tasks_spec, n, b, cmds@.take(n), self.unsettled())
                    && shows(a, *state) && a.schedule().slots() == opening_slots(
                    kept,
                    same,
                    s,
                    gone,
                ) && a.schedule().routes() == opening_routes(kept, same, s, gone) && b.schedule()
                    == self.schedule());
            assert(keeps ==> self.schedule().covered_but(round, yard, None));
        }
        cmds
    }
}

/// Where every unit of a snapshot stands on the grid, so does every unit
/// of the player's ranked fleet.
pub proof fn lemma_ranked_on_grid(ships: Seq<Ship>, id: u8, w: int, h: int)
    requires
        ships_on_grid(w, h, ships),
    ensures
        ships_on_grid(w, h, spec_rank(fleet(ships, id, true))),
{
    broadcast use vstd::seq_lib::group_to_multiset_ensures;

    let own = fleet(ships, id, true);
    let ranked = spec_rank(own);
    lemma_rank(own);
    assert forall|i: int| 0 <= i < ranked.len() implies on_grid(
        w,
        h,
        (#[trigger] ranked[i]).cell(),
    ) by {
        assert(ranked.to_multiset().count(ranked[i]) > 0);
        assert(own.to_multiset().count(ranked[i]) > 0);
        let k = choose|k: int| 0 <= k < own.len() && own[k] == ranked[i];
        lemma_fleet(ships, id, true, k);
    }
}

} // verus!

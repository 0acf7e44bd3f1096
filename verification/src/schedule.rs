//! The reservation and route store: which unit has claimed which cell at
//! which future turn, and the route each unit is following.
//!
//! It is the one piece of state that outlives a turn.

use vstd::prelude::*;
use std::collections::HashMap;
use std::collections::VecDeque;
use crate::data::Dist;
use crate::data::ID;
use crate::data::Pos;
use crate::data::Time;
use crate::tables::Table;
use crate::tables::table_get;
use crate::tables::table_insert;
use crate::tables::table_remove;
use crate::tables::table_retain;
use crate::torus::is_size;
use crate::torus::on_grid;
use crate::torus::torus_dist;

verus! {

/// A (cell, turn) pair that can be reserved: no coordinate and no turn is
/// negative.
pub open spec fn is_slot(c: Pos, t: Time) -> bool {
    0 <= c.0 && 0 <= c.1 && 0 <= t
}

/// The key under which the reservation of a slot is kept.
pub open spec fn slot_key(c: Pos, t: Time) -> u64 {
    ((t as int * 128 + c.1 as int) * 128 + c.0 as int) as u64
}

/// The turn of the slot that a key stands for.
pub open spec fn key_turn(k: u64) -> int {
    k as int / 16384
}

/// Two slots with the same key are the same slot.
pub proof fn lemma_slot_key_injective(c1: Pos, t1: Time, c2: Pos, t2: Time)
    requires
        is_slot(c1, t1),
        is_slot(c2, t2),
        slot_key(c1, t1) == slot_key(c2, t2),
    ensures
        c1 == c2,
        t1 == t2,
{
}

/// The key of a slot holds the slot's turn.
pub proof fn lemma_key_turn(c: Pos, t: Time)
    requires
        is_slot(c, t),
    ensures
        key_turn(slot_key(c, t)) == t,
{
}

/// The key under which the reservation of a slot is kept.
pub fn key_of(c: Pos, t: Time) -> (k: u64)
    requires
        is_slot(c, t),
    ensures
        k == slot_key(c, t),
{
    (t as u64 * 128 + c.1 as u64) * 128 + c.0 as u64
}

/// The turn of the slot that a key stands for.
pub fn turn_of(k: u64) -> (t: u64)
    ensures
        t == key_turn(k),
{
    k / 16384
}

/// Whether `r` is a route on the `w` by `h` grid: not empty, every entry a
/// slot on the grid, and from each entry to the next one turn later and at
/// most one step away.
pub open spec fn is_route(w: int, h: int, r: Seq<(Pos, Time)>) -> bool {
    &&& r.len() > 0
    &&& forall|i: int| 0 <= i < r.len() ==> on_grid(w, h, (#[trigger] r[i]).0) && r[i].1 >= 0
    &&& forall|i: int|
        0 <= i < r.len() - 1 ==> (#[trigger] r[i + 1]).1 == r[i].1 + 1 && torus_dist(
            w,
            h,
            r[i].0,
            r[i + 1].0,
        ) <= 1
}

/// The reservations that remain when a unit gives up all of its own.
pub open spec fn without_unit(slots: Map<u64, ID>, unit: ID) -> Map<u64, ID> {
    Map::new(|k: u64| slots.contains_key(k) && slots[k] != unit, |k: u64| slots[k])
}

/// The reservations for turn `turn` and later.
pub open spec fn from_turn(slots: Map<u64, ID>, turn: Time) -> Map<u64, ID> {
    Map::new(|k: u64| slots.contains_key(k) && key_turn(k) >= turn, |k: u64| slots[k])
}

/// The reservations after `unit` has claimed every slot of a route, one
/// after the other.
pub open spec fn claim_all(slots: Map<u64, ID>, way: Seq<(Pos, Time)>, unit: ID) -> Map<u64, ID>
    decreases way.len(),
{
    if way.len() == 0 {
        slots
    } else {
        claim_all(slots, way.drop_last(), unit).insert(slot_key(way.last().0, way.last().1), unit)
    }
}

/// After a unit has claimed a route it holds every slot of it, every slot
/// that was held is still held, and the slots that others hold are among
/// those they held before.
pub proof fn lemma_claim_all(slots: Map<u64, ID>, way: Seq<(Pos, Time)>, unit: ID)
    ensures
        forall|i: int|
            0 <= i < way.len() ==> {
                let k = slot_key((#[trigger] way[i]).0, way[i].1);
                claim_all(slots, way, unit).contains_key(k) && claim_all(slots, way, unit)[k]
                    == unit
            },
        forall|k: u64|
            #![trigger claim_all(slots, way, unit).contains_key(k)]
            slots.contains_key(k) ==> claim_all(slots, way, unit).contains_key(k),
        forall|k: u64|
            #![trigger claim_all(slots, way, unit).contains_key(k)]
            claim_all(slots, way, unit).contains_key(k) && claim_all(slots, way, unit)[k] != unit
                ==> slots.contains_key(k) && slots[k] == claim_all(slots, way, unit)[k],
    decreases way.len(),
{
    if way.len() > 0 {
        let rest = way.drop_last();
        let fewer = claim_all(slots, rest, unit);
        let all = claim_all(slots, way, unit);
        let last = slot_key(way.last().0, way.last().1);
        assert(all == fewer.insert(last, unit));
        lemma_claim_all(slots, rest, unit);
        assert forall|i: int| 0 <= i < way.len() implies {
            let k = slot_key((#[trigger] way[i]).0, way[i].1);
            all.contains_key(k) && all[k] == unit
        } by {
            if i < rest.len() {
                assert(rest[i] == way[i]);
            }
        }
        assert forall|k: u64| #![trigger all.contains_key(k)] slots.contains_key(k) implies all.contains_key(
            k,
        ) by {
            assert(fewer.contains_key(k));
        }
        assert forall|k: u64|
            #![trigger all.contains_key(k)]
            all.contains_key(k) && all[k] != unit implies slots.contains_key(k) && slots[k]
                == all[k] by {
            assert(k != last);
            assert(fewer.contains_key(k));
        }
    }
}

/// A route claimed by a unit leaves every slot off the route as it was.
pub proof fn lemma_claim_all_elsewhere(slots: Map<u64, ID>, way: Seq<(Pos, Time)>, unit: ID, k: u64)
    requires
        forall|i: int| 0 <= i < way.len() ==> slot_key((#[trigger] way[i]).0, way[i].1) != k,
    ensures
        claim_all(slots, way, unit).contains_key(k) == slots.contains_key(k),
        slots.contains_key(k) ==> claim_all(slots, way, unit)[k] == slots[k],
    decreases way.len(),
{
    if way.len() > 0 {
        let rest = way.drop_last();
        assert forall|i: int| 0 <= i < rest.len() implies slot_key((#[trigger] rest[i]).0, rest[i].1)
            != k by {
            assert(rest[i] == way[i]);
        }
        lemma_claim_all_elsewhere(slots, rest, unit, k);
        assert(way[way.len() - 1] == way.last());
    }
}

/// Reservations and routes of one player's units.
#[derive(Debug, Clone)]
pub struct Schedule {
    width: Dist,
    height: Dist,
    reserved: Table<u64, ID>,
    routes: Table<ID, VecDeque<(Pos, Time)>>,
}

impl Schedule {
    /// Width of the grid the routes run on.
    pub closed spec fn width(&self) -> int {
        self.width as int
    }

    /// Height of the grid the routes run on.
    pub closed spec fn height(&self) -> int {
        self.height as int
    }

    /// The reservations: from the key of a slot to the unit that holds it.
    pub closed spec fn slots(&self) -> Map<u64, ID> {
        self.reserved@
    }

    /// The routes: from a unit to the slots it means to pass, in order.
    pub closed spec fn routes(&self) -> Map<ID, Seq<(Pos, Time)>> {
        Map::new(|id: ID| self.routes@.contains_key(id), |id: ID| self.routes@[id]@)
    }

    /// Whether a route is stored for the unit.
    pub open spec fn has_route(&self, unit: ID) -> bool {
        self.routes().contains_key(unit)
    }

    /// The unit's route; empty where it has none.
    pub open spec fn route(&self, unit: ID) -> Seq<(Pos, Time)> {
        if self.has_route(unit) {
            self.routes()[unit]
        } else {
            Seq::empty()
        }
    }

    /// The unit that holds the slot, if any does.
    pub open spec fn holder(&self, c: Pos, t: Time) -> Option<ID> {
        if self.slots().contains_key(slot_key(c, t)) {
            Some(self.slots()[slot_key(c, t)])
        } else {
            None
        }
    }

    /// Whether `unit` holds the slot.
    pub open spec fn holds(&self, c: Pos, t: Time, unit: ID) -> bool {
        self.holder(c, t) == Some(unit)
    }

    /// Every stored route is a route on the grid.
    pub open spec fn wf(&self) -> bool {
        &&& is_size(self.width(), self.height())
        &&& forall|id: ID| #[trigger]
            self.has_route(id) ==> is_route(self.width(), self.height(), self.routes()[id])
    }

    /// A store with no reservation and no route.
    pub fn new(width: Dist, height: Dist) -> (s: Schedule)
        requires
            is_size(width as int, height as int),
        ensures
            s.wf(),
            s.width() == width,
            s.height() == height,
            s.slots() == Map::<u64, ID>::empty(),
            s.routes() == Map::<ID, Seq<(Pos, Time)>>::empty(),
    {
        let s = Schedule { width, height, reserved: HashMap::default(), routes: HashMap::default() };
        assert(s.routes() =~= Map::<ID, Seq<(Pos, Time)>>::empty());
        s
    }

    /// Width of the grid the routes run on.
    pub fn grid_width(&self) -> (w: Dist)
        ensures
            w == self.width(),
    {
        self.width
    }

    /// Height of the grid the routes run on.
    pub fn grid_height(&self) -> (h: Dist)
        ensures
            h == self.height(),
    {
        self.height
    }

    /// Claims the slot for `unit`. A claim that another unit held is
    /// overwritten, and that unit is returned: it has been displaced and
    /// has to plan again.
    pub fn reserve(&mut self, cell: Pos, turn: Time, unit: ID) -> (displaced: Option<ID>)
        requires
            is_slot(cell, turn),
        ensures
            final(self).slots() == old(self).slots().insert(slot_key(cell, turn), unit),
            final(self).routes() == old(self).routes(),
            final(self).width() == old(self).width(),
            final(self).height() == old(self).height(),
            displaced == (match old(self).holder(cell, turn) {
                Some(u) => if u != unit {
                    Some(u)
                } else {
                    None
                },
                None => None,
            }),
    {
        broadcast use vstd::std_specs::hash::group_hash_axioms;

        let prev = table_insert(&mut self.reserved, key_of(cell, turn), unit);
        match prev {
            Some(u) => if u != unit {
                Some(u)
            } else {
                None
            },
            None => None,
        }
    }

    /// Gives the slot up, whoever held it.
    pub fn release(&mut self, cell: Pos, turn: Time)
        requires
            is_slot(cell, turn),
        ensures
            final(self).slots() == old(self).slots().remove(slot_key(cell, turn)),
            final(self).routes() == old(self).routes(),
            final(self).width() == old(self).width(),
            final(self).height() == old(self).height(),
    {
        broadcast use vstd::std_specs::hash::group_hash_axioms;

        let _ = table_remove(&mut self.reserved, &key_of(cell, turn));
    }

    /// The unit that holds the slot, if any does.
    pub fn claimant(&self, cell: Pos, turn: Time) -> (unit: Option<ID>)
        requires
            is_slot(cell, turn),
        ensures
            unit == self.holder(cell, turn),
    {
        broadcast use vstd::std_specs::hash::group_hash_axioms;

        match table_get(&self.reserved, &key_of(cell, turn)) {
            Some(u) => Some(*u),
            None => None,
        }
    }

    /// Whether a route is stored for the unit.
    pub fn has_cached_route(&self, unit: ID) -> (has: bool)
        ensures
            has == self.has_route(unit),
    {
        broadcast use vstd::std_specs::hash::group_hash_axioms;

        table_get(&self.routes, &unit).is_some()
    }

    /// The first entry of the unit's route, left in place.
    pub fn peek_next(&self, unit: ID) -> (next: Option<(Pos, Time)>)
        requires
            self.wf(),
        ensures
            next == (if self.has_route(unit) {
                Some(self.route(unit)[0])
            } else {
                None
            }),
    {
        broadcast use vstd::std_specs::hash::group_hash_axioms;

        match table_get(&self.routes, &unit) {
            Some(route) => {
                assert(self.has_route(unit));
                assert(route@ == self.routes()[unit]);
                Some(route[0])
            },
            None => None,
        }
    }

    /// Takes the first entry off the unit's route and returns it. A route
    /// that is used up by this is no longer stored.
    pub fn pop_next(&mut self, unit: ID) -> (next: Option<(Pos, Time)>)
        requires
            old(self).wf(),
        ensures
            final(self).wf(),
            final(self).slots() == old(self).slots(),
            final(self).width() == old(self).width(),
            final(self).height() == old(self).height(),
            next == (if old(self).has_route(unit) {
                Some(old(self).route(unit)[0])
            } else {
                None
            }),
            final(self).routes() == (if old(self).route(unit).len() > 1 {
                old(self).routes().insert(unit, old(self).route(unit).skip(1))
            } else {
                old(self).routes().remove(unit)
            }),
    {
        broadcast use vstd::std_specs::hash::group_hash_axioms;

        let ghost before = self.routes();
        let (w, h) = (Ghost(self.width()), Ghost(self.height()));
        match table_remove(&mut self.routes, &unit) {
            Some(mut route) => {
                assert(old(self).has_route(unit));
                assert(route@ == before[unit]);
                assert(self.routes() =~= before.remove(unit));
                let next = route.pop_front();
                if route.len() > 0 {
                    let ghost rest = route@;
                    assert(rest == before[unit].skip(1));
                    assert(is_route(w@, h@, rest)) by {
                        assert forall|i: int| 0 <= i < rest.len() - 1 implies (#[trigger] rest[i
                            + 1]).1 == rest[i].1 + 1 && torus_dist(w@, h@, rest[i].0, rest[i + 1].0)
                            <= 1 by {
                            assert(rest[i + 1] == before[unit][i + 1 + 1]);
                        }
                    }
                    let _ = table_insert(&mut self.routes, unit, route);
                    assert(self.routes() =~= before.insert(unit, rest));
                }
                assert forall|id: ID| #[trigger] self.has_route(id) implies is_route(
                    w@,
                    h@,
                    self.routes()[id],
                ) by {
                    if id != unit {
                        assert(old(self).has_route(id));
                    }
                }
                next
            },
            None => {
                assert(self.routes() =~= before);
                assert(before.remove(unit) =~= before);
                assert forall|id: ID| #[trigger] self.has_route(id) implies is_route(
                    w@,
                    h@,
                    self.routes()[id],
                ) by {
                    assert(old(self).has_route(id));
                }
                None
            },
        }
    }

    /// Stores `route` as the unit's route, in place of the one it had.
    pub fn set_route(&mut self, unit: ID, route: VecDeque<(Pos, Time)>)
        requires
            old(self).wf(),
            is_route(old(self).width(), old(self).height(), route@),
        ensures
            final(self).wf(),
            final(self).routes() == old(self).routes().insert(unit, route@),
            final(self).slots() == old(self).slots(),
            final(self).width() == old(self).width(),
            final(self).height() == old(self).height(),
    {
        broadcast use vstd::std_specs::hash::group_hash_axioms;

        let ghost before = self.routes();
        let ghost r = route@;
        let _ = table_insert(&mut self.routes, unit, route);
        assert(self.routes() =~= before.insert(unit, r));
        assert forall|id: ID| #[trigger] self.has_route(id) implies is_route(
            self.width(),
            self.height(),
            self.routes()[id],
        ) by {
            if id != unit {
                assert(old(self).has_route(id));
            }
        }
    }

    /// Whether the unit holds every slot of its route after turn `round`,
    /// but for those on the cell `exempt`.
    pub open spec fn covered(&self, unit: ID, round: Time, exempt: Pos) -> bool {
        forall|i: int|
            0 <= i < self.route(unit).len() && (#[trigger] self.route(unit)[i]).1 > round
                ==> self.holds(self.route(unit)[i].0, self.route(unit)[i].1, unit)
                || self.route(unit)[i].0 == exempt
    }

    /// Whether every unit with a route, but for `except`, holds the slots
    /// of its route after turn `round` that are not on the cell `exempt`.
    pub open spec fn covered_but(&self, round: Time, exempt: Pos, except: Option<ID>) -> bool {
        forall|u: ID| #[trigger]
            self.has_route(u) && Some(u) != except ==> self.covered(u, round, exempt)
    }

    /// The unit that loses the slot when `unit` claims it: its holder, if
    /// that is another unit.
    pub open spec fn loser(&self, c: Pos, t: Time, unit: ID) -> Option<ID> {
        match self.holder(c, t) {
            Some(u) => if u != unit {
                Some(u)
            } else {
                None
            },
            None => None,
        }
    }

    /// Stores `way` as the unit's route and claims every slot of it for
    /// the unit. Returns the unit that lost the first slot by this, if one
    /// did.
    pub fn adopt(&mut self, unit: ID, way: VecDeque<(Pos, Time)>) -> (displaced: Option<ID>)
        requires
            old(self).wf(),
            is_route(old(self).width(), old(self).height(), way@),
        ensures
            final(self).wf(),
            final(self).routes() == old(self).routes().insert(unit, way@),
            final(self).slots() == claim_all(old(self).slots(), way@, unit),
            final(self).width() == old(self).width(),
            final(self).height() == old(self).height(),
            displaced == old(self).loser(way@[0].0, way@[0].1, unit),
    {
        let mut displaced: Option<ID> = None;
        let mut i: usize = 0;
        while i < way.len()
            invariant
                0 <= i <= way@.len(),
                is_route(self.width(), self.height(), way@),
                self.wf(),
                self.routes() == old(self).routes(),
                self.width() == old(self).width(),
                self.height() == old(self).height(),
                self.slots() == claim_all(old(self).slots(), way@.take(i as int), unit),
                i > 0 ==> displaced == old(self).loser(way@[0].0, way@[0].1, unit),
            decreases way@.len() - i,
        {
            let (cell, turn) = way[i];
            let ghost before = *self;
            let lost = self.reserve(cell, turn, unit);
            if i == 0 {
                displaced = lost;
                assert(way@.take(0) =~= Seq::<(Pos, Time)>::empty());
            }
            proof {
                assert(way@.take(i as int + 1).drop_last() =~= way@.take(i as int));
                assert(way@.take(i as int + 1).last() == way@[i as int]);
                assert forall|id: ID| #[trigger] self.has_route(id) implies is_route(
                    self.width(),
                    self.height(),
                    self.routes()[id],
                ) by {
                    assert(before.has_route(id));
                }
            }
            i += 1;
        }
        assert(way@.take(i as int) =~= way@);
        self.set_route(unit, way);
        displaced
    }

    /// Forgets the unit's route and gives up every slot the unit holds.
    /// Doing so twice is the same as doing so once.
    pub fn invalidate(&mut self, unit: ID)
        requires
            old(self).wf(),
        ensures
            final(self).wf(),
            final(self).routes() == old(self).routes().remove(unit),
            final(self).slots() == without_unit(old(self).slots(), unit),
            final(self).width() == old(self).width(),
            final(self).height() == old(self).height(),
    {
        broadcast use vstd::std_specs::hash::group_hash_axioms;

        let ghost before = self.routes();
        let _ = table_remove(&mut self.routes, &unit);
        assert(self.routes() =~= before.remove(unit));
        let others = |k: &u64, holder: &ID| -> (keep: bool)
            ensures
                keep == (*holder != unit),
            { *holder != unit };
        table_retain(&mut self.reserved, others);
        assert(self.slots() =~= without_unit(old(self).slots(), unit));
        assert(self.routes() =~= before.remove(unit));
        assert forall|id: ID| #[trigger] self.has_route(id) implies is_route(
            self.width(),
            self.height(),
            self.routes()[id],
        ) by {
            assert(old(self).has_route(id));
        }
    }

    /// Drops the reservations for turns before `turn`.
    pub fn clear_past(&mut self, turn: Time)
        ensures
            old(self).wf() ==> final(self).wf(),
            final(self).slots() == from_turn(old(self).slots(), turn),
            final(self).routes() == old(self).routes(),
            final(self).width() == old(self).width(),
            final(self).height() == old(self).height(),
    {
        broadcast use vstd::std_specs::hash::group_hash_axioms;

        let first: i64 = turn as i64;
        let current = |k: &u64, holder: &ID| -> (keep: bool)
            ensures
                keep == (key_turn(*k) >= turn),
            { turn_of(*k) as i64 >= first };
        table_retain(&mut self.reserved, current);
        assert(self.slots() =~= from_turn(old(self).slots(), turn));
        assert(self.routes() =~= old(self).routes());
        assert forall|id: ID| old(self).wf() && #[trigger] self.has_route(id) implies is_route(
            self.width(),
            self.height(),
            self.routes()[id],
        ) by {
            assert(old(self).has_route(id));
        }
    }
}

/// A slot has at most one holder.
pub proof fn lemma_one_holder(s: Schedule, c: Pos, t: Time, u1: ID, u2: ID)
    requires
        s.holds(c, t, u1),
        s.holds(c, t, u2),
    ensures
        u1 == u2,
{
}

/// A claim on one slot leaves the holder of every other slot as it was.
pub proof fn lemma_reserve_elsewhere(slots: Map<u64, ID>, c: Pos, t: Time, unit: ID, c2: Pos, t2: Time)
    requires
        is_slot(c, t),
        is_slot(c2, t2),
        c != c2 || t != t2,
    ensures
        slots.insert(slot_key(c, t), unit).contains_key(slot_key(c2, t2)) == slots.contains_key(
            slot_key(c2, t2),
        ),
        slots.contains_key(slot_key(c2, t2)) ==> slots.insert(slot_key(c, t), unit)[slot_key(
            c2,
            t2,
        )] == slots[slot_key(c2, t2)],
{
    if slot_key(c, t) == slot_key(c2, t2) {
        lemma_slot_key_injective(c, t, c2, t2);
    }
}

/// Giving up a unit's slots twice is the same as doing so once, and so is
/// forgetting its route.
pub proof fn lemma_invalidate_idempotent(
    slots: Map<u64, ID>,
    routes: Map<ID, Seq<(Pos, Time)>>,
    unit: ID,
)
    ensures
        without_unit(without_unit(slots, unit), unit) == without_unit(slots, unit),
        routes.remove(unit).remove(unit) == routes.remove(unit),
{
    assert(without_unit(without_unit(slots, unit), unit) =~= without_unit(slots, unit));
    assert(routes.remove(unit).remove(unit) =~= routes.remove(unit));
}

/// In a well-formed store, consecutive entries of a route are one turn and
/// at most one step apart.
pub proof fn lemma_route_continuous(s: Schedule, unit: ID, i: int)
    requires
        s.wf(),
        0 <= i < s.route(unit).len() - 1,
    ensures
        s.route(unit)[i + 1].1 == s.route(unit)[i].1 + 1,
        torus_dist(s.width(), s.height(), s.route(unit)[i].0, s.route(unit)[i + 1].0) <= 1,
{
    assert(s.has_route(unit));
}

/// A slot that another unit held and that the unit holds after it has
/// claimed a route is a slot of that route.
pub proof fn lemma_claim_all_taken(slots: Map<u64, ID>, way: Seq<(Pos, Time)>, unit: ID, k: u64)
    requires
        slots.contains_key(k),
        slots[k] != unit,
        claim_all(slots, way, unit)[k] == unit,
    ensures
        exists|i: int| 0 <= i < way.len() && slot_key((#[trigger] way[i]).0, way[i].1) == k,
{
    if forall|i: int| 0 <= i < way.len() ==> slot_key((#[trigger] way[i]).0, way[i].1) != k {
        lemma_claim_all_elsewhere(slots, way, unit, k);
    }
}

/// The entries of a route are numbered by turns: each is as many turns
/// after the first as it is places behind it.
pub proof fn lemma_route_turns(w: int, h: int, way: Seq<(Pos, Time)>, i: int)
    requires
        is_route(w, h, way),
        0 <= i < way.len(),
    ensures
        way[i].1 == way[0].1 + i,
    decreases i,
{
    if i > 0 {
        lemma_route_turns(w, h, way, i - 1);
        assert(way[(i - 1) + 1].1 == way[i - 1].1 + 1);
    }
}

/// A unit that claims a route changes, among the slots of the turn at which
/// the route begins, only the holder of the first cell of the route.
pub proof fn lemma_claim_all_first_turn(
    slots: Map<u64, ID>,
    w: int,
    h: int,
    way: Seq<(Pos, Time)>,
    unit: ID,
    c: Pos,
)
    requires
        is_route(w, h, way),
        is_slot(c, way[0].1),
        c != way[0].0,
    ensures
        claim_all(slots, way, unit).contains_key(slot_key(c, way[0].1)) == slots.contains_key(
            slot_key(c, way[0].1),
        ),
        slots.contains_key(slot_key(c, way[0].1)) ==> claim_all(slots, way, unit)[slot_key(
            c,
            way[0].1,
        )] == slots[slot_key(c, way[0].1)],
{
    let k = slot_key(c, way[0].1);
    assert forall|i: int| 0 <= i < way.len() implies slot_key((#[trigger] way[i]).0, way[i].1)
        != k by {
        lemma_route_turns(w, h, way, i);
        if slot_key(way[i].0, way[i].1) == k {
            lemma_slot_key_injective(way[i].0, way[i].1, c, way[0].1);
        }
    }
    lemma_claim_all_elsewhere(slots, way, unit, k);
}

/// Two units that each hold the cell they move to, for the same turn, do
/// not move to the same cell.
pub proof fn lemma_no_shared_cell(s: Schedule, t: Time, a: ID, to_a: Pos, b: ID, to_b: Pos)
    requires
        a != b,
        s.holds(to_a, t, a),
        s.holds(to_b, t, b),
    ensures
        to_a != to_b,
{
}

/// A route that begins at most one step from `start` is, at its entry
/// `k`, at most `k` steps further.
pub proof fn lemma_route_reach(w: int, h: int, start: Pos, way: Seq<(Pos, Time)>, k: int)
    requires
        is_size(w, h),
        on_grid(w, h, start),
        is_route(w, h, way),
        torus_dist(w, h, start, way[0].0) <= 1,
        0 <= k < way.len(),
    ensures
        torus_dist(w, h, start, way[k].0) <= k + 1,
    decreases k,
{
    if k > 0 {
        lemma_route_reach(w, h, start, way, k - 1);
        assert(torus_dist(w, h, way[k - 1].0, way[(k - 1) + 1].0) <= 1);
        crate::torus::lemma_dist_triangle(w, h, start, way[k - 1].0, way[k].0);
    }
}

/// A route that begins at most one step from `start` and ends on `target`
/// has at least as many entries as the two cells are steps apart.
pub proof fn lemma_route_no_shorter(w: int, h: int, start: Pos, way: Seq<(Pos, Time)>, target: Pos)
    requires
        is_size(w, h),
        on_grid(w, h, start),
        is_route(w, h, way),
        torus_dist(w, h, start, way[0].0) <= 1,
        way.last().0 == target,
    ensures
        way.len() >= torus_dist(w, h, start, target),
{
    lemma_route_reach(w, h, start, way, way.len() - 1);
}

} // verus!

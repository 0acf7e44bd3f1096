//! Arithmetic on a grid whose two axes wrap around.

use vstd::prelude::*;
use crate::data::Dist;
use crate::data::Pos;

verus! {

/// One move of a unit: to a neighbouring cell, or none (`O`).
#[derive(Copy, Clone, Debug, PartialEq, Eq, Structural)]
pub enum Dir {
    N,
    S,
    E,
    W,
    O,
}

impl Dir {
    /// The opposite direction; staying is its own opposite.
    pub open spec fn spec_reflect(self) -> Dir {
        match self {
            Dir::N => Dir::S,
            Dir::S => Dir::N,
            Dir::E => Dir::W,
            Dir::W => Dir::E,
            Dir::O => Dir::O,
        }
    }

    /// The opposite direction; staying is its own opposite.
    pub fn reflect(self) -> (r: Dir)
        ensures
            r == self.spec_reflect(),
    {
        match self {
            Dir::N => Dir::S,
            Dir::S => Dir::N,
            Dir::E => Dir::W,
            Dir::W => Dir::E,
            Dir::O => Dir::O,
        }
    }
}

/// The largest width or height of a grid: a coordinate is a `Dist`.
pub const MAX_SIZE: Dist = 127;

/// Whether `w` by `h` is the size of a grid.
pub open spec fn is_size(w: int, h: int) -> bool {
    0 < w <= MAX_SIZE && 0 < h <= MAX_SIZE
}

/// Whether `p` is a cell of the `w` by `h` grid.
pub open spec fn on_grid(w: int, h: int, p: Pos) -> bool {
    0 <= p.0 < w && 0 <= p.1 < h
}

/// Distance between two coordinates on an axis of length `size` that wraps
/// around: the shorter of the two ways.
pub open spec fn axis_dist(size: int, a: int, b: int) -> int {
    let d = if a <= b { b - a } else { a - b };
    if d <= size - d { d } else { size - d }
}

/// Toroidal Manhattan distance between two cells.
pub open spec fn torus_dist(w: int, h: int, a: Pos, b: Pos) -> int {
    axis_dist(w, a.0 as int, b.0 as int) + axis_dist(h, a.1 as int, b.1 as int)
}

/// The cell reached from `p` by one move in direction `d`.
pub open spec fn torus_step(w: int, h: int, p: Pos, d: Dir) -> Pos {
    match d {
        Dir::N => Pos(p.0, ((p.1 + h - 1) % h) as Dist),
        Dir::S => Pos(p.0, ((p.1 + 1) % h) as Dist),
        Dir::E => Pos(((p.0 + 1) % w) as Dist, p.1),
        Dir::W => Pos(((p.0 + w - 1) % w) as Dist, p.1),
        Dir::O => p,
    }
}

/// The direction of the move that leads from `a` to `b`, if one move does.
/// From a cell to itself that is staying. Where several moves lead to
/// another cell (on an axis of length two), north comes before south and
/// west before east.
pub open spec fn torus_dir(w: int, h: int, a: Pos, b: Pos) -> Option<Dir> {
    let dx = b.0 - a.0;
    let dy = b.1 - a.1;
    if dx == 0 && dy == 0 {
        Some(Dir::O)
    } else if dx == 0 && (dy == -1 || dy == h - 1) {
        Some(Dir::N)
    } else if dx == 0 && (dy == 1 || dy == 1 - h) {
        Some(Dir::S)
    } else if dy == 0 && (dx == -1 || dx == w - 1) {
        Some(Dir::W)
    } else if dy == 0 && (dx == 1 || dx == 1 - w) {
        Some(Dir::E)
    } else {
        None
    }
}

/// On an axis of length `size`, one step forward from `v` and one step back,
/// without the remainder.
pub proof fn lemma_wrap(size: int, v: int)
    requires
        0 <= v < size,
    ensures
        (v + 1) % size == (if v + 1 == size { 0 } else { v + 1 }),
        (v + size - 1) % size == (if v == 0 { size - 1 } else { v - 1 }),
{
    if v + 1 == size {
        vstd::arithmetic::div_mod::lemma_mod_self_0(size);
    } else {
        vstd::arithmetic::div_mod::lemma_small_mod((v + 1) as nat, size as nat);
    }
    if v == 0 {
        vstd::arithmetic::div_mod::lemma_small_mod((size - 1) as nat, size as nat);
    } else {
        vstd::arithmetic::div_mod::lemma_mod_add_multiples_vanish(v - 1, size);
        vstd::arithmetic::div_mod::lemma_small_mod((v - 1) as nat, size as nat);
    }
}

/// Distance is symmetric.
pub proof fn lemma_dist_symmetric(w: int, h: int, a: Pos, b: Pos)
    ensures
        torus_dist(w, h, a, b) == torus_dist(w, h, b, a),
{
}

/// Distance is never negative, and is zero exactly between a cell and itself.
pub proof fn lemma_dist_zero(w: int, h: int, a: Pos, b: Pos)
    requires
        is_size(w, h),
        on_grid(w, h, a),
        on_grid(w, h, b),
    ensures
        torus_dist(w, h, a, b) >= 0,
        torus_dist(w, h, a, b) == 0 <==> a == b,
{
}

/// Going by way of a third cell is never shorter.
pub proof fn lemma_dist_triangle(w: int, h: int, a: Pos, b: Pos, c: Pos)
    requires
        is_size(w, h),
        on_grid(w, h, a),
        on_grid(w, h, b),
        on_grid(w, h, c),
    ensures
        torus_dist(w, h, a, c) <= torus_dist(w, h, a, b) + torus_dist(w, h, b, c),
{
}

/// A move stays on the grid and covers a distance of at most one; staying
/// covers none.
pub proof fn lemma_step_near(w: int, h: int, p: Pos, d: Dir)
    requires
        is_size(w, h),
        on_grid(w, h, p),
    ensures
        on_grid(w, h, torus_step(w, h, p, d)),
        torus_dist(w, h, p, torus_step(w, h, p, d)) <= 1,
        torus_step(w, h, p, Dir::O) == p,
{
    lemma_wrap(w, p.0 as int);
    lemma_wrap(h, p.1 as int);
}

/// `torus_dir` undoes `torus_step`: it names a direction exactly for the
/// cells at distance at most one, and a move in that direction arrives.
pub proof fn lemma_dir_inverts_step(w: int, h: int, a: Pos, b: Pos)
    requires
        is_size(w, h),
        on_grid(w, h, a),
        on_grid(w, h, b),
    ensures
        torus_dir(w, h, a, b).is_some() <==> torus_dist(w, h, a, b) <= 1,
        torus_dir(w, h, a, b) matches Some(d) ==> torus_step(w, h, a, d) == b,
        torus_dir(w, h, a, b) == Some(Dir::O) <==> a == b,
{
    lemma_wrap(w, a.0 as int);
    lemma_wrap(h, a.1 as int);
}

/// Every move is found again from the two cells it joins, up to moves that
/// arrive at the same cell.
pub proof fn lemma_step_has_dir(w: int, h: int, p: Pos, d: Dir)
    requires
        is_size(w, h),
        on_grid(w, h, p),
    ensures
        torus_dir(w, h, p, torus_step(w, h, p, d)) matches Some(e) && torus_step(w, h, p, e)
            == torus_step(w, h, p, d),
{
    lemma_step_near(w, h, p, d);
    lemma_dir_inverts_step(w, h, p, torus_step(w, h, p, d));
}

/// From a cell other than `t` some move leads one step closer to `t`.
pub proof fn lemma_step_closer(w: int, h: int, p: Pos, t: Pos)
    requires
        is_size(w, h),
        on_grid(w, h, p),
        on_grid(w, h, t),
        p != t,
    ensures
        exists|d: Dir|
            d != Dir::O && torus_dist(w, h, #[trigger] torus_step(w, h, p, d), t) == torus_dist(
                w,
                h,
                p,
                t,
            ) - 1,
{
    lemma_wrap(w, p.0 as int);
    lemma_wrap(h, p.1 as int);
    let here = torus_dist(w, h, p, t);
    if p.0 != t.0 {
        let east = torus_step(w, h, p, Dir::E);
        let west = torus_step(w, h, p, Dir::W);
        assert(torus_dist(w, h, east, t) == here - 1 || torus_dist(w, h, west, t) == here - 1);
    } else {
        let north = torus_step(w, h, p, Dir::N);
        let south = torus_step(w, h, p, Dir::S);
        assert(torus_dist(w, h, north, t) == here - 1 || torus_dist(w, h, south, t) == here - 1);
    }
}

} // verus!

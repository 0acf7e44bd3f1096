//! The order in which the units of a fleet are served: the fuller unit
//! first, and of two equally full the one with the lower identifier.
//!
//! The order is fixed by the units alone, so that of two units that want
//! the same cell the same one gets it whenever the turn is planned.

use vstd::prelude::*;
use crate::data::Ship;

verus! {

/// Whether `a` is served strictly before `b`.
pub open spec fn outranks(a: Ship, b: Ship) -> bool {
    a.halite > b.halite || (a.halite == b.halite && a.id < b.id)
}

/// Whether `a` is served strictly before `b`.
pub fn ranks_before(a: &Ship, b: &Ship) -> (first: bool)
    ensures
        first == outranks(*a, *b),
{
    a.halite > b.halite || (a.halite == b.halite && a.id < b.id)
}

/// Of two units with different identifiers exactly one outranks the other,
/// whichever is named first; no unit outranks itself; and the order is
/// transitive.
pub proof fn lemma_outranks_total(a: Ship, b: Ship, c: Ship)
    ensures
        a.id != b.id ==> (outranks(a, b) <==> !outranks(b, a)),
        !outranks(a, a),
        outranks(a, b) && outranks(b, c) ==> outranks(a, c),
{
}

/// The ranked list `sorted` with `x` added: behind every unit that `x` does
/// not outrank.
pub open spec fn insert_ranked(sorted: Seq<Ship>, x: Ship) -> Seq<Ship>
    decreases sorted.len(),
{
    if sorted.len() == 0 {
        seq![x]
    } else if outranks(x, sorted.last()) {
        insert_ranked(sorted.drop_last(), x).push(sorted.last())
    } else {
        sorted.push(x)
    }
}

/// The units in the order in which they are served. Units that neither
/// outranks the other keep the order in which they are listed.
pub open spec fn spec_rank(ships: Seq<Ship>) -> Seq<Ship>
    decreases ships.len(),
{
    if ships.len() == 0 {
        Seq::empty()
    } else {
        insert_ranked(spec_rank(ships.drop_last()), ships.last())
    }
}

/// Whether no unit of the list is outranked by a later one.
pub open spec fn is_ranked(s: Seq<Ship>) -> bool {
    forall|i: int, j: int| 0 <= i < j < s.len() ==> !outranks(s[j], s[i])
}

/// Adding `x` to a ranked list puts it at place `p`, where `x` outranks
/// every unit from `p` on and not the one before.
pub proof fn lemma_insert_at(sorted: Seq<Ship>, x: Ship, p: int)
    requires
        0 <= p <= sorted.len(),
        forall|k: int| p <= k < sorted.len() ==> outranks(x, #[trigger] sorted[k]),
        p > 0 ==> !outranks(x, sorted[p - 1]),
    ensures
        insert_ranked(sorted, x) == sorted.insert(p, x),
    decreases sorted.len(),
{
    if sorted.len() == 0 {
        assert(sorted.insert(p, x) =~= seq![x]);
    } else if p == sorted.len() {
        assert(sorted.insert(p, x) =~= sorted.push(x));
    } else {
        let rest = sorted.drop_last();
        assert(outranks(x, sorted[sorted.len() - 1]));
        assert forall|k: int| p <= k < rest.len() implies outranks(x, #[trigger] rest[k]) by {
            assert(rest[k] == sorted[k]);
        }
        lemma_insert_at(rest, x, p);
        assert(rest.insert(p, x).push(sorted.last()) =~= sorted.insert(p, x));
    }
}

/// Adding a unit to a ranked list gives a ranked list with the same units
/// and the new one.
pub proof fn lemma_insert_ranked(sorted: Seq<Ship>, x: Ship)
    requires
        is_ranked(sorted),
    ensures
        is_ranked(insert_ranked(sorted, x)),
        insert_ranked(sorted, x).len() == sorted.len() + 1,
        insert_ranked(sorted, x).to_multiset() == sorted.to_multiset().insert(x),
    decreases sorted.len(),
{
    broadcast use vstd::seq_lib::group_to_multiset_ensures;

    let out = insert_ranked(sorted, x);
    if sorted.len() == 0 {
        assert(sorted =~= Seq::<Ship>::empty());
        assert(out =~= Seq::<Ship>::empty().push(x));
    } else if outranks(x, sorted.last()) {
        let rest = sorted.drop_last();
        let last = sorted.last();
        assert(is_ranked(rest)) by {
            assert forall|i: int, j: int| 0 <= i < j < rest.len() implies !outranks(
                rest[j],
                rest[i],
            ) by {
                assert(rest[i] == sorted[i] && rest[j] == sorted[j]);
            }
        }
        lemma_insert_ranked(rest, x);
        let inner = insert_ranked(rest, x);
        assert(out == inner.push(last));
        assert(sorted =~= rest.push(last));
        assert forall|i: int, j: int| 0 <= i < j < out.len() implies !outranks(out[j], out[i]) by {
            if j < inner.len() {
                assert(out[i] == inner[i] && out[j] == inner[j]);
            } else {
                assert(out[j] == last);
                assert(out[i] == inner[i]);
                assert(inner.to_multiset().count(inner[i]) > 0);
                if inner[i] == x {
                } else {
                    assert(rest.to_multiset().count(inner[i]) > 0);
                    let k = choose|k: int| 0 <= k < rest.len() && rest[k] == inner[i];
                    assert(sorted[k] == inner[i]);
                    assert(!outranks(sorted[sorted.len() - 1], sorted[k]));
                }
            }
        }
    } else {
        assert forall|i: int, j: int| 0 <= i < j < out.len() implies !outranks(out[j], out[i]) by {
            if j < sorted.len() {
                assert(out[i] == sorted[i] && out[j] == sorted[j]);
            } else {
                assert(out[j] == x);
                assert(out[i] == sorted[i]);
                assert(!outranks(sorted[sorted.len() - 1], sorted[i]));
            }
        }
    }
}

/// The ranked units are the units, each as often as listed, and none of
/// them is outranked by a later one.
pub proof fn lemma_rank(ships: Seq<Ship>)
    ensures
        is_ranked(spec_rank(ships)),
        spec_rank(ships).len() == ships.len(),
        spec_rank(ships).to_multiset() == ships.to_multiset(),
    decreases ships.len(),
{
    broadcast use vstd::seq_lib::group_to_multiset_ensures;

    if ships.len() == 0 {
        assert(ships =~= Seq::<Ship>::empty());
    } else {
        lemma_rank(ships.drop_last());
        lemma_insert_ranked(spec_rank(ships.drop_last()), ships.last());
        assert(ships =~= ships.drop_last().push(ships.last()));
    }
}

/// Whether no two units of the list share an identifier.
pub open spec fn distinct_ids(s: Seq<Ship>) -> bool {
    forall|i: int, j: int| 0 <= i < j < s.len() ==> s[i].id != s[j].id
}

/// Tells whether no two units of the list share an identifier.
pub fn ids_distinct(ships: &Vec<Ship>) -> (ok: bool)
    ensures
        ok == distinct_ids(ships@),
{
    let mut j: usize = 0;
    while j < ships.len()
        invariant
            0 <= j <= ships@.len(),
            forall|a: int, b: int| 0 <= a < b < j ==> ships@[a].id != ships@[b].id,
        decreases ships@.len() - j,
    {
        let mut i: usize = 0;
        while i < j
            invariant
                0 <= i <= j < ships@.len(),
                forall|a: int| 0 <= a < i ==> ships@[a].id != ships@[j as int].id,
            decreases j - i,
        {
            if ships[i].id == ships[j].id {
                return false;
            }
            i += 1;
        }
        j += 1;
    }
    true
}

/// A unit that is added to a ranked list takes some place in it, and the
/// units of the list keep their order.
pub proof fn lemma_insert_somewhere(sorted: Seq<Ship>, x: Ship) -> (p: int)
    ensures
        0 <= p <= sorted.len(),
        insert_ranked(sorted, x) == sorted.insert(p, x),
    decreases sorted.len(),
{
    if sorted.len() == 0 {
        assert(sorted.insert(0, x) =~= seq![x]);
        0
    } else if outranks(x, sorted.last()) {
        let rest = sorted.drop_last();
        let p = lemma_insert_somewhere(rest, x);
        assert(rest.insert(p, x).push(sorted.last()) =~= sorted.insert(p, x));
        p
    } else {
        assert(sorted.insert(sorted.len() as int, x) =~= sorted.push(x));
        sorted.len() as int
    }
}

/// Every ranked unit is one of the units; and where no two units share an
/// identifier, no two ranked units do.
pub proof fn lemma_rank_distinct(ships: Seq<Ship>)
    ensures
        forall|k: int|
            0 <= k < spec_rank(ships).len() ==> exists|i: int|
                0 <= i < ships.len() && ships[i] == #[trigger] spec_rank(ships)[k],
        distinct_ids(ships) ==> distinct_ids(spec_rank(ships)),
    decreases ships.len(),
{
    if ships.len() > 0 {
        let rest = ships.drop_last();
        let x = ships.last();
        let r = spec_rank(rest);
        lemma_rank_distinct(rest);
        let p = lemma_insert_somewhere(r, x);
        let out = spec_rank(ships);
        assert(out == r.insert(p, x));
        assert forall|k: int| 0 <= k < out.len() implies exists|i: int|
            0 <= i < ships.len() && ships[i] == #[trigger] out[k] by {
            if k == p {
                assert(ships[ships.len() - 1] == out[k]);
            } else {
                let k0 = if k < p {
                    k
                } else {
                    k - 1
                };
                assert(out[k] == r[k0]);
                let i = choose|i: int| 0 <= i < rest.len() && rest[i] == #[trigger] r[k0];
                assert(ships[i] == out[k]);
            }
        }
        if distinct_ids(ships) {
            assert(distinct_ids(rest)) by {
                assert forall|i: int, j: int| 0 <= i < j < rest.len() implies rest[i].id
                    != rest[j].id by {
                    assert(rest[i] == ships[i] && rest[j] == ships[j]);
                }
            }
            assert forall|k: int| 0 <= k < r.len() implies (#[trigger] r[k]).id != x.id by {
                let i = choose|i: int| 0 <= i < rest.len() && rest[i] == #[trigger] r[k];
                assert(ships[i].id != ships[ships.len() - 1].id);
            }
            assert forall|i: int, j: int| 0 <= i < j < out.len() implies out[i].id != out[j].id by {
                let i0 = if i < p {
                    i
                } else {
                    i - 1
                };
                let j0 = if j < p {
                    j
                } else {
                    j - 1
                };
                if i == p {
                    assert(out[j] == r[j0]);
                } else if j == p {
                    assert(out[i] == r[i0]);
                } else {
                    assert(out[i] == r[i0] && out[j] == r[j0]);
                }
            }
        }
    }
}

/// Puts the units in the order in which they are served.
pub fn rank(ships: &Vec<Ship>) -> (ranked: Vec<Ship>)
    ensures
        ranked@ == spec_rank(ships@),
{
    let mut ranked: Vec<Ship> = Vec::new();
    let mut i: usize = 0;
    while i < ships.len()
        invariant
            0 <= i <= ships@.len(),
            ranked@ == spec_rank(ships@.take(i as int)),
            ranked@.len() == i,
        decreases ships@.len() - i,
    {
        let x = ships[i];
        let mut p: usize = ranked.len();
        while p > 0 && ranks_before(&x, &ranked[p - 1])
            invariant
                0 <= p <= ranked@.len(),
                forall|k: int| p <= k < ranked@.len() ==> outranks(x, #[trigger] ranked@[k]),
            decreases p,
        {
            p -= 1;
        }
        proof {
            lemma_insert_at(ranked@, x, p as int);
            assert(ships@.take(i as int + 1).drop_last() =~= ships@.take(i as int));
            assert(ships@.take(i as int + 1).last() == x);
        }
        ranked.insert(p, x);
        i += 1;
    }
    assert(ships@.take(i as int) =~= ships@);
    ranked
}

} // verus!

//! Hash tables and hash sets that hash with the `fnv` crate's `FnvHasher`.
//!
//! The verifier knows std's `HashMap` and `HashSet` only for hashers it has
//! been told are deterministic. `FnvHasher` starts from a fixed basis and
//! folds the bytes of a key in one after the other, so equal keys always
//! hash alike. The contracts below say of each operation what std documents
//! for a map or a set with such a hasher. Nothing here is proved.

use vstd::prelude::*;
use vstd::std_specs::hash::obeys_key_model;
use std::collections::HashMap;
use std::collections::HashSet;
use std::hash::BuildHasherDefault;
use std::hash::Hash;
use fnv::FnvHasher;

verus! {

/// `fnv::FnvHasher`, whose inside the verifier does not see.
#[verifier::external_type_specification]
#[verifier::external_body]
pub struct ExFnvHasher(FnvHasher);

/// `std::hash::BuildHasherDefault`, which makes a hasher by `Default`.
#[verifier::external_type_specification]
#[verifier::external_body]
#[verifier::reject_recursive_types(H)]
pub struct ExBuildHasherDefault<H>(BuildHasherDefault<H>);

/// A hash map with fnv's hasher: `fnv::FnvHashMap`.
pub type Table<K, V> = HashMap<K, V, BuildHasherDefault<FnvHasher>>;

/// A hash set with fnv's hasher: `fnv::FnvHashSet`.
pub type Roster<K> = HashSet<K, BuildHasherDefault<FnvHasher>>;

/// `HashMap::insert` on a table: the key now maps to the value, every other
/// entry is as before, and the value that the key had comes back.
#[verifier::external_body]
pub(crate) fn table_insert<K: Eq + Hash, V>(m: &mut Table<K, V>, k: K, v: V) -> (prev: Option<V>)
    requires
        obeys_key_model::<K>(),
    ensures
        final(m)@ == old(m)@.insert(k, v),
        prev == (if old(m)@.contains_key(k) {
            Some(old(m)@[k])
        } else {
            None
        }),
{
    m.insert(k, v)
}

/// `HashMap::get` on a table: the value of the key, if it has one.
#[verifier::external_body]
pub(crate) fn table_get<'a, K: Eq + Hash, V>(m: &'a Table<K, V>, k: &K) -> (found: Option<&'a V>)
    requires
        obeys_key_model::<K>(),
    ensures
        found == (if m@.contains_key(*k) {
            Some(&m@[*k])
        } else {
            None
        }),
{
    m.get(k)
}

/// `HashMap::remove` on a table: the key has no value afterwards, every
/// other entry is as before, and the value that the key had comes back.
#[verifier::external_body]
pub(crate) fn table_remove<K: Eq + Hash, V>(m: &mut Table<K, V>, k: &K) -> (prev: Option<V>)
    requires
        obeys_key_model::<K>(),
    ensures
        final(m)@ == old(m)@.remove(*k),
        prev == (if old(m)@.contains_key(*k) {
            Some(old(m)@[*k])
        } else {
            None
        }),
{
    m.remove(k)
}

/// `HashMap::retain` on a table: `keep` is asked once about every entry; the
/// entries it accepts stay as they are and the others are removed.
#[verifier::external_body]
pub(crate) fn table_retain<K: Eq + Hash, V, F: Fn(&K, &V) -> bool>(m: &mut Table<K, V>, keep: F)
    requires
        obeys_key_model::<K>(),
        forall|k: K| old(m)@.contains_key(k) ==> call_requires(keep, (&k, &old(m)@[k])),
    ensures
        forall|k: K|
            #![trigger final(m)@.contains_key(k)]
            final(m)@.contains_key(k) ==> old(m)@.contains_key(k) && final(m)@[k] == old(m)@[k]
                && call_ensures(keep, (&k, &old(m)@[k]), true),
        forall|k: K|
            #![trigger final(m)@.contains_key(k)]
            old(m)@.contains_key(k) && !final(m)@.contains_key(k) ==> call_ensures(
                keep,
                (&k, &old(m)@[k]),
                false,
            ),
{
    m.retain(|k, v| keep(k, v))
}

/// `HashSet::insert` on a roster: the key is a member afterwards, and the
/// result says whether it was new.
#[verifier::external_body]
pub(crate) fn roster_insert<K: Eq + Hash>(s: &mut Roster<K>, k: K) -> (fresh: bool)
    requires
        obeys_key_model::<K>(),
    ensures
        final(s)@ == old(s)@.insert(k),
        fresh == !old(s)@.contains(k),
{
    s.insert(k)
}

/// `HashSet::remove` on a roster: the key is no member afterwards, and the
/// result says whether it was one.
#[verifier::external_body]
pub(crate) fn roster_remove<K: Eq + Hash>(s: &mut Roster<K>, k: &K) -> (was: bool)
    requires
        obeys_key_model::<K>(),
    ensures
        final(s)@ == old(s)@.remove(*k),
        was == old(s)@.contains(*k),
{
    s.remove(k)
}

/// `HashSet::contains` on a roster: whether the key is a member.
#[verifier::external_body]
pub(crate) fn roster_contains<K: Eq + Hash>(s: &Roster<K>, k: &K) -> (is: bool)
    requires
        obeys_key_model::<K>(),
    ensures
        is == s@.contains(*k),
{
    s.contains(k)
}

} // verus!

//! What the library relies on from the `fixedbitset` crate. Nothing here is
//! proved: each contract is read off that crate's source.

use vstd::prelude::*;
use fixedbitset::FixedBitSet;

verus! {

/// `fixedbitset::FixedBitSet`, whose inside the verifier does not see.
#[verifier::external_type_specification]
#[verifier::external_body]
pub struct ExFixedBitSet(FixedBitSet);

/// The bits of a set, in order: as many as the set was made for, each
/// enabled or not.
pub uninterp spec fn bits(s: FixedBitSet) -> Seq<bool>;

/// `FixedBitSet::with_capacity`: a set of `n` bits, all of them clear.
pub assume_specification[ FixedBitSet::with_capacity ](n: usize) -> (s: FixedBitSet)
    ensures
        bits(s) == Seq::new(n as nat, |i: int| false),
;

/// `FixedBitSet::put`: enables one bit and leaves the others, and returns
/// what the bit was before. It panics on an index past the end, which the
/// precondition leaves out.
pub assume_specification[ FixedBitSet::put ](s: &mut FixedBitSet, bit: usize) -> (prev: bool)
    requires
        bit < bits(*old(s)).len(),
    ensures
        bits(*final(s)) == bits(*old(s)).update(bit as int, true),
        prev == bits(*old(s))[bit as int],
;

/// `FixedBitSet::contains`: whether the bit is enabled; a bit past the end
/// counts as clear.
pub assume_specification[ FixedBitSet::contains ](s: &FixedBitSet, bit: usize) -> (b: bool)
    ensures
        b == (bit < bits(*s).len() && bits(*s)[bit as int]),
;

} // verus!

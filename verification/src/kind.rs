//! Crust kinds and plate-pair keys.
use vstd::prelude::*;

verus! {

/// The two kinds of crust a parcel can carry.
#[derive(Clone, Copy, PartialEq, Eq, Debug, Structural)]
pub enum Kind {
    Oceanic,
    Continental,
}

/// The unordered key of a plate pair: the smaller id first.
pub open spec fn spec_pair_key(a: u32, b: u32) -> (u32, u32) {
    if a <= b { (a, b) } else { (b, a) }
}

/// Key under which the per-pair tables (polarity, shortening, ...) store the pair `{a, b}`.
pub fn pair_key(a: u32, b: u32) -> (k: (u32, u32))
    ensures
        k == spec_pair_key(a, b),
{
    if a <= b { (a, b) } else { (b, a) }
}

/// A plate pair has one key, whichever plate is named first, and its first id is the smaller.
pub proof fn lemma_pair_key_symmetric(a: u32, b: u32)
    ensures
        spec_pair_key(a, b) == spec_pair_key(b, a),
        spec_pair_key(a, b).0 <= spec_pair_key(a, b).1,
        (spec_pair_key(a, b).0 == a && spec_pair_key(a, b).1 == b) || (spec_pair_key(a, b).0 == b
            && spec_pair_key(a, b).1 == a),
{
}

} // verus!

//! Moving parcels between plates: a split or a detaching arc hands a set of parcels to a new
//! plate, and a retiring arc plate gives its parcels back to its parent.
use crate::census::{count_upto, lemma_count_upto_le};
use crate::kind::Kind;
use vstd::prelude::*;

verus! {

/// Parcel `i` is among the first `n` entries of `moved`.
pub open spec fn listed(moved: Seq<usize>, n: int, i: int) -> bool {
    exists|t: int| 0 <= t < n && #[trigger] moved[t] as int == i
}

/// Entry `t` of `moved` names a continental parcel.
pub open spec fn moved_continental(moved: Seq<usize>, kind: Seq<Kind>) -> spec_fn(int) -> bool {
    |t: int| kind[moved[t] as int] == Kind::Continental
}

/// Hand the parcels listed in `moved` to plate `to`; every other parcel keeps its plate.
/// Returns how many entries of `moved` name a continental parcel.
pub fn hand_over(plate: &mut Vec<u32>, moved: &Vec<usize>, kind: &Vec<Kind>, to: u32) -> (n_cont:
    usize)
    requires
        kind@.len() == old(plate)@.len(),
        forall|t: int| 0 <= t < moved@.len() ==> #[trigger] moved@[t] < old(plate)@.len(),
    ensures
        final(plate)@.len() == old(plate)@.len(),
        forall|i: int|
            0 <= i < old(plate)@.len() ==> #[trigger] final(plate)@[i] == if listed(
                moved@,
                moved@.len() as int,
                i,
            ) {
                to
            } else {
                old(plate)@[i]
            },
        n_cont == count_upto(moved@.len(), moved_continental(moved@, kind@)),
{
    let ghost start = plate@;
    let mut n_cont: usize = 0;
    let mut t: usize = 0;
    while t < moved.len()
        invariant
            t <= moved@.len(),
            plate@.len() == start.len(),
            kind@.len() == start.len(),
            forall|s: int| 0 <= s < moved@.len() ==> #[trigger] moved@[s] < start.len(),
            forall|i: int|
                0 <= i < start.len() ==> #[trigger] plate@[i] == if listed(moved@, t as int, i) {
                    to
                } else {
                    start[i]
                },
            n_cont == count_upto(t as nat, moved_continental(moved@, kind@)),
        decreases moved@.len() - t,
    {
        let k = moved[t];
        proof {
            lemma_count_upto_le(t as nat, moved_continental(moved@, kind@));
        }
        plate.set(k, to);
        if kind[k] == Kind::Continental {
            n_cont = n_cont + 1;
        }
        proof {
            assert forall|i: int| 0 <= i < start.len() implies #[trigger] plate@[i] == if listed(
                moved@,
                t + 1,
                i,
            ) {
                to
            } else {
                start[i]
            } by {
                if i == k as int {
                    assert(moved@[t as int] as int == i);
                } else {
                    if listed(moved@, t + 1, i) {
                        let s = choose|s: int| 0 <= s < t + 1 && #[trigger] moved@[s] as int == i;
                        assert(s < t);
                        assert(listed(moved@, t as int, i));
                    }
                    if listed(moved@, t as int, i) {
                        let s = choose|s: int| 0 <= s < t && #[trigger] moved@[s] as int == i;
                        assert(listed(moved@, t + 1, i));
                    }
                }
            }
        }
        t = t + 1;
    }
    n_cont
}

/// Every live parcel of plate `from` joins plate `to`; every other parcel keeps its plate.
pub fn relabel(plate: &mut Vec<u32>, alive: &Vec<bool>, from: u32, to: u32)
    requires
        alive@.len() == old(plate)@.len(),
    ensures
        final(plate)@.len() == old(plate)@.len(),
        forall|i: int|
            0 <= i < old(plate)@.len() ==> #[trigger] final(plate)@[i] == if alive@[i] && old(
                plate,
            )@[i] == from {
                to
            } else {
                old(plate)@[i]
            },
{
    let ghost start = plate@;
    let mut i: usize = 0;
    while i < plate.len()
        invariant
            i <= plate@.len(),
            plate@.len() == start.len(),
            alive@.len() == start.len(),
            forall|j: int|
                0 <= j < start.len() ==> #[trigger] plate@[j] == if j < i && alive@[j] && start[j]
                    == from {
                    to
                } else {
                    start[j]
                },
        decreases plate@.len() - i,
    {
        if alive[i] && plate[i] == from {
            plate.set(i, to);
        }
        i = i + 1;
    }
}

} // verus!

//! Cleanup of per-pair and per-arc records after welds and dissolutions: a record survives only
//! while the plates it names are alive (and, for a pair, distinct).
use vstd::prelude::*;

verus! {

broadcast use vstd::seq_lib::group_seq_properties;

/// The pair `(a, b)` names two distinct live plates.
pub open spec fn live_pair(alive: Seq<bool>, a: u32, b: u32) -> bool {
    a != b && alive[a as int] && alive[b as int]
}

/// A pair record `((a, b), value)` survives.
pub open spec fn keeps_pair<V>(alive: Seq<bool>) -> spec_fn(((u32, u32), V)) -> bool {
    |e: ((u32, u32), V)| live_pair(alive, e.0.0, e.0.1)
}

/// An arc record `(arc, parent, lower, value)` survives: all three plates are alive.
pub open spec fn keeps_arc<V>(alive: Seq<bool>) -> spec_fn((u32, u32, u32, V)) -> bool {
    |e: (u32, u32, u32, V)| alive[e.0 as int] && alive[e.1 as int] && alive[e.2 as int]
}

/// Keep, in order, exactly the pair records whose two plates are distinct and alive.
pub fn prune_pairs<V: Copy>(entries: &Vec<((u32, u32), V)>, alive: &Vec<bool>) -> (kept: Vec<
    ((u32, u32), V),
>)
    requires
        forall|i: int|
            0 <= i < entries@.len() ==> (#[trigger] entries@[i]).0.0 < alive@.len()
                && entries@[i].0.1 < alive@.len(),
    ensures
        kept@ == entries@.filter(keeps_pair::<V>(alive@)),
        forall|i: int|
            0 <= i < kept@.len() ==> live_pair(alive@, (#[trigger] kept@[i]).0.0, kept@[i].0.1),
{
    let mut kept: Vec<((u32, u32), V)> = Vec::new();
    let mut i: usize = 0;
    while i < entries.len()
        invariant
            i <= entries@.len(),
            forall|j: int|
                0 <= j < entries@.len() ==> (#[trigger] entries@[j]).0.0 < alive@.len()
                    && entries@[j].0.1 < alive@.len(),
            kept@ == entries@.take(i as int).filter(keeps_pair::<V>(alive@)),
        decreases entries@.len() - i,
    {
        let e = entries[i];
        let (a, b) = e.0;
        proof {
            assert(entries@.take(i + 1) == entries@.take(i as int).push(entries@[i as int]));
            entries@.take(i as int).lemma_filter_push(entries@[i as int], keeps_pair::<V>(alive@));
        }
        if a != b && alive[a as usize] && alive[b as usize] {
            kept.push(e);
        }
        i = i + 1;
    }
    proof {
        assert(entries@.take(entries@.len() as int) == entries@);
        assert forall|i: int| 0 <= i < kept@.len() implies live_pair(
            alive@,
            (#[trigger] kept@[i]).0.0,
            kept@[i].0.1,
        ) by {
            entries@.lemma_filter_pred(keeps_pair::<V>(alive@), i);
        }
    }
    kept
}

/// Keep, in order, exactly the arc records whose arc, parent and lower plates are all alive.
pub fn prune_arcs<V: Copy>(entries: &Vec<(u32, u32, u32, V)>, alive: &Vec<bool>) -> (kept: Vec<
    (u32, u32, u32, V),
>)
    requires
        forall|i: int|
            0 <= i < entries@.len() ==> (#[trigger] entries@[i]).0 < alive@.len() && entries@[i].1
                < alive@.len() && entries@[i].2 < alive@.len(),
    ensures
        kept@ == entries@.filter(keeps_arc::<V>(alive@)),
        forall|i: int|
            0 <= i < kept@.len() ==> {
                let e = #[trigger] kept@[i];
                alive@[e.0 as int] && alive@[e.1 as int] && alive@[e.2 as int]
            },
{
    let mut kept: Vec<(u32, u32, u32, V)> = Vec::new();
    let mut i: usize = 0;
    while i < entries.len()
        invariant
            i <= entries@.len(),
            forall|j: int|
                0 <= j < entries@.len() ==> (#[trigger] entries@[j]).0 < alive@.len() && entries@[j].1
                    < alive@.len() && entries@[j].2 < alive@.len(),
            kept@ == entries@.take(i as int).filter(keeps_arc::<V>(alive@)),
        decreases entries@.len() - i,
    {
        let e = entries[i];
        proof {
            assert(entries@.take(i + 1) == entries@.take(i as int).push(entries@[i as int]));
            entries@.take(i as int).lemma_filter_push(entries@[i as int], keeps_arc::<V>(alive@));
        }
        if alive[e.0 as usize] && alive[e.1 as usize] && alive[e.2 as usize] {
            kept.push(e);
        }
        i = i + 1;
    }
    proof {
        assert(entries@.take(entries@.len() as int) == entries@);
        assert forall|i: int| 0 <= i < kept@.len() implies {
            let e = #[trigger] kept@[i];
            alive@[e.0 as int] && alive@[e.1 as int] && alive@[e.2 as int]
        } by {
            entries@.lemma_filter_pred(keeps_arc::<V>(alive@), i);
        }
    }
    kept
}

} // verus!

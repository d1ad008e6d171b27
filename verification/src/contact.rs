//! What happens at a convergent contact: which plate subducts, when subduction starts, and what
//! becomes of a parcel of the lower plate that closes on the upper plate.
use crate::kind::Kind;
use vstd::prelude::*;

verus! {

/// The plate that goes down when a subduction zone first forms between plate `a` (parcel of
/// kind `kind_a`) and plate `b`: ocean goes under continent; between two oceans the older
/// lithosphere goes down (`a_not_younger`: the parcel of `a` was born no later than that of `b`);
/// between two continents the plate with fewer parcels goes down.
pub open spec fn spec_subducting_plate(
    a: u32,
    b: u32,
    kind_a: Kind,
    kind_b: Kind,
    a_not_younger: bool,
    n_a: usize,
    n_b: usize,
) -> u32 {
    match (kind_a, kind_b) {
        (Kind::Oceanic, Kind::Continental) => a,
        (Kind::Continental, Kind::Oceanic) => b,
        (Kind::Oceanic, Kind::Oceanic) => if a_not_younger {
            a
        } else {
            b
        },
        (Kind::Continental, Kind::Continental) => if n_a <= n_b {
            a
        } else {
            b
        },
    }
}

/// Lower plate of a new subduction zone.
pub fn subducting_plate(
    a: u32,
    b: u32,
    kind_a: Kind,
    kind_b: Kind,
    a_not_younger: bool,
    n_a: usize,
    n_b: usize,
) -> (lower: u32)
    ensures
        lower == spec_subducting_plate(a, b, kind_a, kind_b, a_not_younger, n_a, n_b),
        lower == a || lower == b,
        kind_a == Kind::Oceanic && kind_b == Kind::Continental ==> lower == a,
        kind_a == Kind::Continental && kind_b == Kind::Oceanic ==> lower == b,
        kind_a == Kind::Oceanic && kind_b == Kind::Oceanic ==> lower == (if a_not_younger {
            a
        } else {
            b
        }),
        kind_a == Kind::Continental && kind_b == Kind::Continental ==> {
            &&& n_a < n_b ==> lower == a
            &&& n_b < n_a ==> lower == b
            &&& n_a == n_b ==> lower == a
        },
{
    match (kind_a, kind_b) {
        (Kind::Oceanic, Kind::Continental) => a,
        (Kind::Continental, Kind::Oceanic) => b,
        (Kind::Oceanic, Kind::Oceanic) => if a_not_younger {
            a
        } else {
            b
        },
        (Kind::Continental, Kind::Continental) => if n_a <= n_b {
            a
        } else {
            b
        },
    }
}

/// Oceanic lithosphere always goes under continental lithosphere, whichever plate is named first.
pub proof fn lemma_ocean_under_continent(a: u32, b: u32, older: bool, n_a: usize, n_b: usize)
    ensures
        spec_subducting_plate(a, b, Kind::Oceanic, Kind::Continental, older, n_a, n_b) == a,
        spec_subducting_plate(b, a, Kind::Continental, Kind::Oceanic, !older, n_b, n_a) == a,
{
}

/// Fate of the lower-plate parcel at a closing contact.
#[derive(Clone, Copy, PartialEq, Eq, Debug, Structural)]
pub enum Fate {
    /// Nothing is consumed.
    Keep,
    /// Oceanic lithosphere goes down the trench.
    Subduct,
    /// The collision belt has locked: the connected continental block jumps to the upper plate.
    AccreteBlock,
    /// Continent-continent collision: the parcel is absorbed and thickens the belt.
    Absorb,
    /// A thin isolated continental sliver goes down with the slab.
    LoseSliver,
    /// A continent docks onto the upper plate; the oceanic crust it overrides is obducted.
    Dock,
}

/// Everything the state of a convergent contact decides for one lower-plate candidate parcel.
#[derive(Clone, Copy, PartialEq, Eq, Debug, Structural)]
pub struct ContactStep {
    /// This contact takes up compression this step (no subduction zone yet).
    pub compress: bool,
    /// A subduction zone starts here, with this plate going down.
    pub establish: Option<u32>,
    /// The upper plate above this trench segment gets arc volcanism.
    pub arc: bool,
    pub fate: Fate,
}

/// The observations about one contact between parcel `i` (plate `a`) and its nearest parcel `j`
/// across the boundary (plate `b`).
#[derive(Clone, Copy, PartialEq, Eq, Debug, Structural)]
pub struct ContactFacts {
    pub a: u32,
    pub b: u32,
    pub kind_a: Kind,
    pub kind_b: Kind,
    /// Closing faster than the convergence threshold.
    pub converging: bool,
    /// The parcels overlap enough to consume the lower one.
    pub closing: bool,
    /// Recorded polarity of the pair, if any.
    pub polarity: Option<u32>,
    /// Parcel `i` was born no later than parcel `j`.
    pub a_not_younger: bool,
    /// Parcel counts of the two plates.
    pub n_a: usize,
    pub n_b: usize,
    /// Each parcel is oceanic crust old enough to start subducting after a little compression.
    pub a_old_enough: bool,
    pub b_old_enough: bool,
    /// An established trench lies within reach (subduction spreads along a margin).
    pub near_trench: bool,
    /// Accumulated shortening at this contact has reached the small threshold / the forcing one.
    pub shortened_some: bool,
    pub shortened_enough: bool,
    /// Collisional shortening of the pair has reached the lock-up length.
    pub locked: bool,
    /// Parcel `i` is thin continental crust with no normal continental crust attached.
    pub thin_isolated: bool,
}

/// Whether subduction starts at a compressed contact whose would-be lower plate is `lower`.
pub open spec fn spec_initiates(f: ContactFacts, lower: u32) -> bool {
    let cc = f.kind_a == Kind::Continental && f.kind_b == Kind::Continental;
    let lower_kind = if lower == f.a {
        f.kind_a
    } else {
        f.kind_b
    };
    let lower_old = if lower == f.a {
        f.a_old_enough
    } else {
        f.b_old_enough
    };
    let old_enough = lower_kind == Kind::Oceanic && lower_old;
    cc || f.near_trench || (old_enough && f.shortened_some) || f.shortened_enough
}

/// Fate of parcel `i` once it is known to be on the lower plate.
pub open spec fn spec_fate(f: ContactFacts) -> Fate {
    if !f.closing {
        Fate::Keep
    } else if f.kind_a == Kind::Oceanic {
        Fate::Subduct
    } else if !f.converging {
        Fate::Keep
    } else if f.kind_b == Kind::Continental && f.locked {
        Fate::AccreteBlock
    } else if f.kind_b == Kind::Continental {
        Fate::Absorb
    } else if f.thin_isolated {
        Fate::LoseSliver
    } else {
        Fate::Dock
    }
}

pub open spec fn quiet() -> ContactStep {
    ContactStep { compress: false, establish: None, arc: false, fate: Fate::Keep }
}

/// The contact rules for parcel `i` of plate `a` against plate `b`.
pub open spec fn spec_contact_step(f: ContactFacts) -> ContactStep {
    if f.a == f.b {
        quiet()
    } else {
        let (sub, compress, establish) = match f.polarity {
            Some(sp) => (Some(sp), false, None),
            None => if !f.converging {
                (None, false, None)
            } else {
                let lower = spec_subducting_plate(
                    f.a,
                    f.b,
                    f.kind_a,
                    f.kind_b,
                    f.a_not_younger,
                    f.n_a,
                    f.n_b,
                );
                if spec_initiates(f, lower) {
                    (Some(lower), true, Some(lower))
                } else {
                    (None, true, None)
                }
            },
        };
        match sub {
            Some(s) => if s == f.a {
                ContactStep {
                    compress,
                    establish,
                    arc: f.kind_a == Kind::Oceanic && f.converging,
                    fate: spec_fate(f),
                }
            } else {
                ContactStep { compress, establish, arc: false, fate: Fate::Keep }
            },
            None => ContactStep { compress, establish, arc: false, fate: Fate::Keep },
        }
    }
}

/// Apply the contact rules to one contact.
pub fn contact_step(f: ContactFacts) -> (r: ContactStep)
    ensures
        r == spec_contact_step(f),
        f.a != f.b && f.kind_a == Kind::Continental && f.kind_b == Kind::Continental && f.converging
            && f.polarity is None ==> {
            &&& r.compress
            &&& r.establish == Some(if f.n_a <= f.n_b { f.a } else { f.b })
            &&& f.n_a <= f.n_b && f.closing && !f.locked ==> r.fate == Fate::Absorb
            &&& f.n_a <= f.n_b && f.closing && f.locked ==> r.fate == Fate::AccreteBlock
            &&& f.n_b < f.n_a ==> r.fate == Fate::Keep
        },
{
    if f.a == f.b {
        return ContactStep { compress: false, establish: None, arc: false, fate: Fate::Keep };
    }
    let mut compress = false;
    let mut establish: Option<u32> = None;
    let sub = match f.polarity {
        Some(sp) => sp,
        None => {
            if !f.converging {
                return ContactStep { compress: false, establish: None, arc: false, fate: Fate::Keep };
            }
            compress = true;
            let lower = subducting_plate(f.a, f.b, f.kind_a, f.kind_b, f.a_not_younger, f.n_a, f.n_b);
            let cc = f.kind_a == Kind::Continental && f.kind_b == Kind::Continental;
            let (lower_kind, lower_old) = if lower == f.a {
                (f.kind_a, f.a_old_enough)
            } else {
                (f.kind_b, f.b_old_enough)
            };
            let old_enough = lower_kind == Kind::Oceanic && lower_old;
            let start = cc || f.near_trench || (old_enough && f.shortened_some) || f.shortened_enough;
            if !start {
                return ContactStep { compress: true, establish: None, arc: false, fate: Fate::Keep };
            }
            establish = Some(lower);
            lower
        },
    };
    if sub != f.a {
        return ContactStep { compress, establish, arc: false, fate: Fate::Keep };
    }
    let arc = f.kind_a == Kind::Oceanic && f.converging;
    let fate = if !f.closing {
        Fate::Keep
    } else if f.kind_a == Kind::Oceanic {
        Fate::Subduct
    } else if !f.converging {
        Fate::Keep
    } else if f.kind_b == Kind::Continental && f.locked {
        Fate::AccreteBlock
    } else if f.kind_b == Kind::Continental {
        Fate::Absorb
    } else if f.thin_isolated {
        Fate::LoseSliver
    } else {
        Fate::Dock
    };
    ContactStep { compress, establish, arc, fate }
}

/// Laws of the contact rules: a recorded polarity is never re-established (subduction is
/// forever); only the lower plate loses or gives up crust; continental crust goes down a trench
/// only as a thin isolated sliver; closing oceanic crust of the lower plate always goes down.
pub proof fn lemma_contact_laws(f: ContactFacts)
    ensures
        f.polarity is Some ==> spec_contact_step(f).establish is None && !spec_contact_step(f).compress,
        spec_contact_step(f).fate != Fate::Keep ==> (f.polarity == Some(f.a) || spec_contact_step(
            f,
        ).establish == Some(f.a)),
        spec_contact_step(f).fate == Fate::Subduct ==> f.kind_a == Kind::Oceanic,
        spec_contact_step(f).fate == Fate::LoseSliver ==> f.kind_a == Kind::Continental
            && f.thin_isolated,
        (f.a != f.b && f.polarity == Some(f.a) && f.closing && f.kind_a == Kind::Oceanic) ==> spec_contact_step(
            f,
        ).fate == Fate::Subduct,
        spec_contact_step(f).establish is Some ==> (spec_contact_step(f).establish == Some(f.a)
            || spec_contact_step(f).establish == Some(f.b)),
{
}

/// What a contact decides, rule by rule: a plate against itself, or a contact that neither has a
/// subduction zone nor converges, does nothing; a recorded polarity is never re-established and
/// takes no compression; a converging contact without one takes up compression and starts
/// subduction exactly when the crust is continental on both sides, a trench is near, the
/// shortening has reached the forcing threshold, or the would-be lower plate is old oceanic
/// lithosphere and some shortening has built up.
pub proof fn lemma_initiation_rules(f: ContactFacts)
    ensures
        f.a == f.b ==> spec_contact_step(f) == quiet(),
        f.a != f.b && f.polarity is None && !f.converging ==> spec_contact_step(f) == quiet(),
        f.a != f.b && f.polarity is Some ==> !spec_contact_step(f).compress && spec_contact_step(
            f,
        ).establish is None,
        f.a != f.b && f.polarity is None && f.converging ==> {
            let lower = spec_subducting_plate(f.a, f.b, f.kind_a, f.kind_b, f.a_not_younger, f.n_a, f.n_b);
            let lower_oceanic = if lower == f.a { f.kind_a == Kind::Oceanic } else { f.kind_b == Kind::Oceanic };
            let lower_old = if lower == f.a { f.a_old_enough } else { f.b_old_enough };
            &&& spec_contact_step(f).compress
            &&& spec_contact_step(f).establish is Some <==> (
                (f.kind_a == Kind::Continental && f.kind_b == Kind::Continental)
                || f.near_trench
                || f.shortened_enough
                || (lower_oceanic && lower_old && f.shortened_some))
            &&& spec_contact_step(f).establish is Some ==> spec_contact_step(f).establish == Some(lower)
            &&& f.kind_a == Kind::Oceanic && f.kind_b == Kind::Oceanic && f.near_trench ==> spec_contact_step(f).establish
                == Some(if f.a_not_younger { f.a } else { f.b })
            &&& f.kind_a == Kind::Oceanic && f.kind_b == Kind::Continental && (f.near_trench || f.shortened_enough)
                ==> spec_contact_step(f).establish == Some(f.a)
            &&& !f.near_trench && !f.shortened_enough && !f.shortened_some && !(f.kind_a == Kind::Continental
                && f.kind_b == Kind::Continental) ==> spec_contact_step(f).establish is None
        },
{
}

/// The fate of a parcel of plate `a` against plate `b` once `a` is the lower plate (recorded, or
/// chosen this step): nothing happens unless it closes; closing oceanic crust goes down; closing
/// continental crust that still converges is absorbed into a continental upper plate (or carried
/// over with its block once the belt has locked), or, against an oceanic upper plate, goes down as
/// a thin isolated sliver or else docks. The upper plate's parcel never changes, and arc
/// volcanism sits above oceanic lower-plate crust that converges.
pub proof fn lemma_fate_rules(f: ContactFacts)
    requires
        f.a != f.b,
    ensures
        ({
            let r = spec_contact_step(f);
            let lower_is_a = f.polarity == Some(f.a) || r.establish == Some(f.a);
            &&& !lower_is_a ==> r.fate == Fate::Keep && !r.arc
            &&& lower_is_a ==> r.arc == (f.kind_a == Kind::Oceanic && f.converging)
            &&& lower_is_a && !f.closing ==> r.fate == Fate::Keep
            &&& lower_is_a && f.closing && f.kind_a == Kind::Oceanic ==> r.fate == Fate::Subduct
            &&& lower_is_a && f.closing && f.kind_a == Kind::Continental && !f.converging ==> r.fate
                == Fate::Keep
            &&& lower_is_a && f.closing && f.kind_a == Kind::Continental && f.converging && f.kind_b
                == Kind::Continental && f.locked ==> r.fate == Fate::AccreteBlock
            &&& lower_is_a && f.closing && f.kind_a == Kind::Continental && f.converging && f.kind_b
                == Kind::Continental && !f.locked ==> r.fate == Fate::Absorb
            &&& lower_is_a && f.closing && f.kind_a == Kind::Continental && f.converging && f.kind_b
                == Kind::Oceanic && f.thin_isolated ==> r.fate == Fate::LoseSliver
            &&& lower_is_a && f.closing && f.kind_a == Kind::Continental && f.converging && f.kind_b
                == Kind::Oceanic && !f.thin_isolated ==> r.fate == Fate::Dock
        }),
{
}

/// Which plate goes down when a subduction zone first forms: an ocean always goes under a
/// continent; between two oceans the older lithosphere goes down; between two continents the plate
/// with fewer parcels goes down, the first named on a tie. The answer is one of the two plates, and
/// does not depend on which plate is named first (but for a tie).
pub proof fn lemma_lower_plate_choice(
    a: u32,
    b: u32,
    kind_a: Kind,
    kind_b: Kind,
    a_not_younger: bool,
    n_a: usize,
    n_b: usize,
)
    ensures
        ({
            let lower = spec_subducting_plate(a, b, kind_a, kind_b, a_not_younger, n_a, n_b);
            &&& lower == a || lower == b
            &&& kind_a == Kind::Oceanic && kind_b == Kind::Continental ==> lower == a
            &&& kind_a == Kind::Continental && kind_b == Kind::Oceanic ==> lower == b
            &&& kind_a == Kind::Oceanic && kind_b == Kind::Oceanic && a_not_younger ==> lower == a
            &&& kind_a == Kind::Oceanic && kind_b == Kind::Oceanic && !a_not_younger ==> lower == b
            &&& kind_a == Kind::Continental && kind_b == Kind::Continental && n_a < n_b ==> lower == a
            &&& kind_a == Kind::Continental && kind_b == Kind::Continental && n_b < n_a ==> lower == b
            &&& kind_a == Kind::Continental && kind_b == Kind::Continental && n_a == n_b ==> lower == a
        }),
        kind_a == Kind::Continental && kind_b == Kind::Continental && n_a != n_b ==> spec_subducting_plate(
            a,
            b,
            kind_a,
            kind_b,
            a_not_younger,
            n_a,
            n_b,
        ) == spec_subducting_plate(b, a, kind_b, kind_a, !a_not_younger, n_b, n_a),
{
}

/// Continents meeting start their collision zone at once: when two distinct plates with
/// continental crust on both sides converge and no polarity is recorded yet, the contact takes up
/// compression and establishes subduction in the same step, with the plate of fewer parcels (the
/// first named on a tie) going down; a closing parcel of that lower plate is absorbed into the
/// belt, or carried over with its whole block once the belt has locked.
pub proof fn lemma_continental_collision_starts(f: ContactFacts)
    requires
        f.a != f.b,
        f.kind_a == Kind::Continental,
        f.kind_b == Kind::Continental,
        f.converging,
        f.polarity is None,
    ensures
        spec_contact_step(f).compress,
        spec_contact_step(f).establish is Some,
        f.n_a < f.n_b ==> spec_contact_step(f).establish == Some(f.a),
        f.n_b < f.n_a ==> spec_contact_step(f).establish == Some(f.b),
        f.n_a == f.n_b ==> spec_contact_step(f).establish == Some(f.a),
        f.n_a <= f.n_b && f.closing && !f.locked ==> spec_contact_step(f).fate == Fate::Absorb,
        f.n_a <= f.n_b && f.closing && f.locked ==> spec_contact_step(f).fate == Fate::AccreteBlock,
        f.n_b < f.n_a ==> spec_contact_step(f).fate == Fate::Keep,
{
}

} // verus!

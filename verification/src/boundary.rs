//! Boundary and feature classes of parcels, their map colours and names.
//!
//! Classes: 0 none, 1 trench (subducting side), 2 arc (overriding side), 3 continental collision,
//! 4 oceanic ridge, 5 continental rift, 6 transform, 7 recent suture, 8 active hotspot.
//!
//! A converging contact where no subduction zone exists yet has no subducting side, so it is
//! neither trench nor arc: it carries no kinematic class, and the parcel reads as its intraplate
//! features (hotspot, suture) or none.
use crate::kind::Kind;
use vstd::prelude::*;

verus! {

/// Relative motion across a plate boundary, judged against the convergence threshold.
#[derive(Clone, Copy, PartialEq, Eq, Debug, Structural)]
pub enum Motion {
    /// Closing faster than the threshold.
    Converging,
    /// Opening faster than the threshold.
    Diverging,
    /// Neither: a transform or near-static contact.
    Sliding,
}

/// What a parcel sees across its nearest plate boundary.
#[derive(Clone, Copy, PartialEq, Eq, Debug, Structural)]
pub struct Contact {
    /// The parcel's own plate.
    pub plate: u32,
    /// The plate across the boundary.
    pub other: u32,
    /// The parcel's own crust.
    pub kind: Kind,
    /// The crust of the nearest parcel across the boundary.
    pub other_kind: Kind,
    pub motion: Motion,
    /// The plate that subducts at this pair, if a subduction zone exists.
    pub subducting: Option<u32>,
}

pub const NONE: u8 = 0;
pub const TRENCH: u8 = 1;
pub const ARC: u8 = 2;
pub const COLLISION: u8 = 3;
pub const RIDGE: u8 = 4;
pub const RIFT: u8 = 5;
pub const TRANSFORM: u8 = 6;
pub const SUTURE: u8 = 7;
pub const HOTSPOT: u8 = 8;

/// A converging, not continent-against-continent contact where no subduction zone exists yet:
/// the contact takes up compression, and neither side subducts.
pub open spec fn awaits_subduction(c: Contact) -> bool {
    &&& c.motion == Motion::Converging
    &&& !(c.kind == Kind::Continental && c.other_kind == Kind::Continental)
    &&& c.subducting is None
}

/// Class of a parcel: a recent rift first, then the kinematics of a nearby boundary with another
/// plate (unless that boundary still awaits subduction), then a recent plume passage, then a
/// recent suture.
pub open spec fn spec_classify(
    rift_recent: bool,
    contact: Option<Contact>,
    hot_recent: bool,
    suture_recent: bool,
) -> u8 {
    if rift_recent {
        RIFT
    } else if contact is Some && contact->0.other != contact->0.plate && !awaits_subduction(
        contact->0,
    ) {
        let c = contact->0;
        match c.motion {
            Motion::Converging => {
                if c.kind == Kind::Continental && c.other_kind == Kind::Continental {
                    COLLISION
                } else if c.subducting == Some(c.plate) {
                    TRENCH
                } else {
                    ARC
                }
            },
            Motion::Diverging => {
                if c.kind == Kind::Continental || c.other_kind == Kind::Continental {
                    RIFT
                } else {
                    RIDGE
                }
            },
            Motion::Sliding => TRANSFORM,
        }
    } else if hot_recent {
        HOTSPOT
    } else if suture_recent {
        SUTURE
    } else {
        NONE
    }
}

/// Boundary / feature class of a parcel. `contact` is the nearest parcel of another plate when it
/// lies within the boundary width, `None` otherwise.
pub fn classify(rift_recent: bool, contact: Option<Contact>, hot_recent: bool, suture_recent: bool) -> (c: u8)
    ensures
        c == spec_classify(rift_recent, contact, hot_recent, suture_recent),
        c <= HOTSPOT,
        !rift_recent && contact is Some && contact->0.other != contact->0.plate && contact->0.motion
            == Motion::Diverging ==> {
            &&& c == RIFT <==> (contact->0.kind == Kind::Continental || contact->0.other_kind
                == Kind::Continental)
            &&& c == RIDGE <==> (contact->0.kind == Kind::Oceanic && contact->0.other_kind
                == Kind::Oceanic)
        },
        !rift_recent && contact is Some && contact->0.other != contact->0.plate && contact->0.motion
            == Motion::Sliding ==> c == TRANSFORM,
        !rift_recent && contact is Some && contact->0.other != contact->0.plate && contact->0.motion
            == Motion::Converging && contact->0.kind == Kind::Continental && contact->0.other_kind
            == Kind::Continental ==> c == COLLISION,
        rift_recent ==> c == RIFT,
{
    if rift_recent {
        return RIFT;
    }
    if let Some(b) = contact {
        if b.other != b.plate {
            match b.motion {
                Motion::Converging => {
                    if b.kind == Kind::Continental && b.other_kind == Kind::Continental {
                        return COLLISION;
                    }
                    match b.subducting {
                        Some(s) => {
                            return if s == b.plate {
                                TRENCH
                            } else {
                                ARC
                            };
                        },
                        None => {},
                    }
                },
                Motion::Diverging => {
                    return if b.kind == Kind::Continental || b.other_kind == Kind::Continental {
                        RIFT
                    } else {
                        RIDGE
                    };
                },
                Motion::Sliding => {
                    return TRANSFORM;
                },
            }
        }
    }
    if hot_recent {
        return HOTSPOT;
    }
    if suture_recent {
        return SUTURE;
    }
    NONE
}

/// The two sides of an established subduction zone between an oceanic and any other plate read as
/// trench (the subducting plate) and arc (the overriding plate).
pub proof fn lemma_trench_faces_arc(lower: Contact, upper: Contact)
    requires
        lower.plate != upper.plate,
        lower.other == upper.plate,
        upper.other == lower.plate,
        lower.kind == upper.other_kind,
        upper.kind == lower.other_kind,
        lower.motion == Motion::Converging,
        upper.motion == Motion::Converging,
        lower.kind == Kind::Oceanic,
        lower.subducting == Some(lower.plate),
        upper.subducting == Some(lower.plate),
    ensures
        spec_classify(false, Some(lower), false, false) == TRENCH,
        spec_classify(false, Some(upper), false, false) == ARC,
{
}

/// A parcel is drawn as trench only on the subducting side of a recorded subduction zone: class 1
/// means a live contact with another plate whose recorded subducting plate is the parcel's own,
/// class 2 one whose recorded subducting plate is the other; a contact that still awaits
/// subduction gives no boundary class at all.
pub proof fn lemma_trench_only_on_subducting_side(
    rift_recent: bool,
    contact: Option<Contact>,
    hot_recent: bool,
    suture_recent: bool,
)
    ensures
        spec_classify(rift_recent, contact, hot_recent, suture_recent) == TRENCH ==> {
            &&& contact is Some
            &&& contact->0.other != contact->0.plate
            &&& contact->0.motion == Motion::Converging
            &&& contact->0.subducting == Some(contact->0.plate)
        },
        spec_classify(rift_recent, contact, hot_recent, suture_recent) == ARC ==> {
            &&& contact is Some
            &&& contact->0.subducting is Some
            &&& contact->0.subducting->0 != contact->0.plate
        },
        !rift_recent && contact is Some && awaits_subduction(contact->0) ==> {
            let c = spec_classify(rift_recent, contact, hot_recent, suture_recent);
            c == NONE || c == SUTURE || c == HOTSPOT
        },
{
}

/// What a boundary contact is drawn as, by its motion and the crust on its two sides (no recent
/// rift flag): an opening boundary is a rift exactly when continental crust lies on either side and
/// a ridge exactly when both sides are oceanic; a sliding one is a transform; a closing one between
/// two continents is a collision. A recent rift flag wins over everything.
pub proof fn lemma_boundary_kinematics(c: Contact, hot_recent: bool, suture_recent: bool)
    requires
        c.other != c.plate,
    ensures
        c.motion == Motion::Diverging ==> {
            &&& spec_classify(false, Some(c), hot_recent, suture_recent) == RIFT <==> (c.kind
                == Kind::Continental || c.other_kind == Kind::Continental)
            &&& spec_classify(false, Some(c), hot_recent, suture_recent) == RIDGE <==> (c.kind
                == Kind::Oceanic && c.other_kind == Kind::Oceanic)
        },
        c.motion == Motion::Sliding ==> spec_classify(false, Some(c), hot_recent, suture_recent)
            == TRANSFORM,
        c.motion == Motion::Converging && c.kind == Kind::Continental && c.other_kind
            == Kind::Continental ==> spec_classify(false, Some(c), hot_recent, suture_recent)
            == COLLISION,
        spec_classify(true, Some(c), hot_recent, suture_recent) == RIFT,
{
}

/// Away from any boundary with another plate (no contact, a contact with the own plate, or a
/// contact still awaiting subduction) and with no recent rift, a parcel shows a recent plume
/// passage first, else a recent suture, else nothing; a recent rift shows as rift whatever else
/// holds.
pub proof fn lemma_intraplate_features(contact: Option<Contact>, hot_recent: bool, suture_recent: bool)
    requires
        contact is None || contact->0.other == contact->0.plate || awaits_subduction(contact->0),
    ensures
        hot_recent ==> spec_classify(false, contact, hot_recent, suture_recent) == HOTSPOT,
        !hot_recent && suture_recent ==> spec_classify(false, contact, hot_recent, suture_recent)
            == SUTURE,
        !hot_recent && !suture_recent ==> spec_classify(false, contact, hot_recent, suture_recent)
            == NONE,
        spec_classify(true, contact, hot_recent, suture_recent) == RIFT,
{
}

/// Along an established subduction zone (one side oceanic, or two oceans), the plate recorded as
/// going down reads as trench and every other plate as arc.
pub proof fn lemma_subduction_sides(c: Contact, s: u32, hot_recent: bool, suture_recent: bool)
    requires
        c.other != c.plate,
        c.motion == Motion::Converging,
        !(c.kind == Kind::Continental && c.other_kind == Kind::Continental),
        c.subducting == Some(s),
    ensures
        s == c.plate ==> spec_classify(false, Some(c), hot_recent, suture_recent) == TRENCH,
        s != c.plate ==> spec_classify(false, Some(c), hot_recent, suture_recent) == ARC,
{
}

/// Map colour of a class; `None` for class 0 and for anything above 8.
pub open spec fn spec_class_color(c: u8) -> Option<[u8; 3]> {
    if c == TRENCH {
        Some([255u8, 59, 48])
    } else if c == ARC {
        Some([255u8, 176, 0])
    } else if c == COLLISION {
        Some([208u8, 80, 255])
    } else if c == RIDGE {
        Some([48u8, 224, 96])
    } else if c == RIFT {
        Some([0u8, 229, 255])
    } else if c == TRANSFORM {
        Some([235u8, 235, 235])
    } else if c == SUTURE {
        Some([128u8, 64, 160])
    } else if c == HOTSPOT {
        Some([255u8, 240, 80])
    } else {
        None
    }
}

/// Map colour of a boundary / feature class.
pub fn class_color(c: u8) -> (r: Option<[u8; 3]>)
    ensures
        r == spec_class_color(c),
        r is Some <==> 1 <= c <= 8,
{
    match c {
        1 => Some([255, 59, 48]),
        2 => Some([255, 176, 0]),
        3 => Some([208, 80, 255]),
        4 => Some([48, 224, 96]),
        5 => Some([0, 229, 255]),
        6 => Some([235, 235, 235]),
        7 => Some([128, 64, 160]),
        8 => Some([255, 240, 80]),
        _ => None,
    }
}

/// A class that marks a plate boundary (trench, arc, collision, ridge, rift, transform), as
/// opposed to none or an intraplate feature.
pub open spec fn is_boundary_class(c: u8) -> bool {
    1 <= c <= 6
}

/// Whether a parcel of class `c` belongs in the exported boundary point file.
pub fn exported_boundary(c: u8) -> (r: bool)
    ensures
        r == is_boundary_class(c),
        r <==> (c == TRENCH || c == ARC || c == COLLISION || c == RIDGE || c == RIFT || c == TRANSFORM),
{
    c != 0 && c <= 6
}

/// Name of a class, as written into the boundary point file.
pub fn class_name(c: u8) -> (name: &'static str)
    requires
        c <= 8,
    ensures
        c == NONE ==> name@ == "none"@,
        c == TRENCH ==> name@ == "trench"@,
        c == ARC ==> name@ == "arc"@,
        c == COLLISION ==> name@ == "collision"@,
        c == RIDGE ==> name@ == "ridge"@,
        c == RIFT ==> name@ == "rift"@,
        c == TRANSFORM ==> name@ == "transform"@,
        c == SUTURE ==> name@ == "suture"@,
        c == HOTSPOT ==> name@ == "hotspot"@,
{
    match c {
        0 => "none",
        1 => "trench",
        2 => "arc",
        3 => "collision",
        4 => "ridge",
        5 => "rift",
        6 => "transform",
        7 => "suture",
        _ => "hotspot",
    }
}

} // verus!

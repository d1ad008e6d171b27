use tectonic::boundary::{class_color, class_name, classify, exported_boundary, Contact, Motion};
use tectonic::contact::{contact_step, subducting_plate, ContactFacts, Fate};
use tectonic::kind::Kind;
use tectonic::kind::Kind::{Continental, Oceanic};

fn contact(plate: u32, other: u32, kind: Kind, other_kind: Kind, motion: Motion, sub: Option<u32>) -> Contact {
    Contact { plate, other, kind, other_kind, motion, subducting: sub }
}

#[test]
fn classify_rift_comes_first() {
    let c = contact(1, 2, Kind::Oceanic, Kind::Oceanic, Motion::Converging, None);
    assert_eq!(classify(true, Some(c), true, true), 5);
}

#[test]
fn classify_boundary_kinematics() {
    assert_eq!(classify(false, Some(contact(1, 2, Continental, Continental, Motion::Converging, Some(1))), false, false), 3);
    assert_eq!(classify(false, Some(contact(1, 2, Oceanic, Continental, Motion::Converging, Some(1))), false, false), 1);
    assert_eq!(classify(false, Some(contact(2, 1, Continental, Oceanic, Motion::Converging, Some(1))), false, false), 2);
    // converging with no subduction zone yet: neither side is a trench or an arc
    assert_eq!(classify(false, Some(contact(1, 2, Oceanic, Oceanic, Motion::Converging, None)), false, false), 0);
    assert_eq!(classify(false, Some(contact(2, 1, Oceanic, Continental, Motion::Converging, None)), false, false), 0);
    assert_eq!(classify(false, Some(contact(2, 1, Oceanic, Continental, Motion::Converging, None)), true, false), 8);
    assert_eq!(classify(false, Some(contact(2, 1, Oceanic, Continental, Motion::Converging, None)), false, true), 7);
    assert_eq!(classify(false, Some(contact(1, 2, Oceanic, Oceanic, Motion::Diverging, None)), false, false), 4);
    assert_eq!(classify(false, Some(contact(1, 2, Oceanic, Continental, Motion::Diverging, None)), false, false), 5);
    assert_eq!(classify(false, Some(contact(1, 2, Oceanic, Oceanic, Motion::Sliding, None)), false, false), 6);
}

#[test]
fn classify_intraplate_features() {
    // a contact with its own plate is no boundary
    let same = contact(3, 3, Kind::Oceanic, Kind::Oceanic, Motion::Converging, None);
    assert_eq!(classify(false, Some(same), true, true), 8);
    assert_eq!(classify(false, None, true, true), 8);
    assert_eq!(classify(false, None, false, true), 7);
    assert_eq!(classify(false, None, false, false), 0);
}

#[test]
fn trench_faces_arc() {
    let lower = contact(1, 2, Kind::Oceanic, Kind::Continental, Motion::Converging, Some(1));
    let upper = contact(2, 1, Kind::Continental, Kind::Oceanic, Motion::Converging, Some(1));
    assert_eq!(classify(false, Some(lower), false, false), 1);
    assert_eq!(classify(false, Some(upper), false, false), 2);
}

#[test]
fn class_colours_and_names() {
    assert_eq!(class_color(0), None);
    assert_eq!(class_color(1), Some([255, 59, 48]));
    assert_eq!(class_color(4), Some([48, 224, 96]));
    assert_eq!(class_color(7), Some([128, 64, 160]));
    assert_eq!(class_color(8), Some([255, 240, 80]));
    assert_eq!(class_color(9), None);
    assert_eq!(class_name(0), "none");
    assert_eq!(class_name(3), "collision");
    assert_eq!(class_name(7), "suture");
    assert_eq!(class_name(8), "hotspot");
    assert!(!exported_boundary(0));
    assert!(exported_boundary(1));
    assert!(exported_boundary(6));
    assert!(!exported_boundary(7));
    assert!(!exported_boundary(8));
}

#[test]
fn lower_plate_choice() {
    assert_eq!(subducting_plate(1, 2, Oceanic, Continental, false, 10, 5), 1);
    assert_eq!(subducting_plate(1, 2, Continental, Oceanic, true, 10, 5), 2);
    assert_eq!(subducting_plate(1, 2, Oceanic, Oceanic, true, 10, 5), 1);
    assert_eq!(subducting_plate(1, 2, Oceanic, Oceanic, false, 10, 5), 2);
    assert_eq!(subducting_plate(1, 2, Continental, Continental, true, 10, 5), 2);
    assert_eq!(subducting_plate(1, 2, Continental, Continental, true, 5, 5), 1);
}

fn facts() -> ContactFacts {
    ContactFacts {
        a: 1,
        b: 2,
        kind_a: Kind::Oceanic,
        kind_b: Kind::Continental,
        converging: true,
        closing: true,
        polarity: None,
        a_not_younger: true,
        n_a: 100,
        n_b: 100,
        a_old_enough: false,
        b_old_enough: false,
        near_trench: false,
        shortened_some: false,
        shortened_enough: false,
        locked: false,
        thin_isolated: false,
    }
}

#[test]
fn compression_before_initiation() {
    let r = contact_step(facts());
    assert!(r.compress);
    assert_eq!(r.establish, None);
    assert_eq!(r.fate, Fate::Keep);
    assert!(!r.arc);
}

#[test]
fn initiation_and_consumption() {
    let mut f = facts();
    f.shortened_enough = true;
    let r = contact_step(f);
    assert!(r.compress);
    assert_eq!(r.establish, Some(1));
    assert!(r.arc);
    assert_eq!(r.fate, Fate::Subduct);
    // old oceanic lithosphere needs only a little shortening
    let mut g = facts();
    g.a_old_enough = true;
    g.shortened_some = true;
    assert_eq!(contact_step(g).establish, Some(1));
    // next to an established trench subduction spreads at once
    let mut h = facts();
    h.near_trench = true;
    assert_eq!(contact_step(h).establish, Some(1));
}

#[test]
fn established_polarity_is_kept() {
    let mut f = facts();
    f.polarity = Some(2);
    let r = contact_step(f);
    assert_eq!(r.establish, None);
    assert!(!r.compress);
    // plate 1 is the upper plate here: nothing of it is consumed
    assert_eq!(r.fate, Fate::Keep);
}

#[test]
fn continental_fates() {
    let mut f = facts();
    f.kind_a = Kind::Continental;
    f.kind_b = Kind::Oceanic;
    f.polarity = Some(1);
    assert_eq!(contact_step(f).fate, Fate::Dock);
    f.thin_isolated = true;
    assert_eq!(contact_step(f).fate, Fate::LoseSliver);
    f.kind_b = Kind::Continental;
    assert_eq!(contact_step(f).fate, Fate::Absorb);
    f.locked = true;
    assert_eq!(contact_step(f).fate, Fate::AccreteBlock);
    f.converging = false;
    assert_eq!(contact_step(f).fate, Fate::Keep);
    f.converging = true;
    f.closing = false;
    assert_eq!(contact_step(f).fate, Fate::Keep);
}

#[test]
fn same_plate_contact_is_quiet() {
    let mut f = facts();
    f.b = 1;
    let r = contact_step(f);
    assert!(!r.compress && !r.arc && r.establish.is_none());
    assert_eq!(r.fate, Fate::Keep);
}

#[test]
fn trench_needs_a_subduction_zone() {
    // a converging oceanic contact reads as trench only once its own plate is the recorded lower plate
    let before = contact(1, 2, Oceanic, Oceanic, Motion::Converging, None);
    let lower = contact(1, 2, Oceanic, Oceanic, Motion::Converging, Some(1));
    let upper = contact(1, 2, Oceanic, Oceanic, Motion::Converging, Some(2));
    assert_eq!(classify(false, Some(before), false, false), 0);
    assert_eq!(classify(false, Some(lower), false, false), 1);
    assert_eq!(classify(false, Some(upper), false, false), 2);
}

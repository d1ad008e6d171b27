use tectonic::prune::{prune_arcs, prune_pairs};
use tectonic::remap::weld_order;
use tectonic::kind::Kind;
use tectonic::transfer::{hand_over, relabel};

#[test]
fn hand_over_moves_only_listed_parcels() {
    let mut plate = vec![0u32, 0, 1, 0, 2];
    let kind = vec![Kind::Continental, Kind::Oceanic, Kind::Continental, Kind::Continental, Kind::Oceanic];
    let n_cont = hand_over(&mut plate, &vec![3, 1], &kind, 7);
    assert_eq!(plate, vec![0, 7, 1, 7, 2]);
    assert_eq!(n_cont, 1);
}

#[test]
fn hand_over_of_nothing_changes_nothing() {
    let mut plate = vec![4u32, 5];
    let kind = vec![Kind::Continental, Kind::Continental];
    assert_eq!(hand_over(&mut plate, &vec![], &kind, 9), 0);
    assert_eq!(plate, vec![4, 5]);
}

#[test]
fn relabel_skips_dead_and_other_parcels() {
    let mut plate = vec![3u32, 3, 2, 3];
    let alive = vec![true, false, true, true];
    relabel(&mut plate, &alive, 3, 1);
    assert_eq!(plate, vec![1, 3, 2, 1]);
}

#[test]
fn prune_pairs_keeps_only_live_distinct_pairs() {
    let alive = vec![true, false, true, true];
    let entries = vec![((0u32, 2u32), 1.5f64), ((0, 1), 2.0), ((2, 2), 3.0), ((3, 2), 4.0)];
    assert_eq!(prune_pairs(&entries, &alive), vec![((0, 2), 1.5), ((3, 2), 4.0)]);
    assert!(prune_pairs::<f64>(&vec![], &alive).is_empty());
}

#[test]
fn prune_arcs_needs_all_three_plates_alive() {
    let alive = vec![true, true, false, true];
    let entries = vec![(3u32, 0u32, 1u32, 10.0f64), (1, 2, 0, 20.0), (0, 0, 3, 30.0)];
    assert_eq!(prune_arcs(&entries, &alive), vec![(3, 0, 1, 10.0), (0, 0, 3, 30.0)]);
}

#[test]
fn weld_absorbs_the_smaller_plate() {
    assert_eq!(weld_order(4, 7, 10, 50), (4, 7));
    assert_eq!(weld_order(4, 7, 50, 10), (7, 4));
    assert_eq!(weld_order(4, 7, 20, 20), (4, 7));
}

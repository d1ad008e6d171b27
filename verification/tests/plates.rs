use tectonic::census::{alive_plates, pair_live, plate_census, tiny_plates};
use tectonic::flood::flood_fill;
use tectonic::kind::{pair_key, Kind};
use tectonic::polarity::PolarityTable;
use tectonic::remap::{apply_merges, PlateRemap};

#[test]
fn pair_key_is_order_free() {
    assert_eq!(pair_key(7, 3), (3, 7));
    assert_eq!(pair_key(3, 7), (3, 7));
    assert_eq!(pair_key(5, 5), (5, 5));
}

#[test]
fn remap_starts_as_identity() {
    let r = PlateRemap::new(4);
    assert_eq!(r.len(), 4);
    for i in 0..4u32 {
        assert_eq!(r.resolve(i), i);
    }
}

#[test]
fn remap_link_follows_chains() {
    let mut r = PlateRemap::new(5);
    assert_eq!(r.link(1, 2), Some(1));
    assert_eq!(r.link(2, 3), Some(2));
    assert_eq!(r.resolve(1), 3);
    assert_eq!(r.resolve(2), 3);
    assert_eq!(r.resolve(3), 3);
    // already one plate: nothing to weld
    assert_eq!(r.link(3, 1), None);
    assert_eq!(r.link(4, 4), None);
    assert_eq!(r.resolve(4), 4);
    assert_eq!(r.resolve(0), 0);
}

#[test]
fn apply_merges_reports_each_ended_plate_once() {
    let merges = vec![(1u32, 2u32), (2, 3), (4, 4), (3, 1), (0, 4)];
    let (r, dead) = apply_merges(5, &merges);
    assert_eq!(dead, vec![1, 2, 0]);
    // every requested weld holds at the end
    for &(a, b) in &merges {
        assert_eq!(r.resolve(a), r.resolve(b));
    }
    // a plate is ended exactly when it no longer resolves to itself
    for x in 0..5u32 {
        assert_eq!(r.resolve(x) != x, dead.contains(&x));
    }
    assert_eq!(r.resolve(0), 4);
    assert_eq!(r.resolve(1), 3);
}

#[test]
fn apply_merges_of_nothing() {
    let (r, dead) = apply_merges(3, &vec![]);
    assert!(dead.is_empty());
    assert_eq!(r.resolve(2), 2);
}

#[test]
fn census_counts_every_live_parcel_once() {
    let plate_alive = vec![true, true, true, false];
    let plate = vec![0u32, 1, 1, 0, 2, 1, 3];
    let alive = vec![true, true, false, true, false, true, true];
    let kind = vec![
        Kind::Continental,
        Kind::Oceanic,
        Kind::Continental,
        Kind::Continental,
        Kind::Oceanic,
        Kind::Continental,
        Kind::Continental,
    ];
    let weak = vec![true, false, true, false, false, true, true];
    let c = plate_census(&plate_alive, &plate, &alive, &kind, &weak);
    assert_eq!(c.n, vec![2, 2, 0, 1]);
    assert_eq!(c.n_cont, vec![2, 1, 0, 1]);
    assert_eq!(c.n_weak, vec![1, 1, 0, 1]);
    // plate 2 lost its last parcel; plate 3 was already dead and stays dead
    assert_eq!(c.alive, vec![true, true, false, false]);
    assert_eq!(c.total, 5);
    assert_eq!(c.cont, 4);
    assert_eq!(c.n_plates, 2);
    assert_eq!(c.n.iter().sum::<usize>(), c.total);
}

#[test]
fn alive_plate_count() {
    assert_eq!(alive_plates(&vec![true, false, true, true]), 3);
    assert_eq!(alive_plates(&vec![]), 0);
}

#[test]
fn tiny_plates_are_live_and_small() {
    let counts = vec![5usize, 40, 2, 0, 29];
    let alive = vec![true, true, false, true, true];
    assert_eq!(tiny_plates(&counts, &alive, 30), vec![0, 3, 4]);
    assert_eq!(tiny_plates(&counts, &alive, 0), Vec::<u32>::new());
}

#[test]
fn pair_records_need_two_live_plates() {
    let alive = vec![true, false, true];
    assert!(pair_live(0, 2, &alive));
    assert!(!pair_live(0, 1, &alive));
    assert!(!pair_live(2, 2, &alive));
}

#[test]
fn flood_fill_finds_the_connected_block() {
    // 0 - 1 - 2   3 - 4   5 (isolated); links as the neighbour queries report them
    let adj = vec![vec![1], vec![0, 2], vec![1], vec![4], vec![3], vec![]];
    let mut block = flood_fill(&adj, 0);
    assert_eq!(block[0], 0);
    block.sort();
    assert_eq!(block, vec![0, 1, 2]);
    let mut other = flood_fill(&adj, 4);
    other.sort();
    assert_eq!(other, vec![3, 4]);
    assert_eq!(flood_fill(&adj, 5), vec![5]);
}

#[test]
fn flood_fill_follows_one_way_links() {
    let adj = vec![vec![1, 1, 2], vec![3], vec![], vec![0]];
    let mut block = flood_fill(&adj, 2);
    block.sort();
    assert_eq!(block, vec![2]);
    let mut all = flood_fill(&adj, 0);
    all.sort();
    assert_eq!(all, vec![0, 1, 2, 3]);
}

#[test]
fn polarity_is_fixed_once_established() {
    let mut t = PolarityTable::new();
    assert_eq!(t.get(4, 2), None);
    assert_eq!(t.establish(4, 2, 4), 4);
    assert_eq!(t.get(2, 4), Some(4));
    assert_eq!(t.get(4, 2), Some(4));
    // a second initiation at the same pair does not flip the polarity
    assert_eq!(t.establish(2, 4, 2), 4);
    assert_eq!(t.get(2, 4), Some(4));
    assert!(t.contains(2, 4));
    assert_eq!(t.len(), 1);
}

#[test]
fn polarity_dropped_only_with_dead_plates() {
    let mut t = PolarityTable::new();
    t.establish(0, 1, 0);
    t.establish(1, 2, 2);
    t.establish(0, 2, 2);
    t.retain_live(&vec![true, false, true]);
    assert_eq!(t.get(0, 1), None);
    assert_eq!(t.get(1, 2), None);
    assert_eq!(t.get(0, 2), Some(2));
    assert_eq!(t.len(), 1);
}

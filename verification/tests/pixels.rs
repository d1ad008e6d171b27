use tectonic::pixels::{label_cell, pixel_census, GX};
use tectonic::polarity::PolarityTable;

#[test]
fn pixel_census_counts_area_continent_and_perimeter() {
    let ids = vec![0u32, 0, 0, 0, 0, 1, 0, 0, 0, 0, 0, 0];
    let mut cont = vec![false; 12];
    cont[0] = true;
    cont[5] = true;
    let c = pixel_census(&ids, &cont, 4, 3, 2);
    assert_eq!(c.n, vec![11, 1]);
    assert_eq!(c.n_cont, vec![1, 1]);
    assert_eq!(c.perim, vec![4, 1]);
}

#[test]
fn pixel_census_ignores_ids_outside_the_table() {
    let ids = vec![5u32, 0, 5, 5];
    let cont = vec![true; 4];
    let c = pixel_census(&ids, &cont, 2, 2, 1);
    assert_eq!(c.n, vec![1]);
    assert_eq!(c.n_cont, vec![1]);
    assert_eq!(c.perim, vec![1]);
}

#[test]
fn label_cell_picks_the_fullest_cell() {
    let (wd, ht) = (192usize, 2usize);
    let mut ids = vec![0u32; wd * ht];
    ids[wd + 10] = 3;
    ids[wd + 11] = 3;
    ids[40] = 3;
    let (cell, n, sx, sy) = label_cell(&ids, wd, ht, 3);
    assert_eq!(cell, 24 * GX + 5);
    assert_eq!((n, sx, sy), (2, 21, 2));
}

#[test]
fn label_cell_of_an_absent_plate_is_the_first_cell() {
    let ids = vec![1u32; 8];
    assert_eq!(label_cell(&ids, 4, 2, 9), (0, 0, 0, 0));
}

#[test]
fn polarity_pairs_stay_below_the_plate_count() {
    let mut t = PolarityTable::new();
    t.establish(4, 1, 1);
    assert!(t.all_below(5));
    assert!(!t.all_below(4));
    assert!(PolarityTable::new().all_below(0));
}

#[test]
fn initiations_grow_the_polarity_table_one_by_one() {
    let mut t = PolarityTable::new();
    let reqs = [(1u32, 2u32, 1u32), (2, 1, 2), (3, 1, 3), (1, 3, 1), (5, 4, 4)];
    let mut fresh = 0;
    for &(a, b, lower) in &reqs {
        let had = t.contains(a, b);
        let before = t.get(a, b);
        t.establish(a, b, lower);
        if !had {
            fresh += 1;
        } else {
            assert_eq!(t.get(a, b), before);
        }
    }
    assert_eq!(fresh, 3);
    assert_eq!(t.len(), 3);
    assert_eq!(t.get(2, 1), Some(1));
    assert_eq!(t.get(1, 3), Some(3));
    assert_eq!(t.get(4, 5), Some(4));
}

#[test]
fn polarity_keys_cover_the_whole_plate_range() {
    let mut t = PolarityTable::new();
    assert_eq!(t.establish(u32::MAX, 0, 0), 0);
    assert_eq!(t.establish(0, u32::MAX, u32::MAX), 0);
    assert_eq!(t.get(0, u32::MAX), Some(0));
    assert_eq!(t.get(u32::MAX, u32::MAX), None);
    t.establish(u32::MAX, u32::MAX - 1, u32::MAX - 1);
    assert_eq!(t.len(), 2);
    let mut alive = vec![true; 3];
    alive[1] = false;
    let mut small = PolarityTable::new();
    small.establish(0, 2, 2);
    small.establish(1, 2, 1);
    small.retain_live(&alive);
    assert_eq!(small.len(), 1);
    assert_eq!(small.get(2, 0), Some(2));
    assert!(!small.contains(1, 2));
}

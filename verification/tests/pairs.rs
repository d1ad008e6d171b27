use tectonic::pairs::pair_census;

#[test]
fn pair_census_groups_unordered_pairs() {
    let contacts = vec![(3, 1, true), (1, 3, false), (2, 5, true), (1, 3, true), (5, 2, true), (0, 4, false)];
    let r = pair_census(&contacts);
    let got: Vec<(u32, u32, usize, usize)> = r.pairs.iter().map(|p| (p.lo, p.hi, p.contacts, p.cc)).collect();
    assert_eq!(got, vec![(0, 4, 1, 0), (1, 3, 3, 2), (2, 5, 2, 2)]);
    assert_eq!(r.slot, vec![1, 1, 2, 1, 2, 0]);
}

#[test]
fn pair_census_of_nothing_is_empty() {
    let r = pair_census(&vec![]);
    assert!(r.pairs.is_empty());
    assert!(r.slot.is_empty());
}

#[test]
fn pair_census_orders_by_first_then_second_plate() {
    let contacts = vec![(9, 2, false), (2, 4, false), (1, 9, false), (2, 4, true)];
    let r = pair_census(&contacts);
    let keys: Vec<(u32, u32)> = r.pairs.iter().map(|p| (p.lo, p.hi)).collect();
    assert_eq!(keys, vec![(1, 9), (2, 4), (2, 9)]);
    let counts: Vec<usize> = r.pairs.iter().map(|p| p.contacts).collect();
    assert_eq!(counts, vec![1, 2, 1]);
    for (j, c) in contacts.iter().enumerate() {
        let p = &r.pairs[r.slot[j]];
        assert_eq!((p.lo, p.hi), (c.0.min(c.1), c.0.max(c.1)));
    }
}

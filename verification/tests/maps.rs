use tectonic::cells::{box_fits_key, fits_key};
use tectonic::cells::{cell_key, CellGrid};
use tectonic::gplates::{gid, plate_lifetimes};
use tectonic::hashing::hash_bits;
use tectonic::raster::{bounds_class, bounds_map, is_boundary, line_px, majority_class, on_line, step_x, step_y};
use tectonic::route::{route, Route};
use tectonic::slices::{mark_of, pick_slices};

#[test]
fn longitude_wraps_latitude_clamps() {
    assert_eq!(step_x(0, -1, 10), 9);
    assert_eq!(step_x(9, 1, 10), 0);
    assert_eq!(step_x(3, -25, 10), 8);
    assert_eq!(step_x(0, -1, 1), 0);
    assert_eq!(step_y(0, -1, 5), 0);
    assert_eq!(step_y(4, 3, 5), 4);
    assert_eq!(step_y(2, 1, 5), 3);
}

#[test]
fn line_width() {
    assert_eq!(line_px(1024), 1);
    assert_eq!(line_px(100), 1);
    assert_eq!(line_px(1535), 1);
    assert_eq!(line_px(1536), 2);
    assert_eq!(line_px(4096), 4);
}

// 4 x 3 map: plate 1 on the left two columns, plate 2 on the right two.
fn plates() -> Vec<u32> {
    vec![1, 1, 2, 2, 1, 1, 2, 2, 1, 1, 2, 2]
}

#[test]
fn plate_boundaries_wrap_around() {
    let p = plates();
    // column 0 touches column 3 across the date line
    assert!(is_boundary(&p, 4, 3, 0, 1));
    assert!(is_boundary(&p, 4, 3, 1, 0));
    let q = vec![7u32; 12];
    assert!(!is_boundary(&q, 4, 3, 2, 2));
    assert!(!on_line(&q, 4, 3, 0, 0, 1));
    assert!(on_line(&p, 4, 3, 0, 0, 1));
}

#[test]
fn majority_prefers_lowest_on_ties() {
    // wide window: columns and rows repeat under wrap and clamp, class 4 outweighs class 2
    let cls = vec![4u8, 4, 2, 2, 0, 0, 0, 0, 7, 7, 7, 7];
    assert_eq!(majority_class(&cls, 4, 3, 0, 1, 5), 4);
    // one 4 and one 2 in the 3 x 3 window, each seen twice: the lower class wins the tie
    let tie = vec![4u8, 0, 2, 0, 0, 0, 0, 0, 0, 0, 0, 0];
    assert_eq!(majority_class(&tie, 4, 3, 1, 0, 1), 2);
    let none = vec![0u8; 12];
    assert_eq!(majority_class(&none, 4, 3, 0, 1, 5), 0);
}

#[test]
fn boundary_map_classes() {
    let p = plates();
    let cls = vec![0u8, 4, 0, 0, 7, 0, 0, 0, 0, 0, 8, 0];
    // every pixel is next to the boundary: own boundary class, else the majority nearby (4)
    assert_eq!(bounds_class(&p, &cls, 4, 3, 1, 0, 1), 4);
    assert_eq!(bounds_class(&p, &cls, 4, 3, 0, 1, 1), 4);
    let (m, counts) = bounds_map(&p, &cls, 4, 3);
    assert_eq!(m, vec![4u8; 12]);
    assert_eq!(counts, vec![0, 0, 0, 0, 12, 0, 0, 0, 0]);
    // no boundary anywhere: only sutures and hotspots show
    let q = vec![5u32; 12];
    let (m2, counts2) = bounds_map(&q, &cls, 4, 3);
    assert_eq!(m2, vec![0, 0, 0, 0, 7, 0, 0, 0, 0, 0, 8, 0]);
    assert_eq!(counts2[0], 10);
    assert_eq!(counts2[7], 1);
    assert_eq!(counts2[8], 1);
    // on a line with no boundary class nearby: drawn as transform
    let blank = vec![0u8; 12];
    let (m3, _) = bounds_map(&p, &blank, 4, 3);
    assert_eq!(m3, vec![6u8; 12]);
}

#[test]
fn gplates_ids() {
    assert_eq!(gid(0), 100);
    assert_eq!(gid(17), 117);
}

#[test]
fn lifetimes_from_rotation_samples() {
    let rows = vec![
        vec![true, false],
        vec![true, true, false],
        vec![false, true, true],
        vec![false],
    ];
    let (first, last) = plate_lifetimes(4, &rows);
    assert_eq!(first, vec![Some(0), Some(1), Some(2), None]);
    assert_eq!(last, vec![Some(1), Some(2), Some(2), None]);
}

fn reference_hash(i: u64, t_bits: u64, seed: u64) -> u64 {
    let mut x = i.wrapping_mul(0x9E37_79B9_7F4A_7C15) ^ t_bits.rotate_left(17) ^ seed.wrapping_mul(0xD1B5_4A32_D192_ED03);
    x ^= x >> 31;
    x = x.wrapping_mul(0x7FB5_D329_728E_A185);
    x ^= x >> 27;
    x = x.wrapping_mul(0x81DA_DEF4_BC2D_D44D);
    x ^= x >> 33;
    x >> 11
}

#[test]
fn coin_flips_match_the_mix() {
    for &(i, t, s) in &[(0u64, 0f64, 42u64), (17, 123.0, 42), (40_000, 999.0, 7), (u64::MAX, -3.5, u64::MAX)] {
        let h = hash_bits(i, t.to_bits(), s);
        assert_eq!(h, reference_hash(i, t.to_bits(), s));
        assert!(h < (1u64 << 53));
    }
    assert_ne!(hash_bits(1, 0, 42), hash_bits(2, 0, 42));
}

#[test]
fn cell_buckets_in_box_order() {
    let mut g = CellGrid::new(10);
    assert_eq!(g.dim(), 10);
    let k = |x: i32, y: i32, z: i32| cell_key(10, x, y, z);
    assert_eq!(k(3, 2, 1), 3 + 10 * (2 + 10 * 1));
    g.insert(k(1, 1, 1), 5);
    g.insert(k(2, 1, 1), 6);
    g.insert(k(1, 1, 1), 7);
    g.insert(k(1, 2, 2), 8);
    g.insert(k(5, 5, 5), 9);
    let mut out = vec![100u32];
    g.collect_box([1, 1, 1], [2, 2, 2], &mut out);
    assert_eq!(out, vec![100, 5, 7, 6, 8]);
    let mut empty = vec![];
    g.collect_box([3, 3, 3], [2, 2, 2], &mut empty);
    assert!(empty.is_empty());
    g.clear();
    let mut after = vec![];
    g.collect_box([0, 0, 0], [9, 9, 9], &mut after);
    assert!(after.is_empty());
}

#[test]
fn viewer_routes() {
    assert_eq!(route(b"/"), Route::Index);
    assert_eq!(route(b"/index.html?x=1"), Route::Index);
    assert_eq!(route(b"/slices.json"), Route::Slices);
    assert_eq!(route(b"/data/t00010/elev.png"), Route::Data(b"t00010/elev.png".to_vec()));
    assert_eq!(route(b"/data/t00010/elev.png?v=2"), Route::Data(b"t00010/elev.png".to_vec()));
    assert_eq!(route(b"/data/../secret"), Route::Forbidden);
    assert_eq!(route(b"/data/a\\b"), Route::Forbidden);
    assert_eq!(route(b"/data/a.b.c"), Route::Data(b"a.b.c".to_vec()));
    assert_eq!(route(b"/other"), Route::NotFound);
    assert_eq!(route(b""), Route::NotFound);
    assert_eq!(route(b"?/"), Route::NotFound);
}

#[test]
fn viewer_refuses_absolute_data_paths() {
    assert_eq!(route(b"/data//etc/passwd"), Route::Forbidden);
    assert_eq!(route(b"/data/C:/Windows/win.ini"), Route::Forbidden);
    assert_eq!(route(b"/data/t00010:stream"), Route::Forbidden);
    assert_eq!(route(b"/data/t00010/meta.json"), Route::Data(b"t00010/meta.json".to_vec()));
}

#[test]
fn suture_and_hotspot_classes_stay_off_the_lines() {
    let p = plates();
    // a suture on a boundary line is not a line class: the line falls back to transform
    let cls = vec![7u8, 0, 0, 0, 0, 0, 0, 0, 0, 0, 0, 0];
    assert_eq!(bounds_class(&p, &cls, 4, 3, 0, 0, 1), 6);
    assert_eq!(majority_class(&cls, 4, 3, 1, 1, 1), 0);
}

#[test]
fn slice_marks() {
    assert_eq!(mark_of(149, 100), 100);
    assert_eq!(mark_of(150, 100), 200);
    assert_eq!(mark_of(-150, 100), -200);
    assert_eq!(mark_of(-149, 100), -100);
    assert_eq!(mark_of(7, 0), 0);
    assert_eq!(mark_of(260, -100), 300);
}

#[test]
fn contact_sheet_picks_nearest_slice_per_mark() {
    let times = vec![0i64, 10, 90, 100, 110, 180, 210, 260, 300];
    // marks: 0, 0, 100, 100, 100, 200, 200, 300, 300; tolerance 25
    assert_eq!(pick_slices(&times, 100), vec![0, 3, 6, 8]);
    // equal distances: the earlier slice wins
    assert_eq!(pick_slices(&vec![95, 105], 100), vec![0]);
    assert_eq!(pick_slices(&vec![], 100), Vec::<usize>::new());
    // zero interval: only slices within one of time 0
    assert_eq!(pick_slices(&vec![-1, 0, 1, 5], 0), vec![1]);
}

#[test]
fn cell_keys_that_fit() {
    assert!(fits_key(100, 5, 6, 7));
    assert!(!fits_key(100_000, 0, 0, 100_000));
    assert!(!fits_key(65_536, 0, 32_768, 32_767));
    assert!(box_fits_key(100, [0, 0, 0], [99, 99, 99]));
    assert!(!box_fits_key(70_000, [0, 0, 0], [10, 10, 70_000]));
    // an empty box holds no key at all
    assert!(box_fits_key(70_000, [5, 0, 0], [4, 10, 70_000]));
    assert!(!box_fits_key(-3, [0, 0, 0], [1, 1, 1]));
}

use tectonic::glyph::{digit_glyph, label_pixels, time_glyph};

#[test]
fn glyph_tables() {
    assert_eq!(digit_glyph('1'), [0b010, 0b110, 0b010, 0b010, 0b111]);
    assert_eq!(digit_glyph('M'), [0; 5]);
    assert_eq!(time_glyph('M'), [0b101, 0b111, 0b111, 0b101, 0b101]);
    assert_eq!(time_glyph('7'), digit_glyph('7'));
    assert_eq!(time_glyph(' '), [0; 5]);
}

#[test]
fn label_of_one_digit_at_unit_scale() {
    let g = vec![digit_glyph('7')];
    let mut px = label_pixels(&g, 10, 20, 1, 100, 100);
    px.sort();
    // top row full, then the right column
    assert_eq!(px, vec![(10, 20), (11, 20), (12, 20), (12, 21), (12, 22), (12, 23), (12, 24)]);
}

#[test]
fn label_scaling_and_spacing() {
    let g = vec![digit_glyph('1'), digit_glyph('1')];
    let px = label_pixels(&g, 0, 0, 2, 1000, 1000);
    // '1' has 8 set glyph cells, each 2 x 2 pixels, for two characters
    assert_eq!(px.len(), 2 * 8 * 4);
    // the second character starts 8 pixels to the right
    assert!(px.contains(&(2, 0)) && px.contains(&(10, 0)));
    assert!(!px.contains(&(0, 0)) && !px.contains(&(8, 0)));
}

#[test]
fn label_clipped_at_the_edges() {
    let g = vec![digit_glyph('8')];
    let px = label_pixels(&g, -1, -2, 1, 2, 2);
    // only glyph cells landing inside the 2 x 2 image remain
    let mut v = px.clone();
    v.sort();
    assert_eq!(v, vec![(0, 0), (1, 0), (1, 1)]);
    assert!(label_pixels(&vec![], 0, 0, 3, 10, 10).is_empty());
}

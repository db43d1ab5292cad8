use baker::code;
use baker::reference::palette;
use baker::reference::read;
use baker::segment::label_regions;

fn rgba(pixels: &[[u8; 3]]) -> Vec<u8> {
    pixels
        .iter()
        .flat_map(|c| [c[0], c[1], c[2], 255])
        .collect()
}
const R: [u8; 3] = [255, 0, 0];
const G: [u8; 3] = [0, 255, 0];
const B: [u8; 3] = [0, 0, 255];

#[test]
fn uniform_reference_passes_and_yields_colors() {
    let regions = label_regions(&rgba(&[R, R, G, G]), 2, 2);
    let (s, d) = read(&rgba(&[B, B, R, R]), &regions);
    assert!(d.is_none());
    assert_eq!(s.colors, vec![B, R]);
}

/// Adjacent regions may share a colour.
#[test]
fn adjacent_regions_may_share_a_reference_color() {
    let regions = label_regions(&rgba(&[R, R, G, G]), 2, 2);
    let (_, d) = read(&rgba(&[B, B, B, B]), &regions);
    assert!(d.is_none());
}

#[test]
fn second_color_inside_one_region_is_reported_with_its_coordinate() {
    let regions = label_regions(&rgba(&[R, R, R, R]), 2, 2);
    let (_, d) = read(&rgba(&[B, B, B, G]), &regions);
    let d = d.expect("must be rejected");
    assert_eq!(d.code, code::REF_MISMATCH);
    assert_eq!(d.coords, vec![(1, 1)]);
    assert_eq!(d.region, Some(0));
}

#[test]
fn palette_is_deduped_and_sorted_by_total_area() {
    let colors = [R, G, R];
    // R totals 3 + 1 = 4, G has 10: G first
    assert_eq!(
        palette(&colors, &[3, 10, 1]),
        vec!["#00FF00".to_owned(), "#FF0000".to_owned()]
    );
}

#[test]
fn palette_ties_go_to_the_smaller_region_id() {
    assert_eq!(
        palette(&[G, R], &[5, 5]),
        vec!["#00FF00".to_owned(), "#FF0000".to_owned()]
    );
}

/// Two mismatching regions: one diagnostic with both coordinates, naming the first region.
#[test]
fn two_mismatching_regions_share_one_diagnostic() {
    let regions = label_regions(&rgba(&[R, R, G, G]), 2, 2);
    let (_, d) = read(&rgba(&[B, G, R, B]), &regions);
    let d = d.expect("must be rejected");
    assert_eq!(d.coords, vec![(1, 0), (1, 1)]);
    assert_eq!(d.coord_total, 2);
    assert_eq!(d.region, Some(0));
    assert!(d.message.starts_with("2 個"), "{}", d.message);
}

#[test]
fn palette_colours_are_upper_case_hex() {
    assert_eq!(palette(&[[0xab, 0x0c, 0xff]], &[1]), vec!["#AB0CFF".to_owned()]);
}

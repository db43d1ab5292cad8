use baker::segment::color_histogram;
use baker::segment::count_components_per_id;
use baker::segment::label_regions;
use baker::segment::region_areas;
use baker::segment::MAX_UNIQUE_COLORS;
use baker::segment::UNASSIGNED;

fn rgba(pixels: &[[u8; 3]]) -> Vec<u8> {
    pixels
        .iter()
        .flat_map(|c| [c[0], c[1], c[2], 255])
        .collect()
}

const R: [u8; 3] = [255, 0, 0];
const G: [u8; 3] = [0, 255, 0];

/// Same-colour squares touching only at a corner are separate regions.
#[test]
fn diagonal_touch_is_not_connected() {
    let map = label_regions(&rgba(&[R, G, G, R]), 2, 2);
    assert_eq!(map.count, 4);
    assert_eq!(map.labels, vec![0, 1, 2, 3]);
    assert_eq!(map.areas, vec![1, 1, 1, 1]);
}

/// Side-by-side same colours merge.
#[test]
fn orthogonally_adjacent_same_color_merges() {
    let map = label_regions(&rgba(&[R, R, G, G]), 2, 2);
    assert_eq!(map.count, 2);
    assert_eq!(map.areas, vec![2, 2]);
}

#[test]
fn ids_follow_raster_order_of_first_pixel() {
    let map = label_regions(&rgba(&[G, G, R, R]), 2, 2);
    assert_eq!(map.labels, vec![0, 0, 1, 1]);
    assert_eq!(map.first_pixel, vec![0, 2]);
}

#[test]
fn histogram_bails_out_instead_of_growing_unbounded() {
    let pixels: Vec<[u8; 3]> = (0..2000u32)
        .map(|i| [(i >> 8) as u8, (i & 0xff) as u8, 0])
        .collect();
    assert!(color_histogram(&rgba(&pixels), 2000).is_err());
}

#[test]
fn histogram_records_area_and_first_occurrence() {
    let hist = color_histogram(&rgba(&[R, G, G, R]), 2).unwrap();
    assert_eq!(hist.get(R).unwrap().area, 2);
    assert_eq!(hist.get(R).unwrap().first, (0, 0));
    assert_eq!(hist.get(G).unwrap().first, (1, 0));
    assert_eq!(hist.len(), 2);
}

#[test]
fn split_detection_counts_pieces() {
    let ids = vec![0, 1, 0, 0, 1, 0];
    assert_eq!(count_components_per_id(&ids, 3, 2, 2), vec![2, 1]);
}

/// The overflow is reported at the first colour beyond the limit.
#[test]
fn histogram_overflow_reports_the_colour_count_where_it_stopped() {
    let pixels: Vec<[u8; 3]> = (0..2000u32)
        .map(|i| [(i >> 8) as u8, (i & 0xff) as u8, 0])
        .collect();
    assert_eq!(color_histogram(&rgba(&pixels), 2000).unwrap_err(), MAX_UNIQUE_COLORS + 1);
}

/// Exactly the limit of distinct colours still fits.
#[test]
fn histogram_holds_exactly_the_limit() {
    let pixels: Vec<[u8; 3]> = (0..MAX_UNIQUE_COLORS as u32)
        .map(|i| [(i >> 8) as u8, (i & 0xff) as u8, 7])
        .collect();
    let hist = color_histogram(&rgba(&pixels), 32).unwrap();
    assert_eq!(hist.len(), MAX_UNIQUE_COLORS);
    assert_eq!(hist.get([0, 33, 7]).unwrap().first, (1, 1));
}

#[test]
fn region_areas_skip_unassigned_pixels() {
    assert_eq!(region_areas(&[0, 1, UNASSIGNED, 1, 1], 3), vec![1, 3, 0]);
}

/// A U shape is one region: its arms meet through the bottom row.
#[test]
fn a_u_shape_is_one_region() {
    let map = label_regions(&rgba(&[R, G, R, R, G, R, R, R, R]), 3, 3);
    assert_eq!(map.count, 2);
    assert_eq!(map.labels, vec![0, 1, 0, 0, 1, 0, 0, 0, 0]);
    assert_eq!(map.areas, vec![7, 2]);
}

/// A colour that does not occur has no statistics.
#[test]
fn histogram_has_no_entry_for_an_absent_colour() {
    let hist = color_histogram(&rgba(&[R, G, G, R]), 2).unwrap();
    assert!(hist.get([1, 2, 3]).is_none());
    assert_eq!(hist.get(G).unwrap().area, 2);
}

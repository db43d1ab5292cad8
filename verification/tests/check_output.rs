use baker::check::output::check;
use baker::check::output::stats;
use baker::code;
use baker::segment::RegionMap;

/// The largest region count the 16-bit region raster can carry.
const MAX_REGION_COUNT: u32 = 65_535;

fn master(labels: &[u32], w: u32, h: u32, count: u32) -> RegionMap {
    RegionMap::from_labels(labels.to_vec(), w, h, count)
}

#[test]
fn stats_are_in_output_space() {
    let ids = vec![0, 0, 1, 1];
    let s = stats(&ids, 2, 2, 2);
    assert_eq!(s.area, vec![2, 2]);
    assert_eq!(s.bbox[0], [0, 0, 2, 1]);
    assert_eq!(s.centroid[1], [0, 1]);
}

#[test]
fn vanished_region_is_an_error_with_master_coordinates() {
    // master 4x2: two regions, id 1 is the single pixel (1,0)
    let m = master(&[0, 1, 0, 0, 0, 0, 0, 0], 4, 2, 2);
    let ids = vec![0, 0]; // the majority swallowed id 1
    let s = stats(&ids, 2, 1, m.count);
    let out = check(&m, &ids, 2, 1, &s, MAX_REGION_COUNT);
    let d = out
        .iter()
        .find(|d| d.code == code::REGION_COUNT_DRIFT)
        .unwrap();
    assert!(d.coords.contains(&(1, 0)));
}

#[test]
fn split_region_is_a_warning() {
    // id 0 is cut in two by id 1 at output resolution
    let m2 = master(&[0, 1, 0], 3, 1, 2);
    let split_ids = vec![0, 1, 0];
    let s = stats(&split_ids, 3, 1, m2.count);
    let out = check(&m2, &split_ids, 3, 1, &s, MAX_REGION_COUNT);
    assert!(out.iter().any(|d| d.code == code::REGION_SPLIT));

    // a connected region is not reported
    let m1 = master(&[0, 0, 0, 0], 4, 1, 1);
    let ids = vec![0, 0, 0, 0];
    let s = stats(&ids, 4, 1, m1.count);
    assert!(
        !check(&m1, &ids, 4, 1, &s, MAX_REGION_COUNT)
            .iter()
            .any(|d| d.code == code::REGION_SPLIT)
    );
}

/// A region below the area threshold is reported at its centroid, doubled back
/// to master coordinates.
#[test]
fn tiny_region_is_reported_at_its_doubled_centroid() {
    // 20x20 output: region 1 is a 3x3 block at (5..8, 5..8)
    let (w, h) = (20u32, 20u32);
    let mut ids = vec![0u32; (w * h) as usize];
    for y in 5..8 {
        for x in 5..8 {
            ids[(y * w + x) as usize] = 1;
        }
    }
    let m = master(&vec![0u32; 4], 2, 2, 2);
    let s = stats(&ids, w, h, 2);
    assert_eq!(s.area[1], 9);
    assert_eq!(s.centroid[1], [6, 6]);
    let out = check(&m, &ids, w, h, &s, MAX_REGION_COUNT);
    let d = out.iter().find(|d| d.code == code::TINY_REGION).unwrap();
    assert_eq!(d.coords, vec![(12, 12)]);
    assert_eq!(d.coord_total, 1);
}

/// Fewer than the recommended number of regions is a warning.
#[test]
fn few_regions_are_out_of_the_recommended_range() {
    let m = master(&[0, 0, 0, 0], 4, 1, 1);
    let ids = vec![0, 0, 0, 0];
    let s = stats(&ids, 4, 1, 1);
    let out = check(&m, &ids, 4, 1, &s, MAX_REGION_COUNT);
    assert!(out.iter().any(|d| d.code == code::REGION_COUNT_RANGE));
    assert!(!out.iter().any(|d| d.code == code::REGION_COUNT_OVERFLOW));
}

/// More regions than the raster can carry is an error.
#[test]
fn too_many_regions_overflow_the_raster() {
    let m = master(&[0, 1, 2, 3], 4, 1, 4);
    let ids = vec![0, 1, 2, 3];
    let s = stats(&ids, 4, 1, 4);
    let out = check(&m, &ids, 4, 1, &s, 3);
    let d = out.iter().find(|d| d.code == code::REGION_COUNT_OVERFLOW).unwrap();
    assert_eq!(d.message, "區域數 4 超過 R16 上限 3，regions.bin 裝不下");
}

use baker::debug_out::preview;
use baker::debug_out::preview_palette;
use baker::debug_out::reference_preview;
use baker::debug_out::region_stats;
use baker::debug_out::rgb_distance;
use baker::debug_out::seeds_overlay;
use baker::debug_out::DebugInput;
use baker::debug_out::COLLISION_RED;
use baker::debug_out::ORPHAN_YELLOW;
use baker::seeds::Seed;
use baker::segment::Orphan;
use baker::segment::UNASSIGNED;
use baker::text::hex_color;

fn seed(x: u32, y: u32, color: [u8; 3]) -> Seed {
    Seed {
        anchor: (x, y),
        color,
        solid_area: 100,
    }
}

/// One row of pixels.
fn input<'a>(
    labels: &'a [u32],
    line: &'a [bool],
    seeds: &'a [Seed],
    lineart: &'a [u8],
    collisions: &'a [(u32, u32)],
    orphans: &'a [Orphan],
) -> DebugInput<'a> {
    DebugInput {
        id: "t",
        width: labels.len() as u32,
        height: 1,
        labels,
        seeds,
        line,
        lineart_white: lineart,
        shade_white: None,
        collisions,
        orphans,
    }
}

/// Spatially adjacent regions get colours far apart.
#[test]
fn spatially_adjacent_regions_get_far_apart_colours() {
    // 9x3 stripes: 0|line|1|line|2 ..., each touching its neighbours
    let w = 9usize;
    let mut labels = vec![UNASSIGNED; w * 3];
    let mut line = vec![false; w * 3];
    for y in 0..3 {
        for x in 0..w {
            if x % 2 == 1 {
                line[y * w + x] = true;
            } else {
                labels[y * w + x] = (x / 2) as u32;
            }
        }
    }
    let seeds: Vec<Seed> = (0..5).map(|i| seed(i * 2, 1, [0, 0, 0])).collect();
    let lineart = vec![255u8; w * 3 * 4];
    let palette = preview_palette(&DebugInput {
        id: "t",
        width: w as u32,
        height: 3,
        labels: &labels,
        seeds: &seeds,
        line: &line,
        lineart_white: &lineart,
        shade_white: None,
        collisions: &[],
        orphans: &[],
    });

    for id in 0..4 {
        let d = rgb_distance(palette[id], palette[id + 1]);
        assert!(
            d > 10_000,
            "regions {id} and {}: {:?} vs {:?}",
            id + 1,
            palette[id],
            palette[id + 1]
        );
    }
}

/// Unclaimed pixels stay white on the preview; lines stay dark.
#[test]
fn unassigned_pixels_stay_white_and_lines_stay_dark() {
    let labels = [0, UNASSIGNED, UNASSIGNED];
    let line = [false, true, false];
    let seeds = [seed(0, 0, [1, 2, 3])];
    let lineart = vec![255u8; 12];
    let out = preview(&input(&labels, &line, &seeds, &lineart, &[], &[]));
    assert_eq!(&out[4..7], &[40, 40, 40], "line pixel");
    assert_eq!(&out[8..11], &[255, 255, 255], "orphan area");
    assert_ne!(&out[0..3], &[255, 255, 255], "claimed regions are coloured");
}

/// The reference preview treats unclaimed pixels as white.
#[test]
fn reference_preview_survives_holes_in_the_labels() {
    let labels = [0, UNASSIGNED];
    let line = [false, true];
    let seeds = [seed(0, 0, [200, 100, 50])];
    let lineart = vec![255u8; 8];
    let out = reference_preview(&input(&labels, &line, &seeds, &lineart, &[], &[]));
    assert_eq!(&out[0..3], &[200, 100, 50]);
    assert_eq!(&out[4..7], &[255, 255, 255]);
}

/// The per-region statistics skip unclaimed pixels.
#[test]
fn regions_json_counts_only_claimed_pixels() {
    let labels = [0, 0, UNASSIGNED, 1];
    let line = [false, false, true, false];
    let seeds = [seed(0, 0, [1, 2, 3]), seed(3, 0, [4, 5, 6])];
    let lineart = vec![255u8; 16];
    let orphans = [Orphan {
        area: 1,
        anchor: (2, 0),
        bbox: [2, 0, 1, 1],
    }];
    let s = region_stats(&input(&labels, &line, &seeds, &lineart, &[], &orphans));
    assert_eq!(s.area, vec![2, 1]);
    assert_eq!(s.bbox[0], [0, 0, 2, 1]);
    assert_eq!(s.bbox[1], [3, 0, 1, 1]);
    assert_eq!(hex_color(seeds[0].color), "#010203");
}

/// The collision line and the orphan box are drawn, and seeds are drawn on top.
#[test]
fn collision_and_orphan_markers_are_actually_drawn() {
    let labels = [0u32; 400];
    let line = [false; 400];
    let seeds = [seed(5, 0, [10, 10, 10]), seed(300, 0, [10, 10, 10])];
    let lineart = vec![255u8; 1600];
    let orphans = [Orphan {
        area: 50,
        anchor: (200, 0),
        bbox: [200, 0, 50, 1],
    }];
    let out = seeds_overlay(&input(
        &labels,
        &line,
        &seeds,
        &lineart,
        &[(0, 1)],
        &orphans,
    ));
    let px = |x: usize| [out[x * 4], out[x * 4 + 1], out[x * 4 + 2]];

    assert_eq!(px(150), COLLISION_RED, "a red line between the two seeds");
    assert_eq!(px(220), ORPHAN_YELLOW, "a yellow box round the orphan area");
    assert_eq!(px(5), [10, 10, 10], "the seed is drawn in its suggested colour");
}

#[test]
fn rgb_distance_is_the_squared_euclidean_distance() {
    assert_eq!(rgb_distance([0, 0, 0], [255, 255, 255]), 3 * 255 * 255);
    assert_eq!(rgb_distance([10, 20, 30], [13, 16, 30]), 25);
    assert_eq!(rgb_distance([1, 2, 3], [1, 2, 3]), 0);
}

/// A single region gets the first preview colour.
#[test]
fn a_lone_region_takes_the_first_candidate() {
    let labels = [0u32, 0];
    let line = [false, false];
    let seeds = [seed(0, 0, [0, 0, 0])];
    let lineart = vec![255u8; 8];
    let p1 = preview_palette(&input(&labels, &line, &seeds, &lineart, &[], &[]));
    assert_eq!(p1.len(), 1);
    let out = preview(&input(&labels, &line, &seeds, &lineart, &[], &[]));
    assert_eq!(&out[0..3], &p1[0]);
    assert_eq!(out[3], 255);
}

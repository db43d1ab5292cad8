use baker::resample::box_alpha;
use baker::resample::box_rgba;
use baker::resample::box_rgba_by;
use baker::resample::majority_ids;
use baker::resample::winner;

#[test]
fn plain_majority_wins() {
    // 3:1: the large region 0 still wins because it has more votes
    let areas = [100, 1];
    assert_eq!(majority_ids(&[0, 0, 0, 1], 2, 2, &areas), vec![0]);
}

/// A 2:2 tie goes to the region smaller on the master.
#[test]
fn tie_goes_to_the_smaller_master_region() {
    let areas = [10_000, 40];
    assert_eq!(majority_ids(&[0, 0, 1, 1], 2, 2, &areas), vec![1]);
    assert_eq!(majority_ids(&[1, 1, 0, 0], 2, 2, &areas), vec![1]);
}

#[test]
fn tie_on_area_goes_to_the_smaller_id() {
    let areas = [40, 40];
    assert_eq!(majority_ids(&[1, 1, 0, 0], 2, 2, &areas), vec![0]);
}

/// Four different ids (1:1:1:1) are a tie as well, under the same rule.
#[test]
fn four_way_tie_uses_the_same_rule() {
    let areas = [9, 8, 7, 6];
    assert_eq!(majority_ids(&[0, 1, 2, 3], 2, 2, &areas), vec![3]);
}

#[test]
fn box_filter_averages_and_rounds_half_up() {
    let src = [0, 0, 0, 0, 1, 1, 1, 1, 2, 2, 2, 2, 3, 3, 3, 3];
    assert_eq!(box_rgba(&src, 2, 2), vec![2, 2, 2, 2]);
}

#[test]
fn alpha_downsample_reads_alpha_not_rgb() {
    let src = [
        255, 255, 255, 0, 255, 255, 255, 0, 255, 255, 255, 255, 255, 255, 255, 255,
    ];
    assert_eq!(box_alpha(&src, 2, 2), vec![128]);
}

/// The alpha plane equals the alpha channel of the full downsample.
#[test]
fn box_alpha_is_the_alpha_of_box_rgba() {
    let src: Vec<u8> = (0..4 * 4 * 4).map(|i| (i * 37 % 256) as u8).collect();
    let full = box_rgba(&src, 4, 4);
    let alpha = box_alpha(&src, 4, 4);
    let from_full: Vec<u8> = full.chunks(4).map(|p| p[3]).collect();
    assert_eq!(alpha, from_full);
}

/// A factor of 4 averages 16 pixels: (0+..+15)=120, 120/16 = 7.5 rounds to 8.
#[test]
fn box_by_four_rounds_half_up() {
    let src: Vec<u8> = (0..16u8).flat_map(|v| [v, v, v, v]).collect();
    assert_eq!(box_rgba_by(&src, 4, 4, 4), vec![8, 8, 8, 8]);
}

/// An odd edge drops the last row and column.
#[test]
fn odd_edges_are_truncated() {
    let src = vec![9u8; 3 * 3 * 4];
    assert_eq!(box_rgba(&src, 3, 3), vec![9, 9, 9, 9]);
}

#[test]
fn winner_prefers_votes_then_area_then_id() {
    let areas = [5, 5, 1];
    assert_eq!(winner(&[0, 0, 1, 2], &areas), 0);
    assert_eq!(winner(&[0, 1, 1, 0], &areas), 0);
    assert_eq!(winner(&[0, 2, 2, 0], &areas), 2);
}

/// A factor larger than the image leaves no block: the result is empty.
#[test]
fn box_factor_beyond_the_image_gives_nothing() {
    assert!(baker::resample::box_rgba_by(&[9u8; 16], 2, 2, 5000).is_empty());
}

/// A block mean rounds half up.
#[test]
fn box_by_three_rounds_half_up() {
    let mut src = vec![0u8; 9 * 4];
    for p in 0..9 {
        src[p * 4] = if p < 5 { 1 } else { 0 };
    }
    // 5 / 9 = 0.56 rounds to 1.
    assert_eq!(baker::resample::box_rgba_by(&src, 3, 3, 3), vec![1, 0, 0, 0]);
}

use baker::binarize::line_mask;
use baker::binarize::line_pixels;
use baker::binarize::DEFAULT_LINE_THRESHOLD;

fn rgba(alphas: &[u8]) -> Vec<u8> {
    alphas.iter().flat_map(|&a| [0, 0, 0, a]).collect()
}

/// The threshold is `>=`, not `>`.
#[test]
fn alpha_at_the_threshold_counts_as_line() {
    assert_eq!(line_mask(&rgba(&[127, 128]), 128), vec![false, true]);
}

#[test]
fn a_fully_transparent_lineart_has_no_line_pixels() {
    assert_eq!(line_mask(&rgba(&[0, 0, 0, 0]), DEFAULT_LINE_THRESHOLD), vec![false; 4]);
}

#[test]
fn an_opaque_lineart_is_all_line() {
    assert_eq!(line_mask(&rgba(&[255, 255, 255, 255]), DEFAULT_LINE_THRESHOLD), vec![true; 4]);
}

#[test]
fn only_the_alpha_channel_is_read() {
    assert_eq!(line_mask(&[255, 255, 255, 0, 0, 0, 0, 200], 128), vec![false, true]);
}

#[test]
fn an_empty_image_has_an_empty_mask() {
    assert_eq!(line_mask(&[], 128), Vec::<bool>::new());
}

#[test]
fn line_pixels_count_the_set_flags() {
    assert_eq!(line_pixels(&line_mask(&rgba(&[0, 200, 255, 127]), 128)), 2);
    assert_eq!(line_pixels(&[]), 0);
}

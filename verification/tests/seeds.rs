use baker::seeds::read;
use baker::seeds::MIN_SEED_AREA;

fn img(px: &[[u8; 4]]) -> Vec<u8> {
    px.iter().flatten().copied().collect()
}

const T: [u8; 4] = [0, 0, 0, 0];
const R: [u8; 4] = [255, 0, 0, 255];
const G: [u8; 4] = [0, 255, 0, 255];

/// Two separate dots become two seeds, in raster order of their anchors.
#[test]
fn separate_dots_become_separate_seeds_in_raster_order() {
    let rgba = img(&[G, T, T, T, T, T, T, T, R]);
    let seeds = read(&rgba, 3, 3);
    assert_eq!(seeds.len(), 2);
    assert_eq!(seeds[0].anchor, (0, 0));
    assert_eq!(seeds[0].color, [0, 255, 0]);
    assert_eq!(seeds[1].anchor, (2, 2));
    assert_eq!(seeds[1].color, [255, 0, 0]);
}

/// Half-transparent fringe pixels count neither for the mode colour nor for
/// the solid area.
#[test]
fn antialiased_fringe_does_not_affect_the_mode_colour() {
    let dirty = [200, 40, 40, 128];
    let rgba = img(&[R, R, R, dirty]);
    let seeds = read(&rgba, 4, 1);
    assert_eq!(seeds.len(), 1, "the fringe touches the solid pixels: one dot");
    assert_eq!(seeds[0].color, [255, 0, 0]);
    assert_eq!(seeds[0].solid_area, 3);
}

/// The centroid of a C-shaped dot lies outside it; the anchor must not.
#[test]
fn anchor_of_a_concave_dot_stays_inside_the_dot() {
    let rgba = img(&[
        R, R, R, R, R, //
        R, T, T, T, T, //
        R, R, R, R, R,
    ]);
    let seeds = read(&rgba, 5, 3);
    assert_eq!(seeds.len(), 1);
    let (x, y) = seeds[0].anchor;
    let i = (y * 5 + x) as usize;
    assert_eq!(rgba[i * 4 + 3], 255, "anchor ({x},{y}) lies outside the dot");
}

#[test]
fn a_tie_in_the_histogram_goes_to_the_lexicographically_smaller_colour() {
    let rgba = img(&[R, G]);
    let seeds = read(&rgba, 2, 1);
    assert_eq!(seeds[0].color, [0, 255, 0], "1 px each: the smaller colour wins");
}

#[test]
fn a_blank_image_yields_no_seeds() {
    assert!(read(&img(&[T, T, T, T]), 2, 2).is_empty());
}

/// A dot of only half-transparent pixels is still a seed, with solid area 0.
#[test]
fn a_dot_without_solid_pixels_has_zero_solid_area() {
    let soft = [10, 20, 30, 100];
    let seeds = read(&img(&[soft, T]), 2, 1);
    assert_eq!(seeds.len(), 1);
    assert_eq!(seeds[0].solid_area, 0);
    assert!(seeds[0].solid_area < MIN_SEED_AREA);
}

/// Dots touching only diagonally are separate seeds (4-connectivity).
#[test]
fn diagonal_dots_are_separate() {
    let seeds = read(&img(&[R, T, T, R]), 2, 2);
    assert_eq!(seeds.len(), 2);
    assert_eq!(seeds[0].anchor, (0, 0));
    assert_eq!(seeds[1].anchor, (1, 1));
}

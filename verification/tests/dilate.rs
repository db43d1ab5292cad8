use baker::dilate::dilate_under_lineart;
use baker::dilate::LINE_ALPHA_THRESHOLD;

/// Five pixels in a row, the middle three under the line. Each side advances
/// 1px per round; the centre tie goes to the smaller region.
#[test]
fn two_rounds_advance_two_pixels_from_each_side() {
    let mut ids = vec![0, 9, 9, 9, 1];
    let line = vec![0, 255, 255, 255, 0];
    dilate_under_lineart(&mut ids, 5, 1, &line, &[10, 20, 0, 0, 0, 0, 0, 0, 0, 999]);
    assert_eq!(ids, vec![0, 0, 0, 1, 1]);
}

/// The resolved set grows every round: with a 4px band the inner two pixels
/// are reached in the second round.
#[test]
fn resolved_set_grows_each_round() {
    let mut ids = vec![0, 9, 9, 9, 9, 1];
    let line = vec![0, 255, 255, 255, 255, 0];
    dilate_under_lineart(&mut ids, 6, 1, &line, &[10, 20, 0, 0, 0, 0, 0, 0, 0, 999]);
    assert_eq!(ids, vec![0, 0, 0, 1, 1, 1]);
}

/// A band too thick for two rounds keeps its original ids in the middle.
#[test]
fn pixels_beyond_reach_keep_their_original_id() {
    let mut ids = vec![0, 9, 9, 9, 9, 9, 9, 1];
    let line = vec![0, 255, 255, 255, 255, 255, 255, 0];
    dilate_under_lineart(&mut ids, 8, 1, &line, &[10, 20, 0, 0, 0, 0, 0, 0, 0, 999]);
    assert_eq!(ids, vec![0, 0, 0, 9, 9, 1, 1, 1]);
}

#[test]
fn non_line_pixels_are_never_overwritten() {
    let mut ids = vec![5, 5, 5, 5];
    let line = vec![0, 0, 0, 0];
    dilate_under_lineart(&mut ids, 4, 1, &line, &[0, 0, 0, 0, 0, 1]);
    assert_eq!(ids, vec![5, 5, 5, 5]);
}

#[test]
fn alpha_below_threshold_is_not_line() {
    let mut ids = vec![0, 9, 1];
    let line = vec![0, LINE_ALPHA_THRESHOLD - 1, 0];
    dilate_under_lineart(&mut ids, 3, 1, &line, &[1, 1, 0, 0, 0, 0, 0, 0, 0, 1]);
    assert_eq!(ids, vec![0, 9, 1]);
}

/// A line pixel in a 2D band takes the neighbour with the smaller area.
#[test]
fn the_smaller_neighbour_wins_in_two_dimensions() {
    // 3x3, centre is line; left neighbour id 1 (area 50), top neighbour id 2 (area 5)
    let mut ids = vec![2, 2, 2, 1, 7, 3, 1, 4, 3];
    let line = vec![0, 0, 0, 0, 255, 0, 0, 0, 0];
    let areas = [0, 50, 5, 60, 70, 0, 0, 99];
    dilate_under_lineart(&mut ids, 3, 3, &line, &areas);
    assert_eq!(ids, vec![2, 2, 2, 1, 2, 3, 1, 4, 3]);
}

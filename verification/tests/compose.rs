use baker::compose::luma;
use baker::compose::over_white;

#[test]
fn transparent_becomes_white_opaque_is_untouched() {
    let src = [0, 0, 0, 0, 10, 20, 30, 255];
    assert_eq!(over_white(&src), vec![255, 255, 255, 255, 10, 20, 30, 255]);
}

#[test]
fn half_transparent_black_lands_midway() {
    let out = over_white(&[0, 0, 0, 128]);
    assert_eq!(&out[..3], &[127, 127, 127]);
    assert_eq!(out[3], 255);
}

#[test]
fn luma_of_white_and_black() {
    assert_eq!(luma([255, 255, 255]), 255);
    assert_eq!(luma([0, 0, 0]), 0);
}

/// (255*a + 255*(255-a) + 127) / 255 per channel: a red pixel at alpha 51.
#[test]
fn over_white_rounds_the_blend() {
    // red: (255*51 + 255*204 + 127)/255 = 255; green/blue: (0 + 255*204 + 127)/255 = 204
    assert_eq!(over_white(&[255, 0, 0, 51]), vec![255, 204, 204, 255]);
}

/// Rec.709 weights: pure green is 0.7152 * 255 = 182.376, rounded to 182.
#[test]
fn luma_weights_follow_rec709() {
    assert_eq!(luma([0, 255, 0]), 182);
    assert_eq!(luma([255, 0, 0]), 54);
    assert_eq!(luma([0, 0, 255]), 18);
    assert_eq!(luma([60, 60, 60]), 60);
}

/// Every luma is the rounded Rec.709 weighted sum.
#[test]
fn luma_matches_the_weighted_sum_on_a_sample() {
    for r in (0..=255u32).step_by(17) {
        for g in (0..=255u32).step_by(15) {
            for b in (0..=255u32).step_by(51) {
                let y = 0.2126f32 * r as f32 + 0.7152f32 * g as f32 + 0.0722f32 * b as f32;
                let want = y.round().clamp(0.0, 255.0) as u8;
                assert_eq!(luma([r as u8, g as u8, b as u8]), want, "{r} {g} {b}");
            }
        }
    }
}

use baker::thumb::composite;
use baker::thumb::render;
use baker::thumb::ThumbError;

#[test]
fn multiplies_reference_color_by_lineart_and_shade() {
    // 8x8, one region, white line art (no change), half-grey shade
    let labels = vec![0u32; 64];
    let lineart = vec![255u8; 64 * 4];
    let shade = vec![128u8; 64 * 4];
    let jpeg = render(8, 8, &labels, &[[200, 100, 50]], &lineart, Some(&shade)).unwrap();
    assert_eq!(&jpeg[..2], &[0xff, 0xd8], "a JPEG starts with SOI");
}

#[test]
fn output_long_edge_is_512() {
    let labels = vec![0u32; 1024 * 1024];
    let lineart = vec![255u8; 1024 * 1024 * 4];
    let jpeg = render(1024, 1024, &labels, &[[10, 20, 30]], &lineart, None).unwrap();
    assert!(jpeg.len() > 100);
}

/// Suggested colour x shade / 255 x line art / 255, per channel.
#[test]
fn the_composite_multiplies_exactly() {
    let out = composite(&[0], &[[200, 100, 50]], &[255, 128, 0, 255], Some(&[128, 255, 255, 255]));
    // 200*128/255 = 100, then *255/255 = 100; 100*255/255 = 100, *128/255 = 50; 50 -> *0 = 0
    assert_eq!(out, vec![100, 50, 0, 255]);
}

/// The thumbnail is 512 on its long edge: decode the SOF0 dimensions.
#[test]
fn the_jpeg_is_512_on_the_long_edge() {
    let labels = vec![0u32; 1024 * 768];
    let lineart = vec![255u8; 1024 * 768 * 4];
    let jpeg = render(1024, 768, &labels, &[[10, 20, 30]], &lineart, None).unwrap();
    let sof = jpeg.windows(2).position(|w| w == [0xff, 0xc0]).expect("SOF0");
    let h = u16::from_be_bytes([jpeg[sof + 5], jpeg[sof + 6]]);
    let w = u16::from_be_bytes([jpeg[sof + 7], jpeg[sof + 8]]);
    assert_eq!((w, h), (512, 384));
}

#[test]
fn a_master_smaller_than_the_factor_is_empty() {
    let labels = vec![0u32; 1024];
    let lineart = vec![255u8; 1024 * 4];
    assert_eq!(render(1024, 1, &labels, &[[1, 2, 3]], &lineart, None), Err(ThumbError::Empty));
}

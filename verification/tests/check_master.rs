use baker::check::master::color_space;
use baker::check::master::flats;
use baker::check::master::geometry;
use baker::check::master::shade;
use baker::check::master::Aspect;
use baker::code;
use baker::image::ColorSpace;
use baker::image::Image;

fn image(w: u32, h: u32, rgba: Vec<u8>) -> Image {
    Image {
        width: w,
        height: h,
        rgba,
        color_space: ColorSpace {
            is_srgb: true,
            basis: "測試".into(),
        },
    }
}

#[test]
fn alpha_below_255_is_an_unassigned_pixel() {
    let mut rgba = vec![255u8; 4 * 4];
    rgba[4 * 2 + 3] = 254;
    let (out, _) = flats(&image(2, 2, rgba));
    let d = out
        .iter()
        .find(|d| d.code == code::UNASSIGNED_PIXEL)
        .unwrap();
    assert_eq!(d.coords, vec![(0, 1)]);
}

#[test]
fn reserved_magenta_is_reported_with_its_first_coordinate() {
    let mut rgba: Vec<u8> = std::iter::repeat_n([9u8, 9, 9, 255], 4).flatten().collect();
    rgba[4..8].copy_from_slice(&[255, 0, 255, 255]);
    let (out, _) = flats(&image(2, 2, rgba));
    let d = out.iter().find(|d| d.code == code::RESERVED_COLOR).unwrap();
    assert_eq!(d.coords, vec![(1, 0)]);
}

#[test]
fn canvas_size_rejects_anything_but_the_two_shapes() {
    let img = image(2048, 2048, vec![255; 2048 * 2048 * 4]);
    let (out, aspect) = geometry(&[("flats.png", &img)]);
    assert!(aspect.is_none());
    assert_eq!(out[0].code, code::CANVAS_SIZE);
}

#[test]
fn shade_luma_floor_is_checked_after_compositing() {
    let dark = vec![10u8, 10, 10, 255, 255, 255, 255, 255];
    let out = shade(&dark, 2);
    assert_eq!(out[0].code, code::SHADE_TOO_DARK);
    assert_eq!(out[0].coords, vec![(0, 0)]);
}

#[test]
fn the_two_canvas_shapes_are_recognised() {
    assert_eq!(Aspect::from_master_size(4096, 4096), Some(Aspect::Square));
    assert_eq!(Aspect::from_master_size(3072, 4096), Some(Aspect::Portrait));
    assert_eq!(Aspect::from_master_size(4096, 3072), None);
    assert_eq!(Aspect::from_master_size(2048, 2048), None);
}

#[test]
fn sizes_that_differ_from_the_first_image_are_listed() {
    let a = image(2, 2, vec![0; 16]);
    let b = image(1, 2, vec![0; 8]);
    let (out, aspect) = geometry(&[("flats.png", &a), ("lineart.png", &b)]);
    assert!(aspect.is_none());
    assert_eq!(out[0].code, code::SIZE_MISMATCH);
    assert_eq!(
        out[0].message,
        "四張圖尺寸不一致：flats.png 2×2，但 lineart.png 1×2。必須從同一個 .clip 的不同圖層導出"
    );
    assert_eq!(out[1].code, code::CANVAS_SIZE);
    assert_eq!(out[1].message, "畫布 2×2 不合規：長邊必須是 4096，比例 1:1（4096×4096）或 3:4（3072×4096）");
}

#[test]
fn a_non_srgb_profile_is_an_error_quoting_its_basis() {
    let mut img = image(1, 1, vec![0; 4]);
    img.color_space = ColorSpace { is_srgb: false, basis: "iCCP Display P3".into() };
    let good = image(1, 1, vec![0; 4]);
    let out = color_space(&[("seeds.png", &good), ("flats.png", &img)]);
    assert_eq!(out.len(), 1);
    assert_eq!(out[0].code, code::COLOR_SPACE);
    assert_eq!(out[0].message, "flats.png 的色彩描述檔不是 sRGB：iCCP Display P3");
}

#[test]
fn a_light_shade_passes() {
    let light = vec![200u8, 200, 200, 255, 60, 60, 60, 255];
    assert!(shade(&light, 2).is_empty());
}

/// A colour that covers fewer pixels than the area threshold is a tiny colour area.
#[test]
fn a_colour_with_few_pixels_is_reported() {
    let mut rgba: Vec<u8> = std::iter::repeat_n([9u8, 9, 9, 255], 200).flatten().collect();
    rgba[4 * 5..4 * 5 + 4].copy_from_slice(&[1, 2, 3, 255]);
    let (out, colors) = flats(&image(20, 10, rgba));
    assert_eq!(colors.count, 2);
    assert!(colors.exact);
    let d = out.iter().find(|d| d.code == code::TINY_COLOR_AREA).unwrap();
    assert_eq!(d.coords, vec![(5, 0)]);
}

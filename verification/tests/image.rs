use baker::image::colorants;
use baker::image::display_p3_profile;
use baker::image::encode_rgba;
use baker::image::srgb_profile;
use baker::image::synth_profile;
use baker::image::to_rgba8;
use baker::image::xyz_tag;
use baker::image::ColorLayout;
use baker::image::ColorSpace;
use baker::image::Colorants;
use baker::image::Compression;
use baker::image::Image;
use baker::image::PngError;
use baker::image::PngOptions;
use baker::image::D50;
use baker::image::D65;
use baker::image::P3_R;
use baker::image::SRGB_B;
use baker::image::SRGB_G;
use baker::image::SRGB_R;

#[test]
fn an_srgb_profile_reads_back_its_colorants() {
    assert_eq!(
        colorants(&srgb_profile()),
        Some(Colorants { wtpt: Some(D65), r: SRGB_R, g: SRGB_G, b: SRGB_B })
    );
}

#[test]
fn a_display_p3_profile_reads_back_the_p3_red() {
    assert_eq!(colorants(&display_p3_profile()).unwrap().r, P3_R);
}

#[test]
fn negative_s15fixed16_values_survive_the_round_trip() {
    let p = synth_profile([-1, 0, i32::MAX], [i32::MIN, 7, 8], [9, 10, 11], D50);
    assert_eq!(p.len(), 260);
    assert_eq!(xyz_tag(&p, *b"rXYZ"), Some([i32::MIN, 7, 8]));
    assert_eq!(xyz_tag(&p, *b"wtpt"), Some([-1, 0, i32::MAX]));
    assert_eq!(xyz_tag(&p, *b"bXYZ"), Some(D50));
    assert_eq!(xyz_tag(&p, *b"kTRC"), None);
}

/// A profile without a tag table has no colorants: the verdict moves on.
#[test]
fn a_profile_without_tags_has_no_colorants() {
    assert_eq!(colorants(&[0u8; 132]), None);
    assert_eq!(colorants(&[0u8; 10]), None);
}

/// A tag whose element is not an `XYZType` does not read.
#[test]
fn a_tag_of_another_type_does_not_read() {
    let mut p = srgb_profile();
    // the red colorant's element starts at byte 200
    p[200] = b'x';
    assert_eq!(xyz_tag(&p, *b"rXYZ"), None);
    assert_eq!(colorants(&p), None);
    assert_eq!(xyz_tag(&p, *b"gXYZ"), Some(SRGB_G));
}

#[test]
fn layouts_expand_to_rgba8() {
    assert_eq!(to_rgba8(&[1, 2, 3, 4, 5, 6], ColorLayout::Rgb), Some(vec![1, 2, 3, 255, 4, 5, 6, 255]));
    assert_eq!(to_rgba8(&[7, 8], ColorLayout::Grayscale), Some(vec![7, 7, 7, 255, 8, 8, 8, 255]));
    assert_eq!(to_rgba8(&[7, 100], ColorLayout::GrayscaleAlpha), Some(vec![7, 7, 7, 100]));
    assert_eq!(to_rgba8(&[1, 2, 3, 4, 9], ColorLayout::Rgba), Some(vec![1, 2, 3, 4, 9]));
    assert_eq!(to_rgba8(&[1, 2, 3, 4, 9], ColorLayout::Rgb), Some(vec![1, 2, 3, 255]));
    assert_eq!(to_rgba8(&[0, 1], ColorLayout::Indexed), None);
}

#[test]
fn encoded_pixels_decode_back() {
    let rgba: Vec<u8> = (0..2 * 3 * 4).map(|i| (i * 11) as u8).collect();
    let opts = PngOptions { srgb: true, icc: None, compression: Compression::Fast };
    let bytes = encode_rgba(&rgba, 2, 3, &opts).unwrap();
    assert_eq!(&bytes[..8], &[137, 80, 78, 71, 13, 10, 26, 10]);
    let decoder = png::Decoder::new(std::io::Cursor::new(bytes));
    let mut reader = decoder.read_info().unwrap();
    assert_eq!((reader.info().width, reader.info().height), (2, 3));
    assert!(reader.info().srgb.is_some());
    let mut buf = vec![0; reader.output_buffer_size().unwrap()];
    let frame = reader.next_frame(&mut buf).unwrap();
    assert_eq!(&buf[..frame.buffer_size()], &rgba[..]);
}

#[test]
fn an_embedded_profile_is_written() {
    let rgba = vec![9u8; 4];
    let opts = PngOptions { srgb: false, icc: Some(display_p3_profile()), compression: Compression::Balanced };
    let bytes = encode_rgba(&rgba, 1, 1, &opts).unwrap();
    let reader = png::Decoder::new(std::io::Cursor::new(bytes)).read_info().unwrap();
    assert_eq!(reader.info().icc_profile.as_deref(), Some(&display_p3_profile()[..]));
}

#[test]
fn pixel_data_of_the_wrong_length_is_an_error() {
    let opts = PngOptions::default();
    assert_eq!(encode_rgba(&[0u8; 12], 2, 2, &opts), Err(PngError::Encoding));
    assert_eq!(encode_rgba(&[], 0, 0, &opts), Err(PngError::Encoding));
    assert!(opts.srgb);
    assert_eq!(opts.compression, Compression::Balanced);
}

#[test]
fn pixel_reads_rgba_at_x_y() {
    let img = Image {
        width: 2,
        height: 1,
        rgba: vec![1, 2, 3, 4, 5, 6, 7, 8],
        color_space: ColorSpace { is_srgb: true, basis: "x".into() },
    };
    assert_eq!(img.pixel(1, 0), [5, 6, 7, 8]);
}

fn png_with(width: u32, height: u32, color: png::ColorType, depth: png::BitDepth, palette: Option<Vec<u8>>, data: &[u8]) -> Vec<u8> {
    let mut out = Vec::new();
    {
        let mut enc = png::Encoder::new(&mut out, width, height);
        enc.set_color(color);
        enc.set_depth(depth);
        if let Some(p) = palette {
            enc.set_palette(p);
        }
        enc.write_header().unwrap().write_image_data(data).unwrap();
    }
    out
}

/// What the library writes, it reads back: size, pixels and the sRGB chunk.
#[test]
fn decoding_an_encoded_png_gives_its_pixels_back() {
    let rgba: Vec<u8> = (0..2 * 3 * 4).map(|i| (i * 9) as u8).collect();
    let opts = baker::image::PngOptions::default();
    let bytes = baker::image::encode_rgba(&rgba, 2, 3, &opts).unwrap();
    let d = baker::image::decode_image(&bytes).ok().unwrap();
    assert_eq!((d.width, d.height), (2, 3));
    assert_eq!(d.rgba, rgba);
    assert!(d.srgb);
    assert!(d.icc.is_none());
}

#[test]
fn decoding_grey_expands_to_opaque_rgba() {
    let bytes = png_with(2, 1, png::ColorType::Grayscale, png::BitDepth::Eight, None, &[10, 200]);
    let d = baker::image::decode_image(&bytes).ok().unwrap();
    assert_eq!(d.rgba, vec![10, 10, 10, 255, 200, 200, 200, 255]);
    assert!(!d.srgb);
}

#[test]
fn decoding_refuses_what_is_not_a_png() {
    assert_eq!(baker::image::decode_image(b"not a png").err(), Some(baker::image::LoadError::NotPng));
}

#[test]
fn decoding_refuses_sixteen_bit_samples() {
    let bytes = png_with(1, 1, png::ColorType::Rgba, png::BitDepth::Sixteen, None, &[0; 8]);
    assert_eq!(baker::image::decode_image(&bytes).err(), Some(baker::image::LoadError::BitDepth(16)));
}

#[test]
fn decoding_refuses_a_palette_image() {
    let bytes = png_with(2, 1, png::ColorType::Indexed, png::BitDepth::Eight, Some(vec![0, 0, 0, 255, 255, 255]), &[0, 1]);
    assert_eq!(baker::image::decode_image(&bytes).err(), Some(baker::image::LoadError::Layout(3)));
}

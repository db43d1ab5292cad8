//! `thumb.jpg`: every region in its suggested colour, multiplied by shade and
//! line art at master resolution, box-downsampled to a long edge of 512.
use vstd::prelude::*;
use crate::resample::{box_fits, box_px, box_rgba_by};

verus! {

pub const LONG_EDGE: u32 = 512;
pub const QUALITY: u8 = 85;

/// Colour channel `c` of pixel `p`: the suggested colour of its region, times the
/// shade (when there is one) and the line art, each as a fraction of 255.
pub open spec fn composite_channel(labels: Seq<u32>, suggested: Seq<[u8; 3]>, lineart: Seq<u8>, shade: Option<Seq<u8>>, p: int, c: int) -> int {
    let base = suggested[labels[p] as int][c] as int;
    let shaded = match shade {
        Some(s) => base * s[4 * p + c] / 255,
        None => base,
    };
    shaded * lineart[4 * p + c] / 255
}

/// The composited master: opaque, each pixel per `composite_channel`.
pub open spec fn composite_spec(labels: Seq<u32>, suggested: Seq<[u8; 3]>, lineart: Seq<u8>, shade: Option<Seq<u8>>) -> Seq<u8> {
    Seq::new(4 * labels.len(), |i: int| if i % 4 == 3 {
        255u8
    } else {
        composite_channel(labels, suggested, lineart, shade, i / 4, i % 4) as u8
    })
}

/// `Some(s@)` for `Some(s)`.
pub open spec fn view_opt(s: Option<&[u8]>) -> Option<Seq<u8>> {
    match s {
        Some(v) => Some(v@),
        None => None,
    }
}

/// Paints every region in its suggested colour, multiplied by the shade and the
/// line art (both already composited onto white).
pub fn composite(labels: &[u32], suggested: &[[u8; 3]], lineart_white: &[u8], shade_white: Option<&[u8]>) -> (out: Vec<u8>)
    requires
        4 * labels@.len() <= usize::MAX,
        forall|i: int| 0 <= i < labels@.len() ==> (#[trigger] labels@[i]) < suggested@.len(),
        lineart_white@.len() >= 4 * labels@.len(),
        shade_white matches Some(s) ==> s@.len() >= 4 * labels@.len(),
    ensures
        out@ == composite_spec(labels@, suggested@, lineart_white@, view_opt(shade_white)),
{
    let n = labels.len();
    let ghost spec = composite_spec(labels@, suggested@, lineart_white@, view_opt(shade_white));
    let mut master: Vec<u8> = vec![255u8; 4 * n];
    let mut i: usize = 0;
    while i < n
        invariant
            n == labels@.len(),
            4 * n <= usize::MAX,
            forall|j: int| 0 <= j < n ==> (#[trigger] labels@[j]) < suggested@.len(),
            lineart_white@.len() >= 4 * n,
            shade_white matches Some(s) ==> s@.len() >= 4 * n,
            spec == composite_spec(labels@, suggested@, lineart_white@, view_opt(shade_white)),
            i <= n,
            master@.len() == 4 * n,
            forall|j: int| 0 <= j < 4 * n ==> #[trigger] master@[j] == (if j < 4 * i { spec[j] } else { 255u8 }),
        decreases n - i,
    {
        let base = suggested[labels[i] as usize];
        let mut c: usize = 0;
        while c < 3
            invariant
                n == labels@.len(),
                4 * n <= usize::MAX,
                i < n,
                lineart_white@.len() >= 4 * n,
                shade_white matches Some(s) ==> s@.len() >= 4 * n,
                labels@[i as int] < suggested@.len(),
                base == suggested@[labels@[i as int] as int],
                spec == composite_spec(labels@, suggested@, lineart_white@, view_opt(shade_white)),
                c <= 3,
                master@.len() == 4 * n,
                forall|j: int| 0 <= j < 4 * n ==> #[trigger] master@[j] == (if j < 4 * i + c { spec[j] } else { 255u8 }),
            decreases 3 - c,
        {
            let mut v: u32 = base[c] as u32;
            if let Some(shade) = shade_white {
                let sv = shade[i * 4 + c] as u32;
                assert(v * sv / 255 <= 255) by (nonlinear_arith)
                    requires
                        v <= 255,
                        sv <= 255,
                ;
                v = v * sv / 255;
            }
            let lv = lineart_white[i * 4 + c] as u32;
            assert(v * lv / 255 <= 255) by (nonlinear_arith)
                requires
                    v <= 255,
                    lv <= 255,
            ;
            v = v * lv / 255;
            assert(v == composite_channel(labels@, suggested@, lineart_white@, view_opt(shade_white), i as int, c as int));
            assert(v <= 255);
            master.set(i * 4 + c, v as u8);
            proof {
                assert forall|j: int| 0 <= j < 4 * n implies #[trigger] master@[j] == (if j < 4 * i + c + 1 { spec[j] } else { 255u8 }) by {
                    if j == 4 * i + c {
                        assert(j / 4 == i && j % 4 == c);
                    }
                }
            }
            c += 1;
        }
        proof {
            assert forall|j: int| 0 <= j < 4 * n implies #[trigger] master@[j] == (if j < 4 * (i + 1) { spec[j] } else { 255u8 }) by {
                if j == 4 * i + 3 {
                    assert(j % 4 == 3);
                }
            }
        }
        i += 1;
    }
    assert(master@ =~= spec);
    master
}

#[verifier::external_type_specification]
#[verifier::external_body]
pub struct ExEncodingError(jpeg_encoder::EncodingError);

/// The baseline JPEG that `jpeg_encoder` writes for RGBA pixels of the given size
/// at the given quality.
pub uninterp spec fn jpeg_bytes(rgba: Seq<u8>, width: u16, height: u16, quality: u8) -> Seq<u8>;

/// `jpeg_encoder::Encoder::new(.., quality).encode(rgba, width, height, ColorType::Rgba)`
/// into an empty buffer. Per the crate's source, the only failures on an
/// in-memory buffer are a zero dimension and too little pixel data; the output
/// starts with the SOI marker `FF D8`, and is a function of the arguments.
#[verifier::external_body]
fn encode_jpeg(rgba: &[u8], width: u16, height: u16, quality: u8) -> (r: Result<Vec<u8>, jpeg_encoder::EncodingError>)
    requires
        4 * (width as int) * (height as int) <= usize::MAX,
    ensures
        r is Ok <==> (width > 0 && height > 0 && rgba@.len() >= 4 * (width as int) * (height as int)),
        r matches Ok(v) ==> v@ == jpeg_bytes(rgba@, width, height, quality) && v@.len() >= 2 && v@[0] == 0xFF && v@[1] == 0xD8,
{
    let mut out = Vec::new();
    jpeg_encoder::Encoder::new(&mut out, quality).encode(rgba, width, height, jpeg_encoder::ColorType::Rgba).map(|_| out)
}

/// Why a thumbnail could not be made.
#[derive(Debug, Clone, Copy, PartialEq, Eq, Structural)]
pub enum ThumbError {
    /// The downsampled image is empty: the master is smaller than the factor.
    Empty,
}

/// The box factor that brings the long edge down to `LONG_EDGE` (at least 1).
pub open spec fn thumb_factor(width: u32, height: u32) -> u32 {
    let m = if width >= height { width } else { height };
    if m / LONG_EDGE >= 1 { m / LONG_EDGE } else { 1 }
}

/// The downsampled composite that goes into the JPEG.
pub open spec fn thumb_pixels(width: u32, height: u32, master: Seq<u8>) -> Seq<u8> {
    let f = thumb_factor(width, height);
    let ow = width / f;
    let oh = height / f;
    Seq::new((ow * oh * 4) as nat, |i: int| box_px(master, width as int, f as nat, (i / 4) % (ow as int), (i / 4) / (ow as int), i % 4) as u8)
}

/// `thumb.jpg`: the composite downsampled to a long edge of 512, as a JPEG of
/// quality 85.
pub fn render(width: u32, height: u32, labels: &[u32], suggested: &[[u8; 3]], lineart_white: &[u8], shade_white: Option<&[u8]>) -> (r: Result<Vec<u8>, ThumbError>)
    requires
        labels@.len() == width * height,
        4 * (width * height) <= usize::MAX,
        forall|i: int| 0 <= i < labels@.len() ==> (#[trigger] labels@[i]) < suggested@.len(),
        lineart_white@.len() >= 4 * labels@.len(),
        shade_white matches Some(s) ==> s@.len() >= 4 * labels@.len(),
        box_fits(
            composite_spec(labels@, suggested@, lineart_white@, view_opt(shade_white)),
            width as int,
            height as int,
            thumb_factor(width, height) as nat,
        ),
    ensures
        ({
            let f = thumb_factor(width, height);
            let master = composite_spec(labels@, suggested@, lineart_white@, view_opt(shade_white));
            &&& (r is Ok <==> (width / f > 0 && height / f > 0))
            &&& r matches Ok(bytes) ==> bytes@ == jpeg_bytes(thumb_pixels(width, height, master), (width / f) as u16, (height / f) as u16, QUALITY)
                && bytes@[0] == 0xFF && bytes@[1] == 0xD8
        }),
{
    let master = composite(labels, suggested, lineart_white, shade_white);
    let m = if width >= height { width } else { height };
    let factor = if m / LONG_EDGE >= 1 { m / LONG_EDGE } else { 1 };
    assert(factor == thumb_factor(width, height));
    let small = box_rgba_by(&master, width, height, factor);
    let (ow, oh) = (width / factor, height / factor);
    assert(4 * (ow as int) * (oh as int) <= 4 * (width * height)) by (nonlinear_arith)
        requires
            ow == width / factor,
            oh == height / factor,
            factor >= 1,
    ;
    assert(ow < 0x1_0000 && oh < 0x1_0000) by (nonlinear_arith)
        requires
            ow == width / factor,
            oh == height / factor,
            factor == (if m / 512 >= 1 { m / 512 } else { 1 }),
            width <= m,
            height <= m,
    ;
    proof {
        let spec = thumb_pixels(width, height, composite_spec(labels@, suggested@, lineart_white@, view_opt(shade_white)));
        assert(small@ =~= spec);
        assert(4 * (ow as int) * (oh as int) == small@.len()) by (nonlinear_arith)
            requires
                small@.len() == ow * oh * 4,
        ;
        assert(factor == thumb_factor(width, height));
    }
    match encode_jpeg(&small, ow as u16, oh as u16, QUALITY) {
        Ok(bytes) => Ok(bytes),
        Err(_) => Err(ThumbError::Empty),
    }
}

} // verus!

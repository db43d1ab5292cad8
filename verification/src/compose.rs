//! Compositing onto white, and Rec.709 luma.
//!
//! Straight-alpha textures usually carry RGB 0 where they are transparent; the
//! runtime multiplies lineart and shade into the picture, so both are composited
//! onto white first (and before downsampling, so antialiased edges stay right).
use vstd::prelude::*;

verus! {

/// One channel of `src` over white with coverage `a`, rounded to nearest:
/// `(src * a + 255 * (255 - a)) / 255`.
pub open spec fn over_white_channel(src: u8, a: u8) -> int {
    (src * a + 255 * (255 - a) + 127) / 255
}

/// The composited byte at index `i` of the output.
pub open spec fn over_white_at(rgba: Seq<u8>, i: int) -> int {
    if i < (rgba.len() / 4) * 4 && i % 4 != 3 {
        over_white_channel(rgba[i], rgba[i - i % 4 + 3])
    } else {
        255
    }
}

/// Straight-alpha RGBA → RGBA composited onto white; alpha is always 255.
pub fn over_white(rgba: &[u8]) -> (out: Vec<u8>)
    ensures
        out@.len() == rgba@.len(),
        forall|i: int| 0 <= i < out@.len() ==> out@[i] as int == #[trigger] over_white_at(rgba@, i),
{
    let len = rgba.len();
    let n = len / 4;
    let mut out: Vec<u8> = vec![255u8; len];
    let mut p: usize = 0;
    while p < n
        invariant
            n == len / 4,
            len == rgba@.len(),
            out@.len() == len,
            p <= n,
            forall|i: int| 0 <= i < 4 * p ==> out@[i] as int == #[trigger] over_white_at(rgba@, i),
            forall|i: int| 4 * p <= i < len ==> out@[i] == 255,
        decreases n - p,
    {
        let base = 4 * p;
        let a = rgba[base + 3] as u32;
        let mut c: usize = 0;
        while c < 3
            invariant
                n == len / 4,
                len == rgba@.len(),
                out@.len() == len,
                p < n,
                base == 4 * p,
                a == rgba@[base + 3],
                c <= 3,
                forall|i: int| 0 <= i < base + c ==> out@[i] as int == #[trigger] over_white_at(rgba@, i),
                forall|i: int| base + c <= i < len ==> out@[i] == 255,
            decreases 3 - c,
        {
            let s = rgba[base + c] as u32;
            assert(s * a <= 255 * 255) by (nonlinear_arith)
                requires
                    s <= 255,
                    a <= 255,
            ;
            let v = s * a + 255 * (255 - a);
            let d = (v + 127) / 255;
            assert(d <= 255) by (nonlinear_arith)
                requires
                    d == (v + 127) / 255,
                    v == s * a + 255 * (255 - a),
                    s <= 255,
                    a <= 255,
            ;
            out.set(base + c, d as u8);
            proof {
                let i = (base + c) as int;
                assert(i % 4 == c as int);
                assert(i - i % 4 + 3 == base + 3);
                assert(over_white_at(rgba@, i) == d);
            }
            c += 1;
        }
        proof {
            let i = (base + 3) as int;
            assert(i % 4 == 3);
            assert(over_white_at(rgba@, i) == 255);
        }
        p += 1;
    }
    proof {
        assert forall|i: int| 0 <= i < out@.len() implies out@[i] as int == #[trigger] over_white_at(rgba@, i) by {
            if i >= 4 * p {
                assert(i >= (rgba@.len() / 4) * 4);
            }
        }
    }
    out
}

/// Weighted Rec.709 sum, scaled by 10000: `2126 r + 7152 g + 722 b`.
pub open spec fn luma_sum(rgb: [u8; 3]) -> int {
    2126 * rgb[0] + 7152 * rgb[1] + 722 * rgb[2]
}

/// Rec.709 luma `0.2126 r + 0.7152 g + 0.0722 b` rounded to the nearest integer.
///
/// Exactly halfway cases round up, except for the halfway inputs listed in `TIE_DOWN`:
/// evaluated in single precision their sum lands just below the half and rounds
/// down, and the luma threshold follows that single-precision rounding.
pub open spec fn luma_spec(rgb: [u8; 3]) -> int {
    (luma_sum(rgb) + 5000) / 10000 - (if luma_sum(rgb) % 10000 == 5000 && rounds_down(rgb) {
        1int
    } else {
        0int
    })
}

/// `rgb` is one of the halfway inputs listed in `TIE_DOWN`.
pub closed spec fn rounds_down(rgb: [u8; 3]) -> bool {
    TIE_DOWN@.contains(rgb)
}

/// Rec.709 luma of an RGB triple. The shade check uses `luma < 60`.
pub fn luma(rgb: [u8; 3]) -> (y: u8)
    ensures
        y as int == luma_spec(rgb),
{
    let s: u32 = 2126 * rgb[0] as u32 + 7152 * rgb[1] as u32 + 722 * rgb[2] as u32;
    let up: u32 = (s + 5000) / 10000;
    assert(up <= 255);
    if s % 10000 == 5000 && is_tie_down(rgb) {
        proof {
            assert(up >= 1);
        }
        (up - 1) as u8
    } else {
        up as u8
    }
}

/// Is `rgb` one of the halfway inputs that round down.
fn is_tie_down(rgb: [u8; 3]) -> (b: bool)
    ensures
        b == rounds_down(rgb),
{
    let mut i: usize = 0;
    while i < 323
        invariant
            i <= 323,
            TIE_DOWN@.len() == 323,
            forall|j: int| 0 <= j < i ==> TIE_DOWN@[j] != rgb,
        decreases 323 - i,
    {
        let e = TIE_DOWN[i];
        if e[0] == rgb[0] && e[1] == rgb[1] && e[2] == rgb[2] {
            assert(TIE_DOWN@[i as int] =~= rgb);
            return true;
        }
        assert(TIE_DOWN@[i as int] != rgb);
        i += 1;
    }
    false
}

pub const TIE_DOWN: [[u8; 3]; 323] = [
    [3, 44, 47],
    [6, 156, 106],
    [7, 130, 139],
    [8, 49, 52],
    [11, 188, 79],
    [11, 242, 15],
    [11, 243, 199],
    [12, 217, 232],
    [12, 243, 16],
    [13, 217, 49],
    [14, 55, 58],
    [14, 191, 82],
    [15, 220, 235],
    [16, 220, 52],
    [17, 140, 149],
    [17, 194, 85],
    [28, 97, 224],
    [29, 97, 41],
    [33, 237, 69],
    [34, 211, 102],
    [35, 185, 135],
    [35, 240, 255],
    [36, 240, 72],
    [37, 133, 201],
    [37, 214, 105],
    [38, 107, 234],
    [38, 133, 18],
    [39, 107, 51],
    [39, 243, 75],
    [41, 55, 117],
    [45, 4, 1],
    [46, 60, 122],
    [48, 117, 244],
    [48, 143, 28],
    [49, 9, 189],
    [49, 117, 61],
    [50, 91, 94],
    [54, 176, 2],
    [54, 231, 122],
    [55, 205, 155],
    [56, 15, 12],
    [56, 179, 188],
    [57, 179, 5],
    [57, 234, 125],
    [58, 127, 254],
    [58, 153, 38],
    [59, 127, 71],
    [60, 101, 104],
    [61, 20, 17],
    [61, 156, 41],
    [64, 160, 228],
    [65, 160, 45],
    [69, 137, 81],
    [70, 30, 210],
    [70, 111, 114],
    [73, 5, 61],
    [74, 196, 22],
    [74, 251, 142],
    [75, 35, 215],
    [75, 170, 55],
    [75, 197, 23],
    [75, 225, 175],
    [76, 199, 208],
    [77, 199, 25],
    [77, 254, 145],
    [78, 228, 178],
    [79, 11, 67],
    [79, 65, 3],
    [80, 40, 220],
    [80, 121, 124],
    [83, 97, 159],
    [84, 16, 72],
    [84, 70, 8],
    [88, 47, 44],
    [90, 131, 134],
    [93, 52, 49],
    [93, 107, 169],
    [94, 26, 82],
    [95, 190, 75],
    [95, 217, 43],
    [95, 245, 195],
    [96, 55, 52],
    [96, 83, 204],
    [96, 191, 76],
    [96, 219, 228],
    [97, 83, 21],
    [97, 220, 229],
    [98, 3, 118],
    [98, 220, 46],
    [98, 248, 198],
    [99, 31, 87],
    [99, 194, 79],
    [99, 248, 15],
    [102, 197, 82],
    [103, 117, 179],
    [104, 36, 92],
    [109, 41, 97],
    [111, 97, 35],
    [114, 127, 6],
    [116, 211, 96],
    [116, 239, 248],
    [117, 22, 137],
    [117, 185, 129],
    [117, 240, 249],
    [119, 214, 99],
    [120, 188, 132],
    [120, 243, 252],
    [121, 243, 69],
    [122, 27, 142],
    [122, 217, 102],
    [123, 55, 111],
    [123, 110, 231],
    [123, 191, 135],
    [124, 110, 48],
    [125, 220, 105],
    [127, 32, 147],
    [130, 143, 22],
    [132, 91, 88],
    [133, 65, 121],
    [134, 120, 58],
    [135, 12, 3],
    [135, 13, 187],
    [135, 94, 91],
    [136, 13, 4],
    [138, 97, 94],
    [138, 179, 182],
    [139, 153, 215],
    [141, 18, 9],
    [141, 182, 185],
    [142, 156, 218],
    [142, 182, 2],
    [142, 237, 122],
    [143, 75, 131],
    [143, 156, 35],
    [143, 211, 155],
    [144, 49, 164],
    [144, 185, 188],
    [145, 104, 101],
    [145, 185, 5],
    [145, 240, 125],
    [146, 23, 14],
    [146, 78, 134],
    [148, 107, 104],
    [150, 163, 42],
    [151, 137, 75],
    [152, 166, 228],
    [153, 3, 53],
    [153, 30, 21],
    [153, 85, 141],
    [153, 166, 45],
    [154, 59, 174],
    [155, 114, 111],
    [156, 88, 144],
    [158, 8, 58],
    [158, 9, 242],
    [158, 35, 26],
    [158, 117, 114],
    [158, 144, 82],
    [158, 199, 202],
    [159, 9, 59],
    [159, 173, 235],
    [162, 202, 22],
    [163, 13, 63],
    [163, 14, 247],
    [163, 40, 31],
    [163, 95, 151],
    [163, 176, 55],
    [163, 231, 175],
    [164, 14, 64],
    [164, 69, 184],
    [164, 205, 208],
    [165, 69, 1],
    [165, 205, 25],
    [166, 98, 154],
    [166, 234, 178],
    [168, 18, 68],
    [169, 19, 69],
    [169, 47, 221],
    [170, 47, 38],
    [171, 157, 95],
    [172, 22, 72],
    [174, 24, 74],
    [174, 79, 194],
    [175, 79, 11],
    [176, 108, 164],
    [177, 27, 77],
    [179, 57, 231],
    [179, 83, 15],
    [179, 138, 135],
    [179, 193, 255],
    [179, 220, 223],
    [180, 3, 112],
    [180, 57, 48],
    [181, 248, 9],
    [182, 60, 234],
    [182, 222, 42],
    [183, 60, 51],
    [183, 196, 75],
    [183, 251, 195],
    [184, 197, 76],
    [184, 225, 228],
    [185, 8, 117],
    [185, 89, 21],
    [185, 225, 45],
    [186, 254, 198],
    [187, 254, 15],
    [190, 13, 122],
    [190, 67, 58],
    [190, 94, 26],
    [191, 41, 91],
    [191, 177, 115],
    [192, 70, 244],
    [193, 70, 61],
    [194, 44, 94],
    [195, 18, 127],
    [195, 99, 31],
    [200, 77, 68],
    [200, 104, 36],
    [200, 132, 188],
    [201, 51, 101],
    [201, 133, 189],
    [202, 80, 254],
    [202, 242, 62],
    [203, 80, 71],
    [203, 216, 95],
    [203, 243, 63],
    [204, 54, 104],
    [204, 217, 96],
    [204, 245, 248],
    [205, 191, 129],
    [206, 110, 42],
    [207, 3, 171],
    [207, 30, 139],
    [207, 220, 99],
    [208, 194, 132],
    [211, 61, 111],
    [211, 142, 15],
    [211, 197, 135],
    [212, 8, 176],
    [212, 35, 144],
    [212, 143, 16],
    [213, 117, 49],
    [214, 64, 114],
    [215, 120, 235],
    [217, 40, 149],
    [217, 94, 85],
    [220, 97, 88],
    [222, 45, 154],
    [222, 127, 242],
    [223, 18, 3],
    [223, 236, 115],
    [224, 19, 4],
    [224, 74, 124],
    [224, 237, 116],
    [225, 156, 29],
    [225, 211, 149],
    [226, 130, 62],
    [226, 185, 182],
    [227, 23, 191],
    [227, 104, 95],
    [227, 240, 119],
    [228, 23, 8],
    [228, 78, 128],
    [228, 133, 248],
    [228, 214, 152],
    [229, 52, 161],
    [229, 133, 65],
    [229, 188, 185],
    [230, 26, 194],
    [230, 188, 2],
    [230, 243, 122],
    [231, 26, 11],
    [231, 217, 155],
    [232, 0, 44],
    [232, 1, 228],
    [232, 55, 164],
    [232, 163, 36],
    [232, 191, 188],
    [233, 1, 45],
    [233, 137, 69],
    [233, 191, 5],
    [234, 84, 134],
    [234, 111, 102],
    [234, 166, 222],
    [235, 3, 47],
    [235, 140, 255],
    [238, 6, 50],
    [238, 33, 18],
    [238, 88, 138],
    [239, 62, 171],
    [239, 143, 75],
    [240, 8, 52],
    [240, 36, 204],
    [241, 36, 21],
    [241, 91, 141],
    [242, 65, 174],
    [243, 11, 55],
    [243, 201, 15],
    [244, 202, 16],
    [245, 176, 49],
    [245, 231, 169],
    [246, 150, 82],
    [246, 205, 202],
    [247, 124, 115],
    [247, 179, 235],
    [249, 17, 61],
    [249, 72, 181],
    [249, 153, 85],
    [249, 208, 205],
    [250, 46, 214],
    [250, 182, 238],
    [250, 208, 22],
    [251, 46, 31],
    [251, 182, 55],
    [251, 237, 175],
    [252, 75, 184],
    [252, 211, 208],
    [253, 75, 1],
    [253, 211, 25],
    [254, 22, 66],
    [254, 131, 122],
    [254, 240, 178],
    [255, 105, 155],
];

} // verus!

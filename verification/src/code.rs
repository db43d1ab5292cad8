//! The fixed vocabulary of diagnostic codes. Tests assert on these codes, and
//! rejected assets are classified by them.
use vstd::prelude::*;

verus! {

pub const SOURCE_INCOMPLETE: &'static str = "source-incomplete";
pub const SIZE_MISMATCH: &'static str = "size-mismatch";
pub const CANVAS_SIZE: &'static str = "canvas-size";
pub const COLOR_SPACE: &'static str = "color-space";
/// Two or more seeds fall into one closed area: the lineart has a gap.
pub const SEED_COLLISION: &'static str = "seed-collision";
/// A free area of at least the orphan threshold without a seed.
pub const ORPHAN_AREA: &'static str = "orphan-area";
/// The `alpha == 255` area of a seed is too small for a reliable mode colour.
pub const SEED_TOO_SMALL: &'static str = "seed-too-small";
/// The seed's centre lies on a line pixel.
pub const SEED_ON_LINE: &'static str = "seed-on-line";
/// Too many line pixels.
pub const LINE_COVERAGE: &'static str = "line-coverage";
pub const SHADE_TOO_DARK: &'static str = "shade-too-dark";
pub const META_ID_MISMATCH: &'static str = "meta-id-mismatch";
pub const META_BAD_CATEGORY: &'static str = "meta-bad-category";
pub const REGION_COUNT_DRIFT: &'static str = "region-count-drift";
pub const REGION_COUNT_OVERFLOW: &'static str = "region-count-overflow";
pub const TINY_REGION: &'static str = "tiny-region";
pub const REGION_COUNT_RANGE: &'static str = "region-count-range";
pub const REGION_SPLIT: &'static str = "region-split";
pub const UNASSIGNED_PIXEL: &'static str = "unassigned-pixel";
pub const UNIQUE_COLOR_OVERFLOW: &'static str = "unique-color-overflow";
pub const TINY_COLOR_AREA: &'static str = "tiny-color-area";
pub const RESERVED_COLOR: &'static str = "reserved-color";
pub const REF_MISMATCH: &'static str = "ref-mismatch";

} // verus!

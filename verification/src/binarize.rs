//! Line-art binarisation: the line art comes on a transparent ground, so its
//! alpha is the line's coverage; colour is not looked at.
use vstd::prelude::*;

verus! {

/// A pixel whose lineart alpha is at least this value is a line pixel.
pub const DEFAULT_LINE_THRESHOLD: u8 = 128;

/// One flag per pixel: is its alpha at least `threshold`.
pub open spec fn line_mask_spec(rgba: Seq<u8>, threshold: u8) -> Seq<bool> {
    Seq::new(rgba.len() / 4, |i: int| rgba[4 * i + 3] >= threshold)
}

/// One bool per pixel; the length is `rgba.len() / 4`.
pub fn line_mask(rgba: &[u8], threshold: u8) -> (mask: Vec<bool>)
    ensures
        mask@ == line_mask_spec(rgba@, threshold),
{
    let n = rgba.len() / 4;
    let mut out: Vec<bool> = Vec::with_capacity(n);
    let mut i: usize = 0;
    while i < n
        invariant
            n == rgba@.len() / 4,
            i <= n,
            out@.len() == i,
            forall|j: int| 0 <= j < i ==> out@[j] == (rgba@[4 * j + 3] >= threshold),
        decreases n - i,
    {
        assert(4 * i + 3 < rgba.len());
        out.push(rgba[4 * i + 3] >= threshold);
        i += 1;
    }
    assert(out@ =~= line_mask_spec(rgba@, threshold));
    out
}


/// How many flags of `mask` are set.
pub open spec fn set_count(mask: Seq<bool>) -> nat
    decreases mask.len(),
{
    if mask.len() == 0 {
        0
    } else {
        set_count(mask.drop_last()) + if mask.last() { 1nat } else { 0nat }
    }
}

proof fn lemma_set_count_bound(mask: Seq<bool>)
    ensures
        set_count(mask) <= mask.len(),
    decreases mask.len(),
{
    if mask.len() > 0 {
        lemma_set_count_bound(mask.drop_last());
    }
}

/// The number of line pixels: the numerator of the line ratio.
pub fn line_pixels(mask: &[bool]) -> (n: usize)
    ensures
        n == set_count(mask@),
{
    let mut n: usize = 0;
    let mut i: usize = 0;
    while i < mask.len()
        invariant
            i <= mask@.len(),
            n == set_count(mask@.take(i as int)),
        decreases mask@.len() - i,
    {
        assert(mask@.take(i + 1).drop_last() =~= mask@.take(i as int));
        proof {
            lemma_set_count_bound(mask@.take(i + 1));
        }
        if mask[i] {
            n += 1;
        }
        i += 1;
    }
    assert(mask@.take(mask@.len() as int) =~= mask@);
    n
}

} // verus!

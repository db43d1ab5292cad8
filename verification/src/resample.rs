//! Downsampling: `flats` by majority on the **region id map**, `lineart` and
//! `shade` by box filter. Using one filter for both is the classic mistake.
use vstd::prelude::*;

verus! {

/// Sum of channel `c` over `cols` pixels of row `y`, starting at column `x0`.
pub open spec fn row_sum(src: Seq<u8>, w: int, x0: int, y: int, c: int, cols: nat) -> int
    decreases cols,
{
    if cols == 0 {
        0
    } else {
        row_sum(src, w, x0, y, c, (cols - 1) as nat) + src[((y * w + x0 + cols - 1) * 4 + c)] as int
    }
}

/// Sum of channel `c` over the `f`-wide block at `(x0, y0)`, first `rows` rows.
pub open spec fn block_sum(src: Seq<u8>, w: int, f: nat, x0: int, y0: int, c: int, rows: nat) -> int
    decreases rows,
{
    if rows == 0 {
        0
    } else {
        block_sum(src, w, f, x0, y0, c, (rows - 1) as nat) + row_sum(src, w, x0, y0 + rows - 1, c, f)
    }
}

/// Channel `c` of output pixel `(ox, oy)` of the `f`×`f` box filter: the block
/// average rounded half up.
pub open spec fn box_px(src: Seq<u8>, w: int, f: nat, ox: int, oy: int, c: int) -> int {
    (block_sum(src, w, f, ox * f, oy * f, c, f) + (f * f) / 2) / (f * f) as int
}

proof fn lemma_row_sum_bound(src: Seq<u8>, w: int, x0: int, y: int, c: int, cols: nat)
    ensures
        0 <= row_sum(src, w, x0, y, c, cols) <= 255 * cols,
    decreases cols,
{
    if cols > 0 {
        lemma_row_sum_bound(src, w, x0, y, c, (cols - 1) as nat);
    }
}

proof fn lemma_block_sum_bound(src: Seq<u8>, w: int, f: nat, x0: int, y0: int, c: int, rows: nat)
    ensures
        0 <= block_sum(src, w, f, x0, y0, c, rows) <= 255 * f * rows,
    decreases rows,
{
    if rows > 0 {
        lemma_block_sum_bound(src, w, f, x0, y0, c, (rows - 1) as nat);
        lemma_row_sum_bound(src, w, x0, y0 + rows - 1, c, f);
        assert(255 * f * (rows - 1) + 255 * f == 255 * f * rows) by (nonlinear_arith);
    }
}

proof fn lemma_row_sum_mono(src: Seq<u8>, w: int, x0: int, y: int, c: int, a: nat, b: nat)
    requires
        a <= b,
    ensures
        row_sum(src, w, x0, y, c, a) <= row_sum(src, w, x0, y, c, b),
    decreases b,
{
    if a < b {
        lemma_row_sum_mono(src, w, x0, y, c, a, (b - 1) as nat);
    }
}

proof fn lemma_block_sum_mono(src: Seq<u8>, w: int, f: nat, x0: int, y0: int, c: int, a: nat, b: nat)
    requires
        a <= b,
    ensures
        block_sum(src, w, f, x0, y0, c, a) <= block_sum(src, w, f, x0, y0, c, b),
    decreases b,
{
    if a < b {
        lemma_block_sum_mono(src, w, f, x0, y0, c, a, (b - 1) as nat);
        lemma_row_sum_bound(src, w, x0, y0 + b - 1, c, f);
    }
}

/// The `f`×`f` box filter of a `w`×`h` image computes in `u32` without
/// overflow: where a block exists, `f * f` fits, and so does every block's
/// channel sum plus the rounding half.
pub open spec fn box_fits(src: Seq<u8>, w: int, h: int, f: nat) -> bool {
    &&& (w >= f && h >= f ==> f * f <= u32::MAX)
    &&& forall|ox: int, oy: int, c: int| 0 <= ox < w / (f as int) && 0 <= oy < h / (f as int) && 0 <= c < 4
        ==> #[trigger] block_sum(src, w, f, ox * f, oy * f, c, f) + (f * f) / 2 <= u32::MAX
}

/// Any image fits for a factor whose all-255 block fits.
pub proof fn lemma_box_fits_small(src: Seq<u8>, w: int, h: int, f: nat)
    requires
        f >= 1,
        255 * f * f + f * f / 2 <= u32::MAX,
    ensures
        box_fits(src, w, h, f),
{
    assert(f * f <= u32::MAX) by (nonlinear_arith)
        requires
            f >= 1,
            255 * f * f + f * f / 2 <= u32::MAX,
    ;
    assert forall|ox: int, oy: int, c: int| 0 <= ox < w / (f as int) && 0 <= oy < h / (f as int) && 0 <= c < 4
        implies #[trigger] block_sum(src, w, f, ox * f, oy * f, c, f) + (f * f) / 2 <= u32::MAX by {
        lemma_block_sum_bound(src, w, f, ox * f, oy * f, c, f);
    }
}

/// Per-channel sums of the `f`×`f` block whose top-left pixel is `(x0, y0)`.
fn block_channel_sums(src: &[u8], w: usize, h: usize, f: usize, x0: usize, y0: usize) -> (acc: [u32; 4])
    requires
        f >= 1,
        x0 + f <= w,
        y0 + f <= h,
        w * h * 4 <= usize::MAX,
        src@.len() >= w * h * 4,
        forall|c: int| 0 <= c < 4 ==> #[trigger] block_sum(src@, w as int, f as nat, x0 as int, y0 as int, c, f as nat) <= u32::MAX,
    ensures
        forall|c: int| 0 <= c < 4 ==> acc[c] as int == #[trigger] block_sum(src@, w as int, f as nat, x0 as int, y0 as int, c, f as nat),
{
    let mut acc = [0u32; 4];
    let mut dy: usize = 0;
    while dy < f
        invariant
            f >= 1,
            x0 + f <= w,
            y0 + f <= h,
            w * h * 4 <= usize::MAX,
            src@.len() >= w * h * 4,
            forall|c: int| 0 <= c < 4 ==> #[trigger] block_sum(src@, w as int, f as nat, x0 as int, y0 as int, c, f as nat) <= u32::MAX,
            dy <= f,
            forall|c: int| 0 <= c < 4 ==> acc[c] as int == #[trigger] block_sum(src@, w as int, f as nat, x0 as int, y0 as int, c, dy as nat),
        decreases f - dy,
    {
        let y = y0 + dy;
        assert(y * w + x0 + f <= w * h) by (nonlinear_arith)
            requires
                y < h,
                x0 + f <= w,
        ;
        let row = y * w + x0;
        let mut dx: usize = 0;
        while dx < f
            invariant
                f >= 1,
                x0 + f <= w,
                y0 + f <= h,
                w * h * 4 <= usize::MAX,
                src@.len() >= w * h * 4,
                forall|c: int| 0 <= c < 4 ==> #[trigger] block_sum(src@, w as int, f as nat, x0 as int, y0 as int, c, f as nat) <= u32::MAX,
                dy < f,
                y == y0 + dy,
                row == y * w + x0,
                row + f <= w * h,
                dx <= f,
                forall|c: int| 0 <= c < 4 ==> acc[c] as int == #[trigger] block_sum(src@, w as int, f as nat, x0 as int, y0 as int, c, dy as nat)
                    + row_sum(src@, w as int, x0 as int, y as int, c, dx as nat),
            decreases f - dx,
        {
            let p = (row + dx) * 4;
            let ghost old_acc = acc;
            let mut c: usize = 0;
            while c < 4
                invariant
                    f >= 1,
                    w * h * 4 <= usize::MAX,
                    src@.len() >= w * h * 4,
                    forall|c: int| 0 <= c < 4 ==> #[trigger] block_sum(src@, w as int, f as nat, x0 as int, y0 as int, c, f as nat) <= u32::MAX,
                    dy < f,
                    dx < f,
                    y == y0 + dy,
                    row == y * w + x0,
                    row + f <= w * h,
                    p == (row + dx) * 4,
                    c <= 4,
                    forall|k: int| 0 <= k < 4 ==> old_acc[k] as int == #[trigger] block_sum(src@, w as int, f as nat, x0 as int, y0 as int, k, dy as nat)
                        + row_sum(src@, w as int, x0 as int, y as int, k, dx as nat),
                    forall|k: int| 0 <= k < c ==> acc[k] as int == old_acc[k] + src@[p + k],
                    forall|k: int| c <= k < 4 ==> acc[k] == old_acc[k],
                decreases 4 - c,
            {
                proof {
                    lemma_row_sum_mono(src@, w as int, x0 as int, y as int, c as int, (dx + 1) as nat, f as nat);
                    lemma_block_sum_mono(src@, w as int, f as nat, x0 as int, y0 as int, c as int, (dy + 1) as nat, f as nat);
                    assert(block_sum(src@, w as int, f as nat, x0 as int, y0 as int, c as int, (dy + 1) as nat)
                        == block_sum(src@, w as int, f as nat, x0 as int, y0 as int, c as int, dy as nat)
                        + row_sum(src@, w as int, x0 as int, y as int, c as int, f as nat));
                    assert(row_sum(src@, w as int, x0 as int, y as int, c as int, (dx + 1) as nat)
                        == row_sum(src@, w as int, x0 as int, y as int, c as int, dx as nat) + src@[p + c]);
                }
                acc[c] = acc[c] + src[p + c] as u32;
                c += 1;
            }
            proof {
                assert forall|k: int| 0 <= k < 4 implies acc[k] as int == #[trigger] block_sum(src@, w as int, f as nat, x0 as int, y0 as int, k, dy as nat)
                    + row_sum(src@, w as int, x0 as int, y as int, k, (dx + 1) as nat) by {
                    assert((y * w + x0 + (dx + 1) - 1) * 4 + k == p + k);
                }
            }
            dx += 1;
        }
        dy += 1;
        proof {
            assert forall|c: int| 0 <= c < 4 implies acc[c] as int == #[trigger] block_sum(src@, w as int, f as nat, x0 as int, y0 as int, c, dy as nat) by {
                assert(block_sum(src@, w as int, f as nat, x0 as int, y0 as int, c, dy as nat)
                    == block_sum(src@, w as int, f as nat, x0 as int, y0 as int, c, (dy - 1) as nat)
                    + row_sum(src@, w as int, x0 as int, y as int, c, f as nat));
            }
        }
    }
    acc
}

/// The `factor`×`factor` box filter on RGBA8, each channel averaged and rounded half up.
/// The thumbnail uses factor 8 (long edge 4096 → 512).
pub fn box_rgba_by(src: &[u8], w: u32, h: u32, factor: u32) -> (out: Vec<u8>)
    requires
        factor >= 1,
        box_fits(src@, w as int, h as int, factor as nat),
        w * h * 4 <= usize::MAX,
        src@.len() >= w * h * 4,
    ensures
        out@.len() == (w / factor) * (h / factor) * 4,
        forall|q: int, c: int| 0 <= q < (w / factor) * (h / factor) && 0 <= c < 4 ==>
            out@[q * 4 + c] as int == #[trigger] box_px(src@, w as int, factor as nat, q % (w / factor) as int, q / (w / factor) as int, c),
{
    let (w, h, f) = (w as usize, h as usize, factor as usize);
    let (ow, oh) = (w / f, h / f);
    if ow == 0 || oh == 0 {
        // No block fits: the image is narrower or lower than the factor.
        assert(ow * oh == 0) by (nonlinear_arith)
            requires
                ow == 0 || oh == 0,
        ;
        return Vec::new();
    }
    assert(w >= f && h >= f) by (nonlinear_arith)
        requires
            ow == w / f,
            oh == h / f,
            ow >= 1,
            oh >= 1,
            f >= 1,
    ;
    assert(factor * factor >= 1) by (nonlinear_arith)
        requires
            factor >= 1,
    ;
    let n: u32 = factor * factor;
    assert(ow * oh * 4 <= w * h * 4) by (nonlinear_arith)
        requires
            ow == w / f,
            oh == h / f,
            f >= 1,
    ;
    let total = ow * oh;
    let mut out: Vec<u8> = vec![0u8; total * 4];
    let mut q: usize = 0;
    while q < total
        invariant
            f >= 1,
            box_fits(src@, w as int, h as int, f as nat),
            n == f * f,
            n >= 1,
            ow >= 1,
            oh >= 1,
            w * h * 4 <= usize::MAX,
            src@.len() >= w * h * 4,
            ow == w / f,
            oh == h / f,
            total == ow * oh,
            ow * oh * 4 <= w * h * 4,
            out@.len() == total * 4,
            q <= total,
            forall|q2: int, c: int| 0 <= q2 < q && 0 <= c < 4 ==>
                out@[q2 * 4 + c] as int == #[trigger] box_px(src@, w as int, f as nat, q2 % ow as int, q2 / ow as int, c),
        decreases total - q,
    {
        let ox = q % ow;
        let oy = q / ow;
        assert(ox * f + f <= w && oy * f + f <= h) by (nonlinear_arith)
            requires
                ow == w / f,
                oh == h / f,
                f >= 1,
                q < ow * oh,
                ox == q % ow,
                oy == q / ow,
        ;
        assert(ox < ow && oy < oh) by (nonlinear_arith)
            requires
                q < ow * oh,
                ox == q % ow,
                oy == q / ow,
                ow >= 1,
        ;
        assert forall|c: int| 0 <= c < 4 implies #[trigger] block_sum(src@, w as int, f as nat, (ox * f) as int, (oy * f) as int, c, f as nat)
            + (f * f) / 2 <= u32::MAX by {
            assert(block_sum(src@, w as int, f as nat, ox * f, oy * f, c, f as nat) + (f * f) / 2 <= u32::MAX);
        }
        let acc = block_channel_sums(src, w, h, f, ox * f, oy * f);
        let dst = q * 4;
        let mut c: usize = 0;
        while c < 4
            invariant
                f >= 1,
                box_fits(src@, w as int, h as int, f as nat),
                n == f * f,
                n >= 1,
                oh == h / f,
                ow == w / f,
                total == ow * oh,
                out@.len() == total * 4,
                q < total,
                ox == q % ow,
                oy == q / ow,
                dst == q * 4,
                c <= 4,
                forall|k: int| 0 <= k < 4 ==> acc[k] as int == #[trigger] block_sum(src@, w as int, f as nat, (ox * f) as int, (oy * f) as int, k, f as nat),
                forall|k: int| 0 <= k < 4 ==> #[trigger] block_sum(src@, w as int, f as nat, (ox * f) as int, (oy * f) as int, k, f as nat)
                    + (f * f) / 2 <= u32::MAX,
                forall|q2: int, k: int| 0 <= q2 < q && 0 <= k < 4 ==>
                    out@[q2 * 4 + k] as int == #[trigger] box_px(src@, w as int, f as nat, q2 % ow as int, q2 / ow as int, k),
                forall|k: int| 0 <= k < c ==> out@[q * 4 + k] as int == #[trigger] box_px(src@, w as int, f as nat, ox as int, oy as int, k),
            decreases 4 - c,
        {
            proof {
                lemma_block_sum_bound(src@, w as int, f as nat, (ox * f) as int, (oy * f) as int, c as int, f as nat);
                assert(255 * f * f / (f * f) <= 255) by (nonlinear_arith)
                    requires
                        f >= 1,
                ;
                assert((acc[c as int] + n / 2) / (n as int) <= 255) by (nonlinear_arith)
                    requires
                        acc[c as int] <= 255 * f * f,
                        n == f * f,
                        f >= 1,
                ;
            }
            let v = (acc[c] + n / 2) / n;
            out.set(dst + c, v as u8);
            proof {
                assert forall|q2: int, k: int| 0 <= q2 < q && 0 <= k < 4 implies
                    out@[q2 * 4 + k] as int == #[trigger] box_px(src@, w as int, f as nat, q2 % ow as int, q2 / ow as int, k) by {
                    assert(q2 * 4 + k != dst + c);
                }
            }
            c += 1;
        }
        q += 1;
    }
    out
}

/// The 2×2 box filter on RGBA8. `w` and `h` are even for master images.
pub fn box_rgba(src: &[u8], w: u32, h: u32) -> (out: Vec<u8>)
    requires
        w * h * 4 <= usize::MAX,
        src@.len() >= w * h * 4,
    ensures
        out@.len() == (w / 2) * (h / 2) * 4,
        forall|q: int, c: int| 0 <= q < (w / 2) * (h / 2) && 0 <= c < 4 ==>
            out@[q * 4 + c] as int == #[trigger] box_px(src@, w as int, 2, q % (w / 2) as int, q / (w / 2) as int, c),
{
    proof {
        lemma_box_fits_small(src@, w as int, h as int, 2);
    }
    box_rgba_by(src, w, h, 2)
}

/// The 2×2 block sum, unfolded.
proof fn lemma_block_sum_2x2(src: Seq<u8>, w: int, x0: int, y0: int, c: int)
    ensures
        block_sum(src, w, 2, x0, y0, c, 2) == src[(y0 * w + x0) * 4 + c] as int + src[(y0 * w + x0 + 1) * 4 + c] as int
            + src[((y0 + 1) * w + x0) * 4 + c] as int + src[((y0 + 1) * w + x0 + 1) * 4 + c] as int,
{
    reveal_with_fuel(block_sum, 3);
    reveal_with_fuel(row_sum, 3);
}

/// Downsamples only the alpha channel, 2×2. Dilation needs the lineart coverage
/// after downsampling, and after compositing onto white the alpha is all 255, so
/// it is taken from the straight-alpha source.
pub fn box_alpha(src: &[u8], w: u32, h: u32) -> (out: Vec<u8>)
    requires
        w * h * 4 <= usize::MAX,
        src@.len() >= w * h * 4,
    ensures
        out@.len() == (w / 2) * (h / 2),
        forall|q: int| 0 <= q < (w / 2) * (h / 2) ==>
            out@[q] as int == #[trigger] box_px(src@, w as int, 2, q % (w / 2) as int, q / (w / 2) as int, 3),
{
    let (w, h) = (w as usize, h as usize);
    let (ow, oh) = (w / 2, h / 2);
    assert(ow * oh * 4 <= w * h * 4) by (nonlinear_arith)
        requires
            ow == w / 2,
            oh == h / 2,
    ;
    let total = ow * oh;
    let mut out: Vec<u8> = vec![0u8; total];
    let mut q: usize = 0;
    while q < total
        invariant
            w * h * 4 <= usize::MAX,
            src@.len() >= w * h * 4,
            ow == w / 2,
            oh == h / 2,
            total == ow * oh,
            out@.len() == total,
            q <= total,
            forall|q2: int| 0 <= q2 < q ==> out@[q2] as int == #[trigger] box_px(src@, w as int, 2, q2 % ow as int, q2 / ow as int, 3),
        decreases total - q,
    {
        let ox = q % ow;
        let oy = q / ow;
        assert(ox * 2 + 2 <= w && oy * 2 + 2 <= h) by (nonlinear_arith)
            requires
                ow == w / 2,
                oh == h / 2,
                q < ow * oh,
                ox == q % ow,
                oy == q / ow,
        ;
        let (x0, y0) = (ox * 2, oy * 2);
        assert(y0 * w + w + w <= w * h && (y0 + 1) * w == y0 * w + w) by (nonlinear_arith)
            requires
                y0 + 2 <= h,
        ;
        let r0 = y0 * w;
        let r1 = r0 + w;
        let a0 = src[(r0 + x0) * 4 + 3] as u32;
        let a1 = src[(r0 + x0 + 1) * 4 + 3] as u32;
        let a2 = src[(r1 + x0) * 4 + 3] as u32;
        let a3 = src[(r1 + x0 + 1) * 4 + 3] as u32;
        let v = (a0 + a1 + a2 + a3 + 2) / 4;
        proof {
            lemma_block_sum_2x2(src@, w as int, x0 as int, y0 as int, 3);
        }
        out.set(q, v as u8);
        q += 1;
    }
    out
}

/// How many entries of `quad` equal `v`.
pub open spec fn votes(quad: [u32; 4], v: u32) -> int {
    (if quad[0] == v { 1int } else { 0int }) + (if quad[1] == v { 1int } else { 0int })
        + (if quad[2] == v { 1int } else { 0int }) + (if quad[3] == v { 1int } else { 0int })
}

/// `a` ranks at least as high as `b` in a 2×2 vote: more votes, or as many votes
/// and a smaller master area, or the same area and an id no larger.
pub open spec fn ranks_over(quad: [u32; 4], areas: Seq<u32>, a: u32, b: u32) -> bool {
    ||| votes(quad, a) > votes(quad, b)
    ||| votes(quad, a) == votes(quad, b) && areas[a as int] < areas[b as int]
    ||| votes(quad, a) == votes(quad, b) && areas[a as int] == areas[b as int] && a <= b
}

/// The 2×2 majority winner: an entry of `quad` that ranks over every entry.
pub open spec fn is_winner(quad: [u32; 4], areas: Seq<u32>, r: u32) -> bool {
    &&& (r == quad[0] || r == quad[1] || r == quad[2] || r == quad[3])
    &&& forall|j: int| 0 <= j < 4 ==> ranks_over(quad, areas, r, #[trigger] quad[j])
}

/// The winner of a 2×2 block of region ids. Ties go to the region with the
/// smaller master area, then to the smaller id: a thin region is the only one
/// that can be eaten, so it wins; a big region loses at most an edge pixel.
pub fn winner(quad: &[u32; 4], areas: &[u32]) -> (best: u32)
    requires
        forall|j: int| 0 <= j < 4 ==> (#[trigger] quad[j]) < areas@.len(),
    ensures
        is_winner(*quad, areas@, best),
{
    let mut best = quad[0];
    let mut best_votes: usize = 0;
    let mut k: usize = 0;
    while k < 4
        invariant
            k <= 4,
            forall|j: int| 0 <= j < 4 ==> (#[trigger] quad[j]) < areas@.len(),
            best == quad[0] || best == quad[1] || best == quad[2] || best == quad[3],
            k == 0 ==> best_votes == 0 && best == quad[0],
            k > 0 ==> best_votes == votes(*quad, best),
            forall|j: int| 0 <= j < k ==> ranks_over(*quad, areas@, best, #[trigger] quad[j]),
        decreases 4 - k,
    {
        let candidate = quad[k];
        let mut votes_c: usize = 0;
        let mut t: usize = 0;
        while t < 4
            invariant
                t <= 4,
                votes_c == (if t > 0 && quad[0] == candidate { 1int } else { 0int })
                    + (if t > 1 && quad[1] == candidate { 1int } else { 0int })
                    + (if t > 2 && quad[2] == candidate { 1int } else { 0int })
                    + (if t > 3 && quad[3] == candidate { 1int } else { 0int }),
            decreases 4 - t,
        {
            if quad[t] == candidate {
                votes_c += 1;
            }
            t += 1;
        }
        let better = if votes_c > best_votes {
            true
        } else if votes_c < best_votes {
            false
        } else {
            let (ac, ab) = (areas[candidate as usize], areas[best as usize]);
            ac < ab || (ac == ab && candidate < best)
        };
        proof {
            assert(votes_c == votes(*quad, candidate));
            if k > 0 && !better {
                assert(ranks_over(*quad, areas@, best, candidate));
            }
        }
        if better {
            best = candidate;
            best_votes = votes_c;
        }
        k += 1;
    }
    best
}

/// 2×2 majority on the **region id map**.
///
/// A 2×2 block may hold regions A (red), B (green) and C (red) where A and C
/// are not adjacent and so legally share a colour; the mode of the RGB values
/// would say "red" without saying which region — so majority works on ids.
pub fn majority_ids(labels: &[u32], w: u32, h: u32, areas: &[u32]) -> (out: Vec<u32>)
    requires
        w * h <= usize::MAX,
        labels@.len() >= w * h,
        forall|i: int| 0 <= i < w * h ==> (#[trigger] labels@[i]) < areas@.len(),
    ensures
        out@.len() == (w / 2) * (h / 2),
        forall|q: int| 0 <= q < (w / 2) * (h / 2) ==>
            is_winner(#[trigger] quad_at(labels@, w as int, q % (w / 2) as int, q / (w / 2) as int), areas@, out@[q]),
{
    let (w, h) = (w as usize, h as usize);
    let (ow, oh) = (w / 2, h / 2);
    assert(ow * oh <= w * h) by (nonlinear_arith)
        requires
            ow == w / 2,
            oh == h / 2,
    ;
    let total = ow * oh;
    let mut out: Vec<u32> = vec![0u32; total];
    let mut q: usize = 0;
    while q < total
        invariant
            w * h <= usize::MAX,
            labels@.len() >= w * h,
            forall|i: int| 0 <= i < w * h ==> (#[trigger] labels@[i]) < areas@.len(),
            ow == w / 2,
            oh == h / 2,
            total == ow * oh,
            out@.len() == total,
            q <= total,
            forall|q2: int| 0 <= q2 < q ==> is_winner(#[trigger] quad_at(labels@, w as int, q2 % ow as int, q2 / ow as int), areas@, out@[q2]),
        decreases total - q,
    {
        let ox = q % ow;
        let oy = q / ow;
        assert(ox * 2 + 2 <= w && oy * 2 + 2 <= h) by (nonlinear_arith)
            requires
                ow == w / 2,
                oh == h / 2,
                q < ow * oh,
                ox == q % ow,
                oy == q / ow,
        ;
        let (x0, y0) = (ox * 2, oy * 2);
        assert(y0 * w + w + w <= w * h && (y0 + 1) * w == y0 * w + w) by (nonlinear_arith)
            requires
                y0 + 2 <= h,
        ;
        let r0 = y0 * w;
        let r1 = r0 + w;
        let quad = [labels[r0 + x0], labels[r0 + x0 + 1], labels[r1 + x0], labels[r1 + x0 + 1]];
        assert(quad =~= quad_at(labels@, w as int, ox as int, oy as int));
        let r = winner(&quad, areas);
        out.set(q, r);
        q += 1;
    }
    out
}

/// The 2×2 block of ids under output pixel `(ox, oy)`, in raster order.
pub open spec fn quad_at(labels: Seq<u32>, w: int, ox: int, oy: int) -> [u32; 4] {
    [
        labels[(oy * 2) * w + ox * 2],
        labels[(oy * 2) * w + ox * 2 + 1],
        labels[(oy * 2 + 1) * w + ox * 2],
        labels[(oy * 2 + 1) * w + ox * 2 + 1],
    ]
}

/// The alpha channel of the 2×2 box filter is what `box_alpha` computes.
pub proof fn law_box_alpha_is_box_rgba_alpha(src: Seq<u8>, w: u32, h: u32, rgba: Seq<u8>, alpha: Seq<u8>)
    requires
        rgba.len() == (w / 2) * (h / 2) * 4,
        alpha.len() == (w / 2) * (h / 2),
        forall|q: int, c: int| 0 <= q < (w / 2) * (h / 2) && 0 <= c < 4 ==>
            rgba[q * 4 + c] as int == #[trigger] box_px(src, w as int, 2, q % (w / 2) as int, q / (w / 2) as int, c),
        forall|q: int| 0 <= q < (w / 2) * (h / 2) ==>
            alpha[q] as int == #[trigger] box_px(src, w as int, 2, q % (w / 2) as int, q / (w / 2) as int, 3),
    ensures
        forall|q: int| 0 <= q < (w / 2) * (h / 2) ==> alpha[q] == #[trigger] rgba[q * 4 + 3],
{
    assert forall|q: int| 0 <= q < (w / 2) * (h / 2) implies alpha[q] == #[trigger] rgba[q * 4 + 3] by {
        assert(rgba[q * 4 + 3] as int == box_px(src, w as int, 2, q % (w / 2) as int, q / (w / 2) as int, 3));
    }
}

} // verus!

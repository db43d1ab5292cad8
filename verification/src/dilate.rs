//! Regions grow under the lineart after downsampling.
//!
//! The id map has no holes, so "dilation" cannot fill holes; it re-assigns the
//! ownership of pixels inside the lineart band. It must run after downsampling:
//! lineart uses a box filter and flats a majority, their edges can disagree by
//! half a pixel, and dilation absorbs exactly that.
use vstd::prelude::*;
use crate::components::{has_nbr, nbr};

verus! {

/// A downsampled lineart alpha of at least this value counts as covered by a line.
pub const LINE_ALPHA_THRESHOLD: u8 = 32;
/// Two rounds of 4-neighbour dilation advance exactly 2 px.
pub const ROUNDS: usize = 2;

/// Id `a` is preferred over id `b`: smaller master area, then smaller id.
pub open spec fn prefers(areas: Seq<u32>, a: u32, b: u32) -> bool {
    areas[a as int] < areas[b as int] || (areas[a as int] == areas[b as int] && a < b)
}

/// Folds neighbour `n` into the running choice: only resolved neighbours count,
/// and the preferred id wins.
pub open spec fn consider(ids: Seq<u32>, resolved: Seq<bool>, areas: Seq<u32>, best: Option<u32>, n: int) -> Option<u32> {
    if !resolved[n] {
        best
    } else {
        match best {
            None => Some(ids[n]),
            Some(cur) => if prefers(areas, ids[n], cur) { Some(ids[n]) } else { best },
        }
    }
}

/// The id that pixel `p` takes over in one round, if any: the preferred id among
/// its resolved 4-neighbours (left, right, up, down).
pub open spec fn round_best(ids: Seq<u32>, resolved: Seq<bool>, areas: Seq<u32>, w: int, h: int, p: int) -> Option<u32> {
    let (x, y) = (p % w, p / w);
    let b0: Option<u32> = None;
    let b1 = if x > 0 { consider(ids, resolved, areas, b0, p - 1) } else { b0 };
    let b2 = if x + 1 < w { consider(ids, resolved, areas, b1, p + 1) } else { b1 };
    let b3 = if y > 0 { consider(ids, resolved, areas, b2, p - w) } else { b2 };
    if y + 1 < h { consider(ids, resolved, areas, b3, p + w) } else { b3 }
}

/// Whether pixel `p` is rewritten in a round: it is under a line, not yet resolved,
/// and has a resolved neighbour.
pub open spec fn takes_over(ids: Seq<u32>, resolved: Seq<bool>, line: Seq<bool>, areas: Seq<u32>, w: int, h: int, p: int) -> bool {
    0 <= p < w * h && line[p] && !resolved[p] && round_best(ids, resolved, areas, w, h, p) is Some
}

/// Ids after one round, computed from the snapshot `(ids, resolved)`.
pub open spec fn round_ids(ids: Seq<u32>, resolved: Seq<bool>, line: Seq<bool>, areas: Seq<u32>, w: int, h: int) -> Seq<u32> {
    Seq::new(ids.len(), |p: int|
        if takes_over(ids, resolved, line, areas, w, h, p) {
            round_best(ids, resolved, areas, w, h, p)->0
        } else {
            ids[p]
        })
}

/// Resolved flags after one round: a pixel that took over becomes resolved.
pub open spec fn round_resolved(ids: Seq<u32>, resolved: Seq<bool>, line: Seq<bool>, areas: Seq<u32>, w: int, h: int) -> Seq<bool> {
    Seq::new(resolved.len(), |p: int| resolved[p] || takes_over(ids, resolved, line, areas, w, h, p))
}

/// `(ids, resolved)` after `k` rounds.
pub open spec fn rounds(ids: Seq<u32>, resolved: Seq<bool>, line: Seq<bool>, areas: Seq<u32>, w: int, h: int, k: nat) -> (Seq<u32>, Seq<bool>)
    decreases k,
{
    if k == 0 {
        (ids, resolved)
    } else {
        let (i1, r1) = rounds(ids, resolved, line, areas, w, h, (k - 1) as nat);
        (round_ids(i1, r1, line, areas, w, h), round_resolved(i1, r1, line, areas, w, h))
    }
}

/// The coverage mask of the downsampled lineart.
pub open spec fn covered(line_alpha: Seq<u8>) -> Seq<bool> {
    Seq::new(line_alpha.len(), |i: int| line_alpha[i] >= LINE_ALPHA_THRESHOLD)
}

/// Every id in the first `n` entries indexes `areas`.
pub open spec fn ids_in(ids: Seq<u32>, n: int, areas: Seq<u32>) -> bool {
    forall|i: int| 0 <= i < n ==> (#[trigger] ids[i]) < areas.len()
}

proof fn lemma_round_keeps_ids_in(ids: Seq<u32>, resolved: Seq<bool>, line: Seq<bool>, areas: Seq<u32>, w: int, h: int)
    requires
        w >= 1,
        h >= 1,
        ids.len() >= w * h,
        resolved.len() >= w * h,
        ids_in(ids, w * h, areas),
    ensures
        ids_in(round_ids(ids, resolved, line, areas, w, h), w * h, areas),
{
    assert forall|p: int| 0 <= p < w * h implies (#[trigger] round_ids(ids, resolved, line, areas, w, h)[p]) < areas.len() by {
        if takes_over(ids, resolved, line, areas, w, h, p) {
            lemma_neighbours(w, h, p);
        }
    }
}

proof fn lemma_neighbours(w: int, h: int, p: int)
    requires
        w >= 1,
        h >= 1,
        0 <= p < w * h,
    ensures
        p % w > 0 ==> 0 <= p - 1 < w * h,
        p % w + 1 < w ==> 0 <= p + 1 < w * h,
        p / w > 0 ==> 0 <= p - w < w * h,
        p / w + 1 < h ==> 0 <= p + w < w * h,
        p == (p / w) * w + p % w,
        0 <= p % w < w,
        0 <= p / w < h,
{
    assert(p == (p / w) * w + p % w && 0 <= p % w < w) by (nonlinear_arith)
        requires
            w >= 1,
    ;
    assert(0 <= p / w < h) by (nonlinear_arith)
        requires
            w >= 1,
            0 <= p < w * h,
    ;
    assert((p / w) * w + w <= w * h) by (nonlinear_arith)
        requires
            w >= 1,
            0 <= p / w < h,
    ;
    assert(p / w > 0 ==> (p / w) * w >= w) by (nonlinear_arith)
        requires
            w >= 1,
    ;
    assert(p / w + 1 < h ==> p + w < w * h) by (nonlinear_arith)
        requires
            w >= 1,
            p == (p / w) * w + p % w,
            0 <= p % w < w,
    ;
}

/// One round of dilation from the snapshot `(snap_ids, snap_resolved)`.
fn dilate_round(ids: &mut Vec<u32>, resolved: &mut Vec<bool>, line_mask: &Vec<bool>, w: usize, h: usize, areas: &[u32])
    requires
        w >= 1,
        h >= 1,
        w * h <= usize::MAX,
        old(ids)@.len() >= w * h,
        old(resolved)@.len() >= w * h,
        line_mask@.len() >= w * h,
        ids_in(old(ids)@, (w * h) as int, areas@),
    ensures
        final(ids)@ == round_ids(old(ids)@, old(resolved)@, line_mask@, areas@, w as int, h as int),
        final(resolved)@ == round_resolved(old(ids)@, old(resolved)@, line_mask@, areas@, w as int, h as int),
{
    let snapshot_ids = ids.clone();
    let snapshot_resolved = resolved.clone();
    let ghost si = snapshot_ids@;
    let ghost sr = snapshot_resolved@;
    assert(si == old(ids)@);
    assert(sr == old(resolved)@);
    let n = w * h;
    let mut p: usize = 0;
    while p < n
        invariant
            w >= 1,
            h >= 1,
            n == w * h,
            si.len() >= n,
            sr.len() >= n,
            line_mask@.len() >= n,
            snapshot_ids@ == si,
            snapshot_resolved@ == sr,
            ids_in(si, n as int, areas@),
            ids@.len() == si.len(),
            resolved@.len() == sr.len(),
            p <= n,
            forall|i: int| 0 <= i < p ==> ids@[i] == #[trigger] round_ids(si, sr, line_mask@, areas@, w as int, h as int)[i],
            forall|i: int| 0 <= i < p ==> resolved@[i] == #[trigger] round_resolved(si, sr, line_mask@, areas@, w as int, h as int)[i],
            forall|i: int| p <= i < si.len() ==> ids@[i] == si[i],
            forall|i: int| p <= i < sr.len() ==> resolved@[i] == sr[i],
        decreases n - p,
    {
        proof {
            lemma_neighbours(w as int, h as int, p as int);
        }
        if !line_mask[p] || snapshot_resolved[p] {
            p += 1;
            continue;
        }
        let (x, y) = (p % w, p / w);
        let mut best: Option<u32> = None;
        let ghost b0: Option<u32> = None;
        if x > 0 {
            best = consider_exec(&snapshot_ids, &snapshot_resolved, areas, best, p - 1);
        }
        let ghost b1 = best;
        if x + 1 < w {
            best = consider_exec(&snapshot_ids, &snapshot_resolved, areas, best, p + 1);
        }
        let ghost b2 = best;
        if y > 0 {
            best = consider_exec(&snapshot_ids, &snapshot_resolved, areas, best, p - w);
        }
        if y + 1 < h {
            best = consider_exec(&snapshot_ids, &snapshot_resolved, areas, best, p + w);
        }
        assert(best == round_best(si, sr, areas@, w as int, h as int, p as int));
        if let Some(id) = best {
            ids.set(p, id);
            resolved.set(p, true);
        }
        p += 1;
    }
    assert(ids@ =~= round_ids(si, sr, line_mask@, areas@, w as int, h as int));
    assert(resolved@ =~= round_resolved(si, sr, line_mask@, areas@, w as int, h as int));
}

fn consider_exec(ids: &Vec<u32>, resolved: &Vec<bool>, areas: &[u32], best: Option<u32>, n: usize) -> (r: Option<u32>)
    requires
        n < ids@.len(),
        n < resolved@.len(),
        ids@[n as int] < areas@.len(),
        best matches Some(b) ==> b < areas@.len(),
    ensures
        r == consider(ids@, resolved@, areas@, best, n as int),
        r matches Some(b) ==> b < areas@.len(),
{
    if !resolved[n] {
        return best;
    }
    let id = ids[n];
    match best {
        None => Some(id),
        Some(cur) => {
            if areas[id as usize] < areas[cur as usize] || (areas[id as usize] == areas[cur as usize] && id < cur) {
                Some(id)
            } else {
                best
            }
        }
    }
}

/// Updates `ids` in place. `line_alpha` is the **downsampled** lineart alpha (one
/// byte per pixel).
///
/// Each round reads the previous round's snapshot and writes a new buffer: an
/// in-place update would make the result depend on the scan order.
pub fn dilate_under_lineart(ids: &mut Vec<u32>, w: u32, h: u32, line_alpha: &[u8], areas: &[u32])
    requires
        w * h <= usize::MAX,
        old(ids)@.len() >= w * h,
        line_alpha@.len() >= w * h,
        ids_in(old(ids)@, w * h, areas@),
    ensures
        final(ids)@ == rounds(old(ids)@, covered(line_alpha@).map_values(|m: bool| !m), covered(line_alpha@), areas@, w as int, h as int, ROUNDS as nat).0,
{
    let (w, h) = (w as usize, h as usize);
    let mut line_mask: Vec<bool> = Vec::with_capacity(line_alpha.len());
    let mut resolved: Vec<bool> = Vec::with_capacity(line_alpha.len());
    let mut i: usize = 0;
    while i < line_alpha.len()
        invariant
            i <= line_alpha@.len(),
            line_mask@.len() == i,
            resolved@.len() == i,
            forall|j: int| 0 <= j < i ==> line_mask@[j] == (line_alpha@[j] >= LINE_ALPHA_THRESHOLD),
            forall|j: int| 0 <= j < i ==> resolved@[j] == !line_mask@[j],
        decreases line_alpha@.len() - i,
    {
        let m = line_alpha[i] >= LINE_ALPHA_THRESHOLD;
        line_mask.push(m);
        resolved.push(!m);
        i += 1;
    }
    assert(line_mask@ =~= covered(line_alpha@));
    assert(resolved@ =~= covered(line_alpha@).map_values(|m: bool| !m));
    if w == 0 || h == 0 {
        proof {
            reveal_with_fuel(rounds, 3);
            assert forall|ids0: Seq<u32>, res0: Seq<bool>| true implies
                round_ids(ids0, res0, line_mask@, areas@, w as int, h as int) =~= ids0 by {
                assert forall|p: int| 0 <= p < ids0.len() implies
                    round_ids(ids0, res0, line_mask@, areas@, w as int, h as int)[p] == ids0[p] by {
                    assert(w * h == 0) by (nonlinear_arith)
                        requires
                            w == 0 || h == 0,
                    ;
                }
            }
        }
        return;
    }
    let ghost ids0 = ids@;
    let ghost res0 = resolved@;
    let mut round: usize = 0;
    while round < ROUNDS
        invariant
            w >= 1,
            h >= 1,
            w * h <= usize::MAX,
            round <= ROUNDS,
            ids@.len() >= w * h,
            resolved@.len() >= w * h,
            line_mask@.len() >= w * h,
            line_mask@ == covered(line_alpha@),
            ids_in(ids@, (w * h) as int, areas@),
            (ids@, resolved@) == rounds(ids0, res0, line_mask@, areas@, w as int, h as int, round as nat),
        decreases ROUNDS - round,
    {
        let ghost before_ids = ids@;
        let ghost before_res = resolved@;
        dilate_round(ids, &mut resolved, &line_mask, w, h, areas);
        proof {
            lemma_round_keeps_ids_in(before_ids, before_res, line_mask@, areas@, w as int, h as int);
        }
        round += 1;
    }
}


/// Rounds only ever rewrite pixels under a line: every other pixel keeps its id.
proof fn lemma_rounds_keep_uncovered(ids: Seq<u32>, resolved: Seq<bool>, line: Seq<bool>, areas: Seq<u32>, w: int, h: int, k: nat)
    ensures
        rounds(ids, resolved, line, areas, w, h, k).0.len() == ids.len(),
        forall|p: int| 0 <= p < ids.len() && !(0 <= p < w * h && line[p]) ==> (#[trigger] rounds(ids, resolved, line, areas, w, h, k).0[p]) == ids[p],
    decreases k,
{
    if k > 0 {
        lemma_rounds_keep_uncovered(ids, resolved, line, areas, w, h, (k - 1) as nat);
    }
}

/// Dilation never overwrites a pixel that the line art does not cover: it only
/// re-assigns ownership inside the line band.
pub proof fn law_dilation_keeps_uncovered_pixels(ids: Seq<u32>, line_alpha: Seq<u8>, areas: Seq<u32>, w: int, h: int)
    ensures
        ({
            let line = covered(line_alpha);
            let out = rounds(ids, line.map_values(|m: bool| !m), line, areas, w, h, ROUNDS as nat).0;
            &&& out.len() == ids.len()
            &&& forall|p: int| 0 <= p < ids.len() && !(0 <= p < w * h && line[p]) ==> #[trigger] out[p] == ids[p]
        }),
{
    let line = covered(line_alpha);
    lemma_rounds_keep_uncovered(ids, line.map_values(|m: bool| !m), line, areas, w, h, ROUNDS as nat);
}

/// Neighbour `d` of pixel `p` exists and was resolved before the round.
pub open spec fn candidate(resolved: Seq<bool>, w: int, h: int, p: int, d: int) -> bool {
    0 <= d < 4 && has_nbr(w, h, p, d) && resolved[nbr(w, p, d)]
}

/// Id `a` has no larger master area than id `b`, and on equal areas is no larger.
pub open spec fn no_worse(areas: Seq<u32>, a: u32, b: u32) -> bool {
    areas[a as int] < areas[b as int] || (areas[a as int] == areas[b as int] && a <= b)
}

proof fn lemma_round_best(ids: Seq<u32>, resolved: Seq<bool>, areas: Seq<u32>, w: int, h: int, p: int)
    requires
        w >= 1,
        h >= 1,
        0 <= p < w * h,
    ensures
        round_best(ids, resolved, areas, w, h, p) is Some <==> exists|d: int| #[trigger] candidate(resolved, w, h, p, d),
        round_best(ids, resolved, areas, w, h, p) matches Some(b) ==> {
            &&& exists|d: int| #[trigger] candidate(resolved, w, h, p, d) && ids[nbr(w, p, d)] == b
            &&& forall|d: int| #[trigger] candidate(resolved, w, h, p, d) ==> no_worse(areas, b, ids[nbr(w, p, d)])
        },
{
    let (x, y) = (p % w, p / w);
    let b0: Option<u32> = None;
    let b1 = if x > 0 { consider(ids, resolved, areas, b0, p - 1) } else { b0 };
    let b2 = if x + 1 < w { consider(ids, resolved, areas, b1, p + 1) } else { b1 };
    let b3 = if y > 0 { consider(ids, resolved, areas, b2, p - w) } else { b2 };
    let b4 = if y + 1 < h { consider(ids, resolved, areas, b3, p + w) } else { b3 };
    assert(b4 == round_best(ids, resolved, areas, w, h, p));
    assert(candidate(resolved, w, h, p, 0) == (x > 0 && resolved[p - 1]));
    assert(candidate(resolved, w, h, p, 1) == (x + 1 < w && resolved[p + 1]));
    assert(candidate(resolved, w, h, p, 2) == (y > 0 && resolved[p - w]));
    assert(candidate(resolved, w, h, p, 3) == (y + 1 < h && resolved[p + w]));
    assert forall|d: int| #[trigger] candidate(resolved, w, h, p, d) implies 0 <= d < 4 by {}
    if let Some(b) = b4 {
        assert forall|d: int| #[trigger] candidate(resolved, w, h, p, d) implies no_worse(areas, b, ids[nbr(w, p, d)]) by {
            if d == 0 {
                assert(b1 is Some && no_worse(areas, b1->0, ids[p - 1]));
            } else if d == 1 {
                assert(b2 is Some && no_worse(areas, b2->0, ids[p + 1]));
            } else if d == 2 {
                assert(b3 is Some && no_worse(areas, b3->0, ids[p - w]));
            }
        }
        if b4 == b3 && b3 == b2 && b2 == b1 {
            assert(candidate(resolved, w, h, p, 0) && ids[nbr(w, p, 0)] == b);
        } else if b4 == b3 && b3 == b2 {
            assert(candidate(resolved, w, h, p, 1) && ids[nbr(w, p, 1)] == b);
        } else if b4 == b3 {
            assert(candidate(resolved, w, h, p, 2) && ids[nbr(w, p, 2)] == b);
        } else {
            assert(candidate(resolved, w, h, p, 3) && ids[nbr(w, p, 3)] == b);
        }
    } else {
        assert forall|d: int| !#[trigger] candidate(resolved, w, h, p, d) by {}
    }
}

/// What one round does to a pixel. A pixel under a line that is not yet resolved
/// and has a resolved 4-neighbour (left, right, up or down) takes the id of one
/// of those neighbours, and no other of them has a smaller master area, or an
/// equal area and a smaller id; it is then resolved. Every other pixel keeps its
/// id and its flag.
pub proof fn law_round_takes_the_smallest_resolved_neighbour(
    ids: Seq<u32>,
    resolved: Seq<bool>,
    line: Seq<bool>,
    areas: Seq<u32>,
    w: int,
    h: int,
    p: int,
)
    requires
        w >= 1,
        h >= 1,
        0 <= p < w * h,
        ids.len() >= w * h,
        resolved.len() >= w * h,
    ensures
        ({
            let out = round_ids(ids, resolved, line, areas, w, h);
            let res = round_resolved(ids, resolved, line, areas, w, h);
            if line[p] && !resolved[p] && exists|d: int| #[trigger] candidate(resolved, w, h, p, d) {
                &&& exists|d: int| #[trigger] candidate(resolved, w, h, p, d) && out[p] == ids[nbr(w, p, d)]
                &&& forall|d: int| #[trigger] candidate(resolved, w, h, p, d) ==> no_worse(areas, out[p], ids[nbr(w, p, d)])
                &&& res[p]
            } else {
                out[p] == ids[p] && res[p] == resolved[p]
            }
        }),
{
    lemma_round_best(ids, resolved, areas, w, h, p);
}

} // verus!
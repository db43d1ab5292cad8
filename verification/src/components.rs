//! 4-connected component labelling, shared by every flood fill of the pipeline.
//!
//! Pixels `p` and `q` are joined when they are 4-neighbours, both active and of
//! equal key. Component ids follow the raster order of each component's first
//! pixel, so labelling is fully deterministic.
use vstd::prelude::*;

verus! {

/// Label of a pixel that belongs to no component (an inactive pixel).
pub const NONE: u32 = 0xFFFF_FFFF;

/// Whether pixel `p` of a `w`-wide, `h`-high image has a neighbour in direction
/// `d` (0 left, 1 right, 2 up, 3 down).
pub open spec fn has_nbr(w: int, h: int, p: int, d: int) -> bool {
    if d == 0 {
        p % w > 0
    } else if d == 1 {
        p % w + 1 < w
    } else if d == 2 {
        p / w > 0
    } else {
        p / w + 1 < h
    }
}

/// The neighbour of `p` in direction `d`.
pub open spec fn nbr(w: int, p: int, d: int) -> int {
    if d == 0 {
        p - 1
    } else if d == 1 {
        p + 1
    } else if d == 2 {
        p - w
    } else {
        p + w
    }
}

/// The direction opposite to `d`.
pub open spec fn opp(d: int) -> int {
    if d == 0 { 1 } else if d == 1 { 0 } else if d == 2 { 3 } else { 2 }
}

/// `p` and `q` may be in one component: both active, equal keys.
pub open spec fn joined(keys: Seq<u32>, active: Seq<bool>, p: int, q: int) -> bool {
    active[p] && active[q] && keys[p] == keys[q]
}

/// The result of labelling.
pub struct Components {
    /// Component id of each pixel, `NONE` for inactive pixels.
    pub labels: Vec<u32>,
    /// The first pixel (raster order) of each component.
    pub first: Vec<u32>,
    /// The pixels of each component.
    pub blobs: Vec<Vec<u32>>,
    /// For every pixel other than its component's first pixel: the direction of a
    /// neighbour in the same component that was reached earlier.
    pub parent: Ghost<Seq<int>>,
    /// When each pixel was reached.
    pub rank: Ghost<Seq<nat>>,
}

/// Every labelled pixel other than its component's first pixel steps, through a
/// same-component neighbour of smaller rank, towards that first pixel: each
/// component is 4-connected.
pub open spec fn rooted(labels: Seq<u32>, first: Seq<u32>, parent: Seq<int>, rank: Seq<nat>, w: int, h: int, n: int) -> bool {
    &&& parent.len() == n
    &&& rank.len() == n
    &&& forall|p: int| 0 <= p < n && labels[p] != NONE && p != first[labels[p] as int] ==> {
        let d = #[trigger] parent[p];
        &&& 0 <= d < 4
        &&& has_nbr(w, h, p, d)
        &&& labels[nbr(w, p, d)] == labels[p]
        &&& rank[nbr(w, p, d)] < rank[p]
    }
}

/// Joined neighbours carry equal labels.
pub open spec fn closed(labels: Seq<u32>, keys: Seq<u32>, active: Seq<bool>, w: int, h: int, n: int) -> bool {
    forall|p: int, d: int| 0 <= p < n && 0 <= d < 4 && #[trigger] has_nbr(w, h, p, d) && joined(keys, active, p, nbr(w, p, d))
        ==> labels[nbr(w, p, d)] == #[trigger] labels[p]
}

/// `c` is the component labelling of the `w`×`h` image with `keys` and `active`.
pub open spec fn is_labelling(c: Components, keys: Seq<u32>, active: Seq<bool>, w: int, h: int) -> bool {
    let n = w * h;
    let labels = c.labels@;
    let first = c.first@;
    let count = first.len();
    &&& labels.len() == n
    &&& c.blobs@.len() == count
    &&& count < NONE
    &&& forall|p: int| 0 <= p < n ==> (active[p] <==> (#[trigger] labels[p]) != NONE)
    &&& forall|p: int| 0 <= p < n && (#[trigger] labels[p]) != NONE ==> labels[p] < count
    &&& forall|k: int| 0 <= k < count ==> (#[trigger] first[k]) < n && labels[first[k] as int] == k
    &&& forall|k1: int, k2: int| 0 <= k1 < k2 < count ==> (#[trigger] first[k1]) < (#[trigger] first[k2])
    &&& forall|p: int| 0 <= p < n && (#[trigger] labels[p]) != NONE ==> first[labels[p] as int] <= p
    &&& closed(labels, keys, active, w, h, n)
    &&& forall|p: int, q: int| 0 <= p < n && 0 <= q < n && (#[trigger] labels[p]) != NONE && labels[p] == (#[trigger] labels[q])
        ==> keys[p] == keys[q]
    &&& rooted(labels, first, c.parent@, c.rank@, w, h, n)
    &&& forall|k: int| 0 <= k < count ==> (#[trigger] c.blobs@[k])@.no_duplicates()
    &&& forall|k: int, i: int| 0 <= k < count && 0 <= i < c.blobs@[k]@.len() ==>
        (#[trigger] c.blobs@[k]@[i]) < n && labels[c.blobs@[k]@[i] as int] == k
    &&& forall|p: int| 0 <= p < n && (#[trigger] labels[p]) != NONE ==> c.blobs@[labels[p] as int]@.contains(p as u32)
}

/// Neighbour arithmetic on a `w`×`h` raster.
pub proof fn lemma_nbr(w: int, h: int, p: int, d: int)
    requires
        w >= 1,
        h >= 1,
        0 <= p < w * h,
        0 <= d < 4,
        has_nbr(w, h, p, d),
    ensures
        0 <= nbr(w, p, d) < w * h,
        has_nbr(w, h, nbr(w, p, d), opp(d)),
        nbr(w, nbr(w, p, d), opp(d)) == p,
{
    let x = p % w;
    let y = p / w;
    assert(p == y * w + x && 0 <= x < w) by (nonlinear_arith)
        requires
            w >= 1,
            x == p % w,
            y == p / w,
    ;
    assert(0 <= y < h) by (nonlinear_arith)
        requires
            w >= 1,
            0 <= p < w * h,
            y == p / w,
    ;
    assert(y * w + w <= w * h) by (nonlinear_arith)
        requires
            w >= 1,
            0 <= y < h,
    ;
    let q = nbr(w, p, d);
    if d == 0 {
        assert(q % w == x - 1 && q / w == y) by (nonlinear_arith)
            requires
                q == y * w + x - 1,
                1 <= x < w,
        ;
    } else if d == 1 {
        assert(q % w == x + 1 && q / w == y) by (nonlinear_arith)
            requires
                q == y * w + x + 1,
                0 <= x,
                x + 1 < w,
        ;
    } else if d == 2 {
        assert(q == (y - 1) * w + x) by (nonlinear_arith)
            requires
                q == y * w + x - w,
        ;
        assert(q % w == x && q / w == y - 1 && q >= 0) by (nonlinear_arith)
            requires
                q == (y - 1) * w + x,
                0 <= x < w,
                y >= 1,
        ;
    } else {
        assert(q == (y + 1) * w + x) by (nonlinear_arith)
            requires
                q == y * w + x + w,
        ;
        assert(q % w == x && q / w == y + 1) by (nonlinear_arith)
            requires
                q == (y + 1) * w + x,
                0 <= x < w,
                y >= 0,
        ;
        assert((y + 2) * w <= h * w) by (nonlinear_arith)
            requires
                y + 2 <= h,
                w >= 1,
        ;
        assert(q < w * h) by (nonlinear_arith)
            requires
                q == (y + 1) * w + x,
                x < w,
                (y + 2) * w <= h * w,
        ;
    }
}

/// A duplicate-free sequence of values below `n` has at most `n` entries.
pub proof fn lemma_distinct_below(s: Seq<u32>, n: int)
    requires
        n >= 0,
        s.no_duplicates(),
        forall|i: int| 0 <= i < s.len() ==> (#[trigger] s[i]) < n,
    ensures
        s.len() <= n,
{
    s.unique_seq_to_set();
    let f = |x: u32| x as int;
    let t = s.to_set().map(f);
    vstd::seq_lib::seq_to_set_is_finite(s);
    vstd::set_lib::lemma_map_size(s.to_set(), t, f);
    vstd::set_lib::lemma_int_range(0, n);
    assert forall|v: int| t.contains(v) implies vstd::set_lib::set_int_range(0, n).contains(v) by {
        let x = choose|x: u32| s.to_set().contains(x) && f(x) == v;
        let i = choose|i: int| 0 <= i < s.len() && s[i] == x;
    }
    vstd::set_lib::lemma_len_subset(t, vstd::set_lib::set_int_range(0, n));
}

/// The neighbour of `p` in direction `d`, if the raster has one.
pub fn step(w: usize, h: usize, p: usize, d: usize) -> (q: Option<usize>)
    requires
        w >= 1,
        h >= 1,
        w * h <= usize::MAX,
        p < w * h,
        d < 4,
    ensures
        q is Some <==> has_nbr(w as int, h as int, p as int, d as int),
        q matches Some(v) ==> v == nbr(w as int, p as int, d as int) && v < w * h,
{
    let x = p % w;
    let y = p / w;
    proof {
        if has_nbr(w as int, h as int, p as int, d as int) {
            lemma_nbr(w as int, h as int, p as int, d as int);
        }
    }
    if d == 0 {
        if x > 0 { Some(p - 1) } else { None }
    } else if d == 1 {
        if x + 1 < w { Some(p + 1) } else { None }
    } else if d == 2 {
        if y > 0 { Some(p - w) } else { None }
    } else {
        if y + 1 < h { Some(p + w) } else { None }
    }
}

/// Claims `q` for component `id` when it is unclaimed, active and of the target key.
fn visit(labels: &mut Vec<u32>, stack: &mut Vec<u32>, keys: &Vec<u32>, active: &Vec<bool>, target: u32, id: u32, q: usize) -> (took: bool)
    requires
        q < old(labels)@.len(),
        q < keys@.len(),
        q < active@.len(),
        q < NONE,
    ensures
        took == (old(labels)@[q as int] == NONE && active@[q as int] && keys@[q as int] == target),
        took ==> final(labels)@ == old(labels)@.update(q as int, id) && final(stack)@ == old(stack)@.push(q as u32),
        !took ==> final(labels)@ == old(labels)@ && final(stack)@ == old(stack)@,
{
    if labels[q] == NONE && active[q] && keys[q] == target {
        labels.set(q, id);
        stack.push(q as u32);
        true
    } else {
        false
    }
}

/// The 4-connected components of the active pixels, joined by equal keys.
pub fn label_components(keys: &Vec<u32>, active: &Vec<bool>, w: usize, h: usize) -> (c: Components)
    requires
        w * h < NONE,
        keys@.len() == w * h,
        active@.len() == w * h,
    ensures
        is_labelling(c, keys@, active@, w as int, h as int),
{
    let n = w * h;
    let mut labels: Vec<u32> = vec![NONE; n];
    let mut first: Vec<u32> = Vec::new();
    let mut blobs: Vec<Vec<u32>> = Vec::new();
    let ghost mut parent: Seq<int> = Seq::new(n as nat, |i: int| 0int);
    let ghost mut rank: Seq<nat> = Seq::new(n as nat, |i: int| 0nat);
    let ghost mut time: nat = 0;
    let mut start: usize = 0;
    while start < n
        invariant
            n == w * h,
            n < NONE,
            n > 0 ==> w >= 1 && h >= 1,
            keys@.len() == n,
            active@.len() == n,
            labels@.len() == n,
            blobs@.len() == first@.len(),
            first@.len() <= start <= n,
            forall|p: int| 0 <= p < n && (#[trigger] labels@[p]) != NONE ==> labels@[p] < first@.len() && active@[p],
            forall|p: int| 0 <= p < start && active@[p] ==> (#[trigger] labels@[p]) != NONE,
            forall|k: int| 0 <= k < first@.len() ==> (#[trigger] first@[k]) < start && labels@[first@[k] as int] == k,
            forall|k1: int, k2: int| 0 <= k1 < k2 < first@.len() ==> (#[trigger] first@[k1]) < (#[trigger] first@[k2]),
            forall|p: int| 0 <= p < n && (#[trigger] labels@[p]) != NONE ==> first@[labels@[p] as int] <= p,
            forall|p: int, d: int| 0 <= p < n && 0 <= d < 4 && (#[trigger] labels@[p]) != NONE && #[trigger] has_nbr(w as int, h as int, p, d)
                && joined(keys@, active@, p, nbr(w as int, p, d)) ==> labels@[nbr(w as int, p, d)] == labels@[p],
            forall|p: int, q: int| 0 <= p < n && 0 <= q < n && (#[trigger] labels@[p]) != NONE && labels@[p] == (#[trigger] labels@[q])
                ==> keys@[p] == keys@[q],
            rooted(labels@, first@, parent, rank, w as int, h as int, n as int),
            forall|p: int| 0 <= p < n && (#[trigger] labels@[p]) != NONE ==> rank[p] < time,
            forall|k: int| 0 <= k < blobs@.len() ==> (#[trigger] blobs@[k])@.no_duplicates(),
            forall|k: int, i: int| 0 <= k < blobs@.len() && 0 <= i < blobs@[k]@.len() ==>
                (#[trigger] blobs@[k]@[i]) < n && labels@[blobs@[k]@[i] as int] == k,
            forall|p: int| 0 <= p < n && (#[trigger] labels@[p]) != NONE ==> blobs@[labels@[p] as int]@.contains(p as u32),
        decreases n - start,
    {
        if labels[start] != NONE || !active[start] {
            start += 1;
            continue;
        }
        let id = first.len() as u32;
        let target = keys[start];
        let ghost labels0 = labels@;
        let ghost blobs0 = blobs@;
        let ghost first0 = first@;
        let ghost rank0 = rank;
        labels.set(start, id);
        first.push(start as u32);
        proof {
            rank = rank.update(start as int, time);
            time = time + 1;
        }
        let mut stack: Vec<u32> = Vec::new();
        stack.push(start as u32);
        let mut blob: Vec<u32> = Vec::new();
        proof {
            assert(stack@[0] == start as u32);
            assert forall|p: int| 0 <= p < n && (#[trigger] labels@[p]) == id implies blob@.contains(p as u32) || stack@.contains(p as u32) by {
                if p != start as int {
                    assert(labels0[p] == labels@[p]);
                }
            }
            assert forall|p: int| 0 <= p < n && labels@[p] != NONE && p != first@[labels@[p] as int] implies {
                let d = #[trigger] parent[p];
                &&& 0 <= d < 4
                &&& has_nbr(w as int, h as int, p, d)
                &&& labels@[nbr(w as int, p, d)] == labels@[p]
                &&& rank[nbr(w as int, p, d)] < rank[p]
            } by {
                assert(p != start as int);
                assert(labels0[p] != NONE);
                assert(labels0[p] < id);
                assert(first@[labels@[p] as int] == first0[labels0[p] as int]);
                assert(rooted(labels0, first0, parent, rank0, w as int, h as int, n as int));
                let d = parent[p];
                lemma_nbr(w as int, h as int, p, d);
                assert(labels0[nbr(w as int, p, d)] == labels0[p]);
                assert(nbr(w as int, p, d) != start as int);
                assert(rank[nbr(w as int, p, d)] == rank0[nbr(w as int, p, d)]);
            }
        }
        while stack.len() > 0
            invariant
                n == w * h,
                n < NONE,
                w >= 1 && h >= 1,
                keys@.len() == n,
                active@.len() == n,
                labels@.len() == n,
                labels0.len() == n,
                start < n,
                id == first@.len() - 1,
                first@[id as int] == start,
                labels@[start as int] == id,
                id < NONE,
                blob@.len() <= n,
                target == keys@[start as int],
                blobs@ == blobs0,
                blobs@.len() == id,
                first@.len() <= start + 1,
                parent.len() == n,
                rank.len() == n,
                forall|p: int| 0 <= p < n && labels0[p] != NONE ==> (#[trigger] labels@[p]) == labels0[p],
                forall|p: int| 0 <= p < n && labels0[p] == NONE ==> (#[trigger] labels@[p]) == NONE || labels@[p] == id,
                forall|p: int| 0 <= p < n && (#[trigger] labels0[p]) != NONE ==> labels0[p] < id && active@[p],
                forall|p: int| 0 <= p < start && active@[p] ==> (#[trigger] labels0[p]) != NONE,
                forall|k: int| 0 <= k < id ==> (#[trigger] first@[k]) < start && labels0[first@[k] as int] == k,
                forall|k1: int, k2: int| 0 <= k1 < k2 < first@.len() ==> (#[trigger] first@[k1]) < (#[trigger] first@[k2]),
                forall|p: int| 0 <= p < n && (#[trigger] labels0[p]) != NONE ==> first@[labels0[p] as int] <= p,
                forall|p: int, d: int| 0 <= p < n && 0 <= d < 4 && (#[trigger] labels0[p]) != NONE && #[trigger] has_nbr(w as int, h as int, p, d)
                    && joined(keys@, active@, p, nbr(w as int, p, d)) ==> labels0[nbr(w as int, p, d)] == labels0[p],
                forall|p: int, q: int| 0 <= p < n && 0 <= q < n && (#[trigger] labels0[p]) != NONE && labels0[p] == (#[trigger] labels0[q])
                    ==> keys@[p] == keys@[q],
                rooted(labels@, first@, parent, rank, w as int, h as int, n as int),
                forall|p: int| 0 <= p < n && (#[trigger] labels@[p]) != NONE ==> rank[p] < time,
                forall|k: int| 0 <= k < blobs@.len() ==> (#[trigger] blobs@[k])@.no_duplicates(),
                forall|k: int, i: int| 0 <= k < blobs@.len() && 0 <= i < blobs@[k]@.len() ==>
                    (#[trigger] blobs@[k]@[i]) < n && labels0[blobs@[k]@[i] as int] == k,
                forall|p: int| 0 <= p < n && (#[trigger] labels0[p]) != NONE ==> blobs@[labels0[p] as int]@.contains(p as u32),
                forall|i: int| 0 <= i < stack@.len() ==> (#[trigger] stack@[i]) < n && labels@[stack@[i] as int] == id,
                forall|i: int| 0 <= i < blob@.len() ==> (#[trigger] blob@[i]) < n && labels@[blob@[i] as int] == id,
                stack@.no_duplicates(),
                blob@.no_duplicates(),
                forall|i: int, j: int| 0 <= i < stack@.len() && 0 <= j < blob@.len() ==> (#[trigger] stack@[i]) != (#[trigger] blob@[j]),
                forall|p: int| 0 <= p < n && (#[trigger] labels@[p]) == id ==> blob@.contains(p as u32) || stack@.contains(p as u32),
                forall|p: int| 0 <= p < n && (#[trigger] labels@[p]) == id ==> keys@[p] == target && active@[p] && p >= start,
                forall|i: int, d: int| 0 <= i < blob@.len() && 0 <= d < 4 && #[trigger] has_nbr(w as int, h as int, blob@[i] as int, d)
                    && joined(keys@, active@, #[trigger] blob@[i] as int, nbr(w as int, blob@[i] as int, d))
                    ==> labels@[nbr(w as int, blob@[i] as int, d)] == id,
            decreases n - blob@.len(),
        {
            let ghost stack_head = stack@;
            let p = stack.pop().unwrap();
            let ghost stack_rest = stack@;
            assert(stack_head =~= stack_rest.push(p));
            let ghost blob_before = blob@;
            blob.push(p);
            proof {
                lemma_distinct_below(blob@, n as int);
            }
            let p = p as usize;
            assert(labels@[p as int] == id);
            proof {
                assert forall|q: int| 0 <= q < n && (#[trigger] labels@[q]) == id implies blob@.contains(q as u32) || stack@.contains(q as u32) by {
                    if blob_before.contains(q as u32) {
                        let k = choose|k: int| 0 <= k < blob_before.len() && blob_before[k] == q as u32;
                        assert(blob@[k] == q as u32);
                    } else {
                        let old_stack = stack_head;
                        assert(old_stack.contains(q as u32));
                        let k = choose|k: int| 0 <= k < old_stack.len() && old_stack[k] == q as u32;
                        if k < stack_rest.len() {
                            assert(stack@[k] == q as u32);
                        } else {
                            assert(blob@[blob@.len() - 1] == q as u32);
                        }
                    }
                }
            }
            let mut d: usize = 0;
            while d < 4
                invariant
                    n == w * h,
                    n < NONE,
                    w >= 1 && h >= 1,
                    keys@.len() == n,
                    active@.len() == n,
                    labels@.len() == n,
                    labels0.len() == n,
                    p < n,
                    labels@[p as int] == id,
                    d <= 4,
                    start < n,
                    id == first@.len() - 1,
                    first@[id as int] == start,
                    labels@[start as int] == id,
                    id < NONE,
                    target == keys@[start as int],
                    forall|q: int| 0 <= q < start && active@[q] ==> (#[trigger] labels0[q]) != NONE,
                    parent.len() == n,
                    rank.len() == n,
                    forall|q: int| 0 <= q < n && labels0[q] != NONE ==> (#[trigger] labels@[q]) == labels0[q],
                    forall|q: int| 0 <= q < n && labels0[q] == NONE ==> (#[trigger] labels@[q]) == NONE || labels@[q] == id,
                    forall|q: int| 0 <= q < n && (#[trigger] labels0[q]) != NONE ==> labels0[q] < id && active@[q],
                    forall|q: int, e: int| 0 <= q < n && 0 <= e < 4 && (#[trigger] labels0[q]) != NONE && #[trigger] has_nbr(w as int, h as int, q, e)
                        && joined(keys@, active@, q, nbr(w as int, q, e)) ==> labels0[nbr(w as int, q, e)] == labels0[q],
                    rooted(labels@, first@, parent, rank, w as int, h as int, n as int),
                    forall|q: int| 0 <= q < n && (#[trigger] labels@[q]) != NONE ==> rank[q] < time,
                    forall|i: int| 0 <= i < stack@.len() ==> (#[trigger] stack@[i]) < n && labels@[stack@[i] as int] == id,
                    forall|i: int| 0 <= i < blob@.len() ==> (#[trigger] blob@[i]) < n && labels@[blob@[i] as int] == id,
                    stack@.no_duplicates(),
                    blob@.no_duplicates(),
                    forall|i: int, j: int| 0 <= i < stack@.len() && 0 <= j < blob@.len() ==> (#[trigger] stack@[i]) != (#[trigger] blob@[j]),
                    forall|q: int| 0 <= q < n && (#[trigger] labels@[q]) == id ==> blob@.contains(q as u32) || stack@.contains(q as u32),
                    forall|q: int| 0 <= q < n && (#[trigger] labels@[q]) == id ==> keys@[q] == target && active@[q] && q >= start,
                    blob@.len() > 0,
                    blob@[blob@.len() - 1] == p,
                    forall|i: int, e: int| 0 <= i < blob@.len() - 1 && 0 <= e < 4 && #[trigger] has_nbr(w as int, h as int, blob@[i] as int, e)
                        && joined(keys@, active@, #[trigger] blob@[i] as int, nbr(w as int, blob@[i] as int, e))
                        ==> labels@[nbr(w as int, blob@[i] as int, e)] == id,
                    forall|e: int| 0 <= e < d && #[trigger] has_nbr(w as int, h as int, p as int, e)
                        && joined(keys@, active@, p as int, nbr(w as int, p as int, e))
                        ==> labels@[nbr(w as int, p as int, e)] == id,
                decreases 4 - d,
            {
                if let Some(q) = step(w, h, p, d) {
                    proof {
                        lemma_nbr(w as int, h as int, p as int, d as int);
                        // A joined neighbour that is already claimed can only be claimed by `id`.
                        if labels@[q as int] != NONE && labels@[q as int] != id && joined(keys@, active@, p as int, q as int) {
                            assert(labels0[q as int] != NONE);
                            assert(has_nbr(w as int, h as int, q as int, opp(d as int)));
                            assert(labels0[nbr(w as int, q as int, opp(d as int))] == labels0[q as int]);
                            assert(false);
                        }
                    }
                    let ghost labels_before = labels@;
                    let ghost stack_before = stack@;
                    let ghost parent_before = parent;
                    let ghost rank_before = rank;
                    let took = visit(&mut labels, &mut stack, keys, active, target, id, q);
                    proof {
                        if took {
                            parent = parent.update(q as int, opp(d as int));
                            rank = rank.update(q as int, time);
                            time = time + 1;
                            assert(q as int != start as int);
                            assert(!stack_before.contains(q as u32));
                            assert(!blob@.contains(q as u32));
                            assert(nbr(w as int, q as int, opp(d as int)) == p as int);
                            assert forall|r: int| 0 <= r < n && labels@[r] != NONE && r != first@[labels@[r] as int] implies {
                                let e = #[trigger] parent[r];
                                &&& 0 <= e < 4
                                &&& has_nbr(w as int, h as int, r, e)
                                &&& labels@[nbr(w as int, r, e)] == labels@[r]
                                &&& rank[nbr(w as int, r, e)] < rank[r]
                            } by {
                                if r != q as int {
                                    assert(rooted(labels_before, first@, parent_before, rank_before, w as int, h as int, n as int));
                                    let e = parent[r];
                                    lemma_nbr(w as int, h as int, r, e);
                                    assert(labels_before[nbr(w as int, r, e)] == labels_before[r]);
                                    assert(nbr(w as int, r, e) != q as int);
                                } else {
                                    assert(labels@[p as int] == id);
                                    assert(rank[p as int] == rank_before[p as int]);
                                }
                            }
                            assert forall|i: int, e: int| 0 <= i < blob@.len() - 1 && 0 <= e < 4 && #[trigger] has_nbr(w as int, h as int, blob@[i] as int, e)
                                && joined(keys@, active@, #[trigger] blob@[i] as int, nbr(w as int, blob@[i] as int, e))
                                implies labels@[nbr(w as int, blob@[i] as int, e)] == id by {
                                lemma_nbr(w as int, h as int, blob@[i] as int, e);
                            }
                            assert forall|e: int| 0 <= e < d && #[trigger] has_nbr(w as int, h as int, p as int, e)
                                && joined(keys@, active@, p as int, nbr(w as int, p as int, e))
                                implies labels@[nbr(w as int, p as int, e)] == id by {
                                lemma_nbr(w as int, h as int, p as int, e);
                            }
                            assert forall|r: int| 0 <= r < n && (#[trigger] labels@[r]) == id implies blob@.contains(r as u32) || stack@.contains(r as u32) by {
                                if r != q as int {
                                    assert(labels_before[r] == id);
                                    if stack_before.contains(r as u32) {
                                        let k = choose|k: int| 0 <= k < stack_before.len() && stack_before[k] == r as u32;
                                        assert(stack@[k] == r as u32);
                                    }
                                } else {
                                    assert(stack@[stack@.len() - 1] == q as u32);
                                }
                            }
                        }
                    }
                }
                d += 1;
            }
        }
        proof {
            assert forall|p: int| 0 <= p < n && (#[trigger] labels@[p]) == id implies blob@.contains(p as u32) by {
                assert(!stack@.contains(p as u32));
            }
            assert forall|p: int, d: int| 0 <= p < n && 0 <= d < 4 && (#[trigger] labels@[p]) != NONE && #[trigger] has_nbr(w as int, h as int, p, d)
                && joined(keys@, active@, p, nbr(w as int, p, d)) implies labels@[nbr(w as int, p, d)] == labels@[p] by {
                lemma_nbr(w as int, h as int, p, d);
                if labels0[p] != NONE {
                    assert(labels0[nbr(w as int, p, d)] == labels0[p]);
                } else {
                    assert(blob@.contains(p as u32));
                    let i = choose|i: int| 0 <= i < blob@.len() && blob@[i] == p as u32;
                    assert(labels@[nbr(w as int, blob@[i] as int, d)] == id);
                }
            }
        }
        blobs.push(blob);
        start += 1;
    }
    Components {
        labels,
        first,
        blobs,
        parent: Ghost(parent),
        rank: Ghost(rank),
    }
}


/// One direction of growing a dot from pixel `p`: the neighbour in direction `d`
/// joins when the dot has fewer than `limit` pixels and the neighbour is in
/// component `k`, allowed, and not in the dot yet.
pub open spec fn grow_dir(labels: Seq<u32>, k: u32, allowed: Seq<bool>, w: int, h: int, limit: int, dot: Seq<usize>, p: int, d: int) -> Seq<usize> {
    if dot.len() < limit && has_nbr(w, h, p, d) {
        let q = nbr(w, p, d);
        if labels[q] == k && allowed[q] && !dot.contains(q as usize) {
            dot.push(q as usize)
        } else {
            dot
        }
    } else {
        dot
    }
}

/// The first `m` directions (left, right, up, down) of growing from `p`.
pub open spec fn grow_dirs(labels: Seq<u32>, k: u32, allowed: Seq<bool>, w: int, h: int, limit: int, dot: Seq<usize>, p: int, m: int) -> Seq<usize>
    decreases m,
{
    if m <= 0 {
        dot
    } else {
        grow_dir(labels, k, allowed, w, h, limit, grow_dirs(labels, k, allowed, w, h, limit, dot, p, m - 1), p, m - 1)
    }
}

/// Breadth-first growth, visiting the dot's pixels from position `head` on.
pub open spec fn grown_from(labels: Seq<u32>, k: u32, allowed: Seq<bool>, w: int, h: int, limit: int, dot: Seq<usize>, head: int) -> Seq<usize>
    decreases limit - head,
{
    if head < 0 || head >= dot.len() || head >= limit {
        dot
    } else {
        grown_from(labels, k, allowed, w, h, limit, grow_dirs(labels, k, allowed, w, h, limit, dot, dot[head] as int, 4), head + 1)
    }
}

/// A dot: breadth first from `anchor` over the allowed pixels of component `k`,
/// neighbours taken left, right, up, down, at most `limit` pixels, in the order
/// they were reached.
pub open spec fn dot_pixels(labels: Seq<u32>, k: u32, allowed: Seq<bool>, w: int, h: int, limit: int, anchor: usize) -> Seq<usize> {
    grown_from(labels, k, allowed, w, h, limit, seq![anchor], 0)
}

/// A full dot grows no more.
pub proof fn lemma_grow_dirs_full(labels: Seq<u32>, k: u32, allowed: Seq<bool>, w: int, h: int, limit: int, dot: Seq<usize>, p: int, m: int)
    requires
        dot.len() >= limit,
    ensures
        grow_dirs(labels, k, allowed, w, h, limit, dot, p, m) == dot,
    decreases m,
{
    if m > 0 {
        lemma_grow_dirs_full(labels, k, allowed, w, h, limit, dot, p, m - 1);
    }
}

/// Pixel `i` of `dot` is a 4-neighbour of a pixel that came before it.
pub open spec fn joins_earlier(dot: Seq<usize>, w: int, h: int, i: int) -> bool {
    exists|j: int, d: int| 0 <= j < i && 0 <= d < 4 && #[trigger] has_nbr(w, h, dot[j] as int, d) && nbr(w, dot[j] as int, d) == dot[i] as int
}

/// Every pixel of `dot` after the first joins one that came before it, so the
/// pixels form one 4-connected piece.
pub open spec fn chained(dot: Seq<usize>, w: int, h: int) -> bool {
    forall|i: int| 1 <= i < dot.len() ==> #[trigger] joins_earlier(dot, w, h, i)
}

/// Every pixel of `dot` after the first is an `allowed` pixel of component `k`.
pub open spec fn members_of(dot: Seq<usize>, labels: Seq<u32>, k: u32, allowed: Seq<bool>) -> bool {
    forall|i: int| 1 <= i < dot.len() ==> labels[#[trigger] dot[i] as int] == k && allowed[dot[i] as int]
}

proof fn lemma_grow_dirs_chained(labels: Seq<u32>, k: u32, allowed: Seq<bool>, w: int, h: int, limit: int, dot: Seq<usize>, at: int, m: int)
    requires
        w >= 1,
        h >= 1,
        w * h <= usize::MAX,
        chained(dot, w, h),
        forall|i: int| 0 <= i < dot.len() ==> (#[trigger] dot[i]) < w * h,
        members_of(dot, labels, k, allowed),
        0 <= at < dot.len(),
        m <= 4,
    ensures
        chained(grow_dirs(labels, k, allowed, w, h, limit, dot, dot[at] as int, m), w, h),
        members_of(grow_dirs(labels, k, allowed, w, h, limit, dot, dot[at] as int, m), labels, k, allowed),
        forall|i: int| 0 <= i < grow_dirs(labels, k, allowed, w, h, limit, dot, dot[at] as int, m).len()
            ==> (#[trigger] grow_dirs(labels, k, allowed, w, h, limit, dot, dot[at] as int, m)[i]) < w * h,
        grow_dirs(labels, k, allowed, w, h, limit, dot, dot[at] as int, m).len() >= dot.len(),
        grow_dirs(labels, k, allowed, w, h, limit, dot, dot[at] as int, m).take(dot.len() as int) == dot,
    decreases m,
{
    let p = dot[at] as int;
    if m <= 0 {
        assert(dot.take(dot.len() as int) =~= dot);
    } else {
        lemma_grow_dirs_chained(labels, k, allowed, w, h, limit, dot, at, m - 1);
        let g = grow_dirs(labels, k, allowed, w, h, limit, dot, p, m - 1);
        let g2 = grow_dirs(labels, k, allowed, w, h, limit, dot, p, m);
        assert(g2 == grow_dir(labels, k, allowed, w, h, limit, g, p, m - 1));
        assert(g[at] == dot.take(dot.len() as int)[at]);
        if g2 != g {
            let q = nbr(w, p, m - 1);
            lemma_nbr(w, h, p, m - 1);
            assert(g2 == g.push(q as usize));
            assert(g2[g.len() as int] as int == q);
            assert forall|i: int| 1 <= i < g2.len() implies labels[#[trigger] g2[i] as int] == k && allowed[g2[i] as int] by {
                if i < g.len() {
                    assert(g2[i] == g[i]);
                }
            }
            assert forall|i: int| 1 <= i < g2.len() implies #[trigger] joins_earlier(g2, w, h, i) by {
                if i < g.len() {
                    assert(joins_earlier(g, w, h, i));
                    let (j, d) = choose|j: int, d: int| 0 <= j < i && 0 <= d < 4 && #[trigger] has_nbr(w, h, g[j] as int, d) && nbr(w, g[j] as int, d) == g[i] as int;
                    assert(g2[j] == g[j] && g2[i] == g[i]);
                    assert(has_nbr(w, h, g2[j] as int, d));
                } else {
                    assert(g2[at] == g[at]);
                    assert(has_nbr(w, h, g2[at] as int, m - 1));
                }
            }
            assert(g2.take(dot.len() as int) =~= g.take(dot.len() as int));
        }
    }
}

proof fn lemma_grown_from_chained(labels: Seq<u32>, k: u32, allowed: Seq<bool>, w: int, h: int, limit: int, dot: Seq<usize>, head: int)
    requires
        w >= 1,
        h >= 1,
        w * h <= usize::MAX,
        chained(dot, w, h),
        forall|i: int| 0 <= i < dot.len() ==> (#[trigger] dot[i]) < w * h,
        members_of(dot, labels, k, allowed),
    ensures
        chained(grown_from(labels, k, allowed, w, h, limit, dot, head), w, h),
        members_of(grown_from(labels, k, allowed, w, h, limit, dot, head), labels, k, allowed),
        forall|i: int| 0 <= i < grown_from(labels, k, allowed, w, h, limit, dot, head).len()
            ==> (#[trigger] grown_from(labels, k, allowed, w, h, limit, dot, head)[i]) < w * h,
        grown_from(labels, k, allowed, w, h, limit, dot, head).len() >= dot.len(),
        grown_from(labels, k, allowed, w, h, limit, dot, head).take(dot.len() as int) == dot,
    decreases limit - head,
{
    if head < 0 || head >= dot.len() || head >= limit {
        assert(dot.take(dot.len() as int) =~= dot);
    } else {
        let g = grow_dirs(labels, k, allowed, w, h, limit, dot, dot[head] as int, 4);
        lemma_grow_dirs_chained(labels, k, allowed, w, h, limit, dot, head, 4);
        lemma_grown_from_chained(labels, k, allowed, w, h, limit, g, head + 1);
        let r = grown_from(labels, k, allowed, w, h, limit, g, head + 1);
        assert(r.take(dot.len() as int) =~= r.take(g.len() as int).take(dot.len() as int));
    }
}

/// A dot starts at its anchor and is one 4-connected piece of the canvas: each
/// later pixel is an allowed pixel of the component and the neighbour of one
/// painted before it, so the seeds reader sees one dot.
pub proof fn law_dot_is_connected(labels: Seq<u32>, k: u32, allowed: Seq<bool>, w: int, h: int, limit: int, anchor: usize)
    requires
        w >= 1,
        h >= 1,
        w * h <= usize::MAX,
        anchor < w * h,
    ensures
        dot_pixels(labels, k, allowed, w, h, limit, anchor).len() >= 1,
        dot_pixels(labels, k, allowed, w, h, limit, anchor)[0] == anchor,
        chained(dot_pixels(labels, k, allowed, w, h, limit, anchor), w, h),
        members_of(dot_pixels(labels, k, allowed, w, h, limit, anchor), labels, k, allowed),
        forall|i: int| 0 <= i < dot_pixels(labels, k, allowed, w, h, limit, anchor).len()
            ==> (#[trigger] dot_pixels(labels, k, allowed, w, h, limit, anchor)[i]) < w * h,
{
    let start = seq![anchor];
    lemma_grown_from_chained(labels, k, allowed, w, h, limit, start, 0);
    let dot = dot_pixels(labels, k, allowed, w, h, limit, anchor);
    assert(dot.take(1)[0] == start[0]);
}

} // verus!

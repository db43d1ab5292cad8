//! How seed dots read back. When some components of a labelling each show one
//! dot, and painted neighbours always lie in one component, reading the painted
//! pixels as blobs gives one blob per dot: the blob of a dot is exactly that dot.
use vstd::prelude::*;
use vstd::set_lib::{lemma_int_range, lemma_map_size, set_int_range};
use crate::components::{closed, dot_pixels, has_nbr, is_labelling, joins_earlier, law_dot_is_connected, lemma_nbr, nbr, rooted, Components, NONE};
use crate::seeds::zero_keys;

verus! {

/// The dot of component `k`.
pub open spec fn dot_of(c: Components, allowed: Seq<bool>, limit: int, anchor: spec_fn(int) -> u32, w: int, h: int, k: int) -> Seq<usize> {
    dot_pixels(c.labels@, k as u32, allowed, w, h, limit, anchor(k) as usize)
}

/// `marked` is the mask of the dots that the components chosen by `sel` show:
/// each such component's anchor is one of its allowed pixels, exactly the
/// pixels of those dots are marked, and marked neighbours lie in one component.
pub open spec fn dots_layout(
    marked: Seq<bool>,
    c: Components,
    allowed: Seq<bool>,
    limit: int,
    sel: spec_fn(int) -> bool,
    anchor: spec_fn(int) -> u32,
    w: int,
    h: int,
) -> bool {
    &&& marked.len() == w * h
    &&& forall|k: int| 0 <= k < c.first@.len() && #[trigger] sel(k) ==> anchor(k) < w * h && c.labels@[anchor(k) as int] == k
        && allowed[anchor(k) as int]
    &&& forall|p: int| 0 <= p < w * h ==> (#[trigger] marked[p] <==> (c.labels@[p] != NONE && sel(c.labels@[p] as int) && dot_of(
        c,
        allowed,
        limit,
        anchor,
        w,
        h,
        c.labels@[p] as int,
    ).contains(p as usize)))
    &&& forall|p: int, d: int| 0 <= p < w * h && 0 <= d < 4 && #[trigger] has_nbr(w, h, p, d) && marked[p] && marked[nbr(w, p, d)]
        ==> c.labels@[p] == c.labels@[nbr(w, p, d)]
}

proof fn lemma_dot_facts(c: Components, allowed: Seq<bool>, limit: int, sel: spec_fn(int) -> bool, anchor: spec_fn(int) -> u32, w: int, h: int, k: int)
    requires
        w >= 0,
        h >= 0,
        w * h < NONE,
        0 <= k < c.first@.len(),
        sel(k),
        anchor(k) < w * h,
        c.labels@[anchor(k) as int] == k,
    ensures
        ({
            let dot = dot_of(c, allowed, limit, anchor, w, h, k);
            &&& dot.len() >= 1
            &&& dot[0] == anchor(k)
            &&& forall|i: int| 0 <= i < dot.len() ==> (#[trigger] dot[i]) < w * h && c.labels@[dot[i] as int] == k
            &&& forall|i: int| 1 <= i < dot.len() ==> #[trigger] joins_earlier(dot, w, h, i)
        }),
{
    let a = anchor(k);
    assert(w >= 1 && h >= 1) by (nonlinear_arith)
        requires
            a < w * h,
            w >= 0,
            h >= 0,
    ;
    law_dot_is_connected(c.labels@, k as u32, allowed, w, h, limit, a as usize);
}

/// Every pixel of a chosen component's dot lies in the blob of its anchor.
proof fn lemma_dot_in_one_blob(
    marked: Seq<bool>,
    c: Components,
    c2: Components,
    allowed: Seq<bool>,
    limit: int,
    sel: spec_fn(int) -> bool,
    anchor: spec_fn(int) -> u32,
    w: int,
    h: int,
    k: int,
    i: int,
)
    requires
        w >= 0,
        h >= 0,
        w * h < NONE,
        is_labelling(c2, zero_keys(w * h), marked, w, h),
        dots_layout(marked, c, allowed, limit, sel, anchor, w, h),
        c.first@.len() < NONE,
        0 <= k < c.first@.len(),
        sel(k),
        0 <= i < dot_of(c, allowed, limit, anchor, w, h, k).len(),
    ensures
        ({
            let dot = dot_of(c, allowed, limit, anchor, w, h, k);
            &&& marked[dot[i] as int]
            &&& c2.labels@[dot[i] as int] == c2.labels@[anchor(k) as int]
        }),
    decreases i,
{
    let n = w * h;
    let dot = dot_of(c, allowed, limit, anchor, w, h, k);
    lemma_dot_facts(c, allowed, limit, sel, anchor, w, h, k);
    assert(dot[i] < n && c.labels@[dot[i] as int] == k);
    assert(dot.contains(dot[i]));
    assert(marked[dot[i] as int]);
    if i > 0 {
        assert(joins_earlier(dot, w, h, i));
        let (j, d) = choose|j: int, d: int| 0 <= j < i && 0 <= d < 4 && #[trigger] has_nbr(w, h, dot[j] as int, d) && nbr(w, dot[j] as int, d) == dot[i] as int;
        lemma_dot_in_one_blob(marked, c, c2, allowed, limit, sel, anchor, w, h, k, j);
        let p = dot[j] as int;
        assert(zero_keys(n)[p] == zero_keys(n)[nbr(w, p, d)]);
        assert(closed(c2.labels@, zero_keys(n), marked, w, h, n));
        assert(c2.labels@[nbr(w, p, d)] == c2.labels@[p]);
    }
}

/// Every marked pixel lies in the component of its blob's first pixel: it steps,
/// through marked neighbours, to that pixel.
proof fn lemma_blob_in_one_component(
    marked: Seq<bool>,
    c: Components,
    c2: Components,
    allowed: Seq<bool>,
    limit: int,
    sel: spec_fn(int) -> bool,
    anchor: spec_fn(int) -> u32,
    w: int,
    h: int,
    p: int,
)
    requires
        w >= 0,
        h >= 0,
        w * h < NONE,
        is_labelling(c2, zero_keys(w * h), marked, w, h),
        dots_layout(marked, c, allowed, limit, sel, anchor, w, h),
        0 <= p < w * h,
        marked[p],
    ensures
        c2.labels@[p] != NONE,
        c.labels@[p] == c.labels@[c2.first@[c2.labels@[p] as int] as int],
    decreases c2.rank@[p],
{
    let n = w * h;
    let l = c2.labels@[p];
    if p != c2.first@[l as int] {
        assert(rooted(c2.labels@, c2.first@, c2.parent@, c2.rank@, w, h, n));
        let d = c2.parent@[p];
        let q = nbr(w, p, d);
        assert(w >= 1 && h >= 1) by (nonlinear_arith)
            requires
                0 <= p < w * h,
                w >= 0,
                h >= 0,
        ;
        lemma_nbr(w, h, p, d);
        assert(c2.labels@[q] == l);
        assert(marked[q]);
        assert(c.labels@[p] == c.labels@[q]);
        lemma_blob_in_one_component(marked, c, c2, allowed, limit, sel, anchor, w, h, q);
    }
}

/// Reading the marked pixels as blobs gives one blob per chosen component:
/// there are as many blobs as chosen components, and each blob lies in the dot
/// of one chosen component.
pub proof fn lemma_one_blob_per_dot(
    marked: Seq<bool>,
    c: Components,
    c2: Components,
    keys: Seq<u32>,
    active: Seq<bool>,
    allowed: Seq<bool>,
    limit: int,
    sel: spec_fn(int) -> bool,
    anchor: spec_fn(int) -> u32,
    w: int,
    h: int,
)
    requires
        w >= 0,
        h >= 0,
        w * h < NONE,
        is_labelling(c, keys, active, w, h),
        is_labelling(c2, zero_keys(w * h), marked, w, h),
        dots_layout(marked, c, allowed, limit, sel, anchor, w, h),
    ensures
        Set::new(|k: int| 0 <= k < c.first@.len() && sel(k)).finite(),
        c2.first@.len() == Set::new(|k: int| 0 <= k < c.first@.len() && sel(k)).len(),
        forall|l: int| 0 <= l < c2.first@.len() ==> {
            let k = c.labels@[(#[trigger] c2.first@[l]) as int] as int;
            &&& 0 <= k < c.first@.len()
            &&& sel(k)
            &&& forall|i: int| 0 <= i < c2.blobs@[l]@.len() ==> c.labels@[(#[trigger] c2.blobs@[l]@[i]) as int] == k
                && dot_of(c, allowed, limit, anchor, w, h, k).contains(c2.blobs@[l]@[i] as usize)
        },
{
    let n = w * h;
    let count = c.first@.len() as int;
    let count2 = c2.first@.len() as int;
    let chosen = Set::new(|k: int| 0 <= k < count && sel(k));
    let blobs = set_int_range(0, count2);
    let f = |k: int| c2.labels@[anchor(k) as int] as int;
    lemma_int_range(0, count);
    assert(chosen.subset_of(set_int_range(0, count)));
    vstd::set_lib::lemma_len_subset(chosen, set_int_range(0, count));
    assert forall|x: int| chosen.map(f).contains(x) <==> blobs.contains(x) by {
        if chosen.map(f).contains(x) {
            let k = choose|k: int| chosen.contains(k) && x == f(k);
            lemma_dot_facts(c, allowed, limit, sel, anchor, w, h, k);
            lemma_dot_in_one_blob(marked, c, c2, allowed, limit, sel, anchor, w, h, k, 0);
            assert(c2.labels@[anchor(k) as int] != NONE);
        }
        if blobs.contains(x) {
            let fp = c2.first@[x] as int;
            assert(c2.labels@[fp] == x);
            assert(marked[fp]);
            let k = c.labels@[fp] as int;
            let dot = dot_of(c, allowed, limit, anchor, w, h, k);
            let i = choose|i: int| 0 <= i < dot.len() && dot[i] == fp as usize;
            lemma_dot_in_one_blob(marked, c, c2, allowed, limit, sel, anchor, w, h, k, i);
            assert(chosen.contains(k));
            assert(f(k) == x);
        }
    }
    assert(chosen.map(f) =~= blobs);
    assert forall|k1: int, k2: int| chosen.contains(k1) && chosen.contains(k2) && #[trigger] f(k1) == #[trigger] f(k2) implies k1 == k2 by {
        lemma_dot_facts(c, allowed, limit, sel, anchor, w, h, k1);
        lemma_dot_facts(c, allowed, limit, sel, anchor, w, h, k2);
        lemma_dot_in_one_blob(marked, c, c2, allowed, limit, sel, anchor, w, h, k1, 0);
        lemma_dot_in_one_blob(marked, c, c2, allowed, limit, sel, anchor, w, h, k2, 0);
        lemma_blob_in_one_component(marked, c, c2, allowed, limit, sel, anchor, w, h, anchor(k1) as int);
        lemma_blob_in_one_component(marked, c, c2, allowed, limit, sel, anchor, w, h, anchor(k2) as int);
    }
    lemma_map_size(chosen, blobs, f);
    lemma_int_range(0, count2);
    assert forall|l: int| 0 <= l < count2 implies {
        let k = c.labels@[(#[trigger] c2.first@[l]) as int] as int;
        &&& 0 <= k < count
        &&& sel(k)
        &&& forall|i: int| 0 <= i < c2.blobs@[l]@.len() ==> c.labels@[(#[trigger] c2.blobs@[l]@[i]) as int] == k
            && dot_of(c, allowed, limit, anchor, w, h, k).contains(c2.blobs@[l]@[i] as usize)
    } by {
        let fp = c2.first@[l] as int;
        let k = c.labels@[fp] as int;
        assert(marked[fp]);
        assert forall|i: int| 0 <= i < c2.blobs@[l]@.len() implies c.labels@[(#[trigger] c2.blobs@[l]@[i]) as int] == k
            && dot_of(c, allowed, limit, anchor, w, h, k).contains(c2.blobs@[l]@[i] as usize) by {
            let q = c2.blobs@[l]@[i] as int;
            assert(q < n && c2.labels@[q] == l);
            lemma_blob_in_one_component(marked, c, c2, allowed, limit, sel, anchor, w, h, q);
            assert(marked[q]);
        }
    }
}

} // verus!

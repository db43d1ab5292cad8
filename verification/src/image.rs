//! Decoded RGBA8 images and their colour-space verdict.
use vstd::prelude::*;
use std::io::Cursor;

verus! {

/// The colour-space verdict of an image, and what it was based on; the basis goes
/// into the report as is, so a rejected artist can see which chunk was read.
#[derive(Debug, Clone)]
pub struct ColorSpace {
    pub is_srgb: bool,
    pub basis: String,
}

/// A master image decoded to RGBA8.
pub struct Image {
    pub width: u32,
    pub height: u32,
    /// RGBA8, `width * height * 4` bytes.
    pub rgba: Vec<u8>,
    pub color_space: ColorSpace,
}

/// Byte offset of pixel `(x, y)` in an RGBA8 buffer `w` pixels wide.
pub open spec fn px_offset(w: int, x: int, y: int) -> int {
    (y * w + x) * 4
}

impl Image {
    /// The RGBA value of pixel `(x, y)`.
    pub fn pixel(&self, x: u32, y: u32) -> (p: [u8; 4])
        requires
            px_offset(self.width as int, x as int, y as int) + 4 <= self.rgba@.len(),
        ensures
            ({
                let i = px_offset(self.width as int, x as int, y as int);
                p == [self.rgba@[i], self.rgba@[i + 1], self.rgba@[i + 2], self.rgba@[i + 3]]
            }),
    {
        let len = self.rgba.len();
        assert(0 <= (y as int) * (self.width as int) && (y as int) * (self.width as int) + x + 1 <= len as int / 4) by (nonlinear_arith)
            requires
                ((y as int) * (self.width as int) + x) * 4 + 4 <= len,
        ;
        let i = ((y as usize * self.width as usize) + x as usize) * 4;
        [self.rgba[i], self.rgba[i + 1], self.rgba[i + 2], self.rgba[i + 3]]
    }
}

/// `v` as four big-endian bytes.
pub open spec fn be4(v: u32) -> Seq<u8> {
    seq![(v / 0x100_0000) as u8, ((v / 0x1_0000) % 0x100) as u8, ((v / 0x100) % 0x100) as u8, (v % 0x100) as u8]
}

/// `n` zero bytes.
pub open spec fn zeros(n: nat) -> Seq<u8> {
    Seq::new(n, |i: int| 0u8)
}

/// An ICC `XYZType` element: the type signature, four reserved bytes, and three
/// s15Fixed16 numbers.
pub open spec fn xyz_element(v: [i32; 3]) -> Seq<u8> {
    seq![88u8, 89u8, 90u8, 32u8] + zeros(4) + be4(v[0] as u32) + be4(v[1] as u32) + be4(v[2] as u32)
}

/// The 128-byte header of a synthetic display profile of `len` bytes.
pub open spec fn profile_header(len: u32) -> Seq<u8> {
    be4(len) + zeros(8) + seq![109u8, 110u8, 116u8, 114u8] + seq![82u8, 71u8, 66u8, 32u8] + seq![88u8, 89u8, 90u8, 32u8]
        + zeros(12) + seq![97u8, 99u8, 115u8, 112u8] + zeros(88)
}

/// Tag signatures of the four colorant tags, in table order.
pub open spec fn tag_sig(i: int) -> Seq<u8> {
    if i == 0 {
        seq![119u8, 116u8, 112u8, 116u8]
    } else if i == 1 {
        seq![114u8, 88u8, 89u8, 90u8]
    } else if i == 2 {
        seq![103u8, 88u8, 89u8, 90u8]
    } else {
        seq![98u8, 88u8, 89u8, 90u8]
    }
}

/// Tag-table entry `i`: signature, offset and size of its `XYZType` element.
pub open spec fn tag_entry(i: int) -> Seq<u8> {
    tag_sig(i) + be4((180 + 20 * i) as u32) + be4(20)
}

/// A minimal matrix/TRC profile holding white point and the three colorants
/// as raw s15Fixed16 values.
#[verifier::opaque]
pub open spec fn synth_profile_spec(wtpt: [i32; 3], r: [i32; 3], g: [i32; 3], b: [i32; 3]) -> Seq<u8> {
    profile_header(260) + be4(4) + tag_entry(0) + tag_entry(1) + tag_entry(2) + tag_entry(3)
        + xyz_element(wtpt) + xyz_element(r) + xyz_element(g) + xyz_element(b)
}

fn push_be(out: &mut Vec<u8>, v: u32)
    ensures
        final(out)@ == old(out)@ + be4(v),
{
    out.push((v / 0x100_0000) as u8);
    out.push(((v / 0x1_0000) % 0x100) as u8);
    out.push(((v / 0x100) % 0x100) as u8);
    out.push((v % 0x100) as u8);
    assert(out@ =~= old(out)@ + be4(v));
}

fn push_bytes(out: &mut Vec<u8>, bytes: [u8; 4])
    ensures
        final(out)@ == old(out)@ + seq![bytes[0], bytes[1], bytes[2], bytes[3]],
{
    out.push(bytes[0]);
    out.push(bytes[1]);
    out.push(bytes[2]);
    out.push(bytes[3]);
    assert(out@ =~= old(out)@ + seq![bytes[0], bytes[1], bytes[2], bytes[3]]);
}

fn push_zeros(out: &mut Vec<u8>, n: usize)
    ensures
        final(out)@ == old(out)@ + zeros(n as nat),
{
    let ghost start = out@;
    let mut i: usize = 0;
    while i < n
        invariant
            i <= n,
            out@ == start + zeros(i as nat),
        decreases n - i,
    {
        out.push(0);
        assert(out@ =~= start + zeros(i as nat + 1));
        i += 1;
    }
}

fn push_xyz(out: &mut Vec<u8>, v: [i32; 3])
    ensures
        final(out)@ == old(out)@ + xyz_element(v),
{
    let ghost start = out@;
    push_bytes(out, [88, 89, 90, 32]);
    push_zeros(out, 4);
    push_be(out, v[0] as u32);
    push_be(out, v[1] as u32);
    push_be(out, v[2] as u32);
    assert(out@ =~= start + xyz_element(v));
}

/// A minimal matrix/TRC ICC profile with the given white point and colorants,
/// each an s15Fixed16 triple; tests and negative fixtures share it.
pub fn synth_profile(wtpt: [i32; 3], r: [i32; 3], g: [i32; 3], b: [i32; 3]) -> (out: Vec<u8>)
    ensures
        out@ == synth_profile_spec(wtpt, r, g, b),
{
    let mut out: Vec<u8> = Vec::new();
    push_be(&mut out, 260);
    push_zeros(&mut out, 8);
    push_bytes(&mut out, [109, 110, 116, 114]);
    push_bytes(&mut out, [82, 71, 66, 32]);
    push_bytes(&mut out, [88, 89, 90, 32]);
    push_zeros(&mut out, 12);
    push_bytes(&mut out, [97, 99, 115, 112]);
    push_zeros(&mut out, 88);
    assert(out@ =~= profile_header(260));
    push_be(&mut out, 4);
    let sigs: [[u8; 4]; 4] = [[119, 116, 112, 116], [114, 88, 89, 90], [103, 88, 89, 90], [98, 88, 89, 90]];
    let mut i: u32 = 0;
    while i < 4
        invariant
            i <= 4,
            sigs@ == seq![[119u8, 116u8, 112u8, 116u8], [114u8, 88u8, 89u8, 90u8], [103u8, 88u8, 89u8, 90u8], [98u8, 88u8, 89u8, 90u8]],
            out@ == profile_header(260) + be4(4) + (if i == 0 { Seq::empty() } else if i == 1 { tag_entry(0) } else if i == 2 {
                tag_entry(0) + tag_entry(1)
            } else if i == 3 {
                tag_entry(0) + tag_entry(1) + tag_entry(2)
            } else {
                tag_entry(0) + tag_entry(1) + tag_entry(2) + tag_entry(3)
            }),
        decreases 4 - i,
    {
        let ghost before = out@;
        let sig = sigs[i as usize];
        push_bytes(&mut out, sig);
        push_be(&mut out, 180 + 20 * i);
        push_be(&mut out, 20);
        assert(seq![sig[0], sig[1], sig[2], sig[3]] =~= tag_sig(i as int));
        assert(out@ =~= before + tag_entry(i as int));
        i += 1;
    }
    push_xyz(&mut out, wtpt);
    push_xyz(&mut out, r);
    push_xyz(&mut out, g);
    push_xyz(&mut out, b);
    assert(out@ =~= synth_profile_spec(wtpt, r, g, b)) by {
        reveal(synth_profile_spec);
    }
    out
}

/// D65 white point, as stored by the version-2 convention.
pub const D65: [i32; 3] = [62289, 65536, 71372];
/// D50, the profile connection space white.
pub const D50: [i32; 3] = [63190, 65536, 54061];
/// sRGB colorants, Bradford-adapted to D50.
pub const SRGB_R: [i32; 3] = [28578, 14581, 912];
pub const SRGB_G: [i32; 3] = [25241, 46981, 6362];
pub const SRGB_B: [i32; 3] = [9376, 3972, 46799];

/// An sRGB profile with a D65 white point.
pub fn srgb_profile() -> (out: Vec<u8>)
    ensures
        out@ == synth_profile_spec(D65, SRGB_R, SRGB_G, SRGB_B),
{
    synth_profile(D65, SRGB_R, SRGB_G, SRGB_B)
}

/// Display P3 colorants, Bradford-adapted to D50.
pub const P3_R: [i32; 3] = [33759, 15807, -69];
pub const P3_G: [i32; 3] = [19135, 45367, 2745];
pub const P3_B: [i32; 3] = [10296, 4363, 51385];

/// A Display P3 profile (colorants adapted to D50): the colour space every master
/// must not use.
pub fn display_p3_profile() -> (out: Vec<u8>)
    ensures
        out@ == synth_profile_spec(D65, P3_R, P3_G, P3_B),
{
    synth_profile(D65, P3_R, P3_G, P3_B)
}


// ── reading colorants back from an ICC profile ────────────────────────

/// The big-endian `u32` at byte `at`, if all four bytes are there.
pub open spec fn be_u32_at(p: Seq<u8>, at: int) -> Option<u32> {
    if 0 <= at && at + 4 <= p.len() {
        Some((p[at] * 0x100_0000 + p[at + 1] * 0x1_0000 + p[at + 2] * 0x100 + p[at + 3]) as u32)
    } else {
        None
    }
}

/// The `XYZType` signature, `XYZ `.
pub open spec fn xyz_sig() -> Seq<u8> {
    seq![88u8, 89u8, 90u8, 32u8]
}

/// The three s15Fixed16 numbers of the `XYZType` element that the tag-table
/// entry at byte `entry` points to: `None` when its offset or size cannot be
/// read, it is shorter than 20 bytes, or it is not an `XYZType`.
pub open spec fn xyz_at(p: Seq<u8>, entry: int) -> Option<[i32; 3]> {
    match (be_u32_at(p, entry + 4), be_u32_at(p, entry + 8)) {
        (Some(off), Some(size)) => {
            if size < 20 || off + 4 > p.len() || p.subrange(off as int, off + 4) != xyz_sig() {
                None
            } else {
                match (be_u32_at(p, off + 8), be_u32_at(p, off + 12), be_u32_at(p, off + 16)) {
                    (Some(a), Some(b), Some(c)) => Some([a as i32, b as i32, c as i32]),
                    _ => None,
                }
            }
        },
        _ => None,
    }
}

/// Scans tag-table entries `i..n` for `sig`: the first entry with that
/// signature decides; an entry past the end of the profile ends the scan empty.
pub open spec fn tag_scan(p: Seq<u8>, sig: Seq<u8>, i: int, n: int) -> Option<[i32; 3]>
    decreases n - i,
{
    if i >= n {
        None
    } else {
        let entry = 132 + 12 * i;
        if entry + 4 > p.len() {
            None
        } else if p.subrange(entry, entry + 4) != sig {
            tag_scan(p, sig, i + 1, n)
        } else {
            xyz_at(p, entry)
        }
    }
}

/// The raw value of the `XYZType` tag `sig`: after the 128-byte header comes the
/// tag count and then 12-byte entries `[signature][offset][size]`; at most 256
/// entries are looked at.
pub open spec fn xyz_tag_spec(p: Seq<u8>, sig: Seq<u8>) -> Option<[i32; 3]> {
    match be_u32_at(p, 128) {
        None => None,
        Some(count) => tag_scan(p, sig, 0, if count < 256 { count as int } else { 256 }),
    }
}

fn be_u32(bytes: &[u8], at: usize) -> (v: Option<u32>)
    ensures
        v == be_u32_at(bytes@, at as int),
{
    if at <= bytes.len() && bytes.len() - at >= 4 {
        let v = bytes[at] as u32 * 0x100_0000 + bytes[at + 1] as u32 * 0x1_0000 + bytes[at + 2] as u32 * 0x100
            + bytes[at + 3] as u32;
        Some(v)
    } else {
        None
    }
}

fn same4(bytes: &[u8], at: usize, sig: [u8; 4]) -> (b: bool)
    requires
        at + 4 <= bytes@.len(),
    ensures
        b == (bytes@.subrange(at as int, at + 4) == seq![sig[0], sig[1], sig[2], sig[3]]),
{
    let b = bytes[at] == sig[0] && bytes[at + 1] == sig[1] && bytes[at + 2] == sig[2] && bytes[at + 3] == sig[3];
    proof {
        let sub = bytes@.subrange(at as int, at + 4);
        let want = seq![sig[0], sig[1], sig[2], sig[3]];
        if b {
            assert(sub =~= want);
        } else {
            if sub == want {
                assert(sub[0] == want[0] && sub[1] == want[1] && sub[2] == want[2] && sub[3] == want[3]);
            }
        }
    }
    b
}

/// The raw value of the `XYZType` element the entry at `entry` points to.
fn xyz_element_at(profile: &[u8], entry: usize) -> (v: Option<[i32; 3]>)
    requires
        entry + 12 <= usize::MAX,
    ensures
        v == xyz_at(profile@, entry as int),
{
    let offset = match be_u32(profile, entry + 4) {
        Some(o) => o,
        None => return None,
    };
    let size = match be_u32(profile, entry + 8) {
        Some(s) => s,
        None => return None,
    };
    let off = offset as usize;
    if size < 20 || off > profile.len() || profile.len() - off < 4 {
        return None;
    }
    if !same4(profile, off, [88, 89, 90, 32]) {
        return None;
    }
    assert(seq![88u8, 89u8, 90u8, 32u8] =~= xyz_sig());
    if profile.len() - off < 20 {
        return None;
    }
    let a = match be_u32(profile, off + 8) {
        Some(a) => a,
        None => return None,
    };
    let b = match be_u32(profile, off + 12) {
        Some(b) => b,
        None => return None,
    };
    let c = match be_u32(profile, off + 16) {
        Some(c) => c,
        None => return None,
    };
    Some([#[verifier::truncate] (a as i32), #[verifier::truncate] (b as i32), #[verifier::truncate] (c as i32)])
}

/// The raw s15Fixed16 triple of the `XYZType` tag `sig`, if the profile has one.
pub fn xyz_tag(profile: &[u8], sig: [u8; 4]) -> (v: Option<[i32; 3]>)
    ensures
        v == xyz_tag_spec(profile@, seq![sig[0], sig[1], sig[2], sig[3]]),
{
    let ghost sg = seq![sig[0], sig[1], sig[2], sig[3]];
    let count = match be_u32(profile, 128) {
        Some(c) => c,
        None => return None,
    };
    let n: usize = if count < 256 { count as usize } else { 256 };
    let mut i: usize = 0;
    while i < n
        invariant
            n <= 256,
            i <= n,
            sg == seq![sig[0], sig[1], sig[2], sig[3]],
            xyz_tag_spec(profile@, sg) == tag_scan(profile@, sg, i as int, n as int),
        decreases n - i,
    {
        let entry = 132 + 12 * i;
        if entry > profile.len() || profile.len() - entry < 4 {
            return None;
        }
        if same4(profile, entry, sig) {
            return xyz_element_at(profile, entry);
        }
        i += 1;
    }
    None
}

/// The colorant tags of a matrix/TRC profile, raw: white point (optional) and
/// the red, green and blue colorants.
#[derive(Debug, Clone, Copy, PartialEq, Eq)]
pub struct Colorants {
    pub wtpt: Option<[i32; 3]>,
    pub r: [i32; 3],
    pub g: [i32; 3],
    pub b: [i32; 3],
}

/// The colorants of a profile; `None` unless all three colorant tags read.
pub open spec fn colorants_spec(p: Seq<u8>) -> Option<Colorants> {
    match (xyz_tag_spec(p, tag_sig(1)), xyz_tag_spec(p, tag_sig(2)), xyz_tag_spec(p, tag_sig(3))) {
        (Some(r), Some(g), Some(b)) => Some(Colorants { wtpt: xyz_tag_spec(p, tag_sig(0)), r, g, b }),
        _ => None,
    }
}

/// The colorants of a profile. `None` means it is not a matrix/TRC profile
/// with RGB colorants, and the verdict moves on to the next signal.
pub fn colorants(profile: &[u8]) -> (c: Option<Colorants>)
    ensures
        c == colorants_spec(profile@),
{
    assert(seq![119u8, 116u8, 112u8, 116u8] =~= tag_sig(0));
    assert(seq![114u8, 88u8, 89u8, 90u8] =~= tag_sig(1));
    assert(seq![103u8, 88u8, 89u8, 90u8] =~= tag_sig(2));
    assert(seq![98u8, 88u8, 89u8, 90u8] =~= tag_sig(3));
    let wtpt = xyz_tag(profile, [119, 116, 112, 116]);
    let r = match xyz_tag(profile, [114, 88, 89, 90]) {
        Some(v) => v,
        None => return None,
    };
    let g = match xyz_tag(profile, [103, 88, 89, 90]) {
        Some(v) => v,
        None => return None,
    };
    let b = match xyz_tag(profile, [98, 88, 89, 90]) {
        Some(v) => v,
        None => return None,
    };
    Some(Colorants { wtpt, r, g, b })
}


/// The four bytes of `be4(v)` read back big-endian give `v`.
proof fn lemma_be4_value(v: u32)
    ensures
        ((be4(v)[0] * 0x100_0000 + be4(v)[1] * 0x1_0000 + be4(v)[2] * 0x100 + be4(v)[3]) as u32) == v,
{
    let b0 = (v / 0x100_0000) as u8;
    let b1 = ((v / 0x1_0000) % 0x100) as u8;
    let b2 = ((v / 0x100) % 0x100) as u8;
    let b3 = (v % 0x100) as u8;
    assert(b0 == v / 0x100_0000 && b1 == (v / 0x1_0000) % 0x100 && b2 == (v / 0x100) % 0x100 && b3 == v % 0x100);
    assert(v == (v / 0x100_0000) * 0x100_0000 + ((v / 0x1_0000) % 0x100) * 0x1_0000 + ((v / 0x100) % 0x100) * 0x100 + v % 0x100)
        by (nonlinear_arith);
}

/// Where `be4(v)` was written, `v` is read.
proof fn lemma_read_be4(p: Seq<u8>, at: int, v: u32)
    requires
        0 <= at,
        at + 4 <= p.len(),
        p.subrange(at, at + 4) == be4(v),
    ensures
        be_u32_at(p, at) == Some(v),
{
    assert(p[at] == p.subrange(at, at + 4)[0]);
    assert(p[at + 1] == p.subrange(at, at + 4)[1]);
    assert(p[at + 2] == p.subrange(at, at + 4)[2]);
    assert(p[at + 3] == p.subrange(at, at + 4)[3]);
    lemma_be4_value(v);
}

proof fn lemma_i32_u32_i32(x: i32)
    ensures
        ((x as u32) as i32) == x,
{
    assert(((x as u32) as i32) == x) by (bit_vector);
}

proof fn lemma_prefix(x: Seq<u8>, y: Seq<u8>, i: int, j: int)
    requires
        0 <= i <= j <= x.len(),
    ensures
        (x + y).subrange(i, j) == x.subrange(i, j),
{
    assert((x + y).subrange(i, j) =~= x.subrange(i, j));
}

proof fn lemma_suffix(x: Seq<u8>, y: Seq<u8>, i: int, j: int)
    requires
        x.len() <= i <= j <= x.len() + y.len(),
    ensures
        (x + y).subrange(i, j) == y.subrange(i - x.len(), j - x.len()),
{
    assert((x + y).subrange(i, j) =~= y.subrange(i - x.len(), j - x.len()));
}

/// The pieces of a synthetic profile, as it is laid out: `chain(k)` is the
/// first `k + 1` pieces.
pub open spec fn piece(wtpt: [i32; 3], r: [i32; 3], g: [i32; 3], b: [i32; 3], k: int) -> Seq<u8> {
    if k == 0 {
        profile_header(260)
    } else if k == 1 {
        be4(4)
    } else if k < 6 {
        tag_entry(k - 2)
    } else if k == 6 {
        xyz_element(wtpt)
    } else if k == 7 {
        xyz_element(r)
    } else if k == 8 {
        xyz_element(g)
    } else {
        xyz_element(b)
    }
}

pub open spec fn chain(wtpt: [i32; 3], r: [i32; 3], g: [i32; 3], b: [i32; 3], k: nat) -> Seq<u8>
    decreases k,
{
    if k == 0 {
        piece(wtpt, r, g, b, 0)
    } else {
        chain(wtpt, r, g, b, (k - 1) as nat) + piece(wtpt, r, g, b, k as int)
    }
}

/// Where piece `k` starts.
pub open spec fn start_of(k: int) -> int {
    if k == 0 { 0 } else if k == 1 { 128 } else if k < 6 { 132 + 12 * (k - 2) } else { 180 + 20 * (k - 6) }
}

proof fn lemma_chain_len(wtpt: [i32; 3], r: [i32; 3], g: [i32; 3], b: [i32; 3], k: nat)
    requires
        k < 10,
    ensures
        chain(wtpt, r, g, b, k).len() == start_of(k as int + 1),
    decreases k,
{
    if k > 0 {
        lemma_chain_len(wtpt, r, g, b, (k - 1) as nat);
    }
}

/// Piece `k` sits at `start_of(k)` in every longer chain.
proof fn lemma_piece_at(wtpt: [i32; 3], r: [i32; 3], g: [i32; 3], b: [i32; 3], k: int, m: nat)
    requires
        0 <= k <= m < 10,
    ensures
        chain(wtpt, r, g, b, m).subrange(start_of(k), start_of(k + 1)) == piece(wtpt, r, g, b, k),
    decreases m,
{
    let c = chain(wtpt, r, g, b, m);
    if m == 0 {
        assert(c.subrange(0, 128) =~= c);
    } else {
        let prev = chain(wtpt, r, g, b, (m - 1) as nat);
        lemma_chain_len(wtpt, r, g, b, (m - 1) as nat);
        if k == m {
            lemma_suffix(prev, piece(wtpt, r, g, b, m as int), start_of(k), start_of(k + 1));
            let pc = piece(wtpt, r, g, b, k);
            assert(pc.subrange(0, pc.len() as int) =~= pc);
        } else {
            lemma_piece_at(wtpt, r, g, b, k, (m - 1) as nat);
            lemma_chain_len(wtpt, r, g, b, k as nat);
            if k + 1 <= (m - 1) {
                assert(start_of(k + 1) <= start_of(m as int));
            }
            lemma_prefix(prev, piece(wtpt, r, g, b, m as int), start_of(k), start_of(k + 1));
        }
    }
}

/// A synthetic profile is the chain of its pieces.
proof fn lemma_profile_is_chain(wtpt: [i32; 3], r: [i32; 3], g: [i32; 3], b: [i32; 3])
    ensures
        synth_profile_spec(wtpt, r, g, b) == chain(wtpt, r, g, b, 9),
        synth_profile_spec(wtpt, r, g, b).len() == 260,
{
    reveal(synth_profile_spec);
    reveal_with_fuel(chain, 10);
    lemma_chain_len(wtpt, r, g, b, 9);
}

/// The tag-table entry `t` of a synthetic profile.
proof fn lemma_profile_entry(wtpt: [i32; 3], r: [i32; 3], g: [i32; 3], b: [i32; 3], t: int)
    requires
        0 <= t < 4,
    ensures
        ({
            let p = synth_profile_spec(wtpt, r, g, b);
            &&& p.subrange(128, 132) == be4(4)
            &&& p.subrange(132 + 12 * t, 136 + 12 * t) == tag_sig(t)
            &&& p.subrange(136 + 12 * t, 140 + 12 * t) == be4((180 + 20 * t) as u32)
            &&& p.subrange(140 + 12 * t, 144 + 12 * t) == be4(20)
        }),
{
    let p = synth_profile_spec(wtpt, r, g, b);
    lemma_profile_is_chain(wtpt, r, g, b);
    lemma_piece_at(wtpt, r, g, b, 1, 9);
    lemma_piece_at(wtpt, r, g, b, t + 2, 9);
    let e = tag_entry(t);
    assert(piece(wtpt, r, g, b, t + 2) == e);
    let es = p.subrange(132 + 12 * t, 144 + 12 * t);
    assert(p.subrange(132 + 12 * t, 136 + 12 * t) =~= es.subrange(0, 4));
    assert(p.subrange(136 + 12 * t, 140 + 12 * t) =~= es.subrange(4, 8));
    assert(p.subrange(140 + 12 * t, 144 + 12 * t) =~= es.subrange(8, 12));
    assert(e.subrange(0, 4) =~= tag_sig(t));
    assert(e.subrange(4, 8) =~= be4((180 + 20 * t) as u32));
    assert(e.subrange(8, 12) =~= be4(20));
}

/// The `XYZType` element `t` of a synthetic profile.
proof fn lemma_profile_element(wtpt: [i32; 3], r: [i32; 3], g: [i32; 3], b: [i32; 3], t: int)
    requires
        0 <= t < 4,
    ensures
        ({
            let p = synth_profile_spec(wtpt, r, g, b);
            let v = if t == 0 { wtpt } else if t == 1 { r } else if t == 2 { g } else { b };
            &&& p.subrange(180 + 20 * t, 184 + 20 * t) == xyz_sig()
            &&& p.subrange(188 + 20 * t, 192 + 20 * t) == be4(v[0] as u32)
            &&& p.subrange(192 + 20 * t, 196 + 20 * t) == be4(v[1] as u32)
            &&& p.subrange(196 + 20 * t, 200 + 20 * t) == be4(v[2] as u32)
        }),
{
    let p = synth_profile_spec(wtpt, r, g, b);
    lemma_profile_is_chain(wtpt, r, g, b);
    let v = if t == 0 { wtpt } else if t == 1 { r } else if t == 2 { g } else { b };
    lemma_piece_at(wtpt, r, g, b, t + 6, 9);
    let x = xyz_element(v);
    assert(piece(wtpt, r, g, b, t + 6) == x);
    let xs = p.subrange(180 + 20 * t, 200 + 20 * t);
    assert(p.subrange(180 + 20 * t, 184 + 20 * t) =~= xs.subrange(0, 4));
    assert(p.subrange(188 + 20 * t, 192 + 20 * t) =~= xs.subrange(8, 12));
    assert(p.subrange(192 + 20 * t, 196 + 20 * t) =~= xs.subrange(12, 16));
    assert(p.subrange(196 + 20 * t, 200 + 20 * t) =~= xs.subrange(16, 20));
    assert(x.subrange(0, 4) =~= xyz_sig());
    assert(x.subrange(8, 12) =~= be4(v[0] as u32));
    assert(x.subrange(12, 16) =~= be4(v[1] as u32));
    assert(x.subrange(16, 20) =~= be4(v[2] as u32));
}

/// A profile laid out as `synth_profile` lays it out reads tag `t` back.
proof fn lemma_tag_from_layout(p: Seq<u8>, v: [i32; 3], t: int)
    requires
        0 <= t < 4,
        p.len() == 260,
        p.subrange(128, 132) == be4(4),
        p.subrange(132, 136) == tag_sig(0),
        p.subrange(144, 148) == tag_sig(1),
        p.subrange(156, 160) == tag_sig(2),
        p.subrange(168, 172) == tag_sig(3),
        p.subrange(136 + 12 * t, 140 + 12 * t) == be4((180 + 20 * t) as u32),
        p.subrange(140 + 12 * t, 144 + 12 * t) == be4(20),
        p.subrange(180 + 20 * t, 184 + 20 * t) == xyz_sig(),
        p.subrange(188 + 20 * t, 192 + 20 * t) == be4(v[0] as u32),
        p.subrange(192 + 20 * t, 196 + 20 * t) == be4(v[1] as u32),
        p.subrange(196 + 20 * t, 200 + 20 * t) == be4(v[2] as u32),
    ensures
        xyz_tag_spec(p, tag_sig(t)) == Some(v),
{
    lemma_read_be4(p, 128, 4);
    let sig = tag_sig(t);
    assert(p.subrange(132 + 12 * t, 136 + 12 * t) == sig);
    if t > 0 {
        assert(p.subrange(132, 136)[0] == tag_sig(0)[0]);
        assert(p.subrange(132, 136) != sig);
    }
    if t > 1 {
        assert(p.subrange(144, 148)[0] == tag_sig(1)[0]);
        assert(p.subrange(144, 148) != sig);
    }
    if t > 2 {
        assert(p.subrange(156, 160)[0] == tag_sig(2)[0]);
        assert(p.subrange(156, 160) != sig);
    }
    let entry = 132 + 12 * t;
    lemma_read_be4(p, entry + 4, (180 + 20 * t) as u32);
    lemma_read_be4(p, entry + 8, 20);
    let off = 180 + 20 * t;
    lemma_read_be4(p, off + 8, v[0] as u32);
    lemma_read_be4(p, off + 12, v[1] as u32);
    lemma_read_be4(p, off + 16, v[2] as u32);
    lemma_i32_u32_i32(v[0]);
    lemma_i32_u32_i32(v[1]);
    lemma_i32_u32_i32(v[2]);
    assert(xyz_at(p, entry) == Some(v)) by {
        assert(v =~= [v[0], v[1], v[2]]);
    }
    assert(tag_scan(p, sig, t, 4) == Some(v));
    if t >= 1 {
        assert(tag_scan(p, sig, t - 1, 4) == Some(v));
    }
    if t >= 2 {
        assert(tag_scan(p, sig, t - 2, 4) == Some(v));
    }
    if t >= 3 {
        assert(tag_scan(p, sig, t - 3, 4) == Some(v));
    }
}

/// Tag `t` of a synthetic profile reads back as the value written.
proof fn lemma_profile_tag(wtpt: [i32; 3], r: [i32; 3], g: [i32; 3], b: [i32; 3], t: int)
    requires
        0 <= t < 4,
    ensures
        xyz_tag_spec(synth_profile_spec(wtpt, r, g, b), tag_sig(t)) == Some(
            if t == 0 { wtpt } else if t == 1 { r } else if t == 2 { g } else { b },
        ),
{
    let p = synth_profile_spec(wtpt, r, g, b);
    let v = if t == 0 { wtpt } else if t == 1 { r } else if t == 2 { g } else { b };
    lemma_profile_is_chain(wtpt, r, g, b);
    lemma_profile_entry(wtpt, r, g, b, 0);
    lemma_profile_entry(wtpt, r, g, b, 1);
    lemma_profile_entry(wtpt, r, g, b, 2);
    lemma_profile_entry(wtpt, r, g, b, 3);
    lemma_profile_entry(wtpt, r, g, b, t);
    lemma_profile_element(wtpt, r, g, b, t);
    lemma_tag_from_layout(p, v, t);
}

/// A profile written by `synth_profile` reads back as the colorants it was
/// written with.
pub proof fn law_profile_reads_back(wtpt: [i32; 3], r: [i32; 3], g: [i32; 3], b: [i32; 3])
    ensures
        colorants_spec(synth_profile_spec(wtpt, r, g, b)) == Some(Colorants { wtpt: Some(wtpt), r, g, b }),
{
    lemma_profile_tag(wtpt, r, g, b, 0);
    lemma_profile_tag(wtpt, r, g, b, 1);
    lemma_profile_tag(wtpt, r, g, b, 2);
    lemma_profile_tag(wtpt, r, g, b, 3);
}


// ── pixel layouts ─────────────────────────────────────────────────────

/// How the samples of a decoded 8-bit image are laid out.
#[derive(Debug, Clone, Copy, PartialEq, Eq, Structural)]
pub enum ColorLayout {
    Rgba,
    Rgb,
    Grayscale,
    GrayscaleAlpha,
    /// Palette indices; a decoder asked to expand palettes never gives these.
    Indexed,
}

/// Bytes per pixel of a layout.
pub open spec fn channels(l: ColorLayout) -> int {
    match l {
        ColorLayout::Rgba => 4,
        ColorLayout::Rgb => 3,
        ColorLayout::Grayscale => 1,
        ColorLayout::GrayscaleAlpha => 2,
        ColorLayout::Indexed => 1,
    }
}

/// Byte `k` (0..4) of RGBA pixel `p` expanded from `buf`.
pub open spec fn expanded_byte(buf: Seq<u8>, l: ColorLayout, p: int, k: int) -> u8 {
    match l {
        ColorLayout::Rgb => if k == 3 { 255u8 } else { buf[3 * p + k] },
        ColorLayout::Grayscale => if k == 3 { 255u8 } else { buf[p] },
        ColorLayout::GrayscaleAlpha => if k == 3 { buf[2 * p + 1] } else { buf[2 * p] },
        _ => buf[4 * p + k],
    }
}

/// `buf` as RGBA8: RGBA as is; RGB and grey opaque; grey-alpha keeps its alpha.
/// A trailing partial pixel is dropped.
pub open spec fn expanded(buf: Seq<u8>, l: ColorLayout) -> Seq<u8> {
    if l == ColorLayout::Rgba {
        buf
    } else {
        let n = buf.len() as int / channels(l);
        Seq::new((4 * n) as nat, |i: int| expanded_byte(buf, l, i / 4, i % 4))
    }
}

/// Expands decoded samples to RGBA8; `None` for palette indices.
pub fn to_rgba8(buf: &[u8], layout: ColorLayout) -> (out: Option<Vec<u8>>)
    ensures
        out is None <==> layout == ColorLayout::Indexed,
        out matches Some(v) ==> v@ == expanded(buf@, layout),
{
    match layout {
        ColorLayout::Indexed => return None,
        ColorLayout::Rgba => {
            let mut v: Vec<u8> = Vec::new();
            let mut i: usize = 0;
            while i < buf.len()
                invariant
                    i <= buf@.len(),
                    v@ == buf@.take(i as int),
                decreases buf@.len() - i,
            {
                v.push(buf[i]);
                assert(v@ =~= buf@.take(i + 1));
                i += 1;
            }
            assert(buf@.take(buf@.len() as int) =~= buf@);
            return Some(v);
        },
        _ => {},
    }
    let c: usize = match layout {
        ColorLayout::Rgb => 3,
        ColorLayout::Grayscale => 1,
        _ => 2,
    };
    let n = buf.len() / c;
    let ghost want = expanded(buf@, layout);
    assert(n * c <= buf@.len()) by (nonlinear_arith)
        requires
            n == buf@.len() as int / (c as int),
            c > 0,
    ;
    let mut v: Vec<u8> = Vec::new();
    let mut p: usize = 0;
    let mut q: usize = 0;
    while p < n
        invariant
            n == buf@.len() as int / channels(layout),
            c == channels(layout),
            n * c <= buf@.len(),
            layout != ColorLayout::Indexed && layout != ColorLayout::Rgba,
            want == expanded(buf@, layout),
            p <= n,
            q == p * c,
            v@ == want.take(4 * p),
        decreases n - p,
    {
        assert(q + c <= n * c) by (nonlinear_arith)
            requires
                p < n,
                q == p * c,
        ;
        let px: [u8; 4] = match layout {
            ColorLayout::Rgb => [buf[q], buf[q + 1], buf[q + 2], 255],
            ColorLayout::Grayscale => [buf[q], buf[q], buf[q], 255],
            _ => [buf[q], buf[q], buf[q], buf[q + 1]],
        };
        v.push(px[0]);
        v.push(px[1]);
        v.push(px[2]);
        v.push(px[3]);
        proof {
            assert forall|i: int| 4 * p <= i < 4 * p + 4 implies want[i] == px[i - 4 * p] by {
                assert(i / 4 == p);
                assert(i % 4 == i - 4 * p);
            }
            assert(v@ =~= want.take(4 * p + 4));
        }
        p += 1;
        q += c;
        assert(q == p * c) by (nonlinear_arith)
            requires
                q == (p - 1) * c + c,
        ;
    }
    assert(want.take(4 * n) =~= want);
    Some(v)
}

// ── PNG decoding ──────────────────────────────────────────────────────

#[verifier::external_type_specification]
#[verifier::external_body]
pub struct ExPngDecodingError(png::DecodingError);

/// What `png`'s `read_info` gives for a file, with the decoder set to
/// `normalize_to_color8`: `None` when it fails, else the header's width, height,
/// bit depth (in bits) and colour type (the PNG code), the ICC profile, whether
/// an `sRGB` chunk is present, and the `gAMA` and `cHRM` values as stored
/// (times 100000; white, red, green, blue, each x then y).
pub uninterp spec fn png_info(bytes: Seq<u8>) -> Option<(u32, u32, u8, u8, Option<Seq<u8>>, bool, Option<u32>, Option<[u32; 8]>)>;

/// What `png`'s `next_frame` writes for a file, with the decoder set to
/// `normalize_to_color8`, cut to the frame's size: `None` when reading the
/// header or the frame fails.
pub uninterp spec fn png_frame(bytes: Seq<u8>) -> Option<Seq<u8>>;

/// `png::Decoder::new` on the bytes, `set_transformations(normalize_to_color8)`
/// and `read_info`: the header and the colour chunks as plain values. The
/// result is a function of the bytes: the decoder's limits are its defaults.
#[verifier::external_body]
fn read_png_info(bytes: &[u8]) -> (r: Result<(u32, u32, u8, u8, Option<Vec<u8>>, bool, Option<u32>, Option<[u32; 8]>), png::DecodingError>)
    ensures
        match png_info(bytes@) {
            Some(i) => r matches Ok(v) && (v.0, v.1, v.2, v.3, v.5, v.6, v.7) == (i.0, i.1, i.2, i.3, i.5, i.6, i.7)
                && match v.4 { Some(p) => i.4 == Some(p@), None => i.4 is None },
            None => r is Err,
        },
{
    let mut decoder = png::Decoder::new(Cursor::new(bytes));
    decoder.set_transformations(png::Transformations::normalize_to_color8());
    let i = decoder.read_info()?.info().clone();
    let chrm = match i.chrm_chunk {
        Some(c) => Some([c.white.0, c.white.1, c.red.0, c.red.1, c.green.0, c.green.1, c.blue.0, c.blue.1].map(png::ScaledFloat::into_scaled)),
        None => None,
    };
    let icc = i.icc_profile.map(|p| p.to_vec());
    Ok((i.width, i.height, i.bit_depth as u8, i.color_type as u8, icc, i.srgb.is_some(), i.gama_chunk.map(png::ScaledFloat::into_scaled), chrm))
}

/// `png::Decoder::new` on the bytes, `set_transformations(normalize_to_color8)`,
/// `read_info` and `next_frame` into a buffer of `output_buffer_size` bytes,
/// cut to the frame's `buffer_size`.
#[verifier::external_body]
fn read_png_frame(bytes: &[u8]) -> (r: Result<Vec<u8>, png::DecodingError>)
    ensures
        match png_frame(bytes@) {
            Some(f) => r matches Ok(v) && v@ == f,
            None => r is Err,
        },
{
    let mut decoder = png::Decoder::new(Cursor::new(bytes));
    decoder.set_transformations(png::Transformations::normalize_to_color8());
    let mut reader = decoder.read_info()?;
    let mut buf = vec![0; reader.output_buffer_size().unwrap_or(0)];
    let frame = reader.next_frame(&mut buf)?;
    buf.truncate(frame.buffer_size());
    Ok(buf)
}

/// The sample layout of a PNG colour type code, if it is one.
pub open spec fn layout_of_spec(code: u8) -> Option<ColorLayout> {
    if code == 0 {
        Some(ColorLayout::Grayscale)
    } else if code == 2 {
        Some(ColorLayout::Rgb)
    } else if code == 3 {
        Some(ColorLayout::Indexed)
    } else if code == 4 {
        Some(ColorLayout::GrayscaleAlpha)
    } else if code == 6 {
        Some(ColorLayout::Rgba)
    } else {
        None
    }
}

/// The sample layout of a PNG colour type code, if it is one.
pub fn layout_of(code: u8) -> (l: Option<ColorLayout>)
    ensures
        l == layout_of_spec(code),
{
    if code == 0 {
        Some(ColorLayout::Grayscale)
    } else if code == 2 {
        Some(ColorLayout::Rgb)
    } else if code == 3 {
        Some(ColorLayout::Indexed)
    } else if code == 4 {
        Some(ColorLayout::GrayscaleAlpha)
    } else if code == 6 {
        Some(ColorLayout::Rgba)
    } else {
        None
    }
}

/// A decoded PNG: its RGBA8 pixels, and the colour chunks that the colour-space
/// verdict reads (`gAMA` and `cHRM` as stored, times 100000).
pub struct DecodedPng {
    pub width: u32,
    pub height: u32,
    pub rgba: Vec<u8>,
    pub icc: Option<Vec<u8>>,
    pub srgb: bool,
    pub gama: Option<u32>,
    pub chrm: Option<[u32; 8]>,
}

/// Why a PNG could not be loaded.
#[derive(Debug, Clone, Copy, PartialEq, Eq, Structural)]
pub enum LoadError {
    /// The header could not be read: not a PNG.
    NotPng,
    /// The samples are not 8 bits deep; the depth in bits.
    BitDepth(u8),
    /// The pixel data could not be decoded.
    Decode,
    /// The colour type (its PNG code) does not convert to RGBA8.
    Layout(u8),
}

/// Decodes a PNG file's bytes into RGBA8. The header is read first: a file that
/// is not a PNG, or whose samples are not 8 bits deep, is refused before any
/// pixel is decoded. The decoded samples are then expanded to RGBA8 by their
/// colour type; palette images are refused.
pub fn decode_image(bytes: &[u8]) -> (r: Result<DecodedPng, LoadError>)
    ensures
        match png_info(bytes@) {
            None => r == Err::<DecodedPng, LoadError>(LoadError::NotPng),
            Some(i) => if i.2 != 8 {
                r == Err::<DecodedPng, LoadError>(LoadError::BitDepth(i.2))
            } else {
                match png_frame(bytes@) {
                    None => r == Err::<DecodedPng, LoadError>(LoadError::Decode),
                    Some(f) => match layout_of_spec(i.3) {
                        Some(l) if l != ColorLayout::Indexed => r matches Ok(d) && {
                            &&& d.width == i.0
                            &&& d.height == i.1
                            &&& d.rgba@ == expanded(f, l)
                            &&& match d.icc { Some(p) => i.4 == Some(p@), None => i.4 is None }
                            &&& d.srgb == i.5
                            &&& d.gama == i.6
                            &&& d.chrm == i.7
                        },
                        _ => r == Err::<DecodedPng, LoadError>(LoadError::Layout(i.3)),
                    },
                }
            },
        },
{
    let (width, height, depth, code, icc, srgb, gama, chrm) = match read_png_info(bytes) {
        Ok(i) => i,
        Err(_) => {
            return Err(LoadError::NotPng);
        },
    };
    if depth != 8 {
        return Err(LoadError::BitDepth(depth));
    }
    let frame = match read_png_frame(bytes) {
        Ok(f) => f,
        Err(_) => {
            return Err(LoadError::Decode);
        },
    };
    let layout = match layout_of(code) {
        Some(l) => l,
        None => {
            return Err(LoadError::Layout(code));
        },
    };
    match to_rgba8(&frame, layout) {
        Some(rgba) => Ok(DecodedPng { width, height, rgba, icc, srgb, gama, chrm }),
        None => Err(LoadError::Layout(code)),
    }
}

// ── PNG encoding ──────────────────────────────────────────────────────

/// PNG compression effort.
#[derive(Debug, Clone, Copy, PartialEq, Eq, Structural)]
pub enum Compression {
    Fast,
    Balanced,
    High,
}

/// How to write a PNG: with an `sRGB` chunk or not, with an ICC profile or not,
/// and how hard to compress.
#[derive(Debug, Clone)]
pub struct PngOptions {
    pub srgb: bool,
    pub icc: Option<Vec<u8>>,
    pub compression: Compression,
}

impl Default for PngOptions {
    fn default() -> (o: PngOptions)
        ensures
            o.srgb,
            o.icc is None,
            o.compression == Compression::Balanced,
    {
        PngOptions { srgb: true, icc: None, compression: Compression::Balanced }
    }
}

#[verifier::external_type_specification]
#[verifier::external_body]
pub struct ExPngEncodingError(png::EncodingError);

/// The PNG that `png` writes for RGBA8 pixels of the given size, with the
/// given colour chunks and compression.
pub uninterp spec fn png_bytes(rgba: Seq<u8>, width: u32, height: u32, srgb: bool, icc: Option<Seq<u8>>, compression: Compression) -> Seq<u8>;

/// The longest ICC profile that is sure to fit a PNG chunk once compressed: a
/// chunk holds at most `i32::MAX` bytes, and deflate grows incompressible data
/// by well under one percent.
pub const ICC_MAX_LEN: usize = 2_000_000_000;

/// The PNG's pixel data fills the image exactly.
pub open spec fn png_shape_ok(rgba: Seq<u8>, width: u32, height: u32) -> bool {
    width > 0 && height > 0 && rgba.len() == 4 * (width as int) * (height as int)
}

/// The ICC profile, when it is written (no `sRGB` chunk), fits its chunk.
pub open spec fn icc_fits(srgb: bool, icc: Option<Seq<u8>>) -> bool {
    srgb || match icc {
        Some(i) => i.len() <= ICC_MAX_LEN,
        None => true,
    }
}

/// `png::Encoder::with_info` on an RGBA8 `Info` of the given size (with the
/// `sRGB` chunk when `srgb`, and the ICC profile), `set_compression`,
/// `write_header` and `write_image_data`, into an empty buffer. Per the crate's
/// source, on an in-memory buffer a zero dimension or pixel data of another
/// length than `4 * width * height` fail; the profile is written, compressed, as
/// an `iCCP` chunk only without `sRGB`, and fails when the compressed chunk is
/// longer than `i32::MAX` bytes, which a profile of at most `ICC_MAX_LEN` bytes
/// never is. Success is therefore stated only for such profiles; for a longer
/// one nothing is said of success. The crate's report of a failed allocation for
/// the compressed profile is not modelled, as no allocation is. The output
/// starts with the PNG signature and is a function of the arguments.
#[verifier::external_body]
fn png_encode(rgba: &[u8], width: u32, height: u32, srgb: bool, icc: Option<&[u8]>, compression: Compression) -> (r: Result<Vec<u8>, png::EncodingError>)
    requires
        4 * (width as int) * (height as int) <= usize::MAX,
    ensures
        r is Ok ==> png_shape_ok(rgba@, width, height),
        png_shape_ok(rgba@, width, height) && icc_fits(srgb, match icc { Some(i) => Some(i@), None => None }) ==> r is Ok,
        r matches Ok(b) ==> b@ == png_bytes(rgba@, width, height, srgb, match icc { Some(i) => Some(i@), None => None }, compression)
            && b@.len() >= 8 && b@.take(8) == seq![137u8, 80u8, 78u8, 71u8, 13u8, 10u8, 26u8, 10u8],
{
    let mut info = png::Info::with_size(width, height);
    info.color_type = png::ColorType::Rgba;
    info.bit_depth = png::BitDepth::Eight;
    info.icc_profile = icc.map(|b| b.to_vec().into());
    info.srgb = srgb.then_some(png::SrgbRenderingIntent::Perceptual);
    let level = match compression {
        Compression::Fast => png::Compression::Fast,
        Compression::Balanced => png::Compression::Balanced,
        Compression::High => png::Compression::High,
    };
    let mut out = Vec::new();
    let mut encoder = png::Encoder::with_info(std::io::Cursor::new(&mut out), info)?;
    encoder.set_compression(level);
    encoder.write_header()?.write_image_data(rgba)?;
    Ok(out)
}

/// Why a PNG could not be written.
#[derive(Debug, Clone, Copy, PartialEq, Eq, Structural)]
pub enum PngError {
    /// A zero dimension, pixel data that does not fill the image exactly, or an
    /// ICC profile too long for its chunk.
    Encoding,
}

/// Writes RGBA8 pixels as a PNG. Deterministic: the encoder's parameters do
/// not change between calls. It fails on a zero dimension or pixel data that
/// does not fill the image, and succeeds otherwise unless an ICC profile longer
/// than `ICC_MAX_LEN` bytes is to be written.
pub fn encode_rgba(rgba: &[u8], width: u32, height: u32, opts: &PngOptions) -> (r: Result<Vec<u8>, PngError>)
    requires
        4 * (width as int) * (height as int) <= usize::MAX,
    ensures
        r is Ok ==> png_shape_ok(rgba@, width, height),
        png_shape_ok(rgba@, width, height) && icc_fits(opts.srgb, match opts.icc { Some(i) => Some(i@), None => None }) ==> r is Ok,
        r matches Ok(b) ==> b@ == png_bytes(rgba@, width, height, opts.srgb, match opts.icc { Some(i) => Some(i@), None => None }, opts.compression),
{
    let icc: Option<&[u8]> = match &opts.icc {
        Some(v) => Some(v.as_slice()),
        None => None,
    };
    match png_encode(rgba, width, height, opts.srgb, icc, opts.compression) {
        Ok(b) => Ok(b),
        Err(_) => Err(PngError::Encoding),
    }
}
} // verus!

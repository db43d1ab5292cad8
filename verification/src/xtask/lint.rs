//! The App Shell lint: no line of the Shell's Swift sources may name the Rust
//! engine directly; the Shell depends on `EngineProtocol` only. A plain text scan,
//! line by line; whole-line comments are exempt.
use vstd::prelude::*;

verus! {

/// The forbidden words, and what to do instead.
pub const FORBIDDEN: [(&'static str, &'static str); 2] = [
    (
        "RustEngine",
        "Shell 只能依賴 EngineProtocol。要換引擎請走 EngineFactory.make(packPath:)——`RustEngineAdapter` 這個名字也在禁列內，它字面上就含有 RustEngine",
    ),
    (
        "import colorlull_engine",
        "uniffi 生成的型別由 EngineBridge 轉出。Shell 只寫 `import EngineBridge`",
    ),
];

/// The forbidden words as bytes (both are ASCII).
pub open spec fn needle(k: int) -> Seq<u8> {
    if k == 0 {
        seq![82u8, 117u8, 115u8, 116u8, 69u8, 110u8, 103u8, 105u8, 110u8, 101u8]
    } else {
        seq![
            105u8, 109u8, 112u8, 111u8, 114u8, 116u8, 32u8, 99u8, 111u8, 108u8, 111u8, 114u8, 108u8, 117u8, 108u8, 108u8,
            95u8, 101u8, 110u8, 103u8, 105u8, 110u8, 101u8,
        ]
    }
}

/// Findings as numbers.
pub open spec fn finding_views(v: Seq<(usize, usize)>) -> Seq<(nat, nat)> {
    v.map_values(|f: (usize, usize)| (f.0 as nat, f.1 as nat))
}

/// The UTF-8 length of the white-space character that `s` starts with, or 0.
pub open spec fn ws_len(s: Seq<u8>) -> nat {
    if s.len() >= 1 && (9 <= s[0] <= 13 || s[0] == 32) {
        1
    } else if s.len() >= 2 && s[0] == 0xC2 && (s[1] == 0x85 || s[1] == 0xA0) {
        2
    } else if s.len() >= 3 && s[0] == 0xE1 && s[1] == 0x9A && s[2] == 0x80 {
        3
    } else if s.len() >= 3 && s[0] == 0xE2 && s[1] == 0x80 && (0x80 <= s[2] <= 0x8A || s[2] == 0xA8 || s[2] == 0xA9 || s[2] == 0xAF) {
        3
    } else if s.len() >= 3 && s[0] == 0xE2 && s[1] == 0x81 && s[2] == 0x9F {
        3
    } else if s.len() >= 3 && s[0] == 0xE3 && s[1] == 0x80 && s[2] == 0x80 {
        3
    } else {
        0
    }
}

/// `s` without its leading white space.
pub open spec fn trim_start(s: Seq<u8>) -> Seq<u8>
    decreases s.len(),
{
    let k = ws_len(s);
    if k == 0 {
        s
    } else {
        trim_start(s.skip(k as int))
    }
}

pub open spec fn starts_with(s: Seq<u8>, p: Seq<u8>) -> bool {
    p.len() <= s.len() && s.take(p.len() as int) == p
}

/// A whole-line comment: after leading white space, `//`, `*` or `/*`.
pub open spec fn is_comment(line: Seq<u8>) -> bool {
    let t = trim_start(line);
    starts_with(t, seq![47u8, 47u8]) || starts_with(t, seq![42u8]) || starts_with(t, seq![47u8, 42u8])
}

/// `needle` occurs in `hay` at byte `i`.
pub open spec fn occurs_at(hay: Seq<u8>, n: Seq<u8>, i: int) -> bool {
    0 <= i && i + n.len() <= hay.len() && hay.subrange(i, i + n.len()) == n
}

pub open spec fn occurs(hay: Seq<u8>, n: Seq<u8>) -> bool {
    exists|i: int| occurs_at(hay, n, i)
}

/// What one line breaks: `(line number, forbidden word)`, in the order of the words.
pub open spec fn line_findings(line: Seq<u8>, no: nat) -> Seq<(nat, nat)> {
    if is_comment(line) {
        Seq::empty()
    } else {
        (if occurs(line, needle(0)) { seq![(no, 0nat)] } else { Seq::empty() }) + (if occurs(line, needle(1)) {
            seq![(no, 1nat)]
        } else {
            Seq::empty()
        })
    }
}

/// The index of the first newline of `s` at or after `i`, or the length.
pub open spec fn newline_from(s: Seq<u8>, i: int) -> int
    decreases s.len() - i,
{
    if i >= s.len() {
        s.len() as int
    } else if s[i] == 10 {
        i
    } else {
        newline_from(s, i + 1)
    }
}

/// The first line of `text`: up to the first newline, without the `\r` of a
/// `\r\n` ending.
pub open spec fn first_line(text: Seq<u8>) -> Seq<u8> {
    let k = newline_from(text, 0);
    let raw = text.take(k);
    if k < text.len() && raw.len() > 0 && raw.last() == 13 {
        raw.drop_last()
    } else {
        raw
    }
}

/// Every finding of `text`, whose first line is number `no`. Lines end at `\n`
/// or `\r\n`; a final line ending does not start another line.
pub open spec fn findings(text: Seq<u8>, no: nat) -> Seq<(nat, nat)>
    decreases text.len(),
{
    if text.len() == 0 {
        Seq::empty()
    } else {
        let k = newline_from(text, 0);
        line_findings(first_line(text), no) + if k < text.len() {
            proof {
                lemma_newline_from_bounds(text, 0);
            }
            findings(text.skip(k + 1), no + 1)
        } else {
            Seq::empty()
        }
    }
}

pub proof fn lemma_newline_from_bounds(s: Seq<u8>, i: int)
    requires
        0 <= i,
    ensures
        i <= newline_from(s, i) || i > s.len(),
        newline_from(s, i) <= s.len(),
        newline_from(s, i) < s.len() ==> s[newline_from(s, i)] == 10,
        forall|j: int| i <= j < newline_from(s, i) ==> s[j] != 10,
    decreases s.len() - i,
{
    if i < s.len() && s[i] != 10 {
        lemma_newline_from_bounds(s, i + 1);
    }
}

/// The length of the white space that starts `s[i..]`.
fn ws_at(s: &[u8], i: usize, end: usize) -> (k: usize)
    requires
        i <= end <= s@.len(),
    ensures
        k == ws_len(s@.subrange(i as int, end as int)),
{
    let ghost t = s@.subrange(i as int, end as int);
    let n = end - i;
    if n >= 1 && ((9 <= s[i] && s[i] <= 13) || s[i] == 32) {
        return 1;
    }
    if n >= 2 && s[i] == 0xC2 && (s[i + 1] == 0x85 || s[i + 1] == 0xA0) {
        return 2;
    }
    if n >= 3 {
        let (a, b, c) = (s[i], s[i + 1], s[i + 2]);
        assert(t[0] == a && t[1] == b && t[2] == c);
        if a == 0xE1 && b == 0x9A && c == 0x80 {
            return 3;
        }
        if a == 0xE2 && b == 0x80 && ((0x80 <= c && c <= 0x8A) || c == 0xA8 || c == 0xA9 || c == 0xAF) {
            return 3;
        }
        if a == 0xE2 && b == 0x81 && c == 0x9F {
            return 3;
        }
        if a == 0xE3 && b == 0x80 && c == 0x80 {
            return 3;
        }
    }
    0
}

/// Whether the line `s[start..end]` is a whole-line comment.
fn comment_line(s: &[u8], start: usize, end: usize) -> (b: bool)
    requires
        start <= end <= s@.len(),
    ensures
        b == is_comment(s@.subrange(start as int, end as int)),
{
    let ghost line = s@.subrange(start as int, end as int);
    let mut i = start;
    while i < end
        invariant
            start <= i <= end <= s@.len(),
            line == s@.subrange(start as int, end as int),
            trim_start(line) == trim_start(s@.subrange(i as int, end as int)),
        ensures
            start <= i <= end <= s@.len(),
            trim_start(line) == trim_start(s@.subrange(i as int, end as int)),
            i == end || ws_len(s@.subrange(i as int, end as int)) == 0,
        decreases end - i,
    {
        let k = ws_at(s, i, end);
        if k == 0 {
            break;
        }
        proof {
            let t = s@.subrange(i as int, end as int);
            assert(t.skip(k as int) =~= s@.subrange(i + k, end as int));
        }
        i = i + k;
    }
    let ghost t = s@.subrange(i as int, end as int);
    assert(trim_start(line) == t) by {
        if i < end {
            assert(ws_len(t) == 0);
        } else {
            assert(t.len() == 0);
        }
    }
    let n = end - i;
    let slash_slash = n >= 2 && s[i] == 47 && s[i + 1] == 47;
    let star = n >= 1 && s[i] == 42;
    let slash_star = n >= 2 && s[i] == 47 && s[i + 1] == 42;
    proof {
        if n >= 2 {
            assert(t.take(2) =~= seq![t[0], t[1]]);
        }
        if n >= 1 {
            assert(t.take(1) =~= seq![t[0]]);
        }
        if slash_slash {
            assert(starts_with(t, seq![47u8, 47u8]));
        }
        if star {
            assert(starts_with(t, seq![42u8]));
        }
        if slash_star {
            assert(starts_with(t, seq![47u8, 42u8]));
        }
        if starts_with(t, seq![47u8, 47u8]) {
            assert(t.take(2)[0] == 47u8 && t.take(2)[1] == 47u8);
        }
        if starts_with(t, seq![42u8]) {
            assert(t.take(1)[0] == 42u8);
        }
        if starts_with(t, seq![47u8, 42u8]) {
            assert(t.take(2)[0] == 47u8 && t.take(2)[1] == 42u8);
        }
    }
    slash_slash || star || slash_star
}

/// Whether `n` occurs in `s[start..end]`.
fn occurs_in(s: &[u8], start: usize, end: usize, n: &[u8]) -> (b: bool)
    requires
        start <= end <= s@.len(),
        s@.len() < usize::MAX,
    ensures
        b == occurs(s@.subrange(start as int, end as int), n@),
{
    let ghost hay = s@.subrange(start as int, end as int);
    if n.len() > end - start {
        assert forall|i: int| !occurs_at(hay, n@, i) by {}
        return false;
    }
    let last = end - start - n.len();
    let mut i: usize = 0;
    while i <= last
        invariant
            start <= end <= s@.len(),
            s@.len() < usize::MAX,
            n@.len() <= end - start,
            last == end - start - n@.len(),
            hay == s@.subrange(start as int, end as int),
            i <= last + 1,
            forall|j: int| 0 <= j < i ==> !occurs_at(hay, n@, j),
        decreases last + 1 - i,
    {
        let mut k: usize = 0;
        let mut same = true;
        assert(hay.subrange(i as int, i as int) =~= n@.take(0));
        while k < n.len()
            invariant
                i <= last,
                last == end - start - n@.len(),
                start <= end <= s@.len(),
                hay == s@.subrange(start as int, end as int),
                k <= n@.len(),
                same == (hay.subrange(i as int, i + k) == n@.take(k as int)),
            decreases n@.len() - k,
        {
            let eq = s[start + i + k] == n[k];
            proof {
                assert(hay[i + k] == s@[start + i + k]);
                assert(hay.subrange(i as int, i + k + 1) =~= hay.subrange(i as int, i + k).push(hay[i + k]));
                assert(n@.take(k + 1) =~= n@.take(k as int).push(n@[k as int]));
                if hay.subrange(i as int, i + k + 1) == n@.take(k + 1) {
                    assert(hay.subrange(i as int, i + k + 1)[k as int] == n@.take(k + 1)[k as int]);
                    assert(hay.subrange(i as int, i + k + 1).take(k as int) =~= hay.subrange(i as int, i + k));
                    assert(n@.take(k + 1).take(k as int) =~= n@.take(k as int));
                }
            }
            same = same && eq;
            k += 1;
        }
        assert(n@.take(n@.len() as int) =~= n@);
        if same {
            assert(occurs_at(hay, n@, i as int));
            return true;
        }
        i += 1;
    }
    proof {
        assert forall|j: int| !occurs_at(hay, n@, j) by {
            if 0 <= j && j + n@.len() <= hay.len() {
                assert(j < i);
            }
        }
    }
    false
}

fn needle_bytes(k: usize) -> (b: Vec<u8>)
    requires
        k < 2,
    ensures
        b@ == needle(k as int),
{
    if k == 0 {
        let b = vec![82u8, 117, 115, 116, 69, 110, 103, 105, 110, 101];
        assert(b@ =~= needle(0));
        b
    } else {
        let b = vec![105u8, 109, 112, 111, 114, 116, 32, 99, 111, 108, 111, 114, 108, 117, 108, 108, 95, 101, 110, 103, 105, 110, 101];
        assert(b@ =~= needle(1));
        b
    }
}

/// Every use of a forbidden word in `text`: `(line number, index into
/// [`FORBIDDEN`])`, line by line from line 1, each line's words in order.
pub fn forbidden_uses(text: &[u8]) -> (out: Vec<(usize, usize)>)
    requires
        text@.len() < usize::MAX,
    ensures
        finding_views(out@) == findings(text@, 1),
{
    let n0 = needle_bytes(0);
    let n1 = needle_bytes(1);
    let mut out: Vec<(usize, usize)> = Vec::new();
    let mut start: usize = 0;
    let mut no: usize = 1;
    assert(text@.skip(0) =~= text@);
    assert(finding_views(out@) + findings(text@, 1) =~= findings(text@, 1));
    while start < text.len()
        invariant
            text@.len() < usize::MAX,
            n0@ == needle(0),
            n1@ == needle(1),
            start <= text@.len(),
            1 <= no <= start + 1,
            finding_views(out@) + findings(text@.skip(start as int), no as nat) == findings(text@, 1),
        decreases text@.len() - start,
    {
        let ghost rest = text@.skip(start as int);
        let mut end = start;
        while end < text.len() && text[end] != 10
            invariant
                start <= end <= text@.len(),
                forall|j: int| start <= j < end ==> text@[j] != 10,
            decreases text@.len() - end,
        {
            end += 1;
        }
        proof {
            lemma_newline_from_bounds(rest, 0);
            let k = newline_from(rest, 0);
            assert(k == end - start) by {
                if k < end - start {
                    assert(rest[k] == text@[start + k]);
                }
                if k > end - start {
                    assert(rest[end - start] == text@[end as int]);
                }
            }
        }
        let line_end = if end < text.len() && end > start && text[end - 1] == 13 { end - 1 } else { end };
        assert(first_line(rest) =~= text@.subrange(start as int, line_end as int));
        let ghost line = text@.subrange(start as int, line_end as int);
        let ghost before = finding_views(out@);
        if !comment_line(text, start, line_end) {
            let a = occurs_in(text, start, line_end, n0.as_slice());
            if a {
                out.push((no, 0));
            }
            let ghost mid = finding_views(out@);
            assert(mid =~= before + (if occurs(line, needle(0)) { seq![(no as nat, 0nat)] } else { Seq::empty() }));
            if occurs_in(text, start, line_end, n1.as_slice()) {
                out.push((no, 1));
            }
            assert(finding_views(out@) =~= mid + (if occurs(line, needle(1)) { seq![(no as nat, 1nat)] } else { Seq::empty() }));
        }
        assert(finding_views(out@) =~= before + line_findings(line, no as nat));
        if end < text.len() {
            assert(rest.skip(end - start + 1) =~= text@.skip(end + 1));
            start = end + 1;
            no = no + 1;
        } else {
            assert(text@.skip(end as int).len() == 0);
            start = end;
        }
    }
    assert(text@.skip(start as int).len() == 0);
    assert(finding_views(out@) + Seq::<(nat, nat)>::empty() =~= finding_views(out@));
    out
}

} // verus!

//! Small verified text builders: decimal numbers, `#RRGGBB` colour codes and
//! lower-case hexadecimal digests.
use vstd::prelude::*;

verus! {

/// The ASCII digit for `d` (0..=9).
pub open spec fn digit_char(d: nat) -> char {
    if d == 0 { '0' } else if d == 1 { '1' } else if d == 2 { '2' } else if d == 3 { '3' }
    else if d == 4 { '4' } else if d == 5 { '5' } else if d == 6 { '6' } else if d == 7 { '7' }
    else if d == 8 { '8' } else { '9' }
}

/// Upper-case hexadecimal digit for `d` (0..=15).
pub open spec fn hex_char(d: nat) -> char {
    if d < 10 { digit_char(d) } else if d == 10 { 'A' } else if d == 11 { 'B' } else if d == 12 { 'C' }
    else if d == 13 { 'D' } else if d == 14 { 'E' } else { 'F' }
}

/// Decimal representation of `n`, without leading zeros.
pub open spec fn dec(n: nat) -> Seq<char>
    decreases n,
{
    if n < 10 {
        seq![digit_char(n)]
    } else {
        dec(n / 10).push(digit_char(n % 10))
    }
}

/// Two upper-case hex digits of a byte.
pub open spec fn hex2(b: u8) -> Seq<char> {
    seq![hex_char((b / 16) as nat), hex_char((b % 16) as nat)]
}

/// Lower-case hexadecimal digit for `d` (0..=15).
pub open spec fn hex_lower_char(d: nat) -> char {
    if d < 10 { digit_char(d) } else if d == 10 { 'a' } else if d == 11 { 'b' } else if d == 12 { 'c' }
    else if d == 13 { 'd' } else if d == 14 { 'e' } else { 'f' }
}

/// Each byte as two lower-case hex digits, in order.
pub open spec fn lower_hex_spec(bytes: Seq<u8>) -> Seq<char>
    decreases bytes.len(),
{
    if bytes.len() == 0 {
        Seq::empty()
    } else {
        let b = bytes.last();
        lower_hex_spec(bytes.drop_last()) + seq![hex_lower_char((b / 16) as nat), hex_lower_char((b % 16) as nat)]
    }
}

/// `#RRGGBB` in upper case.
pub open spec fn hex_color_spec(rgb: [u8; 3]) -> Seq<char> {
    seq!['#'] + hex2(rgb[0]) + hex2(rgb[1]) + hex2(rgb[2])
}

fn digit_str(d: u64) -> (s: &'static str)
    requires
        d < 10,
    ensures
        s@ == seq![digit_char(d as nat)],
{
    proof {
        reveal_strlit("0");
        reveal_strlit("1");
        reveal_strlit("2");
        reveal_strlit("3");
        reveal_strlit("4");
        reveal_strlit("5");
        reveal_strlit("6");
        reveal_strlit("7");
        reveal_strlit("8");
        reveal_strlit("9");
    }
    if d == 0 { "0" } else if d == 1 { "1" } else if d == 2 { "2" } else if d == 3 { "3" }
    else if d == 4 { "4" } else if d == 5 { "5" } else if d == 6 { "6" } else if d == 7 { "7" }
    else if d == 8 { "8" } else { "9" }
}

fn hex_str(d: u8) -> (s: &'static str)
    requires
        d < 16,
    ensures
        s@ == seq![hex_char(d as nat)],
{
    proof {
        reveal_strlit("A");
        reveal_strlit("B");
        reveal_strlit("C");
        reveal_strlit("D");
        reveal_strlit("E");
        reveal_strlit("F");
    }
    if d < 10 {
        digit_str(d as u64)
    } else if d == 10 { "A" } else if d == 11 { "B" } else if d == 12 { "C" }
    else if d == 13 { "D" } else if d == 14 { "E" } else { "F" }
}

fn hex_lower_str(d: u8) -> (s: &'static str)
    requires
        d < 16,
    ensures
        s@ == seq![hex_lower_char(d as nat)],
{
    proof {
        reveal_strlit("a");
        reveal_strlit("b");
        reveal_strlit("c");
        reveal_strlit("d");
        reveal_strlit("e");
        reveal_strlit("f");
    }
    if d < 10 {
        digit_str(d as u64)
    } else if d == 10 { "a" } else if d == 11 { "b" } else if d == 12 { "c" }
    else if d == 13 { "d" } else if d == 14 { "e" } else { "f" }
}

/// `n` in decimal.
pub fn decimal(n: u64) -> (s: String)
    ensures
        s@ == dec(n as nat),
    decreases n,
{
    if n < 10 {
        String::from_str(digit_str(n))
    } else {
        let mut s = decimal(n / 10);
        s.append(digit_str(n % 10));
        s
    }
}

/// Appends `n` in decimal to `s`.
pub fn push_decimal(s: &mut String, n: u64)
    ensures
        final(s)@ == old(s)@ + dec(n as nat),
{
    let d = decimal(n);
    s.append(d.as_str());
}

/// `#RRGGBB`, upper case — the colour notation used in reports and palettes.
pub fn hex_color(rgb: [u8; 3]) -> (s: String)
    ensures
        s@ == hex_color_spec(rgb),
{
    proof {
        reveal_strlit("#");
    }
    let mut s = String::from_str("#");
    let mut i: usize = 0;
    while i < 3
        invariant
            i <= 3,
            s@ == seq!['#'] + (if i == 0 { Seq::<char>::empty() } else if i == 1 { hex2(rgb[0]) } else if i == 2 {
                hex2(rgb[0]) + hex2(rgb[1])
            } else {
                hex2(rgb[0]) + hex2(rgb[1]) + hex2(rgb[2])
            }),
        decreases 3 - i,
    {
        let b = rgb[i];
        s.append(hex_str(b / 16));
        s.append(hex_str(b % 16));
        proof {
            assert(seq![hex_char((b / 16) as nat)] + seq![hex_char((b % 16) as nat)] =~= hex2(b));
        }
        i += 1;
        assert(s@ =~= seq!['#'] + (if i == 1 { hex2(rgb[0]) } else if i == 2 {
                hex2(rgb[0]) + hex2(rgb[1])
            } else {
                hex2(rgb[0]) + hex2(rgb[1]) + hex2(rgb[2])
            }));
    }
    assert(s@ =~= hex_color_spec(rgb));
    s
}

/// The bytes as lower-case hex, two digits each (`{:02x}` per byte).
pub fn lower_hex(bytes: &[u8]) -> (s: String)
    ensures
        s@ == lower_hex_spec(bytes@),
{
    let mut s = String::new();
    let mut i: usize = 0;
    while i < bytes.len()
        invariant
            i <= bytes@.len(),
            s@ == lower_hex_spec(bytes@.take(i as int)),
        decreases bytes@.len() - i,
    {
        let b = bytes[i];
        s.append(hex_lower_str(b / 16));
        s.append(hex_lower_str(b % 16));
        proof {
            assert(bytes@.take(i + 1).drop_last() =~= bytes@.take(i as int));
            assert(bytes@.take(i + 1).last() == b);
        }
        i += 1;
        assert(s@ =~= lower_hex_spec(bytes@.take(i as int)));
    }
    assert(bytes@.take(bytes@.len() as int) =~= bytes@);
    s
}

} // verus!

//! The colour picker's notations and the parts of the control.
//!
//! A notation is a way of WRITING a colour, not a way of rounding it: the
//! byte notations (the two hex orders and `DEC`) spell the four 8-bit
//! channels exactly, and what they spell reads back as the same colour.
//! The functional notations (OKLCH, HSV, HSL) are computed in floating
//! point and are spelled and read by the caller.

use vstd::prelude::*;
use crate::text::{
    char_is_ws, chars_of, decimal, is_ws, lead_run, lead_ws, lemma_lead_run, lemma_lead_ws,
    lemma_trail_ws, lemma_without_ws_none, push_char, push_decimal, trail_ws, trim, trim_in,
    without_ws,
};

verus! {

/// The notations a colour can be written in, in the order the control
/// steps through them. ARGB stands first because it is the default.
#[derive(Clone, Copy, PartialEq, Eq, Debug, Structural)]
pub enum Format {
    Argb,
    Rgba,
    Oklch,
    Hsv,
    Hsl,
    Dec,
}

/// The position of a notation in the ring.
pub open spec fn ring_index(f: Format) -> int {
    match f {
        Format::Argb => 0,
        Format::Rgba => 1,
        Format::Oklch => 2,
        Format::Hsv => 3,
        Format::Hsl => 4,
        Format::Dec => 5,
    }
}

impl Format {
    /// The word on the button.
    pub open spec fn spec_word(self) -> Seq<char> {
        match self {
            Format::Argb => "ARGB"@,
            Format::Rgba => "RGBA"@,
            Format::Oklch => "OKLCH"@,
            Format::Hsv => "HSV"@,
            Format::Hsl => "HSL"@,
            Format::Dec => "DEC"@,
        }
    }

    /// The offer, in the order the control steps through it.
    pub fn all() -> (r: [Format; 6])
        ensures
            forall|i: int| 0 <= i < 6 ==> ring_index(#[trigger] r@[i]) == i,
    {
        [Format::Argb, Format::Rgba, Format::Oklch, Format::Hsv, Format::Hsl, Format::Dec]
    }

    /// The word on the button. Upper case like every other word this
    /// window puts on a plate; the CASE is the type role's business.
    pub fn word(self) -> (s: &'static str)
        ensures
            s@ == self.spec_word(),
    {
        match self {
            Format::Argb => "ARGB",
            Format::Rgba => "RGBA",
            Format::Oklch => "OKLCH",
            Format::Hsv => "HSV",
            Format::Hsl => "HSL",
            Format::Dec => "DEC",
        }
    }

    /// The next notation round the ring.
    pub fn next(self) -> (f: Format)
        ensures
            ring_index(f) == (ring_index(self) + 1) % 6,
    {
        match self {
            Format::Argb => Format::Rgba,
            Format::Rgba => Format::Oklch,
            Format::Oklch => Format::Hsv,
            Format::Hsv => Format::Hsl,
            Format::Hsl => Format::Dec,
            Format::Dec => Format::Argb,
        }
    }
}

proof fn lemma_walk(fs: Seq<Format>, i: int)
    requires
        fs.len() == 7,
        0 <= i < 7,
        forall|q: int| 0 <= q < 6 ==> ring_index(#[trigger] fs[q + 1]) == (ring_index(fs[q]) + 1) % 6,
    ensures
        ring_index(fs[i]) == (ring_index(fs[0]) + i) % 6,
    decreases i,
{
    if i > 0 {
        lemma_walk(fs, i - 1);
        assert(ring_index(fs[(i - 1) + 1]) == (ring_index(fs[i - 1]) + 1) % 6);
    }
}

/// Six steps round the ring come back to where they started, through
/// every notation once: `fs` is a walk of six [`Format::next`] steps.
pub proof fn law_the_ring_closes(fs: Seq<Format>)
    requires
        fs.len() == 7,
        forall|i: int| 0 <= i < 6 ==> ring_index(#[trigger] fs[i + 1]) == (ring_index(fs[i]) + 1) % 6,
    ensures
        fs[6] == fs[0],
        forall|i: int, j: int| 0 <= i < j < 6 ==> fs[i] != fs[j],
{
    assert forall|i: int, j: int| 0 <= i < j < 6 implies fs[i] != fs[j] by {
        lemma_walk(fs, i);
        lemma_walk(fs, j);
    }
    lemma_walk(fs, 6);
}

/// What one part of the control answers to.
#[derive(Clone, Copy, PartialEq, Eq, Debug, Structural)]
pub enum Part {
    Field,
    Value,
    Format,
    Text,
    Base(usize),
    Custom(usize),
    Add,
}

/// A colour at the resolution the byte notations write: four channels of
/// eight bits, alpha included.
#[derive(Clone, Copy, PartialEq, Eq, Debug, Structural)]
pub struct Rgba8 {
    pub r: u8,
    pub g: u8,
    pub b: u8,
    pub a: u8,
}

/// The upper-case hex digit of `n` (below 16).
pub open spec fn hex_char(n: nat) -> char {
    if n < 10 {
        crate::text::digit_char(n)
    } else if n == 10 {
        'A'
    } else if n == 11 {
        'B'
    } else if n == 12 {
        'C'
    } else if n == 13 {
        'D'
    } else if n == 14 {
        'E'
    } else {
        'F'
    }
}

/// The value of one hex digit, in either case; `None` for any other
/// character.
pub open spec fn hex_val(c: char) -> Option<nat> {
    let u = c as u32;
    if 0x30 <= u <= 0x39 {
        Some((u - 0x30) as nat)
    } else if 0x41 <= u <= 0x46 {
        Some((u - 0x41 + 10) as nat)
    } else if 0x61 <= u <= 0x66 {
        Some((u - 0x61 + 10) as nat)
    } else {
        None
    }
}

/// A byte as two upper-case hex digits.
pub open spec fn byte_hex(b: u8) -> Seq<char> {
    seq![hex_char(b as nat / 16), hex_char(b as nat % 16)]
}

/// How the byte notations spell `c`: `#AARRGGBB`, `#RRGGBBAA`, or the four
/// channels in decimal separated by `", "`. `None` for the functional
/// notations, which are spelled in floating point.
pub open spec fn spelled(c: Rgba8, f: Format) -> Option<Seq<char>> {
    let sep = seq![',', ' '];
    match f {
        Format::Argb => Some(seq!['#'] + byte_hex(c.a) + byte_hex(c.r) + byte_hex(c.g) + byte_hex(
            c.b,
        )),
        Format::Rgba => Some(seq!['#'] + byte_hex(c.r) + byte_hex(c.g) + byte_hex(c.b) + byte_hex(
            c.a,
        )),
        Format::Dec => Some(decimal(c.r as nat) + sep + decimal(c.g as nat) + sep + decimal(
            c.b as nat,
        ) + sep + decimal(c.a as nat)),
        _ => None,
    }
}

/// What is left of typed hex once the punctuation a person may paste
/// with it is gone: the text trimmed, its leading `'#'`s dropped, and
/// every whitespace character inside taken out.
pub open spec fn hex_body(t: Seq<char>) -> Seq<char> {
    let s = trim(t);
    without_ws(s.skip(lead_run(s, '#') as int))
}

/// Whether every character of `h` is a hex digit.
pub open spec fn all_hex(h: Seq<char>) -> bool {
    forall|i: int| 0 <= i < h.len() ==> (#[trigger] hex_val(h[i])) is Some
}

/// The byte spelled by the two hex digits at `h[i]` and `h[i + 1]`.
pub open spec fn byte_at(h: Seq<char>, i: int) -> u8 {
    (hex_val(h[i])->0 * 16 + hex_val(h[i + 1])->0) as u8
}

/// Typed hex read as a colour: six digits are an OPAQUE colour in either
/// order; eight carry the alpha first (`argb`) or last. Anything else —
/// another count, or a character that is not a hex digit — is no colour.
pub open spec fn read_hex(t: Seq<char>, argb: bool) -> Option<Rgba8> {
    let h = hex_body(t);
    if !all_hex(h) {
        None
    } else if h.len() == 6 {
        Some(Rgba8 { r: byte_at(h, 0), g: byte_at(h, 2), b: byte_at(h, 4), a: 255 })
    } else if h.len() == 8 && argb {
        Some(Rgba8 { a: byte_at(h, 0), r: byte_at(h, 2), g: byte_at(h, 4), b: byte_at(h, 6) })
    } else if h.len() == 8 {
        Some(Rgba8 { r: byte_at(h, 0), g: byte_at(h, 2), b: byte_at(h, 4), a: byte_at(h, 6) })
    } else {
        None
    }
}

/// What text typed under a notation is.
#[derive(Clone, Copy, PartialEq, Eq, Debug, Structural)]
pub enum Typed {
    /// A colour, read exactly.
    Colour(Rgba8),
    /// Not a value of this notation.
    Unreadable,
    /// A notation of decimal numbers, which the caller reads in floating
    /// point.
    Decimal,
}

/// What [`parse`] answers for `t` typed under `f`.
pub open spec fn typed_of(t: Seq<char>, f: Format) -> Typed {
    match f {
        Format::Argb => match read_hex(t, true) {
            Some(c) => Typed::Colour(c),
            None => Typed::Unreadable,
        },
        Format::Rgba => match read_hex(t, false) {
            Some(c) => Typed::Colour(c),
            None => Typed::Unreadable,
        },
        _ => Typed::Decimal,
    }
}

fn hex_digit(n: u8) -> (c: char)
    requires
        n < 16,
    ensures
        c == hex_char(n as nat),
{
    match n {
        0 => '0',
        1 => '1',
        2 => '2',
        3 => '3',
        4 => '4',
        5 => '5',
        6 => '6',
        7 => '7',
        8 => '8',
        9 => '9',
        10 => 'A',
        11 => 'B',
        12 => 'C',
        13 => 'D',
        14 => 'E',
        _ => 'F',
    }
}

fn hex_value(c: char) -> (r: Option<u8>)
    ensures
        match r {
            Some(d) => hex_val(c) == Some(d as nat) && d < 16,
            None => hex_val(c) is None,
        },
{
    let u = c as u32;
    if 0x30 <= u && u <= 0x39 {
        Some((u - 0x30) as u8)
    } else if 0x41 <= u && u <= 0x46 {
        Some((u - 0x41 + 10) as u8)
    } else if 0x61 <= u && u <= 0x66 {
        Some((u - 0x61 + 10) as u8)
    } else {
        None
    }
}

fn push_byte_hex(s: &mut String, b: u8)
    ensures
        final(s)@ == old(s)@ + byte_hex(b),
{
    push_char(s, hex_digit(b / 16));
    push_char(s, hex_digit(b % 16));
}

/// The chosen colour as text, in a byte notation: hex with the alpha
/// first (`#AARRGGBB`) or last (`#RRGGBBAA`), or four decimal bytes.
/// `None` for OKLCH, HSV and HSL, whose numbers are floating point.
pub fn write(c: Rgba8, f: Format) -> (s: Option<String>)
    ensures
        match s {
            Some(t) => spelled(c, f) == Some(t@),
            None => spelled(c, f) is None,
        },
{
    let mut out = String::new();
    match f {
        Format::Argb => {
            push_char(&mut out, '#');
            push_byte_hex(&mut out, c.a);
            push_byte_hex(&mut out, c.r);
            push_byte_hex(&mut out, c.g);
            push_byte_hex(&mut out, c.b);
        },
        Format::Rgba => {
            push_char(&mut out, '#');
            push_byte_hex(&mut out, c.r);
            push_byte_hex(&mut out, c.g);
            push_byte_hex(&mut out, c.b);
            push_byte_hex(&mut out, c.a);
        },
        Format::Dec => {
            push_decimal(&mut out, c.r as u64);
            push_char(&mut out, ',');
            push_char(&mut out, ' ');
            push_decimal(&mut out, c.g as u64);
            push_char(&mut out, ',');
            push_char(&mut out, ' ');
            push_decimal(&mut out, c.b as u64);
            push_char(&mut out, ',');
            push_char(&mut out, ' ');
            push_decimal(&mut out, c.a as u64);
        },
        _ => {
            return None;
        },
    }
    proof {
        let sep = seq![',', ' '];
        assert(spelled(c, f)->0 =~= out@);
    }
    Some(out)
}

/// Text typed under a notation, read back.
///
/// Forgiving about punctuation, strict about meaning: for the hex
/// notations the `'#'`s in front, surrounding whitespace and spaces
/// between the digits are all optional; the count and the order of the
/// digits are not. Six digits mean an opaque colour. The notations of
/// decimal numbers answer [`Typed::Decimal`].
pub fn parse(text: &str, f: Format) -> (r: Typed)
    ensures
        r == typed_of(text@, f),
{
    let argb = match f {
        Format::Argb => true,
        Format::Rgba => false,
        _ => {
            return Typed::Decimal;
        },
    };
    let v = chars_of(text);
    let (lo, hi) = trim_in(&v, 0, v.len());
    let ghost t = v@.subrange(lo as int, hi as int);
    assert(v@.subrange(0, v@.len() as int) == v@);
    let mut i = lo;
    while i < hi && v[i] == '#'
        invariant
            lo <= i <= hi <= v@.len(),
            forall|k: int| lo <= k < i ==> v@[k] == '#',
        decreases hi - i,
    {
        i += 1;
    }
    proof {
        lemma_lead_run(t, '#', i - lo);
        assert(t.skip(i - lo) == v@.subrange(i as int, hi as int));
    }
    let mut h: Vec<char> = Vec::new();
    let mut j = i;
    while j < hi
        invariant
            i <= j <= hi <= v@.len(),
            h@ == without_ws(v@.subrange(i as int, j as int)),
        decreases hi - j,
    {
        let c = v[j];
        proof {
            let w = v@.subrange(i as int, j + 1);
            assert(w.drop_last() == v@.subrange(i as int, j as int));
            assert(w.last() == c);
        }
        if !char_is_ws(c) {
            h.push(c);
        }
        j += 1;
    }
    assert(h@ == hex_body(text@));
    let mut vals: Vec<u8> = Vec::new();
    let mut k: usize = 0;
    while k < h.len()
        invariant
            k <= h@.len(),
            h@ == hex_body(text@),
            f == Format::Argb || f == Format::Rgba,
            vals@.len() == k,
            forall|m: int| 0 <= m < k ==> hex_val(h@[m]) == Some(#[trigger] vals@[m] as nat),
            forall|m: int| 0 <= m < k ==> vals@[m] < 16,
        decreases h@.len() - k,
    {
        match hex_value(h[k]) {
            Some(d) => {
                vals.push(d);
            },
            None => {
                assert(hex_val(h@[k as int]) is None);
                assert(!all_hex(h@));
                return Typed::Unreadable;
            },
        }
        k += 1;
    }
    assert forall|m: int| 0 <= m < h@.len() implies (#[trigger] hex_val(h@[m])) is Some by {
        assert(hex_val(h@[m]) == Some(vals@[m] as nat));
    }
    assert(all_hex(h@));
    let n = h.len();
    if n != 6 && n != 8 {
        return Typed::Unreadable;
    }
    let b0 = vals[0] * 16 + vals[1];
    let b2 = vals[2] * 16 + vals[3];
    let b4 = vals[4] * 16 + vals[5];
    assert(b0 == byte_at(h@, 0) && b2 == byte_at(h@, 2) && b4 == byte_at(h@, 4));
    if n == 6 {
        return Typed::Colour(Rgba8 { r: b0, g: b2, b: b4, a: 255 });
    }
    let b6 = vals[6] * 16 + vals[7];
    assert(b6 == byte_at(h@, 6));
    if argb {
        Typed::Colour(Rgba8 { a: b0, r: b2, g: b4, b: b6 })
    } else {
        Typed::Colour(Rgba8 { r: b0, g: b2, b: b4, a: b6 })
    }
}

proof fn lemma_hex_char(n: nat)
    requires
        n < 16,
    ensures
        hex_val(hex_char(n)) == Some(n),
        !is_ws(hex_char(n)),
        hex_char(n) != '#',
{
}

proof fn lemma_byte_hex(b: u8)
    ensures
        byte_hex(b).len() == 2,
        all_hex(byte_hex(b)),
        byte_at(byte_hex(b), 0) == b,
        forall|i: int| 0 <= i < 2 ==> !is_ws(#[trigger] byte_hex(b)[i]) && byte_hex(b)[i] != '#',
{
    lemma_hex_char(b as nat / 16);
    lemma_hex_char(b as nat % 16);
}

/// The hex notations read back exactly what they write: a colour written
/// as `#AARRGGBB` or `#RRGGBBAA` and typed back under the same notation
/// is the same colour, alpha included.
pub proof fn law_hex_reads_back_what_it_writes(c: Rgba8, f: Format)
    requires
        f == Format::Argb || f == Format::Rgba,
    ensures
        spelled(c, f) is Some,
        typed_of(spelled(c, f)->0, f) == Typed::Colour(c),
{
    let (p, q, r, s) = if f == Format::Argb {
        (c.a, c.r, c.g, c.b)
    } else {
        (c.r, c.g, c.b, c.a)
    };
    lemma_byte_hex(p);
    lemma_byte_hex(q);
    lemma_byte_hex(r);
    lemma_byte_hex(s);
    let h = byte_hex(p) + byte_hex(q) + byte_hex(r) + byte_hex(s);
    let t = seq!['#'] + h;
    assert(t == spelled(c, f)->0);
    assert(forall|i: int| 0 <= i < 8 ==> #[trigger] h[i] == (if i < 2 {
        byte_hex(p)[i]
    } else if i < 4 {
        byte_hex(q)[i - 2]
    } else if i < 6 {
        byte_hex(r)[i - 4]
    } else {
        byte_hex(s)[i - 6]
    }));
    assert(forall|i: int| 0 <= i < 8 ==> !is_ws(#[trigger] h[i]) && h[i] != '#');
    lemma_lead_ws(t, 0);
    assert(t.skip(0) == t);
    lemma_trail_ws(t, 0);
    assert(t.take(t.len() - 0) == t);
    assert(trim(t) == t);
    lemma_lead_run(t, '#', 1);
    assert(t.skip(1) == h);
    lemma_without_ws_none(h);
    assert(hex_body(t) == h);
    assert(all_hex(h));
    assert(byte_at(h, 0) == byte_at(byte_hex(p), 0));
    assert(byte_at(h, 2) == byte_at(byte_hex(q), 0));
    assert(byte_at(h, 4) == byte_at(byte_hex(r), 0));
    assert(byte_at(h, 6) == byte_at(byte_hex(s), 0));
}

/// Six hex digits are an opaque colour, whichever order the notation
/// keeps its alpha in: the two hex notations differ only in where they
/// put the alpha, so they agree on a value that carries none.
pub proof fn law_six_digits_are_opaque(t: Seq<char>)
    requires
        all_hex(hex_body(t)),
        hex_body(t).len() == 6,
    ensures
        typed_of(t, Format::Argb) == typed_of(t, Format::Rgba),
        typed_of(t, Format::Argb) matches Typed::Colour(c) && c.a == 255,
{
}

/// An upper-case hex digit: what the hex notations write.
pub open spec fn upper_hex(c: char) -> bool {
    c == '0' || c == '1' || c == '2' || c == '3' || c == '4' || c == '5' || c == '6' || c == '7'
        || c == '8' || c == '9' || c == 'A' || c == 'B' || c == 'C' || c == 'D' || c == 'E' || c
        == 'F'
}

/// Two upper-case hex digits read as a byte are written back as themselves.
proof fn lemma_pair_reads_back(h: Seq<char>, i: int)
    requires
        0 <= i,
        i + 2 <= h.len(),
        upper_hex(h[i]),
        upper_hex(h[i + 1]),
    ensures
        byte_hex(byte_at(h, i)) == h.subrange(i, i + 2),
        hex_val(h[i]) is Some,
        hex_val(h[i + 1]) is Some,
{
    let x = hex_val(h[i])->0;
    let y = hex_val(h[i + 1])->0;
    assert(x < 16 && y < 16);
    assert(hex_char(x) == h[i]);
    assert(hex_char(y) == h[i + 1]);
    let b = byte_at(h, i);
    assert(b as nat == x * 16 + y);
    assert(b as nat / 16 == x && b as nat % 16 == y) by (nonlinear_arith)
        requires
            b as nat == x * 16 + y,
            x < 16,
            y < 16,
    ;
    assert(byte_hex(b) =~= h.subrange(i, i + 2));
}

/// Upper-case hex behind a `'#'` is its own hex body, every digit read.
proof fn lemma_typed_body(h: Seq<char>)
    requires
        h.len() >= 1,
        forall|i: int| 0 <= i < h.len() ==> #[trigger] upper_hex(h[i]),
    ensures
        hex_body(seq!['#'] + h) == h,
        all_hex(h),
{
    let t = seq!['#'] + h;
    assert forall|i: int| 0 <= i < h.len() implies !is_ws(#[trigger] h[i]) && h[i] != '#' by {
        assert(upper_hex(h[i]));
    }
    assert(t[0] == '#');
    lemma_lead_ws(t, 0);
    assert(t.skip(0) == t);
    assert(t[t.len() - 1] == h[h.len() - 1]);
    lemma_trail_ws(t, 0);
    assert(t.take(t.len() - 0) == t);
    assert(trim(t) == t);
    lemma_lead_run(t, '#', 1);
    assert(t.skip(1) == h);
    lemma_without_ws_none(h);
    assert(hex_body(t) == h);
    assert forall|i: int| 0 <= i < h.len() implies (#[trigger] hex_val(h[i])) is Some by {
        assert(upper_hex(h[i]));
    }
}

/// Typed hex comes back as it was typed: eight upper-case digits behind a
/// `'#'`, read under a hex notation and written under the same one, are
/// the same text; six are read as opaque, so they come back as eight
/// with `FF` where the notation keeps its alpha.
#[verifier::spinoff_prover]
#[verifier::rlimit(50)]
pub proof fn law_typed_hex_is_written_back(h: Seq<char>, f: Format)
    requires
        f == Format::Argb || f == Format::Rgba,
        h.len() == 8 || h.len() == 6,
        forall|i: int| 0 <= i < h.len() ==> #[trigger] upper_hex(h[i]),
    ensures
        typed_of(seq!['#'] + h, f) matches Typed::Colour(c) && spelled(c, f) == Some(
            if h.len() == 8 {
                seq!['#'] + h
            } else if f == Format::Argb {
                seq!['#', 'F', 'F'] + h
            } else {
                seq!['#'] + h + seq!['F', 'F']
            },
        ),
{
    lemma_typed_body(h);
    lemma_pair_reads_back(h, 0);
    lemma_pair_reads_back(h, 2);
    lemma_pair_reads_back(h, 4);
    if h.len() == 8 {
        lemma_pair_reads_back(h, 6);
    }
    let ff = byte_hex(255u8);
    assert(ff == seq!['F', 'F']);
    if h.len() == 8 {
        assert(h =~= h.subrange(0, 2) + h.subrange(2, 4) + h.subrange(4, 6) + h.subrange(6, 8));
    } else {
        assert(h =~= h.subrange(0, 2) + h.subrange(2, 4) + h.subrange(4, 6));
    }
    if f == Format::Argb {
        if h.len() == 8 {
            assert(seq!['#'] + h =~= seq!['#'] + h.subrange(0, 2) + h.subrange(2, 4) + h.subrange(4, 6) + h.subrange(6, 8));
        } else {
            assert(seq!['#', 'F', 'F'] + h =~= seq!['#'] + ff + h.subrange(0, 2) + h.subrange(2, 4) + h.subrange(4, 6));
        }
    } else {
        if h.len() == 8 {
            assert(seq!['#'] + h =~= seq!['#'] + h.subrange(0, 2) + h.subrange(2, 4) + h.subrange(4, 6) + h.subrange(6, 8));
        } else {
            assert(seq!['#'] + h + seq!['F', 'F'] =~= seq!['#'] + h.subrange(0, 2) + h.subrange(2, 4) + h.subrange(4, 6) + ff);
        }
    }
}

} // verus!

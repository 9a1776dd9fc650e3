//! Character-level building blocks shared by the parsers: the meaning of
//! whitespace, trimming, searching, line splitting and number reading,
//! each stated over `Seq<char>` and computed over index ranges of a
//! `Vec<char>`.

use vstd::prelude::*;

verus! {

/// The Unicode `White_Space` set, which is what `char::is_whitespace`
/// answers for.
pub open spec fn is_ws(c: char) -> bool {
    let u = c as u32;
    ||| 0x9 <= u <= 0xd
    ||| u == 0x20
    ||| u == 0x85
    ||| u == 0xa0
    ||| u == 0x1680
    ||| 0x2000 <= u <= 0x200a
    ||| u == 0x2028
    ||| u == 0x2029
    ||| u == 0x202f
    ||| u == 0x205f
    ||| u == 0x3000
}

pub fn char_is_ws(c: char) -> (b: bool)
    ensures
        b == is_ws(c),
{
    let u = c as u32;
    (0x9 <= u && u <= 0xd) || u == 0x20 || u == 0x85 || u == 0xa0 || u == 0x1680 || (0x2000 <= u
        && u <= 0x200a) || u == 0x2028 || u == 0x2029 || u == 0x202f || u == 0x205f || u == 0x3000
}

/// The characters of a string slice, in order.
pub fn chars_of(s: &str) -> (v: Vec<char>)
    ensures
        v@ == s@,
{
    let mut v: Vec<char> = Vec::new();
    for c in it: s.chars()
        invariant
            v@ == it.seq().take(it.index() as int),
    {
        v.push(c);
    }
    v
}

/// Appends one character to a string: `String::push`.
#[verifier::external_body]
pub fn push_char(s: &mut String, c: char)
    ensures
        final(s)@ == old(s)@.push(c),
{
    s.push(c);
}

/// The string holding exactly the characters `v[lo..hi]`.
pub fn string_of(v: &Vec<char>, lo: usize, hi: usize) -> (s: String)
    requires
        lo <= hi <= v@.len(),
    ensures
        s@ == v@.subrange(lo as int, hi as int),
{
    let mut s = String::new();
    let mut i = lo;
    while i < hi
        invariant
            lo <= i <= hi <= v@.len(),
            s@ == v@.subrange(lo as int, i as int),
        decreases hi - i,
    {
        push_char(&mut s, v[i]);
        assert(v@.subrange(lo as int, i + 1) == v@.subrange(lo as int, i as int).push(v@[i as int]));
        i += 1;
    }
    s
}

/// Appends the characters of `t` to `s`.
pub fn push_str(s: &mut String, t: &str)
    ensures
        final(s)@ == old(s)@ + t@,
{
    let v = chars_of(t);
    let ghost s0 = s@;
    let mut i: usize = 0;
    while i < v.len()
        invariant
            i <= v@.len(),
            v@ == t@,
            s@ == s0 + v@.take(i as int),
        decreases v.len() - i,
    {
        push_char(s, v[i]);
        assert(v@.take(i + 1) == v@.take(i as int).push(v@[i as int]));
        i += 1;
    }
    assert(v@.take(v@.len() as int) == v@);
}

// ------------------------------------------------------------ searching

/// Where the first `c` stands in `s`, or `s.len()` when there is none.
pub open spec fn find(s: Seq<char>, c: char) -> nat
    decreases s.len(),
{
    if s.len() == 0 {
        0
    } else if s[0] == c {
        0
    } else {
        1 + find(s.drop_first(), c)
    }
}

pub proof fn lemma_find(s: Seq<char>, c: char, k: int)
    requires
        0 <= k <= s.len(),
        forall|i: int| 0 <= i < k ==> s[i] != c,
        k == s.len() || s[k] == c,
    ensures
        find(s, c) == k,
    decreases k,
{
    if k > 0 {
        lemma_find(s.drop_first(), c, k - 1);
    }
}

pub proof fn lemma_find_bound(s: Seq<char>, c: char)
    ensures
        find(s, c) <= s.len(),
        find(s, c) < s.len() ==> s[find(s, c) as int] == c,
        forall|i: int| 0 <= i < find(s, c) ==> s[i] != c,
    decreases s.len(),
{
    if s.len() > 0 && s[0] != c {
        lemma_find_bound(s.drop_first(), c);
        assert forall|i: int| 0 <= i < find(s, c) implies s[i] != c by {
            if i > 0 {
                assert(s[i] == s.drop_first()[i - 1]);
            }
        }
    }
}

/// The first `c` in `v[lo..hi]`, as an absolute index (`hi` when absent).
pub fn find_in(v: &Vec<char>, lo: usize, hi: usize, c: char) -> (k: usize)
    requires
        lo <= hi <= v@.len(),
    ensures
        lo <= k <= hi,
        k - lo == find(v@.subrange(lo as int, hi as int), c),
{
    let mut k = lo;
    while k < hi && v[k] != c
        invariant
            lo <= k <= hi <= v@.len(),
            forall|i: int| lo <= i < k ==> v@[i] != c,
        decreases hi - k,
    {
        k += 1;
    }
    proof {
        lemma_find(v@.subrange(lo as int, hi as int), c, k - lo);
    }
    k
}

// ------------------------------------------------------------- trimming

/// How many whitespace characters open `s`.
pub open spec fn lead_ws(s: Seq<char>) -> nat
    decreases s.len(),
{
    if s.len() > 0 && is_ws(s[0]) {
        1 + lead_ws(s.drop_first())
    } else {
        0
    }
}

/// How many whitespace characters close `s`.
pub open spec fn trail_ws(s: Seq<char>) -> nat
    decreases s.len(),
{
    if s.len() > 0 && is_ws(s.last()) {
        1 + trail_ws(s.drop_last())
    } else {
        0
    }
}

/// `str::trim`: `s` without its leading and trailing whitespace.
pub open spec fn trim(s: Seq<char>) -> Seq<char> {
    let t = s.skip(lead_ws(s) as int);
    t.take(t.len() - trail_ws(t))
}

/// `str::trim_start`.
pub open spec fn trim_start(s: Seq<char>) -> Seq<char> {
    s.skip(lead_ws(s) as int)
}

pub proof fn lemma_lead_ws(s: Seq<char>, k: int)
    requires
        0 <= k <= s.len(),
        forall|i: int| 0 <= i < k ==> is_ws(s[i]),
        k == s.len() || !is_ws(s[k]),
    ensures
        lead_ws(s) == k,
    decreases k,
{
    if k > 0 {
        lemma_lead_ws(s.drop_first(), k - 1);
    }
}

pub proof fn lemma_trail_ws(s: Seq<char>, k: int)
    requires
        0 <= k <= s.len(),
        forall|i: int| s.len() - k <= i < s.len() ==> is_ws(s[i]),
        k == s.len() || !is_ws(s[s.len() - 1 - k]),
    ensures
        trail_ws(s) == k,
    decreases k,
{
    if k > 0 {
        lemma_trail_ws(s.drop_last(), k - 1);
    }
}

/// The bounds of `trim(v[lo..hi])` inside `v`.
pub fn trim_in(v: &Vec<char>, lo: usize, hi: usize) -> (r: (usize, usize))
    requires
        lo <= hi <= v@.len(),
    ensures
        lo <= r.0 <= r.1 <= hi,
        v@.subrange(r.0 as int, r.1 as int) == trim(v@.subrange(lo as int, hi as int)),
{
    let mut a = lo;
    while a < hi && char_is_ws(v[a])
        invariant
            lo <= a <= hi <= v@.len(),
            forall|i: int| lo <= i < a ==> is_ws(v@[i]),
        decreases hi - a,
    {
        a += 1;
    }
    let mut b = hi;
    while b > a && char_is_ws(v[b - 1])
        invariant
            lo <= a <= b <= hi <= v@.len(),
            forall|i: int| b <= i < hi ==> is_ws(v@[i]),
        decreases b - a,
    {
        b -= 1;
    }
    proof {
        let s = v@.subrange(lo as int, hi as int);
        lemma_lead_ws(s, a - lo);
        let t = s.skip(a - lo);
        assert(t == v@.subrange(a as int, hi as int));
        lemma_trail_ws(t, hi - b);
        assert(t.take(t.len() - (hi - b)) == v@.subrange(a as int, b as int));
    }
    (a, b)
}

/// The bounds of `trim_start(v[lo..hi])` inside `v`.
pub fn trim_start_in(v: &Vec<char>, lo: usize, hi: usize) -> (a: usize)
    requires
        lo <= hi <= v@.len(),
    ensures
        lo <= a <= hi,
        v@.subrange(a as int, hi as int) == trim_start(v@.subrange(lo as int, hi as int)),
{
    let mut a = lo;
    while a < hi && char_is_ws(v[a])
        invariant
            lo <= a <= hi <= v@.len(),
            forall|i: int| lo <= i < a ==> is_ws(v@[i]),
        decreases hi - a,
    {
        a += 1;
    }
    proof {
        let s = v@.subrange(lo as int, hi as int);
        lemma_lead_ws(s, a - lo);
        assert(s.skip(a - lo) == v@.subrange(a as int, hi as int));
    }
    a
}


// ---------------------------------------------------------------- lines

/// The first line of `s` as `str::lines` yields it: everything before the
/// first `'\n'`, without the `'\r'` of a `"\r\n"` ending.
pub open spec fn first_line(s: Seq<char>) -> Seq<char> {
    let k = find(s, '\n');
    if k < s.len() && k > 0 && s[k - 1] == '\r' {
        s.take(k - 1)
    } else {
        s.take(k as int)
    }
}

/// What follows the first line of `s`.
pub open spec fn after_line(s: Seq<char>) -> Seq<char> {
    let k = find(s, '\n');
    if k < s.len() {
        s.skip(k + 1 as int)
    } else {
        Seq::empty()
    }
}

pub proof fn lemma_after_line_shorter(s: Seq<char>)
    requires
        s.len() > 0,
    ensures
        after_line(s).len() < s.len(),
{
    lemma_find_bound(s, '\n');
}

/// `str::lines`.
pub open spec fn lines(s: Seq<char>) -> Seq<Seq<char>>
    decreases s.len(),
{
    if s.len() == 0 {
        Seq::empty()
    } else {
        proof {
            lemma_after_line_shorter(s);
        }
        seq![first_line(s)] + lines(after_line(s))
    }
}

/// The next line of `v[pos..hi]`: it occupies `v[r.0..r.1]`, and the
/// text after it starts at `r.2`.
pub fn next_line(v: &Vec<char>, pos: usize, hi: usize) -> (r: (usize, usize, usize))
    requires
        pos < hi <= v@.len(),
    ensures
        r.0 == pos,
        pos <= r.1 <= hi,
        pos < r.2 <= hi,
        v@.subrange(r.0 as int, r.1 as int) == first_line(v@.subrange(pos as int, hi as int)),
        v@.subrange(r.2 as int, hi as int) == after_line(v@.subrange(pos as int, hi as int)),
{
    let k = find_in(v, pos, hi, '\n');
    let ghost s = v@.subrange(pos as int, hi as int);
    proof {
        lemma_find_bound(s, '\n');
    }
    let end = if k < hi && k > pos && v[k - 1] == '\r' {
        k - 1
    } else {
        k
    };
    let next = if k < hi {
        k + 1
    } else {
        hi
    };
    assert(v@.subrange(pos as int, end as int) == first_line(s));
    assert(v@.subrange(next as int, hi as int) == after_line(s));
    (pos, end, next)
}

// -------------------------------------------------------------- numbers

pub open spec fn is_digit(c: char) -> bool {
    0x30 <= c as u32 <= 0x39
}

pub open spec fn all_digits(s: Seq<char>) -> bool {
    forall|i: int| 0 <= i < s.len() ==> is_digit(s[i])
}

/// The value of a run of decimal digits.
pub open spec fn digits_val(s: Seq<char>) -> nat
    decreases s.len(),
{
    if s.len() == 0 {
        0
    } else {
        digits_val(s.drop_last()) * 10 + ((s.last() as u32) - 0x30) as nat
    }
}

/// `s` without one leading `'+'`.
pub open spec fn unsigned_digits(s: Seq<char>) -> Seq<char> {
    if s.len() > 0 && s[0] == '+' {
        s.drop_first()
    } else {
        s
    }
}

/// `u32::from_str`: an optional `'+'`, then one or more decimal digits
/// whose value fits.
pub open spec fn parse_u32(s: Seq<char>) -> Option<u32> {
    let d = unsigned_digits(s);
    if d.len() > 0 && all_digits(d) && digits_val(d) <= u32::MAX {
        Some(digits_val(d) as u32)
    } else {
        None
    }
}

/// `i32::from_str`: an optional sign, then one or more decimal digits
/// whose signed value fits.
pub open spec fn parse_i32(s: Seq<char>) -> Option<i32> {
    if s.len() > 0 && s[0] == '-' {
        let d = s.drop_first();
        if d.len() > 0 && all_digits(d) && digits_val(d) <= 0x8000_0000 {
            Some((0 - digits_val(d)) as i32)
        } else {
            None
        }
    } else {
        let d = unsigned_digits(s);
        if d.len() > 0 && all_digits(d) && digits_val(d) <= i32::MAX {
            Some(digits_val(d) as i32)
        } else {
            None
        }
    }
}

/// The digits of `v[lo..hi]`, read with every value past 2^32 held at
/// 2^32; `None` when a character is not a digit or there is none.
fn digits_in(v: &Vec<char>, lo: usize, hi: usize) -> (r: Option<u64>)
    requires
        lo <= hi <= v@.len(),
    ensures
        ({
            let d = v@.subrange(lo as int, hi as int);
            match r {
                Some(n) => d.len() > 0 && all_digits(d) && n == (if digits_val(d)
                    <= 0x1_0000_0000 {
                    digits_val(d)
                } else {
                    0x1_0000_0000
                }),
                None => !(d.len() > 0 && all_digits(d)),
            }
        }),
{
    if lo == hi {
        return None;
    }
    let mut acc: u64 = 0;
    let mut i = lo;
    while i < hi
        invariant
            lo <= i <= hi <= v@.len(),
            all_digits(v@.subrange(lo as int, i as int)),
            acc == (if digits_val(v@.subrange(lo as int, i as int)) <= 0x1_0000_0000 {
                digits_val(v@.subrange(lo as int, i as int))
            } else {
                0x1_0000_0000
            }),
        decreases hi - i,
    {
        let c = v[i] as u32;
        if c < 0x30 || c > 0x39 {
            assert(!all_digits(v@.subrange(lo as int, hi as int))) by {
                assert(v@.subrange(lo as int, hi as int)[i - lo] == v@[i as int]);
            }
            return None;
        }
        let ghost pre = v@.subrange(lo as int, i as int);
        let ghost nxt = v@.subrange(lo as int, i + 1);
        assert(nxt.drop_last() == pre);
        assert(nxt.last() == v@[i as int]);
        let n = acc * 10 + (c - 0x30) as u64;
        acc = if n > 0x1_0000_0000 {
            0x1_0000_0000
        } else {
            n
        };
        i += 1;
    }
    Some(acc)
}

/// `parse_u32(v[lo..hi])`.
pub fn parse_u32_in(v: &Vec<char>, lo: usize, hi: usize) -> (r: Option<u32>)
    requires
        lo <= hi <= v@.len(),
    ensures
        r == parse_u32(v@.subrange(lo as int, hi as int)),
{
    let ghost s = v@.subrange(lo as int, hi as int);
    let start = if lo < hi && v[lo] == '+' {
        lo + 1
    } else {
        lo
    };
    assert(v@.subrange(start as int, hi as int) == unsigned_digits(s));
    match digits_in(v, start, hi) {
        Some(n) => {
            if n <= 0xffff_ffff {
                Some(n as u32)
            } else {
                None
            }
        },
        None => None,
    }
}

/// `parse_i32(v[lo..hi])`.
pub fn parse_i32_in(v: &Vec<char>, lo: usize, hi: usize) -> (r: Option<i32>)
    requires
        lo <= hi <= v@.len(),
    ensures
        r == parse_i32(v@.subrange(lo as int, hi as int)),
{
    let ghost s = v@.subrange(lo as int, hi as int);
    if lo < hi && v[lo] == '-' {
        assert(v@.subrange(lo + 1, hi as int) == s.drop_first());
        match digits_in(v, lo + 1, hi) {
            Some(n) => {
                if n <= 0x8000_0000 {
                    let m = n as i64;
                    Some((0 - m) as i32)
                } else {
                    None
                }
            },
            None => None,
        }
    } else {
        let start = if lo < hi && v[lo] == '+' {
            lo + 1
        } else {
            lo
        };
        assert(v@.subrange(start as int, hi as int) == unsigned_digits(s));
        match digits_in(v, start, hi) {
            Some(n) => {
                if n <= 0x7fff_ffff {
                    Some(n as i32)
                } else {
                    None
                }
            },
            None => None,
        }
    }
}

// ------------------------------------------------------------- matching

/// A character code under ASCII case folding.
pub open spec fn fold(c: char) -> u32 {
    let u = c as u32;
    if 0x41 <= u <= 0x5a {
        (u + 32) as u32
    } else {
        u
    }
}

/// `str::eq_ignore_ascii_case`.
pub open spec fn eq_ignore_case(a: Seq<char>, b: Seq<char>) -> bool {
    a.len() == b.len() && forall|i: int| 0 <= i < a.len() ==> fold(a[i]) == fold(b[i])
}

pub fn fold_char(c: char) -> (r: u32)
    ensures
        r == fold(c),
{
    let u = c as u32;
    if 0x41 <= u && u <= 0x5a {
        u + 32
    } else {
        u
    }
}

/// `eq_ignore_case(v[lo..hi], w)`.
pub fn eq_ignore_case_in(v: &Vec<char>, lo: usize, hi: usize, w: &Vec<char>) -> (b: bool)
    requires
        lo <= hi <= v@.len(),
    ensures
        b == eq_ignore_case(v@.subrange(lo as int, hi as int), w@),
{
    if hi - lo != w.len() {
        return false;
    }
    let mut i: usize = 0;
    while i < w.len()
        invariant
            lo <= hi <= v@.len(),
            hi - lo == w@.len(),
            i <= w@.len(),
            forall|j: int| 0 <= j < i ==> fold(v@[lo + j]) == fold(w@[j]),
        decreases w.len() - i,
    {
        if fold_char(v[lo + i]) != fold_char(w[i]) {
            assert(v@.subrange(lo as int, hi as int)[i as int] == v@[lo + i]);
            return false;
        }
        i += 1;
    }
    assert forall|j: int| 0 <= j < w@.len() implies fold(v@.subrange(lo as int, hi as int)[j])
        == fold(w@[j]) by {
        assert(v@.subrange(lo as int, hi as int)[j] == v@[lo + j]);
    }
    true
}

/// Exact equality of `v[lo..hi]` and `w`.
pub fn eq_in(v: &Vec<char>, lo: usize, hi: usize, w: &Vec<char>) -> (b: bool)
    requires
        lo <= hi <= v@.len(),
    ensures
        b == (v@.subrange(lo as int, hi as int) == w@),
{
    if hi - lo != w.len() {
        return false;
    }
    let mut i: usize = 0;
    while i < w.len()
        invariant
            lo <= hi <= v@.len(),
            hi - lo == w@.len(),
            i <= w@.len(),
            forall|j: int| 0 <= j < i ==> v@[lo + j] == w@[j],
        decreases w.len() - i,
    {
        if v[lo + i] != w[i] {
            assert(v@.subrange(lo as int, hi as int)[i as int] == v@[lo + i]);
            return false;
        }
        i += 1;
    }
    assert(v@.subrange(lo as int, hi as int) =~= w@);
    true
}

// ---------------------------------------------------------------- words

/// How many characters open `s` before its first whitespace.
pub open spec fn lead_word(s: Seq<char>) -> nat
    decreases s.len(),
{
    if s.len() > 0 && !is_ws(s[0]) {
        1 + lead_word(s.drop_first())
    } else {
        0
    }
}

pub proof fn lemma_lead_word(s: Seq<char>, k: int)
    requires
        0 <= k <= s.len(),
        forall|i: int| 0 <= i < k ==> !is_ws(s[i]),
        k == s.len() || is_ws(s[k]),
    ensures
        lead_word(s) == k,
    decreases k,
{
    if k > 0 {
        lemma_lead_word(s.drop_first(), k - 1);
    }
}

pub proof fn lemma_lead_ws_bound(s: Seq<char>)
    ensures
        lead_ws(s) <= s.len(),
        lead_ws(s) < s.len() ==> !is_ws(s[lead_ws(s) as int]),
    decreases s.len(),
{
    if s.len() > 0 && is_ws(s[0]) {
        lemma_lead_ws_bound(s.drop_first());
        if lead_ws(s) < s.len() {
            assert(s[lead_ws(s) as int] == s.drop_first()[lead_ws(s) - 1]);
        }
    }
}

pub proof fn lemma_lead_word_bound(s: Seq<char>)
    ensures
        lead_word(s) <= s.len(),
        s.len() > 0 && !is_ws(s[0]) ==> lead_word(s) >= 1,
    decreases s.len(),
{
    if s.len() > 0 && !is_ws(s[0]) {
        lemma_lead_word_bound(s.drop_first());
    }
}

/// `str::split_whitespace`: the maximal runs of non-whitespace.
pub open spec fn words(s: Seq<char>) -> Seq<Seq<char>>
    decreases s.len(),
{
    let t = trim_start(s);
    if t.len() == 0 {
        Seq::empty()
    } else {
        let k = lead_word(t);
        proof {
            lemma_lead_ws_bound(s);
            lemma_lead_word_bound(t);
        }
        seq![t.take(k as int)] + words(t.skip(k as int))
    }
}

/// The first word of `v[lo..hi]` as `(start, end)`, or None when there is
/// none; the words after it are the words of `v[end..hi]`.
pub fn next_word(v: &Vec<char>, lo: usize, hi: usize) -> (r: Option<(usize, usize)>)
    requires
        lo <= hi <= v@.len(),
    ensures
        match r {
            None => words(v@.subrange(lo as int, hi as int)).len() == 0,
            Some((a, b)) => {
                &&& lo <= a < b <= hi
                &&& words(v@.subrange(lo as int, hi as int)) == seq![v@.subrange(a as int, b as int)]
                    + words(v@.subrange(b as int, hi as int))
            },
        },
{
    let a = trim_start_in(v, lo, hi);
    if a == hi {
        return None;
    }
    let mut b = a;
    while b < hi && !char_is_ws(v[b])
        invariant
            a <= b <= hi <= v@.len(),
            forall|i: int| a <= i < b ==> !is_ws(v@[i]),
        decreases hi - b,
    {
        b += 1;
    }
    proof {
        let s = v@.subrange(lo as int, hi as int);
        let t = v@.subrange(a as int, hi as int);
        assert(trim_start(s) == t);
        lemma_lead_ws_bound(s);
        assert(s.skip(lead_ws(s) as int).len() == t.len());
        assert(lead_ws(s) == a - lo);
        assert(t[0] == s[lead_ws(s) as int]);
        assert(!is_ws(t[0]));
        lemma_lead_word(t, b - a);
        assert(t.take(b - a) == v@.subrange(a as int, b as int));
        assert(t.skip(b - a) == v@.subrange(b as int, hi as int));
    }
    Some((a, b))
}

/// Appends `v[lo..hi]` to `s`.
pub fn push_range(s: &mut String, v: &Vec<char>, lo: usize, hi: usize)
    requires
        lo <= hi <= v@.len(),
    ensures
        final(s)@ == old(s)@ + v@.subrange(lo as int, hi as int),
{
    let ghost s0 = s@;
    let mut i = lo;
    while i < hi
        invariant
            lo <= i <= hi <= v@.len(),
            s@ == s0 + v@.subrange(lo as int, i as int),
        decreases hi - i,
    {
        push_char(s, v[i]);
        assert(v@.subrange(lo as int, i + 1) == v@.subrange(lo as int, i as int).push(v@[i as int]));
        i += 1;
    }
}

// ------------------------------------------------------- writing numbers

/// The character of one decimal digit.
pub open spec fn digit_char(d: nat) -> char {
    if d == 0 {
        '0'
    } else if d == 1 {
        '1'
    } else if d == 2 {
        '2'
    } else if d == 3 {
        '3'
    } else if d == 4 {
        '4'
    } else if d == 5 {
        '5'
    } else if d == 6 {
        '6'
    } else if d == 7 {
        '7'
    } else if d == 8 {
        '8'
    } else {
        '9'
    }
}

/// `n` in decimal, as `Display` writes an unsigned integer: no sign, no
/// leading zero, and `"0"` for zero.
pub open spec fn decimal(n: nat) -> Seq<char>
    decreases n,
{
    if n < 10 {
        seq![digit_char(n)]
    } else {
        decimal(n / 10).push(digit_char(n % 10))
    }
}

fn digit_of(d: u64) -> (c: char)
    requires
        d < 10,
    ensures
        c == digit_char(d as nat),
{
    match d {
        0 => '0',
        1 => '1',
        2 => '2',
        3 => '3',
        4 => '4',
        5 => '5',
        6 => '6',
        7 => '7',
        8 => '8',
        _ => '9',
    }
}

/// Appends `n` in decimal to `s`.
pub fn push_decimal(s: &mut String, n: u64)
    ensures
        final(s)@ == old(s)@ + decimal(n as nat),
    decreases n,
{
    if n >= 10 {
        push_decimal(s, n / 10);
    }
    push_char(s, digit_of(n % 10));
}

/// How many copies of `c` open `s`.
pub open spec fn lead_run(s: Seq<char>, c: char) -> nat
    decreases s.len(),
{
    if s.len() > 0 && s[0] == c {
        1 + lead_run(s.drop_first(), c)
    } else {
        0
    }
}

pub proof fn lemma_lead_run(s: Seq<char>, c: char, k: int)
    requires
        0 <= k <= s.len(),
        forall|i: int| 0 <= i < k ==> s[i] == c,
        k == s.len() || s[k] != c,
    ensures
        lead_run(s, c) == k,
    decreases k,
{
    if k > 0 {
        lemma_lead_run(s.drop_first(), c, k - 1);
    }
}

/// `s` with every whitespace character taken out.
pub open spec fn without_ws(s: Seq<char>) -> Seq<char>
    decreases s.len(),
{
    if s.len() == 0 {
        s
    } else if is_ws(s.last()) {
        without_ws(s.drop_last())
    } else {
        without_ws(s.drop_last()).push(s.last())
    }
}

pub proof fn lemma_without_ws_none(s: Seq<char>)
    requires
        forall|i: int| 0 <= i < s.len() ==> !is_ws(s[i]),
    ensures
        without_ws(s) == s,
    decreases s.len(),
{
    if s.len() > 0 {
        lemma_without_ws_none(s.drop_last());
    }
}

// ------------------------------------------------------ trimming, again

/// The characters counted as leading whitespace are whitespace.
pub proof fn lemma_lead_ws_prefix(s: Seq<char>)
    ensures
        lead_ws(s) <= s.len(),
        forall|i: int| 0 <= i < lead_ws(s) ==> is_ws(s[i]),
    decreases s.len(),
{
    if s.len() > 0 && is_ws(s[0]) {
        lemma_lead_ws_prefix(s.drop_first());
        assert forall|i: int| 0 <= i < lead_ws(s) implies is_ws(s[i]) by {
            if i > 0 {
                assert(s[i] == s.drop_first()[i - 1]);
            }
        }
    }
}

/// Trailing whitespace never runs past the start, and stops short of it
/// when the first character is not whitespace.
pub proof fn lemma_trail_ws_bound(u: Seq<char>)
    ensures
        trail_ws(u) <= u.len(),
        u.len() > 0 && !is_ws(u[0]) ==> trail_ws(u) < u.len(),
    decreases u.len(),
{
    if u.len() > 0 && is_ws(u.last()) {
        lemma_trail_ws_bound(u.drop_last());
        if !is_ws(u[0]) {
            assert(u.len() >= 2);
            assert(u.drop_last()[0] == u[0]);
        }
    }
}

/// A text trims to nothing exactly when it is all whitespace.
pub proof fn lemma_trim_empty(s: Seq<char>)
    ensures
        trim(s).len() == 0 <==> forall|i: int| 0 <= i < s.len() ==> is_ws(s[i]),
{
    lemma_lead_ws_prefix(s);
    lemma_lead_ws_bound(s);
    let a = lead_ws(s);
    let u = s.skip(a as int);
    lemma_trail_ws_bound(u);
    if forall|i: int| 0 <= i < s.len() ==> is_ws(s[i]) {
        lemma_lead_ws(s, s.len() as int);
    } else if a < s.len() {
        assert(u[0] == s[a as int]);
    }
}

/// One more whitespace character at the end changes nothing a trim keeps.
pub proof fn lemma_trim_push_ws(s: Seq<char>, c: char)
    requires
        is_ws(c),
    ensures
        trim(s.push(c)) == trim(s),
{
    let t = s.push(c);
    lemma_lead_ws_prefix(s);
    lemma_lead_ws_bound(s);
    let a = lead_ws(s);
    if a < s.len() {
        assert forall|i: int| 0 <= i < a implies is_ws(t[i]) by {
            assert(t[i] == s[i]);
        }
        assert(t[a as int] == s[a as int]);
        lemma_lead_ws(t, a as int);
        let u = s.skip(a as int);
        assert(t.skip(a as int) == u.push(c));
        assert(u.push(c).drop_last() == u);
        lemma_trail_ws_bound(u);
        assert(u.push(c).take(u.len() - trail_ws(u)) == u.take(u.len() - trail_ws(u)));
    } else {
        assert forall|i: int| 0 <= i < t.len() implies is_ws(t[i]) by {
            if i < s.len() {
                assert(t[i] == s[i]);
            }
        }
        lemma_lead_ws(t, t.len() as int);
        lemma_lead_ws(s, s.len() as int);
    }
}

/// A text with no whitespace at either edge trims to itself.
pub proof fn lemma_trimmed(s: Seq<char>)
    requires
        s.len() >= 1,
        !is_ws(s[0]),
        !is_ws(s.last()),
    ensures
        trim(s) == s,
{
    lemma_lead_ws(s, 0);
    assert(s.skip(0) == s);
    lemma_trail_ws(s, 0);
    assert(s.take(s.len() - 0) == s);
}


/// Whether `w` stands somewhere in `s`.
pub open spec fn has_infix(s: Seq<char>, w: Seq<char>) -> bool {
    exists|i: int| 0 <= i && i + w.len() <= s.len() && #[trigger] s.subrange(i, i + w.len()) == w
}

/// Whether `w` stands somewhere in `v`.
pub fn contains_in(v: &Vec<char>, w: &Vec<char>) -> (b: bool)
    ensures
        b == has_infix(v@, w@),
{
    let n = v.len();
    let m = w.len();
    if m > n {
        return false;
    }
    if m == 0 {
        assert(v@.subrange(0int, 0int + w@.len()) =~= w@);
        return true;
    }
    let mut i: usize = 0;
    while i <= n - m
        invariant
            1 <= m <= n,
            n == v@.len(),
            m == w@.len(),
            i <= n - m + 1,
            forall|j: int| 0 <= j < i ==> #[trigger] v@.subrange(j, j + w@.len()) != w@,
        decreases n - m + 1 - i,
    {
        if eq_in(v, i, i + m, w) {
            return true;
        }
        i += 1;
    }
    false
}

} // verus!

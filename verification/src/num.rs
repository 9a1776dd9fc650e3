//! ONE number policy: how an integer is grouped into thousands and how a
//! number is joined to its unit. The theme decides the separator, the
//! group size and the shortest grouped integer, not a locale guess; those
//! decisions arrive here as arguments.

use vstd::prelude::*;
use crate::text::{chars_of, find, find_in, is_digit, push_char, push_range, push_str, string_of};

verus! {

/// The first `i` digits of `d`, with `sep` before every digit whose
/// distance from the right edge of `d` is a whole number of groups — and
/// never before the first, which would open the number with a separator.
pub open spec fn group_prefix(d: Seq<char>, i: int, size: nat, sep: Seq<char>) -> Seq<char>
    decreases i,
{
    if i <= 0 {
        Seq::empty()
    } else {
        group_prefix(d, i - 1, size, sep) + (if i - 1 > 0 && (d.len() - (i - 1)) % (size as int)
            == 0 {
            sep
        } else {
            Seq::empty()
        }) + seq![d[i - 1]]
    }
}

/// What [`grouped`] writes for an integer part `int` of `bytes` bytes:
/// untouched when the separator is empty, when it is shorter than `min`
/// or when it fits in one group; otherwise grouped from the RIGHT, which
/// is what a thousands group is.
pub open spec fn grouped_of(whole: Seq<char>, bytes: nat, size: nat, min: nat, sep: Seq<char>) -> Seq<
    char,
> {
    if sep.len() == 0 || bytes < min || bytes <= size {
        whole
    } else {
        group_prefix(whole, whole.len() as int, size, sep)
    }
}

/// The integer part with `sep` every `size` digits, once it is at least
/// `min` bytes long. `12345` under a group of 3 is `12 345`, not `123 45`.
pub fn grouped(whole: &str, size: usize, min: usize, sep: &str) -> (r: String)
    requires
        size >= 1,
    ensures
        r@ == grouped_of(whole@, whole.len() as nat, size as nat, min as nat, sep@),
{
    let v = chars_of(whole);
    assert(v@.subrange(0, v@.len() as int) == v@);
    if sep.is_empty() || whole.len() < min || whole.len() <= size {
        return string_of(&v, 0, v.len());
    }
    let n = v.len();
    let mut out = String::new();
    let mut i: usize = 0;
    while i < n
        invariant
            n == v@.len(),
            v@ == whole@,
            size >= 1,
            i <= n,
            out@ == group_prefix(v@, i as int, size as nat, sep@),
        decreases n - i,
    {
        if i > 0 && (n - i) % size == 0 {
            push_str(&mut out, sep);
        }
        push_char(&mut out, v[i]);
        assert(out@ =~= group_prefix(v@, i + 1, size as nat, sep@));
        i += 1;
    }
    out
}

/// What [`pointed`] writes for a number already rounded and written
/// plainly (`-1234.50`): its sign, its integer part grouped — counted in
/// characters, which for a written number are its bytes — and, when it
/// has one, `dsep` and its fraction as written.
pub open spec fn pointed_of(plain: Seq<char>, size: nat, min: nat, gsep: Seq<char>, dsep: Seq<char>) -> Seq<
    char,
> {
    let neg = plain.len() > 0 && plain[0] == '-';
    let sign = if neg {
        seq!['-']
    } else {
        Seq::<char>::empty()
    };
    let body = if neg {
        plain.drop_first()
    } else {
        plain
    };
    let k = find(body, '.');
    let ipart = body.take(k as int);
    let g = grouped_of(ipart, ipart.len(), size, min, gsep);
    if k < body.len() {
        sign + g + dsep + body.skip(k + 1int)
    } else {
        sign + g
    }
}

/// A number already rounded and written plainly, under the number
/// policy: the sign kept, the integer part grouped with `gsep` every
/// `size` digits once it is at least `min` long, and the decimal point
/// written as `dsep`. The rounding is done first, by the caller: grouping
/// a run the rounding then shortens would misplace the separators.
pub fn pointed(plain: &str, size: usize, min: usize, gsep: &str, dsep: &str) -> (r: String)
    requires
        size >= 1,
    ensures
        r@ == pointed_of(plain@, size as nat, min as nat, gsep@, dsep@),
{
    let v = chars_of(plain);
    let n = v.len();
    let neg = n > 0 && v[0] == '-';
    let lo: usize = if neg {
        1
    } else {
        0
    };
    let ghost body = v@.subrange(lo as int, n as int);
    assert(body == (if neg {
        plain@.drop_first()
    } else {
        plain@
    }));
    let k = find_in(&v, lo, n, '.');
    let mut out = String::new();
    if neg {
        push_char(&mut out, '-');
    }
    let ghost sign = out@;
    let ghost ipart = v@.subrange(lo as int, k as int);
    assert(ipart == body.take(k - lo));
    let count = k - lo;
    if gsep.is_empty() || count < min || count <= size {
        push_range(&mut out, &v, lo, k);
    } else {
        let mut i: usize = lo;
        while i < k
            invariant
                lo <= i <= k <= n,
                n == v@.len(),
                size >= 1,
                ipart == v@.subrange(lo as int, k as int),
                out@ == sign + group_prefix(ipart, i - lo, size as nat, gsep@),
            decreases k - i,
        {
            if i > lo && (k - i) % size == 0 {
                push_str(&mut out, gsep);
            }
            push_char(&mut out, v[i]);
            assert(ipart[i - lo] == v@[i as int]);
            assert(out@ =~= sign + group_prefix(ipart, i - lo + 1, size as nat, gsep@));
            i += 1;
        }
    }
    assert(out@ == sign + grouped_of(ipart, ipart.len(), size as nat, min as nat, gsep@));
    if k < n {
        push_str(&mut out, dsep);
        push_range(&mut out, &v, k + 1, n);
        assert(body.skip(k - lo + 1) == v@.subrange(k + 1, n as int));
    }
    out
}

/// The digits of `s`, in order.
pub open spec fn digits(s: Seq<char>) -> Seq<char> {
    s.filter(|c: char| is_digit(c))
}

/// How many digits `s` holds.
pub open spec fn digit_count(s: Seq<char>) -> nat {
    digits(s).len()
}

proof fn lemma_digits_add(a: Seq<char>, b: Seq<char>)
    ensures
        digits(a + b) == digits(a) + digits(b),
{
    Seq::filter_distributes_over_add(a, b, |c: char| is_digit(c));
}

proof fn lemma_group_prefix_digits(d: Seq<char>, i: int, size: nat, sep: Seq<char>)
    requires
        0 <= i <= d.len(),
        digits(sep) == Seq::<char>::empty(),
    ensures
        digits(group_prefix(d, i, size, sep)) == digits(d.take(i)),
    decreases i,
{
    reveal_with_fuel(Seq::<_>::filter, 2);
    if i > 0 {
        lemma_group_prefix_digits(d, i - 1, size, sep);
        let g = group_prefix(d, i - 1, size, sep);
        let s = if i - 1 > 0 && (d.len() - (i - 1)) % (size as int) == 0 {
            sep
        } else {
            Seq::empty()
        };
        lemma_digits_add(g + s, seq![d[i - 1]]);
        lemma_digits_add(g, s);
        assert(d.take(i) == d.take(i - 1) + seq![d[i - 1]]);
        lemma_digits_add(d.take(i - 1), seq![d[i - 1]]);
        assert(digits(Seq::<char>::empty()) =~= Seq::<char>::empty());
        assert(digits(s) =~= Seq::<char>::empty());
        assert(digits(g + s) =~= digits(g));
    } else {
        assert(d.take(0) =~= Seq::<char>::empty());
    }
}

/// Grouping decorates a number; it never adds, drops or reorders a digit
/// — as long as the separator holds no digit.
pub proof fn law_grouping_keeps_every_digit(
    whole: Seq<char>,
    bytes: nat,
    size: nat,
    min: nat,
    sep: Seq<char>,
)
    requires
        digit_count(sep) == 0,
    ensures
        digits(grouped_of(whole, bytes, size, min, sep)) == digits(whole),
        digit_count(grouped_of(whole, bytes, size, min, sep)) == digit_count(whole),
{
    assert(digits(sep) =~= Seq::<char>::empty());
    if !(sep.len() == 0 || bytes < min || bytes <= size) {
        lemma_group_prefix_digits(whole, whole.len() as int, size, sep);
        assert(whole.take(whole.len() as int) == whole);
    }
}

proof fn lemma_prefix_len(d: Seq<char>, i: int, size: nat, sep: Seq<char>)
    requires
        0 <= i <= d.len(),
    ensures
        group_prefix(d, i, size, sep).len() >= i,
    decreases i,
{
    if i > 0 {
        lemma_prefix_len(d, i - 1, size, sep);
    }
}

proof fn lemma_prefix_sep(d: Seq<char>, i: int, j: int, size: nat, sep: Seq<char>)
    requires
        size >= 1,
        0 < j < i <= d.len(),
        (d.len() - j) % (size as int) == 0,
    ensures
        group_prefix(d, i, size, sep).len() >= i + sep.len(),
    decreases i,
{
    if i == j + 1 {
        lemma_prefix_len(d, i - 1, size, sep);
    } else {
        lemma_prefix_sep(d, i - 1, j, size, sep);
    }
}

/// An integer part at least `min` bytes long and longer than one group is
/// grouped: a separator goes in, one group from its right end at least,
/// so it comes out longer by a separator or more. (An integer of exactly
/// `min` digits is grouped too.)
pub proof fn law_a_long_enough_integer_is_grouped(
    whole: Seq<char>,
    bytes: nat,
    size: nat,
    min: nat,
    sep: Seq<char>,
)
    requires
        size >= 1,
        sep.len() > 0,
        bytes >= min,
        bytes > size,
        whole.len() > size,
    ensures
        grouped_of(whole, bytes, size, min, sep).len() >= whole.len() + sep.len(),
{
    let n = whole.len() as int;
    let j = n - size;
    assert((n - j) % (size as int) == 0) by (nonlinear_arith)
        requires
            n - j == size,
            size >= 1,
    ;
    lemma_prefix_sep(whole, n, j, size, sep);
}

/// A plainly written integer of at least `min` digits, longer than one
/// group, is written grouped: longer by a separator or more.
pub proof fn law_a_long_enough_number_is_pointed_grouped(
    plain: Seq<char>,
    size: nat,
    min: nat,
    gsep: Seq<char>,
    dsep: Seq<char>,
)
    requires
        size >= 1,
        gsep.len() > 0,
        plain.len() >= min,
        plain.len() > size,
        forall|i: int| 0 <= i < plain.len() ==> is_digit(#[trigger] plain[i]),
    ensures
        pointed_of(plain, size, min, gsep, dsep).len() >= plain.len() + gsep.len(),
{
    assert(plain[0] != '-');
    assert forall|i: int| 0 <= i < plain.len() implies #[trigger] plain[i] != '.' by {
        assert(is_digit(plain[i]));
    }
    crate::text::lemma_find(plain, '.', plain.len() as int);
    assert(plain.take(plain.len() as int) =~= plain);
    assert(Seq::<char>::empty() + grouped_of(plain, plain.len(), size, min, gsep) =~= grouped_of(
        plain,
        plain.len(),
        size,
        min,
        gsep,
    ));
    law_a_long_enough_integer_is_grouped(plain, plain.len(), size, min, gsep);
}

/// A number and the unit that follows it, kept apart because a drawing
/// path sets the two as two runs; a path that can only carry characters
/// joins them with [`Reading::text`].
#[derive(Clone, Debug, PartialEq, Eq)]
pub struct Reading {
    /// The value, already grouped and pointed.
    pub number: String,
    /// The suffix, already cased. Empty for a bare number.
    pub unit: String,
}

impl Reading {
    /// Whether the joint is closed up: a percent sign under a theme that
    /// attaches percent signs, and nothing else.
    pub open spec fn is_attached(&self, percent_attached: bool) -> bool {
        self.unit@.len() > 0 && self.unit@[0] == '%' && percent_attached
    }

    /// The pair as one string, as [`Reading::text`] joins it.
    pub open spec fn joined(&self, percent_attached: bool, gap: Seq<char>) -> Seq<char> {
        if self.unit@.len() == 0 {
            self.number@
        } else if self.is_attached(percent_attached) {
            self.number@ + self.unit@
        } else {
            self.number@ + gap + self.unit@
        }
    }

    /// Whether the joint between the two runs is closed up, given the
    /// theme's `percent_attached`.
    pub fn attached(&self, percent_attached: bool) -> (b: bool)
        ensures
            b == self.is_attached(percent_attached),
    {
        let u = chars_of(self.unit.as_str());
        u.len() > 0 && u[0] == '%' && percent_attached
    }

    /// The pair as one string, for every consumer that carries characters
    /// and not runs; `gap` is what stands between the two when the joint
    /// is open.
    pub fn text(&self, percent_attached: bool, gap: &str) -> (s: String)
        ensures
            s@ == self.joined(percent_attached, gap@),
    {
        let u = chars_of(self.unit.as_str());
        let nv = chars_of(self.number.as_str());
        let mut out = string_of(&nv, 0, nv.len());
        assert(nv@.subrange(0, nv@.len() as int) == nv@);
        if u.len() == 0 {
            return out;
        }
        if !self.attached(percent_attached) {
            push_str(&mut out, gap);
        }
        push_str(&mut out, self.unit.as_str());
        out
    }
}

} // verus!

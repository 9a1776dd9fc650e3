//! The font families the settings offer: two curated catalogues, each
//! family a display name and the pattern its file names are matched
//! against. Whether a family's files are installed is asked of the
//! caller, who owns the disk.

use vstd::prelude::*;
use crate::text::{chars_of, contains_in, eq_in, has_infix, push_char, push_str};

verus! {

/// A catalogue: display name and normalised file-name pattern, in the
/// order the dropdown lists them.
pub type Families = Seq<(Seq<char>, Seq<char>)>;

/// The curated monospace families.
pub open spec fn mono_table() -> Families {
    seq![
        ("Fira Mono"@, "firamono"@),
        ("Fira Code"@, "firacode"@),
        ("JetBrains Mono"@, "jetbrainsmono"@),
        ("DejaVu Sans Mono"@, "dejavusansmono"@),
        ("Liberation Mono"@, "liberationmono"@),
        ("Noto Sans Mono"@, "notosansmono"@),
        ("Ubuntu Mono"@, "ubuntumono"@),
        ("Source Code Pro"@, "sourcecodepro"@),
        ("Hack"@, "hack"@),
        ("IBM Plex Mono"@, "ibmplexmono"@),
        ("Cascadia Code"@, "cascadiacode"@),
        ("Inconsolata"@, "inconsolata"@),
    ]
}

/// The curated interface families.
pub open spec fn ui_table() -> Families {
    seq![
        ("United Sans"@, "unitedsans"@),
        ("Oxanium"@, "oxanium"@),
        ("Rajdhani"@, "rajdhani"@),
        ("Exo 2"@, "exo2"@),
        ("Orbitron"@, "orbitron"@),
        ("Saira Condensed"@, "sairacondensed"@),
        ("Saira"@, "saira"@),
    ]
}

/// The texts of a catalogue held as string slices.
pub open spec fn texts_of(v: Seq<(&str, &str)>) -> Families {
    v.map_values(|e: (&str, &str)| (e.0@, e.1@))
}

/// The curated monospace families, in dropdown order.
pub fn mono_families() -> (t: Vec<(&'static str, &'static str)>)
    ensures
        texts_of(t@) == mono_table(),
{
    let t = vec![
        ("Fira Mono", "firamono"),
        ("Fira Code", "firacode"),
        ("JetBrains Mono", "jetbrainsmono"),
        ("DejaVu Sans Mono", "dejavusansmono"),
        ("Liberation Mono", "liberationmono"),
        ("Noto Sans Mono", "notosansmono"),
        ("Ubuntu Mono", "ubuntumono"),
        ("Source Code Pro", "sourcecodepro"),
        ("Hack", "hack"),
        ("IBM Plex Mono", "ibmplexmono"),
        ("Cascadia Code", "cascadiacode"),
        ("Inconsolata", "inconsolata"),
    ];
    assert(texts_of(t@) =~= mono_table());
    t
}

/// The curated interface families, in dropdown order.
pub fn ui_families() -> (t: Vec<(&'static str, &'static str)>)
    ensures
        texts_of(t@) == ui_table(),
{
    let t = vec![
        ("United Sans", "unitedsans"),
        ("Oxanium", "oxanium"),
        ("Rajdhani", "rajdhani"),
        ("Exo 2", "exo2"),
        ("Orbitron", "orbitron"),
        ("Saira Condensed", "sairacondensed"),
        ("Saira", "saira"),
    ];
    assert(texts_of(t@) =~= ui_table());
    t
}

/// Where the first family named `display` stands in `t`, or `t.len()`.
pub open spec fn first_named(t: Families, display: Seq<char>) -> nat
    decreases t.len(),
{
    if t.len() == 0 {
        0
    } else if t[0].0 == display {
        0
    } else {
        1 + first_named(t.drop_first(), display)
    }
}

proof fn lemma_first_named(t: Families, display: Seq<char>, k: int)
    requires
        0 <= k <= t.len(),
        forall|i: int| 0 <= i < k ==> t[i].0 != display,
        k == t.len() || t[k].0 == display,
    ensures
        first_named(t, display) == k,
    decreases k,
{
    if k > 0 {
        lemma_first_named(t.drop_first(), display, k - 1);
    }
}

/// The file-name pattern of the family a settings dropdown shows as
/// `display`, monospace catalogue first; `None` for a name neither
/// catalogue holds.
pub open spec fn pattern_of(display: Seq<char>) -> Option<Seq<char>> {
    let t = mono_table() + ui_table();
    let k = first_named(t, display);
    if k < t.len() {
        Some(t[k as int].1)
    } else {
        None
    }
}

/// The file-name pattern of the family shown as `display`.
pub fn pattern_for(display: &str) -> (r: Option<&'static str>)
    ensures
        match r {
            Some(p) => pattern_of(display@) == Some(p@),
            None => pattern_of(display@) is None,
        },
{
    let mut t = mono_families();
    let mut u = ui_families();
    t.append(&mut u);
    let ghost all = mono_table() + ui_table();
    assert(texts_of(t@) =~= all);
    let mut i: usize = 0;
    while i < t.len()
        invariant
            i <= t@.len(),
            texts_of(t@) == all,
            all == mono_table() + ui_table(),
            forall|k: int| 0 <= k < i ==> all[k].0 != display@,
        decreases t.len() - i,
    {
        let (name, pat) = t[i];
        assert(all[i as int] == (name@, pat@));
        if str_eq(name, display) {
            proof {
                lemma_first_named(all, display@, i as int);
                assert(pattern_of(display@) == Some(all[i as int].1));
            }
            return Some(pat);
        }
        i += 1;
    }
    proof {
        lemma_first_named(all, display@, all.len() as int);
    }
    None
}

fn str_eq(a: &str, b: &str) -> (r: bool)
    ensures
        r == (a@ == b@),
{
    let x = crate::text::chars_of(a);
    let y = crate::text::chars_of(b);
    if x.len() != y.len() {
        return false;
    }
    let mut i: usize = 0;
    while i < x.len()
        invariant
            x@ == a@,
            y@ == b@,
            x@.len() == y@.len(),
            i <= x@.len(),
            forall|k: int| 0 <= k < i ==> x@[k] == y@[k],
        decreases x.len() - i,
    {
        if x[i] != y[i] {
            return false;
        }
        i += 1;
    }
    assert(x@ =~= y@);
    true
}

/// `r` is `t` with each family kept exactly when `present` answered true
/// for its pattern: the names, in catalogue order.
pub open spec fn kept_from<F: Fn(&str) -> bool>(t: Seq<(&str, &str)>, present: F, r: Seq<String>) -> bool {
    exists|keep: Seq<int>|
        #![trigger keep.len()]
        {
            &&& keep.len() == r.len()
            &&& forall|k: int, l: int| 0 <= k < l < keep.len() ==> keep[k] < keep[l]
            &&& forall|k: int|
                0 <= k < keep.len() ==> 0 <= keep[k] < t.len() && (#[trigger] r[k])@ == t[keep[k]].0@
                    && present.ensures((t[keep[k]].1,), true)
            &&& forall|i: int|
                0 <= i < t.len() ==> (exists|k: int| 0 <= k < keep.len() && keep[k] == i)
                    || present.ensures((#[trigger] t[i].1,), false)
        }
}

/// The families of `t` that are installed, by display name, in catalogue
/// order; `present` answers whether a font file matching a pattern is
/// installed.
pub fn available_from<F: Fn(&str) -> bool>(t: &Vec<(&'static str, &'static str)>, present: &F) -> (r: Vec<String>)
    requires
        forall|p: &str| present.requires((p,)),
    ensures
        kept_from(t@, *present, r@),
{
    let mut out: Vec<String> = Vec::new();
    let ghost mut keep: Seq<int> = Seq::empty();
    let mut i: usize = 0;
    while i < t.len()
        invariant
            i <= t@.len(),
            forall|p: &str| present.requires((p,)),
            keep.len() == out@.len(),
            forall|k: int, l: int| 0 <= k < l < keep.len() ==> keep[k] < keep[l],
            forall|k: int| 0 <= k < keep.len() ==> 0 <= #[trigger] keep[k] < i,
            forall|k: int|
                0 <= k < keep.len() ==> (#[trigger] out@[k])@ == t@[keep[k]].0@ && present.ensures(
                    (t@[keep[k]].1,),
                    true,
                ),
            forall|j: int|
                0 <= j < i ==> (exists|k: int| 0 <= k < keep.len() && keep[k] == j)
                    || present.ensures((#[trigger] t@[j].1,), false),
        decreases t.len() - i,
    {
        let (name, pat) = t[i];
        let yes = present(pat);
        let ghost old_out = out@;
        let ghost old_keep = keep;
        if yes {
            let mut s = String::new();
            crate::text::push_str(&mut s, name);
            proof {
                keep = keep.push(i as int);
            }
            out.push(s);
            proof {
                assert forall|k: int, l: int| 0 <= k < l < keep.len() implies keep[k] < keep[l] by {
                    if l < old_keep.len() {
                        assert(keep[k] == old_keep[k] && keep[l] == old_keep[l]);
                    } else {
                        assert(keep[k] == old_keep[k]);
                    }
                }
                assert forall|k: int| 0 <= k < keep.len() implies 0 <= #[trigger] keep[k] < i + 1 by {
                    if k < old_keep.len() {
                        assert(keep[k] == old_keep[k]);
                    }
                }
                assert forall|k: int|
                    0 <= k < keep.len() implies (#[trigger] out@[k])@ == t@[keep[k]].0@
                    && present.ensures((t@[keep[k]].1,), true) by {
                    if k < old_keep.len() {
                        assert(out@[k] == old_out[k] && keep[k] == old_keep[k]);
                    }
                }
                assert forall|j: int|
                    0 <= j < i + 1 implies (exists|k: int| 0 <= k < keep.len() && keep[k] == j)
                    || present.ensures((#[trigger] t@[j].1,), false) by {
                    if j < i {
                        if exists|k: int| 0 <= k < old_keep.len() && old_keep[k] == j {
                            let k = choose|k: int| 0 <= k < old_keep.len() && old_keep[k] == j;
                            assert(keep[k] == j);
                        }
                    } else {
                        assert(keep[keep.len() - 1] == j);
                    }
                }
            }
        } else {
            assert(present.ensures((t@[i as int].1,), false));
        }
        i += 1;
    }
    assert(keep.len() == out@.len());
    assert(kept_from(t@, *present, out@));
    out
}

/// The monospace families installed on this system (the terminal font's
/// list).
pub fn available_mono_families<F: Fn(&str) -> bool>(present: F) -> (r: Vec<String>)
    requires
        forall|p: &str| present.requires((p,)),
    ensures
        exists|t: Seq<(&str, &str)>| texts_of(t) == mono_table() && kept_from(t, present, r@),
{
    let t = mono_families();
    available_from(&t, &present)
}

/// The interface families installed on this system: the interface
/// catalogue first, then the monospace one.
pub fn available_ui_families<F: Fn(&str) -> bool>(present: F) -> (r: Vec<String>)
    requires
        forall|p: &str| present.requires((p,)),
    ensures
        exists|t: Seq<(&str, &str)>, m: Seq<(&str, &str)>, a: Seq<String>, b: Seq<String>|
            #![trigger kept_from(t, present, a), kept_from(m, present, b)]
            {
                &&& texts_of(t) == ui_table()
                &&& texts_of(m) == mono_table()
                &&& kept_from(t, present, a)
                &&& kept_from(m, present, b)
                &&& a + b == r@
            },
{
    let t = ui_families();
    let m = mono_families();
    let mut out = available_from(&t, &present);
    let ghost a = out@;
    let mut more = available_from(&m, &present);
    let ghost b = more@;
    out.append(&mut more);
    assert(a + b == out@);
    out
}


// ------------------------------------------------------- finding files

/// The characters a font file's name keeps when it is matched: ASCII
/// letters and digits.
pub open spec fn is_key_char(c: char) -> bool {
    let u = c as u32;
    ||| 0x30 <= u <= 0x39
    ||| 0x41 <= u <= 0x5a
    ||| 0x61 <= u <= 0x7a
}

pub open spec fn key_char() -> spec_fn(char) -> bool {
    |c: char| is_key_char(c)
}

/// A file name with everything but ASCII letters and digits taken out.
pub open spec fn file_key(name: Seq<char>) -> Seq<char> {
    name.filter(key_char())
}

pub open spec fn ends_with(s: Seq<char>, w: Seq<char>) -> bool {
    w.len() <= s.len() && s.subrange(s.len() - w.len(), s.len() as int) == w
}

/// Whether a search for `pat` takes the font file named `name` (its name
/// already lower-cased): a TrueType or OpenType file, neither italic nor
/// oblique, whose key holds `pat`, and bold only when `pat` asks for bold.
pub open spec fn file_fits(name: Seq<char>, pat: Seq<char>) -> bool {
    let k = file_key(name);
    &&& (ends_with(k, "ttf"@) || ends_with(k, "otf"@))
    &&& !has_infix(k, "italic"@)
    &&& !has_infix(k, "oblique"@)
    &&& has_infix(k, pat)
    &&& (has_infix(k, "bold"@) ==> has_infix(pat, "bold"@))
}

fn key_of(name: &str) -> (k: Vec<char>)
    ensures
        k@ == file_key(name@),
{
    let v = chars_of(name);
    let mut k: Vec<char> = Vec::new();
    let mut i: usize = 0;
    while i < v.len()
        invariant
            v@ == name@,
            i <= v@.len(),
            k@ == v@.take(i as int).filter(key_char()),
        decreases v.len() - i,
    {
        let c = v[i];
        let u = c as u32;
        if (0x30 <= u && u <= 0x39) || (0x41 <= u && u <= 0x5a) || (0x61 <= u && u <= 0x7a) {
            k.push(c);
        }
        proof {
            reveal(Seq::filter);
            assert(v@.take(i + 1).drop_last() =~= v@.take(i as int));
            assert(v@.take(i + 1).last() == c);
        }
        i += 1;
    }
    assert(v@.take(v@.len() as int) =~= v@);
    k
}

fn ends_in(v: &Vec<char>, w: &Vec<char>) -> (b: bool)
    ensures
        b == ends_with(v@, w@),
{
    if w.len() > v.len() {
        return false;
    }
    eq_in(v, v.len() - w.len(), v.len(), w)
}

/// Whether a search for `pat` takes the font file named `name`, given
/// lower-cased.
pub fn font_file_fits(name: &str, pat: &str) -> (b: bool)
    ensures
        b == file_fits(name@, pat@),
{
    let k = key_of(name);
    let p = chars_of(pat);
    let typed = ends_in(&k, &chars_of("ttf")) || ends_in(&k, &chars_of("otf"));
    if !typed {
        return false;
    }
    if contains_in(&k, &chars_of("italic")) || contains_in(&k, &chars_of("oblique")) {
        return false;
    }
    if !contains_in(&k, &p) {
        return false;
    }
    let bold = chars_of("bold");
    !contains_in(&k, &bold) || contains_in(&p, &bold)
}

proof fn lemma_filter_keeps_all(w: Seq<char>)
    requires
        forall|i: int| 0 <= i < w.len() ==> is_key_char(#[trigger] w[i]),
    ensures
        w.filter(key_char()) == w,
    decreases w.len(),
{
    reveal(Seq::filter);
    if w.len() > 0 {
        lemma_filter_keeps_all(w.drop_last());
        assert(w.drop_last().push(w.last()) =~= w);
        assert(is_key_char(w[w.len() - 1]));
    }
}

/// Matching a file drops from its name only what is not an ASCII letter
/// or digit: a run of ASCII letters and digits in the name (such as the
/// pattern `exo2`) stands in its key, and the key holds nothing else.
pub proof fn law_the_key_keeps_letters_and_digits(name: Seq<char>, w: Seq<char>)
    requires
        has_infix(name, w),
        forall|i: int|
            0 <= i < w.len() ==> {
                let u = #[trigger] w[i] as u32;
                (0x30 <= u <= 0x39) || (0x41 <= u <= 0x5a) || (0x61 <= u <= 0x7a)
            },
    ensures
        has_infix(file_key(name), w),
        forall|i: int|
            0 <= i < file_key(name).len() ==> {
                let u = #[trigger] file_key(name)[i] as u32;
                (0x30 <= u <= 0x39) || (0x41 <= u <= 0x5a) || (0x61 <= u <= 0x7a)
            },
{
    let k = choose|k: int| 0 <= k && k + w.len() <= name.len() && #[trigger] name.subrange(k, k + w.len()) == w;
    let a = name.take(k);
    let b = name.skip(k + w.len());
    assert(name =~= a + w + b);
    assert forall|i: int| 0 <= i < w.len() implies is_key_char(#[trigger] w[i]) by {
        let u = w[i] as u32;
        assert((0x30 <= u <= 0x39) || (0x41 <= u <= 0x5a) || (0x61 <= u <= 0x7a));
    }
    lemma_filter_keeps_all(w);
    Seq::filter_distributes_over_add(a + w, b, key_char());
    Seq::filter_distributes_over_add(a, w, key_char());
    let fa = a.filter(key_char());
    let key = file_key(name);
    assert(key == fa + w + b.filter(key_char()));
    assert(key.subrange(fa.len() as int, fa.len() + w.len() as int) =~= w);
    assert forall|i: int| 0 <= i < key.len() implies {
        let u = #[trigger] key[i] as u32;
        (0x30 <= u <= 0x39) || (0x41 <= u <= 0x5a) || (0x61 <= u <= 0x7a)
    } by {
        name.lemma_filter_pred(key_char(), i);
        assert(key_char()(key[i]));
    }
}

// ---------------------------------------------------- picking a variant

/// The patterns searched for the default monospace font, in order.
pub open spec fn mono_defaults() -> Seq<Seq<char>> {
    seq![
        "firamonoregular"@, "firamono"@, "firacoderegular"@, "firacode"@,
        "jetbrainsmonoregular"@, "jetbrainsmono"@, "dejavusansmono"@,
        "liberationmonoregular"@, "liberationmono"@, "notosansmono"@,
    ]
}

/// The patterns searched for the default interface font, in order.
pub open spec fn ui_defaults() -> Seq<Seq<char>> {
    seq![
        "unitedsansmedium"@, "unitedsans"@, "oxanium"@, "rajdhani"@,
        "exo2"@, "orbitron"@, "sairacondensed"@, "saira"@,
    ]
}

pub open spec fn strs(v: Seq<&str>) -> Seq<Seq<char>> {
    v.map_values(|s: &str| s@)
}

/// The default monospace search patterns.
pub fn default_mono_patterns() -> (v: Vec<&'static str>)
    ensures
        strs(v@) == mono_defaults(),
{
    let v = vec![
        "firamonoregular", "firamono", "firacoderegular", "firacode",
        "jetbrainsmonoregular", "jetbrainsmono", "dejavusansmono",
        "liberationmonoregular", "liberationmono", "notosansmono",
    ];
    assert(strs(v@) =~= mono_defaults());
    v
}

/// The default interface search patterns.
pub fn default_ui_patterns() -> (v: Vec<&'static str>)
    ensures
        strs(v@) == ui_defaults(),
{
    let v = vec![
        "unitedsansmedium", "unitedsans", "oxanium", "rajdhani",
        "exo2", "orbitron", "sairacondensed", "saira",
    ];
    assert(strs(v@) =~= ui_defaults());
    v
}

/// The families a variant is looked for in: the chosen family's pattern,
/// or, for no family or one neither catalogue holds, the defaults of the
/// kind asked for.
pub open spec fn base_patterns(family: Option<Seq<char>>, ui: bool) -> Seq<Seq<char>> {
    let defaults = if ui { ui_defaults() } else { mono_defaults() };
    match family {
        Some(f) => match pattern_of(f) {
            Some(p) => seq![p],
            None => defaults,
        },
        None => defaults,
    }
}

/// The families a weighted variant is looked for in: the default
/// interface font ships in one weight, so with no family chosen the
/// interface search goes on into the monospace defaults.
pub open spec fn weighted_patterns(family: Option<Seq<char>>, ui: bool) -> Seq<Seq<char>> {
    if ui && family is None {
        base_patterns(family, ui) + mono_defaults()
    } else {
        base_patterns(family, ui)
    }
}

pub open spec fn not_space() -> spec_fn(char) -> bool {
    |c: char| c != ' '
}

/// Each pattern's regular file, then the pattern alone.
pub open spec fn regular_pairs(ps: Seq<Seq<char>>) -> Seq<Seq<char>>
    decreases ps.len(),
{
    if ps.len() == 0 {
        Seq::empty()
    } else {
        regular_pairs(ps.drop_last()) + seq![ps.last() + "regular"@, ps.last()]
    }
}

/// The file patterns tried, in order, for a variant of `family` at the
/// lower-cased `weight`: the weight (spaces taken out) after each weighted
/// family unless it is the regular one, then the regular variants.
pub open spec fn candidates_of(family: Option<Seq<char>>, weight: Seq<char>, ui: bool) -> Seq<Seq<char>> {
    let w = weight.filter(not_space());
    let heavy = if w != "regular"@ {
        weighted_patterns(family, ui).map_values(|p: Seq<char>| p + w)
    } else {
        Seq::empty()
    };
    heavy + regular_pairs(base_patterns(family, ui))
}

pub open spec fn view_of(family: Option<&str>) -> Option<Seq<char>> {
    match family {
        Some(f) => Some(f@),
        None => None,
    }
}

fn joined(p: &str, w: &Vec<char>) -> (s: String)
    ensures
        s@ == p@ + w@,
{
    let mut s = String::new();
    push_str(&mut s, p);
    let mut i: usize = 0;
    while i < w.len()
        invariant
            i <= w@.len(),
            s@ == p@ + w@.take(i as int),
        decreases w.len() - i,
    {
        push_char(&mut s, w[i]);
        assert(w@.take(i + 1) =~= w@.take(i as int).push(w@[i as int]));
        i += 1;
    }
    assert(w@.take(w@.len() as int) =~= w@);
    s
}

fn without_spaces(weight: &str) -> (w: Vec<char>)
    ensures
        w@ == weight@.filter(not_space()),
{
    let v = chars_of(weight);
    let mut w: Vec<char> = Vec::new();
    let mut i: usize = 0;
    while i < v.len()
        invariant
            v@ == weight@,
            i <= v@.len(),
            w@ == v@.take(i as int).filter(not_space()),
        decreases v.len() - i,
    {
        let c = v[i];
        if c != ' ' {
            w.push(c);
        }
        proof {
            reveal(Seq::filter);
            assert(v@.take(i + 1).drop_last() =~= v@.take(i as int));
            assert(v@.take(i + 1).last() == c);
        }
        i += 1;
    }
    assert(v@.take(v@.len() as int) =~= v@);
    w
}

/// The file patterns a font variant is looked for under, in the order
/// they are tried: `family` is the display name chosen, if any, and
/// `weight` the lower-cased weight ("regular", "semi bold", ...).
pub fn variant_candidates(family: Option<&str>, weight: &str, ui: bool) -> (r: Vec<String>)
    ensures
        r@.len() == candidates_of(view_of(family), weight@, ui).len(),
        forall|i: int| 0 <= i < r@.len() ==> #[trigger] r@[i]@ == candidates_of(view_of(family), weight@, ui)[i],
{
    let ghost fam = view_of(family);
    let defaults = if ui { default_ui_patterns() } else { default_mono_patterns() };
    let base: Vec<&str> = match family {
        Some(f) => match pattern_for(f) {
            Some(p) => vec![p],
            None => defaults,
        },
        None => defaults,
    };
    assert(strs(base@) =~= base_patterns(fam, ui));
    let mut weighted: Vec<&str> = base.clone();
    if ui && family.is_none() {
        let mut more = default_mono_patterns();
        weighted.append(&mut more);
    }
    assert(strs(weighted@) =~= weighted_patterns(fam, ui));
    let w = without_spaces(weight);
    let regular = chars_of("regular");
    let ghost want = candidates_of(fam, weight@, ui);
    let ghost heavy = if w@ != "regular"@ {
        weighted_patterns(fam, ui).map_values(|p: Seq<char>| p + w@)
    } else {
        Seq::<Seq<char>>::empty()
    };
    let mut out: Vec<String> = Vec::new();
    let same = w.len() == regular.len() && eq_in(&w, 0, w.len(), &regular);
    proof {
        if w.len() == regular.len() {
            assert(w@.subrange(0, w@.len() as int) =~= w@);
        }
    }
    if !same {
        let mut i: usize = 0;
        while i < weighted.len()
            invariant
                i <= weighted@.len(),
                strs(weighted@) == weighted_patterns(fam, ui),
                heavy == weighted_patterns(fam, ui).map_values(|p: Seq<char>| p + w@),
                out@.len() == i,
                forall|k: int| 0 <= k < i ==> #[trigger] out@[k]@ == heavy[k],
            decreases weighted.len() - i,
        {
            let s = joined(weighted[i], &w);
            assert(strs(weighted@)[i as int] == weighted@[i as int]@);
            out.push(s);
            i += 1;
        }
    }
    assert(out@.len() == heavy.len());
    let mut j: usize = 0;
    while j < base.len()
        invariant
            j <= base@.len(),
            strs(base@) == base_patterns(fam, ui),
            regular@ == "regular"@,
            out@.len() == heavy.len() + regular_pairs(strs(base@).take(j as int)).len(),
            forall|k: int| 0 <= k < heavy.len() ==> #[trigger] out@[k]@ == heavy[k],
            forall|k: int|
                0 <= k < regular_pairs(strs(base@).take(j as int)).len() ==> #[trigger] out@[heavy.len()
                    + k]@ == regular_pairs(strs(base@).take(j as int))[k],
        decreases base.len() - j,
    {
        let ghost before = regular_pairs(strs(base@).take(j as int));
        let ghost old_out = out@;
        let a = joined(base[j], &regular);
        let mut b = String::new();
        push_str(&mut b, base[j]);
        out.push(a);
        out.push(b);
        proof {
            let t = strs(base@).take(j + 1);
            assert(t.drop_last() =~= strs(base@).take(j as int));
            assert(t.last() == base@[j as int]@);
            assert(regular_pairs(t) == before + seq![t.last() + "regular"@, t.last()]);
            assert forall|k: int| 0 <= k < regular_pairs(t).len() implies #[trigger] out@[heavy.len()
                + k]@ == regular_pairs(t)[k] by {
                if k < before.len() {
                    assert(out@[heavy.len() + k] == old_out[heavy.len() + k]);
                }
            }
            assert forall|k: int| 0 <= k < heavy.len() implies #[trigger] out@[k]@ == heavy[k] by {
                assert(out@[k] == old_out[k]);
            }
        }
        j += 1;
    }
    assert(strs(base@).take(base@.len() as int) =~= strs(base@));
    assert(want =~= heavy + regular_pairs(strs(base@)));
    assert forall|i: int| 0 <= i < out@.len() implies #[trigger] out@[i]@ == want[i] by {
        if i >= heavy.len() {
            let k = i - heavy.len();
            assert(out@[heavy.len() + k]@ == regular_pairs(strs(base@))[k]);
        }
    }
    out
}

} // verus!

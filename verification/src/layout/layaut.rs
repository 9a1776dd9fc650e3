//! The `.layaut` FORMAT: parse and serialise, nothing else — no
//! filesystem, no configuration.
//!
//! A file is a BASE (the home board) followed by per-screen sections,
//! `[WxH@D]`, and board sections, `[board x]` or `[board x y]`. Version 2
//! writes `clock#3 = 1.5 2 16 7`: the placement plus the instance it
//! belongs to, and opens with `version = 2` and `next_instance = N`, the
//! promise that no identity is ever handed out twice. A file with no
//! `version` line is version 1.

use vstd::prelude::*;
use crate::base::{Panel, Registry};
use crate::text::{
    all_digits, char_is_ws, chars_of, decimal, is_digit, digits_val, eq_ignore_case, eq_ignore_case_in,
    eq_in, find, find_in, first_line, after_line, is_ws, lemma_find, lemma_find_bound, lemma_lead_ws,
    lemma_trail_ws, next_line, next_word, parse_i32, parse_i32_in, parse_u32, parse_u32_in,
    push_char, push_decimal, push_range, push_str, string_of, trim, trim_in, trim_start,
    trim_start_in, unsigned_digits, words, lemma_trimmed, lemma_trim_empty, lemma_trim_push_ws,
    lemma_lead_ws_prefix, lemma_lead_ws_bound, lemma_trail_ws_bound, lead_ws,
};
use crate::seqs::{first_index, lemma_first_index_bound};
use super::def::{same_board, BoardId, ScreenKey};
use super::instance::{free_from, kept_of, landing, Instance, InstanceId, InstanceList, GENERATED};

verus! {

/// The grammar this module writes. A file without a `version` line is
/// version 1 — the format before placements had identities.
pub const FORMAT_VERSION: u32 = 2;

// ------------------------------------------------------------ the specs

/// A line with its comment stripped and its edges trimmed.
pub open spec fn clean_of(line: Seq<char>) -> Seq<char> {
    trim(line.take(find(line, '#') as int))
}

/// The characters `char::is_ascii_whitespace` answers for.
pub open spec fn is_ascii_ws(c: char) -> bool {
    c == ' ' || c == '\t' || c == '\n' || c == '\x0C' || c == '\r'
}

/// Where a placement line's comment opens: the first `#` that starts a
/// WORD — at the start of the line or after ASCII whitespace — so that
/// `clock#3` is a placement and ` # note` is a comment.
pub open spec fn comment_at(s: Seq<char>, i: int) -> int
    decreases s.len() - i,
{
    if i < 0 || i >= s.len() {
        s.len() as int
    } else if s[i] == '#' && (i == 0 || is_ascii_ws(s[i - 1])) {
        i
    } else {
        comment_at(s, i + 1)
    }
}

fn ascii_ws(c: char) -> (b: bool)
    ensures
        b == is_ascii_ws(c),
{
    c == ' ' || c == '\t' || c == '\n' || c == '\x0C' || c == '\r'
}

/// A placement line with its comment stripped and its edges trimmed.
pub open spec fn clean_placement_of(line: Seq<char>) -> Seq<char> {
    trim(line.take(comment_at(line, 0)))
}

/// `t` without the `[` that opens it and the `]` that closes it.
pub open spec fn bracketed(t: Seq<char>) -> Option<Seq<char>> {
    if t.len() >= 2 && t[0] == '[' && t.last() == ']' {
        Some(t.subrange(1, t.len() - 1))
    } else {
        None
    }
}

/// `W x H @ D`: a screen key written out, each number trimmed.
pub open spec fn screen_of(inner: Seq<char>) -> Option<ScreenKey> {
    let a = find(inner, '@');
    if a >= inner.len() {
        None
    } else {
        let res = inner.take(a as int);
        let diag = inner.skip(a + 1 as int);
        let x = find(res, 'x');
        if x >= res.len() {
            None
        } else {
            match (
                parse_u32(trim(res.take(x as int))),
                parse_u32(trim(res.skip(x + 1 as int))),
                parse_u32(trim(diag)),
            ) {
                (Some(w), Some(h), Some(d)) => Some((w, h, d)),
                _ => None,
            }
        }
    }
}

/// The header of a per-screen section, `[WxH@D]`.
pub open spec fn res_header_of(t: Seq<char>) -> Option<ScreenKey> {
    match bracketed(t) {
        Some(inner) => screen_of(inner),
        None => None,
    }
}

pub open spec fn board_word() -> Seq<char> {
    seq!['b', 'o', 'a', 'r', 'd']
}

/// The header of a board section: `[board x]` for a horizontal board, or
/// `[board x y]`; home, (0, 0), is not a section.
pub open spec fn board_header_of(t: Seq<char>) -> Option<BoardId> {
    match bracketed(t) {
        Some(b) => {
            let inner = trim(b);
            if inner.len() >= 5 && inner.take(5) == board_word() {
                let w = words(trim(inner.skip(5)));
                if w.len() == 1 {
                    match parse_i32(w[0]) {
                        Some(x) => if x != 0 {
                            Some((x, 0i32))
                        } else {
                            None
                        },
                        None => None,
                    }
                } else if w.len() == 2 {
                    match (parse_i32(w[0]), parse_i32(w[1])) {
                        (Some(x), Some(y)) => if x != 0 || y != 0 {
                            Some((x, y))
                        } else {
                            None
                        },
                        _ => None,
                    }
                } else {
                    None
                }
            } else {
                None
            }
        },
        None => None,
    }
}

// ------------------------------------------------------- the functions

/// The bounds of `bracketed(v[lo..hi])`.
fn bracketed_in(v: &Vec<char>, lo: usize, hi: usize) -> (r: Option<(usize, usize)>)
    requires
        lo <= hi <= v@.len(),
    ensures
        match r {
            Some((a, b)) => lo <= a <= b <= hi && bracketed(v@.subrange(lo as int, hi as int))
                == Some(v@.subrange(a as int, b as int)),
            None => bracketed(v@.subrange(lo as int, hi as int)) is None,
        },
{
    if hi - lo >= 2 && v[lo] == '[' && v[hi - 1] == ']' {
        assert(v@.subrange(lo as int, hi as int).subrange(1, (hi - lo) - 1) == v@.subrange(
            lo + 1,
            hi - 1,
        ));
        Some((lo + 1, hi - 1))
    } else {
        None
    }
}

/// `screen_of(v[lo..hi])`.
fn screen_in(v: &Vec<char>, lo: usize, hi: usize) -> (r: Option<ScreenKey>)
    requires
        lo <= hi <= v@.len(),
    ensures
        r == screen_of(v@.subrange(lo as int, hi as int)),
{
    let ghost inner = v@.subrange(lo as int, hi as int);
    let a = find_in(v, lo, hi, '@');
    if a >= hi {
        return None;
    }
    let ghost res = inner.take(a - lo);
    assert(res == v@.subrange(lo as int, a as int));
    assert(inner.skip(a - lo + 1) == v@.subrange(a + 1, hi as int));
    let x = find_in(v, lo, a, 'x');
    if x >= a {
        return None;
    }
    assert(res.take(x - lo) == v@.subrange(lo as int, x as int));
    assert(res.skip(x - lo + 1) == v@.subrange(x + 1, a as int));
    let (w0, w1) = trim_in(v, lo, x);
    let (h0, h1) = trim_in(v, x + 1, a);
    let (d0, d1) = trim_in(v, a + 1, hi);
    let w = parse_u32_in(v, w0, w1);
    let h = parse_u32_in(v, h0, h1);
    let d = parse_u32_in(v, d0, d1);
    match (w, h, d) {
        (Some(w), Some(h), Some(d)) => Some((w, h, d)),
        _ => None,
    }
}

/// `res_header_of(v[lo..hi])`.
fn res_header_in(v: &Vec<char>, lo: usize, hi: usize) -> (r: Option<ScreenKey>)
    requires
        lo <= hi <= v@.len(),
    ensures
        r == res_header_of(v@.subrange(lo as int, hi as int)),
{
    match bracketed_in(v, lo, hi) {
        Some((a, b)) => screen_in(v, a, b),
        None => None,
    }
}

/// The header of a `[WxH@D]` section.
pub fn parse_res_header(line: &str) -> (r: Option<ScreenKey>)
    ensures
        r == res_header_of(line@),
{
    let v = chars_of(line);
    assert(v@.subrange(0, v@.len() as int) == v@);
    res_header_in(&v, 0, v.len())
}

/// `board_header_of(v[lo..hi])`.
fn board_header_in(v: &Vec<char>, lo: usize, hi: usize) -> (r: Option<BoardId>)
    requires
        lo <= hi <= v@.len(),
    ensures
        r == board_header_of(v@.subrange(lo as int, hi as int)),
{
    let (a, b) = match bracketed_in(v, lo, hi) {
        Some(ab) => ab,
        None => return None,
    };
    let (c, d) = trim_in(v, a, b);
    let ghost inner = v@.subrange(c as int, d as int);
    if d - c < 5 || v[c] != 'b' || v[c + 1] != 'o' || v[c + 2] != 'a' || v[c + 3] != 'r' || v[c
        + 4] != 'd' {
        proof {
            if inner.len() >= 5 && inner.take(5) == board_word() {
                assert(inner.take(5)[0] == 'b' && inner.take(5)[1] == 'o' && inner.take(5)[2]
                    == 'a' && inner.take(5)[3] == 'r' && inner.take(5)[4] == 'd');
            }
        }
        return None;
    }
    assert(inner.take(5) =~= board_word());
    assert(inner.skip(5) == v@.subrange(c + 5, d as int));
    let (e, f) = trim_in(v, c + 5, d);
    let ghost w = words(v@.subrange(e as int, f as int));
    let (x0, x1) = match next_word(v, e, f) {
        Some(p) => p,
        None => return None,
    };
    let x = match parse_i32_in(v, x0, x1) {
        Some(x) => x,
        None => {
            assert(w[0] == v@.subrange(x0 as int, x1 as int));
            return None;
        },
    };
    assert(w[0] == v@.subrange(x0 as int, x1 as int));
    let (y0, y1) = match next_word(v, x1, f) {
        Some(p) => p,
        None => {
            assert(w.len() == 1);
            return if x != 0 {
                Some((x, 0))
            } else {
                None
            };
        },
    };
    assert(w[1] == v@.subrange(y0 as int, y1 as int));
    let y = match parse_i32_in(v, y0, y1) {
        Some(y) => y,
        None => return None,
    };
    match next_word(v, y1, f) {
        Some(_) => {
            assert(w.len() >= 3);
            None
        },
        None => {
            assert(w.len() == 2);
            if x != 0 || y != 0 {
                Some((x, y))
            } else {
                None
            }
        },
    }
}

/// The header of a board section: `[board <x>]` is a horizontal board —
/// the format the sections started with — and `[board <x> <y>]` a
/// position on the cross.
pub fn parse_board_header(t: &str) -> (r: Option<BoardId>)
    ensures
        r == board_header_of(t@),
{
    let v = chars_of(t);
    assert(v@.subrange(0, v@.len() as int) == v@);
    board_header_in(&v, 0, v.len())
}

/// The bounds of `clean_of(v[lo..hi])`.
fn clean_in(v: &Vec<char>, lo: usize, hi: usize) -> (r: (usize, usize))
    requires
        lo <= hi <= v@.len(),
    ensures
        lo <= r.0 <= r.1 <= hi,
        v@.subrange(r.0 as int, r.1 as int) == clean_of(v@.subrange(lo as int, hi as int)),
{
    let k = find_in(v, lo, hi, '#');
    assert(v@.subrange(lo as int, hi as int).take(k - lo) == v@.subrange(lo as int, k as int));
    trim_in(v, lo, k)
}

/// A line with its comment stripped and its edges trimmed.
pub fn clean(line: &str) -> (r: String)
    ensures
        r@ == clean_of(line@),
{
    let v = chars_of(line);
    assert(v@.subrange(0, v@.len() as int) == v@);
    let (a, b) = clean_in(&v, 0, v.len());
    string_of(&v, a, b)
}

/// The bounds of `clean_placement_of(v[lo..hi])`.
pub(crate) fn clean_placement_in(v: &Vec<char>, lo: usize, hi: usize) -> (r: (usize, usize))
    requires
        lo <= hi <= v@.len(),
    ensures
        lo <= r.0 <= r.1 <= hi,
        v@.subrange(r.0 as int, r.1 as int) == clean_placement_of(v@.subrange(lo as int, hi as int)),
{
    let ghost s = v@.subrange(lo as int, hi as int);
    let mut i = lo;
    while i < hi && !(v[i] == '#' && (i == lo || ascii_ws(v[i - 1])))
        invariant
            lo <= i <= hi <= v@.len(),
            s == v@.subrange(lo as int, hi as int),
            comment_at(s, 0) == comment_at(s, i - lo),
        decreases hi - i,
    {
        i += 1;
    }
    assert(comment_at(s, i - lo) == i - lo);
    assert(s.take(i - lo) == v@.subrange(lo as int, i as int));
    trim_in(v, lo, i)
}

/// The same, for a line that may legitimately contain a `#` because a
/// placement carries one.
pub fn clean_placement(line: &str) -> (r: String)
    ensures
        r@ == clean_placement_of(line@),
{
    let v = chars_of(line);
    assert(v@.subrange(0, v@.len() as int) == v@);
    let (a, b) = clean_placement_in(&v, 0, v.len());
    string_of(&v, a, b)
}

// ------------------------------------------------------- splitting

/// Which section the lines of a file are currently falling into.
#[derive(Clone, Copy, PartialEq, Eq, Debug, Structural)]
pub enum Section {
    Base,
    /// The last per-screen section opened.
    Screen,
    /// The last board section opened.
    Board,
}

/// A file cut into its base, its per-screen sections and its board
/// sections, each still as text.
pub struct Split {
    pub base: Seq<char>,
    pub screens: Seq<(ScreenKey, Seq<char>)>,
    pub boards: Seq<(BoardId, Seq<char>)>,
    pub cur: Section,
}

/// One line of a file, sorted into its section: a header opens a new,
/// empty section — the header alone is a place — and any other line, with
/// its newline, goes to the section the lines are falling into.
pub open spec fn split_step(st: Split, line: Seq<char>) -> Split {
    let t = clean_of(line);
    match res_header_of(t) {
        Some(k) => Split { screens: st.screens.push((k, Seq::empty())), cur: Section::Screen, ..st },
        None => match board_header_of(t) {
            Some(k) => Split { boards: st.boards.push((k, Seq::empty())), cur: Section::Board, ..st },
            None => {
                let add = line.push('\n');
                match st.cur {
                    Section::Base => Split { base: st.base + add, ..st },
                    Section::Screen => Split {
                        screens: st.screens.update(
                            st.screens.len() - 1,
                            (st.screens.last().0, st.screens.last().1 + add),
                        ),
                        ..st
                    },
                    Section::Board => Split {
                        boards: st.boards.update(
                            st.boards.len() - 1,
                            (st.boards.last().0, st.boards.last().1 + add),
                        ),
                        ..st
                    },
                }
            },
        },
    }
}

/// The lines of `s`, sorted one by one into `st`.
pub open spec fn split_from(st: Split, s: Seq<char>) -> Split
    decreases s.len(),
{
    if s.len() == 0 {
        st
    } else {
        proof {
            crate::text::lemma_after_line_shorter(s);
        }
        split_from(split_step(st, first_line(s)), after_line(s))
    }
}

/// The raw split of a whole file.
pub open spec fn split_of(text: Seq<char>) -> Split {
    split_from(
        Split { base: Seq::empty(), screens: Seq::empty(), boards: Seq::empty(), cur: Section::Base },
        text,
    )
}

/// The sections of a split as the text they hold.
pub open spec fn texts<K>(v: Seq<(K, String)>) -> Seq<(K, Seq<char>)> {
    v.map_values(|p: (K, String)| (p.0, p.1@))
}

/// Where the lines are falling, and under which key.
enum Cur {
    Base,
    Screen(ScreenKey),
    Board(BoardId),
}

/// The split the exec state stands for: the open section's pending text
/// is its last entry.
spec fn split_view(
    base: Seq<char>,
    screens: Seq<(ScreenKey, String)>,
    boards: Seq<(BoardId, String)>,
    cur: Cur,
    pend: Seq<char>,
) -> Split {
    match cur {
        Cur::Base => Split { base, screens: texts(screens), boards: texts(boards), cur: Section::Base },
        Cur::Screen(k) => Split {
            base,
            screens: texts(screens).push((k, pend)),
            boards: texts(boards),
            cur: Section::Screen,
        },
        Cur::Board(k) => Split {
            base,
            screens: texts(screens),
            boards: texts(boards).push((k, pend)),
            cur: Section::Board,
        },
    }
}

proof fn lemma_texts_push<K>(v: Seq<(K, String)>, k: K, t: String)
    ensures
        texts(v.push((k, t))) == texts(v).push((k, t@)),
{
    assert(texts(v.push((k, t))) =~= texts(v).push((k, t@)));
}

/// A raw split of the file: the base text, the per-screen sections and
/// the board sections, each still as text. What a store keeps when it
/// rewrites one part of a file and must not disturb the others.
pub fn split_raw(text: &str) -> (r: (String, Vec<(ScreenKey, String)>, Vec<(BoardId, String)>))
    ensures
        r.0@ == split_of(text@).base,
        texts(r.1@) == split_of(text@).screens,
        texts(r.2@) == split_of(text@).boards,
{
    let v = chars_of(text);
    let n = v.len();
    let mut base = String::new();
    let mut screens: Vec<(ScreenKey, String)> = Vec::new();
    let mut boards: Vec<(BoardId, String)> = Vec::new();
    let mut cur = Cur::Base;
    let mut pend = String::new();
    let mut pos: usize = 0;
    assert(v@.subrange(0, n as int) == text@);
    assert(texts(screens@) =~= Seq::<(ScreenKey, Seq<char>)>::empty());
    assert(texts(boards@) =~= Seq::<(BoardId, Seq<char>)>::empty());
    while pos < n
        invariant
            n == v@.len(),
            pos <= n,
            v@ == text@,
            split_of(text@) == split_from(
                split_view(base@, screens@, boards@, cur, pend@),
                v@.subrange(pos as int, n as int),
            ),
        decreases n - pos,
    {
        let ghost st = split_view(base@, screens@, boards@, cur, pend@);
        let (a, b, next) = next_line(&v, pos, n);
        let ghost line = v@.subrange(a as int, b as int);
        let (c, d) = clean_in(&v, a, b);
        let ghost st2 = split_step(st, line);
        match res_header_in(&v, c, d) {
            Some(k) => {
                match cur {
                    Cur::Screen(k0) => {
                        proof {
                            lemma_texts_push(screens@, k0, pend);
                        }
                        screens.push((k0, pend));
                    },
                    Cur::Board(k0) => {
                        proof {
                            lemma_texts_push(boards@, k0, pend);
                        }
                        boards.push((k0, pend));
                    },
                    Cur::Base => {},
                }
                cur = Cur::Screen(k);
                pend = String::new();
                assert(split_view(base@, screens@, boards@, cur, pend@) == st2);
            },
            None => match board_header_in(&v, c, d) {
                Some(k) => {
                    match cur {
                        Cur::Screen(k0) => {
                            proof {
                                lemma_texts_push(screens@, k0, pend);
                            }
                            screens.push((k0, pend));
                        },
                        Cur::Board(k0) => {
                            proof {
                                lemma_texts_push(boards@, k0, pend);
                            }
                            boards.push((k0, pend));
                        },
                        Cur::Base => {},
                    }
                    cur = Cur::Board(k);
                    pend = String::new();
                    assert(split_view(base@, screens@, boards@, cur, pend@) == st2);
                },
                None => {
                    let ghost add = line.push('\n');
                    match cur {
                        Cur::Base => {
                            push_range(&mut base, &v, a, b);
                            push_char(&mut base, '\n');
                            assert(base@ =~= st.base + add);
                        },
                        Cur::Screen(k0) => {
                            let ghost p0 = pend@;
                            push_range(&mut pend, &v, a, b);
                            push_char(&mut pend, '\n');
                            assert(pend@ =~= p0 + add);
                            assert(texts(screens@).push((k0, pend@)) =~= st.screens.update(
                                st.screens.len() - 1,
                                (st.screens.last().0, st.screens.last().1 + add),
                            ));
                        },
                        Cur::Board(k0) => {
                            let ghost p0 = pend@;
                            push_range(&mut pend, &v, a, b);
                            push_char(&mut pend, '\n');
                            assert(pend@ =~= p0 + add);
                            assert(texts(boards@).push((k0, pend@)) =~= st.boards.update(
                                st.boards.len() - 1,
                                (st.boards.last().0, st.boards.last().1 + add),
                            ));
                        },
                    }
                    assert(split_view(base@, screens@, boards@, cur, pend@) == st2);
                },
            },
        }
        pos = next;
    }
    match cur {
        Cur::Screen(k0) => {
            proof {
                lemma_texts_push(screens@, k0, pend);
            }
            screens.push((k0, pend));
        },
        Cur::Board(k0) => {
            proof {
                lemma_texts_push(boards@, k0, pend);
            }
            boards.push((k0, pend));
        },
        Cur::Base => {},
    }
    (base, screens, boards)
}

// ------------------------------------------------------ the base

pub open spec fn column_word() -> Seq<char> {
    seq!['[', 'c', 'o', 'l', 'u', 'm', 'n', ']']
}

pub open spec fn version_word() -> Seq<char> {
    seq!['v', 'e', 'r', 's', 'i', 'o', 'n']
}

pub open spec fn next_instance_word() -> Seq<char> {
    seq!['n', 'e', 'x', 't', '_', 'i', 'n', 's', 't', 'a', 'n', 'c', 'e']
}

pub open spec fn screen_word() -> Seq<char> {
    seq!['s', 'c', 'r', 'e', 'e', 'n']
}

/// The value of the first bare `key = <number>` among the lines of `s`
/// (ASCII case ignored in the key), counting from a state that is
/// `in_column` or not: nothing after the first `[column]` is read.
pub open spec fn number_from(in_column: bool, s: Seq<char>, key: Seq<char>) -> Option<u32>
    decreases s.len(),
{
    if s.len() == 0 {
        None
    } else {
        proof {
            crate::text::lemma_after_line_shorter(s);
        }
        let t = clean_of(first_line(s));
        if eq_ignore_case(t, column_word()) || in_column {
            number_from(true, after_line(s), key)
        } else {
            let e = find(t, '=');
            if e < t.len() && eq_ignore_case(trim(t.take(e as int)), key) {
                parse_u32(trim(t.skip(e + 1 as int)))
            } else {
                number_from(false, after_line(s), key)
            }
        }
    }
}

/// The value of a bare `key = <number>` in a section's text, ignoring
/// anything inside a `[column]`.
pub(crate) fn base_number_in(v: &Vec<char>, key: &Vec<char>) -> (r: Option<u32>)
    ensures
        r == number_from(false, v@, key@),
{
    let n = v.len();
    let col: Vec<char> = vec!['[', 'c', 'o', 'l', 'u', 'm', 'n', ']'];
    assert(col@ == column_word());
    let mut in_column = false;
    let mut pos: usize = 0;
    assert(v@.subrange(0, n as int) == v@);
    while pos < n
        invariant
            n == v@.len(),
            pos <= n,
            col@ == column_word(),
            number_from(false, v@, key@) == number_from(
                in_column,
                v@.subrange(pos as int, n as int),
                key@,
            ),
        decreases n - pos,
    {
        let (a, b, next) = next_line(v, pos, n);
        let (c, d) = clean_in(v, a, b);
        let ghost t = v@.subrange(c as int, d as int);
        if eq_ignore_case_in(v, c, d, &col) || in_column {
            in_column = true;
        } else {
            let e = find_in(v, c, d, '=');
            assert(t.take(e - c) == v@.subrange(c as int, e as int));
            if e < d {
                assert(t.skip(e - c + 1) == v@.subrange(e + 1, d as int));
                let (k0, k1) = trim_in(v, c, e);
                if eq_ignore_case_in(v, k0, k1, key) {
                    let (v0, v1) = trim_in(v, e + 1, d);
                    return parse_u32_in(v, v0, v1);
                }
            }
        }
        pos = next;
    }
    None
}

/// The value of a bare `key = <number>` in a section's text.
pub fn base_number(src: &str, key: &str) -> (r: Option<u32>)
    ensures
        r == number_from(false, src@, key@),
{
    let v = chars_of(src);
    let k = chars_of(key);
    base_number_in(&v, &k)
}

/// Which grammar a text is written in, as [`version_of`] reads it.
pub open spec fn version_of_text(text: Seq<char>) -> u32 {
    match number_from(false, split_of(text).base, version_word()) {
        Some(n) => n,
        None => 1,
    }
}

/// Which grammar a file is written in. No `version` line = version 1,
/// the format before placements had identities.
pub fn version_of(text: &str) -> (r: u32)
    ensures
        r == version_of_text(text@),
{
    let (base, _, _) = split_raw(text);
    let v = chars_of(base.as_str());
    let key: Vec<char> = vec!['v', 'e', 'r', 's', 'i', 'o', 'n'];
    assert(key@ == version_word());
    match base_number_in(&v, &key) {
        Some(n) => n,
        None => 1,
    }
}

/// Whether this text still has to be migrated to the current grammar.
pub fn is_legacy(text: &str) -> (b: bool)
    ensures
        b == (version_of_text(text@) < FORMAT_VERSION),
{
    version_of(text) < FORMAT_VERSION
}

/// `[` + `s` + `]`.
pub open spec fn bracket(s: Seq<char>) -> Seq<char> {
    seq!['['] + s + seq![']']
}

proof fn lemma_bracket(s: Seq<char>)
    ensures
        bracketed(bracket(s)) == Some(s),
{
    assert(bracket(s).subrange(1, bracket(s).len() - 1) =~= s);
}

/// How a screen key is written: `<W>x<H>@<D>`, in decimal.
pub open spec fn screen_text(k: ScreenKey) -> Seq<char> {
    decimal(k.0 as nat) + seq!['x'] + decimal(k.1 as nat) + seq!['@'] + decimal(k.2 as nat)
}

proof fn lemma_number_reads_back(n: u32)
    ensures
        parse_u32(trim(decimal(n as nat))) == Some(n),
        forall|i: int| 0 <= i < decimal(n as nat).len() ==> #[trigger] is_digit(decimal(n as nat)[i]),
        decimal(n as nat).len() >= 1,
{
    let d = decimal(n as nat);
    lemma_decimal_reads_back(n as nat);
    lemma_trimmed(d);
    assert(is_digit(d[0]));
    assert(unsigned_digits(d) == d);
}

/// A screen key written out reads back as itself: `parse_screen_key` of
/// `<W>x<H>@<D>` is `(W, H, D)` for every three `u32`s.
pub proof fn law_a_written_screen_key_reads_back(k: ScreenKey)
    ensures
        res_header_of(bracket(trim(screen_text(k)))) == Some(k),
{
    let dw = decimal(k.0 as nat);
    let dh = decimal(k.1 as nat);
    let dd = decimal(k.2 as nat);
    lemma_number_reads_back(k.0);
    lemma_number_reads_back(k.1);
    lemma_number_reads_back(k.2);
    let t = screen_text(k);
    assert(!is_ws(t[0])) by {
        assert(t[0] == dw[0]);
        assert(is_digit(dw[0]));
    }
    assert(!is_ws(t.last())) by {
        assert(t.last() == dd[dd.len() - 1]);
        assert(is_digit(dd[dd.len() - 1]));
    }
    lemma_trimmed(t);
    lemma_bracket(t);
    let a: int = (dw.len() + 1 + dh.len()) as int;
    assert forall|i: int| 0 <= i < a implies t[i] != '@' by {
        if i < dw.len() {
            assert(t[i] == dw[i]);
            assert(is_digit(dw[i]));
        } else if i > dw.len() {
            assert(t[i] == dh[i - dw.len() - 1]);
            assert(is_digit(dh[i - dw.len() - 1]));
        }
    }
    assert(t[a] == '@');
    lemma_find(t, '@', a);
    let res = t.take(a);
    assert(res == dw + seq!['x'] + dh);
    assert(t.skip(a + 1) == dd);
    assert forall|i: int| 0 <= i < dw.len() implies res[i] != 'x' by {
        assert(res[i] == dw[i]);
        assert(is_digit(dw[i]));
    }
    lemma_find(res, 'x', dw.len() as int);
    assert(res.take(dw.len() as int) == dw);
    assert(res.skip(dw.len() + 1int) == dh);
}

/// The screen key recorded by the first `screen = ...` line among the
/// lines of `s`, read as the header `[...]` would be.
pub open spec fn screen_line_from(s: Seq<char>) -> Option<ScreenKey>
    decreases s.len(),
{
    if s.len() == 0 {
        None
    } else {
        proof {
            crate::text::lemma_after_line_shorter(s);
        }
        let t = clean_of(first_line(s));
        let e = find(t, '=');
        if e < t.len() && trim(t.take(e as int)) == screen_word() {
            res_header_of(bracket(trim(t.skip(e + 1 as int))))
        } else {
            screen_line_from(after_line(s))
        }
    }
}

/// The screen key recorded in a file's base (`screen = 1920x1080@27`).
pub fn base_screen_of(base_text: &str) -> (r: Option<ScreenKey>)
    ensures
        r == screen_line_from(base_text@),
{
    let v = chars_of(base_text);
    let n = v.len();
    let word: Vec<char> = vec!['s', 'c', 'r', 'e', 'e', 'n'];
    assert(word@ == screen_word());
    let mut pos: usize = 0;
    assert(v@.subrange(0, n as int) == v@);
    while pos < n
        invariant
            n == v@.len(),
            pos <= n,
            word@ == screen_word(),
            screen_line_from(base_text@) == screen_line_from(v@.subrange(pos as int, n as int)),
        decreases n - pos,
    {
        let (a, b, next) = next_line(&v, pos, n);
        let (c, d) = clean_in(&v, a, b);
        let ghost t = v@.subrange(c as int, d as int);
        let e = find_in(&v, c, d, '=');
        assert(t.take(e - c) == v@.subrange(c as int, e as int));
        if e < d {
            assert(t.skip(e - c + 1) == v@.subrange(e + 1, d as int));
            let (k0, k1) = trim_in(&v, c, e);
            if eq_in(&v, k0, k1, &word) {
                let (v0, v1) = trim_in(&v, e + 1, d);
                proof {
                    lemma_bracket(v@.subrange(v0 as int, v1 as int));
                }
                return screen_in(&v, v0, v1);
            }
        }
        pos = next;
    }
    None
}

/// A screen key written the way a section header writes it, without the
/// brackets: `1920x1080@27`.
pub fn parse_screen_key(s: &str) -> (r: Option<ScreenKey>)
    ensures
        r == res_header_of(bracket(trim(s@))),
{
    let v = chars_of(s);
    assert(v@.subrange(0, v@.len() as int) == v@);
    let (a, b) = trim_in(&v, 0, v.len());
    proof {
        lemma_bracket(v@.subrange(a as int, b as int));
    }
    screen_in(&v, a, b)
}

// ------------------------------------------------------ placements

/// A placement token as [`parse_ref`] reads it: `<widget>` in a version 1
/// file, `<widget>#<id>` in a version 2 one. The widget must be
/// registered; an id that is unreadable or 0 is no id at all.
pub open spec fn ref_of(reg: &Registry, tok: Seq<char>) -> Option<(Panel, Option<InstanceId>)> {
    let h = find(tok, '#');
    let name = if h < tok.len() {
        trim(tok.take(h as int))
    } else {
        trim(tok)
    };
    let id = if h < tok.len() {
        match parse_u32(trim(tok.skip(h + 1 as int))) {
            Some(n) => if n > 0 {
                Some(n)
            } else {
                None
            },
            None => None,
        }
    } else {
        None
    };
    let p = reg.position(name);
    if p < reg.defs@.len() {
        Some(
            (
                Panel(p as u16),
                match id {
                    Some(n) => Some(InstanceId::spec_new(n)),
                    None => None,
                },
            ),
        )
    } else {
        None
    }
}

/// A placement token: `<widget>` in a version 1 file, `<widget>#<id>` in
/// a version 2 one. None when this installation has no such widget.
pub fn parse_ref(reg: &Registry, tok: &str) -> (r: Option<(Panel, Option<InstanceId>)>)
    ensures
        r == ref_of(reg, tok@),
{
    let v = chars_of(tok);
    let n = v.len();
    assert(v@.subrange(0, n as int) == v@);
    let h = find_in(&v, 0, n, '#');
    let ghost t = tok@;
    let (a, b) = if h < n {
        assert(t.take(h as int) == v@.subrange(0, h as int));
        trim_in(&v, 0, h)
    } else {
        trim_in(&v, 0, n)
    };
    let id = if h < n {
        assert(t.skip(h + 1) == v@.subrange(h + 1, n as int));
        let (c, d) = trim_in(&v, h + 1, n);
        match parse_u32_in(&v, c, d) {
            Some(k) => if k > 0 {
                Some(InstanceId::new(k))
            } else {
                None
            },
            None => None,
        }
    } else {
        None
    };
    let name = string_of(&v, a, b);
    match Panel::from_name(reg, name.as_str()) {
        Some(p) => Some((p, id)),
        None => None,
    }
}

/// How a placement names itself in a file: `<widget>#<id>` for a saved
/// instance, and the bare `<widget>` for a composed one, whose identity
/// is this installation's registry order and belongs to no file.
pub open spec fn token_of(reg: &Registry, widget: Panel, id: InstanceId) -> Seq<char> {
    let name = if widget.index() < reg.defs@.len() {
        reg.name_at(widget.index())
    } else {
        "?"@
    };
    if id.num() >= GENERATED {
        name
    } else {
        name + seq!['#'] + decimal(id.num() as nat)
    }
}

/// The placement token of `widget` standing as instance `id`.
pub fn token(reg: &Registry, widget: Panel, id: InstanceId) -> (s: String)
    ensures
        s@ == token_of(reg, widget, id),
{
    let mut out = String::new();
    push_str(&mut out, widget.name(reg));
    if !id.is_generated() {
        push_char(&mut out, '#');
        push_decimal(&mut out, id.get() as u64);
    }
    out
}

pub proof fn lemma_decimal_reads_back(n: nat)
    ensures
        decimal(n).len() >= 1,
        all_digits(decimal(n)),
        digits_val(decimal(n)) == n,
        forall|i: int| 0 <= i < decimal(n).len() ==> !is_ws(#[trigger] decimal(n)[i]) && decimal(
            n,
        )[i] != '#' && decimal(n)[i] != '+',
    decreases n,
{
    if n >= 10 {
        lemma_decimal_reads_back(n / 10);
        let d = decimal(n);
        assert(d.drop_last() == decimal(n / 10));
        assert(d.last() == crate::text::digit_char(n % 10));
        assert(((crate::text::digit_char(n % 10) as u32) - 0x30) as nat == n % 10);
        assert((n / 10) * 10 + n % 10 == n) by (nonlinear_arith);
        assert(digits_val(d) == digits_val(d.drop_last()) * 10 + ((d.last() as u32) - 0x30) as nat);
        assert forall|i: int| 0 <= i < d.len() implies !is_ws(#[trigger] d[i]) && d[i] != '#' && d[i]
            != '+' by {
            if i < d.len() - 1 {
                assert(d[i] == decimal(n / 10)[i]);
            }
        }
    } else {
        let d = decimal(n);
        assert(d.drop_last().len() == 0);
        assert(digits_val(d.drop_last()) == 0);
        assert(((crate::text::digit_char(n) as u32) - 0x30) as nat == n);
    }
}

/// What a file says of a placement is what was meant: the token written
/// for a registered widget reads back as that widget, and as that
/// instance when the instance is a saved one. A composed instance, whose
/// token is the bare name, reads back as the widget alone — and so does
/// instance 0, which no instance ever is. The widget's name must be one a
/// file can carry: no `#` in it, no whitespace at its edges, and no
/// earlier widget of the same name (ignoring ASCII case).
pub proof fn law_a_written_token_reads_back(reg: &Registry, widget: Panel, id: InstanceId)
    requires
        widget.index() < reg.defs@.len(),
        reg.position(reg.name_at(widget.index())) == widget.index(),
        trim(reg.name_at(widget.index())) == reg.name_at(widget.index()),
        forall|i: int|
            0 <= i < reg.name_at(widget.index()).len() ==> reg.name_at(widget.index())[i] != '#',
    ensures
        ref_of(reg, token_of(reg, widget, id)) == Some(
            (
                widget,
                if 0 < id.num() < GENERATED {
                    Some(id)
                } else {
                    None
                },
            ),
        ),
{
    let name = reg.name_at(widget.index());
    let t = token_of(reg, widget, id);
    if id.num() >= GENERATED {
        lemma_find(t, '#', name.len() as int);
    } else {
        let d = decimal(id.num() as nat);
        lemma_decimal_reads_back(id.num() as nat);
        assert(t == name + seq!['#'] + d);
        assert forall|i: int| 0 <= i < name.len() implies t[i] != '#' by {
            assert(t[i] == name[i]);
        }
        lemma_find(t, '#', name.len() as int);
        assert(t.take(name.len() as int) == name);
        assert(t.skip(name.len() + 1 as int) == d);
        lemma_trimmed(d);
        assert(unsigned_digits(d) == d);
        assert(parse_u32(trim(d)) == Some(id.num()));
        if id.num() > 0 {
            InstanceId::lemma_spec_new(id.num());
            InstanceId::lemma_num_injective(InstanceId::spec_new(id.num()), id);
        }
    }
}

// ---------------------------------------------------- the header lines

/// The key of a `key = value` line once its comment is cut: what stands
/// before the first `=`, trimmed. `None` for a line with no `=`.
pub open spec fn key_of(line: Seq<char>) -> Option<Seq<char>> {
    let c = clean_of(line);
    let e = find(c, '=');
    if e < c.len() {
        Some(trim(c.take(e as int)))
    } else {
        None
    }
}

/// Whether `line` sets `word` (ASCII case ignored).
pub open spec fn keyed(line: Seq<char>, word: Seq<char>) -> bool {
    match key_of(line) {
        Some(k) => eq_ignore_case(k, word),
        None => false,
    }
}

/// ` = `, between a key and its value.
pub open spec fn equals() -> Seq<char> {
    seq![' ', '=', ' ']
}

/// The line that promises the grammar: `version = 2`.
pub open spec fn version_line() -> Seq<char> {
    version_word() + equals() + decimal(FORMAT_VERSION as nat) + seq!['\n']
}

/// The line that promises the next free identity: `next_instance = N`.
pub open spec fn next_free_line(n: u32) -> Seq<char> {
    next_instance_word() + equals() + decimal(n as nat) + seq!['\n']
}

/// One line of a preserved base, with its newline: a `version` line or a
/// `next_instance` line is written afresh, any other line is kept.
pub open spec fn rewrite(line: Seq<char>, n: u32) -> Seq<char> {
    if keyed(line, version_word()) {
        version_line()
    } else if keyed(line, next_instance_word()) {
        next_free_line(n)
    } else {
        line.push('\n')
    }
}

/// Every line of `s`, rewritten.
pub open spec fn rewritten(s: Seq<char>, n: u32) -> Seq<char>
    decreases s.len(),
{
    if s.len() == 0 {
        Seq::empty()
    } else {
        proof {
            crate::text::lemma_after_line_shorter(s);
        }
        rewrite(first_line(s), n) + rewritten(after_line(s), n)
    }
}

/// Whether some line of `s` sets `word`.
pub open spec fn keyed_in(s: Seq<char>, word: Seq<char>) -> bool
    decreases s.len(),
{
    if s.len() == 0 {
        false
    } else {
        proof {
            crate::text::lemma_after_line_shorter(s);
        }
        keyed(first_line(s), word) || keyed_in(after_line(s), word)
    }
}

/// Whether a line belongs to a file's opening: blank, or a comment.
pub open spec fn opening_line(l: Seq<char>) -> bool {
    trim(l).len() == 0 || (trim_start(l).len() > 0 && trim_start(l)[0] == '#')
}

/// How long the opening of `s` is: the complete lines, newline included,
/// that are blank or comments, up to the first that is neither.
pub open spec fn opening(s: Seq<char>) -> nat
    decreases s.len(),
{
    let k = find(s, '\n');
    if k < s.len() && opening_line(s.take(k as int)) {
        (k + 1) + opening(s.skip(k + 1 as int))
    } else {
        0
    }
}

/// What [`with_header`] makes of a preserved base: its `version` and
/// `next_instance` lines written afresh, and the ones it lacks added
/// under its opening comment, where a reader looks for them.
pub open spec fn with_header_of(base: Seq<char>, n: u32) -> Seq<char> {
    let out = rewritten(base, n);
    let sv = keyed_in(base, version_word());
    let sn = keyed_in(base, next_instance_word());
    if sv && sn {
        out
    } else {
        let o = opening(out);
        out.take(o as int) + (if !sv {
            version_line()
        } else {
            Seq::empty()
        }) + (if !sn {
            next_free_line(n)
        } else {
            Seq::empty()
        }) + out.skip(o as int)
    }
}

fn push_version_line(out: &mut String)
    ensures
        final(out)@ == old(out)@ + version_line(),
{
    let ghost o = out@;
    push_str(out, "version = ");
    push_decimal(out, FORMAT_VERSION as u64);
    push_char(out, '\n');
    proof {
        reveal_strlit("version = ");
        assert(version_word() + equals() == "version = "@);
        assert(out@ =~= o + version_line());
    }
}

fn push_next_free_line(out: &mut String, n: u32)
    ensures
        final(out)@ == old(out)@ + next_free_line(n),
{
    let ghost o = out@;
    push_str(out, "next_instance = ");
    push_decimal(out, n as u64);
    push_char(out, '\n');
    proof {
        reveal_strlit("next_instance = ");
        assert(next_instance_word() + equals() == "next_instance = "@);
        assert(out@ =~= o + next_free_line(n));
    }
}

/// The `version` and `next_instance` lines a version 2 file opens with.
pub fn serialize_header<R: Copy>(out: &mut String, insts: &InstanceList<R>)
    ensures
        final(out)@ == old(out)@ + version_line() + next_free_line(free_from(insts.counter())),
{
    push_version_line(out);
    push_next_free_line(out, insts.next_free());
}

/// Whether `v[lo..hi]` sets `word`.
fn keyed_in_range(v: &Vec<char>, lo: usize, hi: usize, word: &Vec<char>) -> (b: bool)
    requires
        lo <= hi <= v@.len(),
    ensures
        b == keyed(v@.subrange(lo as int, hi as int), word@),
{
    let (c, d) = clean_in(v, lo, hi);
    let ghost t = v@.subrange(c as int, d as int);
    let e = find_in(v, c, d, '=');
    assert(t.take(e - c) == v@.subrange(c as int, e as int));
    if e < d {
        let (k0, k1) = trim_in(v, c, e);
        eq_ignore_case_in(v, k0, k1, word)
    } else {
        false
    }
}

/// How long the opening of `v` is.
fn opening_in(v: &Vec<char>) -> (o: usize)
    ensures
        o == opening(v@),
        o <= v@.len(),
{
    let n = v.len();
    let mut p: usize = 0;
    let mut more = true;
    assert(v@.subrange(0, n as int) == v@);
    while more && p < n
        invariant
            n == v@.len(),
            p <= n,
            opening(v@) == p + (if more {
                opening(v@.subrange(p as int, n as int))
            } else {
                0
            }),
        decreases n - p + (if more {
            1int
        } else {
            0
        }),
    {
        let ghost s = v@.subrange(p as int, n as int);
        let k = find_in(v, p, n, '\n');
        proof {
            lemma_find_bound(s, '\n');
        }
        let mut hit = false;
        if k < n {
            assert(s.take(k - p) == v@.subrange(p as int, k as int));
            let (a, b) = trim_in(v, p, k);
            if a == b {
                hit = true;
            } else {
                let c = trim_start_in(v, p, k);
                if c < k && v[c] == '#' {
                    hit = true;
                }
                proof {
                    let l = v@.subrange(p as int, k as int);
                    if trim_start(l).len() > 0 {
                        assert(trim_start(l)[0] == v@[c as int]);
                    }
                }
            }
        }
        if hit {
            assert(s.skip(k - p + 1) == v@.subrange(k + 1, n as int));
            p = k + 1;
        } else {
            more = false;
        }
    }
    if more {
        assert(v@.subrange(p as int, n as int).len() == 0);
    }
    p
}

/// Rewrites, or adds, the bookkeeping lines of a preserved base text, so
/// that splicing new boards into an old file cannot leave a stale
/// promise about which identities are still free.
pub fn with_header<R: Copy>(base: &str, insts: &InstanceList<R>) -> (r: String)
    ensures
        r@ == with_header_of(base@, free_from(insts.counter())),
{
    let free = insts.next_free();
    let v = chars_of(base);
    let n = v.len();
    let vword: Vec<char> = vec!['v', 'e', 'r', 's', 'i', 'o', 'n'];
    let nword: Vec<char> = vec!['n', 'e', 'x', 't', '_', 'i', 'n', 's', 't', 'a', 'n', 'c', 'e'];
    assert(vword@ == version_word());
    assert(nword@ == next_instance_word());
    let mut out = String::new();
    let mut seen_version = false;
    let mut seen_next = false;
    let mut pos: usize = 0;
    assert(v@.subrange(0, n as int) == v@);
    while pos < n
        invariant
            n == v@.len(),
            pos <= n,
            v@ == base@,
            vword@ == version_word(),
            nword@ == next_instance_word(),
            rewritten(base@, free) == out@ + rewritten(v@.subrange(pos as int, n as int), free),
            keyed_in(base@, version_word()) == (seen_version || keyed_in(
                v@.subrange(pos as int, n as int),
                version_word(),
            )),
            keyed_in(base@, next_instance_word()) == (seen_next || keyed_in(
                v@.subrange(pos as int, n as int),
                next_instance_word(),
            )),
        decreases n - pos,
    {
        let (a, b, next) = next_line(&v, pos, n);
        let ghost o = out@;
        if keyed_in_range(&v, a, b, &vword) {
            seen_version = true;
            push_version_line(&mut out);
        } else if keyed_in_range(&v, a, b, &nword) {
            seen_next = true;
            push_next_free_line(&mut out, free);
        } else {
            push_range(&mut out, &v, a, b);
            push_char(&mut out, '\n');
        }
        assert(out@ =~= o + rewrite(v@.subrange(a as int, b as int), free));
        pos = next;
    }
    assert(rewritten(v@.subrange(n as int, n as int), free) == Seq::<char>::empty());
    assert(out@ =~= rewritten(base@, free));
    if seen_version && seen_next {
        return out;
    }
    let ov = chars_of(out.as_str());
    let o = opening_in(&ov);
    let mut head = string_of(&ov, 0, o);
    if !seen_version {
        push_version_line(&mut head);
    }
    if !seen_next {
        push_next_free_line(&mut head, free);
    }
    push_range(&mut head, &ov, o, ov.len());
    proof {
        let w = rewritten(base@, free);
        assert(ov@.subrange(0, o as int) == w.take(o as int));
        assert(ov@.subrange(o as int, ov@.len() as int) == w.skip(o as int));
    }
    head
}

// ------------------------------------------- the promise the header keeps

/// Whether the lines of `s` that set `word` are read by [`base_number`]:
/// the first of them, if there is one, stands before the first `[column]`
/// line, after which nothing is read.
pub open spec fn read_before_column(s: Seq<char>, word: Seq<char>) -> bool
    decreases s.len(),
{
    if s.len() == 0 {
        true
    } else {
        proof {
            crate::text::lemma_after_line_shorter(s);
        }
        let l = first_line(s);
        if eq_ignore_case(clean_of(l), column_word()) {
            !keyed_in(s, word)
        } else if keyed(l, word) {
            true
        } else {
            read_before_column(after_line(s), word)
        }
    }
}

/// `l` without one closing `'\r'`.
spec fn strip_cr(l: Seq<char>) -> Seq<char> {
    if l.len() > 0 && l.last() == '\r' {
        l.drop_last()
    } else {
        l
    }
}

proof fn lemma_one_line(l: Seq<char>, r: Seq<char>)
    requires
        forall|i: int| 0 <= i < l.len() ==> l[i] != '\n',
    ensures
        first_line(l + seq!['\n'] + r) == strip_cr(l),
        after_line(l + seq!['\n'] + r) == r,
{
    let s = l + seq!['\n'] + r;
    assert forall|i: int| 0 <= i < l.len() implies s[i] != '\n' by {
        assert(s[i] == l[i]);
    }
    assert(s[l.len() as int] == '\n');
    lemma_find(s, '\n', l.len() as int);
    assert(s.take(l.len() as int) == l);
    if l.len() > 0 {
        assert(s[l.len() - 1] == l.last());
        assert(s.take(l.len() - 1) == l.drop_last());
    }
    assert(s.skip(l.len() + 1 as int) == r);
}

proof fn lemma_first_line_has_no_newline(s: Seq<char>)
    ensures
        forall|i: int| 0 <= i < first_line(s).len() ==> first_line(s)[i] != '\n',
{
    lemma_find_bound(s, '\n');
    let k = find(s, '\n');
    assert forall|i: int| 0 <= i < first_line(s).len() implies first_line(s)[i] != '\n' by {
        assert(first_line(s)[i] == s[i]);
    }
}

proof fn lemma_clean_strip_cr(l: Seq<char>)
    ensures
        clean_of(strip_cr(l)) == clean_of(l),
{
    if l.len() > 0 && l.last() == '\r' {
        let d = l.drop_last();
        lemma_find_bound(d, '#');
        let k = find(d, '#');
        if k < d.len() {
            assert forall|i: int| 0 <= i < k implies l[i] != '#' by {
                assert(l[i] == d[i]);
            }
            assert(l[k as int] == d[k as int]);
            lemma_find(l, '#', k as int);
            assert(l.take(k as int) == d.take(k as int));
        } else {
            assert forall|i: int| 0 <= i < l.len() implies l[i] != '#' by {
                if i < d.len() {
                    assert(l[i] == d[i]);
                }
            }
            lemma_find(l, '#', l.len() as int);
            assert(l.take(l.len() as int) == d.push('\r'));
            assert(d.take(d.len() as int) == d);
            lemma_trim_push_ws(d, '\r');
        }
    }
}

proof fn lemma_key_short(l: Seq<char>)
    ensures
        key_of(l) matches Some(k) ==> k.len() <= l.len(),
        clean_of(l).len() <= l.len(),
{
    lemma_find_bound(l, '#');
    let c0 = l.take(find(l, '#') as int);
    lemma_lead_ws_bound(c0);
    lemma_trail_ws_bound(c0.skip(lead_ws(c0) as int));
    let c = clean_of(l);
    lemma_find_bound(c, '=');
    let e = find(c, '=');
    if e < c.len() {
        let x = c.take(e as int);
        lemma_lead_ws_bound(x);
        lemma_trail_ws_bound(x.skip(lead_ws(x) as int));
    }
}

/// A line that is neither `[column]` nor sets `key` is passed over.
proof fn lemma_skip_line(l: Seq<char>, r: Seq<char>, key: Seq<char>)
    requires
        forall|i: int| 0 <= i < l.len() ==> l[i] != '\n',
        !eq_ignore_case(clean_of(l), column_word()),
        !keyed(l, key),
    ensures
        number_from(false, l + seq!['\n'] + r, key) == number_from(false, r, key),
{
    lemma_one_line(l, r);
    lemma_clean_strip_cr(l);
    assert((l + seq!['\n'] + r).len() > 0);
}

/// A blank or comment line is passed over, whatever is read.
proof fn lemma_opening_line_is_passed(l: Seq<char>, key: Seq<char>)
    requires
        opening_line(l),
    ensures
        clean_of(l).len() == 0,
        !eq_ignore_case(clean_of(l), column_word()),
        !keyed(l, key),
{
    lemma_find_bound(l, '#');
    let f = find(l, '#');
    let p = l.take(f as int);
    lemma_lead_ws_prefix(l);
    lemma_lead_ws_bound(l);
    lemma_trim_empty(l);
    if trim(l).len() == 0 {
        assert forall|i: int| 0 <= i < p.len() implies is_ws(p[i]) by {
            assert(p[i] == l[i]);
        }
    } else {
        let a = lead_ws(l);
        assert(trim_start(l)[0] == l[a as int]);
        assert forall|i: int| 0 <= i < a implies l[i] != '#' by {}
        lemma_find(l, '#', a as int);
        assert forall|i: int| 0 <= i < p.len() implies is_ws(p[i]) by {
            assert(p[i] == l[i]);
        }
    }
    lemma_trim_empty(p);
    lemma_find_bound(clean_of(l), '=');
}

proof fn lemma_opening_bound(s: Seq<char>)
    ensures
        opening(s) <= s.len(),
    decreases s.len(),
{
    lemma_find_bound(s, '\n');
    let k = find(s, '\n');
    if k < s.len() && opening_line(s.take(k as int)) {
        lemma_opening_bound(s.skip(k + 1 as int));
    }
}

/// The opening of a text is passed over, whatever follows it.
proof fn lemma_opening_is_passed(s: Seq<char>, y: Seq<char>, key: Seq<char>)
    ensures
        number_from(false, s.take(opening(s) as int) + y, key) == number_from(false, y, key),
    decreases s.len(),
{
    lemma_find_bound(s, '\n');
    let k = find(s, '\n');
    if k < s.len() && opening_line(s.take(k as int)) {
        let l = s.take(k as int);
        let rest = s.skip(k + 1 as int);
        lemma_opening_is_passed(rest, y, key);
        lemma_opening_bound(rest);
        assert(s.take(opening(s) as int) + y == l + seq!['\n'] + (rest.take(opening(rest) as int)
            + y));
        lemma_opening_line_is_passed(l, key);
        lemma_skip_line(l, rest.take(opening(rest) as int) + y, key);
    } else {
        assert(s.take(0) + y == y);
    }
}

/// The text of the line that promises the next free identity.
spec fn next_free_text(n: u32) -> Seq<char> {
    next_instance_word() + equals() + decimal(n as nat)
}

proof fn lemma_next_free_key(d: Seq<char>)
    ensures
        (next_instance_word() + equals() + d).take(14) =~= next_instance_word().push(' '),
        trim(next_instance_word().push(' ')) == next_instance_word(),
        (next_instance_word() + equals() + d).skip(15) =~= seq![' '] + d,
        forall|i: int| 0 <= i < 14 ==> (next_instance_word() + equals() + d)[i] != '=',
        (next_instance_word() + equals() + d)[14] == '=',
{
    let kx = next_instance_word().push(' ');
    lemma_trail_ws(kx, 1);
    lemma_lead_ws(kx, 0);
    assert(kx.skip(0) == kx);
    assert(kx.take(13) =~= next_instance_word());
}

proof fn lemma_value_reads(d: Seq<char>, n: nat)
    requires
        d == decimal(n),
    ensures
        trim(seq![' '] + d) == d,
        parse_u32(d) == (if n <= u32::MAX {
            Some(n as u32)
        } else {
            None
        }),
{
    lemma_decimal_reads_back(n);
    let vx = seq![' '] + d;
    assert(vx[1] == d[0]);
    lemma_lead_ws(vx, 1);
    assert(vx.skip(1) == d);
    assert(d.last() == d[d.len() - 1]);
    lemma_trail_ws(d, 0);
    assert(d.take(d.len() - 0) == d);
    assert(unsigned_digits(d) == d);
}

#[verifier::rlimit(30)]
proof fn lemma_next_free_line_reads(n: u32, r: Seq<char>)
    ensures
        number_from(false, next_free_line(n) + r, next_instance_word()) == Some(n),
        !eq_ignore_case(clean_of(next_free_text(n)), column_word()),
        !keyed(next_free_text(n), version_word()),
        forall|i: int| 0 <= i < next_free_text(n).len() ==> next_free_text(n)[i] != '\n',
{
    let body = next_free_text(n);
    let d = decimal(n as nat);
    lemma_decimal_reads_back(n as nat);
    assert(next_free_line(n) + r == body + seq!['\n'] + r);
    assert(body.len() == 16 + d.len());
    assert forall|i: int| 0 <= i < body.len() implies body[i] != '\n' && body[i] != '#' by {
        if i >= 16 {
            assert(body[i] == d[i - 16]);
        }
    }
    assert(body.last() == d[d.len() - 1]);
    lemma_one_line(body, r);
    lemma_find(body, '#', body.len() as int);
    assert(body.take(body.len() as int) == body);
    lemma_trimmed(body);
    assert(clean_of(body) == body);
    assert(strip_cr(body) == body);
    lemma_next_free_key(d);
    lemma_find(body, '=', 14);
    lemma_value_reads(d, n as nat);
    lemma_key_short(body);
    assert(key_of(body) == Some(next_instance_word()));
}

proof fn lemma_version_line_is_passed(r: Seq<char>)
    ensures
        number_from(false, version_line() + r, next_instance_word()) == number_from(
            false,
            r,
            next_instance_word(),
        ),
        !keyed(version_word() + equals() + decimal(FORMAT_VERSION as nat), next_instance_word()),
{
    let body = version_word() + equals() + decimal(FORMAT_VERSION as nat);
    reveal_with_fuel(decimal, 2);
    assert(decimal(FORMAT_VERSION as nat) == seq!['2']);
    assert(body =~= seq!['v', 'e', 'r', 's', 'i', 'o', 'n', ' ', '=', ' ', '2']);
    assert(version_line() + r == body + seq!['\n'] + r);
    lemma_key_short(body);
    assert forall|i: int| 0 <= i < body.len() implies body[i] != '\n' && body[i] != '#' by {}
    lemma_find(body, '#', body.len() as int);
    assert(body.take(body.len() as int) == body);
    lemma_trimmed(body);
    lemma_skip_line(body, r, next_instance_word());
}

/// A preserved base whose promise was already written keeps it, now
/// pointing at the free identity: the rewritten lines read `n`.
proof fn lemma_rewritten_reads_next(base: Seq<char>, n: u32)
    requires
        keyed_in(base, next_instance_word()),
        read_before_column(base, next_instance_word()),
    ensures
        number_from(false, rewritten(base, n), next_instance_word()) == Some(n),
    decreases base.len(),
{
    let nw = next_instance_word();
    let vw = version_word();
    crate::text::lemma_after_line_shorter(base);
    let l = first_line(base);
    let after = after_line(base);
    lemma_first_line_has_no_newline(base);
    lemma_key_short(l);
    if keyed(l, vw) {
        lemma_version_line_is_passed(rewritten(after, n));
        lemma_rewritten_reads_next(after, n);
    } else if keyed(l, nw) {
        lemma_next_free_line_reads(n, rewritten(after, n));
    } else {
        lemma_skip_line(l, rewritten(after, n), nw);
        assert(l.push('\n') + rewritten(after, n) == l + seq!['\n'] + rewritten(after, n));
        lemma_rewritten_reads_next(after, n);
    }
}

/// A rewritten base keeps its promise of the next free identity: reading
/// `next_instance` back out of what [`with_header`] wrote gives exactly
/// the identity the list would hand out next — whether the base carried
/// a stale promise, which is rewritten in place, or none, which is added
/// under the opening comment. The one text on which this fails is a base
/// whose only `next_instance` lines stand inside a `[column]`, where
/// nothing is read.
pub proof fn law_the_header_promises_the_next_free_id(base: Seq<char>, n: u32)
    requires
        read_before_column(base, next_instance_word()),
    ensures
        number_from(false, with_header_of(base, n), next_instance_word()) == Some(n),
{
    let nw = next_instance_word();
    let vw = version_word();
    let out = rewritten(base, n);
    let sv = keyed_in(base, vw);
    let sn = keyed_in(base, nw);
    if sn {
        lemma_rewritten_reads_next(base, n);
        if !sv {
            let o = opening(out);
            lemma_opening_bound(out);
            lemma_opening_is_passed(out, out.skip(o as int), nw);
            assert(out.take(o as int) + out.skip(o as int) == out);
            lemma_opening_is_passed(out, version_line() + out.skip(o as int), nw);
            lemma_version_line_is_passed(out.skip(o as int));
            assert(with_header_of(base, n) == out.take(o as int) + (version_line() + out.skip(
                o as int,
            )));
        }
    } else {
        let o = opening(out);
        lemma_opening_bound(out);
        let y = (if !sv {
            version_line()
        } else {
            Seq::empty()
        }) + next_free_line(n) + out.skip(o as int);
        assert(with_header_of(base, n) == out.take(o as int) + y);
        lemma_opening_is_passed(out, y, nw);
        lemma_next_free_line_reads(n, out.skip(o as int));
        if !sv {
            lemma_version_line_is_passed(next_free_line(n) + out.skip(o as int));
            assert(y == version_line() + (next_free_line(n) + out.skip(o as int)));
        } else {
            assert(y == next_free_line(n) + out.skip(o as int));
        }
    }
}

// ---------------------------------------------------- renumbering boards

/// The arm a board stands on — 0 left, 1 right, 2 up, 3 down — and how
/// far from home; `None` for home, and for a diagonal position, which no
/// gesture reaches.
pub open spec fn arm_of(k: BoardId) -> Option<(int, int)> {
    if k.1 == 0 && k.0 < 0 {
        Some((0, -k.0))
    } else if k.1 == 0 && k.0 > 0 {
        Some((1, k.0 as int))
    } else if k.0 == 0 && k.1 < 0 {
        Some((2, -k.1))
    } else if k.0 == 0 && k.1 > 0 {
        Some((3, k.1 as int))
    } else {
        None
    }
}

/// Whether board `k` stands on arm `a`.
pub open spec fn on_arm(k: BoardId, a: int) -> bool {
    match arm_of(k) {
        Some((b, _)) => b == a,
        None => false,
    }
}

/// How far from home board `k` stands on its arm.
pub open spec fn reach_of(k: BoardId) -> int {
    match arm_of(k) {
        Some((_, d)) => d,
        None => 0,
    }
}

/// Whether the `i`-th board of `ids` comes before the `j`-th on their
/// arm: nearer home, or as near and earlier in the list.
pub open spec fn nearer(ids: Seq<BoardId>, i: int, j: int) -> bool {
    reach_of(ids[i]) < reach_of(ids[j]) || (reach_of(ids[i]) == reach_of(ids[j]) && i < j)
}

/// Whether `s` lists the boards of `ids` that stand on arm `a`, each
/// once, nearest first, boards as near as each other in their order.
pub open spec fn arm_order(ids: Seq<BoardId>, a: int, s: Seq<usize>) -> bool {
    &&& forall|j: int| 0 <= j < s.len() ==> (s[j] as int) < ids.len() && on_arm(ids[s[j] as int], a)
    &&& forall|i: int| 0 <= i < ids.len() && on_arm(ids[i], a) ==> s.contains(i as usize)
    &&& forall|j: int, k: int| 0 <= j < k < s.len() ==> nearer(ids, s[j] as int, s[k] as int)
}

/// The renumbered boards, as the position each takes and the board that
/// takes it, in the order positions sort: the left arm farthest first,
/// then up, down, and the right arm nearest first. The row keeps all of
/// its boards; up and down keep only their nearest.
pub open spec fn plan_of(s0: Seq<usize>, s1: Seq<usize>, s2: Seq<usize>, s3: Seq<usize>) -> Seq<
    (BoardId, usize),
> {
    let left = Seq::new(s0.len(), |j: int| (((j - s0.len()) as i32, 0i32), s0[s0.len() - 1 - j]));
    let up = if s2.len() > 0 {
        seq![((0i32, -1i32), s2[0])]
    } else {
        Seq::empty()
    };
    let down = if s3.len() > 0 {
        seq![((0i32, 1i32), s3[0])]
    } else {
        Seq::empty()
    };
    let right = Seq::new(s1.len(), |j: int| (((j + 1) as i32, 0i32), s1[j]));
    left + up + down + right
}

/// Where each kept board moves, in the order its instances are carried:
/// the left arm, the right arm, up, down, each nearest first.
pub open spec fn moves_of(
    ids: Seq<BoardId>,
    s0: Seq<usize>,
    s1: Seq<usize>,
    s2: Seq<usize>,
    s3: Seq<usize>,
) -> Seq<(BoardId, BoardId)> {
    let left = Seq::new(s0.len(), |j: int| (ids[s0[j] as int], ((-(j + 1)) as i32, 0i32)));
    let right = Seq::new(s1.len(), |j: int| (ids[s1[j] as int], ((j + 1) as i32, 0i32)));
    let up = if s2.len() > 0 {
        seq![(ids[s2[0] as int], (0i32, -1i32))]
    } else {
        Seq::empty()
    };
    let down = if s3.len() > 0 {
        seq![(ids[s3[0] as int], (0i32, 1i32))]
    } else {
        Seq::empty()
    };
    left + right + up + down
}

/// The boards of a list, and what each holds.
pub open spec fn ids_of<D>(b: Seq<(BoardId, D)>) -> Seq<BoardId> {
    b.map_values(|e: (BoardId, D)| e.0)
}

pub open spec fn defs_of<D>(b: Seq<(BoardId, D)>) -> Seq<D> {
    b.map_values(|e: (BoardId, D)| e.1)
}

/// The arm a board stands on, and how far out.
fn arm_reach(k: BoardId) -> (r: Option<(u8, i64)>)
    ensures
        match r {
            Some((a, d)) => arm_of(k) == Some((a as int, d as int)) && a < 4,
            None => arm_of(k) is None,
        },
{
    if k.1 == 0 && k.0 < 0 {
        Some((0, -(k.0 as i64)))
    } else if k.1 == 0 && k.0 > 0 {
        Some((1, k.0 as i64))
    } else if k.0 == 0 && k.1 < 0 {
        Some((2, -(k.1 as i64)))
    } else if k.0 == 0 && k.1 > 0 {
        Some((3, k.1 as i64))
    } else {
        None
    }
}

/// How far out a board on an arm stands.
fn reach_at(k: BoardId) -> (d: i64)
    ensures
        arm_of(k) is Some ==> d == reach_of(k),
{
    match arm_reach(k) {
        Some((_, d)) => d,
        None => 0,
    }
}

/// The boards of `ids` on arm `a`, nearest first.
fn arm_indices(ids: &Vec<BoardId>, a: u8) -> (s: Vec<usize>)
    requires
        a < 4,
    ensures
        arm_order(ids@, a as int, s@),
{
    let mut s: Vec<usize> = Vec::new();
    let mut i: usize = 0;
    while i < ids.len()
        invariant
            a < 4,
            i <= ids@.len(),
            forall|j: int| 0 <= j < s@.len() ==> (s@[j] as int) < i && on_arm(ids@[s@[j] as int], a as int),
            forall|m: int| 0 <= m < i && on_arm(ids@[m], a as int) ==> s@.contains(m as usize),
            forall|j: int, k: int| 0 <= j < k < s@.len() ==> nearer(ids@, s@[j] as int, s@[k] as int),
        decreases ids.len() - i,
    {
        match arm_reach(ids[i]) {
            Some((b, d)) => {
                if b == a {
                    let mut p: usize = 0;
                    while p < s.len() && reach_at(ids[s[p]]) <= d
                        invariant
                            p <= s@.len(),
                            i < ids@.len(),
                            arm_of(ids@[i as int]) == Some((a as int, d as int)),
                            forall|j: int| 0 <= j < s@.len() ==> (s@[j] as int) < i && on_arm(ids@[s@[j] as int], a as int),
                            forall|q: int| 0 <= q < p ==> reach_of(ids@[s@[q] as int]) <= d,
                        decreases s.len() - p,
                    {
                        p += 1;
                    }
                    let ghost before = s@;
                    s.insert(p, i);
                    proof {
                        assert forall|j: int, k: int| 0 <= j < k < s@.len() implies nearer(
                            ids@,
                            s@[j] as int,
                            s@[k] as int,
                        ) by {
                            if k < p {
                                assert(s@[j] == before[j] && s@[k] == before[k]);
                            } else if k == p {
                                assert(s@[j] == before[j]);
                                assert(reach_of(ids@[before[j] as int]) <= d);
                            } else if j < p {
                                assert(s@[j] == before[j] && s@[k] == before[k - 1]);
                                if j == k - 1 {
                                } else {
                                    assert(nearer(ids@, before[j] as int, before[k - 1] as int));
                                }
                            } else if j == p {
                                assert(s@[k] == before[k - 1]);
                                assert(!(reach_of(ids@[before[p as int] as int]) <= d));
                                if k - 1 > p {
                                    assert(nearer(ids@, before[p as int] as int, before[k - 1] as int));
                                }
                            } else {
                                assert(s@[j] == before[j - 1] && s@[k] == before[k - 1]);
                            }
                        }
                        assert forall|j: int| 0 <= j < s@.len() implies (s@[j] as int) < i + 1
                            && on_arm(ids@[s@[j] as int], a as int) by {
                            if j < p {
                                assert(s@[j] == before[j]);
                            } else if j > p {
                                assert(s@[j] == before[j - 1]);
                            }
                        }
                        assert forall|m: int| 0 <= m < i + 1 && on_arm(ids@[m], a as int) implies s@.contains(
                            m as usize,
                        ) by {
                            if m < i {
                                let q = choose|q: int| 0 <= q < before.len() && before[q] == m as usize;
                                if q < p {
                                    assert(s@[q] == m as usize);
                                } else {
                                    assert(s@[q + 1] == m as usize);
                                }
                            } else {
                                assert(s@[p as int] == i);
                            }
                        }
                    }
                }
            },
            None => {},
        }
        i += 1;
    }
    s
}

/// What renumbering does to the instances: those of a board that was
/// dropped go with it, those on home stay, and every other lands on its
/// board's new position.
pub open spec fn relocated<R>(items: Seq<Instance<R>>, m: Seq<(BoardId, BoardId)>) -> Seq<
    Instance<R>,
> {
    items.filter(|x: Instance<R>| x.board == (0i32, 0i32) || kept_of(m).contains(x.board)).map_values(
        |x: Instance<R>| Instance::<R> { board: landing(m, x.board), ..x },
    )
}

proof fn lemma_plan_distinct(
    ids: Seq<BoardId>,
    s0: Seq<usize>,
    s1: Seq<usize>,
    s2: Seq<usize>,
    s3: Seq<usize>,
)
    requires
        arm_order(ids, 0, s0),
        arm_order(ids, 1, s1),
        arm_order(ids, 2, s2),
        arm_order(ids, 3, s3),
    ensures
        forall|a: int| 0 <= a < plan_of(s0, s1, s2, s3).len() ==> (#[trigger] plan_of(s0, s1, s2, s3)[a]).1 < ids.len(),
        forall|a: int, b: int|
            0 <= a < b < plan_of(s0, s1, s2, s3).len() ==> #[trigger] plan_of(s0, s1, s2, s3)[a].1
                != #[trigger] plan_of(s0, s1, s2, s3)[b].1,
{
    let p = plan_of(s0, s1, s2, s3);
    let n0 = s0.len() as int;
    let nu = if s2.len() > 0 { 1int } else { 0 };
    let nd = if s3.len() > 0 { 1int } else { 0 };
    // The arm each entry of the plan comes from.
    let arm = |a: int| if a < n0 { 0int } else if a < n0 + nu { 2int } else if a < n0 + nu + nd { 3int } else { 1int };
    assert forall|a: int| 0 <= a < p.len() implies (p[a].1 as int) < ids.len() && on_arm(
        ids[p[a].1 as int],
        arm(a),
    ) && (arm(a) == 0 ==> p[a].1 == s0[n0 - 1 - a]) && (arm(a) == 1 ==> p[a].1 == s1[a - n0 - nu
        - nd]) by {
        if a < n0 {
            assert(p[a].1 == s0[n0 - 1 - a]);
        } else if a < n0 + nu {
            assert(p[a].1 == s2[0]);
        } else if a < n0 + nu + nd {
            assert(p[a].1 == s3[0]);
        } else {
            assert(p[a].1 == s1[a - n0 - nu - nd]);
        }
    }
    assert forall|a: int, b: int| 0 <= a < b < p.len() implies #[trigger] p[a].1 != #[trigger] p[b].1 by {
        if arm(a) != arm(b) {
            assert(on_arm(ids[p[a].1 as int], arm(a)) && on_arm(ids[p[b].1 as int], arm(b)));
        } else if arm(a) == 0 {
            assert(nearer(ids, s0[n0 - 1 - b] as int, s0[n0 - 1 - a] as int));
        } else if arm(a) == 1 {
            assert(nearer(ids, s1[a - n0 - nu - nd] as int, s1[b - n0 - nu - nd] as int));
        }
    }
}

/// One entry of the plan, by where it stands.
proof fn lemma_plan_at(s0: Seq<usize>, s1: Seq<usize>, s2: Seq<usize>, s3: Seq<usize>, q: int)
    requires
        0 <= q < plan_of(s0, s1, s2, s3).len(),
    ensures
        ({
            let n0 = s0.len() as int;
            let nu: int = if s2.len() > 0 { 1 } else { 0 };
            let nd: int = if s3.len() > 0 { 1 } else { 0 };
            plan_of(s0, s1, s2, s3)[q] == (if q < n0 {
                (((q - n0) as i32, 0i32), s0[n0 - 1 - q])
            } else if q < n0 + nu {
                ((0i32, -1i32), s2[0])
            } else if q < n0 + nu + nd {
                ((0i32, 1i32), s3[0])
            } else {
                (((q - n0 - nu - nd + 1) as i32, 0i32), s1[q - n0 - nu - nd])
            })
        }),
        plan_of(s0, s1, s2, s3).len() == s0.len() + s1.len() + (if s2.len() > 0 { 1int } else { 0 })
            + (if s3.len() > 0 { 1int } else { 0 }),
{
    let left = Seq::new(s0.len(), |j: int| (((j - s0.len()) as i32, 0i32), s0[s0.len() - 1 - j]));
    let up = if s2.len() > 0 {
        seq![((0i32, -1i32), s2[0])]
    } else {
        Seq::empty()
    };
    let down = if s3.len() > 0 {
        seq![((0i32, 1i32), s3[0])]
    } else {
        Seq::empty()
    };
    let right = Seq::new(s1.len(), |j: int| (((j + 1) as i32, 0i32), s1[j]));
    let lu = left + up;
    let lud = lu + down;
    assert(plan_of(s0, s1, s2, s3) == lud + right);
    if q < lud.len() {
        if q < lu.len() {
            if q < left.len() {
                assert(lu[q] == left[q]);
            } else {
                assert(lu[q] == up[q - left.len()]);
            }
            assert(lud[q] == lu[q]);
        } else {
            assert(lud[q] == down[q - lu.len()]);
        }
    } else {
        assert((lud + right)[q] == right[q - lud.len()]);
    }
}

/// One entry of the moves, by where it stands.
proof fn lemma_moves_at(
    ids: Seq<BoardId>,
    s0: Seq<usize>,
    s1: Seq<usize>,
    s2: Seq<usize>,
    s3: Seq<usize>,
    q: int,
)
    requires
        0 <= q < moves_of(ids, s0, s1, s2, s3).len(),
    ensures
        ({
            let n0 = s0.len() as int;
            let n1 = s1.len() as int;
            let nu: int = if s2.len() > 0 { 1 } else { 0 };
            moves_of(ids, s0, s1, s2, s3)[q] == (if q < n0 {
                (ids[s0[q] as int], ((-(q + 1)) as i32, 0i32))
            } else if q < n0 + n1 {
                (ids[s1[q - n0] as int], ((q - n0 + 1) as i32, 0i32))
            } else if q < n0 + n1 + nu {
                (ids[s2[0] as int], (0i32, -1i32))
            } else {
                (ids[s3[0] as int], (0i32, 1i32))
            })
        }),
        moves_of(ids, s0, s1, s2, s3).len() == s0.len() + s1.len() + (if s2.len() > 0 { 1int } else { 0 })
            + (if s3.len() > 0 { 1int } else { 0 }),
{
    let left = Seq::new(s0.len(), |j: int| (ids[s0[j] as int], ((-(j + 1)) as i32, 0i32)));
    let right = Seq::new(s1.len(), |j: int| (ids[s1[j] as int], ((j + 1) as i32, 0i32)));
    let up = if s2.len() > 0 {
        seq![(ids[s2[0] as int], (0i32, -1i32))]
    } else {
        Seq::empty()
    };
    let down = if s3.len() > 0 {
        seq![(ids[s3[0] as int], (0i32, 1i32))]
    } else {
        Seq::empty()
    };
    let lr = left + right;
    let lru = lr + up;
    assert(moves_of(ids, s0, s1, s2, s3) == lru + down);
    if q < lru.len() {
        if q < lr.len() {
            if q < left.len() {
                assert(lr[q] == left[q]);
            } else {
                assert(lr[q] == right[q - left.len()]);
            }
            assert(lru[q] == lr[q]);
        } else {
            assert(lru[q] == up[q - lr.len()]);
        }
    } else {
        assert((lru + down)[q] == down[q - lru.len()]);
    }
}

/// An arm lists no board twice, so no more boards than there are.
proof fn lemma_arm_len(ids: Seq<BoardId>, a: int, s: Seq<usize>)
    requires
        arm_order(ids, a, s),
    ensures
        s.len() <= ids.len(),
{
    let t = s.map_values(|u: usize| u as int);
    assert forall|j: int, k: int| 0 <= j < t.len() && 0 <= k < t.len() && j != k implies t[j] != t[k] by {
        if j < k {
            assert(nearer(ids, s[j] as int, s[k] as int));
        } else {
            assert(nearer(ids, s[k] as int, s[j] as int));
        }
    }
    assert(t.no_duplicates());
    t.unique_seq_to_set();
    vstd::set_lib::lemma_int_range(0, ids.len() as int);
    assert forall|x: int| t.to_set().contains(x) implies vstd::set_lib::set_int_range(
        0,
        ids.len() as int,
    ).contains(x) by {
        let j = choose|j: int| 0 <= j < t.len() && t[j] == x;
        assert(t[j] == s[j] as int);
    }
    vstd::set_lib::lemma_len_subset(t.to_set(), vstd::set_lib::set_int_range(0, ids.len() as int));
}

/// The boards of a list, and what each holds, taken apart: what each
/// holds in a slot of its own, to be taken once.
fn split_boards<D>(boards: Vec<(BoardId, D)>) -> (r: (Vec<BoardId>, Vec<Option<D>>))
    ensures
        r.0@ == ids_of(boards@),
        r.1@.len() == boards@.len(),
        forall|j: int| 0 <= j < boards@.len() ==> r.1@[j] == Some(defs_of(boards@)[j]),
{
    let ghost b0 = boards@;
    let mut rest = boards;
    let mut ids: Vec<BoardId> = Vec::new();
    let mut slots: Vec<Option<D>> = Vec::new();
    while rest.len() > 0
        invariant
            ids@.len() + rest@.len() == b0.len(),
            slots@.len() == ids@.len(),
            forall|j: int| 0 <= j < ids@.len() ==> ids@[j] == b0[j].0 && slots@[j] == Some(b0[j].1),
            forall|j: int| 0 <= j < rest@.len() ==> rest@[j] == b0[ids@.len() + j],
        decreases rest@.len(),
    {
        let ghost r0 = rest@;
        let (k, d) = rest.remove(0);
        assert(r0[0] == b0[ids@.len() as int]);
        ids.push(k);
        slots.push(Some(d));
        assert forall|j: int| 0 <= j < rest@.len() implies rest@[j] == b0[ids@.len() + j] by {
            assert(rest@[j] == r0[j + 1]);
        }
    }
    assert(ids@ =~= ids_of(b0));
    assert forall|j: int| 0 <= j < b0.len() implies slots@[j] == Some(defs_of(b0)[j]) by {
        assert(ids@[j] == b0[j].0);
        assert(defs_of(b0)[j] == b0[j].1);
    }
    (ids, slots)
}

/// The plan of [`plan_of`], built.
fn build_plan(n: usize, s0: &Vec<usize>, s1: &Vec<usize>, s2: &Vec<usize>, s3: &Vec<usize>) -> (pl: Vec<(BoardId, usize)>)
    requires
        n < i32::MAX,
        s0@.len() <= n,
        s1@.len() <= n,
    ensures
        pl@ == plan_of(s0@, s1@, s2@, s3@),
{
    let ghost p = plan_of(s0@, s1@, s2@, s3@);
    let ghost nu: int = if s2@.len() > 0 { 1 } else { 0 };
    let ghost nd: int = if s3@.len() > 0 { 1 } else { 0 };
    proof {
        if p.len() > 0 {
            lemma_plan_at(s0@, s1@, s2@, s3@, 0);
        }
    }
    assert(p.len() == s0@.len() + s1@.len() + nu + nd);
    let mut pl: Vec<(BoardId, usize)> = Vec::new();
    let n0 = s0.len();
    let mut j = n0;
    while j > 0
        invariant
            j <= n0 == s0@.len(),
            n0 < i32::MAX,
            p == plan_of(s0@, s1@, s2@, s3@),
            p.len() == s0@.len() + s1@.len() + nu + nd,
            nu == (if s2@.len() > 0 { 1int } else { 0 }),
            nd == (if s3@.len() > 0 { 1int } else { 0 }),
            pl@.len() == n0 - j,
            forall|q: int| 0 <= q < pl@.len() ==> pl@[q] == p[q],
        decreases j,
    {
        proof {
            lemma_plan_at(s0@, s1@, s2@, s3@, (n0 - j) as int);
        }
        pl.push(((-(j as i32), 0), s0[j - 1]));
        j -= 1;
    }
    if s2.len() > 0 {
        proof {
            lemma_plan_at(s0@, s1@, s2@, s3@, n0 as int);
        }
        pl.push(((0, -1), s2[0]));
    }
    if s3.len() > 0 {
        proof {
            lemma_plan_at(s0@, s1@, s2@, s3@, n0 + nu);
        }
        pl.push(((0, 1), s3[0]));
    }
    let mut j: usize = 0;
    while j < s1.len()
        invariant
            j <= s1@.len() < i32::MAX,
            p == plan_of(s0@, s1@, s2@, s3@),
            p.len() == s0@.len() + s1@.len() + nu + nd,
            nu == (if s2@.len() > 0 { 1int } else { 0 }),
            nd == (if s3@.len() > 0 { 1int } else { 0 }),
            pl@.len() == s0@.len() + nu + nd + j,
            forall|q: int| 0 <= q < pl@.len() ==> pl@[q] == p[q],
        decreases s1.len() - j,
    {
        proof {
            lemma_plan_at(s0@, s1@, s2@, s3@, s0@.len() + nu + nd + j);
        }
        pl.push((((j + 1) as i32, 0), s1[j]));
        j += 1;
    }
    assert(pl@ =~= p);
    pl
}

/// The moves of [`moves_of`], built.
fn build_moves(ids: &Vec<BoardId>, s0: &Vec<usize>, s1: &Vec<usize>, s2: &Vec<usize>, s3: &Vec<usize>) -> (mv: Vec<(BoardId, BoardId)>)
    requires
        ids@.len() < i32::MAX,
        arm_order(ids@, 0, s0@),
        arm_order(ids@, 1, s1@),
        arm_order(ids@, 2, s2@),
        arm_order(ids@, 3, s3@),
    ensures
        mv@ == moves_of(ids@, s0@, s1@, s2@, s3@),
{
    proof {
        lemma_arm_len(ids@, 0, s0@);
        lemma_arm_len(ids@, 1, s1@);
    }
    let ghost m = moves_of(ids@, s0@, s1@, s2@, s3@);
    let ghost nu: int = if s2@.len() > 0 { 1 } else { 0 };
    let ghost nd: int = if s3@.len() > 0 { 1 } else { 0 };
    proof {
        if m.len() > 0 {
            lemma_moves_at(ids@, s0@, s1@, s2@, s3@, 0);
        }
    }
    assert(m.len() == s0@.len() + s1@.len() + nu + nd);
    let mut mv: Vec<(BoardId, BoardId)> = Vec::new();
    let mut j: usize = 0;
    while j < s0.len()
        invariant
            j <= s0@.len() < i32::MAX,
            m == moves_of(ids@, s0@, s1@, s2@, s3@),
            m.len() == s0@.len() + s1@.len() + nu + nd,
            arm_order(ids@, 0, s0@),
            mv@.len() == j,
            forall|q: int| 0 <= q < mv@.len() ==> mv@[q] == m[q],
        decreases s0.len() - j,
    {
        proof {
            lemma_moves_at(ids@, s0@, s1@, s2@, s3@, j as int);
        }
        mv.push((ids[s0[j]], (-((j + 1) as i32), 0)));
        j += 1;
    }
    let mut j: usize = 0;
    while j < s1.len()
        invariant
            j <= s1@.len() < i32::MAX,
            m == moves_of(ids@, s0@, s1@, s2@, s3@),
            m.len() == s0@.len() + s1@.len() + nu + nd,
            arm_order(ids@, 1, s1@),
            mv@.len() == s0@.len() + j,
            forall|q: int| 0 <= q < mv@.len() ==> mv@[q] == m[q],
        decreases s1.len() - j,
    {
        proof {
            lemma_moves_at(ids@, s0@, s1@, s2@, s3@, s0@.len() + j);
        }
        mv.push((ids[s1[j]], ((j + 1) as i32, 0)));
        j += 1;
    }
    if s2.len() > 0 {
        proof {
            lemma_moves_at(ids@, s0@, s1@, s2@, s3@, (s0@.len() + s1@.len()) as int);
        }
        mv.push((ids[s2[0]], (0, -1)));
    }
    if s3.len() > 0 {
        proof {
            lemma_moves_at(ids@, s0@, s1@, s2@, s3@, s0@.len() + s1@.len() + nu);
        }
        mv.push((ids[s3[0]], (0, 1)));
    }
    assert(mv@ =~= m);
    mv
}

/// Takes each board of the plan out of its slot, in the plan's order.
fn take_planned<D>(pl: &Vec<(BoardId, usize)>, slots: &mut Vec<Option<D>>, Ghost(ds): Ghost<Seq<D>>) -> (out: Vec<(BoardId, D)>)
    requires
        forall|a: int| 0 <= a < pl@.len() ==> ((#[trigger] pl@[a]).1 as int) < old(slots)@.len(),
        forall|a: int, b: int| 0 <= a < b < pl@.len() ==> #[trigger] pl@[a].1 != #[trigger] pl@[b].1,
        forall|a: int| 0 <= a < pl@.len() ==> old(slots)@[pl@[a].1 as int] == Some(ds[pl@[a].1 as int]),
    ensures
        out@ == pl@.map_values(|e: (BoardId, usize)| (e.0, ds[e.1 as int])),
{
    let mut out: Vec<(BoardId, D)> = Vec::new();
    let mut q: usize = 0;
    while q < pl.len()
        invariant
            q <= pl@.len(),
            slots@.len() == old(slots)@.len(),
            forall|a: int| 0 <= a < pl@.len() ==> ((#[trigger] pl@[a]).1 as int) < slots@.len(),
            forall|a: int, b: int| 0 <= a < b < pl@.len() ==> #[trigger] pl@[a].1 != #[trigger] pl@[b].1,
            forall|a: int| q <= a < pl@.len() ==> slots@[pl@[a].1 as int] == Some(ds[pl@[a].1 as int]),
            out@ == pl@.take(q as int).map_values(|e: (BoardId, usize)| (e.0, ds[e.1 as int])),
        decreases pl@.len() - q,
    {
        let (k, idx) = pl[q];
        let sl = slots.remove(idx);
        slots.insert(idx, None);
        let d = sl.unwrap();
        out.push((k, d));
        proof {
            assert forall|a: int| q + 1 <= a < pl@.len() implies slots@[pl@[a].1 as int] == Some(
                ds[pl@[a].1 as int],
            ) by {
                assert(pl@[a].1 != pl@[q as int].1);
            }
            assert(pl@.take(q + 1) == pl@.take(q as int).push(pl@[q as int]));
        }
        q += 1;
    }
    assert(pl@.take(pl@.len() as int) == pl@);
    out
}

/// Renumbers the boards so that each arm is contiguous from the centre
/// out, and carries every instance along with the board it stands on.
///
/// The row keeps every board, in the order of its distance from home;
/// up and down hold one board each — the top and the bottom board are
/// fixtures like home — so anything beyond the nearest is dropped, and so
/// is a diagonal position, which no gesture reaches. An instance whose
/// board was dropped goes with it.
pub fn normalize_boards<D, R: Copy>(boards: Vec<(BoardId, D)>, insts: &mut InstanceList<R>) -> (out:
    Vec<(BoardId, D)>)
    requires
        old(insts).wf(),
        boards@.len() < i32::MAX,
    ensures
        final(insts).wf(),
        final(insts).counter() == old(insts).counter(),
        exists|s0: Seq<usize>, s1: Seq<usize>, s2: Seq<usize>, s3: Seq<usize>|
            #![trigger plan_of(s0, s1, s2, s3)]
            {
                &&& arm_order(ids_of(boards@), 0, s0)
                &&& arm_order(ids_of(boards@), 1, s1)
                &&& arm_order(ids_of(boards@), 2, s2)
                &&& arm_order(ids_of(boards@), 3, s3)
                &&& out@ == plan_of(s0, s1, s2, s3).map_values(
                    |e: (BoardId, usize)| (e.0, defs_of(boards@)[e.1 as int]),
                )
                &&& final(insts).items() == relocated(
                    old(insts).items(),
                    moves_of(ids_of(boards@), s0, s1, s2, s3),
                )
            },
        final(insts).items().filter(|x: Instance<R>| x.board == (0i32, 0i32)) == old(
            insts,
        ).items().filter(|x: Instance<R>| x.board == (0i32, 0i32)),
{
    let ghost b0 = boards@;
    let ghost ds = defs_of(b0);
    let (ids, mut slots) = split_boards(boards);
    let s0 = arm_indices(&ids, 0);
    let s1 = arm_indices(&ids, 1);
    let s2 = arm_indices(&ids, 2);
    let s3 = arm_indices(&ids, 3);
    proof {
        lemma_arm_len(ids@, 0, s0@);
        lemma_arm_len(ids@, 1, s1@);
        lemma_plan_distinct(ids@, s0@, s1@, s2@, s3@);
    }
    let pl = build_plan(ids.len(), &s0, &s1, &s2, &s3);
    let out = take_planned(&pl, &mut slots, Ghost(ds));
    let mv = build_moves(&ids, &s0, &s1, &s2, &s3);
    let mut kept: Vec<BoardId> = Vec::new();
    let mut j: usize = 0;
    while j < mv.len()
        invariant
            j <= mv@.len(),
            kept@ == kept_of(mv@).take(j as int),
        decreases mv.len() - j,
    {
        kept.push(mv[j].0);
        assert(kept_of(mv@).take(j + 1) == kept_of(mv@).take(j as int).push(mv@[j as int].0));
        j += 1;
    }
    assert(kept_of(mv@).take(mv@.len() as int) == kept_of(mv@));
    insts.keep_boards((0, 0), &kept);
    insts.land_boards(&mv);
    proof {
        lemma_moves_off_home(ids@, s0@, s1@, s2@, s3@);
        law_instances_follow_their_boards(old(insts).items(), mv@);
    }
    assert(plan_of(s0@, s1@, s2@, s3@) == pl@);
    out
}

/// No renumbering moves home, or moves a board onto it.
proof fn lemma_moves_off_home(ids: Seq<BoardId>, s0: Seq<usize>, s1: Seq<usize>, s2: Seq<usize>, s3: Seq<usize>)
    requires
        arm_order(ids, 0, s0),
        arm_order(ids, 1, s1),
        arm_order(ids, 2, s2),
        arm_order(ids, 3, s3),
        ids.len() < i32::MAX,
    ensures
        forall|i: int|
            0 <= i < moves_of(ids, s0, s1, s2, s3).len() ==> (#[trigger] moves_of(ids, s0, s1, s2, s3)[i]).0
                != (0i32, 0i32) && moves_of(ids, s0, s1, s2, s3)[i].1 != (0i32, 0i32),
{
    lemma_arm_len(ids, 0, s0);
    lemma_arm_len(ids, 1, s1);
    let m = moves_of(ids, s0, s1, s2, s3);
    assert forall|i: int| 0 <= i < m.len() implies (#[trigger] m[i]).0 != (0i32, 0i32) && m[i].1 != (0i32, 0i32) by {
        lemma_moves_at(ids, s0, s1, s2, s3, i);
        let n0 = s0.len() as int;
        let n1 = s1.len() as int;
        let nu: int = if s2.len() > 0 { 1 } else { 0 };
        if i < n0 {
            assert(on_arm(ids[s0[i] as int], 0));
        } else if i < n0 + n1 {
            assert(on_arm(ids[s1[i - n0] as int], 1));
        } else if i < n0 + n1 + nu {
            assert(on_arm(ids[s2[0] as int], 2));
        } else {
            assert(on_arm(ids[s3[0] as int], 3));
        }
    }
}

/// Renumbering carries every instance along with the board it stands
/// on, and home stays put: what stood on home still stands there, in the
/// same order, and nothing else lands on it; every other instance that
/// is kept lands on the new position of its board. This holds of any
/// renumbering in which home neither moves nor is moved onto, as every
/// renumbering [`normalize_boards`] makes.
pub proof fn law_instances_follow_their_boards<R>(items: Seq<Instance<R>>, m: Seq<(BoardId, BoardId)>)
    requires
        forall|i: int| 0 <= i < m.len() ==> (#[trigger] m[i]).0 != (0i32, 0i32) && m[i].1 != (0i32, 0i32),
    ensures
        relocated(items, m).filter(|x: Instance<R>| x.board == (0i32, 0i32)) == items.filter(
            |x: Instance<R>| x.board == (0i32, 0i32),
        ),
        forall|k: int|
            0 <= k < relocated(items, m).len() && (#[trigger] relocated(items, m)[k]).board != (0i32, 0i32)
                ==> exists|j: int|
                0 <= j < m.len() && relocated(items, m)[k].board == (#[trigger] m[j]).1,
    decreases items.len(),
{
    let home = |x: Instance<R>| x.board == (0i32, 0i32);
    let keep = |x: Instance<R>| x.board == (0i32, 0i32) || kept_of(m).contains(x.board);
    let land = |x: Instance<R>| Instance::<R> { board: landing(m, x.board), ..x };
    reveal_with_fuel(Seq::<_>::filter, 1);
    lemma_first_index_bound(kept_of(m), (0i32, 0i32));
    assert(!kept_of(m).contains((0i32, 0i32))) by {
        if kept_of(m).contains((0i32, 0i32)) {
            let j = choose|j: int| 0 <= j < kept_of(m).len() && kept_of(m)[j] == (0i32, 0i32);
            assert(m[j].0 == (0i32, 0i32));
        }
    }
    if items.len() > 0 {
        let s = items.drop_last();
        let x = items.last();
        law_instances_follow_their_boards(s, m);
        assert(items.filter(keep) == if keep(x) { s.filter(keep).push(x) } else { s.filter(keep) });
        lemma_first_index_bound(kept_of(m), x.board);
        let fi = first_index(kept_of(m), x.board) as int;
        if fi < m.len() {
            assert(kept_of(m)[fi] == m[fi].0);
        }
        if keep(x) {
            assert(relocated(items, m) =~= relocated(s, m).push(land(x)));
            assert(relocated(items, m).drop_last() == relocated(s, m));
        } else {
            assert(relocated(items, m) =~= relocated(s, m));
        }
        assert forall|k: int|
            0 <= k < relocated(items, m).len() && (#[trigger] relocated(items, m)[k]).board != (0i32, 0i32)
                implies exists|j: int| 0 <= j < m.len() && relocated(items, m)[k].board == (#[trigger] m[j]).1 by {
            if k < relocated(s, m).len() {
                assert(relocated(items, m)[k] == relocated(s, m)[k]);
            } else {
                assert(relocated(items, m)[k] == land(x));
                assert(fi < m.len());
                assert(relocated(items, m)[k].board == m[fi].1);
            }
        }
    } else {
        assert(relocated(items, m) =~= Seq::<Instance<R>>::empty());
    }
}

} // verus!

//! The rectangle grammar of a `.layaut` section: `<widget>[#<id>] =
//! <x> <y> <w> <h>` lines, in the base, in a board section and in a
//! per-screen section. The four numbers stay as the file wrote them;
//! which widget and which instance a line means is decided here.

use vstd::prelude::*;
use crate::base::{Panel, Registry};
use crate::text::{after_line, chars_of, find, find_in, first_line, next_line, string_of, trim, trim_in};
use super::def::BoardId;
use super::instance::{Instance, InstanceId, InstanceList};
use super::layaut::{clean_placement_in, clean_placement_of, parse_ref, ref_of};

verus! {

/// One placement line whose widget this installation has: the widget,
/// the identity the line gave it, and the text after its `=`.
pub struct RectLine {
    pub widget: Panel,
    pub id: Option<InstanceId>,
    pub value: String,
}

impl View for RectLine {
    type V = (Panel, Option<InstanceId>, Seq<char>);

    open spec fn view(&self) -> (Panel, Option<InstanceId>, Seq<char>) {
        (self.widget, self.id, self.value@)
    }
}

/// What one line of a rectangle section places: the token before the
/// first `=` must name a registered widget; a line with no `=` (a blank
/// one, a comment, a header) places nothing.
pub open spec fn rect_line_of(reg: &Registry, line: Seq<char>) -> Option<
    (Panel, Option<InstanceId>, Seq<char>),
> {
    let t = clean_placement_of(line);
    let e = find(t, '=');
    if e >= t.len() {
        None
    } else {
        match ref_of(reg, trim(t.take(e as int))) {
            Some((p, id)) => Some((p, id, t.skip(e + 1 as int))),
            None => None,
        }
    }
}

/// The placement lines of `s`, in file order.
pub open spec fn rect_lines_of(reg: &Registry, s: Seq<char>) -> Seq<(Panel, Option<InstanceId>, Seq<char>)>
    decreases s.len(),
{
    if s.len() == 0 {
        Seq::empty()
    } else {
        proof {
            crate::text::lemma_after_line_shorter(s);
        }
        let rest = rect_lines_of(reg, after_line(s));
        match rect_line_of(reg, first_line(s)) {
            Some(x) => seq![x] + rest,
            None => rest,
        }
    }
}

pub open spec fn lines_view(v: Seq<RectLine>) -> Seq<(Panel, Option<InstanceId>, Seq<char>)> {
    v.map_values(|l: RectLine| l@)
}

/// The placement lines of a section, in file order, each with the text
/// of its rectangle.
pub fn rect_lines(reg: &Registry, src: &str) -> (r: Vec<RectLine>)
    ensures
        lines_view(r@) == rect_lines_of(reg, src@),
{
    let v = chars_of(src);
    let n = v.len();
    let mut out: Vec<RectLine> = Vec::new();
    let mut pos: usize = 0;
    assert(v@.subrange(0, n as int) == src@);
    assert(lines_view(out@) =~= Seq::empty());
    while pos < n
        invariant
            n == v@.len(),
            pos <= n,
            v@ == src@,
            lines_view(out@) + rect_lines_of(reg, v@.subrange(pos as int, n as int))
                == rect_lines_of(reg, src@),
        decreases n - pos,
    {
        let (a, b, next) = next_line(&v, pos, n);
        let ghost before = lines_view(out@);
        let ghost rest = rect_lines_of(reg, v@.subrange(next as int, n as int));
        let (c, d) = clean_placement_in(&v, a, b);
        let ghost t = v@.subrange(c as int, d as int);
        let e = find_in(&v, c, d, '=');
        if e < d {
            assert(t.take(e - c) == v@.subrange(c as int, e as int));
            assert(t.skip(e - c + 1) == v@.subrange(e + 1, d as int));
            let (k0, k1) = trim_in(&v, c, e);
            let key = string_of(&v, k0, k1);
            match parse_ref(reg, key.as_str()) {
                Some((p, id)) => {
                    let line = RectLine { widget: p, id, value: string_of(&v, e + 1, d) };
                    out.push(line);
                    assert(lines_view(out@) =~= before.push(line@));
                    assert(lines_view(out@) + rest =~= before + (seq![line@] + rest));
                },
                None => {},
            }
        }
        pos = next;
    }
    assert(rect_lines_of(reg, v@.subrange(n as int, n as int)) == Seq::<
        (Panel, Option<InstanceId>, Seq<char>),
    >::empty());
    assert(lines_view(out@) + Seq::empty() =~= lines_view(out@));
    out
}

/// The instance of widget `w` that stands first on home, if any.
pub open spec fn home_instance<R>(items: Seq<Instance<R>>, w: Panel) -> Option<InstanceId> {
    let on = items.filter(|x: Instance<R>| x.board == (0i32, 0i32) && x.widget == w);
    if on.len() > 0 {
        Some(on[0].id)
    } else {
        None
    }
}

/// Which instance a per-screen line moves: the one it names, or — a
/// version 1 line names only a widget, which could only ever have meant
/// its one instance on home — the first instance of that widget on
/// home. None when there is no such instance.
pub fn screen_target<R: Copy>(insts: &InstanceList<R>, widget: Panel, id: Option<InstanceId>) -> (r:
    Option<InstanceId>)
    ensures
        r == match id {
            Some(i) => Some(i),
            None => home_instance(insts.items(), widget),
        },
{
    match id {
        Some(i) => Some(i),
        None => {
            let home: BoardId = (0, 0);
            let on = insts.on_board(home);
            let mut k: usize = 0;
            while k < on.len() && on[k].widget != widget
                invariant
                    k <= on@.len(),
                    forall|j: int| 0 <= j < k ==> on@[j].widget != widget,
                decreases on.len() - k,
            {
                k += 1;
            }
            let ghost f = |x: Instance<R>| x.board == (0i32, 0i32) && x.widget == widget;
            let ghost g = |x: Instance<R>| x.widget == widget;
            proof {
                assert(on@ == insts.items().filter(|x: Instance<R>| x.board == home));
                lemma_filter_twice(insts.items(), home, widget);
            }
            if k < on.len() {
                proof {
                    lemma_first_match(on@, widget, k as int);
                }
                Some(on[k].id)
            } else {
                proof {
                    lemma_no_match(on@, widget);
                }
                None
            }
        },
    }
}

/// Filtering by board, then by widget, is filtering by both.
proof fn lemma_filter_twice<R>(s: Seq<Instance<R>>, k: BoardId, w: Panel)
    ensures
        s.filter(|x: Instance<R>| x.board == k).filter(|x: Instance<R>| x.widget == w) == s.filter(
            |x: Instance<R>| x.board == k && x.widget == w,
        ),
    decreases s.len(),
{
    reveal_with_fuel(Seq::<_>::filter, 1);
    if s.len() > 0 {
        lemma_filter_twice(s.drop_last(), k, w);
        let fb = |x: Instance<R>| x.board == k;
        assert(s.filter(fb) == if fb(s.last()) {
            s.drop_last().filter(fb).push(s.last())
        } else {
            s.drop_last().filter(fb)
        });
        if fb(s.last()) {
            assert(s.filter(fb).drop_last() =~= s.drop_last().filter(fb));
        }
    }
}

/// The first element of `s` carrying widget `w` opens `s` filtered by `w`.
proof fn lemma_first_match<R>(s: Seq<Instance<R>>, w: Panel, k: int)
    requires
        0 <= k < s.len(),
        s[k].widget == w,
        forall|j: int| 0 <= j < k ==> s[j].widget != w,
    ensures
        s.filter(|x: Instance<R>| x.widget == w).len() > 0,
        s.filter(|x: Instance<R>| x.widget == w)[0] == s[k],
    decreases s.len(),
{
    reveal_with_fuel(Seq::<_>::filter, 1);
    let g = |x: Instance<R>| x.widget == w;
    if k < s.len() - 1 {
        lemma_first_match(s.drop_last(), w, k);
        assert(s.drop_last()[k] == s[k]);
    } else {
        lemma_no_match(s.drop_last(), w);
    }
}

/// No element carrying `w`: nothing survives the filter.
proof fn lemma_no_match<R>(s: Seq<Instance<R>>, w: Panel)
    requires
        forall|j: int| 0 <= j < s.len() ==> s[j].widget != w,
    ensures
        s.filter(|x: Instance<R>| x.widget == w).len() == 0,
    decreases s.len(),
{
    reveal_with_fuel(Seq::<_>::filter, 1);
    if s.len() > 0 {
        lemma_no_match(s.drop_last(), w);
    }
}

} // verus!

//! A whole `.layaut` file read at once: its base, its boards and its
//! per-screen sections, with every placement in one instance list.
//!
//! The counter the file recorded is reserved FIRST, so every identity
//! handed out afterwards clears the highest one the file ever used, not
//! just the highest one still in it; and a version 1 file's placements
//! are given their identities in file order, the same way on every load.
//! What the four numbers of a rectangle are is the caller's: `rect_of`
//! reads them.

use vstd::prelude::*;
use crate::base::{Panel, Registry};
use crate::text::{chars_of, contains_in, has_infix};
use super::columns::{
    ceiling, columns_view, counter_after, flex_of, kept_columns, parse_flex_into, place, placed_id, text_of,
    FlexText,
};
use super::def::{BoardId, ScreenKey};
use super::instance::{free_from, Instance, InstanceId, InstanceList, GENERATED};
use super::layaut::{
    arm_order, base_number_in, base_screen_of, ids_of, next_instance_word, normalize_boards, number_from,
    defs_of, moves_of, plan_of, relocated, screen_line_from, split_of, split_raw, texts,
};
use super::rects::{home_instance, lines_view, rect_lines, rect_lines_of, screen_target, RectLine};

verus! {

/// How a board section places its panels.
pub enum Arrangement {
    /// By flexbox columns.
    Columns(FlexText),
    /// By rectangles.
    Rects,
}

/// How the base — the home board — places its panels.
pub enum BaseArrangement {
    Columns(FlexText),
    Rects,
    /// Nothing in the file: the arrangement is composed from what is
    /// installed.
    Generated,
}

/// A file read whole.
pub struct ParsedLayaut<R> {
    pub base: BaseArrangement,
    /// The boards, renumbered contiguous from home.
    pub boards: Vec<(BoardId, Arrangement)>,
    /// Each per-screen section: which instance moves, and where to.
    pub overrides: Vec<(ScreenKey, Vec<(InstanceId, R)>)>,
    pub instances: InstanceList<R>,
    /// The screen the base was written on, if it says.
    pub base_screen: Option<ScreenKey>,
}

pub open spec fn column_mark() -> Seq<char> {
    seq!['[', 'c', 'o', 'l', 'u', 'm', 'n', ']']
}

/// The counter a file reserves: its `next_instance`, when that is a
/// promise a file can make.
pub open spec fn reserved(text: Seq<char>) -> u32 {
    match number_from(false, split_of(text).base, next_instance_word()) {
        Some(n) => if 0 < n < GENERATED {
            n
        } else {
            0
        },
        None => 0,
    }
}

/// Whether `ans` is what `rect_of` answered for the rectangle texts
/// `txts` of the lines of `lines`, in order.
pub open spec fn answered_by<R, F: Fn(&str) -> Option<R>>(
    rect_of: F,
    lines: Seq<(Panel, Option<InstanceId>, Seq<char>)>,
    txts: Seq<&str>,
    ans: Seq<Option<R>>,
) -> bool {
    &&& ans.len() == lines.len()
    &&& txts.len() == lines.len()
    &&& forall|i: int|
        0 <= i < ans.len() ==> (#[trigger] txts[i])@ == lines[i].2 && rect_of.ensures((txts[i],), ans[i])
}

/// Whether `ans` is what `rect_of` answered for the rectangle text of
/// each line of `lines`, in order.
pub open spec fn answered<R, F: Fn(&str) -> Option<R>>(
    rect_of: F,
    lines: Seq<(Panel, Option<InstanceId>, Seq<char>)>,
    ans: Seq<Option<R>>,
) -> bool {
    exists|txts: Seq<&str>| answered_by(rect_of, lines, txts, ans)
}

/// The instances and the counter after the lines of a rectangle section
/// are placed on `board`, the line at `i` having read as `ans[i]`: each
/// line that read as a rectangle is placed, in file order, under the
/// identity [`place`] gives it.
pub open spec fn rects_placed<R>(
    lines: Seq<(Panel, Option<InstanceId>, Seq<char>)>,
    ans: Seq<Option<R>>,
    board: BoardId,
    items: Seq<Instance<R>>,
    counter: u32,
) -> (Seq<Instance<R>>, u32)
    decreases lines.len(),
{
    if lines.len() == 0 || ans.len() == 0 {
        (items, counter)
    } else {
        let (i2, c2) = rects_placed(lines.drop_last(), ans.drop_last(), board, items, counter);
        let l = lines.last();
        match ans.last() {
            Some(r) => (
                i2.push(Instance { id: placed_id(i2, c2, l.1), widget: l.0, board, rect: Some(r) }),
                counter_after(i2, c2, l.1),
            ),
            None => (i2, c2),
        }
    }
}

/// The instances and the counter after the base is read into an empty
/// list whose counter is `c0`, its rectangle lines having read as `ab`: a
/// base with a `[column]` is read as flexbox columns, any other as
/// rectangles; a base too long for the identities left places nothing.
pub open spec fn base_read<R>(reg: &Registry, base: Seq<char>, ab: Seq<Option<R>>, c0: u32) -> (
    Seq<Instance<R>>,
    u32,
) {
    if has_infix(base, column_mark()) {
        if base.len() < u32::MAX - GENERATED {
            let st = flex_of(reg, (0i32, 0i32), base, Seq::<Instance<R>>::empty(), c0);
            (st.items, st.counter)
        } else {
            (Seq::empty(), c0)
        }
    } else if rect_lines_of(reg, base).len() < u32::MAX - GENERATED {
        rects_placed(rect_lines_of(reg, base), ab, (0i32, 0i32), Seq::empty(), c0)
    } else {
        (Seq::empty(), c0)
    }
}

/// Whether the base is read as rectangles.
pub open spec fn base_reads_rects(reg: &Registry, base: Seq<char>) -> bool {
    !has_infix(base, column_mark()) && rect_lines_of(reg, base).len() < u32::MAX - GENERATED
}

/// Whether board section `t` is tried as flexbox columns: it has a
/// `[column]`, and the counter has identities left for it.
pub open spec fn tries_columns(t: Seq<char>, counter: u32) -> bool {
    has_infix(t, column_mark()) && ceiling(counter) + t.len() < u32::MAX
}

/// One board section `t`, keyed `k`, read into the list: as flexbox
/// columns when it is tried as such and keeps a column, else as
/// rectangles over whatever the try placed, its lines having read as `a`.
/// The flag says whether its rectangle lines were read.
pub open spec fn board_read<R>(
    reg: &Registry,
    k: BoardId,
    t: Seq<char>,
    a: Seq<Option<R>>,
    items: Seq<Instance<R>>,
    counter: u32,
) -> (Seq<Instance<R>>, u32, bool) {
    let st = flex_of(reg, k, t, items, counter);
    let (i1, c1) = if tries_columns(t, counter) {
        (st.items, st.counter)
    } else {
        (items, counter)
    };
    if tries_columns(t, counter) && kept_columns(st).len() > 0 {
        (i1, c1, false)
    } else if ceiling(c1) + rect_lines_of(reg, t).len() < u32::MAX {
        let (i2, c2) = rects_placed(rect_lines_of(reg, t), a, k, i1, c1);
        (i2, c2, true)
    } else {
        (i1, c1, false)
    }
}

/// The board sections read one after another, section `i`'s rectangle
/// lines having read as `ans[i]`.
pub open spec fn boards_read<R>(
    reg: &Registry,
    secs: Seq<(BoardId, Seq<char>)>,
    ans: Seq<Seq<Option<R>>>,
    items: Seq<Instance<R>>,
    counter: u32,
) -> (Seq<Instance<R>>, u32)
    decreases secs.len(),
{
    if secs.len() == 0 || ans.len() == 0 {
        (items, counter)
    } else {
        let (i2, c2) = boards_read(reg, secs.drop_last(), ans.drop_last(), items, counter);
        let (i3, c3, _) = board_read(reg, secs.last().0, secs.last().1, ans.last(), i2, c2);
        (i3, c3)
    }
}

/// What board section `j` of `secs` is arranged as, the sections before
/// it having been read into `items` and `counter` with their rectangle
/// lines answered as `ans`: flexbox columns, exactly those the flexbox
/// reader keeps, when the section is tried as columns and keeps one;
/// rectangles otherwise.
pub open spec fn board_arranged<R>(
    reg: &Registry,
    secs: Seq<(BoardId, Seq<char>)>,
    ans: Seq<Seq<Option<R>>>,
    items: Seq<Instance<R>>,
    counter: u32,
    j: int,
    a: Arrangement,
) -> bool {
    let prev = boards_read(reg, secs.take(j), ans.take(j), items, counter);
    let t = secs[j].1;
    let st = flex_of(reg, secs[j].0, t, prev.0, prev.1);
    &&& 0 <= j < secs.len()
    &&& if tries_columns(t, prev.1) && kept_columns(st).len() > 0 {
        match a {
            Arrangement::Columns(f) => {
                &&& columns_view(f.columns@) == kept_columns(st)
                &&& f.units_px == st.units_px
                &&& text_of(f.pad_x) == st.pad_x
            },
            Arrangement::Rects => false,
        }
    } else {
        a is Rects
    }
}

proof fn lemma_plan_in_range(ids: Seq<BoardId>, s0: Seq<usize>, s1: Seq<usize>, s2: Seq<usize>, s3: Seq<usize>)
    requires
        arm_order(ids, 0, s0),
        arm_order(ids, 1, s1),
        arm_order(ids, 2, s2),
        arm_order(ids, 3, s3),
    ensures
        forall|q: int| 0 <= q < plan_of(s0, s1, s2, s3).len() ==> (#[trigger] plan_of(s0, s1, s2, s3)[q]).1 < ids.len(),
{
    let p = plan_of(s0, s1, s2, s3);
    let left = Seq::new(s0.len(), |j: int| (((j - s0.len()) as i32, 0i32), s0[s0.len() - 1 - j]));
    let up = if s2.len() > 0 {
        seq![((0i32, -1i32), s2[0])]
    } else {
        Seq::empty()
    };
    let down = if s3.len() > 0 {
        seq![((0i32, 1i32), s3[0])]
    } else {
        Seq::empty()
    };
    let right = Seq::new(s1.len(), |j: int| (((j + 1) as i32, 0i32), s1[j]));
    assert(p == left + up + down + right);
    assert forall|q: int| 0 <= q < p.len() implies (#[trigger] p[q]).1 < ids.len() by {
        if q < left.len() {
            assert(p[q] == left[q]);
            assert(left[q].1 == s0[s0.len() - 1 - q]);
        } else if q < left.len() + up.len() {
            assert(p[q] == up[q - left.len()]);
        } else if q < left.len() + up.len() + down.len() {
            assert(p[q] == down[q - left.len() - up.len()]);
        } else {
            assert(p[q] == right[q - left.len() - up.len() - down.len()]);
        }
    }
}

/// Whether `ans` holds what `rect_of` answered for every board section
/// whose rectangle lines were read.
pub open spec fn boards_answered<R, F: Fn(&str) -> Option<R>>(
    rect_of: F,
    reg: &Registry,
    secs: Seq<(BoardId, Seq<char>)>,
    ans: Seq<Seq<Option<R>>>,
    items: Seq<Instance<R>>,
    counter: u32,
) -> bool
    decreases secs.len(),
{
    &&& ans.len() == secs.len()
    &&& secs.len() > 0 ==> {
        let (i2, c2) = boards_read(reg, secs.drop_last(), ans.drop_last(), items, counter);
        &&& boards_answered(rect_of, reg, secs.drop_last(), ans.drop_last(), items, counter)
        &&& board_read(reg, secs.last().0, secs.last().1, ans.last(), i2, c2).2 ==> answered(
            rect_of,
            rect_lines_of(reg, secs.last().1),
            ans.last(),
        )
    }
}

/// The instances and the counter once the base and the board sections
/// of `text` are read, in file order, before the boards are renumbered.
pub open spec fn file_read<R>(
    reg: &Registry,
    text: Seq<char>,
    ab: Seq<Option<R>>,
    ans: Seq<Seq<Option<R>>>,
) -> (Seq<Instance<R>>, u32) {
    let b0 = base_read(reg, split_of(text).base, ab, reserved(text));
    boards_read(reg, split_of(text).boards, ans, b0.0, b0.1)
}

/// Puts each placement line whose rectangle `rect_of` reads into the
/// list on `board`, in file order. Returns how many were placed, and
/// what `rect_of` answered for each line.
fn place_rects<R: Copy, F: Fn(&str) -> Option<R>>(
    lines: &Vec<RectLine>,
    board: BoardId,
    insts: &mut InstanceList<R>,
    rect_of: F,
) -> (r: (usize, Ghost<Seq<Option<R>>>))
    requires
        old(insts).wf(),
        forall|s: &str| rect_of.requires((s,)),
        ceiling(old(insts).counter()) + lines@.len() < u32::MAX,
    ensures
        final(insts).wf(),
        final(insts).counter() >= old(insts).counter(),
        ceiling(final(insts).counter()) <= ceiling(old(insts).counter()) + lines@.len(),
        r.0 <= lines@.len(),
        final(insts).items().len() == old(insts).items().len() + r.0,
        answered(rect_of, lines_view(lines@), r.1@),
        (final(insts).items(), final(insts).counter()) == rects_placed(
            lines_view(lines@),
            r.1@,
            board,
            old(insts).items(),
            old(insts).counter(),
        ),
{
    let ghost s0 = insts.items();
    let ghost c0 = insts.counter();
    let ghost lv = lines_view(lines@);
    let ghost mut ab: Seq<Option<R>> = Seq::empty();
    let ghost mut txts: Seq<&str> = Seq::empty();
    let mut n: usize = 0;
    let mut i: usize = 0;
    assert(lv.take(0) =~= Seq::<(Panel, Option<InstanceId>, Seq<char>)>::empty());
    while i < lines.len()
        invariant
            i <= lines@.len(),
            n <= i,
            lv == lines_view(lines@),
            insts.wf(),
            forall|s: &str| rect_of.requires((s,)),
            ceiling(insts.counter()) <= ceiling(c0) + i,
            ceiling(c0) + lines@.len() < u32::MAX,
            insts.counter() >= c0,
            insts.items().len() == s0.len() + n,
            answered_by(rect_of, lv.take(i as int), txts, ab),
            (insts.items(), insts.counter()) == rects_placed(lv.take(i as int), ab, board, s0, c0),
        decreases lines.len() - i,
    {
        let l = &lines[i];
        let txt = l.value.as_str();
        let res = rect_of(txt);
        let ghost ab0 = ab;
        let ghost tx0 = txts;
        proof {
            ab = ab.push(res);
            txts = txts.push(txt);
            let t = lv.take(i + 1);
            assert(t.drop_last() =~= lv.take(i as int));
            assert(ab.drop_last() =~= ab0);
            assert(t.last() == (l.widget, l.id, l.value@));
            assert(txt@ == l.value@);
            assert forall|q: int| 0 <= q < ab.len() implies (#[trigger] txts[q])@ == t[q].2 && rect_of.ensures(
                (txts[q],),
                ab[q],
            ) by {
                if q < i {
                    assert(t[q] == lv.take(i as int)[q]);
                    assert(ab[q] == ab0[q]);
                    assert(txts[q] == tx0[q]);
                }
            }
        }
        match res {
            Some(r) => {
                place(insts, l.widget, l.id, board, Some(r));
                n += 1;
            },
            None => {},
        }
        i += 1;
    }
    assert(lv.take(lines@.len() as int) =~= lv);
    assert(answered_by(rect_of, lv, txts, ab));
    (n, Ghost(ab))
}

/// Which instance each line of a per-screen section moves, against the
/// instances `items`: the one it names, or for a line naming only a
/// widget, that widget's first instance on home.
pub open spec fn targets_of<R>(items: Seq<Instance<R>>, lines: Seq<(Panel, Option<InstanceId>, Seq<char>)>) -> Seq<
    Option<InstanceId>,
> {
    lines.map_values(
        |l: (Panel, Option<InstanceId>, Seq<char>)|
            match l.1 {
                Some(i) => Some(i),
                None => home_instance(items, l.0),
            },
    )
}

/// The moves that leave instance `id` alone.
pub open spec fn other_than<R>(id: InstanceId) -> spec_fn((InstanceId, R)) -> bool {
    |e: (InstanceId, R)| e.0 != id
}

/// The moves of a per-screen section whose lines target `targets` and
/// read as `ans`: each line whose rectangle reads and whose instance is
/// found moves that instance there, replacing any earlier move of it.
pub open spec fn screen_moves<R>(targets: Seq<Option<InstanceId>>, ans: Seq<Option<R>>) -> Seq<(InstanceId, R)>
    decreases ans.len(),
{
    if ans.len() == 0 || targets.len() == 0 {
        Seq::empty()
    } else {
        let prev = screen_moves(targets.drop_last(), ans.drop_last());
        match (ans.last(), targets.last()) {
            (Some(r), Some(id)) => prev.filter(other_than(id)).push((id, r)),
            _ => prev,
        }
    }
}

/// Whether `ov` is what the per-screen sections `secs` read as against
/// the instances `items`, section `j`'s lines having read through
/// `rect_of` as `sa[j]`: each section keeps its screen key, and its moves
/// are [`screen_moves`] of its placement lines.
pub open spec fn overrides_read<R, F: Fn(&str) -> Option<R>>(
    rect_of: F,
    reg: &Registry,
    secs: Seq<(ScreenKey, Seq<char>)>,
    items: Seq<Instance<R>>,
    sa: Seq<Seq<Option<R>>>,
    ov: Seq<(ScreenKey, Vec<(InstanceId, R)>)>,
) -> bool {
    &&& ov.len() == secs.len()
    &&& sa.len() == secs.len()
    &&& forall|j: int|
        0 <= j < secs.len() ==> {
            &&& (#[trigger] ov[j]).0 == secs[j].0
            &&& answered(rect_of, rect_lines_of(reg, secs[j].1), sa[j])
            &&& ov[j].1@ == screen_moves(targets_of(items, rect_lines_of(reg, secs[j].1)), sa[j])
        }
}

pub open spec fn moves_once<R>(m: Seq<(InstanceId, R)>) -> bool {
    forall|a: int, b: int| 0 <= a < b < m.len() ==> m[a].0 != m[b].0
}

proof fn lemma_filter_keeps_once<R>(m: Seq<(InstanceId, R)>, id: InstanceId)
    requires
        moves_once(m),
    ensures
        moves_once(m.filter(other_than::<R>(id))),
        forall|k: int|
            0 <= k < m.filter(other_than::<R>(id)).len() ==> #[trigger] m.filter(other_than::<R>(id))[k].0 != id
                && m.contains(m.filter(other_than::<R>(id))[k]),
    decreases m.len(),
{
    reveal(Seq::filter);
    if m.len() > 0 {
        let d = m.drop_last();
        assert forall|a: int, b: int| 0 <= a < b < d.len() implies d[a].0 != d[b].0 by {
            assert(d[a] == m[a] && d[b] == m[b]);
        }
        lemma_filter_keeps_once(d, id);
        let fd = d.filter(other_than::<R>(id));
        let f = m.filter(other_than::<R>(id));
        assert forall|k: int| 0 <= k < fd.len() implies m.contains(#[trigger] fd[k]) by {
            let c = choose|c: int| 0 <= c < d.len() && d[c] == fd[k];
            assert(m[c] == d[c]);
        }
        if m.last().0 != id {
            assert(f == fd.push(m.last()));
            assert forall|k: int| 0 <= k < fd.len() implies (#[trigger] fd[k]).0 != m.last().0 by {
                let c = choose|c: int| 0 <= c < d.len() && d[c] == fd[k];
                assert(m[c] == d[c]);
            }
            assert(m.contains(m.last())) by {
                assert(m[m.len() - 1] == m.last());
            }
        } else {
            assert(f == fd);
        }
    }
}

/// A per-screen section moves each instance at most once: a later line
/// for an instance replaces the move an earlier one made.
pub proof fn law_a_screen_moves_each_instance_once<R>(targets: Seq<Option<InstanceId>>, ans: Seq<Option<R>>)
    ensures
        moves_once(screen_moves(targets, ans)),
    decreases ans.len(),
{
    if ans.len() > 0 && targets.len() > 0 {
        law_a_screen_moves_each_instance_once(targets.drop_last(), ans.drop_last());
        let prev = screen_moves(targets.drop_last(), ans.drop_last());
        match (ans.last(), targets.last()) {
            (Some(r), Some(id)) => {
                lemma_filter_keeps_once(prev, id);
                let f = prev.filter(other_than::<R>(id));
                let m = f.push((id, r));
                assert forall|a: int, b: int| 0 <= a < b < m.len() implies m[a].0 != m[b].0 by {
                    if b == m.len() - 1 {
                        assert(m[a] == f[a]);
                    } else {
                        assert(m[a] == f[a] && m[b] == f[b]);
                    }
                }
            },
            _ => {},
        }
    }
}

/// One per-screen section: which instance each line moves, and where to.
/// A later line for the same instance replaces an earlier one, so no
/// instance is moved twice.
fn screen_rects<R: Copy, F: Fn(&str) -> Option<R>>(
    lines: &Vec<RectLine>,
    insts: &InstanceList<R>,
    rect_of: &F,
) -> (r: (Vec<(InstanceId, R)>, Ghost<Seq<Option<R>>>))
    requires
        forall|s: &str| rect_of.requires((s,)),
    ensures
        answered(rect_of, lines_view(lines@), r.1@),
        r.0@ == screen_moves(targets_of(insts.items(), lines_view(lines@)), r.1@),
        r.0@.len() <= lines@.len(),
        forall|a: int, b: int| 0 <= a < b < r.0@.len() ==> r.0@[a].0 != r.0@[b].0,
{
    let ghost lv = lines_view(lines@);
    let ghost tg = targets_of(insts.items(), lv);
    let ghost mut ab: Seq<Option<R>> = Seq::empty();
    let ghost mut txts: Seq<&str> = Seq::empty();
    let mut out: Vec<(InstanceId, R)> = Vec::new();
    let mut i: usize = 0;
    assert(lv.take(0) =~= Seq::<(Panel, Option<InstanceId>, Seq<char>)>::empty());
    while i < lines.len()
        invariant
            i <= lines@.len(),
            out@.len() <= i,
            lv == lines_view(lines@),
            tg == targets_of(insts.items(), lv),
            forall|s: &str| rect_of.requires((s,)),
            forall|a: int, b: int| 0 <= a < b < out@.len() ==> out@[a].0 != out@[b].0,
            answered_by(rect_of, lv.take(i as int), txts, ab),
            out@ == screen_moves(tg.take(i as int), ab),
        decreases lines.len() - i,
    {
        let l = &lines[i];
        let txt = l.value.as_str();
        let res = rect_of(txt);
        let ghost ab0 = ab;
        let ghost tx0 = txts;
        let ghost prev = out@;
        proof {
            ab = ab.push(res);
            txts = txts.push(txt);
            let t = lv.take(i + 1);
            assert(t.drop_last() =~= lv.take(i as int));
            assert(ab.drop_last() =~= ab0);
            assert(t.last() == (l.widget, l.id, l.value@));
            assert(txt@ == l.value@);
            assert forall|q: int| 0 <= q < ab.len() implies (#[trigger] txts[q])@ == t[q].2 && rect_of.ensures(
                (txts[q],),
                ab[q],
            ) by {
                if q < i {
                    assert(t[q] == lv.take(i as int)[q]);
                    assert(ab[q] == ab0[q]);
                    assert(txts[q] == tx0[q]);
                }
            }
            assert(tg.take(i + 1).drop_last() =~= tg.take(i as int));
            assert(lv[i as int] == (l.widget, l.id, l.value@));
            assert(tg.take(i + 1).last() == tg[i as int]);
        }
        if let Some(rect) = res {
            let target = screen_target(insts, l.widget, l.id);
            assert(target == tg[i as int]);
            if let Some(id) = target {
                let mut kept: Vec<(InstanceId, R)> = Vec::new();
                let mut j: usize = 0;
                assert(out@.take(0) =~= Seq::<(InstanceId, R)>::empty());
                while j < out.len()
                    invariant
                        j <= out@.len(),
                        kept@.len() <= j,
                        forall|a: int, b: int| 0 <= a < b < out@.len() ==> out@[a].0 != out@[b].0,
                        forall|a: int| 0 <= a < kept@.len() ==> kept@[a].0 != id,
                        forall|a: int, b: int| 0 <= a < b < kept@.len() ==> kept@[a].0 != kept@[b].0,
                        forall|a: int|
                            0 <= a < kept@.len() ==> exists|c: int| 0 <= c < j && out@[c] == #[trigger] kept@[a],
                        kept@ == out@.take(j as int).filter(other_than::<R>(id)),
                    decreases out.len() - j,
                {
                    let e = out[j];
                    proof {
                        reveal(Seq::filter);
                        assert(out@.take(j + 1).drop_last() =~= out@.take(j as int));
                        assert(out@.take(j + 1).last() == e);
                    }
                    if e.0 != id {
                        proof {
                            assert forall|a: int| 0 <= a < kept@.len() implies kept@[a].0 != e.0 by {
                                let c = choose|c: int| 0 <= c < j && out@[c] == kept@[a];
                            }
                        }
                        kept.push(e);
                        proof {
                            assert forall|a: int|
                                0 <= a < kept@.len() implies exists|c: int| 0 <= c < j + 1 && out@[c] == #[trigger] kept@[a] by {
                                if a == kept@.len() - 1 {
                                    assert(out@[j as int] == kept@[a]);
                                } else {
                                    let c = choose|c: int| 0 <= c < j && out@[c] == kept@[a];
                                }
                            }
                        }
                    }
                    j += 1;
                }
                assert(out@.take(out@.len() as int) =~= out@);
                kept.push((id, rect));
                out = kept;
            }
        }
        i += 1;
    }
    assert(lv.take(lines@.len() as int) =~= lv);
    assert(tg.take(lines@.len() as int) =~= tg);
    assert(answered_by(rect_of, lv, txts, ab));
    (out, Ghost(ab))
}

/// Reads a whole `.layaut` file of either grammar: version 2 as it is
/// written, version 1 by giving each placement a fresh identity in file
/// order. `rect_of` reads the four numbers of a rectangle.
///
/// A section too long for the identities left to the counter is read as
/// no placements at all.
pub fn parse_file<R: Copy, F: Fn(&str) -> Option<R>>(reg: &Registry, text: &str, rect_of: F) -> (r:
    ParsedLayaut<R>)
    requires
        forall|s: &str| rect_of.requires((s,)),
    ensures
        r.instances.wf(),
        r.instances.counter() >= reserved(text@),
        r.base_screen == screen_line_from(split_of(text@).base),
        match r.base {
            BaseArrangement::Columns(f) => {
                &&& has_infix(split_of(text@).base, column_mark())
                &&& columns_view(f.columns@) == kept_columns(
                    flex_of(reg, (0i32, 0i32), split_of(text@).base, Seq::<Instance<R>>::empty(), reserved(text@)),
                )
                &&& f.columns@.len() > 0
                &&& f.units_px == flex_of(
                    reg,
                    (0i32, 0i32),
                    split_of(text@).base,
                    Seq::<Instance<R>>::empty(),
                    reserved(text@),
                ).units_px
                &&& text_of(f.pad_x) == flex_of(
                    reg,
                    (0i32, 0i32),
                    split_of(text@).base,
                    Seq::<Instance<R>>::empty(),
                    reserved(text@),
                ).pad_x
            },
            BaseArrangement::Rects => base_reads_rects(reg, split_of(text@).base),
            BaseArrangement::Generated => has_infix(split_of(text@).base, column_mark()) ==> (
            split_of(text@).base.len() + GENERATED >= u32::MAX || kept_columns(
                flex_of(reg, (0i32, 0i32), split_of(text@).base, Seq::<Instance<R>>::empty(), reserved(text@)),
            ).len() == 0),
        },
        exists|ab: Seq<Option<R>>, ans: Seq<Seq<Option<R>>>|
            #![trigger file_read(reg, text@, ab, ans)]
            {
                &&& base_reads_rects(reg, split_of(text@).base) ==> answered(
                    &rect_of,
                    rect_lines_of(reg, split_of(text@).base),
                    ab,
                )
                &&& boards_answered(
                    &rect_of,
                    reg,
                    split_of(text@).boards,
                    ans,
                    base_read(reg, split_of(text@).base, ab, reserved(text@)).0,
                    base_read(reg, split_of(text@).base, ab, reserved(text@)).1,
                )
                &&& (r.base is Rects) == (base_reads_rects(reg, split_of(text@).base) && base_read(
                    reg,
                    split_of(text@).base,
                    ab,
                    reserved(text@),
                ).0.len() > 0)
                &&& r.instances.counter() == file_read(reg, text@, ab, ans).1
                &&& split_of(text@).boards.len() >= i32::MAX ==> r.instances.items() == file_read(
                    reg,
                    text@,
                    ab,
                    ans,
                ).0
                &&& split_of(text@).boards.len() < i32::MAX ==> exists|
                    s0: Seq<usize>,
                    s1: Seq<usize>,
                    s2: Seq<usize>,
                    s3: Seq<usize>,
                |
                    #![trigger plan_of(s0, s1, s2, s3)]
                    {
                        &&& arm_order(ids_of(split_of(text@).boards), 0, s0)
                        &&& arm_order(ids_of(split_of(text@).boards), 1, s1)
                        &&& arm_order(ids_of(split_of(text@).boards), 2, s2)
                        &&& arm_order(ids_of(split_of(text@).boards), 3, s3)
                        &&& ids_of(r.boards@) == plan_of(s0, s1, s2, s3).map_values(
                            |e: (BoardId, usize)| e.0,
                        )
                        &&& forall|q: int|
                            0 <= q < r.boards@.len() ==> board_arranged(
                                reg,
                                split_of(text@).boards,
                                ans,
                                base_read(reg, split_of(text@).base, ab, reserved(text@)).0,
                                base_read(reg, split_of(text@).base, ab, reserved(text@)).1,
                                plan_of(s0, s1, s2, s3)[q].1 as int,
                                #[trigger] r.boards@[q].1,
                            )
                        &&& r.instances.items() == relocated(
                            file_read(reg, text@, ab, ans).0,
                            moves_of(ids_of(split_of(text@).boards), s0, s1, s2, s3),
                        )
                    }
            },
        exists|sa: Seq<Seq<Option<R>>>|
            #![trigger overrides_read(&rect_of, reg, split_of(text@).screens, r.instances.items(), sa, r.overrides@)]
            overrides_read(&rect_of, reg, split_of(text@).screens, r.instances.items(), sa, r.overrides@),
{
    let (base_text, screens, board_texts) = split_raw(text);
    let mut insts: InstanceList<R> = InstanceList::new();
    let key: Vec<char> = vec!['n', 'e', 'x', 't', '_', 'i', 'n', 's', 't', 'a', 'n', 'c', 'e'];
    assert(key@ == next_instance_word());
    let bv = chars_of(base_text.as_str());
    if let Some(n) = base_number_in(&bv, &key) {
        insts.reserve_up_to(n);
    }
    assert(insts.counter() == reserved(text@));
    assert(insts.items() =~= Seq::<Instance<R>>::empty());
    let mark: Vec<char> = vec!['[', 'c', 'o', 'l', 'u', 'm', 'n', ']'];
    assert(mark@ == column_mark());
    let ghost base_v = split_of(text@).base;
    let ghost c0 = reserved(text@);
    let ghost mut ab: Seq<Option<R>> = Seq::empty();
    let base = if contains_in(&bv, &mark) {
        if (bv.len() as u64) < (u32::MAX - GENERATED) as u64 {
            match parse_flex_into(reg, base_text.as_str(), (0, 0), &mut insts) {
                Some(f) => BaseArrangement::Columns(f),
                None => BaseArrangement::Generated,
            }
        } else {
            BaseArrangement::Generated
        }
    } else {
        let lines = rect_lines(reg, base_text.as_str());
        if (lines.len() as u64) < (u32::MAX - GENERATED) as u64 {
            let (n, Ghost(a)) = place_rects(&lines, (0, 0), &mut insts, &rect_of);
            proof {
                ab = a;
            }
            if n > 0 {
                BaseArrangement::Rects
            } else {
                BaseArrangement::Generated
            }
        } else {
            BaseArrangement::Generated
        }
    };
    let ghost b0 = base_read(reg, base_v, ab, c0);
    assert(insts.items() == b0.0 && insts.counter() == b0.1);
    let ghost secs = split_of(text@).boards;
    let ghost mut ans: Seq<Seq<Option<R>>> = Seq::empty();
    assert(secs.take(0) =~= Seq::<(BoardId, Seq<char>)>::empty());
    // The boards, each read into the same list, then renumbered.
    let mut raw: Vec<(BoardId, Arrangement)> = Vec::new();
    let mut i: usize = 0;
    while i < board_texts.len()
        invariant
            i <= board_texts@.len(),
            raw@.len() == i,
            insts.wf(),
            insts.counter() >= reserved(text@),
            forall|s: &str| rect_of.requires((s,)),
            forall|k: int| 0 <= k < i ==> (#[trigger] raw@[k]).0 == board_texts@[k].0,
            secs == texts(board_texts@),
            mark@ == column_mark(),
            ans.len() == i,
            (insts.items(), insts.counter()) == boards_read(reg, secs.take(i as int), ans, b0.0, b0.1),
            boards_answered(&rect_of, reg, secs.take(i as int), ans, b0.0, b0.1),
            forall|q: int| 0 <= q < i ==> board_arranged(reg, secs, ans, b0.0, b0.1, q, #[trigger] raw@[q].1),
        decreases board_texts.len() - i,
    {
        let ghost items_i = insts.items();
        let ghost count_i = insts.counter();
        let ghost mut a_i: Seq<Option<R>> = Seq::empty();
        let k = board_texts[i].0;
        let t = board_texts[i].1.as_str();
        let tv = chars_of(t);
        let room = if insts.next_free() < GENERATED {
            GENERATED as u64
        } else {
            insts.next_free() as u64
        };
        assert(room == ceiling(count_i));
        let tries = contains_in(&tv, &mark) && (tv.len() as u64) < (u32::MAX as u64) - room;
        assert(tries == tries_columns(t@, count_i));
        let ghost st = flex_of(reg, k, t@, items_i, count_i);
        let mut mode = Arrangement::Rects;
        let mut kept = false;
        if tries {
            match parse_flex_into(reg, t, k, &mut insts) {
                Some(f) => {
                    mode = Arrangement::Columns(f);
                    kept = true;
                },
                None => {},
            }
        }
        let ghost i1 = insts.items();
        let ghost c1 = insts.counter();
        assert((i1, c1) == (if tries_columns(t@, count_i) {
            (st.items, st.counter)
        } else {
            (items_i, count_i)
        }));
        assert(kept == (tries_columns(t@, count_i) && kept_columns(st).len() > 0));
        if !kept {
            let lines = rect_lines(reg, t);
            let ceil = if insts.next_free() < GENERATED {
                GENERATED as u64
            } else {
                insts.next_free() as u64
            };
            assert(ceil == ceiling(c1));
            if (lines.len() as u64) < (u32::MAX as u64) - ceil {
                let (_, Ghost(a)) = place_rects(&lines, k, &mut insts, &rect_of);
                proof {
                    a_i = a;
                }
            }
        }
        assert(board_read(reg, k, t@, a_i, items_i, count_i).0 == insts.items());
        assert(board_read(reg, k, t@, a_i, items_i, count_i).1 == insts.counter());
        assert(board_read(reg, k, t@, a_i, items_i, count_i).2 ==> answered(
            &rect_of,
            rect_lines_of(reg, t@),
            a_i,
        ));
        proof {
            let ans0 = ans;
            ans = ans.push(a_i);
            let t2 = secs.take(i + 1);
            assert(texts(board_texts@)[i as int] == (k, t@));
            assert(t2.drop_last() =~= secs.take(i as int));
            assert(t2.last() == (k, t@));
            assert(ans.drop_last() =~= ans0);
            assert(ans.take(i as int) =~= ans0);
            assert(secs[i as int] == (k, t@));
        }
        let ghost raw0 = raw@;
        raw.push((k, mode));
        proof {
            assert forall|q: int| 0 <= q < i + 1 implies board_arranged(reg, secs, ans, b0.0, b0.1, q, #[trigger] raw@[q].1) by {
                if q < i {
                    assert(raw@[q] == raw0[q]);
                    assert(ans.take(q) =~= ans.drop_last().take(q));
                    assert(board_arranged(reg, secs, ans.drop_last(), b0.0, b0.1, q, raw0[q].1));
                } else {
                    assert(raw@[q] == (k, mode));
                }
            }
        }
        i += 1;
    }
    assert(secs.take(board_texts@.len() as int) =~= secs);
    assert(file_read(reg, text@, ab, ans) == (insts.items(), insts.counter()));
    assert(ids_of(raw@) =~= ids_of(split_of(text@).boards)) by {
        assert forall|q: int| 0 <= q < raw@.len() implies ids_of(raw@)[q] == ids_of(split_of(text@).boards)[q] by {
            assert(texts(board_texts@)[q].0 == board_texts@[q].0);
        }
    }
    let ghost raw_v = raw@;
    let ghost old_items = insts.items();
    let boards = if raw.len() < i32::MAX as usize {
        let b = normalize_boards(raw, &mut insts);
        proof {
            let (s0, s1, s2, s3) = choose|s0: Seq<usize>, s1: Seq<usize>, s2: Seq<usize>, s3: Seq<usize>|
                #![trigger plan_of(s0, s1, s2, s3)]
                {
                    &&& arm_order(ids_of(raw_v), 0, s0)
                    &&& arm_order(ids_of(raw_v), 1, s1)
                    &&& arm_order(ids_of(raw_v), 2, s2)
                    &&& arm_order(ids_of(raw_v), 3, s3)
                    &&& b@ == plan_of(s0, s1, s2, s3).map_values(
                        |e: (BoardId, usize)| (e.0, defs_of(raw_v)[e.1 as int]),
                    )
                    &&& insts.items() == relocated(
                        old_items,
                        moves_of(ids_of(raw_v), s0, s1, s2, s3),
                    )
                };
            assert(ids_of(b@) =~= plan_of(s0, s1, s2, s3).map_values(|e: (BoardId, usize)| e.0));
            lemma_plan_in_range(ids_of(raw_v), s0, s1, s2, s3);
            assert forall|q: int| 0 <= q < b@.len() implies board_arranged(
                reg,
                secs,
                ans,
                b0.0,
                b0.1,
                plan_of(s0, s1, s2, s3)[q].1 as int,
                #[trigger] b@[q].1,
            ) by {
                let e = plan_of(s0, s1, s2, s3)[q];
                assert(e.1 < raw_v.len());
                assert(b@[q].1 == defs_of(raw_v)[e.1 as int]);
                assert(defs_of(raw_v)[e.1 as int] == raw_v[e.1 as int].1);
            }
        }
        b
    } else {
        Vec::new()
    };
    // The per-screen sections, against the instances as they now stand.
    let ghost scr = split_of(text@).screens;
    let ghost mut sa: Seq<Seq<Option<R>>> = Seq::empty();
    let mut overrides: Vec<(ScreenKey, Vec<(InstanceId, R)>)> = Vec::new();
    let mut j: usize = 0;
    while j < screens.len()
        invariant
            j <= screens@.len(),
            overrides@.len() == j,
            sa.len() == j,
            scr == texts(screens@),
            forall|s: &str| rect_of.requires((s,)),
            forall|q: int|
                0 <= q < j ==> {
                    &&& (#[trigger] overrides@[q]).0 == scr[q].0
                    &&& answered(&rect_of, rect_lines_of(reg, scr[q].1), sa[q])
                    &&& overrides@[q].1@ == screen_moves(targets_of(insts.items(), rect_lines_of(reg, scr[q].1)), sa[q])
                },
        decreases screens.len() - j,
    {
        let lines = rect_lines(reg, screens[j].1.as_str());
        let (rects, Ghost(a)) = screen_rects(&lines, &insts, &rect_of);
        proof {
            assert(scr[j as int] == (screens@[j as int].0, screens@[j as int].1@));
        }
        let ghost ov0 = overrides@;
        let ghost sa0 = sa;
        overrides.push((screens[j].0, rects));
        proof {
            sa = sa.push(a);
            assert forall|q: int|
                0 <= q < j + 1 implies {
                    &&& (#[trigger] overrides@[q]).0 == scr[q].0
                    &&& answered(&rect_of, rect_lines_of(reg, scr[q].1), sa[q])
                    &&& overrides@[q].1@ == screen_moves(targets_of(insts.items(), rect_lines_of(reg, scr[q].1)), sa[q])
                } by {
                if q < j {
                    assert(overrides@[q] == ov0[q]);
                    assert(sa[q] == sa0[q]);
                }
            }
        }
        j += 1;
    }
    assert(overrides_read(&rect_of, reg, scr, insts.items(), sa, overrides@));
    let base_screen = base_screen_of(base_text.as_str());
    let r = ParsedLayaut { base, boards, overrides, instances: insts, base_screen };
    assert(overrides_read(&rect_of, reg, split_of(text@).screens, r.instances.items(), sa, r.overrides@));
    r
}

} // verus!

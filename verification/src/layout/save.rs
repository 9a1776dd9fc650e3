//! Writing a layout back: the home board's placements, the per-screen
//! sections and the board sections, in the text the reader takes, and
//! what that text reads back as. How a rectangle's numbers are written is
//! the caller's to say, as the `write` closure.

use vstd::prelude::*;
use crate::base::{Panel, Registry};
use crate::text::{
    after_line, all_digits, decimal, find, first_line, is_ws, lemma_find, lemma_find_bound, lemma_trim_push_ws,
    lemma_trimmed, push_char, push_decimal, push_str,
};
use crate::seqs::first_index;
use super::columns::FlexText;
use super::def::{BoardId, ScreenKey};
use super::file::Arrangement;
use super::instance::{free_from, Instance, InstanceId, InstanceList, GENERATED};
use super::rects::{rect_line_of, rect_lines_of};
use super::layaut::{
    clean_placement_of, comment_at, equals, is_ascii_ws, law_a_written_token_reads_back,
    lemma_decimal_reads_back, next_free_line, next_instance_word, ref_of, screen_word, serialize_header, token,
    token_of, version_line, version_word, board_header_of, board_word, bracketed, res_header_of, screen_of,
};
use crate::text::{
    digits_val, is_digit, lead_word, lead_ws, lemma_lead_word, lemma_lead_ws, lemma_trail_ws, parse_i32,
    trail_ws, trim, trim_start, unsigned_digits, words,
};

verus! {

/// One placement line: `<token> = <rectangle>`.
pub open spec fn placement_line(reg: &Registry, widget: Panel, id: InstanceId, txt: Seq<char>) -> Seq<
    char,
> {
    token_of(reg, widget, id) + " = "@ + txt + seq!['\n']
}

/// Whether `outs[i]` is what `write` gave for the rectangle of `insts[i]`,
/// for each instance that stands in one.
pub open spec fn written_by<R, W: Fn(R) -> String>(
    write: W,
    insts: Seq<Instance<R>>,
    outs: Seq<String>,
) -> bool {
    &&& outs.len() == insts.len()
    &&& forall|i: int|
        0 <= i < insts.len() && (#[trigger] insts[i]).rect is Some ==> write.ensures(
            (insts[i].rect->0,),
            outs[i],
        )
}

/// The rectangle lines of `insts`: one for each instance standing in a
/// rectangle, in order, its rectangle written as `outs[i]`.
pub open spec fn rect_lines_text<R>(reg: &Registry, insts: Seq<Instance<R>>, outs: Seq<String>) -> Seq<
    char,
>
    decreases insts.len(),
{
    if insts.len() == 0 {
        Seq::empty()
    } else {
        let k = insts.len() - 1;
        rect_lines_text(reg, insts.drop_last(), outs.drop_last()) + match insts[k].rect {
            Some(_) => placement_line(reg, insts[k].widget, insts[k].id, outs[k]@),
            None => Seq::empty(),
        }
    }
}

/// The opening comment of a saved base.
pub open spec fn saved_comment() -> Seq<char> {
    "# nacelle-desktop layout saved from the grid editor.\n# Format: <widget>#<instance> = x y w h (percent of the window).\n"@
}

/// `w` `x` `h` `@` `d`: how a screen is named.
pub open spec fn screen_name(key: ScreenKey) -> Seq<char> {
    decimal(key.0 as nat) + seq!['x'] + decimal(key.1 as nat) + seq!['@'] + decimal(key.2 as nat)
}

/// The line recording the screen a base was made on.
pub open spec fn screen_text(key: ScreenKey) -> Seq<char> {
    "screen = "@ + screen_name(key) + seq!['\n']
}

/// The instances standing on the home board, in placement order.
pub open spec fn home_of<R>(items: Seq<Instance<R>>) -> Seq<Instance<R>> {
    items.filter(|x: Instance<R>| x.board == (0i32, 0i32))
}

fn push_screen_name(out: &mut String, key: ScreenKey)
    ensures
        final(out)@ == old(out)@ + screen_name(key),
{
    let ghost o = out@;
    push_decimal(out, key.0 as u64);
    push_char(out, 'x');
    push_decimal(out, key.1 as u64);
    push_char(out, '@');
    push_decimal(out, key.2 as u64);
    assert(out@ =~= o + screen_name(key));
}

fn push_placement(out: &mut String, reg: &Registry, widget: Panel, id: InstanceId, txt: &String)
    ensures
        final(out)@ == old(out)@ + placement_line(reg, widget, id, txt@),
{
    let ghost o = out@;
    let t = token(reg, widget, id);
    push_str(out, t.as_str());
    push_str(out, " = ");
    push_str(out, txt.as_str());
    push_char(out, '\n');
    assert(out@ =~= o + placement_line(reg, widget, id, txt@));
}

fn push_rect_lines<R: Copy, W: Fn(R) -> String>(
    out: &mut String,
    reg: &Registry,
    insts: &Vec<Instance<R>>,
    write: &W,
) -> (outs: Ghost<Seq<String>>)
    requires
        forall|x: R| write.requires((x,)),
    ensures
        written_by(*write, insts@, outs@),
        final(out)@ == old(out)@ + rect_lines_text(reg, insts@, outs@),
{
    let ghost o = out@;
    let ghost mut outs: Seq<String> = Seq::empty();
    let mut i: usize = 0;
    assert(insts@.take(0) =~= Seq::<Instance<R>>::empty());
    while i < insts.len()
        invariant
            i <= insts@.len(),
            forall|x: R| write.requires((x,)),
            written_by(*write, insts@.take(i as int), outs),
            out@ == o + rect_lines_text(reg, insts@.take(i as int), outs),
        decreases insts.len() - i,
    {
        let x = insts[i];
        let ghost outs0 = outs;
        let ghost t = insts@.take(i + 1);
        assert(t.drop_last() =~= insts@.take(i as int));
        assert(t[i as int] == x);
        match x.rect {
            Some(r) => {
                let s = write(r);
                push_placement(out, reg, x.widget, x.id, &s);
                proof {
                    outs = outs.push(s);
                }
            },
            None => {
                proof {
                    outs = outs.push(vstd::pervasive::arbitrary());
                }
            },
        }
        proof {
            assert(outs.drop_last() =~= outs0);
            assert forall|k: int| 0 <= k < t.len() && (#[trigger] t[k]).rect is Some implies write.ensures(
                (t[k].rect->0,),
                outs[k],
            ) by {
                if k < i {
                    assert(t[k] == insts@.take(i as int)[k]);
                    assert(outs[k] == outs0[k]);
                }
            }
        }
        i += 1;
    }
    assert(insts@.take(insts@.len() as int) =~= insts@);
    Ghost(outs)
}

/// The home board written as the base of a file: the opening comment,
/// the `version` and `next_instance` lines, the screen it was made on,
/// then one line for each home instance standing in a rectangle, in
/// placement order, its rectangle as `write` puts it.
pub fn serialize_base<R: Copy, W: Fn(R) -> String>(
    reg: &Registry,
    insts: &InstanceList<R>,
    key: ScreenKey,
    write: W,
) -> (r: String)
    requires
        forall|x: R| write.requires((x,)),
    ensures
        exists|outs: Seq<String>|
            #![trigger written_by(write, home_of(insts.items()), outs)]
            {
                &&& written_by(write, home_of(insts.items()), outs)
                &&& r@ == saved_comment() + version_line() + next_free_line(free_from(insts.counter()))
                    + screen_text(key) + rect_lines_text(reg, home_of(insts.items()), outs)
            },
{
    let mut out = String::new();
    push_str(
        &mut out,
        "# nacelle-desktop layout saved from the grid editor.\n# Format: <widget>#<instance> = x y w h (percent of the window).\n",
    );
    serialize_header(&mut out, insts);
    push_str(&mut out, "screen = ");
    push_screen_name(&mut out, key);
    push_char(&mut out, '\n');
    let ghost head = out@;
    let home = insts.on_board((0, 0));
    proof {
        let k: (i32, i32) = (0i32, 0i32);
        assert((|x: Instance<R>| x.board == k) =~= (|x: Instance<R>| x.board == (0i32, 0i32)));
    }
    assert(home@ == home_of(insts.items()));
    let outs = push_rect_lines(&mut out, reg, &home, &write);
    assert(out@ =~= saved_comment() + version_line() + next_free_line(free_from(insts.counter()))
        + screen_text(key) + rect_lines_text(reg, home_of(insts.items()), outs@));
    out
}


/// The widget of the instance `l` holds under `id`.
pub open spec fn widget_of<R>(l: &InstanceList<R>, id: InstanceId) -> Panel {
    l.items()[first_index(l.ids(), id) as int].widget
}

/// Whether `outs[i]` is what `write` gave for the rectangle of `moves[i]`,
/// for each move whose instance `l` holds.
pub open spec fn moves_written_by<R, W: Fn(R) -> String>(
    write: W,
    l: &InstanceList<R>,
    moves: Seq<(InstanceId, R)>,
    outs: Seq<String>,
) -> bool {
    &&& outs.len() == moves.len()
    &&& forall|i: int|
        0 <= i < moves.len() && l.holds((#[trigger] moves[i]).0) ==> write.ensures((moves[i].1,), outs[i])
}

/// The lines of a per-screen section: one for each move whose instance
/// `l` still holds, in order; a move of an instance the layout no longer
/// places is dropped.
pub open spec fn override_lines<R>(
    reg: &Registry,
    l: &InstanceList<R>,
    moves: Seq<(InstanceId, R)>,
    outs: Seq<String>,
) -> Seq<char>
    decreases moves.len(),
{
    if moves.len() == 0 {
        Seq::empty()
    } else {
        let k = moves.len() - 1;
        override_lines(reg, l, moves.drop_last(), outs.drop_last()) + if l.holds(moves[k].0) {
            placement_line(reg, widget_of(l, moves[k].0), moves[k].0, outs[k]@)
        } else {
            Seq::empty()
        }
    }
}

/// A section's heading, after a blank line: `[WxH@D]`.
pub open spec fn section_head(key: ScreenKey) -> Seq<char> {
    seq!['\n', '['] + screen_name(key) + seq![']', '\n']
}

pub open spec fn sections_written_by<R, W: Fn(R) -> String>(
    write: W,
    l: &InstanceList<R>,
    secs: Seq<(ScreenKey, Vec<(InstanceId, R)>)>,
    outs: Seq<Seq<String>>,
) -> bool {
    &&& outs.len() == secs.len()
    &&& forall|i: int| 0 <= i < secs.len() ==> moves_written_by(write, l, (#[trigger] secs[i]).1@, outs[i])
}

/// The per-screen sections, each its heading and then its lines.
pub open spec fn sections_text<R>(
    reg: &Registry,
    l: &InstanceList<R>,
    secs: Seq<(ScreenKey, Vec<(InstanceId, R)>)>,
    outs: Seq<Seq<String>>,
) -> Seq<char>
    decreases secs.len(),
{
    if secs.len() == 0 {
        Seq::empty()
    } else {
        let k = secs.len() - 1;
        sections_text(reg, l, secs.drop_last(), outs.drop_last()) + section_head(secs[k].0)
            + override_lines(reg, l, secs[k].1@, outs[k])
    }
}

fn push_override_lines<R: Copy, W: Fn(R) -> String>(
    out: &mut String,
    reg: &Registry,
    moves: &Vec<(InstanceId, R)>,
    insts: &InstanceList<R>,
    write: &W,
) -> (outs: Ghost<Seq<String>>)
    requires
        forall|x: R| write.requires((x,)),
    ensures
        moves_written_by(*write, insts, moves@, outs@),
        final(out)@ == old(out)@ + override_lines(reg, insts, moves@, outs@),
{
    let ghost o = out@;
    let ghost mut outs: Seq<String> = Seq::empty();
    let mut i: usize = 0;
    assert(moves@.take(0) =~= Seq::<(InstanceId, R)>::empty());
    while i < moves.len()
        invariant
            i <= moves@.len(),
            forall|x: R| write.requires((x,)),
            moves_written_by(*write, insts, moves@.take(i as int), outs),
            out@ == o + override_lines(reg, insts, moves@.take(i as int), outs),
        decreases moves.len() - i,
    {
        let (id, r) = moves[i];
        let ghost outs0 = outs;
        let ghost t = moves@.take(i + 1);
        assert(t.drop_last() =~= moves@.take(i as int));
        assert(t[i as int] == (id, r));
        match insts.get(id) {
            Some(x) => {
                let s = write(r);
                push_placement(out, reg, x.widget, id, &s);
                proof {
                    outs = outs.push(s);
                    assert(insts.items()[first_index(insts.ids(), id) as int].id == id);
                }
            },
            None => {
                proof {
                    outs = outs.push(vstd::pervasive::arbitrary());
                }
            },
        }
        proof {
            assert(outs.drop_last() =~= outs0);
            assert forall|k: int| 0 <= k < t.len() && insts.holds((#[trigger] t[k]).0) implies write.ensures(
                (t[k].1,),
                outs[k],
            ) by {
                if k < i {
                    assert(t[k] == moves@.take(i as int)[k]);
                    assert(outs[k] == outs0[k]);
                }
            }
        }
        i += 1;
    }
    assert(moves@.take(moves@.len() as int) =~= moves@);
    Ghost(outs)
}

/// Appends the per-screen sections: for each, a blank line and its
/// `[WxH@D]` heading, then one line for each move whose instance the
/// layout still places, its rectangle as `write` puts it; a move of an
/// instance no longer placed is dropped.
pub fn serialize_sections<R: Copy, W: Fn(R) -> String>(
    out: &mut String,
    reg: &Registry,
    sections: &Vec<(ScreenKey, Vec<(InstanceId, R)>)>,
    insts: &InstanceList<R>,
    write: W,
)
    requires
        forall|x: R| write.requires((x,)),
    ensures
        exists|outs: Seq<Seq<String>>|
            #![trigger sections_written_by(write, insts, sections@, outs)]
            {
                &&& sections_written_by(write, insts, sections@, outs)
                &&& final(out)@ == old(out)@ + sections_text(reg, insts, sections@, outs)
            },
{
    let ghost o = out@;
    let ghost mut outs: Seq<Seq<String>> = Seq::empty();
    let mut i: usize = 0;
    assert(sections@.take(0) =~= Seq::<(ScreenKey, Vec<(InstanceId, R)>)>::empty());
    while i < sections.len()
        invariant
            i <= sections@.len(),
            forall|x: R| write.requires((x,)),
            sections_written_by(write, insts, sections@.take(i as int), outs),
            out@ == o + sections_text(reg, insts, sections@.take(i as int), outs),
        decreases sections.len() - i,
    {
        let sec = &sections[i];
        let ghost outs0 = outs;
        let ghost before = out@;
        let ghost t = sections@.take(i + 1);
        assert(t.drop_last() =~= sections@.take(i as int));
        assert(t[i as int] == *sec);
        push_char(out, '\n');
        push_char(out, '[');
        push_screen_name(out, sec.0);
        push_char(out, ']');
        push_char(out, '\n');
        assert(out@ =~= before + section_head(sec.0));
        let got = push_override_lines(out, reg, &sec.1, insts, &write);
        proof {
            outs = outs.push(got@);
            assert(outs.drop_last() =~= outs0);
            assert forall|k: int| 0 <= k < t.len() implies moves_written_by(
                write,
                insts,
                (#[trigger] t[k]).1@,
                outs[k],
            ) by {
                if k < i {
                    assert(t[k] == sections@.take(i as int)[k]);
                    assert(outs[k] == outs0[k]);
                }
            }
        }
        i += 1;
    }
    assert(sections@.take(sections@.len() as int) =~= sections@);
}


/// An integer as `{}` writes it.
pub open spec fn signed(n: int) -> Seq<char> {
    if n < 0 {
        seq!['-'] + decimal((-n) as nat)
    } else {
        decimal(n as nat)
    }
}

fn push_signed(out: &mut String, n: i32)
    ensures
        final(out)@ == old(out)@ + signed(n as int),
{
    let ghost o = out@;
    if n < 0 {
        push_char(out, '-');
        let m: i64 = -(n as i64);
        push_decimal(out, m as u64);
        assert(out@ =~= o + signed(n as int));
    } else {
        push_decimal(out, n as u64);
    }
}

/// A board's heading, after a blank line: `[board x]` for a board of the
/// first row, `[board x y]` for the others.
pub open spec fn board_head(b: BoardId) -> Seq<char> {
    "\n[board "@ + signed(b.0 as int) + if b.1 == 0 {
        Seq::empty()
    } else {
        seq![' '] + signed(b.1 as int)
    } + seq![']', '\n']
}

/// What `hidden` and `write` answered for the rectangles of `insts`: for
/// each instance standing in a rectangle, `hides[i]` whether it is
/// hidden and, when it is not, `outs[i]` how its rectangle is written.
pub open spec fn shown_written_by<R, W: Fn(R) -> String, H: Fn(R) -> bool>(
    write: W,
    hidden: H,
    insts: Seq<Instance<R>>,
    hides: Seq<bool>,
    outs: Seq<String>,
) -> bool {
    &&& outs.len() == insts.len()
    &&& hides.len() == insts.len()
    &&& forall|i: int|
        0 <= i < insts.len() && (#[trigger] insts[i]).rect is Some ==> hidden.ensures(
            (insts[i].rect->0,),
            hides[i],
        ) && (!hides[i] ==> write.ensures((insts[i].rect->0,), outs[i]))
}

/// The rectangle lines of the instances of `insts` that stand in a
/// rectangle and are not hidden, in order.
pub open spec fn shown_lines_text<R>(
    reg: &Registry,
    insts: Seq<Instance<R>>,
    hides: Seq<bool>,
    outs: Seq<String>,
) -> Seq<char>
    decreases insts.len(),
{
    if insts.len() == 0 {
        Seq::empty()
    } else {
        let k = insts.len() - 1;
        shown_lines_text(reg, insts.drop_last(), hides.drop_last(), outs.drop_last()) + match insts[k].rect {
            Some(_) => if hides[k] {
                Seq::empty()
            } else {
                placement_line(reg, insts[k].widget, insts[k].id, outs[k]@)
            },
            None => Seq::empty(),
        }
    }
}

/// The instances standing on board `b`, in placement order.
pub open spec fn on_board_of<R>(items: Seq<Instance<R>>, b: BoardId) -> Seq<Instance<R>> {
    items.filter(|x: Instance<R>| x.board == b)
}

/// What the closures answered for one board: the text of its columns,
/// or the hidden flags and rectangle texts of its instances.
pub open spec fn board_written_by<R, W: Fn(R) -> String, H: Fn(R) -> bool, X: Fn(&FlexText) -> String>(
    write: W,
    hidden: H,
    flex_text: X,
    l: &InstanceList<R>,
    board: (BoardId, Arrangement),
    got: (String, Seq<bool>, Seq<String>),
) -> bool {
    match board.1 {
        Arrangement::Columns(f) => flex_text.ensures((&f,), got.0),
        Arrangement::Rects => shown_written_by(write, hidden, on_board_of(l.items(), board.0), got.1, got.2),
    }
}

/// One board section: its heading, then its columns as `flex_text` puts
/// them or the lines of its shown rectangle instances.
pub open spec fn board_text<R>(
    reg: &Registry,
    l: &InstanceList<R>,
    board: (BoardId, Arrangement),
    got: (String, Seq<bool>, Seq<String>),
) -> Seq<char> {
    board_head(board.0) + match board.1 {
        Arrangement::Columns(_) => got.0@,
        Arrangement::Rects => shown_lines_text(reg, on_board_of(l.items(), board.0), got.1, got.2),
    }
}

pub open spec fn boards_text<R>(
    reg: &Registry,
    l: &InstanceList<R>,
    boards: Seq<(BoardId, Arrangement)>,
    got: Seq<(String, Seq<bool>, Seq<String>)>,
) -> Seq<char>
    decreases boards.len(),
{
    if boards.len() == 0 {
        Seq::empty()
    } else {
        let k = boards.len() - 1;
        boards_text(reg, l, boards.drop_last(), got.drop_last()) + board_text(reg, l, boards[k], got[k])
    }
}

fn push_shown_lines<R: Copy, W: Fn(R) -> String, H: Fn(R) -> bool>(
    out: &mut String,
    reg: &Registry,
    insts: &Vec<Instance<R>>,
    write: &W,
    hidden: &H,
) -> (r: Ghost<(Seq<bool>, Seq<String>)>)
    requires
        forall|x: R| write.requires((x,)),
        forall|x: R| hidden.requires((x,)),
    ensures
        shown_written_by(*write, *hidden, insts@, r@.0, r@.1),
        final(out)@ == old(out)@ + shown_lines_text(reg, insts@, r@.0, r@.1),
{
    let ghost o = out@;
    let ghost mut outs: Seq<String> = Seq::empty();
    let ghost mut hides: Seq<bool> = Seq::empty();
    let mut i: usize = 0;
    assert(insts@.take(0) =~= Seq::<Instance<R>>::empty());
    while i < insts.len()
        invariant
            i <= insts@.len(),
            forall|x: R| write.requires((x,)),
            forall|x: R| hidden.requires((x,)),
            shown_written_by(*write, *hidden, insts@.take(i as int), hides, outs),
            out@ == o + shown_lines_text(reg, insts@.take(i as int), hides, outs),
        decreases insts.len() - i,
    {
        let x = insts[i];
        let ghost outs0 = outs;
        let ghost hides0 = hides;
        let ghost t = insts@.take(i + 1);
        assert(t.drop_last() =~= insts@.take(i as int));
        assert(t[i as int] == x);
        match x.rect {
            Some(r) => {
                let h = hidden(r);
                if h {
                    proof {
                        outs = outs.push(vstd::pervasive::arbitrary());
                    }
                } else {
                    let s = write(r);
                    push_placement(out, reg, x.widget, x.id, &s);
                    proof {
                        outs = outs.push(s);
                    }
                }
                proof {
                    hides = hides.push(h);
                }
            },
            None => {
                proof {
                    outs = outs.push(vstd::pervasive::arbitrary());
                    hides = hides.push(false);
                }
            },
        }
        proof {
            assert(outs.drop_last() =~= outs0);
            assert(hides.drop_last() =~= hides0);
            assert forall|k: int| 0 <= k < t.len() && (#[trigger] t[k]).rect is Some implies hidden.ensures(
                (t[k].rect->0,),
                hides[k],
            ) && (!hides[k] ==> write.ensures((t[k].rect->0,), outs[k])) by {
                if k < i {
                    assert(t[k] == insts@.take(i as int)[k]);
                    assert(outs[k] == outs0[k]);
                    assert(hides[k] == hides0[k]);
                }
            }
        }
        i += 1;
    }
    assert(insts@.take(insts@.len() as int) =~= insts@);
    Ghost((hides, outs))
}

fn push_board<R: Copy, W: Fn(R) -> String, H: Fn(R) -> bool, X: Fn(&FlexText) -> String>(
    out: &mut String,
    reg: &Registry,
    board: &(BoardId, Arrangement),
    insts: &InstanceList<R>,
    write: &W,
    hidden: &H,
    flex_text: &X,
) -> (got: Ghost<(String, Seq<bool>, Seq<String>)>)
    requires
        forall|x: R| write.requires((x,)),
        forall|x: R| hidden.requires((x,)),
        forall|f: &FlexText| flex_text.requires((f,)),
    ensures
        board_written_by(*write, *hidden, *flex_text, insts, *board, got@),
        final(out)@ == old(out)@ + board_text(reg, insts, *board, got@),
{
    let ghost o = out@;
    let (x, y) = board.0;
    push_str(out, "\n[board ");
    push_signed(out, x);
    if y != 0 {
        push_char(out, ' ');
        push_signed(out, y);
    }
    push_char(out, ']');
    push_char(out, '\n');
    assert(out@ =~= o + board_head(board.0));
    let ghost head = out@;
    match &board.1 {
        Arrangement::Columns(f) => {
            let s = flex_text(f);
            push_str(out, s.as_str());
            Ghost((s, Seq::empty(), Seq::empty()))
        },
        Arrangement::Rects => {
            let on = insts.on_board((x, y));
            proof {
                let k: (i32, i32) = (x, y);
                assert((|i: Instance<R>| i.board == k) =~= (|i: Instance<R>| i.board == board.0));
            }
            assert(on@ == on_board_of(insts.items(), board.0));
            let r = push_shown_lines(out, reg, &on, write, hidden);
            Ghost((vstd::pervasive::arbitrary(), r@.0, r@.1))
        },
    }
}

/// Appends the board sections: for each board, a blank line and its
/// `[board x]` or `[board x y]` heading, then its columns as `flex_text`
/// writes them, or one line for each instance on it that stands in a
/// rectangle and that `hidden` does not hide, its rectangle as `write`
/// puts it. Whichever arrangement a board holds is the one written back.
pub fn serialize_boards<R: Copy, W: Fn(R) -> String, H: Fn(R) -> bool, X: Fn(&FlexText) -> String>(
    out: &mut String,
    reg: &Registry,
    boards: &Vec<(BoardId, Arrangement)>,
    insts: &InstanceList<R>,
    write: W,
    hidden: H,
    flex_text: X,
)
    requires
        forall|x: R| write.requires((x,)),
        forall|x: R| hidden.requires((x,)),
        forall|f: &FlexText| flex_text.requires((f,)),
    ensures
        exists|got: Seq<(String, Seq<bool>, Seq<String>)>|
            #![trigger boards_text(reg, insts, boards@, got)]
            {
                &&& got.len() == boards@.len()
                &&& forall|i: int|
                    0 <= i < boards@.len() ==> board_written_by(write, hidden, flex_text, insts, #[trigger] boards@[i], got[i])
                &&& final(out)@ == old(out)@ + boards_text(reg, insts, boards@, got)
            },
{
    let ghost o = out@;
    let ghost mut got: Seq<(String, Seq<bool>, Seq<String>)> = Seq::empty();
    let mut i: usize = 0;
    assert(boards@.take(0) =~= Seq::<(BoardId, Arrangement)>::empty());
    while i < boards.len()
        invariant
            i <= boards@.len(),
            forall|x: R| write.requires((x,)),
            forall|x: R| hidden.requires((x,)),
            forall|f: &FlexText| flex_text.requires((f,)),
            got.len() == i,
            forall|k: int| 0 <= k < i ==> board_written_by(write, hidden, flex_text, insts, #[trigger] boards@[k], got[k]),
            out@ == o + boards_text(reg, insts, boards@.take(i as int), got),
        decreases boards.len() - i,
    {
        let ghost got0 = got;
        let ghost t = boards@.take(i + 1);
        assert(t.drop_last() =~= boards@.take(i as int));
        let g = push_board(out, reg, &boards[i], insts, &write, &hidden, &flex_text);
        proof {
            got = got.push(g@);
            assert(got.drop_last() =~= got0);
            assert(t[i as int] == boards@[i as int]);
        }
        i += 1;
    }
    assert(boards@.take(boards@.len() as int) =~= boards@);
}


// ------------------------------------------------------- reading back

/// A widget whose name a placement line can carry: registered, the first
/// of its name, not blank at either edge, and with no `#`, `=` or line
/// break in it.
pub open spec fn writable_name(reg: &Registry, widget: Panel) -> bool {
    let name = reg.name_at(widget.index());
    &&& widget.index() < reg.defs@.len()
    &&& reg.position(name) == widget.index()
    &&& name.len() > 0
    &&& !is_ws(name[0])
    &&& !is_ws(name.last())
    &&& forall|i: int| 0 <= i < name.len() ==> #[trigger] name[i] != '#' && name[i] != '=' && name[i] != '\n'
}

/// A rectangle text a placement line can carry: not empty, not blank at
/// either edge, with no `#` and no line break in it.
pub open spec fn writable_text(txt: Seq<char>) -> bool {
    &&& txt.len() > 0
    &&& !is_ws(txt[0])
    &&& !is_ws(txt.last())
    &&& forall|i: int| 0 <= i < txt.len() ==> #[trigger] txt[i] != '#' && txt[i] != '\n'
}

/// The instance a written token reads back as: a saved one by its
/// identity, a composed one (or identity 0) by its widget alone.
pub open spec fn id_read(id: InstanceId) -> Option<InstanceId> {
    if 0 < id.num() < GENERATED {
        Some(id)
    } else {
        None
    }
}

/// What the rectangle lines of `insts` read back as: for each instance
/// standing in a rectangle, in order, its widget, its identity as a
/// token carries it, and its rectangle text after the space that follows
/// the `=`.
pub open spec fn written_lines<R>(insts: Seq<Instance<R>>, outs: Seq<String>) -> Seq<
    (Panel, Option<InstanceId>, Seq<char>),
>
    decreases insts.len(),
{
    if insts.len() == 0 {
        Seq::empty()
    } else {
        let k = insts.len() - 1;
        written_lines(insts.drop_last(), outs.drop_last()) + match insts[k].rect {
            Some(_) => seq![(insts[k].widget, id_read(insts[k].id), seq![' '] + outs[k]@)],
            None => Seq::empty(),
        }
    }
}

proof fn lemma_token_chars(reg: &Registry, widget: Panel, id: InstanceId)
    requires
        writable_name(reg, widget),
    ensures
        ({
            let t = token_of(reg, widget, id);
            &&& t.len() > 0
            &&& !is_ws(t[0])
            &&& !is_ws(t.last())
            &&& forall|i: int| 0 <= i < t.len() ==> #[trigger] t[i] != '=' && t[i] != '\n'
            &&& forall|i: int| 0 <= i < t.len() && #[trigger] t[i] == '#' ==> i > 0 && !is_ws(t[i - 1])
        }),
{
    let name = reg.name_at(widget.index());
    let t = token_of(reg, widget, id);
    if id.num() < GENERATED {
        let d = decimal(id.num() as nat);
        lemma_decimal_reads_back(id.num() as nat);
        assert(t == name + seq!['#'] + d);
        assert forall|i: int| 0 <= i < t.len() implies #[trigger] t[i] != '=' && t[i] != '\n' by {
            if i < name.len() {
                assert(t[i] == name[i]);
            } else if i > name.len() {
                assert(t[i] == d[i - name.len() - 1]);
                assert(all_digits(d));
                assert(crate::text::is_digit(d[i - name.len() - 1]));
            }
        }
        assert forall|i: int| 0 <= i < t.len() && #[trigger] t[i] == '#' implies i > 0 && !is_ws(t[i - 1]) by {
            if i < name.len() {
                assert(t[i] == name[i]);
            } else if i > name.len() {
                assert(t[i] == d[i - name.len() - 1]);
            } else {
                assert(t[i - 1] == name.last());
            }
        }
        assert(t[0] == name[0]);
        assert(t.last() == d.last());
    }
}

proof fn lemma_no_comment(s: Seq<char>, i: int)
    requires
        0 <= i <= s.len(),
        forall|j: int| i <= j < s.len() && #[trigger] s[j] == '#' ==> j > 0 && !is_ws(s[j - 1]),
    ensures
        comment_at(s, i) == s.len(),
    decreases s.len() - i,
{
    if i < s.len() {
        if s[i] == '#' {
            assert(!is_ascii_ws(s[i - 1]));
        }
        lemma_no_comment(s, i + 1);
    }
}

/// A written placement line reads back as what it places: its widget,
/// its identity as the token carries it, and its rectangle text after
/// the space that follows the `=`; the reading then goes on with what
/// follows the line.
pub proof fn law_a_written_placement_reads_back(
    reg: &Registry,
    widget: Panel,
    id: InstanceId,
    txt: Seq<char>,
    rest: Seq<char>,
)
    requires
        writable_name(reg, widget),
        writable_text(txt),
    ensures
        rect_lines_of(reg, placement_line(reg, widget, id, txt) + rest) == seq![
            (widget, id_read(id), seq![' '] + txt),
        ] + rect_lines_of(reg, rest),
{
    let name = reg.name_at(widget.index());
    let t = token_of(reg, widget, id);
    lemma_token_chars(reg, widget, id);
    lemma_trimmed(name);
    law_a_written_token_reads_back(reg, widget, id);
    let l = t + " = "@ + txt;
    let s = placement_line(reg, widget, id, txt) + rest;
    assert(" = "@ =~= seq![' ', '=', ' ']) by {
        reveal_strlit(" = ");
    }
    let n: int = t.len() as int;
    assert(l.len() == n + 3 + txt.len());
    assert forall|i: int| 0 <= i < l.len() implies #[trigger] l[i] != '\n' by {
        if i < n {
            assert(l[i] == t[i]);
        } else if i >= n + 3 {
            assert(l[i] == txt[i - n - 3]);
        }
    }
    assert(s =~= l + seq!['\n'] + rest);
    assert forall|i: int| 0 <= i < l.len() implies #[trigger] s[i] != '\n' by {
        assert(s[i] == l[i]);
    }
    lemma_find(s, '\n', l.len() as int);
    assert(s[l.len() - 1] == txt.last());
    assert(first_line(s) =~= l);
    assert(after_line(s) =~= rest);
    // the line has no comment in it
    assert forall|j: int| 0 <= j < l.len() && #[trigger] l[j] == '#' implies j > 0 && !is_ws(l[j - 1]) by {
        if j < n {
            assert(l[j] == t[j]);
            assert(l[j - 1] == t[j - 1]);
        } else if j >= n + 3 {
            assert(l[j] == txt[j - n - 3]);
        }
    }
    lemma_no_comment(l, 0);
    assert(l.take(l.len() as int) =~= l);
    assert(l[0] == t[0]);
    assert(l.last() == txt.last());
    lemma_trimmed(l);
    assert(clean_placement_of(l) == l);
    // the `=` after the token
    assert forall|i: int| 0 <= i < n + 1 implies #[trigger] l[i] != '=' by {
        if i < n {
            assert(l[i] == t[i]);
        }
    }
    lemma_find(l, '=', n + 1);
    assert(l.take(n + 1) =~= t.push(' '));
    lemma_trim_push_ws(t, ' ');
    lemma_trimmed(t);
    assert(l.skip(n + 2) =~= seq![' '] + txt);
    assert(ref_of(reg, t) == Some((widget, id_read(id))));
    assert(rect_line_of(reg, l) == Some((widget, id_read(id), seq![' '] + txt)));
}

proof fn lemma_lines_split(reg: &Registry, a: Seq<char>, b: Seq<char>)
    requires
        a.len() == 0 || a.last() == '\n',
    ensures
        rect_lines_of(reg, a + b) == rect_lines_of(reg, a) + rect_lines_of(reg, b),
    decreases a.len(),
{
    if a.len() == 0 {
        assert(a + b =~= b);
    } else {
        lemma_find_bound(a, '\n');
        let k: int = find(a, '\n') as int;
        if k >= a.len() {
            assert(a[a.len() - 1] != '\n');
        }
        let ab = a + b;
        assert forall|i: int| 0 <= i < k implies ab[i] != '\n' by {
            assert(ab[i] == a[i]);
        }
        lemma_find(ab, '\n', k);
        assert(ab.take(k) =~= a.take(k));
        if k > 0 {
            assert(ab.take(k - 1) =~= a.take(k - 1));
            assert(ab[k - 1] == a[k - 1]);
        }
        assert(first_line(ab) == first_line(a));
        let r = a.skip(k + 1);
        assert(after_line(ab) =~= r + b);
        assert(after_line(a) == r);
        if r.len() > 0 {
            assert(r.last() == a.last());
        }
        lemma_lines_split(reg, r, b);
        assert(ab.len() > 0);
    }
}

/// What a board's rectangles are written as reads back as what they
/// place: each instance standing in a rectangle, in order, as its widget,
/// its identity as its token carries it, and its rectangle's text.
pub proof fn law_written_rectangles_read_back<R>(reg: &Registry, insts: Seq<Instance<R>>, outs: Seq<String>)
    requires
        outs.len() == insts.len(),
        forall|i: int|
            0 <= i < insts.len() && (#[trigger] insts[i]).rect is Some ==> writable_name(reg, insts[i].widget)
                && writable_text(outs[i]@),
    ensures
        rect_lines_of(reg, rect_lines_text(reg, insts, outs)) == written_lines(insts, outs),
        rect_lines_text(reg, insts, outs).len() == 0 || rect_lines_text(reg, insts, outs).last() == '\n',
    decreases insts.len(),
{
    if insts.len() > 0 {
        let k = insts.len() - 1;
        let a = insts.drop_last();
        let o = outs.drop_last();
        assert forall|i: int| 0 <= i < a.len() && (#[trigger] a[i]).rect is Some implies writable_name(
            reg,
            a[i].widget,
        ) && writable_text(o[i]@) by {
            assert(a[i] == insts[i]);
            assert(o[i] == outs[i]);
        }
        law_written_rectangles_read_back(reg, a, o);
        let head = rect_lines_text(reg, a, o);
        match insts[k].rect {
            Some(_) => {
                let p = placement_line(reg, insts[k].widget, insts[k].id, outs[k]@);
                lemma_lines_split(reg, head, p);
                law_a_written_placement_reads_back(reg, insts[k].widget, insts[k].id, outs[k]@, Seq::empty());
                assert(p + Seq::<char>::empty() =~= p);
                assert(rect_lines_of(reg, Seq::<char>::empty()) == Seq::<(Panel, Option<InstanceId>, Seq<char>)>::empty());
                assert((head + p).last() == '\n');
            },
            None => {
                assert(head + Seq::<char>::empty() =~= head);
            },
        }
    }
}


proof fn lemma_foreign_line(reg: &Registry, key: Seq<char>, value: Seq<char>, rest: Seq<char>)
    requires
        key.len() > 0,
        !is_ws(key[0]),
        !is_ws(key.last()),
        forall|i: int| 0 <= i < key.len() ==> #[trigger] key[i] != '#' && key[i] != '=' && key[i] != '\n',
        writable_text(value),
        reg.position(key) >= reg.defs@.len(),
    ensures
        rect_lines_of(reg, key + equals() + value + seq!['\n'] + rest) == rect_lines_of(reg, rest),
{
    let l = key + equals() + value;
    let s = key + equals() + value + seq!['\n'] + rest;
    let n: int = key.len() as int;
    assert forall|i: int| 0 <= i < l.len() implies #[trigger] l[i] != '\n' && l[i] != '#' by {
        if i < n {
            assert(l[i] == key[i]);
        } else if i >= n + 3 {
            assert(l[i] == value[i - n - 3]);
        }
    }
    assert(s =~= l + seq!['\n'] + rest);
    assert forall|i: int| 0 <= i < l.len() implies #[trigger] s[i] != '\n' by {
        assert(s[i] == l[i]);
    }
    lemma_find(s, '\n', l.len() as int);
    assert(s[l.len() - 1] == value.last());
    assert(first_line(s) =~= l);
    assert(after_line(s) =~= rest);
    lemma_no_comment(l, 0);
    assert(l.take(l.len() as int) =~= l);
    assert(l[0] == key[0]);
    assert(l.last() == value.last());
    lemma_trimmed(l);
    assert forall|i: int| 0 <= i < n + 1 implies #[trigger] l[i] != '=' by {
        if i < n {
            assert(l[i] == key[i]);
        }
    }
    lemma_find(l, '=', n + 1);
    assert(l.take(n + 1) =~= key.push(' '));
    lemma_trim_push_ws(key, ' ');
    lemma_trimmed(key);
    lemma_find(key, '#', n);
    assert(key.take(n) =~= key);
    assert(ref_of(reg, key) is None);
    assert(rect_line_of(reg, l) is None);
}

proof fn lemma_comment_line(reg: &Registry, c: Seq<char>, rest: Seq<char>)
    requires
        c.len() > 0,
        c[0] == '#',
        c.last() != '\r',
        forall|i: int| 0 <= i < c.len() ==> #[trigger] c[i] != '\n',
    ensures
        rect_lines_of(reg, c + seq!['\n'] + rest) == rect_lines_of(reg, rest),
{
    let s = c + seq!['\n'] + rest;
    assert forall|i: int| 0 <= i < c.len() implies #[trigger] s[i] != '\n' by {
        assert(s[i] == c[i]);
    }
    lemma_find(s, '\n', c.len() as int);
    assert(s[c.len() - 1] == c.last());
    assert(first_line(s) =~= c);
    assert(after_line(s) =~= rest);
    assert(comment_at(c, 0) == 0);
    assert(c.take(0) =~= Seq::<char>::empty());
    crate::text::lemma_trim_empty(Seq::<char>::empty());
    assert(rect_line_of(reg, c) is None);
}

/// The words of a base that are not placements: a registry that names
/// no widget after them leaves those lines unread as placements.
pub open spec fn keeps_base_words(reg: &Registry) -> bool {
    &&& reg.position(version_word()) >= reg.defs@.len()
    &&& reg.position(next_instance_word()) >= reg.defs@.len()
    &&& reg.position(screen_word()) >= reg.defs@.len()
}

proof fn lemma_screen_line(reg: &Registry, key: ScreenKey, rest: Seq<char>)
    requires
        keeps_base_words(reg),
    ensures
        rect_lines_of(reg, screen_text(key) + rest) == rect_lines_of(reg, rest),
{
    let sn = screen_name(key);
    lemma_decimal_reads_back(key.0 as nat);
    lemma_decimal_reads_back(key.1 as nat);
    lemma_decimal_reads_back(key.2 as nat);
    let d0 = decimal(key.0 as nat);
    let d1 = decimal(key.1 as nat);
    let d2 = decimal(key.2 as nat);
    assert forall|i: int| 0 <= i < sn.len() implies #[trigger] sn[i] != '#' && sn[i] != '\n' by {
        if i < d0.len() {
            assert(sn[i] == d0[i]);
            assert(crate::text::is_digit(d0[i]));
        } else if i == d0.len() {
        } else if i < d0.len() + 1 + d1.len() {
            assert(sn[i] == d1[i - d0.len() - 1]);
            assert(crate::text::is_digit(d1[i - d0.len() - 1]));
        } else if i == d0.len() + 1 + d1.len() {
        } else {
            assert(sn[i] == d2[i - d0.len() - 2 - d1.len()]);
            assert(crate::text::is_digit(d2[i - d0.len() - 2 - d1.len()]));
        }
    }
    assert(sn[0] == d0[0]);
    assert(sn.last() == d2.last());
    assert("screen = "@ =~= screen_word() + equals()) by {
        reveal_strlit("screen = ");
    }
    assert(screen_text(key) + rest =~= screen_word() + equals() + sn + seq!['\n'] + rest);
    lemma_foreign_line(reg, screen_word(), sn, rest);
}

proof fn lemma_header_lines(reg: &Registry, n: u32, rest: Seq<char>)
    requires
        keeps_base_words(reg),
    ensures
        rect_lines_of(reg, version_line() + next_free_line(n) + rest) == rect_lines_of(reg, rest),
{
    let dn = decimal(n as nat);
    lemma_decimal_reads_back(n as nat);
    assert forall|i: int| 0 <= i < dn.len() implies #[trigger] dn[i] != '#' && dn[i] != '\n' by {
        assert(crate::text::is_digit(dn[i]));
    }
    assert(next_free_line(n) + rest =~= next_instance_word() + equals() + dn + seq!['\n'] + rest);
    lemma_foreign_line(reg, next_instance_word(), dn, rest);
    let dv = decimal(super::layaut::FORMAT_VERSION as nat);
    assert(dv =~= seq!['2']);
    let r1 = next_free_line(n) + rest;
    assert(version_line() + r1 =~= version_word() + equals() + dv + seq!['\n'] + r1);
    lemma_foreign_line(reg, version_word(), dv, r1);
    assert(version_line() + next_free_line(n) + rest =~= version_line() + r1);
}

proof fn lemma_saved_comment(reg: &Registry, rest: Seq<char>)
    ensures
        rect_lines_of(reg, saved_comment() + rest) == rect_lines_of(reg, rest),
{
    let c1 = "# nacelle-desktop layout saved from the grid editor."@;
    let c2 = "# Format: <widget>#<instance> = x y w h (percent of the window)."@;
    assert(saved_comment() =~= c1 + seq!['\n'] + c2 + seq!['\n']) by {
        reveal_strlit("# nacelle-desktop layout saved from the grid editor.\n# Format: <widget>#<instance> = x y w h (percent of the window).\n");
        reveal_strlit("# nacelle-desktop layout saved from the grid editor.");
        reveal_strlit("# Format: <widget>#<instance> = x y w h (percent of the window).");
    }
    assert(c1.len() > 0 && c1[0] == '#' && c1.last() != '\r' && forall|i: int|
        0 <= i < c1.len() ==> #[trigger] c1[i] != '\n') by {
        reveal_strlit("# nacelle-desktop layout saved from the grid editor.");
    }
    assert(c2.len() > 0 && c2[0] == '#' && c2.last() != '\r' && forall|i: int|
        0 <= i < c2.len() ==> #[trigger] c2[i] != '\n') by {
        reveal_strlit("# Format: <widget>#<instance> = x y w h (percent of the window).");
    }
    lemma_comment_line(reg, c2, rest);
    lemma_comment_line(reg, c1, c2 + seq!['\n'] + rest);
    assert(saved_comment() + rest =~= c1 + seq!['\n'] + (c2 + seq!['\n'] + rest));
}

/// What a saved base is read back as: its placements are exactly those
/// it wrote — each home instance standing in a rectangle, in order, as
/// its widget, its identity as its token carries it and its rectangle's
/// text — and its opening comment, header and screen lines place
/// nothing, when no widget is named after the words of those lines.
pub proof fn law_a_saved_base_reads_back_its_placements<R>(
    reg: &Registry,
    insts: Seq<Instance<R>>,
    outs: Seq<String>,
    n: u32,
    key: ScreenKey,
)
    requires
        keeps_base_words(reg),
        outs.len() == insts.len(),
        forall|i: int|
            0 <= i < insts.len() && (#[trigger] insts[i]).rect is Some ==> writable_name(reg, insts[i].widget)
                && writable_text(outs[i]@),
    ensures
        rect_lines_of(
            reg,
            saved_comment() + version_line() + next_free_line(n) + screen_text(key) + rect_lines_text(
                reg,
                insts,
                outs,
            ),
        ) == written_lines(insts, outs),
{
    let body = rect_lines_text(reg, insts, outs);
    law_written_rectangles_read_back(reg, insts, outs);
    lemma_screen_line(reg, key, body);
    let r2 = screen_text(key) + body;
    lemma_header_lines(reg, n, r2);
    let r0 = version_line() + next_free_line(n) + r2;
    lemma_saved_comment(reg, r0);
    assert(saved_comment() + version_line() + next_free_line(n) + screen_text(key) + body =~= saved_comment()
        + r0);
}


// ------------------------------------------------------ board headings

proof fn lemma_signed_reads_back(n: i32)
    ensures
        signed(n as int).len() >= 1,
        forall|i: int| 0 <= i < signed(n as int).len() ==> !is_ws(#[trigger] signed(n as int)[i])
            && signed(n as int)[i] != '@',
        parse_i32(signed(n as int)) == Some(n),
{
    let s = signed(n as int);
    if n < 0 {
        let m: nat = (-(n as int)) as nat;
        let d = decimal(m);
        lemma_decimal_reads_back(m);
        assert(s == seq!['-'] + d);
        assert(s.drop_first() =~= d);
        assert forall|i: int| 0 <= i < s.len() implies !is_ws(#[trigger] s[i]) && s[i] != '@' by {
            if i > 0 {
                assert(s[i] == d[i - 1]);
                assert(is_digit(d[i - 1]));
            }
        }
    } else {
        let d = decimal(n as nat);
        lemma_decimal_reads_back(n as nat);
        assert(is_digit(d[0]));
        assert(unsigned_digits(d) == d);
        assert forall|i: int| 0 <= i < s.len() implies !is_ws(#[trigger] s[i]) && s[i] != '@' by {
            assert(is_digit(d[i]));
        }
    }
}

proof fn lemma_one_word(w: Seq<char>)
    requires
        w.len() >= 1,
        forall|i: int| 0 <= i < w.len() ==> !is_ws(#[trigger] w[i]),
    ensures
        words(w) == seq![w],
{
    lemma_lead_ws(w, 0);
    assert(trim_start(w) =~= w);
    lemma_lead_word(w, w.len() as int);
    assert(w.take(w.len() as int) =~= w);
    let e = w.skip(w.len() as int);
    assert(e.len() == 0);
    lemma_lead_ws(e, 0);
    assert(words(e) == Seq::<Seq<char>>::empty());
    assert(words(w) =~= seq![w]);
}

/// The numbers of a board heading: `x`, or `x y`.
pub open spec fn heading_nums(b: BoardId) -> Seq<char> {
    signed(b.0 as int) + if b.1 == 0 {
        Seq::<char>::empty()
    } else {
        seq![' '] + signed(b.1 as int)
    }
}

proof fn lemma_heading_words(b: BoardId)
    ensures
        heading_nums(b).len() >= 1,
        !is_ws(heading_nums(b)[0]),
        !is_ws(heading_nums(b).last()),
        forall|i: int| 0 <= i < heading_nums(b).len() ==> #[trigger] heading_nums(b)[i] != '@',
        words(heading_nums(b)) == if b.1 == 0 {
            seq![signed(b.0 as int)]
        } else {
            seq![signed(b.0 as int), signed(b.1 as int)]
        },
{
    let sx = signed(b.0 as int);
    let sy = signed(b.1 as int);
    lemma_signed_reads_back(b.0);
    lemma_signed_reads_back(b.1);
    let nums = heading_nums(b);
    assert(nums[0] == sx[0]);
    if b.1 == 0 {
        assert(nums =~= sx);
        lemma_one_word(sx);
    } else {
        assert(nums.last() == sy[sy.len() - 1]);
        assert forall|i: int| 0 <= i < nums.len() implies #[trigger] nums[i] != '@' by {
            if i < sx.len() {
                assert(nums[i] == sx[i]);
            } else if i > sx.len() {
                assert(nums[i] == sy[i - sx.len() - 1]);
            }
        }
        lemma_lead_ws(nums, 0);
        assert(trim_start(nums) =~= nums);
        assert(nums[sx.len() as int] == ' ');
        assert forall|i: int| 0 <= i < sx.len() implies !is_ws(#[trigger] nums[i]) by {
            assert(nums[i] == sx[i]);
        }
        lemma_lead_word(nums, sx.len() as int);
        assert(nums.take(sx.len() as int) =~= sx);
        let after = nums.skip(sx.len() as int);
        assert(after =~= seq![' '] + sy);
        lemma_lead_ws(after, 1);
        assert(trim_start(after) =~= sy);
        lemma_one_word(sy);
        lemma_lead_word(sy, sy.len() as int);
        assert(sy.take(sy.len() as int) =~= sy);
        let e = sy.skip(sy.len() as int);
        lemma_lead_ws(e, 0);
        assert(words(e) == Seq::<Seq<char>>::empty());
        assert(words(after) =~= seq![sy]);
        assert(words(nums) =~= seq![sx, sy]);
    }
}

proof fn lemma_heading_inner(b: BoardId)
    ensures
        ({
            let h = board_head(b);
            let inner = board_word() + seq![' '] + heading_nums(b);
            &&& bracketed(h.subrange(1, h.len() - 1)) == Some(inner)
            &&& trim(inner) == inner
            &&& inner.len() >= 5
            &&& inner.take(5) == board_word()
            &&& trim(inner.skip(5)) == heading_nums(b)
            &&& find(inner, '@') == inner.len()
        }),
{
    let nums = heading_nums(b);
    lemma_heading_words(b);
    let inner = board_word() + seq![' '] + nums;
    let h = board_head(b);
    assert("\n[board "@ =~= seq!['\n', '['] + board_word() + seq![' ']) by {
        reveal_strlit("\n[board ");
    }
    assert(h =~= seq!['\n', '['] + inner + seq![']', '\n']);
    let line = h.subrange(1, h.len() - 1);
    assert(line =~= seq!['['] + inner + seq![']']);
    assert(line.subrange(1, line.len() - 1) =~= inner);
    assert(inner[0] == 'b');
    assert(inner.last() == nums.last());
    lemma_trimmed(inner);
    assert(inner.take(5) =~= board_word());
    let rest = inner.skip(5);
    assert(rest =~= seq![' '] + nums);
    lemma_lead_ws(rest, 1);
    let r1 = rest.skip(1);
    assert(r1 =~= nums);
    lemma_trail_ws(r1, 0);
    assert(r1.take(r1.len() - 0) =~= nums);
    assert(trim(rest) =~= nums);
    assert forall|i: int| 0 <= i < inner.len() implies inner[i] != '@' by {
        if i >= 6 {
            assert(inner[i] == nums[i - 6]);
        }
    }
    lemma_find(inner, '@', inner.len() as int);
}

/// A written board heading reads back as its board: the line between the
/// newlines of [`board_head`] is the header of board `b`, for every board
/// but home, which is no section — and it is no per-screen header.
pub proof fn law_a_written_board_heading_reads_back(b: BoardId)
    requires
        b != (0i32, 0i32),
    ensures
        board_header_of(board_head(b).subrange(1, board_head(b).len() - 1)) == Some(b),
        res_header_of(board_head(b).subrange(1, board_head(b).len() - 1)) is None,
{
    lemma_heading_words(b);
    lemma_heading_inner(b);
    lemma_signed_reads_back(b.0);
    lemma_signed_reads_back(b.1);
}

} // verus!

//! The flexbox grammar of one `.layaut` section: `[column]` blocks of
//! settings and `panel =` lines, with `units` and `pad_x` standing before
//! the first column.
//!
//! A number stays as the file wrote it — reading it as a length is the
//! layout engine's business — but every placement a `panel =` line makes
//! lands in the instance list here, under the identity the file gave it
//! or a fresh one.

use vstd::prelude::*;
use crate::base::{Panel, Registry};
use crate::text::{
    after_line, chars_of, eq_ignore_case, eq_ignore_case_in, eq_in, find, find_in, first_line,
    next_line, next_word, string_of, trim, trim_in, words,
};
use super::def::BoardId;
use super::instance::{free_from, Instance, InstanceId, InstanceList, GENERATED};
use super::layaut::{clean_placement_in, clean_placement_of, column_word, parse_ref, ref_of};

verus! {

// ------------------------------------------------------------ the words

/// A setting of a column, as the file names it.
#[derive(Clone, Copy, PartialEq, Eq, Debug, Structural)]
pub enum ColumnKey {
    /// `basis`: the preferred width, a share of the row.
    Basis,
    /// `min`: the narrowest the column may get.
    Min,
    /// `max`: the widest the column may get.
    Max,
    /// `grow`: its share of the leftover width.
    Grow,
    /// `collapse`: the order in which columns give up when space runs out.
    Collapse,
    /// `gap`: the space between its panels.
    Gap,
}

/// A size a `panel =` line may carry after its weight.
#[derive(Clone, Copy, PartialEq, Eq, Debug, Structural)]
pub enum PanelField {
    /// `ref <h>`: the height the panel is drawn for.
    Ref,
    /// `min <h>`: the height below which it does not go.
    Min,
}

pub open spec fn units_word() -> Seq<char> {
    seq!['u', 'n', 'i', 't', 's']
}

pub open spec fn px_word() -> Seq<char> {
    seq!['p', 'x']
}

pub open spec fn pad_x_word() -> Seq<char> {
    seq!['p', 'a', 'd', '_', 'x']
}

pub open spec fn panel_word() -> Seq<char> {
    seq!['p', 'a', 'n', 'e', 'l']
}

/// The column setting a key names, if any.
pub open spec fn setting_key(k: Seq<char>) -> Option<ColumnKey> {
    if k == seq!['b', 'a', 's', 'i', 's'] {
        Some(ColumnKey::Basis)
    } else if k == seq!['m', 'i', 'n'] {
        Some(ColumnKey::Min)
    } else if k == seq!['m', 'a', 'x'] {
        Some(ColumnKey::Max)
    } else if k == seq!['g', 'r', 'o', 'w'] {
        Some(ColumnKey::Grow)
    } else if k == seq!['c', 'o', 'l', 'l', 'a', 'p', 's', 'e'] {
        Some(ColumnKey::Collapse)
    } else if k == seq!['g', 'a', 'p'] {
        Some(ColumnKey::Gap)
    } else {
        None
    }
}

/// The panel field a word names, if any.
pub open spec fn field_key(k: Seq<char>) -> Option<PanelField> {
    if k == seq!['r', 'e', 'f'] {
        Some(PanelField::Ref)
    } else if k == seq!['m', 'i', 'n'] {
        Some(PanelField::Min)
    } else {
        None
    }
}

/// The fields of a panel line, read from the words after its weight: the
/// words pair up as `key value`, a last key may stand without its value,
/// and a pair whose key is no field is passed over.
pub open spec fn fields_of(ws: Seq<Seq<char>>) -> Seq<(PanelField, Option<Seq<char>>)>
    decreases ws.len(),
{
    if ws.len() == 0 {
        Seq::empty()
    } else {
        let val = if ws.len() > 1 {
            Some(ws[1])
        } else {
            None
        };
        let rest = if ws.len() > 1 {
            fields_of(ws.skip(2))
        } else {
            Seq::empty()
        };
        match field_key(ws[0]) {
            Some(f) => seq![(f, val)] + rest,
            None => rest,
        }
    }
}

// ------------------------------------------------------------ the result

/// One `panel =` line that found its widget: the instance it placed, and
/// its numbers as the file wrote them.
pub struct ColumnEntry {
    pub id: InstanceId,
    pub widget: Panel,
    /// The word after the widget: its height weight.
    pub weight: Option<String>,
    pub fields: Vec<(PanelField, Option<String>)>,
}

/// One `[column]` block: its settings in file order, and its panels top
/// to bottom.
pub struct ColumnText {
    pub settings: Vec<(ColumnKey, String)>,
    pub entries: Vec<ColumnEntry>,
}

/// A flexbox section: its columns left to right, whether `units = px`,
/// and the last `pad_x` it gave.
pub struct FlexText {
    pub columns: Vec<ColumnText>,
    pub units_px: bool,
    pub pad_x: Option<String>,
}

pub open spec fn text_of(o: Option<String>) -> Option<Seq<char>> {
    match o {
        Some(s) => Some(s@),
        None => None,
    }
}

pub struct EntryView {
    pub id: InstanceId,
    pub widget: Panel,
    pub weight: Option<Seq<char>>,
    pub fields: Seq<(PanelField, Option<Seq<char>>)>,
}

pub struct ColumnView {
    pub settings: Seq<(ColumnKey, Seq<char>)>,
    pub entries: Seq<EntryView>,
}

pub open spec fn fields_view(v: Seq<(PanelField, Option<String>)>) -> Seq<
    (PanelField, Option<Seq<char>>),
> {
    v.map_values(|f: (PanelField, Option<String>)| (f.0, text_of(f.1)))
}

pub open spec fn settings_view(v: Seq<(ColumnKey, String)>) -> Seq<(ColumnKey, Seq<char>)> {
    v.map_values(|s: (ColumnKey, String)| (s.0, s.1@))
}

pub open spec fn entries_view(v: Seq<ColumnEntry>) -> Seq<EntryView> {
    v.map_values(|e: ColumnEntry| e@)
}

pub open spec fn columns_view(v: Seq<ColumnText>) -> Seq<ColumnView> {
    v.map_values(|c: ColumnText| c@)
}

impl View for ColumnEntry {
    type V = EntryView;

    open spec fn view(&self) -> EntryView {
        EntryView {
            id: self.id,
            widget: self.widget,
            weight: text_of(self.weight),
            fields: fields_view(self.fields@),
        }
    }
}

impl View for ColumnText {
    type V = ColumnView;

    open spec fn view(&self) -> ColumnView {
        ColumnView { settings: settings_view(self.settings@), entries: entries_view(self.entries@) }
    }
}

// ------------------------------------------------------------ placing

/// Whether some instance of `items` carries `id`.
pub open spec fn holds_in<R>(items: Seq<Instance<R>>, id: InstanceId) -> bool {
    exists|i: int| 0 <= i < items.len() && #[trigger] items[i].id == id
}

/// Whether the list takes the identity a file gave: a saved-range id no
/// instance carries yet.
pub open spec fn takes_id<R>(items: Seq<Instance<R>>, id: Option<InstanceId>) -> bool {
    match id {
        Some(i) => i.num() != 0 && i.num() < GENERATED && !holds_in(items, i),
        None => false,
    }
}

/// The identity a placement ends up with: the file's when the list takes
/// it, else the counter's next value.
pub open spec fn placed_id<R>(items: Seq<Instance<R>>, counter: u32, id: Option<InstanceId>) -> InstanceId {
    match id {
        Some(i) => if takes_id(items, id) {
            i
        } else {
            InstanceId::spec_new(free_from(counter))
        },
        None => InstanceId::spec_new(free_from(counter)),
    }
}

/// The counter after a placement: dragged past a file's id, or moved past
/// the fresh one.
pub open spec fn counter_after<R>(items: Seq<Instance<R>>, counter: u32, id: Option<InstanceId>) -> u32 {
    match id {
        Some(i) => if takes_id(items, id) {
            if i.num() + 1 > counter {
                (i.num() + 1) as u32
            } else {
                counter
            }
        } else {
            (free_from(counter) + 1) as u32
        },
        None => (free_from(counter) + 1) as u32,
    }
}

/// The counter, or the start of the generated range if it is lower: a
/// file's id can drag the counter up to there at once, and from there
/// each placement moves it by one.
pub open spec fn ceiling(counter: u32) -> int {
    if counter < GENERATED {
        GENERATED as int
    } else {
        counter as int
    }
}

/// Puts a placement into the list: under the identity the file gave it
/// when the list takes that one, else under a fresh one — a duplicated
/// id in a hand-edited file is no reason to lose the placement. Returns
/// the identity it ended up with.
pub fn place<R: Copy>(
    insts: &mut InstanceList<R>,
    widget: Panel,
    id: Option<InstanceId>,
    board: BoardId,
    rect: Option<R>,
) -> (r: InstanceId)
    requires
        old(insts).wf(),
        free_from(old(insts).counter()) < u32::MAX,
    ensures
        final(insts).wf(),
        r == placed_id(old(insts).items(), old(insts).counter(), id),
        final(insts).counter() == counter_after(old(insts).items(), old(insts).counter(), id),
        final(insts).items() == old(insts).items().push(Instance { id: r, widget, board, rect }),
        ceiling(final(insts).counter()) <= ceiling(old(insts).counter()) + 1,
        final(insts).counter() >= old(insts).counter(),
{
    if let Some(i) = id {
        if insts.restore(Instance { id: i, widget, board, rect }) {
            return i;
        }
    }
    let ghost before = *insts;
    let n = insts.add(widget, board, rect);
    proof {
        InstanceId::lemma_spec_new(free_from(before.counter()));
        InstanceId::lemma_num_injective(n, InstanceId::spec_new(free_from(before.counter())));
        assert(insts.items() =~= before.items().push(Instance { id: n, widget, board, rect }));
    }
    n
}

// ------------------------------------------------------------ the grammar

/// Closing the open column keeps it only when a panel stands in it: a
/// column whose every widget is uninstalled is no column any more.
pub open spec fn close_column(columns: Seq<ColumnView>, cur: Option<ColumnView>) -> Seq<ColumnView> {
    match cur {
        Some(c) => if c.entries.len() > 0 {
            columns.push(c)
        } else {
            columns
        },
        None => columns,
    }
}

/// Where the reading of a section stands: the columns closed so far, the
/// one still open, the two page settings, and the instance list.
pub struct FlexState<R> {
    pub columns: Seq<ColumnView>,
    pub cur: Option<ColumnView>,
    pub units_px: bool,
    pub pad_x: Option<Seq<char>>,
    pub items: Seq<Instance<R>>,
    pub counter: u32,
}

/// A `panel = <widget>[#<id>] <weight> [ref <h>] [min <h>]` line inside
/// the open column `c`: a widget this installation has is placed, flowing
/// on `board`, and joins the column; any other line changes nothing.
pub open spec fn panel_step<R>(
    reg: &Registry,
    board: BoardId,
    st: FlexState<R>,
    c: ColumnView,
    v: Seq<char>,
) -> FlexState<R> {
    let ws = words(v);
    let tok = if ws.len() > 0 {
        ws[0]
    } else {
        Seq::empty()
    };
    match ref_of(reg, tok) {
        None => st,
        Some((p, id)) => {
            let n = placed_id(st.items, st.counter, id);
            FlexState {
                items: st.items.push(Instance { id: n, widget: p, board, rect: None }),
                counter: counter_after(st.items, st.counter, id),
                cur: Some(
                    ColumnView {
                        entries: c.entries.push(
                            EntryView {
                                id: n,
                                widget: p,
                                weight: if ws.len() > 1 {
                                    Some(ws[1])
                                } else {
                                    None
                                },
                                fields: if ws.len() > 2 {
                                    fields_of(ws.skip(2))
                                } else {
                                    Seq::empty()
                                },
                            },
                        ),
                        ..c
                    },
                ),
                ..st
            }
        },
    }
}

/// One line of a flexbox section. `[column]` (any case) closes the open
/// column and opens an empty one. Before the first column only `units`
/// and `pad_x` mean anything; inside one, a setting is recorded with its
/// value as written and a `panel` line places its widget. Anything else
/// — a blank line, a line with no `=`, an unknown key — changes nothing.
pub open spec fn flex_step<R>(
    reg: &Registry,
    board: BoardId,
    st: FlexState<R>,
    line: Seq<char>,
) -> FlexState<R> {
    let t = clean_placement_of(line);
    if t.len() == 0 {
        st
    } else if eq_ignore_case(t, column_word()) {
        FlexState {
            columns: close_column(st.columns, st.cur),
            cur: Some(ColumnView { settings: Seq::empty(), entries: Seq::empty() }),
            ..st
        }
    } else {
        let e = find(t, '=');
        if e >= t.len() {
            st
        } else {
            let k = trim(t.take(e as int));
            let v = trim(t.skip(e + 1 as int));
            match st.cur {
                None => if k == units_word() {
                    FlexState { units_px: eq_ignore_case(v, px_word()), ..st }
                } else if k == pad_x_word() {
                    FlexState { pad_x: Some(v), ..st }
                } else {
                    st
                },
                Some(c) => match setting_key(k) {
                    Some(key) => FlexState {
                        cur: Some(ColumnView { settings: c.settings.push((key, v)), ..c }),
                        ..st
                    },
                    None => if k == panel_word() {
                        panel_step(reg, board, st, c, v)
                    } else {
                        st
                    },
                },
            }
        }
    }
}

/// The lines of `s`, read one by one from `st`.
pub open spec fn flex_from<R>(
    reg: &Registry,
    board: BoardId,
    st: FlexState<R>,
    s: Seq<char>,
) -> FlexState<R>
    decreases s.len(),
{
    if s.len() == 0 {
        st
    } else {
        proof {
            crate::text::lemma_after_line_shorter(s);
        }
        flex_from(reg, board, flex_step(reg, board, st, first_line(s)), after_line(s))
    }
}

/// A whole section read into a list holding `items` under `counter`.
pub open spec fn flex_of<R>(
    reg: &Registry,
    board: BoardId,
    src: Seq<char>,
    items: Seq<Instance<R>>,
    counter: u32,
) -> FlexState<R> {
    flex_from(
        reg,
        board,
        FlexState { columns: Seq::empty(), cur: None, units_px: false, pad_x: None, items, counter },
        src,
    )
}

/// The columns a finished reading keeps: the open one closed.
pub open spec fn kept_columns<R>(st: FlexState<R>) -> Seq<ColumnView> {
    close_column(st.columns, st.cur)
}

// ------------------------------------------------------------ the law

/// Whether `items` holds the flowing instance an entry read on `board`
/// stands for.
pub open spec fn placed_in<R>(items: Seq<Instance<R>>, board: BoardId, e: EntryView) -> bool {
    exists|i: int|
        0 <= i < items.len() && #[trigger] items[i].id == e.id && items[i].widget == e.widget
            && items[i].board == board && items[i].rect is None
}

/// Every entry of the columns `cs` stands in `items`.
pub open spec fn all_placed<R>(items: Seq<Instance<R>>, board: BoardId, cs: Seq<ColumnView>) -> bool {
    forall|j: int, k: int|
        0 <= j < cs.len() && 0 <= k < cs[j].entries.len() ==> placed_in(
            items,
            board,
            #[trigger] cs[j].entries[k],
        )
}

spec fn reading_placed<R>(board: BoardId, st: FlexState<R>) -> bool {
    &&& all_placed(st.items, board, st.columns)
    &&& match st.cur {
        Some(c) => all_placed(st.items, board, seq![c]),
        None => true,
    }
}

/// What stood in `items` still stands in `items` with one more pushed.
proof fn lemma_placed_push<R>(items: Seq<Instance<R>>, x: Instance<R>, board: BoardId, cs: Seq<ColumnView>)
    requires
        all_placed(items, board, cs),
    ensures
        all_placed(items.push(x), board, cs),
{
    assert forall|j: int, k: int| 0 <= j < cs.len() && 0 <= k < cs[j].entries.len() implies placed_in(
        items.push(x),
        board,
        #[trigger] cs[j].entries[k],
    ) by {
        let e = cs[j].entries[k];
        assert(placed_in(items, board, e));
        let i = choose|i: int|
            0 <= i < items.len() && #[trigger] items[i].id == e.id && items[i].widget == e.widget
                && items[i].board == board && items[i].rect is None;
        assert(items.push(x)[i] == items[i]);
    }
}

proof fn lemma_step_placed<R>(reg: &Registry, board: BoardId, st: FlexState<R>, line: Seq<char>)
    requires
        reading_placed(board, st),
    ensures
        reading_placed(board, flex_step(reg, board, st, line)),
{
    let t = clean_placement_of(line);
    if t.len() == 0 {
    } else if eq_ignore_case(t, column_word()) {
        if let Some(c) = st.cur {
            if c.entries.len() > 0 {
                let cs = st.columns.push(c);
                assert forall|j: int, k: int| 0 <= j < cs.len() && 0 <= k < cs[j].entries.len() implies placed_in(
                    st.items,
                    board,
                    #[trigger] cs[j].entries[k],
                ) by {
                    if j == st.columns.len() {
                        assert(seq![c][0] == c);
                    }
                }
            }
        }
        let fresh = ColumnView { settings: Seq::empty(), entries: Seq::empty() };
        assert(all_placed(st.items, board, seq![fresh]));
    } else {
        let e = find(t, '=');
        if e < t.len() {
            let k = trim(t.take(e as int));
            let v = trim(t.skip(e + 1 as int));
            if let Some(c) = st.cur {
                if let Some(key) = setting_key(k) {
                    let c2 = ColumnView { settings: c.settings.push((key, v)), ..c };
                    assert forall|j: int, q: int| 0 <= j < 1 && 0 <= q < seq![c2][j].entries.len() implies placed_in(
                        st.items,
                        board,
                        #[trigger] seq![c2][j].entries[q],
                    ) by {
                        assert(seq![c2][j] == c2);
                        assert(seq![c][j] == c);
                        assert(seq![c][j].entries[q] == c2.entries[q]);
                    }
                } else if k == panel_word() {
                    lemma_panel_placed(reg, board, st, c, v);
                }
            }
        }
    }
}

proof fn lemma_panel_placed<R>(reg: &Registry, board: BoardId, st: FlexState<R>, c: ColumnView, v: Seq<char>)
    requires
        reading_placed(board, st),
        st.cur == Some(c),
    ensures
        reading_placed(board, panel_step(reg, board, st, c, v)),
{
    let ws = words(v);
    let tok = if ws.len() > 0 {
        ws[0]
    } else {
        Seq::empty()
    };
    if let Some((p, id)) = ref_of(reg, tok) {
        {
            let n = placed_id(st.items, st.counter, id);
            let x = Instance { id: n, widget: p, board, rect: None };
            let items = st.items.push(x);
            let after = panel_step(reg, board, st, c, v);
            lemma_placed_push(st.items, x, board, st.columns);
            lemma_placed_push(st.items, x, board, seq![c]);
            let c2 = after.cur->0;
            let e = c2.entries.last();
            assert(c2.entries == c.entries.push(e));
            assert(e.id == n && e.widget == p);
            assert(items[st.items.len() as int] == x);
            assert(items[st.items.len() as int].id == e.id);
            assert(placed_in(items, board, e));
            assert forall|j: int, q: int| 0 <= j < 1 && 0 <= q < seq![c2][j].entries.len() implies placed_in(
                items,
                board,
                #[trigger] seq![c2][j].entries[q],
            ) by {
                assert(seq![c2][j] == c2);
                if q < c.entries.len() {
                    assert(seq![c][0] == c);
                    assert(c2.entries[q] == c.entries[q]);
                    assert(placed_in(items, board, seq![c][0].entries[q]));
                } else {
                    assert(c2.entries[q] == e);
                }
            }
        }
    }
}

proof fn lemma_from_placed<R>(reg: &Registry, board: BoardId, st: FlexState<R>, s: Seq<char>)
    requires
        reading_placed(board, st),
    ensures
        reading_placed(board, flex_from(reg, board, st, s)),
    decreases s.len(),
{
    if s.len() > 0 {
        crate::text::lemma_after_line_shorter(s);
        lemma_step_placed(reg, board, st, first_line(s));
        lemma_from_placed(reg, board, flex_step(reg, board, st, first_line(s)), after_line(s));
    }
}

/// Every panel a flexbox section keeps stands in the instance list it
/// was read into: the same identity and widget, flowing on the board the
/// section was read for.
pub proof fn law_every_kept_panel_is_placed<R>(
    reg: &Registry,
    board: BoardId,
    src: Seq<char>,
    items: Seq<Instance<R>>,
    counter: u32,
)
    ensures
        all_placed(
            flex_of(reg, board, src, items, counter).items,
            board,
            kept_columns(flex_of(reg, board, src, items, counter)),
        ),
{
    let st0 = FlexState { columns: Seq::empty(), cur: None, units_px: false, pad_x: None, items, counter };
    lemma_from_placed(reg, board, st0, src);
    let st = flex_of(reg, board, src, items, counter);
    if let Some(c) = st.cur {
        if c.entries.len() > 0 {
            let cs = st.columns.push(c);
            assert forall|j: int, k: int| 0 <= j < cs.len() && 0 <= k < cs[j].entries.len() implies placed_in(
                st.items,
                board,
                #[trigger] cs[j].entries[k],
            ) by {
                if j == st.columns.len() {
                    assert(seq![c][0] == c);
                }
            }
        }
    }
}

// ------------------------------------------------------------ reading

fn setting_key_in(v: &Vec<char>, lo: usize, hi: usize) -> (r: Option<ColumnKey>)
    requires
        lo <= hi <= v@.len(),
    ensures
        r == setting_key(v@.subrange(lo as int, hi as int)),
{
    let basis: Vec<char> = vec!['b', 'a', 's', 'i', 's'];
    let min: Vec<char> = vec!['m', 'i', 'n'];
    let max: Vec<char> = vec!['m', 'a', 'x'];
    let grow: Vec<char> = vec!['g', 'r', 'o', 'w'];
    let collapse: Vec<char> = vec!['c', 'o', 'l', 'l', 'a', 'p', 's', 'e'];
    let gap: Vec<char> = vec!['g', 'a', 'p'];
    if eq_in(v, lo, hi, &basis) {
        Some(ColumnKey::Basis)
    } else if eq_in(v, lo, hi, &min) {
        Some(ColumnKey::Min)
    } else if eq_in(v, lo, hi, &max) {
        Some(ColumnKey::Max)
    } else if eq_in(v, lo, hi, &grow) {
        Some(ColumnKey::Grow)
    } else if eq_in(v, lo, hi, &collapse) {
        Some(ColumnKey::Collapse)
    } else if eq_in(v, lo, hi, &gap) {
        Some(ColumnKey::Gap)
    } else {
        None
    }
}

fn field_key_in(v: &Vec<char>, lo: usize, hi: usize) -> (r: Option<PanelField>)
    requires
        lo <= hi <= v@.len(),
    ensures
        r == field_key(v@.subrange(lo as int, hi as int)),
{
    let rf: Vec<char> = vec!['r', 'e', 'f'];
    let min: Vec<char> = vec!['m', 'i', 'n'];
    if eq_in(v, lo, hi, &rf) {
        Some(PanelField::Ref)
    } else if eq_in(v, lo, hi, &min) {
        Some(PanelField::Min)
    } else {
        None
    }
}

/// The fields of the words of `v[lo..hi]`.
fn fields_in(v: &Vec<char>, lo: usize, hi: usize) -> (r: Vec<(PanelField, Option<String>)>)
    requires
        lo <= hi <= v@.len(),
    ensures
        fields_view(r@) == fields_of(words(v@.subrange(lo as int, hi as int))),
{
    let mut out: Vec<(PanelField, Option<String>)> = Vec::new();
    let mut pos = lo;
    assert(fields_view(out@) =~= Seq::empty());
    loop
        invariant
            lo <= pos <= hi <= v@.len(),
            fields_view(out@) + fields_of(words(v@.subrange(pos as int, hi as int))) == fields_of(
                words(v@.subrange(lo as int, hi as int)),
            ),
        decreases hi - pos,
    {
        match next_word(v, pos, hi) {
            None => {
                assert(fields_view(out@) + Seq::empty() =~= fields_view(out@));
                return out;
            },
            Some((a, b)) => {
                let ghost ws = words(v@.subrange(pos as int, hi as int));
                let (val, next) = match next_word(v, b, hi) {
                    Some((c, d)) => {
                        assert(ws.skip(2) =~= words(v@.subrange(d as int, hi as int)));
                        (Some(string_of(v, c, d)), d)
                    },
                    None => (None, hi),
                };
                let ghost before = fields_view(out@);
                match field_key_in(v, a, b) {
                    Some(f) => {
                        out.push((f, val));
                        assert(fields_view(out@) =~= before.push((f, text_of(val))));
                        assert(fields_view(out@) + fields_of(words(v@.subrange(next as int, hi as int)))
                            =~= before + fields_of(ws));
                    },
                    None => {},
                }
                pos = next;
            },
        }
    }
}

/// The exec side of a [`FlexState`], less its instance list.
struct Reading {
    columns: Vec<ColumnText>,
    open: bool,
    settings: Vec<(ColumnKey, String)>,
    entries: Vec<ColumnEntry>,
    units_px: bool,
    pad_x: Option<String>,
}

impl Reading {
    spec fn cur(&self) -> Option<ColumnView> {
        if self.open {
            Some(ColumnView { settings: settings_view(self.settings@), entries: entries_view(self.entries@) })
        } else {
            None
        }
    }

    spec fn state<R>(&self, items: Seq<Instance<R>>, counter: u32) -> FlexState<R> {
        FlexState {
            columns: columns_view(self.columns@),
            cur: self.cur(),
            units_px: self.units_px,
            pad_x: text_of(self.pad_x),
            items,
            counter,
        }
    }

    /// A `panel =` line whose value is `v[lo..hi]`, in the open column.
    fn panel<R: Copy>(
        &mut self,
        reg: &Registry,
        board: BoardId,
        insts: &mut InstanceList<R>,
        v: &Vec<char>,
        lo: usize,
        hi: usize,
    )
        requires
            old(insts).wf(),
            free_from(old(insts).counter()) < u32::MAX,
            old(self).open,
            lo <= hi <= v@.len(),
        ensures
            final(insts).wf(),
            ceiling(final(insts).counter()) <= ceiling(old(insts).counter()) + 1,
            final(insts).counter() >= old(insts).counter(),
            final(self).state(final(insts).items(), final(insts).counter()) == panel_step(
                reg,
                board,
                old(self).state(old(insts).items(), old(insts).counter()),
                old(self).cur()->0,
                v@.subrange(lo as int, hi as int),
            ),
    {
        let ghost ws = words(v@.subrange(lo as int, hi as int));
        let (tok, after_tok) = match next_word(v, lo, hi) {
            Some((a, b)) => (string_of(v, a, b), b),
            None => (String::new(), hi),
        };
        let (weight, after_weight) = match next_word(v, after_tok, hi) {
            Some((c, d)) => (Some(string_of(v, c, d)), d),
            None => (None, hi),
        };
        let fields = fields_in(v, after_weight, hi);
        proof {
            if ws.len() > 2 {
                assert(ws.skip(2) =~= words(v@.subrange(after_weight as int, hi as int)));
            } else {
                assert(words(v@.subrange(after_weight as int, hi as int)).len() == 0);
            }
        }
        match parse_ref(reg, tok.as_str()) {
            None => {},
            Some((p, id)) => {
                let n = place(insts, p, id, board, None);
                let ghost before = entries_view(self.entries@);
                let entry = ColumnEntry { id: n, widget: p, weight, fields };
                self.entries.push(entry);
                assert(entries_view(self.entries@) =~= before.push(entry@));
            },
        }
    }

    /// The line `v[a..b]`.
    fn line<R: Copy>(
        &mut self,
        reg: &Registry,
        board: BoardId,
        insts: &mut InstanceList<R>,
        v: &Vec<char>,
        a: usize,
        b: usize,
    )
        requires
            old(insts).wf(),
            free_from(old(insts).counter()) < u32::MAX,
            a <= b <= v@.len(),
        ensures
            final(insts).wf(),
            ceiling(final(insts).counter()) <= ceiling(old(insts).counter()) + 1,
            final(insts).counter() >= old(insts).counter(),
            final(self).state(final(insts).items(), final(insts).counter()) == flex_step(
                reg,
                board,
                old(self).state(old(insts).items(), old(insts).counter()),
                v@.subrange(a as int, b as int),
            ),
    {
        let (c, d) = clean_placement_in(v, a, b);
        let ghost t = v@.subrange(c as int, d as int);
        if c == d {
            return;
        }
        let col: Vec<char> = vec!['[', 'c', 'o', 'l', 'u', 'm', 'n', ']'];
        assert(col@ == column_word());
        if eq_ignore_case_in(v, c, d, &col) {
            if self.open && self.entries.len() > 0 {
                let ghost before = columns_view(self.columns@);
                let mut s: Vec<(ColumnKey, String)> = Vec::new();
                std::mem::swap(&mut s, &mut self.settings);
                let mut e: Vec<ColumnEntry> = Vec::new();
                std::mem::swap(&mut e, &mut self.entries);
                let done = ColumnText { settings: s, entries: e };
                self.columns.push(done);
                assert(columns_view(self.columns@) =~= before.push(done@));
            } else {
                self.settings = Vec::new();
                self.entries = Vec::new();
            }
            self.open = true;
            assert(settings_view(self.settings@) =~= Seq::empty());
            assert(entries_view(self.entries@) =~= Seq::empty());
            return;
        }
        let e = find_in(v, c, d, '=');
        if e == d {
            return;
        }
        assert(t.take(e - c) == v@.subrange(c as int, e as int));
        assert(t.skip(e - c + 1) == v@.subrange(e + 1, d as int));
        let (k0, k1) = trim_in(v, c, e);
        let (v0, v1) = trim_in(v, e + 1, d);
        if !self.open {
            let units: Vec<char> = vec!['u', 'n', 'i', 't', 's'];
            let pad: Vec<char> = vec!['p', 'a', 'd', '_', 'x'];
            assert(units@ == units_word());
            assert(pad@ == pad_x_word());
            if eq_in(v, k0, k1, &units) {
                let px: Vec<char> = vec!['p', 'x'];
                assert(px@ == px_word());
                self.units_px = eq_ignore_case_in(v, v0, v1, &px);
            } else if eq_in(v, k0, k1, &pad) {
                self.pad_x = Some(string_of(v, v0, v1));
            }
            return;
        }
        match setting_key_in(v, k0, k1) {
            Some(key) => {
                let ghost before = settings_view(self.settings@);
                let val = string_of(v, v0, v1);
                self.settings.push((key, val));
                assert(settings_view(self.settings@) =~= before.push((key, val@)));
            },
            None => {
                let word: Vec<char> = vec!['p', 'a', 'n', 'e', 'l'];
                assert(word@ == panel_word());
                if eq_in(v, k0, k1, &word) {
                    self.panel(reg, board, insts, v, v0, v1);
                }
            },
        }
    }

    /// The reading done: the open column closed, and None when no column
    /// kept a panel.
    fn finish(self) -> (r: Option<FlexText>)
        ensures
            match r {
                None => close_column(columns_view(self.columns@), self.cur()).len() == 0,
                Some(f) => {
                    &&& columns_view(f.columns@) == close_column(columns_view(self.columns@), self.cur())
                    &&& f.columns@.len() > 0
                    &&& f.units_px == self.units_px
                    &&& text_of(f.pad_x) == text_of(self.pad_x)
                },
            },
    {
        let ghost before = columns_view(self.columns@);
        let mut columns = self.columns;
        if self.open && self.entries.len() > 0 {
            let done = ColumnText { settings: self.settings, entries: self.entries };
            columns.push(done);
            assert(columns_view(columns@) =~= before.push(done@));
        }
        if columns.len() == 0 {
            None
        } else {
            Some(FlexText { columns, units_px: self.units_px, pad_x: self.pad_x })
        }
    }
}

/// Reads the flexbox grammar of one section, putting every placement a
/// `panel =` line makes into `insts` as a flowing instance of `board`.
/// None when no column is left with a panel in it. The counter must have
/// room for a placement per character of the section.
pub fn parse_flex_into<R: Copy>(
    reg: &Registry,
    src: &str,
    board: BoardId,
    insts: &mut InstanceList<R>,
) -> (r: Option<FlexText>)
    requires
        old(insts).wf(),
        ceiling(old(insts).counter()) + src@.len() < u32::MAX,
    ensures
        final(insts).wf(),
        final(insts).counter() >= old(insts).counter(),
        final(insts).items() == flex_of(reg, board, src@, old(insts).items(), old(insts).counter()).items,
        final(insts).counter() == flex_of(
            reg,
            board,
            src@,
            old(insts).items(),
            old(insts).counter(),
        ).counter,
        match r {
            None => kept_columns(flex_of(reg, board, src@, old(insts).items(), old(insts).counter())).len()
                == 0,
            Some(f) => {
                let st = flex_of(reg, board, src@, old(insts).items(), old(insts).counter());
                &&& columns_view(f.columns@) == kept_columns(st)
                &&& f.columns@.len() > 0
                &&& f.units_px == st.units_px
                &&& text_of(f.pad_x) == st.pad_x
            },
        },
{
    let v = chars_of(src);
    let n = v.len();
    let ghost want = flex_of(reg, board, src@, insts.items(), insts.counter());
    let ghost c0 = insts.counter();
    let mut rd = Reading {
        columns: Vec::new(),
        open: false,
        settings: Vec::new(),
        entries: Vec::new(),
        units_px: false,
        pad_x: None,
    };
    assert(columns_view(rd.columns@) =~= Seq::empty());
    assert(v@.subrange(0, n as int) == src@);
    let mut pos: usize = 0;
    while pos < n
        invariant
            n == v@.len(),
            pos <= n,
            v@ == src@,
            insts.wf(),
            ceiling(insts.counter()) + (n - pos) < u32::MAX,
            insts.counter() >= c0,
            want == flex_from(
                reg,
                board,
                rd.state(insts.items(), insts.counter()),
                v@.subrange(pos as int, n as int),
            ),
        decreases n - pos,
    {
        let (a, b, next) = next_line(&v, pos, n);
        rd.line(reg, board, insts, &v, a, b);
        pos = next;
    }
    rd.finish()
}

} // verus!

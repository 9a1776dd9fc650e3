//! What the host answers a plugin that asks to see the terminal: which
//! tabs there are, how much of the screen is live, where the cursor is,
//! and how many cells fit in the buffer the plugin handed over. The copy
//! of the cells themselves, and the font metrics that size the grid, are
//! the caller's; every number that decides how far a write may go is
//! decided here.

use vstd::prelude::*;

verus! {

/// The smallest cell a plugin may ask for: the size of one cell record.
pub const CELL_SIZE_MIN: u32 = 44;

/// `flags` bit: a terminal is live.
pub const VIEW_LIVE: u32 = 1;

/// `flags` bit: the cursor is on the delivered screen.
pub const VIEW_CURSOR: u32 = 2;

/// `flags` bit: the buffer held fewer rows than the screen has.
pub const VIEW_TRUNCATED: u32 = 4;

/// How many tabs the answer can describe.
pub const TABS_MAX: usize = 32;

/// The terminal as the host sees it.
#[derive(Clone, Copy, Debug)]
pub struct TermShape {
    pub cols: usize,
    pub rows: usize,
    pub cur_x: usize,
    pub cur_y: usize,
    pub cursor_visible: bool,
    /// How far the view is scrolled back; 0 is the live screen.
    pub view_offset: usize,
}

/// The host's answer, less the cells and the font metrics.
#[derive(Clone, Copy, Debug, PartialEq, Eq)]
pub struct ViewPlan {
    /// Bit `i` set when tab `i` is lit, for the first [`TABS_MAX`] tabs.
    pub tabs: u32,
    pub tab_count: u32,
    pub tab_active: u32,
    pub flags: u32,
    pub view_offset: u32,
    pub cursor_col: u32,
    pub cursor_row: u32,
    /// The columns and rows of cells delivered.
    pub view_cols: u32,
    pub view_rows: u32,
    /// How many cells are written.
    pub written: u32,
}

/// `2^i`.
pub open spec fn bit(i: nat) -> nat
    decreases i,
{
    if i == 0 {
        1
    } else {
        2 * bit((i - 1) as nat)
    }
}

/// The bitmask of the first `n` tabs of `s`: bit `i` for each lit tab `i`.
pub open spec fn tab_mask(s: Seq<bool>, n: nat) -> nat
    decreases n,
{
    if n == 0 {
        0
    } else {
        tab_mask(s, (n - 1) as nat) + if s[n - 1] {
            bit((n - 1) as nat)
        } else {
            0
        }
    }
}

pub open spec fn min(a: int, b: int) -> int {
    if a < b {
        a
    } else {
        b
    }
}

/// The cells a buffer of `bytes` bytes holds at `stride` bytes apiece: none
/// when there is no buffer or the stride is shorter than a cell.
pub open spec fn room(null: bool, stride: u32, bytes: u32) -> int {
    if null || stride < CELL_SIZE_MIN {
        0
    } else {
        bytes as int / stride as int
    }
}

/// The whole rows of `vcols` cells that fit in `room` cells, at most `vrows`.
pub open spec fn fit_rows(room: int, vcols: int, vrows: int) -> int {
    if vcols == 0 {
        0
    } else {
        min(room / vcols, vrows)
    }
}

/// Whether the cursor is shown: it is visible, the view is the live
/// screen, and its row is among those the grid has.
pub open spec fn cursor_shown(t: TermShape, vrows: int) -> bool {
    t.cursor_visible && t.view_offset == 0 && t.cur_y < vrows
}

fn min_u64(a: u64, b: u64) -> (r: u64)
    ensures
        r == min(a as int, b as int),
{
    if a < b {
        a
    } else {
        b
    }
}

/// The plan for a grid of `cols` by `rows` cells, with the host's tabs
/// and terminal, into a buffer of `cells_bytes` bytes at `cell_stride`
/// bytes per cell (`cells_null` when the plugin handed none).
pub fn term_view_plan(
    cols: u32,
    rows: u32,
    term: Option<TermShape>,
    tabs: &Vec<bool>,
    tab_active: usize,
    cells_null: bool,
    cell_stride: u32,
    cells_bytes: u32,
) -> (p: ViewPlan)
    ensures
        p.tab_count == min(tabs@.len() as int, TABS_MAX as int),
        p.tabs == tab_mask(tabs@, p.tab_count as nat),
        p.tab_active == min(tab_active as int, u32::MAX as int),
        match term {
            None => {
                &&& p.flags == 0
                &&& p.view_offset == 0 && p.view_cols == 0 && p.view_rows == 0 && p.written == 0
                &&& p.cursor_col == 0 && p.cursor_row == 0
            },
            Some(t) => {
                let vcols = min(cols as int, t.cols as int);
                let vrows = min(rows as int, t.rows as int);
                let fit = fit_rows(room(cells_null, cell_stride, cells_bytes), vcols, vrows);
                &&& p.view_cols == vcols
                &&& p.view_rows == fit
                &&& p.view_offset == min(t.view_offset as int, u32::MAX as int)
                &&& fit * vcols * cell_stride <= cells_bytes
                &&& p.written == min(fit * vcols, u32::MAX as int)
                &&& p.flags == VIEW_LIVE + (if cursor_shown(t, vrows) {
                    VIEW_CURSOR
                } else {
                    0
                }) + (if fit < vrows {
                    VIEW_TRUNCATED
                } else {
                    0
                })
                &&& cursor_shown(t, vrows) ==> p.cursor_col == min(t.cur_x as int, u32::MAX as int)
                    && p.cursor_row == t.cur_y
                &&& !cursor_shown(t, vrows) ==> p.cursor_col == 0 && p.cursor_row == 0
            },
        },
        p.flags & VIEW_CURSOR != 0 ==> term is Some && term->0.cursor_visible && term->0.view_offset == 0,
{
    // The tabs.
    let n: usize = if tabs.len() < TABS_MAX {
        tabs.len()
    } else {
        TABS_MAX
    };
    let mut mask: u64 = 0;
    let mut b: u64 = 1;
    let mut i: usize = 0;
    proof {
        reveal_with_fuel(bit, 33);
        assert(bit(32) == 0x1_0000_0000);
    }
    while i < n
        invariant
            n <= TABS_MAX,
            n <= tabs@.len(),
            i <= n,
            b == bit(i as nat),
            mask == tab_mask(tabs@, i as nat),
            mask < b,
            bit(32) == 0x1_0000_0000,
            b <= 0x1_0000_0000,
        decreases n - i,
    {
        proof {
            lemma_bit_grows((i + 1) as nat, 32);
            assert(bit((i + 1) as nat) == 2 * bit(i as nat));
        }
        if tabs[i] {
            mask = mask + b;
        }
        b = b * 2;
        i += 1;
    }
    let mut p = ViewPlan {
        tabs: mask as u32,
        tab_count: n as u32,
        tab_active: min_u64(tab_active as u64, u32::MAX as u64) as u32,
        flags: 0,
        view_offset: 0,
        cursor_col: 0,
        cursor_row: 0,
        view_cols: 0,
        view_rows: 0,
        written: 0,
    };
    if let Some(t) = term {
        p.flags = VIEW_LIVE;
        p.view_offset = min_u64(t.view_offset as u64, u32::MAX as u64) as u32;
        let vcols = min_u64(cols as u64, t.cols as u64);
        let vrows = min_u64(rows as u64, t.rows as u64);
        if t.cursor_visible && t.view_offset == 0 && (t.cur_y as u64) < vrows {
            p.flags = p.flags + VIEW_CURSOR;
            p.cursor_col = min_u64(t.cur_x as u64, u32::MAX as u64) as u32;
            p.cursor_row = t.cur_y as u32;
        }
        let rm: u64 = if cells_null || cell_stride < CELL_SIZE_MIN {
            0
        } else {
            cells_bytes as u64 / cell_stride as u64
        };
        let fit: u64 = if vcols == 0 {
            0
        } else {
            min_u64(rm / vcols, vrows)
        };
        proof {
            lemma_fit(rm as int, vcols as int, vrows as int, cells_null, cell_stride, cells_bytes);
        }
        p.view_cols = vcols as u32;
        p.view_rows = fit as u32;
        if fit < vrows {
            p.flags = p.flags + VIEW_TRUNCATED;
        }
        p.written = min_u64(fit * vcols, u32::MAX as u64) as u32;
        proof {
            law_the_cursor_bit_is_the_shown_cursor(cursor_shown(t, vrows as int), fit < vrows);
        }
    } else {
        assert(0u32 & 2u32 == 0u32) by (bit_vector);
    }
    p
}

/// Powers of two grow.
proof fn lemma_bit_grows(i: nat, j: nat)
    requires
        i <= j,
    ensures
        bit(i) <= bit(j),
        bit(i) >= 1,
    decreases j,
{
    if j > i {
        lemma_bit_grows(i, (j - 1) as nat);
    } else if i > 0 {
        lemma_bit_grows((i - 1) as nat, (i - 1) as nat);
    }
}

/// The rows that fit never ask for more bytes than the buffer holds.
proof fn lemma_fit(rm: int, vcols: int, vrows: int, null: bool, stride: u32, bytes: u32)
    requires
        rm == room(null, stride, bytes),
        vcols >= 0,
        vrows >= 0,
    ensures
        fit_rows(rm, vcols, vrows) * vcols <= rm,
        fit_rows(rm, vcols, vrows) * vcols * stride <= bytes,
        0 <= fit_rows(rm, vcols, vrows) <= vrows,
        rm <= u32::MAX,
{
    let f = fit_rows(rm, vcols, vrows);
    if !(null || stride < CELL_SIZE_MIN) {
        assert(rm * stride <= bytes && rm >= 0 && rm <= bytes) by (nonlinear_arith)
            requires
                rm == bytes as int / stride as int,
                stride >= 44,
        ;
    }
    if vcols > 0 {
        assert(f * vcols <= rm && f >= 0) by (nonlinear_arith)
            requires
                f == min(rm / vcols, vrows),
                vcols > 0,
                rm >= 0,
                vrows >= 0,
        ;
        assert(f * vcols * stride <= rm * stride) by (nonlinear_arith)
            requires
                f * vcols <= rm,
                f >= 0,
                vcols > 0,
        ;
    }
}


/// A cursor the terminal hides, or one on a screen scrolled back, is
/// never shown.
pub proof fn law_a_hidden_cursor_is_never_shown(t: TermShape, vrows: int)
    requires
        !t.cursor_visible || t.view_offset != 0,
    ensures
        !cursor_shown(t, vrows),
{
}

/// The cursor bit of the flags the plan writes is set exactly when the
/// cursor is shown, whether or not the grid was truncated.
pub proof fn law_the_cursor_bit_is_the_shown_cursor(shown: bool, truncated: bool)
    ensures
        ((VIEW_LIVE + (if shown { VIEW_CURSOR } else { 0 }) + (if truncated { VIEW_TRUNCATED } else { 0 })) as u32
            & VIEW_CURSOR != 0) == shown,
{
    assert((1u32 & 2u32) == 0u32) by (bit_vector);
    assert((3u32 & 2u32) == 2u32) by (bit_vector);
    assert((5u32 & 2u32) == 0u32) by (bit_vector);
    assert((7u32 & 2u32) == 2u32) by (bit_vector);
}

} // verus!

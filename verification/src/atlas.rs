//! The glyph atlas: one single-channel texture that rasterised glyphs
//! are packed into, shelf by shelf from the top left, above a band of
//! rows reserved for procedural masks (the soft disk that glows and
//! shadows are drawn from).
//!
//! The shelf packer never allocates from the band and a reset never
//! clears it. A full atlas is not cleared while a frame is being drawn —
//! glyphs already emitted would lose their pixels — but at the start of
//! the next one. The rows written since the renderer last asked are
//! tracked, so it re-uploads those rows and nothing else.

use vstd::prelude::*;

verus! {

/// Width of the atlas, in pixels.
pub const ATLAS_W: usize = 2048;

/// Height of the atlas, in pixels.
pub const ATLAS_H: usize = 2048;

/// Height of the mask band: the atlas's last rows.
pub const MASK_BAND_H: usize = 128;

/// First row of the mask band; glyphs only ever pack above it.
pub const MASK_BAND_Y: usize = ATLAS_H - MASK_BAND_H;

/// A box of the atlas: left, top, width and height, in pixels.
pub type Area = (int, int, int, int);

/// Whether two boxes share no pixel.
pub open spec fn disjoint(a: Area, b: Area) -> bool {
    ||| a.2 <= 0 || a.3 <= 0 || b.2 <= 0 || b.3 <= 0
    ||| a.0 + a.2 <= b.0 || b.0 + b.2 <= a.0
    ||| a.1 + a.3 <= b.1 || b.1 + b.3 <= a.1
}

/// The pixel at column `x`, row `y` of an atlas image.
pub open spec fn px(p: Seq<u8>, x: int, y: int) -> u8 {
    p[y * ATLAS_W + x]
}

/// Whether `(x, y)` lies in the box `b`.
pub open spec fn inside(b: Area, x: int, y: int) -> bool {
    b.0 <= x < b.0 + b.2 && b.1 <= y < b.1 + b.3
}

/// Whether `q` is `p` with the box `b` filled from `src`, row by row, and
/// every other pixel kept.
pub open spec fn blitted(p: Seq<u8>, q: Seq<u8>, b: Area, src: Seq<u8>) -> bool {
    &&& q.len() == p.len()
    &&& forall|x: int, y: int|
        #![trigger px(q, x, y)]
        0 <= x < ATLAS_W && 0 <= y < ATLAS_H ==> px(q, x, y) == (if inside(b, x, y) {
            src[(y - b.1) * b.2 + (x - b.0)]
        } else {
            px(p, x, y)
        })
}

/// Whether `q` is `p` with every glyph row cleared and the white pixels
/// in the top left corner set, the mask band untouched.
pub open spec fn cleared(p: Seq<u8>, q: Seq<u8>) -> bool {
    &&& q.len() == p.len()
    &&& forall|x: int, y: int|
        #![trigger px(q, x, y)]
        0 <= x < ATLAS_W && 0 <= y < ATLAS_H ==> px(q, x, y) == (if y >= MASK_BAND_Y {
            px(p, x, y)
        } else if x < 2 && y < 2 {
            255
        } else {
            0
        })
}

/// The dirty rows after rows `y0..y1` are written: the smallest range
/// holding both.
pub open spec fn merged(d: Option<(usize, usize)>, y0: usize, y1: usize) -> Option<(usize, usize)> {
    match d {
        Some((lo, hi)) => Some(
            (
                if lo < y0 {
                    lo
                } else {
                    y0
                },
                if hi > y1 {
                    hi
                } else {
                    y1
                },
            ),
        ),
        None => Some((y0, y1)),
    }
}

/// A box packed on an earlier shelf than the one at `cy`, or on that
/// shelf left of the cursor `cx`, no taller than the shelf's height `rh`.
pub open spec fn shelved(b: Area, cx: int, cy: int, rh: int) -> bool {
    &&& b.0 >= 2 && b.1 >= 2 && b.2 >= 0 && b.3 >= 0
    &&& b.0 + b.2 <= ATLAS_W
    &&& b.1 + b.3 + 2 <= MASK_BAND_Y
    &&& (b.1 + b.3 + 2 <= cy || (b.1 == cy && b.0 + b.2 + 2 <= cx && b.3 <= rh))
}

/// The atlas: its pixels, the rows written since the renderer last took
/// them, and the shelf packer's cursor.
pub struct Atlas {
    pixels: Vec<u8>,
    dirty_rows: Option<(usize, usize)>,
    atlas_dirty: bool,
    cur_x: usize,
    cur_y: usize,
    row_h: usize,
    reset_pending: bool,
    placed: Ghost<Seq<Area>>,
}

impl Atlas {
    /// The pixels, row by row.
    pub closed spec fn pixels(&self) -> Seq<u8> {
        self.pixels@
    }

    /// The rows written since the renderer last took them: `lo..hi`.
    pub closed spec fn dirty(&self) -> Option<(usize, usize)> {
        self.dirty_rows
    }

    /// Whether anything was written since the renderer last took the rows.
    pub closed spec fn is_dirty(&self) -> bool {
        self.atlas_dirty
    }

    /// The packer's cursor: column, shelf top, and the shelf's height.
    pub closed spec fn cursor(&self) -> (int, int, int) {
        (self.cur_x as int, self.cur_y as int, self.row_h as int)
    }

    /// Whether a reset waits for the next frame.
    pub closed spec fn pending(&self) -> bool {
        self.reset_pending
    }

    /// The boxes packed since the last reset, in order.
    pub closed spec fn placed(&self) -> Seq<Area> {
        self.placed@
    }

    /// The atlas is well formed: the right size, a dirty range inside it,
    /// a cursor above the band, and every packed box on a shelf behind
    /// the cursor, no two of them sharing a pixel.
    pub closed spec fn wf(&self) -> bool {
        &&& self.pixels@.len() == ATLAS_W * ATLAS_H
        &&& (self.dirty_rows matches Some((lo, hi)) ==> lo <= hi <= ATLAS_H)
        &&& 2 <= self.cur_x <= ATLAS_W
        &&& 2 <= self.cur_y <= MASK_BAND_Y
        &&& self.row_h <= MASK_BAND_Y
        &&& self.cur_x > 2 ==> self.cur_y + self.row_h + 2 <= MASK_BAND_Y
        &&& self.cur_x == 2 ==> self.row_h == 0
        &&& forall|i: int|
            0 <= i < self.placed@.len() ==> shelved(
                #[trigger] self.placed@[i],
                self.cur_x as int,
                self.cur_y as int,
                self.row_h as int,
            )
        &&& forall|i: int, j: int|
            0 <= i < j < self.placed@.len() ==> disjoint(
                #[trigger] self.placed@[i],
                #[trigger] self.placed@[j],
            )
    }

    /// Where the next box of width `w` goes: the cursor, or the start of
    /// a new shelf under the current one when the box does not fit beside
    /// it.
    pub open spec fn shelf_for(&self, w: int) -> (int, int, int) {
        let (cx, cy, rh) = self.cursor();
        if cx + w + 2 > ATLAS_W {
            (2, cy + rh + 2, 0)
        } else {
            (cx, cy, rh)
        }
    }

    /// A blank atlas: every pixel clear but the white ones in the top left
    /// corner that solid fills sample, all of it due for upload.
    pub fn new() -> (a: Atlas)
        ensures
            a.wf(),
            forall|x: int, y: int|
                #![trigger px(a.pixels(), x, y)]
                0 <= x < ATLAS_W && 0 <= y < ATLAS_H ==> px(a.pixels(), x, y) == (if x < 2 && y
                    < 2 {
                    255u8
                } else {
                    0u8
                }),
            a.dirty() == Some((0usize, ATLAS_H)),
            a.is_dirty(),
            a.cursor() == (2int, 2int, 0int),
            !a.pending(),
            a.placed().len() == 0,
    {
        let n = ATLAS_W * ATLAS_H;
        let mut pixels: Vec<u8> = Vec::new();
        let mut i: usize = 0;
        while i < n
            invariant
                n == ATLAS_W * ATLAS_H,
                i <= n,
                pixels@.len() == i,
                forall|k: int| 0 <= k < i ==> pixels@[k] == 0,
            decreases n - i,
        {
            pixels.push(0);
            i += 1;
        }
        let mut a = Atlas {
            pixels,
            dirty_rows: Some((0, ATLAS_H)),
            atlas_dirty: true,
            cur_x: 2,
            cur_y: 2,
            row_h: 0,
            reset_pending: false,
            placed: Ghost(Seq::empty()),
        };
        a.white_corner();
        proof {
            assert forall|x: int, y: int|
                #![trigger px(a.pixels(), x, y)]
                0 <= x < ATLAS_W && 0 <= y < ATLAS_H implies px(a.pixels(), x, y) == (if x < 2
                    && y < 2 {
                    255u8
                } else {
                    0u8
                }) by {
                let k = y * ATLAS_W + x;
                assert(0 <= k < ATLAS_W * ATLAS_H && ((k == 0 || k == 1 || k == ATLAS_W || k
                    == ATLAS_W + 1) <==> (x < 2 && y < 2))) by (nonlinear_arith)
                    requires
                        0 <= x < ATLAS_W,
                        0 <= y < ATLAS_H,
                        k == y * ATLAS_W + x,
                ;
            }
        }
        a
    }

    /// Sets the four white pixels solid shapes sample, leaving the rest.
    fn white_corner(&mut self)
        requires
            old(self).pixels@.len() == ATLAS_W * ATLAS_H,
        ensures
            final(self).pixels@.len() == ATLAS_W * ATLAS_H,
            forall|k: int|
                0 <= k < ATLAS_W * ATLAS_H ==> final(self).pixels@[k] == (if k == 0 || k == 1 || k
                    == ATLAS_W || k == ATLAS_W + 1 {
                    255u8
                } else {
                    old(self).pixels@[k]
                }),
            final(self).dirty_rows == old(self).dirty_rows,
            final(self).atlas_dirty == old(self).atlas_dirty,
            final(self).cur_x == old(self).cur_x,
            final(self).cur_y == old(self).cur_y,
            final(self).row_h == old(self).row_h,
            final(self).reset_pending == old(self).reset_pending,
            final(self).placed == old(self).placed,
    {
        self.pixels.set(0, 255);
        self.pixels.set(1, 255);
        self.pixels.set(ATLAS_W, 255);
        self.pixels.set(ATLAS_W + 1, 255);
    }

    /// The pixels, row by row, for the renderer to upload.
    pub fn image(&self) -> (r: &Vec<u8>)
        ensures
            r@ == self.pixels(),
    {
        &self.pixels
    }

    /// The pixel at column `x`, row `y`.
    pub fn pixel(&self, x: usize, y: usize) -> (v: u8)
        requires
            self.wf(),
            x < ATLAS_W,
            y < ATLAS_H,
        ensures
            v == px(self.pixels(), x as int, y as int),
    {
        proof {
            assert(y * ATLAS_W + x < ATLAS_W * ATLAS_H) by (nonlinear_arith)
                requires
                    x < ATLAS_W,
                    y < ATLAS_H,
            ;
        }
        self.pixels[y * ATLAS_W + x]
    }

    /// Widens the dirty range to cover rows `y0..y1`.
    fn mark_rows(&mut self, y0: usize, y1: usize)
        requires
            y0 <= y1 <= ATLAS_H,
            old(self).dirty_rows matches Some((lo, hi)) ==> lo <= hi <= ATLAS_H,
        ensures
            final(self).dirty_rows == merged(old(self).dirty_rows, y0, y1),
            final(self).atlas_dirty,
            final(self).dirty_rows matches Some((lo, hi)) && lo <= hi <= ATLAS_H,
            final(self).pixels == old(self).pixels,
            final(self).cur_x == old(self).cur_x,
            final(self).cur_y == old(self).cur_y,
            final(self).row_h == old(self).row_h,
            final(self).reset_pending == old(self).reset_pending,
            final(self).placed == old(self).placed,
    {
        let (lo, hi) = match self.dirty_rows {
            Some(r) => r,
            None => (y0, y1),
        };
        let lo2 = if lo < y0 {
            lo
        } else {
            y0
        };
        let hi2 = if hi > y1 {
            hi
        } else {
            y1
        };
        self.dirty_rows = Some((lo2, hi2));
        self.atlas_dirty = true;
    }

    /// The rows the renderer must upload again, as the first row and the
    /// number of rows, and the tracker cleared. `None` when nothing was
    /// written since the last call.
    pub fn take_dirty_rows(&mut self) -> (r: Option<(u32, u32)>)
        requires
            old(self).wf(),
        ensures
            final(self).wf(),
            r == (match old(self).dirty() {
                Some((lo, hi)) => Some((lo as u32, (hi - lo) as u32)),
                None => None,
            }),
            final(self).dirty() is None,
            !final(self).is_dirty(),
            final(self).pixels() == old(self).pixels(),
            final(self).cursor() == old(self).cursor(),
            final(self).pending() == old(self).pending(),
            final(self).placed() == old(self).placed(),
    {
        let r = self.dirty_rows;
        self.dirty_rows = None;
        self.atlas_dirty = false;
        match r {
            Some((lo, hi)) => Some((lo as u32, (hi - lo) as u32)),
            None => None,
        }
    }

    /// Whether a reset waits for the next frame: the atlas filled up while
    /// this one was drawn.
    pub fn reset_pending(&self) -> (b: bool)
        ensures
            b == self.pending(),
    {
        self.reset_pending
    }

    /// Clears the glyph shelves — never the mask band — and sets the white
    /// pixels again; the packer starts over at the top left.
    pub fn reset_atlas(&mut self)
        requires
            old(self).wf(),
        ensures
            final(self).wf(),
            cleared(old(self).pixels(), final(self).pixels()),
            final(self).dirty() == merged(old(self).dirty(), 0, MASK_BAND_Y),
            final(self).is_dirty(),
            final(self).cursor() == (2int, 2int, 0int),
            final(self).pending() == old(self).pending(),
            final(self).placed().len() == 0,
    {
        let ghost p0 = self.pixels@;
        let n = MASK_BAND_Y * ATLAS_W;
        let mut p: Vec<u8> = Vec::new();
        std::mem::swap(&mut p, &mut self.pixels);
        let mut i: usize = 0;
        while i < n
            invariant
                n == MASK_BAND_Y * ATLAS_W,
                i <= n,
                p@.len() == ATLAS_W * ATLAS_H,
                forall|k: int| 0 <= k < i ==> p@[k] == 0,
                forall|k: int| i <= k < ATLAS_W * ATLAS_H ==> p@[k] == p0[k],
            decreases n - i,
        {
            p.set(i, 0);
            i += 1;
        }
        self.pixels = p;
        self.white_corner();
        self.cur_x = 2;
        self.cur_y = 2;
        self.row_h = 0;
        self.placed = Ghost(Seq::empty());
        self.mark_rows(0, MASK_BAND_Y);
        proof {
            assert forall|x: int, y: int|
                #![trigger px(self.pixels@, x, y)]
                0 <= x < ATLAS_W && 0 <= y < ATLAS_H implies px(self.pixels@, x, y) == (if y
                    >= MASK_BAND_Y {
                    px(p0, x, y)
                } else if x < 2 && y < 2 {
                    255
                } else {
                    0
                }) by {
                let k = y * ATLAS_W + x;
                assert(0 <= k < ATLAS_W * ATLAS_H && (y >= MASK_BAND_Y <==> k >= MASK_BAND_Y
                    * ATLAS_W) && ((k == 0 || k == 1 || k == ATLAS_W || k == ATLAS_W + 1) <==> (x
                    < 2 && y < 2))) by (nonlinear_arith)
                    requires
                        0 <= x < ATLAS_W,
                        0 <= y < ATLAS_H,
                        k == y * ATLAS_W + x,
                ;
            }
        }
    }

    /// Called once at the start of every frame, before any glyph is asked
    /// for: performs the reset a full atlas asked for during the previous
    /// frame, so that no glyph already emitted loses its pixels.
    pub fn begin_frame(&mut self)
        requires
            old(self).wf(),
        ensures
            final(self).wf(),
            !final(self).pending(),
            old(self).pending() ==> cleared(old(self).pixels(), final(self).pixels())
                && final(self).cursor() == (2int, 2int, 0int) && final(self).placed().len() == 0
                && final(self).dirty() == merged(old(self).dirty(), 0, MASK_BAND_Y)
                && final(self).is_dirty(),
            !old(self).pending() ==> *final(self) == *old(self),
    {
        if self.reset_pending {
            self.reset_atlas();
            self.reset_pending = false;
        }
    }

    /// Finds room for a box of `w` by `h` pixels: beside the last box on
    /// the current shelf, or at the start of a new shelf when it does not
    /// fit there. When the atlas is full down to the mask band, nothing is
    /// placed, no pixel changes, and a reset is asked for at the next
    /// frame.
    pub fn reserve(&mut self, w: usize, h: usize) -> (r: Option<(usize, usize)>)
        requires
            old(self).wf(),
            w + 4 <= ATLAS_W,
        ensures
            final(self).wf(),
            final(self).pixels() == old(self).pixels(),
            final(self).dirty() == old(self).dirty(),
            final(self).is_dirty() == old(self).is_dirty(),
            ({
                let (cx, cy, rh) = old(self).shelf_for(w as int);
                if cy + h + 2 > MASK_BAND_Y {
                    &&& r is None
                    &&& final(self).pending()
                    &&& final(self).cursor() == (cx, cy, rh)
                    &&& final(self).placed() == old(self).placed()
                } else {
                    &&& r == Some((cx as usize, cy as usize))
                    &&& final(self).pending() == old(self).pending()
                    &&& final(self).cursor() == (cx + w + 2, cy, if rh > h {
                        rh
                    } else {
                        h as int
                    })
                    &&& final(self).placed() == old(self).placed().push((cx, cy, w as int, h as int))
                }
            }),
    {
        let ghost before = *self;
        if self.cur_x + w + 2 > ATLAS_W {
            self.cur_x = 2;
            self.cur_y = self.cur_y + self.row_h + 2;
            self.row_h = 0;
        }
        if self.cur_y + 2 > MASK_BAND_Y || h > MASK_BAND_Y - self.cur_y - 2 {
            self.reset_pending = true;
            return None;
        }
        let (ax, ay) = (self.cur_x, self.cur_y);
        let ghost b: Area = (ax as int, ay as int, w as int, h as int);
        let ghost old_placed = self.placed@;
        let ghost (cx0, cy0, rh0) = (self.cur_x as int, self.cur_y as int, self.row_h as int);
        self.cur_x = self.cur_x + w + 2;
        if h > self.row_h {
            self.row_h = h;
        }
        self.placed = Ghost(self.placed@.push(b));
        proof {
            assert forall|i: int| 0 <= i < self.placed@.len() implies shelved(
                #[trigger] self.placed@[i],
                self.cur_x as int,
                self.cur_y as int,
                self.row_h as int,
            ) by {
                if i < old_placed.len() {
                    assert(self.placed@[i] == old_placed[i]);
                    assert(shelved(old_placed[i], cx0, cy0, rh0));
                }
            }
            assert forall|i: int, j: int| 0 <= i < j < self.placed@.len() implies disjoint(
                #[trigger] self.placed@[i],
                #[trigger] self.placed@[j],
            ) by {
                assert(self.placed@[i] == old_placed[i]);
                assert(shelved(old_placed[i], cx0, cy0, rh0));
                if j < old_placed.len() {
                    assert(self.placed@[j] == old_placed[j]);
                }
            }
        }
        Some((ax, ay))
    }

    /// Writes `src` into the box at `(x, y)`, `w` by `h` pixels, row by
    /// row, and marks its rows for upload. The glyphs' pixels and the mask
    /// band's are written this one way.
    pub fn blit(&mut self, x: usize, y: usize, w: usize, h: usize, src: &[u8])
        requires
            old(self).wf(),
            x + w <= ATLAS_W,
            y + h <= ATLAS_H,
            src@.len() >= w * h,
        ensures
            final(self).wf(),
            blitted(old(self).pixels(), final(self).pixels(), (x as int, y as int, w as int, h as int), src@),
            final(self).dirty() == merged(old(self).dirty(), y, (y + h) as usize),
            final(self).is_dirty(),
            final(self).cursor() == old(self).cursor(),
            final(self).pending() == old(self).pending(),
            final(self).placed() == old(self).placed(),
    {
        let ghost p0 = self.pixels@;
        let ghost b: Area = (x as int, y as int, w as int, h as int);
        let n = src.len();
        let mut p: Vec<u8> = Vec::new();
        std::mem::swap(&mut p, &mut self.pixels);
        let mut row: usize = 0;
        while row < h
            invariant
                b == (x as int, y as int, w as int, h as int),
                n == src@.len(),
                row <= h,
                x + w <= ATLAS_W,
                y + h <= ATLAS_H,
                src@.len() >= w * h,
                p@.len() == ATLAS_W * ATLAS_H,
                forall|cx: int, cy: int|
                    #![trigger px(p@, cx, cy)]
                    0 <= cx < ATLAS_W && 0 <= cy < ATLAS_H ==> px(p@, cx, cy) == (if inside(
                        b,
                        cx,
                        cy,
                    ) && cy < y + row {
                        src@[(cy - y) * w + (cx - x)]
                    } else {
                        px(p0, cx, cy)
                    }),
            decreases h - row,
        {
            proof {
                assert(row * w + w <= w * h) by (nonlinear_arith)
                    requires
                        row < h,
                ;
            }
            let mut col: usize = 0;
            while col < w
                invariant
                    b == (x as int, y as int, w as int, h as int),
                    n == src@.len(),
                    row < h,
                    col <= w,
                    x + w <= ATLAS_W,
                    y + h <= ATLAS_H,
                    row * w + w <= w * h,
                    src@.len() >= w * h,
                    p@.len() == ATLAS_W * ATLAS_H,
                    forall|cx: int, cy: int|
                        #![trigger px(p@, cx, cy)]
                        0 <= cx < ATLAS_W && 0 <= cy < ATLAS_H ==> px(p@, cx, cy) == (if inside(
                            b,
                            cx,
                            cy,
                        ) && (cy < y + row || (cy == y + row && cx < x + col)) {
                            src@[(cy - y) * w + (cx - x)]
                        } else {
                            px(p0, cx, cy)
                        }),
                decreases w - col,
            {
                let k = (y + row) * ATLAS_W + x + col;
                proof {
                    assert(k < ATLAS_W * ATLAS_H) by (nonlinear_arith)
                        requires
                            k == (y + row) * ATLAS_W + x + col,
                            x + col < ATLAS_W,
                            y + row < ATLAS_H,
                    ;
                }
                proof {
                    assert(row * w + col < src@.len());
                }
                let v = src[row * w + col];
                let ghost before = p@;
                p.set(k, v);
                proof {
                    assert forall|cx: int, cy: int|
                        #![trigger px(p@, cx, cy)]
                        0 <= cx < ATLAS_W && 0 <= cy < ATLAS_H implies px(p@, cx, cy) == (if inside(
                            b,
                            cx,
                            cy,
                        ) && (cy < y + row || (cy == y + row && cx < x + col + 1)) {
                            src@[(cy - y) * w + (cx - x)]
                        } else {
                            px(p0, cx, cy)
                        }) by {
                        let j = cy * ATLAS_W + cx;
                        assert(0 <= j < ATLAS_W * ATLAS_H && ((j == k) <==> (cy == y + row && cx == x
                            + col))) by (nonlinear_arith)
                            requires
                                0 <= cy < ATLAS_H,
                                j == cy * ATLAS_W + cx,
                                k == (y + row) * ATLAS_W + x + col,
                                0 <= cx < ATLAS_W,
                                0 <= x + col < ATLAS_W,
                        ;
                        assert(px(before, cx, cy) == before[j]);
                        if j == k {
                            assert((cy - y) * w + (cx - x) == row * w + col);
                        }
                    }
                }
                col += 1;
            }
            row += 1;
        }
        self.pixels = p;
        self.mark_rows(y, y + h);
    }

    /// Finds room for a glyph of `w` by `h` pixels and writes its bitmap
    /// there, answering where it went; `None` when the atlas is full, in
    /// which case the glyph is left out for this one frame and the atlas
    /// is reset at the next.
    pub fn place(&mut self, w: usize, h: usize, bitmap: &[u8]) -> (r: Option<(usize, usize)>)
        requires
            old(self).wf(),
            w + 4 <= ATLAS_W,
            bitmap@.len() >= w * h,
        ensures
            final(self).wf(),
            ({
                let (cx, cy, rh) = old(self).shelf_for(w as int);
                if cy + h + 2 > MASK_BAND_Y {
                    &&& r is None
                    &&& final(self).pending()
                    &&& final(self).pixels() == old(self).pixels()
                    &&& final(self).placed() == old(self).placed()
                } else {
                    &&& r == Some((cx as usize, cy as usize))
                    &&& blitted(old(self).pixels(), final(self).pixels(), (cx, cy, w as int, h as int), bitmap@)
                    &&& final(self).dirty() == merged(old(self).dirty(), cy as usize, (cy + h) as usize)
                    &&& final(self).placed() == old(self).placed().push((cx, cy, w as int, h as int))
                }
            }),
    {
        match self.reserve(w, h) {
            Some((x, y)) => {
                self.blit(x, y, w, h, bitmap);
                Some((x, y))
            },
            None => None,
        }
    }
}

/// The packer never allocates from the mask band, nor outside the atlas,
/// and no two boxes packed since the last reset share a pixel.
pub proof fn law_packed_boxes_stay_apart_and_above_the_band(a: Atlas)
    requires
        a.wf(),
    ensures
        forall|i: int|
            0 <= i < a.placed().len() ==> 2 <= (#[trigger] a.placed()[i]).0 && a.placed()[i].0
                + a.placed()[i].2 <= ATLAS_W && 2 <= a.placed()[i].1 && a.placed()[i].1
                + a.placed()[i].3 < MASK_BAND_Y,
        forall|i: int, j: int|
            0 <= i < j < a.placed().len() ==> disjoint(
                #[trigger] a.placed()[i],
                #[trigger] a.placed()[j],
            ),
{
    assert forall|i: int| 0 <= i < a.placed().len() implies 2 <= (#[trigger] a.placed()[i]).0
        && a.placed()[i].0 + a.placed()[i].2 <= ATLAS_W && 2 <= a.placed()[i].1 && a.placed()[i].1
        + a.placed()[i].3 < MASK_BAND_Y by {
        assert(shelved(a.placed()[i], a.cursor().0, a.cursor().1, a.cursor().2));
    }
}

} // verus!

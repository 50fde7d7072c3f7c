//! The geometry of a print sheet: paper, card slots and cut lines.
//!
//! The sizes of paper and cards are whole hundredths of a millimetre
//! ("hmm"). The positions computed from them (margins, slot corners, cut
//! lines) are whole half-hundredths ("hhmm", 0.005 mm): a margin is half of
//! what the grid leaves of the paper, which is always a whole number in
//! that unit, so every position is exact.
use vstd::prelude::*;

use crate::cli::PaperSize;

verus! {

/// `v` is a value of `i64`.
pub open spec fn fits_i64(v: int) -> bool {
    i64::MIN <= v <= i64::MAX
}

/// The size of a sheet of paper, in hmm.
#[derive(PartialEq, Eq, Structural, Clone, Copy, Debug)]
pub struct PaperConfig {
    pub width_hmm: i64,
    pub height_hmm: i64,
}

/// The paper size of each `PaperSize`: A4 is 210 x 297 mm, Letter is
/// 215.9 x 279.4 mm.
pub open spec fn paper_of(size: PaperSize) -> PaperConfig {
    match size {
        PaperSize::A4 => PaperConfig { width_hmm: 21000, height_hmm: 29700 },
        PaperSize::Letter => PaperConfig { width_hmm: 21590, height_hmm: 27940 },
    }
}

impl PaperConfig {
    pub fn from_paper_size(size: &PaperSize) -> (r: Self)
        ensures
            r == paper_of(*size),
    {
        match size {
            PaperSize::A4 => PaperConfig { width_hmm: 21000, height_hmm: 29700 },
            PaperSize::Letter => PaperConfig { width_hmm: 21590, height_hmm: 27940 },
        }
    }
}

/// The lower-left corner of a card on the sheet, in hhmm.
#[derive(PartialEq, Eq, Structural, Clone, Copy, Debug)]
pub struct CardSlot {
    pub x_hhmm: i64,
    pub y_hhmm: i64,
}

/// A straight cut line from (x1, y1) to (x2, y2), in hhmm.
#[derive(PartialEq, Eq, Structural, Clone, Copy, Debug)]
pub struct CutLine {
    pub x1_hhmm: i64,
    pub y1_hhmm: i64,
    pub x2_hhmm: i64,
    pub y2_hhmm: i64,
}

/// A grid of `cols` x `rows` cards, centred on the paper.
#[derive(PartialEq, Eq, Structural, Clone, Copy, Debug)]
pub struct LayoutConfig {
    pub paper: PaperConfig,
    pub card_width_hmm: i64,
    pub card_height_hmm: i64,
    pub cols: usize,
    pub rows: usize,
}

impl LayoutConfig {
    /// Every length that the layout computes is a value of `i64`: the
    /// grid's width and height, the margins, and the far edges of the grid
    /// (every slot corner and cut line lies between a margin and a far edge).
    pub open spec fn in_range(&self) -> bool {
        &&& self.cols <= i64::MAX
        &&& self.rows <= i64::MAX
        &&& fits_i64(self.content_width_spec())
        &&& fits_i64(self.content_height_spec())
        &&& fits_i64(self.margin_left_spec())
        &&& fits_i64(self.margin_bottom_spec())
        &&& fits_i64(self.margin_left_spec() + 2 * self.content_width_spec())
        &&& fits_i64(self.margin_bottom_spec() + 2 * self.content_height_spec())
    }

    pub open spec fn cards_per_page_spec(&self) -> int {
        self.cols * self.rows
    }

    /// The width of the card grid, in hmm.
    pub open spec fn content_width_spec(&self) -> int {
        self.cols * self.card_width_hmm
    }

    /// The height of the card grid, in hmm.
    pub open spec fn content_height_spec(&self) -> int {
        self.rows * self.card_height_hmm
    }

    /// The margin left of the grid, in hhmm: half the paper width that the
    /// grid leaves, which in hhmm is that width in hmm.
    pub open spec fn margin_left_spec(&self) -> int {
        self.paper.width_hmm - self.content_width_spec()
    }

    /// The margin below the grid, in hhmm: half the paper height that the
    /// grid leaves.
    pub open spec fn margin_bottom_spec(&self) -> int {
        self.paper.height_hmm - self.content_height_spec()
    }

    /// Slot `i` holds the card in row `i / cols` (counted from the top) and
    /// column `i % cols` (counted from the left); this is its lower-left x,
    /// in hhmm.
    pub open spec fn slot_x(&self, i: int) -> int {
        self.margin_left_spec() + (i % (self.cols as int)) * (2 * self.card_width_hmm)
    }

    /// The lower-left y of slot `i`, in hhmm.
    pub open spec fn slot_y(&self, i: int) -> int {
        self.margin_bottom_spec() + (self.rows - 1 - i / (self.cols as int)) * (2
            * self.card_height_hmm)
    }

    /// Cut line `k`: for `k <= cols` the vertical line at the left edge of
    /// column `k` (the right edge of the grid for `k == cols`), across the
    /// whole grid; after them the horizontal line at the bottom edge of row
    /// `k - cols - 1` counted from the bottom.
    pub open spec fn cut_line_spec(&self, k: int) -> CutLine {
        let ml = self.margin_left_spec();
        let mb = self.margin_bottom_spec();
        if k <= self.cols {
            let x = ml + k * (2 * self.card_width_hmm);
            CutLine {
                x1_hhmm: x as i64,
                y1_hhmm: mb as i64,
                x2_hhmm: x as i64,
                y2_hhmm: (mb + 2 * self.content_height_spec()) as i64,
            }
        } else {
            let y = mb + (k - self.cols - 1) * (2 * self.card_height_hmm);
            CutLine {
                x1_hhmm: ml as i64,
                y1_hhmm: y as i64,
                x2_hhmm: (ml + 2 * self.content_width_spec()) as i64,
                y2_hhmm: y as i64,
            }
        }
    }

    /// A 3 x 3 grid of 63 x 88 mm cards on the given paper.
    pub fn new(paper_size: &PaperSize) -> (r: Self)
        ensures
            r.paper == paper_of(*paper_size),
            r.card_width_hmm == 6300,
            r.card_height_hmm == 8800,
            r.cols == 3,
            r.rows == 3,
            r.in_range(),
    {
        LayoutConfig {
            paper: PaperConfig::from_paper_size(paper_size),
            card_width_hmm: 6300,
            card_height_hmm: 8800,
            cols: 3,
            rows: 3,
        }
    }

    /// Whether `in_range` holds: whether every length the layout computes
    /// is a value of `i64`.
    pub fn is_in_range(&self) -> (b: bool)
        ensures
            b == self.in_range(),
    {
        if (self.cols as u128) > 0x7fff_ffff_ffff_ffff || (self.rows as u128) > 0x7fff_ffff_ffff_ffff {
            return false;
        }
        let lo: i128 = -0x8000_0000_0000_0000;
        let hi: i128 = 0x7fff_ffff_ffff_ffff;
        proof {
            let c = self.cols as int;
            let r = self.rows as int;
            let w = self.card_width_hmm as int;
            let h = self.card_height_hmm as int;
            assert(-0x4000_0000_0000_0000_0000_0000_0000_0000 < c * w < 0x4000_0000_0000_0000_0000_0000_0000_0000)
                by (nonlinear_arith)
                requires
                    0 <= c <= 0x7fff_ffff_ffff_ffff,
                    -0x8000_0000_0000_0000 <= w <= 0x7fff_ffff_ffff_ffff,
            ;
            assert(-0x4000_0000_0000_0000_0000_0000_0000_0000 < r * h < 0x4000_0000_0000_0000_0000_0000_0000_0000)
                by (nonlinear_arith)
                requires
                    0 <= r <= 0x7fff_ffff_ffff_ffff,
                    -0x8000_0000_0000_0000 <= h <= 0x7fff_ffff_ffff_ffff,
            ;
        }
        let cw = (self.cols as i128) * (self.card_width_hmm as i128);
        let ch = (self.rows as i128) * (self.card_height_hmm as i128);
        if cw < lo || cw > hi || ch < lo || ch > hi {
            return false;
        }
        let ml = (self.paper.width_hmm as i128) - cw;
        let mb = (self.paper.height_hmm as i128) - ch;
        if ml < lo || ml > hi || mb < lo || mb > hi {
            return false;
        }
        let right = ml + 2 * cw;
        let top = mb + 2 * ch;
        lo <= right && right <= hi && lo <= top && top <= hi
    }

    /// How many cards one sheet holds.
    pub fn cards_per_page(&self) -> (n: usize)
        requires
            self.cols * self.rows <= usize::MAX,
        ensures
            n == self.cards_per_page_spec(),
    {
        self.cols * self.rows
    }

    /// How many sheets `card_count` cards take: `card_count` divided by the
    /// cards per sheet, rounded up.
    pub fn pages_needed(&self, card_count: usize) -> (p: usize)
        requires
            0 < self.cards_per_page_spec() <= usize::MAX,
            card_count + self.cards_per_page_spec() - 1 <= usize::MAX,
        ensures
            p == (card_count + self.cards_per_page_spec() - 1) / self.cards_per_page_spec(),
            p * self.cards_per_page_spec() >= card_count,
            p == 0 || (p - 1) * self.cards_per_page_spec() < card_count,
    {
        let cpp = self.cards_per_page();
        let p = (card_count + (cpp - 1)) / cpp;
        proof {
            lemma_ceil_div(card_count as int, cpp as int);
        }
        p
    }

    /// The width of the card grid, in hmm.
    pub fn content_width(&self) -> (w: i64)
        requires
            self.in_range(),
        ensures
            w == self.content_width_spec(),
    {
        (self.cols as i64) * self.card_width_hmm
    }

    /// The height of the card grid, in hmm.
    pub fn content_height(&self) -> (h: i64)
        requires
            self.in_range(),
        ensures
            h == self.content_height_spec(),
    {
        (self.rows as i64) * self.card_height_hmm
    }

    /// The margin left of the grid, in hhmm.
    pub fn margin_left(&self) -> (m: i64)
        requires
            self.in_range(),
        ensures
            m == self.margin_left_spec(),
    {
        ((self.paper.width_hmm as i128) - (self.content_width() as i128)) as i64
    }

    /// The margin below the grid, in hhmm.
    pub fn margin_bottom(&self) -> (m: i64)
        requires
            self.in_range(),
        ensures
            m == self.margin_bottom_spec(),
    {
        ((self.paper.height_hmm as i128) - (self.content_height() as i128)) as i64
    }

    /// The lower-left corner of every slot, row by row from the top, each row
    /// from the left.
    pub fn card_positions(&self) -> (slots: Vec<CardSlot>)
        requires
            self.in_range(),
        ensures
            slots.len() == self.cards_per_page_spec(),
            forall|i: int|
                0 <= i < slots.len() ==> (#[trigger] slots@[i]).x_hhmm == self.slot_x(i)
                    && slots@[i].y_hhmm == self.slot_y(i),
    {
        let ml = self.margin_left();
        let mb = self.margin_bottom();
        let mut slots: Vec<CardSlot> = Vec::new();
        let mut row: usize = 0;
        while row < self.rows
            invariant
                self.in_range(),
                ml == self.margin_left_spec(),
                mb == self.margin_bottom_spec(),
                row <= self.rows,
                slots.len() == row * self.cols,
                forall|i: int|
                    0 <= i < slots.len() ==> (#[trigger] slots@[i]).x_hhmm == self.slot_x(i)
                        && slots@[i].y_hhmm == self.slot_y(i),
            decreases self.rows - row,
        {
            let mut col: usize = 0;
            while col < self.cols
                invariant
                    self.in_range(),
                    ml == self.margin_left_spec(),
                    mb == self.margin_bottom_spec(),
                    row < self.rows,
                    col <= self.cols,
                    slots.len() == row * self.cols + col,
                    forall|i: int|
                        0 <= i < slots.len() ==> (#[trigger] slots@[i]).x_hhmm == self.slot_x(i)
                            && slots@[i].y_hhmm == self.slot_y(i),
                decreases self.cols - col,
            {
                proof {
                    lemma_between(col as int, self.cols as int, 2 * self.card_width_hmm);
                    lemma_between(
                        (self.rows - 1 - row) as int,
                        self.rows as int,
                        2 * self.card_height_hmm,
                    );
                    assert(self.cols * (2 * self.card_width_hmm) == 2 * self.content_width_spec())
                        by (nonlinear_arith);
                    assert(self.rows * (2 * self.card_height_hmm) == 2 * self.content_height_spec())
                        by (nonlinear_arith);
                }
                let x = ((ml as i128) + (col as i128) * (2 * (self.card_width_hmm as i128))) as i64;
                let y = ((mb as i128) + ((self.rows - 1 - row) as i128) * (2 * (
                self.card_height_hmm as i128))) as i64;
                proof {
                    let i = row * self.cols + col;
                    lemma_row_col(row as int, col as int, self.cols as int);
                    assert(x == self.slot_x(i));
                    assert(y == self.slot_y(i));
                }
                slots.push(CardSlot { x_hhmm: x, y_hhmm: y });
                col += 1;
            }
            row += 1;
            proof {
                assert(row * self.cols == (row - 1) * self.cols + self.cols) by (nonlinear_arith);
            }
        }
        proof {
            assert(self.rows * self.cols == self.cols * self.rows) by (nonlinear_arith);
        }
        slots
    }

    /// The cut lines: first the vertical lines at every column edge, left
    /// to right, then the horizontal lines at every row edge, bottom to top;
    /// each runs across the whole grid.
    pub fn cut_lines(&self) -> (lines: Vec<CutLine>)
        requires
            self.in_range(),
        ensures
            lines.len() == self.cols + self.rows + 2,
            forall|k: int| 0 <= k < lines.len() ==> #[trigger] lines@[k] == self.cut_line_spec(k),
    {
        let ml = self.margin_left();
        let mb = self.margin_bottom();
        let cw = self.content_width();
        let ch = self.content_height();
        let top = ((mb as i128) + 2 * (ch as i128)) as i64;
        let right = ((ml as i128) + 2 * (cw as i128)) as i64;
        let mut lines: Vec<CutLine> = Vec::new();
        lines.push(CutLine { x1_hhmm: ml, y1_hhmm: mb, x2_hhmm: ml, y2_hhmm: top });
        proof {
            assert(0 * (2 * self.card_width_hmm) == 0);
            assert(lines@[0] == self.cut_line_spec(0));
        }
        let mut col: usize = 0;
        while col < self.cols
            invariant
                self.in_range(),
                ml == self.margin_left_spec(),
                mb == self.margin_bottom_spec(),
                top == mb + 2 * self.content_height_spec(),
                right == ml + 2 * self.content_width_spec(),
                col <= self.cols,
                lines.len() == col + 1,
                forall|k: int| 0 <= k < lines.len() ==> #[trigger] lines@[k] == self.cut_line_spec(k),
            decreases self.cols - col,
        {
            col += 1;
            proof {
                lemma_between(col as int, self.cols as int, 2 * self.card_width_hmm);
                assert(self.cols * (2 * self.card_width_hmm) == 2 * self.content_width_spec())
                    by (nonlinear_arith);
            }
            let x = ((ml as i128) + (col as i128) * (2 * (self.card_width_hmm as i128))) as i64;
            lines.push(CutLine { x1_hhmm: x, y1_hhmm: mb, x2_hhmm: x, y2_hhmm: top });
        }
        let ghost before = lines@;
        lines.push(CutLine { x1_hhmm: ml, y1_hhmm: mb, x2_hhmm: right, y2_hhmm: mb });
        proof {
            let k: int = self.cols + 1;
            let z: int = k - self.cols - 1;
            assert(z == 0);
            assert(z * (2 * self.card_height_hmm) == 0) by (nonlinear_arith)
                requires
                    z == 0,
            ;
            assert(lines@[k] == self.cut_line_spec(k));
            assert forall|j: int| 0 <= j < lines.len() implies #[trigger] lines@[j] == self.cut_line_spec(j) by {
                if j < k {
                    assert(lines@[j] == before[j]);
                }
            }
        }
        let mut row: usize = 0;
        while row < self.rows
            invariant
                self.in_range(),
                ml == self.margin_left_spec(),
                mb == self.margin_bottom_spec(),
                top == mb + 2 * self.content_height_spec(),
                right == ml + 2 * self.content_width_spec(),
                row <= self.rows,
                lines.len() == self.cols + 2 + row,
                forall|k: int| 0 <= k < lines.len() ==> #[trigger] lines@[k] == self.cut_line_spec(k),
            decreases self.rows - row,
        {
            row += 1;
            proof {
                lemma_between(row as int, self.rows as int, 2 * self.card_height_hmm);
                assert(self.rows * (2 * self.card_height_hmm) == 2 * self.content_height_spec())
                    by (nonlinear_arith);
            }
            let y = ((mb as i128) + (row as i128) * (2 * (self.card_height_hmm as i128))) as i64;
            lines.push(CutLine { x1_hhmm: ml, y1_hhmm: y, x2_hhmm: right, y2_hhmm: y });
        }
        lines
    }
}

/// Every slot lies inside the card grid: its card spans, in hhmm,
/// `[slot_x, slot_x + 2 * card_width] x [slot_y, slot_y + 2 * card_height]`,
/// which is within `[margin_left, margin_left + 2 * content_width] x
/// [margin_bottom, margin_bottom + 2 * content_height]`.
pub proof fn lemma_slot_in_grid(l: LayoutConfig, i: int)
    requires
        0 <= l.card_width_hmm,
        0 <= l.card_height_hmm,
        0 <= i < l.cards_per_page_spec(),
    ensures
        l.margin_left_spec() <= l.slot_x(i),
        l.slot_x(i) + 2 * l.card_width_hmm <= l.margin_left_spec() + 2 * l.content_width_spec(),
        l.margin_bottom_spec() <= l.slot_y(i),
        l.slot_y(i) + 2 * l.card_height_hmm <= l.margin_bottom_spec() + 2
            * l.content_height_spec(),
{
    let cols = l.cols as int;
    let rows = l.rows as int;
    let w = 2 * l.card_width_hmm;
    let h = 2 * l.card_height_hmm;
    assert(cols > 0) by (nonlinear_arith)
        requires
            0 <= i < cols * rows,
            0 <= rows,
    ;
    vstd::arithmetic::div_mod::lemma_fundamental_div_mod(i, cols);
    let c = i % cols;
    let r = i / cols;
    assert(0 <= c < cols);
    assert(0 <= r < rows) by (nonlinear_arith)
        requires
            i == cols * r + c,
            0 <= c < cols,
            0 <= i < cols * rows,
    ;
    assert(0 <= c * w && c * w + w <= cols * w) by (nonlinear_arith)
        requires
            0 <= c < cols,
            0 <= w,
    ;
    let rr = rows - 1 - r;
    assert(0 <= rr * h && rr * h + h <= rows * h) by (nonlinear_arith)
        requires
            0 <= rr < rows,
            0 <= h,
    ;
    assert(cols * w == 2 * l.content_width_spec()) by (nonlinear_arith)
        requires
            w == 2 * l.card_width_hmm,
            cols == l.cols,
    ;
    assert(rows * h == 2 * l.content_height_spec()) by (nonlinear_arith)
        requires
            h == 2 * l.card_height_hmm,
            rows == l.rows,
    ;
}

/// Two different slots hold non-overlapping cards: their cards are side by
/// side or one above the other.
pub proof fn lemma_slots_disjoint(l: LayoutConfig, i: int, j: int)
    requires
        0 <= i < l.cards_per_page_spec(),
        0 <= j < l.cards_per_page_spec(),
        i != j,
    ensures
        l.slot_x(i) + 2 * l.card_width_hmm <= l.slot_x(j) || l.slot_x(j) + 2 * l.card_width_hmm
            <= l.slot_x(i) || l.slot_y(i) + 2 * l.card_height_hmm <= l.slot_y(j) || l.slot_y(j)
            + 2 * l.card_height_hmm <= l.slot_y(i),
{
    let cols = l.cols as int;
    let rows = l.rows as int;
    let w = 2 * l.card_width_hmm;
    let h = 2 * l.card_height_hmm;
    assert(cols > 0) by (nonlinear_arith)
        requires
            0 <= i < cols * rows,
            0 <= rows,
    ;
    vstd::arithmetic::div_mod::lemma_fundamental_div_mod(i, cols);
    vstd::arithmetic::div_mod::lemma_fundamental_div_mod(j, cols);
    let ci = i % cols;
    let cj = j % cols;
    let ri = i / cols;
    let rj = j / cols;
    if ci != cj {
        lemma_apart(ci, cj, w);
    } else {
        assert(ri != rj) by (nonlinear_arith)
            requires
                i == cols * ri + ci,
                j == cols * rj + cj,
                ci == cj,
                i != j,
        ;
        let a = rows - 1 - ri;
        let b = rows - 1 - rj;
        lemma_apart(a, b, h);
    }
}

/// Every card edge lies on a cut line: the vertical lines `i % cols` and
/// `i % cols + 1` run along the left and right edges of slot `i`, and the
/// horizontal lines `cols + 1 + r` and `cols + 2 + r`, with `r` the slot's
/// row counted from the bottom, along its bottom and top edges; each line
/// spans the whole grid.
pub proof fn lemma_slot_edges_on_cut_lines(l: LayoutConfig, i: int)
    requires
        l.in_range(),
        0 <= i < l.cards_per_page_spec(),
    ensures
        ({
            let c = i % (l.cols as int);
            let r = l.rows - 1 - i / (l.cols as int);
            let left = l.cut_line_spec(c);
            let right = l.cut_line_spec(c + 1);
            let bottom = l.cut_line_spec(l.cols + 1 + r);
            let top = l.cut_line_spec(l.cols + 2 + r);
            &&& left.x1_hhmm == l.slot_x(i) && left.x2_hhmm == l.slot_x(i)
            &&& right.x1_hhmm == l.slot_x(i) + 2 * l.card_width_hmm && right.x2_hhmm == l.slot_x(
                i,
            ) + 2 * l.card_width_hmm
            &&& bottom.y1_hhmm == l.slot_y(i) && bottom.y2_hhmm == l.slot_y(i)
            &&& top.y1_hhmm == l.slot_y(i) + 2 * l.card_height_hmm && top.y2_hhmm == l.slot_y(i)
                + 2 * l.card_height_hmm
            &&& left.y1_hhmm == l.margin_bottom_spec() && left.y2_hhmm == l.margin_bottom_spec()
                + 2 * l.content_height_spec()
            &&& bottom.x1_hhmm == l.margin_left_spec() && bottom.x2_hhmm == l.margin_left_spec()
                + 2 * l.content_width_spec()
        }),
{
    let cols = l.cols as int;
    let rows = l.rows as int;
    let w = 2 * l.card_width_hmm;
    let h = 2 * l.card_height_hmm;
    assert(cols > 0) by (nonlinear_arith)
        requires
            0 <= i < cols * rows,
            0 <= rows,
    ;
    vstd::arithmetic::div_mod::lemma_fundamental_div_mod(i, cols);
    let c = i % cols;
    let r = rows - 1 - i / cols;
    assert(0 <= i / cols < rows) by (nonlinear_arith)
        requires
            i == cols * (i / cols) + c,
            0 <= c < cols,
            0 <= i < cols * rows,
    ;
    assert((c + 1) * w == c * w + w) by (nonlinear_arith);
    assert((r + 1) * h == r * h + h) by (nonlinear_arith);
    assert(cols * w == 2 * l.content_width_spec()) by (nonlinear_arith)
        requires
            w == 2 * l.card_width_hmm,
            cols == l.cols,
    ;
    assert(rows * h == 2 * l.content_height_spec()) by (nonlinear_arith)
        requires
            h == 2 * l.card_height_hmm,
            rows == l.rows,
    ;
    lemma_between(c, cols, w);
    lemma_between(c + 1, cols, w);
    lemma_between(r, rows, h);
    lemma_between(r + 1, rows, h);
}

/// When the grid fits on the paper it is centred exactly: the margins on
/// both sides are equal and not negative.
pub proof fn lemma_grid_centred(l: LayoutConfig)
    requires
        l.content_width_spec() <= l.paper.width_hmm,
        l.content_height_spec() <= l.paper.height_hmm,
    ensures
        0 <= l.margin_left_spec(),
        0 <= l.margin_bottom_spec(),
        2 * l.paper.width_hmm - (l.margin_left_spec() + 2 * l.content_width_spec())
            == l.margin_left_spec(),
        2 * l.paper.height_hmm - (l.margin_bottom_spec() + 2 * l.content_height_spec())
            == l.margin_bottom_spec(),
{
}

/// Cards in different columns (rows) do not overlap along that axis:
/// the one further along starts where the other ends or beyond, whichever
/// way the length points.
proof fn lemma_apart(a: int, b: int, w: int)
    requires
        a != b,
    ensures
        a * w + w <= b * w || b * w + w <= a * w,
{
    if (a < b) == (0 <= w) {
        if a < b {
            assert(a * w + w <= b * w) by (nonlinear_arith)
                requires
                    a < b,
                    0 <= w,
            ;
        } else {
            assert(a * w + w <= b * w) by (nonlinear_arith)
                requires
                    b < a,
                    w < 0,
            ;
        }
    } else {
        if b < a {
            assert(b * w + w <= a * w) by (nonlinear_arith)
                requires
                    b < a,
                    0 <= w,
            ;
        } else {
            assert(b * w + w <= a * w) by (nonlinear_arith)
                requires
                    a < b,
                    w < 0,
            ;
        }
    }
}

/// `k * w` lies between `0` and `n * w` when `k` lies between `0` and `n`.
proof fn lemma_between(k: int, n: int, w: int)
    requires
        0 <= k <= n,
    ensures
        0 <= w ==> 0 <= k * w <= n * w,
        w < 0 ==> n * w <= k * w <= 0,
{
    if 0 <= w {
        assert(0 <= k * w <= n * w) by (nonlinear_arith)
            requires
                0 <= k <= n,
                0 <= w,
        ;
    } else {
        assert(n * w <= k * w <= 0) by (nonlinear_arith)
            requires
                0 <= k <= n,
                w < 0,
        ;
    }
}

/// The quotient and remainder of `row * cols + col` by `cols`.
proof fn lemma_row_col(row: int, col: int, cols: int)
    requires
        0 <= row,
        0 <= col < cols,
    ensures
        (row * cols + col) / cols == row,
        (row * cols + col) % cols == col,
{
    vstd::arithmetic::div_mod::lemma_fundamental_div_mod_converse(row * cols + col, cols, row, col);
}

/// `(n + d - 1) / d` is the least multiple count of `d` that reaches `n`.
proof fn lemma_ceil_div(n: int, d: int)
    requires
        0 <= n,
        0 < d,
    ensures
        ((n + d - 1) / d) * d >= n,
        (n + d - 1) / d == 0 || ((n + d - 1) / d - 1) * d < n,
{
    let p = (n + d - 1) / d;
    vstd::arithmetic::div_mod::lemma_fundamental_div_mod(n + d - 1, d);
    let r = (n + d - 1) % d;
    assert(n + d - 1 == d * p + r);
    assert(0 <= r < d);
    assert(p * d >= n) by (nonlinear_arith)
        requires
            n + d - 1 == d * p + r,
            r < d,
    ;
    assert(p == 0 || (p - 1) * d < n) by (nonlinear_arith)
        requires
            n + d - 1 == d * p + r,
            0 <= r,
    ;
}

} // verus!

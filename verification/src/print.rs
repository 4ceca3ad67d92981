//! The print-event stream: a lazy sequence of drawing tokens that walks an
//! implicit `(2W+1) x (2H+1)` matrix of cells and interstitial boundaries in
//! row-major order, one `LineBreak` per visual row.

use vstd::prelude::*;

use crate::grid::{Crosswords, BLOCK};
use crate::point::Dir;

verus! {

/// One drawing token of the print-event stream.
#[derive(Clone, Copy, Debug, PartialEq, Eq, Structural)]
pub enum PrintItem {
    VertBorder(bool),
    HorizBorder(bool),
    Cross(bool),
    Block,
    Character(char),
    Hint(u32),
    LineBreak,
}

impl Crosswords {
    /// Whether the corner below and right of cell `(x, y)` is a visible
    /// junction: more than one of its four adjacent boundary segments is
    /// present.
    pub open spec fn cross_at(self, x: int, y: int) -> bool {
        (if self.border_at(x, y, Dir::Down) {
            1int
        } else {
            0
        }) + (if self.border_at(x, y, Dir::Right) {
            1int
        } else {
            0
        }) + (if self.border_at(x + 1, y, Dir::Down) {
            1int
        } else {
            0
        }) + (if self.border_at(x, y + 1, Dir::Right) {
            1int
        } else {
            0
        }) > 1
    }

    /// Whether any word starts at `(x, y)`.
    pub open spec fn hint_any(self, x: int, y: int) -> bool {
        self.hint_at(x, y, Dir::Right) || self.hint_at(x, y, Dir::Down)
    }

    /// How many cells before column `x` in row `y` start a word.
    pub open spec fn row_hints(self, y: int, upto_x: int) -> nat
        decreases upto_x,
    {
        if upto_x <= 0 {
            0
        } else {
            (self.row_hints(y, upto_x - 1) + (if self.hint_any(upto_x - 1, y) {
                1nat
            } else {
                0
            })) as nat
        }
    }

    /// How many cells in the rows before `y` start a word.
    pub open spec fn grid_hints(self, upto_y: int) -> nat
        decreases upto_y,
    {
        if upto_y <= 0 {
            0
        } else {
            (self.grid_hints(upto_y - 1) + self.row_hints(upto_y - 1, self.spec_width())) as nat
        }
    }

    /// The token drawn for the cell at `(x, y)`.
    pub open spec fn cell_token(self, x: int, y: int, puzzle: bool) -> PrintItem {
        if self.char_at(x, y) == BLOCK {
            PrintItem::Block
        } else if !puzzle {
            PrintItem::Character(self.char_at(x, y))
        } else if self.hint_any(x, y) {
            PrintItem::Hint((self.grid_hints(y) + self.row_hints(y, x) + 1) as u32)
        } else {
            PrintItem::Character(' ')
        }
    }

    /// The visual row of corners and horizontal boundary segments drawn
    /// between cell row `y` and cell row `y + 1`.
    pub open spec fn border_row(self, y: int) -> Seq<PrintItem> {
        Seq::new(
            (2 * self.spec_width() + 2) as nat,
            |j: int|
                if j == 0 {
                    PrintItem::Cross(self.cross_at(-1, y))
                } else if j == 2 * self.spec_width() + 1 {
                    PrintItem::LineBreak
                } else if j % 2 == 1 {
                    PrintItem::HorizBorder(self.border_at((j - 1) / 2, y, Dir::Down))
                } else {
                    PrintItem::Cross(self.cross_at(j / 2 - 1, y))
                },
        )
    }

    /// The visual row of cells and vertical boundary segments for cell row
    /// `y`.
    pub open spec fn char_row(self, y: int, puzzle: bool) -> Seq<PrintItem> {
        Seq::new(
            (2 * self.spec_width() + 2) as nat,
            |j: int|
                if j == 0 {
                    PrintItem::VertBorder(self.border_at(-1, y, Dir::Right))
                } else if j == 2 * self.spec_width() + 1 {
                    PrintItem::LineBreak
                } else if j % 2 == 1 {
                    self.cell_token((j - 1) / 2, y, puzzle)
                } else {
                    PrintItem::VertBorder(self.border_at(j / 2 - 1, y, Dir::Right))
                },
        )
    }

    /// The first `2 * upto_y + 1` visual rows of the stream: each cell row is
    /// preceded by a row of boundaries, and a final boundary row closes the
    /// grid.
    pub open spec fn stream_upto(self, upto_y: int, puzzle: bool) -> Seq<PrintItem>
        decreases upto_y,
    {
        if upto_y <= 0 {
            Seq::empty()
        } else {
            self.stream_upto(upto_y - 1, puzzle) + self.border_row(upto_y - 2) + self.char_row(
                upto_y - 1,
                puzzle,
            )
        }
    }

    /// The whole print-event stream of the grid.
    pub open spec fn print_stream(self, puzzle: bool) -> Seq<PrintItem> {
        self.stream_upto(self.spec_height(), puzzle) + self.border_row(self.spec_height() - 1)
    }
}

/// An iterator over the `PrintItem`s representing the current state of a
/// crossword grid, including all boundaries and cell contents, from left to
/// right, from top to bottom.
pub struct PrintIter {
    items: Vec<PrintItem>,
    index: usize,
}

impl PrintIter {
    /// The tokens not yet handed out.
    pub closed spec fn remaining(self) -> Seq<PrintItem> {
        self.items@.skip(self.index as int)
    }

    /// The position never runs past the end of the token list.
    pub closed spec fn wf(self) -> bool {
        self.index <= self.items@.len()
    }

    /// Builds the stream for one grid; `puzzle` selects whether letters or
    /// hint numbers are drawn.
    #[verifier::rlimit(60)]
    fn new(cw: &Crosswords, puzzle: bool) -> (it: PrintIter)
        requires
            cw.wf(),
        ensures
            it.wf(),
            it.remaining() == cw.print_stream(puzzle),
    {
        let w = cw.get_width();
        let h = cw.get_height();
        let mut items: Vec<PrintItem> = Vec::new();
        let mut hints: u32 = 0;
        let mut y: usize = 0;
        proof {
            crate::grid::lemma_wf_bounds(*cw);
        }
        while y < h
            invariant
                cw.wf(),
                w == cw.spec_width(),
                h == cw.spec_height(),
                y <= h,
                items@ == cw.stream_upto(y as int, puzzle),
                puzzle ==> hints as int == cw.grid_hints(y as int),
                hints <= 0x3fff_ffff,
            decreases h - y,
        {
            proof {
                crate::grid::lemma_wf_bounds(*cw);
                crate::grid::lemma_border_default(*cw);
            }
            let ghost base = items@;
            push_border_row(cw, &mut items, y as i64 - 1);
            proof {
                assert(items@ == base + cw.border_row(y as int - 1));
            }
            // the cell row
            let ghost base2 = items@;
            items.push(PrintItem::VertBorder(true));
            proof {
                assert(cw.border_at(-1, y as int, Dir::Right));
                assert(items@ =~= base2 + cw.char_row(y as int, puzzle).take(1));
            }
            let mut x: usize = 0;
            while x < w
                invariant
                    cw.wf(),
                    w == cw.spec_width(),
                    h == cw.spec_height(),
                    y < h,
                    x <= w,
                    base2 == cw.stream_upto(y as int, puzzle) + cw.border_row(y as int - 1),
                    items@ == base2 + cw.char_row(y as int, puzzle).take(2 * x + 1),
                    puzzle ==> hints as int == cw.grid_hints(y as int) + cw.row_hints(
                        y as int,
                        x as int,
                    ),
                    hints <= 0x3fff_ffff,
                decreases w - x,
            {
                proof {
                    crate::grid::lemma_wf_bounds(*cw);
                    crate::grid::lemma_border_default(*cw);
                    lemma_hint_count_bound(*cw, y as int, x + 1);
                    lemma_hint_count_bound(*cw, y as int, x as int);
                    assert(cw.grid_hints(y as int) + cw.row_hints(y as int, x + 1) <= h * w) by {
                        assert((y as int) * w + (x + 1) <= h * w) by (nonlinear_arith)
                            requires
                                0 <= y < h,
                                0 <= x < w,
                        ;
                    }
                    assert(h * w <= 0x3fff_ffff) by (nonlinear_arith)
                        requires
                            1 <= w <= 0x3fff_ffff,
                            1 <= h <= 0x3fff_ffff,
                            w * h <= 0x3fff_ffff,
                    ;
                }
                let px = x as i64;
                let py = y as i64;
                let c = cw.char_xy(px, py);
                let tok: PrintItem;
                if c == BLOCK {
                    tok = PrintItem::Block;
                } else if !puzzle {
                    tok = PrintItem::Character(c);
                } else if cw.has_hint_at(crate::point::Point { x: px as i32, y: py as i32 }) {
                    proof {
                        lemma_hint_count_bound(*cw, y as int, x as int);
                    }
                    hints = hints + 1;
                    tok = PrintItem::Hint(hints);
                } else {
                    tok = PrintItem::Character(' ');
                }
                items.push(tok);
                items.push(
                    PrintItem::VertBorder(cw.get_border(
                        crate::point::Point { x: px as i32, y: py as i32 },
                        Dir::Right,
                    )),
                );
                proof {
                    if c == BLOCK && cw.hint_any(x as int, y as int) {
                        // A word cannot start on an empty cell: the missing
                        // boundary would touch it.
                        assert(false);
                    }
                    assert(tok == cw.cell_token(x as int, y as int, puzzle));
                    assert(items@ =~= base2 + cw.char_row(y as int, puzzle).take(2 * (x + 1) + 1));
                }
                x = x + 1;
            }
            items.push(PrintItem::LineBreak);
            proof {
                assert(cw.char_row(y as int, puzzle).take(2 * w + 2) =~= cw.char_row(
                    y as int,
                    puzzle,
                ));
                assert(items@ =~= base2 + cw.char_row(y as int, puzzle));
                assert(items@ =~= cw.stream_upto(y + 1, puzzle));
            }
            y = y + 1;
        }
        push_border_row(cw, &mut items, h as i64 - 1);
        let it = PrintIter { items, index: 0 };
        proof {
            assert(it.remaining() =~= it.items@);
        }
        it
    }

    /// The stream that draws every letter.
    pub fn new_solution(cw: &Crosswords) -> (it: PrintIter)
        requires
            cw.wf(),
        ensures
            it.wf(),
            it.remaining() == cw.print_stream(false),
    {
        PrintIter::new(cw, false)
    }

    /// The stream that draws hint numbers where words start and blanks
    /// elsewhere.
    pub fn new_puzzle(cw: &Crosswords) -> (it: PrintIter)
        requires
            cw.wf(),
        ensures
            it.wf(),
            it.remaining() == cw.print_stream(true),
    {
        PrintIter::new(cw, true)
    }

    /// Hands out the next token, or `None` at the end of the stream.
    pub fn next(&mut self) -> (r: Option<PrintItem>)
        requires
            old(self).wf(),
        ensures
            final(self).wf(),
            old(self).remaining().len() == 0 ==> r is None && final(self).remaining() == old(
                self,
            ).remaining(),
            old(self).remaining().len() > 0 ==> r == Some(old(self).remaining()[0])
                && final(self).remaining() == old(self).remaining().drop_first(),
    {
        if self.index < self.items.len() {
            let t = self.items[self.index];
            self.index = self.index + 1;
            proof {
                assert(self.items@.skip(self.index as int) =~= self.items@.skip(
                    self.index - 1,
                ).drop_first());
            }
            Some(t)
        } else {
            None
        }
    }
}

/// At most every cell starts a word, so hint numbers stay far below the
/// grid's area.
proof fn lemma_hint_count_bound(cw: Crosswords, y: int, x: int)
    requires
        cw.wf_dims(),
        0 <= x,
        0 <= y,
    ensures
        cw.row_hints(y, x) <= x,
        cw.grid_hints(y) <= y * cw.spec_width(),
    decreases y, x,
{
    crate::grid::lemma_wf_bounds(cw);
    if x > 0 {
        lemma_hint_count_bound(cw, y, x - 1);
    }
    if y > 0 {
        lemma_hint_count_bound(cw, y - 1, cw.spec_width());
        lemma_hint_count_bound(cw, y - 1, 0);
        assert((y - 1) * cw.spec_width() + cw.spec_width() == y * cw.spec_width())
            by (nonlinear_arith);
    }
}

/// Appends the boundary row drawn between cell rows `y` and `y + 1`.
fn push_border_row(cw: &Crosswords, items: &mut Vec<PrintItem>, y: i64)
    requires
        cw.wf(),
        -1 <= y < cw.spec_height(),
    ensures
        final(items)@ == old(items)@ + cw.border_row(y as int),
{
    proof {
        crate::grid::lemma_wf_bounds(*cw);
    }
    let ghost base = items@;
    let w = cw.get_width();
    items.push(PrintItem::Cross(cross_of(cw, -1, y)));
    proof {
        assert(items@ =~= base + cw.border_row(y as int).take(1));
    }
    let mut x: usize = 0;
    while x < w
        invariant
            cw.wf(),
            w == cw.spec_width(),
            -1 <= y < cw.spec_height(),
            x <= w,
            items@ == base + cw.border_row(y as int).take(2 * x + 1),
        decreases w - x,
    {
        proof {
            crate::grid::lemma_wf_bounds(*cw);
        }
        items.push(PrintItem::HorizBorder(cw.border_xy(x as i64, y, Dir::Down)));
        items.push(PrintItem::Cross(cross_of(cw, x as i64, y)));
        proof {
            assert(items@ =~= base + cw.border_row(y as int).take(2 * (x + 1) + 1));
        }
        x = x + 1;
    }
    items.push(PrintItem::LineBreak);
    proof {
        assert(cw.border_row(y as int).take(2 * w + 2) =~= cw.border_row(y as int));
        assert(items@ =~= base + cw.border_row(y as int));
    }
}

/// Whether the corner below and right of `(x, y)` is a visible junction.
fn cross_of(cw: &Crosswords, x: i64, y: i64) -> (r: bool)
    requires
        cw.wf(),
        -0x8000_0000 <= x < 0x4000_0000,
        -0x8000_0000 <= y < 0x4000_0000,
    ensures
        r == cw.cross_at(x as int, y as int),
{
    let mut count: u8 = 0;
    if cw.border_xy(x, y, Dir::Down) {
        count = count + 1;
    }
    if cw.border_xy(x, y, Dir::Right) {
        count = count + 1;
    }
    if cw.border_xy(x + 1, y, Dir::Down) {
        count = count + 1;
    }
    if cw.border_xy(x, y + 1, Dir::Right) {
        count = count + 1;
    }
    count > 1
}

impl Crosswords {
    /// Returns an iterator over the `PrintItem`s representing the current
    /// state of the crossword, in solution mode: every letter is drawn.
    pub fn print_items(&self) -> (it: PrintIter)
        requires
            self.wf(),
        ensures
            it.wf(),
            it.remaining() == self.print_stream(false),
    {
        PrintIter::new_solution(self)
    }
}

} // verus!

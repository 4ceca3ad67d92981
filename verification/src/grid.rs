//! The crossword grid: letters, word boundaries and the set of placed words.
//!
//! A grid of size `(W, H)` stores one character per cell (`BLOCK` marks an
//! empty cell), one boundary bit between every pair of horizontally adjacent
//! cells (`right_border`) and one between every pair of vertically adjacent
//! cells (`down_border`), and the list of words currently placed. A boundary
//! bit is `false` exactly when its two cells belong to the same word, so a
//! word is a maximal run of cells without internal boundaries.

use vstd::prelude::*;

use crate::point::{Dir, Point};

verus! {

/// The sentinel character for an empty cell.
pub const BLOCK: char = '#';

/// A crossword grid that keeps track of the words it contains and does not
/// allow duplicates.
#[derive(Clone)]
pub struct Crosswords {
    width: usize,
    height: usize,
    chars: Vec<char>,
    right_border: Vec<bool>,
    down_border: Vec<bool>,
    words: Vec<Vec<char>>,
}

impl Crosswords {
    /// The grid width, as a mathematical integer.
    pub closed spec fn spec_width(self) -> int {
        self.width as int
    }

    /// The grid height, as a mathematical integer.
    pub closed spec fn spec_height(self) -> int {
        self.height as int
    }

    /// Whether `(x, y)` is the coordinate of a cell of the grid.
    pub open spec fn inside(self, x: int, y: int) -> bool {
        0 <= x < self.spec_width() && 0 <= y < self.spec_height()
    }

    /// The character of the cell at `(x, y)`; cells outside the grid read as
    /// `BLOCK`.
    pub closed spec fn char_at(self, x: int, y: int) -> char {
        if self.inside(x, y) {
            self.chars@[y * self.spec_width() + x]
        } else {
            BLOCK
        }
    }

    /// Whether the cell at `(x, y)` has a boundary on its `dir` side (right
    /// side for `Right`, bottom side for `Down`). Everything at or beyond the
    /// grid edge reads as a boundary.
    pub closed spec fn border_at(self, x: int, y: int, dir: Dir) -> bool {
        match dir {
            Dir::Right => {
                if 0 <= x < self.spec_width() - 1 && 0 <= y < self.spec_height() {
                    self.right_border@[y * (self.spec_width() - 1) + x]
                } else {
                    true
                }
            },
            Dir::Down => {
                if 0 <= x < self.spec_width() && 0 <= y < self.spec_height() - 1 {
                    self.down_border@[y * self.spec_width() + x]
                } else {
                    true
                }
            },
        }
    }

    /// Whether the cell at `(x, y)` has a boundary on both of its `dir`
    /// sides, i.e. does not belong to any word running in direction `dir`.
    pub open spec fn both_borders_at(self, x: int, y: int, dir: Dir) -> bool {
        self.border_at(x, y, dir) && self.border_at(x - dir.dx(), y - dir.dy(), dir)
    }

    /// The words currently placed, in the order they are stored.
    pub closed spec fn word_seqs(self) -> Seq<Seq<char>> {
        self.words.deep_view()
    }

    /// The set of words currently placed in the grid.
    pub open spec fn word_set(self) -> Set<Seq<char>> {
        self.word_seqs().to_set()
    }

    /// Structural well-formedness: the three arrays have the sizes the
    /// dimensions call for.
    pub closed spec fn wf_dims(self) -> bool {
        &&& 1 <= self.width <= 0x3fff_ffff
        &&& 1 <= self.height <= 0x3fff_ffff
        &&& self.width * self.height <= 0x3fff_ffff
        &&& self.chars@.len() == self.width * self.height
        &&& self.right_border@.len() == (self.width - 1) * self.height
        &&& self.down_border@.len() == self.width * (self.height - 1)
    }

    /// Every registered word has at least two letters, none of them `BLOCK`,
    /// and no word is registered twice.
    pub open spec fn wf_words(self) -> bool {
        &&& forall|i: int|
            0 <= i < self.word_seqs().len() ==> (#[trigger] self.word_seqs()[i]).len() >= 2
        &&& forall|i: int, k: int|
            0 <= i < self.word_seqs().len() && 0 <= k < self.word_seqs()[i].len()
                ==> #[trigger] self.word_seqs()[i][k] != BLOCK
        &&& forall|i: int, j: int|
            0 <= i < j < self.word_seqs().len()
                ==> (#[trigger] self.word_seqs()[i]) != (#[trigger] self.word_seqs()[j])
    }

    /// A missing boundary only ever separates two letter cells: empty cells
    /// have boundaries all around.
    pub open spec fn blocks_bordered(self) -> bool {
        forall|x: int, y: int, dir: Dir|
            !(#[trigger] self.border_at(x, y, dir)) ==> self.char_at(x, y) != BLOCK
                && self.char_at(x + dir.dx(), y + dir.dy()) != BLOCK
    }

    /// Every letter cell belongs to at least one word: along some axis it is
    /// missing a boundary on one side.
    pub open spec fn letters_linked(self) -> bool {
        forall|x: int, y: int|
            self.inside(x, y) && #[trigger] self.char_at(x, y) != BLOCK ==> (
            !self.both_borders_at(x, y, Dir::Right) || !self.both_borders_at(x, y, Dir::Down))
    }

    /// The grid invariant: array sizes match the dimensions, the word list is
    /// duplicate-free and holds genuine words, empty cells are fully
    /// bordered, and no letter is orphaned.
    pub open spec fn wf(self) -> bool {
        &&& self.wf_dims()
        &&& self.wf_words()
        &&& self.blocks_bordered()
        &&& self.letters_linked()
    }

    /// Creates a new empty crossword grid with the given dimensions: all
    /// cells blocked, all boundaries present, no words.
    pub fn new(width: usize, height: usize) -> (cw: Crosswords)
        requires
            1 <= width,
            1 <= height,
            width * height <= 0x3fff_ffff,
        ensures
            cw.wf(),
            cw.spec_width() == width,
            cw.spec_height() == height,
            forall|x: int, y: int| cw.char_at(x, y) == BLOCK,
            forall|x: int, y: int, dir: Dir| cw.border_at(x, y, dir),
            cw.word_seqs() == Seq::<Seq<char>>::empty(),
    {
        proof {
            assert((width - 1) * height <= width * height && width * (height - 1) <= width
                * height && width <= width * height && height <= width * height)
                by (nonlinear_arith)
                requires 1 <= width && 1 <= height;
        }
        let cw = Crosswords {
            width,
            height,
            chars: filled(width * height, BLOCK),
            right_border: filled((width - 1) * height, true),
            down_border: filled(width * (height - 1), true),
            words: Vec::new(),
        };
        proof {
            assert(cw.word_seqs() =~= Seq::<Seq<char>>::empty());
            assert forall|x: int, y: int| cw.char_at(x, y) == BLOCK by {
                if cw.inside(x, y) {
                    assert(0 <= y * cw.spec_width() + x < cw.spec_width() * cw.spec_height())
                        by (nonlinear_arith)
                        requires
                            0 <= x < cw.spec_width(),
                            0 <= y < cw.spec_height(),
                    ;
                }
            }
            assert forall|x: int, y: int, dir: Dir| cw.border_at(x, y, dir) by {
                if 0 <= x < cw.spec_width() - 1 && 0 <= y < cw.spec_height() {
                    assert(0 <= y * (cw.spec_width() - 1) + x < (cw.spec_width() - 1)
                        * cw.spec_height()) by (nonlinear_arith)
                        requires
                            0 <= x < cw.spec_width() - 1,
                            0 <= y < cw.spec_height(),
                    ;
                }
                if 0 <= x < cw.spec_width() && 0 <= y < cw.spec_height() - 1 {
                    assert(0 <= y * cw.spec_width() + x < cw.spec_width() * (cw.spec_height()
                        - 1)) by (nonlinear_arith)
                        requires
                            0 <= x < cw.spec_width(),
                            0 <= y < cw.spec_height() - 1,
                    ;
                }
            }
        }
        cw
    }

    /// The grid width in cells.
    pub fn get_width(&self) -> (w: usize)
        ensures
            w == self.spec_width(),
    {
        self.width
    }

    /// The grid height in cells.
    pub fn get_height(&self) -> (h: usize)
        ensures
            h == self.spec_height(),
    {
        self.height
    }

    /// The words that are present in the grid, in storage order. Under `wf`
    /// the list is free of duplicates, so it also describes `word_set`.
    pub fn get_words(&self) -> (r: &Vec<Vec<char>>)
        ensures
            r.deep_view() == self.word_seqs(),
    {
        &self.words
    }

    /// Returns `true` if the point is a valid coordinate for a cell in the
    /// grid.
    pub fn contains(&self, point: Point) -> (r: bool)
        ensures
            r == self.inside(point.x as int, point.y as int),
    {
        point.x >= 0 && point.y >= 0 && (point.x as u64) < (self.width as u64) && (point.y
            as u64) < (self.height as u64)
    }

    /// Returns `Some(c)` if the given cell contains the character `c`, where
    /// `BLOCK` stands for an empty cell; `None` if the point is outside the
    /// grid.
    pub fn get_char(&self, point: Point) -> (r: Option<char>)
        requires
            self.wf_dims(),
        ensures
            r == if self.inside(point.x as int, point.y as int) {
                Some(self.char_at(point.x as int, point.y as int))
            } else {
                None::<char>
            },
    {
        if point.x >= 0 && point.y >= 0 && (point.x as u64) < (self.width as u64) && (point.y
            as u64) < (self.height as u64) {
            let x = point.x as usize;
            let y = point.y as usize;
            proof {
                assert(y * self.spec_width() + x < self.spec_width() * self.spec_height())
                    by (nonlinear_arith)
                    requires
                        0 <= x < self.spec_width(),
                        0 <= y < self.spec_height(),
                ;
            }
            Some(self.chars[y * self.width + x])
        } else {
            None
        }
    }

    /// Returns `true` if the point is the coordinate of a cell which holds a
    /// letter.
    pub fn is_letter(&self, point: Point) -> (r: bool)
        requires
            self.wf_dims(),
        ensures
            r == (self.inside(point.x as int, point.y as int) && self.char_at(
                point.x as int,
                point.y as int,
            ) != BLOCK),
    {
        match self.get_char(point) {
            None => false,
            Some(c) => c != BLOCK,
        }
    }
}

impl Crosswords {
    /// Whether `(x, y)` indexes a stored boundary bit for `dir` (boundaries
    /// at the grid edge are not stored; they always read as present).
    pub open spec fn in_border_range(self, x: int, y: int, dir: Dir) -> bool {
        match dir {
            Dir::Right => 0 <= x < self.spec_width() - 1 && 0 <= y < self.spec_height(),
            Dir::Down => 0 <= x < self.spec_width() && 0 <= y < self.spec_height() - 1,
        }
    }

    /// `border_at`, for coordinates already widened to `i64`.
    pub(crate) fn border_xy(&self, x: i64, y: i64, dir: Dir) -> (r: bool)
        requires
            self.wf_dims(),
        ensures
            r == self.border_at(x as int, y as int, dir),
    {
        let w = self.width as i64;
        let h = self.height as i64;
        match dir {
            Dir::Right => {
                if 0 <= x && x < w - 1 && 0 <= y && y < h {
                    proof {
                        assert(0 <= y * (w - 1) + x < (w - 1) * h && (w - 1) * h <= w * h)
                            by (nonlinear_arith)
                            requires
                                0 <= x < w - 1,
                                0 <= y < h,
                        ;
                    }
                    self.right_border[(y as usize) * (self.width - 1) + (x as usize)]
                } else {
                    true
                }
            },
            Dir::Down => {
                if 0 <= x && x < w && 0 <= y && y < h - 1 {
                    proof {
                        assert(0 <= y * w + x < w * (h - 1) && w * (h - 1) <= w * h)
                            by (nonlinear_arith)
                            requires
                                0 <= x < w,
                                0 <= y < h - 1,
                        ;
                    }
                    self.down_border[(y as usize) * self.width + (x as usize)]
                } else {
                    true
                }
            },
        }
    }

    /// Returns `true` if the given cell has a right resp. bottom boundary,
    /// where points outside the grid have boundaries all around. `false`
    /// means that the cell and its `dir` neighbour belong to one word.
    pub fn get_border(&self, point: Point, dir: Dir) -> (r: bool)
        requires
            self.wf_dims(),
        ensures
            r == self.border_at(point.x as int, point.y as int, dir),
    {
        self.border_xy(point.x as i64, point.y as i64, dir)
    }

    /// Returns `true` if the cell has boundaries on both of its `dir` sides,
    /// i.e. it belongs to no word running in direction `dir`.
    pub fn both_borders(&self, point: Point, dir: Dir) -> (r: bool)
        requires
            self.wf_dims(),
        ensures
            r == self.both_borders_at(point.x as int, point.y as int, dir),
    {
        let x = point.x as i64;
        let y = point.y as i64;
        match dir {
            Dir::Right => self.border_xy(x, y, dir) && self.border_xy(x - 1, y, dir),
            Dir::Down => self.border_xy(x, y, dir) && self.border_xy(x, y - 1, dir),
        }
    }

    /// Writes one boundary bit. Boundaries at or beyond the grid edge are not
    /// stored and can only be "set" to present, which changes nothing.
    fn set_border_xy(&mut self, x: i64, y: i64, dir: Dir, value: bool)
        requires
            old(self).wf_dims(),
            !value ==> old(self).in_border_range(x as int, y as int, dir),
        ensures
            final(self).wf_dims(),
            final(self).spec_width() == old(self).spec_width(),
            final(self).spec_height() == old(self).spec_height(),
            forall|a: int, b: int| final(self).char_at(a, b) == old(self).char_at(a, b),
            final(self).word_seqs() == old(self).word_seqs(),
            forall|a: int, b: int, d: Dir|
                #[trigger] final(self).border_at(a, b, d) == if a == x as int && b == y as int
                    && d == dir {
                    value
                } else {
                    old(self).border_at(a, b, d)
                },
            final(self).spec_border_count() == old(self).spec_border_count() + (if old(
                self,
            ).in_border_range(x as int, y as int, dir) {
                (if value {
                    1int
                } else {
                    0int
                }) - (if old(self).border_at(x as int, y as int, dir) {
                    1int
                } else {
                    0int
                })
            } else {
                0int
            }),
    {
        let w = self.width as i64;
        let h = self.height as i64;
        let ghost prev = *self;
        match dir {
            Dir::Right => {
                if 0 <= x && x < w - 1 && 0 <= y && y < h {
                    proof {
                        assert(0 <= y * (w - 1) + x < (w - 1) * h && (w - 1) * h <= w * h)
                            by (nonlinear_arith)
                            requires
                                0 <= x < w - 1,
                                0 <= y < h,
                        ;
                    }
                    let idx = (y as usize) * (self.width - 1) + (x as usize);
                    self.right_border[idx] = value;
                    proof {
                        lemma_count_true_update(prev.right_border@, idx as int, value);
                        assert forall|a: int, b: int, d: Dir| #[trigger]
                            self.border_at(a, b, d) == if a == x as int && b == y as int && d
                                == dir {
                                value
                            } else {
                                prev.border_at(a, b, d)
                            } by {
                            if d == Dir::Right && prev.in_border_range(a, b, Dir::Right) {
                                assert(0 <= b * (w - 1) + a < (w - 1) * h && (b * (w - 1) + a == y
                                    * (w - 1) + x <==> (a == x && b == y))) by (nonlinear_arith)
                                    requires
                                        0 <= a < w - 1,
                                        0 <= b < h,
                                        0 <= x < w - 1,
                                        0 <= y < h,
                                ;
                            }
                        }
                    }
                }
            },
            Dir::Down => {
                if 0 <= x && x < w && 0 <= y && y < h - 1 {
                    proof {
                        assert(0 <= y * w + x < w * (h - 1) && w * (h - 1) <= w * h)
                            by (nonlinear_arith)
                            requires
                                0 <= x < w,
                                0 <= y < h - 1,
                        ;
                    }
                    let idx = (y as usize) * self.width + (x as usize);
                    self.down_border[idx] = value;
                    proof {
                        lemma_count_true_update(prev.down_border@, idx as int, value);
                        assert forall|a: int, b: int, d: Dir| #[trigger]
                            self.border_at(a, b, d) == if a == x as int && b == y as int && d
                                == dir {
                                value
                            } else {
                                prev.border_at(a, b, d)
                            } by {
                            if d == Dir::Down && prev.in_border_range(a, b, Dir::Down) {
                                assert(0 <= b * w + a < w * (h - 1) && (b * w + a == y * w + x
                                    <==> (a == x && b == y))) by (nonlinear_arith)
                                    requires
                                        0 <= a < w,
                                        0 <= b < h - 1,
                                        0 <= x < w,
                                        0 <= y < h - 1,
                                ;
                            }
                        }
                    }
                }
            },
        }
    }

    /// Writes one cell's character.
    fn put_char_xy(&mut self, x: i64, y: i64, c: char)
        requires
            old(self).wf_dims(),
            old(self).inside(x as int, y as int),
        ensures
            final(self).wf_dims(),
            final(self).spec_width() == old(self).spec_width(),
            final(self).spec_height() == old(self).spec_height(),
            forall|a: int, b: int|
                #[trigger] final(self).char_at(a, b) == if a == x as int && b == y as int {
                    c
                } else {
                    old(self).char_at(a, b)
                },
            forall|a: int, b: int, d: Dir|
                #[trigger] final(self).border_at(a, b, d) == old(self).border_at(a, b, d),
            final(self).word_seqs() == old(self).word_seqs(),
            final(self).spec_border_count() == old(self).spec_border_count(),
    {
        let ghost prev = *self;
        let w = self.width as i64;
        let h = self.height as i64;
        proof {
            assert(0 <= y * w + x < w * h) by (nonlinear_arith)
                requires
                    0 <= x < w,
                    0 <= y < h,
            ;
        }
        let idx = (y as usize) * self.width + (x as usize);
        self.chars[idx] = c;
        proof {
            assert forall|a: int, b: int| #[trigger]
                self.char_at(a, b) == if a == x as int && b == y as int {
                    c
                } else {
                    prev.char_at(a, b)
                } by {
                if self.inside(a, b) {
                    assert(b * w + a == y * w + x && 0 <= a < w && 0 <= x < w ==> a == x && b
                        == y) by (nonlinear_arith);
                    assert(0 <= b * w + a < w * h) by (nonlinear_arith)
                        requires
                            0 <= a < w,
                            0 <= b < h,
                    ;
                }
            }
        }
    }
}

/// An axis-aligned run of cells: `len` cells starting at `point`, advancing
/// one step in direction `dir` per cell.
#[derive(Clone, Copy, Debug, PartialEq, Eq, Structural)]
pub struct Range {
    pub point: Point,
    pub dir: Dir,
    pub len: usize,
}

/// Whether `(x, y)` is one of the `len` cells of the run that starts at
/// `(sx, sy)` and advances in direction `dir`.
pub open spec fn on_run(sx: int, sy: int, dir: Dir, len: int, x: int, y: int) -> bool {
    match dir {
        Dir::Right => y == sy && sx <= x < sx + len,
        Dir::Down => x == sx && sy <= y < sy + len,
    }
}

/// The offset of `(x, y)` within a run starting at `(sx, sy)` in direction
/// `dir`.
pub open spec fn run_offset(sx: int, sy: int, dir: Dir, x: int, y: int) -> int {
    match dir {
        Dir::Right => x - sx,
        Dir::Down => y - sy,
    }
}

impl Crosswords {
    /// How many cells the run through `(x, y)` in direction `dir` extends
    /// backwards from `(x, y)`: the number of consecutive missing boundaries
    /// directly before the cell.
    pub open spec fn back_len(self, x: int, y: int, dir: Dir) -> nat
        decreases (if dir == Dir::Right { x } else { y }),
    {
        if !self.border_at(x - dir.dx(), y - dir.dy(), dir) {
            (self.back_len(x - dir.dx(), y - dir.dy(), dir) + 1) as nat
        } else {
            0
        }
    }

    /// How many cells the run through `(x, y)` extends forward, the cell
    /// itself included: one more than the number of consecutive missing
    /// boundaries at and after the cell.
    pub open spec fn fwd_len(self, x: int, y: int, dir: Dir) -> nat
        decreases (if dir == Dir::Right { self.spec_width() - x } else { self.spec_height() - y }),
    {
        if !self.border_at(x, y, dir) {
            (self.fwd_len(x + dir.dx(), y + dir.dy(), dir) + 1) as nat
        } else {
            1
        }
    }

    /// The length of the maximal boundary-free run through `(x, y)`.
    pub open spec fn run_len(self, x: int, y: int, dir: Dir) -> nat {
        (self.back_len(x, y, dir) + self.fwd_len(x, y, dir)) as nat
    }

    /// The x coordinate of the first cell of the run through `(x, y)`.
    pub open spec fn run_start_x(self, x: int, y: int, dir: Dir) -> int {
        x - self.back_len(x, y, dir) * dir.dx()
    }

    /// The y coordinate of the first cell of the run through `(x, y)`.
    pub open spec fn run_start_y(self, x: int, y: int, dir: Dir) -> int {
        y - self.back_len(x, y, dir) * dir.dy()
    }

    /// The word through `(x, y)` in direction `dir`: the characters of the
    /// maximal boundary-free run through that cell, from its true beginning.
    /// Empty if the cell is outside the grid or holds no letter.
    pub open spec fn word_seq_at(self, x: int, y: int, dir: Dir) -> Seq<char> {
        if self.inside(x, y) && self.char_at(x, y) != BLOCK {
            Seq::new(
                self.run_len(x, y, dir),
                |k: int|
                    self.char_at(
                        self.run_start_x(x, y, dir) + k * dir.dx(),
                        self.run_start_y(x, y, dir) + k * dir.dy(),
                    ),
            )
        } else {
            Seq::empty()
        }
    }
}

/// Facts about the backward extent of a run: the run's first cell has a
/// boundary directly before it, no earlier missing boundary, and every
/// boundary between the first cell and `(x, y)` is missing.
pub proof fn lemma_back_props(g: Crosswords, x: int, y: int, dir: Dir)
    ensures
        g.back_len(g.run_start_x(x, y, dir), g.run_start_y(x, y, dir), dir) == 0,
        g.border_at(
            g.run_start_x(x, y, dir) - dir.dx(),
            g.run_start_y(x, y, dir) - dir.dy(),
            dir,
        ),
        g.fwd_len(g.run_start_x(x, y, dir), g.run_start_y(x, y, dir), dir) == g.run_len(
            x,
            y,
            dir,
        ),
        forall|a: int, b: int|
            on_run(
                g.run_start_x(x, y, dir),
                g.run_start_y(x, y, dir),
                dir,
                g.back_len(x, y, dir) as int,
                a,
                b,
            ) ==> !(#[trigger] g.border_at(a, b, dir)),
    decreases g.back_len(x, y, dir),
{
    if !g.border_at(x - dir.dx(), y - dir.dy(), dir) {
        lemma_back_props(g, x - dir.dx(), y - dir.dy(), dir);
        assert(g.fwd_len(x - dir.dx(), y - dir.dy(), dir) == g.fwd_len(x, y, dir) + 1);
    }
}

/// Facts about the forward extent of a run: a boundary stands after its last
/// cell and none between `(x, y)` and that last cell.
pub proof fn lemma_fwd_props(g: Crosswords, x: int, y: int, dir: Dir)
    ensures
        g.fwd_len(x, y, dir) >= 1,
        g.border_at(
            x + (g.fwd_len(x, y, dir) - 1) * dir.dx(),
            y + (g.fwd_len(x, y, dir) - 1) * dir.dy(),
            dir,
        ),
        forall|a: int, b: int|
            on_run(x, y, dir, g.fwd_len(x, y, dir) - 1, a, b) ==> !(#[trigger] g.border_at(
                a,
                b,
                dir,
            )),
    decreases g.fwd_len(x, y, dir),
{
    if !g.border_at(x, y, dir) {
        lemma_fwd_props(g, x + dir.dx(), y + dir.dy(), dir);
    }
}

/// The forward extent of a run is capped by the distance to the grid edge.
pub proof fn lemma_fwd_bound(g: Crosswords, x: int, y: int, dir: Dir)
    ensures
        g.fwd_len(x, y, dir) <= 1 + (match dir {
            Dir::Right => if 0 <= x && x <= g.spec_width() - 1 {
                g.spec_width() - 1 - x
            } else {
                0
            },
            Dir::Down => if 0 <= y && y <= g.spec_height() - 1 {
                g.spec_height() - 1 - y
            } else {
                0
            },
        }),
    decreases g.fwd_len(x, y, dir),
{
    if !g.border_at(x, y, dir) {
        lemma_fwd_bound(g, x + dir.dx(), y + dir.dy(), dir);
    }
}

/// The backward extent of a run is capped by the distance to the grid edge.
pub proof fn lemma_back_bound(g: Crosswords, x: int, y: int, dir: Dir)
    ensures
        g.back_len(x, y, dir) <= (match dir {
            Dir::Right => if x >= 0 {
                x
            } else {
                0
            },
            Dir::Down => if y >= 0 {
                y
            } else {
                0
            },
        }),
    decreases g.back_len(x, y, dir),
{
    if !g.border_at(x - dir.dx(), y - dir.dy(), dir) {
        lemma_back_bound(g, x - dir.dx(), y - dir.dy(), dir);
    }
}

impl Crosswords {
    /// The characters of `len` consecutive cells starting at `(sx, sy)`,
    /// advancing in direction `dir`; cells outside the grid read as `BLOCK`.
    pub open spec fn range_char_seq(self, sx: int, sy: int, dir: Dir, len: int) -> Seq<char> {
        Seq::new(
            len as nat,
            |k: int| self.char_at(sx + k * dir.dx(), sy + k * dir.dy()),
        )
    }

    /// Whether a word running in direction `dir` starts exactly at `(x, y)`.
    pub open spec fn hint_at(self, x: int, y: int, dir: Dir) -> bool {
        !self.border_at(x, y, dir) && self.border_at(x - dir.dx(), y - dir.dy(), dir)
    }

    /// `char_at`, for coordinates already widened to `i64`.
    pub(crate) fn char_xy(&self, x: i64, y: i64) -> (c: char)
        requires
            self.wf_dims(),
        ensures
            c == self.char_at(x as int, y as int),
    {
        let w = self.width as i64;
        let h = self.height as i64;
        if 0 <= x && x < w && 0 <= y && y < h {
            proof {
                assert(0 <= y * w + x < w * h) by (nonlinear_arith)
                    requires
                        0 <= x < w,
                        0 <= y < h,
                ;
            }
            self.chars[(y as usize) * self.width + (x as usize)]
        } else {
            BLOCK
        }
    }

    /// Returns the range beginning at the given point and reaching to the end
    /// of the word there: empty if a word runs through the cell before the
    /// point.
    pub fn get_word_range_at(&self, point: Point, dir: Dir) -> (r: Range)
        requires
            self.wf_dims(),
        ensures
            r.point == point,
            r.dir == dir,
            r.len as int == if self.border_at(
                point.x - dir.dx(),
                point.y - dir.dy(),
                dir,
            ) {
                self.fwd_len(point.x as int, point.y as int, dir) as int
            } else {
                0
            },
    {
        let px = point.x as i64;
        let py = point.y as i64;
        let dv = dir.point();
        let dx = dv.x as i64;
        let dy = dv.y as i64;
        if !self.border_xy(px - dx, py - dy, dir) {
            return Range { point, dir, len: 0 };
        }
        proof {
            lemma_fwd_bound(*self, px as int, py as int, dir);
        }
        let mut cx = px;
        let mut cy = py;
        let mut len: usize = 1;
        while !self.border_xy(cx, cy, dir)
            invariant
                self.wf_dims(),
                1 <= len,
                len <= 0x4000_0000,
                cx == px + (len - 1) * dx,
                cy == py + (len - 1) * dy,
                dx == dir.dx() && dy == dir.dy(),
                px == point.x as int && py == point.y as int,
                self.fwd_len(px as int, py as int, dir) == (len - 1) + self.fwd_len(
                    cx as int,
                    cy as int,
                    dir,
                ),
                self.fwd_len(px as int, py as int, dir) <= 0x4000_0000,
            decreases self.fwd_len(cx as int, cy as int, dir),
        {
            cx = cx + dx;
            cy = cy + dy;
            len = len + 1;
        }
        Range { point, dir, len }
    }

    /// Returns the range of the whole word the given point belongs to,
    /// beginning at the word's first cell.
    pub fn get_word_range_containing(&self, point: Point, dir: Dir) -> (r: Range)
        requires
            self.wf_dims(),
        ensures
            r.dir == dir,
            r.point.x as int == self.run_start_x(point.x as int, point.y as int, dir),
            r.point.y as int == self.run_start_y(point.x as int, point.y as int, dir),
            r.len == self.run_len(point.x as int, point.y as int, dir),
    {
        let px = point.x as i64;
        let py = point.y as i64;
        let dv = dir.point();
        let dx = dv.x as i64;
        let dy = dv.y as i64;
        proof {
            lemma_back_bound(*self, px as int, py as int, dir);
        }
        let mut cx = px;
        let mut cy = py;
        while !self.border_xy(cx - dx, cy - dy, dir)
            invariant
                self.wf_dims(),
                dx == dir.dx() && dy == dir.dy(),
                px == point.x as int && py == point.y as int,
                cx <= px && cy <= py,
                (cx == px && cy == py) || (0 <= cx && 0 <= cy),
                dir == Dir::Right ==> cy == py,
                dir == Dir::Down ==> cx == px,
                self.back_len(px as int, py as int, dir) == (px - cx) + (py - cy) + self.back_len(
                    cx as int,
                    cy as int,
                    dir,
                ),
            decreases self.back_len(cx as int, cy as int, dir),
        {
            cx = cx - dx;
            cy = cy - dy;
        }
        proof {
            lemma_back_props(*self, px as int, py as int, dir);
        }
        let start = Point { x: cx as i32, y: cy as i32 };
        let rest = self.get_word_range_at(start, dir);
        rest
    }

    /// The characters in the given range, in range order; cells outside the
    /// grid read as `BLOCK`.
    pub fn chars(&self, range: Range) -> (r: Vec<char>)
        requires
            self.wf_dims(),
            range.len <= 0x3fff_ffff,
        ensures
            r@ == self.range_char_seq(
                range.point.x as int,
                range.point.y as int,
                range.dir,
                range.len as int,
            ),
    {
        let dv = range.dir.point();
        let dx = dv.x as i64;
        let dy = dv.y as i64;
        let px = range.point.x as i64;
        let py = range.point.y as i64;
        let mut r: Vec<char> = Vec::new();
        let mut k: usize = 0;
        while k < range.len
            invariant
                self.wf_dims(),
                k <= range.len <= 0x3fff_ffff,
                dx == range.dir.dx() && dy == range.dir.dy(),
                px == range.point.x as int && py == range.point.y as int,
                r@.len() == k,
                forall|j: int|
                    0 <= j < k ==> r@[j] == self.char_at(px + j * dx, py + j * dy),
            decreases range.len - k,
        {
            r.push(self.char_xy(px + (k as i64) * dx, py + (k as i64) * dy));
            k = k + 1;
        }
        proof {
            assert(r@ =~= self.range_char_seq(
                range.point.x as int,
                range.point.y as int,
                range.dir,
                range.len as int,
            ));
        }
        r
    }

    /// The characters of the word beginning at the given position; if no word
    /// begins there the result is empty or a single cell's character.
    pub fn chars_at(&self, point: Point, dir: Dir) -> (r: Vec<char>)
        requires
            self.wf_dims(),
        ensures
            r@ == self.range_char_seq(
                point.x as int,
                point.y as int,
                dir,
                if self.border_at(point.x - dir.dx(), point.y - dir.dy(), dir) {
                    self.fwd_len(point.x as int, point.y as int, dir) as int
                } else {
                    0
                },
            ),
    {
        let range = self.get_word_range_at(point, dir);
        proof {
            lemma_fwd_bound(*self, point.x as int, point.y as int, dir);
        }
        self.chars(range)
    }

    /// Returns the word through the given position, from its first letter.
    /// Empty if the cell is outside the grid or holds no letter.
    pub fn word_at(&self, point: Point, dir: Dir) -> (r: Vec<char>)
        requires
            self.wf_dims(),
        ensures
            r@ == self.word_seq_at(point.x as int, point.y as int, dir),
    {
        if !self.is_letter(point) {
            return Vec::new();
        }
        let range = self.get_word_range_containing(point, dir);
        proof {
            lemma_back_props(*self, point.x as int, point.y as int, dir);
            lemma_back_bound(*self, point.x as int, point.y as int, dir);
            lemma_fwd_bound(
                *self,
                self.run_start_x(point.x as int, point.y as int, dir),
                self.run_start_y(point.x as int, point.y as int, dir),
                dir,
            );
        }
        let r = self.chars(range);
        proof {
            assert(r@ =~= self.word_seq_at(point.x as int, point.y as int, dir));
        }
        r
    }

    /// Returns `true` if a word with the given orientation starts at that
    /// point.
    pub fn has_hint_at_dir(&self, point: Point, dir: Dir) -> (r: bool)
        requires
            self.wf_dims(),
        ensures
            r == self.hint_at(point.x as int, point.y as int, dir),
    {
        let px = point.x as i64;
        let py = point.y as i64;
        let dv = dir.point();
        !self.border_xy(px, py, dir) && self.border_xy(px - dv.x as i64, py - dv.y as i64, dir)
    }

    /// Returns `true` if a word starts at that point, in either direction.
    pub fn has_hint_at(&self, point: Point) -> (r: bool)
        requires
            self.wf_dims(),
        ensures
            r == (self.hint_at(point.x as int, point.y as int, Dir::Right) || self.hint_at(
                point.x as int,
                point.y as int,
                Dir::Down,
            )),
    {
        self.has_hint_at_dir(point, Dir::Right) || self.has_hint_at_dir(point, Dir::Down)
    }
}

/// How many entries of a boolean sequence are `true`.
pub open spec fn count_true(s: Seq<bool>) -> int
    decreases s.len(),
{
    if s.len() == 0 {
        0
    } else {
        count_true(s.drop_last()) + (if s.last() {
            1int
        } else {
            0int
        })
    }
}

/// `count_true` never exceeds the sequence length.
pub proof fn lemma_count_true_bound(s: Seq<bool>)
    ensures
        0 <= count_true(s) <= s.len(),
    decreases s.len(),
{
    if s.len() > 0 {
        lemma_count_true_bound(s.drop_last());
    }
}

/// Flipping one entry moves `count_true` by exactly that entry's weight.
pub proof fn lemma_count_true_update(s: Seq<bool>, i: int, v: bool)
    requires
        0 <= i < s.len(),
    ensures
        count_true(s.update(i, v)) == count_true(s) - (if s[i] {
            1int
        } else {
            0int
        }) + (if v {
            1int
        } else {
            0int
        }),
    decreases s.len(),
{
    if i == s.len() - 1 {
        assert(s.update(i, v).drop_last() =~= s.drop_last());
    } else {
        assert(s.update(i, v).drop_last() =~= s.drop_last().update(i, v));
        lemma_count_true_update(s.drop_last(), i, v);
    }
}

/// The number of `true` entries in a vector of booleans.
fn count_true_vec(v: &Vec<bool>) -> (n: usize)
    ensures
        n == count_true(v@),
        n <= v@.len(),
{
    let mut n: usize = 0;
    let mut i: usize = 0;
    while i < v.len()
        invariant
            i <= v@.len(),
            n == count_true(v@.take(i as int)),
            n <= i,
        decreases v@.len() - i,
    {
        proof {
            assert(v@.take(i + 1).drop_last() =~= v@.take(i as int));
            assert(v@.take(i + 1).last() == v@[i as int]);
        }
        if v[i] {
            n = n + 1;
        }
        i = i + 1;
    }
    proof {
        assert(v@.take(v@.len() as int) =~= v@);
    }
    n
}

impl Crosswords {
    /// The number of boundaries stored inside the grid, internal edges at the
    /// grid rim not counted.
    pub closed spec fn spec_border_count(self) -> int {
        count_true(self.right_border@) + count_true(self.down_border@)
    }

    /// How many of the first `k` boundary positions along the run starting at
    /// `(px, py)` hold a boundary.
    pub open spec fn run_true_borders(self, px: int, py: int, dir: Dir, k: int) -> int
        decreases k,
    {
        if k <= 0 {
            0
        } else {
            self.run_true_borders(px, py, dir, k - 1) + (if self.border_at(
                px + (k - 1) * dir.dx(),
                py + (k - 1) * dir.dy(),
                dir,
            ) {
                1int
            } else {
                0int
            })
        }
    }

    /// Returns `true` if the grid contains no words.
    pub fn is_empty(&self) -> (r: bool)
        ensures
            r == (self.word_seqs().len() == 0),
    {
        self.words.len() == 0
    }

    /// Returns `true` if every cell of the grid holds a letter.
    pub fn is_full(&self) -> (r: bool)
        requires
            self.wf_dims(),
        ensures
            r == (forall|x: int, y: int|
                self.inside(x, y) ==> #[trigger] self.char_at(x, y) != BLOCK),
    {
        let mut y: usize = 0;
        while y < self.height
            invariant
                self.wf_dims(),
                y <= self.height,
                forall|a: int, b: int|
                    self.inside(a, b) && b < y ==> #[trigger] self.char_at(a, b) != BLOCK,
            decreases self.height - y,
        {
            let mut x: usize = 0;
            while x < self.width
                invariant
                    self.wf_dims(),
                    y < self.height,
                    x <= self.width,
                    forall|a: int, b: int|
                        self.inside(a, b) && b < y ==> #[trigger] self.char_at(a, b) != BLOCK,
                    forall|a: int|
                        0 <= a < x ==> #[trigger] self.char_at(a, y as int) != BLOCK,
                decreases self.width - x,
            {
                if self.char_xy(x as i64, y as i64) == BLOCK {
                    return false;
                }
                x = x + 1;
            }
            y = y + 1;
        }
        true
    }

    /// Returns the number of boundaries between adjacent cells inside the
    /// grid.
    pub fn count_borders(&self) -> (n: usize)
        requires
            self.wf_dims(),
        ensures
            n == self.spec_border_count(),
    {
        proof {
            lemma_count_true_bound(self.right_border@);
            lemma_count_true_bound(self.down_border@);
            assert((self.spec_width() - 1) * self.spec_height() + self.spec_width() * (
            self.spec_height() - 1) <= 2 * (self.spec_width() * self.spec_height()))
                by (nonlinear_arith)
                requires
                    1 <= self.spec_width(),
                    1 <= self.spec_height(),
            ;
        }
        count_true_vec(&self.right_border) + count_true_vec(&self.down_border)
    }

    /// The number of boundaries an empty grid of this size holds:
    /// `2 * width * height - width - height`.
    pub fn max_border_count(&self) -> (n: usize)
        requires
            self.wf_dims(),
        ensures
            n == 2 * self.spec_width() * self.spec_height() - self.spec_width()
                - self.spec_height(),
    {
        proof {
            assert(self.spec_width() <= self.spec_width() * self.spec_height()
                && self.spec_height() <= self.spec_width() * self.spec_height() && 2 * (
            self.spec_width() * self.spec_height()) == 2 * self.spec_width()
                * self.spec_height()) by (nonlinear_arith)
                requires
                    1 <= self.spec_width(),
                    1 <= self.spec_height(),
            ;
        }
        2 * (self.width * self.height) - self.width - self.height
    }
}

/// Membership in a pushed sequence is membership in the sequence or equality
/// with the new element.
proof fn lemma_push_contains<A>(s: Seq<A>, x: A)
    ensures
        forall|a: A| s.push(x).contains(a) <==> (s.contains(a) || a == x),
{
    assert forall|a: A| s.push(x).contains(a) <==> (s.contains(a) || a == x) by {
        if s.contains(a) {
            let j = choose|j: int| 0 <= j < s.len() && s[j] == a;
            assert(s.push(x)[j] == a);
        }
        if a == x {
            assert(s.push(x)[s.len() as int] == a);
        }
        if s.push(x).contains(a) {
            let j = choose|j: int| 0 <= j < s.push(x).len() && s.push(x)[j] == a;
            if j < s.len() {
                assert(s[j] == a);
            }
        }
    }
}

/// Removing an entry from a duplicate-free sequence removes exactly that
/// element from the sequence's set of values.
proof fn lemma_nodup_remove(s: Seq<Seq<char>>, i: int)
    requires
        0 <= i < s.len(),
        forall|a: int, b: int| 0 <= a < b < s.len() ==> (#[trigger] s[a]) != (#[trigger] s[b]),
    ensures
        s.remove(i).to_set() == s.to_set().remove(s[i]),
{
    let r = s.remove(i);
    assert forall|x: Seq<char>| r.to_set().contains(x) <==> (s.to_set().contains(x) && x != s[i])
        by {
        if r.contains(x) {
            let j = choose|j: int| 0 <= j < r.len() && r[j] == x;
            if j < i {
                assert(s[j] == x);
                assert(s[j] != s[i]);
            } else {
                assert(s[j + 1] == x);
                assert(s[j + 1] != s[i]);
            }
            assert(s.contains(x));
        }
        if s.contains(x) && x != s[i] {
            let j = choose|j: int| 0 <= j < s.len() && s[j] == x;
            if j < i {
                assert(r[j] == x);
            } else {
                assert(r[j - 1] == x);
            }
            assert(r.contains(x));
        }
    }
    assert(r.to_set() =~= s.to_set().remove(s[i]));
}

/// Two character vectors hold the same characters.
pub(crate) fn vec_char_eq(a: &Vec<char>, b: &Vec<char>) -> (r: bool)
    ensures
        r == (a@ == b@),
{
    if a.len() != b.len() {
        return false;
    }
    let mut i: usize = 0;
    while i < a.len()
        invariant
            a@.len() == b@.len(),
            i <= a@.len(),
            forall|j: int| 0 <= j < i ==> a@[j] == b@[j],
        decreases a@.len() - i,
    {
        if a[i] != b[i] {
            return false;
        }
        i = i + 1;
    }
    proof {
        assert(a@ =~= b@);
    }
    true
}

impl Crosswords {
    /// Whether character `c` may be written at `(x, y)`: the cell is inside
    /// the grid and holds either `c` already or nothing.
    pub open spec fn char_ok(self, x: int, y: int, c: char) -> bool {
        self.inside(x, y) && (self.char_at(x, y) == c || self.char_at(x, y) == BLOCK)
    }

    /// Whether the word `w` may be placed at `p` in direction `dir`: it has
    /// at least two letters, is not already placed, a boundary stands before
    /// its first and after its last cell, and every cell on its run is inside
    /// the grid and empty or already holding the needed letter.
    pub open spec fn allowed_spec(self, p: Point, dir: Dir, w: Seq<char>) -> bool {
        &&& w.len() >= 2
        &&& !self.word_set().contains(w)
        &&& self.border_at(p.x - dir.dx(), p.y - dir.dy(), dir)
        &&& self.border_at(
            p.x + (w.len() - 1) * dir.dx(),
            p.y + (w.len() - 1) * dir.dy(),
            dir,
        )
        &&& forall|k: int|
            0 <= k < w.len() ==> self.char_ok(
                p.x + k * dir.dx(),
                p.y + k * dir.dy(),
                #[trigger] w[k],
            )
    }

    /// The words that occupy cells of the given run in its own direction:
    /// exactly the words a placement over this run would supersede.
    pub open spec fn parallel_words(self, px: int, py: int, dir: Dir, len: int) -> Set<
        Seq<char>,
    > {
        Set::new(
            |s: Seq<char>|
                exists|a: int, b: int|
                    #![trigger self.word_seq_at(a, b, dir)]
                    on_run(px as int, py as int, dir, len, a, b) && s == self.word_seq_at(a, b, dir) && s.len()
                        >= 2,
        )
    }

    /// Whether the given word is one of the words placed in the grid.
    fn contains_word(&self, w: &Vec<char>) -> (r: bool)
        ensures
            r == self.word_set().contains(w@),
    {
        let mut i: usize = 0;
        while i < self.words.len()
            invariant
                i <= self.words@.len(),
                forall|j: int| 0 <= j < i ==> self.word_seqs()[j] != w@,
            decreases self.words@.len() - i,
        {
            if vec_char_eq(&self.words[i], w) {
                proof {
                    assert(self.words@[i as int].deep_view() =~= self.words@[i as int]@);
                    assert(self.word_seqs()[i as int] == w@);
                    assert(self.word_seqs().contains(w@));
                }
                return true;
            }
            proof {
                assert(self.words@[i as int].deep_view() =~= self.words@[i as int]@);
            }
            i = i + 1;
        }
        proof {
            assert(!self.word_seqs().contains(w@));
        }
        false
    }

    /// Removes the given word from the word list if it is present.
    fn remove_word_value(&mut self, w: &Vec<char>)
        requires
            old(self).wf_dims(),
            old(self).wf_words(),
        ensures
            final(self).wf_dims(),
            final(self).wf_words(),
            final(self).spec_width() == old(self).spec_width(),
            final(self).spec_height() == old(self).spec_height(),
            forall|a: int, b: int| final(self).char_at(a, b) == old(self).char_at(a, b),
            forall|a: int, b: int, d: Dir|
                #[trigger] final(self).border_at(a, b, d) == old(self).border_at(a, b, d),
            final(self).word_set() == old(self).word_set().remove(w@),
            final(self).word_seqs().len() <= old(self).word_seqs().len(),
            final(self).spec_border_count() == old(self).spec_border_count(),
    {
        let ghost prev = *self;
        let mut i: usize = 0;
        while i < self.words.len()
            invariant
                *self == prev,
                prev == *old(self),
                prev.wf_dims(),
                prev.wf_words(),
                i <= self.words@.len(),
                forall|j: int| 0 <= j < i ==> self.word_seqs()[j] != w@,
            decreases self.words@.len() - i,
        {
            if vec_char_eq(&self.words[i], w) {
                proof {
                    assert(self.words@[i as int].deep_view() =~= self.words@[i as int]@);
                    assert(self.word_seqs()[i as int] == w@);
                }
                let ghost before = self.word_seqs();
                proof {
                    assert forall|a: int, b: int| 0 <= a < b < before.len() implies (
                    #[trigger] before[a]) != (#[trigger] before[b]) by {
                        assert(prev.word_seqs()[a] != prev.word_seqs()[b]);
                    }
                }
                self.words.remove(i);
                proof {
                    assert(self.word_seqs() =~= before.remove(i as int));
                    lemma_nodup_remove(before, i as int);
                    assert(self.word_set() =~= prev.word_set().remove(w@));
                }
                return ;
            }
            proof {
                assert(self.words@[i as int].deep_view() =~= self.words@[i as int]@);
            }
            i = i + 1;
        }
        proof {
            assert(!self.word_seqs().contains(w@));
            assert(self.word_set() =~= prev.word_set().remove(w@));
        }
    }

    /// Returns whether the given word could be inserted at that position
    /// without conflicting with the words already present.
    pub fn is_word_allowed(&self, point: Point, dir: Dir, word: &Vec<char>) -> (r: bool)
        requires
            self.wf_dims(),
        ensures
            r == self.allowed_spec(point, dir, word@),
    {
        if word.len() < 2 {
            return false;
        }
        if self.contains_word(word) {
            return false;
        }
        let px = point.x as i64;
        let py = point.y as i64;
        let dv = dir.point();
        let dx = dv.x as i64;
        let dy = dv.y as i64;
        if !self.border_xy(px - dx, py - dy, dir) {
            return false;
        }
        let w64 = self.width as i64;
        let h64 = self.height as i64;
        let mut cx = px;
        let mut cy = py;
        let mut k: usize = 0;
        while k < word.len()
            invariant
                self.wf_dims(),
                k <= word@.len(),
                word@.len() >= 2,
                dx == dir.dx() && dy == dir.dy(),
                px == point.x as int && py == point.y as int,
                w64 == self.spec_width() && h64 == self.spec_height(),
                cx == px + k * dx,
                cy == py + k * dy,
                k > 0 ==> self.inside(px + (k - 1) * dx, py + (k - 1) * dy),
                forall|j: int|
                    0 <= j < k ==> self.char_ok(
                        px + j * dx,
                        py + j * dy,
                        #[trigger] word@[j],
                    ),
            decreases word@.len() - k,
        {
            let c = word[k];
            if !(0 <= cx && cx < w64 && 0 <= cy && cy < h64) {
                return false;
            }
            let existing = self.char_xy(cx, cy);
            if !(existing == c || existing == BLOCK) {
                return false;
            }
            cx = cx + dx;
            cy = cy + dy;
            k = k + 1;
        }
        proof {
            assert((word@.len() as int) * dx - dx == (word@.len() - 1) * dx && (word@.len()
                as int) * dy - dy == (word@.len() - 1) * dy) by (nonlinear_arith);
        }
        let r = self.border_xy(cx - dx, cy - dy, dir);
        r
    }
}

/// Distributing a multiplication over one step up or down.
proof fn lemma_mul_dist(k: int, d: int)
    ensures
        (k + 1) * d == k * d + d,
        (k - 1) * d == k * d - d,
{
    assert((k + 1) * d == k * d + d && (k - 1) * d == k * d - d) by (nonlinear_arith);
}

/// How a successful placement of `w` at `point` transforms a grid: the
/// letters stand along the run, the run's internal boundaries are gone,
/// everything else is untouched, and the word replaces whatever same-direction
/// words its run superseded.
pub open spec fn placed_grid(g0: Crosswords, g1: Crosswords, point: Point, dir: Dir, w: Seq<char>) -> bool {
    &&& g1.spec_width() == g0.spec_width()
    &&& g1.spec_height() == g0.spec_height()
    &&& (forall|a: int, b: int|
        #[trigger] g1.char_at(a, b) == if on_run(
            point.x as int,
            point.y as int,
            dir,
            w.len() as int,
            a,
            b,
        ) {
            w[run_offset(point.x as int, point.y as int, dir, a, b)]
        } else {
            g0.char_at(a, b)
        })
    &&& (forall|a: int, b: int, d: Dir|
        #[trigger] g1.border_at(a, b, d) == if d == dir && on_run(
            point.x as int,
            point.y as int,
            dir,
            w.len() - 1,
            a,
            b,
        ) {
            false
        } else {
            g0.border_at(a, b, d)
        })
    &&& g1.word_set() == g0.word_set().difference(
        g0.parallel_words(point.x as int, point.y as int, dir, w.len() as int),
    ).insert(w)
}

/// How removing the word through `point` transforms a grid, provided a word
/// of two or more letters runs there: boundaries return along the whole run,
/// cells that belong to no crossing word are emptied, and the word leaves the
/// registered set.
pub open spec fn popped_grid(g0: Crosswords, g1: Crosswords, point: Point, dir: Dir) -> bool {
    let w = g0.word_seq_at(point.x as int, point.y as int, dir);
    let sx = g0.run_start_x(point.x as int, point.y as int, dir);
    let sy = g0.run_start_y(point.x as int, point.y as int, dir);
    let n = w.len() as int;
    &&& g1.spec_width() == g0.spec_width()
    &&& g1.spec_height() == g0.spec_height()
    &&& (forall|a: int, b: int|
        #[trigger] g1.char_at(a, b) == if on_run(sx, sy, dir, n, a, b) && g0.both_borders_at(
            a,
            b,
            dir.spec_other(),
        ) {
            BLOCK
        } else {
            g0.char_at(a, b)
        })
    &&& (forall|a: int, b: int, d: Dir|
        #[trigger] g1.border_at(a, b, d) == if d == dir && on_run(sx, sy, dir, n, a, b) {
            true
        } else {
            g0.border_at(a, b, d)
        })
    &&& g1.word_set() == g0.word_set().remove(w)
}

impl Crosswords {
    /// Inserts the word at the given position if that is allowed; otherwise
    /// returns `false` and leaves the grid untouched. On success the word's
    /// letters are written along its run, the boundaries inside the run are
    /// cleared, any word that previously occupied part of the run in the same
    /// direction is deregistered, and the word itself is registered.
    pub fn try_word(&mut self, point: Point, dir: Dir, word: &Vec<char>) -> (ok: bool)
        requires
            old(self).wf(),
            forall|k: int| 0 <= k < word@.len() ==> (#[trigger] word@[k]) != BLOCK,
        ensures
            final(self).wf(),
            ok == old(self).allowed_spec(point, dir, word@),
            !ok ==> *final(self) == *old(self),
            final(self).spec_width() == old(self).spec_width(),
            final(self).spec_height() == old(self).spec_height(),
            ok ==> placed_grid(*old(self), *final(self), point, dir, word@),
            ok ==> final(self).spec_border_count() == old(self).spec_border_count() - old(
                self,
            ).run_true_borders(point.x as int, point.y as int, dir, word@.len() - 1),
    {
        let ghost g0 = *self;
        if !self.is_word_allowed(point, dir, word) {
            return false;
        }
        let len = word.len();
        let px = point.x as i64;
        let py = point.y as i64;
        let dv = dir.point();
        let dx = dv.x as i64;
        let dy = dv.y as i64;
        proof {
            assert(g0.char_ok(px + 0 * dx, py + 0 * dy, word@[0]));
            assert(g0.char_ok(
                px + (len - 1) * dx,
                py + (len - 1) * dy,
                word@[len - 1],
            ));
            assert(len <= 0x4000_0000) by {
                match dir {
                    Dir::Right => {
                        assert(px + (len - 1) * 1 < 0x4000_0000);
                    },
                    Dir::Down => {
                        assert(py + (len - 1) * 1 < 0x4000_0000);
                    },
                }
            }
        }
        // Find every word that occupies part of the run in this direction,
        // before anything is modified.
        let mut doomed: Vec<Vec<char>> = Vec::new();
        let mut cx = px;
        let mut cy = py;
        let mut k: usize = 0;
        while k < len
            invariant
                *self == g0,
                g0.wf(),
                g0.allowed_spec(point, dir, word@),
                len == word@.len(),
                2 <= len <= 0x4000_0000,
                px == point.x as int && py == point.y as int,
                dx == dir.dx() && dy == dir.dy(),
                k <= len,
                doomed@.len() == k,
                cx == px + k * dx,
                cy == py + k * dy,
                0 <= px < 0x4000_0000 && 0 <= py < 0x4000_0000,
                forall|j: int|
                    0 <= j < k ==> #[trigger] doomed.deep_view()[j] == g0.word_seq_at(
                        px + j * dir.dx(),
                        py + j * dir.dy(),
                        dir,
                    ),
            decreases len - k,
        {
            proof {
                assert(g0.char_ok(px + k * dx, py + k * dy, word@[k as int]));
            }
            let q = Point { x: cx as i32, y: cy as i32 };
            let w_here = self.word_at(q, dir);
            let ghost doomed_before = doomed.deep_view();
            doomed.push(w_here);
            proof {
                assert(w_here.deep_view() =~= w_here@);
                assert(doomed.deep_view() =~~= doomed_before.push(w_here@));
                lemma_mul_dist(k as int, dx as int);
                lemma_mul_dist(k as int, dy as int);
            }
            cx = cx + dx;
            cy = cy + dy;
            k = k + 1;
        }
        let ghost dseq = doomed.deep_view();
        // Deregister them.
        let mut k: usize = 0;
        while k < len
            invariant
                self.wf_dims(),
                self.wf_words(),
                g0.wf(),
                len == word@.len(),
                k <= len,
                doomed@.len() == len,
                dseq == doomed.deep_view(),
                self.spec_width() == g0.spec_width(),
                self.spec_height() == g0.spec_height(),
                forall|a: int, b: int| #[trigger] self.char_at(a, b) == g0.char_at(a, b),
                forall|a: int, b: int, d: Dir|
                    #[trigger] self.border_at(a, b, d) == g0.border_at(a, b, d),
                self.spec_border_count() == g0.spec_border_count(),
                self.word_set() == g0.word_set().difference(dseq.take(k as int).to_set()),
            decreases len - k,
        {
            let ghost set_before = self.word_set();
            self.remove_word_value(&doomed[k]);
            proof {
                assert(doomed@[k as int].deep_view() =~= doomed@[k as int]@);
                assert(dseq.take(k + 1) =~= dseq.take(k as int).push(dseq[k as int]));
                lemma_push_contains(dseq.take(k as int), dseq[k as int]);
                assert(self.word_set() =~= g0.word_set().difference(
                    dseq.take(k + 1).to_set(),
                ));
            }
            k = k + 1;
        }
        proof {
            assert(dseq.take(len as int) =~= dseq);
        }
        let ghost g2 = *self;
        // Write the word's letters along the run.
        let mut cx = px;
        let mut cy = py;
        let mut k: usize = 0;
        while k < len
            invariant
                self.wf_dims(),
                g0.wf(),
                g0.allowed_spec(point, dir, word@),
                len == word@.len(),
                2 <= len <= 0x4000_0000,
                px == point.x as int && py == point.y as int,
                dx == dir.dx() && dy == dir.dy(),
                k <= len,
                cx == px + k * dx,
                cy == py + k * dy,
                0 <= px < 0x4000_0000 && 0 <= py < 0x4000_0000,
                self.spec_width() == g0.spec_width(),
                self.spec_height() == g0.spec_height(),
                self.word_seqs() == g2.word_seqs(),
                self.spec_border_count() == g0.spec_border_count(),
                forall|a: int, b: int, d: Dir|
                    #[trigger] self.border_at(a, b, d) == g0.border_at(a, b, d),
                forall|a: int, b: int|
                    #[trigger] self.char_at(a, b) == if on_run(px as int, py as int, dir, k as int, a, b) {
                        word@[run_offset(px as int, py as int, dir, a, b)]
                    } else {
                        g0.char_at(a, b)
                    },
            decreases len - k,
        {
            proof {
                assert(g0.char_ok(px + k * dx, py + k * dy, word@[k as int]));
            }
            let ghost before = *self;
            self.put_char_xy(cx, cy, word[k]);
            proof {
                lemma_mul_dist(k as int, dx as int);
                lemma_mul_dist(k as int, dy as int);
                assert forall|a: int, b: int| #[trigger]
                    self.char_at(a, b) == if on_run(px as int, py as int, dir, k + 1, a, b) {
                        word@[run_offset(px as int, py as int, dir, a, b)]
                    } else {
                        g0.char_at(a, b)
                    } by {
                    assert(self.char_at(a, b) == if a == cx as int && b == cy as int {
                        word@[k as int]
                    } else {
                        before.char_at(a, b)
                    });
                }
            }
            cx = cx + dx;
            cy = cy + dy;
            k = k + 1;
        }
        let ghost g3 = *self;
        // Clear the boundaries inside the run.
        let mut cx = px;
        let mut cy = py;
        let mut k: usize = 0;
        while k < len - 1
            invariant
                self.wf_dims(),
                g0.wf(),
                g0.allowed_spec(point, dir, word@),
                len == word@.len(),
                2 <= len <= 0x4000_0000,
                px == point.x as int && py == point.y as int,
                dx == dir.dx() && dy == dir.dy(),
                k <= len - 1,
                cx == px + k * dx,
                cy == py + k * dy,
                0 <= px < 0x4000_0000 && 0 <= py < 0x4000_0000,
                self.spec_width() == g0.spec_width(),
                self.spec_height() == g0.spec_height(),
                self.word_seqs() == g2.word_seqs(),
                g3.spec_border_count() == g0.spec_border_count(),
                self.spec_border_count() == g0.spec_border_count() - g0.run_true_borders(
                    px as int,
                    py as int,
                    dir,
                    k as int,
                ),
                forall|a: int, b: int| #[trigger] self.char_at(a, b) == g3.char_at(a, b),
                forall|a: int, b: int, d: Dir|
                    #[trigger] self.border_at(a, b, d) == if d == dir && on_run(
                        px as int,
                        py as int,
                        dir,
                        k as int,
                        a,
                        b,
                    ) {
                        false
                    } else {
                        g0.border_at(a, b, d)
                    },
            decreases len - k,
        {
            proof {
                assert(g0.char_ok(px + k * dx, py + k * dy, word@[k as int]));
                lemma_mul_dist(k as int, dx as int);
                lemma_mul_dist(k as int, dy as int);
                assert(g0.char_ok(px + (k + 1) * dx, py + (k + 1) * dy, word@[k + 1]));
            }
            self.set_border_xy(cx, cy, dir, false);
            cx = cx + dx;
            cy = cy + dy;
            k = k + 1;
        }
        // Register the word.
        let ghost g4 = *self;
        let ghost before_push = self.word_seqs();
        let word_copy = word.clone();
        proof {
            assert(word_copy@ =~= word@);
        }
        self.words.push(word_copy);
        proof {
            let fin = *self;
            let pxi = px as int;
            let pyi = py as int;
            let leni = len as int;
            assert(fin.word_seqs() =~~= before_push.push(word@));
            assert(fin.word_seqs() == before_push.push(word@));
            assert forall|a: int, b: int| #[trigger] fin.char_at(a, b) == g4.char_at(a, b) by {}
            assert forall|a: int, b: int, d: Dir| #[trigger]
                fin.border_at(a, b, d) == g4.border_at(a, b, d) by {}
            assert(fin.spec_width() == g4.spec_width() && fin.spec_height() == g4.spec_height());
            lemma_push_contains(before_push, word@);
            assert forall|s: Seq<char>| #[trigger]
                fin.word_set().contains(s) <==> before_push.to_set().insert(word@).contains(
                    s,
                ) by {
                assert(fin.word_seqs().contains(s) <==> (before_push.contains(s) || s
                    == word@));
            }
            assert(fin.word_set() =~= before_push.to_set().insert(word@));
            // The registered word was not present before the push.
            assert(!g2.word_set().contains(word@));
            assert(forall|i: int|
                0 <= i < before_push.len() ==> (#[trigger] before_push[i]) != word@);
            // The word list still holds genuine, distinct words.
            assert(fin.wf_words()) by {
                assert(forall|i: int|
                    0 <= i < before_push.len() ==> (#[trigger] fin.word_seqs()[i])
                        == before_push[i]);
                assert(fin.word_seqs()[before_push.len() as int] == word@);
            }
            // The deregistered words are exactly those running through the
            // occupied cells in the placement's own direction.
            assert(dseq.to_set().contains(word@) ==> g0.word_set().contains(word@) || true);
            assert forall|s: Seq<char>|
                g0.word_set().contains(s) implies (dseq.to_set().contains(s) <==> g0.parallel_words(
                pxi,
                pyi,
                dir,
                leni,
            ).contains(s)) by {
                let i0 = choose|i: int| 0 <= i < g0.word_seqs().len() && g0.word_seqs()[i] == s;
                assert(s.len() >= 2);
                if dseq.to_set().contains(s) {
                    let j = choose|j: int| 0 <= j < dseq.len() && dseq[j] == s;
                    assert(dseq[j] == g0.word_seq_at(pxi + j * dir.dx(), pyi + j * dir.dy(), dir));
                    let a = pxi + j * dir.dx();
                    let b = pyi + j * dir.dy();
                    match dir {
                        Dir::Right => {
                            assert(on_run(pxi, pyi, dir, leni, a, b));
                        },
                        Dir::Down => {
                            assert(on_run(pxi, pyi, dir, leni, a, b));
                        },
                    }
                    assert(g0.word_seq_at(a, b, dir) == s);
                }
                if g0.parallel_words(pxi, pyi, dir, leni).contains(s) {
                    let (a, b) = choose|a: int, b: int|
                        #![trigger g0.word_seq_at(a, b, dir)]
                        on_run(pxi, pyi, dir, leni, a, b) && s == g0.word_seq_at(a, b, dir)
                            && s.len() >= 2;
                    let j = run_offset(pxi, pyi, dir, a, b);
                    match dir {
                        Dir::Right => {
                            assert(a == pxi + j * dir.dx() && b == pyi + j * dir.dy());
                        },
                        Dir::Down => {
                            assert(a == pxi + j * dir.dx() && b == pyi + j * dir.dy());
                        },
                    }
                    assert(dseq[j] == s);
                    assert(dseq.contains(s));
                }
            }
            assert(fin.word_set() =~= g0.word_set().difference(
                g0.parallel_words(pxi, pyi, dir, leni),
            ).insert(word@));
            // Every cleared boundary lies between two letters of the word.
            assert(fin.blocks_bordered()) by {
                assert forall|x: int, y: int, d: Dir| !(#[trigger] fin.border_at(x, y, d)) implies
                    fin.char_at(x, y) != BLOCK && fin.char_at(x + d.dx(), y + d.dy())
                    != BLOCK by {
                    if d == dir && on_run(pxi, pyi, dir, leni - 1, x, y) {
                        assert(on_run(pxi, pyi, dir, leni, x, y));
                        assert(on_run(pxi, pyi, dir, leni, x + d.dx(), y + d.dy()));
                        assert(word@[run_offset(pxi, pyi, dir, x, y)] != BLOCK);
                        assert(word@[run_offset(pxi, pyi, dir, x + d.dx(), y + d.dy())]
                            != BLOCK);
                    } else {
                        assert(!g0.border_at(x, y, d));
                        assert(g0.char_at(x, y) != BLOCK && g0.char_at(
                            x + d.dx(),
                            y + d.dy(),
                        ) != BLOCK);
                        if on_run(pxi, pyi, dir, leni, x, y) {
                            assert(word@[run_offset(pxi, pyi, dir, x, y)] != BLOCK);
                        }
                        if on_run(pxi, pyi, dir, leni, x + d.dx(), y + d.dy()) {
                            assert(word@[run_offset(pxi, pyi, dir, x + d.dx(), y + d.dy())]
                                != BLOCK);
                        }
                    }
                }
            }
            // Every letter still belongs to a word.
            assert(fin.letters_linked()) by {
                assert forall|x: int, y: int|
                    fin.inside(x, y) && #[trigger] fin.char_at(x, y) != BLOCK implies (
                !fin.both_borders_at(x, y, Dir::Right) || !fin.both_borders_at(
                    x,
                    y,
                    Dir::Down,
                )) by {
                    if on_run(pxi, pyi, dir, leni, x, y) {
                        let j = run_offset(pxi, pyi, dir, x, y);
                        if j < leni - 1 {
                            assert(on_run(pxi, pyi, dir, leni - 1, x, y));
                            assert(!fin.border_at(x, y, dir));
                        } else {
                            assert(on_run(pxi, pyi, dir, leni - 1, x - dir.dx(), y - dir.dy()));
                            assert(!fin.border_at(x - dir.dx(), y - dir.dy(), dir));
                        }
                        assert(!fin.both_borders_at(x, y, dir));
                    } else {
                        assert(fin.char_at(x, y) == g0.char_at(x, y));
                        assert(!g0.both_borders_at(x, y, Dir::Right) || !g0.both_borders_at(
                            x,
                            y,
                            Dir::Down,
                        ));
                    }
                }
            }
        }
        true
    }
}

impl Crosswords {
    /// Removes and returns the word through the given position. If no word of
    /// two or more letters runs through it, nothing changes and the result is
    /// empty. Boundaries are restored along the word's run, each cell that
    /// does not also belong to a crossing word is emptied, and the word is
    /// deregistered.
    pub fn pop_word(&mut self, point: Point, dir: Dir) -> (r: Vec<char>)
        requires
            old(self).wf(),
        ensures
            final(self).wf(),
            final(self).spec_width() == old(self).spec_width(),
            final(self).spec_height() == old(self).spec_height(),
            old(self).word_seq_at(point.x as int, point.y as int, dir).len() <= 1 ==> (*final(self)
                == *old(self) && r@ == Seq::<char>::empty()),
            old(self).word_seq_at(point.x as int, point.y as int, dir).len() >= 2 ==> (r@ == old(
                self,
            ).word_seq_at(point.x as int, point.y as int, dir) && popped_grid(
                *old(self),
                *final(self),
                point,
                dir,
            )),
    {
        let ghost g0 = *self;
        let ghost pxi = point.x as int;
        let ghost pyi = point.y as int;
        let w = self.word_at(point, dir);
        if w.len() <= 1 {
            return Vec::new();
        }
        let range = self.get_word_range_containing(point, dir);
        let odir = dir.other();
        let dv = dir.point();
        let dx = dv.x as i64;
        let dy = dv.y as i64;
        let sx = range.point.x as i64;
        let sy = range.point.y as i64;
        let n = range.len;
        let ghost sxi = sx as int;
        let ghost syi = sy as int;
        let ghost ni = n as int;
        proof {
            lemma_back_props(g0, pxi, pyi, dir);
            lemma_fwd_props(g0, sxi, syi, dir);
            lemma_back_bound(g0, pxi, pyi, dir);
            lemma_fwd_bound(g0, sxi, syi, dir);
            assert(g0.border_at(sxi + (ni - 1) * dir.dx(), syi + (ni - 1) * dir.dy(), dir));
            // No boundary stands inside the run.
            assert forall|a: int, b: int| on_run(sxi, syi, dir, ni - 1, a, b) implies !(
            #[trigger] g0.border_at(a, b, dir)) by {
                match dir {
                    Dir::Right => {
                        if a < pxi {
                            assert(on_run(sxi, syi, dir, g0.back_len(pxi, pyi, dir) as int, a, b));
                        } else {
                            assert(on_run(pxi, pyi, dir, g0.fwd_len(pxi, pyi, dir) - 1, a, b));
                        }
                    },
                    Dir::Down => {
                        if b < pyi {
                            assert(on_run(sxi, syi, dir, g0.back_len(pxi, pyi, dir) as int, a, b));
                        } else {
                            assert(on_run(pxi, pyi, dir, g0.fwd_len(pxi, pyi, dir) - 1, a, b));
                        }
                    },
                }
            }
            // Every cell of the run lies inside the grid.
            assert forall|a: int, b: int| on_run(sxi, syi, dir, ni, a, b) implies #[trigger]
                g0.inside(a, b) by {
                match dir {
                    Dir::Right => {
                        if a < sxi + ni - 1 {
                            assert(!g0.border_at(a, b, dir));
                        } else {
                            assert(!g0.border_at(a - 1, b, dir));
                        }
                    },
                    Dir::Down => {
                        if b < syi + ni - 1 {
                            assert(!g0.border_at(a, b, dir));
                        } else {
                            assert(!g0.border_at(a, b - 1, dir));
                        }
                    },
                }
            }
        }
        let mut cx = sx;
        let mut cy = sy;
        let mut k: usize = 0;
        while k < n
            invariant
                self.wf_dims(),
                g0.wf(),
                g0.word_seq_at(pxi, pyi, dir).len() == ni,
                2 <= ni <= 0x4000_0000,
                sxi == g0.run_start_x(pxi, pyi, dir),
                syi == g0.run_start_y(pxi, pyi, dir),
                sx == sxi && sy == syi,
                dx == dir.dx() && dy == dir.dy(),
                odir == dir.spec_other(),
                k <= n,
                n == ni,
                cx == sx + k * dx,
                cy == sy + k * dy,
                0 <= sxi < 0x4000_0000 && 0 <= syi < 0x4000_0000,
                forall|a: int, b: int|
                    on_run(sxi, syi, dir, ni, a, b) ==> #[trigger] g0.inside(a, b),
                self.spec_width() == g0.spec_width(),
                self.spec_height() == g0.spec_height(),
                self.word_seqs() == g0.word_seqs(),
                forall|a: int, b: int|
                    on_run(sxi, syi, dir, ni - 1, a, b) ==> !(#[trigger] g0.border_at(a, b, dir)),
                g0.border_at(sxi + (ni - 1) * dir.dx(), syi + (ni - 1) * dir.dy(), dir),
                self.spec_border_count() == g0.spec_border_count() + (if k as int <= ni - 1 {
                    k as int
                } else {
                    ni - 1
                }),
                forall|a: int, b: int, d: Dir|
                    #[trigger] self.border_at(a, b, d) == if d == dir && on_run(
                        sxi,
                        syi,
                        dir,
                        k as int,
                        a,
                        b,
                    ) {
                        true
                    } else {
                        g0.border_at(a, b, d)
                    },
                forall|a: int, b: int|
                    #[trigger] self.char_at(a, b) == if on_run(sxi, syi, dir, k as int, a, b)
                        && g0.both_borders_at(a, b, dir.spec_other()) {
                        BLOCK
                    } else {
                        g0.char_at(a, b)
                    },
            decreases n - k,
        {
            proof {
                assert(on_run(sxi, syi, dir, ni, cx as int, cy as int)) by {
                    match dir {
                        Dir::Right => {
                        },
                        Dir::Down => {
                        },
                    }
                }
                assert(g0.inside(cx as int, cy as int));
                lemma_mul_dist(k as int, dx as int);
                lemma_mul_dist(k as int, dy as int);
                if (k as int) < ni - 1 {
                    assert(on_run(sxi, syi, dir, ni - 1, cx as int, cy as int)) by {
                        match dir {
                            Dir::Right => {
                            },
                            Dir::Down => {
                            },
                        }
                    }
                    assert(!g0.border_at(cx as int, cy as int, dir));
                    assert(g0.in_border_range(cx as int, cy as int, dir));
                } else {
                    assert(cx as int == sxi + (ni - 1) * dir.dx() && cy as int == syi + (ni - 1)
                        * dir.dy()) by {
                        match dir {
                            Dir::Right => {
                            },
                            Dir::Down => {
                            },
                        }
                    }
                    assert(g0.border_at(cx as int, cy as int, dir));
                }
            }
            self.set_border_xy(cx, cy, dir, true);
            if self.both_borders(Point { x: cx as i32, y: cy as i32 }, odir) {
                self.put_char_xy(cx, cy, BLOCK);
            }
            cx = cx + dx;
            cy = cy + dy;
            k = k + 1;
        }
        proof {
            assert(self.wf_words()) by {
                assert(forall|i: int|
                    0 <= i < self.word_seqs().len() ==> #[trigger] self.word_seqs()[i]
                        == g0.word_seqs()[i]);
            }
        }
        let ghost g5 = *self;
        self.remove_word_value(&w);
        proof {
            let fin = *self;
            assert(fin.word_set() =~= g0.word_set().remove(w@));
            // Boundaries missing after the removal were missing before, and
            // never border the removed run.
            assert(fin.blocks_bordered()) by {
                assert forall|x: int, y: int, d: Dir| !(#[trigger] fin.border_at(x, y, d)) implies
                    fin.char_at(x, y) != BLOCK && fin.char_at(x + d.dx(), y + d.dy())
                    != BLOCK by {
                    assert(!g0.border_at(x, y, d));
                    if d == dir {
                        assert(!on_run(sxi, syi, dir, ni, x, y));
                        if on_run(sxi, syi, dir, ni, x + d.dx(), y + d.dy()) {
                            // Then (x, y) sits directly before the run's
                            // first cell, where a boundary stands.
                            assert(x == sxi - dir.dx() && y == syi - dir.dy());
                            assert(g0.border_at(x, y, dir));
                        }
                        assert(fin.char_at(x, y) == g0.char_at(x, y));
                        assert(fin.char_at(x + d.dx(), y + d.dy()) == g0.char_at(
                            x + d.dx(),
                            y + d.dy(),
                        ));
                    } else {
                        if on_run(sxi, syi, dir, ni, x, y) && g0.both_borders_at(x, y, d) {
                            assert(false);
                        }
                        if on_run(sxi, syi, dir, ni, x + d.dx(), y + d.dy())
                            && g0.both_borders_at(x + d.dx(), y + d.dy(), d) {
                            assert(false);
                        }
                    }
                }
            }
            assert(fin.letters_linked()) by {
                assert forall|x: int, y: int|
                    fin.inside(x, y) && #[trigger] fin.char_at(x, y) != BLOCK implies (
                !fin.both_borders_at(x, y, Dir::Right) || !fin.both_borders_at(
                    x,
                    y,
                    Dir::Down,
                )) by {
                    if on_run(sxi, syi, dir, ni, x, y) {
                        assert(!g0.both_borders_at(x, y, dir.spec_other()));
                        assert(!fin.both_borders_at(x, y, dir.spec_other()));
                    } else {
                        assert(fin.char_at(x, y) == g0.char_at(x, y));
                        if !g0.both_borders_at(x, y, Dir::Right) {
                            assert(!fin.both_borders_at(x, y, Dir::Right)) by {
                                if dir == Dir::Right {
                                    if on_run(sxi, syi, dir, ni, x - 1, y) && !g0.border_at(
                                        x - 1,
                                        y,
                                        dir,
                                    ) {
                                        assert(on_run(sxi, syi, dir, ni - 1, x - 1, y));
                                        assert(false);
                                    }
                                }
                            }
                        } else {
                            assert(!g0.both_borders_at(x, y, Dir::Down));
                            assert(!fin.both_borders_at(x, y, Dir::Down)) by {
                                if dir == Dir::Down {
                                    if on_run(sxi, syi, dir, ni, x, y - 1) && !g0.border_at(
                                        x,
                                        y - 1,
                                        dir,
                                    ) {
                                        assert(on_run(sxi, syi, dir, ni - 1, x, y - 1));
                                        assert(false);
                                    }
                                }
                            }
                        }
                    }
                }
            }
        }
        w
    }
}

/// In a grid whose boundaries frame a run of `n` cells starting at
/// `(sx, sy)` — a boundary before the first cell and none inside the first
/// `j` steps — the backward extent at step `j` is exactly `j`.
pub proof fn lemma_back_at(g: Crosswords, sx: int, sy: int, dir: Dir, j: int)
    requires
        0 <= j,
        g.border_at(sx - dir.dx(), sy - dir.dy(), dir),
        forall|a: int, b: int| on_run(sx, sy, dir, j, a, b) ==> !(#[trigger] g.border_at(a, b, dir)),
    ensures
        g.back_len(sx + j * dir.dx(), sy + j * dir.dy(), dir) == j,
    decreases j,
{
    if j == 0 {
        assert(g.back_len(sx, sy, dir) == 0);
    } else {
        assert forall|a: int, b: int| on_run(sx, sy, dir, j - 1, a, b) implies !(
        #[trigger] g.border_at(a, b, dir)) by {
            assert(on_run(sx, sy, dir, j, a, b));
        }
        lemma_back_at(g, sx, sy, dir, j - 1);
        lemma_mul_dist(j, dir.dx());
        lemma_mul_dist(j, dir.dy());
        assert(!g.border_at(sx + (j - 1) * dir.dx(), sy + (j - 1) * dir.dy(), dir)) by {
            assert(on_run(sx, sy, dir, j, sx + (j - 1) * dir.dx(), sy + (j - 1) * dir.dy())) by {
                match dir {
                    Dir::Right => {
                    },
                    Dir::Down => {
                    },
                }
            }
        }
    }
}

/// In a grid whose boundaries frame a run of `n` cells starting at
/// `(sx, sy)` — none inside the run and one after its last cell — the forward
/// extent at step `j` is exactly `n - j`.
pub proof fn lemma_fwd_at(g: Crosswords, sx: int, sy: int, dir: Dir, n: int, j: int)
    requires
        0 <= j < n,
        forall|a: int, b: int|
            on_run(sx, sy, dir, n - 1, a, b) ==> !(#[trigger] g.border_at(a, b, dir)),
        g.border_at(sx + (n - 1) * dir.dx(), sy + (n - 1) * dir.dy(), dir),
    ensures
        g.fwd_len(sx + j * dir.dx(), sy + j * dir.dy(), dir) == n - j,
    decreases n - j,
{
    lemma_mul_dist(j, dir.dx());
    lemma_mul_dist(j, dir.dy());
    if j == n - 1 {
        assert(g.fwd_len(sx + j * dir.dx(), sy + j * dir.dy(), dir) == 1);
    } else {
        lemma_fwd_at(g, sx, sy, dir, n, j + 1);
        assert(!g.border_at(sx + j * dir.dx(), sy + j * dir.dy(), dir)) by {
            assert(on_run(sx, sy, dir, n - 1, sx + j * dir.dx(), sy + j * dir.dy())) by {
                match dir {
                    Dir::Right => {
                    },
                    Dir::Down => {
                    },
                }
            }
        }
    }
}

/// After a successful placement, the placed word can be read back at its
/// position and is one of the grid's registered words: the placement's run is
/// a maximal boundary-free run holding exactly the word's letters.
pub proof fn lemma_placed_word_readable(
    g0: Crosswords,
    g1: Crosswords,
    point: Point,
    dir: Dir,
    w: Seq<char>,
)
    requires
        g0.wf(),
        forall|k: int| 0 <= k < w.len() ==> (#[trigger] w[k]) != BLOCK,
        g0.allowed_spec(point, dir, w),
        placed_grid(g0, g1, point, dir, w),
    ensures
        g1.word_seq_at(point.x as int, point.y as int, dir) == w,
        g1.word_set().contains(w),
{
    let px = point.x as int;
    let py = point.y as int;
    let n = w.len() as int;
    assert(g0.char_ok(px + 0 * dir.dx(), py + 0 * dir.dy(), w[0]));
    assert(g1.border_at(px - dir.dx(), py - dir.dy(), dir)) by {
        assert(!on_run(px, py, dir, n - 1, px - dir.dx(), py - dir.dy())) by {
            match dir {
                Dir::Right => {
                },
                Dir::Down => {
                },
            }
        }
    }
    assert(g1.border_at(px + (n - 1) * dir.dx(), py + (n - 1) * dir.dy(), dir)) by {
        assert(!on_run(px, py, dir, n - 1, px + (n - 1) * dir.dx(), py + (n - 1) * dir.dy())) by {
            match dir {
                Dir::Right => {
                },
                Dir::Down => {
                },
            }
        }
    }
    assert forall|a: int, b: int| on_run(px, py, dir, n - 1, a, b) implies !(#[trigger] g1.border_at(
        a,
        b,
        dir,
    )) by {}
    lemma_back_at(g1, px, py, dir, 0);
    lemma_fwd_at(g1, px, py, dir, n, 0);
    assert(g1.char_at(px, py) == w[run_offset(px, py, dir, px, py)]) by {
        assert(on_run(px, py, dir, n, px, py)) by {
            match dir {
                Dir::Right => {
                },
                Dir::Down => {
                },
            }
        }
    }
    assert(g1.back_len(px, py, dir) == 0) by {
        assert(px + 0 * dir.dx() == px && py + 0 * dir.dy() == py);
    }
    assert(g1.fwd_len(px, py, dir) == n) by {
        assert(px + 0 * dir.dx() == px && py + 0 * dir.dy() == py);
    }
    assert(g1.run_len(px, py, dir) == n);
    assert(g1.inside(px, py) && g1.char_at(px, py) != BLOCK);
    assert(g1.word_seq_at(px, py, dir) =~= w) by {
        assert(g1.run_start_x(px, py, dir) == px && g1.run_start_y(px, py, dir) == py);
        assert forall|k: int| 0 <= k < n implies g1.char_at(
            px + k * dir.dx(),
            py + k * dir.dy(),
        ) == w[k] by {
            assert(on_run(px, py, dir, n, px + k * dir.dx(), py + k * dir.dy())
                && run_offset(px, py, dir, px + k * dir.dx(), py + k * dir.dy()) == k) by {
                match dir {
                    Dir::Right => {
                    },
                    Dir::Down => {
                    },
                }
            }
        }
    }
    assert(g1.word_set().contains(w));
}

/// Placing a word and then removing it restores the grid, provided the
/// placement superseded no existing word: every cell, every boundary and the
/// set of registered words end as they began.
#[verifier::spinoff_prover]
#[verifier::rlimit(60)]
pub proof fn lemma_place_then_remove(
    g0: Crosswords,
    g1: Crosswords,
    g2: Crosswords,
    point: Point,
    dir: Dir,
    w: Seq<char>,
)
    requires
        g0.wf(),
        forall|k: int| 0 <= k < w.len() ==> (#[trigger] w[k]) != BLOCK,
        g0.allowed_spec(point, dir, w),
        placed_grid(g0, g1, point, dir, w),
        forall|a: int, b: int|
            on_run(point.x as int, point.y as int, dir, w.len() as int, a, b) ==> (
            #[trigger] g0.word_seq_at(a, b, dir)).len() <= 1,
        popped_grid(g1, g2, point, dir),
    ensures
        g2.spec_width() == g0.spec_width(),
        g2.spec_height() == g0.spec_height(),
        forall|a: int, b: int| #[trigger] g2.char_at(a, b) == g0.char_at(a, b),
        forall|a: int, b: int, d: Dir| #[trigger] g2.border_at(a, b, d) == g0.border_at(a, b, d),
        g2.word_set() == g0.word_set(),
{
    let px = point.x as int;
    let py = point.y as int;
    let n = w.len() as int;
    let odir = dir.spec_other();
    lemma_placed_word_readable(g0, g1, point, dir, w);
    assert(g1.run_start_x(px, py, dir) == px && g1.run_start_y(px, py, dir) == py);
    // No boundary inside the run was missing before the placement.
    assert forall|a: int, b: int| on_run(px, py, dir, n - 1, a, b) implies #[trigger] g0.border_at(
        a,
        b,
        dir,
    ) by {
        if !g0.border_at(a, b, dir) {
            assert(g0.char_at(a, b) != BLOCK);
            assert(on_run(px, py, dir, n, a, b)) by {
                match dir {
                    Dir::Right => {
                    },
                    Dir::Down => {
                    },
                }
            }
            assert(g0.inside(a, b)) by {
                assert(g0.char_at(a, b) != BLOCK);
            }
            assert(g0.word_seq_at(a, b, dir).len() <= 1);
            assert(g0.run_len(a, b, dir) <= 1);
            lemma_fwd_props(g0, a + dir.dx(), b + dir.dy(), dir);
            assert(g0.fwd_len(a, b, dir) >= 2);
            lemma_back_bound(g0, a, b, dir);
        }
    }
    // Boundaries are restored exactly.
    assert forall|a: int, b: int, d: Dir| #[trigger]
        g2.border_at(a, b, d) == g0.border_at(a, b, d) by {
        assert(g2.border_at(a, b, d) == if d == dir && on_run(px, py, dir, n, a, b) {
            true
        } else {
            g1.border_at(a, b, d)
        });
        assert(g1.border_at(a, b, d) == if d == dir && on_run(px, py, dir, n - 1, a, b) {
            false
        } else {
            g0.border_at(a, b, d)
        });
        if d == dir && on_run(px, py, dir, n, a, b) {
            if on_run(px, py, dir, n - 1, a, b) {
                assert(g0.border_at(a, b, dir));
            } else {
                match dir {
                    Dir::Right => {
                        assert(a == px + (n - 1) * 1 && b == py);
                        assert(g0.border_at(px + (n - 1) * dir.dx(), py + (n - 1) * dir.dy(), dir));
                    },
                    Dir::Down => {
                        assert(a == px && b == py + (n - 1) * 1);
                        assert(g0.border_at(px + (n - 1) * dir.dx(), py + (n - 1) * dir.dy(), dir));
                    },
                }
            }
        }
    }
    // Letters return to what they were: a crossing word kept its letters, and
    // a cell that held no crossing word was empty before.
    assert forall|a: int, b: int| #[trigger] g2.char_at(a, b) == g0.char_at(a, b) by {
        if on_run(px, py, dir, n, a, b) {
            let k = run_offset(px, py, dir, a, b);
            assert(g0.char_ok(px + k * dir.dx(), py + k * dir.dy(), w[k]));
            assert(a == px + k * dir.dx() && b == py + k * dir.dy()) by {
                match dir {
                    Dir::Right => {
                    },
                    Dir::Down => {
                    },
                }
            }
            assert(g1.both_borders_at(a, b, odir) == g0.both_borders_at(a, b, odir));
            if g0.char_at(a, b) == BLOCK {
                assert(g0.border_at(a, b, odir) && g0.border_at(
                    a - odir.dx(),
                    b - odir.dy(),
                    odir,
                )) by {
                    if !g0.border_at(a - odir.dx(), b - odir.dy(), odir) {
                        assert(g0.char_at(a - odir.dx() + odir.dx(), b - odir.dy() + odir.dy())
                            != BLOCK);
                    }
                }
                assert(g2.char_at(a, b) == BLOCK);
            } else {
                assert(g0.word_seq_at(a, b, dir).len() <= 1);
                assert(g0.inside(a, b));
                assert(g0.run_len(a, b, dir) <= 1);
                assert(!g0.both_borders_at(a, b, odir)) by {
                    if g0.both_borders_at(a, b, dir.spec_other()) {
                        assert(g0.fwd_len(a, b, dir) >= 2 || g0.back_len(a, b, dir) >= 1) by {
                            if g0.border_at(a, b, dir) && g0.border_at(
                                a - dir.dx(),
                                b - dir.dy(),
                                dir,
                            ) {
                                assert(g0.both_borders_at(a, b, dir));
                                assert(!g0.both_borders_at(a, b, Dir::Right)
                                    || !g0.both_borders_at(a, b, Dir::Down));
                                assert(false);
                            }
                        }
                    }
                }
                assert(g2.char_at(a, b) == g1.char_at(a, b));
                assert(g1.char_at(a, b) == w[k]);
                assert(w[k] == g0.char_at(a, b));
            }
        }
    }
    // The registered words are restored: nothing was superseded, so only the
    // word itself came and went.
    assert(g0.parallel_words(px, py, dir, n) =~= Set::<Seq<char>>::empty()) by {
        assert forall|s: Seq<char>| !(#[trigger] g0.parallel_words(px, py, dir, n).contains(s))
            by {
            if g0.parallel_words(px, py, dir, n).contains(s) {
                let (a, b) = choose|a: int, b: int|
                    #![trigger g0.word_seq_at(a, b, dir)]
                    on_run(px, py, dir, n, a, b) && s == g0.word_seq_at(a, b, dir) && s.len() >= 2;
                assert(g0.word_seq_at(a, b, dir).len() <= 1);
            }
        }
    }
    assert(g1.word_seq_at(px, py, dir) == w);
    assert(g2.word_set() =~= g0.word_set()) by {
        assert(g1.word_set() == g0.word_set().difference(Set::<Seq<char>>::empty()).insert(w));
        assert(g0.word_set().difference(Set::<Seq<char>>::empty()) =~= g0.word_set());
        assert(!g0.word_set().contains(w));
    }
}

impl Crosswords {
    /// How far a free run extends forward from `(x, y)`: the number of
    /// consecutive in-grid cells from there on that all have a boundary in
    /// direction `dir`.
    pub open spec fn free_fwd_len(self, x: int, y: int, dir: Dir) -> nat
        decreases (if dir == Dir::Right { self.spec_width() - x } else { self.spec_height() - y }),
    {
        if self.inside(x, y) && self.border_at(x, y, dir) {
            (self.free_fwd_len(x + dir.dx(), y + dir.dy(), dir) + 1) as nat
        } else {
            0
        }
    }

    /// How far a free run extends backward from `(x, y)`: how many steps the
    /// cell before is still inside the grid with the cell two before it
    /// bounded in direction `dir`.
    pub open spec fn free_back_len(self, x: int, y: int, dir: Dir) -> nat
        decreases (if dir == Dir::Right { x } else { y }),
    {
        if self.inside(x - dir.dx(), y - dir.dy()) && self.border_at(
            x - 2 * dir.dx(),
            y - 2 * dir.dy(),
            dir,
        ) {
            (self.free_back_len(x - dir.dx(), y - dir.dy(), dir) + 1) as nat
        } else {
            0
        }
    }

    /// The length of the free range that starts exactly at `(x, y)`: the
    /// forward free run if `(x, y)` sits just after a word end or the grid
    /// edge, and zero otherwise.
    pub open spec fn free_at_len(self, x: int, y: int, dir: Dir) -> int {
        if !self.inside(x - dir.dx(), y - dir.dy()) || (self.border_at(
            x - dir.dx(),
            y - dir.dy(),
            dir,
        ) && !self.border_at(x - 2 * dir.dx(), y - 2 * dir.dy(), dir)) {
            self.free_fwd_len(x, y, dir) as int
        } else {
            0
        }
    }

    /// Whether the whole range lies inside the grid with a boundary on every
    /// cell and one before its first cell, so that no cell of it belongs to a
    /// word in its direction.
    pub open spec fn range_free_spec(self, range: Range) -> bool {
        &&& self.inside(range.point.x as int, range.point.y as int)
        &&& self.inside(
            range.point.x + (range.len - 1) * range.dir.dx(),
            range.point.y + (range.len - 1) * range.dir.dy(),
        )
        &&& self.border_at(
            range.point.x - range.dir.dx(),
            range.point.y - range.dir.dy(),
            range.dir,
        )
        &&& forall|a: int, b: int|
            on_run(range.point.x as int, range.point.y as int, range.dir, range.len as int, a, b)
                ==> #[trigger] self.border_at(a, b, range.dir)
    }
}

/// The forward extent of a free run is capped by the distance to the grid
/// edge.
proof fn lemma_free_fwd_bound(g: Crosswords, x: int, y: int, dir: Dir)
    ensures
        g.free_fwd_len(x, y, dir) <= (match dir {
            Dir::Right => if 0 <= x && x <= g.spec_width() {
                g.spec_width() - x
            } else {
                0
            },
            Dir::Down => if 0 <= y && y <= g.spec_height() {
                g.spec_height() - y
            } else {
                0
            },
        }),
    decreases g.free_fwd_len(x, y, dir),
{
    if g.inside(x, y) && g.border_at(x, y, dir) {
        lemma_free_fwd_bound(g, x + dir.dx(), y + dir.dy(), dir);
    }
}

/// The backward extent of a free run is capped by the distance to the grid
/// edge.
proof fn lemma_free_back_bound(g: Crosswords, x: int, y: int, dir: Dir)
    ensures
        g.free_back_len(x, y, dir) <= (match dir {
            Dir::Right => if x >= 0 {
                x
            } else {
                0
            },
            Dir::Down => if y >= 0 {
                y
            } else {
                0
            },
        }),
    decreases g.free_back_len(x, y, dir),
{
    if g.inside(x - dir.dx(), y - dir.dy()) && g.border_at(
        x - 2 * dir.dx(),
        y - 2 * dir.dy(),
        dir,
    ) {
        lemma_free_back_bound(g, x - dir.dx(), y - dir.dy(), dir);
    }
}

impl Crosswords {
    /// Returns `false` if any cell of the range belongs to a word in the
    /// range's direction, or if the range does not lie inside the grid.
    pub fn is_range_free(&self, range: Range) -> (r: bool)
        requires
            self.wf_dims(),
            range.len <= 0x3fff_ffff,
        ensures
            r == self.range_free_spec(range),
    {
        let dv = range.dir.point();
        let dx = dv.x as i64;
        let dy = dv.y as i64;
        let px = range.point.x as i64;
        let py = range.point.y as i64;
        let lm1 = range.len as i64 - 1;
        if !self.contains(range.point) {
            return false;
        }
        if !(0 <= px + lm1 * dx && px + lm1 * dx < self.width as i64 && 0 <= py + lm1 * dy && py
            + lm1 * dy < self.height as i64) {
            return false;
        }
        if !self.border_xy(px - dx, py - dy, range.dir) {
            return false;
        }
        let mut k: usize = 0;
        while k < range.len
            invariant
                self.wf_dims(),
                k <= range.len <= 0x3fff_ffff,
                dx == range.dir.dx() && dy == range.dir.dy(),
                px == range.point.x as int && py == range.point.y as int,
                -0x8000_0000 <= px < 0x4000_0000 && -0x8000_0000 <= py < 0x4000_0000,
                forall|a: int, b: int|
                    on_run(px as int, py as int, range.dir, k as int, a, b) ==> #[trigger]
                    self.border_at(a, b, range.dir),
            decreases range.len - k,
        {
            if !self.border_xy(px + (k as i64) * dx, py + (k as i64) * dy, range.dir) {
                proof {
                    assert(on_run(
                        px as int,
                        py as int,
                        range.dir,
                        range.len as int,
                        px + (k as int) * dx,
                        py + (k as int) * dy,
                    )) by {
                        match range.dir {
                            Dir::Right => {
                            },
                            Dir::Down => {
                            },
                        }
                    }
                }
                return false;
            }
            proof {
                lemma_mul_dist(k as int, dx as int);
                lemma_mul_dist(k as int, dy as int);
                assert forall|a: int, b: int|
                    on_run(px as int, py as int, range.dir, k + 1, a, b) implies #[trigger]
                    self.border_at(a, b, range.dir) by {
                    match range.dir {
                        Dir::Right => {
                        },
                        Dir::Down => {
                        },
                    }
                }
            }
            k = k + 1;
        }
        true
    }

    /// Returns the largest free range starting at that point: cells ahead of
    /// the point that belong to no word in the given direction. The range is
    /// empty unless the point sits directly after a word end or the grid
    /// edge.
    pub fn get_free_range_at(&self, point: Point, dir: Dir) -> (r: Range)
        requires
            self.wf_dims(),
        ensures
            r.point == point,
            r.dir == dir,
            r.len as int == self.free_at_len(point.x as int, point.y as int, dir),
    {
        let dv = dir.point();
        let dx = dv.x as i64;
        let dy = dv.y as i64;
        let px = point.x as i64;
        let py = point.y as i64;
        let w64 = self.width as i64;
        let h64 = self.height as i64;
        let before_inside = 0 <= px - dx && px - dx < w64 && 0 <= py - dy && py - dy < h64;
        if before_inside && !(self.border_xy(px - dx, py - dy, dir) && !self.border_xy(
            px - 2 * dx,
            py - 2 * dy,
            dir,
        )) {
            return Range { point, dir, len: 0 };
        }
        proof {
            lemma_free_fwd_bound(*self, px as int, py as int, dir);
        }
        let mut len: usize = 0;
        let mut cx = px;
        let mut cy = py;
        while 0 <= cx && cx < w64 && 0 <= cy && cy < h64 && self.border_xy(cx, cy, dir)
            invariant
                self.wf_dims(),
                w64 == self.spec_width() && h64 == self.spec_height(),
                dx == dir.dx() && dy == dir.dy(),
                px == point.x as int && py == point.y as int,
                cx == px + len * dx,
                cy == py + len * dy,
                len <= 0x4000_0000,
                self.free_fwd_len(px as int, py as int, dir) == len + self.free_fwd_len(
                    cx as int,
                    cy as int,
                    dir,
                ),
                self.free_fwd_len(px as int, py as int, dir) <= 0x4000_0000,
            decreases self.free_fwd_len(cx as int, cy as int, dir),
        {
            proof {
                lemma_mul_dist(len as int, dx as int);
                lemma_mul_dist(len as int, dy as int);
            }
            cx = cx + dx;
            cy = cy + dy;
            len = len + 1;
        }
        Range { point, dir, len }
    }

    /// Returns the largest free range containing the point.
    pub fn get_free_range_containing(&self, point: Point, dir: Dir) -> (r: Range)
        requires
            self.wf_dims(),
        ensures
            r.dir == dir,
            r.point.x as int == point.x - self.free_back_len(point.x as int, point.y as int, dir)
                * dir.dx(),
            r.point.y as int == point.y - self.free_back_len(point.x as int, point.y as int, dir)
                * dir.dy(),
            r.len as int == self.free_at_len(r.point.x as int, r.point.y as int, dir),
    {
        let dv = dir.point();
        let dx = dv.x as i64;
        let dy = dv.y as i64;
        let px = point.x as i64;
        let py = point.y as i64;
        let w64 = self.width as i64;
        let h64 = self.height as i64;
        proof {
            lemma_free_back_bound(*self, px as int, py as int, dir);
        }
        let mut cx = px;
        let mut cy = py;
        while 0 <= cx - dx && cx - dx < w64 && 0 <= cy - dy && cy - dy < h64 && self.border_xy(
            cx - 2 * dx,
            cy - 2 * dy,
            dir,
        )
            invariant
                self.wf_dims(),
                w64 == self.spec_width() && h64 == self.spec_height(),
                dx == dir.dx() && dy == dir.dy(),
                px == point.x as int && py == point.y as int,
                cx <= px && cy <= py,
                (cx == px && cy == py) || (0 <= cx && 0 <= cy),
                dir == Dir::Right ==> cy == py,
                dir == Dir::Down ==> cx == px,
                self.free_back_len(px as int, py as int, dir) == (px - cx) + (py - cy)
                    + self.free_back_len(cx as int, cy as int, dir),
            decreases self.free_back_len(cx as int, cy as int, dir),
        {
            cx = cx - dx;
            cy = cy - dy;
        }
        let start = Point { x: cx as i32, y: cy as i32 };
        self.get_free_range_at(start, dir)
    }

    /// Returns the largest free range adjacent to the end of the given one.
    pub fn get_range_after(&self, range: &Range) -> (r: Range)
        requires
            self.wf_dims(),
            range.len <= 0x3fff_ffff,
            -0x4000_0000 <= range.point.x && range.point.x + range.len <= 0x4000_0000,
            -0x4000_0000 <= range.point.y && range.point.y + range.len <= 0x4000_0000,
        ensures
            r.dir == range.dir,
            r.point.x as int == range.point.x + range.len * range.dir.dx(),
            r.point.y as int == range.point.y + range.len * range.dir.dy(),
            r.len == self.free_fwd_len(r.point.x as int, r.point.y as int, range.dir),
    {
        let dir = range.dir;
        let dv = dir.point();
        let dx = dv.x as i64;
        let dy = dv.y as i64;
        let sx = range.point.x as i64 + (range.len as i64) * dx;
        let sy = range.point.y as i64 + (range.len as i64) * dy;
        let w64 = self.width as i64;
        let h64 = self.height as i64;
        proof {
            lemma_free_fwd_bound(*self, sx as int, sy as int, dir);
        }
        let mut len: usize = 0;
        let mut cx = sx;
        let mut cy = sy;
        while 0 <= cx && cx < w64 && 0 <= cy && cy < h64 && self.border_xy(cx, cy, dir)
            invariant
                self.wf_dims(),
                w64 == self.spec_width() && h64 == self.spec_height(),
                dx == dir.dx() && dy == dir.dy(),
                -0x4000_0000 <= sx <= 0x4000_0000 && -0x4000_0000 <= sy <= 0x4000_0000,
                cx == sx + len * dx,
                cy == sy + len * dy,
                len <= 0x4000_0000,
                self.free_fwd_len(sx as int, sy as int, dir) == len + self.free_fwd_len(
                    cx as int,
                    cy as int,
                    dir,
                ),
                self.free_fwd_len(sx as int, sy as int, dir) <= 0x4000_0000,
            decreases self.free_fwd_len(cx as int, cy as int, dir),
        {
            proof {
                lemma_mul_dist(len as int, dx as int);
                lemma_mul_dist(len as int, dy as int);
            }
            cx = cx + dx;
            cy = cy + dy;
            len = len + 1;
        }
        proof {
            if len > 0 {
                assert(self.inside(sx as int, sy as int));
            }
        }
        Range { point: Point { x: sx as i32, y: sy as i32 }, dir, len }
    }

    /// Returns the largest free range adjacent to the start of the given one.
    pub fn get_range_before(&self, range: &Range) -> (r: Range)
        requires
            self.wf_dims(),
        ensures
            r.dir == range.dir,
            r.len == self.free_back_len(range.point.x as int, range.point.y as int, range.dir),
            r.point.x as int == range.point.x - r.len * range.dir.dx(),
            r.point.y as int == range.point.y - r.len * range.dir.dy(),
    {
        let dir = range.dir;
        let dv = dir.point();
        let dx = dv.x as i64;
        let dy = dv.y as i64;
        let px = range.point.x as i64;
        let py = range.point.y as i64;
        let w64 = self.width as i64;
        let h64 = self.height as i64;
        proof {
            lemma_free_back_bound(*self, px as int, py as int, dir);
        }
        let mut len: usize = 0;
        let mut cx = px;
        let mut cy = py;
        while 0 <= cx - dx && cx - dx < w64 && 0 <= cy - dy && cy - dy < h64 && self.border_xy(
            cx - 2 * dx,
            cy - 2 * dy,
            dir,
        )
            invariant
                self.wf_dims(),
                w64 == self.spec_width() && h64 == self.spec_height(),
                dx == dir.dx() && dy == dir.dy(),
                px == range.point.x as int && py == range.point.y as int,
                cx == px - len * dx,
                cy == py - len * dy,
                len <= 0x4000_0000,
                (cx == px && cy == py) || (0 <= cx && 0 <= cy),
                self.free_back_len(px as int, py as int, dir) == len + self.free_back_len(
                    cx as int,
                    cy as int,
                    dir,
                ),
                self.free_back_len(px as int, py as int, dir) <= 0x4000_0000,
            decreases self.free_back_len(cx as int, cy as int, dir),
        {
            proof {
                lemma_mul_dist(len as int, dx as int);
                lemma_mul_dist(len as int, dy as int);
            }
            cx = cx - dx;
            cy = cy - dy;
            len = len + 1;
        }
        Range { point: Point { x: cx as i32, y: cy as i32 }, dir, len }
    }
}

impl Crosswords {
    /// Whether `(x, y)` holds a letter.
    pub open spec fn letter_at(self, x: int, y: int) -> bool {
        self.inside(x, y) && self.char_at(x, y) != BLOCK
    }

    /// Whether `(x, y)` is an empty cell with at least one orthogonally
    /// adjacent letter: the kind of cell from which an empty cluster's
    /// boundary is traced.
    pub open spec fn boundary_point_spec(self, x: int, y: int) -> bool {
        &&& self.inside(x, y)
        &&& self.char_at(x, y) == BLOCK
        &&& (self.letter_at(x + 1, y) || self.letter_at(x - 1, y) || self.letter_at(x, y + 1)
            || self.letter_at(x, y - 1))
    }

    /// Whether `(q, o)` is a boundary pair: `q` an empty in-grid cell, `o`
    /// one of its four orthogonal neighbours, and `o` a letter or outside the
    /// grid.
    pub open spec fn boundary_pair_spec(self, q: Point, o: Point) -> bool {
        &&& self.inside(q.x as int, q.y as int)
        &&& self.char_at(q.x as int, q.y as int) == BLOCK
        &&& ((o.x == q.x + 1 && o.y == q.y) || (o.x == q.x - 1 && o.y == q.y) || (o.x == q.x
            && o.y == q.y + 1) || (o.x == q.x && o.y == q.y - 1))
        &&& !(self.inside(o.x as int, o.y as int) && self.char_at(o.x as int, o.y as int)
            == BLOCK)
    }

    /// The boundary pair set of the cluster of empty cells containing
    /// `(cx, cy)`: all pairs of a cluster cell and an adjacent letter or
    /// out-of-grid point.
    pub open spec fn perimeter_of(self, cx: int, cy: int) -> Set<(Point, Point)> {
        Set::new(
            |pr: (Point, Point)|
                self.boundary_pair_spec(pr.0, pr.1) && self.empty_connected(
                    cx,
                    cy,
                    pr.0.x as int,
                    pr.0.y as int,
                ),
        )
    }

    /// Returns all the ranges that carry a word, scanning rows from top to
    /// bottom and, within each cell, the rightward word before the downward
    /// one.
    pub fn word_ranges(&self) -> (r: Vec<Range>)
        requires
            self.wf(),
        ensures
            forall|t: int|
                0 <= t < r@.len() ==> {
                    let rg = #[trigger] r@[t];
                    self.hint_at(rg.point.x as int, rg.point.y as int, rg.dir) && rg.len as int
                        == self.fwd_len(rg.point.x as int, rg.point.y as int, rg.dir)
                },
            forall|x: int, y: int, d: Dir|
                self.inside(x, y) && #[trigger] self.hint_at(x, y, d) ==> exists|t: int|
                    0 <= t < r@.len() && (#[trigger] r@[t]).point.x as int == x && r@[t].point.y
                        as int == y && r@[t].dir == d,
    {
        let mut r: Vec<Range> = Vec::new();
        let mut y: usize = 0;
        proof {
            lemma_wf_bounds(*self);
        }
        while y < self.height
            invariant
                self.wf(),
                y <= self.spec_height(),
                forall|t: int|
                    0 <= t < r@.len() ==> {
                        let rg = #[trigger] r@[t];
                        self.hint_at(rg.point.x as int, rg.point.y as int, rg.dir) && rg.len as int
                            == self.fwd_len(rg.point.x as int, rg.point.y as int, rg.dir)
                    },
                forall|x: int, b: int, d: Dir|
                    self.inside(x, b) && b < y && #[trigger] self.hint_at(x, b, d) ==> exists|
                    t: int|
                        0 <= t < r@.len() && (#[trigger] r@[t]).point.x as int == x
                            && r@[t].point.y as int == b && r@[t].dir == d,
            decreases self.spec_height() - y,
        {
            let mut x: usize = 0;
            while x < self.width
                invariant
                    self.wf(),
                    y < self.spec_height(),
                    x <= self.spec_width(),
                    forall|t: int|
                        0 <= t < r@.len() ==> {
                            let rg = #[trigger] r@[t];
                            self.hint_at(rg.point.x as int, rg.point.y as int, rg.dir) && rg.len
                                as int == self.fwd_len(rg.point.x as int, rg.point.y as int, rg.dir)
                        },
                    forall|a: int, b: int, d: Dir|
                        self.inside(a, b) && (b < y || (b == y && a < x)) && #[trigger] self.hint_at(
                            a,
                            b,
                            d,
                        ) ==> exists|t: int|
                            0 <= t < r@.len() && (#[trigger] r@[t]).point.x as int == a
                                && r@[t].point.y as int == b && r@[t].dir == d,
                decreases self.spec_width() - x,
            {
                let p = Point { x: x as i32, y: y as i32 };
                let ghost rb = r@;
                let hr = self.has_hint_at_dir(p, Dir::Right);
                if hr {
                    let rg = self.get_word_range_at(p, Dir::Right);
                    r.push(rg);
                }
                let ghost rmid = r@;
                let hd = self.has_hint_at_dir(p, Dir::Down);
                if hd {
                    let rg = self.get_word_range_at(p, Dir::Down);
                    r.push(rg);
                }
                proof {
                    assert forall|a: int, b: int, d: Dir|
                        self.inside(a, b) && (b < y || (b == y && a < x + 1)) && #[trigger]
                        self.hint_at(a, b, d) implies exists|t: int|
                        0 <= t < r@.len() && (#[trigger] r@[t]).point.x as int == a
                            && r@[t].point.y as int == b && r@[t].dir == d by {
                        if a == x && b == y {
                            if d == Dir::Right {
                                assert(r@[rb.len() as int].point.x as int == a && r@[rb.len()
                                    as int].point.y as int == b && r@[rb.len() as int].dir == d);
                            } else {
                                assert(r@[rmid.len() as int].point.x as int == a && r@[rmid.len()
                                    as int].point.y as int == b && r@[rmid.len() as int].dir == d);
                            }
                        } else {
                            let t = choose|t: int|
                                0 <= t < rb.len() && (#[trigger] rb[t]).point.x as int == a
                                    && rb[t].point.y as int == b && rb[t].dir == d;
                            assert(r@[t] == rb[t]);
                        }
                    }
                }
                x = x + 1;
            }
            y = y + 1;
        }
        r
    }

    /// Returns `true` if the cell is empty and a letter stands next to it.
    fn is_boundary_point(&self, point: Point) -> (r: bool)
        requires
            self.wf_dims(),
        ensures
            r == self.boundary_point_spec(point.x as int, point.y as int),
    {
        let px = point.x as i64;
        let py = point.y as i64;
        if !self.contains(point) {
            return false;
        }
        self.char_xy(px, py) == BLOCK && (self.letter_xy(px + 1, py) || self.letter_xy(px - 1, py)
            || self.letter_xy(px, py + 1) || self.letter_xy(px, py - 1))
    }

    /// `letter_at`, for coordinates already widened to `i64`.
    fn letter_xy(&self, x: i64, y: i64) -> (r: bool)
        requires
            self.wf_dims(),
        ensures
            r == self.letter_at(x as int, y as int),
    {
        let w = self.width as i64;
        let h = self.height as i64;
        0 <= x && x < w && 0 <= y && y < h && self.char_xy(x, y) != BLOCK
    }

    /// A sequence of orthogonally adjacent empty in-grid cells.
    pub open spec fn empty_path(self, p: Seq<(int, int)>) -> bool {
        &&& p.len() >= 1
        &&& forall|i: int|
            0 <= i < p.len() ==> self.inside((#[trigger] p[i]).0, p[i].1) && self.char_at(
                p[i].0,
                p[i].1,
            ) == BLOCK
        &&& forall|i: int| 0 <= i < p.len() - 1 ==> adjacent_cells(#[trigger] p[i], p[i + 1])
    }

    /// Whether `(x, y)` belongs to the connected cluster of empty cells that
    /// contains `(sx, sy)`: some path of adjacent empty cells joins them.
    pub open spec fn empty_connected(self, sx: int, sy: int, x: int, y: int) -> bool {
        exists|p: Seq<(int, int)>|
            self.empty_path(p) && p.first() == (sx, sy) && p.last() == (x, y)
    }

    /// Whether the cell `(x, y)` is marked in a visit map laid out row by
    /// row.
    spec fn seen_in(self, vs: Seq<bool>, x: int, y: int) -> bool {
        self.inside(x, y) && vs[y * self.spec_width() + x]
    }

    /// Every empty in-grid neighbour of `(x, y)` is marked in the visit map.
    spec fn neighbor_closed(self, vs: Seq<bool>, x: int, y: int) -> bool {
        &&& (self.inside(x + 1, y) && self.char_at(x + 1, y) == BLOCK ==> self.seen_in(
            vs,
            x + 1,
            y,
        ))
        &&& (self.inside(x - 1, y) && self.char_at(x - 1, y) == BLOCK ==> self.seen_in(
            vs,
            x - 1,
            y,
        ))
        &&& (self.inside(x, y + 1) && self.char_at(x, y + 1) == BLOCK ==> self.seen_in(
            vs,
            x,
            y + 1,
        ))
        &&& (self.inside(x, y - 1) && self.char_at(x, y - 1) == BLOCK ==> self.seen_in(
            vs,
            x,
            y - 1,
        ))
    }

    /// For every neighbour of `(x, y)` that is a letter or lies outside the
    /// grid, the pair list holds the corresponding boundary pair.
    spec fn pairs_recorded(self, rs: Seq<(Point, Point)>, x: int, y: int) -> bool {
        &&& (!(self.inside(x + 1, y) && self.char_at(x + 1, y) == BLOCK) ==> rs.contains(
            (pt_at(x, y), pt_at(x + 1, y)),
        ))
        &&& (!(self.inside(x - 1, y) && self.char_at(x - 1, y) == BLOCK) ==> rs.contains(
            (pt_at(x, y), pt_at(x - 1, y)),
        ))
        &&& (!(self.inside(x, y + 1) && self.char_at(x, y + 1) == BLOCK) ==> rs.contains(
            (pt_at(x, y), pt_at(x, y + 1)),
        ))
        &&& (!(self.inside(x, y - 1) && self.char_at(x, y - 1) == BLOCK) ==> rs.contains(
            (pt_at(x, y), pt_at(x, y - 1)),
        ))
    }

    /// Returns the pairs of points that trace the border of the cluster of
    /// empty cells which the given point belongs to: each pair holds an empty
    /// cell of that cluster and an adjacent letter or out-of-grid point, every
    /// such pair of the cluster appears, and none appears twice. If the cell
    /// at the point is not empty, the result is empty. The trace always
    /// covers the point's whole cluster; no way of restricting it to a part
    /// of the grid is offered.
    #[verifier::rlimit(100)]
    pub fn get_boundary_iter_for(&self, point: Point) -> (r: Vec<(Point, Point)>)
        requires
            self.wf(),
        ensures
            !(self.inside(point.x as int, point.y as int) && self.char_at(
                point.x as int,
                point.y as int,
            ) == BLOCK) ==> r@.len() == 0,
            forall|t: int|
                0 <= t < r@.len() ==> self.boundary_pair_spec((#[trigger] r@[t]).0, r@[t].1)
                    && self.empty_connected(
                    point.x as int,
                    point.y as int,
                    r@[t].0.x as int,
                    r@[t].0.y as int,
                ),
            forall|q: Point, o: Point|
                #[trigger] self.boundary_pair_spec(q, o) && self.empty_connected(
                    point.x as int,
                    point.y as int,
                    q.x as int,
                    q.y as int,
                ) ==> r@.contains((q, o)),
            forall|t1: int, t2: int| 0 <= t1 < t2 < r@.len() ==> r@[t1] != r@[t2],
    {
        proof {
            lemma_wf_bounds(*self);
        }
        let mut r: Vec<(Point, Point)> = Vec::new();
        if !self.contains(point) {
            return r;
        }
        let px = point.x as i64;
        let py = point.y as i64;
        let ghost pxi = px as int;
        let ghost pyi = py as int;
        if self.char_xy(px, py) != BLOCK {
            return r;
        }
        let area = self.width * self.height;
        let mut visited: Vec<bool> = filled(area, false);
        let mut stack: Vec<Point> = Vec::new();
        proof {
            assert(0 <= pyi * self.spec_width() + pxi < self.spec_width() * self.spec_height())
                by (nonlinear_arith)
                requires
                    0 <= pxi < self.spec_width(),
                    0 <= pyi < self.spec_height(),
            ;
            lemma_count_all_false(visited@);
        }
        let start_idx = (point.y as usize) * self.width + (point.x as usize);
        let ghost old_visited = visited@;
        visited[start_idx] = true;
        proof {
            lemma_count_true_update(old_visited, start_idx as int, true);
            lemma_count_true_bound(visited@);
            lemma_connected_refl(*self, pxi, pyi);
            assert forall|x: int, y: int| #[trigger] self.seen_in(visited@, x, y) implies x == pxi
                && y == pyi by {
                if self.inside(x, y) {
                    assert((y * self.spec_width() + x == pyi * self.spec_width() + pxi <==> (x
                        == pxi && y == pyi)) && 0 <= y * self.spec_width() + x < self.spec_width()
                        * self.spec_height()) by (nonlinear_arith)
                        requires
                            0 <= x < self.spec_width(),
                            0 <= y < self.spec_height(),
                            0 <= pxi < self.spec_width(),
                            0 <= pyi < self.spec_height(),
                    ;
                }
            }
            assert(self.seen_in(visited@, pxi, pyi));
        }
        stack.push(point);
        proof {
            assert(stack@[0] == point);
            assert(on_stack(stack@, pxi, pyi));
        }
        while stack.len() > 0
            invariant
                self.wf(),
                area == self.spec_width() * self.spec_height(),
                area <= 0x3fff_ffff,
                visited@.len() == area,
                0 <= count_true(visited@) <= area,
                stack@.len() <= count_true(visited@),
                pxi == point.x as int && pyi == point.y as int,
                self.inside(pxi, pyi) && self.char_at(pxi, pyi) == BLOCK,
                self.seen_in(visited@, pxi, pyi),
                forall|x: int, y: int|
                    #[trigger] self.seen_in(visited@, x, y) ==> self.char_at(x, y) == BLOCK
                        && self.empty_connected(pxi, pyi, x, y),
                forall|t: int|
                    0 <= t < stack@.len() ==> self.seen_in(
                        visited@,
                        (#[trigger] stack@[t]).x as int,
                        stack@[t].y as int,
                    ),
                forall|t1: int, t2: int| 0 <= t1 < t2 < stack@.len() ==> stack@[t1] != stack@[t2],
                forall|x: int, y: int|
                    #[trigger] self.seen_in(visited@, x, y) && !on_stack(stack@, x, y)
                        ==> self.neighbor_closed(visited@, x, y) && self.pairs_recorded(r@, x, y),
                forall|t: int|
                    0 <= t < r@.len() ==> self.boundary_pair_spec((#[trigger] r@[t]).0, r@[t].1)
                        && self.seen_in(visited@, r@[t].0.x as int, r@[t].0.y as int) && !on_stack(
                        stack@,
                        r@[t].0.x as int,
                        r@[t].0.y as int,
                    ),
                forall|t1: int, t2: int| 0 <= t1 < t2 < r@.len() ==> r@[t1] != r@[t2],
            decreases 4 * (area - count_true(visited@)) + stack@.len(),
        {
            let ghost stack_pre = stack@;
            let ghost r_pre = r@;
            let q = stack.pop().unwrap();
            let qx = q.x as i64;
            let qy = q.y as i64;
            let ghost qxi = qx as int;
            let ghost qyi = qy as int;
            proof {
                assert(q == stack_pre.last());
                assert(self.seen_in(visited@, qxi, qyi));
                assert(self.inside(qxi, qyi) && self.char_at(qxi, qyi) == BLOCK);
                assert(on_stack(stack_pre, qxi, qyi)) by {
                    assert((#[trigger] stack_pre[stack_pre.len() - 1]).x as int == qxi);
                }
                assert(!on_stack(stack@, qxi, qyi)) by {
                    if on_stack(stack@, qxi, qyi) {
                        let t = choose|t: int|
                            0 <= t < stack@.len() && (#[trigger] stack@[t]).x as int == qxi
                                && stack@[t].y as int == qyi;
                        assert(stack_pre[t] == stack_pre[stack_pre.len() - 1]);
                    }
                }
                // cells already recorded keep off the shrunken stack, and none
                // of them is the popped cell
                assert forall|t: int| 0 <= t < r@.len() implies !on_stack(
                    stack@,
                    (#[trigger] r@[t]).0.x as int,
                    r@[t].0.y as int,
                ) && r@[t].0 != q by {
                    if on_stack(stack@, r@[t].0.x as int, r@[t].0.y as int) {
                        let u = choose|u: int|
                            0 <= u < stack@.len() && (#[trigger] stack@[u]).x as int == r@[t].0.x
                                as int && stack@[u].y as int == r@[t].0.y as int;
                        assert(on_stack(stack_pre, r@[t].0.x as int, r@[t].0.y as int));
                    }
                    assert(!on_stack(stack_pre, r@[t].0.x as int, r@[t].0.y as int));
                }
            }
            // collect the pairs this cell contributes
            let w64 = self.width as i64;
            let h64 = self.height as i64;
            if !(qx + 1 < w64 && self.char_xy(qx + 1, qy) == BLOCK) {
                let o = Point { x: (qx + 1) as i32, y: q.y };
                let ghost rb = r@;
                r.push((q, o));
                proof {
                    lemma_push_contains(rb, (q, o));
                    assert(r@[rb.len() as int] == (q, o));
                    assert(r@.contains((q, o)) && o == pt_at(qxi + 1, qyi));
                }
            }
            if !(0 <= qx - 1 && self.char_xy(qx - 1, qy) == BLOCK) {
                let o = Point { x: (qx - 1) as i32, y: q.y };
                let ghost rb = r@;
                r.push((q, o));
                proof {
                    lemma_push_contains(rb, (q, o));
                    assert(r@[rb.len() as int] == (q, o));
                    assert(r@.contains((q, o)) && o == pt_at(qxi - 1, qyi));
                }
            }
            if !(qy + 1 < h64 && self.char_xy(qx, qy + 1) == BLOCK) {
                let o = Point { x: q.x, y: (qy + 1) as i32 };
                let ghost rb = r@;
                r.push((q, o));
                proof {
                    lemma_push_contains(rb, (q, o));
                    assert(r@[rb.len() as int] == (q, o));
                    assert(r@.contains((q, o)) && o == pt_at(qxi, qyi + 1));
                }
            }
            if !(0 <= qy - 1 && self.char_xy(qx, qy - 1) == BLOCK) {
                let o = Point { x: q.x, y: (qy - 1) as i32 };
                let ghost rb = r@;
                r.push((q, o));
                proof {
                    lemma_push_contains(rb, (q, o));
                    assert(r@[rb.len() as int] == (q, o));
                    assert(r@.contains((q, o)) && o == pt_at(qxi, qyi - 1));
                }
            }
            let ghost r_mid = r@;
            proof {
                assert(q == pt_at(qxi, qyi));
                assert(self.pairs_recorded(r_mid, qxi, qyi));
                assert forall|t: int| 0 <= t < r_mid.len() implies self.boundary_pair_spec(
                    (#[trigger] r_mid[t]).0,
                    r_mid[t].1,
                ) && self.seen_in(visited@, r_mid[t].0.x as int, r_mid[t].0.y as int) by {
                    if t < r_pre.len() {
                        assert(r_mid[t] == r_pre[t]);
                    } else {
                        assert(r_mid[t].0 == q);
                    }
                }
                assert forall|t1: int, t2: int| 0 <= t1 < t2 < r_mid.len() implies r_mid[t1]
                    != r_mid[t2] by {
                    if t1 < r_pre.len() && t2 >= r_pre.len() {
                        assert(r_mid[t1] == r_pre[t1] && r_mid[t2].0 == q && r_pre[t1].0 != q);
                    }
                }
            }
            // spread to the empty neighbours
            let ghost v0 = visited@;
            let ghost s0 = stack@;
            self.visit_neighbor(qx + 1, qy, &mut visited, &mut stack);
            let ghost v1 = visited@;
            let ghost s1 = stack@;
            self.visit_neighbor(qx - 1, qy, &mut visited, &mut stack);
            let ghost v2 = visited@;
            let ghost s2 = stack@;
            self.visit_neighbor(qx, qy + 1, &mut visited, &mut stack);
            let ghost v3 = visited@;
            let ghost s3 = stack@;
            self.visit_neighbor(qx, qy - 1, &mut visited, &mut stack);
            proof {
                let v4 = visited@;
                let s4 = stack@;
                assert forall|x: int, y: int| self.seen_in(v0, x, y) implies #[trigger]
                    self.seen_in(v4, x, y) by {
                    assert(self.seen_in(v1, x, y));
                    assert(self.seen_in(v2, x, y));
                    assert(self.seen_in(v3, x, y));
                }
                // every newly seen cell is a neighbour of the popped cell and
                // stands on the stack
                assert forall|x: int, y: int|
                    #[trigger] self.seen_in(v4, x, y) && !self.seen_in(v0, x, y) implies
                    adjacent_cells((qxi, qyi), (x, y)) && self.inside(x, y) && self.char_at(x, y)
                        == BLOCK && on_stack(s4, x, y) by {
                    if self.seen_in(v1, x, y) {
                        assert(s1 == s0.push(pt_at(qxi + 1, qyi)));
                        assert(s1[s0.len() as int] == pt_at(x, y));
                        assert(s4[s0.len() as int] == pt_at(x, y));
                    } else if self.seen_in(v2, x, y) {
                        assert(s2 == s1.push(pt_at(qxi - 1, qyi)));
                        assert(s2[s1.len() as int] == pt_at(x, y));
                        assert(s4[s1.len() as int] == pt_at(x, y));
                    } else if self.seen_in(v3, x, y) {
                        assert(s3 == s2.push(pt_at(qxi, qyi + 1)));
                        assert(s3[s2.len() as int] == pt_at(x, y));
                        assert(s4[s2.len() as int] == pt_at(x, y));
                    } else {
                        assert(s4 == s3.push(pt_at(qxi, qyi - 1)));
                        assert(s4[s3.len() as int] == pt_at(x, y));
                    }
                }
                // seen cells hold empty cells of the cluster
                assert forall|x: int, y: int| #[trigger] self.seen_in(v4, x, y) implies
                    self.char_at(x, y) == BLOCK && self.empty_connected(pxi, pyi, x, y) by {
                    if !self.seen_in(v0, x, y) {
                        lemma_connected_step(*self, pxi, pyi, qxi, qyi, x, y);
                    }
                }
                // the stack holds distinct seen cells
                assert forall|t: int| 0 <= t < s4.len() implies self.seen_in(
                    v4,
                    (#[trigger] s4[t]).x as int,
                    s4[t].y as int,
                ) by {
                    if t < s0.len() {
                        assert(s4[t] == s0[t]);
                        assert(self.seen_in(v0, s0[t].x as int, s0[t].y as int));
                    } else {
                        assert(self.seen_in(v4, s4[t].x as int, s4[t].y as int));
                    }
                }
                assert forall|t1: int, t2: int| 0 <= t1 < t2 < s4.len() implies s4[t1] != s4[
                    t2] by {
                    if t2 >= s0.len() && s4[t1] == s4[t2] {
                        // the later entry was unseen when it was pushed, the
                        // earlier one already seen
                        assert(false);
                    }
                }
                // processed cells stay closed and recorded
                assert forall|x: int, y: int|
                    #[trigger] self.seen_in(v4, x, y) && !on_stack(s4, x, y) implies
                    self.neighbor_closed(v4, x, y) && self.pairs_recorded(r_mid, x, y) by {
                    if self.seen_in(v0, x, y) {
                        if x == qxi && y == qyi {
                            assert(self.neighbor_closed(v4, qxi, qyi)) by {
                                if self.inside(qxi + 1, qyi) && self.char_at(qxi + 1, qyi)
                                    == BLOCK {
                                    assert(self.seen_in(v1, qxi + 1, qyi));
                                }
                                if self.inside(qxi - 1, qyi) && self.char_at(qxi - 1, qyi)
                                    == BLOCK {
                                    assert(self.seen_in(v2, qxi - 1, qyi));
                                }
                                if self.inside(qxi, qyi + 1) && self.char_at(qxi, qyi + 1)
                                    == BLOCK {
                                    assert(self.seen_in(v3, qxi, qyi + 1));
                                }
                                if self.inside(qxi, qyi - 1) && self.char_at(qxi, qyi - 1)
                                    == BLOCK {
                                    assert(self.seen_in(v4, qxi, qyi - 1));
                                }
                            }
                        } else {
                            assert(!on_stack(s0, x, y)) by {
                                if on_stack(s0, x, y) {
                                    let u = choose|u: int|
                                        0 <= u < s0.len() && (#[trigger] s0[u]).x as int == x
                                            && s0[u].y as int == y;
                                    assert(s4[u] == s0[u]);
                                }
                            }
                            assert(!on_stack(stack_pre, x, y)) by {
                                if on_stack(stack_pre, x, y) {
                                    let u = choose|u: int|
                                        0 <= u < stack_pre.len() && (#[trigger] stack_pre[u]).x
                                            as int == x && stack_pre[u].y as int == y;
                                    if u < stack_pre.len() - 1 {
                                        assert(s0[u] == stack_pre[u]);
                                    }
                                }
                            }
                            assert(self.neighbor_closed(v0, x, y) && self.pairs_recorded(
                                r_pre,
                                x,
                                y,
                            ));
                            assert(self.pairs_recorded(r_mid, x, y)) by {
                                assert(forall|a: (Point, Point)|
                                    r_pre.contains(a) ==> #[trigger] r_mid.contains(a));
                            }
                        }
                    } else {
                        assert(on_stack(s4, x, y));
                    }
                }
                // recorded pairs keep their popped, processed first cells
                assert forall|t: int| 0 <= t < r_mid.len() implies self.seen_in(
                    v4,
                    (#[trigger] r_mid[t]).0.x as int,
                    r_mid[t].0.y as int,
                ) && !on_stack(s4, r_mid[t].0.x as int, r_mid[t].0.y as int) by {
                    let cx = r_mid[t].0.x as int;
                    let cy = r_mid[t].0.y as int;
                    assert(self.seen_in(v0, cx, cy));
                    if on_stack(s4, cx, cy) {
                        let u = choose|u: int|
                            0 <= u < s4.len() && (#[trigger] s4[u]).x as int == cx && s4[u].y
                                as int == cy;
                        if u < s0.len() {
                            assert(s4[u] == s0[u]);
                            assert(on_stack(stack@, cx, cy) || true);
                            assert(!on_stack(s0, cx, cy) ==> false) by {
                                assert((#[trigger] s0[u]).x as int == cx && s0[u].y as int == cy);
                            }
                            assert(!on_stack(stack_pre, cx, cy)) by {
                                if r_mid[t] == r_mid[t] {
                                }
                            }
                            assert(on_stack(stack_pre, cx, cy)) by {
                                if u < stack_pre.len() - 1 {
                                    assert(stack_pre[u] == s0[u]);
                                }
                            }
                        } else {
                            // a freshly pushed cell was unseen before
                            assert(!self.seen_in(v0, s4[u].x as int, s4[u].y as int));
                        }
                    }
                }
            }
        }
        proof {
            // the walk is complete: every cell of the cluster was seen, so
            // every boundary pair of the cluster was recorded
            assert forall|x: int, y: int| #[trigger] self.seen_in(visited@, x, y) implies
                self.neighbor_closed(visited@, x, y) by {
                assert(!on_stack(stack@, x, y));
            }
            assert forall|q2: Point, o: Point|
                #[trigger] self.boundary_pair_spec(q2, o) && self.empty_connected(
                    pxi,
                    pyi,
                    q2.x as int,
                    q2.y as int,
                ) implies r@.contains((q2, o)) by {
                let p = choose|p: Seq<(int, int)>|
                    self.empty_path(p) && p.first() == (pxi, pyi) && p.last() == (
                    q2.x as int,
                    q2.y as int,
                );
                lemma_path_all_seen(*self, visited@, p);
                assert(self.seen_in(visited@, q2.x as int, q2.y as int));
                assert(!on_stack(stack@, q2.x as int, q2.y as int));
                assert(self.pairs_recorded(r@, q2.x as int, q2.y as int));
                assert(pt_at(q2.x as int, q2.y as int) == q2);
                assert(pt_at(o.x as int, o.y as int) == o);
            }
        }
        r
    }

    /// Returns the smallest set of point pairs that traces the border of a
    /// cluster of empty cells touching a letter, scanning cells in row-major
    /// order (rows top to bottom, each row left to right); a border of at
    /// most one pair is returned as soon as it is found. The result is empty
    /// exactly when no empty cell touches a letter; otherwise it is precisely
    /// the boundary pair set of the cluster of one such cell, with no pair
    /// repeated, and — unless it was returned early with at most one pair —
    /// no letter-adjacent empty cell's cluster has a smaller boundary.
    pub fn get_smallest_boundary(&self) -> (r: Vec<(Point, Point)>)
        requires
            self.wf(),
        ensures
            forall|t: int|
                0 <= t < r@.len() ==> self.boundary_pair_spec((#[trigger] r@[t]).0, r@[t].1),
            forall|t1: int, t2: int| 0 <= t1 < t2 < r@.len() ==> r@[t1] != r@[t2],
            (r@.len() == 0) <==> (forall|x: int, y: int| !(#[trigger] self.boundary_point_spec(
                x,
                y,
            ))),
            r@.len() > 0 ==> exists|bx: int, by: int|
                #![trigger self.boundary_point_spec(bx, by)]
                self.boundary_point_spec(bx, by) && (forall|q: Point, o: Point|
                    #[trigger] r@.contains((q, o)) <==> (self.boundary_pair_spec(q, o)
                        && self.empty_connected(bx, by, q.x as int, q.y as int))) && (r@.len() > 1
                    ==> forall|cx: int, cy: int|
                    #[trigger] self.boundary_point_spec(cx, cy) && scan_before(cx, cy, bx, by)
                        ==> r@.len() < self.perimeter_of(cx, cy).len()),
            r@.len() > 1 ==> forall|bx: int, by: int|
                #[trigger] self.boundary_point_spec(bx, by) ==> r@.len() <= self.perimeter_of(
                    bx,
                    by,
                ).len(),
    {
        proof {
            lemma_wf_bounds(*self);
        }
        let mut smallest: Vec<(Point, Point)> = Vec::new();
        let mut have = false;
        let ghost mut obx: int = 0;
        let ghost mut oby: int = 0;
        let area = self.width * self.height;
        let mut seen: Vec<bool> = filled(area, false);
        proof {
            assert forall|x2: int, y2: int| !(#[trigger] self.seen_in(seen@, x2, y2)) by {
                if self.inside(x2, y2) {
                    assert(0 <= y2 * self.spec_width() + x2 < self.spec_width()
                        * self.spec_height()) by (nonlinear_arith)
                        requires
                            0 <= x2 < self.spec_width(),
                            0 <= y2 < self.spec_height(),
                    ;
                }
            }
        }
        let mut y: usize = 0;
        while y < self.height
            invariant
                self.wf(),
                area == self.spec_width() * self.spec_height(),
                y <= self.spec_height(),
                seen@.len() == area,
                !have ==> smallest@.len() == 0,
                have ==> self.boundary_point_spec(obx, oby) && smallest@.len() >= 1,
                have ==> forall|q: Point, o: Point|
                    #[trigger] smallest@.contains((q, o)) <==> (self.boundary_pair_spec(q, o)
                        && self.empty_connected(obx, oby, q.x as int, q.y as int)),
                have ==> forall|cx: int, cy: int|
                    #[trigger] self.boundary_point_spec(cx, cy) && scan_before(cx, cy, obx, oby)
                        ==> smallest@.len() < self.perimeter_of(cx, cy).len(),
                forall|t: int|
                    0 <= t < smallest@.len() ==> self.boundary_pair_spec(
                        (#[trigger] smallest@[t]).0,
                        smallest@[t].1,
                    ),
                forall|t1: int, t2: int|
                    0 <= t1 < t2 < smallest@.len() ==> smallest@[t1] != smallest@[t2],
                forall|x2: int, y2: int|
                    #[trigger] self.seen_in(seen@, x2, y2) ==> (have && smallest@.len()
                        <= self.perimeter_of(x2, y2).len()),
                forall|a: int, b: int|
                    0 <= a < self.spec_width() && 0 <= b < y && #[trigger] self.boundary_point_spec(
                        a,
                        b,
                    ) ==> (have && smallest@.len() <= self.perimeter_of(a, b).len()),
            decreases self.spec_height() - y,
        {
            let mut x: usize = 0;
            while x < self.width
                invariant
                    self.wf(),
                    area == self.spec_width() * self.spec_height(),
                    y < self.spec_height(),
                    x <= self.spec_width(),
                    seen@.len() == area,
                    !have ==> smallest@.len() == 0,
                    have ==> self.boundary_point_spec(obx, oby) && smallest@.len() >= 1,
                    have ==> forall|q: Point, o: Point|
                        #[trigger] smallest@.contains((q, o)) <==> (self.boundary_pair_spec(q, o)
                            && self.empty_connected(obx, oby, q.x as int, q.y as int)),
                    have ==> forall|cx: int, cy: int|
                        #[trigger] self.boundary_point_spec(cx, cy) && scan_before(
                            cx,
                            cy,
                            obx,
                            oby,
                        ) ==> smallest@.len() < self.perimeter_of(cx, cy).len(),
                    forall|t: int|
                        0 <= t < smallest@.len() ==> self.boundary_pair_spec(
                            (#[trigger] smallest@[t]).0,
                            smallest@[t].1,
                        ),
                    forall|t1: int, t2: int|
                        0 <= t1 < t2 < smallest@.len() ==> smallest@[t1] != smallest@[t2],
                    forall|x2: int, y2: int|
                        #[trigger] self.seen_in(seen@, x2, y2) ==> (have && smallest@.len()
                            <= self.perimeter_of(x2, y2).len()),
                    forall|a: int, b: int|
                        0 <= a < self.spec_width() && 0 <= b < y
                            && #[trigger] self.boundary_point_spec(a, b) ==> (have
                            && smallest@.len() <= self.perimeter_of(a, b).len()),
                    forall|a: int|
                        0 <= a < x && #[trigger] self.boundary_point_spec(a, y as int) ==> (have
                            && smallest@.len() <= self.perimeter_of(a, y as int).len()),
                decreases self.spec_width() - x,
            {
                let p = Point { x: x as i32, y: y as i32 };
                proof {
                    assert(0 <= (y as int) * self.spec_width() + x < self.spec_width()
                        * self.spec_height()) by (nonlinear_arith)
                        requires
                            0 <= x < self.spec_width(),
                            0 <= y < self.spec_height(),
                    ;
                }
                let idx = y * self.width + x;
                if seen[idx] {
                    proof {
                        assert(self.seen_in(seen@, x as int, y as int));
                    }
                } else if self.is_boundary_point(p) {
                    let ghost xi = x as int;
                    let ghost yi = y as int;
                    let boundary = self.get_boundary_iter_for(p);
                    proof {
                        // the cell pairs with one of its letter neighbours
                        lemma_connected_refl(*self, xi, yi);
                        if self.letter_at(xi + 1, yi) {
                            assert(self.boundary_pair_spec(pt_at(xi, yi), pt_at(xi + 1, yi)));
                            assert(boundary@.contains((pt_at(xi, yi), pt_at(xi + 1, yi))));
                        } else if self.letter_at(xi - 1, yi) {
                            assert(self.boundary_pair_spec(pt_at(xi, yi), pt_at(xi - 1, yi)));
                            assert(boundary@.contains((pt_at(xi, yi), pt_at(xi - 1, yi))));
                        } else if self.letter_at(xi, yi + 1) {
                            assert(self.boundary_pair_spec(pt_at(xi, yi), pt_at(xi, yi + 1)));
                            assert(boundary@.contains((pt_at(xi, yi), pt_at(xi, yi + 1))));
                        } else {
                            assert(self.boundary_pair_spec(pt_at(xi, yi), pt_at(xi, yi - 1)));
                            assert(boundary@.contains((pt_at(xi, yi), pt_at(xi, yi - 1))));
                        }
                        assert(boundary@.len() >= 1) by {
                            if boundary@.len() == 0 {
                                let pr = choose|pr: (Point, Point)| boundary@.contains(pr);
                            }
                        }
                        // the traced list enumerates its cluster's boundary
                        // pair set without repetition
                        assert forall|pr: (Point, Point)|
                            #[trigger] boundary@.contains(pr) <==> (self.boundary_pair_spec(
                                pr.0,
                                pr.1,
                            ) && self.empty_connected(xi, yi, pr.0.x as int, pr.0.y as int)) by {
                            if boundary@.contains(pr) {
                                let t = choose|t: int|
                                    0 <= t < boundary@.len() && boundary@[t] == pr;
                                assert(self.boundary_pair_spec(
                                    (#[trigger] boundary@[t]).0,
                                    boundary@[t].1,
                                ));
                            }
                        }
                        assert(boundary@.no_duplicates()) by {
                            assert forall|i: int, j: int|
                                0 <= i < boundary@.len() && 0 <= j < boundary@.len() && i
                                    != j implies boundary@[i] != boundary@[j] by {
                                if j < i {
                                    assert(boundary@[j] != boundary@[i]);
                                }
                            }
                        }
                        boundary@.unique_seq_to_set();
                        assert(boundary@.to_set() =~= self.perimeter_of(xi, yi));
                        assert(self.perimeter_of(xi, yi).len() == boundary@.len());
                    }
                    if boundary.len() <= 1 {
                        proof {
                            assert(self.boundary_point_spec(xi, yi));
                        }
                        return boundary;
                    }
                    let ghost bseq = boundary@;
                    let ghost seen_before = seen@;
                    let ghost small_before = smallest@;
                    let ghost have_before = have;
                    if !have || boundary.len() < smallest.len() {
                        let ghost had = have;
                        let ghost prior_len = smallest@.len();
                        proof {
                            obx = xi;
                            oby = yi;
                        }
                        smallest = boundary;
                        have = true;
                        proof {
                            assert forall|cx: int, cy: int|
                                #[trigger] self.boundary_point_spec(cx, cy) && scan_before(
                                    cx,
                                    cy,
                                    obx,
                                    oby,
                                ) implies smallest@.len() < self.perimeter_of(cx, cy).len() by {
                                // every earlier boundary point was already
                                // compared against, and the adopted border is
                                // strictly smaller
                                assert(had && prior_len <= self.perimeter_of(cx, cy).len());
                                assert(smallest@.len() < prior_len);
                            }
                        }
                        self.mark_cells(&mut seen, &smallest);
                    } else {
                        self.mark_cells(&mut seen, &boundary);
                    }
                    proof {
                        assert(smallest@.len() <= bseq.len());
                        assert(have_before ==> smallest@.len() <= small_before.len());
                        assert forall|x2: int, y2: int|
                            #[trigger] self.seen_in(seen@, x2, y2) implies (have
                            && smallest@.len() <= self.perimeter_of(x2, y2).len()) by {
                            if self.seen_in(seen_before, x2, y2) {
                                assert(have_before && small_before.len() <= self.perimeter_of(
                                    x2,
                                    y2,
                                ).len());
                            } else {
                                assert(on_pairs(bseq, x2, y2));
                                let u = choose|u: int|
                                    0 <= u < bseq.len() && (#[trigger] bseq[u]).0.x as int == x2
                                        && bseq[u].0.y as int == y2;
                                assert(bseq.contains(bseq[u]));
                                assert(self.empty_connected(xi, yi, x2, y2));
                                lemma_same_cluster_perimeter(*self, xi, yi, x2, y2);
                            }
                        }
                    }
                }
                x = x + 1;
            }
            y = y + 1;
        }
        proof {
            if !have {
                assert forall|x: int, y2: int| !(#[trigger] self.boundary_point_spec(x, y2)) by {
                    if self.boundary_point_spec(x, y2) {
                        assert(0 <= x < self.spec_width() && 0 <= y2 < self.spec_height());
                    }
                }
            }
            if have {
                assert forall|bx: int, by: int|
                    #[trigger] self.boundary_point_spec(bx, by) implies smallest@.len()
                    <= self.perimeter_of(bx, by).len() by {
                    assert(0 <= bx < self.spec_width() && 0 <= by < self.spec_height());
                }
            }
        }
        smallest
    }

    /// Marks the inside cell of every pair as already traced.
    fn mark_cells(&self, seen: &mut Vec<bool>, pairs: &Vec<(Point, Point)>)
        requires
            self.wf(),
            old(seen)@.len() == self.spec_width() * self.spec_height(),
            forall|t: int|
                0 <= t < pairs@.len() ==> self.inside(
                    (#[trigger] pairs@[t]).0.x as int,
                    pairs@[t].0.y as int,
                ),
        ensures
            final(seen)@.len() == old(seen)@.len(),
            forall|x2: int, y2: int|
                #[trigger] self.seen_in(final(seen)@, x2, y2) <==> (self.seen_in(
                    old(seen)@,
                    x2,
                    y2,
                ) || on_pairs(pairs@, x2, y2)),
    {
        proof {
            lemma_wf_bounds(*self);
        }
        let mut t: usize = 0;
        while t < pairs.len()
            invariant
                self.wf(),
                t <= pairs@.len(),
                seen@.len() == self.spec_width() * self.spec_height(),
                forall|u: int|
                    0 <= u < pairs@.len() ==> self.inside(
                        (#[trigger] pairs@[u]).0.x as int,
                        pairs@[u].0.y as int,
                    ),
                forall|x2: int, y2: int|
                    #[trigger] self.seen_in(seen@, x2, y2) <==> (self.seen_in(old(seen)@, x2, y2)
                        || on_pairs(pairs@.take(t as int), x2, y2)),
            decreases pairs@.len() - t,
        {
            let q = pairs[t].0;
            proof {
                assert(0 <= (q.y as int) * self.spec_width() + (q.x as int) && (q.y as int)
                    * self.spec_width() + (q.x as int) < self.spec_width() * self.spec_height())
                    by (nonlinear_arith)
                    requires
                        0 <= (q.x as int) && (q.x as int) < self.spec_width(),
                        0 <= (q.y as int) && (q.y as int) < self.spec_height(),
                ;
            }
            let qidx = (q.y as usize) * self.width + (q.x as usize);
            let ghost seen_mid = seen@;
            seen[qidx] = true;
            proof {
                assert forall|x2: int, y2: int|
                    #[trigger] self.seen_in(seen@, x2, y2) <==> (self.seen_in(seen_mid, x2, y2)
                        || (x2 == q.x as int && y2 == q.y as int)) by {
                    if self.inside(x2, y2) {
                        assert((y2 * self.spec_width() + x2 == (q.y as int) * self.spec_width() + (
                        q.x as int) <==> (x2 == q.x as int && y2 == q.y as int)) && 0 <= y2
                            * self.spec_width() + x2 < self.spec_width() * self.spec_height())
                            by (nonlinear_arith)
                            requires
                                0 <= x2 < self.spec_width(),
                                0 <= y2 < self.spec_height(),
                                0 <= (q.x as int) && (q.x as int) < self.spec_width(),
                                0 <= (q.y as int) && (q.y as int) < self.spec_height(),
                        ;
                    }
                }
                assert forall|x2: int, y2: int|
                    on_pairs(pairs@.take(t + 1), x2, y2) <==> (on_pairs(
                        pairs@.take(t as int),
                        x2,
                        y2,
                    ) || (x2 == q.x as int && y2 == q.y as int)) by {
                    if on_pairs(pairs@.take(t + 1), x2, y2) {
                        let u = choose|u: int|
                            0 <= u < t + 1 && (#[trigger] pairs@.take(t + 1)[u]).0.x as int == x2
                                && pairs@.take(t + 1)[u].0.y as int == y2;
                        if u < t {
                            assert(pairs@.take(t as int)[u] == pairs@[u]);
                        }
                    }
                    if on_pairs(pairs@.take(t as int), x2, y2) {
                        let u = choose|u: int|
                            0 <= u < t && (#[trigger] pairs@.take(t as int)[u]).0.x as int == x2
                                && pairs@.take(t as int)[u].0.y as int == y2;
                        assert(pairs@.take(t + 1)[u] == pairs@[u]);
                    }
                    if x2 == q.x as int && y2 == q.y as int {
                        assert(pairs@.take(t + 1)[t as int] == pairs@[t as int]);
                    }
                }
                assert forall|x2: int, y2: int|
                    #[trigger] self.seen_in(seen@, x2, y2) <==> (self.seen_in(old(seen)@, x2, y2)
                        || on_pairs(pairs@.take(t + 1), x2, y2)) by {
                    assert(self.seen_in(seen_mid, x2, y2) <==> (self.seen_in(old(seen)@, x2, y2)
                        || on_pairs(pairs@.take(t as int), x2, y2)));
                    assert(on_pairs(pairs@.take(t + 1), x2, y2) <==> (on_pairs(
                        pairs@.take(t as int),
                        x2,
                        y2,
                    ) || (x2 == q.x as int && y2 == q.y as int)));
                }
            }
            t = t + 1;
        }
        proof {
            assert(pairs@.take(pairs@.len() as int) =~= pairs@);
        }
    }

    /// One step of the empty-cluster walk: if the cell is an empty in-grid
    /// cell not yet seen, mark and stack it.
    fn visit_neighbor(&self, nx: i64, ny: i64, visited: &mut Vec<bool>, stack: &mut Vec<Point>)
        requires
            self.wf(),
            old(visited)@.len() == self.spec_width() * self.spec_height(),
            old(stack)@.len() <= count_true(old(visited)@),
            -2 <= nx <= 0x4000_0000,
            -2 <= ny <= 0x4000_0000,
        ensures
            final(visited)@.len() == old(visited)@.len(),
            0 <= count_true(final(visited)@) <= final(visited)@.len(),
            final(stack)@.len() <= count_true(final(visited)@),
            4 * count_true(final(visited)@) - final(stack)@.len() >= 4 * count_true(
                old(visited)@,
            ) - old(stack)@.len(),
            forall|x: int, y: int|
                #[trigger] self.seen_in(final(visited)@, x, y) <==> (self.seen_in(
                    old(visited)@,
                    x,
                    y,
                ) || (x == nx as int && y == ny as int && self.inside(x, y) && self.char_at(x, y)
                    == BLOCK)),
            final(stack)@ == old(stack)@ || final(stack)@ == old(stack)@.push(
                pt_at(nx as int, ny as int),
            ),
            final(stack)@ != old(stack)@ ==> (final(stack)@ == old(stack)@.push(
                pt_at(nx as int, ny as int),
            ) && !self.seen_in(old(visited)@, nx as int, ny as int) && self.inside(
                nx as int,
                ny as int,
            ) && self.char_at(nx as int, ny as int) == BLOCK),
            final(stack)@ == old(stack)@ ==> final(visited)@ == old(visited)@,
    {
        proof {
            lemma_wf_bounds(*self);
            lemma_count_true_bound(old(visited)@);
        }
        let w = self.width as i64;
        let h = self.height as i64;
        if 0 <= nx && nx < w && 0 <= ny && ny < h && self.char_xy(nx, ny) == BLOCK {
            proof {
                assert(0 <= (ny as int) * self.spec_width() + nx < self.spec_width()
                    * self.spec_height()) by (nonlinear_arith)
                    requires
                        0 <= nx < self.spec_width(),
                        0 <= ny < self.spec_height(),
                ;
            }
            let idx = (ny as usize) * self.width + (nx as usize);
            if !visited[idx] {
                let ghost before = visited@;
                visited[idx] = true;
                proof {
                    lemma_count_true_update(before, idx as int, true);
                    lemma_count_true_bound(visited@);
                    assert forall|x: int, y: int|
                        #[trigger] self.seen_in(visited@, x, y) <==> (self.seen_in(before, x, y)
                            || (x == nx as int && y == ny as int)) by {
                        if self.inside(x, y) {
                            assert((y * self.spec_width() + x == (ny as int) * self.spec_width()
                                + nx <==> (x == nx as int && y == ny as int)) && 0 <= y
                                * self.spec_width() + x < self.spec_width() * self.spec_height())
                                by (nonlinear_arith)
                                requires
                                    0 <= x < self.spec_width(),
                                    0 <= y < self.spec_height(),
                                    0 <= nx < self.spec_width(),
                                    0 <= ny < self.spec_height(),
                            ;
                        }
                    }
                    assert(!self.seen_in(before, nx as int, ny as int));
                }
                stack.push(Point { x: nx as i32, y: ny as i32 });
                proof {
                    assert(stack@ == old(stack)@.push(pt_at(nx as int, ny as int)));
                }
            }
        }
    }
}

/// Whether two cells are orthogonal neighbours.
pub open spec fn adjacent_cells(a: (int, int), b: (int, int)) -> bool {
    ||| b.0 == a.0 + 1 && b.1 == a.1
    ||| b.0 == a.0 - 1 && b.1 == a.1
    ||| b.0 == a.0 && b.1 == a.1 + 1
    ||| b.0 == a.0 && b.1 == a.1 - 1
}

/// The point with the given coordinates.
pub open spec fn pt_at(x: int, y: int) -> Point {
    (Point { x: x as i32, y: y as i32 })
}

/// Whether some stack entry has the given coordinates.
spec fn on_stack(st: Seq<Point>, x: int, y: int) -> bool {
    exists|t: int| 0 <= t < st.len() && (#[trigger] st[t]).x as int == x && st[t].y as int == y
}

/// Whether cell `(ax, ay)` comes before `(bx, by)` in a row-major scan:
/// rows top to bottom, each row left to right.
pub open spec fn scan_before(ax: int, ay: int, bx: int, by: int) -> bool {
    ay < by || (ay == by && ax < bx)
}

/// Whether some pair's inside cell has the given coordinates.
spec fn on_pairs(prs: Seq<(Point, Point)>, x: int, y: int) -> bool {
    exists|t: int|
        0 <= t < prs.len() && (#[trigger] prs[t]).0.x as int == x && prs[t].0.y as int == y
}

/// A single empty cell is connected to itself.
proof fn lemma_connected_refl(g: Crosswords, x: int, y: int)
    requires
        g.inside(x, y),
        g.char_at(x, y) == BLOCK,
    ensures
        g.empty_connected(x, y, x, y),
{
    let p: Seq<(int, int)> = seq![(x, y)];
    assert(g.empty_path(p));
    assert(p.first() == (x, y) && p.last() == (x, y));
}

/// Connectivity extends over one step to an adjacent empty cell.
proof fn lemma_connected_step(g: Crosswords, sx: int, sy: int, x: int, y: int, nx: int, ny: int)
    requires
        g.empty_connected(sx, sy, x, y),
        adjacent_cells((x, y), (nx, ny)),
        g.inside(nx, ny),
        g.char_at(nx, ny) == BLOCK,
    ensures
        g.empty_connected(sx, sy, nx, ny),
{
    let p = choose|p: Seq<(int, int)>|
        g.empty_path(p) && p.first() == (sx, sy) && p.last() == (x, y);
    let p2 = p.push((nx, ny));
    assert(g.empty_path(p2)) by {
        assert forall|i: int| 0 <= i < p2.len() - 1 implies adjacent_cells(
            #[trigger] p2[i],
            p2[i + 1],
        ) by {
            if i < p.len() - 1 {
                assert(p2[i] == p[i] && p2[i + 1] == p[i + 1]);
            } else {
                assert(p2[i] == (x, y) && p2[i + 1] == (nx, ny));
            }
        }
    }
    assert(p2.first() == (sx, sy) && p2.last() == (nx, ny));
}

/// Connectivity between empty cells is symmetric: a path can be walked
/// backwards.
proof fn lemma_connected_sym(g: Crosswords, ax: int, ay: int, bx: int, by: int)
    requires
        g.empty_connected(ax, ay, bx, by),
    ensures
        g.empty_connected(bx, by, ax, ay),
{
    let p = choose|p: Seq<(int, int)>|
        g.empty_path(p) && p.first() == (ax, ay) && p.last() == (bx, by);
    let p2 = Seq::new(p.len(), |i: int| p[p.len() - 1 - i]);
    assert(g.empty_path(p2)) by {
        assert forall|i: int| 0 <= i < p2.len() - 1 implies adjacent_cells(
            #[trigger] p2[i],
            p2[i + 1],
        ) by {
            assert(adjacent_cells(p[p.len() - 2 - i], p[p.len() - 1 - i]));
        }
    }
    assert(p2.first() == (bx, by) && p2.last() == (ax, ay));
}

/// Connectivity between empty cells is transitive: two paths join.
proof fn lemma_connected_trans(
    g: Crosswords,
    ax: int,
    ay: int,
    bx: int,
    by: int,
    cx: int,
    cy: int,
)
    requires
        g.empty_connected(ax, ay, bx, by),
        g.empty_connected(bx, by, cx, cy),
    ensures
        g.empty_connected(ax, ay, cx, cy),
{
    let p1 = choose|p: Seq<(int, int)>|
        g.empty_path(p) && p.first() == (ax, ay) && p.last() == (bx, by);
    let p2 = choose|p: Seq<(int, int)>|
        g.empty_path(p) && p.first() == (bx, by) && p.last() == (cx, cy);
    if p2.len() == 1 {
        assert(g.empty_path(p1) && p1.first() == (ax, ay) && p1.last() == (cx, cy));
    } else {
        let p3 = p1 + p2.drop_first();
        assert(g.empty_path(p3)) by {
            assert(forall|i: int|
                0 <= i < p2.drop_first().len() ==> #[trigger] p2.drop_first()[i] == p2[i + 1]);
            assert forall|i: int| 0 <= i < p3.len() - 1 implies adjacent_cells(
                #[trigger] p3[i],
                p3[i + 1],
            ) by {
                if i < p1.len() - 1 {
                    assert(p3[i] == p1[i] && p3[i + 1] == p1[i + 1]);
                } else if i == p1.len() - 1 {
                    assert(p3[i] == p1.last() && p3[i + 1] == p2[1]);
                    assert(adjacent_cells(p2[0], p2[1]));
                } else {
                    assert(p3[i] == p2[i - p1.len() + 1] && p3[i + 1] == p2[i - p1.len() + 2]);
                    assert(adjacent_cells(p2[i - p1.len() + 1], p2[i - p1.len() + 2]));
                }
            }
        }
        assert(p3.first() == (ax, ay) && p3.last() == (cx, cy));
    }
}

/// Two cells of one cluster trace the same boundary pair set.
proof fn lemma_same_cluster_perimeter(g: Crosswords, ax: int, ay: int, bx: int, by: int)
    requires
        g.empty_connected(ax, ay, bx, by),
    ensures
        g.perimeter_of(ax, ay) == g.perimeter_of(bx, by),
{
    assert forall|pr: (Point, Point)|
        #[trigger] g.perimeter_of(ax, ay).contains(pr) <==> g.perimeter_of(bx, by).contains(
            pr,
        ) by {
        if g.perimeter_of(ax, ay).contains(pr) {
            lemma_connected_sym(g, ax, ay, bx, by);
            lemma_connected_trans(g, bx, by, ax, ay, pr.0.x as int, pr.0.y as int);
        }
        if g.perimeter_of(bx, by).contains(pr) {
            lemma_connected_trans(g, ax, ay, bx, by, pr.0.x as int, pr.0.y as int);
        }
    }
    assert(g.perimeter_of(ax, ay) =~= g.perimeter_of(bx, by));
}

/// In a visit map that is closed under stepping to empty neighbours, every
/// cell that an empty path reaches from a marked cell is marked.
proof fn lemma_path_all_seen(g: Crosswords, vs: Seq<bool>, p: Seq<(int, int)>)
    requires
        g.empty_path(p),
        g.seen_in(vs, p.first().0, p.first().1),
        forall|x: int, y: int| #[trigger] g.seen_in(vs, x, y) ==> g.neighbor_closed(vs, x, y),
    ensures
        g.seen_in(vs, p.last().0, p.last().1),
    decreases p.len(),
{
    if p.len() > 1 {
        let a = p[0];
        let b = p[1];
        assert(adjacent_cells(a, b));
        assert(g.neighbor_closed(vs, a.0, a.1));
        assert(g.seen_in(vs, b.0, b.1));
        let p2 = p.drop_first();
        assert(g.empty_path(p2)) by {
            assert(forall|i: int| 0 <= i < p2.len() ==> #[trigger] p2[i] == p[i + 1]);
        }
        lemma_path_all_seen(g, vs, p2);
        assert(p2.last() == p.last());
    }
}

/// All-false sequences count zero.
proof fn lemma_count_all_false(s: Seq<bool>)
    requires
        forall|i: int| 0 <= i < s.len() ==> !(#[trigger] s[i]),
    ensures
        count_true(s) == 0,
    decreases s.len(),
{
    if s.len() > 0 {
        lemma_count_all_false(s.drop_last());
    }
}

/// A boundary that the grid does not store reads as present.
pub proof fn lemma_border_default(g: Crosswords)
    ensures
        forall|x: int, y: int, d: Dir|
            !g.in_border_range(x, y, d) ==> #[trigger] g.border_at(x, y, d),
{
}

/// The dimension bounds every well-formed grid obeys.
pub proof fn lemma_wf_bounds(g: Crosswords)
    requires
        g.wf_dims(),
    ensures
        1 <= g.spec_width() <= 0x3fff_ffff,
        1 <= g.spec_height() <= 0x3fff_ffff,
        g.spec_width() * g.spec_height() <= 0x3fff_ffff,
{
}

/// A run whose boundary positions all hold boundaries counts them all.
proof fn lemma_run_true_full(g: Crosswords, px: int, py: int, dir: Dir, k: int)
    requires
        0 <= k,
        forall|a: int, b: int| on_run(px, py, dir, k, a, b) ==> #[trigger] g.border_at(a, b, dir),
    ensures
        g.run_true_borders(px, py, dir, k) == k,
    decreases k,
{
    if k > 0 {
        assert forall|a: int, b: int| on_run(px, py, dir, k - 1, a, b) implies #[trigger]
            g.border_at(a, b, dir) by {
            assert(on_run(px, py, dir, k, a, b));
        }
        lemma_run_true_full(g, px, py, dir, k - 1);
        assert(g.border_at(px + (k - 1) * dir.dx(), py + (k - 1) * dir.dy(), dir)) by {
            assert(on_run(px, py, dir, k, px + (k - 1) * dir.dx(), py + (k - 1) * dir.dy())) by {
                match dir {
                    Dir::Right => {
                    },
                    Dir::Down => {
                    },
                }
            }
        }
    }
}

/// A placement that supersedes no word removes exactly its length minus one
/// boundaries: every boundary position inside its run held a boundary before,
/// so together with `try_word`'s border-count clause, placing a word of
/// length `L` in fresh cells lowers `count_borders` by exactly `L - 1`, the
/// amount a later removal restores.
pub proof fn lemma_fresh_place_border_count(g0: Crosswords, point: Point, dir: Dir, w: Seq<char>)
    requires
        g0.wf(),
        g0.allowed_spec(point, dir, w),
        forall|a: int, b: int|
            on_run(point.x as int, point.y as int, dir, w.len() as int, a, b) ==> (
            #[trigger] g0.word_seq_at(a, b, dir)).len() <= 1,
    ensures
        g0.run_true_borders(point.x as int, point.y as int, dir, w.len() - 1) == w.len() - 1,
{
    let px = point.x as int;
    let py = point.y as int;
    let n = w.len() as int;
    assert forall|a: int, b: int| on_run(px, py, dir, n - 1, a, b) implies #[trigger] g0.border_at(
        a,
        b,
        dir,
    ) by {
        if !g0.border_at(a, b, dir) {
            assert(g0.char_at(a, b) != BLOCK);
            assert(on_run(px, py, dir, n, a, b)) by {
                match dir {
                    Dir::Right => {
                    },
                    Dir::Down => {
                    },
                }
            }
            assert(g0.inside(a, b)) by {
                assert(g0.char_at(a, b) != BLOCK);
            }
            assert(g0.word_seq_at(a, b, dir).len() <= 1);
            assert(g0.run_len(a, b, dir) <= 1);
            lemma_fwd_props(g0, a + dir.dx(), b + dir.dy(), dir);
            assert(g0.fwd_len(a, b, dir) >= 2);
            lemma_back_bound(g0, a, b, dir);
        }
    }
    lemma_run_true_full(g0, px, py, dir, n - 1);
}

/// After a removal the word is gone from its position: along the popped
/// direction, the queried cell has boundaries on both sides again, so no word
/// of two or more letters can be read there.
pub proof fn lemma_popped_word_gone(g0: Crosswords, g1: Crosswords, point: Point, dir: Dir)
    requires
        g0.wf(),
        g0.word_seq_at(point.x as int, point.y as int, dir).len() >= 2,
        popped_grid(g0, g1, point, dir),
    ensures
        g1.word_seq_at(point.x as int, point.y as int, dir).len() <= 1,
{
    let px = point.x as int;
    let py = point.y as int;
    let sx = g0.run_start_x(px, py, dir);
    let sy = g0.run_start_y(px, py, dir);
    let n = g0.word_seq_at(px, py, dir).len() as int;
    let k = g0.back_len(px, py, dir) as int;
    lemma_back_props(g0, px, py, dir);
    lemma_fwd_props(g0, sx, sy, dir);
    assert(0 <= k < n);
    assert(on_run(sx, sy, dir, n, px, py)) by {
        match dir {
            Dir::Right => {
                assert(px == sx + k * 1 && py == sy);
            },
            Dir::Down => {
                assert(py == sy + k * 1 && px == sx);
            },
        }
    }
    assert(g1.border_at(px, py, dir));
    assert(g1.border_at(px - dir.dx(), py - dir.dy(), dir)) by {
        if !on_run(sx, sy, dir, n, px - dir.dx(), py - dir.dy()) {
            // then the queried cell is the run's first, and the boundary
            // before the run stood already
            match dir {
                Dir::Right => {
                    assert(px - 1 == sx - 1 && py == sy);
                },
                Dir::Down => {
                    assert(py - 1 == sy - 1 && px == sx);
                },
            }
            assert(g0.border_at(sx - dir.dx(), sy - dir.dy(), dir));
        }
    }
    assert(g1.back_len(px, py, dir) == 0);
    assert(g1.fwd_len(px, py, dir) == 1);
    assert(g1.run_len(px, py, dir) == 1);
}

/// A vector of `n` copies of `v`.
fn filled<T: Copy>(n: usize, v: T) -> (r: Vec<T>)
    ensures
        r@.len() == n,
        forall|i: int| 0 <= i < n ==> r@[i] == v,
{
    let mut r: Vec<T> = Vec::new();
    let mut i: usize = 0;
    while i < n
        invariant
            i <= n,
            r@.len() == i,
            forall|j: int| 0 <= j < i ==> r@[j] == v,
        decreases n - i,
    {
        r.push(v);
        i = i + 1;
    }
    r
}

} // verus!

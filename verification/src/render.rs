//! Painting onto a character grid: rectangles, box-drawing character sets,
//! junction merging, the canvas and its drawing operations.
use vstd::prelude::*;
use crate::ast::{EdgeType, NodeShape};
use crate::graph::GraphIR;
use crate::layout::{LayoutNode, Point, RoutedEdge};
use crate::text::{char_is_ws, is_ws, string_from_chars, trim_end};

verus! {

// ─── Geometry ───────────────────────────────────────────────────────────────

/// A rectangle in character coordinates (top-left origin).
#[derive(Debug, Clone, Copy, PartialEq, Eq, Structural)]
pub struct Rect {
    /// Column of the left edge.
    pub x: usize,
    /// Row of the top edge.
    pub y: usize,
    pub width: usize,
    pub height: usize,
}

impl Rect {
    pub fn new(x: usize, y: usize, width: usize, height: usize) -> (r: Rect)
        ensures
            r == (Rect { x, y, width, height }),
    {
        Rect { x, y, width, height }
    }

    /// The column just right of the rectangle.
    pub fn right(&self) -> (r: usize)
        requires
            self.x + self.width <= usize::MAX,
        ensures
            r == self.x + self.width,
    {
        self.x + self.width
    }

    /// The row just below the rectangle.
    pub fn bottom(&self) -> (r: usize)
        requires
            self.y + self.height <= usize::MAX,
        ensures
            r == self.y + self.height,
    {
        self.y + self.height
    }
}

// ─── Character sets ─────────────────────────────────────────────────────────

/// Which characters boxes and lines are drawn with.
#[derive(Debug, Clone, Copy, PartialEq, Eq, Structural)]
pub enum CharSet {
    /// Unicode box-drawing characters.
    Unicode,
    /// ASCII only (`+`, `-`, `|`).
    Ascii,
}

/// The characters for boxes, lines, junctions and arrowheads.
#[derive(Debug, Clone, Copy, PartialEq, Eq, Structural)]
pub struct BoxChars {
    pub top_left: char,
    pub top_right: char,
    pub bottom_left: char,
    pub bottom_right: char,
    pub horizontal: char,
    pub vertical: char,
    pub tee_right: char,
    pub tee_left: char,
    pub tee_down: char,
    pub tee_up: char,
    pub cross: char,
    pub arrow_right: char,
    pub arrow_left: char,
    pub arrow_down: char,
    pub arrow_up: char,
}

/// The Unicode box-drawing set.
pub open spec fn unicode_chars() -> BoxChars {
    BoxChars {
        top_left: '┌',
        top_right: '┐',
        bottom_left: '└',
        bottom_right: '┘',
        horizontal: '─',
        vertical: '│',
        tee_right: '├',
        tee_left: '┤',
        tee_down: '┬',
        tee_up: '┴',
        cross: '┼',
        arrow_right: '►',
        arrow_left: '◄',
        arrow_down: '▼',
        arrow_up: '▲',
    }
}

/// The ASCII set.
pub open spec fn ascii_chars() -> BoxChars {
    BoxChars {
        top_left: '+',
        top_right: '+',
        bottom_left: '+',
        bottom_right: '+',
        horizontal: '-',
        vertical: '|',
        tee_right: '+',
        tee_left: '+',
        tee_down: '+',
        tee_up: '+',
        cross: '+',
        arrow_right: '>',
        arrow_left: '<',
        arrow_down: 'v',
        arrow_up: '^',
    }
}

/// The set for a character set choice.
pub open spec fn chars_for(cs: CharSet) -> BoxChars {
    match cs {
        CharSet::Unicode => unicode_chars(),
        CharSet::Ascii => ascii_chars(),
    }
}

impl BoxChars {
    pub fn unicode() -> (bc: BoxChars)
        ensures
            bc == unicode_chars(),
    {
        BoxChars {
            top_left: '┌',
            top_right: '┐',
            bottom_left: '└',
            bottom_right: '┘',
            horizontal: '─',
            vertical: '│',
            tee_right: '├',
            tee_left: '┤',
            tee_down: '┬',
            tee_up: '┴',
            cross: '┼',
            arrow_right: '►',
            arrow_left: '◄',
            arrow_down: '▼',
            arrow_up: '▲',
        }
    }

    pub fn ascii() -> (bc: BoxChars)
        ensures
            bc == ascii_chars(),
    {
        BoxChars {
            top_left: '+',
            top_right: '+',
            bottom_left: '+',
            bottom_right: '+',
            horizontal: '-',
            vertical: '|',
            tee_right: '+',
            tee_left: '+',
            tee_down: '+',
            tee_up: '+',
            cross: '+',
            arrow_right: '>',
            arrow_left: '<',
            arrow_down: 'v',
            arrow_up: '^',
        }
    }

    pub fn for_charset(cs: CharSet) -> (bc: BoxChars)
        ensures
            bc == chars_for(cs),
    {
        match cs {
            CharSet::Unicode => BoxChars::unicode(),
            CharSet::Ascii => BoxChars::ascii(),
        }
    }
}

// ─── Junction merging ───────────────────────────────────────────────────────

/// Which of the four arms of a cell are connected.
#[derive(Debug, Clone, Copy, Default, PartialEq, Eq, Structural)]
pub struct Arms {
    pub up: bool,
    pub down: bool,
    pub left: bool,
    pub right: bool,
}

/// The arms of a line or junction character (Unicode, or the ASCII `-`, `|`
/// and `+`), `None` for any other character.
pub open spec fn arms_of(c: char) -> Option<Arms> {
    let a = |u: bool, d: bool, l: bool, r: bool| Some(Arms { up: u, down: d, left: l, right: r });
    if c == '─' || c == '-' {
        a(false, false, true, true)
    } else if c == '│' || c == '|' {
        a(true, true, false, false)
    } else if c == '┌' {
        a(false, true, false, true)
    } else if c == '┐' {
        a(false, true, true, false)
    } else if c == '└' {
        a(true, false, false, true)
    } else if c == '┘' {
        a(true, false, true, false)
    } else if c == '├' {
        a(true, true, false, true)
    } else if c == '┤' {
        a(true, true, true, false)
    } else if c == '┬' {
        a(false, true, true, true)
    } else if c == '┴' {
        a(true, false, true, true)
    } else if c == '┼' || c == '+' {
        a(true, true, true, true)
    } else {
        None
    }
}

/// The arms of either.
pub open spec fn arms_union(a: Arms, b: Arms) -> Arms {
    Arms { up: a.up || b.up, down: a.down || b.down, left: a.left || b.left, right: a.right || b.right }
}

/// The character that draws the arms `a`: a blank for none, a line for one
/// arm or two opposite ones, else the corner, tee or cross.
pub open spec fn arms_char(a: Arms, cs: CharSet) -> char {
    let bc = chars_for(cs);
    match (a.up, a.down, a.left, a.right) {
        (false, false, false, false) => ' ',
        (false, false, true, true) => bc.horizontal,
        (true, true, false, false) => bc.vertical,
        (false, true, false, true) => bc.top_left,
        (false, true, true, false) => bc.top_right,
        (true, false, false, true) => bc.bottom_left,
        (true, false, true, false) => bc.bottom_right,
        (true, true, false, true) => bc.tee_right,
        (true, true, true, false) => bc.tee_left,
        (false, true, true, true) => bc.tee_down,
        (true, false, true, true) => bc.tee_up,
        (true, true, true, true) => bc.cross,
        (true, false, false, false) => bc.vertical,
        (false, true, false, false) => bc.vertical,
        (false, false, true, false) => bc.horizontal,
        (false, false, false, true) => bc.horizontal,
    }
}

/// What painting `c` over `existing` leaves: when both are line or junction
/// characters, the character with the arms of both; otherwise `c`.
pub open spec fn merged_char(existing: char, c: char, cs: CharSet) -> char {
    match (arms_of(existing), arms_of(c)) {
        (Some(ea), Some(na)) => arms_char(arms_union(ea, na), cs),
        _ => c,
    }
}

impl Arms {
    /// The arms of a line or junction character, `None` for any other.
    pub fn from_char(c: char) -> (r: Option<Arms>)
        ensures
            r == arms_of(c),
    {
        let (u, d, l, r) = if c == '─' || c == '-' {
            (false, false, true, true)
        } else if c == '│' || c == '|' {
            (true, true, false, false)
        } else if c == '┌' {
            (false, true, false, true)
        } else if c == '┐' {
            (false, true, true, false)
        } else if c == '└' {
            (true, false, false, true)
        } else if c == '┘' {
            (true, false, true, false)
        } else if c == '├' {
            (true, true, false, true)
        } else if c == '┤' {
            (true, true, true, false)
        } else if c == '┬' {
            (false, true, true, true)
        } else if c == '┴' {
            (true, false, true, true)
        } else if c == '┼' || c == '+' {
            (true, true, true, true)
        } else {
            return None;
        };
        Some(Arms { up: u, down: d, left: l, right: r })
    }

    /// The arms of either.
    pub fn merge(self, other: Arms) -> (r: Arms)
        ensures
            r == arms_union(self, other),
    {
        Arms {
            up: self.up || other.up,
            down: self.down || other.down,
            left: self.left || other.left,
            right: self.right || other.right,
        }
    }

    /// The character that draws these arms in the character set `cs`.
    pub fn to_char(self, cs: CharSet) -> (c: char)
        ensures
            c == arms_char(self, cs),
    {
        let bc = BoxChars::for_charset(cs);
        match (self.up, self.down, self.left, self.right) {
            (false, false, false, false) => ' ',
            (false, false, true, true) => bc.horizontal,
            (true, true, false, false) => bc.vertical,
            (false, true, false, true) => bc.top_left,
            (false, true, true, false) => bc.top_right,
            (true, false, false, true) => bc.bottom_left,
            (true, false, true, false) => bc.bottom_right,
            (true, true, false, true) => bc.tee_right,
            (true, true, true, false) => bc.tee_left,
            (false, true, true, true) => bc.tee_down,
            (true, false, true, true) => bc.tee_up,
            (true, true, true, true) => bc.cross,
            (true, false, false, false) => bc.vertical,
            (false, true, false, false) => bc.vertical,
            (false, false, true, false) => bc.horizontal,
            (false, false, false, true) => bc.horizontal,
        }
    }
}

/// Merging arms is commutative, associative and idempotent: the order in
/// which lines are painted over a cell does not change the junction drawn.
pub proof fn lemma_arms_merge_laws(a: Arms, b: Arms, c: Arms)
    ensures
        arms_union(a, b) == arms_union(b, a),
        arms_union(arms_union(a, b), c) == arms_union(a, arms_union(b, c)),
        arms_union(a, a) == a,
{
}

/// Reading a Unicode line or junction character back gives arms that draw
/// the same character.
pub proof fn lemma_unicode_roundtrip(c: char)
    requires
        c == '─' || c == '│' || c == '┌' || c == '┐' || c == '└' || c == '┘' || c == '├' || c == '┤'
            || c == '┬' || c == '┴' || c == '┼',
    ensures
        arms_of(c) is Some,
        arms_char(arms_of(c)->0, CharSet::Unicode) == c,
{
}

/// Painting a line or junction character twice over the same cell is the
/// same as painting it once.
pub proof fn lemma_merge_idempotent(existing: char, c: char, cs: CharSet)
    requires
        arms_of(existing) is Some,
        arms_of(c) is Some,
        arms_of(merged_char(existing, c, cs)) is Some,
    ensures
        merged_char(merged_char(existing, c, cs), c, cs) == merged_char(existing, c, cs),
{
    let ea = arms_of(existing)->0;
    let na = arms_of(c)->0;
    let m = arms_union(ea, na);
    let mc = arms_char(m, cs);
    let ma = arms_of(mc)->0;
    assert(arms_union(ma, na) == ma || arms_char(arms_union(ma, na), cs) == mc);
}

// ─── Canvas ─────────────────────────────────────────────────────────────────

/// A grid of characters, `height` rows of `width` columns, that diagram
/// elements are painted onto.
pub struct Canvas {
    pub width: usize,
    pub height: usize,
    /// The rows, top to bottom.
    pub cells: Vec<Vec<char>>,
    /// The character set used when junctions are merged.
    pub charset: CharSet,
}

/// The character at `(col, row)`, a blank outside the grid.
pub open spec fn cell_at(g: Seq<Seq<char>>, col: int, row: int) -> char {
    if 0 <= row < g.len() && 0 <= col < g[row].len() {
        g[row][col]
    } else {
        ' '
    }
}

/// The grid keeps its shape: `height` rows of `width` columns.
pub open spec fn same_shape(a: Seq<Seq<char>>, b: Seq<Seq<char>>) -> bool {
    a.len() == b.len() && forall|r: int| 0 <= r < a.len() ==> (#[trigger] a[r]).len() == b[r].len()
}

/// The character that outlining `rect` with `bc` puts at `(k, r)`, if any,
/// counting only the horizontal runs left of column `hcol` and the vertical
/// runs above row `vrow`.
pub open spec fn box_part(rect: Rect, bc: BoxChars, k: int, r: int, hcol: int, vrow: int) -> Option<char> {
    let x0 = rect.x as int;
    let y0 = rect.y as int;
    let x1 = rect.x + rect.width - 1;
    let y1 = rect.y + rect.height - 1;
    if rect.width < 2 || rect.height < 2 {
        None
    } else if k == x0 && r == y0 {
        Some(bc.top_left)
    } else if k == x1 && r == y0 {
        Some(bc.top_right)
    } else if k == x0 && r == y1 {
        Some(bc.bottom_left)
    } else if k == x1 && r == y1 {
        Some(bc.bottom_right)
    } else if (r == y0 || r == y1) && x0 < k < x1 && k < hcol {
        Some(bc.horizontal)
    } else if (k == x0 || k == x1) && y0 < r < y1 && r < vrow {
        Some(bc.vertical)
    } else {
        None
    }
}

/// The character that outlining `rect` with `bc` puts at `(k, r)`: corners,
/// horizontal top and bottom runs, vertical left and right runs; `None`
/// elsewhere (and everywhere for a rectangle narrower or lower than 2).
pub open spec fn box_char_at(rect: Rect, bc: BoxChars, k: int, r: int) -> Option<char> {
    box_part(rect, bc, k, r, rect.x + rect.width - 1, rect.y + rect.height - 1)
}

/// Each row without trailing whitespace, followed by a newline.
pub open spec fn rows_text(g: Seq<Seq<char>>) -> Seq<char>
    decreases g.len(),
{
    if g.len() == 0 {
        seq![]
    } else {
        rows_text(g.drop_last()) + trim_end(g.last()) + seq!['\n']
    }
}

/// `s` without its trailing newlines.
pub open spec fn strip_newlines(s: Seq<char>) -> Seq<char>
    decreases s.len(),
{
    if s.len() > 0 && s.last() == '\n' {
        strip_newlines(s.drop_last())
    } else {
        s
    }
}

/// The text of a grid: its rows without trailing whitespace, trailing empty
/// lines dropped, ending in one newline.
pub open spec fn canvas_text(g: Seq<Seq<char>>) -> Seq<char> {
    strip_newlines(rows_text(g)).push('\n')
}

/// Each cell `(k, r)` of `g` replaced by `f(r, k, old)`.
pub open spec fn map_grid(g: Seq<Seq<char>>, f: spec_fn(int, int, char) -> char) -> Seq<Seq<char>> {
    Seq::new(g.len(), |r: int| Seq::new(g[r].len(), |k: int| f(r, k, g[r][k])))
}

/// `g` after writing the text `s` from `(col, row)` rightwards (clipped).
pub open spec fn text_grid(g: Seq<Seq<char>>, col: int, row: int, s: Seq<char>) -> Seq<Seq<char>> {
    map_grid(g, |r: int, k: int, old: char| if r == row && col <= k < col + s.len() { s[k - col] } else { old })
}

/// `g` after writing `c` at `(col, row)`.
pub open spec fn set_grid(g: Seq<Seq<char>>, col: int, row: int, c: char) -> Seq<Seq<char>> {
    map_grid(g, |r: int, k: int, old: char| if r == row && k == col { c } else { old })
}

/// Reading a cell after writing one gives the character written when it is
/// the same cell inside the canvas, and what the cell held before otherwise
/// (a blank outside the canvas).
pub proof fn lemma_canvas_set_get(g: Seq<Seq<char>>, col: int, row: int, c: char, col2: int, row2: int)
    ensures
        cell_at(set_grid(g, col, row, c), col2, row2) == (if col2 == col && row2 == row && 0 <= row < g.len() && 0
            <= col < g[row].len() {
            c
        } else {
            cell_at(g, col2, row2)
        }),
{
}

/// `g` after outlining `rect` with `bc`.
pub open spec fn box_grid(g: Seq<Seq<char>>, rect: Rect, bc: BoxChars) -> Seq<Seq<char>> {
    map_grid(
        g,
        |r: int, k: int, old: char|
            match box_char_at(rect, bc, k, r) {
                Some(ch) => ch,
                None => old,
            },
    )
}

/// `g` after a horizontal line of `c` on row `y` between columns `x1` and
/// `x2`, junctions merged.
pub open spec fn hline_grid(g: Seq<Seq<char>>, y: int, x1: int, x2: int, c: char, cs: CharSet) -> Seq<Seq<char>> {
    map_grid(
        g,
        |r: int, k: int, old: char|
            if r == y && (if x1 <= x2 { x1 <= k <= x2 } else { x2 <= k <= x1 }) {
                merged_char(old, c, cs)
            } else {
                old
            },
    )
}

/// `g` after a vertical line of `c` in column `x` between rows `y1` and
/// `y2`, junctions merged.
pub open spec fn vline_grid(g: Seq<Seq<char>>, x: int, y1: int, y2: int, c: char, cs: CharSet) -> Seq<Seq<char>> {
    map_grid(
        g,
        |r: int, k: int, old: char|
            if k == x && (if y1 <= y2 { y1 <= r <= y2 } else { y2 <= r <= y1 }) {
                merged_char(old, c, cs)
            } else {
                old
            },
    )
}

/// Two grids of the same shape with the same cells are equal.
pub proof fn lemma_grid_eq(a: Seq<Seq<char>>, b: Seq<Seq<char>>)
    requires
        same_shape(a, b),
        forall|r: int, k: int| 0 <= r < a.len() && 0 <= k < a[r].len() ==> #[trigger] a[r][k] == b[r][k],
    ensures
        a == b,
{
    assert forall|r: int| 0 <= r < a.len() implies a[r] == b[r] by {
        assert(a[r] =~= b[r]);
    }
    assert(a =~= b);
}

impl Canvas {
    /// The rows of the grid.
    pub open spec fn grid(&self) -> Seq<Seq<char>> {
        self.cells@.map_values(|r: Vec<char>| r@)
    }

    /// The grid has `height` rows of `width` columns.
    pub open spec fn wf(&self) -> bool {
        &&& self.grid().len() == self.height
        &&& forall|r: int| 0 <= r < self.height ==> (#[trigger] self.grid()[r]).len() == self.width
    }

    /// A blank canvas.
    pub fn new(width: usize, height: usize, charset: CharSet) -> (c: Canvas)
        ensures
            c.wf(),
            c.width == width,
            c.height == height,
            c.charset == charset,
            forall|r: int, col: int| 0 <= r < height && 0 <= col < width ==> #[trigger] c.grid()[r][col] == ' ',
    {
        let mut cells: Vec<Vec<char>> = Vec::new();
        let mut r: usize = 0;
        while r < height
            invariant
                r <= height,
                cells@.len() == r,
                forall|i: int| 0 <= i < r ==> (#[trigger] cells@[i])@.len() == width,
                forall|i: int, col: int| 0 <= i < r && 0 <= col < width ==> #[trigger] cells@[i]@[col] == ' ',
            decreases height - r,
        {
            let mut row: Vec<char> = Vec::new();
            let mut col: usize = 0;
            while col < width
                invariant
                    col <= width,
                    row@.len() == col,
                    forall|j: int| 0 <= j < col ==> #[trigger] row@[j] == ' ',
                decreases width - col,
            {
                row.push(' ');
                col = col + 1;
            }
            cells.push(row);
            r = r + 1;
        }
        Canvas { width, height, cells, charset }
    }

    /// The character at `(col, row)`, a blank outside the canvas.
    pub fn get(&self, col: usize, row: usize) -> (c: char)
        requires
            self.wf(),
        ensures
            c == cell_at(self.grid(), col as int, row as int),
    {
        if row < self.cells.len() && col < self.cells[row].len() {
            self.cells[row][col]
        } else {
            ' '
        }
    }

    /// Writes `c` at `(col, row)`; writes outside the canvas are ignored.
    pub fn set(&mut self, col: usize, row: usize, c: char)
        requires
            old(self).wf(),
        ensures
            final(self).wf(),
            final(self).width == old(self).width,
            final(self).height == old(self).height,
            final(self).charset == old(self).charset,
            final(self).grid() == (if row < old(self).height && col < old(self).width {
                old(self).grid().update(row as int, old(self).grid()[row as int].update(col as int, c))
            } else {
                old(self).grid()
            }),
            final(self).grid() == set_grid(old(self).grid(), col as int, row as int, c),
    {
        proof {
            let g = old(self).grid();
            let t = set_grid(g, col as int, row as int, c);
            let u = if row < old(self).height && col < old(self).width {
                g.update(row as int, g[row as int].update(col as int, c))
            } else {
                g
            };
            assert forall|r: int, k: int| 0 <= r < u.len() && 0 <= k < u[r].len() implies #[trigger] u[r][k] == t[r][k] by {}
            lemma_grid_eq(u, t);
        }
        if row < self.height && col < self.width {
            let mut line = self.cells[row].clone();
            proof {
                assert(line@ =~= old(self).grid()[row as int]);
            }
            line.set(col, c);
            self.cells.set(row, line);
            proof {
                assert(self.grid() =~= old(self).grid().update(
                    row as int,
                    old(self).grid()[row as int].update(col as int, c),
                ));
            }
        }
    }

    /// Writes `c` at `(col, row)`, merging it with a line or junction
    /// character already there (a line painted over a crossing line makes
    /// a junction); outside the canvas nothing happens.
    pub fn set_merge(&mut self, col: usize, row: usize, c: char)
        requires
            old(self).wf(),
        ensures
            final(self).wf(),
            final(self).width == old(self).width,
            final(self).height == old(self).height,
            final(self).charset == old(self).charset,
            final(self).grid() == (if row < old(self).height && col < old(self).width {
                old(self).grid().update(
                    row as int,
                    old(self).grid()[row as int].update(
                        col as int,
                        merged_char(old(self).grid()[row as int][col as int], c, old(self).charset),
                    ),
                )
            } else {
                old(self).grid()
            }),
    {
        if row >= self.height || col >= self.width {
            return;
        }
        proof {
            assert(self.grid()[row as int] == self.cells@[row as int]@);
        }
        let existing = self.cells[row][col];
        proof {
            assert(existing == old(self).grid()[row as int][col as int]);
        }
        let m = match (Arms::from_char(existing), Arms::from_char(c)) {
            (Some(ea), Some(na)) => ea.merge(na).to_char(self.charset),
            _ => c,
        };
        self.set(col, row, m);
    }

    /// Draws a horizontal line of `c` on row `y` from column `x1` to `x2`
    /// (inclusive, in either order), merging junctions.
    pub fn hline(&mut self, y: usize, x1: usize, x2: usize, c: char)
        requires
            old(self).wf(),
        ensures
            final(self).wf(),
            final(self).width == old(self).width,
            final(self).height == old(self).height,
            final(self).charset == old(self).charset,
            forall|r: int, col: int|
                0 <= r < old(self).height && 0 <= col < old(self).width ==> #[trigger] final(self).grid()[r][col] == (if r
                    == y && (if x1 <= x2 {
                    x1 <= col <= x2
                } else {
                    x2 <= col <= x1
                }) {
                    merged_char(old(self).grid()[r][col], c, old(self).charset)
                } else {
                    old(self).grid()[r][col]
                }),
            final(self).grid() == hline_grid(old(self).grid(), y as int, x1 as int, x2 as int, c, old(self).charset),
    {
        let (lo, hi) = if x1 <= x2 {
            (x1, x2)
        } else {
            (x2, x1)
        };
        let mut col = lo;
        while col <= hi && col < self.width
            invariant
                self.wf(),
                old(self).wf(),
                self.width == old(self).width,
                self.height == old(self).height,
                self.charset == old(self).charset,
                lo <= col <= hi + 1,
                forall|r: int, k: int|
                    0 <= r < old(self).height && 0 <= k < old(self).width ==> #[trigger] self.grid()[r][k] == (if r
                        == y && lo <= k < col {
                        merged_char(old(self).grid()[r][k], c, old(self).charset)
                    } else {
                        old(self).grid()[r][k]
                    }),
            decreases self.width - col,
        {
            let ghost g0 = self.grid();
            self.set_merge(col, y, c);
            proof {
                assert forall|r: int, k: int|
                    0 <= r < old(self).height && 0 <= k < old(self).width implies #[trigger] self.grid()[r][k] == (if r
                        == y && lo <= k < col + 1 {
                        merged_char(old(self).grid()[r][k], c, old(self).charset)
                    } else {
                        old(self).grid()[r][k]
                    }) by {
                    assert(g0[r][k] == (if r == y && lo <= k < col {
                        merged_char(old(self).grid()[r][k], c, old(self).charset)
                    } else {
                        old(self).grid()[r][k]
                    }));
                }
            }
            col = col + 1;
        }
        proof {
            assert(col > hi || col >= old(self).width);
            assert(x1 <= x2 ==> lo == x1 && hi == x2);
            assert(x1 > x2 ==> lo == x2 && hi == x1);
            assert forall|r: int, k: int|
                0 <= r < old(self).height && 0 <= k < old(self).width implies #[trigger] self.grid()[r][k] == (if r
                    == y && (if x1 <= x2 {
                    x1 <= k <= x2
                } else {
                    x2 <= k <= x1
                }) {
                    merged_char(old(self).grid()[r][k], c, old(self).charset)
                } else {
                    old(self).grid()[r][k]
                }) by {
                assert(self.grid()[r][k] == (if r == y && lo <= k < col {
                    merged_char(old(self).grid()[r][k], c, old(self).charset)
                } else {
                    old(self).grid()[r][k]
                }));
            }
            let t = hline_grid(old(self).grid(), y as int, x1 as int, x2 as int, c, old(self).charset);
            assert forall|r: int, k: int| 0 <= r < t.len() && 0 <= k < t[r].len() implies #[trigger] self.grid()[r][k]
                == t[r][k] by {}
            lemma_grid_eq(self.grid(), t);
        }
    }

    /// Draws a vertical line of `c` in column `x` from row `y1` to `y2`
    /// (inclusive, in either order), merging junctions.
    pub fn vline(&mut self, x: usize, y1: usize, y2: usize, c: char)
        requires
            old(self).wf(),
        ensures
            final(self).wf(),
            final(self).width == old(self).width,
            final(self).height == old(self).height,
            final(self).charset == old(self).charset,
            forall|r: int, col: int|
                0 <= r < old(self).height && 0 <= col < old(self).width ==> #[trigger] final(self).grid()[r][col] == (if col
                    == x && (if y1 <= y2 {
                    y1 <= r <= y2
                } else {
                    y2 <= r <= y1
                }) {
                    merged_char(old(self).grid()[r][col], c, old(self).charset)
                } else {
                    old(self).grid()[r][col]
                }),
            final(self).grid() == vline_grid(old(self).grid(), x as int, y1 as int, y2 as int, c, old(self).charset),
    {
        let (lo, hi) = if y1 <= y2 {
            (y1, y2)
        } else {
            (y2, y1)
        };
        let mut row = lo;
        while row <= hi && row < self.height
            invariant
                self.wf(),
                old(self).wf(),
                self.width == old(self).width,
                self.height == old(self).height,
                self.charset == old(self).charset,
                lo <= row <= hi + 1,
                forall|r: int, k: int|
                    0 <= r < old(self).height && 0 <= k < old(self).width ==> #[trigger] self.grid()[r][k] == (if k
                        == x && lo <= r < row {
                        merged_char(old(self).grid()[r][k], c, old(self).charset)
                    } else {
                        old(self).grid()[r][k]
                    }),
            decreases self.height - row,
        {
            let ghost g0 = self.grid();
            self.set_merge(x, row, c);
            proof {
                assert forall|r: int, k: int|
                    0 <= r < old(self).height && 0 <= k < old(self).width implies #[trigger] self.grid()[r][k] == (if k
                        == x && lo <= r < row + 1 {
                        merged_char(old(self).grid()[r][k], c, old(self).charset)
                    } else {
                        old(self).grid()[r][k]
                    }) by {
                    assert(g0[r][k] == (if k == x && lo <= r < row {
                        merged_char(old(self).grid()[r][k], c, old(self).charset)
                    } else {
                        old(self).grid()[r][k]
                    }));
                }
            }
            row = row + 1;
        }
        proof {
            assert(row > hi || row >= old(self).height);
            assert(y1 <= y2 ==> lo == y1 && hi == y2);
            assert(y1 > y2 ==> lo == y2 && hi == y1);
            assert forall|r: int, k: int|
                0 <= r < old(self).height && 0 <= k < old(self).width implies #[trigger] self.grid()[r][k] == (if k
                    == x && (if y1 <= y2 {
                    y1 <= r <= y2
                } else {
                    y2 <= r <= y1
                }) {
                    merged_char(old(self).grid()[r][k], c, old(self).charset)
                } else {
                    old(self).grid()[r][k]
                }) by {
                assert(self.grid()[r][k] == (if k == x && lo <= r < row {
                    merged_char(old(self).grid()[r][k], c, old(self).charset)
                } else {
                    old(self).grid()[r][k]
                }));
            }
            let t = vline_grid(old(self).grid(), x as int, y1 as int, y2 as int, c, old(self).charset);
            assert forall|r: int, k: int| 0 <= r < t.len() && 0 <= k < t[r].len() implies #[trigger] self.grid()[r][k]
                == t[r][k] by {}
            lemma_grid_eq(self.grid(), t);
        }
    }

    /// Draws the outline of `rect` with the corner, horizontal and vertical
    /// characters of `bc` (nothing for a rectangle narrower or lower than 2).
    pub fn draw_box(&mut self, rect: &Rect, bc: &BoxChars)
        requires
            old(self).wf(),
            rect.width >= 2 && rect.height >= 2 ==> rect.x + rect.width <= usize::MAX && rect.y + rect.height
                <= usize::MAX,
        ensures
            final(self).wf(),
            final(self).width == old(self).width,
            final(self).height == old(self).height,
            final(self).charset == old(self).charset,
            forall|r: int, k: int|
                0 <= r < old(self).height && 0 <= k < old(self).width ==> #[trigger] final(self).grid()[r][k] == match box_char_at(
                    *rect,
                    *bc,
                    k,
                    r,
                ) {
                    Some(ch) => ch,
                    None => old(self).grid()[r][k],
                },
            final(self).grid() == box_grid(old(self).grid(), *rect, *bc),
    {
        proof {
            let t = box_grid(old(self).grid(), *rect, *bc);
            assert forall|r: int, k: int|
                0 <= r < t.len() && 0 <= k < t[r].len() implies #[trigger] t[r][k] == match box_char_at(
                    *rect,
                    *bc,
                    k,
                    r,
                ) {
                    Some(ch) => ch,
                    None => old(self).grid()[r][k],
                } by {}
        }
        if rect.width < 2 || rect.height < 2 {
            proof {
                lemma_grid_eq(self.grid(), box_grid(old(self).grid(), *rect, *bc));
            }
            return;
        }
        let x0 = rect.x;
        let y0 = rect.y;
        let x1 = rect.x + rect.width - 1;
        let y1 = rect.y + rect.height - 1;
        self.set(x0, y0, bc.top_left);
        self.set(x1, y0, bc.top_right);
        self.set(x0, y1, bc.bottom_left);
        self.set(x1, y1, bc.bottom_right);
        let mut col = x0 + 1;
        while col < x1
            invariant
                self.wf(),
                old(self).wf(),
                self.width == old(self).width,
                self.height == old(self).height,
                self.charset == old(self).charset,
                rect.width >= 2 && rect.height >= 2,
                x0 == rect.x && y0 == rect.y && x1 == rect.x + rect.width - 1 && y1 == rect.y + rect.height - 1,
                x0 < col <= x1,
                forall|r: int, k: int|
                    0 <= r < old(self).height && 0 <= k < old(self).width ==> #[trigger] self.grid()[r][k] == match box_part(
                        *rect,
                        *bc,
                        k,
                        r,
                        col as int,
                        y0 + 1,
                    ) {
                        Some(ch) => ch,
                        None => old(self).grid()[r][k],
                    },
            decreases x1 - col,
        {
            self.set(col, y0, bc.horizontal);
            self.set(col, y1, bc.horizontal);
            col = col + 1;
        }
        let mut row = y0 + 1;
        while row < y1
            invariant
                self.wf(),
                old(self).wf(),
                self.width == old(self).width,
                self.height == old(self).height,
                self.charset == old(self).charset,
                rect.width >= 2 && rect.height >= 2,
                x0 == rect.x && y0 == rect.y && x1 == rect.x + rect.width - 1 && y1 == rect.y + rect.height - 1,
                y0 < row <= y1,
                forall|r: int, k: int|
                    0 <= r < old(self).height && 0 <= k < old(self).width ==> #[trigger] self.grid()[r][k] == match box_part(
                        *rect,
                        *bc,
                        k,
                        r,
                        x1 as int,
                        row as int,
                    ) {
                        Some(ch) => ch,
                        None => old(self).grid()[r][k],
                    },
            decreases y1 - row,
        {
            self.set(x0, row, bc.vertical);
            self.set(x1, row, bc.vertical);
            row = row + 1;
        }
        proof {
            let t = box_grid(old(self).grid(), *rect, *bc);
            assert forall|r: int, k: int| 0 <= r < t.len() && 0 <= k < t[r].len() implies #[trigger] self.grid()[r][k]
                == t[r][k] by {}
            lemma_grid_eq(self.grid(), t);
        }
    }

    /// Writes the characters of `s` from `(col, row)` rightwards, stopping
    /// at the right edge of the canvas.
    pub fn write_str(&mut self, col: usize, row: usize, s: &str)
        requires
            old(self).wf(),
        ensures
            final(self).wf(),
            final(self).width == old(self).width,
            final(self).height == old(self).height,
            final(self).charset == old(self).charset,
            forall|r: int, k: int|
                0 <= r < old(self).height && 0 <= k < old(self).width ==> #[trigger] final(self).grid()[r][k] == (if r
                    == row && col <= k < col + s@.len() {
                    s@[k - col]
                } else {
                    old(self).grid()[r][k]
                }),
            final(self).grid() == text_grid(old(self).grid(), col as int, row as int, s@),
    {
        proof {
            let t = text_grid(old(self).grid(), col as int, row as int, s@);
            assert forall|r: int, k: int| 0 <= r < t.len() && 0 <= k < t[r].len() implies #[trigger] t[r][k] == (if r
                == row && col <= k < col + s@.len() {
                s@[k - col]
            } else {
                old(self).grid()[r][k]
            }) by {}
        }
        let chars = crate::text::str_chars(s);
        let mut i: usize = 0;
        while i < chars.len()
            invariant
                self.wf(),
                old(self).wf(),
                self.width == old(self).width,
                self.height == old(self).height,
                self.charset == old(self).charset,
                chars@ == s@,
                i <= chars@.len(),
                forall|r: int, k: int|
                    0 <= r < old(self).height && 0 <= k < old(self).width ==> #[trigger] self.grid()[r][k] == (if r
                        == row && col <= k < col + i {
                        s@[k - col]
                    } else {
                        old(self).grid()[r][k]
                    }),
            decreases chars@.len() - i,
        {
            if col >= self.width || i >= self.width - col || row >= self.height {
                proof {
                    assert forall|r: int, k: int|
                        0 <= r < old(self).height && 0 <= k < old(self).width implies #[trigger] self.grid()[r][k]
                        == (if r == row && col <= k < col + s@.len() {
                        s@[k - col]
                    } else {
                        old(self).grid()[r][k]
                    }) by {
                        assert(self.grid()[r][k] == (if r == row && col <= k < col + i {
                            s@[k - col]
                        } else {
                            old(self).grid()[r][k]
                        }));
                    }
                    let t = text_grid(old(self).grid(), col as int, row as int, s@);
                    assert forall|r: int, k: int| 0 <= r < t.len() && 0 <= k < t[r].len() implies #[trigger] self.grid()[r][k]
                        == t[r][k] by {}
                    lemma_grid_eq(self.grid(), t);
                }
                return;
            }
            let c = col + i;
            self.set(c, row, chars[i]);
            i = i + 1;
        }
        proof {
            let t = text_grid(old(self).grid(), col as int, row as int, s@);
            assert forall|r: int, k: int| 0 <= r < t.len() && 0 <= k < t[r].len() implies #[trigger] self.grid()[r][k]
                == t[r][k] by {}
            lemma_grid_eq(self.grid(), t);
        }
    }

    /// The canvas as text: one line per row with trailing whitespace removed,
    /// trailing empty lines dropped, ending in a single newline.
    pub fn to_string(&self) -> (t: String)
        requires
            self.wf(),
        ensures
            t@ == canvas_text(self.grid()),
    {
        let mut out: Vec<char> = Vec::new();
        let mut r: usize = 0;
        while r < self.cells.len()
            invariant
                self.wf(),
                r <= self.cells@.len(),
                out@ == rows_text(self.grid().take(r as int)),
            decreases self.cells@.len() - r,
        {
            let row = &self.cells[r];
            let n = crate::text::trim_end_len(row, row.len());
            proof {
                assert(row@.subrange(0, row@.len() as int) =~= row@);
                assert(self.grid()[r as int] == row@);
            }
            let ghost out0 = out@;
            let mut k: usize = 0;
            while k < n
                invariant
                    k <= n <= row@.len(),
                    out@ == out0 + row@.subrange(0, k as int),
                decreases n - k,
            {
                out.push(row[k]);
                proof {
                    assert(row@.subrange(0, k + 1) =~= row@.subrange(0, k as int).push(row@[k as int]));
                }
                k = k + 1;
            }
            out.push('\n');
            proof {
                let t1 = self.grid().take(r + 1);
                assert(t1.drop_last() =~= self.grid().take(r as int));
                assert(t1.last() == row@);
                assert(out@ =~= rows_text(t1));
            }
            r = r + 1;
        }
        proof {
            assert(self.grid().take(self.cells@.len() as int) =~= self.grid());
        }
        let mut len = out.len();
        proof {
            assert(out@.take(len as int) =~= out@);
        }
        while len > 0 && out[len - 1] == '\n'
            invariant
                len <= out@.len(),
                strip_newlines(out@) == strip_newlines(out@.take(len as int)),
            decreases len,
        {
            proof {
                assert(out@.take(len as int).drop_last() =~= out@.take(len - 1));
            }
            len = len - 1;
        }
        let mut res: Vec<char> = Vec::new();
        let mut i: usize = 0;
        while i < len
            invariant
                len <= out@.len(),
                i <= len,
                res@ == out@.take(i as int),
            decreases len - i,
        {
            res.push(out[i]);
            proof {
                assert(out@.take(i + 1) =~= out@.take(i as int).push(out@[i as int]));
            }
            i = i + 1;
        }
        proof {
            assert(strip_newlines(out@.take(len as int)) == out@.take(len as int));
        }
        res.push('\n');
        string_from_chars(&res)
    }
}

// ─── Text measures ──────────────────────────────────────────────────────────

/// The number of bytes of `c` in UTF-8.
pub open spec fn char_bytes(c: char) -> nat {
    if (c as u32) < 0x80 {
        1
    } else if (c as u32) < 0x800 {
        2
    } else if (c as u32) < 0x10000 {
        3
    } else {
        4
    }
}

/// The number of bytes of `s` in UTF-8 (what `str::len` counts).
pub open spec fn text_bytes(s: Seq<char>) -> nat
    decreases s.len(),
{
    if s.len() == 0 {
        0
    } else {
        text_bytes(s.drop_last()) + char_bytes(s.last())
    }
}

pub proof fn lemma_text_bytes_bound(s: Seq<char>)
    ensures
        text_bytes(s) <= 4 * s.len(),
    decreases s.len(),
{
    if s.len() > 0 {
        lemma_text_bytes_bound(s.drop_last());
    }
}

/// The UTF-8 length of `s`.
pub fn utf8_len(s: &Vec<char>) -> (n: usize)
    requires
        4 * s@.len() <= usize::MAX,
    ensures
        n == text_bytes(s@),
{
    let mut n: usize = 0;
    let mut i: usize = 0;
    while i < s.len()
        invariant
            4 * s@.len() <= usize::MAX,
            i <= s@.len(),
            n == text_bytes(s@.take(i as int)),
        decreases s@.len() - i,
    {
        let c = s[i] as u32;
        let b: usize = if c < 0x80 {
            1
        } else if c < 0x800 {
            2
        } else if c < 0x10000 {
            3
        } else {
            4
        };
        proof {
            let t1 = s@.take(i + 1);
            assert(t1.drop_last() =~= s@.take(i as int));
            assert(t1.last() == s@[i as int]);
            lemma_text_bytes_bound(s@.take(i as int));
        }
        n = n + b;
        i = i + 1;
    }
    proof {
        assert(s@.take(s@.len() as int) =~= s@);
    }
    n
}

/// The pieces of `s` between newlines (as `str::split('\n')`: one piece
/// for a text without newline, an empty piece after a trailing newline).
pub open spec fn split_lines(s: Seq<char>) -> Seq<Seq<char>>
    decreases s.len(),
{
    if s.len() == 0 {
        seq![Seq::<char>::empty()]
    } else {
        let prev = split_lines(s.drop_last());
        if s.last() == '\n' {
            prev.push(Seq::<char>::empty())
        } else {
            prev.update(prev.len() - 1, prev.last().push(s.last()))
        }
    }
}

proof fn lemma_split_lines_len(s: Seq<char>)
    ensures
        1 <= split_lines(s).len() <= s.len() + 1,
        forall|i: int| 0 <= i < split_lines(s).len() ==> (#[trigger] split_lines(s)[i]).len() <= s.len(),
    decreases s.len(),
{
    if s.len() > 0 {
        lemma_split_lines_len(s.drop_last());
    }
}

/// The lines of `s`.
pub fn split_newlines(s: &Vec<char>) -> (lines: Vec<Vec<char>>)
    ensures
        lines@.map_values(|l: Vec<char>| l@) == split_lines(s@),
{
    let mut lines: Vec<Vec<char>> = Vec::new();
    let mut cur: Vec<char> = Vec::new();
    let mut i: usize = 0;
    while i < s.len()
        invariant
            i <= s@.len(),
            lines@.map_values(|l: Vec<char>| l@).push(cur@) == split_lines(s@.take(i as int)),
        decreases s@.len() - i,
    {
        let ghost prev = split_lines(s@.take(i as int));
        proof {
            let t1 = s@.take(i + 1);
            assert(t1.drop_last() =~= s@.take(i as int));
            assert(t1.last() == s@[i as int]);
        }
        if s[i] == '\n' {
            let done = cur;
            lines.push(done);
            cur = Vec::new();
            proof {
                assert(lines@.map_values(|l: Vec<char>| l@).push(cur@) =~= prev.push(Seq::<char>::empty()));
            }
        } else {
            let ghost c0 = cur@;
            cur.push(s[i]);
            proof {
                assert(prev.last() == c0);
                assert(lines@.map_values(|l: Vec<char>| l@).push(cur@) =~= prev.update(
                    prev.len() - 1,
                    prev.last().push(s@[i as int]),
                ));
            }
        }
        i = i + 1;
    }
    lines.push(cur);
    proof {
        assert(s@.take(s@.len() as int) =~= s@);
    }
    lines
}

/// The left padding that centres a text of `n` characters in `inner` columns.
pub open spec fn centre_pad(inner: nat, n: nat) -> nat {
    if inner > n {
        ((inner - n) / 2) as nat
    } else {
        0
    }
}

// ─── Nodes ──────────────────────────────────────────────────────────────────

/// The box characters of a node shape: rounded corners for `Rounded`
/// (Unicode only), slashes for `Diamond`, parentheses and no side bars for
/// `Circle`.
pub open spec fn shape_box_chars(shape: NodeShape, cs: CharSet) -> BoxChars {
    match shape {
        NodeShape::Rectangle => chars_for(cs),
        NodeShape::Rounded => if cs == CharSet::Ascii {
            ascii_chars()
        } else {
            BoxChars { top_left: '╭', top_right: '╮', bottom_left: '╰', bottom_right: '╯', ..unicode_chars() }
        },
        NodeShape::Diamond => BoxChars {
            top_left: '/',
            top_right: '\\',
            bottom_left: '\\',
            bottom_right: '/',
            ..chars_for(cs)
        },
        NodeShape::Circle => BoxChars {
            top_left: '(',
            top_right: ')',
            bottom_left: '(',
            bottom_right: ')',
            vertical: ' ',
            ..chars_for(cs)
        },
    }
}

/// The box characters for a node shape.
pub fn box_chars_for_shape(shape: &NodeShape, cs: CharSet) -> (bc: BoxChars)
    ensures
        bc == shape_box_chars(*shape, cs),
{
    match shape {
        NodeShape::Rectangle => BoxChars::for_charset(cs),
        NodeShape::Rounded => {
            let mut bc = BoxChars::unicode();
            if cs == CharSet::Ascii {
                return BoxChars::ascii();
            }
            bc.top_left = '╭';
            bc.top_right = '╮';
            bc.bottom_left = '╰';
            bc.bottom_right = '╯';
            bc
        },
        NodeShape::Diamond => {
            let mut bc = BoxChars::for_charset(cs);
            bc.top_left = '/';
            bc.top_right = '\\';
            bc.bottom_left = '\\';
            bc.bottom_right = '/';
            bc
        },
        NodeShape::Circle => {
            let mut bc = BoxChars::for_charset(cs);
            bc.top_left = '(';
            bc.top_right = ')';
            bc.bottom_left = '(';
            bc.bottom_right = ')';
            bc.vertical = ' ';
            bc
        },
    }
}

/// `g` after writing `lines` one per row from row `y + 1`, each centred
/// (by its character count) in the `inner` columns right of column `x`.
pub open spec fn lines_grid(g: Seq<Seq<char>>, x: int, y: int, inner: nat, lines: Seq<Seq<char>>) -> Seq<Seq<char>>
    decreases lines.len(),
{
    if lines.len() == 0 {
        g
    } else {
        let prev = lines_grid(g, x, y, inner, lines.drop_last());
        let line = lines.last();
        text_grid(prev, x + 1 + centre_pad(inner, line.len()), y + lines.len(), line)
    }
}

/// `g` after painting a node: its outline, then its label lines centred
/// inside.
pub open spec fn node_grid(g: Seq<Seq<char>>, ln: LayoutNode, bc: BoxChars, label: Seq<char>) -> Seq<Seq<char>> {
    lines_grid(
        box_grid(g, Rect { x: ln.x, y: ln.y, width: ln.width, height: ln.height }, bc),
        ln.x as int,
        ln.y as int,
        if ln.width >= 2 { (ln.width - 2) as nat } else { 0 },
        split_lines(label),
    )
}

/// Paints a node: its outline in the characters of its shape, and its label,
/// line by line, centred inside.
pub fn paint_node(canvas: &mut Canvas, ln: &LayoutNode, shape: &NodeShape, label: &str)
    requires
        old(canvas).wf(),
        ln.x + ln.width + 1 <= usize::MAX,
        ln.y + ln.height + label@.len() + 2 <= usize::MAX,
    ensures
        final(canvas).wf(),
        final(canvas).width == old(canvas).width,
        final(canvas).height == old(canvas).height,
        final(canvas).charset == old(canvas).charset,
        final(canvas).grid() == node_grid(old(canvas).grid(), *ln, shape_box_chars(*shape, old(canvas).charset), label@),
{
    let x = ln.x;
    let y = ln.y;
    let w = ln.width;
    let h = ln.height;
    let bc = box_chars_for_shape(shape, canvas.charset);
    let rect = Rect::new(x, y, w, h);
    canvas.draw_box(&rect, &bc);
    let ghost g1 = canvas.grid();
    let inner_w = if w >= 2 {
        w - 2
    } else {
        0
    };
    let chars = crate::text::str_chars(label);
    let lines = split_newlines(&chars);
    let ghost lv = lines@.map_values(|l: Vec<char>| l@);
    proof {
        lemma_split_lines_len(label@);
    }
    let mut i: usize = 0;
    while i < lines.len()
        invariant
            canvas.wf(),
            canvas.width == old(canvas).width,
            canvas.height == old(canvas).height,
            canvas.charset == old(canvas).charset,
            lv == lines@.map_values(|l: Vec<char>| l@),
            lv == split_lines(label@),
            lv.len() <= label@.len() + 1,
            forall|j: int| 0 <= j < lv.len() ==> (#[trigger] lv[j]).len() <= label@.len(),
            x + w + 1 <= usize::MAX,
            y + h + label@.len() + 2 <= usize::MAX,
            inner_w == (if w >= 2 { (w - 2) as nat } else { 0 }),
            i <= lines@.len(),
            canvas.grid() == lines_grid(g1, x as int, y as int, inner_w as nat, lv.take(i as int)),
        decreases lines@.len() - i,
    {
        let line = &lines[i];
        proof {
            assert(line@ == lv[i as int]);
        }
        let label_row = y + 1 + i;
        let line_len = line.len();
        let pad = if inner_w > line_len {
            (inner_w - line_len) / 2
        } else {
            0
        };
        let col_start = x + 1 + pad;
        let text = string_from_chars(line);
        canvas.write_str(col_start, label_row, text.as_str());
        proof {
            let t1 = lv.take(i + 1);
            assert(t1.drop_last() =~= lv.take(i as int));
            assert(t1.last() == line@);
        }
        i = i + 1;
    }
    proof {
        assert(lv.take(lines@.len() as int) =~= lv);
    }
}

/// `g` after painting a compound node: its outline, its title centred on the
/// row below the top border, and its description (if any) centred on the
/// row above the bottom border.
pub open spec fn compound_grid(
    g: Seq<Seq<char>>,
    ln: LayoutNode,
    cs: CharSet,
    name: Seq<char>,
    description: Option<Seq<char>>,
) -> Seq<Seq<char>> {
    let inner: nat = if ln.width >= 2 { (ln.width - 2) as nat } else { 0 };
    let g1 = box_grid(g, Rect { x: ln.x, y: ln.y, width: ln.width, height: ln.height }, chars_for(cs));
    let g2 = text_grid(g1, ln.x + 1 + centre_pad(inner, name.len()), ln.y + 1, name);
    match description {
        Some(d) => text_grid(g2, ln.x + 1 + centre_pad(inner, d.len()), ln.y + ln.height - 2, d),
        None => g2,
    }
}

/// Paints a compound node (a collapsed subgraph) as a box with its title and
/// optional description inside.
pub fn paint_compound_node(canvas: &mut Canvas, ln: &LayoutNode, sg_name: &str, description: Option<&str>)
    requires
        old(canvas).wf(),
        ln.x + ln.width + 1 <= usize::MAX,
        ln.y + ln.height + 1 <= usize::MAX,
        description is Some ==> ln.y + ln.height >= 2,
    ensures
        final(canvas).wf(),
        final(canvas).width == old(canvas).width,
        final(canvas).height == old(canvas).height,
        final(canvas).charset == old(canvas).charset,
        final(canvas).grid() == compound_grid(
            old(canvas).grid(),
            *ln,
            old(canvas).charset,
            sg_name@,
            match description {
                Some(d) => Some(d@),
                None => None,
            },
        ),
{
    let bc = BoxChars::for_charset(canvas.charset);
    let rect = Rect::new(ln.x, ln.y, ln.width, ln.height);
    canvas.draw_box(&rect, &bc);
    let inner_w = if ln.width >= 2 {
        ln.width - 2
    } else {
        0
    };
    let name_chars = crate::text::str_chars(sg_name);
    let name_len = name_chars.len();
    let title_pad = if inner_w > name_len {
        (inner_w - name_len) / 2
    } else {
        0
    };
    canvas.write_str(ln.x + 1 + title_pad, ln.y + 1, sg_name);
    match description {
        Some(desc) => {
            let desc_chars = crate::text::str_chars(desc);
            let desc_len = desc_chars.len();
            let desc_pad = if inner_w > desc_len {
                (inner_w - desc_len) / 2
            } else {
                0
            };
            canvas.write_str(ln.x + 1 + desc_pad, ln.y + ln.height - 2, desc);
        },
        None => {},
    }
}

// ─── Edges ──────────────────────────────────────────────────────────────────

/// The horizontal and vertical line characters of an edge type: double lines
/// for thick arrows and double lines, dashed lines for dotted arrows, plain
/// lines otherwise.
pub open spec fn edge_line_chars(et: EdgeType, cs: CharSet) -> (char, char) {
    match et {
        EdgeType::ThickArrow | EdgeType::DoubleLine => ('═', '║'),
        EdgeType::DottedArrow => ('╌', '╎'),
        _ => (chars_for(cs).horizontal, chars_for(cs).vertical),
    }
}

/// The line characters for an edge type.
pub fn line_chars_for(edge_type: &EdgeType, cs: CharSet) -> (r: (char, char))
    ensures
        r == edge_line_chars(*edge_type, cs),
{
    let bc = BoxChars::for_charset(cs);
    match edge_type {
        EdgeType::ThickArrow | EdgeType::DoubleLine => ('═', '║'),
        EdgeType::DottedArrow => ('╌', '╎'),
        _ => (bc.horizontal, bc.vertical),
    }
}

/// `g` after drawing the cells strictly between `p0` and `p1` (a horizontal
/// or vertical segment; a diagonal one draws nothing). The end points are
/// drawn as waypoints.
pub open spec fn segment_grid(g: Seq<Seq<char>>, p0: Point, p1: Point, h: char, v: char, cs: CharSet) -> Seq<Seq<char>> {
    if p0.y == p1.y {
        let lo = vstd::math::min(p0.x as int, p1.x as int);
        let hi = vstd::math::max(p0.x as int, p1.x as int);
        if hi - lo >= 2 {
            hline_grid(g, p0.y as int, lo + 1, hi - 1, h, cs)
        } else {
            g
        }
    } else if p0.x == p1.x {
        let lo = vstd::math::min(p0.y as int, p1.y as int);
        let hi = vstd::math::max(p0.y as int, p1.y as int);
        if hi - lo >= 2 {
            vline_grid(g, p0.x as int, lo + 1, hi - 1, v, cs)
        } else {
            g
        }
    } else {
        g
    }
}

/// `g` after drawing the first `n` segments of the route `w`.
pub open spec fn segments_grid(g: Seq<Seq<char>>, w: Seq<Point>, n: nat, h: char, v: char, cs: CharSet) -> Seq<Seq<char>>
    decreases n,
{
    if n == 0 {
        g
    } else {
        segment_grid(segments_grid(g, w, (n - 1) as nat, h, v, cs), w[n - 1], w[n as int], h, v, cs)
    }
}

/// No arm.
pub open spec fn no_arms() -> Arms {
    Arms { up: false, down: false, left: false, right: false }
}

/// The arm from `a` toward `b` when they share a row or a column (none
/// otherwise, or when they are the same point).
pub open spec fn arm_toward(a: Point, b: Point) -> Arms {
    Arms {
        up: a.x == b.x && b.y < a.y,
        down: a.x == b.x && b.y > a.y,
        left: a.y == b.y && b.x < a.x,
        right: a.y == b.y && b.x > a.x,
    }
}

/// The directions in which the route `w` actually leaves its waypoint `k`:
/// toward the waypoint before it and the one after it.
pub open spec fn waypoint_arms(w: Seq<Point>, k: int) -> Arms {
    arms_union(
        if k > 0 {
            arm_toward(w[k], w[k - 1])
        } else {
            no_arms()
        },
        if k + 1 < w.len() {
            arm_toward(w[k], w[k + 1])
        } else {
            no_arms()
        },
    )
}

/// `g` with the arms `a` merged into the cell `(col, row)`: joined with the
/// arms of a line or junction character already there (a stub leaving a
/// border `─` makes `┬`), drawn alone over anything else; no arms change
/// nothing.
pub open spec fn arms_grid(g: Seq<Seq<char>>, col: int, row: int, a: Arms, cs: CharSet) -> Seq<Seq<char>> {
    if a == no_arms() {
        g
    } else {
        let c = match arms_of(cell_at(g, col, row)) {
            Some(ea) => arms_char(arms_union(ea, a), cs),
            None => arms_char(a, cs),
        };
        set_grid(g, col, row, c)
    }
}

/// `g` after merging the arms of the first `n` waypoints of `w`.
pub open spec fn waypoints_grid(g: Seq<Seq<char>>, w: Seq<Point>, n: nat, cs: CharSet) -> Seq<Seq<char>>
    decreases n,
{
    if n == 0 {
        g
    } else {
        let k = n - 1;
        arms_grid(waypoints_grid(g, w, k as nat, cs), w[k].x as int, w[k].y as int, waypoint_arms(w, k), cs)
    }
}

/// The arrowhead at `tip` for a route arriving from `from`.
pub open spec fn arrow_char(tip: Point, from: Point, bc: BoxChars) -> char {
    if tip.y < from.y {
        bc.arrow_up
    } else if tip.y > from.y {
        bc.arrow_down
    } else if tip.x > from.x {
        bc.arrow_right
    } else {
        bc.arrow_left
    }
}

/// Whether an edge type has an arrowhead at its target.
pub open spec fn arrow_at_end(et: EdgeType) -> bool {
    !(et is Line || et is BackArrow || et is DoubleLine)
}

/// Whether an edge type has an arrowhead at its source.
pub open spec fn arrow_at_start(et: EdgeType) -> bool {
    et is BidirArrow || et is BackArrow
}

/// `g` after painting the routed edge `w` (with optional label): the cells
/// between its waypoints in the line characters of its type, each waypoint
/// as a junction of the directions the route actually takes there (so a
/// stub leaving a box border gives a tee and a bend gives a corner), its
/// arrowheads, then its label one row above the middle waypoint. Routes of
/// fewer than two points paint nothing.
pub open spec fn edge_grid(g: Seq<Seq<char>>, w: Seq<Point>, label: Option<Seq<char>>, et: EdgeType, cs: CharSet) -> Seq<
    Seq<char>,
> {
    if w.len() < 2 {
        g
    } else {
        let (h, v) = edge_line_chars(et, cs);
        let bc = chars_for(cs);
        let g0 = segments_grid(g, w, (w.len() - 1) as nat, h, v, cs);
        let g1 = waypoints_grid(g0, w, w.len(), cs);
        let last = w[w.len() - 1];
        let g2 = if arrow_at_end(et) {
            set_grid(g1, last.x as int, last.y as int, arrow_char(last, w[w.len() - 2], bc))
        } else {
            g1
        };
        let g3 = if arrow_at_start(et) {
            set_grid(g2, w[0].x as int, w[0].y as int, arrow_char(w[0], w[1], bc))
        } else {
            g2
        };
        match label {
            Some(l) => {
                let lp = w[(w.len() / 2) as int];
                text_grid(g3, lp.x as int, if lp.y >= 1 { lp.y - 1 } else { 0 }, l)
            },
            None => g3,
        }
    }
}

proof fn lemma_segments_shape(g: Seq<Seq<char>>, w: Seq<Point>, n: nat, h: char, v: char, cs: CharSet)
    ensures
        same_shape(segments_grid(g, w, n, h, v, cs), g),
    decreases n,
{
    if n > 0 {
        lemma_segments_shape(g, w, (n - 1) as nat, h, v, cs);
    }
}

proof fn lemma_waypoints_shape(g: Seq<Seq<char>>, w: Seq<Point>, n: nat, cs: CharSet)
    ensures
        same_shape(waypoints_grid(g, w, n, cs), g),
    decreases n,
{
    if n > 0 {
        lemma_waypoints_shape(g, w, (n - 1) as nat, cs);
    }
}

/// The arrowhead at the start `a` of a route whose next point is `b`:
/// pointing away from `b`.
pub open spec fn head_away_from(a: Point, b: Point, cs: CharSet) -> char {
    if a.y < b.y {
        chars_for(cs).arrow_up
    } else if a.y > b.y {
        chars_for(cs).arrow_down
    } else if a.x > b.x {
        chars_for(cs).arrow_right
    } else {
        chars_for(cs).arrow_left
    }
}

/// An edge of the types drawn with a head at their source (`<--` and
/// `<-->`) shows, at its first waypoint, the arrowhead pointing away from
/// the second one; an edge of every type but the plain line, the back
/// arrow and the double line shows, at its last waypoint, the arrowhead
/// pointing on from the one before (unless a source head lands on it).
pub proof fn lemma_edge_arrowheads(g: Seq<Seq<char>>, w: Seq<Point>, et: EdgeType, cs: CharSet)
    requires
        w.len() >= 2,
    ensures
        (et is BackArrow || et is BidirArrow) && w[0].y < g.len() && w[0].x < g[w[0].y as int].len() ==> cell_at(
            edge_grid(g, w, None, et, cs),
            w[0].x as int,
            w[0].y as int,
        ) == head_away_from(w[0], w[1], cs),
        !(et is Line || et is BackArrow || et is DoubleLine) && w[w.len() - 1].y < g.len() && w[w.len() - 1].x
            < g[w[w.len() - 1].y as int].len() && !((et is BidirArrow) && w[0] == w[w.len() - 1]) ==> cell_at(
            edge_grid(g, w, None, et, cs),
            w[w.len() - 1].x as int,
            w[w.len() - 1].y as int,
        ) == head_away_from(w[w.len() - 1], w[w.len() - 2], cs),
{
    let (h, v) = edge_line_chars(et, cs);
    let g0 = segments_grid(g, w, (w.len() - 1) as nat, h, v, cs);
    let g1 = waypoints_grid(g0, w, w.len(), cs);
    lemma_segments_shape(g, w, (w.len() - 1) as nat, h, v, cs);
    lemma_waypoints_shape(g0, w, w.len(), cs);
    let last = w[w.len() - 1];
    let bc = chars_for(cs);
    let g2 = if arrow_at_end(et) {
        set_grid(g1, last.x as int, last.y as int, arrow_char(last, w[w.len() - 2], bc))
    } else {
        g1
    };
    assert(same_shape(g2, g));
    if arrow_at_start(et) {
        lemma_canvas_set_get(g2, w[0].x as int, w[0].y as int, arrow_char(w[0], w[1], bc), w[0].x as int, w[0].y as int);
        lemma_canvas_set_get(
            g2,
            w[0].x as int,
            w[0].y as int,
            arrow_char(w[0], w[1], bc),
            last.x as int,
            last.y as int,
        );
    }
    if arrow_at_end(et) {
        lemma_canvas_set_get(
            g1,
            last.x as int,
            last.y as int,
            arrow_char(last, w[w.len() - 2], bc),
            last.x as int,
            last.y as int,
        );
    }
}

proof fn lemma_waypoints_elsewhere(g: Seq<Seq<char>>, w: Seq<Point>, n: nat, cs: CharSet, col: int, row: int)
    requires
        n <= w.len(),
        forall|k: int| 0 <= k < n ==> !(w[k].x == col && w[k].y == row),
    ensures
        cell_at(waypoints_grid(g, w, n, cs), col, row) == cell_at(g, col, row),
    decreases n,
{
    if n > 0 {
        let k = n - 1;
        lemma_waypoints_elsewhere(g, w, k as nat, cs, col, row);
        let prev = waypoints_grid(g, w, k as nat, cs);
        let a = waypoint_arms(w, k);
        if a != no_arms() {
            let c = match arms_of(cell_at(prev, w[k].x as int, w[k].y as int)) {
                Some(ea) => arms_char(arms_union(ea, a), cs),
                None => arms_char(a, cs),
            };
            lemma_canvas_set_get(prev, w[k].x as int, w[k].y as int, c, col, row);
        }
    }
}

/// A straight edge between two waypoints is drawn, on the blank cells
/// strictly between them, in the line character of its type: dotted
/// (`╎`, `╌`) for a dotted arrow, double (`║`, `═`) for a thick arrow or a
/// double line, and the charset's plain line for every other type.
pub proof fn lemma_edge_line_chars(g: Seq<Seq<char>>, a: Point, b: Point, col: int, row: int, et: EdgeType, cs: CharSet)
    requires
        (a.x == b.x && col == a.x && (a.y < row < b.y || b.y < row < a.y)) || (a.y == b.y && row == a.y && (a.x < col
            < b.x || b.x < col < a.x)),
        0 <= row < g.len(),
        0 <= col < g[row].len(),
        g[row][col] == ' ',
    ensures
        cell_at(edge_grid(g, seq![a, b], None, et, cs), col, row) == (if a.x == b.x {
            match et {
                EdgeType::DottedArrow => '╎',
                EdgeType::ThickArrow | EdgeType::DoubleLine => '║',
                _ => chars_for(cs).vertical,
            }
        } else {
            match et {
                EdgeType::DottedArrow => '╌',
                EdgeType::ThickArrow | EdgeType::DoubleLine => '═',
                _ => chars_for(cs).horizontal,
            }
        }),
{
    let w = seq![a, b];
    let (h, v) = edge_line_chars(et, cs);
    let g0 = segments_grid(g, w, 1, h, v, cs);
    assert(segments_grid(g, w, 0, h, v, cs) == g);
    assert(g0 == segment_grid(g, a, b, h, v, cs));
    assert(arms_of(' ') is None);
    assert(cell_at(g0, col, row) == (if a.x == b.x { v } else { h }));
    lemma_waypoints_elsewhere(g0, w, 2, cs, col, row);
    let g1 = waypoints_grid(g0, w, 2, cs);
    let bc = chars_for(cs);
    let g2 = if arrow_at_end(et) {
        set_grid(g1, b.x as int, b.y as int, arrow_char(b, a, bc))
    } else {
        g1
    };
    lemma_canvas_set_get(g1, b.x as int, b.y as int, arrow_char(b, a, bc), col, row);
    lemma_canvas_set_get(g2, a.x as int, a.y as int, arrow_char(a, b, bc), col, row);
}

/// The text of an optional label.
pub open spec fn label_text(l: Option<String>) -> Option<Seq<char>> {
    match l {
        Some(s) => Some(s@),
        None => None,
    }
}

/// The arm from `a` toward `b`.
fn arm_between(a: Point, b: Point) -> (r: Arms)
    ensures
        r == arm_toward(a, b),
{
    Arms {
        up: a.x == b.x && b.y < a.y,
        down: a.x == b.x && b.y > a.y,
        left: a.y == b.y && b.x < a.x,
        right: a.y == b.y && b.x > a.x,
    }
}

/// The directions the route leaves its waypoint `k` in.
fn route_arms(w: &Vec<Point>, k: usize) -> (r: Arms)
    requires
        k < w@.len(),
    ensures
        r == waypoint_arms(w@, k as int),
{
    let before = if k > 0 {
        arm_between(w[k], w[k - 1])
    } else {
        Arms { up: false, down: false, left: false, right: false }
    };
    let after = if k < w.len() - 1 {
        arm_between(w[k], w[k + 1])
    } else {
        Arms { up: false, down: false, left: false, right: false }
    };
    before.merge(after)
}

/// Merges the arms `a` into the cell `(col, row)`.
fn merge_arms_at(canvas: &mut Canvas, col: usize, row: usize, a: Arms)
    requires
        old(canvas).wf(),
    ensures
        final(canvas).wf(),
        final(canvas).width == old(canvas).width,
        final(canvas).height == old(canvas).height,
        final(canvas).charset == old(canvas).charset,
        final(canvas).grid() == arms_grid(old(canvas).grid(), col as int, row as int, a, old(canvas).charset),
{
    if !(a.up || a.down || a.left || a.right) {
        return;
    }
    let existing = canvas.get(col, row);
    let c = match Arms::from_char(existing) {
        Some(ea) => ea.merge(a).to_char(canvas.charset),
        None => a.to_char(canvas.charset),
    };
    canvas.set(col, row, c);
}

/// Paints a routed edge: its line segments in the characters of its type,
/// its arrowheads, and its label.
pub fn paint_edge(canvas: &mut Canvas, re: &RoutedEdge, edge_type: &EdgeType)
    requires
        old(canvas).wf(),
    ensures
        final(canvas).wf(),
        final(canvas).width == old(canvas).width,
        final(canvas).height == old(canvas).height,
        final(canvas).charset == old(canvas).charset,
        final(canvas).grid() == edge_grid(old(canvas).grid(), re.waypoints@, label_text(re.label), *edge_type, old(canvas).charset),
{
    let n = re.waypoints.len();
    if n < 2 {
        return;
    }
    let cs = canvas.charset;
    let (h_ch, v_ch) = line_chars_for(edge_type, cs);
    let bc = BoxChars::for_charset(cs);
    let mut i: usize = 0;
    while i < n - 1
        invariant
            canvas.wf(),
            canvas.width == old(canvas).width,
            canvas.height == old(canvas).height,
            canvas.charset == cs,
            cs == old(canvas).charset,
            n == re.waypoints@.len(),
            n >= 2,
            i <= n - 1,
            canvas.grid() == segments_grid(old(canvas).grid(), re.waypoints@, i as nat, h_ch, v_ch, cs),
        decreases n - 1 - i,
    {
        let p0 = re.waypoints[i];
        let p1 = re.waypoints[i + 1];
        if p0.y == p1.y {
            let (lo, hi) = if p0.x <= p1.x {
                (p0.x, p1.x)
            } else {
                (p1.x, p0.x)
            };
            if hi - lo >= 2 {
                canvas.hline(p0.y, lo + 1, hi - 1, h_ch);
            }
        } else if p0.x == p1.x {
            let (lo, hi) = if p0.y <= p1.y {
                (p0.y, p1.y)
            } else {
                (p1.y, p0.y)
            };
            if hi - lo >= 2 {
                canvas.vline(p0.x, lo + 1, hi - 1, v_ch);
            }
        }
        i = i + 1;
    }
    let ghost g0 = canvas.grid();
    let mut k: usize = 0;
    while k < n
        invariant
            canvas.wf(),
            canvas.width == old(canvas).width,
            canvas.height == old(canvas).height,
            canvas.charset == cs,
            n == re.waypoints@.len(),
            k <= n,
            canvas.grid() == waypoints_grid(g0, re.waypoints@, k as nat, cs),
        decreases n - k,
    {
        let a = route_arms(&re.waypoints, k);
        merge_arms_at(canvas, re.waypoints[k].x, re.waypoints[k].y, a);
        k = k + 1;
    }
    let at_end = match edge_type {
        EdgeType::Line | EdgeType::BackArrow | EdgeType::DoubleLine => false,
        _ => true,
    };
    let at_start = match edge_type {
        EdgeType::BidirArrow | EdgeType::BackArrow => true,
        _ => false,
    };
    if at_end {
        let last = re.waypoints[n - 1];
        let prev = re.waypoints[n - 2];
        let arrow = if last.y < prev.y {
            bc.arrow_up
        } else if last.y > prev.y {
            bc.arrow_down
        } else if last.x > prev.x {
            bc.arrow_right
        } else {
            bc.arrow_left
        };
        canvas.set(last.x, last.y, arrow);
    }
    if at_start {
        let first = re.waypoints[0];
        let second = re.waypoints[1];
        let start_arrow = if first.y < second.y {
            bc.arrow_up
        } else if first.y > second.y {
            bc.arrow_down
        } else if first.x > second.x {
            bc.arrow_right
        } else {
            bc.arrow_left
        };
        canvas.set(first.x, first.y, start_arrow);
    }
    match &re.label {
        Some(label) => {
            let mid = n / 2;
            let lp = re.waypoints[mid];
            let label_y = if lp.y >= 1 {
                lp.y - 1
            } else {
                0
            };
            canvas.write_str(lp.x, label_y, label.as_str());
        },
        None => {},
    }
}

// ─── Canvas size ────────────────────────────────────────────────────────────

/// Whether an id names a dummy node.
pub open spec fn is_dummy_id(id: Seq<char>) -> bool {
    crate::text::is_prefix("__dummy_"@, id)
}

/// Whether an id names a compound node.
pub open spec fn is_compound_id(id: Seq<char>) -> bool {
    crate::text::is_prefix("__sg_"@, id)
}

/// The columns and rows the drawing needs: at least 40 × 10, and room for
/// every non-dummy node (2 columns and 4 rows beyond it) and every waypoint
/// (4 beyond it either way).
pub open spec fn nodes_extent(nodes: Seq<LayoutNode>) -> (nat, nat)
    decreases nodes.len(),
{
    if nodes.len() == 0 {
        (40, 10)
    } else {
        let (c, r) = nodes_extent(nodes.drop_last());
        let n = nodes.last();
        if is_dummy_id(n.id@) {
            (c, r)
        } else {
            (vstd::math::max(c as int, n.x + n.width + 2) as nat, vstd::math::max(r as int, n.y + n.height + 4) as nat)
        }
    }
}

/// The extent grown to hold the points `w` (4 beyond each).
pub open spec fn points_extent(ext: (nat, nat), w: Seq<Point>) -> (nat, nat)
    decreases w.len(),
{
    if w.len() == 0 {
        ext
    } else {
        let (c, r) = points_extent(ext, w.drop_last());
        (vstd::math::max(c as int, w.last().x + 4) as nat, vstd::math::max(r as int, w.last().y + 4) as nat)
    }
}

/// The extent grown to hold the waypoints of `edges`.
pub open spec fn edges_extent(ext: (nat, nat), edges: Seq<RoutedEdge>) -> (nat, nat)
    decreases edges.len(),
{
    if edges.len() == 0 {
        ext
    } else {
        points_extent(edges_extent(ext, edges.drop_last()), edges.last().waypoints@)
    }
}

/// The coordinates of the drawing stay clear of the top of `usize`.
pub open spec fn coords_fit(layout_nodes: Seq<LayoutNode>, routed_edges: Seq<RoutedEdge>) -> bool {
    &&& forall|i: int|
        0 <= i < layout_nodes.len() ==> (#[trigger] layout_nodes[i]).x + layout_nodes[i].width + 4 <= usize::MAX
            && layout_nodes[i].y + layout_nodes[i].height + 4 <= usize::MAX
    &&& forall|i: int, j: int|
        0 <= i < routed_edges.len() && 0 <= j < routed_edges[i].waypoints@.len() ==> (
        #[trigger] routed_edges[i].waypoints@[j]).x + 4 <= usize::MAX && routed_edges[i].waypoints@[j].y + 4
            <= usize::MAX
}

/// The sums that the canvas size computes fit in `usize`: right and bottom
/// edges (plus margins) of the nodes that are not dummies, and each waypoint
/// plus its margin.
pub open spec fn extent_fits(layout_nodes: Seq<LayoutNode>, routed_edges: Seq<RoutedEdge>) -> bool {
    &&& forall|i: int|
        0 <= i < layout_nodes.len() && !is_dummy_id((#[trigger] layout_nodes[i]).id@) ==> layout_nodes[i].x
            + layout_nodes[i].width + 2 <= usize::MAX && layout_nodes[i].y + layout_nodes[i].height + 4 <= usize::MAX
    &&& forall|i: int, j: int|
        0 <= i < routed_edges.len() && 0 <= j < routed_edges[i].waypoints@.len() ==> (
        #[trigger] routed_edges[i].waypoints@[j]).x + 4 <= usize::MAX && routed_edges[i].waypoints@[j].y + 4
            <= usize::MAX
}

proof fn lemma_nodes_extent_fits(nodes: Seq<LayoutNode>)
    requires
        forall|i: int|
            0 <= i < nodes.len() && !is_dummy_id((#[trigger] nodes[i]).id@) ==> nodes[i].x + nodes[i].width + 2
                <= usize::MAX && nodes[i].y + nodes[i].height + 4 <= usize::MAX,
    ensures
        nodes_extent(nodes).0 <= usize::MAX,
        nodes_extent(nodes).1 <= usize::MAX,
    decreases nodes.len(),
{
    if nodes.len() > 0 {
        assert forall|i: int| 0 <= i < nodes.drop_last().len() && !is_dummy_id((#[trigger] nodes.drop_last()[i]).id@) implies
            nodes.drop_last()[i].x + nodes.drop_last()[i].width + 2 <= usize::MAX && nodes.drop_last()[i].y
            + nodes.drop_last()[i].height + 4 <= usize::MAX by {
            assert(nodes.drop_last()[i] == nodes[i]);
        }
        lemma_nodes_extent_fits(nodes.drop_last());
        assert(nodes.last() == nodes[nodes.len() - 1]);
    }
}

/// The canvas size for the given nodes and routes.
pub fn canvas_dimensions(layout_nodes: &[LayoutNode], routed_edges: &[RoutedEdge]) -> (r: (usize, usize))
    requires
        extent_fits(layout_nodes@, routed_edges@),
    ensures
        r.0 == edges_extent(nodes_extent(layout_nodes@), routed_edges@).0,
        r.1 == edges_extent(nodes_extent(layout_nodes@), routed_edges@).1,
{
    let mut max_col: usize = 40;
    let mut max_row: usize = 10;
    let mut i: usize = 0;
    while i < layout_nodes.len()
        invariant
            extent_fits(layout_nodes@, routed_edges@),
            i <= layout_nodes@.len(),
            (max_col as nat, max_row as nat) == nodes_extent(layout_nodes@.take(i as int)),
        decreases layout_nodes@.len() - i,
    {
        let n = &layout_nodes[i];
        proof {
            let t1 = layout_nodes@.take(i + 1);
            assert(t1.drop_last() =~= layout_nodes@.take(i as int));
            assert(t1.last() == layout_nodes@[i as int]);
            reveal_strlit("__dummy_");
        }
        if !crate::text::str_starts_with_str(n.id.as_str(), "__dummy_") {
            let c = n.x + n.width + 2;
            let r = n.y + n.height + 4;
            if c > max_col {
                max_col = c;
            }
            if r > max_row {
                max_row = r;
            }
        }
        i = i + 1;
    }
    proof {
        assert(layout_nodes@.take(layout_nodes@.len() as int) =~= layout_nodes@);
        lemma_nodes_extent_fits(layout_nodes@);
    }
    let ghost base = nodes_extent(layout_nodes@);
    let mut e: usize = 0;
    while e < routed_edges.len()
        invariant
            extent_fits(layout_nodes@, routed_edges@),
            e <= routed_edges@.len(),
            base == nodes_extent(layout_nodes@),
            (max_col as nat, max_row as nat) == edges_extent(base, routed_edges@.take(e as int)),
        decreases routed_edges@.len() - e,
    {
        let re = &routed_edges[e];
        let ghost start = (max_col as nat, max_row as nat);
        let mut j: usize = 0;
        while j < re.waypoints.len()
            invariant
                extent_fits(layout_nodes@, routed_edges@),
                e < routed_edges@.len(),
                *re == routed_edges@[e as int],
                j <= re.waypoints@.len(),
                (max_col as nat, max_row as nat) == points_extent(start, re.waypoints@.take(j as int)),
            decreases re.waypoints@.len() - j,
        {
            let p = re.waypoints[j];
            proof {
                let t1 = re.waypoints@.take(j + 1);
                assert(t1.drop_last() =~= re.waypoints@.take(j as int));
                assert(t1.last() == re.waypoints@[j as int]);
            }
            if p.x + 4 > max_col {
                max_col = p.x + 4;
            }
            if p.y + 4 > max_row {
                max_row = p.y + 4;
            }
            j = j + 1;
        }
        proof {
            assert(re.waypoints@.take(re.waypoints@.len() as int) =~= re.waypoints@);
            let t1 = routed_edges@.take(e + 1);
            assert(t1.drop_last() =~= routed_edges@.take(e as int));
            assert(t1.last() == routed_edges@[e as int]);
        }
        e = e + 1;
    }
    proof {
        assert(routed_edges@.take(routed_edges@.len() as int) =~= routed_edges@);
    }
    (max_col, max_row)
}

// ─── Subgraph borders ───────────────────────────────────────────────────────

/// The last node of `nodes` with id `id` (a later node with the same id
/// shadows an earlier one).
pub open spec fn last_node(nodes: Seq<LayoutNode>, id: Seq<char>) -> Option<LayoutNode>
    decreases nodes.len(),
{
    if nodes.len() == 0 {
        None
    } else if nodes.last().id@ == id {
        Some(nodes.last())
    } else {
        last_node(nodes.drop_last(), id)
    }
}

/// The bounding box `(min x, min y, max right, max bottom)` of the members
/// that have a node, `None` when none has.
pub open spec fn member_bounds(nodes: Seq<LayoutNode>, members: Seq<String>) -> Option<(int, int, int, int)>
    decreases members.len(),
{
    if members.len() == 0 {
        None
    } else {
        let prev = member_bounds(nodes, members.drop_last());
        match last_node(nodes, members.last()@) {
            None => prev,
            Some(ln) => {
                let right = ln.x + ln.width;
                let bottom = ln.y + ln.height;
                match prev {
                    None => Some((ln.x as int, ln.y as int, right, bottom)),
                    Some((a, b, c, d)) => Some(
                        (
                            vstd::math::min(a, ln.x as int),
                            vstd::math::min(b, ln.y as int),
                            vstd::math::max(c, right),
                            vstd::math::max(d, bottom),
                        ),
                    ),
                }
            },
        }
    }
}

/// `g` after the border of one subgraph: a box 2 columns and 1 row beyond
/// its members' bounding box (clipped at 0), with ` name ` written into the
/// top border 2 columns in when it fits with 4 to spare.
pub open spec fn subgraph_border_grid(
    g: Seq<Seq<char>>,
    nodes: Seq<LayoutNode>,
    name: Seq<char>,
    members: Seq<String>,
    cs: CharSet,
) -> Seq<Seq<char>> {
    if members.len() == 0 {
        g
    } else {
        match member_bounds(nodes, members) {
            None => g,
            Some((min_x, min_y, max_x, max_y)) => {
                let bx = if min_x >= 2 { min_x - 2 } else { 0 };
                let by = if min_y >= 1 { min_y - 1 } else { 0 };
                let bw = if max_x + 2 >= bx { max_x + 2 - bx } else { 0 };
                let bh = if max_y + 1 >= by { max_y + 1 - by } else { 0 };
                let g1 = box_grid(g, Rect { x: bx as usize, y: by as usize, width: bw as usize, height: bh as usize }, chars_for(cs));
                let label = seq![' '] + name + seq![' '];
                if label.len() + 4 <= bw {
                    text_grid(g1, bx + 2, by, label)
                } else {
                    g1
                }
            },
        }
    }
}

/// `g` after the borders of the first `n` subgraphs.
pub open spec fn borders_grid(g: Seq<Seq<char>>, nodes: Seq<LayoutNode>, sgs: Seq<(String, Vec<String>)>, n: nat, cs: CharSet) -> Seq<
    Seq<char>,
>
    decreases n,
{
    if n == 0 {
        g
    } else {
        subgraph_border_grid(borders_grid(g, nodes, sgs, (n - 1) as nat, cs), nodes, sgs[n - 1].0@, sgs[n - 1].1@, cs)
    }
}

/// The last node with id `id`.
fn find_last_node<'a>(nodes: &'a [LayoutNode], id: &str) -> (r: Option<&'a LayoutNode>)
    ensures
        r matches Some(n) ==> last_node(nodes@, id@) == Some(*n),
        r is None ==> last_node(nodes@, id@) is None,
{
    let mut i: usize = nodes.len();
    proof {
        assert(nodes@.take(nodes@.len() as int) =~= nodes@);
    }
    while i > 0
        invariant
            i <= nodes@.len(),
            last_node(nodes@, id@) == last_node(nodes@.take(i as int), id@),
        decreases i,
    {
        proof {
            let t = nodes@.take(i as int);
            assert(t.drop_last() =~= nodes@.take(i - 1));
            assert(t.last() == nodes@[i - 1]);
        }
        if crate::text::str_eq(nodes[i - 1].id.as_str(), id) {
            return Some(&nodes[i - 1]);
        }
        i = i - 1;
    }
    None
}

/// Node extents stay clear of the top of `usize`.
pub open spec fn nodes_fit(nodes: Seq<LayoutNode>) -> bool {
    forall|i: int|
        0 <= i < nodes.len() ==> (#[trigger] nodes[i]).x + nodes[i].width + 4 <= usize::MAX && nodes[i].y
            + nodes[i].height + 4 <= usize::MAX
}

proof fn lemma_last_node_in(nodes: Seq<LayoutNode>, id: Seq<char>)
    ensures
        last_node(nodes, id) matches Some(n) ==> exists|i: int| 0 <= i < nodes.len() && nodes[i] == n,
    decreases nodes.len(),
{
    if nodes.len() > 0 && nodes.last().id@ != id {
        lemma_last_node_in(nodes.drop_last(), id);
        if let Some(n) = last_node(nodes.drop_last(), id) {
            let i = choose|i: int| 0 <= i < nodes.drop_last().len() && nodes.drop_last()[i] == n;
            assert(nodes[i] == n);
        }
    }
}

proof fn lemma_member_bounds_fit(nodes: Seq<LayoutNode>, members: Seq<String>)
    requires
        nodes_fit(nodes),
    ensures
        member_bounds(nodes, members) matches Some((a, b, c, d)) ==> 0 <= a && a + 4 <= usize::MAX && 0 <= b && b
            + 4 <= usize::MAX && a <= c && c + 4 <= usize::MAX && b <= d && d + 4 <= usize::MAX,
    decreases members.len(),
{
    if members.len() > 0 {
        lemma_member_bounds_fit(nodes, members.drop_last());
        lemma_last_node_in(nodes, members.last()@);
    }
}

/// Draws a border box around the members of each subgraph, with the
/// subgraph's name in its top border.
pub fn paint_subgraph_borders(gir: &GraphIR, layout_nodes: &[LayoutNode], canvas: &mut Canvas)
    requires
        old(canvas).wf(),
        nodes_fit(layout_nodes@),
        forall|i: int|
            0 <= i < gir.subgraph_members@.len() ==> (#[trigger] gir.subgraph_members@[i]).0@.len() + 6
                <= usize::MAX,
    ensures
        final(canvas).wf(),
        final(canvas).width == old(canvas).width,
        final(canvas).height == old(canvas).height,
        final(canvas).charset == old(canvas).charset,
        final(canvas).grid() == borders_grid(
            old(canvas).grid(),
            layout_nodes@,
            gir.subgraph_members@,
            gir.subgraph_members@.len(),
            old(canvas).charset,
        ),
{
    let bc = BoxChars::for_charset(canvas.charset);
    let ghost sgs = gir.subgraph_members@;
    let mut s: usize = 0;
    while s < gir.subgraph_members.len()
        invariant
            canvas.wf(),
            old(canvas).wf(),
            canvas.width == old(canvas).width,
            canvas.height == old(canvas).height,
            canvas.charset == old(canvas).charset,
            bc == chars_for(canvas.charset),
            sgs == gir.subgraph_members@,
            nodes_fit(layout_nodes@),
            forall|i: int| 0 <= i < sgs.len() ==> (#[trigger] sgs[i]).0@.len() + 6 <= usize::MAX,
            s <= sgs.len(),
            canvas.grid() == borders_grid(old(canvas).grid(), layout_nodes@, sgs, s as nat, old(canvas).charset),
        decreases sgs.len() - s,
    {
        let sg_name = &gir.subgraph_members[s].0;
        let members = &gir.subgraph_members[s].1;
        let ghost g0 = canvas.grid();
        proof {
            assert(sgs[s as int].0@.len() + 6 <= usize::MAX);
        }
        if members.len() > 0 {
            let mut min_x: usize = usize::MAX;
            let mut min_y: usize = usize::MAX;
            let mut max_x: usize = 0;
            let mut max_y: usize = 0;
            let mut m: usize = 0;
            while m < members.len()
                invariant
                    nodes_fit(layout_nodes@),
                    m <= members@.len(),
                    match member_bounds(layout_nodes@, members@.take(m as int)) {
                        None => min_x == usize::MAX && min_y == usize::MAX && max_x == 0 && max_y == 0,
                        Some((a, b, c, d)) => min_x == a && min_y == b && max_x == c && max_y == d,
                    },
                decreases members@.len() - m,
            {
                proof {
                    let t1 = members@.take(m + 1);
                    assert(t1.drop_last() =~= members@.take(m as int));
                    assert(t1.last() == members@[m as int]);
                    lemma_member_bounds_fit(layout_nodes@, members@.take(m as int));
                    lemma_last_node_in(layout_nodes@, members@[m as int]@);
                }
                match find_last_node(layout_nodes, members[m].as_str()) {
                    Some(ln) => {
                        if ln.x < min_x {
                            min_x = ln.x;
                        }
                        if ln.y < min_y {
                            min_y = ln.y;
                        }
                        let right = ln.x + ln.width;
                        let bottom = ln.y + ln.height;
                        if right > max_x {
                            max_x = right;
                        }
                        if bottom > max_y {
                            max_y = bottom;
                        }
                    },
                    None => {},
                }
                m = m + 1;
            }
            proof {
                assert(members@.take(members@.len() as int) =~= members@);
                lemma_member_bounds_fit(layout_nodes@, members@);
            }
            if min_x != usize::MAX {
                let bx = if min_x >= 2 {
                    min_x - 2
                } else {
                    0
                };
                let by = if min_y >= 1 {
                    min_y - 1
                } else {
                    0
                };
                let bw = if max_x + 2 >= bx {
                    max_x + 2 - bx
                } else {
                    0
                };
                let bh = if max_y + 1 >= by {
                    max_y + 1 - by
                } else {
                    0
                };
                let rect = Rect::new(bx, by, bw, bh);
                canvas.draw_box(&rect, &bc);
                let mut label = String::new();
                crate::text::string_push(&mut label, ' ');
                crate::text::push_str(&mut label, sg_name.as_str());
                crate::text::string_push(&mut label, ' ');
                let label_chars = crate::text::str_chars(label.as_str());
                proof {
                    assert(label@ =~= seq![' '] + sg_name@ + seq![' ']);
                }
                let label_len = label_chars.len();
                if label_len + 4 <= bw {
                    canvas.write_str(bx + 2, by, label.as_str());
                }
            }
        }
        proof {
            assert(canvas.grid() == subgraph_border_grid(g0, layout_nodes@, sgs[s as int].0@, sgs[s as int].1@, old(canvas).charset));
        }
        s = s + 1;
    }
}

// ─── Rendering a whole layout ───────────────────────────────────────────────

/// A blank grid of `h` rows of `w` columns.
pub open spec fn blank_grid(w: nat, h: nat) -> Seq<Seq<char>> {
    Seq::new(h, |r: int| Seq::new(w, |k: int| ' '))
}

/// Whether a node is a real node (neither a dummy nor a compound node).
pub open spec fn is_real_node(n: LayoutNode) -> bool {
    !is_dummy_id(n.id@) && !is_compound_id(n.id@)
}

/// The shape and label of the node with id `id` in the graph; a rectangle
/// labelled by the id when the graph has no such node.
pub open spec fn node_look(gnodes: Seq<crate::graph::NodeData>, id: Seq<char>) -> (NodeShape, Seq<char>) {
    match crate::graph::index_of(gnodes, id) {
        Some(i) => (gnodes[i as int].shape, gnodes[i as int].label@),
        None => (NodeShape::Rectangle, id),
    }
}

/// `g` after the compound nodes among the first `n` nodes.
pub open spec fn compounds_grid(g: Seq<Seq<char>>, nodes: Seq<LayoutNode>, n: nat, cs: CharSet) -> Seq<Seq<char>>
    decreases n,
{
    if n == 0 {
        g
    } else {
        let prev = compounds_grid(g, nodes, (n - 1) as nat, cs);
        let ln = nodes[n - 1];
        if is_compound_id(ln.id@) {
            compound_grid(prev, ln, cs, ln.id@.skip(5), None)
        } else {
            prev
        }
    }
}

/// `g` after the real nodes among the first `n` nodes.
pub open spec fn real_nodes_grid(
    g: Seq<Seq<char>>,
    nodes: Seq<LayoutNode>,
    gnodes: Seq<crate::graph::NodeData>,
    n: nat,
    cs: CharSet,
) -> Seq<Seq<char>>
    decreases n,
{
    if n == 0 {
        g
    } else {
        let prev = real_nodes_grid(g, nodes, gnodes, (n - 1) as nat, cs);
        let ln = nodes[n - 1];
        if is_real_node(ln) {
            let (shape, label) = node_look(gnodes, ln.id@);
            node_grid(prev, ln, shape_box_chars(shape, cs), label)
        } else {
            prev
        }
    }
}

/// `g` after the first `n` routed edges.
pub open spec fn routes_grid(g: Seq<Seq<char>>, edges: Seq<RoutedEdge>, n: nat, cs: CharSet) -> Seq<Seq<char>>
    decreases n,
{
    if n == 0 {
        g
    } else {
        let e = edges[n - 1];
        edge_grid(routes_grid(g, edges, (n - 1) as nat, cs), e.waypoints@, label_text(e.label), e.edge_type, cs)
    }
}

/// The rendered text of a layout: empty when there is no real or compound
/// node; otherwise, on a blank canvas of the needed size, the compound nodes
/// (or, when there are none, the subgraph borders), then the real nodes,
/// then the edges.
pub open spec fn render_text(
    gnodes: Seq<crate::graph::NodeData>,
    sgs: Seq<(String, Vec<String>)>,
    nodes: Seq<LayoutNode>,
    edges: Seq<RoutedEdge>,
    unicode: bool,
) -> Seq<char> {
    let cs = if unicode { CharSet::Unicode } else { CharSet::Ascii };
    let has_compounds = exists|i: int| 0 <= i < nodes.len() && is_compound_id((#[trigger] nodes[i]).id@);
    let has_real = exists|i: int| 0 <= i < nodes.len() && is_real_node(#[trigger] nodes[i]);
    if !has_compounds && !has_real {
        Seq::<char>::empty()
    } else {
        let (w, h) = edges_extent(nodes_extent(nodes), edges);
        let g0 = blank_grid(w, h);
        let g1 = if has_compounds {
            compounds_grid(g0, nodes, nodes.len(), cs)
        } else {
            borders_grid(g0, nodes, sgs, sgs.len(), cs)
        };
        let g2 = real_nodes_grid(g1, nodes, gnodes, nodes.len(), cs);
        canvas_text(routes_grid(g2, edges, edges.len(), cs))
    }
}

/// The texts drawn in nodes and borders leave room below the top of `usize`.
pub open spec fn texts_fit(gnodes: Seq<crate::graph::NodeData>, sgs: Seq<(String, Vec<String>)>, nodes: Seq<LayoutNode>) -> bool {
    &&& forall|i: int|
        0 <= i < nodes.len() ==> {
            let label = node_look(gnodes, (#[trigger] nodes[i]).id@).1;
            &&& nodes[i].y + nodes[i].height + label.len() + 4 <= usize::MAX
        }
    &&& forall|i: int| 0 <= i < sgs.len() ==> (#[trigger] sgs[i]).0@.len() + 6 <= usize::MAX
}

/// Renders a laid-out graph as text: subgraph boxes, node boxes with their
/// labels, and edges with arrowheads and labels, in Unicode box-drawing
/// characters or in ASCII.
pub fn render(gir: &GraphIR, layout_nodes: &[LayoutNode], routed_edges: &[RoutedEdge], unicode: bool) -> (t: String)
    requires
        gir.wf(),
        coords_fit(layout_nodes@, routed_edges@),
        texts_fit(gir.nodes(), gir.subgraph_members@, layout_nodes@),
    ensures
        t@ == render_text(gir.nodes(), gir.subgraph_members@, layout_nodes@, routed_edges@, unicode),
{
    let cs = if unicode {
        CharSet::Unicode
    } else {
        CharSet::Ascii
    };
    let mut has_compounds = false;
    let mut has_real = false;
    let mut i: usize = 0;
    proof {
        reveal_strlit("__dummy_");
        reveal_strlit("__sg_");
    }
    while i < layout_nodes.len()
        invariant
            i <= layout_nodes@.len(),
            has_compounds == exists|j: int| 0 <= j < i && is_compound_id((#[trigger] layout_nodes@[j]).id@),
            has_real == exists|j: int| 0 <= j < i && is_real_node(#[trigger] layout_nodes@[j]),
        decreases layout_nodes@.len() - i,
    {
        let c = crate::text::str_starts_with_str(layout_nodes[i].id.as_str(), "__sg_");
        let d = crate::text::str_starts_with_str(layout_nodes[i].id.as_str(), "__dummy_");
        proof {
            reveal_strlit("__dummy_");
            reveal_strlit("__sg_");
        }
        if c {
            has_compounds = true;
        }
        if !c && !d {
            has_real = true;
        }
        i = i + 1;
    }
    if !has_compounds && !has_real {
        return String::new();
    }
    proof {
        assert(extent_fits(layout_nodes@, routed_edges@));
        lemma_nodes_extent_fits(layout_nodes@);
    }
    let (width, height) = canvas_dimensions(layout_nodes, routed_edges);
    let mut canvas = Canvas::new(width, height, cs);
    proof {
        let b = blank_grid(width as nat, height as nat);
        assert forall|r: int, k: int| 0 <= r < b.len() && 0 <= k < b[r].len() implies #[trigger] b[r][k]
            == canvas.grid()[r][k] by {}
        lemma_grid_eq(b, canvas.grid());
    }
    let ghost g0 = canvas.grid();
    if has_compounds {
        let mut j: usize = 0;
        while j < layout_nodes.len()
            invariant
                canvas.wf(),
                canvas.charset == cs,
                coords_fit(layout_nodes@, routed_edges@),
                texts_fit(gir.nodes(), gir.subgraph_members@, layout_nodes@),
                j <= layout_nodes@.len(),
                canvas.grid() == compounds_grid(g0, layout_nodes@, j as nat, cs),
            decreases layout_nodes@.len() - j,
        {
            let ln = &layout_nodes[j];
            let c = crate::text::str_starts_with_str(ln.id.as_str(), "__sg_");
            proof {
                reveal_strlit("__sg_");

            }
            if c {
                let chars = crate::text::str_chars(ln.id.as_str());
                let mut name_chars: Vec<char> = Vec::new();
                let mut k: usize = 5;
                proof {
                    assert(chars@.len() >= 5);
                }
                while k < chars.len()
                    invariant
                        5 <= k <= chars@.len(),
                        name_chars@ == chars@.subrange(5, k as int),
                    decreases chars@.len() - k,
                {
                    name_chars.push(chars[k]);
                    proof {
                        assert(chars@.subrange(5, k + 1) =~= chars@.subrange(5, k as int).push(chars@[k as int]));
                    }
                    k = k + 1;
                }
                proof {
                    assert(name_chars@ =~= ln.id@.skip(5));
                }
                let name = string_from_chars(&name_chars);
                paint_compound_node(&mut canvas, ln, name.as_str(), None);
            }
            j = j + 1;
        }
    } else {
        paint_subgraph_borders(gir, layout_nodes, &mut canvas);
    }
    let ghost g1 = canvas.grid();
    let mut j: usize = 0;
    while j < layout_nodes.len()
        invariant
            gir.wf(),
            canvas.wf(),
            canvas.charset == cs,
            coords_fit(layout_nodes@, routed_edges@),
            texts_fit(gir.nodes(), gir.subgraph_members@, layout_nodes@),
            j <= layout_nodes@.len(),
            canvas.grid() == real_nodes_grid(g1, layout_nodes@, gir.nodes(), j as nat, cs),
        decreases layout_nodes@.len() - j,
    {
        let ln = &layout_nodes[j];
        let c = crate::text::str_starts_with_str(ln.id.as_str(), "__sg_");
        let d = crate::text::str_starts_with_str(ln.id.as_str(), "__dummy_");
        proof {
            reveal_strlit("__sg_");
            reveal_strlit("__dummy_");
            assert(layout_nodes@[j as int] == *ln);
        }
        if !c && !d {
            match gir.find(ln.id.as_str()) {
                Some(ix) => {
                    let data = crate::pgraph::ir_node(&gir.digraph, ix);
                    paint_node(&mut canvas, ln, &data.shape, data.label.as_str());
                },
                None => {
                    paint_node(&mut canvas, ln, &NodeShape::Rectangle, ln.id.as_str());
                },
            }
        }
        j = j + 1;
    }
    let ghost g2 = canvas.grid();
    let mut e: usize = 0;
    while e < routed_edges.len()
        invariant
            canvas.wf(),
            canvas.charset == cs,
            e <= routed_edges@.len(),
            canvas.grid() == routes_grid(g2, routed_edges@, e as nat, cs),
        decreases routed_edges@.len() - e,
    {
        let re = &routed_edges[e];
        paint_edge(&mut canvas, re, &re.edge_type);
        e = e + 1;
    }
    canvas.to_string()
}

} // verus!

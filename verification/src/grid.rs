//! The character grid that entities draw on and ask about.
//!
//! Every cell keeps two occupant lists. Writes of the running frame gather in
//! the current list; questions are answered from the previous list, which
//! `clear` fills at the frame boundary. A question therefore sees what the
//! last completed frame wrote, whatever the order of this frame's writes.

use vstd::prelude::*;
use crossterm::style::Color;

verus! {

/// `crossterm::style::Color`, read as crossterm declares it: an enum of named
/// colours, `Rgb { r, g, b }` and `AnsiValue(u8)`.
#[verifier::external_type_specification]
pub struct ExColor(Color);

/// The background glyph: what a cell shows in a new grid and after every
/// `clear`, until somebody writes it.
pub const BACKGROUND_GLYPH: char = ' ';

/// The background colour, which goes with the background glyph.
pub const BACKGROUND_COLOR: Color = Color::Black;

/// What a cell holds, as mathematics.
#[verifier::ext_equal]
pub struct TileView {
    pub glyph: char,
    pub color: Color,
    /// Handles that wrote the cell in the running frame, in write order.
    pub current: Seq<i64>,
    /// Handles that wrote the cell in the last completed frame.
    pub previous: Seq<i64>,
}

impl TileView {
    /// A cell that shows the background and that nobody wrote, in this
    /// frame or in the one before: the cell of a grid that was just made.
    pub open spec fn initial() -> TileView {
        TileView {
            glyph: BACKGROUND_GLYPH,
            color: BACKGROUND_COLOR,
            current: Seq::empty(),
            previous: Seq::empty(),
        }
    }

    /// The cell after one write.
    pub open spec fn written(self, glyph: char, color: Color, id: i64) -> TileView {
        TileView { glyph, color, current: self.current.push(id), previous: self.previous }
    }

    /// The cell after the frame boundary: it shows the background again,
    /// and what was written in the frame is what questions are answered from.
    pub open spec fn cleared(self) -> TileView {
        TileView { previous: self.current, ..TileView::initial() }
    }

    /// Whether the renderer has to draw the cell: it was written in this
    /// frame or in the one before.
    pub open spec fn touched(self) -> bool {
        self.current.len() > 0 || self.previous.len() > 0
    }
}

/// One cell to draw. Columns and rows count from zero.
#[derive(Clone, Copy, Debug, PartialEq, Eq)]
pub struct DrawCall {
    pub column: usize,
    pub row: usize,
    pub glyph: char,
    pub color: Color,
}

/// One write of a frame, as `Grid::write` takes it.
pub struct Stroke {
    pub x: int,
    pub y: int,
    pub glyph: char,
    pub color: Color,
    pub id: i64,
}

/// A coordinate forced into `0 .. extent`.
pub open spec fn clamp_axis(v: int, extent: nat) -> int {
    if v < 0 {
        0
    } else if v >= extent {
        extent - 1
    } else {
        v
    }
}

/// The grid as mathematics: `tiles[c][r]` is the cell in column `c`, row `r`.
#[verifier::ext_equal]
pub struct GridView {
    pub width: nat,
    pub height: nat,
    pub tiles: Seq<Seq<TileView>>,
}

impl GridView {
    /// The rectangle is as wide and high as it says, and not empty.
    pub open spec fn wf(self) -> bool {
        &&& self.width > 0
        &&& self.height > 0
        &&& self.tiles.len() == self.width
        &&& forall|c: int| 0 <= c < self.width ==> (#[trigger] self.tiles[c]).len() == self.height
    }

    /// Whether `(c, r)` is a cell of the grid.
    pub open spec fn has(self, c: int, r: int) -> bool {
        0 <= c < self.width && 0 <= r < self.height
    }

    /// A grid of `width` by `height` untouched cells.
    pub open spec fn initial(width: nat, height: nat) -> GridView {
        GridView {
            width,
            height,
            tiles: Seq::new(width, |c: int| Seq::new(height, |r: int| TileView::initial())),
        }
    }

    /// The cell that a position is clamped to.
    pub open spec fn cell(self, x: int, y: int) -> TileView {
        self.tiles[clamp_axis(x, self.width)][clamp_axis(y, self.height)]
    }

    /// The grid after `id` wrote `glyph` in `color` at `(x, y)`.
    pub open spec fn written(self, x: int, y: int, glyph: char, color: Color, id: i64) -> GridView {
        let c = clamp_axis(x, self.width);
        let r = clamp_axis(y, self.height);
        let tile = self.tiles[c][r].written(glyph, color, id);
        GridView { tiles: self.tiles.update(c, self.tiles[c].update(r, tile)), ..self }
    }

    /// The grid after the frame boundary.
    pub open spec fn cleared(self) -> GridView {
        GridView {
            tiles: Seq::new(
                self.width,
                |c: int| Seq::new(self.height, |r: int| self.tiles[c][r].cleared()),
            ),
            ..self
        }
    }

    /// The handles that an occupancy question at `(x, y)` returns.
    pub open spec fn occupants(self, x: int, y: int) -> Seq<i64> {
        self.cell(x, y).previous
    }

    /// The grid after the writes of `strokes`, first to last.
    pub open spec fn after_strokes(self, strokes: Seq<Stroke>) -> GridView
        decreases strokes.len(),
    {
        if strokes.len() == 0 {
            self
        } else {
            let s = strokes.last();
            self.after_strokes(strokes.drop_last()).written(s.x, s.y, s.glyph, s.color, s.id)
        }
    }

    /// The handles of those writes of `strokes` that land in column `c`, row
    /// `r` of this grid, first to last.
    pub open spec fn writers_of(self, strokes: Seq<Stroke>, c: int, r: int) -> Seq<i64>
        decreases strokes.len(),
    {
        if strokes.len() == 0 {
            Seq::empty()
        } else {
            let s = strokes.last();
            let earlier = self.writers_of(strokes.drop_last(), c, r);
            if self.lands(s, c, r) {
                earlier.push(s.id)
            } else {
                earlier
            }
        }
    }

    /// Whether the write `s` lands in column `c`, row `r` of this grid.
    pub open spec fn lands(self, s: Stroke, c: int, r: int) -> bool {
        clamp_axis(s.x, self.width) == c && clamp_axis(s.y, self.height) == r
    }

    /// The draw call that a flush makes for column `c`, row `r`, if it makes
    /// one.
    pub open spec fn draw_of(self, c: int, r: int) -> DrawCall {
        DrawCall {
            column: c as usize,
            row: r as usize,
            glyph: self.tiles[c][r].glyph,
            color: self.tiles[c][r].color,
        }
    }

    /// Whether a flush draws the cell in column `c`, row `r`, and `d` is the
    /// call that it makes.
    pub open spec fn draws_cell(self, c: int, r: int, d: DrawCall) -> bool {
        self.tiles[c][r].touched() && d == self.draw_of(c, r)
    }

    /// The draw call of one cell: none where the cell is untouched.
    pub open spec fn cell_draws(self, c: int, r: int) -> Seq<DrawCall> {
        if self.tiles[c][r].touched() {
            seq![self.draw_of(c, r)]
        } else {
            Seq::empty()
        }
    }

    /// The draw calls of the first `rows` cells of column `c`, top down.
    pub open spec fn column_draws(self, c: int, rows: int) -> Seq<DrawCall>
        decreases rows,
    {
        if rows <= 0 {
            Seq::empty()
        } else {
            self.column_draws(c, rows - 1) + self.cell_draws(c, rows - 1)
        }
    }

    /// The draw calls of the first `columns` columns, left to right.
    pub open spec fn draws_upto(self, columns: int) -> Seq<DrawCall>
        decreases columns,
    {
        if columns <= 0 {
            Seq::empty()
        } else {
            self.draws_upto(columns - 1) + self.column_draws(columns - 1, self.height as int)
        }
    }

    /// What a flush hands to the renderer: every touched cell once, column by
    /// column and top down within a column.
    pub open spec fn draws(self) -> Seq<DrawCall> {
        self.draws_upto(self.width as int)
    }
}

/// A position is always clamped to a cell of the grid, and a position inside
/// the grid is its own cell.
pub proof fn lemma_clamp_axis(v: int, extent: nat)
    requires
        extent > 0,
    ensures
        0 <= clamp_axis(v, extent) < extent,
        0 <= v < extent ==> clamp_axis(v, extent) == v,
        v < 0 ==> clamp_axis(v, extent) == 0,
        v >= extent ==> clamp_axis(v, extent) == extent - 1,
{
}

/// A write changes one cell, the one its position is clamped to, and keeps
/// the shape of the grid.
pub proof fn lemma_written_changes_one_cell(
    g: GridView,
    x: int,
    y: int,
    glyph: char,
    color: Color,
    id: i64,
)
    requires
        g.wf(),
    ensures
        g.written(x, y, glyph, color, id).wf(),
        g.written(x, y, glyph, color, id).width == g.width,
        g.written(x, y, glyph, color, id).height == g.height,
        g.written(x, y, glyph, color, id).cell(x, y) == g.cell(x, y).written(glyph, color, id),
        forall|c: int, r: int|
            g.has(c, r) && !(c == clamp_axis(x, g.width) && r == clamp_axis(y, g.height))
                ==> #[trigger] g.written(x, y, glyph, color, id).tiles[c][r] == g.tiles[c][r],
{
}

/// The frame boundary keeps the shape of the grid and turns every cell over.
pub proof fn lemma_cleared_turns_every_cell(g: GridView)
    requires
        g.wf(),
    ensures
        g.cleared().wf(),
        g.cleared().width == g.width,
        g.cleared().height == g.height,
        forall|c: int, r: int|
            g.has(c, r) ==> #[trigger] g.cleared().tiles[c][r] == g.tiles[c][r].cleared(),
{
}

/// A new grid shows what `clear` restores: clearing it changes nothing.
pub proof fn lemma_new_grid_is_clear(width: nat, height: nat)
    ensures
        GridView::initial(width, height).cleared() == GridView::initial(width, height),
{
    let g = GridView::initial(width, height);
    assert(g.cleared() =~~= g);
}

/// Occupancy lags by one frame, first half: a write does not change the
/// answer to any occupancy question asked before the next frame boundary.
pub proof fn lemma_write_is_hidden_until_clear(
    g: GridView,
    x: int,
    y: int,
    glyph: char,
    color: Color,
    id: i64,
    qx: int,
    qy: int,
)
    requires
        g.wf(),
    ensures
        g.written(x, y, glyph, color, id).occupants(qx, qy) == g.occupants(qx, qy),
{
}

/// Occupancy lags by one frame, second half: after the frame boundary a
/// question at the written position returns the writer, behind those that
/// wrote the cell earlier in the frame.
pub proof fn lemma_write_is_seen_after_clear(
    g: GridView,
    x: int,
    y: int,
    glyph: char,
    color: Color,
    id: i64,
)
    requires
        g.wf(),
    ensures
        g.written(x, y, glyph, color, id).cleared().occupants(x, y) == g.cell(x, y).current.push(
            id,
        ),
        g.written(x, y, glyph, color, id).cleared().occupants(x, y).contains(id),
{
    let after = g.written(x, y, glyph, color, id).cleared().occupants(x, y);
    assert(after =~= g.cell(x, y).current.push(id));
    assert(after[after.len() - 1] == id);
}

/// A sequence of writes keeps the shape of the grid and the answers to all
/// occupancy questions, and adds to the current list of each cell the
/// handles of the writes that land in it.
pub proof fn lemma_after_strokes(g: GridView, strokes: Seq<Stroke>)
    requires
        g.wf(),
    ensures
        g.after_strokes(strokes).wf(),
        g.after_strokes(strokes).width == g.width,
        g.after_strokes(strokes).height == g.height,
        forall|c: int, r: int|
            g.has(c, r) ==> {
                &&& (#[trigger] g.after_strokes(strokes).tiles[c][r]).previous
                    == g.tiles[c][r].previous
                &&& g.after_strokes(strokes).tiles[c][r].current == g.tiles[c][r].current
                    + g.writers_of(strokes, c, r)
            },
    decreases strokes.len(),
{
    let after = g.after_strokes(strokes);
    if strokes.len() == 0 {
        assert forall|c: int, r: int| g.has(c, r) implies (#[trigger] after.tiles[c][r]).current
            =~= g.tiles[c][r].current + g.writers_of(strokes, c, r) by {}
    } else {
        let s = strokes.last();
        let before = g.after_strokes(strokes.drop_last());
        lemma_after_strokes(g, strokes.drop_last());
        lemma_written_changes_one_cell(before, s.x, s.y, s.glyph, s.color, s.id);
        assert(after == before.written(s.x, s.y, s.glyph, s.color, s.id));
        assert forall|c: int, r: int| g.has(c, r) implies {
            &&& (#[trigger] after.tiles[c][r]).previous == g.tiles[c][r].previous
            &&& after.tiles[c][r].current == g.tiles[c][r].current + g.writers_of(strokes, c, r)
        } by {
            let sum = g.tiles[c][r].current + g.writers_of(strokes, c, r);
            assert(before.has(c, r));
            if g.lands(s, c, r) {
                assert(after.tiles[c][r] == before.tiles[c][r].written(s.glyph, s.color, s.id));
                assert(after.tiles[c][r].current =~= sum);
            } else {
                assert(after.tiles[c][r] == before.tiles[c][r]);
            }
        }
    }
}

/// Writing two runs of strokes, one after the other, is writing the one run
/// that holds both.
pub proof fn lemma_after_strokes_of_runs(g: GridView, a: Seq<Stroke>, b: Seq<Stroke>)
    ensures
        g.after_strokes(a + b) == g.after_strokes(a).after_strokes(b),
    decreases b.len(),
{
    if b.len() == 0 {
        assert(a + b =~= a);
    } else {
        lemma_after_strokes_of_runs(g, a, b.drop_last());
        assert((a + b).drop_last() =~= a + b.drop_last());
        assert((a + b).last() == b.last());
    }
}

/// Which writes land in a cell depends on the shape of the grid alone.
proof fn lemma_writers_of_depends_on_shape(
    a: GridView,
    b: GridView,
    strokes: Seq<Stroke>,
    c: int,
    r: int,
)
    requires
        a.width == b.width,
        a.height == b.height,
    ensures
        a.writers_of(strokes, c, r) == b.writers_of(strokes, c, r),
    decreases strokes.len(),
{
    if strokes.len() > 0 {
        lemma_writers_of_depends_on_shape(a, b, strokes.drop_last(), c, r);
    }
}

/// Occupancy over a whole frame: between two frame boundaries, a question
/// is answered with what the frame before wrote; after the second boundary
/// it is answered with the writers of this frame, in write order. A handle
/// that did not write the cell in this frame is no longer returned.
pub proof fn lemma_frame_occupancy(g: GridView, strokes: Seq<Stroke>, qx: int, qy: int)
    requires
        g.wf(),
    ensures
        g.cleared().after_strokes(strokes).occupants(qx, qy) == g.cell(qx, qy).current,
        g.cleared().after_strokes(strokes).cleared().occupants(qx, qy) == g.writers_of(
            strokes,
            clamp_axis(qx, g.width),
            clamp_axis(qy, g.height),
        ),
{
    let c = clamp_axis(qx, g.width);
    let r = clamp_axis(qy, g.height);
    let start = g.cleared();
    let mid = start.after_strokes(strokes);
    lemma_cleared_turns_every_cell(g);
    lemma_after_strokes(start, strokes);
    lemma_cleared_turns_every_cell(mid);
    assert(g.has(c, r) && start.has(c, r) && mid.has(c, r));
    assert(mid.tiles[c][r].previous == start.tiles[c][r].previous);
    assert(mid.tiles[c][r].current =~= start.writers_of(strokes, c, r));
    lemma_writers_of_depends_on_shape(g, start, strokes, c, r);
}

/// Whether the write at place `k` of `strokes` is made in the name of `id`
/// and lands in column `c`, row `r` of `g`.
pub open spec fn writes_there(
    g: GridView,
    strokes: Seq<Stroke>,
    k: int,
    c: int,
    r: int,
    id: i64,
) -> bool {
    0 <= k < strokes.len() && strokes[k].id == id && g.lands(strokes[k], c, r)
}

/// A handle is among the writers of a cell exactly if one of the writes that
/// land in the cell is made in its name.
pub proof fn lemma_writers_of_contains(g: GridView, strokes: Seq<Stroke>, c: int, r: int, id: i64)
    ensures
        g.writers_of(strokes, c, r).contains(id) <==> exists|k: int|
            writes_there(g, strokes, k, c, r, id),
    decreases strokes.len(),
{
    if strokes.len() > 0 {
        let s = strokes.last();
        let earlier = strokes.drop_last();
        let sooner = g.writers_of(earlier, c, r);
        let all = g.writers_of(strokes, c, r);
        lemma_writers_of_contains(g, earlier, c, r, id);
        if all.contains(id) {
            if g.lands(s, c, r) && s.id == id {
                assert(writes_there(g, strokes, strokes.len() - 1, c, r, id));
            } else {
                if g.lands(s, c, r) {
                    let j = choose|j: int| 0 <= j < all.len() && all[j] == id;
                    assert(sooner[j] == id);
                }
                assert(sooner.contains(id));
                let k = choose|k: int| writes_there(g, earlier, k, c, r, id);
                assert(strokes[k] == earlier[k]);
                assert(writes_there(g, strokes, k, c, r, id));
            }
        }
        if exists|k: int| writes_there(g, strokes, k, c, r, id) {
            let k = choose|k: int| writes_there(g, strokes, k, c, r, id);
            if k == strokes.len() - 1 {
                assert(all[all.len() - 1] == id);
            } else {
                assert(earlier[k] == strokes[k]);
                assert(writes_there(g, earlier, k, c, r, id));
                let j = choose|j: int| 0 <= j < sooner.len() && sooner[j] == id;
                assert(all[j] == id);
            }
        }
    }
}

/// A flush draws the first `rows` cells of a column exactly where they are
/// touched.
proof fn lemma_column_draws(g: GridView, c: int, rows: int, d: DrawCall)
    requires
        g.wf(),
        0 <= c < g.width,
        0 <= rows <= g.height,
    ensures
        g.column_draws(c, rows).contains(d) <==> exists|r: int|
            0 <= r < rows && g.draws_cell(c, r, d),
    decreases rows,
{
    if rows > 0 {
        let earlier = g.column_draws(c, rows - 1);
        let cell = g.cell_draws(c, rows - 1);
        let all = g.column_draws(c, rows);
        lemma_column_draws(g, c, rows - 1, d);
        assert(all == earlier + cell);
        if all.contains(d) {
            let j = choose|j: int| 0 <= j < all.len() && all[j] == d;
            if j < earlier.len() {
                assert(earlier[j] == d);
                assert(earlier.contains(d));
                let r = choose|r: int| 0 <= r < rows - 1 && g.draws_cell(c, r, d);
                assert(0 <= r < rows && g.draws_cell(c, r, d));
            } else {
                assert(cell[j - earlier.len()] == d);
                assert(g.draws_cell(c, rows - 1, d));
            }
        }
        if exists|r: int| 0 <= r < rows && g.draws_cell(c, r, d) {
            let r = choose|r: int| 0 <= r < rows && g.draws_cell(c, r, d);
            if r == rows - 1 {
                assert(cell[0] == d);
                assert(all[earlier.len() as int] == d);
            } else {
                assert(0 <= r < rows - 1 && g.draws_cell(c, r, d));
                let j = choose|j: int| 0 <= j < earlier.len() && earlier[j] == d;
                assert(all[j] == d);
            }
        }
    }
}

/// A flush draws the first `columns` columns exactly where they are touched.
proof fn lemma_draws_upto(g: GridView, columns: int, d: DrawCall)
    requires
        g.wf(),
        0 <= columns <= g.width,
    ensures
        g.draws_upto(columns).contains(d) <==> exists|c: int, r: int|
            0 <= c < columns && 0 <= r < g.height && g.draws_cell(c, r, d),
    decreases columns,
{
    if columns > 0 {
        let last = columns - 1;
        let earlier = g.draws_upto(last);
        let column = g.column_draws(last, g.height as int);
        let all = g.draws_upto(columns);
        lemma_draws_upto(g, last, d);
        lemma_column_draws(g, last, g.height as int, d);
        assert(all == earlier + column);
        if all.contains(d) {
            let j = choose|j: int| 0 <= j < all.len() && all[j] == d;
            if j < earlier.len() {
                assert(earlier[j] == d);
                assert(earlier.contains(d));
                let (c, r) = choose|c: int, r: int|
                    0 <= c < last && 0 <= r < g.height && g.draws_cell(c, r, d);
                assert(0 <= c < columns && 0 <= r < g.height && g.draws_cell(c, r, d));
            } else {
                assert(column[j - earlier.len()] == d);
                assert(column.contains(d));
                let r = choose|r: int| 0 <= r < g.height && g.draws_cell(last, r, d);
                assert(0 <= last < columns && 0 <= r < g.height && g.draws_cell(last, r, d));
            }
        }
        if exists|c: int, r: int| 0 <= c < columns && 0 <= r < g.height && g.draws_cell(c, r, d) {
            let (c, r) = choose|c: int, r: int|
                0 <= c < columns && 0 <= r < g.height && g.draws_cell(c, r, d);
            if c == last {
                assert(0 <= r < g.height && g.draws_cell(last, r, d));
                let j = choose|j: int| 0 <= j < column.len() && column[j] == d;
                assert(all[earlier.len() + j] == d);
            } else {
                assert(0 <= c < last && 0 <= r < g.height && g.draws_cell(c, r, d));
                let j = choose|j: int| 0 <= j < earlier.len() && earlier[j] == d;
                assert(all[j] == d);
            }
        }
    }
}

/// A flush draws a cell if and only if the cell was written in this frame or
/// in the one before; a cell that is empty in both lists is skipped.
pub proof fn lemma_draws_are_the_touched_cells(g: GridView, d: DrawCall)
    requires
        g.wf(),
    ensures
        g.draws().contains(d) <==> exists|c: int, r: int| g.has(c, r) && g.draws_cell(c, r, d),
{
    lemma_draws_upto(g, g.width as int, d);
    if g.draws().contains(d) {
        let (c, r) = choose|c: int, r: int|
            0 <= c < g.width && 0 <= r < g.height && g.draws_cell(c, r, d);
        assert(g.has(c, r) && g.draws_cell(c, r, d));
    }
    if exists|c: int, r: int| g.has(c, r) && g.draws_cell(c, r, d) {
        let (c, r) = choose|c: int, r: int| g.has(c, r) && g.draws_cell(c, r, d);
        assert(0 <= c < g.width && 0 <= r < g.height && g.draws_cell(c, r, d));
    }
}

/// One cell of the grid.
pub struct MapTile {
    display_character: char,
    color: Color,
    current_contents: Vec<i64>,
    previous_contents: Vec<i64>,
}

impl View for MapTile {
    type V = TileView;

    closed spec fn view(&self) -> TileView {
        TileView {
            glyph: self.display_character,
            color: self.color,
            current: self.current_contents@,
            previous: self.previous_contents@,
        }
    }
}

impl MapTile {
    /// The glyph that the cell shows.
    pub fn glyph(&self) -> (glyph: char)
        ensures
            glyph == self@.glyph,
    {
        self.display_character
    }

    /// The colour that the cell shows.
    pub fn color(&self) -> (color: Color)
        ensures
            color == self@.color,
    {
        self.color
    }

    /// The handles that wrote the cell in the running frame.
    pub fn current_occupants(&self) -> (ids: &Vec<i64>)
        ensures
            ids@ == self@.current,
    {
        &self.current_contents
    }

    /// The handles that wrote the cell in the last completed frame.
    pub fn previous_occupants(&self) -> (ids: &Vec<i64>)
        ensures
            ids@ == self@.previous,
    {
        &self.previous_contents
    }
}

/// A fixed-size grid of cells, stored column by column.
pub struct Grid {
    width: usize,
    height: usize,
    tiles: Vec<Vec<MapTile>>,
}

impl View for Grid {
    type V = GridView;

    closed spec fn view(&self) -> GridView {
        GridView {
            width: self.width as nat,
            height: self.height as nat,
            tiles: Seq::new(
                self.tiles@.len(),
                |c: int| Seq::new(self.tiles@[c]@.len(), |r: int| self.tiles@[c]@[r]@),
            ),
        }
    }
}

/// A coordinate forced into `0 .. extent`.
fn clamp_to(v: i32, extent: usize) -> (r: usize)
    requires
        extent > 0,
    ensures
        r == clamp_axis(v as int, extent as nat),
{
    if v < 0 {
        0
    } else {
        let u: usize = v as usize;
        if u >= extent {
            extent - 1
        } else {
            u
        }
    }
}

impl Grid {
    /// The rectangle is as wide and high as it says, and not empty.
    pub closed spec fn wf(&self) -> bool {
        &&& self.width > 0
        &&& self.height > 0
        &&& self.tiles@.len() == self.width
        &&& forall|c: int| 0 <= c < self.width ==> (#[trigger] self.tiles@[c])@.len() == self.height
    }

    /// A well-formed grid has a well-formed view, which is what the laws of
    /// this module ask for.
    pub proof fn lemma_view_wf(&self)
        requires
            self.wf(),
        ensures
            self@.wf(),
    {
    }

    /// A grid of `width` columns and `height` rows in which nothing was
    /// written yet: every cell shows the background, the glyph and colour
    /// that `clear` restores.
    pub fn new(width: usize, height: usize) -> (grid: Grid)
        requires
            width > 0,
            height > 0,
        ensures
            grid.wf(),
            grid@ == GridView::initial(width as nat, height as nat),
    {
        let mut tiles: Vec<Vec<MapTile>> = Vec::new();
        let mut c: usize = 0;
        while c < width
            invariant
                c <= width,
                tiles@.len() == c,
                forall|i: int| 0 <= i < c ==> (#[trigger] tiles@[i])@.len() == height,
                forall|i: int, j: int|
                    0 <= i < c && 0 <= j < height ==> (#[trigger] tiles@[i]@[j])@
                        == TileView::initial(),
            decreases width - c,
        {
            let mut column: Vec<MapTile> = Vec::new();
            let mut r: usize = 0;
            while r < height
                invariant
                    r <= height,
                    column@.len() == r,
                    forall|j: int| 0 <= j < r ==> (#[trigger] column@[j])@ == TileView::initial(),
                decreases height - r,
            {
                column.push(
                    MapTile {
                        display_character: BACKGROUND_GLYPH,
                        color: BACKGROUND_COLOR,
                        current_contents: Vec::new(),
                        previous_contents: Vec::new(),
                    },
                );
                r += 1;
            }
            tiles.push(column);
            c += 1;
        }
        let grid = Grid { width, height, tiles };
        assert(grid@ =~~= GridView::initial(width as nat, height as nat));
        grid
    }

    /// Ends the frame: every cell shows the background again, as in a new
    /// grid, what was written in the frame becomes what questions are
    /// answered from, and the lists of the next frame start empty.
    pub fn clear(&mut self)
        requires
            old(self).wf(),
        ensures
            final(self).wf(),
            final(self)@ == old(self)@.cleared(),
    {
        let ghost before = self.tiles@;
        let mut c: usize = 0;
        while c < self.width
            invariant
                self.wf(),
                self.width == old(self).width,
                self.height == old(self).height,
                before == old(self).tiles@,
                c <= self.width,
                forall|i: int, j: int|
                    0 <= i < c && 0 <= j < self.height ==> (#[trigger] self.tiles@[i]@[j])@
                        == before[i]@[j]@.cleared(),
                forall|i: int| c <= i < self.width ==> #[trigger] self.tiles@[i] == before[i],
            decreases self.width - c,
        {
            let mut r: usize = 0;
            while r < self.height
                invariant
                    self.wf(),
                    self.width == old(self).width,
                    self.height == old(self).height,
                    before == old(self).tiles@,
                    c < self.width,
                    r <= self.height,
                    forall|i: int, j: int|
                        0 <= i < c && 0 <= j < self.height ==> (#[trigger] self.tiles@[i]@[j])@
                            == before[i]@[j]@.cleared(),
                    forall|i: int| c < i < self.width ==> #[trigger] self.tiles@[i] == before[i],
                    forall|j: int|
                        0 <= j < r ==> (#[trigger] self.tiles@[c as int]@[j])@
                            == before[c as int]@[j]@.cleared(),
                    forall|j: int|
                        r <= j < self.height ==> #[trigger] self.tiles@[c as int]@[j]
                            == before[c as int]@[j],
                decreases self.height - r,
            {
                let tile = &mut self.tiles[c][r];
                tile.display_character = BACKGROUND_GLYPH;
                tile.color = BACKGROUND_COLOR;
                tile.previous_contents.clear();
                tile.previous_contents.append(&mut tile.current_contents);
                r += 1;
            }
            c += 1;
        }
        assert(self@ =~~= old(self)@.cleared());
    }

    /// Writes `character` in `color` at `position`, clamped into the grid, in
    /// the name of `id`. The last writer of a frame decides what the cell
    /// shows; every writer is recorded, as often as it writes.
    pub fn write(&mut self, position: (i32, i32), character: char, color: Color, id: i64)
        requires
            old(self).wf(),
        ensures
            final(self).wf(),
            final(self)@ == old(self)@.written(
                position.0 as int,
                position.1 as int,
                character,
                color,
                id,
            ),
    {
        let x: usize = clamp_to(position.0, self.width);
        let y: usize = clamp_to(position.1, self.height);
        let tile = &mut self.tiles[x][y];
        tile.display_character = character;
        tile.color = color;
        tile.current_contents.push(id);
        assert(self@ =~~= old(self)@.written(
            position.0 as int,
            position.1 as int,
            character,
            color,
            id,
        ));
    }

    /// The handles that wrote the cell at `position`, clamped into the grid,
    /// during the last completed frame, in the order of their writes. Writes
    /// of the running frame do not show.
    pub fn occupants(&self, position: (i32, i32)) -> (ids: Vec<i64>)
        requires
            self.wf(),
        ensures
            ids@ == self@.occupants(position.0 as int, position.1 as int),
    {
        let x: usize = clamp_to(position.0, self.width);
        let y: usize = clamp_to(position.1, self.height);
        let previous = &self.tiles[x][y].previous_contents;
        let mut ids: Vec<i64> = Vec::new();
        let mut k: usize = 0;
        while k < previous.len()
            invariant
                k <= previous@.len(),
                ids@ == previous@.take(k as int),
            decreases previous@.len() - k,
        {
            ids.push(previous[k]);
            k += 1;
        }
        assert(previous@.take(k as int) =~= previous@);
        ids
    }

    /// What the renderer has to draw for this frame: every cell that was
    /// written in this frame or in the one before, with the glyph and colour
    /// it shows now. A cell that was written last frame and not since is
    /// drawn once more, blank, which erases it on the screen.
    pub fn draw_calls(&self) -> (calls: Vec<DrawCall>)
        requires
            self.wf(),
        ensures
            calls@ == self@.draws(),
    {
        let mut calls: Vec<DrawCall> = Vec::new();
        let mut c: usize = 0;
        while c < self.width
            invariant
                self.wf(),
                c <= self.width,
                calls@ == self@.draws_upto(c as int),
            decreases self.width - c,
        {
            let ghost before = calls@;
            let mut r: usize = 0;
            while r < self.height
                invariant
                    self.wf(),
                    c < self.width,
                    r <= self.height,
                    calls@ == before + self@.column_draws(c as int, r as int),
                decreases self.height - r,
            {
                let tile = &self.tiles[c][r];
                if tile.current_contents.len() > 0 || tile.previous_contents.len() > 0 {
                    calls.push(
                        DrawCall {
                            column: c,
                            row: r,
                            glyph: tile.display_character,
                            color: tile.color,
                        },
                    );
                }
                assert(calls@ =~= before + self@.column_draws(c as int, r as int + 1));
                r += 1;
            }
            c += 1;
        }
        calls
    }

    /// The cell in column `column`, row `row`.
    pub fn tile(&self, column: usize, row: usize) -> (tile: &MapTile)
        requires
            self.wf(),
            column < self@.width,
            row < self@.height,
        ensures
            tile@ == self@.tiles[column as int][row as int],
    {
        &self.tiles[column][row]
    }

    /// Number of columns.
    pub fn width(&self) -> (w: usize)
        ensures
            w == self@.width,
    {
        self.width
    }

    /// Number of rows.
    pub fn height(&self) -> (h: usize)
        ensures
            h == self@.height,
    {
        self.height
    }
}

} // verus!

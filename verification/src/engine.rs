//! The placement engine: owns the grid, the frontier and the adaptive
//! threshold, consumes the palette in its given order, and produces a
//! complete point-to-color assignment.
//!
//! The grid is a row-major vector of optional colors; the frontier is kept in
//! insertion order, so a run is reproducible for a fixed random seed. The
//! candidate search accepts the first frontier point within the threshold in
//! that order, not the closest one.

use vstd::prelude::*;

use crate::color::Color;
use crate::color::MAX_COLOR_DISTANCE;
use crate::color::distance_spec;
use crate::color::color_distance;
use crate::color::lemma_distance_bounded;
use crate::random::Rng;
use std::collections::VecDeque;
use vstd::multiset::Multiset;

verus! {

broadcast use vstd::multiset::group_multiset_axioms;

/// An integer grid coordinate, bounded by the configured width and height.
#[derive(Clone, Copy, PartialEq, Eq, Structural, Debug)]
pub struct Point {
    pub x: u32,
    pub y: u32,
}

/// The row-major cell index of a point.
pub open spec fn cell_index(width: int, p: Point) -> int {
    p.y * width + p.x
}

/// Whether a point lies on the canvas.
pub open spec fn in_bounds(width: int, height: int, p: Point) -> bool {
    p.x < width && p.y < height
}

/// Whether a point's cell holds a color.
pub open spec fn is_occupied(
    cells: Seq<Option<Color>>,
    width: int,
    height: int,
    p: Point,
) -> bool {
    in_bounds(width, height, p) && cells[cell_index(width, p)] is Some
}

/// Whether a point lies on the canvas and its cell is still empty.
pub open spec fn is_free(cells: Seq<Option<Color>>, width: int, height: int, p: Point) -> bool {
    in_bounds(width, height, p) && cells[cell_index(width, p)] is None
}

/// The color of an occupied point.
pub open spec fn color_at_spec(cells: Seq<Option<Color>>, width: int, p: Point) -> Color {
    cells[cell_index(width, p)]->0
}

pub open spec fn up(p: Point) -> Point {
    Point { x: p.x, y: (p.y - 1) as u32 }
}

pub open spec fn right(p: Point) -> Point {
    Point { x: (p.x + 1) as u32, y: p.y }
}

pub open spec fn down(p: Point) -> Point {
    Point { x: p.x, y: (p.y + 1) as u32 }
}

pub open spec fn left(p: Point) -> Point {
    Point { x: (p.x - 1) as u32, y: p.y }
}

/// The unoccupied in-bounds 4-neighbors of a point, in the fixed order
/// up, right, down, left.
pub open spec fn free_neighbours_spec(
    cells: Seq<Option<Color>>,
    width: int,
    height: int,
    p: Point,
) -> Seq<Point> {
    (if p.y > 0 && is_free(cells, width, height, up(p)) {
        seq![up(p)]
    } else {
        Seq::empty()
    }) + (if is_free(cells, width, height, right(p)) {
        seq![right(p)]
    } else {
        Seq::empty()
    }) + (if is_free(cells, width, height, down(p)) {
        seq![down(p)]
    } else {
        Seq::empty()
    }) + (if p.x > 0 && is_free(cells, width, height, left(p)) {
        seq![left(p)]
    } else {
        Seq::empty()
    })
}

/// Whether a point still has at least one unoccupied in-bounds 4-neighbor.
pub open spec fn has_free_neighbour(
    cells: Seq<Option<Color>>,
    width: int,
    height: int,
    p: Point,
) -> bool {
    free_neighbours_spec(cells, width, height, p).len() != 0
}

/// How many cells of the grid hold a color.
pub open spec fn count_some(cells: Seq<Option<Color>>) -> int
    decreases cells.len(),
{
    if cells.len() == 0 {
        0
    } else {
        count_some(cells.drop_last()) + if cells.last() is Some {
            1int
        } else {
            0int
        }
    }
}

/// The colors held by the grid, as a multiset.
pub open spec fn placed_colors(cells: Seq<Option<Color>>) -> Multiset<Color>
    decreases cells.len(),
{
    if cells.len() == 0 {
        Multiset::empty()
    } else {
        match cells.last() {
            Some(c) => placed_colors(cells.drop_last()).insert(c),
            None => placed_colors(cells.drop_last()),
        }
    }
}

/// The occupied-cell count never exceeds the grid size, and equals the size
/// of the placed-color multiset.
pub proof fn lemma_count_some_bounds(cells: Seq<Option<Color>>)
    ensures
        0 <= count_some(cells) <= cells.len(),
        placed_colors(cells).len() == count_some(cells),
    decreases cells.len(),
{
    if cells.len() > 0 {
        lemma_count_some_bounds(cells.drop_last());
    }
}

/// Filling one empty cell raises the occupied count by one and adds exactly
/// the new color to the placed multiset.
pub proof fn lemma_fill_cell(cells: Seq<Option<Color>>, i: int, c: Color)
    requires
        0 <= i < cells.len(),
        cells[i] is None,
    ensures
        count_some(cells.update(i, Some(c))) == count_some(cells) + 1,
        placed_colors(cells.update(i, Some(c))) == placed_colors(cells).insert(c),
    decreases cells.len(),
{
    let cells2 = cells.update(i, Some(c));
    if i == cells.len() - 1 {
        assert(cells2.drop_last() =~= cells.drop_last());
    } else {
        lemma_fill_cell(cells.drop_last(), i, c);
        assert(cells2.drop_last() =~= cells.drop_last().update(i, Some(c)));
        assert(cells2.last() == cells.last());
    }
}

/// A grid with fewer occupied cells than cells has an empty cell; a grid
/// with at least one occupied cell has one.
pub proof fn lemma_count_some_witness(cells: Seq<Option<Color>>)
    ensures
        count_some(cells) < cells.len() ==> exists|i: int|
            0 <= i < cells.len() && cells[i] is None,
        count_some(cells) > 0 ==> exists|i: int| 0 <= i < cells.len() && cells[i] is Some,
    decreases cells.len(),
{
    lemma_count_some_bounds(cells);
    if cells.len() > 0 {
        lemma_count_some_witness(cells.drop_last());
        let prefix = cells.drop_last();
        let last = cells.len() - 1;
        if count_some(cells) < cells.len() {
            if cells.last() is Some {
                let j = choose|i: int| 0 <= i < prefix.len() && prefix[i] is None;
                assert(cells[j] is None);
            } else {
                assert(cells[last] is None);
            }
        }
        if count_some(cells) > 0 {
            if cells.last() is Some {
                assert(cells[last] is Some);
            } else {
                let j = choose|i: int| 0 <= i < prefix.len() && prefix[i] is Some;
                assert(cells[j] is Some);
            }
        }
    }
}

/// A cell index below the grid size, recovered as a point: row-major
/// division and remainder invert `cell_index`.
pub proof fn lemma_index_to_point(width: int, height: int, i: int)
    requires
        1 <= width,
        1 <= height,
        width * height <= u32::MAX,
        0 <= i < width * height,
    ensures
        ({
            let p = Point { x: (i % width) as u32, y: (i / width) as u32 };
            in_bounds(width, height, p) && cell_index(width, p) == i
        }),
{
    assert(width <= u32::MAX && height <= u32::MAX) by (nonlinear_arith)
        requires
            1 <= width,
            1 <= height,
            width * height <= u32::MAX,
    ;
    vstd::arithmetic::div_mod::lemma_fundamental_div_mod(i, width);
    assert(0 <= i % width < width) by (nonlinear_arith)
        requires
            1 <= width,
            0 <= i,
    ;
    assert(0 <= i / width < height) by (nonlinear_arith)
        requires
            1 <= width,
            0 <= i < width * height,
    ;
    let p = Point { x: (i % width) as u32, y: (i / width) as u32 };
    assert(p.x == i % width && p.y == i / width);
    assert(in_bounds(width, height, p));
    assert(cell_index(width, p) == i) by (nonlinear_arith)
        requires
            p.x == i % width,
            p.y == i / width,
            1 <= width,
            0 <= i,
    ;
}

/// A point on the canvas has a cell index below the grid size.
pub proof fn lemma_cell_index_bound(width: int, height: int, p: Point)
    requires
        1 <= width,
        1 <= height,
        in_bounds(width, height, p),
    ensures
        0 <= cell_index(width, p) < width * height,
{
    assert(0 <= p.y * width + p.x < width * height) by (nonlinear_arith)
        requires
            1 <= width,
            1 <= height,
            0 <= p.x < width,
            0 <= p.y < height,
    ;
}

/// A grid whose cells are all empty holds no colors.
proof fn lemma_all_none(cells: Seq<Option<Color>>)
    requires
        forall|i: int| 0 <= i < cells.len() ==> cells[i] is None,
    ensures
        count_some(cells) == 0,
        placed_colors(cells) == Multiset::<Color>::empty(),
    decreases cells.len(),
{
    if cells.len() > 0 {
        lemma_all_none(cells.drop_last());
    }
}

/// Computes the row-major cell index of an in-bounds point.
fn index_exec(width: u32, height: u32, p: Point) -> (i: usize)
    requires
        1 <= width,
        1 <= height,
        width * height <= u32::MAX,
        in_bounds(width as int, height as int, p),
    ensures
        i == cell_index(width as int, p),
        i < width * height,
{
    proof {
        lemma_cell_index_bound(width as int, height as int, p);
    }
    (p.y * width + p.x) as usize
}

/// Whether a point lies on the canvas and its cell is still empty.
fn is_free_exec(cells: &Vec<Option<Color>>, width: u32, height: u32, p: Point) -> (r: bool)
    requires
        1 <= width,
        1 <= height,
        width * height <= u32::MAX,
        cells@.len() == width * height,
    ensures
        r == is_free(cells@, width as int, height as int, p),
{
    if p.x < width && p.y < height {
        let i = index_exec(width, height, p);
        cells[i].is_none()
    } else {
        false
    }
}

/// Collects the unoccupied in-bounds 4-neighbors of a point, in the fixed
/// order up, right, down, left.
fn free_neighbours(cells: &Vec<Option<Color>>, width: u32, height: u32, point: Point) -> (r: Vec<
    Point,
>)
    requires
        1 <= width,
        1 <= height,
        width * height <= u32::MAX,
        cells@.len() == width * height,
        in_bounds(width as int, height as int, point),
    ensures
        r@ == free_neighbours_spec(cells@, width as int, height as int, point),
{
    let mut r: Vec<Point> = Vec::new();
    if point.y > 0 {
        let q = Point { x: point.x, y: point.y - 1 };
        if is_free_exec(cells, width, height, q) {
            r.push(q);
        }
    }
    let qr = Point { x: point.x + 1, y: point.y };
    if is_free_exec(cells, width, height, qr) {
        r.push(qr);
    }
    let qd = Point { x: point.x, y: point.y + 1 };
    if is_free_exec(cells, width, height, qd) {
        r.push(qd);
    }
    if point.x > 0 {
        let ql = Point { x: point.x - 1, y: point.y };
        if is_free_exec(cells, width, height, ql) {
            r.push(ql);
        }
    }
    proof {
        assert(r@ =~= free_neighbours_spec(cells@, width as int, height as int, point));
    }
    r
}

/// Whether a point still has an unoccupied in-bounds 4-neighbor.
fn has_free_neighbour_exec(cells: &Vec<Option<Color>>, width: u32, height: u32, point: Point) -> (r:
    bool)
    requires
        1 <= width,
        1 <= height,
        width * height <= u32::MAX,
        cells@.len() == width * height,
        in_bounds(width as int, height as int, point),
    ensures
        r == has_free_neighbour(cells@, width as int, height as int, point),
{
    let nbs = free_neighbours(cells, width, height, point);
    nbs.len() > 0
}

/// Two distinct points on the canvas have distinct cell indices.
pub proof fn lemma_cell_index_injective(width: int, height: int, p: Point, q: Point)
    requires
        1 <= width,
        1 <= height,
        in_bounds(width, height, p),
        in_bounds(width, height, q),
        cell_index(width, p) == cell_index(width, q),
    ensures
        p == q,
{
    assert(p.x == q.x && p.y == q.y) by (nonlinear_arith)
        requires
            1 <= width,
            0 <= p.x < width,
            0 <= q.x < width,
            0 <= p.y,
            0 <= q.y,
            p.y * width + p.x == q.y * width + q.x,
    ;
}

/// How the engine finished handling one pending color.
#[derive(Clone, Copy, PartialEq, Eq, Structural, Debug)]
pub enum StepResult {
    /// The color was placed; the flag says a progress checkpoint is due.
    Placed(bool),
    /// No frontier point was within the threshold; the color went to the
    /// back of the queue.
    Requeued,
}

/// A configuration the engine rejects before entering its main loop.
#[derive(Clone, Copy, PartialEq, Eq, Structural, Debug)]
pub enum ConfigError {
    /// The canvas has zero area.
    ZeroArea,
    /// The palette holds no color at all.
    EmptyPalette,
}

/// How many placements lie between two progress checkpoints: a 512th of the
/// canvas, and at least one.
pub open spec fn interval_spec(width: int, height: int) -> int {
    let raw = (width * height) / 512;
    if raw < 1 {
        1
    } else {
        raw
    }
}

/// The abstract state of an engine.
pub ghost struct EngineView {
    pub width: int,
    pub height: int,
    pub cells: Seq<Option<Color>>,
    pub frontier: Seq<Point>,
    pub pending: Seq<Color>,
    pub threshold: int,
    pub stall: int,
    pub interval: int,
    pub placed: int,
    pub palette: Seq<Color>,
}

/// The frontier invariant: a point is on the frontier if and only if it is
/// occupied and still has an unoccupied in-bounds 4-neighbor; no point
/// appears twice.
pub open spec fn frontier_inv(
    cells: Seq<Option<Color>>,
    width: int,
    height: int,
    fr: Seq<Point>,
) -> bool {
    &&& (forall|i: int|
        0 <= i < fr.len() ==> is_occupied(cells, width, height, #[trigger] fr[i])
            && has_free_neighbour(cells, width, height, fr[i]))
    &&& (forall|p: Point|
        is_occupied(cells, width, height, p) && #[trigger] has_free_neighbour(
            cells,
            width,
            height,
            p,
        ) ==> fr.contains(p))
    &&& fr.no_duplicates()
}

impl EngineView {
    /// The frontier invariant, over this state's own grid and frontier.
    pub open spec fn frontier_ok(self) -> bool {
        frontier_inv(self.cells, self.width, self.height, self.frontier)
    }

    /// Everything the engine maintains from seeding to completion: valid
    /// dimensions, a grid of matching size, the threshold within its floor
    /// of 2 and its stall-bounded cap, the frontier invariant, and the
    /// accounting that ties placed colors and pending colors back to the
    /// palette the engine was given.
    /// The structural part of the invariant: valid dimensions, a grid of
    /// matching size whose occupied count is tracked, and the frontier
    /// invariant.
    pub open spec fn grid_ok(self) -> bool {
        &&& 1 <= self.width
        &&& 1 <= self.height
        &&& self.width * self.height <= u32::MAX
        &&& self.cells.len() == self.width * self.height
        &&& self.placed == count_some(self.cells)
        &&& self.frontier_ok()
    }

    pub open spec fn well_formed(self) -> bool {
        &&& self.grid_ok()
        &&& 1 <= self.placed <= self.width * self.height
        &&& 2 <= self.threshold <= 2 * (MAX_COLOR_DISTANCE as int)
        &&& self.interval == interval_spec(self.width, self.height)
        &&& (self.stall == 0 || self.stall < self.pending.len())
        &&& placed_colors(self.cells).add(self.pending.to_multiset()) == self.palette.to_multiset()
        &&& self.palette.len() == self.placed + self.pending.len()
    }

    /// A run is complete when no color is pending or no cell is empty.
    pub open spec fn done(self) -> bool {
        self.pending.len() == 0 || self.placed == self.width * self.height
    }
}

/// The placement engine's run state: grid, frontier, pending queue and
/// adaptive threshold, exclusively owned for one generation run.
pub struct Engine {
    width: u32,
    height: u32,
    cells: Vec<Option<Color>>,
    frontier: Vec<Point>,
    pending: VecDeque<Color>,
    threshold: u32,
    stall: usize,
    interval: u32,
    placed: u32,
    palette: Ghost<Seq<Color>>,
}

impl View for Engine {
    type V = EngineView;

    closed spec fn view(&self) -> EngineView {
        EngineView {
            width: self.width as int,
            height: self.height as int,
            cells: self.cells@,
            frontier: self.frontier@,
            pending: self.pending@,
            threshold: self.threshold as int,
            stall: self.stall as int,
            interval: self.interval as int,
            placed: self.placed as int,
            palette: self.palette@,
        }
    }
}

impl Engine {
    /// The engine's internal invariant, as seen by callers.
    pub open spec fn wf(self) -> bool {
        self@.well_formed()
    }
}

/// The canvas center, where the first color is seeded.
pub open spec fn centre(width: int, height: int) -> Point {
    Point { x: (width / 2) as u32, y: (height / 2) as u32 }
}

/// The engine state right after construction: the first palette color at
/// the canvas center, the center on the frontier if it has a free neighbor,
/// the rest of the palette pending, and the threshold at its floor.
pub open spec fn init_view(width: int, height: int, palette: Seq<Color>) -> EngineView {
    let c = centre(width, height);
    let blank = Seq::new((width * height) as nat, |i: int| None::<Color>);
    let cells = blank.update(cell_index(width, c), Some(palette[0]));
    EngineView {
        width: width,
        height: height,
        cells: cells,
        frontier: if has_free_neighbour(cells, width, height, c) {
            seq![c]
        } else {
            Seq::empty()
        },
        pending: palette.drop_first(),
        threshold: 2,
        stall: 0,
        interval: interval_spec(width, height),
        placed: 1,
        palette: palette,
    }
}

impl Engine {
    /// Builds an engine for a `width` by `height` canvas and seeds the first
    /// color of `colors` at the canvas center. Fails fast on a zero-area
    /// canvas or an empty palette; otherwise the state is exactly
    /// `init_view`.
    pub fn new(width: u32, height: u32, colors: Vec<Color>) -> (r: Result<Engine, ConfigError>)
        requires
            width * height <= u32::MAX,
        ensures
            width == 0 || height == 0 ==> r == Err::<Engine, ConfigError>(ConfigError::ZeroArea),
            width >= 1 && height >= 1 && colors@.len() == 0 ==> r == Err::<Engine, ConfigError>(
                ConfigError::EmptyPalette,
            ),
            width >= 1 && height >= 1 && colors@.len() >= 1 ==> (r matches Ok(e) && e@
                == init_view(width as int, height as int, colors@) && e.wf()),
    {
        if width == 0 || height == 0 {
            return Err(ConfigError::ZeroArea);
        }
        if colors.len() == 0 {
            return Err(ConfigError::EmptyPalette);
        }
        let ghost target = init_view(width as int, height as int, colors@);
        let area = width * height;
        let mut cells: Vec<Option<Color>> = Vec::new();
        let mut k: u32 = 0;
        while k < area
            invariant
                k <= area,
                cells@.len() == k,
                forall|i: int| 0 <= i < k ==> cells@[i] is None,
            decreases area - k,
        {
            cells.push(None);
            k = k + 1;
        }
        proof {
            lemma_all_none(cells@);
        }
        let c0 = colors[0];
        let cpoint = Point { x: width / 2, y: height / 2 };
        let ci = index_exec(width, height, cpoint);
        proof {
            lemma_fill_cell(cells@, ci as int, c0);
        }
        cells[ci] = Some(c0);
        let mut frontier: Vec<Point> = Vec::new();
        if has_free_neighbour_exec(&cells, width, height, cpoint) {
            frontier.push(cpoint);
        }
        let mut pending: VecDeque<Color> = VecDeque::new();
        let mut j: usize = 1;
        while j < colors.len()
            invariant
                1 <= j <= colors@.len(),
                pending@ =~= colors@.subrange(1, j as int),
            decreases colors@.len() - j,
        {
            pending.push_back(colors[j]);
            j = j + 1;
        }
        proof {
            assert(pending@ =~= colors@.drop_first());
        }
        let raw_interval = area / 512;
        let interval = if raw_interval < 1 {
            1
        } else {
            raw_interval
        };
        let engine = Engine {
            width,
            height,
            cells,
            frontier,
            pending,
            threshold: 2,
            stall: 0,
            interval,
            placed: 1,
            palette: Ghost(colors@),
        };
        proof {
            lemma_new_state(engine@, width as int, height as int, colors@, target);
        }
        Ok(engine)
    }
}

/// The freshly seeded engine state matches `init_view` and satisfies the
/// engine invariant.
proof fn lemma_new_state(
    v: EngineView,
    width: int,
    height: int,
    palette: Seq<Color>,
    target: EngineView,
)
    requires
        target == init_view(width, height, palette),
        1 <= width,
        1 <= height,
        width * height <= u32::MAX,
        palette.len() >= 1,
        v.width == width,
        v.height == height,
        v.cells.len() == width * height,
        forall|i: int|
            0 <= i < v.cells.len() ==> v.cells[i] == (if i == cell_index(
                width,
                centre(width, height),
            ) {
                Some(palette[0])
            } else {
                None::<Color>
            }),
        count_some(v.cells) == 1,
        placed_colors(v.cells) == Multiset::<Color>::empty().insert(palette[0]),
        v.frontier == (if has_free_neighbour(v.cells, width, height, centre(width, height)) {
            seq![centre(width, height)]
        } else {
            Seq::<Point>::empty()
        }),
        v.pending == palette.drop_first(),
        v.threshold == 2,
        v.stall == 0,
        v.interval == interval_spec(width, height),
        v.placed == 1,
        v.palette == palette,
    ensures
        v == target,
        v.well_formed(),
{
    let c = centre(width, height);
    lemma_cell_index_bound(width, height, c);
    assert(v.cells =~= target.cells);
    assert(v == target);
    assert forall|p: Point|
        is_occupied(v.cells, width, height, p) && #[trigger] has_free_neighbour(
            v.cells,
            width,
            height,
            p,
        ) implies v.frontier.contains(p) by {
        lemma_cell_index_bound(width, height, p);
        lemma_cell_index_injective(width, height, p, c);
        assert(v.frontier[0] == c);
    }
    palette.to_multiset_ensures();
    vstd::seq_lib::to_multiset_remove(palette, 0);
    assert(palette.remove(0) =~= palette.drop_first());
    assert(placed_colors(v.cells).add(v.pending.to_multiset()) =~= palette.to_multiset());
}

/// Whether frontier entry `j` already holds a color within the threshold
/// of `c`.
pub open spec fn match_at(v: EngineView, c: Color, j: int) -> bool {
    distance_spec(color_at_spec(v.cells, v.width, v.frontier[j]), c) < v.threshold
}

/// The index of the first frontier entry at or after `i` whose color is
/// within the threshold of `c`, or the frontier length if there is none.
pub open spec fn first_match_from(v: EngineView, c: Color, i: int) -> int
    decreases v.frontier.len() - i,
{
    if i < 0 || i >= v.frontier.len() {
        v.frontier.len() as int
    } else if match_at(v, c, i) {
        i
    } else {
        first_match_from(v, c, i + 1)
    }
}

/// The index of the first frontier entry whose color is within the
/// threshold of `c`, in frontier (insertion) order.
pub open spec fn first_match(v: EngineView, c: Color) -> int {
    first_match_from(v, c, 0)
}

/// Whether any frontier entry's color is within the threshold of `c`.
pub open spec fn has_match(v: EngineView, c: Color) -> bool {
    first_match(v, c) < v.frontier.len()
}

/// The first-match search never leaves the index range: its result lies
/// between its starting point and the frontier length.
proof fn lemma_first_match_bounds(v: EngineView, c: Color, i: int)
    requires
        0 <= i <= v.frontier.len(),
    ensures
        i <= first_match_from(v, c, i) <= v.frontier.len(),
    decreases v.frontier.len() - i,
{
    if i < v.frontier.len() && !match_at(v, c, i) {
        lemma_first_match_bounds(v, c, i + 1);
    }
}

impl Engine {
    /// The canvas width.
    pub fn width(&self) -> (w: u32)
        ensures
            w == self@.width,
    {
        self.width
    }

    /// The canvas height.
    pub fn height(&self) -> (h: u32)
        ensures
            h == self@.height,
    {
        self.height
    }

    /// The current similarity threshold.
    pub fn threshold(&self) -> (t: u32)
        ensures
            t == self@.threshold,
    {
        self.threshold
    }

    /// How many colors have been placed so far.
    pub fn placed_count(&self) -> (n: u32)
        ensures
            n == self@.placed,
    {
        self.placed
    }

    /// How many colors are still waiting in the queue.
    pub fn pending_count(&self) -> (n: usize)
        ensures
            n == self@.pending.len(),
    {
        self.pending.len()
    }

    /// Whether the run is complete: no color pending, or no cell empty.
    pub fn is_done(&self) -> (d: bool)
        requires
            self.wf(),
        ensures
            d == self@.done(),
    {
        self.pending.len() == 0 || self.placed == self.width * self.height
    }

    /// The color of the cell at `(x, y)`, or nothing while it is empty.
    pub fn color_at(&self, x: u32, y: u32) -> (c: Option<Color>)
        requires
            self.wf(),
            x < self@.width,
            y < self@.height,
        ensures
            c == self@.cells[cell_index(self@.width, Point { x, y })],
    {
        let i = index_exec(self.width, self.height, Point { x, y });
        self.cells[i]
    }

    /// Scans the frontier in insertion order for a point whose placed color
    /// is within the current threshold of `color`, and returns the first
    /// such point: a good-enough match, not the closest one.
    fn get_best_point(&self, color: &Color) -> (r: Option<Point>)
        requires
            self.wf(),
        ensures
            r == (if has_match(self@, *color) {
                Some(self@.frontier[first_match(self@, *color)])
            } else {
                None::<Point>
            }),
    {
        let mut i: usize = 0;
        while i < self.frontier.len()
            invariant
                self.wf(),
                0 <= i <= self@.frontier.len(),
                first_match_from(self@, *color, i as int) == first_match(self@, *color),
            decreases self@.frontier.len() - i,
        {
            let p = self.frontier[i];
            let ci = index_exec(self.width, self.height, p);
            let pc = self.cells[ci].unwrap();
            if color_distance(&pc, color) < self.threshold {
                return Some(p);
            }
            i = i + 1;
        }
        None
    }
}

/// The frontier after a grid change: the given points in their original
/// order, keeping exactly those that still have an unoccupied in-bounds
/// 4-neighbor.
pub open spec fn retained_frontier(
    cells: Seq<Option<Color>>,
    width: int,
    height: int,
    fr: Seq<Point>,
) -> Seq<Point>
    decreases fr.len(),
{
    if fr.len() == 0 {
        Seq::empty()
    } else {
        let prefix = retained_frontier(cells, width, height, fr.drop_last());
        if has_free_neighbour(cells, width, height, fr.last()) {
            prefix.push(fr.last())
        } else {
            prefix
        }
    }
}

/// What survives the retention pass: exactly the given points that still
/// have a free neighbor, still without duplicates.
proof fn lemma_retained_props(cells: Seq<Option<Color>>, width: int, height: int, fr: Seq<Point>)
    requires
        fr.no_duplicates(),
    ensures
        retained_frontier(cells, width, height, fr).no_duplicates(),
        forall|i: int|
            0 <= i < retained_frontier(cells, width, height, fr).len() ==> fr.contains(
                #[trigger] retained_frontier(cells, width, height, fr)[i],
            ) && has_free_neighbour(
                cells,
                width,
                height,
                retained_frontier(cells, width, height, fr)[i],
            ),
        forall|p: Point|
            fr.contains(p) && #[trigger] has_free_neighbour(cells, width, height, p)
                ==> retained_frontier(cells, width, height, fr).contains(p),
    decreases fr.len(),
{
    let rt = retained_frontier(cells, width, height, fr);
    if fr.len() > 0 {
        let head = fr.drop_last();
        let last = fr.last();
        lemma_retained_props(cells, width, height, head);
        let prefix = retained_frontier(cells, width, height, head);
        assert forall|i: int| 0 <= i < rt.len() implies fr.contains(#[trigger] rt[i])
            && has_free_neighbour(cells, width, height, rt[i]) by {
            if i < prefix.len() {
                assert(rt[i] == prefix[i]);
                let j = choose|j: int| 0 <= j < head.len() && head[j] == prefix[i];
                assert(fr[j] == rt[i]);
            } else {
                assert(rt[i] == last);
                assert(fr[fr.len() - 1] == last);
            }
        }
        assert forall|p: Point|
            fr.contains(p) && #[trigger] has_free_neighbour(cells, width, height, p) implies rt
            .contains(p) by {
            let j = choose|j: int| 0 <= j < fr.len() && fr[j] == p;
            if j < fr.len() - 1 {
                assert(head[j] == p);
                assert(prefix.contains(p));
                let k = choose|k: int| 0 <= k < prefix.len() && prefix[k] == p;
                assert(rt[k] == p);
            } else {
                assert(p == last);
                assert(rt[rt.len() - 1] == p);
            }
        }
        if has_free_neighbour(cells, width, height, last) {
            // the surviving prefix cannot already hold the last point
            assert forall|i: int, j: int| 0 <= i < j < rt.len() implies rt[i] != rt[j] by {
                if j == rt.len() - 1 {
                    if prefix[i] == last {
                        let m = choose|m: int| 0 <= m < head.len() && head[m] == prefix[i];
                        assert(fr[m] == fr[fr.len() - 1]);
                    }
                } else {
                    assert(rt[i] == prefix[i] && rt[j] == prefix[j]);
                }
            }
        }
    }
}

/// After one placement, the retained frontier again satisfies the frontier
/// invariant: the new point joined it, a point whose last free neighbor was
/// just taken left it, and every other occupied point with a free neighbor
/// is still on it.
proof fn lemma_frontier_after_add(v: EngineView, v2: EngineView, point: Point, color: Color)
    requires
        v.grid_ok(),
        is_free(v.cells, v.width, v.height, point),
        v2.width == v.width,
        v2.height == v.height,
        v2.cells == v.cells.update(cell_index(v.width, point), Some(color)),
        v2.frontier == retained_frontier(v2.cells, v.width, v.height, v.frontier.push(point)),
    ensures
        v2.frontier_ok(),
{
    let w = v.width;
    let h = v.height;
    let full = v.frontier.push(point);
    lemma_cell_index_bound(w, h, point);
    // the pushed sequence still has no duplicates: the new point was free,
    // and frontier points are occupied
    assert forall|i: int, j: int| 0 <= i < j < full.len() implies full[i] != full[j] by {
        if j == full.len() - 1 {
            assert(full[i] == v.frontier[i]);
            assert(is_occupied(v.cells, w, h, v.frontier[i]));
            if full[i] == point {
                lemma_cell_index_injective(w, h, v.frontier[i], point);
            }
        } else {
            assert(full[i] == v.frontier[i] && full[j] == v.frontier[j]);
        }
    }
    lemma_retained_props(v2.cells, w, h, full);
    // everything retained is occupied afterwards
    assert forall|i: int| 0 <= i < v2.frontier.len() implies is_occupied(
        v2.cells,
        w,
        h,
        #[trigger] v2.frontier[i],
    ) && has_free_neighbour(v2.cells, w, h, v2.frontier[i]) by {
        let q = v2.frontier[i];
        assert(full.contains(q));
        let j = choose|j: int| 0 <= j < full.len() && full[j] == q;
        if j == full.len() - 1 {
            assert(q == point);
        } else {
            assert(q == v.frontier[j]);
            assert(is_occupied(v.cells, w, h, q));
            lemma_cell_index_bound(w, h, q);
        }
    }
    // everything occupied with a free neighbor afterwards is retained
    assert forall|p: Point|
        is_occupied(v2.cells, w, h, p) && #[trigger] has_free_neighbour(
            v2.cells,
            w,
            h,
            p,
        ) implies v2.frontier.contains(p) by {
        lemma_cell_index_bound(w, h, p);
        if p == point {
            assert(full[full.len() - 1] == p);
            assert(full.contains(p));
        } else {
            if cell_index(w, p) == cell_index(w, point) {
                lemma_cell_index_injective(w, h, p, point);
            }
            assert(v.cells[cell_index(w, p)] is Some);
            assert(is_occupied(v.cells, w, h, p));
            // a neighbor free after the update was free before it
            assert(has_free_neighbour(v.cells, w, h, p)) by {
                lemma_fewer_free_neighbours(v.cells, v2.cells, w, h, point, color, p);
            }
            assert(v.frontier.contains(p));
            let j = choose|j: int| 0 <= j < v.frontier.len() && v.frontier[j] == p;
            assert(full[j] == p);
            assert(full.contains(p));
        }
    }
}

/// Occupying one more cell can only shrink a point's set of free
/// neighbors: whoever has a free neighbor afterwards had one before.
proof fn lemma_fewer_free_neighbours(
    cells: Seq<Option<Color>>,
    cells2: Seq<Option<Color>>,
    width: int,
    height: int,
    point: Point,
    color: Color,
    p: Point,
)
    requires
        cells.len() == width * height,
        in_bounds(width, height, point),
        0 <= cell_index(width, point) < cells.len(),
        cells2 == cells.update(cell_index(width, point), Some(color)),
        has_free_neighbour(cells2, width, height, p),
    ensures
        has_free_neighbour(cells, width, height, p),
{
    assert forall|q: Point| is_free(cells2, width, height, q) implies is_free(
        cells,
        width,
        height,
        q,
    ) by {
        lemma_cell_index_bound(width, height, q);
    }
    assert(free_neighbours_spec(cells, width, height, p).len() >= free_neighbours_spec(
        cells2,
        width,
        height,
        p,
    ).len());
}

impl Engine {
    /// Inserts `color` at the free cell `point`, adds the point to the
    /// frontier, and drops every frontier point that no longer has a free
    /// neighbor, preserving insertion order.
    fn add_pixel(&mut self, point: Point, color: Color)
        requires
            old(self)@.grid_ok(),
            is_free(old(self)@.cells, old(self)@.width, old(self)@.height, point),
        ensures
            final(self)@.grid_ok(),
            final(self)@.cells == old(self)@.cells.update(
                cell_index(old(self)@.width, point),
                Some(color),
            ),
            final(self)@.frontier == retained_frontier(
                final(self)@.cells,
                old(self)@.width,
                old(self)@.height,
                old(self)@.frontier.push(point),
            ),
            final(self)@.placed == old(self)@.placed + 1,
            final(self)@.width == old(self)@.width,
            final(self)@.height == old(self)@.height,
            final(self)@.pending == old(self)@.pending,
            final(self)@.threshold == old(self)@.threshold,
            final(self)@.stall == old(self)@.stall,
            final(self)@.interval == old(self)@.interval,
            final(self)@.palette == old(self)@.palette,
            placed_colors(final(self)@.cells) == placed_colors(old(self)@.cells).insert(color),
            count_some(final(self)@.cells) == count_some(old(self)@.cells) + 1,
    {
        let ghost v = self@;
        let ci = index_exec(self.width, self.height, point);
        proof {
            lemma_fill_cell(self.cells@, ci as int, color);
            lemma_count_some_bounds(self.cells@.update(ci as int, Some(color)));
        }
        self.cells[ci] = Some(color);
        self.placed = self.placed + 1;
        self.frontier.push(point);
        let ghost cs = self.cells@;
        let ghost full = self.frontier@;
        proof {
            assert forall|j: int| 0 <= j < full.len() implies in_bounds(
                v.width,
                v.height,
                #[trigger] full[j],
            ) by {
                if j < v.frontier.len() {
                    assert(full[j] == v.frontier[j]);
                    assert(is_occupied(v.cells, v.width, v.height, v.frontier[j]));
                } else {
                    assert(full[j] == point);
                }
            }
        }
        let mut kept: Vec<Point> = Vec::new();
        let mut i: usize = 0;
        while i < self.frontier.len()
            invariant
                i <= self.frontier.len(),
                full == self.frontier@,
                cs == self.cells@,
                self.width == v.width,
                self.height == v.height,
                1 <= v.width,
                1 <= v.height,
                v.width * v.height <= u32::MAX,
                cs.len() == v.width * v.height,
                forall|j: int| 0 <= j < full.len() ==> in_bounds(v.width, v.height, full[j]),
                kept@ == retained_frontier(cs, v.width, v.height, full.take(i as int)),
            decreases full.len() - i,
        {
            let q = self.frontier[i];
            proof {
                Seq::lemma_take_succ_push(full, i as int);
                assert(full.take(i as int + 1).drop_last() =~= full.take(i as int));
            }
            if has_free_neighbour_exec(&self.cells, self.width, self.height, q) {
                kept.push(q);
            }
            i = i + 1;
        }
        proof {
            assert(full.take(full.len() as int) =~= full);
        }
        self.frontier = kept;
        proof {
            lemma_frontier_after_add(v, self@, point, color);
        }
    }
}

/// Walking one cell at a time from an occupied point toward a free point
/// must cross the boundary somewhere: some occupied cell on the way has a
/// free in-bounds 4-neighbor.
proof fn lemma_boundary_walk(
    cells: Seq<Option<Color>>,
    width: int,
    height: int,
    o: Point,
    f: Point,
)
    requires
        cells.len() == width * height,
        is_occupied(cells, width, height, o),
        is_free(cells, width, height, f),
    ensures
        exists|p: Point|
            is_occupied(cells, width, height, p) && #[trigger] has_free_neighbour(
                cells,
                width,
                height,
                p,
            ),
    decreases vstd::math::abs(o.x - f.x) + vstd::math::abs(o.y - f.y),
{
    lemma_cell_index_bound(width, height, o);
    lemma_cell_index_bound(width, height, f);
    if o.x == f.x && o.y == f.y {
        // one point cannot be both occupied and free
        assert(false);
    } else if o.x < f.x {
        let m = Point { x: (o.x + 1) as u32, y: o.y };
        if is_free(cells, width, height, m) {
            assert(m == right(o));
            assert(has_free_neighbour(cells, width, height, o));
        } else {
            lemma_boundary_walk(cells, width, height, m, f);
        }
    } else if o.x > f.x {
        let m = Point { x: (o.x - 1) as u32, y: o.y };
        if is_free(cells, width, height, m) {
            assert(m == left(o));
            assert(has_free_neighbour(cells, width, height, o));
        } else {
            lemma_boundary_walk(cells, width, height, m, f);
        }
    } else if o.y < f.y {
        let m = Point { x: o.x, y: (o.y + 1) as u32 };
        if is_free(cells, width, height, m) {
            assert(m == down(o));
            assert(has_free_neighbour(cells, width, height, o));
        } else {
            lemma_boundary_walk(cells, width, height, m, f);
        }
    } else {
        let m = Point { x: o.x, y: (o.y - 1) as u32 };
        if is_free(cells, width, height, m) {
            assert(m == up(o));
            assert(has_free_neighbour(cells, width, height, o));
        } else {
            lemma_boundary_walk(cells, width, height, m, f);
        }
    }
}

/// While the grid is neither empty nor full, the frontier cannot be empty:
/// the canvas holds an occupied and a free cell, so an occupied cell with a
/// free neighbor exists, and the frontier invariant puts it on the frontier.
pub proof fn lemma_frontier_nonempty(v: EngineView)
    requires
        v.well_formed(),
        v.placed < v.width * v.height,
    ensures
        v.frontier.len() >= 1,
{
    lemma_count_some_witness(v.cells);
    let oi = choose|i: int| 0 <= i < v.cells.len() && v.cells[i] is Some;
    let fi = choose|i: int| 0 <= i < v.cells.len() && v.cells[i] is None;
    lemma_index_to_point(v.width, v.height, oi);
    lemma_index_to_point(v.width, v.height, fi);
    let o = Point { x: (oi % v.width) as u32, y: (oi / v.width) as u32 };
    let f = Point { x: (fi % v.width) as u32, y: (fi / v.width) as u32 };
    lemma_boundary_walk(v.cells, v.width, v.height, o, f);
    let p = choose|p: Point|
        is_occupied(v.cells, v.width, v.height, p) && #[trigger] has_free_neighbour(
            v.cells,
            v.width,
            v.height,
            p,
        );
    assert(v.frontier.contains(p));
}

/// Whether the placement that is about to happen lands on a checkpoint
/// boundary: one checkpoint every `interval` placements.
pub open spec fn checkpoint_due(v: EngineView) -> bool {
    v.placed % v.interval == 0
}

/// The threshold after a placement: cooled one step toward its floor of 2
/// when a checkpoint is due, to tighten matching as the canvas fills.
pub open spec fn cooled_threshold(t: int, checkpoint: bool) -> int {
    if checkpoint && t > 2 {
        t - 1
    } else {
        t
    }
}

/// The engine state after placing the front pending color `c` on the free
/// cell `n`: the cell fills, the frontier is retained around the new point,
/// the stall counter resets, and the threshold cools on a checkpoint.
pub open spec fn place_step_view(v: EngineView, c: Color, n: Point) -> EngineView {
    let cells2 = v.cells.update(cell_index(v.width, n), Some(c));
    EngineView {
        cells: cells2,
        frontier: retained_frontier(cells2, v.width, v.height, v.frontier.push(n)),
        pending: v.pending.drop_first(),
        threshold: cooled_threshold(v.threshold, checkpoint_due(v)),
        stall: 0,
        placed: v.placed + 1,
        ..v
    }
}

/// The engine state after re-enqueueing the front pending color `c`: the
/// color moves to the back of the queue and the stall counter advances;
/// when a full pass over the queue has placed nothing, the threshold
/// doubles to relax matching and the counter resets.
pub open spec fn requeue_step_view(v: EngineView, c: Color) -> EngineView {
    let pending2 = v.pending.drop_first().push(c);
    if v.stall + 1 >= pending2.len() {
        EngineView { pending: pending2, stall: 0, threshold: 2 * v.threshold, ..v }
    } else {
        EngineView { pending: pending2, stall: v.stall + 1, ..v }
    }
}

/// Every entry of the free-neighbor list is a free in-bounds cell.
proof fn lemma_free_neighbours_free(
    cells: Seq<Option<Color>>,
    width: int,
    height: int,
    p: Point,
)
    ensures
        forall|k: int|
            0 <= k < free_neighbours_spec(cells, width, height, p).len() ==> is_free(
                cells,
                width,
                height,
                #[trigger] free_neighbours_spec(cells, width, height, p)[k],
            ),
{
}

impl Engine {
    /// Processes the next pending color: dequeues it and scans the frontier
    /// in insertion order for the first point whose placed color is within
    /// the current threshold. On a match the color goes to a uniformly
    /// chosen free neighbor of that point, the stall counter resets, and
    /// the threshold cools on checkpoint boundaries; otherwise the color is
    /// re-enqueued at the back and a full fruitless pass over the queue
    /// doubles the threshold.
    pub fn step(&mut self, rng: &mut Rng) -> (r: StepResult)
        requires
            old(self).wf(),
            !old(self)@.done(),
        ensures
            final(self).wf(),
            final(self)@.threshold >= 2,
            ({
                let v = old(self)@;
                let c = v.pending[0];
                if has_match(v, c) {
                    let p = v.frontier[first_match(v, c)];
                    let nbs = free_neighbours_spec(v.cells, v.width, v.height, p);
                    &&& r == StepResult::Placed(checkpoint_due(v))
                    &&& (exists|k: int|
                        0 <= k < nbs.len() && final(self)@ == place_step_view(
                            v,
                            c,
                            #[trigger] nbs[k],
                        ))
                } else {
                    &&& r == StepResult::Requeued
                    &&& final(self)@ == requeue_step_view(v, c)
                }
            }),
    {
        let ghost v = self@;
        let color = self.pending[0];
        let best = self.get_best_point(&color);
        let copt = self.pending.pop_front();
        proof {
            assert(copt == Some(color));
            assert(self@.pending =~= v.pending.drop_first());
            v.pending.to_multiset_ensures();
            vstd::seq_lib::to_multiset_remove(v.pending, 0);
            assert(v.pending.remove(0) =~= v.pending.drop_first());
            assert(v.pending.contains(color));
        }
        match best {
            Some(p) => {
                proof {
                    lemma_first_match_bounds(v, color, 0);
                    assert(is_occupied(v.cells, v.width, v.height, p) && has_free_neighbour(
                        v.cells,
                        v.width,
                        v.height,
                        p,
                    )) by {
                        assert(p == v.frontier[first_match(v, color)]);
                    }
                    lemma_free_neighbours_free(v.cells, v.width, v.height, p);
                }
                let nbs = free_neighbours(&self.cells, self.width, self.height, p);
                let k = rng.pick(nbs.len());
                let target = nbs[k];
                let checkpoint = self.placed % self.interval == 0;
                self.add_pixel(target, color);
                if checkpoint {
                    if self.threshold > 2 {
                        self.threshold = self.threshold - 1;
                    }
                }
                self.stall = 0;
                proof {
                    let v2 = self@;
                    let target_view = place_step_view(v, color, target);
                    assert(v2.pending =~= target_view.pending);
                    assert(v2 == target_view);
                    assert(exists|j: int|
                        0 <= j < nbs@.len() && v2 == place_step_view(v, color, #[trigger] nbs@[j]));
                    // the engine invariant survives the placement
                    lemma_count_some_bounds(v2.cells);
                    assert(placed_colors(v2.cells).add(v2.pending.to_multiset())
                        =~= v.palette.to_multiset());
                    assert(v2.well_formed());
                }
                StepResult::Placed(checkpoint)
            },
            None => {
                self.pending.push_back(color);
                let qlen = self.pending.len();
                self.stall = self.stall + 1;
                if self.stall >= qlen {
                    proof {
                        // a stall can only happen while the threshold is
                        // still within reach of a real color distance
                        lemma_frontier_nonempty(v);
                        assert(!match_at(v, color, 0));
                        lemma_distance_bounded(
                            color_at_spec(v.cells, v.width, v.frontier[0]),
                            color,
                        );
                        assert(v.threshold <= MAX_COLOR_DISTANCE);
                    }
                    self.threshold = self.threshold * 2;
                    self.stall = 0;
                }
                proof {
                    let v2 = self@;
                    let target_view = requeue_step_view(v, color);
                    assert(v2.pending =~= target_view.pending);
                    assert(v2 == target_view);
                    vstd::seq_lib::to_multiset_build(v.pending.drop_first(), color);
                    assert(v2.pending == v.pending.drop_first().push(color));
                    assert(placed_colors(v2.cells).add(v2.pending.to_multiset())
                        =~= v.palette.to_multiset());
                    assert(v2.well_formed());
                }
                StepResult::Requeued
            },
        }
    }
}

impl Engine {
    /// Runs the engine to completion: colors are processed until none is
    /// pending or no cell is empty. Termination is proved by a threefold
    /// measure: every placement fills a cell for good; between placements
    /// every re-enqueue advances the stall counter; and every full
    /// fruitless pass doubles the threshold, which a real color distance
    /// bounds, so placement must eventually resume.
    pub fn run(&mut self, rng: &mut Rng)
        requires
            old(self).wf(),
        ensures
            final(self).wf(),
            final(self)@.threshold >= 2,
            final(self)@.done(),
            final(self)@.width == old(self)@.width,
            final(self)@.height == old(self)@.height,
            final(self)@.palette == old(self)@.palette,
            final(self)@.placed == vstd::math::min(
                old(self)@.palette.len() as int,
                old(self)@.width * old(self)@.height,
            ),
            placed_colors(final(self)@.cells).subset_of(old(self)@.palette.to_multiset()),
            old(self)@.palette.len() <= old(self)@.width * old(self)@.height ==> placed_colors(
                final(self)@.cells,
            ) == old(self)@.palette.to_multiset(),
    {
        while !self.is_done()
            invariant
                self.wf(),
                self@.width == old(self)@.width,
                self@.height == old(self)@.height,
                self@.palette == old(self)@.palette,
            decreases
                self@.width * self@.height - self@.placed,
                2 * MAX_COLOR_DISTANCE + 1 - self@.threshold,
                self@.pending.len() - self@.stall,
        {
            let ghost v = self@;
            let _ = self.step(rng);
            proof {
                if has_match(v, v.pending[0]) {
                    assert(self@.placed == v.placed + 1);
                } else {
                    assert(self@ == requeue_step_view(v, v.pending[0]));
                }
            }
        }
        proof {
            let vf = self@;
            lemma_count_some_bounds(vf.cells);
            if vf.pending.len() == 0 {
                vf.pending.to_multiset_ensures();
                assert(vf.pending.to_multiset().len() == 0);
                assert(placed_colors(vf.cells) =~= placed_colors(vf.cells).add(
                    vf.pending.to_multiset(),
                ));
            }
            assert forall|c: Color|
                placed_colors(vf.cells).count(c) <= vf.palette.to_multiset().count(
                    c,
                ) by {
                assert(placed_colors(vf.cells).add(vf.pending.to_multiset()).count(c)
                    == placed_colors(vf.cells).count(c) + vf.pending.to_multiset().count(c));
            }
        }
    }

    /// A copy of the grid contents, row-major: each entry is the cell's
    /// color, or nothing while the cell is still empty.
    pub fn snapshot(&self) -> (cells: Vec<Option<Color>>)
        ensures
            cells@ == self@.cells,
    {
        let mut out: Vec<Option<Color>> = Vec::new();
        let mut i: usize = 0;
        while i < self.cells.len()
            invariant
                i <= self@.cells.len(),
                out@ == self@.cells.take(i as int),
            decreases self@.cells.len() - i,
        {
            out.push(self.cells[i]);
            proof {
                assert(out@ =~= self@.cells.take(i + 1));
            }
            i = i + 1;
        }
        proof {
            assert(out@ =~= self@.cells);
        }
        out
    }
}

/// One cell holding a color contributes at least one copy of it to the
/// placed multiset.
proof fn lemma_one_cell_count(cells: Seq<Option<Color>>, i: int)
    requires
        0 <= i < cells.len(),
        cells[i] is Some,
    ensures
        placed_colors(cells).count(cells[i]->0) >= 1,
    decreases cells.len(),
{
    if i < cells.len() - 1 {
        lemma_one_cell_count(cells.drop_last(), i);
    }
}

/// Two distinct cells holding the same color contribute at least two
/// copies of it to the placed multiset.
proof fn lemma_two_cells_count(cells: Seq<Option<Color>>, i: int, j: int)
    requires
        0 <= i < j < cells.len(),
        cells[i] is Some,
        cells[j] is Some,
        cells[i] == cells[j],
    ensures
        placed_colors(cells).count(cells[i]->0) >= 2,
    decreases cells.len(),
{
    if j == cells.len() - 1 {
        lemma_one_cell_count(cells.drop_last(), i);
    } else {
        lemma_two_cells_count(cells.drop_last(), i, j);
    }
}

/// Bijectivity of a run's output: when the palette holds no duplicate
/// color and the grid's colors are drawn from the palette without
/// repetition - as `run` guarantees - every color appears in at most one
/// cell, so occupied cells and placed colors correspond one to one.
pub proof fn lemma_placed_colors_distinct(cells: Seq<Option<Color>>, palette: Seq<Color>)
    requires
        placed_colors(cells).subset_of(palette.to_multiset()),
        palette.no_duplicates(),
    ensures
        forall|i: int, j: int|
            0 <= i < cells.len() && 0 <= j < cells.len() && i != j && cells[i] is Some
                && cells[j] is Some ==> cells[i] != cells[j],
{
    palette.lemma_multiset_has_no_duplicates();
    assert forall|i: int, j: int|
        0 <= i < cells.len() && 0 <= j < cells.len() && i != j && cells[i] is Some
            && cells[j] is Some implies cells[i] != cells[j] by {
        if cells[i] == cells[j] {
            if i < j {
                lemma_two_cells_count(cells, i, j);
            } else {
                lemma_two_cells_count(cells, j, i);
            }
        }
    }
}

/// Determinism of the engine's transition: the successor state is a
/// mathematical function of the current state, the dequeued color, and the
/// chosen neighbor cell. Randomness enters a step only through that choice
/// (and, upstream, through the palette shuffle), so two runs over identical
/// dimensions with equal palettes and equal random choices move through
/// equal states.
pub proof fn lemma_step_deterministic(v1: EngineView, v2: EngineView, c: Color, n: Point)
    requires
        v1 == v2,
    ensures
        first_match(v1, c) == first_match(v2, c),
        place_step_view(v1, c, n) == place_step_view(v2, c, n),
        requeue_step_view(v1, c) == requeue_step_view(v2, c),
{
}

} // verus!

//! Heightmaps: 2.5D grids of cell heights, with the real-world bounds they cover.
use vstd::prelude::*;
use crate::data_types::text::{
    fields, lines, nonempty, trim, pop_last, first_line_len, views, split_fields, split_lines,
    trim_chars, keep_nonempty, find_char, copy_range,
};
use crate::data_types::float_bits::{is_nan, lt, le, feq, total_key, is_nan_bits, lt_bits, le_bits, eq_bits, ZERO, NAN};

verus! {

/// Bit pattern of `999.0`, the minimum before any cell has been seen.
pub const MIN_START: u32 = 0x4479_c000;

/// Bit pattern of `-999.0`, the maximum before any cell has been seen.
pub const MAX_START: u32 = 0xc479_c000;

/// The schemas for turning the heights that fall into one cell into the cell's height.
pub enum MapGenOpt {
    Mean,
    /// The middle value after sorting (slow: every cell's list is sorted).
    Median,
    Min,
    Max,
}

/// Why a heightmap operation was refused.
#[derive(Debug, PartialEq, Eq)]
pub enum HeightmapError {
    /// A read named a cell beyond the map's width or height.
    ReadOutOfRange,
    /// A write named a cell beyond the map's width or height.
    WriteOutOfRange,
    /// Two maps to be compared are not of the same size.
    SizeMismatch,
    /// Only one edge of the feature was found.
    OneEdge,
    /// The deepest point does not lie between the edges.
    DeepestOutsideEdges,
    /// The edges and the deepest point do not form a feature.
    InvalidEdges,
}

/// The message that goes with each error.
pub open spec fn error_message(e: HeightmapError) -> Seq<char> {
    match e {
        HeightmapError::ReadOutOfRange => "Warning - attempting to read from cell that doesnt exist!"@,
        HeightmapError::WriteOutOfRange => "Warning - attempting to write to cell that doesnt exist!"@,
        HeightmapError::SizeMismatch => "Warning - Maps are not the same size - cannot be compared"@,
        HeightmapError::OneEdge => "Only one edge detected!"@,
        HeightmapError::DeepestOutsideEdges => "Invalid edge setup - deepest point outside edges"@,
        HeightmapError::InvalidEdges => "Invalid edge config"@,
    }
}

impl HeightmapError {
    /// The message that goes with the error.
    pub fn message(&self) -> (r: &'static str)
        ensures
            r@ == error_message(*self),
    {
        match self {
            HeightmapError::ReadOutOfRange => "Warning - attempting to read from cell that doesnt exist!",
            HeightmapError::WriteOutOfRange => "Warning - attempting to write to cell that doesnt exist!",
            HeightmapError::SizeMismatch => "Warning - Maps are not the same size - cannot be compared",
            HeightmapError::OneEdge => "Only one edge detected!",
            HeightmapError::DeepestOutsideEdges => "Invalid edge setup - deepest point outside edges",
            HeightmapError::InvalidEdges => "Invalid edge config",
        }
    }
}

/// A heightmap. Cell heights and coordinate bounds are binary32 bit patterns.
pub struct Heightmap {
    height: usize,
    width: usize,
    /// The number of cells present in the heightmap.
    pub no_of_cells: u32,
    min: u32,
    max: u32,
    min_updated: bool,
    max_updated: bool,
    min_pos: (usize, usize),
    max_pos: (usize, usize),
    cells: Vec<Vec<u32>>,
    lower_coord_bounds: [u32; 2],
    upper_coord_bounds: [u32; 2],
    /// The file the map was loaded from, or a note of how it was made.
    pub filename: String,
}

/// The mathematical model of a heightmap.
pub struct HeightmapView {
    pub height: usize,
    pub width: usize,
    pub no_of_cells: u32,
    /// The cached minimum and maximum heights and where they were found.
    pub min: u32,
    pub max: u32,
    pub min_updated: bool,
    pub max_updated: bool,
    pub min_pos: (usize, usize),
    pub max_pos: (usize, usize),
    /// Cell heights, row by row.
    pub cells: Seq<Seq<u32>>,
    pub lower: Seq<u32>,
    pub upper: Seq<u32>,
    pub filename: Seq<char>,
}

/// The contents of each row.
pub open spec fn rows_view(v: Seq<Vec<u32>>) -> Seq<Seq<u32>> {
    Seq::new(v.len(), |i: int| v[i]@)
}

impl View for Heightmap {
    type V = HeightmapView;

    closed spec fn view(&self) -> HeightmapView {
        HeightmapView {
            height: self.height,
            width: self.width,
            no_of_cells: self.no_of_cells,
            min: self.min,
            max: self.max,
            min_updated: self.min_updated,
            max_updated: self.max_updated,
            min_pos: self.min_pos,
            max_pos: self.max_pos,
            cells: rows_view(self.cells@),
            lower: self.lower_coord_bounds@,
            upper: self.upper_coord_bounds@,
            filename: self.filename@,
        }
    }
}

/// `rows` rows of `cols` zero heights.
pub open spec fn zero_cells(rows: int, cols: int) -> Seq<Seq<u32>> {
    Seq::new(rows as nat, |i: int| Seq::new(cols as nat, |j: int| ZERO))
}

/// A new `width` by `height` map: `width` rows of `height` zero heights, no bounds, and
/// extremes that have yet to be searched.
pub open spec fn blank(width: usize, height: usize) -> HeightmapView {
    HeightmapView {
        height,
        width,
        no_of_cells: cell_count(width, height),
        min: MIN_START,
        max: MAX_START,
        min_updated: false,
        max_updated: false,
        min_pos: (0usize, 0usize),
        max_pos: (0usize, 0usize),
        cells: zero_cells(width as int, height as int),
        lower: seq![ZERO, ZERO],
        upper: seq![ZERO, ZERO],
        filename: "No filepath"@,
    }
}

/// Whether cell `(x, y)` exists in `cells`.
pub open spec fn in_cells(cells: Seq<Seq<u32>>, x: int, y: int) -> bool {
    0 <= x < cells.len() && 0 <= y < cells[x].len()
}

/// Whether the width and height checks of the cell accessors refuse `(x, y)`.
/// They refuse only indices beyond the width or height, so the last column and
/// row index themselves pass the check.
pub open spec fn beyond(h: HeightmapView, x: int, y: int) -> bool {
    x > h.width || y > h.height
}

/// The number of cells of a `width` by `height` map, as the constructors count it.
pub open spec fn cell_count(width: usize, height: usize) -> u32 {
    ((height as u32) as int * (width as u32) as int) as u32
}

/// Whether the cell count of a `width` by `height` map fits a `u32`.
pub open spec fn cell_count_fits(width: usize, height: usize) -> bool {
    (height as u32) as int * (width as u32) as int <= u32::MAX
}

fn zero_row(n: usize) -> (r: Vec<u32>)
    ensures
        r@ == Seq::new(n as nat, |j: int| ZERO),
{
    let mut r: Vec<u32> = Vec::new();
    let mut j: usize = 0;
    while j < n
        invariant
            j <= n,
            r@ == Seq::new(j as nat, |k: int| ZERO),
        decreases n - j,
    {
        r.push(ZERO);
        j = j + 1;
        assert(r@ =~= Seq::new(j as nat, |k: int| ZERO));
    }
    r
}

fn copy_row(v: &Vec<u32>) -> (r: Vec<u32>)
    ensures
        r@ == v@,
{
    let mut r: Vec<u32> = Vec::new();
    let mut j: usize = 0;
    while j < v.len()
        invariant
            j <= v.len(),
            r@ == v@.subrange(0, j as int),
        decreases v.len() - j,
    {
        r.push(v[j]);
        j = j + 1;
        assert(r@ =~= v@.subrange(0, j as int));
    }
    assert(v@.subrange(0, v.len() as int) =~= v@);
    r
}

fn copy_rows(v: &Vec<Vec<u32>>) -> (r: Vec<Vec<u32>>)
    ensures
        rows_view(r@) == rows_view(v@),
{
    let mut r: Vec<Vec<u32>> = Vec::new();
    let mut i: usize = 0;
    while i < v.len()
        invariant
            i <= v.len(),
            r@.len() == i,
            forall|k: int| 0 <= k < i ==> r@[k]@ == v@[k]@,
        decreases v.len() - i,
    {
        let row = copy_row(&v[i]);
        r.push(row);
        i = i + 1;
    }
    assert(rows_view(r@) =~= rows_view(v@));
    r
}

impl Heightmap {
    /// A `width` by `height` map of zero heights: `width` rows of `height` cells.
    pub fn new(width: usize, height: usize) -> (r: Heightmap)
        requires
            cell_count_fits(width, height),
        ensures
            r@ == blank(width, height),
    {
        let filename = String::from_str("No filepath");
        let mut cells: Vec<Vec<u32>> = Vec::new();
        let mut i: usize = 0;
        while i < width
            invariant
                i <= width,
                cells@.len() == i,
                forall|k: int| 0 <= k < i ==> cells@[k]@ == Seq::new(height as nat, |j: int| ZERO),
            decreases width - i,
        {
            let row = zero_row(height);
            cells.push(row);
            i = i + 1;
        }
        assert(rows_view(cells@) =~= zero_cells(width as int, height as int));
        let r = Heightmap {
            height,
            width,
            no_of_cells: height as u32 * width as u32,
            cells,
            min: MIN_START,
            max: MAX_START,
            min_updated: false,
            max_updated: false,
            min_pos: (0, 0),
            max_pos: (0, 0),
            lower_coord_bounds: [ZERO, ZERO],
            upper_coord_bounds: [ZERO, ZERO],
            filename,
        };
        assert(r@.lower =~= seq![ZERO, ZERO]);
        assert(r@.upper =~= seq![ZERO, ZERO]);
        r
    }

    /// A map of the given size holding `cells`, covering the given bounds.
    pub fn from_parts(
        width: usize,
        height: usize,
        cells: Vec<Vec<u32>>,
        lower_coord_bounds: [u32; 2],
        upper_coord_bounds: [u32; 2],
        filename: String,
    ) -> (r: Heightmap)
        requires
            cell_count_fits(width, height),
        ensures
            r@.height == height,
            r@.width == width,
            r@.no_of_cells == cell_count(width, height),
            r@.cells == rows_view(cells@),
            r@.min == MIN_START,
            r@.max == MAX_START,
            !r@.min_updated,
            !r@.max_updated,
            r@.min_pos == (0usize, 0usize),
            r@.max_pos == (0usize, 0usize),
            r@.lower == lower_coord_bounds@,
            r@.upper == upper_coord_bounds@,
            r@.filename == filename@,
    {
        Heightmap {
            height,
            width,
            no_of_cells: height as u32 * width as u32,
            cells,
            min: MIN_START,
            max: MAX_START,
            min_updated: false,
            max_updated: false,
            min_pos: (0, 0),
            max_pos: (0, 0),
            lower_coord_bounds,
            upper_coord_bounds,
            filename,
        }
    }

    /// A copy of the cell heights.
    pub fn cells(&self) -> (r: Vec<Vec<u32>>)
        ensures
            rows_view(r@) == self@.cells,
    {
        copy_rows(&self.cells)
    }

    /// The height of cell `(x, y)`.
    pub fn get_cell_height(&self, x: usize, y: usize) -> (r: Result<u32, HeightmapError>)
        requires
            beyond(self@, x as int, y as int) || in_cells(self@.cells, x as int, y as int),
        ensures
            match r {
                Ok(v) => !beyond(self@, x as int, y as int) && v == self@.cells[x as int][y as int],
                Err(e) => beyond(self@, x as int, y as int) && e == HeightmapError::ReadOutOfRange,
            },
    {
        if x > self.width || y > self.height {
            return Err(HeightmapError::ReadOutOfRange);
        }
        Ok(self.cells[x][y])
    }

    /// Sets the height of cell `(x, y)`; the cached extremes are left as they are.
    pub fn set_cell_height_no_check(&mut self, x: usize, y: usize, new_height: u32) -> (r: Result<
        (),
        HeightmapError,
    >)
        requires
            beyond(old(self)@, x as int, y as int) || in_cells(old(self)@.cells, x as int, y as int),
        ensures
            match r {
                Ok(_) => !beyond(old(self)@, x as int, y as int) && final(self)@ == written(
                    old(self)@,
                    x as int,
                    y as int,
                    new_height,
                ),
                Err(e) => beyond(old(self)@, x as int, y as int) && e
                    == HeightmapError::WriteOutOfRange && final(self)@ == old(self)@,
            },
    {
        if x > self.width || y > self.height {
            return Err(HeightmapError::WriteOutOfRange);
        }
        self.cells[x][y] = new_height;
        assert(self@.cells =~= old(self)@.cells.update(
            x as int,
            old(self)@.cells[x as int].update(y as int, new_height),
        ));
        Ok(())
    }

    /// The lower corner of the real-world area the map covers.
    pub fn lower_coord_bounds(&self) -> (r: [u32; 2])
        ensures
            r@ == self@.lower,
    {
        self.lower_coord_bounds
    }

    /// The upper corner of the real-world area the map covers.
    pub fn upper_coord_bounds(&self) -> (r: [u32; 2])
        ensures
            r@ == self@.upper,
    {
        self.upper_coord_bounds
    }

    /// Replaces the lower corner of the covered area.
    pub fn set_lower_coord_bounds(&mut self, new: [u32; 2])
        ensures
            final(self)@ == (HeightmapView { lower: new@, ..old(self)@ }),
    {
        self.lower_coord_bounds = new;
    }

    /// Replaces the upper corner of the covered area.
    pub fn set_upper_coord_bounds(&mut self, new: [u32; 2])
        ensures
            final(self)@ == (HeightmapView { upper: new@, ..old(self)@ }),
    {
        self.upper_coord_bounds = new;
    }

    /// Width getter.
    pub fn width(&self) -> (r: usize)
        ensures
            r == self@.width,
    {
        self.width
    }

    /// Height getter.
    pub fn height(&self) -> (r: usize)
        ensures
            r == self@.height,
    {
        self.height
    }
}

impl Default for Heightmap {
    /// A blank 250 by 250 map.
    fn default() -> (r: Heightmap)
        ensures
            r@ == blank(250, 250),
    {
        Heightmap::new(250, 250)
    }
}


/// The cells of row `i`, each with its position.
pub open spec fn row_entries(cells: Seq<Seq<u32>>, i: int) -> Seq<(usize, usize, u32)> {
    Seq::new(cells[i].len(), |j: int| (i as usize, j as usize, cells[i][j]))
}

/// The cells of rows `lo` to `hi`, row by row, each with its position.
pub open spec fn entries_between(cells: Seq<Seq<u32>>, lo: int, hi: int) -> Seq<(usize, usize, u32)>
    decreases hi - lo,
{
    if hi <= lo {
        Seq::empty()
    } else {
        entries_between(cells, lo, hi - 1) + row_entries(cells, hi - 1)
    }
}

/// `s` without its first element, if it has one.
pub open spec fn skip_first<A>(s: Seq<A>) -> Seq<A> {
    if s.len() == 0 {
        s
    } else {
        s.drop_first()
    }
}

/// The cells that the extreme-height searches look at, in the order they look:
/// the first row is left out (it is mostly unknown), and so is the first cell after it.
pub open spec fn scanned(cells: Seq<Seq<u32>>) -> Seq<(usize, usize, u32)> {
    skip_first(entries_between(cells, 1, cells.len() as int))
}

/// The running maximum over `s`: it moves to a cell only when the cell is greater.
pub open spec fn max_scan(s: Seq<(usize, usize, u32)>) -> (u32, (usize, usize))
    decreases s.len(),
{
    if s.len() == 0 {
        (MAX_START, (0usize, 0usize))
    } else {
        let prev = max_scan(s.drop_last());
        let e = s.last();
        if lt(prev.0, e.2) {
            (e.2, (e.0, e.1))
        } else {
            prev
        }
    }
}

/// The running minimum over `s`: zero heights are passed over, and it moves to a cell
/// only when the cell is smaller.
pub open spec fn min_scan(s: Seq<(usize, usize, u32)>) -> (u32, (usize, usize))
    decreases s.len(),
{
    if s.len() == 0 {
        (MIN_START, (0usize, 0usize))
    } else {
        let prev = min_scan(s.drop_last());
        let e = s.last();
        if !feq(e.2, ZERO) && lt(e.2, prev.0) {
            (e.2, (e.0, e.1))
        } else {
            prev
        }
    }
}

/// The map after its maximum has been brought up to date.
pub open spec fn with_max(h: HeightmapView) -> HeightmapView {
    if h.max_updated {
        h
    } else {
        let m = max_scan(scanned(h.cells));
        HeightmapView { max: m.0, max_pos: m.1, max_updated: true, ..h }
    }
}

/// The map after its minimum has been brought up to date.
pub open spec fn with_min(h: HeightmapView) -> HeightmapView {
    if h.min_updated {
        h
    } else {
        let m = min_scan(scanned(h.cells));
        HeightmapView { min: m.0, min_pos: m.1, min_updated: true, ..h }
    }
}

proof fn lemma_skip_push<A>(p: Seq<A>, e: A)
    ensures
        skip_first(p.push(e)) == (if p.len() == 0 {
            Seq::<A>::empty()
        } else {
            skip_first(p).push(e)
        }),
{
    if p.len() == 0 {
        assert(skip_first(p.push(e)) =~= Seq::<A>::empty());
    } else {
        assert(skip_first(p.push(e)) =~= skip_first(p).push(e));
    }
}

/// Runs the maximum search over `cells`.
fn scan_max(cells: &Vec<Vec<u32>>) -> (r: (u32, (usize, usize)))
    ensures
        r == max_scan(scanned(rows_view(cells@))),
{
    let ghost cv = rows_view(cells@);
    let mut best: u32 = MAX_START;
    let mut pos: (usize, usize) = (0, 0);
    let mut skipped = false;
    let mut i: usize = 1;
    if cells.len() == 0 {
        assert(entries_between(cv, 1, 0) =~= Seq::<(usize, usize, u32)>::empty());
        return (best, pos);
    }
    assert(entries_between(cv, 1, 1) =~= Seq::<(usize, usize, u32)>::empty());
    while i < cells.len()
        invariant
            1 <= i <= cells.len(),
            cv == rows_view(cells@),
            skipped == (entries_between(cv, 1, i as int).len() > 0),
            (best, pos) == max_scan(skip_first(entries_between(cv, 1, i as int))),
        decreases cells.len() - i,
    {
        let mut j: usize = 0;
        let ghost before = entries_between(cv, 1, i as int);
        assert(row_entries(cv, i as int).take(0) =~= Seq::<(usize, usize, u32)>::empty());
        assert(before + row_entries(cv, i as int).take(0) =~= before);
        while j < cells[i].len()
            invariant
                1 <= i < cells.len(),
                j <= cells[i as int].len(),
                cv == rows_view(cells@),
                before == entries_between(cv, 1, i as int),
                skipped == ((before + row_entries(cv, i as int).take(j as int)).len() > 0),
                (best, pos) == max_scan(skip_first(before + row_entries(cv, i as int).take(j as int))),
            decreases cells[i as int].len() - j,
        {
            let v = cells[i][j];
            let ghost p = before + row_entries(cv, i as int).take(j as int);
            let ghost e = (i, j, v);
            assert(row_entries(cv, i as int)[j as int] == e);
            assert(before + row_entries(cv, i as int).take(j + 1) =~= p.push(e));
            proof {
                lemma_skip_push(p, e);
            }
            if !skipped {
                skipped = true;
            } else {
                assert(skip_first(p.push(e)).drop_last() =~= skip_first(p));
                if lt_bits(best, v) {
                    best = v;
                    pos = (i, j);
                }
            }
            j = j + 1;
        }
        assert(row_entries(cv, i as int).take(j as int) =~= row_entries(cv, i as int));
        i = i + 1;
    }
    (best, pos)
}

/// Runs the minimum search over `cells`.
fn scan_min(cells: &Vec<Vec<u32>>) -> (r: (u32, (usize, usize)))
    ensures
        r == min_scan(scanned(rows_view(cells@))),
{
    let ghost cv = rows_view(cells@);
    let mut best: u32 = MIN_START;
    let mut pos: (usize, usize) = (0, 0);
    let mut skipped = false;
    let mut i: usize = 1;
    if cells.len() == 0 {
        assert(entries_between(cv, 1, 0) =~= Seq::<(usize, usize, u32)>::empty());
        return (best, pos);
    }
    assert(entries_between(cv, 1, 1) =~= Seq::<(usize, usize, u32)>::empty());
    while i < cells.len()
        invariant
            1 <= i <= cells.len(),
            cv == rows_view(cells@),
            skipped == (entries_between(cv, 1, i as int).len() > 0),
            (best, pos) == min_scan(skip_first(entries_between(cv, 1, i as int))),
        decreases cells.len() - i,
    {
        let mut j: usize = 0;
        let ghost before = entries_between(cv, 1, i as int);
        assert(row_entries(cv, i as int).take(0) =~= Seq::<(usize, usize, u32)>::empty());
        assert(before + row_entries(cv, i as int).take(0) =~= before);
        while j < cells[i].len()
            invariant
                1 <= i < cells.len(),
                j <= cells[i as int].len(),
                cv == rows_view(cells@),
                before == entries_between(cv, 1, i as int),
                skipped == ((before + row_entries(cv, i as int).take(j as int)).len() > 0),
                (best, pos) == min_scan(skip_first(before + row_entries(cv, i as int).take(j as int))),
            decreases cells[i as int].len() - j,
        {
            let v = cells[i][j];
            let ghost p = before + row_entries(cv, i as int).take(j as int);
            let ghost e = (i, j, v);
            assert(row_entries(cv, i as int)[j as int] == e);
            assert(before + row_entries(cv, i as int).take(j + 1) =~= p.push(e));
            proof {
                lemma_skip_push(p, e);
            }
            if !skipped {
                skipped = true;
            } else {
                assert(skip_first(p.push(e)).drop_last() =~= skip_first(p));
                if !eq_bits(v, ZERO) && lt_bits(v, best) {
                    best = v;
                    pos = (i, j);
                }
            }
            j = j + 1;
        }
        assert(row_entries(cv, i as int).take(j as int) =~= row_entries(cv, i as int));
        i = i + 1;
    }
    (best, pos)
}


/// The map with cell `(x, y)` holding `v` and everything else as it was.
pub open spec fn written(h: HeightmapView, x: int, y: int, v: u32) -> HeightmapView {
    HeightmapView { cells: h.cells.update(x, h.cells[x].update(y, v)), ..h }
}

/// The map after `set_cell_height(x, y, v)` has written the cell and kept its extremes.
pub open spec fn after_set(h: HeightmapView, x: int, y: int, v: u32) -> HeightmapView {
    let h1 = written(h, x, y, v);
    if x == h.max_pos.0 && y == h.max_pos.1 {
        with_max(h1)
    } else if x == h.min_pos.0 && y == h.min_pos.1 {
        with_min(h1)
    } else if lt(h.max, v) {
        HeightmapView { max: v, max_pos: (x as usize, y as usize), ..h1 }
    } else if lt(v, h.min) {
        HeightmapView { min: v, min_pos: (x as usize, y as usize), ..h1 }
    } else {
        h1
    }
}

/// Cells of the same shape as `shape` taken from `from`.
pub open spec fn overlay(shape: Seq<Seq<u32>>, from: Seq<Seq<u32>>) -> Seq<Seq<u32>> {
    Seq::new(shape.len(), |x: int| Seq::new(shape[x].len(), |y: int| from[x][y]))
}

/// Cells of the same shape as `shape`, all `v`.
pub open spec fn filled(shape: Seq<Seq<u32>>, v: u32) -> Seq<Seq<u32>> {
    Seq::new(shape.len(), |x: int| Seq::new(shape[x].len(), |y: int| v))
}

/// Whether `from` has every cell that `shape` has.
pub open spec fn covers(from: Seq<Seq<u32>>, shape: Seq<Seq<u32>>) -> bool {
    forall|x: int, y: int| in_cells(shape, x, y) ==> #[trigger] in_cells(from, x, y)
}

/// The map with its cells replaced and both extremes marked stale.
pub open spec fn with_cells(h: HeightmapView, cells: Seq<Seq<u32>>) -> HeightmapView {
    HeightmapView { cells, max_updated: false, min_updated: false, ..h }
}

/// The first `nx` rows' first `ny` cells, row by row.
pub open spec fn flat(cells: Seq<Seq<u32>>, nx: int, ny: int) -> Seq<u32>
    decreases nx,
{
    if nx <= 0 {
        Seq::empty()
    } else {
        flat(cells, nx - 1, ny) + Seq::new(ny as nat, |y: int| cells[nx - 1][y])
    }
}

/// The number of NaN heights in `row` before position `n`.
pub open spec fn row_nans(row: Seq<u32>, n: int) -> nat
    decreases n,
{
    if n <= 0 {
        0
    } else {
        row_nans(row, n - 1) + if is_nan(row[n - 1]) {
            1nat
        } else {
            0nat
        }
    }
}

/// The number of NaN heights in the first `n` rows.
pub open spec fn nan_count(cells: Seq<Seq<u32>>, n: int) -> nat
    decreases n,
{
    if n <= 0 {
        0
    } else {
        nan_count(cells, n - 1) + row_nans(cells[n - 1], cells[n - 1].len() as int)
    }
}

/// Whether cell `(i, j)` of a map `h` lies under map `o` placed with its first cell at
/// `(start_row, start_col)`; the sizes are taken as `i32`, as the placing loop does.
pub open spec fn in_window(
    h: HeightmapView,
    o: HeightmapView,
    start_row: i32,
    start_col: i32,
    i: int,
    j: int,
) -> bool {
    &&& start_row <= i < start_row + (o.height as i32)
    &&& 0 <= i < (h.height as i32)
    &&& start_col <= j < start_col + (o.width as i32)
    &&& 0 <= j < (h.width as i32)
}

/// The cells of `h` after `o` has been placed over them: a cell under `o` takes `o`'s
/// height unless that height is NaN.
pub open spec fn pasted(h: HeightmapView, o: HeightmapView, start_row: i32, start_col: i32) -> Seq<
    Seq<u32>,
> {
    Seq::new(
        h.cells.len(),
        |i: int|
            Seq::new(
                h.cells[i].len(),
                |j: int|
                    if in_window(h, o, start_row, start_col, i, j) && !is_nan(
                        o.cells[i - start_row][j - start_col],
                    ) {
                        o.cells[i - start_row][j - start_col]
                    } else {
                        h.cells[i][j]
                    },
            ),
    )
}

/// Every position in `entries_between(cells, lo, hi)` is in one of the rows `lo` to `hi`.
proof fn lemma_entries_rows(cells: Seq<Seq<u32>>, lo: int, hi: int)
    requires
        0 <= lo,
        hi <= cells.len(),
        cells.len() <= usize::MAX,
    ensures
        forall|k: int|
            0 <= k < entries_between(cells, lo, hi).len() ==> lo <= (
            #[trigger] entries_between(cells, lo, hi)[k]).0 < hi,
    decreases hi - lo,
{
    if hi > lo {
        lemma_entries_rows(cells, lo, hi - 1);
        let a = entries_between(cells, lo, hi - 1);
        let b = row_entries(cells, hi - 1);
        assert forall|k: int| 0 <= k < (a + b).len() implies lo <= (#[trigger] (a + b)[k]).0 < hi by {
            if k >= a.len() {
                assert((a + b)[k] == b[k - a.len()]);
            } else {
                assert((a + b)[k] == a[k]);
            }
        }
    }
}

/// The position a maximum search ends on is (0, 0) or one of the scanned cells.
proof fn lemma_max_scan_pos(s: Seq<(usize, usize, u32)>)
    ensures
        max_scan(s).1 == (0usize, 0usize) || exists|k: int|
            0 <= k < s.len() && (#[trigger] s[k]).0 == max_scan(s).1.0 && s[k].1 == max_scan(s).1.1,
    decreases s.len(),
{
    if s.len() > 0 {
        lemma_max_scan_pos(s.drop_last());
        let prev = max_scan(s.drop_last());
        if !lt(prev.0, s.last().2) && prev.1 != (0usize, 0usize) {
            let k = choose|k: int|
                0 <= k < s.drop_last().len() && (#[trigger] s.drop_last()[k]).0 == prev.1.0
                    && s.drop_last()[k].1 == prev.1.1;
            assert(s[k] == s.drop_last()[k]);
        } else if lt(prev.0, s.last().2) {
            assert(s[s.len() - 1] == s.last());
        }
    }
}

impl Heightmap {
    /// Brings the cached maximum up to date and returns it.
    fn get_max(&mut self) -> (r: u32)
        ensures
            final(self)@ == with_max(old(self)@),
            r == final(self)@.max,
    {
        if !self.max_updated {
            let (m, p) = scan_max(&self.cells);
            self.max = m;
            self.max_pos = p;
            self.max_updated = true;
        }
        self.max
    }

    /// Brings the cached minimum up to date and returns it.
    fn get_min(&mut self) -> (r: u32)
        ensures
            final(self)@ == with_min(old(self)@),
            r == final(self)@.min,
    {
        if !self.min_updated {
            let (m, p) = scan_min(&self.cells);
            self.min = m;
            self.min_pos = p;
            self.min_updated = true;
        }
        self.min
    }

    /// Sets the height of cell `(x, y)` and keeps the cached extremes: writing over the
    /// cell that held the maximum (or else the minimum) brings that extreme up to date,
    /// and any other cell becomes the new maximum or minimum when it beats it.
    pub fn set_cell_height(&mut self, x: usize, y: usize, new_height: u32) -> (r: Result<
        (),
        HeightmapError,
    >)
        requires
            beyond(old(self)@, x as int, y as int) || in_cells(old(self)@.cells, x as int, y as int),
        ensures
            match r {
                Ok(_) => !beyond(old(self)@, x as int, y as int) && final(self)@ == after_set(
                    old(self)@,
                    x as int,
                    y as int,
                    new_height,
                ),
                Err(e) => beyond(old(self)@, x as int, y as int) && e
                    == HeightmapError::WriteOutOfRange && final(self)@ == old(self)@,
            },
    {
        if x > self.width || y > self.height {
            return Err(HeightmapError::WriteOutOfRange);
        }
        self.cells[x][y] = new_height;
        assert(self@.cells =~= old(self)@.cells.update(
            x as int,
            old(self)@.cells[x as int].update(y as int, new_height),
        ));
        if x == self.max_pos.0 && y == self.max_pos.1 {
            self.get_max();
        } else if x == self.min_pos.0 && y == self.min_pos.1 {
            self.get_min();
        } else if lt_bits(self.max, new_height) {
            self.max = new_height;
            self.max_pos = (x, y);
        } else if lt_bits(new_height, self.min) {
            self.min = new_height;
            self.min_pos = (x, y);
        }
        Ok(())
    }

    /// Copies `new_heights`' cells over this map's cells, cell for cell, and brings
    /// both extremes up to date.
    pub fn set_map(&mut self, new_heights: Heightmap)
        requires
            covers(new_heights@.cells, old(self)@.cells),
        ensures
            final(self)@ == with_min(
                with_max(with_cells(old(self)@, overlay(old(self)@.cells, new_heights@.cells))),
            ),
    {
        let ghost shape = self@.cells;
        let ghost target = overlay(shape, new_heights@.cells);
        let mut x: usize = 0;
        while x < self.cells.len()
            invariant
                x <= self.cells.len(),
                self.cells.len() == shape.len(),
                covers(new_heights@.cells, shape),
                target == overlay(shape, new_heights@.cells),
                self@ == (HeightmapView { cells: self@.cells, ..old(self)@ }),
                forall|i: int| 0 <= i < shape.len() ==> #[trigger] self@.cells[i].len() == shape[i].len(),
                forall|i: int| 0 <= i < x ==> #[trigger] self@.cells[i] == target[i],
                forall|i: int| x <= i < shape.len() ==> #[trigger] self@.cells[i] == shape[i],
            decreases shape.len() - x,
        {
            let mut y: usize = 0;
            while y < self.cells[x].len()
                invariant
                    x < self.cells.len(),
                    self.cells.len() == shape.len(),
                    y <= self.cells[x as int].len(),
                    covers(new_heights@.cells, shape),
                    target == overlay(shape, new_heights@.cells),
                    self@ == (HeightmapView { cells: self@.cells, ..old(self)@ }),
                    forall|i: int| 0 <= i < shape.len() ==> #[trigger] self@.cells[i].len() == shape[i].len(),
                    forall|i: int| 0 <= i < x ==> #[trigger] self@.cells[i] == target[i],
                    forall|i: int| x < i < shape.len() ==> #[trigger] self@.cells[i] == shape[i],
                    forall|j: int| 0 <= j < y ==> #[trigger] self@.cells[x as int][j] == target[x as int][j],
                    forall|j: int| y <= j < shape[x as int].len() ==> #[trigger] self@.cells[x as int][j] == shape[x as int][j],
                decreases shape[x as int].len() - y,
            {
                assert(self@.cells[x as int].len() == self.cells[x as int].len());
                assert(in_cells(shape, x as int, y as int));
                assert(in_cells(new_heights@.cells, x as int, y as int));
                let v = new_heights.cells[x][y];
                let ghost prev = self@.cells;
                self.cells[x][y] = v;
                assert(self@.cells == prev.update(x as int, prev[x as int].update(y as int, v)));
                y = y + 1;
            }
            assert(self@.cells[x as int] =~= target[x as int]);
            x = x + 1;
        }
        assert(self@.cells =~= target);
        self.max_updated = false;
        self.min_updated = false;
        self.get_max();
        self.get_min();
    }

    /// Sets every cell to `val` and brings both extremes up to date.
    pub fn set_all_cells(&mut self, val: u32)
        ensures
            final(self)@ == with_min(with_max(with_cells(old(self)@, filled(old(self)@.cells, val)))),
    {
        let ghost shape = self@.cells;
        let ghost target = filled(shape, val);
        let mut x: usize = 0;
        while x < self.cells.len()
            invariant
                x <= self.cells.len(),
                self.cells.len() == shape.len(),
                target == filled(shape, val),
                self@ == (HeightmapView { cells: self@.cells, ..old(self)@ }),
                forall|i: int| 0 <= i < shape.len() ==> #[trigger] self@.cells[i].len() == shape[i].len(),
                forall|i: int| 0 <= i < x ==> #[trigger] self@.cells[i] == target[i],
                forall|i: int| x <= i < shape.len() ==> #[trigger] self@.cells[i] == shape[i],
            decreases shape.len() - x,
        {
            let mut y: usize = 0;
            while y < self.cells[x].len()
                invariant
                    x < self.cells.len(),
                    self.cells.len() == shape.len(),
                    y <= self.cells[x as int].len(),
                    target == filled(shape, val),
                    self@ == (HeightmapView { cells: self@.cells, ..old(self)@ }),
                    forall|i: int| 0 <= i < shape.len() ==> #[trigger] self@.cells[i].len() == shape[i].len(),
                    forall|i: int| 0 <= i < x ==> #[trigger] self@.cells[i] == target[i],
                    forall|i: int| x < i < shape.len() ==> #[trigger] self@.cells[i] == shape[i],
                    forall|j: int| 0 <= j < y ==> #[trigger] self@.cells[x as int][j] == val,
                    forall|j: int| y <= j < shape[x as int].len() ==> #[trigger] self@.cells[x as int][j] == shape[x as int][j],
                decreases shape[x as int].len() - y,
            {
                let ghost prev = self@.cells;
                assert(self@.cells[x as int].len() == self.cells[x as int].len());
                self.cells[x][y] = val;
                assert(self@.cells == prev.update(x as int, prev[x as int].update(y as int, val)));
                y = y + 1;
            }
            assert(self@.cells[x as int] =~= target[x as int]);
            x = x + 1;
        }
        assert(self@.cells =~= target);
        self.max_updated = false;
        self.min_updated = false;
        self.get_max();
        self.get_min();
    }

    /// Shifts every cell by `height_change`, adding with `plus` (binary32 addition); a NaN
    /// change leaves every cell as it is. Both extremes are marked stale.
    pub fn offset_map<F: Fn(u32, u32) -> u32>(&mut self, height_change: u32, plus: F)
        requires
            forall|a: u32, b: u32| plus.requires((a, b)),
        ensures
            final(self)@ == (HeightmapView {
                cells: final(self)@.cells,
                max_updated: false,
                min_updated: false,
                ..old(self)@
            }),
            final(self)@.cells.len() == old(self)@.cells.len(),
            forall|x: int|
                0 <= x < old(self)@.cells.len() ==> #[trigger] final(self)@.cells[x].len()
                    == old(self)@.cells[x].len(),
            forall|x: int, y: int|
                #![trigger final(self)@.cells[x][y]]
                in_cells(old(self)@.cells, x, y) ==> if is_nan(height_change) {
                    final(self)@.cells[x][y] == old(self)@.cells[x][y]
                } else {
                    plus.ensures((old(self)@.cells[x][y], height_change), final(self)@.cells[x][y])
                },
    {
        let ghost shape = self@.cells;
        let skip = is_nan_bits(height_change);
        let mut x: usize = 0;
        while x < self.cells.len()
            invariant
                x <= self.cells.len(),
                self.cells.len() == shape.len(),
                skip == is_nan(height_change),
                forall|a: u32, b: u32| plus.requires((a, b)),
                self@ == (HeightmapView { cells: self@.cells, ..old(self)@ }),
                old(self)@.cells == shape,
                forall|i: int| 0 <= i < shape.len() ==> #[trigger] self@.cells[i].len() == shape[i].len(),
                forall|i: int, j: int|
                    #![trigger self@.cells[i][j]]
                    0 <= i < x && 0 <= j < shape[i].len() ==> if skip {
                        self@.cells[i][j] == shape[i][j]
                    } else {
                        plus.ensures((shape[i][j], height_change), self@.cells[i][j])
                    },
                forall|i: int| x <= i < shape.len() ==> #[trigger] self@.cells[i] == shape[i],
            decreases shape.len() - x,
        {
            let mut y: usize = 0;
            while y < self.cells[x].len()
                invariant
                    x < self.cells.len(),
                    self.cells.len() == shape.len(),
                    y <= self.cells[x as int].len(),
                    skip == is_nan(height_change),
                    forall|a: u32, b: u32| plus.requires((a, b)),
                    self@ == (HeightmapView { cells: self@.cells, ..old(self)@ }),
                    old(self)@.cells == shape,
                    forall|i: int| 0 <= i < shape.len() ==> #[trigger] self@.cells[i].len() == shape[i].len(),
                    forall|i: int, j: int|
                        #![trigger self@.cells[i][j]]
                        0 <= i < x && 0 <= j < shape[i].len() ==> if skip {
                            self@.cells[i][j] == shape[i][j]
                        } else {
                            plus.ensures((shape[i][j], height_change), self@.cells[i][j])
                        },
                    forall|j: int|
                        0 <= j < y ==> if skip {
                            #[trigger] self@.cells[x as int][j] == shape[x as int][j]
                        } else {
                            plus.ensures((shape[x as int][j], height_change), self@.cells[x as int][j])
                        },
                    forall|i: int| x < i < shape.len() ==> #[trigger] self@.cells[i] == shape[i],
                    forall|j: int| y <= j < shape[x as int].len() ==> #[trigger] self@.cells[x as int][j] == shape[x as int][j],
                decreases shape[x as int].len() - y,
            {
                assert(self@.cells[x as int].len() == self.cells[x as int].len());
                let c = self.cells[x][y];
                assert(c == shape[x as int][y as int]);
                if !skip {
                    let v = plus(c, height_change);
                    let ghost prev = self@.cells;
                    self.cells[x][y] = v;
                    assert(self@.cells == prev.update(x as int, prev[x as int].update(y as int, v)));
                }
                y = y + 1;
            }
            x = x + 1;
        }
        self.max_updated = false;
        self.min_updated = false;
    }

    /// Every cell of the map in a single list: the first `width` rows' first `height`
    /// cells, row by row.
    pub fn get_flattened_cells(&self) -> (r: Result<Vec<u32>, HeightmapError>)
        requires
            forall|x: int, y: int|
                0 <= x < self@.width && 0 <= y < self@.height ==> #[trigger] in_cells(
                    self@.cells,
                    x,
                    y,
                ),
        ensures
            r matches Ok(v) && v@ == flat(self@.cells, self@.width as int, self@.height as int),
    {
        let mut cell_list: Vec<u32> = Vec::new();
        let mut x: usize = 0;
        let nx = self.width;
        let ny = self.height;
        while x < nx
            invariant
                nx == self@.width,
                ny == self@.height,
                x <= nx,
                forall|a: int, b: int|
                    0 <= a < self@.width && 0 <= b < self@.height ==> #[trigger] in_cells(
                        self@.cells,
                        a,
                        b,
                    ),
                cell_list@ == flat(self@.cells, x as int, ny as int),
            decreases nx - x,
        {
            let mut y: usize = 0;
            let ghost before = cell_list@;
            while y < ny
                invariant
                    nx == self@.width,
                    x < nx,
                    ny == self@.height,
                    y <= ny,
                    forall|a: int, b: int|
                        0 <= a < self@.width && 0 <= b < self@.height ==> #[trigger] in_cells(
                            self@.cells,
                            a,
                            b,
                        ),
                    before == flat(self@.cells, x as int, ny as int),
                    cell_list@ == before + Seq::new(y as nat, |b: int| self@.cells[x as int][b]),
                decreases ny - y,
            {
                assert(in_cells(self@.cells, x as int, y as int));
                cell_list.push(self.cells[x][y]);
                y = y + 1;
                assert(cell_list@ =~= before + Seq::new(y as nat, |b: int| self@.cells[x as int][b]));
            }
            x = x + 1;
        }
        Ok(cell_list)
    }

    /// The number of unknown (NaN) cells.
    pub fn no_of_nans(&self) -> (r: u32)
        requires
            nan_count(self@.cells, self@.cells.len() as int) <= u32::MAX,
        ensures
            r == nan_count(self@.cells, self@.cells.len() as int),
    {
        let mut nan_cnt: u32 = 0;
        let mut i: usize = 0;
        while i < self.cells.len()
            invariant
                i <= self.cells.len(),
                nan_count(self@.cells, self@.cells.len() as int) <= u32::MAX,
                nan_cnt == nan_count(self@.cells, i as int),
            decreases self.cells.len() - i,
        {
            proof {
                lemma_nan_count_monotone(self@.cells, i as int + 1, self@.cells.len() as int);
            }
            let mut j: usize = 0;
            while j < self.cells[i].len()
                invariant
                    i < self.cells.len(),
                    j <= self.cells[i as int].len(),
                    nan_count(self@.cells, i as int + 1) <= u32::MAX,
                    nan_cnt == nan_count(self@.cells, i as int) + row_nans(self@.cells[i as int], j as int),
                decreases self.cells[i as int].len() - j,
            {
                proof {
                    lemma_row_nans_monotone(self@.cells[i as int], j as int + 1, self@.cells[i as int].len() as int);
                }
                if is_nan_bits(self.cells[i][j]) {
                    nan_cnt = nan_cnt + 1;
                }
                j = j + 1;
            }
            i = i + 1;
        }
        nan_cnt
    }

    /// Places `other` over this map with `other`'s first cell at `(start_row, start_col)`:
    /// every cell of this map that `other` covers takes `other`'s height, unless that
    /// height is NaN.
    pub fn paste_section(&mut self, other: Heightmap, start_row: i32, start_col: i32)
        requires
            i32::MIN <= start_row + (other@.height as i32) <= i32::MAX,
            i32::MIN <= start_col + (other@.width as i32) <= i32::MAX,
            forall|i: int, j: int|
                #[trigger] in_window(old(self)@, other@, start_row, start_col, i, j) ==> in_cells(
                    old(self)@.cells,
                    i,
                    j,
                ) && in_cells(other@.cells, i - start_row, j - start_col),
        ensures
            final(self)@ == (HeightmapView {
                cells: pasted(old(self)@, other@, start_row, start_col),
                ..old(self)@
            }),
    {
        let ghost h0 = self@;
        let end_row: i32 = start_row + other.height as i32;
        let end_col: i32 = start_col + other.width as i32;
        let self_rows = self.height as i32;
        let self_cols = self.width as i32;
        let mut i: i32 = start_row;
        while i < end_row
            invariant
                start_row <= i,
                i <= end_row || i == start_row,
                end_row == start_row + (other@.height as i32),
                end_col == start_col + (other@.width as i32),
                self_rows == (h0.height as i32),
                self_cols == (h0.width as i32),
                forall|a: int, b: int|
                    #[trigger] in_window(h0, other@, start_row, start_col, a, b) ==> in_cells(
                        h0.cells,
                        a,
                        b,
                    ) && in_cells(other@.cells, a - start_row, b - start_col),
                self@ == (HeightmapView { cells: self@.cells, ..h0 }),
                self@.cells.len() == h0.cells.len(),
                forall|a: int| 0 <= a < h0.cells.len() ==> #[trigger] self@.cells[a].len() == h0.cells[a].len(),
                forall|a: int, b: int|
                    #![trigger self@.cells[a][b]]
                    in_cells(h0.cells, a, b) ==> self@.cells[a][b] == if a < i && in_window(
                        h0,
                        other@,
                        start_row,
                        start_col,
                        a,
                        b,
                    ) && !is_nan(other@.cells[a - start_row][b - start_col]) {
                        other@.cells[a - start_row][b - start_col]
                    } else {
                        h0.cells[a][b]
                    },
            decreases end_row - i,
        {
            if i < 0 || i >= self_rows {
                i = i + 1;
                continue;
            }
            let mut j: i32 = start_col;
            while j < end_col
                invariant
                    start_row <= i < end_row,
                    0 <= i < self_rows,
                    start_col <= j,
                    j <= end_col || j == start_col,
                    end_row == start_row + (other@.height as i32),
                    end_col == start_col + (other@.width as i32),
                    self_rows == (h0.height as i32),
                    self_cols == (h0.width as i32),
                    forall|a: int, b: int|
                        #[trigger] in_window(h0, other@, start_row, start_col, a, b) ==> in_cells(
                            h0.cells,
                            a,
                            b,
                        ) && in_cells(other@.cells, a - start_row, b - start_col),
                    self@ == (HeightmapView { cells: self@.cells, ..h0 }),
                    self@.cells.len() == h0.cells.len(),
                    forall|a: int| 0 <= a < h0.cells.len() ==> #[trigger] self@.cells[a].len() == h0.cells[a].len(),
                    forall|a: int, b: int|
                        #![trigger self@.cells[a][b]]
                        in_cells(h0.cells, a, b) ==> self@.cells[a][b] == if (a < i || (a == i
                            && b < j)) && in_window(h0, other@, start_row, start_col, a, b) && !is_nan(
                            other@.cells[a - start_row][b - start_col],
                        ) {
                            other@.cells[a - start_row][b - start_col]
                        } else {
                            h0.cells[a][b]
                        },
                decreases end_col - j,
            {
                if j < 0 || j >= self_cols {
                    j = j + 1;
                    continue;
                }
                assert(in_window(h0, other@, start_row, start_col, i as int, j as int));
                let val = other.cells[(i - start_row) as usize][(j - start_col) as usize];
                if !is_nan_bits(val) {
                    let ghost prev = self@.cells;
                    assert(self@.cells[i as int].len() == self.cells[i as int].len());
                    self.cells[i as usize][j as usize] = val;
                    assert(self@.cells == prev.update(i as int, prev[i as int].update(j as int, val)));
                }
                j = j + 1;
            }
            i = i + 1;
        }
        assert(self@.cells =~~= pasted(h0, other@, start_row, start_col));
    }
}

proof fn lemma_row_nans_monotone(row: Seq<u32>, a: int, b: int)
    requires
        a <= b,
    ensures
        row_nans(row, a) <= row_nans(row, b),
    decreases b - a,
{
    if a < b {
        lemma_row_nans_monotone(row, a, b - 1);
    }
}

proof fn lemma_nan_count_monotone(cells: Seq<Seq<u32>>, a: int, b: int)
    requires
        a <= b,
    ensures
        nan_count(cells, a) <= nan_count(cells, b),
    decreases b - a,
{
    if a < b {
        lemma_nan_count_monotone(cells, a, b - 1);
    }
}


/// Bit pattern of `0.0005`, the smallest height step that counts as a feature edge.
pub const EDGE_THRESHOLD: u32 = 0x3a03_126f;

/// Bit pattern of `0.01`, the height step from which on a step is no feature edge.
pub const EDGE_HIGH_THRESHOLD: u32 = 0x3c23_d70a;

/// The map after the extremes have been brought up to date for a feature estimate:
/// both are refreshed when the maximum is stale, and nothing is done otherwise.
pub open spec fn refreshed(h: HeightmapView) -> HeightmapView {
    if !h.max_updated {
        with_min(with_max(h))
    } else {
        h
    }
}

/// Whether the step `step` between two known (non-zero) heights `a` and `b` makes an edge.
pub open spec fn is_edge(a: u32, b: u32, step: u32) -> bool {
    !feq(a, ZERO) && !feq(b, ZERO) && !lt(step, EDGE_THRESHOLD) && !is_nan(step) && lt(
        step,
        EDGE_HIGH_THRESHOLD,
    )
}

/// The first `i` from `i0` on, below `n`, where the height rises into a feature
/// (`rises[i]` is `row[i + 1] - row[i]`); 0 when there is none.
pub open spec fn first_edge(row: Seq<u32>, rises: Seq<u32>, i0: int, n: int) -> int
    decreases n - i0,
{
    if i0 >= n {
        0
    } else if is_edge(row[i0], row[i0 + 1], rises[i0]) {
        i0
    } else {
        first_edge(row, rises, i0 + 1, n)
    }
}

/// The last `i` from `i0` down to 1 where the height rises out of a feature going
/// backwards (`falls[i]` is `row[i - 1] - row[i]`); 0 when there is none.
pub open spec fn second_edge(row: Seq<u32>, falls: Seq<u32>, i0: int) -> int
    decreases i0,
{
    if i0 < 1 {
        0
    } else if is_edge(row[i0], row[i0 - 1], falls[i0]) {
        i0
    } else {
        second_edge(row, falls, i0 - 1)
    }
}

/// What the edge checks of a feature estimate decide, given the edges found and the
/// row of the deepest point.
pub open spec fn feature_edges(first: int, second: int, deepest: int) -> Result<
    (usize, usize),
    HeightmapError,
> {
    if first == second {
        Err(HeightmapError::OneEdge)
    } else if deepest > second || deepest < first {
        Err(HeightmapError::DeepestOutsideEdges)
    } else if !(second > first) {
        Err(HeightmapError::InvalidEdges)
    } else if second == deepest || first == deepest {
        Err(HeightmapError::InvalidEdges)
    } else {
        Ok((first as usize, second as usize))
    }
}

fn step_is_edge(a: u32, b: u32, step: u32) -> (r: bool)
    ensures
        r == is_edge(a, b, step),
{
    !eq_bits(a, ZERO) && !eq_bits(b, ZERO) && !lt_bits(step, EDGE_THRESHOLD) && !is_nan_bits(step)
        && lt_bits(step, EDGE_HIGH_THRESHOLD)
}

/// Finds the two edges of a simple trough in `row` (the row of the deepest point) and
/// checks them against `deepest`: the first edge is the first place, going up the row,
/// where the height steps by at least `EDGE_THRESHOLD` and less than
/// `EDGE_HIGH_THRESHOLD` between two known heights; the second is the last such place
/// going down the row. `rises[i]` is the step `row[i + 1] - row[i]` and `falls[i]` the
/// step `row[i - 1] - row[i]`.
pub fn feature_edge_bins(
    row: &Vec<u32>,
    rises: &Vec<u32>,
    falls: &Vec<u32>,
    width: usize,
    deepest: usize,
) -> (r: Result<(usize, usize), HeightmapError>)
    requires
        width >= 1,
        width >= 2 ==> row.len() >= width && falls.len() >= width,
        rises.len() >= width - 1,
    ensures
        r == feature_edges(
            first_edge(row@, rises@, 0, width - 1),
            second_edge(row@, falls@, width - 1),
            deepest as int,
        ),
{
    let mut i: usize = 0;
    while i < width - 1 && !step_is_edge(row[i], row[i + 1], rises[i])
        invariant
            width >= 1,
            i <= width - 1,
            width >= 2 ==> row.len() >= width,
            rises.len() >= width - 1,
            first_edge(row@, rises@, 0, width - 1) == first_edge(row@, rises@, i as int, width - 1),
        decreases width - 1 - i,
    {
        i = i + 1;
    }
    let first: usize = if i < width - 1 {
        i
    } else {
        0
    };
    let mut k: usize = width - 1;
    while k >= 1 && !step_is_edge(row[k], row[k - 1], falls[k])
        invariant
            k <= width - 1,
            width >= 2 ==> row.len() >= width && falls.len() >= width,
            second_edge(row@, falls@, width - 1) == second_edge(row@, falls@, k as int),
        decreases k,
    {
        k = k - 1;
    }
    let second: usize = if k >= 1 {
        k
    } else {
        0
    };
    if first == second {
        return Err(HeightmapError::OneEdge);
    }
    if deepest > second || deepest < first {
        return Err(HeightmapError::DeepestOutsideEdges);
    }
    if !(second > first) {
        return Err(HeightmapError::InvalidEdges);
    }
    if second == deepest || first == deepest {
        return Err(HeightmapError::InvalidEdges);
    }
    Ok((first, second))
}

/// Whether position `(a, b)` comes before `(i, j)` in row order.
pub open spec fn row_before(a: int, b: int, i: int, j: int) -> bool {
    a < i || (a == i && b < j)
}

/// The top and bottom edge flags of row `i` of a grid of `height` rows while filling
/// unknown cells: the first row is at the top; the last row, unless it is also the
/// first, is at the bottom; and in a grid of two rows the last row keeps the top flag
/// of the first.
pub open spec fn row_edges(i: int, height: int) -> (bool, bool) {
    (i == 0 || (i == 1 && height == 2), i == height - 1 && i != 0)
}

/// The left and right edge flags after an unknown cell in column `j` of a grid `width`
/// columns wide: the first column sets the left flag, the last sets the right flag, and
/// any other clears both; a flag that is not set or cleared keeps its value `prev`.
pub open spec fn col_edges(j: int, width: int, prev: (bool, bool)) -> (bool, bool) {
    if j == 0 {
        (true, prev.1)
    } else if j == width - 1 {
        (prev.0, true)
    } else {
        (false, false)
    }
}

/// The left and right edge flags when the filling of `cells` (a grid `width` columns
/// wide, taken in row order) reaches `(i, j)`: each unknown cell before it has set them
/// by its column.
pub open spec fn edges_before(cells: Seq<Seq<u32>>, width: int, i: int, j: int) -> (bool, bool)
    decreases i, j,
{
    if i <= 0 && j <= 0 {
        (false, false)
    } else {
        let pi = if j > 0 { i } else { i - 1 };
        let pj = if j > 0 { j - 1 } else { width - 1 };
        let prev = edges_before(cells, width, pi, pj);
        if is_nan(cells[pi][pj]) {
            col_edges(pj, width, prev)
        } else {
            prev
        }
    }
}

/// The neighbours of `(i, j)` that the filling reads, in the order it reads them: the
/// row above unless at the top edge, the cells to the left and right unless at those
/// edges, and the row below unless at the bottom edge.
pub open spec fn neighbours(i: int, j: int, top: bool, bottom: bool, left: bool, right: bool) -> Seq<(int, int)> {
    let side = |a: int| (if !left { seq![(a, j - 1)] } else { Seq::empty() }) + (if !right {
        seq![(a, j + 1)]
    } else {
        Seq::empty()
    });
    (if !top { seq![(i - 1, j)] + side(i - 1) } else { Seq::empty() }) + side(i) + (if !bottom {
        seq![(i + 1, j)] + side(i + 1)
    } else {
        Seq::empty()
    })
}

/// The neighbours read when filling `(i, j)` of `orig`, a grid of `height` rows of
/// `width` cells.
pub open spec fn fill_reads(orig: Seq<Seq<u32>>, height: int, width: int, i: int, j: int) -> Seq<(int, int)> {
    let rows = row_edges(i, height);
    let cols = col_edges(j, width, edges_before(orig, width, i, j));
    neighbours(i, j, rows.0, rows.1, cols.0, cols.1)
}

/// The height of `(a, b)` as the filling of `(i, j)` sees it: already filled when it
/// comes before `(i, j)`, as it was otherwise.
pub open spec fn seen(fin: Seq<Seq<u32>>, orig: Seq<Seq<u32>>, i: int, j: int, a: int, b: int) -> u32 {
    if row_before(a, b, i, j) {
        fin[a][b]
    } else {
        orig[a][b]
    }
}

/// Whether `t` is the total of the known heights of `vals` added in order with `plus`
/// from zero, unknown heights left out.
pub open spec fn is_known_total<P: Fn(u32, u32) -> u32>(vals: Seq<u32>, plus: P, t: u32) -> bool {
    exists|ts: Seq<u32>|
        #![trigger ts.len()]
        ts.len() == vals.len() + 1 && ts[0] == ZERO && ts[vals.len() as int] == t && forall|k: int|
            0 <= k < vals.len() ==> if is_nan(vals[k]) {
                ts[k + 1] == ts[k]
            } else {
                plus.ensures((ts[k], vals[k]), #[trigger] ts[k + 1])
            }
}

/// Whether `fin[i][j]` is the filled height of the unknown cell `(i, j)` of `orig`: the
/// known neighbours' total divided with `divide` by the number of known neighbours.
/// Unknown neighbours are neither added nor counted; a cell with no known neighbour
/// becomes zero, so no unknown cell is left unfilled.
pub open spec fn is_filled<P: Fn(u32, u32) -> u32, D: Fn(u32, i32) -> u32>(
    fin: Seq<Seq<u32>>,
    orig: Seq<Seq<u32>>,
    height: int,
    width: int,
    i: int,
    j: int,
    plus: P,
    divide: D,
) -> bool {
    let nb = fill_reads(orig, height, width, i, j);
    let vals = Seq::new(nb.len(), |k: int| seen(fin, orig, i, j, nb[k].0, nb[k].1));
    if known(vals).len() == 0 {
        fin[i][j] == ZERO
    } else {
        exists|t: u32| is_known_total(vals, plus, t) && divide.ensures((t, known(vals).len() as i32), fin[i][j])
    }
}

/// Whether cell `(i, j)` of `fin` is what filling the unknown cells of `orig` leaves
/// there: a filled height for an unknown cell, the old height otherwise.
pub open spec fn fill_ok<P: Fn(u32, u32) -> u32, D: Fn(u32, i32) -> u32>(
    fin: Seq<Seq<u32>>,
    orig: Seq<Seq<u32>>,
    height: int,
    width: int,
    i: int,
    j: int,
    plus: P,
    divide: D,
) -> bool {
    if is_nan(orig[i][j]) {
        is_filled(fin, orig, height, width, i, j, plus, divide)
    } else {
        fin[i][j] == orig[i][j]
    }
}

/// Whether the grid of `height` rows of `width` cells lies within `cells`.
pub open spec fn grid_in(cells: Seq<Seq<u32>>, height: int, width: int) -> bool {
    forall|i: int, j: int| 0 <= i < height && 0 <= j < width ==> #[trigger] in_cells(cells, i, j)
}

/// Whether the grid of `height` rows of `width` cells of `cells` has an unknown height.
pub open spec fn grid_has_nan(cells: Seq<Seq<u32>>, height: int, width: int) -> bool {
    exists|i: int, j: int| 0 <= i < height && 0 <= j < width && #[trigger] is_nan(cells[i][j])
}

/// The positions of `v` as integer pairs.
pub open spec fn as_ints(v: Seq<(usize, usize)>) -> Seq<(int, int)> {
    Seq::new(v.len(), |k: int| (v[k].0 as int, v[k].1 as int))
}

/// The positions of the neighbours of `(i, j)` that the filling reads (see `neighbours`).
fn neighbour_cells(i: usize, j: usize, top: bool, bottom: bool, left: bool, right: bool) -> (r: Vec<(usize, usize)>)
    requires
        !top ==> i >= 1,
        !left ==> j >= 1,
        i < usize::MAX,
        j < usize::MAX,
    ensures
        as_ints(r@) == neighbours(i as int, j as int, top, bottom, left, right),
        r@.len() <= 8,
{
    let ghost ii = i as int;
    let ghost jj = j as int;
    let ghost lside = if !left { seq![(ii - 1, jj - 1)] } else { Seq::<(int, int)>::empty() };
    let ghost above = if !top {
        seq![(ii - 1, jj)] + (if !left { seq![(ii - 1, jj - 1)] } else { Seq::empty() }) + (if !right {
            seq![(ii - 1, jj + 1)]
        } else {
            Seq::empty()
        })
    } else {
        Seq::empty()
    };
    let ghost middle = (if !left { seq![(ii, jj - 1)] } else { Seq::<(int, int)>::empty() }) + (if !right {
        seq![(ii, jj + 1)]
    } else {
        Seq::empty()
    });
    let ghost below = if !bottom {
        seq![(ii + 1, jj)] + (if !left { seq![(ii + 1, jj - 1)] } else { Seq::empty() }) + (if !right {
            seq![(ii + 1, jj + 1)]
        } else {
            Seq::empty()
        })
    } else {
        Seq::empty()
    };
    assert(neighbours(ii, jj, top, bottom, left, right) =~= above + middle + below);
    let mut r: Vec<(usize, usize)> = Vec::new();
    if !top {
        r.push((i - 1, j));
        if !left {
            r.push((i - 1, j - 1));
        }
        if !right {
            r.push((i - 1, j + 1));
        }
    }
    assert(as_ints(r@) =~= above);
    if !left {
        r.push((i, j - 1));
    }
    if !right {
        r.push((i, j + 1));
    }
    assert(as_ints(r@) =~= above + middle);
    if !bottom {
        r.push((i + 1, j));
        if !left {
            r.push((i + 1, j - 1));
        }
        if !right {
            r.push((i + 1, j + 1));
        }
    }
    assert(as_ints(r@) =~= above + middle + below);
    r
}

/// Whether the cells of `cur` are those of `orig` with the grid cells before `(i, j)`
/// filled: each of those is what the filling leaves there, and every other cell is as it
/// was.
pub open spec fn filled_until<P: Fn(u32, u32) -> u32, D: Fn(u32, i32) -> u32>(
    cur: Seq<Seq<u32>>,
    orig: Seq<Seq<u32>>,
    height: int,
    width: int,
    i: int,
    j: int,
    plus: P,
    divide: D,
) -> bool {
    &&& cur.len() == orig.len()
    &&& forall|a: int| 0 <= a < orig.len() ==> #[trigger] cur[a].len() == orig[a].len()
    &&& forall|a: int, b: int|
        #[trigger] in_cells(orig, a, b) ==> if 0 <= a < height && 0 <= b < width && row_before(a, b, i, j) {
            fill_ok(cur, orig, height, width, a, b, plus, divide)
        } else {
            cur[a][b] == orig[a][b]
        }
}

/// In a grid of at least two rows and two columns, every neighbour the filling reads lies
/// in the grid.
proof fn lemma_reads_in_grid(orig: Seq<Seq<u32>>, height: int, width: int, i: int, j: int)
    requires
        0 <= i < height,
        0 <= j < width,
        height >= 2,
        width >= 2,
    ensures
        forall|k: int|
            0 <= k < fill_reads(orig, height, width, i, j).len() ==> {
                let p = #[trigger] fill_reads(orig, height, width, i, j)[k];
                &&& 0 <= p.0 < height
                &&& 0 <= p.1 < width
                &&& (p.0 != i || p.1 != j)
            },
{
    let rows = row_edges(i, height);
    let cols = col_edges(j, width, edges_before(orig, width, i, j));
    let nb = fill_reads(orig, height, width, i, j);
    assert(nb == neighbours(i, j, rows.0, rows.1, cols.0, cols.1));
}

/// Whether the filling of `(a, b)` is judged the same on `c1` and `c2` because they agree
/// on `(a, b)` and on every grid cell before it.
proof fn lemma_filled_frame<P: Fn(u32, u32) -> u32, D: Fn(u32, i32) -> u32>(
    c1: Seq<Seq<u32>>,
    c2: Seq<Seq<u32>>,
    orig: Seq<Seq<u32>>,
    height: int,
    width: int,
    a: int,
    b: int,
    plus: P,
    divide: D,
)
    requires
        0 <= a < height,
        0 <= b < width,
        height >= 2,
        width >= 2,
        c1[a][b] == c2[a][b],
        forall|x: int, y: int|
            0 <= x < height && 0 <= y < width && row_before(x, y, a, b) ==> #[trigger] c1[x][y] == c2[x][y],
    ensures
        is_filled(c1, orig, height, width, a, b, plus, divide) == is_filled(c2, orig, height, width, a, b, plus, divide),
{
    lemma_reads_in_grid(orig, height, width, a, b);
    let nb = fill_reads(orig, height, width, a, b);
    let v1 = Seq::new(nb.len(), |k: int| seen(c1, orig, a, b, nb[k].0, nb[k].1));
    let v2 = Seq::new(nb.len(), |k: int| seen(c2, orig, a, b, nb[k].0, nb[k].1));
    assert forall|k: int| 0 <= k < nb.len() implies v1[k] == v2[k] by {
        let p = nb[k];
        if row_before(p.0, p.1, a, b) {
            assert(c1[p.0][p.1] == c2[p.0][p.1]);
        }
    }
    assert(v1 =~= v2);
}

/// The total of the known heights at positions `at` of `cells`, added in order with
/// `plus` from zero, and the number of known heights.
fn known_total<P: Fn(u32, u32) -> u32>(cells: &Vec<Vec<u32>>, at: &Vec<(usize, usize)>, plus: &P) -> (r: (u32, usize))
    requires
        forall|a: u32, b: u32| plus.requires((a, b)),
        forall|k: int| 0 <= k < at@.len() ==> #[trigger] in_cells(rows_view(cells@), at@[k].0 as int, at@[k].1 as int),
    ensures
        is_known_total(
            Seq::new(at@.len(), |k: int| rows_view(cells@)[at@[k].0 as int][at@[k].1 as int]),
            *plus,
            r.0,
        ),
        r.1 == known(Seq::new(at@.len(), |k: int| rows_view(cells@)[at@[k].0 as int][at@[k].1 as int])).len(),
        r.1 <= at@.len(),
{
    let ghost vals = Seq::new(at@.len(), |k: int| rows_view(cells@)[at@[k].0 as int][at@[k].1 as int]);
    let mut t: u32 = ZERO;
    let mut n: usize = 0;
    let ghost mut ts: Seq<u32> = seq![ZERO];
    let mut k: usize = 0;
    while k < at.len()
        invariant
            k <= at.len(),
            n == known(vals.subrange(0, k as int)).len(),
            n <= k,
            forall|a: u32, b: u32| plus.requires((a, b)),
            forall|q: int| 0 <= q < at@.len() ==> #[trigger] in_cells(rows_view(cells@), at@[q].0 as int, at@[q].1 as int),
            vals == Seq::new(at@.len(), |q: int| rows_view(cells@)[at@[q].0 as int][at@[q].1 as int]),
            ts.len() == k + 1,
            ts[0] == ZERO,
            ts[k as int] == t,
            forall|q: int|
                0 <= q < k ==> if is_nan(vals[q]) {
                    ts[q + 1] == ts[q]
                } else {
                    (*plus).ensures((ts[q], vals[q]), #[trigger] ts[q + 1])
                },
        decreases at.len() - k,
    {
        let (a, b) = at[k];
        assert(in_cells(rows_view(cells@), at@[k as int].0 as int, at@[k as int].1 as int));
        let v = cells[a][b];
        assert(v == vals[k as int]);
        assert(vals.subrange(0, k + 1).drop_last() =~= vals.subrange(0, k as int));
        if !is_nan_bits(v) {
            t = plus(t, v);
            n = n + 1;
        }
        proof {
            ts = ts.push(t);
        }
        k = k + 1;
    }
    assert(is_known_total(vals, *plus, t));
    assert(vals.subrange(0, at.len() as int) =~= vals);
    (t, n)
}

/// Passing over a known cell `(i, j)` keeps the filling state.
proof fn lemma_fill_skip<P: Fn(u32, u32) -> u32, D: Fn(u32, i32) -> u32>(
    cur: Seq<Seq<u32>>,
    orig: Seq<Seq<u32>>,
    h: int,
    w: int,
    i: int,
    j: int,
    plus: P,
    divide: D,
)
    requires
        filled_until(cur, orig, h, w, i, j, plus, divide),
        grid_in(orig, h, w),
        0 <= i < h,
        0 <= j < w,
        !is_nan(orig[i][j]),
    ensures
        filled_until(cur, orig, h, w, i, j + 1, plus, divide),
{
    assert forall|a: int, b: int| #[trigger] in_cells(orig, a, b) implies (if 0 <= a < h && 0 <= b < w && row_before(
        a,
        b,
        i,
        j + 1,
    ) {
        fill_ok(cur, orig, h, w, a, b, plus, divide)
    } else {
        cur[a][b] == orig[a][b]
    }) by {
        if a == i && b == j {
            assert(!is_nan(orig[a][b]));
        }
    }
}

/// The height computed for the unknown cell `(i, j)` from the neighbours at `at` is its
/// filled height once written.
proof fn lemma_fill_value<P: Fn(u32, u32) -> u32, D: Fn(u32, i32) -> u32>(
    cur: Seq<Seq<u32>>,
    orig: Seq<Seq<u32>>,
    h: int,
    w: int,
    i: int,
    j: int,
    at: Seq<(usize, usize)>,
    t: u32,
    v: u32,
    plus: P,
    divide: D,
)
    requires
        filled_until(cur, orig, h, w, i, j, plus, divide),
        grid_in(orig, h, w),
        0 <= i < h,
        0 <= j < w,
        h >= 2,
        w >= 2,
        as_ints(at) == fill_reads(orig, h, w, i, j),
        is_known_total(Seq::new(at.len(), |k: int| cur[at[k].0 as int][at[k].1 as int]), plus, t),
        known(Seq::new(at.len(), |k: int| cur[at[k].0 as int][at[k].1 as int])).len() == 0 ==> v == ZERO,
        known(Seq::new(at.len(), |k: int| cur[at[k].0 as int][at[k].1 as int])).len() > 0 ==> divide.ensures(
            (t, known(Seq::new(at.len(), |k: int| cur[at[k].0 as int][at[k].1 as int])).len() as i32),
            v,
        ),
    ensures
        is_filled(cur.update(i, cur[i].update(j, v)), orig, h, w, i, j, plus, divide),
{
    let c2 = cur.update(i, cur[i].update(j, v));
    let nb = fill_reads(orig, h, w, i, j);
    lemma_reads_in_grid(orig, h, w, i, j);
    assert(in_cells(orig, i, j));
    let vals_exec = Seq::new(at.len(), |k: int| cur[at[k].0 as int][at[k].1 as int]);
    let vals = Seq::new(nb.len(), |k: int| seen(c2, orig, i, j, nb[k].0, nb[k].1));
    assert forall|k: int| 0 <= k < nb.len() implies vals[k] == vals_exec[k] by {
        assert(as_ints(at)[k] == nb[k]);
        let p = nb[k];
        assert(in_cells(orig, p.0, p.1));
        assert(cur[p.0].len() == orig[p.0].len());
        if !row_before(p.0, p.1, i, j) {
            assert(cur[p.0][p.1] == orig[p.0][p.1]);
        }
    }
    assert(vals =~= vals_exec);
    assert(c2[i][j] == v);
}

/// Writing the filled height of the unknown cell `(i, j)` moves the filling state past it.
proof fn lemma_fill_write<P: Fn(u32, u32) -> u32, D: Fn(u32, i32) -> u32>(
    cur: Seq<Seq<u32>>,
    orig: Seq<Seq<u32>>,
    h: int,
    w: int,
    i: int,
    j: int,
    v: u32,
    plus: P,
    divide: D,
)
    requires
        filled_until(cur, orig, h, w, i, j, plus, divide),
        grid_in(orig, h, w),
        0 <= i < h,
        0 <= j < w,
        h >= 2,
        w >= 2,
        is_nan(orig[i][j]),
        is_filled(cur.update(i, cur[i].update(j, v)), orig, h, w, i, j, plus, divide),
    ensures
        filled_until(cur.update(i, cur[i].update(j, v)), orig, h, w, i, j + 1, plus, divide),
{
    let c2 = cur.update(i, cur[i].update(j, v));
    assert(in_cells(orig, i, j));
    assert forall|a: int| 0 <= a < orig.len() implies #[trigger] c2[a].len() == orig[a].len() by {
        assert(cur[a].len() == orig[a].len());
    }
    assert forall|a: int, b: int| #[trigger] in_cells(orig, a, b) implies (if 0 <= a < h && 0 <= b < w && row_before(
        a,
        b,
        i,
        j + 1,
    ) {
        fill_ok(c2, orig, h, w, a, b, plus, divide)
    } else {
        c2[a][b] == orig[a][b]
    }) by {
        if a != i || b != j {
            assert(cur[a].len() == orig[a].len());
            assert(c2[a][b] == cur[a][b]);
            if 0 <= a < h && 0 <= b < w && row_before(a, b, i, j) && is_nan(orig[a][b]) {
                assert forall|x: int, y: int|
                    0 <= x < h && 0 <= y < w && row_before(x, y, a, b) implies #[trigger] cur[x][y] == c2[x][y] by {
                    assert(in_cells(orig, x, y));
                    assert(cur[x].len() == orig[x].len());
                }
                lemma_filled_frame(cur, c2, orig, h, w, a, b, plus, divide);
            }
        }
    }
}

/// The filling state at the end of row `i` is the state at the start of row `i + 1`.
proof fn lemma_fill_row_end<P: Fn(u32, u32) -> u32, D: Fn(u32, i32) -> u32>(
    cur: Seq<Seq<u32>>,
    orig: Seq<Seq<u32>>,
    h: int,
    w: int,
    i: int,
    plus: P,
    divide: D,
)
    requires
        filled_until(cur, orig, h, w, i, w, plus, divide),
        w >= 1,
        i >= 0,
    ensures
        filled_until(cur, orig, h, w, i + 1, 0, plus, divide),
        edges_before(orig, w, i + 1, 0) == edges_before(orig, w, i, w),
{
    assert forall|a: int, b: int| #[trigger] in_cells(orig, a, b) implies (if 0 <= a < h && 0 <= b < w && row_before(
        a,
        b,
        i + 1,
        0,
    ) {
        fill_ok(cur, orig, h, w, a, b, plus, divide)
    } else {
        cur[a][b] == orig[a][b]
    }) by {
        if 0 <= b < w {
            assert(row_before(a, b, i + 1, 0) == row_before(a, b, i, w));
        }
    }
}

impl Heightmap {
    /// Fills every unknown (NaN) cell of the grid of `height` rows of `width` cells with
    /// the average of the cells around it. The grid is taken row by row, filling in place,
    /// so a cell sees its neighbours before it already filled. A filled cell's height is
    /// the total of its known neighbours (added with `plus`, binary32 addition) divided
    /// with `divide` (binary32 division) by the number of known neighbours; a cell with no
    /// known neighbour becomes zero. Which neighbours are read follows edge flags: the top
    /// and bottom flags
    /// are set per row (see `row_edges`), the left and right flags only at unknown cells
    /// (see `col_edges`), so a flag can carry over from an earlier unknown cell.
    pub fn interpolate_nan<P: Fn(u32, u32) -> u32, D: Fn(u32, i32) -> u32>(&mut self, plus: P, divide: D)
        requires
            forall|a: u32, b: u32| plus.requires((a, b)),
            forall|t: u32, n: i32| divide.requires((t, n)),
            grid_in(old(self)@.cells, old(self)@.height as int, old(self)@.width as int),
            grid_has_nan(old(self)@.cells, old(self)@.height as int, old(self)@.width as int) ==> old(self)@.height
                >= 2 && old(self)@.width >= 2,
        ensures
            final(self)@ == (HeightmapView { cells: final(self)@.cells, ..old(self)@ }),
            filled_until(
                final(self)@.cells,
                old(self)@.cells,
                old(self)@.height as int,
                old(self)@.width as int,
                old(self)@.height as int,
                0,
                plus,
                divide,
            ),
    {
        let ghost orig = self@.cells;
        let ghost h = self.height as int;
        let ghost w = self.width as int;
        if self.width == 0 {
            assert(filled_until(self@.cells, orig, h, w, h, 0, plus, divide));
            return;
        }
        let mut top = false;
        let mut bottom = false;
        let mut left = false;
        let mut right = false;
        let mut i: usize = 0;
        while i < self.height
            invariant
                self@ == (HeightmapView { cells: self@.cells, ..old(self)@ }),
                orig == old(self)@.cells,
                h == self.height,
                w == self.width,
                w >= 1,
                i <= h,
                forall|a: u32, b: u32| plus.requires((a, b)),
                forall|t: u32, n: i32| divide.requires((t, n)),
                grid_in(orig, h, w),
                grid_has_nan(orig, h, w) ==> h >= 2 && w >= 2,
                i == 0 ==> !top && !bottom,
                i > 0 ==> (top, bottom) == row_edges(i - 1, h),
                (left, right) == edges_before(orig, w, i as int, 0),
                filled_until(self@.cells, orig, h, w, i as int, 0, plus, divide),
            decreases h - i,
        {
            if i == 0 {
                top = true;
            } else if i == self.height - 1 {
                bottom = true;
            } else {
                top = false;
                bottom = false;
            }
            let mut j: usize = 0;
            while j < self.width
                invariant
                    self@ == (HeightmapView { cells: self@.cells, ..old(self)@ }),
                    orig == old(self)@.cells,
                    h == self.height,
                    w == self.width,
                    w >= 1,
                    i < h,
                    j <= w,
                    forall|a: u32, b: u32| plus.requires((a, b)),
                    forall|t: u32, n: i32| divide.requires((t, n)),
                    grid_in(orig, h, w),
                    grid_has_nan(orig, h, w) ==> h >= 2 && w >= 2,
                    (top, bottom) == row_edges(i as int, h),
                    (left, right) == edges_before(orig, w, i as int, j as int),
                    filled_until(self@.cells, orig, h, w, i as int, j as int, plus, divide),
                decreases w - j,
            {
                let ghost cur = self@.cells;
                assert(in_cells(orig, i as int, j as int));
                assert(cur[i as int].len() == orig[i as int].len());
                assert(cur[i as int][j as int] == orig[i as int][j as int]);
                assert(edges_before(orig, w, i as int, j + 1) == if is_nan(orig[i as int][j as int]) {
                    col_edges(j as int, w, edges_before(orig, w, i as int, j as int))
                } else {
                    edges_before(orig, w, i as int, j as int)
                });
                if !is_nan_bits(self.cells[i][j]) {
                    proof {
                        lemma_fill_skip(cur, orig, h, w, i as int, j as int, plus, divide);
                    }
                    j = j + 1;
                    continue;
                }
                assert(grid_has_nan(orig, h, w));
                if j == 0 {
                    left = true;
                } else if j == self.width - 1 {
                    right = true;
                } else {
                    left = false;
                    right = false;
                }
                let at = neighbour_cells(i, j, top, bottom, left, right);
                proof {
                    lemma_reads_in_grid(orig, h, w, i as int, j as int);
                    let nb = fill_reads(orig, h, w, i as int, j as int);
                    assert(as_ints(at@) == nb);
                    assert forall|k: int| 0 <= k < at@.len() implies #[trigger] in_cells(
                        rows_view(self.cells@),
                        at@[k].0 as int,
                        at@[k].1 as int,
                    ) by {
                        assert(as_ints(at@)[k] == nb[k]);
                        assert(in_cells(orig, nb[k].0, nb[k].1));
                        assert(cur[nb[k].0].len() == orig[nb[k].0].len());
                    }
                    assert(Seq::new(at@.len(), |k: int| rows_view(self.cells@)[at@[k].0 as int][at@[k].1 as int])
                        =~= Seq::new(at@.len(), |k: int| cur[at@[k].0 as int][at@[k].1 as int]));
                }
                let (total, n_known) = known_total(&self.cells, &at, &plus);
                let ghost vs = Seq::new(at@.len(), |k: int| cur[at@[k].0 as int][at@[k].1 as int]);
                assert(n_known == known(vs).len());
                let v = if n_known == 0 {
                    ZERO
                } else {
                    divide(total, n_known as i32)
                };
                proof {
                    lemma_fill_value(cur, orig, h, w, i as int, j as int, at@, total, v, plus, divide);
                    lemma_fill_write(cur, orig, h, w, i as int, j as int, v, plus, divide);
                }
                self.cells[i][j] = v;
                assert(self@.cells == cur.update(i as int, cur[i as int].update(j as int, v)));
                j = j + 1;
            }
            proof {
                lemma_fill_row_end(self@.cells, orig, h, w, i as int, plus, divide);
            }
            i = i + 1;
        }
    }
}

impl Heightmap {
    /// Whether `deepest_row` can read the row of the deepest point: the cached maximum
    /// names an existing row, or, when it is stale, the map has a row for the search to
    /// fall back on.
    pub fn deepest_row_ready(&self) -> (r: bool)
        ensures
            r == ((self@.max_updated ==> self@.max_pos.0 < self@.cells.len()) && (!self@.max_updated
                ==> self@.cells.len() > 0)),
    {
        if self.max_updated {
            self.max_pos.0 < self.cells.len()
        } else {
            self.cells.len() > 0
        }
    }

    /// Whether cell `(x, y)` exists.
    pub fn has_cell(&self, x: usize, y: usize) -> (r: bool)
        ensures
            r == in_cells(self@.cells, x as int, y as int),
    {
        x < self.cells.len() && y < self.cells[x].len()
    }

    /// Brings the extremes up to date as a feature estimate needs them and returns the
    /// row of the deepest point (the maximum: heights grow away from the camera), the
    /// maximum height and a copy of that row.
    pub fn deepest_row(&mut self) -> (r: (usize, u32, Vec<u32>))
        requires
            old(self)@.max_updated ==> old(self)@.max_pos.0 < old(self)@.cells.len(),
            !old(self)@.max_updated ==> old(self)@.cells.len() > 0,
        ensures
            final(self)@ == refreshed(old(self)@),
            r.0 == final(self)@.max_pos.0,
            r.0 < final(self)@.cells.len(),
            r.1 == final(self)@.max,
            r.2@ == final(self)@.cells[r.0 as int],
    {
        let rows = self.cells.len();
        proof {
            if !self@.max_updated {
                let s = scanned(self@.cells);
                lemma_max_scan_pos(s);
                let n = self@.cells.len() as int;
                lemma_entries_rows(self@.cells, 1, n);
                let all = entries_between(self@.cells, 1, n);
                if max_scan(s).1 != (0usize, 0usize) {
                    let k = choose|k: int|
                        0 <= k < s.len() && (#[trigger] s[k]).0 == max_scan(s).1.0 && s[k].1
                            == max_scan(s).1.1;
                    assert(s[k] == all[k + 1]);
                }
            }
        }
        if !self.max_updated {
            self.get_max();
            self.get_min();
        }
        let r = self.max_pos.0;
        let row = copy_row(&self.cells[r]);
        (r, self.max, row)
    }
}


/// Bit pattern of `9999.0`, where the smallest height of a cell starts.
pub const CELL_MIN_START: u32 = 0x461c_3c00;

/// Bit pattern of `-9999.0`, where the largest height of a cell starts.
pub const CELL_MAX_START: u32 = 0xc61c_3c00;

/// The bin a coordinate falls into, searching from bin `n` on: the first bin, short of
/// the last, whose upper limit the coordinate does not exceed, and the last bin otherwise.
pub open spec fn bin_from(c: u32, limits: Seq<u32>, n: int) -> int
    decreases limits.len() - n,
{
    if n >= limits.len() - 1 {
        limits.len() - 1
    } else if le(c, limits[n]) {
        n
    } else {
        bin_from(c, limits, n + 1)
    }
}

/// The bin a coordinate falls into (see `bin_from`).
pub open spec fn bin_of(c: u32, limits: Seq<u32>) -> int {
    bin_from(c, limits, 0)
}

/// Whether the bin search ends for `c`: there is a bin, and with a single bin the
/// coordinate must not exceed its limit (else the search runs past the last bin).
pub open spec fn bin_ends(c: u32, limits: Seq<u32>) -> bool {
    limits.len() >= 1 && (limits.len() == 1 ==> le(c, limits[0]))
}

/// The heights of the points that fall into cell `(m, n)`, in order: `n` is the bin of
/// the point's x among `x_limits`, `m` that of its y among `y_limits`.
pub open spec fn heights_in(
    data: Seq<[u32; 3]>,
    x_limits: Seq<u32>,
    y_limits: Seq<u32>,
    m: int,
    n: int,
) -> Seq<u32>
    decreases data.len(),
{
    if data.len() == 0 {
        Seq::empty()
    } else {
        heights_in(data.drop_last(), x_limits, y_limits, m, n) + if bin_of(data.last()[0], x_limits)
            == n && bin_of(data.last()[1], y_limits) == m {
            seq![data.last()[2]]
        } else {
            Seq::empty()
        }
    }
}

/// The finished value of one cell of a generated heightmap, or the values that the cell's
/// height is to be computed from.
#[derive(Debug, PartialEq, Eq)]
pub enum CellStat {
    /// No known height fell into the cell: its height is NaN.
    Unknown,
    /// The cell's height.
    Value(u32),
    /// The cell's height is the mean of these (known) heights, summed in order.
    MeanOf(Vec<u32>),
    /// The cell's height is the midpoint `(a + b) / 2` of these two heights.
    MidpointOf(u32, u32),
}

/// The heights in `p` that are not NaN, in order.
pub open spec fn known(p: Seq<u32>) -> Seq<u32>
    decreases p.len(),
{
    if p.len() == 0 {
        Seq::empty()
    } else {
        known(p.drop_last()) + if is_nan(p.last()) {
            Seq::<u32>::empty()
        } else {
            seq![p.last()]
        }
    }
}

/// The smallest height in `p` against a start of 9999.
pub open spec fn cell_min(p: Seq<u32>) -> u32
    decreases p.len(),
{
    if p.len() == 0 {
        CELL_MIN_START
    } else {
        let prev = cell_min(p.drop_last());
        if lt(p.last(), prev) {
            p.last()
        } else {
            prev
        }
    }
}

/// The largest height in `p` against a start of -9999.
pub open spec fn cell_max(p: Seq<u32>) -> u32
    decreases p.len(),
{
    if p.len() == 0 {
        CELL_MAX_START
    } else {
        let prev = cell_max(p.drop_last());
        if lt(prev, p.last()) {
            p.last()
        } else {
            prev
        }
    }
}

/// Whether `s` is in the total order of binary32 values (`total_cmp`).
pub open spec fn total_sorted(s: Seq<u32>) -> bool {
    forall|i: int, j: int| 0 <= i < j < s.len() ==> total_key(s[i]) <= total_key(s[j])
}

/// Whether `s` holds the heights of `p` in the total order.
pub open spec fn sorts(p: Seq<u32>, s: Seq<u32>) -> bool {
    s.to_multiset() == p.to_multiset() && total_sorted(s)
}

/// The middle of the sorted heights `s`: the middle one for an odd count, the midpoint
/// of the two middle ones for an even count.
pub open spec fn median_of_sorted(s: Seq<u32>) -> CellStat {
    if s.len() == 1 {
        CellStat::Value(s[0])
    } else if s.len() % 2 == 0 {
        CellStat::MidpointOf(s[(s.len() / 2) as int], s[(s.len() - 1) / 2])
    } else {
        CellStat::Value(s[(s.len() / 2) as int])
    }
}

/// Whether `c` is the value of a cell into which the heights `p` fell, under `opt`.
pub open spec fn cell_stat_of(c: CellStat, p: Seq<u32>, opt: MapGenOpt) -> bool {
    if p.len() == 0 || (forall|i: int| 0 <= i < p.len() ==> is_nan(#[trigger] p[i])) {
        c == CellStat::Unknown
    } else {
        match opt {
            MapGenOpt::Mean => c matches CellStat::MeanOf(v) && v@ == known(p),
            MapGenOpt::Median => exists|s: Seq<u32>| sorts(p, s) && c == median_of_sorted(s),
            MapGenOpt::Min => c == CellStat::Value(cell_min(p)),
            MapGenOpt::Max => c == CellStat::Value(cell_max(p)),
        }
    }
}

/// The key of the total order of binary32 values.
fn total_order_key(b: u32) -> (r: i64)
    ensures
        r == total_key(b),
{
    if b >= 0x8000_0000 {
        -1 - (b % 0x8000_0000) as i64
    } else {
        b as i64
    }
}

/// Sorts `v` into the total order of binary32 values, by `slice::sort_unstable_by_key`
/// with the total order key: afterwards `v` holds the same heights, ascending by key.
#[verifier::external_body]
fn sort_total(v: &mut Vec<u32>)
    ensures
        final(v)@.to_multiset() == old(v)@.to_multiset(),
        total_sorted(final(v)@),
{
    v.sort_unstable_by_key(|b| total_order_key(*b));
}

/// The bin that coordinate `c` falls into among the bins with upper limits `limits`
/// (see `bin_from`).
pub fn bin_index(c: u32, limits: &Vec<u32>) -> (r: usize)
    requires
        bin_ends(c, limits@),
    ensures
        r == bin_of(c, limits@),
{
    let last = limits.len() - 1;
    let mut n: usize = 0;
    loop
        invariant
            last == limits.len() - 1,
            n <= last,
            n == last ==> le(c, limits@[n as int]),
            bin_ends(c, limits@),
            bin_of(c, limits@) == bin_from(c, limits@, n as int),
        decreases last - n,
    {
        if le_bits(c, limits[n]) {
            assert(le(c, limits@[n as int]));
            assert(bin_from(c, limits@, n as int) == n as int);
            return n;
        }
        assert(bin_from(c, limits@, n as int) == bin_from(c, limits@, n + 1));
        n = n + 1;
        if n == last {
            assert(bin_from(c, limits@, n as int) == n as int);
            return n;
        }
    }
}

/// Sorts the points into cells: point `p` goes to the cell `(m, n)` where `n` is the bin
/// of its x among `x_limits` and `m` that of its y among `y_limits`, and the cell keeps
/// the points' heights in their order.
pub fn group_points(data: &Vec<[u32; 3]>, x_limits: &Vec<u32>, y_limits: &Vec<u32>) -> (r: Vec<
    Vec<Vec<u32>>,
>)
    requires
        forall|k: int|
            0 <= k < data.len() ==> bin_ends((#[trigger] data@[k])[0], x_limits@) && bin_ends(
                data@[k][1],
                y_limits@,
            ),
    ensures
        r@.len() == y_limits.len(),
        forall|m: int| 0 <= m < y_limits.len() ==> #[trigger] r@[m]@.len() == x_limits.len(),
        forall|m: int, n: int|
            0 <= m < y_limits.len() && 0 <= n < x_limits.len() ==> (#[trigger] r@[m]@[n])@
                == heights_in(data@, x_limits@, y_limits@, m, n),
{
    let mut cells: Vec<Vec<Vec<u32>>> = Vec::new();
    let mut m: usize = 0;
    while m < y_limits.len()
        invariant
            m <= y_limits.len(),
            cells@.len() == m,
            forall|i: int| 0 <= i < m ==> #[trigger] cells@[i]@.len() == x_limits.len(),
            forall|i: int, j: int|
                0 <= i < m && 0 <= j < x_limits.len() ==> (#[trigger] cells@[i]@[j])@ == Seq::<
                    u32,
                >::empty(),
        decreases y_limits.len() - m,
    {
        let mut row: Vec<Vec<u32>> = Vec::new();
        let mut n: usize = 0;
        while n < x_limits.len()
            invariant
                n <= x_limits.len(),
                row@.len() == n,
                forall|j: int| 0 <= j < n ==> (#[trigger] row@[j])@ == Seq::<u32>::empty(),
            decreases x_limits.len() - n,
        {
            row.push(Vec::new());
            n = n + 1;
        }
        cells.push(row);
        m = m + 1;
    }
    let mut k: usize = 0;
    while k < data.len()
        invariant
            k <= data.len(),
            forall|i: int|
                0 <= i < data.len() ==> bin_ends((#[trigger] data@[i])[0], x_limits@) && bin_ends(
                    data@[i][1],
                    y_limits@,
                ),
            cells@.len() == y_limits.len(),
            forall|i: int| 0 <= i < y_limits.len() ==> #[trigger] cells@[i]@.len() == x_limits.len(),
            forall|i: int, j: int|
                0 <= i < y_limits.len() && 0 <= j < x_limits.len() ==> (#[trigger] cells@[i]@[j])@
                    == heights_in(data@.subrange(0, k as int), x_limits@, y_limits@, i, j),
        decreases data.len() - k,
    {
        let pnt = data[k];
        let n = bin_index(pnt[0], x_limits);
        let m = bin_index(pnt[1], y_limits);
        proof {
            let sub = data@.subrange(0, k + 1);
            assert(sub.drop_last() =~= data@.subrange(0, k as int));
            assert(sub.last() == pnt);
            assert(0 <= bin_from(pnt[1], y_limits@, 0) < y_limits.len()) by {
                lemma_bin_range(pnt[1], y_limits@, 0);
            }
            assert(0 <= bin_from(pnt[0], x_limits@, 0) < x_limits.len()) by {
                lemma_bin_range(pnt[0], x_limits@, 0);
            }
        }
        let ghost before = cells@;
        cells[m][n].push(pnt[2]);
        proof {
            assert forall|i: int, j: int|
                0 <= i < y_limits.len() && 0 <= j < x_limits.len() implies (#[trigger] cells@[i]@[j])@
                == heights_in(data@.subrange(0, k + 1), x_limits@, y_limits@, i, j) by {
                let sub = data@.subrange(0, k + 1);
                if i == m && j == n {
                    assert(cells@[i]@[j]@ =~= before[i]@[j]@.push(pnt[2]));
                } else {
                    assert(cells@[i]@[j] == before[i]@[j]);
                    assert(heights_in(sub, x_limits@, y_limits@, i, j) =~= heights_in(
                        data@.subrange(0, k as int),
                        x_limits@,
                        y_limits@,
                        i,
                        j,
                    ));
                }
            }
        }
        k = k + 1;
    }
    proof {
        assert(data@.subrange(0, data.len() as int) =~= data@);
    }
    cells
}

/// A bin search from `n` ends on a bin, and not before bin `n`.
pub(crate) proof fn lemma_bin_range(c: u32, limits: Seq<u32>, n: int)
    requires
        limits.len() >= 1,
        0 <= n,
    ensures
        0 <= bin_from(c, limits, n) < limits.len(),
        n <= limits.len() - 1 ==> n <= bin_from(c, limits, n),
    decreases limits.len() - n,
{
    if n < limits.len() - 1 && !le(c, limits[n]) {
        lemma_bin_range(c, limits, n + 1);
    }
}

/// The value of a cell into which the heights `pnts` fell, under `opt`: unknown when no
/// height or only NaN heights fell into it; otherwise their mean (all the known
/// heights), median (after sorting in the total order), smallest or largest.
pub fn reduce_cell(pnts: Vec<u32>, opt: &MapGenOpt) -> (r: CellStat)
    ensures
        cell_stat_of(r, pnts@, *opt),
{
    let mut all_nan = true;
    let mut i: usize = 0;
    while i < pnts.len()
        invariant
            i <= pnts.len(),
            all_nan == forall|j: int| 0 <= j < i ==> is_nan(#[trigger] pnts@[j]),
        decreases pnts.len() - i,
    {
        if !is_nan_bits(pnts[i]) {
            all_nan = false;
        }
        i = i + 1;
    }
    if all_nan || pnts.len() == 0 {
        return CellStat::Unknown;
    }
    match opt {
        MapGenOpt::Mean => {
            let mut vals: Vec<u32> = Vec::new();
            let mut k: usize = 0;
            while k < pnts.len()
                invariant
                    k <= pnts.len(),
                    vals@ == known(pnts@.subrange(0, k as int)),
                decreases pnts.len() - k,
            {
                let ghost sub = pnts@.subrange(0, k + 1);
                assert(sub.drop_last() =~= pnts@.subrange(0, k as int));
                if !is_nan_bits(pnts[k]) {
                    vals.push(pnts[k]);
                }
                assert(vals@ =~= known(sub));
                k = k + 1;
            }
            assert(pnts@.subrange(0, pnts.len() as int) =~= pnts@);
            CellStat::MeanOf(vals)
        },
        MapGenOpt::Median => {
            let mut sorted = pnts;
            let ghost p = sorted@;
            sort_total(&mut sorted);
            let n = sorted.len();
            proof {
                broadcast use vstd::seq_lib::group_to_multiset_ensures;
                assert(sorted@.len() == p.len()) by {
                    assert(sorted@.to_multiset().len() == p.to_multiset().len());
                }
                assert(sorts(p, sorted@));
            }
            let r = if n == 1 {
                CellStat::Value(sorted[0])
            } else if n % 2 == 0 {
                CellStat::MidpointOf(sorted[n / 2], sorted[(n - 1) / 2])
            } else {
                CellStat::Value(sorted[n / 2])
            };
            assert(r == median_of_sorted(sorted@));
            r
        },
        MapGenOpt::Min => {
            let mut best = CELL_MIN_START;
            let mut k: usize = 0;
            while k < pnts.len()
                invariant
                    k <= pnts.len(),
                    best == cell_min(pnts@.subrange(0, k as int)),
                decreases pnts.len() - k,
            {
                let ghost sub = pnts@.subrange(0, k + 1);
                assert(sub.drop_last() =~= pnts@.subrange(0, k as int));
                if lt_bits(pnts[k], best) {
                    best = pnts[k];
                }
                k = k + 1;
            }
            assert(pnts@.subrange(0, pnts.len() as int) =~= pnts@);
            CellStat::Value(best)
        },
        MapGenOpt::Max => {
            let mut best = CELL_MAX_START;
            let mut k: usize = 0;
            while k < pnts.len()
                invariant
                    k <= pnts.len(),
                    best == cell_max(pnts@.subrange(0, k as int)),
                decreases pnts.len() - k,
            {
                let ghost sub = pnts@.subrange(0, k + 1);
                assert(sub.drop_last() =~= pnts@.subrange(0, k as int));
                if lt_bits(best, pnts[k]) {
                    best = pnts[k];
                }
                k = k + 1;
            }
            assert(pnts@.subrange(0, pnts.len() as int) =~= pnts@);
            CellStat::Value(best)
        },
    }
}

/// Turns points `[x, y, height]` into the cells of a 2.5D heightmap: one row per bin of
/// `y_limits`, one cell per bin of `x_limits` (the limits are each bin's upper bound), and
/// each cell's value made from the heights that fell into it under `opt`.
pub fn trans_to_heightmap(data: Vec<[u32; 3]>, x_limits: &Vec<u32>, y_limits: &Vec<u32>, opt: MapGenOpt) -> (r: Vec<
    Vec<CellStat>,
>)
    requires
        forall|k: int|
            0 <= k < data.len() ==> bin_ends((#[trigger] data@[k])[0], x_limits@) && bin_ends(
                data@[k][1],
                y_limits@,
            ),
    ensures
        r@.len() == y_limits.len(),
        forall|m: int| 0 <= m < y_limits.len() ==> #[trigger] r@[m]@.len() == x_limits.len(),
        forall|m: int, n: int|
            0 <= m < y_limits.len() && 0 <= n < x_limits.len() ==> cell_stat_of(
                #[trigger] r@[m]@[n],
                heights_in(data@, x_limits@, y_limits@, m, n),
                opt,
            ),
{
    let lists = group_points(&data, x_limits, y_limits);
    let mut cells: Vec<Vec<CellStat>> = Vec::new();
    let mut i: usize = 0;
    while i < lists.len()
        invariant
            i <= lists.len(),
            lists@.len() == y_limits.len(),
            forall|m: int| 0 <= m < y_limits.len() ==> #[trigger] lists@[m]@.len() == x_limits.len(),
            forall|m: int, n: int|
                0 <= m < y_limits.len() && 0 <= n < x_limits.len() ==> (#[trigger] lists@[m]@[n])@
                    == heights_in(data@, x_limits@, y_limits@, m, n),
            cells@.len() == i,
            forall|m: int| 0 <= m < i ==> #[trigger] cells@[m]@.len() == x_limits.len(),
            forall|m: int, n: int|
                0 <= m < i && 0 <= n < x_limits.len() ==> cell_stat_of(
                    #[trigger] cells@[m]@[n],
                    heights_in(data@, x_limits@, y_limits@, m, n),
                    opt,
                ),
        decreases lists.len() - i,
    {
        let mut row: Vec<CellStat> = Vec::new();
        let mut j: usize = 0;
        while j < lists[i].len()
            invariant
                i < lists.len(),
                lists@.len() == y_limits.len(),
                lists@[i as int]@.len() == x_limits.len(),
                forall|n: int|
                    0 <= n < x_limits.len() ==> (#[trigger] lists@[i as int]@[n])@ == heights_in(
                        data@,
                        x_limits@,
                        y_limits@,
                        i as int,
                        n,
                    ),
                j <= lists@[i as int]@.len(),
                row@.len() == j,
                forall|n: int|
                    0 <= n < j ==> cell_stat_of(
                        #[trigger] row@[n],
                        heights_in(data@, x_limits@, y_limits@, i as int, n),
                        opt,
                    ),
            decreases lists@[i as int]@.len() - j,
        {
            let pnts = copy_u32s(&lists[i][j]);
            let c = reduce_cell(pnts, &opt);
            row.push(c);
            j = j + 1;
        }
        cells.push(row);
        i = i + 1;
    }
    cells
}

fn copy_u32s(v: &Vec<u32>) -> (r: Vec<u32>)
    ensures
        r@ == v@,
{
    copy_row(v)
}


/// The tokens of one bracketed piece of a heightmap file's bounds line: white space and
/// the closing bracket are taken off, and the rest is split at commas.
pub open spec fn piece_tokens(piece: Seq<char>) -> Seq<Seq<char>> {
    fields(pop_last(trim(piece)), ',')
}

/// The tokens of the pieces, one piece after another.
pub open spec fn pieces_tokens(pieces: Seq<Seq<char>>) -> Seq<Seq<char>>
    decreases pieces.len(),
{
    if pieces.len() == 0 {
        Seq::empty()
    } else {
        piece_tokens(pieces[0]) + pieces_tokens(pieces.drop_first())
    }
}

/// The bound tokens of a heightmap file's first line: the line is split at `[`, the
/// part before the first `[` is left out, and each further part gives its tokens.
pub open spec fn bound_tokens(first: Seq<char>) -> Seq<Seq<char>> {
    pieces_tokens(fields(first, '[').drop_first())
}

/// The height tokens of one line of a heightmap file: its non-empty comma-separated pieces.
pub open spec fn row_tokens(line: Seq<char>) -> Seq<Seq<char>> {
    nonempty(fields(line, ','))
}

/// A heightmap file split into tokens.
pub struct HeightmapText {
    /// The bound tokens of the first line (see `bound_tokens`).
    pub bound_tokens: Vec<Vec<char>>,
    /// The height tokens of each further line (see `row_tokens`).
    pub rows: Vec<Vec<Vec<char>>>,
}

/// Splits a heightmap file into tokens. Its first line (as `BufRead::read_line` reads
/// it) holds the bounds, as in `bnds(low_point,upper_point):[x0,y0][x1,y1]`; each further
/// line holds one row of heights, each followed by a comma.
pub fn parse_heightmap_text(text: &Vec<char>) -> (r: HeightmapText)
    ensures
        views(r.bound_tokens@) == bound_tokens(text@.subrange(0, first_line_len(text@))),
        r.rows@.len() == lines(text@.subrange(first_line_len(text@), text@.len() as int)).len(),
        forall|i: int|
            0 <= i < r.rows@.len() ==> views(#[trigger] r.rows@[i]@) == row_tokens(
                lines(text@.subrange(first_line_len(text@), text@.len() as int))[i],
            ),
{
    let k = find_char(text, '\n', 0);
    let end: usize = if k < text.len() {
        k + 1
    } else {
        text.len()
    };
    assert(text@.subrange(0, text.len() as int) =~= text@);
    let first = copy_range(text, 0, end);
    let pieces = split_fields(&first, '[');
    let ghost ps = views(pieces@);
    let mut bound_toks: Vec<Vec<char>> = Vec::new();
    let mut i: usize = 1;
    proof {
        assert(fields(first@, '[').len() >= 1) by {
            reveal_with_fuel(fields, 2);
        }
        assert(ps.drop_first() =~= ps.subrange(1, ps.len() as int));
        assert(views(bound_toks@) + pieces_tokens(ps.subrange(1, ps.len() as int)) =~= pieces_tokens(
            ps.drop_first(),
        ));
    }
    while i < pieces.len()
        invariant
            1 <= i <= pieces.len(),
            ps == views(pieces@),
            ps.len() >= 1,
            views(bound_toks@) + pieces_tokens(ps.subrange(i as int, ps.len() as int))
                == pieces_tokens(ps.drop_first()),
        decreases pieces.len() - i,
    {
        let ghost rest = ps.subrange(i as int, ps.len() as int);
        assert(rest.drop_first() =~= ps.subrange(i + 1, ps.len() as int));
        assert(rest[0] == pieces@[i as int]@);
        let t = trim_chars(&pieces[i]);
        let mut t = t;
        if t.len() > 0 {
            t.pop();
        }
        assert(t@ =~= pop_last(trim(rest[0])));
        let toks = split_fields(&t, ',');
        let ghost old_b = views(bound_toks@);
        let mut j: usize = 0;
        while j < toks.len()
            invariant
                j <= toks.len(),
                views(bound_toks@) == old_b + views(toks@).subrange(0, j as int),
            decreases toks.len() - j,
        {
            let c = crate::data_types::text::copy_all(&toks[j]);
            assert(c@ == views(toks@)[j as int]);
            let ghost prev = views(bound_toks@);
            bound_toks.push(c);
            assert(views(bound_toks@) =~= prev.push(c@));
            j = j + 1;
            assert(views(bound_toks@) =~= old_b + views(toks@).subrange(0, j as int));
        }
        assert(views(toks@).subrange(0, toks.len() as int) =~= views(toks@));
        assert(views(bound_toks@) + pieces_tokens(ps.subrange(i + 1, ps.len() as int)) =~= old_b
            + pieces_tokens(rest));
        i = i + 1;
    }
    assert(ps.subrange(pieces.len() as int, ps.len() as int) =~= Seq::<Seq<char>>::empty());
    assert(views(bound_toks@) + Seq::<Seq<char>>::empty() =~= views(bound_toks@));
    let lines_v = split_lines(text, end);
    let mut rows: Vec<Vec<Vec<char>>> = Vec::new();
    let mut r: usize = 0;
    while r < lines_v.len()
        invariant
            r <= lines_v.len(),
            views(lines_v@) == lines(text@.subrange(end as int, text@.len() as int)),
            rows@.len() == r,
            forall|j: int| 0 <= j < r ==> views(#[trigger] rows@[j]@) == row_tokens(lines_v@[j]@),
        decreases lines_v.len() - r,
    {
        let f = split_fields(&lines_v[r], ',');
        let row = keep_nonempty(f);
        rows.push(row);
        r = r + 1;
    }
    proof {
        let rest = lines(text@.subrange(end as int, text@.len() as int));
        assert forall|j: int| 0 <= j < rows@.len() implies views(#[trigger] rows@[j]@) == row_tokens(
            rest[j],
        ) by {
            assert(views(lines_v@)[j] == lines_v@[j]@);
        }
    }
    HeightmapText { bound_tokens: bound_toks, rows }
}

/// Whether a map covering `o_lower` to `o_upper` can sit on a map covering `lower` to
/// `upper` (corners as `[x, y]`): neither area lies wholly beyond the other along x or y.
pub open spec fn sits_on(lower: Seq<u32>, upper: Seq<u32>, o_lower: Seq<u32>, o_upper: Seq<u32>) -> bool {
    !(lt(upper[0], o_lower[0]) || lt(o_upper[0], lower[0]) || lt(o_upper[1], lower[1]) || lt(upper[1], o_lower[1]))
}

impl Heightmap {
    /// Whether `other` can be slotted into this map: the areas the two maps cover overlap
    /// (see `sits_on`).
    pub fn can_hold(&self, other: &Heightmap) -> (r: bool)
        ensures
            r == sits_on(self@.lower, self@.upper, other@.lower, other@.upper),
    {
        let lower = self.lower_coord_bounds;
        let upper = self.upper_coord_bounds;
        let o_lower = other.lower_coord_bounds;
        let o_upper = other.upper_coord_bounds;
        !(lt_bits(upper[0], o_lower[0]) || lt_bits(o_upper[0], lower[0]) || lt_bits(o_upper[1], lower[1]) || lt_bits(
            upper[1],
            o_lower[1],
        ))
    }
}

/// Whether one of the first five bound tokens fails to read (reading stops there, before
/// a fifth bound would be stored).
pub open spec fn bound_fails(read: Seq<Option<u32>>) -> bool {
    exists|i: int| 0 <= i < read.len() && i <= 4 && #[trigger] read[i] is None
}

/// The bounds of a heightmap file from its bound tokens read as heights (`None` for a
/// token that does not read), read in order: unknown (NaN) all four when a token fails
/// to read, and otherwise the tokens in order, unknown where there are fewer than four.
/// More than four tokens that all read are not accepted.
pub fn file_bounds(read: &Vec<Option<u32>>) -> (r: [u32; 4])
    requires
        read.len() <= 4 || bound_fails(read@),
    ensures
        bound_fails(read@) ==> r@ == seq![NAN, NAN, NAN, NAN],
        !bound_fails(read@) ==> forall|k: int|
            0 <= k < 4 ==> #[trigger] r@[k] == if k < read.len() {
                read@[k].unwrap()
            } else {
                NAN
            },
{
    let mut bounds: [u32; 4] = [NAN, NAN, NAN, NAN];
    let mut i: usize = 0;
    while i < read.len()
        invariant
            read.len() <= 4 || bound_fails(read@),
            i <= read.len(),
            i <= 4,
            forall|q: int| 0 <= q < i ==> #[trigger] read@[q] is Some,
            forall|k: int|
                0 <= k < 4 ==> #[trigger] bounds@[k] == if k < i {
                    read@[k].unwrap()
                } else {
                    NAN
                },
        decreases read.len() - i,
    {
        match read[i] {
            Some(b) => {
                if i >= 4 {
                    proof {
                        let w = choose|w: int| 0 <= w < read@.len() && w <= 4 && #[trigger] read@[w] is None;
                        assert(read@[w] is Some);
                    }
                }
                bounds[i] = b;
            },
            None => {
                assert(bound_fails(read@));
                return [NAN, NAN, NAN, NAN];
            },
        }
        i = i + 1;
    }
    assert(!bound_fails(read@));
    bounds
}

impl Heightmap {
    /// A map loaded from the file `filepath`: its rows of heights, and its bounds as
    /// `[lower x, lower y, upper x, upper y]`. The height is the number of rows and the
    /// width the number of heights in the first row.
    pub fn create_from_rows(filepath: String, bounds: [u32; 4], cells: Vec<Vec<u32>>) -> (r: Heightmap)
        requires
            cell_count_fits(
                if cells@.len() > 0 {
                    cells@[0]@.len() as usize
                } else {
                    0usize
                },
                cells@.len() as usize,
            ),
        ensures
            r@ == (HeightmapView {
                height: cells@.len() as usize,
                width: if cells@.len() > 0 {
                    cells@[0]@.len() as usize
                } else {
                    0usize
                },
                no_of_cells: cell_count(r@.width, r@.height),
                min: MIN_START,
                max: MAX_START,
                min_updated: false,
                max_updated: false,
                min_pos: (0usize, 0usize),
                max_pos: (0usize, 0usize),
                cells: rows_view(cells@),
                lower: seq![bounds[0], bounds[1]],
                upper: seq![bounds[2], bounds[3]],
                filename: filepath@,
            }),
    {
        let height = cells.len();
        let width = if cells.len() > 0 {
            cells[0].len()
        } else {
            0
        };
        let r = Heightmap::from_parts(
            width,
            height,
            cells,
            [bounds[0], bounds[1]],
            [bounds[2], bounds[3]],
            filepath,
        );
        assert(r@.lower =~= seq![bounds[0], bounds[1]]);
        assert(r@.upper =~= seq![bounds[2], bounds[3]]);
        r
    }
}

} // verus!

//! Analysis of recorded tests: comparing and averaging heightmaps, and finding a
//! test's files.
use vstd::prelude::*;
use vstd::string::to_string_from_display_ensures;
use crate::data_types::float_bits::{feq, is_nan, is_nan_bits, eq_bits, ZERO, NAN};
use crate::data_types::text::{chars_of, has_prefix, has_infix, occurs_at, occurs, first_line_len};
use crate::data_types::heightmap::{
    Heightmap, HeightmapError, HeightmapView, blank, in_cells, cell_count_fits, rows_view, known,
};

verus! {

/// How the intensity of the recorded forces is calculated.
pub enum ForceSel {
    ForceAvg,
    MomAvg,
    X,
    Y,
    Z,
    Xmom,
    Ymom,
    Zmom,
}

/// Whether comparing two `width` by `height` maps reads cell `(n, m)` of both at step
/// `(m, n)`: the steps go over `width` rows of `height` cells, and the first step whose
/// cell is beyond the maps' width or height ends the comparison.
pub open spec fn comp_reads(width: int, height: int, m: int, n: int) -> bool {
    0 <= m < width && 0 <= n < height && n <= width && m <= height && (m == 0 || height <= width
        + 1)
}

/// Whether comparing two `width` by `height` maps reaches a cell beyond their width or
/// height.
pub open spec fn comp_fails(width: int, height: int) -> bool {
    (width >= 1 && height > width + 1) || (height >= 1 && width > height + 1)
}

/// Whether `d` is a `width` by `height` map whose cell `(m, n)` is `minus(curr[n][m],
/// desired[n][m])`: the difference of the maps, read with the two indices swapped.
pub open spec fn is_difference<F: Fn(u32, u32) -> u32>(
    d: HeightmapView,
    curr: HeightmapView,
    desired: HeightmapView,
    minus: F,
) -> bool {
    &&& d == (HeightmapView { cells: d.cells, ..blank(curr.width, curr.height) })
    &&& d.cells.len() == curr.width
    &&& forall|m: int| 0 <= m < curr.width ==> #[trigger] d.cells[m].len() == curr.height
    &&& forall|m: int, n: int|
        #![trigger d.cells[m][n]]
        0 <= m < curr.width && 0 <= n < curr.height ==> minus.ensures(
            (curr.cells[n][m], desired.cells[n][m]),
            d.cells[m][n],
        )
}

/// Compares a map with a desired map and gives the map of height differences, taking
/// differences with `minus` (binary32 subtraction). Maps of different sizes are refused.
/// The difference map has `width` rows of `height` cells, and its cell `(m, n)` is the
/// difference of the maps' cells `(n, m)`; the first of those lookups that is beyond the
/// maps' width or height is refused.
pub fn comp_maps<F: Fn(u32, u32) -> u32>(curr_map: &Heightmap, desired_map: &Heightmap, minus: F) -> (r: Result<
    Heightmap,
    HeightmapError,
>)
    requires
        forall|a: u32, b: u32| minus.requires((a, b)),
        curr_map@.height == desired_map@.height && curr_map@.width == desired_map@.width ==> {
            &&& cell_count_fits(curr_map@.width, curr_map@.height)
            &&& forall|m: int, n: int|
                #[trigger] comp_reads(curr_map@.width as int, curr_map@.height as int, m, n)
                    ==> in_cells(curr_map@.cells, n, m) && in_cells(desired_map@.cells, n, m)
        },
    ensures
        curr_map@.height != desired_map@.height || curr_map@.width != desired_map@.width ==> r
            == Err::<Heightmap, HeightmapError>(HeightmapError::SizeMismatch),
        curr_map@.height == desired_map@.height && curr_map@.width == desired_map@.width ==> match r {
            Ok(d) => !comp_fails(curr_map@.width as int, curr_map@.height as int) && is_difference(
                d@,
                curr_map@,
                desired_map@,
                minus,
            ),
            Err(e) => comp_fails(curr_map@.width as int, curr_map@.height as int) && e
                == HeightmapError::ReadOutOfRange,
        },
{
    if curr_map.height() != desired_map.height() || curr_map.width() != desired_map.width() {
        return Err(HeightmapError::SizeMismatch);
    }
    let w = curr_map.width();
    let h = curr_map.height();
    let mut diff_map = Heightmap::new(w, h);
    let mut m: usize = 0;
    while m < w
        invariant
            w == curr_map@.width && h == curr_map@.height,
            w == desired_map@.width && h == desired_map@.height,
            forall|a: u32, b: u32| minus.requires((a, b)),
            forall|a: int, b: int|
                #[trigger] comp_reads(w as int, h as int, a, b) ==> in_cells(curr_map@.cells, b, a)
                    && in_cells(desired_map@.cells, b, a),
            m <= w,
            m > 0 && h > 0 ==> h <= w + 1 && m <= h + 1,
            diff_map@ == (HeightmapView { cells: diff_map@.cells, ..blank(w, h) }),
            diff_map@.cells.len() == w,
            forall|i: int| 0 <= i < w ==> #[trigger] diff_map@.cells[i].len() == h,
            forall|i: int, j: int|
                #![trigger diff_map@.cells[i][j]]
                0 <= i < m && 0 <= j < h ==> minus.ensures(
                    (curr_map@.cells[j][i], desired_map@.cells[j][i]),
                    diff_map@.cells[i][j],
                ),
        decreases w - m,
    {
        let mut n: usize = 0;
        while n < h
            invariant
                w == curr_map@.width && h == curr_map@.height,
                w == desired_map@.width && h == desired_map@.height,
                forall|a: u32, b: u32| minus.requires((a, b)),
                forall|a: int, b: int|
                    #[trigger] comp_reads(w as int, h as int, a, b) ==> in_cells(curr_map@.cells, b, a)
                        && in_cells(desired_map@.cells, b, a),
                m < w,
                n <= h,
                m > 0 && h > 0 ==> h <= w + 1 && m <= h + 1,
                n > 0 ==> n <= w + 1 && m <= h,
                diff_map@ == (HeightmapView { cells: diff_map@.cells, ..blank(w, h) }),
                diff_map@.cells.len() == w,
                forall|i: int| 0 <= i < w ==> #[trigger] diff_map@.cells[i].len() == h,
                forall|i: int, j: int|
                    #![trigger diff_map@.cells[i][j]]
                    ((0 <= i < m && 0 <= j < h) || (i == m && 0 <= j < n)) ==> minus.ensures(
                        (curr_map@.cells[j][i], desired_map@.cells[j][i]),
                        diff_map@.cells[i][j],
                    ),
            decreases h - n,
        {
            if n <= w && m <= h {
                assert(comp_reads(w as int, h as int, m as int, n as int));
            }
            let a = curr_map.get_cell_height(n, m);
            let a = match a {
                Ok(v) => v,
                Err(_) => {
                    return Err(HeightmapError::ReadOutOfRange);
                },
            };
            let b = desired_map.get_cell_height(n, m);
            let b = match b {
                Ok(v) => v,
                Err(_) => {
                    return Err(HeightmapError::ReadOutOfRange);
                },
            };
            let diff = minus(a, b);
            let ghost before = diff_map@;
            let set = diff_map.set_cell_height_no_check(m, n, diff);
            assert(set.is_ok());
            assert(diff_map@.cells[m as int][n as int] == diff);
            assert forall|i: int, j: int|
                #![trigger diff_map@.cells[i][j]]
                ((0 <= i < m && 0 <= j < h) || (i == m && 0 <= j < n + 1)) implies minus.ensures(
                    (curr_map@.cells[j][i], desired_map@.cells[j][i]),
                    diff_map@.cells[i][j],
                ) by {
                if !(i == m && j == n) {
                    assert(diff_map@.cells[i][j] == before.cells[i][j]);
                }
            }
            n = n + 1;
        }
        m = m + 1;
    }
    Ok(diff_map)
}

/// Whether reading cell `(x, y)` of map `k` of `list` is refused.
pub open spec fn avg_bad(list: Seq<Heightmap>, x: int, y: int, k: int) -> bool {
    x > list[k]@.width || y > list[k]@.height
}

/// Whether step `(y2, x2, k2)` of an averaging comes before step `(y, x, k)`.
pub open spec fn avg_earlier(y2: int, x2: int, k2: int, y: int, x: int, k: int) -> bool {
    y2 < y || (y2 == y && (x2 < x || (x2 == x && k2 < k)))
}

/// Whether averaging `list` into a `width` by `height` map reaches step `(y, x, k)`, the
/// lookup of cell `(x, y)` of map `k`, with no refused lookup before it.
pub open spec fn avg_clear_until(
    list: Seq<Heightmap>,
    width: int,
    height: int,
    y: int,
    x: int,
    k: int,
) -> bool {
    forall|y2: int, x2: int, k2: int|
        0 <= y2 < width && 0 <= x2 < height && 0 <= k2 < list.len() && #[trigger] avg_earlier(
            y2,
            x2,
            k2,
            y,
            x,
            k,
        ) ==> !avg_bad(list, x2, y2, k2)
}

/// Whether averaging `list` into a `width` by `height` map reaches a refused lookup.
pub open spec fn avg_fails(list: Seq<Heightmap>, width: int, height: int) -> bool {
    exists|y: int, x: int, k: int|
        0 <= y < width && 0 <= x < height && 0 <= k < list.len() && #[trigger] avg_bad(
            list,
            x,
            y,
            k,
        )
}

/// Heights of cell `(x, y)` in each map of `list`.
pub open spec fn column(list: Seq<Heightmap>, x: int, y: int) -> Seq<u32> {
    Seq::new(list.len(), |k: int| list[k]@.cells[x][y])
}

/// Whether `v` is the average of the known heights `vals`: their total by `sum`, NaN when
/// that total is zero, and otherwise the total divided by their count with `divide`.
pub open spec fn is_mean<S: Fn(Vec<u32>) -> u32, D: Fn(u32, i32) -> u32>(
    v: u32,
    vals: Seq<u32>,
    sum: S,
    divide: D,
) -> bool {
    exists|items: Vec<u32>, t: u32|
        items@ == vals && #[trigger] sum.ensures((items,), t) && if feq(t, ZERO) {
            v == NAN
        } else {
            divide.ensures((t, vals.len() as i32), v)
        }
}

/// Whether `a` is the average of the maps of `list`, covering the given bounds: a map of
/// the first map's size whose cell `(y, x)` is the mean of the known heights of cell
/// `(x, y)` of the maps.
pub open spec fn is_average<S: Fn(Vec<u32>) -> u32, D: Fn(u32, i32) -> u32>(
    a: HeightmapView,
    list: Seq<Heightmap>,
    lower: Seq<u32>,
    upper: Seq<u32>,
    sum: S,
    divide: D,
) -> bool {
    let w = list[0]@.width;
    let h = list[0]@.height;
    &&& a == (HeightmapView { cells: a.cells, lower, upper, ..blank(w, h) })
    &&& a.cells.len() == w
    &&& forall|y: int| 0 <= y < w ==> #[trigger] a.cells[y].len() == h
    &&& forall|y: int, x: int|
        #![trigger a.cells[y][x]]
        0 <= y < w && 0 <= x < h ==> is_mean(a.cells[y][x], known(column(list, x, y)), sum, divide)
}

/// Averages a list of maps of the first map's size into a map covering the given bounds:
/// cell `(y, x)` of the average is the mean of cell `(x, y)` of every map, NaN heights left
/// out, totalled with `sum` and divided by their count with `divide` (binary32
/// arithmetic); a zero total gives NaN. Every cell of every map is looked up in turn, and
/// the first lookup beyond a map's width or height is refused.
pub fn average_heightmaps<S: Fn(Vec<u32>) -> u32, D: Fn(u32, i32) -> u32>(
    hmap_list: &[Heightmap],
    lower_bounds: [u32; 2],
    upper_bounds: [u32; 2],
    sum: S,
    divide: D,
) -> (r: Result<Heightmap, HeightmapError>)
    requires
        hmap_list@.len() > 0,
        hmap_list@.len() <= i32::MAX,
        forall|v: Vec<u32>| sum.requires((v,)),
        forall|t: u32, n: i32| divide.requires((t, n)),
        cell_count_fits(hmap_list@[0]@.width, hmap_list@[0]@.height),
        forall|y: int, x: int, k: int|
            0 <= y < hmap_list@[0]@.width && 0 <= x < hmap_list@[0]@.height && 0 <= k
                < hmap_list@.len() && #[trigger] avg_clear_until(
                hmap_list@,
                hmap_list@[0]@.width as int,
                hmap_list@[0]@.height as int,
                y,
                x,
                k,
            ) && !avg_bad(hmap_list@, x, y, k) ==> in_cells(hmap_list@[k]@.cells, x, y),
    ensures
        match r {
            Ok(a) => !avg_fails(
                hmap_list@,
                hmap_list@[0]@.width as int,
                hmap_list@[0]@.height as int,
            ) && is_average(a@, hmap_list@, lower_bounds@, upper_bounds@, sum, divide),
            Err(e) => avg_fails(
                hmap_list@,
                hmap_list@[0]@.width as int,
                hmap_list@[0]@.height as int,
            ) && e == HeightmapError::ReadOutOfRange,
        },
{
    let ghost list = hmap_list@;
    let w = hmap_list[0].width();
    let h = hmap_list[0].height();
    let mut avg_hmap = Heightmap::new(w, h);
    let mut y: usize = 0;
    while y < w
        invariant
            list == hmap_list@,
            list.len() > 0,
            list.len() <= i32::MAX,
            forall|v: Vec<u32>| sum.requires((v,)),
            forall|t: u32, n: i32| divide.requires((t, n)),
            w == list[0]@.width && h == list[0]@.height,
            forall|yy: int, xx: int, k: int|
                0 <= yy < w && 0 <= xx < h && 0 <= k < list.len() && #[trigger] avg_clear_until(
                    list,
                    w as int,
                    h as int,
                    yy,
                    xx,
                    k,
                ) && !avg_bad(list, xx, yy, k) ==> in_cells(list[k]@.cells, xx, yy),
            y <= w,
            avg_clear_until(list, w as int, h as int, y as int, 0, 0),
            avg_hmap@ == (HeightmapView { cells: avg_hmap@.cells, ..blank(w, h) }),
            avg_hmap@.cells.len() == w,
            forall|i: int| 0 <= i < w ==> #[trigger] avg_hmap@.cells[i].len() == h,
            forall|i: int, j: int|
                #![trigger avg_hmap@.cells[i][j]]
                0 <= i < y && 0 <= j < h ==> is_mean(
                    avg_hmap@.cells[i][j],
                    known(column(list, j, i)),
                    sum,
                    divide,
                ),
        decreases w - y,
    {
        let mut x: usize = 0;
        while x < h
            invariant
                list == hmap_list@,
                list.len() > 0,
                list.len() <= i32::MAX,
                forall|v: Vec<u32>| sum.requires((v,)),
                forall|t: u32, n: i32| divide.requires((t, n)),
                w == list[0]@.width && h == list[0]@.height,
                forall|yy: int, xx: int, k: int|
                    0 <= yy < w && 0 <= xx < h && 0 <= k < list.len() && #[trigger] avg_clear_until(
                        list,
                        w as int,
                        h as int,
                        yy,
                        xx,
                        k,
                    ) && !avg_bad(list, xx, yy, k) ==> in_cells(list[k]@.cells, xx, yy),
                y < w,
                x <= h,
                avg_clear_until(list, w as int, h as int, y as int, x as int, 0),
                avg_hmap@ == (HeightmapView { cells: avg_hmap@.cells, ..blank(w, h) }),
                avg_hmap@.cells.len() == w,
                forall|i: int| 0 <= i < w ==> #[trigger] avg_hmap@.cells[i].len() == h,
                forall|i: int, j: int|
                    #![trigger avg_hmap@.cells[i][j]]
                    ((0 <= i < y && 0 <= j < h) || (i == y && 0 <= j < x)) ==> is_mean(
                        avg_hmap@.cells[i][j],
                        known(column(list, j, i)),
                        sum,
                        divide,
                    ),
            decreases h - x,
        {
            let mut vals: Vec<u32> = Vec::new();
            let mut k: usize = 0;
            while k < hmap_list.len()
                invariant
                    list == hmap_list@,
                    list.len() > 0,
                    w == list[0]@.width && h == list[0]@.height,
                    forall|yy: int, xx: int, kk: int|
                        0 <= yy < w && 0 <= xx < h && 0 <= kk < list.len() && #[trigger] avg_clear_until(
                            list,
                            w as int,
                            h as int,
                            yy,
                            xx,
                            kk,
                        ) && !avg_bad(list, xx, yy, kk) ==> in_cells(list[kk]@.cells, xx, yy),
                    y < w,
                    x < h,
                    k <= list.len(),
                    avg_clear_until(list, w as int, h as int, y as int, x as int, k as int),
                    vals@ == known(column(list, x as int, y as int).subrange(0, k as int)),
                decreases list.len() - k,
            {
                let cell = hmap_list[k].get_cell_height(x, y);
                let v = match cell {
                    Ok(v) => v,
                    Err(_) => {
                        assert(avg_bad(list, x as int, y as int, k as int));
                        return Err(HeightmapError::ReadOutOfRange);
                    },
                };
                let ghost col = column(list, x as int, y as int);
                assert(col.subrange(0, k + 1).drop_last() =~= col.subrange(0, k as int));
                assert(col.subrange(0, k + 1).last() == v);
                if !is_nan_bits(v) {
                    vals.push(v);
                }
                assert(vals@ =~= known(col.subrange(0, k + 1)));
                assert(avg_clear_until(list, w as int, h as int, y as int, x as int, k + 1)) by {
                    assert forall|y2: int, x2: int, k2: int|
                        0 <= y2 < w && 0 <= x2 < h && 0 <= k2 < list.len() && #[trigger] avg_earlier(
                            y2,
                            x2,
                            k2,
                            y as int,
                            x as int,
                            k + 1,
                        ) implies !avg_bad(list, x2, y2, k2) by {
                        if !(y2 == y && x2 == x && k2 == k) {
                            assert(avg_earlier(y2, x2, k2, y as int, x as int, k as int));
                        }
                    }
                }
                k = k + 1;
            }
            let ghost col = column(list, x as int, y as int);
            assert(col.subrange(0, list.len() as int) =~= col);
            let count = vals.len() as i32;
            let ghost items = vals@;
            let total = sum(vals);
            let avg = if eq_bits(total, ZERO) {
                NAN
            } else {
                divide(total, count)
            };
            proof {
                lemma_known_len(col);
            }
            assert(is_mean(avg, known(col), sum, divide));
            let ghost before = avg_hmap@;
            let set = avg_hmap.set_cell_height_no_check(y, x, avg);
            assert(set.is_ok());
            assert forall|i: int, j: int|
                #![trigger avg_hmap@.cells[i][j]]
                ((0 <= i < y && 0 <= j < h) || (i == y && 0 <= j < x + 1)) implies is_mean(
                    avg_hmap@.cells[i][j],
                    known(column(list, j, i)),
                    sum,
                    divide,
                ) by {
                if !(i == y && j == x) {
                    assert(avg_hmap@.cells[i][j] == before.cells[i][j]);
                }
            }
            assert(avg_clear_until(list, w as int, h as int, y as int, x + 1, 0)) by {
                assert forall|y2: int, x2: int, k2: int|
                    0 <= y2 < w && 0 <= x2 < h && 0 <= k2 < list.len() && #[trigger] avg_earlier(
                        y2,
                        x2,
                        k2,
                        y as int,
                        x + 1,
                        0,
                    ) implies !avg_bad(list, x2, y2, k2) by {
                    assert(avg_earlier(y2, x2, k2, y as int, x as int, list.len() as int));
                }
            }
            x = x + 1;
        }
        assert(avg_clear_until(list, w as int, h as int, y + 1, 0, 0)) by {
            assert forall|y2: int, x2: int, k2: int|
                0 <= y2 < w && 0 <= x2 < h && 0 <= k2 < list.len() && #[trigger] avg_earlier(
                    y2,
                    x2,
                    k2,
                    y + 1,
                    0,
                    0,
                ) implies !avg_bad(list, x2, y2, k2) by {
                assert(avg_earlier(y2, x2, k2, y as int, h as int, 0));
            }
        }
        y = y + 1;
    }
    assert(!avg_fails(list, w as int, h as int)) by {
        assert forall|yy: int, xx: int, k: int|
            0 <= yy < w && 0 <= xx < h && 0 <= k < list.len() implies !#[trigger] avg_bad(
            list,
            xx,
            yy,
            k,
        ) by {
            assert(avg_earlier(yy, xx, k, w as int, 0, 0));
        }
    }
    avg_hmap.set_lower_coord_bounds(lower_bounds);
    avg_hmap.set_upper_coord_bounds(upper_bounds);
    Ok(avg_hmap)
}

proof fn lemma_known_len(p: Seq<u32>)
    ensures
        known(p).len() <= p.len(),
    decreases p.len(),
{
    if p.len() > 0 {
        lemma_known_len(p.drop_last());
    }
}

/// Why an analysis step was refused.
#[derive(Debug, PartialEq, Eq)]
pub enum AnalyserError {
    /// The named test is not in the test folder.
    TestMissing,
    /// No point cloud with that number was recorded.
    InvalidHmapNumber,
    /// An identifier has fewer point clouds than the largest average asks for.
    NotEnoughClouds,
    /// The number of height deltas is not the number of identifiers.
    DeltasMismatch,
}

/// A recorded test: where its files are and what is known of it.
pub struct Analyser {
    filepath: String,
    test_name: String,
    test_fp: String,
    no_of_pcl: i32,
    pre_trans: bool,
}

/// The model of a recorded test.
pub struct AnalyserView {
    /// The folder holding the tests.
    pub filepath: Seq<char>,
    /// The name of the test.
    pub test_name: Seq<char>,
    /// The folder holding the test's files.
    pub test_fp: Seq<char>,
    /// The number of point clouds recorded in the test.
    pub no_of_pcl: i32,
    /// Whether the trajectory was already transformed into the box frame.
    pub pre_trans: bool,
}

impl View for Analyser {
    type V = AnalyserView;

    closed spec fn view(&self) -> AnalyserView {
        AnalyserView {
            filepath: self.filepath@,
            test_name: self.test_name@,
            test_fp: self.test_fp@,
            no_of_pcl: self.no_of_pcl,
            pre_trans: self.pre_trans,
        }
    }
}

/// The names in `names` that start with `prefix`.
pub open spec fn prefixed(names: Seq<String>, prefix: Seq<char>) -> Seq<Seq<char>>
    decreases names.len(),
{
    if names.len() == 0 {
        Seq::empty()
    } else {
        prefixed(names.drop_last(), prefix) + if occurs_at(names.last()@, prefix, 0) {
            seq![names.last()@]
        } else {
            Seq::empty()
        }
    }
}

/// The names in `names` that start with `pcl_` and contain `identifier`.
pub open spec fn identified(names: Seq<String>, identifier: Seq<char>) -> Seq<Seq<char>>
    decreases names.len(),
{
    if names.len() == 0 {
        Seq::empty()
    } else {
        identified(names.drop_last(), identifier) + if occurs_at(names.last()@, "pcl_"@, 0)
            && occurs(names.last()@, identifier) {
            seq![names.last()@]
        } else {
            Seq::empty()
        }
    }
}

/// `folder/name` for each name.
pub open spec fn in_folder(folder: Seq<char>, names: Seq<Seq<char>>) -> Seq<Seq<char>> {
    Seq::new(names.len(), |i: int| folder + "/"@ + names[i])
}

/// The contents of each string.
pub open spec fn strings_view(v: Seq<String>) -> Seq<Seq<char>> {
    Seq::new(v.len(), |i: int| v[i]@)
}

/// Whether the second line of a test's configuration (as `BufRead::read_line` reads it,
/// with its line ending) contains `true`.
pub open spec fn transform_flag_of(conf: Seq<char>) -> bool {
    let rest = conf.subrange(first_line_len(conf), conf.len() as int);
    let second = rest.subrange(0, first_line_len(rest));
    occurs(second, "true"@)
}

/// Whether one of `names` is `name`.
pub fn contains_name(names: &Vec<String>, name: &String) -> (r: bool)
    ensures
        r == exists|i: int| 0 <= i < names.len() && (#[trigger] names@[i])@ == name@,
{
    let mut i: usize = 0;
    while i < names.len()
        invariant
            i <= names.len(),
            forall|j: int| 0 <= j < i ==> (#[trigger] names@[j])@ != name@,
        decreases names.len() - i,
    {
        if names[i] == *name {
            return true;
        }
        i = i + 1;
    }
    false
}

/// The names in `names` that start with `prefix`, in order.
fn names_with_prefix(names: &Vec<String>, prefix: &Vec<char>) -> (r: Vec<String>)
    ensures
        strings_view(r@) == prefixed(names@, prefix@),
{
    let mut out: Vec<String> = Vec::new();
    let mut i: usize = 0;
    while i < names.len()
        invariant
            i <= names.len(),
            strings_view(out@) == prefixed(names@.subrange(0, i as int), prefix@),
        decreases names.len() - i,
    {
        let ghost sub = names@.subrange(0, i + 1);
        assert(sub.drop_last() =~= names@.subrange(0, i as int));
        assert(sub.last() == names@[i as int]);
        let cs = chars_of(names[i].as_str());
        let ghost old_out = strings_view(out@);
        if has_prefix(&cs, prefix) {
            out.push(names[i].clone());
            assert(strings_view(out@) =~= old_out + seq![names@[i as int]@]);
        } else {
            assert(strings_view(out@) =~= old_out + Seq::<Seq<char>>::empty());
        }
        i = i + 1;
    }
    assert(names@.subrange(0, names.len() as int) =~= names@);
    out
}

/// The names in `names` that start with `pcl_` and contain `identifier`, in order.
fn names_with_identifier(names: &Vec<String>, identifier: &Vec<char>) -> (r: Vec<String>)
    ensures
        strings_view(r@) == identified(names@, identifier@),
{
    let pcl = chars_of("pcl_");
    let mut out: Vec<String> = Vec::new();
    let mut i: usize = 0;
    while i < names.len()
        invariant
            i <= names.len(),
            pcl@ == "pcl_"@,
            strings_view(out@) == identified(names@.subrange(0, i as int), identifier@),
        decreases names.len() - i,
    {
        let ghost sub = names@.subrange(0, i + 1);
        assert(sub.drop_last() =~= names@.subrange(0, i as int));
        assert(sub.last() == names@[i as int]);
        let cs = chars_of(names[i].as_str());
        let ghost old_out = strings_view(out@);
        if has_prefix(&cs, &pcl) && has_infix(&cs, identifier) {
            out.push(names[i].clone());
            assert(strings_view(out@) =~= old_out + seq![names@[i as int]@]);
        } else {
            assert(strings_view(out@) =~= old_out + Seq::<Seq<char>>::empty());
        }
        i = i + 1;
    }
    assert(names@.subrange(0, names.len() as int) =~= names@);
    out
}

/// `folder/name` for each of `names`.
fn paths_in(folder: &String, names: Vec<String>) -> (r: Vec<String>)
    ensures
        strings_view(r@) == in_folder(folder@, strings_view(names@)),
{
    let mut out: Vec<String> = Vec::new();
    let mut i: usize = 0;
    while i < names.len()
        invariant
            i <= names.len(),
            out@.len() == i,
            forall|j: int| 0 <= j < i ==> (#[trigger] out@[j])@ == folder@ + "/"@ + names@[j]@,
        decreases names.len() - i,
    {
        let mut p = folder.clone();
        p.append("/");
        p.append(names[i].as_str());
        out.push(p);
        i = i + 1;
    }
    assert(strings_view(out@) =~= in_folder(folder@, strings_view(names@)));
    out
}

/// Whether a test's configuration records that its trajectory was already transformed:
/// its second line contains `true`.
pub fn transform_flag(conf: &Vec<char>) -> (r: bool)
    ensures
        r == transform_flag_of(conf@),
{
    let k = crate::data_types::text::find_char(conf, '\n', 0);
    let start: usize = if k < conf.len() {
        k + 1
    } else {
        conf.len()
    };
    assert(conf@.subrange(0, conf.len() as int) =~= conf@);
    let k2 = crate::data_types::text::find_char(conf, '\n', start);
    let end: usize = if k2 < conf.len() {
        k2 + 1
    } else {
        conf.len()
    };
    let second = crate::data_types::text::copy_range(conf, start, end);
    let t = chars_of("true");
    proof {
        let rest = conf@.subrange(start as int, conf.len() as int);
        assert(rest.subrange(0, first_line_len(rest)) =~= second@);
    }
    has_infix(&second, &t)
}

/// The largest of `s`, 0 when it is empty.
pub open spec fn largest(s: Seq<u32>) -> u32
    decreases s.len(),
{
    if s.len() == 0 {
        0
    } else if s.last() > largest(s.drop_last()) {
        s.last()
    } else {
        largest(s.drop_last())
    }
}

proof fn lemma_largest(s: Seq<u32>)
    requires
        s.len() > 0,
    ensures
        exists|i: int| 0 <= i < s.len() && s[i] == largest(s),
        forall|i: int| 0 <= i < s.len() ==> s[i] <= largest(s),
    decreases s.len(),
{
    let p = s.drop_last();
    assert(s[s.len() - 1] == s.last());
    if p.len() > 0 {
        lemma_largest(p);
        let i = choose|i: int| 0 <= i < p.len() && p[i] == largest(p);
        assert(s[i] == p[i]);
        if s.last() > largest(p) {
            assert(s[s.len() - 1] == largest(s));
        } else {
            assert(s[i] == largest(s));
        }
        assert forall|i: int| 0 <= i < s.len() implies s[i] <= largest(s) by {
            if i < p.len() {
                assert(s[i] == p[i]);
            }
        }
    }
    assert(s[s.len() - 1] == s.last());
}

/// The largest of the averaging counts.
pub fn largest_average(averages: &Vec<u32>) -> (r: u32)
    requires
        averages.len() > 0,
    ensures
        exists|i: int| 0 <= i < averages.len() && r == averages@[i],
        forall|i: int| 0 <= i < averages.len() ==> averages@[i] <= r,
        r == largest(averages@),
{
    proof {
        lemma_largest(averages@);
    }
    let mut best = averages[0];
    let mut i: usize = 1;
    while i < averages.len()
        invariant
            1 <= i <= averages.len(),
            exists|j: int| 0 <= j < i && best == averages@[j],
            forall|j: int| 0 <= j < i ==> averages@[j] <= best,
        decreases averages.len() - i,
    {
        if averages[i] > best {
            best = averages[i];
        }
        i = i + 1;
    }
    proof {
        let j = choose|j: int| 0 <= j < averages.len() && averages@[j] == largest(averages@);
        let k = choose|k: int| 0 <= k < averages.len() && best == averages@[k];
        assert(averages@[j] <= best);
        assert(averages@[k] <= largest(averages@));
    }
    best
}

impl Analyser {
    /// The test `test_name` in the folder `filepath`, whose own folder holds files named
    /// `test_dir_names`; `pre_trans` is its configuration's transform flag. Its point
    /// clouds are the files whose names start with `pcl_`.
    pub fn init(filepath: String, test_name: String, test_dir_names: &Vec<String>, pre_trans: bool) -> (r:
        Analyser)
        requires
            prefixed(test_dir_names@, "pcl_"@).len() <= i32::MAX,
        ensures
            r@ == (AnalyserView {
                filepath: filepath@,
                test_name: test_name@,
                test_fp: filepath@ + "/"@ + test_name@,
                no_of_pcl: prefixed(test_dir_names@, "pcl_"@).len() as i32,
                pre_trans,
            }),
    {
        let mut test_fp = filepath.clone();
        test_fp.append("/");
        test_fp.append(test_name.as_str());
        let pcl = chars_of("pcl_");
        let pcls = names_with_prefix(test_dir_names, &pcl);
        let no_of_pcl = pcls.len() as i32;
        Analyser { filepath, test_name, test_fp, no_of_pcl, pre_trans }
    }

    /// The folder holding the test's files.
    pub fn test_fp(&self) -> (r: String)
        ensures
            r@ == self@.test_fp,
    {
        self.test_fp.clone()
    }

    /// The name of the test.
    pub fn test_name(&self) -> (r: String)
        ensures
            r@ == self@.test_name,
    {
        self.test_name.clone()
    }

    /// The number of point clouds recorded in the test.
    pub fn no_of_pcl(&self) -> (r: i32)
        ensures
            r == self@.no_of_pcl,
    {
        self.no_of_pcl
    }

    /// Whether the trajectory was already transformed into the box frame.
    pub fn pre_trans(&self) -> (r: bool)
        ensures
            r == self@.pre_trans,
    {
        self.pre_trans
    }

    /// The number of saved heightmaps among the test's files: those whose names start
    /// with `hmap_`.
    pub fn get_hmap_cnt(&self, test_dir_names: &Vec<String>) -> (r: usize)
        ensures
            r == prefixed(test_dir_names@, "hmap_"@).len(),
    {
        let p = chars_of("hmap_");
        names_with_prefix(test_dir_names, &p).len()
    }

    /// The file of point cloud `n` of the test: `-1` names the start cloud, `-2` the end
    /// cloud. Numbers from the count of recorded clouds on are refused.
    pub fn pcl_file_path(&self, n: i32) -> (r: Result<String, AnalyserError>)
        ensures
            n >= self@.no_of_pcl <==> r == Err::<String, AnalyserError>(AnalyserError::InvalidHmapNumber),
            r matches Ok(p) ==> {
                let base = self@.test_fp + "/pcl_"@ + self@.test_name;
                if n == -1 {
                    p@ == base + "_START.txt"@
                } else if n == -2 {
                    p@ == base + "_END.txt"@
                } else {
                    exists|s: String| #[trigger] to_string_from_display_ensures::<i32>(&n, s) && p@
                        == base + "_"@ + s@ + ".txt"@
                }
            },
    {
        if n >= self.no_of_pcl {
            return Err(AnalyserError::InvalidHmapNumber);
        }
        let mut fp = self.test_fp.clone();
        fp.append("/pcl_");
        fp.append(self.test_name.as_str());
        if n == -1 {
            fp.append("_START.txt");
        } else if n == -2 {
            fp.append("_END.txt");
        } else {
            let s = n.to_string();
            fp.append("_");
            fp.append(s.as_str());
            fp.append(".txt");
        }
        Ok(fp)
    }

    /// The paths of the test's files whose names start with `prefix`, in listing order.
    pub fn files_with_prefix(&self, test_dir_names: &Vec<String>, prefix: &str) -> (r: Vec<String>)
        ensures
            strings_view(r@) == in_folder(self@.test_fp, prefixed(test_dir_names@, prefix@)),
    {
        let p = chars_of(prefix);
        let names = names_with_prefix(test_dir_names, &p);
        paths_in(&self.test_fp, names)
    }

    /// The paths of the test's point cloud files whose names contain `identifier`, in
    /// listing order.
    pub fn pcl_files_with_identifier(&self, test_dir_names: &Vec<String>, identifier: &str) -> (r: Vec<
        String,
    >)
        ensures
            strings_view(r@) == in_folder(self@.test_fp, identified(test_dir_names@, identifier@)),
    {
        let id = chars_of(identifier);
        let names = names_with_identifier(test_dir_names, &id);
        paths_in(&self.test_fp, names)
    }
}


/// The steps `(identifier, resolution, count)` for each count from 1 to `n` that
/// `averages` holds: after `count` point clouds of identifier `k` have been made into
/// heightmaps at resolution `res`, an average of them is wanted.
pub open spec fn count_steps(k: usize, res: usize, averages: Seq<u32>, n: int) -> Seq<(usize, usize, u32)>
    decreases n,
{
    if n <= 0 {
        Seq::empty()
    } else {
        count_steps(k, res, averages, n - 1) + if averages.contains(n as u32) {
            seq![(k, res, n as u32)]
        } else {
            Seq::empty()
        }
    }
}

/// The steps of identifier `k`, which has `n` point clouds, over the first `j`
/// resolutions in order.
pub open spec fn identifier_steps(k: usize, resolutions: Seq<usize>, averages: Seq<u32>, n: int, j: int) -> Seq<
    (usize, usize, u32),
>
    decreases j,
{
    if j <= 0 {
        Seq::empty()
    } else {
        identifier_steps(k, resolutions, averages, n, j - 1) + count_steps(k, resolutions[j - 1], averages, n)
    }
}

/// The number of point clouds an identifier needs: the largest average, taken as an
/// `i32` and then as a `usize`, as the analyses compare it.
pub open spec fn needed_clouds(averages: Seq<u32>) -> usize {
    ((largest(averages) as i32) as usize)
}

/// The steps of a parametric analysis over the first `k` identifiers, with the
/// identifier `i` having `counts[i]` point clouds, and the error that stops it: an
/// identifier with fewer clouds than `need` stops it with `NotEnoughClouds`, and then,
/// when the height deltas do not match the identifiers, `DeltasMismatch` stops it; the
/// steps of the identifiers before stay.
pub open spec fn schedule(
    counts: Seq<usize>,
    resolutions: Seq<usize>,
    averages: Seq<u32>,
    need: usize,
    deltas_ok: bool,
    k: int,
) -> (Seq<(usize, usize, u32)>, Option<AnalyserError>)
    decreases k,
{
    if k <= 0 {
        (Seq::empty(), None)
    } else {
        let prev = schedule(counts, resolutions, averages, need, deltas_ok, k - 1);
        if prev.1 is Some {
            prev
        } else if counts[k - 1] < need {
            (prev.0, Some(AnalyserError::NotEnoughClouds))
        } else if !deltas_ok {
            (prev.0, Some(AnalyserError::DeltasMismatch))
        } else {
            (
                prev.0 + identifier_steps((k - 1) as usize, resolutions, averages, counts[k - 1] as int, resolutions.len() as int),
                None,
            )
        }
    }
}

/// Whether the height deltas given, if any, match `n` identifiers.
pub open spec fn deltas_match(n_deltas: Option<usize>, n: int) -> bool {
    match n_deltas {
        Some(d) => d == n,
        None => true,
    }
}

proof fn lemma_schedule_stops(
    counts: Seq<usize>,
    resolutions: Seq<usize>,
    averages: Seq<u32>,
    need: usize,
    deltas_ok: bool,
    k: int,
    k2: int,
)
    requires
        0 <= k <= k2,
        schedule(counts, resolutions, averages, need, deltas_ok, k).1 is Some,
    ensures
        schedule(counts, resolutions, averages, need, deltas_ok, k2) == schedule(
            counts,
            resolutions,
            averages,
            need,
            deltas_ok,
            k,
        ),
    decreases k2 - k,
{
    if k2 > k {
        lemma_schedule_stops(counts, resolutions, averages, need, deltas_ok, k, k2 - 1);
    }
}

/// Whether `v` holds `x`.
fn holds(v: &Vec<u32>, x: u32) -> (r: bool)
    ensures
        r == v@.contains(x),
{
    let mut i: usize = 0;
    while i < v.len()
        invariant
            i <= v.len(),
            forall|j: int| 0 <= j < i ==> v@[j] != x,
        decreases v.len() - i,
    {
        if v[i] == x {
            return true;
        }
        i = i + 1;
    }
    false
}

/// Plans a parametric analysis (making averaged heightmaps of each identifier's point
/// clouds at each resolution): identifier `k` has `pcl_counts[k]` point clouds, and
/// `n_deltas` is the number of height deltas given, if the analysis takes them. Gives,
/// in order, each `(identifier, resolution, count)` for which an average of the first
/// `count` heightmaps is made, and the error that stops the analysis, if any: going
/// through the identifiers in order, one with fewer clouds than the largest average
/// stops it (`NotEnoughClouds`), and so does a number of deltas other than the number
/// of identifiers (`DeltasMismatch`); the steps of the identifiers before it stay.
pub fn parametric_schedule(
    pcl_counts: &Vec<usize>,
    resolutions: &Vec<usize>,
    averages: &Vec<u32>,
    n_deltas: Option<usize>,
) -> (r: (Vec<(usize, usize, u32)>, Option<AnalyserError>))
    requires
        averages.len() > 0,
        forall|k: int| 0 <= k < pcl_counts.len() ==> #[trigger] pcl_counts@[k] <= u32::MAX,
    ensures
        (r.0@, r.1) == schedule(
            pcl_counts@,
            resolutions@,
            averages@,
            needed_clouds(averages@),
            deltas_match(n_deltas, pcl_counts.len() as int),
            pcl_counts.len() as int,
        ),
{
    let max = largest_average(averages);
    let need: usize = (max as i32) as usize;
    let deltas_ok = match n_deltas {
        Some(d) => d == pcl_counts.len(),
        None => true,
    };
    let ghost sched = |k: int|
        schedule(pcl_counts@, resolutions@, averages@, need, deltas_ok, k);
    let mut steps: Vec<(usize, usize, u32)> = Vec::new();
    let mut k: usize = 0;
    while k < pcl_counts.len()
        invariant
            k <= pcl_counts.len(),
            need == needed_clouds(averages@),
            deltas_ok == deltas_match(n_deltas, pcl_counts.len() as int),
            forall|q: int| 0 <= q < pcl_counts.len() ==> #[trigger] pcl_counts@[q] <= u32::MAX,
            steps@ == schedule(pcl_counts@, resolutions@, averages@, need, deltas_ok, k as int).0,
            schedule(pcl_counts@, resolutions@, averages@, need, deltas_ok, k as int).1 is None,
        decreases pcl_counts.len() - k,
    {
        let count = pcl_counts[k];
        if count < need {
            proof {
                lemma_schedule_stops(pcl_counts@, resolutions@, averages@, need, deltas_ok, k + 1, pcl_counts.len() as int);
            }
            return (steps, Some(AnalyserError::NotEnoughClouds));
        }
        if !deltas_ok {
            proof {
                lemma_schedule_stops(pcl_counts@, resolutions@, averages@, need, deltas_ok, k + 1, pcl_counts.len() as int);
            }
            return (steps, Some(AnalyserError::DeltasMismatch));
        }
        let ghost before = steps@;
        let mut j: usize = 0;
        while j < resolutions.len()
            invariant
                k < pcl_counts.len(),
                count == pcl_counts@[k as int],
                count <= u32::MAX,
                j <= resolutions.len(),
                steps@ == before + identifier_steps(k, resolutions@, averages@, count as int, j as int),
            decreases resolutions.len() - j,
        {
            let res = resolutions[j];
            let ghost mid = steps@;
            let mut cnt: u32 = 0;
            while (cnt as usize) < count
                invariant
                    count <= u32::MAX,
                    cnt <= count,
                    steps@ == mid + count_steps(k, res, averages@, cnt as int),
                decreases count - cnt,
            {
                cnt = cnt + 1;
                if holds(averages, cnt) {
                    steps.push((k, res, cnt));
                }
                assert(steps@ =~= mid + count_steps(k, res, averages@, cnt as int));
            }
            j = j + 1;
            assert(steps@ =~= before + identifier_steps(k, resolutions@, averages@, count as int, j as int));
        }
        k = k + 1;
    }
    (steps, None)
}


/// The number of heights in `p` that are known (not NaN).
pub open spec fn known_count(p: Seq<u32>) -> nat
    decreases p.len(),
{
    if p.len() == 0 {
        0
    } else {
        known_count(p.drop_last()) + if is_nan(p.last()) { 0nat } else { 1nat }
    }
}

proof fn lemma_known_count(p: Seq<u32>)
    ensures
        known(p).len() == known_count(p),
    decreases p.len(),
{
    if p.len() > 0 {
        lemma_known_count(p.drop_last());
    }
}

/// Averaging leaves unknown heights out of each cell: cell `(y, x)` of the average is
/// the total of the known heights of cell `(x, y)` of the maps, divided by the number of
/// maps whose cell is known (not by the number of maps), and NaN when that total is zero.
pub proof fn average_divides_by_the_known_heights<S: Fn(Vec<u32>) -> u32, D: Fn(u32, i32) -> u32>(
    a: HeightmapView,
    list: Seq<Heightmap>,
    lower: Seq<u32>,
    upper: Seq<u32>,
    sum: S,
    divide: D,
    y: int,
    x: int,
)
    requires
        list.len() > 0,
        is_average(a, list, lower, upper, sum, divide),
        0 <= y < list[0]@.width,
        0 <= x < list[0]@.height,
    ensures
        exists|items: Vec<u32>, t: u32|
            items@ == known(column(list, x, y)) && #[trigger] sum.ensures((items,), t) && (feq(t, ZERO) ==> a.cells[y][x]
                == NAN) && (!feq(t, ZERO) ==> divide.ensures((t, known_count(column(list, x, y)) as i32), a.cells[y][x])),
{
    let vals = known(column(list, x, y));
    assert(is_mean(a.cells[y][x], vals, sum, divide));
    let (items, t) = choose|items: Vec<u32>, t: u32|
        items@ == vals && #[trigger] sum.ensures((items,), t) && if feq(t, ZERO) {
            a.cells[y][x] == NAN
        } else {
            divide.ensures((t, vals.len() as i32), a.cells[y][x])
        };
    lemma_known_count(column(list, x, y));
    assert(sum.ensures((items,), t));
}

} // verus!

//! Properties that hold across the operations on heightmaps and point clouds.
use vstd::prelude::*;
use crate::data_types::float_bits::{is_nan, lt, feq, ZERO};
use crate::data_types::pointcloud::{abs, decimated, decimated_out, cropped, in_box, axis_bounds};
use crate::data_types::heightmap::{CELL_MIN_START, CELL_MAX_START, CellStat, MapGenOpt, cell_stat_of, cell_min, cell_max, sorts, total_sorted, median_of_sorted};
use crate::data_types::float_bits::{order_key, total_key};
use crate::data_types::pointcloud::{total_min, total_max};
use crate::data_types::heightmap::{first_edge, second_edge, EDGE_THRESHOLD, EDGE_HIGH_THRESHOLD};
use vstd::arithmetic::div_mod::{lemma_fundamental_div_mod, lemma_fundamental_div_mod_converse};
use crate::data_types::heightmap::{
    HeightmapView, MAX_START, MIN_START, in_cells, beyond, written, after_set, with_max, with_min,
    max_scan, min_scan, scanned, in_window, pasted, with_cells, filled, heights_in, bin_of, bin_ends, lemma_bin_range,
};

verus! {

/// A height written into a cell is the height read back from it: `set_cell_height` and
/// `set_cell_height_no_check` leave `v` at `(x, y)`, keep every other cell, and keep the
/// map's size, so the cell passes the same range check it passed before.
pub proof fn cell_write_then_read(h: HeightmapView, x: int, y: int, v: u32)
    requires
        in_cells(h.cells, x, y),
    ensures
        written(h, x, y, v).cells[x][y] == v,
        after_set(h, x, y, v).cells == written(h, x, y, v).cells,
        beyond(written(h, x, y, v), x, y) == beyond(h, x, y),
        beyond(after_set(h, x, y, v), x, y) == beyond(h, x, y),
        forall|i: int, j: int|
            in_cells(h.cells, i, j) <==> #[trigger] in_cells(written(h, x, y, v).cells, i, j),
        forall|i: int, j: int|
            in_cells(h.cells, i, j) && (i != x || j != y) ==> #[trigger] written(
                h,
                x,
                y,
                v,
            ).cells[i][j] == h.cells[i][j],
{
    let w = written(h, x, y, v);
    assert forall|i: int, j: int| in_cells(h.cells, i, j) <==> #[trigger] in_cells(w.cells, i, j) by {
        if 0 <= i < h.cells.len() && i == x {
            assert(w.cells[i].len() == h.cells[i].len());
        }
    }
}

/// No searched height that is known exceeds the maximum that the search finds, and that
/// maximum is the start value -999 or one of the searched heights.
pub proof fn max_scan_is_upper_bound(s: Seq<(usize, usize, u32)>)
    ensures
        !is_nan(max_scan(s).0),
        forall|k: int| 0 <= k < s.len() && !is_nan(s[k].2) ==> !lt(max_scan(s).0, #[trigger] s[k].2),
        max_scan(s).0 == MAX_START || exists|k: int| 0 <= k < s.len() && (#[trigger] s[k]).2 == max_scan(s).0,
    decreases s.len(),
{
    if s.len() > 0 {
        let p = s.drop_last();
        max_scan_is_upper_bound(p);
        assert forall|k: int| 0 <= k < s.len() && !is_nan(s[k].2) implies !lt(
            max_scan(s).0,
            #[trigger] s[k].2,
        ) by {
            if k < p.len() {
                assert(s[k] == p[k]);
            }
        }
        if !lt(max_scan(p).0, s.last().2) && max_scan(p).0 != MAX_START {
            let k = choose|k: int| 0 <= k < p.len() && (#[trigger] p[k]).2 == max_scan(p).0;
            assert(s[k] == p[k]);
        } else if lt(max_scan(p).0, s.last().2) {
            assert(s[s.len() - 1] == s.last());
        }
    }
}

/// No searched height that is known and not zero is below the minimum that the search
/// finds, and that minimum is the start value 999 or one of the searched heights.
pub proof fn min_scan_is_lower_bound(s: Seq<(usize, usize, u32)>)
    ensures
        !is_nan(min_scan(s).0),
        forall|k: int|
            0 <= k < s.len() && !is_nan(s[k].2) && !feq(s[k].2, ZERO) ==> !lt(
                #[trigger] s[k].2,
                min_scan(s).0,
            ),
        min_scan(s).0 == MIN_START || exists|k: int| 0 <= k < s.len() && (#[trigger] s[k]).2 == min_scan(s).0,
    decreases s.len(),
{
    if s.len() > 0 {
        let p = s.drop_last();
        min_scan_is_lower_bound(p);
        assert forall|k: int| 0 <= k < s.len() && !is_nan(s[k].2) && !feq(s[k].2, ZERO) implies !lt(
            #[trigger] s[k].2,
            min_scan(s).0,
        ) by {
            if k < p.len() {
                assert(s[k] == p[k]);
            }
        }
        let e = s.last().2;
        if !(!feq(e, ZERO) && lt(e, min_scan(p).0)) && min_scan(p).0 != MIN_START {
            let k = choose|k: int| 0 <= k < p.len() && (#[trigger] p[k]).2 == min_scan(p).0;
            assert(s[k] == p[k]);
        } else if !feq(e, ZERO) && lt(e, min_scan(p).0) {
            assert(s[s.len() - 1] == s.last());
        }
    }
}

/// Once a map's maximum has been brought up to date from its cells (`get_max`, and
/// `set_map` or `set_all_cells`, which mark it stale first), no known height among the
/// searched cells exceeds it; likewise no known, non-zero searched height is below the
/// minimum.
pub proof fn extremes_bound_the_cells(h: HeightmapView)
    requires
        !h.max_updated,
        !h.min_updated,
    ensures
        forall|k: int|
            0 <= k < scanned(h.cells).len() && !is_nan(scanned(h.cells)[k].2) ==> !lt(
                with_max(h).max,
                #[trigger] scanned(h.cells)[k].2,
            ),
        forall|k: int|
            0 <= k < scanned(h.cells).len() && !is_nan(scanned(h.cells)[k].2) && !feq(
                scanned(h.cells)[k].2,
                ZERO,
            ) ==> !lt(#[trigger] scanned(h.cells)[k].2, with_min(h).min),
        with_min(with_max(h)).max == with_max(h).max,
        with_min(with_max(h)).min == with_min(h).min,
{
    max_scan_is_upper_bound(scanned(h.cells));
    min_scan_is_lower_bound(scanned(h.cells));
}

/// After every cell has been set to `val` (`set_all_cells`), every cell reads `val` and
/// the map keeps its shape.
pub proof fn fill_then_read(h: HeightmapView, val: u32, x: int, y: int)
    requires
        in_cells(h.cells, x, y),
    ensures
        in_cells(with_min(with_max(with_cells(h, filled(h.cells, val)))).cells, x, y),
        with_min(with_max(with_cells(h, filled(h.cells, val)))).cells[x][y] == val,
{
}

/// Pasting the same map at the same place a second time changes nothing.
pub proof fn paste_twice_is_paste_once(h: HeightmapView, o: HeightmapView, start_row: i32, start_col: i32)
    ensures
        pasted(
            HeightmapView { cells: pasted(h, o, start_row, start_col), ..h },
            o,
            start_row,
            start_col,
        ) == pasted(h, o, start_row, start_col),
{
    let once = pasted(h, o, start_row, start_col);
    let h1 = HeightmapView { cells: once, ..h };
    let twice = pasted(h1, o, start_row, start_col);
    assert forall|i: int| 0 <= i < once.len() implies #[trigger] twice[i] =~= once[i] by {
        assert forall|j: int| 0 <= j < once[i].len() implies #[trigger] twice[i][j] == once[i][j] by {
            assert(in_window(h1, o, start_row, start_col, i, j) == in_window(h, o, start_row, start_col, i, j));
        }
    }
    assert(twice =~= once);
}

/// The number of heights that fell into the cells `(m, 0)` to `(m, n - 1)`.
pub open spec fn row_total(data: Seq<[u32; 3]>, x_limits: Seq<u32>, y_limits: Seq<u32>, m: int, n: int) -> nat
    decreases n,
{
    if n <= 0 {
        0
    } else {
        row_total(data, x_limits, y_limits, m, n - 1) + heights_in(data, x_limits, y_limits, m, n - 1).len()
    }
}

/// The number of heights that fell into the cells of rows `0` to `m - 1`.
pub open spec fn grid_total(data: Seq<[u32; 3]>, x_limits: Seq<u32>, y_limits: Seq<u32>, m: int) -> nat
    decreases m,
{
    if m <= 0 {
        0
    } else {
        grid_total(data, x_limits, y_limits, m - 1) + row_total(data, x_limits, y_limits, m - 1, x_limits.len() as int)
    }
}

proof fn lemma_heights_in_last(data: Seq<[u32; 3]>, x_limits: Seq<u32>, y_limits: Seq<u32>, m: int, n: int)
    requires
        data.len() > 0,
    ensures
        heights_in(data, x_limits, y_limits, m, n).len() == heights_in(data.drop_last(), x_limits, y_limits, m, n).len()
            + if bin_of(data.last()[0], x_limits) == n && bin_of(data.last()[1], y_limits) == m { 1int } else { 0int },
{
}

proof fn lemma_row_total_last(data: Seq<[u32; 3]>, x_limits: Seq<u32>, y_limits: Seq<u32>, m: int, n: int)
    requires
        data.len() > 0,
    ensures
        row_total(data, x_limits, y_limits, m, n) == row_total(data.drop_last(), x_limits, y_limits, m, n)
            + if bin_of(data.last()[1], y_limits) == m && 0 <= bin_of(data.last()[0], x_limits) < n { 1int } else { 0int },
    decreases n,
{
    if n > 0 {
        lemma_row_total_last(data, x_limits, y_limits, m, n - 1);
        lemma_heights_in_last(data, x_limits, y_limits, m, n - 1);
    }
}

proof fn lemma_grid_total_last(data: Seq<[u32; 3]>, x_limits: Seq<u32>, y_limits: Seq<u32>, m: int)
    requires
        data.len() > 0,
    ensures
        grid_total(data, x_limits, y_limits, m) == grid_total(data.drop_last(), x_limits, y_limits, m)
            + if 0 <= bin_of(data.last()[1], y_limits) < m && 0 <= bin_of(data.last()[0], x_limits) < x_limits.len() {
            1int
        } else {
            0int
        },
    decreases m,
{
    if m > 0 {
        lemma_grid_total_last(data, x_limits, y_limits, m - 1);
        lemma_row_total_last(data, x_limits, y_limits, m - 1, x_limits.len() as int);
    }
}

proof fn lemma_row_total_empty(data: Seq<[u32; 3]>, x_limits: Seq<u32>, y_limits: Seq<u32>, m: int, n: int)
    requires
        data.len() == 0,
    ensures
        row_total(data, x_limits, y_limits, m, n) == 0,
    decreases n,
{
    if n > 0 {
        lemma_row_total_empty(data, x_limits, y_limits, m, n - 1);
    }
}

proof fn lemma_grid_total_empty(data: Seq<[u32; 3]>, x_limits: Seq<u32>, y_limits: Seq<u32>, m: int)
    requires
        data.len() == 0,
    ensures
        grid_total(data, x_limits, y_limits, m) == 0,
    decreases m,
{
    if m > 0 {
        lemma_grid_total_empty(data, x_limits, y_limits, m - 1);
        lemma_row_total_empty(data, x_limits, y_limits, m - 1, x_limits.len() as int);
    }
}

/// Generating a heightmap loses no point and counts none twice: every point falls into
/// exactly one cell of the grid, so the cells together hold as many heights as there
/// are points.
pub proof fn every_point_lands_in_one_cell(data: Seq<[u32; 3]>, x_limits: Seq<u32>, y_limits: Seq<u32>)
    requires
        forall|k: int|
            0 <= k < data.len() ==> bin_ends((#[trigger] data[k])[0], x_limits) && bin_ends(
                data[k][1],
                y_limits,
            ),
    ensures
        forall|k: int|
            0 <= k < data.len() ==> 0 <= bin_of((#[trigger] data[k])[0], x_limits) < x_limits.len()
                && 0 <= bin_of(data[k][1], y_limits) < y_limits.len(),
        grid_total(data, x_limits, y_limits, y_limits.len() as int) == data.len(),
    decreases data.len(),
{
    assert forall|k: int| 0 <= k < data.len() implies 0 <= bin_of((#[trigger] data[k])[0], x_limits)
        < x_limits.len() && 0 <= bin_of(data[k][1], y_limits) < y_limits.len() by {
        lemma_bin_range(data[k][0], x_limits, 0);
        lemma_bin_range(data[k][1], y_limits, 0);
    }
    if data.len() > 0 {
        let d = data.drop_last();
        assert forall|k: int| 0 <= k < d.len() implies bin_ends((#[trigger] d[k])[0], x_limits) && bin_ends(
            d[k][1],
            y_limits,
        ) by {
            assert(d[k] == data[k]);
        }
        every_point_lands_in_one_cell(d, x_limits, y_limits);
        lemma_grid_total_last(data, x_limits, y_limits, y_limits.len() as int);
        assert(data.last() == data[data.len() - 1]);
    } else {
        lemma_grid_total_empty(data, x_limits, y_limits, y_limits.len() as int);
    }
}

proof fn lemma_ceil_step(a: int, m: int)
    requires
        a >= 0,
        m >= 1,
    ensures
        (a + m) / m == (a + m - 1) / m + if a % m == 0 { 1int } else { 0int },
{
    let q = a / m;
    let r = a % m;
    lemma_fundamental_div_mod(a, m);
    assert(m * q == q * m) by (nonlinear_arith);
    assert((q + 1) * m == q * m + m) by (nonlinear_arith);
    lemma_fundamental_div_mod_converse(a + m, m, q + 1, r);
    if r == 0 {
        lemma_fundamental_div_mod_converse(a + m - 1, m, q, m - 1);
    } else {
        lemma_fundamental_div_mod_converse(a + m - 1, m, q + 1, r - 1);
    }
}

/// Decimating by `n` removes every `|n|`th point, starting with the first: of `L` points
/// it keeps `L - ceil(L / |n|)`. (The filter counts positions as `i32`, so the law is
/// stated for clouds whose positions fit one.)
pub proof fn decimation_removes_every_nth(points: Seq<[u32; 3]>, n: i32)
    requires
        n != 0,
        points.len() <= i32::MAX + 1,
    ensures
        decimated(points, n).len() == points.len() - (points.len() + abs(n as int) - 1) / abs(n as int),
    decreases points.len(),
{
    let m = abs(n as int);
    if points.len() == 0 {
        lemma_fundamental_div_mod_converse(m - 1, m, 0, m - 1);
    } else {
        let a = points.len() - 1;
        decimation_removes_every_nth(points.drop_last(), n);
        assert((a as i32) as int == a);
        assert(decimated_out(a, n) == (a % m == 0));
        lemma_ceil_step(a, m);
    }
}

/// Cropping keeps exactly the points inside the box: each point it keeps is inside, each
/// point inside is kept, and cropping again to the same box changes nothing.
pub proof fn crop_keeps_the_points_in_the_box(points: Seq<[u32; 3]>, lim: [u32; 6])
    ensures
        forall|i: int| 0 <= i < cropped(points, lim).len() ==> in_box(#[trigger] cropped(points, lim)[i], lim),
        forall|i: int| 0 <= i < points.len() && in_box(points[i], lim) ==> cropped(points, lim).contains(
            #[trigger] points[i],
        ),
        cropped(points, lim).len() <= points.len(),
        cropped(cropped(points, lim), lim) == cropped(points, lim),
    decreases points.len(),
{
    if points.len() > 0 {
        let p = points.drop_last();
        crop_keeps_the_points_in_the_box(p, lim);
        let c = cropped(p, lim);
        let tail = if in_box(points.last(), lim) { seq![points.last()] } else { Seq::<[u32; 3]>::empty() };
        assert(cropped(points, lim) == c + tail);
        assert forall|i: int| 0 <= i < (c + tail).len() implies in_box(#[trigger] (c + tail)[i], lim) by {
            if i < c.len() {
                assert((c + tail)[i] == c[i]);
            }
        }
        assert forall|i: int| 0 <= i < points.len() && in_box(points[i], lim) implies (c + tail).contains(
            #[trigger] points[i],
        ) by {
            if i < p.len() {
                assert(p[i] == points[i]);
                let k = choose|k: int| 0 <= k < c.len() && c[k] == p[i];
                assert((c + tail)[k] == c[k]);
            } else {
                assert(points[i] == points.last());
                assert((c + tail)[c.len() as int] == points.last());
            }
        }
        lemma_crop_all_in_box(c + tail, lim);
    }
}

proof fn lemma_crop_all_in_box(points: Seq<[u32; 3]>, lim: [u32; 6])
    requires
        forall|i: int| 0 <= i < points.len() ==> in_box(#[trigger] points[i], lim),
    ensures
        cropped(points, lim) == points,
    decreases points.len(),
{
    if points.len() > 0 {
        let p = points.drop_last();
        assert forall|i: int| 0 <= i < p.len() implies in_box(#[trigger] p[i], lim) by {
            assert(p[i] == points[i]);
        }
        lemma_crop_all_in_box(p, lim);
        assert(in_box(points[points.len() - 1], lim));
        assert(p + seq![points.last()] =~= points);
    }
}

/// The bounds of a cloud are its rectangular bounds: no known coordinate lies below the
/// minimum or above the maximum, and each of them is a coordinate of the cloud unless no
/// known coordinate passes its start (9999 for the minimum, -9999 for the maximum).
pub proof fn bounds_are_the_extremes(vals: Seq<u32>)
    ensures
        !is_nan(axis_bounds(vals).0),
        !is_nan(axis_bounds(vals).1),
        forall|k: int| 0 <= k < vals.len() && !is_nan(vals[k]) ==> !lt(#[trigger] vals[k], axis_bounds(vals).0)
            && !lt(axis_bounds(vals).1, vals[k]),
        axis_bounds(vals).0 == CELL_MIN_START || exists|k: int| 0 <= k < vals.len() && #[trigger] vals[k] == axis_bounds(vals).0,
        axis_bounds(vals).1 == CELL_MAX_START || exists|k: int| 0 <= k < vals.len() && #[trigger] vals[k] == axis_bounds(vals).1,
    decreases vals.len(),
{
    if vals.len() > 0 {
        let p = vals.drop_last();
        bounds_are_the_extremes(p);
        let b = axis_bounds(p);
        assert forall|k: int| 0 <= k < vals.len() && !is_nan(vals[k]) implies !lt(#[trigger] vals[k], axis_bounds(vals).0)
            && !lt(axis_bounds(vals).1, vals[k]) by {
            if k < p.len() {
                assert(vals[k] == p[k]);
            }
        }
        if !lt(vals.last(), b.0) && b.0 != CELL_MIN_START {
            let k = choose|k: int| 0 <= k < p.len() && #[trigger] p[k] == b.0;
            assert(vals[k] == p[k]);
        } else if lt(vals.last(), b.0) {
            assert(vals[vals.len() - 1] == vals.last());
        }
        if !lt(b.1, vals.last()) && b.1 != CELL_MAX_START {
            let k = choose|k: int| 0 <= k < p.len() && #[trigger] p[k] == b.1;
            assert(vals[k] == p[k]);
        } else if lt(b.1, vals.last()) {
            assert(vals[vals.len() - 1] == vals.last());
        }
    }
}


/// Whether point `p` falls into cell `(m, n)`.
pub open spec fn falls_in(p: [u32; 3], x_limits: Seq<u32>, y_limits: Seq<u32>, m: int, n: int) -> bool {
    bin_of(p[0], x_limits) == n && bin_of(p[1], y_limits) == m
}

proof fn lemma_heights_in_step(data: Seq<[u32; 3]>, x_limits: Seq<u32>, y_limits: Seq<u32>, m: int, n: int)
    requires
        data.len() > 0,
    ensures
        heights_in(data, x_limits, y_limits, m, n).to_multiset() == if falls_in(data.last(), x_limits, y_limits, m, n) {
            heights_in(data.drop_last(), x_limits, y_limits, m, n).to_multiset().insert(data.last()[2])
        } else {
            heights_in(data.drop_last(), x_limits, y_limits, m, n).to_multiset()
        },
{
    broadcast use vstd::seq_lib::group_to_multiset_ensures;
    let h = heights_in(data.drop_last(), x_limits, y_limits, m, n);
    if falls_in(data.last(), x_limits, y_limits, m, n) {
        assert(heights_in(data, x_limits, y_limits, m, n) =~= h.push(data.last()[2]));
    } else {
        assert(heights_in(data, x_limits, y_limits, m, n) =~= h);
    }
}

proof fn lemma_heights_in_remove(data: Seq<[u32; 3]>, j: int, x_limits: Seq<u32>, y_limits: Seq<u32>, m: int, n: int)
    requires
        0 <= j < data.len(),
    ensures
        falls_in(data[j], x_limits, y_limits, m, n) ==> heights_in(data, x_limits, y_limits, m, n).to_multiset().count(
            data[j][2],
        ) > 0,
        heights_in(data.remove(j), x_limits, y_limits, m, n).to_multiset() == if falls_in(
            data[j],
            x_limits,
            y_limits,
            m,
            n,
        ) {
            heights_in(data, x_limits, y_limits, m, n).to_multiset().remove(data[j][2])
        } else {
            heights_in(data, x_limits, y_limits, m, n).to_multiset()
        },
    decreases data.len(),
{
    broadcast use vstd::seq_lib::group_to_multiset_ensures;
    broadcast use vstd::multiset::group_multiset_axioms;
    lemma_heights_in_step(data, x_limits, y_limits, m, n);
    let d = data.drop_last();
    if j == data.len() - 1 {
        assert(data.remove(j) =~= d);
        assert(data[j] == data.last());
    } else {
        lemma_heights_in_remove(d, j, x_limits, y_limits, m, n);
        let r = data.remove(j);
        assert(r.drop_last() =~= d.remove(j));
        assert(r.last() == data.last());
        assert(d[j] == data[j]);
        lemma_heights_in_step(r, x_limits, y_limits, m, n);
        let a = heights_in(d, x_limits, y_limits, m, n).to_multiset();
        let b = heights_in(d.remove(j), x_limits, y_limits, m, n).to_multiset();
        let hj = data[j][2];
        let hl = data.last()[2];
        if falls_in(data.last(), x_limits, y_limits, m, n) {
            if falls_in(data[j], x_limits, y_limits, m, n) {
                assert(b.insert(hl) =~= a.insert(hl).remove(hj));
            }
        }
    }
}

/// The heights that fall into a cell are the same, counted with their repeats, whatever
/// the order of the points.
pub proof fn heights_ignore_point_order(
    data: Seq<[u32; 3]>,
    data2: Seq<[u32; 3]>,
    x_limits: Seq<u32>,
    y_limits: Seq<u32>,
    m: int,
    n: int,
)
    requires
        data.to_multiset() == data2.to_multiset(),
    ensures
        heights_in(data, x_limits, y_limits, m, n).to_multiset() == heights_in(data2, x_limits, y_limits, m, n).to_multiset(),
    decreases data.len(),
{
    broadcast use vstd::seq_lib::group_to_multiset_ensures;
    broadcast use vstd::multiset::group_multiset_axioms;
    if data.len() == 0 {
        vstd::seq_lib::to_multiset_len(data);
        vstd::seq_lib::to_multiset_len(data2);
        assert(data2.len() == 0);
        assert(data2 =~= data);
    } else {
        let x = data.last();
        let d = data.drop_last();
        assert(data =~= d.push(x));
        assert(data.to_multiset().count(x) > 0);
        assert(data2.contains(x));
        let j = choose|j: int| 0 <= j < data2.len() && data2[j] == x;
        let r = data2.remove(j);
        assert(r.to_multiset() =~= d.to_multiset());
        heights_ignore_point_order(d, r, x_limits, y_limits, m, n);
        lemma_heights_in_step(data, x_limits, y_limits, m, n);
        lemma_heights_in_remove(data2, j, x_limits, y_limits, m, n);
        let h2 = heights_in(data2, x_limits, y_limits, m, n).to_multiset();
        if falls_in(x, x_limits, y_limits, m, n) {
            assert(h2.remove(x[2]).insert(x[2]) =~= h2);
        }
    }
}


proof fn lemma_total_key_injective(a: u32, b: u32)
    requires
        total_key(a) == total_key(b),
    ensures
        a == b,
{
}

proof fn lemma_sorted_unique(s1: Seq<u32>, s2: Seq<u32>)
    requires
        total_sorted(s1),
        total_sorted(s2),
        s1.to_multiset() == s2.to_multiset(),
    ensures
        s1 == s2,
    decreases s1.len(),
{
    broadcast use vstd::seq_lib::group_to_multiset_ensures;
    vstd::seq_lib::to_multiset_len(s1);
    vstd::seq_lib::to_multiset_len(s2);
    if s1.len() == 0 {
        assert(s1 =~= s2);
    } else {
        let n = s1.len() - 1;
        let a = s1[n];
        let b = s2[n];
        assert(s2.to_multiset().count(a) > 0);
        assert(s1.to_multiset().count(b) > 0);
        let i = choose|i: int| 0 <= i < s2.len() && s2[i] == a;
        let k = choose|k: int| 0 <= k < s1.len() && s1[k] == b;
        assert(total_key(a) <= total_key(b));
        assert(total_key(b) <= total_key(a));
        lemma_total_key_injective(a, b);
        vstd::seq_lib::to_multiset_remove(s1, n);
        vstd::seq_lib::to_multiset_remove(s2, n);
        assert(s1.remove(n) =~= s1.drop_last());
        assert(s2.remove(n) =~= s2.drop_last());
        lemma_sorted_unique(s1.drop_last(), s2.drop_last());
        assert(s1 =~= s2.drop_last().push(b));
        assert(s2 =~= s2.drop_last().push(b));
    }
}

proof fn lemma_cell_min(p: Seq<u32>)
    ensures
        !is_nan(cell_min(p)),
        order_key(cell_min(p)) <= order_key(CELL_MIN_START),
        forall|i: int| 0 <= i < p.len() && !is_nan(p[i]) ==> order_key(cell_min(p)) <= order_key(#[trigger] p[i]),
        cell_min(p) == CELL_MIN_START || p.contains(cell_min(p)),
    decreases p.len(),
{
    if p.len() > 0 {
        let d = p.drop_last();
        lemma_cell_min(d);
        assert forall|i: int| 0 <= i < p.len() && !is_nan(p[i]) implies order_key(cell_min(p)) <= order_key(#[trigger] p[i]) by {
            if i < d.len() {
                assert(p[i] == d[i]);
            }
        }
        if cell_min(p) != CELL_MIN_START {
            if cell_min(p) == p.last() {
                assert(p[p.len() - 1] == p.last());
            } else {
                let k = choose|k: int| 0 <= k < d.len() && d[k] == cell_min(d);
                assert(p[k] == d[k]);
            }
        }
    }
}

proof fn lemma_cell_max(p: Seq<u32>)
    ensures
        !is_nan(cell_max(p)),
        order_key(CELL_MAX_START) <= order_key(cell_max(p)),
        forall|i: int| 0 <= i < p.len() && !is_nan(p[i]) ==> order_key(#[trigger] p[i]) <= order_key(cell_max(p)),
        cell_max(p) == CELL_MAX_START || p.contains(cell_max(p)),
    decreases p.len(),
{
    if p.len() > 0 {
        let d = p.drop_last();
        lemma_cell_max(d);
        assert forall|i: int| 0 <= i < p.len() && !is_nan(p[i]) implies order_key(#[trigger] p[i]) <= order_key(cell_max(p)) by {
            if i < d.len() {
                assert(p[i] == d[i]);
            }
        }
        if cell_max(p) != CELL_MAX_START {
            if cell_max(p) == p.last() {
                assert(p[p.len() - 1] == p.last());
            } else {
                let k = choose|k: int| 0 <= k < d.len() && d[k] == cell_max(d);
                assert(p[k] == d[k]);
            }
        }
    }
}

/// Whether two cell values are the same value: both unknown, the same height (the same
/// bits, or equal as binary32 values compare, as the two zeros are), or the same two
/// heights to take the midpoint of.
pub open spec fn same_cell(c1: CellStat, c2: CellStat) -> bool {
    match (c1, c2) {
        (CellStat::Unknown, CellStat::Unknown) => true,
        (CellStat::Value(a), CellStat::Value(b)) => a == b || feq(a, b),
        (CellStat::MidpointOf(a, b), CellStat::MidpointOf(a2, b2)) => a == a2 && b == b2,
        _ => false,
    }
}

/// A cell's value by median, minimum or maximum does not depend on the order in which
/// its heights came: the same heights, in any order, give the same value.
pub proof fn cell_value_ignores_order(p: Seq<u32>, p2: Seq<u32>, opt: MapGenOpt, c1: CellStat, c2: CellStat)
    requires
        !(opt is Mean),
        p.to_multiset() == p2.to_multiset(),
        cell_stat_of(c1, p, opt),
        cell_stat_of(c2, p2, opt),
    ensures
        same_cell(c1, c2),
{
    broadcast use vstd::seq_lib::group_to_multiset_ensures;
    vstd::seq_lib::to_multiset_len(p);
    vstd::seq_lib::to_multiset_len(p2);
    let unknown1 = p.len() == 0 || (forall|i: int| 0 <= i < p.len() ==> is_nan(#[trigger] p[i]));
    let unknown2 = p2.len() == 0 || (forall|i: int| 0 <= i < p2.len() ==> is_nan(#[trigger] p2[i]));
    assert(unknown1 == unknown2) by {
        if p.len() > 0 && unknown2 && !unknown1 {
            let i = choose|i: int| 0 <= i < p.len() && !is_nan(p[i]);
            assert(p.to_multiset().count(p[i]) > 0);
            let k = choose|k: int| 0 <= k < p2.len() && p2[k] == p[i];
        }
        if p2.len() > 0 && unknown1 && !unknown2 {
            let i = choose|i: int| 0 <= i < p2.len() && !is_nan(p2[i]);
            assert(p2.to_multiset().count(p2[i]) > 0);
            let k = choose|k: int| 0 <= k < p.len() && p[k] == p2[i];
        }
    }
    if !unknown1 {
        match opt {
            MapGenOpt::Median => {
                let s1 = choose|s: Seq<u32>| sorts(p, s) && c1 == median_of_sorted(s);
                let s2 = choose|s: Seq<u32>| sorts(p2, s) && c2 == median_of_sorted(s);
                lemma_sorted_unique(s1, s2);
            },
            MapGenOpt::Min => {
                lemma_cell_min(p);
                lemma_cell_min(p2);
                let a = cell_min(p);
                let b = cell_min(p2);
                if b != CELL_MIN_START {
                    assert(p2.to_multiset().count(b) > 0);
                    let k = choose|k: int| 0 <= k < p.len() && p[k] == b;
                }
                if a != CELL_MIN_START {
                    assert(p.to_multiset().count(a) > 0);
                    let k = choose|k: int| 0 <= k < p2.len() && p2[k] == a;
                }
            },
            MapGenOpt::Max => {
                lemma_cell_max(p);
                lemma_cell_max(p2);
                let a = cell_max(p);
                let b = cell_max(p2);
                if b != CELL_MAX_START {
                    assert(p2.to_multiset().count(b) > 0);
                    let k = choose|k: int| 0 <= k < p.len() && p[k] == b;
                }
                if a != CELL_MAX_START {
                    assert(p.to_multiset().count(a) > 0);
                    let k = choose|k: int| 0 <= k < p2.len() && p2[k] == a;
                }
            },
            MapGenOpt::Mean => {},
        }
    }
}

/// The order of the points does not matter to a heightmap made by median, minimum or
/// maximum: the same points in any order give every cell the same value.
pub proof fn point_order_does_not_matter(
    data: Seq<[u32; 3]>,
    data2: Seq<[u32; 3]>,
    x_limits: Seq<u32>,
    y_limits: Seq<u32>,
    opt: MapGenOpt,
    m: int,
    n: int,
    c1: CellStat,
    c2: CellStat,
)
    requires
        !(opt is Mean),
        data.to_multiset() == data2.to_multiset(),
        cell_stat_of(c1, heights_in(data, x_limits, y_limits, m, n), opt),
        cell_stat_of(c2, heights_in(data2, x_limits, y_limits, m, n), opt),
    ensures
        same_cell(c1, c2),
{
    heights_ignore_point_order(data, data2, x_limits, y_limits, m, n);
    cell_value_ignores_order(
        heights_in(data, x_limits, y_limits, m, n),
        heights_in(data2, x_limits, y_limits, m, n),
        opt,
        c1,
        c2,
    );
}


/// Whether the height step `step` between the heights `a` and `b` marks a feature edge:
/// neither height is zero (zero stands for no data), and the step is at least 0.0005
/// and below 0.01.
pub open spec fn edge_step(a: u32, b: u32, step: u32) -> bool {
    !feq(a, ZERO) && !feq(b, ZERO) && !lt(step, EDGE_THRESHOLD) && lt(step, EDGE_HIGH_THRESHOLD)
}

/// The first edge is the first place going up the row where the height rises by an
/// edge step (at least 0.0005 and below 0.01), and 0 when there is none: a step of
/// 0.01 or more is never an edge.
pub proof fn first_edge_is_the_first_edge_step(row: Seq<u32>, rises: Seq<u32>, i0: int, n: int)
    requires
        0 <= i0,
    ensures
        (exists|k: int| i0 <= k < n && edge_step(row[k], row[k + 1], #[trigger] rises[k])) ==> {
            let f = first_edge(row, rises, i0, n);
            &&& i0 <= f < n
            &&& edge_step(row[f], row[f + 1], rises[f])
            &&& lt(rises[f], EDGE_HIGH_THRESHOLD)
            &&& forall|k: int| i0 <= k < f ==> !edge_step(row[k], row[k + 1], #[trigger] rises[k])
        },
        !(exists|k: int| i0 <= k < n && edge_step(row[k], row[k + 1], #[trigger] rises[k])) ==> first_edge(
            row,
            rises,
            i0,
            n,
        ) == 0,
    decreases n - i0,
{
    if i0 < n {
        first_edge_is_the_first_edge_step(row, rises, i0 + 1, n);
        if !edge_step(row[i0], row[i0 + 1], rises[i0]) {
            if exists|k: int| i0 <= k < n && edge_step(row[k], row[k + 1], #[trigger] rises[k]) {
                let k = choose|k: int| i0 <= k < n && edge_step(row[k], row[k + 1], #[trigger] rises[k]);
                assert(k != i0);
            }
        }
    }
}

/// The second edge is the last place from `i0` down to 1 where the height, going back
/// down the row, rises by an edge step (at least 0.0005 and below 0.01), and 0 when
/// there is none.
pub proof fn second_edge_is_the_last_edge_step(row: Seq<u32>, falls: Seq<u32>, i0: int)
    ensures
        (exists|k: int| 1 <= k <= i0 && edge_step(row[k], row[k - 1], #[trigger] falls[k])) ==> {
            let s = second_edge(row, falls, i0);
            &&& 1 <= s <= i0
            &&& edge_step(row[s], row[s - 1], falls[s])
            &&& lt(falls[s], EDGE_HIGH_THRESHOLD)
            &&& forall|k: int| s < k <= i0 ==> !edge_step(row[k], row[k - 1], #[trigger] falls[k])
        },
        !(exists|k: int| 1 <= k <= i0 && edge_step(row[k], row[k - 1], #[trigger] falls[k])) ==> second_edge(
            row,
            falls,
            i0,
        ) == 0,
    decreases i0,
{
    if i0 >= 1 {
        second_edge_is_the_last_edge_step(row, falls, i0 - 1);
        if !edge_step(row[i0], row[i0 - 1], falls[i0]) {
            if exists|k: int| 1 <= k <= i0 && edge_step(row[k], row[k - 1], #[trigger] falls[k]) {
                let k = choose|k: int| 1 <= k <= i0 && edge_step(row[k], row[k - 1], #[trigger] falls[k]);
                assert(k != i0);
            }
        }
    }
}

/// Cropping to `[min x, max x, min y, max y, min z, max z]` keeps a point exactly when
/// none of its three coordinates lies below its minimum or above its maximum.
pub proof fn crop_checks_every_axis(points: Seq<[u32; 3]>, lim: [u32; 6])
    ensures
        forall|i: int|
            0 <= i < cropped(points, lim).len() ==> {
                let q = #[trigger] cropped(points, lim)[i];
                &&& !lt(q[0], lim[0]) && !lt(lim[1], q[0])
                &&& !lt(q[1], lim[2]) && !lt(lim[3], q[1])
                &&& !lt(q[2], lim[4]) && !lt(lim[5], q[2])
            },
        forall|i: int|
            0 <= i < points.len() && !lt(points[i][0], lim[0]) && !lt(lim[1], points[i][0]) && !lt(
                points[i][1],
                lim[2],
            ) && !lt(lim[3], points[i][1]) && !lt(points[i][2], lim[4]) && !lt(lim[5], points[i][2])
                ==> cropped(points, lim).contains(#[trigger] points[i]),
{
    crop_keeps_the_points_in_the_box(points, lim);
}

/// Combining takes, for each bound, the wider of the two clouds' bounds in the total
/// order: each minimum is the smaller of the two minima and each maximum the larger of
/// the two maxima, and each is one of the two.
pub proof fn combined_bounds_are_the_wider(a: u32, b: u32)
    ensures
        total_key(total_min(a, b)) <= total_key(a),
        total_key(total_min(a, b)) <= total_key(b),
        total_min(a, b) == a || total_min(a, b) == b,
        total_key(a) <= total_key(total_max(a, b)),
        total_key(b) <= total_key(total_max(a, b)),
        total_max(a, b) == a || total_max(a, b) == b,
{
}

/// The number of heights in `p` strictly below `x` in the total order.
pub open spec fn count_below(p: Seq<u32>, x: u32) -> nat
    decreases p.len(),
{
    if p.len() == 0 {
        0
    } else {
        count_below(p.drop_last(), x) + if total_key(p.last()) < total_key(x) { 1nat } else { 0nat }
    }
}

/// The number of heights in `p` strictly above `x` in the total order.
pub open spec fn count_above(p: Seq<u32>, x: u32) -> nat
    decreases p.len(),
{
    if p.len() == 0 {
        0
    } else {
        count_above(p.drop_last(), x) + if total_key(x) < total_key(p.last()) { 1nat } else { 0nat }
    }
}

proof fn lemma_counts_remove(p: Seq<u32>, j: int, x: u32)
    requires
        0 <= j < p.len(),
    ensures
        count_below(p, x) == count_below(p.remove(j), x) + if total_key(p[j]) < total_key(x) { 1int } else { 0int },
        count_above(p, x) == count_above(p.remove(j), x) + if total_key(x) < total_key(p[j]) { 1int } else { 0int },
    decreases p.len(),
{
    if j == p.len() - 1 {
        assert(p.remove(j) =~= p.drop_last());
    } else {
        let d = p.drop_last();
        lemma_counts_remove(d, j, x);
        let r = p.remove(j);
        assert(r.drop_last() =~= d.remove(j));
        assert(r.last() == p.last());
        assert(d[j] == p[j]);
    }
}

proof fn lemma_counts_perm(p: Seq<u32>, q: Seq<u32>, x: u32)
    requires
        p.to_multiset() == q.to_multiset(),
    ensures
        count_below(p, x) == count_below(q, x),
        count_above(p, x) == count_above(q, x),
    decreases p.len(),
{
    broadcast use vstd::seq_lib::group_to_multiset_ensures;
    broadcast use vstd::multiset::group_multiset_axioms;
    vstd::seq_lib::to_multiset_len(p);
    vstd::seq_lib::to_multiset_len(q);
    if p.len() == 0 {
        assert(q =~= p);
    } else {
        let e = p.last();
        let d = p.drop_last();
        assert(p =~= d.push(e));
        assert(p.to_multiset().count(e) > 0);
        assert(q.contains(e));
        let j = choose|j: int| 0 <= j < q.len() && q[j] == e;
        let r = q.remove(j);
        assert(r.to_multiset() =~= d.to_multiset());
        lemma_counts_perm(d, r, x);
        lemma_counts_remove(q, j, x);
    }
}

proof fn lemma_sorted_counts(s: Seq<u32>, k: int)
    requires
        total_sorted(s),
        0 <= k < s.len(),
    ensures
        count_below(s, s[k]) <= k,
        count_above(s, s[k]) <= s.len() - 1 - k,
    decreases s.len(),
{
    let x = s[k];
    if k < s.len() - 1 {
        let d = s.drop_last();
        assert(total_sorted(d));
        assert(d[k] == x);
        lemma_sorted_counts(d, k);
        assert(total_key(x) <= total_key(s.last()));
    } else {
        lemma_count_below_bound(s.drop_last(), x);
        lemma_count_above_none(s, x);
    }
}

proof fn lemma_count_above_none(p: Seq<u32>, x: u32)
    requires
        forall|i: int| 0 <= i < p.len() ==> total_key(#[trigger] p[i]) <= total_key(x),
    ensures
        count_above(p, x) == 0,
    decreases p.len(),
{
    if p.len() > 0 {
        let d = p.drop_last();
        assert forall|i: int| 0 <= i < d.len() implies total_key(#[trigger] d[i]) <= total_key(x) by {
            assert(d[i] == p[i]);
        }
        lemma_count_above_none(d, x);
        assert(p[p.len() - 1] == p.last());
    }
}

proof fn lemma_count_below_bound(p: Seq<u32>, x: u32)
    ensures
        count_below(p, x) <= p.len(),
    decreases p.len(),
{
    if p.len() > 0 {
        lemma_count_below_bound(p.drop_last(), x);
    }
}

/// By median, a cell into which an odd number of heights fell, not all of them unknown,
/// takes the middle height: one of its heights with at most half of the others strictly
/// below it and at most half strictly above it in the total order.
pub proof fn median_is_the_middle_height(p: Seq<u32>, c: CellStat)
    requires
        cell_stat_of(c, p, MapGenOpt::Median),
        p.len() % 2 == 1,
        exists|i: int| 0 <= i < p.len() && !is_nan(#[trigger] p[i]),
    ensures
        c matches CellStat::Value(x) && p.contains(x) && count_below(p, x) <= p.len() / 2 && count_above(p, x)
            <= p.len() / 2,
{
    broadcast use vstd::seq_lib::group_to_multiset_ensures;
    let s = choose|s: Seq<u32>| sorts(p, s) && c == median_of_sorted(s);
    vstd::seq_lib::to_multiset_len(p);
    vstd::seq_lib::to_multiset_len(s);
    let k: int = (s.len() / 2) as int;
    let x = s[k];
    lemma_sorted_counts(s, k);
    lemma_counts_perm(p, s, x);
    assert(s.to_multiset().count(x) > 0);
    assert(p.to_multiset().count(x) > 0);
    if s.len() == 1 {
        assert(c == CellStat::Value(s[0]));
    }
}

} // verus!

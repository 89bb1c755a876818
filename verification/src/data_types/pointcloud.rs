//! Point clouds: lists of `[x, y, z]` points with their rectangular bounds.
use vstd::prelude::*;
use chrono::{DateTime, Utc};

use crate::data_types::float_bits::{lt, total_key, lt_bits, total_lt_bits};
use crate::data_types::heightmap::{CELL_MIN_START, CELL_MAX_START};
use crate::data_types::text::{chars_of, has_infix, occurs, split_lines, split_fields, fields, lines, first_line_len, find_char, copy_range};

verus! {

#[verifier::external_type_specification]
#[verifier::external_body]
pub struct ExParseError(chrono::ParseError);

/// An instant in UTC: whole seconds since 1970-01-01T00:00:00 and the nanoseconds past
/// them (a UTC date and time of `chrono` is determined by these two numbers).
#[derive(Clone, Copy, Debug, PartialEq, Eq)]
pub struct Timestamp {
    pub secs: i64,
    pub nanos: u32,
}

/// The instant, as `(secs, nanos)`, that `chrono` reads from `s` as a UTC date and time
/// (`DateTime<Utc>::from_str`), or `None` when it does not read one.
pub uninterp spec fn parsed_utc(s: Seq<char>) -> Option<(i64, u32)>;

/// Whether `chrono` reads `s` as a UTC date and time.
pub open spec fn utc_timestamp_parses(s: Seq<char>) -> bool {
    parsed_utc(s) is Some
}

/// The current time, from `chrono::Utc::now`, as seconds and nanoseconds since 1970.
/// Of the instant returned only what holds of every one is stated: it is not before 1970
/// (`Utc::now` panics when the system clock reads a time before 1970) and its
/// nanoseconds are below one second.
#[verifier::external_body]
fn now() -> (r: Timestamp)
    ensures
        r.secs >= 0,
        r.nanos < 1_000_000_000,
{
    let t = Utc::now();
    Timestamp { secs: t.timestamp(), nanos: t.timestamp_subsec_nanos() }
}

/// Reads `s` as a UTC date and time with `str::parse::<DateTime<Utc>>` and gives the
/// instant read as seconds and nanoseconds since 1970: it succeeds exactly on the strings
/// `chrono` accepts, with the instant named by `parsed_utc`.
#[verifier::external_body]
fn parse_utc(s: &Vec<char>) -> (r: Result<Timestamp, chrono::ParseError>)
    ensures
        match r {
            Ok(t) => parsed_utc(s@) == Some((t.secs, t.nanos)),
            Err(_) => parsed_utc(s@) is None,
        },
{
    let text: String = s.iter().collect();
    let t = text.parse::<DateTime<Utc>>()?;
    Ok(Timestamp { secs: t.timestamp(), nanos: t.timestamp_subsec_nanos() })
}

/// Why a point cloud could not be made.
#[derive(Debug, PartialEq, Eq)]
pub enum PointCloudError {
    /// The file path does not end in `.txt`.
    NotTxt,
    /// The first line of the file is not a date and time.
    BadTimestamp,
}

/// A point cloud. Coordinates and bounds are binary32 bit patterns.
pub struct PointCloud {
    points: Vec<[u32; 3]>,
    no_of_points: usize,
    global_timestamp: Timestamp,
    filename: Option<String>,
    bounds: [u32; 6],
}

/// The model of a point cloud.
pub struct PointCloudView {
    /// The points, `[x, y, z]`.
    pub points: Seq<[u32; 3]>,
    /// The recorded number of points.
    pub no_of_points: usize,
    /// When the cloud was captured.
    pub timestamp: Timestamp,
    /// The file the cloud was loaded from, without its `.txt`.
    pub filename: Option<Seq<char>>,
    /// `[min x, max x, min y, max y, min z, max z]`.
    pub bounds: Seq<u32>,
}

impl View for PointCloud {
    type V = PointCloudView;

    closed spec fn view(&self) -> PointCloudView {
        PointCloudView {
            points: self.points@,
            no_of_points: self.no_of_points,
            timestamp: self.global_timestamp,
            filename: match self.filename {
                Some(f) => Some(f@),
                None => None,
            },
            bounds: self.bounds@,
        }
    }
}

/// The coordinate `axis` of each point.
pub open spec fn coords(points: Seq<[u32; 3]>, axis: int) -> Seq<u32> {
    Seq::new(points.len(), |i: int| points[i][axis])
}

/// The `(min, max)` of `vals`: starting from 9999 and -9999, each value below the
/// minimum becomes the minimum and each value above the maximum becomes the maximum
/// (NaN values compare with nothing and are passed over).
pub open spec fn axis_bounds(vals: Seq<u32>) -> (u32, u32)
    decreases vals.len(),
{
    if vals.len() == 0 {
        (CELL_MIN_START, CELL_MAX_START)
    } else {
        let prev = axis_bounds(vals.drop_last());
        let v = vals.last();
        (if lt(v, prev.0) { v } else { prev.0 }, if lt(prev.1, v) { v } else { prev.1 })
    }
}

/// `[min x, max x, min y, max y, min z, max z]` of `points` (see `axis_bounds`).
pub open spec fn bounds_of(points: Seq<[u32; 3]>) -> Seq<u32> {
    let x = axis_bounds(coords(points, 0));
    let y = axis_bounds(coords(points, 1));
    let z = axis_bounds(coords(points, 2));
    seq![x.0, x.1, y.0, y.1, z.0, z.1]
}

/// The smaller of `a` and `b` in the total order, `a` when they are equal.
pub open spec fn total_min(a: u32, b: u32) -> u32 {
    if total_key(b) < total_key(a) {
        b
    } else {
        a
    }
}

/// The larger of `a` and `b` in the total order, `b` when they are equal.
pub open spec fn total_max(a: u32, b: u32) -> u32 {
    if total_key(b) < total_key(a) {
        a
    } else {
        b
    }
}

/// Whether `p` lies inside the box (boundary included): no coordinate is below its
/// minimum or above its maximum.
pub open spec fn in_box(p: [u32; 3], lim: [u32; 6]) -> bool {
    !(lt(p[0], lim[0]) || lt(lim[1], p[0]) || lt(p[1], lim[2]) || lt(lim[3], p[1]) || lt(
        p[2],
        lim[4],
    ) || lt(lim[5], p[2]))
}

/// The points of `points` inside the box, in order.
pub open spec fn cropped(points: Seq<[u32; 3]>, lim: [u32; 6]) -> Seq<[u32; 3]>
    decreases points.len(),
{
    if points.len() == 0 {
        Seq::empty()
    } else {
        cropped(points.drop_last(), lim) + if in_box(points.last(), lim) {
            seq![points.last()]
        } else {
            Seq::empty()
        }
    }
}

/// Whether the recorded count of a cloud is its number of points, as every operation
/// keeps it.
pub open spec fn counted(c: PointCloudView) -> bool {
    c.no_of_points == c.points.len()
}

/// `|x|`.
pub open spec fn abs(x: int) -> int {
    if x < 0 {
        -x
    } else {
        x
    }
}

/// Whether decimating by `n` removes the point at index `i`: `n` divides the index
/// (taken as an `i32`, as the filter counts).
pub open spec fn decimated_out(i: int, n: i32) -> bool {
    abs((i as i32) as int) % abs(n as int) == 0
}

/// The points that decimating by `n` keeps, in order.
pub open spec fn decimated(points: Seq<[u32; 3]>, n: i32) -> Seq<[u32; 3]>
    decreases points.len(),
{
    if points.len() == 0 {
        Seq::empty()
    } else {
        decimated(points.drop_last(), n) + if decimated_out(points.len() - 1, n) {
            Seq::empty()
        } else {
            seq![points.last()]
        }
    }
}

/// `path` without its `.txt` ending, when it has one (`str::strip_suffix(".txt")`).
pub open spec fn txt_stem_of(path: Seq<char>) -> Option<Seq<char>> {
    if path.len() >= 4 && path.subrange(path.len() - 4, path.len() as int) == ".txt"@ {
        Some(path.subrange(0, path.len() - 4))
    } else {
        None
    }
}

/// The `(min, max)` of the coordinate `axis` of `points`.
fn axis_pass(points: &Vec<[u32; 3]>, axis: usize) -> (r: (u32, u32))
    requires
        axis < 3,
    ensures
        r == axis_bounds(coords(points@, axis as int)),
{
    let mut mn = CELL_MIN_START;
    let mut mx = CELL_MAX_START;
    let mut i: usize = 0;
    while i < points.len()
        invariant
            axis < 3,
            i <= points.len(),
            (mn, mx) == axis_bounds(coords(points@.subrange(0, i as int), axis as int)),
        decreases points.len() - i,
    {
        let v = points[i][axis];
        proof {
            let c = coords(points@.subrange(0, i + 1), axis as int);
            assert(c.drop_last() =~= coords(points@.subrange(0, i as int), axis as int));
            assert(c.last() == v);
        }
        if lt_bits(mx, v) {
            mx = v;
        }
        if lt_bits(v, mn) {
            mn = v;
        }
        i = i + 1;
    }
    assert(points@.subrange(0, points.len() as int) =~= points@);
    (mn, mx)
}

/// A copy of the points.
fn copy_points(v: &Vec<[u32; 3]>) -> (r: Vec<[u32; 3]>)
    ensures
        r@ == v@,
{
    let mut r: Vec<[u32; 3]> = Vec::new();
    let mut i: usize = 0;
    while i < v.len()
        invariant
            i <= v.len(),
            r@ == v@.subrange(0, i as int),
        decreases v.len() - i,
    {
        r.push(v[i]);
        i = i + 1;
        assert(r@ =~= v@.subrange(0, i as int));
    }
    assert(v@.subrange(0, v.len() as int) =~= v@);
    r
}

/// `path` without its `.txt` ending, when it has one.
pub fn txt_stem(path: &String) -> (r: Option<String>)
    ensures
        match r {
            Some(s) => txt_stem_of(path@) == Some(s@),
            None => txt_stem_of(path@) is None,
        },
{
    proof {
        reveal_strlit(".txt");
    }
    let cs = chars_of(path.as_str());
    let suffix = chars_of(".txt");
    let n = cs.len();
    assert(suffix@.len() == 4);
    if n < 4 {
        return None;
    }
    let mut k: usize = 0;
    while k < 4
        invariant
            n == cs.len(),
            n >= 4,
            k <= 4,
            suffix@ == ".txt"@,
            suffix.len() == 4,
            cs@ == path@,
            forall|j: int| 0 <= j < k ==> cs@[n - 4 + j] == suffix@[j],
        decreases 4 - k,
    {
        if cs[n - 4 + k] != suffix[k] {
            assert(cs@.subrange(n - 4, n as int)[k as int] != suffix@[k as int]);
            assert(cs@ == path@);
            assert(path@.subrange(path@.len() - 4, path@.len() as int) != ".txt"@);
            return None;
        }
        k = k + 1;
    }
    assert(cs@.subrange(n - 4, n as int) =~= suffix@);
    let stem = path.as_str().substring_char(0, n - 4);
    Some(String::from_str(stem))
}

/// Splits a point cloud file's text: its first line (as `BufRead::read_line` reads it,
/// with its line ending) must be the date and time of capture, and each further line is
/// one point, its coordinates separated by commas.
pub fn pcl_file_parts(text: &Vec<char>) -> (r: Result<(Timestamp, Vec<Vec<Vec<char>>>), PointCloudError>)
    ensures
        match r {
            Ok((t, rows)) => {
                let first = text@.subrange(0, first_line_len(text@));
                let rest = lines(text@.subrange(first_line_len(text@), text@.len() as int));
                &&& parsed_utc(first) == Some((t.secs, t.nanos))
                &&& rows@.len() == rest.len()
                &&& forall|i: int|
                    0 <= i < rows@.len() ==> crate::data_types::text::views(#[trigger] rows@[i]@)
                        == fields(rest[i], ',')
            },
            Err(e) => e == PointCloudError::BadTimestamp && !utc_timestamp_parses(
                text@.subrange(0, first_line_len(text@)),
            ),
        },
{
    let k = find_char(text, '\n', 0);
    let end: usize = if k < text.len() {
        k + 1
    } else {
        text.len()
    };
    assert(text@.subrange(0, text.len() as int) =~= text@);
    let first = copy_range(text, 0, end);
    let timestamp = match parse_utc(&first) {
        Ok(t) => t,
        Err(_) => {
            return Err(PointCloudError::BadTimestamp);
        },
    };
    let lines_v = split_lines(text, end);
    let mut rows: Vec<Vec<Vec<char>>> = Vec::new();
    let mut i: usize = 0;
    while i < lines_v.len()
        invariant
            i <= lines_v.len(),
            crate::data_types::text::views(lines_v@) == lines(text@.subrange(end as int, text@.len() as int)),
            rows@.len() == i,
            forall|j: int|
                0 <= j < i ==> crate::data_types::text::views(#[trigger] rows@[j]@) == fields(
                    lines_v@[j]@,
                    ',',
                ),
        decreases lines_v.len() - i,
    {
        let f = split_fields(&lines_v[i], ',');
        rows.push(f);
        i = i + 1;
    }
    proof {
        let rest = lines(text@.subrange(end as int, text@.len() as int));
        assert forall|j: int| 0 <= j < rows@.len() implies crate::data_types::text::views(
            #[trigger] rows@[j]@,
        ) == fields(rest[j], ',') by {
            assert(crate::data_types::text::views(lines_v@)[j] == lines_v@[j]@);
        }
    }
    Ok((timestamp, rows))
}

impl PointCloud {
    /// An empty point cloud, captured now.
    pub fn new() -> (r: PointCloud)
        ensures
            r@.timestamp.secs >= 0 && r@.timestamp.nanos < 1_000_000_000,
            counted(r@),
            r@.points == Seq::<[u32; 3]>::empty(),
            r@.no_of_points == 0,
            r@.filename is None,
            r@.bounds == seq![0u32, 0u32, 0u32, 0u32, 0u32, 0u32],
    {
        let r = PointCloud {
            points: Vec::new(),
            no_of_points: 0,
            global_timestamp: now(),
            filename: None,
            bounds: [0, 0, 0, 0, 0, 0],
        };
        assert(r@.bounds =~= seq![0u32, 0u32, 0u32, 0u32, 0u32, 0u32]);
        r
    }

    /// `[min x, max x, min y, max y, min z, max z]` of `points`.
    pub fn calculate_bounds(points: &Vec<[u32; 3]>) -> (r: [u32; 6])
        ensures
            r@ == bounds_of(points@),
    {
        let x = axis_pass(points, 0);
        let y = axis_pass(points, 1);
        let z = axis_pass(points, 2);
        let r = [x.0, x.1, y.0, y.1, z.0, z.1];
        assert(r@ =~= bounds_of(points@));
        r
    }

    /// A point cloud of the given points, captured now.
    pub fn create_from_list(pnts: Vec<[u32; 3]>) -> (r: PointCloud)
        ensures
            r@.timestamp.secs >= 0 && r@.timestamp.nanos < 1_000_000_000,
            counted(r@),
            r@.points == pnts@,
            r@.no_of_points == pnts@.len(),
            r@.filename is None,
            r@.bounds == bounds_of(pnts@),
    {
        let no_of_points = pnts.len();
        let bounds = PointCloud::calculate_bounds(&pnts);
        PointCloud { bounds, points: pnts, no_of_points, global_timestamp: now(), filename: None }
    }

    /// A point cloud of the given vertices, captured now.
    pub fn create_from_iter(vertices: Vec<[u32; 3]>) -> (r: Result<PointCloud, PointCloudError>)
        ensures
            r matches Ok(c) ==> c@.timestamp.secs >= 0 && c@.timestamp.nanos < 1_000_000_000,
            r matches Ok(c) ==> counted(c@),
            r matches Ok(c) && c@.points == vertices@ && c@.no_of_points == vertices@.len()
                && c@.filename is None && c@.bounds == bounds_of(vertices@),
    {
        let points = copy_points(&vertices);
        let bounds = PointCloud::calculate_bounds(&vertices);
        Ok(PointCloud { no_of_points: points.len(), points, global_timestamp: now(), filename: None, bounds })
    }

    /// A point cloud loaded from a file: its points, its time of capture and the file's
    /// path without `.txt`.
    pub fn create_loaded(points: Vec<[u32; 3]>, global_timestamp: Timestamp, filename: String) -> (r:
        PointCloud)
        ensures
            counted(r@),
            r@.points == points@,
            r@.no_of_points == points@.len(),
            r@.timestamp == global_timestamp,
            r@.filename == Some(filename@),
            r@.bounds == bounds_of(points@),
    {
        let bounds = PointCloud::calculate_bounds(&points);
        PointCloud { bounds, no_of_points: points.len(), points, global_timestamp, filename: Some(filename) }
    }

    /// A copy of the points.
    pub fn points(&self) -> (r: Vec<[u32; 3]>)
        ensures
            r@ == self@.points,
    {
        copy_points(&self.points)
    }

    /// The points, consuming the cloud.
    pub fn consume_points(self) -> (r: Vec<[u32; 3]>)
        ensures
            r@ == self@.points,
    {
        self.points
    }

    /// When the cloud was captured.
    pub fn timestamp(&self) -> (r: Timestamp)
        ensures
            r == self@.timestamp,
    {
        self.global_timestamp
    }

    /// The recorded number of points.
    pub fn size(&self) -> (r: usize)
        ensures
            r == self@.no_of_points,
    {
        self.no_of_points
    }

    /// The file the cloud was loaded from, without `.txt`.
    pub fn filename(&self) -> (r: Option<String>)
        ensures
            match r {
                Some(f) => self@.filename == Some(f@),
                None => self@.filename is None,
            },
    {
        match &self.filename {
            Some(f) => Some(f.clone()),
            None => None,
        }
    }

    /// `[min x, max x, min y, max y, min z, max z]`.
    pub fn bounds(&self) -> (r: [u32; 6])
        ensures
            r@ == self@.bounds,
    {
        self.bounds
    }

    /// Recalculates the bounds from the points.
    pub fn update_bounds(&mut self)
        ensures
            counted(old(self)@) ==> counted(final(self)@),
            final(self)@ == (PointCloudView { bounds: bounds_of(old(self)@.points), ..old(self)@ }),
    {
        self.bounds = PointCloud::calculate_bounds(&self.points);
    }

    /// Replaces every point `p` with `f(p)` (a transformation in binary32 arithmetic); the
    /// bounds are left as they are.
    pub fn map_points<F: Fn([u32; 3]) -> [u32; 3]>(&mut self, f: F)
        requires
            forall|p: [u32; 3]| f.requires((p,)),
        ensures
            counted(old(self)@) ==> counted(final(self)@),
            final(self)@ == (PointCloudView { points: final(self)@.points, ..old(self)@ }),
            final(self)@.points.len() == old(self)@.points.len(),
            forall|i: int|
                0 <= i < old(self)@.points.len() ==> f.ensures(
                    (old(self)@.points[i],),
                    #[trigger] final(self)@.points[i],
                ),
    {
        let mut out: Vec<[u32; 3]> = Vec::new();
        let mut i: usize = 0;
        while i < self.points.len()
            invariant
                i <= self.points.len(),
                self@ == old(self)@,
                forall|p: [u32; 3]| f.requires((p,)),
                out@.len() == i,
                forall|j: int| 0 <= j < i ==> f.ensures((self@.points[j],), #[trigger] out@[j]),
            decreases self.points.len() - i,
        {
            let q = f(self.points[i]);
            out.push(q);
            i = i + 1;
        }
        self.points = out;
    }

    /// Replaces the bounds `b` with `g(b)` (a transformation in binary32 arithmetic).
    pub fn map_bounds<G: Fn([u32; 6]) -> [u32; 6]>(&mut self, g: G)
        requires
            forall|b: [u32; 6]| g.requires((b,)),
        ensures
            counted(old(self)@) ==> counted(final(self)@),
            final(self)@ == (PointCloudView { bounds: final(self)@.bounds, ..old(self)@ }),
            exists|b: [u32; 6], c: [u32; 6]|
                b@ == old(self)@.bounds && c@ == final(self)@.bounds && #[trigger] g.ensures((b,), c),
    {
        let b = self.bounds;
        self.bounds = g(b);
    }

    /// Keeps only the points inside the box `[min_x, max_x, min_y, max_y, min_z, max_z]`,
    /// boundary included, and recalculates the count and the bounds.
    pub fn crop(&mut self, min_x: u32, max_x: u32, min_y: u32, max_y: u32, min_z: u32, max_z: u32)
        ensures
            counted(final(self)@),
            final(self)@ == (PointCloudView {
                points: cropped(old(self)@.points, [min_x, max_x, min_y, max_y, min_z, max_z]),
                no_of_points: cropped(old(self)@.points, [min_x, max_x, min_y, max_y, min_z, max_z]).len() as usize,
                bounds: bounds_of(cropped(old(self)@.points, [min_x, max_x, min_y, max_y, min_z, max_z])),
                ..old(self)@
            }),
    {
        let ghost lim = [min_x, max_x, min_y, max_y, min_z, max_z];
        let pnts = self.points();
        let mut new_pnts: Vec<[u32; 3]> = Vec::new();
        let mut i: usize = 0;
        while i < pnts.len()
            invariant
                i <= pnts.len(),
                lim == [min_x, max_x, min_y, max_y, min_z, max_z],
                new_pnts@ == cropped(pnts@.subrange(0, i as int), lim),
            decreases pnts.len() - i,
        {
            let pnt = pnts[i];
            let ghost sub = pnts@.subrange(0, i + 1);
            assert(sub.drop_last() =~= pnts@.subrange(0, i as int));
            assert(sub.last() == pnt);
            if lt_bits(pnt[0], min_x) || lt_bits(max_x, pnt[0]) || lt_bits(pnt[1], min_y) || lt_bits(
                max_y,
                pnt[1],
            ) || lt_bits(pnt[2], min_z) || lt_bits(max_z, pnt[2]) {
                assert(new_pnts@ =~= cropped(sub, lim));
            } else {
                new_pnts.push(pnt);
                assert(new_pnts@ =~= cropped(sub, lim));
            }
            i = i + 1;
        }
        assert(pnts@.subrange(0, pnts.len() as int) =~= pnts@);
        self.points = new_pnts;
        self.no_of_points = self.points.len();
        self.update_bounds();
    }

    /// Whether the cloud is the last of a series: its file name contains `_END`.
    pub fn is_end(&self) -> (r: bool)
        ensures
            r == (self@.filename matches Some(f) && occurs(f, "_END"@)),
    {
        match &self.filename {
            Some(fp) => {
                let cs = chars_of(fp.as_str());
                let end = chars_of("_END");
                has_infix(&cs, &end)
            },
            None => false,
        }
    }

    /// Absorbs `other`: its points are appended, the count becomes the number of points,
    /// and each bound becomes the wider of the two (in the total order). The time of
    /// capture stays this cloud's.
    pub fn combine(&mut self, other: PointCloud)
        ensures
            counted(final(self)@),
            final(self)@ == (PointCloudView {
                points: old(self)@.points + other@.points,
                no_of_points: (old(self)@.points + other@.points).len() as usize,
                bounds: seq![
                    total_min(old(self)@.bounds[0], other@.bounds[0]),
                    total_max(old(self)@.bounds[1], other@.bounds[1]),
                    total_min(old(self)@.bounds[2], other@.bounds[2]),
                    total_max(old(self)@.bounds[3], other@.bounds[3]),
                    total_min(old(self)@.bounds[4], other@.bounds[4]),
                    total_max(old(self)@.bounds[5], other@.bounds[5]),
                ],
                ..old(self)@
            }),
    {
        let mut other = other;
        let ghost op = other.points@;
        self.points.append(&mut other.points);
        let b = self.bounds;
        let o = other.bounds;
        let nb = [
            if total_lt_bits(o[0], b[0]) { o[0] } else { b[0] },
            if total_lt_bits(o[1], b[1]) { b[1] } else { o[1] },
            if total_lt_bits(o[2], b[2]) { o[2] } else { b[2] },
            if total_lt_bits(o[3], b[3]) { b[3] } else { o[3] },
            if total_lt_bits(o[4], b[4]) { o[4] } else { b[4] },
            if total_lt_bits(o[5], b[5]) { b[5] } else { o[5] },
        ];
        self.bounds = nb;
        self.no_of_points = self.points.len();
        assert(self@.bounds =~= seq![
            total_min(old(self)@.bounds[0], o[0]),
            total_max(old(self)@.bounds[1], o[1]),
            total_min(old(self)@.bounds[2], o[2]),
            total_max(old(self)@.bounds[3], o[3]),
            total_min(old(self)@.bounds[4], o[4]),
            total_max(old(self)@.bounds[5], o[5]),
        ]);
    }

    /// Removes every `n`th point: those whose index is a multiple of `n`. The count
    /// becomes the number of points left. An empty cloud is left as it is, whatever `n`.
    pub fn decimation_filter(&mut self, n: i32)
        requires
            n != 0 || old(self)@.points.len() == 0,
        ensures
            counted(final(self)@),
            final(self)@ == (PointCloudView {
                points: decimated(old(self)@.points, n),
                no_of_points: decimated(old(self)@.points, n).len() as usize,
                ..old(self)@
            }),
    {
        let mut kept: Vec<[u32; 3]> = Vec::new();
        let mut i: usize = 0;
        while i < self.points.len()
            invariant
                i <= self.points.len(),
                self@ == old(self)@,
                n != 0 || self@.points.len() == 0,
                kept@ == decimated(self@.points.subrange(0, i as int), n),
            decreases self.points.len() - i,
        {
            let ghost sub = self@.points.subrange(0, i + 1);
            assert(sub.drop_last() =~= self@.points.subrange(0, i as int));
            let ii = i as i32;
            let a: u64 = if ii < 0 {
                (-(ii as i64)) as u64
            } else {
                ii as u64
            };
            let b: u64 = if n < 0 {
                (-(n as i64)) as u64
            } else {
                n as u64
            };
            if a % b != 0 {
                kept.push(self.points[i]);
            }
            assert(kept@ =~= decimated(sub, n));
            i = i + 1;
        }
        assert(self@.points.subrange(0, self.points.len() as int) =~= self@.points);
        self.points = kept;
        self.no_of_points = self.points.len();
    }
}

} // verus!

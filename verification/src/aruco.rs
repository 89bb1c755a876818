//! Reading what the marker detection script prints: the number of markers found, then
//! for each marker a line with its id and four lines with its corners.
use vstd::prelude::*;
use crate::data_types::text::{
    chars_of, fields, trim, removed, parsed_usize, parsed_i32, views, split_fields, trim_chars, remove_all,
    parse_usize_chars, parse_i32_chars,
};

verus! {

/// Why the script's output gave no markers.
#[derive(Debug, PartialEq, Eq)]
pub enum ArucoError {
    /// The script found no marker.
    NoIds,
    /// The output is not in the script's format: a line is missing or a number does not
    /// read.
    Malformed,
}

/// The number of markers, from the second line of the output: `ID_COUNT:` taken out of
/// the trimmed line, the rest read as a `usize`.
pub open spec fn id_count(ls: Seq<Seq<char>>) -> Option<usize> {
    if ls.len() < 2 {
        None
    } else {
        parsed_usize(removed(trim(ls[1]), "ID_COUNT:"@))
    }
}

/// The id on a marker's line: `MARK:[[` and `]]` taken out of the trimmed line, the rest
/// read as a `usize`.
pub open spec fn marker_id(l: Seq<char>) -> Option<usize> {
    parsed_usize(removed(removed(trim(l), "MARK:[["@), "]]"@))
}

/// The corner on a corner line: `CORN:`, `[` and `]` taken out of the trimmed line, the
/// rest split at `.`, and the first two pieces, trimmed, read as `i32`s.
pub open spec fn corner_of(l: Seq<char>) -> Option<(i32, i32)> {
    let parts = fields(removed(removed(removed(trim(l), "CORN:"@), "["@), "]"@), '.');
    if parts.len() < 2 {
        None
    } else {
        match (parsed_i32(trim(parts[0])), parsed_i32(trim(parts[1]))) {
            (Some(x), Some(y)) => Some((x, y)),
            _ => None,
        }
    }
}

/// The line of marker `i`'s id: the markers' lines start at the third line, five lines
/// each.
pub open spec fn marker_line(i: int) -> int {
    2 + 5 * i
}

/// Whether marker `i` reads: its id line and its four corner lines are there and read.
pub open spec fn marker_ok(ls: Seq<Seq<char>>, i: int) -> bool {
    &&& marker_line(i) + 4 < ls.len()
    &&& marker_id(ls[marker_line(i)]) is Some
    &&& forall|j: int| 1 <= j <= 4 ==> (#[trigger] corner_of(ls[marker_line(i) + j])) is Some
}

/// Whether `v` is marker `i` as read from the lines `ls`: its id and its four corners.
pub open spec fn marker_is(ls: Seq<Seq<char>>, i: int, v: (usize, [(i32, i32); 4])) -> bool {
    &&& marker_ok(ls, i)
    &&& marker_id(ls[marker_line(i)]) == Some(v.0)
    &&& forall|j: int| 0 <= j < 4 ==> corner_of(ls[marker_line(i) + 1 + j]) == Some(v.1@[j])
}

fn marker_id_of(l: &Vec<char>) -> (r: Option<usize>)
    ensures
        r == marker_id(l@),
{
    proof {
        reveal_strlit("MARK:[[");
        reveal_strlit("]]");
    }
    let t = trim_chars(l);
    let a = remove_all(&t, &chars_of("MARK:[["));
    let b = remove_all(&a, &chars_of("]]"));
    parse_usize_chars(&b)
}

fn corner_from(l: &Vec<char>) -> (r: Option<(i32, i32)>)
    ensures
        r == corner_of(l@),
{
    proof {
        reveal_strlit("CORN:");
        reveal_strlit("[");
        reveal_strlit("]");
    }
    let t = trim_chars(l);
    let a = remove_all(&t, &chars_of("CORN:"));
    let b = remove_all(&a, &chars_of("["));
    let c = remove_all(&b, &chars_of("]"));
    let parts = split_fields(&c, '.');
    if parts.len() < 2 {
        return None;
    }
    assert(parts@[0]@ == fields(c@, '.')[0]);
    assert(parts@[1]@ == fields(c@, '.')[1]);
    let x = parse_i32_chars(&trim_chars(&parts[0]));
    let y = parse_i32_chars(&trim_chars(&parts[1]));
    match (x, y) {
        (Some(x), Some(y)) => Some((x, y)),
        _ => None,
    }
}

/// Reads the markers from the detection script's output `out`, split into lines at
/// every `\n`: the second line gives their number, and each marker takes five lines from
/// the third line on, its id and then its four corners. Gives every marker in order when
/// there is at least one and all of them read; `NoIds` when the number is 0; `Malformed`
/// when the number does not read or a marker does not.
pub fn parse_aruco_output(out: &Vec<char>) -> (r: Result<Vec<(usize, [(i32, i32); 4])>, ArucoError>)
    ensures
        ({
            let ls = fields(out@, '\n');
            match r {
                Ok(v) => id_count(ls) == Some(v@.len() as usize) && v@.len() > 0 && forall|m: int|
                    0 <= m < v@.len() ==> marker_is(ls, m, #[trigger] v@[m]),
                Err(e) => (e == ArucoError::NoIds && id_count(ls) == Some(0usize)) || (e == ArucoError::Malformed && (
                id_count(ls) is None || exists|m: int|
                    0 <= m < id_count(ls).unwrap() && !#[trigger] marker_ok(ls, m))),
            }
        }),
{
    proof {
        reveal_strlit("ID_COUNT:");
    }
    let ls = split_fields(out, '\n');
    let ghost sl = fields(out@, '\n');
    assert(views(ls@) == sl);
    if ls.len() < 2 {
        return Err(ArucoError::Malformed);
    }
    assert(ls@[1]@ == sl[1]);
    let count_line = remove_all(&trim_chars(&ls[1]), &chars_of("ID_COUNT:"));
    let n = match parse_usize_chars(&count_line) {
        Some(n) => n,
        None => {
            return Err(ArucoError::Malformed);
        },
    };
    if n == 0 {
        return Err(ArucoError::NoIds);
    }
    let mut markers: Vec<(usize, [(i32, i32); 4])> = Vec::new();
    let mut i: usize = 0;
    let mut start: usize = 2;
    while i < n
        invariant
            views(ls@) == sl,
            sl == fields(out@, '\n'),
            id_count(sl) == Some(n),
            n > 0,
            i <= n,
            start == marker_line(i as int),
            start <= ls.len(),
            markers@.len() == i,
            forall|m: int| 0 <= m < i ==> marker_is(sl, m, #[trigger] markers@[m]),
        decreases n - i,
    {
        if ls.len() - start <= 4 {
            assert(!marker_ok(sl, i as int));
            return Err(ArucoError::Malformed);
        }
        assert(ls@[start as int]@ == sl[start as int]);
        let id = match marker_id_of(&ls[start]) {
            Some(id) => id,
            None => {
                assert(!marker_ok(sl, i as int));
                return Err(ArucoError::Malformed);
            },
        };
        let mut corners: [(i32, i32); 4] = [(0, 0), (0, 0), (0, 0), (0, 0)];
        let mut j: usize = 1;
        while j <= 4
            invariant
                views(ls@) == sl,
                sl == fields(out@, '\n'),
                id_count(sl) == Some(n),
                i < n,
                markers@.len() == i,
                forall|m: int| 0 <= m < i ==> marker_is(sl, m, #[trigger] markers@[m]),
                marker_id(sl[start as int]) == Some(id),
                start == marker_line(i as int),
                start + 4 < ls.len(),
                1 <= j <= 5,
                forall|q: int| 1 <= q < j ==> corner_of(sl[start + q]) == Some(#[trigger] corners@[q - 1]),
            decreases 5 - j,
        {
            assert(ls@[start + j]@ == sl[start + j]);
            match corner_from(&ls[start + j]) {
                Some(c) => {
                    corners[j - 1] = c;
                },
                None => {
                    proof {
                        assert(corner_of(sl[marker_line(i as int) + j as int]) is None);
                        assert(!marker_ok(sl, i as int));
                    }
                    return Err(ArucoError::Malformed);
                },
            }
            j = j + 1;
        }
        proof {
            assert forall|q: int| 1 <= q <= 4 implies (#[trigger] corner_of(sl[marker_line(i as int) + q])) is Some by {
                assert(corner_of(sl[start + q]) == Some(corners@[q - 1]));
            }
        }
        proof {
            assert forall|q: int| 0 <= q < 4 implies corner_of(sl[marker_line(i as int) + 1 + q]) == Some(corners@[q]) by {
                assert(corner_of(sl[start + (q + 1)]) == Some(corners@[q + 1 - 1]));
            }
            assert(marker_is(sl, i as int, (id, corners)));
        }
        let ghost before = markers@;
        markers.push((id, corners));
        proof {
            assert forall|m: int| 0 <= m < i + 1 implies marker_is(sl, m, #[trigger] markers@[m]) by {
                if m < i {
                    assert(markers@[m] == before[m]);
                }
            }
        }
        i = i + 1;
        start = start + 5;
    }
    Ok(markers)
}

} // verus!

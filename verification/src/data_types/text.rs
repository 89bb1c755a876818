//! The line and field structure of the text formats that heightmaps and
//! point clouds are stored in. Text is handled as a sequence of `char`s.
use vstd::prelude::*;

verus! {

/// Unicode `White_Space`, the set of characters that `str::trim` removes.
pub open spec fn is_white_space(c: char) -> bool {
    let u = c as u32;
    (0x9 <= u && u <= 0xd) || u == 0x20 || u == 0x85 || u == 0xa0 || u == 0x1680 || (0x2000 <= u
        && u <= 0x200a) || u == 0x2028 || u == 0x2029 || u == 0x202f || u == 0x205f || u == 0x3000
}

/// Index of the first `c` in `s`, or the length of `s` when there is none.
pub open spec fn find(s: Seq<char>, c: char) -> int
    decreases s.len(),
{
    if s.len() == 0 {
        0
    } else if s[0] == c {
        0
    } else {
        1 + find(s.drop_first(), c)
    }
}

pub proof fn lemma_find_bounds(s: Seq<char>, c: char)
    ensures
        0 <= find(s, c) <= s.len(),
        find(s, c) < s.len() ==> s[find(s, c)] == c,
        forall|j: int| 0 <= j < find(s, c) ==> s[j] != c,
    decreases s.len(),
{
    if s.len() > 0 && s[0] != c {
        lemma_find_bounds(s.drop_first(), c);
        assert forall|j: int| 0 <= j < find(s, c) implies s[j] != c by {
            if j > 0 {
                assert(s[j] == s.drop_first()[j - 1]);
            }
        }
    }
}

/// `find` is the first position holding `c`.
pub proof fn lemma_find_is(s: Seq<char>, c: char, k: int)
    requires
        0 <= k <= s.len(),
        k < s.len() ==> s[k] == c,
        forall|j: int| 0 <= j < k ==> s[j] != c,
    ensures
        find(s, c) == k,
    decreases s.len(),
{
    if s.len() > 0 && k > 0 {
        assert(s[0] != c);
        assert forall|j: int| 0 <= j < k - 1 implies s.drop_first()[j] != c by {
            assert(s.drop_first()[j] == s[j + 1]);
        }
        lemma_find_is(s.drop_first(), c, k - 1);
    }
}

/// The pieces of `s` between occurrences of `sep`, as `str::split` yields them:
/// `n` separators give `n + 1` pieces, empty ones included.
pub open spec fn fields(s: Seq<char>, sep: char) -> Seq<Seq<char>>
    decreases s.len(),
{
    let k = find(s, sep);
    if k >= s.len() || k < 0 {
        seq![s]
    } else {
        seq![s.subrange(0, k)] + fields(s.subrange(k + 1, s.len() as int), sep)
    }
}

/// A line without its line ending: `\n` goes, and so does a `\r` just before it.
pub open spec fn line_body(s: Seq<char>, k: int) -> Seq<char> {
    let raw = s.subrange(0, k);
    if k < s.len() && raw.len() > 0 && raw.last() == '\r' {
        raw.drop_last()
    } else {
        raw
    }
}

/// The lines of `s`, as `BufRead::lines` yields them: split at `\n`, a `\r\n`
/// ending removed whole, and no empty line after a final `\n`.
pub open spec fn lines(s: Seq<char>) -> Seq<Seq<char>>
    decreases s.len(),
{
    if s.len() == 0 {
        Seq::empty()
    } else {
        let k = find(s, '\n');
        if k >= s.len() || k < 0 {
            seq![line_body(s, k)]
        } else {
            seq![line_body(s, k)] + lines(s.subrange(k + 1, s.len() as int))
        }
    }
}

/// Length of the first line of `s` with its `\n`, as `BufRead::read_line` reads it.
pub open spec fn first_line_len(s: Seq<char>) -> int {
    let k = find(s, '\n');
    if k < s.len() {
        k + 1
    } else {
        s.len() as int
    }
}

/// Number of white space characters at the start of `s`.
pub open spec fn leading_white(s: Seq<char>) -> int
    decreases s.len(),
{
    if s.len() > 0 && is_white_space(s[0]) {
        1 + leading_white(s.drop_first())
    } else {
        0
    }
}

/// Number of white space characters at the end of `s`.
pub open spec fn trailing_white(s: Seq<char>) -> int
    decreases s.len(),
{
    if s.len() > 0 && is_white_space(s.last()) {
        1 + trailing_white(s.drop_last())
    } else {
        0
    }
}

/// `s` without white space at either end, as `str::trim` returns it.
pub open spec fn trim(s: Seq<char>) -> Seq<char> {
    let a = leading_white(s);
    let t = s.subrange(a, s.len() as int);
    t.subrange(0, t.len() - trailing_white(t))
}

/// `s` without its last character, as `String::pop` leaves it.
pub open spec fn pop_last(s: Seq<char>) -> Seq<char> {
    if s.len() > 0 {
        s.drop_last()
    } else {
        s
    }
}

/// The contents of each vector of characters.
pub open spec fn views(v: Seq<Vec<char>>) -> Seq<Seq<char>> {
    Seq::new(v.len(), |i: int| v[i]@)
}

/// The characters of `v` from `a` to `b`, copied.
pub fn copy_range(v: &Vec<char>, a: usize, b: usize) -> (r: Vec<char>)
    requires
        a <= b <= v.len(),
    ensures
        r@ == v@.subrange(a as int, b as int),
{
    let mut r: Vec<char> = Vec::new();
    let mut i = a;
    while i < b
        invariant
            a <= i <= b <= v.len(),
            r@ == v@.subrange(a as int, i as int),
        decreases b - i,
    {
        r.push(v[i]);
        i = i + 1;
        assert(r@ =~= v@.subrange(a as int, i as int));
    }
    r
}

/// Position of the first `c` at or after `from`, or the length of `v`.
pub fn find_char(v: &Vec<char>, c: char, from: usize) -> (r: usize)
    requires
        from <= v.len(),
    ensures
        r as int == from + find(v@.subrange(from as int, v.len() as int), c),
        from <= r <= v.len(),
{
    let mut i = from;
    while i < v.len() && v[i] != c
        invariant
            from <= i <= v.len(),
            forall|j: int| from <= j < i ==> v@[j] != c,
        decreases v.len() - i,
    {
        i = i + 1;
    }
    proof {
        let s = v@.subrange(from as int, v.len() as int);
        assert forall|j: int| 0 <= j < i - from implies s[j] != c by {
            assert(s[j] == v@[from + j]);
        }
        lemma_find_is(s, c, i - from);
    }
    i
}

/// The pieces of `line` between occurrences of `sep` (see `fields`).
pub fn split_fields(line: &Vec<char>, sep: char) -> (r: Vec<Vec<char>>)
    ensures
        views(r@) == fields(line@, sep),
{
    let mut out: Vec<Vec<char>> = Vec::new();
    let mut pos: usize = 0;
    assert(line@.subrange(0, line.len() as int) =~= line@);
    assert(views(out@) + fields(line@, sep) =~= fields(line@, sep));
    loop
        invariant
            pos <= line.len(),
            views(out@) + fields(line@.subrange(pos as int, line.len() as int), sep) == fields(
                line@,
                sep,
            ),
        decreases line.len() - pos,
    {
        let ghost rest = line@.subrange(pos as int, line.len() as int);
        let k = find_char(line, sep, pos);
        let piece = copy_range(line, pos, k);
        let ghost old_out = views(out@);
        out.push(piece);
        assert(views(out@) =~= old_out.push(piece@));
        if k == line.len() {
            assert(piece@ =~= rest);
            assert(fields(rest, sep) == seq![rest]);
            assert(views(out@) =~= old_out + fields(rest, sep));
            assert(line@.subrange(0, line.len() as int) =~= line@);
            return out;
        }
        proof {
            lemma_find_bounds(rest, sep);
            assert(rest.subrange(0, k - pos) =~= piece@);
            assert(rest.subrange(k - pos + 1, rest.len() as int) =~= line@.subrange(
                k + 1,
                line.len() as int,
            ));
            assert(fields(rest, sep) == seq![piece@] + fields(
                line@.subrange(k + 1, line.len() as int),
                sep,
            ));
            assert(old_out + fields(rest, sep) =~= views(out@) + fields(
                line@.subrange(k + 1, line.len() as int),
                sep,
            ));
        }
        pos = k + 1;
    }
}

/// The lines of `text` from position `start` on (see `lines`).
pub fn split_lines(text: &Vec<char>, start: usize) -> (r: Vec<Vec<char>>)
    requires
        start <= text.len(),
    ensures
        views(r@) == lines(text@.subrange(start as int, text.len() as int)),
{
    let mut out: Vec<Vec<char>> = Vec::new();
    let mut pos: usize = start;
    assert(views(out@) + lines(text@.subrange(start as int, text.len() as int)) =~= lines(
        text@.subrange(start as int, text.len() as int),
    ));
    while pos < text.len()
        invariant
            start <= pos <= text.len(),
            views(out@) + lines(text@.subrange(pos as int, text.len() as int)) == lines(
                text@.subrange(start as int, text.len() as int),
            ),
        decreases text.len() - pos,
    {
        let ghost rest = text@.subrange(pos as int, text.len() as int);
        let k = find_char(text, '\n', pos);
        let mut body = copy_range(text, pos, k);
        if k < text.len() && body.len() > 0 && body[body.len() - 1] == '\r' {
            body.pop();
        }
        proof {
            lemma_find_bounds(rest, '\n');
            assert(rest.subrange(0, k - pos) =~= text@.subrange(pos as int, k as int));
            assert(body@ =~= line_body(rest, k - pos));
        }
        let ghost old_out = views(out@);
        out.push(body);
        assert(views(out@) =~= old_out.push(body@));
        if k == text.len() {
            assert(lines(rest) == seq![body@]);
            assert(text@.subrange(text.len() as int, text.len() as int) =~= Seq::<char>::empty());
            assert(views(out@) + lines(Seq::<char>::empty()) =~= old_out + lines(rest));
            pos = k;
        } else {
            proof {
                assert(rest.subrange(k - pos + 1, rest.len() as int) =~= text@.subrange(
                    k + 1,
                    text.len() as int,
                ));
                assert(lines(rest) == seq![body@] + lines(
                    text@.subrange(k + 1, text.len() as int),
                ));
                assert(old_out + lines(rest) =~= views(out@) + lines(
                    text@.subrange(k + 1, text.len() as int),
                ));
            }
            pos = k + 1;
        }
    }
    assert(text@.subrange(pos as int, text.len() as int) =~= Seq::<char>::empty());
    assert(views(out@) + Seq::<Seq<char>>::empty() =~= views(out@));
    out
}


/// The non-empty pieces among `ts`, in order.
pub open spec fn nonempty(ts: Seq<Seq<char>>) -> Seq<Seq<char>>
    decreases ts.len(),
{
    if ts.len() == 0 {
        Seq::empty()
    } else {
        (if ts[0].len() > 0 {
            seq![ts[0]]
        } else {
            Seq::empty()
        }) + nonempty(ts.drop_first())
    }
}

/// Whether `c` is Unicode white space (`char::is_whitespace`).
pub fn is_white_space_char(c: char) -> (r: bool)
    ensures
        r == is_white_space(c),
{
    let u = c as u32;
    (0x9 <= u && u <= 0xd) || u == 0x20 || u == 0x85 || u == 0xa0 || u == 0x1680 || (0x2000 <= u
        && u <= 0x200a) || u == 0x2028 || u == 0x2029 || u == 0x202f || u == 0x205f || u == 0x3000
}

proof fn lemma_leading_white_is(s: Seq<char>, a: int)
    requires
        0 <= a <= s.len(),
        forall|j: int| 0 <= j < a ==> is_white_space(s[j]),
        a < s.len() ==> !is_white_space(s[a]),
    ensures
        leading_white(s) == a,
    decreases s.len(),
{
    if a > 0 {
        assert forall|j: int| 0 <= j < a - 1 implies is_white_space(s.drop_first()[j]) by {
            assert(s.drop_first()[j] == s[j + 1]);
        }
        lemma_leading_white_is(s.drop_first(), a - 1);
    }
}

proof fn lemma_trailing_white_is(s: Seq<char>, b: int)
    requires
        0 <= b <= s.len(),
        forall|j: int| b <= j < s.len() ==> is_white_space(s[j]),
        b > 0 ==> !is_white_space(s[b - 1]),
    ensures
        trailing_white(s) == s.len() - b,
    decreases s.len(),
{
    if b < s.len() {
        assert forall|j: int| b <= j < s.len() - 1 implies is_white_space(s.drop_last()[j]) by {
            assert(s.drop_last()[j] == s[j]);
        }
        lemma_trailing_white_is(s.drop_last(), b);
    }
}

/// `s` without white space at either end (see `trim`).
pub fn trim_chars(s: &Vec<char>) -> (r: Vec<char>)
    ensures
        r@ == trim(s@),
{
    let mut a: usize = 0;
    while a < s.len() && is_white_space_char(s[a])
        invariant
            a <= s.len(),
            forall|j: int| 0 <= j < a ==> is_white_space(s@[j]),
        decreases s.len() - a,
    {
        a = a + 1;
    }
    let mut b: usize = s.len();
    while b > a && is_white_space_char(s[b - 1])
        invariant
            a <= b <= s.len(),
            forall|j: int| b <= j < s.len() ==> is_white_space(s@[j]),
        decreases b,
    {
        b = b - 1;
    }
    proof {
        lemma_leading_white_is(s@, a as int);
        let t = s@.subrange(a as int, s.len() as int);
        assert forall|j: int| b - a <= j < t.len() implies is_white_space(t[j]) by {
            assert(t[j] == s@[a + j]);
        }
        if b - a > 0 {
            assert(t[b - a - 1] == s@[b - 1]);
        }
        lemma_trailing_white_is(t, b - a);
        assert(t.subrange(0, b - a) =~= s@.subrange(a as int, b as int));
    }
    copy_range(s, a, b)
}

/// The non-empty pieces among `ts` (see `nonempty`).
pub fn keep_nonempty(ts: Vec<Vec<char>>) -> (r: Vec<Vec<char>>)
    ensures
        views(r@) == nonempty(views(ts@)),
{
    let mut out: Vec<Vec<char>> = Vec::new();
    let mut rest = ts;
    let ghost all = views(rest@);
    let mut i: usize = 0;
    let n = rest.len();
    assert(all.subrange(0, all.len() as int) =~= all);
    assert(views(out@) + nonempty(all) =~= nonempty(all));
    while i < n
        invariant
            n == all.len(),
            i <= n,
            views(rest@) == all,
            views(out@) + nonempty(all.subrange(i as int, n as int)) == nonempty(all),
        decreases n - i,
    {
        let ghost sub = all.subrange(i as int, n as int);
        assert(sub.drop_first() =~= all.subrange(i + 1, n as int));
        assert(sub[0] == rest@[i as int]@);
        let ghost old_out = views(out@);
        if rest[i].len() > 0 {
            let t = copy_all(&rest[i]);
            out.push(t);
            assert(views(out@) =~= old_out.push(sub[0]));
            assert(old_out + nonempty(sub) =~= views(out@) + nonempty(sub.drop_first()));
        } else {
            assert(old_out + nonempty(sub) =~= views(out@) + nonempty(sub.drop_first()));
        }
        i = i + 1;
    }
    assert(all.subrange(n as int, n as int) =~= Seq::<Seq<char>>::empty());
    assert(views(out@) + Seq::<Seq<char>>::empty() =~= views(out@));
    out
}

/// A copy of `v`.
pub fn copy_all(v: &Vec<char>) -> (r: Vec<char>)
    ensures
        r@ == v@,
{
    let r = copy_range(v, 0, v.len());
    assert(v@.subrange(0, v.len() as int) =~= v@);
    r
}


/// Whether `p` occurs in `s` at position `i`.
pub open spec fn occurs_at(s: Seq<char>, p: Seq<char>, i: int) -> bool {
    0 <= i && i + p.len() <= s.len() && s.subrange(i, i + p.len()) == p
}

/// Whether `p` occurs anywhere in `s` (`str::contains`).
pub open spec fn occurs(s: Seq<char>, p: Seq<char>) -> bool {
    exists|i: int| occurs_at(s, p, i)
}

/// Whether `p` occurs in `s` at position `i`.
pub fn matches_at(s: &Vec<char>, p: &Vec<char>, i: usize) -> (r: bool)
    ensures
        r == occurs_at(s@, p@, i as int),
{
    if p.len() > s.len() || i > s.len() - p.len() {
        return false;
    }
    let mut k: usize = 0;
    while k < p.len()
        invariant
            i + p.len() <= s.len(),
            k <= p.len(),
            forall|j: int| 0 <= j < k ==> s@[i + j] == p@[j],
        decreases p.len() - k,
    {
        if s[i + k] != p[k] {
            assert(s@.subrange(i as int, i + p.len())[k as int] != p@[k as int]);
            return false;
        }
        k = k + 1;
    }
    assert(s@.subrange(i as int, i + p.len()) =~= p@);
    true
}

/// Whether `s` starts with `p` (`str::starts_with`).
pub fn has_prefix(s: &Vec<char>, p: &Vec<char>) -> (r: bool)
    ensures
        r == occurs_at(s@, p@, 0),
{
    matches_at(s, p, 0)
}

/// Whether `p` occurs in `s` (`str::contains`).
pub fn has_infix(s: &Vec<char>, p: &Vec<char>) -> (r: bool)
    ensures
        r == occurs(s@, p@),
{
    if p.len() > s.len() {
        assert forall|i: int| !occurs_at(s@, p@, i) by {}
        return false;
    }
    let limit = s.len() - p.len();
    let mut i: usize = 0;
    while i < limit
        invariant
            limit == s.len() - p.len(),
            i <= limit,
            forall|j: int| 0 <= j < i ==> !occurs_at(s@, p@, j),
        decreases limit - i,
    {
        if matches_at(s, p, i) {
            return true;
        }
        i = i + 1;
    }
    if matches_at(s, p, limit) {
        return true;
    }
    assert forall|j: int| !occurs_at(s@, p@, j) by {}
    false
}

/// The characters of `s`.
pub fn chars_of(s: &str) -> (r: Vec<char>)
    ensures
        r@ == s@,
{
    let n = s.unicode_len();
    let mut r: Vec<char> = Vec::new();
    let mut i: usize = 0;
    while i < n
        invariant
            n == s@.len(),
            i <= n,
            r@ == s@.subrange(0, i as int),
        decreases n - i,
    {
        r.push(s.get_char(i));
        i = i + 1;
        assert(r@ =~= s@.subrange(0, i as int));
    }
    assert(s@.subrange(0, n as int) =~= s@);
    r
}


/// `s` with every occurrence of `p` taken out, the occurrences found from the left
/// without overlap, as `str::replace(p, "")` leaves it.
pub open spec fn removed(s: Seq<char>, p: Seq<char>) -> Seq<char>
    decreases s.len(),
{
    if s.len() == 0 || p.len() == 0 {
        s
    } else if occurs_at(s, p, 0) {
        removed(s.subrange(p.len() as int, s.len() as int), p)
    } else {
        seq![s[0]] + removed(s.drop_first(), p)
    }
}

/// `s` with every occurrence of `p` taken out (see `removed`).
pub fn remove_all(s: &Vec<char>, p: &Vec<char>) -> (r: Vec<char>)
    requires
        p.len() > 0,
    ensures
        r@ == removed(s@, p@),
{
    let mut out: Vec<char> = Vec::new();
    let mut i: usize = 0;
    assert(s@.subrange(0, s.len() as int) =~= s@);
    while i < s.len()
        invariant
            p.len() > 0,
            i <= s.len(),
            out@ + removed(s@.subrange(i as int, s.len() as int), p@) == removed(s@, p@),
        decreases s.len() - i,
    {
        let ghost rest = s@.subrange(i as int, s.len() as int);
        if matches_at(s, p, i) {
            assert(rest.subrange(0, p.len() as int) =~= s@.subrange(i as int, i + p.len()));
            assert(rest.subrange(p.len() as int, rest.len() as int) =~= s@.subrange(i + p.len(), s.len() as int));
            i = i + p.len();
        } else {
            assert(!occurs_at(rest, p@, 0)) by {
                if occurs_at(rest, p@, 0) {
                    assert(rest.subrange(0, p.len() as int) =~= s@.subrange(i as int, i + p.len()));
                }
            }
            assert(rest.drop_first() =~= s@.subrange(i + 1, s.len() as int));
            out.push(s[i]);
            assert(out@ + removed(s@.subrange(i + 1, s.len() as int), p@) =~= removed(s@, p@));
            i = i + 1;
        }
    }
    assert(removed(s@.subrange(i as int, s.len() as int), p@) =~= Seq::<char>::empty());
    assert(out@ =~= removed(s@, p@));
    out
}

/// Whether `c` is an ASCII digit.
pub open spec fn is_digit(c: char) -> bool {
    '0' <= c <= '9'
}

/// Whether `s` is one or more ASCII digits.
pub open spec fn all_digits(s: Seq<char>) -> bool {
    s.len() > 0 && forall|i: int| 0 <= i < s.len() ==> is_digit(#[trigger] s[i])
}

/// The number the decimal digits `s` write.
pub open spec fn digits_value(s: Seq<char>) -> int
    decreases s.len(),
{
    if s.len() == 0 {
        0
    } else {
        digits_value(s.drop_last()) * 10 + (s.last() as int - '0' as int)
    }
}

/// The `usize` that `s` writes, as `str::parse::<usize>` reads it: an optional `+` and
/// one or more digits, of a value that fits.
pub open spec fn parsed_usize(s: Seq<char>) -> Option<usize> {
    let body = if s.len() > 0 && s[0] == '+' { s.drop_first() } else { s };
    if all_digits(body) && digits_value(body) <= usize::MAX {
        Some(digits_value(body) as usize)
    } else {
        None
    }
}

/// The `i32` that `s` writes, as `str::parse::<i32>` reads it: an optional sign and one
/// or more digits, of a value that fits.
pub open spec fn parsed_i32(s: Seq<char>) -> Option<i32> {
    if s.len() > 0 && s[0] == '-' {
        let body = s.drop_first();
        if all_digits(body) && digits_value(body) <= 0x8000_0000 {
            Some((-digits_value(body)) as i32)
        } else {
            None
        }
    } else {
        let body = if s.len() > 0 && s[0] == '+' { s.drop_first() } else { s };
        if all_digits(body) && digits_value(body) <= i32::MAX {
            Some(digits_value(body) as i32)
        } else {
            None
        }
    }
}

proof fn lemma_digits_grow(s: Seq<char>, k: int)
    requires
        forall|i: int| 0 <= i < s.len() ==> is_digit(#[trigger] s[i]),
        0 <= k <= s.len(),
    ensures
        0 <= digits_value(s.subrange(0, k)) <= digits_value(s),
    decreases s.len(),
{
    if k == s.len() {
        assert(s.subrange(0, k) =~= s);
        if s.len() > 0 {
            let p = s.drop_last();
            assert forall|i: int| 0 <= i < p.len() implies is_digit(#[trigger] p[i]) by {
                assert(p[i] == s[i]);
            }
            lemma_digits_grow(p, p.len() as int);
            assert(is_digit(s[s.len() - 1]));
        }
    } else {
        let p = s.drop_last();
        assert forall|i: int| 0 <= i < p.len() implies is_digit(#[trigger] p[i]) by {
            assert(p[i] == s[i]);
        }
        lemma_digits_grow(p, k);
        assert(p.subrange(0, k) =~= s.subrange(0, k));
        assert(is_digit(s[s.len() - 1]));
    }
}

/// The value of the digits `s[from..]` when they are all digits, one or more, and the
/// value is at most `bound`; `None` otherwise.
fn digits_up_to(s: &Vec<char>, from: usize, bound: u64) -> (r: Option<u64>)
    requires
        from <= s.len(),
    ensures
        ({
            let b = s@.subrange(from as int, s.len() as int);
            match r {
                Some(v) => all_digits(b) && digits_value(b) <= bound && v == digits_value(b),
                None => !(all_digits(b) && digits_value(b) <= bound),
            }
        }),
{
    let ghost b = s@.subrange(from as int, s.len() as int);
    if from == s.len() {
        return None;
    }
    let mut acc: u128 = 0;
    let mut i: usize = from;
    while i < s.len()
        invariant
            from < s.len(),
            from <= i <= s.len(),
            b == s@.subrange(from as int, s.len() as int),
            forall|j: int| 0 <= j < i - from ==> is_digit(#[trigger] b[j]),
            acc == digits_value(b.subrange(0, i - from)),
            acc <= bound,
        decreases s.len() - i,
    {
        let c = s[i];
        assert(c == b[i - from]);
        if !('0' <= c && c <= '9') {
            assert(!all_digits(b)) by {
                assert(!is_digit(b[i - from]));
            }
            return None;
        }
        assert(b.subrange(0, i - from + 1).drop_last() =~= b.subrange(0, i - from));
        let d = (c as u32) - ('0' as u32);
        acc = acc * 10 + d as u128;
        i = i + 1;
        if acc > bound as u128 {
            proof {
                if all_digits(b) {
                    lemma_digits_grow(b, i - from);
                }
            }
            return None;
        }
    }
    assert(b.subrange(0, s.len() - from) =~= b);
    Some(acc as u64)
}

/// `s` read as a `usize` (see `parsed_usize`).
pub fn parse_usize_chars(s: &Vec<char>) -> (r: Option<usize>)
    ensures
        r == parsed_usize(s@),
{
    let from: usize = if s.len() > 0 && s[0] == '+' { 1 } else { 0 };
    assert(s@.subrange(from as int, s.len() as int) =~= if s@.len() > 0 && s@[0] == '+' {
        s@.drop_first()
    } else {
        s@
    });
    match digits_up_to(s, from, usize::MAX as u64) {
        Some(v) => Some(v as usize),
        None => None,
    }
}

/// `s` read as an `i32` (see `parsed_i32`).
pub fn parse_i32_chars(s: &Vec<char>) -> (r: Option<i32>)
    ensures
        r == parsed_i32(s@),
{
    if s.len() > 0 && s[0] == '-' {
        assert(s@.subrange(1, s.len() as int) =~= s@.drop_first());
        match digits_up_to(s, 1, 0x8000_0000) {
            Some(v) => Some((0 - (v as i64)) as i32),
            None => None,
        }
    } else {
        let from: usize = if s.len() > 0 && s[0] == '+' { 1 } else { 0 };
        assert(s@.subrange(from as int, s.len() as int) =~= if s@.len() > 0 && s@[0] == '+' {
            s@.drop_first()
        } else {
            s@
        });
        match digits_up_to(s, from, 0x7fff_ffff) {
            Some(v) => Some(v as i32),
            None => None,
        }
    }
}

} // verus!

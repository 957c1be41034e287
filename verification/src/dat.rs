//! The airfoil coordinate file (`.dat`) format.
//!
//! The first line names the airfoil. Of the lines that follow, blank lines and
//! lines whose first character is `#` or `!` are ignored; the rest are data lines.
//! A data line that holds exactly two numbers is a coordinate line. Two layouts exist:
//! Selig files list the closed contour directly; Lednicer files open with a count line
//! (two numbers greater than 2) and list the upper surface and then the lower surface,
//! each from the leading edge to the trailing edge.
//!
//! Parsing numbers is left to the caller: this module works on the text and on what
//! the caller found in each data line, and says which lines form the contour, in order.
use vstd::prelude::*;
use crate::text::{lemma_first_index_bound, is_ws, lemma_trim_clean, first_index, lemma_first_index, chars_of, line_ranges, lines, pieces, ranges_within, string_of, token_ranges, tokens, trim, trim_range};

verus! {

/// Why a coordinate file was refused.
#[derive(Debug, Clone, Copy, PartialEq, Eq, Structural)]
pub enum DatError {
    /// The file holds no line at all, so not even a name.
    EmptyFile,
    /// A Lednicer file in which no point after the first has x near 0, so the
    /// start of the lower surface cannot be found.
    NoLowerSurface,
    /// The contour has fewer points than the caller asked for.
    TooFewPoints,
}

/// The text of a coordinate file, cut into its name and its data lines.
pub struct DatText {
    /// The first line, trimmed.
    pub name: String,
    /// The data lines, trimmed, in file order.
    pub data: Vec<String>,
}

/// What the caller found in one data line.
#[derive(Debug, Clone, Copy, PartialEq, Eq, Structural)]
pub struct LineClass {
    /// The line holds exactly two numbers.
    pub is_pair: bool,
    /// The line holds two numbers and the first is below 1e-6.
    pub x_near_zero: bool,
    /// The line holds two numbers and both are greater than 2.
    pub exceeds_two: bool,
}

/// The contour that a coordinate file describes.
pub struct ContourPlan {
    /// The file is in Lednicer layout.
    pub lednicer: bool,
    /// Indices into the data lines, in contour order.
    pub order: Vec<usize>,
}

/// A trimmed line is a data line when it is not blank and not a comment.
pub open spec fn is_data_line(t: Seq<char>) -> bool {
    t.len() > 0 && t[0] != '#' && t[0] != '!'
}

pub open spec fn data_pred() -> spec_fn(Seq<char>) -> bool {
    |t: Seq<char>| is_data_line(t)
}

pub open spec fn trim_fn() -> spec_fn(Seq<char>) -> Seq<char> {
    |l: Seq<char>| trim(l)
}

/// The data lines among the lines `ls[1..k]`, trimmed.
pub open spec fn data_lines_upto(ls: Seq<Seq<char>>, k: int) -> Seq<Seq<char>> {
    ls.subrange(1, k).map_values(trim_fn()).filter(data_pred())
}

/// The data lines of a file whose lines are `ls`: every line after the first, trimmed,
/// that is neither blank nor a comment.
pub open spec fn data_lines(ls: Seq<Seq<char>>) -> Seq<Seq<char>> {
    data_lines_upto(ls, ls.len() as int)
}

/// Cuts the text of a coordinate file into its name and data lines.
/// Fails with `EmptyFile` exactly when the text has no line.
pub fn split_dat(raw: &str) -> (r: Result<DatText, DatError>)
    ensures
        r is Err <==> lines(raw@).len() == 0,
        match r {
            Ok(t) => {
                &&& t.name@ == trim(lines(raw@)[0])
                &&& t.data.len() == data_lines(lines(raw@)).len()
                &&& forall|i: int|
                    0 <= i < t.data.len() ==> #[trigger] t.data[i]@ == data_lines(lines(raw@))[i]
            },
            Err(e) => e == DatError::EmptyFile,
        },
{
    let v = chars_of(raw);
    let rs = line_ranges(&v);
    let ghost ls = lines(v@);
    if rs.len() == 0 {
        return Err(DatError::EmptyFile);
    }
    assert(ls[0] == v@.subrange(rs@[0].0 as int, rs@[0].1 as int));
    let (a, b) = trim_range(&v, rs[0].0, rs[0].1);
    let name = string_of(&v, a, b);
    let mut data: Vec<String> = Vec::new();
    let n = rs.len();
    let mut j: usize = 1;
    assert(data_lines_upto(ls, 1) =~= Seq::<Seq<char>>::empty()) by {
        reveal_with_fuel(Seq::filter, 1);
        assert(ls.subrange(1, 1).map_values(trim_fn()) =~= Seq::<Seq<char>>::empty());
    }
    while j < n
        invariant
            n == rs.len() == ls.len(),
            1 <= j <= n,
            ranges_within(rs@, v@.len() as int),
            pieces(v@, rs@) == ls,
            data.len() == data_lines_upto(ls, j as int).len(),
            forall|i: int|
                0 <= i < data.len() ==> #[trigger] data[i]@ == data_lines_upto(ls, j as int)[i],
        decreases n - j,
    {
        assert(ls[j as int] == v@.subrange(rs@[j as int].0 as int, rs@[j as int].1 as int));
        assert(rs@[j as int].0 <= rs@[j as int].1 <= v@.len());
        let (lo, hi) = trim_range(&v, rs[j].0, rs[j].1);
        let ghost t = trim(ls[j as int]);
        proof {
            let m = ls.subrange(1, j as int).map_values(trim_fn());
            assert(ls.subrange(1, j + 1).map_values(trim_fn()) =~= m.push(t));
            m.lemma_filter_push(t, data_pred());
        }
        let ghost old_data = data@;
        if hi > lo && v[lo] != '#' && v[lo] != '!' {
            let s = string_of(&v, lo, hi);
            data.push(s);
            proof {
                assert forall|i: int|
                    0 <= i < data.len() implies #[trigger] data[i]@ == data_lines_upto(
                    ls,
                    j + 1,
                )[i] by {
                    if i < old_data.len() {
                        assert(data[i] == old_data[i]);
                    }
                }
            }
        }
        j = j + 1;
    }
    assert(ls.subrange(1, n as int) =~= ls.subrange(1, ls.len() as int));
    Ok(DatText { name, data })
}

/// Splits a data line into its two numbers' texts, when it has exactly two tokens.
pub fn coord_tokens(line: &str) -> (r: Option<(String, String)>)
    ensures
        match r {
            Some((x, y)) => {
                &&& tokens(line@).len() == 2
                &&& x@ == tokens(line@)[0]
                &&& y@ == tokens(line@)[1]
            },
            None => tokens(line@).len() != 2,
        },
{
    let v = chars_of(line);
    let ts = token_ranges(&v);
    if ts.len() == 2 {
        assert(tokens(v@)[0] == v@.subrange(ts@[0].0 as int, ts@[0].1 as int));
        assert(tokens(v@)[1] == v@.subrange(ts@[1].0 as int, ts@[1].1 as int));
        assert(ts@[0].0 <= ts@[0].1 <= v@.len());
        assert(ts@[1].0 <= ts@[1].1 <= v@.len());
        let x = string_of(&v, ts[0].0, ts[0].1);
        let y = string_of(&v, ts[1].0, ts[1].1);
        Some((x, y))
    } else {
        None
    }
}

/// Every data line is neither blank nor a comment and has no white space at either end,
/// and neither has the name.
pub proof fn lemma_data_lines_clean(ls: Seq<Seq<char>>)
    requires
        ls.len() > 0,
    ensures
        forall|i: int|
            0 <= i < data_lines(ls).len() ==> {
                let t = #[trigger] data_lines(ls)[i];
                &&& is_data_line(t)
                &&& !is_ws(t[0])
                &&& !is_ws(t.last())
            },
        trim(ls[0]).len() > 0 ==> !is_ws(trim(ls[0])[0]) && !is_ws(trim(ls[0]).last()),
{
    lemma_trim_clean(ls[0]);
    let m = ls.subrange(1, ls.len() as int).map_values(trim_fn());
    assert forall|i: int| 0 <= i < data_lines(ls).len() implies {
        let t = #[trigger] data_lines(ls)[i];
        &&& is_data_line(t)
        &&& !is_ws(t[0])
        &&& !is_ws(t.last())
    } by {
        let t = data_lines(ls)[i];
        m.lemma_filter_pred(data_pred(), i);
        assert(m.filter(data_pred()).contains(t));
        m.lemma_filter_contains_rev(data_pred(), t);
        let j = choose|j: int| 0 <= j < m.len() && m[j] == t;
        lemma_trim_clean(ls.subrange(1, ls.len() as int)[j]);
    }
}

/// `t` is some line after the first, trimmed.
pub open spec fn is_trimmed_later_line(ls: Seq<Seq<char>>, t: Seq<char>) -> bool {
    exists|j: int| 1 <= j < ls.len() && t == trim(ls[j])
}

/// A line after the first gives a data line exactly when, trimmed, it is not empty and
/// starts with neither `#` nor `!`; and every data line is such a trimmed line.
pub proof fn lemma_data_lines_kept(ls: Seq<Seq<char>>)
    requires
        ls.len() > 0,
    ensures
        forall|j: int|
            1 <= j < ls.len() ==> (data_lines(ls).contains(#[trigger] trim(ls[j])) <==> (trim(
                ls[j],
            ).len() > 0 && trim(ls[j])[0] != '#' && trim(ls[j])[0] != '!')),
        forall|i: int|
            0 <= i < data_lines(ls).len() ==> is_trimmed_later_line(ls, #[trigger] data_lines(ls)[i]),
{
    lemma_data_lines_clean(ls);
    let m = ls.subrange(1, ls.len() as int).map_values(trim_fn());
    assert(data_lines(ls) == m.filter(data_pred()));
    assert forall|j: int|
        1 <= j < ls.len() implies (data_lines(ls).contains(#[trigger] trim(ls[j])) <==> (trim(
        ls[j],
    ).len() > 0 && trim(ls[j])[0] != '#' && trim(ls[j])[0] != '!')) by {
        let t = trim(ls[j]);
        assert(m[j - 1] == t);
        if is_data_line(t) {
            m.lemma_filter_contains(data_pred(), j - 1);
        }
        if data_lines(ls).contains(t) {
            let i = choose|i: int| 0 <= i < data_lines(ls).len() && data_lines(ls)[i] == t;
            assert(is_data_line(data_lines(ls)[i]));
        }
    }
    assert forall|i: int|
        0 <= i < data_lines(ls).len() implies is_trimmed_later_line(
        ls,
        #[trigger] data_lines(ls)[i],
    ) by {
        let t = data_lines(ls)[i];
        assert(m.filter(data_pred()).contains(t));
        m.lemma_filter_contains_rev(data_pred(), t);
        let q = choose|q: int| 0 <= q < m.len() && m[q] == t;
        assert(ls.subrange(1, ls.len() as int)[q] == ls[q + 1]);
        assert(t == trim(ls[q + 1]));
        assert(1 <= q + 1 < ls.len() && data_lines(ls)[i] == trim(ls[q + 1]));
    }
}

/// A file is in Lednicer layout when its first data line holds two numbers,
/// both greater than 2 (the two point counts).
pub open spec fn is_lednicer(ls: Seq<LineClass>) -> bool {
    ls.len() > 0 && ls[0].is_pair && ls[0].exceeds_two
}

/// The indices `k` with `from <= k < upto` of the lines that hold a coordinate pair.
pub open spec fn coord_lines_upto(ls: Seq<LineClass>, from: int, upto: int) -> Seq<int> {
    Seq::new((upto - from) as nat, |i: int| from + i).filter(pair_pred(ls))
}

/// The indices of the coordinate lines from `from` on, in file order.
pub open spec fn coord_lines(ls: Seq<LineClass>, from: int) -> Seq<int> {
    coord_lines_upto(ls, from, ls.len() as int)
}

/// Position, within the points `pts` of a Lednicer file, of the first point after
/// the first whose x is near 0: the start of the lower surface (`pts.len()` if none).
pub open spec fn lower_start(ls: Seq<LineClass>, pts: Seq<int>) -> int {
    1 + first_index(pts.skip(1), near_zero_pred(ls)) as int
}

/// "The data line `k` holds a coordinate pair", as a predicate on indices.
pub open spec fn pair_pred(ls: Seq<LineClass>) -> spec_fn(int) -> bool {
    |k: int| ls[k].is_pair
}

/// "The data line `k` holds a point whose x is near 0", as a predicate on indices.
pub open spec fn near_zero_pred(ls: Seq<LineClass>) -> spec_fn(int) -> bool {
    |k: int| ls[k].x_near_zero
}

/// The contour of a file whose data lines are described by `ls`, as indices of data
/// lines; `None` when it is a Lednicer file whose lower surface cannot be found.
/// Selig: the coordinate lines in file order. Lednicer: the upper surface reversed
/// (trailing edge to leading edge), then the lower surface without its first point,
/// which repeats the leading edge.
pub open spec fn contour(ls: Seq<LineClass>) -> Option<Seq<int>> {
    if is_lednicer(ls) {
        let pts = coord_lines(ls, 1);
        let s = lower_start(ls, pts);
        if pts.len() == 0 || s >= pts.len() {
            None
        } else {
            Some(pts.take(s).reverse() + pts.skip(s + 1))
        }
    } else {
        Some(coord_lines(ls, 0))
    }
}

/// Builds the contour of a coordinate file from what was found in its data lines,
/// and refuses it when it has fewer than `min_points` points.
pub fn plan_contour(ls: &Vec<LineClass>, min_points: usize) -> (r: Result<ContourPlan, DatError>)
    ensures
        match contour(ls@) {
            None => r == Err::<ContourPlan, DatError>(DatError::NoLowerSurface),
            Some(c) => if c.len() < min_points {
                r == Err::<ContourPlan, DatError>(DatError::TooFewPoints)
            } else {
                r matches Ok(p) && {
                    &&& p.lednicer == is_lednicer(ls@)
                    &&& p.order.len() == c.len()
                    &&& forall|i: int| 0 <= i < c.len() ==> #[trigger] p.order@[i] as int == c[i]
                }
            },
        },
{
    let n = ls.len();
    let lednicer = n > 0 && ls[0].is_pair && ls[0].exceeds_two;
    let from: usize = if lednicer { 1 } else { 0 };
    let mut pts: Vec<usize> = Vec::new();
    let mut k: usize = from;
    assert(coord_lines_upto(ls@, from as int, from as int) =~= Seq::<int>::empty()) by {
        reveal_with_fuel(Seq::filter, 1);
        assert(Seq::new(0nat, |i: int| from + i) =~= Seq::<int>::empty());
    }
    while k < n
        invariant
            n == ls.len(),
            from <= k <= n,
            pts.len() == coord_lines_upto(ls@, from as int, k as int).len(),
            forall|i: int| 0 <= i < pts.len() ==> #[trigger] pts@[i] < k,
            forall|i: int|
                0 <= i < pts.len() ==> #[trigger] pts@[i] as int == coord_lines_upto(
                    ls@,
                    from as int,
                    k as int,
                )[i],
        decreases n - k,
    {
        proof {
            let r = Seq::new((k - from) as nat, |i: int| from + i);
            assert(Seq::new((k + 1 - from) as nat, |i: int| from + i) =~= r.push(k as int));
            r.lemma_filter_push(k as int, pair_pred(ls@));
        }
        let ghost old_pts = pts@;
        if ls[k].is_pair {
            pts.push(k);
            proof {
                assert forall|i: int| 0 <= i < pts.len() implies #[trigger] pts@[i] as int
                    == coord_lines_upto(ls@, from as int, k + 1)[i] by {
                    if i < old_pts.len() {
                        assert(pts@[i] == old_pts[i]);
                    }
                }
            }
        }
        k = k + 1;
    }
    let ghost all = coord_lines(ls@, from as int);
    assert(pts@.len() == all.len());
    let mut order: Vec<usize> = Vec::new();
    if lednicer {
        let m = pts.len();
        if m == 0 {
            return Err(DatError::NoLowerSurface);
        }
        let mut j: usize = 1;
        while j < m && !ls[pts[j]].x_near_zero
            invariant
                1 <= j <= m == pts.len() == all.len(),
                n == ls.len(),
                forall|i: int| 0 <= i < m ==> #[trigger] pts@[i] as int == all[i],
                forall|i: int| 0 <= i < m ==> 0 <= #[trigger] pts@[i] < n,
                forall|i: int| 1 <= i < j ==> !ls@[#[trigger] pts@[i] as int].x_near_zero,
            decreases m - j,
        {
            j = j + 1;
        }
        proof {
            let q = all.skip(1);
            let p = near_zero_pred(ls@);
            assert forall|i: int| 0 <= i < j - 1 implies !p(#[trigger] q[i]) by {
                assert(q[i] == all[i + 1]);
                assert(pts@[i + 1] as int == all[i + 1]);
            }
            if j < m {
                assert(q[j - 1] == all[j as int]);
                assert(pts@[j as int] as int == all[j as int]);
            }
            lemma_first_index(q, p, j - 1);
        }
        if j == m {
            return Err(DatError::NoLowerSurface);
        }
        let mut q: usize = 0;
        while q < j
            invariant
                1 <= j < m == pts.len() == all.len(),
                q <= j,
                forall|i: int| 0 <= i < m ==> #[trigger] pts@[i] as int == all[i],
                order.len() == q,
                forall|i: int| 0 <= i < q ==> #[trigger] order@[i] as int == all[j - 1 - i],
            decreases j - q,
        {
            order.push(pts[j - 1 - q]);
            q = q + 1;
        }
        let mut q: usize = j + 1;
        while q < m
            invariant
                1 <= j < m == pts.len() == all.len(),
                j + 1 <= q <= m,
                forall|i: int| 0 <= i < m ==> #[trigger] pts@[i] as int == all[i],
                order.len() == q - 1,
                forall|i: int| 0 <= i < j ==> #[trigger] order@[i] as int == all[j - 1 - i],
                forall|i: int| j <= i < q - 1 ==> #[trigger] order@[i] as int == all[i + 1],
            decreases m - q,
        {
            order.push(pts[q]);
            q = q + 1;
        }
        proof {
            let c = all.take(j as int).reverse() + all.skip(j + 1);
            assert(contour(ls@) == Some(c));
            assert forall|i: int| 0 <= i < c.len() implies #[trigger] order@[i] as int == c[i] by {
                if i < j {
                    assert(all.take(j as int).reverse()[i] == all[j - 1 - i]);
                } else {
                    assert(c[i] == all.skip(j + 1)[i - j]);
                }
            }
        }
    } else {
        order = pts;
    }
    if order.len() < min_points {
        return Err(DatError::TooFewPoints);
    }
    Ok(ContourPlan { lednicer, order })
}

/// The coordinate lines between `from` and `upto` come in file order, each once,
/// and are exactly the lines there that hold a pair.
pub proof fn lemma_coord_lines(ls: Seq<LineClass>, from: int, upto: int)
    requires
        0 <= from <= upto <= ls.len(),
    ensures
        forall|i: int|
            0 <= i < coord_lines_upto(ls, from, upto).len() ==> {
                &&& from <= #[trigger] coord_lines_upto(ls, from, upto)[i] < upto
                &&& ls[coord_lines_upto(ls, from, upto)[i]].is_pair
            },
        forall|i: int, j: int|
            0 <= i < j < coord_lines_upto(ls, from, upto).len() ==> #[trigger] coord_lines_upto(
                ls,
                from,
                upto,
            )[i] < #[trigger] coord_lines_upto(ls, from, upto)[j],
        forall|k: int|
            from <= k < upto && #[trigger] ls[k].is_pair ==> coord_lines_upto(
                ls,
                from,
                upto,
            ).contains(k),
    decreases upto - from,
{
    let cl = coord_lines_upto(ls, from, upto);
    if upto == from {
        assert(Seq::new(0nat, |i: int| from + i) =~= Seq::<int>::empty());
        assert(cl =~= Seq::<int>::empty()) by {
            reveal_with_fuel(Seq::filter, 1);
        }
    } else {
        lemma_coord_lines(ls, from, upto - 1);
        let prev = coord_lines_upto(ls, from, upto - 1);
        let r = Seq::new((upto - 1 - from) as nat, |i: int| from + i);
        assert(Seq::new((upto - from) as nat, |i: int| from + i) =~= r.push(upto - 1));
        r.lemma_filter_push(upto - 1, pair_pred(ls));
        if ls[upto - 1].is_pair {
            assert(cl == prev.push(upto - 1));
            assert forall|k: int| from <= k < upto && #[trigger] ls[k].is_pair implies cl.contains(
                k,
            ) by {
                if k < upto - 1 {
                    let i = choose|i: int| 0 <= i < prev.len() && prev[i] == k;
                    assert(cl[i] == k);
                } else {
                    assert(cl[cl.len() - 1] == k);
                }
            }
        } else {
            assert(cl == prev);
        }
    }
}

/// Every point of a contour comes from a coordinate line of the file, no line gives two
/// points, and in a Lednicer file the count line gives none and every other coordinate
/// line does, but for the second listing of the leading edge.
/// In a Selig file every coordinate line gives a point, in file order.
pub proof fn lemma_contour_lines(ls: Seq<LineClass>)
    ensures
        contour(ls) matches Some(c) ==> {
            &&& forall|i: int|
                0 <= i < c.len() ==> 0 <= #[trigger] c[i] < ls.len() && ls[c[i]].is_pair
            &&& forall|i: int, j: int| 0 <= i < j < c.len() ==> #[trigger] c[i] != #[trigger] c[j]
            &&& is_lednicer(ls) ==> {
                let pts = coord_lines(ls, 1);
                &&& c.len() == pts.len() - 1
                &&& forall|i: int| 0 <= i < c.len() ==> #[trigger] c[i] != 0
                &&& forall|k: int|
                    1 <= k < ls.len() && #[trigger] ls[k].is_pair && k != pts[lower_start(ls, pts)]
                        ==> c.contains(k)
            }
            &&& !is_lednicer(ls) ==> {
                &&& forall|i: int, j: int| 0 <= i < j < c.len() ==> #[trigger] c[i] < #[trigger] c[j]
                &&& forall|k: int| 0 <= k < ls.len() && #[trigger] ls[k].is_pair ==> c.contains(k)
            }
        },
{
    if is_lednicer(ls) {
        let pts = coord_lines(ls, 1);
        lemma_coord_lines(ls, 1, ls.len() as int);
        let s = lower_start(ls, pts);
        if pts.len() > 0 && s < pts.len() {
            let c = pts.take(s).reverse() + pts.skip(s + 1);
            assert(s >= 1);
            assert forall|i: int| 0 <= i < c.len() implies #[trigger] c[i] == (if i < s {
                pts[s - 1 - i]
            } else {
                pts[i + 1]
            }) by {
                if i < s {
                    assert(pts.take(s).reverse()[i] == pts[s - 1 - i]);
                } else {
                    assert(c[i] == pts.skip(s + 1)[i - s]);
                }
            }
            assert forall|i: int, j: int| 0 <= i < j < c.len() implies #[trigger] c[i]
                != #[trigger] c[j] by {
                let pi = if i < s {
                    s - 1 - i
                } else {
                    i + 1
                };
                let pj = if j < s {
                    s - 1 - j
                } else {
                    j + 1
                };
                assert(c[i] == pts[pi]);
                assert(c[j] == pts[pj]);
                if pi < pj {
                    assert(pts[pi] < pts[pj]);
                } else {
                    assert(pts[pj] < pts[pi]);
                }
            }
            assert forall|i: int| 0 <= i < c.len() implies 0 <= #[trigger] c[i] < ls.len()
                && ls[c[i]].is_pair && c[i] != 0 by {
                let pi = if i < s {
                    s - 1 - i
                } else {
                    i + 1
                };
                assert(c[i] == pts[pi]);
            }
            assert forall|k: int|
                1 <= k < ls.len() && #[trigger] ls[k].is_pair && k != pts[s] implies c.contains(
                k,
            ) by {
                let p = choose|p: int| 0 <= p < pts.len() && pts[p] == k;
                if p < s {
                    assert(c[s - 1 - p] == k);
                } else {
                    assert(p != s);
                    assert(c[p - 1] == k);
                }
            }
        }
    } else {
        lemma_coord_lines(ls, 0, ls.len() as int);
    }
}

/// In a Lednicer file the contour runs from the trailing edge along the upper surface
/// to the leading edge and back along the lower surface. With `pts` the coordinate
/// lines after the count line and `s` the first of them, after the first, whose x is
/// near 0 (the start of the lower surface):
/// - the first `s` contour points are the upper-surface lines in reverse file order,
///   ending at the first coordinate line (the leading edge);
/// - the remaining points are the lower-surface lines after its first (the repeated
///   leading edge), in file order;
/// - so the contour's line indices fall strictly along the upper surface, rise strictly
///   along the lower surface, and every upper line comes before every lower line in
///   the file.
pub proof fn lemma_lednicer_contour_order(ls: Seq<LineClass>)
    requires
        is_lednicer(ls),
        contour(ls) is Some,
    ensures
        ({
            let c = contour(ls)->0;
            let pts = coord_lines(ls, 1);
            let s = lower_start(ls, pts);
            &&& 1 <= s < pts.len()
            &&& ls[pts[s]].x_near_zero
            &&& forall|i: int| 1 <= i < s ==> !ls[#[trigger] pts[i]].x_near_zero
            &&& c.len() == pts.len() - 1
            &&& c[s - 1] == pts[0]
            &&& forall|i: int| 0 <= i < s ==> #[trigger] c[i] == pts[s - 1 - i]
            &&& forall|i: int| s <= i < c.len() ==> #[trigger] c[i] == pts[i + 1]
            &&& forall|i: int, j: int| 0 <= i < j < s ==> #[trigger] c[i] > #[trigger] c[j]
            &&& forall|i: int, j: int|
                s <= i < j < c.len() ==> #[trigger] c[i] < #[trigger] c[j]
            &&& forall|i: int, j: int|
                0 <= i < s <= j < c.len() ==> #[trigger] c[i] < #[trigger] c[j]
        }),
{
    let c = contour(ls)->0;
    let pts = coord_lines(ls, 1);
    let s = lower_start(ls, pts);
    lemma_coord_lines(ls, 1, ls.len() as int);
    let q = pts.skip(1);
    lemma_first_index_bound(q, near_zero_pred(ls));
    assert(c == pts.take(s).reverse() + pts.skip(s + 1));
    assert(s - 1 < q.len());
    assert(q[s - 1] == pts[s]);
    assert forall|i: int| 1 <= i < s implies !ls[#[trigger] pts[i]].x_near_zero by {
        assert(q[i - 1] == pts[i]);
        assert(!near_zero_pred(ls)(q[i - 1]));
    }
    assert forall|i: int| 0 <= i < s implies #[trigger] c[i] == pts[s - 1 - i] by {
        assert(pts.take(s).reverse()[i] == pts[s - 1 - i]);
    }
    assert forall|i: int| s <= i < c.len() implies #[trigger] c[i] == pts[i + 1] by {
        assert(c[i] == pts.skip(s + 1)[i - s]);
    }
    assert forall|i: int, j: int| 0 <= i < j < s implies #[trigger] c[i] > #[trigger] c[j] by {
        assert(c[i] == pts[s - 1 - i]);
        assert(c[j] == pts[s - 1 - j]);
    }
    assert forall|i: int, j: int| s <= i < j < c.len() implies #[trigger] c[i] < #[trigger] c[j] by {
        assert(c[i] == pts[i + 1]);
        assert(c[j] == pts[j + 1]);
    }
    assert forall|i: int, j: int| 0 <= i < s <= j < c.len() implies #[trigger] c[i]
        < #[trigger] c[j] by {
        assert(c[i] == pts[s - 1 - i]);
        assert(c[j] == pts[j + 1]);
    }
    assert(c[s - 1] == pts[0]);
}

} // verus!

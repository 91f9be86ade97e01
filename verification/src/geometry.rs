//! The spacing of grid lines, which lines lie within a radius of which, and search
//! windows.
use vstd::prelude::*;

use crate::board::{CellIdx, Cost, Dims};

verus! {

/// For each grid line of each axis, the lines within some radius of it.
///
/// Grid lines need not be evenly spaced, so a radius is not a number of cells. A
/// radius of zero reaches no line at all.
#[derive(Clone, Debug, PartialEq, Eq)]
pub struct Reach {
    /// The columns within the radius of each column.
    pub x: Vec<Vec<u32>>,
    /// The rows within the radius of each row.
    pub y: Vec<Vec<u32>>,
}

/// A [`Reach`] as plain values.
#[verifier::ext_equal]
pub struct ReachView {
    /// The columns within the radius of each column.
    pub x: Seq<Seq<u32>>,
    /// The rows within the radius of each row.
    pub y: Seq<Seq<u32>>,
}

/// Lists of lines as plain values.
pub open spec fn lines_view(v: Seq<Vec<u32>>) -> Seq<Seq<u32>> {
    Seq::new(v.len(), |i: int| v[i]@)
}

impl View for Reach {
    type V = ReachView;

    open spec fn view(&self) -> ReachView {
        ReachView { x: lines_view(self.x@), y: lines_view(self.y@) }
    }
}

/// Line `j` is within the radius of line `i`.
pub open spec fn near(lines: Seq<Seq<u32>>, i: int, j: int) -> bool {
    0 <= i < lines.len() && 0 <= j <= u32::MAX && lines[i].contains(j as u32)
}

/// For each of `count` evenly spaced lines, the lines at most `n` away, in order.
pub open spec fn even_lines(count: u32, n: u32) -> Seq<Seq<u32>> {
    Seq::new(
        count as nat,
        |i: int|
            {
                let low = if i < n {
                    0
                } else {
                    i - n
                };
                let high = if i + n < count {
                    i + n + 1
                } else {
                    count as int
                };
                Seq::new((high - low) as nat, |k: int| (low + k) as u32)
            },
    )
}

impl ReachView {
    /// Column `j` is within the radius of column `i`.
    pub open spec fn near_x(self, i: int, j: int) -> bool {
        near(self.x, i, j)
    }

    /// Row `j` is within the radius of row `i`.
    pub open spec fn near_y(self, i: int, j: int) -> bool {
        near(self.y, i, j)
    }

    /// Evenly spaced lines, and a radius of `n` of them.
    pub open spec fn even(dims: Dims, n: u32) -> ReachView {
        if n == 0 {
            ReachView { x: Seq::empty(), y: Seq::empty() }
        } else {
            ReachView { x: even_lines(dims.w, n), y: even_lines(dims.h, n) }
        }
    }

    /// Cell `c` lies on the layer of cell `s`, within the radius on both axes.
    pub open spec fn covers(self, dims: Dims, s: u32, c: u32) -> bool {
        &&& dims.has(s)
        &&& dims.has(c)
        &&& dims.layer(s) == dims.layer(c)
        &&& self.near_x(dims.col(s), dims.col(c))
        &&& self.near_y(dims.row(s), dims.row(c))
    }
}

impl Reach {
    /// No line is within the radius of another, nor of itself.
    pub fn none() -> (r: Reach)
        ensures
            r@ == (ReachView { x: Seq::empty(), y: Seq::empty() }),
    {
        let r = Reach { x: Vec::new(), y: Vec::new() };
        assert(r@ =~= (ReachView { x: Seq::empty(), y: Seq::empty() }));
        r
    }

    /// Evenly spaced lines, and a radius of `n` of them.
    pub fn uniform(dims: Dims, n: u32) -> (r: Reach)
        ensures
            r@ == ReachView::even(dims, n),
    {
        if n == 0 {
            return Reach::none();
        }
        let r = Reach { x: uniform_lines(dims.w, n), y: uniform_lines(dims.h, n) };
        assert(r@ =~= ReachView::even(dims, n));
        r
    }
}

/// For each of `count` evenly spaced lines, the lines at most `n` away, in order.
fn uniform_lines(count: u32, n: u32) -> (r: Vec<Vec<u32>>)
    ensures
        lines_view(r@) == even_lines(count, n),
{
    let mut r: Vec<Vec<u32>> = Vec::new();
    let ghost all = even_lines(count, n);
    let mut i: u32 = 0;
    while i < count
        invariant
            i <= count,
            r@.len() == i,
            all == even_lines(count, n),
            forall|k: int| 0 <= k < i ==> (#[trigger] r@[k])@ == all[k],
        decreases count - i,
    {
        let mut line: Vec<u32> = Vec::new();
        let low: u32 = i.saturating_sub(n);
        let mut j: u32 = low;
        while j < count && (j <= i || j - i <= n)
            invariant
                i < count,
                low == if i < n {
                    0
                } else {
                    i - n
                },
                low <= j <= count,
                j <= i + n + 1,
                line@.len() == j - low,
                forall|k: int| 0 <= k < line@.len() ==> #[trigger] line@[k] == low + k,
            decreases count - j,
        {
            line.push(j);
            j += 1;
        }
        proof {
            assert(line@ =~= all[i as int]);
        }
        r.push(line);
        i += 1;
    }
    assert(lines_view(r@) =~= all);
    r
}

/// Evenly spaced lines are within a radius of `n` of each other exactly where they are
/// at most `n` apart.
pub proof fn law_even_reach(count: u32, n: u32, i: int, j: int)
    ensures
        near(even_lines(count, n), i, j) <==> 0 <= i < count && 0 <= j < count && i - n <= j <= i
            + n,
{
    if 0 <= i < count {
        let line = even_lines(count, n)[i];
        let low = if i < n {
            0
        } else {
            i - n
        };
        if 0 <= j < count && i - n <= j <= i + n {
            assert(line[j - low] == j as u32);
        }
        if 0 <= j <= u32::MAX && line.contains(j as u32) {
            let k = choose|k: int| 0 <= k < line.len() && line[k] == j as u32;
            assert(line[k] == (low + k) as u32);
        }
    }
}

/// Where the grid lines of a board are, as far as routing needs it.
#[derive(Clone, Debug, PartialEq, Eq)]
pub struct GridLines {
    /// What the step from each column to the next costs. Steps beyond the end of
    /// this list cost one unit.
    pub x_gaps: Vec<Cost>,
    /// What the step from each row to the next costs.
    pub y_gaps: Vec<Cost>,
    /// How many units each column is from each, the last of them begun. Columns that
    /// are not listed are as many units apart as their numbers.
    pub x_apart: Vec<Vec<u64>>,
    /// How many units each row is from each.
    pub y_apart: Vec<Vec<u64>>,
}

/// How many units line `i` is from line `j`.
pub open spec fn units_apart(apart: Seq<Vec<u64>>, i: int, j: int) -> int {
    if 0 <= i < apart.len() && 0 <= j < apart[i]@.len() {
        apart[i]@[j] as int
    } else if i <= j {
        j - i
    } else {
        i - j
    }
}

/// The first `k` lines, as far as they are at most `n` units from line `i`, in order.
pub open spec fn lines_within(apart: Seq<Vec<u64>>, n: u32, i: int, k: nat) -> Seq<u32>
    decreases k,
{
    if k == 0 {
        Seq::empty()
    } else {
        let less = lines_within(apart, n, i, (k - 1) as nat);
        if units_apart(apart, i, k - 1) <= n {
            less.push((k - 1) as u32)
        } else {
            less
        }
    }
}

/// For each of `count` lines, the lines at most `n` units away, in order.
pub open spec fn measured_lines(apart: Seq<Vec<u64>>, count: u32, n: u32) -> Seq<Seq<u32>> {
    Seq::new(count as nat, |i: int| lines_within(apart, n, i, count as nat))
}

/// For each line, the longer of two lists.
pub open spec fn wider_lines(a: Seq<Seq<u32>>, b: Seq<Seq<u32>>) -> Seq<Seq<u32>> {
    Seq::new(
        if a.len() < b.len() {
            b.len()
        } else {
            a.len()
        },
        |i: int|
            if i < a.len() && (i >= b.len() || b[i].len() <= a[i].len()) {
                a[i]
            } else {
                b[i]
            },
    )
}

impl ReachView {
    /// No line is within the radius of another, nor of itself.
    pub open spec fn nothing() -> ReachView {
        ReachView { x: Seq::empty(), y: Seq::empty() }
    }

    /// Lines where they are, and a radius of `n` units.
    pub open spec fn measured(dims: Dims, lines: GridLines, n: u32) -> ReachView {
        if n == 0 {
            ReachView::nothing()
        } else {
            ReachView {
                x: measured_lines(lines.x_apart@, dims.w, n),
                y: measured_lines(lines.y_apart@, dims.h, n),
            }
        }
    }

    /// A radius of `n` units over the given lines, or over evenly spaced ones.
    pub open spec fn over(dims: Dims, lines: Option<GridLines>, n: u32) -> ReachView {
        match lines {
            Some(l) => ReachView::measured(dims, l, n),
            None => ReachView::even(dims, n),
        }
    }

    /// Line by line the wider of two radii.
    pub open spec fn wider(self, other: ReachView) -> ReachView {
        ReachView { x: wider_lines(self.x, other.x), y: wider_lines(self.y, other.y) }
    }

    /// Some line is within the radius of a line.
    pub open spec fn reaches(self) -> bool {
        self.x.len() > 0 || self.y.len() > 0
    }
}

/// A line is among those listed exactly where it is near enough.
proof fn lemma_lines_within(apart: Seq<Vec<u64>>, n: u32, i: int, k: nat, j: int)
    requires
        k <= u32::MAX,
        0 <= j <= u32::MAX,
    ensures
        lines_within(apart, n, i, k).contains(j as u32) <==> j < k && units_apart(apart, i, j) <= n,
    decreases k,
{
    if k > 0 {
        let k1 = (k - 1) as nat;
        let less = lines_within(apart, n, i, k1);
        let now = lines_within(apart, n, i, k);
        lemma_lines_within(apart, n, i, k1, j);
        if less.contains(j as u32) {
            let m = choose|m: int| 0 <= m < less.len() && less[m] == j as u32;
            assert(now[m] == j as u32);
        }
        if units_apart(apart, i, k - 1) <= n {
            assert(now.last() == (k - 1) as u32);
            if now.contains(j as u32) && j != k - 1 {
                let m = choose|m: int| 0 <= m < now.len() && now[m] == j as u32;
                assert(less[m] == j as u32);
            }
        }
    }
}

/// Lines are within a radius of `n` units of each other exactly where they are at most
/// `n` units apart.
pub proof fn law_measured_reach(apart: Seq<Vec<u64>>, count: u32, n: u32, i: int, j: int)
    ensures
        near(measured_lines(apart, count, n), i, j) <==> 0 <= i < count && 0 <= j < count
            && units_apart(apart, i, j) <= n,
{
    if 0 <= i < count && 0 <= j <= u32::MAX {
        lemma_lines_within(apart, n, i, count as nat, j);
    }
}

/// The wider of two radii over evenly spaced lines is the larger one.
pub proof fn law_wider_is_larger(dims: Dims, a: u32, b: u32)
    ensures
        ReachView::even(dims, a).wider(ReachView::even(dims, b)) == ReachView::even(
            dims,
            if a < b {
                b
            } else {
                a
            },
        ),
{
    let most = if a < b {
        b
    } else {
        a
    };
    let (p, q, r) = (
        ReachView::even(dims, a),
        ReachView::even(dims, b),
        ReachView::even(dims, most),
    );
    assert forall|i: int| 0 <= i < r.x.len() implies #[trigger] p.wider(q).x[i] =~= r.x[i] by {}
    assert forall|i: int| 0 <= i < r.y.len() implies #[trigger] p.wider(q).y[i] =~= r.y[i] by {}
    assert(p.wider(q) =~= r);
}

/// Whether line `j` is at most `n` units from line `i`.
fn is_within(apart: &Vec<Vec<u64>>, n: u32, i: u32, j: u32) -> (b: bool)
    ensures
        b == (units_apart(apart@, i as int, j as int) <= n),
{
    if (i as usize) < apart.len() && (j as usize) < apart[i as usize].len() {
        apart[i as usize][j as usize] <= n as u64
    } else if i <= j {
        j - i <= n
    } else {
        i - j <= n
    }
}

/// For each of `count` lines, the lines at most `n` units away, in order.
fn lines_over(apart: &Vec<Vec<u64>>, count: u32, n: u32) -> (r: Vec<Vec<u32>>)
    ensures
        lines_view(r@) == measured_lines(apart@, count, n),
{
    let mut r: Vec<Vec<u32>> = Vec::new();
    let ghost all = measured_lines(apart@, count, n);
    let mut i: u32 = 0;
    while i < count
        invariant
            i <= count,
            r@.len() == i,
            all == measured_lines(apart@, count, n),
            forall|k: int| 0 <= k < i ==> (#[trigger] r@[k])@ == all[k],
        decreases count - i,
    {
        let mut line: Vec<u32> = Vec::new();
        let mut j: u32 = 0;
        while j < count
            invariant
                j <= count,
                line@ == lines_within(apart@, n, i as int, j as nat),
            decreases count - j,
        {
            if is_within(apart, n, i, j) {
                line.push(j);
            }
            j += 1;
        }
        r.push(line);
        i += 1;
    }
    assert(lines_view(r@) =~= all);
    r
}

/// The same list of lines or prices.
pub fn copy_line(line: &Vec<u32>) -> (r: Vec<u32>)
    ensures
        r@ == line@,
{
    let mut r: Vec<u32> = Vec::new();
    let mut i: usize = 0;
    while i < line.len()
        invariant
            i <= line@.len(),
            r@ == line@.take(i as int),
        decreases line@.len() - i,
    {
        r.push(line[i]);
        assert(r@ =~= line@.take(i + 1));
        i += 1;
    }
    assert(r@ =~= line@);
    r
}

/// For each line, the longer of two lists.
fn longer_lines(a: &Vec<Vec<u32>>, b: &Vec<Vec<u32>>) -> (r: Vec<Vec<u32>>)
    ensures
        lines_view(r@) == wider_lines(lines_view(a@), lines_view(b@)),
{
    let n: usize = if a.len() < b.len() { b.len() } else { a.len() };
    let ghost all = wider_lines(lines_view(a@), lines_view(b@));
    let mut r: Vec<Vec<u32>> = Vec::new();
    let mut i: usize = 0;
    while i < n
        invariant
            i <= n,
            n == all.len(),
            all == wider_lines(lines_view(a@), lines_view(b@)),
            r@.len() == i,
            forall|k: int| 0 <= k < i ==> (#[trigger] r@[k])@ == all[k],
        decreases n - i,
    {
        if i < a.len() && (i >= b.len() || b[i].len() <= a[i].len()) {
            r.push(copy_line(&a[i]));
        } else {
            r.push(copy_line(&b[i]));
        }
        i += 1;
    }
    assert(lines_view(r@) =~= all);
    r
}

impl Reach {
    /// A radius of `n` units over the given lines, or over evenly spaced ones.
    pub fn over(dims: Dims, lines: &Option<GridLines>, n: u32) -> (r: Reach)
        ensures
            r@ == ReachView::over(dims, *lines, n),
    {
        match lines {
            None => Reach::uniform(dims, n),
            Some(l) => if n == 0 {
                Reach::none()
            } else {
                let r = Reach {
                    x: lines_over(&l.x_apart, dims.w, n),
                    y: lines_over(&l.y_apart, dims.h, n),
                };
                assert(r@ =~= ReachView::measured(dims, *l, n));
                r
            },
        }
    }

    /// Line by line the wider of two radii.
    pub fn wider(&self, other: &Reach) -> (r: Reach)
        ensures
            r@ == self@.wider(other@),
    {
        let r = Reach { x: longer_lines(&self.x, &other.x), y: longer_lines(&self.y, &other.y) };
        assert(r@ =~= self@.wider(other@));
        r
    }

    /// Whether some line is within the radius of a line.
    pub fn reaches(&self) -> (b: bool)
        ensures
            b == self@.reaches(),
    {
        self.x.len() > 0 || self.y.len() > 0
    }

    /// The same radius.
    pub fn copy(&self) -> (r: Reach)
        ensures
            r@ == self@,
    {
        let none = Reach::none();
        let r = self.wider(&none);
        proof {
            assert(r@.x =~= self@.x);
            assert(r@.y =~= self@.y);
        }
        r
    }
}

/// What one unit of planar travel costs.
pub const SCALE: Cost = 16;

/// The spacing of a board's grid lines, as far as routing needs it.
#[derive(Clone, Debug, PartialEq, Eq)]
pub struct Geometry {
    /// What the step from each column to the next costs. Steps beyond the end of
    /// this list cost one unit.
    pub x_gaps: Vec<Cost>,
    /// What the step from each row to the next costs.
    pub y_gaps: Vec<Cost>,
    /// The lines within the clearance of each line.
    pub clearance: Reach,
    /// The lines within the clearance or the keepout of a via, whichever is wider.
    pub keepout: Reach,
    /// Whether nets keep any distance at all.
    pub spaced: bool,
}

/// A [`Geometry`] as plain values.
#[verifier::ext_equal]
pub struct GeoView {
    /// What the step from each column to the next costs.
    pub x_gaps: Seq<Cost>,
    /// What the step from each row to the next costs.
    pub y_gaps: Seq<Cost>,
    /// The lines within the clearance of each line.
    pub clearance: ReachView,
    /// The lines within the clearance or the keepout of a via, whichever is wider.
    pub keepout: ReachView,
    /// Whether nets keep any distance at all.
    pub spaced: bool,
}

impl View for Geometry {
    type V = GeoView;

    open spec fn view(&self) -> GeoView {
        GeoView {
            x_gaps: self.x_gaps@,
            y_gaps: self.y_gaps@,
            clearance: self.clearance@,
            keepout: self.keepout@,
            spaced: self.spaced,
        }
    }
}

impl GeoView {
    /// Evenly spaced lines, a clearance of `clear` lines, and vias that keep `keep`
    /// lines off.
    pub open spec fn even(dims: Dims, clear: u32, keep: u32) -> GeoView {
        GeoView {
            x_gaps: Seq::empty(),
            y_gaps: Seq::empty(),
            clearance: ReachView::even(dims, clear),
            keepout: ReachView::even(
                dims,
                if clear < keep {
                    keep
                } else {
                    clear
                },
            ),
            spaced: clear > 0 || keep > 0,
        }
    }
}

/// What the step over gap `k` costs.
pub open spec fn gap(gaps: Seq<Cost>, k: int) -> Cost {
    if 0 <= k < gaps.len() {
        gaps[k]
    } else {
        SCALE
    }
}

/// What the steps over the first `k` gaps cost together.
pub open spec fn gap_sum(gaps: Seq<Cost>, k: nat) -> nat
    decreases k,
{
    if k == 0 {
        0
    } else {
        gap_sum(gaps, (k - 1) as nat) + gap(gaps, k - 1) as nat
    }
}

/// What a straight run from line `i` to line `j` costs.
pub open spec fn leg(gaps: Seq<Cost>, i: int, j: int) -> int {
    if i <= j {
        gap_sum(gaps, j as nat) - gap_sum(gaps, i as nat)
    } else {
        gap_sum(gaps, i as nat) - gap_sum(gaps, j as nat)
    }
}

/// A run forward costs what its gaps cost.
pub proof fn lemma_gap_sum_grows(gaps: Seq<Cost>, i: nat, j: nat)
    requires
        i <= j,
    ensures
        gap_sum(gaps, i) <= gap_sum(gaps, j),
        gap_sum(gaps, j) <= gap_sum(gaps, i) + (j - i) * 0xffff_ffff,
    decreases j - i,
{
    if i < j {
        lemma_gap_sum_grows(gaps, i, (j - 1) as nat);
        assert((j - i) * 0xffff_ffff == (j - 1 - i) * 0xffff_ffff + 0xffff_ffff)
            by (nonlinear_arith);
    }
}

impl Geometry {
    /// Evenly spaced lines, a clearance of `clear` lines, and vias that keep `keep`
    /// lines off.
    pub fn uniform(dims: Dims, clear: u32, keep: u32) -> (g: Geometry)
        ensures
            g@ == GeoView::even(dims, clear, keep),
    {
        let wide: u32 = if clear < keep { keep } else { clear };
        let g = Geometry {
            x_gaps: Vec::new(),
            y_gaps: Vec::new(),
            clearance: Reach::uniform(dims, clear),
            keepout: Reach::uniform(dims, wide),
            spaced: clear > 0 || keep > 0,
        };
        assert(g@ =~= GeoView::even(dims, clear, keep));
        g
    }
}

/// What the step over gap `k` costs.
pub fn gap_cost(gaps: &Vec<Cost>, k: u32) -> (c: Cost)
    ensures
        c == gap(gaps@, k as int),
{
    if (k as usize) < gaps.len() {
        gaps[k as usize]
    } else {
        SCALE
    }
}

/// What each step along an axis of `count` lines costs.
pub fn axis_edge_costs(gaps: &Vec<Cost>, count: u32) -> (v: Vec<Cost>)
    ensures
        v@.len() == if count == 0 {
            0
        } else {
            count - 1
        },
        forall|k: int| 0 <= k < v@.len() ==> #[trigger] v@[k] == gap(gaps@, k),
{
    let mut v: Vec<Cost> = Vec::new();
    let mut k: u32 = 0;
    while k < count.saturating_sub(1)
        invariant
            k <= count,
            v@.len() == k,
            k == 0 || k < count,
            forall|j: int| 0 <= j < k ==> #[trigger] v@[j] == gap(gaps@, j),
        decreases count - k,
    {
        v.push(gap_cost(gaps, k));
        k += 1;
    }
    v
}

/// The sums of the gaps before each of `count` lines.
pub fn axis_cost_prefix(gaps: &Vec<Cost>, count: u32) -> (v: Vec<u64>)
    ensures
        v@.len() == if count == 0 {
            1
        } else {
            count as int
        },
        forall|k: int| 0 <= k < v@.len() ==> #[trigger] v@[k] == gap_sum(gaps@, k as nat),
{
    let mut v: Vec<u64> = Vec::new();
    v.push(0);
    let mut k: u32 = 0;
    while k < count.saturating_sub(1)
        invariant
            k <= count,
            v@.len() == k + 1,
            k == 0 || k < count,
            forall|j: int| 0 <= j <= k ==> #[trigger] v@[j] == gap_sum(gaps@, j as nat),
        decreases count - k,
    {
        proof {
            lemma_gap_sum_grows(gaps@, 0, k as nat);
            assert(k * 0xffff_ffff + 0xffff_ffff <= 0xffff_ffff * 0xffff_ffff) by (nonlinear_arith)
                requires
                    k < 0xffff_ffff,
            ;
            assert(v@[k as int] == gap_sum(gaps@, k as nat));
            assert(gap_sum(gaps@, (k + 1) as nat) == gap_sum(gaps@, k as nat) + gap(
                gaps@,
                k as int,
            ));
        }
        let next: u64 = v[k as usize] + gap_cost(gaps, k) as u64;
        v.push(next);
        k += 1;
    }
    v
}

/// What a straight run from line `i` to line `j` costs by the sums of the gaps before
/// them, up to the largest cost.
pub fn axis_leg_cost(prefix: &Vec<u64>, i: u32, j: u32) -> (c: Cost)
    requires
        i < prefix@.len(),
        j < prefix@.len(),
    ensures
        c == crate::search::sat(
            if prefix@[i as int] <= prefix@[j as int] {
                prefix@[j as int] - prefix@[i as int]
            } else {
                prefix@[i as int] - prefix@[j as int]
            },
        ),
        forall|gaps: Seq<Cost>|
            prefix@[i as int] == #[trigger] gap_sum(gaps, i as nat) && prefix@[j as int]
                == gap_sum(gaps, j as nat) ==> c == crate::search::sat(
                leg(gaps, i as int, j as int),
            ),
{
    let a: u64 = prefix[i as usize];
    let b: u64 = prefix[j as usize];
    let total: u64 = if a <= b { b - a } else { a - b };
    proof {
        assert forall|gaps: Seq<Cost>|
            prefix@[i as int] == #[trigger] gap_sum(gaps, i as nat) && prefix@[j as int]
                == gap_sum(gaps, j as nat) implies total == leg(gaps, i as int, j as int) by {
            if i <= j {
                lemma_gap_sum_grows(gaps, i as nat, j as nat);
            } else {
                lemma_gap_sum_grows(gaps, j as nat, i as nat);
            }
        }
    }
    if total < Cost::MAX as u64 {
        total as u32
    } else {
        Cost::MAX
    }
}

/// A rectangle of columns and rows, its edges with it, on every layer.
#[derive(Clone, Copy, Debug, PartialEq, Eq, Structural)]
pub struct IsolatedRouteWindow {
    /// First column.
    pub x0: u32,
    /// First row.
    pub y0: u32,
    /// Last column.
    pub x1: u32,
    /// Last row.
    pub y1: u32,
}

/// The smallest rectangle around two cells and some more.
pub open spec fn bounding_box(
    dims: Dims,
    src: CellIdx,
    dst: CellIdx,
    pads: Seq<CellIdx>,
) -> (int, int, int, int)
    decreases pads.len(),
{
    let c = if pads.len() == 0 {
        dst
    } else {
        pads.last()
    };
    let (x0, y0, x1, y1) = if pads.len() == 0 {
        (dims.col(src), dims.row(src), dims.col(src), dims.row(src))
    } else {
        bounding_box(dims, src, dst, pads.drop_last())
    };
    let (x, y) = (dims.col(c), dims.row(c));
    (
        if x < x0 {
            x
        } else {
            x0
        },
        if y < y0 {
            y
        } else {
            y0
        },
        if x > x1 {
            x
        } else {
            x1
        },
        if y > y1 {
            y
        } else {
            y1
        },
    )
}

/// How far a net may leave the rectangle around its ends and pads: three tenths of
/// the longer side, and sixteen cells at least.
pub open spec fn window_margin(span: int) -> int {
    let third = (3 * span + 9) / 10;
    if third < 16 {
        16
    } else {
        third
    }
}

/// Where a net is searched first.
pub open spec fn window_of(
    dims: Dims,
    src: CellIdx,
    dst: CellIdx,
    pads: Seq<CellIdx>,
) -> IsolatedRouteWindow {
    let (x0, y0, x1, y1) = bounding_box(dims, src, dst, pads);
    let span = if x1 - x0 < y1 - y0 {
        y1 - y0
    } else {
        x1 - x0
    };
    let m = window_margin(span);
    IsolatedRouteWindow {
        x0: (if x0 < m {
            0
        } else {
            x0 - m
        }) as u32,
        y0: (if y0 < m {
            0
        } else {
            y0 - m
        }) as u32,
        x1: (if x1 + m < dims.w {
            x1 + m
        } else {
            dims.w - 1
        }) as u32,
        y1: (if y1 + m < dims.h {
            y1 + m
        } else {
            dims.h - 1
        }) as u32,
    }
}

impl IsolatedRouteWindow {
    /// `c` lies in the window.
    pub open spec fn has(self, dims: Dims, c: CellIdx) -> bool {
        self.x0 <= dims.col(c) <= self.x1 && self.y0 <= dims.row(c) <= self.y1
    }

    /// The whole board.
    pub open spec fn whole(dims: Dims) -> IsolatedRouteWindow {
        IsolatedRouteWindow {
            x0: 0,
            y0: 0,
            x1: (if dims.w == 0 {
                0
            } else {
                dims.w - 1
            }) as u32,
            y1: (if dims.h == 0 {
                0
            } else {
                dims.h - 1
            }) as u32,
        }
    }

    /// The whole board.
    pub fn full(dims: Dims) -> (w: IsolatedRouteWindow)
        ensures
            w == IsolatedRouteWindow::whole(dims),
            forall|c: CellIdx| dims.has(c) ==> #[trigger] w.has(dims, c),
    {
        let w = IsolatedRouteWindow {
            x0: 0,
            y0: 0,
            x1: dims.w.saturating_sub(1),
            y1: dims.h.saturating_sub(1),
        };
        proof {
            assert forall|c: CellIdx| dims.has(c) implies #[trigger] w.has(dims, c) by {
                dims.lemma_coords(c);
            }
        }
        w
    }

    /// Whether `c` lies in the window.
    pub fn contains(&self, dims: Dims, c: CellIdx) -> (b: bool)
        requires
            dims.indexable(),
            dims.has(c),
        ensures
            b == self.has(dims, c),
    {
        let (x, y) = dims.xy(c);
        x >= self.x0 && x <= self.x1 && y >= self.y0 && y <= self.y1
    }
}

/// Where a net is searched first: the rectangle around its ends and pads, with a
/// margin, cut to the board.
pub fn net_window(dims: Dims, src: CellIdx, dst: CellIdx, pads: &Vec<CellIdx>) -> (w:
    IsolatedRouteWindow)
    requires
        dims.indexable(),
        dims.has(src),
        dims.has(dst),
        forall|i: int| 0 <= i < pads@.len() ==> dims.has(#[trigger] pads@[i]),
    ensures
        w == window_of(dims, src, dst, pads@),
        w.has(dims, src),
        w.has(dims, dst),
{
    let (sx, sy, _sl) = dims.xyz(src);
    let (dx, dy, _dl) = dims.xyz(dst);
    let mut x0: u32 = if dx < sx { dx } else { sx };
    let mut y0: u32 = if dy < sy { dy } else { sy };
    let mut x1: u32 = if dx > sx { dx } else { sx };
    let mut y1: u32 = if dy > sy { dy } else { sy };
    let mut i: usize = 0;
    assert(pads@.take(0) =~= Seq::<CellIdx>::empty());
    while i < pads.len()
        invariant
            dims.indexable(),
            i <= pads@.len(),
            forall|j: int| 0 <= j < pads@.len() ==> dims.has(#[trigger] pads@[j]),
            (x0 as int, y0 as int, x1 as int, y1 as int) == bounding_box(
                dims,
                src,
                dst,
                pads@.take(i as int),
            ),
            x0 <= dims.col(src) <= x1 < dims.w,
            y0 <= dims.row(src) <= y1 < dims.h,
            x0 <= dims.col(dst) <= x1,
            y0 <= dims.row(dst) <= y1,
        decreases pads@.len() - i,
    {
        assert(pads@.take(i + 1).drop_last() =~= pads@.take(i as int));
        assert(pads@.take(i + 1).last() == pads@[i as int]);
        let (px, py, _pl) = dims.xyz(pads[i]);
        x0 = if px < x0 { px } else { x0 };
        y0 = if py < y0 { py } else { y0 };
        x1 = if px > x1 { px } else { x1 };
        y1 = if py > y1 { py } else { y1 };
        i += 1;
    }
    assert(pads@.take(pads@.len() as int) =~= pads@);
    let span: u32 = if x1 - x0 < y1 - y0 { y1 - y0 } else { x1 - x0 };
    let third: u64 = (3 * (span as u64) + 9) / 10;
    let margin: u64 = if third < 16 { 16 } else { third };
    let right: u64 = x1 as u64 + margin;
    let bottom: u64 = y1 as u64 + margin;
    IsolatedRouteWindow {
        x0: if (x0 as u64) < margin { 0 } else { (x0 as u64 - margin) as u32 },
        y0: if (y0 as u64) < margin { 0 } else { (y0 as u64 - margin) as u32 },
        x1: if right < dims.w as u64 { right as u32 } else { dims.w - 1 },
        y1: if bottom < dims.h as u64 { bottom as u32 } else { dims.h - 1 },
    }
}

} // verus!

use crate::outliers::{remove_outliers, without_outliers, y_values};
use crate::plottable::{box_of, extend, BoundingBox, PointSource, Rangeable};
use crate::grouping::{add_to_groups, groups_view, grouped, legends_distinct, Groups};
use crate::seq_facts::{lemma_filter_all, lemma_filter_from, lemma_filter_none, reversed};
use crate::source::LoadError;
use crate::stats::{lemma_sum_bound, metric_of, Fraction, MetricName, StatsSerie};
use vstd::arithmetic::div_mod::{lemma_div_pos_is_pos, lemma_multiply_divide_lt};
use vstd::prelude::*;

verus! {

/// Columns of the grid that points are thinned on by default.
pub const GRID_WIDTH: u64 = 800;

/// Rows of the grid that points are thinned on by default.
pub const GRID_HEIGHT: u64 = 600;

/// A reduced point: an x value and an exact y value.
pub type PlotPoint = (i32, Fraction);

/// A reduced point as `(x, (numerator, denominator))`.
pub open spec fn point_view(p: PlotPoint) -> (i32, (int, int)) {
    (p.0, (p.1.num as int, p.1.den as int))
}

pub open spec fn points_view(s: Seq<PlotPoint>) -> Seq<(i32, (int, int))> {
    s.map_values(|p: PlotPoint| point_view(p))
}

/// The largest number of columns or rows a grid may have.
pub const MAX_GRID_SIDE: u64 = 4096;

/// A grid of `width` columns by `height` rows laid over `bounds`.
#[derive(Clone, Copy, Debug)]
pub struct Grid {
    pub bounds: BoundingBox,
    pub width: u64,
    pub height: u64,
}

impl Grid {
    /// At least one column and one row, and at most `MAX_GRID_SIDE` of each.
    pub open spec fn valid(self) -> bool {
        1 <= self.width <= MAX_GRID_SIDE && 1 <= self.height <= MAX_GRID_SIDE
    }
}

/// The column of `x` among `w` columns spanning `lo..hi`; values outside fall
/// in the first or last column.
pub open spec fn x_cell(x: i32, lo: i32, hi: i32, w: int) -> int {
    if hi <= lo || x <= lo {
        0
    } else if x >= hi {
        w - 1
    } else {
        (x - lo) * w / (hi - lo)
    }
}

/// The row of the value `y.0 / y.1` among `h` rows spanning `lo..hi`.
pub open spec fn y_cell(y: (int, int), lo: i32, hi: i32, h: int) -> int {
    let (num, den) = y;
    if hi <= lo || den <= 0 || num <= lo * den {
        0
    } else if num >= hi * den {
        h - 1
    } else {
        (num - lo * den) * h / ((hi - lo) * den)
    }
}

/// The grid cell of a point.
pub open spec fn cell_of(p: (i32, (int, int)), g: Grid) -> (int, int) {
    (
        x_cell(p.0, g.bounds.x_min, g.bounds.x_max, g.width as int),
        y_cell(p.1, g.bounds.y_min, g.bounds.y_max, g.height as int),
    )
}

/// Whether some point before index `i` falls in the cell of point `i`.
pub open spec fn cell_taken(s: Seq<(i32, (int, int))>, i: int, g: Grid) -> bool {
    exists|j: int| 0 <= j < i && #[trigger] cell_of(s[j], g) == cell_of(s[i], g)
}

/// The points that fall in a grid cell no earlier point fell in, in order.
pub open spec fn compressed(s: Seq<(i32, (int, int))>, g: Grid) -> Seq<(i32, (int, int))>
    decreases s.len(),
{
    if s.len() == 0 {
        s
    } else {
        let kept = compressed(s.drop_last(), g);
        if cell_taken(s, s.len() - 1, g) {
            kept
        } else {
            kept.push(s.last())
        }
    }
}

/// The magnitudes that reduced points stay within.
pub open spec fn point_in_bounds(p: (i32, (int, int))) -> bool {
    -0x10_0000_0000_0000_0000_0000_0000 <= p.1.0 <= 0x10_0000_0000_0000_0000_0000_0000
}

fn cell_index(p: &PlotPoint, g: &Grid) -> (r: u64)
    requires
        point_in_bounds(point_view(*p)),
        g.valid(),
    ensures
        r < g.width * g.height,
        0 <= cell_of(point_view(*p), *g).0 < g.width,
        0 <= cell_of(point_view(*p), *g).1 < g.height,
        r == cell_of(point_view(*p), *g).0 * g.height + cell_of(point_view(*p), *g).1,
{
    let b = &g.bounds;
    let w = g.width;
    let h = g.height;
    let x = p.0;
    let cx: u64 = if b.x_max <= b.x_min || x <= b.x_min {
        0
    } else if x >= b.x_max {
        w - 1
    } else {
        let den = b.x_max as i64 - b.x_min as i64;
        assert(0 < (x - b.x_min) * w <= 0x1_0000_0000 * 4096) by (nonlinear_arith)
            requires 0 < x - b.x_min <= 0x1_0000_0000, 1 <= w <= 4096;
        let num = (x as i64 - b.x_min as i64) * (w as i64);
        proof {
            assert(num < den * w) by (nonlinear_arith)
                requires num == (x - b.x_min) * w, den == b.x_max - b.x_min, 0 < x - b.x_min < den, w >= 1;
            lemma_div_pos_is_pos(num as int, den as int);
            lemma_multiply_divide_lt(num as int, den as int, w as int);
        }
        (num / den) as u64
    };
    let num = p.1.num;
    let den = p.1.den as i128;
    let lo = b.y_min as i128;
    let hi = b.y_max as i128;
    assert(-0x8000_0000_0000_0000_0000_0000 <= lo * den <= 0x8000_0000_0000_0000_0000_0000) by (nonlinear_arith)
        requires -0x8000_0000 <= lo <= 0x7fff_ffff, 0 <= den <= 0xffff_ffff_ffff_ffff;
    assert(-0x8000_0000_0000_0000_0000_0000 <= hi * den <= 0x8000_0000_0000_0000_0000_0000) by (nonlinear_arith)
        requires -0x8000_0000 <= hi <= 0x7fff_ffff, 0 <= den <= 0xffff_ffff_ffff_ffff;
    let cy: u64 = if hi <= lo || den <= 0 || num <= lo * den {
        0
    } else if num >= hi * den {
        h - 1
    } else {
        let t = num - lo * den;
        assert(0 < (hi - lo) * den <= 0x1_0000_0000_0000_0000_0000_0000 && (hi - lo) * den == hi * den - lo * den)
            by (nonlinear_arith)
            requires 0 < hi - lo <= 0xffff_ffff, 0 < den <= 0xffff_ffff_ffff_ffff;
        let span = (hi - lo) * den;
        assert(0 < t < span);
        assert(0 < t * h <= 0x1_0000_0000_0000_0000_0000_0000 * 4096) by (nonlinear_arith)
            requires 0 < t < span, span <= 0x1_0000_0000_0000_0000_0000_0000, 1 <= h <= 4096;
        let q = t * (h as i128);
        proof {
            assert(q < span * h) by (nonlinear_arith)
                requires q == t * h, 0 < t < span, h >= 1;
            lemma_div_pos_is_pos(q as int, span as int);
            lemma_multiply_divide_lt(q as int, span as int, h as int);
        }
        (q / span) as u64
    };
    assert(cx * h + cy < w * h) by (nonlinear_arith)
        requires cx < w, cy < h;
    assert(w * h <= 4096 * 4096) by (nonlinear_arith)
        requires 1 <= w <= 4096, 1 <= h <= 4096;
    cx * h + cy
}

/// Thins a series for drawing: a point is kept only if it falls in a cell of
/// the grid that no earlier point fell in.
pub fn compress_data_serie(serie: Vec<PlotPoint>, grid: &Grid) -> (r: Vec<PlotPoint>)
    requires
        grid.valid(),
        forall|i: int| 0 <= i < serie.len() ==> point_in_bounds(#[trigger] point_view(serie@[i])),
    ensures
        points_view(r@) == compressed(points_view(serie@), *grid),
{
    let ghost s = points_view(serie@);
    let g = grid;
    let h = g.height;
    let mut seen: Vec<bool> = Vec::new();
    assert(g.width * g.height <= 4096 * 4096) by (nonlinear_arith)
        requires 1 <= g.width <= 4096, 1 <= g.height <= 4096;
    let cells = g.width * g.height;
    while seen.len() < cells as usize
        invariant
            seen.len() <= cells,
            cells == g.width * g.height,
            forall|c: int| 0 <= c < seen.len() ==> !#[trigger] seen@[c],
        decreases cells - seen.len(),
    {
        seen.push(false);
    }
    let mut r: Vec<PlotPoint> = Vec::new();
    let mut i: usize = 0;
    while i < serie.len()
        invariant
            i <= serie.len(),
            g.valid(),
            h == g.height,
            s == points_view(serie@),
            seen.len() == g.width * g.height,
            forall|i: int| 0 <= i < serie.len() ==> point_in_bounds(#[trigger] point_view(serie@[i])),
            forall|c: int| 0 <= c < seen.len() ==> (#[trigger] seen@[c] <==> exists|j: int| 0 <= j < i
                && cell_of(#[trigger] s[j], *g).0 * h + cell_of(s[j], *g).1 == c),
            points_view(r@) == compressed(s.subrange(0, i as int), *g),
        decreases serie.len() - i,
    {
        let p = serie[i];
        assert(s[i as int] == point_view(p));
        let c = cell_index(&p, g);
        let ghost pre = s.subrange(0, i as int);
        let ghost cur = s.subrange(0, i + 1);
        assert(cur.drop_last() =~= pre);
        proof {
            lemma_cell_id_injective(h as int);
        }
        assert(cell_taken(cur, i as int, *g) == seen@[c as int]) by {
            if seen@[c as int] {
                let j = choose|j: int| 0 <= j < i && cell_of(#[trigger] s[j], *g).0 * h + cell_of(s[j], *g).1 == c;
                assert(cur[j] == s[j]);
                lemma_cell_bounds(s[j], *g);
                assert(cell_of(cur[j], *g) == cell_of(cur[i as int], *g));
            }
            if cell_taken(cur, i as int, *g) {
                let j = choose|j: int| 0 <= j < i && #[trigger] cell_of(cur[j], *g) == cell_of(cur[i as int], *g);
                assert(cur[j] == s[j]);
            }
        }
        if !seen[c as usize] {
            r.push(p);
            seen.set(c as usize, true);
            assert(points_view(r@) =~= points_view(r@.drop_last()).push(point_view(p)));
        }
        assert forall|d: int| 0 <= d < seen.len() implies (#[trigger] seen@[d] <==> exists|j: int| 0 <= j < i + 1
            && cell_of(#[trigger] s[j], *g).0 * h + cell_of(s[j], *g).1 == d) by {
            if d == c {
                assert(cell_of(s[i as int], *g).0 * h + cell_of(s[i as int], *g).1 == d);
            }
        }
        i = i + 1;
    }
    assert(s.subrange(0, serie.len() as int) =~= s);
    r
}

proof fn lemma_cell_bounds(p: (i32, (int, int)), g: Grid)
    requires
        g.valid(),
    ensures
        0 <= cell_of(p, g).0 < g.width,
        0 <= cell_of(p, g).1 < g.height,
{
    let b = g.bounds;
    let (x, (num, den)) = p;
    if !(b.x_max <= b.x_min || x <= b.x_min) && x < b.x_max {
        let w = g.width as int;
        let q = (x - b.x_min) * w;
        let d = b.x_max - b.x_min;
        assert(0 <= q < d * w) by (nonlinear_arith)
            requires q == (x - b.x_min) * w, d == b.x_max - b.x_min, 0 < x - b.x_min < d, w >= 1;
        lemma_div_pos_is_pos(q, d);
        lemma_multiply_divide_lt(q, d, w);
    }
    let lo = b.y_min as int;
    let hi = b.y_max as int;
    if !(hi <= lo || den <= 0 || num <= lo * den) && num < hi * den {
        let h = g.height as int;
        let q = (num - lo * den) * h;
        let d = (hi - lo) * den;
        assert(0 <= q < d * h && d > 0) by (nonlinear_arith)
            requires q == (num - lo * den) * h, d == (hi - lo) * den, lo * den < num < hi * den, lo < hi, den > 0, h >= 1;
        lemma_div_pos_is_pos(q, d);
        lemma_multiply_divide_lt(q, d, h);
    }
}

proof fn lemma_cell_id_injective(h: int)
    requires
        h >= 1,
    ensures
        forall|a: int, b: int, c: int, d: int|
            0 <= b < h && 0 <= d < h && #[trigger] (a * h + b) == #[trigger] (c * h + d) ==> a == c && b == d,
{
    assert forall|a: int, b: int, c: int, d: int|
        0 <= b < h && 0 <= d < h && #[trigger] (a * h + b) == #[trigger] (c * h + d) implies a == c && b == d by {
        assert(a == c && b == d) by (nonlinear_arith)
            requires 0 <= b < h, 0 <= d < h, a * h + b == c * h + d;
    }
}

/// Thinning never adds points and always keeps the first one. It keeps any
/// point whose cell no earlier point took, the last point included; and a
/// series whose points all fall in different cells (spread wider than the
/// grid resolution) is kept whole.
pub proof fn lemma_compression_laws(s: Seq<(i32, (int, int))>, g: Grid)
    ensures
        compressed(s, g).len() <= s.len(),
        s.len() > 0 ==> compressed(s, g).len() > 0 && compressed(s, g)[0] == s[0],
        s.len() > 0 && !cell_taken(s, s.len() - 1, g) ==> compressed(s, g).last() == s.last(),
        (forall|i: int, j: int| 0 <= i < j < s.len() ==> cell_of(#[trigger] s[i], g) != cell_of(#[trigger] s[j], g))
            ==> compressed(s, g) == s,
    decreases s.len(),
{
    if s.len() > 0 {
        let init = s.drop_last();
        lemma_compression_laws(init, g);
        if s.len() == 1 {
            assert(!cell_taken(s, 0, g));
            assert(compressed(init, g).len() == 0);
        }
        if forall|i: int, j: int| 0 <= i < j < s.len() ==> cell_of(#[trigger] s[i], g) != cell_of(#[trigger] s[j], g) {
            assert forall|i: int, j: int| 0 <= i < j < init.len() implies cell_of(#[trigger] init[i], g) != cell_of(#[trigger] init[j], g) by {
                assert(init[i] == s[i] && init[j] == s[j]);
            }
            assert(!cell_taken(s, s.len() - 1, g));
            assert(init.push(s.last()) =~= s);
        }
    }
}

/// Whether a point has x `c`.
pub open spec fn x_is(c: i32) -> spec_fn((i32, i32)) -> bool {
    |p: (i32, i32)| p.0 == c
}

/// The points whose x is `c`, in order.
pub open spec fn at_x(s: Seq<(i32, i32)>, c: i32) -> Seq<(i32, i32)> {
    s.filter(x_is(c))
}

/// Whether some point has x `c`.
pub open spec fn has_x(s: Seq<(i32, i32)>, c: i32) -> bool {
    exists|i: int| 0 <= i < s.len() && (#[trigger] s[i]).0 == c
}

/// Whether some reduced point has x `c`.
pub open spec fn has_reduced_x(r: Seq<(i32, (int, int))>, c: i32) -> bool {
    exists|k: int| 0 <= k < r.len() && (#[trigger] r[k]).0 == c
}

/// `r` aggregates the points `s` by `m`: one point per distinct x of `s`, in
/// ascending x, whose y is metric `m` of the y values of the points at that x.
pub open spec fn is_aggregation(s: Seq<(i32, i32)>, m: MetricName, r: Seq<(i32, (int, int))>) -> bool {
    &&& forall|i: int, j: int| 0 <= i < j < r.len() ==> (#[trigger] r[i]).0 < (#[trigger] r[j]).0
    &&& forall|k: int| 0 <= k < r.len() ==> (#[trigger] r[k]).1 == metric_of(m, y_values(at_x(s, r[k].0)))
    &&& forall|c: i32| #[trigger] has_x(s, c) <==> has_reduced_x(r, c)
}

/// The aggregation of `s` by `m` (there is exactly one: see
/// `lemma_aggregation_unique`).
pub open spec fn aggregated(s: Seq<(i32, i32)>, m: MetricName) -> Seq<(i32, (int, int))> {
    choose|r: Seq<(i32, (int, int))>| is_aggregation(s, m, r)
}

/// Two sequences in strictly ascending x that hold the same x values hold
/// them at the same places.
proof fn lemma_ascending_same_xs(a: Seq<(i32, (int, int))>, b: Seq<(i32, (int, int))>)
    requires
        forall|i: int, j: int| 0 <= i < j < a.len() ==> (#[trigger] a[i]).0 < (#[trigger] a[j]).0,
        forall|i: int, j: int| 0 <= i < j < b.len() ==> (#[trigger] b[i]).0 < (#[trigger] b[j]).0,
        forall|c: i32| #[trigger] has_reduced_x(a, c) <==> has_reduced_x(b, c),
    ensures
        a.len() == b.len(),
        forall|k: int| 0 <= k < a.len() ==> (#[trigger] a[k]).0 == b[k].0,
    decreases a.len() + b.len(),
{
    if a.len() > 0 && b.len() > 0 {
        assert(has_reduced_x(a, a[0].0));
        assert(has_reduced_x(b, b[0].0));
        assert(has_reduced_x(b, a[0].0));
        assert(has_reduced_x(a, b[0].0));
        let kb = choose|k: int| 0 <= k < b.len() && (#[trigger] b[k]).0 == a[0].0;
        let ka = choose|k: int| 0 <= k < a.len() && (#[trigger] a[k]).0 == b[0].0;
        if kb > 0 {
            assert(b[0].0 < b[kb].0);
        }
        if ka > 0 {
            assert(a[0].0 < a[ka].0);
        }
        assert(a[0].0 == b[0].0);
        let ta = a.drop_first();
        let tb = b.drop_first();
        assert forall|c: i32| #[trigger] has_reduced_x(ta, c) <==> has_reduced_x(tb, c) by {
            if has_reduced_x(ta, c) {
                let k = choose|k: int| 0 <= k < ta.len() && (#[trigger] ta[k]).0 == c;
                assert(a[k + 1].0 == c);
                assert(a[0].0 < c);
                assert(has_reduced_x(a, c));
                let j = choose|j: int| 0 <= j < b.len() && (#[trigger] b[j]).0 == c;
                assert(j != 0);
                assert(tb[j - 1].0 == c);
            }
            if has_reduced_x(tb, c) {
                let k = choose|k: int| 0 <= k < tb.len() && (#[trigger] tb[k]).0 == c;
                assert(b[k + 1].0 == c);
                assert(b[0].0 < c);
                assert(has_reduced_x(b, c));
                assert(has_reduced_x(a, c));
                let j = choose|j: int| 0 <= j < a.len() && (#[trigger] a[j]).0 == c;
                assert(j != 0);
                assert(ta[j - 1].0 == c);
            }
        }
        lemma_ascending_same_xs(ta, tb);
        assert forall|k: int| 0 <= k < a.len() implies (#[trigger] a[k]).0 == b[k].0 by {
            if k > 0 {
                assert(ta[k - 1] == a[k] && tb[k - 1] == b[k]);
            }
        }
    } else if a.len() > 0 {
        assert(has_reduced_x(a, a[0].0));
        assert(has_reduced_x(b, a[0].0));
    } else if b.len() > 0 {
        assert(has_reduced_x(b, b[0].0));
        assert(has_reduced_x(a, b[0].0));
    }
}

/// The points of `s` aggregate in one way only.
pub proof fn lemma_aggregation_unique(
    s: Seq<(i32, i32)>,
    m: MetricName,
    r1: Seq<(i32, (int, int))>,
    r2: Seq<(i32, (int, int))>,
)
    requires
        is_aggregation(s, m, r1),
        is_aggregation(s, m, r2),
    ensures
        r1 == r2,
{
    assert forall|c: i32| #[trigger] has_reduced_x(r1, c) <==> has_reduced_x(r2, c) by {
        assert(has_x(s, c) <==> has_reduced_x(r1, c));
        assert(has_x(s, c) <==> has_reduced_x(r2, c));
    }
    lemma_ascending_same_xs(r1, r2);
    assert forall|k: int| 0 <= k < r1.len() implies r1[k] == r2[k] by {
        assert(r1[k].0 == r2[k].0);
    }
    assert(r1 =~= r2);
}

/// Relies on `slice::sort_by_key`, a stable sort: the points in ascending x,
/// those with one x in the order they had.
#[verifier::external_body]
fn sort_by_x(v: &mut Vec<(i32, i32)>)
    ensures
        forall|i: int, j: int| 0 <= i < j < final(v)@.len() ==> (#[trigger] final(v)@[i]).0 <= (#[trigger] final(v)@[j]).0,
        forall|c: i32| #[trigger] at_x(final(v)@, c) == at_x(old(v)@, c),
{
    v.sort_by_key(|p| p.0)
}

/// A point is at x `c` exactly when the points at `c` are not none.
proof fn lemma_has_x(s: Seq<(i32, i32)>, c: i32)
    ensures
        has_x(s, c) <==> at_x(s, c).len() > 0,
{
    let pred = x_is(c);
    if has_x(s, c) {
        let i = choose|i: int| 0 <= i < s.len() && #[trigger] s[i].0 == c;
        s.lemma_filter_contains(pred, i);
    }
    if at_x(s, c).len() > 0 {
        lemma_filter_from(s, pred, 0);
        s.lemma_filter_pred(pred, 0);
    }
}

/// In points sorted by x, a maximal run of points at x `c` is all the points at `c`.
proof fn lemma_run_is_all(t: Seq<(i32, i32)>, c: i32, i: int, j: int)
    requires
        0 <= i <= j <= t.len(),
        forall|a: int, b: int| 0 <= a < b < t.len() ==> (#[trigger] t[a]).0 <= (#[trigger] t[b]).0,
        forall|k: int| i <= k < j ==> (#[trigger] t[k]).0 == c,
        i > 0 ==> t[i - 1].0 < c,
        j < t.len() ==> t[j].0 > c,
    ensures
        at_x(t, c) == t.subrange(i, j),
{
    let pred = x_is(c);
    let a = t.subrange(0, i);
    let m = t.subrange(i, j);
    let z = t.subrange(j, t.len() as int);
    assert(t =~= a + m + z);
    assert forall|k: int| 0 <= k < a.len() implies !pred(#[trigger] a[k]) by {
        assert(a[k] == t[k]);
        if k < i - 1 {
            assert(t[k].0 <= t[i - 1].0);
        }
    }
    lemma_filter_none(a, pred);
    assert forall|k: int| 0 <= k < m.len() implies pred(#[trigger] m[k]) by {
        assert(m[k] == t[i + k]);
    }
    lemma_filter_all(m, pred);
    assert forall|k: int| 0 <= k < z.len() implies !pred(#[trigger] z[k]) by {
        assert(z[k] == t[j + k]);
        if k > 0 {
            assert(t[j].0 <= t[j + k].0);
        }
    }
    lemma_filter_none(z, pred);
    Seq::filter_distributes_over_add(a + m, z, pred);
    Seq::filter_distributes_over_add(a, m, pred);
    assert(a.filter(pred) + m + z.filter(pred) =~= m);
}

/// The end of the run of points that share the x of point `i`, and their y values.
fn take_run(t: &Vec<(i32, i32)>, i: usize) -> (r: (usize, Vec<i32>))
    requires
        i < t.len(),
    ensures
        i < r.0 <= t.len(),
        forall|k: int| i <= k < r.0 ==> (#[trigger] t@[k]).0 == t@[i as int].0,
        r.0 < t.len() ==> t@[r.0 as int].0 != t@[i as int].0,
        r.1@ == y_values(t@.subrange(i as int, r.0 as int)),
{
    let c = t[i].0;
    let n = t.len();
    let mut j = i;
    let mut ys: Vec<i32> = Vec::new();
    while j < n && t[j].0 == c
        invariant
            n == t.len(),
            i <= j <= n,
            c == t@[i as int].0,
            forall|k: int| i <= k < j ==> (#[trigger] t@[k]).0 == c,
            ys@ == y_values(t@.subrange(i as int, j as int)),
        decreases n - j,
    {
        ys.push(t[j].1);
        j = j + 1;
        assert(y_values(t@.subrange(i as int, j as int)) =~= y_values(t@.subrange(i as int, j - 1)).push(t@[j - 1].1));
    }
    (j, ys)
}

/// The point at x `c` whose y is metric `metric` of `ys`.
fn metric_point(c: i32, ys: &Vec<i32>, metric: MetricName) -> (r: PlotPoint)
    requires
        ys.len() > 0,
    ensures
        point_view(r) == (c, metric_of(metric, ys@)),
        point_in_bounds(point_view(r)),
{
    proof {
        lemma_sum_bound(ys@);
    }
    let stats = StatsSerie::new(ys);
    (c, stats.get_stats(metric).value)
}

/// Combines the points that share an x into one point whose y is metric
/// `metric` of their y values; the result is in ascending x.
pub fn aggregate(serie: Vec<(i32, i32)>, metric: MetricName) -> (r: Vec<PlotPoint>)
    ensures
        is_aggregation(serie@, metric, points_view(r@)),
        points_view(r@) == aggregated(serie@, metric),
        forall|k: int| 0 <= k < r.len() ==> point_in_bounds(#[trigger] point_view(r@[k])),
{
    let ghost input = serie@;
    let mut t = serie;
    sort_by_x(&mut t);
    let n = t.len();
    let mut out: Vec<PlotPoint> = Vec::new();
    let mut i: usize = 0;
    while i < n
        invariant
            n == t.len(),
            i <= n,
            forall|a: int, b: int| 0 <= a < b < t.len() ==> (#[trigger] t@[a]).0 <= (#[trigger] t@[b]).0,
            forall|c: i32| #[trigger] at_x(t@, c) == at_x(input, c),
            0 < i < n ==> t@[i - 1].0 < t@[i as int].0,
            0 < i ==> out.len() > 0 && out@[out.len() - 1].0 == t@[i - 1].0,
            i == 0 ==> out.len() == 0,
            forall|a: int, b: int| 0 <= a < b < out.len() ==> (#[trigger] out@[a]).0 < (#[trigger] out@[b]).0,
            forall|k: int| 0 <= k < out.len() ==> (#[trigger] point_view(out@[k])).1 == metric_of(
                metric,
                y_values(at_x(input, out@[k].0)),
            ),
            forall|k: int| 0 <= k < out.len() ==> point_in_bounds(#[trigger] point_view(out@[k])),
            forall|a: int| 0 <= a < i ==> has_reduced_x(points_view(out@), (#[trigger] t@[a]).0),
            forall|k: int| 0 <= k < out.len() ==> has_x(t@, (#[trigger] out@[k]).0),
        decreases n - i,
    {
        let c = t[i].0;
        let (j, ys) = take_run(&t, i);
        proof {
            if j < n {
                assert(t@[j as int].0 >= c);
            }
            lemma_run_is_all(t@, c, i as int, j as int);
        }
        let p = metric_point(c, &ys, metric);
        let ghost before = out@;
        out.push(p);
        proof {
            let o = points_view(out@);
            assert(o[out.len() - 1].0 == c);
            assert forall|a: int| 0 <= a < j implies has_reduced_x(o, (#[trigger] t@[a]).0) by {
                if a >= i {
                    assert(o[out.len() - 1].0 == t@[a].0);
                } else {
                    let k = choose|k: int| 0 <= k < before.len() && (#[trigger] points_view(before)[k]).0 == t@[a].0;
                    assert(o[k] == points_view(before)[k]);
                }
            }
            assert(has_x(t@, c));
            assert forall|a: int, b: int| 0 <= a < b < out.len() implies (#[trigger] out@[a]).0 < (#[trigger] out@[b]).0 by {
                if b == out.len() - 1 {
                    assert(i > 0);
                    assert(before[before.len() - 1].0 == t@[i - 1].0);
                    if a < before.len() - 1 {
                        assert(before[a].0 < before[before.len() - 1].0);
                    }
                    assert(out@[a] == before[a]);
                } else {
                    assert(out@[a] == before[a] && out@[b] == before[b]);
                }
            }
        }
        i = j;
    }
    proof {
        let r = points_view(out@);
        assert forall|c: i32| #[trigger] has_x(input, c) <==> has_reduced_x(r, c) by {
            lemma_has_x(input, c);
            lemma_has_x(t@, c);
            if has_reduced_x(r, c) {
                let k = choose|k: int| 0 <= k < r.len() && (#[trigger] r[k]).0 == c;
                assert(has_x(t@, out@[k].0));
            }
        }
        assert forall|a: int, b: int| 0 <= a < b < r.len() implies (#[trigger] r[a]).0 < (#[trigger] r[b]).0 by {
            assert(out@[a].0 < out@[b].0);
        }
        assert forall|k: int| 0 <= k < r.len() implies (#[trigger] r[k]).1 == metric_of(metric, y_values(at_x(input, r[k].0))) by {
            assert(r[k] == point_view(out@[k]));
        }
        lemma_aggregation_unique(input, metric, r, aggregated(input, metric));
    }
    out
}

/// Drains the stream and groups its points by legend.
fn collect_groups<It: PointSource>(data: &mut It) -> (r: Result<Vec<(String, Vec<(i32, i32)>)>, LoadError>)
    ensures
        final(data).range() == extend_all(old(data).range(), drained(old(data).produced(), final(data).produced())),
        r matches Ok(g) ==> groups_view(g@) == grouped(drained(old(data).produced(), final(data).produced()))
            && legends_distinct(groups_view(g@)) && final(data).at_end(),
{
    let mut groups: Vec<(String, Vec<(i32, i32)>)> = Vec::new();
    let ghost start = data.produced();
    loop
        invariant
            start == old(data).produced(),
            start.len() <= data.produced().len(),
            data.produced().subrange(0, start.len() as int) == start,
            data.range() == extend_all(old(data).range(), drained(start, data.produced())),
            groups_view(groups@) == grouped(drained(start, data.produced())),
            legends_distinct(groups_view(groups@)),
        decreases data.pending_parts(), data.pending_items(),
    {
        let ghost before = data.produced();
        match data.next() {
            Ok(Some(item)) => {
                let (legend, p) = item;
                proof {
                    let d = drained(start, data.produced());
                    assert(data.produced().subrange(0, start.len() as int) =~= before.subrange(0, start.len() as int));
                    assert(d.drop_last() =~= drained(start, before));
                    assert(d.last() == (legend@, p));
                }
                add_to_groups(&mut groups, legend, p);
            },
            Ok(None) => {
                return Ok(groups);
            },
            Err(e) => {
                return Err(e);
            },
        }
    }
}

/// The points a stream produced after it had produced `start`.
pub open spec fn drained(start: Seq<(Seq<char>, (i32, i32))>, now: Seq<(Seq<char>, (i32, i32))>) -> Seq<(Seq<char>, (i32, i32))> {
    now.subrange(start.len() as int, now.len() as int)
}

/// A box grown by every point of `points`, in order.
pub open spec fn extend_all(b: Option<BoundingBox>, points: Seq<(Seq<char>, (i32, i32))>) -> Option<BoundingBox>
    decreases points.len(),
{
    if points.len() == 0 {
        b
    } else {
        extend(extend_all(b, points.drop_last()), points.last().1.0, points.last().1.1)
    }
}

/// Points with whole y values, as reduced points.
pub open spec fn lifted(s: Seq<(i32, i32)>) -> Seq<(i32, (int, int))> {
    s.map_values(|p: (i32, i32)| (p.0, (p.1 as int, 1int)))
}

/// `r` is what one legend's points `s` reduce to: outliers removed if asked,
/// then aggregated by `metric` if one is given, then thinned on the grid `b`.
pub open spec fn is_reduction(
    s: Seq<(i32, i32)>,
    metric: Option<MetricName>,
    remove_outlier: bool,
    b: Grid,
    r: Seq<(i32, (int, int))>,
) -> bool {
    let kept = if remove_outlier {
        without_outliers(s)
    } else {
        s
    };
    match metric {
        None => r == compressed(lifted(kept), b),
        Some(m) => r == compressed(aggregated(kept, m), b),
    }
}

fn lift(points: &Vec<(i32, i32)>) -> (r: Vec<PlotPoint>)
    ensures
        points_view(r@) == lifted(points@),
        forall|k: int| 0 <= k < r.len() ==> point_in_bounds(#[trigger] point_view(r@[k])),
{
    let mut r: Vec<PlotPoint> = Vec::new();
    let mut i: usize = 0;
    while i < points.len()
        invariant
            i <= points.len(),
            r.len() == i,
            forall|k: int| 0 <= k < i ==> #[trigger] point_view(r@[k]) == (points@[k].0, (points@[k].1 as int, 1int)),
        decreases points.len() - i,
    {
        r.push((points[i].0, Fraction::whole(points[i].1 as i128)));
        i = i + 1;
    }
    assert(points_view(r@) =~= lifted(points@));
    r
}

/// Reduces the points of one legend.
fn reduce_serie(
    points: Vec<(i32, i32)>,
    metric: Option<MetricName>,
    remove_outlier: bool,
    b: &Grid,
) -> (r: Vec<PlotPoint>)
    requires
        b.valid(),
    ensures
        is_reduction(points@, metric, remove_outlier, *b, points_view(r@)),
{
    let kept = if remove_outlier {
        remove_outliers(points)
    } else {
        points
    };
    match metric {
        None => {
            let lifted_points = lift(&kept);
            compress_data_serie(lifted_points, b)
        },
        Some(m) => {
            let aggregated = aggregate(kept, m);
            let r = compress_data_serie(aggregated, b);
            proof {
                let a = points_view(aggregated@);
                assert(is_aggregation(kept@, m, a));
                lemma_aggregation_unique(kept@, m, a, crate::plot_data::aggregated(kept@, m));
            }
            r
        },
    }
}

/// An axis range from `start` to `end`.
#[derive(Clone, Copy, Debug)]
pub struct Span {
    pub start: Fraction,
    pub end: Fraction,
}

/// The box that the grid spans: the box of the points, or 0 to 1 on both
/// axes when there were none.
pub open spec fn grid_box(range: Option<BoundingBox>) -> BoundingBox {
    match range {
        Some(b) => b,
        None => BoundingBox { x_min: 0, x_max: 1, y_min: 0, y_max: 1 },
    }
}

/// The x range to draw, as `((start num, start den), (end num, end den))`:
/// that of the grid box, widened by a half on each side when it is a single value.
pub open spec fn x_span(range: Option<BoundingBox>) -> ((int, int), (int, int)) {
    let b = grid_box(range);
    if b.x_min == b.x_max {
        ((2 * b.x_min - 1, 2), (2 * b.x_max + 1, 2))
    } else {
        ((b.x_min as int, 1), (b.x_max as int, 1))
    }
}

/// The y range to draw: that of the grid box.
pub open spec fn y_span(range: Option<BoundingBox>) -> ((int, int), (int, int)) {
    let b = grid_box(range);
    ((b.y_min as int, 1), (b.y_max as int, 1))
}

pub open spec fn span_view(s: Span) -> ((int, int), (int, int)) {
    ((s.start.num as int, s.start.den as int), (s.end.num as int, s.end.den as int))
}

/// The x and y ranges to draw for the box a stream tracked.
pub fn plot_ranges(range: Option<BoundingBox>) -> (r: (Span, Span))
    ensures
        span_view(r.0) == x_span(range),
        span_view(r.1) == y_span(range),
{
    let b = match range {
        Some(b) => b,
        None => BoundingBox { x_min: 0, x_max: 1, y_min: 0, y_max: 1 },
    };
    let x = if b.x_min == b.x_max {
        Span {
            start: Fraction { num: 2 * (b.x_min as i128) - 1, den: 2 },
            end: Fraction { num: 2 * (b.x_max as i128) + 1, den: 2 },
        }
    } else {
        Span { start: Fraction::whole(b.x_min as i128), end: Fraction::whole(b.x_max as i128) }
    };
    let y = Span { start: Fraction::whole(b.y_min as i128), end: Fraction::whole(b.y_max as i128) };
    (x, y)
}

/// The points of a chart, by legend, ready to draw, with the axis ranges.
pub struct PlotData {
    data: Vec<(String, Vec<PlotPoint>)>,
    x_range: Span,
    y_range: Span,
}

impl PlotData {
    /// The legends in the order they first appeared, each with its points.
    pub closed spec fn series(&self) -> Seq<(Seq<char>, Seq<(i32, (int, int))>)> {
        self.data@.map_values(|e: (String, Vec<PlotPoint>)| (e.0@, points_view(e.1@)))
    }

    pub closed spec fn ranges(&self) -> (Span, Span) {
        (self.x_range, self.y_range)
    }

    /// Drains `data` and reduces its points: grouped by legend, then, for
    /// each legend, outliers removed if asked, aggregated by the metric if one
    /// is given, and thinned on a grid of `width` by `height` cells over the box the
    /// stream tracked. The
    /// ranges are that box, the x range widened by a half on each side when it
    /// is a single value. An error of the stream is handed on.
    pub fn from_it_with_grid<It: PointSource>(
        data: &mut It,
        aggregation_metric: Option<MetricName>,
        remove_outlier: bool,
        width: u64,
        height: u64,
    ) -> (r: Result<PlotData, LoadError>)
        requires
            1 <= width <= MAX_GRID_SIDE,
            1 <= height <= MAX_GRID_SIDE,
        ensures
            match r {
                Ok(pd) => {
                    let points = drained(old(data).produced(), final(data).produced());
                    let g = grouped(points);
                    let b = Grid { bounds: grid_box(final(data).range()), width, height };
                    &&& final(data).range() == extend_all(old(data).range(), points)
                    &&& final(data).at_end()
                    &&& pd.series().len() == g.len()
                    &&& forall|i: int| 0 <= i < g.len() ==> (#[trigger] pd.series()[i]).0 == g[i].0
                        && is_reduction(g[i].1, aggregation_metric, remove_outlier, b, pd.series()[i].1)
                    &&& span_view(pd.ranges().0) == x_span(final(data).range())
                    &&& span_view(pd.ranges().1) == y_span(final(data).range())
                },
                Err(_) => final(data).range() == extend_all(
                    old(data).range(),
                    drained(old(data).produced(), final(data).produced()),
                ),
            },
    {
        let groups = match collect_groups(data) {
            Ok(g) => g,
            Err(e) => {
                return Err(e);
            },
        };
        let range = data.get_range();
        let bounds = match range {
            Some(b) => b,
            None => BoundingBox { x_min: 0, x_max: 1, y_min: 0, y_max: 1 },
        };
        let b = Grid { bounds, width, height };
        let (x_range, y_range) = plot_ranges(range);
        let ghost g = groups_view(groups@);
        let n = groups.len();
        let mut rest = reversed(groups);
        let mut out: Vec<(String, Vec<PlotPoint>)> = Vec::new();
        while rest.len() > 0
            invariant
                rest.len() + out.len() == n,
                n == g.len(),
                forall|j: int| 0 <= j < rest.len() ==> (#[trigger] rest@[j]).0@ == g[n - 1 - j].0 && rest@[j].1@ == g[n - 1 - j].1,
                b == (Grid { bounds: grid_box(range), width, height }),
                b.valid(),
                forall|i: int| 0 <= i < out.len() ==> (#[trigger] out@[i]).0@ == g[i].0 && is_reduction(
                    g[i].1,
                    aggregation_metric,
                    remove_outlier,
                    b,
                    points_view(out@[i].1@),
                ),
            decreases rest.len(),
        {
            let (legend, points) = rest.pop().unwrap();
            let reduced = reduce_serie(points, aggregation_metric, remove_outlier, &b);
            out.push((legend, reduced));
        }
        let r = PlotData { data: out, x_range, y_range };
        assert forall|i: int| 0 <= i < g.len() implies (#[trigger] r.series()[i]).0 == g[i].0 && is_reduction(
            g[i].1,
            aggregation_metric,
            remove_outlier,
            b,
            r.series()[i].1,
        ) by {
            assert(r.series()[i] == (out@[i].0@, points_view(out@[i].1@)));
        }
        Ok(r)
    }

    /// `from_it_with_grid` on a grid of `GRID_WIDTH` by `GRID_HEIGHT` cells.
    pub fn from_it<It: PointSource>(
        data: &mut It,
        aggregation_metric: Option<MetricName>,
        remove_outlier: bool,
    ) -> (r: Result<PlotData, LoadError>)
        ensures
            match r {
                Ok(pd) => {
                    let points = drained(old(data).produced(), final(data).produced());
                    let g = grouped(points);
                    let b = Grid { bounds: grid_box(final(data).range()), width: GRID_WIDTH, height: GRID_HEIGHT };
                    &&& final(data).range() == extend_all(old(data).range(), points)
                    &&& final(data).at_end()
                    &&& pd.series().len() == g.len()
                    &&& forall|i: int| 0 <= i < g.len() ==> (#[trigger] pd.series()[i]).0 == g[i].0
                        && is_reduction(g[i].1, aggregation_metric, remove_outlier, b, pd.series()[i].1)
                    &&& span_view(pd.ranges().0) == x_span(final(data).range())
                    &&& span_view(pd.ranges().1) == y_span(final(data).range())
                },
                Err(_) => final(data).range() == extend_all(
                    old(data).range(),
                    drained(old(data).produced(), final(data).produced()),
                ),
            },
    {
        Self::from_it_with_grid(data, aggregation_metric, remove_outlier, GRID_WIDTH, GRID_HEIGHT)
    }

    /// The points of each legend.
    pub fn get_data(&self) -> (r: &Vec<(String, Vec<PlotPoint>)>)
        ensures
            r@.map_values(|e: (String, Vec<PlotPoint>)| (e.0@, points_view(e.1@))) == self.series(),
    {
        &self.data
    }

    /// The x and y ranges to draw.
    pub fn get_range(&self) -> (r: (Span, Span))
        ensures
            r == self.ranges(),
    {
        (self.x_range, self.y_range)
    }
}

/// A box grown by every point of `points`, in order.
pub open spec fn extend_points(b: Option<BoundingBox>, points: Seq<(i32, i32)>) -> Option<BoundingBox>
    decreases points.len(),
{
    if points.len() == 0 {
        b
    } else {
        extend(extend_points(b, points.drop_last()), points.last().0, points.last().1)
    }
}

/// The box of the points of all groups, `None` when there are none.
pub open spec fn groups_box(g: Groups<(i32, i32)>) -> Option<BoundingBox>
    decreases g.len(),
{
    if g.len() == 0 {
        None
    } else {
        extend_points(groups_box(g.drop_last()), g.last().1)
    }
}

/// Growing no box by a stream's points gives their box.
pub proof fn lemma_extend_all_is_box(points: Seq<(Seq<char>, (i32, i32))>)
    ensures
        extend_all(None, points) == box_of(points),
    decreases points.len(),
{
    if points.len() > 0 {
        lemma_extend_all_is_box(points.drop_last());
    }
}

fn extend_by_points(b: Option<BoundingBox>, points: &Vec<(i32, i32)>) -> (r: Option<BoundingBox>)
    ensures
        r == extend_points(b, points@),
{
    let mut r = b;
    let mut i: usize = 0;
    while i < points.len()
        invariant
            i <= points.len(),
            r == extend_points(b, points@.subrange(0, i as int)),
        decreases points.len() - i,
    {
        r = crate::plottable::extended(r, points[i].0, points[i].1);
        i = i + 1;
        assert(points@.subrange(0, i as int).drop_last() =~= points@.subrange(0, i - 1));
    }
    assert(points@.subrange(0, points.len() as int) =~= points@);
    r
}

impl PlotData {
    /// Plot data for points already grouped by legend, drawn as they are;
    /// the ranges are those of the box of all the points (0 to 1 when there
    /// are none), the x range widened by a half on each side when it is a
    /// single value.
    pub fn from_points(data: Vec<(String, Vec<(i32, i32)>)>) -> (r: PlotData)
        ensures
            r.series().len() == data.len(),
            forall|i: int| 0 <= i < data.len() ==> (#[trigger] r.series()[i]).0 == data@[i].0@ && r.series()[i].1
                == lifted(data@[i].1@),
            span_view(r.ranges().0) == x_span(groups_box(groups_view(data@))),
            span_view(r.ranges().1) == y_span(groups_box(groups_view(data@))),
    {
        let ghost g = groups_view(data@);
        let n = data.len();
        let mut range: Option<BoundingBox> = None;
        let mut rest = reversed(data);
        let mut out: Vec<(String, Vec<PlotPoint>)> = Vec::new();
        while rest.len() > 0
            invariant
                rest.len() + out.len() == n,
                n == g.len(),
                forall|j: int| 0 <= j < rest.len() ==> (#[trigger] rest@[j]).0@ == g[n - 1 - j].0 && rest@[j].1@
                    == g[n - 1 - j].1,
                range == groups_box(g.subrange(0, out.len() as int)),
                forall|i: int| 0 <= i < out.len() ==> (#[trigger] out@[i]).0@ == g[i].0 && points_view(out@[i].1@)
                    == lifted(g[i].1),
            decreases rest.len(),
        {
            let ghost k = out.len() as int;
            let (legend, points) = rest.pop().unwrap();
            range = extend_by_points(range, &points);
            let lifted_points = lift(&points);
            out.push((legend, lifted_points));
            assert(g.subrange(0, k + 1).drop_last() =~= g.subrange(0, k));
        }
        assert(g.subrange(0, n as int) =~= g);
        let (x_range, y_range) = plot_ranges(range);
        let r = PlotData { data: out, x_range, y_range };
        assert forall|i: int| 0 <= i < n implies (#[trigger] r.series()[i]).0 == g[i].0 && r.series()[i].1 == lifted(g[i].1) by {
            assert(r.series()[i] == (out@[i].0@, points_view(out@[i].1@)));
        }
        r
    }
}

} // verus!

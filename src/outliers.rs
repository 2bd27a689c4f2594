use crate::seq_facts::lemma_filter_all;
use crate::stats::{sorted_copy, sorted_values};
use vstd::prelude::*;

verus! {

/// The y values of a sequence of points, in order.
pub open spec fn y_values<X>(s: Seq<(X, i32)>) -> Seq<i32> {
    s.map_values(|p: (X, i32)| p.1)
}

/// The 0-based rank of the first quartile among `n` sorted values by the
/// inverted-CDF rule: ceil(n/4) - 1.
pub open spec fn q1_rank(n: int) -> int {
    (n + 3) / 4 - 1
}

/// The 0-based rank of the third quartile: ceil(3n/4) - 1.
pub open spec fn q3_rank(n: int) -> int {
    (3 * n + 3) / 4 - 1
}

/// The first and third quartiles of a non-empty sequence of values.
pub open spec fn quartiles(ys: Seq<i32>) -> (int, int) {
    let t = sorted_values(ys);
    (t[q1_rank(ys.len() as int)] as int, t[q3_rank(ys.len() as int)] as int)
}

/// The bounds outside which a value is an outlier, doubled so that they are
/// whole: `(2 (Q1 - 1.5 IQR), 2 (Q3 + 1.5 IQR))` with IQR = Q3 - Q1.
pub open spec fn outlier_bounds(ys: Seq<i32>) -> (int, int) {
    let (q1, q3) = quartiles(ys);
    (2 * q1 - 3 * (q3 - q1), 2 * q3 + 3 * (q3 - q1))
}

/// Whether `y` lies within the doubled bounds `b`, ends included.
pub open spec fn within(y: i32, b: (int, int)) -> bool {
    b.0 <= 2 * y <= b.1
}

/// The points whose y value is not an outlier of the y values, in their order.
pub open spec fn without_outliers<X>(s: Seq<(X, i32)>) -> Seq<(X, i32)> {
    if s.len() == 0 {
        s
    } else {
        let b = outlier_bounds(y_values(s));
        s.filter(|p: (X, i32)| within(p.1, b))
    }
}

proof fn lemma_ranks(n: int)
    requires
        n >= 1,
    ensures
        q1_rank(n) == n / 4 + (if n % 4 == 0 { 0int } else { 1int }) - 1,
        q3_rank(n) == n - n / 4 - 1,
        0 <= q1_rank(n) <= q3_rank(n) < n,
{
    assert(q1_rank(n) == n / 4 + (if n % 4 == 0 { 0int } else { 1int }) - 1) by (nonlinear_arith)
        requires n >= 1;
    assert(q3_rank(n) == n - n / 4 - 1) by (nonlinear_arith)
        requires n >= 1;
}

/// Keeps the points whose y value lies within Q1 - 1.5 IQR and Q3 + 1.5 IQR
/// of the y values, the quartiles taken by the inverted-CDF rule; the points
/// kept stay in their order.
pub fn remove_outliers<X: Copy>(data_to_filter: Vec<(X, i32)>) -> (r: Vec<(X, i32)>)
    ensures
        r@ == without_outliers(data_to_filter@),
{
    let n = data_to_filter.len();
    if n == 0 {
        return data_to_filter;
    }
    let mut ys: Vec<i32> = Vec::new();
    let mut i: usize = 0;
    while i < n
        invariant
            n == data_to_filter.len(),
            i <= n,
            ys.len() == i,
            forall|j: int| 0 <= j < i ==> #[trigger] ys@[j] == data_to_filter@[j].1,
        decreases n - i,
    {
        ys.push(data_to_filter[i].1);
        i = i + 1;
    }
    assert(ys@ =~= y_values(data_to_filter@));
    let sorted = sorted_copy(&ys);
    proof {
        lemma_ranks(n as int);
    }
    let q1_index = n / 4 + (if n % 4 == 0 { 0 } else { 1 }) - 1;
    let q3_index = n - n / 4 - 1;
    let q1 = sorted[q1_index] as i64;
    let q3 = sorted[q3_index] as i64;
    let lower = 2 * q1 - 3 * (q3 - q1);
    let upper = 2 * q3 + 3 * (q3 - q1);
    let ghost b = outlier_bounds(y_values(data_to_filter@));
    let ghost pred = |p: (X, i32)| within(p.1, b);
    assert(b == (lower as int, upper as int));
    let mut r: Vec<(X, i32)> = Vec::new();
    let mut i: usize = 0;
    while i < n
        invariant
            n == data_to_filter.len(),
            i <= n,
            b == (lower as int, upper as int),
            pred == (|p: (X, i32)| within(p.1, b)),
            r@ == data_to_filter@.subrange(0, i as int).filter(pred),
        decreases n - i,
    {
        let p = data_to_filter[i];
        let y2 = 2 * (p.1 as i64);
        proof {
            reveal(Seq::filter);
            assert(data_to_filter@.subrange(0, i + 1).drop_last() =~= data_to_filter@.subrange(0, i as int));
        }
        if lower <= y2 && y2 <= upper {
            r.push(p);
        }
        i = i + 1;
    }
    assert(data_to_filter@.subrange(0, n as int) =~= data_to_filter@);
    r
}

/// Removing outliers a second time removes nothing more, when the bounds
/// computed on what the first pass kept are those of the first pass.
pub proof fn lemma_outlier_removal_idempotent<X>(s: Seq<(X, i32)>)
    requires
        without_outliers(s).len() > 0 ==> outlier_bounds(y_values(without_outliers(s))) == outlier_bounds(
            y_values(s),
        ),
    ensures
        without_outliers(without_outliers(s)) == without_outliers(s),
{
    let r = without_outliers(s);
    if s.len() > 0 && r.len() > 0 {
        let b = outlier_bounds(y_values(s));
        let pred = |p: (X, i32)| within(p.1, b);
        assert forall|i: int| 0 <= i < r.len() implies pred(#[trigger] r[i]) by {
            s.lemma_filter_pred(pred, i);
        }
        lemma_filter_all(r, pred);
    }
}

} // verus!

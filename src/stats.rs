use rayon::iter::{IntoParallelRefIterator, ParallelIterator};
use vstd::prelude::*;
use vstd::relations::{sorted_by, total_ordering};
use vstd::seq_lib::lemma_sorted_unique;

verus! {

/// The order in which values are sorted.
pub open spec fn ascending() -> spec_fn(i32, i32) -> bool {
    |a: i32, b: i32| a <= b
}

/// The values in ascending order.
pub open spec fn sorted_values(s: Seq<i32>) -> Seq<i32> {
    s.sort_by(ascending())
}

/// The plain total of the values.
pub open spec fn sum_of(s: Seq<i32>) -> int
    decreases s.len(),
{
    if s.len() == 0 {
        0
    } else {
        sum_of(s.drop_last()) + s.last()
    }
}

/// An exact rational number `num / den`. A zero denominator marks an
/// undefined value (the mean of nothing, for instance).
#[derive(Clone, Copy, Debug)]
pub struct Fraction {
    pub num: i128,
    pub den: u64,
}

impl Fraction {
    pub open spec fn is_undefined(self) -> bool {
        self.den == 0
    }

    /// Whether the fraction is exactly `(num, den)`, as written.
    pub open spec fn represents(self, p: (int, int)) -> bool {
        self.num == p.0 && self.den == p.1
    }

    /// The undefined value.
    pub fn undefined() -> (r: Self)
        ensures
            r.represents((0, 0)),
    {
        Fraction { num: 0, den: 0 }
    }

    /// The whole number `v`.
    pub fn whole(v: i128) -> (r: Self)
        ensures
            r.represents((v as int, 1)),
    {
        Fraction { num: v, den: 1 }
    }

    pub fn is_nan(&self) -> (r: bool)
        ensures
            r == self.is_undefined(),
    {
        self.den == 0
    }
}

/// The statistics that a series of values is summarised by.
#[derive(Clone, Copy, Debug, PartialEq, Eq, Hash, PartialOrd, Ord)]
pub enum MetricName {
    Mean,
    Median,
    Additive,
    NbValues,
}

/// The printed name of a metric.
pub open spec fn metric_label(m: MetricName) -> Seq<char> {
    match m {
        MetricName::Mean => "mean"@,
        MetricName::Median => "median"@,
        MetricName::Additive => "additive"@,
        MetricName::NbValues => "nb_values"@,
    }
}

impl MetricName {
    pub fn get_name(&self) -> (r: String)
        ensures
            r@ == metric_label(*self),
    {
        match self {
            MetricName::Mean => "mean".to_owned(),
            MetricName::Median => "median".to_owned(),
            MetricName::Additive => "additive".to_owned(),
            MetricName::NbValues => "nb_values".to_owned(),
        }
    }
}

/// The median of a non-empty series, as `(numerator, denominator)`: the middle
/// element of the sorted values, or the mean of the two central ones.
pub open spec fn median_of(s: Seq<i32>) -> (int, int) {
    let t = sorted_values(s);
    let n = s.len() as int;
    if n % 2 == 1 {
        (t[n / 2] as int, 1)
    } else {
        (t[n / 2 - 1] + t[n / 2], 2)
    }
}

/// The value of metric `m` over the series `s`, as `(numerator, denominator)`;
/// on an empty series every metric but the count is undefined.
pub open spec fn metric_of(m: MetricName, s: Seq<i32>) -> (int, int) {
    if s.len() == 0 {
        match m {
            MetricName::NbValues => (0, 1),
            _ => (0, 0),
        }
    } else {
        match m {
            MetricName::Mean => (sum_of(s), s.len() as int),
            MetricName::Median => median_of(s),
            MetricName::Additive => (sum_of(s), 1),
            MetricName::NbValues => (s.len() as int, 1),
        }
    }
}

/// A metric and its value.
#[derive(Clone, Copy, Debug)]
pub struct MetricValue {
    pub name: MetricName,
    pub value: Fraction,
}

impl MetricValue {
    pub fn median(value: Fraction) -> (r: Self)
        ensures
            r.name == MetricName::Median,
            r.value == value,
    {
        MetricValue { name: MetricName::Median, value }
    }

    pub fn mean(value: Fraction) -> (r: Self)
        ensures
            r.name == MetricName::Mean,
            r.value == value,
    {
        MetricValue { name: MetricName::Mean, value }
    }

    pub fn additive(value: Fraction) -> (r: Self)
        ensures
            r.name == MetricName::Additive,
            r.value == value,
    {
        MetricValue { name: MetricName::Additive, value }
    }

    pub fn nb_values(value: u64) -> (r: Self)
        ensures
            r.name == MetricName::NbValues,
            r.value.represents((value as int, 1)),
    {
        MetricValue { name: MetricName::NbValues, value: Fraction::whole(value as i128) }
    }
}

pub proof fn lemma_sum_bound(s: Seq<i32>)
    ensures
        -0x8000_0000 * s.len() <= sum_of(s) <= 0x7fff_ffff * s.len(),
    decreases s.len(),
{
    if s.len() > 0 {
        lemma_sum_bound(s.drop_last());
    }
}

proof fn lemma_ascending_total()
    ensures
        total_ordering(ascending()),
{
}

/// Relies on rayon's `ParallelIterator::sum`: the items are added in an
/// unspecified grouping, which for integers is their plain total.
#[verifier::external_body]
fn parallel_sum(values: &Vec<i32>) -> (r: i128)
    ensures
        r == sum_of(values@),
{
    values.par_iter().map(|v| *v as i128).sum::<i128>()
}

/// Relies on `slice::sort_unstable`: the same values, in ascending order.
#[verifier::external_body]
fn sort_values(v: &mut Vec<i32>)
    ensures
        sorted_by(final(v)@, ascending()),
        final(v)@.to_multiset() == old(v)@.to_multiset(),
{
    v.sort_unstable()
}

/// A sorted copy of the values.
pub fn sorted_copy(values: &Vec<i32>) -> (r: Vec<i32>)
    ensures
        r@ == sorted_values(values@),
        r@.len() == values@.len(),
{
    let mut r: Vec<i32> = Vec::new();
    let mut i: usize = 0;
    while i < values.len()
        invariant
            i <= values.len(),
            r@ == values@.subrange(0, i as int),
        decreases values.len() - i,
    {
        r.push(values[i]);
        i = i + 1;
    }
    assert(r@ =~= values@);
    sort_values(&mut r);
    proof {
        values@.to_multiset_ensures();
        r@.to_multiset_ensures();
        lemma_ascending_total();
        values@.lemma_sort_by_ensures(ascending());
        lemma_sorted_unique(r@, sorted_values(values@), ascending());
    }
    r
}

/// A series of values with its metrics, computed when it is made.
#[derive(Clone, Debug)]
pub struct StatsSerie {
    serie: Vec<i32>,
    mean: Fraction,
    median: Fraction,
    additive: Fraction,
    nb_values: Fraction,
}

impl StatsSerie {
    /// The values the metrics were computed from.
    pub closed spec fn values(&self) -> Seq<i32> {
        self.serie@
    }

    /// The stored value of metric `m`.
    pub closed spec fn stored(&self, m: MetricName) -> Fraction {
        match m {
            MetricName::Mean => self.mean,
            MetricName::Median => self.median,
            MetricName::Additive => self.additive,
            MetricName::NbValues => self.nb_values,
        }
    }

    pub open spec fn wf(&self) -> bool {
        forall|m: MetricName| #[trigger] self.stored(m).represents(metric_of(m, self.values()))
    }

    pub fn new(serie: &Vec<i32>) -> (r: Self)
        ensures
            r.values() == serie@,
            r.wf(),
    {
        let mut copy: Vec<i32> = Vec::new();
        let mut i: usize = 0;
        while i < serie.len()
            invariant
                i <= serie.len(),
                copy@ == serie@.subrange(0, i as int),
            decreases serie.len() - i,
        {
            copy.push(serie[i]);
            i = i + 1;
        }
        assert(copy@ =~= serie@);
        let n = serie.len();
        if n == 0 {
            return StatsSerie {
                serie: copy,
                mean: Fraction::undefined(),
                median: Fraction::undefined(),
                additive: Fraction::undefined(),
                nb_values: Fraction::whole(0),
            };
        }
        let total = parallel_sum(serie);
        let sorted = sorted_copy(serie);
        let median = if n % 2 == 0 {
            Fraction { num: sorted[n / 2 - 1] as i128 + sorted[n / 2] as i128, den: 2 }
        } else {
            Fraction::whole(sorted[n / 2] as i128)
        };
        let r = StatsSerie {
            serie: copy,
            mean: Fraction { num: total, den: n as u64 },
            median,
            additive: Fraction::whole(total),
            nb_values: Fraction::whole(n as i128),
        };
        assert forall|m: MetricName| #[trigger] r.stored(m).represents(metric_of(m, r.values())) by {
            match m {
                MetricName::Mean => {},
                MetricName::Median => {},
                MetricName::Additive => {},
                MetricName::NbValues => {},
            }
        }
        r
    }

    pub fn get_stats(&self, metric: MetricName) -> (r: MetricValue)
        requires
            self.wf(),
        ensures
            r.name == metric,
            r.value.represents(metric_of(metric, self.values())),
    {
        let value = match metric {
            MetricName::Mean => self.mean,
            MetricName::Median => self.median,
            MetricName::Additive => self.additive,
            MetricName::NbValues => self.nb_values,
        };
        assert(value == self.stored(metric));
        MetricValue { name: metric, value }
    }

    pub fn get_serie(&self) -> (r: &Vec<i32>)
        ensures
            r@ == self.values(),
    {
        &self.serie
    }
}

} // verus!

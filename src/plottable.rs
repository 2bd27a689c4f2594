use crate::filtered_serie::FilteredSerieIterator;
use crate::file_serie::{copy_paths, FileSampleSerieIntoIterator};
use crate::filtering::Filters;
use crate::sample::{FileSample, Sample, SerieKey};
use crate::source::{progressed, LoadError, Resetable, SampleSerie};
use crate::stats::StatsSerie;
use crate::stats_by_value::{collect_stats_sorted_by_unique_values, is_stats_by_value};
use core::marker::PhantomData;
use vstd::prelude::*;

verus! {

/// The smallest box holding a set of points: x from `x_min` to `x_max`, y
/// from `y_min` to `y_max`.
#[derive(Clone, Copy, Debug, PartialEq, Eq)]
pub struct BoundingBox {
    pub x_min: i32,
    pub x_max: i32,
    pub y_min: i32,
    pub y_max: i32,
}

pub open spec fn min_i32(a: i32, b: i32) -> i32 {
    if a <= b { a } else { b }
}

pub open spec fn max_i32(a: i32, b: i32) -> i32 {
    if a >= b { a } else { b }
}

/// The box grown to hold the point `(x, y)`; no box yet means the point alone.
pub open spec fn extend(b: Option<BoundingBox>, x: i32, y: i32) -> Option<BoundingBox> {
    match b {
        None => Some(BoundingBox { x_min: x, x_max: x, y_min: y, y_max: y }),
        Some(b) => Some(
            BoundingBox {
                x_min: min_i32(b.x_min, x),
                x_max: max_i32(b.x_max, x),
                y_min: min_i32(b.y_min, y),
                y_max: max_i32(b.y_max, y),
            },
        ),
    }
}

/// The box of a sequence of labelled points, `None` for no points.
pub open spec fn box_of(points: Seq<(Seq<char>, (i32, i32))>) -> Option<BoundingBox>
    decreases points.len(),
{
    if points.len() == 0 {
        None
    } else {
        extend(box_of(points.drop_last()), points.last().1.0, points.last().1.1)
    }
}

/// The box holds every point, and each of its sides touches one.
pub proof fn lemma_box_of_tight(points: Seq<(Seq<char>, (i32, i32))>)
    requires
        points.len() > 0,
    ensures
        box_of(points) matches Some(b) && {
            &&& forall|i: int| 0 <= i < points.len() ==> b.x_min <= (#[trigger] points[i]).1.0 <= b.x_max
                && b.y_min <= points[i].1.1 <= b.y_max
            &&& exists|i: int| 0 <= i < points.len() && (#[trigger] points[i]).1.0 == b.x_min
            &&& exists|i: int| 0 <= i < points.len() && (#[trigger] points[i]).1.0 == b.x_max
            &&& exists|i: int| 0 <= i < points.len() && (#[trigger] points[i]).1.1 == b.y_min
            &&& exists|i: int| 0 <= i < points.len() && (#[trigger] points[i]).1.1 == b.y_max
        },
    decreases points.len(),
{
    let n = points.len() as int;
    let init = points.drop_last();
    if n > 1 {
        lemma_box_of_tight(init);
        let b0 = box_of(init)->0;
        assert forall|i: int| 0 <= i < n - 1 implies #[trigger] points[i] == init[i] by {}
        if b0.x_min <= points.last().1.0 {
            let i = choose|i: int| 0 <= i < init.len() && (#[trigger] init[i]).1.0 == b0.x_min;
            assert(points[i] == init[i]);
        }
        if b0.x_max >= points.last().1.0 {
            let i = choose|i: int| 0 <= i < init.len() && (#[trigger] init[i]).1.0 == b0.x_max;
            assert(points[i] == init[i]);
        }
        if b0.y_min <= points.last().1.1 {
            let i = choose|i: int| 0 <= i < init.len() && (#[trigger] init[i]).1.1 == b0.y_min;
            assert(points[i] == init[i]);
        }
        if b0.y_max >= points.last().1.1 {
            let i = choose|i: int| 0 <= i < init.len() && (#[trigger] init[i]).1.1 == b0.y_max;
            assert(points[i] == init[i]);
        }
        assert(points[n - 1] == points.last());
    } else {
        assert(init.len() == 0);
        assert(points[0] == points.last());
    }
}

/// The box grown to hold the point `(x, y)`.
pub fn extended(b: Option<BoundingBox>, x: i32, y: i32) -> (r: Option<BoundingBox>)
    ensures
        r == extend(b, x, y),
{
    match b {
        None => Some(BoundingBox { x_min: x, x_max: x, y_min: y, y_max: y }),
        Some(b) => Some(
            BoundingBox {
                x_min: if b.x_min <= x { b.x_min } else { x },
                x_max: if b.x_max >= x { b.x_max } else { x },
                y_min: if b.y_min <= y { b.y_min } else { y },
                y_max: if b.y_max >= y { b.y_max } else { y },
            },
        ),
    }
}

/// Something that tracks the box of the points it has seen.
pub trait Rangeable {
    spec fn range(&self) -> Option<BoundingBox>;

    fn get_range(&self) -> (r: Option<BoundingBox>)
        ensures
            r == self.range(),
    ;

    fn add_point(&mut self, x: i32, y: i32)
        ensures
            final(self).range() == extend(old(self).range(), x, y),
    ;
}

/// A stream of labelled points `(legend, (x, y))` that tracks their box.
pub trait PointSource: Rangeable + Sized {
    /// The points produced so far, as (legend, (x, y)).
    spec fn produced(&self) -> Seq<(Seq<char>, (i32, i32))>;

    spec fn pending_parts(&self) -> nat;

    spec fn pending_items(&self) -> nat;

    /// Whether the stream has reported its end.
    spec fn at_end(&self) -> bool;

    /// The next point, `None` at the end, or the error that stopped the stream.
    fn next(&mut self) -> (r: Result<Option<(String, (i32, i32))>, LoadError>)
        ensures
            match r {
                Ok(Some(item)) => {
                    &&& final(self).produced() == old(self).produced().push((item.0@, item.1))
                    &&& final(self).range() == extend(old(self).range(), item.1.0, item.1.1)
                    &&& progressed(old(self).pending_parts(), old(self).pending_items(),
                        final(self).pending_parts(), final(self).pending_items())
                },
                Ok(None) => {
                    &&& final(self).produced() == old(self).produced()
                    &&& final(self).range() == old(self).range()
                    &&& final(self).at_end()
                },
                Err(_) => {
                    &&& final(self).produced() == old(self).produced()
                    &&& final(self).range() == old(self).range()
                },
            },
    ;
}

/// The legend given to every point when no legend key is chosen.
pub open spec fn default_legend() -> Seq<char> {
    "All"@
}

/// The labelled point that a sample projects to: x from the x key, y from the
/// y key or 1 when there is none, the legend from the legend key or "All".
pub open spec fn project<K: SerieKey, S: Sample<K>>(keys: (K, Option<K>), legend: Option<K>, s: S) -> (
    Seq<char>,
    (i32, i32),
) {
    let x = s.number_at(keys.0);
    let y = match keys.1 {
        Some(k) => s.number_at(k),
        None => 1i32,
    };
    let l = match legend {
        Some(k) => s.text_at(k)@,
        None => default_legend(),
    };
    (l, (x, y))
}

/// Keys fit for a projection: numeric x and y keys, a text legend key.
pub open spec fn keys_fit<K: SerieKey>(keys: (K, Option<K>), legend: Option<K>) -> bool {
    &&& keys.0.numeric()
    &&& keys.1 matches Some(k) ==> k.numeric()
    &&& legend matches Some(k) ==> !k.numeric()
}

/// The keys of a projection, checked to fit when it was made.
struct ProjectionKeys<K: SerieKey> {
    serie_keys: (K, Option<K>),
    legend_key: Option<K>,
}

impl<K: SerieKey> ProjectionKeys<K> {
    #[verifier::type_invariant]
    spec fn fit(&self) -> bool {
        keys_fit(self.serie_keys, self.legend_key)
    }
}

/// Projects the samples of a series to labelled points and tracks their box.
pub struct PlottableIterator<S, K: SerieKey, It> {
    iterator: It,
    keys: ProjectionKeys<K>,
    range: Option<BoundingBox>,
    /// The samples projected so far.
    taken: Ghost<Seq<S>>,
}

impl<S: Sample<K>, K: SerieKey, It: SampleSerie<S>> PlottableIterator<S, K, It> {
    pub closed spec fn inner(&self) -> It {
        self.iterator
    }

    pub closed spec fn keys(&self) -> (K, Option<K>) {
        self.keys.serie_keys
    }

    pub closed spec fn legend(&self) -> Option<K> {
        self.keys.legend_key
    }

    /// The samples projected so far, in order.
    pub closed spec fn projected(&self) -> Seq<S> {
        self.taken@
    }

    pub fn new(iterator: It, serie_keys: (K, Option<K>), legend_key: Option<K>) -> (r: Self)
        requires
            keys_fit(serie_keys, legend_key),
        ensures
            r.inner() == iterator,
            r.keys() == serie_keys,
            r.legend() == legend_key,
            r.range() is None,
            r.projected().len() == 0,
            r.produced().len() == 0,
    {
        PlottableIterator {
            iterator,
            keys: ProjectionKeys { serie_keys, legend_key },
            range: None,
            taken: Ghost(Seq::empty()),
        }
    }

    pub fn get_serie_keys(&self) -> (r: (K, Option<K>))
        ensures
            r == self.keys(),
    {
        self.keys.serie_keys
    }

    pub fn get_legend_key(&self) -> (r: &Option<K>)
        ensures
            *r == self.legend(),
    {
        &self.keys.legend_key
    }
}

impl<S: Sample<K>, K: SerieKey, It: Resetable<S>> PlottableIterator<S, K, It> {
    /// Starts over: the inner series is reset and the box forgotten.
    pub fn reset(&mut self)
        ensures
            final(self).produced().len() == 0,
            final(self).inner().produced().len() == 0,
            final(self).range() is None,
            final(self).keys() == old(self).keys(),
            final(self).legend() == old(self).legend(),
    {
        self.iterator.reset();
        self.range = None;
        self.taken = Ghost(Seq::empty());
    }
}

impl<S: Sample<K>, K: SerieKey, It: SampleSerie<S>> Rangeable for PlottableIterator<S, K, It> {
    closed spec fn range(&self) -> Option<BoundingBox> {
        self.range
    }

    fn get_range(&self) -> (r: Option<BoundingBox>) {
        self.range
    }

    fn add_point(&mut self, x: i32, y: i32) {
        self.range = extended(self.range, x, y);
    }
}

impl<S: Sample<K>, K: SerieKey, It: SampleSerie<S>> PointSource for PlottableIterator<S, K, It> {
    closed spec fn produced(&self) -> Seq<(Seq<char>, (i32, i32))> {
        self.taken@.map_values(|s: S| project(self.keys.serie_keys, self.keys.legend_key, s))
    }

    closed spec fn pending_parts(&self) -> nat {
        self.iterator.pending_parts()
    }

    closed spec fn pending_items(&self) -> nat {
        self.iterator.pending_items()
    }

    closed spec fn at_end(&self) -> bool {
        self.iterator.at_end()
    }

    /// The projection of the next sample of the inner series; the inner
    /// series is left as it was when it has no sample to give.
    fn next(&mut self) -> (r: Result<Option<(String, (i32, i32))>, LoadError>)
        ensures
            final(self).keys() == old(self).keys(),
            final(self).legend() == old(self).legend(),
            match r {
                Ok(Some(item)) => {
                    &&& final(self).projected().len() > 0
                    &&& final(self).inner().produced() == old(self).inner().produced().push(
                        final(self).projected().last(),
                    )
                    &&& final(self).projected() == old(self).projected().push(final(self).projected().last())
                    &&& (item.0@, item.1) == project(old(self).keys(), old(self).legend(), final(self).projected().last())
                },
                Ok(None) => {
                    &&& final(self).projected() == old(self).projected()
                    &&& final(self).inner().produced() == old(self).inner().produced()
                    &&& final(self).inner().at_end()
                },
                Err(_) => {
                    &&& final(self).projected() == old(self).projected()
                    &&& final(self).inner().produced() == old(self).inner().produced()
                },
            },
    {
        proof {
            use_type_invariant(&self.keys);
        }
        match self.iterator.next() {
            Ok(Some(sample)) => {
                let x = sample.get_numeric_value(&self.keys.serie_keys.0);
                let y = match &self.keys.serie_keys.1 {
                    Some(k) => sample.get_numeric_value(k),
                    None => 1i32,
                };
                self.range = extended(self.range, x, y);
                let legend = match &self.keys.legend_key {
                    Some(k) => sample.get_string_value(k),
                    None => "All".to_owned(),
                };
                self.taken = Ghost(self.taken@.push(sample));
                proof {
                    assert(self.produced() =~= old(self).produced().push((legend@, (x, y))));
                }
                Ok(Some((legend, (x, y))))
            },
            Ok(None) => Ok(None),
            Err(e) => Err(e),
        }
    }
}

/// The points a projection produced are the projections of the samples it
/// read, in order.
pub proof fn lemma_produced_projects<S: Sample<K>, K: SerieKey, It: SampleSerie<S>>(it: PlottableIterator<S, K, It>)
    ensures
        it.produced() == it.projected().map_values(|s: S| project(it.keys(), it.legend(), s)),
{
}

/// A plottable series stored in files.
pub struct FilePlottable<S, K> {
    paths: Vec<String>,
    _key: PhantomData<K>,
    _sample: PhantomData<S>,
}

impl<S: FileSample<K>, K: SerieKey> FilePlottable<S, K> {
    pub closed spec fn paths(&self) -> Seq<String> {
        self.paths@
    }

    pub fn new(paths: Vec<String>) -> (r: Self)
        ensures
            r.paths() == paths@,
    {
        FilePlottable { paths, _key: PhantomData, _sample: PhantomData }
    }

    /// Reads the samples of the files in order.
    pub fn into_sample_iter(&self) -> (r: FileSampleSerieIntoIterator<S, K>)
        ensures
            r.paths().len() == self.paths().len(),
            forall|i: int| 0 <= i < self.paths().len() ==> #[trigger] r.paths()[i]@ == self.paths()[i]@,
            r.produced() == Seq::<S>::empty(),
            r.loaded().len() == 0,
            r.wf(),
    {
        FileSampleSerieIntoIterator::new(copy_paths(&self.paths))
    }

    /// Statistics of the keys `stats_serie_keys` over the samples of the
    /// files, grouped by the value each sample has for `sort_value_key`, the
    /// sort values in the order they first appear.
    pub fn collect_stats_sorted_by_unique_values(
        &self,
        stats_serie_keys: &Vec<K>,
        sort_value_key: &K,
    ) -> (r: Result<Vec<(String, Vec<(K, StatsSerie)>)>, LoadError>)
        requires
            forall|j: int| 0 <= j < stats_serie_keys.len() ==> (#[trigger] stats_serie_keys@[j]).numeric(),
        ensures
            r matches Ok(v) ==> exists|samples: Seq<S>| is_stats_by_value(samples, stats_serie_keys@, *sort_value_key, v@),
    {
        let mut source = self.into_sample_iter();
        let r = collect_stats_sorted_by_unique_values(&mut source, stats_serie_keys, sort_value_key);
        proof {
            if r is Ok {
                let samples = source.produced().subrange(0, source.produced().len() as int);
                assert(is_stats_by_value(samples, stats_serie_keys@, *sort_value_key, r->Ok_0@));
            }
        }
        r
    }

    /// The labelled points of the samples that pass `filters`; without a y
    /// key every point has y = 1, so that points can be counted.
    pub fn into_iter_with_filter<'a>(
        &'a self,
        serie_keys: (K, Option<K>),
        legend_key: Option<K>,
        filters: &'a Filters<K>,
    ) -> (r: PlottableIterator<S, K, FilteredSerieIterator<'a, S, K, FileSampleSerieIntoIterator<S, K>>>)
        requires
            keys_fit(serie_keys, legend_key),
        ensures
            r.keys() == serie_keys,
            r.legend() == legend_key,
            r.range() is None,
            r.produced().len() == 0,
            r.inner().filters() == *filters,
            r.inner().inner().paths().len() == self.paths().len(),
            forall|i: int| 0 <= i < self.paths().len() ==> #[trigger] r.inner().inner().paths()[i]@ == self.paths()[i]@,
            r.inner().inner().produced().len() == 0,
            r.inner().inner().loaded().len() == 0,
            r.inner().inner().wf(),
    {
        let samples = self.into_sample_iter();
        let filtered = FilteredSerieIterator::new(samples, filters);
        PlottableIterator::new(filtered, serie_keys, legend_key)
    }
}

/// A plottable series stored in files, plotted with both an x and a y key.
pub struct FilePlottableSerie<S, K> {
    paths: Vec<String>,
    _key: PhantomData<K>,
    _sample: PhantomData<S>,
}

impl<S: FileSample<K>, K: SerieKey> FilePlottableSerie<S, K> {
    pub closed spec fn paths(&self) -> Seq<String> {
        self.paths@
    }

    pub fn new(paths: Vec<String>) -> (r: Self)
        ensures
            r.paths() == paths@,
    {
        FilePlottableSerie { paths, _key: PhantomData, _sample: PhantomData }
    }

    /// Reads the samples of the files in order.
    pub fn into_sample_iter(&self) -> (r: FileSampleSerieIntoIterator<S, K>)
        ensures
            r.paths().len() == self.paths().len(),
            forall|i: int| 0 <= i < self.paths().len() ==> #[trigger] r.paths()[i]@ == self.paths()[i]@,
            r.produced() == Seq::<S>::empty(),
            r.loaded().len() == 0,
            r.wf(),
    {
        FileSampleSerieIntoIterator::new(copy_paths(&self.paths))
    }

    /// Statistics of the keys `stats_serie_keys` over the samples of the
    /// files, grouped by the value each sample has for `sort_value_key`, the
    /// sort values in the order they first appear.
    pub fn collect_stats_sorted_by_unique_values(
        &self,
        stats_serie_keys: &Vec<K>,
        sort_value_key: &K,
    ) -> (r: Result<Vec<(String, Vec<(K, StatsSerie)>)>, LoadError>)
        requires
            forall|j: int| 0 <= j < stats_serie_keys.len() ==> (#[trigger] stats_serie_keys@[j]).numeric(),
        ensures
            r matches Ok(v) ==> exists|samples: Seq<S>| is_stats_by_value(samples, stats_serie_keys@, *sort_value_key, v@),
    {
        let mut source = self.into_sample_iter();
        let r = collect_stats_sorted_by_unique_values(&mut source, stats_serie_keys, sort_value_key);
        proof {
            if r is Ok {
                let samples = source.produced().subrange(0, source.produced().len() as int);
                assert(is_stats_by_value(samples, stats_serie_keys@, *sort_value_key, r->Ok_0@));
            }
        }
        r
    }

    /// The labelled points `(x, y)` of the samples that pass `filters`.
    pub fn into_iter_with_filter<'a>(
        &'a self,
        serie_keys: (K, K),
        legend_key: Option<K>,
        filters: &'a Filters<K>,
    ) -> (r: PlottableIterator<S, K, FilteredSerieIterator<'a, S, K, FileSampleSerieIntoIterator<S, K>>>)
        requires
            keys_fit((serie_keys.0, Some(serie_keys.1)), legend_key),
        ensures
            r.keys() == (serie_keys.0, Some(serie_keys.1)),
            r.legend() == legend_key,
            r.range() is None,
            r.produced().len() == 0,
            r.inner().filters() == *filters,
            r.inner().inner().paths().len() == self.paths().len(),
            forall|i: int| 0 <= i < self.paths().len() ==> #[trigger] r.inner().inner().paths()[i]@ == self.paths()[i]@,
            r.inner().inner().produced().len() == 0,
            r.inner().inner().loaded().len() == 0,
            r.inner().inner().wf(),
    {
        let samples = self.into_sample_iter();
        let filtered = FilteredSerieIterator::new(samples, filters);
        PlottableIterator::new(filtered, (serie_keys.0, Some(serie_keys.1)), legend_key)
    }
}

} // verus!

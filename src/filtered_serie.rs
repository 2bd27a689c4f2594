use crate::filtering::Filters;
use crate::sample::{Sample, SerieKey};
use crate::source::{LoadError, Resetable, SampleSerie};
use core::marker::PhantomData;
use vstd::prelude::*;

verus! {

/// The samples of `s` that pass the filter set `f`, in order.
pub open spec fn passing<K: SerieKey, S: Sample<K>>(s: Seq<S>, f: Filters<K>) -> Seq<S> {
    s.filter(|x: S| f.accepts(x))
}

/// What the inner series produced after it had produced `before`.
pub open spec fn read_since<S>(before: Seq<S>, now: Seq<S>) -> Seq<S> {
    now.subrange(before.len() as int, now.len() as int)
}

/// No sample of `d` passes the filter set.
pub open spec fn all_rejected<K: SerieKey, S: Sample<K>>(d: Seq<S>, f: Filters<K>) -> bool {
    forall|i: int| 0 <= i < d.len() ==> !f.accepts(#[trigger] d[i])
}

/// `d`, the samples read from the inner series in one call, fits the result
/// `r`: for a sample, `d` ends with it, it passes, and all before it were
/// rejected; otherwise all of `d` was rejected.
pub open spec fn read_as<K: SerieKey, S: Sample<K>>(r: Result<Option<S>, LoadError>, d: Seq<S>, f: Filters<K>) -> bool {
    match r {
        Ok(Some(s)) => d.len() > 0 && d.last() == s && f.accepts(s) && all_rejected(d.drop_last(), f),
        _ => all_rejected(d, f),
    }
}

/// A series seen through a filter set.
pub struct FilteredSerie<'a, S, K: SerieKey, It> {
    sample_serie: It,
    filters: &'a Filters<K>,
    _sample: PhantomData<S>,
}

impl<'a, S: Sample<K>, K: SerieKey, It: SampleSerie<S>> FilteredSerie<'a, S, K, It> {
    pub closed spec fn inner(&self) -> It {
        self.sample_serie
    }

    pub closed spec fn filters(&self) -> Filters<K> {
        *self.filters
    }

    pub fn new(sample_serie: It, filters: &'a Filters<K>) -> (r: Self)
        ensures
            r.inner() == sample_serie,
            r.filters() == *filters,
    {
        FilteredSerie { sample_serie, filters, _sample: PhantomData }
    }

    pub fn get_iter(&self) -> (r: &It)
        ensures
            *r == self.inner(),
    {
        &self.sample_serie
    }

    pub fn into_iter(self) -> (r: FilteredSerieIterator<'a, S, K, It>)
        ensures
            r.inner() == self.inner(),
            r.filters() == self.filters(),
            r.produced() == passing(self.inner().produced(), self.filters()),
    {
        FilteredSerieIterator { sample_serie: self.sample_serie, filters: self.filters, _sample: PhantomData }
    }
}

/// Produces the samples of the inner series that pass the filter set,
/// skipping the others.
pub struct FilteredSerieIterator<'a, S, K: SerieKey, It> {
    sample_serie: It,
    filters: &'a Filters<K>,
    _sample: PhantomData<S>,
}

impl<'a, S: Sample<K>, K: SerieKey, It: SampleSerie<S>> FilteredSerieIterator<'a, S, K, It> {
    pub closed spec fn inner(&self) -> It {
        self.sample_serie
    }

    pub closed spec fn filters(&self) -> Filters<K> {
        *self.filters
    }

    pub fn new(sample_serie: It, filters: &'a Filters<K>) -> (r: Self)
        ensures
            r.inner() == sample_serie,
            r.filters() == *filters,
            r.produced() == passing(sample_serie.produced(), *filters),
    {
        FilteredSerieIterator { sample_serie, filters, _sample: PhantomData }
    }
}

proof fn lemma_passing_push<K: SerieKey, S: Sample<K>>(s: Seq<S>, x: S, f: Filters<K>)
    ensures
        passing(s.push(x), f) == if f.accepts(x) {
            passing(s, f).push(x)
        } else {
            passing(s, f)
        },
{
    reveal(Seq::filter);
    assert(s.push(x).drop_last() =~= s);
}

impl<'a, S: Sample<K>, K: SerieKey, It: SampleSerie<S>> SampleSerie<S> for FilteredSerieIterator<
    'a,
    S,
    K,
    It,
> {
    closed spec fn produced(&self) -> Seq<S> {
        passing(self.sample_serie.produced(), *self.filters)
    }

    closed spec fn pending_parts(&self) -> nat {
        self.sample_serie.pending_parts()
    }

    closed spec fn pending_items(&self) -> nat {
        self.sample_serie.pending_items()
    }

    closed spec fn at_end(&self) -> bool {
        self.sample_serie.at_end()
    }

    closed spec fn valid(&self) -> bool {
        self.sample_serie.valid()
    }

    /// The next sample of the inner series that passes the filter set: the
    /// samples read before it were all rejected, and the inner series stands
    /// just after it. `None` comes only at the end of the inner series.
    fn next(&mut self) -> (r: Result<Option<S>, LoadError>)
        ensures
            final(self).filters() == old(self).filters(),
            old(self).inner().produced().len() <= final(self).inner().produced().len(),
            final(self).inner().produced().subrange(0, old(self).inner().produced().len() as int) == old(
                self,
            ).inner().produced(),
            read_as(r, read_since(old(self).inner().produced(), final(self).inner().produced()), old(self).filters()),
            r matches Ok(None) ==> final(self).inner().at_end(),
    {
        let ghost start = self.sample_serie.produced();
        loop
            invariant
                self.filters == old(self).filters,
                self.produced() == old(self).produced(),
                start == old(self).inner().produced(),
                old(self).valid() ==> self.valid(),
                start.len() <= self.sample_serie.produced().len(),
                self.sample_serie.produced().subrange(0, start.len() as int) == start,
                all_rejected(read_since(start, self.sample_serie.produced()), *self.filters),
                self.pending_parts() < old(self).pending_parts() || (self.pending_parts()
                    == old(self).pending_parts() && self.pending_items() <= old(self).pending_items()),
            decreases self.sample_serie.pending_parts(), self.sample_serie.pending_items(),
        {
            let ghost before = self.sample_serie.produced();
            match self.sample_serie.next() {
                Ok(Some(sample)) => {
                    proof {
                        lemma_passing_push(before, sample, *self.filters);
                        let now = self.sample_serie.produced();
                        assert(now.subrange(0, start.len() as int) =~= before.subrange(0, start.len() as int));
                        assert(read_since(start, now) =~= read_since(start, before).push(sample));
                    }
                    if self.filters.apply(&sample) {
                        return Ok(Some(sample));
                    }
                },
                Ok(None) => {
                    return Ok(None);
                },
                Err(e) => {
                    return Err(e);
                },
            }
        }
    }
}

impl<'a, S: Sample<K>, K: SerieKey, It: Resetable<S>> Resetable<S> for FilteredSerieIterator<
    'a,
    S,
    K,
    It,
> {
    fn reset(&mut self) {
        self.sample_serie.reset();
        proof {
            reveal(Seq::filter);
        }
    }
}

/// A filter set without filters lets every sample through: a series seen
/// through it produces exactly what the series produces.
pub proof fn lemma_empty_filters_pass_all<K: SerieKey, S: Sample<K>>(s: Seq<S>, f: Filters<K>)
    requires
        f.members().len() == 0,
    ensures
        passing(s, f) == s,
    decreases s.len(),
{
    if s.len() > 0 {
        lemma_empty_filters_pass_all(s.drop_last(), f);
        lemma_passing_push(s.drop_last(), s.last(), f);
        assert(s.drop_last().push(s.last()) =~= s);
    } else {
        reveal(Seq::filter);
    }
}

/// A filtered series produces the samples of its inner series that pass its
/// filter set, in order.
pub proof fn lemma_filtered_produced<'a, S: Sample<K>, K: SerieKey, It: SampleSerie<S>>(
    it: FilteredSerieIterator<'a, S, K, It>,
)
    ensures
        it.produced() == passing(it.inner().produced(), it.filters()),
{
}

/// A filter set without filters accepts every sample.
pub proof fn lemma_empty_filters_accept<K: SerieKey, S: Sample<K>>(f: Filters<K>, s: S)
    requires
        f.members().len() == 0,
    ensures
        f.accepts(s),
{
}

/// Through a filter set without filters, one call reads exactly one sample
/// of the inner series and returns it, or reads none.
pub proof fn lemma_empty_filter_set_reads_one<K: SerieKey, S: Sample<K>>(
    r: Result<Option<S>, LoadError>,
    d: Seq<S>,
    f: Filters<K>,
)
    requires
        f.members().len() == 0,
        read_as(r, d, f),
    ensures
        r matches Ok(Some(s)) ==> d == seq![s],
        !(r matches Ok(Some(_))) ==> d.len() == 0,
{
    if d.len() > 0 {
        if let Ok(Some(s)) = r {
            if d.len() > 1 {
                assert(!f.accepts(d.drop_last()[0]));
            }
            assert(d =~= seq![s]);
        } else {
            assert(!f.accepts(d[0]));
        }
    }
}

/// A series seen through a filter set without filters produces exactly what
/// the series produces.
pub proof fn lemma_empty_filter_set_passes_through<'a, S: Sample<K>, K: SerieKey, It: SampleSerie<S>>(
    it: FilteredSerieIterator<'a, S, K, It>,
)
    requires
        it.filters().members().len() == 0,
    ensures
        it.produced() == it.inner().produced(),
{
    lemma_empty_filters_pass_all(it.inner().produced(), it.filters());
}

} // verus!

use crate::seq_facts::reversed;
use crate::source::{LoadError, SampleSerie};
use vstd::prelude::*;

verus! {

/// A series held in memory.
pub struct MemorySampleSerie<S> {
    samples: Vec<S>,
}

impl<S> MemorySampleSerie<S> {
    pub closed spec fn samples(&self) -> Seq<S> {
        self.samples@
    }

    pub fn new(samples: Vec<S>) -> (r: Self)
        ensures
            r.samples() == samples@,
    {
        MemorySampleSerie { samples }
    }

    pub fn nb_samples(&self) -> (r: usize)
        ensures
            r == self.samples().len(),
    {
        self.samples.len()
    }

    /// The sample at `index`.
    pub fn get(&self, index: usize) -> (r: &S)
        requires
            index < self.samples().len(),
        ensures
            *r == self.samples()[index as int],
    {
        &self.samples[index]
    }

    /// Reads `source` to its end and keeps what it produced.
    pub fn from_source<T: SampleSerie<S>>(source: &mut T) -> (r: Result<Self, LoadError>)
        ensures
            old(source).produced().len() <= final(source).produced().len(),
            final(source).produced().subrange(0, old(source).produced().len() as int) == old(source).produced(),
            old(source).valid() ==> final(source).valid(),
            r matches Ok(m) ==> old(source).produced() + m.samples() == final(source).produced()
                && final(source).at_end(),
    {
        let mut samples: Vec<S> = Vec::new();
        loop
            invariant
                old(source).produced() + samples@ == source.produced(),
                old(source).valid() ==> source.valid(),
            decreases source.pending_parts(), source.pending_items(),
        {
            match source.next() {
                Ok(Some(s)) => {
                    samples.push(s);
                    assert(old(source).produced() + samples@ == source.produced());
                },
                Ok(None) => {
                    assert(source.produced().subrange(0, old(source).produced().len() as int) =~= old(source).produced());
                    return Ok(MemorySampleSerie { samples });
                },
                Err(e) => {
                    assert(source.produced().subrange(0, old(source).produced().len() as int) =~= old(source).produced());
                    return Err(e);
                },
            }
        }
    }

    /// The samples, in order.
    pub fn into_samples(self) -> (r: Vec<S>)
        ensures
            r@ == self.samples(),
    {
        self.samples
    }

    /// Iterates over the samples in order, consuming the series.
    pub fn into_iter(self) -> (r: MemorySampleSerieIntoIterator<S>)
        ensures
            r.remaining() == self.samples(),
            r.origin() == self.samples(),
            r.produced() == Seq::<S>::empty(),
            r.wf(),
    {
        MemorySampleSerieIntoIterator::new(self.samples)
    }

    /// Iterates over references to the samples, in order.
    pub fn iter(&self) -> (r: MemorySampleSerieIterator<'_, S>)
        ensures
            r.serie() == *self,
            r.index() == 0,
    {
        MemorySampleSerieIterator::new(self)
    }
}

/// A cursor over the samples of a series held in memory; it can start over.
pub struct MemorySampleSerieIterator<'a, S> {
    samples: &'a MemorySampleSerie<S>,
    index: usize,
}

impl<'a, S> MemorySampleSerieIterator<'a, S> {
    pub closed spec fn serie(&self) -> MemorySampleSerie<S> {
        *self.samples
    }

    pub closed spec fn index(&self) -> nat {
        self.index as nat
    }

    pub open spec fn wf(&self) -> bool {
        self.index() <= self.serie().samples().len()
    }

    pub fn new(samples: &'a MemorySampleSerie<S>) -> (r: Self)
        ensures
            r.serie() == *samples,
            r.index() == 0,
            r.wf(),
    {
        MemorySampleSerieIterator { samples, index: 0 }
    }

    /// The number of samples left.
    pub fn len(&self) -> (r: usize)
        requires
            self.wf(),
        ensures
            r == self.serie().samples().len() - self.index(),
    {
        self.samples.samples.len() - self.index
    }

    pub fn reset(&mut self)
        ensures
            final(self).index() == 0,
            final(self).serie() == old(self).serie(),
            final(self).wf(),
    {
        self.index = 0;
    }

    pub fn next(&mut self) -> (r: Option<&'a S>)
        requires
            old(self).wf(),
        ensures
            final(self).wf(),
            final(self).serie() == old(self).serie(),
            old(self).index() < old(self).serie().samples().len() ==> r == Some(
                &old(self).serie().samples()[old(self).index() as int],
            ) && final(self).index() == old(self).index() + 1,
            old(self).index() == old(self).serie().samples().len() ==> r is None && final(self).index()
                == old(self).index(),
    {
        if self.index < self.samples.samples.len() {
            let r = &self.samples.samples[self.index];
            self.index = self.index + 1;
            Some(r)
        } else {
            None
        }
    }
}

/// Takes the samples out of a series held in memory, front first.
pub struct MemorySampleSerieIntoIterator<S> {
    /// The samples still to come, last first.
    rest: Vec<S>,
    taken: Ghost<Seq<S>>,
    origin: Ghost<Seq<S>>,
}

impl<S> MemorySampleSerieIntoIterator<S> {
    /// The samples of the series the iterator was made from.
    pub closed spec fn origin(&self) -> Seq<S> {
        self.origin@
    }

    /// What was taken and what remains make up the series.
    pub open spec fn wf(&self) -> bool {
        self.produced() + self.remaining() == self.origin()
    }

    /// The samples still to come, in order.
    pub closed spec fn remaining(&self) -> Seq<S> {
        Seq::new(self.rest@.len(), |i: int| self.rest@[self.rest@.len() - 1 - i])
    }

    fn new(samples: Vec<S>) -> (r: Self)
        ensures
            r.remaining() == samples@,
            r.origin() == samples@,
            r.produced() == Seq::<S>::empty(),
            r.wf(),
    {
        let ghost input = samples@;
        let rest = reversed(samples);
        let r = MemorySampleSerieIntoIterator { rest, taken: Ghost(Seq::empty()), origin: Ghost(input) };
        assert(r.remaining() =~= input);
        assert(r.produced() + r.remaining() =~= input);
        r
    }

    /// The number of samples left.
    pub fn nb_samples(&self) -> (r: usize)
        ensures
            r == self.remaining().len(),
    {
        self.rest.len()
    }
}

impl<S> SampleSerie<S> for MemorySampleSerieIntoIterator<S> {
    closed spec fn produced(&self) -> Seq<S> {
        self.taken@
    }

    closed spec fn pending_parts(&self) -> nat {
        0
    }

    closed spec fn pending_items(&self) -> nat {
        self.rest@.len()
    }

    closed spec fn at_end(&self) -> bool {
        self.rest@.len() == 0
    }

    closed spec fn valid(&self) -> bool {
        self.wf()
    }

    fn next(&mut self) -> (r: Result<Option<S>, LoadError>)
        ensures
            match r {
                Ok(Some(s)) => old(self).remaining().len() > 0 && s == old(self).remaining()[0]
                    && final(self).remaining() == old(self).remaining().drop_first(),
                Ok(None) => old(self).remaining().len() == 0,
                Err(_) => false,
            },
            final(self).origin() == old(self).origin(),
            old(self).wf() ==> final(self).wf(),
    {
        match self.rest.pop() {
            Some(s) => {
                self.taken = Ghost(self.taken@.push(s));
                assert(self.remaining() =~= old(self).remaining().drop_first());
                proof {
                    if old(self).wf() {
                        assert(self.produced() + self.remaining() =~= old(self).produced() + old(self).remaining());
                    }
                }
                Ok(Some(s))
            },
            None => Ok(None),
        }
    }
}

/// Reading a series into memory and then reading the memory copy to its end
/// gives the samples in the order the series produced them: `produced` is what
/// a fresh series produced while `MemorySampleSerie::from_source` read it, and
/// `it` is an iterator over the copy that reports its end.
pub proof fn lemma_round_trip<S>(
    produced: Seq<S>,
    copy: MemorySampleSerie<S>,
    it: MemorySampleSerieIntoIterator<S>,
)
    requires
        Seq::<S>::empty() + copy.samples() == produced,
        it.origin() == copy.samples(),
        it.wf(),
        it.remaining().len() == 0,
    ensures
        it.produced() == produced,
{
    assert(Seq::<S>::empty() + copy.samples() =~= copy.samples());
    assert(it.produced() + it.remaining() =~= it.produced());
}

} // verus!

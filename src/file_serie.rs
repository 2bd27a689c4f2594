use crate::sample::{FileSample, SerieKey};
use crate::memory_serie::MemorySampleSerie;
use crate::seq_facts::reversed;
use crate::source::{LoadError, Resetable, SampleSerie};
use core::marker::PhantomData;
use vstd::prelude::*;

verus! {

/// A copy of a list of paths.
pub fn copy_paths(paths: &Vec<String>) -> (r: Vec<String>)
    ensures
        r@.len() == paths@.len(),
        forall|i: int| 0 <= i < paths@.len() ==> #[trigger] r@[i]@ == paths@[i]@,
{
    let mut r: Vec<String> = Vec::new();
    let mut i: usize = 0;
    while i < paths.len()
        invariant
            i <= paths.len(),
            r@.len() == i,
            forall|j: int| 0 <= j < i ==> #[trigger] r@[j]@ == paths@[j]@,
        decreases paths.len() - i,
    {
        r.push(paths[i].clone());
        i = i + 1;
    }
    r
}

/// A series stored in files, one batch of samples per file.
pub struct FileSampleSerie<S, K> {
    paths: Vec<String>,
    _key: PhantomData<K>,
    _sample: PhantomData<S>,
}

impl<S: FileSample<K>, K: SerieKey> FileSampleSerie<S, K> {
    /// The files, in reading order.
    pub closed spec fn paths(&self) -> Seq<String> {
        self.paths@
    }

    pub fn new(paths: Vec<String>) -> (r: Self)
        ensures
            r.paths() == paths@,
    {
        FileSampleSerie { paths, _key: PhantomData, _sample: PhantomData }
    }

    pub fn nb_files(&self) -> (r: usize)
        ensures
            r == self.paths().len(),
    {
        self.paths.len()
    }

    /// Reads the samples of the files in order.
    pub fn into_iter(&self) -> (r: FileSampleSerieIntoIterator<S, K>)
        ensures
            r.paths().len() == self.paths().len(),
            forall|i: int| 0 <= i < self.paths().len() ==> #[trigger] r.paths()[i]@ == self.paths()[i]@,
            r.produced() == Seq::<S>::empty(),
            r.loaded().len() == 0,
            r.wf(),
    {
        FileSampleSerieIntoIterator::new(copy_paths(&self.paths))
    }
}

/// The batches joined in order.
pub open spec fn concat_batches<S>(batches: Seq<Seq<S>>) -> Seq<S>
    decreases batches.len(),
{
    if batches.len() == 0 {
        Seq::empty()
    } else {
        concat_batches(batches.drop_last()) + batches.last()
    }
}

/// Reads the samples of a list of files: each file is loaded when the
/// samples of the one before are used up.
pub struct FileSampleSerieIntoIterator<S, K> {
    paths: Vec<String>,
    next_index: usize,
    /// The samples of the current file still to come, last first.
    current_sample: Vec<S>,
    taken: Ghost<Seq<S>>,
    /// The batch of each file loaded so far, in path order.
    batches: Ghost<Seq<Seq<S>>>,
    _key: PhantomData<K>,
}

impl<S: FileSample<K>, K: SerieKey> FileSampleSerieIntoIterator<S, K> {
    pub closed spec fn paths(&self) -> Seq<String> {
        self.paths@
    }

    /// The number of files loaded so far.
    pub closed spec fn files_loaded(&self) -> nat {
        self.next_index as nat
    }

    /// The batches that the files loaded so far gave, in path order: batch
    /// `i` is what loading path `i` returned.
    pub closed spec fn loaded(&self) -> Seq<Seq<S>> {
        self.batches@
    }

    /// The samples of the current batch still to come, in order.
    pub closed spec fn buffered(&self) -> Seq<S> {
        Seq::new(self.current_sample@.len(), |i: int| self.current_sample@[self.current_sample@.len() - 1 - i])
    }

    /// One batch per file loaded, and what was produced followed by what is
    /// buffered is the loaded batches joined in path order.
    pub open spec fn wf(&self) -> bool {
        &&& self.files_loaded() <= self.paths().len()
        &&& self.loaded().len() == self.files_loaded()
        &&& self.produced() + self.buffered() == concat_batches(self.loaded())
    }

    pub fn new(paths: Vec<String>) -> (r: Self)
        ensures
            r.paths() == paths@,
            r.files_loaded() == 0,
            r.loaded().len() == 0,
            r.produced() == Seq::<S>::empty(),
            r.wf(),
    {
        let r = FileSampleSerieIntoIterator {
            paths,
            next_index: 0,
            current_sample: Vec::new(),
            taken: Ghost(Seq::empty()),
            batches: Ghost(Seq::empty()),
            _key: PhantomData,
        };
        assert(r.produced() + r.buffered() =~= concat_batches(r.loaded()));
        r
    }

    pub fn nb_files(&self) -> (r: usize)
        ensures
            r == self.paths().len(),
    {
        self.paths.len()
    }
}

impl<S: FileSample<K>, K: SerieKey> SampleSerie<S> for FileSampleSerieIntoIterator<S, K> {
    closed spec fn produced(&self) -> Seq<S> {
        self.taken@
    }

    closed spec fn pending_parts(&self) -> nat {
        if self.next_index <= self.paths@.len() {
            (self.paths@.len() - self.next_index) as nat
        } else {
            0
        }
    }

    closed spec fn pending_items(&self) -> nat {
        self.current_sample@.len()
    }

    closed spec fn valid(&self) -> bool {
        self.wf()
    }

    closed spec fn at_end(&self) -> bool {
        self.next_index >= self.paths@.len() && self.current_sample@.len() == 0
    }

    /// The next sample: the next one buffered, or else the first of the next
    /// file with samples, loading files in path order. A file that cannot be
    /// read stops the series with an error that names it, and is tried again
    /// on the next call.
    fn next(&mut self) -> (r: Result<Option<S>, LoadError>)
        ensures
            final(self).paths() == old(self).paths(),
            old(self).wf() ==> final(self).wf(),
            final(self).loaded().len() >= old(self).loaded().len(),
            final(self).loaded().subrange(0, old(self).loaded().len() as int) == old(self).loaded(),
            old(self).buffered().len() > 0 ==> r == Ok::<Option<S>, LoadError>(Some(old(self).buffered()[0]))
                && final(self).buffered() == old(self).buffered().drop_first() && final(self).loaded()
                == old(self).loaded(),
            old(self).wf() ==> match r {
                Ok(Some(s)) => s == concat_batches(final(self).loaded())[old(self).produced().len() as int],
                Ok(None) => final(self).produced() == concat_batches(final(self).loaded())
                    && final(self).loaded().len() == final(self).paths().len(),
                Err(e) => old(self).buffered().len() == 0 && e.part == final(self).files_loaded() && e.part
                    < final(self).paths().len(),
            },
    {
        loop
            invariant
                self.paths() == old(self).paths(),
                self.produced() == old(self).produced(),
                old(self).wf() ==> self.wf(),
                self.files_loaded() >= old(self).files_loaded(),
                self.loaded().len() >= old(self).loaded().len(),
                self.loaded().subrange(0, old(self).loaded().len() as int) == old(self).loaded(),
                old(self).current_sample@.len() > 0 ==> self.current_sample@ == old(self).current_sample@
                    && self.loaded() == old(self).loaded(),
                self.pending_parts() < old(self).pending_parts() || (self.pending_parts()
                    == old(self).pending_parts() && self.pending_items() == old(self).pending_items()),
            decreases self.pending_parts(),
        {
            if self.current_sample.len() > 0 {
                let ghost before = self.buffered();
                let s = self.current_sample.pop().unwrap();
                self.taken = Ghost(self.taken@.push(s));
                proof {
                    assert(s == before[0]);
                    assert(self.buffered() =~= before.drop_first());
                    assert(self.produced() + self.buffered() =~= old(self).produced() + before);
                    if old(self).wf() {
                        assert((self.produced() + self.buffered())[old(self).produced().len() as int] == s);
                    }
                }
                return Ok(Some(s));
            }
            if self.next_index >= self.paths.len() {
                proof {
                    assert(self.produced() + self.buffered() =~= self.produced());
                }
                return Ok(None);
            }
            match S::new_from_file_path(self.paths[self.next_index].as_str()) {
                Err(message) => {
                    return Err(LoadError { part: self.next_index, message });
                },
                Ok(batch) => {
                    let ghost before = self.loaded();
                    proof {
                        assert(self.produced() + self.buffered() =~= self.produced());
                    }
                    self.batches = Ghost(self.batches@.push(batch@));
                    self.current_sample = reversed(batch);
                    self.next_index = self.next_index + 1;
                    proof {
                        assert(self.buffered() =~= batch@);
                        assert(self.loaded().drop_last() =~= before);
                        assert(self.loaded().subrange(0, old(self).loaded().len() as int) =~= before.subrange(
                            0,
                            old(self).loaded().len() as int,
                        ));
                    }
                },
            }
        }
    }
}

impl<S: FileSample<K>, K: SerieKey> Resetable<S> for FileSampleSerieIntoIterator<S, K> {
    fn reset(&mut self)
        ensures
            final(self).paths() == old(self).paths(),
            final(self).files_loaded() == 0,
            final(self).loaded().len() == 0,
            final(self).wf(),
    {
        self.next_index = 0;
        self.current_sample = Vec::new();
        self.taken = Ghost(Seq::empty());
        self.batches = Ghost(Seq::empty());
        assert(self.produced() + self.buffered() =~= concat_batches(self.loaded()));
    }
}

/// A file series read to its end has produced the batches of all its files
/// joined in path order, one batch per path.
pub proof fn lemma_file_series_order<S: FileSample<K>, K: SerieKey>(it: FileSampleSerieIntoIterator<S, K>)
    requires
        it.wf(),
        it.at_end(),
    ensures
        it.produced() == concat_batches(it.loaded()),
        it.loaded().len() == it.paths().len(),
{
    assert(it.buffered().len() == 0);
    assert(it.produced() + it.buffered() =~= it.produced());
}

/// The file series is valid exactly when it is well formed.
pub proof fn lemma_file_valid_is_wf<S: FileSample<K>, K: SerieKey>(it: FileSampleSerieIntoIterator<S, K>)
    ensures
        it.valid() == it.wf(),
        it.at_end() ==> it.buffered().len() == 0 && it.files_loaded() >= it.paths().len(),
{
}

/// Reading a fresh file series into memory gives the batches of all its
/// files joined in path order: `before` is the series as
/// `MemorySampleSerie::from_source` got it, `after` as it left it, and
/// `copy` what it returned.
pub proof fn lemma_file_to_memory<S: FileSample<K>, K: SerieKey>(
    before: FileSampleSerieIntoIterator<S, K>,
    after: FileSampleSerieIntoIterator<S, K>,
    copy: MemorySampleSerie<S>,
)
    requires
        before.wf(),
        before.produced().len() == 0,
        after.valid(),
        after.at_end(),
        before.produced() + copy.samples() == after.produced(),
    ensures
        copy.samples() == concat_batches(after.loaded()),
        after.loaded().len() == after.paths().len(),
{
    lemma_file_series_order(after);
    assert(before.produced() + copy.samples() =~= copy.samples());
}

} // verus!

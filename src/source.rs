use vstd::prelude::*;

verus! {

/// Why a series could not produce its next sample: the partition (file or
/// query) that failed, and a message.
#[derive(Clone, Debug)]
pub struct LoadError {
    pub part: usize,
    pub message: String,
}

/// A series that produces samples one at a time, in order.
pub trait SampleSerie<S>: Sized {
    /// The samples produced so far (since the start or the last reset).
    spec fn produced(&self) -> Seq<S>;

    /// Partitions not yet opened; with `pending_items`, a measure that drops
    /// with each sample produced.
    spec fn pending_parts(&self) -> nat;

    /// Samples waiting in the current partition.
    spec fn pending_items(&self) -> nat;

    /// Whether the series has reported its end.
    spec fn at_end(&self) -> bool;

    /// The series' own consistency, which every call keeps.
    spec fn valid(&self) -> bool;

    /// The next sample, `None` at the end, or the error that stopped the series.
    fn next(&mut self) -> (r: Result<Option<S>, LoadError>)
        ensures
            old(self).valid() ==> final(self).valid(),
            match r {
                Ok(Some(s)) => {
                    &&& final(self).produced() == old(self).produced().push(s)
                    &&& progressed(old(self).pending_parts(), old(self).pending_items(),
                        final(self).pending_parts(), final(self).pending_items())
                },
                Ok(None) => final(self).produced() == old(self).produced() && final(self).at_end(),
                Err(_) => final(self).produced() == old(self).produced(),
            },
    ;
}

/// The measure `(parts, items)` went down, in lexicographic order.
pub open spec fn progressed(parts: nat, items: nat, parts2: nat, items2: nat) -> bool {
    parts2 < parts || (parts2 == parts && items2 < items)
}

/// A series that can start over.
pub trait Resetable<S>: SampleSerie<S> {
    fn reset(&mut self)
        ensures
            final(self).produced() == Seq::<S>::empty(),
            final(self).valid(),
    ;
}

} // verus!

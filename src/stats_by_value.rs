use crate::grouping::{add_to_groups, all_items, groups_view, grouped, lemma_add_to_group_all, legends_distinct};
use crate::memory_serie::MemorySampleSerie;
use crate::sample::{Sample, SerieKey};
use crate::seq_facts::reversed;
use crate::source::{LoadError, SampleSerie};
use crate::stats::StatsSerie;
use vstd::prelude::*;
use vstd::string::StringExecFns;

verus! {

/// The character of a decimal digit.
pub open spec fn digit_char(d: int) -> char {
    if d == 0 {
        '0'
    } else if d == 1 {
        '1'
    } else if d == 2 {
        '2'
    } else if d == 3 {
        '3'
    } else if d == 4 {
        '4'
    } else if d == 5 {
        '5'
    } else if d == 6 {
        '6'
    } else if d == 7 {
        '7'
    } else if d == 8 {
        '8'
    } else {
        '9'
    }
}

/// The decimal digits of `n`, most significant first, without leading zeros.
pub open spec fn digits(n: nat) -> Seq<char>
    decreases n,
{
    if n < 10 {
        seq![digit_char(n as int)]
    } else {
        digits(n / 10).push(digit_char((n % 10) as int))
    }
}

/// `v` written in decimal, with a minus sign when it is negative.
pub open spec fn decimal(v: int) -> Seq<char> {
    if v < 0 {
        seq!['-'] + digits((-v) as nat)
    } else {
        digits(v as nat)
    }
}

fn digit_str(d: u64) -> (r: &'static str)
    requires
        d < 10,
    ensures
        r@ == seq![digit_char(d as int)],
{
    proof {
        reveal_strlit("0");
        reveal_strlit("1");
        reveal_strlit("2");
        reveal_strlit("3");
        reveal_strlit("4");
        reveal_strlit("5");
        reveal_strlit("6");
        reveal_strlit("7");
        reveal_strlit("8");
        reveal_strlit("9");
    }
    if d == 0 {
        "0"
    } else if d == 1 {
        "1"
    } else if d == 2 {
        "2"
    } else if d == 3 {
        "3"
    } else if d == 4 {
        "4"
    } else if d == 5 {
        "5"
    } else if d == 6 {
        "6"
    } else if d == 7 {
        "7"
    } else if d == 8 {
        "8"
    } else {
        "9"
    }
}

fn push_digits(s: &mut String, n: u64)
    ensures
        final(s)@ == old(s)@ + digits(n as nat),
    decreases n,
{
    if n >= 10 {
        push_digits(s, n / 10);
    }
    s.append(digit_str(n % 10));
    proof {
        if n >= 10 {
            assert(old(s)@ + digits(n as nat) =~= old(s)@ + digits((n / 10) as nat) + seq![digit_char((n % 10) as int)]);
        } else {
            assert(s@ =~= old(s)@ + digits(n as nat));
        }
    }
}

/// `v` written in decimal.
pub fn decimal_string(v: i32) -> (r: String)
    ensures
        r@ == decimal(v as int),
{
    let mut s = String::new();
    if v < 0 {
        proof {
            reveal_strlit("-");
        }
        s.append("-");
        push_digits(&mut s, (-(v as i64)) as u64);
    } else {
        push_digits(&mut s, v as u64);
    }
    assert(s@ =~= decimal(v as int));
    s
}

/// The value samples are sorted by: the text of a text key, the number of a
/// numeric key written in decimal.
pub open spec fn sort_text<K: SerieKey, S: Sample<K>>(s: S, key: K) -> Seq<char> {
    if key.numeric() {
        decimal(s.number_at(key) as int)
    } else {
        s.text_at(key)@
    }
}

/// Each sample's index, labelled with its sort value.
pub open spec fn labelled_indices<K: SerieKey, S: Sample<K>>(samples: Seq<S>, key: K) -> Seq<(Seq<char>, usize)> {
    Seq::new(samples.len(), |i: int| (sort_text(samples[i], key), i as usize))
}

/// The values of key `k` in the samples at `indices`, in order.
pub open spec fn column<K: SerieKey, S: Sample<K>>(samples: Seq<S>, indices: Seq<usize>, k: K) -> Seq<i32> {
    indices.map_values(|i: usize| samples[i as int].number_at(k))
}

/// `r` holds, for each sort value of `samples` in the order it first
/// appears, the statistics of each key of `keys` over the samples with that
/// sort value.
pub open spec fn is_stats_by_value<K: SerieKey, S: Sample<K>>(
    samples: Seq<S>,
    keys: Seq<K>,
    sort_key: K,
    r: Seq<(String, Vec<(K, StatsSerie)>)>,
) -> bool {
    let g = grouped(labelled_indices(samples, sort_key));
    &&& r.len() == g.len()
    &&& forall|i: int| 0 <= i < r.len() ==> {
        &&& (#[trigger] r[i]).0@ == g[i].0
        &&& r[i].1.len() == keys.len()
        &&& forall|j: int| 0 <= j < keys.len() ==> {
            &&& (#[trigger] r[i].1@[j]).0 == keys[j]
            &&& r[i].1@[j].1.wf()
            &&& r[i].1@[j].1.values() == column(samples, g[i].1, keys[j])
        }
    }
}

fn column_values<K: SerieKey, S: Sample<K>>(samples: &Vec<S>, indices: &Vec<usize>, k: &K) -> (r: Vec<i32>)
    requires
        k.numeric(),
        forall|j: int| 0 <= j < indices.len() ==> (#[trigger] indices@[j]) < samples.len(),
    ensures
        r@ == column(samples@, indices@, *k),
{
    let mut r: Vec<i32> = Vec::new();
    let mut j: usize = 0;
    while j < indices.len()
        invariant
            j <= indices.len(),
            k.numeric(),
            forall|j: int| 0 <= j < indices.len() ==> (#[trigger] indices@[j]) < samples.len(),
            r@ == column(samples@, indices@.subrange(0, j as int), *k),
        decreases indices.len() - j,
    {
        r.push(samples[indices[j]].get_numeric_value(k));
        j = j + 1;
        assert(column(samples@, indices@.subrange(0, j as int), *k) =~= column(
            samples@,
            indices@.subrange(0, j - 1),
            *k,
        ).push(samples@[indices@[j - 1] as int].number_at(*k)));
    }
    assert(indices@.subrange(0, indices.len() as int) =~= indices@);
    r
}

/// Statistics of the keys `stats_serie_keys`, grouped by the value each
/// sample has for `sort_value_key`: reads `source` to its end, then gives
/// each sort value, in the order it first appears, with the statistics of
/// each key over the samples that have it. An error of the source is handed on.
pub fn collect_stats_sorted_by_unique_values<S: Sample<K>, K: SerieKey, T: SampleSerie<S>>(
    source: &mut T,
    stats_serie_keys: &Vec<K>,
    sort_value_key: &K,
) -> (r: Result<Vec<(String, Vec<(K, StatsSerie)>)>, LoadError>)
    requires
        forall|j: int| 0 <= j < stats_serie_keys.len() ==> (#[trigger] stats_serie_keys@[j]).numeric(),
    ensures
        old(source).produced().len() <= final(source).produced().len(),
        final(source).produced().subrange(0, old(source).produced().len() as int) == old(source).produced(),
        r matches Ok(_) ==> final(source).at_end(),
        old(source).valid() ==> final(source).valid(),
        r matches Ok(v) ==> is_stats_by_value(
            final(source).produced().subrange(old(source).produced().len() as int, final(source).produced().len() as int),
            stats_serie_keys@,
            *sort_value_key,
            v@,
        ),
{
    let memory = match MemorySampleSerie::from_source(source) {
        Ok(m) => m,
        Err(e) => {
            return Err(e);
        },
    };
    assert(memory.samples() =~= source.produced().subrange(old(source).produced().len() as int, source.produced().len() as int));
    let n = memory.nb_samples();
    let samples = memory.into_samples();
    let ghost labels = labelled_indices(samples@, *sort_value_key);
    let mut groups: Vec<(String, Vec<usize>)> = Vec::new();
    let mut i: usize = 0;
    while i < n
        invariant
            n == samples.len(),
            i <= n,
            labels == labelled_indices(samples@, *sort_value_key),
            groups_view(groups@) == grouped(labels.subrange(0, i as int)),
            legends_distinct(groups_view(groups@)),
            all_items(groups_view(groups@), |x: usize| x < i),
        decreases n - i,
    {
        let label = if sort_value_key.is_numeric() {
            decimal_string(samples[i].get_numeric_value(sort_value_key))
        } else {
            samples[i].get_string_value(sort_value_key)
        };
        let ghost before = groups@;
        proof {
            let gb = groups_view(before);
            assert forall|x: int, y: int| 0 <= x < gb.len() && 0 <= y < gb[x].1.len() implies #[trigger] gb[x].1[y] < i + 1 by {
                assert(all_items(gb, |x: usize| x < i));
            }
        }
        add_to_groups(&mut groups, label, i);
        proof {
            assert(labels.subrange(0, i + 1).drop_last() =~= labels.subrange(0, i as int));
            assert(labels[i as int] == (label@, i));
            let gb = groups_view(before);
            lemma_add_to_group_all(gb, label@, i, |x: usize| x < i + 1);
        }
        i = i + 1;
    }
    assert(labels.subrange(0, n as int) =~= labels);
    let ghost g = groups_view(groups@);
    let ng = groups.len();
    let mut rest = reversed(groups);
    let mut out: Vec<(String, Vec<(K, StatsSerie)>)> = Vec::new();
    while rest.len() > 0
        invariant
            rest.len() + out.len() == ng,
            ng == g.len(),
            n == samples.len(),
            g == grouped(labelled_indices(samples@, *sort_value_key)),
            forall|j: int| 0 <= j < rest.len() ==> (#[trigger] rest@[j]).0@ == g[ng - 1 - j].0 && rest@[j].1@ == g[ng
                - 1 - j].1,
            all_items(g, |x: usize| x < n),
            forall|j: int| 0 <= j < stats_serie_keys.len() ==> (#[trigger] stats_serie_keys@[j]).numeric(),
            forall|i: int| 0 <= i < out.len() ==> {
                &&& (#[trigger] out@[i]).0@ == g[i].0
                &&& out@[i].1.len() == stats_serie_keys.len()
                &&& forall|j: int| 0 <= j < stats_serie_keys.len() ==> {
                    &&& (#[trigger] out@[i].1@[j]).0 == stats_serie_keys@[j]
                    &&& out@[i].1@[j].1.wf()
                    &&& out@[i].1@[j].1.values() == column(samples@, g[i].1, stats_serie_keys@[j])
                }
            },
        decreases rest.len(),
    {
        let ghost k = out.len() as int;
        let (label, indices) = rest.pop().unwrap();
        assert(indices@ == g[k].1);
        assert forall|b: int| 0 <= b < indices.len() implies (#[trigger] indices@[b]) < samples.len() by {
            assert(g[k].1[b] == indices@[b]);
        }
        let mut per_key: Vec<(K, StatsSerie)> = Vec::new();
        let mut j: usize = 0;
        while j < stats_serie_keys.len()
            invariant
                j <= stats_serie_keys.len(),
                indices@ == g[k].1,
                forall|b: int| 0 <= b < indices.len() ==> (#[trigger] indices@[b]) < samples.len(),
                forall|j: int| 0 <= j < stats_serie_keys.len() ==> (#[trigger] stats_serie_keys@[j]).numeric(),
                per_key.len() == j,
                forall|jj: int| 0 <= jj < j ==> {
                    &&& (#[trigger] per_key@[jj]).0 == stats_serie_keys@[jj]
                    &&& per_key@[jj].1.wf()
                    &&& per_key@[jj].1.values() == column(samples@, g[k].1, stats_serie_keys@[jj])
                },
            decreases stats_serie_keys.len() - j,
        {
            let key = stats_serie_keys[j];
            let values = column_values(&samples, &indices, &key);
            per_key.push((key, StatsSerie::new(&values)));
            j = j + 1;
        }
        out.push((label, per_key));
    }
    Ok(out)
}

} // verus!

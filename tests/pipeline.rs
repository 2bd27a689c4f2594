use plot_helper::file_serie::{FileSampleSerie, FileSampleSerieIntoIterator};
use plot_helper::filtered_serie::{FilteredSerie, FilteredSerieIterator};
use plot_helper::filtering::{Filter, Filters, NumberTest, TextTest};
use plot_helper::layout::Layout;
use plot_helper::memory_serie::MemorySampleSerie;
use plot_helper::outliers::remove_outliers;
use plot_helper::plot_data::{aggregate, compress_data_serie, Grid, PlotData, PlotPoint, GRID_HEIGHT, GRID_WIDTH};
use plot_helper::plottable::{BoundingBox, FilePlottable, PlottableIterator, PointSource, Rangeable};
use plot_helper::sample::{FileSample, Sample, SerieKey};
use plot_helper::source::{Resetable, SampleSerie};
use plot_helper::stats::{Fraction, MetricName, MetricValue, StatsSerie};
use plot_helper::stats_by_value::decimal_string;
use plot_helper::plottable::FilePlottableSerie;

#[derive(Clone, Copy, Debug, PartialEq, Eq)]
enum Field {
    Time,
    Value,
    Group,
}

impl SerieKey for Field {
    fn numeric(&self) -> bool {
        self.is_numeric()
    }

    fn is_numeric(&self) -> bool {
        !matches!(self, Field::Group)
    }

    fn is_string(&self) -> bool {
        matches!(self, Field::Group)
    }

    fn same_key(&self, other: &Self) -> bool {
        self == other
    }

    fn get_display_name(&self) -> String {
        format!("{:?}", self)
    }
}

#[derive(Clone, Debug, PartialEq)]
struct Record {
    time: i32,
    value: i32,
    group: String,
}

fn rec(time: i32, value: i32, group: &str) -> Record {
    Record { time, value, group: group.to_string() }
}

impl Sample<Field> for Record {
    fn number_at(&self, key: Field) -> i32 {
        self.get_numeric_value(&key)
    }

    fn text_at(&self, key: Field) -> String {
        self.get_string_value(&key)
    }

    fn get_numeric_value(&self, key: &Field) -> i32 {
        match key {
            Field::Time => self.time,
            Field::Value => self.value,
            Field::Group => 0,
        }
    }

    fn get_string_value(&self, key: &Field) -> String {
        match key {
            Field::Group => self.group.clone(),
            _ => String::new(),
        }
    }
}

/// Files are named after their contents: "t:v:g;t:v:g"; "bad" cannot be read.
impl FileSample<Field> for Record {
    fn new_from_file_path(file_path: &str) -> Result<Vec<Self>, String> {
        if file_path == "bad" {
            return Err("unreadable".to_string());
        }
        if file_path.is_empty() {
            return Ok(Vec::new());
        }
        let mut out = Vec::new();
        for part in file_path.split(';') {
            let fields: Vec<&str> = part.split(':').collect();
            out.push(rec(fields[0].parse().unwrap(), fields[1].parse().unwrap(), fields[2]));
        }
        Ok(out)
    }
}

fn value(f: &Fraction) -> f64 {
    f.num as f64 / f.den as f64
}

fn drain<T: SampleSerie<Record>>(s: &mut T) -> Vec<Record> {
    let mut out = Vec::new();
    while let Some(r) = s.next().unwrap() {
        out.push(r);
    }
    out
}

#[test]
fn stats_on_empty_input() {
    let s = StatsSerie::new(&Vec::new());
    assert!(s.get_stats(MetricName::Mean).value.is_nan());
    assert!(s.get_stats(MetricName::Median).value.is_nan());
    assert!(s.get_stats(MetricName::Additive).value.is_nan());
    let count = s.get_stats(MetricName::NbValues);
    assert_eq!(count.name, MetricName::NbValues);
    assert_eq!(value(&count.value), 0.0);
}

#[test]
fn stats_of_values() {
    let s = StatsSerie::new(&vec![3, 1, 2, 4]);
    assert_eq!(value(&s.get_stats(MetricName::Mean).value), 2.5);
    assert_eq!(value(&s.get_stats(MetricName::Median).value), 2.5);
    assert_eq!(value(&s.get_stats(MetricName::Additive).value), 10.0);
    assert_eq!(value(&s.get_stats(MetricName::NbValues).value), 4.0);
    let odd = StatsSerie::new(&vec![7, -2, 5]);
    assert_eq!(value(&odd.get_stats(MetricName::Median).value), 5.0);
    assert_eq!(value(&odd.get_stats(MetricName::Mean).value), 10.0 / 3.0);
    assert_eq!(odd.get_serie(), &vec![7, -2, 5]);
}

#[test]
fn stats_sum_of_large_values() {
    let s = StatsSerie::new(&vec![i32::MAX, i32::MAX, i32::MIN]);
    assert_eq!(s.get_stats(MetricName::Additive).value.num, 2 * (i32::MAX as i128) + (i32::MIN as i128));
}

#[test]
fn metric_names_and_values() {
    assert_eq!(MetricName::Mean.get_name(), "mean");
    assert_eq!(MetricName::Median.get_name(), "median");
    assert_eq!(MetricName::Additive.get_name(), "additive");
    assert_eq!(MetricName::NbValues.get_name(), "nb_values");
    let v = MetricValue::nb_values(7);
    assert_eq!(v.name, MetricName::NbValues);
    assert_eq!(value(&v.value), 7.0);
    assert_eq!(MetricValue::mean(Fraction::whole(3)).name, MetricName::Mean);
}

#[test]
fn layout_counts_subplots() {
    let l = Layout::new(3, 2);
    assert_eq!(l.get_plotter_layout(), (2, 3));
    assert_eq!(l.get_nb_of_subplots(), 6);
}

#[test]
fn aggregation_count_same_x() {
    let r = aggregate(vec![(3, 17), (3, -4)], MetricName::NbValues);
    assert_eq!(r.len(), 1);
    assert_eq!(r[0].0, 3);
    assert_eq!(value(&r[0].1), 2.0);
}

#[test]
fn aggregation_mean() {
    let r = aggregate(vec![(1, 2), (2, 10), (1, 4)], MetricName::Mean);
    assert_eq!(r.len(), 2);
    assert_eq!((r[0].0, value(&r[0].1)), (1, 3.0));
    assert_eq!((r[1].0, value(&r[1].1)), (2, 10.0));
}

#[test]
fn aggregation_sorts_and_uses_median_and_sum() {
    let pts = vec![(5, 1), (-1, 8), (5, 3), (5, 10), (-1, 2)];
    let med = aggregate(pts.clone(), MetricName::Median);
    assert_eq!(med.iter().map(|p| (p.0, value(&p.1))).collect::<Vec<_>>(), vec![(-1, 5.0), (5, 3.0)]);
    let sum = aggregate(pts, MetricName::Additive);
    assert_eq!(sum.iter().map(|p| (p.0, value(&p.1))).collect::<Vec<_>>(), vec![(-1, 10.0), (5, 14.0)]);
    assert!(aggregate(Vec::new(), MetricName::Mean).is_empty());
}

#[test]
fn outliers_inverted_cdf() {
    let pts: Vec<(i32, i32)> = vec![(0, 1), (1, 2), (2, 3), (3, 4), (4, 100)];
    let kept = remove_outliers(pts);
    assert_eq!(kept, vec![(0, 1), (1, 2), (2, 3), (3, 4)]);
}

#[test]
fn outliers_keep_order_and_bounds_inclusive() {
    // sorted: -1 2 3 3 3 4 7 8; q1 = 2, q3 = 4, iqr = 2: bounds -1 and 7, both kept
    let pts: Vec<(u8, i32)> = vec![(0, 7), (1, 2), (2, 4), (3, -1), (4, 3), (5, 8), (6, 3), (7, 3)];
    let kept = remove_outliers(pts);
    assert_eq!(kept, vec![(0, 7), (1, 2), (2, 4), (3, -1), (4, 3), (6, 3), (7, 3)]);
    assert!(remove_outliers(Vec::<(u8, i32)>::new()).is_empty());
}

#[test]
fn outlier_removal_twice_is_once() {
    let pts: Vec<(i32, i32)> = vec![(0, 1), (1, 2), (2, 3), (3, 4), (4, 100)];
    let once = remove_outliers(pts);
    let twice = remove_outliers(once.clone());
    assert_eq!(once, twice);
}

#[test]
fn outlier_removal_twice_removes_more_when_bounds_move() {
    // first pass: q1 = 2, q3 = 12, bounds -13 and 27; second pass: q1 = 0, q3 = 4, bounds -6 and 10
    let pts: Vec<(i32, i32)> = vec![(0, 0), (1, 2), (2, 4), (3, 29), (4, 12)];
    let once = remove_outliers(pts);
    assert_eq!(once, vec![(0, 0), (1, 2), (2, 4), (4, 12)]);
    assert_eq!(remove_outliers(once), vec![(0, 0), (1, 2), (2, 4)]);
}

fn whole(points: &[(i32, i32)]) -> Vec<PlotPoint> {
    points.iter().map(|p| (p.0, Fraction::whole(p.1 as i128))).collect()
}

#[test]
fn compression_keeps_spread_series() {
    let b = BoundingBox { x_min: 0, x_max: 100, y_min: 0, y_max: 100 };
    let s = whole(&[(0, 0), (50, 50), (100, 100)]);
    let r = compress_data_serie(s, &Grid { bounds: b, width: GRID_WIDTH, height: GRID_HEIGHT });
    assert_eq!(r.len(), 3);
    assert_eq!(r[0].0, 0);
    assert_eq!(r[2].0, 100);
}

#[test]
fn compression_drops_points_in_taken_cells() {
    let b = BoundingBox { x_min: 0, x_max: 1_000_000, y_min: 0, y_max: 1_000_000 };
    let s = whole(&[(0, 0), (1, 1), (2, 0), (500_000, 500_000), (1_000_000, 1_000_000)]);
    let r = compress_data_serie(s, &Grid { bounds: b, width: GRID_WIDTH, height: GRID_HEIGHT });
    assert_eq!(r.iter().map(|p| p.0).collect::<Vec<_>>(), vec![0, 500_000, 1_000_000]);
    assert!(r.len() <= 5);
}

#[test]
fn filters_on_disjoint_keys_combine_as_and() {
    let f1 = Filters::new(vec![Filter::new_number(Field::Time, vec![NumberTest::AtLeast(10)])]);
    let f2 = Filters::new(vec![Filter::new_str(Field::Group, vec![TextTest::Equal("a".to_string())])]);
    let samples = vec![rec(5, 0, "a"), rec(15, 0, "a"), rec(15, 0, "b"), rec(5, 0, "b")];
    let expected: Vec<bool> = samples.iter().map(|s| f1.apply(s) && f2.apply(s)).collect();
    let both = f1.combine(f2);
    let got: Vec<bool> = samples.iter().map(|s| both.apply(s)).collect();
    assert_eq!(got, expected);
    assert_eq!(got, vec![false, true, false, false]);
}

#[test]
fn filters_on_same_key_combine_as_and_and_twice_is_once() {
    let a = Filter::new_number(Field::Value, vec![NumberTest::Above(0)]);
    let b = || Filter::new_number(Field::Value, vec![NumberTest::Below(10)]);
    let ab = a.combine(b());
    assert_eq!(ab.get_filter_number().len(), 2);
    let once = Filters::new(vec![Filter::new_number(Field::Value, vec![NumberTest::Above(0)]), b()]);
    let twice = Filters::new(vec![Filter::new_number(Field::Value, vec![NumberTest::Above(0)]), b(), b()]);
    for v in [-3, 0, 1, 9, 10, 20] {
        let s = rec(0, v, "x");
        assert_eq!(once.apply(&s), v > 0 && v < 10);
        assert_eq!(twice.apply(&s), once.apply(&s));
        assert_eq!(ab.apply(&s), once.apply(&s));
    }
}

#[test]
fn filter_identity_and_text_tests() {
    let all = Filter::new_number_identity(Field::Time);
    assert!(all.apply(&rec(-100, 0, "")));
    let any = Filter::new_str_identity(Field::Group);
    assert!(any.apply(&rec(0, 0, "zz")));
    let not_b = Filter::new_str(Field::Group, vec![TextTest::Different("b".to_string())]);
    assert!(not_b.apply(&rec(0, 0, "a")));
    assert!(!not_b.apply(&rec(0, 0, "b")));
    assert_eq!(*not_b.get_key(), Field::Group);
    assert_eq!(not_b.get_filter_str().len(), 1);
    let mut empty = Filters::empty();
    assert!(empty.apply(&rec(1, 1, "q")));
    empty.add_filter(Filter::new_number(Field::Time, vec![NumberTest::Equal(1)]));
    assert!(empty.apply(&rec(1, 1, "q")));
    assert!(!empty.apply(&rec(2, 1, "q")));
}

#[test]
fn empty_filter_set_passes_series_through() {
    let samples = vec![rec(1, 2, "a"), rec(3, 4, "b"), rec(5, 6, "a")];
    let filters = Filters::empty();
    let serie = FilteredSerie::new(MemorySampleSerie::new(samples.clone()).into_iter(), &filters);
    assert_eq!(serie.get_iter().nb_samples(), 3);
    let mut it = serie.into_iter();
    assert_eq!(drain(&mut it), samples);
}

#[test]
fn filtered_series_skips_rejected_samples() {
    let samples = vec![rec(1, 2, "a"), rec(3, 4, "b"), rec(5, 6, "a")];
    let filters = Filters::new(vec![Filter::new_str(Field::Group, vec![TextTest::Equal("a".to_string())])]);
    let mut it = FilteredSerieIterator::new(MemorySampleSerie::new(samples).into_iter(), &filters);
    assert_eq!(drain(&mut it), vec![rec(1, 2, "a"), rec(5, 6, "a")]);
}

#[test]
fn file_series_round_trip_through_memory() {
    let paths = vec!["1:2:a;3:4:b".to_string(), String::new(), "5:6:c".to_string()];
    let serie: FileSampleSerie<Record, Field> = FileSampleSerie::new(paths);
    assert_eq!(serie.nb_files(), 3);
    let direct = drain(&mut serie.into_iter());
    assert_eq!(direct, vec![rec(1, 2, "a"), rec(3, 4, "b"), rec(5, 6, "c")]);
    let mut source = serie.into_iter();
    let memory = MemorySampleSerie::from_source(&mut source).unwrap();
    assert_eq!(memory.nb_samples(), 3);
    let mut it = memory.into_iter();
    assert_eq!(drain(&mut it), direct);
}

#[test]
fn file_series_reports_unreadable_file_and_resets() {
    let mut it: FileSampleSerieIntoIterator<Record, Field> =
        FileSampleSerieIntoIterator::new(vec!["1:1:a".to_string(), "bad".to_string()]);
    assert_eq!(it.nb_files(), 2);
    assert_eq!(it.next().unwrap(), Some(rec(1, 1, "a")));
    let err = it.next().unwrap_err();
    assert_eq!(err.part, 1);
    assert_eq!(err.message, "unreadable");
    it.reset();
    assert_eq!(it.next().unwrap(), Some(rec(1, 1, "a")));
}

#[test]
fn memory_iterator_by_reference_resets() {
    let memory = MemorySampleSerie::new(vec![rec(1, 1, "a"), rec(2, 2, "b")]);
    let mut it = memory.iter();
    assert_eq!(it.len(), 2);
    assert_eq!(it.next(), Some(&rec(1, 1, "a")));
    assert_eq!(it.len(), 1);
    assert_eq!(it.next(), Some(&rec(2, 2, "b")));
    assert_eq!(it.next(), None);
    it.reset();
    assert_eq!(it.next(), Some(&rec(1, 1, "a")));
    assert_eq!(memory.get(1), &rec(2, 2, "b"));
}

fn points_of(samples: Vec<Record>, legend: Option<Field>, y: Option<Field>) -> Vec<(String, (i32, i32))> {
    let mut it = PlottableIterator::new(MemorySampleSerie::new(samples).into_iter(), (Field::Time, y), legend);
    let mut out = Vec::new();
    while let Some(p) = it.next().unwrap() {
        out.push(p);
    }
    out
}

#[test]
fn projection_uses_keys_and_defaults() {
    let samples = vec![rec(1, 5, "a"), rec(2, 7, "b")];
    assert_eq!(
        points_of(samples.clone(), Some(Field::Group), Some(Field::Value)),
        vec![("a".to_string(), (1, 5)), ("b".to_string(), (2, 7))]
    );
    assert_eq!(
        points_of(samples, None, None),
        vec![("All".to_string(), (1, 1)), ("All".to_string(), (2, 1))]
    );
}

#[test]
fn range_tracking() {
    let mut it = PlottableIterator::new(
        MemorySampleSerie::new(vec![rec(0, 0, "a"), rec(5, 10, "a")]).into_iter(),
        (Field::Time, Some(Field::Value)),
        None,
    );
    assert_eq!(it.get_range(), None);
    while it.next().unwrap().is_some() {}
    assert_eq!(it.get_range(), Some(BoundingBox { x_min: 0, x_max: 5, y_min: 0, y_max: 10 }));
    let pd = PlotData::from_it(&mut it, None, false).unwrap();
    let (x, y) = pd.get_range();
    assert_eq!((value(&x.start), value(&x.end)), (0.0, 5.0));
    assert_eq!((value(&y.start), value(&y.end)), (0.0, 10.0));
    it.add_point(-1, 3);
    assert_eq!(it.get_range(), Some(BoundingBox { x_min: -1, x_max: 5, y_min: 0, y_max: 10 }));
}

#[test]
fn single_point_range_is_padded() {
    let mut it = PlottableIterator::new(
        MemorySampleSerie::new(vec![rec(2, 2, "a")]).into_iter(),
        (Field::Time, Some(Field::Value)),
        None,
    );
    let pd = PlotData::from_it(&mut it, None, false).unwrap();
    let (x, y) = pd.get_range();
    assert_eq!((value(&x.start), value(&x.end)), (1.5, 2.5));
    assert_eq!((value(&y.start), value(&y.end)), (2.0, 2.0));
}

#[test]
fn plot_data_without_points_uses_unit_ranges() {
    let mut it = PlottableIterator::new(
        MemorySampleSerie::<Record>::new(Vec::new()).into_iter(),
        (Field::Time, None),
        None,
    );
    let pd = PlotData::from_it(&mut it, Some(MetricName::NbValues), true).unwrap();
    assert!(pd.get_data().is_empty());
    let (x, y) = pd.get_range();
    assert_eq!((value(&x.start), value(&x.end)), (0.0, 1.0));
    assert_eq!((value(&y.start), value(&y.end)), (0.0, 1.0));
}

#[test]
fn plot_data_groups_aggregates_and_removes_outliers() {
    let samples = vec![
        rec(1, 2, "a"),
        rec(1, 4, "a"),
        rec(2, 10, "b"),
        rec(2, 3, "a"),
        rec(3, 3, "a"),
        rec(4, 1000, "a"),
        rec(1, 1, "b"),
    ];
    let mut it = PlottableIterator::new(
        MemorySampleSerie::new(samples.clone()).into_iter(),
        (Field::Time, Some(Field::Value)),
        Some(Field::Group),
    );
    let pd = PlotData::from_it(&mut it, Some(MetricName::Mean), true).unwrap();
    let data = pd.get_data();
    assert_eq!(data.len(), 2);
    assert_eq!(data[0].0, "a");
    assert_eq!(data[0].1.iter().map(|p| (p.0, value(&p.1))).collect::<Vec<_>>(), vec![(1, 3.0), (2, 3.0), (3, 3.0)]);
    assert_eq!(data[1].0, "b");
    assert_eq!(data[1].1.iter().map(|p| (p.0, value(&p.1))).collect::<Vec<_>>(), vec![(1, 1.0), (2, 10.0)]);
    let (x, _) = pd.get_range();
    assert_eq!((value(&x.start), value(&x.end)), (1.0, 4.0));
}

#[test]
fn file_plottable_filters_and_projects() {
    let plot: FilePlottable<Record, Field> = FilePlottable::new(vec!["1:2:a;3:4:b".to_string(), "5:6:a".to_string()]);
    let filters = Filters::new(vec![Filter::new_str(Field::Group, vec![TextTest::Equal("a".to_string())])]);
    let mut it = plot.into_iter_with_filter((Field::Time, Some(Field::Value)), Some(Field::Group), &filters);
    let mut out = Vec::new();
    while let Some(p) = it.next().unwrap() {
        out.push(p);
    }
    assert_eq!(out, vec![("a".to_string(), (1, 2)), ("a".to_string(), (5, 6))]);
    assert_eq!(it.get_serie_keys(), (Field::Time, Some(Field::Value)));
    assert_eq!(drain(&mut plot.into_sample_iter()).len(), 3);
}

#[test]
fn decimal_strings() {
    assert_eq!(decimal_string(0), "0");
    assert_eq!(decimal_string(7), "7");
    assert_eq!(decimal_string(-42), "-42");
    assert_eq!(decimal_string(1000), "1000");
    assert_eq!(decimal_string(i32::MIN), "-2147483648");
    assert_eq!(decimal_string(i32::MAX), "2147483647");
}

#[test]
fn stats_grouped_by_sort_value() {
    let plot: FilePlottable<Record, Field> =
        FilePlottable::new(vec!["1:10:a;2:20:b;1:30:a".to_string(), "3:40:b".to_string()]);
    let by_group = plot
        .collect_stats_sorted_by_unique_values(&vec![Field::Value, Field::Time], &Field::Group)
        .unwrap();
    assert_eq!(by_group.len(), 2);
    assert_eq!(by_group[0].0, "a");
    assert_eq!(by_group[0].1[0].0, Field::Value);
    assert_eq!(value(&by_group[0].1[0].1.get_stats(MetricName::Mean).value), 20.0);
    assert_eq!(by_group[0].1[1].0, Field::Time);
    assert_eq!(value(&by_group[0].1[1].1.get_stats(MetricName::Additive).value), 2.0);
    assert_eq!(by_group[1].0, "b");
    assert_eq!(by_group[1].1[0].1.get_serie(), &vec![20, 40]);
    let by_time = plot.collect_stats_sorted_by_unique_values(&vec![Field::Value], &Field::Time).unwrap();
    let labels: Vec<&str> = by_time.iter().map(|g| g.0.as_str()).collect();
    assert_eq!(labels, vec!["1", "2", "3"]);
    assert_eq!(value(&by_time[0].1[0].1.get_stats(MetricName::NbValues).value), 2.0);
    let serie: FilePlottableSerie<Record, Field> =
        FilePlottableSerie::new(vec!["bad".to_string()]);
    assert!(serie.collect_stats_sorted_by_unique_values(&vec![Field::Value], &Field::Group).is_err());
}

#[test]
fn plot_data_from_grouped_points() {
    let pd = PlotData::from_points(vec![
        ("a".to_string(), vec![(1, 5), (3, -2)]),
        ("b".to_string(), vec![(2, 9)]),
    ]);
    let data = pd.get_data();
    assert_eq!(data.len(), 2);
    assert_eq!(data[1].0, "b");
    assert_eq!((data[1].1[0].0, value(&data[1].1[0].1)), (2, 9.0));
    let (x, y) = pd.get_range();
    assert_eq!((value(&x.start), value(&x.end)), (1.0, 3.0));
    assert_eq!((value(&y.start), value(&y.end)), (-2.0, 9.0));
    let single = PlotData::from_points(vec![("a".to_string(), vec![(4, 4)])]);
    let (x, _) = single.get_range();
    assert_eq!((value(&x.start), value(&x.end)), (3.5, 4.5));
    let empty = PlotData::from_points(Vec::new());
    let (x, y) = empty.get_range();
    assert_eq!((value(&x.start), value(&x.end), value(&y.start), value(&y.end)), (0.0, 1.0, 0.0, 1.0));
}

#[test]
fn file_plottable_serie_projects_both_keys() {
    let serie: FilePlottableSerie<Record, Field> =
        FilePlottableSerie::new(vec!["1:2:a;3:4:b".to_string()]);
    let filters = Filters::empty();
    let mut it = serie.into_iter_with_filter((Field::Time, Field::Value), None, &filters);
    let pd = PlotData::from_it(&mut it, None, false).unwrap();
    let data = pd.get_data();
    assert_eq!(data[0].0, "All");
    assert_eq!(data[0].1.iter().map(|p| (p.0, value(&p.1))).collect::<Vec<_>>(), vec![(1, 2.0), (3, 4.0)]);
    assert_eq!(drain(&mut serie.into_sample_iter()).len(), 2);
}

#[test]
fn filter_sets_sharing_a_key_keep_places_and_union_keys() {
    let a = Filters::new(vec![
        Filter::new_number(Field::Time, vec![NumberTest::AtLeast(0)]),
        Filter::new_str(Field::Group, vec![TextTest::Different("x".to_string())]),
    ]);
    let b = Filters::new(vec![
        Filter::new_number(Field::Value, vec![NumberTest::Below(5)]),
        Filter::new_number(Field::Time, vec![NumberTest::AtMost(10)]),
    ]);
    let both = a.combine(b);
    let s_in = rec(3, 1, "a");
    assert!(both.apply(&s_in));
    assert!(!both.apply(&rec(11, 1, "a")));
    assert!(!both.apply(&rec(3, 9, "a")));
    assert!(!both.apply(&rec(3, 1, "x")));
    let mut set = Filters::new(vec![Filter::new_number(Field::Time, vec![NumberTest::AtLeast(0)])]);
    set.add_filter(Filter::new_number(Field::Value, vec![NumberTest::Equal(2)]));
    set.add_filter(Filter::new_number(Field::Time, vec![NumberTest::Below(4)]));
    assert!(set.apply(&rec(3, 2, "q")));
    assert!(!set.apply(&rec(4, 2, "q")));
    assert!(!set.apply(&rec(-1, 2, "q")));
}

#[test]
fn filtered_series_stops_only_at_the_end() {
    let samples = vec![rec(1, 0, "b"), rec(2, 0, "b"), rec(3, 0, "a"), rec(4, 0, "b")];
    let filters = Filters::new(vec![Filter::new_str(Field::Group, vec![TextTest::Equal("a".to_string())])]);
    let mut it = FilteredSerieIterator::new(MemorySampleSerie::new(samples).into_iter(), &filters);
    assert_eq!(it.next().unwrap(), Some(rec(3, 0, "a")));
    assert_eq!(it.next().unwrap(), None);
    assert_eq!(it.next().unwrap(), None);
}

#[test]
fn coarse_grid_thins_more() {
    let b = BoundingBox { x_min: 0, x_max: 100, y_min: 0, y_max: 100 };
    let s = whole(&[(0, 0), (10, 10), (60, 60), (70, 90), (100, 100)]);
    let r = compress_data_serie(s, &Grid { bounds: b, width: 2, height: 2 });
    assert_eq!(r.iter().map(|p| p.0).collect::<Vec<_>>(), vec![0, 60]);
    let mut it = PlottableIterator::new(
        MemorySampleSerie::new(vec![rec(0, 0, "a"), rec(10, 10, "a"), rec(100, 100, "a")]).into_iter(),
        (Field::Time, Some(Field::Value)),
        None,
    );
    let pd = PlotData::from_it_with_grid(&mut it, None, false, 2, 2).unwrap();
    assert_eq!(pd.get_data()[0].1.iter().map(|p| p.0).collect::<Vec<_>>(), vec![0, 100]);
}

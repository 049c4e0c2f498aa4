//! Properties that relate several steps of the pipeline.
use vstd::prelude::*;
use crate::assoc::{key_index, keys_unique, lookup, put, lemma_key_index_bounds};
use crate::series::{accumulate, add_metrics, add_sample};
use crate::table::{scan_metrics, scan_regions};

verus! {

proof fn lemma_key_index_update<V>(s: Seq<(Seq<char>, V)>, j: int, x: V, k: Seq<char>, i: int)
    requires
        0 <= j < s.len(),
        0 <= i,
    ensures
        key_index(s.update(j, (s[j].0, x)), k, i) == key_index(s, k, i),
    decreases s.len() - i,
{
    if i < s.len() && s[i].0 != k {
        lemma_key_index_update(s, j, x, k, i + 1);
    }
}

proof fn lemma_key_index_push<V>(s: Seq<(Seq<char>, V)>, e: (Seq<char>, V), k: Seq<char>, i: int)
    requires
        0 <= i <= s.len(),
    ensures
        key_index(s.push(e), k, i) == if key_index(s, k, i) >= 0 {
            key_index(s, k, i)
        } else if e.0 == k {
            s.len() as int
        } else {
            -1
        },
    decreases s.len() - i,
{
    let t = s.push(e);
    if i < s.len() {
        assert(t[i] == s[i]);
        if s[i].0 != k {
            lemma_key_index_push(s, e, k, i + 1);
        }
    } else {
        assert(t[i] == e);
        assert(key_index(t, k, i + 1) == -1);
    }
}

/// Putting a key twice leaves what putting the second value alone leaves:
/// of two blocks of one region in a report, only the later one's readings
/// stay, in the place where the region first stood.
pub proof fn lemma_put_twice<V>(s: Seq<(Seq<char>, V)>, k: Seq<char>, a: V, b: V)
    ensures
        put(put(s, k, a), k, b) == put(s, k, b),
{
    lemma_key_index_bounds(s, k, 0);
    let j = key_index(s, k, 0);
    if j >= 0 {
        lemma_key_index_update(s, j, a, k, 0);
        assert(put(s, k, a).update(j, (k, b)) =~= s.update(j, (k, b)));
    } else {
        lemma_key_index_push(s, (k, a), k, 0);
        assert(s.push((k, a)).update(s.len() as int, (k, b)) =~= s.push((k, b)));
    }
}

/// Appending a sample of one metric leaves every other metric's series as
/// it was, and appends to that metric's series, which starts empty.
pub proof fn lemma_add_sample_lookup(
    ms: Seq<(Seq<char>, Seq<Seq<char>>)>,
    k: Seq<char>,
    v: Seq<char>,
    q: Seq<char>,
)
    ensures
        q != k ==> lookup(add_sample(ms, k, v), q) == lookup(ms, q),
        lookup(add_sample(ms, k, v), k) == Some(
            match lookup(ms, k) {
                Some(s) => s,
                None => Seq::<Seq<char>>::empty(),
            }.push(v),
        ),
{
    lemma_key_index_bounds(ms, k, 0);
    let j = key_index(ms, k, 0);
    lemma_key_index_bounds(ms, q, 0);
    if j >= 0 {
        assert(ms[j].0 == k);
        lemma_key_index_update(ms, j, ms[j].1.push(v), q, 0);
        lemma_key_index_update(ms, j, ms[j].1.push(v), k, 0);
    } else {
        lemma_key_index_push(ms, (k, seq![v]), q, 0);
        lemma_key_index_push(ms, (k, seq![v]), k, 0);
    }
}

/// Samples are appended on presence: a report's readings that do not name
/// a metric leave its series as it was, and readings that name it once, with
/// value `v`, append exactly `v`, with no gap for the reports that lacked
/// it.
pub proof fn lemma_append_on_presence(
    ms: Seq<(Seq<char>, Seq<Seq<char>>)>,
    metrics: Seq<(Seq<char>, Seq<char>)>,
    k: Seq<char>,
)
    ensures
        (forall|i: int| 0 <= i < metrics.len() ==> metrics[i].0 != k) ==> lookup(
            add_metrics(ms, metrics),
            k,
        ) == lookup(ms, k),
        forall|i: int|
            0 <= i < metrics.len() && metrics[i].0 == k && (forall|j: int|
                0 <= j < metrics.len() && j != i ==> metrics[j].0 != k) ==> lookup(
                add_metrics(ms, metrics),
                k,
            ) == Some(
                match lookup(ms, k) {
                    Some(s) => s,
                    None => Seq::<Seq<char>>::empty(),
                }.push(metrics[i].1),
            ),
    decreases metrics.len(),
{
    if metrics.len() > 0 {
        let p = metrics.drop_last();
        lemma_append_on_presence(ms, p, k);
        lemma_add_sample_lookup(add_metrics(ms, p), metrics.last().0, metrics.last().1, k);
        assert forall|i: int|
            0 <= i < metrics.len() && metrics[i].0 == k && (forall|j: int|
                0 <= j < metrics.len() && j != i ==> metrics[j].0 != k) implies lookup(
                add_metrics(ms, metrics),
                k,
            ) == Some(
                match lookup(ms, k) {
                    Some(s) => s,
                    None => Seq::<Seq<char>>::empty(),
                }.push(metrics[i].1),
            ) by {
            if i == metrics.len() - 1 {
                assert(forall|j: int| 0 <= j < p.len() ==> p[j].0 != k);
            } else {
                assert(metrics.last().0 != k);
                assert(p[i].0 == k);
                assert(forall|j: int| 0 <= j < p.len() && j != i ==> p[j].0 != k);
            }
        }
        if forall|i: int| 0 <= i < metrics.len() ==> metrics[i].0 != k {
            assert(forall|j: int| 0 <= j < p.len() ==> p[j].0 != k);
            assert(metrics.last().0 != k);
        }
    }
}

proof fn lemma_scan_metrics_keeps_missing(
    series: Seq<(Seq<char>, Seq<Seq<char>>)>,
    region: Seq<char>,
    metrics: Seq<Seq<char>>,
    n: int,
    missing: Seq<Seq<char>>,
    k: Seq<char>,
)
    requires
        missing.contains(k),
    ensures
        scan_metrics(series, region, metrics, n, missing).0.contains(k),
    decreases n,
{
    if n > 0 {
        lemma_scan_metrics_keeps_missing(series, region, metrics, n - 1, missing, k);
        let m = scan_metrics(series, region, metrics, n - 1, missing).0;
        if !m.contains(metrics[n - 1]) && lookup(series, metrics[n - 1]) is None {
            assert(m.push(metrics[n - 1])[m.index_of(k)] == k);
        }
    }
}

/// A wanted metric that one region lacks stays missing for the rest of the
/// table: it is passed over in every later region, so no later region gets
/// a column for it, even one that has samples of it.
pub proof fn lemma_missing_persists(
    rs: Seq<(Seq<char>, Seq<(Seq<char>, Seq<Seq<char>>)>)>,
    regions: Seq<Seq<char>>,
    metrics: Seq<Seq<char>>,
    a: int,
    b: int,
    k: Seq<char>,
)
    requires
        0 <= a <= b <= regions.len(),
        scan_regions(rs, regions, metrics, a).0.contains(k),
    ensures
        scan_regions(rs, regions, metrics, b).0.contains(k),
    decreases b - a,
{
    if a < b {
        let (m, c) = scan_regions(rs, regions, metrics, a);
        match lookup(rs, regions[a]) {
            None => {},
            Some(series) => {
                lemma_scan_metrics_keeps_missing(series, regions[a], metrics, metrics.len() as int, m, k);
            },
        }
        lemma_missing_persists(rs, regions, metrics, a + 1, b, k);
    }
}

/// A metric already missing when a region is reached gives that region no
/// column: the region's columns are those it gives without the metric in
/// the wanted list.
pub proof fn lemma_missing_gives_no_column(
    series: Seq<(Seq<char>, Seq<Seq<char>>)>,
    region: Seq<char>,
    metrics: Seq<Seq<char>>,
    missing: Seq<Seq<char>>,
    k: Seq<char>,
    i: int,
)
    requires
        missing.contains(k),
        0 <= i < metrics.len(),
        metrics[i] == k,
    ensures
        scan_metrics(series, region, metrics, i + 1, missing) == scan_metrics(
            series,
            region,
            metrics,
            i,
            missing,
        ),
{
    lemma_scan_metrics_keeps_missing(series, region, metrics, i, missing, k);
}

/// Putting a key changes what that key looks up, and nothing else.
pub proof fn lemma_lookup_put<V>(s: Seq<(Seq<char>, V)>, k: Seq<char>, v: V, q: Seq<char>)
    ensures
        lookup(put(s, k, v), q) == if q == k {
            Some(v)
        } else {
            lookup(s, q)
        },
{
    lemma_key_index_bounds(s, k, 0);
    lemma_key_index_bounds(s, q, 0);
    let j = key_index(s, k, 0);
    if j >= 0 {
        assert(s[j].0 == k);
        lemma_key_index_update(s, j, v, q, 0);
    } else {
        lemma_key_index_push(s, (k, v), q, 0);
    }
}

/// The samples a region had before a run, or none.
pub open spec fn region_base(
    rs: Seq<(Seq<char>, Seq<(Seq<char>, Seq<Seq<char>>)>)>,
    r: Seq<char>,
) -> Seq<(Seq<char>, Seq<Seq<char>>)> {
    match lookup(rs, r) {
        Some(m) => m,
        None => Seq::empty(),
    }
}

/// Adding a run's report, which names each region once, changes a region's
/// samples only by that report's readings of it: a region the report lacks
/// keeps its samples, and a region it holds gets its readings appended.
pub proof fn lemma_accumulate_region(
    rs: Seq<(Seq<char>, Seq<(Seq<char>, Seq<Seq<char>>)>)>,
    report: Seq<(Seq<char>, Seq<(Seq<char>, Seq<char>)>)>,
    r: Seq<char>,
)
    requires
        keys_unique(report),
    ensures
        (forall|i: int| 0 <= i < report.len() ==> report[i].0 != r) ==> lookup(
            accumulate(rs, report),
            r,
        ) == lookup(rs, r),
        forall|i: int|
            0 <= i < report.len() && report[i].0 == r ==> lookup(accumulate(rs, report), r)
                == Some(add_metrics(region_base(rs, r), report[i].1)),
    decreases report.len(),
{
    if report.len() > 0 {
        let p = report.drop_last();
        lemma_accumulate_region(rs, p, r);
        let acc = accumulate(rs, p);
        let last = report.last();
        lemma_lookup_put(acc, last.0, add_metrics(region_base(acc, last.0), last.1), r);
        if last.0 == r {
            assert(forall|i: int| 0 <= i < p.len() ==> p[i].0 != r);
        }
        assert forall|i: int|
            0 <= i < report.len() && report[i].0 == r implies lookup(accumulate(rs, report), r)
                == Some(add_metrics(region_base(rs, r), report[i].1)) by {
            if i < report.len() - 1 {
                assert(p[i] == report[i]);
                assert(last.0 != r);
            }
        }
    }
}

/// The samples after each report of a sweep is added, in order.
pub open spec fn run_all(
    rs: Seq<(Seq<char>, Seq<(Seq<char>, Seq<Seq<char>>)>)>,
    runs: Seq<Seq<(Seq<char>, Seq<(Seq<char>, Seq<char>)>)>>,
) -> Seq<(Seq<char>, Seq<(Seq<char>, Seq<Seq<char>>)>)>
    decreases runs.len(),
{
    if runs.len() == 0 {
        rs
    } else {
        accumulate(run_all(rs, runs.drop_last()), runs.last())
    }
}

/// The value of metric `m` in region `r` of one report, if it has one.
pub open spec fn reading_in(
    report: Seq<(Seq<char>, Seq<(Seq<char>, Seq<char>)>)>,
    r: Seq<char>,
    m: Seq<char>,
) -> Option<Seq<char>> {
    match lookup(report, r) {
        Some(ms) => lookup(ms, m),
        None => None,
    }
}

/// The values of metric `m` in region `r`, one for each report that has
/// one, in the order of the reports.
pub open spec fn present_values(
    runs: Seq<Seq<(Seq<char>, Seq<(Seq<char>, Seq<char>)>)>>,
    r: Seq<char>,
    m: Seq<char>,
) -> Seq<Seq<char>>
    decreases runs.len(),
{
    if runs.len() == 0 {
        Seq::empty()
    } else {
        let p = present_values(runs.drop_last(), r, m);
        match reading_in(runs.last(), r, m) {
            Some(v) => p.push(v),
            None => p,
        }
    }
}

/// The series of metric `m` in region `r`, or an empty one.
pub open spec fn series_of(
    rs: Seq<(Seq<char>, Seq<(Seq<char>, Seq<Seq<char>>)>)>,
    r: Seq<char>,
    m: Seq<char>,
) -> Seq<Seq<char>> {
    match lookup(region_base(rs, r), m) {
        Some(s) => s,
        None => Seq::empty(),
    }
}

/// Reports that name each region once and each metric once per region.
pub open spec fn clean_runs(runs: Seq<Seq<(Seq<char>, Seq<(Seq<char>, Seq<char>)>)>>) -> bool {
    forall|k: int|
        0 <= k < runs.len() ==> keys_unique(#[trigger] runs[k]) && forall|i: int|
            0 <= i < runs[k].len() ==> keys_unique(#[trigger] runs[k][i].1)
}

/// Samples are appended on presence, run after run: a metric's series
/// gains the values of exactly the runs that reported it, in run order,
/// so its positions need not match the runs' positions.
pub proof fn lemma_series_after_runs(
    rs: Seq<(Seq<char>, Seq<(Seq<char>, Seq<Seq<char>>)>)>,
    runs: Seq<Seq<(Seq<char>, Seq<(Seq<char>, Seq<char>)>)>>,
    r: Seq<char>,
    m: Seq<char>,
)
    requires
        clean_runs(runs),
    ensures
        series_of(run_all(rs, runs), r, m) == series_of(rs, r, m) + present_values(runs, r, m),
    decreases runs.len(),
{
    if runs.len() > 0 {
        let p = runs.drop_last();
        assert forall|k: int| 0 <= k < p.len() implies keys_unique(#[trigger] p[k]) && forall|i: int|
            0 <= i < p[k].len() ==> keys_unique(#[trigger] p[k][i].1) by {
            assert(p[k] == runs[k]);
        }
        lemma_series_after_runs(rs, p, r, m);
        let prev = run_all(rs, p);
        let rep = runs.last();
        assert(keys_unique(runs[runs.len() - 1]));
        lemma_accumulate_region(prev, rep, r);
        lemma_key_index_bounds(rep, r, 0);
        let i = key_index(rep, r, 0);
        if i >= 0 {
            assert(keys_unique(runs[runs.len() - 1][i].1));
            let ms = rep[i].1;
            lemma_append_on_presence(region_base(prev, r), ms, m);
            lemma_key_index_bounds(ms, m, 0);
            let t = key_index(ms, m, 0);
            if t >= 0 {
                assert(forall|j: int| 0 <= j < ms.len() && j != t ==> ms[j].0 != m);
                assert(series_of(rs, r, m) + present_values(p, r, m).push(ms[t].1) =~= (series_of(rs, r, m)
                    + present_values(p, r, m)).push(ms[t].1));
            }
        }
    } else {
        assert(series_of(rs, r, m) + Seq::empty() =~= series_of(rs, r, m));
    }
}

} // verus!

//! Accumulating reports, run after run, into one series of samples per
//! region and metric.
use vstd::prelude::*;
use crate::assoc::{key_index, keys_unique, lookup, put, lemma_key_index_bounds, lemma_put_unique};
use crate::report::{RegionMetrics, report_view};

verus! {

/// The samples of one region: each metric key with the values seen for it,
/// one per report that held the metric, in the order of the reports.
pub struct MetricSet(pub Vec<(String, Vec<String>)>);

/// The samples of every region seen so far.
pub struct RegionSet(pub Vec<(String, MetricSet)>);

pub open spec fn texts_view(v: Seq<String>) -> Seq<Seq<char>> {
    v.map_values(|x: String| x@)
}

pub open spec fn series_view(s: Seq<(String, Vec<String>)>) -> Seq<(Seq<char>, Seq<Seq<char>>)> {
    s.map_values(|e: (String, Vec<String>)| (e.0@, texts_view(e.1@)))
}

impl View for MetricSet {
    type V = Seq<(Seq<char>, Seq<Seq<char>>)>;

    open spec fn view(&self) -> Self::V {
        series_view(self.0@)
    }
}

pub open spec fn regions_view(s: Seq<(String, MetricSet)>) -> Seq<(Seq<char>, Seq<(Seq<char>, Seq<Seq<char>>)>)> {
    s.map_values(|e: (String, MetricSet)| (e.0@, e.1@))
}

impl View for RegionSet {
    type V = Seq<(Seq<char>, Seq<(Seq<char>, Seq<Seq<char>>)>)>;

    open spec fn view(&self) -> Self::V {
        regions_view(self.0@)
    }
}

/// `ms` with `v` appended to the series of `k`, which starts empty.
pub open spec fn add_sample(ms: Seq<(Seq<char>, Seq<Seq<char>>)>, k: Seq<char>, v: Seq<char>) -> Seq<
    (Seq<char>, Seq<Seq<char>>),
> {
    let j = key_index(ms, k, 0);
    if j >= 0 {
        ms.update(j, (k, ms[j].1.push(v)))
    } else {
        ms.push((k, seq![v]))
    }
}

/// `ms` with each reading appended to its metric's series, in order.
pub open spec fn add_metrics(
    ms: Seq<(Seq<char>, Seq<Seq<char>>)>,
    metrics: Seq<(Seq<char>, Seq<char>)>,
) -> Seq<(Seq<char>, Seq<Seq<char>>)>
    decreases metrics.len(),
{
    if metrics.len() == 0 {
        ms
    } else {
        add_sample(add_metrics(ms, metrics.drop_last()), metrics.last().0, metrics.last().1)
    }
}

/// `rs` with one region's readings added; the region is created, with no
/// series, where it was not seen before.
pub open spec fn add_region(
    rs: Seq<(Seq<char>, Seq<(Seq<char>, Seq<Seq<char>>)>)>,
    title: Seq<char>,
    metrics: Seq<(Seq<char>, Seq<char>)>,
) -> Seq<(Seq<char>, Seq<(Seq<char>, Seq<Seq<char>>)>)> {
    let base = match lookup(rs, title) {
        Some(m) => m,
        None => Seq::empty(),
    };
    put(rs, title, add_metrics(base, metrics))
}

/// `rs` with every region of a report added, in the report's order.
pub open spec fn accumulate(
    rs: Seq<(Seq<char>, Seq<(Seq<char>, Seq<Seq<char>>)>)>,
    report: Seq<(Seq<char>, Seq<(Seq<char>, Seq<char>)>)>,
) -> Seq<(Seq<char>, Seq<(Seq<char>, Seq<Seq<char>>)>)>
    decreases report.len(),
{
    if report.len() == 0 {
        rs
    } else {
        add_region(accumulate(rs, report.drop_last()), report.last().0, report.last().1)
    }
}

fn add_sample_exec(ms: &mut Vec<(String, Vec<String>)>, k: &String, v: &String)
    ensures
        series_view(final(ms)@) == add_sample(series_view(old(ms)@), k@, v@),
{
    let ghost s = series_view(ms@);
    let mut i: usize = 0;
    while i < ms.len()
        invariant
            i <= ms@.len(),
            s == series_view(ms@),
            ms@ == old(ms)@,
            key_index(s, k@, i as int) == key_index(s, k@, 0),
        decreases ms@.len() - i,
    {
        if ms[i].0 == *k {
            proof {
                assert(key_index(s, k@, i as int) == i as int);
            }
            let ghost old_ms = ms@;
            let (key, mut vals) = ms.remove(i);
            let ghost old_vals = vals@;
            vals.push(v.clone());
            proof {
                assert(texts_view(vals@) =~= texts_view(old_vals).push(v@));
            }
            ms.insert(i, (key, vals));
            proof {
                assert(ms@ =~= old_ms.update(i as int, ms@[i as int]));
                assert(series_view(ms@) =~= s.update(i as int, (k@, s[i as int].1.push(v@))));
            }
            return;
        }
        i = i + 1;
    }
    let one = vec![v.clone()];
    proof {
        assert(texts_view(one@) =~= seq![v@]);
    }
    ms.push((k.clone(), one));
    proof {
        assert(series_view(ms@) =~= s.push((k@, seq![v@])));
    }
}

/// Adds one report's readings to the series: for each region, each
/// reading's value is appended to the series of its metric. A metric that a
/// report lacks gets no sample for it.
pub fn update_regset(regset: &mut RegionSet, regions: &Vec<RegionMetrics>)
    ensures
        final(regset)@ == accumulate(old(regset)@, report_view(regions@)),
        keys_unique(old(regset)@) ==> keys_unique(final(regset)@),
{
    let ghost start = regset@;
    let ghost rv = report_view(regions@);
    let mut i: usize = 0;
    proof {
        assert(rv.take(0) =~= Seq::empty());
    }
    while i < regions.len()
        invariant
            i <= regions@.len(),
            start == old(regset)@,
            rv == report_view(regions@),
            regset@ == accumulate(start, rv.take(i as int)),
            keys_unique(start) ==> keys_unique(regset@),
        decreases regions@.len() - i,
    {
        let region = &regions[i];
        let ghost before = regset@;
        let mut j: usize = 0;
        while j < regset.0.len() && regset.0[j].0 != region.title
            invariant
                j <= regset.0@.len(),
                regset@ == before,
                key_index(before, region.title@, j as int) == key_index(before, region.title@, 0),
            decreases regset.0@.len() - j,
        {
            j = j + 1;
        }
        proof {
            lemma_key_index_bounds(before, region.title@, 0);
        }
        let found = j < regset.0.len();
        let (title, mut set) = if found {
            proof {
                assert(key_index(before, region.title@, j as int) == j as int);
            }
            regset.0.remove(j)
        } else {
            (region.title.clone(), MetricSet(Vec::new()))
        };
        let ghost base = set@;
        proof {
            assert(base == match lookup(before, region.title@) {
                Some(m) => m,
                None => Seq::<(Seq<char>, Seq<Seq<char>>)>::empty(),
            });
        }
        let mut k: usize = 0;
        proof {
            assert(region@.1.take(0) =~= Seq::empty());
        }
        while k < region.metrics.len()
            invariant
                k <= region.metrics@.len(),
                set@ == add_metrics(base, region@.1.take(k as int)),
            decreases region.metrics@.len() - k,
        {
            let m = &region.metrics[k];
            add_sample_exec(&mut set.0, &m.key, &m.value);
            proof {
                assert(region@.1.take(k + 1).drop_last() =~= region@.1.take(k as int));
            }
            k = k + 1;
        }
        proof {
            assert(region@.1.take(region.metrics@.len() as int) =~= region@.1);
        }
        let ghost item = (title@, set@);
        if found {
            regset.0.insert(j, (title, set));
        } else {
            regset.0.push((title, set));
        }
        proof {
            assert(regset@ =~= put(before, region.title@, item.1));
            if keys_unique(start) {
                lemma_put_unique(before, region.title@, item.1);
            }
            assert(rv.take(i + 1).drop_last() =~= rv.take(i as int));
        }
        i = i + 1;
    }
    proof {
        assert(rv.take(regions@.len() as int) =~= rv);
    }
}

} // verus!

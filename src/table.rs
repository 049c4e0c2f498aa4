//! Tables of series: building one from the accumulated samples, and its
//! comma-separated text.
use vstd::prelude::*;
use crate::assoc::{key_index, lookup};
use crate::series::{MetricSet, RegionSet, texts_view};
use crate::text::{chars_of, decimal_of, text_of, u32_text};

verus! {

/// A titled column of values, each the text of a number.
pub struct TableColumn {
    pub title: String,
    pub values: Vec<String>,
}

impl View for TableColumn {
    type V = (Seq<char>, Seq<Seq<char>>);

    open spec fn view(&self) -> Self::V {
        (self.title@, texts_view(self.values@))
    }
}

/// A table; its first column is the x axis.
pub struct Table {
    pub label: String,
    pub title: String,
    pub columns: Vec<TableColumn>,
}

pub open spec fn columns_view(c: Seq<TableColumn>) -> Seq<(Seq<char>, Seq<Seq<char>>)> {
    c.map_values(|x: TableColumn| x@)
}

/// The title of the column of metric `m` in region `r`: `r (m)`.
pub open spec fn column_title(r: Seq<char>, m: Seq<char>) -> Seq<char> {
    r + seq![' ', '('] + m + seq![')']
}

/// The first `n` metrics of one region, given the metrics already found
/// missing: a missing metric is passed over; a metric that the region lacks
/// is passed over and becomes missing; any other gives a column.
pub open spec fn scan_metrics(
    series: Seq<(Seq<char>, Seq<Seq<char>>)>,
    region: Seq<char>,
    metrics: Seq<Seq<char>>,
    n: int,
    missing: Seq<Seq<char>>,
) -> (Seq<Seq<char>>, Seq<(Seq<char>, Seq<Seq<char>>)>)
    decreases n,
{
    if n <= 0 {
        (missing, Seq::empty())
    } else {
        let (m, c) = scan_metrics(series, region, metrics, n - 1, missing);
        let k = metrics[n - 1];
        if m.contains(k) {
            (m, c)
        } else {
            match lookup(series, k) {
                Some(vals) => (m, c.push((column_title(region, k), vals))),
                None => (m.push(k), c),
            }
        }
    }
}

/// The missing metrics and the columns of the first `n` regions; a region
/// without samples is passed over. A metric found missing in one region is
/// passed over in every later one.
pub open spec fn scan_regions(
    rs: Seq<(Seq<char>, Seq<(Seq<char>, Seq<Seq<char>>)>)>,
    regions: Seq<Seq<char>>,
    metrics: Seq<Seq<char>>,
    n: int,
) -> (Seq<Seq<char>>, Seq<(Seq<char>, Seq<Seq<char>>)>)
    decreases n,
{
    if n <= 0 {
        (Seq::empty(), Seq::empty())
    } else {
        let (m, c) = scan_regions(rs, regions, metrics, n - 1);
        match lookup(rs, regions[n - 1]) {
            None => (m, c),
            Some(series) => {
                let (m2, c2) = scan_metrics(series, regions[n - 1], metrics, metrics.len() as int, m);
                (m2, c + c2)
            },
        }
    }
}

/// The x axis column: titled `n`, with the decimal text of each value.
pub open spec fn x_column(n_values: Seq<u32>) -> (Seq<char>, Seq<Seq<char>>) {
    (seq!['n'], n_values.map_values(|x: u32| decimal_of(x as nat)))
}

fn clone_texts(v: &Vec<String>) -> (r: Vec<String>)
    ensures
        texts_view(r@) == texts_view(v@),
{
    let mut r: Vec<String> = Vec::new();
    let mut i: usize = 0;
    while i < v.len()
        invariant
            i <= v@.len(),
            texts_view(r@) == texts_view(v@).take(i as int),
        decreases v@.len() - i,
    {
        let c = v[i].clone();
        let ghost before = r@;
        r.push(c);
        proof {
            assert(r@ == before.push(c));
            assert(c@ == v@[i as int]@);
            assert(texts_view(r@) =~= texts_view(before).push(c@));
            assert(texts_view(v@).take(i + 1) =~= texts_view(v@).take(i as int).push(v@[i as int]@));
        }
        i = i + 1;
    }
    proof {
        assert(texts_view(v@).take(i as int) =~= texts_view(v@));
    }
    r
}

fn contains_text(v: &Vec<String>, s: &String) -> (r: bool)
    ensures
        r == texts_view(v@).contains(s@),
{
    let mut i: usize = 0;
    while i < v.len()
        invariant
            i <= v@.len(),
            forall|j: int| 0 <= j < i ==> v@[j]@ != s@,
        decreases v@.len() - i,
    {
        if v[i] == *s {
            proof {
                assert(texts_view(v@)[i as int] == s@);
            }
            return true;
        }
        i = i + 1;
    }
    proof {
        if texts_view(v@).contains(s@) {
            let j = choose|j: int| 0 <= j < texts_view(v@).len() && texts_view(v@)[j] == s@;
            assert(v@[j]@ == s@);
        }
    }
    false
}

fn find_series(ms: &MetricSet, k: &String) -> (r: Option<usize>)
    ensures
        match r {
            Some(j) => j < ms.0@.len() && lookup(ms@, k@) == Some(ms@[j as int].1),
            None => lookup(ms@, k@) is None,
        },
{
    let ghost s = ms@;
    let mut i: usize = 0;
    while i < ms.0.len()
        invariant
            i <= ms.0@.len(),
            s == ms@,
            key_index(s, k@, i as int) == key_index(s, k@, 0),
        decreases ms.0@.len() - i,
    {
        if ms.0[i].0 == *k {
            proof {
                assert(key_index(s, k@, i as int) == i as int);
            }
            return Some(i);
        }
        i = i + 1;
    }
    None
}

fn find_region(rs: &RegionSet, k: &String) -> (r: Option<usize>)
    ensures
        match r {
            Some(j) => j < rs.0@.len() && lookup(rs@, k@) == Some(rs@[j as int].1),
            None => lookup(rs@, k@) is None,
        },
{
    let ghost s = rs@;
    let mut i: usize = 0;
    while i < rs.0.len()
        invariant
            i <= rs.0@.len(),
            s == rs@,
            key_index(s, k@, i as int) == key_index(s, k@, 0),
        decreases rs.0@.len() - i,
    {
        if rs.0[i].0 == *k {
            proof {
                assert(key_index(s, k@, i as int) == i as int);
            }
            return Some(i);
        }
        i = i + 1;
    }
    None
}

fn column_title_exec(r: &String, m: &String) -> (t: String)
    ensures
        t@ == column_title(r@, m@),
{
    let mut out = chars_of(r.as_str());
    out.push(' ');
    out.push('(');
    let mc = chars_of(m.as_str());
    let mut i: usize = 0;
    let ghost start = out@;
    while i < mc.len()
        invariant
            i <= mc@.len(),
            out@ == start + mc@.take(i as int),
        decreases mc@.len() - i,
    {
        out.push(mc[i]);
        i = i + 1;
        proof {
            assert(out@ =~= start + mc@.take(i as int));
        }
    }
    out.push(')');
    proof {
        assert(mc@.take(i as int) =~= mc@);
        assert(out@ =~= column_title(r@, m@));
    }
    text_of(&out)
}

/// The wanted regions, among the first `n`, that have no samples, in order.
pub open spec fn absent_regions(
    rs: Seq<(Seq<char>, Seq<(Seq<char>, Seq<Seq<char>>)>)>,
    regions: Seq<Seq<char>>,
    n: int,
) -> Seq<Seq<char>>
    decreases n,
{
    if n <= 0 {
        Seq::empty()
    } else {
        let p = absent_regions(rs, regions, n - 1);
        if lookup(rs, regions[n - 1]) is None {
            p.push(regions[n - 1])
        } else {
            p
        }
    }
}

/// Builds a table as `create_table` does, and says what it passed over:
/// the wanted regions without samples, and the metrics found missing, each
/// once, in the order they were met.
pub fn create_table_reporting(
    label: &str,
    title: &str,
    regset: &RegionSet,
    regions: &Vec<String>,
    metrics: &Vec<String>,
    n_values: &[u32],
) -> (r: (Table, Vec<String>, Vec<String>))
    ensures
        r.0.label@ == label@,
        r.0.title@ == title@,
        columns_view(r.0.columns@) == seq![x_column(n_values@)] + scan_regions(
            regset@,
            texts_view(regions@),
            texts_view(metrics@),
            regions@.len() as int,
        ).1,
        texts_view(r.1@) == absent_regions(regset@, texts_view(regions@), regions@.len() as int),
        texts_view(r.2@) == scan_regions(
            regset@,
            texts_view(regions@),
            texts_view(metrics@),
            regions@.len() as int,
        ).0,
{
    let ghost rv = texts_view(regions@);
    let ghost mv = texts_view(metrics@);
    let mut xs: Vec<String> = Vec::new();
    let mut i: usize = 0;
    while i < n_values.len()
        invariant
            i <= n_values@.len(),
            texts_view(xs@) == x_column(n_values@).1.take(i as int),
        decreases n_values@.len() - i,
    {
        let t = u32_text(n_values[i]);
        let ghost before = xs@;
        xs.push(t);
        proof {
            assert(xs@ == before.push(t));
            assert(t@ == x_column(n_values@).1[i as int]);
            assert(texts_view(xs@) =~= texts_view(before).push(t@));
            assert(x_column(n_values@).1.take(i + 1) =~= x_column(n_values@).1.take(i as int).push(t@));
        }
        i = i + 1;
    }
    proof {
        assert(x_column(n_values@).1.take(i as int) =~= x_column(n_values@).1);
        reveal_strlit("n");
    }
    let mut columns: Vec<TableColumn> = Vec::new();
    let n_title = String::from_str("n");
    proof {
        assert(n_title@ =~= seq!['n']);
    }
    columns.push(TableColumn { title: n_title, values: xs });
    let mut missing: Vec<String> = Vec::new();
    let mut absent: Vec<String> = Vec::new();
    proof {
        assert(texts_view(absent@) =~= absent_regions(regset@, rv, 0));
        assert(columns_view(columns@) =~= seq![x_column(n_values@)] + scan_regions(
            regset@,
            rv,
            mv,
            0,
        ).1);
        assert(texts_view(missing@) =~= scan_regions(regset@, rv, mv, 0).0);
    }
    let mut r: usize = 0;
    while r < regions.len()
        invariant
            r <= regions@.len(),
            rv == texts_view(regions@),
            mv == texts_view(metrics@),
            texts_view(missing@) == scan_regions(regset@, rv, mv, r as int).0,
            texts_view(absent@) == absent_regions(regset@, rv, r as int),
            columns_view(columns@) == seq![x_column(n_values@)] + scan_regions(
                regset@,
                rv,
                mv,
                r as int,
            ).1,
        decreases regions@.len() - r,
    {
        let region = &regions[r];
        let ghost ab = texts_view(absent@);
        match find_region(regset, region) {
            None => {
                absent.push(region.clone());
                proof {
                    assert(texts_view(absent@) =~= ab.push(region@));
                }
            },
            Some(j) => {
                let ms = &regset.0[j].1;
                let ghost series = ms@;
                let ghost m0 = texts_view(missing@);
                let ghost c0 = columns_view(columns@);
                let mut k: usize = 0;
                proof {
                    assert(columns_view(columns@) =~= c0 + scan_metrics(series, rv[r as int], mv, 0, m0).1);
                }
                while k < metrics.len()
                    invariant
                        k <= metrics@.len(),
                        mv == texts_view(metrics@),
                        rv == texts_view(regions@),
                        r < regions@.len(),
                        series == ms@,
                        region@ == rv[r as int],
                        texts_view(missing@) == scan_metrics(series, rv[r as int], mv, k as int, m0).0,
                        columns_view(columns@) == c0 + scan_metrics(series, rv[r as int], mv, k as int, m0).1,
                    decreases metrics@.len() - k,
                {
                    let metric = &metrics[k];
                    let ghost cb = columns_view(columns@);
                    if !contains_text(&missing, metric) {
                        match find_series(ms, metric) {
                            Some(s) => {
                                let vals = clone_texts(&ms.0[s].1);
                                let t = column_title_exec(region, metric);
                                columns.push(TableColumn { title: t, values: vals });
                                proof {
                                    assert(columns_view(columns@) =~= cb.push(columns@.last()@));
                                }
                            },
                            None => {
                                missing.push(metric.clone());
                                proof {
                                    assert(texts_view(missing@) =~= scan_metrics(series, rv[r as int], mv, k as int, m0).0.push(metric@));
                                    assert(columns_view(columns@) =~= cb);
                                }
                            },
                        }
                    }
                    k = k + 1;
                }
                proof {
                    assert(c0 + scan_metrics(series, rv[r as int], mv, k as int, m0).1 =~= c0
                        + scan_metrics(series, rv[r as int], mv, mv.len() as int, m0).1);
                }
            },
        }
        r = r + 1;
    }
    let table = Table { label: String::from_str(label), title: String::from_str(title), columns };
    (table, absent, missing)
}

/// Builds a table: first the x axis column `n` with `n_values`, then, for
/// each wanted region that has samples, in order, a column `region (metric)`
/// with the samples of each wanted metric, in order. A metric that one
/// region lacks gives no column in that region nor in any later one.
pub fn create_table(
    label: &str,
    title: &str,
    regset: &RegionSet,
    regions: &Vec<String>,
    metrics: &Vec<String>,
    n_values: &[u32],
) -> (table: Table)
    ensures
        table.label@ == label@,
        table.title@ == title@,
        columns_view(table.columns@) == seq![x_column(n_values@)] + scan_regions(
            regset@,
            texts_view(regions@),
            texts_view(metrics@),
            regions@.len() as int,
        ).1,
{
    create_table_reporting(label, title, regset, regions, metrics, n_values).0
}

/// Underscores turned into spaces.
pub open spec fn underscores_to_spaces(s: Seq<char>) -> Seq<char> {
    s.map_values(|c: char| if c == '_' { ' ' } else { c })
}

/// Fields joined by commas.
pub open spec fn join_fields(fs: Seq<Seq<char>>) -> Seq<char>
    decreases fs.len(),
{
    if fs.len() == 0 {
        Seq::empty()
    } else if fs.len() == 1 {
        fs[0]
    } else {
        join_fields(fs.drop_last()) + seq![','] + fs.last()
    }
}

/// The header fields: each column's title, with spaces for underscores.
pub open spec fn header_fields(cols: Seq<(Seq<char>, Seq<Seq<char>>)>) -> Seq<Seq<char>> {
    cols.map_values(|c: (Seq<char>, Seq<Seq<char>>)| underscores_to_spaces(c.0))
}

/// Row `i`: each column's value at `i`, or an empty field where the column
/// is shorter.
pub open spec fn row_fields(cols: Seq<(Seq<char>, Seq<Seq<char>>)>, i: int) -> Seq<Seq<char>> {
    cols.map_values(
        |c: (Seq<char>, Seq<Seq<char>>)|
            if 0 <= i < c.1.len() {
                c.1[i]
            } else {
                Seq::<char>::empty()
            },
    )
}

/// The first `n` rows, each ended by a newline.
pub open spec fn rows_text(cols: Seq<(Seq<char>, Seq<Seq<char>>)>, n: int) -> Seq<char>
    decreases n,
{
    if n <= 0 {
        Seq::empty()
    } else {
        rows_text(cols, n - 1) + join_fields(row_fields(cols, n - 1)) + seq!['\n']
    }
}

/// The comma-separated text of a table: the header line, then one line
/// for each value of the first column.
pub open spec fn csv_of(cols: Seq<(Seq<char>, Seq<Seq<char>>)>) -> Seq<char> {
    join_fields(header_fields(cols)) + seq!['\n'] + rows_text(cols, cols[0].1.len() as int)
}

fn push_all(out: &mut Vec<char>, s: &Vec<char>)
    ensures
        final(out)@ == old(out)@ + s@,
{
    let mut i: usize = 0;
    while i < s.len()
        invariant
            i <= s@.len(),
            out@ == old(out)@ + s@.take(i as int),
        decreases s@.len() - i,
    {
        out.push(s[i]);
        i = i + 1;
        proof {
            assert(out@ =~= old(out)@ + s@.take(i as int));
        }
    }
    proof {
        assert(s@.take(i as int) =~= s@);
    }
}

fn spaced_title(t: &String) -> (r: Vec<char>)
    ensures
        r@ == underscores_to_spaces(t@),
{
    let c = chars_of(t.as_str());
    let mut r: Vec<char> = Vec::new();
    let mut i: usize = 0;
    while i < c.len()
        invariant
            i <= c@.len(),
            r@ == underscores_to_spaces(c@.take(i as int)),
        decreases c@.len() - i,
    {
        if c[i] == '_' {
            r.push(' ');
        } else {
            r.push(c[i]);
        }
        i = i + 1;
        proof {
            assert(r@ =~= underscores_to_spaces(c@.take(i as int)));
        }
    }
    proof {
        assert(c@.take(i as int) =~= c@);
    }
    r
}

/// Renders the table as comma-separated text: the column titles, with
/// spaces for underscores, then one row for each value of the first column,
/// where a column shorter than the first gives an empty field. The table
/// must have a column.
pub fn write_csv(table: &Table) -> (r: String)
    requires
        table.columns@.len() >= 1,
    ensures
        r@ == csv_of(columns_view(table.columns@)),
{
    let ghost cv = columns_view(table.columns@);
    let mut out: Vec<char> = Vec::new();
    let n = table.columns.len();
    let mut k: usize = 0;
    proof {
        assert(header_fields(cv).take(0) =~= Seq::<Seq<char>>::empty());
    }
    while k < n
        invariant
            k <= n == table.columns@.len(),
            cv == columns_view(table.columns@),
            out@ == join_fields(header_fields(cv).take(k as int)),
        decreases n - k,
    {
        let t = spaced_title(&table.columns[k].title);
        let ghost before = out@;
        if k > 0 {
            out.push(',');
        }
        push_all(&mut out, &t);
        proof {
            let h = header_fields(cv).take(k + 1);
            assert(h.drop_last() =~= header_fields(cv).take(k as int));
            assert(h.last() == t@);
            if k == 0 {
                assert(out@ =~= h[0]);
            } else {
                assert(out@ =~= join_fields(h.drop_last()) + seq![','] + h.last());
            }
        }
        k = k + 1;
    }
    proof {
        assert(header_fields(cv).take(n as int) =~= header_fields(cv));
    }
    out.push('\n');
    let ghost head = out@;
    let rows = table.columns[0].values.len();
    let mut i: usize = 0;
    while i < rows
        invariant
            i <= rows == cv[0].1.len(),
            n == table.columns@.len() >= 1,
            cv == columns_view(table.columns@),
            out@ == head + rows_text(cv, i as int),
        decreases rows - i,
    {
        let ghost line_start = out@;
        let mut k: usize = 0;
        proof {
            assert(row_fields(cv, i as int).take(0) =~= Seq::<Seq<char>>::empty());
            assert(out@ =~= line_start + join_fields(row_fields(cv, i as int).take(0)));
        }
        while k < n
            invariant
                k <= n == table.columns@.len(),
                i < rows,
                cv == columns_view(table.columns@),
                out@ == line_start + join_fields(row_fields(cv, i as int).take(k as int)),
            decreases n - k,
        {
            let col = &table.columns[k];
            let field: Vec<char> = if i < col.values.len() {
                chars_of(col.values[i].as_str())
            } else {
                Vec::new()
            };
            proof {
                assert(field@ == row_fields(cv, i as int)[k as int]);
            }
            if k > 0 {
                out.push(',');
            }
            push_all(&mut out, &field);
            proof {
                let h = row_fields(cv, i as int).take(k + 1);
                assert(h.drop_last() =~= row_fields(cv, i as int).take(k as int));
                assert(h.last() == field@);
                if k == 0 {
                    assert(out@ =~= line_start + h[0]);
                } else {
                    assert(out@ =~= line_start + (join_fields(h.drop_last()) + seq![','] + h.last()));
                }
            }
            k = k + 1;
        }
        proof {
            assert(row_fields(cv, i as int).take(n as int) =~= row_fields(cv, i as int));
        }
        out.push('\n');
        proof {
            assert(out@ =~= head + rows_text(cv, i + 1));
        }
        i = i + 1;
    }
    text_of(&out)
}

/// The columns that a plot draws, as a first and last column number
/// counted from 1: every column after the x axis, or none where the table
/// holds no column besides the x axis.
pub fn plot_columns(n_columns: usize) -> (r: Option<(usize, usize)>)
    ensures
        n_columns <= 1 ==> r is None,
        n_columns >= 2 ==> r == Some((2usize, n_columns)),
{
    if n_columns <= 1 {
        None
    } else {
        Some((2, n_columns))
    }
}

} // verus!

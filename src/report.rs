//! Reading one profiler report: blocks of a region header, a metric header
//! and metric lines, into the readings of each region.
use vstd::prelude::*;
use crate::assoc::{key_index, keys_unique, lemma_put_unique, put};
use crate::text::{
    decimal_of, u32_text, chars_of, find_char, find_char_exec, find_sub, find_sub_exec,
    is_number_text, is_number_text_exec, split_newlines, split_pieces, starts_with,
    starts_with_exec, strip_cr, strip_cr_exec, sub_vec, text_of,
};

verus! {

/// One named reading of a region; `value` is the number as it was written.
pub struct Metric {
    pub key: String,
    pub value: String,
}

impl View for Metric {
    type V = (Seq<char>, Seq<char>);

    open spec fn view(&self) -> (Seq<char>, Seq<char>) {
        (self.key@, self.value@)
    }
}

/// The readings of one region within one report.
pub struct RegionMetrics {
    pub title: String,
    pub metrics: Vec<Metric>,
}

pub open spec fn metrics_view(m: Seq<Metric>) -> Seq<(Seq<char>, Seq<char>)> {
    m.map_values(|x: Metric| x@)
}

impl View for RegionMetrics {
    type V = (Seq<char>, Seq<(Seq<char>, Seq<char>)>);

    open spec fn view(&self) -> Self::V {
        (self.title@, metrics_view(self.metrics@))
    }
}

/// A report as region titles with their readings.
pub open spec fn report_view(r: Seq<RegionMetrics>) -> Seq<(Seq<char>, Seq<(Seq<char>, Seq<char>)>)> {
    r.map_values(|x: RegionMetrics| x@)
}

pub open spec fn table_region_prefix() -> Seq<char> {
    seq!['T', 'A', 'B', 'L', 'E', ',', 'R', 'e', 'g', 'i', 'o', 'n', ' ']
}

pub open spec fn metric_prefix() -> Seq<char> {
    seq!['M', 'e', 't', 'r', 'i', 'c', ',']
}

/// The region named by a header in line `l`: the first `TABLE,Region `
/// anywhere in the line, then the text after it up to the next comma.
pub open spec fn header_name(l: Seq<char>) -> Option<Seq<char>> {
    let p = find_sub(l, table_region_prefix(), 0);
    let n = p + table_region_prefix().len();
    if p >= 0 && find_char(l, ',', n) < l.len() {
        Some(l.subrange(n, find_char(l, ',', n)))
    } else {
        None
    }
}

/// A block opens at piece `i`: a region header, then a metric header that
/// a newline ends.
pub open spec fn opens_block(ls: Seq<Seq<char>>, i: int) -> bool {
    0 <= i && i + 2 < ls.len() && header_name(ls[i]).is_some() && starts_with(
        ls[i + 1],
        metric_prefix(),
    )
}

/// A line that closes a block.
pub open spec fn is_stop_line(l: Seq<char>) -> bool {
    starts_with(l, seq!['S', 'T', 'R', 'U', 'C', 'T']) || starts_with(
        l,
        seq!['T', 'A', 'B', 'L', 'E'],
    ) || starts_with(l, seq!['R', 'e', 'g', 'i', 'o', 'n'])
}

/// The number of lines from `j` on before the next closing line.
pub open spec fn body_len(ls: Seq<Seq<char>>, j: int) -> nat
    decreases ls.len() - j,
{
    if j < 0 || j >= ls.len() || is_stop_line(ls[j]) {
        0
    } else {
        1 + body_len(ls, j + 1)
    }
}

/// The reading on a metric line: the key before the first comma and the
/// number up to the next comma. None where the line has no comma or the
/// second field is not a number.
pub open spec fn line_metric(l: Seq<char>) -> Option<(Seq<char>, Seq<char>)> {
    let c = find_char(l, ',', 0);
    if c >= l.len() {
        None
    } else {
        let v = l.subrange(c + 1, find_char(l, ',', c + 1));
        if is_number_text(v) {
            Some((l.take(c), v))
        } else {
            None
        }
    }
}

/// The readings of a block's lines, in order, without the lines skipped.
pub open spec fn metrics_of(body: Seq<Seq<char>>) -> Seq<(Seq<char>, Seq<char>)>
    decreases body.len(),
{
    if body.len() == 0 {
        Seq::empty()
    } else {
        let p = metrics_of(body.drop_last());
        match line_metric(body.last()) {
            Some(m) => p.push(m),
            None => p,
        }
    }
}

/// Why a line of a block gives no reading: `(false, line)` where it has no
/// comma, `(true, field)` where its second field is not a number.
pub open spec fn line_issue(l: Seq<char>) -> Option<(bool, Seq<char>)> {
    let c = find_char(l, ',', 0);
    if c >= l.len() {
        Some((false, l))
    } else {
        let v = l.subrange(c + 1, find_char(l, ',', c + 1));
        if is_number_text(v) {
            None
        } else {
            Some((true, v))
        }
    }
}

/// The issues of a block's lines, in order.
pub open spec fn issues_of(body: Seq<Seq<char>>) -> Seq<(bool, Seq<char>)>
    decreases body.len(),
{
    if body.len() == 0 {
        Seq::empty()
    } else {
        let p = issues_of(body.drop_last());
        match line_issue(body.last()) {
            Some(x) => p.push(x),
            None => p,
        }
    }
}

/// The issues of every block from line `i` on, in order.
pub open spec fn scan_issues(ls: Seq<Seq<char>>, i: int) -> Seq<(bool, Seq<char>)>
    decreases ls.len() - i via scan_issues_decreases
{
    if i < 0 || i >= ls.len() {
        Seq::empty()
    } else if opens_block(ls, i) {
        let e = i + 2 + body_len(ls, i + 2);
        issues_of(body_lines(ls, i)) + scan_issues(ls, e)
    } else {
        scan_issues(ls, i + 1)
    }
}

/// The lines of a text's blocks that give no reading, with their issue.
pub open spec fn issues_in(s: Seq<char>) -> Seq<(bool, Seq<char>)> {
    scan_issues(split_newlines(s), 0)
}

/// A line of a block that gives no reading.
pub enum LineIssue {
    /// The line, which has no comma.
    Malformed(String),
    /// The second field, which is not a number.
    NotANumber(String),
}

impl View for LineIssue {
    type V = (bool, Seq<char>);

    open spec fn view(&self) -> (bool, Seq<char>) {
        match self {
            LineIssue::Malformed(l) => (false, l@),
            LineIssue::NotANumber(v) => (true, v@),
        }
    }
}

pub open spec fn issues_view(v: Seq<LineIssue>) -> Seq<(bool, Seq<char>)> {
    v.map_values(|x: LineIssue| x@)
}

/// Each piece without its carriage return.
pub open spec fn clean_lines(ls: Seq<Seq<char>>) -> Seq<Seq<char>> {
    ls.map_values(|l: Seq<char>| strip_cr(l))
}

/// Where a body running from piece `j` to piece `e` stops: at `e`, or one
/// earlier where the body runs to the end of the text and the last piece
/// is empty, as a text ending in a newline has no line after it.
pub open spec fn body_stop(ls: Seq<Seq<char>>, j: int, e: int) -> int {
    if e == ls.len() && e > j && ls[e - 1].len() == 0 {
        e - 1
    } else {
        e
    }
}

/// The lines of the body of a block that opens at piece `i`.
pub open spec fn body_lines(ls: Seq<Seq<char>>, i: int) -> Seq<Seq<char>> {
    let e = i + 2 + body_len(ls, i + 2);
    clean_lines(ls.subrange(i + 2, body_stop(ls, i + 2, e)))
}

/// The report read from piece `i` on, on top of `acc`: each block puts its
/// region's readings, so a later block of the same region replaces an
/// earlier one. The search goes on after the block's body.
pub open spec fn scan_blocks(
    ls: Seq<Seq<char>>,
    i: int,
    acc: Seq<(Seq<char>, Seq<(Seq<char>, Seq<char>)>)>,
) -> Seq<(Seq<char>, Seq<(Seq<char>, Seq<char>)>)>
    decreases ls.len() - i via scan_blocks_decreases
{
    if i < 0 || i >= ls.len() {
        acc
    } else if opens_block(ls, i) {
        let e = i + 2 + body_len(ls, i + 2);
        scan_blocks(ls, e, put(acc, header_name(ls[i]).unwrap(), metrics_of(body_lines(ls, i))))
    } else {
        scan_blocks(ls, i + 1, acc)
    }
}

/// The report that a text reads as.
pub open spec fn report_of(s: Seq<char>) -> Seq<(Seq<char>, Seq<(Seq<char>, Seq<char>)>)> {
    scan_blocks(split_newlines(s), 0, Seq::empty())
}

pub(crate) proof fn lemma_body_len_bound(ls: Seq<Seq<char>>, j: int)
    requires
        0 <= j <= ls.len(),
    ensures
        j + body_len(ls, j) <= ls.len(),
    decreases ls.len() - j,
{
    if j < ls.len() && !is_stop_line(ls[j]) {
        lemma_body_len_bound(ls, j + 1);
    }
}

#[via_fn]
proof fn scan_blocks_decreases(
    ls: Seq<Seq<char>>,
    i: int,
    acc: Seq<(Seq<char>, Seq<(Seq<char>, Seq<char>)>)>,
) {
    if 0 <= i < ls.len() && opens_block(ls, i) {
        lemma_body_len_bound(ls, i + 2);
    }
}

#[via_fn]
proof fn scan_issues_decreases(ls: Seq<Seq<char>>, i: int) {
    if 0 <= i < ls.len() && opens_block(ls, i) {
        lemma_body_len_bound(ls, i + 2);
    }
}

fn is_stop_line_exec(l: &Vec<char>) -> (r: bool)
    ensures
        r == is_stop_line(l@),
{
    let p1 = vec!['S', 'T', 'R', 'U', 'C', 'T'];
    let p2 = vec!['T', 'A', 'B', 'L', 'E'];
    let p3 = vec!['R', 'e', 'g', 'i', 'o', 'n'];
    proof {
        assert(p1@ =~= seq!['S', 'T', 'R', 'U', 'C', 'T']);
        assert(p2@ =~= seq!['T', 'A', 'B', 'L', 'E']);
        assert(p3@ =~= seq!['R', 'e', 'g', 'i', 'o', 'n']);
    }
    starts_with_exec(l, &p1) || starts_with_exec(l, &p2) || starts_with_exec(l, &p3)
}

fn header_name_exec(l: &Vec<char>) -> (r: Option<Vec<char>>)
    ensures
        r is Some <==> header_name(l@) is Some,
        r is Some ==> r->0@ == header_name(l@)->0,
{
    let p = vec!['T', 'A', 'B', 'L', 'E', ',', 'R', 'e', 'g', 'i', 'o', 'n', ' '];
    proof {
        assert(p@ =~= table_region_prefix());
        assert(p@.len() == 13);
    }
    match find_sub_exec(l, &p) {
        None => None,
        Some(at) => {
            let len = l.len();
            assert(at + 13 <= len);
            let n = at + 13;
            let c = find_char_exec(l, ',', n);
            proof {
                crate::text::lemma_find_char_bounds(l@, ',', n as int);
            }
            if c >= l.len() {
                None
            } else {
                Some(sub_vec(l, n, c))
            }
        },
    }
}

fn line_metric_exec(l: &Vec<char>) -> (r: Result<Metric, LineIssue>)
    ensures
        r is Ok <==> line_metric(l@) is Some,
        r is Ok ==> r->Ok_0@ == line_metric(l@)->0,
        r is Err <==> line_issue(l@) is Some,
        r is Err ==> r->Err_0@ == line_issue(l@)->0,
{
    let c = find_char_exec(l, ',', 0);
    if c >= l.len() {
        return Err(LineIssue::Malformed(text_of(l)));
    }
    let e = find_char_exec(l, ',', c + 1);
    proof {
        crate::text::lemma_find_char_bounds(l@, ',', c + 1);
    }
    let v = sub_vec(l, c + 1, e);
    if is_number_text_exec(&v) {
        let k = sub_vec(l, 0, c);
        proof {
            assert(k@ =~= l@.take(c as int));
        }
        Ok(Metric { key: text_of(&k), value: text_of(&v) })
    } else {
        Err(LineIssue::NotANumber(text_of(&v)))
    }
}

fn metrics_exec(ls: &Vec<Vec<char>>, lo: usize, hi: usize) -> (r: (Vec<Metric>, Vec<LineIssue>))
    requires
        lo <= hi <= ls@.len(),
    ensures
        metrics_view(r.0@) == metrics_of(clean_lines(ls@.map_values(|l: Vec<char>| l@).subrange(lo as int, hi as int))),
        issues_view(r.1@) == issues_of(clean_lines(ls@.map_values(|l: Vec<char>| l@).subrange(lo as int, hi as int))),
{
    let ghost lv = ls@.map_values(|l: Vec<char>| l@);
    let mut out: Vec<Metric> = Vec::new();
    let mut bad: Vec<LineIssue> = Vec::new();
    let mut k: usize = lo;
    proof {
        assert(metrics_view(out@) =~= metrics_of(clean_lines(lv.subrange(lo as int, lo as int))));
        assert(issues_view(bad@) =~= issues_of(clean_lines(lv.subrange(lo as int, lo as int))));
    }
    while k < hi
        invariant
            lo <= k <= hi <= ls@.len(),
            lv == ls@.map_values(|l: Vec<char>| l@),
            metrics_view(out@) == metrics_of(clean_lines(lv.subrange(lo as int, k as int))),
            issues_view(bad@) == issues_of(clean_lines(lv.subrange(lo as int, k as int))),
        decreases hi - k,
    {
        let line = strip_cr_exec(ls[k].clone());
        let m = line_metric_exec(&line);
        proof {
            assert(clean_lines(lv.subrange(lo as int, k + 1)).drop_last() =~= clean_lines(lv.subrange(lo as int, k as int)));
            assert(clean_lines(lv.subrange(lo as int, k + 1)).last() == strip_cr(ls@[k as int]@));
        }
        match m {
            Ok(m) => {
                out.push(m);
                proof {
                    assert(metrics_view(out@) =~= metrics_of(clean_lines(lv.subrange(lo as int, k + 1))));
                    assert(issues_view(bad@) =~= issues_of(clean_lines(lv.subrange(lo as int, k + 1))));
                }
            },
            Err(x) => {
                bad.push(x);
                proof {
                    assert(metrics_view(out@) =~= metrics_of(clean_lines(lv.subrange(lo as int, k + 1))));
                    assert(issues_view(bad@) =~= issues_of(clean_lines(lv.subrange(lo as int, k + 1))));
                }
            },
        }
        k = k + 1;
    }
    (out, bad)
}

fn put_region(acc: &mut Vec<RegionMetrics>, region: RegionMetrics)
    ensures
        report_view(final(acc)@) == put(report_view(old(acc)@), region.title@, region@.1),
{
    let ghost v = report_view(acc@);
    let mut i: usize = 0;
    while i < acc.len()
        invariant
            i <= acc@.len(),
            v == report_view(acc@),
            acc@ == old(acc)@,
            key_index(v, region.title@, i as int) == key_index(v, region.title@, 0),
        decreases acc@.len() - i,
    {
        if acc[i].title == region.title {
            let ghost item = region@;
            proof {
                assert(v[i as int].0 == region.title@);
                assert(key_index(v, region.title@, i as int) == i as int);
            }
            acc.set(i, region);
            proof {
                assert(report_view(acc@) =~= v.update(i as int, item));
            }
            return;
        }
        i = i + 1;
    }
    let ghost item = region@;
    acc.push(region);
    proof {
        assert(report_view(acc@) =~= v.push(item));
    }
}

/// Reads a report as `likwid_extract` does, and also gives each line of a
/// block that gave no reading, with its issue, in order.
pub fn likwid_extract_reporting(input: &str) -> (r: (Vec<RegionMetrics>, Vec<LineIssue>))
    ensures
        report_view(r.0@) == report_of(input@),
        keys_unique(report_view(r.0@)),
        issues_view(r.1@) == issues_in(input@),
{
    let chars = chars_of(input);
    let ls = split_pieces(&chars);
    let ghost lv = ls@.map_values(|l: Vec<char>| l@);
    proof {
        assert(lv =~= split_newlines(input@));
    }
    let mp = vec!['M', 'e', 't', 'r', 'i', 'c', ','];
    proof {
        assert(mp@ =~= metric_prefix());
    }
    let mut acc: Vec<RegionMetrics> = Vec::new();
    let mut issues: Vec<LineIssue> = Vec::new();
    proof {
        assert(report_view(acc@) =~= Seq::empty());
        assert(issues_view(issues@) + scan_issues(lv, 0) =~= scan_issues(lv, 0));
    }
    let mut i: usize = 0;
    while i < ls.len()
        invariant
            i <= ls@.len(),
            lv == ls@.map_values(|l: Vec<char>| l@),
            mp@ == metric_prefix(),
            scan_blocks(lv, i as int, report_view(acc@)) == scan_blocks(lv, 0, Seq::empty()),
            issues_view(issues@) + scan_issues(lv, i as int) == scan_issues(lv, 0),
            keys_unique(report_view(acc@)),
        decreases ls@.len() - i,
    {
        let name = header_name_exec(&ls[i]);
        let opens = match &name {
            Some(_) => ls.len() - i > 2 && starts_with_exec(&ls[i + 1], &mp),
            None => false,
        };
        if opens {
            let mut e: usize = i + 2;
            proof {
                lemma_body_len_bound(lv, i + 2);
            }
            while e < ls.len() && !is_stop_line_exec(&ls[e])
                invariant
                    i + 2 <= e <= ls@.len(),
                    lv == ls@.map_values(|l: Vec<char>| l@),
                    e + body_len(lv, e as int) == i + 2 + body_len(lv, i + 2),
                decreases ls@.len() - e,
            {
                e = e + 1;
            }
            let stop = if e == ls.len() && e > i + 2 && ls[e - 1].len() == 0 {
                e - 1
            } else {
                e
            };
            let (ms, mut bad) = metrics_exec(&ls, i + 2, stop);
            let ghost before = issues_view(issues@);
            let ghost added = issues_view(bad@);
            issues.append(&mut bad);
            proof {
                assert(issues_view(issues@) =~= before + added);
                assert(before + added + scan_issues(lv, e as int) =~= before + (added + scan_issues(lv, e as int)));
            }
            let title = match name {
                Some(n) => text_of(&n),
                None => String::new(),
            };
            proof {
                lemma_put_unique(report_view(acc@), title@, metrics_view(ms@));
            }
            put_region(&mut acc, RegionMetrics { title, metrics: ms });
            i = e;
        } else {
            i = i + 1;
        }
    }
    proof {
        assert(scan_issues(lv, i as int) =~= Seq::empty());
        assert(issues_view(issues@) + Seq::empty() =~= issues_view(issues@));
    }
    (acc, issues)
}

/// Reads a report: for each block, the region's readings, in the order of
/// the region's first block; a later block of the same region replaces the
/// earlier one's readings. Lines that are not blocks are passed over.
pub fn likwid_extract(input: &str) -> (r: Vec<RegionMetrics>)
    ensures
        report_view(r@) == report_of(input@),
        keys_unique(report_view(r@)),
{
    likwid_extract_reporting(input).0
}

/// The profiler's arguments for one run: counters of `group` on processor
/// `core`, with markers, then the program and its arguments.
pub fn perfctr_args(group: &String, core: u8, program: &Vec<String>) -> (r: Vec<String>)
    ensures
        r@.len() == 6 + program@.len(),
        r@[0]@ == seq!['-', 'O'],
        r@[1]@ == seq!['-', 'C'],
        r@[2]@ == decimal_of(core as nat),
        r@[3]@ == seq!['-', 'g'],
        r@[4]@ == group@,
        r@[5]@ == seq!['-', 'm'],
        forall|i: int| 0 <= i < program@.len() ==> #[trigger] r@[6 + i]@ == program@[i]@,
{
    let a0 = String::from_str("-O");
    let a1 = String::from_str("-C");
    let a3 = String::from_str("-g");
    let a5 = String::from_str("-m");
    proof {
        reveal_strlit("-O");
        reveal_strlit("-C");
        reveal_strlit("-g");
        reveal_strlit("-m");
        assert(a0@ =~= seq!['-', 'O']);
        assert(a1@ =~= seq!['-', 'C']);
        assert(a3@ =~= seq!['-', 'g']);
        assert(a5@ =~= seq!['-', 'm']);
    }
    let mut r: Vec<String> = vec![a0, a1, u32_text(core as u32), a3, group.clone(), a5];
    let mut i: usize = 0;
    while i < program.len()
        invariant
            i <= program@.len(),
            r@.len() == 6 + i,
            r@[0]@ == seq!['-', 'O'],
            r@[1]@ == seq!['-', 'C'],
            r@[2]@ == decimal_of(core as nat),
            r@[3]@ == seq!['-', 'g'],
            r@[4]@ == group@,
            r@[5]@ == seq!['-', 'm'],
            forall|j: int| 0 <= j < i ==> #[trigger] r@[6 + j]@ == program@[j]@,
        decreases program@.len() - i,
    {
        r.push(program[i].clone());
        i = i + 1;
    }
    r
}

} // verus!

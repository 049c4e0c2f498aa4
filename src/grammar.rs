//! The report grammar read backwards: the text that well-formed blocks
//! make, and the laws that reading it gives the blocks back.
use vstd::prelude::*;
use crate::assoc::{key_index, put, lemma_key_index_bounds};
use crate::laws::lemma_put_twice;
use crate::report::{
    body_len, body_lines, body_stop, clean_lines, header_name, is_stop_line, line_metric,
    metric_prefix, metrics_of, opens_block, report_of, scan_blocks, table_region_prefix,
};
use crate::text::{
    find_char, find_sub, is_number_text, lemma_number_text_chars, split_newlines, starts_with,
    strip_cr,
};

verus! {

/// A metric line: the key, a comma, the number.
pub open spec fn metric_line(m: (Seq<char>, Seq<char>)) -> Seq<char> {
    m.0 + seq![','] + m.1
}

/// A region header line: the prefix, the name, a comma, then further
/// fields `t`.
pub open spec fn header_line(name: Seq<char>, t: Seq<char>) -> Seq<char> {
    table_region_prefix() + name + seq![','] + t
}

/// The lines of one block: the region header with fields `t`, the metric
/// header with fields `h`, then one line for each reading.
pub open spec fn block_lines(
    b: (Seq<char>, Seq<(Seq<char>, Seq<char>)>),
    t: Seq<char>,
    h: Seq<char>,
) -> Seq<Seq<char>> {
    seq![header_line(b.0, t), metric_prefix() + h] + b.1.map_values(
        |m: (Seq<char>, Seq<char>)| metric_line(m),
    )
}

/// The lines of a report made of these blocks, in order.
pub open spec fn report_lines(
    bs: Seq<(Seq<char>, Seq<(Seq<char>, Seq<char>)>)>,
    t: Seq<char>,
    h: Seq<char>,
) -> Seq<Seq<char>>
    decreases bs.len(),
{
    if bs.len() == 0 {
        Seq::empty()
    } else {
        block_lines(bs[0], t, h) + report_lines(bs.drop_first(), t, h)
    }
}

pub open spec fn no_comma(s: Seq<char>) -> bool {
    forall|i: int| 0 <= i < s.len() ==> s[i] != ','
}

/// A reading that a metric line can carry: comma-free key and number, and
/// a line that does not close a block.
pub open spec fn well_formed_reading(m: (Seq<char>, Seq<char>)) -> bool {
    no_comma(m.0) && no_comma(m.1) && is_number_text(m.1) && !is_stop_line(metric_line(m))
}

/// Blocks with comma-free region names and well-formed readings.
pub open spec fn readable_blocks(bs: Seq<(Seq<char>, Seq<(Seq<char>, Seq<char>)>)>) -> bool {
    &&& forall|j: int| 0 <= j < bs.len() ==> no_comma(#[trigger] bs[j].0)
    &&& forall|j: int, t: int|
        0 <= j < bs.len() && 0 <= t < bs[j].1.len() ==> well_formed_reading(#[trigger] bs[j].1[t])
}

/// Readable blocks whose region names are distinct.
pub open spec fn well_formed_blocks(bs: Seq<(Seq<char>, Seq<(Seq<char>, Seq<char>)>)>) -> bool {
    &&& readable_blocks(bs)
    &&& forall|a: int, b: int| 0 <= a < b < bs.len() ==> bs[a].0 != bs[b].0
}

/// Each block put in turn on top of `acc`.
pub open spec fn put_all(
    acc: Seq<(Seq<char>, Seq<(Seq<char>, Seq<char>)>)>,
    bs: Seq<(Seq<char>, Seq<(Seq<char>, Seq<char>)>)>,
) -> Seq<(Seq<char>, Seq<(Seq<char>, Seq<char>)>)>
    decreases bs.len(),
{
    if bs.len() == 0 {
        acc
    } else {
        put_all(put(acc, bs[0].0, bs[0].1), bs.drop_first())
    }
}

/// Lines joined into a text, each ended by a newline.
pub open spec fn joined(ls: Seq<Seq<char>>) -> Seq<char>
    decreases ls.len(),
{
    if ls.len() == 0 {
        Seq::empty()
    } else {
        joined(ls.drop_last()) + ls.last() + seq!['\n']
    }
}

/// A line that reads back as itself: no newline in it, no carriage return
/// at its end.
pub open spec fn plain_line(l: Seq<char>) -> bool {
    (forall|i: int| 0 <= i < l.len() ==> l[i] != '\n') && (l.len() == 0 || l.last() != '\r')
}

/// Region names and metric keys free of newlines.
pub open spec fn single_line_blocks(bs: Seq<(Seq<char>, Seq<(Seq<char>, Seq<char>)>)>) -> bool {
    &&& forall|j: int, i: int| 0 <= j < bs.len() && 0 <= i < bs[j].0.len() ==> #[trigger] bs[j].0[i] != '\n'
    &&& forall|j: int, t: int, i: int|
        0 <= j < bs.len() && 0 <= t < bs[j].1.len() && 0 <= i < bs[j].1[t].0.len() ==> #[trigger] bs[j].1[t].0[i] != '\n'
}

proof fn lemma_find_char_at(s: Seq<char>, c: char, i: int, p: int)
    requires
        0 <= i <= p <= s.len(),
        forall|j: int| i <= j < p ==> s[j] != c,
        p == s.len() || s[p] == c,
    ensures
        find_char(s, c, i) == p,
    decreases p - i,
{
    if i < p {
        lemma_find_char_at(s, c, i + 1, p);
    }
}

proof fn lemma_line_metric(m: (Seq<char>, Seq<char>))
    requires
        well_formed_reading(m),
    ensures
        line_metric(metric_line(m)) == Some(m),
        strip_cr(metric_line(m)) == metric_line(m),
{
    let l = metric_line(m);
    let k = m.0.len() as int;
    lemma_find_char_at(l, ',', 0, k);
    lemma_find_char_at(l, ',', k + 1, l.len() as int);
    assert(l.subrange(k + 1, l.len() as int) =~= m.1);
    assert(l.take(k) =~= m.0);
    lemma_number_text_chars(m.1, m.1.len() - 1);
    assert(l.last() == m.1.last());
}

proof fn lemma_metrics_of_lines(ms: Seq<(Seq<char>, Seq<char>)>)
    requires
        forall|t: int| 0 <= t < ms.len() ==> well_formed_reading(#[trigger] ms[t]),
    ensures
        metrics_of(clean_lines(ms.map_values(|m: (Seq<char>, Seq<char>)| metric_line(m)))) == ms,
    decreases ms.len(),
{
    let ls = ms.map_values(|m: (Seq<char>, Seq<char>)| metric_line(m));
    assert forall|t: int| 0 <= t < ls.len() implies strip_cr(#[trigger] ls[t]) == ls[t] by {
        lemma_line_metric(ms[t]);
    }
    assert(clean_lines(ls) =~= ls);
    if ms.len() > 0 {
        let ls2 = ms.drop_last().map_values(|m: (Seq<char>, Seq<char>)| metric_line(m));
        assert(ls.drop_last() =~= ls2);
        lemma_metrics_of_lines(ms.drop_last());
        assert forall|t: int| 0 <= t < ls2.len() implies strip_cr(#[trigger] ls2[t]) == ls2[t] by {
            lemma_line_metric(ms[t]);
        }
        assert(clean_lines(ls2) =~= ls2);
        lemma_line_metric(ms.last());
        assert(ms.drop_last().push(ms.last()) =~= ms);
    }
}

proof fn lemma_header_name(name: Seq<char>, t: Seq<char>)
    requires
        no_comma(name),
    ensures
        header_name(header_line(name, t)) == Some(name),
        starts_with(header_line(name, t), seq!['T', 'A', 'B', 'L', 'E']),
{
    let l = header_line(name, t);
    let n = table_region_prefix().len() as int;
    assert(l.subrange(0, n) =~= table_region_prefix());
    assert(find_sub(l, table_region_prefix(), 0) == 0);
    assert(l.take(5) =~= seq!['T', 'A', 'B', 'L', 'E']);
    lemma_find_char_at(l, ',', n, n + name.len());
    assert(l.subrange(n, n + name.len()) =~= name);
}

proof fn lemma_body_len_at(ls: Seq<Seq<char>>, j: int, k: int)
    requires
        0 <= j <= k <= ls.len(),
        forall|t: int| j <= t < k ==> !is_stop_line(#[trigger] ls[t]),
        k == ls.len() || is_stop_line(ls[k]),
    ensures
        body_len(ls, j) == k - j,
    decreases k - j,
{
    if j < k {
        lemma_body_len_at(ls, j + 1, k);
    }
}

proof fn lemma_rest_readable(bs: Seq<(Seq<char>, Seq<(Seq<char>, Seq<char>)>)>)
    requires
        readable_blocks(bs),
        bs.len() > 0,
    ensures
        readable_blocks(bs.drop_first()),
{
    let rest = bs.drop_first();
    assert forall|j: int, t: int|
        0 <= j < rest.len() && 0 <= t < rest[j].1.len() implies well_formed_reading(#[trigger] rest[j].1[t]) by {
        assert(rest[j] == bs[j + 1]);
    }
    assert forall|j: int| 0 <= j < rest.len() implies no_comma(#[trigger] rest[j].0) by {
        assert(rest[j] == bs[j + 1]);
    }
}

proof fn lemma_scan_report_lines(
    x: Seq<Seq<char>>,
    bs: Seq<(Seq<char>, Seq<(Seq<char>, Seq<char>)>)>,
    t: Seq<char>,
    h: Seq<char>,
    acc: Seq<(Seq<char>, Seq<(Seq<char>, Seq<char>)>)>,
)
    requires
        readable_blocks(bs),
        bs.len() > 0,
    ensures
        scan_blocks(x + report_lines(bs, t, h) + seq![Seq::<char>::empty()], x.len() as int, acc)
            == put_all(acc, bs),
    decreases bs.len(),
{
    let z = seq![Seq::<char>::empty()];
    let ls = x + report_lines(bs, t, h) + z;
    let b0 = bs[0];
    let rest = bs.drop_first();
    let bl = block_lines(b0, t, h);
    let x2 = x + bl;
    assert(ls =~= x2 + report_lines(rest, t, h) + z);
    let i = x.len() as int;
    let n = b0.1.len() as int;
    let e0 = x2.len() as int;
    lemma_header_name(b0.0, t);
    assert(ls[i] == header_line(b0.0, t));
    assert(ls[i + 1] == metric_prefix() + h);
    assert((metric_prefix() + h).take(metric_prefix().len() as int) =~= metric_prefix());
    assert(opens_block(ls, i));
    assert forall|k: int| i + 2 <= k < e0 implies !is_stop_line(#[trigger] ls[k]) by {
        assert(ls[k] == metric_line(b0.1[k - i - 2]));
    }
    assert forall|k: int| 0 <= k < b0.1.len() implies well_formed_reading(#[trigger] b0.1[k]) by {
        assert(well_formed_reading(bs[0].1[k]));
    }
    let mls = b0.1.map_values(|m: (Seq<char>, Seq<char>)| metric_line(m));
    lemma_metrics_of_lines(b0.1);
    lemma_rest_readable(bs);
    if rest.len() > 0 {
        assert(rest[0] == bs[1]);
        lemma_header_name(rest[0].0, t);
        assert(ls[e0] == header_line(rest[0].0, t));
        lemma_body_len_at(ls, i + 2, e0);
        assert(body_stop(ls, i + 2, e0) == e0);
        assert(ls.subrange(i + 2, e0) =~= mls);
        assert(body_lines(ls, i) == clean_lines(mls));
        lemma_scan_report_lines(x2, rest, t, h, put(acc, b0.0, b0.1));
    } else {
        assert(report_lines(rest, t, h) =~= Seq::<Seq<char>>::empty());
        assert(ls =~= x2 + z);
        assert(!is_stop_line(ls[e0]));
        lemma_body_len_at(ls, i + 2, e0 + 1);
        assert(body_stop(ls, i + 2, e0 + 1) == e0);
        assert(ls.subrange(i + 2, e0) =~= mls);
        assert(body_lines(ls, i) == clean_lines(mls));
        assert(scan_blocks(ls, e0 + 1, put(acc, b0.0, b0.1)) == put(acc, b0.0, b0.1));
        assert(put_all(put(acc, b0.0, b0.1), rest) == put(acc, b0.0, b0.1));
    }
}

proof fn lemma_put_all_distinct(
    acc: Seq<(Seq<char>, Seq<(Seq<char>, Seq<char>)>)>,
    bs: Seq<(Seq<char>, Seq<(Seq<char>, Seq<char>)>)>,
)
    requires
        forall|a: int, b: int| 0 <= a < b < bs.len() ==> bs[a].0 != bs[b].0,
        forall|a: int, b: int| 0 <= a < acc.len() && 0 <= b < bs.len() ==> acc[a].0 != bs[b].0,
    ensures
        put_all(acc, bs) == acc + bs,
    decreases bs.len(),
{
    if bs.len() == 0 {
        assert(acc + bs =~= acc);
    } else {
        let b0 = bs[0];
        let rest = bs.drop_first();
        lemma_key_index_bounds(acc, b0.0, 0);
        if key_index(acc, b0.0, 0) >= 0 {
            assert(acc[key_index(acc, b0.0, 0)].0 != bs[0].0);
        }
        assert(put(acc, b0.0, b0.1) == acc.push(b0));
        assert forall|a: int, b: int|
            0 <= a < acc.push(b0).len() && 0 <= b < rest.len() implies acc.push(b0)[a].0 != rest[b].0 by {
            assert(rest[b] == bs[b + 1]);
        }
        assert forall|a: int, b: int| 0 <= a < b < rest.len() implies rest[a].0 != rest[b].0 by {
            assert(rest[a] == bs[a + 1]);
            assert(rest[b] == bs[b + 1]);
        }
        lemma_put_all_distinct(acc.push(b0), rest);
        assert(acc.push(b0) + rest =~= acc + bs);
    }
}

proof fn lemma_split_extend(p: Seq<char>, l: Seq<char>)
    requires
        forall|i: int| 0 <= i < l.len() ==> l[i] != '\n',
    ensures
        split_newlines(p).len() >= 1,
        split_newlines(p + l) == split_newlines(p).update(
            split_newlines(p).len() - 1,
            split_newlines(p).last() + l,
        ),
    decreases l.len(),
{
    crate::text::lemma_split_nonempty(p);
    if l.len() == 0 {
        assert(p + l =~= p);
        assert(split_newlines(p).last() + l =~= split_newlines(p).last());
        assert(split_newlines(p).update(split_newlines(p).len() - 1, split_newlines(p).last())
            =~= split_newlines(p));
    } else {
        let l2 = l.drop_last();
        lemma_split_extend(p, l2);
        assert((p + l).drop_last() =~= p + l2);
        assert((p + l).last() == l.last());
        let sp = split_newlines(p);
        assert(sp.last() + l2 + seq![l.last()] =~= sp.last() + l);
        assert(sp.update(sp.len() - 1, sp.last() + l2).update(sp.len() - 1, sp.last() + l)
            =~= sp.update(sp.len() - 1, sp.last() + l));
        assert((sp.last() + l2).push(l.last()) =~= sp.last() + l);
    }
}

proof fn lemma_split_joined(ls: Seq<Seq<char>>)
    requires
        forall|t: int| 0 <= t < ls.len() ==> plain_line(#[trigger] ls[t]),
    ensures
        split_newlines(joined(ls)) == ls.push(Seq::<char>::empty()),
    decreases ls.len(),
{
    if ls.len() == 0 {
        assert(split_newlines(Seq::<char>::empty()) =~= seq![Seq::<char>::empty()]);
        assert(ls.push(Seq::<char>::empty()) =~= seq![Seq::<char>::empty()]);
    } else {
        let p = ls.drop_last();
        lemma_split_joined(p);
        let l = ls.last();
        assert(plain_line(ls[ls.len() - 1]));
        lemma_split_extend(joined(p), l);
        let t = joined(ls);
        assert(t.drop_last() =~= joined(p) + l);
        assert(t.last() == '\n');
        assert(Seq::<char>::empty() + l =~= l);
        assert(p.push(Seq::<char>::empty()).update(p.len() as int, l).push(Seq::<char>::empty())
            =~= ls.push(Seq::<char>::empty()));
    }
}

proof fn lemma_plain_concat(a: Seq<char>, b: Seq<char>)
    requires
        forall|i: int| 0 <= i < a.len() ==> a[i] != '\n',
        plain_line(b),
        b.len() > 0,
    ensures
        plain_line(a + b),
{
    assert((a + b).last() == b.last());
    assert forall|i: int| 0 <= i < (a + b).len() implies (a + b)[i] != '\n' by {
        if i >= a.len() {
            assert((a + b)[i] == b[i - a.len()]);
        }
    }
}

proof fn lemma_report_lines_plain(
    bs: Seq<(Seq<char>, Seq<(Seq<char>, Seq<char>)>)>,
    t: Seq<char>,
    h: Seq<char>,
)
    requires
        readable_blocks(bs),
        single_line_blocks(bs),
        plain_line(t),
        plain_line(h),
    ensures
        forall|k: int| 0 <= k < report_lines(bs, t, h).len() ==> plain_line(#[trigger] report_lines(bs, t, h)[k]),
    decreases bs.len(),
{
    if bs.len() > 0 {
        let b0 = bs[0];
        let rest = bs.drop_first();
        lemma_rest_readable(bs);
        assert forall|j: int, i: int| 0 <= j < rest.len() && 0 <= i < rest[j].0.len() implies #[trigger] rest[j].0[i] != '\n' by {
            assert(rest[j] == bs[j + 1]);
            assert(bs[j + 1].0[i] != '\n');
        }
        assert forall|j: int, k: int, i: int|
            0 <= j < rest.len() && 0 <= k < rest[j].1.len() && 0 <= i < rest[j].1[k].0.len() implies #[trigger] rest[j].1[k].0[i] != '\n' by {
            assert(rest[j] == bs[j + 1]);
            assert(bs[j + 1].1[k].0[i] != '\n');
        }
        lemma_report_lines_plain(rest, t, h);
        let bl = block_lines(b0, t, h);
        assert forall|k: int| 0 <= k < bl.len() implies plain_line(#[trigger] bl[k]) by {
            if k == 0 {
                let a = table_region_prefix() + b0.0;
                assert forall|i: int| 0 <= i < a.len() implies a[i] != '\n' by {
                    if 13 <= i {
                        assert(a[i] == bs[0].0[i - 13]);
                    }
                }
                lemma_plain_concat(a, seq![','] + t);
                assert(header_line(b0.0, t) =~= a + (seq![','] + t));
            } else if k == 1 {
                if h.len() > 0 {
                    lemma_plain_concat(metric_prefix(), h);
                } else {
                    assert(metric_prefix() + h =~= metric_prefix());
                }
            } else {
                let m = b0.1[k - 2];
                assert(well_formed_reading(bs[0].1[k - 2]));
                assert(bl[k] == metric_line(m));
                let ml = metric_line(m);
                assert forall|i: int| 0 <= i < ml.len() implies ml[i] != '\n' by {
                    if i < m.0.len() {
                        assert(ml[i] == bs[0].1[k - 2].0[i]);
                    } else if i > m.0.len() {
                        assert(ml[i] == m.1[i - m.0.len() - 1]);
                        lemma_number_text_chars(m.1, i - m.0.len() - 1);
                    }
                }
                lemma_number_text_chars(m.1, m.1.len() - 1);
                assert(ml.last() == m.1.last());
            }
        }
        assert(report_lines(bs, t, h) == bl + report_lines(rest, t, h));
        assert forall|k: int| 0 <= k < report_lines(bs, t, h).len() implies plain_line(#[trigger] report_lines(bs, t, h)[k]) by {
            if k < bl.len() {
                assert(report_lines(bs, t, h)[k] == bl[k]);
            } else {
                assert(report_lines(bs, t, h)[k] == report_lines(rest, t, h)[k - bl.len()]);
            }
        }
    }
}

proof fn lemma_report_text(
    bs: Seq<(Seq<char>, Seq<(Seq<char>, Seq<char>)>)>,
    t: Seq<char>,
    h: Seq<char>,
)
    requires
        readable_blocks(bs),
        single_line_blocks(bs),
        plain_line(t),
        plain_line(h),
    ensures
        report_of(joined(report_lines(bs, t, h))) == put_all(Seq::empty(), bs),
{
    let ls = report_lines(bs, t, h);
    lemma_report_lines_plain(bs, t, h);
    lemma_split_joined(ls);
    if bs.len() > 0 {
        lemma_scan_report_lines(Seq::empty(), bs, t, h, Seq::empty());
        assert(Seq::<Seq<char>>::empty() + ls + seq![Seq::<char>::empty()] =~= ls.push(Seq::<char>::empty()));
    } else {
        assert(ls =~= Seq::<Seq<char>>::empty());
        let ps = ls.push(Seq::<char>::empty());
        assert(!opens_block(ps, 0));
        assert(scan_blocks(ps, 1, Seq::empty()) == Seq::<(Seq<char>, Seq<(Seq<char>, Seq<char>)>)>::empty());
    }
}

/// Reading the text of well-formed blocks, one line each, with any further
/// fields `t` on each region header and `h` on each metric header, gives
/// each block's region, with exactly its readings, in the order the blocks
/// stand.
pub proof fn lemma_report_text_round_trip(
    bs: Seq<(Seq<char>, Seq<(Seq<char>, Seq<char>)>)>,
    t: Seq<char>,
    h: Seq<char>,
)
    requires
        well_formed_blocks(bs),
        single_line_blocks(bs),
        plain_line(t),
        plain_line(h),
    ensures
        report_of(joined(report_lines(bs, t, h))) == bs,
{
    lemma_report_text(bs, t, h);
    lemma_put_all_distinct(Seq::empty(), bs);
    assert(Seq::<(Seq<char>, Seq<(Seq<char>, Seq<char>)>)>::empty() + bs =~= bs);
}

/// Of two blocks of one region, only the later one's readings stay: the
/// report names the region once, with the second block's readings.
pub proof fn lemma_duplicate_region_overwrite(
    name: Seq<char>,
    first: Seq<(Seq<char>, Seq<char>)>,
    second: Seq<(Seq<char>, Seq<char>)>,
    t: Seq<char>,
    h: Seq<char>,
)
    requires
        readable_blocks(seq![(name, first), (name, second)]),
        single_line_blocks(seq![(name, first), (name, second)]),
        plain_line(t),
        plain_line(h),
    ensures
        report_of(joined(report_lines(seq![(name, first), (name, second)], t, h))) == seq![
            (name, second),
        ],
{
    let bs = seq![(name, first), (name, second)];
    lemma_report_text(bs, t, h);
    let e = Seq::<(Seq<char>, Seq<(Seq<char>, Seq<char>)>)>::empty();
    assert(bs.drop_first() =~= seq![(name, second)]);
    assert(seq![(name, second)].drop_first() =~= e);
    let e1 = put(e, name, first);
    assert(bs[0] == (name, first));
    assert(put_all(e, bs) == put_all(e1, seq![(name, second)]));
    assert(seq![(name, second)][0] == (name, second));
    assert(put_all(e1, seq![(name, second)]) == put_all(put(e1, name, second), e));
    assert(put_all(put(e1, name, second), e) == put(e1, name, second));
    lemma_put_twice(e, name, first, second);
    assert(key_index(e, name, 0) == -1);
    assert(put(e, name, second) =~= seq![(name, second)]);
}

} // verus!

//! Rendering of metric records in the Prometheus text exposition format.
//!
//! Each record gives one line per value sample that reads as an integer
//! (`miktik_<name>_<sample>{labels} <value>`), or, when it has none, the line
//! `miktik_<name>{labels} 0`. The labels are the record's label samples.

use vstd::prelude::*;
use crate::metrics::GroupView;
use crate::metrics::Metrics;
use crate::metrics::SampleView;
use crate::metrics::record_view;
use crate::metrics::records_view;
use crate::text::chars_of;
use crate::text::extend;
use crate::text::extend_str;
use crate::text::isize_decimal;
use crate::text::join;
use crate::text::join_chars;
use crate::text::parse_isize;
use crate::text::parse_isize_chars;
use crate::text::replace_all;
use crate::text::replace_chars;
use crate::text::same_chars;
use crate::text::signed_decimal;
use crate::text::string_of;
use crate::text::views;

verus! {

/// The label that a label sample gives in a record of the metric `qname`:
/// `<qname>_<name>="<value>"`, or `<name>="<value>"` for the router's address
/// and name; `-` in the sample's name is written as `_`.
pub open spec fn label_text(qname: Seq<char>, s: SampleView) -> Seq<char> {
    let n = replace_all(s.0, seq!['-'], seq!['_']);
    if s.0 != "routerboard_address"@ && s.0 != "routerboard_name"@ {
        qname + seq!['_'] + n + seq!['=', '"'] + s.2 + seq!['"']
    } else {
        n + seq!['=', '"'] + s.2 + seq!['"']
    }
}

/// The labels of a record, in order.
pub open spec fn labels(qname: Seq<char>, r: Seq<SampleView>) -> Seq<Seq<char>>
    decreases r.len(),
{
    if r.len() == 0 {
        Seq::empty()
    } else if !r.last().1 {
        labels(qname, r.drop_last()).push(label_text(qname, r.last()))
    } else {
        labels(qname, r.drop_last())
    }
}

/// `es` with the value of `name` set to `v`: in place when `name` is there,
/// at the end when it is not.
pub open spec fn put_value(es: Seq<(Seq<char>, int)>, name: Seq<char>, v: int) -> Seq<
    (Seq<char>, int),
>
    decreases es.len(),
{
    if es.len() == 0 {
        seq![(name, v)]
    } else if es[0].0 == name {
        es.update(0, (name, v))
    } else {
        seq![es[0]] + put_value(es.drop_first(), name, v)
    }
}

/// The values of a record: each value sample whose text reads as an `isize`,
/// one entry per name with the last such value, in the order in which the
/// names first came.
pub open spec fn values_of(r: Seq<SampleView>) -> Seq<(Seq<char>, int)>
    decreases r.len(),
{
    if r.len() == 0 {
        Seq::empty()
    } else {
        let es = values_of(r.drop_last());
        let s = r.last();
        if s.1 {
            match parse_isize(s.2) {
                Some(v) => put_value(es, s.0, v),
                None => es,
            }
        } else {
            es
        }
    }
}

/// The lines for the values `es` of a record of `qname` with labels `lbl`.
pub open spec fn value_lines(qname: Seq<char>, lbl: Seq<char>, es: Seq<(Seq<char>, int)>) -> Seq<
    char,
>
    decreases es.len(),
{
    if es.len() == 0 {
        Seq::empty()
    } else {
        value_lines(qname, lbl, es.drop_last()) + "miktik_"@ + qname + seq!['_'] + es.last().0 + seq![
            '{',
        ] + lbl + seq!['}', ' '] + signed_decimal(es.last().1) + seq!['\n']
    }
}

/// The lines of one record of the metric `qname`.
pub open spec fn record_lines(qname: Seq<char>, r: Seq<SampleView>) -> Seq<char> {
    let lbl = join(labels(qname, r), ", "@);
    let es = values_of(r);
    if es.len() == 0 {
        "miktik_"@ + qname + seq!['{'] + lbl + "} 0\n"@
    } else {
        value_lines(qname, lbl, es)
    }
}

/// The lines of the records `rs` of the metric `qname`.
pub open spec fn group_lines(qname: Seq<char>, rs: Seq<Seq<SampleView>>) -> Seq<char>
    decreases rs.len(),
{
    if rs.len() == 0 {
        Seq::empty()
    } else {
        group_lines(qname, rs.drop_last()) + record_lines(qname, rs.last())
    }
}

/// The lines of all the metrics.
pub open spec fn metrics_text(gs: Seq<GroupView>) -> Seq<char>
    decreases gs.len(),
{
    if gs.len() == 0 {
        Seq::empty()
    } else {
        metrics_text(gs.drop_last()) + group_lines(gs.last().0, gs.last().1)
    }
}

/// The view of a list of named values.
pub open spec fn values_view(v: Seq<(Vec<char>, isize)>) -> Seq<(Seq<char>, int)> {
    v.map_values(|e: (Vec<char>, isize)| (e.0@, e.1 as int))
}

/// The labels of the record `r` of the metric `qname`.
fn labels_of(qname: &[char], r: &Vec<crate::metrics::Sample>) -> (res: Vec<Vec<char>>)
    ensures
        views(res@) == labels(qname@, record_view(r@)),
{
    let ghost rv = record_view(r@);
    let dash = chars_of("-");
    let under = chars_of("_");
    let address = chars_of("routerboard_address");
    let rname = chars_of("routerboard_name");
    proof {
        reveal_strlit("-");
        reveal_strlit("_");
        assert(dash@ =~= seq!['-']);
        assert(under@ =~= seq!['_']);
    }
    let mut out: Vec<Vec<char>> = Vec::new();
    assert(rv.take(0) =~= Seq::<SampleView>::empty());
    for i in 0..r.len()
        invariant
            rv == record_view(r@),
            dash@ == seq!['-'],
            under@ == seq!['_'],
            address@ == "routerboard_address"@,
            rname@ == "routerboard_name"@,
            views(out@) == labels(qname@, rv.take(i as int)),
    {
        assert(rv.take(i + 1).drop_last() =~= rv.take(i as int));
        assert(rv.take(i + 1).last() == rv[i as int]);
        let s = &r[i];
        if !s.1 {
            let name = chars_of(s.0.as_str());
            let n = replace_chars(name.as_slice(), dash.as_slice(), under.as_slice());
            let mut text: Vec<char> = Vec::new();
            if !same_chars(name.as_slice(), address.as_slice()) && !same_chars(
                name.as_slice(),
                rname.as_slice(),
            ) {
                extend(&mut text, qname);
                text.push('_');
            }
            extend(&mut text, n.as_slice());
            text.push('=');
            text.push('"');
            extend_str(&mut text, s.2.as_str());
            text.push('"');
            assert(text@ =~= label_text(qname@, rv[i as int]));
            let ghost before = out@;
            out.push(text);
            assert(views(out@) =~= views(before).push(label_text(qname@, rv[i as int])));
        }
    }
    assert(rv.take(r.len() as int) =~= rv);
    out
}

/// Where `name` stands in `es`, if it is there.
fn find_value(es: &Vec<(Vec<char>, isize)>, name: &[char]) -> (res: Option<usize>)
    ensures
        match res {
            Some(i) => i < es@.len() && values_view(es@)[i as int].0 == name@ && forall|j: int|
                0 <= j < i ==> values_view(es@)[j].0 != name@,
            None => forall|j: int| 0 <= j < es@.len() ==> values_view(es@)[j].0 != name@,
        },
{
    let mut i: usize = 0;
    while i < es.len()
        invariant
            i <= es.len(),
            forall|j: int| 0 <= j < i ==> values_view(es@)[j].0 != name@,
        decreases es.len() - i,
    {
        if same_chars(es[i].0.as_slice(), name) {
            return Some(i);
        }
        i = i + 1;
    }
    None
}

/// Sets the value of `name` in `es` to `v`, as [`put_value`].
fn put_value_exec(es: &mut Vec<(Vec<char>, isize)>, name: Vec<char>, v: isize)
    ensures
        values_view(final(es)@) == put_value(values_view(old(es)@), name@, v as int),
{
    let ghost start = values_view(es@);
    match find_value(es, name.as_slice()) {
        Some(i) => {
            proof {
                lemma_put_at(start, name@, v as int, i as int);
            }
            es.remove(i);
            es.insert(i, (name, v));
            assert(values_view(es@) =~= start.update(i as int, (name@, v as int)));
        },
        None => {
            proof {
                lemma_put_at(start, name@, v as int, start.len() as int);
            }
            let ghost nv = name@;
            es.push((name, v));
            assert(values_view(es@) =~= start.push((nv, v as int)));
        },
    }
}

proof fn lemma_put_at(es: Seq<(Seq<char>, int)>, name: Seq<char>, v: int, i: int)
    requires
        0 <= i <= es.len(),
        forall|j: int| 0 <= j < i ==> es[j].0 != name,
    ensures
        i < es.len() && es[i].0 == name ==> put_value(es, name, v) == es.update(i, (name, v)),
        i == es.len() ==> put_value(es, name, v) == es.push((name, v)),
    decreases i,
{
    if i > 0 {
        lemma_put_at(es.drop_first(), name, v, i - 1);
        if i < es.len() && es[i].0 == name {
            assert(seq![es[0]] + es.drop_first().update(i - 1, (name, v)) =~= es.update(
                i,
                (name, v),
            ));
        }
        if i == es.len() {
            assert(seq![es[0]] + es.drop_first().push((name, v)) =~= es.push((name, v)));
        }
    } else if es.len() == 0 {
        assert(seq![(name, v)] =~= es.push((name, v)));
    }
}

/// The values of the record `r`, as [`values_of`].
fn values_in(r: &Vec<crate::metrics::Sample>) -> (res: Vec<(Vec<char>, isize)>)
    ensures
        values_view(res@) == values_of(record_view(r@)),
{
    let ghost rv = record_view(r@);
    let mut es: Vec<(Vec<char>, isize)> = Vec::new();
    assert(rv.take(0) =~= Seq::<SampleView>::empty());
    assert(values_view(es@) =~= Seq::<(Seq<char>, int)>::empty());
    for i in 0..r.len()
        invariant
            rv == record_view(r@),
            values_view(es@) == values_of(rv.take(i as int)),
    {
        assert(rv.take(i + 1).drop_last() =~= rv.take(i as int));
        assert(rv.take(i + 1).last() == rv[i as int]);
        let s = &r[i];
        if s.1 {
            let text = chars_of(s.2.as_str());
            match parse_isize_chars(text.as_slice()) {
                Some(v) => {
                    let name = chars_of(s.0.as_str());
                    put_value_exec(&mut es, name, v);
                },
                None => {},
            }
        }
    }
    assert(rv.take(r.len() as int) =~= rv);
    es
}

/// Appends the lines of the record `r` of the metric `qname` to `out`.
fn push_record_lines(out: &mut Vec<char>, qname: &[char], r: &Vec<crate::metrics::Sample>)
    ensures
        final(out)@ == old(out)@ + record_lines(qname@, record_view(r@)),
{
    let ghost start = out@;
    let ls = labels_of(qname, r);
    let sep = chars_of(", ");
    let lbl = join_chars(&ls, sep.as_slice());
    let es = values_in(r);
    if es.len() == 0 {
        extend_str(out, "miktik_");
        extend(out, qname);
        out.push('{');
        extend(out, lbl.as_slice());
        extend_str(out, "} 0\n");
        assert(out@ =~= start + record_lines(qname@, record_view(r@)));
    } else {
        let ghost ev = values_view(es@);
        assert(ev.take(0) =~= Seq::<(Seq<char>, int)>::empty());
        assert(out@ =~= start + value_lines(qname@, lbl@, ev.take(0)));
        for k in 0..es.len()
            invariant
                ev == values_view(es@),
                out@ == start + value_lines(qname@, lbl@, ev.take(k as int)),
        {
            assert(ev.take(k + 1).drop_last() =~= ev.take(k as int));
            assert(ev.take(k + 1).last() == ev[k as int]);
            let ghost before = out@;
            extend_str(out, "miktik_");
            extend(out, qname);
            out.push('_');
            extend(out, es[k].0.as_slice());
            out.push('{');
            extend(out, lbl.as_slice());
            out.push('}');
            out.push(' ');
            let d = isize_decimal(es[k].1);
            extend(out, d.as_slice());
            out.push('\n');
            assert(out@ =~= before + "miktik_"@ + qname@ + seq!['_'] + ev[k as int].0 + seq!['{']
                + lbl@ + seq!['}', ' '] + signed_decimal(ev[k as int].1) + seq!['\n']);
        }
        assert(ev.take(es.len() as int) =~= ev);
    }
}

/// Appends the lines of every metric to `output`, group by group and record
/// by record (see [`record_lines`]).
pub fn web_responce_formater(data: &Metrics, output: &mut String)
    ensures
        final(output)@ == old(output)@ + metrics_text(data@),
{
    let ghost gs = data@;
    let mut text: Vec<char> = Vec::new();
    assert(gs.take(0) =~= Seq::<GroupView>::empty());
    for g in 0..data.groups.len()
        invariant
            gs == data@,
            text@ == metrics_text(gs.take(g as int)),
    {
        assert(gs.take(g + 1).drop_last() =~= gs.take(g as int));
        assert(gs.take(g + 1).last() == gs[g as int]);
        let qname = chars_of(data.groups[g].0.as_str());
        let records = &data.groups[g].1;
        let ghost rs = records_view(records@);
        let ghost start = text@;
        assert(rs.take(0) =~= Seq::<Seq<SampleView>>::empty());
        for i in 0..records.len()
            invariant
                rs == records_view(records@),
                text@ == start + group_lines(qname@, rs.take(i as int)),
        {
            assert(rs.take(i + 1).drop_last() =~= rs.take(i as int));
            assert(rs.take(i + 1).last() == rs[i as int]);
            assert(rs[i as int] == record_view(records@[i as int]@));
            push_record_lines(&mut text, qname.as_slice(), &records[i]);
        }
        assert(rs.take(records.len() as int) =~= rs);
        assert(gs[g as int] == (qname@, rs));
    }
    assert(gs.take(data.groups.len() as int) =~= gs);
    let s = string_of(text.as_slice());
    output.append(s.as_str());
}

/// The lines `ls` one after the other.
pub open spec fn flatten(ls: Seq<Seq<char>>) -> Seq<char>
    decreases ls.len(),
{
    if ls.len() == 0 {
        Seq::empty()
    } else {
        flatten(ls.drop_last()) + ls.last()
    }
}

/// An exposition line: it begins with `miktik_` and ends with a line break.
pub open spec fn exposition_line(l: Seq<char>) -> bool {
    crate::text::has_prefix(l, "miktik_"@) && l.len() > 0 && l.last() == '\n'
}

/// The value lines of a record, one by one.
pub open spec fn value_line_list(qname: Seq<char>, lbl: Seq<char>, es: Seq<(Seq<char>, int)>) -> Seq<
    Seq<char>,
>
    decreases es.len(),
{
    if es.len() == 0 {
        Seq::empty()
    } else {
        value_line_list(qname, lbl, es.drop_last()).push(
            "miktik_"@ + qname + seq!['_'] + es.last().0 + seq!['{'] + lbl + seq!['}', ' ']
                + signed_decimal(es.last().1) + seq!['\n'],
        )
    }
}

/// The lines of a record, one by one.
pub open spec fn record_line_list(qname: Seq<char>, r: Seq<SampleView>) -> Seq<Seq<char>> {
    let lbl = join(labels(qname, r), ", "@);
    let es = values_of(r);
    if es.len() == 0 {
        seq!["miktik_"@ + qname + seq!['{'] + lbl + "} 0\n"@]
    } else {
        value_line_list(qname, lbl, es)
    }
}

/// The lines of the records of a metric, one by one.
pub open spec fn group_line_list(qname: Seq<char>, rs: Seq<Seq<SampleView>>) -> Seq<Seq<char>>
    decreases rs.len(),
{
    if rs.len() == 0 {
        Seq::empty()
    } else {
        group_line_list(qname, rs.drop_last()) + record_line_list(qname, rs.last())
    }
}

/// The lines of all the metrics, one by one.
pub open spec fn metrics_line_list(gs: Seq<GroupView>) -> Seq<Seq<char>>
    decreases gs.len(),
{
    if gs.len() == 0 {
        Seq::empty()
    } else {
        metrics_line_list(gs.drop_last()) + group_line_list(gs.last().0, gs.last().1)
    }
}

proof fn lemma_flatten_concat(a: Seq<Seq<char>>, b: Seq<Seq<char>>)
    ensures
        flatten(a + b) == flatten(a) + flatten(b),
    decreases b.len(),
{
    if b.len() == 0 {
        assert(a + b =~= a);
        assert(flatten(a) + Seq::<char>::empty() =~= flatten(a));
    } else {
        lemma_flatten_concat(a, b.drop_last());
        assert((a + b).drop_last() =~= a + b.drop_last());
        assert(flatten(a) + flatten(b.drop_last()) + b.last() =~= flatten(a) + (flatten(
            b.drop_last(),
        ) + b.last()));
    }
}

proof fn lemma_prefixed(rest: Seq<char>)
    ensures
        crate::text::has_prefix("miktik_"@ + rest, "miktik_"@),
{
    assert(("miktik_"@ + rest).subrange(0, "miktik_"@.len() as int) =~= "miktik_"@);
}

proof fn lemma_value_lines(qname: Seq<char>, lbl: Seq<char>, es: Seq<(Seq<char>, int)>)
    ensures
        value_lines(qname, lbl, es) == flatten(value_line_list(qname, lbl, es)),
        forall|i: int|
            0 <= i < value_line_list(qname, lbl, es).len() ==> exposition_line(
                #[trigger] value_line_list(qname, lbl, es)[i],
            ),
    decreases es.len(),
{
    if es.len() > 0 {
        lemma_value_lines(qname, lbl, es.drop_last());
        let l = "miktik_"@ + qname + seq!['_'] + es.last().0 + seq!['{'] + lbl + seq!['}', ' ']
            + signed_decimal(es.last().1) + seq!['\n'];
        let pre = value_line_list(qname, lbl, es.drop_last());
        assert(value_line_list(qname, lbl, es).drop_last() =~= pre);
        assert(l =~= "miktik_"@ + (qname + seq!['_'] + es.last().0 + seq!['{'] + lbl + seq!['}', ' ']
            + signed_decimal(es.last().1) + seq!['\n']));
        lemma_prefixed(
            qname + seq!['_'] + es.last().0 + seq!['{'] + lbl + seq!['}', ' ']
                + signed_decimal(es.last().1) + seq!['\n'],
        );
        assert(value_lines(qname, lbl, es) =~= flatten(pre) + l);
        assert forall|i: int| 0 <= i < value_line_list(qname, lbl, es).len() implies exposition_line(
            #[trigger] value_line_list(qname, lbl, es)[i],
        ) by {
            if i < pre.len() {
                assert(value_line_list(qname, lbl, es)[i] == pre[i]);
            }
        }
    }
}

proof fn lemma_record_lines(qname: Seq<char>, r: Seq<SampleView>)
    ensures
        record_lines(qname, r) == flatten(record_line_list(qname, r)),
        forall|i: int|
            0 <= i < record_line_list(qname, r).len() ==> exposition_line(
                #[trigger] record_line_list(qname, r)[i],
            ),
{
    let lbl = join(labels(qname, r), ", "@);
    let es = values_of(r);
    if es.len() == 0 {
        reveal_strlit("} 0\n");
        let l = "miktik_"@ + qname + seq!['{'] + lbl + "} 0\n"@;
        assert(l =~= "miktik_"@ + (qname + seq!['{'] + lbl + "} 0\n"@));
        lemma_prefixed(qname + seq!['{'] + lbl + "} 0\n"@);
        assert(seq![l].drop_last() =~= Seq::<Seq<char>>::empty());
        assert(flatten(seq![l]) == flatten(Seq::<Seq<char>>::empty()) + l);
        assert(Seq::<char>::empty() + l =~= l);
        assert(l.last() == '\n');
    } else {
        lemma_value_lines(qname, lbl, es);
    }
}

proof fn lemma_group_lines(qname: Seq<char>, rs: Seq<Seq<SampleView>>)
    ensures
        group_lines(qname, rs) == flatten(group_line_list(qname, rs)),
        forall|i: int|
            0 <= i < group_line_list(qname, rs).len() ==> exposition_line(
                #[trigger] group_line_list(qname, rs)[i],
            ),
    decreases rs.len(),
{
    if rs.len() > 0 {
        lemma_group_lines(qname, rs.drop_last());
        lemma_record_lines(qname, rs.last());
        let a = group_line_list(qname, rs.drop_last());
        let b = record_line_list(qname, rs.last());
        lemma_flatten_concat(a, b);
        assert forall|i: int| 0 <= i < (a + b).len() implies exposition_line(#[trigger] (a + b)[i]) by {
            if i < a.len() {
                assert((a + b)[i] == a[i]);
            } else {
                assert((a + b)[i] == b[i - a.len()]);
            }
        }
    }
}

/// Every line that the formatter writes begins with `miktik_` and ends
/// with a line break: its output is the concatenation of such lines.
pub proof fn exposition_lines(gs: Seq<GroupView>)
    ensures
        metrics_text(gs) == flatten(metrics_line_list(gs)),
        forall|i: int|
            0 <= i < metrics_line_list(gs).len() ==> exposition_line(
                #[trigger] metrics_line_list(gs)[i],
            ),
    decreases gs.len(),
{
    if gs.len() > 0 {
        exposition_lines(gs.drop_last());
        lemma_group_lines(gs.last().0, gs.last().1);
        let a = metrics_line_list(gs.drop_last());
        let b = group_line_list(gs.last().0, gs.last().1);
        lemma_flatten_concat(a, b);
        assert forall|i: int| 0 <= i < (a + b).len() implies exposition_line(#[trigger] (a + b)[i]) by {
            if i < a.len() {
                assert((a + b)[i] == a[i]);
            } else {
                assert((a + b)[i] == b[i - a.len()]);
            }
        }
    }
}

/// The label that a label sample gives holds the sample's text verbatim
/// between quotes at its end: `...="<text>"`, whatever the text holds.
pub proof fn label_keeps_value(qname: Seq<char>, s: SampleView)
    ensures
        exists|pre: Seq<char>| label_text(qname, s) == pre + seq!['=', '"'] + s.2 + seq!['"'],
{
    let n = replace_all(s.0, seq!['-'], seq!['_']);
    if s.0 != "routerboard_address"@ && s.0 != "routerboard_name"@ {
        let pre = qname + seq!['_'] + n;
        assert(label_text(qname, s) == pre + seq!['=', '"'] + s.2 + seq!['"']);
    } else {
        assert(label_text(qname, s) == n + seq!['=', '"'] + s.2 + seq!['"']);
    }
}

} // verus!

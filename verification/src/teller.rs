//! Decisions of the metrics server: which page a request asks for, how a
//! command's extra words take values gathered earlier, the connection status
//! lines, and which routers still wait for a reconnection.

use vstd::prelude::*;
use crate::metrics::GroupView;
use crate::metrics::add_groups;
use crate::session::ConnectionError;
use crate::metrics::Metrics;
use crate::metrics::SampleView;
use crate::metrics::lookup;
use crate::metrics::record_view;
use crate::metrics::records_view;
use crate::text::chars_of;
use crate::text::contains;
use crate::text::extend_str;
use crate::text::has_infix;
use crate::text::replace_all;
use crate::text::replace_chars;
use crate::text::same_chars;
use crate::text::split_chars;
use crate::text::split_text;
use crate::text::string_of;
use crate::text::trim;
use crate::text::trim_chars;
use crate::text::trim_start;
use crate::text::trim_end;
use crate::text::is_white;
use crate::text::split_nonempty;
use crate::text::join_front;
use crate::text::has_prefix;
use crate::text::occurs_at;
use crate::text::views;

verus! {

/// The characters inside braces kept, every other character (the braces
/// too) turned into a space; and whether a brace is open at the end.
pub open spec fn inside_braces(s: Seq<char>) -> (Seq<char>, bool)
    decreases s.len(),
{
    if s.len() == 0 {
        (Seq::empty(), false)
    } else {
        let (m, opened) = inside_braces(s.drop_last());
        let x = s.last();
        let open_now = if x == '}' {
            false
        } else {
            opened
        };
        if open_now {
            (m.push(x), true)
        } else {
            (m.push(' '), x == '{')
        }
    }
}

/// The characters outside braces kept, each `{...}` turned into `◊`; and
/// whether a brace is open at the end.
pub open spec fn outside_braces(s: Seq<char>) -> (Seq<char>, bool)
    decreases s.len(),
{
    if s.len() == 0 {
        (Seq::empty(), false)
    } else {
        let (m, opened) = outside_braces(s.drop_last());
        let x = s.last();
        if x == '}' {
            (m, false)
        } else if x == '{' {
            (m.push('◊'), true)
        } else if !opened {
            (m.push(x), false)
        } else {
            (m, true)
        }
    }
}

/// Some sample of the record holds the text `instance`.
pub open spec fn record_of(rec: Seq<SampleView>, instance: Seq<char>) -> bool {
    exists|j: int| 0 <= j < rec.len() && (#[trigger] rec[j]).2 == instance
}

/// The texts of the samples of `rec` named `attr`, each followed by `,`.
pub open spec fn values_named(rec: Seq<SampleView>, attr: Seq<char>) -> Seq<char>
    decreases rec.len(),
{
    if rec.len() == 0 {
        Seq::empty()
    } else {
        values_named(rec.drop_last(), attr) + if rec.last().0 == attr {
            rec.last().2 + seq![',']
        } else {
            Seq::empty()
        }
    }
}

/// The values of `attr` in the records that belong to `instance`, in order.
pub open spec fn gathered(rs: Seq<Seq<SampleView>>, attr: Seq<char>, instance: Seq<char>) -> Seq<
    char,
>
    decreases rs.len(),
{
    if rs.len() == 0 {
        Seq::empty()
    } else {
        gathered(rs.drop_last(), attr, instance) + if record_of(rs.last(), instance) {
            values_named(rs.last(), attr)
        } else {
            Seq::empty()
        }
    }
}

/// The word `item` with its reference `${name.attribute}` replaced by the
/// values of `attribute` gathered under the metric `name` for the router
/// `instance` (each followed by `,`); `None` when the word holds no `${`, the
/// reference has no `.`, or nothing was gathered under `name`.
pub open spec fn substituted(item: Seq<char>, metrics: Seq<GroupView>, instance: Seq<char>) -> Option<
    Seq<char>,
> {
    if !has_infix(item, seq!['$', '{']) {
        None
    } else {
        let parts = split_text(trim(inside_braces(item).0), seq!['.']);
        if parts.len() < 2 {
            None
        } else {
            match lookup(metrics, parts[0]) {
                Some(rs) => Some(
                    replace_all(outside_braces(item).0, seq!['$', '◊'], gathered(rs, parts[1], instance)),
                ),
                None => None,
            }
        }
    }
}

/// The characters inside braces kept, the others turned into spaces.
fn inside_braces_exec(s: &[char]) -> (res: Vec<char>)
    ensures
        res@ == inside_braces(s@).0,
{
    let mut out: Vec<char> = Vec::new();
    let mut opened = false;
    assert(s@.take(0) =~= Seq::<char>::empty());
    for i in 0..s.len()
        invariant
            (out@, opened) == inside_braces(s@.take(i as int)),
    {
        assert(s@.take(i + 1).drop_last() =~= s@.take(i as int));
        assert(s@.take(i + 1).last() == s@[i as int]);
        let x = s[i];
        if x == '}' {
            opened = false;
        }
        if opened {
            out.push(x);
        } else {
            out.push(' ');
            opened = x == '{';
        }
    }
    assert(s@.take(s.len() as int) =~= s@);
    out
}

/// The characters outside braces kept, each `{...}` turned into `◊`.
fn outside_braces_exec(s: &[char]) -> (res: Vec<char>)
    ensures
        res@ == outside_braces(s@).0,
{
    let mut out: Vec<char> = Vec::new();
    let mut opened = false;
    assert(s@.take(0) =~= Seq::<char>::empty());
    for i in 0..s.len()
        invariant
            (out@, opened) == outside_braces(s@.take(i as int)),
    {
        assert(s@.take(i + 1).drop_last() =~= s@.take(i as int));
        assert(s@.take(i + 1).last() == s@[i as int]);
        let q = s[i];
        if q == '}' {
            opened = false;
        } else if q == '{' {
            opened = true;
            out.push('◊');
        } else if !opened {
            out.push(q);
        }
    }
    assert(s@.take(s.len() as int) =~= s@);
    out
}

/// Whether some sample of `rec` holds the text `instance`.
fn record_of_exec(rec: &Vec<crate::metrics::Sample>, instance: &[char]) -> (res: bool)
    ensures
        res == record_of(record_view(rec@), instance@),
{
    let ghost rv = record_view(rec@);
    for j in 0..rec.len()
        invariant
            rv == record_view(rec@),
            forall|k: int| 0 <= k < j ==> rv[k].2 != instance@,
    {
        let t = chars_of(rec[j].2.as_str());
        if same_chars(t.as_slice(), instance) {
            assert(rv[j as int].2 == instance@);
            return true;
        }
    }
    false
}

/// Appends the texts of the samples of `rec` named `attr`, each followed by `,`.
fn push_values_named(out: &mut Vec<char>, rec: &Vec<crate::metrics::Sample>, attr: &[char])
    ensures
        final(out)@ == old(out)@ + values_named(record_view(rec@), attr@),
{
    let ghost rv = record_view(rec@);
    let ghost start = out@;
    assert(rv.take(0) =~= Seq::<SampleView>::empty());
    assert(out@ =~= start + values_named(rv.take(0), attr@));
    for j in 0..rec.len()
        invariant
            rv == record_view(rec@),
            out@ == start + values_named(rv.take(j as int), attr@),
    {
        assert(rv.take(j + 1).drop_last() =~= rv.take(j as int));
        assert(rv.take(j + 1).last() == rv[j as int]);
        let ghost before = out@;
        let name = chars_of(rec[j].0.as_str());
        if same_chars(name.as_slice(), attr) {
            extend_str(out, rec[j].2.as_str());
            out.push(',');
            assert(out@ =~= before + (rv[j as int].2 + seq![',']));
        } else {
            assert(out@ =~= before + Seq::<char>::empty());
        }
    }
    assert(rv.take(rec.len() as int) =~= rv);
}

/// The values of `attr` in the records of `rs` that belong to `instance`.
fn gathered_exec(rs: &Vec<crate::metrics::Record>, attr: &[char], instance: &[char]) -> (res: Vec<
    char,
>)
    ensures
        res@ == gathered(records_view(rs@), attr@, instance@),
{
    let ghost all = records_view(rs@);
    let mut out: Vec<char> = Vec::new();
    assert(all.take(0) =~= Seq::<Seq<SampleView>>::empty());
    for k in 0..rs.len()
        invariant
            all == records_view(rs@),
            out@ == gathered(all.take(k as int), attr@, instance@),
    {
        assert(all.take(k + 1).drop_last() =~= all.take(k as int));
        assert(all.take(k + 1).last() == all[k as int]);
        assert(all[k as int] == record_view(rs@[k as int]@));
        let ghost before = out@;
        if record_of_exec(&rs[k], instance) {
            push_values_named(&mut out, &rs[k], attr);
        } else {
            assert(out@ =~= before + Seq::<char>::empty());
        }
    }
    assert(all.take(rs.len() as int) =~= all);
    out
}

/// The word `item` with its reference `${name.attribute}` replaced by the
/// gathered values (see [`substituted`]); `None` when it has none to replace.
pub fn substitute_item(item: &str, metrics: &Metrics, instance_name: &str) -> (res: Option<String>)
    ensures
        match res {
            Some(t) => substituted(item@, metrics@, instance_name@) == Some(t@),
            None => substituted(item@, metrics@, instance_name@) is None,
        },
{
    let s = chars_of(item);
    let pat = chars_of("${");
    let dot = chars_of(".");
    let mark = chars_of("$◊");
    proof {
        reveal_strlit("${");
        reveal_strlit(".");
        reveal_strlit("$◊");
        assert(pat@ =~= seq!['$', '{']);
        assert(dot@ =~= seq!['.']);
        assert(mark@ =~= seq!['$', '◊']);
    }
    if !contains(s.as_slice(), pat.as_slice()) {
        return None;
    }
    let inner = inside_braces_exec(s.as_slice());
    let t = trim_chars(inner.as_slice());
    let parts = split_chars(t.as_slice(), dot.as_slice());
    if parts.len() < 2 {
        return None;
    }
    assert(views(parts@)[0] == parts@[0]@);
    assert(views(parts@)[1] == parts@[1]@);
    let key = string_of(parts[0].as_slice());
    match metrics.get(key.as_str()) {
        Some(rs) => {
            let inst = chars_of(instance_name);
            let values = gathered_exec(rs, parts[1].as_slice(), inst.as_slice());
            let outside = outside_braces_exec(s.as_slice());
            let r = replace_chars(outside.as_slice(), mark.as_slice(), values.as_slice());
            Some(string_of(r.as_slice()))
        },
        None => None,
    }
}

/// A command's extra words with their references replaced (see
/// [`substituted`]); the words without one are kept as they are.
pub fn resolve_query_words(words: &Vec<String>, metrics: &Metrics, instance_name: &str) -> (res: Vec<
    String,
>)
    ensures
        res@.len() == words@.len(),
        forall|i: int|
            0 <= i < words@.len() ==> (#[trigger] res@[i])@ == match substituted(
                words@[i]@,
                metrics@,
                instance_name@,
            ) {
                Some(t) => t,
                None => words@[i]@,
            },
{
    let mut out: Vec<String> = Vec::new();
    for i in 0..words.len()
        invariant
            out@.len() == i,
            forall|k: int|
                0 <= k < i ==> (#[trigger] out@[k])@ == match substituted(
                    words@[k]@,
                    metrics@,
                    instance_name@,
                ) {
                    Some(t) => t,
                    None => words@[k]@,
                },
    {
        match substitute_item(words[i].as_str(), metrics, instance_name) {
            Some(t) => out.push(t),
            None => {
                let c = chars_of(words[i].as_str());
                out.push(string_of(c.as_slice()));
            },
        }
    }
    out
}

/// The page that a request asks for.
#[derive(Debug, PartialEq, Eq, Structural, Clone, Copy)]
pub enum Route {
    /// `/metrics`: the metrics of every router.
    Metrics,
    /// `/`: the console's home page.
    Home,
    /// `/imgs/gears.gif`: the picture of the home page.
    Gears,
    /// `/config/update`: read `commands.json` again.
    ConfigUpdate,
    /// Anything else.
    Other,
}

/// The page that the path `url` names.
pub open spec fn route_of(url: Seq<char>) -> Route {
    if url == "/metrics"@ {
        Route::Metrics
    } else if url == "/"@ {
        Route::Home
    } else if url == "/imgs/gears.gif"@ {
        Route::Gears
    } else if url == "/config/update"@ {
        Route::ConfigUpdate
    } else {
        Route::Other
    }
}

/// The page that the path `url` of a request names.
pub fn route(url: &str) -> (res: Route)
    ensures
        res == route_of(url@),
{
    let u = chars_of(url);
    let m = chars_of("/metrics");
    let h = chars_of("/");
    let g = chars_of("/imgs/gears.gif");
    let c = chars_of("/config/update");
    if same_chars(u.as_slice(), m.as_slice()) {
        Route::Metrics
    } else if same_chars(u.as_slice(), h.as_slice()) {
        Route::Home
    } else if same_chars(u.as_slice(), g.as_slice()) {
        Route::Gears
    } else if same_chars(u.as_slice(), c.as_slice()) {
        Route::ConfigUpdate
    } else {
        Route::Other
    }
}

/// The status line of one router: `1` when it is up, `0` when it waits for a
/// reconnection.
pub open spec fn status_line(name: Seq<char>, up: bool) -> Seq<char> {
    "miktik__connection__status__{routerboard_name=\""@ + name + "\"} "@ + if up {
        "1\n"@
    } else {
        "0\n"@
    }
}

/// The status lines of the routers `names`, those at the positions in `down`
/// being down.
pub open spec fn status_text(names: Seq<Seq<char>>, down: Seq<usize>) -> Seq<char>
    decreases names.len(),
{
    if names.len() == 0 {
        Seq::empty()
    } else {
        status_text(names.drop_last(), down) + status_line(
            names.last(),
            !down.contains((names.len() - 1) as usize),
        )
    }
}

/// The names of a list of strings.
pub open spec fn string_views(v: Seq<String>) -> Seq<Seq<char>> {
    v.map_values(|s: String| s@)
}

/// Whether `list` holds `x`.
fn holds_index(list: &Vec<usize>, x: usize) -> (res: bool)
    ensures
        res == list@.contains(x),
{
    for i in 0..list.len()
        invariant
            forall|j: int| 0 <= j < i ==> list@[j] != x,
    {
        if list[i] == x {
            return true;
        }
    }
    false
}

/// The metrics page: the status line of each router, in order, then the
/// lines of the metrics.
pub fn metrics_page(names: &Vec<String>, down: &Vec<usize>, data: &Metrics) -> (res: String)
    ensures
        res@ == status_text(string_views(names@), down@) + crate::formatter::metrics_text(data@),
{
    let ghost ns = string_views(names@);
    let mut text: Vec<char> = Vec::new();
    assert(ns.take(0) =~= Seq::<Seq<char>>::empty());
    for i in 0..names.len()
        invariant
            ns == string_views(names@),
            text@ == status_text(ns.take(i as int), down@),
    {
        assert(ns.take(i + 1).drop_last() =~= ns.take(i as int));
        assert(ns.take(i + 1).last() == names@[i as int]@);
        let ghost before = text@;
        extend_str(&mut text, "miktik__connection__status__{routerboard_name=\"");
        extend_str(&mut text, names[i].as_str());
        extend_str(&mut text, "\"} ");
        let ghost mid = text@;
        if holds_index(down, i) {
            extend_str(&mut text, "0\n");
        } else {
            extend_str(&mut text, "1\n");
        }
        assert(text@ =~= before + status_line(names@[i as int]@, !down@.contains(i)));
    }
    assert(ns.take(names.len() as int) =~= ns);
    let mut page = string_of(text.as_slice());
    crate::formatter::web_responce_formater(data, &mut page);
    page
}

/// The positions of the routers that are not connected, in order.
pub open spec fn down_positions(connected: Seq<bool>) -> Seq<usize>
    decreases connected.len(),
{
    if connected.len() == 0 {
        Seq::empty()
    } else {
        down_positions(connected.drop_last()) + if connected.last() {
            Seq::empty()
        } else {
            seq![(connected.len() - 1) as usize]
        }
    }
}

/// The positions of the routers that are not connected, which wait for a
/// reconnection.
pub fn disconnected(connected: &Vec<bool>) -> (res: Vec<usize>)
    ensures
        res@ == down_positions(connected@),
{
    let mut out: Vec<usize> = Vec::new();
    assert(connected@.take(0) =~= Seq::<bool>::empty());
    for i in 0..connected.len()
        invariant
            out@ == down_positions(connected@.take(i as int)),
    {
        assert(connected@.take(i + 1).drop_last() =~= connected@.take(i as int));
        assert(connected@.take(i + 1).last() == connected@[i as int]);
        if !connected[i] {
            out.push(i);
        } else {
            assert(out@ =~= out@ + Seq::<usize>::empty());
        }
    }
    assert(connected@.take(connected.len() as int) =~= connected@);
    out
}

/// The candidates whose reconnection failed, in order.
pub open spec fn failed(candidates: Seq<usize>, reconnected: Seq<bool>) -> Seq<usize>
    decreases candidates.len(),
{
    if candidates.len() == 0 {
        Seq::empty()
    } else {
        failed(candidates.drop_last(), reconnected) + if reconnected[candidates.len() - 1] {
            Seq::empty()
        } else {
            seq![candidates.last()]
        }
    }
}

/// The candidates that still wait for a reconnection once each has been
/// tried: those whose attempt (`reconnected` at the same position) failed.
pub fn retain_failed(candidates: &Vec<usize>, reconnected: &Vec<bool>) -> (res: Vec<usize>)
    requires
        reconnected@.len() == candidates@.len(),
    ensures
        res@ == failed(candidates@, reconnected@),
{
    let mut out: Vec<usize> = Vec::new();
    assert(candidates@.take(0) =~= Seq::<usize>::empty());
    for i in 0..candidates.len()
        invariant
            reconnected@.len() == candidates@.len(),
            out@ == failed(candidates@.take(i as int), reconnected@),
    {
        assert(candidates@.take(i + 1).drop_last() =~= candidates@.take(i as int));
        assert(candidates@.take(i + 1).last() == candidates@[i as int]);
        if !reconnected[i] {
            out.push(candidates[i]);
        } else {
            assert(out@ =~= out@ + Seq::<usize>::empty());
        }
    }
    assert(candidates@.take(candidates.len() as int) =~= candidates@);
    out
}

/// Whether router `i` is polled on a scrape: not while it waits for a
/// reconnection.
pub fn polled(down: &Vec<usize>, i: usize) -> (res: bool)
    ensures
        res == !down@.contains(i),
{
    !holds_index(down, i)
}

/// What the poll of one router does next, after the result of a command.
#[derive(Debug)]
pub enum Step {
    /// Go on with the router's next command.
    Continue,
    /// Report the router's error reply, then go on.
    Report(String),
    /// The connection failed: report it and skip the router's remaining
    /// commands.
    Stop(std::io::Error),
}

/// Takes the result of a command run on router `i`: its metrics are added to
/// `metrics`; an error reply is reported and the poll goes on; a failed
/// connection puts the router among those waiting for a reconnection and
/// ends its poll.
pub fn command_outcome(
    metrics: &mut Metrics,
    down: &mut Vec<usize>,
    i: usize,
    result: Result<Metrics, ConnectionError>,
) -> (step: Step)
    ensures
        match result {
            Ok(m) => final(metrics)@ == add_groups(old(metrics)@, m@) && final(down)@ == old(down)@
                && step is Continue,
            Err(ConnectionError::ResponceError(e)) => final(metrics)@ == old(metrics)@ && final(down)@
                == old(down)@ && (step matches Step::Report(r) && r@ == e@),
            Err(ConnectionError::IoError(_)) => final(metrics)@ == old(metrics)@ && final(down)@ == old(
                down,
            )@.push(i) && step is Stop,
        },
{
    match result {
        Ok(m) => {
            metrics.absorb(m);
            Step::Continue
        },
        Err(ConnectionError::ResponceError(e)) => Step::Report(e),
        Err(ConnectionError::IoError(err)) => {
            down.push(i);
            Step::Stop(err)
        },
    }
}

/// `n` spaces.
pub open spec fn spaces(n: nat) -> Seq<char> {
    Seq::new(n, |k: int| ' ')
}

/// `s` holds no brace.
pub open spec fn no_brace(s: Seq<char>) -> bool {
    forall|k: int| 0 <= k < s.len() ==> s[k] != '{' && s[k] != '}'
}

/// `s` holds neither a brace nor `◊`.
pub open spec fn plain_text(s: Seq<char>) -> bool {
    forall|k: int| 0 <= k < s.len() ==> s[k] != '{' && s[k] != '}' && s[k] != '◊'
}

/// `s` can name a metric or an attribute in a reference: no brace, no `.`,
/// no white space.
pub open spec fn reference_part(s: Seq<char>) -> bool {
    forall|k: int|
        0 <= k < s.len() ==> s[k] != '{' && s[k] != '}' && s[k] != '.' && !is_white(#[trigger] s[k])
}

proof fn lemma_inside_append(a: Seq<char>, c: Seq<char>)
    requires
        no_brace(c),
    ensures
        inside_braces(a + c) == (
            inside_braces(a).0 + if inside_braces(a).1 {
                c
            } else {
                spaces(c.len())
            },
            inside_braces(a).1,
        ),
    decreases c.len(),
{
    if c.len() == 0 {
        assert(a + c =~= a);
        assert(inside_braces(a).0 + c =~= inside_braces(a).0);
        assert(inside_braces(a).0 + spaces(0) =~= inside_braces(a).0);
    } else {
        let d = c.drop_last();
        lemma_inside_append(a, d);
        assert((a + c).drop_last() =~= a + d);
        assert((a + c).last() == c.last());
        let o = inside_braces(a).1;
        let m = inside_braces(a).0;
        if o {
            assert(m + d + seq![c.last()] =~= m + c);
            assert((m + d).push(c.last()) =~= m + c);
        } else {
            assert((m + spaces(d.len())).push(' ') =~= m + spaces(c.len()));
        }
    }
}

proof fn lemma_outside_append(a: Seq<char>, c: Seq<char>)
    requires
        no_brace(c),
    ensures
        outside_braces(a + c) == (
            outside_braces(a).0 + if outside_braces(a).1 {
                Seq::empty()
            } else {
                c
            },
            outside_braces(a).1,
        ),
    decreases c.len(),
{
    if c.len() == 0 {
        assert(a + c =~= a);
        assert(outside_braces(a).0 + c =~= outside_braces(a).0);
        assert(outside_braces(a).0 + Seq::<char>::empty() =~= outside_braces(a).0);
    } else {
        let d = c.drop_last();
        lemma_outside_append(a, d);
        assert((a + c).drop_last() =~= a + d);
        assert((a + c).last() == c.last());
        let o = outside_braces(a).1;
        let m = outside_braces(a).0;
        if o {
            assert(m + Seq::<char>::empty() =~= m);
        } else {
            assert((m + d).push(c.last()) =~= m + c);
        }
    }
}

/// Every character of `s` is white space.
pub open spec fn white_run(s: Seq<char>) -> bool {
    forall|k: int| 0 <= k < s.len() ==> is_white(#[trigger] s[k])
}

proof fn lemma_spaces_white(n: nat)
    ensures
        white_run(spaces(n)),
{
    assert forall|k: int| 0 <= k < spaces(n).len() implies is_white(#[trigger] spaces(n)[k]) by {
        assert(spaces(n)[k] == ' ');
    }
}

proof fn lemma_trim_start_white(w: Seq<char>, t: Seq<char>)
    requires
        white_run(w),
    ensures
        trim_start(w + t) == trim_start(t),
    decreases w.len(),
{
    if w.len() == 0 {
        assert(w + t =~= t);
    } else {
        let x = w + t;
        assert(x[0] == w[0]);
        assert(is_white(w[0]));
        assert(x.drop_first() =~= w.drop_first() + t);
        assert(white_run(w.drop_first())) by {
            assert forall|k: int| 0 <= k < w.drop_first().len() implies is_white(
                #[trigger] w.drop_first()[k],
            ) by {
                assert(w.drop_first()[k] == w[k + 1]);
            }
        }
        lemma_trim_start_white(w.drop_first(), t);
    }
}

proof fn lemma_trim_end_white(t: Seq<char>, w: Seq<char>)
    requires
        white_run(w),
    ensures
        trim_end(t + w) == trim_end(t),
    decreases w.len(),
{
    if w.len() == 0 {
        assert(t + w =~= t);
    } else {
        let x = t + w;
        assert(x.last() == w.last());
        assert(is_white(w[w.len() - 1]));
        assert(x.drop_last() =~= t + w.drop_last());
        assert(white_run(w.drop_last())) by {
            assert forall|k: int| 0 <= k < w.drop_last().len() implies is_white(
                #[trigger] w.drop_last()[k],
            ) by {
                assert(w.drop_last()[k] == w[k]);
            }
        }
        lemma_trim_end_white(t, w.drop_last());
    }
}

/// Splitting at a character that does not occur gives the text whole.
pub proof fn lemma_split_plain(s: Seq<char>, c: char)
    requires
        forall|k: int| 0 <= k < s.len() ==> s[k] != c,
    ensures
        split_nonempty(s, seq![c]) == seq![s],
    decreases s.len(),
{
    if s.len() > 0 {
        assert(!has_prefix(s, seq![c])) by {
            if has_prefix(s, seq![c]) {
                assert(s.subrange(0, 1)[0] == s[0]);
            }
        }
        lemma_split_plain(s.drop_first(), c);
        assert(seq![s[0]] + s.drop_first() =~= s);
        assert(join_front(seq![s[0]], seq![s.drop_first()]) =~= seq![s]);
    } else {
        assert(s =~= Seq::<char>::empty());
    }
}

/// Splitting at `c` cuts first after a leading run without `c`.
pub proof fn lemma_split_at_first(k: Seq<char>, rest: Seq<char>, c: char)
    requires
        forall|j: int| 0 <= j < k.len() ==> k[j] != c,
    ensures
        split_nonempty(k + seq![c] + rest, seq![c]) == seq![k] + split_nonempty(rest, seq![c]),
    decreases k.len(),
{
    let x = k + seq![c] + rest;
    crate::text::lemma_split_nonempty_len(rest, seq![c]);
    if k.len() == 0 {
        assert(x =~= seq![c] + rest);
        assert(has_prefix(x, seq![c])) by {
            assert(x.subrange(0, 1) =~= seq![c]);
        }
        assert(x.skip(1) =~= rest);
        assert(k =~= Seq::<char>::empty());
    } else {
        assert(!has_prefix(x, seq![c])) by {
            if has_prefix(x, seq![c]) {
                assert(x.subrange(0, 1)[0] == x[0]);
            }
        }
        let k2 = k.drop_first();
        lemma_split_at_first(k2, rest, c);
        assert(x.drop_first() =~= k2 + seq![c] + rest);
        let t = seq![k2] + split_nonempty(rest, seq![c]);
        assert(join_front(seq![k[0]], t) =~= seq![k] + split_nonempty(rest, seq![c])) by {
            assert(seq![k[0]] + k2 =~= k);
        }
    }
}

/// The pattern `$◊` cannot match at a position of `a` in `a + r`.
proof fn lemma_replace_plain_front(a: Seq<char>, r: Seq<char>, g: Seq<char>)
    requires
        forall|k: int| 0 <= k < a.len() ==> a[k] != '◊',
        r.len() > 0 ==> r[0] != '◊',
    ensures
        replace_all(a + r, seq!['$', '◊'], g) == a + replace_all(r, seq!['$', '◊'], g),
    decreases a.len(),
{
    let p = seq!['$', '◊'];
    let x = a + r;
    if a.len() == 0 {
        assert(x =~= r);
        assert(a + replace_all(r, p, g) =~= replace_all(r, p, g));
    } else {
        assert(!has_prefix(x, p)) by {
            if has_prefix(x, p) {
                assert(x.subrange(0, 2)[1] == x[1]);
                if a.len() > 1 {
                    assert(x[1] == a[1]);
                } else {
                    assert(x[1] == r[0]);
                }
            }
        }
        let a2 = a.drop_first();
        lemma_replace_plain_front(a2, r, g);
        assert(x.drop_first() =~= a2 + r);
        assert(seq![x[0]] + (a2 + replace_all(r, p, g)) =~= a + replace_all(r, p, g));
    }
}

/// The word that holds the reference `${key.attr}` between `prefix` and
/// `suffix`.
pub open spec fn reference_word(prefix: Seq<char>, key: Seq<char>, attr: Seq<char>, suffix: Seq<char>) -> Seq<
    char,
> {
    prefix + seq!['$', '{'] + key + seq!['.'] + attr + seq!['}'] + suffix
}

proof fn lemma_no_brace_mid(k: Seq<char>, a: Seq<char>)
    requires
        no_brace(k),
        no_brace(a),
    ensures
        no_brace(k + seq!['.'] + a),
{
    let mid = k + seq!['.'] + a;
    assert forall|j: int| 0 <= j < mid.len() implies mid[j] != '{' && mid[j] != '}' by {
        if j < k.len() {
            assert(mid[j] == k[j]);
        } else if j > k.len() {
            assert(mid[j] == a[j - k.len() - 1]);
        }
    }
}

proof fn lemma_mid_plain(key: Seq<char>, attr: Seq<char>)
    requires
        reference_part(key),
        reference_part(attr),
    ensures
        no_brace(key + seq!['.'] + attr),
        !is_white((key + seq!['.'] + attr)[0]),
        !is_white((key + seq!['.'] + attr).last()),
{
    let mid = key + seq!['.'] + attr;
    assert forall|k: int| 0 <= k < mid.len() implies mid[k] != '{' && mid[k] != '}' by {
        if k < key.len() {
            assert(mid[k] == key[k]);
            assert(!is_white(key[k]));
        } else if k > key.len() {
            assert(mid[k] == attr[k - key.len() - 1]);
            assert(!is_white(attr[k - key.len() - 1]));
        }
    }
    if key.len() > 0 {
        assert(mid[0] == key[0]);
        assert(!is_white(key[0]));
    }
    if attr.len() > 0 {
        assert(mid.last() == attr.last());
        assert(!is_white(attr[attr.len() - 1]));
    }
}

proof fn lemma_reference_inside(prefix: Seq<char>, key: Seq<char>, attr: Seq<char>, suffix: Seq<char>)
    requires
        plain_text(prefix),
        plain_text(suffix),
        no_brace(key),
        no_brace(attr),
    ensures
        inside_braces(reference_word(prefix, key, attr, suffix)).0 == spaces(prefix.len() + 2) + (key
            + seq!['.'] + attr + spaces(suffix.len() + 1)),
{
    let mid = key + seq!['.'] + attr;
    lemma_no_brace_mid(key, attr);
    let s2 = prefix + seq!['$'];
    let s3 = s2.push('{');
    let s4 = s3 + mid;
    let s5 = s4.push('}');
    let item = s5 + suffix;
    assert(item =~= reference_word(prefix, key, attr, suffix));
    assert(no_brace(prefix));
    assert(no_brace(suffix));
    assert(Seq::<char>::empty() + prefix =~= prefix);
    lemma_inside_append(Seq::empty(), prefix);
    assert(Seq::<char>::empty() + spaces(prefix.len()) =~= spaces(prefix.len()));
    lemma_inside_append(prefix, seq!['$']);
    assert(s3.drop_last() =~= s2);
    let lead = (spaces(prefix.len()) + spaces(1)).push(' ');
    assert(inside_braces(s3) == (lead, true));
    lemma_inside_append(s3, mid);
    assert(s5.drop_last() =~= s4);
    assert(inside_braces(s5) == ((lead + mid).push(' '), false));
    lemma_inside_append(s5, suffix);
    assert(inside_braces(item).0 =~= spaces(prefix.len() + 2) + (mid + spaces(suffix.len() + 1)));
}

proof fn lemma_reference_outside(prefix: Seq<char>, key: Seq<char>, attr: Seq<char>, suffix: Seq<char>)
    requires
        plain_text(prefix),
        plain_text(suffix),
        no_brace(key),
        no_brace(attr),
    ensures
        outside_braces(reference_word(prefix, key, attr, suffix)).0 == prefix + (seq!['$', '◊']
            + suffix),
{
    let mid = key + seq!['.'] + attr;
    lemma_no_brace_mid(key, attr);
    let s2 = prefix + seq!['$'];
    let s3 = s2.push('{');
    let s4 = s3 + mid;
    let s5 = s4.push('}');
    let item = s5 + suffix;
    assert(item =~= reference_word(prefix, key, attr, suffix));
    assert(no_brace(prefix));
    assert(no_brace(suffix));
    assert(Seq::<char>::empty() + prefix =~= prefix);
    lemma_outside_append(Seq::empty(), prefix);
    assert(Seq::<char>::empty() + prefix =~= prefix);
    lemma_outside_append(prefix, seq!['$']);
    assert(s3.drop_last() =~= s2);
    assert(outside_braces(s3) == ((prefix + seq!['$']).push('◊'), true));
    lemma_outside_append(s3, mid);
    assert(s5.drop_last() =~= s4);
    assert((prefix + seq!['$']).push('◊') + Seq::<char>::empty() =~= (prefix + seq!['$']).push('◊'));
    assert(outside_braces(s5) == ((prefix + seq!['$']).push('◊'), false));
    lemma_outside_append(s5, suffix);
    assert(outside_braces(item).0 =~= prefix + (seq!['$', '◊'] + suffix));
}

proof fn lemma_reference_parts(
    key: Seq<char>,
    attr: Seq<char>,
    w1: Seq<char>,
    w2: Seq<char>,
    lead: nat,
    trail: nat,
)
    requires
        reference_part(key),
        reference_part(attr),
        white_run(w1),
        white_run(w2),
    ensures
        split_text(
            trim(spaces(lead) + (w1 + key + seq!['.'] + attr + w2 + spaces(trail))),
            seq!['.'],
        ) == seq![key, attr],
{
    let mid = key + seq!['.'] + attr;
    lemma_mid_plain(key, attr);
    lemma_spaces_white(lead);
    lemma_spaces_white(trail);
    let front = spaces(lead) + w1;
    let back = w2 + spaces(trail);
    assert(white_run(front)) by {
        assert forall|k: int| 0 <= k < front.len() implies is_white(#[trigger] front[k]) by {
            if k < lead {
                assert(front[k] == spaces(lead)[k]);
            } else {
                assert(front[k] == w1[k - lead]);
            }
        }
    }
    assert(white_run(back)) by {
        assert forall|k: int| 0 <= k < back.len() implies is_white(#[trigger] back[k]) by {
            if k < w2.len() {
                assert(back[k] == w2[k]);
            } else {
                assert(back[k] == spaces(trail)[k - w2.len()]);
            }
        }
    }
    let x = spaces(lead) + (w1 + key + seq!['.'] + attr + w2 + spaces(trail));
    assert(x =~= front + (mid + back));
    lemma_trim_start_white(front, mid + back);
    assert((mid + back)[0] == mid[0]);
    assert(trim_start(mid + back) == mid + back);
    lemma_trim_end_white(mid, back);
    assert(trim(x) == mid);
    assert(forall|j: int| 0 <= j < key.len() ==> key[j] != '.');
    assert(forall|j: int| 0 <= j < attr.len() ==> attr[j] != '.');
    lemma_split_at_first(key, attr, '.');
    lemma_split_plain(attr, '.');
    assert(split_text(mid, seq!['.']) =~= seq![key, attr]);
}

proof fn lemma_reference_replace(prefix: Seq<char>, suffix: Seq<char>, g: Seq<char>)
    requires
        plain_text(prefix),
        plain_text(suffix),
    ensures
        replace_all(prefix + (seq!['$', '◊'] + suffix), seq!['$', '◊'], g) == prefix + g + suffix,
{
    let r = seq!['$', '◊'] + suffix;
    assert(forall|k: int| 0 <= k < prefix.len() ==> prefix[k] != '◊');
    lemma_replace_plain_front(prefix, r, g);
    assert(has_prefix(r, seq!['$', '◊'])) by {
        assert(r.subrange(0, 2) =~= seq!['$', '◊']);
    }
    assert(r.skip(2) =~= suffix);
    assert(forall|k: int| 0 <= k < suffix.len() ==> suffix[k] != '◊');
    lemma_replace_plain_front(suffix, Seq::empty(), g);
    assert(suffix + Seq::<char>::empty() =~= suffix);
    assert(replace_all(Seq::<char>::empty(), seq!['$', '◊'], g) == Seq::<char>::empty());
    assert(prefix + (g + suffix) =~= prefix + g + suffix);
}

proof fn lemma_padded_no_brace(lead: Seq<char>, key: Seq<char>, attr: Seq<char>, trail: Seq<char>)
    requires
        reference_part(key),
        reference_part(attr),
        white_run(lead),
        white_run(trail),
    ensures
        no_brace(lead + key),
        no_brace(attr + trail),
{
    let k = lead + key;
    let a = attr + trail;
    assert forall|j: int| 0 <= j < k.len() implies k[j] != '{' && k[j] != '}' by {
        if j < lead.len() {
            assert(k[j] == lead[j]);
            assert(is_white(lead[j]));
        } else {
            assert(k[j] == key[j - lead.len()]);
        }
    }
    assert forall|j: int| 0 <= j < a.len() implies a[j] != '{' && a[j] != '}' by {
        if j < attr.len() {
            assert(a[j] == attr[j]);
        } else {
            assert(a[j] == trail[j - attr.len()]);
            assert(is_white(trail[j - attr.len()]));
        }
    }
}

/// The word `prefix${key.attr}suffix`, with plain text around a reference
/// whose names hold no brace, `.` or white space (though white space may
/// pad the reference inside its braces: `lead` before `key`, `trail` after
/// `attr`), is substituted into `prefix`, then each value of `attr` gathered
/// under the metric `key` for the router `instance` followed by `,`, then
/// `suffix`; it stays as it is when nothing was gathered under `key`.
pub proof fn substitution_of_reference(
    prefix: Seq<char>,
    lead: Seq<char>,
    key: Seq<char>,
    attr: Seq<char>,
    trail: Seq<char>,
    suffix: Seq<char>,
    metrics: Seq<GroupView>,
    instance: Seq<char>,
)
    requires
        plain_text(prefix),
        plain_text(suffix),
        reference_part(key),
        reference_part(attr),
        white_run(lead),
        white_run(trail),
    ensures
        substituted(reference_word(prefix, lead + key, attr + trail, suffix), metrics, instance)
            == match lookup(metrics, key) {
            Some(rs) => Some(prefix + gathered(rs, attr, instance) + suffix),
            None => None,
        },
{
    let k = lead + key;
    let a = attr + trail;
    lemma_padded_no_brace(lead, key, attr, trail);
    let item = reference_word(prefix, k, a, suffix);
    lemma_reference_inside(prefix, k, a, suffix);
    assert(k + seq!['.'] + a + spaces(suffix.len() + 1) =~= lead + key + seq!['.'] + attr + trail
        + spaces(suffix.len() + 1));
    lemma_reference_parts(key, attr, lead, trail, prefix.len() + 2, suffix.len() + 1);
    lemma_reference_outside(prefix, k, a, suffix);
    assert(occurs_at(item, seq!['$', '{'], prefix.len() as int)) by {
        assert(item.subrange(prefix.len() as int, prefix.len() + 2int) =~= seq!['$', '{']);
    }
    assert(has_infix(item, seq!['$', '{']));
    if let Some(rs) = lookup(metrics, key) {
        lemma_reference_replace(prefix, suffix, gathered(rs, attr, instance));
    }
}

/// The routers that wait for a reconnection when the server starts
/// ([`disconnected`]) are exactly those that are not connected, each once, in
/// increasing order; so [`polled`] on that list polls exactly the connected
/// routers.
pub proof fn start_candidates(connected: Seq<bool>)
    requires
        connected.len() <= usize::MAX,
    ensures
        forall|i: int|
            0 <= i < connected.len() ==> (down_positions(connected).contains(i as usize)
                <==> !connected[i]),
        forall|k: int|
            0 <= k < down_positions(connected).len() ==> down_positions(connected)[k]
                < connected.len() && !connected[down_positions(connected)[k] as int],
        forall|a: int, b: int|
            0 <= a < b < down_positions(connected).len() ==> down_positions(connected)[a]
                < down_positions(connected)[b],
    decreases connected.len(),
{
    if connected.len() > 0 {
        let d = connected.drop_last();
        start_candidates(d);
        let pre = down_positions(d);
        let n = connected.len() - 1;
        let tail: Seq<usize> = if connected.last() {
            Seq::empty()
        } else {
            seq![n as usize]
        };
        let all = down_positions(connected);
        assert(all == pre + tail);
        assert forall|k: int| 0 <= k < all.len() implies all[k] < connected.len() && !connected[all[k] as int] by {
            if k < pre.len() {
                assert(all[k] == pre[k]);
                assert(connected[pre[k] as int] == d[pre[k] as int]);
            }
        }
        assert forall|a: int, b: int| 0 <= a < b < all.len() implies all[a] < all[b] by {
            if b < pre.len() {
                assert(all[a] == pre[a] && all[b] == pre[b]);
            } else {
                assert(all[a] == pre[a]);
            }
        }
        assert forall|i: int| 0 <= i < connected.len() implies (all.contains(i as usize)
            <==> !connected[i]) by {
            if i < n {
                assert(connected[i] == d[i]);
                if pre.contains(i as usize) {
                    let k = choose|k: int| 0 <= k < pre.len() && pre[k] == i as usize;
                    assert(all[k] == pre[k]);
                }
                if all.contains(i as usize) {
                    let k = choose|k: int| 0 <= k < all.len() && all[k] == i as usize;
                    if k >= pre.len() {
                        assert(all[k] == n as usize);
                    } else {
                        assert(pre[k] == all[k]);
                    }
                }
            } else {
                if !connected[i] {
                    assert(all[pre.len() as int] == n as usize);
                }
                if all.contains(i as usize) {
                    let k = choose|k: int| 0 <= k < all.len() && all[k] == i as usize;
                    if k < pre.len() {
                        assert(pre[k] == all[k]);
                    }
                }
            }
        }
    }
}

/// What a record gives for the attribute `attr` is built from its samples
/// one by one, from the first: a sample named exactly `attr` adds its text
/// followed by `,`, any other sample (a longer name that starts with `attr`
/// too) adds nothing; an empty record gives nothing.
pub proof fn values_named_by_sample(s: SampleView, rec: Seq<SampleView>, attr: Seq<char>)
    ensures
        values_named(Seq::empty(), attr) == Seq::<char>::empty(),
        values_named(seq![s] + rec, attr) == (if s.0 == attr {
            s.2 + seq![',']
        } else {
            Seq::empty()
        }) + values_named(rec, attr),
    decreases rec.len(),
{
    let x = seq![s] + rec;
    let head: Seq<char> = if s.0 == attr {
        s.2 + seq![',']
    } else {
        Seq::empty()
    };
    if rec.len() == 0 {
        assert(x.drop_last() =~= Seq::<SampleView>::empty());
        assert(x.last() == s);
        assert(values_named(x, attr) == values_named(x.drop_last(), attr) + head);
        assert(values_named(rec, attr) == Seq::<char>::empty());
        assert(Seq::<char>::empty() + head =~= head);
        assert(head + Seq::<char>::empty() =~= head);
    } else {
        values_named_by_sample(s, rec.drop_last(), attr);
        assert(x.drop_last() =~= seq![s] + rec.drop_last());
        assert(x.last() == rec.last());
        let t: Seq<char> = if rec.last().0 == attr {
            rec.last().2 + seq![',']
        } else {
            Seq::empty()
        };
        assert(values_named(x, attr) == values_named(x.drop_last(), attr) + t);
        assert(values_named(rec, attr) == values_named(rec.drop_last(), attr) + t);
        assert(head + values_named(rec.drop_last(), attr) + t =~= head + (values_named(
            rec.drop_last(),
            attr,
        ) + t));
    }
}

/// A record without a sample named `attr` gives nothing for it.
pub proof fn values_named_without_attr(rec: Seq<SampleView>, attr: Seq<char>)
    requires
        forall|i: int| 0 <= i < rec.len() ==> (#[trigger] rec[i]).0 != attr,
    ensures
        values_named(rec, attr) == Seq::<char>::empty(),
    decreases rec.len(),
{
    if rec.len() > 0 {
        let d = rec.drop_last();
        assert forall|i: int| 0 <= i < d.len() implies (#[trigger] d[i]).0 != attr by {
            assert(d[i] == rec[i]);
        }
        values_named_without_attr(d, attr);
        assert(rec.last() == rec[rec.len() - 1]);
        assert(Seq::<char>::empty() + Seq::<char>::empty() =~= Seq::<char>::empty());
    }
}

/// The status line that the page gives for the router `name`.
pub open spec fn router_status(name: Seq<char>, waiting: bool) -> Seq<char> {
    "miktik__connection__status__{routerboard_name=\""@ + name + "\"} "@ + if waiting {
        "0\n"@
    } else {
        "1\n"@
    }
}

/// The status lines are one line per router, in order, and the line of the
/// router at position `i` ends in `0` exactly when `i` is anywhere among the
/// routers waiting for a reconnection, in `1` otherwise.
pub proof fn status_lines_per_router(names: Seq<Seq<char>>, down: Seq<usize>)
    requires
        names.len() <= usize::MAX + 1,
    ensures
        status_text(names, down) == crate::formatter::flatten(
            Seq::new(names.len(), |i: int| router_status(names[i], down.contains(i as usize))),
        ),
    decreases names.len(),
{
    let f = |nm: Seq<Seq<char>>| Seq::new(nm.len(), |i: int| router_status(nm[i], down.contains(i as usize)));
    if names.len() > 0 {
        let d = names.drop_last();
        status_lines_per_router(d, down);
        let all = Seq::new(names.len(), |i: int| router_status(names[i], down.contains(i as usize)));
        let pre = Seq::new(d.len(), |i: int| router_status(d[i], down.contains(i as usize)));
        assert(all.drop_last() =~= pre);
        assert(all.last() == router_status(names.last(), down.contains((names.len() - 1) as usize)));
        assert(status_line(names.last(), !down.contains((names.len() - 1) as usize)) == router_status(
            names.last(),
            down.contains((names.len() - 1) as usize),
        ));
    } else {
        assert(Seq::new(0, |i: int| router_status(names[i], down.contains(i as usize))) =~= Seq::<
            Seq<char>,
        >::empty());
    }
}

} // verus!

//! The metrics gathered from the routers: for each metric name, the records
//! read for it, each record a list of samples.

use vstd::prelude::*;

verus! {

/// One sample of a record: its name, whether it is a value to graph (`true`)
/// or a label (`false`), and its text.
pub type Sample = (String, bool, String);

/// A record: the samples read from one reply sentence.
pub type Record = Vec<Sample>;

/// The view of a sample.
pub type SampleView = (Seq<char>, bool, Seq<char>);

/// The view of a group: a metric name and its records.
pub type GroupView = (Seq<char>, Seq<Seq<SampleView>>);

pub open spec fn sample_view(s: Sample) -> SampleView {
    (s.0@, s.1, s.2@)
}

pub open spec fn record_view(r: Seq<Sample>) -> Seq<SampleView> {
    r.map_values(|s: Sample| sample_view(s))
}

pub open spec fn records_view(rs: Seq<Record>) -> Seq<Seq<SampleView>> {
    rs.map_values(|r: Record| record_view(r@))
}

/// The records gathered under `name`, if any.
pub open spec fn lookup(gs: Seq<GroupView>, name: Seq<char>) -> Option<Seq<Seq<SampleView>>>
    decreases gs.len(),
{
    if gs.len() == 0 {
        None
    } else if gs[0].0 == name {
        Some(gs[0].1)
    } else {
        lookup(gs.drop_first(), name)
    }
}

/// `gs` with `rs` added after the records of `name`; a new group at the end
/// when there is none (the entry of `name`, created empty if missing, extended
/// by `rs`).
pub open spec fn add_records(gs: Seq<GroupView>, name: Seq<char>, rs: Seq<Seq<SampleView>>) -> Seq<
    GroupView,
>
    decreases gs.len(),
{
    if gs.len() == 0 {
        seq![(name, rs)]
    } else if gs[0].0 == name {
        gs.update(0, (name, gs[0].1 + rs))
    } else {
        seq![gs[0]] + add_records(gs.drop_first(), name, rs)
    }
}

/// Every group of `others` added to `gs` in turn.
pub open spec fn add_groups(gs: Seq<GroupView>, others: Seq<GroupView>) -> Seq<GroupView>
    decreases others.len(),
{
    if others.len() == 0 {
        gs
    } else {
        add_records(add_groups(gs, others.drop_last()), others.last().0, others.last().1)
    }
}

/// No two groups have the same name.
pub open spec fn distinct_names(gs: Seq<GroupView>) -> bool {
    forall|i: int, j: int| 0 <= i < j < gs.len() ==> gs[i].0 != gs[j].0
}

/// Metric records by metric name, in the order in which the names came. Its
/// operations keep the names distinct (see [`distinct_names`]).
#[derive(Debug)]
pub struct Metrics {
    pub groups: Vec<(String, Vec<Record>)>,
}

impl View for Metrics {
    type V = Seq<GroupView>;

    open spec fn view(&self) -> Seq<GroupView> {
        self.groups@.map_values(|g: (String, Vec<Record>)| (g.0@, records_view(g.1@)))
    }
}

proof fn lemma_add_at(gs: Seq<GroupView>, name: Seq<char>, rs: Seq<Seq<SampleView>>, i: int)
    requires
        0 <= i <= gs.len(),
        forall|j: int| 0 <= j < i ==> gs[j].0 != name,
    ensures
        i < gs.len() && gs[i].0 == name ==> add_records(gs, name, rs) == gs.update(
            i,
            (name, gs[i].1 + rs),
        ),
        i == gs.len() ==> add_records(gs, name, rs) == gs.push((name, rs)),
    decreases i,
{
    if i > 0 {
        lemma_add_at(gs.drop_first(), name, rs, i - 1);
        if i < gs.len() && gs[i].0 == name {
            assert(seq![gs[0]] + gs.drop_first().update(i - 1, (name, gs[i].1 + rs)) =~= gs.update(
                i,
                (name, gs[i].1 + rs),
            ));
        }
        if i == gs.len() {
            assert(seq![gs[0]] + gs.drop_first().push((name, rs)) =~= gs.push((name, rs)));
        }
    } else {
        if gs.len() == 0 {
            assert(seq![(name, rs)] =~= gs.push((name, rs)));
        }
    }
}

proof fn lemma_lookup_at(gs: Seq<GroupView>, name: Seq<char>, i: int)
    requires
        0 <= i <= gs.len(),
        forall|j: int| 0 <= j < i ==> gs[j].0 != name,
    ensures
        i < gs.len() && gs[i].0 == name ==> lookup(gs, name) == Some(gs[i].1),
        i == gs.len() ==> lookup(gs, name) is None,
    decreases i,
{
    if i > 0 {
        lemma_lookup_at(gs.drop_first(), name, i - 1);
    }
}

impl Metrics {
    /// No metrics.
    pub fn new() -> (res: Metrics)
        ensures
            res@ == Seq::<GroupView>::empty(),
            distinct_names(res@),
    {
        Metrics { groups: Vec::new() }
    }

    /// Forgets every record.
    pub fn clear(&mut self)
        ensures
            final(self)@ == Seq::<GroupView>::empty(),
            distinct_names(final(self)@),
    {
        self.groups.clear();
    }

    /// The records gathered under `name`.
    pub fn get(&self, name: &str) -> (res: Option<&Vec<Record>>)
        ensures
            match res {
                Some(r) => lookup(self@, name@) == Some(records_view(r@)),
                None => lookup(self@, name@) is None,
            },
    {
        let mut i: usize = 0;
        while i < self.groups.len()
            invariant
                i <= self.groups.len(),
                forall|j: int| 0 <= j < i ==> self@[j].0 != name@,
            decreases self.groups.len() - i,
        {
            if crate::text::str_eq(self.groups[i].0.as_str(), name) {
                proof {
                    lemma_lookup_at(self@, name@, i as int);
                }
                return Some(&self.groups[i].1);
            }
            i = i + 1;
        }
        proof {
            lemma_lookup_at(self@, name@, i as int);
        }
        None
    }

    /// Where the group of `name` stands, if there is one.
    fn position(&self, name: &String) -> (res: Option<usize>)
        ensures
            match res {
                Some(i) => i < self@.len() && self@[i as int].0 == name@ && forall|j: int|
                    0 <= j < i ==> self@[j].0 != name@,
                None => forall|j: int| 0 <= j < self@.len() ==> self@[j].0 != name@,
            },
    {
        let mut i: usize = 0;
        while i < self.groups.len()
            invariant
                i <= self.groups.len(),
                forall|j: int| 0 <= j < i ==> self@[j].0 != name@,
            decreases self.groups.len() - i,
        {
            if self.groups[i].0 == *name {
                return Some(i);
            }
            i = i + 1;
        }
        None
    }

    /// Adds `records` after those already gathered under `name`.
    pub fn append_records(&mut self, name: String, records: Vec<Record>)
        ensures
            final(self)@ == add_records(old(self)@, name@, records_view(records@)),
            distinct_names(old(self)@) ==> distinct_names(final(self)@),
    {
        let ghost start = self@;
        proof {
            if distinct_names(start) {
                add_keeps_names_distinct(start, name@, records_view(records@));
            }
        }
        match self.position(&name) {
            Some(i) => {
                proof {
                    lemma_add_at(start, name@, records_view(records@), i as int);
                }
                let mut g = self.groups.remove(i);
                let mut more = records;
                let ghost old_records = g.1@;
                let ghost more_records = more@;
                g.1.append(&mut more);
                assert(records_view(g.1@) =~= records_view(old_records) + records_view(more_records));
                self.groups.insert(i, g);
                assert(self@ =~= start.update(
                    i as int,
                    (name@, start[i as int].1 + records_view(more_records)),
                ));
            },
            None => {
                proof {
                    lemma_add_at(start, name@, records_view(records@), start.len() as int);
                }
                let ghost rv = records_view(records@);
                self.groups.push((name, records));
                assert(self@ =~= start.push((name@, rv)));
            },
        }
    }

    /// Adds every group of `other`, in its order, as [`Metrics::append_records`] does.
    pub fn absorb(&mut self, other: Metrics)
        ensures
            final(self)@ == add_groups(old(self)@, other@),
            distinct_names(old(self)@) ==> distinct_names(final(self)@),
    {
        let ghost start = self@;
        let ghost all = other@;
        let mut rest = other.groups;
        let n = rest.len();
        let mut k: usize = 0;
        assert(all.take(0) =~= Seq::<GroupView>::empty());
        assert forall|j: int| 0 <= j < rest@.len() implies (rest@[j].0@, records_view(rest@[j].1@))
            == #[trigger] all[0 + j] by {}
        while rest.len() > 0
            invariant
                k <= n,
                n == all.len(),
                rest@.len() == n - k,
                forall|j: int|
                    0 <= j < rest@.len() ==> (rest@[j].0@, records_view(rest@[j].1@)) == #[trigger] all[k
                        + j],
                self@ == add_groups(start, all.take(k as int)),
                distinct_names(start) ==> distinct_names(self@),
            decreases rest.len(),
        {
            let ghost before = rest@;
            let g = rest.remove(0);
            assert((before[0].0@, records_view(before[0].1@)) == all[k + 0]);
            assert(all[k as int] == (g.0@, records_view(g.1@)));
            assert(all.take(k + 1).drop_last() =~= all.take(k as int));
            assert(all.take(k + 1).last() == all[k as int]);
            self.append_records(g.0, g.1);
            assert forall|j: int| 0 <= j < rest@.len() implies (rest@[j].0@, records_view(
                rest@[j].1@,
            )) == #[trigger] all[k + 1 + j] by {
                assert(rest@[j] == before[j + 1]);
                assert((before[j + 1].0@, records_view(before[j + 1].1@)) == all[k + (j + 1)]);
            }
            k = k + 1;
        }
        assert(all.take(k as int) =~= all);
    }
}

/// Adding records under a name extends the records of that name and leaves
/// every other name as it was (the entry of the name, created empty when
/// missing, extended).
pub proof fn lookup_after_add(
    gs: Seq<GroupView>,
    name: Seq<char>,
    rs: Seq<Seq<SampleView>>,
    other: Seq<char>,
)
    ensures
        lookup(add_records(gs, name, rs), name) == Some(
            match lookup(gs, name) {
                Some(old) => old + rs,
                None => rs,
            },
        ),
        other != name ==> lookup(add_records(gs, name, rs), other) == lookup(gs, other),
    decreases gs.len(),
{
    if gs.len() > 0 && gs[0].0 != name {
        lookup_after_add(gs.drop_first(), name, rs, other);
        assert((seq![gs[0]] + add_records(gs.drop_first(), name, rs)).drop_first() =~= add_records(
            gs.drop_first(),
            name,
            rs,
        ));
    } else if gs.len() > 0 {
        let a = add_records(gs, name, rs);
        assert(a.drop_first() =~= gs.drop_first());
        assert(a[0].0 == name);
        if other != name {
            assert(lookup(a, other) == lookup(a.drop_first(), other));
            assert(lookup(gs, other) == lookup(gs.drop_first(), other));
        }
    } else {
        let a = add_records(gs, name, rs);
        assert(a.drop_first() =~= Seq::<GroupView>::empty());
        assert(a[0].0 == name);
        if other != name {
            assert(lookup(a, other) == lookup(a.drop_first(), other));
        }
    }
}

/// Adding records keeps the names distinct.
pub proof fn add_keeps_names_distinct(gs: Seq<GroupView>, name: Seq<char>, rs: Seq<Seq<SampleView>>)
    requires
        distinct_names(gs),
    ensures
        distinct_names(add_records(gs, name, rs)),
    decreases gs.len(),
{
    if gs.len() > 0 && gs[0].0 != name {
        let t = gs.drop_first();
        assert(distinct_names(t)) by {
            assert forall|i: int, j: int| 0 <= i < j < t.len() implies t[i].0 != t[j].0 by {
                assert(t[i] == gs[i + 1] && t[j] == gs[j + 1]);
            }
        }
        add_keeps_names_distinct(t, name, rs);
        let a = add_records(t, name, rs);
        lemma_names_of_add(t, name, rs);
        let r = seq![gs[0]] + a;
        assert forall|i: int, j: int| 0 <= i < j < r.len() implies r[i].0 != r[j].0 by {
            if i == 0 {
                assert(r[j] == a[j - 1]);
                if j - 1 < t.len() {
                    assert(t[j - 1] == gs[j]);
                }
            } else {
                assert(r[i] == a[i - 1] && r[j] == a[j - 1]);
            }
        }
    }
}

proof fn lemma_names_of_add(gs: Seq<GroupView>, name: Seq<char>, rs: Seq<Seq<SampleView>>)
    ensures
        forall|k: int|
            0 <= k < add_records(gs, name, rs).len() ==> (#[trigger] add_records(gs, name, rs)[k]).0
                == if k < gs.len() {
                gs[k].0
            } else {
                name
            },
        add_records(gs, name, rs).len() == gs.len() || add_records(gs, name, rs).len() == gs.len()
            + 1,
    decreases gs.len(),
{
    if gs.len() > 0 && gs[0].0 != name {
        lemma_names_of_add(gs.drop_first(), name, rs);
        let a = add_records(gs.drop_first(), name, rs);
        assert forall|k: int| 0 <= k < add_records(gs, name, rs).len() implies (
        #[trigger] add_records(gs, name, rs)[k]).0 == if k < gs.len() {
            gs[k].0
        } else {
            name
        } by {
            if k > 0 {
                assert(add_records(gs, name, rs)[k] == a[k - 1]);
            }
        }
    }
}

} // verus!

use vstd::prelude::*;
use vstd::seq_lib::lemma_multiset_commutative;
use vstd::seq_lib::group_to_multiset_ensures;
use vstd::multiset::Multiset;
use crate::model::GautrainRecord;
use crate::model::RecordV;
use crate::model::recs_view;
use crate::date::day_of_ts;

verus! {

/// Records in ascending timestamp order.
pub open spec fn sorted_by_ts(s: Seq<RecordV>) -> bool {
    forall|i: int, j: int| 0 <= i < j < s.len() ==> s[i].ts <= s[j].ts
}

/// Insert one record into a timestamp-sorted sequence, after every record
/// whose timestamp is not larger; ties therefore keep their original order.
pub open spec fn insert_by_ts(x: RecordV, s: Seq<RecordV>) -> Seq<RecordV>
    decreases s.len(),
{
    if s.len() == 0 {
        seq![x]
    } else if s[0].ts <= x.ts {
        seq![s[0]] + insert_by_ts(x, s.drop_first())
    } else {
        seq![x] + s
    }
}

/// Stable sort by timestamp: the records are inserted one by one, each after
/// all records already placed whose timestamp is not larger.
pub open spec fn sort_by_ts(s: Seq<RecordV>) -> Seq<RecordV>
    decreases s.len(),
{
    if s.len() == 0 {
        Seq::empty()
    } else {
        insert_by_ts(s.last(), sort_by_ts(s.drop_last()))
    }
}

pub proof fn lemma_insert_by_ts(x: RecordV, s: Seq<RecordV>)
    requires
        sorted_by_ts(s),
    ensures
        sorted_by_ts(insert_by_ts(x, s)),
        insert_by_ts(x, s).to_multiset() == s.to_multiset().insert(x),
        insert_by_ts(x, s).len() == s.len() + 1,
        forall|i: int|
            0 <= i < insert_by_ts(x, s).len() ==> (#[trigger] insert_by_ts(x, s)[i] == x
                || s.contains(insert_by_ts(x, s)[i])),
    decreases s.len(),
{
    broadcast use group_to_multiset_ensures;

    let ins = insert_by_ts(x, s);
    if s.len() == 0 {
        assert(ins =~= s.push(x));
    } else if s[0].ts <= x.ts {
        let d = s.drop_first();
        assert(sorted_by_ts(d));
        lemma_insert_by_ts(x, d);
        let rest = insert_by_ts(x, d);
        assert(ins == seq![s[0]] + rest);
        // multiset
        lemma_multiset_commutative(seq![s[0]], rest);
        lemma_multiset_commutative(seq![s[0]], d);
        assert(s =~= seq![s[0]] + d);
        assert(seq![s[0]].to_multiset().add(d.to_multiset().insert(x)) =~= (seq![s[0]]
            + d).to_multiset().insert(x));
        // order and membership
        assert forall|i: int| 0 <= i < ins.len() implies (ins[i] == x || s.contains(ins[i])) by {
            if i >= 1 {
                assert(ins[i] == rest[i - 1]);
                if rest[i - 1] != x {
                    let k = choose|k: int| 0 <= k < d.len() && d[k] == rest[i - 1];
                    assert(s[k + 1] == d[k]);
                }
            }
        }
        assert forall|i: int, j: int| 0 <= i < j < ins.len() implies ins[i].ts <= ins[j].ts by {
            if i >= 1 {
                assert(ins[i] == rest[i - 1] && ins[j] == rest[j - 1]);
            } else {
                assert(ins[j] == rest[j - 1]);
                if rest[j - 1] == x {
                } else {
                    let k = choose|k: int| 0 <= k < d.len() && d[k] == rest[j - 1];
                    assert(s[0].ts <= s[k + 1].ts);
                }
            }
        }
    } else {
        assert(ins == seq![x] + s);
        lemma_multiset_commutative(seq![x], s);
        assert(seq![x] =~= Seq::<RecordV>::empty().push(x));
        assert(seq![x].to_multiset() =~= Multiset::empty().insert(x));
        assert(seq![x].to_multiset().add(s.to_multiset()) =~= s.to_multiset().insert(x));
        assert forall|i: int| 0 <= i < ins.len() implies (ins[i] == x || s.contains(ins[i])) by {
            if i >= 1 {
                assert(ins[i] == s[i - 1]);
            }
        }
    }
}

/// Inserting at the first position whose timestamp is larger is what
/// `insert_by_ts` does.
pub proof fn lemma_insert_by_ts_at(x: RecordV, s: Seq<RecordV>, k: int)
    requires
        sorted_by_ts(s),
        0 <= k <= s.len(),
        forall|j: int| 0 <= j < k ==> s[j].ts <= x.ts,
        k < s.len() ==> s[k].ts > x.ts,
    ensures
        insert_by_ts(x, s) == s.insert(k, x),
    decreases k,
{
    if k == 0 {
        if s.len() == 0 {
            assert(insert_by_ts(x, s) =~= s.insert(0, x));
        } else {
            assert(s[0].ts > x.ts);
            assert(insert_by_ts(x, s) =~= s.insert(0, x));
        }
    } else {
        let d = s.drop_first();
        assert(sorted_by_ts(d));
        assert(forall|j: int| 0 <= j < k - 1 ==> #[trigger] d[j].ts == s[j + 1].ts);
        lemma_insert_by_ts_at(x, d, k - 1);
        assert(insert_by_ts(x, s) == seq![s[0]] + d.insert(k - 1, x));
        assert(insert_by_ts(x, s) =~= s.insert(k, x));
    }
}

pub proof fn lemma_sort_by_ts(s: Seq<RecordV>)
    ensures
        sorted_by_ts(sort_by_ts(s)),
        sort_by_ts(s).to_multiset() == s.to_multiset(),
        sort_by_ts(s).len() == s.len(),
        forall|i: int|
            0 <= i < sort_by_ts(s).len() ==> s.contains(#[trigger] sort_by_ts(s)[i]),
    decreases s.len(),
{
    broadcast use group_to_multiset_ensures;

    if s.len() == 0 {
    } else {
        let d = s.drop_last();
        lemma_sort_by_ts(d);
        lemma_insert_by_ts(s.last(), sort_by_ts(d));
        assert(s =~= d.push(s.last()));
        assert(sort_by_ts(s).to_multiset() =~= s.to_multiset());
        assert forall|i: int|
            0 <= i < sort_by_ts(s).len() implies s.contains(#[trigger] sort_by_ts(s)[i]) by {
            let e = sort_by_ts(s)[i];
            if e == s.last() {
                assert(s[s.len() - 1] == e);
            } else {
                assert(sort_by_ts(d).contains(e) || e == s.last());
                if sort_by_ts(d).contains(e) {
                    let k = choose|k: int| 0 <= k < sort_by_ts(d).len() && sort_by_ts(d)[k] == e;
                    assert(d.contains(e));
                    let m = choose|m: int| 0 <= m < d.len() && d[m] == e;
                    assert(s[m] == e);
                }
            }
        }
    }
}

/// A sequence already in order is its own stable sort.
pub proof fn lemma_sort_of_sorted(s: Seq<RecordV>)
    requires
        sorted_by_ts(s),
    ensures
        sort_by_ts(s) == s,
    decreases s.len(),
{
    if s.len() == 0 {
        assert(sort_by_ts(s) =~= s);
    } else {
        let d = s.drop_last();
        assert(sorted_by_ts(d));
        lemma_sort_of_sorted(d);
        lemma_insert_by_ts_at(s.last(), d, d.len() as int);
        assert(d.insert(d.len() as int, s.last()) =~= s);
    }
}

/// Sort a vector of records by timestamp, stably: the result is exactly the
/// stable insertion sort of the input.
pub fn sort_records(records: Vec<GautrainRecord>) -> (out: Vec<GautrainRecord>)
    ensures
        recs_view(out@) == sort_by_ts(recs_view(records@)),
{
    let ghost orig: Seq<RecordV> = recs_view(records@);
    let mut v = records;
    let mut out: Vec<GautrainRecord> = Vec::new();
    while v.len() > 0
        invariant
            v@.len() <= orig.len(),
            recs_view(v@) == orig.skip(orig.len() - v@.len()),
            recs_view(out@) == sort_by_ts(orig.take(orig.len() - v@.len())),
            sorted_by_ts(recs_view(out@)),
        decreases v@.len(),
    {
        let ghost p = orig.len() - v@.len();
        let ghost vprev = v@;
        let x = v.remove(0);
        proof {
            assert(x == vprev[0]);
            assert(x@ == recs_view(vprev)[0]);
            assert(x@ == orig.skip(p)[0]);
            assert(x@ == orig[p]);
            assert forall|i: int| 0 <= i < v@.len() implies recs_view(v@)[i] == orig.skip(p + 1)[i] by {
                assert(v@[i] == vprev[i + 1]);
                assert(recs_view(vprev)[i + 1] == vprev[i + 1]@);
                assert(orig.skip(p)[i + 1] == orig[p + 1 + i]);
            }
            assert(recs_view(v@) =~= orig.skip(p + 1));
        }
        let mut k: usize = 0;
        while k < out.len() && out[k].transaction_date <= x.transaction_date
            invariant
                k <= out@.len(),
                forall|j: int| 0 <= j < k ==> #[trigger] recs_view(out@)[j].ts <= x@.ts,
            decreases out@.len() - k,
        {
            k = k + 1;
        }
        proof {
            lemma_insert_by_ts_at(x@, recs_view(out@), k as int);
            lemma_insert_by_ts(x@, recs_view(out@));
        }
        let ghost before = recs_view(out@);
        out.insert(k, x);
        proof {
            assert(recs_view(out@) =~= before.insert(k as int, x@));
            assert(orig.take(p + 1).drop_last() =~= orig.take(p));
            assert(orig.take(p + 1).last() == orig[p]);
            assert(recs_view(out@) == sort_by_ts(orig.take(p + 1)));
        }
    }
    proof {
        assert(orig.take(orig.len() as int) =~= orig);
    }
    out
}

/// All records of a group fall on one calendar day.
pub open spec fn same_day(g: Seq<RecordV>) -> bool {
    forall|i: int, j: int|
        0 <= i < g.len() && 0 <= j < g.len() ==> day_of_ts(g[i].ts) == day_of_ts(g[j].ts)
}

/// Partition a sequence into maximal runs of records sharing a calendar day:
/// each record joins the last group when it falls on that group's day, and
/// opens a new group otherwise.
pub open spec fn group_by_day(s: Seq<RecordV>) -> Seq<Seq<RecordV>>
    decreases s.len(),
{
    if s.len() == 0 {
        Seq::empty()
    } else {
        let g = group_by_day(s.drop_last());
        let x = s.last();
        if g.len() > 0 && g.last().len() > 0 && day_of_ts(g.last().last().ts) == day_of_ts(x.ts) {
            g.update(g.len() - 1, g.last().push(x))
        } else {
            g.push(seq![x])
        }
    }
}

/// The sequence of group views of a vector of groups.
pub open spec fn groups_view(gs: Seq<Vec<GautrainRecord>>) -> Seq<Seq<RecordV>> {
    gs.map_values(|g: Vec<GautrainRecord>| recs_view(g@))
}

/// Grouping splits the sequence without losing, adding or reordering
/// records, into non-empty single-day groups.
pub proof fn lemma_group_by_day(s: Seq<RecordV>)
    ensures
        group_by_day(s).flatten() == s,
        forall|i: int| 0 <= i < group_by_day(s).len() ==> (#[trigger] group_by_day(s)[i]).len() > 0,
        forall|i: int| 0 <= i < group_by_day(s).len() ==> same_day(#[trigger] group_by_day(s)[i]),
    decreases s.len(),
{
    broadcast use Seq::lemma_flatten_push;

    if s.len() == 0 {
        assert(group_by_day(s).flatten() =~= s);
    } else {
        let d = s.drop_last();
        lemma_group_by_day(d);
        let g = group_by_day(d);
        let x = s.last();
        if g.len() > 0 && g.last().len() > 0 && day_of_ts(g.last().last().ts) == day_of_ts(x.ts) {
            let q = g.last().push(x);
            let gs = g.update(g.len() - 1, q);
            assert(gs =~= g.drop_last().push(q));
            assert(g =~= g.drop_last().push(g.last()));
            assert(gs.flatten() =~= g.drop_last().flatten() + q);
            assert(g.flatten() =~= g.drop_last().flatten() + g.last());
            assert(gs.flatten() =~= d.push(x));
            assert(d.push(x) =~= s);
            assert(same_day(q)) by {
                assert(forall|j: int|
                    0 <= j < g.last().len() ==> day_of_ts(#[trigger] g.last()[j].ts) == day_of_ts(
                        g.last().last().ts,
                    ));
            }
        } else {
            let gs = g.push(seq![x]);
            assert(gs.flatten() =~= d + seq![x]);
            assert(d + seq![x] =~= s);
        }
    }
}

/// On a timestamp-sorted input, each group is sorted, the calendar day
/// strictly increases from group to group, and the final record of the final
/// group is the final record of the input.
pub proof fn lemma_group_by_day_sorted(s: Seq<RecordV>)
    requires
        sorted_by_ts(s),
    ensures
        forall|i: int|
            0 <= i < group_by_day(s).len() ==> sorted_by_ts(#[trigger] group_by_day(s)[i]),
        forall|i: int, j: int|
            0 <= i < j < group_by_day(s).len() ==> day_of_ts(group_by_day(s)[i][0].ts) < day_of_ts(
                group_by_day(s)[j][0].ts,
            ),
        s.len() > 0 ==> group_by_day(s).len() > 0 && group_by_day(s).last().last() == s.last(),
        forall|i: int, k: int|
            0 <= i < group_by_day(s).len() && 0 <= k < group_by_day(s)[i].len() ==> s.len() > 0
                && (#[trigger] group_by_day(s)[i][k]).ts <= s.last().ts,
    decreases s.len(),
{
    if s.len() == 0 {
    } else {
        let d = s.drop_last();
        assert(sorted_by_ts(d));
        lemma_group_by_day_sorted(d);
        lemma_group_by_day(d);
        let g = group_by_day(d);
        let x = s.last();
        let gs = group_by_day(s);
        assert(forall|j: int| 0 <= j < d.len() ==> #[trigger] d[j].ts <= x.ts) by {
            assert(forall|j: int| 0 <= j < d.len() ==> d[j] == s[j] && s[j].ts <= s[s.len() - 1].ts);
        }
        if g.len() > 0 && g.last().len() > 0 && day_of_ts(g.last().last().ts) == day_of_ts(x.ts) {
            let q = g.last().push(x);
            assert(gs == g.update(g.len() - 1, q));
            assert(d.len() > 0);
            assert(sorted_by_ts(q)) by {
                assert(forall|k: int| 0 <= k < g.last().len() ==> (#[trigger] g.last()[k]).ts <= d.last().ts);
                assert(d.last().ts <= x.ts) by {
                    assert(d.last() == d[d.len() - 1]);
                }
            }
            assert(forall|i: int| 0 <= i < gs.len() ==> #[trigger] gs[i][0] == g[i][0]);
            assert(gs.last().last() == x);
        } else {
            assert(gs == g.push(seq![x]));
            if g.len() > 0 {
                assert(d.len() > 0);
                assert(g.last().last() == d.last());
                assert(day_of_ts(d.last().ts) <= day_of_ts(x.ts)) by {
                    assert(d.last() == d[d.len() - 1]);
                    assert(d.last().ts <= x.ts);
                    vstd::arithmetic::div_mod::lemma_div_is_ordered(
                        d.last().ts,
                        x.ts,
                        crate::date::SECS_PER_DAY as int,
                    );
                }
                assert(day_of_ts(g.last().last().ts) != day_of_ts(x.ts));
                assert(day_of_ts(g.last()[0].ts) == day_of_ts(g.last().last().ts)) by {
                    assert(same_day(g[g.len() - 1]));
                }
                assert(day_of_ts(g.last()[0].ts) < day_of_ts(x.ts));
                assert forall|i: int, j: int|
                    0 <= i < j < gs.len() implies day_of_ts(gs[i][0].ts) < day_of_ts(
                    gs[j][0].ts,
                ) by {
                    if j < gs.len() - 1 {
                        assert(gs[i][0] == g[i][0] && gs[j][0] == g[j][0]);
                    } else {
                        assert(gs[j][0] == x);
                        if i < gs.len() - 1 {
                            if i < g.len() - 1 {
                                assert(day_of_ts(g[i][0].ts) < day_of_ts(g[g.len() - 1][0].ts));
                            }
                        }
                    }
                }
            }
        }
    }
}

/// Group a vector of records into runs of equal calendar day, in order.
pub fn group_sorted(records: Vec<GautrainRecord>) -> (groups: Vec<Vec<GautrainRecord>>)
    ensures
        groups_view(groups@) == group_by_day(recs_view(records@)),
{
    let ghost orig: Seq<RecordV> = recs_view(records@);
    let mut v = records;
    let mut groups: Vec<Vec<GautrainRecord>> = Vec::new();
    while v.len() > 0
        invariant
            v@.len() <= orig.len(),
            recs_view(v@) == orig.skip(orig.len() - v@.len()),
            groups_view(groups@) == group_by_day(orig.take(orig.len() - v@.len())),
            forall|i: int| 0 <= i < groups@.len() ==> (#[trigger] groups@[i]@).len() > 0,
        decreases v@.len(),
    {
        let ghost p = orig.len() - v@.len();
        let ghost vprev = v@;
        let x = v.remove(0);
        proof {
            assert(x == vprev[0]);
            assert(x@ == recs_view(vprev)[0]);
            assert(x@ == orig.skip(p)[0]);
            assert(x@ == orig[p]);
            assert forall|i: int| 0 <= i < v@.len() implies recs_view(v@)[i] == orig.skip(p + 1)[i] by {
                assert(v@[i] == vprev[i + 1]);
                assert(recs_view(vprev)[i + 1] == vprev[i + 1]@);
                assert(orig.skip(p)[i + 1] == orig[p + 1 + i]);
            }
            assert(recs_view(v@) =~= orig.skip(p + 1));
            assert(orig.take(p + 1).drop_last() =~= orig.take(p));
            assert(orig.take(p + 1).last() == orig[p]);
        }
        let ghost before = groups_view(groups@);
        let n = groups.len();
        let mut extend = false;
        if n > 0 {
            let last_group = &groups[n - 1];
            proof {
                assert(recs_view(last_group@) == before[n - 1]);
            }
            extend = last_group[last_group.len() - 1].is_same_date(&x);
            proof {
                assert(last_group@[last_group@.len() - 1]@ == before[n - 1].last());
            }
        }
        if extend {
            let mut g = match groups.pop() {
                Some(g) => g,
                None => Vec::new(),
            };
            proof {
                assert(recs_view(g@) == before.last());
            }
            g.push(x);
            proof {
                assert(recs_view(g@) =~= before.last().push(x@));
            }
            groups.push(g);
            proof {
                assert(groups_view(groups@) =~= before.update(before.len() - 1, before.last().push(x@)));
                assert(groups_view(groups@) == group_by_day(orig.take(p + 1)));
            }
        } else {
            let mut g: Vec<GautrainRecord> = Vec::new();
            g.push(x);
            proof {
                assert(recs_view(g@) =~= seq![x@]);
            }
            groups.push(g);
            proof {
                assert(groups_view(groups@) =~= before.push(seq![x@]));
                if before.len() > 0 {
                    assert(before.last().len() > 0) by {
                        assert(before[before.len() - 1] == recs_view(groups@[before.len() - 1]@));
                    }
                }
                assert(groups_view(groups@) == group_by_day(orig.take(p + 1)));
            }
        }
    }
    proof {
        assert(orig.take(orig.len() as int) =~= orig);
    }
    groups
}

/// The Chronological Grouper: sort by timestamp, stably, then split into
/// calendar-day groups.  The result is pinned exactly: it is the day
/// partition of the stable sort of the input.
pub fn group_by_date(records: Vec<GautrainRecord>) -> (groups: Vec<Vec<GautrainRecord>>)
    ensures
        groups_view(groups@) == group_by_day(sort_by_ts(recs_view(records@))),
        forall|i: int| 0 <= i < groups@.len() ==> (#[trigger] groups_view(groups@)[i]).len() > 0,
{
    proof {
        lemma_group_by_day(sort_by_ts(recs_view(records@)));
    }
    let sorted = sort_records(records);
    group_sorted(sorted)
}

/// Law: grouping partitions its input.  The groups' records, taken together,
/// are exactly the input records (as a multiset); every group is non-empty,
/// internally sorted by timestamp, and single-day; and no calendar day
/// appears in two groups.
pub proof fn lemma_grouping_partitions(s: Seq<RecordV>)
    ensures
        group_by_day(sort_by_ts(s)).flatten().to_multiset() == s.to_multiset(),
        forall|i: int|
            0 <= i < group_by_day(sort_by_ts(s)).len() ==> (#[trigger] group_by_day(
                sort_by_ts(s),
            )[i]).len() > 0,
        forall|i: int|
            0 <= i < group_by_day(sort_by_ts(s)).len() ==> same_day(
                #[trigger] group_by_day(sort_by_ts(s))[i],
            ) && sorted_by_ts(group_by_day(sort_by_ts(s))[i]),
        forall|i: int, j: int, a: int, b: int|
            0 <= i < group_by_day(sort_by_ts(s)).len() && 0 <= j < group_by_day(sort_by_ts(s)).len()
                && i != j && 0 <= a < group_by_day(sort_by_ts(s))[i].len() && 0 <= b
                < group_by_day(sort_by_ts(s))[j].len() ==> day_of_ts(
                group_by_day(sort_by_ts(s))[i][a].ts,
            ) != day_of_ts(group_by_day(sort_by_ts(s))[j][b].ts),
{
    let t = sort_by_ts(s);
    let gs = group_by_day(t);
    lemma_sort_by_ts(s);
    lemma_group_by_day(t);
    lemma_group_by_day_sorted(t);
    assert(gs.flatten().to_multiset() == s.to_multiset());
    assert forall|i: int, j: int, a: int, b: int|
        0 <= i < gs.len() && 0 <= j < gs.len() && i != j && 0 <= a < gs[i].len() && 0 <= b
            < gs[j].len() implies day_of_ts(gs[i][a].ts) != day_of_ts(gs[j][b].ts) by {
        assert(day_of_ts(gs[i][a].ts) == day_of_ts(gs[i][0].ts)) by {
            assert(same_day(gs[i]));
        }
        assert(day_of_ts(gs[j][b].ts) == day_of_ts(gs[j][0].ts)) by {
            assert(same_day(gs[j]));
        }
    }
}

/// Law: grouping is idempotent.  Flattening the groups back into one
/// sequence and grouping again reproduces the identical groups.
pub proof fn lemma_grouping_idempotent(s: Seq<RecordV>)
    ensures
        group_by_day(sort_by_ts(group_by_day(sort_by_ts(s)).flatten())) == group_by_day(
            sort_by_ts(s),
        ),
{
    let t = sort_by_ts(s);
    lemma_sort_by_ts(s);
    lemma_group_by_day(t);
    lemma_sort_of_sorted(t);
}

/// Every record in every group comes from the grouped sequence.
pub proof fn lemma_group_by_day_elements(s: Seq<RecordV>)
    ensures
        forall|i: int, k: int|
            0 <= i < group_by_day(s).len() && 0 <= k < group_by_day(s)[i].len() ==> s.contains(
                #[trigger] group_by_day(s)[i][k],
            ),
    decreases s.len(),
{
    if s.len() > 0 {
        let d = s.drop_last();
        lemma_group_by_day_elements(d);
        lemma_group_by_day(d);
        let g = group_by_day(d);
        let x = s.last();
        let gs = group_by_day(s);
        assert forall|i: int, k: int|
            0 <= i < gs.len() && 0 <= k < gs[i].len() implies s.contains(#[trigger] gs[i][k]) by {
            if gs[i][k] == x {
                assert(s[s.len() - 1] == x);
            } else {
                assert(d.contains(gs[i][k])) by {
                    if g.len() > 0 && g.last().len() > 0 && day_of_ts(g.last().last().ts)
                        == day_of_ts(x.ts) {
                        if i == gs.len() - 1 {
                            assert(gs[i] == g[i].push(x));
                            assert(gs[i][k] == g[i][k]);
                        } else {
                            assert(gs[i] == g[i]);
                        }
                    } else {
                        assert(i < g.len());
                        assert(gs[i] == g[i]);
                    }
                }
                let j = choose|j: int| 0 <= j < d.len() && d[j] == gs[i][k];
                assert(s[j] == gs[i][k]);
            }
        }
    }
}

/// Bounded amounts carry through grouping: when every input record is
/// well-formed, so is every record of every group.
pub proof fn lemma_groups_wf(s: Seq<RecordV>)
    requires
        crate::totals::wf_all(s),
    ensures
        forall|i: int|
            0 <= i < group_by_day(sort_by_ts(s)).len() ==> crate::totals::wf_all(
                #[trigger] group_by_day(sort_by_ts(s))[i],
            ),
{
    let t = sort_by_ts(s);
    lemma_sort_by_ts(s);
    lemma_group_by_day_elements(t);
    let gs = group_by_day(t);
    assert forall|i: int| 0 <= i < gs.len() implies crate::totals::wf_all(#[trigger] gs[i]) by {
        assert forall|k: int| 0 <= k < gs[i].len() implies crate::model::wf_rec(
            #[trigger] gs[i][k],
        ) by {
            assert(t.contains(gs[i][k]));
            let j = choose|j: int| 0 <= j < t.len() && t[j] == gs[i][k];
            assert(s.contains(t[j]));
            let l = choose|l: int| 0 <= l < s.len() && s[l] == t[j];
        }
    }
}

} // verus!

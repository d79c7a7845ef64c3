use vstd::prelude::*;
use crate::model::GautrainRecord;
use crate::model::RecordV;
use crate::model::recs_view;
use crate::model::is_topup_v;
use crate::model::wf_rec;
use crate::model::MAX_CENTS;
use crate::group::insert_by_ts;
use crate::group::sort_by_ts;
use crate::group::group_by_day;
use crate::group::groups_view;
use crate::group::lemma_group_by_day;

verus! {

/// Sum of all transaction values, in cents.
pub open spec fn sum_value(s: Seq<RecordV>) -> int
    decreases s.len(),
{
    if s.len() == 0 {
        0
    } else {
        sum_value(s.drop_last()) + s.last().value
    }
}

/// Sum of the positive (top-up) transaction values, in cents.
pub open spec fn sum_topup(s: Seq<RecordV>) -> int
    decreases s.len(),
{
    if s.len() == 0 {
        0
    } else {
        sum_topup(s.drop_last()) + if is_topup_v(s.last()) {
            s.last().value
        } else {
            0
        }
    }
}

/// Sum of the non-positive (spend) transaction values, in cents; spends keep
/// their sign, so this sum is never positive.
pub open spec fn sum_spent(s: Seq<RecordV>) -> int
    decreases s.len(),
{
    if s.len() == 0 {
        0
    } else {
        sum_spent(s.drop_last()) + if is_topup_v(s.last()) {
            0
        } else {
            s.last().value
        }
    }
}

/// Every record of the sequence carries bounded amounts.
pub open spec fn wf_all(s: Seq<RecordV>) -> bool {
    forall|i: int| 0 <= i < s.len() ==> wf_rec(#[trigger] s[i])
}

/// Law: every value is either a top-up or a spend, so the two partial sums
/// always add up to the plain sum.
pub proof fn lemma_sums_split(s: Seq<RecordV>)
    ensures
        sum_topup(s) + sum_spent(s) == sum_value(s),
    decreases s.len(),
{
    if s.len() > 0 {
        lemma_sums_split(s.drop_last());
    }
}

pub proof fn lemma_sums_concat(a: Seq<RecordV>, b: Seq<RecordV>)
    ensures
        sum_value(a + b) == sum_value(a) + sum_value(b),
        sum_topup(a + b) == sum_topup(a) + sum_topup(b),
        sum_spent(a + b) == sum_spent(a) + sum_spent(b),
    decreases b.len(),
{
    if b.len() == 0 {
        assert(a + b =~= a);
    } else {
        lemma_sums_concat(a, b.drop_last());
        assert((a + b).drop_last() =~= a + b.drop_last());
        assert((a + b).last() == b.last());
    }
}

pub proof fn lemma_sums_singleton(x: RecordV)
    ensures
        sum_value(seq![x]) == x.value,
        sum_topup(seq![x]) == if is_topup_v(x) {
            x.value
        } else {
            0
        },
        sum_spent(seq![x]) == if is_topup_v(x) {
            0
        } else {
            x.value
        },
{
    assert(sum_value(Seq::<RecordV>::empty()) == 0);
    assert(sum_topup(Seq::<RecordV>::empty()) == 0);
    assert(sum_spent(Seq::<RecordV>::empty()) == 0);
    assert(seq![x].drop_last() =~= Seq::<RecordV>::empty());
    assert(seq![x].last() == x);
}

pub proof fn lemma_sums_insert(x: RecordV, s: Seq<RecordV>)
    ensures
        sum_value(insert_by_ts(x, s)) == sum_value(s) + x.value,
        sum_topup(insert_by_ts(x, s)) == sum_topup(s) + if is_topup_v(x) {
            x.value
        } else {
            0
        },
        sum_spent(insert_by_ts(x, s)) == sum_spent(s) + if is_topup_v(x) {
            0
        } else {
            x.value
        },
    decreases s.len(),
{
    if s.len() == 0 {
        lemma_sums_singleton(x);
    } else if s[0].ts <= x.ts {
        let d = s.drop_first();
        lemma_sums_insert(x, d);
        lemma_sums_concat(seq![s[0]], insert_by_ts(x, d));
        lemma_sums_concat(seq![s[0]], d);
        lemma_sums_singleton(s[0]);
        assert(s =~= seq![s[0]] + d);
    } else {
        lemma_sums_concat(seq![x], s);
        lemma_sums_singleton(x);
    }
}

/// Law: sorting does not change any of the three sums.
pub proof fn lemma_sums_sort(s: Seq<RecordV>)
    ensures
        sum_value(sort_by_ts(s)) == sum_value(s),
        sum_topup(sort_by_ts(s)) == sum_topup(s),
        sum_spent(sort_by_ts(s)) == sum_spent(s),
    decreases s.len(),
{
    if s.len() > 0 {
        lemma_sums_sort(s.drop_last());
        lemma_sums_insert(s.last(), sort_by_ts(s.drop_last()));
    }
}

pub proof fn lemma_sums_bound(s: Seq<RecordV>)
    requires
        wf_all(s),
    ensures
        -(s.len() * MAX_CENTS) <= sum_value(s) <= s.len() * MAX_CENTS,
        0 <= sum_topup(s) <= s.len() * MAX_CENTS,
        -(s.len() * MAX_CENTS) <= sum_spent(s) <= 0,
    decreases s.len(),
{
    if s.len() > 0 {
        let d = s.drop_last();
        assert(wf_all(d));
        lemma_sums_bound(d);
        assert(wf_rec(s[s.len() - 1]));
    }
}

/// The records of the chosen groups, flattened in the order the choices were
/// given; an index outside the groups contributes nothing.
pub open spec fn selected_records(gs: Seq<Seq<RecordV>>, sel: Seq<int>) -> Seq<RecordV>
    decreases sel.len(),
{
    if sel.len() == 0 {
        Seq::empty()
    } else {
        selected_records(gs, sel.drop_last()) + if 0 <= sel.last() < gs.len() {
            gs[sel.last()]
        } else {
            Seq::empty()
        }
    }
}

/// The selection as a sequence of mathematical indices.
pub open spec fn sel_view(sel: Seq<usize>) -> Seq<int> {
    sel.map_values(|u: usize| u as int)
}

/// A record equal to the given one, field for field.
pub fn clone_record(r: &GautrainRecord) -> (c: GautrainRecord)
    ensures
        c@ == r@,
{
    GautrainRecord {
        transaction_date: r.transaction_date,
        site: r.site.clone(),
        transaction_type: r.transaction_type.clone(),
        remaining_trips: r.remaining_trips,
        transaction_value: r.transaction_value,
        payg_balance: r.payg_balance,
    }
}

/// Flatten the chosen groups into one record vector, keeping the groups'
/// internal order and the order of the choices.
pub fn select_records(groups: &Vec<Vec<GautrainRecord>>, sel: &Vec<usize>) -> (out: Vec<
    GautrainRecord,
>)
    requires
        forall|i: int| 0 <= i < sel@.len() ==> (#[trigger] sel@[i]) < groups@.len(),
    ensures
        recs_view(out@) == selected_records(groups_view(groups@), sel_view(sel@)),
{
    let ghost gv = groups_view(groups@);
    let ghost sv = sel_view(sel@);
    let mut out: Vec<GautrainRecord> = Vec::new();
    let mut i: usize = 0;
    while i < sel.len()
        invariant
            i <= sel@.len(),
            forall|k: int| 0 <= k < sel@.len() ==> (#[trigger] sel@[k]) < groups@.len(),
            gv == groups_view(groups@),
            sv == sel_view(sel@),
            recs_view(out@) == selected_records(gv, sv.take(i as int)),
        decreases sel@.len() - i,
    {
        let gi = sel[i];
        let ghost g = gv[gi as int];
        proof {
            assert(recs_view(groups@[gi as int]@) == g);
        }
        let mut j: usize = 0;
        while j < groups[gi].len()
            invariant
                gi < groups@.len(),
                j <= groups@[gi as int]@.len(),
                g == recs_view(groups@[gi as int]@),
                recs_view(out@) == selected_records(gv, sv.take(i as int)) + g.take(j as int),
            decreases groups@[gi as int]@.len() - j,
        {
            let c = clone_record(&groups[gi][j]);
            proof {
                assert(c@ == groups@[gi as int]@[j as int]@);
                assert(c@ == g[j as int]);
            }
            let ghost ov = recs_view(out@);
            let ghost oprev = out@;
            out.push(c);
            proof {
                assert forall|k: int| 0 <= k < out@.len() implies recs_view(out@)[k] == ov.push(
                    c@,
                )[k] by {
                    if k < oprev.len() {
                        assert(out@[k] == oprev[k]);
                        assert(ov[k] == oprev[k]@);
                    } else {
                        assert(out@[k] == c);
                    }
                }
                assert(recs_view(out@) =~= ov.push(c@));
                assert(g.take(j + 1) =~= g.take(j as int).push(g[j as int]));
                assert(recs_view(out@) =~= selected_records(gv, sv.take(i as int)) + g.take(j + 1));
            }
            j = j + 1;
        }
        proof {
            assert(g.take(groups@[gi as int]@.len() as int) =~= g);
            assert(sv.take(i + 1).drop_last() =~= sv.take(i as int));
            assert(sv.take(i + 1).last() == sv[i as int]);
            assert(sv[i as int] == gi as int);
            assert(recs_view(out@) == selected_records(gv, sv.take(i + 1)));
        }
        i = i + 1;
    }
    proof {
        assert(sv.take(sv.len() as int) =~= sv);
    }
    out
}

/// The Aggregator's two running totals, in cents: total top-up and total
/// spend over the given records.
pub fn totals(records: &Vec<GautrainRecord>) -> (t: (i128, i128))
    requires
        wf_all(recs_view(records@)),
    ensures
        t.0 == sum_topup(recs_view(records@)),
        t.1 == sum_spent(recs_view(records@)),
{
    let ghost rv = recs_view(records@);
    let mut topup: i128 = 0;
    let mut spent: i128 = 0;
    let mut i: usize = 0;
    while i < records.len()
        invariant
            i <= records@.len(),
            rv == recs_view(records@),
            wf_all(rv),
            topup == sum_topup(rv.take(i as int)),
            spent == sum_spent(rv.take(i as int)),
        decreases records@.len() - i,
    {
        proof {
            assert(wf_all(rv.take(i as int))) by {
                assert(forall|k: int| 0 <= k < i ==> rv.take(i as int)[k] == rv[k]);
            }
            lemma_sums_bound(rv.take(i as int));
            assert(rv.take(i as int).len() * MAX_CENTS <= rv.len() * MAX_CENTS);
            assert(rv.len() <= usize::MAX);
            assert(wf_rec(rv[i as int]));
            assert(rv.take(i + 1).drop_last() =~= rv.take(i as int));
            assert(rv.take(i + 1).last() == rv[i as int]);
        }
        let r = &records[i];
        proof {
            assert(r@ == rv[i as int]);
        }
        if r.is_topup() {
            topup = topup + r.transaction_value as i128;
        } else {
            spent = spent + r.transaction_value as i128;
        }
        i = i + 1;
    }
    proof {
        assert(rv.take(rv.len() as int) =~= rv);
    }
    (topup, spent)
}

/// Bounded amounts carry through selection: records chosen from well-formed
/// groups are well-formed.
pub proof fn lemma_selected_wf(gs: Seq<Seq<RecordV>>, sel: Seq<int>)
    requires
        forall|i: int| 0 <= i < gs.len() ==> wf_all(#[trigger] gs[i]),
    ensures
        wf_all(selected_records(gs, sel)),
    decreases sel.len(),
{
    if sel.len() > 0 {
        lemma_selected_wf(gs, sel.drop_last());
        let pre = selected_records(gs, sel.drop_last());
        let tail = if 0 <= sel.last() < gs.len() {
            gs[sel.last()]
        } else {
            Seq::<RecordV>::empty()
        };
        assert forall|k: int| 0 <= k < (pre + tail).len() implies wf_rec(#[trigger] (pre
            + tail)[k]) by {
            if k < pre.len() {
                assert((pre + tail)[k] == pre[k]);
            } else {
                assert((pre + tail)[k] == tail[k - pre.len()]);
            }
        }
    }
}

/// Selecting the single group `i` selects exactly that group's records.
pub proof fn lemma_select_single(gs: Seq<Seq<RecordV>>, i: int)
    requires
        0 <= i < gs.len(),
    ensures
        selected_records(gs, seq![i]) == gs[i],
{
    assert(seq![i].drop_last() =~= Seq::<int>::empty());
    assert(selected_records(gs, Seq::<int>::empty()) == Seq::<RecordV>::empty());
    assert(seq![i].last() == i);
    assert(Seq::<RecordV>::empty() + gs[i] =~= gs[i]);
}

/// Law: for a single selected group, the top-up and spend figures that the
/// Presenter puts in the group's label add up to exactly what the Aggregator
/// reports for that selection.
pub proof fn lemma_label_matches_totals(gs: Seq<Seq<RecordV>>, i: int)
    requires
        0 <= i < gs.len(),
    ensures
        sum_topup(gs[i]) == sum_topup(selected_records(gs, seq![i])),
        sum_spent(gs[i]) == sum_spent(selected_records(gs, seq![i])),
        sum_topup(gs[i]) + sum_spent(gs[i]) == sum_value(selected_records(gs, seq![i])),
{
    lemma_select_single(gs, i);
    lemma_sums_split(gs[i]);
}

/// Selecting every group, in order, flattens them all.
pub proof fn lemma_select_all(gs: Seq<Seq<RecordV>>, k: int)
    requires
        0 <= k <= gs.len(),
    ensures
        selected_records(gs, Seq::new(k as nat, |i: int| i)) == gs.take(k).flatten(),
    decreases k,
{
    broadcast use Seq::lemma_flatten_push;

    let sel = Seq::new(k as nat, |i: int| i);
    if k == 0 {
        assert(gs.take(0).flatten() =~= Seq::<RecordV>::empty());
    } else {
        lemma_select_all(gs, k - 1);
        assert(sel.drop_last() =~= Seq::new((k - 1) as nat, |i: int| i));
        assert(gs.take(k) =~= gs.take(k - 1).push(gs[k - 1]));
        assert(gs.take(k).flatten() =~= gs.take(k - 1).flatten() + gs[k - 1]);
    }
}

/// Law: the net balance equals the arithmetic sum of the selected records'
/// values; and when every group is selected, it equals the plain sum of all
/// input values — grouping does not alter totals.
pub proof fn lemma_net_is_sum(s: Seq<RecordV>)
    ensures
        forall|sel: Seq<int>|
            sum_topup(#[trigger] selected_records(group_by_day(sort_by_ts(s)), sel)) + sum_spent(
                selected_records(group_by_day(sort_by_ts(s)), sel),
            ) == sum_value(selected_records(group_by_day(sort_by_ts(s)), sel)),
        sum_topup(group_by_day(sort_by_ts(s)).flatten()) + sum_spent(
            group_by_day(sort_by_ts(s)).flatten(),
        ) == sum_value(s),
        selected_records(
            group_by_day(sort_by_ts(s)),
            Seq::new(group_by_day(sort_by_ts(s)).len(), |i: int| i),
        ) == group_by_day(sort_by_ts(s)).flatten(),
{
    let gs = group_by_day(sort_by_ts(s));
    assert forall|sel: Seq<int>|
        sum_topup(#[trigger] selected_records(gs, sel)) + sum_spent(selected_records(gs, sel))
            == sum_value(selected_records(gs, sel)) by {
        lemma_sums_split(selected_records(gs, sel));
    }
    lemma_group_by_day(sort_by_ts(s));
    lemma_sums_split(gs.flatten());
    lemma_sums_sort(s);
    lemma_select_all(gs, gs.len() as int);
    assert(gs.take(gs.len() as int) =~= gs);
}

} // verus!

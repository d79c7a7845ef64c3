use vstd::prelude::*;
use crate::model::GautrainRecord;
use crate::model::RecordV;
use crate::model::recs_view;
use crate::date::day_of_ts;
use crate::date::ymd_of_day;
use crate::date::calendar_day;
use crate::date::civil_from_day;
use crate::date::MAX_DAY_MAG;
use crate::totals::sum_topup;
use crate::totals::sum_spent;
use crate::totals::wf_all;
use crate::totals::totals;
use crate::totals::lemma_sums_bound;
use crate::model::MAX_CENTS;
use crate::csvtext::chars_to_string;

verus! {

/// The character of one digit value.
pub open spec fn digit_char(d: int) -> char {
    if d == 0 {
        '0'
    } else if d == 1 {
        '1'
    } else if d == 2 {
        '2'
    } else if d == 3 {
        '3'
    } else if d == 4 {
        '4'
    } else if d == 5 {
        '5'
    } else if d == 6 {
        '6'
    } else if d == 7 {
        '7'
    } else if d == 8 {
        '8'
    } else {
        '9'
    }
}

/// The decimal digits of a number, most significant first.
pub open spec fn dec_chars(n: int) -> Seq<char>
    decreases n,
        when n >= 0
{
    if n < 10 {
        seq![digit_char(n)]
    } else {
        dec_chars(n / 10).push(digit_char(n % 10))
    }
}

/// The digits, left-padded with zeros to at least four places.
pub open spec fn pad4_chars(n: int) -> Seq<char> {
    if n < 10 {
        seq!['0', '0', '0'] + dec_chars(n)
    } else if n < 100 {
        seq!['0', '0'] + dec_chars(n)
    } else if n < 1000 {
        seq!['0'] + dec_chars(n)
    } else {
        dec_chars(n)
    }
}

/// The digits, left-padded with zeros to at least two places.
pub open spec fn pad2_chars(n: int) -> Seq<char> {
    if n < 10 {
        seq!['0'] + dec_chars(n)
    } else {
        dec_chars(n)
    }
}

/// A calendar date as text: zero-padded year (a sign in front when negative),
/// month and day, dash-separated.
pub open spec fn date_chars(y: int, m: int, d: int) -> Seq<char> {
    (if y < 0 {
        seq!['-'] + pad4_chars(-y)
    } else {
        pad4_chars(y)
    }) + seq!['-'] + pad2_chars(m) + seq!['-'] + pad2_chars(d)
}

/// An amount of cents as decimal text with exactly two fraction places, the
/// sign in front when negative.
pub open spec fn money_chars(c: int) -> Seq<char> {
    if c < 0 {
        seq!['-'] + money_chars_nn(-c)
    } else {
        money_chars_nn(c)
    }
}

pub open spec fn money_chars_nn(n: int) -> Seq<char> {
    dec_chars(n / 100) + seq!['.'] + seq![digit_char((n % 100) / 10), digit_char(n % 10)]
}

fn digit_char_x(d: u8) -> (c: char)
    requires
        d < 10,
    ensures
        c == digit_char(d as int),
{
    match d {
        0 => '0',
        1 => '1',
        2 => '2',
        3 => '3',
        4 => '4',
        5 => '5',
        6 => '6',
        7 => '7',
        8 => '8',
        _ => '9',
    }
}

fn push_dec(n: u128, out: &mut Vec<char>)
    ensures
        final(out)@ == old(out)@ + dec_chars(n as int),
    decreases n,
{
    if n < 10 {
        out.push(digit_char_x(n as u8));
        proof {
            assert(final(out)@ =~= old(out)@ + dec_chars(n as int));
        }
    } else {
        push_dec(n / 10, out);
        out.push(digit_char_x((n % 10) as u8));
        proof {
            assert(final(out)@ =~= old(out)@ + dec_chars(n as int));
        }
    }
}

/// Render cents as the two-decimal amount the report and the labels show.
pub fn money_string(c: i128) -> (s: String)
    requires
        c > i128::MIN,
    ensures
        s@ == money_chars(c as int),
{
    let mut v: Vec<char> = Vec::new();
    let n: u128;
    if c < 0 {
        v.push('-');
        n = (-c) as u128;
    } else {
        n = c as u128;
    }
    push_dec(n / 100, &mut v);
    v.push('.');
    let frac = (n % 100) as u8;
    v.push(digit_char_x(frac / 10));
    v.push(digit_char_x(frac % 10));
    proof {
        assert((n % 100) as int % 10 == n as int % 10) by {
            vstd::arithmetic::div_mod::lemma_mod_mod(n as int, 10, 10);
        }
        if c < 0 {
            assert(v@ =~= seq!['-'] + money_chars_nn(-(c as int)));
        } else {
            assert(v@ =~= money_chars_nn(c as int));
        }
    }
    chars_to_string(&v)
}

/// Render the calendar date of a day number.
pub fn date_string(day: i64) -> (s: String)
    requires
        -MAX_DAY_MAG <= day <= MAX_DAY_MAG,
    ensures
        ({
            let t = ymd_of_day(day as int);
            s@ == date_chars(t.0, t.1, t.2)
        }),
{
    let (y, m, d) = civil_from_day(day);
    let mut v: Vec<char> = Vec::new();
    let n: u128;
    if y < 0 {
        v.push('-');
        n = (-y) as u128;
    } else {
        n = y as u128;
    }
    if n < 10 {
        v.push('0');
        v.push('0');
        v.push('0');
    } else if n < 100 {
        v.push('0');
        v.push('0');
    } else if n < 1000 {
        v.push('0');
    }
    push_dec(n, &mut v);
    proof {
        if y < 0 {
            assert(v@ =~= seq!['-'] + pad4_chars(-(y as int)));
        } else {
            assert(v@ =~= pad4_chars(y as int));
        }
    }
    let ghost year_part = v@;
    v.push('-');
    if m < 10 {
        v.push('0');
    }
    push_dec(m as u128, &mut v);
    proof {
        assert(v@ =~= year_part + seq!['-'] + pad2_chars(m as int));
    }
    let ghost md_part = v@;
    v.push('-');
    if d < 10 {
        v.push('0');
    }
    push_dec(d as u128, &mut v);
    proof {
        assert(v@ =~= md_part + seq!['-'] + pad2_chars(d as int));
        assert(v@ =~= date_chars(y as int, m as int, d as int));
    }
    chars_to_string(&v)
}

/// The sites of a group's records, in order, joined with arrows; a repeated
/// site appears repeatedly.
pub open spec fn sites_chars(g: Seq<RecordV>) -> Seq<char>
    decreases g.len(),
{
    if g.len() == 0 {
        Seq::empty()
    } else if g.len() == 1 {
        g[0].site
    } else {
        sites_chars(g.drop_last()) + " -> "@ + g.last().site
    }
}

/// The Presenter's label for one day group: the group's calendar date, the
/// chain of sites, and the group's top-up and spend sums, the spend keeping
/// its sign.
pub open spec fn label_chars(g: Seq<RecordV>) -> Seq<char> {
    let t = ymd_of_day(day_of_ts(g[0].ts));
    date_chars(t.0, t.1, t.2) + " - "@ + sites_chars(g) + " - "@ + "Top-up: R"@ + money_chars(
        sum_topup(g),
    ) + ", Spent: R"@ + money_chars(sum_spent(g))
}

/// Build one group's label.
pub fn group_label(g: &Vec<GautrainRecord>) -> (s: String)
    requires
        g@.len() > 0,
        wf_all(recs_view(g@)),
    ensures
        s@ == label_chars(recs_view(g@)),
{
    let ghost rv = recs_view(g@);
    let day = calendar_day(g[0].transaction_date);
    proof {
        assert(g@[0]@ == rv[0]);
        let tsv: int = g@[0].transaction_date as int;
        vstd::arithmetic::div_mod::lemma_fundamental_div_mod(tsv, 86400);
        vstd::arithmetic::div_mod::lemma_mod_bound(tsv, 86400);
        assert(86400 * (day as int) <= tsv < 86400 * (day as int) + 86400);
        assert(-MAX_DAY_MAG <= day <= MAX_DAY_MAG);
    }
    let mut s = date_string(day);
    s.append(" - ");
    let mut j: usize = 0;
    while j < g.len()
        invariant
            j <= g@.len(),
            g@.len() > 0,
            rv == recs_view(g@),
            s@ == ({
                let t = ymd_of_day(day_of_ts(rv[0].ts));
                date_chars(t.0, t.1, t.2) + " - "@ + sites_chars(rv.take(j as int))
            }),
        decreases g@.len() - j,
    {
        if j > 0 {
            s.append(" -> ");
        }
        s.append(g[j].site.as_str());
        proof {
            assert(g@[j as int]@ == rv[j as int]);
            assert(rv.take(j + 1).drop_last() =~= rv.take(j as int));
            assert(rv.take(j + 1).last() == rv[j as int]);
            if j == 0 {
                assert(sites_chars(rv.take(1)) == rv.take(1)[0].site);
                assert(s@ =~= ({
                    let t = ymd_of_day(day_of_ts(rv[0].ts));
                    date_chars(t.0, t.1, t.2) + " - "@ + sites_chars(rv.take(1))
                }));
            } else {
                assert(sites_chars(rv.take(j + 1)) == sites_chars(rv.take(j as int)) + " -> "@
                    + rv[j as int].site);
                assert(s@ =~= ({
                    let t = ymd_of_day(day_of_ts(rv[0].ts));
                    date_chars(t.0, t.1, t.2) + " - "@ + sites_chars(rv.take(j + 1))
                }));
            }
        }
        j = j + 1;
    }
    proof {
        assert(rv.take(rv.len() as int) =~= rv);
        lemma_sums_bound(rv);
    }
    let (topup, spent) = totals(g);
    s.append(" - ");
    s.append("Top-up: R");
    let ts = money_string(topup);
    s.append(ts.as_str());
    s.append(", Spent: R");
    let ss = money_string(spent);
    s.append(ss.as_str());
    proof {
        assert(s@ =~= label_chars(rv));
    }
    s
}

/// The labels of all groups, in order: what the interactive selection shows.
pub fn group_labels(groups: &Vec<Vec<GautrainRecord>>) -> (labels: Vec<String>)
    requires
        forall|i: int|
            0 <= i < groups@.len() ==> (#[trigger] groups@[i]@).len() > 0 && wf_all(
                recs_view(groups@[i]@),
            ),
    ensures
        labels@.len() == groups@.len(),
        forall|i: int|
            0 <= i < groups@.len() ==> (#[trigger] labels@[i])@ == label_chars(
                recs_view(groups@[i]@),
            ),
{
    let mut labels: Vec<String> = Vec::new();
    let mut i: usize = 0;
    while i < groups.len()
        invariant
            i <= groups@.len(),
            labels@.len() == i,
            forall|k: int|
                0 <= k < groups@.len() ==> (#[trigger] groups@[k]@).len() > 0 && wf_all(
                    recs_view(groups@[k]@),
                ),
            forall|k: int|
                0 <= k < i ==> (#[trigger] labels@[k])@ == label_chars(recs_view(groups@[k]@)),
        decreases groups@.len() - i,
    {
        let l = group_label(&groups[i]);
        labels.push(l);
        i = i + 1;
    }
    labels
}

/// The Aggregator's report over the selected records: a heading, the total
/// top-up, the total spend (sign kept), and the net change, which is their
/// plain sum.
pub fn summary_lines(records: &Vec<GautrainRecord>) -> (lines: Vec<String>)
    requires
        wf_all(recs_view(records@)),
    ensures
        lines@.len() == 4,
        lines@[0]@ == "Summary for selected days:"@,
        lines@[1]@ == "Total Top-up: R"@ + money_chars(sum_topup(recs_view(records@))),
        lines@[2]@ == "Total Spent: R"@ + money_chars(sum_spent(recs_view(records@))),
        lines@[3]@ == "Net Balance Change: R"@ + money_chars(
            sum_topup(recs_view(records@)) + sum_spent(recs_view(records@)),
        ),
{
    let ghost rv = recs_view(records@);
    let count = records.len();
    proof {
        assert(rv.len() == count as int);
        lemma_sums_bound(rv);
        assert(rv.len() == records@.len());
        assert(rv.len() <= usize::MAX);
        assert(rv.len() * (MAX_CENTS as int) <= (usize::MAX as int) * (MAX_CENTS as int));
    }
    let (topup, spent) = totals(records);
    let net = topup + spent;
    let mut lines: Vec<String> = Vec::new();
    lines.push("Summary for selected days:".to_owned());
    let mut l1 = "Total Top-up: R".to_owned();
    let m1 = money_string(topup);
    l1.append(m1.as_str());
    lines.push(l1);
    let mut l2 = "Total Spent: R".to_owned();
    let m2 = money_string(spent);
    l2.append(m2.as_str());
    lines.push(l2);
    let mut l3 = "Net Balance Change: R".to_owned();
    let m3 = money_string(net);
    l3.append(m3.as_str());
    lines.push(l3);
    lines
}

} // verus!

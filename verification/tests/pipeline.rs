use gautrain::group::group_by_date;
use gautrain::model::GautrainRecord;
use gautrain::parse::parse_transactions;
use gautrain::parse::ParseError;
use gautrain::present::group_label;
use gautrain::present::group_labels;
use gautrain::present::summary_lines;
use gautrain::totals::select_records;
use gautrain::totals::totals;

const HEADER: &str = "Sequence Number,Transaction Date,Site,Transaction Type,Remaining Trips,Transaction Value,PAYG Balance";

fn rec(ts: i64, site: &str, value_cents: i64) -> GautrainRecord {
    GautrainRecord {
        transaction_date: ts,
        site: site.to_owned(),
        transaction_type: "Tap".to_owned(),
        remaining_trips: 10,
        transaction_value: value_cents,
        payg_balance: 0,
    }
}

#[test]
fn three_records_end_to_end() {
    let text = format!(
        "{}\n{}\n{}\n{}\n",
        HEADER,
        "1,\"2024-01-05 08:00\",StationA,Tap In,10,-15.00,85.00",
        "2,\"2024-01-05 18:00\",StationB,Tap Out,10,-5.00,80.00",
        "3,\"2024-01-06 09:00\",StationA,TopUp,10,100.00,180.00",
    );
    let records = parse_transactions(&text).expect("parse should succeed");
    assert_eq!(records.len(), 3);
    assert_eq!(records[0].transaction_value, -1500);
    assert_eq!(records[1].transaction_value, -500);
    assert_eq!(records[2].transaction_value, 10000);
    assert_eq!(records[0].remaining_trips, 10);
    assert_eq!(records[0].site, "StationA");

    let groups = group_by_date(records);
    assert_eq!(groups.len(), 2);
    assert_eq!(groups[0].len(), 2);
    assert_eq!(groups[1].len(), 1);
    assert_eq!(groups[0][0].site, "StationA");
    assert_eq!(groups[0][1].site, "StationB");

    let labels = group_labels(&groups);
    assert_eq!(
        labels[0],
        "2024-01-05 - StationA -> StationB - Top-up: R0.00, Spent: R-20.00"
    );
    assert_eq!(labels[1], "2024-01-06 - StationA - Top-up: R100.00, Spent: R0.00");

    let sel: Vec<usize> = vec![0, 1];
    let selected = select_records(&groups, &sel);
    assert_eq!(selected.len(), 3);
    let (topup, spent) = totals(&selected);
    assert_eq!(topup, 10000);
    assert_eq!(spent, -2000);

    let lines = summary_lines(&selected);
    assert_eq!(lines.len(), 4);
    assert_eq!(lines[0], "Summary for selected days:");
    assert_eq!(lines[1], "Total Top-up: R100.00");
    assert_eq!(lines[2], "Total Spent: R-20.00");
    assert_eq!(lines[3], "Net Balance Change: R80.00");
}

#[test]
fn malformed_value_aborts() {
    let text = format!("{}\n{}\n", HEADER, "1,\"2024-01-05 08:00\",StationA,Tap In,10,abc,85.00");
    match parse_transactions(&text) {
        Err(ParseError::NumericParse(s)) => assert_eq!(s, "abc"),
        other => panic!("expected a numeric parse failure, got {:?}", other),
    }
}

#[test]
fn empty_file_header_only() {
    let text = format!("{}\n", HEADER);
    let records = parse_transactions(&text).expect("header-only file parses");
    assert_eq!(records.len(), 0);
    let groups = group_by_date(records);
    assert_eq!(groups.len(), 0);
    let labels = group_labels(&groups);
    assert_eq!(labels.len(), 0);
    let sel: Vec<usize> = Vec::new();
    let selected = select_records(&groups, &sel);
    assert_eq!(selected.len(), 0);
    let lines = summary_lines(&selected);
    assert_eq!(lines[1], "Total Top-up: R0.00");
    assert_eq!(lines[2], "Total Spent: R0.00");
    assert_eq!(lines[3], "Net Balance Change: R0.00");
}

#[test]
fn zero_value_counts_as_spend() {
    let zero = rec(1_704_441_600, "StationA", 0);
    assert!(!zero.is_topup());
    let records = vec![zero, rec(1_704_441_700, "StationB", 500)];
    let (topup, spent) = totals(&records);
    assert_eq!(topup, 500);
    assert_eq!(spent, 0);
    let groups = group_by_date(records);
    assert_eq!(groups.len(), 1);
    let label = group_label(&groups[0]);
    assert_eq!(label, "2024-01-05 - StationA -> StationB - Top-up: R5.00, Spent: R0.00");
}

#[test]
fn header_order_does_not_matter() {
    let text = "Site,Transaction Value,Transaction Date,Sequence Number,Transaction Type,Remaining Trips,PAYG Balance\nStationA,4.50,\"2024-01-05 08:00\",1,Tap In,9,85.00\n";
    let records = parse_transactions(text).expect("reordered header parses");
    assert_eq!(records.len(), 1);
    assert_eq!(records[0].site, "StationA");
    assert_eq!(records[0].transaction_value, 450);
    assert_eq!(records[0].remaining_trips, 9);
    assert_eq!(records[0].payg_balance, 8500);
}

#[test]
fn missing_column_is_header_mismatch() {
    let text = "Sequence Number,Transaction Date,Site,Transaction Type,Remaining Trips,Transaction Value\n1,\"2024-01-05 08:00\",A,T,10,-15.00\n";
    assert!(matches!(parse_transactions(text), Err(ParseError::HeaderMismatch)));
    assert!(matches!(parse_transactions(""), Err(ParseError::HeaderMismatch)));
}

#[test]
fn bad_date_is_date_error() {
    let text = format!("{}\n{}\n", HEADER, "1,not-a-date,StationA,Tap In,10,-15.00,85.00");
    match parse_transactions(&text) {
        Err(ParseError::DateParse(s)) => assert_eq!(s, "not-a-date"),
        other => panic!("expected a date parse failure, got {:?}", other),
    }
}

#[test]
fn short_row_is_row_error() {
    let text = format!("{}\n{}\n", HEADER, "1,\"2024-01-05 08:00\",StationA,Tap In,10");
    assert!(matches!(parse_transactions(&text), Err(ParseError::RowDecode)));
}

#[test]
fn unclosed_quote_is_row_error() {
    let text = format!("{}\n{}", HEADER, "1,\"2024-01-05 08:00,StationA,Tap In,10,-15.00,85.00");
    assert!(matches!(parse_transactions(&text), Err(ParseError::RowDecode)));
}

#[test]
fn quoted_fields_with_commas_and_quotes() {
    let text = format!(
        "{}\n{}\n",
        HEADER, "1,\"2024-01-05 08:00\",\"Park, \"\"North\"\" Gate\",Tap In,10,-15.00,85.00"
    );
    let records = parse_transactions(&text).expect("quoted fields parse");
    assert_eq!(records[0].site, "Park, \"North\" Gate");
}

#[test]
fn grouping_partitions_and_sorts() {
    // out of order on purpose; two days interleaved
    let records = vec![
        rec(1_704_531_600, "C", 100),
        rec(1_704_441_600, "A", -200),
        rec(1_704_477_600, "B", -300),
    ];
    let groups = group_by_date(records);
    assert_eq!(groups.len(), 2);
    assert_eq!(groups[0][0].site, "A");
    assert_eq!(groups[0][1].site, "B");
    assert_eq!(groups[1][0].site, "C");
    // union: every record appears exactly once
    let total: usize = groups.iter().map(|g| g.len()).sum();
    assert_eq!(total, 3);
    // sorted within groups
    assert!(groups[0][0].transaction_date <= groups[0][1].transaction_date);
    // date-disjoint
    assert!(!groups[0][0].is_same_date(&groups[1][0]));
}

#[test]
fn grouping_is_idempotent() {
    let records = vec![
        rec(1_704_531_600, "C", 100),
        rec(1_704_441_600, "A", -200),
        rec(1_704_477_600, "B", -300),
        rec(1_704_441_700, "A2", -100),
    ];
    let groups = group_by_date(records);
    let mut flattened: Vec<GautrainRecord> = Vec::new();
    for g in &groups {
        for r in g {
            flattened.push(r.clone());
        }
    }
    let again = group_by_date(flattened);
    assert_eq!(again.len(), groups.len());
    for (ga, gb) in groups.iter().zip(again.iter()) {
        assert_eq!(ga.len(), gb.len());
        for (a, b) in ga.iter().zip(gb.iter()) {
            assert_eq!(a.transaction_date, b.transaction_date);
            assert_eq!(a.site, b.site);
            assert_eq!(a.transaction_value, b.transaction_value);
        }
    }
}

#[test]
fn single_group_label_matches_aggregator() {
    let records = vec![
        rec(1_704_441_600, "A", -1500),
        rec(1_704_477_600, "B", 2500),
        rec(1_704_531_600, "C", 700),
    ];
    let groups = group_by_date(records);
    assert_eq!(groups.len(), 2);
    // select only the first group
    let sel: Vec<usize> = vec![0];
    let selected = select_records(&groups, &sel);
    let (topup, spent) = totals(&selected);
    // the label of that group shows the same two sums
    let label = group_label(&groups[0]);
    assert_eq!(label, "2024-01-05 - A -> B - Top-up: R25.00, Spent: R-15.00");
    assert_eq!(topup, 2500);
    assert_eq!(spent, -1500);
}

#[test]
fn net_is_plain_sum_of_selected_values() {
    let records = vec![
        rec(1_704_441_600, "A", -1500),
        rec(1_704_477_600, "B", 2500),
        rec(1_704_531_600, "C", 700),
        rec(1_704_531_700, "D", -100),
    ];
    let sum: i64 = records.iter().map(|r| r.transaction_value).sum();
    let groups = group_by_date(records);
    let sel: Vec<usize> = (0..groups.len()).collect();
    let selected = select_records(&groups, &sel);
    let (topup, spent) = totals(&selected);
    assert_eq!(topup + spent, sum as i128);
}

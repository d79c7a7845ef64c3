use vstd::prelude::*;
use crate::csvtext::parse_rows;
use crate::csvtext::parse_csv;
use crate::csvtext::fields_view;
use crate::csvtext::rows_view;
use crate::model::CSVGautrainRecord;
use crate::model::GautrainRecord;
use crate::model::RecordV;
use crate::model::wf_rec;
use crate::model::recs_view;
use crate::totals::wf_all;
use crate::num::is_i32_str;
use crate::num::int_val;
use crate::num::is_money_str;
use crate::num::cents_val;
use crate::num::parse_i32;
use crate::num::parse_cents;

verus! {

/// Why a run fails: the CSV structure, the header, a date, or a number.
/// Every failure aborts the whole run; no row is silently skipped.
#[derive(Debug, PartialEq)]
pub enum ParseError {
    /// The header row is missing, or lacks one of the seven column names.
    HeaderMismatch,
    /// The text is not well-formed CSV, or a row has the wrong width.
    RowDecode,
    /// A transaction date the date parser does not recognize, echoed back.
    DateParse(String),
    /// A numeric field that does not parse, echoed back.
    NumericParse(String),
}

/// Relies on dateparser's `DateTimeUtc: FromStr` (`dateparser::parse`): it
/// recognizes many common datetime formats, reading zoneless ones in the
/// machine's local zone, and on chrono's `DateTime::timestamp` for the
/// instant's seconds since the epoch.  The instant may depend on the machine
/// and the moment, so nothing is assumed of it: callers work for every value.
#[verifier::external_body]
fn parse_timestamp(s: &str) -> (r: Option<i64>) {
    match s.parse::<dateparser::DateTimeUtc>() {
        Ok(d) => Some(d.0.timestamp()),
        Err(_) => None,
    }
}

impl GautrainRecord {
    /// Convert one raw row into a typed record, field order as the export has
    /// it: the date first, then the trip count, the value, and the balance;
    /// the first field that does not parse is echoed back in the error.
    pub fn from_csv(raw: CSVGautrainRecord) -> (r: Result<GautrainRecord, ParseError>)
        ensures
            r matches Ok(rec) ==> {
                &&& rec@.site == raw.site@
                &&& rec@.ttype == raw.transaction_type@
                &&& is_i32_str(raw.remaining_trips@)
                &&& rec@.trips == int_val(raw.remaining_trips@)
                &&& is_money_str(raw.transaction_value@)
                &&& rec@.value == cents_val(raw.transaction_value@)
                &&& is_money_str(raw.payg_balance@)
                &&& rec@.balance == cents_val(raw.payg_balance@)
                &&& wf_rec(rec@)
            },
            r matches Err(e) ==> match e {
                ParseError::DateParse(s) => s@ == raw.transaction_date@,
                ParseError::NumericParse(s) => (s@ == raw.remaining_trips@ && !is_i32_str(s@)) || (
                is_i32_str(raw.remaining_trips@) && s@ == raw.transaction_value@ && !is_money_str(
                    s@,
                )) || (is_i32_str(raw.remaining_trips@) && is_money_str(raw.transaction_value@)
                    && s@ == raw.payg_balance@ && !is_money_str(s@)),
                _ => false,
            },
            !(is_i32_str(raw.remaining_trips@) && is_money_str(raw.transaction_value@)
                && is_money_str(raw.payg_balance@)) ==> r is Err,
    {
        let ts = match parse_timestamp(raw.transaction_date.as_str()) {
            Some(t) => t,
            None => {
                return Err(ParseError::DateParse(raw.transaction_date));
            },
        };
        let trips = match parse_i32(raw.remaining_trips.as_str()) {
            Some(v) => v,
            None => {
                return Err(ParseError::NumericParse(raw.remaining_trips));
            },
        };
        let value = match parse_cents(raw.transaction_value.as_str()) {
            Some(v) => v,
            None => {
                return Err(ParseError::NumericParse(raw.transaction_value));
            },
        };
        let balance = match parse_cents(raw.payg_balance.as_str()) {
            Some(v) => v,
            None => {
                return Err(ParseError::NumericParse(raw.payg_balance));
            },
        };
        Ok(
            GautrainRecord {
                transaction_date: ts,
                site: raw.site,
                transaction_type: raw.transaction_type,
                remaining_trips: trips,
                transaction_value: value,
                payg_balance: balance,
            },
        )
    }
}

/// The first column at or after `i` whose name is `name`.
pub open spec fn col_of(h: Seq<Seq<char>>, name: Seq<char>, i: int) -> Option<int>
    decreases h.len() - i,
        when 0 <= i <= h.len()
{
    if i >= h.len() {
        None
    } else if h[i] == name {
        Some(i)
    } else {
        col_of(h, name, i + 1)
    }
}

/// Which column holds each of the seven fields.
pub struct HeaderMap {
    pub seq_col: usize,
    pub date_col: usize,
    pub site_col: usize,
    pub ttype_col: usize,
    pub trips_col: usize,
    pub value_col: usize,
    pub balance_col: usize,
}

/// The map points at the first column of each required name.
pub open spec fn header_cols_ok(h: Seq<Seq<char>>, m: HeaderMap) -> bool {
    &&& col_of(h, "Sequence Number"@, 0) == Some(m.seq_col as int)
    &&& col_of(h, "Transaction Date"@, 0) == Some(m.date_col as int)
    &&& col_of(h, "Site"@, 0) == Some(m.site_col as int)
    &&& col_of(h, "Transaction Type"@, 0) == Some(m.ttype_col as int)
    &&& col_of(h, "Remaining Trips"@, 0) == Some(m.trips_col as int)
    &&& col_of(h, "Transaction Value"@, 0) == Some(m.value_col as int)
    &&& col_of(h, "PAYG Balance"@, 0) == Some(m.balance_col as int)
}

/// All seven required column names appear in the header.
pub open spec fn header_ok(h: Seq<Seq<char>>) -> bool {
    &&& col_of(h, "Sequence Number"@, 0) is Some
    &&& col_of(h, "Transaction Date"@, 0) is Some
    &&& col_of(h, "Site"@, 0) is Some
    &&& col_of(h, "Transaction Type"@, 0) is Some
    &&& col_of(h, "Remaining Trips"@, 0) is Some
    &&& col_of(h, "Transaction Value"@, 0) is Some
    &&& col_of(h, "PAYG Balance"@, 0) is Some
}

fn find_column(header: &Vec<String>, name: &str) -> (r: Option<usize>)
    ensures
        match r {
            Some(c) => col_of(fields_view(header@), name@, 0) == Some(c as int) && c
                < header@.len(),
            None => col_of(fields_view(header@), name@, 0) is None,
        },
{
    let target = name.to_owned();
    let ghost h = fields_view(header@);
    let mut j: usize = 0;
    while j < header.len()
        invariant
            j <= header@.len(),
            h == fields_view(header@),
            target@ == name@,
            col_of(h, name@, 0) == col_of(h, name@, j as int),
        decreases header@.len() - j,
    {
        if header[j].eq(&target) {
            proof {
                assert(h[j as int] == header@[j as int]@);
            }
            return Some(j);
        }
        proof {
            assert(h[j as int] == header@[j as int]@);
            assert(h[j as int] != name@);
        }
        j = j + 1;
    }
    None
}

fn find_header_map(header: &Vec<String>) -> (r: Option<HeaderMap>)
    ensures
        match r {
            Some(m) => header_cols_ok(fields_view(header@), m) && m.seq_col < header@.len()
                && m.date_col < header@.len() && m.site_col < header@.len() && m.ttype_col
                < header@.len() && m.trips_col < header@.len() && m.value_col < header@.len()
                && m.balance_col < header@.len(),
            None => !header_ok(fields_view(header@)),
        },
{
    let seq_col = match find_column(header, "Sequence Number") {
        Some(c) => c,
        None => {
            return None;
        },
    };
    let date_col = match find_column(header, "Transaction Date") {
        Some(c) => c,
        None => {
            return None;
        },
    };
    let site_col = match find_column(header, "Site") {
        Some(c) => c,
        None => {
            return None;
        },
    };
    let ttype_col = match find_column(header, "Transaction Type") {
        Some(c) => c,
        None => {
            return None;
        },
    };
    let trips_col = match find_column(header, "Remaining Trips") {
        Some(c) => c,
        None => {
            return None;
        },
    };
    let value_col = match find_column(header, "Transaction Value") {
        Some(c) => c,
        None => {
            return None;
        },
    };
    let balance_col = match find_column(header, "PAYG Balance") {
        Some(c) => c,
        None => {
            return None;
        },
    };
    Some(
        HeaderMap {
            seq_col,
            date_col,
            site_col,
            ttype_col,
            trips_col,
            value_col,
            balance_col,
        },
    )
}

/// The rows of a well-formed text.
pub open spec fn rows_of(t: Seq<char>) -> Seq<Seq<Seq<char>>>
    recommends
        parse_rows(t, 0) is Some,
{
    parse_rows(t, 0)->0
}

/// A data row of the right width whose three numeric fields parse.
pub open spec fn row_ok(row: Seq<Seq<char>>, m: HeaderMap, width: int) -> bool {
    &&& row.len() == width
    &&& is_i32_str(row[m.trips_col as int])
    &&& is_money_str(row[m.value_col as int])
    &&& is_money_str(row[m.balance_col as int])
}

/// The typed record carries exactly the row's fields: the texts as they
/// stand, the numbers with their parsed values.
pub open spec fn rec_matches_row(row: Seq<Seq<char>>, m: HeaderMap, rec: RecordV) -> bool {
    &&& rec.site == row[m.site_col as int]
    &&& rec.ttype == row[m.ttype_col as int]
    &&& rec.trips == int_val(row[m.trips_col as int])
    &&& rec.value == cents_val(row[m.value_col as int])
    &&& rec.balance == cents_val(row[m.balance_col as int])
    &&& wf_rec(rec)
}

/// The Record Parser: decode a CSV text into typed records, or fail on the
/// first malformed thing found — structure, header, width, date or number.
pub fn parse_transactions(text: &str) -> (r: Result<Vec<GautrainRecord>, ParseError>)
    ensures
        r matches Ok(recs) ==> {
            &&& wf_all(recs_view(recs@))
            &&& parse_rows(text@, 0) is Some
            &&& rows_of(text@).len() >= 1
            &&& recs@.len() == rows_of(text@).len() - 1
            &&& exists|m: HeaderMap|
                {
                    &&& #[trigger] header_cols_ok(rows_of(text@)[0], m)
                    &&& forall|i: int|
                        0 <= i < recs@.len() ==> row_ok(
                            #[trigger] rows_of(text@)[i + 1],
                            m,
                            rows_of(text@)[0].len() as int,
                        ) && rec_matches_row(rows_of(text@)[i + 1], m, recs@[i]@)
                }
        },
        r matches Err(e) ==> match e {
            ParseError::RowDecode => parse_rows(text@, 0) is None || exists|i: int|
                1 <= i < rows_of(text@).len() && (#[trigger] rows_of(text@)[i]).len() != rows_of(
                    text@,
                )[0].len(),
            ParseError::HeaderMismatch => parse_rows(text@, 0) is Some && (rows_of(
                text@,
            ).len() == 0 || !header_ok(rows_of(text@)[0])),
            ParseError::DateParse(s) => parse_rows(text@, 0) is Some && exists|m: HeaderMap, i: int|
                #![trigger header_cols_ok(rows_of(text@)[0], m), rows_of(text@)[i]]
                header_cols_ok(rows_of(text@)[0], m) && 1 <= i < rows_of(text@).len()
                    && s@ == rows_of(text@)[i][m.date_col as int],
            ParseError::NumericParse(s) => parse_rows(text@, 0) is Some && exists|
                m: HeaderMap,
                i: int,
            |
                #![trigger header_cols_ok(rows_of(text@)[0], m), rows_of(text@)[i]]
                header_cols_ok(rows_of(text@)[0], m) && 1 <= i < rows_of(text@).len()
                    && ((s@ == rows_of(text@)[i][m.trips_col as int] && !is_i32_str(s@)) || (s@
                    == rows_of(text@)[i][m.value_col as int] && !is_money_str(s@)) || (s@ == rows_of(
                    text@,
                )[i][m.balance_col as int] && !is_money_str(s@))),
        },
{
    let rows = match parse_csv(text) {
        Some(r) => r,
        None => {
            return Err(ParseError::RowDecode);
        },
    };
    let ghost rv = rows_view(rows@);
    proof {
        assert(rv == rows_of(text@));
    }
    if rows.len() == 0 {
        return Err(ParseError::HeaderMismatch);
    }
    let m = match find_header_map(&rows[0]) {
        Some(m) => m,
        None => {
            proof {
                assert(fields_view(rows@[0]@) == rv[0]);
            }
            return Err(ParseError::HeaderMismatch);
        },
    };
    proof {
        assert(fields_view(rows@[0]@) == rv[0]);
        assert(header_cols_ok(rv[0], m));
    }
    let width = rows[0].len();
    let mut out: Vec<GautrainRecord> = Vec::new();
    let mut i: usize = 1;
    while i < rows.len()
        invariant
            1 <= i <= rows@.len(),
            rv == rows_view(rows@),
            rv == rows_of(text@),
            parse_rows(text@, 0) is Some,
            header_cols_ok(rv[0], m),
            width == rv[0].len(),
            m.seq_col < width && m.date_col < width && m.site_col < width && m.ttype_col < width
                && m.trips_col < width && m.value_col < width && m.balance_col < width,
            out@.len() == i - 1,
            forall|k: int|
                0 <= k < out@.len() ==> row_ok(#[trigger] rv[k + 1], m, width as int)
                    && rec_matches_row(rv[k + 1], m, out@[k]@),
        decreases rows@.len() - i,
    {
        let row = &rows[i];
        proof {
            assert(fields_view(row@) == rv[i as int]);
        }
        if row.len() != width {
            return Err(ParseError::RowDecode);
        }
        let raw = CSVGautrainRecord {
            sequence_number: row[m.seq_col].clone(),
            transaction_date: row[m.date_col].clone(),
            site: row[m.site_col].clone(),
            transaction_type: row[m.ttype_col].clone(),
            remaining_trips: row[m.trips_col].clone(),
            transaction_value: row[m.value_col].clone(),
            payg_balance: row[m.balance_col].clone(),
        };
        proof {
            assert(raw.transaction_date@ == rv[i as int][m.date_col as int]);
            assert(raw.site@ == rv[i as int][m.site_col as int]);
            assert(raw.transaction_type@ == rv[i as int][m.ttype_col as int]);
            assert(raw.remaining_trips@ == rv[i as int][m.trips_col as int]);
            assert(raw.transaction_value@ == rv[i as int][m.value_col as int]);
            assert(raw.payg_balance@ == rv[i as int][m.balance_col as int]);
        }
        match GautrainRecord::from_csv(raw) {
            Ok(rec) => {
                out.push(rec);
            },
            Err(e) => {
                return Err(e);
            },
        }
        i = i + 1;
    }
    proof {
        assert(header_cols_ok(rows_of(text@)[0], m));
        assert forall|k: int| 0 <= k < recs_view(out@).len() implies wf_rec(
            #[trigger] recs_view(out@)[k],
        ) by {
            assert(rec_matches_row(rv[k + 1], m, out@[k]@));
        }
    }
    Ok(out)
}

} // verus!

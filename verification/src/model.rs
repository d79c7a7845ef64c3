use vstd::prelude::*;
use crate::date::day_of_ts;
use crate::date::calendar_day;

verus! {

/// One raw CSV row, exactly the seven columns of the export, all as text.
#[derive(Debug)]
pub struct CSVGautrainRecord {
    pub sequence_number: String,
    pub transaction_date: String,
    pub site: String,
    pub transaction_type: String,
    pub remaining_trips: String,
    pub transaction_value: String,
    pub payg_balance: String,
}

/// A typed transaction.  The timestamp is an instant in seconds since the
/// epoch; the two amounts are in cents, so that a positive
/// `transaction_value` is a top-up and a non-positive one a spend.
#[derive(Debug, Clone)]
pub struct GautrainRecord {
    pub transaction_date: i64,
    pub site: String,
    pub transaction_type: String,
    pub remaining_trips: i32,
    pub transaction_value: i64,
    pub payg_balance: i64,
}

/// The mathematical image of a record: every field as a plain value.
pub ghost struct RecordV {
    pub ts: int,
    pub site: Seq<char>,
    pub ttype: Seq<char>,
    pub trips: int,
    pub value: int,
    pub balance: int,
}

impl View for GautrainRecord {
    type V = RecordV;

    open spec fn view(&self) -> RecordV {
        RecordV {
            ts: self.transaction_date as int,
            site: self.site@,
            ttype: self.transaction_type@,
            trips: self.remaining_trips as int,
            value: self.transaction_value as int,
            balance: self.payg_balance as int,
        }
    }
}

/// Largest amount, in cents, that a parsed record may carry.  The numeric
/// grammar admits at most thirteen integer digits, so every parsed amount
/// stays strictly below this bound; totals then fit comfortably in `i128`.
pub const MAX_CENTS: i64 = 1_000_000_000_000_000;

/// Amounts small enough that sums over any vector of records fit in `i128`.
pub open spec fn wf_rec(r: RecordV) -> bool {
    &&& -MAX_CENTS <= r.value <= MAX_CENTS
    &&& -MAX_CENTS <= r.balance <= MAX_CENTS
}

/// The sequence of record views of a vector of records.
pub open spec fn recs_view(s: Seq<GautrainRecord>) -> Seq<RecordV> {
    s.map_values(|r: GautrainRecord| r@)
}

/// A positive value is a top-up; zero and negative values are spends.
pub open spec fn is_topup_v(r: RecordV) -> bool {
    r.value > 0
}

impl GautrainRecord {
    /// Whether this transaction credits the card.
    pub fn is_topup(&self) -> (b: bool)
        ensures
            b == is_topup_v(self@),
    {
        self.transaction_value > 0
    }

    /// Whether the two transactions fall on the same calendar day.
    pub fn is_same_date(&self, other: &GautrainRecord) -> (b: bool)
        ensures
            b == (day_of_ts(self@.ts) == day_of_ts(other@.ts)),
    {
        calendar_day(self.transaction_date) == calendar_day(other.transaction_date)
    }
}

} // verus!

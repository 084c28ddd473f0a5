//! One sales record, and how a raw row of cells becomes one.

use vstd::prelude::*;
use vstd::string::*;
use crate::aggregate::{totals_of_row, CustomerTotals};
use crate::cell::{cell_number, cell_text, parse_number, trimmed_text, Data};
use crate::columns::ColumnIndices;
use crate::customers::{within_limits, CustomerData};
use crate::decimal::Decimal;
use crate::month::{cell_month, extract_month};
use crate::text::trimmed;
use crate::wide::Wide;

verus! {

/// One sales record.
#[derive(Debug)]
pub struct CachedRow {
    /// The customer's code; never empty in a record read from a sheet.
    pub customer_code: String,
    /// The customer's name; may be empty.
    pub customer_name: String,
    /// The amount paid.
    pub pay_amount: Decimal,
    /// The amount covered by a recharge.
    pub recharge_deduction: Decimal,
    pub province: Option<String>,
    pub city: Option<String>,
    pub district: Option<String>,
    /// Province, city and district joined by `-`, or the region that the
    /// sheet gives.
    pub region: Option<String>,
    /// The month of the order, `YYYY-MM`.
    pub month: Option<String>,
}

/// The characters of an optional text.
pub open spec fn opt_view(o: Option<String>) -> Option<Seq<char>> {
    match o {
        Some(s) => Some(s@),
        None => None,
    }
}

impl CachedRow {
    /// The total of this record in millionths: the amount paid plus the
    /// recharge deduction.
    pub open spec fn total(self) -> int {
        self.pay_amount@ + self.recharge_deduction@
    }

    /// The total of this record in millionths.
    pub fn total_amount(&self) -> (t: i128)
        ensures
            t == self.total(),
            t == self.pay_amount@ + self.recharge_deduction@,
    {
        self.pay_amount.micros() + self.recharge_deduction.micros()
    }

    /// A copy of this record.
    pub fn duplicate(&self) -> (r: CachedRow)
        ensures
            r == *self,
    {
        CachedRow {
            customer_code: self.customer_code.clone(),
            customer_name: self.customer_name.clone(),
            pay_amount: self.pay_amount,
            recharge_deduction: self.recharge_deduction,
            province: copy_text(&self.province),
            city: copy_text(&self.city),
            district: copy_text(&self.district),
            region: copy_text(&self.region),
            month: copy_text(&self.month),
        }
    }
}

/// A copy of an optional text.
pub fn copy_text(o: &Option<String>) -> (r: Option<String>)
    ensures
        r == *o,
{
    match o {
        Some(s) => Some(s.clone()),
        None => None,
    }
}

/// The cell of `row` in column `col`, if the row reaches that far.
pub open spec fn cell_at(row: Seq<Data>, col: Option<usize>) -> Option<Data> {
    match col {
        Some(i) => if i < row.len() {
            Some(row[i as int])
        } else {
            None
        },
        None => None,
    }
}

/// The trimmed text of the cell of `row` in column `col`.
pub open spec fn text_at(row: Seq<Data>, col: Option<usize>) -> Option<Seq<char>> {
    match cell_at(row, col) {
        Some(c) => Some(trimmed(cell_text(c))),
        None => None,
    }
}

/// The trimmed text of the cell of `row` in column `col`, unless it is
/// empty.
pub open spec fn filled_text_at(row: Seq<Data>, col: Option<usize>) -> Option<Seq<char>> {
    match text_at(row, col) {
        Some(t) => if t.len() > 0 {
            Some(t)
        } else {
            None
        },
        None => None,
    }
}

/// The number in the cell of `row` in column `col`; zero where the row does
/// not reach that far.
pub open spec fn number_at(row: Seq<Data>, col: usize) -> int {
    match cell_at(row, Some(col)) {
        Some(c) => cell_number(c),
        None => 0,
    }
}

/// `joined` with `part` added after a `-`; a first part stands alone.
pub open spec fn with_part(joined: Seq<char>, part: Option<Seq<char>>) -> Seq<char> {
    match part {
        Some(p) => if joined.len() == 0 {
            p
        } else {
            joined + seq!['-'] + p
        },
        None => joined,
    }
}

/// The region of a record: those of `province`, `city` and `district` that
/// are there, in this order, joined by `-`; if none is, `fallback`.
pub open spec fn region_of(
    province: Option<Seq<char>>,
    city: Option<Seq<char>>,
    district: Option<Seq<char>>,
    fallback: Option<Seq<char>>,
) -> Option<Seq<char>> {
    if province is Some || city is Some || district is Some {
        Some(with_part(with_part(with_part(Seq::empty(), province), city), district))
    } else {
        fallback
    }
}

/// Whether `row` gives a record: its customer code cell is there and not
/// empty after trimming.
pub open spec fn is_kept(row: Seq<Data>, columns: ColumnIndices) -> bool {
    filled_text_at(row, Some(columns.customer_code)) is Some
}

/// Whether `record` is what `row` gives under `columns`.
pub open spec fn normalizes(row: Seq<Data>, columns: ColumnIndices, record: CachedRow) -> bool {
    &&& Some(record.customer_code@) == text_at(row, Some(columns.customer_code))
    &&& record.customer_code@.len() > 0
    &&& record.customer_name@ == match text_at(row, columns.customer_name) {
        Some(t) => t,
        None => Seq::empty(),
    }
    &&& record.pay_amount@ == number_at(row, columns.pay_amount)
    &&& record.recharge_deduction@ == number_at(row, columns.recharge_deduction)
    &&& opt_view(record.province) == filled_text_at(row, columns.province)
    &&& opt_view(record.city) == filled_text_at(row, columns.city)
    &&& opt_view(record.district) == filled_text_at(row, columns.district)
    &&& opt_view(record.region) == region_of(
        filled_text_at(row, columns.province),
        filled_text_at(row, columns.city),
        filled_text_at(row, columns.district),
        filled_text_at(row, columns.region),
    )
    &&& opt_view(record.month) == match cell_at(row, columns.date) {
        Some(c) => cell_month(c),
        None => None,
    }
    &&& record.month matches Some(m) ==> m@.len() == 7
}

/// Reads the trimmed text of the cell of `row` in column `col`.
fn read_text(row: &Vec<Data>, col: Option<usize>) -> (r: Option<String>)
    ensures
        opt_view(r) == text_at(row@, col),
{
    match col {
        Some(i) => if i < row.len() {
            Some(trimmed_text(&row[i]))
        } else {
            None
        },
        None => None,
    }
}

/// Reads the trimmed text of the cell of `row` in column `col`, unless it is
/// empty.
fn read_filled_text(row: &Vec<Data>, col: Option<usize>) -> (r: Option<String>)
    ensures
        opt_view(r) == filled_text_at(row@, col),
{
    match read_text(row, col) {
        Some(t) => if t.as_str().is_empty() {
            None
        } else {
            Some(t)
        },
        None => None,
    }
}

/// Reads the number in the cell of `row` in column `col`.
fn read_number(row: &Vec<Data>, col: usize) -> (d: Decimal)
    ensures
        d@ == number_at(row@, col),
{
    if col < row.len() {
        parse_number(&row[col])
    } else {
        Decimal::zero()
    }
}

/// Adds `part` to `joined`, after a `-` unless it is the first part.
fn add_part(joined: &mut String, part: &Option<String>)
    ensures
        final(joined)@ == with_part(old(joined)@, opt_view(*part)),
{
    match part {
        Some(p) => {
            if !joined.as_str().is_empty() {
                proof {
                    reveal_strlit("-");
                }
                joined.append("-");
            }
            let ghost before = joined@;
            joined.append(p.as_str());
            assert(old(joined)@.len() == 0 ==> joined@ == p@);
        },
        None => {},
    }
}

/// What `row` contributes to the totals of its customer; nothing if the row
/// has no customer code.
pub open spec fn row_totals(row: Seq<Data>, columns: ColumnIndices) -> Option<CustomerTotals> {
    match filled_text_at(row, Some(columns.customer_code)) {
        Some(code) => Some(
            CustomerTotals {
                code,
                name: match text_at(row, columns.customer_name) {
                    Some(t) => t,
                    None => Seq::empty(),
                },
                pay: number_at(row, columns.pay_amount),
                recharge: number_at(row, columns.recharge_deduction),
                orders: 1,
            },
        ),
        None => None,
    }
}

/// The record of a row contributes what the row contributes.
pub proof fn lemma_record_totals(row: Seq<Data>, columns: ColumnIndices, record: CachedRow)
    requires
        is_kept(row, columns),
        normalizes(row, columns, record),
    ensures
        row_totals(row, columns) == Some(totals_of_row(record)),
{
}

/// Reads the customer of one raw row with the amounts of that row, counted
/// as one order. Gives nothing if the row has no customer code.
pub fn parse_customer(row: &Vec<Data>, indices: &ColumnIndices) -> (r: Option<CustomerData>)
    ensures
        match r {
            Some(c) => row_totals(row@, *indices) == Some(c@) && c.consistent() && within_limits(
                c@,
            ),
            None => row_totals(row@, *indices) is None,
        },
{
    let customer_code = match read_filled_text(row, Some(indices.customer_code)) {
        Some(code) => code,
        None => {
            return None;
        },
    };
    let customer_name = match read_text(row, indices.customer_name) {
        Some(name) => name,
        None => String::new(),
    };
    let pay_amount = Wide::from_i128(read_number(row, indices.pay_amount).micros());
    let recharge_deduction = Wide::from_i128(read_number(row, indices.recharge_deduction).micros());
    Some(
        CustomerData {
            customer_code,
            customer_name,
            pay_amount,
            recharge_deduction,
            total_amount: pay_amount.plus(&recharge_deduction),
            order_count: 1,
        },
    )
}

/// Makes the record of one raw row.
///
/// Gives nothing if the row has no customer code. An amount that cannot be
/// read counts as zero; a date that cannot be read leaves the record without
/// a month.
pub fn parse_row(row: &Vec<Data>, indices: &ColumnIndices) -> (r: Option<CachedRow>)
    ensures
        match r {
            Some(record) => is_kept(row@, *indices) && normalizes(row@, *indices, record),
            None => !is_kept(row@, *indices),
        },
{
    let customer_code = match read_filled_text(row, Some(indices.customer_code)) {
        Some(code) => code,
        None => {
            return None;
        },
    };
    let customer_name = match read_text(row, indices.customer_name) {
        Some(name) => name,
        None => String::new(),
    };
    let pay_amount = read_number(row, indices.pay_amount);
    let recharge_deduction = read_number(row, indices.recharge_deduction);
    let province = read_filled_text(row, indices.province);
    let city = read_filled_text(row, indices.city);
    let district = read_filled_text(row, indices.district);
    let region = if province.is_some() || city.is_some() || district.is_some() {
        let mut joined = String::new();
        add_part(&mut joined, &province);
        add_part(&mut joined, &city);
        add_part(&mut joined, &district);
        Some(joined)
    } else {
        read_filled_text(row, indices.region)
    };
    let month = match indices.date {
        Some(i) => if i < row.len() {
            extract_month(&row[i])
        } else {
            None
        },
        None => None,
    };
    Some(
        CachedRow {
            customer_code,
            customer_name,
            pay_amount,
            recharge_deduction,
            province,
            city,
            district,
            region,
            month,
        },
    )
}

} // verus!

//! From the rows of a sheet to its records and the values they offer.

use vstd::prelude::*;
use vstd::slice::slice_subrange;
use vstd::string::*;
use crate::aggregate::{aggregate, totals_of_row, CustomerTotals};
use crate::cell::Data;
use crate::columns::{columns_of, find_column_indices, ColumnIndices};
use crate::error::{checkpoint, AnalysisError};
use crate::options::{collect_options, lists_customers, CustomerOption};
use crate::processor::{kept_totals, sheet_error, sheet_totals};
use crate::progress::{count_detail, is_report_due, notice, parsing_progress, ProcessProgress};
use crate::row::{is_kept, lemma_record_totals, normalizes, parse_row, CachedRow};
use crate::sorted::{sorted_distinct, texts};
use crate::trend::Dimension;

verus! {

/// The records of a sheet with the values they offer.
#[derive(Debug)]
pub struct FileLoadResult {
    /// Where the sheet came from, as the caller names it.
    pub file_path: String,
    /// The records, in the order of their rows.
    pub cached_rows: Vec<CachedRow>,
    pub available_customers: Vec<CustomerOption>,
    pub available_provinces: Vec<String>,
    pub available_cities: Vec<String>,
    pub available_districts: Vec<String>,
    pub available_regions: Vec<String>,
    /// The number of data rows, those without a record too.
    pub total_rows: usize,
    /// The time the work took, as the caller measured it; zero until then.
    pub load_time_ms: u128,
}

/// Whether `records` are the records of the data rows `rows`: one for each
/// row that has a customer code, in the order of the rows.
pub open spec fn normalized(rows: Seq<Vec<Data>>, columns: ColumnIndices, records: Seq<CachedRow>) -> bool
    decreases rows.len(),
{
    if rows.len() == 0 {
        records.len() == 0
    } else if is_kept(rows.last()@, columns) {
        &&& records.len() > 0
        &&& normalizes(rows.last()@, columns, records.last())
        &&& normalized(rows.drop_last(), columns, records.drop_last())
    } else {
        normalized(rows.drop_last(), columns, records)
    }
}

impl FileLoadResult {
    /// Whether this is what the sheet `rows`, named `file_path`, gives.
    pub open spec fn loads(self, file_path: Seq<char>, rows: Seq<Vec<Data>>) -> bool {
        let records = self.cached_rows@;
        &&& self.file_path@ == file_path
        &&& normalized(rows.skip(1), columns_of(rows[0]@), records)
        &&& lists_customers(self.available_customers@, records)
        &&& texts(self.available_provinces@) == sorted_distinct(
            crate::options::field_values(records, Dimension::Province),
        )
        &&& texts(self.available_cities@) == sorted_distinct(
            crate::options::field_values(records, Dimension::City),
        )
        &&& texts(self.available_districts@) == sorted_distinct(
            crate::options::field_values(records, Dimension::District),
        )
        &&& texts(self.available_regions@) == sorted_distinct(
            crate::options::field_values(records, Dimension::Region),
        )
        &&& self.total_rows == rows.len() - 1
        &&& self.load_time_ms == 0
    }
}

/// The records of a sheet are no more than its rows, and their totals are
/// the totals of the sheet: aggregating the records gives what aggregating
/// the rows gives.
pub proof fn lemma_normalized(rows: Seq<Vec<Data>>, columns: ColumnIndices, records: Seq<CachedRow>)
    requires
        normalized(rows, columns, records),
    ensures
        records.len() <= rows.len(),
        records.map_values(|r: CachedRow| totals_of_row(r)) == kept_totals(rows, columns),
        aggregate(records) == sheet_totals(rows, columns),
    decreases rows.len(),
{
    let mapped = records.map_values(|r: CachedRow| totals_of_row(r));
    if rows.len() == 0 {
        assert(mapped =~= kept_totals(rows, columns));
    } else if is_kept(rows.last()@, columns) {
        lemma_normalized(rows.drop_last(), columns, records.drop_last());
        lemma_record_totals(rows.last()@, columns, records.last());
        assert(mapped =~= kept_totals(rows, columns));
    } else {
        lemma_normalized(rows.drop_last(), columns, records);
    }
    lemma_aggregate_is_absorb_all(Seq::empty(), records);
}

/// Counting records in is counting in what each contributes.
pub proof fn lemma_aggregate_is_absorb_all(entries: Seq<CustomerTotals>, records: Seq<CachedRow>)
    ensures
        crate::aggregate::aggregate_onto(entries, records) == crate::aggregate::absorb_all(
            entries,
            records.map_values(|r: CachedRow| totals_of_row(r)),
        ),
    decreases records.len(),
{
    let mapped = records.map_values(|r: CachedRow| totals_of_row(r));
    if records.len() > 0 {
        lemma_aggregate_is_absorb_all(entries, records.drop_last());
        assert(mapped.drop_last() =~= records.drop_last().map_values(
            |r: CachedRow| totals_of_row(r),
        ));
    }
}

/// The records of two runs of rows, one after the other, are the records of
/// the rows of both.
pub proof fn lemma_normalized_concat(
    x: Seq<Vec<Data>>,
    y: Seq<Vec<Data>>,
    columns: ColumnIndices,
    a: Seq<CachedRow>,
    b: Seq<CachedRow>,
)
    requires
        normalized(x, columns, a),
        normalized(y, columns, b),
    ensures
        normalized(x + y, columns, a + b),
    decreases y.len(),
{
    if y.len() == 0 {
        assert(x + y == x);
        assert(a + b == a);
    } else {
        assert((x + y).drop_last() == x + y.drop_last());
        assert((x + y).last() == y.last());
        if is_kept(y.last()@, columns) {
            lemma_normalized_concat(x, y.drop_last(), columns, a, b.drop_last());
            assert((a + b).drop_last() == a + b.drop_last());
            assert((a + b).last() == b.last());
        } else {
            lemma_normalized_concat(x, y.drop_last(), columns, a, b);
        }
    }
}

/// Makes the records of the data rows `rows`. A row without a customer code
/// gives none.
pub fn normalize_rows(rows: &[Vec<Data>], columns: &ColumnIndices) -> (records: Vec<CachedRow>)
    ensures
        normalized(rows@, *columns, records@),
{
    let mut records: Vec<CachedRow> = Vec::new();
    let mut i: usize = 0;
    assert(rows@.take(0) == Seq::<Vec<Data>>::empty());
    while i < rows.len()
        invariant
            i <= rows.len(),
            normalized(rows@.take(i as int), *columns, records@),
        decreases rows.len() - i,
    {
        let ghost before = records@;
        proof {
            assert(rows@.take(i + 1).drop_last() == rows@.take(i as int));
            assert(rows@.take(i + 1).last() == rows@[i as int]);
        }
        match parse_row(&rows[i], columns) {
            Some(record) => {
                records.push(record);
                assert(records@.drop_last() == before);
            },
            None => {},
        }
        i += 1;
    }
    assert(rows@.take(i as int) == rows@);
    records
}

/// Makes the records of the data rows `rows`, as `normalize_rows` does,
/// and tells `progress_callback` how far the work is before the first row
/// and then before every ten thousandth.
pub fn normalize_rows_reporting<F: Fn(ProcessProgress)>(
    rows: &[Vec<Data>],
    columns: &ColumnIndices,
    progress_callback: &F,
) -> (records: Vec<CachedRow>)
    requires
        forall|n: ProcessProgress| call_requires(*progress_callback, (n,)),
    ensures
        normalized(rows@, *columns, records@),
{
    let mut records: Vec<CachedRow> = Vec::new();
    let mut i: usize = 0;
    assert(rows@.take(0) == Seq::<Vec<Data>>::empty());
    while i < rows.len()
        invariant
            i <= rows.len(),
            normalized(rows@.take(i as int), *columns, records@),
            forall|n: ProcessProgress| call_requires(*progress_callback, (n,)),
        decreases rows.len() - i,
    {
        let ghost before = records@;
        proof {
            assert(rows@.take(i + 1).drop_last() == rows@.take(i as int));
            assert(rows@.take(i + 1).last() == rows@[i as int]);
        }
        match parse_row(&rows[i], columns) {
            Some(record) => {
                records.push(record);
                assert(records@.drop_last() == before);
            },
            None => {},
        }
        if is_report_due(i) {
            progress_callback(parsing_progress(i, rows.len()));
        }
        i += 1;
    }
    assert(rows@.take(i as int) == rows@);
    records
}

/// Loads a sheet: the first row is the header, the others are data.
///
/// Fails if the sheet has no rows or its header lacks a required column.
/// Otherwise gives the records of the data rows and the values they offer
/// for picking a trend.
pub fn load_sheet(file_path: &str, rows: &Vec<Vec<Data>>) -> (r: Result<FileLoadResult, AnalysisError>)
    ensures
        match r {
            Ok(loaded) => sheet_error(rows@) is None && loaded.loads(file_path@, rows@),
            Err(e) => sheet_error(rows@) == Some(e),
        },
{
    if rows.len() == 0 {
        return Err(AnalysisError::EmptySheet);
    }
    let columns = match find_column_indices(&rows[0]) {
        Ok(columns) => columns,
        Err(e) => {
            return Err(e);
        },
    };
    let data = slice_subrange(rows.as_slice(), 1, rows.len());
    assert(data@ == rows@.skip(1));
    let cached_rows = normalize_rows(data, &columns);
    Ok(loaded_from(file_path, cached_rows, rows.len() - 1))
}

/// Puts the records of a sheet together with the values they offer.
fn loaded_from(file_path: &str, cached_rows: Vec<CachedRow>, total_rows: usize) -> (loaded:
    FileLoadResult)
    ensures
        loaded.file_path@ == file_path@,
        loaded.cached_rows == cached_rows,
        loaded.total_rows == total_rows,
        loaded.load_time_ms == 0,
        lists_customers(loaded.available_customers@, cached_rows@),
        texts(loaded.available_provinces@) == sorted_distinct(
            crate::options::field_values(cached_rows@, Dimension::Province),
        ),
        texts(loaded.available_cities@) == sorted_distinct(
            crate::options::field_values(cached_rows@, Dimension::City),
        ),
        texts(loaded.available_districts@) == sorted_distinct(
            crate::options::field_values(cached_rows@, Dimension::District),
        ),
        texts(loaded.available_regions@) == sorted_distinct(
            crate::options::field_values(cached_rows@, Dimension::Region),
        ),
{
    let options = collect_options(&cached_rows);
    FileLoadResult {
        file_path: String::from_str(file_path),
        cached_rows,
        available_customers: options.customers,
        available_provinces: options.provinces,
        available_cities: options.cities,
        available_districts: options.districts,
        available_regions: options.regions,
        total_rows,
        load_time_ms: 0,
    }
}

/// Loads a sheet, as `load_sheet` does, telling of its progress and
/// stopping at a checkpoint if the work is called off.
///
/// `cancelled` is asked once, when the sheet is known not to be empty;
/// where it answers yes, the work ends with `Cancelled`. `progress_callback`
/// is told when the rows are counted, while they are parsed, and when the
/// values are collected. Neither changes what is loaded.
///
/// A sheet without rows fails with `EmptySheet` before anything is asked.
/// Where `cancelled` never answers yes, the work fails only as `load_sheet`
/// does, and gives the records whenever the sheet is in order, also where
/// it has a header and no data rows.
pub fn load_excel_file<C: Fn() -> bool, F: Fn(ProcessProgress)>(
    file_path: &str,
    rows: &Vec<Vec<Data>>,
    cancelled: C,
    progress_callback: F,
) -> (r: Result<FileLoadResult, AnalysisError>)
    requires
        call_requires(cancelled, ()),
        forall|n: ProcessProgress| call_requires(progress_callback, (n,)),
    ensures
        match r {
            Ok(loaded) => sheet_error(rows@) is None && loaded.loads(file_path@, rows@),
            Err(e) => e == AnalysisError::Cancelled || sheet_error(rows@) == Some(e),
        },
        rows@.len() == 0 ==> r is Err && r->Err_0 == AnalysisError::EmptySheet,
        (forall|b: bool| call_ensures(cancelled, (), b) ==> !b) ==> (r is Err ==> sheet_error(rows@)
            == Some(r->Err_0)),
        (forall|b: bool| call_ensures(cancelled, (), b) ==> b) && rows@.len() > 0 ==> r is Err
            && r->Err_0 == AnalysisError::Cancelled,
{
    if rows.len() == 0 {
        return Err(AnalysisError::EmptySheet);
    }
    let total_rows = rows.len() - 1;
    progress_callback(notice("2/3", "正在解析数据...", 40, count_detail("共 ", total_rows, " 行数据")));
    match checkpoint(cancelled()) {
        Ok(_) => {},
        Err(e) => {
            return Err(e);
        },
    }
    let columns = match find_column_indices(&rows[0]) {
        Ok(columns) => columns,
        Err(e) => {
            return Err(e);
        },
    };
    let data = slice_subrange(rows.as_slice(), 1, rows.len());
    assert(data@ == rows@.skip(1));
    let cached_rows = normalize_rows_reporting(data, &columns, &progress_callback);
    progress_callback(notice("3/3", "正在整理数据...", 95, String::from_str("生成选项列表...")));
    Ok(loaded_from(file_path, cached_rows, total_rows))
}

} // verus!

//! From the rows of a sheet to the report on its customers. The rows are
//! aggregated chunk by chunk on the threads of `rayon`, and the chunk totals
//! are reduced to one table.

use rayon::iter::{IndexedParallelIterator, ParallelIterator};
use rayon::slice::ParallelSlice;
use vstd::hash_map::StringHashMap;
use vstd::prelude::*;
use vstd::slice::slice_subrange;
use vstd::string::*;
use crate::aggregate::{
    absorb_all, lemma_absorb_all, lemma_absorb_all_concat, lemma_absorb_all_is_merge, merged,
    CustomerTotals,
};
use crate::cell::Data;
use crate::chunks::{chunks, joined, lemma_chunks_join, lemma_joined_prefix};
use crate::columns::{columns_of, find_column_indices, missing_field, ColumnIndices};
use crate::customers::{
    absorb_parts, lemma_sum_orders_merged, merge_tables, sum_orders, views, CustomerData,
    CustomerTable,
};
use crate::error::{checkpoint, AnalysisError};
use crate::progress::{count_detail, notice, ProcessProgress};
use crate::ranking::{analyze_table, AnalysisResult};
use crate::row::{parse_customer, row_totals};

verus! {

/// The fewest rows that make a chunk worth a thread.
pub const MIN_CHUNK: usize = 1000;

/// What the rows `rows` contribute, row by row; rows without a customer code
/// contribute nothing.
pub open spec fn kept_totals(rows: Seq<Vec<Data>>, columns: ColumnIndices) -> Seq<CustomerTotals>
    decreases rows.len(),
{
    if rows.len() == 0 {
        Seq::empty()
    } else {
        match row_totals(rows.last()@, columns) {
            Some(t) => kept_totals(rows.drop_last(), columns).push(t),
            None => kept_totals(rows.drop_last(), columns),
        }
    }
}

/// The per-customer totals of the data rows `rows`: one entry for each
/// customer code, in the order in which the codes first occur.
pub open spec fn sheet_totals(rows: Seq<Vec<Data>>, columns: ColumnIndices) -> Seq<CustomerTotals> {
    absorb_all(Seq::empty(), kept_totals(rows, columns))
}

/// The size of the chunks into which `len` rows are split for `workers`
/// threads: an even share, but at least `MIN_CHUNK`.
pub open spec fn chunk_size_of(len: int, workers: int) -> int {
    let share = if workers > 1 {
        len / workers
    } else {
        len
    };
    if share > MIN_CHUNK {
        share
    } else {
        MIN_CHUNK as int
    }
}

/// The failure of a sheet that cannot be analysed, if it is one: it has no
/// rows, or its header lacks a required column.
pub open spec fn sheet_error(rows: Seq<Vec<Data>>) -> Option<AnalysisError> {
    if rows.len() == 0 {
        Some(AnalysisError::EmptySheet)
    } else {
        match missing_field(rows[0]@) {
            Some(field) => Some(AnalysisError::MissingColumn(field)),
            None => None,
        }
    }
}

/// What two runs of rows contribute is what the first contributes and then
/// what the second does.
pub proof fn lemma_kept_totals_concat(x: Seq<Vec<Data>>, y: Seq<Vec<Data>>, columns: ColumnIndices)
    ensures
        kept_totals(x + y, columns) == kept_totals(x, columns) + kept_totals(y, columns),
    decreases y.len(),
{
    if y.len() == 0 {
        assert(x + y == x);
        assert(kept_totals(x, columns) + Seq::<CustomerTotals>::empty() == kept_totals(x, columns));
    } else {
        lemma_kept_totals_concat(x, y.drop_last(), columns);
        assert((x + y).drop_last() == x + y.drop_last());
        assert((x + y).last() == y.last());
        let front = kept_totals(x, columns) + kept_totals(y.drop_last(), columns);
        match row_totals(y.last()@, columns) {
            Some(t) => {
                assert(front.push(t) == kept_totals(x, columns) + kept_totals(
                    y.drop_last(),
                    columns,
                ).push(t));
            },
            None => {},
        }
    }
}

/// Every row counts once at most.
pub proof fn lemma_kept_totals_orders(rows: Seq<Vec<Data>>, columns: ColumnIndices)
    ensures
        sum_orders(kept_totals(rows, columns)) <= rows.len(),
        sum_orders(sheet_totals(rows, columns)) <= rows.len(),
    decreases rows.len(),
{
    if rows.len() > 0 {
        lemma_kept_totals_orders(rows.drop_last(), columns);
        match row_totals(rows.last()@, columns) {
            Some(t) => {
                assert(kept_totals(rows.drop_last(), columns).push(t).drop_last() == kept_totals(
                    rows.drop_last(),
                    columns,
                ));
            },
            None => {},
        }
    }
    lemma_sum_orders_merged(Seq::empty(), kept_totals(rows, columns));
}

/// The totals of a sheet do not depend on how its rows are split: the
/// totals of two runs of rows, reduced to one, are the totals of the rows
/// of both.
pub proof fn lemma_sheet_totals_concat(x: Seq<Vec<Data>>, y: Seq<Vec<Data>>, columns: ColumnIndices)
    ensures
        sheet_totals(x + y, columns) == merged(sheet_totals(x, columns), sheet_totals(y, columns)),
{
    lemma_kept_totals_concat(x, y, columns);
    lemma_absorb_all_concat(Seq::empty(), kept_totals(x, columns), kept_totals(y, columns));
    lemma_absorb_all(Seq::empty(), kept_totals(x, columns));
    lemma_absorb_all_is_merge(sheet_totals(x, columns), kept_totals(y, columns));
}

/// The per-customer totals of the data rows `rows`, made on one thread.
pub fn totals_of_chunk(rows: &[Vec<Data>], columns: &ColumnIndices) -> (t: CustomerTable)
    ensures
        t@ == sheet_totals(rows@, *columns),
{
    let mut entries: Vec<CustomerData> = Vec::new();
    let mut index: StringHashMap<usize> = StringHashMap::new();
    let mut i: usize = 0;
    assert(views(entries@) =~= Seq::<CustomerTotals>::empty());
    assert(rows@.take(0) == Seq::<Vec<Data>>::empty());
    assert(sum_orders(views(entries@)) == 0);
    while i < rows.len()
        invariant
            i <= rows.len(),
            crate::customers::parts_wf(entries@, index@),
            views(entries@) == sheet_totals(rows@.take(i as int), *columns),
        decreases rows.len() - i,
    {
        proof {
            lemma_kept_totals_orders(rows@.take(i as int), *columns);
            assert(rows@.take(i + 1).drop_last() == rows@.take(i as int));
            assert(rows@.take(i + 1).last() == rows@[i as int]);
        }
        match parse_customer(&rows[i], columns) {
            Some(c) => {
                absorb_parts(
                    &mut entries,
                    &mut index,
                    &c.customer_code,
                    &c.customer_name,
                    c.pay_amount,
                    c.recharge_deduction,
                    1,
                );
                assert(kept_totals(rows@.take(i + 1), *columns).drop_last() == kept_totals(
                    rows@.take(i as int),
                    *columns,
                ));
            },
            None => {},
        }
        i += 1;
    }
    assert(rows@.take(i as int) == rows@);
    CustomerTable::from_parts(entries, index)
}

/// Calls `rayon::current_num_threads`: the number of threads of the pool
/// that would run parallel work now. Nothing is claimed of it.
#[verifier::external_body]
fn worker_count() -> usize {
    rayon::current_num_threads()
}

/// Hands the chunks of `rows` to the threads of `rayon`: `par_chunks`
/// splits the rows into consecutive chunks of `size` rows, the last one
/// perhaps shorter; `map` runs `totals_of_chunk` on each; `collect` gives
/// the results in the order of the chunks.
#[verifier::external_body]
fn chunk_tables(rows: &[Vec<Data>], columns: &ColumnIndices, size: usize) -> (parts: Vec<
    CustomerTable,
>)
    requires
        size > 0,
    ensures
        parts@.len() == chunks(rows@, size as nat).len(),
        forall|k: int|
            0 <= k < parts@.len() ==> (#[trigger] parts@[k])@ == sheet_totals(
                chunks(rows@, size as nat)[k],
                *columns,
            ),
{
    rows.par_chunks(size).map(|chunk| totals_of_chunk(chunk, columns)).collect()
}

/// The size of the chunks into which `len` rows are split for `workers`
/// threads.
pub fn chunk_size(len: usize, workers: usize) -> (size: usize)
    ensures
        size == chunk_size_of(len as int, workers as int),
        size >= MIN_CHUNK,
{
    let share = if workers > 1 {
        len / workers
    } else {
        len
    };
    if share > MIN_CHUNK {
        share
    } else {
        MIN_CHUNK
    }
}

/// The models of `tables`, in order.
pub open spec fn table_views(tables: Seq<CustomerTable>) -> Seq<Seq<CustomerTotals>> {
    tables.map_values(|t: CustomerTable| t@)
}

/// The totals `tables` reduced to one, from the first to the last.
pub open spec fn merged_all(tables: Seq<Seq<CustomerTotals>>) -> Seq<CustomerTotals>
    decreases tables.len(),
{
    if tables.len() == 0 {
        Seq::empty()
    } else {
        merged(merged_all(tables.drop_last()), tables.last())
    }
}

/// The number of records that `tables` count, all together.
pub open spec fn orders_in_all(tables: Seq<Seq<CustomerTotals>>) -> nat
    decreases tables.len(),
{
    if tables.len() == 0 {
        0
    } else {
        orders_in_all(tables.drop_last()) + sum_orders(tables.last())
    }
}

/// Reducing counts every record of every table once.
pub proof fn lemma_merged_all_orders(tables: Seq<Seq<CustomerTotals>>)
    ensures
        sum_orders(merged_all(tables)) == orders_in_all(tables),
    decreases tables.len(),
{
    if tables.len() > 0 {
        lemma_merged_all_orders(tables.drop_last());
        lemma_sum_orders_merged(merged_all(tables.drop_last()), tables.last());
    }
}

/// The totals of the chunks of a sheet, reduced to one, are the totals of
/// the sheet, whatever the size of the chunks; and they count no more
/// records than the sheet has rows.
pub proof fn lemma_chunks_reduce(
    rows: Seq<Vec<Data>>,
    size: nat,
    columns: ColumnIndices,
    tables: Seq<Seq<CustomerTotals>>,
)
    requires
        size > 0,
        tables.len() == chunks(rows, size).len(),
        forall|j: int|
            0 <= j < tables.len() ==> #[trigger] tables[j] == sheet_totals(
                chunks(rows, size)[j],
                columns,
            ),
    ensures
        merged_all(tables) == sheet_totals(rows, columns),
        orders_in_all(tables) <= rows.len(),
{
    let pieces = chunks(rows, size);
    lemma_chunks_join(rows, size);
    lemma_pieces_reduce(pieces, columns, tables, tables.len() as int);
    assert(pieces.take(pieces.len() as int) == pieces);
    assert(tables.take(tables.len() as int) == tables);
    lemma_merged_all_orders(tables);
    lemma_kept_totals_orders(rows, columns);
}

/// The totals of the first pieces, reduced to one, are the totals of those
/// pieces put end to end.
proof fn lemma_pieces_reduce(
    pieces: Seq<Seq<Vec<Data>>>,
    columns: ColumnIndices,
    tables: Seq<Seq<CustomerTotals>>,
    k: int,
)
    requires
        0 <= k <= tables.len(),
        tables.len() == pieces.len(),
        forall|j: int| 0 <= j < tables.len() ==> #[trigger] tables[j] == sheet_totals(pieces[j], columns),
    ensures
        merged_all(tables.take(k)) == sheet_totals(joined(pieces.take(k)), columns),
    decreases k,
{
    if k == 0 {
        assert(tables.take(0) == Seq::<Seq<CustomerTotals>>::empty());
        assert(pieces.take(0) == Seq::<Seq<Vec<Data>>>::empty());
        assert(joined(pieces.take(0)) == Seq::<Vec<Data>>::empty());
        assert(kept_totals(Seq::<Vec<Data>>::empty(), columns) == Seq::<CustomerTotals>::empty());
    } else {
        lemma_pieces_reduce(pieces, columns, tables, k - 1);
        lemma_joined_prefix(pieces, k - 1);
        assert(tables.take(k).drop_last() == tables.take(k - 1));
        assert(tables.take(k).last() == tables[k - 1]);
        lemma_sheet_totals_concat(joined(pieces.take(k - 1)), pieces[k - 1], columns);
    }
}

/// Reduces the tables `parts` to one, from the first to the last.
///
/// All together they must not count more records than a `u64` holds.
pub fn reduce_tables(parts: &Vec<CustomerTable>) -> (t: CustomerTable)
    requires
        orders_in_all(table_views(parts@)) <= u64::MAX,
    ensures
        t@ == merged_all(table_views(parts@)),
{
    let ghost tables = table_views(parts@);
    let mut table = CustomerTable::new();
    let mut k: usize = 0;
    assert(tables.take(0) == Seq::<Seq<CustomerTotals>>::empty());
    while k < parts.len()
        invariant
            k <= parts.len(),
            tables == table_views(parts@),
            orders_in_all(tables) <= u64::MAX,
            table@ == merged_all(tables.take(k as int)),
        decreases parts.len() - k,
    {
        proof {
            assert(tables.take(k + 1).drop_last() == tables.take(k as int));
            assert(tables.take(k + 1).last() == parts@[k as int]@);
            lemma_merged_all_orders(tables.take(k as int));
            lemma_orders_in_all_prefix(tables, k + 1);
        }
        table = merge_tables(table, &parts[k]);
        k += 1;
    }
    assert(tables.take(k as int) == tables);
    table
}

/// The first tables count no more records than all.
pub proof fn lemma_orders_in_all_prefix(tables: Seq<Seq<CustomerTotals>>, k: int)
    requires
        0 <= k <= tables.len(),
    ensures
        orders_in_all(tables.take(k)) <= orders_in_all(tables),
    decreases tables.len() - k,
{
    if k < tables.len() {
        lemma_orders_in_all_prefix(tables, k + 1);
        assert(tables.take(k + 1).drop_last() == tables.take(k));
    } else {
        assert(tables.take(k) == tables);
    }
}

/// The per-customer totals of the data rows `rows`, with the work split
/// over the threads at hand. The result does not depend on their number.
pub fn aggregate_sheet(rows: &[Vec<Data>], columns: &ColumnIndices) -> (t: CustomerTable)
    ensures
        t@ == sheet_totals(rows@, *columns),
{
    let count = rows.len();
    let size = chunk_size(count, worker_count());
    let parts = chunk_tables(rows, columns, size);
    proof {
        lemma_chunks_reduce(rows@, size as nat, *columns, table_views(parts@));
    }
    reduce_tables(&parts)
}

/// Reports on the customers of a sheet: the first row is the header, the
/// others are data.
///
/// Fails if the sheet has no rows or its header lacks a required column.
/// Otherwise the report is that on the totals of the data rows; rows
/// without a customer code are left out, and still count in `total_rows`.
pub fn analyze_sheet(rows: &Vec<Vec<Data>>) -> (r: Result<AnalysisResult, AnalysisError>)
    ensures
        match r {
            Ok(report) => sheet_error(rows@) is None && report.reports(
                sheet_totals(rows@.skip(1), columns_of(rows@[0]@)),
            ) && report.total_rows == rows@.len() - 1,
            Err(e) => sheet_error(rows@) == Some(e),
        },
{
    if rows.len() == 0 {
        return Err(AnalysisError::EmptySheet);
    }
    let columns = match find_column_indices(&rows[0]) {
        Ok(columns) => columns,
        Err(e) => {
            return Err(e);
        },
    };
    let data = slice_subrange(rows.as_slice(), 1, rows.len());
    assert(data@ == rows@.skip(1));
    let table = aggregate_sheet(data, &columns);
    Ok(analyze_table(&table, rows.len() - 1))
}

/// Reports on the customers of a sheet, as `analyze_sheet` does, telling of
/// its progress and stopping at a checkpoint if the work is called off.
///
/// `cancelled` is asked once the sheet is known not to be empty, again
/// before the rows are aggregated and again after; where it answers yes,
/// the work ends with `Cancelled`. `progress_callback` is told when the rows
/// are counted, when the columns are found, when the chunks are aggregated
/// and when the customers are counted. Neither changes the report.
///
/// A sheet without rows fails with `EmptySheet` before anything is asked.
/// Where `cancelled` never answers yes, the work fails only as
/// `analyze_sheet` does, and gives the report whenever the sheet is in
/// order.
pub fn process_excel_file<C: Fn() -> bool, F: Fn(ProcessProgress)>(
    rows: &Vec<Vec<Data>>,
    cancelled: C,
    progress_callback: F,
) -> (r: Result<AnalysisResult, AnalysisError>)
    requires
        call_requires(cancelled, ()),
        forall|n: ProcessProgress| call_requires(progress_callback, (n,)),
    ensures
        match r {
            Ok(report) => sheet_error(rows@) is None && report.reports(
                sheet_totals(rows@.skip(1), columns_of(rows@[0]@)),
            ) && report.total_rows == rows@.len() - 1,
            Err(e) => e == AnalysisError::Cancelled || sheet_error(rows@) == Some(e),
        },
        rows@.len() == 0 ==> r is Err && r->Err_0 == AnalysisError::EmptySheet,
        (forall|b: bool| call_ensures(cancelled, (), b) ==> !b) ==> (r is Err ==> sheet_error(rows@)
            == Some(r->Err_0)),
        (forall|b: bool| call_ensures(cancelled, (), b) ==> b) && rows@.len() > 0 ==> r is Err
            && r->Err_0 == AnalysisError::Cancelled,
{
    if rows.len() == 0 {
        return Err(AnalysisError::EmptySheet);
    }
    match checkpoint(cancelled()) {
        Ok(_) => {},
        Err(e) => {
            return Err(e);
        },
    }
    let total_rows = rows.len() - 1;
    progress_callback(notice("2/4", "数据读取完成", 30, count_detail("共 ", total_rows, " 行数据")));
    let columns = match find_column_indices(&rows[0]) {
        Ok(columns) => columns,
        Err(e) => {
            return Err(e);
        },
    };
    progress_callback(
        notice("3/4", "正在分析客户数据...", 40, String::from_str("使用多线程并行处理...")),
    );
    match checkpoint(cancelled()) {
        Ok(_) => {},
        Err(e) => {
            return Err(e);
        },
    }
    let data = slice_subrange(rows.as_slice(), 1, rows.len());
    assert(data@ == rows@.skip(1));
    let size = chunk_size(total_rows, worker_count());
    let parts = chunk_tables(data, &columns, size);
    match checkpoint(cancelled()) {
        Ok(_) => {},
        Err(e) => {
            return Err(e);
        },
    }
    progress_callback(
        notice("3/4", "正在合并处理结果...", 70, count_detail("处理了 ", parts.len(), " 个数据块")),
    );
    proof {
        lemma_chunks_reduce(data@, size as nat, columns, table_views(parts@));
    }
    let table = reduce_tables(&parts);
    progress_callback(
        notice("4/4", "正在生成排行榜...", 85, count_detail("发现 ", table.len(), " 个不同客户")),
    );
    Ok(analyze_table(&table, total_rows))
}

} // verus!

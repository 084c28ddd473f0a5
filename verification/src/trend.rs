//! Monthly totals of the records that match a target, with the growth from
//! each month to the next.

use vstd::prelude::*;
use vstd::string::*;
use vstd::arithmetic::div_mod::lemma_fundamental_div_mod_converse;
use crate::decimal::{lemma_ten_to_grows, ten_to, LIMIT};
use crate::error::AnalysisError;
use crate::row::{opt_view, CachedRow};
use crate::sorted::{
    ascending, find_position, has_key, key_position, lemma_has_key, lemma_key_at,
    lemma_key_position, lemma_with_key, lemma_with_key_members, texts, with_key,
};
use crate::sums::{
    lemma_sum_grows, lemma_sum_insert, lemma_sum_step, lemma_sum_update, lemma_sum_within, sum,
};
use crate::text::same_text;
use crate::wide::{clamp, Wide};

verus! {

/// One hundred percent, in millionths of a percent.
pub const FULL_GROWTH: i128 = 100_000_000;

/// The dimension along which records are picked for a trend.
#[derive(Clone, Copy, Debug, PartialEq, Eq, Structural)]
pub enum Dimension {
    Customer,
    Province,
    City,
    District,
    Region,
}

/// The dimension that the word `kind` names.
pub open spec fn dimension_of(kind: Seq<char>) -> Option<Dimension> {
    if kind == "customer"@ {
        Some(Dimension::Customer)
    } else if kind == "province"@ {
        Some(Dimension::Province)
    } else if kind == "city"@ {
        Some(Dimension::City)
    } else if kind == "district"@ {
        Some(Dimension::District)
    } else if kind == "region"@ {
        Some(Dimension::Region)
    } else {
        None
    }
}

/// Whether `row` has the value `target` in the dimension `dimension`; no
/// record matches where there is no dimension.
pub open spec fn row_matches(row: CachedRow, dimension: Option<Dimension>, target: Seq<char>) -> bool {
    match dimension {
        Some(Dimension::Customer) => row.customer_code@ == target,
        Some(Dimension::Province) => opt_view(row.province) == Some(target),
        Some(Dimension::City) => opt_view(row.city) == Some(target),
        Some(Dimension::District) => opt_view(row.district) == Some(target),
        Some(Dimension::Region) => opt_view(row.region) == Some(target),
        None => false,
    }
}

/// The records of `rows` that match, in order.
pub open spec fn matching(rows: Seq<CachedRow>, dimension: Option<Dimension>, target: Seq<char>) -> Seq<
    CachedRow,
>
    decreases rows.len(),
{
    if rows.len() == 0 {
        Seq::empty()
    } else if row_matches(rows.last(), dimension, target) {
        matching(rows.drop_last(), dimension, target).push(rows.last())
    } else {
        matching(rows.drop_last(), dimension, target)
    }
}

/// The totals of one month: the model of a [`MonthlySalesData`].
pub struct MonthTotals {
    pub month: Seq<char>,
    pub pay: int,
    pub recharge: int,
    pub orders: nat,
}

impl MonthTotals {
    /// The total amount of the month.
    pub open spec fn total(self) -> int {
        self.pay + self.recharge
    }
}

/// The month under which `row` counts: its month, or the words for an
/// unknown month.
pub open spec fn month_key(row: CachedRow) -> Seq<char> {
    match row.month {
        Some(m) => m@,
        None => "未知月份"@,
    }
}

/// The months of `buckets`, in order.
pub open spec fn months_of(buckets: Seq<MonthTotals>) -> Seq<Seq<char>> {
    buckets.map_values(|b: MonthTotals| b.month)
}

/// The orders of `buckets`, in order.
pub open spec fn orders_list(buckets: Seq<MonthTotals>) -> Seq<int> {
    buckets.map_values(|b: MonthTotals| b.orders as int)
}

/// The total amounts of `buckets`, in order.
pub open spec fn totals_list(buckets: Seq<MonthTotals>) -> Seq<int> {
    buckets.map_values(|b: MonthTotals| b.total())
}

/// The buckets `buckets`, ascending by month, after one order of the month
/// `month` is counted in: added to the bucket of that month, or put in its
/// place as a new bucket.
pub open spec fn add_order(buckets: Seq<MonthTotals>, month: Seq<char>, pay: int, recharge: int) -> Seq<
    MonthTotals,
> {
    let p = key_position(months_of(buckets), month);
    if has_key(months_of(buckets), month) {
        buckets.update(
            p,
            MonthTotals {
                month,
                pay: buckets[p].pay + pay,
                recharge: buckets[p].recharge + recharge,
                orders: buckets[p].orders + 1,
            },
        )
    } else {
        buckets.insert(p, MonthTotals { month, pay, recharge, orders: 1 })
    }
}

/// The monthly totals of `rows`, ascending by month.
pub open spec fn buckets_of(rows: Seq<CachedRow>) -> Seq<MonthTotals>
    decreases rows.len(),
{
    if rows.len() == 0 {
        Seq::empty()
    } else {
        add_order(
            buckets_of(rows.drop_last()),
            month_key(rows.last()),
            rows.last().pay_amount@,
            rows.last().recharge_deduction@,
        )
    }
}

/// `n` divided by `d`, rounded toward zero.
pub open spec fn toward_zero(n: int, d: int) -> int {
    if n >= 0 {
        n / d
    } else {
        -((-n) / d)
    }
}

/// The growth from a month with the total `prev` to one with the total
/// `curr`, in millionths of a percent.
///
/// From a total above zero it is the change as a share of that total,
/// rounded toward zero; it is held to the range of `i128` only where the
/// share itself leaves it. From a total of zero to one above zero it is a
/// hundred percent. In every other case it is zero.
pub open spec fn growth(prev: int, curr: int) -> int {
    if prev > 0 {
        clamp(toward_zero((curr - prev) * 100_000_000, prev))
    } else if prev == 0 && curr > 0 {
        100_000_000
    } else {
        0
    }
}

/// The growth of the bucket at place `i` over the one before; zero for the
/// first bucket. Totals beyond the range of `i128` count as its bounds.
pub open spec fn growth_at(buckets: Seq<MonthTotals>, i: int) -> int {
    if i <= 0 {
        0
    } else {
        growth(clamp(buckets[i - 1].total()), clamp(buckets[i].total()))
    }
}

/// The first customer name in `rows` that is not empty; empty if there is
/// none.
pub open spec fn first_name(rows: Seq<CachedRow>) -> Seq<char>
    decreases rows.len(),
{
    if rows.len() == 0 {
        Seq::empty()
    } else if first_name(rows.drop_last()).len() > 0 {
        first_name(rows.drop_last())
    } else {
        rows.last().customer_name@
    }
}

/// The name under which a target is shown: for a customer the first name of
/// the matching records that is not empty; otherwise, and if there is no
/// such name, the target itself.
pub open spec fn display_name(rows: Seq<CachedRow>, dimension: Option<Dimension>, target: Seq<char>) -> Seq<
    char,
> {
    let name = first_name(matching(rows, dimension, target));
    if dimension == Some(Dimension::Customer) && name.len() > 0 {
        name
    } else {
        target
    }
}

/// The sum of the totals of `rows`.
pub open spec fn rows_total(rows: Seq<CachedRow>) -> int
    decreases rows.len(),
{
    if rows.len() == 0 {
        0
    } else {
        rows_total(rows.drop_last()) + rows.last().total()
    }
}

/// The totals of one month. Amounts are in millionths.
#[derive(Debug)]
pub struct MonthlySalesData {
    /// The month, `YYYY-MM`, or the words for an unknown month.
    pub month: String,
    /// `pay_amount` plus `recharge_deduction`.
    pub total_amount: Wide,
    pub pay_amount: Wide,
    pub recharge_deduction: Wide,
    pub order_count: u64,
    /// The growth over the month before, in millionths of a percent.
    pub mom_growth_rate: i128,
}

impl View for MonthlySalesData {
    type V = MonthTotals;

    open spec fn view(&self) -> MonthTotals {
        MonthTotals {
            month: self.month@,
            pay: self.pay_amount@,
            recharge: self.recharge_deduction@,
            orders: self.order_count as nat,
        }
    }
}

impl MonthlySalesData {
    /// Whether the total is the sum of the two amounts, and the amounts are
    /// what `order_count` records can sum to.
    pub open spec fn sound(self) -> bool {
        &&& self.total_amount@ == self.pay_amount@ + self.recharge_deduction@
        &&& self.order_count >= 1
        &&& -(self.order_count * LIMIT) <= self.pay_amount@ <= self.order_count * LIMIT
        &&& -(self.order_count * LIMIT) <= self.recharge_deduction@ <= self.order_count * LIMIT
    }
}

/// The models of `data`, in order.
pub open spec fn bucket_views(data: Seq<MonthlySalesData>) -> Seq<MonthTotals> {
    data.map_values(|d: MonthlySalesData| d@)
}

/// The trend of one target.
#[derive(Debug)]
pub struct MonthlyAnalysisResult {
    pub analysis_type: String,
    pub target: String,
    /// The name under which the target is shown.
    pub target_name: String,
    /// The months with matching records, ascending.
    pub monthly_data: Vec<MonthlySalesData>,
    /// The sum of the totals of all months, in millionths.
    pub total_amount: Wide,
    /// The number of matching records.
    pub total_orders: u64,
    /// The time the work took, as the caller measured it; zero until then.
    pub process_time_ms: u128,
}

impl MonthlyAnalysisResult {
    /// Whether this is the trend of `target` in the records `rows`, picked
    /// along the dimension that `kind` names.
    pub open spec fn reports(self, rows: Seq<CachedRow>, kind: Seq<char>, target: Seq<char>) -> bool {
        let dimension = dimension_of(kind);
        let buckets = buckets_of(matching(rows, dimension, target));
        &&& self.analysis_type@ == kind
        &&& self.target@ == target
        &&& self.target_name@ == display_name(rows, dimension, target)
        &&& bucket_views(self.monthly_data@) == buckets
        &&& forall|i: int|
            0 <= i < self.monthly_data@.len() ==> (#[trigger] self.monthly_data@[i]).total_amount@
                == buckets[i].total() && self.monthly_data@[i].mom_growth_rate == growth_at(
                buckets,
                i,
            )
        &&& self.total_amount@ == sum(totals_list(buckets))
        &&& self.total_orders == sum(orders_list(buckets))
        &&& self.process_time_ms == 0
    }
}

/// Counting an order in keeps the months ascending, and adds one order and
/// its amounts to the sums.
pub proof fn lemma_add_order(buckets: Seq<MonthTotals>, month: Seq<char>, pay: int, recharge: int)
    requires
        ascending(months_of(buckets)),
    ensures
        months_of(add_order(buckets, month, pay, recharge)) == with_key(months_of(buckets), month),
        ascending(months_of(add_order(buckets, month, pay, recharge))),
        sum(orders_list(add_order(buckets, month, pay, recharge))) == sum(orders_list(buckets)) + 1,
        sum(totals_list(add_order(buckets, month, pay, recharge))) == sum(totals_list(buckets)) + pay
            + recharge,
{
    let keys = months_of(buckets);
    let p = key_position(keys, month);
    let after = add_order(buckets, month, pay, recharge);
    lemma_key_position(keys, month);
    lemma_with_key(keys, month);
    if has_key(keys, month) {
        assert(months_of(after) =~= keys);
        assert(orders_list(after) =~= orders_list(buckets).update(p, (buckets[p].orders + 1) as int));
        assert(totals_list(after) =~= totals_list(buckets).update(
            p,
            buckets[p].total() + pay + recharge,
        ));
        lemma_sum_update(orders_list(buckets), p, (buckets[p].orders + 1) as int);
        lemma_sum_update(totals_list(buckets), p, buckets[p].total() + pay + recharge);
    } else {
        assert(months_of(after) =~= keys.insert(p, month));
        assert(orders_list(after) =~= orders_list(buckets).insert(p, 1));
        assert(totals_list(after) =~= totals_list(buckets).insert(p, pay + recharge));
        lemma_sum_insert(orders_list(buckets), p, 1);
        lemma_sum_insert(totals_list(buckets), p, pay + recharge);
    }
}

/// The buckets of a trend stand in strictly ascending order of their
/// months; together they count every record once, and their totals sum to
/// the totals of the records.
pub proof fn lemma_buckets_of(rows: Seq<CachedRow>)
    ensures
        ascending(months_of(buckets_of(rows))),
        sum(orders_list(buckets_of(rows))) == rows.len(),
        sum(totals_list(buckets_of(rows))) == rows_total(rows),
    decreases rows.len(),
{
    if rows.len() == 0 {
        assert(months_of(buckets_of(rows)) =~= Seq::<Seq<char>>::empty());
        assert(orders_list(buckets_of(rows)) =~= Seq::<int>::empty());
        assert(totals_list(buckets_of(rows)) =~= Seq::<int>::empty());
    } else {
        lemma_buckets_of(rows.drop_last());
        lemma_add_order(
            buckets_of(rows.drop_last()),
            month_key(rows.last()),
            rows.last().pay_amount@,
            rows.last().recharge_deduction@,
        );
    }
}

/// The number of records of `rows` that count under the month `month`.
pub open spec fn month_count(rows: Seq<CachedRow>, month: Seq<char>) -> nat
    decreases rows.len(),
{
    if rows.len() == 0 {
        0
    } else {
        month_count(rows.drop_last(), month) + if month_key(rows.last()) == month {
            1nat
        } else {
            0nat
        }
    }
}

/// The sum of the amounts paid in the records of `rows` that count under the
/// month `month`.
pub open spec fn month_pay(rows: Seq<CachedRow>, month: Seq<char>) -> int
    decreases rows.len(),
{
    if rows.len() == 0 {
        0
    } else {
        month_pay(rows.drop_last(), month) + if month_key(rows.last()) == month {
            rows.last().pay_amount@
        } else {
            0
        }
    }
}

/// The sum of the recharge deductions in the records of `rows` that count
/// under the month `month`.
pub open spec fn month_recharge(rows: Seq<CachedRow>, month: Seq<char>) -> int
    decreases rows.len(),
{
    if rows.len() == 0 {
        0
    } else {
        month_recharge(rows.drop_last(), month) + if month_key(rows.last()) == month {
            rows.last().recharge_deduction@
        } else {
            0
        }
    }
}

/// Whether the buckets of `rows` hold the month `month` as they should: if
/// it has a bucket, the bucket counts the records of that month and sums
/// their amounts; if it has none, no record counts under it.
pub open spec fn counts_month(rows: Seq<CachedRow>, month: Seq<char>) -> bool {
    let buckets = buckets_of(rows);
    if has_key(months_of(buckets), month) {
        let bucket = buckets[key_position(months_of(buckets), month)];
        &&& bucket.month == month
        &&& bucket.orders == month_count(rows, month)
        &&& bucket.orders > 0
        &&& bucket.pay == month_pay(rows, month)
        &&& bucket.recharge == month_recharge(rows, month)
        &&& bucket.total() == month_pay(rows, month) + month_recharge(rows, month)
    } else {
        month_count(rows, month) == 0
    }
}

/// A month under which no record counts sums to nothing.
pub proof fn lemma_absent_month(rows: Seq<CachedRow>, month: Seq<char>)
    requires
        month_count(rows, month) == 0,
    ensures
        month_pay(rows, month) == 0,
        month_recharge(rows, month) == 0,
    decreases rows.len(),
{
    if rows.len() > 0 {
        lemma_absent_month(rows.drop_last(), month);
    }
}

/// Every bucket counts exactly the records of its month: their number and
/// the sums of their amounts; a month has a bucket exactly when a record
/// counts under it.
pub proof fn lemma_bucket_counts(rows: Seq<CachedRow>, month: Seq<char>)
    ensures
        ascending(months_of(buckets_of(rows))),
        counts_month(rows, month),
    decreases rows.len(),
{
    lemma_buckets_of(rows);
    if rows.len() == 0 {
        assert(months_of(buckets_of(rows)) =~= Seq::<Seq<char>>::empty());
    } else {
        let front = rows.drop_last();
        let prev = buckets_of(front);
        let keys = months_of(prev);
        let k = month_key(rows.last());
        let pay = rows.last().pay_amount@;
        let recharge = rows.last().recharge_deduction@;
        let after = buckets_of(rows);
        let keys2 = months_of(after);
        lemma_bucket_counts(front, month);
        lemma_buckets_of(front);
        lemma_add_order(prev, k, pay, recharge);
        lemma_key_position(keys, k);
        lemma_with_key(keys, k);
        let p = key_position(keys, k);
        assert(after == add_order(prev, k, pay, recharge));
        assert(keys2 == with_key(keys, k));
        if month == k {
            assert(key_position(keys2, month) == p);
            if has_key(keys, k) {
                assert(0 <= p < prev.len());
                assert(after[p].orders == prev[p].orders + 1);
            } else {
                lemma_absent_month(front, month);
                assert(after[p] == MonthTotals { month: k, pay, recharge, orders: 1 });
            }
            assert(counts_month(rows, month));
        } else if has_key(keys, month) {
            let q = key_position(keys, month);
            lemma_key_position(keys, month);
            assert(0 <= q < prev.len() && 0 <= p <= prev.len());
            assert(keys[q] == month);
            assert(prev[q].month == month);
            if has_key(keys, k) {
                assert(keys[p] == k);
                assert(after[q] == prev[q]);
                assert(keys2 =~= keys);
            } else {
                let q2 = if q < p {
                    q
                } else {
                    q + 1
                };
                assert(after[q2] == prev[q]);
                assert(keys2[q2] == month);
                lemma_key_at(keys2, q2);
            }
            assert(counts_month(rows, month));
        } else {
            lemma_has_key(keys, month);
            lemma_has_key(keys2, month);
            lemma_with_key_members(keys, k, month);
            if has_key(keys2, month) {
                let i = choose|i: int| 0 <= i < keys2.len() && #[trigger] keys2[i] == month;
                assert(keys2.contains(month));
                assert(keys.contains(month));
                let j = choose|j: int| 0 <= j < keys.len() && keys[j] == month;
                assert(keys[j] == month);
            }
            assert(counts_month(rows, month));
        }
    }
}

/// What holds of every trend: its months stand in strictly ascending order;
/// the first month has no growth; the months together count every matching
/// record once, and their totals sum to the totals of those records; and
/// each month counts the matching records of that month and sums their
/// amounts.
pub proof fn lemma_trend(trend: MonthlyAnalysisResult, rows: Seq<CachedRow>, kind: Seq<char>, target: Seq<char>)
    requires
        trend.reports(rows, kind, target),
    ensures
        ascending(months_of(bucket_views(trend.monthly_data@))),
        trend.monthly_data@.len() > 0 ==> trend.monthly_data@[0].mom_growth_rate == 0,
        trend.total_orders == matching(rows, dimension_of(kind), target).len(),
        trend.total_amount@ == rows_total(matching(rows, dimension_of(kind), target)),
        forall|month: Seq<char>| #[trigger]
            counts_month(matching(rows, dimension_of(kind), target), month),
{
    let picked = matching(rows, dimension_of(kind), target);
    lemma_buckets_of(picked);
    assert forall|month: Seq<char>| #[trigger] counts_month(picked, month) by {
        lemma_bucket_counts(picked, month);
    }
}

/// Whether `months` are the months of `data`, ascending, every bucket is
/// sound, and the orders together fit a `u64`.
pub open spec fn buckets_wf(months: Seq<String>, data: Seq<MonthlySalesData>) -> bool {
    &&& texts(months) == months_of(bucket_views(data))
    &&& ascending(texts(months))
    &&& forall|j: int| 0 <= j < data.len() ==> (#[trigger] data[j]).sound()
    &&& sum(orders_list(bucket_views(data))) <= u64::MAX
}

/// One bucket counts no more orders than all buckets together.
proof fn lemma_orders_bound(buckets: Seq<MonthTotals>, p: int)
    requires
        0 <= p < buckets.len(),
    ensures
        buckets[p].orders <= sum(orders_list(buckets)),
{
    let o = orders_list(buckets);
    lemma_sum_grows(o, p);
    lemma_sum_grows(o, p + 1);
    lemma_sum_step(o, p);
}

/// Counts one order of the month `month` into the buckets.
fn count_order(
    months: &mut Vec<String>,
    data: &mut Vec<MonthlySalesData>,
    month: &str,
    pay: i128,
    recharge: i128,
)
    requires
        buckets_wf(old(months)@, old(data)@),
        sum(orders_list(bucket_views(old(data)@))) < u64::MAX,
        -LIMIT <= pay <= LIMIT,
        -LIMIT <= recharge <= LIMIT,
        forall|j: int| 0 <= j < old(data)@.len() ==> (#[trigger] old(data)@[j]).mom_growth_rate == 0,
    ensures
        buckets_wf(final(months)@, final(data)@),
        bucket_views(final(data)@) == add_order(
            bucket_views(old(data)@),
            month@,
            pay as int,
            recharge as int,
        ),
        forall|j: int|
            0 <= j < final(data)@.len() ==> (#[trigger] final(data)@[j]).mom_growth_rate == 0,
{
    let ghost before = bucket_views(data@);
    let ghost keys = texts(months@);
    let ghost start = data@;
    proof {
        lemma_add_order(before, month@, pay as int, recharge as int);
        lemma_key_position(keys, month@);
    }
    assert(months@.len() == data@.len()) by {
        assert(texts(months@).len() == months_of(bucket_views(data@)).len());
    }
    let p = find_position(months, month);
    let present = p < months.len() && same_text(months[p].as_str(), month);
    assert(present == has_key(keys, month@));
    if present {
        proof {
            lemma_orders_bound(before, p as int);
            assert(start[p as int].sound());
            assert(start[p as int].month@ == keys[p as int]);
        }
        let paid = data[p].pay_amount.plus(&Wide::from_i128(pay));
        let deducted = data[p].recharge_deduction.plus(&Wide::from_i128(recharge));
        data[p].pay_amount = paid;
        data[p].recharge_deduction = deducted;
        data[p].total_amount = paid.plus(&deducted);
        data[p].order_count = data[p].order_count + 1;
        proof {
            assert(data@[p as int].month == start[p as int].month);
            assert(bucket_views(data@) =~= add_order(before, month@, pay as int, recharge as int));
            assert forall|j: int| 0 <= j < data@.len() implies (#[trigger] data@[j]).sound()
                && data@[j].mom_growth_rate == 0 by {
                if j != p {
                    assert(data@[j] == start[j]);
                }
            }
        }
    } else {
        months.insert(p, String::from_str(month));
        data.insert(
            p,
            MonthlySalesData {
                month: String::from_str(month),
                total_amount: Wide::from_i128(pay + recharge),
                pay_amount: Wide::from_i128(pay),
                recharge_deduction: Wide::from_i128(recharge),
                order_count: 1,
                mom_growth_rate: 0,
            },
        );
        proof {
            assert(bucket_views(data@) =~= add_order(before, month@, pay as int, recharge as int));
            assert(texts(months@) =~= keys.insert(p as int, month@));
            assert forall|j: int| 0 <= j < data@.len() implies (#[trigger] data@[j]).sound()
                && data@[j].mom_growth_rate == 0 by {
                if j < p {
                    assert(data@[j] == start[j]);
                } else if j > p {
                    assert(data@[j] == start[j - 1]);
                }
            }
        }
    }
}

/// Ten times `rest` divided by `by`: the quotient, which is one digit, and
/// what is left.
fn tenfold(rest: u128, by: u128) -> (r: (u128, u128))
    requires
        rest < by <= i128::MAX,
    ensures
        r.0 * by + r.1 == 10 * rest,
        r.0 < 10,
        r.1 < by,
{
    let mut digit: u128 = 0;
    let mut left: u128 = 0;
    let mut k: u128 = 0;
    while k < 10
        invariant
            k <= 10,
            rest < by <= i128::MAX,
            left < by,
            digit <= k,
            digit * by + left == k * rest,
        decreases 10 - k,
    {
        let ghost before = digit * by + left;
        left = left + rest;
        if left >= by {
            assert((digit + 1) * by == digit * by + by) by (nonlinear_arith);
            left = left - by;
            digit = digit + 1;
        }
        assert((k + 1) * rest == k * rest + rest) by (nonlinear_arith);
        assert(digit * by + left == before + rest);
        k = k + 1;
    }
    assert(digit < 10) by (nonlinear_arith)
        requires
            digit * by + left == 10 * rest,
            rest < by,
            0 <= left,
    ;
    (digit, left)
}

/// A hundred million times `change` divided by `by`, rounded down, unless
/// that is more than a `u128` holds.
fn share(change: u128, by: u128) -> (r: Option<u128>)
    requires
        0 < by <= i128::MAX,
    ensures
        match r {
            Some(q) => q == (change * 100_000_000) / (by as int),
            None => (change * 100_000_000) / (by as int) > u128::MAX,
        },
{
    let whole: u128 = change / by;
    let first: u128 = change % by;
    let mut part: u128 = 0;
    let mut left: u128 = first;
    let mut power: u128 = 1;
    let mut k: u8 = 0;
    while k < 8
        invariant
            k <= 8,
            0 < by <= i128::MAX,
            left < by,
            part < power,
            power == ten_to(k as nat),
            power <= 100_000_000,
            part * by + left == first * power,
        decreases 8 - k,
    {
        let (digit, rest) = tenfold(left, by);
        proof {
            reveal_with_fuel(ten_to, 10);
            assert((part * 10 + digit) * by + rest == (first * power) * 10) by (nonlinear_arith)
                requires
                    digit * by + rest == 10 * left,
                    part * by + left == first * power,
            ;
            assert((first * power) * 10 == first * (power * 10)) by (nonlinear_arith);
            assert(ten_to((k + 1) as nat) == 10 * ten_to(k as nat));
            assert(power * 10 <= 100_000_000) by {
                lemma_ten_to_grows((k + 1) as nat, 8);
            }
        }
        part = part * 10 + digit;
        left = rest;
        power = power * 10;
        k = k + 1;
    }
    proof {
        reveal_with_fuel(ten_to, 10);
        assert(power == 100_000_000);
        let total = whole * 100_000_000 + part;
        assert(change == whole * by + first) by (nonlinear_arith)
            requires
                whole == change / by,
                first == change % by,
                by > 0,
        ;
        assert(change * 100_000_000 == total * by + left) by (nonlinear_arith)
            requires
                change == whole * by + first,
                part * by + left == first * 100_000_000,
                total == whole * 100_000_000 + part,
        ;
        lemma_fundamental_div_mod_converse(change * 100_000_000, by as int, total, left as int);
    }
    match whole.checked_mul(100_000_000) {
        Some(scaled) => scaled.checked_add(part),
        None => None,
    }
}

/// The growth from a month with the total `prev` to one with the total
/// `curr`, in millionths of a percent.
pub fn growth_rate(prev: i128, curr: i128) -> (g: i128)
    ensures
        g == growth(prev as int, curr as int),
{
    if prev > 0 {
        let by: u128 = prev as u128;
        if curr >= prev {
            let change: u128 = (curr - prev) as u128;
            match share(change, by) {
                Some(q) => if q <= i128::MAX as u128 {
                    q as i128
                } else {
                    i128::MAX
                },
                None => i128::MAX,
            }
        } else {
            let change: u128 = if curr >= 0 {
                (prev - curr) as u128
            } else {
                by + ((-(curr + 1)) as u128 + 1)
            };
            assert(change == prev - curr);
            assert((curr - prev) * 100_000_000 < 0 && -((curr - prev) * 100_000_000) == change
                * 100_000_000) by (nonlinear_arith)
                requires
                    change == prev - curr,
                    change > 0,
            ;
            match share(change, by) {
                Some(q) => if q <= i128::MAX as u128 {
                    -(q as i128)
                } else {
                    i128::MIN
                },
                None => i128::MIN,
            }
        }
    } else if prev == 0 && curr > 0 {
        FULL_GROWTH
    } else {
        0
    }
}

/// Reads the word of a dimension.
pub fn parse_dimension(kind: &str) -> (r: Option<Dimension>)
    ensures
        r == dimension_of(kind@),
{
    if same_text(kind, "customer") {
        Some(Dimension::Customer)
    } else if same_text(kind, "province") {
        Some(Dimension::Province)
    } else if same_text(kind, "city") {
        Some(Dimension::City)
    } else if same_text(kind, "district") {
        Some(Dimension::District)
    } else if same_text(kind, "region") {
        Some(Dimension::Region)
    } else {
        None
    }
}

/// Tells whether the optional text `field` is `target`.
fn holds(field: &Option<String>, target: &String) -> (b: bool)
    ensures
        b == (opt_view(*field) == Some(target@)),
{
    match field {
        Some(value) => *value == *target,
        None => false,
    }
}

/// Tells whether `row` has the value `target` in the dimension `dimension`.
pub fn matches_target(row: &CachedRow, dimension: Option<Dimension>, target: &String) -> (b: bool)
    ensures
        b == row_matches(*row, dimension, target@),
{
    match dimension {
        Some(Dimension::Customer) => row.customer_code == *target,
        Some(Dimension::Province) => holds(&row.province, target),
        Some(Dimension::City) => holds(&row.city, target),
        Some(Dimension::District) => holds(&row.district, target),
        Some(Dimension::Region) => holds(&row.region, target),
        None => false,
    }
}

/// The records of `rows` that match `target` along the dimension that
/// `analysis_type` names, in order.
pub fn get_order_details(rows: &Vec<CachedRow>, analysis_type: &str, target: &str) -> (details: Vec<
    CachedRow,
>)
    ensures
        details@ == matching(rows@, dimension_of(analysis_type@), target@),
{
    let dimension = parse_dimension(analysis_type);
    let wanted = String::from_str(target);
    let mut details: Vec<CachedRow> = Vec::new();
    let mut i: usize = 0;
    assert(rows@.take(0) == Seq::<CachedRow>::empty());
    while i < rows.len()
        invariant
            i <= rows.len(),
            wanted@ == target@,
            dimension == dimension_of(analysis_type@),
            details@ == matching(rows@.take(i as int), dimension, target@),
        decreases rows.len() - i,
    {
        assert(rows@.take(i + 1).drop_last() == rows@.take(i as int));
        assert(rows@.take(i + 1).last() == rows@[i as int]);
        if matches_target(&rows[i], dimension, &wanted) {
            details.push(rows[i].duplicate());
        }
        i += 1;
    }
    assert(rows@.take(i as int) == rows@);
    details
}

/// Makes the trend of `target` from the records `cached_rows`.
///
/// The records are picked along the dimension that `analysis_type` names:
/// `customer` goes by the customer code, `province`, `city`, `district` and
/// `region` by the field of that name; any other word picks nothing. The
/// picked records are summed by month, the months are put in ascending
/// order, and each month gets its growth over the one before. Fails only if
/// `target` is empty.
pub fn analyze_from_cache(cached_rows: &Vec<CachedRow>, analysis_type: &str, target: &str) -> (r:
    Result<MonthlyAnalysisResult, AnalysisError>)
    ensures
        match r {
            Ok(trend) => target@.len() > 0 && trend.reports(cached_rows@, analysis_type@, target@),
            Err(e) => target@.len() == 0 && e == AnalysisError::NoTarget,
        },
{
    if target.is_empty() {
        return Err(AnalysisError::NoTarget);
    }
    let dimension = parse_dimension(analysis_type);
    let wanted = String::from_str(target);
    let mut months: Vec<String> = Vec::new();
    let mut data: Vec<MonthlySalesData> = Vec::new();
    let mut target_name = String::new();
    let mut i: usize = 0;
    let ghost rows = cached_rows@;
    proof {
        assert(rows.take(0) == Seq::<CachedRow>::empty());
        assert(bucket_views(data@) =~= Seq::<MonthTotals>::empty());
        assert(texts(months@) =~= months_of(bucket_views(data@)));
        assert(orders_list(bucket_views(data@)) =~= Seq::<int>::empty());
    }
    while i < cached_rows.len()
        invariant
            i <= cached_rows.len(),
            rows == cached_rows@,
            wanted@ == target@,
            dimension == dimension_of(analysis_type@),
            buckets_wf(months@, data@),
            bucket_views(data@) == buckets_of(matching(rows.take(i as int), dimension, target@)),
            forall|j: int| 0 <= j < data@.len() ==> (#[trigger] data@[j]).mom_growth_rate == 0,
            target_name@ == first_name(matching(rows.take(i as int), dimension, target@)),
        decreases cached_rows.len() - i,
    {
        let row = &cached_rows[i];
        proof {
            assert(rows.take(i + 1).drop_last() == rows.take(i as int));
            assert(rows.take(i + 1).last() == rows[i as int]);
            lemma_buckets_of(matching(rows.take(i as int), dimension, target@));
            lemma_matching_len(rows.take(i as int), dimension, target@);
        }
        if matches_target(row, dimension, &wanted) {
            proof {
                let seen = matching(rows.take(i as int), dimension, target@);
                assert(seen.push(*row).drop_last() == seen);
                assert(seen.push(*row).last() == *row);
            }
            if target_name.as_str().is_empty() {
                target_name = row.customer_name.clone();
            }
            let pay = row.pay_amount.micros();
            let recharge = row.recharge_deduction.micros();
            match &row.month {
                Some(m) => {
                    count_order(&mut months, &mut data, m.as_str(), pay, recharge);
                },
                None => {
                    count_order(&mut months, &mut data, "未知月份", pay, recharge);
                },
            }
        }
        i += 1;
    }
    assert(rows.take(i as int) == rows);
    let ghost buckets = bucket_views(data@);
    let mut k: usize = 1;
    while k < data.len()
        invariant
            1 <= k,
            bucket_views(data@) == buckets,
            forall|j: int| 0 <= j < data@.len() ==> (#[trigger] data@[j]).sound(),
            forall|j: int|
                0 <= j < data@.len() && j < k ==> (#[trigger] data@[j]).mom_growth_rate
                    == growth_at(buckets, j),
            forall|j: int|
                0 <= j < data@.len() && j >= k ==> (#[trigger] data@[j]).mom_growth_rate == 0,
        decreases data.len() - k,
    {
        let ghost start = data@;
        proof {
            assert(start[k - 1].sound() && start[k as int].sound());
        }
        let rate = growth_rate(data[k - 1].total_amount.clamped(), data[k].total_amount.clamped());
        data[k].mom_growth_rate = rate;
        proof {
            assert(bucket_views(data@) =~= buckets);
            assert forall|j: int| 0 <= j < data@.len() implies (#[trigger] data@[j]).sound() by {
                if j != k {
                    assert(data@[j] == start[j]);
                } else {
                    assert(start[j].sound());
                }
            }
            assert forall|j: int| 0 <= j < data@.len() && j < k + 1 implies (
            #[trigger] data@[j]).mom_growth_rate == growth_at(buckets, j) by {
                if j != k {
                    assert(data@[j] == start[j]);
                }
            }
            assert forall|j: int| 0 <= j < data@.len() && j >= k + 1 implies (
            #[trigger] data@[j]).mom_growth_rate == 0 by {
                assert(data@[j] == start[j]);
            }
        }
        k += 1;
    }
    let mut total_amount = Wide::zero();
    let mut total_orders: u64 = 0;
    let mut n: usize = 0;
    proof {
        assert(totals_list(buckets).take(0) == Seq::<int>::empty());
        assert(orders_list(buckets).take(0) == Seq::<int>::empty());
    }
    while n < data.len()
        invariant
            n <= data.len(),
            bucket_views(data@) == buckets,
            forall|j: int| 0 <= j < data@.len() ==> (#[trigger] data@[j]).sound(),
            sum(orders_list(buckets)) <= u64::MAX,
            total_amount@ == sum(totals_list(buckets).take(n as int)),
            total_orders == sum(orders_list(buckets).take(n as int)),
        decreases data.len() - n,
    {
        proof {
            let t = totals_list(buckets);
            let o = orders_list(buckets);
            lemma_sum_step(t, n as int);
            lemma_sum_step(o, n as int);
            lemma_sum_grows(o, n + 1);
            assert(data@[n as int].sound());
            assert forall|j: int| 0 <= j < n + 1 implies -(2_000_000_000_000_000_000_000_000_000_000_000_000
                * #[trigger] o.take(n + 1)[j]) <= t.take(n + 1)[j] <= 2_000_000_000_000_000_000_000_000_000_000_000_000
                * o.take(n + 1)[j] by {
                assert(data@[j].sound());
            }
            lemma_sum_within(t.take(n + 1), o.take(n + 1));
        }
        total_amount = total_amount.plus(&data[n].total_amount);
        total_orders = total_orders + data[n].order_count;
        n += 1;
    }
    proof {
        assert(totals_list(buckets).take(n as int) == totals_list(buckets));
        assert(orders_list(buckets).take(n as int) == orders_list(buckets));
    }
    if target_name.as_str().is_empty() || dimension != Some(Dimension::Customer) {
        target_name = String::from_str(target);
    }
    Ok(
        MonthlyAnalysisResult {
            analysis_type: String::from_str(analysis_type),
            target: String::from_str(target),
            target_name,
            monthly_data: data,
            total_amount,
            total_orders,
            process_time_ms: 0,
        },
    )
}

/// No more records match than there are.
pub proof fn lemma_matching_len(rows: Seq<CachedRow>, dimension: Option<Dimension>, target: Seq<char>)
    ensures
        matching(rows, dimension, target).len() <= rows.len(),
    decreases rows.len(),
{
    if rows.len() > 0 {
        lemma_matching_len(rows.drop_last(), dimension, target);
    }
}

} // verus!

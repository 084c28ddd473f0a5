//! Ranking customers by total amount, and the report on the best twenty.

use vstd::prelude::*;
use crate::aggregate::{
    absorb, aggregate, aggregate_onto, combine, lemma_position, position, CustomerTotals,
};
use crate::row::CachedRow;
use crate::wide::Wide;
use crate::customers::{
    lemma_sum_orders_tail, sum_orders, views, within_limits, CustomerData, CustomerTable,
};

verus! {

/// How many customers a report lists.
pub const TOP_COUNT: usize = 20;

/// Where `e` goes in the ranking `ranked`: behind every entry whose total is
/// at least that of `e`, so that equal totals stay in the order in which
/// they came.
pub open spec fn rank_position(ranked: Seq<CustomerTotals>, e: CustomerTotals) -> int
    decreases ranked.len(),
{
    if ranked.len() == 0 {
        0
    } else if ranked.last().total() >= e.total() {
        ranked.len() as int
    } else {
        rank_position(ranked.drop_last(), e)
    }
}

/// The ranking `ranked` with `e` put in its place.
pub open spec fn insert_ranked(ranked: Seq<CustomerTotals>, e: CustomerTotals) -> Seq<
    CustomerTotals,
> {
    ranked.insert(rank_position(ranked, e), e)
}

/// The entries of `entries` from the largest total to the smallest; entries
/// of equal totals keep their order.
pub open spec fn ranked(entries: Seq<CustomerTotals>) -> Seq<CustomerTotals>
    decreases entries.len(),
{
    if entries.len() == 0 {
        Seq::empty()
    } else {
        insert_ranked(ranked(entries.drop_last()), entries.last())
    }
}

/// The first `k` of `s`, or all of `s` if it has fewer.
pub open spec fn first<A>(s: Seq<A>, k: nat) -> Seq<A> {
    if k <= s.len() {
        s.take(k as int)
    } else {
        s
    }
}

/// What follows the first `k` of `s`.
pub open spec fn beyond<A>(s: Seq<A>, k: nat) -> Seq<A> {
    if k <= s.len() {
        s.skip(k as int)
    } else {
        Seq::empty()
    }
}

/// The `k` entries of `entries` with the largest totals, largest first.
pub open spec fn top_ranked(entries: Seq<CustomerTotals>, k: nat) -> Seq<CustomerTotals> {
    first(ranked(entries), k)
}

/// The entries of `entries` that are not among the `k` with the largest
/// totals.
pub open spec fn outside_top(entries: Seq<CustomerTotals>, k: nat) -> Seq<CustomerTotals> {
    beyond(ranked(entries), k)
}

/// Whether the totals of `s` never increase.
pub open spec fn non_increasing(s: Seq<CustomerTotals>) -> bool {
    forall|i: int, j: int| 0 <= i < j < s.len() ==> #[trigger] s[i].total() >= #[trigger] s[j].total()
}

/// The sum of the totals of `entries`.
pub open spec fn sum_total(entries: Seq<CustomerTotals>) -> int
    decreases entries.len(),
{
    if entries.len() == 0 {
        0
    } else {
        sum_total(entries.drop_last()) + entries.last().total()
    }
}

/// The amounts of all records of `rows` together: what was paid plus what
/// was deducted.
pub open spec fn rows_total(rows: Seq<CachedRow>) -> int
    decreases rows.len(),
{
    if rows.len() == 0 {
        0
    } else {
        rows_total(rows.drop_last()) + rows.last().pay_amount@ + rows.last().recharge_deduction@
    }
}

/// Changing one entry changes the sum of the totals by as much.
pub proof fn lemma_sum_total_update(entries: Seq<CustomerTotals>, i: int, e: CustomerTotals)
    requires
        0 <= i < entries.len(),
    ensures
        sum_total(entries.update(i, e)) == sum_total(entries) - entries[i].total() + e.total(),
    decreases entries.len(),
{
    let after = entries.update(i, e);
    if i < entries.len() - 1 {
        lemma_sum_total_update(entries.drop_last(), i, e);
        assert(after.drop_last() == entries.drop_last().update(i, e));
    } else {
        assert(after.drop_last() == entries.drop_last());
    }
}

/// Counting an entry in adds its total to the sum of the totals.
pub proof fn lemma_sum_total_absorb(entries: Seq<CustomerTotals>, e: CustomerTotals)
    ensures
        sum_total(absorb(entries, e)) == sum_total(entries) + e.total(),
{
    lemma_position(entries, e.code);
    match position(entries, e.code) {
        Some(i) => {
            lemma_sum_total_update(entries, i, combine(entries[i], e));
        },
        None => {
            assert(entries.push(e).drop_last() == entries);
        },
    }
}

/// Records counted into entries add their amounts to the sum of the totals.
pub proof fn lemma_sum_total_aggregate(entries: Seq<CustomerTotals>, rows: Seq<CachedRow>)
    ensures
        sum_total(aggregate_onto(entries, rows)) == sum_total(entries) + rows_total(rows),
    decreases rows.len(),
{
    if rows.len() > 0 {
        lemma_sum_total_aggregate(entries, rows.drop_last());
        lemma_sum_total_absorb(
            aggregate_onto(entries, rows.drop_last()),
            crate::aggregate::totals_of_row(rows.last()),
        );
    }
}

/// The totals of all customers sum to the amounts of all records: no amount
/// is lost and none is counted twice, whatever the order of the records.
pub proof fn lemma_grand_total(rows: Seq<CachedRow>)
    ensures
        sum_total(aggregate(rows)) == rows_total(rows),
{
    lemma_sum_total_aggregate(Seq::empty(), rows);
}

/// What marks the place that `rank_position` gives: everything from there on
/// has a smaller total than `e`, and the entry before has not.
pub open spec fn is_rank_position(ranked: Seq<CustomerTotals>, e: CustomerTotals, p: int) -> bool {
    &&& 0 <= p <= ranked.len()
    &&& forall|j: int| p <= j < ranked.len() ==> (#[trigger] ranked[j]).total() < e.total()
    &&& p > 0 ==> ranked[p - 1].total() >= e.total()
}

/// The place that `rank_position` gives is marked as such.
pub proof fn lemma_rank_position(ranked: Seq<CustomerTotals>, e: CustomerTotals)
    ensures
        is_rank_position(ranked, e, rank_position(ranked, e)),
    decreases ranked.len(),
{
    if ranked.len() > 0 && ranked.last().total() < e.total() {
        let front = ranked.drop_last();
        lemma_rank_position(front, e);
        let p = rank_position(front, e);
        assert forall|j: int| p <= j < ranked.len() implies (#[trigger] ranked[j]).total()
            < e.total() by {
            if j < front.len() {
                assert(front[j].total() < e.total());
            }
        }
    }
}

/// Only one place is marked as the place of an entry.
pub proof fn lemma_rank_position_unique(ranked: Seq<CustomerTotals>, e: CustomerTotals, q: int)
    requires
        is_rank_position(ranked, e, q),
    ensures
        rank_position(ranked, e) == q,
{
    lemma_rank_position(ranked, e);
    let p = rank_position(ranked, e);
    if p < q {
        assert(ranked[q - 1].total() < e.total());
    } else if q < p {
        assert(ranked[p - 1].total() < e.total());
    }
}

/// Putting an entry in its place keeps a ranking a ranking.
pub proof fn lemma_insert_ranked(s: Seq<CustomerTotals>, e: CustomerTotals)
    requires
        non_increasing(s),
    ensures
        non_increasing(insert_ranked(s, e)),
        insert_ranked(s, e).len() == s.len() + 1,
{
    lemma_rank_position(s, e);
    let p = rank_position(s, e);
    let t = insert_ranked(s, e);
    assert forall|i: int, j: int| 0 <= i < j < t.len() implies #[trigger] t[i].total()
        >= #[trigger] t[j].total() by {
        if j < p {
            assert(t[i] == s[i] && t[j] == s[j]);
        } else if j == p {
            assert(t[i] == s[i]);
            if i < p - 1 {
                assert(s[i].total() >= s[p - 1].total());
            }
        } else if i < p {
            assert(t[i] == s[i] && t[j] == s[j - 1]);
            if i < j - 1 {
                assert(s[i].total() >= s[j - 1].total());
            }
        } else if i == p {
            assert(t[j] == s[j - 1]);
        } else {
            assert(t[i] == s[i - 1] && t[j] == s[j - 1]);
        }
    }
}

/// A ranking lists every entry once, and its totals never increase.
pub proof fn lemma_ranked(entries: Seq<CustomerTotals>)
    ensures
        ranked(entries).len() == entries.len(),
        non_increasing(ranked(entries)),
    decreases entries.len(),
{
    if entries.len() > 0 {
        lemma_ranked(entries.drop_last());
        lemma_insert_ranked(ranked(entries.drop_last()), entries.last());
    }
}

/// The first `k` of a ranking after an insertion are found from the first
/// `k` before it.
pub proof fn lemma_first_of_insert(s: Seq<CustomerTotals>, e: CustomerTotals, k: nat)
    requires
        non_increasing(s),
    ensures
        first(insert_ranked(s, e), k) == first(insert_ranked(first(s, k), e), k),
{
    lemma_rank_position(s, e);
    let p = rank_position(s, e);
    if k < s.len() {
        let head = s.take(k as int);
        let q = if p < k {
            p
        } else {
            k as int
        };
        assert(is_rank_position(head, e, q)) by {
            if q > 0 && q < p {
                assert(s[q - 1].total() >= s[p - 1].total());
            }
        }
        lemma_rank_position_unique(head, e, q);
        assert(insert_ranked(s, e).take(k as int) =~= insert_ranked(head, e).take(k as int));
    } else if k == s.len() {
        assert(s.take(k as int) == s);
    }
}

/// The totals of two lists sum to the sums of both.
pub proof fn lemma_sum_total_concat(a: Seq<CustomerTotals>, b: Seq<CustomerTotals>)
    ensures
        sum_total(a + b) == sum_total(a) + sum_total(b),
    decreases b.len(),
{
    if b.len() == 0 {
        assert(a + b == a);
    } else {
        lemma_sum_total_concat(a, b.drop_last());
        assert((a + b).drop_last() == a + b.drop_last());
    }
}

/// Two lists count the records of both.
pub proof fn lemma_sum_orders_concat(a: Seq<CustomerTotals>, b: Seq<CustomerTotals>)
    ensures
        sum_orders(a + b) == sum_orders(a) + sum_orders(b),
    decreases b.len(),
{
    if b.len() == 0 {
        assert(a + b == a);
    } else {
        lemma_sum_orders_concat(a, b.drop_last());
        assert((a + b).drop_last() == a + b.drop_last());
    }
}

/// Inserting an entry anywhere adds its total and its records to the sums.
pub proof fn lemma_sums_insert(s: Seq<CustomerTotals>, p: int, e: CustomerTotals)
    requires
        0 <= p <= s.len(),
    ensures
        sum_total(s.insert(p, e)) == sum_total(s) + e.total(),
        sum_orders(s.insert(p, e)) == sum_orders(s) + e.orders,
{
    let head = s.take(p);
    let tail = s.skip(p);
    assert(s == head + tail);
    assert(s.insert(p, e) =~= head.push(e) + tail);
    assert(head.push(e).drop_last() == head);
    lemma_sum_total_concat(head, tail);
    lemma_sum_total_concat(head.push(e), tail);
    lemma_sum_orders_concat(head, tail);
    lemma_sum_orders_concat(head.push(e), tail);
}

/// Ranking changes neither the sum of the totals nor the number of records.
pub proof fn lemma_ranked_sums(entries: Seq<CustomerTotals>)
    ensures
        sum_total(ranked(entries)) == sum_total(entries),
        sum_orders(ranked(entries)) == sum_orders(entries),
    decreases entries.len(),
{
    if entries.len() > 0 {
        let front = ranked(entries.drop_last());
        lemma_ranked_sums(entries.drop_last());
        lemma_rank_position(front, entries.last());
        lemma_sums_insert(front, rank_position(front, entries.last()), entries.last());
    }
}

/// The best `k` and the rest together make up the whole: the sum of all
/// totals is the sum of the best `k` plus the sum of those left out. So the
/// best `k` sum to no more than all exactly when those left out do not sum
/// to less than nothing.
pub proof fn lemma_top_and_rest(entries: Seq<CustomerTotals>, k: nat)
    ensures
        sum_total(entries) == sum_total(top_ranked(entries, k)) + sum_total(
            outside_top(entries, k),
        ),
        sum_total(top_ranked(entries, k)) <= sum_total(entries) <==> sum_total(
            outside_top(entries, k),
        ) >= 0,
        sum_orders(top_ranked(entries, k)) <= sum_orders(entries),
{
    let r = ranked(entries);
    lemma_ranked_sums(entries);
    assert(r == first(r, k) + beyond(r, k));
    lemma_sum_total_concat(first(r, k), beyond(r, k));
    lemma_sum_orders_concat(first(r, k), beyond(r, k));
}

/// The sum of totals that are all at least zero is at least zero.
pub proof fn lemma_sum_total_non_negative(entries: Seq<CustomerTotals>)
    requires
        forall|i: int| 0 <= i < entries.len() ==> (#[trigger] entries[i]).total() >= 0,
    ensures
        sum_total(entries) >= 0,
    decreases entries.len(),
{
    if entries.len() > 0 {
        assert forall|i: int| 0 <= i < entries.len() - 1 implies (#[trigger] entries.drop_last()[i]).total()
            >= 0 by {
            assert(entries[i].total() >= 0);
        }
        lemma_sum_total_non_negative(entries.drop_last());
        assert(entries[entries.len() - 1].total() >= 0);
    }
}

/// The best twenty have as many entries as there are customers, up to
/// twenty; their totals never increase; and where no customer left out has
/// a total below zero, they sum to no more than all customers together.
pub proof fn lemma_top_ranked(entries: Seq<CustomerTotals>, k: nat)
    ensures
        top_ranked(entries, k).len() == if entries.len() < k {
            entries.len()
        } else {
            k
        },
        non_increasing(top_ranked(entries, k)),
        (forall|i: int|
            0 <= i < outside_top(entries, k).len() ==> (#[trigger] outside_top(entries, k)[i]).total()
                >= 0) ==> sum_total(top_ranked(entries, k)) <= sum_total(entries),
{
    lemma_ranked(entries);
    lemma_top_and_rest(entries, k);
    let r = ranked(entries);
    let t = top_ranked(entries, k);
    assert forall|i: int, j: int| 0 <= i < j < t.len() implies #[trigger] t[i].total()
        >= #[trigger] t[j].total() by {
        assert(t[i] == r[i] && t[j] == r[j]);
    }
    if forall|i: int|
        0 <= i < outside_top(entries, k).len() ==> (#[trigger] outside_top(entries, k)[i]).total()
            >= 0 {
        lemma_sum_total_non_negative(outside_top(entries, k));
    }
}

/// The totals of entries within limits are bounded by the records they
/// count.
pub proof fn lemma_sum_total_bounds(entries: Seq<CustomerTotals>)
    requires
        forall|i: int| 0 <= i < entries.len() ==> within_limits(#[trigger] entries[i]),
    ensures
        -(2_000_000_000_000_000_000_000_000_000_000_000_000 * sum_orders(entries)) <= sum_total(entries)
            <= 2_000_000_000_000_000_000_000_000_000_000_000_000 * sum_orders(entries),
    decreases entries.len(),
{
    if entries.len() > 0 {
        assert forall|i: int| 0 <= i < entries.len() - 1 implies within_limits(
            #[trigger] entries.drop_last()[i],
        ) by {
            assert(within_limits(entries[i]));
        }
        lemma_sum_total_bounds(entries.drop_last());
        assert(within_limits(entries[entries.len() - 1]));
    }
}

/// The report on the customers of a sheet.
#[derive(Debug)]
pub struct AnalysisResult {
    /// The twenty customers with the largest totals, largest first.
    pub top20: Vec<CustomerData>,
    /// The number of customers.
    pub total_customers: usize,
    /// The sum of the totals of all customers, in millionths.
    pub total_amount: Wide,
    /// The sum of the totals of the customers in `top20`, in millionths.
    pub top20_amount: Wide,
    /// The number of data rows of the sheet.
    pub total_rows: usize,
    /// The time the work took, as the caller measured it; zero until then.
    pub process_time_ms: u128,
}

impl AnalysisResult {
    /// Whether this is the report on the customers `table`.
    pub open spec fn reports(self, table: Seq<CustomerTotals>) -> bool {
        &&& views(self.top20@) == top_ranked(table, TOP_COUNT as nat)
        &&& forall|i: int| 0 <= i < self.top20@.len() ==> (#[trigger] self.top20@[i]).consistent()
        &&& self.total_customers == table.len()
        &&& self.total_amount@ == sum_total(table)
        &&& self.top20_amount@ == sum_total(top_ranked(table, TOP_COUNT as nat))
        &&& self.process_time_ms == 0
    }
}

/// What holds of every report: it lists as many customers as there are, up
/// to twenty; their totals never increase; the sum of all totals is the sum
/// of the listed ones plus the sum of those left out, so the listed ones sum
/// to no more than all exactly when those left out do not sum to less than
/// nothing.
pub proof fn lemma_report(report: AnalysisResult, table: Seq<CustomerTotals>)
    requires
        report.reports(table),
    ensures
        report.top20@.len() == if report.total_customers < TOP_COUNT {
            report.total_customers
        } else {
            TOP_COUNT
        },
        forall|i: int, j: int|
            0 <= i < j < report.top20@.len() ==> (#[trigger] report.top20@[i]).total_amount@ >= (
            #[trigger] report.top20@[j]).total_amount@,
        report.total_amount@ == report.top20_amount@ + sum_total(
            outside_top(table, TOP_COUNT as nat),
        ),
        report.top20_amount@ <= report.total_amount@ <==> sum_total(
            outside_top(table, TOP_COUNT as nat),
        ) >= 0,
{
    lemma_top_ranked(table, TOP_COUNT as nat);
    lemma_top_and_rest(table, TOP_COUNT as nat);
    let top = views(report.top20@);
    assert(top.len() == report.top20@.len());
    assert forall|i: int, j: int| 0 <= i < j < report.top20@.len() implies (
    #[trigger] report.top20@[i]).total_amount@ >= (#[trigger] report.top20@[j]).total_amount@ by {
        assert(report.top20@[i].consistent() && report.top20@[j].consistent());
        assert(top[i].total() >= top[j].total());
    }
}

/// Puts `e` in its place among the best so far, and drops what falls behind
/// the twentieth place.
fn place(best: &mut Vec<CustomerData>, e: &CustomerData)
    requires
        old(best)@.len() <= TOP_COUNT,
        non_increasing(views(old(best)@)),
        e.consistent(),
        within_limits(e@),
        forall|i: int|
            0 <= i < old(best)@.len() ==> (#[trigger] old(best)@[i]).consistent() && within_limits(
                old(best)@[i]@,
            ),
    ensures
        views(final(best)@) == first(insert_ranked(views(old(best)@), e@), TOP_COUNT as nat),
        forall|i: int|
            0 <= i < final(best)@.len() ==> (#[trigger] final(best)@[i]).consistent()
                && within_limits(final(best)@[i]@),
{
    let ghost before = views(best@);
    let mut p: usize = best.len();
    while p > 0 && best[p - 1].total_amount.less(&e.total_amount)
        invariant
            p <= best.len(),
            best@ == old(best)@,
            e.consistent(),
            forall|i: int|
                0 <= i < best@.len() ==> (#[trigger] best@[i]).consistent() && within_limits(
                    best@[i]@,
                ),
            forall|j: int| p <= j < best@.len() ==> (#[trigger] views(best@)[j]).total() < e@.total(),
        decreases p,
    {
        p -= 1;
    }
    proof {
        if p > 0 {
            assert(best@[p - 1].consistent());
            assert(before[p - 1].total() >= e@.total());
        }
        lemma_rank_position_unique(before, e@, p as int);
    }
    if p < TOP_COUNT {
        best.insert(p, e.duplicate());
        assert(views(best@) =~= insert_ranked(before, e@));
        if best.len() > TOP_COUNT {
            let ghost full = best@;
            best.pop();
            assert(views(best@) =~= views(full).take(TOP_COUNT as int));
        }
    } else {
        assert(insert_ranked(before, e@).take(TOP_COUNT as int) =~= before);
    }
}

/// Reports on the customers of `table`: the best twenty, how many customers
/// there are, and the sums of the totals of all and of the best twenty.
pub fn analyze_table(table: &CustomerTable, total_rows: usize) -> (r: AnalysisResult)
    ensures
        r.reports(table@),
        r.total_rows == total_rows,
{
    table.inspect();
    let n = table.len();
    let ghost all = table@;
    let mut best: Vec<CustomerData> = Vec::new();
    let mut total_amount = Wide::zero();
    let mut i: usize = 0;
    assert(all.take(0) == Seq::<CustomerTotals>::empty());
    assert(views(best@) =~= Seq::<CustomerTotals>::empty());
    while i < n
        invariant
            i <= n,
            n == all.len(),
            all == table@,
            all == views(table.entries()),
            sum_orders(all) <= u64::MAX,
            forall|j: int|
                0 <= j < table.entries().len() ==> (#[trigger] table.entries()[j]).consistent()
                    && within_limits(table.entries()[j]@),
            views(best@) == first(ranked(all.take(i as int)), TOP_COUNT as nat),
            forall|j: int|
                0 <= j < best@.len() ==> (#[trigger] best@[j]).consistent() && within_limits(
                    best@[j]@,
                ),
            total_amount@ == sum_total(all.take(i as int)),
        decreases n - i,
    {
        let e = table.get(i);
        proof {
            let seen = all.take(i as int);
            let next = all.take(i + 1);
            assert(next.drop_last() == seen);
            assert(next.last() == all[i as int]);
            lemma_ranked(seen);
            lemma_first_of_insert(ranked(seen), e@, TOP_COUNT as nat);
            assert(non_increasing(views(best@))) by {
                let r = ranked(seen);
                let b = views(best@);
                assert forall|x: int, y: int| 0 <= x < y < b.len() implies #[trigger] b[x].total()
                    >= #[trigger] b[y].total() by {
                    assert(b[x] == r[x] && b[y] == r[y]);
                }
            }
            assert forall|j: int| 0 <= j < next.len() implies within_limits(#[trigger] next[j]) by {
                assert(within_limits(table.entries()[j]@));
            }
            lemma_sum_total_bounds(next);
            lemma_sum_orders_tail(all, i as int);
            assert(next.drop_last() == all.take(i as int));
            assert(sum_orders(next) == sum_orders(seen) + all[i as int].orders);
        }
        total_amount = total_amount.plus(&e.total_amount);
        place(&mut best, e);
        i += 1;
    }
    assert(all.take(n as int) == all);
    let mut top20_amount = Wide::zero();
    let mut j: usize = 0;
    let ghost top = views(best@);
    assert(top.take(0) == Seq::<CustomerTotals>::empty());
    proof {
        lemma_top_and_rest(all, TOP_COUNT as nat);
        lemma_ranked(all);
    }
    while j < best.len()
        invariant
            j <= best.len(),
            top == views(best@),
            top == top_ranked(all, TOP_COUNT as nat),
            all == views(table.entries()),
            sum_orders(top) <= sum_orders(all) <= u64::MAX,
            forall|x: int|
                0 <= x < best@.len() ==> (#[trigger] best@[x]).consistent() && within_limits(
                    best@[x]@,
                ),
            top20_amount@ == sum_total(top.take(j as int)),
        decreases best.len() - j,
    {
        proof {
            let next = top.take(j + 1);
            assert(next.drop_last() == top.take(j as int));
            assert(next.last() == top[j as int]);
            assert forall|x: int| 0 <= x < next.len() implies within_limits(#[trigger] next[x]) by {
                assert(within_limits(best@[x]@));
            }
            lemma_sum_total_bounds(next);
            lemma_sum_orders_tail(top, j as int);
            assert(best@[j as int].consistent());
        }
        top20_amount = top20_amount.plus(&best[j].total_amount);
        j += 1;
    }
    assert(top.take(best.len() as int) == top);
    AnalysisResult {
        top20: best,
        total_customers: n,
        total_amount,
        top20_amount,
        total_rows,
        process_time_ms: 0,
    }
}

} // verus!

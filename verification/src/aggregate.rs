//! Per-customer totals: the model of aggregation, and the laws that make it
//! independent of how the records are split into chunks.

use vstd::prelude::*;
use crate::row::CachedRow;

verus! {

/// What is known of one customer: the model of a [`CustomerData`].
pub struct CustomerTotals {
    pub code: Seq<char>,
    pub name: Seq<char>,
    /// The sum of the amounts paid, in millionths.
    pub pay: int,
    /// The sum of the recharge deductions, in millionths.
    pub recharge: int,
    /// The number of records counted.
    pub orders: nat,
}

impl CustomerTotals {
    /// The total amount: what was paid plus what was deducted.
    pub open spec fn total(self) -> int {
        self.pay + self.recharge
    }
}

/// The totals of `a` and `b` together. The name is that of `a` unless it is
/// empty: the first name seen that is not empty stays.
pub open spec fn combine(a: CustomerTotals, b: CustomerTotals) -> CustomerTotals {
    CustomerTotals {
        code: a.code,
        name: if a.name.len() == 0 {
            b.name
        } else {
            a.name
        },
        pay: a.pay + b.pay,
        recharge: a.recharge + b.recharge,
        orders: a.orders + b.orders,
    }
}

/// The index of the first entry of `entries` for `code`.
pub open spec fn position(entries: Seq<CustomerTotals>, code: Seq<char>) -> Option<int>
    decreases entries.len(),
{
    if entries.len() == 0 {
        None
    } else {
        match position(entries.drop_last(), code) {
            Some(i) => Some(i),
            None => if entries.last().code == code {
                Some(entries.len() - 1)
            } else {
                None
            },
        }
    }
}

/// Whether no two entries of `entries` have the same code.
pub open spec fn distinct_codes(entries: Seq<CustomerTotals>) -> bool {
    forall|i: int, j: int|
        0 <= i < entries.len() && 0 <= j < entries.len() && i != j ==> #[trigger] entries[i].code
            != #[trigger] entries[j].code
}

/// `entries` after `e` is counted in: added to the entry of its code, or put
/// at the end as a new entry.
pub open spec fn absorb(entries: Seq<CustomerTotals>, e: CustomerTotals) -> Seq<CustomerTotals> {
    match position(entries, e.code) {
        Some(i) => entries.update(i, combine(entries[i], e)),
        None => entries.push(e),
    }
}

/// `entries` after all of `items` are counted in, in order.
pub open spec fn absorb_all(entries: Seq<CustomerTotals>, items: Seq<CustomerTotals>) -> Seq<
    CustomerTotals,
>
    decreases items.len(),
{
    if items.len() == 0 {
        entries
    } else {
        absorb(absorb_all(entries, items.drop_last()), items.last())
    }
}

/// The totals that one record contributes.
pub open spec fn totals_of_row(row: CachedRow) -> CustomerTotals {
    CustomerTotals {
        code: row.customer_code@,
        name: row.customer_name@,
        pay: row.pay_amount@,
        recharge: row.recharge_deduction@,
        orders: 1,
    }
}

/// `entries` after the records `rows` are counted in, in order.
pub open spec fn aggregate_onto(entries: Seq<CustomerTotals>, rows: Seq<CachedRow>) -> Seq<
    CustomerTotals,
>
    decreases rows.len(),
{
    if rows.len() == 0 {
        entries
    } else {
        absorb(aggregate_onto(entries, rows.drop_last()), totals_of_row(rows.last()))
    }
}

/// The per-customer totals of `rows`: one entry for each code, in the order
/// in which the codes first occur.
pub open spec fn aggregate(rows: Seq<CachedRow>) -> Seq<CustomerTotals> {
    aggregate_onto(Seq::empty(), rows)
}

/// The totals `a` and `b` reduced to one: the entries of `b` counted into
/// `a`, in order.
pub open spec fn merged(a: Seq<CustomerTotals>, b: Seq<CustomerTotals>) -> Seq<CustomerTotals> {
    absorb_all(a, b)
}

/// The number of records of `rows` with the code `code`.
pub open spec fn count_of(rows: Seq<CachedRow>, code: Seq<char>) -> nat
    decreases rows.len(),
{
    if rows.len() == 0 {
        0
    } else {
        count_of(rows.drop_last(), code) + if rows.last().customer_code@ == code {
            1nat
        } else {
            0nat
        }
    }
}

/// The sum of the amounts paid in the records of `rows` with the code `code`.
pub open spec fn pay_of(rows: Seq<CachedRow>, code: Seq<char>) -> int
    decreases rows.len(),
{
    if rows.len() == 0 {
        0
    } else {
        pay_of(rows.drop_last(), code) + if rows.last().customer_code@ == code {
            rows.last().pay_amount@
        } else {
            0
        }
    }
}

/// The sum of the recharge deductions in the records of `rows` with the code
/// `code`.
pub open spec fn recharge_of(rows: Seq<CachedRow>, code: Seq<char>) -> int
    decreases rows.len(),
{
    if rows.len() == 0 {
        0
    } else {
        recharge_of(rows.drop_last(), code) + if rows.last().customer_code@ == code {
            rows.last().recharge_deduction@
        } else {
            0
        }
    }
}

/// The sum of the totals of the records of `rows` with the code `code`.
pub open spec fn total_of(rows: Seq<CachedRow>, code: Seq<char>) -> int
    decreases rows.len(),
{
    if rows.len() == 0 {
        0
    } else {
        total_of(rows.drop_last(), code) + if rows.last().customer_code@ == code {
            rows.last().total()
        } else {
            0
        }
    }
}

/// What `position` finds: the first entry of the code, or that there is
/// none.
pub proof fn lemma_position(entries: Seq<CustomerTotals>, code: Seq<char>)
    ensures
        match position(entries, code) {
            Some(i) => 0 <= i < entries.len() && entries[i].code == code && forall|j: int|
                0 <= j < i ==> (#[trigger] entries[j]).code != code,
            None => forall|j: int| 0 <= j < entries.len() ==> (#[trigger] entries[j]).code != code,
        },
    decreases entries.len(),
{
    if entries.len() > 0 {
        let front = entries.drop_last();
        lemma_position(front, code);
        match position(front, code) {
            Some(i) => {
                assert forall|j: int| 0 <= j < i implies (#[trigger] entries[j]).code != code by {
                    assert(front[j].code != code);
                }
            },
            None => {
                assert forall|j: int| 0 <= j < entries.len() - 1 implies (#[trigger] entries[j]).code
                    != code by {
                    assert(front[j].code != code);
                }
            },
        }
    }
}

/// Among distinct codes, the entry of a code is where `position` finds it.
pub proof fn lemma_position_at(entries: Seq<CustomerTotals>, i: int)
    requires
        distinct_codes(entries),
        0 <= i < entries.len(),
    ensures
        position(entries, entries[i].code) == Some(i),
{
    lemma_position(entries, entries[i].code);
}

/// Counting an entry in keeps the codes distinct, keeps the place of every
/// code that was there, and leaves the code of the entry present.
pub proof fn lemma_absorb(entries: Seq<CustomerTotals>, e: CustomerTotals)
    requires
        distinct_codes(entries),
    ensures
        distinct_codes(absorb(entries, e)),
        absorb(entries, e).len() >= entries.len(),
        forall|i: int|
            0 <= i < entries.len() ==> (#[trigger] absorb(entries, e)[i]).code == entries[i].code,
        position(absorb(entries, e), e.code) is Some,
        forall|code: Seq<char>|
            position(entries, code) is Some ==> #[trigger] position(absorb(entries, e), code)
                == position(entries, code),
{
    let after = absorb(entries, e);
    lemma_position(entries, e.code);
    assert forall|i: int, j: int|
        0 <= i < after.len() && 0 <= j < after.len() && i != j implies #[trigger] after[i].code
        != #[trigger] after[j].code by {
        if i < entries.len() && j < entries.len() {
            assert(entries[i].code != entries[j].code);
        }
    }
    match position(entries, e.code) {
        Some(i) => {
            lemma_position_at(after, i);
        },
        None => {
            lemma_position_at(after, entries.len() as int);
        },
    }
    assert forall|code: Seq<char>| position(entries, code) is Some implies #[trigger] position(
        after,
        code,
    ) == position(entries, code) by {
        lemma_position(entries, code);
        let k = position(entries, code)->0;
        assert(after[k].code == code);
        lemma_position_at(after, k);
    }
}

/// Counting entries in keeps the codes distinct and the place of every code
/// that was there.
pub proof fn lemma_absorb_all(entries: Seq<CustomerTotals>, items: Seq<CustomerTotals>)
    requires
        distinct_codes(entries),
    ensures
        distinct_codes(absorb_all(entries, items)),
        absorb_all(entries, items).len() >= entries.len(),
        forall|code: Seq<char>|
            position(entries, code) is Some ==> #[trigger] position(
                absorb_all(entries, items),
                code,
            ) == position(entries, code),
        forall|k: int|
            0 <= k < items.len() ==> position(
                absorb_all(entries, items),
                (#[trigger] items[k]).code,
            ) is Some,
    decreases items.len(),
{
    if items.len() > 0 {
        let front = items.drop_last();
        let mid = absorb_all(entries, front);
        lemma_absorb_all(entries, front);
        lemma_absorb(mid, items.last());
        let after = absorb_all(entries, items);
        assert forall|code: Seq<char>| position(entries, code) is Some implies #[trigger] position(
            after,
            code,
        ) == position(entries, code) by {
            assert(position(mid, code) == position(entries, code));
        }
        assert forall|k: int| 0 <= k < items.len() implies position(
            after,
            (#[trigger] items[k]).code,
        ) is Some by {
            if k < items.len() - 1 {
                assert(front[k] == items[k]);
                assert(position(mid, front[k].code) is Some);
            }
        }
    }
}

/// The totals of a list of records have distinct codes.
pub proof fn lemma_aggregate_onto_distinct(entries: Seq<CustomerTotals>, rows: Seq<CachedRow>)
    requires
        distinct_codes(entries),
    ensures
        distinct_codes(aggregate_onto(entries, rows)),
    decreases rows.len(),
{
    if rows.len() > 0 {
        lemma_aggregate_onto_distinct(entries, rows.drop_last());
        lemma_absorb(aggregate_onto(entries, rows.drop_last()), totals_of_row(rows.last()));
    }
}

/// Counting in two entries of one code, one after the other, is counting in
/// their sum.
pub proof fn lemma_absorb_same_code(entries: Seq<CustomerTotals>, x: CustomerTotals, r: CustomerTotals)
    requires
        distinct_codes(entries),
        x.code == r.code,
    ensures
        absorb(entries, combine(x, r)) == absorb(absorb(entries, x), r),
{
    lemma_position(entries, x.code);
    lemma_absorb(entries, x);
    let mid = absorb(entries, x);
    match position(entries, x.code) {
        Some(i) => {
            lemma_position_at(mid, i);
            assert(absorb(entries, combine(x, r)) =~= absorb(mid, r));
        },
        None => {
            lemma_position_at(mid, entries.len() as int);
            assert(absorb(entries, combine(x, r)) =~= absorb(mid, r));
        },
    }
}

/// An entry whose code is already there can be counted in before or after
/// an entry of another code.
pub proof fn lemma_absorb_commutes(entries: Seq<CustomerTotals>, r: CustomerTotals, x: CustomerTotals)
    requires
        distinct_codes(entries),
        r.code != x.code,
        position(entries, r.code) is Some,
    ensures
        absorb(absorb(entries, r), x) == absorb(absorb(entries, x), r),
{
    lemma_position(entries, r.code);
    lemma_position(entries, x.code);
    lemma_absorb(entries, r);
    lemma_absorb(entries, x);
    let j = position(entries, r.code)->0;
    let with_r = absorb(entries, r);
    let with_x = absorb(entries, x);
    assert(position(with_x, r.code) == Some(j));
    match position(entries, x.code) {
        Some(k) => {
            assert(position(with_r, x.code) == Some(k));
            assert(absorb(with_r, x) =~= absorb(with_x, r));
        },
        None => {
            lemma_position(with_r, x.code);
            assert(position(with_r, x.code) is None) by {
                if position(with_r, x.code) is Some {
                    let k = position(with_r, x.code)->0;
                    assert(with_r[k].code == entries[k].code);
                    assert(entries[k].code != x.code);
                }
            }
            assert(absorb(with_r, x) =~= absorb(with_x, r));
        },
    }
}

/// Counting in a list in which one entry was enlarged by `r` is counting in
/// the list and then `r`.
pub proof fn lemma_absorb_all_enlarged(
    entries: Seq<CustomerTotals>,
    items: Seq<CustomerTotals>,
    i: int,
    r: CustomerTotals,
)
    requires
        distinct_codes(entries),
        distinct_codes(items),
        0 <= i < items.len(),
        r.code == items[i].code,
    ensures
        absorb_all(entries, items.update(i, combine(items[i], r))) == absorb(
            absorb_all(entries, items),
            r,
        ),
    decreases items.len(),
{
    let enlarged = items.update(i, combine(items[i], r));
    let front = items.drop_last();
    let mid = absorb_all(entries, front);
    lemma_absorb_all(entries, front);
    if i == items.len() - 1 {
        assert(enlarged.drop_last() == front);
        lemma_absorb_same_code(mid, items[i], r);
    } else {
        assert(enlarged.drop_last() == front.update(i, combine(front[i], r)));
        assert(enlarged.last() == items.last());
        assert(distinct_codes(front)) by {
            assert forall|a: int, b: int|
                0 <= a < front.len() && 0 <= b < front.len() && a != b implies #[trigger] front[a].code
                != #[trigger] front[b].code by {
                assert(items[a].code != items[b].code);
            }
        }
        lemma_absorb_all_enlarged(entries, front, i, r);
        assert(front[i] == items[i]);
        assert(position(mid, front[i].code) is Some);
        assert(items[i].code != items[items.len() - 1].code);
        lemma_absorb_commutes(mid, r, items.last());
    }
}

/// Counting in the entries of a list to which `r` was added is counting in
/// the list and then `r`.
pub proof fn lemma_merged_absorb(entries: Seq<CustomerTotals>, items: Seq<CustomerTotals>, r: CustomerTotals)
    requires
        distinct_codes(entries),
        distinct_codes(items),
    ensures
        merged(entries, absorb(items, r)) == absorb(merged(entries, items), r),
{
    lemma_position(items, r.code);
    match position(items, r.code) {
        Some(i) => {
            lemma_absorb_all_enlarged(entries, items, i, r);
        },
        None => {
            assert(items.push(r).drop_last() == items);
        },
    }
}

/// Counting entries into totals is the same as reducing the totals of those
/// entries into them.
pub proof fn lemma_absorb_all_is_merge(entries: Seq<CustomerTotals>, items: Seq<CustomerTotals>)
    requires
        distinct_codes(entries),
    ensures
        absorb_all(entries, items) == merged(entries, absorb_all(Seq::empty(), items)),
    decreases items.len(),
{
    if items.len() > 0 {
        let front = items.drop_last();
        lemma_absorb_all_is_merge(entries, front);
        lemma_absorb_all(Seq::empty(), front);
        lemma_merged_absorb(entries, absorb_all(Seq::empty(), front), items.last());
    }
}

/// Counting in `x` and then `y` is counting in `x + y`.
pub proof fn lemma_absorb_all_concat(
    entries: Seq<CustomerTotals>,
    x: Seq<CustomerTotals>,
    y: Seq<CustomerTotals>,
)
    ensures
        absorb_all(entries, x + y) == absorb_all(absorb_all(entries, x), y),
    decreases y.len(),
{
    if y.len() == 0 {
        assert(x + y == x);
    } else {
        lemma_absorb_all_concat(entries, x, y.drop_last());
        assert((x + y).drop_last() == x + y.drop_last());
        assert((x + y).last() == y.last());
    }
}

/// Counting records into totals is the same as reducing the totals of those
/// records into them.
pub proof fn lemma_aggregate_onto_is_merge(entries: Seq<CustomerTotals>, rows: Seq<CachedRow>)
    requires
        distinct_codes(entries),
    ensures
        aggregate_onto(entries, rows) == merged(entries, aggregate(rows)),
    decreases rows.len(),
{
    if rows.len() > 0 {
        let front = rows.drop_last();
        lemma_aggregate_onto_is_merge(entries, front);
        lemma_aggregate_onto_distinct(Seq::empty(), front);
        lemma_merged_absorb(entries, aggregate(front), totals_of_row(rows.last()));
    }
}

/// Counting the records `x` and then the records `y` is counting the
/// records of `x + y`.
pub proof fn lemma_aggregate_onto_concat(
    entries: Seq<CustomerTotals>,
    x: Seq<CachedRow>,
    y: Seq<CachedRow>,
)
    ensures
        aggregate_onto(entries, x + y) == aggregate_onto(aggregate_onto(entries, x), y),
    decreases y.len(),
{
    if y.len() == 0 {
        assert(x + y == x);
    } else {
        lemma_aggregate_onto_concat(entries, x, y.drop_last());
        assert((x + y).drop_last() == x + y.drop_last());
        assert((x + y).last() == y.last());
    }
}

/// Aggregation does not depend on how the records are split: the totals of
/// two chunks, reduced to one, are the totals of the whole, entry for entry.
pub proof fn lemma_chunks_reduce_to_whole(x: Seq<CachedRow>, y: Seq<CachedRow>)
    ensures
        merged(aggregate(x), aggregate(y)) == aggregate(x + y),
{
    lemma_aggregate_onto_concat(Seq::empty(), x, y);
    lemma_aggregate_onto_distinct(Seq::empty(), x);
    lemma_aggregate_onto_is_merge(aggregate(x), y);
}

/// A code that no record has sums to nothing.
pub proof fn lemma_absent_sums(rows: Seq<CachedRow>, code: Seq<char>)
    requires
        count_of(rows, code) == 0,
    ensures
        pay_of(rows, code) == 0,
        recharge_of(rows, code) == 0,
        total_of(rows, code) == 0,
    decreases rows.len(),
{
    if rows.len() > 0 {
        lemma_absent_sums(rows.drop_last(), code);
    }
}

/// Every customer's entry counts exactly the records of that customer: their
/// number, and the sums of their amounts; a code has an entry exactly when a
/// record has it.
pub proof fn lemma_aggregate_counts(rows: Seq<CachedRow>, code: Seq<char>)
    ensures
        match position(aggregate(rows), code) {
            Some(i) => {
                let entry = aggregate(rows)[i];
                &&& entry.code == code
                &&& entry.orders == count_of(rows, code)
                &&& entry.orders > 0
                &&& entry.pay == pay_of(rows, code)
                &&& entry.recharge == recharge_of(rows, code)
                &&& entry.total() == total_of(rows, code)
            },
            None => count_of(rows, code) == 0,
        },
    decreases rows.len(),
{
    if rows.len() > 0 {
        let front = rows.drop_last();
        let before = aggregate(front);
        let e = totals_of_row(rows.last());
        lemma_aggregate_counts(front, code);
        lemma_aggregate_onto_distinct(Seq::empty(), front);
        lemma_absorb(before, e);
        lemma_position(before, code);
        lemma_position(before, e.code);
        let after = aggregate(rows);
        assert(after == absorb(before, e));
        if e.code == code {
            match position(before, code) {
                Some(i) => {
                    lemma_position_at(after, i);
                    assert(after[i] == combine(before[i], e));
                },
                None => {
                    lemma_position_at(after, before.len() as int);
                    assert(after[before.len() as int] == e);
                    assert(count_of(front, code) == 0);
                    lemma_absent_sums(front, code);
                },
            }
        } else {
            match position(before, code) {
                Some(i) => {
                    assert(position(after, code) == Some(i));
                    assert(after[i] == before[i]);
                },
                None => {
                    lemma_position(after, code);
                    if position(after, code) is Some {
                        let k = position(after, code)->0;
                        if k < before.len() {
                            assert(after[k].code == before[k].code);
                        }
                    }
                },
            }
        }
    }
}

} // verus!

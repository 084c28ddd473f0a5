//! The table of per-customer totals and the functions that fill it.

use vstd::hash_map::StringHashMap;
use vstd::prelude::*;
use crate::aggregate::{
    absorb, absorb_all, aggregate, aggregate_onto, combine, distinct_codes, lemma_position,
    lemma_position_at, merged, position, totals_of_row, CustomerTotals,
};
use crate::decimal::LIMIT;
use crate::row::CachedRow;
use crate::wide::Wide;

verus! {

/// The totals of one customer. Amounts are in millionths.
#[derive(Debug)]
pub struct CustomerData {
    pub customer_code: String,
    /// The first name seen for this customer that is not empty.
    pub customer_name: String,
    pub pay_amount: Wide,
    pub recharge_deduction: Wide,
    /// `pay_amount` plus `recharge_deduction`.
    pub total_amount: Wide,
    /// The number of records counted.
    pub order_count: u64,
}

impl View for CustomerData {
    type V = CustomerTotals;

    open spec fn view(&self) -> CustomerTotals {
        CustomerTotals {
            code: self.customer_code@,
            name: self.customer_name@,
            pay: self.pay_amount@,
            recharge: self.recharge_deduction@,
            orders: self.order_count as nat,
        }
    }
}

impl CustomerData {
    /// Whether the total amount held is the sum of the two amounts.
    pub open spec fn consistent(self) -> bool {
        self.total_amount@ == self.pay_amount@ + self.recharge_deduction@
    }

    /// A copy of these totals.
    pub fn duplicate(&self) -> (r: CustomerData)
        ensures
            r == *self,
    {
        CustomerData {
            customer_code: self.customer_code.clone(),
            customer_name: self.customer_name.clone(),
            pay_amount: self.pay_amount,
            recharge_deduction: self.recharge_deduction,
            total_amount: self.total_amount,
            order_count: self.order_count,
        }
    }
}

/// The models of `entries`, in order.
pub open spec fn views(entries: Seq<CustomerData>) -> Seq<CustomerTotals> {
    entries.map_values(|e: CustomerData| e@)
}

/// The number of records that `entries` count, all customers together.
pub open spec fn sum_orders(entries: Seq<CustomerTotals>) -> nat
    decreases entries.len(),
{
    if entries.len() == 0 {
        0
    } else {
        sum_orders(entries.drop_last()) + entries.last().orders
    }
}

/// Whether the amounts of `t` are what at most `t.orders` records of amounts
/// within `LIMIT` can sum to, and `t` counts at least one record.
pub open spec fn within_limits(t: CustomerTotals) -> bool {
    &&& t.orders >= 1
    &&& -(t.orders * LIMIT) <= t.pay <= t.orders * LIMIT
    &&& -(t.orders * LIMIT) <= t.recharge <= t.orders * LIMIT
}

/// Whether the index leads from every code to its entry, and every entry is
/// sound.
pub open spec fn parts_wf(entries: Seq<CustomerData>, index: Map<Seq<char>, usize>) -> bool {
    &&& forall|i: int|
        0 <= i < entries.len() ==> index.contains_key(#[trigger] entries[i].customer_code@)
            && index[entries[i].customer_code@] == i
    &&& forall|k: Seq<char>| #[trigger]
        index.contains_key(k) ==> index[k] < entries.len() && entries[index[k] as int].customer_code@
            == k
    &&& forall|i: int|
        0 <= i < entries.len() ==> (#[trigger] entries[i]).consistent() && within_limits(
            entries[i]@,
        )
    &&& sum_orders(views(entries)) <= u64::MAX
}

/// Entries that an index leads to have distinct codes.
pub proof fn lemma_parts_distinct(entries: Seq<CustomerData>, index: Map<Seq<char>, usize>)
    requires
        parts_wf(entries, index),
    ensures
        distinct_codes(views(entries)),
{
    let v = views(entries);
    assert forall|i: int, j: int| 0 <= i < v.len() && 0 <= j < v.len() && i != j implies #[trigger] v[i].code
        != #[trigger] v[j].code by {
        assert(index[entries[i].customer_code@] == i);
        assert(index[entries[j].customer_code@] == j);
    }
}

/// One entry counts no more records than all entries together.
pub proof fn lemma_sum_orders_bounds(entries: Seq<CustomerTotals>, i: int)
    requires
        0 <= i < entries.len(),
    ensures
        entries[i].orders <= sum_orders(entries),
    decreases entries.len(),
{
    if i < entries.len() - 1 {
        lemma_sum_orders_bounds(entries.drop_last(), i);
    }
}

/// Enlarging one entry enlarges the sum by as much.
pub proof fn lemma_sum_orders_update(entries: Seq<CustomerTotals>, i: int, e: CustomerTotals)
    requires
        0 <= i < entries.len(),
    ensures
        sum_orders(entries.update(i, e)) == sum_orders(entries) - entries[i].orders + e.orders,
    decreases entries.len(),
{
    let after = entries.update(i, e);
    if i < entries.len() - 1 {
        lemma_sum_orders_update(entries.drop_last(), i, e);
        assert(after.drop_last() == entries.drop_last().update(i, e));
    } else {
        assert(after.drop_last() == entries.drop_last());
    }
}

/// Counting an entry in adds its records to the sum.
pub proof fn lemma_sum_orders_absorb(entries: Seq<CustomerTotals>, e: CustomerTotals)
    ensures
        sum_orders(absorb(entries, e)) == sum_orders(entries) + e.orders,
{
    lemma_position(entries, e.code);
    match position(entries, e.code) {
        Some(i) => {
            lemma_sum_orders_update(entries, i, combine(entries[i], e));
        },
        None => {
            assert(entries.push(e).drop_last() == entries);
        },
    }
}

/// Entries counted into others add their records to the sum.
pub proof fn lemma_sum_orders_merged(a: Seq<CustomerTotals>, b: Seq<CustomerTotals>)
    ensures
        sum_orders(merged(a, b)) == sum_orders(a) + sum_orders(b),
    decreases b.len(),
{
    if b.len() > 0 {
        lemma_sum_orders_merged(a, b.drop_last());
        lemma_sum_orders_absorb(absorb_all(a, b.drop_last()), b.last());
    }
}

/// The totals of a list of records count each record once.
pub proof fn lemma_sum_orders_aggregate(entries: Seq<CustomerTotals>, rows: Seq<CachedRow>)
    ensures
        sum_orders(aggregate_onto(entries, rows)) == sum_orders(entries) + rows.len(),
    decreases rows.len(),
{
    if rows.len() > 0 {
        lemma_sum_orders_aggregate(entries, rows.drop_last());
        lemma_sum_orders_absorb(
            aggregate_onto(entries, rows.drop_last()),
            totals_of_row(rows.last()),
        );
    }
}

/// Counts `orders` records of one customer into the entries.
pub(crate) fn absorb_parts(
    entries: &mut Vec<CustomerData>,
    index: &mut StringHashMap<usize>,
    code: &String,
    name: &String,
    pay: Wide,
    recharge: Wide,
    orders: u64,
)
    requires
        parts_wf(old(entries)@, old(index)@),
        orders >= 1,
        -(orders * LIMIT) <= pay@ <= orders * LIMIT,
        -(orders * LIMIT) <= recharge@ <= orders * LIMIT,
        sum_orders(views(old(entries)@)) + orders <= u64::MAX,
    ensures
        parts_wf(final(entries)@, final(index)@),
        views(final(entries)@) == absorb(
            views(old(entries)@),
            CustomerTotals {
                code: code@,
                name: name@,
                pay: pay@,
                recharge: recharge@,
                orders: orders as nat,
            },
        ),
{
    let ghost before = entries@;
    let ghost models = views(before);
    let ghost e = CustomerTotals {
        code: code@,
        name: name@,
        pay: pay@,
        recharge: recharge@,
        orders: orders as nat,
    };
    proof {
        lemma_parts_distinct(before, index@);
        lemma_position(models, e.code);
        lemma_sum_orders_absorb(models, e);
    }
    match index.get(code.as_str()) {
        Some(found) => {
            let i: usize = *found;
            proof {
                assert(models[i as int].code == code@);
                lemma_position_at(models, i as int);
                lemma_sum_orders_bounds(models, i as int);
                assert(before[i as int].consistent() && within_limits(before[i as int]@));
            }
            let fresh_name = entries[i].customer_name.as_str().is_empty() && !name.as_str().is_empty();
            let paid = entries[i].pay_amount.plus(&pay);
            let deducted = entries[i].recharge_deduction.plus(&recharge);
            entries[i].pay_amount = paid;
            entries[i].recharge_deduction = deducted;
            entries[i].total_amount = paid.plus(&deducted);
            entries[i].order_count = entries[i].order_count + orders;
            if fresh_name {
                entries[i].customer_name = name.clone();
            }
            proof {
                assert(entries@[i as int].customer_code == before[i as int].customer_code);
                assert(entries@[i as int]@.name =~= combine(models[i as int], e).name);
                assert(entries@[i as int]@ == combine(models[i as int], e));
                assert(views(entries@) =~= absorb(models, e));
                assert forall|j: int| 0 <= j < entries@.len() implies index@.contains_key(
                    #[trigger] entries@[j].customer_code@,
                ) && index@[entries@[j].customer_code@] == j by {
                    assert(before[j].customer_code@ == entries@[j].customer_code@);
                }
                assert forall|j: int| 0 <= j < entries@.len() implies (#[trigger] entries@[j]).consistent()
                    && within_limits(entries@[j]@) by {
                    if j != i {
                        assert(entries@[j] == before[j]);
                    }
                }
            }
        },
        None => {
            let at = entries.len();
            proof {
                assert(position(models, code@) is None) by {
                    if position(models, code@) is Some {
                        let k = position(models, code@)->0;
                        assert(index@.contains_key(before[k].customer_code@));
                    }
                }
            }
            entries.push(
                CustomerData {
                    customer_code: code.clone(),
                    customer_name: name.clone(),
                    pay_amount: pay,
                    recharge_deduction: recharge,
                    total_amount: pay.plus(&recharge),
                    order_count: orders,
                },
            );
            index.insert(code.clone(), at);
            proof {
                assert(views(entries@) =~= absorb(models, e));
                assert forall|j: int| 0 <= j < entries@.len() implies index@.contains_key(
                    #[trigger] entries@[j].customer_code@,
                ) && index@[entries@[j].customer_code@] == j by {
                    if j < at {
                        assert(entries@[j] == before[j]);
                        assert(old(index)@.contains_key(before[j].customer_code@));
                    }
                }
                assert forall|k: Seq<char>| #[trigger] index@.contains_key(k) implies index@[k]
                    < entries@.len() && entries@[index@[k] as int].customer_code@ == k by {
                    if k != code@ {
                        assert(old(index)@.contains_key(k));
                        assert(entries@[old(index)@[k] as int] == before[old(index)@[k] as int]);
                    }
                }
                assert forall|j: int| 0 <= j < entries@.len() implies (#[trigger] entries@[j]).consistent()
                    && within_limits(entries@[j]@) by {
                    if j < at {
                        assert(entries@[j] == before[j]);
                    }
                }
            }
        },
    }
}

/// The totals of many customers, one entry for each code, in the order in
/// which the codes were first seen.
pub struct CustomerTable {
    entries: Vec<CustomerData>,
    index: StringHashMap<usize>,
}

impl View for CustomerTable {
    type V = Seq<CustomerTotals>;

    closed spec fn view(&self) -> Seq<CustomerTotals> {
        views(self.entries@)
    }
}

impl CustomerTable {
    #[verifier::type_invariant]
    spec fn well_formed(self) -> bool {
        parts_wf(self.entries@, self.index@)
    }

    /// The entries of this table.
    pub closed spec fn entries(self) -> Seq<CustomerData> {
        self.entries@
    }

    /// A table without entries.
    pub fn new() -> (t: CustomerTable)
        ensures
            t@ == Seq::<CustomerTotals>::empty(),
            t.entries() == Seq::<CustomerData>::empty(),
    {
        let t = CustomerTable { entries: Vec::new(), index: StringHashMap::new() };
        assert(views(t.entries@) =~= Seq::<CustomerTotals>::empty());
        t
    }

    /// The table of `entries`, found through `index`.
    pub(crate) fn from_parts(entries: Vec<CustomerData>, index: StringHashMap<usize>) -> (t:
        CustomerTable)
        requires
            parts_wf(entries@, index@),
        ensures
            t@ == views(entries@),
            t.entries() == entries@,
    {
        CustomerTable { entries, index }
    }

    /// The number of customers.
    pub fn len(&self) -> (n: usize)
        ensures
            n == self@.len(),
            n == self.entries().len(),
    {
        self.entries.len()
    }

    /// The totals of the customer at place `i`.
    pub fn get(&self, i: usize) -> (e: &CustomerData)
        requires
            i < self@.len(),
        ensures
            *e == self.entries()[i as int],
            e@ == self@[i as int],
            e.consistent(),
            within_limits(e@),
    {
        proof {
            use_type_invariant(self);
        }
        &self.entries[i]
    }

    /// The totals of the customer with the code `code`, if there is one.
    pub fn find(&self, code: &str) -> (r: Option<&CustomerData>)
        ensures
            match r {
                Some(e) => position(self@, code@) matches Some(i) && e@ == self@[i]
                    && e.consistent(),
                None => position(self@, code@) is None,
            },
    {
        proof {
            use_type_invariant(self);
            lemma_parts_distinct(self.entries@, self.index@);
            lemma_position(self@, code@);
        }
        match self.index.get(code) {
            Some(found) => {
                let i: usize = *found;
                proof {
                    assert(self@[i as int].code == code@);
                    lemma_position_at(self@, i as int);
                }
                Some(&self.entries[i])
            },
            None => {
                proof {
                    if position(self@, code@) is Some {
                        let k = position(self@, code@)->0;
                        assert(self.index@.contains_key(self.entries@[k].customer_code@));
                    }
                }
                None
            },
        }
    }

    /// What holds of every table: the codes are distinct, every entry is
    /// consistent and within limits, and the model lists the entries.
    pub fn inspect(&self)
        ensures
            self@ == views(self.entries()),
            distinct_codes(self@),
            sum_orders(self@) <= u64::MAX,
            forall|i: int|
                0 <= i < self.entries().len() ==> (#[trigger] self.entries()[i]).consistent()
                    && within_limits(self.entries()[i]@),
    {
        proof {
            use_type_invariant(self);
            lemma_parts_distinct(self.entries@, self.index@);
        }
    }
}

/// Counts the records `rows[from..to]` into the entries.
fn absorb_rows(
    entries: &mut Vec<CustomerData>,
    index: &mut StringHashMap<usize>,
    rows: &[CachedRow],
)
    requires
        parts_wf(old(entries)@, old(index)@),
        sum_orders(views(old(entries)@)) + rows@.len() <= u64::MAX,
    ensures
        parts_wf(final(entries)@, final(index)@),
        views(final(entries)@) == aggregate_onto(views(old(entries)@), rows@),
{
    let ghost start = views(entries@);
    let mut i: usize = 0;
    assert(rows@.take(0) == Seq::<CachedRow>::empty());
    while i < rows.len()
        invariant
            i <= rows.len(),
            parts_wf(entries@, index@),
            views(entries@) == aggregate_onto(start, rows@.take(i as int)),
            sum_orders(start) + rows@.len() <= u64::MAX,
        decreases rows.len() - i,
    {
        let row = &rows[i];
        let pay = Wide::from_i128(row.pay_amount.micros());
        let recharge = Wide::from_i128(row.recharge_deduction.micros());
        proof {
            lemma_sum_orders_aggregate(start, rows@.take(i as int));
            assert(rows@.take(i + 1).drop_last() == rows@.take(i as int));
            assert(rows@.take(i + 1).last() == rows@[i as int]);
        }
        absorb_parts(
            entries,
            index,
            &row.customer_code,
            &row.customer_name,
            pay,
            recharge,
            1,
        );
        i += 1;
    }
    assert(rows@.take(i as int) == rows@);
}

/// The per-customer totals of `rows`.
pub fn aggregate_slice(rows: &[CachedRow]) -> (t: CustomerTable)
    ensures
        t@ == aggregate(rows@),
{
    let mut entries: Vec<CustomerData> = Vec::new();
    let mut index: StringHashMap<usize> = StringHashMap::new();
    assert(views(entries@) =~= Seq::<CustomerTotals>::empty());
    assert(sum_orders(views(entries@)) == 0);
    let count = rows.len();
    assert(count <= u64::MAX);
    absorb_rows(&mut entries, &mut index, rows);
    CustomerTable { entries, index }
}

/// The per-customer totals of `rows`: for each code the number of its
/// records and the sums of their amounts, with the first name that is not
/// empty.
pub fn aggregate_rows(rows: &Vec<CachedRow>) -> (t: CustomerTable)
    ensures
        t@ == aggregate(rows@),
{
    aggregate_slice(rows.as_slice())
}

/// Reduces two tables to one: the entries of `b` are counted into `a`, in
/// order. Nothing is left out and nothing is counted twice; a customer in
/// both has the sums of both.
///
/// The two tables together must not count more records than a `u64` holds.
pub fn merge_tables(a: CustomerTable, b: &CustomerTable) -> (t: CustomerTable)
    requires
        sum_orders(a@) + sum_orders(b@) <= u64::MAX,
    ensures
        t@ == merged(a@, b@),
{
    proof {
        use_type_invariant(&a);
        use_type_invariant(b);
    }
    let ghost start = a@;
    let CustomerTable { mut entries, mut index } = a;
    let mut i: usize = 0;
    assert(b@.take(0) == Seq::<CustomerTotals>::empty());
    while i < b.entries.len()
        invariant
            i <= b.entries.len(),
            parts_wf(entries@, index@),
            parts_wf(b.entries@, b.index@),
            views(entries@) == absorb_all(start, b@.take(i as int)),
            sum_orders(start) + sum_orders(b@) <= u64::MAX,
        decreases b.entries.len() - i,
    {
        let e = &b.entries[i];
        proof {
            lemma_sum_orders_merged(start, b@.take(i as int));
            lemma_sum_orders_tail(b@, i as int);
            assert(b@.take(i + 1).drop_last() == b@.take(i as int));
            assert(b@.take(i + 1).last() == b@[i as int]);
            assert(e.consistent() && within_limits(e@));
        }
        absorb_parts(
            &mut entries,
            &mut index,
            &e.customer_code,
            &e.customer_name,
            e.pay_amount,
            e.recharge_deduction,
            e.order_count,
        );
        i += 1;
    }
    assert(b@.take(i as int) == b@);
    CustomerTable { entries, index }
}

/// The first `i` entries and the entry after them count no more than all.
pub proof fn lemma_sum_orders_tail(entries: Seq<CustomerTotals>, i: int)
    requires
        0 <= i < entries.len(),
    ensures
        sum_orders(entries.take(i)) + entries[i].orders <= sum_orders(entries),
    decreases entries.len(),
{
    if i == entries.len() - 1 {
        assert(entries.take(i) == entries.drop_last());
    } else {
        lemma_sum_orders_tail(entries.drop_last(), i);
        assert(entries.drop_last().take(i) == entries.take(i));
    }
}

} // verus!

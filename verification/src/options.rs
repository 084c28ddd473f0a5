//! The values that the records offer for picking a trend: the customers,
//! and the provinces, cities, districts and regions.

use vstd::hash_map::StringHashMap;
use vstd::prelude::*;
use vstd::string::*;
use crate::aggregate::{aggregate, count_of, lemma_aggregate_counts, CustomerTotals};
use crate::customers::{
    absorb_parts, lemma_sum_orders_aggregate, parts_wf, sum_orders, views, CustomerData,
};
use crate::row::{opt_view, CachedRow};
use crate::sorted::{sorted_distinct, texts, with_key, TextSet};
use crate::trend::Dimension;
use crate::wide::Wide;

verus! {

/// A customer that can be picked: the code, and the name to show with it.
#[derive(Debug)]
pub struct CustomerOption {
    pub code: String,
    pub name: String,
}

/// The values that can be picked in each dimension.
#[derive(Debug)]
pub struct FilterOptions {
    /// The customers, in the order in which their codes first occur.
    pub customers: Vec<CustomerOption>,
    /// The provinces, ascending, each once.
    pub provinces: Vec<String>,
    /// The cities, ascending, each once.
    pub cities: Vec<String>,
    /// The districts, ascending, each once.
    pub districts: Vec<String>,
    /// The regions, ascending, each once.
    pub regions: Vec<String>,
}

/// The records of `rows` that have a customer code, in order.
pub open spec fn coded(rows: Seq<CachedRow>) -> Seq<CachedRow>
    decreases rows.len(),
{
    if rows.len() == 0 {
        Seq::empty()
    } else if rows.last().customer_code@.len() > 0 {
        coded(rows.drop_last()).push(rows.last())
    } else {
        coded(rows.drop_last())
    }
}

/// The customer name in the last record of `rows` with the code `code`;
/// empty if there is no such record.
pub open spec fn last_name(rows: Seq<CachedRow>, code: Seq<char>) -> Seq<char>
    decreases rows.len(),
{
    if rows.len() == 0 {
        Seq::empty()
    } else if rows.last().customer_code@ == code {
        rows.last().customer_name@
    } else {
        last_name(rows.drop_last(), code)
    }
}

/// The value of `row` in a dimension other than the customer, if it has one
/// that is not empty.
pub open spec fn field_value(row: CachedRow, dimension: Dimension) -> Option<Seq<char>> {
    let value = match dimension {
        Dimension::Customer => None,
        Dimension::Province => opt_view(row.province),
        Dimension::City => opt_view(row.city),
        Dimension::District => opt_view(row.district),
        Dimension::Region => opt_view(row.region),
    };
    match value {
        Some(v) => if v.len() > 0 {
            Some(v)
        } else {
            None
        },
        None => None,
    }
}

/// The values of `rows` in `dimension`, record by record.
pub open spec fn field_values(rows: Seq<CachedRow>, dimension: Dimension) -> Seq<Seq<char>>
    decreases rows.len(),
{
    if rows.len() == 0 {
        Seq::empty()
    } else {
        match field_value(rows.last(), dimension) {
            Some(v) => field_values(rows.drop_last(), dimension).push(v),
            None => field_values(rows.drop_last(), dimension),
        }
    }
}

/// Whether `customers` are the customers of `rows`: one for each code, in
/// the order in which the codes first occur, each with the name of the last
/// record of that code.
pub open spec fn lists_customers(customers: Seq<CustomerOption>, rows: Seq<CachedRow>) -> bool {
    let totals = aggregate(coded(rows));
    &&& customers.len() == totals.len()
    &&& forall|i: int|
        0 <= i < customers.len() ==> (#[trigger] customers[i]).code@ == totals[i].code
            && customers[i].name@ == last_name(coded(rows), totals[i].code)
}

impl FilterOptions {
    /// Whether these are the values that the records `rows` offer.
    pub open spec fn lists(self, rows: Seq<CachedRow>) -> bool {
        &&& lists_customers(self.customers@, rows)
        &&& texts(self.provinces@) == sorted_distinct(field_values(rows, Dimension::Province))
        &&& texts(self.cities@) == sorted_distinct(field_values(rows, Dimension::City))
        &&& texts(self.districts@) == sorted_distinct(field_values(rows, Dimension::District))
        &&& texts(self.regions@) == sorted_distinct(field_values(rows, Dimension::Region))
    }
}

/// Whether `names` holds, for every code in `rows`, the name of the last
/// record of that code.
pub open spec fn names_of(names: Map<Seq<char>, String>, rows: Seq<CachedRow>) -> bool {
    forall|code: Seq<char>|
        (#[trigger] names.contains_key(code) <==> count_of(rows, code) > 0) && (names.contains_key(
            code,
        ) ==> names[code]@ == last_name(rows, code))
}

/// One more record puts its value, if it has one, in its place among the
/// values.
proof fn lemma_values_step(seen: Seq<CachedRow>, row: CachedRow, dimension: Dimension)
    ensures
        sorted_distinct(field_values(seen.push(row), dimension)) == match field_value(
            row,
            dimension,
        ) {
            Some(v) => with_key(sorted_distinct(field_values(seen, dimension)), v),
            None => sorted_distinct(field_values(seen, dimension)),
        },
{
    assert(seen.push(row).drop_last() == seen);
    assert(seen.push(row).last() == row);
    match field_value(row, dimension) {
        Some(v) => {
            let values = field_values(seen, dimension);
            assert(values.push(v).drop_last() == values);
            assert(values.push(v).last() == v);
        },
        None => {},
    }
}

/// Puts the value of a field into the list of its dimension.
fn note_value(set: &mut TextSet, field: &Option<String>)
    ensures
        final(set)@ == match opt_view(*field) {
            Some(v) => if v.len() > 0 {
                with_key(old(set)@, v)
            } else {
                old(set)@
            },
            None => old(set)@,
        },
{
    match field {
        Some(value) => {
            if !value.as_str().is_empty() {
                set.insert(value.as_str());
            }
        },
        None => {},
    }
}

/// Collects the values that the records `rows` offer in each dimension.
pub fn collect_options(rows: &Vec<CachedRow>) -> (options: FilterOptions)
    ensures
        options.lists(rows@),
{
    let mut entries: Vec<CustomerData> = Vec::new();
    let mut index: StringHashMap<usize> = StringHashMap::new();
    let mut names: StringHashMap<String> = StringHashMap::new();
    let mut provinces = TextSet::new();
    let mut cities = TextSet::new();
    let mut districts = TextSet::new();
    let mut regions = TextSet::new();
    let mut i: usize = 0;
    proof {
        assert(rows@.take(0) == Seq::<CachedRow>::empty());
        assert(views(entries@) =~= Seq::<CustomerTotals>::empty());
        assert(sum_orders(views(entries@)) == 0);
    }
    while i < rows.len()
        invariant
            i <= rows.len(),
            parts_wf(entries@, index@),
            views(entries@) == aggregate(coded(rows@.take(i as int))),
            coded(rows@.take(i as int)).len() <= i,
            names_of(names@, coded(rows@.take(i as int))),
            provinces@ == sorted_distinct(field_values(rows@.take(i as int), Dimension::Province)),
            cities@ == sorted_distinct(field_values(rows@.take(i as int), Dimension::City)),
            districts@ == sorted_distinct(field_values(rows@.take(i as int), Dimension::District)),
            regions@ == sorted_distinct(field_values(rows@.take(i as int), Dimension::Region)),
        decreases rows.len() - i,
    {
        let row = &rows[i];
        let ghost seen = rows@.take(i as int);
        let ghost next = rows@.take(i + 1);
        proof {
            assert(next.drop_last() == seen);
            assert(next.last() == *row);
            lemma_sum_orders_aggregate(Seq::empty(), coded(seen));
            assert(next == seen.push(*row));
            lemma_values_step(seen, *row, Dimension::Province);
            lemma_values_step(seen, *row, Dimension::City);
            lemma_values_step(seen, *row, Dimension::District);
            lemma_values_step(seen, *row, Dimension::Region);
        }
        if !row.customer_code.as_str().is_empty() {
            let pay = Wide::from_i128(row.pay_amount.micros());
            let recharge = Wide::from_i128(row.recharge_deduction.micros());
            absorb_parts(
                &mut entries,
                &mut index,
                &row.customer_code,
                &row.customer_name,
                pay,
                recharge,
                1,
            );
            let ghost before = names@;
            names.insert(row.customer_code.clone(), row.customer_name.clone());
            proof {
                let kept = coded(seen);
                assert(coded(next) == kept.push(*row));
                assert(kept.push(*row).drop_last() == kept);
                assert(kept.push(*row).last() == *row);
                assert forall|code: Seq<char>|
                    (#[trigger] names@.contains_key(code) <==> count_of(coded(next), code) > 0) && (
                    names@.contains_key(code) ==> names@[code]@ == last_name(
                        coded(next),
                        code,
                    )) by {
                    assert(before.contains_key(code) <==> count_of(kept, code) > 0);
                }
            }
        }
        note_value(&mut provinces, &row.province);
        note_value(&mut cities, &row.city);
        note_value(&mut districts, &row.district);
        note_value(&mut regions, &row.region);
        i += 1;
    }
    assert(rows@.take(i as int) == rows@);
    let ghost kept = coded(rows@);
    let ghost totals = aggregate(kept);
    let mut customers: Vec<CustomerOption> = Vec::new();
    let mut k: usize = 0;
    while k < entries.len()
        invariant
            k <= entries.len(),
            kept == coded(rows@),
            totals == aggregate(kept),
            parts_wf(entries@, index@),
            views(entries@) == totals,
            names_of(names@, kept),
            customers@.len() == k,
            forall|j: int|
                0 <= j < k ==> (#[trigger] customers@[j]).code@ == totals[j].code
                    && customers@[j].name@ == last_name(kept, totals[j].code),
        decreases entries.len() - k,
    {
        let code = &entries[k].customer_code;
        proof {
            crate::customers::lemma_parts_distinct(entries@, index@);
            crate::aggregate::lemma_position_at(totals, k as int);
            lemma_aggregate_counts(kept, code@);
            assert(names@.contains_key(code@));
        }
        let name = match names.get(code.as_str()) {
            Some(name) => name.clone(),
            None => String::new(),
        };
        customers.push(CustomerOption { code: code.clone(), name });
        k += 1;
    }
    FilterOptions {
        customers,
        provinces: provinces.into_vec(),
        cities: cities.into_vec(),
        districts: districts.into_vec(),
        regions: regions.into_vec(),
    }
}

} // verus!
